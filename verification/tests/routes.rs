use fleet_conductor::http::HttpRequest;
use fleet_conductor::routes::{self, Command, Endpoint, Reply, Response, Routed};
use fleet_conductor::{
    AgentId, AgentSpec, AgentState, Binary64, Conductor, ConservationConfig, DeferredReason,
    DrainOutcome, FleetSpec, FleetState,
};

fn num(x: f64) -> Binary64 {
    Binary64::from_bits(x.to_bits())
}

fn val(x: Binary64) -> f64 {
    f64::from_bits(x.to_bits())
}

fn request(method: &str, path: &str) -> HttpRequest {
    HttpRequest {
        method: method.to_string(),
        path: path.to_string(),
        body: String::new(),
    }
}

fn example_spec(count: usize) -> FleetSpec {
    FleetSpec {
        agents: vec![AgentSpec { kind: "inference".to_string(), count, layer: 0 }],
        conservation: ConservationConfig::new(num(-0.5), num(0.5), num(0.3)),
    }
}

fn run(c: &mut Conductor, method: &str, path: &str) -> Response {
    match routes::route(&request(method, path)) {
        Routed::Run(command) => routes::perform(c, command),
        Routed::Answer(reply) => Response::Reply(reply),
        Routed::ReadSpec => panic!("no body"),
    }
}

fn reply(c: &mut Conductor, method: &str, path: &str) -> (u16, String) {
    match run(c, method, path) {
        Response::Reply(Reply { status, body }) => (status, body),
        _ => panic!("no plain reply"),
    }
}

fn fleet(c: &mut Conductor) -> FleetState {
    match run(c, "GET", "/fleet") {
        Response::Fleet(state) => state,
        _ => panic!("no fleet"),
    }
}

fn drain(c: &mut Conductor, path: &str) -> DrainOutcome {
    match run(c, "POST", path) {
        Response::Drain(outcome) => outcome,
        _ => panic!("no drain outcome"),
    }
}

#[test]
fn endpoints_are_found_by_method_and_path() {
    for (method, path, endpoint) in [
        ("GET", "/health", Endpoint::Health),
        ("GET", "/fleet", Endpoint::Fleet),
        ("POST", "/reconcile", Endpoint::Reconcile),
        ("POST", "/advance", Endpoint::Advance),
        ("POST", "/drain/7", Endpoint::Drain(AgentId(7))),
        ("POST", "/drain/+7", Endpoint::Drain(AgentId(7))),
        ("POST", "/drain/18446744073709551615", Endpoint::Drain(AgentId(u64::MAX))),
        ("POST", "/drain/18446744073709551616", Endpoint::InvalidAgentId),
        ("POST", "/drain/", Endpoint::InvalidAgentId),
        ("POST", "/drain/x", Endpoint::InvalidAgentId),
        ("POST", "/drain/7/", Endpoint::InvalidAgentId),
        ("GET", "/agent/0", Endpoint::Agent(AgentId(0))),
        ("GET", "/agent/-1", Endpoint::InvalidAgentId),
        ("GET", "/agent", Endpoint::NotFound),
        ("GET", "/drain/7", Endpoint::NotFound),
        ("POST", "/agent/7", Endpoint::NotFound),
        ("POST", "/health", Endpoint::NotFound),
        ("GET", "/reconcile", Endpoint::NotFound),
        ("get", "/health", Endpoint::NotFound),
        ("GET", "/health/", Endpoint::NotFound),
        ("GET", "/nonexistent", Endpoint::NotFound),
    ] {
        assert_eq!(routes::endpoint(&request(method, path)), endpoint, "{method} {path}");
    }
}

#[test]
fn every_agent_is_reached_under_its_number() {
    for n in [0, 9, 10, 12345, u64::MAX] {
        assert_eq!(
            routes::endpoint(&request("POST", &format!("/drain/{n}"))),
            Endpoint::Drain(AgentId(n))
        );
        assert_eq!(
            routes::endpoint(&request("GET", &format!("/agent/{n}"))),
            Endpoint::Agent(AgentId(n))
        );
    }
}

#[test]
fn fixed_replies_are_exact() {
    let mut c = Conductor::new();
    assert_eq!(reply(&mut c, "GET", "/health"), (200, "{\"status\":\"ok\"}".to_string()));
    assert_eq!(
        reply(&mut c, "POST", "/drain/x"),
        (400, "{\"error\":\"invalid agent id\"}".to_string())
    );
    assert_eq!(
        reply(&mut c, "GET", "/agent/x"),
        (400, "{\"error\":\"invalid agent id\"}".to_string())
    );
    assert_eq!(
        reply(&mut c, "GET", "/agent/999"),
        (404, "{\"error\":\"agent not found\"}".to_string())
    );
    assert_eq!(
        reply(&mut c, "GET", "/nonexistent"),
        (404, "{\"error\":\"not found\"}".to_string())
    );
}

#[test]
fn unreadable_spec_is_a_bad_request_with_a_json_body() {
    match routes::with_spec(Err("invalid type: string \"x\"\nat line 1".to_string())) {
        Err(Reply { status, body }) => {
            assert_eq!(status, 400);
            assert_eq!(
                body,
                "{\"error\":\"invalid FleetSpec: invalid type: string \\\"x\\\"\\u000aat line 1\"}"
            );
            let value: serde_json::Value = serde_json::from_str(&body).unwrap();
            assert_eq!(value["error"], "invalid FleetSpec: invalid type: string \"x\"\nat line 1");
        }
        Ok(_) => panic!("accepted"),
    }
}

#[test]
fn serialised_values_are_sent_as_they_are() {
    let ok = Reply::json_ok(Ok("[1]".to_string()));
    assert_eq!((ok.status, ok.body.as_str()), (200, "[1]"));
    let failed = Reply::json_ok(Err("a \"b\"".to_string()));
    assert_eq!(
        (failed.status, failed.body.as_str()),
        (500, "{\"error\":\"serialize error: a \\\"b\\\"\"}")
    );
}

#[test]
fn every_state_is_reported_by_name() {
    for (state, name) in [
        (AgentState::Pending, "Pending"),
        (AgentState::Starting, "Starting"),
        (AgentState::Healthy, "Healthy"),
        (AgentState::Degraded, "Degraded"),
        (AgentState::Draining, "Draining"),
        (AgentState::Terminated, "Terminated"),
    ] {
        let r = Reply::agent(Some(state));
        assert_eq!((r.status, r.body), (200, format!("{{\"state\":\"{name}\"}}")));
    }
}

#[test]
fn full_lifecycle_through_the_routes() {
    let mut c = Conductor::new();
    assert!(matches!(routes::route(&request("POST", "/reconcile")), Routed::ReadSpec));
    let command = match routes::with_spec(Ok(example_spec(4))) {
        Ok(command) => command,
        Err(_) => panic!("refused"),
    };
    assert!(matches!(command, Command::Reconcile(_)));
    match routes::perform(&mut c, command) {
        Response::Reply(Reply { status, body }) => {
            assert_eq!((status, body.as_str()), (200, "{\"status\":\"reconciled\"}"));
        }
        _ => panic!("no plain reply"),
    }

    let state = fleet(&mut c);
    assert_eq!((state.total, state.live), (4, 4));
    let inference = state.by_kind.get("inference").unwrap();
    assert_eq!(inference.observed, 4);
    assert_eq!(inference.by_state.get(&AgentState::Pending), Some(4));
    assert_eq!(val(state.eta), 0.0);

    assert_eq!(reply(&mut c, "POST", "/advance"), (200, "{\"advanced\":4}".to_string()));
    assert_eq!(reply(&mut c, "POST", "/advance"), (200, "{\"advanced\":4}".to_string()));
    let state = fleet(&mut c);
    assert_eq!(
        state.by_kind.get("inference").unwrap().by_state.get(&AgentState::Healthy),
        Some(4)
    );
    assert!((val(state.eta) - 0.4).abs() < 1e-12);

    match drain(&mut c, "/drain/0") {
        DrainOutcome::Drained { id, new_eta, .. } => {
            assert_eq!(id, AgentId(0));
            assert!((val(new_eta) - 0.3).abs() < 1e-12);
        }
        _ => panic!("not drained"),
    }
    match drain(&mut c, "/drain/1") {
        DrainOutcome::Deferred { reason, would_be_eta, .. } => {
            assert_eq!(reason, DeferredReason::EtaBelowFloor);
            assert!((val(would_be_eta) - 0.2).abs() < 1e-12);
        }
        _ => panic!("not deferred"),
    }
    let state = fleet(&mut c);
    let inference = state.by_kind.get("inference").unwrap();
    assert_eq!(inference.by_state.get(&AgentState::Draining), Some(1));
    assert_eq!(inference.by_state.get(&AgentState::Healthy), Some(3));
    assert_eq!(state.live, 3);

    assert_eq!(reply(&mut c, "POST", "/advance"), (200, "{\"advanced\":1}".to_string()));
    let state = fleet(&mut c);
    let inference = state.by_kind.get("inference").unwrap();
    assert_eq!(inference.by_state.get(&AgentState::Terminated), Some(1));
    assert_eq!(inference.by_state.get(&AgentState::Healthy), Some(3));
    assert_eq!(state.live, 3);
    assert!((val(state.eta) - 0.3).abs() < 1e-12);

    assert_eq!(
        reply(&mut c, "GET", "/agent/0"),
        (200, "{\"state\":\"Terminated\"}".to_string())
    );
    assert_eq!(reply(&mut c, "GET", "/agent/1"), (200, "{\"state\":\"Healthy\"}".to_string()));
    assert_eq!(drain(&mut c, "/drain/9"), DrainOutcome::NotFound(AgentId(9)));
}
