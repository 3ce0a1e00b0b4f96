use fleet_conductor::{
    AgentId, AgentSpec, AgentState, Binary64, Conductor, ConservationConfig, DeferredReason,
    DrainOutcome, FleetSpec,
};

fn num(x: f64) -> Binary64 {
    Binary64::from_bits(x.to_bits())
}

fn val(x: Binary64) -> f64 {
    f64::from_bits(x.to_bits())
}

fn example_conservation() -> ConservationConfig {
    ConservationConfig::new(num(-0.5), num(0.5), num(0.3))
}

/// A permissive config (eta_floor = 0) for tests that exercise the
/// drain-down / count logic in isolation from the conservation guard.
fn permissive_conservation() -> ConservationConfig {
    ConservationConfig::new(num(-1.0), num(1.0), num(0.0))
}

/// A conductor wired with the example conservation bounds and a generous
/// eta_per_agent so the guard is easy to exercise.
fn conductor() -> Conductor {
    Conductor::new()
        .with_conservation(example_conservation())
        .with_eta_per_agent(num(0.1))
}

/// Build a spec.
fn spec(kind: &str, count: usize, layer: u32) -> FleetSpec {
    FleetSpec {
        agents: vec![AgentSpec {
            kind: kind.to_string(),
            count,
            layer,
        }],
        conservation: example_conservation(),
    }
}

/// Build a spec with a permissive conservation config.
fn permissive_spec(kind: &str, count: usize, layer: u32) -> FleetSpec {
    FleetSpec {
        agents: vec![AgentSpec {
            kind: kind.to_string(),
            count,
            layer,
        }],
        conservation: permissive_conservation(),
    }
}

#[test]
fn observe_empty_fleet() {
    let c = conductor();
    let s = c.observe();
    assert_eq!(s.total, 0);
    assert_eq!(s.live, 0);
    assert!(s.agents.is_empty());
    assert!(s.by_kind.is_empty());
}

#[test]
fn spawn_agent_creates_pending_agent() {
    let mut c = conductor();
    let id = c.spawn_agent(AgentSpec {
        kind: "inference".to_string(),
        count: 1,
        layer: 0,
    });
    assert_eq!(c.agent_state(id), Some(AgentState::Pending));
    let s = c.observe();
    assert_eq!(s.total, 1);
    assert_eq!(s.live, 1);
    assert_eq!(s.by_kind.get("inference").unwrap().observed, 1);
    assert_eq!(s.by_kind.get("inference").unwrap().by_state.get(&AgentState::Pending), Some(1));
}

#[test]
fn reconcile_from_empty_spawns_pending_to_target_count() {
    let mut c = conductor();
    c.reconcile(spec("inference", 3, 0));

    let s = c.observe();
    assert_eq!(s.total, 3);
    assert_eq!(s.live, 3);
    let inf = s.by_kind.get("inference").unwrap();
    assert_eq!(inf.observed, 3);
    assert_eq!(inf.desired, Some(3));
    // Spawned agents start Pending.
    assert_eq!(inf.by_state.get(&AgentState::Pending), Some(3));
    assert_eq!(inf.by_state.get(&AgentState::Healthy), None);
}

#[test]
fn reconcile_is_idempotent_running_twice_changes_nothing() {
    // Reconciliation is idempotent.
    let mut c = conductor();
    c.reconcile(spec("inference", 3, 0));
    let after_first = c.observe();

    c.reconcile(spec("inference", 3, 0));
    let after_second = c.observe();

    assert_eq!(after_first.total, after_second.total);
    assert_eq!(after_first.live, after_second.live);
    let a = after_first.by_kind.get("inference").unwrap();
    let b = after_second.by_kind.get("inference").unwrap();
    assert_eq!(a.observed, b.observed);
    assert_eq!(a.by_state, b.by_state);
    // No new agents were spawned on the second pass.
    assert_eq!(after_second.total, 3);
}

#[test]
fn reconcile_drains_excess_down_to_target() {
    let mut c = Conductor::new()
        .with_conservation(permissive_conservation())
        .with_eta_per_agent(num(0.1));
    // Start with 5 Healthy inference agents.
    c.reconcile(permissive_spec("inference", 5, 0));
    c.advance_lifecycle(); // Pending -> Starting
    c.advance_lifecycle(); // Starting -> Healthy
    assert_eq!(
        c.observe().by_kind.get("inference").unwrap().by_state.get(&AgentState::Healthy),
        Some(5)
    );

    // Now lower the desired count to 2 and reconcile.
    c.reconcile(permissive_spec("inference", 2, 0));
    let s = c.observe();
    let inf = s.by_kind.get("inference").unwrap();
    // 2 remain Healthy, 3 are Draining (excess).
    assert_eq!(inf.by_state.get(&AgentState::Healthy), Some(2));
    assert_eq!(inf.by_state.get(&AgentState::Draining), Some(3));
    // Observed live (Pending/Starting/Healthy/Degraded) == desired 2.
    assert_eq!(inf.observed, 2);
}

#[test]
fn reconcile_drains_kinds_absent_from_spec() {
    let mut c = Conductor::new()
        .with_conservation(permissive_conservation())
        .with_eta_per_agent(num(0.1));
    // Fleet has coordinator agents...
    c.reconcile(permissive_spec("coordinator", 2, 1));
    c.advance_lifecycle();
    c.advance_lifecycle();
    assert_eq!(c.observe().by_kind.get("coordinator").unwrap().observed, 2);

    // ...but the new spec only wants inference. Coordinators should drain.
    c.reconcile(FleetSpec {
        agents: vec![AgentSpec {
            kind: "inference".to_string(),
            count: 1,
            layer: 0,
        }],
        conservation: permissive_conservation(),
    });
    let s = c.observe();
    assert_eq!(s.by_kind.get("coordinator").unwrap().observed, 0);
    assert_eq!(s.by_kind.get("coordinator").unwrap().by_state.get(&AgentState::Draining), Some(2));
    assert_eq!(s.by_kind.get("inference").unwrap().by_state.get(&AgentState::Pending), Some(1));
}

#[test]
fn advance_lifecycle_progresses_pending_to_healthy_one_step_at_a_time() {
    let mut c = conductor();
    c.spawn_agent(AgentSpec {
        kind: "inference".to_string(),
        count: 1,
        layer: 0,
    });
    let id = AgentId(0);

    assert_eq!(c.agent_state(id), Some(AgentState::Pending));
    assert_eq!(c.advance_lifecycle(), 1);
    assert_eq!(c.agent_state(id), Some(AgentState::Starting));
    assert_eq!(c.advance_lifecycle(), 1);
    assert_eq!(c.agent_state(id), Some(AgentState::Healthy));
    // At steady state, advance does nothing.
    assert_eq!(c.advance_lifecycle(), 0);
    assert_eq!(c.agent_state(id), Some(AgentState::Healthy));
}

#[test]
fn advance_lifecycle_completes_draining_to_terminated() {
    let mut c = conductor();
    c.reconcile(spec("inference", 1, 0));
    c.advance_lifecycle();
    c.advance_lifecycle();
    let id = AgentId(0);
    assert_eq!(c.agent_state(id), Some(AgentState::Healthy));
    // Drain (eta floor not binding with only the default generous config?
    // -- with eta_per_agent=0.1 and one agent eta=0.1 < floor 0.3, this
    // drain would be deferred. So use a permissive config here.)
    let mut c = Conductor::new().with_eta_per_agent(num(0.1));
    c.reconcile(FleetSpec {
        agents: vec![AgentSpec {
            kind: "inference".to_string(),
            count: 1,
            layer: 0,
        }],
        conservation: ConservationConfig::new(num(-1.0), num(1.0), num(0.0)),
    });
    c.advance_lifecycle();
    c.advance_lifecycle();
    let id = AgentId(0);
    assert_eq!(c.agent_state(id), Some(AgentState::Healthy));
    assert!(c.drain_agent(id).is_drained());
    assert_eq!(c.agent_state(id), Some(AgentState::Draining));
    assert_eq!(c.advance_lifecycle(), 1);
    assert_eq!(c.agent_state(id), Some(AgentState::Terminated));
}

#[test]
fn drain_deferred_when_it_would_breach_eta_floor() {
    // The canonical scenario: draining would collapse eta below
    // the floor, so the action is deferred, not executed.
    let mut c = conductor(); // eta_per_agent=0.1, eta_floor=0.3
    c.reconcile(spec("inference", 3, 0));
    c.advance_lifecycle();
    c.advance_lifecycle();
    // 3 Healthy agents -> eta = 0.3, exactly at the floor.
    assert!((val(c.current_eta()) - 0.3).abs() < 1e-12);

    // Draining one would drop eta to 0.2 < 0.3 -> deferred.
    let outcome = c.drain_agent(AgentId(0));
    assert!(outcome.is_deferred());
    match outcome {
        DrainOutcome::Deferred {
            reason,
            would_be_eta,
            ..
        } => {
            assert_eq!(reason, DeferredReason::EtaBelowFloor);
            assert!((val(would_be_eta) - 0.2).abs() < 1e-12);
        }
        _ => unreachable!("expected deferred"),
    }
    // The agent is unchanged (still Healthy).
    assert_eq!(c.agent_state(AgentId(0)), Some(AgentState::Healthy));
    // eta unchanged.
    assert!((val(c.current_eta()) - 0.3).abs() < 1e-12);
}

#[test]
fn drain_executes_when_eta_stays_above_floor() {
    let mut c = conductor();
    c.reconcile(spec("inference", 4, 0));
    c.advance_lifecycle();
    c.advance_lifecycle();
    // 4 Healthy -> eta = 0.4. Draining one -> 0.3 == floor (allowed).
    assert!((val(c.current_eta()) - 0.4).abs() < 1e-12);
    let outcome = c.drain_agent(AgentId(0));
    assert!(outcome.is_drained());
    assert_eq!(c.agent_state(AgentId(0)), Some(AgentState::Draining));
    assert!((val(c.current_eta()) - 0.3).abs() < 1e-12);
}

#[test]
fn drain_unknown_agent_returns_not_found() {
    let mut c = conductor();
    assert_eq!(
        c.drain_agent(AgentId(99)),
        DrainOutcome::NotFound(AgentId(99))
    );
}

#[test]
fn drain_pending_agent_is_not_drainable() {
    let mut c = conductor();
    let id = c.spawn_agent(AgentSpec {
        kind: "inference".to_string(),
        count: 1,
        layer: 0,
    });
    // Pending -> Draining is not a legal edge.
    assert_eq!(
        c.drain_agent(id),
        DrainOutcome::NotDrainable {
            id,
            state: AgentState::Pending
        }
    );
}

#[test]
fn reconcile_excess_drain_respects_conservation_guard() {
    // 3 Healthy agents, eta=0.3 at floor. Spec wants 0 -> reconcile tries
    // to drain all 3, but every drain would breach the floor, so all are
    // deferred and the agents stay Healthy.
    let mut c = conductor();
    c.reconcile(spec("inference", 3, 0));
    c.advance_lifecycle();
    c.advance_lifecycle();
    assert!((val(c.current_eta()) - 0.3).abs() < 1e-12);

    // Lower desired to 0 (drain everything). eta_floor=0.3 means draining
    // from 0.3 -> 0.2 breaches, so the first drain is deferred; with no
    // drain succeeding, eta never drops and all three stay.
    c.reconcile(spec("inference", 0, 0));
    let s = c.observe();
    let inf = s.by_kind.get("inference").unwrap();
    assert_eq!(inf.by_state.get(&AgentState::Healthy), Some(3));
    assert_eq!(inf.by_state.get(&AgentState::Draining), None);
    assert_eq!(inf.observed, 3); // still all live
}

#[test]
fn reconcile_excess_drain_partially_succeeds_then_defers() {
    // 4 Healthy, eta=0.4. Spec wants 0. First drain 0.4->0.3 (ok), second
    // 0.3->0.2 (deferred). So exactly one agent drains.
    let mut c = conductor();
    c.reconcile(spec("inference", 4, 0));
    c.advance_lifecycle();
    c.advance_lifecycle();

    c.reconcile(spec("inference", 0, 0));
    let s = c.observe();
    let inf = s.by_kind.get("inference").unwrap();
    assert_eq!(inf.by_state.get(&AgentState::Draining), Some(1));
    assert_eq!(inf.by_state.get(&AgentState::Healthy), Some(3));
    assert_eq!(inf.observed, 3);
}

#[test]
fn full_reconcile_advance_drain_terminate_lifecycle() {
    // End-to-end: empty -> reconcile -> advance -> drain -> terminate.
    let mut c = Conductor::new()
        .with_eta_per_agent(num(0.5))
        .with_conservation(ConservationConfig::new(num(-1.0), num(1.0), num(0.0)));
    c.reconcile(spec("inference", 2, 0));
    // Both Pending.
    assert_eq!(
        c.observe().by_kind.get("inference").unwrap().by_state.get(&AgentState::Pending),
        Some(2)
    );
    c.advance_lifecycle();
    c.advance_lifecycle();
    // Both Healthy.
    assert_eq!(
        c.observe().by_kind.get("inference").unwrap().by_state.get(&AgentState::Healthy),
        Some(2)
    );
    // Drain one.
    assert!(c.drain_agent(AgentId(0)).is_drained());
    assert_eq!(c.agent_state(AgentId(0)), Some(AgentState::Draining));
    // Complete the drain.
    c.advance_lifecycle();
    assert_eq!(c.agent_state(AgentId(0)), Some(AgentState::Terminated));
    // The other is still Healthy.
    assert_eq!(c.agent_state(AgentId(1)), Some(AgentState::Healthy));
}

#[test]
fn observe_reports_gamma_and_eta() {
    let mut c = conductor();
    c.reconcile(spec("inference", 3, 0));
    c.advance_lifecycle();
    c.advance_lifecycle();
    let s = c.observe();
    assert_eq!(val(s.gamma), 0.0);
    assert!((val(s.eta) - 0.3).abs() < 1e-12); // 3 active * 0.1
}

#[test]
fn multi_kind_reconcile() {
    let mut c = conductor();
    c.reconcile(FleetSpec {
        agents: vec![
            AgentSpec {
                kind: "inference".to_string(),
                count: 3,
                layer: 0,
            },
            AgentSpec {
                kind: "coordinator".to_string(),
                count: 1,
                layer: 1,
            },
        ],
        conservation: example_conservation(),
    });
    let s = c.observe();
    assert_eq!(s.by_kind.get("inference").unwrap().observed, 3);
    assert_eq!(s.by_kind.get("coordinator").unwrap().observed, 1);
    assert_eq!(s.total, 4);
    // Layers recorded on the agents.
    assert_eq!(s.agents.iter().filter(|a| a.layer == 1).count(), 1);
}

#[test]
fn agent_id_display_is_stable() {
    let mut c = conductor();
    let id = c.spawn_agent(AgentSpec {
        kind: "inference".to_string(),
        count: 1,
        layer: 0,
    });
    assert_eq!(id.to_string(), "agent-0");
}

#[test]
fn quickstart_scenario() {
    let mut c = conductor();
    c.reconcile(spec("inference", 4, 0));
    let s = c.observe();
    assert_eq!(s.by_kind.get("inference").unwrap().observed, 4);
    assert_eq!(s.by_kind.get("inference").unwrap().by_state.get(&AgentState::Pending), Some(4));
    c.reconcile(spec("inference", 4, 0));
    assert_eq!(c.observe().total, 4);
    c.advance_lifecycle();
    c.advance_lifecycle();
    let healthy = c.observe();
    assert_eq!(healthy.by_kind.get("inference").unwrap().by_state.get(&AgentState::Healthy), Some(4));
    assert!((val(healthy.eta) - 0.4).abs() < 1e-12);
    let first = c.observe().agents[0].id;
    assert!(c.drain_agent(first).is_drained());
    let second = c.observe().agents[1].id;
    assert!(c.drain_agent(second).is_deferred());
}

#[test]
fn new_conductor_has_documented_defaults() {
    let c = Conductor::new();
    assert_eq!(c.agent_count(), 0);
    assert_eq!(c.conservation(), ConservationConfig::new(num(-1.0), num(1.0), num(0.0)));
    assert_eq!(val(c.current_gamma()), 0.0);
    assert_eq!(val(c.current_eta()), 0.0);
    let mut d = Conductor::default();
    d.reconcile(permissive_spec("x", 1, 0));
    d.advance_lifecycle();
    d.advance_lifecycle();
    assert_eq!(val(d.current_eta()), 0.1);
}

#[test]
fn drain_outcomes_are_exact() {
    let mut c = conductor().with_gamma(num(0.25));
    c.reconcile(spec("inference", 4, 0));
    c.advance_lifecycle();
    c.advance_lifecycle();
    let eta = 0.1 * 4.0 + -0.1;
    assert_eq!(
        c.drain_agent(AgentId(2)),
        DrainOutcome::Drained {
            id: AgentId(2),
            new_eta: num(eta),
            new_c: num(0.25 + eta),
        }
    );
    let eta = 0.1 * 3.0 + -0.1;
    assert_eq!(
        c.drain_agent(AgentId(3)),
        DrainOutcome::Deferred {
            id: AgentId(3),
            reason: DeferredReason::EtaBelowFloor,
            would_be_eta: num(eta),
            would_be_c: num(0.25 + eta),
        }
    );
    assert_eq!(
        c.drain_agent(AgentId(2)),
        DrainOutcome::NotDrainable { id: AgentId(2), state: AgentState::Draining }
    );
}

#[test]
fn gamma_outside_its_bounds_defers_drains() {
    for (gamma, reason) in [
        (-0.75, DeferredReason::GammaBelowMin),
        (0.75, DeferredReason::GammaAboveMax),
        (f64::NAN, DeferredReason::UnsoundConfigOrInput),
    ] {
        let mut c = conductor().with_gamma(num(gamma));
        c.reconcile(spec("inference", 9, 0));
        c.advance_lifecycle();
        c.advance_lifecycle();
        match c.drain_agent(AgentId(0)) {
            DrainOutcome::Deferred { reason: r, .. } => assert_eq!(r, reason),
            _ => unreachable!(),
        }
        assert_eq!(c.agent_state(AgentId(0)), Some(AgentState::Healthy));
    }
}

#[test]
fn excess_is_drained_newest_first() {
    let mut c = Conductor::new();
    c.reconcile(permissive_spec("inference", 5, 0));
    c.advance_lifecycle();
    c.advance_lifecycle();
    c.reconcile(permissive_spec("inference", 3, 0));
    let states: Vec<AgentState> = c.observe().agents.iter().map(|a| a.state).collect();
    assert_eq!(
        states,
        vec![
            AgentState::Healthy,
            AgentState::Healthy,
            AgentState::Healthy,
            AgentState::Draining,
            AgentState::Draining,
        ]
    );
}

#[test]
fn agents_that_cannot_be_drained_use_up_the_excess() {
    // Two healthy agents and two newer ones that are still pending. The excess
    // of two falls on the newest, which are not in a drainable state.
    let mut c = Conductor::new();
    c.reconcile(permissive_spec("inference", 2, 0));
    c.advance_lifecycle();
    c.advance_lifecycle();
    c.reconcile(permissive_spec("inference", 4, 0));
    c.reconcile(permissive_spec("inference", 2, 0));
    let s = c.observe();
    let inf = s.by_kind.get("inference").unwrap();
    assert_eq!(inf.by_state.get(&AgentState::Healthy), Some(2));
    assert_eq!(inf.by_state.get(&AgentState::Pending), Some(2));
    assert_eq!(inf.by_state.get(&AgentState::Draining), None);
}

#[test]
fn kinds_are_spawned_in_ascending_order() {
    let mut c = Conductor::new();
    c.reconcile(FleetSpec {
        agents: vec![
            AgentSpec { kind: "b".to_string(), count: 1, layer: 7 },
            AgentSpec { kind: "a".to_string(), count: 2, layer: 8 },
            AgentSpec { kind: "\u{e9}".to_string(), count: 1, layer: 9 },
            AgentSpec { kind: "ab".to_string(), count: 1, layer: 6 },
        ],
        conservation: permissive_conservation(),
    });
    let seen: Vec<(u64, String, u32)> =
        c.observe().agents.iter().map(|a| (a.id.0, a.kind.clone(), a.layer)).collect();
    assert_eq!(
        seen,
        vec![
            (0, "a".to_string(), 8),
            (1, "a".to_string(), 8),
            (2, "ab".to_string(), 6),
            (3, "b".to_string(), 7),
            (4, "\u{e9}".to_string(), 9),
        ]
    );
    let kinds: Vec<String> = c.observe().by_kind.entries.iter().map(|e| e.0.clone()).collect();
    assert_eq!(kinds, vec!["a", "ab", "b", "\u{e9}"]);
}

#[test]
fn repeated_kind_takes_last_count_and_first_layer() {
    let mut c = Conductor::new();
    c.reconcile(FleetSpec {
        agents: vec![
            AgentSpec { kind: "x".to_string(), count: 5, layer: 1 },
            AgentSpec { kind: "x".to_string(), count: 2, layer: 9 },
        ],
        conservation: permissive_conservation(),
    });
    let s = c.observe();
    let x = s.by_kind.get("x").unwrap();
    assert_eq!(x.desired, Some(2));
    assert_eq!(x.total, 2);
    assert!(s.agents.iter().all(|a| a.layer == 1));
}

#[test]
fn wanted_kind_without_agents_is_summarized() {
    let mut c = Conductor::new();
    c.reconcile(permissive_spec("idle", 0, 0));
    let s = c.observe();
    let idle = s.by_kind.get("idle").unwrap();
    assert_eq!(idle.desired, Some(0));
    assert_eq!((idle.observed, idle.total), (0, 0));
    assert!(s.by_kind.get("other").is_none());
    // A spawned agent of a kind that nothing asked for has no desired count.
    c.spawn_agent(AgentSpec { kind: "other".to_string(), count: 3, layer: 2 });
    assert_eq!(c.observe().by_kind.get("other").unwrap().desired, None);
    assert_eq!(c.agent_count(), 1);
}

#[test]
fn reconcile_replaces_the_bounds() {
    let mut c = Conductor::new();
    c.reconcile(spec("x", 1, 0));
    assert_eq!(c.conservation(), example_conservation());
}

#[test]
fn reconcile_replaces_terminated_agents() {
    let mut c = Conductor::new();
    c.reconcile(permissive_spec("x", 2, 0));
    c.advance_lifecycle();
    c.advance_lifecycle();
    assert!(c.drain_agent(AgentId(0)).is_drained());
    c.advance_lifecycle();
    c.reconcile(permissive_spec("x", 2, 0));
    let s = c.observe();
    let x = s.by_kind.get("x").unwrap();
    assert_eq!(x.observed, 2);
    assert_eq!(x.total, 3);
    assert_eq!(x.by_state.get(&AgentState::Terminated), Some(1));
    assert_eq!(c.agent_state(AgentId(0)), Some(AgentState::Terminated));
    assert_eq!(c.agent_state(AgentId(2)), Some(AgentState::Pending));
    assert_eq!(c.agent_state(AgentId(3)), None);
}

#[test]
fn second_reconcile_after_deferred_drains_changes_nothing() {
    let mut c = conductor();
    c.reconcile(spec("inference", 6, 0));
    c.advance_lifecycle();
    c.advance_lifecycle();
    c.reconcile(spec("inference", 0, 0));
    let first: Vec<AgentState> = c.observe().agents.iter().map(|a| a.state).collect();
    c.reconcile(spec("inference", 0, 0));
    let second: Vec<AgentState> = c.observe().agents.iter().map(|a| a.state).collect();
    assert_eq!(first, second);
    assert!(first.contains(&AgentState::Healthy));
    assert!(first.contains(&AgentState::Draining));
}

#[test]
fn reconcile_converges_with_permissive_bounds() {
    let mut c = Conductor::new();
    for (kind, count) in [("a", 3), ("b", 4), ("a", 1)] {
        c.reconcile(permissive_spec(kind, count, 0));
        c.advance_lifecycle();
        c.advance_lifecycle();
        let s = c.observe();
        assert_eq!(s.by_kind.get(kind).unwrap().observed, count);
    }
    assert_eq!(c.observe().live, 1);
}

#[test]
fn state_counts_add_up_to_the_total() {
    let mut c = Conductor::new();
    c.reconcile(permissive_spec("x", 3, 0));
    c.advance_lifecycle();
    c.advance_lifecycle();
    c.drain_agent(AgentId(1));
    c.reconcile(permissive_spec("x", 4, 0));
    let s = c.observe();
    let x = s.by_kind.get("x").unwrap();
    let sum: usize = [
        AgentState::Pending,
        AgentState::Starting,
        AgentState::Healthy,
        AgentState::Degraded,
        AgentState::Draining,
        AgentState::Terminated,
    ]
    .iter()
    .map(|state| x.by_state.get(state).unwrap_or(0))
    .sum();
    assert_eq!(sum, x.total);
    assert_eq!(x.total, 5);
    assert_eq!(x.observed, 4);
}

#[test]
fn drained_eta_may_round_below_the_recomputed_floor() {
    // The guard compares eta less one agent's part with the floor, in binary
    // arithmetic: 0.1 * 3 - 0.1 is just above 0.1 * 2.
    let floor = 0.1 * 3.0 + -0.1;
    assert!(floor > 0.1 * 2.0);
    let mut c = Conductor::new();
    c.reconcile(FleetSpec {
        agents: vec![AgentSpec { kind: "x".to_string(), count: 3, layer: 0 }],
        conservation: ConservationConfig::new(num(-1.0), num(1.0), num(floor)),
    });
    c.advance_lifecycle();
    c.advance_lifecycle();
    assert!(c.drain_agent(AgentId(0)).is_drained());
    assert!(val(c.current_eta()) < floor);
}

#[test]
fn infinite_contributions_are_never_drained_away() {
    let mut c = Conductor::new().with_eta_per_agent(num(f64::INFINITY));
    c.reconcile(permissive_spec("x", 1, 0));
    c.advance_lifecycle();
    c.advance_lifecycle();
    match c.drain_agent(AgentId(0)) {
        DrainOutcome::Deferred { reason, .. } => {
            assert_eq!(reason, DeferredReason::UnsoundConfigOrInput)
        }
        _ => unreachable!(),
    }
}

#[test]
fn agent_ids_show_their_number() {
    assert_eq!(AgentId(7).to_string(), "agent-7");
    assert_eq!(AgentId(u64::MAX).to_string(), "agent-18446744073709551615");
}

#[test]
fn ticks_keep_live_counts_and_active_agents() {
    let mut c = Conductor::new();
    c.reconcile(permissive_spec("x", 3, 0));
    for _ in 0..4 {
        let before = c.observe();
        c.advance_lifecycle();
        let after = c.observe();
        assert_eq!(after.live, before.live);
        assert!(val(after.eta) >= val(before.eta));
        c.drain_agent(AgentId(0));
    }
    assert_eq!(c.agent_state(AgentId(0)), Some(AgentState::Terminated));
    assert_eq!(c.observe().live, 2);
}

#[test]
fn gamma_bound_is_named_before_an_infinite_contribution() {
    let mut c = Conductor::new()
        .with_eta_per_agent(num(f64::INFINITY))
        .with_gamma(num(2.0));
    c.reconcile(permissive_spec("x", 1, 0));
    c.advance_lifecycle();
    c.advance_lifecycle();
    match c.drain_agent(AgentId(0)) {
        DrainOutcome::Deferred { reason, would_be_eta, .. } => {
            assert_eq!(reason, DeferredReason::GammaAboveMax);
            assert!(would_be_eta.is_nan());
        }
        _ => unreachable!(),
    }
}
