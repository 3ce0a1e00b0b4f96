//! What the endpoints do and answer.
//!
//! | Method | Path         | Body             | Action                          |
//! |--------|--------------|------------------|---------------------------------|
//! | GET    | `/health`    | -                | Liveness probe.                 |
//! | GET    | `/fleet`     | -                | Observe current fleet state.    |
//! | POST   | `/reconcile` | `FleetSpec` JSON | Reconcile toward desired state. |
//! | POST   | `/advance`   | -                | Advance all agent lifecycles.   |
//! | POST   | `/drain/:id` | -                | Drain an agent (guard-gated).   |
//! | GET    | `/agent/:id` | -                | Get an agent's current state.   |

use vstd::prelude::*;
use vstd::string::*;

use crate::conductor::Conductor;
use crate::fleet::{AgentId, DrainOutcome, FleetSpec, FleetState};
use crate::http::HttpRequest;
use crate::json;
use crate::model;
use crate::model::ConductorModel;
use crate::state::AgentState;
use crate::text;

verus! {

/// What a method and a path ask for.
#[derive(Debug, Clone, Copy, PartialEq, Eq, Structural)]
pub enum Endpoint {
    Health,
    Fleet,
    Reconcile,
    Advance,
    Drain(AgentId),
    Agent(AgentId),
    /// The path names an agent, but not by a number.
    InvalidAgentId,
    NotFound,
}

/// The endpoint that a method and a path name.
pub open spec fn endpoint_of(method: Seq<char>, path: Seq<char>) -> Endpoint {
    if method == "GET"@ && path == "/health"@ {
        Endpoint::Health
    } else if method == "GET"@ && path == "/fleet"@ {
        Endpoint::Fleet
    } else if method == "POST"@ && path == "/reconcile"@ {
        Endpoint::Reconcile
    } else if method == "POST"@ && path == "/advance"@ {
        Endpoint::Advance
    } else if method == "POST"@ && text::starts_with(path, "/drain/"@) {
        match agent_id(path.skip("/drain/"@.len() as int)) {
            Some(id) => Endpoint::Drain(id),
            None => Endpoint::InvalidAgentId,
        }
    } else if method == "GET"@ && text::starts_with(path, "/agent/"@) {
        match agent_id(path.skip("/agent/"@.len() as int)) {
            Some(id) => Endpoint::Agent(id),
            None => Endpoint::InvalidAgentId,
        }
    } else {
        Endpoint::NotFound
    }
}

/// The id that a text names: a decimal number of 64 bits.
pub open spec fn agent_id(s: Seq<char>) -> Option<AgentId> {
    match text::numeral(s, u64::MAX as nat) {
        Some(n) => Some(AgentId(n as u64)),
        None => None,
    }
}

fn read_agent_id(path: &Vec<char>, from: usize) -> (id: Option<AgentId>)
    requires
        from <= path@.len(),
    ensures
        id == agent_id(path@.skip(from as int)),
{
    let rest = text::copy_range(path, from, path.len());
    assert(rest@ =~= path@.skip(from as int));
    match text::parse_numeral(&rest, u64::MAX) {
        Some(n) => Some(AgentId(n)),
        None => None,
    }
}

/// Finds the endpoint that a request names.
pub fn endpoint(req: &HttpRequest) -> (endpoint: Endpoint)
    ensures
        endpoint == endpoint_of(req.method@, req.path@),
{
    let get = text::equals(req.method.as_str(), "GET");
    let post = text::equals(req.method.as_str(), "POST");
    let path = req.path.as_str();
    if get && text::equals(path, "/health") {
        return Endpoint::Health;
    }
    if get && text::equals(path, "/fleet") {
        return Endpoint::Fleet;
    }
    if post && text::equals(path, "/reconcile") {
        return Endpoint::Reconcile;
    }
    if post && text::equals(path, "/advance") {
        return Endpoint::Advance;
    }
    let chars = text::chars_of(path);
    proof {
        reveal_strlit("/drain/");
        reveal_strlit("/agent/");
    }
    if post && text::has_prefix(&chars, "/drain/") {
        return match read_agent_id(&chars, 7) {
            Some(id) => Endpoint::Drain(id),
            None => Endpoint::InvalidAgentId,
        };
    }
    if get && text::has_prefix(&chars, "/agent/") {
        return match read_agent_id(&chars, 7) {
            Some(id) => Endpoint::Agent(id),
            None => Endpoint::InvalidAgentId,
        };
    }
    Endpoint::NotFound
}

/// A status code and a JSON body.
pub struct Reply {
    pub status: u16,
    pub body: String,
}

/// What a reply says.
pub struct ReplyModel {
    pub status: u16,
    pub body: Seq<char>,
}

impl View for Reply {
    type V = ReplyModel;

    open spec fn view(&self) -> ReplyModel {
        ReplyModel { status: self.status, body: self.body@ }
    }
}

/// A reply with one member that is a string.
pub open spec fn says(status: u16, name: Seq<char>, content: Seq<char>) -> ReplyModel {
    ReplyModel { status, body: json::object(name, json::quoted(content)) }
}

impl Reply {
    /// A reply with one member that is a string. The name and the text stand in
    /// it as they are.
    fn say(status: u16, name: &str, content: &str) -> (reply: Reply)
        ensures
            reply@ == says(status, name@, content@),
    {
        let mut body = "{\"".to_owned();
        body.append(name);
        body.append("\":");
        body.append("\"");
        body.append(content);
        body.append("\"");
        body.append("}");
        assert(body@ =~= json::object(name@, json::quoted(content@)));
        Reply { status, body }
    }

    /// An error whose message starts with a fixed text and goes on with a given
    /// one.
    fn error(status: u16, prefix: &str, message: &str) -> (reply: Reply)
        ensures
            reply@ == says(status, "error"@, prefix@ + json::escape(message@)),
            json::string_content(prefix@) ==> json::is_reply(reply@.body),
    {
        let mut content = prefix.to_owned();
        json::append_escaped(&mut content, message);
        proof {
            reveal_strlit("error");
            json::lemma_plain("error"@);
            json::lemma_escape_is_string_content(message@);
            if json::string_content(prefix@) {
                json::lemma_string_content_join(prefix@, json::escape(message@));
                json::lemma_string_member("error"@, content@);
            }
        }
        Reply::say(status, "error", content.as_str())
    }

    /// The server is alive.
    pub fn health() -> (reply: Reply)
        ensures
            reply@ == says(200, "status"@, "ok"@),
            json::is_reply(reply@.body),
    {
        proof {
            reveal_strlit("status");
            reveal_strlit("ok");
            json::lemma_plain("status"@);
            json::lemma_plain("ok"@);
            json::lemma_string_member("status"@, "ok"@);
        }
        Reply::say(200, "status", "ok")
    }

    /// The fleet was reconciled.
    pub fn reconciled() -> (reply: Reply)
        ensures
            reply@ == says(200, "status"@, "reconciled"@),
            json::is_reply(reply@.body),
    {
        proof {
            reveal_strlit("status");
            reveal_strlit("reconciled");
            json::lemma_plain("status"@);
            json::lemma_plain("reconciled"@);
            json::lemma_string_member("status"@, "reconciled"@);
        }
        Reply::say(200, "status", "reconciled")
    }

    /// So many agents advanced.
    pub fn advanced(n: usize) -> (reply: Reply)
        ensures
            reply@ == (ReplyModel {
                status: 200,
                body: json::object("advanced"@, text::decimal(n as nat)),
            }),
            json::is_reply(reply@.body),
    {
        proof {
            reveal_strlit("advanced");
            json::lemma_plain("advanced"@);
            json::lemma_count_member("advanced"@, n as nat);
        }
        let mut body = "{\"".to_owned();
        body.append("advanced");
        body.append("\":");
        text::append_decimal(&mut body, n as u64);
        body.append("}");
        Reply { status: 200, body }
    }

    /// The agent is in that state, or there is no such agent.
    pub fn agent(state: Option<AgentState>) -> (reply: Reply)
        ensures
            reply@ == lookup_reply(state),
            json::is_reply(reply@.body),
    {
        match state {
            Some(state) => {
                let label = state.to_string();
                proof {
                    reveal_strlit("state");
                    json::lemma_plain("state"@);
                    reveal_strlit("Pending");
                    reveal_strlit("Starting");
                    reveal_strlit("Healthy");
                    reveal_strlit("Degraded");
                    reveal_strlit("Draining");
                    reveal_strlit("Terminated");
                    json::lemma_plain(state.label());
                    json::lemma_string_member("state"@, state.label());
                }
                Reply::say(200, "state", label.as_str())
            },
            None => {
                proof {
                    reveal_strlit("error");
                    reveal_strlit("agent not found");
                    json::lemma_plain("error"@);
                    json::lemma_plain("agent not found"@);
                    json::lemma_string_member("error"@, "agent not found"@);
                }
                Reply::say(404, "error", "agent not found")
            },
        }
    }

    /// The path names an agent, but not by a number.
    pub fn invalid_agent_id() -> (reply: Reply)
        ensures
            reply@ == says(400, "error"@, "invalid agent id"@),
            json::is_reply(reply@.body),
    {
        proof {
            reveal_strlit("error");
            reveal_strlit("invalid agent id");
            json::lemma_plain("error"@);
            json::lemma_plain("invalid agent id"@);
            json::lemma_string_member("error"@, "invalid agent id"@);
        }
        Reply::say(400, "error", "invalid agent id")
    }

    /// No such endpoint.
    pub fn not_found() -> (reply: Reply)
        ensures
            reply@ == says(404, "error"@, "not found"@),
            json::is_reply(reply@.body),
    {
        proof {
            reveal_strlit("error");
            reveal_strlit("not found");
            json::lemma_plain("error"@);
            json::lemma_plain("not found"@);
            json::lemma_string_member("error"@, "not found"@);
        }
        Reply::say(404, "error", "not found")
    }

    /// The body of a reconcile request is no desired state, for the reason
    /// given.
    pub fn invalid_spec(message: &str) -> (reply: Reply)
        ensures
            reply@ == says(400, "error"@, "invalid FleetSpec: "@ + json::escape(message@)),
            json::is_reply(reply@.body),
    {
        proof {
            reveal_strlit("invalid FleetSpec: ");
            json::lemma_plain("invalid FleetSpec: "@);
        }
        Reply::error(400, "invalid FleetSpec: ", message)
    }

    /// A value as JSON, or the reason why it could not be serialised.
    pub fn json_ok(serialised: Result<String, String>) -> (reply: Reply)
        ensures
            match serialised {
                Ok(body) => reply@ == (ReplyModel { status: 200, body: body@ }),
                Err(message) => {
                    &&& reply@ == says(
                        500,
                        "error"@,
                        "serialize error: "@ + json::escape(message@),
                    )
                    &&& json::is_reply(reply@.body)
                },
            },
    {
        match serialised {
            Ok(body) => Reply { status: 200, body },
            Err(message) => {
                proof {
                    reveal_strlit("serialize error: ");
                    json::lemma_plain("serialize error: "@);
                }
                Reply::error(500, "serialize error: ", message.as_str())
            },
        }
    }
}

/// What a lookup of an agent answers.
pub open spec fn lookup_reply(state: Option<AgentState>) -> ReplyModel {
    match state {
        Some(state) => says(200, "state"@, state.label()),
        None => says(404, "error"@, "agent not found"@),
    }
}

/// What a conductor is asked to do.
pub enum Command {
    Observe,
    Reconcile(FleetSpec),
    Advance,
    Drain(AgentId),
    Lookup(AgentId),
}

/// What becomes of a request.
pub enum Routed {
    /// It is answered without the conductor.
    Answer(Reply),
    /// The conductor carries out a command.
    Run(Command),
    /// Its body is to be read as a [`FleetSpec`] first: see [`with_spec`].
    ReadSpec,
}

/// Decides what becomes of a request.
pub fn route(req: &HttpRequest) -> (routed: Routed)
    ensures
        match endpoint_of(req.method@, req.path@) {
            Endpoint::Health => routed matches Routed::Answer(reply) && reply@ == says(
                200,
                "status"@,
                "ok"@,
            ),
            Endpoint::Fleet => routed == Routed::Run(Command::Observe),
            Endpoint::Reconcile => routed == Routed::ReadSpec,
            Endpoint::Advance => routed == Routed::Run(Command::Advance),
            Endpoint::Drain(id) => routed == Routed::Run(Command::Drain(id)),
            Endpoint::Agent(id) => routed == Routed::Run(Command::Lookup(id)),
            Endpoint::InvalidAgentId => routed matches Routed::Answer(reply) && reply@ == says(
                400,
                "error"@,
                "invalid agent id"@,
            ),
            Endpoint::NotFound => routed matches Routed::Answer(reply) && reply@ == says(
                404,
                "error"@,
                "not found"@,
            ),
        },
        routed matches Routed::Answer(reply) ==> json::is_reply(reply@.body),
{
    match endpoint(req) {
        Endpoint::Health => Routed::Answer(Reply::health()),
        Endpoint::Fleet => Routed::Run(Command::Observe),
        Endpoint::Reconcile => Routed::ReadSpec,
        Endpoint::Advance => Routed::Run(Command::Advance),
        Endpoint::Drain(id) => Routed::Run(Command::Drain(id)),
        Endpoint::Agent(id) => Routed::Run(Command::Lookup(id)),
        Endpoint::InvalidAgentId => Routed::Answer(Reply::invalid_agent_id()),
        Endpoint::NotFound => Routed::Answer(Reply::not_found()),
    }
}

/// What becomes of a reconcile request whose body was read, with the message
/// of the reader where it holds no desired state.
pub fn with_spec(parsed: Result<FleetSpec, String>) -> (next: Result<Command, Reply>)
    ensures
        match parsed {
            Ok(spec) => next == Ok::<Command, Reply>(Command::Reconcile(spec)),
            Err(message) => {
                &&& next matches Err(reply)
                &&& reply@ == says(
                    400,
                    "error"@,
                    "invalid FleetSpec: "@ + json::escape(message@),
                )
                &&& json::is_reply(reply@.body)
            },
        },
{
    match parsed {
        Ok(spec) => Ok(Command::Reconcile(spec)),
        Err(message) => Err(Reply::invalid_spec(message.as_str())),
    }
}

/// What a conductor answers. A fleet and a drain outcome are sent as JSON.
pub enum Response {
    Reply(Reply),
    Fleet(FleetState),
    Drain(DrainOutcome),
}

/// Lets the conductor carry out a command.
pub fn perform(conductor: &mut Conductor, command: Command) -> (response: Response)
    ensures
        match command {
            Command::Observe => {
                &&& final(conductor)@ == old(conductor)@
                &&& response matches Response::Fleet(state) && model::observed(
                    state,
                    old(conductor)@,
                )
            },
            Command::Reconcile(spec) => {
                &&& final(conductor)@ == old(conductor)@.reconcile(
                    spec.wanted(),
                    spec.conservation,
                )
                &&& response matches Response::Reply(reply) && reply@ == says(
                    200,
                    "status"@,
                    "reconciled"@,
                )
            },
            Command::Advance => {
                &&& final(conductor)@ == (ConductorModel {
                    fleet: model::advance_all(old(conductor)@.fleet),
                    ..old(conductor)@
                })
                &&& response matches Response::Reply(reply) && reply@ == (ReplyModel {
                    status: 200,
                    body: json::object(
                        "advanced"@,
                        text::decimal(model::advancing_count(old(conductor)@.fleet)),
                    ),
                })
            },
            Command::Drain(id) => {
                &&& final(conductor)@ == (ConductorModel {
                    fleet: old(conductor)@.guard.drain(old(conductor)@.fleet, id.0 as int),
                    ..old(conductor)@
                })
                &&& response == Response::Drain(
                    old(conductor)@.guard.outcome(old(conductor)@.fleet, id),
                )
            },
            Command::Lookup(id) => {
                &&& final(conductor)@ == old(conductor)@
                &&& response matches Response::Reply(reply) && reply@ == lookup_reply(
                    if id.0 < old(conductor)@.fleet.len() {
                        Some(old(conductor)@.fleet[id.0 as int].state)
                    } else {
                        None
                    },
                )
            },
        },
        response matches Response::Reply(reply) ==> json::is_reply(reply@.body),
{
    match command {
        Command::Observe => Response::Fleet(conductor.observe()),
        Command::Reconcile(spec) => {
            conductor.reconcile(spec);
            Response::Reply(Reply::reconciled())
        },
        Command::Advance => {
            let n: usize = conductor.advance_lifecycle();
            Response::Reply(Reply::advanced(n))
        },
        Command::Drain(id) => Response::Drain(conductor.drain_agent(id)),
        Command::Lookup(id) => Response::Reply(Reply::agent(conductor.agent_state(id))),
    }
}

/// Every agent is reached under the decimal numeral of its id.
pub proof fn lemma_agent_paths(id: AgentId)
    ensures
        endpoint_of("POST"@, "/drain/"@ + text::decimal(id.0 as nat)) == Endpoint::Drain(id),
        endpoint_of("GET"@, "/agent/"@ + text::decimal(id.0 as nat)) == Endpoint::Agent(id),
{
    let numeral = text::decimal(id.0 as nat);
    let drain = "/drain/"@ + numeral;
    let agent = "/agent/"@ + numeral;
    reveal_strlit("GET");
    reveal_strlit("POST");
    reveal_strlit("/drain/");
    reveal_strlit("/agent/");
    reveal_strlit("/health");
    reveal_strlit("/fleet");
    reveal_strlit("/reconcile");
    reveal_strlit("/advance");
    text::lemma_numeral_of_decimal(id.0 as nat, u64::MAX as nat);
    assert(drain.take("/drain/"@.len() as int) =~= "/drain/"@);
    assert(drain.skip("/drain/"@.len() as int) =~= numeral);
    assert(agent.take("/agent/"@.len() as int) =~= "/agent/"@);
    assert(agent.skip("/agent/"@.len() as int) =~= numeral);
    assert("POST"@[0] == 'P' && "GET"@[0] == 'G');
    assert(drain[1] == 'd' && "/reconcile"@[1] == 'r' && "/advance"@[1] == 'a');
    assert(agent[2] == 'g' && "/health"@[2] == 'e' && "/fleet"@[2] == 'l');
}

/// Each endpoint has its one method and path, those of an agent its method, the
/// start of its path and a number behind it; every other request finds none.
pub proof fn lemma_endpoints(method: Seq<char>, path: Seq<char>)
    ensures
        endpoint_of(method, path) == Endpoint::Health <==> method == "GET"@ && path == "/health"@,
        endpoint_of(method, path) == Endpoint::Fleet <==> method == "GET"@ && path == "/fleet"@,
        endpoint_of(method, path) == Endpoint::Reconcile <==> method == "POST"@ && path
            == "/reconcile"@,
        endpoint_of(method, path) == Endpoint::Advance <==> method == "POST"@ && path
            == "/advance"@,
        endpoint_of(method, path) is Drain || endpoint_of(method, path) is Agent
            || endpoint_of(method, path) == Endpoint::InvalidAgentId || endpoint_of(method, path)
            == Endpoint::NotFound || endpoint_of(method, path) == Endpoint::Health || endpoint_of(
            method,
            path,
        ) == Endpoint::Fleet || endpoint_of(method, path) == Endpoint::Reconcile || endpoint_of(
            method,
            path,
        ) == Endpoint::Advance,
        forall|rest: Seq<char>|
            #![trigger "/drain/"@ + rest]
            method == "POST"@ && path == "/drain/"@ + rest ==> match text::numeral(
                rest,
                u64::MAX as nat,
            ) {
                Some(n) => endpoint_of(method, path) == Endpoint::Drain(AgentId(n as u64)),
                None => endpoint_of(method, path) == Endpoint::InvalidAgentId,
            },
        forall|rest: Seq<char>|
            #![trigger "/agent/"@ + rest]
            method == "GET"@ && path == "/agent/"@ + rest ==> match text::numeral(
                rest,
                u64::MAX as nat,
            ) {
                Some(n) => endpoint_of(method, path) == Endpoint::Agent(AgentId(n as u64)),
                None => endpoint_of(method, path) == Endpoint::InvalidAgentId,
            },
        endpoint_of(method, path) is Drain ==> method == "POST"@ && path == "/drain/"@ + path.skip(
            7,
        ),
        endpoint_of(method, path) is Agent ==> method == "GET"@ && path == "/agent/"@ + path.skip(
            7,
        ),
        endpoint_of(method, path) == Endpoint::InvalidAgentId ==> (method == "POST"@ && path
            == "/drain/"@ + path.skip(7)) || (method == "GET"@ && path == "/agent/"@ + path.skip(
            7,
        )),
{
    reveal_strlit("GET");
    reveal_strlit("POST");
    reveal_strlit("/drain/");
    reveal_strlit("/agent/");
    reveal_strlit("/health");
    reveal_strlit("/fleet");
    reveal_strlit("/reconcile");
    reveal_strlit("/advance");
    assert("POST"@[0] == 'P' && "GET"@[0] == 'G');
    assert("/health"@[1] == 'h' && "/fleet"@[1] == 'f');
    assert("/reconcile"@[1] == 'r' && "/advance"@[1] == 'a' && "/advance"@[2] == 'd');
    text::lemma_starts_with(path, "/drain/"@, Seq::empty());
    text::lemma_starts_with(path, "/agent/"@, Seq::empty());
    assert forall|rest: Seq<char>|
        #![trigger "/drain/"@ + rest]
        method == "POST"@ && path == "/drain/"@ + rest implies match text::numeral(
        rest,
        u64::MAX as nat,
    ) {
        Some(n) => endpoint_of(method, path) == Endpoint::Drain(AgentId(n as u64)),
        None => endpoint_of(method, path) == Endpoint::InvalidAgentId,
    } by {
        text::lemma_starts_with(path, "/drain/"@, rest);
        assert(path.skip(7) =~= rest);
        assert(path[1] == 'd');
    }
    assert forall|rest: Seq<char>|
        #![trigger "/agent/"@ + rest]
        method == "GET"@ && path == "/agent/"@ + rest implies match text::numeral(
        rest,
        u64::MAX as nat,
    ) {
        Some(n) => endpoint_of(method, path) == Endpoint::Agent(AgentId(n as u64)),
        None => endpoint_of(method, path) == Endpoint::InvalidAgentId,
    } by {
        text::lemma_starts_with(path, "/agent/"@, rest);
        assert(path.skip(7) =~= rest);
        assert(path[1] == 'a');
    }
}

/// The text of a reply with one member, and its status.
pub proof fn lemma_says(status: u16, name: Seq<char>, content: Seq<char>)
    ensures
        says(status, name, content).status == status,
        says(status, name, content).body == "{\""@ + name + "\":\""@ + content + "\"}"@,
{
    json::lemma_object_text(name, content);
}

/// A lookup answers with the name of the state, or that there is no such agent.
pub proof fn lemma_lookup(state: Option<AgentState>)
    ensures
        match state {
            Some(s) => lookup_reply(state).status == 200 && lookup_reply(state).body
                == "{\""@ + "state"@ + "\":\""@ + s.label() + "\"}"@,
            None => lookup_reply(state).status == 404 && lookup_reply(state).body == "{\""@
                + "error"@ + "\":\""@ + "agent not found"@ + "\"}"@,
        },
{
    match state {
        Some(s) => json::lemma_object_text("state"@, s.label()),
        None => json::lemma_object_text("error"@, "agent not found"@),
    }
}

} // verus!
