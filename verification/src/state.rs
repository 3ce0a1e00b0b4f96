//! Agent lifecycle state machine.
//!
//! ```text
//! Pending -> Starting -> Healthy <-> Degraded -> Draining -> Terminated
//! ```
//!
//! A healthy agent may drain without degrading first. No other edge is legal;
//! in particular no state leads to itself.

use vstd::prelude::*;
use vstd::string::*;

verus! {

/// The lifecycle state of a single agent in the fleet.
#[derive(Debug, Clone, Copy, PartialEq, Eq, Hash, Structural)]
pub enum AgentState {
    /// Allocation requested, not yet scheduled.
    Pending,
    /// Scheduled to a node, initializing.
    Starting,
    /// Running and serving requests.
    Healthy,
    /// Running but failing health checks (high latency, error rate).
    Degraded,
    /// Stop accepting new requests; finish in-flight work before termination.
    Draining,
    /// Fully stopped; resources released. Terminal state.
    Terminated,
}

impl AgentState {
    /// The legal edges of the state machine.
    pub open spec fn edge(self, to: AgentState) -> bool {
        match self {
            AgentState::Pending => to == AgentState::Starting,
            AgentState::Starting => to == AgentState::Healthy,
            AgentState::Healthy => to == AgentState::Degraded || to == AgentState::Draining,
            AgentState::Degraded => to == AgentState::Healthy || to == AgentState::Draining,
            AgentState::Draining => to == AgentState::Terminated,
            AgentState::Terminated => false,
        }
    }

    /// The name of the state.
    pub open spec fn label(self) -> Seq<char> {
        match self {
            AgentState::Pending => "Pending"@,
            AgentState::Starting => "Starting"@,
            AgentState::Healthy => "Healthy"@,
            AgentState::Degraded => "Degraded"@,
            AgentState::Draining => "Draining"@,
            AgentState::Terminated => "Terminated"@,
        }
    }

    /// Returns `true` if `self` may transition to `to`.
    pub fn can_transition(&self, to: AgentState) -> (answer: bool)
        ensures
            answer == self.edge(to),
    {
        match (*self, to) {
            (AgentState::Pending, AgentState::Starting) => true,
            (AgentState::Starting, AgentState::Healthy) => true,
            (AgentState::Healthy, AgentState::Degraded) => true,
            (AgentState::Degraded, AgentState::Healthy) => true,
            (AgentState::Healthy, AgentState::Draining) => true,
            (AgentState::Degraded, AgentState::Draining) => true,
            (AgentState::Draining, AgentState::Terminated) => true,
            _ => false,
        }
    }

    /// Attempts to transition from `self` to `to`: `Ok(to)` if the edge is
    /// legal, otherwise a [`TransitionError`] that keeps both states.
    pub fn transition(&self, to: AgentState) -> (result: Result<AgentState, TransitionError>)
        ensures
            result == if self.edge(to) {
                Ok::<AgentState, TransitionError>(to)
            } else {
                Err(TransitionError { from: *self, to })
            },
    {
        if self.can_transition(to) {
            Ok(to)
        } else {
            Err(TransitionError::new(*self, to))
        }
    }

    /// The name of the state, for display.
    pub fn to_string(&self) -> (text: String)
        ensures
            text@ == self.label(),
    {
        match self {
            AgentState::Pending => "Pending".to_owned(),
            AgentState::Starting => "Starting".to_owned(),
            AgentState::Healthy => "Healthy".to_owned(),
            AgentState::Degraded => "Degraded".to_owned(),
            AgentState::Draining => "Draining".to_owned(),
            AgentState::Terminated => "Terminated".to_owned(),
        }
    }
}

/// Error returned when a requested [`AgentState`] transition is not a legal
/// edge of the state machine.
#[derive(Debug, Clone, Copy, PartialEq, Eq, Structural)]
pub struct TransitionError {
    /// The state the agent was in when the illegal transition was requested.
    pub from: AgentState,
    /// The state that was requested.
    pub to: AgentState,
}

impl TransitionError {
    /// The message that the error displays as.
    pub open spec fn message(self) -> Seq<char> {
        if self.from == AgentState::Terminated {
            "illegal transition: "@ + self.from.label() + " is terminal and cannot move to "@
                + self.to.label()
        } else {
            "illegal transition: "@ + self.from.label() + " -> "@ + self.to.label()
                + " is not a valid edge of the agent state machine"@
        }
    }

    pub fn new(from: AgentState, to: AgentState) -> (error: TransitionError)
        ensures
            error == (TransitionError { from, to }),
    {
        TransitionError { from, to }
    }

    /// `true` if the failure was because `from` is the terminal state.
    pub fn was_terminal(&self) -> (answer: bool)
        ensures
            answer == (self.from == AgentState::Terminated),
    {
        self.from == AgentState::Terminated
    }

    /// The message, for display.
    pub fn to_string(&self) -> (text: String)
        ensures
            text@ == self.message(),
    {
        let mut text = "illegal transition: ".to_owned();
        text.append(self.from.to_string().as_str());
        if self.was_terminal() {
            text.append(" is terminal and cannot move to ");
            text.append(self.to.to_string().as_str());
        } else {
            text.append(" -> ");
            text.append(self.to.to_string().as_str());
            text.append(" is not a valid edge of the agent state machine");
        }
        text
    }
}

/// Nothing returns to `Pending`.
pub proof fn lemma_nothing_returns_to_pending(from: AgentState)
    ensures
        !from.edge(AgentState::Pending),
{
}

/// `Terminated` is terminal, and only a draining agent gets there.
pub proof fn lemma_terminated_is_terminal(other: AgentState)
    ensures
        !AgentState::Terminated.edge(other),
        other.edge(AgentState::Terminated) ==> other == AgentState::Draining,
{
}

/// No state leads to itself.
pub proof fn lemma_no_self_transition(state: AgentState)
    ensures
        !state.edge(state),
{
}

/// How far along the canonical progression a state lies.
pub open spec fn progress(state: AgentState) -> int {
    match state {
        AgentState::Pending => 0,
        AgentState::Starting => 1,
        AgentState::Healthy => 2,
        AgentState::Degraded => 3,
        AgentState::Draining => 4,
        AgentState::Terminated => 5,
    }
}

/// Recovery from `Degraded` to `Healthy` is the only edge that goes back along
/// the canonical progression, and only `Degraded` can be passed over.
pub proof fn lemma_edges_progress(from: AgentState, to: AgentState)
    requires
        from.edge(to),
    ensures
        progress(to) > progress(from) || (from == AgentState::Degraded && to
            == AgentState::Healthy),
        progress(to) <= progress(from) + 1 || (from == AgentState::Healthy && to
            == AgentState::Draining),
{
}

/// The legal edges are these seven and no others.
pub proof fn lemma_edges(from: AgentState, to: AgentState)
    ensures
        from.edge(to) <==> {
            ||| from == AgentState::Pending && to == AgentState::Starting
            ||| from == AgentState::Starting && to == AgentState::Healthy
            ||| from == AgentState::Healthy && to == AgentState::Degraded
            ||| from == AgentState::Degraded && to == AgentState::Healthy
            ||| from == AgentState::Healthy && to == AgentState::Draining
            ||| from == AgentState::Degraded && to == AgentState::Draining
            ||| from == AgentState::Draining && to == AgentState::Terminated
        },
{
}

/// States are named as they are written, so that no two share a name.
pub proof fn lemma_labels()
    ensures
        AgentState::Pending.label() == "Pending"@,
        AgentState::Starting.label() == "Starting"@,
        AgentState::Healthy.label() == "Healthy"@,
        AgentState::Degraded.label() == "Degraded"@,
        AgentState::Draining.label() == "Draining"@,
        AgentState::Terminated.label() == "Terminated"@,
{
}

/// The message of a rejected transition names the state left and the state
/// asked for, in this order, and says whether the first is terminal.
pub proof fn lemma_message(error: TransitionError)
    ensures
        error.from == AgentState::Terminated ==> error.message() == "illegal transition: "@
            + "Terminated"@ + " is terminal and cannot move to "@ + error.to.label(),
        error.from != AgentState::Terminated ==> error.message() == "illegal transition: "@
            + error.from.label() + " -> "@ + error.to.label()
            + " is not a valid edge of the agent state machine"@,
{
}

} // verus!
