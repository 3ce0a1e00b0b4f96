//! The data of a fleet: what is asked for and what is observed.

use vstd::prelude::*;
use vstd::string::*;

use crate::binary64::Binary64;
use crate::conservation::{ConservationConfig, DeferredReason};
use crate::state::AgentState;
use crate::text;

verus! {

/// Stable identifier for an agent within a conductor's fleet.
#[derive(Debug, Clone, Copy, PartialEq, Eq, Hash, PartialOrd, Ord, Structural)]
pub struct AgentId(pub u64);

impl AgentId {
    /// The id for display: `agent-` and the number.
    pub fn to_string(&self) -> (text: String)
        ensures
            text@ == "agent-"@ + text::decimal(self.0 as nat),
    {
        let mut text = "agent-".to_owned();
        text::append_decimal(&mut text, self.0);
        text
    }
}

/// The kind/role of an agent, e.g. `"inference"` or `"coordinator"`.
pub type AgentKind = String;

/// Desired configuration for a class of agents within a fleet.
#[derive(Debug, Clone, PartialEq, Eq)]
pub struct AgentSpec {
    /// Role of the agent (e.g. `"inference"`).
    pub kind: AgentKind,
    /// Desired number of live agents of this kind.
    pub count: usize,
    /// Logical layer / tier the agent belongs to.
    pub layer: u32,
}

/// What an [`AgentSpec`] asks for.
pub struct Wanted {
    pub kind: Seq<char>,
    pub count: usize,
    pub layer: u32,
}

impl View for AgentSpec {
    type V = Wanted;

    open spec fn view(&self) -> Wanted {
        Wanted { kind: self.kind@, count: self.count, layer: self.layer }
    }
}

/// The desired fleet state handed to `Conductor::reconcile`.
#[derive(Debug, Clone)]
pub struct FleetSpec {
    /// Desired agent populations, one entry per kind.
    pub agents: Vec<AgentSpec>,
    /// Conservation bounds to enforce.
    pub conservation: ConservationConfig,
}

impl FleetSpec {
    /// The entries in order.
    pub open spec fn wanted(self) -> Seq<Wanted> {
        self.agents@.map_values(|a: AgentSpec| a@)
    }
}

/// A single agent in the fleet.
#[derive(Debug, Clone, PartialEq)]
pub struct Agent {
    pub id: AgentId,
    pub kind: AgentKind,
    pub layer: u32,
    pub state: AgentState,
}

/// How many agents are in each state. A state that no agent is in has no entry.
#[derive(Debug, Clone, PartialEq, Eq)]
pub struct StateCounts {
    pub pending: usize,
    pub starting: usize,
    pub healthy: usize,
    pub degraded: usize,
    pub draining: usize,
    pub terminated: usize,
}

impl StateCounts {
    /// The number of agents in a state.
    pub open spec fn count(self, state: AgentState) -> usize {
        match state {
            AgentState::Pending => self.pending,
            AgentState::Starting => self.starting,
            AgentState::Healthy => self.healthy,
            AgentState::Degraded => self.degraded,
            AgentState::Draining => self.draining,
            AgentState::Terminated => self.terminated,
        }
    }

    /// The entry for a state: its number of agents, or `None` if there is none.
    pub fn get(&self, state: &AgentState) -> (entry: Option<usize>)
        ensures
            entry == if self.count(*state) == 0 {
                None::<usize>
            } else {
                Some(self.count(*state))
            },
            entry is None <==> match *state {
                AgentState::Pending => self.pending == 0,
                AgentState::Starting => self.starting == 0,
                AgentState::Healthy => self.healthy == 0,
                AgentState::Degraded => self.degraded == 0,
                AgentState::Draining => self.draining == 0,
                AgentState::Terminated => self.terminated == 0,
            },
            entry matches Some(n) ==> match *state {
                AgentState::Pending => n == self.pending,
                AgentState::Starting => n == self.starting,
                AgentState::Healthy => n == self.healthy,
                AgentState::Degraded => n == self.degraded,
                AgentState::Draining => n == self.draining,
                AgentState::Terminated => n == self.terminated,
            },
    {
        let n: usize = match state {
            AgentState::Pending => self.pending,
            AgentState::Starting => self.starting,
            AgentState::Healthy => self.healthy,
            AgentState::Degraded => self.degraded,
            AgentState::Draining => self.draining,
            AgentState::Terminated => self.terminated,
        };
        if n == 0 {
            None
        } else {
            Some(n)
        }
    }
}

impl Default for StateCounts {
    fn default() -> (counts: StateCounts)
        ensures
            forall|state: AgentState| #[trigger] counts.count(state) == 0,
            counts.pending == 0 && counts.starting == 0 && counts.healthy == 0,
            counts.degraded == 0 && counts.draining == 0 && counts.terminated == 0,
    {
        StateCounts { pending: 0, starting: 0, healthy: 0, degraded: 0, draining: 0, terminated: 0 }
    }
}

/// Per-kind summary returned by `Conductor::observe`.
#[derive(Debug, Clone)]
pub struct KindSummary {
    /// Desired live count from the last [`FleetSpec`], if it named the kind.
    pub desired: Option<usize>,
    /// Observed live count (agents in Pending/Starting/Healthy/Degraded).
    pub observed: usize,
    /// Total agents of this kind (including draining/terminated).
    pub total: usize,
    /// Count of agents of this kind in each state.
    pub by_state: StateCounts,
}

impl Default for KindSummary {
    fn default() -> (summary: KindSummary)
        ensures
            summary.desired is None,
            summary.observed == 0,
            summary.total == 0,
            forall|state: AgentState| #[trigger] summary.by_state.count(state) == 0,
    {
        KindSummary { desired: None, observed: 0, total: 0, by_state: StateCounts::default() }
    }
}

/// Summaries by kind, in ascending order of kind.
#[derive(Debug, Clone)]
pub struct KindSummaries {
    pub entries: Vec<(AgentKind, KindSummary)>,
}

impl KindSummaries {
    /// The kinds that have a summary, in order.
    pub open spec fn kinds(self) -> Seq<Seq<char>> {
        self.entries@.map_values(|e: (AgentKind, KindSummary)| e.0@)
    }

    /// The summary of a kind: the first entry under its name.
    pub fn get(&self, kind: &str) -> (summary: Option<&KindSummary>)
        ensures
            summary is Some <==> self.kinds().contains(kind@),
            summary is Some <==> exists|i: int|
                0 <= i < self.entries@.len() && (#[trigger] self.entries@[i]).0@ == kind@,
            summary matches Some(s) ==> exists|i: int|
                0 <= i < self.entries@.len() && self.entries@[i].0@ == kind@ && *s
                    == self.entries@[i].1 && forall|j: int|
                    0 <= j < i ==> (#[trigger] self.entries@[j]).0@ != kind@,
    {
        let name = kind.to_owned();
        let mut i: usize = 0;
        while i < self.entries.len()
            invariant
                i <= self.entries@.len(),
                name@ == kind@,
                forall|j: int| 0 <= j < i ==> (#[trigger] self.entries@[j]).0@ != kind@,
            decreases self.entries.len() - i,
        {
            if self.entries[i].0 == name {
                assert(self.kinds()[i as int] == kind@);
                return Some(&self.entries[i].1);
            }
            i = i + 1;
        }
        None
    }

    /// Whether no kind has a summary.
    pub fn is_empty(&self) -> (answer: bool)
        ensures
            answer == (self.kinds().len() == 0),
            answer == (self.entries@.len() == 0),
    {
        self.entries.len() == 0
    }
}

/// A snapshot of the fleet at a point in time, returned by
/// `Conductor::observe`.
#[derive(Debug, Clone)]
pub struct FleetState {
    /// All agents, sorted by id for stable output.
    pub agents: Vec<Agent>,
    /// Total number of agents (all states).
    pub total: usize,
    /// Number of live agents.
    pub live: usize,
    /// Current fleet gamma.
    pub gamma: Binary64,
    /// Current fleet eta.
    pub eta: Binary64,
    /// Per-kind summaries.
    pub by_kind: KindSummaries,
}

/// Outcome of a `Conductor::drain_agent` call.
#[derive(Debug, Clone, PartialEq)]
pub enum DrainOutcome {
    /// The agent was moved to [`AgentState::Draining`].
    Drained { id: AgentId, new_eta: Binary64, new_c: Binary64 },
    /// The drain was deferred by the conservation guard; the agent is
    /// unchanged. Spawn a replacement or wait for eta to recover.
    Deferred {
        id: AgentId,
        reason: DeferredReason,
        would_be_eta: Binary64,
        would_be_c: Binary64,
    },
    /// The agent exists but is not in a drainable state
    /// ([`AgentState::Healthy`] or [`AgentState::Degraded`]).
    NotDrainable { id: AgentId, state: AgentState },
    /// No agent with that id.
    NotFound(AgentId),
}

impl DrainOutcome {
    /// `true` if the drain was executed.
    pub fn is_drained(&self) -> (answer: bool)
        ensures
            answer == (self is Drained),
    {
        match self {
            DrainOutcome::Drained { .. } => true,
            _ => false,
        }
    }

    /// `true` if the drain was deferred by the conservation guard.
    pub fn is_deferred(&self) -> (answer: bool)
        ensures
            answer == (self is Deferred),
    {
        match self {
            DrainOutcome::Deferred { .. } => true,
            _ => false,
        }
    }
}

} // verus!
