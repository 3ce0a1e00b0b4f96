//! In-memory fleet conductor: desired-state reconciliation over an in-memory
//! fleet.
//!
//! The [`Conductor`] reconciles a desired [`FleetSpec`] against the observed
//! state by spawning `Pending` agents to cover deficits and draining excess
//! agents, with every drain gated by the [`ConservationConfig`] guard. Gamma is
//! held at a nominal value, and eta is the number of active agents times what
//! each contributes.

use vstd::prelude::*;
use vstd::string::*;

use crate::binary64;
use crate::binary64::Binary64;
use crate::conservation::{ConservationConfig, ConservationVerdict};
use crate::fleet::{
    Agent, AgentId, AgentKind, AgentSpec, DrainOutcome, FleetSpec, FleetState, KindSummaries,
    KindSummary, StateCounts, Wanted,
};
use crate::model;
use crate::model::{ConductorModel, Guard, Member};
use crate::state::AgentState;
use crate::text;

verus! {

/// States that count as "live" (present in the fleet, serving or soon to).
pub fn is_live(state: AgentState) -> (answer: bool)
    ensures
        answer == model::live(state),
{
    match state {
        AgentState::Pending
        | AgentState::Starting
        | AgentState::Healthy
        | AgentState::Degraded => true,
        _ => false,
    }
}

/// States that contribute to fleet eta (diversity/capacity).
pub fn contributes_eta(state: AgentState) -> (answer: bool)
    ensures
        answer == model::active(state),
{
    match state {
        AgentState::Healthy | AgentState::Degraded => true,
        _ => false,
    }
}

/// What the conductor keeps of an agent. The id is the position.
struct Slot {
    kind: AgentKind,
    layer: u32,
    state: AgentState,
}

impl View for Slot {
    type V = Member;

    closed spec fn view(&self) -> Member {
        Member { kind: self.kind@, layer: self.layer, state: self.state }
    }
}

/// The in-memory fleet conductor.
pub struct Conductor {
    /// The agents in the order in which they were spawned.
    agents: Vec<Slot>,
    /// The entries of the last desired state.
    wanted: Vec<AgentSpec>,
    conservation: ConservationConfig,
    /// Nominal fleet gamma.
    gamma: Binary64,
    /// Eta contributed by each active (Healthy/Degraded) agent.
    eta_per_agent: Binary64,
}

impl View for Conductor {
    type V = ConductorModel;

    closed spec fn view(&self) -> ConductorModel {
        ConductorModel {
            fleet: self.agents@.map_values(|s: Slot| s@),
            wanted: self.wanted@.map_values(|a: AgentSpec| a@),
            guard: Guard {
                conservation: self.conservation,
                gamma: self.gamma,
                eta_per_agent: self.eta_per_agent,
            },
        }
    }
}

/// The names in a list of kinds.
spec fn names(kinds: Seq<AgentKind>) -> Seq<Seq<char>> {
    kinds.map_values(|k: AgentKind| k@)
}

/// Ids as positions in the fleet.
spec fn positions(ids: Seq<usize>) -> Seq<int> {
    ids.map_values(|i: usize| i as int)
}

proof fn lemma_wants_take(wanted: Seq<Wanted>, i: int, kind: Seq<char>)
    requires
        0 <= i < wanted.len(),
    ensures
        model::wants(wanted.take(i + 1), kind) <==> model::wants(wanted.take(i), kind)
            || wanted[i].kind == kind,
{
    let shorter = wanted.take(i);
    let longer = wanted.take(i + 1);
    if model::wants(shorter, kind) {
        let j = choose|j: int| 0 <= j < shorter.len() && (#[trigger] shorter[j]).kind == kind;
        assert(longer[j].kind == kind);
    }
    if model::wants(longer, kind) {
        let j = choose|j: int| 0 <= j < longer.len() && (#[trigger] longer[j]).kind == kind;
        if j < i {
            assert(shorter[j].kind == kind);
        }
    }
    assert(longer[i] == wanted[i]);
}

proof fn lemma_knows_take(fleet: Seq<Member>, wanted: Seq<Wanted>, i: int, kind: Seq<char>)
    requires
        0 <= i < fleet.len(),
    ensures
        model::knows(fleet.take(i + 1), wanted, kind) <==> model::knows(
            fleet.take(i),
            wanted,
            kind,
        ) || fleet[i].kind == kind,
{
    let shorter = fleet.take(i);
    let longer = fleet.take(i + 1);
    if exists|j: int| 0 <= j < shorter.len() && (#[trigger] shorter[j]).kind == kind {
        let j = choose|j: int| 0 <= j < shorter.len() && (#[trigger] shorter[j]).kind == kind;
        assert(longer[j].kind == kind);
    }
    if exists|j: int| 0 <= j < longer.len() && (#[trigger] longer[j]).kind == kind {
        let j = choose|j: int| 0 <= j < longer.len() && (#[trigger] longer[j]).kind == kind;
        if j < i {
            assert(shorter[j].kind == kind);
        }
    }
    assert(longer[i] == fleet[i]);
}

/// Adds a kind to an ascending list, unless the list has it.
fn insert_kind(kinds: &mut Vec<AgentKind>, kind: &AgentKind)
    requires
        model::ascending(names(old(kinds)@)),
    ensures
        model::ascending(names(final(kinds)@)),
        forall|k: Seq<char>| #[trigger]
            names(final(kinds)@).contains(k) <==> names(old(kinds)@).contains(k) || k == kind@,
{
    let ghost before = names(kinds@);
    let mut i: usize = 0;
    while i < kinds.len() && text::comes_before(kinds[i].as_str(), kind.as_str())
        invariant
            i <= kinds@.len(),
            before == names(kinds@),
            forall|j: int| 0 <= j < i ==> text::precedes(#[trigger] before[j], kind@),
        decreases kinds.len() - i,
    {
        assert(before[i as int] == kinds@[i as int]@);
        i = i + 1;
    }
    if i < kinds.len() {
        assert(before[i as int] == kinds@[i as int]@);
        if kinds[i] == *kind {
            return;
        }
        proof {
            text::lemma_precedes_total(before[i as int], kind@);
        }
    }
    kinds.insert(i, kind.clone());
    proof {
        let after = names(kinds@);
        assert(after =~= before.insert(i as int, kind@));
        assert forall|a: int, b: int| 0 <= a < b < after.len() implies text::precedes(
            #[trigger] after[a],
            #[trigger] after[b],
        ) by {
            if a == i && i < before.len() && b > i + 1 {
                text::lemma_precedes_transitive(kind@, before[i as int], before[b - 1]);
            }
        }
        assert forall|k: Seq<char>| #[trigger] after.contains(k) <==> before.contains(k) || k
            == kind@ by {
            if before.contains(k) {
                let j = choose|j: int| 0 <= j < before.len() && before[j] == k;
                if j < i {
                    assert(after[j] == k);
                } else {
                    assert(after[j + 1] == k);
                }
            }
            assert(after[i as int] == kind@);
            if after.contains(k) && k != kind@ {
                let j = choose|j: int| 0 <= j < after.len() && after[j] == k;
                if j < i {
                    assert(before[j] == k);
                } else {
                    assert(before[j - 1] == k);
                }
            }
        }
    }
}

impl Default for Conductor {
    fn default() -> (conductor: Conductor)
        ensures
            conductor@ == ConductorModel::initial(),
    {
        Conductor::new()
    }
}

impl Conductor {
    /// Create an empty conductor with the default conservation config (gamma in
    /// `[-1, 1]`, eta at least zero), gamma zero and one tenth of eta per
    /// agent.
    pub fn new() -> (conductor: Conductor)
        ensures
            conductor@ == ConductorModel::initial(),
    {
        let conductor = Conductor {
            agents: Vec::new(),
            wanted: Vec::new(),
            conservation: ConservationConfig::default(),
            gamma: Binary64::from_count(0),
            eta_per_agent: Binary64::from_bits(0x3FB9_9999_9999_999A),
        };
        proof {
            binary64::lemma_one_tenth();
        }
        assert(conductor@.fleet =~= Seq::empty());
        assert(conductor@.wanted =~= Seq::empty());
        conductor
    }

    /// Set the conservation bounds to enforce on drains.
    pub fn with_conservation(self, cfg: ConservationConfig) -> (conductor: Conductor)
        ensures
            conductor@ == (ConductorModel {
                guard: Guard { conservation: cfg, ..self@.guard },
                ..self@
            }),
    {
        let mut conductor = self;
        conductor.conservation = cfg;
        conductor
    }

    /// Set the nominal fleet gamma.
    pub fn with_gamma(self, gamma: Binary64) -> (conductor: Conductor)
        ensures
            conductor@ == (ConductorModel { guard: Guard { gamma, ..self@.guard }, ..self@ }),
    {
        let mut conductor = self;
        conductor.gamma = gamma;
        conductor
    }

    /// Set the per-agent eta contribution.
    pub fn with_eta_per_agent(self, eta_per_agent: Binary64) -> (conductor: Conductor)
        ensures
            conductor@ == (ConductorModel {
                guard: Guard { eta_per_agent, ..self@.guard },
                ..self@
            }),
    {
        let mut conductor = self;
        conductor.eta_per_agent = eta_per_agent;
        conductor
    }

    /// The conservation config currently in effect.
    pub fn conservation(&self) -> (cfg: ConservationConfig)
        ensures
            cfg == self@.guard.conservation,
    {
        self.conservation
    }

    /// Current fleet gamma (nominal).
    pub fn current_gamma(&self) -> (gamma: Binary64)
        ensures
            gamma == self@.guard.gamma,
    {
        self.gamma
    }

    /// Current fleet eta: the per-agent contribution times the number of active
    /// (Healthy/Degraded) agents.
    pub fn current_eta(&self) -> (eta: Binary64)
        ensures
            eta == self@.guard.eta(model::active_count(self@.fleet)),
    {
        let mut n: usize = 0;
        let ghost fleet = self@.fleet;
        let mut i: usize = 0;
        assert(fleet.take(0) =~= Seq::empty());
        while i < self.agents.len()
            invariant
                i <= self.agents@.len(),
                fleet == self@.fleet,
                fleet.len() == self.agents@.len(),
                n <= i,
                n == model::active_count(fleet.take(i as int)),
            decreases self.agents.len() - i,
        {
            proof {
                model::lemma_count_take(fleet, model::is_active(), i as int);
            }
            if contributes_eta(self.agents[i].state) {
                n = n + 1;
            }
            i = i + 1;
        }
        assert(fleet.take(fleet.len() as int) =~= fleet);
        self.eta_per_agent.product(Binary64::from_count(n))
    }

    /// Number of agents in the fleet (all states).
    pub fn agent_count(&self) -> (n: usize)
        ensures
            n == self@.fleet.len(),
    {
        self.agents.len()
    }

    /// Look up an agent's state by id.
    pub fn agent_state(&self, id: AgentId) -> (state: Option<AgentState>)
        ensures
            state == if id.0 < self@.fleet.len() {
                Some(self@.fleet[id.0 as int].state)
            } else {
                None::<AgentState>
            },
    {
        if id.0 < self.agents.len() as u64 {
            Some(self.agents[id.0 as usize].state)
        } else {
            None
        }
    }

    /// Spawn a single new agent as [`AgentState::Pending`].
    ///
    /// `spec.count` is ignored here (it is a reconcile-level concern); the
    /// agent's `kind` and `layer` are taken from `spec`. Returns the new id.
    pub fn spawn_agent(&mut self, spec: AgentSpec) -> (id: AgentId)
        ensures
            id.0 == old(self)@.fleet.len(),
            final(self)@ == (ConductorModel {
                fleet: old(self)@.fleet.push(
                    Member { kind: spec.kind@, layer: spec.layer, state: AgentState::Pending },
                ),
                ..old(self)@
            }),
    {
        let id = AgentId(self.agents.len() as u64);
        self.agents.push(Slot { kind: spec.kind, layer: spec.layer, state: AgentState::Pending });
        assert(self@.fleet =~= old(self)@.fleet.push(
            Member { kind: spec.kind@, layer: spec.layer, state: AgentState::Pending },
        ));
        id
    }

    /// Attempt to drain an agent, gated by the conservation guard.
    ///
    /// Only [`AgentState::Healthy`] and [`AgentState::Degraded`] agents may be
    /// drained. The drain removes the agent's eta contribution; if that would
    /// breach `eta_floor` (or a gamma bound), the drain is deferred and the
    /// agent is left unchanged.
    pub fn drain_agent(&mut self, id: AgentId) -> (outcome: DrainOutcome)
        ensures
            outcome == old(self)@.guard.outcome(old(self)@.fleet, id),
            final(self)@ == (ConductorModel {
                fleet: old(self)@.guard.drain(old(self)@.fleet, id.0 as int),
                ..old(self)@
            }),
    {
        let state = match self.agent_state(id) {
            Some(state) => state,
            None => return DrainOutcome::NotFound(id),
        };
        if !contributes_eta(state) {
            return DrainOutcome::NotDrainable { id, state };
        }
        let gamma = self.current_gamma();
        let eta = self.current_eta();
        // Draining this agent removes its eta contribution; gamma is nominal.
        let delta_eta = self.eta_per_agent.negate();
        match self.conservation.check(gamma, eta, Binary64::from_count(0), delta_eta) {
            ConservationVerdict::Safe { gamma: _, eta: new_eta, c: new_c } => {
                if let Ok(next) = state.transition(AgentState::Draining) {
                    assert(id.0 < self.agents.len());
                    self.set_state(id.0 as usize, next);
                }
                DrainOutcome::Drained { id, new_eta, new_c }
            },
            ConservationVerdict::Deferred {
                reason,
                would_be_gamma: _,
                would_be_eta,
                would_be_c,
                limit: _,
            } => DrainOutcome::Deferred { id, reason, would_be_eta, would_be_c },
        }
    }

    /// Observe the current in-memory fleet state.
    pub fn observe(&self) -> (snapshot: FleetState)
        ensures
            model::observed(snapshot, self@),
    {
        let ghost fleet = self@.fleet;
        let mut agents: Vec<Agent> = Vec::new();
        let mut live: usize = 0;
        let mut i: usize = 0;
        assert(fleet.take(0) =~= Seq::empty());
        while i < self.agents.len()
            invariant
                i <= self.agents@.len(),
                fleet == self@.fleet,
                fleet.len() == self.agents@.len(),
                model::lists_agents(agents@, fleet.take(i as int)),
                live <= i,
                live == model::count(fleet.take(i as int), model::is_live()),
            decreases self.agents.len() - i,
        {
            proof {
                model::lemma_count_take(fleet, model::is_live(), i as int);
                assert(fleet[i as int] == self.agents@[i as int]@);
            }
            let slot = &self.agents[i];
            if is_live(slot.state) {
                live = live + 1;
            }
            agents.push(
                Agent {
                    id: AgentId(i as u64),
                    kind: slot.kind.clone(),
                    layer: slot.layer,
                    state: slot.state,
                },
            );
            i = i + 1;
        }
        assert(fleet.take(fleet.len() as int) =~= fleet);
        let kinds = self.kinds();
        let mut entries: Vec<(AgentKind, KindSummary)> = Vec::new();
        let mut k: usize = 0;
        while k < kinds.len()
            invariant
                k <= kinds@.len(),
                entries@.len() == k,
                forall|j: int|
                    0 <= j < k ==> (#[trigger] entries@[j]).0@ == kinds@[j]@ && model::summarizes(
                        entries@[j].1,
                        self@.fleet,
                        self@.wanted,
                        entries@[j].0@,
                    ),
            decreases kinds.len() - k,
        {
            let summary = self.summarize(&kinds[k]);
            entries.push((kinds[k].clone(), summary));
            k = k + 1;
        }
        let by_kind = KindSummaries { entries };
        proof {
            assert(by_kind.kinds() =~= names(kinds@));
            model::lemma_known_kinds(names(kinds@), self@.fleet, self@.wanted);
        }
        FleetState {
            agents,
            total: self.agents.len(),
            live,
            gamma: self.current_gamma(),
            eta: self.current_eta(),
            by_kind,
        }
    }

    /// The summary of one kind.
    fn summarize(&self, kind: &AgentKind) -> (summary: KindSummary)
        ensures
            model::summarizes(summary, self@.fleet, self@.wanted, kind@),
    {
        let ghost fleet = self@.fleet;
        let mut observed: usize = 0;
        let mut total: usize = 0;
        let mut by_state = StateCounts::default();
        let mut i: usize = 0;
        assert(fleet.take(0) =~= Seq::empty());
        while i < self.agents.len()
            invariant
                i <= self.agents@.len(),
                fleet == self@.fleet,
                fleet.len() == self.agents@.len(),
                observed <= i,
                observed == model::live_count(fleet.take(i as int), kind@),
                total <= i,
                total == model::count(fleet.take(i as int), model::of_kind(kind@)),
                forall|state: AgentState| #[trigger]
                    by_state.count(state) == model::count(
                        fleet.take(i as int),
                        model::in_state(kind@, state),
                    ) && by_state.count(state) <= i,
            decreases self.agents.len() - i,
        {
            let ghost before = by_state;
            let state = self.agents[i].state;
            proof {
                assert(fleet[i as int] == self.agents@[i as int]@);
                model::lemma_count_take(fleet, model::live_of(kind@), i as int);
                model::lemma_count_take(fleet, model::of_kind(kind@), i as int);
                assert(before.count(state) <= i);
            }
            if self.agents[i].kind == *kind {
                total = total + 1;
                if is_live(state) {
                    observed = observed + 1;
                }
                match state {
                    AgentState::Pending => {
                        by_state.pending = by_state.pending + 1;
                    },
                    AgentState::Starting => {
                        by_state.starting = by_state.starting + 1;
                    },
                    AgentState::Healthy => {
                        by_state.healthy = by_state.healthy + 1;
                    },
                    AgentState::Degraded => {
                        by_state.degraded = by_state.degraded + 1;
                    },
                    AgentState::Draining => {
                        by_state.draining = by_state.draining + 1;
                    },
                    AgentState::Terminated => {
                        by_state.terminated = by_state.terminated + 1;
                    },
                }
            }
            proof {
                assert forall|s: AgentState| #[trigger]
                    by_state.count(s) == model::count(
                        fleet.take(i + 1),
                        model::in_state(kind@, s),
                    ) && by_state.count(s) <= i + 1 by {
                    model::lemma_count_take(fleet, model::in_state(kind@, s), i as int);
                    assert(before.count(s) == model::count(
                        fleet.take(i as int),
                        model::in_state(kind@, s),
                    ));
                }
            }
            i = i + 1;
        }
        assert(fleet.take(fleet.len() as int) =~= fleet);
        KindSummary { desired: self.desired(kind), observed, total, by_state }
    }

    /// Reconcile the fleet toward the desired `spec`.
    ///
    /// For each kind: if observed live agents are below the desired count,
    /// spawn `Pending` agents to cover the deficit; if above, drain the excess
    /// (preferring [`AgentState::Degraded`] agents, then newest-first), with
    /// each drain gated by the conservation guard. Agents of a kind absent
    /// from the spec are drained toward zero. The call is idempotent: running
    /// it again with the same spec performs no further changes.
    pub fn reconcile(&mut self, spec: FleetSpec)
        ensures
            final(self)@ == old(self)@.reconcile(spec.wanted(), spec.conservation),
    {
        let ghost wanted = spec.wanted();
        let ghost fleet = self@.fleet;
        let ghost guard = Guard { conservation: spec.conservation, ..self@.guard };
        self.conservation = spec.conservation;
        self.wanted = spec.agents;
        let kinds = self.kinds();
        let ghost list = names(kinds@);
        proof {
            model::lemma_known_kinds(list, fleet, wanted);
        }
        let mut i: usize = 0;
        while i < kinds.len()
            invariant
                i <= kinds@.len(),
                list == names(kinds@),
                self@ == (ConductorModel {
                    fleet: guard.reconcile_kinds(fleet, wanted, list.take(i as int)),
                    wanted,
                    guard,
                }),
            decreases kinds.len() - i,
        {
            assert(list.take(i + 1).drop_last() =~= list.take(i as int));
            assert(list[i as int] == kinds@[i as int]@);
            self.reconcile_kind(&kinds[i]);
            i = i + 1;
        }
        assert(list.take(list.len() as int) =~= list);
    }

    /// Brings one kind toward the number of live agents asked for.
    fn reconcile_kind(&mut self, kind: &AgentKind)
        ensures
            final(self)@ == (ConductorModel {
                fleet: old(self)@.guard.reconcile_kind(old(self)@.fleet, old(self)@.wanted, kind@),
                ..old(self)@
            }),
    {
        let ghost before = self@;
        let ghost fleet = self@.fleet;
        let ghost order = model::drain_order(fleet, kind@);
        let desired: usize = match self.desired(kind) {
            Some(count) => count,
            None => 0,
        };
        let mut ids: Vec<usize> = Vec::new();
        assert(positions(ids@) =~= Seq::empty());
        self.append_newest_first(&mut ids, kind, true);
        self.append_newest_first(&mut ids, kind, false);
        assert(positions(ids@) =~= order);
        if ids.len() < desired {
            let deficit: usize = desired - ids.len();
            let layer: u32 = self.layer(kind);
            let mut n: usize = 0;
            assert(model::spawn(fleet, kind@, layer, 0) =~= fleet);
            while n < deficit
                invariant
                    n <= deficit,
                    self@ == (ConductorModel {
                        fleet: model::spawn(fleet, kind@, layer, n as nat),
                        ..before
                    }),
                decreases deficit - n,
            {
                self.spawn_agent(AgentSpec { kind: kind.clone(), count: 1, layer });
                n = n + 1;
                assert(self@.fleet =~= model::spawn(fleet, kind@, layer, n as nat));
            }
        } else {
            let excess: usize = ids.len() - desired;
            let mut n: usize = 0;
            assert(order.take(0) =~= Seq::empty());
            while n < excess
                invariant
                    n <= excess <= ids@.len(),
                    order == positions(ids@),
                    self@ == (ConductorModel {
                        fleet: before.guard.drain_all(fleet, order.take(n as int)),
                        ..before
                    }),
                decreases excess - n,
            {
                // A deferred drain is left for a subsequent cycle.
                let _ = self.drain_agent(AgentId(ids[n] as u64));
                assert(order.take(n + 1).drop_last() =~= order.take(n as int));
                assert(order[n as int] == ids@[n as int]);
                n = n + 1;
            }
        }
    }

    /// Advance every agent one legal step toward its steady state:
    /// - `Pending -> Starting`
    /// - `Starting -> Healthy`
    /// - `Draining -> Terminated`
    ///
    /// `Healthy`, `Degraded`, and `Terminated` are unchanged. Returns the
    /// number of agents that advanced.
    pub fn advance_lifecycle(&mut self) -> (advanced: usize)
        ensures
            advanced == model::advancing_count(old(self)@.fleet),
            final(self)@ == (ConductorModel {
                fleet: model::advance_all(old(self)@.fleet),
                ..old(self)@
            }),
    {
        let ghost before = self@;
        let ghost fleet = self@.fleet;
        let ghost moved = model::advance_all(fleet);
        let mut advanced: usize = 0;
        let mut i: usize = 0;
        assert(fleet.take(0) =~= Seq::empty());
        assert(moved.take(0) + fleet.skip(0) =~= fleet);
        while i < self.agents.len()
            invariant
                i <= self.agents@.len(),
                self.agents@.len() == fleet.len(),
                moved == model::advance_all(fleet),
                self@ == (ConductorModel {
                    fleet: moved.take(i as int) + fleet.skip(i as int),
                    ..before
                }),
                advanced <= i,
                advanced == model::advancing_count(fleet.take(i as int)),
            decreases self.agents.len() - i,
        {
            proof {
                model::lemma_count_take(fleet, model::is_advancing(), i as int);
                assert(self@.fleet[i as int] == fleet[i as int]);
                assert(self@.fleet[i as int] == self.agents@[i as int]@);
            }
            let state = self.agents[i].state;
            let next: Option<AgentState> = match state {
                AgentState::Pending => Some(AgentState::Starting),
                AgentState::Starting => Some(AgentState::Healthy),
                AgentState::Draining => Some(AgentState::Terminated),
                _ => None,
            };
            if let Some(next) = next {
                if let Ok(reached) = state.transition(next) {
                    self.set_state(i, reached);
                    advanced = advanced + 1;
                }
            }
            assert(self@.fleet =~= moved.take(i + 1) + fleet.skip(i + 1));
            i = i + 1;
        }
        assert(moved.take(fleet.len() as int) + fleet.skip(fleet.len() as int) =~= moved);
        assert(fleet.take(fleet.len() as int) =~= fleet);
        advanced
    }

    /// The kinds known to the fleet or to the desired state, in ascending
    /// order.
    fn kinds(&self) -> (kinds: Vec<AgentKind>)
        ensures
            model::lists_kinds(names(kinds@), self@.fleet, self@.wanted),
    {
        let ghost fleet = self@.fleet;
        let ghost wanted = self@.wanted;
        let mut kinds: Vec<AgentKind> = Vec::new();
        let mut i: usize = 0;
        while i < self.wanted.len()
            invariant
                i <= self.wanted@.len(),
                wanted == self@.wanted,
                wanted.len() == self.wanted@.len(),
                model::ascending(names(kinds@)),
                forall|k: Seq<char>| #[trigger]
                    names(kinds@).contains(k) <==> model::wants(wanted.take(i as int), k),
            decreases self.wanted.len() - i,
        {
            insert_kind(&mut kinds, &self.wanted[i].kind);
            proof {
                assert(wanted[i as int] == self.wanted@[i as int]@);
                assert forall|k: Seq<char>| #[trigger]
                    names(kinds@).contains(k) <==> model::wants(wanted.take(i + 1), k) by {
                    lemma_wants_take(wanted, i as int, k);
                }
            }
            i = i + 1;
        }
        assert(wanted.take(wanted.len() as int) =~= wanted);
        let mut i: usize = 0;
        while i < self.agents.len()
            invariant
                i <= self.agents@.len(),
                fleet == self@.fleet,
                fleet.len() == self.agents@.len(),
                model::ascending(names(kinds@)),
                forall|k: Seq<char>| #[trigger]
                    names(kinds@).contains(k) <==> model::knows(fleet.take(i as int), wanted, k),
            decreases self.agents.len() - i,
        {
            insert_kind(&mut kinds, &self.agents[i].kind);
            proof {
                assert(fleet[i as int] == self.agents@[i as int]@);
                assert forall|k: Seq<char>| #[trigger]
                    names(kinds@).contains(k) <==> model::knows(fleet.take(i + 1), wanted, k) by {
                    lemma_knows_take(fleet, wanted, i as int, k);
                }
            }
            i = i + 1;
        }
        assert(fleet.take(fleet.len() as int) =~= fleet);
        kinds
    }

    /// The number of live agents that the desired state asks for, if it names
    /// the kind.
    fn desired(&self, kind: &AgentKind) -> (count: Option<usize>)
        ensures
            count == if model::wants(self@.wanted, kind@) {
                Some(model::desired_count(self@.wanted, kind@))
            } else {
                None::<usize>
            },
            count is None ==> model::desired_count(self@.wanted, kind@) == 0,
    {
        let ghost wanted = self@.wanted;
        let mut i: usize = self.wanted.len();
        assert(wanted.take(i as int) =~= wanted);
        while i > 0
            invariant
                i <= self.wanted@.len(),
                wanted == self@.wanted,
                wanted.len() == self.wanted@.len(),
                model::desired_count(wanted, kind@) == model::desired_count(
                    wanted.take(i as int),
                    kind@,
                ),
                model::wants(wanted, kind@) <==> model::wants(wanted.take(i as int), kind@),
            decreases i,
        {
            i = i - 1;
            proof {
                assert(wanted.take(i + 1).drop_last() =~= wanted.take(i as int));
                assert(wanted[i as int] == self.wanted@[i as int]@);
                lemma_wants_take(wanted, i as int, kind@);
            }
            if self.wanted[i].kind == *kind {
                return Some(self.wanted[i].count);
            }
        }
        None
    }

    /// The layer that the desired state gives to a kind, or zero.
    fn layer(&self, kind: &AgentKind) -> (layer: u32)
        ensures
            layer == model::layer_of(self@.wanted, kind@),
    {
        let ghost wanted = self@.wanted;
        let mut i: usize = 0;
        assert(wanted.skip(0) =~= wanted);
        while i < self.wanted.len()
            invariant
                i <= self.wanted@.len(),
                wanted == self@.wanted,
                wanted.len() == self.wanted@.len(),
                model::layer_of(wanted, kind@) == model::layer_of(wanted.skip(i as int), kind@),
            decreases self.wanted.len() - i,
        {
            assert(wanted.skip(i as int).skip(1) =~= wanted.skip(i + 1));
            assert(wanted[i as int] == self.wanted@[i as int]@);
            if self.wanted[i].kind == *kind {
                return self.wanted[i].layer;
            }
            i = i + 1;
        }
        0
    }

    /// Appends the live agents of a kind that are degraded, or those that are
    /// not, newest first.
    fn append_newest_first(&self, ids: &mut Vec<usize>, kind: &AgentKind, degraded: bool)
        ensures
            positions(final(ids)@) == positions(old(ids)@) + model::newest_first(
                self@.fleet,
                if degraded {
                    model::in_state(kind@, AgentState::Degraded)
                } else {
                    model::undegraded_of(kind@)
                },
            ),
    {
        let ghost fleet = self@.fleet;
        let ghost p = if degraded {
            model::in_state(kind@, AgentState::Degraded)
        } else {
            model::undegraded_of(kind@)
        };
        let ghost all = positions(ids@) + model::newest_first(fleet, p);
        let mut i: usize = self.agents.len();
        assert(fleet.take(i as int) =~= fleet);
        while i > 0
            invariant
                i <= self.agents@.len(),
                fleet == self@.fleet,
                fleet.len() == self.agents@.len(),
                p == if degraded {
                    model::in_state(kind@, AgentState::Degraded)
                } else {
                    model::undegraded_of(kind@)
                },
                all == positions(ids@) + model::newest_first(fleet.take(i as int), p),
            decreases i,
        {
            i = i - 1;
            let ghost before = positions(ids@);
            proof {
                assert(fleet.take(i + 1).drop_last() =~= fleet.take(i as int));
                assert(fleet[i as int] == self.agents@[i as int]@);
            }
            let state = self.agents[i].state;
            if self.agents[i].kind == *kind && is_live(state) && (state == AgentState::Degraded)
                == degraded {
                ids.push(i);
                assert(positions(ids@) =~= before.push(i as int));
                assert(before.push(i as int) + model::newest_first(fleet.take(i as int), p)
                    =~= before + (seq![i as int] + model::newest_first(fleet.take(i as int), p)));
            }
        }
        assert(positions(ids@) + Seq::<int>::empty() =~= positions(ids@));
    }

    fn set_state(&mut self, i: usize, state: AgentState)
        requires
            i < old(self)@.fleet.len(),
        ensures
            final(self)@ == (ConductorModel {
                fleet: model::with_state(old(self)@.fleet, i as int, state),
                ..old(self)@
            }),
    {
        self.agents[i].state = state;
        assert(self@.fleet =~= model::with_state(old(self)@.fleet, i as int, state));
    }
}

} // verus!
