//! What the conductor's operations mean, over mathematical sequences.
//!
//! A fleet is the sequence of its agents in the order in which they were
//! spawned. An agent's id is its position: ids are handed out in order, and no
//! agent ever leaves the fleet.

use vstd::prelude::*;

use crate::binary64::Binary64;
use crate::conservation::{ConservationConfig, ConservationVerdict};
use crate::fleet::{Agent, AgentId, DrainOutcome, FleetState, KindSummary, Wanted};
use crate::state::AgentState;
use crate::text;

verus! {

/// An agent, without the id that its position gives it.
pub struct Member {
    pub kind: Seq<char>,
    pub layer: u32,
    pub state: AgentState,
}

/// States that count as "live" (present in the fleet, serving or soon to).
pub open spec fn live(state: AgentState) -> bool {
    state == AgentState::Pending || state == AgentState::Starting || state == AgentState::Healthy
        || state == AgentState::Degraded
}

/// States in which an agent contributes to eta. From these it can be drained.
pub open spec fn active(state: AgentState) -> bool {
    state == AgentState::Healthy || state == AgentState::Degraded
}

/// Selects the agents that contribute to eta.
pub open spec fn is_active() -> spec_fn(Member) -> bool {
    |m: Member| active(m.state)
}

/// Selects the live agents.
pub open spec fn is_live() -> spec_fn(Member) -> bool {
    |m: Member| live(m.state)
}

/// Selects the agents of a kind.
pub open spec fn of_kind(kind: Seq<char>) -> spec_fn(Member) -> bool {
    |m: Member| m.kind == kind
}

/// Selects the live agents of a kind.
pub open spec fn live_of(kind: Seq<char>) -> spec_fn(Member) -> bool {
    |m: Member| m.kind == kind && live(m.state)
}

/// Selects the agents of a kind that are in a given state.
pub open spec fn in_state(kind: Seq<char>, state: AgentState) -> spec_fn(Member) -> bool {
    |m: Member| m.kind == kind && m.state == state
}

/// Selects the live agents of a kind that are not degraded.
pub open spec fn undegraded_of(kind: Seq<char>) -> spec_fn(Member) -> bool {
    |m: Member| m.kind == kind && live(m.state) && m.state != AgentState::Degraded
}

/// Selects the agents that a lifecycle tick moves.
pub open spec fn is_advancing() -> spec_fn(Member) -> bool {
    |m: Member| advance(m.state) != m.state
}

/// The number of agents that satisfy `p`.
pub open spec fn count(fleet: Seq<Member>, p: spec_fn(Member) -> bool) -> nat
    decreases fleet.len(),
{
    if fleet.len() == 0 {
        0
    } else {
        count(fleet.drop_last(), p) + if p(fleet.last()) {
            1nat
        } else {
            0nat
        }
    }
}

/// The number of agents that contribute to eta.
pub open spec fn active_count(fleet: Seq<Member>) -> nat {
    count(fleet, is_active())
}

/// The number of live agents of a kind.
pub open spec fn live_count(fleet: Seq<Member>, kind: Seq<char>) -> nat {
    count(fleet, live_of(kind))
}

/// The ids of the agents that satisfy `p`, newest first.
pub open spec fn newest_first(fleet: Seq<Member>, p: spec_fn(Member) -> bool) -> Seq<int>
    decreases fleet.len(),
{
    if fleet.len() == 0 {
        Seq::empty()
    } else if p(fleet.last()) {
        seq![fleet.len() - 1] + newest_first(fleet.drop_last(), p)
    } else {
        newest_first(fleet.drop_last(), p)
    }
}

/// The live agents of a kind in the order in which they are drained: degraded
/// ones before the others, and newest first within each group.
pub open spec fn drain_order(fleet: Seq<Member>, kind: Seq<char>) -> Seq<int> {
    newest_first(fleet, in_state(kind, AgentState::Degraded)) + newest_first(
        fleet,
        undegraded_of(kind),
    )
}

/// The fleet with one agent moved to another state.
pub open spec fn with_state(fleet: Seq<Member>, i: int, state: AgentState) -> Seq<Member> {
    fleet.update(i, Member { state, ..fleet[i] })
}

/// The fleet with `n` pending agents more.
pub open spec fn spawn(fleet: Seq<Member>, kind: Seq<char>, layer: u32, n: nat) -> Seq<Member> {
    fleet + Seq::new(n, |i: int| Member { kind, layer, state: AgentState::Pending })
}

/// Whether some entry asks for the kind.
pub open spec fn wants(wanted: Seq<Wanted>, kind: Seq<char>) -> bool {
    exists|i: int| 0 <= i < wanted.len() && (#[trigger] wanted[i]).kind == kind
}

/// The number of live agents asked for: the last entry for the kind decides,
/// and a kind without an entry is not wanted.
pub open spec fn desired_count(wanted: Seq<Wanted>, kind: Seq<char>) -> usize
    decreases wanted.len(),
{
    if wanted.len() == 0 {
        0
    } else if wanted.last().kind == kind {
        wanted.last().count
    } else {
        desired_count(wanted.drop_last(), kind)
    }
}

/// The layer of agents to spawn: the first entry for the kind decides.
pub open spec fn layer_of(wanted: Seq<Wanted>, kind: Seq<char>) -> u32
    decreases wanted.len(),
{
    if wanted.len() == 0 {
        0
    } else if wanted[0].kind == kind {
        wanted[0].layer
    } else {
        layer_of(wanted.skip(1), kind)
    }
}

/// Whether the fleet or the entries know the kind.
pub open spec fn knows(fleet: Seq<Member>, wanted: Seq<Wanted>, kind: Seq<char>) -> bool {
    wants(wanted, kind) || exists|i: int|
        0 <= i < fleet.len() && (#[trigger] fleet[i]).kind == kind
}

/// Strictly ascending order of kinds.
pub open spec fn ascending(kinds: Seq<Seq<char>>) -> bool {
    forall|i: int, j: int|
        0 <= i < j < kinds.len() ==> text::precedes(#[trigger] kinds[i], #[trigger] kinds[j])
}

/// Whether `kinds` lists every kind that the fleet or the entries know, once
/// each and in ascending order.
pub open spec fn lists_kinds(
    kinds: Seq<Seq<char>>,
    fleet: Seq<Member>,
    wanted: Seq<Wanted>,
) -> bool {
    &&& ascending(kinds)
    &&& forall|kind: Seq<char>| #[trigger] kinds.contains(kind) <==> knows(fleet, wanted, kind)
}

/// The ascending list of all kinds that the fleet or the entries know.
pub open spec fn known_kinds(fleet: Seq<Member>, wanted: Seq<Wanted>) -> Seq<Seq<char>> {
    choose|kinds: Seq<Seq<char>>| lists_kinds(kinds, fleet, wanted)
}

/// The numbers that the guard works with.
pub struct Guard {
    /// The bounds in force.
    pub conservation: ConservationConfig,
    /// The nominal gamma of the fleet.
    pub gamma: Binary64,
    /// What each active agent contributes to eta.
    pub eta_per_agent: Binary64,
}

impl Guard {
    /// Eta of a fleet with `n` active agents.
    pub open spec fn eta(self, n: nat) -> Binary64 {
        self.eta_per_agent.times(Binary64::of_nat(n))
    }

    /// The verdict on draining one of `n` active agents.
    pub open spec fn verdict(self, n: nat) -> ConservationVerdict {
        self.conservation.verdict(
            self.gamma,
            self.eta(n),
            Binary64::of_nat(0),
            self.eta_per_agent.minus(),
        )
    }

    /// Whether one of `n` active agents may be drained.
    pub open spec fn permits(self, n: nat) -> bool {
        self.conservation.allows(
            self.gamma,
            self.eta(n),
            Binary64::of_nat(0),
            self.eta_per_agent.minus(),
        )
    }

    /// The fleet after an attempt to drain one agent.
    pub open spec fn drain(self, fleet: Seq<Member>, i: int) -> Seq<Member> {
        if 0 <= i < fleet.len() && active(fleet[i].state) && self.permits(active_count(fleet)) {
            with_state(fleet, i, AgentState::Draining)
        } else {
            fleet
        }
    }

    /// What the attempt to drain one agent answers.
    pub open spec fn outcome(self, fleet: Seq<Member>, id: AgentId) -> DrainOutcome {
        if id.0 >= fleet.len() {
            DrainOutcome::NotFound(id)
        } else if !active(fleet[id.0 as int].state) {
            DrainOutcome::NotDrainable { id, state: fleet[id.0 as int].state }
        } else {
            match self.verdict(active_count(fleet)) {
                ConservationVerdict::Safe { gamma: _, eta, c } => DrainOutcome::Drained {
                    id,
                    new_eta: eta,
                    new_c: c,
                },
                ConservationVerdict::Deferred {
                    reason,
                    would_be_gamma: _,
                    would_be_eta,
                    would_be_c,
                    limit: _,
                } => DrainOutcome::Deferred { id, reason, would_be_eta, would_be_c },
            }
        }
    }

    /// The fleet after attempts to drain several agents, in order.
    pub open spec fn drain_all(self, fleet: Seq<Member>, ids: Seq<int>) -> Seq<Member>
        decreases ids.len(),
    {
        if ids.len() == 0 {
            fleet
        } else {
            self.drain(self.drain_all(fleet, ids.drop_last()), ids.last())
        }
    }

    /// The fleet after one kind was brought toward its desired count: a deficit
    /// is covered by spawning pending agents, an excess is drained as far as
    /// the guard permits.
    pub open spec fn reconcile_kind(
        self,
        fleet: Seq<Member>,
        wanted: Seq<Wanted>,
        kind: Seq<char>,
    ) -> Seq<Member> {
        let desired = desired_count(wanted, kind) as int;
        let order = drain_order(fleet, kind);
        if order.len() < desired {
            spawn(fleet, kind, layer_of(wanted, kind), (desired - order.len()) as nat)
        } else {
            self.drain_all(fleet, order.take(order.len() - desired))
        }
    }

    /// The fleet after several kinds were reconciled, in order.
    pub open spec fn reconcile_kinds(
        self,
        fleet: Seq<Member>,
        wanted: Seq<Wanted>,
        kinds: Seq<Seq<char>>,
    ) -> Seq<Member>
        decreases kinds.len(),
    {
        if kinds.len() == 0 {
            fleet
        } else {
            self.reconcile_kind(
                self.reconcile_kinds(fleet, wanted, kinds.drop_last()),
                wanted,
                kinds.last(),
            )
        }
    }

    /// The fleet after all kinds were reconciled, in ascending order of kind.
    pub open spec fn reconcile(self, fleet: Seq<Member>, wanted: Seq<Wanted>) -> Seq<Member> {
        self.reconcile_kinds(fleet, wanted, known_kinds(fleet, wanted))
    }
}

/// A conductor: its fleet, the entries of the last desired state, and the
/// guard on drains.
pub struct ConductorModel {
    pub fleet: Seq<Member>,
    pub wanted: Seq<Wanted>,
    pub guard: Guard,
}

impl ConductorModel {
    /// An empty fleet under the default bounds, with gamma zero and one tenth
    /// of eta per agent.
    pub open spec fn initial() -> ConductorModel {
        ConductorModel {
            fleet: Seq::empty(),
            wanted: Seq::empty(),
            guard: Guard {
                conservation: ConservationConfig::permissive(),
                gamma: Binary64::of_nat(0),
                eta_per_agent: Binary64::one_tenth(),
            },
        }
    }

    /// The conductor after reconciling toward the entries under the bounds.
    pub open spec fn reconcile(
        self,
        wanted: Seq<Wanted>,
        conservation: ConservationConfig,
    ) -> ConductorModel {
        let guard = Guard { conservation, ..self.guard };
        ConductorModel { fleet: guard.reconcile(self.fleet, wanted), wanted, guard }
    }
}

/// The state one lifecycle tick later.
pub open spec fn advance(state: AgentState) -> AgentState {
    match state {
        AgentState::Pending => AgentState::Starting,
        AgentState::Starting => AgentState::Healthy,
        AgentState::Draining => AgentState::Terminated,
        _ => state,
    }
}

/// The fleet one lifecycle tick later.
pub open spec fn advance_all(fleet: Seq<Member>) -> Seq<Member> {
    fleet.map_values(|m: Member| Member { state: advance(m.state), ..m })
}

/// The number of agents that a lifecycle tick moves.
pub open spec fn advancing_count(fleet: Seq<Member>) -> nat {
    count(fleet, is_advancing())
}

/// Whether the snapshot lists the agents of the fleet, each under its id.
pub open spec fn lists_agents(agents: Seq<Agent>, fleet: Seq<Member>) -> bool {
    &&& agents.len() == fleet.len()
    &&& forall|i: int|
        0 <= i < fleet.len() ==> {
            &&& (#[trigger] agents[i]).id.0 == i
            &&& agents[i].kind@ == fleet[i].kind
            &&& agents[i].layer == fleet[i].layer
            &&& agents[i].state == fleet[i].state
        }
}

/// Whether the snapshot shows the conductor: all agents in order of id, their
/// number and the number of live ones, gamma and eta, and the summary of every
/// known kind in ascending order.
pub open spec fn observed(snapshot: FleetState, conductor: ConductorModel) -> bool {
    &&& lists_agents(snapshot.agents@, conductor.fleet)
    &&& snapshot.total == conductor.fleet.len()
    &&& snapshot.live == count(conductor.fleet, is_live())
    &&& snapshot.gamma == conductor.guard.gamma
    &&& snapshot.eta == conductor.guard.eta(active_count(conductor.fleet))
    &&& snapshot.by_kind.kinds() == known_kinds(conductor.fleet, conductor.wanted)
    &&& forall|i: int|
        0 <= i < snapshot.by_kind.entries@.len() ==> summarizes(
            (#[trigger] snapshot.by_kind.entries@[i]).1,
            conductor.fleet,
            conductor.wanted,
            snapshot.by_kind.entries@[i].0@,
        )
}

/// Whether the summary is the one of a kind.
pub open spec fn summarizes(
    summary: KindSummary,
    fleet: Seq<Member>,
    wanted: Seq<Wanted>,
    kind: Seq<char>,
) -> bool {
    &&& summary.desired == if wants(wanted, kind) {
        Some(desired_count(wanted, kind))
    } else {
        None::<usize>
    }
    &&& summary.observed == live_count(fleet, kind)
    &&& summary.total == count(fleet, of_kind(kind))
    &&& forall|state: AgentState| #[trigger]
        summary.by_state.count(state) == count(fleet, in_state(kind, state))
}

/// Counting goes agent by agent.
pub proof fn lemma_count_take(fleet: Seq<Member>, p: spec_fn(Member) -> bool, i: int)
    requires
        0 <= i < fleet.len(),
    ensures
        count(fleet.take(i + 1), p) == count(fleet.take(i), p) + if p(fleet[i]) {
            1nat
        } else {
            0nat
        },
{
    assert(fleet.take(i + 1).drop_last() == fleet.take(i));
    assert(fleet.take(i + 1).last() == fleet[i]);
}

/// Two ascending lists of the same kinds are the same list.
proof fn lemma_ascending_unique(a: Seq<Seq<char>>, b: Seq<Seq<char>>)
    requires
        ascending(a),
        ascending(b),
        forall|kind: Seq<char>| #[trigger] a.contains(kind) <==> b.contains(kind),
    ensures
        a == b,
    decreases a.len(),
{
    if a.len() == 0 {
        if b.len() > 0 {
            assert(b.contains(b[0]));
            assert(a.contains(b[0]));
        }
        assert(a =~= b);
    } else {
        assert(a.contains(a.last()));
        assert(b.contains(a.last()));
        assert(b.contains(b.last()));
        assert(a.contains(b.last()));
        let i = choose|i: int| 0 <= i < a.len() && a[i] == b.last();
        let j = choose|j: int| 0 <= j < b.len() && b[j] == a.last();
        if a.last() != b.last() {
            assert(text::precedes(a[i], a[a.len() - 1]));
            assert(text::precedes(b[j], b[b.len() - 1]));
            text::lemma_precedes_transitive(a.last(), b.last(), a.last());
            text::lemma_precedes_irreflexive(a.last());
        }
        let x = a.drop_last();
        let y = b.drop_last();
        assert forall|kind: Seq<char>| #[trigger] x.contains(kind) implies y.contains(kind) by {
            lemma_drop_last_contains(a, b, kind);
        }
        assert forall|kind: Seq<char>| #[trigger] y.contains(kind) implies x.contains(kind) by {
            lemma_drop_last_contains(b, a, kind);
        }
        lemma_ascending_unique(x, y);
        assert(a =~= x.push(a.last()));
        assert(b =~= y.push(b.last()));
    }
}

proof fn lemma_drop_last_contains(a: Seq<Seq<char>>, b: Seq<Seq<char>>, kind: Seq<char>)
    requires
        ascending(a),
        a.len() > 0,
        b.len() > 0,
        a.last() == b.last(),
        a.drop_last().contains(kind),
        a.contains(kind) ==> b.contains(kind),
    ensures
        b.drop_last().contains(kind),
{
    let i = choose|i: int| 0 <= i < a.drop_last().len() && a.drop_last()[i] == kind;
    assert(a[i] == kind);
    assert(text::precedes(a[i], a[a.len() - 1]));
    text::lemma_precedes_irreflexive(kind);
    let j = choose|j: int| 0 <= j < b.len() && b[j] == kind;
    assert(b.drop_last()[j] == kind);
}

/// An ascending list can take in one more kind.
proof fn lemma_ascending_insert(kinds: Seq<Seq<char>>, kind: Seq<char>) -> (longer: Seq<Seq<char>>)
    requires
        ascending(kinds),
    ensures
        ascending(longer),
        forall|k: Seq<char>| #[trigger] longer.contains(k) <==> kinds.contains(k) || k == kind,
    decreases kinds.len(),
{
    if kinds.len() == 0 {
        let longer = seq![kind];
        assert(longer[0] == kind);
        longer
    } else if kinds.last() == kind {
        assert(kinds[kinds.len() - 1] == kind);
        kinds
    } else if text::precedes(kinds.last(), kind) {
        let longer = kinds.push(kind);
        assert forall|i: int, j: int| 0 <= i < j < longer.len() implies text::precedes(
            #[trigger] longer[i],
            #[trigger] longer[j],
        ) by {
            if j == kinds.len() && i < kinds.len() - 1 {
                text::lemma_precedes_transitive(kinds[i], kinds.last(), kind);
            }
        }
        assert forall|k: Seq<char>| #[trigger] longer.contains(k) <==> kinds.contains(k) || k
            == kind by {
            assert(longer[longer.len() - 1] == kind);
            if kinds.contains(k) {
                let i = choose|i: int| 0 <= i < kinds.len() && kinds[i] == k;
                assert(longer[i] == k);
            }
        }
        longer
    } else {
        text::lemma_precedes_total(kinds.last(), kind);
        let most = kinds.drop_last();
        let last = kinds.last();
        let inner = lemma_ascending_insert(most, kind);
        let longer = inner.push(last);
        assert forall|i: int, j: int| 0 <= i < j < longer.len() implies text::precedes(
            #[trigger] longer[i],
            #[trigger] longer[j],
        ) by {
            if j == inner.len() {
                assert(inner.contains(inner[i]));
                if inner[i] != kind {
                    let k = choose|k: int| 0 <= k < most.len() && most[k] == inner[i];
                    assert(text::precedes(kinds[k], kinds[kinds.len() - 1]));
                }
            }
        }
        assert forall|k: Seq<char>| #[trigger] longer.contains(k) <==> kinds.contains(k) || k
            == kind by {
            assert(longer[longer.len() - 1] == last);
            assert(kinds[kinds.len() - 1] == last);
            if inner.contains(k) {
                let i = choose|i: int| 0 <= i < inner.len() && inner[i] == k;
                assert(longer[i] == k);
                if k != kind {
                    let j = choose|j: int| 0 <= j < most.len() && most[j] == k;
                    assert(kinds[j] == k);
                }
            }
            if kinds.contains(k) && k != last {
                let i = choose|i: int| 0 <= i < kinds.len() && kinds[i] == k;
                assert(most[i] == k);
            }
        }
        longer
    }
}

/// Every fleet and every desired state have a list of known kinds.
pub proof fn lemma_known_kinds_exist(fleet: Seq<Member>, wanted: Seq<Wanted>)
    ensures
        lists_kinds(known_kinds(fleet, wanted), fleet, wanted),
    decreases fleet.len() + wanted.len(),
{
    if fleet.len() > 0 {
        let rest = fleet.drop_last();
        lemma_known_kinds_exist(rest, wanted);
        let kinds = lemma_ascending_insert(known_kinds(rest, wanted), fleet.last().kind);
        assert forall|kind: Seq<char>| #[trigger] kinds.contains(kind) <==> knows(
            fleet,
            wanted,
            kind,
        ) by {
            assert(known_kinds(rest, wanted).contains(kind) <==> knows(rest, wanted, kind));
            if exists|i: int| 0 <= i < rest.len() && (#[trigger] rest[i]).kind == kind {
                let i = choose|i: int| 0 <= i < rest.len() && (#[trigger] rest[i]).kind == kind;
                assert(fleet[i].kind == kind);
            }
            if exists|i: int| 0 <= i < fleet.len() && (#[trigger] fleet[i]).kind == kind {
                let i = choose|i: int| 0 <= i < fleet.len() && (#[trigger] fleet[i]).kind == kind;
                if i < rest.len() {
                    assert(rest[i].kind == kind);
                }
            }
            assert(fleet[fleet.len() - 1] == fleet.last());
        }
        assert(lists_kinds(kinds, fleet, wanted));
    } else if wanted.len() > 0 {
        let rest = wanted.drop_last();
        lemma_known_kinds_exist(fleet, rest);
        let kinds = lemma_ascending_insert(known_kinds(fleet, rest), wanted.last().kind);
        assert forall|kind: Seq<char>| #[trigger] kinds.contains(kind) <==> knows(
            fleet,
            wanted,
            kind,
        ) by {
            assert(known_kinds(fleet, rest).contains(kind) <==> knows(fleet, rest, kind));
            if wants(rest, kind) {
                let i = choose|i: int| 0 <= i < rest.len() && (#[trigger] rest[i]).kind == kind;
                assert(wanted[i].kind == kind);
            }
            if wants(wanted, kind) {
                let i = choose|i: int| 0 <= i < wanted.len() && (#[trigger] wanted[i]).kind == kind;
                if i < rest.len() {
                    assert(rest[i].kind == kind);
                }
            }
            assert(wanted[wanted.len() - 1] == wanted.last());
        }
        assert(lists_kinds(kinds, fleet, wanted));
    } else {
        let kinds = Seq::<Seq<char>>::empty();
        assert(lists_kinds(kinds, fleet, wanted));
    }
}

/// A list of the known kinds is *the* list of the known kinds.
pub proof fn lemma_known_kinds(kinds: Seq<Seq<char>>, fleet: Seq<Member>, wanted: Seq<Wanted>)
    requires
        lists_kinds(kinds, fleet, wanted),
    ensures
        known_kinds(fleet, wanted) == kinds,
{
    let other = known_kinds(fleet, wanted);
    assert(lists_kinds(other, fleet, wanted));
    assert forall|kind: Seq<char>| #[trigger] kinds.contains(kind) <==> other.contains(kind) by {
        assert(kinds.contains(kind) <==> knows(fleet, wanted, kind));
        assert(other.contains(kind) <==> knows(fleet, wanted, kind));
    }
    lemma_ascending_unique(kinds, other);
}

} // verus!
