//! What the conductor's operations come to, in plain terms: which agents are in
//! which state before and after, and how many there are.
//!
//! The laws here speak of the agents themselves. A number of agents is the size
//! of the set of their ids, and the states that matter are written out.

use vstd::prelude::*;

use crate::binary64::Binary64;
use crate::conservation;
use crate::conservation::{ConservationConfig, ConservationVerdict};
use crate::fleet::{Agent, AgentId, DrainOutcome, FleetSpec, FleetState, KindSummary, Wanted};
use crate::groups;
use crate::laws;
use crate::model;
use crate::model::{ConductorModel, Guard, Member};
use crate::state::AgentState;
use crate::text;

verus! {

/// The agents of a fleet that satisfy `p` are finitely many, and `count` counts
/// them.
proof fn lemma_count_is_size(fleet: Seq<Member>, p: spec_fn(Member) -> bool)
    ensures
        Set::new(|i: int| 0 <= i < fleet.len() && p(fleet[i])).finite(),
        Set::new(|i: int| 0 <= i < fleet.len() && p(fleet[i])).len() == model::count(fleet, p),
    decreases fleet.len(),
{
    let all = Set::new(|i: int| 0 <= i < fleet.len() && p(fleet[i]));
    if fleet.len() == 0 {
        assert(all =~= Set::empty());
    } else {
        let rest = fleet.drop_last();
        let fewer = Set::new(|i: int| 0 <= i < rest.len() && p(rest[i]));
        lemma_count_is_size(rest, p);
        if p(fleet.last()) {
            assert(all =~= fewer.insert(fleet.len() - 1));
        } else {
            assert(all =~= fewer);
        }
    }
}

/// Eta counts the agents that are `Healthy` or `Degraded`, and no others.
pub proof fn lemma_active_agents(fleet: Seq<Member>)
    ensures
        model::active_count(fleet) == Set::new(
            |i: int|
                0 <= i < fleet.len() && (fleet[i].state == AgentState::Healthy || fleet[i].state
                    == AgentState::Degraded),
        ).len(),
{
    let p = model::is_active();
    lemma_count_is_size(fleet, p);
    assert(Set::new(
        |i: int|
            0 <= i < fleet.len() && (fleet[i].state == AgentState::Healthy || fleet[i].state
                == AgentState::Degraded),
    ) =~= Set::new(|i: int| 0 <= i < fleet.len() && p(fleet[i])));
}

/// The live agents of a kind are those that are `Pending`, `Starting`, `Healthy`
/// or `Degraded`.
pub proof fn lemma_live_agents(fleet: Seq<Member>, kind: Seq<char>)
    ensures
        model::live_count(fleet, kind) == Set::new(
            |i: int|
                0 <= i < fleet.len() && fleet[i].kind == kind && (fleet[i].state
                    == AgentState::Pending || fleet[i].state == AgentState::Starting
                    || fleet[i].state == AgentState::Healthy || fleet[i].state
                    == AgentState::Degraded),
        ).len(),
{
    let p = model::live_of(kind);
    lemma_count_is_size(fleet, p);
    assert(Set::new(
        |i: int|
            0 <= i < fleet.len() && fleet[i].kind == kind && (fleet[i].state == AgentState::Pending
                || fleet[i].state == AgentState::Starting || fleet[i].state == AgentState::Healthy
                || fleet[i].state == AgentState::Degraded),
    ) =~= Set::new(|i: int| 0 <= i < fleet.len() && p(fleet[i])));
}

/// The last entry for a kind says how many live agents are desired, whatever the
/// number.
pub proof fn lemma_last_entry_decides_count(wanted: Seq<Wanted>, i: int)
    requires
        0 <= i < wanted.len(),
        forall|j: int| i < j < wanted.len() ==> (#[trigger] wanted[j]).kind != wanted[i].kind,
    ensures
        model::wants(wanted, wanted[i].kind),
        model::desired_count(wanted, wanted[i].kind) == wanted[i].count,
    decreases wanted.len(),
{
    assert(wanted[i].kind == wanted[i].kind);
    if i < wanted.len() - 1 {
        let rest = wanted.drop_last();
        assert(wanted[wanted.len() - 1].kind != wanted[i].kind);
        assert forall|j: int| i < j < rest.len() implies (#[trigger] rest[j]).kind
            != rest[i].kind by {
            assert(wanted[j].kind != wanted[i].kind);
        }
        lemma_last_entry_decides_count(rest, i);
    }
}

/// The first entry for a kind says which layer its new agents belong to.
pub proof fn lemma_first_entry_decides_layer(wanted: Seq<Wanted>, i: int)
    requires
        0 <= i < wanted.len(),
        forall|j: int| 0 <= j < i ==> (#[trigger] wanted[j]).kind != wanted[i].kind,
    ensures
        model::layer_of(wanted, wanted[i].kind) == wanted[i].layer,
    decreases wanted.len(),
{
    if i > 0 {
        let rest = wanted.skip(1);
        assert(wanted[0].kind != wanted[i].kind);
        assert(rest[i - 1] == wanted[i]);
        assert forall|j: int| 0 <= j < i - 1 implies (#[trigger] rest[j]).kind
            != rest[i - 1].kind by {
            assert(wanted[j + 1].kind != wanted[i].kind);
        }
        lemma_first_entry_decides_layer(rest, i - 1);
    }
}

/// A kind that no entry names is desired zero times.
pub proof fn lemma_no_entry_wants_none(wanted: Seq<Wanted>, kind: Seq<char>)
    requires
        forall|i: int| 0 <= i < wanted.len() ==> (#[trigger] wanted[i]).kind != kind,
    ensures
        !model::wants(wanted, kind),
        model::desired_count(wanted, kind) == 0,
{
    laws::lemma_unwanted(wanted, kind);
}

/// Reconciliation takes over the desired state and its bounds, and keeps gamma
/// and the contribution per agent.
pub proof fn lemma_reconcile_takes_over(
    conductor: ConductorModel,
    wanted: Seq<Wanted>,
    conservation: ConservationConfig,
)
    ensures
        ({
            let after = conductor.reconcile(wanted, conservation);
            &&& after.wanted == wanted
            &&& after.guard.conservation == conservation
            &&& after.guard.gamma == conductor.guard.gamma
            &&& after.guard.eta_per_agent == conductor.guard.eta_per_agent
        }),
{
}

/// Reconciliation brings a kind with an entry to the count of its last entry: a
/// deficit is covered exactly, and an excess is drained no further than that.
pub proof fn lemma_reconcile_meets_entry(
    conductor: ConductorModel,
    wanted: Seq<Wanted>,
    conservation: ConservationConfig,
    i: int,
)
    requires
        0 <= i < wanted.len(),
        forall|j: int| i < j < wanted.len() ==> (#[trigger] wanted[j]).kind != wanted[i].kind,
    ensures
        ({
            let kind = wanted[i].kind;
            let fleet = conductor.fleet;
            let after = conductor.reconcile(wanted, conservation).fleet;
            let had = Set::new(
                |k: int|
                    0 <= k < fleet.len() && fleet[k].kind == kind && (fleet[k].state
                        == AgentState::Pending || fleet[k].state == AgentState::Starting
                        || fleet[k].state == AgentState::Healthy || fleet[k].state
                        == AgentState::Degraded),
            ).len();
            let has = Set::new(
                |k: int|
                    0 <= k < after.len() && after[k].kind == kind && (after[k].state
                        == AgentState::Pending || after[k].state == AgentState::Starting
                        || after[k].state == AgentState::Healthy || after[k].state
                        == AgentState::Degraded),
            ).len();
            &&& has >= wanted[i].count
            &&& had <= wanted[i].count ==> has == wanted[i].count
            &&& has <= had || has == wanted[i].count
        }),
{
    let guard = Guard { conservation, ..conductor.guard };
    let kind = wanted[i].kind;
    lemma_last_entry_decides_count(wanted, i);
    laws::lemma_reconcile_reaches_desired(guard, conductor.fleet, wanted, kind);
    lemma_live_agents(conductor.fleet, kind);
    lemma_live_agents(conductor.reconcile(wanted, conservation).fleet, kind);
}

/// What reconciliation does to the agents. Those that were there keep their
/// place, kind and layer, and keep their state or go from `Healthy` or `Degraded`
/// to `Draining`. Those that join are `Pending`, of a kind that an entry names,
/// and of the layer of its first entry; they join in ascending order of kind.
pub proof fn lemma_reconcile_agents(
    conductor: ConductorModel,
    wanted: Seq<Wanted>,
    conservation: ConservationConfig,
)
    ensures
        ({
            let fleet = conductor.fleet;
            let after = conductor.reconcile(wanted, conservation).fleet;
            &&& fleet.len() <= after.len()
            &&& forall|k: int|
                0 <= k < fleet.len() ==> {
                    &&& (#[trigger] after[k]).kind == fleet[k].kind
                    &&& after[k].layer == fleet[k].layer
                    &&& after[k].state == fleet[k].state || (after[k].state == AgentState::Draining
                        && (fleet[k].state == AgentState::Healthy || fleet[k].state
                        == AgentState::Degraded))
                }
            &&& forall|k: int|
                fleet.len() <= k < after.len() ==> {
                    &&& (#[trigger] after[k]).state == AgentState::Pending
                    &&& exists|i: int|
                        #![trigger wanted[i]]
                        0 <= i < wanted.len() && wanted[i].kind == after[k].kind && wanted[i].layer
                            == after[k].layer && forall|j: int|
                            0 <= j < i ==> (#[trigger] wanted[j]).kind != after[k].kind
                }
            &&& forall|a: int, b: int|
                fleet.len() <= a < b < after.len() ==> (#[trigger] after[a]).kind == (
                #[trigger] after[b]).kind || text::precedes(after[a].kind, after[b].kind)
        }),
{
    let guard = Guard { conservation, ..conductor.guard };
    let fleet = conductor.fleet;
    let kinds = model::known_kinds(fleet, wanted);
    let after = conductor.reconcile(wanted, conservation).fleet;
    laws::lemma_reconcile_evolves(guard, fleet, wanted);
    model::lemma_known_kinds_exist(fleet, wanted);
    lemma_joining_order(guard, fleet, wanted, kinds);
    assert forall|k: int| fleet.len() <= k < after.len() implies exists|i: int|
        #![trigger wanted[i]]
        0 <= i < wanted.len() && wanted[i].kind == (#[trigger] after[k]).kind && wanted[i].layer
            == after[k].layer && forall|j: int|
            0 <= j < i ==> (#[trigger] wanted[j]).kind != after[k].kind by {
        let kind = after[k].kind;
        assert(model::live_count(fleet, kind) < model::desired_count(wanted, kind));
        if !model::wants(wanted, kind) {
            laws::lemma_unwanted(wanted, kind);
        }
        let w = choose|w: int| 0 <= w < wanted.len() && (#[trigger] wanted[w]).kind == kind;
        let i = lemma_first_entry(wanted, kind, w);
        lemma_first_entry_decides_layer(wanted, i);
    }
}

/// Finds the first entry for a kind.
proof fn lemma_first_entry(wanted: Seq<Wanted>, kind: Seq<char>, w: int) -> (i: int)
    requires
        0 <= w < wanted.len(),
        wanted[w].kind == kind,
    ensures
        0 <= i <= w,
        wanted[i].kind == kind,
        forall|j: int| 0 <= j < i ==> (#[trigger] wanted[j]).kind != kind,
    decreases w,
{
    if exists|j: int| 0 <= j < w && (#[trigger] wanted[j]).kind == kind {
        let j = choose|j: int| 0 <= j < w && (#[trigger] wanted[j]).kind == kind;
        lemma_first_entry(wanted, kind, j)
    } else {
        w
    }
}

/// Agents join in the order in which the kinds are reconciled.
proof fn lemma_joining_order(
    guard: Guard,
    fleet: Seq<Member>,
    wanted: Seq<Wanted>,
    kinds: Seq<Seq<char>>,
)
    requires
        model::ascending(kinds),
    ensures
        ({
            let after = guard.reconcile_kinds(fleet, wanted, kinds);
            &&& fleet.len() <= after.len()
            &&& forall|k: int|
                fleet.len() <= k < after.len() ==> kinds.contains((#[trigger] after[k]).kind)
            &&& forall|a: int, b: int|
                fleet.len() <= a < b < after.len() ==> (#[trigger] after[a]).kind == (
                #[trigger] after[b]).kind || text::precedes(after[a].kind, after[b].kind)
        }),
    decreases kinds.len(),
{
    if kinds.len() > 0 {
        let most = kinds.drop_last();
        let last = kinds.last();
        let middle = guard.reconcile_kinds(fleet, wanted, most);
        let after = guard.reconcile_kinds(fleet, wanted, kinds);
        assert forall|i: int, j: int| 0 <= i < j < most.len() implies text::precedes(
            #[trigger] most[i],
            #[trigger] most[j],
        ) by {
            assert(text::precedes(kinds[i], kinds[j]));
        }
        lemma_joining_order(guard, fleet, wanted, most);
        laws::lemma_reconcile_kind_evolves(guard, middle, wanted, last);
        assert(kinds[kinds.len() - 1] == last);
        assert forall|k: int| fleet.len() <= k < after.len() implies kinds.contains(
            (#[trigger] after[k]).kind,
        ) by {
            if k < middle.len() {
                assert(most.contains(middle[k].kind));
                let m = choose|m: int| 0 <= m < most.len() && most[m] == middle[k].kind;
                assert(kinds[m] == after[k].kind);
            } else {
                assert(seq![last].contains(after[k].kind));
            }
        }
        assert forall|a: int, b: int| fleet.len() <= a < b < after.len() implies (
        #[trigger] after[a]).kind == (#[trigger] after[b]).kind || text::precedes(
            after[a].kind,
            after[b].kind,
        ) by {
            if b < middle.len() {
                assert(middle[a].kind == after[a].kind && middle[b].kind == after[b].kind);
            } else {
                assert(seq![last].contains(after[b].kind));
                if a < middle.len() {
                    assert(most.contains(middle[a].kind));
                    let m = choose|m: int| 0 <= m < most.len() && most[m] == middle[a].kind;
                    assert(text::precedes(kinds[m], kinds[kinds.len() - 1]));
                } else {
                    assert(seq![last].contains(after[a].kind));
                }
            }
        }
    }
}

/// Every drain that reconciliation executes is allowed: while the number of
/// `Healthy` and `Degraded` agents goes down, the bounds of the desired state
/// allow taking one agent's contribution from that of all, at every step.
pub proof fn lemma_reconcile_is_guarded(
    conductor: ConductorModel,
    wanted: Seq<Wanted>,
    conservation: ConservationConfig,
    n: nat,
)
    requires
        ({
            let fleet = conductor.fleet;
            let after = conductor.reconcile(wanted, conservation).fleet;
            &&& n > Set::new(
                |k: int|
                    0 <= k < after.len() && (after[k].state == AgentState::Healthy
                        || after[k].state == AgentState::Degraded),
            ).len()
            &&& n <= Set::new(
                |k: int|
                    0 <= k < fleet.len() && (fleet[k].state == AgentState::Healthy
                        || fleet[k].state == AgentState::Degraded),
            ).len()
        }),
    ensures
        conservation.allows(
            conductor.guard.gamma,
            conductor.guard.eta_per_agent.times(Binary64::of_nat(n)),
            Binary64::of_nat(0),
            conductor.guard.eta_per_agent.minus(),
        ),
{
    let guard = Guard { conservation, ..conductor.guard };
    lemma_active_agents(conductor.fleet);
    lemma_active_agents(conductor.reconcile(wanted, conservation).fleet);
    laws::lemma_reconcile_drains_are_permitted(guard, conductor.fleet, wanted);
    assert(guard.permits(n));
}

/// Reconciliation puts no agent into service.
pub proof fn lemma_reconcile_activates_none(
    conductor: ConductorModel,
    wanted: Seq<Wanted>,
    conservation: ConservationConfig,
)
    ensures
        ({
            let fleet = conductor.fleet;
            let after = conductor.reconcile(wanted, conservation).fleet;
            Set::new(
                |k: int|
                    0 <= k < after.len() && (after[k].state == AgentState::Healthy
                        || after[k].state == AgentState::Degraded),
            ).len() <= Set::new(
                |k: int|
                    0 <= k < fleet.len() && (fleet[k].state == AgentState::Healthy
                        || fleet[k].state == AgentState::Degraded),
            ).len()
        }),
{
    let guard = Guard { conservation, ..conductor.guard };
    lemma_active_agents(conductor.fleet);
    lemma_active_agents(conductor.reconcile(wanted, conservation).fleet);
    laws::lemma_reconcile_drains_are_permitted(guard, conductor.fleet, wanted);
}

/// What a lifecycle tick does to every agent: `Pending` becomes `Starting`,
/// `Starting` becomes `Healthy`, `Draining` becomes `Terminated`; the others stay
/// as they are, and nothing else of an agent changes. The number that a tick
/// answers with is that of the agents that were `Pending`, `Starting` or
/// `Draining`.
pub proof fn lemma_tick(fleet: Seq<Member>)
    ensures
        model::advance_all(fleet).len() == fleet.len(),
        forall|k: int|
            0 <= k < fleet.len() ==> {
                let after = #[trigger] model::advance_all(fleet)[k];
                &&& after.kind == fleet[k].kind
                &&& after.layer == fleet[k].layer
                &&& fleet[k].state == AgentState::Pending ==> after.state == AgentState::Starting
                &&& fleet[k].state == AgentState::Starting ==> after.state == AgentState::Healthy
                &&& fleet[k].state == AgentState::Healthy ==> after.state == AgentState::Healthy
                &&& fleet[k].state == AgentState::Degraded ==> after.state == AgentState::Degraded
                &&& fleet[k].state == AgentState::Draining ==> after.state
                    == AgentState::Terminated
                &&& fleet[k].state == AgentState::Terminated ==> after.state
                    == AgentState::Terminated
            },
        model::advancing_count(fleet) == Set::new(
            |k: int|
                0 <= k < fleet.len() && (fleet[k].state == AgentState::Pending || fleet[k].state
                    == AgentState::Starting || fleet[k].state == AgentState::Draining),
        ).len(),
{
    let p = model::is_advancing();
    lemma_count_is_size(fleet, p);
    assert(Set::new(
        |k: int|
            0 <= k < fleet.len() && (fleet[k].state == AgentState::Pending || fleet[k].state
                == AgentState::Starting || fleet[k].state == AgentState::Draining),
    ) =~= Set::new(|k: int| 0 <= k < fleet.len() && p(fleet[k])));
}

/// What an attempt to drain does. No agent but the one named can change, and that
/// one only from `Healthy` or `Degraded` to `Draining`. It changes exactly if it
/// is in one of these states and the bounds allow taking its contribution from
/// that of all agents in these states.
pub proof fn lemma_drain(guard: Guard, fleet: Seq<Member>, id: AgentId)
    ensures
        ({
            let after = guard.drain(fleet, id.0 as int);
            let n = Set::new(
                |k: int|
                    0 <= k < fleet.len() && (fleet[k].state == AgentState::Healthy
                        || fleet[k].state == AgentState::Degraded),
            ).len();
            let can = id.0 < fleet.len() && (fleet[id.0 as int].state == AgentState::Healthy
                || fleet[id.0 as int].state == AgentState::Degraded);
            let eta = guard.eta_per_agent.times(Binary64::of_nat(n));
            let may = guard.conservation.allows(
                guard.gamma,
                eta,
                Binary64::of_nat(0),
                guard.eta_per_agent.minus(),
            );
            &&& after.len() == fleet.len()
            &&& forall|k: int|
                0 <= k < fleet.len() ==> {
                    &&& (#[trigger] after[k]).kind == fleet[k].kind
                    &&& after[k].layer == fleet[k].layer
                    &&& after[k].state == if k == id.0 && can && may {
                        AgentState::Draining
                    } else {
                        fleet[k].state
                    }
                }
        }),
{
    lemma_active_agents(fleet);
}

/// What an attempt to drain answers. An id that no agent has is not found; an
/// agent that is neither `Healthy` nor `Degraded` is reported with its state.
/// Otherwise the answer is the guard's, on eta as the contribution of all agents
/// in these states and on the loss of one contribution: `Drained` with the eta and
/// the C that are left, or `Deferred` with what the guard reports.
pub proof fn lemma_drain_answer(guard: Guard, fleet: Seq<Member>, id: AgentId)
    ensures
        ({
            let n = Set::new(
                |k: int|
                    0 <= k < fleet.len() && (fleet[k].state == AgentState::Healthy
                        || fleet[k].state == AgentState::Degraded),
            ).len();
            let eta = guard.eta_per_agent.times(Binary64::of_nat(n));
            let loss = guard.eta_per_agent.minus();
            let left = eta.plus(loss);
            let c = guard.gamma.plus(Binary64::of_nat(0)).plus(left);
            let may = guard.conservation.allows(guard.gamma, eta, Binary64::of_nat(0), loss);
            match guard.outcome(fleet, id) {
                DrainOutcome::NotFound(named) => id.0 >= fleet.len() && named == id,
                DrainOutcome::NotDrainable { id: named, state } => {
                    &&& id.0 < fleet.len() && named == id
                    &&& state == fleet[id.0 as int].state
                    &&& state != AgentState::Healthy && state != AgentState::Degraded
                },
                DrainOutcome::Drained { id: named, new_eta, new_c } => {
                    &&& id.0 < fleet.len() && named == id
                    &&& fleet[id.0 as int].state == AgentState::Healthy
                        || fleet[id.0 as int].state == AgentState::Degraded
                    &&& may
                    &&& new_eta == left
                    &&& new_c == c
                },
                DrainOutcome::Deferred { id: named, reason, would_be_eta, would_be_c } => {
                    &&& id.0 < fleet.len() && named == id
                    &&& fleet[id.0 as int].state == AgentState::Healthy
                        || fleet[id.0 as int].state == AgentState::Degraded
                    &&& !may
                    &&& guard.conservation.verdict(
                        guard.gamma,
                        eta,
                        Binary64::of_nat(0),
                        loss,
                    ) matches ConservationVerdict::Deferred {
                        reason: why,
                        would_be_gamma: _,
                        would_be_eta: e,
                        would_be_c: total,
                        limit: _,
                    } && reason == why && would_be_eta == e && would_be_c == total
                },
            }
        }),
{
    lemma_active_agents(fleet);
    let n = model::active_count(fleet);
    conservation::lemma_verdict(
        guard.conservation,
        guard.gamma,
        guard.eta(n),
        Binary64::of_nat(0),
        guard.eta_per_agent.minus(),
    );
}

/// Eta of a conductor is the contribution per agent times the number of agents
/// that are `Healthy` or `Degraded`.
pub proof fn lemma_eta(guard: Guard, fleet: Seq<Member>)
    ensures
        guard.eta(model::active_count(fleet)) == guard.eta_per_agent.times(
            Binary64::of_nat(
                Set::new(
                    |k: int|
                        0 <= k < fleet.len() && (fleet[k].state == AgentState::Healthy
                            || fleet[k].state == AgentState::Degraded),
                ).len(),
            ),
        ),
{
    lemma_active_agents(fleet);
}

/// Drains are executed in the order in which they are attempted: if a later one
/// went ahead, so did the earlier ones.
proof fn lemma_drain_all_in_order(guard: Guard, fleet: Seq<Member>, ids: Seq<int>, a: int, b: int)
    requires
        0 <= a < b < ids.len(),
        forall|m: int, n: int| 0 <= m < n < ids.len() ==> #[trigger] ids[m] != #[trigger] ids[n],
        0 <= ids[a] < fleet.len(),
        0 <= ids[b] < fleet.len(),
        model::active(fleet[ids[a]].state),
        model::active(fleet[ids[b]].state),
        guard.drain_all(fleet, ids)[ids[b]].state == AgentState::Draining,
    ensures
        guard.drain_all(fleet, ids)[ids[a]].state == AgentState::Draining,
    decreases ids.len(),
{
    let most = ids.drop_last();
    let middle = guard.drain_all(fleet, most);
    laws::lemma_drain_all_effect(guard, fleet, most);
    assert(ids[a] != ids[ids.len() - 1]);
    assert(most[a] == ids[a]);
    if b < ids.len() - 1 {
        assert(ids[b] != ids[ids.len() - 1]);
        assert(most[b] == ids[b]);
        assert forall|m: int, n: int| 0 <= m < n < most.len() implies #[trigger] most[m]
            != #[trigger] most[n] by {
            assert(ids[m] != ids[n]);
        }
        lemma_drain_all_in_order(guard, fleet, most, a, b);
    } else {
        assert(!most.contains(ids[b])) by {
            if most.contains(ids[b]) {
                let m = choose|m: int| 0 <= m < most.len() && most[m] == ids[b];
                assert(ids[m] != ids[b]);
            }
        }
        assert(middle[ids[b]] == fleet[ids[b]]);
        assert(guard.permits(model::active_count(middle)));
        laws::lemma_drain_all_exhausts(guard, fleet, most);
        assert(!model::active(middle[most[a]].state));
    }
}

/// Reconciling one kind leaves the agents of the others.
proof fn lemma_other_kinds_stay(
    guard: Guard,
    fleet: Seq<Member>,
    wanted: Seq<Wanted>,
    kind: Seq<char>,
    k: int,
)
    requires
        0 <= k < fleet.len(),
        fleet[k].kind != kind,
    ensures
        k < guard.reconcile_kind(fleet, wanted, kind).len(),
        guard.reconcile_kind(fleet, wanted, kind)[k] == fleet[k],
{
    let desired = model::desired_count(wanted, kind) as int;
    let order = model::drain_order(fleet, kind);
    if order.len() >= desired {
        let ids = order.take(order.len() - desired);
        groups::lemma_drain_order(fleet, kind);
        laws::lemma_drain_all_effect(guard, fleet, ids);
        if ids.contains(k) {
            let m = choose|m: int| 0 <= m < ids.len() && ids[m] == k;
            assert(order[m] == k);
        }
        assert(guard.drain_all(fleet, ids)[k] == fleet[k]);
    }
}

/// Agents of kinds that are not reconciled stay as they are.
proof fn lemma_unlisted_kinds_stay(
    guard: Guard,
    fleet: Seq<Member>,
    wanted: Seq<Wanted>,
    kinds: Seq<Seq<char>>,
    k: int,
)
    requires
        0 <= k < fleet.len(),
        !kinds.contains(fleet[k].kind),
    ensures
        k < guard.reconcile_kinds(fleet, wanted, kinds).len(),
        guard.reconcile_kinds(fleet, wanted, kinds)[k] == fleet[k],
    decreases kinds.len(),
{
    if kinds.len() > 0 {
        let most = kinds.drop_last();
        assert(kinds[kinds.len() - 1] == kinds.last());
        if most.contains(fleet[k].kind) {
            let m = choose|m: int| 0 <= m < most.len() && most[m] == fleet[k].kind;
            assert(kinds[m] == fleet[k].kind);
        }
        lemma_unlisted_kinds_stay(guard, fleet, wanted, most, k);
        lemma_other_kinds_stay(
            guard,
            guard.reconcile_kinds(fleet, wanted, most),
            wanted,
            kinds.last(),
            k,
        );
    }
}

proof fn lemma_ascending_prefix(kinds: Seq<Seq<char>>)
    requires
        model::ascending(kinds),
        kinds.len() > 0,
    ensures
        model::ascending(kinds.drop_last()),
        !kinds.drop_last().contains(kinds.last()),
{
    let most = kinds.drop_last();
    assert forall|i: int, j: int| 0 <= i < j < most.len() implies text::precedes(
        #[trigger] most[i],
        #[trigger] most[j],
    ) by {
        assert(text::precedes(kinds[i], kinds[j]));
    }
    if most.contains(kinds.last()) {
        let m = choose|m: int| 0 <= m < most.len() && most[m] == kinds.last();
        assert(text::precedes(kinds[m], kinds[kinds.len() - 1]));
        text::lemma_precedes_irreflexive(kinds.last());
    }
}

proof fn lemma_kinds_drain_in_order(
    guard: Guard,
    fleet: Seq<Member>,
    wanted: Seq<Wanted>,
    kinds: Seq<Seq<char>>,
    i: int,
    j: int,
)
    requires
        model::ascending(kinds),
        0 <= i < fleet.len(),
        0 <= j < fleet.len(),
        fleet[i].kind == fleet[j].kind,
        model::active(fleet[i].state),
        model::active(fleet[j].state),
        laws::drained_before(fleet, i, j),
        guard.reconcile_kinds(fleet, wanted, kinds)[j].state == AgentState::Draining,
    ensures
        guard.reconcile_kinds(fleet, wanted, kinds)[i].state == AgentState::Draining,
    decreases kinds.len(),
{
    let kind = fleet[j].kind;
    if !kinds.contains(kind) {
        lemma_unlisted_kinds_stay(guard, fleet, wanted, kinds, j);
    } else {
        let most = kinds.drop_last();
        let last = kinds.last();
        let middle = guard.reconcile_kinds(fleet, wanted, most);
        let after = guard.reconcile_kinds(fleet, wanted, kinds);
        lemma_ascending_prefix(kinds);
        laws::lemma_reconcile_kinds(guard, fleet, wanted, most);
        assert(middle[i].kind == kind && middle[j].kind == kind);
        if last != kind {
            lemma_other_kinds_stay(guard, middle, wanted, last, i);
            lemma_other_kinds_stay(guard, middle, wanted, last, j);
            lemma_kinds_drain_in_order(guard, fleet, wanted, most, i, j);
        } else {
            lemma_unlisted_kinds_stay(guard, fleet, wanted, most, i);
            lemma_unlisted_kinds_stay(guard, fleet, wanted, most, j);
            let desired = model::desired_count(wanted, kind) as int;
            let order = model::drain_order(middle, kind);
            if order.len() >= desired {
                let ids = order.take(order.len() - desired);
                laws::lemma_drain_order_is_sorted(middle, kind);
                laws::lemma_drain_all_effect(guard, middle, ids);
                assert(after[j] == guard.drain_all(middle, ids)[j]);
                assert(ids.contains(j));
                let b = choose|b: int| 0 <= b < ids.len() && ids[b] == j;
                assert(order.contains(i));
                let a = choose|a: int| 0 <= a < order.len() && order[a] == i;
                assert(order[b] == j);
                assert(a < b) by {
                    if b < a {
                        assert(laws::drained_before(middle, order[b], order[a]));
                    }
                }
                assert forall|m: int, n: int| 0 <= m < n < ids.len() implies #[trigger] ids[m]
                    != #[trigger] ids[n] by {
                    assert(laws::drained_before(middle, order[m], order[n]));
                }
                assert(ids[a] == i);
                lemma_drain_all_in_order(guard, middle, ids, a, b);
            }
        }
    }
}

/// Within a kind, `Degraded` agents are drained before `Healthy` ones, and newer
/// agents before older ones: reconciliation drains no agent while it leaves one
/// in service that comes before it.
pub proof fn lemma_reconcile_drains_in_order(
    conductor: ConductorModel,
    wanted: Seq<Wanted>,
    conservation: ConservationConfig,
    i: int,
    j: int,
)
    requires
        0 <= i < conductor.fleet.len(),
        0 <= j < conductor.fleet.len(),
        conductor.fleet[i].kind == conductor.fleet[j].kind,
        ({
            let first = conductor.fleet[i].state;
            let second = conductor.fleet[j].state;
            ||| first == AgentState::Degraded && second == AgentState::Healthy
            ||| first == AgentState::Degraded && second == AgentState::Degraded && i > j
            ||| first == AgentState::Healthy && second == AgentState::Healthy && i > j
        }),
        conductor.reconcile(wanted, conservation).fleet[j].state == AgentState::Draining,
    ensures
        conductor.reconcile(wanted, conservation).fleet[i].state == AgentState::Draining,
{
    let guard = Guard { conservation, ..conductor.guard };
    let kinds = model::known_kinds(conductor.fleet, wanted);
    model::lemma_known_kinds_exist(conductor.fleet, wanted);
    lemma_kinds_drain_in_order(guard, conductor.fleet, wanted, kinds, i, j);
}

/// Whether, of the live agents of a kind, those in excess of `desired` that are
/// first in line to be drained are not in service.
spec fn exhausted(fleet: Seq<Member>, kind: Seq<char>, desired: int) -> bool {
    let order = model::drain_order(fleet, kind);
    forall|j: int| 0 <= j < order.len() - desired ==> !model::active(fleet[#[trigger] order[j]].state)
}

/// Reconciling one kind leaves the drain order of another and the agents in it.
proof fn lemma_other_order_stays(
    guard: Guard,
    fleet: Seq<Member>,
    wanted: Seq<Wanted>,
    kind: Seq<char>,
    other: Seq<char>,
)
    requires
        kind != other,
    ensures
        ({
            let after = guard.reconcile_kind(fleet, wanted, kind);
            let order = model::drain_order(fleet, other);
            &&& model::drain_order(after, other) == order
            &&& forall|j: int| 0 <= j < order.len() ==> after[#[trigger] order[j]] == fleet[order[j]]
        }),
{
    let desired = model::desired_count(wanted, kind) as int;
    let order = model::drain_order(fleet, kind);
    let after = guard.reconcile_kind(fleet, wanted, kind);
    let degraded = model::in_state(other, AgentState::Degraded);
    let others = model::undegraded_of(other);
    let line = model::drain_order(fleet, other);
    groups::lemma_drain_order(fleet, other);
    assert forall|j: int| 0 <= j < line.len() implies after[#[trigger] line[j]]
        == fleet[line[j]] by {
        lemma_other_kinds_stay(guard, fleet, wanted, kind, line[j]);
    }
    if order.len() < desired {
        let tail = Seq::new(
            (desired - order.len()) as nat,
            |i: int|
                Member {
                    kind,
                    layer: model::layer_of(wanted, kind),
                    state: AgentState::Pending,
                },
        );
        assert(after =~= fleet + tail);
        groups::lemma_group_extend(fleet, tail, degraded);
        groups::lemma_group_extend(fleet, tail, others);
    } else {
        let ids = order.take(order.len() - desired);
        laws::lemma_drain_all_effect(guard, fleet, ids);
        assert forall|k: int| 0 <= k < after.len() implies degraded(#[trigger] after[k])
            == degraded(fleet[k]) && others(after[k]) == others(fleet[k]) by {
            assert(after[k] == guard.drain_all(fleet, ids)[k]);
            if fleet[k].kind == other {
                lemma_other_kinds_stay(guard, fleet, wanted, kind, k);
            }
        }
        groups::lemma_group_congruent(fleet, after, degraded);
        groups::lemma_group_congruent(fleet, after, others);
    }
}

proof fn lemma_kinds_take_turns(
    guard: Guard,
    fleet: Seq<Member>,
    wanted: Seq<Wanted>,
    kinds: Seq<Seq<char>>,
    j: int,
    kind: Seq<char>,
)
    requires
        model::ascending(kinds),
        kinds.contains(kind),
        0 <= j < fleet.len(),
        model::active(fleet[j].state),
        text::precedes(kind, fleet[j].kind),
        guard.reconcile_kinds(fleet, wanted, kinds)[j].state == AgentState::Draining,
    ensures
        exhausted(
            guard.reconcile_kinds(fleet, wanted, kinds),
            kind,
            model::desired_count(wanted, kind) as int,
        ),
    decreases kinds.len(),
{
    let other = fleet[j].kind;
    let most = kinds.drop_last();
    let last = kinds.last();
    let middle = guard.reconcile_kinds(fleet, wanted, most);
    let after = guard.reconcile_kinds(fleet, wanted, kinds);
    let desired = model::desired_count(wanted, kind) as int;
    text::lemma_precedes_irreflexive(kind);
    if !kinds.contains(other) {
        lemma_unlisted_kinds_stay(guard, fleet, wanted, kinds, j);
    } else {
        lemma_ascending_prefix(kinds);
        laws::lemma_reconcile_kinds(guard, fleet, wanted, most);
        assert(middle[j].kind == other);
        let x = choose|x: int| 0 <= x < kinds.len() && kinds[x] == kind;
        let y = choose|y: int| 0 <= y < kinds.len() && kinds[y] == other;
        assert(x < y) by {
            if y < x {
                assert(text::precedes(kinds[y], kinds[x]));
                text::lemma_precedes_transitive(kind, other, kind);
            }
        }
        assert(most[x] == kind);
        lemma_other_order_stays(guard, middle, wanted, last, kind);
        if last != other {
            lemma_other_kinds_stay(guard, middle, wanted, last, j);
            lemma_kinds_take_turns(guard, fleet, wanted, most, j, kind);
        } else {
            lemma_unlisted_kinds_stay(guard, fleet, wanted, most, j);
            let order = model::drain_order(middle, last);
            let wants = model::desired_count(wanted, last) as int;
            if order.len() >= wants && !guard.permits(model::active_count(middle)) {
                laws::lemma_drain_all_forbidden(guard, middle, order.take(order.len() - wants));
            }
            assert(laws::settled(guard, middle, wanted, most[x]));
        }
        assert(exhausted(middle, kind, desired));
        let line = model::drain_order(middle, kind);
        assert forall|k: int| 0 <= k < line.len() - desired implies !model::active(
            after[#[trigger] line[k]].state,
        ) by {
            assert(after[line[k]] == middle[line[k]]);
        }
    }
}

/// Of an agent in service and the live agents of its kind that would be drained
/// after it there are no more than desired, where those first in line are not in
/// service.
proof fn lemma_exhausted_leaves(fleet: Seq<Member>, kind: Seq<char>, desired: int, i: int)
    requires
        exhausted(fleet, kind, desired),
        0 <= i < fleet.len(),
        fleet[i].kind == kind,
        fleet[i].state == AgentState::Healthy || fleet[i].state == AgentState::Degraded,
    ensures
        ({
            let degraded = fleet[i].state == AgentState::Degraded;
            Set::new(
                |k: int|
                    {
                        &&& 0 <= k < fleet.len()
                        &&& fleet[k].kind == kind
                        &&& fleet[k].state == AgentState::Pending || fleet[k].state
                            == AgentState::Starting || fleet[k].state == AgentState::Healthy
                            || fleet[k].state == AgentState::Degraded
                        &&& if fleet[k].state == AgentState::Degraded {
                            degraded && k <= i
                        } else {
                            degraded || k <= i
                        }
                    },
            ).len() <= desired
        }),
{
    let order = model::drain_order(fleet, kind);
    let degraded = fleet[i].state == AgentState::Degraded;
    let from_here = Set::new(
        |k: int|
            {
                &&& 0 <= k < fleet.len()
                &&& fleet[k].kind == kind
                &&& fleet[k].state == AgentState::Pending || fleet[k].state == AgentState::Starting
                    || fleet[k].state == AgentState::Healthy || fleet[k].state
                    == AgentState::Degraded
                &&& if fleet[k].state == AgentState::Degraded {
                    degraded && k <= i
                } else {
                    degraded || k <= i
                }
            },
    );
    laws::lemma_drain_order_is_sorted(fleet, kind);
    assert(order.contains(i));
    let a = choose|a: int| 0 <= a < order.len() && order[a] == i;
    if a < order.len() - desired {
        assert(!model::active(fleet[order[a]].state));
    }
    let tail = order.skip(a);
    assert forall|k: int| #[trigger] from_here.contains(k) implies tail.to_set().contains(k) by {
        assert(order.contains(k));
        let b = choose|b: int| 0 <= b < order.len() && order[b] == k;
        if b < a {
            assert(laws::drained_before(fleet, order[b], order[a]));
        }
        assert(tail[b - a] == k);
    }
    tail.lemma_cardinality_of_set();
    vstd::set_lib::lemma_len_subset(from_here, tail.to_set());
}

/// The kinds take turns in ascending order: once an agent of one kind was
/// drained, the kinds before it were drained as far as asked for. Of an agent of
/// such a kind that is still in service, and of the live agents of the kind that
/// would be drained after it, there are no more than desired.
pub proof fn lemma_reconcile_kinds_take_turns(
    conductor: ConductorModel,
    wanted: Seq<Wanted>,
    conservation: ConservationConfig,
    j: int,
    i: int,
)
    requires
        0 <= j < conductor.fleet.len(),
        conductor.fleet[j].state == AgentState::Healthy || conductor.fleet[j].state
            == AgentState::Degraded,
        conductor.reconcile(wanted, conservation).fleet[j].state == AgentState::Draining,
        ({
            let after = conductor.reconcile(wanted, conservation).fleet;
            &&& 0 <= i < after.len()
            &&& after[i].state == AgentState::Healthy || after[i].state == AgentState::Degraded
            &&& text::precedes(after[i].kind, conductor.fleet[j].kind)
        }),
    ensures
        ({
            let after = conductor.reconcile(wanted, conservation).fleet;
            let degraded = after[i].state == AgentState::Degraded;
            Set::new(
                |k: int|
                    {
                        &&& 0 <= k < after.len()
                        &&& after[k].kind == after[i].kind
                        &&& after[k].state == AgentState::Pending || after[k].state
                            == AgentState::Starting || after[k].state == AgentState::Healthy
                            || after[k].state == AgentState::Degraded
                        &&& if after[k].state == AgentState::Degraded {
                            degraded && k <= i
                        } else {
                            degraded || k <= i
                        }
                    },
            ).len() <= model::desired_count(wanted, after[i].kind)
        }),
{
    let guard = Guard { conservation, ..conductor.guard };
    let fleet = conductor.fleet;
    let after = conductor.reconcile(wanted, conservation).fleet;
    let kind = after[i].kind;
    let kinds = model::known_kinds(fleet, wanted);
    model::lemma_known_kinds_exist(fleet, wanted);
    laws::lemma_reconcile_keeps_kinds(guard, fleet, wanted);
    model::lemma_known_kinds_exist(after, wanted);
    assert(model::knows(after, wanted, kind));
    assert(kinds.contains(kind));
    lemma_kinds_take_turns(guard, fleet, wanted, kinds, j, kind);
    lemma_exhausted_leaves(after, kind, model::desired_count(wanted, kind) as int, i);
}

/// Reconciliation drains as far as it is asked to and may: if the bounds would
/// allow one more drain afterwards, then of an agent still in service and of
/// those live agents of its kind that would be drained after it there are no
/// more than desired.
pub proof fn lemma_reconcile_drains_far_enough(
    conductor: ConductorModel,
    wanted: Seq<Wanted>,
    conservation: ConservationConfig,
    i: int,
)
    requires
        ({
            let after = conductor.reconcile(wanted, conservation).fleet;
            let n = Set::new(
                |k: int|
                    0 <= k < after.len() && (after[k].state == AgentState::Healthy
                        || after[k].state == AgentState::Degraded),
            ).len();
            &&& 0 <= i < after.len()
            &&& after[i].state == AgentState::Healthy || after[i].state == AgentState::Degraded
            &&& conservation.allows(
                conductor.guard.gamma,
                conductor.guard.eta_per_agent.times(Binary64::of_nat(n)),
                Binary64::of_nat(0),
                conductor.guard.eta_per_agent.minus(),
            )
        }),
    ensures
        ({
            let after = conductor.reconcile(wanted, conservation).fleet;
            let degraded = after[i].state == AgentState::Degraded;
            Set::new(
                |k: int|
                    {
                        &&& 0 <= k < after.len()
                        &&& after[k].kind == after[i].kind
                        &&& after[k].state == AgentState::Pending || after[k].state
                            == AgentState::Starting || after[k].state == AgentState::Healthy
                            || after[k].state == AgentState::Degraded
                        &&& if after[k].state == AgentState::Degraded {
                            degraded && k <= i
                        } else {
                            degraded || k <= i
                        }
                    },
            ).len() <= model::desired_count(wanted, after[i].kind)
        }),
{
    let guard = Guard { conservation, ..conductor.guard };
    let fleet = conductor.fleet;
    let after = conductor.reconcile(wanted, conservation).fleet;
    let kind = after[i].kind;
    let kinds = model::known_kinds(fleet, wanted);
    let desired = model::desired_count(wanted, kind) as int;
    lemma_active_agents(after);
    model::lemma_known_kinds_exist(fleet, wanted);
    laws::lemma_reconcile_kinds(guard, fleet, wanted, kinds);
    laws::lemma_reconcile_keeps_kinds(guard, fleet, wanted);
    model::lemma_known_kinds_exist(after, wanted);
    assert(model::knows(after, wanted, kind));
    assert(kinds.contains(kind));
    let m = choose|m: int| 0 <= m < kinds.len() && kinds[m] == kind;
    assert(laws::settled(guard, after, wanted, kinds[m]));
    assert(guard.permits(model::active_count(after)));
    lemma_exhausted_leaves(after, kind, desired, i);
}

/// What a snapshot lists: every agent once, under the ids from zero up, with its
/// kind, layer and state; their number; the number of those that are `Pending`,
/// `Starting`, `Healthy` or `Degraded`; gamma; and eta, of those that are
/// `Healthy` or `Degraded`.
pub proof fn lemma_snapshot(snapshot: FleetState, conductor: ConductorModel)
    requires
        model::observed(snapshot, conductor),
    ensures
        snapshot.agents@.len() == conductor.fleet.len(),
        forall|k: int|
            0 <= k < conductor.fleet.len() ==> {
                &&& (#[trigger] snapshot.agents@[k]).id.0 == k
                &&& snapshot.agents@[k].kind@ == conductor.fleet[k].kind
                &&& snapshot.agents@[k].layer == conductor.fleet[k].layer
                &&& snapshot.agents@[k].state == conductor.fleet[k].state
            },
        snapshot.total == snapshot.agents@.len(),
        snapshot.live == Set::new(
            |k: int|
                0 <= k < snapshot.agents@.len() && (snapshot.agents@[k].state
                    == AgentState::Pending || snapshot.agents@[k].state == AgentState::Starting
                    || snapshot.agents@[k].state == AgentState::Healthy
                    || snapshot.agents@[k].state == AgentState::Degraded),
        ).len(),
        snapshot.gamma == conductor.guard.gamma,
        snapshot.eta == conductor.guard.eta_per_agent.times(
            Binary64::of_nat(
                Set::new(
                    |k: int|
                        0 <= k < snapshot.agents@.len() && (snapshot.agents@[k].state
                            == AgentState::Healthy || snapshot.agents@[k].state
                            == AgentState::Degraded),
                ).len(),
            ),
        ),
{
    let fleet = conductor.fleet;
    let agents = snapshot.agents@;
    let p = model::is_live();
    let q = model::is_active();
    lemma_count_is_size(fleet, p);
    lemma_count_is_size(fleet, q);
    assert forall|k: int| 0 <= k < fleet.len() implies (#[trigger] agents[k]).state
        == fleet[k].state by {}
    assert(Set::new(
        |k: int|
            0 <= k < snapshot.agents@.len() && (snapshot.agents@[k].state == AgentState::Pending
                || snapshot.agents@[k].state == AgentState::Starting || snapshot.agents@[k].state
                == AgentState::Healthy || snapshot.agents@[k].state == AgentState::Degraded),
    ) =~= Set::new(|k: int| 0 <= k < fleet.len() && p(fleet[k])));
    assert(Set::new(
        |k: int|
            0 <= k < snapshot.agents@.len() && (snapshot.agents@[k].state == AgentState::Healthy
                || snapshot.agents@[k].state == AgentState::Degraded),
    ) =~= Set::new(|k: int| 0 <= k < fleet.len() && q(fleet[k])));
}

/// The summaries of a snapshot stand in ascending order of kind, one for each.
pub proof fn lemma_snapshot_kinds(snapshot: FleetState, conductor: ConductorModel)
    requires
        model::observed(snapshot, conductor),
    ensures
        forall|a: int, b: int|
            0 <= a < b < snapshot.by_kind.entries@.len() ==> text::precedes(
                (#[trigger] snapshot.by_kind.entries@[a]).0@,
                (#[trigger] snapshot.by_kind.entries@[b]).0@,
            ),
{
    let fleet = conductor.fleet;
    let wanted = conductor.wanted;
    let entries = snapshot.by_kind.entries@;
    let kinds = snapshot.by_kind.kinds();
    model::lemma_known_kinds_exist(fleet, wanted);
    assert forall|a: int, b: int| 0 <= a < b < entries.len() implies text::precedes(
        (#[trigger] entries[a]).0@,
        (#[trigger] entries[b]).0@,
    ) by {
        assert(text::precedes(kinds[a], kinds[b]));
    }
}

/// A snapshot summarizes no kind but those of its agents and of the entries of
/// the desired state.
pub proof fn lemma_snapshot_has_no_other_kind(
    snapshot: FleetState,
    conductor: ConductorModel,
    e: int,
)
    requires
        model::observed(snapshot, conductor),
        0 <= e < snapshot.by_kind.entries@.len(),
    ensures
        (exists|k: int|
            0 <= k < snapshot.agents@.len() && (#[trigger] snapshot.agents@[k]).kind@
                == snapshot.by_kind.entries@[e].0@) || (exists|w: int|
            0 <= w < conductor.wanted.len() && (#[trigger] conductor.wanted[w]).kind
                == snapshot.by_kind.entries@[e].0@),
{
    let kinds = snapshot.by_kind.kinds();
    let kind = snapshot.by_kind.entries@[e].0@;
    model::lemma_known_kinds_exist(conductor.fleet, conductor.wanted);
    assert(kinds[e] == kind);
    assert(kinds.contains(kind));
    assert(model::knows(conductor.fleet, conductor.wanted, kind));
    if !model::wants(conductor.wanted, kind) {
        let k = choose|k: int|
            0 <= k < conductor.fleet.len() && (#[trigger] conductor.fleet[k]).kind == kind;
        assert(snapshot.agents@[k].kind@ == kind);
    }
}

/// A snapshot summarizes the kind of every agent that it lists.
pub proof fn lemma_snapshot_has_agent_kind(
    snapshot: FleetState,
    conductor: ConductorModel,
    k: int,
)
    requires
        model::observed(snapshot, conductor),
        0 <= k < snapshot.agents@.len(),
    ensures
        exists|e: int|
            0 <= e < snapshot.by_kind.entries@.len() && (#[trigger] snapshot.by_kind.entries@[e]).0@
                == snapshot.agents@[k].kind@,
{
    let kinds = snapshot.by_kind.kinds();
    let kind = snapshot.agents@[k].kind@;
    model::lemma_known_kinds_exist(conductor.fleet, conductor.wanted);
    assert(conductor.fleet[k].kind == kind);
    assert(kinds.contains(kind));
    let e = choose|e: int| 0 <= e < kinds.len() && kinds[e] == kind;
    assert(snapshot.by_kind.entries@[e].0@ == kind);
}

/// A snapshot summarizes the kind of every entry of the desired state.
pub proof fn lemma_snapshot_has_wanted_kind(
    snapshot: FleetState,
    conductor: ConductorModel,
    w: int,
)
    requires
        model::observed(snapshot, conductor),
        0 <= w < conductor.wanted.len(),
    ensures
        exists|e: int|
            0 <= e < snapshot.by_kind.entries@.len() && (#[trigger] snapshot.by_kind.entries@[e]).0@
                == conductor.wanted[w].kind,
{
    let kinds = snapshot.by_kind.kinds();
    let kind = conductor.wanted[w].kind;
    model::lemma_known_kinds_exist(conductor.fleet, conductor.wanted);
    assert(model::wants(conductor.wanted, kind));
    assert(kinds.contains(kind));
    let e = choose|e: int| 0 <= e < kinds.len() && kinds[e] == kind;
    assert(snapshot.by_kind.entries@[e].0@ == kind);
}

/// What the summary of a kind says of the agents that the same snapshot lists:
/// how many there are of the kind, how many of them are live, and how many are
/// in each state.
pub proof fn lemma_snapshot_summary(
    snapshot: FleetState,
    conductor: ConductorModel,
    e: int,
    agents: Seq<Agent>,
    kind: Seq<char>,
    summary: KindSummary,
)
    requires
        model::observed(snapshot, conductor),
        0 <= e < snapshot.by_kind.entries@.len(),
        agents == snapshot.agents@,
        kind == snapshot.by_kind.entries@[e].0@,
        summary == snapshot.by_kind.entries@[e].1,
    ensures
        summary.total == Set::new(
            |k: int| 0 <= k < agents.len() && agents[k].kind@ == kind,
        ).len(),
        summary.observed == Set::new(
            |k: int|
                0 <= k < agents.len() && agents[k].kind@ == kind && (agents[k].state
                    == AgentState::Pending || agents[k].state == AgentState::Starting
                    || agents[k].state == AgentState::Healthy || agents[k].state
                    == AgentState::Degraded),
        ).len(),
        summary.by_state.pending == Set::new(
            |k: int|
                0 <= k < agents.len() && agents[k].kind@ == kind && agents[k].state
                    == AgentState::Pending,
        ).len(),
        summary.by_state.starting == Set::new(
            |k: int|
                0 <= k < agents.len() && agents[k].kind@ == kind && agents[k].state
                    == AgentState::Starting,
        ).len(),
        summary.by_state.healthy == Set::new(
            |k: int|
                0 <= k < agents.len() && agents[k].kind@ == kind && agents[k].state
                    == AgentState::Healthy,
        ).len(),
        summary.by_state.degraded == Set::new(
            |k: int|
                0 <= k < agents.len() && agents[k].kind@ == kind && agents[k].state
                    == AgentState::Degraded,
        ).len(),
        summary.by_state.draining == Set::new(
            |k: int|
                0 <= k < agents.len() && agents[k].kind@ == kind && agents[k].state
                    == AgentState::Draining,
        ).len(),
        summary.by_state.terminated == Set::new(
            |k: int|
                0 <= k < agents.len() && agents[k].kind@ == kind && agents[k].state
                    == AgentState::Terminated,
        ).len(),
{
    let fleet = conductor.fleet;
    assert(model::summarizes(summary, fleet, conductor.wanted, kind));
    let p = model::of_kind(kind);
    lemma_count_is_size(fleet, p);
    assert(Set::new(|k: int| 0 <= k < agents.len() && agents[k].kind@ == kind) =~= Set::new(
        |k: int| 0 <= k < fleet.len() && p(fleet[k]),
    ));
    let q = model::live_of(kind);
    lemma_count_is_size(fleet, q);
    assert(Set::new(
        |k: int|
            0 <= k < agents.len() && agents[k].kind@ == kind && (agents[k].state
                == AgentState::Pending || agents[k].state == AgentState::Starting
                || agents[k].state == AgentState::Healthy || agents[k].state
                == AgentState::Degraded),
    ) =~= Set::new(|k: int| 0 <= k < fleet.len() && q(fleet[k])));
    assert forall|state: AgentState| #[trigger]
        summary.by_state.count(state) == Set::new(
            |k: int| 0 <= k < agents.len() && agents[k].kind@ == kind && agents[k].state == state,
        ).len() by {
        let r = model::in_state(kind, state);
        lemma_count_is_size(fleet, r);
        assert(Set::new(
            |k: int| 0 <= k < agents.len() && agents[k].kind@ == kind && agents[k].state == state,
        ) =~= Set::new(|k: int| 0 <= k < fleet.len() && r(fleet[k])));
    }
    assert(summary.by_state.count(AgentState::Pending) == summary.by_state.pending);
    assert(Set::new(
        |k: int|
            0 <= k < agents.len() && agents[k].kind@ == kind && agents[k].state
                == AgentState::Pending,
    ) =~= Set::new(
        |k: int|
            0 <= k < agents.len() && agents[k].kind@ == kind && agents[k].state
                == AgentState::Pending,
    ));
    assert(summary.by_state.count(AgentState::Starting) == summary.by_state.starting);
    assert(Set::new(
        |k: int|
            0 <= k < agents.len() && agents[k].kind@ == kind && agents[k].state
                == AgentState::Starting,
    ) =~= Set::new(
        |k: int|
            0 <= k < agents.len() && agents[k].kind@ == kind && agents[k].state
                == AgentState::Starting,
    ));
    assert(summary.by_state.count(AgentState::Healthy) == summary.by_state.healthy);
    assert(Set::new(
        |k: int|
            0 <= k < agents.len() && agents[k].kind@ == kind && agents[k].state
                == AgentState::Healthy,
    ) =~= Set::new(
        |k: int|
            0 <= k < agents.len() && agents[k].kind@ == kind && agents[k].state
                == AgentState::Healthy,
    ));
    assert(summary.by_state.count(AgentState::Degraded) == summary.by_state.degraded);
    assert(Set::new(
        |k: int|
            0 <= k < agents.len() && agents[k].kind@ == kind && agents[k].state
                == AgentState::Degraded,
    ) =~= Set::new(
        |k: int|
            0 <= k < agents.len() && agents[k].kind@ == kind && agents[k].state
                == AgentState::Degraded,
    ));
    assert(summary.by_state.count(AgentState::Draining) == summary.by_state.draining);
    assert(Set::new(
        |k: int|
            0 <= k < agents.len() && agents[k].kind@ == kind && agents[k].state
                == AgentState::Draining,
    ) =~= Set::new(
        |k: int|
            0 <= k < agents.len() && agents[k].kind@ == kind && agents[k].state
                == AgentState::Draining,
    ));
    assert(summary.by_state.count(AgentState::Terminated) == summary.by_state.terminated);
    assert(Set::new(
        |k: int|
            0 <= k < agents.len() && agents[k].kind@ == kind && agents[k].state
                == AgentState::Terminated,
    ) =~= Set::new(
        |k: int|
            0 <= k < agents.len() && agents[k].kind@ == kind && agents[k].state
                == AgentState::Terminated,
    ));
}

/// What the summary of a kind says of the desired state: the count of its last
/// entry, or nothing if it has none.
pub proof fn lemma_snapshot_desired(snapshot: FleetState, conductor: ConductorModel, e: int)
    requires
        model::observed(snapshot, conductor),
        0 <= e < snapshot.by_kind.entries@.len(),
    ensures
        snapshot.by_kind.entries@[e].1.desired is None <==> forall|w: int|
            0 <= w < conductor.wanted.len() ==> (#[trigger] conductor.wanted[w]).kind
                != snapshot.by_kind.entries@[e].0@,
        forall|w: int|
            0 <= w < conductor.wanted.len() && (#[trigger] conductor.wanted[w]).kind
                == snapshot.by_kind.entries@[e].0@ && (forall|v: int|
                w < v < conductor.wanted.len() ==> (#[trigger] conductor.wanted[v]).kind
                    != snapshot.by_kind.entries@[e].0@) ==> snapshot.by_kind.entries@[e].1.desired
                == Some(conductor.wanted[w].count),
{
    let wanted = conductor.wanted;
    let kind = snapshot.by_kind.entries@[e].0@;
    let summary = snapshot.by_kind.entries@[e].1;
    assert(model::summarizes(summary, conductor.fleet, wanted, kind));
    assert forall|w: int|
        0 <= w < wanted.len() && (#[trigger] wanted[w]).kind == kind && (forall|v: int|
            w < v < wanted.len() ==> (#[trigger] wanted[v]).kind
                != kind) implies summary.desired == Some(wanted[w].count) by {
        lemma_last_entry_decides_count(wanted, w);
    }
}

/// The entries of a desired state are taken as they stand, in order.
pub proof fn lemma_entries(spec: FleetSpec)
    ensures
        spec.wanted().len() == spec.agents@.len(),
        forall|i: int|
            0 <= i < spec.agents@.len() ==> {
                &&& (#[trigger] spec.wanted()[i]).kind == spec.agents@[i].kind@
                &&& spec.wanted()[i].count == spec.agents@[i].count
                &&& spec.wanted()[i].layer == spec.agents@[i].layer
            },
{
}

} // verus!
