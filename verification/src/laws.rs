//! Laws of the conductor: what every operation keeps, and what repeating it
//! does.

use vstd::prelude::*;

use crate::binary64::Binary64;
use crate::conservation;
use crate::conservation::ConservationConfig;
use crate::fleet::{AgentId, DrainOutcome, Wanted};
use crate::groups;
use crate::model;
use crate::model::{ConductorModel, Guard, Member};
use crate::state::AgentState;
use crate::text;

verus! {

/// Moving one agent to a state outside a group takes it out of the count.
proof fn lemma_count_with_state(
    fleet: Seq<Member>,
    i: int,
    state: AgentState,
    p: spec_fn(Member) -> bool,
)
    requires
        0 <= i < fleet.len(),
        p(fleet[i]),
        !p(Member { state, ..fleet[i] }),
    ensures
        model::count(model::with_state(fleet, i, state), p) == model::count(fleet, p) - 1,
        model::count(fleet, p) > 0,
    decreases fleet.len(),
{
    let after = model::with_state(fleet, i, state);
    let rest = fleet.drop_last();
    if i == fleet.len() - 1 {
        assert(after.drop_last() =~= rest);
    } else {
        assert(rest[i] == fleet[i]);
        lemma_count_with_state(rest, i, state, p);
        assert(after.drop_last() =~= model::with_state(rest, i, state));
    }
}

/// What attempts to drain leave of a fleet: every agent is untouched, or it was
/// active, its drain was attempted, and it is draining now.
pub(crate) proof fn lemma_drain_all_effect(guard: Guard, fleet: Seq<Member>, ids: Seq<int>)
    ensures
        guard.drain_all(fleet, ids).len() == fleet.len(),
        forall|i: int|
            0 <= i < fleet.len() ==> (#[trigger] guard.drain_all(fleet, ids)[i] == fleet[i] || (
            model::active(fleet[i].state) && ids.contains(i) && guard.drain_all(fleet, ids)[i]
                == (Member { state: AgentState::Draining, ..fleet[i] }))),
    decreases ids.len(),
{
    if ids.len() > 0 {
        let most = ids.drop_last();
        lemma_drain_all_effect(guard, fleet, most);
        let middle = guard.drain_all(fleet, most);
        let after = guard.drain_all(fleet, ids);
        assert forall|i: int| 0 <= i < fleet.len() implies (#[trigger] after[i] == fleet[i] || (
        model::active(fleet[i].state) && ids.contains(i) && after[i] == (Member {
            state: AgentState::Draining,
            ..fleet[i]
        }))) by {
            assert(middle[i] == fleet[i] || (model::active(fleet[i].state) && most.contains(i)
                && middle[i] == (Member { state: AgentState::Draining, ..fleet[i] })));
            if most.contains(i) {
                let k = choose|k: int| 0 <= k < most.len() && most[k] == i;
                assert(ids[k] == i);
            }
            assert(ids[ids.len() - 1] == ids.last());
        }
    }
}

/// Attempts to drain stop only at the guard: if it would still permit a drain
/// afterwards, none of the attempted agents is active any more.
pub(crate) proof fn lemma_drain_all_exhausts(guard: Guard, fleet: Seq<Member>, ids: Seq<int>)
    requires
        guard.permits(model::active_count(guard.drain_all(fleet, ids))),
    ensures
        forall|j: int|
            0 <= j < ids.len() && 0 <= ids[j] < fleet.len() ==> !model::active(
                guard.drain_all(fleet, ids)[#[trigger] ids[j]].state,
            ),
    decreases ids.len(),
{
    if ids.len() > 0 {
        let most = ids.drop_last();
        let middle = guard.drain_all(fleet, most);
        let after = guard.drain_all(fleet, ids);
        lemma_drain_all_effect(guard, fleet, most);
        lemma_drain_all_exhausts(guard, fleet, most);
        assert forall|j: int| 0 <= j < ids.len() && 0 <= ids[j] < fleet.len() implies !model::active(
            after[#[trigger] ids[j]].state,
        ) by {
            if j < most.len() {
                assert(most[j] == ids[j]);
                assert(!model::active(middle[most[j]].state));
            }
        }
    }
}

/// A guard that forbids draining from the start lets nothing change.
pub(crate) proof fn lemma_drain_all_forbidden(guard: Guard, fleet: Seq<Member>, ids: Seq<int>)
    requires
        !guard.permits(model::active_count(fleet)),
    ensures
        guard.drain_all(fleet, ids) == fleet,
    decreases ids.len(),
{
    if ids.len() > 0 {
        lemma_drain_all_forbidden(guard, fleet, ids.drop_last());
    }
}

/// Attempts to drain agents that are not active change nothing.
proof fn lemma_drain_all_inactive(guard: Guard, fleet: Seq<Member>, ids: Seq<int>)
    requires
        forall|j: int|
            0 <= j < ids.len() && 0 <= ids[j] < fleet.len() ==> !model::active(
                fleet[#[trigger] ids[j]].state,
            ),
    ensures
        guard.drain_all(fleet, ids) == fleet,
    decreases ids.len(),
{
    if ids.len() > 0 {
        let most = ids.drop_last();
        assert forall|j: int| 0 <= j < most.len() && 0 <= most[j] < fleet.len() implies !model::active(
            fleet[#[trigger] most[j]].state,
        ) by {
            assert(most[j] == ids[j]);
        }
        lemma_drain_all_inactive(guard, fleet, most);
        let last = ids[ids.len() - 1];
        if 0 <= last < fleet.len() {
            assert(!model::active(fleet[last].state));
        }
    }
}

/// Whether a kind has as many live agents as asked for, and no more than the
/// guard or the lifecycle forces the fleet to keep: if the guard would still
/// permit a drain, the agents next in line to be drained are not active.
pub open spec fn settled(
    guard: Guard,
    fleet: Seq<Member>,
    wanted: Seq<Wanted>,
    kind: Seq<char>,
) -> bool {
    let desired = model::desired_count(wanted, kind) as int;
    let order = model::drain_order(fleet, kind);
    &&& desired <= order.len()
    &&& guard.permits(model::active_count(fleet)) ==> forall|j: int|
        0 <= j < order.len() - desired ==> !model::active(fleet[#[trigger] order[j]].state)
}

/// Reconciling a settled kind changes nothing.
proof fn lemma_settled_is_kept(
    guard: Guard,
    fleet: Seq<Member>,
    wanted: Seq<Wanted>,
    kind: Seq<char>,
)
    requires
        settled(guard, fleet, wanted, kind),
    ensures
        guard.reconcile_kind(fleet, wanted, kind) == fleet,
{
    let desired = model::desired_count(wanted, kind) as int;
    let order = model::drain_order(fleet, kind);
    let excess = order.take(order.len() - desired);
    if guard.permits(model::active_count(fleet)) {
        assert forall|j: int| 0 <= j < excess.len() && 0 <= excess[j] < fleet.len() implies !model::active(
            fleet[#[trigger] excess[j]].state,
        ) by {
            assert(excess[j] == order[j]);
        }
        lemma_drain_all_inactive(guard, fleet, excess);
    } else {
        lemma_drain_all_forbidden(guard, fleet, excess);
    }
}

/// The drain order after attempts to drain is what is left of the one before.
proof fn lemma_drain_order_after(
    guard: Guard,
    fleet: Seq<Member>,
    ids: Seq<int>,
    kind: Seq<char>,
)
    ensures
        ({
            let after = guard.drain_all(fleet, ids);
            model::drain_order(after, kind) == model::drain_order(fleet, kind).filter(
                |i: int| after[i].kind == kind && model::live(after[i].state),
            )
        }),
{
    let after = guard.drain_all(fleet, ids);
    let keep = |i: int| after[i].kind == kind && model::live(after[i].state);
    let degraded = model::in_state(kind, AgentState::Degraded);
    let others = model::undegraded_of(kind);
    lemma_drain_all_effect(guard, fleet, ids);
    assert forall|i: int| 0 <= i < after.len() && degraded(#[trigger] after[i]) implies degraded(
        fleet[i],
    ) by {
        assert(after[i] == guard.drain_all(fleet, ids)[i]);
    }
    assert forall|i: int| 0 <= i < after.len() && others(#[trigger] after[i]) implies others(
        fleet[i],
    ) by {
        assert(after[i] == guard.drain_all(fleet, ids)[i]);
    }
    groups::lemma_newest_first_filter(fleet, after, degraded);
    groups::lemma_newest_first_filter(fleet, after, others);
    groups::lemma_newest_first_members(fleet, degraded);
    groups::lemma_newest_first_members(fleet, others);
    let first = model::newest_first(fleet, degraded);
    let second = model::newest_first(fleet, others);
    assert forall|j: int| 0 <= j < first.len() implies keep(#[trigger] first[j]) == degraded(
        after[first[j]],
    ) by {
        let i = first[j];
        assert(after[i] == guard.drain_all(fleet, ids)[i]);
    }
    assert forall|j: int| 0 <= j < second.len() implies keep(#[trigger] second[j]) == others(
        after[second[j]],
    ) by {
        let i = second[j];
        assert(after[i] == guard.drain_all(fleet, ids)[i]);
    }
    groups::lemma_filter_congruent(first, keep, |i: int| degraded(after[i]));
    groups::lemma_filter_congruent(second, keep, |i: int| others(after[i]));
    groups::lemma_filter_add(first, second, keep);
}

/// Reconciling a kind settles it.
proof fn lemma_reconcile_kind_settles(
    guard: Guard,
    fleet: Seq<Member>,
    wanted: Seq<Wanted>,
    kind: Seq<char>,
)
    ensures
        settled(guard, guard.reconcile_kind(fleet, wanted, kind), wanted, kind),
        ({
            let before = model::live_count(fleet, kind);
            let after = model::live_count(guard.reconcile_kind(fleet, wanted, kind), kind);
            let desired = model::desired_count(wanted, kind);
            after <= if before < desired {
                desired as nat
            } else {
                before
            }
        }),
{
    let desired = model::desired_count(wanted, kind) as int;
    let order = model::drain_order(fleet, kind);
    let after = guard.reconcile_kind(fleet, wanted, kind);
    let order_after = model::drain_order(after, kind);
    groups::lemma_drain_order(fleet, kind);
    groups::lemma_drain_order(after, kind);
    if order.len() < desired {
        let n = (desired - order.len()) as nat;
        let tail = Seq::new(
            n,
            |i: int|
                Member {
                    kind,
                    layer: model::layer_of(wanted, kind),
                    state: AgentState::Pending,
                },
        );
        assert(after =~= fleet + tail);
        groups::lemma_count_join(fleet, tail, model::live_of(kind));
        assert(order_after.len() == desired);
    } else {
        let ids = order.take(order.len() - desired);
        let rest = order.skip(order.len() - desired);
        let keep = |i: int| after[i].kind == kind && model::live(after[i].state);
        assert(order =~= ids + rest);
        lemma_drain_order_after(guard, fleet, ids, kind);
        lemma_drain_all_effect(guard, fleet, ids);
        groups::lemma_filter_add(ids, rest, keep);
        // agents beyond the excess are untouched, so they stay in line
        lemma_drain_order_is_sorted(fleet, kind);
        assert forall|j: int| 0 <= j < rest.len() implies keep(#[trigger] rest[j]) by {
            let i = rest[j];
            assert(i == order[j + ids.len()]);
            assert(!ids.contains(i)) by {
                if ids.contains(i) {
                    let k = choose|k: int| 0 <= k < ids.len() && ids[k] == i;
                    assert(drained_before(fleet, order[k], order[j + ids.len()]));
                }
            }
            assert(guard.drain_all(fleet, ids)[i] == fleet[i]);
        }
        groups::lemma_filter_all(rest, keep);
        let kept = ids.filter(keep);
        groups::lemma_filter_members(ids, keep);
        assert(order_after =~= kept + rest);
        assert(order_after.len() - desired == kept.len());
        if guard.permits(model::active_count(after)) {
            lemma_drain_all_exhausts(guard, fleet, ids);
            assert forall|j: int| 0 <= j < order_after.len() - desired implies !model::active(
                after[#[trigger] order_after[j]].state,
            ) by {
                assert(order_after[j] == kept[j]);
                let k = choose|k: int| 0 <= k < ids.len() && ids[k] == kept[j];
                assert(order[k] == ids[k]);
                assert(!model::active(guard.drain_all(fleet, ids)[ids[k]].state));
            }
        }
    }
}

/// Whether one agent is drained before another: a degraded one before one that
/// is not, else the newer one.
pub open spec fn drained_before(fleet: Seq<Member>, i: int, j: int) -> bool {
    let first = fleet[i].state == AgentState::Degraded;
    let second = fleet[j].state == AgentState::Degraded;
    (first && !second) || (first == second && i > j)
}

/// The drain order lists exactly the live agents of a kind, sorted: degraded
/// agents first, and newest first among equals.
pub proof fn lemma_drain_order_is_sorted(fleet: Seq<Member>, kind: Seq<char>)
    ensures
        forall|i: int| #[trigger]
            model::drain_order(fleet, kind).contains(i) <==> 0 <= i < fleet.len() && fleet[i].kind
                == kind && model::live(fleet[i].state),
        forall|a: int, b: int|
            0 <= a < b < model::drain_order(fleet, kind).len() ==> drained_before(
                fleet,
                #[trigger] model::drain_order(fleet, kind)[a],
                #[trigger] model::drain_order(fleet, kind)[b],
            ),
{
    let degraded = model::in_state(kind, AgentState::Degraded);
    let others = model::undegraded_of(kind);
    let first = model::newest_first(fleet, degraded);
    let second = model::newest_first(fleet, others);
    let order = model::drain_order(fleet, kind);
    groups::lemma_newest_first_members(fleet, degraded);
    groups::lemma_newest_first_members(fleet, others);
    groups::lemma_newest_first_descends(fleet, degraded);
    groups::lemma_newest_first_descends(fleet, others);
    groups::lemma_newest_first_complete(fleet, degraded);
    groups::lemma_newest_first_complete(fleet, others);
    groups::lemma_drain_order(fleet, kind);
    assert forall|i: int| #[trigger] order.contains(i) <==> 0 <= i < fleet.len() && fleet[i].kind
        == kind && model::live(fleet[i].state) by {
        if order.contains(i) {
            let k = choose|k: int| 0 <= k < order.len() && order[k] == i;
            assert(fleet[order[k]].kind == kind);
        }
        if 0 <= i < fleet.len() && fleet[i].kind == kind && model::live(fleet[i].state) {
            if degraded(fleet[i]) {
                assert(first.contains(i));
                let k = choose|k: int| 0 <= k < first.len() && first[k] == i;
                assert(order[k] == i);
            } else {
                assert(second.contains(i));
                let k = choose|k: int| 0 <= k < second.len() && second[k] == i;
                assert(order[first.len() + k] == i);
            }
        }
    }
    assert forall|a: int, b: int| 0 <= a < b < order.len() implies drained_before(
        fleet,
        #[trigger] order[a],
        #[trigger] order[b],
    ) by {
        if b < first.len() {
            assert(order[a] == first[a] && order[b] == first[b]);
        } else if a < first.len() {
            assert(order[a] == first[a] && order[b] == second[b - first.len()]);
            assert(degraded(fleet[first[a]]));
            assert(others(fleet[second[b - first.len()]]));
        } else {
            assert(order[a] == second[a - first.len()] && order[b] == second[b - first.len()]);
            assert(others(fleet[order[a]]) && others(fleet[order[b]]));
        }
    }
}

/// Reconciling one kind leaves another settled if it was, and does not change
/// its number of live agents.
pub(crate) proof fn lemma_reconcile_kind_frame(
    guard: Guard,
    fleet: Seq<Member>,
    wanted: Seq<Wanted>,
    kind: Seq<char>,
    other: Seq<char>,
)
    requires
        kind != other,
    ensures
        settled(guard, fleet, wanted, other) ==> settled(
            guard,
            guard.reconcile_kind(fleet, wanted, kind),
            wanted,
            other,
        ),
        model::live_count(guard.reconcile_kind(fleet, wanted, kind), other) == model::live_count(
            fleet,
            other,
        ),
{
    let desired = model::desired_count(wanted, kind) as int;
    let order = model::drain_order(fleet, kind);
    let after = guard.reconcile_kind(fleet, wanted, kind);
    let degraded = model::in_state(other, AgentState::Degraded);
    let others = model::undegraded_of(other);
    let line = model::drain_order(fleet, other);
    groups::lemma_drain_order(fleet, other);
    groups::lemma_drain_order(fleet, kind);
    if order.len() < desired {
        let n = (desired - order.len()) as nat;
        let tail = Seq::new(
            n,
            |i: int|
                Member {
                    kind,
                    layer: model::layer_of(wanted, kind),
                    state: AgentState::Pending,
                },
        );
        assert(after =~= fleet + tail);
        groups::lemma_group_extend(fleet, tail, degraded);
        groups::lemma_group_extend(fleet, tail, others);
        groups::lemma_group_extend(fleet, tail, model::live_of(other));
        groups::lemma_group_extend(fleet, tail, model::is_active());
        assert(forall|j: int| 0 <= j < line.len() ==> after[#[trigger] line[j]] == fleet[line[j]]);
    } else {
        let ids = order.take(order.len() - desired);
        lemma_drain_all_effect(guard, fleet, ids);
        assert forall|i: int| 0 <= i < fleet.len() && fleet[i].kind == other implies after[i]
            == #[trigger] fleet[i] by {
            assert(after[i] == guard.drain_all(fleet, ids)[i]);
            if ids.contains(i) {
                let k = choose|k: int| 0 <= k < ids.len() && ids[k] == i;
                assert(order[k] == i);
            }
        }
        assert forall|i: int| 0 <= i < fleet.len() implies (#[trigger] after[i]).kind
            == fleet[i].kind by {
            assert(after[i] == guard.drain_all(fleet, ids)[i]);
        }
        assert forall|i: int| 0 <= i < after.len() implies degraded(#[trigger] after[i])
            == degraded(fleet[i]) by {
            if fleet[i].kind == other {
                assert(after[i] == fleet[i]);
            }
        }
        assert forall|i: int| 0 <= i < after.len() implies others(#[trigger] after[i]) == others(
            fleet[i],
        ) by {
            if fleet[i].kind == other {
                assert(after[i] == fleet[i]);
            }
        }
        assert forall|i: int| 0 <= i < after.len() implies model::live_of(other)(
            #[trigger] after[i],
        ) == model::live_of(other)(fleet[i]) by {
            if fleet[i].kind == other {
                assert(after[i] == fleet[i]);
            }
        }
        groups::lemma_group_congruent(fleet, after, degraded);
        groups::lemma_group_congruent(fleet, after, others);
        groups::lemma_group_congruent(fleet, after, model::live_of(other));
        if !guard.permits(model::active_count(fleet)) {
            lemma_drain_all_forbidden(guard, fleet, ids);
        }
    }
}

/// What reconciling may do to a fleet: agents keep their id, kind and layer,
/// and either keep their state or go from an active state to `Draining`; agents
/// that join are pending and of one of the listed kinds, of which there were
/// fewer than asked for.
pub open spec fn evolves(
    before: Seq<Member>,
    after: Seq<Member>,
    wanted: Seq<Wanted>,
    kinds: Seq<Seq<char>>,
) -> bool {
    &&& before.len() <= after.len()
    &&& forall|i: int|
        0 <= i < before.len() ==> {
            ||| #[trigger] after[i] == before[i]
            ||| model::active(before[i].state) && after[i] == (Member {
                state: AgentState::Draining,
                ..before[i]
            })
        }
    &&& forall|i: int|
        before.len() <= i < after.len() ==> {
            &&& kinds.contains((#[trigger] after[i]).kind)
            &&& after[i].layer == model::layer_of(wanted, after[i].kind)
            &&& after[i].state == AgentState::Pending
            &&& model::live_count(before, after[i].kind) < model::desired_count(
                wanted,
                after[i].kind,
            )
        }
}

pub(crate) proof fn lemma_reconcile_kinds(
    guard: Guard,
    fleet: Seq<Member>,
    wanted: Seq<Wanted>,
    kinds: Seq<Seq<char>>,
)
    requires
        model::ascending(kinds),
    ensures
        evolves(fleet, guard.reconcile_kinds(fleet, wanted, kinds), wanted, kinds),
        forall|k: int|
            0 <= k < kinds.len() ==> settled(
                guard,
                guard.reconcile_kinds(fleet, wanted, kinds),
                wanted,
                #[trigger] kinds[k],
            ),
        forall|kind: Seq<char>|
            {
                let before = model::live_count(fleet, kind);
                let after = #[trigger] model::live_count(
                    guard.reconcile_kinds(fleet, wanted, kinds),
                    kind,
                );
                let desired = model::desired_count(wanted, kind);
                if kinds.contains(kind) {
                    after <= if before < desired {
                        desired as nat
                    } else {
                        before
                    }
                } else {
                    after == before
                }
            },
    decreases kinds.len(),
{
    if kinds.len() > 0 {
        let most = kinds.drop_last();
        let last = kinds.last();
        assert forall|i: int, j: int| 0 <= i < j < most.len() implies text::precedes(
            #[trigger] most[i],
            #[trigger] most[j],
        ) by {
            assert(text::precedes(kinds[i], kinds[j]));
        }
        lemma_reconcile_kinds(guard, fleet, wanted, most);
        let middle = guard.reconcile_kinds(fleet, wanted, most);
        let after = guard.reconcile_kinds(fleet, wanted, kinds);
        assert(after == guard.reconcile_kind(middle, wanted, last));
        lemma_reconcile_kind_settles(guard, middle, wanted, last);
        assert forall|k: int| 0 <= k < kinds.len() implies settled(
            guard,
            after,
            wanted,
            #[trigger] kinds[k],
        ) by {
            if k < most.len() {
                assert(most[k] == kinds[k]);
                assert(text::precedes(kinds[k], kinds[kinds.len() - 1]));
                text::lemma_precedes_irreflexive(last);
                lemma_reconcile_kind_frame(guard, middle, wanted, last, kinds[k]);
            }
        }
        assert forall|kind: Seq<char>|
            {
                let b = model::live_count(fleet, kind);
                let a = #[trigger] model::live_count(after, kind);
                let desired = model::desired_count(wanted, kind);
                if kinds.contains(kind) {
                    a <= if b < desired {
                        desired as nat
                    } else {
                        b
                    }
                } else {
                    a == b
                }
            } by {
            let m = model::live_count(middle, kind);
            assert(kinds[kinds.len() - 1] == last);
            if most.contains(kind) {
                let k = choose|k: int| 0 <= k < most.len() && most[k] == kind;
                assert(kinds[k] == kind);
                assert(text::precedes(kinds[k], kinds[kinds.len() - 1]));
                text::lemma_precedes_irreflexive(last);
            }
            if kinds.contains(kind) && kind != last {
                let k = choose|k: int| 0 <= k < kinds.len() && kinds[k] == kind;
                assert(most[k] == kind);
            }
            if kind != last {
                lemma_reconcile_kind_frame(guard, middle, wanted, last, kind);
            }
        }
        lemma_reconcile_kind_evolves(guard, middle, wanted, last);
        assert forall|i: int| 0 <= i < fleet.len() implies {
            ||| #[trigger] after[i] == fleet[i]
            ||| model::active(fleet[i].state) && after[i] == (Member {
                state: AgentState::Draining,
                ..fleet[i]
            })
        } by {
            assert(middle[i] == fleet[i] || (model::active(fleet[i].state) && middle[i] == (Member {
                state: AgentState::Draining,
                ..fleet[i]
            })));
        }
        assert forall|i: int| fleet.len() <= i < after.len() implies {
            &&& kinds.contains((#[trigger] after[i]).kind)
            &&& after[i].layer == model::layer_of(wanted, after[i].kind)
            &&& after[i].state == AgentState::Pending
            &&& model::live_count(fleet, after[i].kind) < model::desired_count(
                wanted,
                after[i].kind,
            )
        } by {
            assert(kinds[kinds.len() - 1] == last);
            if i < middle.len() {
                assert(middle[i].state == AgentState::Pending);
                assert(most.contains(middle[i].kind));
                let k = choose|k: int| 0 <= k < most.len() && most[k] == middle[i].kind;
                assert(kinds[k] == middle[i].kind);
                assert(after[i] == middle[i]);
            } else {
                assert(seq![last].contains(after[i].kind));
                assert(!most.contains(last)) by {
                    if most.contains(last) {
                        let k = choose|k: int| 0 <= k < most.len() && most[k] == last;
                        assert(text::precedes(kinds[k], kinds[kinds.len() - 1]));
                        text::lemma_precedes_irreflexive(last);
                    }
                }
                assert(model::live_count(middle, last) == model::live_count(fleet, last));
            }
        }
    }
}

pub(crate) proof fn lemma_reconcile_kind_evolves(
    guard: Guard,
    fleet: Seq<Member>,
    wanted: Seq<Wanted>,
    kind: Seq<char>,
)
    ensures
        evolves(fleet, guard.reconcile_kind(fleet, wanted, kind), wanted, seq![kind]),
{
    let desired = model::desired_count(wanted, kind) as int;
    let order = model::drain_order(fleet, kind);
    let after = guard.reconcile_kind(fleet, wanted, kind);
    assert(seq![kind][0] == kind);
    groups::lemma_drain_order(fleet, kind);
    if order.len() >= desired {
        let ids = order.take(order.len() - desired);
        lemma_drain_all_effect(guard, fleet, ids);
        assert forall|i: int| 0 <= i < fleet.len() implies {
            ||| #[trigger] after[i] == fleet[i]
            ||| model::active(fleet[i].state) && after[i] == (Member {
                state: AgentState::Draining,
                ..fleet[i]
            })
        } by {
            assert(after[i] == guard.drain_all(fleet, ids)[i]);
        }
    }
}

proof fn lemma_reconcile_kinds_settled(
    guard: Guard,
    fleet: Seq<Member>,
    wanted: Seq<Wanted>,
    kinds: Seq<Seq<char>>,
)
    requires
        forall|k: int| 0 <= k < kinds.len() ==> settled(guard, fleet, wanted, #[trigger] kinds[k]),
    ensures
        guard.reconcile_kinds(fleet, wanted, kinds) == fleet,
    decreases kinds.len(),
{
    if kinds.len() > 0 {
        let most = kinds.drop_last();
        assert forall|k: int| 0 <= k < most.len() implies settled(
            guard,
            fleet,
            wanted,
            #[trigger] most[k],
        ) by {
            assert(most[k] == kinds[k]);
        }
        lemma_reconcile_kinds_settled(guard, fleet, wanted, most);
        assert(settled(guard, fleet, wanted, kinds[kinds.len() - 1]));
        lemma_settled_is_kept(guard, fleet, wanted, kinds.last());
    }
}

pub(crate) proof fn lemma_reconcile_keeps_kinds(guard: Guard, fleet: Seq<Member>, wanted: Seq<Wanted>)
    ensures
        model::known_kinds(guard.reconcile(fleet, wanted), wanted) == model::known_kinds(
            fleet,
            wanted,
        ),
{
    let kinds = model::known_kinds(fleet, wanted);
    let after = guard.reconcile(fleet, wanted);
    model::lemma_known_kinds_exist(fleet, wanted);
    lemma_reconcile_kinds(guard, fleet, wanted, kinds);
    assert forall|kind: Seq<char>| #[trigger] kinds.contains(kind) <==> model::knows(
        after,
        wanted,
        kind,
    ) by {
        assert(kinds.contains(kind) <==> model::knows(fleet, wanted, kind));
        if exists|i: int| 0 <= i < fleet.len() && (#[trigger] fleet[i]).kind == kind {
            let i = choose|i: int| 0 <= i < fleet.len() && (#[trigger] fleet[i]).kind == kind;
            assert(after[i].kind == kind);
        }
        if exists|i: int| 0 <= i < after.len() && (#[trigger] after[i]).kind == kind {
            let i = choose|i: int| 0 <= i < after.len() && (#[trigger] after[i]).kind == kind;
            if i < fleet.len() {
                assert(after[i].kind == fleet[i].kind);
            } else {
                assert(kinds.contains(after[i].kind));
            }
        }
    }
    model::lemma_known_kinds(kinds, after, wanted);
}

/// Reconciliation is idempotent: running it again with the same desired state
/// changes nothing.
pub proof fn lemma_reconcile_idempotent(
    conductor: ConductorModel,
    wanted: Seq<Wanted>,
    conservation: ConservationConfig,
)
    ensures
        conductor.reconcile(wanted, conservation).reconcile(wanted, conservation)
            == conductor.reconcile(wanted, conservation),
{
    let guard = Guard { conservation, ..conductor.guard };
    let kinds = model::known_kinds(conductor.fleet, wanted);
    let after = guard.reconcile(conductor.fleet, wanted);
    model::lemma_known_kinds_exist(conductor.fleet, wanted);
    lemma_reconcile_kinds(guard, conductor.fleet, wanted, kinds);
    lemma_reconcile_keeps_kinds(guard, conductor.fleet, wanted);
    lemma_reconcile_kinds_settled(guard, after, wanted, kinds);
    assert(Guard { conservation, ..guard } == guard);
}

/// Reconciliation adds pending agents and drains active ones; it does nothing
/// else. No agent leaves, changes id, kind or layer, or takes an edge that the
/// lifecycle does not have.
pub proof fn lemma_reconcile_evolves(guard: Guard, fleet: Seq<Member>, wanted: Seq<Wanted>)
    ensures
        evolves(
            fleet,
            guard.reconcile(fleet, wanted),
            wanted,
            model::known_kinds(fleet, wanted),
        ),
        forall|i: int|
            0 <= i < fleet.len() ==> {
                ||| (#[trigger] guard.reconcile(fleet, wanted)[i]).state == fleet[i].state
                ||| fleet[i].state.edge(guard.reconcile(fleet, wanted)[i].state)
            },
{
    model::lemma_known_kinds_exist(fleet, wanted);
    lemma_reconcile_kinds(guard, fleet, wanted, model::known_kinds(fleet, wanted));
}

/// Reconciliation covers every deficit exactly and never drains below what is
/// asked for: afterwards each kind has at least the desired number of live
/// agents, and no more than that or than it had before.
pub proof fn lemma_reconcile_reaches_desired(
    guard: Guard,
    fleet: Seq<Member>,
    wanted: Seq<Wanted>,
    kind: Seq<char>,
)
    ensures
        ({
            let before = model::live_count(fleet, kind);
            let after = model::live_count(guard.reconcile(fleet, wanted), kind);
            let desired = model::desired_count(wanted, kind);
            &&& desired <= after
            &&& before <= desired ==> after == desired
            &&& before > desired ==> after <= before
        }),
{
    let kinds = model::known_kinds(fleet, wanted);
    let after = guard.reconcile(fleet, wanted);
    model::lemma_known_kinds_exist(fleet, wanted);
    lemma_reconcile_kinds(guard, fleet, wanted, kinds);
    assert(model::live_count(guard.reconcile_kinds(fleet, wanted, kinds), kind)
        == model::live_count(after, kind));
    if kinds.contains(kind) {
        let k = choose|k: int| 0 <= k < kinds.len() && kinds[k] == kind;
        assert(settled(guard, after, wanted, kinds[k]));
        groups::lemma_drain_order(after, kind);
    } else {
        assert(!model::knows(fleet, wanted, kind));
        lemma_unwanted(wanted, kind);
    }
}

/// A kind without an entry is not wanted.
pub proof fn lemma_unwanted(wanted: Seq<Wanted>, kind: Seq<char>)
    requires
        !model::wants(wanted, kind),
    ensures
        model::desired_count(wanted, kind) == 0,
    decreases wanted.len(),
{
    if wanted.len() > 0 {
        assert(wanted[wanted.len() - 1].kind != kind);
        let rest = wanted.drop_last();
        assert(!model::wants(rest, kind)) by {
            if model::wants(rest, kind) {
                let i = choose|i: int| 0 <= i < rest.len() && (#[trigger] rest[i]).kind == kind;
                assert(wanted[i].kind == kind);
            }
        }
        lemma_unwanted(rest, kind);
    }
}

/// Reconciliation drains all the way down to the desired number, unless the
/// guard stops it: if all live agents of a kind are active and the guard would
/// still permit a drain afterwards, no excess is left.
pub proof fn lemma_reconcile_converges(
    guard: Guard,
    fleet: Seq<Member>,
    wanted: Seq<Wanted>,
    kind: Seq<char>,
)
    requires
        forall|i: int|
            0 <= i < fleet.len() && (#[trigger] fleet[i]).kind == kind && model::live(
                fleet[i].state,
            ) ==> model::active(fleet[i].state),
        guard.permits(model::active_count(guard.reconcile(fleet, wanted))),
    ensures
        model::live_count(guard.reconcile(fleet, wanted), kind) == model::desired_count(
            wanted,
            kind,
        ),
{
    let kinds = model::known_kinds(fleet, wanted);
    let after = guard.reconcile(fleet, wanted);
    let desired = model::desired_count(wanted, kind) as int;
    let order = model::drain_order(after, kind);
    model::lemma_known_kinds_exist(fleet, wanted);
    lemma_reconcile_kinds(guard, fleet, wanted, kinds);
    lemma_reconcile_reaches_desired(guard, fleet, wanted, kind);
    groups::lemma_drain_order(after, kind);
    if order.len() > desired {
        if kinds.contains(kind) {
            let k = choose|k: int| 0 <= k < kinds.len() && kinds[k] == kind;
            assert(settled(guard, after, wanted, kinds[k]));
            // the one next in line is not active, so it is pending or starting
            let i = order[0];
            assert(!model::active(after[order[0]].state));
            // and it would have joined, though none was missing
            if i < fleet.len() {
                assert(after[i].kind == fleet[i].kind);
            } else {
                assert(model::live_count(fleet, after[i].kind) < desired);
            }
            assert(false);
        } else {
            assert(model::live_count(after, kind) == model::live_count(fleet, kind));
            assert(after[order[0]].kind == kind);
            lemma_reconcile_keeps_kinds(guard, fleet, wanted);
            model::lemma_known_kinds_exist(after, wanted);
            assert(model::knows(after, wanted, kind));
        }
    }
}

proof fn lemma_reconcile_kinds_forbidden(
    guard: Guard,
    fleet: Seq<Member>,
    wanted: Seq<Wanted>,
    kinds: Seq<Seq<char>>,
)
    requires
        !guard.permits(model::active_count(fleet)),
    ensures
        ({
            let after = guard.reconcile_kinds(fleet, wanted, kinds);
            &&& fleet.len() <= after.len()
            &&& after.take(fleet.len() as int) == fleet
            &&& model::active_count(after) == model::active_count(fleet)
        }),
    decreases kinds.len(),
{
    if kinds.len() == 0 {
        assert(fleet.take(fleet.len() as int) =~= fleet);
    } else {
        let middle = guard.reconcile_kinds(fleet, wanted, kinds.drop_last());
        let after = guard.reconcile_kinds(fleet, wanted, kinds);
        let kind = kinds.last();
        lemma_reconcile_kinds_forbidden(guard, fleet, wanted, kinds.drop_last());
        let desired = model::desired_count(wanted, kind) as int;
        let order = model::drain_order(middle, kind);
        if order.len() < desired {
            let layer = model::layer_of(wanted, kind);
            let n = (desired - order.len()) as nat;
            lemma_spawn_keeps_active_count(middle, kind, layer, n);
            assert(after.take(fleet.len() as int) =~= middle.take(fleet.len() as int));
        } else {
            lemma_drain_all_forbidden(guard, middle, order.take(order.len() - desired));
        }
    }
}

/// Reconciliation never forces a drain that the guard forbids: where the guard
/// permits no drain of the current fleet, every agent stays as it is.
pub proof fn lemma_reconcile_respects_guard(
    guard: Guard,
    fleet: Seq<Member>,
    wanted: Seq<Wanted>,
)
    requires
        !guard.permits(model::active_count(fleet)),
    ensures
        fleet.len() <= guard.reconcile(fleet, wanted).len(),
        guard.reconcile(fleet, wanted).take(fleet.len() as int) == fleet,
{
    lemma_reconcile_kinds_forbidden(guard, fleet, wanted, model::known_kinds(fleet, wanted));
}

proof fn lemma_drain_all_permitted(guard: Guard, fleet: Seq<Member>, ids: Seq<int>)
    ensures
        steps_permitted(
            guard,
            model::active_count(fleet),
            model::active_count(guard.drain_all(fleet, ids)),
        ),
    decreases ids.len(),
{
    if ids.len() > 0 {
        let most = ids.drop_last();
        let middle = guard.drain_all(fleet, most);
        let i = ids.last();
        lemma_drain_all_permitted(guard, fleet, most);
        if 0 <= i < middle.len() && model::active(middle[i].state) {
            lemma_count_with_state(middle, i, AgentState::Draining, model::is_active());
        }
    }
}

proof fn lemma_reconcile_kinds_permitted(
    guard: Guard,
    fleet: Seq<Member>,
    wanted: Seq<Wanted>,
    kinds: Seq<Seq<char>>,
)
    ensures
        steps_permitted(
            guard,
            model::active_count(fleet),
            model::active_count(guard.reconcile_kinds(fleet, wanted, kinds)),
        ),
    decreases kinds.len(),
{
    if kinds.len() > 0 {
        let middle = guard.reconcile_kinds(fleet, wanted, kinds.drop_last());
        let kind = kinds.last();
        let desired = model::desired_count(wanted, kind) as int;
        let order = model::drain_order(middle, kind);
        lemma_reconcile_kinds_permitted(guard, fleet, wanted, kinds.drop_last());
        if order.len() < desired {
            lemma_spawn_keeps_active_count(
                middle,
                kind,
                model::layer_of(wanted, kind),
                (desired - order.len()) as nat,
            );
        } else {
            lemma_drain_all_permitted(guard, middle, order.take(order.len() - desired));
        }
    }
}

/// Whether the guard permits every step by which a number of active agents goes
/// down to another.
pub open spec fn steps_permitted(guard: Guard, before: nat, after: nat) -> bool {
    after <= before && forall|n: nat| after < n <= before ==> #[trigger] guard.permits(n)
}

/// Every drain that reconciliation executes is one that the guard permits: as
/// the number of active agents goes down, each step is checked, and none goes
/// past a number at which the guard says no.
pub proof fn lemma_reconcile_drains_are_permitted(
    guard: Guard,
    fleet: Seq<Member>,
    wanted: Seq<Wanted>,
)
    ensures
        steps_permitted(
            guard,
            model::active_count(fleet),
            model::active_count(guard.reconcile(fleet, wanted)),
        ),
{
    lemma_reconcile_kinds_permitted(guard, fleet, wanted, model::known_kinds(fleet, wanted));
}

/// Spawning does not change the number of active agents, nor therefore eta.
pub proof fn lemma_spawn_keeps_active_count(
    fleet: Seq<Member>,
    kind: Seq<char>,
    layer: u32,
    n: nat,
)
    ensures
        model::active_count(model::spawn(fleet, kind, layer, n)) == model::active_count(fleet),
{
    let tail = Seq::new(n, |i: int| Member { kind, layer, state: AgentState::Pending });
    groups::lemma_group_extend(fleet, tail, model::is_active());
}

/// A drain changes the fleet exactly when it is answered with `Drained`. Then
/// one active agent less is left, the gamma and eta that the answer rests on lie
/// in the stable region, and C is at or above its floor, where both are numbers.
/// Every other answer leaves the fleet.
pub proof fn lemma_drain_is_guarded(guard: Guard, fleet: Seq<Member>, id: AgentId)
    ensures
        guard.outcome(fleet, id) is Drained <==> guard.drain(fleet, id.0 as int) != fleet,
        guard.outcome(fleet, id) matches DrainOutcome::Drained { id: drained, new_eta, new_c } ==> {
            let after = guard.drain(fleet, id.0 as int);
            &&& drained == id
            &&& after == model::with_state(fleet, id.0 as int, AgentState::Draining)
            &&& fleet[id.0 as int].state.edge(AgentState::Draining)
            &&& model::active_count(after) == model::active_count(fleet) - 1
            &&& guard.conservation.sound()
            &&& guard.conservation.contains(guard.gamma.plus(Binary64::of_nat(0)), new_eta)
            &&& !guard.conservation.gamma_min.plus(guard.conservation.eta_floor).nan_spec()
                && !new_c.nan_spec() ==> guard.conservation.gamma_min.plus(
                guard.conservation.eta_floor,
            ).le(new_c)
        },
{
    let n = model::active_count(fleet);
    let i = id.0 as int;
    conservation::lemma_verdict(
        guard.conservation,
        guard.gamma,
        guard.eta(n),
        Binary64::of_nat(0),
        guard.eta_per_agent.minus(),
    );
    if i < fleet.len() && model::active(fleet[i].state) && guard.permits(n) {
        let after = guard.drain(fleet, i);
        assert(after[i].state != fleet[i].state);
        lemma_count_with_state(fleet, i, AgentState::Draining, model::is_active());
        let new_eta = guard.eta(n).plus(guard.eta_per_agent.minus());
        let new_c = guard.gamma.plus(Binary64::of_nat(0)).plus(new_eta);
        if !guard.conservation.gamma_min.plus(guard.conservation.eta_floor).nan_spec()
            && !new_c.nan_spec() {
            conservation::lemma_safe_keeps_c_floor(
                guard.conservation,
                guard.gamma,
                guard.eta(n),
                Binary64::of_nat(0),
                guard.eta_per_agent.minus(),
            );
        }
    }
}

/// A lifecycle tick moves agents along legal edges only.
pub proof fn lemma_advance_is_legal(state: AgentState)
    ensures
        model::advance(state) == state || state.edge(model::advance(state)),
{
}

/// A tick that moves no agent changes nothing.
pub proof fn lemma_advance_none(fleet: Seq<Member>)
    requires
        model::advancing_count(fleet) == 0,
    ensures
        model::advance_all(fleet) == fleet,
    decreases fleet.len(),
{
    if fleet.len() > 0 {
        let rest = fleet.drop_last();
        lemma_advance_none(rest);
        assert(model::is_advancing()(fleet.last()) == (model::advance(fleet.last().state)
            != fleet.last().state));
        assert(model::advance_all(fleet) =~= model::advance_all(rest).push(
            Member { state: model::advance(fleet.last().state), ..fleet.last() },
        ));
        assert(rest.push(fleet.last()) =~= fleet);
    } else {
        assert(model::advance_all(fleet) =~= fleet);
    }
}

/// Two ticks bring every agent to its steady state: a third moves none.
pub proof fn lemma_advance_reaches_steady_state(fleet: Seq<Member>)
    ensures
        model::advancing_count(model::advance_all(model::advance_all(fleet))) == 0,
    decreases fleet.len(),
{
    if fleet.len() > 0 {
        let rest = fleet.drop_last();
        lemma_advance_reaches_steady_state(rest);
        let twice = model::advance_all(model::advance_all(fleet));
        assert(twice.drop_last() =~= model::advance_all(model::advance_all(rest)));
        assert(!model::is_advancing()(twice.last()));
    }
}

/// A tick does not change how many agents of a kind are live.
pub proof fn lemma_advance_keeps_live_count(fleet: Seq<Member>, kind: Seq<char>)
    ensures
        model::live_count(model::advance_all(fleet), kind) == model::live_count(fleet, kind),
{
    groups::lemma_group_congruent(fleet, model::advance_all(fleet), model::live_of(kind));
}

/// A tick takes no agent out of service, so that eta counts no fewer agents.
pub proof fn lemma_advance_keeps_active(fleet: Seq<Member>)
    ensures
        model::active_count(fleet) <= model::active_count(model::advance_all(fleet)),
    decreases fleet.len(),
{
    if fleet.len() > 0 {
        let rest = fleet.drop_last();
        lemma_advance_keeps_active(rest);
        assert(model::advance_all(fleet).drop_last() =~= model::advance_all(rest));
    }
}

/// After two ticks reconciliation meets the desired number of every kind
/// exactly, unless the guard stops it.
pub proof fn lemma_reconcile_converges_after_two_ticks(
    guard: Guard,
    fleet: Seq<Member>,
    wanted: Seq<Wanted>,
    kind: Seq<char>,
)
    requires
        guard.permits(
            model::active_count(
                guard.reconcile(model::advance_all(model::advance_all(fleet)), wanted),
            ),
        ),
    ensures
        model::live_count(
            guard.reconcile(model::advance_all(model::advance_all(fleet)), wanted),
            kind,
        ) == model::desired_count(wanted, kind),
{
    lemma_reconcile_converges(
        guard,
        model::advance_all(model::advance_all(fleet)),
        wanted,
        kind,
    );
}

/// The counts by state add up: the agents of a kind are those in its six
/// states, and its live agents those in the four live ones.
pub proof fn lemma_states_add_up(fleet: Seq<Member>, kind: Seq<char>)
    ensures
        model::live_count(fleet, kind) == model::count(
            fleet,
            model::in_state(kind, AgentState::Pending),
        ) + model::count(fleet, model::in_state(kind, AgentState::Starting)) + model::count(
            fleet,
            model::in_state(kind, AgentState::Healthy),
        ) + model::count(fleet, model::in_state(kind, AgentState::Degraded)),
        model::count(fleet, model::of_kind(kind)) == model::live_count(fleet, kind) + model::count(
            fleet,
            model::in_state(kind, AgentState::Draining),
        ) + model::count(fleet, model::in_state(kind, AgentState::Terminated)),
    decreases fleet.len(),
{
    if fleet.len() > 0 {
        lemma_states_add_up(fleet.drop_last(), kind);
    }
}

} // verus!
