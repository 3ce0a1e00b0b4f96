//! Groups of agents: how lists and counts of a group follow changes of the
//! fleet.

use vstd::prelude::*;

use crate::model;
use crate::model::Member;
use crate::state::AgentState;

verus! {

/// `newest_first` lists ids that exist and satisfy the predicate.
pub(crate) proof fn lemma_newest_first_members(fleet: Seq<Member>, p: spec_fn(Member) -> bool)
    ensures
        forall|j: int|
            0 <= j < model::newest_first(fleet, p).len() ==> {
                let i = #[trigger] model::newest_first(fleet, p)[j];
                0 <= i < fleet.len() && p(fleet[i])
            },
        model::newest_first(fleet, p).len() == model::count(fleet, p),
    decreases fleet.len(),
{
    if fleet.len() > 0 {
        let rest = fleet.drop_last();
        lemma_newest_first_members(rest, p);
        let ids = model::newest_first(fleet, p);
        assert forall|j: int| 0 <= j < ids.len() implies {
            let i = #[trigger] ids[j];
            0 <= i < fleet.len() && p(fleet[i])
        } by {
            if p(fleet.last()) {
                if j > 0 {
                    assert(ids[j] == model::newest_first(rest, p)[j - 1]);
                    assert(rest[ids[j]] == fleet[ids[j]]);
                }
            } else {
                assert(rest[ids[j]] == fleet[ids[j]]);
            }
        }
    }
}

/// `newest_first` lists ids in descending order.
pub(crate) proof fn lemma_newest_first_descends(
    fleet: Seq<Member>,
    p: spec_fn(Member) -> bool,
)
    ensures
        forall|a: int, b: int|
            0 <= a < b < model::newest_first(fleet, p).len() ==> #[trigger] model::newest_first(
                fleet,
                p,
            )[a] > #[trigger] model::newest_first(fleet, p)[b],
    decreases fleet.len(),
{
    if fleet.len() > 0 {
        let rest = model::newest_first(fleet.drop_last(), p);
        let ids = model::newest_first(fleet, p);
        lemma_newest_first_descends(fleet.drop_last(), p);
        lemma_newest_first_members(fleet.drop_last(), p);
        assert forall|a: int, b: int| 0 <= a < b < ids.len() implies #[trigger] ids[a]
            > #[trigger] ids[b] by {
            if p(fleet.last()) {
                assert(ids[b] == rest[b - 1]);
                if a > 0 {
                    assert(ids[a] == rest[a - 1]);
                }
            }
        }
    }
}

/// `newest_first` leaves out no agent of the group.
pub(crate) proof fn lemma_newest_first_complete(
    fleet: Seq<Member>,
    p: spec_fn(Member) -> bool,
)
    ensures
        forall|i: int|
            0 <= i < fleet.len() && p(fleet[i]) ==> #[trigger] model::newest_first(
                fleet,
                p,
            ).contains(i),
    decreases fleet.len(),
{
    if fleet.len() > 0 {
        let rest = fleet.drop_last();
        let ids = model::newest_first(fleet, p);
        let rest_ids = model::newest_first(rest, p);
        lemma_newest_first_complete(rest, p);
        assert forall|i: int| 0 <= i < fleet.len() && p(fleet[i]) implies #[trigger] ids.contains(
            i,
        ) by {
            if i < rest.len() {
                assert(rest_ids.contains(i));
                let k = choose|k: int| 0 <= k < rest_ids.len() && rest_ids[k] == i;
                if p(fleet.last()) {
                    assert(ids[k + 1] == i);
                } else {
                    assert(ids[k] == i);
                }
            } else {
                assert(ids[0] == i);
            }
        }
    }
}

/// After a change that only takes agents out of a group, the list of the group
/// is what is left of the old list.
pub(crate) proof fn lemma_newest_first_filter(
    before: Seq<Member>,
    after: Seq<Member>,
    p: spec_fn(Member) -> bool,
)
    requires
        before.len() == after.len(),
        forall|i: int| 0 <= i < after.len() && p(#[trigger] after[i]) ==> p(before[i]),
    ensures
        model::newest_first(after, p) == model::newest_first(before, p).filter(
            |i: int| p(after[i]),
        ),
    decreases before.len(),
{
    let keep = |i: int| p(after[i]);
    reveal(Seq::filter);
    if before.len() > 0 {
        let b = before.drop_last();
        let a = after.drop_last();
        let n = before.len() - 1;
        assert forall|i: int| 0 <= i < a.len() && p(#[trigger] a[i]) implies p(b[i]) by {
            assert(p(after[i]));
        }
        lemma_newest_first_filter(b, a, p);
        let rest = model::newest_first(b, p);
        let keep_rest = |i: int| p(a[i]);
        lemma_newest_first_members(b, p);
        assert forall|j: int| 0 <= j < rest.len() implies keep(#[trigger] rest[j]) == keep_rest(
            rest[j],
        ) by {
            assert(a[rest[j]] == after[rest[j]]);
        }
        lemma_filter_congruent(rest, keep, keep_rest);
        if p(before.last()) {
            let head = seq![n];
            lemma_filter_add(head, rest, keep);
            assert(head.drop_last() =~= Seq::<int>::empty());
            assert(Seq::<int>::empty().filter(keep) =~= Seq::<int>::empty());
            assert(head.filter(keep) =~= if keep(n) {
                head
            } else {
                Seq::<int>::empty()
            });
            assert(keep(n) == p(after.last()));
            assert(Seq::<int>::empty() + rest.filter(keep) =~= rest.filter(keep));
        }
    }
}

pub(crate) proof fn lemma_filter_congruent(s: Seq<int>, p: spec_fn(int) -> bool, q: spec_fn(int) -> bool)
    requires
        forall|j: int| 0 <= j < s.len() ==> p(#[trigger] s[j]) == q(s[j]),
    ensures
        s.filter(p) == s.filter(q),
    decreases s.len(),
{
    reveal(Seq::filter);
    if s.len() > 0 {
        assert(p(s[s.len() - 1]) == q(s[s.len() - 1]));
        assert forall|j: int| 0 <= j < s.drop_last().len() implies p(#[trigger] s.drop_last()[j])
            == q(s.drop_last()[j]) by {
            assert(s.drop_last()[j] == s[j]);
        }
        lemma_filter_congruent(s.drop_last(), p, q);
    }
}

pub(crate) proof fn lemma_filter_add(a: Seq<int>, b: Seq<int>, p: spec_fn(int) -> bool)
    ensures
        (a + b).filter(p) == a.filter(p) + b.filter(p),
    decreases b.len(),
{
    reveal(Seq::filter);
    if b.len() == 0 {
        assert(a + b =~= a);
        assert(a.filter(p) + b.filter(p) =~= a.filter(p));
    } else {
        assert((a + b).drop_last() =~= a + b.drop_last());
        lemma_filter_add(a, b.drop_last(), p);
        assert((a + b).last() == b.last());
        if p(b.last()) {
            assert(a.filter(p) + b.drop_last().filter(p).push(b.last()) =~= (a.filter(p)
                + b.drop_last().filter(p)).push(b.last()));
        }
    }
}

pub(crate) proof fn lemma_filter_all(s: Seq<int>, p: spec_fn(int) -> bool)
    requires
        forall|j: int| 0 <= j < s.len() ==> p(#[trigger] s[j]),
    ensures
        s.filter(p) == s,
    decreases s.len(),
{
    reveal(Seq::filter);
    if s.len() > 0 {
        assert(p(s[s.len() - 1]));
        assert forall|j: int| 0 <= j < s.drop_last().len() implies p(
            #[trigger] s.drop_last()[j],
        ) by {
            assert(s.drop_last()[j] == s[j]);
        }
        lemma_filter_all(s.drop_last(), p);
        assert(s.drop_last().push(s.last()) =~= s);
    } else {
        assert(s =~= Seq::<int>::empty());
    }
}

pub(crate) proof fn lemma_filter_members(s: Seq<int>, p: spec_fn(int) -> bool)
    ensures
        forall|j: int|
            0 <= j < s.filter(p).len() ==> p(#[trigger] s.filter(p)[j]) && s.contains(
                s.filter(p)[j],
            ),
        s.filter(p).len() <= s.len(),
    decreases s.len(),
{
    reveal(Seq::filter);
    if s.len() > 0 {
        let rest = s.drop_last();
        lemma_filter_members(rest, p);
        assert forall|j: int| 0 <= j < s.filter(p).len() implies p(#[trigger] s.filter(p)[j])
            && s.contains(s.filter(p)[j]) by {
            if j < rest.filter(p).len() {
                assert(s.filter(p)[j] == rest.filter(p)[j]);
                let k = choose|k: int| 0 <= k < rest.len() && rest[k] == rest.filter(p)[j];
                assert(s[k] == s.filter(p)[j]);
            } else {
                assert(s[s.len() - 1] == s.filter(p)[j]);
            }
        }
    }
}

/// A group is listed and counted the same in two fleets that agree on it.
pub(crate) proof fn lemma_group_congruent(
    before: Seq<Member>,
    after: Seq<Member>,
    p: spec_fn(Member) -> bool,
)
    requires
        before.len() == after.len(),
        forall|i: int| 0 <= i < after.len() ==> p(#[trigger] after[i]) == p(before[i]),
    ensures
        model::newest_first(after, p) == model::newest_first(before, p),
        model::count(after, p) == model::count(before, p),
    decreases before.len(),
{
    if before.len() > 0 {
        let b = before.drop_last();
        let a = after.drop_last();
        assert forall|i: int| 0 <= i < a.len() implies p(#[trigger] a[i]) == p(b[i]) by {
            assert(p(after[i]) == p(before[i]));
        }
        lemma_group_congruent(b, a, p);
        assert(p(after[after.len() - 1]) == p(before[before.len() - 1]));
    }
}

/// Agents outside a group do not change its list or its count when they join.
pub(crate) proof fn lemma_group_extend(fleet: Seq<Member>, tail: Seq<Member>, p: spec_fn(Member) -> bool)
    requires
        forall|i: int| 0 <= i < tail.len() ==> !p(#[trigger] tail[i]),
    ensures
        model::newest_first(fleet + tail, p) == model::newest_first(fleet, p),
        model::count(fleet + tail, p) == model::count(fleet, p),
    decreases tail.len(),
{
    if tail.len() == 0 {
        assert(fleet + tail =~= fleet);
    } else {
        let all = fleet + tail;
        assert(all.drop_last() =~= fleet + tail.drop_last());
        assert(!p(tail[tail.len() - 1]));
        assert forall|i: int| 0 <= i < tail.drop_last().len() implies !p(
            #[trigger] tail.drop_last()[i],
        ) by {
            assert(!p(tail[i]));
        }
        lemma_group_extend(fleet, tail.drop_last(), p);
    }
}

/// Agents of a group add to its count when they join.
pub(crate) proof fn lemma_count_join(fleet: Seq<Member>, tail: Seq<Member>, p: spec_fn(Member) -> bool)
    requires
        forall|i: int| 0 <= i < tail.len() ==> p(#[trigger] tail[i]),
    ensures
        model::count(fleet + tail, p) == model::count(fleet, p) + tail.len(),
    decreases tail.len(),
{
    if tail.len() == 0 {
        assert(fleet + tail =~= fleet);
    } else {
        let all = fleet + tail;
        assert(all.drop_last() =~= fleet + tail.drop_last());
        assert(p(tail[tail.len() - 1]));
        assert forall|i: int| 0 <= i < tail.drop_last().len() implies p(
            #[trigger] tail.drop_last()[i],
        ) by {
            assert(p(tail[i]));
        }
        lemma_count_join(fleet, tail.drop_last(), p);
    }
}

/// A count splits over two groups that exclude each other.
pub(crate) proof fn lemma_count_split(
    fleet: Seq<Member>,
    p: spec_fn(Member) -> bool,
    q: spec_fn(Member) -> bool,
    r: spec_fn(Member) -> bool,
)
    requires
        forall|m: Member| #[trigger] p(m) <==> (q(m) || r(m)),
        forall|m: Member| !(#[trigger] q(m) && r(m)),
    ensures
        model::count(fleet, p) == model::count(fleet, q) + model::count(fleet, r),
    decreases fleet.len(),
{
    if fleet.len() > 0 {
        let m = fleet.last();
        assert(p(m) <==> (q(m) || r(m)));
        assert(!(q(m) && r(m)));
        lemma_count_split(fleet.drop_last(), p, q, r);
    }
}

/// The drain order lists the live agents of the kind and no others.
pub(crate) proof fn lemma_drain_order(fleet: Seq<Member>, kind: Seq<char>)
    ensures
        model::drain_order(fleet, kind).len() == model::live_count(fleet, kind),
        forall|j: int|
            0 <= j < model::drain_order(fleet, kind).len() ==> {
                let i = #[trigger] model::drain_order(fleet, kind)[j];
                0 <= i < fleet.len() && fleet[i].kind == kind && model::live(fleet[i].state)
            },
{
    let degraded = model::in_state(kind, AgentState::Degraded);
    let others = model::undegraded_of(kind);
    lemma_newest_first_members(fleet, degraded);
    lemma_newest_first_members(fleet, others);
    lemma_count_split(fleet, model::live_of(kind), degraded, others);
    let first = model::newest_first(fleet, degraded);
    let second = model::newest_first(fleet, others);
    let order = model::drain_order(fleet, kind);
    assert forall|j: int| 0 <= j < order.len() implies {
        let i = #[trigger] order[j];
        0 <= i < fleet.len() && fleet[i].kind == kind && model::live(fleet[i].state)
    } by {
        if j < first.len() {
            assert(order[j] == first[j]);
        } else {
            assert(order[j] == second[j - first.len()]);
        }
    }
}

} // verus!
