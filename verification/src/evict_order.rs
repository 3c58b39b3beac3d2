//! Which leaves an eviction takes: those that the policy evicts first, and no
//! more than it needs.

use crate::hi_model;
use crate::hi_model::HiState;
use crate::policy;
use crate::topo::NodeId;
use crate::tree_model;
use crate::tree_model::RadixState;
use vstd::prelude::*;

verus! {

/// The runs but the last fall short of `budget`: nothing is taken once it is
/// met.
pub open spec fn none_too_many(runs: Seq<Seq<i64>>, budget: int) -> bool {
    runs.len() > 0 ==> tree_model::run_total(runs.drop_last()) < budget
}

proof fn lemma_one_more(run: Seq<i64>, runs: Seq<Seq<i64>>, budget: int)
    requires
        budget > 0,
        none_too_many(runs, budget - run.len()),
    ensures
        none_too_many(seq![run] + runs, budget),
{
    let all = seq![run] + runs;
    if runs.len() > 0 {
        assert(all.drop_last() =~= seq![run] + runs.drop_last());
        assert((seq![run] + runs.drop_last()).drop_first() =~= runs.drop_last());
        assert((seq![run] + runs.drop_last())[0] == run);
    } else {
        assert(all.drop_last() =~= Seq::<Seq<i64>>::empty());
    }
}

/// Whether `x` is a leaf with slots that nothing locks.
pub open spec fn may_leave(st: RadixState, x: NodeId) -> bool {
    &&& 0 < x < st.nodes.len()
    &&& st.nodes[x as int].value is Some
    &&& st.nodes[x as int].lock_ref == 0
    &&& forall|c: NodeId| !#[trigger] st.shape.is_child(x, c)
}

/// Whether the tree's policy evicts `x` before `y`.
pub open spec fn goes_first(st: RadixState, x: NodeId, y: NodeId) -> bool {
    let a = st.nodes[x as int];
    let b = st.nodes[y as int];
    policy::evicts_first(
        st.policy,
        x,
        a.last_access,
        a.hit_count,
        a.priority,
        y,
        b.last_access,
        b.hit_count,
        b.priority,
    )
}

/// Times and hits that a priority can tell apart.
pub open spec fn tellable(st: RadixState) -> bool {
    forall|i: int|
        0 <= i < st.nodes.len() ==> (#[trigger] st.nodes[i]).last_access <= i64::MAX && st.nodes[i].hit_count
            <= i64::MAX
}

proof fn lemma_first(st: RadixState, x: NodeId, y: NodeId)
    requires
        tellable(st),
        st.leaves_first(x),
        may_leave(st, y),
        y != x,
    ensures
        may_leave(st, x),
        goes_first(st, x, y),
{
    let a = st.nodes[x as int];
    let b = st.nodes[y as int];
    assert(st.leaf(y));
    policy::law_priority_order(
        st.policy,
        x,
        a.last_access,
        a.hit_count,
        a.priority,
        y,
        b.last_access,
        b.hit_count,
        b.priority,
    );
}

/// An eviction takes leaves in the order of the policy: one that goes goes
/// before any that might have gone and stays. It takes only what nothing
/// locks, gives back the slots of what it takes, and stops when the budget is
/// met; what stays is as it was.
pub proof fn law_evict_order(st: RadixState, budget: int)
    requires
        st.nodes.len() == st.shape.nodes.len() <= NodeId::MAX,
        tellable(st),
    ensures
        ({
            let (t, gone) = st.after_evict(budget);
            &&& t.nodes.len() == st.nodes.len()
            &&& none_too_many(gone, budget)
            &&& forall|z: NodeId|
                #![trigger t.nodes[z as int]]
                z < st.nodes.len() ==> t.nodes[z as int] == st.nodes[z as int] || {
                    &&& st.nodes[z as int].value is Some
                    &&& st.nodes[z as int].lock_ref == 0
                    &&& t.nodes[z as int].value is None
                    &&& gone.contains(st.nodes[z as int].value->0)
                }
            &&& forall|x: NodeId, y: NodeId|
                #![trigger may_leave(st, x), may_leave(st, y)]
                may_leave(st, x) && may_leave(st, y) && t.nodes[x as int].value is None && t.nodes[y as int].value
                    is Some ==> goes_first(st, x, y)
        }),
    decreases st.live_count(),
{
    let (t, gone) = st.after_evict(budget);
    let x = st.victim();
    if !(budget <= 0 || !st.leaves_first(x)) {
        assert(st.leaf(x));
        tree_model::lemma_drop_counts(st, x);
        let a = st.dropped(x);
        let v = st.nodes[x as int].value->0;
        law_evict_order(a, budget - v.len());
        let rest = a.after_evict(budget - v.len()).1;
        lemma_one_more(v, rest, budget);
        assert(gone == seq![v] + rest);
        assert(gone[0] == v);
        assert forall|y: NodeId| #[trigger] may_leave(st, y) && y != x implies may_leave(a, y) && a.nodes[y as int]
            == st.nodes[y as int] by {
            assert forall|c: NodeId| !#[trigger] a.shape.is_child(y, c) by {
                if a.shape.is_child(y, c) {
                    assert(st.shape.is_child(y, c));
                }
            }
        }
        assert forall|z: NodeId| #![trigger t.nodes[z as int]] z < st.nodes.len() implies t.nodes[z as int]
            == st.nodes[z as int] || {
            &&& st.nodes[z as int].value is Some
            &&& st.nodes[z as int].lock_ref == 0
            &&& t.nodes[z as int].value is None
            &&& gone.contains(st.nodes[z as int].value->0)
        } by {
            assert(t.nodes[z as int] == a.nodes[z as int] || rest.contains(a.nodes[z as int].value->0));
            if z != x && t.nodes[z as int] != a.nodes[z as int] {
                let k = rest.index_of(st.nodes[z as int].value->0);
                assert(gone[k + 1] == st.nodes[z as int].value->0);
            }
        }
        assert forall|u: NodeId, y: NodeId|
            #![trigger may_leave(st, u), may_leave(st, y)]
            may_leave(st, u) && may_leave(st, y) && t.nodes[u as int].value is None && t.nodes[y as int].value
                is Some implies goes_first(st, u, y) by {
            if y == x {
                assert(a.nodes[x as int].value is None);
                assert(t.nodes[x as int] == a.nodes[x as int] || a.nodes[x as int].value is Some);
            } else if u == x {
                lemma_first(st, x, y);
            } else {
                assert(may_leave(a, u) && may_leave(a, y));
                assert(goes_first(a, u, y));
            }
        }
    }
}

/// Whether the device side of `x` may go: slots that nothing locks, with none
/// below.
pub open spec fn hi_may_leave(st: HiState, x: NodeId) -> bool {
    &&& 0 < x < st.nodes.len()
    &&& st.nodes[x as int].value is Some
    &&& st.nodes[x as int].lock == 0
    &&& forall|c: NodeId| #[trigger] st.shape.is_child(x, c) ==> st.nodes[c as int].value is None
}

/// Whether the host side of `x` may go: nothing on the device, no lock or
/// host reference, and nothing on the host below.
pub open spec fn hi_may_leave_host(st: HiState, x: NodeId) -> bool {
    &&& 0 < x < st.nodes.len()
    &&& x < st.shape.nodes.len()
    &&& st.shape.nodes[x as int].attached
    &&& st.nodes[x as int].value is None
    &&& st.nodes[x as int].lock == 0
    &&& st.nodes[x as int].host_ref == 0
    &&& forall|c: NodeId| #[trigger] st.shape.is_child(x, c) ==> st.nodes[c as int].host is None
}

/// Whether the tree's strategy evicts `x` before `y`.
pub open spec fn hi_goes_first(st: HiState, x: NodeId, y: NodeId) -> bool {
    let a = st.nodes[x as int];
    let b = st.nodes[y as int];
    policy::evicts_first(st.strategy, x, a.access, a.hits, a.priority, y, b.access, b.hits, b.priority)
}

/// Times and hits that a priority can tell apart.
pub open spec fn hi_tellable(st: HiState) -> bool {
    forall|i: int|
        0 <= i < st.nodes.len() ==> (#[trigger] st.nodes[i]).access <= i64::MAX && st.nodes[i].hits <= i64::MAX
}

proof fn lemma_hi_first(st: HiState, x: NodeId, ids: Set<NodeId>, y: NodeId)
    requires
        hi_tellable(st),
        st.first(x, ids),
        ids.contains(y),
        x < st.nodes.len(),
        y < st.nodes.len(),
        y != x,
    ensures
        hi_goes_first(st, x, y),
{
    let a = st.nodes[x as int];
    let b = st.nodes[y as int];
    policy::law_priority_order(st.strategy, x, a.access, a.hits, a.priority, y, b.access, b.hits, b.priority);
}

/// An eviction from the device of a two-tier tree takes leaves in the order
/// of the strategy: one that goes goes before any that might have gone and
/// stays. It takes only what nothing locks, gives back the slots of what it
/// takes, and stops when the budget is met; what stays is as it was, and so
/// is every host copy.
pub proof fn law_hi_evict_order(st: HiState, budget: int)
    requires
        st.nodes.len() == st.shape.nodes.len() <= NodeId::MAX,
        hi_tellable(st),
    ensures
        ({
            let (t, gone) = st.after_evict(budget);
            &&& t.nodes.len() == st.nodes.len()
            &&& none_too_many(gone, budget)
            &&& forall|z: NodeId|
                #![trigger t.nodes[z as int]]
                z < st.nodes.len() ==> t.nodes[z as int] == st.nodes[z as int] || {
                    &&& st.nodes[z as int].value is Some
                    &&& st.nodes[z as int].lock == 0
                    &&& t.nodes[z as int] == (hi_model::HiNodeState { value: None, ..st.nodes[z as int] })
                    &&& gone.contains(st.nodes[z as int].value->0)
                }
            &&& forall|x: NodeId, y: NodeId|
                #![trigger hi_may_leave(st, x), hi_may_leave(st, y)]
                hi_may_leave(st, x) && hi_may_leave(st, y) && t.nodes[x as int].value is None
                    && t.nodes[y as int].value is Some ==> hi_goes_first(st, x, y)
        }),
    decreases st.live_count(),
{
    let (t, gone) = st.after_evict(budget);
    if st.victim(st.leaves()) is Some && budget > 0 && st.leaf(st.victim(st.leaves())->0) {
        let x = st.victim(st.leaves())->0;
        assert(st.first(x, st.leaves()));
        hi_model::lemma_evict_counts(st, x);
        let a = st.evict_step(x);
        let v = st.nodes[x as int].value->0;
        law_hi_evict_order(a, budget - v.len());
        let rest = a.after_evict(budget - v.len()).1;
        lemma_one_more(v, rest, budget);
        assert(gone == seq![v] + rest);
        assert(gone[0] == v);
        assert forall|y: NodeId| #[trigger] hi_may_leave(st, y) && y != x implies hi_may_leave(a, y)
            && a.nodes[y as int] == st.nodes[y as int] by {
            assert forall|c: NodeId| #[trigger] a.shape.is_child(y, c) implies a.nodes[c as int].value is None by {
                assert(st.shape.is_child(y, c));
            }
        }
        assert forall|z: NodeId| #![trigger t.nodes[z as int]] z < st.nodes.len() implies t.nodes[z as int]
            == st.nodes[z as int] || {
            &&& st.nodes[z as int].value is Some
            &&& st.nodes[z as int].lock == 0
            &&& t.nodes[z as int] == (hi_model::HiNodeState { value: None, ..st.nodes[z as int] })
            &&& gone.contains(st.nodes[z as int].value->0)
        } by {
            assert(t.nodes[z as int] == a.nodes[z as int] || rest.contains(a.nodes[z as int].value->0));
            if z != x && t.nodes[z as int] != a.nodes[z as int] {
                let k = rest.index_of(st.nodes[z as int].value->0);
                assert(gone[k + 1] == st.nodes[z as int].value->0);
            }
        }
        assert forall|u: NodeId, y: NodeId|
            #![trigger hi_may_leave(st, u), hi_may_leave(st, y)]
            hi_may_leave(st, u) && hi_may_leave(st, y) && t.nodes[u as int].value is None && t.nodes[y as int].value
                is Some implies hi_goes_first(st, u, y) by {
            if y == x {
                assert(a.nodes[x as int].value is None);
                assert(t.nodes[x as int] == a.nodes[x as int] || a.nodes[x as int].value is Some);
            } else if u == x {
                assert(st.leaves().contains(y));
                lemma_hi_first(st, x, st.leaves(), y);
            } else {
                assert(hi_may_leave(a, u) && hi_may_leave(a, y));
                assert(hi_goes_first(a, u, y));
            }
        }
    }
}

/// An eviction from the host takes what the device does not hold, in the
/// order of the strategy: one that goes goes before any that might have gone
/// and stays. It stops when the budget is met, and lists what it took with
/// its slots; what stays is as it was.
pub proof fn law_hi_evict_host_order(st: HiState, budget: int)
    requires
        st.nodes.len() == st.shape.nodes.len() <= NodeId::MAX,
        hi_tellable(st),
    ensures
        ({
            let (t, gone, ids) = st.after_evict_host(budget);
            &&& t.nodes.len() == st.nodes.len() == t.shape.nodes.len()
            &&& none_too_many(gone, budget)
            &&& gone.len() == ids.len()
            &&& forall|k: int|
                #![trigger ids[k]]
                0 <= k < ids.len() ==> {
                    &&& ids[k] < st.nodes.len()
                    &&& st.nodes[ids[k] as int].value is None
                    &&& st.nodes[ids[k] as int].host_ref == 0
                    &&& gone[k] == hi_model::run_or_none(st.nodes[ids[k] as int].host)
                    &&& !t.shape.nodes[ids[k] as int].attached
                }
            &&& forall|z: NodeId|
                #![trigger t.nodes[z as int]]
                z < st.nodes.len() && !ids.contains(z) ==> t.nodes[z as int] == st.nodes[z as int]
                    && t.shape.nodes[z as int] == st.shape.nodes[z as int]
            &&& forall|x: NodeId, y: NodeId|
                #![trigger hi_may_leave_host(st, x), hi_may_leave_host(st, y)]
                hi_may_leave_host(st, x) && hi_may_leave_host(st, y) && ids.contains(x) && !ids.contains(y)
                    ==> hi_goes_first(st, x, y)
        }),
    decreases st.node_count(),
{
    let (t, gone, ids) = st.after_evict_host(budget);
    if st.victim(st.host_leaves()) is Some && budget > 0 && st.host_leaf(st.victim(st.host_leaves())->0) {
        let x = st.victim(st.host_leaves())->0;
        assert(st.first(x, st.host_leaves()));
        hi_model::lemma_erase_counts(st, x);
        let a = st.erased(x);
        let v = hi_model::run_or_none(st.nodes[x as int].host);
        law_hi_evict_host_order(a, budget - v.len());
        let (b, rest, more) = a.after_evict_host(budget - v.len());
        lemma_one_more(v, rest, budget);
        assert(gone == seq![v] + rest);
        assert(ids == seq![x] + more);
        assert(ids[0] == x);
        assert forall|z: NodeId| #[trigger] ids.contains(z) == (z == x || more.contains(z)) by {
            if more.contains(z) {
                assert(ids[more.index_of(z) + 1] == z);
            }
            if ids.contains(z) && z != x {
                assert(more[ids.index_of(z) - 1] == z);
            }
        }
        assert(!more.contains(x)) by {
            if more.contains(x) {
                let k = more.index_of(x);
                lemma_gone_stays(a, budget - v.len(), x);
            }
        }
        assert forall|y: NodeId| #[trigger] hi_may_leave_host(st, y) && y != x implies hi_may_leave_host(a, y)
            && a.nodes[y as int] == st.nodes[y as int] by {
            assert forall|c: NodeId| #[trigger] a.shape.is_child(y, c) implies a.nodes[c as int].host is None by {
                assert(st.shape.is_child(y, c));
            }
        }
        assert forall|k: int| #![trigger ids[k]] 0 <= k < ids.len() implies {
            &&& ids[k] < st.nodes.len()
            &&& st.nodes[ids[k] as int].value is None
            &&& st.nodes[ids[k] as int].host_ref == 0
            &&& gone[k] == hi_model::run_or_none(st.nodes[ids[k] as int].host)
            &&& !t.shape.nodes[ids[k] as int].attached
        } by {
            if k > 0 {
                assert(ids[k] == more[k - 1]);
                assert(gone[k] == rest[k - 1]);
                assert(more.contains(more[k - 1]));
                assert(a.nodes[ids[k] as int] == st.nodes[ids[k] as int]);
            } else {
                assert(gone[0] == v);
                assert(t == b);
                assert(!more.contains(x));
                assert(b.nodes[x as int] == a.nodes[x as int]);
                assert(t.nodes[x as int] == a.nodes[x as int] && t.shape.nodes[x as int] == a.shape.nodes[x as int]);
            }
        }
        assert forall|z: NodeId| #![trigger t.nodes[z as int]] z < st.nodes.len() && !ids.contains(z) implies t.nodes[
            z as int] == st.nodes[z as int] && t.shape.nodes[z as int] == st.shape.nodes[z as int] by {
            assert(!more.contains(z) && z != x);
            assert(t.nodes[z as int] == a.nodes[z as int]);
        }
        assert forall|u: NodeId, y: NodeId|
            #![trigger hi_may_leave_host(st, u), hi_may_leave_host(st, y)]
            hi_may_leave_host(st, u) && hi_may_leave_host(st, y) && ids.contains(u) && !ids.contains(y) implies hi_goes_first(
            st,
            u,
            y,
        ) by {
            if u == x {
                assert(st.host_leaf(y));
                assert(st.host_leaves().contains(y));
                lemma_hi_first(st, x, st.host_leaves(), y);
            } else {
                assert(hi_may_leave_host(a, u) && hi_may_leave_host(a, y));
                assert(more.contains(u) && !more.contains(y));
                assert(hi_goes_first(a, u, y));
            }
        }
    }
}

/// What is gone is not taken again.
proof fn lemma_gone_stays(st: HiState, budget: int, x: NodeId)
    requires
        x < st.nodes.len(),
        !st.shape.nodes[x as int].attached,
        st.nodes.len() == st.shape.nodes.len(),
    ensures
        !st.after_evict_host(budget).2.contains(x),
    decreases st.node_count(),
{
    if st.victim(st.host_leaves()) is Some && budget > 0 && st.host_leaf(st.victim(st.host_leaves())->0) {
        let y = st.victim(st.host_leaves())->0;
        hi_model::lemma_erase_counts(st, y);
        let a = st.erased(y);
        let v = hi_model::run_or_none(st.nodes[y as int].host);
        lemma_gone_stays(a, budget - v.len(), x);
        let more = a.after_evict_host(budget - v.len()).2;
        let ids = seq![y] + more;
        if ids.contains(x) {
            let k = ids.index_of(x);
            assert(k > 0);
            assert(more[k - 1] == x);
        }
    }
}

} // verus!
