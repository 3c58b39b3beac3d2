//! Too many states on a path: which go.

use crate::chains;
use crate::topo::NodeId;
use crate::unified::matching;
use crate::unified::model::UState;
use crate::unified::{Freed, CT_MAMBA};
use vstd::prelude::*;

verus! {

/// Whether the state of `x` may go for being one too many: `x` lies between
/// two others, may not leave as a whole, and nothing locks its state.
pub open spec fn spare(st: UState, x: NodeId) -> bool {
    &&& st.nodes[x as int].value[2] is Some
    &&& st.nodes[x as int].lock[2] <= 0
    &&& st.nodes[x as int].kids.len() == 1
    &&& !st.device_leaf(x)
}

/// How many of `ids` have a state.
pub open spec fn states_on(st: UState, ids: Seq<NodeId>) -> int
    decreases ids.len(),
{
    if ids.len() == 0 {
        0
    } else {
        states_on(st, ids.drop_last()) + (if st.nodes[ids.last() as int].value[2] is Some {
            1int
        } else {
            0
        })
    }
}

/// From `st` to `t` some nodes lost their states; nothing else changed in
/// them.
pub open spec fn states_went(st: UState, t: UState) -> bool {
    &&& t.shape == st.shape
    &&& t.cfg == st.cfg
    &&& t.nodes.len() == st.nodes.len()
    &&& forall|i: int|
        0 <= i < st.nodes.len() ==> (#[trigger] t.nodes[i]) == st.nodes[i] || (t.nodes[i] == st.nodes[i].with_value(
            2,
            None,
        ) && st.nodes[i].value[2] is Some)
}

proof fn lemma_hollowed(st: UState, x: NodeId, out: Freed)
    requires
        x < st.nodes.len(),
        st.nodes.len() == st.shape.nodes.len(),
        st.nodes[x as int].value.len() == 4,
        st.nodes[x as int].value[2] is Some,
    ensures
        ({
            let t = st.hollowed(x, CT_MAMBA, out).0;
            &&& states_went(st, t)
            &&& t.nodes[x as int].value[2] is None
            &&& forall|i: int| 0 <= i < st.nodes.len() && i != x ==> (#[trigger] t.nodes[i]) == st.nodes[i]
            &&& forall|y: NodeId| #[trigger] t.device_leaf(y) == st.device_leaf(y)
        }),
{
    let t = st.hollowed(x, CT_MAMBA, out).0;
    assert(t.nodes[x as int] == st.nodes[x as int].with_value(2, None));
    assert forall|i: int| 0 <= i < st.nodes.len() implies (#[trigger] t.nodes[i]).value[0] == st.nodes[i].value[0]
        && t.nodes[i].lock == st.nodes[i].lock by {}
    assert forall|y: NodeId| #[trigger] t.device_leaf(y) == st.device_leaf(y) by {
        assert(t.no_device_kid(y) == st.no_device_kid(y)) by {
            assert forall|c: NodeId| #[trigger] t.shape.is_child(y, c) implies (t.nodes[c as int].value[0] is None) == (
            st.nodes[c as int].value[0] is None) by {
                if c < st.nodes.len() {
                    assert(t.nodes[c as int].value[0] == st.nodes[c as int].value[0]);
                }
            }
            if t.no_device_kid(y) {
                assert forall|c: NodeId| #[trigger] st.shape.is_child(y, c) implies st.nodes[c as int].value[0]
                    is None by {
                    assert(t.shape.is_child(y, c));
                }
            }
            if st.no_device_kid(y) {
                assert forall|c: NodeId| #[trigger] t.shape.is_child(y, c) implies t.nodes[c as int].value[0]
                    is None by {
                    assert(st.shape.is_child(y, c));
                }
            }
        }
        if y < st.nodes.len() {
            assert(t.nodes[y as int].lock == st.nodes[y as int].lock);
        }
    }
}

/// The states that `ids[..k]` lose, the last first.
proof fn lemma_thinned(st: UState, ids: Seq<NodeId>, k: int, tail: NodeId, excess: int, out: Freed)
    requires
        0 <= k <= ids.len(),
        ids.no_duplicates(),
        st.nodes.len() == st.shape.nodes.len() <= NodeId::MAX,
        forall|j: int|
            0 <= j < ids.len() ==> (#[trigger] ids[j]) < st.nodes.len() && st.nodes[ids[j] as int].value.len() == 4,
        forall|j: int| 0 <= j < k ==> st.nodes[(#[trigger] ids[j]) as int].value[2] is Some,
        forall|j: int| 0 < j < ids.len() ==> (#[trigger] ids[j]) != tail,
    ensures
        ({
            let t = st.thinned(ids, k, tail, excess, out).0;
            &&& states_went(st, t)
            &&& forall|y: NodeId| #[trigger] t.device_leaf(y) == st.device_leaf(y)
            &&& forall|i: int|
                0 <= i < st.nodes.len() && !ids.take(k).contains(i as NodeId) ==> (#[trigger] t.nodes[i]) == st.nodes[i]
            &&& forall|j: int|
                #![trigger ids[j]]
                0 <= j < k && t.nodes[ids[j] as int].value[2] is None ==> spare(st, ids[j]) && ids[j] != tail
            &&& forall|i: int, j: int|
                #![trigger ids[i], ids[j]]
                0 <= i < j < k && spare(st, ids[j]) && t.nodes[ids[i] as int].value[2] is None
                    ==> t.nodes[ids[j] as int].value[2] is None
            &&& states_on(t, ids.take(k)) <= k
            &&& states_on(t, ids.take(k)) >= k - (if excess > 0 {
                excess
            } else {
                0
            })
            &&& states_on(t, ids.take(k)) <= k - excess || excess <= 0 || forall|j: int|
                #![trigger ids[j]]
                0 <= j < k && spare(st, ids[j]) && ids[j] != tail ==> t.nodes[ids[j] as int].value[2] is None
        }),
    decreases k,
{
    let t = st.thinned(ids, k, tail, excess, out).0;
    let front = ids.take(k - 1);
    let all = ids.take(k);
    if k <= 0 {
        assert(all =~= Seq::<NodeId>::empty());
    } else if excess <= 0 || ids[k - 1] == tail {
        lemma_all_states(st, all);
        if ids[k - 1] == tail {
            assert(k == 1);
        }
    } else {
        let x = ids[k - 1];
        assert(x < st.nodes.len());
        assert(all.drop_last() =~= front);
        assert(all.last() == x);
        assert(all =~= front.push(x));
        let (a, o) = if st.thinnable(x) {
            st.hollowed(x, CT_MAMBA, out)
        } else {
            (st, out)
        };
        let rest = if st.thinnable(x) {
            excess - 1
        } else {
            excess
        };
        if st.thinnable(x) {
            lemma_hollowed(st, x, out);
        }
        chains::lemma_not_before(ids, k - 1);
        assert forall|j: int| 0 <= j < k - 1 implies a.nodes[(#[trigger] ids[j]) as int].value[2] is Some by {
            assert(ids[j] != ids[k - 1]);
            assert(ids[j] < st.nodes.len());
        }
        assert forall|j: int| 0 <= j < ids.len() implies (#[trigger] ids[j]) < a.nodes.len() && a.nodes[
            ids[j] as int].value.len() == 4 by {
            assert(ids[j] < st.nodes.len());
            assert(a.nodes[ids[j] as int] == st.nodes[ids[j] as int] || a.nodes[ids[j] as int]
                == st.nodes[ids[j] as int].with_value(2, None));
        }
        lemma_thinned(a, ids, k - 1, tail, rest, o);
        assert(t == a.thinned(ids, k - 1, tail, rest, o).0);
        assert(t.nodes[x as int] == a.nodes[x as int]);
        assert forall|j: int| #![trigger ids[j]] 0 <= j < k - 1 implies spare(a, ids[j]) == spare(st, ids[j]) by {
            assert(ids[j] != ids[k - 1]);
            assert(ids[j] < st.nodes.len());
            assert(a.device_leaf(ids[j]) == st.device_leaf(ids[j]));
        }
        assert forall|i: int| 0 <= i < st.nodes.len() && !all.contains(i as NodeId) implies (#[trigger] t.nodes[i])
            == st.nodes[i] by {
            crate::tree_model::lemma_push_contains(front, x, i as NodeId);
            assert(a.nodes[i] == st.nodes[i]);
        }
        assert(states_went(st, t)) by {
            assert forall|i: int| 0 <= i < st.nodes.len() implies (#[trigger] t.nodes[i]) == st.nodes[i] || (
            t.nodes[i] == st.nodes[i].with_value(2, None) && st.nodes[i].value[2] is Some) by {
                assert(t.nodes[i] == a.nodes[i] || t.nodes[i] == a.nodes[i].with_value(2, None));
                if i == x {
                } else {
                    assert(a.nodes[i] == st.nodes[i]);
                }
            }
        }
        assert forall|y: NodeId| #[trigger] t.device_leaf(y) == st.device_leaf(y) by {
            assert(a.device_leaf(y) == st.device_leaf(y));
        }
        assert(spare(st, x) == st.thinnable(x));
        assert forall|j: int| #![trigger ids[j]] 0 <= j < k && t.nodes[ids[j] as int].value[2] is None implies spare(
            st,
            ids[j],
        ) && ids[j] != tail by {
            if j < k - 1 {
                assert(spare(a, ids[j]));
            }
        }
        assert forall|i: int, j: int|
            #![trigger ids[i], ids[j]]
            0 <= i < j < k && spare(st, ids[j]) && t.nodes[ids[i] as int].value[2] is None implies t.nodes[
            ids[j] as int].value[2] is None by {
            if j < k - 1 {
                assert(spare(a, ids[j]));
            }
        }
        if !(states_on(t, all) <= k - excess) {
            assert forall|j: int| #![trigger ids[j]] 0 <= j < k && spare(st, ids[j]) && ids[j] != tail implies t.nodes[
                ids[j] as int].value[2] is None by {
                if j < k - 1 {
                    assert(spare(a, ids[j]));
                }
            }
        }
    }
}

proof fn lemma_all_states(st: UState, ids: Seq<NodeId>)
    requires
        forall|j: int| 0 <= j < ids.len() ==> st.nodes[(#[trigger] ids[j]) as int].value[2] is Some,
    ensures
        states_on(st, ids) == ids.len(),
    decreases ids.len(),
{
    if ids.len() > 0 {
        let front = ids.drop_last();
        assert forall|j: int| 0 <= j < front.len() implies st.nodes[(#[trigger] front[j]) as int].value[2] is Some by {
            assert(ids[j] == front[j]);
        }
        assert(ids[ids.len() - 1] == ids.last());
        lemma_all_states(st, front);
    }
}

/// The nodes of a path that have a state, in its order.
proof fn lemma_holders(st: UState, up: Seq<NodeId>)
    requires
        up.no_duplicates(),
    ensures
        st.holders(up).no_duplicates(),
        st.holders(up).len() == states_on(st, up),
        forall|x: NodeId| #[trigger] st.holders(up).contains(x) <==> up.contains(x) && st.nodes[x as int].value[2] is Some,
        up.len() > 0 ==> forall|j: int| 0 < j < st.holders(up).len() ==> (#[trigger] st.holders(up)[j]) != up[0],
    decreases up.len(),
{
    let h = st.holders(up);
    if up.len() > 0 {
        let front = up.drop_last();
        let x = up.last();
        lemma_holders(st, front);
        let less = st.holders(front);
        assert(up =~= front.push(x));
        assert(!front.contains(x)) by {
            if front.contains(x) {
                assert(up[front.index_of(x)] == up[up.len() - 1]);
            }
        }
        assert forall|y: NodeId| #[trigger] h.contains(y) <==> up.contains(y) && st.nodes[y as int].value[2] is Some by {
            crate::tree_model::lemma_push_contains(front, x, y);
            crate::tree_model::lemma_push_contains(less, x, y);
            assert(less.contains(y) <==> front.contains(y) && st.nodes[y as int].value[2] is Some);
        }
        assert(!less.contains(x));
        assert forall|j: int| 0 < j < h.len() implies (#[trigger] h[j]) != up[0] by {
            if j < less.len() {
                assert(h[j] == less[j]);
                if front.len() > 0 {
                    assert(front[0] == up[0]);
                } else {
                    assert(less.contains(less[j]));
                }
            } else {
                assert(h[j] == x);
                if front.len() > 0 {
                    assert(front[0] == up[0]);
                    assert(front.contains(up[0]));
                } else {
                    assert(less.len() == 0) by {
                        if less.len() > 0 {
                            assert(less.contains(less[0]));
                        }
                    }
                }
            }
        }
    } else {
        assert(h =~= Seq::<NodeId>::empty());
        assert(up =~= Seq::<NodeId>::empty());
    }
}

/// States are counted alike on a path and on its holders.
proof fn lemma_same_count(st: UState, t: UState, up: Seq<NodeId>)
    requires
        states_went(st, t),
        forall|j: int| 0 <= j < up.len() ==> (#[trigger] up[j]) < st.nodes.len(),
    ensures
        states_on(t, up) == states_on(t, st.holders(up)),
    decreases up.len(),
{
    if up.len() > 0 {
        let front = up.drop_last();
        let x = up.last();
        assert forall|j: int| 0 <= j < front.len() implies (#[trigger] front[j]) < st.nodes.len() by {
            assert(up[j] == front[j]);
        }
        lemma_same_count(st, t, front);
        assert(up[up.len() - 1] == x);
        assert(t.nodes[x as int] == st.nodes[x as int] || t.nodes[x as int] == st.nodes[x as int].with_value(2, None));
        if st.nodes[x as int].value[2] is Some {
            let h = st.holders(up);
            assert(h.drop_last() =~= st.holders(front));
            assert(h.last() == x);
        }
    }
}

/// The holders stand in the order of the path.
proof fn lemma_holder_order(st: UState, up: Seq<NodeId>, a: int, b: int) -> (r: (int, int))
    requires
        0 <= a < b < up.len(),
        st.nodes[up[a] as int].value[2] is Some,
        st.nodes[up[b] as int].value[2] is Some,
    ensures
        0 <= r.0 < r.1 < st.holders(up).len(),
        st.holders(up)[r.0] == up[a],
        st.holders(up)[r.1] == up[b],
    decreases up.len(),
{
    let front = up.drop_last();
    let h = st.holders(up);
    let less = st.holders(front);
    assert(front[a] == up[a]);
    if b < front.len() {
        assert(front[b] == up[b]);
        let r = lemma_holder_order(st, front, a, b);
        assert(h[r.0] == less[r.0] && h[r.1] == less[r.1]);
        r
    } else {
        lemma_holder_in(st, front, a);
        let i = choose|i: int| 0 <= i < less.len() && less[i] == front[a];
        assert(h == less.push(up[b]));
        (i, less.len() as int)
    }
}

proof fn lemma_holder_in(st: UState, up: Seq<NodeId>, a: int)
    requires
        0 <= a < up.len(),
        st.nodes[up[a] as int].value[2] is Some,
    ensures
        exists|i: int| 0 <= i < st.holders(up).len() && st.holders(up)[i] == up[a],
    decreases up.len(),
{
    let front = up.drop_last();
    let h = st.holders(up);
    let less = st.holders(front);
    if a < front.len() {
        assert(front[a] == up[a]);
        lemma_holder_in(st, front, a);
        let i = choose|i: int| 0 <= i < less.len() && less[i] == front[a];
        assert(h[i] == up[a]);
    } else {
        assert(h[less.len() as int] == up[a]);
    }
}

/// Where a path has more states than it may, the spare ones go, those nearest
/// the root first, as many as are too many and no more; the one at its end
/// stays. Nothing else changes in the nodes.
pub proof fn law_excess_states_go(st: UState, tail: NodeId)
    requires
        st.wf(),
        st.inner(tail),
        st.cfg.mamba_max_states_per_path >= 0,
    ensures
        ({
            let up = st.shape.up(tail);
            let held = states_on(st, up);
            let cap = st.cfg.mamba_max_states_per_path as int;
            let t = st.excess_evicted(tail).0;
            &&& states_went(st, t)
            &&& t.nodes[tail as int] == st.nodes[tail as int]
            &&& forall|i: int|
                0 <= i < st.nodes.len() && !up.contains(i as NodeId) ==> (#[trigger] t.nodes[i]) == st.nodes[i]
            &&& held <= cap ==> forall|i: int| 0 <= i < st.nodes.len() ==> (#[trigger] t.nodes[i]) == st.nodes[i]
            &&& forall|k: int|
                #![trigger up[k]]
                0 <= k < up.len() && t.nodes[up[k] as int] != st.nodes[up[k] as int] ==> spare(st, up[k])
            &&& forall|a: int, b: int|
                #![trigger up[a], up[b]]
                0 <= a < b < up.len() && spare(st, up[b]) && t.nodes[up[a] as int] != st.nodes[up[a] as int]
                    ==> t.nodes[up[b] as int].value[2] is None
            &&& states_on(t, up) >= held || states_on(t, up) >= cap
            &&& states_on(t, up) <= cap || forall|k: int|
                #![trigger up[k]]
                0 < k < up.len() && spare(st, up[k]) ==> t.nodes[up[k] as int].value[2] is None
        }),
{
    let up = st.shape.up(tail);
    let cap = st.cfg.mamba_max_states_per_path as int;
    let ids = st.holders(up);
    let n = ids.len() as int;
    let t = st.excess_evicted(tail).0;
    matching::lemma_up_live(st, tail);
    assert(up.len() > 0 && up[0] == tail) by {
        crate::topo::lemma_up(st.shape, tail);
    }
    lemma_holders(st, up);
    assert forall|j: int| 0 <= j < n implies (#[trigger] ids[j]) < st.nodes.len() && st.nodes[
        ids[j] as int].value.len() == 4 && st.nodes[ids[j] as int].value[2] is Some by {
        assert(ids.contains(ids[j]));
        let k = up.index_of(ids[j]);
        assert(st.inner(up[k]));
        assert(st.node_ok(ids[j] as int));
    }
    lemma_thinned(st, ids, n, tail, n - cap, Freed::none());
    assert(ids.take(n) =~= ids);
    assert forall|i: int| 0 <= i < st.nodes.len() && !up.contains(i as NodeId) implies (#[trigger] t.nodes[i])
        == st.nodes[i] by {
        assert(!ids.contains(i as NodeId));
    }
    assert forall|x: NodeId| x < st.nodes.len() && #[trigger] t.nodes[x as int] != st.nodes[x as int] implies spare(st, x)
        && x != tail by {
        assert(ids.contains(x));
        let j = ids.index_of(x);
        assert(ids[j] == x);
    }
    assert forall|j: int| 0 <= j < up.len() implies (#[trigger] up[j]) < st.nodes.len() by {
        assert(st.inner(up[j]));
    }
    lemma_same_count(st, t, up);
    assert forall|a: int, b: int|
        #![trigger up[a], up[b]]
        0 <= a < b < up.len() && spare(st, up[b]) && t.nodes[up[a] as int] != st.nodes[up[a] as int] implies t.nodes[
        up[b] as int].value[2] is None by {
        assert(up[a] < st.nodes.len());
        assert(t.nodes[up[a] as int] == st.nodes[up[a] as int].with_value(2, None));
        assert(st.nodes[up[a] as int].value.len() == 4) by {
            assert(st.inner(up[a]));
            assert(st.node_ok(up[a] as int));
        }
        let (i, j) = lemma_holder_order(st, up, a, b);
        assert(ids[i] == up[a] && ids[j] == up[b]);
    }
    if !(states_on(t, up) <= cap) {
        assert forall|k: int| #![trigger up[k]] 0 < k < up.len() && spare(st, up[k]) implies t.nodes[
            up[k] as int].value[2] is None by {
            lemma_holder_in(st, up, k);
            let i = choose|i: int| 0 <= i < ids.len() && ids[i] == up[k];
            assert(up[0] != up[k]);
            assert(ids[i] != tail);
        }
    }
    if n <= cap {
        assert(t == st.thinned(ids, n, tail, n - cap, Freed::none()).0);
        assert(t == st);
    }
}

} // verus!
