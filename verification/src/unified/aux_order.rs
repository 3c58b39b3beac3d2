//! Which window slots and states an eviction takes: the least recently used
//! ones that nothing locks.

use crate::lru;
use crate::topo;
use crate::topo::NodeId;
use crate::unified::model::UState;
use crate::unified::reclaim;
use crate::unified::victims;
use crate::unified::{Freed, CT_MAMBA, CT_SWA};
use vstd::prelude::*;

verus! {

/// The list that evictions of `ct` on one side go by.
pub open spec fn list_of(st: UState, ct: u8, host: bool) -> Seq<NodeId> {
    st.lru[2 * ct + (if host {
        1int
    } else {
        0
    })]
}

/// Whether nothing locks what `x` has of `ct` on that side.
pub open spec fn loose(st: UState, ct: u8, host: bool, x: NodeId) -> bool {
    if host {
        st.nodes[x as int].host_lock[ct as int] == 0
    } else {
        st.nodes[x as int].lock[ct as int] == 0
    }
}

/// Whether `x` is the least recently used loose node of its list.
pub open spec fn oldest_loose(st: UState, ct: u8, host: bool, x: NodeId) -> bool {
    let order = list_of(st, ct, host);
    &&& order.contains(x)
    &&& loose(st, ct, host, x)
    &&& forall|y: NodeId|
        #![trigger order.contains(y)]
        order.contains(y) && loose(st, ct, host, y) && y != x ==> lru::ahead(order, y, x)
}

proof fn lemma_free_before(st: UState, ct: u8, host: bool, k: int)
    requires
        0 <= k <= list_of(st, ct, host).len(),
    ensures
        ({
            let order = list_of(st, ct, host);
            match st.free_before(ct, host, k) {
                None => forall|j: int| 0 <= j < k ==> !loose(st, ct, host, #[trigger] order[j]),
                Some(x) => exists|i: int|
                    0 <= i < k && #[trigger] order[i] == x && loose(st, ct, host, x) && forall|j: int|
                        i < j < k ==> !loose(st, ct, host, #[trigger] order[j]),
            }
        }),
    decreases k,
{
    let order = list_of(st, ct, host);
    if k > 0 {
        lemma_free_before(st, ct, host, k - 1);
        if loose(st, ct, host, order[k - 1]) {
            assert(st.free_before(ct, host, k) == Some(order[k - 1]));
        } else {
            assert(st.free_before(ct, host, k) == st.free_before(ct, host, k - 1));
            if let Some(x) = st.free_before(ct, host, k - 1) {
                let i = choose|i: int|
                    0 <= i < k - 1 && #[trigger] order[i] == x && loose(st, ct, host, x) && forall|j: int|
                        i < j < k - 1 ==> !loose(st, ct, host, #[trigger] order[j]);
                assert(order[i] == x);
            }
        }
    }
}

/// The oldest loose node.
proof fn lemma_oldest(st: UState, ct: u8, host: bool)
    requires
        list_of(st, ct, host).no_duplicates(),
    ensures
        st.oldest_free(ct, host) is None ==> forall|y: NodeId|
            #![trigger list_of(st, ct, host).contains(y)]
            list_of(st, ct, host).contains(y) ==> !loose(st, ct, host, y),
        st.oldest_free(ct, host) matches Some(x) ==> oldest_loose(st, ct, host, x),
{
    let order = list_of(st, ct, host);
    let n = order.len() as int;
    lemma_free_before(st, ct, host, n);
    match st.oldest_free(ct, host) {
        None => {
            assert forall|y: NodeId| #![trigger order.contains(y)] order.contains(y) implies !loose(st, ct, host, y) by {
                assert(order[order.index_of(y)] == y);
            }
        },
        Some(x) => {
            let i = choose|i: int|
                0 <= i < n && #[trigger] order[i] == x && loose(st, ct, host, x) && forall|j: int|
                    i < j < n ==> !loose(st, ct, host, #[trigger] order[j]);
            assert forall|y: NodeId|
                #![trigger order.contains(y)]
                order.contains(y) && loose(st, ct, host, y) && y != x implies lru::ahead(order, y, x) by {
                let j = order.index_of(y);
                assert(order[j] == y && order[i] == x);
                assert(j < i);
            }
        },
    }
}

/// The first step of a device eviction of window slots or of states turns to
/// the least recently used node whose slots nothing locks: one that may leave
/// the device is given out as it is, another loses those slots. It makes no
/// progress only if there is none.
pub proof fn law_aux_eviction_picks(st: UState, ct: u8, request: i64, running: i64)
    requires
        st.wf(),
        ct == CT_SWA || ct == CT_MAMBA,
        running < request,
    ensures
        ({
            let order = list_of(st, ct, false);
            let (t, victim, progress, freed) = st.evict_started(ct, request).evict_stepped(ct, running);
            &&& !progress ==> victim is None && t.nodes == st.nodes && forall|y: NodeId|
                #![trigger order.contains(y)]
                order.contains(y) ==> !loose(st, ct, false, y)
            &&& progress ==> exists|x: NodeId| #[trigger]
                oldest_loose(st, ct, false, x) && (if victims::may_leave_device(st, x) {
                    victim == Some(x) && t.nodes == st.nodes
                } else {
                    victim is None && t.nodes[x as int].value[ct as int] is None && t.nodes.len() == st.nodes.len()
                        && forall|i: int| 0 <= i < st.nodes.len() && i != x ==> (#[trigger] t.nodes[i]) == st.nodes[i]
                })
        }),
{
    let a = st.evict_started(ct, request);
    let order = list_of(st, ct, false);
    lemma_oldest(st, ct, false);
    assert(a.lru == st.lru && a.nodes == st.nodes && a.shape == st.shape);
    lemma_free_same(st, a, ct, false, order.len() as int);
    let (t, victim, progress, freed) = a.evict_stepped(ct, running);
    let w = a.walk_of(ct)->0;
    assert(w.cursor == st.oldest_free(ct, false));
    assert(a.cursor_of(ct, w) == st.oldest_free(ct, false));
    match st.oldest_free(ct, false) {
        None => {},
        Some(x) => {
            assert(oldest_loose(st, ct, false, x));
            assert(st.lists_ok(ct as int, x));
            assert(st.inner(x));
            assert(st.node_ok(x as int));
            assert(a.device_leaf(x) == st.device_leaf(x)) by {
                assert(a.no_device_kid(x) == st.no_device_kid(x));
            }
            victims::lemma_may(st, x);
        },
    }
}

proof fn lemma_free_same(st: UState, a: UState, ct: u8, host: bool, k: int)
    requires
        a.lru == st.lru,
        a.nodes == st.nodes,
    ensures
        a.free_before(ct, host, k) == st.free_before(ct, host, k),
    decreases k,
{
    if k > 0 {
        lemma_free_same(st, a, ct, host, k - 1);
    }
}

/// Each further step turns to the node that the one before left off at, as
/// long as that is still listed, and leaves off at the next loose one on the
/// way to the most recently used.
pub proof fn law_aux_eviction_goes_on(st: UState, ct: u8, running: i64, c: NodeId)
    requires
        st.wf(),
        ct == CT_SWA || ct == CT_MAMBA,
        st.walk_of(ct) matches Some(w) && w.cursor == Some(c) && running < w.request_cnt,
        list_of(st, ct, false).contains(c),
    ensures
        ({
            let order = list_of(st, ct, false);
            let (t, victim, progress, freed) = st.evict_stepped(ct, running);
            &&& progress
            &&& if victims::may_leave_device(st, c) {
                victim == Some(c) && t.nodes == st.nodes
            } else {
                victim is None && t.nodes[c as int].value[ct as int] is None && t.nodes.len() == st.nodes.len()
                    && forall|i: int| 0 <= i < st.nodes.len() && i != c ==> (#[trigger] t.nodes[i]) == st.nodes[i]
            }
            &&& t.walk_of(ct) matches Some(v) && v.request_cnt == st.walk_of(ct)->0.request_cnt && match v.cursor {
                None => forall|y: NodeId|
                    #![trigger order.contains(y)]
                    order.contains(y) && loose(st, ct, false, y) ==> !lru::ahead(order, y, c),
                Some(x) => {
                    &&& order.contains(x)
                    &&& loose(st, ct, false, x)
                    &&& lru::ahead(order, x, c)
                    &&& forall|y: NodeId|
                        #![trigger order.contains(y)]
                        order.contains(y) && loose(st, ct, false, y) && y != x && lru::ahead(order, y, c) ==> lru::ahead(
                            order,
                            y,
                            x,
                        )
                },
            }
        }),
{
    let order = list_of(st, ct, false);
    let w = st.walk_of(ct)->0;
    let (t, victim, progress, freed) = st.evict_stepped(ct, running);
    let i = order.index_of(c);
    assert(order[i] == c);
    assert(st.cursor_of(ct, w) == Some(c));
    assert(st.lists_ok(ct as int, c));
    assert(st.node_ok(c as int));
    victims::lemma_may(st, c);
    lemma_free_before(st, ct, false, i);
    let next = st.free_after(ct, false, c);
    assert(next == st.free_before(ct, false, i));
    assert(order.no_duplicates());
    match next {
        None => {
            assert forall|y: NodeId|
                #![trigger order.contains(y)]
                order.contains(y) && loose(st, ct, false, y) implies !lru::ahead(order, y, c) by {
                let j = order.index_of(y);
                assert(order[j] == y);
                if lru::ahead(order, y, c) {
                    let (p, q) = choose|p: int, q: int|
                        0 <= p < q < order.len() && #[trigger] order[p] == y && #[trigger] order[q] == c;
                    assert(q == i);
                    assert(!loose(st, ct, false, order[p]));
                }
            }
        },
        Some(x) => {
            let k = choose|k: int|
                0 <= k < i && #[trigger] order[k] == x && loose(st, ct, false, x) && forall|j: int|
                    k < j < i ==> !loose(st, ct, false, #[trigger] order[j]);
            assert(order[k] == x && order[i] == c);
            assert forall|y: NodeId|
                #![trigger order.contains(y)]
                order.contains(y) && loose(st, ct, false, y) && y != x && lru::ahead(order, y, c) implies lru::ahead(
                order,
                y,
                x,
            ) by {
                let (p, q) = choose|p: int, q: int|
                    0 <= p < q < order.len() && #[trigger] order[p] == y && #[trigger] order[q] == c;
                assert(q == i);
                assert(p < k) by {
                    if p > k {
                        assert(!loose(st, ct, false, order[p]));
                    }
                }
                assert(order[p] == y && order[k] == x);
            }
        },
    }
}

/// One node of the host list goes, or loses what it has of `ct` there.
proof fn lemma_host_step(st: UState, a: UState, ct: u8, x: NodeId, out: Freed)
    requires
        st.shape.wf(),
        st.lru.len() == 8,
        st.nodes.len() == st.shape.nodes.len(),
        ct == CT_SWA || ct == CT_MAMBA,
        list_of(st, ct, true).contains(x),
        list_of(st, ct, true).no_duplicates(),
        0 < x < st.nodes.len(),
        st.host_leaf(x) ==> a == st.deleted(x, 2, out, true).0,
        !st.host_leaf(x) ==> a == st.host_hollowed(x, ct, out).0,
    ensures
        a.shape.wf(),
        a.lru.len() == 8,
        a.nodes.len() == st.nodes.len() == a.shape.nodes.len(),
        list_of(a, ct, true) == lru::without(list_of(st, ct, true), x),
        forall|i: int| 0 <= i < st.nodes.len() ==> (#[trigger] a.nodes[i]).host_lock == st.nodes[i].host_lock,
{
    if st.host_leaf(x) {
        topo::lemma_path_grows(st.shape, x);
        topo::lemma_prune_wf(st.shape, x);
        let p = st.shape.nodes[x as int].parent;
        assert forall|i: int| 0 <= i < st.nodes.len() implies (#[trigger] a.nodes[i]).host_lock
            == st.nodes[i].host_lock by {
            if i != x && i != p {
                assert(a.nodes[i] == st.nodes[i]);
            }
        }
    }
}

/// After a step the next one turns to the oldest that is left.
proof fn lemma_next_oldest(st: UState, a: UState, ct: u8, x: NodeId)
    requires
        ct == CT_SWA || ct == CT_MAMBA,
        list_of(st, ct, true).no_duplicates(),
        st.oldest_free(ct, true) == Some(x),
        list_of(a, ct, true) == lru::without(list_of(st, ct, true), x),
        a.nodes.len() == st.nodes.len(),
        forall|y: NodeId| #[trigger] list_of(st, ct, true).contains(y) ==> y < st.nodes.len(),
        forall|i: int| 0 <= i < st.nodes.len() ==> (#[trigger] a.nodes[i]).host_lock == st.nodes[i].host_lock,
    ensures
        st.free_after(ct, true, x) == a.oldest_free(ct, true),
{
    let order = list_of(st, ct, true);
    let less = list_of(a, ct, true);
    lemma_oldest(st, ct, true);
    let i = order.index_of(x);
    assert(order[i] == x);
    lemma_without_tail(st, a, ct, x, less.len() as int);
}

proof fn lemma_without_tail(st: UState, a: UState, ct: u8, x: NodeId, k: int)
    requires
        ct == CT_SWA || ct == CT_MAMBA,
        list_of(st, ct, true).no_duplicates(),
        oldest_loose(st, ct, true, x),
        list_of(a, ct, true) == lru::without(list_of(st, ct, true), x),
        0 <= k <= list_of(a, ct, true).len(),
        a.nodes.len() == st.nodes.len(),
        forall|y: NodeId| #[trigger] list_of(st, ct, true).contains(y) ==> y < st.nodes.len(),
        forall|i: int| 0 <= i < st.nodes.len() ==> (#[trigger] a.nodes[i]).host_lock == st.nodes[i].host_lock,
    ensures
        k >= list_of(st, ct, true).index_of(x) ==> a.free_before(ct, true, k) == st.free_after(ct, true, x),
        k <= list_of(st, ct, true).index_of(x) ==> a.free_before(ct, true, k) == st.free_before(ct, true, k),
    decreases k,
{
    let order = list_of(st, ct, true);
    let less = list_of(a, ct, true);
    let i = order.index_of(x);
    assert(order[i] == x);
    if k > 0 {
        lemma_without_tail(st, a, ct, x, k - 1);
        let y = less[k - 1];
        if k <= i {
            assert(less[k - 1] == order[k - 1]);
            assert(order.contains(order[k - 1]));
        } else {
            assert(less[k - 1] == order[k]);
            assert(order.contains(order[k]));
            assert(order[k] != order[i]);
            if loose(st, ct, true, y) {
                assert(lru::ahead(order, y, x));
                lru::law_order_is_total(order, y, x);
                assert(order[order.index_of(y)] == y);
            }
            assert(!loose(st, ct, true, y));
        }
        assert(a.nodes[y as int].host_lock == st.nodes[y as int].host_lock);
    }
}

proof fn lemma_host_order(st: UState, ct: u8, n: i64, out: Freed)
    requires
        st.shape.wf(),
        st.lru.len() == 8,
        st.nodes.len() == st.shape.nodes.len(),
        ct == CT_SWA || ct == CT_MAMBA,
        list_of(st, ct, true).no_duplicates(),
        forall|y: NodeId| #[trigger] list_of(st, ct, true).contains(y) ==> 0 < y < st.nodes.len(),
    ensures
        ({
            let order = list_of(st, ct, true);
            let (t, o) = st.aux_host_driven(ct, n, st.oldest_free(ct, true), out);
            let left = list_of(t, ct, true);
            &&& t.nodes.len() == st.nodes.len()
            &&& forall|i: int| 0 <= i < st.nodes.len() ==> (#[trigger] t.nodes[i]).host_lock == st.nodes[i].host_lock
            &&& forall|y: NodeId| #[trigger] left.contains(y) ==> order.contains(y)
            &&& forall|y: NodeId| #[trigger] order.contains(y) && !loose(st, ct, true, y) ==> left.contains(y)
            &&& forall|u: NodeId, v: NodeId|
                #![trigger order.contains(u), order.contains(v)]
                order.contains(u) && order.contains(v) && loose(st, ct, true, v) && !left.contains(u) && left.contains(v)
                    ==> lru::ahead(order, v, u)
            &&& o.counted(ct) >= n || forall|y: NodeId| #[trigger] left.contains(y) ==> !loose(t, ct, true, y)
        }),
    decreases list_of(st, ct, true).len(),
{
    let order = list_of(st, ct, true);
    lemma_oldest(st, ct, true);
    let cur = st.oldest_free(ct, true);
    let (t, o) = st.aux_host_driven(ct, n, cur, out);
    let left = list_of(t, ct, true);
    if cur is Some && out.counted(ct) < n {
        let x = cur->0;
        assert(order.contains(x));
        let (a, oa) = if st.host_leaf(x) {
            st.deleted(x, 2, out, true)
        } else {
            st.host_hollowed(x, ct, out)
        };
        lemma_host_step(st, a, ct, x, out);
        reclaim::lemma_shorter(st, x, ct, out);
        assert(order[order.index_of(x)] == x);
        lru::lemma_remove(order, order.index_of(x));
        lemma_next_oldest(st, a, ct, x);
        lemma_host_order(a, ct, n, oa);
        assert((t, o) == a.aux_host_driven(ct, n, a.oldest_free(ct, true), oa));
        let less = list_of(a, ct, true);
        assert forall|i: int| 0 <= i < st.nodes.len() implies (#[trigger] t.nodes[i]).host_lock
            == st.nodes[i].host_lock by {
            assert(a.nodes[i].host_lock == st.nodes[i].host_lock);
        }
        assert forall|y: NodeId| #[trigger] less.contains(y) == (order.contains(y) && y != x) by {}
        assert forall|y: NodeId| #[trigger] left.contains(y) implies order.contains(y) by {
            assert(less.contains(y));
        }
        assert forall|y: NodeId| #[trigger] order.contains(y) && y != x implies loose(a, ct, true, y) == loose(
            st,
            ct,
            true,
            y,
        ) by {
            assert(a.nodes[y as int].host_lock == st.nodes[y as int].host_lock);
        }
        assert forall|y: NodeId| #[trigger] order.contains(y) && !loose(st, ct, true, y) implies left.contains(y) by {
            assert(less.contains(y));
        }
        assert forall|u: NodeId, v: NodeId|
            #![trigger order.contains(u), order.contains(v)]
            order.contains(u) && order.contains(v) && loose(st, ct, true, v) && !left.contains(u) && left.contains(
                v,
            ) implies lru::ahead(order, v, u) by {
            assert(less.contains(v));
            if u == x {
            } else {
                assert(less.contains(u));
                assert(lru::ahead(less, v, u));
                lru::law_removal_keeps_order(order, x, v, u);
            }
        }
    } else {
        assert(t == st && o == out);
    }
}

/// A host eviction of window slots or of states takes the least recently used
/// ones that nothing locks: what is taken was used less recently than any
/// that might have been taken and is left. It ends when enough is freed or
/// all that is left is locked.
pub proof fn law_aux_host_eviction_picks(st: UState, ct: u8, n: i64)
    requires
        st.wf(),
        ct == CT_SWA || ct == CT_MAMBA,
    ensures
        ({
            let order = list_of(st, ct, true);
            let (t, freed) = st.host_evicted(ct, n);
            let left = list_of(t, ct, true);
            &&& forall|y: NodeId| #[trigger] left.contains(y) ==> order.contains(y)
            &&& forall|y: NodeId| #[trigger] order.contains(y) && !loose(st, ct, true, y) ==> left.contains(y)
            &&& forall|u: NodeId, v: NodeId|
                #![trigger order.contains(u), order.contains(v)]
                order.contains(u) && order.contains(v) && loose(st, ct, true, v) && !left.contains(u) && left.contains(v)
                    ==> lru::ahead(order, v, u)
            &&& freed.counted(ct) >= n || forall|y: NodeId| #[trigger] left.contains(y) ==> !loose(t, ct, true, y)
        }),
{
    let order = list_of(st, ct, true);
    assert forall|y: NodeId| #[trigger] order.contains(y) implies 0 < y < st.nodes.len() by {
        assert(st.lists_ok(ct as int, y));
    }
    lemma_host_order(st, ct, n, Freed::none());
}

} // verus!
