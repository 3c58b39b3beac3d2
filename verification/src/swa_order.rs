//! What an eviction of the sliding-window tree takes: the least recently used
//! of what may go.

use crate::lru;
use crate::swa_model;
use crate::swa_model::{Freed, SWAState, Tally};
use crate::topo::NodeId;
use vstd::prelude::*;

verus! {

/// Whether `x` is a leaf that nothing locks.
pub open spec fn free_leaf(st: SWAState, x: NodeId) -> bool {
    &&& st.live(x)
    &&& st.nodes[x as int].full_lock == 0
    &&& forall|c: NodeId| !#[trigger] st.shape.is_child(x, c)
}

/// Whether `x` has window slots that nothing locks.
pub open spec fn free_window(st: SWAState, x: NodeId) -> bool {
    st.windowed(x) && st.nodes[x as int].swa_lock == 0
}

/// The two orders name what they should, each node once.
spec fn ordered(st: SWAState) -> bool {
    &&& st.nodes.len() == st.shape.nodes.len()
    &&& forall|id: NodeId| #[trigger] st.live(id) ==> st.shape.nodes[id as int].attached
    &&& st.full.no_duplicates()
    &&& st.swa.no_duplicates()
    &&& forall|id: NodeId| #[trigger] st.full.contains(id) <==> st.live(id)
    &&& forall|id: NodeId| #[trigger] st.swa.contains(id) <==> st.windowed(id)
}

/// From `st` to `a` some nodes went; the others are as they were, in the
/// order they were in.
pub open spec fn some_went(st: SWAState, a: SWAState) -> bool {
    &&& a.nodes.len() == st.nodes.len()
    &&& forall|y: NodeId| #[trigger] a.live(y) ==> st.live(y)
    &&& forall|y: NodeId| #[trigger] a.live(y) ==> a.nodes[y as int].value == st.nodes[y as int].value && a.nodes[
        y as int].full_lock == st.nodes[y as int].full_lock && a.nodes[y as int].swa_lock
        == st.nodes[y as int].swa_lock
    &&& forall|y: NodeId| st.live(y) && !#[trigger] a.live(y) ==> st.nodes[y as int].full_lock == 0
    &&& forall|u: NodeId, v: NodeId|
        #![trigger lru::ahead(a.full, u, v)]
        a.live(u) && a.live(v) ==> lru::ahead(a.full, u, v) == lru::ahead(st.full, u, v)
    &&& forall|u: NodeId, v: NodeId|
        #![trigger lru::ahead(a.swa, u, v)]
        a.windowed(u) && a.windowed(v) ==> lru::ahead(a.swa, u, v) == lru::ahead(st.swa, u, v)
}

proof fn lemma_went_twice(a: SWAState, b: SWAState, c: SWAState)
    requires
        some_went(a, b),
        some_went(b, c),
        forall|y: NodeId| #[trigger] c.windowed(y) ==> b.windowed(y),
    ensures
        some_went(a, c),
{
    assert forall|y: NodeId| #[trigger] c.live(y) implies a.live(y) && c.nodes[y as int].value
        == a.nodes[y as int].value && c.nodes[y as int].full_lock == a.nodes[y as int].full_lock && c.nodes[
        y as int].swa_lock == a.nodes[y as int].swa_lock by {
        assert(b.live(y));
    }
    assert forall|y: NodeId| a.live(y) && !#[trigger] c.live(y) implies a.nodes[y as int].full_lock == 0 by {
        if b.live(y) {
        }
    }
    assert forall|u: NodeId, v: NodeId|
        #![trigger lru::ahead(c.full, u, v)]
        c.live(u) && c.live(v) implies lru::ahead(c.full, u, v) == lru::ahead(a.full, u, v) by {
        assert(b.live(u) && b.live(v));
        assert(lru::ahead(b.full, u, v) == lru::ahead(a.full, u, v));
    }
    assert forall|u: NodeId, v: NodeId|
        #![trigger lru::ahead(c.swa, u, v)]
        c.windowed(u) && c.windowed(v) implies lru::ahead(c.swa, u, v) == lru::ahead(a.swa, u, v) by {
        assert(b.windowed(u) && b.windowed(v));
        assert(lru::ahead(b.swa, u, v) == lru::ahead(a.swa, u, v));
    }
}

proof fn lemma_dropped(st: SWAState, x: NodeId)
    requires
        ordered(st),
        st.live(x),
        st.nodes[x as int].full_lock == 0,
    ensures
        ordered(st.dropped(x)),
        some_went(st, st.dropped(x)),
        forall|y: NodeId| y != x ==> #[trigger] st.dropped(x).live(y) == st.live(y),
        forall|y: NodeId| y != x ==> #[trigger] st.dropped(x).windowed(y) == st.windowed(y),
        !st.dropped(x).live(x),
        forall|y: NodeId| y != x && st.shape.is_leaf(y) ==> #[trigger] st.dropped(x).shape.is_leaf(y),
        forall|y: NodeId| st.nodes[x as int].tombstone && #[trigger] st.windowed(y) ==> st.dropped(x).windowed(y),
{
    let a = st.dropped(x);
    assert(st.full.contains(x));
    assert(st.full[st.full.index_of(x)] == x);
    lru::lemma_remove(st.full, st.full.index_of(x));
    if !st.nodes[x as int].tombstone {
        assert(st.windowed(x));
        assert(st.swa.contains(x));
        assert(st.swa[st.swa.index_of(x)] == x);
        lru::lemma_remove(st.swa, st.swa.index_of(x));
    }
    assert forall|y: NodeId| y != x implies #[trigger] a.live(y) == st.live(y) by {}
    assert forall|id: NodeId| #[trigger] a.full.contains(id) <==> a.live(id) by {
        assert(st.full.contains(id) <==> st.live(id));
    }
    assert forall|id: NodeId| #[trigger] a.swa.contains(id) <==> a.windowed(id) by {
        assert(st.swa.contains(id) <==> st.windowed(id));
    }
    assert forall|u: NodeId, v: NodeId|
        #![trigger lru::ahead(a.full, u, v)]
        a.live(u) && a.live(v) implies lru::ahead(a.full, u, v) == lru::ahead(st.full, u, v) by {
        lru::law_removal_keeps_order(st.full, x, u, v);
    }
    assert forall|u: NodeId, v: NodeId|
        #![trigger lru::ahead(a.swa, u, v)]
        a.windowed(u) && a.windowed(v) implies lru::ahead(a.swa, u, v) == lru::ahead(st.swa, u, v) by {
        if !st.nodes[x as int].tombstone {
            lru::law_removal_keeps_order(st.swa, x, u, v);
        }
    }
    assert forall|y: NodeId| y != x && st.shape.is_leaf(y) implies #[trigger] a.shape.is_leaf(y) by {
        assert forall|c: NodeId| !#[trigger] a.shape.is_child(y, c) by {
            if a.shape.is_child(y, c) {
                assert(st.shape.is_child(y, c));
            }
        }
    }
}

proof fn lemma_cascade(st: SWAState, p: NodeId, out: Freed)
    requires
        ordered(st),
    ensures
        ({
            let a = st.cascade(p, out).0;
            &&& ordered(a)
            &&& some_went(st, a)
            &&& forall|y: NodeId| st.live(y) && st.shape.is_leaf(y) && y != p ==> #[trigger] a.live(y) && a.shape.is_leaf(y)
            &&& forall|y: NodeId| #[trigger] a.windowed(y) == st.windowed(y)
        }),
    decreases st.live_count(),
{
    if st.orphaned(p) {
        swa_model::lemma_drop_counts(st, p);
        lemma_dropped(st, p);
        let b = st.dropped(p);
        let q = st.shape.nodes[p as int].parent;
        let o = Freed { full: out.full.push(st.run(p)), ..out };
        lemma_cascade(b, q, o);
        let a = b.cascade(q, o).0;
        assert forall|y: NodeId| #[trigger] b.windowed(y) == st.windowed(y) by {}
        assert forall|y: NodeId| #[trigger] a.windowed(y) == st.windowed(y) by {
            assert(a.windowed(y) == b.windowed(y));
        }
        lemma_went_twice(st, b, a);
        assert forall|y: NodeId| st.live(y) && st.shape.is_leaf(y) && y != p implies #[trigger] a.live(y)
            && a.shape.is_leaf(y) by {
            assert(b.live(y) && b.shape.is_leaf(y));
            if y == q {
                assert(st.shape.is_child(q, p));
            }
        }
    }
}

proof fn lemma_ordered(st: SWAState)
    requires
        st.wf(),
    ensures
        ordered(st),
{
    assert forall|id: NodeId| #[trigger] st.live(id) implies st.shape.nodes[id as int].attached by {
        assert(st.node_ok(id as int));
    }
}

/// The last free leaf of an order.
proof fn lemma_lru_leaf(st: SWAState, order: Seq<NodeId>)
    requires
        order.no_duplicates(),
    ensures
        st.lru_leaf(order) matches Some(x) ==> {
            &&& order.contains(x)
            &&& st.nodes[x as int].full_lock == 0
            &&& st.shape.is_leaf(x)
            &&& forall|y: NodeId|
                #![trigger order.contains(y)]
                order.contains(y) && st.nodes[y as int].full_lock == 0 && st.shape.is_leaf(y) && y != x ==> lru::ahead(
                    order,
                    y,
                    x,
                )
        },
    decreases order.len(),
{
    if order.len() > 0 {
        let front = order.drop_last();
        let z = order.last();
        let n = order.len() - 1;
        lemma_lru_leaf(st, front);
        assert(order[n] == z);
        if let Some(x) = st.lru_leaf(order) {
            if x == z && st.nodes[z as int].full_lock == 0 && st.shape.is_leaf(z) {
                assert forall|y: NodeId| #![trigger order.contains(y)] order.contains(y) && y != x implies lru::ahead(
                    order,
                    y,
                    x,
                ) by {
                    assert(order[order.index_of(y)] == y && order[n] == x);
                }
            } else {
                assert(order[front.index_of(x)] == x);
                assert forall|y: NodeId|
                    #![trigger order.contains(y)]
                    order.contains(y) && st.nodes[y as int].full_lock == 0 && st.shape.is_leaf(y) && y
                        != x implies lru::ahead(order, y, x) by {
                    let i = order.index_of(y);
                    assert(i < n);
                    assert(front[i] == y);
                    assert(front.contains(y));
                    assert(lru::ahead(front, y, x));
                    let (a, b) = choose|a: int, b: int|
                        0 <= a < b < front.len() && #[trigger] front[a] == y && #[trigger] front[b] == x;
                    assert(order[a] == y && order[b] == x);
                }
            }
        }
    }
}

/// The last node of an order whose window slots nothing locks.
proof fn lemma_lru_unlocked(st: SWAState, order: Seq<NodeId>)
    requires
        order.no_duplicates(),
    ensures
        st.lru_unlocked(order) matches Some(x) ==> {
            &&& order.contains(x)
            &&& st.nodes[x as int].swa_lock == 0
            &&& forall|y: NodeId|
                #![trigger order.contains(y)]
                order.contains(y) && st.nodes[y as int].swa_lock == 0 && y != x ==> lru::ahead(order, y, x)
        },
    decreases order.len(),
{
    if order.len() > 0 {
        let front = order.drop_last();
        let z = order.last();
        let n = order.len() - 1;
        lemma_lru_unlocked(st, front);
        assert(order[n] == z);
        if let Some(x) = st.lru_unlocked(order) {
            if x == z && st.nodes[z as int].swa_lock == 0 {
                assert forall|y: NodeId| #![trigger order.contains(y)] order.contains(y) && y != x implies lru::ahead(
                    order,
                    y,
                    x,
                ) by {
                    assert(order[order.index_of(y)] == y && order[n] == x);
                }
            } else {
                assert(order[front.index_of(x)] == x);
                assert forall|y: NodeId|
                    #![trigger order.contains(y)]
                    order.contains(y) && st.nodes[y as int].swa_lock == 0 && y != x implies lru::ahead(order, y, x) by {
                    let i = order.index_of(y);
                    assert(i < n);
                    assert(front[i] == y);
                    assert(front.contains(y));
                    assert(lru::ahead(front, y, x));
                    let (a, b) = choose|a: int, b: int|
                        0 <= a < b < front.len() && #[trigger] front[a] == y && #[trigger] front[b] == x;
                    assert(order[a] == y && order[b] == x);
                }
            }
        }
    }
}

/// A leaf goes, and with it what it leaves without use.
proof fn lemma_leaf_went(st: SWAState, x: NodeId, t: Tally)
    requires
        ordered(st),
        free_leaf(st, x),
    ensures
        ({
            let a = st.evict_leaf(x, t).0;
            &&& ordered(a)
            &&& some_went(st, a)
            &&& !a.live(x)
            &&& forall|y: NodeId| #[trigger] free_leaf(st, y) && y != x ==> free_leaf(a, y)
            &&& forall|y: NodeId| y != x ==> #[trigger] a.windowed(y) == st.windowed(y)
        }),
{
    let b = st.dropped(x);
    let p = st.shape.nodes[x as int].parent;
    let a = st.evict_leaf(x, t).0;
    let out = if st.nodes[x as int].tombstone {
        Freed { full: t.out.full.push(st.run(x)), ..t.out }
    } else {
        Freed { kv: t.out.kv.push(st.run(x)), ..t.out }
    };
    lemma_dropped(st, x);
    lemma_cascade(b, p, out);
    assert(a == b.cascade(p, out).0);
    assert forall|y: NodeId| #[trigger] a.windowed(y) implies b.windowed(y) by {}
    lemma_went_twice(st, b, a);
    assert(!a.live(x)) by {
        if a.live(x) {
            assert(b.live(x));
        }
    }
    assert(st.shape.is_child(p, x));
    assert forall|y: NodeId| #[trigger] free_leaf(st, y) && y != x implies free_leaf(a, y) by {
        assert(st.shape.is_leaf(y));
        assert(b.live(y) && b.shape.is_leaf(y));
        assert(y != p);
        assert(a.live(y) && a.shape.is_leaf(y));
    }
    assert forall|y: NodeId| y != x implies #[trigger] a.windowed(y) == st.windowed(y) by {
        assert(a.windowed(y) == b.windowed(y));
    }
}

/// From `st` to `t` the least recently used of the free leaves went.
pub open spec fn oldest_leaves_went(st: SWAState, t: SWAState) -> bool {
    forall|u: NodeId, v: NodeId|
        #![trigger free_leaf(st, u), free_leaf(st, v)]
        free_leaf(st, u) && free_leaf(st, v) && !t.live(u) && t.live(v) ==> lru::ahead(st.full, v, u)
}

/// From `st` to `t` the least recently used of the free windows went.
pub open spec fn oldest_windows_went(st: SWAState, t: SWAState) -> bool {
    forall|u: NodeId, v: NodeId|
        #![trigger free_window(st, u), free_window(st, v)]
        free_window(st, u) && free_window(st, v) && !t.windowed(u) && t.windowed(v) ==> lru::ahead(st.swa, v, u)
}

proof fn lemma_full_order(st: SWAState, budget: int, tally: Tally)
    requires
        ordered(st),
    ensures
        ({
            let (t, tt) = st.evict_full(budget, tally);
            &&& ordered(t)
            &&& some_went(st, t)
            &&& oldest_leaves_went(st, t)
            &&& tt.swa >= tally.swa
            &&& forall|y: NodeId| #[trigger] t.windowed(y) ==> st.windowed(y)
        }),
    decreases st.live_count(),
{
    lemma_lru_leaf(st, st.full);
    let (t, tt) = st.evict_full(budget, tally);
    if st.lru_leaf(st.full) is Some && tally.full < budget && st.live(st.lru_leaf(st.full)->0) {
        let x = st.lru_leaf(st.full)->0;
        let (a, t1, n) = st.evict_leaf(x, tally);
        let next = Tally { full: t1.full + n, ..t1 };
        assert(free_leaf(st, x));
        lemma_leaf_went(st, x, tally);
        assert(0 <= a.live_count() < st.live_count()) by {
            swa_model::lemma_drop_counts(st, x);
            let out = if st.nodes[x as int].tombstone {
                Freed { full: tally.out.full.push(st.run(x)), ..tally.out }
            } else {
                Freed { kv: tally.out.kv.push(st.run(x)), ..tally.out }
            };
            swa_model::lemma_cascade_counts(st.dropped(x), st.shape.nodes[x as int].parent, out);
        }
        lemma_full_order(a, budget, next);
        assert(t == a.evict_full(budget, next).0);
        assert forall|y: NodeId| #[trigger] a.windowed(y) implies st.windowed(y) by {
            if y == x {
                assert(!a.live(x));
            }
        }
        assert forall|y: NodeId| #[trigger] t.windowed(y) implies a.windowed(y) by {}
        lemma_went_twice(st, a, t);
        assert forall|u: NodeId, v: NodeId|
            #![trigger free_leaf(st, u), free_leaf(st, v)]
            free_leaf(st, u) && free_leaf(st, v) && !t.live(u) && t.live(v) implies lru::ahead(st.full, v, u) by {
            assert(a.live(v));
            assert(v != x);
            if u == x {
                assert(st.full.contains(v));
                assert(st.shape.is_leaf(v));
            } else {
                assert(free_leaf(a, u) && free_leaf(a, v));
                assert(lru::ahead(a.full, v, u));
            }
        }
    }
}

/// An eviction of full slots takes the leaves least recently used: one that
/// goes was used less recently than any free leaf that stays. It takes
/// nothing that a lock holds, and leaves the rest as it was, in its order.
pub proof fn law_swa_evict_full_order(st: SWAState, budget: int)
    requires
        st.wf(),
        !st.disable,
    ensures
        ({
            let t = st.after_evict(budget, 0).0;
            &&& some_went(st, t)
            &&& oldest_leaves_went(st, t)
            &&& budget <= 0 ==> t == st
        }),
{
    let none = Tally { full: 0, swa: 0, out: Freed::none() };
    lemma_ordered(st);
    lemma_full_order(st, budget, none);
    let (a, ta) = st.evict_full(budget, none);
    assert(ta.swa >= 0);
    assert(a.evict_swa(0, ta).0 == a);
}

proof fn lemma_window_order(st: SWAState, budget: int, tally: Tally)
    requires
        ordered(st),
    ensures
        ({
            let t = st.evict_swa(budget, tally).0;
            &&& ordered(t)
            &&& some_went(st, t)
            &&& oldest_windows_went(st, t)
            &&& forall|y: NodeId| #[trigger] t.windowed(y) ==> st.windowed(y)
            &&& forall|y: NodeId| #[trigger] st.windowed(y) && st.nodes[y as int].swa_lock > 0 ==> t.windowed(y)
        }),
    decreases st.swa.len(),
{
    lemma_lru_unlocked(st, st.swa);
    let t = st.evict_swa(budget, tally).0;
    if st.lru_unlocked(st.swa) is Some && tally.swa < budget && st.windowed(st.lru_unlocked(st.swa)->0) {
        let x = st.lru_unlocked(st.swa)->0;
        let (a, t1) = st.evict_swa_step(x, tally);
        swa_model::lemma_evict_swa_step(st, x, tally);
        if !st.shape.is_leaf(x) || st.nodes[x as int].full_lock > 0 {
            lemma_buried(st, x);
        } else {
            assert(free_leaf(st, x));
            lemma_leaf_went(st, x, tally);
            assert(!a.windowed(x)) by {
                assert(!a.live(x));
            }
        }
        assert(!a.windowed(x));
        lemma_window_order(a, budget, t1);
        assert(t == a.evict_swa(budget, t1).0);
        assert forall|y: NodeId| #[trigger] t.windowed(y) implies a.windowed(y) by {}
        lemma_went_twice(st, a, t);
        assert forall|y: NodeId| #[trigger] t.windowed(y) implies st.windowed(y) by {
            assert(a.windowed(y));
            assert(y != x);
        }
        assert forall|y: NodeId| #[trigger] st.windowed(y) && y != x implies a.windowed(y) && a.nodes[y as int].swa_lock
            == st.nodes[y as int].swa_lock by {
            assert(a.windowed(y));
            assert(a.live(y));
        }
        assert forall|u: NodeId, v: NodeId|
            #![trigger free_window(st, u), free_window(st, v)]
            free_window(st, u) && free_window(st, v) && !t.windowed(u) && t.windowed(v) implies lru::ahead(
            st.swa,
            v,
            u,
        ) by {
            assert(a.windowed(v));
            assert(v != x);
            if u == x {
                assert(st.swa.contains(v));
            } else {
                assert(a.windowed(u));
                assert(free_window(a, u) && free_window(a, v));
                assert(lru::ahead(a.swa, v, u));
            }
        }
    }
}

proof fn lemma_buried(st: SWAState, x: NodeId)
    requires
        ordered(st),
        st.windowed(x),
    ensures
        ordered(st.buried(x)),
        some_went(st, st.buried(x)),
        !st.buried(x).windowed(x),
        forall|y: NodeId| y != x ==> #[trigger] st.buried(x).windowed(y) == st.windowed(y),
{
    let a = st.buried(x);
    assert(st.swa.contains(x));
    assert(st.swa[st.swa.index_of(x)] == x);
    lru::lemma_remove(st.swa, st.swa.index_of(x));
    assert forall|y: NodeId| #[trigger] a.live(y) == st.live(y) by {}
    assert forall|y: NodeId| y != x implies #[trigger] a.windowed(y) == st.windowed(y) by {}
    assert forall|id: NodeId| #[trigger] a.full.contains(id) <==> a.live(id) by {
        assert(st.full.contains(id) <==> st.live(id));
    }
    assert forall|id: NodeId| #[trigger] a.swa.contains(id) <==> a.windowed(id) by {
        assert(st.swa.contains(id) <==> st.windowed(id));
    }
    assert forall|u: NodeId, v: NodeId|
        #![trigger lru::ahead(a.swa, u, v)]
        a.windowed(u) && a.windowed(v) implies lru::ahead(a.swa, u, v) == lru::ahead(st.swa, u, v) by {
        lru::law_removal_keeps_order(st.swa, x, u, v);
    }
}

/// An eviction of window slots takes the least recently used: a node that
/// loses its window slots was used less recently than any that might have
/// lost them and keeps them. What a lock holds stays.
pub proof fn law_swa_evict_window_order(st: SWAState, budget: int)
    requires
        st.wf(),
        !st.disable,
    ensures
        ({
            let t = st.after_evict(0, budget).0;
            &&& some_went(st, t)
            &&& oldest_windows_went(st, t)
            &&& forall|y: NodeId| #[trigger] t.windowed(y) ==> st.windowed(y)
            &&& forall|y: NodeId| #[trigger] st.windowed(y) && st.nodes[y as int].swa_lock > 0 ==> t.windowed(y)
            &&& budget <= 0 ==> t == st
        }),
{
    let none = Tally { full: 0, swa: 0, out: Freed::none() };
    lemma_ordered(st);
    assert(st.evict_full(0, none) == (st, none));
    lemma_window_order(st, budget, none);
}

} // verus!
