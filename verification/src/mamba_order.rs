//! What an eviction of the hybrid tree takes: the least recently used
//! of what may go.

use crate::lru;
use crate::mamba_model;
use crate::mamba_model::{MambaFreed, MambaState, MambaTally};
use crate::topo::NodeId;
use vstd::prelude::*;

verus! {

/// Whether `x` is a leaf that nothing locks.
pub open spec fn free_leaf(st: MambaState, x: NodeId) -> bool {
    &&& st.live(x)
    &&& st.nodes[x as int].full_lock == 0
    &&& forall|c: NodeId| !#[trigger] st.shape.is_child(x, c)
}

/// Whether `x` has a state that nothing locks.
pub open spec fn free_state(st: MambaState, x: NodeId) -> bool {
    st.stateful(x) && st.nodes[x as int].mamba_lock == 0
}

/// The two orders name what they should, each node once.
spec fn ordered(st: MambaState) -> bool {
    &&& st.nodes.len() == st.shape.nodes.len()
    &&& forall|id: NodeId| #[trigger] st.live(id) ==> st.shape.nodes[id as int].attached
    &&& st.full.no_duplicates()
    &&& st.mamba.no_duplicates()
    &&& forall|id: NodeId| #[trigger] st.full.contains(id) <==> st.live(id)
    &&& forall|id: NodeId| #[trigger] st.mamba.contains(id) <==> st.stateful(id)
}

/// From `st` to `a` some nodes went; the others are as they were, in the
/// order they were in.
pub open spec fn some_went(st: MambaState, a: MambaState) -> bool {
    &&& a.nodes.len() == st.nodes.len()
    &&& forall|y: NodeId| #[trigger] a.live(y) ==> st.live(y)
    &&& forall|y: NodeId| #[trigger] a.live(y) ==> a.nodes[y as int].value == st.nodes[y as int].value && a.nodes[
        y as int].full_lock == st.nodes[y as int].full_lock && a.nodes[y as int].mamba_lock
        == st.nodes[y as int].mamba_lock
    &&& forall|y: NodeId| st.live(y) && !#[trigger] a.live(y) ==> st.nodes[y as int].full_lock == 0
    &&& forall|u: NodeId, v: NodeId|
        #![trigger lru::ahead(a.full, u, v)]
        a.live(u) && a.live(v) ==> lru::ahead(a.full, u, v) == lru::ahead(st.full, u, v)
    &&& forall|u: NodeId, v: NodeId|
        #![trigger lru::ahead(a.mamba, u, v)]
        a.stateful(u) && a.stateful(v) ==> lru::ahead(a.mamba, u, v) == lru::ahead(st.mamba, u, v)
}

proof fn lemma_went_twice(a: MambaState, b: MambaState, c: MambaState)
    requires
        some_went(a, b),
        some_went(b, c),
        forall|y: NodeId| #[trigger] c.stateful(y) ==> b.stateful(y),
    ensures
        some_went(a, c),
{
    assert forall|y: NodeId| #[trigger] c.live(y) implies a.live(y) && c.nodes[y as int].value
        == a.nodes[y as int].value && c.nodes[y as int].full_lock == a.nodes[y as int].full_lock && c.nodes[
        y as int].mamba_lock == a.nodes[y as int].mamba_lock by {
        assert(b.live(y));
    }
    assert forall|y: NodeId| a.live(y) && !#[trigger] c.live(y) implies a.nodes[y as int].full_lock == 0 by {
        if b.live(y) {
        }
    }
    assert forall|u: NodeId, v: NodeId|
        #![trigger lru::ahead(c.full, u, v)]
        c.live(u) && c.live(v) implies lru::ahead(c.full, u, v) == lru::ahead(a.full, u, v) by {
        assert(b.live(u) && b.live(v));
        assert(lru::ahead(b.full, u, v) == lru::ahead(a.full, u, v));
    }
    assert forall|u: NodeId, v: NodeId|
        #![trigger lru::ahead(c.mamba, u, v)]
        c.stateful(u) && c.stateful(v) implies lru::ahead(c.mamba, u, v) == lru::ahead(a.mamba, u, v) by {
        assert(b.stateful(u) && b.stateful(v));
        assert(lru::ahead(b.mamba, u, v) == lru::ahead(a.mamba, u, v));
    }
}

proof fn lemma_dropped(st: MambaState, x: NodeId)
    requires
        ordered(st),
        st.live(x),
        st.nodes[x as int].full_lock == 0,
    ensures
        ordered(st.dropped(x)),
        some_went(st, st.dropped(x)),
        forall|y: NodeId| y != x ==> #[trigger] st.dropped(x).live(y) == st.live(y),
        forall|y: NodeId| y != x ==> #[trigger] st.dropped(x).stateful(y) == st.stateful(y),
        !st.dropped(x).live(x),
        forall|y: NodeId| y != x && st.shape.is_leaf(y) ==> #[trigger] st.dropped(x).shape.is_leaf(y),
        forall|y: NodeId| st.nodes[x as int].mamba is None && #[trigger] st.stateful(y) ==> st.dropped(x).stateful(y),
{
    let a = st.dropped(x);
    assert(st.full.contains(x));
    assert(st.full[st.full.index_of(x)] == x);
    lru::lemma_remove(st.full, st.full.index_of(x));
    if st.nodes[x as int].mamba is Some {
        assert(st.stateful(x));
        assert(st.mamba.contains(x));
        assert(st.mamba[st.mamba.index_of(x)] == x);
        lru::lemma_remove(st.mamba, st.mamba.index_of(x));
    }
    assert forall|y: NodeId| y != x implies #[trigger] a.live(y) == st.live(y) by {}
    assert forall|id: NodeId| #[trigger] a.full.contains(id) <==> a.live(id) by {
        assert(st.full.contains(id) <==> st.live(id));
    }
    assert forall|id: NodeId| #[trigger] a.mamba.contains(id) <==> a.stateful(id) by {
        assert(st.mamba.contains(id) <==> st.stateful(id));
    }
    assert forall|u: NodeId, v: NodeId|
        #![trigger lru::ahead(a.full, u, v)]
        a.live(u) && a.live(v) implies lru::ahead(a.full, u, v) == lru::ahead(st.full, u, v) by {
        lru::law_removal_keeps_order(st.full, x, u, v);
    }
    assert forall|u: NodeId, v: NodeId|
        #![trigger lru::ahead(a.mamba, u, v)]
        a.stateful(u) && a.stateful(v) implies lru::ahead(a.mamba, u, v) == lru::ahead(st.mamba, u, v) by {
        if st.nodes[x as int].mamba is Some {
            lru::law_removal_keeps_order(st.mamba, x, u, v);
        }
    }
    assert forall|y: NodeId| y != x && st.shape.is_leaf(y) implies #[trigger] a.shape.is_leaf(y) by {
        assert forall|c: NodeId| !#[trigger] a.shape.is_child(y, c) by {
            if a.shape.is_child(y, c) {
                assert(st.shape.is_child(y, c));
            }
        }
    }
}

proof fn lemma_cascade(st: MambaState, p: NodeId, out: MambaFreed)
    requires
        ordered(st),
    ensures
        ({
            let a = st.cascade(p, out).0;
            &&& ordered(a)
            &&& some_went(st, a)
            &&& forall|y: NodeId| st.live(y) && st.shape.is_leaf(y) && y != p ==> #[trigger] a.live(y) && a.shape.is_leaf(y)
            &&& forall|y: NodeId| #[trigger] a.stateful(y) == st.stateful(y)
        }),
    decreases st.live_count(),
{
    if st.orphaned(p) {
        mamba_model::lemma_drop_counts(st, p);
        lemma_dropped(st, p);
        let b = st.dropped(p);
        let q = st.shape.nodes[p as int].parent;
        let o = MambaFreed { kv: out.kv.push((st.run(p), 0)), ..out };
        lemma_cascade(b, q, o);
        let a = b.cascade(q, o).0;
        assert forall|y: NodeId| #[trigger] b.stateful(y) == st.stateful(y) by {}
        assert forall|y: NodeId| #[trigger] a.stateful(y) == st.stateful(y) by {
            assert(a.stateful(y) == b.stateful(y));
        }
        lemma_went_twice(st, b, a);
        assert forall|y: NodeId| st.live(y) && st.shape.is_leaf(y) && y != p implies #[trigger] a.live(y)
            && a.shape.is_leaf(y) by {
            assert(b.live(y) && b.shape.is_leaf(y));
            if y == q {
                assert(st.shape.is_child(q, p));
            }
        }
    }
}

proof fn lemma_ordered(st: MambaState)
    requires
        st.wf(),
    ensures
        ordered(st),
{
    assert forall|id: NodeId| #[trigger] st.live(id) implies st.shape.nodes[id as int].attached by {
        assert(st.node_ok(id as int));
    }
}

/// The last free leaf of an order.
proof fn lemma_lru_leaf(st: MambaState, order: Seq<NodeId>)
    requires
        order.no_duplicates(),
    ensures
        st.lru_leaf(order) matches Some(x) ==> {
            &&& order.contains(x)
            &&& st.nodes[x as int].full_lock == 0
            &&& st.shape.is_leaf(x)
            &&& forall|y: NodeId|
                #![trigger order.contains(y)]
                order.contains(y) && st.nodes[y as int].full_lock == 0 && st.shape.is_leaf(y) && y != x ==> lru::ahead(
                    order,
                    y,
                    x,
                )
        },
    decreases order.len(),
{
    if order.len() > 0 {
        let front = order.drop_last();
        let z = order.last();
        let n = order.len() - 1;
        lemma_lru_leaf(st, front);
        assert(order[n] == z);
        if let Some(x) = st.lru_leaf(order) {
            if x == z && st.nodes[z as int].full_lock == 0 && st.shape.is_leaf(z) {
                assert forall|y: NodeId| #![trigger order.contains(y)] order.contains(y) && y != x implies lru::ahead(
                    order,
                    y,
                    x,
                ) by {
                    assert(order[order.index_of(y)] == y && order[n] == x);
                }
            } else {
                assert(order[front.index_of(x)] == x);
                assert forall|y: NodeId|
                    #![trigger order.contains(y)]
                    order.contains(y) && st.nodes[y as int].full_lock == 0 && st.shape.is_leaf(y) && y
                        != x implies lru::ahead(order, y, x) by {
                    let i = order.index_of(y);
                    assert(i < n);
                    assert(front[i] == y);
                    assert(front.contains(y));
                    assert(lru::ahead(front, y, x));
                    let (a, b) = choose|a: int, b: int|
                        0 <= a < b < front.len() && #[trigger] front[a] == y && #[trigger] front[b] == x;
                    assert(order[a] == y && order[b] == x);
                }
            }
        }
    }
}

/// The last node of an order whose state nothing locks.
proof fn lemma_lru_unlocked(st: MambaState, order: Seq<NodeId>)
    requires
        order.no_duplicates(),
    ensures
        st.lru_unlocked(order) matches Some(x) ==> {
            &&& order.contains(x)
            &&& st.nodes[x as int].mamba_lock == 0
            &&& forall|y: NodeId|
                #![trigger order.contains(y)]
                order.contains(y) && st.nodes[y as int].mamba_lock == 0 && y != x ==> lru::ahead(order, y, x)
        },
    decreases order.len(),
{
    if order.len() > 0 {
        let front = order.drop_last();
        let z = order.last();
        let n = order.len() - 1;
        lemma_lru_unlocked(st, front);
        assert(order[n] == z);
        if let Some(x) = st.lru_unlocked(order) {
            if x == z && st.nodes[z as int].mamba_lock == 0 {
                assert forall|y: NodeId| #![trigger order.contains(y)] order.contains(y) && y != x implies lru::ahead(
                    order,
                    y,
                    x,
                ) by {
                    assert(order[order.index_of(y)] == y && order[n] == x);
                }
            } else {
                assert(order[front.index_of(x)] == x);
                assert forall|y: NodeId|
                    #![trigger order.contains(y)]
                    order.contains(y) && st.nodes[y as int].mamba_lock == 0 && y != x implies lru::ahead(order, y, x) by {
                    let i = order.index_of(y);
                    assert(i < n);
                    assert(front[i] == y);
                    assert(front.contains(y));
                    assert(lru::ahead(front, y, x));
                    let (a, b) = choose|a: int, b: int|
                        0 <= a < b < front.len() && #[trigger] front[a] == y && #[trigger] front[b] == x;
                    assert(order[a] == y && order[b] == x);
                }
            }
        }
    }
}

/// A leaf goes, and with it what it leaves without use.
proof fn lemma_leaf_went(st: MambaState, x: NodeId, t: MambaFreed)
    requires
        ordered(st),
        free_leaf(st, x),
    ensures
        ({
            let a = st.evict_leaf(x, t).0;
            &&& ordered(a)
            &&& some_went(st, a)
            &&& !a.live(x)
            &&& forall|y: NodeId| #[trigger] free_leaf(st, y) && y != x ==> free_leaf(a, y)
            &&& forall|y: NodeId| y != x ==> #[trigger] a.stateful(y) == st.stateful(y)
        }),
{
    let b = st.dropped(x);
    let p = st.shape.nodes[x as int].parent;
    let a = st.evict_leaf(x, t).0;
    let out = MambaFreed {
        kv: t.kv.push((st.run(x), 0)),
        mamba: t.mamba.push(st.nodes[x as int].mamba->0),
    };
    lemma_dropped(st, x);
    lemma_cascade(b, p, out);
    assert(a == b.cascade(p, out).0);
    assert forall|y: NodeId| #[trigger] a.stateful(y) implies b.stateful(y) by {}
    lemma_went_twice(st, b, a);
    assert(!a.live(x)) by {
        if a.live(x) {
            assert(b.live(x));
        }
    }
    assert(st.shape.is_child(p, x));
    assert forall|y: NodeId| #[trigger] free_leaf(st, y) && y != x implies free_leaf(a, y) by {
        assert(st.shape.is_leaf(y));
        assert(b.live(y) && b.shape.is_leaf(y));
        assert(y != p);
        assert(a.live(y) && a.shape.is_leaf(y));
    }
    assert forall|y: NodeId| y != x implies #[trigger] a.stateful(y) == st.stateful(y) by {
        assert(a.stateful(y) == b.stateful(y));
    }
}

/// From `st` to `t` the least recently used of the free leaves went.
pub open spec fn oldest_leaves_went(st: MambaState, t: MambaState) -> bool {
    forall|u: NodeId, v: NodeId|
        #![trigger free_leaf(st, u), free_leaf(st, v)]
        free_leaf(st, u) && free_leaf(st, v) && !t.live(u) && t.live(v) ==> lru::ahead(st.full, v, u)
}

/// From `st` to `t` the least recently used of the free states went.
pub open spec fn oldest_states_went(st: MambaState, t: MambaState) -> bool {
    forall|u: NodeId, v: NodeId|
        #![trigger free_state(st, u), free_state(st, v)]
        free_state(st, u) && free_state(st, v) && !t.stateful(u) && t.stateful(v) ==> lru::ahead(st.mamba, v, u)
}

proof fn lemma_full_order(st: MambaState, budget: int, tally: MambaTally)
    requires
        ordered(st),
    ensures
        ({
            let (t, tt) = st.evict_full(budget, tally);
            &&& ordered(t)
            &&& some_went(st, t)
            &&& oldest_leaves_went(st, t)
            &&& tt.mamba >= tally.mamba
            &&& forall|y: NodeId| #[trigger] t.stateful(y) ==> st.stateful(y)
        }),
    decreases st.live_count(),
{
    lemma_lru_leaf(st, st.full);
    let (t, tt) = st.evict_full(budget, tally);
    if st.lru_leaf(st.full) is Some && tally.full < budget && st.live(st.lru_leaf(st.full)->0) {
        let x = st.lru_leaf(st.full)->0;
        let (a, out, n) = st.evict_leaf(x, tally.out);
        let next = MambaTally { full: tally.full + n, out, ..tally };
        assert(free_leaf(st, x));
        lemma_leaf_went(st, x, tally.out);
        mamba_model::lemma_evict_counts(st, x, tally.out);
        lemma_full_order(a, budget, next);
        assert(t == a.evict_full(budget, next).0);
        assert forall|y: NodeId| #[trigger] a.stateful(y) implies st.stateful(y) by {
            if y == x {
                assert(!a.live(x));
            }
        }
        assert forall|y: NodeId| #[trigger] t.stateful(y) implies a.stateful(y) by {}
        lemma_went_twice(st, a, t);
        assert forall|u: NodeId, v: NodeId|
            #![trigger free_leaf(st, u), free_leaf(st, v)]
            free_leaf(st, u) && free_leaf(st, v) && !t.live(u) && t.live(v) implies lru::ahead(st.full, v, u) by {
            assert(a.live(v));
            assert(v != x);
            if u == x {
                assert(st.full.contains(v));
                assert(st.shape.is_leaf(v));
            } else {
                assert(free_leaf(a, u) && free_leaf(a, v));
                assert(lru::ahead(a.full, v, u));
            }
        }
    }
}

/// An eviction of full slots takes the leaves least recently used: one that
/// goes was used less recently than any free leaf that stays. It takes
/// nothing that a lock holds, and leaves the rest as it was, in its order.
pub proof fn law_mamba_evict_full_order(st: MambaState, budget: int)
    requires
        st.wf(),
        !st.disable,
    ensures
        ({
            let t = st.after_evict(budget, 0).0;
            &&& some_went(st, t)
            &&& oldest_leaves_went(st, t)
            &&& budget <= 0 ==> t == st
        }),
{
    let none = MambaTally { full: 0, mamba: 0, out: MambaFreed::none() };
    lemma_ordered(st);
    lemma_full_order(st, budget, none);
    let (a, ta) = st.evict_full(budget, none);
    assert(ta.mamba >= 0);
    assert(a.evict_mamba(0, ta).0 == a);
}

proof fn lemma_state_order(st: MambaState, budget: int, tally: MambaTally)
    requires
        ordered(st),
        st.mamba_drains(budget, tally),
    ensures
        ({
            let t = st.evict_mamba(budget, tally).0;
            &&& ordered(t)
            &&& some_went(st, t)
            &&& oldest_states_went(st, t)
            &&& forall|y: NodeId| #[trigger] t.stateful(y) ==> st.stateful(y)
            &&& forall|y: NodeId| #[trigger] st.stateful(y) && st.nodes[y as int].mamba_lock > 0 ==> t.stateful(y)
        }),
    decreases st.mamba.len(),
{
    lemma_lru_unlocked(st, st.mamba);
    let t = st.evict_mamba(budget, tally).0;
    if st.lru_unlocked(st.mamba) is Some && tally.mamba < budget && st.stateful(st.lru_unlocked(st.mamba)->0) {
        let x = st.lru_unlocked(st.mamba)->0;
        let (a, t1) = st.evict_mamba_step(x, tally);
        mamba_model::lemma_evict_mamba_step(st, x, tally);
        if !st.shape.is_leaf(x) {
            lemma_buried(st, x);
        } else {
            assert(free_leaf(st, x));
            lemma_leaf_went(st, x, tally.out);
            assert(!a.stateful(x)) by {
                assert(!a.live(x));
            }
        }
        assert(!a.stateful(x));
        lemma_state_order(a, budget, t1);
        assert(t == a.evict_mamba(budget, t1).0);
        assert forall|y: NodeId| #[trigger] t.stateful(y) implies a.stateful(y) by {}
        lemma_went_twice(st, a, t);
        assert forall|y: NodeId| #[trigger] t.stateful(y) implies st.stateful(y) by {
            assert(a.stateful(y));
            assert(y != x);
        }
        assert forall|y: NodeId| #[trigger] st.stateful(y) && y != x implies a.stateful(y) && a.nodes[y as int].mamba_lock
            == st.nodes[y as int].mamba_lock by {
            assert(a.stateful(y));
            assert(a.live(y));
        }
        assert forall|u: NodeId, v: NodeId|
            #![trigger free_state(st, u), free_state(st, v)]
            free_state(st, u) && free_state(st, v) && !t.stateful(u) && t.stateful(v) implies lru::ahead(
            st.mamba,
            v,
            u,
        ) by {
            assert(a.stateful(v));
            assert(v != x);
            if u == x {
                assert(st.mamba.contains(v));
            } else {
                assert(a.stateful(u));
                assert(free_state(a, u) && free_state(a, v));
                assert(lru::ahead(a.mamba, v, u));
            }
        }
    }
}

proof fn lemma_buried(st: MambaState, x: NodeId)
    requires
        ordered(st),
        st.stateful(x),
    ensures
        ordered(st.buried(x)),
        some_went(st, st.buried(x)),
        !st.buried(x).stateful(x),
        forall|y: NodeId| y != x ==> #[trigger] st.buried(x).stateful(y) == st.stateful(y),
{
    let a = st.buried(x);
    assert(st.mamba.contains(x));
    assert(st.mamba[st.mamba.index_of(x)] == x);
    lru::lemma_remove(st.mamba, st.mamba.index_of(x));
    assert forall|y: NodeId| #[trigger] a.live(y) == st.live(y) by {}
    assert forall|y: NodeId| y != x implies #[trigger] a.stateful(y) == st.stateful(y) by {}
    assert forall|id: NodeId| #[trigger] a.full.contains(id) <==> a.live(id) by {
        assert(st.full.contains(id) <==> st.live(id));
    }
    assert forall|id: NodeId| #[trigger] a.mamba.contains(id) <==> a.stateful(id) by {
        assert(st.mamba.contains(id) <==> st.stateful(id));
    }
    assert forall|u: NodeId, v: NodeId|
        #![trigger lru::ahead(a.mamba, u, v)]
        a.stateful(u) && a.stateful(v) implies lru::ahead(a.mamba, u, v) == lru::ahead(st.mamba, u, v) by {
        lru::law_removal_keeps_order(st.mamba, x, u, v);
    }
}

/// An eviction of states takes the least recently used: a node that loses
/// its state was used less recently than any that might have lost its own
/// and keeps it. What a lock holds stays.
pub proof fn law_mamba_evict_state_order(st: MambaState, budget: int)
    requires
        st.wf(),
        !st.disable,
        st.drains(0, budget),
    ensures
        ({
            let t = st.after_evict(0, budget).0;
            &&& some_went(st, t)
            &&& oldest_states_went(st, t)
            &&& forall|y: NodeId| #[trigger] t.stateful(y) ==> st.stateful(y)
            &&& forall|y: NodeId| #[trigger] st.stateful(y) && st.nodes[y as int].mamba_lock > 0 ==> t.stateful(y)
            &&& budget <= 0 ==> t == st
        }),
{
    let none = MambaTally { full: 0, mamba: 0, out: MambaFreed::none() };
    lemma_ordered(st);
    assert(st.evict_full(0, none) == (st, none));
    lemma_state_order(st, budget, none);
}

} // verus!
