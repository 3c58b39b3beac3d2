//! The locks that are out on the plain tree: taken by `inc_lock_ref` and
//! released one by one by `dec_lock_ref`, they reach up to the root, so an
//! eviction can take whatever is not locked.

use crate::holds;
use crate::key::RadixKey;
use crate::policy::EvictionPolicy;
use crate::topo;
use crate::topo::{NodeId, ROOT};
use crate::tree_laws;
use crate::tree_model;
use crate::tree_model::RadixState;
use vstd::prelude::*;

verus! {

/// The locks that are out are those taken at the nodes `out`: the lock count
/// of each node below the root is the number of them that reach it.
pub open spec fn balanced(st: RadixState, out: Seq<NodeId>) -> bool {
    &&& forall|k: int| 0 <= k < out.len() ==> st.live(#[trigger] out[k])
    &&& forall|x: NodeId|
        #![trigger st.live(x)]
        x != ROOT && st.live(x) ==> st.nodes[x as int].lock_ref == holds::holds(st.shape, out, x)
}

/// A new tree has no locks out.
pub proof fn law_fresh_is_balanced(page: nat, is_eagle: bool, disable: bool, policy: EvictionPolicy)
    ensures
        balanced(RadixState::fresh(page, is_eagle, disable, policy), Seq::empty()),
{
}

/// The locks that are out reach up.
pub proof fn law_balanced_reaches_up(st: RadixState, out: Seq<NodeId>)
    requires
        st.wf(),
        balanced(st, out),
    ensures
        tree_laws::locks_reach_up(st),
{
    assert forall|i: int|
        0 < i < st.nodes.len() && st.shape.nodes[i].attached && (#[trigger] st.nodes[i]).lock_ref > 0 implies st.nodes[st.shape.nodes[i].parent as int].lock_ref
        > 0 by {
        let x = i as NodeId;
        let p = st.shape.nodes[i].parent;
        assert(st.node_ok(i));
        assert(st.shape.hangs(i));
        assert(st.live(x));
        if p != ROOT {
            assert(st.node_ok(p as int));
            assert(st.live(p));
            holds::lemma_holds(st.shape, out, x);
            let k = choose|k: int| 0 <= k < out.len() && st.shape.up(#[trigger] out[k]).contains(x);
            assert(st.live(out[k]));
            let up = st.shape.up(out[k]);
            let j = up.index_of(x);
            assert(up[j] == x);
            assert(up.contains(p)) by {
                topo::lemma_up(st.shape, out[k]);
                assert(st.shape.nodes[up[j] as int].parent == p);
                assert(up[j + 1] == p);
            }
            holds::lemma_holds(st.shape, out, p);
        }
    }
}

/// A lock that is taken joins those that are out.
pub proof fn law_lock_joins(st: RadixState, out: Seq<NodeId>, node: NodeId)
    requires
        st.wf(),
        balanced(st, out),
        st.live(node),
        forall|k: int|
            0 <= k < st.shape.up(node).len() ==> st.nodes[(#[trigger] st.shape.up(node)[k]) as int].lock_ref
                < u32::MAX,
    ensures
        balanced(st.locked(st.shape.up(node)), out.push(node)),
{
    let up = st.shape.up(node);
    let t = st.locked(up);
    let all = out.push(node);
    assert(all.drop_last() =~= out);
    assert forall|k: int| 0 <= k < all.len() implies t.live(#[trigger] all[k]) by {
        if k < out.len() {
            assert(st.live(out[k]));
        }
    }
    assert forall|x: NodeId|
        #![trigger t.live(x)]
        x != ROOT && t.live(x) implies t.nodes[x as int].lock_ref == holds::holds(t.shape, all, x) by {
        assert(st.live(x));
        if up.contains(x) {
            let k = up.index_of(x);
            assert(st.nodes[up[k] as int].lock_ref < u32::MAX);
        }
    }
}

/// A lock that is out can be released, and leaves the others.
pub proof fn law_unlock_leaves_the_others(st: RadixState, out: Seq<NodeId>, k: int)
    requires
        st.wf(),
        balanced(st, out),
        0 <= k < out.len(),
    ensures
        forall|j: int|
            0 <= j < st.shape.up(out[k]).len() ==> st.nodes[(#[trigger] st.shape.up(out[k])[j]) as int].lock_ref
                >= 1,
        balanced(st.unlocked(st.shape.up(out[k])), out.remove(k)),
{
    let up = st.shape.up(out[k]);
    let t = st.unlocked(up);
    let rest = out.remove(k);
    assert(st.live(out[k]));
    assert(forall|j: int| 0 <= j < up.len() ==> 0 < (#[trigger] up[j])) by {
        topo::lemma_up(st.shape, out[k]);
    }
    tree_model::lemma_up_live(st, out[k]);
    assert forall|x: NodeId| #[trigger] st.live(x) && up.contains(x) implies st.nodes[x as int].lock_ref >= 1 by {
        assert(0 < up[up.index_of(x)]);
        holds::lemma_holds(st.shape, out, x);
    }
    assert forall|j: int| 0 <= j < up.len() implies st.nodes[(#[trigger] up[j]) as int].lock_ref >= 1 by {
        assert(st.live(up[j]));
        assert(up.contains(up[j]));
    }
    assert forall|j: int| 0 <= j < rest.len() implies t.live(#[trigger] rest[j]) by {
        assert(rest[j] == out[if j < k { j } else { j + 1 }]);
        assert(st.live(rest[j]));
    }
    assert forall|x: NodeId|
        #![trigger t.live(x)]
        x != ROOT && t.live(x) implies t.nodes[x as int].lock_ref == holds::holds(t.shape, rest, x) by {
        assert(st.live(x));
        holds::lemma_without(st.shape, out, k, x);
    }
}

/// What decides the balance is the shape, the locks, and which nodes live.
proof fn lemma_same(a: RadixState, b: RadixState, out: Seq<NodeId>)
    requires
        balanced(a, out),
        b.shape == a.shape,
        b.nodes.len() == a.nodes.len(),
        forall|i: int|
            0 <= i < a.nodes.len() ==> (#[trigger] b.nodes[i]).lock_ref == a.nodes[i].lock_ref && b.nodes[i].value
                == a.nodes[i].value,
    ensures
        balanced(b, out),
{
    assert forall|k: int| 0 <= k < out.len() implies b.live(#[trigger] out[k]) by {
        assert(a.live(out[k]));
        let n = b.nodes[out[k] as int];
    }
    assert forall|x: NodeId|
        #![trigger b.live(x)]
        x != ROOT && b.live(x) implies b.nodes[x as int].lock_ref == holds::holds(b.shape, out, x) by {
        let n = b.nodes[x as int];
        assert(a.live(x));
    }
}

proof fn lemma_cut_kept(st: RadixState, out: Seq<NodeId>, c: NodeId, m: int, now: u64)
    requires
        st.shape.wf(),
        st.nodes.len() == st.shape.nodes.len(),
        balanced(st, out),
        0 < c < st.nodes.len() < NodeId::MAX,
        st.live(c),
        st.shape.nodes[c as int].attached,
        0 < m < st.shape.nodes[c as int].key.len(),
        st.shape.aligned(m),
    ensures
        balanced(st.cut(c, m, now), out),
{
    let t = st.cut(c, m, now);
    let f = st.nodes.len() as NodeId;
    topo::lemma_split_wf(st.shape, c, m);
    assert forall|k: int| 0 <= k < out.len() implies t.live(#[trigger] out[k]) by {
        assert(st.live(out[k]));
    }
    assert forall|x: NodeId|
        #![trigger t.live(x)]
        x != ROOT && t.live(x) implies t.nodes[x as int].lock_ref == holds::holds(t.shape, out, x) by {
        let y = if x == f { c } else { x };
        assert(st.live(y));
        assert forall|k: int| 0 <= k < out.len() implies st.shape.up(#[trigger] out[k]).contains(y)
            == t.shape.up(out[k]).contains(x) by {
            assert(st.live(out[k]));
            holds::lemma_up_cut(st.shape, c, m, out[k], x);
        }
        holds::lemma_holds_same(st.shape, t.shape, out, y, x);
    }
}

/// A match keeps the locks that are out.
pub proof fn law_match_keeps_locks(st: RadixState, out: Seq<NodeId>, key: RadixKey)
    requires
        st.wf(),
        st.roomy(),
        balanced(st, out),
    ensures
        balanced(st.after_match(key).0, out),
{
    if !(st.disable || st.flat(key).len() == 0) {
        let now = (st.clock + 1) as u64;
        let w = st.walk(key);
        let names = crate::ns::interned(st.names, key.namespace()).0;
        let a = RadixState { names, clock: now, ..st.visited(w.chain, now) };
        lemma_same(st, a, out);
        if let Some((c, m)) = w.stop {
            assert(0 < c < st.nodes.len() && st.live(c) && st.shape.nodes[c as int].attached && 0 < m
                < st.shape.nodes[c as int].key.len() && st.shape.aligned(m as int)) by {
                tree_model::lemma_query(st, key);
            }
            let b = a.stamped(c, now);
            lemma_same(a, b, out);
            lemma_cut_kept(b, out, c, m as int, (now + 1) as u64);
        }
    }
}

proof fn lemma_insert_walk_kept(st: RadixState, out: Seq<NodeId>, key: RadixKey, priority: i32, chunked: bool)
    requires
        st.wf(),
        st.roomy(),
        balanced(st, out),
    ensures
        balanced(st.after_insert_walk(key, priority, chunked).0, out),
{
    let now = (st.clock + 1) as u64;
    let w = st.walk(key);
    let names = crate::ns::interned(st.names, key.namespace()).0;
    let a = RadixState { names, clock: now, ..st.passed(w.chain, now, priority, chunked) };
    lemma_same(st, a, out);
    if let Some((c, m)) = w.stop {
        assert(0 < c < st.nodes.len() && st.live(c) && st.shape.nodes[c as int].attached && 0 < m
            < st.shape.nodes[c as int].key.len() && st.shape.aligned(m as int)) by {
            tree_model::lemma_query(st, key);
        }
        let b = a.stamped(c, now);
        lemma_same(a, b, out);
        assert(b.live(c)) by {
            assert(st.live(c));
        }
        let d = b.cut(c, m as int, (now + 1) as u64);
        lemma_cut_kept(b, out, c, m as int, (now + 1) as u64);
        let f = st.nodes.len() as NodeId;
        lemma_same(d, d.struck(f, d.nodes[f as int].last_access, priority, chunked), out);
    }
}

/// An insert keeps the locks that are out.
pub proof fn law_insert_keeps_locks(
    st: RadixState,
    out: Seq<NodeId>,
    key: RadixKey,
    value: Seq<i64>,
    priority: i32,
    chunked: bool,
)
    requires
        st.wf(),
        st.roomy(),
        balanced(st, out),
    ensures
        balanced(st.after_insert(key, value, priority, chunked).0, out),
{
    let flat = st.flat(key);
    if !(st.disable || flat.len() == 0) {
        let w = st.walk(key);
        let (a, p) = st.after_insert_walk(key, priority, chunked);
        let t = st.after_insert(key, value, priority, chunked).0;
        lemma_insert_walk_kept(st, out, key, priority, chunked);
        tree_model::lemma_insert_walk(st, key, priority, chunked);
        if w.used < flat.len() {
            let f = a.nodes.len() as NodeId;
            assert forall|k: int| 0 <= k < out.len() implies t.live(#[trigger] out[k]) && a.live(out[k])
                && t.shape.up(out[k]) == a.shape.up(out[k]) && !a.shape.up(out[k]).contains(f) by {
                assert(a.live(out[k]));
                holds::lemma_up_same(a.shape, t.shape, out[k]);
                tree_model::lemma_up_live(a, out[k]);
                if a.shape.up(out[k]).contains(f) {
                    assert(a.live(a.shape.up(out[k])[a.shape.up(out[k]).index_of(f)]));
                }
            }
            assert forall|x: NodeId|
                #![trigger t.live(x)]
                x != ROOT && t.live(x) implies t.nodes[x as int].lock_ref == holds::holds(t.shape, out, x) by {
                holds::lemma_holds_same(a.shape, t.shape, out, x, x);
                if x == f {
                    holds::lemma_holds(t.shape, out, x);
                } else {
                    assert(a.live(x));
                }
            }
        }
    }
}

/// An eviction keeps the locks that are out.
pub proof fn law_evict_keeps_locks(st: RadixState, out: Seq<NodeId>, budget: int)
    requires
        st.wf(),
        balanced(st, out),
    ensures
        balanced(st.after_evict(budget).0, out),
    decreases st.live_count(),
{
    let x = st.victim();
    if budget > 0 && st.leaves_first(x) {
        let a = st.dropped(x);
        assert(st.leaf(x));
        assert(st.live(x));
        tree_model::lemma_drop_counts(st, x);
        tree_model::lemma_dropped(st, x);
        assert forall|k: int| 0 <= k < out.len() implies a.live(#[trigger] out[k]) && a.shape.up(out[k])
            == st.shape.up(out[k]) by {
            assert(st.live(out[k]));
            holds::lemma_holds(st.shape, out, x);
            if out[k] == x {
                topo::lemma_up(st.shape, x);
                assert(st.shape.up(x)[0] == x);
                assert(st.shape.up(out[k]).contains(x));
            }
            holds::lemma_up_same(st.shape, a.shape, out[k]);
        }
        assert forall|y: NodeId|
            #![trigger a.live(y)]
            y != ROOT && a.live(y) implies a.nodes[y as int].lock_ref == holds::holds(a.shape, out, y) by {
            assert(st.live(y));
            holds::lemma_holds_same(st.shape, a.shape, out, y, y);
        }
        law_evict_keeps_locks(a, out, budget - st.nodes[x as int].value->0.len());
    }
}

/// While all locks that are out were taken by locking nodes of the tree, an
/// eviction that falls short of its budget has taken every unlocked token.
pub proof fn law_balanced_drains(st: RadixState, out: Seq<NodeId>, budget: int)
    requires
        st.wf(),
        balanced(st, out),
    ensures
        ({
            let (t, gone) = st.after_evict(budget);
            tree_model::run_total(gone) < budget ==> t.evictable() == 0 && tree_model::run_total(gone)
                == st.evictable()
        }),
{
    law_balanced_reaches_up(st, out);
    tree_laws::law_evict_drains(st, budget);
}

} // verus!
