//! The locks that are out on the hybrid tree: taken at nodes with a state
//! and released one by one, they keep the tree ready for an eviction.

use crate::holds;
use crate::key::RadixKey;
use crate::mamba_laws;
use crate::mamba_model;
use crate::mamba_model::{MambaFreed, MambaState, MambaTally};
use crate::query;
use crate::topo;
use crate::topo::NodeId;
use vstd::prelude::*;

verus! {

/// The lock counts of `x` are those of the locks taken at `out`.
pub open spec fn settled(st: MambaState, out: Seq<NodeId>, x: NodeId) -> bool {
    &&& st.nodes[x as int].full_lock == holds::holds(st.shape, out, x)
    &&& st.nodes[x as int].mamba_lock == holds::times(out, x)
}

/// The locks that are out are those taken at the nodes `out`, all of which
/// have a state; every leaf that none of them reaches has one too.
pub open spec fn balanced(st: MambaState, out: Seq<NodeId>) -> bool {
    &&& forall|k: int| 0 <= k < out.len() ==> st.stateful(#[trigger] out[k])
    &&& forall|x: NodeId| #[trigger] st.live(x) ==> settled(st, out, x)
    &&& forall|x: NodeId|
        #![trigger st.live(x)]
        st.live(x) && st.shape.is_leaf(x) && st.nodes[x as int].full_lock == 0 ==> st.nodes[x as int].mamba
            is Some
}

/// A leaf is reached by no lock but its own.
proof fn lemma_leaf_reach(st: MambaState, h: NodeId, x: NodeId)
    requires
        st.wf(),
        st.live(h),
        st.shape.up(h).contains(x),
    ensures
        st.live(x),
        x == h || exists|c: NodeId| #[trigger] st.shape.is_child(x, c) && st.shape.up(h).contains(c),
{
    let up = st.shape.up(h);
    mamba_model::lemma_up_live(st, h);
    let j = up.index_of(x);
    assert(up[j] == x);
    if x != h {
        let c = up[j - 1];
        assert(up.contains(c));
        assert(st.live(c));
        assert(st.node_ok(c as int));
        assert(st.shape.nodes[c as int].parent == x) by {
            topo::lemma_up(st.shape, h);
        }
        assert(st.shape.is_child(x, c));
    }
}

/// A new tree has no locks out.
pub proof fn law_fresh_is_balanced(page: nat, is_eagle: bool, disable: bool, grain: nat)
    ensures
        balanced(MambaState::fresh(page, is_eagle, disable, grain), Seq::empty()),
{
}

/// While the locks that are out were taken at nodes with a state, the tree
/// is ready for an eviction.
pub proof fn law_balanced_is_ready(st: MambaState, out: Seq<NodeId>)
    requires
        st.wf(),
        balanced(st, out),
    ensures
        st.evict_ready(),
{
    assert forall|x: NodeId|
        #![trigger st.stateful(x)]
        st.stateful(x) && st.nodes[x as int].full_lock > 0 && st.nodes[x as int].mamba_lock == 0 implies st.has_locked_child(x) by {
        assert(st.live(x));
        holds::lemma_holds(st.shape, out, x);
        holds::lemma_times(out, x);
        let k = choose|k: int| 0 <= k < out.len() && st.shape.up(#[trigger] out[k]).contains(x);
        assert(st.stateful(out[k]));
        assert(out.contains(out[k]));
        lemma_leaf_reach(st, out[k], x);
        let c = choose|c: NodeId| #[trigger] st.shape.is_child(x, c) && st.shape.up(out[k]).contains(c);
        assert(st.node_ok(c as int));
        assert(st.live(c));
        holds::lemma_holds(st.shape, out, c);
    }
}

/// A lock taken at a node with a state joins those that are out.
pub proof fn law_lock_joins(st: MambaState, out: Seq<NodeId>, node: NodeId)
    requires
        st.wf(),
        balanced(st, out),
        st.stateful(node),
        forall|k: int|
            0 <= k < st.shape.up(node).len() ==> st.nodes[(#[trigger] st.shape.up(node)[k]) as int].full_lock
                < u32::MAX,
    ensures
        balanced(st.locked(node), out.push(node)),
{
    let up = st.shape.up(node);
    let t = st.locked(node);
    let all = out.push(node);
    assert(all.drop_last() =~= out);
    mamba_model::lemma_up_live(st, node);
    assert(st.node_ok(node as int));
    assert(up[0] == node);
    assert(up.contains(node));
    assert forall|i: int| 0 <= i < st.nodes.len() && up.contains(i as NodeId) implies st.nodes[i].full_lock
        < u32::MAX by {
        let k = up.index_of(i as NodeId);
        assert(st.nodes[up[k] as int].full_lock < u32::MAX);
    }
    assert forall|k: int| 0 <= k < all.len() implies t.stateful(#[trigger] all[k]) by {
        if k < out.len() {
            assert(all[k] == out[k]);
            assert(st.stateful(out[k]));
        }
    }
    assert forall|x: NodeId| #[trigger] t.live(x) implies settled(t, all, x) by {
        assert(st.live(x));
        assert(settled(st, out, x));
        assert(st.node_ok(x as int));
    }
    assert forall|x: NodeId|
        #![trigger t.live(x)]
        t.live(x) && t.shape.is_leaf(x) && t.nodes[x as int].full_lock == 0 implies t.nodes[x as int].mamba is Some by {
        assert(st.live(x));
    }
}

/// A lock that is out can be released, and leaves the others.
pub proof fn law_unlock_leaves_the_others(st: MambaState, out: Seq<NodeId>, k: int)
    requires
        st.wf(),
        balanced(st, out),
        0 <= k < out.len(),
    ensures
        forall|j: int|
            0 <= j < st.shape.up(out[k]).len() ==> st.nodes[(#[trigger] st.shape.up(out[k])[j]) as int].full_lock
                > 0,
        st.nodes[out[k] as int].mamba_lock > 0,
        balanced(st.unlocked(out[k]), out.remove(k)),
{
    let node = out[k];
    let up = st.shape.up(node);
    let t = st.unlocked(node);
    let rest = out.remove(k);
    assert(st.stateful(node));
    mamba_model::lemma_up_live(st, node);
    holds::lemma_times(out, node);
    assert(out.contains(node));
    assert(settled(st, out, node));
    assert forall|x: NodeId| #[trigger] st.live(x) && up.contains(x) implies st.nodes[x as int].full_lock > 0 by {
        assert(settled(st, out, x));
        holds::lemma_holds(st.shape, out, x);
    }
    assert forall|j: int| 0 <= j < up.len() implies st.nodes[(#[trigger] up[j]) as int].full_lock > 0 by {
        assert(st.live(up[j]));
        assert(up.contains(up[j]));
    }
    assert forall|j: int| 0 <= j < rest.len() implies t.stateful(#[trigger] rest[j]) by {
        assert(rest[j] == out[if j < k { j } else { j + 1 }]);
        assert(st.stateful(rest[j]));
    }
    assert forall|x: NodeId| #[trigger] t.live(x) implies settled(t, rest, x) by {
        assert(st.live(x));
        assert(settled(st, out, x));
        holds::lemma_without(st.shape, out, k, x);
    }
    assert forall|x: NodeId|
        #![trigger t.live(x)]
        t.live(x) && t.shape.is_leaf(x) && t.nodes[x as int].full_lock == 0 implies t.nodes[x as int].mamba is Some by {
        assert(st.live(x));
        if up.contains(x) {
            lemma_leaf_reach(st, node, x);
        }
    }
}

/// What decides the balance is the shape and the contents of the nodes.
proof fn lemma_same(a: MambaState, b: MambaState, out: Seq<NodeId>)
    requires
        balanced(a, out),
        b.shape == a.shape,
        b.nodes == a.nodes,
    ensures
        balanced(b, out),
{
    assert forall|k: int| 0 <= k < out.len() implies b.stateful(#[trigger] out[k]) by {
        assert(a.stateful(out[k]));
    }
    assert forall|x: NodeId| #[trigger] b.live(x) implies settled(b, out, x) by {
        assert(a.live(x));
    }
    assert forall|x: NodeId|
        #![trigger b.live(x)]
        b.live(x) && b.shape.is_leaf(x) && b.nodes[x as int].full_lock == 0 implies b.nodes[x as int].mamba is Some by {
        assert(a.live(x));
    }
}

proof fn lemma_cut_kept(st: MambaState, out: Seq<NodeId>, c: NodeId, m: int)
    requires
        st.wf(),
        balanced(st, out),
        st.live(c),
        st.nodes.len() < NodeId::MAX,
        0 < m < st.shape.nodes[c as int].key.len(),
        st.shape.aligned(m),
    ensures
        balanced(st.cut(c, m), out),
{
    let t = st.cut(c, m);
    let f = st.nodes.len() as NodeId;
    mamba_model::lemma_cut(st, c, m);
    assert forall|k: int| 0 <= k < out.len() implies t.stateful(#[trigger] out[k]) by {
        assert(st.stateful(out[k]));
    }
    assert forall|x: NodeId| #[trigger] t.live(x) implies settled(t, out, x) by {
        let y = if x == f { c } else { x };
        assert(st.live(y));
        assert(settled(st, out, y));
        assert forall|k: int| 0 <= k < out.len() implies st.shape.up(#[trigger] out[k]).contains(y)
            == t.shape.up(out[k]).contains(x) by {
            assert(st.stateful(out[k]));
            holds::lemma_up_cut(st.shape, c, m, out[k], x);
        }
        holds::lemma_holds_same(st.shape, t.shape, out, y, x);
        if x == f {
            holds::lemma_times(out, f);
            if out.contains(f) {
                assert(st.stateful(out[out.index_of(f)]));
            }
        }
    }
    assert forall|x: NodeId|
        #![trigger t.live(x)]
        t.live(x) && t.shape.is_leaf(x) && t.nodes[x as int].full_lock == 0 implies t.nodes[x as int].mamba is Some by {
        assert(t.shape.is_child(f, c));
        assert(x != f);
        assert(st.live(x));
        assert(st.shape.is_leaf(x)) by {
            assert forall|d: NodeId| !(#[trigger] st.shape.is_child(x, d)) by {
                if st.shape.is_child(x, d) {
                    if d == c {
                        assert(t.shape.is_child(x, f));
                    } else {
                        assert(t.shape.is_child(x, d));
                    }
                }
            }
        }
    }
}

/// `t` comes of `st` by new nodes, lost nodes and states that come and go:
/// the locks and the ways up are as they were.
pub open spec fn reworked(st: MambaState, t: MambaState, i: int) -> bool {
    &&& t.shape.nodes[i].parent == st.shape.nodes[i].parent
    &&& t.shape.nodes[i].path == st.shape.nodes[i].path
    &&& t.nodes[i].full_lock == st.nodes[i].full_lock
    &&& t.nodes[i].mamba_lock == st.nodes[i].mamba_lock
    &&& t.nodes[i].value is Some ==> st.nodes[i].value is Some
}

proof fn lemma_reworked(st: MambaState, t: MambaState, out: Seq<NodeId>)
    requires
        st.wf(),
        balanced(st, out),
        t.shape.nodes.len() == t.nodes.len(),
        st.nodes.len() <= t.nodes.len(),
        forall|i: int| #![trigger t.nodes[i]] 0 <= i < st.nodes.len() ==> reworked(st, t, i),
        forall|i: int|
            #![trigger t.nodes[i]]
            st.nodes.len() <= i < t.nodes.len() ==> t.nodes[i].full_lock == 0 && t.nodes[i].mamba_lock == 0,
        forall|k: int| 0 <= k < out.len() ==> t.stateful(#[trigger] out[k]),
        forall|x: NodeId|
            #![trigger t.live(x)]
            t.live(x) && t.shape.is_leaf(x) && t.nodes[x as int].full_lock == 0 ==> t.nodes[x as int].mamba
                is Some,
    ensures
        balanced(t, out),
{
    assert forall|i: int| #![trigger t.shape.nodes[i]] 0 <= i < st.nodes.len() implies t.shape.nodes[i].parent
        == st.shape.nodes[i].parent && t.shape.nodes[i].path == st.shape.nodes[i].path by {
        let n = t.nodes[i];
    }
    assert forall|x: NodeId| #[trigger] t.live(x) implies settled(t, out, x) by {
        let n = t.nodes[x as int];
        assert forall|k: int| 0 <= k < out.len() implies st.shape.up(#[trigger] out[k]).contains(x)
            == t.shape.up(out[k]).contains(x) by {
            assert(st.stateful(out[k]));
            holds::lemma_up_same(st.shape, t.shape, out[k]);
        }
        holds::lemma_holds_same(st.shape, t.shape, out, x, x);
        if x < st.nodes.len() {
            assert(st.live(x));
            assert(settled(st, out, x));
        } else {
            holds::lemma_holds(st.shape, out, x);
            holds::lemma_times(out, x);
            assert forall|k: int| 0 <= k < out.len() implies out[k] != x && !st.shape.up(#[trigger] out[k]).contains(x) by {
                assert(st.stateful(out[k]));
                mamba_model::lemma_up_live(st, out[k]);
                if st.shape.up(out[k]).contains(x) {
                    let j = st.shape.up(out[k]).index_of(x);
                    assert(st.live(st.shape.up(out[k])[j]));
                }
            }
        }
    }
}

proof fn lemma_walk_kept(st: MambaState, out: Seq<NodeId>, key: RadixKey)
    requires
        st.wf(),
        balanced(st, out),
        st.nodes.len() < NodeId::MAX,
        st.names.len() < u32::MAX,
    ensures
        balanced(st.after_walk(key).0, out),
{
    let f = st.frame();
    let w = f.walk(key);
    let base = MambaState { names: f.names_with(key), ..st };
    crate::ns::law_namespaces_are_stable(st.names, key.namespace(), key.namespace());
    mamba_model::lemma_reordered(st, base);
    lemma_same(st, base, out);
    if let Some((c, m)) = w.stop {
        assert(st.shape.is_child(topo::end_of(w.chain), c) && 0 < m < st.shape.nodes[c as int].key.len()
            && st.shape.aligned(m as int)) by {
            query::lemma_query(f, key);
        }
        assert(base.node_ok(c as int));
        lemma_cut_kept(base, out, c, m as int);
    }
}

/// A match keeps the locks that are out.
pub proof fn law_match_keeps_locks(st: MambaState, out: Seq<NodeId>, key: RadixKey)
    requires
        st.wf(),
        balanced(st, out),
        st.nodes.len() < NodeId::MAX,
        st.names.len() < u32::MAX,
    ensures
        balanced(st.after_match(key).0, out),
{
    if !(st.disable || st.frame().flat(key).len() == 0) {
        lemma_walk_kept(st, out, key);
        let (a, visited) = st.after_walk(key);
        lemma_same(a, a.refreshed(a.best(visited).1), out);
    }
}

/// An insert keeps the locks that are out.
pub proof fn law_insert_keeps_locks(
    st: MambaState,
    out: Seq<NodeId>,
    key: RadixKey,
    value: Seq<i64>,
    mamba: Seq<i64>,
    prev: int,
)
    requires
        st.wf(),
        balanced(st, out),
        st.nodes.len() + 2 <= NodeId::MAX,
        st.names.len() < u32::MAX,
    ensures
        balanced(st.after_insert(key, value, mamba, prev).0, out),
{
    let f = st.frame();
    let w = f.walk(key);
    let flat = f.flat(key);
    if !st.disable && flat.len() > 0 {
        let val = value.take(f.units(key));
        let (t, kv, node, had_state) = st.after_insert(key, value, mamba, prev);
        let (a, ids) = st.after_walk(key);
        let (b, kvb, p) = st.after_insert_walk(key, val, prev);
        mamba_laws::lemma_visited(st, key);
        mamba_laws::lemma_passed_all(MambaState { names: f.names_with(key), ..st }, w.chain);
        assert(b.nodes =~= a.nodes);
        assert(b.shape == a.shape);
        lemma_walk_kept(st, out, key);
        assert forall|k: int| 0 <= k < out.len() implies t.stateful(#[trigger] out[k]) by {
            assert(a.stateful(out[k]));
        }
        assert forall|i: int| #![trigger t.nodes[i]] 0 <= i < a.nodes.len() implies reworked(a, t, i) by {}
        assert forall|x: NodeId|
            #![trigger t.live(x)]
            t.live(x) && t.shape.is_leaf(x) && t.nodes[x as int].full_lock == 0 implies t.nodes[x as int].mamba is Some by {
            if x < a.nodes.len() {
                assert(a.live(x));
                assert(a.shape.is_leaf(x)) by {
                    assert forall|d: NodeId| !(#[trigger] a.shape.is_child(x, d)) by {
                        assert(!t.shape.is_child(x, d));
                    }
                }
            }
        }
        lemma_reworked(a, t, out);
    }
}

/// A run of deletions takes nodes away and nothing else.
proof fn lemma_cascade_reworks(st: MambaState, p: NodeId, out: MambaFreed)
    requires
        st.wf(),
    ensures
        ({
            let t = st.cascade(p, out).0;
            &&& t.nodes.len() == st.nodes.len()
            &&& forall|i: int| #![trigger t.nodes[i]] 0 <= i < st.nodes.len() ==> reworked(st, t, i)
        }),
    decreases st.live_count(),
{
    if st.orphaned(p) {
        let a = st.dropped(p);
        mamba_model::lemma_dropped(st, p);
        let next = MambaFreed { kv: out.kv.push((st.run(p), 0)), ..out };
        lemma_cascade_reworks(a, st.shape.nodes[p as int].parent, next);
        let t = st.cascade(p, out).0;
        assert forall|i: int| #![trigger t.nodes[i]] 0 <= i < st.nodes.len() implies reworked(st, t, i) by {
            assert(reworked(a, t, i));
        }
    }
}

proof fn lemma_leaf_reworks(st: MambaState, x: NodeId, out: MambaFreed)
    requires
        st.wf(),
        st.live(x),
        st.shape.is_leaf(x),
        st.nodes[x as int].full_lock == 0,
    ensures
        ({
            let t = st.evict_leaf(x, out).0;
            &&& t.nodes.len() == st.nodes.len()
            &&& forall|i: int| #![trigger t.nodes[i]] 0 <= i < st.nodes.len() ==> reworked(st, t, i)
        }),
{
    let a = st.dropped(x);
    mamba_model::lemma_dropped(st, x);
    let next = MambaFreed {
        kv: out.kv.push((st.run(x), 0)),
        mamba: out.mamba.push(st.nodes[x as int].mamba->0),
    };
    lemma_cascade_reworks(a, st.shape.nodes[x as int].parent, next);
    let t = st.evict_leaf(x, out).0;
    assert forall|i: int| #![trigger t.nodes[i]] 0 <= i < st.nodes.len() implies reworked(st, t, i) by {
        assert(reworked(a, t, i));
    }
}

proof fn lemma_full_reworks(st: MambaState, budget: int, t: MambaTally)
    requires
        st.wf(),
        st.evict_ready(),
    ensures
        ({
            let b = st.evict_full(budget, t).0;
            &&& b.nodes.len() == st.nodes.len()
            &&& forall|i: int| #![trigger b.nodes[i]] 0 <= i < st.nodes.len() ==> reworked(st, b, i)
        }),
    decreases st.live_count(),
{
    mamba_laws::lemma_lru_leaf(st, st.full);
    if let Some(x) = st.lru_leaf(st.full) {
        assert(st.full.contains(x));
        if t.full < budget {
            let (a, o, n) = st.evict_leaf(x, t.out);
            assert(st.live(x));
            lemma_leaf_reworks(st, x, t.out);
            mamba_model::lemma_evict_leaf(st, x, t.out);
            mamba_model::lemma_evict_counts(st, x, t.out);
            lemma_full_reworks(a, budget, MambaTally { full: t.full + n, out: o, ..t });
            let b = st.evict_full(budget, t).0;
            assert forall|i: int| #![trigger b.nodes[i]] 0 <= i < st.nodes.len() implies reworked(st, b, i) by {
                assert(reworked(a, b, i));
                let k = a.nodes[i];
            }
        }
    }
}

proof fn lemma_mamba_reworks(st: MambaState, budget: int, t: MambaTally)
    requires
        st.wf(),
        st.evict_ready(),
    ensures
        ({
            let b = st.evict_mamba(budget, t).0;
            &&& b.nodes.len() == st.nodes.len()
            &&& forall|i: int| #![trigger b.nodes[i]] 0 <= i < st.nodes.len() ==> reworked(st, b, i)
        }),
    decreases st.mamba.len(),
{
    mamba_laws::lemma_lru_unlocked(st, st.mamba);
    if let Some(x) = st.lru_unlocked(st.mamba) {
        assert(st.mamba.contains(x));
        if t.mamba < budget {
            let (a, t1) = st.evict_mamba_step(x, t);
            mamba_model::lemma_evict_mamba_step(st, x, t);
            if !st.shape.is_leaf(x) {
                mamba_model::lemma_buried(st, x);
                mamba_model::lemma_ready_buried(st, x);
            } else {
                mamba_laws::lemma_leaf_unlocked(st, x);
                assert(st.live(x));
                lemma_leaf_reworks(st, x, t.out);
                mamba_model::lemma_evict_leaf(st, x, t.out);
            }
            lemma_mamba_reworks(a, budget, t1);
            let b = st.evict_mamba(budget, t).0;
            assert forall|i: int| #![trigger b.nodes[i]] 0 <= i < st.nodes.len() implies reworked(st, b, i) by {
                assert(reworked(a, b, i));
                let k = a.nodes[i];
            }
        }
    }
}

/// An eviction keeps the locks that are out.
pub proof fn law_evict_keeps_locks(st: MambaState, out: Seq<NodeId>, full_budget: int, mamba_budget: int)
    requires
        st.wf(),
        balanced(st, out),
    ensures
        balanced(st.after_evict(full_budget, mamba_budget).0, out),
{
    law_balanced_is_ready(st, out);
    if !st.disable {
        let none = MambaTally { full: 0, mamba: 0, out: MambaFreed::none() };
        let (a, t1) = st.evict_full(full_budget, none);
        let (b, t2) = a.evict_mamba(mamba_budget, t1);
        mamba_laws::law_ready_stays(st, full_budget, mamba_budget);
        mamba_laws::lemma_ready_full(st, full_budget, none);
        mamba_laws::lemma_full_thins(st, full_budget, none);
        mamba_laws::lemma_mamba_thins(a, mamba_budget, t1);
        lemma_full_reworks(st, full_budget, none);
        lemma_mamba_reworks(a, mamba_budget, t1);
        mamba_laws::law_evict(st, full_budget, mamba_budget);
        assert forall|i: int| #![trigger b.nodes[i]] 0 <= i < st.nodes.len() implies reworked(st, b, i) by {
            assert(reworked(a, b, i));
            let k = a.nodes[i];
        }
        assert forall|k: int| 0 <= k < out.len() implies b.stateful(#[trigger] out[k]) by {
            assert(st.stateful(out[k]));
            assert(st.live(out[k]));
            assert(settled(st, out, out[k]));
            holds::lemma_times(out, out[k]);
            assert(out.contains(out[k]));
            assert(st.node_ok(out[k] as int));
            let n = b.nodes[out[k] as int];
            assert(mamba_laws::spared(st, b, out[k] as int));
        }
        lemma_reworked(st, b, out);
    }
}

} // verus!
