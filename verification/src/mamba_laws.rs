//! Laws of the hybrid (full KV + mamba state) tree.

use crate::chains;
use crate::key::RadixKey;
use crate::mamba_model;
use crate::mamba_model::{MambaCounter, MambaFreed, MambaState, MambaTally};
use crate::query;
use crate::query::Frame;
use crate::topo;
use crate::topo::{NodeId, ROOT};
use crate::walk_laws;
use vstd::prelude::*;

verus! {

/// Tokens of `key` that the tree holds: what a match hands out up to the
/// last mamba state on the way.
pub open spec fn cached(st: MambaState, key: RadixKey) -> Seq<i64> {
    let (a, ids) = st.after_walk(key);
    a.gathered(ids)
}

/// Passing nodes changes the full order alone.
pub(crate) proof fn lemma_passed_all(st: MambaState, ids: Seq<NodeId>)
    ensures
        st.passed_all(ids) == (MambaState { full: st.passed_all(ids).full, ..st }),
    decreases ids.len(),
{
    if ids.len() > 0 {
        lemma_passed_all(st, ids.drop_last());
    }
}

/// The runs of live nodes, where only other nodes differ.
proof fn lemma_gathered_same(a: MambaState, b: MambaState, ids: Seq<NodeId>)
    requires
        forall|k: int|
            0 <= k < ids.len() ==> b.nodes[(#[trigger] ids[k]) as int].value == a.nodes[ids[k] as int].value,
    ensures
        a.gathered(ids) == b.gathered(ids),
    decreases ids.len(),
{
    if ids.len() > 0 {
        let front = ids.drop_last();
        assert forall|k: int| 0 <= k < front.len() implies b.nodes[(#[trigger] front[k]) as int].value
            == a.nodes[front[k] as int].value by {
            assert(front[k] == ids[k]);
        }
        lemma_gathered_same(a, b, front);
        let last = ids[ids.len() - 1];
        assert(b.nodes[last as int].value == a.nodes[last as int].value);
    }
}

/// As many tokens as the edges are long.
proof fn lemma_gathered_len(st: MambaState, ids: Seq<NodeId>)
    requires
        st.wf(),
        mamba_model::chain_of(st, ids),
    ensures
        st.gathered(ids).len() == chains::tokens(st.shape, ids, ids.len() as int),
    decreases ids.len(),
{
    if ids.len() > 0 {
        let n = ids.len() as int;
        let front = ids.drop_last();
        assert forall|j: int| 0 <= j < front.len() implies st.live(#[trigger] front[j]) by {
            assert(front[j] == ids[j]);
        }
        lemma_gathered_len(st, front);
        assert(st.live(ids[n - 1]));
        assert(st.node_ok(ids[n - 1] as int));
        chains::lemma_tokens_alike(st.shape, st.shape, front, ids, n - 1);
    }
}

/// What a match leaves in the nodes it comes past.
pub(crate) proof fn lemma_visited(st: MambaState, key: RadixKey)
    requires
        st.wf(),
        st.nodes.len() < NodeId::MAX,
        st.names.len() < u32::MAX,
    ensures
        ({
            let f = st.frame();
            let w = f.walk(key);
            let (a, ids) = st.after_walk(key);
            &&& a.wf()
            &&& a.nodes.len() == (if w.stop is Some {
                st.nodes.len() + 1
            } else {
                st.nodes.len()
            })
            &&& mamba_model::chain_of(a, ids)
            &&& a.gathered(ids).len() == f.prefix_len(key)
            &&& a.shape == (match w.stop {
                Some((c, m)) => st.shape.split(c, m as int),
                None => st.shape,
            })
            &&& ids == (match w.stop {
                Some((c, m)) => w.chain.push(st.nodes.len() as NodeId),
                None => w.chain,
            })
        }),
{
    let f = st.frame();
    let w = f.walk(key);
    let (a, ids) = st.after_walk(key);
    let base = MambaState { names: f.names_with(key), ..st };
    crate::ns::law_namespaces_are_stable(st.names, key.namespace(), key.namespace());
    mamba_model::lemma_reordered(st, base);
    assert(mamba_model::chain_of(base, w.chain)) by {
        query::lemma_query(f, key);
        assert forall|j: int| 0 <= j < w.chain.len() implies base.live(#[trigger] w.chain[j]) by {
            assert(base.node_ok(w.chain[j] as int));
        }
    }
    walk_laws::lemma_cut_tokens(f, key);
    match w.stop {
        None => {},
        Some((c, m)) => {
            assert(st.shape.is_child(topo::end_of(w.chain), c) && !w.chain.contains(c) && 0 < m
                < st.shape.nodes[c as int].key.len() && st.shape.aligned(m as int)) by {
                query::lemma_query(f, key);
            }
            assert(base.node_ok(c as int));
            mamba_model::lemma_cut(base, c, m as int);
            mamba_model::lemma_cut_chain(base, w.chain, c, m as int);
        },
    }
    lemma_gathered_len(a, ids);
}

/// An inserted key is found whole, its state with it: a match hands out the
/// tokens that were there, then the inserted ones, and ends at the node of
/// the insert.
pub proof fn law_insert_then_match(st: MambaState, key: RadixKey, value: Seq<i64>, mamba: Seq<i64>, prev: int)
    requires
        st.wf(),
        st.nodes.len() + 2 <= NodeId::MAX,
        st.names.len() < u32::MAX,
        !st.disable,
        st.frame().fits(key),
        value.len() >= st.frame().units(key),
    ensures
        ({
            let f = st.frame();
            let (t, kv, node, had_state) = st.after_insert(key, value, mamba, prev);
            let (u, indices, end, branching) = t.after_match(key);
            &&& f.flat(key).len() > 0 ==> indices == cached(st, key) + value.take(f.units(key)).skip(
                f.prefix_len(key),
            )
            &&& indices.len() == f.units(key)
            &&& end == node
            &&& branching is None
        }),
{
    let f = st.frame();
    let w = f.walk(key);
    let flat = f.flat(key);
    let units = f.units(key);
    let val = value.take(units);
    walk_laws::lemma_lengths(f, key);
    if flat.len() > 0 {
        let (t, kv, node, had_state) = st.after_insert(key, value, mamba, prev);
        let (a, ids) = st.after_walk(key);
        let (b, kvb, p) = st.after_insert_walk(key, val, prev);
        lemma_visited(st, key);
        lemma_passed_all(MambaState { names: f.names_with(key), ..st }, w.chain);
        assert(b.nodes =~= a.nodes);
        assert(b.shape == a.shape && b.names == a.names && b.is_eagle == a.is_eagle);
        let seen = walk_laws::chain_with(f.shape, w, flat);
        assert(t.frame() == (Frame {
            shape: walk_laws::shape_with(f.shape, ROOT, w, f.ns_of(key), flat),
            names: f.names_with(key),
            is_eagle: f.is_eagle,
        }));
        walk_laws::law_added_key_is_found(f, t.frame(), key);
        let c = MambaState { names: t.frame().names_with(key), ..t };
        if w.used < flat.len() {
            let g = b.nodes.len() as NodeId;
            assert(seen == ids.push(g));
            assert(seen.drop_last() =~= ids);
            assert forall|k: int| 0 <= k < ids.len() implies c.nodes[(#[trigger] ids[k]) as int].value
                == a.nodes[ids[k] as int].value by {
                assert(a.live(ids[k]));
            }
            lemma_gathered_same(a, c, ids);
        } else {
            assert(seen == ids);
            if ids.len() == 0 {
                assert(a.gathered(ids).len() == 0);
            }
            assert(a.live(ids[ids.len() - 1]));
            assert(p == ids.last());
            assert forall|k: int| 0 <= k < ids.len() implies c.nodes[(#[trigger] ids[k]) as int].value
                == a.nodes[ids[k] as int].value by {
                assert(a.live(ids[k]));
            }
            lemma_gathered_same(a, c, ids);
            assert(c.gathered(ids) =~= a.gathered(ids) + val.skip(f.prefix_len(key)));
        }
        assert(seen.take(seen.len() as int) =~= seen);
    }
}

/// The last state on the way is found by the contents of the nodes.
proof fn lemma_best_same(a: MambaState, b: MambaState, ids: Seq<NodeId>)
    requires
        b.nodes == a.nodes,
    ensures
        b.best(ids) == a.best(ids),
    decreases ids.len(),
{
    if ids.len() > 0 {
        lemma_best_same(a, b, ids.drop_last());
    }
}

/// A match that is repeated finds the same.
pub proof fn law_match_again(st: MambaState, key: RadixKey)
    requires
        st.wf(),
        st.nodes.len() < NodeId::MAX,
        st.names.len() < u32::MAX,
    ensures
        ({
            let (t, indices, node, branching) = st.after_match(key);
            let (u, again, end, next) = t.after_match(key);
            again == indices && end == node && next == branching
        }),
{
    if !(st.disable || st.frame().flat(key).len() == 0) {
        let (a, ids) = st.after_walk(key);
        let (t, indices, node, branching) = st.after_match(key);
        walk_laws::lemma_walk_again(st.frame(), t.frame(), key);
        let (b, seen) = t.after_walk(key);
        assert(seen == ids);
        lemma_best_same(a, b, ids);
        let (len, end) = a.best(ids);
        lemma_gathered_same(a, b, ids.take(len as int));
    }
}

/// No node of the tree, the root included, has more mamba locks than full
/// locks.
pub open spec fn full_covers_mamba(st: MambaState) -> bool {
    forall|i: int| 0 <= i < st.nodes.len() ==> (#[trigger] st.nodes[i]).full_lock >= st.nodes[i].mamba_lock
}

/// Full locks cover mamba locks in every possible state.
pub proof fn law_full_covers_mamba(st: MambaState)
    requires
        st.wf(),
    ensures
        full_covers_mamba(st),
{
    assert forall|i: int| 0 <= i < st.nodes.len() implies (#[trigger] st.nodes[i]).full_lock
        >= st.nodes[i].mamba_lock by {
        if i > 0 {
            assert(st.node_ok(i));
        }
    }
}

/// Locking a node and taking the lock off again gives the tree back, sizes
/// and lock counts included; full locks cover mamba locks on every node
/// before, between and after.
pub proof fn law_lock_then_unlock(st: MambaState, node: NodeId)
    requires
        st.wf(),
        node == ROOT || st.live(node),
        forall|k: int|
            0 <= k < st.shape.up(node).len() ==> st.nodes[(#[trigger] st.shape.up(node)[k]) as int].full_lock
                < u32::MAX,
    ensures
        st.locked(node).unlocked(node) == st,
        forall|k: int|
            0 <= k < st.shape.up(node).len() ==> st.locked(node).nodes[(#[trigger] st.shape.up(node)[k]) as int].full_lock
                > 0,
        forall|k: int|
            0 < k < st.shape.up(node).len() ==> st.locked(node).nodes[(#[trigger] st.shape.up(node)[k]) as int].full_lock
                > st.locked(node).nodes[st.shape.up(node)[k] as int].mamba_lock,
        st.stateful(node) ==> st.locked(node).nodes[node as int].mamba_lock > 0,
        forall|c: MambaCounter| #[trigger] st.locked(node).unlocked(node).count(c) == st.count(c),
        full_covers_mamba(st),
        full_covers_mamba(st.locked(node)),
{
    law_full_covers_mamba(st);
    let up = st.shape.up(node);
    let a = st.full_locked(up);
    let b = st.locked(node);
    let c = b.mamba_locked(node, -1);
    let d = c.full_unlocked(up);
    mamba_model::lemma_up_live(st, node);
    if node != ROOT {
        assert(st.node_ok(node as int));
        assert(up[0] == node);
        assert(up.contains(node));
    }
    assert forall|k: int| 0 <= k < up.len() implies b.nodes[(#[trigger] up[k]) as int].full_lock > 0 by {
        assert(st.live(up[k]));
        assert(up.contains(up[k]));
        assert(st.nodes[up[k] as int].full_lock < u32::MAX);
    }
    assert forall|k: int| 0 < k < up.len() implies b.nodes[(#[trigger] up[k]) as int].full_lock
        > b.nodes[up[k] as int].mamba_lock by {
        assert(st.live(up[k]));
        assert(up.contains(up[k]));
        assert(up[k] != up[0]);
        assert(st.nodes[up[k] as int].full_lock < u32::MAX);
        assert(st.node_ok(up[k] as int));
    }
    assert forall|i: int| 0 <= i < b.nodes.len() implies (#[trigger] b.nodes[i]).full_lock >= b.nodes[i].mamba_lock by {
        assert(st.nodes[i].full_lock >= st.nodes[i].mamba_lock);
        if up.contains(i as NodeId) {
            let k = up.index_of(i as NodeId);
            assert(st.nodes[up[k] as int].full_lock < u32::MAX);
        }
    }
    assert(c.nodes =~= a.nodes);
    assert forall|i: int| 0 <= i < st.nodes.len() implies #[trigger] d.nodes[i] == st.nodes[i] by {
        if up.contains(i as NodeId) {
            let k = up.index_of(i as NodeId);
            assert(st.nodes[up[k] as int].full_lock < u32::MAX);
        }
    }
    assert(d.nodes =~= st.nodes);
}

/// Tokens of the runs handed out.
pub open spec fn kv_tokens(kv: Seq<(Seq<i64>, int)>) -> int
    decreases kv.len(),
{
    if kv.len() == 0 {
        0
    } else {
        kv_tokens(kv.drop_last()) + kv.last().0.len()
    }
}

/// `t` is what is left of `st` once more was handed out, from `old_out` to
/// `out`: exactly what is gone, nothing of it locked.
pub open spec fn thinned(st: MambaState, t: MambaState, old_out: MambaFreed, out: MambaFreed) -> bool {
    &&& t.wf()
    &&& t.nodes.len() == st.nodes.len()
    &&& kv_tokens(out.kv) - kv_tokens(old_out.kv) == st.count(MambaCounter::FullEvictable) - t.count(
        MambaCounter::FullEvictable,
    )
    &&& t.count(MambaCounter::FullProtected) == st.count(MambaCounter::FullProtected)
    &&& out.mamba.len() - old_out.mamba.len() == st.count(MambaCounter::MambaEvictable) - t.count(
        MambaCounter::MambaEvictable,
    )
    &&& t.count(MambaCounter::MambaProtected) == st.count(MambaCounter::MambaProtected)
    &&& forall|i: int| #![trigger t.nodes[i]] 0 <= i < st.nodes.len() ==> spared(st, t, i)
}

/// A full lock keeps a node's tokens, a mamba lock its state too.
pub open spec fn spared(st: MambaState, t: MambaState, i: int) -> bool {
    &&& st.nodes[i].full_lock > 0 ==> {
        &&& t.nodes[i].value == st.nodes[i].value
        &&& t.nodes[i].full_lock == st.nodes[i].full_lock
        &&& t.nodes[i].mamba_lock == st.nodes[i].mamba_lock
    }
    &&& st.nodes[i].mamba_lock > 0 && st.nodes[i].full_lock > 0 ==> t.nodes[i] == st.nodes[i]
}

proof fn lemma_kv_push(kv: Seq<(Seq<i64>, int)>, v: Seq<i64>)
    ensures
        kv_tokens(kv.push((v, 0int))) == kv_tokens(kv) + v.len(),
{
    assert(kv.push((v, 0int)).drop_last() =~= kv);
}

proof fn lemma_thinned_twice(
    a: MambaState,
    b: MambaState,
    c: MambaState,
    o1: MambaFreed,
    o2: MambaFreed,
    o3: MambaFreed,
)
    requires
        thinned(a, b, o1, o2),
        thinned(b, c, o2, o3),
    ensures
        thinned(a, c, o1, o3),
{
    assert forall|i: int| #![trigger c.nodes[i]] 0 <= i < a.nodes.len() implies spared(a, c, i) by {
        assert(spared(a, b, i)) by {
            let n = b.nodes[i];
        }
    }
}

proof fn lemma_cascade_thins(st: MambaState, p: NodeId, out: MambaFreed)
    requires
        st.wf(),
    ensures
        thinned(st, st.cascade(p, out).0, out, st.cascade(p, out).1),
        st.cascade(p, out).2 == kv_tokens(st.cascade(p, out).1.kv) - kv_tokens(out.kv) >= 0,
    decreases st.live_count(),
{
    if st.orphaned(p) {
        mamba_model::lemma_dropped(st, p);
        let next = MambaFreed { kv: out.kv.push((st.run(p), 0)), ..out };
        lemma_kv_push(out.kv, st.run(p));
        lemma_cascade_thins(st.dropped(p), st.shape.nodes[p as int].parent, next);
        assert(thinned(st, st.dropped(p), out, next));
        lemma_thinned_twice(st, st.dropped(p), st.cascade(p, out).0, out, next, st.cascade(p, out).1);
    }
}

proof fn lemma_leaf_thins(st: MambaState, x: NodeId, out: MambaFreed)
    requires
        st.wf(),
        st.stateful(x),
        st.shape.is_leaf(x),
        st.nodes[x as int].full_lock == 0,
    ensures
        thinned(st, st.evict_leaf(x, out).0, out, st.evict_leaf(x, out).1),
        st.evict_leaf(x, out).2 == kv_tokens(st.evict_leaf(x, out).1.kv) - kv_tokens(out.kv) >= 0,
{
    mamba_model::lemma_dropped(st, x);
    let next = MambaFreed {
        kv: out.kv.push((st.run(x), 0)),
        mamba: out.mamba.push(st.nodes[x as int].mamba->0),
    };
    lemma_kv_push(out.kv, st.run(x));
    lemma_cascade_thins(st.dropped(x), st.shape.nodes[x as int].parent, next);
    assert(thinned(st, st.dropped(x), out, next));
    lemma_thinned_twice(st, st.dropped(x), st.evict_leaf(x, out).0, out, next, st.evict_leaf(x, out).1);
}

/// The leaf found is one, and is not locked.
pub(crate) proof fn lemma_lru_leaf(st: MambaState, order: Seq<NodeId>)
    ensures
        st.lru_leaf(order) matches Some(x) ==> order.contains(x) && st.nodes[x as int].full_lock == 0
            && st.shape.is_leaf(x),
        st.lru_leaf(order) is None ==> forall|k: int|
            0 <= k < order.len() ==> st.nodes[(#[trigger] order[k]) as int].full_lock > 0 || !st.shape.is_leaf(
                order[k],
            ),
    decreases order.len(),
{
    if order.len() > 0 {
        lemma_lru_leaf(st, order.drop_last());
        if let Some(x) = st.lru_leaf(order) {
            if x == order.last() {
                assert(order[order.len() - 1] == x);
            } else {
                let k = order.drop_last().index_of(x);
                assert(order[k] == x);
            }
        } else {
            assert forall|k: int| 0 <= k < order.len() implies st.nodes[(#[trigger] order[k]) as int].full_lock > 0
                || !st.shape.is_leaf(order[k]) by {
                if k < order.len() - 1 {
                    assert(order.drop_last()[k] == order[k]);
                }
            }
        }
    }
}

/// Every leaf is locked.
pub open spec fn no_free_leaf(st: MambaState) -> bool {
    forall|id: NodeId| #[trigger] st.live(id) ==> st.nodes[id as int].full_lock > 0 || !st.shape.is_leaf(id)
}

pub(crate) proof fn lemma_full_thins(st: MambaState, budget: int, t: MambaTally)
    requires
        st.wf(),
        st.full_drains(budget, t),
        t.mamba == 0,
    ensures
        ({
            let (b, t1) = st.evict_full(budget, t);
            &&& thinned(st, b, t.out, t1.out)
            &&& t1.full - t.full == kv_tokens(t1.out.kv) - kv_tokens(t.out.kv)
            &&& t1.mamba == 0
            &&& t1.full >= budget || no_free_leaf(b)
        }),
    decreases st.live_count(),
{
    lemma_lru_leaf(st, st.full);
    match st.lru_leaf(st.full) {
        Some(x) => {
            assert(st.full.contains(x));
            if t.full < budget {
                let (a, o, n) = st.evict_leaf(x, t.out);
                assert(st.live(x));
                lemma_leaf_thins(st, x, t.out);
                mamba_model::lemma_evict_leaf(st, x, t.out);
                mamba_model::lemma_evict_counts(st, x, t.out);
                let next = MambaTally { full: t.full + n, out: o, ..t };
                lemma_full_thins(a, budget, next);
                lemma_thinned_twice(st, a, st.evict_full(budget, t).0, t.out, o, st.evict_full(budget, t).1.out);
            } else {
                lemma_thinned_same(st, t.out);
            }
        },
        None => {
            lemma_thinned_same(st, t.out);
            assert forall|id: NodeId| #[trigger] st.live(id) implies st.nodes[id as int].full_lock > 0
                || !st.shape.is_leaf(id) by {
                assert(st.full.contains(id));
                let k = st.full.index_of(id);
                assert(st.full[k] == id);
            }
        },
    }
}

proof fn lemma_thinned_same(st: MambaState, out: MambaFreed)
    requires
        st.wf(),
    ensures
        thinned(st, st, out, out),
{
}

/// The node found has a state that is not locked.
pub(crate) proof fn lemma_lru_unlocked(st: MambaState, order: Seq<NodeId>)
    ensures
        st.lru_unlocked(order) matches Some(x) ==> order.contains(x) && st.nodes[x as int].mamba_lock == 0,
        st.lru_unlocked(order) is None ==> forall|k: int|
            0 <= k < order.len() ==> st.nodes[(#[trigger] order[k]) as int].mamba_lock > 0,
    decreases order.len(),
{
    if order.len() > 0 {
        lemma_lru_unlocked(st, order.drop_last());
        if let Some(x) = st.lru_unlocked(order) {
            if x == order.last() {
                assert(order[order.len() - 1] == x);
            } else {
                let k = order.drop_last().index_of(x);
                assert(order[k] == x);
            }
        } else {
            assert forall|k: int| 0 <= k < order.len() implies st.nodes[(#[trigger] order[k]) as int].mamba_lock
                > 0 by {
                if k < order.len() - 1 {
                    assert(order.drop_last()[k] == order[k]);
                }
            }
        }
    }
}

/// An unlocked state on a leaf means that the leaf is not locked.
pub(crate) proof fn lemma_leaf_unlocked(st: MambaState, x: NodeId)
    requires
        st.wf(),
        st.evict_ready(),
        st.stateful(x),
        st.nodes[x as int].mamba_lock == 0,
        st.shape.is_leaf(x),
    ensures
        st.nodes[x as int].full_lock == 0,
{
    if st.nodes[x as int].full_lock > 0 {
        assert(st.has_locked_child(x));
    }
}

pub(crate) proof fn lemma_mamba_thins(st: MambaState, budget: int, t: MambaTally)
    requires
        st.wf(),
        st.mamba_drains(budget, t),
    ensures
        ({
            let (b, t1) = st.evict_mamba(budget, t);
            &&& thinned(st, b, t.out, t1.out)
            &&& t1.mamba - t.mamba == t1.out.mamba.len() - t.out.mamba.len()
            &&& t1.full == t.full
            &&& kv_tokens(t1.out.kv) >= kv_tokens(t.out.kv)
            &&& no_free_leaf(st) ==> no_free_leaf(b)
            &&& t1.mamba >= budget || forall|id: NodeId| #[trigger]
                b.stateful(id) ==> b.nodes[id as int].mamba_lock > 0
        }),
    decreases st.mamba.len(),
{
    lemma_lru_unlocked(st, st.mamba);
    match st.lru_unlocked(st.mamba) {
        Some(x) => {
            assert(st.mamba.contains(x));
            if t.mamba < budget {
                let (a, t1) = st.evict_mamba_step(x, t);
                mamba_model::lemma_evict_mamba_step(st, x, t);
                if !st.shape.is_leaf(x) {
                    mamba_model::lemma_buried(st, x);
                    if no_free_leaf(st) {
                        assert forall|id: NodeId| #[trigger] a.live(id) implies a.nodes[id as int].full_lock > 0
                            || !a.shape.is_leaf(id) by {
                            assert(st.live(id));
                        }
                    }
                    assert(thinned(st, a, t.out, t1.out));
                } else {
                    assert(st.live(x));
                    assert(!no_free_leaf(st));
                    lemma_leaf_thins(st, x, t.out);
                    mamba_model::lemma_evict_leaf(st, x, t.out);
                    lemma_leaf_states(st, x, t.out);
                }
                lemma_mamba_thins(a, budget, t1);
                lemma_thinned_twice(
                    st,
                    a,
                    st.evict_mamba(budget, t).0,
                    t.out,
                    t1.out,
                    st.evict_mamba(budget, t).1.out,
                );
            } else {
                lemma_thinned_same(st, t.out);
            }
        },
        None => {
            lemma_thinned_same(st, t.out);
            assert forall|id: NodeId| #[trigger] st.stateful(id) implies st.nodes[id as int].mamba_lock > 0 by {
                assert(st.mamba.contains(id));
                let k = st.mamba.index_of(id);
                assert(st.mamba[k] == id);
            }
        },
    }
}

/// A cascade hands out no state.
proof fn lemma_cascade_states(st: MambaState, p: NodeId, out: MambaFreed)
    ensures
        st.cascade(p, out).1.mamba == out.mamba,
    decreases st.live_count(),
{
    if st.orphaned(p) {
        mamba_model::lemma_drop_counts(st, p);
        let next = MambaFreed { kv: out.kv.push((st.run(p), 0)), ..out };
        lemma_cascade_states(st.dropped(p), st.shape.nodes[p as int].parent, next);
    }
}

proof fn lemma_leaf_states(st: MambaState, x: NodeId, out: MambaFreed)
    ensures
        st.evict_leaf(x, out).1.mamba.len() == out.mamba.len() + 1,
{
    let next = MambaFreed {
        kv: out.kv.push((st.run(x), 0)),
        mamba: out.mamba.push(st.nodes[x as int].mamba->0),
    };
    lemma_cascade_states(st.dropped(x), st.shape.nodes[x as int].parent, next);
}

/// An eviction hands out exactly the tokens and states that are gone, none
/// of them locked, and ends because its budgets are met or nothing unlocked
/// is left.
pub proof fn law_evict(st: MambaState, full_budget: int, mamba_budget: int)
    requires
        st.wf(),
        st.drains(full_budget, mamba_budget),
        !st.disable,
    ensures
        ({
            let (t, tally) = st.after_evict(full_budget, mamba_budget);
            &&& thinned(st, t, MambaFreed::none(), tally.out)
            &&& t.full_size() == st.full_size() - kv_tokens(tally.out.kv)
            &&& t.mamba_size() == st.mamba_size() - tally.out.mamba.len()
            &&& tally.full <= kv_tokens(tally.out.kv)
            &&& tally.mamba <= tally.out.mamba.len()
            &&& tally.full >= full_budget || no_free_leaf(t)
            &&& tally.mamba >= mamba_budget || forall|id: NodeId| #[trigger]
                t.stateful(id) ==> t.nodes[id as int].mamba_lock > 0
        }),
{
    let none = MambaTally { full: 0, mamba: 0, out: MambaFreed::none() };
    let (a, t1) = st.evict_full(full_budget, none);
    let (b, t2) = a.evict_mamba(mamba_budget, t1);
    lemma_full_thins(st, full_budget, none);
    lemma_mamba_thins(a, mamba_budget, t1);
    lemma_thinned_twice(st, a, b, MambaFreed::none(), t1.out, t2.out);
}

pub(crate) proof fn lemma_ready_full(st: MambaState, budget: int, t: MambaTally)
    requires
        st.wf(),
        st.evict_ready(),
    ensures
        st.full_drains(budget, t),
        st.evict_full(budget, t).0.wf(),
        st.evict_full(budget, t).0.evict_ready(),
    decreases st.live_count(),
{
    lemma_lru_leaf(st, st.full);
    if let Some(x) = st.lru_leaf(st.full) {
        assert(st.full.contains(x));
        if t.full < budget {
            let (a, o, n) = st.evict_leaf(x, t.out);
            assert(st.live(x));
            mamba_model::lemma_evict_leaf(st, x, t.out);
            mamba_model::lemma_evict_counts(st, x, t.out);
            lemma_ready_full(a, budget, MambaTally { full: t.full + n, out: o, ..t });
        }
    }
}

proof fn lemma_ready_mamba(st: MambaState, budget: int, t: MambaTally)
    requires
        st.wf(),
        st.evict_ready(),
    ensures
        st.mamba_drains(budget, t),
        st.evict_mamba(budget, t).0.evict_ready(),
    decreases st.mamba.len(),
{
    lemma_lru_unlocked(st, st.mamba);
    if let Some(x) = st.lru_unlocked(st.mamba) {
        assert(st.mamba.contains(x));
        if t.mamba < budget {
            let (a, t1) = st.evict_mamba_step(x, t);
            mamba_model::lemma_evict_mamba_step(st, x, t);
            if !st.shape.is_leaf(x) {
                mamba_model::lemma_buried(st, x);
                mamba_model::lemma_ready_buried(st, x);
            } else {
                lemma_leaf_unlocked(st, x);
                assert(st.live(x));
                mamba_model::lemma_evict_leaf(st, x, t.out);
            }
            lemma_ready_mamba(a, budget, t1);
        }
    }
}

/// A tree that is ready for an eviction takes any budgets, and is ready
/// afterwards.
pub proof fn law_ready_stays(st: MambaState, full_budget: int, mamba_budget: int)
    requires
        st.wf(),
        st.evict_ready(),
    ensures
        st.drains(full_budget, mamba_budget),
        st.after_evict(full_budget, mamba_budget).0.evict_ready(),
{
    let none = MambaTally { full: 0, mamba: 0, out: MambaFreed::none() };
    lemma_ready_full(st, full_budget, none);
    let (a, t) = st.evict_full(full_budget, none);
    lemma_ready_mamba(a, mamba_budget, t);
}

} // verus!
