//! Backed-up nodes of the two-tier tree form a contiguous prefix from the
//! root: as long as a node is backed up only below a backed-up one, every
//! operation keeps it so.

use crate::chains;
use crate::hi_laws;
use crate::hi_model;
use crate::hi_model::{HiNodeState, HiState};
use crate::key::RadixKey;
use crate::query;
use crate::topo;
use crate::topo::{NodeId, ROOT};
use vstd::prelude::*;

verus! {

/// Two states of one tree with the same nodes backed up.
spec fn same_backups(a: HiState, b: HiState) -> bool {
    &&& b.nodes.len() == a.nodes.len()
    &&& forall|i: int|
        0 <= i < a.nodes.len() ==> b.shape.nodes[i].parent == a.shape.nodes[i].parent && (#[trigger] b.nodes[i]).host
            is Some == a.nodes[i].host is Some
}

proof fn lemma_same(a: HiState, b: HiState)
    requires
        a.shape.wf(),
        a.nodes.len() == a.shape.nodes.len(),
        a.contiguous(),
        same_backups(a, b),
    ensures
        b.contiguous(),
{
    assert forall|i: int| 0 < i < b.nodes.len() implies #[trigger] b.backed_below(i) by {
        assert(a.backed_below(i));
        assert(a.shape.hangs(i));
        let n = b.nodes[i];
        let p = b.nodes[a.shape.nodes[i].parent as int];
    }
}

/// Every node has a parent.
spec fn rooted(st: HiState) -> bool {
    forall|i: int| 0 < i < st.nodes.len() ==> (#[trigger] st.shape.nodes[i]).parent < st.nodes.len()
}

proof fn lemma_kept(a: HiState, b: HiState)
    requires
        a.contiguous(),
        rooted(a),
        b.shape == a.shape,
        same_backups(a, b),
    ensures
        b.contiguous(),
        rooted(b),
{
    assert forall|i: int| 0 < i < b.nodes.len() implies #[trigger] b.backed_below(i) by {
        assert(a.backed_below(i));
        let n = b.nodes[i];
        let p = b.nodes[a.shape.nodes[i].parent as int];
    }
}

/// A new node below `p`, backed up only if `p` is.
proof fn lemma_grown(st: HiState, p: NodeId, ns: u32, key: Seq<i64>, n: HiNodeState)
    requires
        st.contiguous(),
        rooted(st),
        st.nodes.len() == st.shape.nodes.len(),
        p < st.nodes.len(),
        n.host is Some ==> st.nodes[p as int].host is Some,
    ensures
        st.grown(p, ns, key, n).contiguous(),
        rooted(st.grown(p, ns, key, n)),
{
    let t = st.grown(p, ns, key, n);
    assert forall|i: int| 0 < i < t.nodes.len() implies #[trigger] t.backed_below(i) by {
        if i < st.nodes.len() {
            assert(st.backed_below(i));
            assert(st.shape.nodes[i].parent < st.nodes.len());
        }
    }
}

proof fn lemma_patched(a: HiState, id: NodeId, n: HiNodeState)
    requires
        id < a.nodes.len(),
        n.host is Some == a.nodes[id as int].host is Some,
    ensures
        same_backups(a, a.patched(id, n)),
{
}

proof fn lemma_then(a: HiState, b: HiState, c: HiState)
    requires
        same_backups(a, b),
        same_backups(b, c),
    ensures
        same_backups(a, c),
{
    assert forall|i: int| 0 <= i < a.nodes.len() implies c.shape.nodes[i].parent == a.shape.nodes[i].parent && (
    #[trigger] c.nodes[i]).host is Some == a.nodes[i].host is Some by {
        let n = b.nodes[i];
    }
}

/// Every node of `ids` exists.
spec fn within(st: HiState, ids: Seq<NodeId>) -> bool {
    forall|k: int| 0 <= k < ids.len() ==> (#[trigger] ids[k]) < st.nodes.len()
}

proof fn lemma_within_front(st: HiState, ids: Seq<NodeId>)
    requires
        within(st, ids),
        ids.len() > 0,
    ensures
        within(st, ids.drop_last()),
        ids.last() < st.nodes.len(),
{
    assert(ids[ids.len() - 1] < st.nodes.len());
    assert forall|k: int| 0 <= k < ids.drop_last().len() implies (#[trigger] ids.drop_last()[k])
        < st.nodes.len() by {
        assert(ids.drop_last()[k] == ids[k]);
    }
}

proof fn lemma_stamped(st: HiState, ids: Seq<NodeId>, now: u64)
    requires
        within(st, ids),
    ensures
        same_backups(st, st.stamped(ids, now)),
        st.stamped(ids, now).shape == st.shape,
    decreases ids.len(),
{
    if ids.len() > 0 {
        lemma_within_front(st, ids);
        lemma_stamped(st, ids.drop_last(), now);
        let a = st.stamped(ids.drop_last(), now);
        let x = ids.last();
        lemma_patched(a, x, HiNodeState { access: now, ..a.nodes[x as int] });
        lemma_then(st, a, st.stamped(ids, now));
    }
}

proof fn lemma_host_held(st: HiState, ids: Seq<NodeId>, by: int)
    requires
        within(st, ids),
    ensures
        same_backups(st, st.host_held(ids, by)),
        st.host_held(ids, by).shape == st.shape,
    decreases ids.len(),
{
    if ids.len() > 0 {
        lemma_within_front(st, ids);
        lemma_host_held(st, ids.drop_last(), by);
        let a = st.host_held(ids.drop_last(), by);
        lemma_then(st, a, st.host_held(ids, by));
    }
}

proof fn lemma_loaded(st: HiState, ids: Seq<NodeId>, run: Seq<i64>)
    requires
        within(st, ids),
    ensures
        same_backups(st, st.loaded(ids, run)),
        st.loaded(ids, run).shape == st.shape,
    decreases ids.len(),
{
    if ids.len() > 0 {
        lemma_within_front(st, ids);
        lemma_loaded(st, ids.drop_last(), run);
        let a = st.loaded(ids.drop_last(), run);
        lemma_then(st, a, st.loaded(ids, run));
    }
}

proof fn lemma_met(st: HiState, x: NodeId, run: Seq<i64>, now: u64, priority: i32, chunked: bool)
    requires
        x < st.nodes.len(),
    ensures
        same_backups(st, st.raised(x, now, priority)),
        same_backups(st, st.met(x, run, chunked).0),
        same_backups(st, st.raised(x, now, priority).met(x, run, chunked).0),
        st.met(x, run, chunked).0.shape == st.shape,
{
    let a = st.raised(x, now, priority);
    lemma_then(st, a, a.met(x, run, chunked).0);
}

proof fn lemma_met_all(
    st: HiState,
    chain: Seq<NodeId>,
    k: nat,
    val: Seq<i64>,
    now: u64,
    priority: i32,
    chunked: bool,
)
    requires
        within(st, chain),
        k <= chain.len(),
    ensures
        ({
            let t = st.met_all(chain, k, val, now, priority, chunked).0;
            &&& same_backups(st, t)
            &&& t.shape == st.shape
        }),
    decreases k,
{
    if k > 0 {
        lemma_met_all(st, chain, (k - 1) as nat, val, now, priority, chunked);
        let a = st.met_all(chain, (k - 1) as nat, val, now, priority, chunked).0;
        let x = chain[k - 1];
        let at = chains::tokens(st.shape, chain, k - 1);
        let run = val.subrange(at, at + st.shape.units(x as int));
        lemma_met(a, x, run, now, priority, chunked);
        lemma_then(st, a, st.met_all(chain, k, val, now, priority, chunked).0);
    }
}

/// A cut backs up both parts or none.
proof fn lemma_cut(st: HiState, c: NodeId, m: int)
    requires
        st.shape.wf(),
        st.nodes.len() == st.shape.nodes.len(),
        st.contiguous(),
        st.nodes.len() < NodeId::MAX,
        0 < c < st.nodes.len(),
    ensures
        st.cut(c, m).contiguous(),
        st.cut(c, m).nodes.len() == st.nodes.len() + 1,
        rooted(st.cut(c, m)),
        st.cut(c, m).shape == st.shape.split(c, m),
        forall|i: int|
            0 <= i < st.nodes.len() ==> (#[trigger] st.cut(c, m).nodes[i]).host is Some == st.nodes[i].host
                is Some,
        st.cut(c, m).nodes[st.nodes.len() as int].host is Some == st.nodes[c as int].host is Some,
{
    let t = st.cut(c, m);
    topo::lemma_path_grows(st.shape, c);
    assert forall|i: int| 0 < i < t.nodes.len() implies (#[trigger] t.shape.nodes[i]).parent < t.nodes.len() by {
        assert(st.shape.hangs(if i == st.nodes.len() { c as int } else { i }));
    }
    assert forall|i: int| 0 < i < t.nodes.len() implies #[trigger] t.backed_below(i) by {
        let j = if i == st.nodes.len() { c as int } else { i };
        assert(st.backed_below(j));
        assert(st.shape.hangs(j));
    }
}

/// The way of a query from an attached node: the nodes exist.
proof fn lemma_way(st: HiState, start: NodeId, key: RadixKey)
    requires
        st.wf(),
        start < st.nodes.len(),
        st.shape.nodes[start as int].attached,
        start != ROOT ==> st.shape.nodes[start as int].ns == st.frame().ns_of(key),
    ensures
        ({
            let w = st.frame().walk_at(start, key);
            &&& within(st, w.chain)
            &&& within(st, seq![start] + w.chain)
            &&& w.stop matches Some((c, m)) ==> 0 < c < st.nodes.len() && within(
                st,
                (seq![start] + w.chain).push(c),
            )
        }),
{
    let w = st.frame().walk_at(start, key);
    assert(within(st, w.chain)) by {
        query::lemma_query_at(st.frame(), start, key);
    }
    let all = seq![start] + w.chain;
    assert forall|k: int| 0 <= k < all.len() implies (#[trigger] all[k]) < st.nodes.len() by {
        if k > 0 {
            assert(all[k] == w.chain[k - 1]);
        }
    }
    if let Some((c, m)) = w.stop {
        assert(0 < c < st.nodes.len()) by {
            query::lemma_query_at(st.frame(), start, key);
        }
        let more = all.push(c);
        assert forall|k: int| 0 <= k < more.len() implies (#[trigger] more[k]) < st.nodes.len() by {
            if k < all.len() {
                assert(more[k] == all[k]);
            }
        }
    }
}

proof fn lemma_after_walk(st: HiState, start: NodeId, key: RadixKey)
    requires
        st.wf(),
        st.roomy(),
        st.contiguous(),
        start < st.nodes.len(),
        st.shape.nodes[start as int].attached,
        start != ROOT ==> st.shape.nodes[start as int].ns == st.frame().ns_of(key),
    ensures
        ({
            let w = st.frame().walk_at(start, key);
            let (t, visited, splits) = st.after_walk(start, w, st.frame().names_with(key));
            &&& t.contiguous()
            &&& rooted(t)
            &&& t.nodes.len() == t.shape.nodes.len()
            &&& t.nodes.len() == st.nodes.len() + (if w.stop is Some {
                1int
            } else {
                0
            })
            &&& forall|i: int|
                0 <= i < st.nodes.len() ==> (#[trigger] t.nodes[i]).host is Some == st.nodes[i].host is Some
            &&& w.stop matches Some((c, m)) ==> t.nodes[st.nodes.len() as int].host is Some
                == st.nodes[c as int].host is Some
        }),
{
    let w = st.frame().walk_at(start, key);
    let now = (st.clock + 1) as u64;
    let base = HiState { names: st.frame().names_with(key), clock: now, ..st };
    lemma_way(st, start, key);
    lemma_same(st, base);
    assert(rooted(base)) by {
        assert forall|i: int| 0 < i < base.nodes.len() implies (#[trigger] base.shape.nodes[i]).parent
            < base.nodes.len() by {
            assert(st.shape.hangs(i));
        }
    }
    match w.stop {
        None => {
            assert(within(base, seq![start] + w.chain));
            lemma_stamped(base, seq![start] + w.chain, now);
            lemma_same(base, base.stamped(seq![start] + w.chain, now));
        },
        Some((c, m)) => {
            let ids = (seq![start] + w.chain).push(c);
            assert(within(base, ids));
            lemma_stamped(base, ids, now);
            let a = base.stamped(ids, now);
            lemma_same(base, a);
            lemma_cut(a, c, m as int);
            let t = a.cut(c, m as int);
            assert forall|i: int| 0 <= i < st.nodes.len() implies (#[trigger] t.nodes[i]).host is Some
                == st.nodes[i].host is Some by {
                let n = a.nodes[i];
            }
            let n = a.nodes[c as int];
        },
    }
}

/// In a new tree the root alone is backed up.
pub proof fn law_fresh_backups(st: HiState)
    requires
        st.nodes.len() == 1,
    ensures
        st.contiguous(),
{
}

/// A node below a backed-up one can be backed up.
pub proof fn law_backup_extends_the_prefix(st: HiState, node: NodeId, run: Seq<i64>)
    requires
        st.wf(),
        st.contiguous(),
        0 < node < st.nodes.len(),
        st.nodes[st.shape.nodes[node as int].parent as int].host is Some,
    ensures
        ({
            let t = st.patched(
                node,
                HiNodeState { host: Some(run), pending: true, ..st.nodes[node as int] },
            );
            t.contiguous() && t.after_lock(node).contiguous()
        }),
{
    let t = st.patched(node, HiNodeState { host: Some(run), pending: true, ..st.nodes[node as int] });
    assert forall|i: int| 0 < i < t.nodes.len() implies #[trigger] t.backed_below(i) by {
        assert(st.shape.hangs(i));
        assert(st.backed_below(i));
    }
    lemma_same(t, t.after_lock(node));
}

/// A match keeps the prefix.
pub proof fn law_match_keeps_backups(st: HiState, key: RadixKey)
    requires
        st.wf(),
        st.roomy(),
        st.contiguous(),
    ensures
        st.after_match(key).0.contiguous(),
{
    lemma_after_walk(st, ROOT, key);
}

/// An insert keeps the prefix.
pub proof fn law_insert_keeps_backups(st: HiState, key: RadixKey, value: Seq<i64>, priority: i32, chunked: bool)
    requires
        st.wf(),
        st.roomy(),
        st.contiguous(),
    ensures
        st.after_insert(key, value, priority, chunked).0.contiguous(),
{
    let f = st.frame();
    let flat = f.flat(key);
    if !(st.disable || flat.len() == 0) {
        let w = f.walk(key);
        let now = (st.clock + 1) as u64;
        let val = value.take(f.units(key));
        let base = HiState { names: f.names_with(key), clock: now, ..st };
        let (t, r) = st.after_insert_walk(key, val, priority, chunked);
        lemma_way(st, ROOT, key);
        assert(within(base, w.chain));
        lemma_same(st, base);
        assert(rooted(base)) by {
            assert forall|i: int| 0 < i < base.nodes.len() implies (#[trigger] base.shape.nodes[i]).parent
                < base.nodes.len() by {
                assert(st.shape.hangs(i));
            }
        }
        lemma_met_all(base, w.chain, w.chain.len(), val, now, priority, chunked);
        let a = base.met_all(w.chain, w.chain.len(), val, now, priority, chunked).0;
        lemma_same(base, a);
        match w.stop {
            None => {
                if w.chain.len() > 0 {
                    assert(w.chain[w.chain.len() - 1] < st.nodes.len());
                }
            },
            Some((c, m)) => {
                let b = a.raised(c, now, priority);
                lemma_patched(a, c, b.nodes[c as int]);
                lemma_same(a, b);
                lemma_cut(b, c, m as int);
                let d = b.cut(c, m as int);
                let g = st.nodes.len() as NodeId;
                let at = chains::tokens(st.shape, w.chain, w.chain.len() as int);
                let run = val.subrange(at, f.prefix_len(key));
                lemma_met(d, g, run, now, priority, chunked);
                lemma_kept(d, d.met(g, run, chunked).0);
            },
        }
        assert(t.contiguous() && rooted(t) && t.nodes.len() == t.shape.nodes.len());
        assert(r.node < t.nodes.len());
        if w.used < flat.len() {
            let u = t.ticked();
            lemma_kept(t, u);
            let leaf = HiNodeState {
                value: Some(val.skip(f.prefix_len(key))),
                host: None,
                lock: 0,
                host_ref: 0,
                hits: 0,
                priority,
                access: u.clock,
                pending: false,
            };
            let g = t.nodes.len() as NodeId;
            lemma_grown(u, r.node, f.ns_of(key), flat.skip(w.used as int), leaf);
            let v = u.grown(r.node, f.ns_of(key), flat.skip(w.used as int), leaf);
            lemma_kept(v, v.hit(g, chunked).0);
        }
    }
}

/// Host runs put below a backed-up node keep the prefix.
pub proof fn law_insert_host_keeps_backups(st: HiState, start: NodeId, key: RadixKey, host: Seq<i64>)
    requires
        st.wf(),
        st.roomy(),
        st.contiguous(),
        start < st.nodes.len(),
        st.shape.nodes[start as int].attached,
        start != ROOT ==> st.shape.nodes[start as int].ns == st.frame().ns_of(key),
        ({
            let w = st.frame().walk_at(start, key);
            w.used < st.frame().flat(key).len() ==> match w.stop {
                Some((c, m)) => st.nodes[c as int].host is Some,
                None => st.nodes[query::end_from(start, w.chain) as int].host is Some,
            }
        }),
    ensures
        st.after_insert_host(start, key, host).contiguous(),
{
    let f = st.frame();
    let flat = f.flat(key);
    lemma_after_walk(st, start, key);
    lemma_way(st, start, key);
    if !(st.disable || flat.len() == 0) {
        let w = f.walk_at(start, key);
        let (a, visited, splits) = st.after_walk(start, w, f.names_with(key));
        let p = query::end_from(start, visited);
        if w.used < flat.len() {
            let t = st.after_insert_host(start, key, host);
            match w.stop {
                Some((c, m)) => {
                    assert(visited.last() == st.nodes.len());
                },
                None => {
                    if w.chain.len() > 0 {
                        assert(w.chain[w.chain.len() - 1] < st.nodes.len());
                    }
                },
            }
            assert(p < a.nodes.len() && a.nodes[p as int].host is Some);
            lemma_kept(a, a.ticked());
            lemma_grown(
                a.ticked(),
                p,
                f.ns_of(key),
                flat.skip(w.used as int),
                t.nodes[a.nodes.len() as int],
            );
        }
    }
}

/// Locks, demotions, and loads planned, given up or carried out leave the
/// host copies alone.
pub proof fn law_locks_and_loads_keep_backups(
    st: HiState,
    node: NodeId,
    quota: Option<i64>,
    ids: Seq<NodeId>,
    run: Seq<i64>,
)
    requires
        st.wf(),
        st.contiguous(),
        node < st.nodes.len(),
        forall|k: int| 0 <= k < ids.len() ==> (#[trigger] ids[k]) < st.nodes.len(),
    ensures
        st.after_lock(node).contiguous(),
        st.after_unlock(node).contiguous(),
        st.detached(node).contiguous(),
        st.after_init_load(node, quota).contiguous(),
        st.after_finish_load(node, ids, None).contiguous(),
        ids.len() > 0 ==> st.after_finish_load(node, ids, Some(run)).contiguous(),
{
    lemma_same(st, st.after_lock(node));
    lemma_same(st, st.after_unlock(node));
    lemma_same(st, st.detached(node));
    hi_laws::lemma_load_chain(st, node);
    let up = st.load_chain(node);
    let p = st.after_lock(st.load_ancestor(node));
    assert(within(p, up));
    lemma_host_held(p, up, 1);
    lemma_then(st, p, p.host_held(up, 1));
    lemma_same(st, p.host_held(up, 1));
    let a = st.after_unlock(node);
    assert(within(a, ids));
    lemma_host_held(a, ids, -1);
    let b = a.host_held(ids, -1);
    lemma_then(st, a, b);
    lemma_same(st, b);
    if ids.len() > 0 {
        assert(within(b, ids));
        lemma_loaded(b, ids, run);
        let c = b.loaded(ids, run);
        lemma_then(st, b, c);
        let d = c.after_lock(ids.last());
        lemma_then(st, c, d);
        lemma_same(st, d);
    }
}

/// An eviction from the device keeps the prefix.
pub proof fn law_evict_keeps_backups(st: HiState, budget: int)
    requires
        st.wf(),
        st.nodes.len() <= NodeId::MAX,
        st.contiguous(),
    ensures
        st.after_evict(budget).0.contiguous(),
    decreases st.live_count(),
{
    if let Some(x) = st.victim(st.leaves()) {
        if budget > 0 && st.leaf(x) {
            let a = st.evict_step(x);
            hi_model::lemma_evict_counts(st, x);
            assert(st.node_ok(x as int));
            if st.nodes[x as int].host is Some {
                hi_model::lemma_detached(st, x);
            } else {
                assert(st.shape.is_leaf(x)) by {
                    assert forall|c: NodeId| !#[trigger] st.shape.is_child(x, c) by {
                        if st.shape.is_child(x, c) {
                            assert(st.node_ok(c as int));
                            assert(st.nodes[c as int].value is None);
                            assert(st.backed_below(c as int));
                        }
                    }
                }
                hi_model::lemma_erased(st, x);
            }
            lemma_same(st, a);
            law_evict_keeps_backups(a, budget - st.nodes[x as int].value->0.len());
        }
    }
}

/// An eviction from the host keeps the prefix.
pub proof fn law_evict_host_keeps_backups(st: HiState, budget: int)
    requires
        st.wf(),
        st.contiguous(),
    ensures
        st.after_evict_host(budget).0.contiguous(),
    decreases st.node_count(),
{
    if let Some(x) = st.victim(st.host_leaves()) {
        if budget > 0 && st.host_leaf(x) {
            let a = st.erased(x);
            hi_model::lemma_erase_counts(st, x);
            assert(st.shape.is_leaf(x)) by {
                assert forall|c: NodeId| !#[trigger] st.shape.is_child(x, c) by {
                    if st.shape.is_child(x, c) {
                        assert(st.node_ok(c as int));
                        assert(st.nodes[c as int].host is None);
                    }
                }
            }
            hi_model::lemma_erased(st, x);
            assert forall|i: int| 0 < i < a.nodes.len() implies #[trigger] a.backed_below(i) by {
                assert(st.backed_below(i));
                assert(st.node_ok(i));
                assert(st.shape.hangs(i));
                if a.nodes[i].host is Some && st.shape.nodes[i].parent == x {
                    assert(st.shape.is_child(x, i as NodeId));
                }
            }
            law_evict_host_keeps_backups(a, budget - hi_model::run_or_none(st.nodes[x as int].host).len());
        }
    }
}

/// A subtree that is dropped keeps the prefix.
pub proof fn law_drop_keeps_backups(st: HiState, top: NodeId)
    requires
        st.wf(),
        st.contiguous(),
        0 < top < st.nodes.len(),
    ensures
        st.after_drop(top).contiguous(),
{
    let t = st.after_drop(top);
    assert forall|i: int| 0 < i < t.nodes.len() implies #[trigger] t.backed_below(i) by {
        let x = i as NodeId;
        let p = st.shape.nodes[i].parent;
        assert(st.backed_below(i));
        assert(st.node_ok(i));
        assert(st.shape.hangs(i));
        if t.nodes[i].host is Some && st.below(top, p) {
            topo::lemma_path_grows(st.shape, x);
            assert(st.shape.up(x) == seq![x] + st.shape.up(p));
            let k = st.shape.up(p).index_of(top);
            assert(st.shape.up(x)[k + 1] == top);
        }
    }
}

} // verus!
