//! What the two-tier tree loads back and what it takes in on the host alone.

use crate::hi_model::{HiCounter, HiState};
use crate::key::RadixKey;
use crate::query;
use crate::topo;
use crate::topo::{NodeId, ROOT};
use vstd::prelude::*;

verus! {

proof fn lemma_demoted_run(st: HiState, up: Seq<NodeId>)
    ensures
        ({
            let run = st.demoted_run(up);
            let n = run.len() as int;
            &&& n <= up.len()
            &&& run == up.take(n)
            &&& forall|k: int| 0 <= k < n ==> st.nodes[(#[trigger] up[k]) as int].value is None
            &&& n < up.len() ==> st.nodes[up[n] as int].value is Some
        }),
    decreases up.len(),
{
    let run = st.demoted_run(up);
    if !(up.len() == 0 || st.nodes[up[0] as int].value is Some) {
        let rest = up.drop_first();
        lemma_demoted_run(st, rest);
        let less = st.demoted_run(rest);
        let n = run.len() as int;
        assert(run == seq![up[0]] + less);
        assert(run =~= up.take(n)) by {
            assert forall|k: int| 0 <= k < n implies run[k] == up[k] by {
                if k > 0 {
                    assert(less[k - 1] == rest[k - 1]);
                }
            }
        }
        assert forall|k: int| 0 <= k < n implies st.nodes[(#[trigger] up[k]) as int].value is None by {
            if k > 0 {
                assert(rest[k - 1] == up[k]);
            }
        }
        if n < up.len() {
            assert(rest[n - 1] == up[n]);
        }
    } else {
        assert(run =~= up.take(0));
    }
}

/// A load-back for `last` loads the nodes of its path that are not on the
/// device, down from the first, `last` included; right above them is a node
/// on the device. It goes ahead if `last` is not on the device, the host
/// slots of those nodes are as many as a load-back takes at least, and fit
/// into the quota together with what locking the node above takes from the
/// evictable tokens.
pub proof fn law_hi_load_plan(st: HiState, last: NodeId, quota: Option<i64>)
    requires
        st.wf(),
        0 < last < st.nodes.len(),
        st.shape.nodes[last as int].attached,
    ensures
        ({
            let ids = st.load_chain(last);
            let top = st.load_ancestor(last);
            let n = st.host_gathered(ids).len();
            let taken = st.count(HiCounter::Evictable) - st.after_lock(top).count(HiCounter::Evictable);
            &&& st.nodes[top as int].value is Some
            &&& ids.len() > 0 <==> st.nodes[last as int].value is None
            &&& ids.len() > 0 ==> ids.last() == last && st.shape.nodes[ids[0] as int].parent == top
            &&& ids.len() == 0 ==> top == last
            &&& forall|k: int|
                #![trigger ids[k]]
                0 <= k < ids.len() ==> st.nodes[ids[k] as int].value is None && (k > 0 ==> st.shape.nodes[
                    ids[k] as int].parent == ids[k - 1])
            &&& st.load_goes(last, quota) <==> st.nodes[last as int].value is None && st.load_min <= n && (quota matches Some(
                q,
            ) ==> n + taken <= q)
            &&& !st.load_goes(last, quota) ==> st.after_init_load(last, quota) == st
        }),
{
    let up = st.shape.up(last);
    let ids = st.load_chain(last);
    let top = st.load_ancestor(last);
    let run = st.demoted_run(up);
    let n = run.len() as int;
    lemma_demoted_run(st, up);
    topo::lemma_up(st.shape, last);
    assert(up.len() > 0 && up[0] == last);
    assert(ids.len() == n);
    assert forall|k: int| #![trigger ids[k]] 0 <= k < ids.len() implies st.nodes[ids[k] as int].value is None && (k > 0
        ==> st.shape.nodes[ids[k] as int].parent == ids[k - 1]) by {
        assert(ids[k] == run[n - 1 - k]);
        assert(run[n - 1 - k] == up[n - 1 - k]);
        if k > 0 {
            assert(ids[k - 1] == run[n - k]);
            assert(run[n - k] == up[n - k]);
        }
    }
    if n > 0 {
        assert(ids.last() == run[0]);
        assert(run[0] == up[0]);
        assert(ids[0] == run[n - 1]);
        assert(run[n - 1] == up[n - 1]);
        assert(st.shape.nodes[up[n - 1] as int].parent == (if n < up.len() {
            up[n]
        } else {
            ROOT
        }));
    } else {
        assert(st.nodes[up[0] as int].value is Some);
    }
}

/// An insert on the host adds what the tree does not hold of the key below
/// `start`: one leaf, with its part of the host slots and nothing on the
/// device, whose path is the whole key below `start`.
#[verifier::spinoff_prover]
#[verifier::rlimit(60)]
pub proof fn law_hi_insert_host_stores(st: HiState, start: NodeId, key: RadixKey, host: Seq<i64>)
    requires
        st.wf(),
        st.roomy(),
        !st.disable,
        start < st.nodes.len(),
        st.shape.nodes[start as int].attached,
        start != ROOT ==> st.shape.nodes[start as int].ns == st.frame().ns_of(key),
        st.frame().fits(key),
        st.frame().flat(key).len() > 0,
        host.len() >= st.frame().units(key),
        st.frame().walk_at(start, key).used < st.frame().flat(key).len(),
    ensures
        ({
            let f = st.frame();
            let matched = f.walk_at(start, key).used as int / st.shape.unit as int;
            let t = st.after_insert_host(start, key, host);
            let leaf = t.nodes.len() - 1;
            &&& t.nodes[leaf].value is None
            &&& t.nodes[leaf].host == Some(host.subrange(matched, f.units(key)))
            &&& t.nodes[leaf].lock == 0 && t.nodes[leaf].host_ref == 0
            &&& t.shape.nodes[leaf].path == st.shape.nodes[start as int].path + f.flat(key)
            &&& t.shape.nodes[leaf].attached
            &&& t.shape.nodes[leaf].ns == f.ns_of(key)
        }),
{
    let f = st.frame();
    let flat = f.flat(key);
    let w = f.walk_at(start, key);
    let (a, visited, splits) = st.after_walk(start, w, f.names_with(key));
    let p = query::end_from(start, visited);
    let t = st.after_insert_host(start, key, host);
    let s = st.shape;
    let ns = f.ns_of(key);
    query::lemma_flat(f, key);
    assert(w == s.walk(start, ns, flat));
    assert(w.used <= flat.len() && (w.stop matches Some((c, m)) ==> s.is_child(query::end_from(start, w.chain), c) && m
        <= w.used)) by {
        query::lemma_query_at(f, start, key);
    }
    topo::lemma_walk_path(s, start, ns, flat);
    assert(forall|k: int| 0 <= k < w.chain.len() ==> (#[trigger] w.chain[k]) < st.nodes.len()) by {
        query::lemma_query_at(f, start, key);
    }
    lemma_after_walk(st, start, w, f.names_with(key));
    let leaf = t.nodes.len() - 1;
    assert(t.shape.nodes.len() == a.shape.nodes.len() + 1);
    assert(t.shape.nodes[leaf].path == a.shape.nodes[p as int].path + flat.skip(w.used as int));
    assert(a.shape.nodes[p as int].path == s.nodes[start as int].path + flat.take(w.used as int)) by {
        if let Some((c, m)) = w.stop {
            let end = query::end_from(start, w.chain);
            assert(p == s.nodes.len());
            assert(s.nodes[c as int].parent == end);
            assert(s.nodes[end as int].path == s.nodes[start as int].path + flat.take(w.used - m));
            assert(s.nodes[c as int].key.take(m as int) == flat.subrange(w.used - m, w.used as int)) by {
                lemma_stop_key(s, start, ns, flat);
            }
            assert(a.shape.nodes[p as int].path == s.nodes[end as int].path + s.nodes[c as int].key.take(m as int));
            assert(flat.take(w.used - m) + flat.subrange(w.used - m, w.used as int) =~= flat.take(w.used as int));
            assert((s.nodes[start as int].path + flat.take(w.used - m)) + flat.subrange(w.used - m, w.used as int)
                =~= s.nodes[start as int].path + flat.take(w.used as int));
        }
    }
    assert(flat.take(w.used as int) + flat.skip(w.used as int) =~= flat);
    assert((s.nodes[start as int].path + flat.take(w.used as int)) + flat.skip(w.used as int)
        =~= s.nodes[start as int].path + flat);
}

/// Where a walk stops inside a node, the query goes on with the front of its
/// key.
pub(crate) proof fn lemma_stop_key(s: topo::Shape, node: NodeId, ns: u32, rem: Seq<i64>)
    requires
        s.wf(),
        s.has(node),
        s.aligned(rem.len() as int),
    ensures
        ({
            let w = s.walk(node, ns, rem);
            w.stop matches Some((c, m)) ==> m <= w.used <= rem.len() && s.nodes[c as int].key.take(m as int)
                == rem.subrange(w.used - m, w.used as int)
        }),
    decreases rem.len(),
{
    topo::lemma_chunk(s);
    let k = s.chunk() as int;
    let w = s.walk(node, ns, rem);
    if rem.len() >= k {
        if let Some(c) = s.child_of(node, ns, rem.take(k)) {
            assert(s.named(node, ns, rem.take(k), c));
            topo::lemma_shared(s, rem, c);
            let m = s.shared(rem, c) as int;
            if m < s.nodes[c as int].key.len() {
                assert(rem.subrange(0, m) =~= rem.take(m));
            } else {
                vstd::arithmetic::div_mod::lemma_small_mod(0, s.chunk());
                topo::lemma_aligned(s, rem.len() as int, m);
                lemma_stop_key(s, c, ns, rem.skip(m));
                let v = s.walk(c, ns, rem.skip(m));
                if let Some((d, n)) = v.stop {
                    assert(rem.skip(m).subrange(v.used - n, v.used as int) =~= rem.subrange(
                        w.used - n,
                        w.used as int,
                    ));
                }
            }
        }
    }
}

/// The shape that a walk leaves.
proof fn lemma_after_walk(st: HiState, start: NodeId, w: topo::Walk, names: Seq<crate::ns::Names>)
    requires
        start < st.nodes.len(),
        forall|k: int| 0 <= k < w.chain.len() ==> (#[trigger] w.chain[k]) < st.nodes.len(),
        w.stop matches Some((c, m)) ==> c < st.nodes.len(),
        st.nodes.len() == st.shape.nodes.len(),
    ensures
        ({
            let a = st.after_walk(start, w, names).0;
            &&& a.nodes.len() == a.shape.nodes.len()
            &&& a.shape == (match w.stop {
                Some((c, m)) => st.shape.split(c, m as int),
                None => st.shape,
            })
        }),
{
    let now = (st.clock + 1) as u64;
    let base = HiState { names, clock: now, ..st };
    let road = seq![start] + w.chain;
    assert forall|k: int| 0 <= k < road.len() implies (#[trigger] road[k]) < st.nodes.len() by {
        if k > 0 {
            assert(road[k] == w.chain[k - 1]);
        }
    }
    lemma_stamped_shape(base, road, now);
    if let Some((c, m)) = w.stop {
        let all = road.push(c);
        assert forall|k: int| 0 <= k < all.len() implies (#[trigger] all[k]) < st.nodes.len() by {
            if k < road.len() {
                assert(all[k] == road[k]);
            }
        }
        lemma_stamped_shape(base, all, now);
    }
}

proof fn lemma_stamped_shape(st: HiState, ids: Seq<NodeId>, now: u64)
    requires
        forall|k: int| 0 <= k < ids.len() ==> (#[trigger] ids[k]) < st.nodes.len(),
    ensures
        st.stamped(ids, now).shape == st.shape,
        st.stamped(ids, now).nodes.len() == st.nodes.len(),
    decreases ids.len(),
{
    if ids.len() > 0 {
        let front = ids.drop_last();
        assert forall|k: int| 0 <= k < front.len() implies (#[trigger] front[k]) < st.nodes.len() by {
            assert(ids[k] == front[k]);
        }
        assert(ids[ids.len() - 1] < st.nodes.len());
        lemma_stamped_shape(st, ids.drop_last(), now);
    }
}

} // verus!
