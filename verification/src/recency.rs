//! What becomes most recently used, and what goes first.
//!
//! The two recency orders of the sliding-window tree and of the hybrid tree:
//! a match moves the path it ends at to the recent end and nothing else.

use crate::key::RadixKey;
use crate::lru;
use crate::mamba_laws;
use crate::mamba_model;
use crate::mamba_model::MambaState;
use crate::query;
use crate::swa_model;
use crate::swa_model::SWAState;
use crate::topo;
use crate::topo::{NodeId, Walk, ROOT};
use vstd::prelude::*;

verus! {

/// In `order` the nodes of `path` stand before all others, the first of them
/// first.
pub open spec fn leads_with(order: Seq<NodeId>, path: Seq<NodeId>) -> bool {
    &&& forall|i: int, j: int|
        #![trigger path[i], path[j]]
        0 <= i < j < path.len() && order.contains(path[i]) && order.contains(path[j]) ==> lru::ahead(
            order,
            path[i],
            path[j],
        )
    &&& forall|y: NodeId, z: NodeId|
        #![trigger path.contains(y), order.contains(z)]
        path.contains(y) && order.contains(y) && order.contains(z) && !path.contains(z) ==> lru::ahead(order, y, z)
}

/// The members of `order` that are neither on `path` nor cut by the walk `w`
/// are in `next` in the order they had.
pub open spec fn keeps_the_rest(order: Seq<NodeId>, next: Seq<NodeId>, path: Seq<NodeId>, w: Walk) -> bool {
    forall|y: NodeId, z: NodeId|
        #![trigger lru::ahead(next, y, z)]
        order.contains(y) && order.contains(z) && !path.contains(y) && !path.contains(z) && !was_cut(w, y) && !was_cut(
            w,
            z,
        ) ==> lru::ahead(next, y, z) == lru::ahead(order, y, z)
}

/// Whether the walk cuts `x`.
pub open spec fn was_cut(w: Walk, x: NodeId) -> bool {
    w.stop matches Some((c, m)) && c == x
}

/// The tree as a walk leaves it: its nodes, and where it ends.
pub proof fn lemma_swa_walk(st: SWAState, key: RadixKey)
    requires
        st.wf(),
        st.nodes.len() < NodeId::MAX,
        st.names.len() < u32::MAX,
    ensures
        ({
            let w = st.frame().walk(key);
            let (a, ids) = st.after_walk(key);
            &&& a.wf()
            &&& forall|j: int| 0 <= j < ids.len() ==> a.live(#[trigger] ids[j])
            &&& w.stop matches Some((c, m)) ==> {
                &&& st.live(c)
                &&& a.full == lru::with_pair(st.full, c, st.nodes.len() as NodeId)
                &&& a.swa == (if st.nodes[c as int].tombstone {
                    st.swa
                } else {
                    lru::with_pair(st.swa, c, st.nodes.len() as NodeId)
                })
            }
            &&& w.stop is None ==> a.full == st.full && a.swa == st.swa
        }),
{
    let f = st.frame();
    let w = f.walk(key);
    let (a, ids) = st.after_walk(key);
    let base = SWAState { names: f.names_with(key), ..st };
    crate::ns::law_namespaces_are_stable(st.names, key.namespace(), key.namespace());
    swa_model::lemma_reordered(st, base);
    assert(forall|j: int| 0 <= j < w.chain.len() ==> base.live(#[trigger] w.chain[j])) by {
        query::lemma_query(f, key);
        assert forall|j: int| 0 <= j < w.chain.len() implies base.live(#[trigger] w.chain[j]) by {
            assert(base.node_ok(w.chain[j] as int));
        }
    }
    if let Some((c, m)) = w.stop {
        assert(st.shape.is_child(topo::end_of(w.chain), c) && !w.chain.contains(c) && 0 < m
            < st.shape.nodes[c as int].key.len() && st.shape.aligned(m as int)) by {
            query::lemma_query(f, key);
        }
        assert(base.node_ok(c as int));
        swa_model::lemma_cut(base, c, m as int);
        assert forall|j: int| 0 <= j < ids.len() implies a.live(#[trigger] ids[j]) by {
            if j < w.chain.len() {
                assert(ids[j] == w.chain[j]);
                assert(base.live(w.chain[j]));
            }
        }
    }
}

/// Where a match of the sliding-window tree ends is on its way.
proof fn lemma_swa_best(st: SWAState, ids: Seq<NodeId>, k: nat)
    requires
        k <= ids.len(),
    ensures
        st.scan(ids, k).len <= k,
        st.scan(ids, k).node == topo::end_of(ids.take(st.scan(ids, k).len as int)),
    decreases k,
{
    if k > 0 {
        lemma_swa_best(st, ids, (k - 1) as nat);
    }
}

/// A match of the sliding-window tree makes the path of the node it ends at
/// the most recently used one, that node first: in the full order all of it,
/// in the window order what of it has window slots. The order among the
/// other nodes is as it was, but for a node that the match cuts.
pub proof fn law_swa_match_refreshes(st: SWAState, key: RadixKey)
    requires
        st.wf(),
        st.nodes.len() < NodeId::MAX,
        st.names.len() < u32::MAX,
        !st.disable,
        st.frame().flat(key).len() > 0,
    ensures
        ({
            let w = st.frame().walk(key);
            let (t, indices, x) = st.after_match(key);
            let path = t.shape.up(x);
            &&& x == ROOT || t.live(x)
            &&& forall|k: int| 0 <= k < path.len() ==> t.full.contains(#[trigger] path[k])
            &&& forall|k: int|
                0 <= k < path.len() && t.windowed(path[k]) ==> t.swa.contains(#[trigger] path[k])
            &&& leads_with(t.full, path)
            &&& leads_with(t.swa, path)
            &&& keeps_the_rest(st.full, t.full, path, w)
            &&& keeps_the_rest(st.swa, t.swa, path, w)
        }),
{
    let w = st.frame().walk(key);
    let (a, ids) = st.after_walk(key);
    let (len, x) = a.best(ids);
    let t = st.after_match(key).0;
    let path = a.shape.up(x);
    let f = st.nodes.len() as NodeId;
    lemma_swa_walk(st, key);
    lemma_swa_best(a, ids, ids.len());
    assert(x == ROOT || a.live(x)) by {
        if len > 0 {
            assert(len <= ids.len());
            assert(a.live(ids[len - 1]));
            assert(ids.take(len as int)[len - 1] == ids[len - 1]);
            assert(ids.take(ids.len() as int) =~= ids);
        }
    }
    swa_model::lemma_up_live(a, x);
    swa_model::lemma_kept(a, path);
    swa_model::lemma_refreshed(a, x);
    let kept = a.kept(path);
    lru::law_lift_keeps_members(a.full, path);
    lru::law_lift_keeps_members(a.swa, kept);
    lru::law_lift_order(a.full, path);
    lru::law_lift_order(a.swa, kept);
    lemma_kept_order(a, path);
    assert forall|k: int| 0 <= k < path.len() && t.windowed(path[k]) implies t.swa.contains(#[trigger] path[k]) by {
        assert(path.contains(path[k]));
        assert(kept.contains(path[k]));
    }
    assert(leads_with(t.full, path)) by {
        assert forall|y: NodeId, z: NodeId|
            #![trigger path.contains(y), t.full.contains(z)]
            path.contains(y) && t.full.contains(y) && t.full.contains(z) && !path.contains(z) implies lru::ahead(
            t.full,
            y,
            z,
        ) by {
            assert(a.full.contains(z));
        }
    }
    assert(leads_with(t.swa, path)) by {
        assert forall|i: int, j: int|
            #![trigger path[i], path[j]]
            0 <= i < j < path.len() && t.swa.contains(path[i]) && t.swa.contains(path[j]) implies lru::ahead(
            t.swa,
            path[i],
            path[j],
        ) by {
            assert(a.swa.contains(path[i]) && a.swa.contains(path[j]));
            assert(lru::ahead(kept, path[i], path[j]));
            let (p, q) = choose|p: int, q: int|
                0 <= p < q < kept.len() && #[trigger] kept[p] == path[i] && #[trigger] kept[q] == path[j];
            assert(lru::ahead(t.swa, kept[p], kept[q]));
        }
        assert forall|y: NodeId, z: NodeId|
            #![trigger path.contains(y), t.swa.contains(z)]
            path.contains(y) && t.swa.contains(y) && t.swa.contains(z) && !path.contains(z) implies lru::ahead(
            t.swa,
            y,
            z,
        ) by {
            assert(a.swa.contains(z) && a.swa.contains(y));
            assert(kept.contains(y) && !kept.contains(z));
        }
    }
    assert(!st.full.contains(f) && !st.swa.contains(f)) by {
        assert(!st.live(f));
        assert(!st.windowed(f));
    }
    assert(keeps_the_rest(st.full, t.full, path, w)) by {
        assert forall|y: NodeId, z: NodeId|
            #![trigger lru::ahead(t.full, y, z)]
            st.full.contains(y) && st.full.contains(z) && !path.contains(y) && !path.contains(z) && !was_cut(w, y)
                && !was_cut(w, z) implies lru::ahead(t.full, y, z) == lru::ahead(st.full, y, z) by {
            assert(lru::ahead(t.full, y, z) == lru::ahead(a.full, y, z));
            if let Some((c, m)) = w.stop {
                lru::law_pair_order(st.full, c, f);
            }
        }
    }
    assert(keeps_the_rest(st.swa, t.swa, path, w)) by {
        assert forall|y: NodeId, z: NodeId|
            #![trigger lru::ahead(t.swa, y, z)]
            st.swa.contains(y) && st.swa.contains(z) && !path.contains(y) && !path.contains(z) && !was_cut(w, y)
                && !was_cut(w, z) implies lru::ahead(t.swa, y, z) == lru::ahead(st.swa, y, z) by {
            assert(!kept.contains(y) && !kept.contains(z));
            assert(lru::ahead(t.swa, y, z) == lru::ahead(a.swa, y, z));
            if let Some((c, m)) = w.stop {
                if !st.nodes[c as int].tombstone {
                    assert(st.windowed(c));
                    lru::law_pair_order(st.swa, c, f);
                }
            }
        }
    }
}

/// The nodes with window slots stand in the order of all.
proof fn lemma_kept_order(st: SWAState, ids: Seq<NodeId>)
    requires
        st.wf(),
        ids.no_duplicates(),
        forall|k: int| 0 <= k < ids.len() ==> st.live(#[trigger] ids[k]),
    ensures
        forall|i: int, j: int|
            #![trigger ids[i], ids[j]]
            0 <= i < j < ids.len() && st.swa.contains(ids[i]) && st.swa.contains(ids[j]) ==> lru::ahead(
                st.kept(ids),
                ids[i],
                ids[j],
            ),
    decreases ids.len(),
{
    if ids.len() > 0 {
        let xs = ids.drop_last();
        let x = ids.last();
        assert forall|k: int| 0 <= k < xs.len() implies st.live(#[trigger] xs[k]) by {
            assert(xs[k] == ids[k]);
        }
        lemma_kept_order(st, xs);
        swa_model::lemma_kept(st, xs);
        let front = st.kept(xs);
        let all = st.kept(ids);
        assert forall|i: int, j: int|
            #![trigger ids[i], ids[j]]
            0 <= i < j < ids.len() && st.swa.contains(ids[i]) && st.swa.contains(ids[j]) implies lru::ahead(
            all,
            ids[i],
            ids[j],
        ) by {
            assert(st.live(ids[j]));
            assert(st.windowed(ids[i]) && st.windowed(ids[j]));
            if j < xs.len() {
                assert(xs[i] == ids[i] && xs[j] == ids[j]);
                let (p, q) = choose|p: int, q: int|
                    0 <= p < q < front.len() && #[trigger] front[p] == ids[i] && #[trigger] front[q] == ids[j];
                assert(all[p] == ids[i] && all[q] == ids[j]);
            } else {
                assert(xs[i] == ids[i]);
                assert(xs.contains(ids[i]));
                assert(front.contains(ids[i]));
                assert(all == front.push(x));
                let p = front.index_of(ids[i]);
                assert(all[p] == ids[i] && all[front.len() as int] == ids[j]);
            }
        }
    }
}

/// A match of the hybrid tree makes the path of the node it ends at the most
/// recently used one in the full order, that node first, and the node the
/// most recently used one in the order of states. The order among the other
/// nodes is as it was, but for a node that the match cuts.
pub proof fn law_mamba_match_refreshes(st: MambaState, key: RadixKey)
    requires
        st.wf(),
        st.nodes.len() < NodeId::MAX,
        st.names.len() < u32::MAX,
        !st.disable,
        st.frame().flat(key).len() > 0,
    ensures
        ({
            let w = st.frame().walk(key);
            let (t, indices, x, branching) = st.after_match(key);
            let path = t.shape.up(x);
            &&& x == ROOT || t.stateful(x)
            &&& forall|k: int| 0 <= k < path.len() ==> t.full.contains(#[trigger] path[k])
            &&& leads_with(t.full, path)
            &&& keeps_the_rest(st.full, t.full, path, w)
            &&& forall|z: NodeId| t.mamba.contains(z) && z != x && x != ROOT ==> #[trigger] lru::ahead(t.mamba, x, z)
            &&& forall|y: NodeId, z: NodeId|
                y != x && z != x ==> #[trigger] lru::ahead(t.mamba, y, z) == lru::ahead(st.mamba, y, z)
        }),
{
    let w = st.frame().walk(key);
    let (a, ids) = st.after_walk(key);
    let (len, x) = a.best(ids);
    let t = st.after_match(key).0;
    let path = a.shape.up(x);
    let f = st.nodes.len() as NodeId;
    mamba_laws::lemma_visited(st, key);
    lemma_mamba_best(a, ids);
    assert(a.mamba == st.mamba);
    if let Some((c, m)) = w.stop {
        assert(st.shape.is_child(topo::end_of(w.chain), c)) by {
            query::lemma_query(st.frame(), key);
        }
        assert(st.node_ok(c as int));
        assert(st.live(c));
        assert(a.full == lru::with_pair(st.full, c, f));
    }
    mamba_model::lemma_up_live(a, x);
    lru::law_lift_keeps_members(a.full, path);
    lru::law_lift_order(a.full, path);
    lru::law_touch_keeps_members(a.mamba, x);
    if x != ROOT {
        assert(a.stateful(x));
        lru::law_touch_order(a.mamba, x);
    } else {
        assert(!a.stateful(x));
        assert(!a.mamba.contains(x));
    }
    assert(leads_with(t.full, path)) by {
        assert forall|y: NodeId, z: NodeId|
            #![trigger path.contains(y), t.full.contains(z)]
            path.contains(y) && t.full.contains(y) && t.full.contains(z) && !path.contains(z) implies lru::ahead(
            t.full,
            y,
            z,
        ) by {
            assert(a.full.contains(z));
        }
    }
    assert(!st.full.contains(f)) by {
        assert(!st.live(f));
    }
    assert(keeps_the_rest(st.full, t.full, path, w)) by {
        assert forall|y: NodeId, z: NodeId|
            #![trigger lru::ahead(t.full, y, z)]
            st.full.contains(y) && st.full.contains(z) && !path.contains(y) && !path.contains(z) && !was_cut(w, y)
                && !was_cut(w, z) implies lru::ahead(t.full, y, z) == lru::ahead(st.full, y, z) by {
            assert(lru::ahead(t.full, y, z) == lru::ahead(a.full, y, z));
            if let Some((c, m)) = w.stop {
                lru::law_pair_order(st.full, c, f);
            }
        }
    }
}

/// Where a match of the hybrid tree ends is on its way, with a state.
pub proof fn lemma_mamba_best(st: MambaState, ids: Seq<NodeId>)
    requires
        mamba_model::chain_of(st, ids),
    ensures
        st.best(ids).1 == ROOT || st.stateful(st.best(ids).1),
        st.best(ids).0 <= ids.len(),
        st.best(ids).1 == topo::end_of(ids.take(st.best(ids).0 as int)),
        st.best(ids).0 == 0 ==> st.best(ids).1 == ROOT,
    decreases ids.len(),
{
    if ids.len() > 0 {
        let xs = ids.drop_last();
        assert forall|j: int| 0 <= j < xs.len() implies st.live(#[trigger] xs[j]) by {
            assert(ids[j] == xs[j]);
        }
        assert(mamba_model::chain_of(st, xs));
        lemma_mamba_best(st, xs);
        assert(st.live(ids[ids.len() - 1]));
        let k = st.best(ids).0 as int;
        if k < ids.len() {
            assert(ids.take(k) =~= xs.take(k));
        } else {
            assert(ids.take(k) =~= ids);
        }
    }
}

} // verus!
