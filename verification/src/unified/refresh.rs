//! What a match makes recent: the path of the node it ends at, in the stamps
//! and in the lists that evictions go by.

use crate::chains;
use crate::lru;
use crate::topo;
use crate::topo::{NodeId, Walk, ROOT};
use crate::unified::laws;
use crate::unified::matching;
use crate::unified::model;
use crate::unified::model::{UNodeState, UState};
use vstd::prelude::*;

verus! {

/// Whether a match that ends at `x` uses the window slots of `y`: `y` has
/// some, and is on the path of `x` less than a window and a page from its
/// end.
pub open spec fn in_use(st: UState, x: NodeId, y: NodeId) -> bool {
    let up = st.shape.up(x);
    exists|k: int|
        0 <= k < up.len() && #[trigger] up[k] == y && st.nodes[y as int].value[1] is Some && chains::tokens(
            st.shape,
            up,
            k,
        ) < st.cfg.sliding_window_size + st.cfg.page_size
}

/// Whether the walk `w` of a tree of `n` nodes cuts `y`, or `y` comes of it.
pub open spec fn of_the_cut(w: Walk, n: nat, y: NodeId) -> bool {
    y >= n || (w.stop matches Some((c, m)) && c == y)
}

proof fn lemma_window(st: UState, up: Seq<NodeId>, k: int, limit: int)
    requires
        0 <= k <= up.len(),
    ensures
        forall|y: NodeId| #[trigger]
            st.window_ids(up, k, limit).contains(y) <==> exists|j: int|
                0 <= j < k && #[trigger] up[j] == y && st.nodes[y as int].value[1] is Some && chains::tokens(
                    st.shape,
                    up,
                    j,
                ) < limit,
    decreases k,
{
    let xs = st.window_ids(up, k, limit);
    if k > 0 {
        lemma_window(st, up, k - 1, limit);
        let less = st.window_ids(up, k - 1, limit);
        assert forall|y: NodeId| #[trigger] xs.contains(y) <==> exists|j: int|
            0 <= j < k && #[trigger] up[j] == y && st.nodes[y as int].value[1] is Some && chains::tokens(
                st.shape,
                up,
                j,
            ) < limit by {
            crate::tree_model::lemma_push_contains(less, up[k - 1], y);
            if xs.contains(y) {
                if less.contains(y) {
                    let j = choose|j: int|
                        0 <= j < k - 1 && #[trigger] up[j] == y && st.nodes[y as int].value[1] is Some && chains::tokens(
                            st.shape,
                            up,
                            j,
                        ) < limit;
                    assert(up[j] == y);
                } else {
                    assert(up[k - 1] == y);
                }
            }
            if exists|j: int|
                0 <= j < k && #[trigger] up[j] == y && st.nodes[y as int].value[1] is Some && chains::tokens(
                    st.shape,
                    up,
                    j,
                ) < limit {
                let j = choose|j: int|
                    0 <= j < k && #[trigger] up[j] == y && st.nodes[y as int].value[1] is Some && chains::tokens(
                        st.shape,
                        up,
                        j,
                    ) < limit;
                if j < k - 1 {
                    assert(less.contains(y));
                }
            }
        }
    }
}

/// What stamping leaves in a node.
proof fn lemma_stamps(st: UState, ids: Seq<NodeId>, k: int, now: int)
    requires
        0 <= k <= ids.len(),
        ids.no_duplicates(),
        st.nodes.len() <= NodeId::MAX,
        model::TICK <= now <= model::CLOCK_CAP + model::TICK,
        ids.len() <= st.nodes.len(),
        forall|j: int| 0 <= j < ids.len() ==> (#[trigger] ids[j]) < st.nodes.len(),
    ensures
        ({
            let t = st.stamped(ids, k, now);
            &&& t == (UState { nodes: t.nodes, ..st })
            &&& t.nodes.len() == st.nodes.len()
            &&& forall|j: int| #![trigger ids[j]] 0 <= j < k ==> t.nodes[ids[j] as int].access == now - j
            &&& forall|i: int|
                0 <= i < st.nodes.len() && !ids.take(k).contains(i as NodeId) ==> (#[trigger] t.nodes[i]) == st.nodes[i]
            &&& forall|i: int|
                0 <= i < st.nodes.len() ==> (#[trigger] t.nodes[i]) == (UNodeState {
                    access: t.nodes[i].access,
                    ..st.nodes[i]
                })
        }),
    decreases k,
{
    if k > 0 {
        lemma_stamps(st, ids, k - 1, now);
        let p = st.stamped(ids, k - 1, now);
        let t = st.stamped(ids, k, now);
        let x = ids[k - 1];
        assert(x < st.nodes.len());
        assert(ids.take(k) =~= ids.take(k - 1).push(x));
        assert forall|j: int| #![trigger ids[j]] 0 <= j < k implies t.nodes[ids[j] as int].access == now - j by {
            assert(ids[j] < st.nodes.len());
            if j < k - 1 {
                assert(ids[j] != ids[k - 1]);
            }
        }
        assert forall|i: int| 0 <= i < st.nodes.len() && !ids.take(k).contains(i as NodeId) implies (
        #[trigger] t.nodes[i]) == st.nodes[i] by {
            crate::tree_model::lemma_push_contains(ids.take(k - 1), x, i as NodeId);
        }
    }
}

/// A match stamps the path of the node it ends at, the root included: that
/// node is the newest, each node above it one tick of the path older, and no
/// stamp of the path is older than the clock was by more than the path is
/// long. No other node is stamped anew, but for the parts of one that is cut.
pub proof fn law_match_stamps(st: UState, ns: u32, raw: Seq<i64>)
    requires
        st.wf(),
        st.roomy(1),
        st.flat(raw).len() > 0,
    ensures
        ({
            let w = st.walk(ns, raw);
            let (t, m) = st.after_match(ns, raw);
            let up = t.shape.up(m.best);
            let top = t.nodes[ROOT as int].access;
            &&& st.clock <= top + up.len() <= t.clock
            &&& forall|k: int| #![trigger up[k]] 0 <= k < up.len() ==> t.nodes[up[k] as int].access == top + up.len() - k
            &&& forall|i: int|
                0 < i < st.nodes.len() && !up.contains(i as NodeId) && !of_the_cut(w, st.nodes.len(), i as NodeId)
                    ==> (#[trigger] t.nodes[i]).access == st.nodes[i].access
        }),
{
    let w = st.walk(ns, raw);
    let a = st.walked(w);
    let ids = st.passed(w);
    let (t, m) = st.after_match(ns, raw);
    let x = m.best;
    matching::lemma_walked(st, ns, raw);
    laws::lemma_usable_range(a, ids, ids.len() as int, true);
    laws::lemma_usable_range(a, ids, ids.len() as int, false);
    let km = if a.hicache {
        a.usable(ids, ids.len() as int, false)
    } else {
        a.usable(ids, ids.len() as int, true)
    };
    assert(a.live(x)) by {
        if 0 < km <= ids.len() {
            assert(a.inner(ids[km - 1]));
        }
    }
    let up = a.shape.up(x);
    matching::lemma_up_live(a, x);
    let b = if a.cfg.swa() {
        a.window_refreshed(x)
    } else {
        a
    };
    let c = if a.cfg.mamba() && b.nodes[x as int].value[2] is Some {
        b.relisted(4, lru::lifted(b.lru[4], seq![x]))
    } else {
        b
    };
    assert(c.nodes == a.nodes && c.clock == a.clock && c.shape == a.shape);
    let road = up.push(ROOT);
    assert forall|j: int| 0 <= j < road.len() implies (#[trigger] road[j]) < c.nodes.len() by {
        if j < up.len() {
            assert(a.inner(up[j]));
        }
    }
    assert(road.no_duplicates()) by {
        assert forall|i: int, j: int| 0 <= i < j < road.len() implies road[i] != road[j] by {
            assert(a.inner(up[i]));
        }
    }
    assert(road.len() <= c.nodes.len()) by {
        chains::lemma_ids_bound(road, c.nodes.len());
    }
    lemma_stamps(c, road, road.len() as int, c.clock as int);
    assert(road.take(road.len() as int) =~= road);
    let d = c.stamped(road, road.len() as int, c.clock as int);
    assert(t.nodes == d.nodes);
    assert(road[up.len() as int] == ROOT);
    assert(t.nodes[ROOT as int].access == c.clock - up.len());
    assert forall|k: int| #![trigger up[k]] 0 <= k < up.len() implies t.nodes[up[k] as int].access == c.clock - k by {
        assert(road[k] == up[k]);
    }
    assert forall|i: int|
        0 < i < st.nodes.len() && !up.contains(i as NodeId) && !of_the_cut(w, st.nodes.len(), i as NodeId) implies (
    #[trigger] t.nodes[i]).access == st.nodes[i].access by {
        crate::tree_model::lemma_push_contains(up, ROOT, i as NodeId);
        assert(d.nodes[i] == c.nodes[i]);
        if let Some((e, k)) = w.stop {
            let p = st.shape.nodes[e as int].parent;
            assert(st.cuttable(e, k as int));
            assert(i != e);
            assert(st.shape.hangs(e as int));
            if i != p {
                assert(a.nodes[i] == st.nodes[i]);
            }
        }
    }
}

/// The lists of a tree after a walk that cuts a node: the others keep their
/// order.
proof fn lemma_walked_lists(st: UState, ns: u32, raw: Seq<i64>, slot: int)
    requires
        st.wf(),
        st.roomy(1),
        slot == 2 || slot == 4,
    ensures
        ({
            let w = st.walk(ns, raw);
            let a = st.walked(w);
            forall|y: NodeId, z: NodeId|
                #![trigger lru::ahead(a.lru[slot], y, z)]
                !of_the_cut(w, st.nodes.len(), y) && !of_the_cut(w, st.nodes.len(), z) ==> lru::ahead(a.lru[slot], y, z)
                    == lru::ahead(st.lru[slot], y, z)
        }),
{
    let w = st.walk(ns, raw);
    let a = st.walked(w);
    matching::lemma_walked(st, ns, raw);
    if let Some((c, m)) = w.stop {
        let f = st.nodes.len() as NodeId;
        assert(st.cuttable(c, m as int));
        assert(st.inner(c));
        let ct = if slot == 2 { 1int } else { 2 };
        assert(st.lists_ok(ct, c));
        assert(st.lists_ok(ct, f));
        assert forall|y: NodeId, z: NodeId|
            #![trigger lru::ahead(a.lru[slot], y, z)]
            !of_the_cut(w, st.nodes.len(), y) && !of_the_cut(w, st.nodes.len(), z) implies lru::ahead(
            a.lru[slot],
            y,
            z,
        ) == lru::ahead(st.lru[slot], y, z) by {
            assert(y != c && z != c && y != f && z != f);
            if st.nodes[c as int].value[ct] is Some {
                if ct == 1 {
                    lru::law_pair_order(st.lru[2], c, f);
                } else {
                    lru::law_touch_order(st.lru[4], c);
                }
            }
        }
    }
}

/// A match makes the window slots that it uses the most recently used ones in
/// the list that window evictions go by, and the state of the node that it
/// ends at the most recently used one in the list of states. The order of the
/// rest is as it was, but for a node that is cut.
pub proof fn law_match_lists(st: UState, ns: u32, raw: Seq<i64>)
    requires
        st.wf(),
        st.roomy(1),
        st.flat(raw).len() > 0,
    ensures
        ({
            let w = st.walk(ns, raw);
            let n = st.nodes.len();
            let (t, m) = st.after_match(ns, raw);
            let x = m.best;
            &&& st.cfg.swa() ==> {
                &&& forall|y: NodeId, z: NodeId|
                    #![trigger in_use(t, x, y), t.lru[2].contains(z)]
                    in_use(t, x, y) && t.lru[2].contains(z) && !in_use(t, x, z) ==> lru::ahead(t.lru[2], y, z)
                &&& forall|y: NodeId, z: NodeId|
                    #![trigger lru::ahead(t.lru[2], y, z)]
                    !in_use(t, x, y) && !in_use(t, x, z) && !of_the_cut(w, n, y) && !of_the_cut(w, n, z) ==> lru::ahead(
                        t.lru[2],
                        y,
                        z,
                    ) == lru::ahead(st.lru[2], y, z)
            }
            &&& st.cfg.mamba() ==> {
                &&& forall|z: NodeId|
                    #![trigger t.lru[4].contains(z)]
                    t.nodes[x as int].value[2] is Some && t.lru[4].contains(z) && z != x ==> lru::ahead(t.lru[4], x, z)
                &&& forall|y: NodeId, z: NodeId|
                    #![trigger lru::ahead(t.lru[4], y, z)]
                    y != x && z != x && !of_the_cut(w, n, y) && !of_the_cut(w, n, z) ==> lru::ahead(t.lru[4], y, z)
                        == lru::ahead(st.lru[4], y, z)
            }
        }),
{
    let w = st.walk(ns, raw);
    let n = st.nodes.len();
    let a = st.walked(w);
    let ids = st.passed(w);
    let (t, m) = st.after_match(ns, raw);
    let x = m.best;
    matching::lemma_walked(st, ns, raw);
    laws::lemma_usable_range(a, ids, ids.len() as int, true);
    laws::lemma_usable_range(a, ids, ids.len() as int, false);
    let km = if a.hicache {
        a.usable(ids, ids.len() as int, false)
    } else {
        a.usable(ids, ids.len() as int, true)
    };
    assert(a.live(x)) by {
        if 0 < km <= ids.len() {
            assert(a.inner(ids[km - 1]));
        }
    }
    let up = a.shape.up(x);
    matching::lemma_up_live(a, x);
    laws::lemma_refreshed_runs(a, x);
    let limit = a.cfg.sliding_window_size + a.cfg.page_size;
    let xs = a.window_ids(up, up.len() as int, limit);
    matching::lemma_window_ids(a, up, up.len() as int, limit);
    lemma_window(a, up, up.len() as int, limit);
    lemma_refreshed_lists(a, x);
    assert forall|y: NodeId| #[trigger] in_use(t, x, y) == xs.contains(y) by {
        assert forall|k: int| 0 <= k < up.len() implies t.nodes[(#[trigger] up[k]) as int].value == a.nodes[
            up[k] as int].value by {
            assert(a.inner(up[k]));
        }
        if in_use(t, x, y) {
            let k = choose|k: int|
                0 <= k < up.len() && #[trigger] up[k] == y && t.nodes[y as int].value[1] is Some && chains::tokens(
                    t.shape,
                    up,
                    k,
                ) < t.cfg.sliding_window_size + t.cfg.page_size;
            assert(up[k] == y);
            assert(a.nodes[y as int].value[1] is Some);
        }
        if xs.contains(y) {
            let k = choose|k: int|
                0 <= k < up.len() && #[trigger] up[k] == y && a.nodes[y as int].value[1] is Some && chains::tokens(
                    a.shape,
                    up,
                    k,
                ) < limit;
            assert(up[k] == y);
            assert(t.nodes[up[k] as int].value == a.nodes[up[k] as int].value);
        }
    }
    if st.cfg.swa() {
        lemma_walked_lists(st, ns, raw, 2);
        lru::law_lift_order(a.lru[2], xs);
        lru::law_lift_keeps_members(a.lru[2], xs);
        assert forall|y: NodeId, z: NodeId|
            #![trigger in_use(t, x, y), t.lru[2].contains(z)]
            in_use(t, x, y) && t.lru[2].contains(z) && !in_use(t, x, z) implies lru::ahead(t.lru[2], y, z) by {
            assert(xs.contains(y) && a.lru[2].contains(z) && !xs.contains(z));
        }
        assert forall|y: NodeId, z: NodeId|
            #![trigger lru::ahead(t.lru[2], y, z)]
            !in_use(t, x, y) && !in_use(t, x, z) && !of_the_cut(w, n, y) && !of_the_cut(w, n, z) implies lru::ahead(
            t.lru[2],
            y,
            z,
        ) == lru::ahead(st.lru[2], y, z) by {
            assert(!xs.contains(y) && !xs.contains(z));
            assert(lru::ahead(a.lru[2], y, z) == lru::ahead(st.lru[2], y, z));
        }
    }
    if st.cfg.mamba() {
        lemma_walked_lists(st, ns, raw, 4);
        let one = seq![x];
        assert(one[0] == x);
        assert(a.lists_ok(2, x));
        assert(t.nodes[x as int].value == a.nodes[x as int].value);
        if a.nodes[x as int].value[2] is Some {
            assert(x != ROOT);
            assert(a.lru[4].contains(x));
            lru::law_lift_order(a.lru[4], one);
            lru::law_lift_keeps_members(a.lru[4], one);
        }
        assert forall|z: NodeId|
            #![trigger t.lru[4].contains(z)]
            t.nodes[x as int].value[2] is Some && t.lru[4].contains(z) && z != x implies lru::ahead(t.lru[4], x, z) by {
            assert(a.lru[4].contains(z));
            assert(one.contains(x) && !one.contains(z));
        }
        assert forall|y: NodeId, z: NodeId|
            #![trigger lru::ahead(t.lru[4], y, z)]
            y != x && z != x && !of_the_cut(w, n, y) && !of_the_cut(w, n, z) implies lru::ahead(t.lru[4], y, z)
            == lru::ahead(st.lru[4], y, z) by {
            assert(!one.contains(y) && !one.contains(z));
            assert(lru::ahead(a.lru[4], y, z) == lru::ahead(st.lru[4], y, z));
        }
    }
}

/// Which lists a refresh changes.
proof fn lemma_refreshed_lists(a: UState, x: NodeId)
    requires
        a.wf(),
        a.live(x),
    ensures
        ({
            let up = a.shape.up(x);
            let t = a.refreshed(x);
            let limit = a.cfg.sliding_window_size + a.cfg.page_size;
            &&& t.lru[2] == (if a.cfg.swa() {
                lru::lifted(a.lru[2], a.window_ids(up, up.len() as int, limit))
            } else {
                a.lru[2]
            })
            &&& t.lru[4] == (if a.cfg.mamba() && a.nodes[x as int].value[2] is Some {
                lru::lifted(a.lru[4], seq![x])
            } else {
                a.lru[4]
            })
        }),
{
    let b = if a.cfg.swa() {
        a.window_refreshed(x)
    } else {
        a
    };
    let c = if a.cfg.mamba() && b.nodes[x as int].value[2] is Some {
        b.relisted(4, lru::lifted(b.lru[4], seq![x]))
    } else {
        b
    };
    let road = c.shape.up(x).push(ROOT);
    lemma_stamped_lists(c, road, road.len() as int, c.clock as int);
}

proof fn lemma_stamped_lists(st: UState, ids: Seq<NodeId>, k: int, now: int)
    ensures
        st.stamped(ids, k, now).lru == st.lru,
    decreases k,
{
    if k > 0 {
        lemma_stamped_lists(st, ids, k - 1, now);
    }
}

} // verus!
