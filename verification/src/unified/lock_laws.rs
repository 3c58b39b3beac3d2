//! Locks of the unified tree: what a release takes back.

use crate::chains;
use crate::topo::{NodeId, ROOT};
use crate::tree_model;
use crate::unified;
use crate::unified::locks;
use crate::unified::model::{UNodeState, UState};
use crate::unified::{Locked, CT_FULL, CT_MAMBA, CT_SWA};
use vstd::prelude::*;

verus! {

/// `n` is `m` with so many device locks more of each component, and maybe
/// another mark.
spec fn relocked(n: UNodeState, m: UNodeState, full: int, swa: int, mamba: int) -> bool {
    &&& n == (UNodeState { lock: n.lock, mark: n.mark, ..m })
    &&& n.lock.len() == 4
    &&& n.lock[0] == m.lock[0] + full
    &&& n.lock[1] == m.lock[1] + swa
    &&& n.lock[2] == m.lock[2] + mamba
    &&& n.lock[3] == m.lock[3]
}

/// One if so, none if not.
spec fn one(b: bool) -> int {
    if b {
        1
    } else {
        0
    }
}

/// The path may be locked once more.
spec fn path_ok(st: UState, up: Seq<NodeId>) -> bool {
    &&& up.no_duplicates()
    &&& st.nodes.len() <= NodeId::MAX
    &&& forall|i: int| 0 <= i < st.nodes.len() ==> (#[trigger] st.nodes[i]).arity()
    &&& forall|j: int|
        0 <= j < up.len() ==> (#[trigger] up[j]) < st.nodes.len() && locks::has_room(st.nodes[up[j] as int])
}

/// The window of the path may be locked once more.
spec fn swa_path_ok(st: UState, up: Seq<NodeId>) -> bool {
    &&& up.no_duplicates()
    &&& st.nodes.len() <= NodeId::MAX
    &&& forall|i: int| 0 <= i < st.nodes.len() ==> (#[trigger] st.nodes[i]).arity()
    &&& forall|j: int|
        0 <= j < up.len() ==> (#[trigger] up[j]) < st.nodes.len() && st.nodes[up[j] as int].lock[1] < i32::MAX
}

/// The first `k` of `up` are those before, and one more.
proof fn lemma_take(up: Seq<NodeId>, k: int, x: NodeId)
    requires
        0 < k <= up.len(),
    ensures
        up.take(k).contains(x) == (up.take(k - 1).contains(x) || x == up[k - 1]),
{
    assert(up.take(k) =~= up.take(k - 1).push(up[k - 1]));
    tree_model::lemma_push_contains(up.take(k - 1), up[k - 1], x);
}

/// Where the entry for `ct` is.
pub(crate) proof fn lemma_entry<T>(v: Seq<(u8, T)>, ct: u8)
    ensures
        0 <= unified::entry_of(v, ct) <= v.len(),
        unified::entry_of(v, ct) < v.len() ==> v[unified::entry_of(v, ct)].0 == ct,
        forall|j: int| 0 <= j < unified::entry_of(v, ct) ==> (#[trigger] v[j]).0 != ct,
    decreases v.len(),
{
    if v.len() > 0 && v[0].0 != ct {
        lemma_entry(v.skip(1), ct);
        let k = unified::entry_of(v, ct);
        assert forall|j: int| 0 <= j < k implies (#[trigger] v[j]).0 != ct by {
            if j > 0 {
                assert(v.skip(1)[j - 1] == v[j]);
            }
        }
    }
}

/// A node more is listed for `ct`, and for no other component.
proof fn lemma_added(v: Seq<(u8, Seq<NodeId>)>, ct: u8, x: NodeId, other: u8)
    ensures
        unified::ids_for(unified::added(v, ct, x), ct) == unified::ids_for(v, ct).push(x),
        other != ct ==> unified::ids_for(unified::added(v, ct, x), other) == unified::ids_for(v, other),
{
    let w = unified::added(v, ct, x);
    let k = unified::entry_of(v, ct);
    lemma_entry(v, ct);
    lemma_entry(v, other);
    unified::lemma_entry_of(w, ct, k);
    assert(Seq::<NodeId>::empty().push(x) =~= seq![x]);
    if other != ct {
        let j = unified::entry_of(v, other);
        if j < v.len() {
            assert forall|i: int| 0 <= i < j implies (#[trigger] w[i]).0 != other by {
                assert(v[i].0 != other);
            }
            unified::lemma_entry_of(w, other, j);
        } else {
            assert forall|i: int| 0 <= i < w.len() implies (#[trigger] w[i]).0 != other by {
                if i < v.len() {
                    assert(v[i].0 != other);
                }
            }
            unified::lemma_entry_of(w, other, w.len() as int);
        }
    }
}

/// What a FULL lock on the first `k` of `up` does.
proof fn lemma_full_held(st: UState, up: Seq<NodeId>, k: int, out: Locked)
    requires
        0 <= k <= up.len(),
        path_ok(st, up),
    ensures
        ({
            let (a, o) = st.full_held(up, k, out);
            &&& a == (UState { nodes: a.nodes, ..st })
            &&& a.nodes.len() == st.nodes.len()
            &&& forall|i: int|
                0 <= i < st.nodes.len() ==> relocked(
                    #[trigger] a.nodes[i],
                    st.nodes[i],
                    one(up.take(k).contains(i as NodeId) && st.nodes[i].value[0] is Some),
                    0,
                    0,
                ) && a.nodes[i].mark == st.nodes[i].mark
            &&& forall|x: NodeId|
                x < st.nodes.len() ==> (#[trigger] unified::ids_for(o.skips, CT_FULL).contains(x) == (
                unified::ids_for(out.skips, CT_FULL).contains(x) || up.take(k).contains(x)
                    && st.nodes[x as int].value[0] is None))
            &&& unified::ids_for(o.skips, CT_SWA) == unified::ids_for(out.skips, CT_SWA)
            &&& unified::ids_for(o.skips, CT_MAMBA) == unified::ids_for(out.skips, CT_MAMBA)
        }),
    decreases k,
{
    if k > 0 {
        lemma_full_held(st, up, k - 1, out);
        let (p, po) = st.full_held(up, k - 1, out);
        let (a, o) = st.full_held(up, k, out);
        let x = up[k - 1];
        chains::lemma_not_before(up, k - 1);
        assert(st.nodes[x as int].arity());
        assert(relocked(p.nodes[x as int], st.nodes[x as int], 0, 0, 0));
        if p.nodes[x as int].value[0] is None {
            lemma_added(po.skips, CT_FULL, x, CT_SWA);
            lemma_added(po.skips, CT_FULL, x, CT_MAMBA);
        }
        assert forall|i: int| 0 <= i < st.nodes.len() implies relocked(
            #[trigger] a.nodes[i],
            st.nodes[i],
            one(up.take(k).contains(i as NodeId) && st.nodes[i].value[0] is Some),
            0,
            0,
        ) && a.nodes[i].mark == st.nodes[i].mark by {
            lemma_take(up, k, i as NodeId);
            assert(st.nodes[i].arity());
            let n = p.nodes[i];
        }
        assert forall|y: NodeId|
            y < st.nodes.len() implies (#[trigger] unified::ids_for(o.skips, CT_FULL).contains(y) == (
        unified::ids_for(out.skips, CT_FULL).contains(y) || up.take(k).contains(y)
            && st.nodes[y as int].value[0] is None)) by {
            lemma_take(up, k, y);
            tree_model::lemma_push_contains(unified::ids_for(po.skips, CT_FULL), x, y);
            assert(unified::ids_for(po.skips, CT_FULL).contains(y) == (unified::ids_for(
                out.skips,
                CT_FULL,
            ).contains(y) || up.take(k - 1).contains(y) && st.nodes[y as int].value[0] is None));
        }
    } else {
        assert(up.take(0) =~= Seq::<NodeId>::empty());
        assert forall|i: int| 0 <= i < st.nodes.len() implies relocked(
            #[trigger] st.nodes[i],
            st.nodes[i],
            one(up.take(0).contains(i as NodeId) && st.nodes[i].value[0] is Some),
            0,
            0,
        ) by {
            assert(st.nodes[i].arity());
        }
    }
}

/// What the release of a FULL lock on the first `k` of `up` does.
proof fn lemma_full_freed(st: UState, up: Seq<NodeId>, k: int, skip: Seq<NodeId>)
    requires
        0 <= k <= up.len(),
        up.no_duplicates(),
        st.nodes.len() <= NodeId::MAX,
        forall|i: int| 0 <= i < st.nodes.len() ==> (#[trigger] st.nodes[i]).arity(),
        forall|j: int|
            0 <= j < up.len() ==> (#[trigger] up[j]) < st.nodes.len() && (skip.contains(up[j])
                || st.nodes[up[j] as int].lock[0] > 0),
    ensures
        ({
            let a = st.full_freed(up, k, skip);
            &&& a == (UState { nodes: a.nodes, ..st })
            &&& a.nodes.len() == st.nodes.len()
            &&& forall|i: int|
                0 <= i < st.nodes.len() ==> relocked(
                    #[trigger] a.nodes[i],
                    st.nodes[i],
                    -one(up.take(k).contains(i as NodeId) && !skip.contains(i as NodeId)),
                    0,
                    0,
                ) && a.nodes[i].mark == st.nodes[i].mark
        }),
    decreases k,
{
    if k > 0 {
        lemma_full_freed(st, up, k - 1, skip);
        let p = st.full_freed(up, k - 1, skip);
        let a = st.full_freed(up, k, skip);
        let x = up[k - 1];
        chains::lemma_not_before(up, k - 1);
        assert(st.nodes[x as int].arity());
        assert(relocked(p.nodes[x as int], st.nodes[x as int], 0, 0, 0));
        assert forall|i: int| 0 <= i < st.nodes.len() implies relocked(
            #[trigger] a.nodes[i],
            st.nodes[i],
            -one(up.take(k).contains(i as NodeId) && !skip.contains(i as NodeId)),
            0,
            0,
        ) && a.nodes[i].mark == st.nodes[i].mark by {
            lemma_take(up, k, i as NodeId);
            assert(st.nodes[i].arity());
            let n = p.nodes[i];
        }
    } else {
        assert(up.take(0) =~= Seq::<NodeId>::empty());
        assert forall|i: int| 0 <= i < st.nodes.len() implies relocked(
            #[trigger] st.nodes[i],
            st.nodes[i],
            -one(up.take(0).contains(i as NodeId) && !skip.contains(i as NodeId)),
            0,
            0,
        ) by {
            assert(st.nodes[i].arity());
        }
    }
}

/// Window slots on the device of the first `k` nodes.
pub open spec fn window_tokens(st: UState, up: Seq<NodeId>, k: int) -> int
    decreases k,
{
    if k <= 0 {
        0
    } else {
        window_tokens(st, up, k - 1) + match st.nodes[up[k - 1] as int].value[1] {
            Some(v) => v.len() as int,
            None => 0,
        }
    }
}

proof fn lemma_window_same(st: UState, a: UState, up: Seq<NodeId>, k: int)
    requires
        0 <= k <= up.len(),
        forall|j: int| 0 <= j < up.len() ==> (#[trigger] up[j]) < st.nodes.len(),
        forall|i: int| 0 <= i < st.nodes.len() ==> (#[trigger] a.nodes[i]).value == st.nodes[i].value,
    ensures
        window_tokens(a, up, k) == window_tokens(st, up, k),
    decreases k,
{
    if k > 0 {
        lemma_window_same(st, a, up, k - 1);
        assert(up[k - 1] < st.nodes.len());
        assert(a.nodes[up[k - 1] as int].value == st.nodes[up[k - 1] as int].value);
    }
}

proof fn lemma_window_grows(st: UState, up: Seq<NodeId>, j: int, k: int)
    requires
        0 <= j <= k <= up.len(),
    ensures
        0 <= window_tokens(st, up, j) <= window_tokens(st, up, k),
    decreases k,
{
    if j < k {
        lemma_window_grows(st, up, j, k - 1);
    } else if k > 0 {
        lemma_window_grows(st, up, k - 1, k - 1);
    }
}


/// What a window lock on the first `k` of `up` does: it comes to the first
/// `w` of them, and marks the last of those once the window is full.
proof fn lemma_swa_held(st: UState, up: Seq<NodeId>, k: int, out: Locked) -> (w: int)
    requires
        0 <= k <= up.len(),
        swa_path_ok(st, up),
        st.uuids < i64::MAX,
        st.cfg.sliding_window_size > 0,
    ensures
        0 <= w <= k,
        ({
            let h = st.swa_held(up, k, false, out);
            let a = h.st;
            &&& a == (UState { nodes: a.nodes, uuids: a.uuids, ..st })
            &&& a.nodes.len() == st.nodes.len()
            &&& forall|i: int|
                0 <= i < st.nodes.len() ==> relocked(
                    #[trigger] a.nodes[i],
                    st.nodes[i],
                    0,
                    one(up.take(w).contains(i as NodeId) && st.nodes[i].value[1] is Some),
                    0,
                )
            &&& forall|x: NodeId|
                x < st.nodes.len() ==> (#[trigger] unified::ids_for(h.out.skips, CT_SWA).contains(x) == (
                unified::ids_for(out.skips, CT_SWA).contains(x) || up.take(w).contains(x)
                    && st.nodes[x as int].value[1] is None))
            &&& unified::ids_for(h.out.skips, CT_FULL) == unified::ids_for(out.skips, CT_FULL)
            &&& unified::ids_for(h.out.skips, CT_MAMBA) == unified::ids_for(out.skips, CT_MAMBA)
            &&& h.size == window_tokens(st, up, w)
            &&& w > 0 ==> window_tokens(st, up, w - 1) < st.cfg.sliding_window_size
            &&& h.size < st.cfg.sliding_window_size ==> w == k && h.mark is None && a.uuids == st.uuids
            &&& h.size < st.cfg.sliding_window_size ==> forall|i: int|
                0 <= i < st.nodes.len() ==> (#[trigger] a.nodes[i]).mark == st.nodes[i].mark
            &&& h.size >= st.cfg.sliding_window_size ==> {
                let x = up[w - 1] as int;
                &&& w > 0
                &&& h.mark is Some
                &&& st.nodes[x].value[1] is Some
                &&& a.nodes[x].mark == h.mark
                &&& st.nodes[x].mark == h.mark && a.uuids == st.uuids || st.nodes[x].mark is None && a.uuids
                    == st.uuids + 1 && h.mark == Some(a.uuids)
                &&& forall|i: int|
                    0 <= i < st.nodes.len() && i != x ==> (#[trigger] a.nodes[i]).mark == st.nodes[i].mark
            }
        }),
    decreases k,
{
    if k <= 0 {
        assert(up.take(0) =~= Seq::<NodeId>::empty());
        assert forall|i: int| 0 <= i < st.nodes.len() implies relocked(
            #[trigger] st.nodes[i],
            st.nodes[i],
            0,
            one(up.take(0).contains(i as NodeId) && st.nodes[i].value[1] is Some),
            0,
        ) by {
            assert(st.nodes[i].arity());
        }
        0
    } else {
        let v = lemma_swa_held(st, up, k - 1, out);
        let g = st.swa_held(up, k - 1, false, out);
        let h = st.swa_held(up, k, false, out);
        let p = g.st;
        let a = h.st;
        if g.size >= st.cfg.sliding_window_size {
            v
        } else {
            let x = up[k - 1];
            chains::lemma_not_before(up, k - 1);
            assert(v == k - 1);
            assert(st.nodes[x as int].arity());
            assert(relocked(p.nodes[x as int], st.nodes[x as int], 0, 0, 0));
            if p.swa_side(x, false) is None {
                lemma_added(g.out.skips, CT_SWA, x, CT_FULL);
                lemma_added(g.out.skips, CT_SWA, x, CT_MAMBA);
            }
            assert forall|i: int| 0 <= i < st.nodes.len() implies relocked(
                #[trigger] a.nodes[i],
                st.nodes[i],
                0,
                one(up.take(k).contains(i as NodeId) && st.nodes[i].value[1] is Some),
                0,
            ) && (i != x ==> a.nodes[i].mark == st.nodes[i].mark) by {
                lemma_take(up, k, i as NodeId);
                assert(st.nodes[i].arity());
                let n = p.nodes[i];
            }
            assert forall|y: NodeId|
                y < st.nodes.len() implies (#[trigger] unified::ids_for(h.out.skips, CT_SWA).contains(y) == (
            unified::ids_for(out.skips, CT_SWA).contains(y) || up.take(k).contains(y)
                && st.nodes[y as int].value[1] is None)) by {
                lemma_take(up, k, y);
                tree_model::lemma_push_contains(unified::ids_for(g.out.skips, CT_SWA), x, y);
                assert(unified::ids_for(g.out.skips, CT_SWA).contains(y) == (unified::ids_for(
                    out.skips,
                    CT_SWA,
                ).contains(y) || up.take(k - 1).contains(y) && st.nodes[y as int].value[1] is None));
            }
            k
        }
    }
}

/// What the release of a window lock on the first `k` of `up` does, where
/// the lock came to the first `w` of `up` and `mark` is on the last of those
/// alone.
proof fn lemma_swa_freed(st: UState, up: Seq<NodeId>, k: int, skip: Seq<NodeId>, mark: Option<i64>, w: int)
    requires
        0 <= k <= up.len(),
        0 <= w <= up.len(),
        up.no_duplicates(),
        st.nodes.len() <= NodeId::MAX,
        forall|i: int| 0 <= i < st.nodes.len() ==> (#[trigger] st.nodes[i]).arity(),
        forall|j: int| 0 <= j < up.len() ==> (#[trigger] up[j]) < st.nodes.len(),
        forall|j: int|
            0 <= j < w ==> skip.contains(#[trigger] up[j]) || st.nodes[up[j] as int].lock[1] > 0,
        mark is None ==> w == up.len(),
        mark is Some ==> w > 0 && !skip.contains(up[w - 1]),
        mark is Some ==> forall|j: int|
            0 <= j < w ==> (st.nodes[(#[trigger] up[j]) as int].mark == mark) == (j == w - 1),
    ensures
        ({
            let (a, going) = st.swa_freed(up, k, false, skip, mark);
            let n = if k < w {
                k
            } else {
                w
            };
            &&& a == (UState { nodes: a.nodes, ..st })
            &&& a.nodes.len() == st.nodes.len()
            &&& going == (mark is None || k < w)
            &&& forall|i: int|
                0 <= i < st.nodes.len() ==> relocked(
                    #[trigger] a.nodes[i],
                    st.nodes[i],
                    0,
                    -one(up.take(n).contains(i as NodeId) && !skip.contains(i as NodeId)),
                    0,
                ) && a.nodes[i].mark == st.nodes[i].mark
        }),
    decreases k,
{
    if k > 0 {
        lemma_swa_freed(st, up, k - 1, skip, mark, w);
        let (p, going) = st.swa_freed(up, k - 1, false, skip, mark);
        let (a, on) = st.swa_freed(up, k, false, skip, mark);
        let x = up[k - 1];
        if k <= w {
            chains::lemma_not_before(up, k - 1);
            assert(st.nodes[x as int].arity());
            assert(relocked(p.nodes[x as int], st.nodes[x as int], 0, 0, 0));
            assert forall|i: int| 0 <= i < st.nodes.len() implies relocked(
                #[trigger] a.nodes[i],
                st.nodes[i],
                0,
                -one(up.take(k).contains(i as NodeId) && !skip.contains(i as NodeId)),
                0,
            ) && a.nodes[i].mark == st.nodes[i].mark by {
                lemma_take(up, k, i as NodeId);
                assert(st.nodes[i].arity());
                let n = p.nodes[i];
            }
        }
    } else {
        assert(up.take(0) =~= Seq::<NodeId>::empty());
        assert forall|i: int| 0 <= i < st.nodes.len() implies relocked(
            #[trigger] st.nodes[i],
            st.nodes[i],
            0,
            -one(up.take(0).contains(i as NodeId) && !skip.contains(i as NodeId)),
            0,
        ) by {
            assert(st.nodes[i].arity());
        }
    }
}

/// No two nodes bear one device mark, and none a mark yet to be given out.
pub open spec fn marks_differ(st: UState) -> bool {
    &&& forall|i: int|
        0 <= i < st.nodes.len() ==> ((#[trigger] st.nodes[i]).mark matches Some(u) ==> u <= st.uuids)
    &&& forall|i: int, j: int|
        #![trigger st.nodes[i], st.nodes[j]]
        0 <= i < st.nodes.len() && 0 <= j < st.nodes.len() && i != j && st.nodes[i].mark is Some
            ==> st.nodes[i].mark != st.nodes[j].mark
}

/// The lock that `locked` puts on, one component after the other.
proof fn lemma_locked(st: UState, node: NodeId) -> (w: int)
    requires
        st.wf(),
        st.live(node),
        st.lockable(node),
        path_ok(st, st.shape.up(node)),
        node != ROOT ==> st.shape.up(node).len() > 0 && st.shape.up(node)[0] == node,
        node == ROOT ==> st.shape.up(node).len() == 0,
    ensures
        ({
            let up = st.shape.up(node);
            let (t, o) = st.locked(node, Seq::empty());
            &&& 0 <= w <= up.len()
            &&& t == (UState { nodes: t.nodes, uuids: t.uuids, ..st })
            &&& t.nodes.len() == st.nodes.len()
            &&& forall|i: int|
                0 <= i < st.nodes.len() ==> relocked(
                    #[trigger] t.nodes[i],
                    st.nodes[i],
                    one(up.contains(i as NodeId) && st.nodes[i].value[0] is Some),
                    one(st.cfg.swa() && up.take(w).contains(i as NodeId) && st.nodes[i].value[1] is Some),
                    one(st.cfg.mamba() && node != ROOT && i == node && st.nodes[i].value[2] is Some),
                )
            &&& forall|x: NodeId|
                x < st.nodes.len() ==> (#[trigger] unified::ids_for(o.skips, CT_FULL).contains(x) == (up.contains(x)
                    && st.nodes[x as int].value[0] is None))
            &&& forall|x: NodeId|
                x < st.nodes.len() ==> (#[trigger] unified::ids_for(o.skips, CT_SWA).contains(x) == (st.cfg.swa()
                    && up.take(w).contains(x) && st.nodes[x as int].value[1] is None))
            &&& st.cfg.mamba() && node != ROOT ==> unified::ids_for(o.skips, CT_MAMBA).contains(node) == (
            st.nodes[node as int].value[2] is None)
            &&& st.cfg.swa() && w > 0 ==> window_tokens(st, up, w - 1) < st.cfg.sliding_window_size
            &&& st.cfg.swa() && w < up.len() ==> window_tokens(st, up, w) >= st.cfg.sliding_window_size
            &&& st.cfg.swa() ==> o.mark is Some == (window_tokens(st, up, w) >= st.cfg.sliding_window_size)
            &&& o.mark is None ==> (st.cfg.swa() ==> w == up.len()) && t.uuids == st.uuids && forall|i: int|
                0 <= i < st.nodes.len() ==> (#[trigger] t.nodes[i]).mark == st.nodes[i].mark
            &&& o.mark is Some ==> {
                let x = up[w - 1] as int;
                &&& st.cfg.swa()
                &&& w > 0
                &&& st.nodes[x].value[1] is Some
                &&& t.nodes[x].mark == o.mark
                &&& st.nodes[x].mark == o.mark && t.uuids == st.uuids || st.nodes[x].mark is None && t.uuids
                    == st.uuids + 1 && o.mark == Some(t.uuids)
                &&& forall|i: int|
                    0 <= i < st.nodes.len() && i != x ==> (#[trigger] t.nodes[i]).mark == st.nodes[i].mark
            }
        }),
{
    let up = st.shape.up(node);
    let n = up.len() as int;
    let none = Locked::none();
    let empty = Seq::<u8>::empty();
    assert(up.take(n) =~= up);
    let (a, oa) = st.full_locked(node, none);
    lemma_full_held(st, up, n, none);
    assert(a == st.full_held(up, n, none).0);
    assert(oa.mark is None) by {
        lemma_full_mark(st, up, n, none);
    }
    assert(unified::ids_for(none.skips, CT_FULL) =~= Seq::<NodeId>::empty());
    assert(unified::ids_for(none.skips, CT_SWA) =~= Seq::<NodeId>::empty());
    assert(unified::ids_for(none.skips, CT_MAMBA) =~= Seq::<NodeId>::empty());
    assert forall|i: int| 0 <= i < a.nodes.len() implies (#[trigger] a.nodes[i]).arity() by {
        assert(st.nodes[i].arity());
    }
    let mut w = 0int;
    let (b, ob) = if !st.cfg.swa() {
        (a, oa)
    } else {
        a.swa_locked(node, false, oa)
    };
    if st.cfg.swa() {
        assert(swa_path_ok(a, up)) by {
            assert forall|j: int| 0 <= j < up.len() implies (#[trigger] up[j]) < a.nodes.len()
                && a.nodes[up[j] as int].lock[1] < i32::MAX by {
                assert(locks::has_room(st.nodes[up[j] as int]));
                let m = a.nodes[up[j] as int];
            }
        }
        w = lemma_swa_held(a, up, n, oa);
        lemma_window_same(st, a, up, w);
        if w > 0 {
            lemma_window_same(st, a, up, w - 1);
        }
    }
    assert forall|i: int| 0 <= i < st.nodes.len() implies relocked(
        #[trigger] b.nodes[i],
        st.nodes[i],
        one(up.contains(i as NodeId) && st.nodes[i].value[0] is Some),
        one(st.cfg.swa() && up.take(w).contains(i as NodeId) && st.nodes[i].value[1] is Some),
        0,
    ) by {
        let m = a.nodes[i];
    }
    if st.cfg.mamba() && node != ROOT {
        lemma_added(ob.skips, CT_MAMBA, node, CT_FULL);
        lemma_added(ob.skips, CT_MAMBA, node, CT_SWA);
        assert(up[0] == node);
        assert(locks::has_room(st.nodes[node as int]));
        let m = b.nodes[node as int];
        tree_model::lemma_push_contains(unified::ids_for(ob.skips, CT_MAMBA), node, node);
    }
    w
}

/// A FULL lock makes no mark.
proof fn lemma_full_mark(st: UState, up: Seq<NodeId>, k: int, out: Locked)
    ensures
        st.full_held(up, k, out).1.mark == out.mark,
    decreases k,
{
    if k > 0 {
        lemma_full_mark(st, up, k - 1, out);
    }
}

/// Giving a device lock back with what taking it returned restores the
/// tree, but for a mark that stays behind.
#[verifier::spinoff_prover]
#[verifier::rlimit(60)]
pub proof fn law_lock_then_unlock(st: UState, node: NodeId)
    requires
        st.wf(),
        st.live(node),
        st.lockable(node),
        marks_differ(st),
    ensures
        ({
            let (t, o) = st.locked(node, Seq::empty());
            let u = t.unlocked(node, o.skips, o.mark, false);
            &&& t.unlockable(node, unified::ids_for(o.skips, CT_FULL))
            &&& marks_differ(t)
            &&& u == (UState { nodes: u.nodes, uuids: t.uuids, ..st })
            &&& u.nodes.len() == st.nodes.len()
            &&& forall|i: int|
                0 <= i < st.nodes.len() ==> (#[trigger] u.nodes[i]) == (UNodeState {
                    mark: t.nodes[i].mark,
                    ..st.nodes[i]
                }) && (st.nodes[i].mark is Some ==> t.nodes[i].mark == st.nodes[i].mark)
        }),
{
    let up = st.shape.up(node);
    let n = up.len() as int;
    let (t, o) = st.locked(node, Seq::empty());
    locks::lemma_up_first(st, node);
    assert(up.take(n) =~= up);
    assert forall|i: int| 0 <= i < st.nodes.len() implies (#[trigger] st.nodes[i]).arity() by {
        if i > 0 {
            assert(st.node_ok(i));
        }
    }
    assert(path_ok(st, up));
    let w = lemma_locked(st, node);
    let full = unified::ids_for(o.skips, CT_FULL);
    let swa = unified::ids_for(o.skips, CT_SWA);
    let mamba = unified::ids_for(o.skips, CT_MAMBA);
    assert forall|j: int| 0 <= j < n implies full.contains(#[trigger] up[j]) || t.nodes[up[j] as int].lock[0] > 0 by {
        let x = up[j];
        assert(up.contains(x));
        assert(st.node_ok(x as int));
        let m = t.nodes[x as int];
        assert(full.contains(x) == (up.contains(x) && st.nodes[x as int].value[0] is None));
    }
    assert forall|i: int| 0 <= i < t.nodes.len() implies (#[trigger] t.nodes[i]).arity() by {
        assert(st.nodes[i].arity());
    }
    let a = t.full_freed(up, n, full);
    lemma_full_freed(t, up, n, full);
    assert forall|i: int| 0 <= i < st.nodes.len() implies relocked(
        #[trigger] a.nodes[i],
        st.nodes[i],
        0,
        one(st.cfg.swa() && up.take(w).contains(i as NodeId) && st.nodes[i].value[1] is Some),
        one(st.cfg.mamba() && node != ROOT && i == node && st.nodes[i].value[2] is Some),
    ) && a.nodes[i].mark == t.nodes[i].mark by {
        let m = t.nodes[i];
        assert(full.contains(i as NodeId) == (up.contains(i as NodeId) && st.nodes[i].value[0] is None));
    }
    assert forall|i: int| 0 <= i < a.nodes.len() implies (#[trigger] a.nodes[i]).arity() by {
        assert(t.nodes[i].arity());
    }
    let b = if st.cfg.swa() {
        a.swa_freed(up, n, false, swa, o.mark).0
    } else {
        a
    };
    if st.cfg.swa() {
        assert forall|j: int| 0 <= j < w implies swa.contains(#[trigger] up[j]) || a.nodes[up[j] as int].lock[1] > 0 by {
            let x = up[j];
            assert(up.take(w)[j] == x);
            assert(up.take(w).contains(x));
            assert(st.node_ok(x as int));
            let m = a.nodes[x as int];
            assert(swa.contains(x) == (st.cfg.swa() && up.take(w).contains(x) && st.nodes[x as int].value[1] is None));
        }
        if o.mark is Some {
            let x = up[w - 1];
            assert(!swa.contains(x)) by {
                assert(swa.contains(x) == (st.cfg.swa() && up.take(w).contains(x) && st.nodes[x as int].value[1]
                    is None));
            }
            assert forall|j: int| 0 <= j < w implies (a.nodes[(#[trigger] up[j]) as int].mark == o.mark) == (j == w
                - 1) by {
                let y = up[j];
                let m = a.nodes[y as int];
                let k = a.nodes[x as int];
                if j < w - 1 {
                    assert(up[j] != up[w - 1]);
                    assert(t.nodes[y as int].mark == st.nodes[y as int].mark);
                    let p = st.nodes[x as int];
                    let q = st.nodes[y as int];
                }
            }
        }
        lemma_swa_freed(a, up, n, swa, o.mark, w);
    }
    assert forall|i: int| 0 <= i < st.nodes.len() implies relocked(
        #[trigger] b.nodes[i],
        st.nodes[i],
        0,
        0,
        one(st.cfg.mamba() && node != ROOT && i == node && st.nodes[i].value[2] is Some),
    ) && b.nodes[i].mark == t.nodes[i].mark by {
        let m = a.nodes[i];
        assert(swa.contains(i as NodeId) == (st.cfg.swa() && up.take(w).contains(i as NodeId)
            && st.nodes[i].value[1] is None));
    }
    let u = t.unlocked(node, o.skips, o.mark, false);
    if st.cfg.mamba() && node != ROOT {
        let m = b.nodes[node as int];
        assert(st.node_ok(node as int));
    }
    assert forall|i: int| 0 <= i < st.nodes.len() implies (#[trigger] u.nodes[i]) == (UNodeState {
        mark: t.nodes[i].mark,
        ..st.nodes[i]
    }) && (st.nodes[i].mark is Some ==> t.nodes[i].mark == st.nodes[i].mark) by {
        let m = b.nodes[i];
        let k = t.nodes[i];
        assert(st.nodes[i].arity());
        assert(relocked(u.nodes[i], st.nodes[i], 0, 0, 0));
        assert(u.nodes[i].lock =~= st.nodes[i].lock);
    }
}

/// A lock holds what a request on the path of `node` uses: the FULL slots of
/// every node on it; the window slots of its nodes up from the end until a
/// window of tokens is held; the state of `node`. Each of these gets one lock
/// more; nothing else changes but the mark of the node that fills the window,
/// which is given back. What is not there to lock is listed as skipped.
pub proof fn law_lock_holds(st: UState, node: NodeId)
    requires
        st.wf(),
        st.live(node),
        st.lockable(node),
    ensures
        ({
            let up = st.shape.up(node);
            let size = st.cfg.sliding_window_size;
            let (t, o) = st.locked(node, Seq::empty());
            &&& t == (UState { nodes: t.nodes, uuids: t.uuids, ..st })
            &&& t.nodes.len() == st.nodes.len()
            &&& forall|i: int|
                0 <= i < st.nodes.len() && !up.contains(i as NodeId) ==> (#[trigger] t.nodes[i]) == st.nodes[i]
            &&& forall|k: int|
                #![trigger up[k]]
                0 <= k < up.len() ==> {
                    let n = st.nodes[up[k] as int];
                    let m = t.nodes[up[k] as int];
                    &&& m == (UNodeState { lock: m.lock, mark: m.mark, ..n })
                    &&& m.lock[0] == n.lock[0] + (if n.value[0] is Some {
                        1int
                    } else {
                        0
                    })
                    &&& m.lock[1] == n.lock[1] + (if st.cfg.swa() && n.value[1] is Some && window_tokens(st, up, k)
                        < size {
                        1int
                    } else {
                        0
                    })
                    &&& m.lock[2] == n.lock[2] + (if st.cfg.mamba() && k == 0 && n.value[2] is Some {
                        1int
                    } else {
                        0
                    })
                    &&& unified::ids_for(o.skips, CT_FULL).contains(up[k]) == (n.value[0] is None)
                    &&& m.mark != n.mark ==> n.mark is None && m.mark == o.mark
                    &&& st.cfg.swa() && window_tokens(st, up, k) < size && window_tokens(st, up, k + 1) >= size
                        ==> o.mark is Some && m.mark == o.mark
                }
            &&& o.mark is Some <==> st.cfg.swa() && window_tokens(st, up, up.len() as int) >= size
        }),
{
    let up = st.shape.up(node);
    let n = up.len() as int;
    let size = st.cfg.sliding_window_size;
    let (t, o) = st.locked(node, Seq::empty());
    locks::lemma_up_first(st, node);
    assert forall|i: int| 0 <= i < st.nodes.len() implies (#[trigger] st.nodes[i]).arity() by {
        if i > 0 {
            assert(st.node_ok(i));
        }
    }
    assert(path_ok(st, up));
    let w = lemma_locked(st, node);
    lemma_window_grows(st, up, w, n);
    assert forall|i: int| 0 <= i < st.nodes.len() && !up.contains(i as NodeId) implies (#[trigger] t.nodes[i])
        == st.nodes[i] by {
        assert(!up.take(w).contains(i as NodeId)) by {
            if up.take(w).contains(i as NodeId) {
                assert(up[up.take(w).index_of(i as NodeId)] == i as NodeId);
            }
        }
        if node != ROOT {
            assert(up[0] == node);
        }
        assert(relocked(t.nodes[i], st.nodes[i], 0, 0, 0));
        assert(t.nodes[i].lock =~= st.nodes[i].lock);
        if o.mark is Some {
            assert(up.contains(up[w - 1]));
        }
    }
    assert forall|k: int| #![trigger up[k]] 0 <= k < up.len() implies {
        let n = st.nodes[up[k] as int];
        let m = t.nodes[up[k] as int];
        &&& m == (UNodeState { lock: m.lock, mark: m.mark, ..n })
        &&& m.lock[0] == n.lock[0] + (if n.value[0] is Some {
            1int
        } else {
            0
        })
        &&& m.lock[1] == n.lock[1] + (if st.cfg.swa() && n.value[1] is Some && window_tokens(st, up, k) < size {
            1int
        } else {
            0
        })
        &&& m.lock[2] == n.lock[2] + (if st.cfg.mamba() && k == 0 && n.value[2] is Some {
            1int
        } else {
            0
        })
        &&& unified::ids_for(o.skips, CT_FULL).contains(up[k]) == (n.value[0] is None)
        &&& m.mark != n.mark ==> n.mark is None && m.mark == o.mark
        &&& st.cfg.swa() && window_tokens(st, up, k) < size && window_tokens(st, up, k + 1) >= size ==> o.mark is Some
            && m.mark == o.mark
    } by {
        let x = up[k];
        assert(up.contains(x));
        assert(up.take(w).contains(x) == (k < w)) by {
            if k < w {
                assert(up.take(w)[k] == x);
            } else if up.take(w).contains(x) {
                let j = up.take(w).index_of(x);
                assert(up[j] == up[k]);
            }
        }
        if st.cfg.swa() {
            if k < w {
                lemma_window_grows(st, up, k, w - 1);
            } else {
                lemma_window_grows(st, up, w, k);
            }
            if window_tokens(st, up, k) < size && window_tokens(st, up, k + 1) >= size {
                assert(k < w);
                if k + 1 <= w - 1 {
                    lemma_window_grows(st, up, k + 1, w - 1);
                }
                assert(k == w - 1);
            }
        }
        if node != ROOT {
            assert(up[0] == node);
            assert((x == node) == (k == 0));
        }
        let m = t.nodes[x as int];
        assert(unified::ids_for(o.skips, CT_FULL).contains(x) == (up.contains(x) && st.nodes[x as int].value[0]
            is None));
    }
    if st.cfg.swa() && w < n {
        assert(o.mark is Some);
    }
}

} // verus!
