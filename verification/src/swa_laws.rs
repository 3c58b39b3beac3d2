//! Laws of the sliding-window tree.

use crate::chains;
use crate::query;
use crate::swa_model;
use crate::swa_model::{Counter, Freed, SWANodeState, SWAState, Tally};
use crate::topo;
use crate::topo::{NodeId, ROOT};
use vstd::prelude::*;

verus! {

/// Tokens of the runs `runs`.
pub open spec fn run_tokens(runs: Seq<Seq<i64>>) -> int
    decreases runs.len(),
{
    if runs.len() == 0 {
        0
    } else {
        run_tokens(runs.drop_last()) + runs.last().len()
    }
}

/// Tokens handed out: whole slots, or their full part.
pub open spec fn full_out(out: Freed) -> int {
    run_tokens(out.kv) + run_tokens(out.full)
}

/// Window slots handed out.
pub open spec fn swa_out(out: Freed) -> int {
    run_tokens(out.kv) + run_tokens(out.swa)
}

/// `t` is what is left of `st` once more was handed out, from `old_out` to
/// `out`: exactly what is gone, nothing of it locked.
pub open spec fn thinned(st: SWAState, t: SWAState, old_out: Freed, out: Freed) -> bool {
    &&& t.wf()
    &&& t.nodes.len() == st.nodes.len()
    &&& full_out(out) - full_out(old_out) == st.count(Counter::FullEvictable) - t.count(Counter::FullEvictable)
    &&& t.count(Counter::FullProtected) == st.count(Counter::FullProtected)
    &&& swa_out(out) - swa_out(old_out) == st.count(Counter::SwaEvictable) - t.count(Counter::SwaEvictable)
    &&& t.count(Counter::SwaProtected) == st.count(Counter::SwaProtected)
    &&& forall|i: int| #![trigger t.nodes[i]] 0 <= i < st.nodes.len() ==> spared(st, t, i)
}

/// A full lock keeps a node's tokens, a window lock its window slots too.
pub open spec fn spared(st: SWAState, t: SWAState, i: int) -> bool {
    &&& st.nodes[i].full_lock > 0 ==> {
        &&& t.nodes[i].value == st.nodes[i].value
        &&& t.nodes[i].full_lock == st.nodes[i].full_lock
        &&& t.nodes[i].swa_lock == st.nodes[i].swa_lock
    }
    &&& st.nodes[i].swa_lock > 0 && st.nodes[i].full_lock > 0 ==> t.nodes[i] == st.nodes[i]
}

proof fn lemma_run_push(runs: Seq<Seq<i64>>, v: Seq<i64>)
    ensures
        run_tokens(runs.push(v)) == run_tokens(runs) + v.len(),
{
    assert(runs.push(v).drop_last() =~= runs);
}

proof fn lemma_thinned_twice(
    a: SWAState,
    b: SWAState,
    c: SWAState,
    o1: Freed,
    o2: Freed,
    o3: Freed,
)
    requires
        thinned(a, b, o1, o2),
        thinned(b, c, o2, o3),
    ensures
        thinned(a, c, o1, o3),
{
    assert forall|i: int| #![trigger c.nodes[i]] 0 <= i < a.nodes.len() implies spared(a, c, i) by {
        assert(spared(a, b, i)) by {
            let n = b.nodes[i];
        }
    }
}

/// The leaf found is one, and is not locked.
proof fn lemma_lru_leaf(st: SWAState, order: Seq<NodeId>)
    ensures
        st.lru_leaf(order) matches Some(x) ==> order.contains(x) && st.nodes[x as int].full_lock == 0
            && st.shape.is_leaf(x),
        st.lru_leaf(order) is None ==> forall|k: int|
            0 <= k < order.len() ==> st.nodes[(#[trigger] order[k]) as int].full_lock > 0 || !st.shape.is_leaf(
                order[k],
            ),
    decreases order.len(),
{
    if order.len() > 0 {
        lemma_lru_leaf(st, order.drop_last());
        if let Some(x) = st.lru_leaf(order) {
            if x == order.last() {
                assert(order[order.len() - 1] == x);
            } else {
                let k = order.drop_last().index_of(x);
                assert(order[k] == x);
            }
        } else {
            assert forall|k: int| 0 <= k < order.len() implies st.nodes[(#[trigger] order[k]) as int].full_lock > 0
                || !st.shape.is_leaf(order[k]) by {
                if k < order.len() - 1 {
                    assert(order.drop_last()[k] == order[k]);
                }
            }
        }
    }
}

/// Every leaf is locked.
pub open spec fn no_free_leaf(st: SWAState) -> bool {
    forall|id: NodeId| #[trigger] st.live(id) ==> st.nodes[id as int].full_lock > 0 || !st.shape.is_leaf(id)
}

proof fn lemma_thinned_same(st: SWAState, out: Freed)
    requires
        st.wf(),
    ensures
        thinned(st, st, out, out),
{
}

/// The node found has window slots that are not locked.
proof fn lemma_lru_unlocked(st: SWAState, order: Seq<NodeId>)
    ensures
        st.lru_unlocked(order) matches Some(x) ==> order.contains(x) && st.nodes[x as int].swa_lock == 0,
        st.lru_unlocked(order) is None ==> forall|k: int|
            0 <= k < order.len() ==> st.nodes[(#[trigger] order[k]) as int].swa_lock > 0,
    decreases order.len(),
{
    if order.len() > 0 {
        lemma_lru_unlocked(st, order.drop_last());
        if let Some(x) = st.lru_unlocked(order) {
            if x == order.last() {
                assert(order[order.len() - 1] == x);
            } else {
                let k = order.drop_last().index_of(x);
                assert(order[k] == x);
            }
        } else {
            assert forall|k: int| 0 <= k < order.len() implies st.nodes[(#[trigger] order[k]) as int].swa_lock
                > 0 by {
                if k < order.len() - 1 {
                    assert(order.drop_last()[k] == order[k]);
                }
            }
        }
    }
}

proof fn lemma_cascade_thins(st: SWAState, p: NodeId, out: Freed)
    requires
        st.wf(),
    ensures
        thinned(st, st.cascade(p, out).0, out, st.cascade(p, out).1),
        st.cascade(p, out).2 == full_out(st.cascade(p, out).1) - full_out(out) >= 0,
        swa_out(st.cascade(p, out).1) == swa_out(out),
    decreases st.live_count(),
{
    if st.orphaned(p) {
        swa_model::lemma_dropped(st, p);
        let next = Freed { full: out.full.push(st.run(p)), ..out };
        lemma_run_push(out.full, st.run(p));
        lemma_cascade_thins(st.dropped(p), st.shape.nodes[p as int].parent, next);
        assert(thinned(st, st.dropped(p), out, next));
        lemma_thinned_twice(st, st.dropped(p), st.cascade(p, out).0, out, next, st.cascade(p, out).1);
    }
}

proof fn lemma_leaf_thins(st: SWAState, x: NodeId, t: Tally)
    requires
        st.wf(),
        st.live(x),
        st.shape.is_leaf(x),
        st.nodes[x as int].full_lock == 0,
    ensures
        ({
            let (a, t1, n) = st.evict_leaf(x, t);
            &&& thinned(st, a, t.out, t1.out)
            &&& t1.full + n - t.full == full_out(t1.out) - full_out(t.out)
            &&& t1.swa - t.swa == swa_out(t1.out) - swa_out(t.out)
            &&& n >= 0
            &&& t1.full >= t.full
            &&& a.live_count() < st.live_count()
            &&& a.live_count() >= 0
        }),
{
    swa_model::lemma_dropped(st, x);
    assert(st.node_ok(x as int));
    let v = st.run(x);
    let next = if st.nodes[x as int].tombstone {
        Freed { full: t.out.full.push(v), ..t.out }
    } else {
        Freed { kv: t.out.kv.push(v), ..t.out }
    };
    lemma_run_push(t.out.full, v);
    lemma_run_push(t.out.kv, v);
    let p = st.shape.nodes[x as int].parent;
    lemma_cascade_thins(st.dropped(x), p, next);
    swa_model::lemma_cascade_counts(st.dropped(x), p, next);
    assert(thinned(st, st.dropped(x), t.out, next));
    lemma_thinned_twice(st, st.dropped(x), st.evict_leaf(x, t).0, t.out, next, st.evict_leaf(x, t).1.out);
}

proof fn lemma_full_thins(st: SWAState, budget: int, t: Tally)
    requires
        st.wf(),
    ensures
        ({
            let (b, t1) = st.evict_full(budget, t);
            &&& thinned(st, b, t.out, t1.out)
            &&& t1.full - t.full == full_out(t1.out) - full_out(t.out)
            &&& t1.swa - t.swa == swa_out(t1.out) - swa_out(t.out)
            &&& t1.full >= budget || no_free_leaf(b)
        }),
    decreases st.live_count(),
{
    lemma_lru_leaf(st, st.full);
    match st.lru_leaf(st.full) {
        Some(x) => {
            assert(st.full.contains(x));
            if t.full < budget {
                let (a, t1, n) = st.evict_leaf(x, t);
                assert(st.live(x));
                lemma_leaf_thins(st, x, t);
                let next = Tally { full: t1.full + n, ..t1 };
                lemma_full_thins(a, budget, next);
                lemma_thinned_twice(
                    st,
                    a,
                    st.evict_full(budget, t).0,
                    t.out,
                    t1.out,
                    st.evict_full(budget, t).1.out,
                );
            } else {
                lemma_thinned_same(st, t.out);
            }
        },
        None => {
            lemma_thinned_same(st, t.out);
            assert forall|id: NodeId| #[trigger] st.live(id) implies st.nodes[id as int].full_lock > 0
                || !st.shape.is_leaf(id) by {
                assert(st.full.contains(id));
                let k = st.full.index_of(id);
                assert(st.full[k] == id);
            }
        },
    }
}

proof fn lemma_swa_thins(st: SWAState, budget: int, t: Tally)
    requires
        st.wf(),
    ensures
        ({
            let (b, t1) = st.evict_swa(budget, t);
            &&& thinned(st, b, t.out, t1.out)
            &&& t1.swa - t.swa == swa_out(t1.out) - swa_out(t.out)
            &&& 0 <= t1.full - t.full <= full_out(t1.out) - full_out(t.out)
            &&& no_free_leaf(st) ==> no_free_leaf(b) && t1.full == t.full
            &&& t1.swa >= budget || forall|id: NodeId| #[trigger]
                b.windowed(id) ==> b.nodes[id as int].swa_lock > 0
        }),
    decreases st.swa.len(),
{
    lemma_lru_unlocked(st, st.swa);
    match st.lru_unlocked(st.swa) {
        Some(x) => {
            assert(st.swa.contains(x));
            if t.swa < budget {
                let (a, t1) = st.evict_swa_step(x, t);
                swa_model::lemma_evict_swa_step(st, x, t);
                assert(st.live(x));
                if !st.shape.is_leaf(x) || st.nodes[x as int].full_lock > 0 {
                    swa_model::lemma_buried(st, x);
                    lemma_run_push(t.out.swa, st.run(x));
                    if no_free_leaf(st) {
                        assert forall|id: NodeId| #[trigger] a.live(id) implies a.nodes[id as int].full_lock > 0
                            || !a.shape.is_leaf(id) by {
                            assert(st.live(id));
                        }
                    }
                    assert(thinned(st, a, t.out, t1.out));
                } else {
                    assert(!no_free_leaf(st));
                    lemma_leaf_thins(st, x, t);
                }
                lemma_swa_thins(a, budget, t1);
                lemma_thinned_twice(
                    st,
                    a,
                    st.evict_swa(budget, t).0,
                    t.out,
                    t1.out,
                    st.evict_swa(budget, t).1.out,
                );
            } else {
                lemma_thinned_same(st, t.out);
            }
        },
        None => {
            lemma_thinned_same(st, t.out);
            assert forall|id: NodeId| #[trigger] st.windowed(id) implies st.nodes[id as int].swa_lock > 0 by {
                assert(st.swa.contains(id));
                let k = st.swa.index_of(id);
                assert(st.swa[k] == id);
            }
        },
    }
}

/// An eviction hands out exactly the tokens and window slots that are gone,
/// none of them locked, and ends because its budgets are met or nothing
/// unlocked is left.
pub proof fn law_evict(st: SWAState, full_budget: int, swa_budget: int)
    requires
        st.wf(),
        !st.disable,
    ensures
        ({
            let (t, tally) = st.after_evict(full_budget, swa_budget);
            &&& thinned(st, t, Freed::none(), tally.out)
            &&& t.full_size() == st.full_size() - full_out(tally.out)
            &&& t.swa_size() == st.swa_size() - swa_out(tally.out)
            &&& tally.full <= full_out(tally.out)
            &&& tally.swa == swa_out(tally.out)
            &&& tally.full >= full_budget || no_free_leaf(t)
            &&& tally.swa >= swa_budget || forall|id: NodeId| #[trigger]
                t.windowed(id) ==> t.nodes[id as int].swa_lock > 0
        }),
{
    let none = Tally { full: 0, swa: 0, out: Freed::none() };
    let (a, t1) = st.evict_full(full_budget, none);
    let (b, t2) = a.evict_swa(swa_budget, t1);
    lemma_full_thins(st, full_budget, none);
    lemma_swa_thins(a, swa_budget, t1);
    lemma_thinned_twice(st, a, b, Freed::none(), t1.out, t2.out);
}

/// No two nodes bear one mark, and none a mark yet to be given out.
pub open spec fn marks_differ(st: SWAState) -> bool {
    &&& forall|i: int|
        0 <= i < st.nodes.len() ==> ((#[trigger] st.nodes[i]).uuid matches Some(u) ==> u <= st.uuids)
    &&& forall|i: int, j: int|
        #![trigger st.nodes[i], st.nodes[j]]
        0 <= i < st.nodes.len() && 0 <= j < st.nodes.len() && i != j && st.nodes[i].uuid is Some
            ==> st.nodes[i].uuid != st.nodes[j].uuid
}

/// `up[j]` has one more full lock in `t`, and one more window lock if it is
/// among the first `w`; it is else as in `st` but for its mark.
spec fn relocked(st: SWAState, t: SWAState, up: Seq<NodeId>, j: int, w: nat) -> bool {
    let i = up[j] as int;
    let more: int = if j < w {
        1
    } else {
        0
    };
    t.nodes[i] == (SWANodeState {
        full_lock: (st.nodes[i].full_lock + 1) as u32,
        swa_lock: (st.nodes[i].swa_lock + more) as u32,
        uuid: t.nodes[i].uuid,
        ..st.nodes[i]
    })
}

/// The nodes `up` may be locked once more.
spec fn lockable(st: SWAState, up: Seq<NodeId>) -> bool {
    &&& up.no_duplicates()
    &&& forall|j: int|
        0 <= j < up.len() ==> (#[trigger] up[j]) < st.nodes.len() && st.nodes[up[j] as int].full_lock < u32::MAX
            && st.nodes[up[j] as int].swa_lock < u32::MAX
    &&& st.nodes.len() <= NodeId::MAX
}

/// What locking the first `k` nodes of `up` does: the first `w` of them get
/// window locks, and the last of those the mark once the window is full.
proof fn lemma_lock_steps(st: SWAState, up: Seq<NodeId>, k: nat) -> (w: nat)
    requires
        k <= up.len(),
        lockable(st, up),
        st.uuids < u64::MAX,
        st.window > 0,
    ensures
        w <= k,
        ({
            let (a, size, mark) = st.lock_steps(up, k);
            &&& a == (SWAState { nodes: a.nodes, uuids: a.uuids, ..st })
            &&& a.nodes.len() == st.nodes.len()
            &&& forall|j: int|
                0 <= j < k ==> #[trigger] relocked(st, a, up, j, w)
            &&& forall|i: int|
                0 <= i < st.nodes.len() && !up.take(k as int).contains(i as NodeId) ==> (#[trigger] a.nodes[i])
                    == st.nodes[i]
            &&& size < st.window ==> w == k && mark is None && a.uuids == st.uuids
            &&& size < st.window ==> forall|i: int|
                0 <= i < st.nodes.len() ==> (#[trigger] a.nodes[i]).uuid == st.nodes[i].uuid
            &&& size >= st.window ==> {
                let x = up[w - 1] as int;
                let old_mark = st.nodes[x].uuid;
                &&& w > 0
                &&& mark is Some
                &&& a.nodes[x].uuid == mark
                &&& old_mark == mark && a.uuids == st.uuids || old_mark is None && a.uuids == st.uuids + 1 && mark
                    == Some(a.uuids)
                &&& forall|i: int|
                    0 <= i < st.nodes.len() && i != x ==> (#[trigger] a.nodes[i]).uuid == st.nodes[i].uuid
            }
        }),
    decreases k,
{
    if k == 0 {
        assert(up.take(0) =~= Seq::<NodeId>::empty());
        0
    } else {
        let v = lemma_lock_steps(st, up, (k - 1) as nat);
        let (p, size, mark) = st.lock_steps(up, (k - 1) as nat);
        let (a, size1, mark1) = st.lock_steps(up, k);
        let x = up[k - 1];
        let front = up.take(k - 1);
        let all = up.take(k as int);
        chains::lemma_not_before(up, k - 1);
        assert(x < st.nodes.len());
        assert(p.nodes[x as int] == st.nodes[x as int]);
        let w: nat = if size < st.window {
            k
        } else {
            v
        };
        assert(all[k - 1] == x);
        assert forall|i: int| 0 <= i < st.nodes.len() && !all.contains(i as NodeId) implies (
        #[trigger] a.nodes[i]) == st.nodes[i] by {
            assert(all.contains(x));
            if front.contains(i as NodeId) {
                let j = front.index_of(i as NodeId);
                assert(all[j] == i as NodeId);
            }
        }
        assert forall|j: int| 0 <= j < k implies #[trigger] relocked(st, a, up, j, w) by {
            if j < k - 1 {
                assert(relocked(st, p, up, j, v));
                assert(up[j] != up[k - 1]);
                assert(up[j] < st.nodes.len());
            }
        }
        w
    }
}

/// No node, the root included, has more window locks than full locks.
pub proof fn law_full_covers_swa(st: SWAState)
    requires
        st.wf(),
    ensures
        forall|i: int| 0 <= i < st.nodes.len() ==> (#[trigger] st.nodes[i]).full_lock >= st.nodes[i].swa_lock,
{
    assert forall|i: int| 0 <= i < st.nodes.len() implies (#[trigger] st.nodes[i]).full_lock
        >= st.nodes[i].swa_lock by {
        if i > 0 {
            assert(st.node_ok(i));
        }
    }
}

/// Taking off with its mark the lock that was put on gives the tree back,
/// but for the mark that stays behind.
pub proof fn law_lock_then_unlock(st: SWAState, node: NodeId)
    requires
        st.wf(),
        marks_differ(st),
        node == ROOT || st.live(node),
        st.uuids < u64::MAX,
        st.window > 0,
        forall|k: int|
            0 <= k < st.shape.up(node).len() ==> st.nodes[(#[trigger] st.shape.up(node)[k]) as int].full_lock
                < u32::MAX,
    ensures
        ({
            let up = st.shape.up(node);
            let (t, mark) = st.locked(node);
            let u = t.unlocked(up, up.len() as int, mark, false);
            &&& marks_differ(t)
            &&& u == (SWAState { nodes: u.nodes, uuids: t.uuids, ..st })
            &&& u.nodes.len() == st.nodes.len()
            &&& forall|i: int|
                0 <= i < st.nodes.len() ==> (#[trigger] u.nodes[i]) == (SWANodeState {
                    uuid: t.nodes[i].uuid,
                    ..st.nodes[i]
                }) && (st.nodes[i].uuid is Some ==> t.nodes[i].uuid == st.nodes[i].uuid)
        }),
{
    let up = st.shape.up(node);
    let (t, mark) = st.locked(node);
    let n = up.len() as int;
    let u = t.unlocked(up, n, mark, false);
    swa_model::lemma_up_live(st, node);
    assert forall|j: int| 0 <= j < up.len() implies (#[trigger] up[j]) < st.nodes.len()
        && st.nodes[up[j] as int].full_lock < u32::MAX && st.nodes[up[j] as int].swa_lock < u32::MAX by {
        assert(st.live(up[j]));
        assert(st.node_ok(up[j] as int));
    }
    let w = lemma_lock_steps(st, up, up.len());
    let (a, size, m) = st.lock_steps(up, up.len());
    assert(up.take(n) =~= up);
    assert forall|j: int| 0 <= j < n implies #[trigger] t.unmarked(up, j, mark) == (j < w) by {
        if j < w {
            assert forall|i: int| 0 <= i < j implies mark is None || t.nodes[(#[trigger] up[i]) as int].uuid != mark by {
                if mark is Some {
                    let x = up[w - 1] as int;
                    assert(up[i] != up[w - 1]);
                    assert(up[i] < st.nodes.len());
                    assert(t.nodes[up[i] as int].uuid == st.nodes[up[i] as int].uuid);
                    assert(st.nodes[x].uuid is Some ==> st.nodes[x].uuid != st.nodes[up[i] as int].uuid);
                }
            }
        } else {
            if w > 0 {
                assert(t.nodes[up[w - 1] as int].uuid == mark);
            }
        }
    }
    assert forall|i: int| 0 <= i < st.nodes.len() implies (#[trigger] u.nodes[i]) == (SWANodeState {
        uuid: t.nodes[i].uuid,
        ..st.nodes[i]
    }) && (st.nodes[i].uuid is Some ==> t.nodes[i].uuid == st.nodes[i].uuid) by {
        if up.contains(i as NodeId) {
            let j = up.index_of(i as NodeId);
            assert(up[j] == i);
            assert(relocked(st, t, up, j, w));
            assert(t.unmarked(up, j, mark) == (j < w));
        }
    }
}

} // verus!
