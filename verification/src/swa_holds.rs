//! What a lock of the sliding-window tree holds.

use crate::chains;
use crate::swa_model;
use crate::swa_model::SWAState;
use crate::topo::{NodeId, ROOT};
use vstd::prelude::*;

verus! {

/// What a lock leaves in `up[j]`: one full lock more, and one window lock
/// more if the node covers one of the last `window` tokens of the path.
spec fn held(st: SWAState, a: SWAState, up: Seq<NodeId>, j: int) -> bool {
    let n = st.nodes[up[j] as int];
    let m = a.nodes[up[j] as int];
    let inside = chains::tokens(st.shape, up, j) < st.window;
    let last = inside && chains::tokens(st.shape, up, j + 1) >= st.window;
    &&& m.full_lock == n.full_lock + 1
    &&& m.swa_lock == n.swa_lock + (if inside {
        1int
    } else {
        0
    })
    &&& m.value == n.value
    &&& m.tombstone == n.tombstone
    &&& if last {
        m.uuid is Some && (n.uuid is Some ==> m.uuid == n.uuid)
    } else {
        m.uuid == n.uuid
    }
}

proof fn lemma_lock_steps(st: SWAState, up: Seq<NodeId>, k: nat)
    requires
        k <= up.len(),
        up.no_duplicates(),
        st.nodes.len() <= NodeId::MAX,
        st.uuids < u64::MAX,
        forall|j: int|
            0 <= j < up.len() ==> {
                let n = st.nodes[(#[trigger] up[j]) as int];
                &&& up[j] < st.nodes.len()
                &&& n.full_lock < u32::MAX
                &&& n.swa_lock < u32::MAX
                &&& st.run(up[j]).len() == st.shape.units(up[j] as int)
            },
    ensures
        ({
            let (a, size, mark) = st.lock_steps(up, k);
            let total = chains::tokens(st.shape, up, k as int);
            &&& a == (SWAState { nodes: a.nodes, uuids: a.uuids, ..st })
            &&& a.nodes.len() == st.nodes.len()
            &&& total >= 0
            &&& (size < st.window) == (total < st.window)
            &&& size < st.window ==> size == total && mark is None && a.uuids == st.uuids
            &&& a.uuids <= st.uuids + 1
            &&& forall|j: int| 0 <= j < k ==> #[trigger] held(st, a, up, j)
            &&& forall|i: int|
                0 <= i < st.nodes.len() && !up.take(k as int).contains(i as NodeId) ==> (#[trigger] a.nodes[i])
                    == st.nodes[i]
            &&& mark is Some == (st.window > 0 && total >= st.window)
            &&& forall|j: int|
                #![trigger up[j]]
                0 <= j < k && chains::tokens(st.shape, up, j) < st.window && chains::tokens(st.shape, up, j + 1)
                    >= st.window ==> mark == a.nodes[up[j] as int].uuid
        }),
    decreases k,
{
    if k == 0 {
        assert(up.take(0) =~= Seq::<NodeId>::empty());
    } else {
        lemma_lock_steps(st, up, (k - 1) as nat);
        let (p, size, mark) = st.lock_steps(up, (k - 1) as nat);
        let (a, size1, mark1) = st.lock_steps(up, k);
        let x = up[k - 1];
        let front = up.take(k - 1);
        let all = up.take(k as int);
        chains::lemma_not_before(up, k - 1);
        assert(x < st.nodes.len());
        assert(p.nodes[x as int] == st.nodes[x as int]);
        assert(p.run(x) == st.run(x));
        assert(all[k - 1] == x);
        assert(st.run(up[k - 1]).len() == st.shape.units(up[k - 1] as int));
        assert(chains::tokens(st.shape, up, k as int) == chains::tokens(st.shape, up, k - 1) + st.shape.units(x as int));
        assert forall|i: int| 0 <= i < st.nodes.len() && !all.contains(i as NodeId) implies (#[trigger] a.nodes[i])
            == st.nodes[i] by {
            assert(all.contains(x));
            if front.contains(i as NodeId) {
                assert(all[front.index_of(i as NodeId)] == i as NodeId);
            }
        }
        assert forall|j: int| 0 <= j < k implies #[trigger] held(st, a, up, j) by {
            if j < k - 1 {
                assert(held(st, p, up, j));
                assert(up[j] != up[k - 1]);
                assert(up[j] < st.nodes.len());
            }
        }
        assert forall|j: int|
            #![trigger up[j]]
            0 <= j < k && chains::tokens(st.shape, up, j) < st.window && chains::tokens(st.shape, up, j + 1)
                >= st.window implies mark1 == a.nodes[up[j] as int].uuid by {
            if j < k - 1 {
                assert(up[j] != up[k - 1]);
                assert(up[j] < st.nodes.len());
                assert(chains::tokens(st.shape, up, k - 1) >= st.window) by {
                    assert forall|n: int| 0 <= n < up.len() implies st.shape.units((#[trigger] up[n]) as int) >= 0 by {
                        assert(st.run(up[n]).len() == st.shape.units(up[n] as int));
                    }
                    chains::lemma_tokens_le(st.shape, up, j + 1, k - 1);
                }
            }
        }
    }
}

/// A lock holds the full slots of the whole path of `node`, and the window
/// slots of those of its nodes that cover the last `window` tokens. It gives
/// the mark of the uppermost of these, if the path is as long as the window.
/// Nothing else changes.
pub proof fn law_swa_lock_holds(st: SWAState, node: NodeId)
    requires
        st.wf(),
        node == ROOT || st.live(node),
        st.uuids < u64::MAX,
        forall|k: int|
            0 <= k < st.shape.up(node).len() ==> st.nodes[(#[trigger] st.shape.up(node)[k]) as int].full_lock
                < u32::MAX,
    ensures
        ({
            let up = st.shape.up(node);
            let (t, mark) = st.locked(node);
            &&& t == (SWAState { nodes: t.nodes, uuids: t.uuids, ..st })
            &&& t.nodes.len() == st.nodes.len()
            &&& forall|j: int|
                #![trigger up[j]]
                0 <= j < up.len() ==> {
                    let n = st.nodes[up[j] as int];
                    let m = t.nodes[up[j] as int];
                    &&& m.full_lock == n.full_lock + 1
                    &&& m.swa_lock == n.swa_lock + (if chains::tokens(st.shape, up, j) < st.window {
                        1int
                    } else {
                        0
                    })
                    &&& m.value == n.value
                    &&& m.tombstone == n.tombstone
                    &&& chains::tokens(st.shape, up, j) < st.window && chains::tokens(st.shape, up, j + 1) >= st.window
                        ==> mark is Some && m.uuid == mark
                }
            &&& forall|i: int|
                0 <= i < st.nodes.len() && !up.contains(i as NodeId) ==> (#[trigger] t.nodes[i]) == st.nodes[i]
            &&& mark is Some <==> st.window > 0 && chains::tokens(st.shape, up, up.len() as int) >= st.window
        }),
{
    let up = st.shape.up(node);
    let (t, mark) = st.locked(node);
    swa_model::lemma_up_live(st, node);
    assert forall|j: int| 0 <= j < up.len() implies {
        let n = st.nodes[(#[trigger] up[j]) as int];
        &&& up[j] < st.nodes.len()
        &&& n.full_lock < u32::MAX
        &&& n.swa_lock < u32::MAX
        &&& st.run(up[j]).len() == st.shape.units(up[j] as int)
    } by {
        assert(st.live(up[j]));
        assert(st.node_ok(up[j] as int));
    }
    lemma_lock_steps(st, up, up.len());
    assert(up.take(up.len() as int) =~= up);
    assert forall|j: int| #![trigger up[j]] 0 <= j < up.len() implies {
        let n = st.nodes[up[j] as int];
        let m = t.nodes[up[j] as int];
        &&& m.full_lock == n.full_lock + 1
        &&& m.swa_lock == n.swa_lock + (if chains::tokens(st.shape, up, j) < st.window {
            1int
        } else {
            0
        })
        &&& m.value == n.value
        &&& m.tombstone == n.tombstone
        &&& chains::tokens(st.shape, up, j) < st.window && chains::tokens(st.shape, up, j + 1) >= st.window ==> mark
            is Some && m.uuid == mark
    } by {
        assert(held(st, t, up, j));
    }
}

} // verus!
