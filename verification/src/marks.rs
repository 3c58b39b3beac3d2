//! What an insert leaves on the nodes that it comes past: hits and
//! priorities.

use crate::chains;
use crate::hi_model::HiState;
use crate::key::RadixKey;
use crate::query;
use crate::topo::NodeId;
use crate::tree_model;
use crate::tree_model::{NodeState, RadixState};
use vstd::prelude::*;

verus! {

/// From `n` to `m`: one hit more unless `chunked`, and the priority raised to
/// `priority` at least; the locks stay.
pub open spec fn marked(n: NodeState, m: NodeState, priority: i32, chunked: bool) -> bool {
    &&& m.hit_count == n.hit_count + (if chunked {
        0int
    } else {
        1
    })
    &&& m.priority >= n.priority
    &&& m.priority >= priority
    &&& m.priority == n.priority || m.priority == priority
    &&& m.lock_ref == n.lock_ref
}

/// From `n` to `m` hits, priority and locks stay.
pub open spec fn unmarked(n: NodeState, m: NodeState) -> bool {
    m.hit_count == n.hit_count && m.priority == n.priority && m.lock_ref == n.lock_ref
}

/// An insert counts a hit of each node that it passes whole, of the front of
/// one that it cuts and of the leaf that it adds, and raises their priority
/// to its own. No other node below the root is marked.
pub proof fn law_insert_marks(st: RadixState, key: RadixKey, value: Seq<i64>, priority: i32, chunked: bool)
    requires
        st.wf(),
        st.roomy(),
        !st.disable,
        st.flat(key).len() > 0,
    ensures
        ({
            let w = st.walk(key);
            let f = st.nodes.len() as int;
            let (t, x) = st.after_insert(key, value, priority, chunked);
            &&& forall|i: int|
                #![trigger t.nodes[i]]
                0 < i < f ==> if w.chain.contains(i as NodeId) {
                    marked(st.nodes[i], t.nodes[i], priority, chunked)
                } else {
                    unmarked(st.nodes[i], t.nodes[i])
                }
            &&& w.stop matches Some((c, m)) ==> marked(st.nodes[c as int], t.nodes[f], priority, chunked)
            &&& w.used < st.flat(key).len() ==> {
                let leaf = t.nodes[x as int];
                &&& x == t.nodes.len() - 1
                &&& leaf.hit_count == (if chunked {
                    0int
                } else {
                    1
                })
                &&& leaf.priority == priority
                &&& leaf.lock_ref == 0
            }
        }),
{
    let w = st.walk(key);
    let (t, x) = st.after_insert(key, value, priority, chunked);
    assert(w.stop matches Some((c, m)) ==> 0 < c < st.nodes.len() && !w.chain.contains(c)) by {
        tree_model::lemma_query(st, key);
    }
    assert forall|i: int| 0 <= i < st.nodes.len() implies (#[trigger] st.nodes[i]).hit_count < u64::MAX by {
        if i > 0 {
            assert(st.node_ok(i));
        }
    }
}

/// An insert raises the priority of each node that it passes and of both
/// parts of one that it cuts to its own; a leaf that it adds has that
/// priority. No other node's priority changes, and no lock.
pub proof fn law_hi_insert_raises(st: HiState, key: RadixKey, value: Seq<i64>, priority: i32, chunked: bool)
    requires
        st.wf(),
        st.roomy(),
        !st.disable,
        st.frame().flat(key).len() > 0,
    ensures
        ({
            let w = st.frame().walk(key);
            let f = st.nodes.len() as int;
            let (t, r) = st.after_insert(key, value, priority, chunked);
            &&& forall|i: int|
                #![trigger t.nodes[i]]
                0 <= i < f ==> {
                    &&& t.nodes[i].lock == st.nodes[i].lock
                    &&& t.nodes[i].host_ref == st.nodes[i].host_ref
                    &&& t.nodes[i].pending == st.nodes[i].pending
                    &&& if w.chain.contains(i as NodeId) || (w.stop matches Some((c, m)) && c == i) {
                        raised(st.nodes[i].priority, t.nodes[i].priority, priority)
                    } else {
                        t.nodes[i].priority == st.nodes[i].priority
                    }
                }
            &&& w.stop matches Some((c, m)) ==> {
                &&& raised(st.nodes[c as int].priority, t.nodes[f].priority, priority)
                &&& t.nodes[f].lock == st.nodes[c as int].lock
                &&& t.nodes[f].host_ref == 0
            }
            &&& w.used < st.frame().flat(key).len() ==> {
                let leaf = t.nodes[r.node as int];
                &&& r.node == t.nodes.len() - 1
                &&& leaf.priority == priority
                &&& leaf.lock == 0
                &&& leaf.host_ref == 0
                &&& leaf.host is None
                &&& !leaf.pending
            }
        }),
{
    let fr = st.frame();
    let w = fr.walk(key);
    let now = (st.clock + 1) as u64;
    let val = value.take(fr.units(key));
    let base = HiState { names: fr.names_with(key), clock: now, ..st };
    assert(w.chain.no_duplicates() && forall|k: int|
        0 <= k < w.chain.len() ==> (#[trigger] w.chain[k]) < st.nodes.len()) by {
        query::lemma_query(fr, key);
    }
    assert(w.stop matches Some((c, m)) ==> 0 < c < st.nodes.len() && !w.chain.contains(c)) by {
        query::lemma_query(fr, key);
    }
    lemma_met_all(base, w.chain, w.chain.len(), val, now, priority, chunked);
    let b = base.met_all(w.chain, w.chain.len(), val, now, priority, chunked).0;
    assert(w.chain.take(w.chain.len() as int) =~= w.chain);
    assert forall|i: int| 0 <= i < st.nodes.len() implies #[trigger] lifted(
        base,
        b,
        w.chain,
        i,
        priority,
    ) by {
        assert(lifted(base, b, w.chain.take(w.chain.len() as int), i, priority));
    }
    let (t, r) = st.after_insert(key, value, priority, chunked);
    assert forall|i: int| #![trigger t.nodes[i]] 0 <= i < st.nodes.len() implies {
        &&& t.nodes[i].lock == st.nodes[i].lock
        &&& t.nodes[i].host_ref == st.nodes[i].host_ref
        &&& t.nodes[i].pending == st.nodes[i].pending
        &&& if w.chain.contains(i as NodeId) || (w.stop matches Some((c, m)) && c == i) {
            raised(st.nodes[i].priority, t.nodes[i].priority, priority)
        } else {
            t.nodes[i].priority == st.nodes[i].priority
        }
    } by {
        assert(lifted(base, b, w.chain, i, priority));
    }
    if let Some((c, m)) = w.stop {
        assert(lifted(base, b, w.chain, c as int, priority));
    }
}

/// From `a` to `b` raised to `priority` at least.
pub open spec fn raised(a: i32, b: i32, priority: i32) -> bool {
    &&& b >= a
    &&& b >= priority
    &&& b == a || b == priority
}

/// What an insert that came past `ids` left in node `i`.
spec fn lifted(st: HiState, t: HiState, ids: Seq<NodeId>, i: int, priority: i32) -> bool {
    &&& t.nodes[i].lock == st.nodes[i].lock
    &&& t.nodes[i].host_ref == st.nodes[i].host_ref
    &&& t.nodes[i].pending == st.nodes[i].pending
    &&& if ids.contains(i as NodeId) {
        raised(st.nodes[i].priority, t.nodes[i].priority, priority)
    } else {
        t.nodes[i].priority == st.nodes[i].priority
    }
}

proof fn lemma_met_all(
    st: HiState,
    chain: Seq<NodeId>,
    k: nat,
    val: Seq<i64>,
    now: u64,
    priority: i32,
    chunked: bool,
)
    requires
        k <= chain.len(),
        chain.no_duplicates(),
        st.nodes.len() <= NodeId::MAX,
        forall|j: int| 0 <= j < chain.len() ==> (#[trigger] chain[j]) < st.nodes.len(),
    ensures
        ({
            let t = st.met_all(chain, k, val, now, priority, chunked).0;
            &&& t.nodes.len() == st.nodes.len()
            &&& t.clock == st.clock
            &&& t.policy == st.policy
            &&& forall|i: int|
                0 <= i < st.nodes.len() ==> #[trigger] lifted(st, t, chain.take(k as int), i, priority)
        }),
    decreases k,
{
    if k > 0 {
        lemma_met_all(st, chain, (k - 1) as nat, val, now, priority, chunked);
        let p = st.met_all(chain, (k - 1) as nat, val, now, priority, chunked).0;
        let t = st.met_all(chain, k, val, now, priority, chunked).0;
        let front = chain.take(k - 1);
        let x = chain[k - 1];
        chains::lemma_not_before(chain, k - 1);
        assert(chain.take(k as int) =~= front.push(x));
        assert forall|i: int| 0 <= i < st.nodes.len() implies #[trigger] lifted(
            st,
            t,
            chain.take(k as int),
            i,
            priority,
        ) by {
            tree_model::lemma_push_contains(front, x, i as NodeId);
            assert(lifted(st, p, front, i, priority));
        }
    } else {
        assert(chain.take(0) =~= Seq::<NodeId>::empty());
    }
}

} // verus!
