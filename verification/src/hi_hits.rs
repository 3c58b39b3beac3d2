//! Which nodes of the two-tier tree an insert counts a hit of, and which it
//! lists as in need of a backup.

use crate::hi_model::{HiPolicy, HiState};
use crate::key::RadixKey;
use crate::query;
use crate::topo::NodeId;
use crate::tree_model;
use vstd::prelude::*;

verus! {

/// Whether an insert counts hits at all.
pub open spec fn counting(st: HiState, chunked: bool) -> bool {
    st.policy != HiPolicy::WriteBack && !chunked
}

/// Whether an insert of `key` comes past `x` and finds device slots there: a
/// node that it passes whole, the front of one that it cuts, or the leaf
/// that it adds.
pub open spec fn comes_past(st: HiState, key: RadixKey, leaf: NodeId, x: NodeId) -> bool {
    let w = st.frame().walk(key);
    ||| w.chain.contains(x) && st.nodes[x as int].value is Some
    ||| w.stop matches Some((c, m)) && x == st.nodes.len() && st.nodes[c as int].value is Some
    ||| w.used < st.frame().flat(key).len() && x == leaf
}

/// The hits that `x` had before an insert of `key`: a new leaf has none, and
/// the front of a node that is cut has those of the node.
pub open spec fn earlier_hits(st: HiState, key: RadixKey, x: NodeId) -> u64 {
    if x < st.nodes.len() {
        st.nodes[x as int].hits
    } else {
        match st.frame().walk(key).stop {
            Some((c, m)) if x == st.nodes.len() => st.nodes[c as int].hits,
            _ => 0,
        }
    }
}

/// What the first nodes of a chain have after an insert came past them.
spec fn counted(st: HiState, t: HiState, due: Seq<NodeId>, ids: Seq<NodeId>, chunked: bool) -> bool {
    &&& t.nodes.len() == st.nodes.len()
    &&& t.policy == st.policy
    &&& t.threshold == st.threshold
    &&& t.clock == st.clock
    &&& due.no_duplicates()
    &&& forall|x: NodeId| #[trigger]
        due.contains(x) <==> counting(st, chunked) && ids.contains(x) && st.nodes[x as int].value is Some
            && st.nodes[x as int].host is None && st.nodes[x as int].hits + 1 >= st.threshold
    &&& forall|i: int|
        0 <= i < st.nodes.len() ==> {
            &&& (#[trigger] t.nodes[i]).host == st.nodes[i].host
            &&& t.nodes[i].hits == st.nodes[i].hits + (if counting(st, chunked) && ids.contains(i as NodeId)
                && st.nodes[i].value is Some {
                1int
            } else {
                0
            })
            &&& !ids.contains(i as NodeId) ==> t.nodes[i] == st.nodes[i]
        }
}

proof fn lemma_met_all(
    st: HiState,
    chain: Seq<NodeId>,
    k: nat,
    val: Seq<i64>,
    now: u64,
    priority: i32,
    chunked: bool,
)
    requires
        k <= chain.len(),
        chain.no_duplicates(),
        st.nodes.len() <= NodeId::MAX,
        forall|j: int| 0 <= j < chain.len() ==> (#[trigger] chain[j]) < st.nodes.len(),
        forall|i: int| 0 <= i < st.nodes.len() ==> (#[trigger] st.nodes[i]).hits < u64::MAX,
    ensures
        counted(
            st,
            st.met_all(chain, k, val, now, priority, chunked).0,
            st.met_all(chain, k, val, now, priority, chunked).1,
            chain.take(k as int),
            chunked,
        ),
    decreases k,
{
    if k > 0 {
        lemma_met_all(st, chain, (k - 1) as nat, val, now, priority, chunked);
        let (p, due, n) = st.met_all(chain, (k - 1) as nat, val, now, priority, chunked);
        let (t, due2, n2) = st.met_all(chain, k, val, now, priority, chunked);
        let front = chain.take(k - 1);
        let x = chain[k - 1];
        crate::chains::lemma_not_before(chain, k - 1);
        assert(chain.take(k as int) =~= front.push(x));
        assert(!front.contains(x));
        assert(p.nodes[x as int] == st.nodes[x as int]);
        let more = counting(st, chunked) && st.nodes[x as int].value is Some && st.nodes[x as int].host is None
            && st.nodes[x as int].hits + 1 >= st.threshold;
        assert(!due.contains(x));
        if more {
            assert(due2 =~= due.push(x));
        } else {
            assert(due2 =~= due);
        }
        assert forall|y: NodeId| #[trigger]
            due2.contains(y) <==> counting(st, chunked) && front.push(x).contains(y) && st.nodes[y as int].value
                is Some && st.nodes[y as int].host is None && st.nodes[y as int].hits + 1 >= st.threshold by {
            tree_model::lemma_push_contains(front, x, y);
            tree_model::lemma_push_contains(due, x, y);
            assert(due.contains(y) <==> counting(st, chunked) && front.contains(y) && st.nodes[y as int].value is Some
                && st.nodes[y as int].host is None && st.nodes[y as int].hits + 1 >= st.threshold);
        }
        assert forall|i: int| 0 <= i < st.nodes.len() implies {
            &&& (#[trigger] t.nodes[i]).host == st.nodes[i].host
            &&& t.nodes[i].hits == st.nodes[i].hits + (if counting(st, chunked) && front.push(x).contains(i as NodeId)
                && st.nodes[i].value is Some {
                1int
            } else {
                0
            })
            &&& !front.push(x).contains(i as NodeId) ==> t.nodes[i] == st.nodes[i]
        } by {
            tree_model::lemma_push_contains(front, x, i as NodeId);
            assert(p.nodes[i].host == st.nodes[i].host);
        }
    } else {
        assert(chain.take(0) =~= Seq::<NodeId>::empty());
    }
}

/// An insert lists as in need of a backup, each once, just the nodes that it
/// came past whose hits have reached the threshold and that have no host
/// copy. It counts one hit more of each node that it came past, and of no
/// other.
pub proof fn law_insert_lists_backups(st: HiState, key: RadixKey, value: Seq<i64>, priority: i32, chunked: bool)
    requires
        st.wf(),
        st.roomy(),
        !st.disable,
        st.frame().flat(key).len() > 0,
    ensures
        ({
            let (t, r) = st.after_insert(key, value, priority, chunked);
            &&& t.threshold == st.threshold
            &&& r.due.no_duplicates()
            &&& forall|x: NodeId| #[trigger]
                r.due.contains(x) <==> x < t.nodes.len() && counting(st, chunked) && comes_past(st, key, r.node, x)
                    && t.nodes[x as int].host is None && t.nodes[x as int].hits >= t.threshold
            &&& forall|x: NodeId|
                x < t.nodes.len() ==> (#[trigger] t.nodes[x as int]).hits == earlier_hits(st, key, x) + (if counting(
                    st,
                    chunked,
                ) && comes_past(st, key, r.node, x) {
                    1int
                } else {
                    0
                })
            &&& forall|x: NodeId|
                x < st.nodes.len() ==> (#[trigger] t.nodes[x as int]).host is None == st.nodes[x as int].host is None
        }),
{
    let f = st.frame();
    let w = f.walk(key);
    let now = (st.clock + 1) as u64;
    let val = value.take(f.units(key));
    let base = HiState { names: f.names_with(key), clock: now, ..st };
    let (a, ra) = st.after_insert_walk(key, val, priority, chunked);
    let (t, r) = st.after_insert(key, value, priority, chunked);
    assert(w.chain.no_duplicates() && forall|k: int|
        0 <= k < w.chain.len() ==> (#[trigger] w.chain[k]) < st.nodes.len()) by {
        query::lemma_query(f, key);
    }
    assert(w.stop matches Some((c, m)) ==> 0 < c < st.nodes.len() && !w.chain.contains(c)) by {
        query::lemma_query(f, key);
    }
    lemma_met_all(base, w.chain, w.chain.len(), val, now, priority, chunked);
    let (b, due, n) = base.met_all(w.chain, w.chain.len(), val, now, priority, chunked);
    assert(w.chain.take(w.chain.len() as int) =~= w.chain);
    assert(forall|x: NodeId| w.chain.contains(x) ==> x < st.nodes.len());
    let fr = st.nodes.len() as NodeId;
    assert(!w.chain.contains(fr));
    assert(!due.contains(fr));
    if let Some((c, m)) = w.stop {
        let e = b.raised(c, now, priority).cut(c, m as int);
        let more = counting(st, chunked) && st.nodes[c as int].value is Some && st.nodes[c as int].host is None
            && st.nodes[c as int].hits + 1 >= st.threshold;
        assert(b.nodes[c as int] == base.nodes[c as int]);
        assert(e.nodes[fr as int].hits == st.nodes[c as int].hits);
        assert(e.nodes[c as int].hits == st.nodes[c as int].hits);
        if more {
            assert(ra.due =~= due.push(fr));
        } else {
            assert(ra.due =~= due);
        }
        assert forall|x: NodeId| #[trigger] ra.due.contains(x) <==> due.contains(x) || (more && x == fr) by {
            tree_model::lemma_push_contains(due, fr, x);
        }
    }
    let leaf = a.nodes.len() as NodeId;
    assert(!ra.due.contains(leaf));
    if w.used < f.flat(key).len() {
        let more = counting(st, chunked) && 1 >= st.threshold;
        if more {
            assert(r.due =~= ra.due.push(leaf));
        } else {
            assert(r.due =~= ra.due);
        }
        assert forall|x: NodeId| #[trigger] r.due.contains(x) <==> ra.due.contains(x) || (more && x == leaf) by {
            tree_model::lemma_push_contains(ra.due, leaf, x);
        }
    }
    assert forall|x: NodeId| x < t.nodes.len() implies (#[trigger] t.nodes[x as int]).hits == earlier_hits(st, key, x)
        + (if counting(st, chunked) && comes_past(st, key, r.node, x) {
        1int
    } else {
        0
    }) by {
        if x < st.nodes.len() {
            assert(b.nodes[x as int].host == st.nodes[x as int].host);
        }
    }
    assert forall|x: NodeId| x < st.nodes.len() implies (#[trigger] t.nodes[x as int]).host is None
        == st.nodes[x as int].host is None by {
        assert(b.nodes[x as int].host == st.nodes[x as int].host);
    }
    assert forall|x: NodeId| #[trigger]
        r.due.contains(x) <==> x < t.nodes.len() && counting(st, chunked) && comes_past(st, key, r.node, x)
            && t.nodes[x as int].host is None && t.nodes[x as int].hits >= t.threshold by {
        if x < st.nodes.len() {
            assert(b.nodes[x as int].host == st.nodes[x as int].host);
        }
    }
}

} // verus!
