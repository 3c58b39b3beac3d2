//! The walk clock: a walk stamps the nodes it visits with one tick, and each
//! node that it creates gets a fresh one, strictly newer.

use crate::hi_model::HiState;
use crate::key::RadixKey;
use crate::query;
use crate::topo::{NodeId, ROOT};
use crate::tree_model;
use crate::tree_model::RadixState;
use vstd::prelude::*;

verus! {

/// From `old_ticks` at time `start` to `ticks` at time `end`: no node has
/// another tick than before but that of the walk, the first after `start`;
/// new nodes, the latest last, have newer ones, each its own, up to `end`.
pub open spec fn moved_on(old_ticks: Seq<u64>, start: u64, ticks: Seq<u64>, end: u64) -> bool {
    &&& start < end
    &&& old_ticks.len() <= ticks.len()
    &&& forall|i: int|
        0 <= i < old_ticks.len() ==> (#[trigger] ticks[i]) == old_ticks[i] || ticks[i] == start + 1
    &&& forall|i: int| old_ticks.len() <= i < ticks.len() ==> start + 1 < (#[trigger] ticks[i]) <= end
    &&& forall|i: int, j: int|
        old_ticks.len() <= i < j < ticks.len() ==> (#[trigger] ticks[i]) < (#[trigger] ticks[j])
    &&& ticks.len() > old_ticks.len() ==> ticks.last() == end
}

impl HiState {
    /// The ticks of the nodes.
    pub open spec fn ticks(self) -> Seq<u64> {
        Seq::new(self.nodes.len(), |i: int| self.nodes[i].access)
    }

    /// The nodes `ids` have the tick `now`, the others those that they have
    /// in `self`.
    spec fn touched(self, t: HiState, ids: Seq<NodeId>, now: u64) -> bool {
        &&& t.clock == self.clock
        &&& t.nodes.len() == self.nodes.len()
        &&& forall|i: int|
            0 <= i < self.nodes.len() ==> (#[trigger] t.nodes[i]).access == (if ids.contains(i as NodeId) {
                now
            } else {
                self.nodes[i].access
            })
    }
}

proof fn lemma_stamped(st: HiState, ids: Seq<NodeId>, now: u64)
    requires
        st.nodes.len() <= NodeId::MAX,
        forall|k: int| 0 <= k < ids.len() ==> (#[trigger] ids[k]) < st.nodes.len(),
    ensures
        st.touched(st.stamped(ids, now), ids, now),
    decreases ids.len(),
{
    if ids.len() > 0 {
        let front = ids.drop_last();
        let x = ids.last();
        assert forall|k: int| 0 <= k < front.len() implies (#[trigger] front[k]) < st.nodes.len() by {
            assert(ids[k] < st.nodes.len());
        }
        lemma_stamped(st, front, now);
        assert(ids[ids.len() - 1] < st.nodes.len());
        assert(ids =~= front.push(x));
        assert forall|i: int| 0 <= i < st.nodes.len() implies (#[trigger] st.stamped(ids, now).nodes[i]).access == (
        if ids.contains(i as NodeId) {
            now
        } else {
            st.nodes[i].access
        }) by {
            tree_model::lemma_push_contains(front, x, i as NodeId);
            assert(st.stamped(front, now).nodes[i].access == (if front.contains(i as NodeId) {
                now
            } else {
                st.nodes[i].access
            }));
        }
    }
}

proof fn lemma_met_all(
    st: HiState,
    chain: Seq<NodeId>,
    k: nat,
    val: Seq<i64>,
    now: u64,
    priority: i32,
    chunked: bool,
)
    requires
        k <= chain.len(),
        st.nodes.len() <= NodeId::MAX,
        forall|j: int| 0 <= j < chain.len() ==> (#[trigger] chain[j]) < st.nodes.len(),
    ensures
        st.touched(st.met_all(chain, k, val, now, priority, chunked).0, chain.take(k as int), now),
    decreases k,
{
    if k > 0 {
        lemma_met_all(st, chain, (k - 1) as nat, val, now, priority, chunked);
        let p = st.met_all(chain, (k - 1) as nat, val, now, priority, chunked).0;
        let t = st.met_all(chain, k, val, now, priority, chunked).0;
        let front = chain.take(k - 1);
        let x = chain[k - 1];
        assert(chain.take(k as int) =~= front.push(x));
        assert forall|i: int| 0 <= i < st.nodes.len() implies (#[trigger] t.nodes[i]).access == (if chain.take(
            k as int,
        ).contains(i as NodeId) {
            now
        } else {
            st.nodes[i].access
        }) by {
            tree_model::lemma_push_contains(front, x, i as NodeId);
            assert(p.nodes[i].access == (if front.contains(i as NodeId) {
                now
            } else {
                st.nodes[i].access
            }));
        }
    }
}

/// A walk of a host-tier tree moves the clock on, stamps the nodes that it
/// passes with one tick, and gives the front of a split a newer one.
proof fn lemma_walk_ticks(st: HiState, start: NodeId, key: RadixKey)
    requires
        st.wf(),
        st.roomy(),
        start < st.nodes.len(),
        st.shape.nodes[start as int].attached,
        start != ROOT ==> st.shape.nodes[start as int].ns == st.frame().ns_of(key),
    ensures
        ({
            let w = st.frame().walk_at(start, key);
            let t = st.after_walk(start, w, st.frame().names_with(key)).0;
            &&& moved_on(st.ticks(), st.clock, t.ticks(), t.clock)
            &&& t.clock <= st.clock + 2
            &&& t.ticks()[start as int] == st.clock + 1
            &&& forall|k: int| 0 <= k < w.chain.len() ==> t.ticks()[(#[trigger] w.chain[k]) as int] == st.clock + 1
        }),
{
    let w = st.frame().walk_at(start, key);
    let names = st.frame().names_with(key);
    let t = st.after_walk(start, w, names).0;
    let now = (st.clock + 1) as u64;
    let base = HiState { names, clock: now, ..st };
    let ids = seq![start] + w.chain;
    assert(forall|k: int| 0 <= k < w.chain.len() ==> (#[trigger] w.chain[k]) < st.nodes.len()
        && (w.stop matches Some((c, m)) ==> 0 < c < st.nodes.len() && w.chain[k] != c)) by {
        query::lemma_query_at(st.frame(), start, key);
    }
    assert(w.stop matches Some((c, m)) ==> 0 < c < st.nodes.len()) by {
        query::lemma_query_at(st.frame(), start, key);
    }
    assert forall|k: int| 0 <= k < ids.len() implies (#[trigger] ids[k]) < st.nodes.len() by {
        if k > 0 {
            assert(ids[k] == w.chain[k - 1]);
        }
    }
    assert(ids[0] == start);
    assert forall|k: int| 0 <= k < w.chain.len() implies ids.contains(#[trigger] w.chain[k]) by {
        assert(ids[k + 1] == w.chain[k]);
    }
    assert(ids.contains(start));
    match w.stop {
        None => {
            lemma_stamped(base, ids, now);
            assert forall|i: int| 0 <= i < st.nodes.len() implies (#[trigger] t.ticks()[i]) == st.ticks()[i]
                || t.ticks()[i] == st.clock + 1 by {
                assert(t.nodes[i].access == (if ids.contains(i as NodeId) {
                    now
                } else {
                    st.nodes[i].access
                }));
            }
            assert(t.nodes[start as int].access == now);
            assert forall|k: int| 0 <= k < w.chain.len() implies t.ticks()[(#[trigger] w.chain[k]) as int]
                == st.clock + 1 by {
                assert(ids.contains(w.chain[k]));
                assert(t.nodes[w.chain[k] as int].access == now);
            }
        },
        Some((c, m)) => {
            let all = ids.push(c);
            assert forall|k: int| 0 <= k < all.len() implies (#[trigger] all[k]) < st.nodes.len() by {
                if k < ids.len() {
                    assert(ids[k] < st.nodes.len());
                }
            }
            lemma_stamped(base, all, now);
            let a = base.stamped(all, now);
            assert forall|i: int| 0 <= i < st.nodes.len() implies (#[trigger] t.nodes[i]).access == (
            if all.contains(i as NodeId) {
                now
            } else {
                st.nodes[i].access
            }) by {
                assert(a.nodes[i].access == (if all.contains(i as NodeId) {
                    now
                } else {
                    st.nodes[i].access
                }));
            }
            assert(t.nodes[st.nodes.len() as int].access == st.clock + 2);
            tree_model::lemma_push_contains(ids, c, start);
            assert(t.nodes[start as int].access == now);
            assert forall|k: int| 0 <= k < w.chain.len() implies t.ticks()[(#[trigger] w.chain[k]) as int]
                == st.clock + 1 by {
                assert(ids.contains(w.chain[k]));
                tree_model::lemma_push_contains(ids, c, w.chain[k]);
                assert(t.nodes[w.chain[k] as int].access == now);
            }
            assert forall|i: int| 0 <= i < st.nodes.len() implies (#[trigger] t.ticks()[i]) == st.ticks()[i]
                || t.ticks()[i] == st.clock + 1 by {
                assert(t.nodes[i].access == now || t.nodes[i].access == st.nodes[i].access);
            }
        },
    }
}

/// A match of a host-tier tree stamps all nodes on its way with one tick, and
/// the front of a split gets a strictly newer one.
pub proof fn law_hi_match_ticks(st: HiState, key: RadixKey)
    requires
        st.wf(),
        st.roomy(),
        !st.disable,
        st.frame().flat(key).len() > 0,
    ensures
        ({
            let t = st.after_match(key).0;
            let chain = st.frame().walk(key).chain;
            &&& moved_on(st.ticks(), st.clock, t.ticks(), t.clock)
            &&& t.ticks()[0] == st.clock + 1
            &&& forall|k: int| 0 <= k < chain.len() ==> t.ticks()[(#[trigger] chain[k]) as int] == st.clock + 1
        }),
{
    lemma_walk_ticks(st, ROOT, key);
}

/// An insert of host runs stamps all nodes on its way with one tick, and the
/// front of a split and the new leaf get strictly newer ones.
pub proof fn law_hi_insert_host_ticks(st: HiState, start: NodeId, key: RadixKey, host: Seq<i64>)
    requires
        st.wf(),
        st.roomy(),
        !st.disable,
        st.frame().flat(key).len() > 0,
        start < st.nodes.len(),
        st.shape.nodes[start as int].attached,
        start != ROOT ==> st.shape.nodes[start as int].ns == st.frame().ns_of(key),
    ensures
        ({
            let w = st.frame().walk_at(start, key);
            let t = st.after_insert_host(start, key, host);
            &&& moved_on(st.ticks(), st.clock, t.ticks(), t.clock)
            &&& t.ticks()[start as int] == st.clock + 1
            &&& forall|k: int| 0 <= k < w.chain.len() ==> t.ticks()[(#[trigger] w.chain[k]) as int] == st.clock + 1
            &&& w.used < st.frame().flat(key).len() ==> t.nodes.len() > st.nodes.len() && t.ticks().last() == t.clock
        }),
{
    lemma_walk_ticks(st, start, key);
    let w = st.frame().walk_at(start, key);
    let a = st.after_walk(start, w, st.frame().names_with(key)).0;
    let t = st.after_insert_host(start, key, host);
    assert(forall|k: int| 0 <= k < w.chain.len() ==> (#[trigger] w.chain[k]) < st.nodes.len()) by {
        query::lemma_query_at(st.frame(), start, key);
    }
    if w.used < st.frame().flat(key).len() {
        lemma_leaf_ticks(st, a, t);
        assert(t.ticks()[start as int] == a.ticks()[start as int]);
        assert forall|k: int| 0 <= k < w.chain.len() implies t.ticks()[(#[trigger] w.chain[k]) as int] == st.clock
            + 1 by {
            assert(t.ticks()[w.chain[k] as int] == a.ticks()[w.chain[k] as int]);
        }
    }
}

/// A new leaf with a tick of its own goes on where a walk ended.
proof fn lemma_leaf_ticks(st: HiState, a: HiState, t: HiState)
    requires
        moved_on(st.ticks(), st.clock, a.ticks(), a.clock),
        a.clock < u64::MAX,
        t.clock == a.clock + 1,
        t.nodes.len() == a.nodes.len() + 1,
        forall|i: int| 0 <= i < a.nodes.len() ==> (#[trigger] t.nodes[i]).access == a.nodes[i].access,
        t.nodes[a.nodes.len() as int].access == t.clock,
    ensures
        moved_on(st.ticks(), st.clock, t.ticks(), t.clock),
        forall|i: int| 0 <= i < a.nodes.len() ==> (#[trigger] t.ticks()[i]) == a.ticks()[i],
        t.ticks().last() == t.clock,
{
    assert forall|i: int| 0 <= i < a.nodes.len() implies (#[trigger] t.ticks()[i]) == a.ticks()[i] by {
        assert(t.nodes[i].access == a.nodes[i].access);
    }
}

/// An insert into a host-tier tree stamps all nodes on its way with one tick,
/// and the front of a split and the new leaf get strictly newer ones.
pub proof fn law_hi_insert_ticks(st: HiState, key: RadixKey, value: Seq<i64>, priority: i32, chunked: bool)
    requires
        st.wf(),
        st.roomy(),
        !st.disable,
        st.frame().flat(key).len() > 0,
    ensures
        ({
            let w = st.frame().walk(key);
            let (t, r) = st.after_insert(key, value, priority, chunked);
            &&& moved_on(st.ticks(), st.clock, t.ticks(), t.clock)
            &&& forall|k: int| 0 <= k < w.chain.len() ==> t.ticks()[(#[trigger] w.chain[k]) as int] == st.clock + 1
            &&& w.used < st.frame().flat(key).len() ==> r.node >= st.nodes.len() && t.ticks()[r.node as int] == t.clock
        }),
{
    let f = st.frame();
    let w = f.walk(key);
    let now = (st.clock + 1) as u64;
    let val = value.take(f.units(key));
    let base = HiState { names: f.names_with(key), clock: now, ..st };
    let (a, ra) = st.after_insert_walk(key, val, priority, chunked);
    let (t, r) = st.after_insert(key, value, priority, chunked);
    assert(forall|k: int| 0 <= k < w.chain.len() ==> (#[trigger] w.chain[k]) < st.nodes.len()
        && (w.stop matches Some((c, m)) ==> w.chain[k] != c)) by {
        query::lemma_query(f, key);
    }
    assert(w.stop matches Some((c, m)) ==> 0 < c < st.nodes.len()) by {
        query::lemma_query(f, key);
    }
    lemma_met_all(base, w.chain, w.chain.len(), val, now, priority, chunked);
    let b = base.met_all(w.chain, w.chain.len(), val, now, priority, chunked).0;
    assert(w.chain.take(w.chain.len() as int) =~= w.chain);
    assert forall|i: int| 0 <= i < st.nodes.len() implies (#[trigger] a.ticks()[i]) == st.ticks()[i] || a.ticks()[i]
        == now by {
        assert(b.nodes[i].access == (if w.chain.contains(i as NodeId) {
            now
        } else {
            st.nodes[i].access
        }));
    }
    assert forall|k: int| 0 <= k < w.chain.len() implies a.ticks()[(#[trigger] w.chain[k]) as int] == now by {
        assert(w.chain.contains(w.chain[k]));
        assert(b.nodes[w.chain[k] as int].access == now);
    }
    if w.stop is Some {
        assert(a.nodes[st.nodes.len() as int].access == now + 1);
    }
    assert(moved_on(st.ticks(), st.clock, a.ticks(), a.clock));
    if w.used < f.flat(key).len() {
        lemma_leaf_ticks(st, a, t);
        assert forall|k: int| 0 <= k < w.chain.len() implies t.ticks()[(#[trigger] w.chain[k]) as int] == now by {
            assert(t.ticks()[w.chain[k] as int] == a.ticks()[w.chain[k] as int]);
        }
    }
}

// ---- the plain tree ----

impl RadixState {
    /// The ticks of the nodes.
    pub open spec fn ticks(self) -> Seq<u64> {
        Seq::new(self.nodes.len(), |i: int| self.nodes[i].last_access)
    }
}

/// A match stamps the root and all nodes on its way with one tick, and the
/// front of a split gets a strictly newer one.
pub proof fn law_match_ticks(st: RadixState, key: RadixKey)
    requires
        st.wf(),
        st.roomy(),
        !st.disable,
        st.flat(key).len() > 0,
    ensures
        ({
            let t = st.after_match(key).0;
            let chain = st.walk(key).chain;
            &&& moved_on(st.ticks(), st.clock, t.ticks(), t.clock)
            &&& t.ticks()[0] == st.clock + 1
            &&& forall|k: int| 0 <= k < chain.len() ==> t.ticks()[(#[trigger] chain[k]) as int] == st.clock + 1
        }),
{
    let w = st.walk(key);
    let t = st.after_match(key).0;
    assert(forall|k: int| 0 <= k < w.chain.len() ==> (#[trigger] w.chain[k]) < st.nodes.len()) by {
        tree_model::lemma_query(st, key);
    }
    assert(w.stop matches Some((c, m)) ==> 0 < c < st.nodes.len()) by {
        tree_model::lemma_query(st, key);
    }
    assert forall|k: int| 0 <= k < w.chain.len() implies t.ticks()[(#[trigger] w.chain[k]) as int] == st.clock
        + 1 by {
        assert(w.chain.contains(w.chain[k]));
    }
    if w.stop is Some {
        assert(t.nodes[st.nodes.len() as int].last_access == st.clock + 2);
    }
    assert(moved_on(st.ticks(), st.clock, t.ticks(), t.clock));
}

/// An insert stamps the root and all nodes on its way with one tick, and the
/// front of a split and the new leaf get strictly newer ones.
pub proof fn law_insert_ticks(st: RadixState, key: RadixKey, value: Seq<i64>, priority: i32, chunked: bool)
    requires
        st.wf(),
        st.roomy(),
        !st.disable,
        st.flat(key).len() > 0,
    ensures
        ({
            let w = st.walk(key);
            let (t, node) = st.after_insert(key, value, priority, chunked);
            &&& moved_on(st.ticks(), st.clock, t.ticks(), t.clock)
            &&& t.ticks()[0] == st.clock + 1
            &&& forall|k: int| 0 <= k < w.chain.len() ==> t.ticks()[(#[trigger] w.chain[k]) as int] == st.clock + 1
            &&& w.used < st.flat(key).len() ==> node >= st.nodes.len() && t.ticks()[node as int] == t.clock
        }),
{
    let w = st.walk(key);
    let (t, node) = st.after_insert(key, value, priority, chunked);
    let a = st.after_insert_walk(key, priority, chunked).0;
    assert(forall|k: int| 0 <= k < w.chain.len() ==> (#[trigger] w.chain[k]) < st.nodes.len()) by {
        tree_model::lemma_query(st, key);
    }
    assert(w.stop matches Some((c, m)) ==> 0 < c < st.nodes.len()) by {
        tree_model::lemma_query(st, key);
    }
    assert forall|k: int| 0 <= k < w.chain.len() implies t.ticks()[(#[trigger] w.chain[k]) as int] == st.clock
        + 1 by {
        assert(w.chain.contains(w.chain[k]));
        assert(t.nodes[w.chain[k] as int].last_access == a.nodes[w.chain[k] as int].last_access);
    }
    if w.stop is Some {
        assert(a.nodes[st.nodes.len() as int].last_access == st.clock + 2);
    }
    assert forall|i: int| 0 <= i < a.nodes.len() implies (#[trigger] t.ticks()[i]) == a.ticks()[i] by {
    }
    assert(moved_on(st.ticks(), st.clock, a.ticks(), a.clock));
    assert(moved_on(st.ticks(), st.clock, t.ticks(), t.clock));
}

} // verus!
