//! What a match finds of a key that was inserted into the sliding-window
//! tree.

use crate::chains;
use crate::key::RadixKey;
use crate::query;
use crate::query::Frame;
use crate::swa_model;
use crate::swa_model::{Freed, SWANodeState, SWAState};
use crate::topo;
use crate::topo::{NodeId, Shape, Walk, ROOT};
use crate::tree_model;
use crate::walk_laws;
use vstd::prelude::*;

verus! {

/// The nodes `ids`, one after the other.
pub open spec fn trail(st: SWAState, ids: Seq<NodeId>) -> Seq<SWANodeState> {
    Seq::new(ids.len(), |k: int| st.nodes[ids[k] as int])
}

/// Tokens of the first `k` nodes of a path.
pub open spec fn span(path: Seq<SWANodeState>, k: int) -> int
    decreases k,
{
    if k <= 0 {
        0
    } else {
        span(path, k - 1) + path[k - 1].value->0.len()
    }
}

/// The run of a node that starts `at` tokens into the key, once an insert
/// has come to it with `run`: an unlocked tombstone takes over what still
/// has window slots, unless the caller shares its tokens already.
pub open spec fn taken_run(n: SWANodeState, run: Seq<i64>, at: int, upd: int, evicted: int) -> Seq<i64> {
    let own = n.value->0;
    let end = at + own.len();
    if n.tombstone && n.full_lock == 0 && upd < end && evicted < end {
        let kept = if evicted > at {
            evicted - at
        } else {
            0
        };
        own.take(kept) + run.skip(kept)
    } else {
        own
    }
}

/// The runs of the first `k` nodes of a path once an insert of `val` has
/// come past.
pub open spec fn taken(path: Seq<SWANodeState>, val: Seq<i64>, upd: int, evicted: int, k: int) -> Seq<i64>
    decreases k,
{
    if k <= 0 {
        Seq::empty()
    } else {
        taken(path, val, upd, evicted, k - 1) + taken_run(
            path[k - 1],
            val.subrange(span(path, k - 1), span(path, k)),
            span(path, k - 1),
            upd,
            evicted,
        )
    }
}

/// Where the last token without a window slot ends once an insert has come
/// past the first `k` nodes of a path; 0 if all of them have theirs.
pub open spec fn lost(path: Seq<SWANodeState>, upd: int, evicted: int, k: int) -> int
    decreases k,
{
    if k <= 0 {
        0
    } else if path[k - 1].tombstone && (upd >= span(path, k) || evicted >= span(path, k)) {
        span(path, k)
    } else if path[k - 1].tombstone && evicted > span(path, k - 1) {
        evicted
    } else {
        lost(path, upd, evicted, k - 1)
    }
}

/// The window slots that an insert brings begin inside a node that lost its
/// own: the node is cut there.
spec fn straddles(n: SWANodeState, at: int, upd: int, evicted: int) -> bool {
    let end = at + n.value->0.len();
    n.tombstone && upd < end && at < evicted < end
}

/// No node of a path is cut like that.
spec fn clean(path: Seq<SWANodeState>, upd: int, evicted: int) -> bool {
    forall|j: int| 0 <= j < path.len() ==> !straddles(#[trigger] path[j], span(path, j), upd, evicted)
}

/// `ids[j]` is live, and its run as long as its edge.
spec fn in_place(st: SWAState, ids: Seq<NodeId>, j: int) -> bool {
    &&& st.live(ids[j])
    &&& st.run(ids[j]).len() == st.shape.units(ids[j] as int)
    &&& st.shape.units(ids[j] as int) >= 1
}

/// `ids[j]` is what an insert of `val` makes of the node `path[j]`.
spec fn fills(path: Seq<SWANodeState>, t: SWAState, ids: Seq<NodeId>, val: Seq<i64>, upd: int, evicted: int, j: int) -> bool {
    let n = path[j];
    let m = t.nodes[ids[j] as int];
    let end = span(path, j + 1);
    &&& m.tombstone == (n.tombstone && (upd >= end || evicted >= end))
    &&& m.value == Some(
        taken_run(n, val.subrange(span(path, j), end), span(path, j), upd, evicted),
    )
}

/// A path holds the tokens on its edges.
proof fn lemma_span(st: SWAState, ids: Seq<NodeId>, k: int)
    requires
        0 <= k <= ids.len(),
        forall|j: int| 0 <= j < ids.len() ==> #[trigger] in_place(st, ids, j),
    ensures
        span(trail(st, ids), k) == chains::tokens(st.shape, ids, k),
    decreases k,
{
    if k > 0 {
        lemma_span(st, ids, k - 1);
        assert(in_place(st, ids, k - 1));
    }
}

/// Places on a path are in order.
proof fn lemma_span_le(path: Seq<SWANodeState>, i: int, j: int)
    requires
        0 <= i <= j,
    ensures
        0 <= span(path, i) <= span(path, j),
    decreases j,
{
    if i < j {
        lemma_span_le(path, i, j - 1);
    } else if i > 0 {
        lemma_span_le(path, i - 1, i - 1);
    }
}

/// One node met: nothing else changes.
proof fn lemma_absorb(st: SWAState, v: NodeId, total: int, val: Seq<i64>, upd: int, evicted: int, out: Freed)
    requires
        st.live(v),
        0 <= total,
        0 < st.run(v).len() <= val.len(),
        !straddles(st.nodes[v as int], total, upd, evicted),
    ensures
        ({
            let (t, o) = st.absorb(v, total, val, upd, evicted, out);
            let n = st.nodes[v as int];
            let len = st.run(v).len() as int;
            &&& t.shape == st.shape
            &&& t.names == st.names
            &&& t.is_eagle == st.is_eagle
            &&& t.disable == st.disable
            &&& t.window == st.window
            &&& t.nodes.len() == st.nodes.len()
            &&& t.nodes[v as int].tombstone == (n.tombstone && (upd >= total + len || evicted >= total + len))
            &&& t.nodes[v as int].value == Some(taken_run(n, val.take(len), total, upd, evicted))
            &&& forall|i: int| 0 <= i < st.nodes.len() && i != v ==> (#[trigger] t.nodes[i]) == st.nodes[i]
        }),
{
    let run = val.take(st.run(v).len() as int);
    assert(st.run(v).take(0) + run.skip(0) =~= run);
}

/// What an insert leaves in the nodes it comes past.
proof fn lemma_met(st: SWAState, chain: Seq<NodeId>, k: nat, val: Seq<i64>, upd: int, evicted: int)
    requires
        k <= chain.len(),
        chain.no_duplicates(),
        forall|j: int| 0 <= j < chain.len() ==> #[trigger] in_place(st, chain, j),
        clean(trail(st, chain), upd, evicted),
        span(trail(st, chain), chain.len() as int) <= val.len(),
    ensures
        ({
            let (t, out, total) = st.met(chain, k, val, upd, evicted);
            let path = trail(st, chain);
            &&& t.shape == st.shape
            &&& t.names == st.names
            &&& t.is_eagle == st.is_eagle
            &&& t.disable == st.disable
            &&& t.window == st.window
            &&& t.nodes.len() == st.nodes.len()
            &&& total == span(path, k as int)
            &&& forall|j: int| 0 <= j < k ==> #[trigger] fills(path, t, chain, val, upd, evicted, j)
            &&& forall|i: int|
                0 <= i < st.nodes.len() && !chain.take(k as int).contains(i as NodeId) ==> (#[trigger] t.nodes[i])
                    == st.nodes[i]
        }),
    decreases k,
{
    let path = trail(st, chain);
    if k > 0 {
        lemma_met(st, chain, (k - 1) as nat, val, upd, evicted);
        let (p, out, total) = st.met(chain, (k - 1) as nat, val, upd, evicted);
        let (t, out2, total2) = st.met(chain, k, val, upd, evicted);
        let x = chain[k - 1];
        let front = chain.take(k - 1);
        let all = chain.take(k as int);
        chains::lemma_not_before(chain, k - 1);
        assert(in_place(st, chain, k - 1));
        assert(path[k - 1] == st.nodes[x as int]);
        lemma_span_le(path, k as int, chain.len() as int);
        lemma_span_le(path, k - 1, k as int);
        assert(p.nodes[x as int] == st.nodes[x as int]);
        let len = st.run(x).len() as int;
        lemma_absorb(p.passed(x), x, total, val.skip(total), upd, evicted, out);
        assert(val.skip(total).take(len) =~= val.subrange(total, total + len));
        assert(all[k - 1] == x);
        assert forall|i: int| 0 <= i < st.nodes.len() && !all.contains(i as NodeId) implies (
        #[trigger] t.nodes[i]) == st.nodes[i] by {
            assert(all.contains(x));
            if front.contains(i as NodeId) {
                let j = front.index_of(i as NodeId);
                assert(all[j] == i as NodeId);
            }
        }
        assert forall|j: int| 0 <= j < k implies #[trigger] fills(path, t, chain, val, upd, evicted, j) by {
            if j < k - 1 {
                assert(fills(path, p, chain, val, upd, evicted, j));
                assert(chain[j] != chain[k - 1]);
                assert(in_place(st, chain, j));
            }
        }
    } else {
        assert(chain.take(0) =~= Seq::<NodeId>::empty());
    }
}

/// Every run of a path has a token.
spec fn solid(path: Seq<SWANodeState>) -> bool {
    forall|j: int| 0 <= j < path.len() ==> (#[trigger] path[j]).value is Some && path[j].value->0.len() >= 1
}

/// Nodes that an insert has come past, one after the other.
proof fn lemma_filled(
    path: Seq<SWANodeState>,
    t: SWAState,
    ids: Seq<NodeId>,
    val: Seq<i64>,
    upd: int,
    evicted: int,
    k: int,
)
    requires
        0 <= k <= ids.len(),
        path.len() == ids.len(),
        solid(path),
        clean(path, upd, evicted),
        span(path, ids.len() as int) <= val.len(),
        forall|j: int| 0 <= j < ids.len() ==> #[trigger] fills(path, t, ids, val, upd, evicted, j),
    ensures
        t.gathered(ids.take(k)) == taken(path, val, upd, evicted, k),
        taken(path, val, upd, evicted, k).len() == span(path, k),
        span(trail(t, ids), k) == span(path, k),
        gap_at(trail(t, ids), k) == lost(path, upd, evicted, k),
    decreases k,
{
    if k > 0 {
        lemma_filled(path, t, ids, val, upd, evicted, k - 1);
        assert(ids.take(k).drop_last() =~= ids.take(k - 1));
        assert(ids.take(k).last() == ids[k - 1]);
        assert(fills(path, t, ids, val, upd, evicted, k - 1));
        assert(!straddles(path[k - 1], span(path, k - 1), upd, evicted));
        lemma_span_le(path, k - 1, k);
        lemma_span_le(path, k, ids.len() as int);
        assert(trail(t, ids)[k - 1] == t.nodes[ids[k - 1] as int]);
    } else {
        assert(ids.take(0) =~= Seq::<NodeId>::empty());
    }
}

/// Where the last tombstone among the first `k` nodes of a path ends.
spec fn gap_at(path: Seq<SWANodeState>, k: int) -> int
    decreases k,
{
    if k <= 0 {
        0
    } else if path[k - 1].tombstone {
        span(path, k)
    } else {
        gap_at(path, k - 1)
    }
}

/// A match scans a path for its last tombstone.
proof fn lemma_scan(st: SWAState, ids: Seq<NodeId>, k: nat)
    requires
        k <= ids.len(),
        solid(trail(st, ids)),
    ensures
        ({
            let s = st.scan(ids, k);
            let path = trail(st, ids);
            let gap = gap_at(path, k as int);
            &&& 0 <= gap <= span(path, k as int)
            &&& gap == 0 ==> s.since is None
            &&& gap > 0 ==> s.since == Some((span(path, k as int) - gap) as nat) && s.len < k
        }),
    decreases k,
{
    let path = trail(st, ids);
    if k > 0 {
        lemma_scan(st, ids, (k - 1) as nat);
        assert(path[k - 1] == st.nodes[ids[k - 1] as int]);
        lemma_span_le(path, k - 1, k as int);
    }
}

/// What the first nodes of a path hold is what they span.
proof fn lemma_gathered_span(st: SWAState, ids: Seq<NodeId>, k: int)
    requires
        0 <= k <= ids.len(),
    ensures
        st.gathered(ids.take(k)).len() == span(trail(st, ids), k),
    decreases k,
{
    if k > 0 {
        lemma_gathered_span(st, ids, k - 1);
        assert(ids.take(k).drop_last() =~= ids.take(k - 1));
        assert(ids.take(k).last() == ids[k - 1]);
    } else {
        assert(ids.take(0) =~= Seq::<NodeId>::empty());
    }
}

/// Equal runs are gathered alike.
proof fn lemma_gathered_same(a: SWAState, b: SWAState, ids: Seq<NodeId>)
    requires
        forall|k: int|
            0 <= k < ids.len() ==> b.nodes[(#[trigger] ids[k]) as int].value == a.nodes[ids[k] as int].value,
    ensures
        a.gathered(ids) == b.gathered(ids),
    decreases ids.len(),
{
    if ids.len() > 0 {
        let front = ids.drop_last();
        assert forall|k: int| 0 <= k < front.len() implies b.nodes[(#[trigger] front[k]) as int].value
            == a.nodes[front[k] as int].value by {
            assert(front[k] == ids[k]);
        }
        lemma_gathered_same(a, b, front);
        let last = ids[ids.len() - 1];
        assert(b.nodes[last as int].value == a.nodes[last as int].value);
    }
}

/// A node that a key passes is live.
proof fn lemma_walk_in_place(st: SWAState, key: RadixKey, j: int)
    requires
        st.wf(),
        0 <= j < st.frame().walk(key).chain.len(),
    ensures
        in_place(st, st.frame().walk(key).chain, j),
{
    let chain = st.frame().walk(key).chain;
    query::lemma_query(st.frame(), key);
    let c = chain[j];
    assert(st.shape.is_child(if j == 0 { ROOT } else { chain[j - 1] }, c));
    assert(st.node_ok(c as int));
    swa_model::lemma_units(st, c as int);
}

/// The nodes that a match comes past, and their tokens.
proof fn lemma_visited(st: SWAState, key: RadixKey)
    requires
        st.wf(),
        st.nodes.len() < NodeId::MAX,
    ensures
        ({
            let f = st.frame();
            let w = f.walk(key);
            let (a, ids) = st.after_walk(key);
            let n = w.chain.len() as int;
            &&& a.nodes.len() == (if w.stop is Some {
                st.nodes.len() + 1
            } else {
                st.nodes.len()
            })
            &&& a.shape == (match w.stop {
                Some((c, m)) => st.shape.split(c, m as int),
                None => st.shape,
            })
            &&& ids == (match w.stop {
                Some((c, m)) => w.chain.push(st.nodes.len() as NodeId),
                None => w.chain,
            })
            &&& forall|j: int| 0 <= j < ids.len() ==> #[trigger] in_place(a, ids, j)
            &&& forall|j: int| 0 <= j < n ==> #[trigger] in_place(st, w.chain, j)
            &&& forall|j: int| 0 <= j < n ==> a.nodes[(#[trigger] w.chain[j]) as int] == st.nodes[w.chain[j] as int]
            &&& forall|j: int|
                0 <= j <= n ==> #[trigger] chains::tokens(a.shape, ids, j) == chains::tokens(st.shape, w.chain, j)
            &&& chains::tokens(a.shape, ids, ids.len() as int) == f.prefix_len(key)
            &&& w.stop matches Some((c, m)) ==> {
                &&& c < st.nodes.len()
                &&& !w.chain.contains(c)
                &&& a.run(st.nodes.len() as NodeId).len() == m as int / st.shape.unit as int
            }
        }),
{
    let f = st.frame();
    let w = f.walk(key);
    let n = w.chain.len() as int;
    let (a, ids) = st.after_walk(key);
    walk_laws::lemma_cut_tokens(f, key);
    assert forall|j: int| 0 <= j < n implies #[trigger] in_place(st, w.chain, j) by {
        lemma_walk_in_place(st, key, j);
    }
    match w.stop {
        None => {
            assert forall|j: int| 0 <= j < ids.len() implies #[trigger] in_place(a, ids, j) by {
                assert(in_place(st, w.chain, j));
            }
        },
        Some((c, m)) => {
            assert(st.shape.is_child(topo::end_of(w.chain), c) && !w.chain.contains(c) && 0 < m
                < st.shape.nodes[c as int].key.len() && st.shape.aligned(m as int)) by {
                query::lemma_query(f, key);
            }
            let g = st.nodes.len() as NodeId;
            let u = m as int / st.shape.unit as int;
            assert(st.node_ok(c as int));
            assert(st.shape.hangs(c as int));
            topo::lemma_chunk(st.shape);
            vstd::arithmetic::div_mod::lemma_small_mod(0, st.shape.chunk());
            topo::lemma_aligned(st.shape, st.shape.nodes[c as int].key.len() as int, m as int);
            topo::lemma_aligned(st.shape, m as int, 0);
            tree_model::lemma_halves(
                st.shape.nodes[c as int].key.len() as int,
                m as int,
                st.shape.unit as int,
            );
            assert(a.shape.units(g as int) == u);
            assert forall|j: int| 0 <= j < n implies ids[j] == (#[trigger] w.chain[j]) && a.shape.units(
                w.chain[j] as int,
            ) == st.shape.units(w.chain[j] as int) && a.nodes[w.chain[j] as int] == st.nodes[w.chain[j] as int] by {
                assert(in_place(st, w.chain, j));
                assert(w.chain.contains(w.chain[j]));
            }
            assert forall|j: int| 0 <= j <= n implies #[trigger] chains::tokens(a.shape, ids, j)
                == chains::tokens(st.shape, w.chain, j) by {
                chains::lemma_tokens_alike(st.shape, a.shape, w.chain, ids, j);
            }
            assert forall|j: int| 0 <= j < ids.len() implies #[trigger] in_place(a, ids, j) by {
                if j < n {
                    assert(in_place(st, w.chain, j));
                    assert(ids[j] == w.chain[j]);
                } else {
                    assert(ids[j] == g);
                }
            }
        },
    }
}

/// What the walk of an insert leaves in the nodes it comes past.
#[verifier::spinoff_prover]
#[verifier::rlimit(30)]
proof fn lemma_insert_walk(st: SWAState, key: RadixKey, val: Seq<i64>, upd: int, evicted: int)
    requires
        st.wf(),
        st.nodes.len() < NodeId::MAX,
        val.len() == st.frame().units(key),
        clean(trail(st.after_walk(key).0, st.after_walk(key).1), upd, evicted),
    ensures
        ({
            let (a, ids) = st.after_walk(key);
            let path = trail(a, ids);
            let (t, out, p) = st.after_insert_walk(key, val, upd, evicted);
            &&& t.shape == a.shape
            &&& t.names == st.frame().names_with(key)
            &&& t.is_eagle == st.is_eagle
            &&& t.disable == st.disable
            &&& t.window == st.window
            &&& t.nodes.len() == a.nodes.len()
            &&& p == topo::end_of(ids)
            &&& span(path, ids.len() as int) == st.frame().prefix_len(key)
            &&& solid(path)
            &&& forall|j: int| 0 <= j < ids.len() ==> #[trigger] fills(path, t, ids, val, upd, evicted, j)
        }),
{
    let f = st.frame();
    let w = f.walk(key);
    let chain = w.chain;
    let n = chain.len() as int;
    let (a, ids) = st.after_walk(key);
    let path = trail(a, ids);
    let (t, out, p) = st.after_insert_walk(key, val, upd, evicted);
    let base = SWAState { names: f.names_with(key), ..st };
    let road = trail(base, chain);
    lemma_visited(st, key);
    walk_laws::lemma_lengths(f, key);
    lemma_span(a, ids, ids.len() as int);
    assert(chain.no_duplicates()) by {
        query::lemma_query(f, key);
    }
    assert forall|j: int| 0 <= j < n implies #[trigger] in_place(base, chain, j) by {
        assert(in_place(st, chain, j));
    }
    assert(solid(path)) by {
        assert forall|j: int| 0 <= j < path.len() implies (#[trigger] path[j]).value is Some
            && path[j].value->0.len() >= 1 by {
            assert(in_place(a, ids, j));
        }
    }
    assert(forall|j: int| 0 <= j < n ==> #[trigger] path[j] == road[j]) by {
        assert forall|j: int| 0 <= j < n implies #[trigger] path[j] == road[j] by {
            assert(a.nodes[chain[j] as int] == st.nodes[chain[j] as int]);
            assert(ids[j] == chain[j]);
        }
    }
    lemma_spans_alike(path, road, n);
    assert(clean(road, upd, evicted)) by {
        assert forall|j: int| 0 <= j < road.len() implies !straddles(#[trigger] road[j], span(road, j), upd, evicted) by {
            lemma_spans_alike(path, road, j);
            assert(path[j] == road[j]);
        }
    }
    lemma_span_le(path, n, ids.len() as int);
    lemma_met(base, chain, chain.len(), val, upd, evicted);
    let (b, out_b, total) = base.met(chain, chain.len(), val, upd, evicted);
    assert forall|j: int| 0 <= j < n implies #[trigger] fills(path, b, ids, val, upd, evicted, j) by {
        assert(fills(road, b, chain, val, upd, evicted, j));
        lemma_spans_alike(path, road, j);
        lemma_spans_alike(path, road, j + 1);
        assert(path[j] == road[j]);
        assert(ids[j] == chain[j]);
    }
    if let Some((c, m)) = w.stop {
        let g = st.nodes.len() as NodeId;
        assert(chain.take(n) =~= chain);
        assert(b.nodes[c as int] == base.nodes[c as int]);
        let d = b.passed(c).cut(c, m as int);
        assert(ids[n] == g);
        assert(in_place(a, ids, n));
        assert(d.nodes[g as int] == a.nodes[g as int]);
        assert(path[n] == a.nodes[g as int]);
        let rest = val.skip(total);
        let len = d.run(g).len() as int;
        assert(d.live(g));
        assert(span(path, n + 1) == total + len);
        assert(!straddles(path[n], span(path, n), upd, evicted));
        lemma_absorb(d, g, total, rest, upd, evicted, out_b);
        assert(rest.take(len) =~= val.subrange(total, total + len));
        assert forall|j: int| 0 <= j < ids.len() implies #[trigger] fills(path, t, ids, val, upd, evicted, j) by {
            if j < n {
                assert(fills(path, b, ids, val, upd, evicted, j));
                assert(in_place(st, chain, j));
                assert(ids[j] == chain[j]);
                assert(chain.contains(chain[j]));
                assert(t.nodes[chain[j] as int] == b.nodes[chain[j] as int]);
            } else {
                assert(ids[j] == g);
            }
        }
    }
}

proof fn lemma_spans_alike(a: Seq<SWANodeState>, b: Seq<SWANodeState>, k: int)
    requires
        0 <= k <= a.len(),
        k <= b.len(),
        forall|j: int| 0 <= j < k ==> #[trigger] a[j] == b[j],
    ensures
        span(a, k) == span(b, k),
    decreases k,
{
    if k > 0 {
        lemma_spans_alike(a, b, k - 1);
        assert(a[k - 1] == b[k - 1]);
    }
}

/// The gap and the tokens of a path that goes on with `more`.
proof fn lemma_more(path: Seq<SWANodeState>, more: Seq<SWANodeState>, k: int)
    requires
        0 <= k <= path.len(),
    ensures
        span(path + more, k) == span(path, k),
        gap_at(path + more, k) == gap_at(path, k),
    decreases k,
{
    if k > 0 {
        lemma_more(path, more, k - 1);
        assert((path + more)[k - 1] == path[k - 1]);
    }
}

/// The frame once a key has been added whole along `chain`.
proof fn lemma_found(f: Frame, g: Frame, key: RadixKey, chain: Seq<NodeId>)
    requires
        f.wf(),
        f.fits(key),
        f.names.len() < u32::MAX,
        g.shape.page == f.shape.page,
        g.shape.unit == f.shape.unit,
        g.names == f.names_with(key),
        g.is_eagle == f.is_eagle,
        g.shape.walk(ROOT, f.ns_of(key), f.flat(key)) == (Walk { chain, stop: None, used: f.flat(key).len() }),
    ensures
        g.flat(key) == f.flat(key),
        g.names_with(key) == g.names,
        g.walk(key) == (Walk { chain, stop: None, used: f.flat(key).len() }),
{
    query::lemma_query(f, key);
    crate::ns::law_namespaces_are_stable(f.names, key.namespace(), key.namespace());
}

/// Whole units, counted in flattened elements.
pub(crate) proof fn lemma_units_aligned(s: Shape, e: int)
    requires
        s.page >= 1,
        s.unit == 1 || s.unit == 2,
        0 <= e,
        e % (s.page as int) == 0,
    ensures
        s.aligned(e * s.unit),
        (e * s.unit) / (s.unit as int) == e,
{
    let page = s.page as int;
    let unit = s.unit as int;
    let q = e / page;
    vstd::arithmetic::div_mod::lemma_fundamental_div_mod(e, page);
    assert(e * unit == q * (page * unit)) by (nonlinear_arith)
        requires
            e == page * q,
    ;
    vstd::arithmetic::div_mod::lemma_mod_multiples_basic(q, page * unit);
    vstd::arithmetic::div_mod::lemma_div_multiples_vanish(e, unit);
    assert(unit * e == e * unit) by (nonlinear_arith);
}

/// What a key that was inserted passes: its nodes, their runs, and where
/// the last token without a window slot ends.
spec fn inserted(
    st: SWAState,
    key: RadixKey,
    path: Seq<SWANodeState>,
    val: Seq<i64>,
    upd: int,
    evicted: int,
    t: SWAState,
    node: NodeId,
    seen: Seq<NodeId>,
) -> bool {
    let f = st.frame();
    let n = path.len() as int;
    let units = f.units(key);
    let prefix = f.prefix_len(key);
    &&& t.frame().flat(key) == f.flat(key)
    &&& t.frame().names_with(key) == t.names
    &&& t.frame().walk(key) == (Walk { chain: seen, stop: None, used: f.flat(key).len() })
    &&& !t.disable
    &&& t.window == st.window
    &&& node == topo::end_of(seen)
    &&& solid(trail(t, seen))
    &&& t.gathered(seen) == taken(path, val, upd, evicted, n) + val.skip(prefix)
    &&& span(trail(t, seen), seen.len() as int) == units
    &&& gap_at(trail(t, seen), seen.len() as int) == (if prefix < evicted < units {
        evicted
    } else {
        lost(path, upd, evicted, n)
    })
}

proof fn lemma_trail_push(t: SWAState, ids: Seq<NodeId>, g: NodeId)
    ensures
        trail(t, ids.push(g)) == trail(t, ids) + seq![t.nodes[g as int]],
        span(trail(t, ids.push(g)), ids.len() as int) == span(trail(t, ids), ids.len() as int),
        gap_at(trail(t, ids.push(g)), ids.len() as int) == gap_at(trail(t, ids), ids.len() as int),
        t.gathered(ids.push(g)) == t.gathered(ids) + t.run(g),
        solid(trail(t, ids)) && t.nodes[g as int].value is Some && t.run(g).len() >= 1 ==> solid(
            trail(t, ids.push(g)),
        ),
{
    let a = trail(t, ids);
    let b = trail(t, ids.push(g));
    assert(b =~= a + seq![t.nodes[g as int]]);
    lemma_more(a, seq![t.nodes[g as int]], ids.len() as int);
    assert(ids.push(g).drop_last() =~= ids);
    if solid(a) && t.nodes[g as int].value is Some && t.run(g).len() >= 1 {
        assert forall|j: int| 0 <= j < b.len() implies (#[trigger] b[j]).value is Some && b[j].value->0.len() >= 1 by {
            if j < a.len() {
                assert(b[j] == a[j]);
            }
        }
    }
}

/// What the walk of an insert has done by its end.
spec fn walked(
    st: SWAState,
    key: RadixKey,
    path: Seq<SWANodeState>,
    val: Seq<i64>,
    upd: int,
    evicted: int,
    b: SWAState,
    p: NodeId,
    ids: Seq<NodeId>,
) -> bool {
    let f = st.frame();
    let n = ids.len() as int;
    &&& path.len() == n
    &&& b.shape.wf()
    &&& b.shape.page == st.shape.page
    &&& b.shape.unit == st.shape.unit
    &&& b.shape.aligned(f.flat(key).len() as int)
    &&& b.shape.walk(ROOT, f.ns_of(key), f.flat(key)) == (Walk { chain: ids, stop: None, used: f.walk(key).used })
    &&& b.names == f.names_with(key)
    &&& b.is_eagle == st.is_eagle
    &&& !b.disable
    &&& b.window == st.window
    &&& b.nodes.len() == b.shape.nodes.len()
    &&& b.nodes.len() + 2 <= NodeId::MAX
    &&& p == topo::end_of(ids)
    &&& forall|j: int| 0 <= j < n ==> (#[trigger] ids[j]) < b.nodes.len()
    &&& solid(trail(b, ids))
    &&& b.gathered(ids) == taken(path, val, upd, evicted, n)
    &&& taken(path, val, upd, evicted, n).len() == f.prefix_len(key)
    &&& span(trail(b, ids), n) == f.prefix_len(key)
    &&& gap_at(trail(b, ids), n) == lost(path, upd, evicted, n)
}

proof fn lemma_walked(st: SWAState, key: RadixKey, val: Seq<i64>, upd: int, evicted: int)
    requires
        st.wf(),
        st.nodes.len() + (if st.frame().walk(key).stop is Some {
            3int
        } else {
            2
        }) <= NodeId::MAX,
        !st.disable,
        st.frame().fits(key),
        val.len() == st.frame().units(key),
        clean(trail(st.after_walk(key).0, st.after_walk(key).1), upd, evicted),
    ensures
        ({
            let (a, ids) = st.after_walk(key);
            let (b, out, p) = st.after_insert_walk(key, val, upd, evicted);
            walked(st, key, trail(a, ids), val, upd, evicted, b, p, ids)
        }),
{
    let f = st.frame();
    let w = f.walk(key);
    let flat = f.flat(key);
    let ns = f.ns_of(key);
    let (a, ids) = st.after_walk(key);
    let path = trail(a, ids);
    let n = ids.len() as int;
    let (b, out_b, p) = st.after_insert_walk(key, val, upd, evicted);
    walk_laws::lemma_lengths(f, key);
    lemma_visited(st, key);
    lemma_insert_walk(st, key, val, upd, evicted);
    lemma_filled(path, b, ids, val, upd, evicted, n);
    assert(ids.take(n) =~= ids);
    assert(b.shape.wf() && b.shape.walk(ROOT, ns, flat) == (Walk { chain: ids, stop: None, used: w.used })) by {
        query::lemma_query(f, key);
        if let Some((c, m)) = w.stop {
            topo::lemma_split_wf(st.shape, c, m as int);
            walk_laws::lemma_walk_split(st.shape, ROOT, ns, flat);
        }
    }
    assert(b.shape.aligned(flat.len() as int)) by {
        query::lemma_query(f, key);
    }
    assert forall|j: int| 0 <= j < ids.len() implies (#[trigger] ids[j]) < b.nodes.len() by {
        assert(in_place(a, ids, j));
    }
    lemma_solid_filled(path, b, ids, val, upd, evicted);
}

/// The rest of the key as one leaf.
proof fn lemma_leaf(
    st: SWAState,
    key: RadixKey,
    path: Seq<SWANodeState>,
    val: Seq<i64>,
    upd: int,
    evicted: int,
    b: SWAState,
    p: NodeId,
    ids: Seq<NodeId>,
)
    requires
        st.wf(),
        st.names.len() < u32::MAX,
        st.frame().fits(key),
        val.len() == st.frame().units(key),
        walked(st, key, path, val, upd, evicted, b, p, ids),
        st.frame().walk(key).used < st.frame().flat(key).len(),
        !(st.frame().prefix_len(key) < evicted < st.frame().units(key)),
    ensures
        ({
            let f = st.frame();
            let t = b.grown(
                p,
                f.ns_of(key),
                f.flat(key).skip(f.walk(key).used as int),
                val.skip(f.prefix_len(key)),
                false,
            );
            let q = b.nodes.len() as NodeId;
            inserted(st, key, path, val, upd, evicted, t, q, ids.push(q))
        }),
{
    let f = st.frame();
    let prefix = f.prefix_len(key);
    let t = b.grown(
        p,
        f.ns_of(key),
        f.flat(key).skip(f.walk(key).used as int),
        val.skip(prefix),
        false,
    );
    let q = b.nodes.len() as NodeId;
    let n = ids.len() as int;
    let seen = ids.push(q);
    walk_laws::lemma_lengths(f, key);
    walk_laws::lemma_walk_graft(b.shape, ROOT, f.ns_of(key), f.flat(key));
    lemma_found(f, t.frame(), key, seen);
    lemma_trail_same(b, t, ids);
    lemma_trail_push(t, ids, q);
    let last = trail(t, seen);
    assert(last[n] == t.nodes[q as int]);
    assert(span(last, n + 1) == span(last, n) + t.run(q).len());
    assert(gap_at(last, n + 1) == gap_at(last, n));
}

/// The rest of the key as two leaves, the first without window slots.
proof fn lemma_two_leaves(
    st: SWAState,
    key: RadixKey,
    path: Seq<SWANodeState>,
    val: Seq<i64>,
    upd: int,
    evicted: int,
    b: SWAState,
    p: NodeId,
    ids: Seq<NodeId>,
)
    requires
        st.wf(),
        st.names.len() < u32::MAX,
        st.frame().fits(key),
        val.len() == st.frame().units(key),
        walked(st, key, path, val, upd, evicted, b, p, ids),
        st.frame().prefix_len(key) < evicted < st.frame().units(key),
        evicted % (st.shape.page as int) == 0,
    ensures
        ({
            let f = st.frame();
            let flat = f.flat(key);
            let ns = f.ns_of(key);
            let mid = evicted * st.shape.unit;
            let q = b.nodes.len() as NodeId;
            let t = b.grown(
                p,
                ns,
                flat.subrange(f.walk(key).used as int, mid),
                val.subrange(f.prefix_len(key), evicted),
                true,
            ).grown(q, ns, flat.skip(mid), val.skip(evicted), false);
            inserted(st, key, path, val, upd, evicted, t, (q + 1) as NodeId, ids.push(q).push((q + 1) as NodeId))
        }),
{
    let f = st.frame();
    let flat = f.flat(key);
    let ns = f.ns_of(key);
    let prefix = f.prefix_len(key);
    let mid = evicted * st.shape.unit;
    let q = b.nodes.len() as NodeId;
    let n = ids.len() as int;
    let c = b.grown(p, ns, flat.subrange(f.walk(key).used as int, mid), val.subrange(prefix, evicted), true);
    let t = c.grown(q, ns, flat.skip(mid), val.skip(evicted), false);
    let one = ids.push(q);
    let r = (q + 1) as NodeId;
    let seen = one.push(r);
    walk_laws::lemma_lengths(f, key);
    lemma_middle(f, key, evicted);
    lemma_units_aligned(st.shape, evicted);
    walk_laws::lemma_walk_graft_part(b.shape, ROOT, ns, flat, mid);
    assert(c.shape.walk(ROOT, ns, flat) == (Walk { chain: one, stop: None, used: mid as nat }));
    assert(one.last() == q);
    walk_laws::lemma_walk_graft(c.shape, ROOT, ns, flat);
    lemma_found(f, t.frame(), key, seen);
    lemma_trail_same(b, t, ids);
    lemma_trail_push(t, ids, q);
    lemma_trail_push(t, one, r);
    assert(t.gathered(seen) =~= taken(path, val, upd, evicted, n) + val.skip(prefix)) by {
        assert(val.subrange(prefix, evicted) + val.skip(evicted) =~= val.skip(prefix));
    }
    let last = trail(t, seen);
    let first = trail(t, one);
    assert(first[n] == t.nodes[q as int]);
    assert(last[n + 1] == t.nodes[r as int]);
    assert(span(first, n + 1) == span(first, n) + t.run(q).len());
    assert(gap_at(first, n + 1) == span(first, n + 1));
    assert(span(last, n + 2) == span(last, n + 1) + t.run(r).len());
    assert(gap_at(last, n + 2) == gap_at(last, n + 1));
}

/// The nodes of an inserted key and what they hold, where no node is cut
/// for its window slots.
proof fn lemma_inserted(st: SWAState, key: RadixKey, value: Seq<i64>, upd: int, evicted: int)
    requires
        st.wf(),
        st.nodes.len() + (if st.frame().walk(key).stop is Some {
            3int
        } else {
            2
        }) <= NodeId::MAX,
        st.names.len() < u32::MAX,
        !st.disable,
        st.frame().fits(key),
        st.frame().flat(key).len() > 0,
        value.len() >= st.frame().units(key),
        0 <= evicted,
        evicted % (st.shape.page as int) == 0,
        st.frame().walk(key).used < st.frame().flat(key).len() ==> evicted != st.frame().units(key),
        clean(trail(st.after_walk(key).0, st.after_walk(key).1), upd, evicted),
    ensures
        ({
            let (a, ids) = st.after_walk(key);
            let (t, out, node) = st.after_insert(key, value, upd, evicted);
            let val = value.take(st.frame().units(key));
            exists|seen: Seq<NodeId>| #[trigger]
                inserted(st, key, trail(a, ids), val, upd, evicted, t, node, seen)
        }),
{
    let f = st.frame();
    let w = f.walk(key);
    let flat = f.flat(key);
    let units = f.units(key);
    let prefix = f.prefix_len(key);
    let val = value.take(units);
    let (t, out, node) = st.after_insert(key, value, upd, evicted);
    let (a, ids) = st.after_walk(key);
    let path = trail(a, ids);
    let n = ids.len() as int;
    let (b, out_b, p) = st.after_insert_walk(key, val, upd, evicted);
    walk_laws::lemma_lengths(f, key);
    lemma_walked(st, key, val, upd, evicted);
    if w.used == flat.len() {
        lemma_found(f, t.frame(), key, ids);
        assert(t.gathered(ids) =~= taken(path, val, upd, evicted, n) + val.skip(prefix));
        assert(inserted(st, key, path, val, upd, evicted, t, node, ids));
    } else if prefix < evicted < units {
        let q = b.nodes.len() as NodeId;
        lemma_two_leaves(st, key, path, val, upd, evicted, b, p, ids);
        assert(inserted(st, key, path, val, upd, evicted, t, node, ids.push(q).push((q + 1) as NodeId)));
    } else {
        let q = b.nodes.len() as NodeId;
        lemma_leaf(st, key, path, val, upd, evicted, b, p, ids);
        assert(inserted(st, key, path, val, upd, evicted, t, node, ids.push(q)));
    }
}

/// A place between the matched part and the end, in flattened elements.
proof fn lemma_middle(f: Frame, key: RadixKey, e: int)
    requires
        f.wf(),
        f.prefix_len(key) < e < f.units(key),
    ensures
        f.walk(key).used < e * f.shape.unit < f.flat(key).len(),
{
    query::lemma_query(f, key);
    let unit = f.shape.unit as int;
    vstd::arithmetic::div_mod::lemma_fundamental_div_mod(f.walk(key).used as int, unit);
    vstd::arithmetic::div_mod::lemma_fundamental_div_mod(f.flat(key).len() as int, unit);
}

proof fn lemma_solid_filled(
    path: Seq<SWANodeState>,
    t: SWAState,
    ids: Seq<NodeId>,
    val: Seq<i64>,
    upd: int,
    evicted: int,
)
    requires
        path.len() == ids.len(),
        solid(path),
        clean(path, upd, evicted),
        span(path, ids.len() as int) <= val.len(),
        forall|j: int| 0 <= j < ids.len() ==> #[trigger] fills(path, t, ids, val, upd, evicted, j),
    ensures
        solid(trail(t, ids)),
{
    let last = trail(t, ids);
    assert forall|j: int| 0 <= j < last.len() implies (#[trigger] last[j]).value is Some && last[j].value->0.len()
        >= 1 by {
        assert(fills(path, t, ids, val, upd, evicted, j));
        assert(!straddles(path[j], span(path, j), upd, evicted));
        lemma_span_le(path, j, j + 1);
        lemma_span_le(path, j + 1, ids.len() as int);
    }
}

proof fn lemma_trail_same(a: SWAState, b: SWAState, ids: Seq<NodeId>)
    requires
        a.nodes.len() <= b.nodes.len(),
        forall|i: int| 0 <= i < a.nodes.len() ==> (#[trigger] b.nodes[i]) == a.nodes[i],
        forall|j: int| 0 <= j < ids.len() ==> (#[trigger] ids[j]) < a.nodes.len(),
    ensures
        trail(b, ids) == trail(a, ids),
        b.gathered(ids) == a.gathered(ids),
{
    assert forall|k: int| 0 <= k < ids.len() implies b.nodes[(#[trigger] ids[k]) as int] == a.nodes[ids[k] as int] by {}
    assert(trail(b, ids) =~= trail(a, ids));
    lemma_gathered_same(a, b, ids);
}

/// What a match makes of an inserted key.
proof fn lemma_read_back(
    st: SWAState,
    key: RadixKey,
    path: Seq<SWANodeState>,
    val: Seq<i64>,
    upd: int,
    evicted: int,
    t: SWAState,
    node: NodeId,
    seen: Seq<NodeId>,
)
    requires
        inserted(st, key, path, val, upd, evicted, t, node, seen),
        st.frame().flat(key).len() > 0,
    ensures
        ({
            let f = st.frame();
            let (u, indices, end) = t.after_match(key);
            let gap = if f.prefix_len(key) < evicted < f.units(key) {
                evicted
            } else {
                lost(path, upd, evicted, path.len() as int)
            };
            if gap == 0 || f.units(key) - gap >= st.window {
                &&& indices == taken(path, val, upd, evicted, path.len() as int) + val.skip(f.prefix_len(key))
                &&& indices.len() == f.units(key)
                &&& end == node
            } else {
                indices.len() < f.units(key)
            }
        }),
{
    let n = seen.len();
    let c = SWAState { names: t.frame().names_with(key), ..t };
    assert(c == t);
    lemma_scan(t, seen, n);
    lemma_gathered_span(t, seen, n as int);
    assert(seen.take(n as int) =~= seen);
    let s = t.scan(seen, n);
    let last = trail(t, seen);
    if s.since is Some {
        lemma_gathered_span(t, seen, s.len as int);
        lemma_span_le(last, s.len as int, n - 1);
        assert(last[n - 1].value->0.len() >= 1);
    }
}

/// Two states that differ in their recency orders alone.
spec fn alike(a: SWAState, b: SWAState) -> bool {
    &&& a.shape == b.shape
    &&& a.nodes == b.nodes
    &&& a.names == b.names
    &&& a.is_eagle == b.is_eagle
    &&& a.disable == b.disable
    &&& a.window == b.window
}

proof fn lemma_absorb_alike(
    a: SWAState,
    b: SWAState,
    v: NodeId,
    total: int,
    val: Seq<i64>,
    upd: int,
    evicted: int,
    o1: Freed,
    o2: Freed,
)
    requires
        alike(a, b),
    ensures
        alike(a.absorb(v, total, val, upd, evicted, o1).0, b.absorb(v, total, val, upd, evicted, o2).0),
{
}

/// Nodes that end before the window slots begin are left alone.
proof fn lemma_met_before(st: SWAState, chain: Seq<NodeId>, k: nat, val: Seq<i64>, upd: int, evicted: int)
    requires
        k <= chain.len(),
        span(trail(st, chain), k as int) <= evicted,
    ensures
        ({
            let (t, out, total) = st.met(chain, k, val, upd, evicted);
            &&& alike(t, st)
            &&& total == span(trail(st, chain), k as int)
        }),
    decreases k,
{
    let path = trail(st, chain);
    if k > 0 {
        lemma_span_le(path, k - 1, k as int);
        lemma_met_before(st, chain, (k - 1) as nat, val, upd, evicted);
        assert(path[k - 1] == st.nodes[chain[k - 1] as int]);
    }
}

/// A node met where the window slots begin inside it, and its tail met once
/// the node is cut there.
proof fn lemma_absorb_cut(
    x: SWAState,
    y: SWAState,
    v: NodeId,
    at: int,
    val: Seq<i64>,
    upd: int,
    evicted: int,
    o1: Freed,
    o2: Freed,
)
    requires
        x.shape.unit == 1 || x.shape.unit == 2,
        x.live(v),
        0 <= at,
        straddles(x.nodes[v as int], at, upd, evicted),
        at + x.run(v).len() <= val.len(),
        alike(y, x.cut(v, (evicted - at) * x.shape.unit)),
    ensures
        alike(
            x.absorb(v, at, val.skip(at), upd, evicted, o1).0,
            y.absorb(v, evicted, val.skip(evicted), upd, evicted, o2).0,
        ),
        y.run(v).len() == at + x.run(v).len() - evicted,
{
    let unit = x.shape.unit as int;
    let s = evicted - at;
    let len = x.run(v).len() as int;
    vstd::arithmetic::div_mod::lemma_div_multiples_vanish(s, unit);
    assert(unit * s == s * unit) by (nonlinear_arith);
    assert(y.run(v) == x.run(v).skip(s));
    assert(val.skip(at).subrange(s, len) =~= val.skip(evicted).take(len - s));
}

/// `fine` is `path` with the node `path[j]` in two parts, the first of them
/// up to `evicted`.
spec fn parted(path: Seq<SWANodeState>, fine: Seq<SWANodeState>, j: int, evicted: int) -> bool {
    let own = path[j].value->0;
    let c = evicted - span(path, j);
    &&& 0 <= j < path.len()
    &&& fine.len() == path.len() + 1
    &&& forall|i: int| 0 <= i < j ==> #[trigger] fine[i] == path[i]
    &&& forall|i: int| j + 1 < i < fine.len() ==> #[trigger] fine[i] == path[i - 1]
    &&& fine[j].tombstone
    &&& fine[j].value == Some(own.take(c))
    &&& fine[j + 1].tombstone
    &&& fine[j + 1].full_lock == path[j].full_lock
    &&& fine[j + 1].value == Some(own.skip(c))
}

/// A node in two parts holds what it held, before and after an insert.
proof fn lemma_parted(
    path: Seq<SWANodeState>,
    fine: Seq<SWANodeState>,
    j: int,
    val: Seq<i64>,
    upd: int,
    evicted: int,
    k: int,
)
    requires
        parted(path, fine, j, evicted),
        straddles(path[j], span(path, j), upd, evicted),
        span(path, path.len() as int) <= val.len(),
        0 <= k <= path.len(),
    ensures
        k <= j ==> span(fine, k) == span(path, k) && taken(fine, val, upd, evicted, k) == taken(
            path,
            val,
            upd,
            evicted,
            k,
        ),
        k > j ==> {
            &&& span(fine, j + 1) == evicted
            &&& span(fine, k + 1) == span(path, k)
            &&& taken(fine, val, upd, evicted, k + 1) == taken(path, val, upd, evicted, k)
            &&& lost(fine, upd, evicted, k + 1) == lost(path, upd, evicted, k)
        },
    decreases k,
{
    if k > 0 {
        lemma_parted(path, fine, j, val, upd, evicted, k - 1);
        if k <= j {
            assert(fine[k - 1] == path[k - 1]);
        } else if k == j + 1 {
            let at = span(path, j);
            let own = path[j].value->0;
            let c = evicted - at;
            let end = span(path, k);
            lemma_span_le(path, 0, j);
            lemma_span_le(path, k, path.len() as int);
            assert(span(fine, j + 1) == evicted);
            assert(span(fine, j + 2) == end);
            let a = taken_run(fine[j], val.subrange(at, evicted), at, upd, evicted);
            let b = taken_run(fine[j + 1], val.subrange(evicted, end), evicted, upd, evicted);
            let whole = taken_run(path[j], val.subrange(at, end), at, upd, evicted);
            assert(a == own.take(c));
            assert(own.skip(c).take(0) + val.subrange(evicted, end).skip(0) =~= val.subrange(evicted, end));
            assert(val.subrange(at, end).skip(c) =~= val.subrange(evicted, end));
            assert(own.take(c) + own.skip(c) =~= own);
            assert(a + b =~= whole);
            let before = taken(path, val, upd, evicted, j);
            assert(before + a + b =~= before + whole);
            assert(taken(fine, val, upd, evicted, j + 1) == before + a);
            assert(taken(fine, val, upd, evicted, j + 2) == before + a + b);
            assert(lost(fine, upd, evicted, j + 1) == evicted);
        } else {
            assert(fine[k] == path[k - 1]);
        }
    }
}

/// Once it is in two parts no other node is cut.
proof fn lemma_parted_clean(path: Seq<SWANodeState>, fine: Seq<SWANodeState>, j: int, val: Seq<i64>, upd: int, evicted: int)
    requires
        parted(path, fine, j, evicted),
        straddles(path[j], span(path, j), upd, evicted),
        span(path, path.len() as int) <= val.len(),
    ensures
        clean(fine, upd, evicted),
{
    assert forall|i: int| 0 <= i < fine.len() implies !straddles(#[trigger] fine[i], span(fine, i), upd, evicted) by {
        lemma_parted(path, fine, j, val, upd, evicted, j);
        lemma_parted(path, fine, j, val, upd, evicted, j + 1);
        if i < j {
            lemma_parted(path, fine, j, val, upd, evicted, i);
            lemma_span_le(path, i + 1, j);
            assert(fine[i] == path[i]);
        } else if i > j + 1 {
            lemma_parted(path, fine, j, val, upd, evicted, i - 1);
            lemma_span_le(path, j + 1, i - 1);
        }
    }
}

/// The tokens before a node are whole pages.
proof fn lemma_at_aligned(st: SWAState, ids: Seq<NodeId>, k: int)
    requires
        st.wf(),
        0 <= k <= ids.len(),
        forall|j: int| 0 <= j < ids.len() ==> #[trigger] in_place(st, ids, j),
    ensures
        st.shape.aligned(span(trail(st, ids), k) * st.shape.unit),
        0 <= span(trail(st, ids), k),
    decreases k,
{
    let s = st.shape;
    let path = trail(st, ids);
    let unit = s.unit as int;
    lemma_span_le(path, 0, k);
    if k > 0 {
        let x = ids[k - 1];
        lemma_at_aligned(st, ids, k - 1);
        assert(in_place(st, ids, k - 1));
        assert(path[k - 1] == st.nodes[x as int]);
        assert(s.hangs(x as int));
        topo::lemma_chunk(s);
        chains::lemma_units(s, x as int);
        let a = span(path, k - 1);
        let u = s.units(x as int);
        assert((a + u) * unit == a * unit + u * unit) by (nonlinear_arith);
        assert(a * unit >= 0) by (nonlinear_arith)
            requires
                a >= 0,
                unit >= 1,
        ;
        assert(u * unit == s.nodes[x as int].key.len());
        if a * unit >= u * unit {
            topo::lemma_aligned(s, a * unit, u * unit);
        } else {
            topo::lemma_aligned(s, u * unit, a * unit);
        }
    } else {
        topo::lemma_chunk(s);
        vstd::arithmetic::div_mod::lemma_small_mod(0, s.chunk());
        assert(0 * unit == 0);
    }
}

/// Where a node is cut for its window slots, in flattened elements.
proof fn lemma_cut_place(st: SWAState, ids: Seq<NodeId>, j: int, upd: int, evicted: int)
    requires
        st.wf(),
        0 <= j < ids.len(),
        forall|i: int| 0 <= i < ids.len() ==> #[trigger] in_place(st, ids, i),
        evicted % (st.shape.page as int) == 0,
        straddles(trail(st, ids)[j], span(trail(st, ids), j), upd, evicted),
    ensures
        ({
            let m = (evicted - span(trail(st, ids), j)) * st.shape.unit;
            &&& 0 < m < st.shape.nodes[ids[j] as int].key.len()
            &&& st.shape.aligned(m)
            &&& m / (st.shape.unit as int) == evicted - span(trail(st, ids), j)
        }),
{
    let s = st.shape;
    let unit = s.unit as int;
    let at = span(trail(st, ids), j);
    let c = evicted - at;
    let x = ids[j];
    lemma_at_aligned(st, ids, j);
    lemma_units_aligned(s, evicted);
    assert(in_place(st, ids, j));
    assert(s.hangs(x as int));
    chains::lemma_units(s, x as int);
    let u = s.units(x as int);
    assert(c * unit == evicted * unit - at * unit) by (nonlinear_arith)
        requires
            c == evicted - at,
    ;
    assert(0 <= at * unit <= evicted * unit && 0 < c * unit < u * unit) by (nonlinear_arith)
        requires
            0 <= at,
            0 < c < u,
            unit >= 1,
            c == evicted - at,
    ;
    topo::lemma_aligned(s, evicted * unit, at * unit);
    vstd::arithmetic::div_mod::lemma_div_multiples_vanish(c, unit);
    assert(unit * c == c * unit) by (nonlinear_arith);
}

/// A cut leaves the questions that a key asks of the tree alone.
proof fn lemma_same_query(a: SWAState, b: SWAState, key: RadixKey)
    requires
        b.shape.page == a.shape.page,
        b.shape.unit == a.shape.unit,
        b.names == a.names,
        b.is_eagle == a.is_eagle,
        b.frame().walk(key).used == a.frame().walk(key).used,
    ensures
        b.frame().flat(key) == a.frame().flat(key),
        b.frame().units(key) == a.frame().units(key),
        b.frame().fits(key) == a.frame().fits(key),
        b.frame().ns_of(key) == a.frame().ns_of(key),
        b.frame().names_with(key) == a.frame().names_with(key),
        b.frame().prefix_len(key) == a.frame().prefix_len(key),
{
}

/// The ends of two inserts whose walks came to the same.
proof fn lemma_ends_alike(a: SWAState, b: SWAState, key: RadixKey, value: Seq<i64>, upd: int, evicted: int)
    requires
        b.shape.page == a.shape.page,
        b.shape.unit == a.shape.unit,
        b.names == a.names,
        b.is_eagle == a.is_eagle,
        b.disable == a.disable,
        b.frame().walk(key).used == a.frame().walk(key).used,
        ({
            let val = value.take(a.frame().units(key));
            let (x, o, p) = a.after_insert_walk(key, val, upd, evicted);
            let (y, u, q) = b.after_insert_walk(key, val, upd, evicted);
            alike(x, y) && p == q
        }),
        !a.disable,
        a.frame().flat(key).len() > 0,
    ensures
        ({
            let (x, o, p) = a.after_insert(key, value, upd, evicted);
            let (y, u, q) = b.after_insert(key, value, upd, evicted);
            alike(x, y) && p == q
        }),
{
    lemma_same_query(a, b, key);
}

/// What is found along an inserted key does not depend on whether a node on
/// its way was in two parts before.
proof fn lemma_inserted_alike(
    a: SWAState,
    b: SWAState,
    key: RadixKey,
    path: Seq<SWANodeState>,
    fine: Seq<SWANodeState>,
    j: int,
    val: Seq<i64>,
    upd: int,
    evicted: int,
    t: SWAState,
    u: SWAState,
    node: NodeId,
    seen: Seq<NodeId>,
)
    requires
        inserted(b, key, fine, val, upd, evicted, u, node, seen),
        alike(t, u),
        b.shape.page == a.shape.page,
        b.shape.unit == a.shape.unit,
        b.names == a.names,
        b.is_eagle == a.is_eagle,
        b.window == a.window,
        b.frame().walk(key).used == a.frame().walk(key).used,
        parted(path, fine, j, evicted),
        straddles(path[j], span(path, j), upd, evicted),
        span(path, path.len() as int) <= val.len(),
    ensures
        inserted(a, key, path, val, upd, evicted, t, node, seen),
{
    lemma_same_query(a, b, key);
    lemma_parted(path, fine, j, val, upd, evicted, path.len() as int);
    assert(trail(t, seen) =~= trail(u, seen));
    assert forall|k: int| 0 <= k < seen.len() implies u.nodes[(#[trigger] seen[k]) as int].value
        == t.nodes[seen[k] as int].value by {}
    lemma_gathered_same(t, u, seen);
    assert(t.frame() == u.frame());
}

/// Where the walk stops inside a node whose front part the window slots
/// begin in: the tree with that part in two.
proof fn lemma_cut_front(st: SWAState, key: RadixKey, value: Seq<i64>, upd: int, evicted: int)
    requires
        st.wf(),
        st.nodes.len() + 4 <= NodeId::MAX,
        st.names.len() < u32::MAX,
        !st.disable,
        st.frame().fits(key),
        st.frame().flat(key).len() > 0,
        value.len() >= st.frame().units(key),
        0 <= evicted,
        evicted % (st.shape.page as int) == 0,
        st.frame().walk(key).used < st.frame().flat(key).len() ==> evicted != st.frame().units(key),
        st.frame().walk(key).stop is Some,
        ({
            let (a, ids) = st.after_walk(key);
            let n = ids.len() - 1;
            straddles(trail(a, ids)[n], span(trail(a, ids), n), upd, evicted)
        }),
    ensures
        ({
            let (a, ids) = st.after_walk(key);
            let (t, out, node) = st.after_insert(key, value, upd, evicted);
            let val = value.take(st.frame().units(key));
            exists|seen: Seq<NodeId>| #[trigger]
                inserted(st, key, trail(a, ids), val, upd, evicted, t, node, seen)
        }),
{
    let f = st.frame();
    let w = f.walk(key);
    let flat = f.flat(key);
    let ns = f.ns_of(key);
    let (c, m) = w.stop->0;
    let (a, ids) = st.after_walk(key);
    let path = trail(a, ids);
    let n = w.chain.len() as int;
    let g = st.nodes.len() as NodeId;
    let val = value.take(f.units(key));
    lemma_visited(st, key);
    walk_laws::lemma_lengths(f, key);
    assert(st.shape.is_child(topo::end_of(w.chain), c) && !w.chain.contains(c) && 0 < m
        < st.shape.nodes[c as int].key.len() && st.shape.aligned(m as int) && st.shape.aligned(flat.len() as int)) by {
        query::lemma_query(f, key);
    }
    assert(st.node_ok(c as int));
    swa_model::lemma_cut(st, c, m as int);
    let one = st.cut(c, m as int);
    assert(trail(one, ids) =~= path);
    assert forall|i: int| 0 <= i < ids.len() implies #[trigger] in_place(one, ids, i) by {
        assert(in_place(a, ids, i));
    }
    lemma_span(one, ids, ids.len() as int);
    assert(ids[n] == g);
    lemma_cut_place(one, ids, n, upd, evicted);
    let at = span(path, n);
    let place = (evicted - at) * st.shape.unit;
    assert(in_place(one, ids, n));
    swa_model::lemma_cut(one, g, place);
    let two = one.cut(g, place);
    walk_laws::lemma_walk_split(st.shape, ROOT, ns, flat);
    walk_laws::lemma_walk_cut(one.shape, ROOT, ns, flat, n, place);
    let h = (g + 1) as NodeId;
    let road = ids.insert(n, h);
    assert(two.frame().walk(key) == (Walk { chain: road, stop: None, used: w.used }));
    lemma_same_query(st, two, key);
    let (a2, ids2) = two.after_walk(key);
    let fine = trail(a2, ids2);
    assert(ids2 == road);
    assert(parted(path, fine, n, evicted)) by {
        assert forall|i: int| 0 <= i < n implies #[trigger] fine[i] == path[i] by {
            assert(road[i] == ids[i]);
            assert(in_place(a, ids, i));
            assert(ids[i] == w.chain[i]);
            assert(w.chain.contains(w.chain[i]));
            assert(in_place(st, w.chain, i));
        }
        assert(road[n] == h && road[n + 1] == g);
        assert(path[n] == one.nodes[g as int]);
    }
    lemma_parted_clean(path, fine, n, val, upd, evicted);
    lemma_inserted(two, key, value, upd, evicted);
    // The two inserts come to the same.
    let base = SWAState { names: f.names_with(key), ..st };
    let base2 = SWAState { names: f.names_with(key), ..two };
    let (x, ox, total) = base.met(w.chain, w.chain.len(), val, upd, evicted);
    assert(trail(base, w.chain) =~= path.take(n)) by {
        assert forall|i: int| 0 <= i < n implies #[trigger] trail(base, w.chain)[i] == path[i] by {
            assert(a.nodes[w.chain[i] as int] == st.nodes[w.chain[i] as int]);
            assert(ids[i] == w.chain[i]);
        }
    }
    lemma_spans_alike(path.take(n), path, n);
    lemma_met_before(base, w.chain, w.chain.len(), val, upd, evicted);
    let cutx = x.passed(c).cut(c, m as int);
    let (y, oy, total_y) = base2.met(road, (n + 1) as nat, val, upd, evicted);
    lemma_parted(path, fine, n, val, upd, evicted, n + 1);
    assert(trail(base2, road) =~= fine);
    lemma_met_before(base2, road, (n + 1) as nat, val, upd, evicted);
    lemma_span_le(path, n, n + 1);
    assert(alike(y.passed(g), cutx.cut(g, place)));
    assert(path[n] == cutx.nodes[g as int]);
    lemma_span_le(path, 0, n);
    lemma_absorb_cut(cutx, y.passed(g), g, at, val, upd, evicted, ox, oy);
    assert(road[n + 1] == g);
    assert(road.len() == n + 2);
    assert(topo::end_of(road) == g);
    lemma_ends_alike(st, two, key, value, upd, evicted);
    let (t, ot, node) = st.after_insert(key, value, upd, evicted);
    let (u, ou, node2) = two.after_insert(key, value, upd, evicted);
    let seen = choose|seen: Seq<NodeId>| #[trigger]
        inserted(two, key, fine, val, upd, evicted, u, node2, seen);
    lemma_inserted_alike(st, two, key, path, fine, n, val, upd, evicted, t, u, node, seen);
}

/// Past the node that was cut, the two inserts meet the same nodes.
proof fn lemma_met_past(
    x: SWAState,
    y: SWAState,
    chain: Seq<NodeId>,
    road: Seq<NodeId>,
    j: int,
    k: nat,
    val: Seq<i64>,
    upd: int,
    evicted: int,
)
    requires
        0 <= j < k <= chain.len(),
        road.len() == chain.len() + 1,
        forall|i: int| j < i < chain.len() ==> road[i + 1] == #[trigger] chain[i],
        alike(x.met(chain, (j + 1) as nat, val, upd, evicted).0, y.met(road, (j + 2) as nat, val, upd, evicted).0),
        x.met(chain, (j + 1) as nat, val, upd, evicted).2 == y.met(road, (j + 2) as nat, val, upd, evicted).2,
    ensures
        alike(x.met(chain, k, val, upd, evicted).0, y.met(road, k + 1, val, upd, evicted).0),
        x.met(chain, k, val, upd, evicted).2 == y.met(road, k + 1, val, upd, evicted).2,
    decreases k,
{
    if k > j + 1 {
        lemma_met_past(x, y, chain, road, j, (k - 1) as nat, val, upd, evicted);
        let (a, o1, total) = x.met(chain, (k - 1) as nat, val, upd, evicted);
        let (b, o2, total_b) = y.met(road, k, val, upd, evicted);
        let c = chain[k - 1];
        assert(road[k as int] == c);
        lemma_absorb_alike(a.passed(c), b.passed(c), c, total, val.skip(total), upd, evicted, o1, o2);
    }
}

/// The tree in which a node that the key passes whole is in two parts.
proof fn lemma_in_two(st: SWAState, key: RadixKey, upd: int, evicted: int, j: int)
    requires
        st.wf(),
        st.nodes.len() + 4 <= NodeId::MAX,
        st.frame().fits(key),
        evicted % (st.shape.page as int) == 0,
        0 <= j < st.frame().walk(key).chain.len(),
        ({
            let (a, ids) = st.after_walk(key);
            straddles(trail(a, ids)[j], span(trail(a, ids), j), upd, evicted)
        }),
    ensures
        ({
            let w = st.frame().walk(key);
            let v = w.chain[j];
            let (a, ids) = st.after_walk(key);
            let path = trail(a, ids);
            let place = (evicted - span(path, j)) * st.shape.unit;
            let two = st.cut(v, place);
            let (a2, ids2) = two.after_walk(key);
            &&& two.wf()
            &&& two.frame().walk(key) == (Walk { chain: w.chain.insert(j, st.nodes.len() as NodeId), ..w })
            &&& parted(path, trail(a2, ids2), j, evicted)
            &&& span(path, path.len() as int) == st.frame().prefix_len(key)
            &&& st.live(v)
            &&& path[j] == st.nodes[v as int]
            &&& span(trail(st, w.chain), j) == span(path, j)
        }),
{
    let f = st.frame();
    let w = f.walk(key);
    let flat = f.flat(key);
    let ns = f.ns_of(key);
    let chain = w.chain;
    let n = chain.len() as int;
    let (a, ids) = st.after_walk(key);
    let path = trail(a, ids);
    let v = chain[j];
    lemma_visited(st, key);
    lemma_span(a, ids, ids.len() as int);
    assert(st.shape.aligned(flat.len() as int)) by {
        query::lemma_query(f, key);
    }
    let inner = trail(st, chain);
    assert forall|i: int| 0 <= i < n implies #[trigger] inner[i] == path[i] by {
        assert(a.nodes[chain[i] as int] == st.nodes[chain[i] as int]);
        assert(ids[i] == chain[i]);
    }
    lemma_spans_alike(inner, path, j);
    lemma_cut_place(st, chain, j, upd, evicted);
    let place = (evicted - span(path, j)) * st.shape.unit;
    assert(in_place(st, chain, j));
    swa_model::lemma_cut(st, v, place);
    let two = st.cut(v, place);
    walk_laws::lemma_walk_cut(st.shape, ROOT, ns, flat, j, place);
    assert(two.frame().walk(key) == (Walk { chain: chain.insert(j, st.nodes.len() as NodeId), ..w }));
    lemma_same_query(st, two, key);
    lemma_fine(st, key, j, place, evicted);
}

/// An insert into that tree comes to the same.
proof fn lemma_in_two_same(st: SWAState, key: RadixKey, val: Seq<i64>, upd: int, evicted: int, j: int)
    requires
        st.wf(),
        st.nodes.len() + 4 <= NodeId::MAX,
        st.frame().fits(key),
        val.len() == st.frame().units(key),
        evicted % (st.shape.page as int) == 0,
        0 <= j < st.frame().walk(key).chain.len(),
        ({
            let (a, ids) = st.after_walk(key);
            straddles(trail(a, ids)[j], span(trail(a, ids), j), upd, evicted)
        }),
    ensures
        ({
            let (a, ids) = st.after_walk(key);
            let place = (evicted - span(trail(a, ids), j)) * st.shape.unit;
            let two = st.cut(st.frame().walk(key).chain[j], place);
            let (x, o, p) = st.after_insert_walk(key, val, upd, evicted);
            let (y, u, q) = two.after_insert_walk(key, val, upd, evicted);
            alike(x, y) && p == q
        }),
{
    let f = st.frame();
    let w = f.walk(key);
    let chain = w.chain;
    let (a, ids) = st.after_walk(key);
    let path = trail(a, ids);
    let v = chain[j];
    let h = st.nodes.len() as NodeId;
    let at = span(path, j);
    let place = (evicted - at) * st.shape.unit;
    let two = st.cut(v, place);
    let road = chain.insert(j, h);
    let (a2, ids2) = two.after_walk(key);
    let fine = trail(a2, ids2);
    lemma_in_two(st, key, upd, evicted, j);
    lemma_same_query(st, two, key);
    walk_laws::lemma_lengths(f, key);
    let base = SWAState { names: f.names_with(key), ..st };
    let base2 = SWAState { names: f.names_with(key), ..two };
    assert(trail(base, chain) =~= trail(st, chain));
    lemma_met_before(base, chain, j as nat, val, upd, evicted);
    let (x, ox, total) = base.met(chain, j as nat, val, upd, evicted);
    let (y, oy, total_y) = base2.met(road, (j + 1) as nat, val, upd, evicted);
    lemma_parted(path, fine, j, val, upd, evicted, j + 1);
    assert forall|i: int| 0 <= i < j + 1 implies #[trigger] trail(base2, road)[i] == fine[i] by {
        lemma_kept_nodes(two, key, i);
    }
    lemma_spans_alike(trail(base2, road), fine, j + 1);
    lemma_met_before(base2, road, (j + 1) as nat, val, upd, evicted);
    lemma_span_le(path, j + 1, path.len() as int);
    lemma_span_le(path, 0, j);
    assert(alike(y.passed(v), x.passed(v).cut(v, place)));
    lemma_absorb_cut(x.passed(v), y.passed(v), v, at, val, upd, evicted, ox, oy);
    assert(road[j + 1] == v);
    lemma_met_past(base, base2, chain, road, j, chain.len(), val, upd, evicted);
    let (b, ob, tb) = base.met(chain, chain.len(), val, upd, evicted);
    let (d, od, td) = base2.met(road, road.len(), val, upd, evicted);
    match w.stop {
        None => {
            assert(topo::end_of(road) == topo::end_of(chain));
        },
        Some((c, m)) => {
            let g = b.nodes.len() as NodeId;
            lemma_absorb_alike(
                b.passed(c).cut(c, m as int),
                d.passed(c).cut(c, m as int),
                g,
                tb,
                val.skip(tb),
                upd,
                evicted,
                ob,
                od,
            );
        },
    }
}

/// Where the window slots begin inside a node that the key passes whole.
proof fn lemma_cut_inner(st: SWAState, key: RadixKey, value: Seq<i64>, upd: int, evicted: int, j: int)
    requires
        st.wf(),
        st.nodes.len() + 4 <= NodeId::MAX,
        st.names.len() < u32::MAX,
        !st.disable,
        st.frame().fits(key),
        st.frame().flat(key).len() > 0,
        value.len() >= st.frame().units(key),
        0 <= evicted,
        evicted % (st.shape.page as int) == 0,
        st.frame().walk(key).used < st.frame().flat(key).len() ==> evicted != st.frame().units(key),
        0 <= j < st.frame().walk(key).chain.len(),
        ({
            let (a, ids) = st.after_walk(key);
            straddles(trail(a, ids)[j], span(trail(a, ids), j), upd, evicted)
        }),
    ensures
        ({
            let (a, ids) = st.after_walk(key);
            let (t, out, node) = st.after_insert(key, value, upd, evicted);
            let val = value.take(st.frame().units(key));
            exists|seen: Seq<NodeId>| #[trigger]
                inserted(st, key, trail(a, ids), val, upd, evicted, t, node, seen)
        }),
{
    let f = st.frame();
    let (a, ids) = st.after_walk(key);
    let path = trail(a, ids);
    let val = value.take(f.units(key));
    let place = (evicted - span(path, j)) * st.shape.unit;
    let two = st.cut(f.walk(key).chain[j], place);
    let (a2, ids2) = two.after_walk(key);
    let fine = trail(a2, ids2);
    lemma_in_two(st, key, upd, evicted, j);
    lemma_in_two_same(st, key, val, upd, evicted, j);
    lemma_same_query(st, two, key);
    walk_laws::lemma_lengths(f, key);
    lemma_parted_clean(path, fine, j, val, upd, evicted);
    lemma_inserted(two, key, value, upd, evicted);
    lemma_ends_alike(st, two, key, value, upd, evicted);
    let (t, ot, node) = st.after_insert(key, value, upd, evicted);
    let (u, ou, node2) = two.after_insert(key, value, upd, evicted);
    let seen = choose|seen: Seq<NodeId>| #[trigger]
        inserted(two, key, fine, val, upd, evicted, u, node2, seen);
    lemma_inserted_alike(st, two, key, path, fine, j, val, upd, evicted, t, u, node, seen);
}

/// A walk keeps the contents of the nodes that it passes whole.
proof fn lemma_kept_nodes(st: SWAState, key: RadixKey, i: int)
    requires
        st.wf(),
        st.nodes.len() < NodeId::MAX,
        0 <= i < st.frame().walk(key).chain.len(),
    ensures
        ({
            let c = st.frame().walk(key).chain[i];
            let (a, ids) = st.after_walk(key);
            &&& ids[i] == c
            &&& c < st.nodes.len()
            &&& a.nodes[c as int] == st.nodes[c as int]
        }),
{
    lemma_visited(st, key);
    let w = st.frame().walk(key);
    assert(in_place(st, w.chain, i));
}

/// The nodes of a key, once one that it passes whole is in two parts.
proof fn lemma_fine(st: SWAState, key: RadixKey, j: int, place: int, evicted: int)
    requires
        st.wf(),
        st.nodes.len() + 2 <= NodeId::MAX,
        0 <= j < st.frame().walk(key).chain.len(),
        ({
            let w = st.frame().walk(key);
            let v = w.chain[j];
            let two = st.cut(v, place);
            let (a, ids) = st.after_walk(key);
            &&& two.wf()
            &&& two.frame().walk(key) == (Walk { chain: w.chain.insert(j, st.nodes.len() as NodeId), ..w })
            &&& two.frame().names_with(key) == st.frame().names_with(key)
            &&& place / (st.shape.unit as int) == evicted - span(trail(a, ids), j)
            &&& st.nodes[v as int].tombstone
        }),
    ensures
        ({
            let (a, ids) = st.after_walk(key);
            let (a2, ids2) = st.cut(st.frame().walk(key).chain[j], place).after_walk(key);
            parted(trail(a, ids), trail(a2, ids2), j, evicted)
        }),
{
    let w = st.frame().walk(key);
    let chain = w.chain;
    let v = chain[j];
    let two = st.cut(v, place);
    let h = st.nodes.len() as NodeId;
    let road = chain.insert(j, h);
    let (a, ids) = st.after_walk(key);
    let (a2, ids2) = two.after_walk(key);
    let path = trail(a, ids);
    let fine = trail(a2, ids2);
    assert(chain.no_duplicates() && (w.stop matches Some((c, m)) ==> !chain.contains(c) && c < st.nodes.len())) by {
        query::lemma_query(st.frame(), key);
    }
    assert(ids2.len() == ids.len() + 1);
    lemma_kept_nodes(st, key, j);
    lemma_kept_nodes(two, key, j);
    lemma_kept_nodes(two, key, j + 1);
    assert(road[j] == h && road[j + 1] == v);
    assert forall|i: int| 0 <= i < j implies #[trigger] fine[i] == path[i] by {
        lemma_kept_nodes(st, key, i);
        lemma_kept_nodes(two, key, i);
        assert(road[i] == chain[i]);
        assert(chain[i] != v);
    }
    assert forall|i: int| j + 1 < i < fine.len() implies #[trigger] fine[i] == path[i - 1] by {
        if i < road.len() {
            lemma_kept_nodes(st, key, i - 1);
            lemma_kept_nodes(two, key, i);
            assert(road[i] == chain[i - 1]);
            assert(chain[i - 1] != v);
        } else {
            let (c, m) = w.stop->0;
            assert(ids[i - 1] == st.nodes.len());
            assert(ids2[i] == two.nodes.len());
            assert(chain.contains(v));
        }
    }
}

/// What a match reads of a tree is the shape and the contents of its nodes.
proof fn lemma_reads_same(a: SWAState, b: SWAState, ids: Seq<NodeId>, k: nat)
    requires
        b.nodes == a.nodes,
        b.window == a.window,
        k <= ids.len(),
    ensures
        b.scan(ids, k) == a.scan(ids, k),
    decreases k,
{
    if k > 0 {
        lemma_reads_same(a, b, ids, (k - 1) as nat);
    }
}

/// A match that is repeated finds the same.
pub proof fn law_match_again(st: SWAState, key: RadixKey)
    requires
        st.wf(),
        st.nodes.len() < NodeId::MAX,
        st.names.len() < u32::MAX,
    ensures
        ({
            let (t, indices, node) = st.after_match(key);
            let (u, again, end) = t.after_match(key);
            again == indices && end == node
        }),
{
    if !(st.disable || st.frame().flat(key).len() == 0) {
        let (a, ids) = st.after_walk(key);
        let (t, indices, node) = st.after_match(key);
        walk_laws::lemma_walk_again(st.frame(), t.frame(), key);
        let (b, seen) = t.after_walk(key);
        assert(seen == ids);
        lemma_reads_same(a, b, ids, ids.len());
        let (len, end) = a.best(ids);
        lemma_gathered_same(a, b, ids.take(len as int));
    }
}

/// What a match finds of an inserted key. Of the nodes that were there,
/// unlocked tombstones take over the inserted indices, as far as those have
/// their window slots and the caller does not share the tokens already; the
/// rest of the key is new. The key is found whole, up to the node of the
/// insert, exactly if no window slot is missing on its way or a full window
/// lies past the last one that is.
///
/// Left out is a key whose new part has lost all its window slots: none of
/// it is added.
pub proof fn law_insert_then_match(st: SWAState, key: RadixKey, value: Seq<i64>, upd: int, evicted: int)
    requires
        st.wf(),
        st.nodes.len() + 4 <= NodeId::MAX,
        st.names.len() < u32::MAX,
        !st.disable,
        st.frame().fits(key),
        value.len() >= st.frame().units(key),
        0 <= evicted,
        evicted % (st.shape.page as int) == 0,
        st.frame().walk(key).used < st.frame().flat(key).len() ==> evicted != st.frame().units(key),
    ensures
        ({
            let f = st.frame();
            let (a, ids) = st.after_walk(key);
            let path = trail(a, ids);
            let n = path.len() as int;
            let units = f.units(key);
            let prefix = f.prefix_len(key);
            let val = value.take(units);
            let (t, out, node) = st.after_insert(key, value, upd, evicted);
            let (u, indices, end) = t.after_match(key);
            let gap = if prefix < evicted < units {
                evicted
            } else {
                lost(path, upd, evicted, n)
            };
            f.flat(key).len() > 0 ==> if gap == 0 || units - gap >= st.window {
                &&& indices == taken(path, val, upd, evicted, n) + val.skip(prefix)
                &&& indices.len() == units
                &&& end == node
            } else {
                indices.len() < units
            }
        }),
{
    let f = st.frame();
    if f.flat(key).len() > 0 {
        let (a, ids) = st.after_walk(key);
        let path = trail(a, ids);
        let w = f.walk(key);
        let val = value.take(f.units(key));
        let (t, out, node) = st.after_insert(key, value, upd, evicted);
        if clean(path, upd, evicted) {
            lemma_inserted(st, key, value, upd, evicted);
        } else {
            let j = choose|j: int| 0 <= j < path.len() && straddles(#[trigger] path[j], span(path, j), upd, evicted);
            if j < w.chain.len() {
                lemma_cut_inner(st, key, value, upd, evicted, j);
            } else {
                lemma_cut_front(st, key, value, upd, evicted);
            }
        }
        let seen = choose|seen: Seq<NodeId>| #[trigger]
            inserted(st, key, path, val, upd, evicted, t, node, seen);
        lemma_read_back(st, key, path, val, upd, evicted, t, node, seen);
    }
}

} // verus!
