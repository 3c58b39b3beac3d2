//! Token counts along the nodes that a key passes.

use crate::key::RadixKey;
use crate::query;
use crate::query::Frame;
use crate::seqs;
use crate::topo;
use crate::topo::{NodeId, Shape, ROOT};
use crate::tree_model;
use vstd::prelude::*;

verus! {

/// Tokens on the edges of the first `k` nodes of `ids`.
pub open spec fn tokens(s: Shape, ids: Seq<NodeId>, k: int) -> int
    decreases k,
{
    if k <= 0 {
        0
    } else {
        tokens(s, ids, k - 1) + s.units(ids[k - 1] as int)
    }
}

/// The count grows along the nodes.
pub proof fn lemma_tokens_le(s: Shape, ids: Seq<NodeId>, i: int, j: int)
    requires
        0 <= i <= j <= ids.len(),
        forall|n: int| 0 <= n < ids.len() ==> s.units((#[trigger] ids[n]) as int) >= 0,
    ensures
        0 <= tokens(s, ids, i) <= tokens(s, ids, j),
    decreases j,
{
    if j > 0 {
        lemma_tokens_le(s, ids, if i < j { i } else { j - 1 }, j - 1);
        assert(s.units(ids[j - 1] as int) >= 0);
    }
}

/// A node in front adds its tokens.
pub proof fn lemma_tokens_front(s: Shape, c: NodeId, rest: Seq<NodeId>, k: int)
    requires
        0 <= k <= rest.len(),
    ensures
        tokens(s, seq![c] + rest, k + 1) == s.units(c as int) + tokens(s, rest, k),
    decreases k,
{
    let ids = seq![c] + rest;
    if k == 0 {
        assert(tokens(s, ids, 0) == 0);
        assert(ids[0] == c);
    } else {
        lemma_tokens_front(s, c, rest, k - 1);
        assert(ids[k] == rest[k - 1]);
    }
}

/// The nodes a walk passes hold the tokens it matches, with those of the
/// node matched in part.
pub proof fn lemma_walk_tokens(s: Shape, node: NodeId, ns: u32, rem: Seq<i64>)
    requires
        s.wf(),
        s.has(node),
        s.aligned(rem.len() as int),
    ensures
        ({
            let w = s.walk(node, ns, rem);
            let n = tokens(s, w.chain, w.chain.len() as int);
            let unit = s.unit as int;
            &&& w.used as int % unit == 0
            &&& w.used <= rem.len()
            &&& match w.stop {
                None => n == w.used as int / unit,
                Some((c, m)) => n + m as int / unit == w.used as int / unit,
            }
        }),
    decreases rem.len(),
{
    let w = s.walk(node, ns, rem);
    let k = s.chunk() as int;
    let unit = s.unit as int;
    topo::lemma_chunk(s);
    vstd::arithmetic::div_mod::lemma_small_mod(0, s.chunk());
    assert(0int % unit == 0 && 0int / unit == 0) by (nonlinear_arith)
        requires
            unit == 1 || unit == 2,
    ;
    if rem.len() >= k {
        if let Some(c) = s.child_of(node, ns, rem.take(k)) {
            assert(s.named(node, ns, rem.take(k), c));
            topo::lemma_shared(s, rem, c);
            let m = s.shared(rem, c) as int;
            topo::lemma_aligned(s, m, 0);
            topo::lemma_aligned(s, rem.len() as int, m);
            if m == s.nodes[c as int].key.len() {
                lemma_walk_tokens(s, c, ns, rem.skip(m));
                let w1 = s.walk(c, ns, rem.skip(m));
                assert(w.chain == seq![c] + w1.chain);
                assert(w.stop == w1.stop && w.used == m + w1.used);
                assert(w.chain.len() == w1.chain.len() + 1);
                lemma_tokens_front(s, c, w1.chain, w1.chain.len() as int);
                crate::content::lemma_units_sum(m, w1.used as int, unit);
                let rest = w1.used as int;
                assert((m + rest) % unit == 0) by (nonlinear_arith)
                    requires
                        m % unit == 0,
                        rest % unit == 0,
                        unit == 1 || unit == 2,
                ;
                assert(s.units(c as int) == m / unit);
                assert(tokens(s, w.chain, w.chain.len() as int) == m / unit + tokens(
                    s,
                    w1.chain,
                    w1.chain.len() as int,
                ));
            } else {
                assert(w.chain.len() == 0 && w.stop == Some((c, m as nat)) && w.used == m);
                assert(tokens(s, w.chain, 0) == 0);
            }
        } else {
            assert(w.chain.len() == 0 && w.stop is None && w.used == 0);
        }
    }
}

/// The nodes that a key passes hold the tokens of it that are in the tree.
pub proof fn lemma_key_tokens(f: Frame, key: RadixKey)
    requires
        f.wf(),
    ensures
        ({
            let w = f.walk(key);
            let n = tokens(f.shape, w.chain, w.chain.len() as int);
            let unit = f.shape.unit as int;
            &&& match w.stop {
                None => n == f.prefix_len(key),
                Some((c, m)) => n + m as int / unit == f.prefix_len(key),
            }
            &&& 0 <= n <= f.prefix_len(key) <= f.units(key)
            &&& forall|j: int| 0 <= j < w.chain.len() ==> f.shape.units((#[trigger] w.chain[j]) as int) >= 0
        }),
{
    lemma_key_tokens_at(f, ROOT, key);
}

/// The nodes that a key passes from `start` hold the tokens of it that are
/// in the tree below `start`.
pub proof fn lemma_key_tokens_at(f: Frame, start: NodeId, key: RadixKey)
    requires
        f.wf(),
        f.shape.has(start),
        f.shape.nodes[start as int].attached,
        start != ROOT ==> f.shape.nodes[start as int].ns == f.ns_of(key),
    ensures
        ({
            let w = f.walk_at(start, key);
            let n = tokens(f.shape, w.chain, w.chain.len() as int);
            let unit = f.shape.unit as int;
            let matched = w.used as int / unit;
            &&& match w.stop {
                None => n == matched,
                Some((c, m)) => n + m as int / unit == matched,
            }
            &&& 0 <= n <= matched <= f.units(key)
            &&& forall|j: int| 0 <= j < w.chain.len() ==> f.shape.units((#[trigger] w.chain[j]) as int) >= 0
        }),
{
    query::lemma_query_at(f, start, key);
    let s = f.shape;
    let w = f.walk_at(start, key);
    if f.fits(key) {
        lemma_walk_tokens(s, start, f.ns_of(key), f.flat(key));
    } else {
        topo::lemma_chunk(s);
        vstd::arithmetic::div_mod::lemma_small_mod(0, s.chunk());
    }
    tree_model::lemma_halves(f.flat(key).len() as int, w.used as int, s.unit as int);
    assert forall|j: int| 0 <= j < w.chain.len() implies s.units((#[trigger] w.chain[j]) as int) >= 0 by {
        lemma_units(s, w.chain[j] as int);
    }
    lemma_tokens_le(s, w.chain, 0, w.chain.len() as int);
    if let Some((c, m)) = w.stop {
        topo::lemma_chunk(s);
        vstd::arithmetic::div_mod::lemma_small_mod(0, s.chunk());
        topo::lemma_aligned(s, m as int, 0);
        tree_model::lemma_halves(m as int, 0, s.unit as int);
    }
}

/// A node of the tree below the root has at least one token on its edge.
pub proof fn lemma_units(s: Shape, i: int)
    requires
        s.wf(),
        0 < i < s.nodes.len(),
    ensures
        s.units(i) >= 0,
        s.nodes[i].attached ==> s.units(i) >= 1,
        s.units(i) * s.unit == s.nodes[i].key.len(),
{
    assert(s.hangs(i));
    let len = s.nodes[i].key.len() as int;
    topo::lemma_chunk(s);
    vstd::arithmetic::div_mod::lemma_small_mod(0, s.chunk());
    topo::lemma_aligned(s, len, 0);
    tree_model::lemma_halves(len, 0, s.unit as int);
}

/// Sum of `f` over the first `k` of `ids`.
pub open spec fn picked(f: spec_fn(int) -> int, ids: Seq<NodeId>, k: int) -> int
    decreases k,
{
    if k <= 0 {
        0
    } else {
        picked(f, ids, k - 1) + f(ids[k - 1] as int)
    }
}

/// What `f` gives outside the first `k` of `ids`.
pub open spec fn outside(f: spec_fn(int) -> int, ids: Seq<NodeId>, k: int, i: int) -> int {
    if ids.take(k).contains(i as NodeId) {
        0
    } else {
        f(i)
    }
}

/// The sum over distinct indices is part of the sum over all.
pub proof fn lemma_picked(f: spec_fn(int) -> int, ids: Seq<NodeId>, k: int, n: nat)
    requires
        0 <= k <= ids.len(),
        ids.no_duplicates(),
        n <= NodeId::MAX,
        forall|j: int| 0 <= j < ids.len() ==> (#[trigger] ids[j]) < n,
        forall|i: int| 0 <= i < n ==> #[trigger] f(i) >= 0,
    ensures
        picked(f, ids, k) + seqs::total(|i: int| outside(f, ids, k, i), n) == seqs::total(f, n),
        seqs::total(|i: int| outside(f, ids, k, i), n) >= 0,
        0 <= picked(f, ids, k) <= seqs::total(f, n),
    decreases k,
{
    seqs::lemma_total_bounds(|i: int| outside(f, ids, k, i), n);
    if k == 0 {
        assert(ids.take(0) =~= Seq::<NodeId>::empty());
        seqs::lemma_total_same(|i: int| outside(f, ids, k, i), f, n);
    } else {
        lemma_picked(f, ids, k - 1, n);
        let x = ids[k - 1];
        let a = |i: int| outside(f, ids, k - 1, i);
        let b = |i: int| outside(f, ids, k, i);
        assert(ids.take(k) =~= ids.take(k - 1).push(x));
        lemma_not_before(ids, k - 1);
        assert forall|i: int| 0 <= i < n && i != x implies #[trigger] a(i) == b(i) by {
            tree_model::lemma_push_contains(ids.take(k - 1), x, i as NodeId);
        }
        tree_model::lemma_push_contains(ids.take(k - 1), x, x);
        seqs::lemma_total_update(a, b, n, x as int);
    }
}

/// In a sequence without repeats, an item is not among those before it.
pub proof fn lemma_not_before(ids: Seq<NodeId>, k: int)
    requires
        ids.no_duplicates(),
        0 <= k < ids.len(),
    ensures
        !ids.take(k).contains(ids[k]),
{
    if ids.take(k).contains(ids[k]) {
        let j = ids.take(k).index_of(ids[k]);
        assert(ids[j] == ids[k]);
    }
}

/// Distinct ids below `n` are at most `n`.
pub proof fn lemma_ids_bound(ids: Seq<NodeId>, n: nat)
    requires
        ids.no_duplicates(),
        n <= NodeId::MAX,
        forall|j: int| 0 <= j < ids.len() ==> (#[trigger] ids[j]) < n,
    ensures
        ids.len() <= n,
{
    let f = |i: int| 1int;
    lemma_picked(f, ids, ids.len() as int, n);
    lemma_ones(ids, ids.len() as int, n);
}

proof fn lemma_ones(ids: Seq<NodeId>, k: int, n: nat)
    requires
        0 <= k,
    ensures
        picked(|i: int| 1int, ids, k) == k,
        seqs::total(|i: int| 1int, n) == n,
    decreases k, n,
{
    if k > 0 {
        lemma_ones(ids, k - 1, n);
    } else if n > 0 {
        lemma_ones(ids, 0, (n - 1) as nat);
    }
}

/// Counts over nodes of the same lengths agree.
pub proof fn lemma_tokens_alike(s: Shape, t: Shape, a: Seq<NodeId>, b: Seq<NodeId>, k: int)
    requires
        0 <= k <= a.len(),
        k <= b.len(),
        forall|j: int| 0 <= j < k ==> b[j] == (#[trigger] a[j]) && t.units(a[j] as int) == s.units(a[j] as int),
    ensures
        tokens(s, a, k) == tokens(t, b, k),
    decreases k,
{
    if k > 0 {
        lemma_tokens_alike(s, t, a, b, k - 1);
        assert(b[k - 1] == a[k - 1]);
    }
}

} // verus!
