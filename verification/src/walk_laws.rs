//! What a walk finds after the tree has been cut or has grown where the walk
//! stopped.

use crate::chains;
use crate::key::RadixKey;
use crate::ns;
use crate::query;
use crate::query::Frame;
use crate::seqs;
use crate::topo;
use crate::topo::{NodeId, Shape, Walk, ROOT};
use crate::tree_model;
use vstd::prelude::*;

verus! {

/// The first `m` elements shared by a query and a key that begins with them.
pub proof fn lemma_shared_whole(s: Shape, rem: Seq<i64>, c: NodeId)
    requires
        s.wf(),
        0 < c < s.nodes.len(),
        s.nodes[c as int].key.len() <= rem.len(),
        rem.take(s.nodes[c as int].key.len() as int) == s.nodes[c as int].key,
    ensures
        s.shared(rem, c) == s.nodes[c as int].key.len(),
{
    let key = s.nodes[c as int].key;
    let m = key.len();
    assert forall|i: int| 0 <= i < m implies rem[i] == key[i] by {
        assert(rem.take(m as int)[i] == key[i]);
    }
    seqs::lemma_lcp_is(rem, key, m);
    assert(s.hangs(c as int));
    assert(m % s.chunk() == 0);
}

/// A walk that stops inside a node comes, once that is cut there, to the end
/// of its front part.
pub proof fn lemma_walk_split(s: Shape, node: NodeId, ns: u32, rem: Seq<i64>)
    requires
        s.wf(),
        s.has(node),
        s.nodes.len() < NodeId::MAX,
        s.aligned(rem.len() as int),
        s.walk(node, ns, rem).stop is Some,
    ensures
        ({
            let w = s.walk(node, ns, rem);
            let (c, m) = w.stop->0;
            s.split(c, m as int).walk(node, ns, rem) == (Walk {
                chain: w.chain.push(s.nodes.len() as NodeId),
                stop: None,
                used: w.used,
            })
        }),
    decreases rem.len(),
{
    let w = s.walk(node, ns, rem);
    let (c, m) = w.stop->0;
    let t = s.split(c, m as int);
    let f = s.nodes.len() as NodeId;
    let k = s.chunk() as int;
    topo::lemma_chunk(s);
    topo::lemma_walk(s, node, ns, rem);
    topo::lemma_split_wf(s, c, m as int);
    topo::lemma_path_grows(s, c);
    let d = s.child_of(node, ns, rem.take(k))->0;
    assert(s.named(node, ns, rem.take(k), d));
    topo::lemma_shared(s, rem, d);
    let n = s.shared(rem, d) as int;
    topo::lemma_aligned(s, rem.len() as int, n);
    if n < s.nodes[d as int].key.len() {
        assert(d == c && n == m);
        let front = s.nodes[c as int].key.take(n);
        assert(t.nodes[f as int].key == front);
        assert(rem.take(n) == front);
        assert(front.take(k) =~= s.nodes[c as int].key.take(k));
        assert(t.named(node, ns, rem.take(k), f));
        topo::lemma_child_of(t, node, ns, rem.take(k), f);
        lemma_shared_whole(t, rem, f);
        let rest = rem.skip(n);
        if rest.len() >= k {
            tree_model::lemma_front_children(s, c, n, ns, rest.take(k));
        }
        assert(t.walk(f, ns, rest) == (Walk { chain: Seq::empty(), stop: None, used: 0 }));
        assert(seq![f] + Seq::<NodeId>::empty() =~= seq![f]);
        assert(w.chain.push(f) =~= seq![f]);
    } else {
        let w1 = s.walk(d, ns, rem.skip(n));
        assert(w.chain == seq![d] + w1.chain);
        assert(w.chain.contains(d)) by {
            assert(w.chain[0] == d);
        }
        assert(d != c);
        assert(t.nodes[d as int] == s.nodes[d as int]);
        assert(t.named(node, ns, rem.take(k), d));
        topo::lemma_child_of(t, node, ns, rem.take(k), d);
        assert(t.shared(rem, d) == s.shared(rem, d));
        lemma_walk_split(s, d, ns, rem.skip(n));
        assert(seq![d] + w1.chain.push(f) =~= w.chain.push(f));
    }
}

/// A cut of a node that a walk does not come to leaves the walk alone.
pub proof fn lemma_walk_beside(s: Shape, c: NodeId, m: int, node: NodeId, ns: u32, rem: Seq<i64>)
    requires
        s.wf(),
        s.has(node),
        s.has(c),
        c != ROOT,
        s.nodes[c as int].attached,
        s.nodes.len() < NodeId::MAX,
        s.aligned(rem.len() as int),
        s.aligned(m),
        0 < m < s.nodes[c as int].key.len(),
        !s.walk(node, ns, rem).chain.contains(c),
        s.walk(node, ns, rem).stop matches Some((d, n)) ==> d != c,
    ensures
        s.split(c, m).walk(node, ns, rem) == s.walk(node, ns, rem),
    decreases rem.len(),
{
    let w = s.walk(node, ns, rem);
    let t = s.split(c, m);
    let f = s.nodes.len() as NodeId;
    let k = s.chunk() as int;
    topo::lemma_chunk(s);
    topo::lemma_split_wf(s, c, m);
    vstd::arithmetic::div_mod::lemma_small_mod(0, s.chunk());
    topo::lemma_aligned(s, m, 0);
    if rem.len() >= k {
        let head = rem.take(k);
        match s.child_of(node, ns, head) {
            None => {
                assert forall|x: NodeId| !t.named(node, ns, head, x) by {
                    if t.named(node, ns, head, x) {
                        if x == f {
                            assert(s.nodes[c as int].key.take(m).take(k) =~= s.nodes[c as int].key.take(k));
                            assert(s.named(node, ns, head, c));
                        } else {
                            assert(x != c);
                            assert(s.named(node, ns, head, x));
                        }
                    }
                }
            },
            Some(d) => {
                assert(s.named(node, ns, head, d));
                topo::lemma_shared(s, rem, d);
                let n = s.shared(rem, d) as int;
                assert(d != c) by {
                    if n == s.nodes[d as int].key.len() {
                        assert(w.chain[0] == d);
                    }
                }
                assert(t.nodes[d as int] == s.nodes[d as int]);
                assert(t.named(node, ns, head, d));
                topo::lemma_child_of(t, node, ns, head, d);
                assert(t.shared(rem, d) == s.shared(rem, d));
                if n == s.nodes[d as int].key.len() {
                    topo::lemma_aligned(s, rem.len() as int, n);
                    let w1 = s.walk(d, ns, rem.skip(n));
                    assert(!w1.chain.contains(c)) by {
                        if w1.chain.contains(c) {
                            let j = w1.chain.index_of(c);
                            assert(w.chain[j + 1] == c);
                        }
                    }
                    lemma_walk_beside(s, c, m, d, ns, rem.skip(n));
                }
            },
        }
    }
}

/// One step of a walk that passes a node whole, once that is cut.
proof fn lemma_cut_step(s: Shape, node: NodeId, ns: u32, rem: Seq<i64>, d: NodeId, m: int, w: Walk)
    requires
        s.wf(),
        s.has(node),
        s.nodes.len() < NodeId::MAX,
        s.aligned(rem.len() as int),
        rem.len() >= s.chunk(),
        s.named(node, ns, rem.take(s.chunk() as int), d),
        s.shared(rem, d) == s.nodes[d as int].key.len(),
        s.aligned(m),
        0 < m < s.nodes[d as int].key.len(),
        s.split(d, m).walk(d, ns, rem.skip(s.nodes[d as int].key.len() as int)) == w,
    ensures
        s.split(d, m).walk(node, ns, rem) == (Walk {
            chain: seq![s.nodes.len() as NodeId, d] + w.chain,
            stop: w.stop,
            used: s.nodes[d as int].key.len() + w.used,
        }),
{
    let t = s.split(d, m);
    let f = s.nodes.len() as NodeId;
    let k = s.chunk() as int;
    let key = s.nodes[d as int].key;
    let n = key.len() as int;
    let rest = rem.skip(m);
    topo::lemma_chunk(s);
    topo::lemma_path_grows(s, d);
    topo::lemma_split_wf(s, d, m);
    vstd::arithmetic::div_mod::lemma_small_mod(0, s.chunk());
    topo::lemma_aligned(s, m, 0);
    topo::lemma_shared(s, rem, d);
    topo::lemma_aligned(s, n, m);
    assert(rem.take(n) == key) by {
        assert(key.take(n) =~= key);
    }
    assert(t.nodes[f as int].key == key.take(m));
    assert(t.nodes[d as int].key == key.skip(m));
    assert(rem.take(m) =~= key.take(m));
    assert(key.take(m).take(k) =~= rem.take(k));
    assert(t.named(node, ns, rem.take(k), f));
    topo::lemma_child_of(t, node, ns, rem.take(k), f);
    lemma_shared_whole(t, rem, f);
    assert(rest.take(n - m) =~= key.skip(m)) by {
        assert(rem.take(n).skip(m) =~= rest.take(n - m));
    }
    assert(key.skip(m).take(k) =~= rest.take(k));
    assert(t.named(f, ns, rest.take(k), d));
    topo::lemma_child_of(t, f, ns, rest.take(k), d);
    lemma_shared_whole(t, rest, d);
    assert(rest.skip(n - m) =~= rem.skip(n));
    assert(t.walk(f, ns, rest) == (Walk { chain: seq![d] + w.chain, stop: w.stop, used: (n - m + w.used) as nat }));
    assert(seq![f] + (seq![d] + w.chain) =~= seq![f, d] + w.chain);
}

/// A walk that comes past a node comes, once that is cut, past both parts.
pub proof fn lemma_walk_cut(s: Shape, node: NodeId, ns: u32, rem: Seq<i64>, j: int, m: int)
    requires
        s.wf(),
        s.has(node),
        s.nodes.len() < NodeId::MAX,
        s.aligned(rem.len() as int),
        0 <= j < s.walk(node, ns, rem).chain.len(),
        s.aligned(m),
        0 < m < s.nodes[s.walk(node, ns, rem).chain[j] as int].key.len(),
    ensures
        ({
            let w = s.walk(node, ns, rem);
            s.split(w.chain[j], m).walk(node, ns, rem) == (Walk {
                chain: w.chain.insert(j, s.nodes.len() as NodeId),
                ..w
            })
        }),
    decreases rem.len(),
{
    let w = s.walk(node, ns, rem);
    let v = w.chain[j];
    let t = s.split(v, m);
    let f = s.nodes.len() as NodeId;
    let k = s.chunk() as int;
    topo::lemma_chunk(s);
    assert(w.chain.no_duplicates() && s.has(v) && v != ROOT && s.nodes[v as int].attached && (
    w.stop matches Some((x, y)) ==> !w.chain.contains(x))) by {
        topo::lemma_walk(s, node, ns, rem);
    }
    let d = s.child_of(node, ns, rem.take(k))->0;
    assert(s.named(node, ns, rem.take(k), d));
    topo::lemma_shared(s, rem, d);
    let n = s.shared(rem, d) as int;
    assert(n == s.nodes[d as int].key.len());
    topo::lemma_aligned(s, rem.len() as int, n);
    let w1 = s.walk(d, ns, rem.skip(n));
    assert(w.chain == seq![d] + w1.chain);
    assert(w.chain[0] == d);
    if j == 0 {
        assert(!w1.chain.contains(d)) by {
            if w1.chain.contains(d) {
                let i = w1.chain.index_of(d);
                assert(w.chain[i + 1] == d);
            }
        }
        assert(w1.stop == w.stop);
        assert(w.chain.contains(d));
        lemma_walk_beside(s, d, m, d, ns, rem.skip(n));
        lemma_cut_step(s, node, ns, rem, d, m, w1);
        assert(seq![f, d] + w1.chain =~= w.chain.insert(0, f));
    } else {
        topo::lemma_split_wf(s, v, m);
        assert(d != v);
        assert(w1.chain[j - 1] == v);
        assert(t.nodes[d as int] == s.nodes[d as int]);
        assert(t.named(node, ns, rem.take(k), d));
        topo::lemma_child_of(t, node, ns, rem.take(k), d);
        assert(t.shared(rem, d) == s.shared(rem, d));
        lemma_walk_cut(s, d, ns, rem.skip(n), j - 1, m);
        assert(seq![d] + w1.chain.insert(j - 1, f) =~= w.chain.insert(j, f));
    }
}

/// One step of a walk that goes the same way after a leaf was added.
proof fn lemma_graft_step(s: Shape, t: Shape, node: NodeId, ns: u32, rem: Seq<i64>, w: Walk)
    requires
        s.wf(),
        t.wf(),
        s.has(node),
        s.aligned(rem.len() as int),
        rem.len() >= s.chunk(),
        t.page == s.page && t.unit == s.unit,
        s.nodes.len() <= t.nodes.len(),
        forall|i: int| 0 <= i < s.nodes.len() ==> #[trigger] t.nodes[i] == s.nodes[i],
        s.child_of(node, ns, rem.take(s.chunk() as int)) matches Some(d) && s.shared(rem, d)
            == s.nodes[d as int].key.len() && t.walk(d, ns, rem.skip(s.shared(rem, d) as int)) == w,
    ensures
        ({
            let d = s.child_of(node, ns, rem.take(s.chunk() as int))->0;
            t.walk(node, ns, rem) == (Walk {
                chain: seq![d] + w.chain,
                stop: w.stop,
                used: s.shared(rem, d) + w.used,
            })
        }),
{
    let k = s.chunk() as int;
    let d = s.child_of(node, ns, rem.take(k))->0;
    assert(s.named(node, ns, rem.take(k), d));
    topo::lemma_chunk(s);
    topo::lemma_shared(s, rem, d);
    assert(t.nodes[d as int] == s.nodes[d as int]);
    assert(t.named(node, ns, rem.take(k), d));
    topo::lemma_child_of(t, node, ns, rem.take(k), d);
    assert(t.shared(rem, d) == s.shared(rem, d));
}

/// The walk of a query that one new leaf holds.
proof fn lemma_graft_here(s: Shape, node: NodeId, ns: u32, rem: Seq<i64>)
    requires
        s.wf(),
        s.has(node),
        s.nodes.len() < NodeId::MAX,
        s.aligned(rem.len() as int),
        rem.len() >= s.chunk(),
        s.graft(node, ns, rem).wf(),
    ensures
        s.graft(node, ns, rem).walk(node, ns, rem) == (Walk {
            chain: seq![s.nodes.len() as NodeId],
            stop: None,
            used: rem.len(),
        }),
{
    let t = s.graft(node, ns, rem);
    let f = s.nodes.len() as NodeId;
    let k = s.chunk() as int;
    topo::lemma_chunk(s);
    assert(t.nodes[f as int].key == rem);
    assert(t.named(node, ns, rem.take(k), f));
    topo::lemma_child_of(t, node, ns, rem.take(k), f);
    assert(rem.take(rem.len() as int) =~= rem);
    lemma_shared_whole(t, rem, f);
    let none = rem.skip(rem.len() as int);
    assert(none.len() == 0);
    assert(t.walk(f, ns, none) == (Walk { chain: Seq::empty(), stop: None, used: 0 }));
    assert(seq![f] + Seq::<NodeId>::empty() =~= seq![f]);
}

/// Where a walk that no child continues ends, a leaf can hold the rest.
proof fn lemma_end(s: Shape, node: NodeId, ns: u32, rem: Seq<i64>)
    requires
        s.wf(),
        s.has(node),
        node != ROOT ==> s.nodes[node as int].ns == ns,
        s.nodes.len() < NodeId::MAX,
        s.aligned(rem.len() as int),
        s.walk(node, ns, rem).stop is None,
        s.walk(node, ns, rem).used < rem.len(),
    ensures
        rem.len() >= s.chunk(),
        ({
            let w = s.walk(node, ns, rem);
            let end = if w.chain.len() == 0 {
                node
            } else {
                w.chain.last()
            };
            s.graft(end, ns, rem.skip(w.used as int)).wf()
        }),
{
    let w = s.walk(node, ns, rem);
    let end = if w.chain.len() == 0 {
        node
    } else {
        w.chain.last()
    };
    topo::lemma_chunk(s);
    topo::lemma_walk(s, node, ns, rem);
    topo::lemma_aligned(s, rem.len() as int, w.used as int);
    vstd::arithmetic::div_mod::lemma_small_mod(0, s.chunk());
    topo::lemma_aligned(s, rem.len() as int, 0);
    if w.chain.len() > 0 {
        assert(s.nodes[w.chain[w.chain.len() - 1] as int].ns == ns);
    }
    topo::lemma_graft_wf(s, end, ns, rem.skip(w.used as int));
}

/// The first step of a walk that goes on.
proof fn lemma_first_step(s: Shape, node: NodeId, ns: u32, rem: Seq<i64>)
    requires
        s.wf(),
        s.has(node),
        s.aligned(rem.len() as int),
        rem.len() >= s.chunk(),
        s.walk(node, ns, rem).stop is None,
        s.child_of(node, ns, rem.take(s.chunk() as int)) is Some,
    ensures
        ({
            let w = s.walk(node, ns, rem);
            let d = s.child_of(node, ns, rem.take(s.chunk() as int))->0;
            let n = s.shared(rem, d) as int;
            let w1 = s.walk(d, ns, rem.skip(n));
            &&& s.has(d)
            &&& s.nodes[d as int].ns == ns
            &&& 0 < n <= rem.len()
            &&& n == s.nodes[d as int].key.len()
            &&& s.aligned(rem.len() - n)
            &&& w == (Walk { chain: seq![d] + w1.chain, stop: None, used: (n + w1.used) as nat })
            &&& w1.stop is None
        }),
{
    let k = s.chunk() as int;
    topo::lemma_chunk(s);
    let d = s.child_of(node, ns, rem.take(k))->0;
    assert(s.named(node, ns, rem.take(k), d));
    topo::lemma_shared(s, rem, d);
    topo::lemma_aligned(s, rem.len() as int, s.shared(rem, d) as int);
}

/// A walk that no child continues goes, once a leaf holds the rest of the
/// query there, to its end.
pub proof fn lemma_walk_graft(s: Shape, node: NodeId, ns: u32, rem: Seq<i64>)
    requires
        s.wf(),
        s.has(node),
        node != ROOT ==> s.nodes[node as int].ns == ns,
        s.nodes.len() < NodeId::MAX,
        s.aligned(rem.len() as int),
        s.walk(node, ns, rem).stop is None,
        s.walk(node, ns, rem).used < rem.len(),
    ensures
        ({
            let w = s.walk(node, ns, rem);
            let end = if w.chain.len() == 0 {
                node
            } else {
                w.chain.last()
            };
            let t = s.graft(end, ns, rem.skip(w.used as int));
            t.wf() && t.walk(node, ns, rem) == (Walk {
                chain: w.chain.push(s.nodes.len() as NodeId),
                stop: None,
                used: rem.len(),
            })
        }),
    decreases rem.len(),
{
    let w = s.walk(node, ns, rem);
    let end = if w.chain.len() == 0 {
        node
    } else {
        w.chain.last()
    };
    let rest = rem.skip(w.used as int);
    let t = s.graft(end, ns, rest);
    let f = s.nodes.len() as NodeId;
    let k = s.chunk() as int;
    lemma_end(s, node, ns, rem);
    if s.child_of(node, ns, rem.take(k)) is None {
        assert(w == (Walk { chain: Seq::empty(), stop: None, used: 0 }));
        assert(rest =~= rem);
        lemma_graft_here(s, node, ns, rem);
        assert(seq![f] =~= w.chain.push(f));
    } else {
        let d = s.child_of(node, ns, rem.take(k))->0;
        lemma_first_step(s, node, ns, rem);
        let n = s.shared(rem, d) as int;
        let w1 = s.walk(d, ns, rem.skip(n));
        assert(w.chain.last() == (if w1.chain.len() == 0 {
            d
        } else {
            w1.chain.last()
        }));
        assert(rem.skip(n).skip(w1.used as int) =~= rest);
        lemma_walk_graft(s, d, ns, rem.skip(n));
        lemma_graft_step(s, t, node, ns, rem, t.walk(d, ns, rem.skip(n)));
        assert(seq![d] + w1.chain.push(f) =~= w.chain.push(f));
    }
}

/// Where a walk that no child continues ends, a leaf can hold the next part
/// of the query.
proof fn lemma_end_part(s: Shape, node: NodeId, ns: u32, rem: Seq<i64>, n: int)
    requires
        s.wf(),
        s.has(node),
        node != ROOT ==> s.nodes[node as int].ns == ns,
        s.nodes.len() < NodeId::MAX,
        s.aligned(rem.len() as int),
        s.walk(node, ns, rem).stop is None,
        s.walk(node, ns, rem).used < n <= rem.len(),
        s.aligned(n),
    ensures
        rem.len() >= s.chunk(),
        ({
            let w = s.walk(node, ns, rem);
            let end = if w.chain.len() == 0 {
                node
            } else {
                w.chain.last()
            };
            s.graft(end, ns, rem.subrange(w.used as int, n)).wf()
        }),
{
    let w = s.walk(node, ns, rem);
    let end = if w.chain.len() == 0 {
        node
    } else {
        w.chain.last()
    };
    let k = s.chunk() as int;
    let part = rem.subrange(w.used as int, n);
    topo::lemma_chunk(s);
    topo::lemma_walk(s, node, ns, rem);
    topo::lemma_aligned(s, n, w.used as int);
    vstd::arithmetic::div_mod::lemma_small_mod(0, s.chunk());
    topo::lemma_aligned(s, n, 0);
    topo::lemma_aligned(s, n - w.used, 0);
    if w.chain.len() > 0 {
        assert(s.nodes[w.chain[w.chain.len() - 1] as int].ns == ns);
    }
    assert(part.take(k) =~= rem.skip(w.used as int).take(k));
    topo::lemma_graft_wf(s, end, ns, part);
}

/// A query whose first part one new leaf holds.
proof fn lemma_graft_part_here(s: Shape, node: NodeId, ns: u32, rem: Seq<i64>, n: int)
    requires
        s.wf(),
        s.has(node),
        s.nodes.len() < NodeId::MAX,
        s.aligned(n),
        s.chunk() <= n <= rem.len(),
        s.graft(node, ns, rem.take(n)).wf(),
    ensures
        s.graft(node, ns, rem.take(n)).walk(node, ns, rem) == (Walk {
            chain: seq![s.nodes.len() as NodeId],
            stop: None,
            used: n as nat,
        }),
{
    let t = s.graft(node, ns, rem.take(n));
    let f = s.nodes.len() as NodeId;
    let k = s.chunk() as int;
    topo::lemma_chunk(s);
    assert(t.nodes[f as int].key == rem.take(n));
    assert(rem.take(n).take(k) =~= rem.take(k));
    assert(t.named(node, ns, rem.take(k), f));
    topo::lemma_child_of(t, node, ns, rem.take(k), f);
    lemma_shared_whole(t, rem, f);
    let rest = rem.skip(n);
    if rest.len() >= k {
        assert forall|c: NodeId| !t.named(f, ns, rest.take(k), c) by {
            if t.is_child(f, c) && c < s.nodes.len() {
                assert(t.nodes[c as int] == s.nodes[c as int]);
                assert(s.hangs(c as int));
            }
        }
    }
    assert(t.walk(f, ns, rest) == (Walk { chain: Seq::empty(), stop: None, used: 0 }));
    assert(seq![f] + Seq::<NodeId>::empty() =~= seq![f]);
}

/// A walk that no child continues comes, once a leaf holds the query there
/// up to `n`, to the end of that leaf.
pub proof fn lemma_walk_graft_part(s: Shape, node: NodeId, ns: u32, rem: Seq<i64>, n: int)
    requires
        s.wf(),
        s.has(node),
        node != ROOT ==> s.nodes[node as int].ns == ns,
        s.nodes.len() < NodeId::MAX,
        s.aligned(rem.len() as int),
        s.walk(node, ns, rem).stop is None,
        s.walk(node, ns, rem).used < n <= rem.len(),
        s.aligned(n),
    ensures
        ({
            let w = s.walk(node, ns, rem);
            let end = if w.chain.len() == 0 {
                node
            } else {
                w.chain.last()
            };
            let t = s.graft(end, ns, rem.subrange(w.used as int, n));
            t.wf() && t.walk(node, ns, rem) == (Walk {
                chain: w.chain.push(s.nodes.len() as NodeId),
                stop: None,
                used: n as nat,
            })
        }),
    decreases rem.len(),
{
    let w = s.walk(node, ns, rem);
    let end = if w.chain.len() == 0 {
        node
    } else {
        w.chain.last()
    };
    let part = rem.subrange(w.used as int, n);
    let t = s.graft(end, ns, part);
    let f = s.nodes.len() as NodeId;
    let k = s.chunk() as int;
    lemma_end_part(s, node, ns, rem, n);
    if s.child_of(node, ns, rem.take(k)) is None {
        assert(w == (Walk { chain: Seq::empty(), stop: None, used: 0 }));
        assert(part =~= rem.take(n));
        topo::lemma_chunk(s);
        vstd::arithmetic::div_mod::lemma_small_mod(0, s.chunk());
        topo::lemma_aligned(s, n, 0);
        lemma_graft_part_here(s, node, ns, rem, n);
        assert(seq![f] =~= w.chain.push(f));
    } else {
        let d = s.child_of(node, ns, rem.take(k))->0;
        lemma_first_step(s, node, ns, rem);
        let m = s.shared(rem, d) as int;
        let w1 = s.walk(d, ns, rem.skip(m));
        assert(w.chain.last() == (if w1.chain.len() == 0 {
            d
        } else {
            w1.chain.last()
        }));
        assert(rem.skip(m).subrange(w1.used as int, n - m) =~= part);
        assert(s.aligned(m)) by {
            topo::lemma_shared(s, rem, d);
        }
        topo::lemma_aligned(s, n, m);
        lemma_walk_graft_part(s, d, ns, rem.skip(m), n - m);
        lemma_graft_step(s, t, node, ns, rem, t.walk(d, ns, rem.skip(m)));
        assert(seq![d] + w1.chain.push(f) =~= w.chain.push(f));
    }
}

/// A walk to the end of a query goes on, in a child that holds what is added
/// to the query.
pub proof fn lemma_walk_on(s: Shape, node: NodeId, ns: u32, rem: Seq<i64>, more: Seq<i64>, c: NodeId)
    requires
        s.wf(),
        s.has(node),
        s.aligned(rem.len() as int),
        s.walk(node, ns, rem).stop is None,
        s.walk(node, ns, rem).used == rem.len(),
        ({
            let w = s.walk(node, ns, rem);
            let end = if w.chain.len() == 0 {
                node
            } else {
                w.chain.last()
            };
            s.is_child(end, c)
        }),
        s.nodes[c as int].ns == ns,
        s.nodes[c as int].key == more,
    ensures
        s.walk(node, ns, rem + more) == (Walk {
            chain: s.walk(node, ns, rem).chain.push(c),
            stop: None,
            used: rem.len() + more.len(),
        }),
    decreases rem.len(),
{
    let w = s.walk(node, ns, rem);
    let all = rem + more;
    let k = s.chunk() as int;
    topo::lemma_chunk(s);
    vstd::arithmetic::div_mod::lemma_small_mod(0, s.chunk());
    topo::lemma_aligned(s, rem.len() as int, 0);
    assert(s.hangs(c as int));
    topo::lemma_aligned(s, more.len() as int, 0);
    if rem.len() == 0 {
        assert(w.chain.len() == 0);
        assert(all =~= more);
        assert(s.named(node, ns, all.take(k), c));
        topo::lemma_child_of(s, node, ns, all.take(k), c);
        assert(all.take(more.len() as int) =~= more);
        lemma_shared_whole(s, all, c);
        let none = all.skip(more.len() as int);
        assert(none.len() == 0);
        assert(s.walk(c, ns, none) == (Walk { chain: Seq::empty(), stop: None, used: 0 }));
        assert(seq![c] + Seq::<NodeId>::empty() =~= w.chain.push(c));
    } else {
        assert(s.child_of(node, ns, rem.take(k)) is Some);
        lemma_first_step(s, node, ns, rem);
        let d = s.child_of(node, ns, rem.take(k))->0;
        let n = s.shared(rem, d) as int;
        let w1 = s.walk(d, ns, rem.skip(n));
        assert(s.named(node, ns, rem.take(k), d));
        topo::lemma_shared(s, rem, d);
        assert(s.nodes[d as int].key.take(n) =~= s.nodes[d as int].key);
        assert(all.take(k) =~= rem.take(k));
        assert(all.take(n) =~= rem.take(n));
        lemma_shared_whole(s, all, d);
        assert(all.skip(n) =~= rem.skip(n) + more);
        assert(w.chain.last() == (if w1.chain.len() == 0 {
            d
        } else {
            w1.chain.last()
        }));
        lemma_walk_on(s, d, ns, rem.skip(n), more, c);
        assert(seq![d] + w1.chain.push(c) =~= w.chain.push(c));
    }
}

/// A walk to the end of a query goes the same way after a leaf was added.
pub proof fn lemma_walk_keeps(s: Shape, t: Shape, node: NodeId, ns: u32, rem: Seq<i64>)
    requires
        s.wf(),
        t.wf(),
        s.has(node),
        s.aligned(rem.len() as int),
        t.page == s.page && t.unit == s.unit,
        s.nodes.len() <= t.nodes.len(),
        forall|i: int| 0 <= i < s.nodes.len() ==> #[trigger] t.nodes[i] == s.nodes[i],
        s.walk(node, ns, rem).stop is None,
        s.walk(node, ns, rem).used == rem.len(),
    ensures
        t.walk(node, ns, rem) == s.walk(node, ns, rem),
    decreases rem.len(),
{
    let k = s.chunk() as int;
    topo::lemma_chunk(s);
    vstd::arithmetic::div_mod::lemma_small_mod(0, s.chunk());
    topo::lemma_aligned(s, rem.len() as int, 0);
    if rem.len() > 0 {
        assert(s.child_of(node, ns, rem.take(k)) is Some);
        lemma_first_step(s, node, ns, rem);
        let d = s.child_of(node, ns, rem.take(k))->0;
        let n = s.shared(rem, d) as int;
        lemma_walk_keeps(s, t, d, ns, rem.skip(n));
        lemma_graft_step(s, t, node, ns, rem, t.walk(d, ns, rem.skip(n)));
    }
}

/// The shape once a key whose walk from `start` is `w` has been added: the
/// node it matches in part is cut, and the rest of it is a new leaf.
pub open spec fn shape_with(s: Shape, start: NodeId, w: Walk, ns: u32, flat: Seq<i64>) -> Shape {
    let t = match w.stop {
        Some((c, m)) => s.split(c, m as int),
        None => s,
    };
    let end = match w.stop {
        Some((c, m)) => s.nodes.len() as NodeId,
        None => query::end_from(start, w.chain),
    };
    if w.used < flat.len() {
        t.graft(end, ns, flat.skip(w.used as int))
    } else {
        t
    }
}

/// The nodes that the key passes once it has been added.
pub open spec fn chain_with(s: Shape, w: Walk, flat: Seq<i64>) -> Seq<NodeId> {
    let n = s.nodes.len();
    let chain = match w.stop {
        Some((c, m)) => w.chain.push(n as NodeId),
        None => w.chain,
    };
    if w.used < flat.len() {
        let leaf: int = if w.stop is Some {
            n as int + 1
        } else {
            n as int
        };
        chain.push(leaf as NodeId)
    } else {
        chain
    }
}

/// How long a query is, and how much of it is in the tree.
pub proof fn lemma_lengths(f: Frame, key: RadixKey)
    requires
        f.wf(),
    ensures
        0 <= f.prefix_len(key) <= f.units(key),
        f.walk(key).used <= f.flat(key).len(),
        f.walk(key).used < f.flat(key).len() ==> f.prefix_len(key) < f.units(key),
        f.walk(key).used == f.flat(key).len() ==> f.prefix_len(key) == f.units(key),
        f.flat(key).len() > 0 ==> f.units(key) > 0,
        f.flat(key).len() == 0 ==> f.units(key) == 0,
{
    query::lemma_query(f, key);
    chains::lemma_key_tokens(f, key);
    tree_model::lemma_halves(f.flat(key).len() as int, f.walk(key).used as int, f.shape.unit as int);
    tree_model::lemma_halves(f.flat(key).len() as int, f.flat(key).len() as int, f.shape.unit as int);
}

/// The nodes that a key passes, once the node it matches in part is cut,
/// hold the tokens of it that are in the tree.
pub proof fn lemma_cut_tokens(f: Frame, key: RadixKey)
    requires
        f.wf(),
    ensures
        ({
            let w = f.walk(key);
            match w.stop {
                Some((c, m)) => {
                    let ids = w.chain.push(f.shape.nodes.len() as NodeId);
                    f.shape.nodes.len() <= NodeId::MAX ==> chains::tokens(
                        f.shape.split(c, m as int),
                        ids,
                        ids.len() as int,
                    ) == f.prefix_len(key)
                },
                None => chains::tokens(f.shape, w.chain, w.chain.len() as int) == f.prefix_len(key),
            }
        }),
{
    let w = f.walk(key);
    chains::lemma_key_tokens(f, key);
    if let Some((c, m)) = w.stop {
        if f.shape.nodes.len() <= NodeId::MAX {
            let t = f.shape.split(c, m as int);
            let g = f.shape.nodes.len() as NodeId;
            let ids = w.chain.push(g);
            let n = w.chain.len() as int;
            assert forall|j: int| 0 <= j < n implies ids[j] == (#[trigger] w.chain[j]) && t.units(w.chain[j] as int)
                == f.shape.units(w.chain[j] as int) by {
                query::lemma_query(f, key);
                assert(w.chain.contains(w.chain[j]));
            }
            assert(t.units(g as int) == m as int / f.shape.unit as int) by {
                query::lemma_query(f, key);
            }
            chains::lemma_tokens_alike(f.shape, t, w.chain, ids, n);
            assert(ids[n] == g);
            assert(chains::tokens(t, ids, n + 1) == chains::tokens(t, ids, n) + t.units(ids[n] as int));
        }
    }
}

/// A key that has been added is found whole.
pub proof fn law_added_key_is_found(f: Frame, g: Frame, key: RadixKey)
    requires
        f.wf(),
        f.fits(key),
        f.names.len() < u32::MAX,
        f.shape.nodes.len() + 2 <= NodeId::MAX,
        g == (Frame {
            shape: shape_with(f.shape, ROOT, f.walk(key), f.ns_of(key), f.flat(key)),
            names: f.names_with(key),
            is_eagle: f.is_eagle,
        }),
    ensures
        g.flat(key) == f.flat(key),
        g.ns_of(key) == f.ns_of(key),
        g.names_with(key) == g.names,
        g.walk(key) == (Walk {
            chain: chain_with(f.shape, f.walk(key), f.flat(key)),
            stop: None,
            used: f.flat(key).len(),
        }),
{
    let s = f.shape;
    let w = f.walk(key);
    let ns = f.ns_of(key);
    let flat = f.flat(key);
    query::lemma_query(f, key);
    assert(g.shape.page == s.page && g.shape.unit == s.unit);
    let table = ns::interned(f.names, key.namespace()).0;
    ns::law_namespaces_are_stable(f.names, key.namespace(), key.namespace());
    lemma_added(s, ROOT, ns, flat);
}

/// A walk that is taken again, once the node it stopped in is cut there,
/// comes past the same nodes, the front part last.
pub proof fn lemma_walk_again(f: Frame, g: Frame, key: RadixKey)
    requires
        f.wf(),
        f.names.len() < u32::MAX,
        f.shape.nodes.len() < NodeId::MAX,
        g.shape == (match f.walk(key).stop {
            Some((c, m)) => f.shape.split(c, m as int),
            None => f.shape,
        }),
        g.names == f.names_with(key),
        g.is_eagle == f.is_eagle,
    ensures
        g.flat(key) == f.flat(key),
        g.names_with(key) == g.names,
        g.prefix_len(key) == f.prefix_len(key),
        g.walk(key) == (Walk {
            chain: match f.walk(key).stop {
                Some((c, m)) => f.walk(key).chain.push(f.shape.nodes.len() as NodeId),
                None => f.walk(key).chain,
            },
            stop: None,
            used: f.walk(key).used,
        }),
{
    query::lemma_query(f, key);
    ns::law_namespaces_are_stable(f.names, key.namespace(), key.namespace());
    if f.walk(key).stop is Some {
        lemma_walk_split(f.shape, ROOT, f.ns_of(key), f.flat(key));
    }
}

/// A run of elements that has been added below `start` is found whole.
pub proof fn lemma_added(s: Shape, start: NodeId, ns: u32, flat: Seq<i64>)
    requires
        s.wf(),
        s.has(start),
        s.nodes[start as int].attached,
        start != ROOT ==> s.nodes[start as int].ns == ns,
        s.aligned(flat.len() as int),
        s.nodes.len() + 2 <= NodeId::MAX,
    ensures
        ({
            let w = s.walk(start, ns, flat);
            let t = shape_with(s, start, w, ns, flat);
            &&& t.wf()
            &&& t.walk(start, ns, flat) == (Walk {
                chain: chain_with(s, w, flat),
                stop: None,
                used: flat.len(),
            })
        }),
{
    let w = s.walk(start, ns, flat);
    topo::lemma_walk(s, start, ns, flat);
    match w.stop {
        Some((c, m)) => {
            let t = s.split(c, m as int);
            topo::lemma_split_wf(s, c, m as int);
            lemma_walk_split(s, start, ns, flat);
            if w.used < flat.len() {
                lemma_walk_graft(t, start, ns, flat);
            }
        },
        None => {
            if w.used < flat.len() {
                lemma_walk_graft(s, start, ns, flat);
            }
        },
    }
}

} // verus!
