//! What a tree holds under a query: the runs along the query's path.
//!
//! `content` reads a shape with one run per node. It is the same before and
//! after a split, and a new leaf adds to it exactly where the leaf's path
//! goes on from what was held.

use crate::seqs;
use crate::topo;
use crate::topo::{NodeId, Shape, ROOT};
use vstd::prelude::*;

verus! {

/// The runs `vals` along the path of the query `rem` from `node`, as far as
/// the tree follows it: one index per matched unit.
pub open spec fn content(
    s: Shape,
    vals: Seq<Seq<i64>>,
    node: NodeId,
    ns: u32,
    rem: Seq<i64>,
) -> Seq<i64>
    decreases rem.len(),
{
    if rem.len() < s.chunk() {
        Seq::empty()
    } else {
        match s.child_of(node, ns, rem.take(s.chunk() as int)) {
            None => Seq::empty(),
            Some(c) => {
                let m = s.shared(rem, c);
                if m == 0 || m > rem.len() {
                    Seq::empty()
                } else if m < s.nodes[c as int].key.len() {
                    vals[c as int].take(m as int / s.unit as int)
                } else {
                    vals[c as int] + content(s, vals, c, ns, rem.skip(m as int))
                }
            },
        }
    }
}

/// Every node below the root has one index per unit of its key.
pub open spec fn parallel(s: Shape, vals: Seq<Seq<i64>>) -> bool {
    &&& vals.len() == s.nodes.len()
    &&& forall|i: int| 0 < i < vals.len() && s.nodes[i].attached ==> (#[trigger] vals[i]).len() == s.units(i)
}

/// As many indices are held as units are matched.
pub proof fn lemma_content_len(s: Shape, vals: Seq<Seq<i64>>, node: NodeId, ns: u32, rem: Seq<i64>)
    requires
        s.wf(),
        s.has(node),
        parallel(s, vals),
        s.aligned(rem.len() as int),
    ensures
        content(s, vals, node, ns, rem).len() == s.walk(node, ns, rem).used as int / s.unit as int,
        s.walk(node, ns, rem).used as int % s.unit as int == 0,
        s.walk(node, ns, rem).used <= rem.len(),
    decreases rem.len(),
{
    topo::lemma_chunk(s);
    vstd::arithmetic::div_mod::lemma_small_mod(0, s.chunk());
    let k = s.chunk() as int;
    if rem.len() >= k {
        if let Some(c) = s.child_of(node, ns, rem.take(k)) {
            assert(s.named(node, ns, rem.take(k), c));
            topo::lemma_shared(s, rem, c);
            let m = s.shared(rem, c) as int;
            let len = s.nodes[c as int].key.len() as int;
            assert(s.hangs(c as int));
            topo::lemma_aligned(s, len, m);
            topo::lemma_aligned(s, m, 0);
            topo::lemma_aligned(s, rem.len() as int, m);
            lemma_units_split(len, m, s.unit as int);
            assert(vals[c as int].len() == s.units(c as int));
            if m == len {
                lemma_content_len(s, vals, c, ns, rem.skip(m));
                let u = s.walk(c, ns, rem.skip(m)).used as int;
                lemma_units_sum(m, u, s.unit as int);
            }
        }
    }
}

/// Whole units on both sides of a cut.
pub proof fn lemma_units_split(len: int, m: int, unit: int)
    requires
        unit == 1 || unit == 2,
        0 <= m <= len,
        len % unit == 0,
        m % unit == 0,
    ensures
        (len - m) / unit == len / unit - m / unit,
        0 <= m / unit <= len / unit,
        (len - m) % unit == 0,
        m > 0 ==> m / unit > 0,
        m < len ==> m / unit < len / unit,
        (m / unit) * unit == m,
{
    if unit == 1 {
    } else {
    }
}

/// Whole units add up.
pub proof fn lemma_units_sum(a: int, b: int, unit: int)
    requires
        unit == 1 || unit == 2,
        0 <= a,
        0 <= b,
        a % unit == 0,
        b % unit == 0,
    ensures
        (a + b) / unit == a / unit + b / unit,
        (a + b) % unit == 0,
{
    if unit == 1 {
    } else {
    }
}

/// Common prefixes across a cut of one side.
proof fn lemma_lcp_cut(rem: Seq<i64>, key: Seq<i64>, m: int)
    requires
        0 <= m <= key.len(),
    ensures
        seqs::lcp(rem, key.take(m)) == (if seqs::lcp(rem, key) < m {
            seqs::lcp(rem, key)
        } else {
            m as nat
        }),
        seqs::lcp(rem, key) >= m ==> seqs::lcp(rem.skip(m), key.skip(m)) == seqs::lcp(rem, key) - m,
{
    let l = seqs::lcp(rem, key);
    seqs::lemma_lcp(rem, key);
    let n: nat = if l < m { l } else { m as nat };
    seqs::lemma_lcp_is(rem, key.take(m), n);
    if l >= m {
        let r = rem.skip(m);
        let t = key.skip(m);
        assert forall|i: int| 0 <= i < l - m implies r[i] == t[i] by {
            assert(rem[i + m] == key[i + m]);
        }
        seqs::lemma_lcp_is(r, t, (l - m) as nat);
    }
}

/// Rounding down to pages across a cut on a page boundary.
proof fn lemma_floor_cut(l: nat, m: nat, k: nat)
    requires
        k >= 1,
        m % k == 0,
    ensures
        l % k <= l,
        l < m ==> (l - l % k) < m,
        l >= m ==> (l - l % k) >= m,
        l >= m ==> ((l - m) - ((l - m) as nat) % k) == (l - l % k) - m,
        m - m % k == m,
{
    vstd::arithmetic::div_mod::lemma_mod_decreases(l, k);
    vstd::arithmetic::div_mod::lemma_fundamental_div_mod(l as int, k as int);
    vstd::arithmetic::div_mod::lemma_fundamental_div_mod(m as int, k as int);
    if l >= m {
        vstd::arithmetic::div_mod::lemma_sub_mod_noop(l as int, m as int, k as int);
        assert(((l - m) as int) % (k as int) == (l % k) as int) by {
            vstd::arithmetic::div_mod::lemma_mod_twice(l as int, k as int);
        }
        vstd::arithmetic::div_mod::lemma_mod_decreases((l - m) as nat, k);
    }
}

/// A split leaves the content as it was, wherever the query starts.
#[verifier::rlimit(40)]
#[verifier::spinoff_prover]
pub proof fn lemma_split_content(
    s: Shape,
    vals: Seq<Seq<i64>>,
    c: NodeId,
    m: int,
    node: NodeId,
    ns: u32,
    rem: Seq<i64>,
)
    requires
        s.wf(),
        parallel(s, vals),
        0 < c < s.nodes.len() < NodeId::MAX,
        s.nodes[c as int].attached,
        0 < m < s.nodes[c as int].key.len(),
        s.aligned(m),
        s.has(node),
        s.aligned(rem.len() as int),
    ensures
        ({
            let u = m / s.unit as int;
            let v = vals[c as int];
            content(
                s.split(c, m),
                vals.update(c as int, v.skip(u)).push(v.take(u)),
                node,
                ns,
                rem,
            ) == content(s, vals, node, ns, rem)
        }),
    decreases rem.len(),
{
    let t = s.split(c, m);
    let u = m / s.unit as int;
    let v = vals[c as int];
    let tv = vals.update(c as int, v.skip(u)).push(v.take(u));
    let k = s.chunk() as int;
    let f = s.nodes.len() as NodeId;
    let gp = s.nodes[c as int].parent;
    let key = s.nodes[c as int].key;
    topo::lemma_chunk(s);
    topo::lemma_split_wf(s, c, m);
    vstd::arithmetic::div_mod::lemma_small_mod(0, s.chunk());
    topo::lemma_path_grows(s, c);
    topo::lemma_aligned(s, key.len() as int, m);
    topo::lemma_aligned(s, m, 0);
    assert(key.take(m).take(k) =~= key.take(k));
    lemma_units_split(key.len() as int, m, s.unit as int);
    assert(v.len() == s.units(c as int));
    if rem.len() >= k {
        let head = rem.take(k);
        match s.child_of(node, ns, head) {
            None => {
                assert forall|d: NodeId| !t.named(node, ns, head, d) by {
                    if t.named(node, ns, head, d) {
                        if d == f {
                            assert(s.named(node, ns, head, c));
                        } else if d == c {
                            assert(node != f);
                        } else {
                            assert(s.named(node, ns, head, d));
                        }
                    }
                }
                assert(t.child_of(node, ns, head) is None);
            },
            Some(d) => {
                assert(s.named(node, ns, head, d));
                topo::lemma_shared(s, rem, d);
                let m1 = s.shared(rem, d) as int;
                topo::lemma_aligned(s, rem.len() as int, m1);
                if d != c {
                    assert(t.named(node, ns, head, d));
                    topo::lemma_child_of(t, node, ns, head, d);
                    assert(t.shared(rem, d) == m1);
                    if m1 == s.nodes[d as int].key.len() {
                        lemma_split_content(s, vals, c, m, d, ns, rem.skip(m1));
                    }
                } else {
                    assert(t.named(node, ns, head, f));
                    topo::lemma_child_of(t, node, ns, head, f);
                    let l = seqs::lcp(rem, key);
                    seqs::lemma_lcp(rem, key);
                    lemma_lcp_cut(rem, key, m);
                    lemma_floor_cut(l, m as nat, s.chunk());
                    if l < m {
                        assert(t.shared(rem, f) == m1);
                        topo::lemma_aligned(s, m1, 0);
                        lemma_units_split(m, m1, s.unit as int);
                        assert(v.take(u).take(m1 / s.unit as int) =~= v.take(m1 / s.unit as int));
                    } else {
                        assert(t.shared(rem, f) == m);
                        let r = rem.skip(m);
                        topo::lemma_aligned(s, rem.len() as int, m);
                        let tc = content(t, tv, f, ns, r);
                        assert(content(t, tv, node, ns, rem) == v.take(u) + tc);
                        if m1 == m {
                            // The query leaves the key where it is cut.
                            if r.len() >= k {
                                assert(r.take(k) != key.skip(m).take(k));
                                crate::tree_model::lemma_front_children(s, c, m, ns, r.take(k));
                            }
                            assert(tc =~= Seq::<i64>::empty());
                            assert(v.take(u) + tc =~= v.take(u));
                        } else {
                            topo::lemma_aligned(s, m1, m);
                            lemma_units_split(m1, m, s.unit as int);
                            assert(r.take(k) =~= key.skip(m).take(k)) by {
                                assert(rem.take(m1) =~= key.take(m1));
                                assert forall|i: int| 0 <= i < k implies r[i] == key.skip(m)[i] by {
                                    assert(rem.take(m1)[i + m] == key.take(m1)[i + m]);
                                }
                            }
                            assert(t.named(f, ns, r.take(k), c));
                            topo::lemma_child_of(t, f, ns, r.take(k), c);
                            assert(t.shared(r, c) == m1 - m);
                            assert(r.skip(m1 - m) =~= rem.skip(m1));
                            let u1 = m1 / s.unit as int;
                            if m1 < key.len() {
                                lemma_units_split(key.len() as int, m1, s.unit as int);
                                assert(tc == v.skip(u).take(u1 - u));
                                assert(v.take(u) + v.skip(u).take(u1 - u) =~= v.take(u1));
                            } else {
                                lemma_split_content(s, vals, c, m, c, ns, rem.skip(m1));
                                let rest = content(s, vals, c, ns, rem.skip(m1));
                                assert(tc == v.skip(u) + rest);
                                assert(v.take(u) + (v.skip(u) + rest) =~= v + rest);
                            }
                        }
                    }
                }
            },
        }
    }
}

/// A new leaf leaves what is held in other namespaces as it was.
pub proof fn lemma_graft_other_ns(
    s: Shape,
    vals: Seq<Seq<i64>>,
    p: NodeId,
    ns: u32,
    key: Seq<i64>,
    val: Seq<i64>,
    node: NodeId,
    ns2: u32,
    rem: Seq<i64>,
)
    requires
        s.wf(),
        parallel(s, vals),
        s.nodes.len() < NodeId::MAX,
        s.has(p),
        s.has(node),
        key.len() > 0,
        s.aligned(key.len() as int),
        p != ROOT ==> s.nodes[p as int].ns == ns,
        s.child_of(p, ns, key.take(s.chunk() as int)) is None,
        ns2 != ns,
    ensures
        content(s.graft(p, ns, key), vals.push(val), node, ns2, rem) == content(s, vals, node, ns2, rem),
    decreases rem.len(),
{
    let t = s.graft(p, ns, key);
    let k = s.chunk() as int;
    let f = s.nodes.len() as NodeId;
    topo::lemma_graft_wf(s, p, ns, key);
    if rem.len() >= k {
        let head = rem.take(k);
        match s.child_of(node, ns2, head) {
            None => {
                assert forall|d: NodeId| !t.named(node, ns2, head, d) by {
                    if t.named(node, ns2, head, d) {
                        assert(s.named(node, ns2, head, d));
                    }
                }
            },
            Some(d) => {
                assert(s.named(node, ns2, head, d));
                assert(t.named(node, ns2, head, d));
                topo::lemma_child_of(t, node, ns2, head, d);
                let m1 = s.shared(rem, d) as int;
                if 0 < m1 <= rem.len() && m1 >= s.nodes[d as int].key.len() {
                    lemma_graft_other_ns(s, vals, p, ns, key, val, d, ns2, rem.skip(m1));
                }
            },
        }
    }
}

/// What a new leaf below `p` adds to a query that stands at `end` with
/// `rest` left over.
pub open spec fn added(
    s: Shape,
    p: NodeId,
    key: Seq<i64>,
    val: Seq<i64>,
    end: NodeId,
    rest: Seq<i64>,
) -> Seq<i64> {
    if end == p && rest.len() >= s.chunk() && rest.take(s.chunk() as int) == key.take(s.chunk() as int) {
        val.take((seqs::lcp(rest, key) - seqs::lcp(rest, key) % s.chunk()) as int / s.unit as int)
    } else {
        Seq::empty()
    }
}

/// The children of a node after a graft: the old ones, and the new leaf below its parent.
proof fn lemma_graft_child(s: Shape, p: NodeId, ns: u32, key: Seq<i64>, node: NodeId, head: Seq<i64>)
    requires
        s.wf(),
        s.nodes.len() < NodeId::MAX,
        s.has(p),
        s.has(node),
        key.len() > 0,
        s.aligned(key.len() as int),
        p != ROOT ==> s.nodes[p as int].ns == ns,
        s.child_of(p, ns, key.take(s.chunk() as int)) is None,
    ensures
        s.graft(p, ns, key).child_of(node, ns, head) == (match s.child_of(node, ns, head) {
            Some(d) => Some(d),
            None => if node == p && head == key.take(s.chunk() as int) {
                Some(s.nodes.len() as NodeId)
            } else {
                None
            },
        }),
        s.graft(p, ns, key).wf(),
{
    let t = s.graft(p, ns, key);
    let k = s.chunk() as int;
    let f = s.nodes.len() as NodeId;
    topo::lemma_graft_wf(s, p, ns, key);
    match s.child_of(node, ns, head) {
        Some(d) => {
            assert(s.named(node, ns, head, d));
            assert(t.named(node, ns, head, d));
            topo::lemma_child_of(t, node, ns, head, d);
        },
        None => {
            if node == p && head == key.take(k) {
                assert(t.named(node, ns, head, f));
                topo::lemma_child_of(t, node, ns, head, f);
            } else {
                assert forall|d: NodeId| !t.named(node, ns, head, d) by {
                    if t.named(node, ns, head, d) && d != f {
                        assert(s.named(node, ns, head, d));
                    }
                }
            }
        },
    }
}

/// A query that leaves the tree at the new leaf's parent goes on into the
/// leaf; every other query of the namespace finds what it found.
pub proof fn lemma_graft_content(
    s: Shape,
    vals: Seq<Seq<i64>>,
    p: NodeId,
    ns: u32,
    key: Seq<i64>,
    val: Seq<i64>,
    node: NodeId,
    rem: Seq<i64>,
)
    requires
        s.wf(),
        vals.len() == s.nodes.len(),
        s.nodes.len() < NodeId::MAX,
        s.has(p),
        s.has(node),
        key.len() > 0,
        s.aligned(key.len() as int),
        val.len() == key.len() as int / s.unit as int,
        p != ROOT ==> s.nodes[p as int].ns == ns,
        s.child_of(p, ns, key.take(s.chunk() as int)) is None,
        s.aligned(rem.len() as int),
    ensures
        ({
            let w = s.walk(node, ns, rem);
            let end = if w.chain.len() == 0 { node } else { w.chain.last() };
            let more = if w.stop is None {
                added(s, p, key, val, end, rem.skip(w.used as int))
            } else {
                Seq::empty()
            };
            content(s.graft(p, ns, key), vals.push(val), node, ns, rem) == content(s, vals, node, ns, rem)
                + more
        }),
    decreases rem.len(), 1int,
{
    let t = s.graft(p, ns, key);
    let tv = vals.push(val);
    let k = s.chunk() as int;
    let f = s.nodes.len() as NodeId;
    let w = s.walk(node, ns, rem);
    let none = Seq::<i64>::empty();
    topo::lemma_chunk(s);
    assert(rem.skip(0) =~= rem);
    assert(none + none =~= none);
    if rem.len() >= k {
        let head = rem.take(k);
        lemma_graft_child(s, p, ns, key, node, head);
        match s.child_of(node, ns, head) {
            None => {
                if node == p && head == key.take(k) {
                    topo::lemma_shared(t, rem, f);
                    let m = t.shared(rem, f) as int;
                    if m == key.len() {
                        lemma_graft_leaf_is_last(s, p, ns, key, rem.skip(m), tv);
                        assert(val.take(m / s.unit as int) =~= val);
                        assert(val + none =~= val);
                    }
                    let got = val.take(m / s.unit as int);
                    assert(none + got =~= got);
                    vstd::arithmetic::div_mod::lemma_mod_decreases(seqs::lcp(rem, key), s.chunk());
                }
            },
            Some(d) => {
                assert(s.named(node, ns, head, d));
                topo::lemma_shared(s, rem, d);
                let m1 = s.shared(rem, d) as int;
                assert(t.shared(rem, d) == m1);
                if m1 == s.nodes[d as int].key.len() {
                    lemma_graft_content_step(s, vals, p, ns, key, val, node, rem, d);
                } else {
                    let a = content(s, vals, node, ns, rem);
                    assert(a + none =~= a);
                }
            },
        }
    }
}

/// `lemma_graft_content` where the query passes the child `d` whole.
#[verifier::spinoff_prover]
#[verifier::rlimit(60)]
proof fn lemma_graft_content_step(
    s: Shape,
    vals: Seq<Seq<i64>>,
    p: NodeId,
    ns: u32,
    key: Seq<i64>,
    val: Seq<i64>,
    node: NodeId,
    rem: Seq<i64>,
    d: NodeId,
)
    requires
        s.wf(),
        vals.len() == s.nodes.len(),
        s.nodes.len() < NodeId::MAX,
        s.has(p),
        s.has(node),
        key.len() > 0,
        s.aligned(key.len() as int),
        val.len() == key.len() as int / s.unit as int,
        p != ROOT ==> s.nodes[p as int].ns == ns,
        s.child_of(p, ns, key.take(s.chunk() as int)) is None,
        s.aligned(rem.len() as int),
        rem.len() >= s.chunk(),
        s.child_of(node, ns, rem.take(s.chunk() as int)) == Some(d),
        s.named(node, ns, rem.take(s.chunk() as int), d),
        s.shared(rem, d) == s.nodes[d as int].key.len(),
    ensures
        ({
            let w = s.walk(node, ns, rem);
            let end = if w.chain.len() == 0 { node } else { w.chain.last() };
            let more = if w.stop is None {
                added(s, p, key, val, end, rem.skip(w.used as int))
            } else {
                Seq::empty()
            };
            content(s.graft(p, ns, key), vals.push(val), node, ns, rem) == content(s, vals, node, ns, rem)
                + more
        }),
    decreases rem.len(), 0int,
{
    let t = s.graft(p, ns, key);
    let tv = vals.push(val);
    let w = s.walk(node, ns, rem);
    let m1 = s.shared(rem, d) as int;
    lemma_graft_child(s, p, ns, key, node, rem.take(s.chunk() as int));
    topo::lemma_shared(s, rem, d);
    assert(t.shared(rem, d) == m1);
    topo::lemma_chunk(s);
    topo::lemma_aligned(s, rem.len() as int, m1);
    lemma_graft_content(s, vals, p, ns, key, val, d, rem.skip(m1));
    topo::lemma_walk_chain(s, d, ns, rem.skip(m1));
    let w1 = s.walk(d, ns, rem.skip(m1));
    assert(w.chain == seq![d] + w1.chain);
    let end1 = if w1.chain.len() == 0 { d } else { w1.chain.last() };
    assert(w.chain.last() == end1);
    assert(rem.skip(m1).skip(w1.used as int) =~= rem.skip(w.used as int));
    let a = content(s, vals, d, ns, rem.skip(m1));
    let more = if w1.stop is None {
        added(s, p, key, val, end1, rem.skip(m1).skip(w1.used as int))
    } else {
        Seq::empty()
    };
    assert(vals[d as int] + (a + more) =~= vals[d as int] + a + more);
}

/// The new leaf has no children.
proof fn lemma_graft_leaf_is_last(
    s: Shape,
    p: NodeId,
    ns: u32,
    key: Seq<i64>,
    rem: Seq<i64>,
    tv: Seq<Seq<i64>>,
)
    requires
        s.wf(),
        s.has(p),
        s.nodes.len() < NodeId::MAX,
    ensures
        content(s.graft(p, ns, key), tv, s.nodes.len() as NodeId, ns, rem) == Seq::<i64>::empty(),
{
    let t = s.graft(p, ns, key);
    let f = s.nodes.len() as NodeId;
    let head = rem.take(s.chunk() as int);
    assert forall|d: NodeId| !t.named(f, ns, head, d) by {
        if t.named(f, ns, head, d) && d != f {
            assert(s.hangs(d as int));
        }
    }
}

} // verus!
