//! What holds of the base tree as a whole.
//!
//! Each law is stated over `RadixState` and the functions that the
//! contracts of `RadixTree` use.

use crate::content;
use crate::key::RadixKey;
use crate::ns;
use crate::seqs;
use crate::topo;
use crate::topo::{NodeId, Shape, ROOT};
use crate::tree_model;
use crate::tree_model::{NodeState, RadixState};
use vstd::prelude::*;

verus! {

/// The runs of the nodes; an evicted node has none.
pub open spec fn runs(st: RadixState) -> Seq<Seq<i64>> {
    Seq::new(
        st.nodes.len(),
        |i: int|
            match st.nodes[i].value {
                Some(v) => v,
                None => Seq::empty(),
            },
    )
}

proof fn lemma_runs_parallel(st: RadixState)
    requires
        st.wf(),
    ensures
        content::parallel(st.shape, runs(st)),
{
    assert forall|i: int| 0 < i < runs(st).len() && st.shape.nodes[i].attached implies (#[trigger] runs(st)[i]).len()
        == st.shape.units(i) by {
        assert(st.node_ok(i));
    }
}

/// Values gathered from the front.
proof fn lemma_gathered_front(nodes: Seq<NodeState>, c: NodeId, rest: Seq<NodeId>)
    ensures
        tree_model::gathered(nodes, seq![c] + rest) == nodes[c as int].value->0 + tree_model::gathered(nodes, rest),
    decreases rest.len(),
{
    let v = nodes[c as int].value->0;
    if rest.len() == 0 {
        assert((seq![c] + rest).drop_last() =~= Seq::<NodeId>::empty());
        assert(seq![c] + rest =~= seq![c]);
        reveal_with_fuel(tree_model::gathered, 2);
        assert(Seq::<i64>::empty() + v =~= v);
        assert(v + Seq::<i64>::empty() =~= v);
    } else {
        lemma_gathered_front(nodes, c, rest.drop_last());
        assert((seq![c] + rest).drop_last() =~= seq![c] + rest.drop_last());
        assert((seq![c] + rest).last() == rest.last());
        let a = tree_model::gathered(nodes, rest.drop_last());
        let b = nodes[rest.last() as int].value->0;
        assert((v + a) + b =~= v + (a + b));
    }
}

proof fn lemma_gathered_is_content(st: RadixState, node: NodeId, ns: u32, rem: Seq<i64>)
    requires
        st.wf(),
        st.shape.has(node),
        st.shape.aligned(rem.len() as int),
    ensures
        ({
            let w = st.shape.walk(node, ns, rem);
            let whole = tree_model::gathered(st.nodes, w.chain);
            content::content(st.shape, runs(st), node, ns, rem) == (match w.stop {
                None => whole,
                Some((c, m)) => whole + st.nodes[c as int].value->0.take(m as int / st.shape.unit as int),
            })
        }),
    decreases rem.len(),
{
    let s = st.shape;
    let k = s.chunk() as int;
    let w = s.walk(node, ns, rem);
    let none = Seq::<i64>::empty();
    topo::lemma_chunk(s);
    if rem.len() >= k {
        if let Some(c) = s.child_of(node, ns, rem.take(k)) {
            assert(s.named(node, ns, rem.take(k), c));
            assert(st.node_ok(c as int));
            topo::lemma_shared(s, rem, c);
            let m = s.shared(rem, c) as int;
            let v = st.nodes[c as int].value->0;
            if m == s.nodes[c as int].key.len() {
                topo::lemma_aligned(s, rem.len() as int, m);
                lemma_gathered_is_content(st, c, ns, rem.skip(m));
                let w1 = s.walk(c, ns, rem.skip(m));
                assert(w.chain == seq![c] + w1.chain);
                lemma_gathered_front(st.nodes, c, w1.chain);
                if let Some((d, n)) = w1.stop {
                    let a = tree_model::gathered(st.nodes, w1.chain);
                    let b = st.nodes[d as int].value->0.take(n as int / s.unit as int);
                    assert((v + a) + b =~= v + (a + b));
                }
            } else {
                assert(w.chain =~= Seq::<NodeId>::empty());
                assert(none + v.take(m / s.unit as int) =~= v.take(m / s.unit as int));
            }
        } else {
            assert(w.chain =~= Seq::<NodeId>::empty());
        }
    } else {
        assert(w.chain =~= Seq::<NodeId>::empty());
    }
}

/// What a match returns is the content under the query's path.
pub proof fn lemma_cached_is_content(st: RadixState, key: RadixKey)
    requires
        st.wf(),
    ensures
        st.fits(key) ==> st.cached(key) == content::content(
            st.shape,
            runs(st),
            ROOT,
            st.ns_of(key),
            st.flat(key),
        ),
        !st.fits(key) ==> st.cached(key) == Seq::<i64>::empty(),
{
    tree_model::lemma_flat(st, key);
    if st.fits(key) {
        lemma_gathered_is_content(st, ROOT, st.ns_of(key), st.flat(key));
    }
}

/// A match returns one index per matched token, in whole pages, and never
/// more than the key has.
pub proof fn law_match_is_page_aligned(st: RadixState, key: RadixKey)
    requires
        st.wf(),
    ensures
        st.cached(key).len() == st.prefix_len(key),
        st.cached(key).len() * st.shape.unit <= st.flat(key).len(),
        st.shape.aligned((st.cached(key).len() * st.shape.unit) as int),
{
    tree_model::lemma_query(st, key);
    lemma_cached_is_content(st, key);
    lemma_runs_parallel(st);
    if st.fits(key) {
        content::lemma_content_len(st.shape, runs(st), ROOT, st.ns_of(key), st.flat(key));
    }
    content::lemma_units_split(st.walk(key).used as int, st.walk(key).used as int, st.shape.unit as int);
}

/// Nothing is held in a namespace that no node is in.
proof fn lemma_unused_ns(s: Shape, vals: Seq<Seq<i64>>, node: NodeId, ns: u32, rem: Seq<i64>)
    requires
        forall|i: int| 0 < i < s.nodes.len() ==> (#[trigger] s.nodes[i]).ns != ns,
    ensures
        content::content(s, vals, node, ns, rem) == Seq::<i64>::empty(),
{
    if rem.len() >= s.chunk() {
        let head = rem.take(s.chunk() as int);
        assert forall|c: NodeId| !s.named(node, ns, head, c) by {
            if s.named(node, ns, head, c) {
                assert(s.nodes[c as int].ns == ns);
            }
        }
    }
}

/// Interning one more name changes no answer.
proof fn lemma_names_grow(st: RadixState, t: RadixState, name: ns::Names, key: RadixKey)
    requires
        st.wf(),
        t.wf(),
        st.names.len() < u32::MAX,
        t.names == ns::interned(st.names, name).0,
        t.names.len() < u32::MAX,
        t.shape.page == st.shape.page,
        t.is_eagle == st.is_eagle,
        key.namespace() == name || forall|i: int| 0 < i < t.shape.nodes.len() ==> (#[trigger] t.shape.nodes[i]).ns < st.names.len()
            || t.shape.nodes[i].ns == ns::interned(st.names, name).1,
    ensures
        t.flat(key) == st.flat(key),
        t.fits(key) == st.fits(key),
        key.namespace() == name || st.names.contains(key.namespace()) ==> t.ns_of(key) == st.ns_of(key),
        key.namespace() != name ==> t.ns_of(key) != ns::interned(st.names, name).1,
        key.namespace() != name && !st.names.contains(key.namespace()) ==> {
            &&& forall|i: int| 0 < i < st.shape.nodes.len() ==> (#[trigger] st.shape.nodes[i]).ns != st.ns_of(key)
            &&& forall|i: int| 0 < i < t.shape.nodes.len() ==> (#[trigger] t.shape.nodes[i]).ns != t.ns_of(key)
        },
{
    ns::law_namespaces_are_stable(st.names, name, key.namespace());
    let n = st.names.len();
    if st.names.contains(key.namespace()) {
        let i = st.names.index_of(key.namespace());
        assert(t.names[i] == key.namespace());
        assert(t.names.contains(key.namespace()));
        assert(t.names.index_of(key.namespace()) == i);
    } else if key.namespace() != name {
        assert forall|i: int| 0 < i < st.shape.nodes.len() implies (#[trigger] st.shape.nodes[i]).ns != st.ns_of(key) by {
            assert(st.node_ok(i));
        }
        if t.names.contains(key.namespace()) {
            let i = t.names.index_of(key.namespace());
            assert(i < n ==> st.names[i] == key.namespace());
        }
        assert forall|i: int| 0 < i < t.shape.nodes.len() implies (#[trigger] t.shape.nodes[i]).ns != t.ns_of(key) by {
            assert(t.node_ok(i));
        }
    }
}

/// A match changes nothing that any match returns, no size, and no leaf.
pub proof fn law_match_keeps_content(st: RadixState, key: RadixKey, other: RadixKey)
    requires
        st.wf(),
        st.roomy(),
        st.names.len() + 1 < u32::MAX,
    ensures
        ({
            let t = st.after_match(key).0;
            &&& t.wf()
            &&& t.cached(other) == st.cached(other)
            &&& t.size() == st.size()
            &&& t.evictable() == st.evictable()
            &&& t.protected() == st.protected()
            &&& forall|id: NodeId| #[trigger] t.leaf(id) == st.leaf(id)
        }),
{
    let t = st.after_match(key).0;
    if !(st.disable || st.flat(key).len() == 0) {
        tree_model::lemma_query(st, key);
        let now = (st.clock + 1) as u64;
        let w = st.walk(key);
        let names = ns::interned(st.names, key.namespace()).0;
        let a = RadixState { names, clock: now, ..st.visited(w.chain, now) };
        ns::law_namespaces_are_stable(st.names, key.namespace(), other.namespace());
        assert forall|i: int| 0 <= i < a.nodes.len() implies (#[trigger] a.nodes[i]).hit_count <= a.clock by {
            if i > 0 {
                assert(st.node_ok(i));
            }
        }
        tree_model::lemma_same_holdings(st, a);
        assert(runs(a) =~= runs(st));
        lemma_runs_parallel(st);
        lemma_cached_is_content(st, other);
        tree_model::lemma_flat(st, other);
        match w.stop {
            None => {},
            Some((c, m)) => {
                let b = a.stamped(c, now);
                tree_model::lemma_same_holdings(a, b);
                tree_model::lemma_cut(b, c, m as int, (now + 1) as u64);
                let u = m as int / st.shape.unit as int;
                let v = runs(st)[c as int];
                assert(runs(t) =~= runs(st).update(c as int, v.skip(u)).push(v.take(u)));
                content::lemma_split_content(
                    st.shape,
                    runs(st),
                    c,
                    m as int,
                    ROOT,
                    st.ns_of(other),
                    st.flat(other),
                );
            },
        }
        lemma_cached_is_content(t, other);
        assert forall|i: int| 0 < i < t.shape.nodes.len() implies (#[trigger] t.shape.nodes[i]).ns < st.names.len() by {
            if i < st.shape.nodes.len() {
                assert(st.node_ok(i));
            } else if let Some((c, m)) = w.stop {
                assert(st.node_ok(c as int));
            }
        }
        lemma_names_grow(st, t, key.namespace(), other);
        if other.namespace() != key.namespace() && !st.names.contains(other.namespace()) {
            lemma_unused_ns(st.shape, runs(st), ROOT, st.ns_of(other), st.flat(other));
            lemma_unused_ns(t.shape, runs(t), ROOT, t.ns_of(other), t.flat(other));
        }
    }
}

/// The tree before an insert adds its leaf answers as the tree before the insert.
proof fn lemma_insert_walk_content(st: RadixState, key: RadixKey, priority: i32, chunked: bool, other: RadixKey)
    requires
        st.wf(),
        st.roomy(),
        st.names.len() + 1 < u32::MAX,
    ensures
        ({
            let t = st.after_insert_walk(key, priority, chunked).0;
            &&& t.wf()
            &&& t.names == ns::interned(st.names, key.namespace()).0
            &&& t.flat(other) == st.flat(other)
            &&& t.fits(other) == st.fits(other)
            &&& t.shape.unit == st.shape.unit
            &&& t.shape.page == st.shape.page
            &&& content::content(t.shape, runs(t), ROOT, st.ns_of(other), st.flat(other)) == content::content(
                st.shape,
                runs(st),
                ROOT,
                st.ns_of(other),
                st.flat(other),
            )
            &&& t.cached(other) == st.cached(other)
            &&& forall|i: int| 0 < i < t.shape.nodes.len() ==> (#[trigger] t.shape.nodes[i]).ns < st.names.len()
        }),
{
    let (t, at) = st.after_insert_walk(key, priority, chunked);
    tree_model::lemma_insert_walk(st, key, priority, chunked);
    tree_model::lemma_query(st, key);
    tree_model::lemma_flat(st, other);
    let w = st.walk(key);
    lemma_runs_parallel(st);
    ns::law_namespaces_are_stable(st.names, key.namespace(), other.namespace());
    match w.stop {
        None => {
            assert(runs(t) =~= runs(st));
        },
        Some((c, m)) => {
            let u = m as int / st.shape.unit as int;
            let v = runs(st)[c as int];
            assert(runs(t) =~= runs(st).update(c as int, v.skip(u)).push(v.take(u)));
            content::lemma_split_content(
                st.shape,
                runs(st),
                c,
                m as int,
                ROOT,
                st.ns_of(other),
                st.flat(other),
            );
        },
    }
    assert forall|i: int| 0 < i < t.shape.nodes.len() implies (#[trigger] t.shape.nodes[i]).ns < st.names.len() by {
        if i < st.shape.nodes.len() {
            assert(st.node_ok(i));
        } else if let Some((c, m)) = w.stop {
            assert(st.node_ok(c as int));
        }
    }
    lemma_cached_is_content(st, other);
    lemma_cached_is_content(t, other);
    lemma_names_grow(st, t, key.namespace(), other);
    if other.namespace() != key.namespace() && !st.names.contains(other.namespace()) {
        lemma_unused_ns(st.shape, runs(st), ROOT, st.ns_of(other), st.flat(other));
        lemma_unused_ns(t.shape, runs(t), ROOT, t.ns_of(other), t.flat(other));
    }
}

/// A query that ends inside `c` passes the front whole once `c` is cut there.
proof fn lemma_split_walk(s: Shape, c: NodeId, m: nat, node: NodeId, ns: u32, rem: Seq<i64>)
    requires
        s.wf(),
        s.nodes.len() < NodeId::MAX,
        s.has(node),
        s.aligned(rem.len() as int),
        s.walk(node, ns, rem).stop == Some((c, m)),
    ensures
        ({
            let w = s.walk(node, ns, rem);
            s.split(c, m as int).walk(node, ns, rem) == (topo::Walk {
                chain: w.chain.push(s.nodes.len() as NodeId),
                stop: None,
                used: w.used,
            })
        }),
    decreases rem.len(),
{
    let t = s.split(c, m as int);
    let f = s.nodes.len() as NodeId;
    let k = s.chunk() as int;
    let w = s.walk(node, ns, rem);
    let head = rem.take(k);
    topo::lemma_chunk(s);
    topo::lemma_walk(s, node, ns, rem);
    topo::lemma_split_wf(s, c, m as int);
    vstd::arithmetic::div_mod::lemma_small_mod(0, s.chunk());
    topo::lemma_aligned(s, m as int, 0);
    let d = s.child_of(node, ns, head)->0;
    assert(s.named(node, ns, head, d));
    topo::lemma_shared(s, rem, d);
    let m1 = s.shared(rem, d) as int;
    topo::lemma_aligned(s, rem.len() as int, m1);
    let dkey = s.nodes[d as int].key;
    if m1 < dkey.len() {
        assert(d == c && m1 == m);
        assert(dkey.take(m as int).take(k) =~= dkey.take(k));
        assert(t.named(node, ns, head, f));
        topo::lemma_child_of(t, node, ns, head, f);
        topo::lemma_shared(t, rem, f);
        assert(rem.take(m as int) == dkey.take(m as int));
        assert(t.shared(rem, f) == m) by {
            assert(dkey.take(m as int).take(m as int) =~= dkey.take(m as int));
            seqs::lemma_lcp(rem, dkey.take(m as int));
            seqs::lemma_lcp_at_least(rem, dkey.take(m as int), m);
            assert(seqs::lcp(rem, dkey.take(m as int)) == m);
        }
        let rest = rem.skip(m as int);
        if rest.len() >= k {
            assert(rest.take(k) != dkey.skip(m as int).take(k));
            tree_model::lemma_front_children(s, c, m as int, ns, rest.take(k));
        }
        let none = Seq::<NodeId>::empty();
        assert(w.chain =~= none);
        assert(seq![f] + none =~= none.push(f));
        let tw = t.walk(f, ns, rest);
        assert(tw.chain =~= none && tw.stop is None && tw.used == 0);
        assert(t.walk(node, ns, rem).chain =~= w.chain.push(f));
    } else {
        let rest = rem.skip(m1);
        let w1 = s.walk(d, ns, rest);
        assert(d != c) by {
            // The cut node lies below the nodes passed whole.
            assert(w.chain == seq![d] + w1.chain);
            assert(w.chain[0] == d);
        }
        assert(t.named(node, ns, head, d));
        topo::lemma_child_of(t, node, ns, head, d);
        assert(t.shared(rem, d) == m1);
        lemma_split_walk(s, c, m, d, ns, rest);
        assert(w.chain.push(f) =~= seq![d] + w1.chain.push(f));
        assert(t.walk(node, ns, rem).chain =~= w.chain.push(f));
        assert(t.walk(node, ns, rem).used == w.used);
    }
}

/// An insert stands, after its walk, where the query leaves the tree.
proof fn lemma_insert_stands(st: RadixState, key: RadixKey, priority: i32, chunked: bool)
    requires
        st.wf(),
        st.roomy(),
        st.fits(key),
    ensures
        ({
            let (t, at) = st.after_insert_walk(key, priority, chunked);
            let w = t.shape.walk(ROOT, st.ns_of(key), st.flat(key));
            &&& w.stop is None
            &&& w.used == st.walk(key).used
            &&& topo::end_of(w.chain) == at
        }),
{
    tree_model::lemma_query(st, key);
    let w = st.walk(key);
    if let Some((c, m)) = w.stop {
        lemma_split_walk(st.shape, c, m, ROOT, st.ns_of(key), st.flat(key));
        let f = st.nodes.len() as NodeId;
        assert(w.chain.push(f).last() == f);
    }
}

/// The conditions under which an insert takes place.
pub open spec fn can_insert(st: RadixState, key: RadixKey, value: Seq<i64>) -> bool {
    let units = st.flat(key).len() as int / st.shape.unit as int;
    &&& st.wf()
    &&& st.roomy()
    &&& st.names.len() + 1 < u32::MAX
    &&& !st.disable
    &&& st.fits(key)
    &&& value.len() >= units
    &&& st.size() + units - st.prefix_len(key) <= i64::MAX
    &&& st.size() + units - st.prefix_len(key) <= usize::MAX
}

/// An insert grows its leaf in a possible state, where no child goes on.
proof fn lemma_insert_grows(st: RadixState, key: RadixKey, value: Seq<i64>, priority: i32, chunked: bool)
    requires
        can_insert(st, key, value),
        st.walk(key).used < st.flat(key).len(),
    ensures
        ({
            let (a, at) = st.after_insert_walk(key, priority, chunked);
            let rest = st.flat(key).skip(st.walk(key).used as int);
            let units = st.flat(key).len() as int / st.shape.unit as int;
            let fresh = value.subrange(st.prefix_len(key), units);
            let t = a.grown(at, st.ns_of(key), rest, fresh, priority, chunked);
            &&& a.wf()
            &&& t.wf()
            &&& st.after_insert(key, value, priority, chunked).0 == t
            &&& a.shape.has(at)
            &&& a.nodes.len() < NodeId::MAX
            &&& rest.len() > 0
            &&& st.shape.aligned(rest.len() as int)
            &&& fresh.len() == rest.len() as int / st.shape.unit as int
            &&& at != ROOT ==> a.shape.nodes[at as int].ns == st.ns_of(key)
            &&& a.shape.child_of(at, st.ns_of(key), rest.take(st.shape.chunk() as int)) is None
            &&& t.evictable() == st.evictable() + fresh.len()
            &&& t.protected() == st.protected()
            &&& t.size() == st.size() + fresh.len()
        }),
{
    let (a, at) = st.after_insert_walk(key, priority, chunked);
    let w = st.walk(key);
    let flat = st.flat(key);
    let rest = flat.skip(w.used as int);
    let units = flat.len() as int / st.shape.unit as int;
    let fresh = value.subrange(st.prefix_len(key), units);
    tree_model::lemma_query(st, key);
    tree_model::lemma_insert_walk(st, key, priority, chunked);
    topo::lemma_chunk(st.shape);
    topo::lemma_aligned(st.shape, flat.len() as int, w.used as int);
    tree_model::lemma_flat(st, key);
    content::lemma_units_split(flat.len() as int, w.used as int, st.shape.unit as int);
    if let Some((c, m)) = w.stop {
        tree_model::lemma_front_children(
            st.shape,
            c,
            m as int,
            st.ns_of(key),
            rest.take(st.shape.chunk() as int),
        );
    }
    let names = ns::interned(st.names, key.namespace()).0;
    assert(st.ns_of(key) < names.len());
    tree_model::lemma_grown(a, at, st.ns_of(key), rest, fresh, priority, chunked);
}

/// What is inserted is found: a match of the key returns, for the part that
/// was cached, what was cached, and for the rest the inserted value; and the
/// same key inserted again is found whole.
pub proof fn law_insert_then_match(st: RadixState, key: RadixKey, value: Seq<i64>, priority: i32, chunked: bool)
    requires
        can_insert(st, key, value),
    ensures
        ({
            let t = st.after_insert(key, value, priority, chunked).0;
            let units = st.flat(key).len() as int / st.shape.unit as int;
            &&& t.wf()
            &&& t.cached(key) == st.cached(key) + value.subrange(st.prefix_len(key), units)
            &&& t.cached(key).len() == units
            &&& t.prefix_len(key) == units
            &&& t.size() == st.size() + units - st.prefix_len(key)
            &&& t.evictable() == st.evictable() + units - st.prefix_len(key)
            &&& t.protected() == st.protected()
        }),
{
    let t = st.after_insert(key, value, priority, chunked).0;
    let (a, at) = st.after_insert_walk(key, priority, chunked);
    let w = st.walk(key);
    let flat = st.flat(key);
    let unit = st.shape.unit as int;
    let units = flat.len() as int / unit;
    tree_model::lemma_query(st, key);
    tree_model::lemma_flat(st, key);
    lemma_insert_walk_content(st, key, priority, chunked, key);
    law_match_is_page_aligned(st, key);
    content::lemma_units_split(flat.len() as int, w.used as int, unit);
    if flat.len() == 0 {
        assert(st.cached(key) + value.subrange(0, 0) =~= st.cached(key));
    } else if w.used < flat.len() {
        lemma_insert_grows(st, key, value, priority, chunked);
        lemma_insert_stands(st, key, priority, chunked);
        let rest = flat.skip(w.used as int);
        let fresh = value.subrange(st.prefix_len(key), units);
        let ns = st.ns_of(key);
        assert(t == a.grown(at, ns, rest, fresh, priority, chunked));
        assert(runs(t) =~= runs(a).push(fresh));
        content::lemma_graft_content(a.shape, runs(a), at, ns, rest, fresh, ROOT, flat);
        seqs::lemma_lcp_is(rest, rest, rest.len());
        topo::lemma_chunk(st.shape);
        topo::lemma_aligned(st.shape, flat.len() as int, w.used as int);
        assert(fresh.take(fresh.len() as int) =~= fresh);
        lemma_cached_is_content(st, key);
        lemma_cached_is_content(t, key);
        lemma_cached_is_content(a, key);
        ns::law_namespaces_are_stable(st.names, key.namespace(), key.namespace());
        assert(t.ns_of(key) == ns);
    } else {
        tree_model::lemma_insert_walk(st, key, priority, chunked);
        assert(st.cached(key) + value.subrange(units, units) =~= st.cached(key));
    }
    law_match_is_page_aligned(t, key);
}

/// An insert takes nothing away and changes nothing that is cached: every
/// match returns at least what it returned before, and in another namespace
/// exactly that.
pub proof fn law_insert_keeps_others(
    st: RadixState,
    key: RadixKey,
    value: Seq<i64>,
    priority: i32,
    chunked: bool,
    other: RadixKey,
)
    requires
        can_insert(st, key, value),
    ensures
        ({
            let t = st.after_insert(key, value, priority, chunked).0;
            &&& st.cached(other).len() <= t.cached(other).len()
            &&& t.cached(other).take(st.cached(other).len() as int) == st.cached(other)
            &&& other.namespace() != key.namespace() ==> t.cached(other) == st.cached(other)
        }),
{
    let t = st.after_insert(key, value, priority, chunked).0;
    let (a, at) = st.after_insert_walk(key, priority, chunked);
    let w = st.walk(key);
    let flat = st.flat(key);
    let old = st.cached(other);
    assert(old.take(old.len() as int) =~= old);
    if flat.len() > 0 {
        lemma_insert_walk_content(st, key, priority, chunked, other);
        if w.used < flat.len() {
            lemma_insert_grows(st, key, value, priority, chunked);
            let rest = flat.skip(w.used as int);
            let units = flat.len() as int / st.shape.unit as int;
            let fresh = value.subrange(st.prefix_len(key), units);
            let ns = st.ns_of(key);
            assert(t == a.grown(at, ns, rest, fresh, priority, chunked));
            assert(runs(t) =~= runs(a).push(fresh));
            lemma_runs_parallel(a);
            lemma_cached_is_content(a, other);
            lemma_cached_is_content(t, other);
            tree_model::lemma_flat(st, other);
            lemma_names_grow(st, t, key.namespace(), other);
            assert(t.ns_of(other) == a.ns_of(other));
            if other.namespace() == key.namespace() {
                content::lemma_graft_content(a.shape, runs(a), at, ns, rest, fresh, ROOT, st.flat(other));
                if st.fits(other) {
                    let more = t.cached(other).skip(old.len() as int);
                    assert(t.cached(other).take(old.len() as int) =~= old);
                }
            } else {
                content::lemma_graft_other_ns(
                    a.shape,
                    runs(a),
                    at,
                    ns,
                    rest,
                    fresh,
                    ROOT,
                    t.ns_of(other),
                    st.flat(other),
                );
            }
        }
    }
}

/// A tree answers a shorter query with the beginning of its answer to the longer one.
#[verifier::rlimit(60)]
#[verifier::spinoff_prover]
pub proof fn lemma_shorter_query(
    s: Shape,
    vals: Seq<Seq<i64>>,
    node: NodeId,
    ns: u32,
    rem: Seq<i64>,
    n: int,
)
    requires
        s.wf(),
        content::parallel(s, vals),
        s.has(node),
        s.aligned(rem.len() as int),
        0 <= n <= rem.len(),
        s.aligned(n),
    ensures
        ({
            let whole = content::content(s, vals, node, ns, rem);
            let part = content::content(s, vals, node, ns, rem.take(n));
            let u = n / s.unit as int;
            part == whole.take(if whole.len() < u { whole.len() as int } else { u })
        }),
    decreases rem.len(),
{
    let whole = content::content(s, vals, node, ns, rem);
    let part = content::content(s, vals, node, ns, rem.take(n));
    let unit = s.unit as int;
    let u = n / unit;
    let k = s.chunk() as int;
    topo::lemma_chunk(s);
    vstd::arithmetic::div_mod::lemma_small_mod(0, s.chunk());
    topo::lemma_aligned(s, n, 0);
    if n < k {
        assert(part =~= whole.take(0));
    } else {
        assert(rem.take(n).take(k) =~= rem.take(k));
        match s.child_of(node, ns, rem.take(k)) {
            None => {
                assert(whole.take(0) =~= part);
            },
            Some(c) => {
                assert(s.named(node, ns, rem.take(k), c));
                assert(s.hangs(c as int));
                let key = s.nodes[c as int].key;
                let v = vals[c as int];
                topo::lemma_shared(s, rem, c);
                topo::lemma_shared(s, rem.take(n), c);
                let m = s.shared(rem, c) as int;
                let m2 = s.shared(rem.take(n), c) as int;
                topo::lemma_aligned(s, key.len() as int, m);
                topo::lemma_aligned(s, m, 0);
                topo::lemma_aligned(s, m2, 0);
                topo::lemma_aligned(s, rem.len() as int, m);
                lemma_shared_prefix(s, rem, c, n);
                content::lemma_units_split(key.len() as int, m, unit);
                content::lemma_units_split(key.len() as int, m2, unit);
                content::lemma_units_split(n, m2, unit);
                assert(v.len() == s.units(c as int));
                if m2 < key.len() {
                    // The shorter query ends here, or leaves the key where the longer one does.
                    if m == key.len() {
                        assert(m2 == n);
                        assert(part =~= whole.take(u));
                    } else if m2 == n {
                        content::lemma_units_split(m, m2, unit);
                        assert(part =~= whole.take(u));
                    } else {
                        assert(m2 == m);
                        assert(part =~= whole.take(whole.len() as int));
                    }
                } else {
                    assert(m == key.len());
                    topo::lemma_aligned(s, n, m);
                    lemma_shorter_query(s, vals, c, ns, rem.skip(m), n - m);
                    assert(rem.take(n).skip(m) =~= rem.skip(m).take(n - m));
                    let rest = content::content(s, vals, c, ns, rem.skip(m));
                    let cut = if rest.len() < u - m / unit { rest.len() as int } else { u - m / unit };
                    assert(part == v + rest.take(cut));
                    assert(part =~= (v + rest).take(v.len() + cut));
                }
            },
        }
    }
}

/// The pages that a cut query shares with a key.
proof fn lemma_shared_prefix(s: Shape, rem: Seq<i64>, c: NodeId, n: int)
    requires
        s.wf(),
        0 < c < s.nodes.len(),
        0 <= n <= rem.len(),
        s.aligned(n),
    ensures
        s.shared(rem.take(n), c) == (if s.shared(rem, c) < n {
            s.shared(rem, c)
        } else {
            n as nat
        }),
{
    let key = s.nodes[c as int].key;
    let l = seqs::lcp(rem, key);
    let k = s.chunk();
    topo::lemma_chunk(s);
    seqs::lemma_lcp(rem, key);
    let q: nat = if l < n { l } else { n as nat };
    seqs::lemma_lcp_is(rem.take(n), key, q);
    vstd::arithmetic::div_mod::lemma_mod_decreases(l, k);
    vstd::arithmetic::div_mod::lemma_mod_decreases(n as nat, k);
    vstd::arithmetic::div_mod::lemma_fundamental_div_mod(l as int, k as int);
    vstd::arithmetic::div_mod::lemma_fundamental_div_mod(n, k as int);
    if l >= n {
        assert(l - l % k >= n) by (nonlinear_arith)
            requires
                l as int == k as int * (l as int / k as int) + l as int % k as int,
                n == k as int * (n / k as int),
                l >= n,
                k >= 1,
                0 <= l as int % k as int,
                (l as int % k as int) < k,
        ;
    }
}

/// A shorter query of the same namespace is answered with the beginning of
/// the answer to the longer one.
pub proof fn law_shorter_query(st: RadixState, longer: RadixKey, shorter: RadixKey)
    requires
        st.wf(),
        shorter.namespace() == longer.namespace(),
        shorter.is_bigram == longer.is_bigram,
        shorter.tokens@ == longer.tokens@,
        shorter.raw_count() <= longer.raw_count(),
    ensures
        ({
            let whole = st.cached(longer);
            let part = st.cached(shorter);
            let u = st.flat(shorter).len() as int / st.shape.unit as int;
            part == whole.take(if whole.len() < u { whole.len() as int } else { u })
        }),
{
    let bigram = st.bigram(longer);
    let page = st.shape.page;
    let n1 = longer.units(bigram);
    let n2 = shorter.units(bigram);
    let f1 = crate::key::page_floor(n1, page);
    let f2 = crate::key::page_floor(n2, page);
    crate::key::lemma_page_floor(n1, page);
    crate::key::lemma_page_floor(n2, page);
    vstd::arithmetic::div_mod::lemma_div_is_ordered(n2 as int, n1 as int, page as int);
    assert(f2 <= f1) by (nonlinear_arith)
        requires
            f2 == n2 / page * page,
            f1 == n1 / page * page,
            n2 / page <= n1 / page,
    ;
    tree_model::lemma_flat(st, longer);
    tree_model::lemma_flat(st, shorter);
    lemma_cached_is_content(st, longer);
    lemma_cached_is_content(st, shorter);
    lemma_runs_parallel(st);
    let a = st.flat(longer);
    let b = st.flat(shorter);
    assert(b =~= a.take(b.len() as int));
    if st.fits(longer) {
        lemma_shorter_query(st.shape, runs(st), ROOT, st.ns_of(longer), a, b.len() as int);
    } else {
        assert(Seq::<i64>::empty().take(0) =~= Seq::<i64>::empty());
    }
}

/// Locking a node and taking the lock off again gives the tree back.
pub proof fn law_lock_then_unlock(st: RadixState, node: NodeId)
    requires
        st.wf(),
        st.live(node),
        forall|k: int|
            0 <= k < st.shape.up(node).len() ==> st.nodes[(#[trigger] st.shape.up(node)[k]) as int].lock_ref
                < u32::MAX,
    ensures
        st.locked(st.shape.up(node)).unlocked(st.shape.up(node)) == st,
        st.locked(st.shape.up(node)).shape == st.shape,
        forall|k: int|
            0 <= k < st.shape.up(node).len() ==> st.locked(st.shape.up(node)).nodes[(
            #[trigger] st.shape.up(node)[k]) as int].lock_ref >= 1,
{
    let up = st.shape.up(node);
    topo::lemma_up(st.shape, node);
    let t = st.locked(up);
    let b = t.unlocked(up);
    assert forall|i: int| 0 <= i < st.nodes.len() implies #[trigger] b.nodes[i] == st.nodes[i] by {
        if up.contains(i as NodeId) {
            let k = up.index_of(i as NodeId);
            assert(up[k] == i as NodeId);
        }
    }
    assert(b.nodes =~= st.nodes);
    assert forall|k: int| 0 <= k < up.len() implies t.nodes[(#[trigger] up[k]) as int].lock_ref >= 1 by {
        assert(up.contains(up[k]));
        assert(st.nodes[up[k] as int].lock_ref < u32::MAX);
    }
}

/// One step of an eviction.
proof fn lemma_evict_step(st: RadixState, budget: int)
    requires
        st.wf(),
        budget > 0,
        exists|id: NodeId| st.leaf(id),
    ensures
        ({
            let x = st.victim();
            let v = st.nodes[x as int].value->0;
            let (t, rest) = st.dropped(x).after_evict(budget - v.len());
            &&& st.leaf(x)
            &&& st.after_evict(budget) == (t, seq![v] + rest)
            &&& tree_model::run_total(seq![v] + rest) == v.len() + tree_model::run_total(rest)
            &&& st.dropped(x).live_count() < st.live_count()
            &&& st.dropped(x).live_count() >= 0
            &&& v.len() == st.shape.units(x as int)
        }),
{
    let x = st.victim();
    tree_model::lemma_victim(st);
    tree_model::lemma_drop_counts(st, x);
    tree_model::lemma_dropped(st, x);
    let v = st.nodes[x as int].value->0;
    let rest = st.dropped(x).after_evict(budget - v.len()).1;
    assert((seq![v] + rest).drop_first() =~= rest);
}

/// An eviction that does nothing.
proof fn lemma_evict_stop(st: RadixState, budget: int)
    requires
        st.wf(),
        budget <= 0 || forall|id: NodeId| !#[trigger] st.leaf(id),
    ensures
        st.after_evict(budget) == (st, Seq::<Seq<i64>>::empty()),
{
}

proof fn lemma_evict_sizes(st: RadixState, budget: int)
    requires
        st.wf(),
    ensures
        ({
            let (t, gone) = st.after_evict(budget);
            let n = tree_model::run_total(gone);
            &&& t.wf()
            &&& t.size() == st.size() - n
            &&& t.evictable() == st.evictable() - n
            &&& t.protected() == st.protected()
            &&& n >= 0
            &&& t.nodes.len() == st.nodes.len()
        }),
    decreases st.live_count(),
{
    if budget > 0 && exists|id: NodeId| st.leaf(id) {
        lemma_evict_step(st, budget);
        let x = st.victim();
        tree_model::lemma_dropped(st, x);
        lemma_evict_sizes(st.dropped(x), budget - st.nodes[x as int].value->0.len());
    } else {
        lemma_evict_stop(st, budget);
    }
}

proof fn lemma_evict_ends(st: RadixState, budget: int, id: NodeId)
    requires
        st.wf(),
    ensures
        ({
            let (t, gone) = st.after_evict(budget);
            tree_model::run_total(gone) >= budget || !t.leaf(id)
        }),
    decreases st.live_count(),
{
    if budget > 0 && exists|y: NodeId| st.leaf(y) {
        lemma_evict_step(st, budget);
        let x = st.victim();
        tree_model::lemma_dropped(st, x);
        lemma_evict_ends(st.dropped(x), budget - st.nodes[x as int].value->0.len(), id);
    } else {
        lemma_evict_stop(st, budget);
    }
}

proof fn lemma_evict_spares(st: RadixState, budget: int, i: int)
    requires
        st.wf(),
        0 <= i < st.nodes.len(),
        st.nodes[i].lock_ref > 0,
    ensures
        ({
            let t = st.after_evict(budget).0;
            t.nodes[i] == st.nodes[i] && t.shape.nodes[i] == st.shape.nodes[i]
        }),
    decreases st.live_count(),
{
    if budget > 0 && exists|y: NodeId| st.leaf(y) {
        lemma_evict_step(st, budget);
        let x = st.victim();
        tree_model::lemma_dropped(st, x);
        let d = st.dropped(x);
        assert(d.nodes[i] == st.nodes[i] && d.shape.nodes[i] == st.shape.nodes[i]);
        lemma_evict_spares(d, budget - st.nodes[x as int].value->0.len(), i);
    } else {
        lemma_evict_stop(st, budget);
    }
}

/// Eviction ends because the budget is met or because no evictable leaf is
/// left; it takes only unlocked tokens, exactly those it hands out; locked
/// nodes stay as they are.
pub proof fn law_evict(st: RadixState, budget: int)
    requires
        st.wf(),
    ensures
        ({
            let (t, gone) = st.after_evict(budget);
            let n = tree_model::run_total(gone);
            &&& t.wf()
            &&& t.size() == st.size() - n
            &&& t.evictable() == st.evictable() - n
            &&& t.protected() == st.protected()
            &&& 0 <= n <= st.evictable()
            &&& (n >= budget || forall|id: NodeId| !#[trigger] t.leaf(id))
            &&& t.nodes.len() == st.nodes.len()
            &&& forall|i: int|
                0 <= i < st.nodes.len() && st.nodes[i].lock_ref > 0 ==> #[trigger] t.nodes[i] == st.nodes[i]
                    && t.shape.nodes[i] == st.shape.nodes[i]
        }),
{
    let (t, gone) = st.after_evict(budget);
    lemma_evict_sizes(st, budget);
    tree_model::law_sizes_add_up(t);
    assert forall|id: NodeId| tree_model::run_total(gone) < budget implies !#[trigger] t.leaf(id) by {
        lemma_evict_ends(st, budget, id);
    }
    assert forall|i: int| 0 <= i < st.nodes.len() && st.nodes[i].lock_ref > 0 implies #[trigger] t.nodes[i]
        == st.nodes[i] && t.shape.nodes[i] == st.shape.nodes[i] by {
        lemma_evict_spares(st, budget, i);
    }
}

/// Locks reach up: a node above a locked node is locked. Locks taken by
/// `inc_lock_ref` and released one by one by `dec_lock_ref` do.
pub open spec fn locks_reach_up(st: RadixState) -> bool {
    forall|i: int|
        0 < i < st.nodes.len() && st.shape.nodes[i].attached && (#[trigger] st.nodes[i]).lock_ref > 0
            ==> st.nodes[st.shape.nodes[i].parent as int].lock_ref > 0
}

/// Below every unlocked live node there is an evictable leaf.
proof fn lemma_leaf_below(st: RadixState, i: NodeId, depth: nat)
    requires
        st.wf(),
        locks_reach_up(st),
        0 < i < st.nodes.len(),
        st.nodes[i as int].value is Some,
        st.nodes[i as int].lock_ref == 0,
        forall|j: int| 0 <= j < st.nodes.len() ==> (#[trigger] st.shape.nodes[j]).path.len() <= depth,
    ensures
        exists|x: NodeId| st.leaf(x),
    decreases depth - st.shape.nodes[i as int].path.len(),
{
    if st.shape.is_leaf(i) {
        assert(st.leaf(i));
    } else {
        let c = choose|c: NodeId| st.shape.is_child(i, c);
        assert(st.shape.is_child(i, c));
        topo::lemma_path_grows(st.shape, c);
        assert(st.node_ok(c as int));
        assert(st.shape.nodes[c as int].path.len() <= depth);
        lemma_leaf_below(st, c, depth);
    }
}

/// The length of the longest path.
spec fn max_path(s: Shape, n: nat) -> nat
    decreases n,
{
    if n == 0 {
        0
    } else {
        let m = max_path(s, (n - 1) as nat);
        if s.nodes[n - 1].path.len() > m {
            s.nodes[n - 1].path.len()
        } else {
            m
        }
    }
}

proof fn lemma_max_path(s: Shape, n: nat)
    requires
        n <= s.nodes.len(),
    ensures
        forall|j: int| 0 <= j < n ==> (#[trigger] s.nodes[j]).path.len() <= max_path(s, n),
    decreases n,
{
    if n > 0 {
        lemma_max_path(s, (n - 1) as nat);
    }
}

/// Where locks reach up, an eviction that falls short of its budget has
/// taken everything that was evictable.
pub proof fn law_evict_drains(st: RadixState, budget: int)
    requires
        st.wf(),
        locks_reach_up(st),
    ensures
        ({
            let (t, gone) = st.after_evict(budget);
            &&& locks_reach_up(t)
            &&& tree_model::run_total(gone) < budget ==> t.evictable() == 0 && tree_model::run_total(gone)
                == st.evictable()
        }),
    decreases st.live_count(),
{
    law_evict(st, budget);
    if budget > 0 && exists|y: NodeId| st.leaf(y) {
        lemma_evict_step(st, budget);
        let x = st.victim();
        tree_model::lemma_dropped(st, x);
        lemma_drop_locks(st, x);
        law_evict_drains(st.dropped(x), budget - st.nodes[x as int].value->0.len());
    } else {
        lemma_evict_stop(st, budget);
        if budget > 0 {
            lemma_no_leaf(st);
        }
    }
}

/// Eviction of a leaf leaves locks as they are.
proof fn lemma_drop_locks(st: RadixState, x: NodeId)
    requires
        st.wf(),
        locks_reach_up(st),
        st.leaf(x),
    ensures
        locks_reach_up(st.dropped(x)),
{
    let d = st.dropped(x);
    assert forall|i: int|
        0 < i < d.nodes.len() && d.shape.nodes[i].attached && (#[trigger] d.nodes[i]).lock_ref > 0 implies d.nodes[d.shape.nodes[i].parent as int].lock_ref
        > 0 by {
        assert(st.nodes[i].lock_ref > 0);
        assert(st.shape.hangs(i));
    }
}

/// Where no leaf is evictable, no token is.
proof fn lemma_no_leaf(st: RadixState)
    requires
        st.wf(),
        locks_reach_up(st),
        forall|x: NodeId| !#[trigger] st.leaf(x),
    ensures
        st.evictable() == 0,
{
    assert forall|i: int| 0 <= i < st.nodes.len() implies #[trigger] st.loose(i) == 0 by {
        if i > 0 && st.nodes[i].value is Some && st.nodes[i].lock_ref == 0 {
            lemma_max_path(st.shape, st.nodes.len());
            lemma_leaf_below(st, i as NodeId, max_path(st.shape, st.nodes.len()));
        }
    }
    seqs::lemma_total_none(|i: int| st.loose(i), st.nodes.len());
}

/// A fresh tree holds nothing: no match finds anything, nothing is
/// evictable and nothing is protected.
pub proof fn law_fresh_is_empty(page: nat, is_eagle: bool, disable: bool, policy: crate::policy::EvictionPolicy, key: RadixKey)
    requires
        page >= 1,
    ensures
        ({
            let st = RadixState::fresh(page, is_eagle, disable, policy);
            &&& st.wf()
            &&& st.cached(key) == Seq::<i64>::empty()
            &&& st.size() == 0
            &&& st.evictable() == 0
            &&& st.protected() == 0
        }),
{
    let st = RadixState::fresh(page, is_eagle, disable, policy);
    reveal(Shape::heads_differ);
    reveal_with_fuel(seqs::total, 2);
    lemma_cached_is_content(st, key);
    if st.fits(key) {
        lemma_unused_ns(st.shape, runs(st), ROOT, st.ns_of(key), st.flat(key));
    }
}

} // verus!
