//! Following a query key through a tree: flattening, namespace, walk.

use crate::key::{FlatKey, RadixKey};
use crate::ns;
use crate::ns::{Names, Namespaces};
use crate::topo;
use crate::topo::{NodeId, Shape, Topology, Walk, WalkPath, ROOT};
use vstd::prelude::*;

verus! {

/// What decides how a key is followed.
#[verifier::ext_equal]
pub struct Frame {
    pub shape: Shape,
    pub names: Seq<Names>,
    pub is_eagle: bool,
}

impl Frame {
    /// A tree shape of the unit size that the bigram flag asks for, and
    /// namespaces with one id each.
    pub open spec fn wf(self) -> bool {
        &&& self.shape.wf()
        &&& self.shape.unit == (if self.is_eagle {
            2nat
        } else {
            1
        })
        &&& self.names.no_duplicates()
    }

    /// A root alone.
    pub open spec fn fresh(page: nat, is_eagle: bool) -> Frame {
        Frame {
            shape: Shape::bare(page, if is_eagle { 2 } else { 1 }),
            names: Seq::empty(),
            is_eagle,
        }
    }

    /// The bigram view is in force: the tree forces it, or the key asks for it.
    pub open spec fn bigram(self, key: RadixKey) -> bool {
        self.is_eagle || key.is_bigram
    }

    /// The flattened query, in whole pages.
    pub open spec fn flat(self, key: RadixKey) -> Seq<i64> {
        key.flat(self.bigram(key), self.shape.page)
    }

    /// Logical units of the flattened query.
    pub open spec fn units(self, key: RadixKey) -> int {
        self.flat(key).len() as int / self.shape.unit as int
    }

    /// Whether the key's first page has the form of this tree's child-table
    /// heads: a pair is none in a tree whose heads are single tokens.
    pub open spec fn fits(self, key: RadixKey) -> bool {
        self.shape.page > 1 || self.is_eagle || !key.is_bigram
    }

    /// The id of the key's namespace.
    pub open spec fn ns_of(self, key: RadixKey) -> u32 {
        ns::interned(self.names, key.namespace()).1
    }

    /// The names once the key's namespace is interned.
    pub open spec fn names_with(self, key: RadixKey) -> Seq<Names> {
        ns::interned(self.names, key.namespace()).0
    }

    /// The walk of the key from the root.
    pub open spec fn walk(self, key: RadixKey) -> Walk {
        self.walk_at(ROOT, key)
    }

    /// The walk of the key from `start`.
    pub open spec fn walk_at(self, start: NodeId, key: RadixKey) -> Walk {
        if self.fits(key) {
            self.shape.walk(start, self.ns_of(key), self.flat(key))
        } else {
            Walk { chain: Seq::empty(), stop: None, used: 0 }
        }
    }

    /// Tokens of `key` that are in the tree.
    pub open spec fn prefix_len(self, key: RadixKey) -> int {
        self.walk(key).used as int / self.shape.unit as int
    }
}

/// Flattened queries are whole pages, and whole units.
pub proof fn lemma_flat(f: Frame, key: RadixKey)
    requires
        f.wf(),
    ensures
        f.shape.aligned(f.flat(key).len() as int),
        (f.flat(key).len() as int) % (f.shape.unit as int) == 0,
{
    let page = f.shape.page;
    let n = key.units(f.bigram(key));
    let k = crate::key::page_floor(n, page);
    crate::key::lemma_page_floor(n, page);
    let len = f.flat(key).len() as int;
    let chunk = f.shape.chunk() as int;
    topo::lemma_chunk(f.shape);
    let q = n as int / page as int;
    assert(k == q * page);
    if f.bigram(key) {
        assert(len == 2 * k);
        if f.is_eagle {
            assert(chunk == 2 * page);
            assert(2 * (q * page as int) == q * (2 * page as int)) by (nonlinear_arith);
            vstd::arithmetic::div_mod::lemma_mod_multiples_basic(q, chunk);
        } else {
            assert(2 * (q * page as int) == (2 * q) * page as int) by (nonlinear_arith);
            vstd::arithmetic::div_mod::lemma_mod_multiples_basic(2 * q, chunk);
        }
    } else {
        assert(len == k);
        vstd::arithmetic::div_mod::lemma_mod_multiples_basic(q, chunk);
    }
}

/// Where a walk from `start` ends: the last node matched whole, or `start`.
pub open spec fn end_from(start: NodeId, chain: Seq<NodeId>) -> NodeId {
    if chain.len() == 0 {
        start
    } else {
        chain.last()
    }
}

/// What a query's walk passes, and where it stops.
pub proof fn lemma_query(f: Frame, key: RadixKey)
    requires
        f.wf(),
    ensures
        ({
            let w = f.walk(key);
            let flat = f.flat(key);
            let s = f.shape;
            let end = topo::end_of(w.chain);
            &&& s.aligned(flat.len() as int)
            &&& (flat.len() as int) % (s.unit as int) == 0
            &&& w.used <= flat.len()
            &&& s.aligned(w.used as int)
            &&& (w.used as int) % (s.unit as int) == 0
            &&& w.chain.no_duplicates()
            &&& s.has(end)
            &&& s.nodes[end as int].attached
            &&& end != ROOT ==> s.nodes[end as int].ns == f.ns_of(key)
            &&& forall|j: int|
                0 <= j < w.chain.len() ==> {
                    let c = #[trigger] w.chain[j];
                    &&& s.is_child(if j == 0 { ROOT } else { w.chain[j - 1] }, c)
                    &&& s.nodes[c as int].ns == f.ns_of(key)
                }
            &&& w.stop matches Some((c, m)) ==> {
                &&& s.is_child(end, c)
                &&& s.nodes[c as int].ns == f.ns_of(key)
                &&& !w.chain.contains(c)
                &&& 0 < m < s.nodes[c as int].key.len()
                &&& m <= w.used
                &&& s.aligned(m as int)
            }
            &&& w.used < flat.len() && f.fits(key) ==> match w.stop {
                None => s.child_of(
                    end,
                    f.ns_of(key),
                    flat.skip(w.used as int).take(s.chunk() as int),
                ) is None,
                Some((c, m)) => flat.skip(w.used as int).take(s.chunk() as int)
                    != s.nodes[c as int].key.skip(m as int).take(s.chunk() as int),
            }
        }),
{
    lemma_query_at(f, ROOT, key);
}

/// What a query's walk from `start` passes, and where it stops.
pub proof fn lemma_query_at(f: Frame, start: NodeId, key: RadixKey)
    requires
        f.wf(),
        f.shape.has(start),
        f.shape.nodes[start as int].attached,
        start != ROOT ==> f.shape.nodes[start as int].ns == f.ns_of(key),
    ensures
        ({
            let w = f.walk_at(start, key);
            let flat = f.flat(key);
            let s = f.shape;
            let end = end_from(start, w.chain);
            &&& s.aligned(flat.len() as int)
            &&& (flat.len() as int) % (s.unit as int) == 0
            &&& w.used <= flat.len()
            &&& s.aligned(w.used as int)
            &&& (w.used as int) % (s.unit as int) == 0
            &&& w.chain.no_duplicates()
            &&& s.has(end)
            &&& s.nodes[end as int].attached
            &&& end != ROOT ==> s.nodes[end as int].ns == f.ns_of(key)
            &&& forall|j: int|
                0 <= j < w.chain.len() ==> {
                    let c = #[trigger] w.chain[j];
                    &&& s.is_child(if j == 0 { start } else { w.chain[j - 1] }, c)
                    &&& s.nodes[c as int].ns == f.ns_of(key)
                }
            &&& w.stop matches Some((c, m)) ==> {
                &&& s.is_child(end, c)
                &&& s.nodes[c as int].ns == f.ns_of(key)
                &&& !w.chain.contains(c)
                &&& 0 < m < s.nodes[c as int].key.len()
                &&& m <= w.used
                &&& s.aligned(m as int)
            }
            &&& w.used < flat.len() && f.fits(key) ==> match w.stop {
                None => s.child_of(
                    end,
                    f.ns_of(key),
                    flat.skip(w.used as int).take(s.chunk() as int),
                ) is None,
                Some((c, m)) => flat.skip(w.used as int).take(s.chunk() as int)
                    != s.nodes[c as int].key.skip(m as int).take(s.chunk() as int),
            }
        }),
{
    lemma_flat(f, key);
    let w = f.walk_at(start, key);
    let flat = f.flat(key);
    topo::lemma_chunk(f.shape);
    vstd::arithmetic::div_mod::lemma_small_mod(0, f.shape.chunk());
    topo::lemma_walk(f.shape, start, f.ns_of(key), flat);
    topo::lemma_aligned(f.shape, w.used as int, 0);
}

/// Topology with the namespaces that its children are listed under.
#[derive(Clone)]
pub struct Trunk {
    pub topo: Topology,
    pub names: Namespaces,
    pub is_eagle: bool,
}

impl Trunk {
    /// What decides how a key is followed.
    pub open spec fn view(&self) -> Frame {
        Frame { shape: self.topo@, names: self.names@, is_eagle: self.is_eagle }
    }

    /// Both parts are well-formed.
    pub open spec fn wf(&self) -> bool {
        &&& self.topo.wf()
        &&& self.names.wf()
        &&& self@.wf()
    }

    /// A root alone.
    pub fn new(page_size: usize, is_eagle: bool) -> (r: Trunk)
        requires
            page_size >= 1,
            is_eagle ==> page_size * 2 <= usize::MAX,
        ensures
            r.wf(),
            r@ == Frame::fresh(page_size as nat, is_eagle),
    {
        let unit: usize = if is_eagle {
            2
        } else {
            1
        };
        let r = Trunk { topo: Topology::new(page_size, unit), names: Namespaces::new(), is_eagle };
        proof {
            r.topo.lemma_wf();
        }
        r
    }

    /// The flattened query.
    pub fn flatten<'a>(&self, key: &RadixKey<'a>) -> (r: FlatKey<'a>)
        requires
            self.wf(),
        ensures
            r.view() == self@.flat(*key),
    {
        key.with_bigram(self.is_eagle || key.is_bigram).flatten_page_aligned(self.topo.page_size())
    }

    /// Interns the key's namespace and follows its flattened form.
    pub fn enter(&mut self, key: &RadixKey, flat: &[i64]) -> (r: (u32, WalkPath))
        requires
            old(self).wf(),
            old(self)@.names.len() < u32::MAX,
            flat@ == old(self)@.flat(*key),
        ensures
            final(self).wf(),
            final(self)@ == (Frame { names: old(self)@.names_with(*key), ..old(self)@ }),
            final(self).topo == old(self).topo,
            r.0 == old(self)@.ns_of(*key),
            r.0 < final(self)@.names.len(),
            r.1@ == old(self)@.walk(*key),
    {
        self.enter_at(ROOT, key, flat)
    }

    /// Interns the key's namespace and follows its flattened form from
    /// `start`.
    pub fn enter_at(&mut self, start: NodeId, key: &RadixKey, flat: &[i64]) -> (r: (u32, WalkPath))
        requires
            old(self).wf(),
            old(self)@.names.len() < u32::MAX,
            old(self)@.shape.has(start),
            flat@ == old(self)@.flat(*key),
        ensures
            final(self).wf(),
            final(self)@ == (Frame { names: old(self)@.names_with(*key), ..old(self)@ }),
            final(self).topo == old(self).topo,
            r.0 == old(self)@.ns_of(*key),
            r.0 < final(self)@.names.len(),
            r.1@ == old(self)@.walk_at(start, *key),
    {
        proof {
            lemma_flat(self@, *key);
        }
        let id = self.names.intern(key.extra_key, key.cache_salt);
        if self.topo.page_size() > 1 || self.is_eagle || !key.is_bigram {
            let path = self.topo.walk_from(start, id, flat);
            (id, path)
        } else {
            // Pairs never head a child of a tree of single tokens.
            let chain: Vec<NodeId> = Vec::new();
            assert(chain@ =~= Seq::<NodeId>::empty());
            (id, WalkPath { chain, stop: None, used: 0 })
        }
    }
}

/// Where a split leaves the children of other nodes: a child-table key that
/// was free stays free.
pub proof fn lemma_split_keeps_free(s: Shape, c: NodeId, m: int, p: NodeId, ns: u32, head: Seq<i64>)
    requires
        s.wf(),
        0 < c < s.nodes.len() < NodeId::MAX,
        s.nodes[c as int].attached,
        0 < m < s.nodes[c as int].key.len(),
        s.aligned(m),
        s.has(p),
        s.child_of(p, ns, head) is None,
    ensures
        s.split(c, m).child_of(p, ns, head) is None,
{
    let t = s.split(c, m);
    let k = s.chunk() as int;
    let f = s.nodes.len() as NodeId;
    let key = s.nodes[c as int].key;
    topo::lemma_chunk(s);
    vstd::arithmetic::div_mod::lemma_small_mod(0, s.chunk());
    topo::lemma_aligned(s, m, 0);
    assert(key.take(m).take(k) =~= key.take(k));
    assert forall|d: NodeId| !t.named(p, ns, head, d) by {
        if t.named(p, ns, head, d) {
            if d == f {
                assert(s.named(p, ns, head, c));
            } else if d != c {
                assert(s.named(p, ns, head, d));
            }
        }
    }
}

} // verus!
