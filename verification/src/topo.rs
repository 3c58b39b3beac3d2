//! The shape of a radix tree: keys, parents and namespaced child tables.
//!
//! Every tree of this crate keeps its nodes in an arena and never frees
//! them; `Topology` holds the part of a node that says where it stands, and
//! each tree keeps what it caches there in an array of its own, under the
//! same `NodeId`s.
//!
//! The model is `Shape`: for each node its parent, its key, its namespace,
//! whether its parent still lists it, and its path, that is all keys from
//! the root down to it. Splitting a node changes no path but adds one, which
//! is why walks to the root end: paths get shorter on the way.

use crate::key::common_prefix_len;
use crate::seqs;
use crate::seqs::{copy_range, same_run};
use vstd::prelude::*;
use vstd::slice::slice_subrange;

verus! {

/// Index of a node in its tree's arena.
pub type NodeId = u32;

/// The tree root. It is never evicted.
pub const ROOT: NodeId = 0;

/// The child-table head: the first page of logical units of a child's key.
#[derive(Debug, Clone, PartialEq, Eq, Hash)]
pub enum Head {
    /// One plain token.
    Token(i64),
    /// One bigram.
    Bigram(i64, i64),
    /// A page of more than one unit, flattened.
    Tokens(Vec<i64>),
}

impl Head {
    /// The flattened page.
    pub open spec fn view(&self) -> Seq<i64> {
        match self {
            Head::Token(a) => seq![*a],
            Head::Bigram(a, b) => seq![*a, *b],
            Head::Tokens(v) => v@,
        }
    }

    /// The head of a key whose first page is `page`.
    fn of_page(page: &[i64], page_size: usize) -> (r: Head)
        requires
            page.len() >= 1,
        ensures
            r.view() == page@,
    {
        if page_size == 1 && page.len() == 1 {
            assert(page@ =~= seq![page@[0]]);
            Head::Token(page[0])
        } else if page_size == 1 && page.len() == 2 {
            assert(page@ =~= seq![page@[0], page@[1]]);
            Head::Bigram(page[0], page[1])
        } else {
            Head::Tokens(copy_range(page, 0, page.len()))
        }
    }

    /// Whether this is the head of a key whose first page is `page`.
    fn is_page(&self, page: &[i64]) -> (r: bool)
        ensures
            r == (self.view() == page@),
    {
        match self {
            Head::Token(a) => {
                proof {
                    if page@.len() == 1 && page@[0] == *a {
                        assert(page@ =~= seq![*a]);
                    }
                }
                page.len() == 1 && page[0] == *a
            },
            Head::Bigram(a, b) => {
                proof {
                    if page@.len() == 2 && page@[0] == *a && page@[1] == *b {
                        assert(page@ =~= seq![*a, *b]);
                    }
                }
                page.len() == 2 && page[0] == *a && page[1] == *b
            },
            Head::Tokens(v) => same_run(v.as_slice(), page),
        }
    }
}

/// `(namespace, head)`: the full child-table key.
#[derive(Debug, Clone, PartialEq, Eq, Hash)]
pub struct ChildKey {
    pub ns: u32,
    pub head: Head,
}

/// Where one node stands.
#[verifier::ext_equal]
pub struct Spot {
    pub parent: NodeId,
    /// Flattened units on the edge from the parent.
    pub key: Seq<i64>,
    pub ns: u32,
    /// Whether the parent lists this node among its children.
    pub attached: bool,
    /// All keys from the root to this node, its own included.
    pub path: Seq<i64>,
}

/// The shape of a whole tree. `page` counts logical units, `unit` the
/// flattened elements of one unit.
#[verifier::ext_equal]
pub struct Shape {
    pub nodes: Seq<Spot>,
    pub page: nat,
    pub unit: nat,
}

/// How far a query follows the tree: the nodes matched whole, in order, the
/// node matched in part with the number of its flattened elements that
/// match, and the number of flattened query elements matched in all.
#[verifier::ext_equal]
pub struct Walk {
    pub chain: Seq<NodeId>,
    pub stop: Option<(NodeId, nat)>,
    pub used: nat,
}

impl Shape {
    /// Flattened elements of one page.
    pub open spec fn chunk(self) -> nat {
        self.page * self.unit
    }

    /// Whether `n` flattened elements are whole pages.
    pub open spec fn aligned(self, n: int) -> bool {
        n % (self.chunk() as int) == 0
    }

    /// Whether `id` names a node.
    pub open spec fn has(self, id: NodeId) -> bool {
        id < self.nodes.len()
    }

    /// A root alone.
    pub open spec fn bare(page: nat, unit: nat) -> Shape {
        Shape {
            nodes: seq![
                Spot { parent: ROOT, key: Seq::empty(), ns: 0, attached: true, path: Seq::empty() },
            ],
            page,
            unit,
        }
    }

    /// The same with `n` spare places: ids that no node gets.
    pub open spec fn with_spares(self, n: nat) -> Shape {
        Shape {
            nodes: self.nodes + Seq::new(
                n,
                |i: int|
                    Spot { parent: ROOT, key: Seq::empty(), ns: 0, attached: false, path: Seq::empty() },
            ),
            ..self
        }
    }

    /// Logical units of node `i`'s key.
    pub open spec fn units(self, i: int) -> int {
        self.nodes[i].key.len() as int / self.unit as int
    }

    /// Whether `p` lists `c` as a child.
    pub open spec fn is_child(self, p: NodeId, c: NodeId) -> bool {
        &&& 0 < c < self.nodes.len()
        &&& self.nodes[c as int].attached
        &&& self.nodes[c as int].parent == p
    }

    /// Whether `p` lists no child.
    pub open spec fn is_leaf(self, p: NodeId) -> bool {
        forall|c: NodeId| !#[trigger] self.is_child(p, c)
    }

    /// Whether `c` is the child of `p` under `(ns, head)`.
    pub open spec fn named(self, p: NodeId, ns: u32, head: Seq<i64>, c: NodeId) -> bool {
        &&& self.is_child(p, c)
        &&& self.nodes[c as int].ns == ns
        &&& self.nodes[c as int].key.take(self.chunk() as int) == head
    }

    /// The child of `p` under `(ns, head)`, if there is one.
    pub open spec fn child_of(self, p: NodeId, ns: u32, head: Seq<i64>) -> Option<NodeId> {
        if exists|c: NodeId| self.named(p, ns, head, c) {
            Some(choose|c: NodeId| self.named(p, ns, head, c))
        } else {
            None
        }
    }

    /// Node `i` hangs below its parent: its path continues the parent's by its
    /// key. A spare place below the root, which no node takes, has no key.
    pub open spec fn hangs(self, i: int) -> bool {
        let n = self.nodes[i];
        &&& n.parent < self.nodes.len()
        &&& n.key.len() > 0 || (!n.attached && n.parent == ROOT)
        &&& self.aligned(n.key.len() as int)
        &&& n.path == self.nodes[n.parent as int].path + n.key
        &&& n.parent != ROOT ==> self.nodes[n.parent as int].ns == n.ns
    }

    /// A tree shape: a root, nodes that hang below their parents, and no two
    /// siblings of one namespace that begin with the same page.
    pub open spec fn wf(self) -> bool {
        &&& 1 <= self.nodes.len() <= NodeId::MAX
        &&& self.page >= 1
        &&& self.unit == 1 || self.unit == 2
        &&& self.nodes[0] == (Spot {
            parent: ROOT,
            key: Seq::empty(),
            ns: 0,
            attached: true,
            path: Seq::empty(),
        })
        &&& forall|i: int| 0 < i < self.nodes.len() ==> #[trigger] self.hangs(i)
        &&& self.heads_differ()
    }

    /// No two nodes are listed by one parent under one child-table key.
    #[verifier::opaque]
    pub open spec fn heads_differ(self) -> bool {
        forall|c: NodeId, d: NodeId|
            #![trigger self.is_child(self.nodes[c as int].parent, c), self.is_child(
                self.nodes[d as int].parent,
                d,
            )]
            self.clash(c, d) ==> c == d
    }

    /// `c` and `d` are listed by one parent under one child-table key.
    pub open spec fn clash(self, c: NodeId, d: NodeId) -> bool {
        &&& self.has(c)
        &&& self.has(d)
        &&& self.is_child(self.nodes[c as int].parent, c)
        &&& self.is_child(self.nodes[d as int].parent, d)
        &&& self.nodes[c as int].parent == self.nodes[d as int].parent
        &&& self.nodes[c as int].ns == self.nodes[d as int].ns
        &&& self.nodes[c as int].key.take(self.chunk() as int) == self.nodes[d as int].key.take(
            self.chunk() as int,
        )
    }

    /// The shape with node `c` cut after `cut` flattened elements: a new
    /// node takes the front and `c`'s place, `c` keeps the rest below it.
    pub open spec fn split(self, c: NodeId, cut: int) -> Shape {
        let n = self.nodes[c as int];
        let front = Spot {
            parent: n.parent,
            key: n.key.take(cut),
            ns: n.ns,
            attached: true,
            path: self.nodes[n.parent as int].path + n.key.take(cut),
        };
        let tail = Spot { parent: self.nodes.len() as NodeId, key: n.key.skip(cut), ..n };
        Shape { nodes: self.nodes.update(c as int, tail).push(front), ..self }
    }

    /// The shape with a new leaf below `p`.
    pub open spec fn graft(self, p: NodeId, ns: u32, key: Seq<i64>) -> Shape {
        let leaf = Spot {
            parent: p,
            key,
            ns,
            attached: true,
            path: self.nodes[p as int].path + key,
        };
        Shape { nodes: self.nodes.push(leaf), ..self }
    }

    /// The shape with `c` no longer listed by its parent.
    pub open spec fn prune(self, c: NodeId) -> Shape {
        Shape {
            nodes: self.nodes.update(
                c as int,
                Spot { attached: false, ..self.nodes[c as int] },
            ),
            ..self
        }
    }

    /// Number of leading flattened elements that `rem` shares with node `c`'s
    /// key, rounded down to whole pages.
    pub open spec fn shared(self, rem: Seq<i64>, c: NodeId) -> nat {
        let m = seqs::lcp(rem, self.nodes[c as int].key);
        (m - m % self.chunk()) as nat
    }

    /// The walk of the query `rem` from `node` in namespace `ns`.
    pub open spec fn walk(self, node: NodeId, ns: u32, rem: Seq<i64>) -> Walk
        decreases rem.len(),
    {
        if rem.len() < self.chunk() {
            Walk { chain: Seq::empty(), stop: None, used: 0 }
        } else {
            match self.child_of(node, ns, rem.take(self.chunk() as int)) {
                None => Walk { chain: Seq::empty(), stop: None, used: 0 },
                Some(c) => {
                    let m = self.shared(rem, c);
                    if m == 0 || m > rem.len() {
                        Walk { chain: Seq::empty(), stop: None, used: 0 }
                    } else if m < self.nodes[c as int].key.len() {
                        Walk { chain: Seq::empty(), stop: Some((c, m)), used: m }
                    } else {
                        let w = self.walk(c, ns, rem.skip(m as int));
                        Walk { chain: seq![c] + w.chain, stop: w.stop, used: m + w.used }
                    }
                },
            }
        }
    }

    /// The nodes from `id` up to the root, the root left out.
    pub open spec fn up(self, id: NodeId) -> Seq<NodeId>
        decreases self.nodes[id as int].path.len(),
    {
        let p = self.nodes[id as int].parent;
        if id == ROOT || !self.has(id) {
            Seq::empty()
        } else if self.nodes[p as int].path.len() >= self.nodes[id as int].path.len() {
            seq![id]
        } else {
            seq![id] + self.up(p)
        }
    }
}

/// Where a walk ends: the last node matched whole, or the root.
pub open spec fn end_of(chain: Seq<NodeId>) -> NodeId {
    if chain.len() == 0 {
        ROOT
    } else {
        chain.last()
    }
}

/// Facts about whole pages that the proofs use by name.
pub proof fn lemma_aligned(s: Shape, a: int, b: int)
    requires
        s.page >= 1,
        s.unit == 1 || s.unit == 2,
        0 <= b <= a,
        s.aligned(a),
        s.aligned(b),
    ensures
        s.chunk() >= 1,
        s.chunk() >= s.unit,
        s.aligned(a - b),
        s.aligned(a + b),
        a > 0 ==> a >= s.chunk(),
        a - b > 0 ==> a - b >= s.chunk(),
        a % s.unit as int == 0,
{
    lemma_chunk(s);
    let k = s.chunk() as int;
    vstd::arithmetic::div_mod::lemma_sub_mod_noop(a, b, k);
    vstd::arithmetic::div_mod::lemma_add_mod_noop(a, b, k);
    vstd::arithmetic::div_mod::lemma_small_mod(0, k as nat);
    if 0 < a < k {
        vstd::arithmetic::div_mod::lemma_small_mod(a as nat, k as nat);
    }
    if 0 < a - b < k {
        vstd::arithmetic::div_mod::lemma_small_mod((a - b) as nat, k as nat);
    }
    vstd::arithmetic::div_mod::lemma_fundamental_div_mod(a, k);
    if s.unit == 2 {
        let q = a / k;
        assert(k * q == 2 * (s.page as int * q)) by (nonlinear_arith)
            requires
                k == s.page as int * 2,
        ;
    }
}

/// A page holds at least one unit.
pub proof fn lemma_chunk(s: Shape)
    requires
        s.page >= 1,
        s.unit == 1 || s.unit == 2,
    ensures
        s.chunk() >= 1,
        s.chunk() >= s.unit,
        s.unit == 1 ==> s.chunk() == s.page,
        s.unit == 2 ==> s.chunk() == 2 * s.page,
{
}

/// The pages shared with a child found by its head are at least one, and whole.
pub proof fn lemma_shared(s: Shape, rem: Seq<i64>, c: NodeId)
    requires
        s.wf(),
        0 < c < s.nodes.len(),
        s.nodes[c as int].attached,
        rem.len() >= s.chunk(),
        s.nodes[c as int].key.take(s.chunk() as int) == rem.take(s.chunk() as int),
    ensures
        s.chunk() <= s.shared(rem, c) <= rem.len(),
        s.shared(rem, c) <= s.nodes[c as int].key.len(),
        s.aligned(s.shared(rem, c) as int),
        rem.take(s.shared(rem, c) as int) == s.nodes[c as int].key.take(s.shared(rem, c) as int),
        s.shared(rem, c) < s.nodes[c as int].key.len() && s.aligned(rem.len() as int)
            && rem.len() > s.shared(rem, c) ==> rem.skip(s.shared(rem, c) as int).take(s.chunk() as int)
            != s.nodes[c as int].key.skip(s.shared(rem, c) as int).take(s.chunk() as int),
{
    let key = s.nodes[c as int].key;
    let k = s.chunk() as int;
    let m = seqs::lcp(rem, key);
    let t = s.shared(rem, c) as int;
    lemma_chunk(s);
    assert(s.hangs(c as int));
    vstd::arithmetic::div_mod::lemma_small_mod(0, k as nat);
    lemma_aligned(s, key.len() as int, 0);
    seqs::lemma_lcp(rem, key);
    seqs::lemma_lcp_at_least(rem, key, k as nat);
    vstd::arithmetic::div_mod::lemma_fundamental_div_mod(m as int, k);
    vstd::arithmetic::div_mod::lemma_mod_bound(m as int, k);
    vstd::arithmetic::div_mod::lemma_mod_multiples_basic(m as int / k, k);
    assert(k * (m as int / k) == (m as int / k) * k) by (nonlinear_arith);
    assert(t == k * (m as int / k));
    assert(t >= k) by (nonlinear_arith)
        requires
            t == k * (m as int / k),
            m >= k,
            k >= 1,
            m as int == k * (m as int / k) + m as int % k,
            0 <= m as int % k < k,
    ;
    assert(rem.take(t) =~= rem.take(m as int).take(t));
    assert(key.take(t) =~= key.take(m as int).take(t));
    if t < key.len() && s.aligned(rem.len() as int) && rem.len() > t {
        lemma_aligned(s, key.len() as int, t);
        lemma_aligned(s, rem.len() as int, t);
        if rem.skip(t).take(k) == key.skip(t).take(k) {
            assert(rem.take(t + k) =~= rem.take(t) + rem.skip(t).take(k));
            assert(key.take(t + k) =~= key.take(t) + key.skip(t).take(k));
            seqs::lemma_lcp_at_least(rem, key, (t + k) as nat);
            assert(false);
        }
    }
}

/// The child under a child-table key is unique.
pub proof fn lemma_child_of(s: Shape, p: NodeId, ns: u32, head: Seq<i64>, c: NodeId)
    requires
        s.wf(),
        s.named(p, ns, head, c),
    ensures
        s.child_of(p, ns, head) == Some(c),
{
    reveal(Shape::heads_differ);
    let d = choose|d: NodeId| s.named(p, ns, head, d);
    assert(s.named(p, ns, head, d));
    assert(s.is_child(s.nodes[c as int].parent, c));
    assert(s.is_child(s.nodes[d as int].parent, d));
    assert(s.clash(c, d));
}

/// Paths get longer on the way down, but for spare places below the root.
pub proof fn lemma_path_grows(s: Shape, i: NodeId)
    requires
        s.wf(),
        0 < i < s.nodes.len(),
    ensures
        s.nodes[s.nodes[i as int].parent as int].path.len() <= s.nodes[i as int].path.len(),
        s.nodes[i as int].attached || s.nodes[i as int].parent != ROOT ==> s.nodes[s.nodes[i as int].parent as int].path.len()
            < s.nodes[i as int].path.len(),
        s.nodes[i as int].parent != i,
        s.hangs(i as int),
{
    assert(s.hangs(i as int));
}

/// A split keeps the tree a tree.
pub proof fn lemma_split_wf(s: Shape, c: NodeId, cut: int)
    requires
        s.wf(),
        0 < c < s.nodes.len() < NodeId::MAX,
        s.nodes[c as int].attached,
        0 < cut < s.nodes[c as int].key.len(),
        s.aligned(cut),
    ensures
        s.split(c, cut).wf(),
{
    reveal(Shape::heads_differ);
    let t = s.split(c, cut);
    let f = s.nodes.len() as NodeId;
    let n = s.nodes[c as int];
    lemma_path_grows(s, c);
    lemma_aligned(s, n.key.len() as int, cut);
    let k = s.chunk() as int;
    assert(n.key.take(cut) + n.key.skip(cut) =~= n.key);
    assert(n.key.take(cut).take(k) =~= n.key.take(k)) by {
        vstd::arithmetic::div_mod::lemma_small_mod(0, k as nat);
        lemma_aligned(s, cut, 0);
    }
    assert forall|i: int| 0 < i < t.nodes.len() implies #[trigger] t.hangs(i) by {
        if i == c {
            assert(t.nodes[i].path =~= t.nodes[f as int].path + t.nodes[i].key);
        } else if i == f {
            assert(t.nodes[n.parent as int].path == s.nodes[n.parent as int].path);
        } else {
            assert(s.hangs(i));
        }
    }
    assert forall|x: NodeId, y: NodeId|
        #![trigger t.is_child(t.nodes[x as int].parent, x), t.is_child(t.nodes[y as int].parent, y)]
        t.clash(x, y) implies x == y by {
        // The front stands where `c` stood, so a clash with it was one with `c`.
        let x0 = if x == f { c } else { x };
        let y0 = if y == f { c } else { y };
        if x != y {
            if x == c || y == c {
                // `c` is the only child of the front.
                let o = if x == c { y } else { x };
                if o == f {
                } else {
                    assert(s.hangs(o as int));
                }
                assert(false);
            }
            assert(s.is_child(s.nodes[x0 as int].parent, x0));
            assert(s.is_child(s.nodes[y0 as int].parent, y0));
            assert(s.clash(x0, y0));
        }
    }
}

/// A new leaf under a free child-table key keeps the tree a tree.
pub proof fn lemma_graft_wf(s: Shape, p: NodeId, ns: u32, key: Seq<i64>)
    requires
        s.wf(),
        s.has(p),
        s.nodes.len() < NodeId::MAX,
        key.len() > 0,
        s.aligned(key.len() as int),
        p != ROOT ==> s.nodes[p as int].ns == ns,
        s.child_of(p, ns, key.take(s.chunk() as int)) is None,
    ensures
        s.graft(p, ns, key).wf(),
{
    reveal(Shape::heads_differ);
    let t = s.graft(p, ns, key);
    let f = s.nodes.len() as NodeId;
    assert forall|i: int| 0 < i < t.nodes.len() implies #[trigger] t.hangs(i) by {
        if i != f {
            assert(s.hangs(i));
        }
    }
    assert forall|x: NodeId, y: NodeId|
        #![trigger t.is_child(t.nodes[x as int].parent, x), t.is_child(t.nodes[y as int].parent, y)]
        t.clash(x, y) implies x == y by {
        if x != y {
            if x == f || y == f {
                let o = if x == f { y } else { x };
                assert(s.named(p, ns, key.take(s.chunk() as int), o));
                assert(false);
            }
            assert(s.is_child(s.nodes[x as int].parent, x));
            assert(s.is_child(s.nodes[y as int].parent, y));
            assert(s.clash(x, y));
        }
    }
}

/// Taking a node off its parent's list keeps the tree a tree.
pub proof fn lemma_prune_wf(s: Shape, c: NodeId)
    requires
        s.wf(),
        0 < c < s.nodes.len(),
    ensures
        s.prune(c).wf(),
{
    reveal(Shape::heads_differ);
    let t = s.prune(c);
    assert forall|i: int| 0 < i < t.nodes.len() implies #[trigger] t.hangs(i) by {
        assert(s.hangs(i));
    }
    assert forall|x: NodeId, y: NodeId|
        #![trigger t.is_child(t.nodes[x as int].parent, x), t.is_child(t.nodes[y as int].parent, y)]
        t.clash(x, y) implies x == y by {
        assert(s.is_child(s.nodes[x as int].parent, x));
        assert(s.is_child(s.nodes[y as int].parent, y));
        assert(s.clash(x, y));
    }
}

/// The place of one node: its edge key, its parent and its children.
#[derive(Debug, Clone)]
pub struct Links {
    pub children: Vec<(ChildKey, NodeId)>,
    pub parent: Option<NodeId>,
    pub key: Vec<i64>,
}

/// The walk of one query.
pub struct WalkPath {
    /// Nodes matched whole, in order.
    pub chain: Vec<NodeId>,
    /// The node matched in part, and how many of its flattened elements match.
    pub stop: Option<(NodeId, usize)>,
    /// Flattened query elements matched in all.
    pub used: usize,
}

impl WalkPath {
    /// The walk as the model describes it.
    pub open spec fn view(&self) -> Walk {
        Walk {
            chain: self.chain@,
            stop: match self.stop {
                Some((c, m)) => Some((c, m as nat)),
                None => None,
            },
            used: self.used as nat,
        }
    }

    /// The last node matched whole, or `start`.
    pub fn end_from(&self, start: NodeId) -> (r: NodeId)
        ensures
            r == (if self.chain@.len() == 0 {
                start
            } else {
                self.chain@.last()
            }),
    {
        if self.chain.len() == 0 {
            start
        } else {
            self.chain[self.chain.len() - 1]
        }
    }

    /// The last node matched whole, or the root.
    pub fn end(&self) -> (r: NodeId)
        ensures
            r == end_of(self.chain@),
    {
        if self.chain.len() == 0 {
            ROOT
        } else {
            self.chain[self.chain.len() - 1]
        }
    }
}

/// Nodes with their edges; see the module text for the model.
#[derive(Clone)]
pub struct Topology {
    links: Vec<Links>,
    page_size: usize,
    /// Flattened elements per logical unit: 1 (plain) or 2 (bigram).
    unit_size: usize,
    chunk: usize,
    shape: Ghost<Shape>,
}

/// The child table of `p` lists exactly the children that the shape gives it.
pub(crate) open spec fn table_ok(shape: Shape, children: Seq<(ChildKey, NodeId)>, p: NodeId) -> bool {
    &&& forall|k: int|
        0 <= k < children.len() ==> {
            let e = #[trigger] children[k];
            &&& shape.is_child(p, e.1)
            &&& e.0.ns == shape.nodes[e.1 as int].ns
            &&& e.0.head.view() == shape.nodes[e.1 as int].key.take(shape.chunk() as int)
        }
    &&& forall|c: NodeId| #[trigger]
        shape.is_child(p, c) ==> exists|k: int| 0 <= k < children.len() && (#[trigger] children[k]).1 == c
    &&& forall|j: int, k: int|
        0 <= j < k < children.len() ==> (#[trigger] children[j]).1 != (#[trigger] children[k]).1
}

proof fn lemma_split_table_other(
    s: Shape,
    c: NodeId,
    cut: int,
    children: Seq<(ChildKey, NodeId)>,
    p: NodeId,
)
    requires
        s.wf(),
        0 < c < s.nodes.len() < NodeId::MAX,
        s.has(p),
        p != s.nodes[c as int].parent,
        table_ok(s, children, p),
    ensures
        table_ok(s.split(c, cut), children, p),
{
    let t = s.split(c, cut);
    assert forall|d: NodeId| #[trigger] t.is_child(p, d) implies s.is_child(p, d) by {}
    assert forall|k: int| 0 <= k < children.len() implies {
        let e = #[trigger] children[k];
        &&& t.is_child(p, e.1)
        &&& e.0.ns == t.nodes[e.1 as int].ns
        &&& e.0.head.view() == t.nodes[e.1 as int].key.take(t.chunk() as int)
    } by {
        assert(s.is_child(p, children[k].1));
    }
}

proof fn lemma_split_table_parent(
    s: Shape,
    c: NodeId,
    cut: int,
    children: Seq<(ChildKey, NodeId)>,
    slot: int,
    after: Seq<(ChildKey, NodeId)>,
)
    requires
        s.wf(),
        0 < c < s.nodes.len() < NodeId::MAX,
        s.nodes[c as int].attached,
        s.nodes[c as int].key.take(cut).take(s.chunk() as int) == s.nodes[c as int].key.take(s.chunk() as int),
        table_ok(s, children, s.nodes[c as int].parent),
        0 <= slot < children.len(),
        children[slot].1 == c,
        after == children.update(slot, (children[slot].0, s.nodes.len() as NodeId)),
    ensures
        table_ok(s.split(c, cut), after, s.nodes[c as int].parent),
{
    let t = s.split(c, cut);
    let p = s.nodes[c as int].parent;
    let f = s.nodes.len() as NodeId;
    assert forall|k: int| 0 <= k < after.len() implies {
        let e = #[trigger] after[k];
        &&& t.is_child(p, e.1)
        &&& e.0.ns == t.nodes[e.1 as int].ns
        &&& e.0.head.view() == t.nodes[e.1 as int].key.take(t.chunk() as int)
    } by {
        assert(s.is_child(p, children[k].1));
        if k != slot {
            assert(children[k].1 != children[slot].1);
        }
    }
    assert forall|d: NodeId| #[trigger] t.is_child(p, d) implies exists|k: int|
        0 <= k < after.len() && (#[trigger] after[k]).1 == d by {
        if d == f {
            assert(after[slot].1 == d);
        } else {
            lemma_path_grows(s, c);
            assert(s.is_child(p, d));
            let k = choose|k: int| 0 <= k < children.len() && (#[trigger] children[k]).1 == d;
            assert(after[k].1 == d);
        }
    }
    assert forall|j: int, k: int| 0 <= j < k < after.len() implies (#[trigger] after[j]).1 != (
    #[trigger] after[k]).1 by {
        assert(s.is_child(p, children[j].1));
        assert(s.is_child(p, children[k].1));
        assert(children[j].1 != children[k].1);
    }
}

impl Topology {
    /// The shape.
    pub closed spec fn view(&self) -> Shape {
        self.shape@
    }

    /// The arena spells out the shape.
    pub closed spec fn wf(&self) -> bool {
        &&& self.shape@.wf()
        &&& self.page_size == self.shape@.page
        &&& self.unit_size == self.shape@.unit
        &&& self.chunk == self.shape@.chunk()
        &&& self.links@.len() == self.shape@.nodes.len()
        &&& forall|i: int| 0 <= i < self.links@.len() ==> #[trigger] self.link_ok(i)
    }

    closed spec fn link_ok(&self, i: int) -> bool {
        &&& self.links@[i].key@ == self.shape@.nodes[i].key
        &&& i == 0 ==> self.links@[i].parent is None
        &&& i > 0 ==> self.links@[i].parent == Some(self.shape@.nodes[i].parent)
        &&& table_ok(self.shape@, self.links@[i].children@, i as NodeId)
    }

    /// What holds of the shape of a well-formed topology.
    pub proof fn lemma_wf(&self)
        requires
            self.wf(),
        ensures
            self@.wf(),
            self@.chunk() <= usize::MAX,
            self@.page <= usize::MAX,
    {
    }

    /// A root alone.
    pub fn new(page_size: usize, unit_size: usize) -> (r: Topology)
        requires
            page_size >= 1,
            unit_size == 1 || unit_size == 2,
            page_size * unit_size <= usize::MAX,
        ensures
            r.wf(),
            r@ == Shape::bare(page_size as nat, unit_size as nat),
    {
        let r = Topology::with_spares(page_size, unit_size, 0);
        assert(r@ =~= Shape::bare(page_size as nat, unit_size as nat));
        r
    }

    /// A root alone, with `spares` ids that no node gets behind it.
    pub fn with_spares(page_size: usize, unit_size: usize, spares: usize) -> (r: Topology)
        requires
            page_size >= 1,
            unit_size == 1 || unit_size == 2,
            page_size * unit_size <= usize::MAX,
            spares < NodeId::MAX,
        ensures
            r.wf(),
            r@ == Shape::bare(page_size as nat, unit_size as nat).with_spares(spares as nat),
    {
        let mut links: Vec<Links> = Vec::new();
        links.push(Links { children: Vec::new(), parent: None, key: Vec::new() });
        let mut k: usize = 0;
        while k < spares
            invariant
                k <= spares,
                links@.len() == k + 1,
                links@[0].children@.len() == 0,
                links@[0].parent is None,
                links@[0].key@.len() == 0,
                forall|i: int|
                    0 < i < links@.len() ==> {
                        &&& (#[trigger] links@[i]).children@.len() == 0
                        &&& links@[i].parent == Some(ROOT)
                        &&& links@[i].key@.len() == 0
                    },
            decreases spares - k,
        {
            links.push(Links { children: Vec::new(), parent: Some(ROOT), key: Vec::new() });
            k += 1;
        }
        let r = Topology {
            links,
            page_size,
            unit_size,
            chunk: page_size * unit_size,
            shape: Ghost(Shape::bare(page_size as nat, unit_size as nat).with_spares(spares as nat)),
        };
        proof {
            reveal(Shape::heads_differ);
            let s = r@;
            vstd::arithmetic::div_mod::lemma_small_mod(0, s.chunk());
            assert forall|i: int| 0 < i < s.nodes.len() implies #[trigger] s.hangs(i) by {
                assert(s.nodes[i].path =~= s.nodes[0].path + s.nodes[i].key);
            }
            assert forall|p: NodeId, c: NodeId| !#[trigger] s.is_child(p, c) by {}
            assert forall|i: int| 0 <= i < r.links@.len() implies #[trigger] r.link_ok(i) by {
                let l = r.links@[i];
                assert(l.key@ =~= s.nodes[i].key);
            }
        }
        r
    }

    /// Number of nodes ever made.
    pub fn len(&self) -> (r: usize)
        requires
            self.wf(),
        ensures
            r == self@.nodes.len(),
    {
        self.links.len()
    }

    /// Logical units per page.
    pub fn page_size(&self) -> (r: usize)
        requires
            self.wf(),
        ensures
            r == self@.page,
    {
        self.page_size
    }

    /// Flattened elements per logical unit.
    pub fn unit_size(&self) -> (r: usize)
        requires
            self.wf(),
        ensures
            r == self@.unit,
    {
        self.unit_size
    }

    /// The parent of `id`; `None` for the root.
    pub fn parent(&self, id: NodeId) -> (r: Option<NodeId>)
        requires
            self.wf(),
            self@.has(id),
        ensures
            id == ROOT <==> r is None,
            r matches Some(p) ==> p == self@.nodes[id as int].parent && self@.has(p),
    {
        proof {
            assert(self.link_ok(id as int));
            if id != ROOT {
                assert(self@.hangs(id as int));
            }
        }
        self.links[id as usize].parent
    }

    /// The flattened edge key of `id`.
    pub fn key(&self, id: NodeId) -> (r: &[i64])
        requires
            self.wf(),
            self@.has(id),
        ensures
            r@ == self@.nodes[id as int].key,
    {
        proof {
            assert(self.link_ok(id as int));
        }
        self.links[id as usize].key.as_slice()
    }

    /// The namespace of `id`.
    pub fn ns(&self, id: NodeId) -> (r: u32)
        requires
            self.wf(),
            self@.has(id),
            self@.nodes[id as int].attached,
        ensures
            r == self@.nodes[id as int].ns,
    {
        if id == ROOT {
            return 0;
        }
        let slot = self.slot_of(id);
        let up = match self.links[id as usize].parent {
            Some(p) => p,
            None => ROOT,
        };
        proof {
            assert(self.link_ok(id as int));
            assert(self@.hangs(id as int));
            assert(self.link_ok(up as int));
        }
        self.links[up as usize].children[slot].0.ns
    }

    /// Logical units on the edge of `id`.
    pub fn units(&self, id: NodeId) -> (r: usize)
        requires
            self.wf(),
            self@.has(id),
        ensures
            r == self@.units(id as int),
    {
        proof {
            assert(self.link_ok(id as int));
        }
        self.links[id as usize].key.len() / self.unit_size
    }

    /// Whether `id` lists no child.
    pub fn is_leaf(&self, id: NodeId) -> (r: bool)
        requires
            self.wf(),
            self@.has(id),
        ensures
            r == self@.is_leaf(id),
    {
        proof {
            assert(self.link_ok(id as int));
            if self.links@[id as int].children@.len() > 0 {
                assert(self@.is_child(id, self.links@[id as int].children@[0].1));
            }
        }
        self.links[id as usize].children.len() == 0
    }

    /// The children that `id` lists.
    pub fn children(&self, id: NodeId) -> (r: Vec<NodeId>)
        requires
            self.wf(),
            self@.has(id),
        ensures
            r@.no_duplicates(),
            forall|c: NodeId| #[trigger] r@.contains(c) <==> self@.is_child(id, c),
    {
        proof {
            assert(self.link_ok(id as int));
        }
        let table = &self.links[id as usize].children;
        let mut r: Vec<NodeId> = Vec::new();
        let mut k: usize = 0;
        while k < table.len()
            invariant
                k <= table@.len(),
                r@.len() == k,
                forall|j: int| 0 <= j < k ==> #[trigger] r@[j] == table@[j].1,
            decreases table@.len() - k,
        {
            r.push(table[k].1);
            k += 1;
        }
        proof {
            assert forall|c: NodeId| #[trigger] r@.contains(c) <==> self@.is_child(id, c) by {
                if r@.contains(c) {
                    let j = r@.index_of(c);
                    assert(table@[j].1 == c);
                }
                if self@.is_child(id, c) {
                    let j = choose|j: int| 0 <= j < table@.len() && (#[trigger] table@[j]).1 == c;
                    assert(r@[j] == c);
                }
            }
        }
        r
    }

    /// Whether the parent of `id` lists it; the root has none.
    pub fn attached(&self, id: NodeId) -> (r: bool)
        requires
            self.wf(),
            self@.has(id),
        ensures
            r == self@.nodes[id as int].attached,
    {
        proof {
            self.lemma_wf();
        }
        match self.parent(id) {
            None => true,
            Some(p) => {
                let kids = self.children(p);
                assert(self@.is_child(p, id) == self@.nodes[id as int].attached);
                let mut k: usize = 0;
                while k < kids.len()
                    invariant
                        k <= kids@.len(),
                        forall|c: NodeId| #[trigger] kids@.contains(c) <==> self@.is_child(p, c),
                        self@.is_child(p, id) == self@.nodes[id as int].attached,
                        forall|j: int| 0 <= j < k ==> #[trigger] kids@[j] != id,
                    decreases kids@.len() - k,
                {
                    if kids[k] == id {
                        assert(kids@.contains(id));
                        return true;
                    }
                    k += 1;
                }
                proof {
                    assert(!kids@.contains(id));
                }
                false
            },
        }
    }

    /// The child of `node` in namespace `ns` whose first page is `head`.
    pub fn find_child(&self, node: NodeId, ns: u32, head: &[i64]) -> (r: Option<NodeId>)
        requires
            self.wf(),
            self@.has(node),
        ensures
            r == self@.child_of(node, ns, head@),
            r matches Some(c) ==> self@.named(node, ns, head@, c),
    {
        proof {
            assert(self.link_ok(node as int));
        }
        let table = &self.links[node as usize].children;
        let mut k: usize = 0;
        while k < table.len()
            invariant
                self.wf(),
                table_ok(self@, table@, node),
                k <= table@.len(),
                forall|j: int|
                    0 <= j < k ==> !((#[trigger] table@[j]).0.ns == ns && table@[j].0.head.view() == head@),
            decreases table@.len() - k,
        {
            if table[k].0.ns == ns && table[k].0.head.is_page(head) {
                let c = table[k].1;
                proof {
                    lemma_child_of(self@, node, ns, head@, c);
                }
                return Some(c);
            }
            k += 1;
        }
        proof {
            if exists|c: NodeId| self@.named(node, ns, head@, c) {
                let c = choose|c: NodeId| self@.named(node, ns, head@, c);
                assert(self@.is_child(node, c));
                let j = choose|j: int| 0 <= j < table@.len() && (#[trigger] table@[j]).1 == c;
                assert(table@[j].0.ns == ns);
            }
        }
        None
    }

    /// Index of `child` in its parent's table.
    fn slot_of(&self, child: NodeId) -> (k: usize)
        requires
            self.wf(),
            0 < child < self@.nodes.len(),
            self@.nodes[child as int].attached,
        ensures
            k < self.links@[self@.nodes[child as int].parent as int].children@.len(),
            self.links@[self@.nodes[child as int].parent as int].children@[k as int].1 == child,
    {
        let ghost p = self@.nodes[child as int].parent;
        proof {
            assert(self.link_ok(child as int));
            assert(self@.hangs(child as int));
            assert(self.link_ok(p as int));
            assert(self@.is_child(p, child));
        }
        let parent = match self.links[child as usize].parent {
            Some(q) => q,
            None => ROOT,
        };
        let table = &self.links[parent as usize].children;
        let mut k: usize = 0;
        while table[k].1 != child
            invariant
                k < table.len(),
                exists|j: int| k <= j < table@.len() && (#[trigger] table@[j]).1 == child,
            decreases table@.len() - k,
        {
            k += 1;
        }
        k
    }

    /// Cuts `child` after `cut` flattened elements; the new node takes the
    /// front and stands where `child` stood, `child` keeps the rest.
    pub fn split(&mut self, child: NodeId, cut: usize) -> (id: NodeId)
        requires
            old(self).wf(),
            0 < child < old(self)@.nodes.len() < NodeId::MAX,
            old(self)@.nodes[child as int].attached,
            0 < cut < old(self)@.nodes[child as int].key.len(),
            old(self)@.aligned(cut as int),
        ensures
            final(self).wf(),
            final(self)@ == old(self)@.split(child, cut as int),
            id == old(self)@.nodes.len(),
    {
        let ghost before = *self;
        let ghost s = self@;
        let ghost t = s.split(child, cut as int);
        let ghost gp = s.nodes[child as int].parent;
        proof {
            lemma_split_wf(s, child, cut as int);
            lemma_path_grows(s, child);
            assert(self.link_ok(child as int));
            assert(self.link_ok(gp as int));
        }
        let id = self.links.len() as NodeId;
        let slot = self.slot_of(child);
        let parent = self.links[child as usize].parent;
        let up = match parent {
            Some(p) => p,
            None => ROOT,
        };
        let ns = self.links[up as usize].children[slot].0.ns;
        let n = self.links[child as usize].key.len();
        let front_key = copy_range(self.links[child as usize].key.as_slice(), 0, cut);
        let tail_key = copy_range(self.links[child as usize].key.as_slice(), cut, n);
        proof {
            lemma_aligned(s, n as int, cut as int);
            vstd::arithmetic::div_mod::lemma_small_mod(0, s.chunk());
            lemma_aligned(s, cut as int, 0);
        }
        let tail_head = Head::of_page(
            slice_subrange(tail_key.as_slice(), 0, self.chunk),
            self.page_size,
        );
        let mut below: Vec<(ChildKey, NodeId)> = Vec::new();
        below.push((ChildKey { ns, head: tail_head }, child));
        self.links[child as usize].key = tail_key;
        self.links[child as usize].parent = Some(id);
        self.links[up as usize].children[slot].1 = id;
        self.links.push(Links { children: below, parent, key: front_key });
        self.shape = Ghost(t);
        proof {
            assert(s.nodes[child as int].key.take(cut as int).take(s.chunk() as int)
                =~= s.nodes[child as int].key.take(s.chunk() as int));
            assert(t.nodes[child as int].key =~= s.nodes[child as int].key.subrange(cut as int, n as int));
            assert(t.nodes[id as int].key =~= s.nodes[child as int].key.subrange(0, cut as int));
            assert(t.nodes[child as int].key.take(s.chunk() as int)
                =~= s.nodes[child as int].key.subrange(cut as int, n as int).subrange(0, s.chunk() as int));
            assert forall|i: int| 0 <= i < self.links@.len() implies #[trigger] self.link_ok(i) by {
                if i < s.nodes.len() {
                    assert(before.link_ok(i));
                    if i == gp {
                        lemma_split_table_parent(
                            s,
                            child,
                            cut as int,
                            before.links@[i].children@,
                            slot as int,
                            self.links@[i].children@,
                        );
                    } else {
                        lemma_split_table_other(s, child, cut as int, before.links@[i].children@, i as NodeId);
                    }
                } else {
                    assert forall|d: NodeId| #[trigger] t.is_child(id, d) implies exists|k: int|
                        0 <= k < self.links@[i].children@.len() && (#[trigger] self.links@[i].children@[k]).1 == d by {
                        if d != child {
                            assert(s.hangs(d as int));
                        }
                        assert(self.links@[i].children@[0].1 == d);
                    }
                }
            }
        }
        id
    }

    /// Adds a leaf below `parent` under a free child-table key.
    pub fn graft(&mut self, parent: NodeId, ns: u32, key: Vec<i64>) -> (id: NodeId)
        requires
            old(self).wf(),
            old(self)@.has(parent),
            old(self)@.nodes.len() < NodeId::MAX,
            key@.len() > 0,
            old(self)@.aligned(key@.len() as int),
            parent != ROOT ==> old(self)@.nodes[parent as int].ns == ns,
            old(self)@.child_of(parent, ns, key@.take(old(self)@.chunk() as int)) is None,
        ensures
            final(self).wf(),
            final(self)@ == old(self)@.graft(parent, ns, key@),
            id == old(self)@.nodes.len(),
    {
        let ghost before = *self;
        let ghost s = self@;
        let ghost t = s.graft(parent, ns, key@);
        proof {
            lemma_graft_wf(s, parent, ns, key@);
            vstd::arithmetic::div_mod::lemma_small_mod(0, s.chunk());
            lemma_aligned(s, key@.len() as int, 0);
        }
        let id = self.links.len() as NodeId;
        let head = Head::of_page(slice_subrange(key.as_slice(), 0, self.chunk), self.page_size);
        let ghost k0 = key@;
        assert(head.view() =~= k0.take(s.chunk() as int));
        self.links[parent as usize].children.push((ChildKey { ns, head }, id));
        self.links.push(Links { children: Vec::new(), parent: Some(parent), key });
        self.shape = Ghost(t);
        proof {
            assert forall|i: int| 0 <= i < self.links@.len() implies #[trigger] self.link_ok(i) by {
                if i < s.nodes.len() {
                    assert(before.link_ok(i));
                    let old_table = before.links@[i].children@;
                    let table = self.links@[i].children@;
                    assert forall|k: int| 0 <= k < table.len() implies {
                        let e = #[trigger] table[k];
                        &&& t.is_child(i as NodeId, e.1)
                        &&& e.0.ns == t.nodes[e.1 as int].ns
                        &&& e.0.head.view() == t.nodes[e.1 as int].key.take(t.chunk() as int)
                    } by {
                        if k < old_table.len() {
                            assert(table[k] == old_table[k]);
                            assert(s.is_child(i as NodeId, old_table[k].1));
                        }
                    }
                    assert forall|d: NodeId| #[trigger] t.is_child(i as NodeId, d) implies exists|k: int|
                        0 <= k < table.len() && (#[trigger] table[k]).1 == d by {
                        if d == id {
                            assert(table[table.len() - 1].1 == d);
                        } else {
                            assert(s.is_child(i as NodeId, d));
                            let k = choose|k: int| 0 <= k < old_table.len() && (#[trigger] old_table[k]).1 == d;
                            assert(table[k].1 == d);
                        }
                    }
                    assert forall|j: int, k: int| 0 <= j < k < table.len() implies (#[trigger] table[j]).1
                        != (#[trigger] table[k]).1 by {
                        assert(s.is_child(i as NodeId, old_table[j].1));
                        if k < old_table.len() {
                            assert(old_table[j].1 != old_table[k].1);
                        }
                    }
                } else {
                    assert forall|d: NodeId| !#[trigger] t.is_child(id, d) by {
                        if t.is_child(id, d) {
                            if d == id {
                                assert(false);
                            }
                            assert(s.hangs(d as int));
                        }
                    }
                }
            }
        }
        id
    }

    /// Takes `node` off its parent's list.
    pub fn prune(&mut self, node: NodeId)
        requires
            old(self).wf(),
            0 < node < old(self)@.nodes.len(),
            old(self)@.nodes[node as int].attached,
        ensures
            final(self).wf(),
            final(self)@ == old(self)@.prune(node),
    {
        let ghost before = *self;
        let ghost s = self@;
        let ghost t = s.prune(node);
        let ghost p = s.nodes[node as int].parent;
        proof {
            lemma_prune_wf(s, node);
            lemma_path_grows(s, node);
            assert(self.link_ok(node as int));
            assert(self.link_ok(p as int));
        }
        let slot = self.slot_of(node);
        let up = match self.links[node as usize].parent {
            Some(q) => q,
            None => ROOT,
        };
        self.links[up as usize].children.remove(slot);
        self.shape = Ghost(t);
        proof {
            assert forall|i: int| 0 <= i < self.links@.len() implies #[trigger] self.link_ok(i) by {
                assert(before.link_ok(i));
                let old_table = before.links@[i].children@;
                let table = self.links@[i].children@;
                assert forall|k: int| 0 <= k < table.len() implies {
                    let e = #[trigger] table[k];
                    &&& t.is_child(i as NodeId, e.1)
                    &&& e.0.ns == t.nodes[e.1 as int].ns
                    &&& e.0.head.view() == t.nodes[e.1 as int].key.take(t.chunk() as int)
                } by {
                    let k0 = if i == p && k >= slot { k + 1 } else { k };
                    assert(table[k] == old_table[k0]);
                    assert(s.is_child(i as NodeId, old_table[k0].1));
                    if i == p {
                        assert(old_table[k0].1 != old_table[slot as int].1);
                    }
                }
                assert forall|d: NodeId| #[trigger] t.is_child(i as NodeId, d) implies exists|k: int|
                    0 <= k < table.len() && (#[trigger] table[k]).1 == d by {
                    assert(s.is_child(i as NodeId, d));
                    let k0 = choose|k: int| 0 <= k < old_table.len() && (#[trigger] old_table[k]).1 == d;
                    let k = if i == p && k0 > slot { k0 - 1 } else { k0 };
                    assert(table[k].1 == d);
                }
                assert forall|j: int, k: int| 0 <= j < k < table.len() implies (#[trigger] table[j]).1 != (
                #[trigger] table[k]).1 by {
                    let j0 = if i == p && j >= slot { j + 1 } else { j };
                    let k0 = if i == p && k >= slot { k + 1 } else { k };
                    assert(old_table[j0].1 != old_table[k0].1);
                }
            }
        }
    }

    /// Number of leading flattened elements, in whole pages, that `rem`
    /// shares with the key of `c`.
    pub fn shared(&self, rem: &[i64], c: NodeId) -> (r: usize)
        requires
            self.wf(),
            self@.has(c),
        ensures
            r == self@.shared(rem@, c),
    {
        proof {
            self.lemma_wf();
            lemma_chunk(self@);
        }
        let m = common_prefix_len(rem, self.key(c));
        proof {
            vstd::arithmetic::div_mod::lemma_mod_decreases(m as nat, self.chunk as nat);
        }
        m - m % self.chunk
    }

    /// Flattened elements of one page.
    pub fn chunk(&self) -> (r: usize)
        requires
            self.wf(),
        ensures
            r == self@.chunk(),
    {
        self.chunk
    }

    /// Follows `flat` from the root in namespace `ns`.
    pub fn walk(&self, ns: u32, flat: &[i64]) -> (r: WalkPath)
        requires
            self.wf(),
            self@.aligned(flat@.len() as int),
        ensures
            r@ == self@.walk(ROOT, ns, flat@),
    {
        proof {
            self.lemma_wf();
        }
        self.walk_from(ROOT, ns, flat)
    }

    /// Follows `flat` from `start` in namespace `ns`.
    pub fn walk_from(&self, start: NodeId, ns: u32, flat: &[i64]) -> (r: WalkPath)
        requires
            self.wf(),
            self@.has(start),
            self@.aligned(flat@.len() as int),
        ensures
            r@ == self@.walk(start, ns, flat@),
    {
        let ghost s = self@;
        let mut chain: Vec<NodeId> = Vec::new();
        let mut node: NodeId = start;
        let mut used: usize = 0;
        let ghost w = s.walk(start, ns, flat@);
        assert(flat@.skip(0) =~= flat@);
        proof {
            lemma_chunk(s);
        }
        while flat.len() - used >= self.chunk
            invariant
                self.wf(),
                s == self@,
                s.has(node),
                self.chunk >= 1,
                used <= flat@.len(),
                w == s.walk(start, ns, flat@),
                w.chain == chain@ + s.walk(node, ns, flat@.skip(used as int)).chain,
                w.stop == s.walk(node, ns, flat@.skip(used as int)).stop,
                w.used == used + s.walk(node, ns, flat@.skip(used as int)).used,
            decreases flat@.len() - used,
        {
            let ghost rem = flat@.skip(used as int);
            let head = slice_subrange(flat, used, used + self.chunk);
            assert(head@ =~= rem.take(s.chunk() as int));
            match self.find_child(node, ns, head) {
                None => {
                    assert(chain@ =~= w.chain);
                    return WalkPath { chain, stop: None, used };
                },
                Some(c) => {
                    proof {
                        lemma_shared(s, rem, c);
                        assert(self.link_ok(c as int));
                    }
                    let rest = slice_subrange(flat, used, flat.len());
                    assert(rest@ =~= rem);
                    let m0 = common_prefix_len(rest, self.key(c));
                    proof {
                        vstd::arithmetic::div_mod::lemma_mod_decreases(m0 as nat, self.chunk as nat);
                    }
                    let m = m0 - m0 % self.chunk;
                    if m < self.links[c as usize].key.len() {
                        assert(chain@ =~= w.chain);
                        return WalkPath { chain, stop: Some((c, m)), used: used + m };
                    }
                    chain.push(c);
                    proof {
                        assert(rem.skip(m as int) =~= flat@.skip(used + m as int));
                        let w1 = s.walk(c, ns, rem.skip(m as int));
                        assert(s.walk(node, ns, rem).chain == seq![c] + w1.chain);
                        assert(chain@ + w1.chain =~= chain@.drop_last() + (seq![c] + w1.chain));
                    }
                    node = c;
                    used = used + m;
                },
            }
        }
        assert(chain@ =~= w.chain);
        WalkPath { chain, stop: None, used }
    }

    /// The nodes from `id` up to the root, the root left out.
    pub fn up(&self, id: NodeId) -> (r: Vec<NodeId>)
        requires
            self.wf(),
            self@.has(id),
        ensures
            r@ == self@.up(id),
    {
        let ghost s = self@;
        let mut r: Vec<NodeId> = Vec::new();
        let mut cur = id;
        while cur != ROOT
            invariant
                self.wf(),
                s == self@,
                s.has(cur),
                s.up(id) == r@ + s.up(cur),
            decreases if cur == ROOT { 0 } else { s.nodes[cur as int].path.len() + 1 },
        {
            proof {
                lemma_path_grows(s, cur);
                let p = s.nodes[cur as int].parent;
                assert(s.up(cur) =~= seq![cur] + s.up(p));
                assert(r@ + (seq![cur] + s.up(p)) =~= r@.push(cur) + s.up(p));
            }
            r.push(cur);
            cur = match self.parent(cur) {
                Some(p) => p,
                None => ROOT,
            };
        }
        assert(r@ + s.up(ROOT) =~= r@);
        r
    }
}

/// The nodes that a walk passes are children of one another, in the query's
/// namespace, and the matched part is whole pages.
pub proof fn lemma_walk_chain(s: Shape, node: NodeId, ns: u32, rem: Seq<i64>)
    requires
        s.wf(),
        s.has(node),
        s.aligned(rem.len() as int),
    ensures
        ({
            let w = s.walk(node, ns, rem);
            &&& w.used <= rem.len()
            &&& s.aligned(w.used as int)
            &&& forall|k: int|
                0 <= k < w.chain.len() ==> {
                    let c = #[trigger] w.chain[k];
                    &&& s.is_child(if k == 0 { node } else { w.chain[k - 1] }, c)
                    &&& s.nodes[c as int].ns == ns
                }
        }),
    decreases rem.len(),
{
    let w = s.walk(node, ns, rem);
    let k = s.chunk() as int;
    lemma_chunk(s);
    vstd::arithmetic::div_mod::lemma_small_mod(0, s.chunk());
    if rem.len() >= k {
        if let Some(c) = s.child_of(node, ns, rem.take(k)) {
            assert(s.named(node, ns, rem.take(k), c));
            lemma_shared(s, rem, c);
            let m = s.shared(rem, c) as int;
            if m == s.nodes[c as int].key.len() {
                lemma_aligned(s, rem.len() as int, m);
                lemma_walk_chain(s, c, ns, rem.skip(m));
                let w1 = s.walk(c, ns, rem.skip(m));
                assert forall|j: int| 0 <= j < w.chain.len() implies {
                    let x = #[trigger] w.chain[j];
                    &&& s.is_child(if j == 0 { node } else { w.chain[j - 1] }, x)
                    &&& s.nodes[x as int].ns == ns
                } by {
                    if j > 0 {
                        assert(w.chain[j] == w1.chain[j - 1]);
                        if j > 1 {
                            assert(w.chain[j - 1] == w1.chain[j - 2]);
                        }
                    }
                }
                if w1.used >= m {
                    lemma_aligned(s, w1.used as int, m);
                } else {
                    lemma_aligned(s, m, w1.used as int);
                }
            }
        }
    }
}

/// Where a walk stops: inside a child of its last node, or where no child
/// goes on.
pub proof fn lemma_walk_stop(s: Shape, node: NodeId, ns: u32, rem: Seq<i64>)
    requires
        s.wf(),
        s.has(node),
        s.aligned(rem.len() as int),
    ensures
        ({
            let w = s.walk(node, ns, rem);
            let end = if w.chain.len() == 0 { node } else { w.chain.last() };
            &&& w.stop matches Some((c, m)) ==> {
                &&& s.is_child(end, c)
                &&& s.nodes[c as int].ns == ns
                &&& 0 < m < s.nodes[c as int].key.len()
                &&& m <= w.used
                &&& s.aligned(m as int)
                &&& w.used < rem.len() ==> rem.skip(w.used as int).take(s.chunk() as int)
                    != s.nodes[c as int].key.skip(m as int).take(s.chunk() as int)
            }
            &&& w.stop is None && w.used < rem.len() ==> s.child_of(
                end,
                ns,
                rem.skip(w.used as int).take(s.chunk() as int),
            ) is None
        }),
    decreases rem.len(),
{
    let w = s.walk(node, ns, rem);
    let k = s.chunk() as int;
    lemma_chunk(s);
    vstd::arithmetic::div_mod::lemma_small_mod(0, s.chunk());
    lemma_aligned(s, rem.len() as int, 0);
    assert(rem.skip(0) =~= rem);
    if rem.len() >= k {
        if let Some(c) = s.child_of(node, ns, rem.take(k)) {
            assert(s.named(node, ns, rem.take(k), c));
            lemma_shared(s, rem, c);
            let m = s.shared(rem, c) as int;
            if m == s.nodes[c as int].key.len() {
                lemma_aligned(s, rem.len() as int, m);
                lemma_walk_chain(s, c, ns, rem.skip(m));
                lemma_walk_stop(s, c, ns, rem.skip(m));
                let w1 = s.walk(c, ns, rem.skip(m));
                assert(w.chain == seq![c] + w1.chain);
                assert(w.chain.last() == (if w1.chain.len() == 0 { c } else { w1.chain.last() }));
                assert(rem.skip(m).skip(w1.used as int) =~= rem.skip(w.used as int));
            }
        }
    }
}

/// The path of a walk's last node is the part of the query matched whole.
pub proof fn lemma_walk_path(s: Shape, node: NodeId, ns: u32, rem: Seq<i64>)
    requires
        s.wf(),
        s.has(node),
        s.aligned(rem.len() as int),
    ensures
        ({
            let w = s.walk(node, ns, rem);
            let end = if w.chain.len() == 0 { node } else { w.chain.last() };
            let whole = match w.stop {
                Some((c, m)) => w.used - m,
                None => w.used as int,
            };
            &&& 0 <= whole <= rem.len()
            &&& s.nodes[end as int].path == s.nodes[node as int].path + rem.take(whole)
        }),
    decreases rem.len(),
{
    let w = s.walk(node, ns, rem);
    let k = s.chunk() as int;
    lemma_chunk(s);
    let p = s.nodes[node as int].path;
    assert(p + rem.take(0) =~= p);
    if rem.len() >= k {
        if let Some(c) = s.child_of(node, ns, rem.take(k)) {
            assert(s.named(node, ns, rem.take(k), c));
            lemma_shared(s, rem, c);
            assert(s.hangs(c as int));
            let m = s.shared(rem, c) as int;
            let key = s.nodes[c as int].key;
            if m == key.len() {
                assert(key.take(m) =~= key);
                lemma_aligned(s, rem.len() as int, m);
                lemma_walk_path(s, c, ns, rem.skip(m));
                let w1 = s.walk(c, ns, rem.skip(m));
                let whole1 = match w1.stop {
                    Some((d, n)) => w1.used - n,
                    None => w1.used as int,
                };
                assert(w.chain == seq![c] + w1.chain);
                assert(w.chain.last() == (if w1.chain.len() == 0 { c } else { w1.chain.last() }));
                assert(p + rem.take(m) + rem.skip(m).take(whole1) =~= p + rem.take(m + whole1));
            }
        }
    }
}

/// What a walk passes, and where it stops.
pub proof fn lemma_walk(s: Shape, node: NodeId, ns: u32, rem: Seq<i64>)
    requires
        s.wf(),
        s.has(node),
        s.aligned(rem.len() as int),
    ensures
        ({
            let w = s.walk(node, ns, rem);
            let end = if w.chain.len() == 0 { node } else { w.chain.last() };
            &&& w.used <= rem.len()
            &&& s.aligned(w.used as int)
            &&& s.has(end)
            &&& w.chain.no_duplicates()
            &&& forall|k: int|
                0 <= k < w.chain.len() ==> {
                    let c = #[trigger] w.chain[k];
                    &&& s.is_child(if k == 0 { node } else { w.chain[k - 1] }, c)
                    &&& s.nodes[c as int].ns == ns
                }
            &&& w.stop matches Some((c, m)) ==> {
                &&& s.is_child(end, c)
                &&& s.nodes[c as int].ns == ns
                &&& !w.chain.contains(c)
                &&& 0 < m < s.nodes[c as int].key.len()
                &&& m <= w.used
                &&& s.aligned(m as int)
                &&& w.used < rem.len() ==> rem.skip(w.used as int).take(s.chunk() as int)
                    != s.nodes[c as int].key.skip(m as int).take(s.chunk() as int)
            }
            &&& w.stop is None && w.used < rem.len() ==> s.child_of(
                end,
                ns,
                rem.skip(w.used as int).take(s.chunk() as int),
            ) is None
        }),
{
    let w = s.walk(node, ns, rem);
    lemma_walk_chain(s, node, ns, rem);
    lemma_walk_stop(s, node, ns, rem);
    assert forall|i: int, j: int| 0 <= i < w.chain.len() && 0 <= j < w.chain.len() && i != j implies w.chain[i]
        != w.chain[j] by {
        if i < j {
            lemma_chain_grows(s, node, w.chain, i, j);
        } else {
            lemma_chain_grows(s, node, w.chain, j, i);
        }
    }
    if let Some((c, m)) = w.stop {
        if w.chain.contains(c) {
            let j = w.chain.index_of(c);
            lemma_chain_grows(s, node, w.chain, j, w.chain.len() - 1);
            lemma_path_grows(s, c);
        }
    }
}

/// Paths get longer along a chain of children.
pub proof fn lemma_chain_grows(s: Shape, node: NodeId, chain: Seq<NodeId>, i: int, j: int)
    requires
        s.wf(),
        0 <= i <= j < chain.len(),
        forall|k: int|
            0 <= k < chain.len() ==> s.is_child(
                if k == 0 {
                    node
                } else {
                    chain[k - 1]
                },
                #[trigger] chain[k],
            ),
    ensures
        s.nodes[chain[i] as int].path.len() <= s.nodes[chain[j] as int].path.len(),
        i < j ==> s.nodes[chain[i] as int].path.len() < s.nodes[chain[j] as int].path.len(),
    decreases j - i,
{
    if i < j {
        lemma_chain_grows(s, node, chain, i, j - 1);
        let c = chain[j];
        assert(s.is_child(chain[j - 1], c));
        lemma_path_grows(s, c);
    }
}

/// The nodes on the way up are distinct, exist, and hang one below the other.
pub proof fn lemma_up(s: Shape, id: NodeId)
    requires
        s.wf(),
        s.has(id),
    ensures
        s.up(id).no_duplicates(),
        forall|k: int|
            0 <= k < s.up(id).len() ==> {
                let x = #[trigger] s.up(id)[k];
                &&& 0 < x < s.nodes.len()
                &&& s.nodes[x as int].path.len() <= s.nodes[id as int].path.len()
                &&& s.nodes[x as int].parent == (if k + 1 < s.up(id).len() {
                    s.up(id)[k + 1]
                } else {
                    ROOT
                })
            },
        id != ROOT ==> s.up(id).len() > 0 && s.up(id)[0] == id,
    decreases s.nodes[id as int].path.len(),
{
    if id != ROOT {
        lemma_path_grows(s, id);
        let p = s.nodes[id as int].parent;
        if p != ROOT {
            lemma_up(s, p);
        }
        let u = s.up(id);
        let v = s.up(p);
        assert(u =~= seq![id] + v);
        assert forall|k: int| 0 <= k < u.len() implies {
            let x = #[trigger] u[k];
            &&& 0 < x < s.nodes.len()
            &&& s.nodes[x as int].path.len() <= s.nodes[id as int].path.len()
            &&& s.nodes[x as int].parent == (if k + 1 < u.len() {
                u[k + 1]
            } else {
                ROOT
            })
        } by {
            if k > 0 {
                assert(u[k] == v[k - 1]);
                if k + 1 < u.len() {
                    assert(u[k + 1] == v[k]);
                }
            } else if v.len() > 0 {
                assert(u[1] == v[0]);
            }
        }
        assert forall|i: int, j: int| 0 <= i < u.len() && 0 <= j < u.len() && i != j implies u[i] != u[j] by {
            if i > 0 {
                assert(u[i] == v[i - 1]);
            }
            if j > 0 {
                assert(u[j] == v[j - 1]);
            }
        }
    }
}

} // verus!
