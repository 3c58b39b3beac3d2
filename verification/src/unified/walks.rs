//! Walks over the whole unified tree: parents before children, siblings by
//! age.

use crate::seqs;
use crate::topo;
use crate::topo::{NodeId, ROOT};
use crate::unified;
use crate::unified::facts;
use crate::unified::matching;
use crate::unified::model;
use crate::unified::model::UState;
use crate::unified::tree::UnifiedRadixTree;
use vstd::prelude::*;

verus! {

impl UState {
    /// `node` and the nodes below it, `fuel` generations of them.
    pub open spec fn tree_order(self, node: NodeId, fuel: nat) -> Seq<NodeId>
        decreases fuel, 0nat,
    {
        if fuel == 0 {
            Seq::empty()
        } else {
            seq![node] + self.forest_order(self.nodes[node as int].kids, (fuel - 1) as nat)
        }
    }

    /// The subtrees of `kids`, one after the other.
    pub open spec fn forest_order(self, kids: Seq<NodeId>, fuel: nat) -> Seq<NodeId>
        decreases fuel, kids.len() + 1,
    {
        if kids.len() == 0 {
            Seq::empty()
        } else {
            self.forest_order(kids.drop_last(), fuel) + self.tree_order(kids.last(), fuel)
        }
    }

    /// The subtree of `node` in preorder. No path is longer than there are
    /// nodes.
    pub open spec fn preorder(self, node: NodeId) -> Seq<NodeId> {
        self.tree_order(node, self.nodes.len())
    }

    /// Whether `d` lies in the subtree of `top`, `top` included.
    pub open spec fn under(self, top: NodeId, d: NodeId) -> bool {
        self.live(d) && (top == ROOT || self.shape.up(d).contains(top))
    }

    /// The generations that are left below `node`.
    pub open spec fn enough(self, node: NodeId, fuel: nat) -> bool {
        fuel + self.shape.up(node).len() >= self.nodes.len()
    }

    /// `ids` lists nodes of the subtree of `top`, each once and after its
    /// parent, the first after `top` itself.
    pub open spec fn parents_first(self, ids: Seq<NodeId>, top: NodeId) -> bool {
        forall|k: int|
            0 <= k < ids.len() ==> {
                let p = self.shape.nodes[(#[trigger] ids[k]) as int].parent;
                p == top || ids.take(k).contains(p)
            }
    }
}

/// The path of a child is its parent's and one node more.
proof fn lemma_child_up(st: UState, node: NodeId, c: NodeId)
    requires
        st.built(),
        st.live(node),
        st.shape.is_child(node, c),
    ensures
        st.inner(c),
        st.shape.up(c) == seq![c] + st.shape.up(node),
        !st.shape.up(node).contains(c),
{
    topo::lemma_path_grows(st.shape, c);
    topo::lemma_up(st.shape, c);
    let up = st.shape.up(node);
    assert(st.shape.up(c) =~= seq![c] + up);
    if up.contains(c) {
        let k = up.index_of(c);
        assert(st.shape.up(c)[k + 1] == c);
        assert(st.shape.up(c)[0] == c);
    }
}

/// What lies under a child lies under its parent.
proof fn lemma_under_child(st: UState, node: NodeId, c: NodeId, d: NodeId)
    requires
        st.built(),
        st.live(node),
        st.shape.is_child(node, c),
        st.under(c, d),
    ensures
        st.under(node, d),
        d != node,
        d != ROOT,
{
    topo::lemma_up(st.shape, d);
    let up = st.shape.up(d);
    let k = up.index_of(c);
    assert(up[k] == c);
    if node != ROOT {
        assert(up[k + 1] == node);
        if d == node {
            assert(up[0] == node);
        }
    }
}

/// What lies strictly under a node lies under one of its children.
proof fn lemma_under_some(st: UState, node: NodeId, d: NodeId) -> (c: NodeId)
    requires
        st.built(),
        st.live(node),
        st.under(node, d),
        d != node,
    ensures
        st.shape.is_child(node, c),
        st.under(c, d),
{
    topo::lemma_up(st.shape, d);
    matching::lemma_up_live(st, d);
    let up = st.shape.up(d);
    if node == ROOT {
        let c = up[up.len() - 1];
        assert(st.inner(c));
        assert(up.contains(c));
        assert(st.shape.nodes[c as int].parent == ROOT);
        c
    } else {
        let k = up.index_of(node);
        assert(up[k] == node);
        assert(k > 0);
        let c = up[k - 1];
        assert(st.inner(c));
        assert(up.contains(c));
        assert(st.shape.nodes[up[k - 1] as int].parent == up[k]);
        c
    }
}

/// The subtrees of two children have nothing in common.
proof fn lemma_disjoint(st: UState, node: NodeId, a: NodeId, b: NodeId, d: NodeId)
    requires
        st.built(),
        st.live(node),
        st.shape.is_child(node, a),
        st.shape.is_child(node, b),
        st.under(a, d),
        st.under(b, d),
    ensures
        a == b,
{
    topo::lemma_up(st.shape, d);
    let up = st.shape.up(d);
    let i = up.index_of(a);
    let j = up.index_of(b);
    assert(up[i] == a && up[j] == b);
    if node == ROOT {
        assert(i + 1 < up.len() ==> up[i + 1] == ROOT && 0 < up[i + 1]);
        assert(j + 1 < up.len() ==> up[j + 1] == ROOT && 0 < up[j + 1]);
    } else {
        assert(up[i + 1] == node && up[j + 1] == node);
    }
}

/// Paths are shorter than there are nodes.
proof fn lemma_up_short(st: UState, id: NodeId)
    requires
        st.built(),
        st.live(id),
    ensures
        st.shape.up(id).len() < st.nodes.len(),
{
    matching::lemma_up_live(st, id);
    matching::lemma_few(st, st.shape.up(id));
}

/// The preorder of a subtree lists it, each node once and after its parent.
pub proof fn lemma_tree_order(st: UState, node: NodeId, fuel: nat)
    requires
        st.built(),
        st.live(node),
        st.enough(node, fuel),
    ensures
        ({
            let ids = st.tree_order(node, fuel);
            &&& ids.len() > 0
            &&& ids[0] == node
            &&& ids.no_duplicates()
            &&& forall|d: NodeId| #[trigger] ids.contains(d) == st.under(node, d)
            &&& forall|k: int|
                0 < k < ids.len() ==> ids.take(k).contains(st.shape.nodes[(#[trigger] ids[k]) as int].parent)
        }),
    decreases fuel, 0nat,
{
    lemma_up_short(st, node);
    topo::lemma_up(st.shape, node);
    let kids = st.nodes[node as int].kids;
    let rest = st.forest_order(kids, (fuel - 1) as nat);
    assert(kids.take(kids.len() as int) =~= kids);
    lemma_forest_order(st, node, kids.len() as int, (fuel - 1) as nat);
    let ids = st.tree_order(node, fuel);
    assert(ids == seq![node] + rest);
    assert(st.kids_ok(node as int));
    assert(!rest.contains(node)) by {
        if rest.contains(node) {
            let i = choose|i: int| 0 <= i < kids.len() && st.under(#[trigger] kids[i], node);
            assert(kids.contains(kids[i]));
            lemma_under_child(st, node, kids[i], node);
        }
    }
    facts::lemma_front(rest, node);
    assert forall|d: NodeId| #[trigger] ids.contains(d) == st.under(node, d) by {
        if d == node {
            if node != ROOT {
                assert(st.shape.up(node)[0] == node);
            }
        } else {
            if rest.contains(d) {
                let i = choose|i: int| 0 <= i < kids.len() && st.under(#[trigger] kids[i], d);
                assert(kids.contains(kids[i]));
                lemma_under_child(st, node, kids[i], d);
            }
            if st.under(node, d) {
                let c = lemma_under_some(st, node, d);
                assert(kids.contains(c));
                let i = kids.index_of(c);
                assert(st.under(kids[i], d));
            }
        }
    }
    assert forall|k: int| 0 < k < ids.len() implies ids.take(k).contains(
        st.shape.nodes[(#[trigger] ids[k]) as int].parent,
    ) by {
        assert(ids[k] == rest[k - 1]);
        let p = st.shape.nodes[rest[k - 1] as int].parent;
        assert(ids.take(k)[0] == node);
        if p != node {
            let j = rest.take(k - 1).index_of(p);
            assert(rest.take(k - 1)[j] == p);
            assert(ids.take(k)[j + 1] == p);
        }
    }
}

/// The subtrees of the first `j` children of `node`.
proof fn lemma_forest_order(st: UState, node: NodeId, j: int, fuel: nat)
    requires
        st.built(),
        st.live(node),
        st.enough(node, fuel + 1),
        0 <= j <= st.nodes[node as int].kids.len(),
    ensures
        ({
            let kids = st.nodes[node as int].kids;
            let ids = st.forest_order(kids.take(j), fuel);
            &&& ids.no_duplicates()
            &&& forall|d: NodeId|
                #[trigger] ids.contains(d) == (exists|i: int| 0 <= i < j && st.under(#[trigger] kids[i], d))
            &&& st.parents_first(ids, node)
        }),
    decreases fuel, j + 1,
{
    let kids = st.nodes[node as int].kids;
    let ids = st.forest_order(kids.take(j), fuel);
    if j > 0 {
        let front = kids.take(j - 1);
        assert(kids.take(j).drop_last() =~= front);
        let c = kids[j - 1];
        assert(kids.take(j).last() == c);
        lemma_forest_order(st, node, j - 1, fuel);
        assert(st.kids_ok(node as int));
        assert(kids.contains(c));
        lemma_child_up(st, node, c);
        lemma_tree_order(st, c, fuel);
        let a = st.forest_order(front, fuel);
        let b = st.tree_order(c, fuel);
        assert(ids == a + b);
        assert forall|x: int, y: int| 0 <= x < ids.len() && 0 <= y < ids.len() && x != y implies ids[x] != ids[y] by {
            if x < a.len() && y >= a.len() {
                lemma_parts(st, node, j, fuel, a, b, x, y - a.len());
            } else if y < a.len() && x >= a.len() {
                lemma_parts(st, node, j, fuel, a, b, y, x - a.len());
            } else if x >= a.len() && y >= a.len() {
                assert(ids[x] == b[x - a.len()] && ids[y] == b[y - a.len()]);
            }
        }
        assert forall|d: NodeId| #[trigger] ids.contains(d) == (exists|i: int|
            0 <= i < j && st.under(#[trigger] kids[i], d)) by {
            if ids.contains(d) {
                let k = ids.index_of(d);
                if k < a.len() {
                    assert(a.contains(a[k]));
                    let i = choose|i: int| 0 <= i < j - 1 && st.under(#[trigger] kids[i], d);
                    assert(st.under(kids[i], d));
                } else {
                    assert(b.contains(b[k - a.len()]));
                    assert(st.under(kids[j - 1], d));
                }
            }
            if exists|i: int| 0 <= i < j && st.under(#[trigger] kids[i], d) {
                let i = choose|i: int| 0 <= i < j && st.under(#[trigger] kids[i], d);
                if i < j - 1 {
                    assert(a.contains(d));
                    assert(ids[a.index_of(d)] == d);
                } else {
                    assert(b.contains(d));
                    assert(ids[a.len() + b.index_of(d)] == d);
                }
            }
        }
        assert forall|k: int| 0 <= k < ids.len() implies {
            let p = st.shape.nodes[(#[trigger] ids[k]) as int].parent;
            p == node || ids.take(k).contains(p)
        } by {
            let p = st.shape.nodes[ids[k] as int].parent;
            if k < a.len() {
                assert(ids[k] == a[k]);
                assert(ids.take(k) =~= a.take(k));
            } else {
                let m = k - a.len();
                assert(ids[k] == b[m]);
                if m > 0 {
                    assert(b.take(m).contains(p));
                    let i = b.take(m).index_of(p);
                    assert(b.take(m)[i] == p);
                    assert(ids.take(k)[a.len() + i] == p);
                }
            }
        }
    }
}

/// The subtrees before and that of a child share no node.
proof fn lemma_parts(st: UState, node: NodeId, j: int, fuel: nat, a: Seq<NodeId>, b: Seq<NodeId>, x: int, y: int)
    requires
        st.built(),
        st.live(node),
        0 < j <= st.nodes[node as int].kids.len(),
        0 <= x < a.len(),
        0 <= y < b.len(),
        forall|d: NodeId|
            #[trigger] a.contains(d) == (exists|i: int|
                0 <= i < j - 1 && st.under(#[trigger] st.nodes[node as int].kids[i], d)),
        forall|d: NodeId| #[trigger] b.contains(d) == st.under(st.nodes[node as int].kids[j - 1], d),
    ensures
        a[x] != b[y],
{
    let kids = st.nodes[node as int].kids;
    if a[x] == b[y] {
        let d = a[x];
        assert(a.contains(a[x]));
        assert(b.contains(b[y]));
        let i = choose|i: int| 0 <= i < j - 1 && st.under(#[trigger] kids[i], d);
        assert(st.kids_ok(node as int));
        assert(kids.contains(kids[i]));
        assert(kids.contains(kids[j - 1]));
        lemma_disjoint(st, node, kids[i], kids[j - 1], d);
    }
}

/// A walk from the root visits every node of the tree, once, and parents
/// before children.
pub proof fn law_preorder_visits_all(st: UState)
    requires
        st.built(),
    ensures
        st.preorder(ROOT).no_duplicates(),
        forall|d: NodeId| #[trigger] st.preorder(ROOT).contains(d) == st.live(d),
        forall|k: int|
            0 < k < st.preorder(ROOT).len() ==> st.preorder(ROOT).take(k).contains(
                st.shape.nodes[(#[trigger] st.preorder(ROOT)[k]) as int].parent,
            ),
{
    lemma_tree_order(st, ROOT, st.nodes.len());
}

impl UnifiedRadixTree {
    /// The subtree of `node` in preorder.
    pub(crate) fn subtree(&self, node: NodeId) -> (r: Vec<NodeId>)
        requires
            self.wf(),
            self@.live(node),
        ensures
            r@ == self@.preorder(node),
    {
        let mut r: Vec<NodeId> = Vec::new();
        proof {
            self.lemma_wf();
        }
        let fuel = self.len();
        self.collect(node, fuel, &mut r);
        assert(r@ =~= self@.preorder(node));
        r
    }

    /// Adds `fuel` generations of the subtree of `node` to `out`.
    fn collect(&self, node: NodeId, fuel: usize, out: &mut Vec<NodeId>)
        requires
            self.wf(),
            self@.live(node),
        ensures
            final(out)@ == old(out)@ + self@.tree_order(node, fuel as nat),
        decreases fuel,
    {
        let ghost before = out@;
        if fuel == 0 {
            assert(out@ =~= before + self@.tree_order(node, fuel as nat));
            return ;
        }
        out.push(node);
        let kids = &self.node_by_id(node).child_order;
        let ghost ks = self@.nodes[node as int].kids;
        let mut k: usize = 0;
        proof {
            self.lemma_wf();
            assert(self@.kids_ok(node as int));
            assert(out@ =~= before + seq![node] + self@.forest_order(ks.take(0), (fuel - 1) as nat));
        }
        while k < kids.len()
            invariant
                self.wf(),
                kids@ == ks,
                fuel > 0,
                k <= ks.len(),
                forall|c: NodeId| #[trigger] ks.contains(c) ==> self@.live(c),
                out@ == before + seq![node] + self@.forest_order(ks.take(k as int), (fuel - 1) as nat),
            decreases ks.len() - k,
        {
            let c = kids[k];
            assert(ks.contains(ks[k as int]));
            self.collect(c, fuel - 1, out);
            proof {
                let nxt = ks.take(k + 1);
                assert(nxt.drop_last() =~= ks.take(k as int));
                assert(nxt.last() == c);
                assert(out@ =~= before + seq![node] + self@.forest_order(nxt, (fuel - 1) as nat));
            }
            k += 1;
        }
        proof {
            assert(ks.take(ks.len() as int) =~= ks);
            assert(out@ =~= before + self@.tree_order(node, fuel as nat));
        }
    }
}

/// A child of a node of a subtree lies in the subtree.
pub proof fn lemma_under_kid(st: UState, top: NodeId, y: NodeId, c: NodeId)
    requires
        st.built(),
        st.live(top),
        st.under(top, y),
        st.shape.is_child(y, c),
    ensures
        st.under(top, c),
{
    lemma_child_up(st, y, c);
    if top != ROOT {
        let i = choose|i: int| 0 <= i < st.shape.up(y).len() && st.shape.up(y)[i] == top;
        assert(st.shape.up(c)[i + 1] == top);
    }
}

/// No node lies below its own child.
pub proof fn lemma_no_loop(st: UState, x: NodeId, y: NodeId)
    requires
        st.built(),
        st.inner(x),
        st.under(x, y),
    ensures
        !st.shape.is_child(y, x),
{
    if st.shape.is_child(y, x) {
        lemma_child_up(st, y, x);
    }
}

} // verus!
