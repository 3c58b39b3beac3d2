//! Locks taken at nodes reach from there up to the root: how many of them
//! reach a node, and what stays of that when the tree is cut or grows.

use crate::topo;
use crate::topo::{NodeId, Shape, ROOT};
use vstd::prelude::*;

verus! {

/// How many of the locks taken at the nodes `out` reach `x`.
pub open spec fn holds(s: Shape, out: Seq<NodeId>, x: NodeId) -> int
    decreases out.len(),
{
    if out.len() == 0 {
        0
    } else {
        holds(s, out.drop_last(), x) + if s.up(out.last()).contains(x) {
            1int
        } else {
            0
        }
    }
}

/// How many of the locks were taken at `x` itself.
pub open spec fn times(out: Seq<NodeId>, x: NodeId) -> int
    decreases out.len(),
{
    if out.len() == 0 {
        0
    } else {
        times(out.drop_last(), x) + if out.last() == x {
            1int
        } else {
            0
        }
    }
}

pub proof fn lemma_front(a: NodeId, rest: Seq<NodeId>, x: NodeId)
    ensures
        (seq![a] + rest).contains(x) == (x == a || rest.contains(x)),
{
    let all = seq![a] + rest;
    if x == a {
        assert(all[0] == x);
    }
    if rest.contains(x) {
        let k = rest.index_of(x);
        assert(all[k + 1] == x);
    }
    if all.contains(x) && x != a {
        let k = all.index_of(x);
        assert(rest[k - 1] == x);
    }
}

/// A lock counts for every node it reaches, and for no other.
pub proof fn lemma_holds(s: Shape, out: Seq<NodeId>, x: NodeId)
    ensures
        holds(s, out, x) >= 0,
        forall|k: int| 0 <= k < out.len() && s.up(#[trigger] out[k]).contains(x) ==> holds(s, out, x) > 0,
        holds(s, out, x) > 0 ==> exists|k: int| 0 <= k < out.len() && s.up(#[trigger] out[k]).contains(x),
    decreases out.len(),
{
    if out.len() > 0 {
        let rest = out.drop_last();
        lemma_holds(s, rest, x);
        assert forall|k: int| 0 <= k < out.len() && s.up(#[trigger] out[k]).contains(x) implies holds(s, out, x)
            > 0 by {
            if k < out.len() - 1 {
                assert(rest[k] == out[k]);
            }
        }
        if holds(s, out, x) > 0 {
            if s.up(out.last()).contains(x) {
                assert(s.up(out[out.len() - 1]).contains(x));
            } else {
                let k = choose|k: int| 0 <= k < rest.len() && s.up(#[trigger] rest[k]).contains(x);
                assert(out[k] == rest[k]);
            }
        }
    }
}

pub proof fn lemma_times(out: Seq<NodeId>, x: NodeId)
    ensures
        times(out, x) >= 0,
        times(out, x) > 0 <==> out.contains(x),
    decreases out.len(),
{
    if out.len() > 0 {
        let rest = out.drop_last();
        lemma_times(rest, x);
        if rest.contains(x) {
            assert(out[rest.index_of(x)] == x);
        }
        if out.last() == x {
            assert(out[out.len() - 1] == x);
        }
        if out.contains(x) && out.last() != x {
            assert(rest[out.index_of(x)] == x);
        }
    }
}

pub proof fn lemma_without(s: Shape, out: Seq<NodeId>, k: int, x: NodeId)
    requires
        0 <= k < out.len(),
    ensures
        holds(s, out.remove(k), x) == holds(s, out, x) - if s.up(out[k]).contains(x) {
            1int
        } else {
            0
        },
        times(out.remove(k), x) == times(out, x) - if out[k] == x {
            1int
        } else {
            0
        },
    decreases out.len(),
{
    let rest = out.remove(k);
    if k == out.len() - 1 {
        assert(rest =~= out.drop_last());
    } else {
        lemma_without(s, out.drop_last(), k, x);
        assert(rest.drop_last() =~= out.drop_last().remove(k));
        assert(rest.last() == out.last());
    }
}

pub proof fn lemma_holds_same(s: Shape, t: Shape, out: Seq<NodeId>, x: NodeId, y: NodeId)
    requires
        forall|k: int| 0 <= k < out.len() ==> s.up(#[trigger] out[k]).contains(x) == t.up(out[k]).contains(y),
    ensures
        holds(s, out, x) == holds(t, out, y),
    decreases out.len(),
{
    if out.len() > 0 {
        assert forall|k: int| 0 <= k < out.len() - 1 implies s.up(#[trigger] out.drop_last()[k]).contains(x)
            == t.up(out.drop_last()[k]).contains(y) by {
            assert(out.drop_last()[k] == out[k]);
        }
        lemma_holds_same(s, t, out.drop_last(), x, y);
        assert(out[out.len() - 1] == out.last());
    }
}

/// The way up from a node past a cut: the front stands where the tail did.
pub proof fn lemma_up_cut(s: Shape, c: NodeId, m: int, h: NodeId, x: NodeId)
    requires
        s.wf(),
        s.split(c, m).wf(),
        s.nodes.len() < NodeId::MAX,
        s.has(c),
        c != ROOT,
        s.has(h),
        x <= s.nodes.len(),
    ensures
        s.split(c, m).up(h).contains(x) == s.up(h).contains(
            if x == s.nodes.len() {
                c
            } else {
                x
            },
        ),
    decreases s.nodes[h as int].path.len(),
{
    let t = s.split(c, m);
    let f = s.nodes.len() as NodeId;
    if h != ROOT {
        let p = s.nodes[h as int].parent;
        topo::lemma_path_grows(s, h);
        topo::lemma_path_grows(t, h);
        if p != ROOT {
            lemma_up_cut(s, c, m, p, x);
        }
        lemma_front(h, s.up(p), if x == f { c } else { x });
        assert(s.up(h) =~= seq![h] + s.up(p));
        if h == c {
            topo::lemma_path_grows(t, f);
            assert(t.up(f) == seq![f] + t.up(p));
            assert(t.up(h) == seq![h] + t.up(f));
            lemma_front(f, t.up(p), x);
            lemma_front(h, t.up(f), x);
        } else {
            assert(t.up(h) == seq![h] + t.up(p));
            lemma_front(h, t.up(p), x);
        }
    }
}

/// Nodes that keep their parents and paths keep their way up.
pub proof fn lemma_up_same(s: Shape, t: Shape, h: NodeId)
    requires
        s.wf(),
        s.has(h),
        s.nodes.len() <= t.nodes.len(),
        forall|i: int|
            #![trigger t.nodes[i]]
            0 <= i < s.nodes.len() ==> t.nodes[i].parent == s.nodes[i].parent && t.nodes[i].path == s.nodes[i].path,
    ensures
        t.up(h) == s.up(h),
    decreases s.nodes[h as int].path.len(),
{
    if h != ROOT {
        topo::lemma_path_grows(s, h);
        let p = s.nodes[h as int].parent;
        if p != ROOT {
            lemma_up_same(s, t, p);
        }
        assert(t.nodes[h as int].parent == p);
        assert(t.nodes[p as int].path == s.nodes[p as int].path);
        assert(t.up(ROOT) =~= s.up(ROOT));
    }
}

} // verus!
