//! Laws of the unified tree.

use crate::chains;
use crate::hi_model::opt_take;
use crate::lru;
use crate::query;
use crate::seqs;
use crate::topo;
use crate::topo::{NodeId, Shape, Walk, ROOT};
use crate::tree_model;
use crate::unified::facts;
use crate::unified::insert;
use crate::unified::matching;
use crate::unified::model;
use crate::unified::model::{Asked, Inserting, UNodeState, UState};
use crate::walk_laws;
use vstd::prelude::*;

verus! {

/// The FULL device run of node `i`.
spec fn kv(st: UState, i: int) -> Option<Seq<i64>> {
    st.nodes[i].value[0]
}

/// The run of a node once an insert has come to it with `run`.
spec fn filled(old_run: Option<Seq<i64>>, run: Seq<i64>) -> Option<Seq<i64>> {
    match old_run {
        Some(v) => Some(v),
        None => Some(run),
    }
}

/// What the proofs here need of a state.
spec fn sound(st: UState) -> bool {
    &&& st.shape.wf()
    &&& st.nodes.len() == st.shape.nodes.len()
    &&& !st.cfg.swa()
    &&& forall|i: int| 0 <= i < st.nodes.len() ==> (#[trigger] st.nodes[i]).value.len() == 4
    &&& st.nodes[0].value[0] is Some
}

/// Two states of one tree with the same FULL runs but for those of `x` and `y`.
spec fn same_but(a: UState, b: UState, x: NodeId, y: NodeId) -> bool {
    &&& b.cfg == a.cfg
    &&& b.hicache == a.hicache
    &&& forall|i: int|
        0 <= i < a.nodes.len() && i != x && i != y ==> kv(b, i) == #[trigger] kv(a, i)
}

/// One step down: only the node that is come to gets a run, if it had none.
proof fn lemma_step_whole(st: UState, s: Inserting)
    requires
        sound(st),
        s.phase is Walk,
        st.next_child(s) matches Some(c) && 0 < c < st.nodes.len() && st.shape.shared(s.key, c)
            == st.shape.nodes[c as int].key.len(),
    ensures
        ({
            let c = st.next_child(s)->0;
            let n = st.shape.nodes[c as int].key.len() as int / st.shape.unit as int;
            let (d, t, acts) = st.stepped(s);
            &&& sound(d)
            &&& d.shape == st.shape
            &&& d.nodes.len() == st.nodes.len()
            &&& same_but(st, d, c, c)
            &&& kv(d, c as int) == filled(kv(st, c as int), s.value.take(n))
            &&& t == (Inserting {
                node: c,
                done: s.done + n,
                key: s.key.skip(st.shape.nodes[c as int].key.len() as int),
                value: s.value.skip(n),
                pending: t.pending,
                ..s
            })
        }),
{
    reveal(UState::stepped);
    let c = st.next_child(s)->0;
    let (d, t, acts) = st.stepped(s);
    assert forall|i: int| 0 <= i < d.nodes.len() implies (#[trigger] d.nodes[i]).value.len() == 4 by {
        assert(st.nodes[i].value.len() == 4);
    }
    assert(st.nodes[c as int].value.len() == 4);
    assert forall|i: int| 0 <= i < st.nodes.len() && i != c implies kv(d, i) == #[trigger] kv(st, i) by {
        assert(d.nodes[i] == st.nodes[i]);
    }
}

/// One step into a node that is matched in part: that is cut, and its front
/// gets a run, if it had none.
proof fn lemma_step_part(st: UState, s: Inserting)
    requires
        sound(st),
        s.phase is Walk,
        st.nodes.len() < NodeId::MAX,
        st.next_child(s) matches Some(c) && 0 < c < st.nodes.len() && 0 < st.shape.shared(s.key, c)
            < st.shape.nodes[c as int].key.len() && st.shape.nodes[c as int].attached && st.shape.aligned(
            st.shape.shared(s.key, c) as int,
        ),
    ensures
        ({
            let c = st.next_child(s)->0;
            let m = st.shape.shared(s.key, c) as int;
            let n = m / st.shape.unit as int;
            let f = st.nodes.len() as NodeId;
            let (d, t, acts) = st.stepped(s);
            &&& sound(d)
            &&& d.shape == st.shape.split(c, m)
            &&& d.nodes.len() == st.nodes.len() + 1
            &&& same_but(st, d, c, c)
            &&& kv(d, f as int) == filled(opt_take(kv(st, c as int), n), s.value.take(n))
            &&& t == (Inserting {
                node: f,
                done: s.done + n,
                key: s.key.skip(m),
                value: s.value.skip(n),
                pending: t.pending,
                ..s
            })
        }),
{
    reveal(UState::stepped);
    let c = st.next_child(s)->0;
    let m = st.shape.shared(s.key, c) as int;
    let f = st.nodes.len() as NodeId;
    let (d, t, acts) = st.stepped(s);
    let p = st.shape.nodes[c as int].parent;
    topo::lemma_split_wf(st.shape, c, m);
    topo::lemma_path_grows(st.shape, c);
    assert(st.nodes[c as int].value.len() == 4);
    assert(st.nodes[p as int].value.len() == 4);
    let a = st.touched(c);
    let b = a.cut(c, m);
    assert(b.nodes.len() == st.nodes.len() + 1);
    assert(b.nodes[f as int] == a.front_of(c, m));
    assert forall|i: int| 0 <= i < st.nodes.len() && i != c implies kv(d, i) == #[trigger] kv(st, i) by {
        assert(d.nodes[i] == b.nodes[i]);
        if i != p {
            assert(b.nodes[i] == st.nodes[i]);
        }
    }
    assert forall|i: int| 0 <= i < d.nodes.len() implies (#[trigger] d.nodes[i]).value.len() == 4 by {
        if i < st.nodes.len() {
            assert(st.nodes[i].value.len() == 4);
        }
    }
}

/// The end of an insert whose walk is done: the rest of the key is a new
/// leaf, and no other FULL run changes.
spec fn committed(st: UState, s: Inserting, t: UState, target: NodeId) -> bool {
    let fresh = s.key.len() > 0;
    &&& t.cfg == st.cfg
    &&& t.hicache == st.hicache
    &&& t.shape == (if fresh {
        st.shape.graft(s.node, s.ns, s.key)
    } else {
        st.shape
    })
    &&& target == (if fresh {
        st.nodes.len() as NodeId
    } else {
        s.node
    })
    &&& target < t.nodes.len()
    &&& forall|i: int| 0 <= i < st.nodes.len() ==> kv(t, i) == #[trigger] kv(st, i)
    &&& fresh ==> kv(t, target as int) == Some(s.value)
    &&& st.cfg.mamba() ==> t.nodes[target as int].value[2] is Some
}

proof fn lemma_commit(st: UState, s: Inserting)
    requires
        sound(st),
        s.phase is Commit,
        s.node < st.nodes.len() < NodeId::MAX,
        st.advanced(s).2 is Some,
    ensures
        ({
            let (t, acts, r) = st.advanced(s);
            &&& committed(st, s, t, r->0.last_device_node)
            &&& r->0.prefix_len == s.done
        }),
{
    reveal(UState::stepped);
    let (d, s1, acts) = st.stepped(s);
    assert(st.advanced(s) == d.advanced(s1));
    assert(s1.phase is Tail);
    let (t, acts1, r) = d.advanced(s1);
    let target = s1.target;
    assert(st.nodes[s.node as int].value.len() == 4);
    assert forall|i: int| 0 <= i < st.nodes.len() implies kv(d, i) == #[trigger] kv(st, i) by {
        assert(st.nodes[i].value.len() == 4);
    }
    assert forall|i: int| 0 <= i < d.nodes.len() implies (#[trigger] t.nodes[i]).value == d.nodes[i].value by {}
    assert forall|i: int| 0 <= i < st.nodes.len() implies kv(t, i) == #[trigger] kv(st, i) by {
        assert(kv(d, i) == kv(st, i));
        assert(t.nodes[i].value == d.nodes[i].value);
    }
    assert(t.nodes[target as int].value == d.nodes[target as int].value);
}

/// `chain[j]` holds its run of `st`, or its part of `val` if it had none.
spec fn fills(st: UState, chain: Seq<NodeId>, t: UState, val: Seq<i64>, j: int) -> bool {
    kv(t, chain[j] as int) == filled(
        kv(st, chain[j] as int),
        val.subrange(chains::tokens(st.shape, chain, j), chains::tokens(st.shape, chain, j + 1)),
    )
}

/// What an insert at `s` has made of `st` once it is done: the key is in the
/// tree, and its nodes hold what they held, or their part of the value.
spec fn inserted(st: UState, s: Inserting, w: Walk, t: UState, target: NodeId) -> bool {
    let unit = st.shape.unit as int;
    let n = w.chain.len() as int;
    let f = st.nodes.len() as int;
    &&& t.cfg == st.cfg
    &&& t.hicache == st.hicache
    &&& t.shape == walk_laws::shape_with(st.shape, s.node, w, s.ns, s.key)
    &&& target == query::end_from(s.node, walk_laws::chain_with(st.shape, w, s.key))
    &&& target < t.nodes.len()
    &&& forall|j: int| 0 <= j < n ==> #[trigger] fills(st, w.chain, t, s.value, j)
    &&& w.stop matches Some((c, m)) ==> kv(t, f) == filled(
        opt_take(kv(st, c as int), m as int / unit),
        s.value.subrange(chains::tokens(st.shape, w.chain, n), w.used as int / unit),
    )
    &&& w.used < s.key.len() ==> kv(
        t,
        if w.stop is Some {
            f + 1
        } else {
            f
        },
    ) == Some(s.value.skip(w.used as int / unit))
    &&& forall|i: int|
        0 <= i < f && !w.chain.contains(i as NodeId) && !(w.stop matches Some((c, m)) && c == i) ==> kv(t, i)
            == #[trigger] kv(st, i)
    &&& st.cfg.mamba() ==> t.nodes[target as int].value[2] is Some
}

/// A possible point of the walk of an insert.
spec fn walking(st: UState, s: Inserting) -> bool {
    &&& sound(st)
    &&& s.phase is Walk
    &&& st.shape.has(s.node)
    &&& st.shape.nodes[s.node as int].attached
    &&& s.node != ROOT ==> st.shape.nodes[s.node as int].ns == s.ns
    &&& st.shape.aligned(s.key.len() as int)
    &&& s.value.len() == s.key.len() as int / st.shape.unit as int
    &&& st.nodes.len() + 1 + (if st.shape.walk(s.node, s.ns, s.key).stop is Some {
        1int
    } else {
        0
    }) <= NodeId::MAX
}

/// The walk is at its end.
proof fn lemma_insert_end(st: UState, s: Inserting)
    requires
        walking(st, s),
        st.next_child(s) is None,
        st.advanced(s).2 is Some,
    ensures
        ({
            let w = st.shape.walk(s.node, s.ns, s.key);
            let (t, acts, r) = st.advanced(s);
            &&& w == (Walk { chain: Seq::empty(), stop: None, used: 0 })
            &&& inserted(st, s, w, t, r->0.last_device_node)
            &&& r->0.prefix_len == s.done
        }),
{
    reveal(UState::stepped);
    let w = st.shape.walk(s.node, s.ns, s.key);
    let (d, s1, acts) = st.stepped(s);
    assert(st.advanced(s) == d.advanced(s1));
    lemma_commit(d, s1);
    topo::lemma_chunk(st.shape);
    if 0 < s.key.len() < st.shape.chunk() {
        vstd::arithmetic::div_mod::lemma_small_mod(s.key.len(), st.shape.chunk());
    }
    let (t, acts1, r) = d.advanced(s1);
    assert(s.key.skip(0) =~= s.key);
    assert(s.value.skip(0) =~= s.value);
    assert forall|i: int| 0 <= i < st.nodes.len() implies kv(t, i) == #[trigger] kv(st, i) by {
        assert(kv(t, i) == kv(d, i));
    }
}

/// The walk goes on below a node that is matched whole.
proof fn lemma_insert_whole(st: UState, s: Inserting, c: NodeId, d: UState, s1: Inserting, t: UState, target: NodeId)
    requires
        walking(st, s),
        st.next_child(s) == Some(c),
        st.shape.shared(s.key, c) == st.shape.nodes[c as int].key.len(),
        st.shape.child_of(s.node, s.ns, s.key.take(st.shape.chunk() as int)) == Some(c),
        s.key.len() >= st.shape.chunk(),
        0 < c < st.nodes.len(),
        d.shape == st.shape,
        d.cfg == st.cfg,
        d.hicache == st.hicache,
        d.nodes.len() == st.nodes.len(),
        same_but(st, d, c, c),
        ({
            let m = st.shape.nodes[c as int].key.len() as int;
            let n = m / st.shape.unit as int;
            let w1 = st.shape.walk(c, s.ns, s.key.skip(m));
            &&& kv(d, c as int) == filled(kv(st, c as int), s.value.take(n))
            &&& s1 == (Inserting {
                node: c,
                done: s.done + n,
                key: s.key.skip(m),
                value: s.value.skip(n),
                pending: s1.pending,
                ..s
            })
            &&& inserted(d, s1, w1, t, target)
        }),
    ensures
        inserted(st, s, st.shape.walk(s.node, s.ns, s.key), t, target),
{
    let sh = st.shape;
    let unit = sh.unit as int;
    let m = sh.nodes[c as int].key.len() as int;
    let n = m / unit;
    let w = sh.walk(s.node, s.ns, s.key);
    let w1 = sh.walk(c, s.ns, s.key.skip(m));
    assert(w == (Walk { chain: seq![c] + w1.chain, stop: w1.stop, used: (m + w1.used) as nat }));
    assert(sh.named(s.node, s.ns, s.key.take(sh.chunk() as int), c));
    topo::lemma_shared(sh, s.key, c);
    topo::lemma_chunk(sh);
    topo::lemma_aligned(sh, s.key.len() as int, m);
    vstd::arithmetic::div_mod::lemma_small_mod(0, sh.chunk());
    topo::lemma_aligned(sh, m, 0);
    assert(!w1.chain.contains(c) && (w1.stop matches Some((e, k)) ==> e != c) && w1.used <= s.key.skip(m).len()
        && w1.used as int % unit == 0 && w.chain.no_duplicates()) by {
        topo::lemma_walk(sh, s.node, s.ns, s.key);
        topo::lemma_walk(sh, c, s.ns, s.key.skip(m));
        chains::lemma_walk_tokens(sh, c, s.ns, s.key.skip(m));
        if w1.chain.contains(c) {
            let j = w1.chain.index_of(c);
            assert(w.chain[0] == c);
            assert(w.chain[j + 1] == c);
        }
        if let Some((e, k)) = w1.stop {
            assert(w.chain[0] == c);
            assert(w.chain.contains(c));
        }
    }
    let used1 = w1.used as int / unit;
    assert((m + w1.used) / unit == n + used1) by {
        crate::content::lemma_units_sum(m, w1.used as int, unit);
    }
    assert(s.key.skip(m).skip(w1.used as int) =~= s.key.skip(m + w1.used));
    assert(s.value.len() >= n + used1 && n >= 0 && used1 >= 0) by {
        tree_model::lemma_halves(s.key.len() as int, m + w1.used, unit);
        tree_model::lemma_halves(s.key.len() as int, m, unit);
        tree_model::lemma_halves(s.key.len() as int, w1.used as int, unit);
    }
    assert(s.value.skip(n).skip(used1) =~= s.value.skip(n + used1));
    assert(query::end_from(s.node, w.chain) == query::end_from(c, w1.chain));
    assert(walk_laws::chain_with(sh, w, s.key) =~= seq![c] + walk_laws::chain_with(sh, w1, s1.key));
    let k1 = w1.chain.len() as int;
    assert(forall|j: int| 0 <= j < k1 ==> sh.units((#[trigger] w1.chain[j]) as int) >= 0) by {
        lemma_chain_units(sh, c, s.ns, s.key.skip(m));
    }
    assert forall|j: int| 0 <= j <= k1 implies #[trigger] chains::tokens(sh, w.chain, j + 1) == n
        + chains::tokens(sh, w1.chain, j) by {
        chains::lemma_tokens_front(sh, c, w1.chain, j);
    }
    assert(chains::tokens(sh, w.chain, 0) == 0);
    assert(chains::tokens(sh, w1.chain, k1) <= used1) by {
        chains::lemma_walk_tokens(sh, c, s.ns, s.key.skip(m));
        if let Some((e, k)) = w1.stop {
            topo::lemma_walk(sh, c, s.ns, s.key.skip(m));
            assert(k as int / unit >= 0) by (nonlinear_arith)
                requires
                    k >= 0,
                    unit >= 1,
            ;
        }
    }
    assert forall|j: int| 0 <= j < w.chain.len() implies #[trigger] fills(st, w.chain, t, s.value, j) by {
        if j == 0 {
            assert(w.chain[0] == c);
            assert(chains::tokens(sh, w.chain, 0int + 1) == n + chains::tokens(sh, w1.chain, 0));
            assert(s.value.subrange(0, n) =~= s.value.take(n));
            assert(kv(t, c as int) == kv(d, c as int));
        } else {
            assert(fills(d, w1.chain, t, s1.value, j - 1));
            assert(w.chain[j] == w1.chain[j - 1]);
            assert(w1.chain.contains(w1.chain[j - 1]));
            let x = chains::tokens(sh, w1.chain, j - 1);
            let y = chains::tokens(sh, w1.chain, j);
            assert(chains::tokens(sh, w.chain, (j - 1) + 1) == n + x);
            assert(chains::tokens(sh, w.chain, j + 1) == n + y);
            chains::lemma_tokens_le(sh, w1.chain, 0, j - 1);
            chains::lemma_tokens_le(sh, w1.chain, j - 1, j);
            chains::lemma_tokens_le(sh, w1.chain, j, k1);
            assert(s.value.skip(n).subrange(x, y) =~= s.value.subrange(n + x, n + y));
            let e = w1.chain[j - 1];
            assert(e < st.nodes.len()) by {
                topo::lemma_walk(sh, c, s.ns, s.key.skip(m));
            }
            assert(kv(d, e as int) == kv(st, e as int));
        }
    }
    if let Some((e, k)) = w1.stop {
        assert(e < st.nodes.len()) by {
            topo::lemma_walk(sh, c, s.ns, s.key.skip(m));
        }
        assert(kv(d, e as int) == kv(st, e as int));
        let x = chains::tokens(sh, w1.chain, k1);
        assert(chains::tokens(sh, w.chain, k1 + 1) == n + x);
        chains::lemma_tokens_le(sh, w1.chain, 0, k1);
        assert(s.value.skip(n).subrange(x, used1) =~= s.value.subrange(n + x, n + used1));
    }
    assert forall|i: int|
        0 <= i < st.nodes.len() && !w.chain.contains(i as NodeId) && !(w.stop matches Some((e, k)) && e == i) implies kv(
        t,
        i,
    ) == #[trigger] kv(st, i) by {
        assert(w.chain[0] == c);
        assert(w.chain.contains(c));
        if w1.chain.contains(i as NodeId) {
            let j = w1.chain.index_of(i as NodeId);
            assert(w.chain[j + 1] == i as NodeId);
        }
        assert(kv(d, i) == kv(st, i));
        assert(kv(t, i) == kv(d, i));
    }
}

/// Edges of a walk are not empty.
proof fn lemma_chain_units(s: Shape, node: NodeId, ns: u32, rem: Seq<i64>)
    requires
        s.wf(),
        s.has(node),
        s.aligned(rem.len() as int),
    ensures
        ({
            let chain = s.walk(node, ns, rem).chain;
            forall|j: int| 0 <= j < chain.len() ==> s.units((#[trigger] chain[j]) as int) >= 0
        }),
{
    topo::lemma_walk(s, node, ns, rem);
    let chain = s.walk(node, ns, rem).chain;
    assert forall|j: int| 0 <= j < chain.len() implies s.units((#[trigger] chain[j]) as int) >= 0 by {
        chains::lemma_units(s, chain[j] as int);
    }
}

/// The walk ends in the front of a node that has been cut.
proof fn lemma_insert_part(st: UState, s: Inserting, c: NodeId, d: UState, s1: Inserting, t: UState, target: NodeId)
    requires
        walking(st, s),
        st.next_child(s) == Some(c),
        ({
            let sh = st.shape;
            let m = sh.shared(s.key, c) as int;
            let n = m / sh.unit as int;
            let f = st.nodes.len() as NodeId;
            &&& 0 < c < st.nodes.len()
            &&& 0 < m < sh.nodes[c as int].key.len()
            &&& sh.child_of(s.node, s.ns, s.key.take(sh.chunk() as int)) == Some(c)
            &&& s.key.len() >= sh.chunk()
            &&& d.shape == sh.split(c, m)
            &&& d.cfg == st.cfg
            &&& d.hicache == st.hicache
            &&& d.nodes.len() == st.nodes.len() + 1
            &&& same_but(st, d, c, c)
            &&& kv(d, f as int) == filled(opt_take(kv(st, c as int), n), s.value.take(n))
            &&& s1 == (Inserting {
                node: f,
                done: s.done + n,
                key: s.key.skip(m),
                value: s.value.skip(n),
                pending: s1.pending,
                ..s
            })
            &&& inserted(d, s1, Walk { chain: Seq::empty(), stop: None, used: 0 }, t, target)
        }),
    ensures
        inserted(st, s, st.shape.walk(s.node, s.ns, s.key), t, target),
{
    let sh = st.shape;
    let unit = sh.unit as int;
    let m = sh.shared(s.key, c) as int;
    let n = m / unit;
    let f = st.nodes.len() as NodeId;
    let w = sh.walk(s.node, s.ns, s.key);
    let none = Walk { chain: Seq::<NodeId>::empty(), stop: None, used: 0 };
    assert(sh.named(s.node, s.ns, s.key.take(sh.chunk() as int), c));
    topo::lemma_shared(sh, s.key, c);
    topo::lemma_chunk(sh);
    topo::lemma_aligned(sh, s.key.len() as int, m);
    vstd::arithmetic::div_mod::lemma_small_mod(0, sh.chunk());
    topo::lemma_aligned(sh, m, 0);
    assert(w == (Walk { chain: Seq::<NodeId>::empty(), stop: Some((c, m as nat)), used: m as nat }));
    assert(s.key.skip(m).skip(0) =~= s.key.skip(m));
    assert(n <= s.value.len() && n >= 0) by {
        tree_model::lemma_halves(s.key.len() as int, m, unit);
    }
    assert(s.value.skip(n).skip(0) =~= s.value.skip(n));
    assert(s.value.subrange(0, n) =~= s.value.take(n));
    assert(chains::tokens(sh, w.chain, 0) == 0);
    assert(!none.chain.contains(f));
    assert(kv(t, f as int) == kv(d, f as int));
    let empty = Seq::<NodeId>::empty();
    assert(empty.push(f).last() == f);
    assert forall|i: int|
        0 <= i < st.nodes.len() && !w.chain.contains(i as NodeId) && !(w.stop matches Some((e, k)) && e == i) implies kv(
        t,
        i,
    ) == #[trigger] kv(st, i) by {
        assert(!none.chain.contains(i as NodeId));
        assert(kv(d, i) == kv(st, i));
        assert(kv(t, i) == kv(d, i));
    }
}

/// An insert that is done at once has made of the tree what it should.
proof fn lemma_insert(st: UState, s: Inserting)
    requires
        walking(st, s),
        st.advanced(s).2 is Some,
    ensures
        ({
            let w = st.shape.walk(s.node, s.ns, s.key);
            let (t, acts, r) = st.advanced(s);
            &&& inserted(st, s, w, t, r->0.last_device_node)
            &&& r->0.prefix_len == s.done + w.used as int / st.shape.unit as int
        }),
    decreases s.left(),
{
    let sh = st.shape;
    let unit = sh.unit as int;
    let w = sh.walk(s.node, s.ns, s.key);
    topo::lemma_chunk(sh);
    match st.next_child(s) {
        None => {
            lemma_insert_end(st, s);
        },
        Some(c) => {
            if s.key.len() < sh.chunk() {
                vstd::arithmetic::div_mod::lemma_small_mod(s.key.len(), sh.chunk());
            }
            assert(sh.named(s.node, s.ns, s.key.take(sh.chunk() as int), c));
            topo::lemma_shared(sh, s.key, c);
            let m = sh.shared(s.key, c) as int;
            let n = m / unit;
            let (d, s1, acts) = st.stepped(s);
            insert::lemma_stepped(st, s);
            assert(st.advanced(s) == d.advanced(s1));
            topo::lemma_aligned(sh, s.key.len() as int, m);
            vstd::arithmetic::div_mod::lemma_small_mod(0, sh.chunk());
            topo::lemma_aligned(sh, m, 0);
            tree_model::lemma_halves(s.key.len() as int, m, unit);
            let (t, acts1, r) = d.advanced(s1);
            if m == sh.nodes[c as int].key.len() {
                lemma_step_whole(st, s);
                let w1 = sh.walk(c, s.ns, s.key.skip(m));
                assert(w.stop == w1.stop && w.used == m + w1.used);
                lemma_insert(d, s1);
                lemma_insert_whole(st, s, c, d, s1, t, r->0.last_device_node);
                assert(w1.used as int % unit == 0) by {
                    chains::lemma_walk_tokens(sh, c, s.ns, s.key.skip(m));
                }
                crate::content::lemma_units_sum(m, w1.used as int, unit);
            } else {
                lemma_step_part(st, s);
                let f = st.nodes.len() as NodeId;
                let rest = s.key.skip(m);
                topo::lemma_split_wf(sh, c, m);
                topo::lemma_path_grows(sh, c);
                if rest.len() > 0 {
                    topo::lemma_aligned(sh, s.key.len() as int, m);
                    tree_model::lemma_front_children(sh, c, m, s.ns, rest.take(sh.chunk() as int));
                }
                assert(d.next_child(s1) is None);
                assert(d.shape.walk(f, s.ns, rest) == (Walk { chain: Seq::empty(), stop: None, used: 0 }));
                assert(d.shape.nodes[f as int].ns == s.ns);
                lemma_insert_end(d, s1);
                lemma_insert_part(st, s, c, d, s1, t, r->0.last_device_node);
            }
        },
    }
}

/// FULL device tokens of a query that the tree holds, one after the other.
pub open spec fn cached_kv(st: UState, ns: u32, raw: Seq<i64>) -> Seq<i64> {
    let w = st.walk(ns, raw);
    let ids = st.passed(w);
    st.walked(w).device_run(ids, ids.len() as int)
}

/// A FULL run of `ids[j]` is as long as its edge, and hangs below another.
spec fn in_place(st: UState, ids: Seq<NodeId>, j: int) -> bool {
    &&& ids[j] < st.nodes.len()
    &&& st.shape.units(ids[j] as int) >= 0
    &&& kv(st, ids[j] as int) matches Some(v) ==> {
        &&& v.len() == st.shape.units(ids[j] as int)
        &&& j > 0 ==> kv(st, ids[j - 1] as int) is Some
    }
}

/// The tokens before a node and those before the next.
proof fn lemma_at(st: UState, ids: Seq<NodeId>, j: int)
    requires
        0 <= j < ids.len(),
        forall|i: int| 0 <= i < ids.len() ==> #[trigger] in_place(st, ids, i),
    ensures
        0 <= chains::tokens(st.shape, ids, j),
        chains::tokens(st.shape, ids, j + 1) == chains::tokens(st.shape, ids, j) + st.shape.units(ids[j] as int),
        chains::tokens(st.shape, ids, j + 1) <= chains::tokens(st.shape, ids, ids.len() as int),
{
    assert forall|n: int| 0 <= n < ids.len() implies st.shape.units((#[trigger] ids[n]) as int) >= 0 by {
        assert(in_place(st, ids, n));
    }
    chains::lemma_tokens_le(st.shape, ids, 0, j);
    chains::lemma_tokens_le(st.shape, ids, j + 1, ids.len() as int);
}

/// Nodes filled up with `val` where they had no run give what they had, and
/// then `val` from there on.
proof fn lemma_filled(a: UState, t: UState, ids: Seq<NodeId>, val: Seq<i64>, k: int)
    requires
        0 <= k <= ids.len(),
        forall|j: int| 0 <= j < ids.len() ==> #[trigger] in_place(a, ids, j),
        chains::tokens(a.shape, ids, ids.len() as int) <= val.len(),
        forall|j: int| 0 <= j < ids.len() ==> #[trigger] fills(a, ids, t, val, j),
    ensures
        ({
            let had = a.device_run(ids, k);
            let at = chains::tokens(a.shape, ids, k);
            &&& had.len() <= at <= val.len()
            &&& k > 0 && kv(a, ids[k - 1] as int) is Some ==> had.len() == at
            &&& t.device_run(ids, k) == had + val.subrange(had.len() as int, at)
        }),
    decreases k,
{
    if k > 0 {
        lemma_filled(a, t, ids, val, k - 1);
        let x = ids[k - 1];
        assert(in_place(a, ids, k - 1));
        assert(fills(a, ids, t, val, k - 1));
        lemma_at(a, ids, k - 1);
        let at = chains::tokens(a.shape, ids, k - 1);
        let had = a.device_run(ids, k - 1);
        match kv(a, x as int) {
            Some(v) => {
                assert(had.len() == at);
                assert(t.device_run(ids, k) =~= a.device_run(ids, k) + val.subrange(at + v.len(), at + v.len()));
            },
            None => {
                let run = val.subrange(at, chains::tokens(a.shape, ids, k));
                assert(kv(t, x as int) == Some(run));
                assert(t.device_run(ids, k) =~= had + val.subrange(
                    had.len() as int,
                    chains::tokens(a.shape, ids, k),
                ));
            },
        }
    } else {
        assert(t.device_run(ids, 0) =~= Seq::<i64>::empty() + val.subrange(0, 0));
    }
}

/// FULL runs on the first `k` of `ids` depend on those alone.
proof fn lemma_run_same(a: UState, b: UState, x: Seq<NodeId>, y: Seq<NodeId>, k: int)
    requires
        0 <= k <= x.len(),
        k <= y.len(),
        forall|j: int| 0 <= j < k ==> y[j] == (#[trigger] x[j]) && kv(b, x[j] as int) == kv(a, x[j] as int),
    ensures
        a.device_run(x, k) == b.device_run(y, k),
    decreases k,
{
    if k > 0 {
        lemma_run_same(a, b, x, y, k - 1);
        let last = x[k - 1];
        assert(kv(b, last as int) == kv(a, last as int));
    }
}

/// Nodes that a query passes.
proof fn lemma_visited(st: UState, ns: u32, raw: Seq<i64>)
    requires
        st.wf(),
        st.nodes.len() < NodeId::MAX,
    ensures
        ({
            let w = st.walk(ns, raw);
            let a = st.walked(w);
            let ids = st.passed(w);
            let n = w.chain.len() as int;
            let unit = st.shape.unit as int;
            &&& forall|j: int| 0 <= j < ids.len() ==> #[trigger] in_place(a, ids, j)
            &&& forall|j: int|
                0 <= j < n ==> kv(a, (#[trigger] w.chain[j]) as int) == kv(st, w.chain[j] as int)
            &&& forall|j: int|
                0 <= j <= n ==> #[trigger] chains::tokens(a.shape, ids, j) == chains::tokens(st.shape, w.chain, j)
            &&& chains::tokens(a.shape, ids, ids.len() as int) == w.used as int / unit
            &&& w.stop matches Some((c, m)) ==> kv(a, st.nodes.len() as int) == opt_take(
                kv(st, c as int),
                m as int / unit,
            )
        }),
{
    let sh = st.shape;
    let unit = sh.unit as int;
    let flat = st.flat(raw);
    let w = st.walk(ns, raw);
    let a = st.walked(w);
    let ids = st.passed(w);
    let n = w.chain.len() as int;
    matching::lemma_flat(st, raw);
    chains::lemma_walk_tokens(sh, ROOT, ns, flat);
    assert forall|j: int| 0 <= j < n implies #[trigger] in_place(st, w.chain, j) by {
        lemma_chain_in_place(st, ns, flat, j);
    }
    match w.stop {
        None => {
            assert forall|j: int| 0 <= j < ids.len() implies #[trigger] in_place(a, ids, j) by {
                assert(in_place(st, w.chain, j));
            }
        },
        Some((c, m)) => {
            let f = st.nodes.len() as NodeId;
            let u = m as int / unit;
            let p = sh.nodes[c as int].parent;
            assert(sh.is_child(query::end_from(ROOT, w.chain), c) && !w.chain.contains(c) && 0 < m
                < sh.nodes[c as int].key.len() && sh.aligned(m as int)) by {
                topo::lemma_walk(sh, ROOT, ns, flat);
            }
            assert(st.node_ok(c as int));
            assert(sh.hangs(c as int));
            topo::lemma_path_grows(sh, c);
            topo::lemma_chunk(sh);
            vstd::arithmetic::div_mod::lemma_small_mod(0, sh.chunk());
            topo::lemma_aligned(sh, sh.nodes[c as int].key.len() as int, m as int);
            topo::lemma_aligned(sh, m as int, 0);
            tree_model::lemma_halves(sh.nodes[c as int].key.len() as int, m as int, unit);
            assert(a.shape.units(f as int) == u);
            assert(a.nodes[f as int] == st.front_of(c, m as int));
            assert forall|i: int| 0 <= i < st.nodes.len() && i != c implies kv(a, i) == #[trigger] kv(st, i) by {
                if i != p {
                    assert(a.nodes[i] == st.nodes[i]);
                }
            }
            assert forall|j: int| 0 <= j < n implies ids[j] == (#[trigger] w.chain[j]) && a.shape.units(
                w.chain[j] as int,
            ) == sh.units(w.chain[j] as int) && kv(a, w.chain[j] as int) == kv(st, w.chain[j] as int) by {
                assert(in_place(st, w.chain, j));
                assert(w.chain.contains(w.chain[j]));
                assert(kv(a, w.chain[j] as int) == kv(st, w.chain[j] as int));
            }
            assert forall|j: int| 0 <= j <= n implies #[trigger] chains::tokens(a.shape, ids, j)
                == chains::tokens(sh, w.chain, j) by {
                chains::lemma_tokens_alike(sh, a.shape, w.chain, ids, j);
            }
            assert(ids[n] == f);
            assert(chains::tokens(a.shape, ids, n + 1) == chains::tokens(a.shape, ids, n) + a.shape.units(
                ids[n] as int,
            ));
            assert forall|j: int| 0 <= j < ids.len() implies #[trigger] in_place(a, ids, j) by {
                if j < n {
                    assert(in_place(st, w.chain, j));
                    assert(ids[j] == w.chain[j]);
                    if j > 0 {
                        assert(in_place(st, w.chain, j - 1));
                        assert(ids[j - 1] == w.chain[j - 1]);
                    }
                } else if n > 0 {
                    assert(ids[n - 1] == w.chain[n - 1]);
                    assert(in_place(st, w.chain, n - 1));
                }
            }
        },
    }
}

/// A node that a query passes, and its run.
proof fn lemma_chain_in_place(st: UState, ns: u32, flat: Seq<i64>, j: int)
    requires
        st.wf(),
        st.shape.aligned(flat.len() as int),
        0 <= j < st.shape.walk(ROOT, ns, flat).chain.len(),
    ensures
        in_place(st, st.shape.walk(ROOT, ns, flat).chain, j),
{
    let chain = st.shape.walk(ROOT, ns, flat).chain;
    topo::lemma_walk(st.shape, ROOT, ns, flat);
    let c = chain[j];
    assert(st.shape.is_child(if j == 0 { ROOT } else { chain[j - 1] }, c));
    assert(st.node_ok(c as int));
    chains::lemma_units(st.shape, c as int);
}

/// The nodes of a key that has been inserted hold, in order, what was on the
/// device and then the inserted rest.
proof fn lemma_inserted_run(st: UState, ns: u32, raw: Seq<i64>, s: Inserting, b: UState, t: UState, target: NodeId)
    requires
        st.wf(),
        st.nodes.len() + 2 <= NodeId::MAX,
        b.shape == st.shape,
        b.nodes.len() == st.nodes.len(),
        forall|i: int| 0 <= i < st.nodes.len() ==> kv(b, i) == #[trigger] kv(st, i),
        s.node == ROOT,
        s.ns == ns,
        s.key == st.flat(raw),
        s.key.len() > 0,
        s.value.len() == s.key.len() as int / st.shape.unit as int,
        inserted(b, s, st.walk(ns, raw), t, target),
    ensures
        ({
            let seen = walk_laws::chain_with(st.shape, st.walk(ns, raw), s.key);
            let had = cached_kv(st, ns, raw);
            &&& had.len() <= s.value.len()
            &&& t.device_run(seen, seen.len() as int) == had + s.value.skip(had.len() as int)
            &&& seen.len() > 0
            &&& target == seen.last()
            &&& kv(t, target as int) is Some
        }),
{
    let sh = st.shape;
    let unit = sh.unit as int;
    let w = st.walk(ns, raw);
    let a = st.walked(w);
    let ids = st.passed(w);
    let n = w.chain.len() as int;
    let k = ids.len() as int;
    let seen = walk_laws::chain_with(sh, w, s.key);
    let used = w.used as int / unit;
    matching::lemma_flat(st, raw);
    lemma_visited(st, ns, raw);
    topo::lemma_chunk(sh);
    assert(w.used <= s.key.len() && w.used as int % unit == 0) by {
        chains::lemma_walk_tokens(sh, ROOT, ns, s.key);
    }
    assert(s.key.len() as int % unit == 0) by {
        vstd::arithmetic::div_mod::lemma_small_mod(0, sh.chunk());
        topo::lemma_aligned(sh, s.key.len() as int, 0);
    }
    tree_model::lemma_halves(s.key.len() as int, w.used as int, unit);
    tree_model::lemma_halves(s.key.len() as int, s.key.len() as int, unit);
    assert forall|j: int| 0 <= j < k implies #[trigger] fills(a, ids, t, s.value, j) by {
        assert(in_place(a, ids, j));
        if j < n {
            assert(fills(b, w.chain, t, s.value, j));
            assert(ids[j] == w.chain[j]);
            assert(w.chain[j] < st.nodes.len()) by {
                topo::lemma_walk(sh, ROOT, ns, s.key);
            }
            assert(kv(b, w.chain[j] as int) == kv(st, w.chain[j] as int));
            assert(chains::tokens(a.shape, ids, j) == chains::tokens(sh, w.chain, j));
            assert(chains::tokens(a.shape, ids, j + 1) == chains::tokens(sh, w.chain, j + 1));
        } else {
            let (c, m) = w.stop->0;
            assert(c < st.nodes.len()) by {
                topo::lemma_walk(sh, ROOT, ns, s.key);
            }
            assert(kv(b, c as int) == kv(st, c as int));
            assert(ids[j] == st.nodes.len());
            assert(chains::tokens(a.shape, ids, n) == chains::tokens(sh, w.chain, n));
        }
    }
    lemma_filled(a, t, ids, s.value, k);
    let had = a.device_run(ids, k);
    if w.used < s.key.len() {
        assert(seen.drop_last() =~= ids);
        assert forall|j: int| 0 <= j < k implies seen[j] == (#[trigger] ids[j]) && kv(t, ids[j] as int) == kv(
            t,
            ids[j] as int,
        ) by {
            assert(seen.drop_last()[j] == seen[j]);
        }
        lemma_run_same(t, t, ids, seen, k);
        assert(seen[k] == seen.last());
        assert(t.device_run(seen, k + 1) =~= had + s.value.skip(had.len() as int));
    } else {
        assert(seen =~= ids);
        assert(t.device_run(seen, k) =~= had + s.value.skip(had.len() as int));
        if k == 0 {
            assert(chains::tokens(a.shape, ids, 0) == 0);
        }
        assert(fills(a, ids, t, s.value, k - 1));
    }
}

/// A match whose last node holds all it needs on the device.
proof fn lemma_whole_report(t: UState, ids: Seq<NodeId>, u: int)
    requires
        t.shape.wf(),
        !t.cfg.swa(),
        t.cfg.mamba() ==> t.cfg.mamba_checkpoint_grid >= 1,
        ids.len() > 0,
        0 < ids.last() < t.shape.nodes.len(),
        kv(t, ids.last() as int) is Some,
        t.cfg.mamba() ==> t.nodes[ids.last() as int].value[2] is Some,
        t.device_run(ids, ids.len() as int).len() == u,
    ensures
        t.match_report(ids, u, Seq::empty()) == (matching::Matched {
            device: t.device_run(ids, ids.len() as int),
            device_node: ids.last(),
            host_node: ids.last(),
            best: ids.last(),
            full_hit: u,
            ..matching::Matched::none()
        }),
{
    let k = ids.len() as int;
    assert(t.valid_at(ids, k - 1, true));
    assert(t.valid_at(ids, k - 1, false));
    let up = t.shape.up(ids.last());
    assert(up.len() > 0 && up[0] == ids.last()) by {
        topo::lemma_up(t.shape, ids.last());
    }
    assert(t.host_tokens(up, 0, ids.last()) == 0);
    if t.cfg.mamba() {
        let grid = t.cfg.mamba_checkpoint_grid as int;
        vstd::arithmetic::div_mod::lemma_fundamental_div_mod(u, grid);
        assert(u / grid * grid == grid * (u / grid)) by (nonlinear_arith);
    }
}

/// In a tree without a sliding window an insert that is done at once puts
/// the whole key on the device: a match finds what was there, then the
/// inserted rest, and ends at the node of the insert.
pub proof fn law_insert_then_match(st: UState, ns: u32, raw: Seq<i64>, value: Option<Seq<i64>>, asked: Asked)
    requires
        st.wf(),
        !st.cfg.swa(),
        st.nodes.len() + 2 <= NodeId::MAX,
        ({
            let u = st.flat(raw).len() as int / st.shape.unit as int;
            value matches Some(v) ==> v.len() >= u
        }),
        st.after_begin(ns, raw, value, asked).2 is Some,
    ensures
        ({
            let u = st.flat(raw).len() as int / st.shape.unit as int;
            let had = cached_kv(st, ns, raw);
            let given = st.insert_of(ns, raw, value, asked).value;
            let (t, acts, r) = st.after_begin(ns, raw, value, asked);
            let m = t.after_match(ns, raw).1;
            &&& m.device == had + given.skip(had.len() as int)
            &&& m == (matching::Matched {
                device: m.device,
                device_node: r->0.last_device_node,
                host_node: r->0.last_device_node,
                best: r->0.last_device_node,
                full_hit: u,
                ..matching::Matched::none()
            })
            &&& m.device.len() == u
        }),
{
    let sh = st.shape;
    let unit = sh.unit as int;
    let flat = st.flat(raw);
    let u = flat.len() as int / unit;
    let w = st.walk(ns, raw);
    let (t, acts, r) = st.after_begin(ns, raw, value, asked);
    matching::lemma_flat(st, raw);
    topo::lemma_chunk(sh);
    if flat.len() == 0 {
        let given = st.insert_of(ns, raw, value, asked).value;
        assert(w.chain.len() == 0 && w.stop is None);
        assert(cached_kv(st, ns, raw) =~= Seq::<i64>::empty());
        assert(u == 0);
        assert(Seq::<i64>::empty() + given.skip(0) =~= Seq::<i64>::empty());
    } else {
        let b = st.welcomed(asked.priority);
        let s = b.insert_of(ns, raw, value, asked);
        assert(s == st.insert_of(ns, raw, value, asked));
        assert forall|i: int| 0 <= i < st.nodes.len() implies kv(b, i) == #[trigger] kv(st, i) by {}
        assert forall|i: int| 0 <= i < b.nodes.len() implies (#[trigger] b.nodes[i]).value.len() == 4 by {
            if i > 0 {
                assert(st.node_ok(i));
            }
        }
        assert(s.value.len() == u);
        lemma_insert(b, s);
        lemma_inserted_run(st, ns, raw, s, b, t, r->0.last_device_node);
        walk_laws::lemma_added(sh, ROOT, ns, flat);
        let seen = walk_laws::chain_with(sh, w, flat);
        assert(t.flat(raw) == flat);
        assert(t.walk(ns, raw) == (Walk { chain: seen, stop: None, used: flat.len() }));
        let had = cached_kv(st, ns, raw);
        assert(t.device_run(seen, seen.len() as int).len() == u);
        assert(0 < seen.last() < t.shape.nodes.len()) by {
            topo::lemma_walk(t.shape, ROOT, ns, flat);
            assert(t.shape.is_child(if seen.len() == 1 { ROOT } else { seen[seen.len() - 2] }, seen[seen.len() - 1]));
        }
        lemma_whole_report(t, seen, u);
    }
}

/// Each of `ids` is the parent of the next, the root that of the first.
pub open spec fn linked(s: Shape, ids: Seq<NodeId>, k: int) -> bool {
    &&& 0 < ids[k] < s.nodes.len()
    &&& s.nodes[ids[k] as int].parent == matching::node_at(ids, k)
}

/// The way up from a node of a linked path is the path backwards.
pub(crate) proof fn lemma_up_back(s: Shape, ids: Seq<NodeId>, k: int)
    requires
        s.wf(),
        0 <= k <= ids.len(),
        forall|j: int| 0 <= j < ids.len() ==> #[trigger] linked(s, ids, j),
    ensures
        s.up(matching::node_at(ids, k)) == ids.take(k).reverse(),
    decreases k,
{
    if k > 0 {
        lemma_up_back(s, ids, k - 1);
        let x = ids[k - 1];
        assert(linked(s, ids, k - 1));
        topo::lemma_path_grows(s, x);
        assert(s.up(x) =~= seq![x] + s.up(matching::node_at(ids, k - 1)));
        assert(s.up(x) =~= ids.take(k).reverse());
    } else {
        assert(s.up(ROOT) =~= ids.take(0).reverse());
    }
}

/// The nodes that a query passes are a path from the root.
pub(crate) proof fn lemma_passed_linked(st: UState, ns: u32, raw: Seq<i64>)
    requires
        st.wf(),
        st.roomy(1),
    ensures
        ({
            let w = st.walk(ns, raw);
            let ids = st.passed(w);
            forall|j: int| 0 <= j < ids.len() ==> #[trigger] linked(st.walked(w).shape, ids, j)
        }),
{
    let sh = st.shape;
    let flat = st.flat(raw);
    let w = st.walk(ns, raw);
    let ids = st.passed(w);
    let t = st.walked(w).shape;
    matching::lemma_flat(st, raw);
    let n = w.chain.len() as int;
    assert forall|j: int| 0 <= j < ids.len() implies #[trigger] linked(t, ids, j) by {
        topo::lemma_walk(sh, ROOT, ns, flat);
        if j < n {
            assert(sh.is_child(if j == 0 { ROOT } else { w.chain[j - 1] }, w.chain[j]));
            assert(ids[j] == w.chain[j]);
            if j > 0 {
                assert(ids[j - 1] == w.chain[j - 1]);
            }
            if let Some((c, m)) = w.stop {
                assert(w.chain.contains(w.chain[j]));
            }
        } else {
            let (c, m) = w.stop->0;
            assert(ids[j] == st.nodes.len());
            if n > 0 {
                assert(ids[n - 1] == w.chain[n - 1]);
            }
        }
    }
}

/// The device part of a path: its first nodes.
proof fn lemma_device_part(t: UState, ids: Seq<NodeId>, k: int)
    requires
        0 <= k <= ids.len(),
        !t.cfg.swa(),
        !t.cfg.mamba(),
        forall|j: int| 0 <= j < ids.len() ==> #[trigger] in_place(t, ids, j),
    ensures
        ({
            let d = t.usable(ids, k, true);
            &&& 0 <= d <= k
            &&& d > 0 ==> kv(t, ids[d - 1] as int) is Some
            &&& t.device_run(ids, k) == t.device_run(ids, d)
            &&& t.device_run(ids, d).len() == chains::tokens(t.shape, ids, d)
            &&& forall|j: int| d <= j < k ==> #[trigger] bare(t, ids, j)
        }),
    decreases k,
{
    if k > 0 {
        lemma_device_part(t, ids, k - 1);
        assert(in_place(t, ids, k - 1));
        lemma_at(t, ids, k - 1);
        let d = t.usable(ids, k - 1, true);
        if kv(t, ids[k - 1] as int) is Some {
            assert(t.valid_at(ids, k - 1, true));
            if k > 1 && d < k - 1 {
                assert(bare(t, ids, k - 2));
            }
        } else {
            assert(!t.valid_at(ids, k - 1, true));
            assert forall|j: int| d <= j < k implies #[trigger] bare(t, ids, j) by {}
        }
    }
}

/// `ids[j]` has no FULL device run.
spec fn bare(t: UState, ids: Seq<NodeId>, j: int) -> bool {
    kv(t, ids[j] as int) is None
}

/// Host tokens from place `j` of the way up to the device part.
proof fn lemma_host_part(t: UState, ids: Seq<NodeId>, d: int, j: int)
    requires
        t.wf(),
        0 <= d <= ids.len(),
        0 <= j <= ids.len() - d,
        ids.no_duplicates(),
        forall|i: int| 0 <= i < ids.len() ==> #[trigger] in_place(t, ids, i),
        forall|i: int| 0 <= i < ids.len() ==> t.inner(#[trigger] ids[i]),
        forall|i: int| d <= i < ids.len() ==> #[trigger] bare(t, ids, i),
    ensures
        t.host_tokens(ids.reverse(), j, matching::node_at(ids, d)) == chains::tokens(t.shape, ids, ids.len() - j)
            - chains::tokens(t.shape, ids, d),
    decreases ids.len() - j,
{
    let n = ids.len() as int;
    let up = ids.reverse();
    if j < n - d {
        lemma_host_part(t, ids, d, j + 1);
        let x = ids[n - 1 - j];
        assert(up[j] == x);
        assert(in_place(t, ids, n - 1 - j));
        assert(bare(t, ids, n - 1 - j));
        assert(t.inner(x));
        assert(t.node_ok(x as int));
        lemma_at(t, ids, n - 1 - j);
        if d > 0 {
            assert(ids[d - 1] != ids[n - 1 - j]);
        }
    } else if d > 0 {
        assert(up[j] == ids[d - 1]);
    }
}

/// In a tree of FULL KV alone a match hands out what is on the device, and
/// with a host tier on the rest of what it matched is on the host.
pub proof fn law_match_covers(st: UState, ns: u32, raw: Seq<i64>)
    requires
        st.wf(),
        st.roomy(1),
        !st.cfg.swa(),
        !st.cfg.mamba(),
    ensures
        ({
            let m = st.after_match(ns, raw).1;
            &&& m.device == cached_kv(st, ns, raw)
            &&& m.full_hit == st.walk(ns, raw).used as int / st.shape.unit as int
            &&& m.device.len() + m.host_hit <= m.full_hit
            &&& st.hicache ==> m.device.len() + m.host_hit == m.full_hit
        }),
{
    let w = st.walk(ns, raw);
    let t = st.walked(w);
    let ids = st.passed(w);
    let n = ids.len() as int;
    matching::lemma_flat(st, raw);
    matching::lemma_walked(st, ns, raw);
    lemma_visited(st, ns, raw);
    if st.flat(raw).len() == 0 {
        topo::lemma_chunk(st.shape);
        assert(w.chain.len() == 0 && w.stop is None);
        assert(cached_kv(st, ns, raw) =~= Seq::<i64>::empty());
    } else {
        lemma_passed_linked(st, ns, raw);
        lemma_device_part(t, ids, n);
        let d = t.usable(ids, n, true);
        if st.hicache {
            if n > 0 {
                assert(t.inner(ids[n - 1]));
                assert(t.node_ok(ids[n - 1] as int));
                assert(t.valid_at(ids, n - 1, false));
            }
            lemma_up_back(t.shape, ids, n);
            assert(ids.take(n) =~= ids);
            lemma_host_part(t, ids, d, 0);
        } else {
            lemma_up_back(t.shape, ids, d);
            let up = t.shape.up(matching::node_at(ids, d));
            if d > 0 {
                assert(up[0] == ids[d - 1]);
                lemma_at(t, ids, d - 1);
            } else {
                lemma_tokens_sum(t, ids);
            }
        }
    }
}

/// Tokens of a path are none or more.
proof fn lemma_tokens_sum(t: UState, ids: Seq<NodeId>)
    requires
        forall|j: int| 0 <= j < ids.len() ==> #[trigger] in_place(t, ids, j),
    ensures
        chains::tokens(t.shape, ids, ids.len() as int) >= 0,
{
    if ids.len() > 0 {
        lemma_at(t, ids, ids.len() - 1);
        assert(in_place(t, ids, ids.len() - 1));
    }
}

/// `ids[k]` is on the host alone, below the node before it.
spec fn awaits(st: UState, ids: Seq<NodeId>, k: int) -> bool {
    let x = ids[k];
    &&& 0 < x
    &&& st.inner(x)
    &&& st.shape.nodes.len() == st.nodes.len()
    &&& st.nodes[x as int].value.len() == 4
    &&& kv(st, x as int) is None
    &&& k > 0 ==> st.shape.nodes[x as int].parent == ids[k - 1]
}

/// Host tokens of `ids`.
spec fn owed(st: UState, ids: Seq<NodeId>) -> int
    decreases ids.len(),
{
    if ids.len() == 0 {
        0
    } else {
        st.kv_len(ids[0]) + owed(st, ids.skip(1))
    }
}

/// A run of a path begins with that of its first node.
proof fn lemma_run_front(t: UState, x: NodeId, rest: Seq<NodeId>, k: int)
    requires
        0 <= k <= rest.len(),
        kv(t, x as int) is Some,
    ensures
        t.device_run(seq![x] + rest, k + 1) == kv(t, x as int)->0 + t.device_run(rest, k),
    decreases k,
{
    let ids = seq![x] + rest;
    if k == 0 {
        assert(t.device_run(ids, 0) =~= Seq::<i64>::empty());
        assert(t.device_run(ids, 1) =~= kv(t, x as int)->0 + t.device_run(rest, 0));
    } else {
        lemma_run_front(t, x, rest, k - 1);
        assert(ids[k] == rest[k - 1]);
        assert(t.device_run(ids, k + 1) =~= kv(t, x as int)->0 + t.device_run(rest, k));
    }
}

/// Device tokens after a load on `x`.
proof fn lemma_load_size(st: UState, x: NodeId, v: Seq<i64>)
    requires
        0 < x < st.nodes.len(),
        st.nodes[x as int].value.len() == 4,
        kv(st, x as int) is None,
        model::TICK <= st.clock <= model::CLOCK_CAP + model::TICK,
    ensures
        st.kv_loaded_on(x, v).size(0) == st.size(0) + v.len(),
{
    let t = st.kv_loaded_on(x, v);
    facts::lemma_counts(st, t, x, 0);
    assert(t.count(0, false) == st.count(0, false) - st.weight(0, false, x as int) + t.weight(0, false, x as int));
    assert(t.count(0, true) == st.count(0, true) - st.weight(0, true, x as int) + t.weight(0, true, x as int));
}

/// A path that is on the host alone takes its device run, all of it.
proof fn lemma_kv_loaded(st: UState, ids: Seq<NodeId>, dev: Seq<i64>)
    requires
        ids.no_duplicates(),
        st.shape.wf(),
        st.nodes.len() == st.shape.nodes.len(),
        st.nodes.len() <= NodeId::MAX,
        forall|k: int| 0 <= k < ids.len() ==> #[trigger] awaits(st, ids, k),
        ids.len() > 0 ==> kv(st, st.shape.nodes[ids[0] as int].parent as int) is Some,
        dev.len() == owed(st, ids),
        st.size(0) + dev.len() <= i64::MAX,
        model::TICK <= st.clock <= model::CLOCK_CAP + model::TICK,
    ensures
        st.kv_loadable(ids, dev),
        ({
            let t = st.kv_loaded(ids, dev);
            &&& t.shape == st.shape
            &&& t.cfg == st.cfg
            &&& t.nodes.len() == st.nodes.len()
            &&& t.device_run(ids, ids.len() as int) == dev
            &&& forall|k: int| 0 <= k < ids.len() ==> kv(t, (#[trigger] ids[k]) as int) is Some
            &&& forall|i: int|
                0 <= i < st.nodes.len() && !ids.contains(i as NodeId) ==> (#[trigger] t.nodes[i]) == st.nodes[i]
        }),
    decreases ids.len(),
{
    if ids.len() > 0 {
        let x = ids[0];
        let rest = ids.skip(1);
        assert(awaits(st, ids, 0));
        let n = st.kv_len(x);
        assert(owed(st, rest) >= 0) by {
            lemma_owed(st, rest);
        }
        let a = st.kv_loaded_on(x, dev.take(n));
        lemma_load_size(st, x, dev.take(n));
        assert forall|k: int| 0 <= k < rest.len() implies #[trigger] awaits(a, rest, k) by {
            assert(awaits(st, ids, k + 1));
            assert(rest[k] == ids[k + 1]);
            assert(ids[0] != ids[k + 1]);
            if k > 0 {
                assert(rest[k - 1] == ids[k]);
            }
        }
        assert forall|k: int| 0 <= k < rest.len() implies a.nodes[(#[trigger] rest[k]) as int]
            == st.nodes[rest[k] as int] by {
            assert(awaits(st, ids, k + 1));
            assert(ids[0] != ids[k + 1]);
        }
        lemma_owed_same(st, a, rest);
        if rest.len() > 0 {
            assert(awaits(st, ids, 1));
            assert(a.shape.nodes[rest[0] as int].parent == x);
        }
        lemma_kv_loaded(a, rest, dev.skip(n));
        let t = a.kv_loaded(rest, dev.skip(n));
        assert(!rest.contains(x)) by {
            if rest.contains(x) {
                let k = rest.index_of(x);
                assert(ids[k + 1] == ids[0]);
            }
        }
        assert(t.nodes[x as int] == a.nodes[x as int]);
        lemma_run_front(t, x, rest, rest.len() as int);
        assert(seq![x] + rest =~= ids);
        assert(dev.take(n) + dev.skip(n) =~= dev);
        assert forall|k: int| 0 <= k < ids.len() implies kv(t, (#[trigger] ids[k]) as int) is Some by {
            if k > 0 {
                assert(rest[k - 1] == ids[k]);
            }
        }
        assert forall|i: int| 0 <= i < st.nodes.len() && !ids.contains(i as NodeId) implies (#[trigger] t.nodes[i])
            == st.nodes[i] by {
            if rest.contains(i as NodeId) {
                let k = rest.index_of(i as NodeId);
                assert(ids[k + 1] == i as NodeId);
            }
            assert(ids.contains(x));
        }
    } else {
        assert(st.device_run(ids, 0) =~= dev);
    }
}

proof fn lemma_owed(st: UState, ids: Seq<NodeId>)
    ensures
        owed(st, ids) >= 0,
    decreases ids.len(),
{
    if ids.len() > 0 {
        lemma_owed(st, ids.skip(1));
    }
}

proof fn lemma_owed_same(a: UState, b: UState, ids: Seq<NodeId>)
    requires
        forall|k: int|
            0 <= k < ids.len() ==> b.nodes[(#[trigger] ids[k]) as int].host == a.nodes[ids[k] as int].host,
    ensures
        owed(a, ids) == owed(b, ids),
    decreases ids.len(),
{
    if ids.len() > 0 {
        let rest = ids.skip(1);
        assert forall|k: int| 0 <= k < rest.len() implies b.nodes[(#[trigger] rest[k]) as int].host
            == a.nodes[rest[k] as int].host by {
            assert(rest[k] == ids[k + 1]);
        }
        lemma_owed_same(a, b, rest);
        assert(b.nodes[ids[0] as int].host == a.nodes[ids[0] as int].host);
    }
}

/// The host runs of `ids` are as long as what they owe.
proof fn lemma_host_runs(st: UState, ids: Seq<NodeId>)
    ensures
        st.host_runs(ids, 0).len() == owed(st, ids),
    decreases ids.len(),
{
    if ids.len() > 0 {
        lemma_host_runs(st, ids.drop_last());
        lemma_owed_last(st, ids);
    }
}

proof fn lemma_owed_last(st: UState, ids: Seq<NodeId>)
    requires
        ids.len() > 0,
    ensures
        owed(st, ids) == owed(st, ids.drop_last()) + st.kv_len(ids.last()),
    decreases ids.len(),
{
    if ids.len() > 1 {
        lemma_owed_last(st, ids.skip(1));
        assert(ids.skip(1).drop_last() =~= ids.drop_last().skip(1));
        assert(ids.skip(1).last() == ids.last());
        assert(ids.drop_last()[0] == ids[0]);
        assert(owed(st, ids.drop_last()) == st.kv_len(ids[0]) + owed(st, ids.drop_last().skip(1)));
        assert(owed(st, ids) == st.kv_len(ids[0]) + owed(st, ids.skip(1)));
    } else {
        assert(ids[0] == ids.last());
        assert(owed(st, ids.skip(1)) == 0);
        assert(owed(st, ids.drop_last()) == 0);
        assert(owed(st, ids) == st.kv_len(ids[0]) + owed(st, ids.skip(1)));
    }
}

/// How far up nodes are evicted.
proof fn lemma_evicted_until(st: UState, up: Seq<NodeId>, k: int)
    requires
        0 <= k <= up.len(),
    ensures
        k <= st.evicted_until(up, k) <= up.len(),
        forall|j: int| k <= j < st.evicted_until(up, k) ==> st.evicted(#[trigger] up[j]),
        st.evicted_until(up, k) < up.len() ==> !st.evicted(up[st.evicted_until(up, k)]),
    decreases up.len() - k,
{
    if k < up.len() && st.evicted(up[k]) {
        lemma_evicted_until(st, up, k + 1);
    }
}

/// Holding nodes for a load-back touches no run.
proof fn lemma_held_for(st: UState, ids: Seq<NodeId>, node: NodeId)
    requires
        forall|k: int| 0 <= k < ids.len() ==> (#[trigger] ids[k]) < st.nodes.len(),
    ensures
        ({
            let t = st.held_for(ids, node);
            &&& t == (UState { nodes: t.nodes, ..st })
            &&& t.nodes.len() == st.nodes.len()
            &&& forall|i: int|
                0 <= i < st.nodes.len() ==> (#[trigger] t.nodes[i]) == (UNodeState {
                    lb: t.nodes[i].lb,
                    ..st.nodes[i]
                })
            &&& t.size(0) == st.size(0)
        }),
    decreases ids.len(),
{
    if ids.len() > 0 {
        let front = ids.drop_last();
        assert forall|k: int| 0 <= k < front.len() implies (#[trigger] front[k]) < st.nodes.len() by {
            assert(front[k] == ids[k]);
        }
        lemma_held_for(st, front, node);
        assert(ids[ids.len() - 1] < st.nodes.len());
        let t = st.held_for(ids, node);
        let a = st.held_for(front, node);
        assert forall|c: int, l: bool| #[trigger] t.count(c, l) == a.count(c, l) by {
            assert forall|i: int| 0 <= i < a.nodes.len() implies t.weight(c, l, i) == a.weight(c, l, i) by {
                let n = t.nodes[i];
            }
            crate::seqs::lemma_total_same(
                |i: int| a.weight(c, l, i),
                |i: int| t.weight(c, l, i),
                a.nodes.len(),
            );
        }
    }
}

/// In a tree of FULL KV alone the plan of a load-back can be carried out
/// with as many device slots as it names host slots: the nodes of the plan
/// then hold these slots in order, the node is on the device, and no other
/// node changes.
pub proof fn law_load_back_plan_holds(st: UState, node: NodeId, dev: Seq<i64>)
    requires
        st.wf(),
        st.inner(node),
        !st.cfg.swa(),
        !st.cfg.mamba(),
        st.load_back_spec(node) is Some,
        ({
            let (plan, comps) = st.load_back_spec(node)->0;
            dev.len() == plan.host->0.len()
        }),
        st.size(0) + dev.len() <= i64::MAX,
    ensures
        ({
            let (plan, comps) = st.load_back_spec(node)->0;
            let ids = plan.nodes;
            let t = st.load_back_committed(node, Some(dev), ids, comps).0;
            &&& st.load_back_fits(node, Some(dev), ids, comps)
            &&& t.shape == st.shape
            &&& t.device_run(ids, ids.len() as int) == dev
            &&& !t.evicted(node)
            &&& forall|i: int|
                0 <= i < st.nodes.len() && !ids.contains(i as NodeId) ==> (#[trigger] t.nodes[i]) == st.nodes[i]
        }),
{
    let (plan, comps) = st.load_back_spec(node)->0;
    let ids = plan.nodes;
    let up = st.shape.up(node);
    let e = st.evicted_until(up, 0);
    lemma_evicted_until(st, up, 0);
    matching::lemma_up_live(st, node);
    assert(comps =~= Seq::empty());
    assert(ids =~= up.take(e).reverse());
    assert forall|k: int| 0 <= k < ids.len() implies ids[k] == up[e - 1 - k] && st.inner(#[trigger] ids[k]) by {
        assert(st.inner(up[e - 1 - k]));
    }
    assert forall|i: int, j: int| 0 <= i < ids.len() && 0 <= j < ids.len() && i != j implies ids[i] != ids[j] by {
        assert(up[e - 1 - i] != up[e - 1 - j]);
    }
    assert forall|k: int| 0 <= k < ids.len() implies #[trigger] awaits(st, ids, k) by {
        let x = ids[k];
        assert(st.inner(ids[k]));
        assert(st.evicted(up[e - 1 - k]));
        assert(st.node_ok(x as int));
        if k > 0 {
            lemma_up_parent(st.shape, node, e - 1 - k);
            assert(ids[k - 1] == up[e - k]);
        }
    }
    if e > 0 {
        lemma_up_parent(st.shape, node, e - 1);
        assert(ids[0] == up[e - 1]);
        if e < up.len() {
            assert(!st.evicted(up[e]));
            assert(st.inner(up[e]));
        }
    }
    lemma_host_runs(st, ids);
    assert forall|k: int| 0 <= k < ids.len() implies (#[trigger] ids[k]) < st.nodes.len() by {
        assert(st.inner(ids[k]));
    }
    let a = if st.cfg.is_write_back {
        st.held_for(ids, node)
    } else {
        st
    };
    if st.cfg.is_write_back {
        lemma_held_for(st, ids, node);
        assert forall|k: int| 0 <= k < ids.len() implies #[trigger] awaits(a, ids, k) by {
            assert(awaits(st, ids, k));
            let n = a.nodes[ids[k] as int];
        }
        assert forall|k: int| 0 <= k < ids.len() implies a.nodes[(#[trigger] ids[k]) as int].host
            == st.nodes[ids[k] as int].host by {
            assert(awaits(st, ids, k));
            let n = a.nodes[ids[k] as int];
        }
        lemma_owed_same(st, a, ids);
        if e > 0 {
            let p = st.shape.nodes[ids[0] as int].parent;
            assert(awaits(st, ids, 0));
            topo::lemma_path_grows(st.shape, ids[0]);
            let n = a.nodes[p as int];
        }
    }
    lemma_kv_loaded(a, ids, dev);
    assert(st.load_back_fits(node, Some(dev), ids, comps)) by {
        assert forall|k: int| 0 <= k < ids.len() implies st.live(#[trigger] ids[k]) && (
        st.nodes[ids[k] as int].lb is None || st.nodes[ids[k] as int].lb == Some(node)) by {
            assert(st.inner(ids[k]));
            assert(!st.pinned(ids, node));
        }
    }
    let t = a.kv_loaded(ids, dev);
    lemma_up_head(st, node);
    if e > 0 {
        assert(up[0] == node);
        assert(ids[e - 1] == node);
        assert(kv(t, ids[e - 1] as int) is Some);
    } else {
        assert(!st.evicted(up[0]));
    }
    assert forall|i: int| 0 <= i < st.nodes.len() && !ids.contains(i as NodeId) implies (#[trigger] t.nodes[i])
        == st.nodes[i] by {
        if st.cfg.is_write_back {
            lemma_held_others(st, ids, node, i);
        }
    }
    if e == 0 {
        assert(!ids.contains(node));
        assert(t.nodes[node as int] == st.nodes[node as int]);
    }
}

/// The next node on the way up is the parent.
proof fn lemma_up_parent(s: Shape, node: NodeId, k: int)
    requires
        s.wf(),
        s.has(node),
        0 <= k < s.up(node).len(),
    ensures
        s.nodes[s.up(node)[k] as int].parent == (if k + 1 < s.up(node).len() {
            s.up(node)[k + 1]
        } else {
            ROOT
        }),
{
    topo::lemma_up(s, node);
    let x = s.up(node)[k];
}

proof fn lemma_up_head(st: UState, node: NodeId)
    requires
        st.wf(),
        st.inner(node),
    ensures
        st.shape.up(node).len() > 0,
        st.shape.up(node)[0] == node,
{
    topo::lemma_up(st.shape, node);
}

/// Nodes that are not held stay as they are.
proof fn lemma_held_others(st: UState, ids: Seq<NodeId>, node: NodeId, i: int)
    requires
        0 <= i < st.nodes.len() <= NodeId::MAX,
        !ids.contains(i as NodeId),
        forall|k: int| 0 <= k < ids.len() ==> (#[trigger] ids[k]) < st.nodes.len(),
    ensures
        st.held_for(ids, node).nodes[i] == st.nodes[i],
        st.held_for(ids, node).nodes.len() == st.nodes.len(),
    decreases ids.len(),
{
    if ids.len() > 0 {
        let front = ids.drop_last();
        if front.contains(i as NodeId) {
            let k = front.index_of(i as NodeId);
            assert(ids[k] == i as NodeId);
        }
        assert forall|k: int| 0 <= k < front.len() implies (#[trigger] front[k]) < st.nodes.len() by {
            assert(front[k] == ids[k]);
        }
        lemma_held_others(st, front, node, i);
        assert(ids[ids.len() - 1] < st.nodes.len());
        assert(ids[ids.len() - 1] != i as NodeId);
    }
}

/// The eviction of a device leaf takes the FULL device tokens of that leaf
/// and of no other node, and nothing that is locked; a backed-up leaf stays
/// in the tree with its host run.
pub proof fn law_evict_leaf(st: UState, x: NodeId)
    requires
        st.wf(),
        st.device_leaf(x),
        st.backuped(x) || st.shape.is_leaf(x),
    ensures
        ({
            let (t, out, ask) = st.leaf_evicted(x, false);
            &&& ask is None
            &&& t.nodes.len() == st.nodes.len()
            &&& t.nodes[x as int].value[0] is None
            &&& t.count(0, false) == st.count(0, false) - st.units(x)
            &&& t.count(0, true) == st.count(0, true)
            &&& forall|i: int|
                0 <= i < st.nodes.len() && i != x ==> (#[trigger] t.nodes[i]).value == st.nodes[i].value
                    && t.nodes[i].host == st.nodes[i].host && t.nodes[i].lock == st.nodes[i].lock
            &&& st.backuped(x) ==> t.shape == st.shape && t.nodes[x as int].host == st.nodes[x as int].host
            &&& !st.backuped(x) ==> !t.live(x)
        }),
{
    let (t, out, ask) = st.leaf_evicted(x, false);
    let p = st.shape.nodes[x as int].parent;
    assert(st.node_ok(x as int));
    topo::lemma_path_grows(st.shape, x);
    assert forall|b: bool| #[trigger] t.count(0, b) == st.count(0, b) - st.weight(0, b, x as int) by {
        let f = |i: int| st.weight(0, b, i);
        let g = |i: int| t.weight(0, b, i);
        assert forall|i: int| 0 <= i < st.nodes.len() && i != x implies #[trigger] f(i) == g(i) by {
            if i != p {
                assert(t.nodes[i] == st.nodes[i]);
            }
        }
        crate::seqs::lemma_total_update(f, g, st.nodes.len(), x as int);
    }
}

/// An insert in flight can be taken up again once the caller has stored the
/// window slots that it was asked for.
pub proof fn law_stored_slots_keep_the_insert(st: UState, s: Inserting, node: NodeId, slots: Seq<i64>)
    requires
        st.wf(),
        st.inner(node),
        st.inserting(s),
    ensures
        st.stored(node, 1, slots).inserting(s),
{
    let t = st.stored(node, 1, slots);
    assert(st.node_ok(node as int));
    assert forall|c: int, l: bool| c == 0 || c == 2 implies #[trigger] st.count(c, l) == t.count(c, l) by {
        assert forall|i: int| 0 <= i < st.nodes.len() implies #[trigger] st.weight(c, l, i) == t.weight(c, l, i) by {
            if i == node {
                assert(t.nodes[i].value[c] == st.nodes[i].value[c]);
            }
        }
        seqs::lemma_total_same(|i: int| st.weight(c, l, i), |i: int| t.weight(c, l, i), st.nodes.len());
    }
    assert(t.nodes[s.node as int].value[0] == st.nodes[s.node as int].value[0] || s.phase is Tail);
}

/// Two states of one tree with the same runs on both sides.
pub open spec fn same_runs(a: UState, b: UState) -> bool {
    &&& b.shape == a.shape
    &&& b.cfg == a.cfg
    &&& b.hicache == a.hicache
    &&& b.nodes.len() == a.nodes.len()
    &&& forall|i: int|
        0 <= i < a.nodes.len() ==> (#[trigger] b.nodes[i]).value == a.nodes[i].value && b.nodes[i].host
            == a.nodes[i].host
}

/// Every node of `ids` exists.
pub open spec fn within(st: UState, ids: Seq<NodeId>) -> bool {
    forall|k: int| 0 <= k < ids.len() ==> (#[trigger] ids[k]) < st.nodes.len()
}

proof fn lemma_valid_same(a: UState, b: UState, ids: Seq<NodeId>, k: int, device_only: bool)
    requires
        same_runs(a, b),
        within(a, ids),
        0 <= k <= ids.len(),
    ensures
        b.swa_run(ids, k, device_only) == a.swa_run(ids, k, device_only),
        b.usable(ids, k, device_only) == a.usable(ids, k, device_only),
        b.device_run(ids, k) == a.device_run(ids, k),
    decreases k,
{
    if k > 0 {
        lemma_valid_same(a, b, ids, k - 1, device_only);
        let x = ids[k - 1];
        assert(b.nodes[x as int].value == a.nodes[x as int].value);
        assert(b.swa_run(ids, k, device_only) == a.swa_run(ids, k, device_only));
        assert(b.valid_at(ids, k - 1, device_only) == a.valid_at(ids, k - 1, device_only));
    }
}

proof fn lemma_tokens_same(a: UState, b: UState, up: Seq<NodeId>, k: int, stop: NodeId, got: int)
    requires
        same_runs(a, b),
        within(a, up),
        0 <= k <= up.len(),
    ensures
        b.host_tokens(up, k, stop) == a.host_tokens(up, k, stop),
        b.swa_host_tokens(up, k, got) == a.swa_host_tokens(up, k, got),
    decreases up.len() - k,
{
    if k < up.len() {
        let n = a.nodes[up[k] as int];
        assert(b.nodes[up[k] as int].value == n.value);
        let more = match n.value[1] {
            Some(v) => got + v.len(),
            None => match n.host[1] {
                Some(v) => got + v.len(),
                None => got,
            },
        };
        lemma_tokens_same(a, b, up, k + 1, stop, more);
    }
}

proof fn lemma_stamped_runs(st: UState, ids: Seq<NodeId>, k: int, now: int)
    requires
        within(st, ids),
        0 <= k <= ids.len(),
    ensures
        same_runs(st, st.stamped(ids, k, now)),
    decreases k,
{
    if k > 0 {
        lemma_stamped_runs(st, ids, k - 1, now);
        assert(ids[k - 1] < st.nodes.len());
    }
}

/// A match that is repeated finds the same, and cuts nothing more.
pub proof fn law_match_again(st: UState, ns: u32, raw: Seq<i64>)
    requires
        st.wf(),
        st.roomy(1),
    ensures
        ({
            let (t, m) = st.after_match(ns, raw);
            t.after_match(ns, raw).1 == (matching::Matched { actions: Seq::empty(), ..m })
        }),
{
    let flat = st.flat(raw);
    if flat.len() > 0 {
        let w = st.walk(ns, raw);
        let a = st.walked(w);
        let ids = st.passed(w);
        let u = w.used as int / st.shape.unit as int;
        let (t, m) = st.after_match(ns, raw);
        matching::lemma_flat(st, raw);
        lemma_passed_linked(st, ns, raw);
        assert(a.shape.wf() && a.nodes.len() == a.shape.nodes.len()) by {
            topo::lemma_walk(st.shape, ROOT, ns, flat);
            if let Some((c, k)) = w.stop {
                topo::lemma_split_wf(st.shape, c, k as int);
            }
        }
        assert(a.shape.walk(ROOT, ns, flat) == (Walk { chain: ids, stop: None, used: w.used })) by {
            if w.stop is Some {
                walk_laws::lemma_walk_split(st.shape, ROOT, ns, flat);
            }
        }
        assert(within(a, ids)) by {
            assert forall|k: int| 0 <= k < ids.len() implies (#[trigger] ids[k]) < a.nodes.len() by {
                assert(linked(a.shape, ids, k));
            }
        }
        let best = m.best;
        assert(a.shape.has(best)) by {
            let km = if a.hicache {
                a.usable(ids, ids.len() as int, false)
            } else {
                a.usable(ids, ids.len() as int, true)
            };
            if 0 < km <= ids.len() {
                assert(ids[km - 1] < a.nodes.len());
            }
        }
        let up = a.shape.up(best);
        assert(within(a, up)) by {
            topo::lemma_up(a.shape, best);
        }
        lemma_refreshed_runs(a, best);
        assert(same_runs(a, t));
        assert(t.flat(raw) == flat);
        lemma_valid_same(a, t, ids, ids.len() as int, true);
        lemma_valid_same(a, t, ids, ids.len() as int, false);
        let kd = a.usable(ids, ids.len() as int, true);
        assert(0 <= kd <= ids.len()) by {
            lemma_usable_range(a, ids, ids.len() as int, true);
        }
        lemma_valid_same(a, t, ids, kd, true);
        lemma_tokens_same(a, t, up, 0, matching::node_at(ids, kd), 0);
        assert(t.nodes[best as int].value == a.nodes[best as int].value);
        assert(t.match_report(ids, u, Seq::empty()) == (matching::Matched { actions: Seq::empty(), ..m }));
    }
}

pub(crate) proof fn lemma_usable_range(a: UState, ids: Seq<NodeId>, k: int, device_only: bool)
    requires
        0 <= k,
    ensures
        0 <= a.usable(ids, k, device_only) <= k,
    decreases k,
{
    if k > 0 {
        lemma_usable_range(a, ids, k - 1, device_only);
    }
}

/// What a match makes recent keeps its runs.
pub(crate) proof fn lemma_refreshed_runs(a: UState, best: NodeId)
    requires
        a.shape.wf(),
        a.nodes.len() == a.shape.nodes.len(),
        a.shape.has(best),
    ensures
        same_runs(a, a.refreshed(best)),
{
    let b = if a.cfg.swa() {
        a.window_refreshed(best)
    } else {
        a
    };
    let c = if a.cfg.mamba() && b.nodes[best as int].value[2] is Some {
        b.relisted(4, lru::lifted(b.lru[4], seq![best]))
    } else {
        b
    };
    let road = c.shape.up(best).push(ROOT);
    assert(within(c, road)) by {
        topo::lemma_up(a.shape, best);
        assert forall|k: int| 0 <= k < road.len() implies (#[trigger] road[k]) < c.nodes.len() by {
            if k < road.len() - 1 {
                assert(road[k] == a.shape.up(best)[k]);
            }
        }
    }
    lemma_stamped_runs(c, road, road.len() as int, c.clock as int);
}

} // verus!
