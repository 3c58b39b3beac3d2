//! An insert into the unified tree, step by step: whatever the caller stores
//! between two steps, the key is followed to its end, and can be read back.

use crate::chains;
use crate::swa_reads;
use crate::topo;
use crate::topo::{NodeId, Shape, Walk, ROOT};
use crate::unified::insert;
use crate::unified::matching;
use crate::unified::model::{Asked, Inserting, UState};
use crate::unified::Act;
use crate::walk_laws;
use vstd::prelude::*;

verus! {

/// The first `used` elements of `flat` lead from the root along `ids`.
pub open spec fn leads(s: Shape, ns: u32, flat: Seq<i64>, used: int, ids: Seq<NodeId>) -> bool {
    &&& 0 <= used <= flat.len()
    &&& s.aligned(used)
    &&& s.walk(ROOT, ns, flat.take(used)) == (Walk { chain: ids, stop: None, used: used as nat })
}

/// They lead to `node`.
pub open spec fn reaches(s: Shape, ns: u32, flat: Seq<i64>, used: int, node: NodeId) -> bool {
    exists|ids: Seq<NodeId>| #[trigger] leads(s, ns, flat, used, ids) && topo::end_of(ids) == node
}

/// What a query that leads to `node` shows of it.
proof fn lemma_reached(s: Shape, ns: u32, flat: Seq<i64>, used: int, node: NodeId) -> (ids: Seq<NodeId>)
    requires
        s.wf(),
        reaches(s, ns, flat, used, node),
    ensures
        leads(s, ns, flat, used, ids),
        topo::end_of(ids) == node,
        s.has(node),
        s.nodes[node as int].attached,
        node != ROOT ==> s.nodes[node as int].ns == ns,
        node != ROOT ==> ids.len() > 0 && ids[ids.len() - 1] == node,
        forall|c: NodeId| s.is_child(node, c) ==> !#[trigger] ids.contains(c),
        used > 0 ==> node != ROOT,
{
    let ids = choose|ids: Seq<NodeId>| #[trigger] leads(s, ns, flat, used, ids) && topo::end_of(ids) == node;
    let rem = flat.take(used);
    topo::lemma_walk(s, ROOT, ns, rem);
    if ids.len() > 0 {
        let last = ids[ids.len() - 1];
        assert(s.is_child(
            if ids.len() == 1 {
                ROOT
            } else {
                ids[ids.len() - 2]
            },
            last,
        ));
        assert(s.nodes[last as int].ns == ns);
    }
    assert forall|c: NodeId| s.is_child(node, c) implies !#[trigger] ids.contains(c) by {
        if ids.contains(c) {
            let i = ids.index_of(c);
            topo::lemma_path_grows(s, c);
            if i < ids.len() - 1 {
                topo::lemma_chain_grows(s, ROOT, ids, i, ids.len() - 1);
            }
        }
    }
    topo::lemma_chunk(s);
    ids
}

/// The query leads on into a child that holds its next part.
proof fn lemma_on(s: Shape, ns: u32, flat: Seq<i64>, used: int, node: NodeId, c: NodeId)
    requires
        s.wf(),
        reaches(s, ns, flat, used, node),
        s.is_child(node, c),
        s.nodes[c as int].ns == ns,
        used + s.nodes[c as int].key.len() <= flat.len(),
        flat.subrange(used, used + s.nodes[c as int].key.len()) == s.nodes[c as int].key,
    ensures
        reaches(s, ns, flat, used + s.nodes[c as int].key.len(), c),
{
    let ids = lemma_reached(s, ns, flat, used, node);
    let more = s.nodes[c as int].key;
    let next = used + more.len();
    walk_laws::lemma_walk_on(s, ROOT, ns, flat.take(used), more, c);
    assert(flat.take(used) + more =~= flat.take(next));
    assert(s.hangs(c as int));
    topo::lemma_chunk(s);
    if used >= more.len() {
        topo::lemma_aligned(s, used, more.len() as int);
    } else {
        topo::lemma_aligned(s, more.len() as int, used);
    }
    assert(leads(s, ns, flat, next, ids.push(c)));
}

/// A cut of the node that the query leads to leaves the query there.
proof fn lemma_cut_there(s: Shape, ns: u32, flat: Seq<i64>, used: int, node: NodeId, m: int)
    requires
        s.wf(),
        s.nodes.len() < NodeId::MAX,
        reaches(s, ns, flat, used, node),
        node != ROOT,
        s.aligned(m),
        0 < m < s.nodes[node as int].key.len(),
    ensures
        s.split(node, m).wf(),
        reaches(s.split(node, m), ns, flat, used, node),
{
    let ids = lemma_reached(s, ns, flat, used, node);
    let j = ids.len() - 1;
    topo::lemma_split_wf(s, node, m);
    walk_laws::lemma_walk_cut(s, ROOT, ns, flat.take(used), j, m);
    let all = ids.insert(j, s.nodes.len() as NodeId);
    assert(all.last() == node);
    assert(leads(s.split(node, m), ns, flat, used, all));
}

/// A child that holds the next part of the query and more, cut there.
proof fn lemma_cut_on(s: Shape, ns: u32, flat: Seq<i64>, used: int, node: NodeId, c: NodeId, m: int)
    requires
        s.wf(),
        s.nodes.len() < NodeId::MAX,
        reaches(s, ns, flat, used, node),
        s.is_child(node, c),
        s.nodes[c as int].ns == ns,
        s.aligned(m),
        0 < m < s.nodes[c as int].key.len(),
        used + m <= flat.len(),
        flat.subrange(used, used + m) == s.nodes[c as int].key.take(m),
    ensures
        s.split(c, m).wf(),
        reaches(s.split(c, m), ns, flat, used + m, s.nodes.len() as NodeId),
{
    let ids = lemma_reached(s, ns, flat, used, node);
    let t = s.split(c, m);
    let f = s.nodes.len() as NodeId;
    topo::lemma_split_wf(s, c, m);
    topo::lemma_path_grows(s, c);
    walk_laws::lemma_walk_beside(s, c, m, ROOT, ns, flat.take(used));
    assert(leads(t, ns, flat, used, ids));
    assert(t.is_child(node, f));
    lemma_on(t, ns, flat, used, node, f);
}

/// A new leaf with the rest of the query.
proof fn lemma_leaf_on(s: Shape, ns: u32, flat: Seq<i64>, used: int, node: NodeId)
    requires
        s.wf(),
        s.nodes.len() < NodeId::MAX,
        reaches(s, ns, flat, used, node),
        s.aligned(flat.len() as int),
        used < flat.len(),
        s.child_of(node, ns, flat.skip(used).take(s.chunk() as int)) is None,
    ensures
        s.graft(node, ns, flat.skip(used)).wf(),
        reaches(s.graft(node, ns, flat.skip(used)), ns, flat, flat.len() as int, s.nodes.len() as NodeId),
{
    let ids = lemma_reached(s, ns, flat, used, node);
    let t = s.graft(node, ns, flat.skip(used));
    let f = s.nodes.len() as NodeId;
    topo::lemma_chunk(s);
    topo::lemma_aligned(s, flat.len() as int, used);
    topo::lemma_graft_wf(s, node, ns, flat.skip(used));
    walk_laws::lemma_walk_keeps(s, t, ROOT, ns, flat.take(used));
    assert(leads(t, ns, flat, used, ids));
    assert(t.is_child(node, f));
    assert(flat.subrange(used, flat.len() as int) =~= flat.skip(used));
    lemma_on(t, ns, flat, used, node, f);
}

/// What is needed of the tree at any point of an insert.
pub open spec fn framed(st: UState) -> bool {
    &&& st.shape.wf()
    &&& st.shape.page == st.cfg.page_size
    &&& st.nodes.len() == st.shape.nodes.len()
    &&& forall|i: int| 0 <= i < st.nodes.len() ==> (#[trigger] st.nodes[i]).value.len() == 4
}

/// The FULL device run of `id`.
pub open spec fn kv(st: UState, id: NodeId) -> Option<Seq<i64>> {
    st.nodes[id as int].value[0]
}

/// An insert of `flat` is at `s`: what is done of the key leads to where it
/// stands, on FULL runs on the device.
pub open spec fn underway(st: UState, ns: u32, flat: Seq<i64>, s: Inserting) -> bool {
    let unit = st.shape.unit as int;
    let used = flat.len() - s.key.len();
    &&& framed(st)
    &&& st.shape.aligned(flat.len() as int)
    &&& flat.len() > 0
    &&& if s.phase is Tail {
        &&& reaches(st.shape, ns, flat, flat.len() as int, s.target)
        &&& kv(st, s.target) is Some
        &&& st.cfg.mamba() ==> st.nodes[s.target as int].value[2] is Some
        &&& s.result matches Some(r) && r.last_device_node == s.target
    } else {
        &&& s.ns == ns
        &&& used >= 0
        &&& s.key == flat.skip(used)
        &&& reaches(st.shape, ns, flat, used, s.node)
        &&& kv(st, s.node) is Some
        &&& s.done * unit == used
        &&& st.cfg.swa() ==> s.asked.swa_evicted_seqlen as int % (st.shape.page as int) == 0
        &&& st.nodes.len() + 2 * (s.key.len() as int / unit) + 3 <= NodeId::MAX
        &&& s.phase is Commit && s.key.len() > 0 ==> st.shape.child_of(
            s.node,
            ns,
            s.key.take(st.shape.chunk() as int),
        ) is None
    }
}

/// Tokens in whole pages, from elements in whole pages.
proof fn lemma_tokens_whole(s: Shape, done: int)
    requires
        s.page >= 1,
        s.unit == 1 || s.unit == 2,
        0 <= done,
        s.aligned(done * s.unit),
    ensures
        done % (s.page as int) == 0,
{
    let page = s.page as int;
    let unit = s.unit as int;
    let q = (done * unit) / (page * unit);
    vstd::arithmetic::div_mod::lemma_fundamental_div_mod(done * unit, page * unit);
    assert(done == q * page) by (nonlinear_arith)
        requires
            done * unit == (page * unit) * q,
            unit == 1 || unit == 2,
    ;
    vstd::arithmetic::div_mod::lemma_mod_multiples_basic(q, page);
}

/// Where a node can be cut: `k` whole pages of tokens into it.
proof fn lemma_place(s: Shape, node: NodeId, k: int)
    requires
        s.wf(),
        0 < node < s.nodes.len(),
        0 < k < s.units(node as int),
        k % (s.page as int) == 0,
    ensures
        0 < k * s.unit < s.nodes[node as int].key.len(),
        s.aligned(k * s.unit),
        (k * s.unit) / (s.unit as int) == k,
{
    let unit = s.unit as int;
    swa_reads::lemma_units_aligned(s, k);
    chains::lemma_units(s, node as int);
    assert(0 < k * unit < s.units(node as int) * unit) by (nonlinear_arith)
        requires
            0 < k < s.units(node as int),
            unit >= 1,
    ;
}

/// A cut of the node that the insert stands at.
proof fn lemma_state_cut(st: UState, ns: u32, flat: Seq<i64>, used: int, node: NodeId, k: int)
    requires
        framed(st),
        st.nodes.len() < NodeId::MAX,
        reaches(st.shape, ns, flat, used, node),
        node != ROOT,
        kv(st, node) is Some,
        0 < k < st.units(node),
        k % (st.shape.page as int) == 0,
    ensures
        ({
            let t = st.cut(node, k * st.shape.unit);
            &&& framed(t)
            &&& t.cfg == st.cfg
            &&& t.shape == st.shape.split(node, k * st.shape.unit)
            &&& reaches(t.shape, ns, flat, used, node)
            &&& kv(t, node) is Some
            &&& t.nodes.len() == st.nodes.len() + 1
            &&& t.units(node) == st.units(node) - k
            &&& t.hicache == st.hicache
        }),
{
    let s = st.shape;
    let m = k * s.unit;
    let t = st.cut(node, m);
    lemma_reached(s, ns, flat, used, node);
    lemma_place(s, node, k);
    lemma_cut_there(s, ns, flat, used, node, m);
    topo::lemma_path_grows(s, node);
    assert(t.nodes[node as int] == st.tail_of(node, m));
    assert forall|i: int| 0 <= i < t.nodes.len() implies (#[trigger] t.nodes[i]).value.len() == 4 by {
        if i < st.nodes.len() {
            assert(st.nodes[i].value.len() == 4);
        }
    }
    chains::lemma_units(s, node as int);
    chains::lemma_units(t.shape, node as int);
    assert(t.shape.nodes[node as int].key.len() == s.nodes[node as int].key.len() - m);
    let u = s.units(node as int);
    let v = t.shape.units(node as int);
    let unit = s.unit as int;
    assert(v == u - k) by (nonlinear_arith)
        requires
            v * unit == u * unit - k * unit,
            unit >= 1,
    ;
}
/// Two states of one tree whose nodes have the same FULL runs but for `x`,
/// which has one.
spec fn refilled(a: UState, b: UState, x: NodeId) -> bool {
    &&& b.shape == a.shape
    &&& b.cfg == a.cfg
    &&& b.hicache == a.hicache
    &&& b.nodes.len() == a.nodes.len()
    &&& kv(b, x) is Some
    &&& forall|i: int| 0 <= i < a.nodes.len() ==> (#[trigger] b.nodes[i]).value.len() == a.nodes[i].value.len()
}

proof fn lemma_replaced(st: UState, node: NodeId, fresh: Seq<i64>)
    requires
        framed(st),
        node < st.nodes.len(),
        kv(st, node) is Some,
    ensures
        refilled(st, st.window_replaced(node, fresh).0, node),
        framed(st.window_replaced(node, fresh).0),
{
    let t = st.window_replaced(node, fresh).0;
    assert(st.nodes[node as int].value.len() == 4);
    assert forall|i: int| 0 <= i < t.nodes.len() implies (#[trigger] t.nodes[i]).value.len() == 4 by {
        assert(st.nodes[i].value.len() == 4);
    }
}

/// What the key comes past keeps it on its way.
proof fn lemma_node_passed(
    st: UState,
    ns: u32,
    flat: Seq<i64>,
    used: int,
    node: NodeId,
    done: int,
    slice: Seq<i64>,
    asked: Asked,
)
    requires
        framed(st),
        st.nodes.len() < NodeId::MAX,
        reaches(st.shape, ns, flat, used, node),
        node != ROOT,
        done % (st.shape.page as int) == 0,
        st.cfg.swa() ==> asked.swa_evicted_seqlen as int % (st.shape.page as int) == 0,
    ensures
        ({
            let t = st.node_passed(node, done, slice, asked).0;
            &&& framed(t)
            &&& t.cfg == st.cfg
            &&& t.shape.page == st.shape.page
            &&& t.shape.unit == st.shape.unit
            &&& reaches(t.shape, ns, flat, used, node)
            &&& kv(t, node) is Some
            &&& t.nodes.len() <= st.nodes.len() + 1
        }),
{
    let k = asked.swa_evicted_seqlen - done;
    let page = st.shape.page as int;
    lemma_reached(st.shape, ns, flat, used, node);
    assert(st.nodes[node as int].value.len() == 4);
    if st.cfg.swa() {
        vstd::arithmetic::div_mod::lemma_sub_mod_noop(asked.swa_evicted_seqlen as int, done, page);
        vstd::arithmetic::div_mod::lemma_small_mod(0, page as nat);
        assert(k % page == 0);
    }
    if st.evicted(node) {
        let u = st.unevicted(node, slice);
        assert(framed(u)) by {
            assert forall|i: int| 0 <= i < u.nodes.len() implies (#[trigger] u.nodes[i]).value.len() == 4 by {
                assert(st.nodes[i].value.len() == 4);
            }
        }
        if st.cfg.swa() && 0 < k < u.units(node) {
            lemma_state_cut(u, ns, flat, used, node, k);
        }
    } else {
        let n = st.units(node);
        if !(!st.cfg.swa() || asked.prev_prefix_len >= done + n || st.nodes[node as int].value[1] is Some) {
            if k <= 0 {
                lemma_replaced(st, node, slice);
            } else if k < n {
                lemma_state_cut(st, ns, flat, used, node, k);
                lemma_replaced(st.cut(node, k * st.shape.unit), node, slice.skip(k));
            }
        }
    }
}

/// A child entered: the part of it that the key matches is where the key
/// leads on.
proof fn lemma_entered(st: UState, ns: u32, flat: Seq<i64>, used: int, node: NodeId, c: NodeId, priority: i64)
    requires
        framed(st),
        st.nodes.len() < NodeId::MAX,
        reaches(st.shape, ns, flat, used, node),
        st.shape.aligned(flat.len() as int),
        flat.len() - used >= st.shape.chunk(),
        st.shape.named(node, ns, flat.skip(used).take(st.shape.chunk() as int), c),
    ensures
        ({
            let m = st.shape.shared(flat.skip(used), c) as int;
            let (t, x, acts) = st.entered(c, m, priority);
            &&& st.shape.chunk() <= m <= flat.len() - used
            &&& st.shape.aligned(m)
            &&& framed(t)
            &&& t.cfg == st.cfg
            &&& t.shape.page == st.shape.page
            &&& t.shape.unit == st.shape.unit
            &&& reaches(t.shape, ns, flat, used + m, x)
            &&& x != ROOT
            &&& t.nodes.len() <= st.nodes.len() + 1
        }),
{
    let s = st.shape;
    let rem = flat.skip(used);
    let k = s.chunk() as int;
    lemma_reached(s, ns, flat, used, node);
    topo::lemma_chunk(s);
    topo::lemma_shared(s, rem, c);
    let m = s.shared(rem, c) as int;
    let key = s.nodes[c as int].key;
    let (t, x, acts) = st.entered(c, m, priority);
    assert(flat.subrange(used, used + m) =~= rem.take(m));
    assert(st.nodes[c as int].value.len() == 4);
    if m < key.len() {
        lemma_cut_on(s, ns, flat, used, node, c, m);
        topo::lemma_path_grows(s, c);
        assert(s.nodes.len() >= 1);
    } else {
        assert(key.take(m) =~= key);
        lemma_on(s, ns, flat, used, node, c);
    }
    assert forall|i: int| 0 <= i < t.nodes.len() implies (#[trigger] t.nodes[i]).value.len() == 4 by {
        if i < st.nodes.len() {
            assert(st.nodes[i].value.len() == 4);
        }
    }
}

/// Tokens done and tokens left after `m` elements more.
proof fn lemma_numbers(s: Shape, done: int, used: int, len: int, m: int)
    requires
        s.wf(),
        s.aligned(len),
        s.aligned(m),
        0 < m <= len,
        0 <= used,
        done * s.unit == used,
    ensures
        ({
            let unit = s.unit as int;
            let n = m / unit;
            &&& (done + n) * unit == used + m
            &&& n >= 1
            &&& len / unit == n + (len - m) / unit
            &&& done >= 0
            &&& s.aligned(len - m)
        }),
{
    let unit = s.unit as int;
    topo::lemma_chunk(s);
    vstd::arithmetic::div_mod::lemma_small_mod(0, s.chunk());
    topo::lemma_aligned(s, m, 0);
    topo::lemma_aligned(s, len, m);
    topo::lemma_aligned(s, len - m, 0);
    let n = m / unit;
    let a = len / unit;
    let b = (len - m) / unit;
    vstd::arithmetic::div_mod::lemma_fundamental_div_mod(m, unit);
    vstd::arithmetic::div_mod::lemma_fundamental_div_mod(len, unit);
    vstd::arithmetic::div_mod::lemma_fundamental_div_mod(len - m, unit);
    assert((done + n) * unit == used + m && n >= 1 && a == n + b && done >= 0) by (nonlinear_arith)
        requires
            unit == 1 || unit == 2,
            done * unit == used,
            used >= 0,
            m >= unit,
            unit * n == m,
            unit * a == len,
            unit * b == len - m,
    ;
}

/// One node further down.
proof fn lemma_down(st: UState, ns: u32, flat: Seq<i64>, s: Inserting, c: NodeId)
    requires
        underway(st, ns, flat, s),
        s.phase is Walk,
        s.key.len() >= st.shape.chunk(),
        st.shape.named(s.node, ns, s.key.take(st.shape.chunk() as int), c),
    ensures
        ({
            let used = flat.len() - s.key.len();
            let m = st.shape.shared(s.key, c) as int;
            let n = m / st.shape.unit as int;
            let (a, x, cuts) = st.entered(c, m, s.asked.priority);
            let (b, acts) = a.node_passed(x, s.done, s.value.take(n), s.asked);
            let (d, back) = b.hit_counted(x, s.asked.chunked);
            &&& 0 < m <= s.key.len()
            &&& st.shape.aligned(m)
            &&& framed(d)
            &&& d.cfg == st.cfg
            &&& d.shape.page == st.shape.page
            &&& d.shape.unit == st.shape.unit
            &&& reaches(d.shape, ns, flat, used + m, x)
            &&& kv(d, x) is Some
            &&& d.nodes.len() <= st.nodes.len() + 2
        }),
{
    let sh = st.shape;
    let used = flat.len() - s.key.len();
    topo::lemma_chunk(sh);
    lemma_entered(st, ns, flat, used, s.node, c, s.asked.priority);
    let m = sh.shared(s.key, c) as int;
    let n = m / sh.unit as int;
    let (a, x, cuts) = st.entered(c, m, s.asked.priority);
    topo::lemma_aligned(sh, flat.len() as int, used);
    lemma_numbers(sh, s.done, used, s.key.len() as int, m);
    lemma_tokens_whole(sh, s.done);
    lemma_node_passed(a, ns, flat, used + m, x, s.done, s.value.take(n), s.asked);
    let (b, acts) = a.node_passed(x, s.done, s.value.take(n), s.asked);
    let (d, back) = b.hit_counted(x, s.asked.chunked);
    lemma_reached(b.shape, ns, flat, used + m, x);
    assert forall|i: int| 0 <= i < d.nodes.len() implies (#[trigger] d.nodes[i]).value.len() == 4 by {
        assert(b.nodes[i].value.len() == 4);
    }
}

/// A step of the walk of an insert.
proof fn lemma_walk_step(st: UState, ns: u32, flat: Seq<i64>, s: Inserting)
    requires
        underway(st, ns, flat, s),
        s.phase is Walk,
    ensures
        underway(st.walk_stepped(s).0, ns, flat, st.walk_stepped(s).1),
        st.walk_stepped(s).0.cfg == st.cfg,
        st.walk_stepped(s).0.shape.page == st.shape.page,
        st.walk_stepped(s).0.shape.unit == st.shape.unit,
{
    let sh = st.shape;
    let used = flat.len() - s.key.len();
    let k = sh.chunk() as int;
    topo::lemma_chunk(sh);
    topo::lemma_aligned(sh, flat.len() as int, used);
    if s.key.len() > 0 {
        assert(s.key.len() >= k);
        let head = s.key.take(k);
        if let Some(c) = sh.child_of(s.node, ns, head) {
            assert(sh.named(s.node, ns, head, c));
            lemma_down(st, ns, flat, s, c);
            let m = sh.shared(s.key, c) as int;
            lemma_numbers(sh, s.done, used, s.key.len() as int, m);
            assert(s.key.skip(m) =~= flat.skip(used + m));
        }
    }
}

/// The window slots of a new leaf asked for: the key still leads to the end
/// of it.
proof fn lemma_leaf_windowed(st: UState, ns: u32, flat: Seq<i64>, leaf: NodeId, done: int, asked: Asked)
    requires
        framed(st),
        st.cfg.swa(),
        st.nodes.len() + 2 <= NodeId::MAX,
        reaches(st.shape, ns, flat, flat.len() as int, leaf),
        leaf != ROOT,
        kv(st, leaf) is Some,
        done % (st.shape.page as int) == 0,
        asked.swa_evicted_seqlen as int % (st.shape.page as int) == 0,
    ensures
        ({
            let t = st.leaf_windowed(leaf, done, asked).0;
            &&& framed(t)
            &&& t.cfg == st.cfg
            &&& t.shape.page == st.shape.page
            &&& t.shape.unit == st.shape.unit
            &&& reaches(t.shape, ns, flat, flat.len() as int, leaf)
            &&& kv(t, leaf) is Some
        }),
{
    let s = st.shape;
    let page = s.page as int;
    let len = flat.len() as int;
    let k = asked.swa_evicted_seqlen - done;
    lemma_reached(s, ns, flat, len, leaf);
    chains::lemma_units(s, leaf as int);
    assert(s.hangs(leaf as int));
    lemma_tokens_whole(s, s.units(leaf as int));
    vstd::arithmetic::div_mod::lemma_sub_mod_noop(asked.swa_evicted_seqlen as int, done, page);
    vstd::arithmetic::div_mod::lemma_small_mod(0, page as nat);
    assert(k % page == 0);
    if k < st.units(leaf) {
        let a = if k > 0 {
            st.cut(leaf, k * s.unit)
        } else {
            st
        };
        if k > 0 {
            lemma_state_cut(st, ns, flat, len, leaf, k);
            vstd::arithmetic::div_mod::lemma_sub_mod_noop(st.units(leaf), k, page);
        }
        let tail = st.cfg.tail_size();
        let extra = a.units(leaf) - tail;
        let q = (st.cfg.sliding_window_size + st.cfg.page_size - 1) / (st.cfg.page_size as int);
        vstd::arithmetic::div_mod::lemma_mod_multiples_basic(q, page);
        vstd::arithmetic::div_mod::lemma_fundamental_div_mod(
            st.cfg.sliding_window_size + st.cfg.page_size - 1,
            page,
        );
        assert(tail > 0) by (nonlinear_arith)
            requires
                tail == q * page,
                page >= 1,
                st.cfg.sliding_window_size + st.cfg.page_size - 1 == page * q + (st.cfg.sliding_window_size
                    + st.cfg.page_size - 1) % page,
                0 <= (st.cfg.sliding_window_size + st.cfg.page_size - 1) % page < page,
                st.cfg.sliding_window_size >= 1,
                st.cfg.page_size == page,
        ;
        vstd::arithmetic::div_mod::lemma_sub_mod_noop(a.units(leaf), tail, page);
        assert(extra % page == 0);
        if extra > 0 {
            lemma_state_cut(a, ns, flat, len, leaf, extra);
        }
    }
}

/// The step that adds the rest of the key.
proof fn lemma_commit_step(st: UState, ns: u32, flat: Seq<i64>, s: Inserting)
    requires
        underway(st, ns, flat, s),
        s.phase is Commit,
        st.cfg.mamba() ==> s.asked.mamba_value is Some,
    ensures
        underway(st.commit_stepped(s).0, ns, flat, st.commit_stepped(s).1),
        st.commit_stepped(s).0.cfg == st.cfg,
        st.commit_stepped(s).0.shape.page == st.shape.page,
        st.commit_stepped(s).0.shape.unit == st.shape.unit,
{
    let sh = st.shape;
    let used = flat.len() - s.key.len();
    let fresh = s.key.len() > 0;
    let target = if fresh {
        st.nodes.len() as NodeId
    } else {
        s.node
    };
    let a = if fresh {
        st.leafed(s.node, s.ns, s.key, s.value, s.asked.priority)
    } else {
        st
    };
    topo::lemma_chunk(sh);
    lemma_reached(sh, ns, flat, used, s.node);
    if fresh {
        lemma_leaf_on(sh, ns, flat, used, s.node);
        assert(a.nodes[target as int].value.len() == 4);
        assert forall|i: int| 0 <= i < a.nodes.len() implies (#[trigger] a.nodes[i]).value.len() == 4 by {
            if i < st.nodes.len() {
                assert(st.nodes[i].value.len() == 4);
            }
        }
    }
    assert(framed(a) && reaches(a.shape, ns, flat, flat.len() as int, target) && kv(a, target) is Some);
    assert(target != ROOT);
    let b = if st.cfg.swa() && fresh {
        a.leaf_windowed(target, s.done, s.asked).0
    } else {
        a
    };
    if st.cfg.swa() && fresh {
        assert(s.done >= 0) by (nonlinear_arith)
            requires
                s.done * sh.unit == used,
                used >= 0,
                sh.unit >= 1,
        ;
        lemma_tokens_whole(sh, s.done);
        assert(s.key.len() as int / sh.unit as int >= 0);
        lemma_leaf_windowed(a, ns, flat, target, s.done, s.asked);
    }
    lemma_reached(b.shape, ns, flat, flat.len() as int, target);
    let d = st.commit_stepped(s).0;
    assert(b.nodes[target as int].value.len() == 4);
    assert forall|i: int| 0 <= i < d.nodes.len() implies (#[trigger] d.nodes[i]).value.len() == 4 by {
        assert(b.nodes[i].value.len() == 4);
    }
}

/// The key is in the tree: it leads to `node`, which has its FULL run on the
/// device, and its state if the tree has states.
pub open spec fn finished(t: UState, ns: u32, flat: Seq<i64>, node: NodeId) -> bool {
    &&& framed(t)
    &&& reaches(t.shape, ns, flat, flat.len() as int, node)
    &&& kv(t, node) is Some
    &&& t.cfg.mamba() ==> t.nodes[node as int].value[2] is Some
}

/// An insert under way that is taken up again either ends, with the whole
/// key in the tree, or is under way still.
#[verifier::spinoff_prover]
#[verifier::rlimit(60)]
pub proof fn law_insert_goes_on(st: UState, ns: u32, flat: Seq<i64>, s: Inserting)
    requires
        underway(st, ns, flat, s),
        st.cfg.mamba() ==> s.asked.mamba_value is Some,
    ensures
        ({
            let (t, acts, r) = st.advanced(s);
            &&& t.cfg == st.cfg
            &&& match r {
                Some(r) => finished(t, ns, flat, r.last_device_node),
                None => t.ongoing matches Some(s1) && underway(t, ns, flat, s1) && s1.asked == s.asked,
            }
        }),
    decreases s.left(),
{
    if s.phase is Tail {
        let (t, acts) = st.tail_stepped(s);
        lemma_reached(st.shape, ns, flat, flat.len() as int, s.target);
        assert forall|i: int| 0 <= i < t.nodes.len() implies (#[trigger] t.nodes[i]).value.len() == 4 by {
            assert(st.nodes[i].value.len() == 4);
        }
    } else {
        reveal(UState::stepped);
        insert::lemma_stepped(st, s);
        if s.phase is Walk {
            lemma_walk_step(st, ns, flat, s);
        } else {
            lemma_commit_step(st, ns, flat, s);
        }
        let (a, s1, acts) = st.stepped(s);
        if insert::urgent(acts) {
            let s2 = Inserting { pending: Seq::empty(), ..s1 };
            let t = UState { ongoing: Some(s2), ..a };
            assert(underway(t, ns, flat, s2));
        } else {
            law_insert_goes_on(a, ns, flat, s1);
        }
    }
}

/// An insert that has begun is under way, or has ended with the whole key in
/// the tree.
pub proof fn law_insert_begins(st: UState, ns: u32, raw: Seq<i64>, value: Option<Seq<i64>>, asked: Asked)
    requires
        st.wf(),
        st.flat(raw).len() > 0,
        st.cfg.swa() ==> asked.swa_evicted_seqlen as int % (st.cfg.page_size as int) == 0,
        st.cfg.mamba() ==> asked.mamba_value is Some,
        st.insertable(st.flat(raw).len() as int / st.shape.unit as int, asked),
    ensures
        ({
            let flat = st.flat(raw);
            let (t, acts, r) = st.after_begin(ns, raw, value, asked);
            &&& t.cfg == st.cfg
            &&& match r {
                Some(r) => finished(t, ns, flat, r.last_device_node),
                None => t.ongoing matches Some(s1) && underway(t, ns, flat, s1) && s1.asked == asked,
            }
        }),
{
    let flat = st.flat(raw);
    let t = st.welcomed(asked.priority);
    let s = t.insert_of(ns, raw, value, asked);
    matching::lemma_flat(st, raw);
    topo::lemma_chunk(st.shape);
    vstd::arithmetic::div_mod::lemma_small_mod(0, st.shape.chunk());
    assert(t.shape.walk(ROOT, ns, flat.take(0)) == (Walk { chain: Seq::empty(), stop: None, used: 0 }));
    assert(leads(t.shape, ns, flat, 0, Seq::empty()));
    assert(reaches(t.shape, ns, flat, 0, ROOT));
    assert(flat.skip(0) =~= flat);
    assert forall|i: int| 0 <= i < t.nodes.len() implies (#[trigger] t.nodes[i]).value.len() == 4 by {
        if i > 0 {
            assert(st.node_ok(i));
        }
    }
    assert(underway(t, ns, flat, s));
    law_insert_goes_on(t, ns, flat, s);
}

/// The window slots that the caller stores in between keep it under way.
pub proof fn law_stored_slots_keep_it_underway(
    st: UState,
    ns: u32,
    flat: Seq<i64>,
    s: Inserting,
    node: NodeId,
    slots: Seq<i64>,
)
    requires
        underway(st, ns, flat, s),
        node < st.nodes.len(),
    ensures
        underway(st.stored(node, 1, slots), ns, flat, s),
{
    let t = st.stored(node, 1, slots);
    assert(st.nodes[node as int].value.len() == 4);
    assert forall|i: int| 0 <= i < t.nodes.len() implies (#[trigger] t.nodes[i]).value.len() == 4 by {
        assert(st.nodes[i].value.len() == 4);
    }
    let x = if s.phase is Tail {
        s.target
    } else {
        s.node
    };
    if s.phase is Tail {
        lemma_reached(st.shape, ns, flat, flat.len() as int, x);
    } else {
        lemma_reached(st.shape, ns, flat, flat.len() - s.key.len(), x);
    }
}

/// `ids[j]` has its FULL run on the device.
spec fn on_device(t: UState, ids: Seq<NodeId>, j: int) -> bool {
    &&& 0 < ids[j] < t.nodes.len()
    &&& kv(t, ids[j]) matches Some(v) && v.len() == t.units(ids[j])
}

/// `ids[i]` is a child of the one before it, the first of the root.
spec fn follows(s: Shape, ids: Seq<NodeId>, i: int) -> bool {
    s.is_child(
        if i == 0 {
            ROOT
        } else {
            ids[i - 1]
        },
        ids[i],
    )
}

proof fn lemma_on_device(t: UState, ids: Seq<NodeId>, j: int)
    requires
        t.wf(),
        0 <= j < ids.len(),
        kv(t, ids[ids.len() - 1]) is Some,
        forall|i: int| 0 <= i < ids.len() ==> #[trigger] follows(t.shape, ids, i),
    ensures
        on_device(t, ids, j),
    decreases ids.len() - j,
{
    let x = ids[j];
    assert(follows(t.shape, ids, j));
    assert(t.node_ok(x as int));
    if j < ids.len() - 1 {
        lemma_on_device(t, ids, j + 1);
        assert(follows(t.shape, ids, j + 1));
        assert(t.node_ok(ids[j + 1] as int));
    }
}

proof fn lemma_device_len(t: UState, ids: Seq<NodeId>, k: int)
    requires
        0 <= k <= ids.len(),
        forall|j: int| 0 <= j < ids.len() ==> #[trigger] on_device(t, ids, j),
    ensures
        t.device_run(ids, k).len() == chains::tokens(t.shape, ids, k),
    decreases k,
{
    if k > 0 {
        lemma_device_len(t, ids, k - 1);
        assert(on_device(t, ids, k - 1));
    }
}

/// Slots on either side make no shorter run than those on the device.
proof fn lemma_longer_run(t: UState, ids: Seq<NodeId>, k: int)
    requires
        0 <= k <= ids.len(),
        forall|j: int| 0 <= j < ids.len() ==> #[trigger] on_device(t, ids, j),
    ensures
        match t.swa_run(ids, k, true) {
            None => t.swa_run(ids, k, false) is None,
            Some(a) => a >= 0 && (t.swa_run(ids, k, false) matches Some(b) ==> b >= a),
        },
    decreases k,
{
    if k > 0 {
        lemma_longer_run(t, ids, k - 1);
        assert(on_device(t, ids, k - 1));
    }
}

/// A key that is in the tree is found whole: a match hands out the runs on
/// its way, one index for each token, and ends at its last node, provided
/// that the window before the end of the key has its slots on the device.
pub proof fn law_finished_is_found(t: UState, ns: u32, raw: Seq<i64>, node: NodeId)
    requires
        t.wf(),
        t.flat(raw).len() > 0,
        finished(t, ns, t.flat(raw), node),
    ensures
        ({
            let u = t.flat(raw).len() as int / t.shape.unit as int;
            let ids = t.walk(ns, raw).chain;
            let n = ids.len() as int;
            let m = t.after_match(ns, raw).1;
            &&& m.full_hit == u
            &&& m.actions == Seq::<Act>::empty()
            &&& n > 0 && ids[n - 1] == node
            &&& (t.cfg.swa() ==> t.nodes[node as int].value[1] is Some && t.swa_valid(ids, n - 1, true)) ==> {
                &&& m.device == t.device_run(ids, n)
                &&& m.device.len() == u
                &&& m.device_node == node
                &&& m.host_node == node
                &&& m.best == node
                &&& m.host_hit == 0
            }
        }),
{
    let sh = t.shape;
    let flat = t.flat(raw);
    let u = flat.len() as int / sh.unit as int;
    let ids = lemma_reached(sh, ns, flat, flat.len() as int, node);
    assert(flat.take(flat.len() as int) =~= flat);
    let n = ids.len() as int;
    assert(t.walk(ns, raw) == (Walk { chain: ids, stop: None, used: flat.len() }));
    assert(forall|i: int| 0 <= i < n ==> #[trigger] follows(sh, ids, i)) by {
        topo::lemma_walk_chain(sh, ROOT, ns, flat);
    }
    assert forall|j: int| 0 <= j < n implies #[trigger] on_device(t, ids, j) by {
        lemma_on_device(t, ids, j);
    }
    lemma_device_len(t, ids, n);
    chains::lemma_walk_tokens(sh, ROOT, ns, flat);
    if t.cfg.swa() ==> t.nodes[node as int].value[1] is Some && t.swa_valid(ids, n - 1, true) {
        assert(on_device(t, ids, n - 1));
        assert(t.valid_at(ids, n - 1, true));
        if t.cfg.swa() {
            lemma_longer_run(t, ids, n);
        }
        assert(t.valid_at(ids, n - 1, false));
        let up = sh.up(node);
        assert(up.len() > 0 && up[0] == node) by {
            topo::lemma_up(sh, node);
        }
        assert(t.host_tokens(up, 0, node) == 0);
    }
}

} // verus!
