//! What the steps of the unified tree keep.

use crate::chains;
use crate::lru;
use crate::seqs;
use crate::topo;
use crate::topo::{NodeId, Shape, ROOT};
use crate::tree_model;
use crate::unified::model;
use crate::unified::model::{UNodeState, UState};
use crate::unified::UConfig;
use vstd::prelude::*;

verus! {

/// Device tokens are sums of what nodes hold, none of which is negative.
pub proof fn law_sizes_add_up(st: UState, ct: int)
    requires
        st.built(),
        0 <= ct < 3,
    ensures
        0 <= st.count(ct, false) <= st.size(ct),
        0 <= st.count(ct, true) <= st.size(ct),
        st.size(ct) <= i64::MAX,
        forall|i: int, b: bool|
            0 <= i < st.nodes.len() ==> 0 <= #[trigger] st.weight(ct, b, i) <= st.count(ct, b),
{
    let n = st.nodes.len();
    assert forall|i: int, b: bool|
        0 <= i < n implies 0 <= #[trigger] st.weight(ct, b, i) <= st.count(ct, b) by {
        let f = |i: int| st.weight(ct, b, i);
        seqs::lemma_total_bounds(f, n);
        assert(f(i) <= seqs::total(f, n));
    }
    seqs::lemma_total_bounds(|i: int| st.weight(ct, false, i), n);
    seqs::lemma_total_bounds(|i: int| st.weight(ct, true, i), n);
}

/// `t` is `st` with new contents of node `id`, and maybe other lists and
/// registers.
pub open spec fn altered(st: UState, t: UState, id: NodeId) -> bool {
    &&& t.cfg == st.cfg
    &&& t.shape == st.shape
    &&& t.nodes.len() == st.nodes.len()
    &&& t.dups == st.dups
    &&& model::TICK <= t.clock <= model::CLOCK_CAP + model::TICK
    &&& forall|i: int| 0 <= i < st.nodes.len() && i != id ==> #[trigger] t.nodes[i] == st.nodes[i]
}

/// New contents of one node change the counts by what it counts for.
pub proof fn lemma_counts(st: UState, t: UState, id: NodeId, ct: int)
    requires
        0 < id < st.nodes.len(),
        altered(st, t, id),
    ensures
        forall|b: bool|
            #[trigger] t.count(ct, b) == st.count(ct, b) - st.weight(ct, b, id as int) + t.weight(ct, b, id as int),
{
    assert forall|b: bool|
        #[trigger] t.count(ct, b) == st.count(ct, b) - st.weight(ct, b, id as int) + t.weight(ct, b, id as int) by {
        seqs::lemma_total_update(
            |i: int| st.weight(ct, b, i),
            |i: int| t.weight(ct, b, i),
            st.nodes.len(),
            id as int,
        );
    }
}

/// New contents of one node that fit it.
pub proof fn lemma_patch(st: UState, t: UState, id: NodeId)
    requires
        st.built(),
        st.inner(id),
        altered(st, t, id),
        t.node_ok(id as int),
        t.nodes[id as int].value[0] is None ==> st.no_device_kid(id) || st.nodes[id as int].value[0] is None,
        t.nodes[id as int].kids == st.nodes[id as int].kids,
        t.size(0) <= i64::MAX,
        t.size(1) <= i64::MAX,
        t.size(2) <= i64::MAX,
    ensures
        t.built(),
        forall|x: NodeId|
            x != id && x != st.shape.nodes[id as int].parent ==> #[trigger] t.device_leaf(x) == st.device_leaf(x),
        forall|x: NodeId| x != id ==> #[trigger] t.host_leaf(x) == st.host_leaf(x),
{
    assert forall|i: int| 0 < i < t.nodes.len() implies #[trigger] t.node_ok(i) by {
        if i != id {
            assert(st.node_ok(i));
            assert(st.shape.hangs(i));
            if st.shape.nodes[i].parent == id && st.nodes[i].value[0] is Some {
                assert(st.shape.is_child(id, i as NodeId));
            }
        }
    }
    assert(st.root_ok());
    assert(t.root_ok());
    assert forall|i: int| 0 <= i < t.nodes.len() implies #[trigger] t.kids_ok(i) by {
        assert(st.kids_ok(i));
    }
    assert forall|x: NodeId| #[trigger] t.dups.contains(x) implies t.inner(x) by {
        assert(st.dups.contains(x));
        assert(st.inner(x));
    }
    assert forall|x: NodeId| x != id && x != st.shape.nodes[id as int].parent implies #[trigger] t.device_leaf(x)
        == st.device_leaf(x) by {
        assert forall|c: NodeId| #[trigger] st.shape.is_child(x, c) implies c != id by {}
        if st.no_device_kid(x) {
            assert forall|c: NodeId| #[trigger] t.shape.is_child(x, c) implies t.nodes[c as int].value[0] is None by {
                assert(st.shape.is_child(x, c));
            }
        }
        if t.no_device_kid(x) {
            assert forall|c: NodeId| #[trigger] st.shape.is_child(x, c) implies st.nodes[c as int].value[0] is None by {
                assert(t.shape.is_child(x, c));
            }
        }
    }
}

/// New contents of a node that count for the same and lock the same.
pub proof fn lemma_quiet(st: UState, id: NodeId, n: UNodeState)
    requires
        st.built(),
        st.live(id),
        n.value == st.nodes[id as int].value,
        n.host == st.nodes[id as int].host,
        n.lock == st.nodes[id as int].lock,
        n.host_lock == st.nodes[id as int].host_lock,
        n.kids == st.nodes[id as int].kids,
        id == ROOT ==> n.hashes is Some,
        id != ROOT ==> model::hashes_fit(n.hashes, st.units(id), st.shape.page as int),
        id != ROOT ==> model::hashes_fit(n.event_hashes, st.units(id), st.shape.page as int),
    ensures
        st.patched(id, n).built(),
        st.listed() ==> st.patched(id, n).listed(),
        forall|x: NodeId| #[trigger] st.patched(id, n).device_leaf(x) == st.device_leaf(x),
        forall|x: NodeId| #[trigger] st.patched(id, n).host_leaf(x) == st.host_leaf(x),
        forall|ct: int, b: bool| #[trigger] st.patched(id, n).count(ct, b) == st.count(ct, b),
{
    let t = st.patched(id, n);
    assert forall|ct: int, b: bool| #[trigger] t.count(ct, b) == st.count(ct, b) by {
        seqs::lemma_total_same(|i: int| st.weight(ct, b, i), |i: int| t.weight(ct, b, i), st.nodes.len());
    }
    assert forall|i: int| 0 < i < t.nodes.len() implies #[trigger] t.node_ok(i) by {
        assert(st.node_ok(i));
        assert(st.shape.hangs(i));
    }
    assert forall|i: int| 0 <= i < t.nodes.len() implies #[trigger] t.kids_ok(i) by {
        assert(st.kids_ok(i));
    }
    assert forall|x: NodeId| #[trigger] t.dups.contains(x) implies t.inner(x) by {
        assert(st.inner(x));
    }
    assert forall|x: NodeId| #[trigger] t.device_leaf(x) == st.device_leaf(x) by {
        if st.no_device_kid(x) {
            assert forall|c: NodeId| #[trigger] t.shape.is_child(x, c) implies t.nodes[c as int].value[0] is None by {
                assert(st.shape.is_child(x, c));
            }
        }
        if t.no_device_kid(x) {
            assert forall|c: NodeId| #[trigger] st.shape.is_child(x, c) implies st.nodes[c as int].value[0] is None by {
                assert(t.shape.is_child(x, c));
            }
        }
    }
    if st.listed() {
        assert forall|x: NodeId| #[trigger] t.lists_ok(1, x) by {
            assert(st.lists_ok(1, x));
        }
        assert forall|x: NodeId| #[trigger] t.lists_ok(2, x) by {
            assert(st.lists_ok(2, x));
        }
    }
}

/// Pages of a cut: a whole number of them on both sides.
pub proof fn lemma_pages(s: Shape, m: int)
    requires
        s.wf(),
        0 <= m,
        s.aligned(m),
    ensures
        ({
            let u = m / s.unit as int;
            &&& u * s.unit == m
            &&& u % s.page as int == 0
            &&& (u / s.page as int) * s.page == u
            &&& 0 <= u
        }),
{
    topo::lemma_chunk(s);
    let unit = s.unit as int;
    let page = s.page as int;
    let chunk = s.chunk() as int;
    let q = m / chunk;
    vstd::arithmetic::div_mod::lemma_fundamental_div_mod(m, chunk);
    assert(m == chunk * q);
    assert(chunk * q == (q * page) * unit) by (nonlinear_arith)
        requires
            chunk == page * unit,
    ;
    let u = q * page;
    assert(m / unit == u) by {
        vstd::arithmetic::div_mod::lemma_div_multiples_vanish(u, unit);
        assert(unit * u == u * unit) by (nonlinear_arith);
    }
    vstd::arithmetic::div_mod::lemma_mod_multiples_basic(q, page);
    vstd::arithmetic::div_mod::lemma_fundamental_div_mod(u, page);
    assert(page * (u / page) == (u / page) * page) by (nonlinear_arith);
    assert(u >= 0) by (nonlinear_arith)
        requires
            u * unit == m,
            m >= 0,
            unit == 1 || unit == 2,
    ;
}

/// A hash list that covers a key covers both parts of it.
pub proof fn lemma_hash_cut(h: Option<Seq<Seq<char>>>, units: int, u: int, page: int)
    requires
        model::hashes_fit(h, units, page),
        0 <= u <= units,
        page >= 1,
        (u / page) * page == u,
    ensures
        h is Some ==> 0 <= u / page <= h->0.len(),
        model::hashes_fit(model::hash_take(h, u / page), u, page),
        model::hashes_fit(model::hash_skip(h, u / page), units - u, page),
{
    if let Some(v) = h {
        let k = u / page;
        let n = v.len() as int;
        assert(0 <= k <= n) by (nonlinear_arith)
            requires
                k * page == u,
                0 <= u <= n * page,
                page >= 1,
        ;
        assert((n - k) * page == n * page - k * page) by (nonlinear_arith);
    }
}

/// One member in the place of another.
pub proof fn lemma_replaced(kids: Seq<NodeId>, a: NodeId, b: NodeId)
    requires
        kids.no_duplicates(),
        kids.contains(a),
        !kids.contains(b),
    ensures
        model::replaced(kids, a, b).no_duplicates(),
        forall|x: NodeId|
            #[trigger] model::replaced(kids, a, b).contains(x) == (x == b || (x != a && kids.contains(x))),
{
    let k = kids.index_of(a);
    let t = model::replaced(kids, a, b);
    assert forall|x: NodeId| #[trigger] t.contains(x) == (x == b || (x != a && kids.contains(x))) by {
        assert(t[k] == b);
        if kids.contains(x) && x != a {
            assert(t[kids.index_of(x)] == x);
        }
        if t.contains(x) && x != b {
            let j = t.index_of(x);
            assert(kids[j] == x);
        }
    }
}

/// A member less.
pub proof fn lemma_rid(order: Seq<NodeId>, x: NodeId)
    requires
        order.no_duplicates(),
    ensures
        model::rid(order, x).no_duplicates(),
        forall|y: NodeId| #[trigger] model::rid(order, x).contains(y) == (y != x && order.contains(y)),
{
    if order.contains(x) {
        lru::lemma_remove(order, order.index_of(x));
    }
}

/// A member more, in front.
pub proof fn lemma_front(order: Seq<NodeId>, x: NodeId)
    requires
        order.no_duplicates(),
        !order.contains(x),
    ensures
        (seq![x] + order).no_duplicates(),
        forall|y: NodeId| #[trigger] (seq![x] + order).contains(y) == (y == x || order.contains(y)),
{
    lru::lemma_insert(order, 0, x);
    assert(order.insert(0, x) =~= seq![x] + order);
}

/// A member more, at the end.
pub proof fn lemma_back(order: Seq<NodeId>, x: NodeId)
    requires
        order.no_duplicates(),
        !order.contains(x),
    ensures
        order.push(x).no_duplicates(),
        forall|y: NodeId| #[trigger] order.push(x).contains(y) == (y == x || order.contains(y)),
{
    lru::lemma_insert(order, order.len() as int, x);
    assert(order.insert(order.len() as int, x) =~= order.push(x));
}

/// An empty tree holds no tokens.
pub proof fn lemma_fresh_counts(cfg: UConfig)
    ensures
        forall|ct: int, locked: bool| 0 <= ct < 3 ==> #[trigger] UState::fresh(cfg).count(ct, locked) == 0,
{
    let st = UState::fresh(cfg);
    assert forall|ct: int, locked: bool| 0 <= ct < 3 implies #[trigger] st.count(ct, locked) == 0 by {
        seqs::lemma_total_none(|i: int| st.weight(ct, locked, i), st.nodes.len());
    }
}

/// A node of the tree below the root has one unit at least.
pub proof fn lemma_units(st: UState, id: NodeId)
    requires
        st.shape.wf(),
        0 < id < st.shape.nodes.len(),
    ensures
        st.units(id) >= 0,
        st.shape.nodes[id as int].attached ==> st.units(id) >= 1,
        st.units(id) * st.shape.unit == st.shape.nodes[id as int].key.len(),
{
    chains::lemma_units(st.shape, id as int);
}

/// The parts of a cut hold what the node held.
pub proof fn lemma_cut_counts(st: UState, c: NodeId, m: int, ct: int)
    requires
        st.built(),
        st.cuttable(c, m),
        0 <= ct < 3,
    ensures
        forall|b: bool| #[trigger] st.cut(c, m).count(ct, b) == st.count(ct, b),
{
    let t = st.cut(c, m);
    let n = st.nodes.len();
    let p = st.shape.nodes[c as int].parent;
    assert(st.node_ok(c as int));
    topo::lemma_path_grows(st.shape, c);
    lemma_pages(st.shape, m);
    lemma_units(st, c);
    let u = m / st.shape.unit as int;
    assert(u <= st.units(c)) by (nonlinear_arith)
        requires
            u * st.shape.unit == m,
            st.units(c) * st.shape.unit == st.shape.nodes[c as int].key.len(),
            m < st.shape.nodes[c as int].key.len(),
            st.shape.unit >= 1,
    ;
    assert forall|b: bool| #[trigger] t.count(ct, b) == st.count(ct, b) by {
        let f = |i: int| st.weight(ct, b, i);
        let g = |i: int| t.weight(ct, b, i);
        assert forall|i: int| 0 <= i < n && i != c implies #[trigger] f(i) == g(i) by {
            if i == p {
                assert(t.nodes[i].value == st.nodes[i].value);
            } else {
                assert(t.nodes[i] == st.nodes[i]);
            }
        }
        seqs::lemma_total_update(f, g, n, c as int);
        assert(t.nodes[c as int] == st.tail_of(c, m));
        assert(t.nodes[n as int] == st.front_of(c, m));
        assert(g(c as int) + g(n as int) == f(c as int));
    }
}

/// A cut leaves a possible tree; only its two parts change as leaves.
pub proof fn lemma_cut(st: UState, c: NodeId, m: int)
    requires
        st.built(),
        st.cuttable(c, m),
    ensures
        st.cut(c, m).built(),
        st.cut(c, m).inner(c),
        st.cut(c, m).inner(st.nodes.len() as NodeId),
        st.cut(c, m).shape.nodes[c as int].parent == st.nodes.len(),
        st.cut(c, m).nodes.len() == st.nodes.len() + 1,
        forall|x: NodeId|
            x != c && x != st.nodes.len() ==> #[trigger] st.cut(c, m).device_leaf(x) == st.device_leaf(x),
        forall|x: NodeId|
            x != c && x != st.nodes.len() ==> #[trigger] st.cut(c, m).host_leaf(x) == st.host_leaf(x),
        ({
            let u = m / st.shape.unit as int;
            &&& 0 < u < st.units(c)
            &&& u * st.shape.unit == m
            &&& st.cut(c, m).units(st.nodes.len() as NodeId) == u
            &&& st.cut(c, m).units(c) == st.units(c) - u
        }),
{
    let t = st.cut(c, m);
    let n = st.nodes.len();
    let f = n as NodeId;
    let p = st.shape.nodes[c as int].parent;
    let unit = st.shape.unit as int;
    let u = m / unit;
    let len = st.shape.nodes[c as int].key.len() as int;
    assert(st.node_ok(c as int));
    assert(st.kids_ok(c as int));
    topo::lemma_split_wf(st.shape, c, m);
    topo::lemma_path_grows(st.shape, c);
    assert(st.shape.hangs(c as int));
    assert(st.kids_ok(p as int));
    lemma_pages(st.shape, m);
    lemma_units(st, c);
    topo::lemma_chunk(st.shape);
    vstd::arithmetic::div_mod::lemma_small_mod(0, st.shape.chunk());
    topo::lemma_aligned(st.shape, len, 0);
    topo::lemma_aligned(st.shape, m, 0);
    tree_model::lemma_halves(len, m, unit);
    lemma_hash_cut(st.nodes[c as int].hashes, st.units(c), u, st.shape.page as int);
    lemma_hash_cut(st.nodes[c as int].event_hashes, st.units(c), u, st.shape.page as int);
    lemma_cut_counts(st, c, m, 0);
    lemma_cut_counts(st, c, m, 1);
    lemma_cut_counts(st, c, m, 2);
    assert(st.shape.is_child(p, c));
    assert(!st.nodes[p as int].kids.contains(f));
    lemma_replaced(st.nodes[p as int].kids, c, f);
    assert(t.nodes[c as int] == st.tail_of(c, m));
    assert(t.nodes[n as int] == st.front_of(c, m));
    assert(t.shape.units(c as int) == st.units(c) - u);
    assert(t.shape.units(n as int) == u);
    assert forall|i: int| 0 < i < t.nodes.len() implies #[trigger] t.node_ok(i) by {
        if i < n {
            assert(st.node_ok(i));
            assert(st.shape.hangs(i));
        }
    }
    assert(st.root_ok());
    assert(t.root_ok());
    assert forall|i: int| 0 <= i < t.nodes.len() implies #[trigger] t.kids_ok(i) by {
        if i == n {
            assert forall|x: NodeId| #[trigger] t.nodes[i].kids.contains(x) == t.shape.is_child(i as NodeId, x) by {
                assert(t.nodes[i].kids[0] == c);
                if 0 < x < n {
                    assert(st.shape.hangs(x as int));
                }
            }
        } else {
            assert(st.kids_ok(i));
            assert forall|x: NodeId| #[trigger] t.nodes[i].kids.contains(x) == t.shape.is_child(i as NodeId, x) by {
                assert(st.nodes[i].kids.contains(x) == st.shape.is_child(i as NodeId, x));
            }
        }
    }
    assert(!st.dups.contains(f));
    if t.dups != st.dups {
        if st.dups.contains(f) {
            assert(false);
        }
    }
    lemma_rid(st.dups, f);
    lemma_back(st.dups, f);
    assert forall|x: NodeId| #[trigger] t.dups.contains(x) implies t.inner(x) by {
        if x != f {
            assert(st.dups.contains(x));
            assert(st.inner(x));
        }
    }
    lemma_cut_leaves(st, c, m);
}

/// Only the two parts of a cut change as leaves.
proof fn lemma_cut_leaves(st: UState, c: NodeId, m: int)
    requires
        st.built(),
        st.cuttable(c, m),
    ensures
        forall|x: NodeId|
            x != c && x != st.nodes.len() ==> #[trigger] st.cut(c, m).device_leaf(x) == st.device_leaf(x),
        forall|x: NodeId|
            x != c && x != st.nodes.len() ==> #[trigger] st.cut(c, m).host_leaf(x) == st.host_leaf(x),
{
    let t = st.cut(c, m);
    let n = st.nodes.len();
    let f = n as NodeId;
    let p = st.shape.nodes[c as int].parent;
    topo::lemma_path_grows(st.shape, c);
    assert(st.shape.is_child(p, c));
    assert(t.shape.is_child(p, f));
    assert(t.nodes[c as int] == st.tail_of(c, m));
    assert(t.nodes[n as int] == st.front_of(c, m));
    assert(st.node_ok(c as int));
    assert forall|x: NodeId| x != c && x != n implies #[trigger] t.device_leaf(x) == st.device_leaf(x) by {
        if x < n {
            if st.no_device_kid(x) {
                assert forall|d: NodeId| #[trigger] t.shape.is_child(x, d) implies t.nodes[d as int].value[0] is None by {
                    if d == f {
                        assert(st.shape.is_child(x, c));
                    } else {
                        assert(st.shape.is_child(x, d));
                    }
                }
            }
            if t.no_device_kid(x) {
                assert forall|d: NodeId| #[trigger] st.shape.is_child(x, d) implies st.nodes[d as int].value[0] is None by {
                    if d == c {
                        assert(t.shape.is_child(x, f));
                    } else {
                        assert(t.shape.is_child(x, d));
                    }
                }
            }
        }
    }
    assert forall|x: NodeId| x != c && x != n implies #[trigger] t.host_leaf(x) == st.host_leaf(x) by {
        if x < n {
            if st.shape.is_leaf(x) {
                assert forall|d: NodeId| !#[trigger] t.shape.is_child(x, d) by {
                    assert(!st.shape.is_child(x, d));
                    assert(!st.shape.is_child(x, c));
                }
            }
            if t.shape.is_leaf(x) {
                assert forall|d: NodeId| !#[trigger] st.shape.is_child(x, d) by {
                    assert(!t.shape.is_child(x, d));
                    assert(!t.shape.is_child(x, f));
                }
            }
        }
    }
}

/// The lists of one component where one node's runs and place in them may
/// have changed.
pub open spec fn lists_follow(a: UState, b: UState, ct: int, id: NodeId) -> bool {
    &&& forall|x: NodeId|
        x != id ==> #[trigger] b.lru[2 * ct].contains(x) == a.lru[2 * ct].contains(x)
    &&& forall|x: NodeId|
        x != id ==> #[trigger] b.lru[2 * ct + 1].contains(x) == a.lru[2 * ct + 1].contains(x)
    &&& b.lists_ok(ct, id)
}

/// Where the other nodes are the same, and the same in the lists, the lists
/// stay right.
pub proof fn lemma_lists(a: UState, b: UState, ct: int, id: NodeId)
    requires
        altered(a, b, id),
        forall|x: NodeId| #[trigger] a.lists_ok(ct, x),
        lists_follow(a, b, ct, id),
    ensures
        forall|x: NodeId| #[trigger] b.lists_ok(ct, x),
{
    assert forall|x: NodeId| #[trigger] b.lists_ok(ct, x) by {
        assert(a.lists_ok(ct, x));
        if x != id {
            assert(b.lru[2 * ct].contains(x) == a.lru[2 * ct].contains(x));
            assert(b.lru[2 * ct + 1].contains(x) == a.lru[2 * ct + 1].contains(x));
        }
    }
}

/// The lists of a component that nothing touched.
pub proof fn lemma_lists_same(a: UState, b: UState, ct: int, id: NodeId)
    requires
        altered(a, b, id),
        forall|x: NodeId| #[trigger] a.lists_ok(ct, x),
        b.nodes[id as int].value[ct] == a.nodes[id as int].value[ct],
        b.nodes[id as int].host[ct] == a.nodes[id as int].host[ct],
        b.nodes[id as int].host_lock[ct] == a.nodes[id as int].host_lock[ct],
        b.lru[2 * ct] == a.lru[2 * ct],
        b.lru[2 * ct + 1] == a.lru[2 * ct + 1],
    ensures
        forall|x: NodeId| #[trigger] b.lists_ok(ct, x),
{
    assert forall|x: NodeId| #[trigger] b.lists_ok(ct, x) by {
        assert(a.lists_ok(ct, x));
    }
}

/// A cut puts both parts in the lists where they belong.
pub proof fn lemma_cut_listed(st: UState, c: NodeId, m: int)
    requires
        st.wf(),
        st.cuttable(c, m),
    ensures
        st.cut(c, m).listed(),
{
    let t = st.cut(c, m);
    let n = st.nodes.len();
    let f = n as NodeId;
    let p = st.shape.nodes[c as int].parent;
    topo::lemma_path_grows(st.shape, c);
    assert(st.node_ok(c as int));
    assert(st.lists_ok(1, c));
    assert(st.lists_ok(2, c));
    assert(st.lists_ok(1, f));
    assert(st.lists_ok(2, f));
    assert(t.nodes[c as int] == st.tail_of(c, m));
    assert(t.nodes[n as int] == st.front_of(c, m));
    if st.nodes[c as int].value[1] is Some {
        lru::lemma_with_pair(st.lru[2], c, f);
    }
    if st.nodes[c as int].value[2] is Some {
        lru::law_touch_keeps_members(st.lru[4], c);
    }
    if st.nodes[c as int].value[1] is None && st.nodes[c as int].host[1] is Some {
        lemma_front(st.lru[3], f);
        if !st.lru[3].contains(c) {
            lemma_front(seq![f] + st.lru[3], c);
        }
    }
    assert forall|x: NodeId| #[trigger] t.lists_ok(1, x) by {
        assert(st.lists_ok(1, x));
        if x != c && x != f && x < n {
            assert(t.nodes[x as int].value == st.nodes[x as int].value);
            assert(t.nodes[x as int].host == st.nodes[x as int].host);
            assert(t.nodes[x as int].host_lock == st.nodes[x as int].host_lock);
        }
    }
    assert forall|x: NodeId| #[trigger] t.lists_ok(2, x) by {
        assert(st.lists_ok(2, x));
        if x != c && x != f && x < n {
            assert(t.nodes[x as int].value == st.nodes[x as int].value);
            assert(t.nodes[x as int].host == st.nodes[x as int].host);
            assert(t.nodes[x as int].host_lock == st.nodes[x as int].host_lock);
        }
    }
}

/// A new leaf that fits its place.
pub proof fn lemma_grown(st: UState, p: NodeId, ns: u32, key: Seq<i64>, n: UNodeState)
    requires
        st.built(),
        st.live(p),
        st.roomy(1),
        key.len() > 0,
        st.shape.aligned(key.len() as int),
        p != ROOT ==> st.shape.nodes[p as int].ns == ns,
        st.shape.child_of(p, ns, key.take(st.shape.chunk() as int)) is None,
        ({
            let u = key.len() as int / st.shape.unit as int;
            let page = st.shape.page as int;
            &&& n.arity() && n.counted() && n.unlocked() && n.host_unlocked()
            &&& n.value[0] is Some || n.host[0] is Some
            &&& model::run_fits(n.value[0], u) && model::run_fits(n.host[0], u)
            &&& n.value[1] is None && n.value[2] is None && n.value[3] is None
            &&& n.host[1] is None && n.host[2] is None && n.host[3] is None
            &&& n.kids.len() == 0
            &&& model::hashes_fit(n.hashes, u, page) && model::hashes_fit(n.event_hashes, u, page)
            &&& n.value[0] is Some ==> st.size(0) + u <= i64::MAX && st.nodes[p as int].value[0] is Some
        }),
    ensures
        ({
            let t = st.grown(p, ns, key, n);
            let f = st.nodes.len() as NodeId;
            let u = key.len() as int / st.shape.unit as int;
            &&& t.built()
            &&& st.listed() ==> t.listed()
            &&& t.inner(f)
            &&& t.live(p)
            &&& t.units(f) == u
            &&& t.nodes.len() == st.nodes.len() + 1
            &&& t.count(0, false) == st.count(0, false) + (if n.value[0] is Some { u } else { 0 })
            &&& t.count(0, true) == st.count(0, true)
            &&& forall|b: bool| #[trigger] t.count(1, b) == st.count(1, b)
            &&& forall|b: bool| #[trigger] t.count(2, b) == st.count(2, b)
            &&& forall|x: NodeId| x != p && x != f ==> #[trigger] t.device_leaf(x) == st.device_leaf(x)
            &&& forall|x: NodeId| x != p && x != f ==> #[trigger] t.host_leaf(x) == st.host_leaf(x)
        }),
{
    let t = st.grown(p, ns, key, n);
    let len = st.nodes.len();
    let f = len as NodeId;
    let u = key.len() as int / st.shape.unit as int;
    topo::lemma_graft_wf(st.shape, p, ns, key);
    assert(st.kids_ok(p as int));
    assert(!st.nodes[p as int].kids.contains(f));
    lemma_back(st.nodes[p as int].kids, f);
    assert(t.nodes[len as int] == n);
    assert forall|i: int| 0 < i < t.nodes.len() implies #[trigger] t.node_ok(i) by {
        if i < len {
            assert(st.node_ok(i));
            assert(st.shape.hangs(i));
        }
    }
    assert(st.root_ok());
    assert(t.root_ok());
    assert forall|i: int| 0 <= i < t.nodes.len() implies #[trigger] t.kids_ok(i) by {
        if i == len {
            assert forall|x: NodeId| #[trigger] t.nodes[i].kids.contains(x) == t.shape.is_child(i as NodeId, x) by {
                if 0 < x < len {
                    assert(st.shape.hangs(x as int));
                }
            }
        } else {
            assert(st.kids_ok(i));
            assert forall|x: NodeId| #[trigger] t.nodes[i].kids.contains(x) == t.shape.is_child(i as NodeId, x) by {
                assert(st.nodes[i].kids.contains(x) == st.shape.is_child(i as NodeId, x));
            }
        }
    }
    assert forall|x: NodeId| #[trigger] t.dups.contains(x) implies t.inner(x) by {
        assert(st.inner(x));
    }
    assert forall|ct: int, b: bool| 0 <= ct < 3 implies #[trigger] t.count(ct, b) == st.count(ct, b) + t.weight(ct, b, len as int) by {
        seqs::lemma_total_same(|i: int| st.weight(ct, b, i), |i: int| t.weight(ct, b, i), len);
    }
    assert(t.count(0, false) == st.count(0, false) + t.weight(0, false, len as int));
    assert(t.count(0, true) == st.count(0, true) + t.weight(0, true, len as int));
    assert(t.count(1, false) == st.count(1, false) && t.count(1, true) == st.count(1, true));
    assert(t.count(2, false) == st.count(2, false) && t.count(2, true) == st.count(2, true));
    assert forall|x: NodeId| x != p && x != f implies #[trigger] t.device_leaf(x) == st.device_leaf(x) by {
        if st.no_device_kid(x) {
            assert forall|d: NodeId| #[trigger] t.shape.is_child(x, d) implies t.nodes[d as int].value[0] is None by {
                assert(st.shape.is_child(x, d));
            }
        }
        if t.no_device_kid(x) {
            assert forall|d: NodeId| #[trigger] st.shape.is_child(x, d) implies st.nodes[d as int].value[0] is None by {
                assert(t.shape.is_child(x, d));
            }
        }
    }
    assert forall|x: NodeId| x != p && x != f implies #[trigger] t.host_leaf(x) == st.host_leaf(x) by {
        if x < len {
            if st.shape.is_leaf(x) {
                assert forall|d: NodeId| !#[trigger] t.shape.is_child(x, d) by {
                    assert(!st.shape.is_child(x, d));
                }
            }
            if t.shape.is_leaf(x) {
                assert forall|d: NodeId| !#[trigger] st.shape.is_child(x, d) by {
                    assert(!t.shape.is_child(x, d));
                }
            }
        }
    }
    if st.listed() {
        assert forall|x: NodeId| #[trigger] t.lists_ok(1, x) by {
            assert(st.lists_ok(1, x));
        }
        assert forall|x: NodeId| #[trigger] t.lists_ok(2, x) by {
            assert(st.lists_ok(2, x));
        }
    }
}

/// A leaf of the tree without device locks taken off it.
pub proof fn lemma_erased(st: UState, x: NodeId)
    requires
        st.wf(),
        st.inner(x),
        st.shape.is_leaf(x),
        st.nodes[x as int].unlocked(),
    ensures
        ({
            let t = st.erased(x);
            let p = st.shape.nodes[x as int].parent;
            &&& t.built()
            &&& t.listed()
            &&& p < st.nodes.len()
            &&& t.live(p)
            &&& p != x
            &&& forall|ct: int|
                0 <= ct < 3 ==> #[trigger] t.count(ct, false) == st.count(ct, false) - st.weight(ct, false, x as int)
            &&& forall|ct: int| 0 <= ct < 3 ==> #[trigger] t.count(ct, true) == st.count(ct, true)
            &&& forall|y: NodeId| y != p && y != x ==> #[trigger] t.device_leaf(y) == st.device_leaf(y)
            &&& forall|y: NodeId| y != p && y != x ==> #[trigger] t.host_leaf(y) == st.host_leaf(y)
            &&& !t.device_leaf(x) && !t.host_leaf(x)
        }),
{
    let t = st.erased(x);
    let p = st.shape.nodes[x as int].parent;
    let n = st.nodes.len();
    topo::lemma_prune_wf(st.shape, x);
    topo::lemma_path_grows(st.shape, x);
    assert(st.shape.hangs(x as int));
    assert(st.node_ok(x as int));
    assert(st.kids_ok(p as int));
    assert(st.kids_ok(x as int));
    assert(st.shape.is_child(p, x));
    assert(st.nodes[p as int].kids.contains(x));
    lemma_rid(st.nodes[p as int].kids, x);
    lemma_rid(st.dups, x);
    lemma_rid(st.lru[2], x);
    lemma_rid(st.lru[3], x);
    lemma_rid(st.lru[4], x);
    lemma_rid(st.lru[5], x);
    assert forall|i: int| 0 < i < n implies #[trigger] t.node_ok(i) by {
        assert(st.node_ok(i));
        assert(st.shape.hangs(i));
        if i != x && st.shape.nodes[i].attached {
            assert(!st.shape.is_child(x, i as NodeId));
        }
    }
    assert(st.root_ok());
    assert(t.root_ok());
    assert forall|i: int| 0 <= i < n implies #[trigger] t.kids_ok(i) by {
        assert(st.kids_ok(i));
        assert forall|c: NodeId| #[trigger] t.nodes[i].kids.contains(c) == t.shape.is_child(i as NodeId, c) by {
            assert(st.nodes[i].kids.contains(c) == st.shape.is_child(i as NodeId, c));
        }
    }
    assert forall|y: NodeId| #[trigger] t.dups.contains(y) implies t.inner(y) by {
        assert(st.dups.contains(y));
        assert(st.inner(y));
    }
    assert forall|ct: int, b: bool| 0 <= ct < 3 implies #[trigger] t.count(ct, b) == st.count(ct, b) - st.weight(
        ct,
        b,
        x as int,
    ) by {
        seqs::lemma_total_update(|i: int| st.weight(ct, b, i), |i: int| t.weight(ct, b, i), n, x as int);
    }
    assert forall|ct: int| 0 <= ct < 3 implies #[trigger] t.count(ct, true) == st.count(ct, true) by {
        assert(st.weight(ct, true, x as int) == 0);
    }
    assert(t.count(0, false) == st.count(0, false) - st.weight(0, false, x as int));
    assert(t.count(1, false) == st.count(1, false) - st.weight(1, false, x as int));
    assert(t.count(2, false) == st.count(2, false) - st.weight(2, false, x as int));
    assert(t.count(0, true) == st.count(0, true));
    assert(t.count(1, true) == st.count(1, true));
    assert(t.count(2, true) == st.count(2, true));
    assert forall|y: NodeId| y != p && y != x implies #[trigger] t.device_leaf(y) == st.device_leaf(y) by {
        if st.no_device_kid(y) {
            assert forall|d: NodeId| #[trigger] t.shape.is_child(y, d) implies t.nodes[d as int].value[0] is None by {
                assert(st.shape.is_child(y, d));
            }
        }
        if t.no_device_kid(y) {
            assert forall|d: NodeId| #[trigger] st.shape.is_child(y, d) implies st.nodes[d as int].value[0] is None by {
                assert(t.shape.is_child(y, d));
            }
        }
    }
    assert forall|y: NodeId| y != p && y != x implies #[trigger] t.host_leaf(y) == st.host_leaf(y) by {
        if y < n {
            if st.shape.is_leaf(y) {
                assert forall|d: NodeId| !#[trigger] t.shape.is_child(y, d) by {
                    assert(!st.shape.is_child(y, d));
                }
            }
            if t.shape.is_leaf(y) {
                assert forall|d: NodeId| !#[trigger] st.shape.is_child(y, d) by {
                    assert(!t.shape.is_child(y, d));
                }
            }
        }
    }
    assert forall|y: NodeId| #[trigger] t.lists_ok(1, y) by {
        assert(st.lists_ok(1, y));
    }
    assert forall|y: NodeId| #[trigger] t.lists_ok(2, y) by {
        assert(st.lists_ok(2, y));
    }
}

/// Another host lock count on the root changes nothing else.
pub proof fn lemma_root(st: UState, n: i32)
    requires
        st.wf(),
        n >= 0,
    ensures
        ({
            let t = st.patched(ROOT, st.nodes[0].with_host_lock(0, n));
            &&& t.wf()
            &&& forall|x: NodeId| #[trigger] t.device_leaf(x) == st.device_leaf(x)
            &&& forall|x: NodeId| #[trigger] t.host_leaf(x) == st.host_leaf(x)
            &&& forall|ct: int, b: bool| #[trigger] t.count(ct, b) == st.count(ct, b)
        }),
{
    let t = st.patched(ROOT, st.nodes[0].with_host_lock(0, n));
    assert forall|ct: int, b: bool| #[trigger] t.count(ct, b) == st.count(ct, b) by {
        seqs::lemma_total_same(|i: int| st.weight(ct, b, i), |i: int| t.weight(ct, b, i), st.nodes.len());
    }
    assert forall|i: int| 0 < i < t.nodes.len() implies #[trigger] t.node_ok(i) by {
        assert(st.node_ok(i));
        assert(st.shape.hangs(i));
    }
    assert forall|i: int| 0 <= i < t.nodes.len() implies #[trigger] t.kids_ok(i) by {
        assert(st.kids_ok(i));
    }
    assert forall|x: NodeId| #[trigger] t.dups.contains(x) implies t.inner(x) by {
        assert(st.inner(x));
    }
    assert forall|x: NodeId| #[trigger] t.device_leaf(x) == st.device_leaf(x) by {
        if st.no_device_kid(x) {
            assert forall|c: NodeId| #[trigger] t.shape.is_child(x, c) implies t.nodes[c as int].value[0] is None by {
                assert(st.shape.is_child(x, c));
            }
        }
        if t.no_device_kid(x) {
            assert forall|c: NodeId| #[trigger] st.shape.is_child(x, c) implies st.nodes[c as int].value[0] is None by {
                assert(t.shape.is_child(x, c));
            }
        }
    }
    assert forall|x: NodeId| #[trigger] t.lists_ok(1, x) by {
        assert(st.lists_ok(1, x));
    }
    assert forall|x: NodeId| #[trigger] t.lists_ok(2, x) by {
        assert(st.lists_ok(2, x));
    }
}

/// Another list of duplicates, all of them nodes of the tree, changes
/// nothing else.
proof fn lemma_dups(st: UState, t: UState)
    requires
        st.wf(),
        t == (UState { dups: t.dups, ..st }),
        t.dups.no_duplicates(),
        forall|x: NodeId| #[trigger] t.dups.contains(x) ==> st.inner(x),
    ensures
        t.wf(),
        forall|x: NodeId| #[trigger] t.device_leaf(x) == st.device_leaf(x),
        forall|x: NodeId| #[trigger] t.host_leaf(x) == st.host_leaf(x),
        forall|ct: int, b: bool| #[trigger] t.count(ct, b) == st.count(ct, b),
{
    assert forall|ct: int, b: bool| #[trigger] t.count(ct, b) == st.count(ct, b) by {
        seqs::lemma_total_same(|i: int| st.weight(ct, b, i), |i: int| t.weight(ct, b, i), st.nodes.len());
    }
    assert forall|i: int| 0 < i < t.nodes.len() implies #[trigger] t.node_ok(i) by {
        assert(st.node_ok(i));
        assert(st.shape.hangs(i));
    }
    assert forall|i: int| 0 <= i < t.nodes.len() implies #[trigger] t.kids_ok(i) by {
        assert(st.kids_ok(i));
    }
    assert forall|x: NodeId| #[trigger] t.dups.contains(x) implies t.inner(x) by {
        assert(st.inner(x));
    }
    assert forall|x: NodeId| #[trigger] t.device_leaf(x) == st.device_leaf(x) by {
        if st.no_device_kid(x) {
            assert forall|c: NodeId| #[trigger] t.shape.is_child(x, c) implies t.nodes[c as int].value[0] is None by {
                assert(st.shape.is_child(x, c));
            }
        }
        if t.no_device_kid(x) {
            assert forall|c: NodeId| #[trigger] st.shape.is_child(x, c) implies st.nodes[c as int].value[0] is None by {
                assert(t.shape.is_child(x, c));
            }
        }
    }
    assert forall|x: NodeId| #[trigger] t.lists_ok(1, x) by {
        assert(st.lists_ok(1, x));
    }
    assert forall|x: NodeId| #[trigger] t.lists_ok(2, x) by {
        assert(st.lists_ok(2, x));
    }
}

/// Noting a duplicate changes nothing else.
pub proof fn lemma_noted(st: UState, id: NodeId)
    requires
        st.wf(),
        st.live(id),
    ensures
        st.noted(id).wf(),
        forall|x: NodeId| #[trigger] st.noted(id).device_leaf(x) == st.device_leaf(x),
        forall|x: NodeId| #[trigger] st.noted(id).host_leaf(x) == st.host_leaf(x),
        forall|ct: int, b: bool| #[trigger] st.noted(id).count(ct, b) == st.count(ct, b),
{
    if st.settled_duplicate(id) && !st.dups.contains(id) {
        lemma_back(st.dups, id);
        lemma_dups(st, st.noted(id));
    } else if !st.settled_duplicate(id) {
        lemma_forgotten(st, id);
    }
}

/// Forgetting a duplicate changes nothing else.
pub proof fn lemma_forgotten(st: UState, id: NodeId)
    requires
        st.wf(),
    ensures
        st.forgotten(id).wf(),
        forall|x: NodeId| #[trigger] st.forgotten(id).device_leaf(x) == st.device_leaf(x),
        forall|x: NodeId| #[trigger] st.forgotten(id).host_leaf(x) == st.host_leaf(x),
        forall|ct: int, b: bool| #[trigger] st.forgotten(id).count(ct, b) == st.count(ct, b),
{
    lemma_rid(st.dups, id);
    lemma_dups(st, st.forgotten(id));
}

/// Another order of a list changes nothing else.
pub proof fn lemma_relisted(st: UState, slot: int, order: Seq<NodeId>)
    requires
        st.wf(),
        2 <= slot <= 5,
        order.no_duplicates(),
        forall|x: NodeId| #[trigger] order.contains(x) == st.lru[slot].contains(x),
    ensures
        st.relisted(slot, order).wf(),
        forall|x: NodeId| #[trigger] st.relisted(slot, order).device_leaf(x) == st.device_leaf(x),
        forall|x: NodeId| #[trigger] st.relisted(slot, order).host_leaf(x) == st.host_leaf(x),
        forall|ct: int, b: bool| #[trigger] st.relisted(slot, order).count(ct, b) == st.count(ct, b),
{
    let t = st.relisted(slot, order);
    assert forall|ct: int, b: bool| #[trigger] t.count(ct, b) == st.count(ct, b) by {
        seqs::lemma_total_same(|i: int| st.weight(ct, b, i), |i: int| t.weight(ct, b, i), st.nodes.len());
    }
    assert forall|i: int| 0 < i < t.nodes.len() implies #[trigger] t.node_ok(i) by {
        assert(st.node_ok(i));
        assert(st.shape.hangs(i));
    }
    assert forall|i: int| 0 <= i < t.nodes.len() implies #[trigger] t.kids_ok(i) by {
        assert(st.kids_ok(i));
    }
    assert forall|x: NodeId| #[trigger] t.dups.contains(x) implies t.inner(x) by {
        assert(st.inner(x));
    }
    assert forall|x: NodeId| #[trigger] t.device_leaf(x) == st.device_leaf(x) by {
        if st.no_device_kid(x) {
            assert forall|c: NodeId| #[trigger] t.shape.is_child(x, c) implies t.nodes[c as int].value[0] is None by {
                assert(st.shape.is_child(x, c));
            }
        }
        if t.no_device_kid(x) {
            assert forall|c: NodeId| #[trigger] st.shape.is_child(x, c) implies st.nodes[c as int].value[0] is None by {
                assert(t.shape.is_child(x, c));
            }
        }
    }
    assert forall|x: NodeId| #[trigger] t.lists_ok(1, x) by {
        assert(st.lists_ok(1, x));
        assert(order.contains(x) == st.lru[slot].contains(x));
    }
    assert forall|x: NodeId| #[trigger] t.lists_ok(2, x) by {
        assert(st.lists_ok(2, x));
        assert(order.contains(x) == st.lru[slot].contains(x));
    }
}

/// A node that is put on the host list it belongs to changes nothing else.
pub proof fn lemma_host_listed(st: UState, id: NodeId, ct: int)
    requires
        st.wf(),
        st.inner(id),
        ct == 1 || ct == 2,
        st.nodes[id as int].value[ct] is None,
        st.nodes[id as int].host[ct] is Some,
        !st.lru[2 * ct + 1].contains(id),
    ensures
        st.host_listed(id, ct).wf(),
        forall|x: NodeId| #[trigger] st.host_listed(id, ct).device_leaf(x) == st.device_leaf(x),
        forall|x: NodeId| #[trigger] st.host_listed(id, ct).host_leaf(x) == st.host_leaf(x),
        forall|c: int, b: bool| #[trigger] st.host_listed(id, ct).count(c, b) == st.count(c, b),
{
    let t = st.host_listed(id, ct);
    lemma_front(st.lru[2 * ct + 1], id);
    assert forall|c: int, b: bool| #[trigger] t.count(c, b) == st.count(c, b) by {
        seqs::lemma_total_same(|i: int| st.weight(c, b, i), |i: int| t.weight(c, b, i), st.nodes.len());
    }
    assert forall|i: int| 0 < i < t.nodes.len() implies #[trigger] t.node_ok(i) by {
        assert(st.node_ok(i));
        assert(st.shape.hangs(i));
    }
    assert forall|i: int| 0 <= i < t.nodes.len() implies #[trigger] t.kids_ok(i) by {
        assert(st.kids_ok(i));
    }
    assert forall|x: NodeId| #[trigger] t.dups.contains(x) implies t.inner(x) by {
        assert(st.inner(x));
    }
    assert forall|x: NodeId| #[trigger] t.device_leaf(x) == st.device_leaf(x) by {
        if st.no_device_kid(x) {
            assert forall|c: NodeId| #[trigger] t.shape.is_child(x, c) implies t.nodes[c as int].value[0] is None by {
                assert(st.shape.is_child(x, c));
            }
        }
        if t.no_device_kid(x) {
            assert forall|c: NodeId| #[trigger] st.shape.is_child(x, c) implies st.nodes[c as int].value[0] is None by {
                assert(t.shape.is_child(x, c));
            }
        }
    }
    assert forall|x: NodeId| #[trigger] t.lists_ok(1, x) by {
        assert(st.lists_ok(1, x));
    }
    assert forall|x: NodeId| #[trigger] t.lists_ok(2, x) by {
        assert(st.lists_ok(2, x));
    }
}

/// Nodes of the tree.
pub open spec fn population(s: Shape) -> int {
    seqs::total(|i: int| if s.nodes[i].attached { 1 } else { 0 }, s.nodes.len())
}

/// A pruned node is one less.
pub proof fn lemma_population(s: Shape, x: NodeId)
    requires
        x < s.nodes.len(),
        s.nodes[x as int].attached,
    ensures
        population(s.prune(x)) == population(s) - 1,
        population(s.prune(x)) >= 0,
{
    let t = s.prune(x);
    let f = |i: int| if s.nodes[i].attached { 1int } else { 0 };
    let g = |i: int| if t.nodes[i].attached { 1int } else { 0 };
    seqs::lemma_total_update(f, g, s.nodes.len(), x as int);
    seqs::lemma_total_bounds(g, s.nodes.len());
    seqs::lemma_total_same(f, |i: int| if s.nodes[i].attached { 1 } else { 0 }, s.nodes.len());
    seqs::lemma_total_same(g, |i: int| if t.nodes[i].attached { 1 } else { 0 }, t.nodes.len());
}

} // verus!
