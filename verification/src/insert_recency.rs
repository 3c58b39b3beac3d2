//! What an insert of the hybrid tree or of the window tree makes most
//! recently used.

use crate::key::RadixKey;
use crate::lru;
use crate::mamba_model::MambaState;
use crate::query;
use crate::recency;
use crate::swa_model::{Freed, SWAState};
use crate::topo;
use crate::topo::{NodeId, Walk, ROOT};
use vstd::prelude::*;

verus! {

/// The nodes `ids` went to the recent end of `order` one after the other,
/// the last of them last; the nodes of `order` that are neither among `ids`
/// nor cut by the walk `w` stay behind them, in the order they had.
pub open spec fn went_in_turn(order: Seq<NodeId>, next: Seq<NodeId>, ids: Seq<NodeId>, w: Walk) -> bool {
    &&& forall|i: int, j: int|
        #![trigger ids[i], ids[j]]
        0 <= i < j < ids.len() ==> lru::ahead(next, ids[j], ids[i])
    &&& forall|y: NodeId, z: NodeId|
        #![trigger ids.contains(y), order.contains(z)]
        ids.contains(y) && order.contains(z) && !ids.contains(z) && !recency::was_cut(w, z) ==> lru::ahead(next, y, z)
    &&& recency::keeps_the_rest(order, next, ids, w)
}

/// In `order` the node `x` stands before all others.
pub open spec fn in_front(order: Seq<NodeId>, x: NodeId) -> bool {
    forall|z: NodeId| #![trigger order.contains(z)] order.contains(z) && z != x ==> lru::ahead(order, x, z)
}

/// Nodes passed one after the other.
proof fn lemma_passed(st: MambaState, ids: Seq<NodeId>, w: Walk)
    requires
        st.full.no_duplicates(),
        ids.no_duplicates(),
        forall|j: int| 0 <= j < ids.len() ==> st.full.contains(#[trigger] ids[j]),
    ensures
        ({
            let t = st.passed_all(ids);
            &&& t == (MambaState { full: t.full, ..st })
            &&& t.full.no_duplicates()
            &&& forall|z: NodeId| #[trigger] t.full.contains(z) <==> st.full.contains(z)
            &&& went_in_turn(st.full, t.full, ids, w)
            &&& ids.len() > 0 ==> in_front(t.full, ids.last())
        }),
    decreases ids.len(),
{
    if ids.len() > 0 {
        let xs = ids.drop_last();
        let x = ids.last();
        let a = st.passed_all(xs);
        let t = st.passed_all(ids);
        assert forall|j: int| 0 <= j < xs.len() implies st.full.contains(#[trigger] xs[j]) by {
            assert(xs[j] == ids[j]);
        }
        lemma_passed(st, xs, w);
        assert(st.full.contains(ids[ids.len() - 1]));
        assert(t.full == lru::touched(a.full, x));
        lru::law_touch_keeps_members(a.full, x);
        lru::law_touch_order(a.full, x);
        assert forall|y: NodeId| #[trigger] ids.contains(y) implies y == x || xs.contains(y) by {
            let k = ids.index_of(y);
            if k < xs.len() {
                assert(xs[k] == y);
            }
        }
        assert forall|y: NodeId| #[trigger] xs.contains(y) implies ids.contains(y) && y != x by {
            let k = xs.index_of(y);
            assert(ids[k] == y);
        }
        assert forall|i: int, j: int| #![trigger ids[i], ids[j]] 0 <= i < j < ids.len() implies lru::ahead(
            t.full,
            ids[j],
            ids[i],
        ) by {
            assert(a.full.contains(ids[i]));
            assert(ids[i] != x);
            if j < xs.len() {
                assert(xs[i] == ids[i] && xs[j] == ids[j]);
                assert(ids[j] != x);
                assert(lru::ahead(a.full, ids[j], ids[i]));
                assert(lru::ahead(t.full, ids[j], ids[i]));
            }
        }
        assert forall|y: NodeId, z: NodeId|
            #![trigger ids.contains(y), st.full.contains(z)]
            ids.contains(y) && st.full.contains(z) && !ids.contains(z) && !recency::was_cut(w, z) implies lru::ahead(
            t.full,
            y,
            z,
        ) by {
            assert(!xs.contains(z));
            assert(z != x);
            assert(a.full.contains(z));
            if y != x {
                assert(xs.contains(y));
                assert(lru::ahead(a.full, y, z));
                assert(lru::ahead(t.full, y, z));
            }
        }
    } else {
        assert(st.passed_all(ids) == st);
    }
}

/// A node moved or added in front leaves the others as they were.
proof fn lemma_front(order: Seq<NodeId>, a: Seq<NodeId>, t: Seq<NodeId>, ids: Seq<NodeId>, x: NodeId, w: Walk)
    requires
        went_in_turn(order, a, ids, w),
        in_front(t, x),
        forall|z: NodeId| order.contains(z) ==> #[trigger] t.contains(z),
        forall|j: int| 0 <= j < ids.len() ==> order.contains(#[trigger] ids[j]),
        ids.no_duplicates(),
        ids.contains(x) ==> ids.len() > 0 && x == ids.last(),
        !order.contains(x) || ids.contains(x),
        forall|y: NodeId, z: NodeId| y != x && z != x ==> #[trigger] lru::ahead(t, y, z) == lru::ahead(a, y, z),
    ensures
        went_in_turn(order, t, ids, w),
{
    assert forall|i: int, j: int| #![trigger ids[i], ids[j]] 0 <= i < j < ids.len() implies lru::ahead(
        t,
        ids[j],
        ids[i],
    ) by {
        assert(ids.contains(ids[i]));
        assert(t.contains(ids[i]));
        if ids[j] != x {
            assert(ids[i] != x);
            assert(lru::ahead(a, ids[j], ids[i]));
            assert(lru::ahead(t, ids[j], ids[i]));
        }
    }
    assert forall|y: NodeId, z: NodeId|
        #![trigger ids.contains(y), order.contains(z)]
        ids.contains(y) && order.contains(z) && !ids.contains(z) && !recency::was_cut(w, z) implies lru::ahead(
        t,
        y,
        z,
    ) by {
        assert(t.contains(z));
        if y != x {
            assert(lru::ahead(a, y, z));
            assert(lru::ahead(t, y, z));
        }
    }
    assert forall|y: NodeId, z: NodeId|
        #![trigger lru::ahead(t, y, z)]
        order.contains(y) && order.contains(z) && !ids.contains(y) && !ids.contains(z) && !recency::was_cut(w, y)
            && !recency::was_cut(w, z) implies lru::ahead(t, y, z) == lru::ahead(order, y, z) by {
        assert(lru::ahead(t, y, z) == lru::ahead(a, y, z));
    }
}

/// The cut of a node puts the two halves in front.
proof fn lemma_cut(order: Seq<NodeId>, a: Seq<NodeId>, ids: Seq<NodeId>, c: NodeId, f: NodeId, w: Walk)
    requires
        went_in_turn(order, a, ids, w),
        a.no_duplicates(),
        recency::was_cut(w, c),
        forall|z: NodeId| #[trigger] a.contains(z) <==> order.contains(z),
        forall|j: int| 0 <= j < ids.len() ==> order.contains(#[trigger] ids[j]),
        order.contains(c),
        !ids.contains(c),
        !order.contains(f),
    ensures
        ({
            let t = lru::with_pair(lru::touched(a, c), c, f);
            &&& t.no_duplicates()
            &&& forall|z: NodeId| #[trigger] t.contains(z) <==> order.contains(z) || z == f
            &&& went_in_turn(order, t, ids, w)
        }),
{
    let b = lru::touched(a, c);
    let t = lru::with_pair(b, c, f);
    lru::law_touch_keeps_members(a, c);
    lru::law_touch_order(a, c);
    lru::lemma_with_pair(b, c, f);
    lru::law_pair_order(b, c, f);
    assert forall|y: NodeId, z: NodeId| order.contains(y) && order.contains(z) && y != c && z != c implies
        #[trigger] lru::ahead(t, y, z) == lru::ahead(a, y, z) by {
        assert(lru::ahead(t, y, z) == lru::ahead(b, y, z));
    }
    assert forall|i: int, j: int| #![trigger ids[i], ids[j]] 0 <= i < j < ids.len() implies lru::ahead(
        t,
        ids[j],
        ids[i],
    ) by {
        assert(ids.contains(ids[i]) && ids.contains(ids[j]));
        assert(lru::ahead(a, ids[j], ids[i]));
        assert(lru::ahead(t, ids[j], ids[i]) == lru::ahead(a, ids[j], ids[i]));
    }
    assert forall|y: NodeId, z: NodeId|
        #![trigger ids.contains(y), order.contains(z)]
        ids.contains(y) && order.contains(z) && !ids.contains(z) && !recency::was_cut(w, z) implies lru::ahead(
        t,
        y,
        z,
    ) by {
        assert(ids[ids.index_of(y)] == y);
        assert(lru::ahead(a, y, z));
        assert(lru::ahead(t, y, z) == lru::ahead(a, y, z));
    }
}

/// An insert makes the node it ends at the most recently used one in the full
/// order, and the nodes it passes on its way recent in turn. A node that is
/// given a state becomes the most recent one in the order of states; where
/// the state was there that order stays as it was. The order among the other
/// nodes is as it was, but for a node that the insert cuts.
#[verifier::spinoff_prover]
#[verifier::rlimit(60)]
pub proof fn law_mamba_insert_refreshes(st: MambaState, key: RadixKey, value: Seq<i64>, mamba: Seq<i64>, prev: int)
    requires
        st.wf(),
        st.nodes.len() + 1 < NodeId::MAX,
        st.names.len() < u32::MAX,
        !st.disable,
        st.frame().flat(key).len() > 0,
    ensures
        ({
            let w = st.frame().walk(key);
            let (t, kv, x, had) = st.after_insert(key, value, mamba, prev);
            &&& in_front(t.full, x)
            &&& went_in_turn(st.full, t.full, w.chain, w)
            &&& had ==> t.mamba == st.mamba
            &&& !had ==> in_front(t.mamba, x)
            &&& forall|y: NodeId, z: NodeId|
                y != x && z != x ==> #[trigger] lru::ahead(t.mamba, y, z) == lru::ahead(st.mamba, y, z)
        }),
{
    let f = st.frame();
    let w = f.walk(key);
    let flat = f.flat(key);
    let ids = w.chain;
    let n = st.nodes.len() as NodeId;
    let val = value.take(f.units(key));
    let (s, kv, p) = st.after_insert_walk(key, val, prev);
    let (t, out, x, had) = st.after_insert(key, value, mamba, prev);
    let s0 = MambaState { names: f.names_with(key), ..st };
    query::lemma_query(f, key);
    assert forall|j: int| 0 <= j < ids.len() implies st.full.contains(#[trigger] ids[j]) by {
        assert(st.shape.is_child(if j == 0 { ROOT } else { ids[j - 1] }, ids[j]));
        assert(st.node_ok(ids[j] as int));
        assert(st.live(ids[j]));
    }
    assert(!st.full.contains(n)) by {
        assert(!st.live(n));
    }
    assert(!st.mamba.contains(n)) by {
        assert(!st.stateful(n));
    }
    lemma_passed(s0, ids, w);
    let a = s0.passed_all(ids);
    if let Some((c, m)) = w.stop {
        assert(st.node_ok(c as int));
        assert(st.live(c));
        lemma_cut(st.full, a.full, ids, c, n, w);
        assert(s.full == lru::with_pair(lru::touched(a.full, c), c, n));
        assert(p == n);
        assert(!ids.contains(n)) by {
            if ids.contains(n) {
                assert(st.full.contains(ids[ids.index_of(n)]));
            }
        }
    } else {
        assert(s == a);
        assert(p == topo::end_of(ids));
    }
    assert(s.mamba == st.mamba);
    assert(went_in_turn(st.full, s.full, ids, w));
    if w.used < flat.len() {
        let xs = seq![x];
        assert(xs[0] == x);
        assert(x == s.nodes.len() as NodeId);
        assert(!s.full.contains(x) && !st.full.contains(x)) by {
            assert(!st.live(x));
        }
        assert(!st.mamba.contains(x)) by {
            assert(!st.stateful(x));
        }
        assert(!ids.contains(x)) by {
            if ids.contains(x) {
                assert(st.full.contains(ids[ids.index_of(x)]));
            }
        }
        lemma_new(s.full, x);
        lemma_new(s.mamba, x);
        assert(t.full == seq![x] + s.full && t.mamba == seq![x] + s.mamba);
        lemma_front(st.full, s.full, t.full, ids, x, w);
    } else {
        assert(x == p);
        assert(s.full.contains(p)) by {
            if w.stop is None {
                assert(ids.len() > 0);
                assert(ids[ids.len() - 1] == p);
            }
        }
        lru::law_touch_keeps_members(s.full, p);
        lru::law_touch_order(s.full, p);
        assert(t.full == lru::touched(s.full, p));
        lemma_front(st.full, s.full, t.full, ids, x, w);
        if !had {
            assert(s.nodes[p as int].mamba is None);
            assert(!st.mamba.contains(p)) by {
                if w.stop is None {
                    assert(s.nodes == st.nodes);
                    assert(!st.stateful(p));
                }
            }
            lemma_new(s.mamba, p);
            assert(t.mamba == seq![p] + s.mamba);
        }
    }
}

/// A new member in front.
proof fn lemma_new(order: Seq<NodeId>, x: NodeId)
    requires
        !order.contains(x),
    ensures
        in_front(seq![x] + order, x),
        forall|z: NodeId| #[trigger] (seq![x] + order).contains(z) <==> order.contains(z) || z == x,
        forall|y: NodeId, z: NodeId|
            y != x && z != x ==> #[trigger] lru::ahead(seq![x] + order, y, z) == lru::ahead(order, y, z),
{
    let xs = seq![x];
    let t = xs + order;
    assert(xs[0] == x);
    lru::lemma_joined_order(xs, order);
    assert forall|z: NodeId| #[trigger] t.contains(z) <==> order.contains(z) || z == x by {
        if t.contains(z) {
            let k = t.index_of(z);
            if k > 0 {
                assert(order[k - 1] == z);
            }
        }
        if order.contains(z) {
            assert(t[order.index_of(z) + 1] == z);
        }
        if z == x {
            assert(t[0] == z);
        }
    }
    assert forall|z: NodeId| #![trigger t.contains(z)] t.contains(z) && z != x implies lru::ahead(t, x, z) by {
        assert(order.contains(z));
        assert(xs.contains(x));
    }
}

/// The next node of a walk goes to the front.
proof fn lemma_next(order: Seq<NodeId>, a: Seq<NodeId>, t: Seq<NodeId>, xs: Seq<NodeId>, c: NodeId, w: Walk)
    requires
        went_in_turn(order, a, xs, w),
        forall|j: int| 0 <= j < xs.len() ==> order.contains(#[trigger] xs[j]),
        !xs.contains(c),
        forall|z: NodeId| order.contains(z) && z != c ==> #[trigger] lru::ahead(t, c, z),
        forall|y: NodeId, z: NodeId|
            order.contains(y) && order.contains(z) && y != c && z != c ==> #[trigger] lru::ahead(t, y, z) == lru::ahead(
                a,
                y,
                z,
            ),
    ensures
        went_in_turn(order, t, xs.push(c), w),
{
    let ids = xs.push(c);
    assert forall|y: NodeId| #[trigger] ids.contains(y) <==> y == c || xs.contains(y) by {
        if ids.contains(y) {
            let k = ids.index_of(y);
            if k < xs.len() {
                assert(xs[k] == y);
            }
        }
        if xs.contains(y) {
            assert(ids[xs.index_of(y)] == y);
        }
        if y == c {
            assert(ids[xs.len() as int] == y);
        }
    }
    assert forall|i: int, j: int| #![trigger ids[i], ids[j]] 0 <= i < j < ids.len() implies lru::ahead(
        t,
        ids[j],
        ids[i],
    ) by {
        assert(ids[i] == xs[i]);
        assert(xs.contains(xs[i]));
        if j < xs.len() {
            assert(ids[j] == xs[j]);
            assert(xs.contains(xs[j]));
            assert(lru::ahead(a, xs[j], xs[i]));
            assert(lru::ahead(t, xs[j], xs[i]));
        } else {
            assert(lru::ahead(t, c, xs[i]));
        }
    }
    assert forall|y: NodeId, z: NodeId|
        #![trigger ids.contains(y), order.contains(z)]
        ids.contains(y) && order.contains(z) && !ids.contains(z) && !recency::was_cut(w, z) implies lru::ahead(
        t,
        y,
        z,
    ) by {
        assert(!xs.contains(z) && z != c);
        if y == c {
            assert(lru::ahead(t, c, z));
        } else {
            assert(xs[xs.index_of(y)] == y);
            assert(lru::ahead(a, y, z));
            assert(lru::ahead(t, y, z));
        }
    }
    assert forall|y: NodeId, z: NodeId|
        #![trigger lru::ahead(t, y, z)]
        order.contains(y) && order.contains(z) && !ids.contains(y) && !ids.contains(z) && !recency::was_cut(w, y)
            && !recency::was_cut(w, z) implies lru::ahead(t, y, z) == lru::ahead(order, y, z) by {
        assert(!xs.contains(y) && !xs.contains(z) && y != c && z != c);
        assert(lru::ahead(t, y, z) == lru::ahead(a, y, z));
    }
}

/// Where two lists agree on all nodes that the walk does not cut, one shows
/// what the other does.
proof fn lemma_alike(order: Seq<NodeId>, a: Seq<NodeId>, t: Seq<NodeId>, ids: Seq<NodeId>, w: Walk)
    requires
        went_in_turn(order, a, ids, w),
        forall|j: int| 0 <= j < ids.len() ==> order.contains(#[trigger] ids[j]) && !recency::was_cut(w, ids[j]),
        forall|y: NodeId, z: NodeId|
            order.contains(y) && order.contains(z) && !recency::was_cut(w, y) && !recency::was_cut(w, z)
                ==> #[trigger] lru::ahead(t, y, z) == lru::ahead(a, y, z),
    ensures
        went_in_turn(order, t, ids, w),
{
    assert forall|i: int, j: int| #![trigger ids[i], ids[j]] 0 <= i < j < ids.len() implies lru::ahead(
        t,
        ids[j],
        ids[i],
    ) by {
        assert(lru::ahead(a, ids[j], ids[i]));
        assert(lru::ahead(t, ids[j], ids[i]) == lru::ahead(a, ids[j], ids[i]));
    }
    assert forall|y: NodeId, z: NodeId|
        #![trigger ids.contains(y), order.contains(z)]
        ids.contains(y) && order.contains(z) && !ids.contains(z) && !recency::was_cut(w, z) implies lru::ahead(
        t,
        y,
        z,
    ) by {
        assert(ids[ids.index_of(y)] == y);
        assert(lru::ahead(a, y, z));
        assert(lru::ahead(t, y, z) == lru::ahead(a, y, z));
    }
    assert forall|y: NodeId, z: NodeId|
        #![trigger lru::ahead(t, y, z)]
        order.contains(y) && order.contains(z) && !ids.contains(y) && !ids.contains(z) && !recency::was_cut(w, y)
            && !recency::was_cut(w, z) implies lru::ahead(t, y, z) == lru::ahead(order, y, z) by {
        assert(lru::ahead(t, y, z) == lru::ahead(a, y, z));
    }
}

/// The full order of `t` holds what that of `st` holds, and the nodes that are
/// new in `t`, each once.
pub open spec fn lists(st: SWAState, t: SWAState) -> bool {
    &&& st.nodes.len() <= t.nodes.len() <= NodeId::MAX
    &&& t.full.no_duplicates()
    &&& forall|z: NodeId| #[trigger] t.full.contains(z) <==> st.full.contains(z) || st.nodes.len() <= z < t.nodes.len()
}

/// What the passing of `v` does to the full order.
proof fn lemma_absorbed(
    st: SWAState,
    a: SWAState,
    v: NodeId,
    total: int,
    val: Seq<i64>,
    upd: int,
    evicted: int,
    out: Freed,
)
    requires
        forall|z: NodeId| #[trigger] st.full.contains(z) ==> z < st.nodes.len(),
        lists(st, a),
        a.full.contains(v),
        a.nodes.len() < NodeId::MAX,
    ensures
        ({
            let t = a.absorb(v, total, val, upd, evicted, out).0;
            &&& lists(st, t)
            &&& t.nodes.len() == a.nodes.len() || (t.nodes.len() == a.nodes.len() + 1 && total < evicted < total + a.run(
                v,
            ).len())
            &&& in_front(a.full, v) ==> in_front(t.full, v)
            &&& forall|y: NodeId, z: NodeId|
                a.full.contains(y) && a.full.contains(z) && y != v && z != v ==> #[trigger] lru::ahead(t.full, y, z)
                    == lru::ahead(a.full, y, z)
        }),
{
    let t = a.absorb(v, total, val, upd, evicted, out).0;
    let f = a.nodes.len() as NodeId;
    assert(v < a.nodes.len());
    assert(!a.full.contains(f));
    lru::lemma_with_pair(a.full, v, f);
    lru::law_pair_order(a.full, v, f);
    assert(t.full == a.full || t.full == lru::with_pair(a.full, v, f));
    if t.full == lru::with_pair(a.full, v, f) {
        assert forall|z: NodeId| #![trigger t.full.contains(z)] t.full.contains(z) && z != v implies lru::ahead(
            t.full,
            v,
            z,
        ) by {
            if z != f {
                assert(a.full.contains(z));
            }
        }
    }
}

/// Nodes of a window tree met one after the other.
#[verifier::spinoff_prover]
#[verifier::rlimit(40)]
proof fn lemma_met(st: SWAState, chain: Seq<NodeId>, k: nat, val: Seq<i64>, upd: int, evicted: int, w: Walk)
    requires
        st.full.no_duplicates(),
        st.nodes.len() + 1 < NodeId::MAX,
        forall|z: NodeId| #[trigger] st.full.contains(z) ==> z < st.nodes.len(),
        chain.no_duplicates(),
        forall|j: int| 0 <= j < chain.len() ==> st.full.contains(#[trigger] chain[j]),
        k <= chain.len(),
    ensures
        ({
            let (t, out, total) = st.met(chain, k, val, upd, evicted);
            &&& lists(st, t)
            &&& t.nodes.len() <= st.nodes.len() + 1
            &&& t.nodes.len() > st.nodes.len() ==> evicted < total
            &&& went_in_turn(st.full, t.full, chain.take(k as int), w)
            &&& k > 0 ==> in_front(t.full, chain[k - 1])
        }),
    decreases k,
{
    let xs = chain.take(k as int);
    if k == 0 {
        assert(xs.len() == 0);
    } else {
        let before = chain.take(k - 1);
        let c = chain[k - 1];
        lemma_met(st, chain, (k - 1) as nat, val, upd, evicted, w);
        let (a, out, total) = st.met(chain, (k - 1) as nat, val, upd, evicted);
        let b = a.passed(c);
        let (t, o) = b.absorb(c, total, val.skip(total), upd, evicted, out);
        assert(st.full.contains(chain[k - 1]));
        assert(a.full.contains(c));
        lru::law_touch_keeps_members(a.full, c);
        lru::law_touch_order(a.full, c);
        assert(lists(st, b));
        assert(in_front(b.full, c)) by {
            assert forall|z: NodeId| #![trigger b.full.contains(z)] b.full.contains(z) && z != c implies lru::ahead(
                b.full,
                c,
                z,
            ) by {
                assert(a.full.contains(z));
            }
        }
        lemma_absorbed(st, b, c, total, val.skip(total), upd, evicted, out);
        assert(b.run(c) == a.run(c));
        assert(!before.contains(c)) by {
            if before.contains(c) {
                assert(chain[before.index_of(c)] == c);
            }
        }
        assert forall|j: int| 0 <= j < before.len() implies st.full.contains(#[trigger] before[j]) by {
            assert(before[j] == chain[j]);
        }
        assert forall|z: NodeId| st.full.contains(z) && z != c implies #[trigger] lru::ahead(t.full, c, z) by {
            assert(t.full.contains(z));
        }
        assert forall|y: NodeId, z: NodeId|
            st.full.contains(y) && st.full.contains(z) && y != c && z != c implies #[trigger] lru::ahead(t.full, y, z)
            == lru::ahead(a.full, y, z) by {
            assert(b.full.contains(y) && b.full.contains(z));
            assert(lru::ahead(b.full, y, z) == lru::ahead(a.full, y, z));
        }
        lemma_next(st.full, a.full, t.full, before, c, w);
        assert(xs =~= before.push(c));
    }
}

/// An insert into a window tree makes the nodes it passes recent in turn in
/// the full order. Where it cuts no node for its key, the node it ends at is
/// the most recently used one. The order among the other nodes is as it was,
/// but for a node that the insert cuts.
#[verifier::spinoff_prover]
#[verifier::rlimit(60)]
pub proof fn law_swa_insert_refreshes(st: SWAState, key: RadixKey, value: Seq<i64>, upd: int, evicted: int)
    requires
        st.wf(),
        st.nodes.len() + 4 <= NodeId::MAX,
        st.names.len() < u32::MAX,
        !st.disable,
        st.frame().flat(key).len() > 0,
    ensures
        ({
            let w = st.frame().walk(key);
            let (t, freed, x) = st.after_insert(key, value, upd, evicted);
            &&& went_in_turn(st.full, t.full, w.chain, w)
            &&& w.stop is None && x != ROOT ==> in_front(t.full, x)
        }),
{
    let f = st.frame();
    let w = f.walk(key);
    let flat = f.flat(key);
    let ids = w.chain;
    let val = value.take(f.units(key));
    let base = SWAState { names: f.names_with(key), ..st };
    query::lemma_query(f, key);
    assert forall|j: int| 0 <= j < ids.len() implies st.full.contains(#[trigger] ids[j]) by {
        assert(st.shape.is_child(if j == 0 { ROOT } else { ids[j - 1] }, ids[j]));
        assert(st.node_ok(ids[j] as int));
        assert(st.live(ids[j]));
    }
    assert forall|z: NodeId| #[trigger] st.full.contains(z) implies z < st.nodes.len() by {
        assert(st.live(z));
    }
    lemma_met(base, ids, ids.len(), val, upd, evicted, w);
    assert(ids.take(ids.len() as int) =~= ids);
    let (a, out, total) = base.met(ids, ids.len(), val, upd, evicted);
    let (s, freed, p) = st.after_insert_walk(key, val, upd, evicted);
    if let Some((c, m)) = w.stop {
        assert(st.node_ok(c as int));
        assert(st.live(c));
        let n = a.nodes.len() as NodeId;
        let b = a.passed(c);
        let d = b.cut(c, m as int);
        lru::law_touch_keeps_members(a.full, c);
        lru::law_touch_order(a.full, c);
        assert(a.full.contains(c));
        assert(!b.full.contains(n)) by {
            assert(!a.full.contains(n));
        }
        lru::lemma_with_pair(b.full, c, n);
        lru::law_pair_order(b.full, c, n);
        assert(d.nodes.len() == a.nodes.len() + 1);
        assert(lists(base, d));
        lemma_absorbed(base, d, n, total, val.skip(total), upd, evicted, out);
        assert forall|j: int| 0 <= j < ids.len() implies st.full.contains(#[trigger] ids[j]) && !recency::was_cut(
            w,
            ids[j],
        ) by {
            assert(ids.contains(ids[j]));
        }
        assert forall|y: NodeId, z: NodeId|
            st.full.contains(y) && st.full.contains(z) && !recency::was_cut(w, y) && !recency::was_cut(w, z) implies
            #[trigger] lru::ahead(s.full, y, z) == lru::ahead(a.full, y, z) by {
            assert(d.full.contains(y) && d.full.contains(z));
            assert(y != n && z != n && y != c && z != c);
            assert(lru::ahead(d.full, y, z) == lru::ahead(b.full, y, z));
            assert(lru::ahead(b.full, y, z) == lru::ahead(a.full, y, z));
        }
        lemma_alike(st.full, a.full, s.full, ids, w);
        assert(lists(base, s));
    } else {
        assert(s == a);
    }
    assert(went_in_turn(st.full, s.full, ids, w));
    assert(s.nodes.len() <= st.nodes.len() + 2);
    if w.used < flat.len() && evicted != f.units(key) {
        let q = s.nodes.len() as NodeId;
        let r = (q + 1) as NodeId;
        assert(!s.full.contains(q) && !s.full.contains(r));
        assert(!st.full.contains(q) && !st.full.contains(r));
        lemma_new(s.full, q);
        let one = seq![q] + s.full;
        assert forall|y: NodeId| #[trigger] ids.contains(y) implies st.full.contains(y) by {
            assert(ids[ids.index_of(y)] == y);
        }
        lemma_front(st.full, s.full, one, ids, q, w);
        lemma_new(one, r);
        lemma_front(st.full, one, seq![r] + one, ids, r, w);
    } else if w.stop is None && p != ROOT {
        assert(ids.len() > 0);
        assert(p == ids[ids.len() - 1]);
    }
}

} // verus!
