//! Laws of the two-tier tree.

use crate::chains;
use crate::hi_model;
use crate::hi_model::{opt_take, run_or_none, HiCounter, HiNodeState, HiState};
use crate::key::RadixKey;
use crate::ns::Names;
use crate::query;
use crate::query::Frame;
use crate::topo;
use crate::topo::{NodeId, Walk, ROOT};
use crate::tree_model;
use crate::walk_laws;
use vstd::prelude::*;

verus! {

/// Two states of one tree that hold the same runs.
pub open spec fn same_runs(a: HiState, b: HiState) -> bool {
    &&& a.shape == b.shape
    &&& a.nodes.len() == b.nodes.len()
    &&& forall|i: int|
        0 <= i < a.nodes.len() ==> (#[trigger] b.nodes[i]).value == a.nodes[i].value && b.nodes[i].host
            == a.nodes[i].host
}

/// A visit changes no run.
pub(crate) proof fn lemma_stamped(st: HiState, ids: Seq<NodeId>, now: u64)
    requires
        forall|k: int| 0 <= k < ids.len() ==> (#[trigger] ids[k]) < st.nodes.len(),
    ensures
        same_runs(st, st.stamped(ids, now)),
        st.stamped(ids, now).names == st.names,
        st.stamped(ids, now).clock == st.clock,
        st.stamped(ids, now).is_eagle == st.is_eagle,
    decreases ids.len(),
{
    if ids.len() > 0 {
        assert forall|k: int| 0 <= k < ids.drop_last().len() implies (#[trigger] ids.drop_last()[k])
            < st.nodes.len() by {
            assert(ids[k] < st.nodes.len());
        }
        lemma_stamped(st, ids.drop_last(), now);
        assert(ids[ids.len() - 1] < st.nodes.len());
    }
}

/// Equal runs are gathered alike.
proof fn lemma_gathered_same(a: HiState, b: HiState, ids: Seq<NodeId>)
    requires
        forall|k: int|
            0 <= k < ids.len() ==> b.nodes[(#[trigger] ids[k]) as int].value == a.nodes[ids[k] as int].value,
    ensures
        a.gathered(ids) == b.gathered(ids),
    decreases ids.len(),
{
    if ids.len() > 0 {
        let front = ids.drop_last();
        assert forall|k: int| 0 <= k < front.len() implies b.nodes[(#[trigger] front[k]) as int].value
            == a.nodes[front[k] as int].value by {
            assert(front[k] == ids[k]);
        }
        lemma_gathered_same(a, b, front);
        let last = ids[ids.len() - 1];
        assert(b.nodes[last as int].value == a.nodes[last as int].value);
    }
}

/// The run of `x` once an insert has come to it with `run`.
spec fn filled(old_run: Option<Seq<i64>>, run: Seq<i64>) -> Option<Seq<i64>> {
    match old_run {
        Some(v) => Some(v),
        None => Some(run),
    }
}

/// A device run of `ids[j]` is as long as its edge, and hangs below a live
/// node.
pub open spec fn in_place(st: HiState, ids: Seq<NodeId>, j: int) -> bool {
    &&& ids[j] < st.nodes.len()
    &&& st.shape.units(ids[j] as int) >= 0
    &&& st.nodes[ids[j] as int].value matches Some(v) ==> {
        &&& v.len() == st.shape.units(ids[j] as int)
        &&& j > 0 ==> st.nodes[ids[j - 1] as int].value is Some
    }
}

/// `ids[j]` holds its run of `st`, or its part of `val` if it had none.
spec fn fills(st: HiState, t: HiState, ids: Seq<NodeId>, val: Seq<i64>, j: int) -> bool {
    t.nodes[ids[j] as int].value == filled(
        st.nodes[ids[j] as int].value,
        val.subrange(chains::tokens(st.shape, ids, j), chains::tokens(st.shape, ids, j + 1)),
    )
}

/// The tokens before a node and those before the next.
proof fn lemma_at(st: HiState, ids: Seq<NodeId>, j: int)
    requires
        0 <= j < ids.len(),
        forall|i: int| 0 <= i < ids.len() ==> #[trigger] in_place(st, ids, i),
    ensures
        0 <= chains::tokens(st.shape, ids, j),
        chains::tokens(st.shape, ids, j + 1) == chains::tokens(st.shape, ids, j) + st.shape.units(ids[j] as int),
        chains::tokens(st.shape, ids, j + 1) <= chains::tokens(st.shape, ids, ids.len() as int),
{
    assert forall|n: int| 0 <= n < ids.len() implies st.shape.units((#[trigger] ids[n]) as int) >= 0 by {
        assert(in_place(st, ids, n));
    }
    chains::lemma_tokens_le(st.shape, ids, 0, j);
    chains::lemma_tokens_le(st.shape, ids, j + 1, ids.len() as int);
}

/// What an insert leaves in the nodes it comes past.
proof fn lemma_met_all(
    st: HiState,
    chain: Seq<NodeId>,
    k: nat,
    val: Seq<i64>,
    now: u64,
    priority: i32,
    chunked: bool,
)
    requires
        k <= chain.len(),
        chain.no_duplicates(),
        forall|j: int| 0 <= j < chain.len() ==> #[trigger] in_place(st, chain, j),
        chains::tokens(st.shape, chain, chain.len() as int) <= val.len(),
    ensures
        ({
            let (t, due, n) = st.met_all(chain, k, val, now, priority, chunked);
            &&& t.shape == st.shape
            &&& t.names == st.names
            &&& t.clock == st.clock
            &&& t.is_eagle == st.is_eagle
            &&& t.disable == st.disable
            &&& t.nodes.len() == st.nodes.len()
            &&& n == st.gathered(chain.take(k as int)).len()
            &&& forall|j: int| 0 <= j < k ==> #[trigger] fills(st, t, chain, val, j)
            &&& forall|i: int|
                0 <= i < st.nodes.len() && !chain.take(k as int).contains(i as NodeId) ==> (#[trigger] t.nodes[i])
                    == st.nodes[i]
        }),
    decreases k,
{
    if k > 0 {
        lemma_met_all(st, chain, (k - 1) as nat, val, now, priority, chunked);
        let (p, due, n) = st.met_all(chain, (k - 1) as nat, val, now, priority, chunked);
        let (t, due2, n2) = st.met_all(chain, k, val, now, priority, chunked);
        let x = chain[k - 1];
        let front = chain.take(k - 1);
        let all = chain.take(k as int);
        chains::lemma_not_before(chain, k - 1);
        assert(in_place(st, chain, k - 1));
        lemma_at(st, chain, k - 1);
        assert(p.nodes[x as int] == st.nodes[x as int]);
        assert(all.drop_last() =~= front);
        assert(all.last() == x);
        assert(all[k - 1] == x);
        assert forall|i: int| 0 <= i < st.nodes.len() && !all.contains(i as NodeId) implies (
        #[trigger] t.nodes[i]) == st.nodes[i] by {
            assert(all.contains(x));
            if front.contains(i as NodeId) {
                let j = front.index_of(i as NodeId);
                assert(all[j] == i as NodeId);
            }
        }
        assert forall|j: int| 0 <= j < k implies #[trigger] fills(st, t, chain, val, j) by {
            if j < k - 1 {
                assert(fills(st, p, chain, val, j));
                assert(chain[j] != chain[k - 1]);
                assert(in_place(st, chain, j));
            }
        }
    } else {
        assert(chain.take(0) =~= Seq::<NodeId>::empty());
    }
}

/// Nodes filled up with `val` where they had no run give what they had, and
/// then `val` from there on.
proof fn lemma_filled(a: HiState, t: HiState, ids: Seq<NodeId>, val: Seq<i64>, k: int)
    requires
        0 <= k <= ids.len(),
        forall|j: int| 0 <= j < ids.len() ==> #[trigger] in_place(a, ids, j),
        chains::tokens(a.shape, ids, ids.len() as int) <= val.len(),
        forall|j: int| 0 <= j < ids.len() ==> #[trigger] fills(a, t, ids, val, j),
    ensures
        ({
            let had = a.gathered(ids.take(k));
            let at = chains::tokens(a.shape, ids, k);
            &&& had.len() <= at <= val.len()
            &&& k > 0 && a.nodes[ids[k - 1] as int].value is Some ==> had.len() == at
            &&& t.gathered(ids.take(k)) == had + val.subrange(had.len() as int, at)
        }),
    decreases k,
{
    if k > 0 {
        lemma_filled(a, t, ids, val, k - 1);
        let x = ids[k - 1];
        assert(ids.take(k).drop_last() =~= ids.take(k - 1));
        assert(ids.take(k).last() == x);
        assert(in_place(a, ids, k - 1));
        assert(fills(a, t, ids, val, k - 1));
        lemma_at(a, ids, k - 1);
        let at = chains::tokens(a.shape, ids, k - 1);
        let had = a.gathered(ids.take(k - 1));
        match a.nodes[x as int].value {
            Some(v) => {
                assert(had.len() == at);
                assert(t.gathered(ids.take(k)) =~= a.gathered(ids.take(k)) + val.subrange(
                    at + v.len(),
                    at + v.len(),
                ));
            },
            None => {
                let run = val.subrange(at, chains::tokens(a.shape, ids, k));
                assert(t.nodes[x as int].value == Some(run));
                assert(a.gathered(ids.take(k)) =~= had);
                assert(t.gathered(ids.take(k)) =~= had + val.subrange(
                    had.len() as int,
                    chains::tokens(a.shape, ids, k),
                ));
            },
        }
    } else {
        assert(ids.take(0) =~= Seq::<NodeId>::empty());
        assert(t.gathered(ids.take(0)) =~= Seq::<i64>::empty() + val.subrange(0, 0));
    }
}

/// A node that a key passes holds its run, below a live node.
proof fn lemma_walk_in_place(st: HiState, key: RadixKey, j: int)
    requires
        st.wf(),
        0 <= j < st.frame().walk(key).chain.len(),
    ensures
        in_place(st, st.frame().walk(key).chain, j),
{
    let chain = st.frame().walk(key).chain;
    query::lemma_query(st.frame(), key);
    let c = chain[j];
    assert(st.shape.is_child(if j == 0 { ROOT } else { chain[j - 1] }, c));
    assert(st.node_ok(c as int));
    chains::lemma_units(st.shape, c as int);
}

/// What a match leaves in the nodes `chain` that it passes and in the front
/// part of the node where it stops.
pub open spec fn seen(st: HiState, chain: Seq<NodeId>, stop: Option<(NodeId, nat)>, a: HiState, ids: Seq<NodeId>) -> bool {
    let n = chain.len() as int;
    &&& a.nodes.len() == (if stop is Some {
        st.nodes.len() + 1
    } else {
        st.nodes.len()
    })
    &&& a.is_eagle == st.is_eagle
    &&& a.shape == (match stop {
        Some((c, m)) => st.shape.split(c, m as int),
        None => st.shape,
    })
    &&& ids == (match stop {
        Some((c, m)) => chain.push(st.nodes.len() as NodeId),
        None => chain,
    })
    &&& forall|j: int| 0 <= j < ids.len() ==> #[trigger] in_place(a, ids, j)
    &&& forall|j: int|
        0 <= j < n ==> a.nodes[(#[trigger] chain[j]) as int].value == st.nodes[chain[j] as int].value
    &&& forall|j: int|
        0 <= j <= n ==> #[trigger] chains::tokens(a.shape, ids, j) == chains::tokens(st.shape, chain, j)
    &&& stop matches Some((c, m)) ==> {
        &&& a.shape.units(st.nodes.len() as int) == m as int / st.shape.unit as int
        &&& a.nodes[st.nodes.len() as int].value == opt_take(
            st.nodes[c as int].value,
            m as int / st.shape.unit as int,
        )
    }
}

proof fn lemma_seen_whole(st: HiState, chain: Seq<NodeId>, names: Seq<Names>)
    requires
        forall|j: int| 0 <= j < chain.len() ==> #[trigger] in_place(st, chain, j),
        st.nodes.len() > 0,
    ensures
        ({
            let w = Walk { chain, stop: None, used: 0 };
            let (a, ids, splits) = st.after_walk(ROOT, w, names);
            seen(st, chain, None, a, ids)
        }),
{
    let now = (st.clock + 1) as u64;
    let base = HiState { names, clock: now, ..st };
    let path = seq![ROOT] + chain;
    assert forall|k: int| 0 <= k < path.len() implies (#[trigger] path[k]) < st.nodes.len() by {
        if k > 0 {
            assert(in_place(st, chain, k - 1));
        }
    }
    lemma_stamped(base, path, now);
    let a = base.stamped(path, now);
    assert forall|j: int| 0 <= j < chain.len() implies #[trigger] in_place(a, chain, j) by {
        assert(in_place(st, chain, j));
        if j > 0 {
            assert(in_place(st, chain, j - 1));
        }
    }
    assert forall|j: int| 0 <= j < chain.len() implies a.nodes[(#[trigger] chain[j]) as int].value
        == st.nodes[chain[j] as int].value by {
        assert(in_place(st, chain, j));
    }
}

proof fn lemma_seen_part(st: HiState, chain: Seq<NodeId>, c: NodeId, m: nat, names: Seq<Names>)
    requires
        st.wf(),
        st.nodes.len() < NodeId::MAX,
        forall|j: int| 0 <= j < chain.len() ==> #[trigger] in_place(st, chain, j),
        !chain.contains(c),
        st.shape.is_child(topo::end_of(chain), c),
        0 < m < st.shape.nodes[c as int].key.len(),
        st.shape.aligned(m as int),
    ensures
        ({
            let w = Walk { chain, stop: Some((c, m)), used: 0 };
            let (a, ids, splits) = st.after_walk(ROOT, w, names);
            seen(st, chain, Some((c, m)), a, ids)
        }),
{
    let now = (st.clock + 1) as u64;
    let base = HiState { names, clock: now, ..st };
    let path = (seq![ROOT] + chain).push(c);
    let n = chain.len() as int;
    assert forall|k: int| 0 <= k < path.len() implies (#[trigger] path[k]) < st.nodes.len() by {
        if 0 < k <= n {
            assert(in_place(st, chain, k - 1));
        }
    }
    lemma_stamped(base, path, now);
    let b = base.stamped(path, now);
    let a = b.cut(c, m as int);
    let g = st.nodes.len() as NodeId;
    let ids = chain.push(g);
    let u = m as int / st.shape.unit as int;
    assert(st.node_ok(c as int));
    assert(st.shape.hangs(c as int));
    topo::lemma_chunk(st.shape);
    vstd::arithmetic::div_mod::lemma_small_mod(0, st.shape.chunk());
    topo::lemma_aligned(st.shape, st.shape.nodes[c as int].key.len() as int, m as int);
    topo::lemma_aligned(st.shape, m as int, 0);
    tree_model::lemma_halves(st.shape.nodes[c as int].key.len() as int, m as int, st.shape.unit as int);
    assert(a.shape.units(g as int) == u);
    assert forall|j: int| 0 <= j < n implies ids[j] == (#[trigger] chain[j]) && a.shape.units(chain[j] as int)
        == st.shape.units(chain[j] as int) && a.nodes[chain[j] as int].value
        == st.nodes[chain[j] as int].value by {
        assert(in_place(st, chain, j));
        assert(chain.contains(chain[j]));
    }
    assert forall|j: int| 0 <= j <= n implies #[trigger] chains::tokens(a.shape, ids, j) == chains::tokens(
        st.shape,
        chain,
        j,
    ) by {
        chains::lemma_tokens_alike(st.shape, a.shape, chain, ids, j);
    }
    assert forall|j: int| 0 <= j < ids.len() implies #[trigger] in_place(a, ids, j) by {
        if j < n {
            assert(in_place(st, chain, j));
            assert(ids[j] == chain[j]);
            if j > 0 {
                assert(in_place(st, chain, j - 1));
                assert(ids[j - 1] == chain[j - 1]);
            }
        } else if n > 0 {
            assert(ids[n - 1] == chain[n - 1]);
        }
    }
}

/// What a match of `key` leaves in the nodes it comes past.
pub(crate) proof fn lemma_visited(st: HiState, key: RadixKey)
    requires
        st.wf(),
        st.roomy(),
    ensures
        ({
            let w = st.frame().walk(key);
            let (a, ids, splits) = st.after_walk(ROOT, w, st.frame().names_with(key));
            &&& seen(st, w.chain, w.stop, a, ids)
            &&& forall|j: int| 0 <= j < w.chain.len() ==> #[trigger] in_place(st, w.chain, j)
            &&& chains::tokens(a.shape, ids, ids.len() as int) == st.frame().prefix_len(key)
        }),
{
    let f = st.frame();
    let w = f.walk(key);
    assert forall|j: int| 0 <= j < w.chain.len() implies #[trigger] in_place(st, w.chain, j) by {
        lemma_walk_in_place(st, key, j);
    }
    match w.stop {
        None => {
            lemma_seen_whole(st, w.chain, f.names_with(key));
            chains::lemma_key_tokens(f, key);
        },
        Some((c, m)) => {
            query::lemma_query(f, key);
            lemma_seen_part(st, w.chain, c, m, f.names_with(key));
            chains::lemma_key_tokens(f, key);
            let (a, ids, splits) = st.after_walk(ROOT, w, f.names_with(key));
            let n = w.chain.len() as int;
            assert(chains::tokens(a.shape, ids, n) == chains::tokens(st.shape, w.chain, n));
            assert(ids[n] == st.nodes.len());
            assert(chains::tokens(a.shape, ids, n + 1) == chains::tokens(a.shape, ids, n) + a.shape.units(
                ids[n] as int,
            ));
        },
    }
}

/// What the walk of an insert leaves in the nodes it comes past, against
/// what a match leaves there.
proof fn lemma_insert_walk(st: HiState, key: RadixKey, val: Seq<i64>, priority: i32, chunked: bool)
    requires
        st.wf(),
        st.roomy(),
        val.len() == st.frame().units(key),
    ensures
        ({
            let w = st.frame().walk(key);
            let (a, ids, splits) = st.after_walk(ROOT, w, st.frame().names_with(key));
            let (t, r) = st.after_insert_walk(key, val, priority, chunked);
            &&& t.shape == a.shape
            &&& t.names == st.frame().names_with(key)
            &&& t.is_eagle == st.is_eagle
            &&& t.disable == st.disable
            &&& t.clock <= st.clock + 2
            &&& t.nodes.len() == t.shape.nodes.len()
            &&& t.nodes.len() == a.nodes.len()
            &&& r.node == topo::end_of(ids)
            &&& r.prefix == a.gathered(ids).len()
            &&& forall|j: int| 0 <= j < ids.len() ==> #[trigger] fills(a, t, ids, val, j)
        }),
{
    let f = st.frame();
    let w = f.walk(key);
    let chain = w.chain;
    let n = chain.len() as int;
    let (a, ids, splits) = st.after_walk(ROOT, w, f.names_with(key));
    let (t, r) = st.after_insert_walk(key, val, priority, chunked);
    let now = (st.clock + 1) as u64;
    let base = HiState { names: f.names_with(key), clock: now, ..st };
    query::lemma_query(f, key);
    chains::lemma_key_tokens(f, key);
    lemma_visited(st, key);
    assert forall|j: int| 0 <= j < n implies #[trigger] in_place(base, chain, j) by {
        assert(in_place(st, chain, j));
    }
    lemma_met_all(base, chain, chain.len(), val, now, priority, chunked);
    let (b, due, had) = base.met_all(chain, chain.len(), val, now, priority, chunked);
    assert(chain.take(n) =~= chain);
    assert forall|j: int| 0 <= j < n implies a.nodes[(#[trigger] chain[j]) as int].value
        == base.nodes[chain[j] as int].value by {
        assert(in_place(st, chain, j));
    }
    lemma_gathered_same(base, a, chain);
    assert forall|j: int| 0 <= j < n implies b.nodes[(#[trigger] chain[j]) as int].value == filled(
        a.nodes[chain[j] as int].value,
        val.subrange(chains::tokens(a.shape, ids, j), chains::tokens(a.shape, ids, j + 1)),
    ) by {
        assert(fills(base, b, chain, val, j));
        assert(chains::tokens(a.shape, ids, j) == chains::tokens(st.shape, chain, j));
        assert(chains::tokens(a.shape, ids, j + 1) == chains::tokens(st.shape, chain, j + 1));
    }
    match w.stop {
        None => {
            assert forall|j: int| 0 <= j < ids.len() implies #[trigger] fills(a, t, ids, val, j) by {
                assert(ids[j] == chain[j]);
            }
        },
        Some((c, m)) => {
            let g = st.nodes.len() as NodeId;
            let at = chains::tokens(st.shape, chain, n);
            let run = val.subrange(at, f.prefix_len(key));
            assert(!chain.take(n).contains(c));
            assert(b.nodes[c as int] == base.nodes[c as int]);
            let d = b.raised(c, now, priority).cut(c, m as int);
            assert(d.nodes[g as int].value == a.nodes[g as int].value);
            assert(chains::tokens(a.shape, ids, n) == at);
            assert(chains::tokens(a.shape, ids, n + 1) == f.prefix_len(key));
            assert(ids.drop_last() =~= chain);
            assert(ids.last() == g);
            assert(in_place(a, ids, n));
            assert(a.gathered(ids) == a.gathered(chain) + run_or_none(a.nodes[g as int].value));
            assert forall|j: int| 0 <= j < ids.len() implies #[trigger] fills(a, t, ids, val, j) by {
                if j < n {
                    assert(in_place(st, chain, j));
                    assert(ids[j] == chain[j]);
                    assert(chain.contains(chain[j]));
                    assert(t.nodes[chain[j] as int].value == b.nodes[chain[j] as int].value);
                } else {
                    assert(ids[j] == g);
                }
            }
        },
    }
}

/// Visited nodes of which the last holds a device run.
proof fn lemma_live_end(st: HiState, ids: Seq<NodeId>, names: Seq<Names>, used: nat)
    requires
        forall|j: int| 0 <= j < ids.len() ==> (#[trigger] ids[j]) < st.nodes.len(),
        st.nodes.len() > 0,
        ids.len() > 0,
        st.nodes[ids.last() as int].value is Some,
    ensures
        ({
            let (a, seen, splits) = st.after_walk(ROOT, Walk { chain: ids, stop: None, used }, names);
            &&& seen == ids
            &&& splits.len() == 0
            &&& a.gathered(ids) == st.gathered(ids)
            &&& a.device_end(ids) == (ids.last(), 0int)
        }),
{
    let now = (st.clock + 1) as u64;
    let base = HiState { names, clock: now, ..st };
    let path = seq![ROOT] + ids;
    assert forall|k: int| 0 <= k < path.len() implies (#[trigger] path[k]) < st.nodes.len() by {
        if k > 0 {
            assert(path[k] == ids[k - 1]);
        }
    }
    lemma_stamped(base, path, now);
    let a = base.stamped(path, now);
    assert forall|k: int| 0 <= k < ids.len() implies a.nodes[(#[trigger] ids[k]) as int].value
        == st.nodes[ids[k] as int].value by {
        assert(ids[k] < st.nodes.len());
    }
    lemma_gathered_same(st, a, ids);
    assert(ids[ids.len() - 1] < st.nodes.len());
}

/// The nodes of an inserted key and what they hold.
proof fn lemma_inserted(st: HiState, key: RadixKey, value: Seq<i64>, priority: i32, chunked: bool)
    requires
        st.wf(),
        st.roomy(),
        !st.disable,
        st.frame().flat(key).len() > 0,
        value.len() >= st.frame().units(key),
    ensures
        ({
            let f = st.frame();
            let w = f.walk(key);
            let flat = f.flat(key);
            let (a, ids, splits) = st.after_walk(ROOT, w, f.names_with(key));
            let had = a.gathered(ids);
            let (t, r) = st.after_insert(key, value, priority, chunked);
            let seen = walk_laws::chain_with(f.shape, w, flat);
            &&& t.frame() == (Frame {
                shape: walk_laws::shape_with(f.shape, ROOT, w, f.ns_of(key), flat),
                names: f.names_with(key),
                is_eagle: f.is_eagle,
            })
            &&& !t.disable
            &&& r.prefix == had.len()
            &&& had.len() <= f.units(key)
            &&& t.gathered(seen) == had + value.take(f.units(key)).skip(had.len() as int)
            &&& seen.len() > 0
            &&& r.node == seen.last()
            &&& forall|j: int| 0 <= j < seen.len() ==> (#[trigger] seen[j]) < t.nodes.len()
            &&& t.nodes[seen.last() as int].value is Some
        }),
{
    let f = st.frame();
    let w = f.walk(key);
    let flat = f.flat(key);
    let units = f.units(key);
    let val = value.take(units);
    let (t, r) = st.after_insert(key, value, priority, chunked);
    let (a, ids, splits) = st.after_walk(ROOT, w, f.names_with(key));
    let (b, rb) = st.after_insert_walk(key, val, priority, chunked);
    let had = a.gathered(ids);
    let seen = walk_laws::chain_with(f.shape, w, flat);
    walk_laws::lemma_lengths(f, key);
    lemma_visited(st, key);
    lemma_insert_walk(st, key, val, priority, chunked);
    lemma_filled(a, b, ids, val, ids.len() as int);
    assert(ids.take(ids.len() as int) =~= ids);
    assert forall|j: int| 0 <= j < ids.len() implies (#[trigger] ids[j]) < b.nodes.len()
        && b.nodes[ids[j] as int].value is Some by {
        assert(in_place(a, ids, j));
        assert(fills(a, b, ids, val, j));
    }
    if w.used < flat.len() {
        let g = b.nodes.len() as NodeId;
        assert(seen == ids.push(g));
        assert(seen.drop_last() =~= ids);
        assert forall|k: int| 0 <= k < ids.len() implies t.nodes[(#[trigger] ids[k]) as int].value
            == b.nodes[ids[k] as int].value by {
            assert(ids[k] < b.nodes.len());
        }
        lemma_gathered_same(b, t, ids);
        assert(t.nodes[g as int].value == Some(val.skip(f.prefix_len(key))));
        assert(t.gathered(seen) =~= had + val.skip(had.len() as int));
    } else {
        assert(seen == ids);
        assert(t.gathered(seen) =~= had + val.skip(had.len() as int));
        if ids.len() == 0 {
            assert(chains::tokens(a.shape, ids, 0) == 0);
        }
        assert(ids[ids.len() - 1] < b.nodes.len());
    }
}

/// An inserted key is on the device: a match finds what it found there
/// before, then the inserted tokens, all of them, and ends where the insert
/// did. The insert reports as present what that match had found.
pub proof fn law_insert_then_match(st: HiState, key: RadixKey, value: Seq<i64>, priority: i32, chunked: bool)
    requires
        st.wf(),
        st.roomy(),
        !st.disable,
        st.frame().fits(key),
        value.len() >= st.frame().units(key),
    ensures
        ({
            let before = st.after_match(key).1;
            let (t, r) = st.after_insert(key, value, priority, chunked);
            let after = t.after_match(key).1;
            let val = value.take(st.frame().units(key));
            &&& r.prefix == before.indices.len()
            &&& after.indices == before.indices + val.skip(before.indices.len() as int)
            &&& after.indices.len() == st.frame().units(key)
            &&& after.device_node == r.node
            &&& after.host_len == 0
            &&& after.splits.len() == 0
        }),
{
    let f = st.frame();
    let w = f.walk(key);
    let flat = f.flat(key);
    let val = value.take(f.units(key));
    let (t, r) = st.after_insert(key, value, priority, chunked);
    walk_laws::lemma_lengths(f, key);
    if flat.len() == 0 {
        assert(Seq::<i64>::empty() + val.skip(0) =~= Seq::<i64>::empty());
    } else {
        lemma_inserted(st, key, value, priority, chunked);
        walk_laws::law_added_key_is_found(f, t.frame(), key);
        let seen = walk_laws::chain_with(f.shape, w, flat);
        lemma_live_end(t, seen, t.frame().names_with(key), flat.len());
    }
}

/// Nodes with the same runs end a match alike.
proof fn lemma_ends_same(a: HiState, b: HiState, ids: Seq<NodeId>)
    requires
        same_runs(a, b),
        forall|k: int| 0 <= k < ids.len() ==> (#[trigger] ids[k]) < a.nodes.len(),
    ensures
        b.gathered(ids) == a.gathered(ids),
        b.device_end(ids) == a.device_end(ids),
        b.host_end(ids) == a.host_end(ids),
    decreases ids.len(),
{
    if ids.len() > 0 {
        let front = ids.drop_last();
        assert forall|k: int| 0 <= k < front.len() implies (#[trigger] front[k]) < a.nodes.len() by {
            assert(front[k] == ids[k]);
        }
        lemma_ends_same(a, b, front);
        assert(ids[ids.len() - 1] < a.nodes.len());
        assert(b.nodes[ids.last() as int].value == a.nodes[ids.last() as int].value);
    }
}

/// A match that is repeated finds the same, and cuts nothing more.
pub proof fn law_match_again(st: HiState, key: RadixKey)
    requires
        st.wf(),
        st.roomy(),
    ensures
        ({
            let (t, r) = st.after_match(key);
            t.after_match(key).1 == (hi_model::HiMatched { splits: Seq::empty(), ..r })
        }),
{
    if !(st.disable || st.frame().flat(key).len() == 0) {
        let f = st.frame();
        let w = f.walk(key);
        let (a, ids, splits) = st.after_walk(ROOT, w, f.names_with(key));
        lemma_visited(st, key);
        assert(a.names == f.names_with(key) && a.disable == st.disable) by {
            lemma_walk_frame(st, w, f.names_with(key));
        }
        walk_laws::lemma_walk_again(f, a.frame(), key);
        let now = (a.clock + 1) as u64;
        let base = HiState { names: a.frame().names_with(key), clock: now, ..a };
        let all = seq![ROOT] + ids;
        assert forall|k: int| 0 <= k < all.len() implies (#[trigger] all[k]) < base.nodes.len() by {
            if k > 0 {
                assert(all[k] == ids[k - 1]);
                assert(in_place(a, ids, k - 1));
            }
        }
        lemma_stamped(base, all, now);
        let b = base.stamped(all, now);
        assert(same_runs(a, b));
        assert forall|k: int| 0 <= k < ids.len() implies (#[trigger] ids[k]) < a.nodes.len() by {
            assert(in_place(a, ids, k));
        }
        lemma_ends_same(a, b, ids);
    }
}

/// A visit leaves the names and the switches alone.
proof fn lemma_walk_frame(st: HiState, w: Walk, names: Seq<Names>)
    ensures
        st.after_walk(ROOT, w, names).0.names == names,
        st.after_walk(ROOT, w, names).0.disable == st.disable,
{
    let now = (st.clock + 1) as u64;
    let base = HiState { names, clock: now, ..st };
    match w.stop {
        None => lemma_stamped_frame(base, seq![ROOT] + w.chain, now),
        Some((c, m)) => lemma_stamped_frame(base, (seq![ROOT] + w.chain).push(c), now),
    }
}

proof fn lemma_stamped_frame(st: HiState, ids: Seq<NodeId>, now: u64)
    ensures
        st.stamped(ids, now).names == st.names,
        st.stamped(ids, now).disable == st.disable,
    decreases ids.len(),
{
    if ids.len() > 0 {
        lemma_stamped_frame(st, ids.drop_last(), now);
    }
}

/// Locking a node and taking the lock off again gives the tree back.
pub proof fn law_lock_then_unlock(st: HiState, node: NodeId)
    requires
        st.wf(),
        st.lockable(node),
        st.live(node),
    ensures
        st.after_lock(node).unlockable(node),
        st.after_lock(node).after_unlock(node) == st,
{
    let t = st.after_lock(node);
    hi_model::lemma_up_live(st, node);
    if !st.disable {
        let up = st.shape.up(node);
        assert forall|k: int| 0 <= k < up.len() implies t.nodes[(#[trigger] up[k]) as int].lock > 0 by {
            assert(st.live(up[k]));
            assert(up.contains(up[k]));
        }
        assert forall|i: int| 0 <= i < st.nodes.len() implies t.after_unlock(node).nodes[i] == st.nodes[i] by {
            if up.contains(i as NodeId) {
                let k = up.index_of(i as NodeId);
                assert(st.nodes[up[k] as int].lock < u32::MAX);
            }
        }
        assert(t.after_unlock(node).nodes =~= st.nodes);
    }
}

/// More host protections on distinct nodes.
proof fn lemma_host_held(st: HiState, ids: Seq<NodeId>, by: int)
    requires
        ids.no_duplicates(),
        st.nodes.len() <= NodeId::MAX,
        forall|k: int| 0 <= k < ids.len() ==> (#[trigger] ids[k]) < st.nodes.len(),
    ensures
        ({
            let t = st.host_held(ids, by);
            &&& t == (HiState { nodes: t.nodes, ..st })
            &&& t.nodes.len() == st.nodes.len()
            &&& forall|i: int|
                0 <= i < st.nodes.len() ==> (#[trigger] t.nodes[i]) == (if ids.contains(i as NodeId) {
                    HiNodeState { host_ref: (st.nodes[i].host_ref + by) as u32, ..st.nodes[i] }
                } else {
                    st.nodes[i]
                })
        }),
    decreases ids.len(),
{
    if ids.len() > 0 {
        let front = ids.drop_last();
        let x = ids.last();
        assert forall|k: int| 0 <= k < front.len() implies (#[trigger] front[k]) < st.nodes.len() by {
            assert(front[k] == ids[k]);
        }
        lemma_host_held(st, front, by);
        assert(ids[ids.len() - 1] < st.nodes.len());
        let t = st.host_held(ids, by);
        assert(!front.contains(x)) by {
            if front.contains(x) {
                let k = front.index_of(x);
                assert(ids[k] == ids[ids.len() - 1]);
            }
        }
        assert(front.push(x) =~= ids);
        assert forall|i: int| 0 <= i < st.nodes.len() implies (#[trigger] t.nodes[i]) == (if ids.contains(
            i as NodeId,
        ) {
            HiNodeState { host_ref: (st.nodes[i].host_ref + by) as u32, ..st.nodes[i] }
        } else {
            st.nodes[i]
        }) by {
            tree_model::lemma_push_contains(front, x, i as NodeId);
        }
    }
}

/// The demoted part of a way up is its beginning.
proof fn lemma_demoted_run(st: HiState, up: Seq<NodeId>)
    ensures
        st.demoted_run(up).len() <= up.len(),
        st.demoted_run(up) == up.take(st.demoted_run(up).len() as int),
        st.demoted_run(up).len() < up.len() ==> st.nodes[up[st.demoted_run(up).len() as int] as int].value is Some,
    decreases up.len(),
{
    if up.len() > 0 && st.nodes[up[0] as int].value is None {
        let rest = up.drop_first();
        lemma_demoted_run(st, rest);
        assert(st.demoted_run(up) =~= up.take(st.demoted_run(up).len() as int));
    }
}

/// What a load-back of `last` brings back, and the live node above it.
pub(crate) proof fn lemma_load_chain(st: HiState, last: NodeId)
    requires
        st.wf(),
        last < st.nodes.len(),
    ensures
        st.load_chain(last).no_duplicates(),
        forall|k: int| 0 <= k < st.load_chain(last).len() ==> (#[trigger] st.load_chain(last)[k]) < st.nodes.len(),
        st.live(st.load_ancestor(last)),
{
    let up = st.shape.up(last);
    let n = st.demoted_run(up).len() as int;
    let ids = st.load_chain(last);
    lemma_demoted_run(st, up);
    assert(up.no_duplicates() && forall|k: int| 0 <= k < up.len() ==> (#[trigger] up[k]) < st.nodes.len()) by {
        topo::lemma_up(st.shape, last);
    }
    assert forall|k: int| 0 <= k < ids.len() implies (#[trigger] ids[k]) < st.nodes.len() by {
        assert(ids[k] == up[n - 1 - k]);
    }
    assert forall|i: int, j: int| 0 <= i < ids.len() && 0 <= j < ids.len() && i != j implies ids[i] != ids[j] by {
        assert(ids[i] == up[n - 1 - i]);
        assert(ids[j] == up[n - 1 - j]);
    }
}

/// A load-back that is given up leaves the tree as it was before it was
/// planned.
pub proof fn law_load_given_up(st: HiState, last: NodeId, quota: Option<i64>)
    requires
        st.wf(),
        last < st.nodes.len(),
        st.nodes.len() <= NodeId::MAX,
        st.load_goes(last, quota),
        st.lockable(st.load_ancestor(last)),
        forall|k: int|
            0 <= k < st.load_chain(last).len() ==> st.nodes[(#[trigger] st.load_chain(last)[k]) as int].host_ref
                < u32::MAX,
    ensures
        st.after_init_load(last, quota).after_finish_load(st.load_ancestor(last), st.load_chain(last), None) == st,
{
    let p = st.load_ancestor(last);
    let ids = st.load_chain(last);
    let a = st.after_lock(p);
    let b = a.host_held(ids, 1);
    let c = b.after_unlock(p);
    let d = c.host_held(ids, -1);
    lemma_load_chain(st, last);
    law_lock_then_unlock(st, p);
    let e = a.after_unlock(p);
    lemma_host_held(a, ids, 1);
    lemma_host_held(c, ids, -1);
    assert forall|i: int| 0 <= i < st.nodes.len() implies #[trigger] d.nodes[i] == st.nodes[i] by {
        let m = b.nodes[i];
        assert(e.nodes[i] == st.nodes[i]);
        if ids.contains(i as NodeId) {
            let k = ids.index_of(i as NodeId);
            assert(ids[k] == i);
        }
    }
    assert(d.nodes =~= st.nodes);
}

/// Runs given to distinct nodes, one after the other.
proof fn lemma_loaded(st: HiState, ids: Seq<NodeId>, run: Seq<i64>)
    requires
        ids.no_duplicates(),
        forall|k: int|
            0 <= k < ids.len() ==> (#[trigger] ids[k]) < st.nodes.len() && st.shape.units(ids[k] as int) >= 0,
        chains::tokens(st.shape, ids, ids.len() as int) <= run.len(),
    ensures
        ({
            let t = st.loaded(ids, run);
            &&& t.shape == st.shape
            &&& t.nodes.len() == st.nodes.len()
            &&& t.gathered(ids) == run.take(chains::tokens(st.shape, ids, ids.len() as int))
            &&& forall|k: int| 0 <= k < ids.len() ==> t.nodes[(#[trigger] ids[k]) as int].value is Some
            &&& forall|i: int|
                0 <= i < st.nodes.len() && !ids.contains(i as NodeId) ==> (#[trigger] t.nodes[i]) == st.nodes[i]
        }),
    decreases ids.len(),
{
    if ids.len() > 0 {
        let n = ids.len() as int;
        let front = ids.drop_last();
        let x = ids.last();
        assert forall|k: int|
            0 <= k < front.len() implies (#[trigger] front[k]) < st.nodes.len() && st.shape.units(front[k] as int)
            >= 0 by {
            assert(front[k] == ids[k]);
        }
        chains::lemma_tokens_alike(st.shape, st.shape, front, ids, n - 1);
        chains::lemma_tokens_le(st.shape, ids, 0, n - 1);
        chains::lemma_tokens_le(st.shape, ids, n - 1, n);
        assert(ids[n - 1] == x);
        lemma_loaded(st, front, run);
        let p = st.loaded(front, run);
        let t = st.loaded(ids, run);
        assert(front.push(x) =~= ids);
        assert(!front.contains(x)) by {
            if front.contains(x) {
                let k = front.index_of(x);
                assert(ids[k] == ids[n - 1]);
            }
        }
        assert forall|k: int| 0 <= k < front.len() implies t.nodes[(#[trigger] front[k]) as int].value
            == p.nodes[front[k] as int].value by {
            assert(front.contains(front[k]));
        }
        lemma_gathered_same(p, t, front);
        let at = chains::tokens(st.shape, ids, n - 1);
        let end = chains::tokens(st.shape, ids, n);
        assert(run.take(at) + run.subrange(at, end) =~= run.take(end));
        assert forall|k: int| 0 <= k < ids.len() implies t.nodes[(#[trigger] ids[k]) as int].value is Some by {
            if k < n - 1 {
                assert(front[k] == ids[k]);
                assert(front.contains(front[k]));
            }
        }
        assert forall|i: int| 0 <= i < st.nodes.len() && !ids.contains(i as NodeId) implies (#[trigger] t.nodes[i])
            == st.nodes[i] by {
            tree_model::lemma_push_contains(front, x, i as NodeId);
        }
    } else {
        assert(st.gathered(ids) =~= run.take(0));
    }
}

/// A load-back that is carried out puts its nodes on the device with the
/// run it was given, all of it, in order.
pub proof fn law_load_done(st: HiState, ancestor: NodeId, ids: Seq<NodeId>, run: Seq<i64>)
    requires
        st.wf(),
        st.plan_ok(ancestor, ids),
        st.nodes.len() <= NodeId::MAX,
        run.len() == chains::tokens(st.shape, ids, ids.len() as int),
    ensures
        ({
            let t = st.after_finish_load(ancestor, ids, Some(run));
            &&& t.gathered(ids) == run
            &&& forall|k: int| 0 <= k < ids.len() ==> t.live(#[trigger] ids[k])
        }),
{
    let a = st.after_unlock(ancestor);
    let b = a.host_held(ids, -1);
    let c = b.loaded(ids, run);
    let t = st.after_finish_load(ancestor, ids, Some(run));
    assert forall|k: int| 0 <= k < ids.len() implies (#[trigger] ids[k]) < st.nodes.len() && st.shape.units(
        ids[k] as int,
    ) >= 0 by {
        assert(st.plan_link(ancestor, ids, k));
        chains::lemma_units(st.shape, ids[k] as int);
    }
    lemma_host_held(a, ids, -1);
    lemma_loaded(b, ids, run);
    assert(run.take(run.len() as int) =~= run);
    assert forall|k: int| 0 <= k < ids.len() implies t.nodes[(#[trigger] ids[k]) as int].value
        == c.nodes[ids[k] as int].value by {
        assert(ids[k] < st.nodes.len());
    }
    lemma_gathered_same(c, t, ids);
}

/// The member of `ids` with an id below `k` that leaves first.
proof fn lemma_first_below(st: HiState, ids: Set<NodeId>, k: NodeId) -> (r: Option<NodeId>)
    ensures
        match r {
            Some(x) => x < k && ids.contains(x) && forall|y: NodeId|
                #![trigger ids.contains(y)]
                y < k && y != x && ids.contains(y) ==> st.item(x).before(st.item(y)),
            None => forall|y: NodeId| y < k ==> !#[trigger] ids.contains(y),
        },
    decreases k,
{
    if k == 0 {
        None
    } else {
        let x = (k - 1) as NodeId;
        let r = lemma_first_below(st, ids, x);
        if !ids.contains(x) {
            r
        } else {
            match r {
                None => Some(x),
                Some(y) => if st.item(x).before(st.item(y)) {
                    Some(x)
                } else {
                    Some(y)
                },
            }
        }
    }
}

/// Where there is a node to evict, one is evicted first.
proof fn lemma_victim(st: HiState, ids: Set<NodeId>)
    requires
        st.nodes.len() <= NodeId::MAX,
        forall|y: NodeId| #[trigger] ids.contains(y) ==> y < st.nodes.len(),
    ensures
        match st.victim(ids) {
            Some(x) => ids.contains(x),
            None => forall|y: NodeId| !#[trigger] ids.contains(y),
        },
{
    let r = lemma_first_below(st, ids, st.nodes.len() as NodeId);
    match r {
        Some(x) => {
            assert forall|y: NodeId| #[trigger] ids.contains(y) && y != x implies st.item(x).before(st.item(y)) by {
                assert(y < st.nodes.len());
            }
            assert(st.first(x, ids));
        },
        None => {
            assert forall|y: NodeId| !#[trigger] ids.contains(y) by {
                if ids.contains(y) {
                    assert(y < st.nodes.len());
                }
            }
            if let Some(x) = st.victim(ids) {
                assert(st.first(x, ids));
            }
        },
    }
}

/// Where there is a leaf, one is evicted first.
proof fn lemma_leaf_victim(st: HiState)
    requires
        st.nodes.len() <= NodeId::MAX,
    ensures
        match st.victim(st.leaves()) {
            Some(x) => st.leaf(x),
            None => forall|y: NodeId| !#[trigger] st.leaf(y),
        },
{
    lemma_victim(st, st.leaves());
    if st.victim(st.leaves()) is None {
        assert forall|y: NodeId| !#[trigger] st.leaf(y) by {
            assert(!st.leaves().contains(y));
        }
    }
}

/// Where there is a host leaf, one is evicted first.
proof fn lemma_host_victim(st: HiState)
    requires
        st.nodes.len() <= NodeId::MAX,
    ensures
        match st.victim(st.host_leaves()) {
            Some(x) => st.host_leaf(x),
            None => forall|y: NodeId| !#[trigger] st.host_leaf(y),
        },
{
    lemma_victim(st, st.host_leaves());
    if st.victim(st.host_leaves()) is None {
        assert forall|y: NodeId| !#[trigger] st.host_leaf(y) by {
            assert(!st.host_leaves().contains(y));
        }
    }
}

/// An eviction takes exactly the tokens that it hands out, none of them
/// locked and no host copy, and ends because its budget is met or no leaf is
/// left.
pub proof fn law_evict(st: HiState, budget: int)
    requires
        st.wf(),
        st.nodes.len() <= NodeId::MAX,
        st.drains(budget),
    ensures
        ({
            let (t, runs) = st.after_evict(budget);
            let n = tree_model::run_total(runs);
            &&& t.wf()
            &&& n >= 0
            &&& t.count(HiCounter::Evictable) == st.count(HiCounter::Evictable) - n
            &&& t.count(HiCounter::Protected) == st.count(HiCounter::Protected)
            &&& t.host_size() == st.host_size()
            &&& n >= budget || forall|id: NodeId| !#[trigger] t.leaf(id)
            &&& t.nodes.len() == st.nodes.len()
            &&& forall|i: int|
                0 <= i < st.nodes.len() && st.nodes[i].lock > 0 ==> #[trigger] t.nodes[i] == st.nodes[i]
            &&& forall|i: int| 0 <= i < st.nodes.len() ==> (#[trigger] t.nodes[i]).host == st.nodes[i].host
        }),
    decreases st.live_count(),
{
    lemma_leaf_victim(st);
    match st.victim(st.leaves()) {
        Some(x) => {
            if budget > 0 {
                let run = st.nodes[x as int].value->0;
                let a = st.evict_step(x);
                hi_model::lemma_evict_counts(st, x);
                assert(st.node_ok(x as int));
                if st.nodes[x as int].host is Some {
                    hi_model::lemma_detached(st, x);
                } else {
                    hi_model::lemma_erased(st, x);
                    assert(a.count(HiCounter::Evictable) == st.count(HiCounter::Evictable) - st.weight(
                        HiCounter::Evictable,
                        x as int,
                    ));
                    assert(a.count(HiCounter::Protected) == st.count(HiCounter::Protected) - st.weight(
                        HiCounter::Protected,
                        x as int,
                    ));
                    assert(a.count(HiCounter::Host) == st.count(HiCounter::Host) - st.weight(
                        HiCounter::Host,
                        x as int,
                    ));
                }
                law_evict(a, budget - run.len());
                let (t, runs) = a.after_evict(budget - run.len());
                assert((seq![run] + runs).drop_first() =~= runs);
                assert forall|i: int| 0 <= i < st.nodes.len() && st.nodes[i].lock > 0 implies #[trigger] t.nodes[i]
                    == st.nodes[i] by {
                    assert(a.nodes[i] == st.nodes[i]);
                }
                assert forall|i: int| 0 <= i < st.nodes.len() implies (#[trigger] t.nodes[i]).host
                    == st.nodes[i].host by {
                    assert(a.nodes[i].host == st.nodes[i].host);
                }
            }
        },
        None => {},
    }
}

/// From `st` to `t` the nodes `ids`, each once, have left the tree, all of them
/// demoted and none protected on the host; no other node has changed.
pub open spec fn only_gone(st: HiState, t: HiState, ids: Seq<NodeId>) -> bool {
    &&& t.nodes.len() == st.nodes.len()
    &&& ids.no_duplicates()
    &&& forall|k: int|
        0 <= k < ids.len() ==> {
            &&& st.demoted(#[trigger] ids[k])
            &&& st.nodes[ids[k] as int].host_ref == 0
            &&& !t.shape.nodes[ids[k] as int].attached
        }
    &&& forall|i: int|
        0 <= i < st.nodes.len() && !ids.contains(i as NodeId) ==> (#[trigger] t.nodes[i]) == st.nodes[i]
            && t.shape.nodes[i].attached == st.shape.nodes[i].attached
}

/// One host leaf more has left.
proof fn lemma_one_more_gone(st: HiState, x: NodeId, t: HiState, ids: Seq<NodeId>)
    requires
        st.host_leaf(x),
        st.nodes.len() == st.shape.nodes.len(),
        st.nodes.len() <= NodeId::MAX,
        only_gone(st.erased(x), t, ids),
    ensures
        only_gone(st, t, seq![x] + ids),
{
    let a = st.erased(x);
    let all = seq![x] + ids;
    assert(all[0] == x);
    assert forall|k: int| 0 <= k < ids.len() implies (#[trigger] ids[k]) != x && all[k + 1] == ids[k] by {
        assert(a.demoted(ids[k]));
    }
    assert(!ids.contains(x));
    assert forall|k: int, m: int| 0 <= k < all.len() && 0 <= m < all.len() && k != m implies all[k] != all[m] by {
        if k > 0 {
            assert(all[k] == ids[k - 1]);
        }
        if m > 0 {
            assert(all[m] == ids[m - 1]);
        }
    }
    assert(t.nodes[x as int] == a.nodes[x as int]);
    assert forall|k: int| 0 <= k < all.len() implies {
        &&& st.demoted(#[trigger] all[k])
        &&& st.nodes[all[k] as int].host_ref == 0
        &&& !t.shape.nodes[all[k] as int].attached
    } by {
        if k > 0 {
            assert(all[k] == ids[k - 1]);
            assert(a.demoted(ids[k - 1]));
        }
    }
    assert forall|i: int| 0 <= i < st.nodes.len() && !all.contains(i as NodeId) implies (#[trigger] t.nodes[i])
        == st.nodes[i] && t.shape.nodes[i].attached == st.shape.nodes[i].attached by {
        if ids.contains(i as NodeId) {
            let k = ids.index_of(i as NodeId);
            assert(all[k + 1] == i as NodeId);
        }
        assert(a.nodes[i] == st.nodes[i]);
    }
}

/// An eviction from the host takes exactly the host tokens that it hands out
/// and no device token, deletes the nodes it names and nothing that is
/// protected, and ends because its budget is met or no host leaf is left.
pub proof fn law_evict_host(st: HiState, budget: int)
    requires
        st.wf(),
        st.nodes.len() <= NodeId::MAX,
    ensures
        ({
            let (t, runs, ids) = st.after_evict_host(budget);
            let n = tree_model::run_total(runs);
            &&& t.wf()
            &&& n >= 0
            &&& t.host_size() == st.host_size() - n
            &&& t.count(HiCounter::Evictable) == st.count(HiCounter::Evictable)
            &&& t.count(HiCounter::Protected) == st.count(HiCounter::Protected)
            &&& n >= budget || forall|id: NodeId| !#[trigger] t.host_leaf(id)
            &&& ids.len() == runs.len()
            &&& only_gone(st, t, ids)
        }),
    decreases st.node_count(),
{
    lemma_host_victim(st);
    match st.victim(st.host_leaves()) {
        Some(x) => {
            if budget > 0 {
                let run = run_or_none(st.nodes[x as int].host);
                let a = st.erased(x);
                hi_model::lemma_erase_counts(st, x);
                assert(st.shape.is_leaf(x)) by {
                    assert forall|c: NodeId| !#[trigger] st.shape.is_child(x, c) by {
                        if st.shape.is_child(x, c) {
                            assert(st.node_ok(c as int));
                        }
                    }
                }
                hi_model::lemma_erased(st, x);
                lemma_host_step(st, x);
                law_evict_host(a, budget - run.len());
                let (t, runs, ids) = a.after_evict_host(budget - run.len());
                assert((seq![run] + runs).drop_first() =~= runs);
                assert(tree_model::run_total(seq![run] + runs) == run.len() + tree_model::run_total(runs));
                lemma_one_more_gone(st, x, t, ids);
                assert(st.after_evict_host(budget) == (t, seq![run] + runs, seq![x] + ids));
            }
        },
        None => {},
    }
}

/// A host leaf that is deleted takes its host tokens with it and no device
/// token.
proof fn lemma_host_step(st: HiState, x: NodeId)
    requires
        st.wf(),
        st.host_leaf(x),
        forall|c: HiCounter| #[trigger] st.erased(x).count(c) == st.count(c) - st.weight(c, x as int),
    ensures
        st.erased(x).host_size() == st.host_size() - run_or_none(st.nodes[x as int].host).len(),
        st.erased(x).count(HiCounter::Evictable) == st.count(HiCounter::Evictable),
        st.erased(x).count(HiCounter::Protected) == st.count(HiCounter::Protected),
{
    assert(st.node_ok(x as int));
    let a = st.erased(x);
    assert(a.count(HiCounter::Host) == st.count(HiCounter::Host) - st.weight(HiCounter::Host, x as int));
    assert(a.count(HiCounter::Evictable) == st.count(HiCounter::Evictable) - st.weight(
        HiCounter::Evictable,
        x as int,
    ));
    assert(a.count(HiCounter::Protected) == st.count(HiCounter::Protected) - st.weight(
        HiCounter::Protected,
        x as int,
    ));
}

/// Where every backed-up node hangs below a backed-up node, an eviction
/// comes to no leaf that it could not take.
pub proof fn law_contiguous_drains(st: HiState, budget: int)
    requires
        st.wf(),
        st.nodes.len() <= NodeId::MAX,
        st.contiguous(),
    ensures
        st.drains(budget),
    decreases st.live_count(),
{
    lemma_leaf_victim(st);
    if let Some(x) = st.victim(st.leaves()) {
        if budget > 0 {
            let a = st.evict_step(x);
            hi_model::lemma_evict_counts(st, x);
            assert(st.node_ok(x as int));
            if st.nodes[x as int].host is Some {
                hi_model::lemma_detached(st, x);
            } else {
                assert(st.shape.is_leaf(x)) by {
                    assert forall|c: NodeId| !#[trigger] st.shape.is_child(x, c) by {
                        if st.shape.is_child(x, c) {
                            assert(st.node_ok(c as int));
                            assert(st.nodes[c as int].value is None);
                            assert(st.backed_below(c as int));
                        }
                    }
                }
                hi_model::lemma_erased(st, x);
            }
            assert(a.contiguous()) by {
                assert forall|i: int| 0 < i < a.nodes.len() implies #[trigger] a.backed_below(i) by {
                    assert(st.backed_below(i));
                    assert(st.shape.hangs(i));
                }
            }
            law_contiguous_drains(a, budget - st.nodes[x as int].value->0.len());
        }
    }
}

} // verus!
