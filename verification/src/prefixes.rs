//! What a match gives: the slots along the longest prefix that a request can
//! go on from.

use crate::chains;
use crate::hi_laws;
use crate::hi_model;
use crate::hi_model::HiState;
use crate::key::RadixKey;
use crate::mamba_laws;
use crate::mamba_model;
use crate::mamba_model::MambaState;
use crate::query;
use crate::query::Frame;
use crate::reach;
use crate::recency;
use crate::swa_model;
use crate::swa_model::SWAState;
use crate::topo;
use crate::topo::{NodeId, Shape, Walk, ROOT};
use crate::tree_laws;
use crate::tree_model;
use crate::tree_model::RadixState;
use crate::walk_laws;
use vstd::prelude::*;

verus! {

/// The runs of the first `k` nodes, put together.
pub open spec fn strung(ids: Seq<NodeId>, k: int, run: spec_fn(NodeId) -> Seq<i64>) -> Seq<i64>
    decreases k,
{
    if k <= 0 {
        Seq::empty()
    } else {
        strung(ids, k - 1, run) + run(ids[k - 1])
    }
}

/// Whether `indices` are the runs of the nodes from the root down to `x`, each
/// at its place.
pub open spec fn spells(s: Shape, x: NodeId, indices: Seq<i64>, run: spec_fn(NodeId) -> Seq<i64>) -> bool {
    let up = s.up(x);
    &&& indices.len() * s.unit == s.nodes[x as int].path.len()
    &&& forall|k: int|
        #![trigger up[k]]
        0 <= k < up.len() ==> {
            let at = s.nodes[s.nodes[up[k] as int].parent as int].path.len() as int / s.unit as int;
            &&& 0 <= at <= at + run(up[k]).len() <= indices.len()
            &&& indices.subrange(at, at + run(up[k]).len()) == run(up[k])
        }
}

proof fn lemma_strung(s: Shape, ids: Seq<NodeId>, n: int, run: spec_fn(NodeId) -> Seq<i64>)
    requires
        0 <= n <= ids.len(),
        forall|j: int| 0 <= j < n ==> run(#[trigger] ids[j]).len() == s.units(ids[j] as int),
    ensures
        strung(ids, n, run).len() == chains::tokens(s, ids, n),
        forall|j: int|
            #![trigger ids[j]]
            0 <= j < n ==> 0 <= chains::tokens(s, ids, j) && chains::tokens(s, ids, j) + run(ids[j]).len()
                <= chains::tokens(s, ids, n) && strung(ids, n, run).subrange(
                chains::tokens(s, ids, j),
                chains::tokens(s, ids, j) + run(ids[j]).len(),
            ) == run(ids[j]),
    decreases n,
{
    if n > 0 {
        lemma_strung(s, ids, n - 1, run);
        let less = strung(ids, n - 1, run);
        let all = strung(ids, n, run);
        assert(run(ids[n - 1]).len() == s.units(ids[n - 1] as int));
        assert forall|j: int| #![trigger ids[j]] 0 <= j < n implies 0 <= chains::tokens(s, ids, j) && chains::tokens(
            s,
            ids,
            j,
        ) + run(ids[j]).len() <= chains::tokens(s, ids, n) && all.subrange(
            chains::tokens(s, ids, j),
            chains::tokens(s, ids, j) + run(ids[j]).len(),
        ) == run(ids[j]) by {
            let a = chains::tokens(s, ids, j);
            let b = a + run(ids[j]).len();
            if j < n - 1 {
                assert(all.subrange(a, b) =~= less.subrange(a, b));
            } else {
                assert(all.subrange(a, b) =~= run(ids[j]));
            }
        }
    }
}

/// What is strung along a walk spells its prefix.
proof fn lemma_spelled(s: Shape, ns: u32, flat: Seq<i64>, ids: Seq<NodeId>, n: int, run: spec_fn(NodeId) -> Seq<i64>)
    requires
        s.wf(),
        0 <= n <= ids.len(),
        forall|j: int| 0 <= j < ids.len() ==> #[trigger] reach::placed(s, ns, flat, ids, j),
        forall|j: int| 0 <= j < n ==> run(#[trigger] ids[j]).len() == s.units(ids[j] as int),
    ensures
        spells(s, topo::end_of(ids.take(n)), strung(ids, n, run), run),
{
    let x = topo::end_of(ids.take(n));
    let indices = strung(ids, n, run);
    lemma_strung(s, ids, n, run);
    if n > 0 {
        assert(ids.take(n)[n - 1] == ids[n - 1]);
        assert(x == ids[n - 1]);
        assert(reach::placed(s, ns, flat, ids, n - 1));
        let up = s.up(x);
        assert(up == ids.take(n).reverse());
        assert(indices.len() * s.unit == s.nodes[x as int].path.len());
        assert forall|k: int| #![trigger up[k]] 0 <= k < up.len() implies {
            let at = s.nodes[s.nodes[up[k] as int].parent as int].path.len() as int / s.unit as int;
            &&& 0 <= at <= at + run(up[k]).len() <= indices.len()
            &&& indices.subrange(at, at + run(up[k]).len()) == run(up[k])
        } by {
            let j = n - 1 - k;
            assert(up[k] == ids[j]);
            assert(reach::placed(s, ns, flat, ids, j));
            assert(s.nodes[ids[j] as int].parent == (if j > 0 { ids[j - 1] } else { ROOT })) by {
                topo::lemma_up(s, x);
                if k + 1 < up.len() {
                    assert(up[k + 1] == ids[j - 1]);
                }
            }
            let p = s.nodes[ids[j] as int].parent;
            let tokens = chains::tokens(s, ids, j);
            if j > 0 {
                assert(reach::placed(s, ns, flat, ids, j - 1));
            } else {
                assert(tokens == 0);
                assert(s.nodes[ROOT as int].path.len() == 0);
                assert(tokens * s.unit == 0) by (nonlinear_arith)
                    requires
                        tokens == 0,
                ;
            }
            assert(s.nodes[p as int].path.len() == tokens * s.unit);
            vstd::arithmetic::div_mod::lemma_div_multiples_vanish(tokens, s.unit as int);
            assert(tokens * s.unit == s.unit * tokens) by (nonlinear_arith);
            assert(s.nodes[p as int].path.len() as int / s.unit as int == tokens);
        }
    } else {
        assert(ids.take(0) =~= Seq::<NodeId>::empty());
        assert(x == ROOT);
        assert(s.nodes[ROOT as int].path.len() == 0);
        assert(s.up(ROOT).len() == 0);
        assert(indices.len() == 0);
        assert(indices.len() * s.unit == 0) by (nonlinear_arith)
            requires
                indices.len() == 0,
        ;
    }
}

/// The walk of a query once its last node is cut off: all of each node.
proof fn lemma_cut_walk(f: Frame, s: Shape, ids: Seq<NodeId>, key: RadixKey)
    requires
        f.wf(),
        f.fits(key),
        f.shape.nodes.len() < NodeId::MAX,
        s == (match f.walk(key).stop {
            Some((c, m)) => f.shape.split(c, m as int),
            None => f.shape,
        }),
        ids == (match f.walk(key).stop {
            Some((c, m)) => f.walk(key).chain.push(f.shape.nodes.len() as NodeId),
            None => f.walk(key).chain,
        }),
    ensures
        s.wf(),
        s.unit == f.shape.unit,
        s.page == f.shape.page,
        s.aligned(f.flat(key).len() as int),
        s.walk(ROOT, f.ns_of(key), f.flat(key)) == (Walk { chain: ids, stop: None, used: f.walk(key).used }),
        forall|j: int| 0 <= j < ids.len() ==> #[trigger] reach::placed(s, f.ns_of(key), f.flat(key), ids, j),
        chains::tokens(s, ids, ids.len() as int) == f.prefix_len(key),
        s.nodes[topo::end_of(ids) as int].path == f.flat(key).take(f.walk(key).used as int),
{
    let flat = f.flat(key);
    let ns = f.ns_of(key);
    let w = f.walk(key);
    query::lemma_flat(f, key);
    assert(w == f.shape.walk(ROOT, ns, flat));
    if let Some((c, m)) = w.stop {
        walk_laws::lemma_walk_split(f.shape, ROOT, ns, flat);
        assert(s.wf()) by {
            topo::lemma_walk(f.shape, ROOT, ns, flat);
            topo::lemma_split_wf(f.shape, c, m as int);
        }
    }
    reach::lemma_chain(s, ns, flat, ids, w.used);
    let n = chains::tokens(s, ids, ids.len() as int);
    vstd::arithmetic::div_mod::lemma_div_multiples_vanish(n, s.unit as int);
    assert(n * s.unit == s.unit * n) by (nonlinear_arith);
}

/// Whether the window before the end of `x` is whole: each node on the path
/// of `x` that covers one of the last `window` tokens has window slots. A
/// path shorter than the window is covered from the root on.
pub open spec fn window_whole(st: SWAState, x: NodeId) -> bool {
    let up = st.shape.up(x);
    forall|j: int|
        #![trigger up[j]]
        0 <= j < up.len() && chains::tokens(st.shape, up, j) < st.window ==> !st.nodes[up[j] as int].tombstone
}

/// The tokens since the last gap in the window slots.
proof fn lemma_since(st: SWAState, ids: Seq<NodeId>, k: nat)
    requires
        k <= ids.len(),
        forall|j: int|
            0 <= j < ids.len() ==> st.shape.units((#[trigger] ids[j]) as int) >= 1 && st.run(ids[j]).len()
                == st.shape.units(ids[j] as int),
    ensures
        match st.scan(ids, k).since {
            None => forall|i: int| 0 <= i < k ==> !st.nodes[(#[trigger] ids[i]) as int].tombstone,
            Some(n) => {
                &&& forall|i: int|
                    #![trigger ids[i]]
                    0 <= i < k && chains::tokens(st.shape, ids, k as int) - chains::tokens(st.shape, ids, i + 1) < n
                        ==> !st.nodes[ids[i] as int].tombstone
                &&& exists|g: int|
                    #![trigger ids[g]]
                    0 <= g < k && st.nodes[ids[g] as int].tombstone && n == chains::tokens(st.shape, ids, k as int)
                        - chains::tokens(st.shape, ids, g + 1)
            },
        },
        ({
            let len = st.scan(ids, k).len;
            &&& len <= k
            &&& st.window_ok(st.scan(ids, len).since)
            &&& st.scan(ids, k).node == topo::end_of(ids.take(len as int))
            &&& forall|j: nat|
                len < j <= k && #[trigger] st.window_ok(st.scan(ids, j).since) ==> st.window_ok(st.scan(ids, k).since)
        }),
    decreases k,
{
    if k > 0 {
        let c = ids[k - 1];
        lemma_since(st, ids, (k - 1) as nat);
        let p = st.scan(ids, (k - 1) as nat);
        let s = st.scan(ids, k);
        assert(st.shape.units(ids[k - 1] as int) >= 1);
        assert(chains::tokens(st.shape, ids, k as int) == chains::tokens(st.shape, ids, k - 1) + st.shape.units(
            c as int,
        ));
        if st.nodes[c as int].tombstone {
            assert(s.since == Some(0nat));
            assert(st.nodes[ids[k - 1] as int].tombstone);
            assert forall|i: int|
                #![trigger ids[i]]
                0 <= i < k && chains::tokens(st.shape, ids, k as int) - chains::tokens(st.shape, ids, i + 1)
                    < 0 implies !st.nodes[ids[i] as int].tombstone by {
                assert forall|n: int| 0 <= n < ids.len() implies st.shape.units((#[trigger] ids[n]) as int) >= 0 by {}
                chains::lemma_tokens_le(st.shape, ids, i + 1, k as int);
            }
            if st.window_ok(p.since) {
                assert(s.len == k - 1);
                if k > 1 {
                    assert(ids.take(k - 1)[k - 2] == ids[k - 2]);
                }
            }
        } else {
            if let Some(n) = p.since {
                let g = choose|g: int|
                    #![trigger ids[g]]
                    0 <= g < k - 1 && st.nodes[ids[g] as int].tombstone && n == chains::tokens(st.shape, ids, k - 1)
                        - chains::tokens(st.shape, ids, g + 1);
                assert(st.nodes[ids[g] as int].tombstone);
            }
        }
        assert forall|j: nat| s.len < j <= k && #[trigger] st.window_ok(st.scan(ids, j).since) implies st.window_ok(
            s.since,
        ) by {
            if j < k {
                assert(st.window_ok(p.since));
            }
        }
    }
}

/// A place of the walk has a whole window where the scan says so.
proof fn lemma_window(st: SWAState, ns: u32, flat: Seq<i64>, ids: Seq<NodeId>, k: nat)
    requires
        0 < k <= ids.len(),
        forall|j: int| 0 <= j < ids.len() ==> #[trigger] reach::placed(st.shape, ns, flat, ids, j),
        forall|j: int| 0 <= j < ids.len() ==> st.run(#[trigger] ids[j]).len() == st.shape.units(ids[j] as int),
    ensures
        window_whole(st, ids[k - 1]) == st.window_ok(st.scan(ids, k).since),
{
    let s = st.shape;
    let x = ids[k - 1];
    let up = s.up(x);
    assert(reach::placed(s, ns, flat, ids, k - 1));
    assert(up == ids.take(k as int).reverse());
    assert forall|j: int| 0 <= j < ids.len() implies s.units((#[trigger] ids[j]) as int) >= 1 && st.run(ids[j]).len()
        == s.units(ids[j] as int) by {
        assert(reach::placed(s, ns, flat, ids, j));
    }
    lemma_since(st, ids, k);
    match st.scan(ids, k).since {
        None => {
            assert forall|j: int| #![trigger up[j]] 0 <= j < up.len() implies !st.nodes[up[j] as int].tombstone by {
                assert(up[j] == ids[k - 1 - j]);
            }
        },
        Some(n) => {
            let g = choose|g: int|
                #![trigger ids[g]]
                0 <= g < k && st.nodes[ids[g] as int].tombstone && n == chains::tokens(s, ids, k as int)
                    - chains::tokens(s, ids, g + 1);
            reach::lemma_back_tokens(s, ids, k as int, k - 1 - g);
            assert(up[k - 1 - g] == ids[g]);
            assert(chains::tokens(s, up, k - 1 - g) == n);
            if n >= st.window {
                assert forall|j: int|
                    #![trigger up[j]]
                    0 <= j < up.len() && chains::tokens(s, up, j) < st.window implies !st.nodes[up[j] as int].tombstone by {
                    reach::lemma_back_tokens(s, ids, k as int, j);
                    assert(up[j] == ids[k - 1 - j]);
                }
            } else {
                assert(!window_whole(st, x));
            }
        },
    }
}

/// Whether `x` is a live node of namespace `ns` that a query for `flat` leads
/// to.
pub open spec fn swa_on_the_way(st: SWAState, ns: u32, flat: Seq<i64>, x: NodeId) -> bool {
    &&& st.live(x)
    &&& st.shape.nodes[x as int].ns == ns
    &&& reach::leads_to(st.shape, flat, x)
}

proof fn lemma_swa_gathered(st: SWAState, ids: Seq<NodeId>, n: int)
    requires
        0 <= n <= ids.len(),
    ensures
        st.gathered(ids.take(n)) == strung(ids, n, |x: NodeId| st.run(x)),
    decreases n,
{
    if n > 0 {
        lemma_swa_gathered(st, ids, n - 1);
        assert(ids.take(n).drop_last() =~= ids.take(n - 1));
        assert(ids.take(n).last() == ids[n - 1]);
    } else {
        assert(ids.take(0) =~= Seq::<NodeId>::empty());
    }
}

/// What a live node needs to be found.
proof fn lemma_swa_hangs(st: SWAState, ns: u32, z: NodeId)
    requires
        st.wf(),
        st.live(z),
        st.shape.nodes[z as int].ns == ns,
    ensures
        reach::hangs_in(st.shape, ns, z),
{
    let up = st.shape.up(z);
    swa_model::lemma_up_live(st, z);
    assert forall|k: int| 0 <= k < up.len() implies st.shape.nodes[(#[trigger] up[k]) as int].attached by {
        assert(st.live(up[k]));
        assert(st.node_ok(up[k] as int));
    }
}

/// A match of the sliding-window tree ends at the longest prefix of the query
/// whose last window of tokens has its window slots in place, and gives the
/// slots along it.
pub proof fn law_swa_match_is_longest(st: SWAState, key: RadixKey)
    requires
        st.wf(),
        st.nodes.len() < NodeId::MAX,
        st.names.len() < u32::MAX,
        !st.disable,
        st.frame().flat(key).len() > 0,
        st.frame().fits(key),
    ensures
        ({
            let ns = st.frame().ns_of(key);
            let flat = st.frame().flat(key);
            let (t, indices, x) = st.after_match(key);
            &&& x == ROOT || (swa_on_the_way(t, ns, flat, x) && window_whole(t, x))
            &&& forall|z: NodeId| #[trigger]
                swa_on_the_way(t, ns, flat, z) && window_whole(t, z) ==> t.shape.nodes[z as int].path.len()
                    <= t.shape.nodes[x as int].path.len()
            &&& spells(t.shape, x, indices, |y: NodeId| t.run(y))
        }),
{
    let f = st.frame();
    let ns = f.ns_of(key);
    let flat = f.flat(key);
    let (a, ids) = st.after_walk(key);
    let (len, x) = a.best(ids);
    let (t, indices, node) = st.after_match(key);
    recency::lemma_swa_walk(st, key);
    lemma_cut_walk(f, a.shape, ids, key);
    let s = a.shape;
    assert forall|j: int| 0 <= j < ids.len() implies a.run(#[trigger] ids[j]).len() == s.units(ids[j] as int) by {
        assert(a.live(ids[j]));
        assert(a.node_ok(ids[j] as int));
    }
    assert forall|j: int| 0 <= j < ids.len() implies s.units((#[trigger] ids[j]) as int) >= 1 && a.run(ids[j]).len()
        == s.units(ids[j] as int) by {
        assert(reach::placed(s, ns, flat, ids, j));
    }
    lemma_since(a, ids, ids.len());
    assert(ids.take(ids.len() as int) =~= ids);
    assert(len <= ids.len() && x == topo::end_of(ids.take(len as int)) && a.window_ok(a.scan(ids, len).since));
    assert(forall|j: nat| len < j <= ids.len() ==> !#[trigger] a.window_ok(a.scan(ids, j).since));
    let run = |y: NodeId| a.run(y);
    lemma_swa_gathered(a, ids, len as int);
    lemma_spelled(s, ns, flat, ids, len as int, run);
    assert(run =~= (|y: NodeId| t.run(y)));
    if len > 0 {
        assert(ids.take(len as int)[len - 1] == ids[len - 1]);
        assert(x == ids[len - 1]);
        assert(reach::placed(s, ns, flat, ids, len - 1));
        assert(a.live(ids[len - 1]));
        lemma_window(a, ns, flat, ids, len);
        assert(window_whole(a, x));
        assert(window_whole(t, x));
    }
    assert forall|z: NodeId| #[trigger] swa_on_the_way(t, ns, flat, z) && window_whole(t, z) implies t.shape.nodes[
        z as int].path.len() <= t.shape.nodes[x as int].path.len() by {
        assert(a.live(z));
        assert(window_whole(a, z));
        lemma_swa_hangs(a, ns, z);
        reach::law_walk_meets(s, ns, flat, z);
        let j = ids.index_of(z);
        assert(ids[j] == z);
        lemma_window(a, ns, flat, ids, (j + 1) as nat);
        assert(a.window_ok(a.scan(ids, (j + 1) as nat).since));
        assert(j + 1 <= len);
        reach::lemma_deeper(s, ns, flat, ids, j, len - 1);
    }
}

/// Whether `x` is a live node of namespace `ns` that a query for `flat` leads
/// to.
pub open spec fn mamba_on_the_way(st: MambaState, ns: u32, flat: Seq<i64>, x: NodeId) -> bool {
    &&& st.live(x)
    &&& st.shape.nodes[x as int].ns == ns
    &&& reach::leads_to(st.shape, flat, x)
}

proof fn lemma_mamba_gathered(st: MambaState, ids: Seq<NodeId>, n: int)
    requires
        0 <= n <= ids.len(),
    ensures
        st.gathered(ids.take(n)) == strung(ids, n, |x: NodeId| st.run(x)),
    decreases n,
{
    if n > 0 {
        lemma_mamba_gathered(st, ids, n - 1);
        assert(ids.take(n).drop_last() =~= ids.take(n - 1));
        assert(ids.take(n).last() == ids[n - 1]);
    } else {
        assert(ids.take(0) =~= Seq::<NodeId>::empty());
    }
}

proof fn lemma_mamba_last(st: MambaState, ids: Seq<NodeId>)
    ensures
        ({
            let (len, x) = st.best(ids);
            &&& len <= ids.len()
            &&& x == topo::end_of(ids.take(len as int))
            &&& len > 0 ==> st.nodes[ids[len - 1] as int].mamba is Some
            &&& forall|j: int| len <= j < ids.len() ==> st.nodes[(#[trigger] ids[j]) as int].mamba is None
        }),
    decreases ids.len(),
{
    if ids.len() > 0 {
        let front = ids.drop_last();
        lemma_mamba_last(st, front);
        let len = st.best(ids).0 as int;
        if len < ids.len() {
            assert(ids.take(len) =~= front.take(len));
            assert forall|j: int| len <= j < ids.len() implies st.nodes[(#[trigger] ids[j]) as int].mamba is None by {
                if j < front.len() {
                    assert(front[j] == ids[j]);
                }
            }
        } else {
            assert(ids.take(len) =~= ids);
        }
    }
}

/// A match of the hybrid tree ends at the longest prefix of the query whose
/// last node has a state, and gives the slots along it. Where the tree holds
/// more of the query than that, the place to branch is the last checkpoint in
/// what it holds, if there is one.
pub proof fn law_mamba_match_is_longest(st: MambaState, key: RadixKey)
    requires
        st.wf(),
        st.nodes.len() < NodeId::MAX,
        st.names.len() < u32::MAX,
        st.grain >= 1,
        !st.disable,
        st.frame().flat(key).len() > 0,
        st.frame().fits(key),
    ensures
        ({
            let ns = st.frame().ns_of(key);
            let flat = st.frame().flat(key);
            let held = st.frame().prefix_len(key);
            let (t, indices, x, branching) = st.after_match(key);
            &&& x == ROOT || (mamba_on_the_way(t, ns, flat, x) && t.nodes[x as int].mamba is Some)
            &&& forall|z: NodeId| #[trigger]
                mamba_on_the_way(t, ns, flat, z) && t.nodes[z as int].mamba is Some ==> t.shape.nodes[
                    z as int].path.len() <= t.shape.nodes[x as int].path.len()
            &&& spells(t.shape, x, indices, |y: NodeId| t.run(y))
            &&& branching is Some <==> indices.len() < held && st.grain <= held
            &&& branching matches Some(n) ==> n % (st.grain as int) == 0 && held - st.grain < n <= held
        }),
{
    let f = st.frame();
    let ns = f.ns_of(key);
    let flat = f.flat(key);
    let held = f.prefix_len(key);
    let (a, ids) = st.after_walk(key);
    let (len, x) = a.best(ids);
    let (t, indices, node, branching) = st.after_match(key);
    mamba_laws::lemma_visited(st, key);
    lemma_cut_walk(f, a.shape, ids, key);
    lemma_mamba_last(a, ids);
    let s = a.shape;
    assert forall|j: int| 0 <= j < ids.len() implies a.run(#[trigger] ids[j]).len() == s.units(ids[j] as int) by {
        assert(a.live(ids[j]));
        assert(a.node_ok(ids[j] as int));
    }
    let run = |y: NodeId| a.run(y);
    lemma_mamba_gathered(a, ids, len as int);
    lemma_strung(s, ids, len as int, run);
    lemma_spelled(s, ns, flat, ids, len as int, run);
    assert(run =~= (|y: NodeId| t.run(y)));
    if len > 0 {
        assert(ids.take(len as int)[len - 1] == ids[len - 1]);
        assert(x == ids[len - 1]);
        assert(reach::placed(s, ns, flat, ids, len - 1));
        assert(a.live(ids[len - 1]));
    }
    assert forall|z: NodeId| #[trigger] mamba_on_the_way(t, ns, flat, z) && t.nodes[z as int].mamba is Some implies t.shape.nodes[
        z as int].path.len() <= t.shape.nodes[x as int].path.len() by {
        assert(a.live(z));
        assert(reach::hangs_in(s, ns, z)) by {
            let up = s.up(z);
            mamba_model::lemma_up_live(a, z);
            assert forall|k: int| 0 <= k < up.len() implies s.nodes[(#[trigger] up[k]) as int].attached by {
                assert(a.live(up[k]));
                assert(a.node_ok(up[k] as int));
            }
        }
        reach::law_walk_meets(s, ns, flat, z);
        let j = ids.index_of(z);
        assert(ids[j] == z);
        assert(j < len);
        reach::lemma_deeper(s, ns, flat, ids, j, len - 1);
    }
    assert(indices.len() == chains::tokens(s, ids, len as int));
    assert((indices.len() < held) == (len < ids.len())) by {
        assert forall|n: int| 0 <= n < ids.len() implies s.units((#[trigger] ids[n]) as int) >= 0 by {
            assert(reach::placed(s, ns, flat, ids, n));
        }
        if len < ids.len() {
            assert(reach::placed(s, ns, flat, ids, len as int));
            assert(chains::tokens(s, ids, len as int + 1) == chains::tokens(s, ids, len as int) + s.units(
                ids[len as int] as int,
            ));
            chains::lemma_tokens_le(s, ids, len as int + 1, ids.len() as int);
        }
    }
    let g = st.grain as int;
    let aligned = held / g * g;
    assert(held >= 0) by {
        chains::lemma_key_tokens(f, key);
    }
    vstd::arithmetic::div_mod::lemma_fundamental_div_mod(held, g);
    vstd::arithmetic::div_mod::lemma_mod_multiples_basic(held / g, g);
    vstd::arithmetic::div_mod::lemma_mod_bound(held, g);
    assert(aligned == g * (held / g)) by (nonlinear_arith)
        requires
            aligned == held / g * g,
    ;
    assert(held - g < aligned <= held);
    assert(aligned > 0 <==> g <= held) by (nonlinear_arith)
        requires
            held - g < aligned <= held,
            aligned == held / g * g,
            g >= 1,
            held >= 0,
    {
        if g <= held {
            assert(aligned > 0);
        } else {
            vstd::arithmetic::div_mod::lemma_small_mod(held as nat, g as nat);
            vstd::arithmetic::div_mod::lemma_basic_div(held, g);
            assert(held / g == 0);
        }
    }
}

/// Whether `x` is a node of namespace `ns` that a query for `flat` leads to.
pub open spec fn hi_on_the_way(st: HiState, ns: u32, flat: Seq<i64>, x: NodeId) -> bool {
    &&& 0 < x < st.nodes.len()
    &&& st.shape.nodes[x as int].attached
    &&& st.shape.nodes[x as int].ns == ns
    &&& reach::leads_to(st.shape, flat, x)
}

/// The slots of `x` on the device.
pub open spec fn hi_run(st: HiState, x: NodeId) -> Seq<i64> {
    hi_model::run_or_none(st.nodes[x as int].value)
}

/// Whether node `ids[j]` has a whole host copy if it has nothing on the device.
spec fn held_somewhere(st: HiState, ids: Seq<NodeId>, j: int) -> bool {
    let n = st.nodes[ids[j] as int];
    n.value is None ==> n.host is Some && n.host->0.len() == st.shape.units(ids[j] as int)
}

/// What the nodes of a walk hold on the host.
proof fn lemma_hi_host(st: HiState, key: RadixKey)
    requires
        st.wf(),
        st.roomy(),
        st.frame().fits(key),
    ensures
        ({
            let (a, ids, splits) = st.after_walk(ROOT, st.frame().walk(key), st.frame().names_with(key));
            forall|j: int|
                0 <= j < ids.len() ==> #[trigger] held_somewhere(a, ids, j)
        }),
{
    let f = st.frame();
    let w = f.walk(key);
    let (a, ids, splits) = st.after_walk(ROOT, w, f.names_with(key));
    hi_laws::lemma_visited(st, key);
    let now = (st.clock + 1) as u64;
    let base = HiState { names: f.names_with(key), clock: now, ..st };
    let n = w.chain.len() as int;
    assert(forall|k: int| 0 <= k < n ==> 0 < (#[trigger] w.chain[k]) < st.nodes.len()
        && st.shape.nodes[w.chain[k] as int].attached) by {
        query::lemma_query(f, key);
    }
    let road = seq![ROOT] + w.chain;
    assert forall|k: int| 0 <= k < road.len() implies (#[trigger] road[k]) < st.nodes.len() by {
        if k > 0 {
            assert(road[k] == w.chain[k - 1]);
        }
    }
    match w.stop {
        None => {
            hi_laws::lemma_stamped(base, road, now);
            assert forall|j: int| 0 <= j < ids.len() implies #[trigger] held_somewhere(a, ids, j) by {
                assert(st.node_ok(w.chain[j] as int));
            }
        },
        Some((c, m)) => {
            assert(0 < c < st.nodes.len() && st.shape.nodes[c as int].attached && !w.chain.contains(c) && 0 < m
                < st.shape.nodes[c as int].key.len() && st.shape.aligned(m as int)) by {
                query::lemma_query(f, key);
            }
            let all = road.push(c);
            assert forall|k: int| 0 <= k < all.len() implies (#[trigger] all[k]) < st.nodes.len() by {
                if k < road.len() {
                    assert(road[k] < st.nodes.len());
                }
            }
            hi_laws::lemma_stamped(base, all, now);
            let b = base.stamped(all, now);
            assert(b.nodes[c as int].host == st.nodes[c as int].host);
            assert forall|j: int| 0 <= j < ids.len() implies #[trigger] held_somewhere(a, ids, j) by {
                if j < n {
                    assert(ids[j] == w.chain[j]);
                    assert(w.chain.contains(w.chain[j]));
                    assert(st.node_ok(w.chain[j] as int));
                    assert(b.nodes[ids[j] as int].host == st.nodes[ids[j] as int].host);
                } else {
                    assert(ids[j] == st.nodes.len());
                    assert(st.node_ok(c as int));
                    let u = m as int / st.shape.unit as int;
                    assert(a.shape.units(st.nodes.len() as int) == u);
                    assert(0 <= u <= st.shape.units(c as int)) by (nonlinear_arith)
                        requires
                            u == m as int / st.shape.unit as int,
                            st.shape.units(c as int) == st.shape.nodes[c as int].key.len() as int / st.shape.unit as int,
                            0 < m < st.shape.nodes[c as int].key.len(),
                            st.shape.unit == 1 || st.shape.unit == 2,
                    ;
                }
            }
        },
    }
}

proof fn lemma_hi_gathered(st: HiState, ids: Seq<NodeId>, n: int)
    requires
        0 <= n <= ids.len(),
    ensures
        st.gathered(ids.take(n)) == strung(ids, n, |x: NodeId| hi_run(st, x)),
    decreases n,
{
    if n > 0 {
        lemma_hi_gathered(st, ids, n - 1);
        assert(ids.take(n).drop_last() =~= ids.take(n - 1));
        assert(ids.take(n).last() == ids[n - 1]);
    } else {
        assert(ids.take(0) =~= Seq::<NodeId>::empty());
    }
}

/// Where the device part of a walk ends, and what follows on the host.
proof fn lemma_hi_ends(st: HiState, ids: Seq<NodeId>, n: int) -> (d: int)
    requires
        0 <= n <= ids.len(),
        forall|j: int| 0 <= j < ids.len() ==> #[trigger] hi_laws::in_place(st, ids, j),
        forall|j: int| 0 <= j < ids.len() ==> #[trigger] held_somewhere(st, ids, j),
    ensures
        0 <= d <= n,
        forall|j: int| 0 <= j < d ==> st.nodes[(#[trigger] ids[j]) as int].value is Some,
        forall|j: int| d <= j < n ==> st.nodes[(#[trigger] ids[j]) as int].value is None,
        st.device_end(ids.take(n)).0 == topo::end_of(ids.take(d)),
        st.device_end(ids.take(n)).1 == chains::tokens(st.shape, ids, n) - chains::tokens(st.shape, ids, d),
        st.gathered(ids.take(n)) == st.gathered(ids.take(d)),
    decreases n,
{
    if n > 0 {
        let x = ids[n - 1];
        assert(ids.take(n).drop_last() =~= ids.take(n - 1));
        assert(ids.take(n).last() == x);
        if st.nodes[x as int].value is Some {
            assert forall|j: int| 0 <= j < n implies st.nodes[(#[trigger] ids[j]) as int].value is Some by {
                lemma_hi_front(st, ids, n - 1, j);
            }
            n
        } else {
            let d = lemma_hi_ends(st, ids, n - 1);
            assert(held_somewhere(st, ids, n - 1));
            assert(st.gathered(ids.take(n)) =~= st.gathered(ids.take(n - 1)));
            d
        }
    } else {
        assert(ids.take(0) =~= Seq::<NodeId>::empty());
        0
    }
}

/// Device slots come first along a walk.
proof fn lemma_hi_front(st: HiState, ids: Seq<NodeId>, n: int, j: int)
    requires
        0 <= j <= n < ids.len(),
        st.nodes[ids[n] as int].value is Some,
        forall|j: int| 0 <= j < ids.len() ==> #[trigger] hi_laws::in_place(st, ids, j),
    ensures
        st.nodes[ids[j] as int].value is Some,
    decreases n - j,
{
    if j < n {
        lemma_hi_front(st, ids, n, j + 1);
        assert(hi_laws::in_place(st, ids, j + 1));
    }
}

proof fn lemma_hi_host_end(st: HiState, ids: Seq<NodeId>, n: int) -> (d: int)
    requires
        0 <= n <= ids.len(),
    ensures
        0 <= d <= n,
        d > 0 ==> st.nodes[ids[d - 1] as int].host is Some,
        forall|j: int| d <= j < n ==> st.nodes[(#[trigger] ids[j]) as int].host is None,
        st.host_end(ids.take(n)) == topo::end_of(ids.take(d)),
    decreases n,
{
    if n > 0 {
        assert(ids.take(n).drop_last() =~= ids.take(n - 1));
        assert(ids.take(n).last() == ids[n - 1]);
        if st.nodes[ids[n - 1] as int].host is Some {
            n
        } else {
            lemma_hi_host_end(st, ids, n - 1)
        }
    } else {
        assert(ids.take(0) =~= Seq::<NodeId>::empty());
        0
    }
}

/// A match of the two-tier tree gives the slots along the longest prefix of
/// the query that the device holds, the last node of that prefix, the last
/// node on the way with a host copy, and how many tokens more the tree holds.
#[verifier::spinoff_prover]
#[verifier::rlimit(40)]
pub proof fn law_hi_match_is_longest(st: HiState, key: RadixKey)
    requires
        st.wf(),
        st.roomy(),
        !st.disable,
        st.frame().flat(key).len() > 0,
        st.frame().fits(key),
    ensures
        ({
            let ns = st.frame().ns_of(key);
            let flat = st.frame().flat(key);
            let (t, m) = st.after_match(key);
            let x = m.device_node;
            let y = m.host_node;
            &&& x == ROOT || (hi_on_the_way(t, ns, flat, x) && t.nodes[x as int].value is Some)
            &&& forall|z: NodeId| #[trigger]
                hi_on_the_way(t, ns, flat, z) && t.nodes[z as int].value is Some ==> t.shape.nodes[z as int].path.len()
                    <= t.shape.nodes[x as int].path.len()
            &&& y == ROOT || (hi_on_the_way(t, ns, flat, y) && t.nodes[y as int].host is Some)
            &&& forall|z: NodeId| #[trigger]
                hi_on_the_way(t, ns, flat, z) && t.nodes[z as int].host is Some ==> t.shape.nodes[z as int].path.len()
                    <= t.shape.nodes[y as int].path.len()
            &&& spells(t.shape, x, m.indices, |u: NodeId| hi_run(t, u))
            &&& m.indices.len() + m.host_len == st.frame().prefix_len(key)
        }),
{
    let f = st.frame();
    let ns = f.ns_of(key);
    let flat = f.flat(key);
    let w = f.walk(key);
    let (a, ids, splits) = st.after_walk(ROOT, w, f.names_with(key));
    let (t, m) = st.after_match(key);
    let n = ids.len() as int;
    hi_laws::lemma_visited(st, key);
    lemma_hi_host(st, key);
    lemma_cut_walk(f, a.shape, ids, key);
    let s = a.shape;
    assert(t == a);
    assert(ids.take(n) =~= ids);
    let d = lemma_hi_ends(a, ids, n);
    let h = lemma_hi_host_end(a, ids, n);
    let run = |u: NodeId| hi_run(a, u);
    assert forall|j: int| 0 <= j < d implies run(#[trigger] ids[j]).len() == s.units(ids[j] as int) by {
        assert(hi_laws::in_place(a, ids, j));
    }
    lemma_hi_gathered(a, ids, d);
    lemma_strung(s, ids, d, run);
    lemma_spelled(s, ns, flat, ids, d, run);
    assert(reach::rooted(s)) by {
        assert(reach::rooted(st.shape)) by {
            assert forall|i: int|
                #![trigger st.shape.nodes[i]]
                0 < i < st.shape.nodes.len() && st.shape.nodes[i].attached implies st.shape.nodes[
                st.shape.nodes[i].parent as int].attached by {
                assert(st.node_ok(i));
            }
        }
        if let Some((c, k)) = w.stop {
            query::lemma_query(f, key);
            reach::lemma_rooted_split(st.shape, c, k as int);
        }
    }
    assert(s.nodes.len() == a.nodes.len()) by {
        if let Some((c, k)) = w.stop {
            query::lemma_query(f, key);
        }
    }
    assert forall|z: NodeId| #[trigger] hi_on_the_way(t, ns, flat, z) implies ids.contains(z) by {
        reach::lemma_rooted(s, z);
        reach::law_walk_meets(s, ns, flat, z);
    }
    if d > 0 {
        assert(ids.take(d)[d - 1] == ids[d - 1]);
        assert(reach::placed(s, ns, flat, ids, d - 1));
        assert(hi_on_the_way(t, ns, flat, ids[d - 1]));
        assert(t.nodes[ids[d - 1] as int].value is Some);
    }
    if h > 0 {
        assert(ids.take(h)[h - 1] == ids[h - 1]);
        assert(reach::placed(s, ns, flat, ids, h - 1));
        assert(hi_on_the_way(t, ns, flat, ids[h - 1]));
    }
    assert(m.indices == strung(ids, d, run));
    assert(m.indices.len() == chains::tokens(s, ids, d));
    assert(m.host_len == chains::tokens(s, ids, n) - chains::tokens(s, ids, d));
    assert forall|z: NodeId| #[trigger] hi_on_the_way(t, ns, flat, z) && t.nodes[z as int].value is Some implies t.shape.nodes[
        z as int].path.len() <= t.shape.nodes[m.device_node as int].path.len() by {
        let j = ids.index_of(z);
        assert(ids[j] == z);
        assert(j < d);
        reach::lemma_deeper(s, ns, flat, ids, j, d - 1);
    }
    assert forall|z: NodeId| #[trigger] hi_on_the_way(t, ns, flat, z) && t.nodes[z as int].host is Some implies t.shape.nodes[
        z as int].path.len() <= t.shape.nodes[m.host_node as int].path.len() by {
        let j = ids.index_of(z);
        assert(ids[j] == z);
        assert(j < h);
        reach::lemma_deeper(s, ns, flat, ids, j, h - 1);
    }
}

proof fn lemma_gathered(st: RadixState, ids: Seq<NodeId>, n: int)
    requires
        0 <= n <= ids.len(),
    ensures
        tree_model::gathered(st.nodes, ids.take(n)) == strung(ids, n, |x: NodeId| st.nodes[x as int].value->0),
    decreases n,
{
    if n > 0 {
        lemma_gathered(st, ids, n - 1);
        assert(ids.take(n).drop_last() =~= ids.take(n - 1));
        assert(ids.take(n).last() == ids[n - 1]);
    } else {
        assert(ids.take(0) =~= Seq::<NodeId>::empty());
    }
}

/// A match ends at a node of its own: the keys down to it are all that the
/// tree holds of the query, in whole pages, and the slots along them are what
/// is cached of it.
pub proof fn law_match_is_longest(st: RadixState, key: RadixKey)
    requires
        st.wf(),
        st.roomy(),
        st.names.len() + 1 < u32::MAX,
        !st.disable,
        st.flat(key).len() > 0,
        st.fits(key),
    ensures
        ({
            let ns = st.ns_of(key);
            let flat = st.flat(key);
            let cached = st.cached(key);
            let (t, x) = st.after_match(key);
            &&& t.live(x)
            &&& x != ROOT ==> t.shape.nodes[x as int].ns == ns
            &&& reach::leads_to(t.shape, flat, x)
            &&& spells(t.shape, x, cached, |y: NodeId| t.nodes[y as int].value->0)
            &&& forall|z: NodeId, n: int|
                #![trigger t.live(z), t.shape.aligned(n)]
                t.live(z) && z != ROOT && t.shape.nodes[z as int].ns == ns && t.shape.aligned(n) && 0 <= n <= flat.len()
                    && n <= t.shape.nodes[z as int].path.len() && t.shape.nodes[z as int].path.take(n) == flat.take(n)
                    ==> n <= cached.len() * st.shape.unit
        }),
{
    let ns = st.ns_of(key);
    let flat = st.flat(key);
    let w = st.walk(key);
    let (t, x) = st.after_match(key);
    let s = t.shape;
    let f = Frame { shape: st.shape, names: st.names, is_eagle: st.is_eagle };
    tree_laws::law_match_keeps_content(st, key, key);
    let ids = match w.stop {
        Some((c, m)) => w.chain.push(st.shape.nodes.len() as NodeId),
        None => w.chain,
    };
    assert(f.walk(key) == w && f.flat(key) == flat && f.ns_of(key) == ns && f.fits(key));
    assert(f.wf());
    lemma_cut_walk(f, s, ids, key);
    let n = ids.len() as int;
    assert(ids.take(n) =~= ids);
    assert(x == topo::end_of(ids));
    let run = |y: NodeId| t.nodes[y as int].value->0;
    assert forall|j: int| 0 <= j < n implies run(#[trigger] ids[j]).len() == s.units(ids[j] as int) by {
        assert(reach::placed(s, ns, flat, ids, j));
        assert(t.node_ok(ids[j] as int));
    }
    lemma_spelled(s, ns, flat, ids, n, run);
    assert(strung(ids, n, run) == st.cached(key)) by {
        lemma_gathered(t, ids, n);
        assert(s.walk(ROOT, t.ns_of(key), t.flat(key)) == (Walk { chain: ids, stop: None, used: w.used })) by {
            crate::ns::law_namespaces_are_stable(st.names, key.namespace(), key.namespace());
        }
        assert(t.cached(key) == tree_model::gathered(t.nodes, ids));
    }
    if n > 0 {
        assert(reach::placed(s, ns, flat, ids, n - 1));
        assert(t.node_ok(ids[n - 1] as int));
    }
    assert(reach::rooted(s)) by {
        assert forall|i: int| #![trigger s.nodes[i]] 0 < i < s.nodes.len() && s.nodes[i].attached implies s.nodes[
            s.nodes[i].parent as int].attached by {
            assert(t.node_ok(i));
        }
    }
    assert forall|z: NodeId, k: int|
        #![trigger t.live(z), s.aligned(k)]
        t.live(z) && z != ROOT && s.nodes[z as int].ns == ns && s.aligned(k) && 0 <= k <= flat.len() && k
            <= s.nodes[z as int].path.len() && s.nodes[z as int].path.take(k) == flat.take(k) implies k
        <= st.cached(key).len() * st.shape.unit by {
        assert(t.node_ok(z as int));
        reach::lemma_rooted(s, z);
        reach::law_walk_is_longest(s, ns, flat, z, k);
    }
}

} // verus!
