//! Where a match ends: at the end of the longest prefix that a request can
//! go on from.

use crate::chains;
use crate::reach;
use crate::topo;
use crate::topo::{NodeId, Walk, ROOT};
use crate::unified::laws;
use crate::unified::matching;
use crate::unified::model::{UNodeState, UState};
use crate::walk_laws;
use vstd::prelude::*;

verus! {

/// Whether a node holds slots of component `ct` on the device, or, if asked
/// for either side, on the host.
pub open spec fn holds(n: UNodeState, ct: int, device_only: bool) -> bool {
    n.value[ct] is Some || (!device_only && n.host[ct] is Some)
}

/// Whether the window before the end of `x` is whole: each node on the path
/// of `x` that covers one of the last `sliding_window_size` tokens holds
/// window slots. A path shorter than the window is covered from the root on.
pub open spec fn window_kept(st: UState, x: NodeId, device_only: bool) -> bool {
    let up = st.shape.up(x);
    forall|j: int|
        #![trigger up[j]]
        0 <= j < up.len() && chains::tokens(st.shape, up, j) < st.cfg.sliding_window_size ==> holds(
            st.nodes[up[j] as int],
            1,
            device_only,
        )
}

/// Whether a request can go on behind `x`: FULL slots, a whole window and a
/// state, as far as the tree has these. Where the host keeps no window slots
/// a node without any will do.
pub open spec fn fit(st: UState, x: NodeId, device_only: bool) -> bool {
    let n = st.nodes[x as int];
    &&& holds(n, 0, device_only)
    &&& st.cfg.swa() ==> window_kept(st, x, device_only) || (st.hicache && !st.cfg.has_swa_host_pool && !holds(
        n,
        1,
        device_only,
    ))
    &&& st.cfg.mamba() ==> holds(n, 2, device_only)
}

/// Whether `x` is a node of namespace `ns` that a query for `flat` leads to.
pub open spec fn on_the_way(st: UState, ns: u32, flat: Seq<i64>, x: NodeId) -> bool {
    &&& st.inner(x)
    &&& st.shape.nodes[x as int].ns == ns
    &&& reach::leads_to(st.shape, flat, x)
}

/// Whether `x` is the end of the longest fit prefix of `flat`, or the root if
/// there is none.
pub open spec fn longest_fit(st: UState, ns: u32, flat: Seq<i64>, x: NodeId, device_only: bool) -> bool {
    &&& x == ROOT || (on_the_way(st, ns, flat, x) && fit(st, x, device_only))
    &&& forall|z: NodeId| #[trigger]
        on_the_way(st, ns, flat, z) && fit(st, z, device_only) ==> st.shape.nodes[z as int].path.len()
            <= st.shape.nodes[x as int].path.len()
}

/// What the run of window slots says.
proof fn lemma_run(st: UState, ids: Seq<NodeId>, k: int, device_only: bool)
    requires
        0 <= k <= ids.len(),
        forall|j: int| 0 <= j < ids.len() ==> st.units(#[trigger] ids[j]) >= 0,
    ensures
        st.swa_run(ids, k, device_only) is None ==> forall|i: int|
            0 <= i < k ==> holds(st.nodes[(#[trigger] ids[i]) as int], 1, device_only),
        st.swa_run(ids, k, device_only) matches Some(n) ==> {
            &&& n >= 0
            &&& forall|i: int|
                #![trigger ids[i]]
                0 <= i < k && chains::tokens(st.shape, ids, k) - chains::tokens(st.shape, ids, i + 1) < n ==> holds(
                    st.nodes[ids[i] as int],
                    1,
                    device_only,
                )
            &&& exists|g: int|
                #![trigger ids[g]]
                0 <= g < k && !holds(st.nodes[ids[g] as int], 1, device_only) && n == chains::tokens(st.shape, ids, k)
                    - chains::tokens(st.shape, ids, g + 1)
        },
    decreases k,
{
    if k > 0 {
        let x = ids[k - 1];
        lemma_run(st, ids, k - 1, device_only);
        assert(st.units(ids[k - 1]) >= 0);
        assert(chains::tokens(st.shape, ids, k) == chains::tokens(st.shape, ids, k - 1) + st.shape.units(x as int));
        if !st.swa_present(x, device_only) {
            assert(!holds(st.nodes[ids[k - 1] as int], 1, device_only));
            assert forall|i: int|
                #![trigger ids[i]]
                0 <= i < k && chains::tokens(st.shape, ids, k) - chains::tokens(st.shape, ids, i + 1) < 0 implies holds(
                st.nodes[ids[i] as int],
                1,
                device_only,
            ) by {
                assert forall|n: int| 0 <= n < ids.len() implies st.shape.units((#[trigger] ids[n]) as int) >= 0 by {
                    assert(st.units(ids[n]) >= 0);
                }
                chains::lemma_tokens_le(st.shape, ids, i + 1, k);
            }
        } else {
            match st.swa_run(ids, k - 1, device_only) {
                Some(m) => {
                    let g = choose|g: int|
                        #![trigger ids[g]]
                        0 <= g < k - 1 && !holds(st.nodes[ids[g] as int], 1, device_only) && m == chains::tokens(
                            st.shape,
                            ids,
                            k - 1,
                        ) - chains::tokens(st.shape, ids, g + 1);
                    assert(!holds(st.nodes[ids[g] as int], 1, device_only));
                },
                None => {},
            }
        }
    }
}

/// A place of the walk is valid where a request can go on.
proof fn lemma_fit(st: UState, ids: Seq<NodeId>, k: int, device_only: bool)
    requires
        st.wf(),
        0 <= k < ids.len(),
        forall|j: int| 0 <= j < ids.len() ==> #[trigger] laws::linked(st.shape, ids, j),
    ensures
        st.valid_at(ids, k, device_only) == fit(st, ids[k], device_only),
{
    let x = ids[k];
    let up = st.shape.up(x);
    let s = st.shape;
    assert(laws::linked(s, ids, k));
    laws::lemma_up_back(s, ids, k + 1);
    assert(up == ids.take(k + 1).reverse());
    assert(up.len() == k + 1);
    assert(up[0] == x);
    assert(st.nodes[x as int].value.len() == 4) by {
        assert(st.node_ok(x as int));
    }
    if st.cfg.swa() {
        let size = st.cfg.sliding_window_size as int;
        assert(chains::tokens(s, up, 0) == 0);
        if !st.swa_present(x, device_only) {
            assert(!holds(st.nodes[up[0] as int], 1, device_only));
            assert(!window_kept(st, x, device_only));
        } else {
            assert forall|j: int| 0 <= j < ids.len() implies st.units(#[trigger] ids[j]) >= 0 by {
                assert(laws::linked(s, ids, j));
                chains::lemma_units(s, ids[j] as int);
            }
            lemma_run(st, ids, k + 1, device_only);
            match st.swa_run(ids, k + 1, device_only) {
                None => {
                    assert forall|j: int|
                        #![trigger up[j]]
                        0 <= j < up.len() && chains::tokens(s, up, j) < size implies holds(
                        st.nodes[up[j] as int],
                        1,
                        device_only,
                    ) by {
                        assert(up[j] == ids[k - j]);
                    }
                },
                Some(n) => {
                    let g = choose|g: int|
                        #![trigger ids[g]]
                        0 <= g < k + 1 && !holds(st.nodes[ids[g] as int], 1, device_only) && n == chains::tokens(
                            s,
                            ids,
                            k + 1,
                        ) - chains::tokens(s, ids, g + 1);
                    reach::lemma_back_tokens(s, ids, k + 1, k - g);
                    assert(up[k - g] == ids[g]);
                    assert(chains::tokens(s, up, k - g) == n);
                    if n >= size {
                        assert forall|j: int|
                            #![trigger up[j]]
                            0 <= j < up.len() && chains::tokens(s, up, j) < size implies holds(
                            st.nodes[up[j] as int],
                            1,
                            device_only,
                        ) by {
                            reach::lemma_back_tokens(s, ids, k + 1, j);
                            assert(up[j] == ids[k - j]);
                        }
                        assert(window_kept(st, x, device_only));
                    } else {
                        assert(!window_kept(st, x, device_only));
                    }
                },
            }
        }
    }
}

/// The last valid place of a walk.
proof fn lemma_last_valid(st: UState, ids: Seq<NodeId>, n: int, device_only: bool)
    requires
        0 <= n <= ids.len(),
    ensures
        ({
            let k = st.usable(ids, n, device_only);
            &&& 0 <= k <= n
            &&& k > 0 ==> st.valid_at(ids, k - 1, device_only)
            &&& forall|j: int| k <= j < n ==> !#[trigger] st.valid_at(ids, j, device_only)
        }),
    decreases n,
{
    if n > 0 && !st.valid_at(ids, n - 1, device_only) {
        lemma_last_valid(st, ids, n - 1, device_only);
    }
}

/// The nodes of a walk that takes all of its last node.
proof fn lemma_walk_nodes(st: UState, ns: u32, flat: Seq<i64>, ids: Seq<NodeId>, used: nat)
    requires
        st.wf(),
        st.shape.aligned(flat.len() as int),
        st.shape.walk(ROOT, ns, flat) == (Walk { chain: ids, stop: None, used }),
        forall|j: int| 0 <= j < ids.len() ==> #[trigger] laws::linked(st.shape, ids, j),
        forall|j: int| 0 <= j < ids.len() ==> st.inner(#[trigger] ids[j]),
    ensures
        forall|j: int| 0 <= j < ids.len() ==> on_the_way(st, ns, flat, #[trigger] ids[j]),
        forall|z: NodeId| #[trigger] on_the_way(st, ns, flat, z) ==> ids.contains(z),
        forall|i: int, j: int|
            0 <= i <= j < ids.len() ==> st.shape.nodes[(#[trigger] ids[i]) as int].path.len() <= st.shape.nodes[(
            #[trigger] ids[j]) as int].path.len(),
{
    let s = st.shape;
    let n = ids.len() as int;
    assert forall|j: int| 0 <= j < n implies on_the_way(st, ns, flat, #[trigger] ids[j]) by {
        let end = ids[n - 1];
        assert(laws::linked(s, ids, n - 1));
        laws::lemma_up_back(s, ids, n);
        assert(ids.take(n) =~= ids);
        assert(s.up(end)[n - 1 - j] == ids[j]);
        reach::lemma_above(s, end, n - 1 - j);
        topo::lemma_walk_path(s, ROOT, ns, flat);
        topo::lemma_walk_chain(s, ROOT, ns, flat);
        assert(st.inner(ids[j]));
        let path = s.nodes[end as int].path;
        assert(path =~= flat.take(used as int));
        let part = s.nodes[ids[j] as int].path;
        assert(part =~= flat.take(part.len() as int));
    }
    assert forall|z: NodeId| #[trigger] on_the_way(st, ns, flat, z) implies ids.contains(z) by {
        matching::lemma_up_live(st, z);
        assert(reach::hangs_in(s, ns, z)) by {
            assert forall|k: int| 0 <= k < s.up(z).len() implies s.nodes[(#[trigger] s.up(z)[k]) as int].attached by {
                assert(st.inner(s.up(z)[k]));
            }
        }
        reach::law_walk_meets(s, ns, flat, z);
    }
    assert forall|i: int, j: int| 0 <= i <= j < n implies s.nodes[(#[trigger] ids[i]) as int].path.len()
        <= s.nodes[(#[trigger] ids[j]) as int].path.len() by {
        assert(laws::linked(s, ids, j));
        laws::lemma_up_back(s, ids, j + 1);
        assert(s.up(ids[j])[j - i] == ids[i]) by {
            assert(ids.take(j + 1).reverse()[j - i] == ids[i]);
        }
        reach::lemma_above(s, ids[j], j - i);
    }
}

proof fn lemma_longest(st: UState, ns: u32, flat: Seq<i64>, ids: Seq<NodeId>, used: nat, device_only: bool)
    requires
        st.wf(),
        st.shape.aligned(flat.len() as int),
        st.shape.walk(ROOT, ns, flat) == (Walk { chain: ids, stop: None, used }),
        forall|j: int| 0 <= j < ids.len() ==> #[trigger] laws::linked(st.shape, ids, j),
        forall|j: int| 0 <= j < ids.len() ==> st.inner(#[trigger] ids[j]),
    ensures
        longest_fit(
            st,
            ns,
            flat,
            matching::node_at(ids, st.usable(ids, ids.len() as int, device_only)),
            device_only,
        ),
{
    let n = ids.len() as int;
    let k = st.usable(ids, n, device_only);
    let x = matching::node_at(ids, k);
    lemma_last_valid(st, ids, n, device_only);
    lemma_walk_nodes(st, ns, flat, ids, used);
    if k > 0 {
        lemma_fit(st, ids, k - 1, device_only);
        assert(on_the_way(st, ns, flat, ids[k - 1]));
    }
    assert forall|z: NodeId| #[trigger] on_the_way(st, ns, flat, z) && fit(st, z, device_only) implies st.shape.nodes[
        z as int].path.len() <= st.shape.nodes[x as int].path.len() by {
        assert(ids.contains(z));
        let j = ids.index_of(z);
        assert(ids[j] == z);
        lemma_fit(st, ids, j, device_only);
        assert(j < k);
        assert(st.shape.nodes[ids[j] as int].path.len() <= st.shape.nodes[ids[k - 1] as int].path.len());
    }
}

/// Nothing that makes a prefix fit changes between the two.
proof fn lemma_fit_same(a: UState, b: UState, ns: u32, flat: Seq<i64>, x: NodeId, device_only: bool)
    requires
        a.wf(),
        laws::same_runs(a, b),
        longest_fit(a, ns, flat, x, device_only),
    ensures
        longest_fit(b, ns, flat, x, device_only),
{
    assert forall|z: NodeId| a.inner(z) implies #[trigger] fit(b, z, device_only) == fit(a, z, device_only) by {
        let up = a.shape.up(z);
        matching::lemma_up_live(a, z);
        assert(b.nodes[z as int].value == a.nodes[z as int].value);
        assert forall|j: int| #![trigger up[j]] 0 <= j < up.len() implies holds(b.nodes[up[j] as int], 1, device_only)
            == holds(a.nodes[up[j] as int], 1, device_only) by {
            assert(a.inner(up[j]));
            assert(b.nodes[up[j] as int].value == a.nodes[up[j] as int].value);
        }
        assert(window_kept(b, z, device_only) == window_kept(a, z, device_only));
    }
    assert forall|z: NodeId| #[trigger] on_the_way(b, ns, flat, z) == on_the_way(a, ns, flat, z) by {}
    assert forall|z: NodeId| #[trigger] on_the_way(b, ns, flat, z) && fit(b, z, device_only) implies b.shape.nodes[
        z as int].path.len() <= b.shape.nodes[x as int].path.len() by {
        assert(on_the_way(a, ns, flat, z));
        assert(fit(a, z, device_only));
    }
    if x != ROOT {
        assert(on_the_way(b, ns, flat, x));
        assert(fit(b, x, device_only));
    }
}

/// A match ends at the longest prefix of the query that a request can go on
/// from: with a sliding window, one whose last window of tokens has its
/// window slots in place. The device match looks at the device alone; with a
/// host tier the best match takes either side.
#[verifier::spinoff_prover]
#[verifier::rlimit(40)]
pub proof fn law_match_is_longest_fit(st: UState, ns: u32, raw: Seq<i64>)
    requires
        st.wf(),
        st.roomy(1),
        st.flat(raw).len() > 0,
    ensures
        ({
            let flat = st.flat(raw);
            let (t, m) = st.after_match(ns, raw);
            &&& longest_fit(t, ns, flat, m.device_node, true)
            &&& st.hicache ==> longest_fit(t, ns, flat, m.best, false)
            &&& !st.hicache ==> m.best == m.device_node
            &&& m.host_node == m.best
            &&& forall|z: NodeId, n: int|
                #![trigger t.inner(z), t.shape.aligned(n)]
                t.inner(z) && t.shape.nodes[z as int].ns == ns && t.shape.aligned(n) && 0 <= n <= flat.len() && n
                    <= t.shape.nodes[z as int].path.len() && t.shape.nodes[z as int].path.take(n) == flat.take(n) ==> n
                    <= m.full_hit * t.shape.unit
        }),
{
    let flat = st.flat(raw);
    let w = st.walk(ns, raw);
    let a = st.walked(w);
    let ids = st.passed(w);
    let (t, m) = st.after_match(ns, raw);
    matching::lemma_flat(st, raw);
    matching::lemma_walked(st, ns, raw);
    laws::lemma_passed_linked(st, ns, raw);
    assert(a.shape.walk(ROOT, ns, flat) == (Walk { chain: ids, stop: None, used: w.used })) by {
        if w.stop is Some {
            walk_laws::lemma_walk_split(st.shape, ROOT, ns, flat);
        }
    }
    lemma_longest(a, ns, flat, ids, w.used, true);
    lemma_longest(a, ns, flat, ids, w.used, false);
    laws::lemma_usable_range(a, ids, ids.len() as int, true);
    laws::lemma_usable_range(a, ids, ids.len() as int, false);
    assert(a.shape.has(m.best)) by {
        if m.best != ROOT {
            assert(on_the_way(a, ns, flat, m.best));
        }
    }
    laws::lemma_refreshed_runs(a, m.best);
    lemma_fit_same(a, t, ns, flat, m.device_node, true);
    if st.hicache {
        lemma_fit_same(a, t, ns, flat, m.best, false);
    }
    assert forall|z: NodeId, n: int|
        #![trigger t.inner(z), t.shape.aligned(n)]
        t.inner(z) && t.shape.nodes[z as int].ns == ns && t.shape.aligned(n) && 0 <= n <= flat.len() && n
            <= t.shape.nodes[z as int].path.len() && t.shape.nodes[z as int].path.take(n) == flat.take(n) implies n
        <= m.full_hit * t.shape.unit by {
        lemma_hit(a, ns, flat, w.used, z, n);
    }
}

/// What the walk took is all that there is.
proof fn lemma_hit(a: UState, ns: u32, flat: Seq<i64>, used: nat, z: NodeId, n: int)
    requires
        a.wf(),
        a.inner(z),
        a.shape.nodes[z as int].ns == ns,
        a.shape.aligned(flat.len() as int),
        a.shape.walk(ROOT, ns, flat).used == used,
        a.shape.aligned(n),
        0 <= n <= flat.len(),
        n <= a.shape.nodes[z as int].path.len(),
        a.shape.nodes[z as int].path.take(n) == flat.take(n),
    ensures
        n <= (used as int / a.shape.unit as int) * a.shape.unit,
{
    matching::lemma_up_live(a, z);
    assert(reach::hangs_in(a.shape, ns, z)) by {
        let up = a.shape.up(z);
        assert forall|k: int| 0 <= k < up.len() implies a.shape.nodes[(#[trigger] up[k]) as int].attached by {
            assert(a.inner(up[k]));
        }
    }
    reach::law_walk_is_longest(a.shape, ns, flat, z, n);
    topo::lemma_walk_chain(a.shape, ROOT, ns, flat);
    let unit = a.shape.unit as int;
    assert(used as int % unit == 0) by {
        topo::lemma_chunk(a.shape);
        vstd::arithmetic::div_mod::lemma_small_mod(0, a.shape.chunk());
        topo::lemma_aligned(a.shape, used as int, 0);
    }
    assert((used as int / unit) * unit == used) by (nonlinear_arith)
        requires
            used as int % unit == 0,
            unit == 1 || unit == 2,
    ;
}

/// Where a match says a state is to be checkpointed: at the last multiple of
/// the grid within what the tree holds of the query, and only if that lies
/// past what the match already covers on the device and the host.
pub proof fn law_match_branches(st: UState, ns: u32, raw: Seq<i64>)
    requires
        st.wf(),
        st.flat(raw).len() > 0,
    ensures
        ({
            let (t, m) = st.after_match(ns, raw);
            let grid = st.cfg.mamba_checkpoint_grid as int;
            let covered = m.device.len() + m.host_hit;
            &&& m.branching is Some ==> st.cfg.mamba() && m.branching->0 % grid == 0 && covered < m.branching->0
                <= m.full_hit < m.branching->0 + grid
            &&& st.cfg.mamba() && m.branching is None ==> forall|n: int|
                covered < n <= m.full_hit ==> #[trigger] (n % grid) != 0
        }),
{
    let (t, m) = st.after_match(ns, raw);
    if st.cfg.mamba() {
        let grid = st.cfg.mamba_checkpoint_grid as int;
        let full = m.full_hit;
        let covered = m.device.len() + m.host_hit;
        let aligned = full / grid * grid;
        assert(aligned == grid * (full / grid)) by (nonlinear_arith)
            requires
                aligned == full / grid * grid,
        ;
        vstd::arithmetic::div_mod::lemma_fundamental_div_mod(full, grid);
        vstd::arithmetic::div_mod::lemma_mod_bound(full, grid);
        vstd::arithmetic::div_mod::lemma_mod_multiples_basic(full / grid, grid);
        assert(m.branching == st.branching(full, covered));
        if m.branching is None {
            assert forall|n: int| covered < n <= full implies #[trigger] (n % grid) != 0 by {
                if n % grid == 0 {
                    vstd::arithmetic::div_mod::lemma_fundamental_div_mod(n, grid);
                    assert(n == grid * (n / grid));
                    assert(n / grid <= full / grid) by {
                        vstd::arithmetic::div_mod::lemma_div_is_ordered(n, full, grid);
                    }
                    assert(grid * (n / grid) <= grid * (full / grid)) by (nonlinear_arith)
                        requires
                            n / grid <= full / grid,
                            grid > 0,
                    ;
                }
            }
        }
    }
}

} // verus!
