//! What a transfer plan moves: just what is missing where it goes.

use crate::chains;
use crate::topo::NodeId;
use crate::unified::fitting;
use crate::unified::matching;
use crate::unified::model::UState;
use crate::unified::transfers;
use crate::unified::transfers::PHASE_LOAD_BACK;
use crate::unified::{Xfer, CT_MAMBA, CT_SWA};
use vstd::prelude::*;

verus! {

/// Whether `y` is a node of the path of `node` that covers one of the last
/// window of tokens and has no window slots on the device.
pub open spec fn lacks_window(st: UState, node: NodeId, y: NodeId) -> bool {
    let up = st.shape.up(node);
    exists|k: int|
        0 <= k < up.len() && #[trigger] up[k] == y && chains::tokens(st.shape, up, k) < st.cfg.sliding_window_size
            && st.nodes[y as int].value[1] is None
}

proof fn lemma_span(st: UState, up: Seq<NodeId>, k: int)
    requires
        0 <= k <= up.len(),
        forall|j: int| 0 <= j < up.len() ==> st.shape.units((#[trigger] up[j]) as int) >= 0,
        forall|j: int| 0 <= j < k ==> #[trigger] chains::tokens(st.shape, up, j) < st.cfg.sliding_window_size,
    ensures
        k <= st.window_span(up, k) <= up.len(),
        forall|j: int|
            0 <= j < up.len() ==> (#[trigger] chains::tokens(st.shape, up, j) < st.cfg.sliding_window_size) == (j
                < st.window_span(up, k)),
    decreases up.len() - k,
{
    if k < up.len() && chains::tokens(st.shape, up, k) < st.cfg.sliding_window_size {
        lemma_span(st, up, k + 1);
    } else {
        assert forall|j: int|
            0 <= j < up.len() implies (#[trigger] chains::tokens(st.shape, up, j) < st.cfg.sliding_window_size) == (j
            < k) by {
            if j >= k {
                chains::lemma_tokens_le(st.shape, up, k, j);
            }
        }
    }
}

proof fn lemma_loads(st: UState, up: Seq<NodeId>, k: int)
    requires
        0 <= k <= up.len(),
    ensures
        forall|y: NodeId| #[trigger]
            st.window_loads(up, k).contains(y) <==> exists|j: int|
                0 <= j < k && #[trigger] up[j] == y && st.nodes[y as int].value[1] is None,
        forall|i: int| 0 <= i < st.window_loads(up, k).len() ==> exists|j: int|
            0 <= j < k && #[trigger] up[j] == #[trigger] st.window_loads(up, k)[i],
    decreases k,
{
    let xs = st.window_loads(up, k);
    if k > 0 {
        lemma_loads(st, up, k - 1);
        let less = st.window_loads(up, k - 1);
        let x = up[k - 1];
        assert forall|y: NodeId| #[trigger] xs.contains(y) <==> exists|j: int|
            0 <= j < k && #[trigger] up[j] == y && st.nodes[y as int].value[1] is None by {
            if st.nodes[x as int].value[1] is None {
                assert(xs[0] == x);
                if less.contains(y) {
                    assert(xs[less.index_of(y) + 1] == y);
                }
                if xs.contains(y) && y != x {
                    assert(less[xs.index_of(y) - 1] == y);
                }
            }
            if xs.contains(y) {
                if less.contains(y) {
                    let j = choose|j: int| 0 <= j < k - 1 && #[trigger] up[j] == y && st.nodes[y as int].value[1] is None;
                    assert(up[j] == y);
                } else {
                    assert(up[k - 1] == y);
                }
            }
            if exists|j: int| 0 <= j < k && #[trigger] up[j] == y && st.nodes[y as int].value[1] is None {
                let j = choose|j: int| 0 <= j < k && #[trigger] up[j] == y && st.nodes[y as int].value[1] is None;
                if j < k - 1 {
                    assert(less.contains(y));
                }
            }
        }
        assert forall|i: int| 0 <= i < xs.len() implies exists|j: int| 0 <= j < k && #[trigger] up[j] == #[trigger] xs[i] by {
            assert(xs.contains(xs[i]));
            let y = xs[i];
            let j = choose|j: int| 0 <= j < k && #[trigger] up[j] == y && st.nodes[y as int].value[1] is None;
            assert(up[j] == xs[i]);
        }
    }
}

/// The plan to load window slots back for `node` moves the host slots of just
/// those nodes that the last window of tokens needs and the device lacks;
/// there is none only if the window is whole on the device.
pub proof fn law_window_load_plan(st: UState, node: NodeId)
    requires
        st.wf(),
        st.inner(node),
        !st.poolless(),
    ensures
        st.swa_transfer(node, PHASE_LOAD_BACK, None) is None ==> fitting::window_kept(st, node, true),
        st.swa_transfer(node, PHASE_LOAD_BACK, None) matches Some(x) ==> {
            &&& x.nodes.len() > 0
            &&& forall|y: NodeId| #[trigger] x.nodes.contains(y) <==> lacks_window(st, node, y)
            &&& x.host == Some(st.host_runs(x.nodes, 1))
            &&& x.device is None
        },
{
    let up = st.shape.up(node);
    let n = st.window_span(up, 0);
    let ids = st.window_loads(up, n);
    assert forall|j: int| 0 <= j < up.len() implies st.shape.units((#[trigger] up[j]) as int) >= 0 by {
        matching::lemma_up_tokens(st.shape, node);
    }
    lemma_span(st, up, 0);
    lemma_loads(st, up, n);
    assert forall|y: NodeId| #[trigger] ids.contains(y) <==> lacks_window(st, node, y) by {
        if ids.contains(y) {
            let j = choose|j: int| 0 <= j < n && #[trigger] up[j] == y && st.nodes[y as int].value[1] is None;
            assert(up[j] == y);
            assert(chains::tokens(st.shape, up, j) < st.cfg.sliding_window_size);
        }
        if lacks_window(st, node, y) {
            let k = choose|k: int|
                0 <= k < up.len() && #[trigger] up[k] == y && chains::tokens(st.shape, up, k)
                    < st.cfg.sliding_window_size && st.nodes[y as int].value[1] is None;
            assert(k < n);
            assert(up[k] == y);
        }
    }
    if ids.len() == 0 {
        assert forall|j: int|
            #![trigger up[j]]
            0 <= j < up.len() && chains::tokens(st.shape, up, j) < st.cfg.sliding_window_size implies fitting::holds(
            st.nodes[up[j] as int],
            1,
            true,
        ) by {
            if st.nodes[up[j] as int].value[1] is None {
                assert(lacks_window(st, node, up[j]));
                assert(ids.contains(up[j]));
            }
        }
    }
}

/// The plan to back `node` up moves its FULL slots if they have no host copy,
/// and of the other components just those slots on the device that have none.
pub proof fn law_backup_plan(st: UState, node: NodeId)
    requires
        st.wf(),
        st.inner(node),
    ensures
        ({
            let n = st.nodes[node as int];
            let (kv, comps) = st.backup_spec(node);
            &&& n.host[0] is Some ==> kv.len() == 0
            &&& n.host[0] is None ==> n.value[0] == Some(kv)
            &&& forall|ct: u8|
                ct == CT_SWA || ct == CT_MAMBA ==> (#[trigger] planned(comps, ct)) == (st.cfg.active(ct as int)
                    && n.value[ct as int] is Some && n.host[ct as int] is None && (ct == CT_SWA ==> !st.poolless()))
            &&& forall|k: int|
                #![trigger comps[k]]
                0 <= k < comps.len() ==> {
                    let (ct, xs) = comps[k];
                    &&& ct == CT_SWA || ct == CT_MAMBA
                    &&& xs.len() == 1
                    &&& xs[0].device == n.value[ct as int]
                    &&& xs[0].host is None
                }
        }),
{
    let n = st.nodes[node as int];
    let (kv, comps) = st.backup_spec(node);
    assert(st.node_ok(node as int));
    let swa = st.missing_transfer(CT_SWA, node);
    let mamba = st.missing_transfer(CT_MAMBA, node);
    assert(comps == transfers::comp_list(swa, mamba));
    if swa is Some {
        assert(comps[0] == (CT_SWA, seq![swa->0]));
    }
    if mamba is Some {
        assert(comps[comps.len() - 1] == (CT_MAMBA, seq![mamba->0]));
    }
    assert forall|ct: u8| ct == CT_SWA || ct == CT_MAMBA implies (#[trigger] planned(comps, ct)) == (st.cfg.active(
        ct as int,
    ) && n.value[ct as int] is Some && n.host[ct as int] is None && (ct == CT_SWA ==> !st.poolless())) by {
        if planned(comps, ct) {
            let k = choose|k: int| 0 <= k < comps.len() && (#[trigger] comps[k]).0 == ct;
            assert(comps[k].0 == ct);
        }
    }
}

/// Whether a plan has an entry for `ct`.
pub open spec fn planned(comps: Seq<(u8, Seq<Xfer>)>, ct: u8) -> bool {
    exists|k: int| 0 <= k < comps.len() && (#[trigger] comps[k]).0 == ct
}

} // verus!
