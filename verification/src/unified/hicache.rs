//! The host tier of the unified tree: marks of transfers in flight, and what
//! their ends change.

use crate::seqs;
use crate::seqs::{copy_opt, copy_range};
use crate::topo;
use crate::topo::NodeId;
use crate::unified;
use crate::unified::model;
use crate::unified::model::{UNodeState, UState};
use crate::unified::tree::UnifiedRadixTree;
use crate::unified::{UTransfer, Xfer, CT_MAMBA, CT_SWA};
use vstd::prelude::*;

verus! {

impl UState {
    // ---- write-through ----

    /// A write-through of `node` in flight, with the node as its mark.
    pub open spec fn write_through_marked(self, node: NodeId) -> UState {
        self.patched(node, UNodeState { wt: Some(node as i64), ..self.nodes[node as int] })
    }

    /// The write-through `ack` of `node` at its end: the host copy now counts.
    pub open spec fn write_through_done(self, node: NodeId, ack: i64) -> UState {
        let n = self.nodes[node as int];
        (if n.wt == Some(ack) {
            self.patched(node, UNodeState { wt: None, ..n }).noted(node)
        } else {
            self
        }).logged(1, node, 2)
    }

    /// The write-through `ack` of `ids` at its end.
    pub open spec fn write_throughs_done(self, ids: Seq<NodeId>, ack: i64) -> UState
        decreases ids.len(),
    {
        if ids.len() == 0 {
            self
        } else {
            self.write_throughs_done(ids.drop_last(), ack).write_through_done(ids.last(), ack)
        }
    }

    // ---- backup ----

    /// A host run of component `ct` on `node`, unless it has one.
    pub open spec fn comp_backed_up(self, node: NodeId, ct: u8, xs: Seq<Xfer>) -> UState {
        if xs.len() > 0 && xs[0].host is Some && self.nodes[node as int].host[ct as int] is None {
            self.hosted(node, ct as int, xs[0].host->0)
        } else {
            self
        }
    }

    /// Host runs of the components `comps` on `node`.
    pub open spec fn comps_backed_up(self, node: NodeId, comps: Seq<(u8, Seq<Xfer>)>) -> UState
        decreases comps.len(),
    {
        if comps.len() == 0 {
            self
        } else {
            self.comps_backed_up(node, comps.drop_last()).comp_backed_up(node, comps.last().0, comps.last().1)
        }
    }

    /// A backup of `node` at its end.
    pub open spec fn backup_committed(self, node: NodeId, host: Seq<i64>, comps: Seq<(u8, Seq<Xfer>)>) -> UState {
        (if host.len() > 0 {
            self.patched(node, self.nodes[node as int].with_host(0, Some(host)))
        } else {
            self
        }).comps_backed_up(node, comps)
    }

    /// Whether a transfer of component `ct` from the device can end on
    /// `node`.
    pub open spec fn backup_fits(self, node: NodeId, ct: u8, xs: Seq<Xfer>) -> bool {
        &&& ct == CT_SWA || ct == CT_MAMBA
        &&& self.cfg.active(ct as int)
        &&& xs.len() > 0 && xs[0].host is Some && self.nodes[node as int].host[ct as int] is None ==> {
            &&& self.nodes[node as int].value[ct as int] is Some
            &&& ct == CT_SWA ==> xs[0].host->0.len() == self.units(node)
        }
    }

    // ---- load-back ----

    /// The end of a load-back for `anchor` on the first `k` of `ids`: where
    /// the tree writes back, on those that it holds.
    pub open spec fn load_back_finished(self, ids: Seq<NodeId>, k: int, anchor: NodeId) -> UState
        decreases k,
    {
        if k <= 0 {
            self
        } else {
            let t = self.load_back_finished(ids, k - 1, anchor);
            let x = ids[k - 1];
            let n = t.nodes[x as int];
            if !t.cfg.is_write_back {
                t.noted(x)
            } else if n.lb == Some(anchor) {
                t.patched(x, UNodeState { lb: None, ..n }).noted(x)
            } else {
                t
            }
        }
    }
}

impl UnifiedRadixTree {
    /// Marks a write-through of `node` as in flight.
    pub fn mark_write_through_pending(&mut self, node: NodeId)
        requires
            old(self).wf(),
            old(self)@.live(node),
        ensures
            final(self).wf(),
            final(self)@ == old(self)@.write_through_marked(node),
    {
        self.set_wt(node, Some(node as i64));
    }

    /// Ends the write-through `ack_id` of `node_ids`.
    pub fn finish_write_through(&mut self, node_ids: &[u32], ack_id: i64)
        requires
            old(self).wf(),
            forall|k: int| 0 <= k < node_ids@.len() ==> old(self)@.live(#[trigger] node_ids@[k]),
        ensures
            final(self).wf(),
            final(self)@ == old(self)@.write_throughs_done(node_ids@, ack_id),
    {
        let ghost st = self@;
        let mut k: usize = 0;
        assert(node_ids@.take(0).len() == 0);
        while k < node_ids.len()
            invariant
                self.wf(),
                k <= node_ids@.len(),
                forall|k: int| 0 <= k < node_ids@.len() ==> st.live(#[trigger] node_ids@[k]),
                self@ == st.write_throughs_done(node_ids@.take(k as int), ack_id),
                self@.shape == st.shape,
                self@.nodes.len() == st.nodes.len(),
            decreases node_ids@.len() - k,
        {
            let x = node_ids[k];
            let ghost cur = self@;
            assert(st.live(node_ids@[k as int]));
            assert(node_ids@.take(k + 1).drop_last() =~= node_ids@.take(k as int));
            let hit = match self.node_by_id(x).wt_pending {
                Some(a) => a == ack_id,
                None => false,
            };
            if hit {
                self.set_wt(x, None);
                self.update_duplicate_tracking(x);
            }
            self.log(1, x, 2);
            assert(self@ == cur.write_through_done(x, ack_id));
            k += 1;
        }
        assert(node_ids@.take(k as int) =~= node_ids@);
    }

    /// The namespace of `node`.
    pub fn prefetch_anchor_ns(&self, node: NodeId) -> (r: u32)
        requires
            self.wf(),
            self@.live(node),
        ensures
            r == self@.shape.nodes[node as int].ns,
    {
        proof {
            self.lemma_wf();
        }
        self.topo().ns(node)
    }

    /// Ends a backup of `node` into the host slots `host_indices`, and of
    /// other components as `comp_xfers` say.
    pub fn commit_backup(&mut self, node: NodeId, host_indices: &[i64], comp_xfers: &[(u8, Vec<UTransfer>)])
        requires
            old(self).wf(),
            old(self)@.inner(node),
            host_indices@.len() > 0 ==> host_indices@.len() == old(self)@.units(node),
            forall|k: int|
                0 <= k < comp_xfers@.len() ==> old(self)@.backup_fits(
                    node,
                    (#[trigger] comp_xfers@[k]).0,
                    unified::xfers(comp_xfers@[k].1@),
                ),
        ensures
            final(self).wf(),
            final(self)@ == old(self)@.backup_committed(node, host_indices@, unified::comp_xfers(comp_xfers@)),
    {
        let ghost st = self@;
        proof {
            self.lemma_wf();
            assert(st.node_ok(node as int));
        }
        if host_indices.len() > 0 {
            let copy = copy_range(host_indices, 0, host_indices.len());
            assert(copy@ =~= host_indices@);
            self.set_full_host(node, Some(copy));
        }
        let ghost base = self@;
        let ghost comps = unified::comp_xfers(comp_xfers@);
        let mut k: usize = 0;
        assert(comps.take(0).len() == 0);
        while k < comp_xfers.len()
            invariant
                self.wf(),
                k <= comp_xfers@.len(),
                comps == unified::comp_xfers(comp_xfers@),
                self@ == base.comps_backed_up(node, comps.take(k as int)),
                self@.cfg == st.cfg,
                self@.inner(node),
                self@.units(node) == st.units(node),
                self@.nodes[node as int].value == st.nodes[node as int].value,
                self@.nodes[node as int].host[1] is None ==> st.nodes[node as int].host[1] is None,
                self@.nodes[node as int].host[2] is None ==> st.nodes[node as int].host[2] is None,
                forall|k: int|
                    0 <= k < comp_xfers@.len() ==> st.backup_fits(
                        node,
                        (#[trigger] comp_xfers@[k]).0,
                        unified::xfers(comp_xfers@[k].1@),
                    ),
            decreases comp_xfers@.len() - k,
        {
            let ghost cur = self@;
            let ct = comp_xfers[k].0;
            let xs = &comp_xfers[k].1;
            proof {
                self.lemma_wf();
                assert(cur.node_ok(node as int));
                assert(comps.take(k + 1).drop_last() =~= comps.take(k as int));
                assert(comps[k as int] == (ct, unified::xfers(xs@)));
                assert(st.backup_fits(node, comp_xfers@[k as int].0, unified::xfers(comp_xfers@[k as int].1@)));
            }
            let none = self.copy_host(node, ct).is_none();
            if xs.len() > 0 && none {
                assert(unified::xfers(xs@)[0] == xs@[0]@);
                if let Some(h) = copy_opt(&xs[0].host_indices) {
                    self.store_host(node, ct, h);
                }
            }
            assert(self@ == cur.comp_backed_up(node, ct, unified::xfers(xs@)));
            k += 1;
        }
        assert(comps.take(k as int) =~= comps);
    }

    /// Ends a load-back for `anchor`.
    pub fn finish_load_back(&mut self, anchor: NodeId)
        requires
            old(self).wf(),
            old(self)@.live(anchor),
        ensures
            final(self).wf(),
            ({
                let up = old(self)@.shape.up(anchor);
                final(self)@ == old(self)@.load_back_finished(up, up.len() as int, anchor)
            }),
    {
        let ghost st = self@;
        let up = self.up(anchor);
        let mut k: usize = 0;
        while k < up.len()
            invariant
                self.wf(),
                k <= up@.len(),
                up@ == st.shape.up(anchor),
                forall|j: int| 0 <= j < up@.len() ==> st.inner(#[trigger] up@[j]),
                self@ == st.load_back_finished(up@, k as int, anchor),
                self@.shape == st.shape,
                self@.nodes.len() == st.nodes.len(),
            decreases up@.len() - k,
        {
            let x = up[k];
            assert(st.inner(up@[k as int]));
            if !self.is_write_back() {
                self.update_duplicate_tracking(x);
            } else {
                let hit = match self.node_by_id(x).lb_pending {
                    Some(a) => a == anchor,
                    None => false,
                };
                if hit {
                    self.set_lb(x, None);
                    self.update_duplicate_tracking(x);
                }
            }
            k += 1;
        }
    }
}

} // verus!
