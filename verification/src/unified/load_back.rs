//! The end of a load-back: host runs that are on the device again.

use crate::hi_model::run_or_none;
use crate::seqs;
use crate::seqs::{copy_opt, copy_range};
use crate::topo;
use crate::topo::NodeId;
use crate::unified;
use crate::unified::model;
use crate::unified::model::{UNodeState, UState};
use crate::unified::transfers;
use crate::unified::tree::UnifiedRadixTree;
use crate::unified::{Act, UCacheAction, UTransfer, Xfer, CT_FULL, CT_MAMBA, CT_SWA};
use vstd::prelude::*;

verus! {

impl UState {
    /// `ids` held by a load-back for `node`.
    pub open spec fn held_for(self, ids: Seq<NodeId>, node: NodeId) -> UState
        decreases ids.len(),
    {
        if ids.len() == 0 {
            self
        } else {
            let t = self.held_for(ids.drop_last(), node);
            t.patched(ids.last(), UNodeState { lb: Some(node), ..t.nodes[ids.last() as int] })
        }
    }

    /// `x` with the device KV `v`.
    pub open spec fn kv_loaded_on(self, x: NodeId, v: Seq<i64>) -> UState {
        self.patched(x, self.nodes[x as int].with_value(0, Some(v))).logged(1, x, 1)
    }

    /// FULL host tokens of `x`.
    pub open spec fn kv_len(self, x: NodeId) -> int {
        run_or_none(self.nodes[x as int].host[0]).len() as int
    }

    /// Device KV for `ids`, one after the other, out of `dev`.
    pub open spec fn kv_loaded(self, ids: Seq<NodeId>, dev: Seq<i64>) -> UState
        decreases ids.len(),
    {
        if ids.len() == 0 {
            self
        } else {
            let n = self.kv_len(ids[0]);
            self.kv_loaded_on(ids[0], dev.take(n)).kv_loaded(ids.skip(1), dev.skip(n))
        }
    }

    /// Whether `ids` can have device KV out of `dev`: each is evicted and
    /// hangs below device KV when its turn comes, and there is enough.
    pub open spec fn kv_loadable(self, ids: Seq<NodeId>, dev: Seq<i64>) -> bool
        decreases ids.len(),
    {
        if ids.len() == 0 {
            true
        } else {
            let x = ids[0];
            let n = self.kv_len(x);
            &&& self.inner(x)
            &&& self.nodes[x as int].value[0] is None
            &&& self.nodes[self.shape.nodes[x as int].parent as int].value[0] is Some
            &&& n <= dev.len()
            &&& self.size(0) + n <= i64::MAX
            &&& self.kv_loaded_on(x, dev.take(n)).kv_loadable(ids.skip(1), dev.skip(n))
        }
    }

    /// Window slots on the device for `ids`, one after the other, out of
    /// `dev`. Also the KV runs and window runs that go together.
    pub open spec fn windows_loaded(self, ids: Seq<NodeId>, dev: Seq<i64>) -> (
        UState,
        Seq<Seq<i64>>,
        Seq<Seq<i64>>,
    )
        decreases ids.len(),
    {
        if ids.len() == 0 {
            (self, Seq::empty(), Seq::empty())
        } else {
            let x = ids[0];
            let n = run_or_none(self.nodes[x as int].host[1]).len() as int;
            let (t, full, swa) = self.stored(x, 1, dev.take(n)).windows_loaded(ids.skip(1), dev.skip(n));
            (t, seq![run_or_none(self.nodes[x as int].value[0])] + full, seq![dev.take(n)] + swa)
        }
    }

    /// Whether `ids` can have window slots on the device out of `dev`.
    pub open spec fn windows_loadable(self, ids: Seq<NodeId>, dev: Seq<i64>) -> bool
        decreases ids.len(),
    {
        if ids.len() == 0 {
            true
        } else {
            let x = ids[0];
            let n = run_or_none(self.nodes[x as int].host[1]).len() as int;
            &&& self.inner(x)
            &&& self.nodes[x as int].value[0] is Some
            &&& self.nodes[x as int].value[1] is None
            &&& self.nodes[x as int].host[1] is Some
            &&& n <= dev.len()
            &&& self.size(1) + n <= i64::MAX
            &&& self.stored(x, 1, dev.take(n)).windows_loadable(ids.skip(1), dev.skip(n))
        }
    }

    /// The transfers `xs` of component `ct` at their end on the device.
    pub open spec fn comp_loaded(self, node: NodeId, ct: u8, xs: Seq<Xfer>) -> (UState, Seq<Act>) {
        if xs.len() == 0 {
            (self, Seq::empty())
        } else if ct == CT_SWA {
            let (t, full, swa) = self.windows_loaded(xs[0].nodes, run_or_none(xs[0].device));
            (
                t,
                if full.len() > 0 {
                    seq![Act::Remap { full, swa }]
                } else {
                    Seq::empty()
                },
            )
        } else if ct == CT_MAMBA && xs[0].device is Some {
            (self.stored(node, 2, xs[0].device->0), Seq::empty())
        } else {
            (self, Seq::empty())
        }
    }

    /// Whether the transfers `xs` of component `ct` can end on the device.
    pub open spec fn comp_loadable(self, node: NodeId, ct: u8, xs: Seq<Xfer>) -> bool {
        &&& xs.len() > 0 && ct == CT_SWA ==> {
            &&& self.cfg.swa()
            &&& xs[0].device is Some
            &&& self.windows_loadable(xs[0].nodes, xs[0].device->0)
        }
        &&& xs.len() > 0 && ct == CT_MAMBA && xs[0].device is Some ==> {
            &&& self.cfg.mamba()
            &&& self.inner(node)
            &&& self.nodes[node as int].value[0] is Some
            &&& self.nodes[node as int].value[2] is None
            &&& self.size(2) + xs[0].device->0.len() <= i64::MAX
        }
    }

    /// The transfers of the components `comps` at their end.
    pub open spec fn comps_loaded(self, node: NodeId, comps: Seq<(u8, Seq<Xfer>)>) -> (UState, Seq<Act>)
        decreases comps.len(),
    {
        if comps.len() == 0 {
            (self, Seq::empty())
        } else {
            let (a, acts) = self.comp_loaded(node, comps[0].0, comps[0].1);
            let (b, more) = a.comps_loaded(node, comps.skip(1));
            (b, acts + more)
        }
    }

    /// Whether the transfers of the components `comps` can end.
    pub open spec fn comps_loadable(self, node: NodeId, comps: Seq<(u8, Seq<Xfer>)>) -> bool
        decreases comps.len(),
    {
        if comps.len() == 0 {
            true
        } else {
            &&& self.comp_loadable(node, comps[0].0, comps[0].1)
            &&& self.comp_loaded(node, comps[0].0, comps[0].1).0.comps_loadable(node, comps.skip(1))
        }
    }

    /// The nodes of a load-back for `node` with their device KV; held until
    /// it ends where the tree writes back.
    pub open spec fn kv_committed(self, node: NodeId, dev: Option<Seq<i64>>, ids: Seq<NodeId>) -> UState {
        let a = if self.cfg.is_write_back {
            self.held_for(ids, node)
        } else {
            self
        };
        match dev {
            Some(d) => a.kv_loaded(ids, d),
            None => a,
        }
    }

    /// A load-back for `node` at its end.
    pub open spec fn load_back_committed(
        self,
        node: NodeId,
        dev: Option<Seq<i64>>,
        ids: Seq<NodeId>,
        comps: Seq<(u8, Seq<Xfer>)>,
    ) -> (UState, Seq<Act>) {
        self.kv_committed(node, dev, ids).comps_loaded(node, comps)
    }

    /// Whether a load-back for `node` can end.
    pub open spec fn load_back_fits(
        self,
        node: NodeId,
        dev: Option<Seq<i64>>,
        ids: Seq<NodeId>,
        comps: Seq<(u8, Seq<Xfer>)>,
    ) -> bool {
        &&& self.cfg.is_write_back ==> forall|k: int|
            0 <= k < ids.len() ==> self.live(#[trigger] ids[k]) && (self.nodes[ids[k] as int].lb is None
                || self.nodes[ids[k] as int].lb == Some(node))
        &&& dev matches Some(d) ==> (if self.cfg.is_write_back {
            self.held_for(ids, node)
        } else {
            self
        }).kv_loadable(ids, d)
        &&& self.kv_committed(node, dev, ids).comps_loadable(node, comps)
    }
}

impl UnifiedRadixTree {
    /// Marks `ids` as held by a load-back for `node`.
    fn hold_for(&mut self, ids: &[u32], node: NodeId)
        requires
            old(self).wf(),
            forall|k: int| 0 <= k < ids@.len() ==> old(self)@.live(#[trigger] ids@[k]),
        ensures
            final(self).wf(),
            final(self)@ == old(self)@.held_for(ids@, node),
    {
        let ghost st = self@;
        let mut k: usize = 0;
        assert(ids@.take(0).len() == 0);
        while k < ids.len()
            invariant
                self.wf(),
                k <= ids@.len(),
                forall|k: int| 0 <= k < ids@.len() ==> st.live(#[trigger] ids@[k]),
                self@ == st.held_for(ids@.take(k as int), node),
                self@.shape == st.shape,
                self@.nodes.len() == st.nodes.len(),
            decreases ids@.len() - k,
        {
            assert(ids@.take(k + 1).drop_last() =~= ids@.take(k as int));
            assert(st.live(ids@[k as int]));
            self.set_lb(ids[k], Some(node));
            k += 1;
        }
        assert(ids@.take(k as int) =~= ids@);
    }

    /// Gives `ids` device KV out of `dev`.
    fn load_kv(&mut self, ids: &[u32], dev: &[i64])
        requires
            old(self).wf(),
            old(self)@.kv_loadable(ids@, dev@),
        ensures
            final(self).wf(),
            final(self)@ == old(self)@.kv_loaded(ids@, dev@),
    {
        let ghost goal = self@.kv_loaded(ids@, dev@);
        let mut k: usize = 0;
        let mut at: usize = 0;
        proof {
            assert(ids@.skip(0) =~= ids@);
            assert(dev@.skip(0) =~= dev@);
        }
        while k < ids.len()
            invariant
                self.wf(),
                k <= ids@.len(),
                at <= dev@.len(),
                self@.kv_loadable(ids@.skip(k as int), dev@.skip(at as int)),
                self@.kv_loaded(ids@.skip(k as int), dev@.skip(at as int)) == goal,
            decreases ids@.len() - k,
        {
            let x = ids[k];
            let ghost st = self@;
            proof {
                self.lemma_wf();
                assert(ids@.skip(k as int)[0] == x);
                assert(st.node_ok(x as int));
            }
            let n = match self.copy_host(x, CT_FULL) {
                Some(h) => h.len(),
                None => 0,
            };
            assert(at + n <= dev.len());
            let chunk = copy_range(dev, at, at + n);
            proof {
                assert(chunk@ =~= dev@.skip(at as int).take(n as int));
                assert(ids@.skip(k as int).skip(1) =~= ids@.skip(k + 1));
                assert(dev@.skip(at as int).skip(n as int) =~= dev@.skip(at + n));
            }
            self.set_full(x, Some(chunk));
            self.log(1, x, 1);
            k += 1;
            at += n;
        }
    }

    /// Gives `ids` window slots on the device out of `dev`; the KV runs and
    /// window runs that go together.
    fn load_windows(&mut self, ids: &Vec<NodeId>, dev: &Vec<i64>) -> (r: (Vec<Vec<i64>>, Vec<Vec<i64>>))
        requires
            old(self).wf(),
            old(self)@.cfg.swa(),
            old(self)@.windows_loadable(ids@, dev@),
        ensures
            final(self).wf(),
            (final(self)@, unified::runs(r.0@), unified::runs(r.1@)) == old(self)@.windows_loaded(ids@, dev@),
    {
        let ghost goal = self@.windows_loaded(ids@, dev@);
        let mut full: Vec<Vec<i64>> = Vec::new();
        let mut swa: Vec<Vec<i64>> = Vec::new();
        let mut k: usize = 0;
        let mut at: usize = 0;
        proof {
            assert(ids@.skip(0) =~= ids@);
            assert(dev@.skip(0) =~= dev@);
            assert(unified::runs(full@) + goal.1 =~= goal.1);
            assert(unified::runs(swa@) + goal.2 =~= goal.2);
        }
        while k < ids.len()
            invariant
                self.wf(),
                self@.cfg.swa(),
                k <= ids@.len(),
                at <= dev@.len(),
                self@.windows_loadable(ids@.skip(k as int), dev@.skip(at as int)),
                ({
                    let (t, f, s) = self@.windows_loaded(ids@.skip(k as int), dev@.skip(at as int));
                    &&& t == goal.0
                    &&& unified::runs(full@) + f == goal.1
                    &&& unified::runs(swa@) + s == goal.2
                }),
            decreases ids@.len() - k,
        {
            let x = ids[k];
            let ghost st = self@;
            let ghost (f0, s0) = (unified::runs(full@), unified::runs(swa@));
            proof {
                self.lemma_wf();
                assert(ids@.skip(k as int)[0] == x);
                assert(st.node_ok(x as int));
            }
            let n = match self.copy_host(x, CT_SWA) {
                Some(h) => h.len(),
                None => 0,
            };
            assert(at + n <= dev.len());
            let chunk = copy_range(dev.as_slice(), at, at + n);
            let copy = copy_range(dev.as_slice(), at, at + n);
            let own = match self.copy_device(x, CT_FULL) {
                Some(v) => v,
                None => Vec::new(),
            };
            let ghost (cs, os) = (chunk@, own@);
            proof {
                assert(cs =~= dev@.skip(at as int).take(n as int));
                assert(copy@ =~= cs);
                assert(ids@.skip(k as int).skip(1) =~= ids@.skip(k + 1));
                assert(dev@.skip(at as int).skip(n as int) =~= dev@.skip(at + n));
            }
            self.store(x, CT_SWA, chunk);
            full.push(own);
            swa.push(copy);
            proof {
                let (t, f, s) = self@.windows_loaded(ids@.skip(k + 1), dev@.skip(at + n));
                assert(unified::runs(full@) =~= f0.push(os));
                assert(unified::runs(swa@) =~= s0.push(cs));
                assert(f0 + (seq![os] + f) =~= f0.push(os) + f);
                assert(s0 + (seq![cs] + s) =~= s0.push(cs) + s);
            }
            k += 1;
            at += n;
        }
        proof {
            assert(unified::runs(full@) + Seq::<Seq<i64>>::empty() =~= unified::runs(full@));
            assert(unified::runs(swa@) + Seq::<Seq<i64>>::empty() =~= unified::runs(swa@));
        }
        (full, swa)
    }

    /// Ends the transfers `xs` of component `ct`.
    fn load_comp(&mut self, node: NodeId, ct: u8, xs: &Vec<UTransfer>) -> (r: Option<UCacheAction>)
        requires
            old(self).wf(),
            old(self)@.comp_loadable(node, ct, unified::xfers(xs@)),
        ensures
            final(self).wf(),
            (final(self)@, crate::unified::matching::opt_list(unified::opt_act(r))) == old(self)@.comp_loaded(
                node,
                ct,
                unified::xfers(xs@),
            ),
    {
        if xs.len() == 0 {
            return None;
        }
        assert(unified::xfers(xs@)[0] == xs@[0]@);
        let dev = copy_opt(&xs[0].device_indices);
        if ct == CT_SWA {
            if let Some(d) = dev {
                let (full_indices, swa_indices) = self.load_windows(&xs[0].nodes_to_load, &d);
                if full_indices.len() > 0 {
                    return Some(UCacheAction::RebuildFullToSWAMapping { full_indices, swa_indices });
                }
            }
        } else if ct == CT_MAMBA {
            if let Some(d) = dev {
                self.store(node, CT_MAMBA, d);
            }
        }
        None
    }

    /// Ends a load-back for `node`: the nodes `kv_nodes_to_load` have device
    /// KV out of `device_indices`, other components as `comp_xfers` say.
    pub fn commit_load_back(
        &mut self,
        node: NodeId,
        device_indices: Option<&[i64]>,
        kv_nodes_to_load: &[u32],
        comp_xfers: &[(u8, Vec<UTransfer>)],
    ) -> (r: Vec<UCacheAction>)
        requires
            old(self).wf(),
            old(self)@.load_back_fits(
                node,
                transfers::opt_slice(device_indices),
                kv_nodes_to_load@,
                unified::comp_xfers(comp_xfers@),
            ),
        ensures
            final(self).wf(),
            (final(self)@, unified::acts(r@)) == old(self)@.load_back_committed(
                node,
                transfers::opt_slice(device_indices),
                kv_nodes_to_load@,
                unified::comp_xfers(comp_xfers@),
            ),
    {
        let ghost st = self@;
        if self.is_write_back() {
            self.hold_for(kv_nodes_to_load, node);
        }
        if let Some(d) = device_indices {
            self.load_kv(kv_nodes_to_load, d);
        }
        let ghost base = self@;
        let ghost comps = unified::comp_xfers(comp_xfers@);
        let ghost goal = base.comps_loaded(node, comps);
        let mut acts: Vec<UCacheAction> = Vec::new();
        let mut k: usize = 0;
        proof {
            assert(comps.skip(0) =~= comps);
            assert(unified::acts(acts@) + goal.1 =~= goal.1);
        }
        while k < comp_xfers.len()
            invariant
                self.wf(),
                k <= comp_xfers@.len(),
                comps == unified::comp_xfers(comp_xfers@),
                self@.comps_loadable(node, comps.skip(k as int)),
                ({
                    let (t, more) = self@.comps_loaded(node, comps.skip(k as int));
                    &&& t == goal.0
                    &&& unified::acts(acts@) + more == goal.1
                }),
            decreases comp_xfers@.len() - k,
        {
            let ct = comp_xfers[k].0;
            let ghost before = unified::acts(acts@);
            let ghost cur = self@;
            proof {
                assert(comps.skip(k as int)[0] == (ct, unified::xfers(comp_xfers@[k as int].1@)));
                assert(comps.skip(k as int).skip(1) =~= comps.skip(k + 1));
            }
            let a = self.load_comp(node, ct, &comp_xfers[k].1);
            let ghost news = crate::unified::matching::opt_list(unified::opt_act(a));
            match a {
                Some(a) => {
                    acts.push(a);
                    assert(unified::acts(acts@) =~= before + news);
                },
                None => {
                    assert(before =~= before + news);
                },
            }
            proof {
                let (t, more) = self@.comps_loaded(node, comps.skip(k + 1));
                assert((before + news) + more =~= before + (news + more));
            }
            k += 1;
        }
        assert(unified::acts(acts@) + Seq::<Act>::empty() =~= unified::acts(acts@));
        acts
    }
}

} // verus!
