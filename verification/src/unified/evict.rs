//! Eviction in the unified tree.
//!
//! FULL device eviction goes over device leaves in strategy order; SWA and
//! MAMBA device eviction goes over their LRU lists from the old end. Host
//! eviction is driven for one component at a time; where the tree writes
//! back, host copies of what the device still holds go first.

use crate::hi_model::run_or_none;
use crate::lru;
use crate::policy::EvictionPolicy;
use crate::seqs;
use crate::seqs::copy_opt;
use crate::topo;
use crate::topo::{NodeId, ROOT};
use crate::unified;
use crate::unified::model;
use crate::unified::model::{FullWalk, LruEvictWalk, Ranked, UState};
use crate::unified::tree::{FullEvictWalk, UnifiedRadixTree};
use crate::unified::walks;
use crate::unified::{Freed, UEvictOutcome, UEvictStep, CT_FULL, CT_MAMBA, CT_SWA};
use vstd::prelude::*;

verus! {

impl UState {
    // ---- one node ----

    /// The run that goes back to the device pool of `ct`: window slots are
    /// found through the FULL run.
    pub open spec fn device_chunk(self, x: NodeId, ct: u8) -> Seq<i64> {
        run_or_none(
            self.nodes[x as int].value[if ct == CT_MAMBA {
                2
            } else {
                0
            }],
        )
    }

    /// The device run of another component than FULL evicted from `x`.
    pub open spec fn aux_evicted(self, x: NodeId, ct: u8, out: Freed) -> (UState, Freed) {
        (
            self.dropped(x, ct as int),
            out.with_device(ct, self.device_chunk(x, ct)).counting(
                ct,
                run_or_none(self.nodes[x as int].value[ct as int]).len() as i64,
            ),
        )
    }

    /// The same, if there is such a run.
    pub open spec fn aux_evicted_any(self, x: NodeId, ct: u8, out: Freed) -> (UState, Freed) {
        if self.nodes[x as int].value[ct as int] is Some {
            self.aux_evicted(x, ct, out)
        } else {
            (self, out)
        }
    }

    /// The host run of another component than FULL evicted from `x`.
    pub open spec fn aux_host_evicted(self, x: NodeId, ct: u8, out: Freed) -> (UState, Freed) {
        let h = run_or_none(self.nodes[x as int].host[ct as int]);
        (self.unhosted(x, ct as int), out.with_host(ct, h).counting(ct, h.len() as i64))
    }

    /// Whether nothing locks what an inner node loses with the device run of
    /// `ct`.
    pub open spec fn hollowable(self, x: NodeId, ct: u8) -> bool {
        let n = self.nodes[x as int];
        n.lock[ct as int] == 0 && (ct == CT_SWA ==> n.lock[2] == 0)
    }

    /// An inner node that loses the device run of `ct`; states do not
    /// outlive window slots.
    pub open spec fn hollowed(self, x: NodeId, ct: u8, out: Freed) -> (UState, Freed) {
        let (a, o) = self.aux_evicted(x, ct, out);
        if ct == CT_SWA {
            a.aux_evicted_any(x, CT_MAMBA, o)
        } else {
            (a, o)
        }
    }

    /// An inner node that loses the host run of `ct`; states do not outlive
    /// window slots.
    pub open spec fn host_hollowed(self, x: NodeId, ct: u8, out: Freed) -> (UState, Freed) {
        let (a, o) = self.aux_host_evicted(x, ct, out);
        if ct == CT_SWA && a.nodes[x as int].host[2] is Some {
            a.aux_host_evicted(x, CT_MAMBA, o)
        } else {
            (a, o)
        }
    }

    /// A backed-up device leaf that goes to the host.
    pub open spec fn demoted(self, x: NodeId, out: Freed) -> (UState, Freed) {
        let full = run_or_none(self.nodes[x as int].value[0]);
        let o = out.with_device(CT_FULL, full).counting(CT_FULL, full.len() as i64);
        let (a, oa) = self.aux_evicted_any(x, CT_SWA, o);
        let (b, ob) = a.aux_evicted_any(x, CT_MAMBA, oa);
        let c = b.patched(x, b.nodes[x as int].with_value(0, None)).logged(0, x, 1);
        (c.host_listed(x, 1).host_listed(x, 2), ob)
    }

    /// What is freed of `ct` when `x` goes with all it holds; `by_host`
    /// counts host tokens, else device tokens.
    pub open spec fn comp_released(self, x: NodeId, ct: u8, out: Freed, by_host: bool) -> Freed {
        let n = self.nodes[x as int];
        let a = if n.value[ct as int] is Some {
            out.with_device(ct, self.device_chunk(x, ct))
        } else {
            out
        };
        let b = if n.host[ct as int] is Some {
            a.with_host(ct, n.host[ct as int]->0)
        } else {
            a
        };
        b.counting(
            ct,
            run_or_none(
                if by_host {
                    n.host[ct as int]
                } else {
                    n.value[ct as int]
                },
            ).len() as i64,
        )
    }

    /// What is freed when `x` goes with all it holds.
    pub open spec fn released(self, x: NodeId, out: Freed, by_host: bool) -> Freed {
        let a = self.comp_released(x, CT_FULL, out, by_host);
        let b = self.comp_released(x, CT_SWA, a, by_host);
        self.comp_released(x, CT_MAMBA, b, by_host)
    }

    /// Leaf `x` deleted from `medium` with all it holds.
    pub open spec fn deleted(self, x: NodeId, medium: u8, out: Freed, by_host: bool) -> (UState, Freed) {
        (self.logged(0, x, medium).erased(x), self.released(x, out, by_host))
    }

    /// The eviction of the device leaf `x`: a backed-up one is demoted, one
    /// that is not is deleted, or asked to be backed up where the tree
    /// writes back.
    pub open spec fn leaf_evicted(self, x: NodeId, write_back: bool) -> (UState, Freed, Option<Seq<NodeId>>) {
        if self.backuped(x) {
            let (st, out) = self.demoted(x, Freed::none());
            (st, out, None)
        } else if write_back {
            (self, Freed::none(), Some(seq![x]))
        } else {
            let (st, out) = self.deleted(x, 1, Freed::none(), false);
            (st, out, None)
        }
    }

    /// The nodes `ids` deleted from the host, the last one first.
    pub open spec fn chain_deleted(self, ids: Seq<NodeId>, out: Freed) -> (UState, Freed)
        decreases ids.len(),
    {
        if ids.len() == 0 {
            (self, out)
        } else {
            let (a, o) = self.deleted(ids.last(), 2, out, false);
            a.chain_deleted(ids.drop_last(), o)
        }
    }

    /// Whether nothing holds the host side of the subtree of `x`.
    pub open spec fn subtree_free(self, x: NodeId) -> bool {
        forall|d: NodeId| #[trigger] self.under(x, d) ==> self.nodes[d as int].host_unlocked()
    }

    /// The device leaf `x` and the host-only nodes below it deleted, unless
    /// something holds one of them; and whether they were.
    pub open spec fn subtree_dropped(self, x: NodeId) -> (UState, Freed, bool) {
        if self.subtree_free(x) {
            let (a, o) = self.chain_deleted(self.preorder(x).skip(1), Freed::none());
            let (b, ob) = a.deleted(x, 1, o, false);
            (b, ob, true)
        } else {
            (self, Freed::none(), false)
        }
    }
}

impl UnifiedRadixTree {
    /// A copy of the device run of `ct` on `x`.
    pub(crate) fn copy_device(&self, x: NodeId, ct: u8) -> (r: Option<Vec<i64>>)
        requires
            self.wf(),
            self@.live(x),
            ct < 4,
        ensures
            seqs::opt_run(r) == self@.nodes[x as int].value[ct as int],
    {
        let n = self.node_by_id(x);
        assert(n@.value[ct as int] == seqs::opt_run(n.value@[ct as int]));
        copy_opt(&n.value[ct as usize])
    }

    /// A copy of the host run of `ct` on `x`.
    pub(crate) fn copy_host(&self, x: NodeId, ct: u8) -> (r: Option<Vec<i64>>)
        requires
            self.wf(),
            self@.live(x),
            ct < 4,
        ensures
            seqs::opt_run(r) == self@.nodes[x as int].host[ct as int],
    {
        let n = self.node_by_id(x);
        assert(n@.host[ct as int] == seqs::opt_run(n.host_value@[ct as int]));
        copy_opt(&n.host_value[ct as usize])
    }

    /// The run that goes back to the device pool of `ct`.
    fn chunk_of(&self, x: NodeId, ct: u8) -> (r: Vec<i64>)
        requires
            self.wf(),
            self@.live(x),
            ct < 3,
        ensures
            r@ == self@.device_chunk(x, ct),
    {
        match self.copy_device(x, if ct == CT_MAMBA { 2 } else { 0 }) {
            Some(v) => v,
            None => Vec::new(),
        }
    }

    /// Evicts the device run of another component than FULL, if there is one.
    fn evict_aux(&mut self, x: NodeId, ct: u8, out: &mut UEvictOutcome)
        requires
            old(self).wf(),
            old(self)@.inner(x),
            ct == 1 || ct == 2,
            old(self)@.nodes[x as int].lock[ct as int] == 0,
        ensures
            final(self).wf(),
            (final(self)@, final(out).freed()) == old(self)@.aux_evicted_any(x, ct, old(out).freed()),
            final(out).is_dropped == old(out).is_dropped,
            final(out).backup_kv == old(out).backup_kv,
    {
        if let Some(v) = self.copy_device(x, ct) {
            let chunk = self.chunk_of(x, ct);
            out.free_device(ct, chunk);
            out.count(ct, v.len() as i64);
            self.drop_device(x, ct);
        }
    }

    /// Evicts the host run of another component than FULL, if there is one.
    fn evict_aux_host(&mut self, x: NodeId, ct: u8, out: &mut UEvictOutcome)
        requires
            old(self).wf(),
            old(self)@.inner(x),
            ct == 1 || ct == 2,
        ensures
            final(self).wf(),
            (final(self)@, final(out).freed()) == (if old(self)@.nodes[x as int].host[ct as int] is Some {
                old(self)@.aux_host_evicted(x, ct, old(out).freed())
            } else {
                (old(self)@, old(out).freed())
            }),
            final(out).is_dropped == old(out).is_dropped,
            final(out).backup_kv == old(out).backup_kv,
    {
        if let Some(v) = self.copy_host(x, ct) {
            let n = v.len() as i64;
            out.free_host(ct, v);
            out.count(ct, n);
            self.drop_host(x, ct);
        }
    }

    /// Evicts the device run of `ct` from an inner node.
    pub(crate) fn hollow(&mut self, x: NodeId, ct: u8, out: &mut UEvictOutcome)
        requires
            old(self).wf(),
            old(self)@.inner(x),
            ct == 1 || ct == 2,
            old(self)@.nodes[x as int].value[ct as int] is Some,
            old(self)@.hollowable(x, ct),
        ensures
            final(self).wf(),
            (final(self)@, final(out).freed()) == old(self)@.hollowed(x, ct, old(out).freed()),
            final(out).is_dropped == old(out).is_dropped,
            final(out).backup_kv == old(out).backup_kv,
    {
        proof {
            self.lemma_wf();
            assert(self@.node_ok(x as int));
        }
        self.evict_aux(x, ct, out);
        if ct == CT_SWA {
            self.evict_aux(x, CT_MAMBA, out);
        }
    }

    /// Evicts the host run of `ct` from an inner node.
    pub(crate) fn hollow_host(&mut self, x: NodeId, ct: u8, out: &mut UEvictOutcome)
        requires
            old(self).wf(),
            old(self)@.inner(x),
            ct == 1 || ct == 2,
            old(self)@.nodes[x as int].host[ct as int] is Some,
        ensures
            final(self).wf(),
            (final(self)@, final(out).freed()) == old(self)@.host_hollowed(x, ct, old(out).freed()),
            final(out).is_dropped == old(out).is_dropped,
            final(out).backup_kv == old(out).backup_kv,
    {
        self.evict_aux_host(x, ct, out);
        if ct == CT_SWA {
            self.evict_aux_host(x, CT_MAMBA, out);
        }
    }

    /// Moves a backed-up device leaf to the host.
    fn demote(&mut self, x: NodeId, out: &mut UEvictOutcome)
        requires
            old(self).wf(),
            old(self)@.device_leaf(x),
            old(self)@.backuped(x),
        ensures
            final(self).wf(),
            (final(self)@, final(out).freed()) == old(self)@.demoted(x, old(out).freed()),
            final(out).is_dropped == old(out).is_dropped,
            final(out).backup_kv == old(out).backup_kv,
    {
        let ghost st = self@;
        proof {
            self.lemma_wf();
            assert(st.node_ok(x as int));
        }
        let full = self.chunk_of(x, CT_FULL);
        let n = full.len() as i64;
        out.free_device(CT_FULL, full);
        out.count(CT_FULL, n);
        self.evict_aux(x, CT_SWA, out);
        let ghost a = self@;
        self.evict_aux(x, CT_MAMBA, out);
        let ghost b = self@;
        proof {
            assert(b.nodes[x as int].value[0] is Some);
            assert forall|c: NodeId| #[trigger] b.shape.is_child(x, c) implies b.nodes[c as int].value[0] is None by {
                assert(st.shape.is_child(x, c));
                assert(c != x);
            }
        }
        self.set_full(x, None);
        self.log(0, x, 1);
        self.list_host(x, CT_SWA);
        self.list_host(x, CT_MAMBA);
    }

    /// Notes what is freed of `ct` when `x` goes.
    fn release_comp(&self, x: NodeId, ct: u8, by_host: bool, out: &mut UEvictOutcome)
        requires
            self.wf(),
            self@.live(x),
            ct < 3,
        ensures
            final(out).freed() == self@.comp_released(x, ct, old(out).freed(), by_host),
            final(out).is_dropped == old(out).is_dropped,
            final(out).backup_kv == old(out).backup_kv,
    {
        let mut n: i64 = 0;
        if let Some(v) = self.copy_device(x, ct) {
            let chunk = self.chunk_of(x, ct);
            out.free_device(ct, chunk);
            if !by_host {
                n = v.len() as i64;
            }
        }
        if let Some(v) = self.copy_host(x, ct) {
            if by_host {
                n = v.len() as i64;
            }
            out.free_host(ct, v);
        }
        out.count(ct, n);
    }

    /// Deletes leaf `x` with all it holds.
    pub(crate) fn delete_leaf(&mut self, x: NodeId, medium: u8, by_host: bool, out: &mut UEvictOutcome)
        requires
            old(self).wf(),
            old(self)@.inner(x),
            old(self)@.shape.is_leaf(x),
            old(self)@.nodes[x as int].unlocked(),
        ensures
            final(self).wf(),
            (final(self)@, final(out).freed()) == old(self)@.deleted(x, medium, old(out).freed(), by_host),
            final(out).is_dropped == old(out).is_dropped,
            final(out).backup_kv == old(out).backup_kv,
    {
        self.log(0, x, medium);
        self.release_comp(x, CT_FULL, by_host, out);
        self.release_comp(x, CT_SWA, by_host, out);
        self.release_comp(x, CT_MAMBA, by_host, out);
        self.erase(x);
    }

    /// Evicts the device leaf `node`: a backed-up one is demoted, one that
    /// is not is deleted, or its backup asked for where the tree writes back.
    pub fn evict_device_leaf(&mut self, node: NodeId, is_write_back: bool) -> (r: UEvictOutcome)
        requires
            old(self).wf(),
            old(self)@.device_leaf(node),
            !old(self)@.backuped(node) && !is_write_back ==> old(self)@.shape.is_leaf(node),
        ensures
            final(self).wf(),
            (final(self)@, r.freed(), unified::opt_ids(r.backup_kv)) == old(self)@.leaf_evicted(
                node,
                is_write_back,
            ),
            !r.is_dropped,
    {
        let mut out = UEvictOutcome::default();
        if self.is_backuped(node) {
            self.demote(node, &mut out);
        } else if is_write_back {
            let mut ids: Vec<u32> = Vec::new();
            ids.push(node);
            assert(ids@ =~= seq![node]);
            out.backup_kv = Some(ids);
        } else {
            self.delete_leaf(node, 1, false, &mut out);
        }
        out
    }

    /// Moves the backed-up device leaf `node` to the host.
    pub fn demote_node(&mut self, node: NodeId) -> (r: UEvictOutcome)
        requires
            old(self).wf(),
            old(self)@.device_leaf(node),
            old(self)@.backuped(node),
        ensures
            final(self).wf(),
            (final(self)@, r.freed()) == old(self)@.demoted(node, Freed::none()),
            !r.is_dropped,
            r.backup_kv is None,
    {
        let mut out = UEvictOutcome::default();
        self.demote(node, &mut out);
        out
    }
}

/// Below a device leaf nothing is on the device.
pub proof fn lemma_below_leaf(st: UState, x: NodeId, k: int)
    requires
        st.wf(),
        st.device_leaf(x),
        0 < k < st.preorder(x).len(),
    ensures
        st.inner(st.preorder(x)[k]),
        st.nodes[st.preorder(x)[k] as int].value[0] is None,
        st.nodes[st.preorder(x)[k] as int].unlocked(),
    decreases k,
{
    let ids = st.preorder(x);
    walks::lemma_tree_order(st, x, st.nodes.len());
    let d = ids[k];
    assert(ids.contains(d));
    assert(st.under(x, d));
    assert(d != ROOT);
    let p = st.shape.nodes[d as int].parent;
    assert(ids.take(k).contains(p));
    let j = choose|j: int| 0 <= j < k && ids.take(k)[j] == p;
    assert(st.node_ok(d as int));
    if j == 0 {
        assert(st.shape.is_child(x, d));
    } else {
        lemma_below_leaf(st, x, j);
    }
}

/// `t` is `st` without the nodes of `ids` from place `k` on.
spec fn pruned(st: UState, t: UState, ids: Seq<NodeId>, k: int) -> bool {
    &&& t.wf()
    &&& t.nodes.len() == st.nodes.len()
    &&& forall|i: int|
        0 <= i < st.nodes.len() ==> (#[trigger] t.shape.nodes[i]).parent == st.shape.nodes[i].parent && (
        t.shape.nodes[i].attached ==> st.shape.nodes[i].attached)
    &&& forall|j: int| 0 <= j < ids.len() ==> (#[trigger] ids[j]) < st.nodes.len()
    &&& forall|j: int| k <= j < ids.len() ==> !t.shape.nodes[(#[trigger] ids[j]) as int].attached
    &&& forall|j: int|
        0 <= j < k ==> t.shape.nodes[(#[trigger] ids[j]) as int].attached && t.nodes[ids[j] as int].lock
            == st.nodes[ids[j] as int].lock
}

/// Without the places from `k` on, the node before them is a leaf.
proof fn lemma_pruned_leaf(st: UState, t: UState, x: NodeId, k: int)
    requires
        st.wf(),
        st.inner(x),
        1 <= k <= st.preorder(x).len(),
        pruned(st, t, st.preorder(x), k),
    ensures
        t.shape.is_leaf(st.preorder(x)[k - 1]),
        t.inner(st.preorder(x)[k - 1]),
{
    let ids = st.preorder(x);
    walks::lemma_tree_order(st, x, st.nodes.len());
    let y = ids[k - 1];
    assert(ids.contains(y));
    assert(st.under(x, y));
    assert forall|c: NodeId| !#[trigger] t.shape.is_child(y, c) by {
        if t.shape.is_child(y, c) {
            assert(t.shape.nodes[c as int].parent == y);
            assert(st.shape.is_child(y, c));
            walks::lemma_under_kid(st, x, y, c);
            assert(ids.contains(c));
            let j = choose|j: int| 0 <= j < ids.len() && ids[j] == c;
            assert(j < k);
            assert(j > 0) by {
                if j == 0 {
                    assert(c == x);
                    walks::lemma_no_loop(st, x, y);
                }
            }
            assert(ids.take(j).contains(st.shape.nodes[ids[j] as int].parent));
            let i = choose|i: int| 0 <= i < j && ids.take(j)[i] == y;
            assert(ids[i] == ids[k - 1]);
        }
    }
}

impl UnifiedRadixTree {
    /// Deletes the device leaf `node`, which is not backed up, and the
    /// host-only nodes below it, unless something holds one of them.
    #[verifier::rlimit(30)]
    pub fn drop_subtree_no_host(&mut self, node: NodeId) -> (r: UEvictOutcome)
        requires
            old(self).wf(),
            old(self)@.device_leaf(node),
            !old(self)@.backuped(node),
            forall|d: NodeId| #[trigger] old(self)@.under(node, d) ==> old(self)@.nodes[d as int].wt is None,
        ensures
            final(self).wf(),
            (final(self)@, r.freed(), r.is_dropped) == old(self)@.subtree_dropped(node),
            r.backup_kv is None,
    {
        let ghost st = self@;
        let mut out = UEvictOutcome::default();
        let ids = self.subtree(node);
        proof {
            self.lemma_wf();
            walks::lemma_tree_order(st, node, st.nodes.len());
        }
        let mut j: usize = 0;
        while j < ids.len()
            invariant
                self.wf(),
                self@ == st,
                ids@ == st.preorder(node),
                forall|d: NodeId| #[trigger] ids@.contains(d) == st.under(node, d),
                j <= ids@.len(),
                forall|i: int| 0 <= i < j ==> st.nodes[(#[trigger] ids@[i]) as int].host_unlocked(),
                out.freed() == Freed::none(),
                !out.is_dropped,
                out.backup_kv is None,
            decreases ids@.len() - j,
        {
            let d = ids[j];
            assert(ids@.contains(d));
            assert(st.under(node, d));
            let n = self.node_by_id(d);
            if n.host_lock_ref[0] != 0 || n.host_lock_ref[1] != 0 || n.host_lock_ref[2] != 0
                || n.host_lock_ref[3] != 0 {
                assert(!st.subtree_free(node));
                return out;
            }
            j += 1;
        }
        proof {
            assert forall|d: NodeId| #[trigger] st.under(node, d) implies st.nodes[d as int].host_unlocked() by {
                assert(ids@.contains(d));
                let i = choose|i: int| 0 <= i < ids@.len() && ids@[i] == d;
                assert(st.nodes[ids@[i] as int].host_unlocked());
            }
            assert(st.subtree_free(node));
            assert forall|j: int| 0 <= j < ids@.len() implies (#[trigger] ids@[j]) < st.nodes.len()
                && st.shape.nodes[ids@[j] as int].attached by {
                assert(ids@.contains(ids@[j]));
                assert(st.under(node, ids@[j]));
            }
        }
        let mut k: usize = ids.len();
        assert(ids@.subrange(1, k as int) =~= st.preorder(node).skip(1));
        while k > 1
            invariant
                1 <= k <= ids@.len(),
                ids@ == st.preorder(node),
                ids@.no_duplicates(),
                st.wf(),
                st.device_leaf(node),
                self.wf(),
                pruned(st, self@, ids@, k as int),
                self@.chain_deleted(ids@.subrange(1, k as int), out.freed()) == st.chain_deleted(
                    st.preorder(node).skip(1),
                    Freed::none(),
                ),
                !out.is_dropped,
                out.backup_kv is None,
            decreases k,
        {
            let ghost cur = self@;
            let ghost o = out.freed();
            let x = ids[k - 1];
            proof {
                lemma_pruned_leaf(st, cur, node, k as int);
                lemma_below_leaf(st, node, k - 1);
                let s = ids@.subrange(1, k as int);
                assert(s.last() == x);
                assert(s.drop_last() =~= ids@.subrange(1, k - 1));
                assert(cur.shape.hangs(x as int));
            }
            self.delete_leaf(x, 2, false, &mut out);
            k -= 1;
            proof {
                self.lemma_wf();
                let p = cur.shape.nodes[x as int].parent;
                assert forall|j: int| 0 <= j < k implies self@.shape.nodes[(#[trigger] ids@[j]) as int].attached && self@.nodes[ids@[j] as int].lock
                    == st.nodes[ids@[j] as int].lock by {
                    assert(cur.shape.nodes[ids@[j] as int].attached);
                    assert(ids@[j] != ids@[k as int]);
                }
            }
        }
        proof {
            lemma_pruned_leaf(st, self@, node, 1);
            assert(ids@.subrange(1, 1) =~= Seq::empty());
            assert(self@.nodes[ids@[0] as int].lock == st.nodes[ids@[0] as int].lock);
        }
        self.delete_leaf(node, 1, false, &mut out);
        out.is_dropped = true;
        out
    }
}

// ---- ranks ----

/// `-t`, or the nearest number to it.
pub open spec fn negated(t: i128) -> i128 {
    if t == i128::MIN {
        i128::MAX
    } else {
        (-t) as i128
    }
}

impl Ranked {
    /// Whether `self` leaves before `other`.
    pub open spec fn before(self, other: Ranked) -> bool {
        ||| self.a < other.a
        ||| self.a == other.a && self.t < other.t
        ||| self.a == other.a && self.t == other.t && self.id < other.id
    }

    /// Whether `self` leaves before `other`.
    pub(crate) fn leaves_before(&self, other: &Ranked) -> (r: bool)
        ensures
            r == self.before(*other),
    {
        if self.a != other.a {
            self.a < other.a
        } else if self.t != other.t {
            self.t < other.t
        } else {
            self.id < other.id
        }
    }
}

/// The first place of the item of `heap` that leaves first.
pub open spec fn first_place(heap: Seq<Ranked>) -> int
    decreases heap.len(),
{
    if heap.len() <= 1 {
        0
    } else {
        let k = first_place(heap.drop_last());
        if heap.last().before(heap[k]) {
            heap.len() - 1
        } else {
            k
        }
    }
}

impl UState {
    /// The rank that `id` is evicted by.
    pub open spec fn rank(self, id: NodeId) -> Ranked {
        let n = self.nodes[id as int];
        match self.cfg.eviction_policy {
            EvictionPolicy::Lru => Ranked { a: 0, t: n.access, id },
            EvictionPolicy::Lfu => Ranked { a: n.hits, t: n.access, id },
            EvictionPolicy::Fifo => Ranked { a: 0, t: n.creation, id },
            EvictionPolicy::Mru => Ranked { a: 0, t: negated(n.access), id },
            EvictionPolicy::Filo => Ranked { a: 0, t: negated(n.creation), id },
            EvictionPolicy::Priority => Ranked { a: n.priority, t: n.access, id },
            EvictionPolicy::Slru { threshold } => Ranked {
                a: if n.hits >= threshold as i64 {
                    1
                } else {
                    0
                },
                t: n.access,
                id,
            },
        }
    }

    // ---- FULL device walk ----

    /// The device leaves below `k` with their ranks, by id.
    pub open spec fn ranked_leaves(self, k: int) -> Seq<Ranked>
        decreases k,
    {
        if k <= 0 {
            Seq::empty()
        } else {
            let s = self.ranked_leaves(k - 1);
            if self.device_leaf((k - 1) as NodeId) {
                s.push(self.rank((k - 1) as NodeId))
            } else {
                s
            }
        }
    }

    /// The line once the leaf `last` has been dealt with: its parent joins
    /// if it is a device leaf now.
    pub open spec fn heap_after(self, heap: Seq<Ranked>, last: Option<NodeId>) -> Seq<Ranked> {
        match last {
            Some(x) => {
                let p = self.shape.nodes[x as int].parent;
                if x != ROOT && x < self.nodes.len() && self.device_leaf(p) {
                    heap.push(self.rank(p))
                } else {
                    heap
                }
            },
            None => heap,
        }
    }

    /// The next device leaf in line, and the line without it and without
    /// what stood before it.
    pub open spec fn next_leaf(self, heap: Seq<Ranked>) -> (Seq<Ranked>, Option<NodeId>)
        decreases heap.len(),
    {
        if heap.len() == 0 {
            (heap, None)
        } else {
            let k = first_place(heap);
            let x = heap[k].id;
            if !(0 <= k < heap.len()) {
                (heap, None)
            } else if self.device_leaf(x) {
                (heap.remove(k), Some(x))
            } else {
                self.next_leaf(heap.remove(k))
            }
        }
    }

    /// One step of the FULL device walk.
    pub open spec fn full_step(self, running: i64) -> (UState, Option<NodeId>) {
        match self.full_walk {
            None => (self, None),
            Some(w) => {
                let line = self.heap_after(w.heap, w.last);
                let (heap, last) = if running < w.request {
                    self.next_leaf(line)
                } else {
                    (line, None)
                };
                (UState { full_walk: Some(FullWalk { heap, last, ..w }), ..self }, last)
            },
        }
    }

    // ---- LRU device walks ----

    /// The first node of a list of `ct` before place `k`, from the old end,
    /// that nothing locks on the list's side.
    pub open spec fn free_before(self, ct: u8, host: bool, k: int) -> Option<NodeId>
        decreases k,
    {
        let order = self.lru[2 * ct + (if host { 1int } else { 0 })];
        if k <= 0 {
            None
        } else {
            let n = self.nodes[order[k - 1] as int];
            if (if host {
                n.host_lock[ct as int]
            } else {
                n.lock[ct as int]
            }) == 0 {
                Some(order[k - 1])
            } else {
                self.free_before(ct, host, k - 1)
            }
        }
    }

    /// The oldest node of a list of `ct` that nothing locks.
    pub open spec fn oldest_free(self, ct: u8, host: bool) -> Option<NodeId> {
        self.free_before(ct, host, self.lru[2 * ct + (if host { 1int } else { 0 })].len() as int)
    }

    /// The next older node than `x` that nothing locks.
    pub open spec fn free_after(self, ct: u8, host: bool, x: NodeId) -> Option<NodeId> {
        self.free_before(ct, host, self.lru[2 * ct + (if host { 1int } else { 0 })].index_of(x))
    }

    /// The device walk of `ct`.
    pub open spec fn walk_of(self, ct: u8) -> Option<LruEvictWalk> {
        if ct == CT_SWA {
            self.swa_walk
        } else {
            self.mamba_walk
        }
    }

    /// With the device walk of `ct` at `w`.
    pub open spec fn with_walk(self, ct: u8, w: Option<LruEvictWalk>) -> UState {
        if ct == CT_SWA {
            UState { swa_walk: w, ..self }
        } else {
            UState { mamba_walk: w, ..self }
        }
    }

    /// The cursor of a walk; one that has left the list starts over.
    pub open spec fn cursor_of(self, ct: u8, w: LruEvictWalk) -> Option<NodeId> {
        match w.cursor {
            Some(c) => if self.lru[2 * ct].contains(c) {
                Some(c)
            } else {
                self.oldest_free(ct, false)
            },
            None => None,
        }
    }

    /// One step of the device walk of `ct`: a device leaf is handed out,
    /// another node loses its run at once.
    pub open spec fn lru_step(self, ct: u8, running: i64) -> (UState, Option<NodeId>, bool, Freed) {
        match self.walk_of(ct) {
            None => (self, None, false, Freed::none()),
            Some(w) => {
                let cursor = self.cursor_of(ct, w);
                if running >= w.request_cnt || cursor is None {
                    (self.with_walk(ct, Some(LruEvictWalk { cursor, ..w })), None, false, Freed::none())
                } else {
                    let x = cursor->0;
                    let next = Some(LruEvictWalk { cursor: self.free_after(ct, false, x), ..w });
                    if self.device_leaf(x) {
                        (self.with_walk(ct, next), Some(x), true, Freed::none())
                    } else {
                        let (st, out) = self.hollowed(x, ct, Freed::none());
                        (st.with_walk(ct, next), None, true, out)
                    }
                }
            },
        }
    }

    /// Whether nothing locks what the next step of the walk would drop.
    pub open spec fn walk_ready(self, ct: u8, running: i64) -> bool {
        match self.walk_of(ct) {
            None => true,
            Some(w) => {
                let cursor = self.cursor_of(ct, w);
                running < w.request_cnt && cursor is Some ==> self.device_leaf(cursor->0)
                    || self.hollowable(cursor->0, ct)
            },
        }
    }

    // ---- walks, by component ----

    /// The start of a device walk that is to free `request` tokens.
    pub open spec fn evict_started(self, ct: u8, request: i64) -> UState {
        if ct == CT_FULL {
            UState {
                full_walk: Some(
                    FullWalk { request, last: None, heap: self.ranked_leaves(self.nodes.len() as int) },
                ),
                ..self
            }
        } else if ct == CT_SWA || ct == CT_MAMBA {
            self.with_walk(ct, Some(LruEvictWalk { request_cnt: request, cursor: self.oldest_free(ct, false) }))
        } else {
            self
        }
    }

    /// One step of a device walk.
    pub open spec fn evict_stepped(self, ct: u8, running: i64) -> (UState, Option<NodeId>, bool, Freed) {
        if ct == CT_FULL {
            let (st, x) = self.full_step(running);
            (st, x, x is Some, Freed::none())
        } else if ct == CT_SWA || ct == CT_MAMBA {
            self.lru_step(ct, running)
        } else {
            (self, None, false, Freed::none())
        }
    }

    /// The end of a device walk.
    pub open spec fn evict_ended(self, ct: u8) -> UState {
        if ct == CT_FULL {
            UState { full_walk: None, ..self }
        } else {
            self.with_walk(ct, None)
        }
    }
}

/// Where the first place is, and that nothing leaves before it.
pub proof fn lemma_first_place(heap: Seq<Ranked>)
    requires
        heap.len() > 0,
    ensures
        0 <= first_place(heap) < heap.len(),
        forall|j: int| 0 <= j < heap.len() ==> !(#[trigger] heap[j]).before(heap[first_place(heap)]),
    decreases heap.len(),
{
    if heap.len() > 1 {
        let front = heap.drop_last();
        lemma_first_place(front);
        assert forall|j: int| 0 <= j < heap.len() implies !(#[trigger] heap[j]).before(heap[first_place(heap)]) by {
            if j < heap.len() - 1 {
                assert(front[j] == heap[j]);
            }
        }
    }
}

impl UnifiedRadixTree {
    /// The rank that `id` is evicted by.
    pub(crate) fn strategy_key(&self, id: NodeId) -> (r: Ranked)
        requires
            id < self@.nodes.len(),
        ensures
            r == self@.rank(id),
    {
        let n = self.node_by_id(id);
        let cfg = self.config();
        match cfg.eviction_policy {
            EvictionPolicy::Lru => Ranked { a: 0, t: n.last_access, id },
            EvictionPolicy::Lfu => Ranked { a: n.hit_count, t: n.last_access, id },
            EvictionPolicy::Fifo => Ranked { a: 0, t: n.creation, id },
            EvictionPolicy::Mru => Ranked {
                a: 0,
                t: if n.last_access == i128::MIN {
                    i128::MAX
                } else {
                    -n.last_access
                },
                id,
            },
            EvictionPolicy::Filo => Ranked {
                a: 0,
                t: if n.creation == i128::MIN {
                    i128::MAX
                } else {
                    -n.creation
                },
                id,
            },
            EvictionPolicy::Priority => Ranked { a: n.priority, t: n.last_access, id },
            EvictionPolicy::Slru { threshold } => Ranked {
                a: if n.hit_count >= threshold as i64 {
                    1
                } else {
                    0
                },
                t: n.last_access,
                id,
            },
        }
    }

    /// The first node of a list of `ct` before `id`, from the old end, that
    /// nothing locks; with no `id`, from the old end itself.
    pub(crate) fn free_from(&self, ct: u8, host: bool, id: Option<NodeId>) -> (r: Option<NodeId>)
        requires
            self.wf(),
            ct == 1 || ct == 2,
            id matches Some(x) ==> self@.lru[2 * ct + (if host { 1int } else { 0 })].contains(x),
        ensures
            r == (match id {
                Some(x) => self@.free_after(ct, host, x),
                None => self@.oldest_free(ct, host),
            }),
            r matches Some(x) ==> self@.lru[2 * ct + (if host { 1int } else { 0 })].contains(x),
    {
        let layer: u8 = if host {
            1
        } else {
            0
        };
        let ghost order = self@.lru[2 * ct + layer];
        let ghost mut k: int = match id {
            Some(x) => order.index_of(x),
            None => order.len() as int,
        };
        let ghost k0 = k;
        let mut cur = self.lru_before(ct, layer, id);
        loop
            invariant
                self.wf(),
                ct == 1 || ct == 2,
                layer == (if host { 1u8 } else { 0 }),
                order == self@.lru[2 * ct + layer],
                0 <= k <= order.len(),
                cur == (if k > 0 {
                    Some(order[k - 1])
                } else {
                    None
                }),
                self@.free_before(ct, host, k) == self@.free_before(ct, host, k0),
            ensures
                cur == self@.free_before(ct, host, k0),
                cur matches Some(x) ==> order.contains(x),
            decreases k,
        {
            match cur {
                None => {
                    break ;
                },
                Some(x) => {
                    proof {
                        self.lemma_wf();
                        assert(order.contains(x));
                        assert(self@.lists_ok(ct as int, x));
                        assert(order.index_of(x) == k - 1) by {
                            assert(order.no_duplicates());
                            assert(order[order.index_of(x)] == x);
                        }
                    }
                    let n = self.node_by_id(x);
                    let locks = if host {
                        n.host_lock_ref[ct as usize]
                    } else {
                        n.lock_ref[ct as usize]
                    };
                    if locks == 0 {
                        break ;
                    }
                    cur = self.lru_before(ct, layer, Some(x));
                    proof {
                        k = k - 1;
                    }
                },
            }
        }
        cur
    }

    /// Starts a device walk that is to free `request_cnt` tokens of `ct`.
    pub fn evict_device_start(&mut self, ct: u8, request_cnt: i64)
        requires
            old(self).wf(),
        ensures
            final(self).wf(),
            final(self)@ == old(self)@.evict_started(ct, request_cnt),
    {
        if ct == CT_FULL {
            proof {
                self.lemma_wf();
            }
            let mut heap: Vec<Ranked> = Vec::new();
            let mut k: usize = 0;
            let n = self.len();
            while k < n
                invariant
                    self.wf(),
                    k <= n,
                    n == self@.nodes.len(),
                    n <= NodeId::MAX,
                    heap@ == self@.ranked_leaves(k as int),
                decreases n - k,
            {
                if self.in_d_leaves(k as NodeId) {
                    heap.push(self.strategy_key(k as NodeId));
                }
                k += 1;
            }
            self.set_full_walk(Some(FullEvictWalk { request_cnt, last_node: None, heap }));
        } else if ct == CT_SWA {
            let cursor = self.free_from(ct, false, None);
            self.set_swa_walk(Some(LruEvictWalk { request_cnt, cursor }));
        } else if ct == CT_MAMBA {
            let cursor = self.free_from(ct, false, None);
            self.set_mamba_walk(Some(LruEvictWalk { request_cnt, cursor }));
        }
    }

    /// Takes the next device leaf from the line.
    fn pop_leaf(&self, heap: &mut Vec<Ranked>) -> (r: Option<NodeId>)
        requires
            self.wf(),
        ensures
            (final(heap)@, r) == self@.next_leaf(old(heap)@),
    {
        let ghost h0 = heap@;
        while heap.len() > 0
            invariant
                self.wf(),
                h0 == old(heap)@,
                self@.next_leaf(heap@) == self@.next_leaf(h0),
            decreases heap@.len(),
        {
            let mut k: usize = 0;
            let mut j: usize = 1;
            assert(heap@.take(1).len() == 1);
            while j < heap.len()
                invariant
                    heap@.len() > 0,
                    1 <= j <= heap@.len(),
                    k == first_place(heap@.take(j as int)),
                    k < j,
                decreases heap@.len() - j,
            {
                proof {
                    assert(heap@.take(j + 1).drop_last() =~= heap@.take(j as int));
                }
                if heap[j].leaves_before(&heap[k]) {
                    k = j;
                }
                j += 1;
            }
            assert(heap@.take(j as int) =~= heap@);
            let x = heap.remove(k).id;
            if self.in_d_leaves(x) {
                return Some(x);
            }
        }
        None
    }

    /// One step of the FULL device walk.
    fn full_evict_next(&mut self, running: i64) -> (r: UEvictStep)
        requires
            old(self).wf(),
        ensures
            final(self).wf(),
            (final(self)@, r.node_id) == old(self)@.full_step(running),
            r.made_progress == (r.node_id is Some),
            r.freed() == Freed::none(),
    {
        let ghost st = self@;
        let mut step = UEvictStep::default();
        match self.take_full_walk() {
            None => {
                assert(self@ =~= st);
            },
            Some(w) => {
                let FullEvictWalk { request_cnt, last_node, heap } = w;
                let mut heap = heap;
                let ghost h0 = heap@;
                proof {
                    lemma_walkless(st, self@);
                    self.lemma_wf();
                }
                if let Some(x) = last_node {
                    if (x as usize) < self.len() {
                        if let Some(p) = self.topo().parent(x) {
                            if self.in_d_leaves(p) {
                                heap.push(self.strategy_key(p));
                            }
                        }
                    }
                }
                assert(heap@ == st.heap_after(h0, last_node));
                let last = if running < request_cnt {
                    self.pop_leaf(&mut heap)
                } else {
                    None
                };
                proof {
                    lemma_walkless_line(st, self@, st.heap_after(h0, last_node));
                }
                step.node_id = last;
                step.made_progress = last.is_some();
                self.set_full_walk(Some(FullEvictWalk { request_cnt, last_node: last, heap }));
                assert(self@ =~= st.full_step(running).0);
            },
        }
        step
    }
}

/// Leaves and ranks do not depend on walks.
proof fn lemma_walkless(a: UState, b: UState)
    requires
        b == (UState { full_walk: b.full_walk, ..a }),
    ensures
        forall|x: NodeId| #[trigger] b.device_leaf(x) == a.device_leaf(x),
        forall|x: NodeId| #[trigger] b.rank(x) == a.rank(x),
{
    assert forall|x: NodeId| #[trigger] b.device_leaf(x) == a.device_leaf(x) by {
        assert(a.shape == b.shape);
        if a.no_device_kid(x) {
            assert forall|c: NodeId| #[trigger] b.shape.is_child(x, c) implies b.nodes[c as int].value[0] is None by {
                assert(a.shape.is_child(x, c));
            }
        }
        if b.no_device_kid(x) {
            assert forall|c: NodeId| #[trigger] a.shape.is_child(x, c) implies a.nodes[c as int].value[0] is None by {
                assert(b.shape.is_child(x, c));
            }
        }
    }
}

/// Nor does who is next in line.
proof fn lemma_walkless_line(a: UState, b: UState, heap: Seq<Ranked>)
    requires
        b == (UState { full_walk: b.full_walk, ..a }),
    ensures
        b.next_leaf(heap) == a.next_leaf(heap),
    decreases heap.len(),
{
    lemma_walkless(a, b);
    if heap.len() > 0 {
        lemma_first_place(heap);
        lemma_walkless_line(a, b, heap.remove(first_place(heap)));
    }
}

impl UnifiedRadixTree {
    /// Sets the device walk of `ct`.
    fn set_walk(&mut self, ct: u8, w: Option<LruEvictWalk>)
        requires
            old(self).wf(),
        ensures
            final(self).wf(),
            final(self)@ == old(self)@.with_walk(ct, w),
    {
        if ct == CT_SWA {
            self.set_swa_walk(w);
        } else {
            self.set_mamba_walk(w);
        }
    }

    /// One step of the device walk of `ct`.
    fn lru_evict_next(&mut self, ct: u8, running: i64) -> (r: UEvictStep)
        requires
            old(self).wf(),
            ct == CT_SWA || ct == CT_MAMBA,
            old(self)@.walk_ready(ct, running),
        ensures
            final(self).wf(),
            (final(self)@, r.node_id, r.made_progress, r.freed()) == old(self)@.lru_step(ct, running),
    {
        let ghost st = self@;
        let mut step = UEvictStep::default();
        let walk = if ct == CT_SWA {
            self.swa_walk()
        } else {
            self.mamba_walk()
        };
        if let Some(w) = walk {
            let cursor = match w.cursor {
                Some(c) => if self.lru_in(ct, 0, c) {
                    Some(c)
                } else {
                    self.free_from(ct, false, None)
                },
                None => None,
            };
            assert(cursor == st.cursor_of(ct, w));
            if running >= w.request_cnt || cursor.is_none() {
                self.set_walk(ct, Some(LruEvictWalk { request_cnt: w.request_cnt, cursor }));
                return step;
            }
            if let Some(x) = cursor {
                proof {
                    self.lemma_wf();
                    assert(st.lists_ok(ct as int, x));
                }
                let next = self.free_from(ct, false, Some(x));
                let leaf = self.in_d_leaves(x);
                let mut out = UEvictOutcome::default();
                if leaf {
                    step.node_id = Some(x);
                } else {
                    self.hollow(x, ct, &mut out);
                }
                self.set_walk(ct, Some(LruEvictWalk { request_cnt: w.request_cnt, cursor: next }));
                step.made_progress = true;
                step.tracker = out.tracker;
                step.device_frees = out.device_frees;
                step.host_frees = out.host_frees;
                assert(step.freed() == out.freed());
            }
        }
        step
    }

    /// One step of the device walk of `ct`, of which `running` tokens have
    /// been freed: the leaf to evict next, or what the step dropped itself.
    pub fn evict_device_next_node(&mut self, ct: u8, running: i64) -> (r: UEvictStep)
        requires
            old(self).wf(),
            ct == CT_SWA || ct == CT_MAMBA ==> old(self)@.walk_ready(ct, running),
        ensures
            final(self).wf(),
            (final(self)@, r.node_id, r.made_progress, r.freed()) == old(self)@.evict_stepped(ct, running),
    {
        if ct == CT_FULL {
            self.full_evict_next(running)
        } else if ct == CT_SWA || ct == CT_MAMBA {
            self.lru_evict_next(ct, running)
        } else {
            UEvictStep::default()
        }
    }

    /// Ends the device walk of `ct`.
    pub fn evict_device_end(&mut self, ct: u8)
        requires
            old(self).wf(),
        ensures
            final(self).wf(),
            final(self)@ == old(self)@.evict_ended(ct),
    {
        if ct == CT_FULL {
            self.set_full_walk(None);
        } else {
            self.set_walk(ct, None);
        }
    }
}

} // verus!
