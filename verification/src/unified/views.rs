//! What can be read off the unified tree.

use crate::chains;
use crate::hi_model::run_or_none;
use crate::seqs;
use crate::seqs::{append_run, copy_opt};
use crate::topo;
use crate::topo::{NodeId, ROOT};
use crate::unified;
use crate::unified::facts;
use crate::unified::matching;
use crate::unified::model;
use crate::unified::model::{UNodeState, UState};
use crate::unified::tree::UnifiedRadixTree;
use crate::unified::walks;
use crate::unified::{UCacheAction, UNodeDump, CT_FULL, CT_MAMBA, CT_SWA};
use vstd::prelude::*;

verus! {

/// The hashes of an optional list, none if there is no list.
pub open spec fn texts_or_none(v: Option<Seq<Seq<char>>>) -> Seq<Seq<char>> {
    match v {
        Some(v) => v,
        None => Seq::empty(),
    }
}

/// A copy of the strings of `v` from `lo` up to `hi`.
pub(crate) fn copy_texts(v: &Vec<String>, lo: usize, hi: usize) -> (r: Vec<String>)
    requires
        lo <= hi <= v@.len(),
    ensures
        unified::texts(r@) == unified::texts(v@).subrange(lo as int, hi as int),
{
    let mut r: Vec<String> = Vec::new();
    let mut k: usize = lo;
    while k < hi
        invariant
            lo <= k <= hi <= v@.len(),
            unified::texts(r@) == unified::texts(v@).subrange(lo as int, k as int),
        decreases hi - k,
    {
        let ghost before = unified::texts(r@);
        r.push(v[k].clone());
        assert(unified::texts(r@) =~= before.push(v@[k as int]@));
        assert(unified::texts(v@).subrange(lo as int, k + 1) =~= unified::texts(v@).subrange(
            lo as int,
            k as int,
        ).push(v@[k as int]@));
        k += 1;
    }
    r
}

/// A copy of an optional list of strings.
pub(crate) fn copy_opt_texts(v: &Option<Vec<String>>) -> (r: Option<Vec<String>>)
    ensures
        unified::opt_texts(r) == unified::opt_texts(*v),
{
    match v {
        Some(v) => {
            let r = copy_texts(v, 0, v.len());
            assert(unified::texts(r@) =~= unified::texts(v@));
            Some(r)
        },
        None => None,
    }
}

impl UState {
    /// Device runs of the first `j` of `up`, topmost first.
    pub open spec fn runs_below(self, up: Seq<NodeId>, j: int) -> Seq<i64>
        decreases j,
    {
        if j <= 0 {
            Seq::empty()
        } else {
            run_or_none(self.nodes[up[j - 1] as int].value[0]) + self.runs_below(up, j - 1)
        }
    }

    /// The place of `until` on the way `up`, the root last.
    pub open spec fn place_of(self, up: Seq<NodeId>, until: NodeId) -> int {
        if until == ROOT {
            up.len() as int
        } else {
            up.index_of(until)
        }
    }

    /// Hashes of `up` from place `k` on, topmost first.
    pub open spec fn hashes_above(self, up: Seq<NodeId>, k: int) -> Seq<Seq<char>>
        decreases up.len() - k,
    {
        if k >= up.len() {
            Seq::empty()
        } else {
            self.hashes_above(up, k + 1) + texts_or_none(self.nodes[up[k] as int].hashes)
        }
    }

    /// Device runs of component `ct` of `ids`, one after the other.
    pub open spec fn flattened(self, ids: Seq<NodeId>, ct: int) -> Seq<i64>
        decreases ids.len(),
    {
        if ids.len() == 0 {
            Seq::empty()
        } else {
            self.flattened(ids.drop_last(), ct) + run_or_none(self.nodes[ids.last() as int].value[ct])
        }
    }

    /// Raw tokens of the key of `node`.
    pub open spec fn raw_key(self, node: NodeId) -> Seq<i64> {
        model::raw_of(self.shape.nodes[node as int].key, self.cfg.is_eagle)
    }

    /// Whether `d` is a picture of `id`.
    pub open spec fn shown(self, id: NodeId, d: UNodeDump) -> bool {
        let n = self.nodes[id as int];
        &&& d.id == id
        &&& d.key@ == self.raw_key(id)
        &&& d.last_access == n.access
        &&& d.creation == n.creation
        &&& d.hit_count == n.hits
        &&& d.priority == n.priority
        &&& seqs::opt_run(d.full_value) == n.value[0]
        &&& seqs::opt_run(d.full_host_value) == n.host[0]
        &&& seqs::opt_run(d.swa_value) == n.value[1]
        &&& seqs::opt_run(d.swa_host_value) == n.host[1]
        &&& seqs::opt_run(d.mamba_value) == n.value[2]
        &&& seqs::opt_run(d.mamba_host_value) == n.host[2]
        &&& d.lock_refs@ == n.lock
        &&& d.host_lock_refs@ == n.host_lock
        &&& d.swa_uuid == n.mark
        &&& d.swa_host_uuid == n.host_mark
        &&& d.write_through_pending == n.wt
        &&& d.load_back_pending == n.lb
        &&& d.in_device_leaves == self.device_leaf(id)
        &&& d.in_host_leaves == self.host_leaf(id)
        &&& d.is_duplicate_tracked == self.dups.contains(id)
    }
}

impl UnifiedRadixTree {
    /// The components of the tree: FULL, then SWA, then MAMBA.
    pub fn active_cts(&self) -> (r: Vec<u8>)
        ensures
            r@ == seq![CT_FULL] + (if self@.cfg.swa() {
                seq![CT_SWA]
            } else {
                Seq::empty()
            }) + (if self@.cfg.mamba() {
                seq![CT_MAMBA]
            } else {
                Seq::empty()
            }),
    {
        let cfg = self.config();
        let mut v: Vec<u8> = Vec::new();
        v.push(CT_FULL);
        if cfg.has_swa() {
            v.push(CT_SWA);
        }
        if cfg.has_mamba() {
            v.push(CT_MAMBA);
        }
        assert(v@ =~= seq![CT_FULL] + (if self@.cfg.swa() {
            seq![CT_SWA]
        } else {
            Seq::empty()
        }) + (if self@.cfg.mamba() {
            seq![CT_MAMBA]
        } else {
            Seq::empty()
        }));
        v
    }

    /// Cuts `child` after `split_len` tokens: the new front part, and the
    /// report of the cut.
    pub fn split_node(&mut self, child: NodeId, split_len: i64) -> (r: (NodeId, Option<UCacheAction>))
        requires
            old(self).wf(),
            split_len >= 0,
            old(self)@.cuttable(child, split_len * old(self)@.shape.unit),
        ensures
            final(self).wf(),
            final(self)@ == old(self)@.cut(child, split_len * old(self)@.shape.unit),
            r.0 == old(self)@.nodes.len(),
            unified::opt_act(r.1) == old(self)@.cut_report(child),
    {
        proof {
            self.lemma_wf();
        }
        let unit = self.topo().unit_size();
        let len = self.topo().key(child).len();
        proof {
            assert(split_len <= split_len * unit) by (nonlinear_arith)
                requires
                    split_len >= 0,
                    unit >= 1,
            ;
        }
        self.cut(child, split_len as usize * unit)
    }

    /// The parent of `node`; the root and the ends of lists have none.
    pub fn node_parent(&self, node: NodeId) -> (r: Option<NodeId>)
        requires
            self.wf(),
            node < self@.nodes.len(),
        ensures
            r == (if self@.shape.nodes[node as int].key.len() == 0 {
                None
            } else {
                Some(self@.shape.nodes[node as int].parent)
            }),
    {
        proof {
            self.lemma_wf();
        }
        if self.topo().key(node).len() == 0 {
            None
        } else {
            self.topo().parent(node)
        }
    }

    /// Raw tokens of the key of `node`.
    pub fn node_key(&self, node: NodeId) -> (r: Vec<i64>)
        requires
            self.wf(),
            node < self@.nodes.len(),
        ensures
            r@ == self@.raw_key(node),
    {
        proof {
            self.lemma_wf();
        }
        let cfg = self.config();
        let key = self.topo().key(node);
        let mut r: Vec<i64> = Vec::new();
        if !cfg.is_eagle || key.len() == 0 {
            append_run(&mut r, key);
            assert(r@ =~= self@.raw_key(node));
            return r;
        }
        let n = key.len() / 2;
        let mut i: usize = 0;
        while i < n
            invariant
                i <= n,
                n == key@.len() / 2,
                key@.len() <= usize::MAX,
                r@.len() == i,
                forall|j: int| 0 <= j < i ==> r@[j] == key@[2 * j],
            decreases n - i,
        {
            r.push(key[2 * i]);
            i += 1;
        }
        proof {
            facts::lemma_units(self@, node);
        }
        r.push(key[2 * n - 1]);
        assert(r@ =~= self@.raw_key(node));
        r
    }

    /// Device tokens of FULL, and of the other components together.
    pub fn total_size(&self) -> (r: (i64, i64))
        requires
            self.wf(),
            self@.size(1) + self@.size(2) <= i64::MAX,
        ensures
            r.0 == self@.size(0),
            r.1 == self@.size(1) + self@.size(2),
    {
        proof {
            self.lemma_wf();
            facts::law_sizes_add_up(self@, 0);
            facts::law_sizes_add_up(self@, 1);
            facts::law_sizes_add_up(self@, 2);
        }
        let a = self.component_evictable_size(CT_FULL) + self.component_protected_size(CT_FULL);
        let b = self.component_evictable_size(CT_SWA) + self.component_protected_size(CT_SWA);
        let c = self.component_evictable_size(CT_MAMBA) + self.component_protected_size(CT_MAMBA);
        (a, b + c)
    }

    /// Whether `node` has no device KV.
    pub fn is_full_device_evicted(&self, node: NodeId) -> (r: bool)
        requires
            node < self@.nodes.len(),
        ensures
            r == self@.evicted(node),
    {
        self.is_evicted(node)
    }

    /// A copy of the device run of `ct` on `node`.
    pub fn get_component_device_value(&self, node: NodeId, ct: u8) -> (r: Option<Vec<i64>>)
        requires
            node < self@.nodes.len(),
            ct < 4,
        ensures
            seqs::opt_run(r) == self@.nodes[node as int].value[ct as int],
    {
        let n = self.node_by_id(node);
        assert(n@.value[ct as int] == seqs::opt_run(n.value@[ct as int]));
        copy_opt(&n.value[ct as usize])
    }

    /// Whether `node` has a host run of `ct` and no device run.
    pub fn component_has_host_value_only(&self, node: NodeId, ct: u8) -> (r: bool)
        requires
            node < self@.nodes.len(),
            ct < 4,
        ensures
            r == (self@.nodes[node as int].value[ct as int] is None && self@.nodes[node as int].host[ct as int] is Some),
    {
        let n = self.node_by_id(node);
        assert(n@.value[ct as int] == seqs::opt_run(n.value@[ct as int]));
        assert(n@.host[ct as int] == seqs::opt_run(n.host_value@[ct as int]));
        n.value[ct as usize].is_none() && n.host_value[ct as usize].is_some()
    }

    /// Stores a device run of another component than FULL.
    pub fn set_component_device_value(&mut self, node: NodeId, ct: u8, value: Vec<i64>)
        requires
            old(self).wf(),
            old(self)@.inner(node),
            ct == CT_SWA || ct == CT_MAMBA,
            old(self)@.cfg.active(ct as int),
            old(self)@.nodes[node as int].value[0] is Some,
            old(self)@.nodes[node as int].value[ct as int] is None,
            ct == CT_SWA ==> value@.len() == old(self)@.units(node),
            old(self)@.size(ct as int) + value@.len() <= i64::MAX,
        ensures
            final(self).wf(),
            final(self)@ == old(self)@.stored(node, ct as int, value@),
    {
        self.store(node, ct, value);
    }

    /// Device runs from `from_node` up to, and without, `until_node`,
    /// topmost first.
    pub fn collect_full_device_indices(&self, from_node: NodeId, until_node: NodeId) -> (r: Vec<i64>)
        requires
            self.wf(),
            self@.live(from_node),
            until_node == ROOT || self@.shape.up(from_node).contains(until_node),
            forall|k: int|
                0 <= k < self@.place_of(self@.shape.up(from_node), until_node) ==> self@.nodes[(
                #[trigger] self@.shape.up(from_node)[k]) as int].value[0] is Some,
        ensures
            ({
                let up = self@.shape.up(from_node);
                r@ == self@.runs_below(up, self@.place_of(up, until_node))
            }),
    {
        let up = self.up(from_node);
        let mut j: usize = 0;
        let mut r: Vec<i64> = Vec::new();
        while j < up.len() && up[j] != until_node
            invariant
                self.wf(),
                j <= up@.len(),
                up@ == self@.shape.up(from_node),
                up@.no_duplicates(),
                forall|k: int| 0 <= k < up@.len() ==> self@.inner(#[trigger] up@[k]),
                forall|k: int| 0 <= k < j ==> #[trigger] up@[k] != until_node,
                r@ == self@.runs_below(up@, j as int),
            decreases up@.len() - j,
        {
            let x = up[j];
            assert(self@.inner(up@[j as int]));
            let mut chunk = match self.copy_device(x, CT_FULL) {
                Some(v) => v,
                None => Vec::new(),
            };
            append_run(&mut chunk, r.as_slice());
            r = chunk;
            j += 1;
        }
        proof {
            if until_node != ROOT {
                let k = up@.index_of(until_node);
                assert(up@[k] == until_node);
            } else if j < up@.len() {
                assert(self@.inner(up@[j as int]));
            }
        }
        r
    }

    /// The device runs of component `ct` in preorder.
    fn flatten_component(&self, ct: u8) -> (r: Vec<i64>)
        requires
            self.wf(),
            ct < 3,
        ensures
            r@ == self@.flattened(self@.preorder(ROOT), ct as int),
    {
        proof {
            self.lemma_wf();
            walks::law_preorder_visits_all(self@);
        }
        let ids = self.subtree(ROOT);
        let mut r: Vec<i64> = Vec::new();
        let mut k: usize = 0;
        while k < ids.len()
            invariant
                self.wf(),
                ct < 3,
                k <= ids@.len(),
                ids@ == self@.preorder(ROOT),
                forall|d: NodeId| #[trigger] ids@.contains(d) == self@.live(d),
                r@ == self@.flattened(ids@.take(k as int), ct as int),
            decreases ids@.len() - k,
        {
            let x = ids[k];
            assert(ids@.contains(x));
            assert(ids@.take(k + 1).drop_last() =~= ids@.take(k as int));
            let v = self.copy_device(x, ct);
            let ghost before = r@;
            match v {
                Some(v) => {
                    append_run(&mut r, v.as_slice());
                },
                None => {
                    assert(before + Seq::<i64>::empty() =~= before);
                },
            }
            k += 1;
        }
        assert(ids@.take(k as int) =~= ids@);
        r
    }

    /// The FULL device runs in preorder.
    pub fn all_values_flatten(&self) -> (r: Vec<i64>)
        requires
            self.wf(),
        ensures
            r@ == self@.flattened(self@.preorder(ROOT), 0),
    {
        self.flatten_component(CT_FULL)
    }

    /// The states on the device in preorder.
    pub fn all_mamba_values_flatten(&self) -> (r: Vec<i64>)
        requires
            self.wf(),
        ensures
            r@ == self@.flattened(self@.preorder(ROOT), 2),
    {
        self.flatten_component(CT_MAMBA)
    }

    // ---- hashes ----

    /// The page hashes of `node`, if it has any.
    pub fn get_hash_values_opt(&self, node: NodeId) -> (r: Option<Vec<String>>)
        requires
            node < self@.nodes.len(),
        ensures
            unified::opt_texts(r) == self@.nodes[node as int].hashes,
    {
        copy_opt_texts(&self.node_by_id(node).hash_value)
    }

    /// The page hashes of `node`.
    pub fn get_hash_values(&self, node: NodeId) -> (r: Vec<String>)
        requires
            node < self@.nodes.len(),
        ensures
            unified::texts(r@) == texts_or_none(self@.nodes[node as int].hashes),
    {
        match self.get_hash_values_opt(node) {
            Some(v) => v,
            None => {
                let v: Vec<String> = Vec::new();
                assert(unified::texts(v@) =~= Seq::<Seq<char>>::empty());
                v
            },
        }
    }

    /// Sets the page hashes of `node`; they cover its pages.
    pub fn set_hash_values(&mut self, node: NodeId, values: Vec<String>)
        requires
            old(self).wf(),
            old(self)@.live(node),
            node != ROOT ==> old(self)@.units(node) <= values@.len() * old(self)@.shape.page,
        ensures
            final(self).wf(),
            final(self)@ == old(self)@.patched(
                node,
                UNodeState { hashes: Some(unified::texts(values@)), ..old(self)@.nodes[node as int] },
            ),
    {
        self.set_hashes(node, Some(values));
    }

    /// The last page hash of `node`.
    pub fn get_last_hash_value(&self, node: NodeId) -> (r: Option<String>)
        requires
            node < self@.nodes.len(),
        ensures
            ({
                let h = texts_or_none(self@.nodes[node as int].hashes);
                &&& r is Some <==> h.len() > 0
                &&& r matches Some(t) ==> t@ == h.last()
            }),
    {
        let n = self.node_by_id(node);
        match &n.hash_value {
            Some(v) => {
                if v.len() == 0 {
                    return None;
                }
                assert(unified::texts(v@)[v@.len() - 1] == v@[v@.len() - 1]@);
                Some(v[v.len() - 1].clone())
            },
            None => None,
        }
    }

    /// The page hashes above `node`, from the root down.
    pub fn get_prefix_hash_values(&self, node: NodeId) -> (r: Vec<String>)
        requires
            self.wf(),
            self@.live(node),
        ensures
            unified::texts(r@) == self@.hashes_above(self@.shape.up(node), 1),
    {
        let up = self.up(node);
        let mut r: Vec<String> = Vec::new();
        let mut k: usize = up.len();
        assert(unified::texts(r@) =~= self@.hashes_above(up@, k as int));
        if k == 0 {
            return r;
        }
        while k > 1
            invariant
                self.wf(),
                1 <= k <= up@.len(),
                forall|j: int| 0 <= j < up@.len() ==> self@.inner(#[trigger] up@[j]),
                unified::texts(r@) == self@.hashes_above(up@, k as int),
            decreases k,
        {
            k -= 1;
            let x = up[k];
            assert(self@.inner(up@[k as int]));
            let mut more = self.get_hash_values(x);
            let ghost a = unified::texts(r@);
            let ghost b = unified::texts(more@);
            r.append(&mut more);
            assert(unified::texts(r@) =~= a + b);
        }
        r
    }

    /// The event hashes of `node`, if it has any.
    pub fn get_event_hash_values_opt(&self, node: NodeId) -> (r: Option<Vec<String>>)
        requires
            node < self@.nodes.len(),
        ensures
            unified::opt_texts(r) == self@.nodes[node as int].event_hashes,
    {
        copy_opt_texts(&self.node_by_id(node).event_hash_value)
    }

    /// The event hashes of `node`.
    pub fn get_event_hash_values(&self, node: NodeId) -> (r: Vec<String>)
        requires
            node < self@.nodes.len(),
        ensures
            unified::texts(r@) == texts_or_none(self@.nodes[node as int].event_hashes),
    {
        match self.get_event_hash_values_opt(node) {
            Some(v) => v,
            None => {
                let v: Vec<String> = Vec::new();
                assert(unified::texts(v@) =~= Seq::<Seq<char>>::empty());
                v
            },
        }
    }

    /// Sets the event hashes of `node`; they cover its pages.
    pub fn set_event_hash_values(&mut self, node: NodeId, values: Vec<String>)
        requires
            old(self).wf(),
            old(self)@.live(node),
            node != ROOT ==> old(self)@.units(node) <= values@.len() * old(self)@.shape.page,
        ensures
            final(self).wf(),
            final(self)@ == old(self)@.patched(
                node,
                UNodeState { event_hashes: Some(unified::texts(values@)), ..old(self)@.nodes[node as int] },
            ),
    {
        self.set_event_hashes(node, Some(values));
    }

    // ---- pictures ----

    /// A picture of `id`.
    fn dump_node(&self, id: NodeId) -> (r: UNodeDump)
        requires
            self.wf(),
            self@.live(id),
        ensures
            self@.shown(id, r),
    {
        let key = self.node_key(id);
        let n = self.node_by_id(id);
        let in_device_leaves = self.in_d_leaves(id);
        let in_host_leaves = self.in_h_leaves(id);
        let is_duplicate_tracked = self.is_noted(id);
        proof {
            assert(n@.value[0] == seqs::opt_run(n.value@[0]));
            assert(n@.value[1] == seqs::opt_run(n.value@[1]));
            assert(n@.value[2] == seqs::opt_run(n.value@[2]));
            assert(n@.host[0] == seqs::opt_run(n.host_value@[0]));
            assert(n@.host[1] == seqs::opt_run(n.host_value@[1]));
            assert(n@.host[2] == seqs::opt_run(n.host_value@[2]));
        }
        UNodeDump {
            id,
            key,
            last_access: n.last_access,
            creation: n.creation,
            hit_count: n.hit_count,
            priority: n.priority,
            full_value: copy_opt(&n.value[0]),
            full_host_value: copy_opt(&n.host_value[0]),
            swa_value: copy_opt(&n.value[1]),
            swa_host_value: copy_opt(&n.host_value[1]),
            mamba_value: copy_opt(&n.value[2]),
            mamba_host_value: copy_opt(&n.host_value[2]),
            lock_refs: n.lock_ref,
            host_lock_refs: n.host_lock_ref,
            swa_uuid: n.swa_uuid,
            swa_host_uuid: n.swa_host_uuid,
            write_through_pending: n.wt_pending,
            load_back_pending: n.lb_pending,
            in_device_leaves,
            in_host_leaves,
            is_duplicate_tracked,
        }
    }

    /// Pictures of all nodes in preorder.
    pub fn dump_nodes(&self) -> (r: Vec<UNodeDump>)
        requires
            self.wf(),
        ensures
            r@.len() == self@.preorder(ROOT).len(),
            forall|k: int| 0 <= k < r@.len() ==> self@.shown(self@.preorder(ROOT)[k], #[trigger] r@[k]),
    {
        proof {
            self.lemma_wf();
            walks::law_preorder_visits_all(self@);
        }
        let ids = self.subtree(ROOT);
        let mut r: Vec<UNodeDump> = Vec::new();
        let mut k: usize = 0;
        while k < ids.len()
            invariant
                self.wf(),
                k <= ids@.len(),
                ids@ == self@.preorder(ROOT),
                forall|d: NodeId| #[trigger] ids@.contains(d) == self@.live(d),
                r@.len() == k,
                forall|j: int| 0 <= j < k ==> self@.shown(ids@[j], #[trigger] r@[j]),
            decreases ids@.len() - k,
        {
            assert(ids@.contains(ids@[k as int]));
            let d = self.dump_node(ids[k]);
            r.push(d);
            k += 1;
        }
        r
    }
}

/// Rows for the audit of device slots: each slot with its position in the
/// sequence and the slot before it.
#[derive(Debug, Clone, PartialEq)]
pub struct UWalkResult {
    pub slot_indices: Vec<i64>,
    pub positions: Vec<i64>,
    /// -1 where nothing is before.
    pub prev_slot_indices: Vec<i64>,
}

impl Default for UWalkResult {
    fn default() -> (r: Self)
        ensures
            r.rows(Seq::empty()),
    {
        UWalkResult { slot_indices: Vec::new(), positions: Vec::new(), prev_slot_indices: Vec::new() }
    }
}

impl UWalkResult {
    /// Whether these are the rows `rows`.
    pub open spec fn rows(&self, rows: Seq<(i64, int, i64)>) -> bool {
        &&& self.slot_indices@.len() == rows.len()
        &&& self.positions@.len() == rows.len()
        &&& self.prev_slot_indices@.len() == rows.len()
        &&& forall|k: int|
            0 <= k < rows.len() ==> {
                &&& self.slot_indices@[k] == (#[trigger] rows[k]).0
                &&& self.positions@[k] == rows[k].1
                &&& self.prev_slot_indices@[k] == rows[k].2
            }
    }
}

impl UState {
    /// Whether the slots of `id` are listed: unlocked nodes alone, nodes with
    /// window slots alone, if so asked.
    pub open spec fn audited(self, id: NodeId, unlocked_only: bool, swa_only: bool) -> bool {
        let n = self.nodes[id as int];
        let swa = swa_only && self.cfg.swa();
        &&& id != ROOT
        &&& unlocked_only ==> n.lock[if swa { 1 } else { 0 }] == 0
        &&& swa ==> n.value[1] is Some
    }

    /// The slot before those of a child of `p`.
    pub open spec fn slot_before(self, p: NodeId) -> i64 {
        if p == ROOT {
            -1i64
        } else {
            run_or_none(self.nodes[p as int].value[0]).last()
        }
    }

    /// The rows of `id`.
    pub open spec fn node_rows(self, id: NodeId) -> Seq<(i64, int, i64)> {
        let slots = run_or_none(self.nodes[id as int].value[0]);
        let p = self.shape.nodes[id as int].parent;
        let start = self.shape.nodes[id as int].path.len() as int / self.shape.unit as int - self.units(id);
        let before = self.slot_before(p);
        Seq::new(
            slots.len(),
            |j: int|
                (
                    slots[j],
                    start + j,
                    if j == 0 {
                        before
                    } else {
                        slots[j - 1]
                    },
                ),
        )
    }

    /// The rows of `ids`, one node after the other.
    pub open spec fn audit_rows(self, ids: Seq<NodeId>, unlocked_only: bool, swa_only: bool) -> Seq<(i64, int, i64)>
        decreases ids.len(),
    {
        if ids.len() == 0 {
            Seq::empty()
        } else {
            let rows = self.audit_rows(ids.drop_last(), unlocked_only, swa_only);
            if self.audited(ids.last(), unlocked_only, swa_only) {
                rows + self.node_rows(ids.last())
            } else {
                rows
            }
        }
    }
}

/// All nodes above a node with device KV have device KV.
proof fn lemma_device_path(st: UState, id: NodeId, k: int)
    requires
        st.wf(),
        st.live(id),
        st.nodes[id as int].value[0] is Some,
        0 <= k < st.shape.up(id).len(),
    ensures
        st.nodes[st.shape.up(id)[k] as int].value[0] is Some,
    decreases k,
{
    topo::lemma_up(st.shape, id);
    if id != ROOT {
        topo::lemma_path_grows(st.shape, id);
        let p = st.shape.nodes[id as int].parent;
        assert(st.node_ok(id as int));
        assert(st.shape.up(id) =~= seq![id] + st.shape.up(p));
        if k > 0 {
            lemma_device_path(st, p, k - 1);
        }
    }
}

/// Tokens along nodes with device KV are device tokens.
proof fn lemma_device_tokens(st: UState, ids: Seq<NodeId>, k: int)
    requires
        st.wf(),
        0 <= k <= ids.len(),
        forall|j: int| 0 <= j < ids.len() ==> st.inner(#[trigger] ids[j]) && st.nodes[ids[j] as int].value[0] is Some,
    ensures
        chains::tokens(st.shape, ids, k) == chains::picked(
            |i: int| st.weight(0, false, i) + st.weight(0, true, i),
            ids,
            k,
        ),
    decreases k,
{
    if k > 0 {
        lemma_device_tokens(st, ids, k - 1);
        assert(st.node_ok(ids[k - 1] as int));
    }
}

/// The path of a node with device KV is no longer than all device KV.
proof fn lemma_depth(st: UState, id: NodeId)
    requires
        st.wf(),
        st.inner(id),
        st.nodes[id as int].value[0] is Some,
    ensures
        st.units(id) <= st.shape.nodes[id as int].path.len() as int / st.shape.unit as int <= st.size(0),
{
    let up = st.shape.up(id);
    let n = st.nodes.len();
    let f = |i: int| st.weight(0, false, i) + st.weight(0, true, i);
    matching::lemma_up_live(st, id);
    matching::lemma_up_tokens(st.shape, id);
    assert forall|j: int| 0 <= j < up.len() implies st.inner(#[trigger] up[j]) && st.nodes[up[j] as int].value[0] is Some by {
        lemma_device_path(st, id, j);
    }
    lemma_device_tokens(st, up, up.len() as int);
    chains::lemma_picked(f, up, up.len() as int, n);
    seqs::lemma_total_add(|i: int| st.weight(0, false, i), |i: int| st.weight(0, true, i), f, n);
    let t = chains::tokens(st.shape, up, up.len() as int);
    vstd::arithmetic::div_mod::lemma_div_multiples_vanish(t, st.shape.unit as int);
    assert(t * st.shape.unit == st.shape.unit * t) by (nonlinear_arith);
    topo::lemma_path_grows(st.shape, id);
    facts::lemma_units(st, id);
    vstd::arithmetic::div_mod::lemma_div_is_ordered(
        st.shape.nodes[id as int].key.len() as int,
        st.shape.nodes[id as int].path.len() as int,
        st.shape.unit as int,
    );
}

impl UnifiedRadixTree {
    /// Position of the first token of `id` in the sequence.
    fn start_of(&self, id: NodeId) -> (r: i64)
        requires
            self.wf(),
            self@.inner(id),
            self@.nodes[id as int].value[0] is Some,
        ensures
            r == self@.shape.nodes[id as int].path.len() as int / self@.shape.unit as int - self@.units(id),
            0 <= r,
            r + self@.units(id) <= i64::MAX,
    {
        proof {
            self.lemma_wf();
            lemma_depth(self@, id);
            facts::law_sizes_add_up(self@, 0);
            matching::lemma_up_tokens(self@.shape, id);
            topo::lemma_up(self@.shape, id);
            topo::lemma_path_grows(self@.shape, id);
        }
        let up = self.up(id);
        let mut total: i64 = 0;
        let mut k: usize = 1;
        proof {
            assert(up@.len() >= 1 && up@[0] == id);
            let s = self@.shape;
            let t = chains::tokens(s, up@, up@.len() as int);
            vstd::arithmetic::div_mod::lemma_div_multiples_vanish(t, s.unit as int);
            assert(t * s.unit == s.unit * t) by (nonlinear_arith);
            assert(chains::tokens(s, up@, 0) == 0);
            assert(chains::tokens(s, up@, 1) == s.units(id as int));
        }
        while k < up.len()
            invariant
                self.wf(),
                1 <= k <= up@.len(),
                forall|j: int| 0 <= j < up@.len() ==> self@.inner(#[trigger] up@[j]),
                forall|j: int| 0 <= j < up@.len() ==> self@.shape.units((#[trigger] up@[j]) as int) >= 0,
                chains::tokens(self@.shape, up@, up@.len() as int) <= i64::MAX,
                self@.units(id) >= 0,
                total == chains::tokens(self@.shape, up@, k as int) - self@.units(id),
                total >= 0,
            decreases up@.len() - k,
        {
            proof {
                self.lemma_wf();
                assert(self@.inner(up@[k as int]));
                chains::lemma_tokens_le(self@.shape, up@, k + 1, up@.len() as int);
            }
            let u = self.topo().units(up[k]);
            total += u as i64;
            k += 1;
        }
        total
    }

    /// Adds the rows of `id`.
    fn audit_node(&self, id: NodeId, res: &mut UWalkResult, Ghost(rows): Ghost<Seq<(i64, int, i64)>>)
        requires
            self.wf(),
            self@.inner(id),
            old(res).rows(rows),
        ensures
            final(res).rows(rows + self@.node_rows(id)),
    {
        let slots = match self.copy_device(id, CT_FULL) {
            Some(v) => v,
            None => {
                assert(rows + self@.node_rows(id) =~= rows);
                return ;
            },
        };
        proof {
            self.lemma_wf();
            topo::lemma_path_grows(self@.shape, id);
            assert(self@.node_ok(id as int));
        }
        let start = self.start_of(id);
        let mut before: i64 = -1;
        if let Some(p) = self.topo().parent(id) {
            if p != ROOT {
                proof {
                    facts::lemma_units(self@, p);
                    assert(self@.node_ok(p as int));
                }
                if let Some(v) = self.copy_device(p, CT_FULL) {
                    before = v[v.len() - 1];
                }
            }
        }
        let ghost mine = self@.node_rows(id);
        let mut j: usize = 0;
        assert(rows + mine.take(0) =~= rows);
        while j < slots.len()
            invariant
                j <= slots@.len(),
                mine == self@.node_rows(id),
                slots@ == run_or_none(self@.nodes[id as int].value[0]),
                slots@.len() == self@.units(id),
                start == self@.shape.nodes[id as int].path.len() as int / self@.shape.unit as int - self@.units(id),
                0 <= start,
                start + slots@.len() <= i64::MAX,
                before == self@.slot_before(self@.shape.nodes[id as int].parent),
                res.rows(rows + mine.take(j as int)),
            decreases slots@.len() - j,
        {
            let ghost done = rows + mine.take(j as int);
            let prev = if j == 0 {
                before
            } else {
                slots[j - 1]
            };
            res.slot_indices.push(slots[j]);
            res.positions.push(start + j as i64);
            res.prev_slot_indices.push(prev);
            j += 1;
            proof {
                assert(rows + mine.take(j as int) =~= done.push(mine[j - 1]));
            }
        }
        assert(mine.take(j as int) =~= mine);
    }

    /// Rows for the audit of device slots, in preorder.
    pub fn walk_for_kv_canary(&self, unlocked_only: bool, swa_resident_only: bool) -> (r: UWalkResult)
        requires
            self.wf(),
        ensures
            r.rows(self@.audit_rows(self@.preorder(ROOT), unlocked_only, swa_resident_only)),
    {
        proof {
            self.lemma_wf();
            walks::law_preorder_visits_all(self@);
        }
        let cfg = self.config();
        let swa = swa_resident_only && cfg.has_swa();
        let ids = self.subtree(ROOT);
        let mut res = UWalkResult::default();
        let mut k: usize = 0;
        assert(ids@.take(0).len() == 0);
        while k < ids.len()
            invariant
                self.wf(),
                k <= ids@.len(),
                ids@ == self@.preorder(ROOT),
                swa == (swa_resident_only && self@.cfg.swa()),
                forall|d: NodeId| #[trigger] ids@.contains(d) == self@.live(d),
                res.rows(self@.audit_rows(ids@.take(k as int), unlocked_only, swa_resident_only)),
            decreases ids@.len() - k,
        {
            let x = ids[k];
            assert(ids@.contains(x));
            assert(ids@.take(k + 1).drop_last() =~= ids@.take(k as int));
            let n = self.node_by_id(x);
            let held = self.copy_device(x, CT_SWA).is_some();
            let locks = if swa {
                n.lock_ref[1]
            } else {
                n.lock_ref[0]
            };
            if x != ROOT && (!unlocked_only || locks == 0) && (!swa || held) {
                let ghost rows = self@.audit_rows(ids@.take(k as int), unlocked_only, swa_resident_only);
                self.audit_node(x, &mut res, Ghost(rows));
            }
            k += 1;
        }
        assert(ids@.take(k as int) =~= ids@);
        res
    }
}

} // verus!
