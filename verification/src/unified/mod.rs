//! The unified multi-pool radix tree: one tree, up to three component layers
//! per node.
//!
//! - FULL (`CT_FULL`): the full-attention KV backbone; device and host
//!   values, path locks, eviction in strategy order, leaf-driven demotion
//!   and deletion;
//! - SWA (`CT_SWA`): the sliding-window pool; window-bounded LRU refresh,
//!   tombstones on internal eviction, uuid window locks;
//! - MAMBA (`CT_MAMBA`): one state per checkpoint; single-node locks, a cap
//!   on the states along a path.
//!
//! The tree moves no data: component values are plain `i64` pool indices,
//! and what is to be done with the pools comes back as [`UCacheAction`]s or
//! as lists of freed runs. Hash lists are stored as given and cut along with
//! the nodes they belong to.
//!
//! The root has the id 0; the ids right behind it name the ends of the LRU
//! lists, and the nodes of the tree are numbered from there in the order in
//! which they are made.

pub mod accounts;
pub mod aux_order;
pub mod evict;
pub mod excess;
pub mod facts;
pub mod findings;
pub mod fitting;
pub mod frees;
pub mod host_inserts;
pub mod hicache;
pub mod insert;
pub mod laws;
pub mod load_back;
pub mod lock_laws;
pub mod locks;
pub mod matching;
pub mod model;
pub mod plans;
pub mod prefetch;
pub mod progress;
pub mod reclaim;
pub mod refresh;
pub mod sanity;
pub mod tiers;
pub mod transfers;
pub mod tree;
pub mod victims;
pub mod views;
pub mod walks;

use crate::key;
use crate::policy::EvictionPolicy;
use crate::seqs;
use crate::topo::{ChildKey, Head, NodeId};
use vstd::prelude::*;

verus! {

/// The first page of logical units of a key.
pub type UHead = Head;

/// The full child-table key.
pub type UChildKey = ChildKey;

/// The full-attention component.
pub const CT_FULL: u8 = 0;

/// The sliding-window component.
pub const CT_SWA: u8 = 1;

/// The state-checkpoint component.
pub const CT_MAMBA: u8 = 2;

/// A component id that no tree of this crate has.
pub const CT_C128: u8 = 3;

/// Number of component ids.
pub const NUM_CT: usize = 4;

/// The component that every node holds, on the device or on the host.
pub const CT_BASE: u8 = 0;

/// A component layer to evict.
#[derive(Debug, Clone, Copy, PartialEq, Eq, Structural)]
pub enum Layer {
    Device,
    Host,
    All,
}

impl Layer {
    /// Whether the layer holds the device side.
    pub open spec fn on_device(self) -> bool {
        self is Device || self is All
    }

    /// Whether the layer holds the host side.
    pub open spec fn on_host(self) -> bool {
        self is Host || self is All
    }

    /// Whether the layer holds the device side.
    pub fn device(self) -> (r: bool)
        ensures
            r == self.on_device(),
    {
        matches!(self, Layer::Device | Layer::All)
    }

    /// Whether the layer holds the host side.
    pub fn host(self) -> (r: bool)
        ensures
            r == self.on_host(),
    {
        matches!(self, Layer::Host | Layer::All)
    }
}

/// Construction-time configuration. Components are implied: SWA when
/// `sliding_window_size > 0`, MAMBA when `mamba_checkpoint_grid > 0`.
#[derive(Debug, Clone, Copy)]
pub struct UConfig {
    pub page_size: u32,
    /// Bigram view over keys.
    pub is_eagle: bool,
    pub sliding_window_size: i64,
    /// Checkpoint distance; 0 disables MAMBA.
    pub mamba_checkpoint_grid: i64,
    /// States kept along one path; < 0 disables the cap.
    pub mamba_max_states_per_path: i64,
    pub eviction_policy: EvictionPolicy,
    pub write_through_threshold: i64,
    pub is_write_back: bool,
    /// Whether the host tier has an SWA pool.
    pub has_swa_host_pool: bool,
    /// Session caching; a tree cannot be made with it.
    pub enable_session_radix_cache: bool,
}

impl UConfig {
    /// Whether the tree has the SWA component.
    pub open spec fn swa(self) -> bool {
        self.sliding_window_size > 0
    }

    /// Whether the tree has the MAMBA component.
    pub open spec fn mamba(self) -> bool {
        self.mamba_checkpoint_grid > 0
    }

    /// Whether the tree has component `ct`.
    pub open spec fn active(self, ct: int) -> bool {
        ct == 0 || (ct == 1 && self.swa()) || (ct == 2 && self.mamba())
    }

    /// The window rounded up to whole pages.
    pub open spec fn tail_size(self) -> int {
        (self.sliding_window_size + self.page_size - 1) / (self.page_size as int) * self.page_size
    }

    /// A configuration a tree can be made with.
    pub open spec fn wf(self) -> bool {
        &&& self.page_size >= 1
        &&& 2 * self.page_size <= usize::MAX
        &&& !self.enable_session_radix_cache
        &&& !(self.is_eagle && self.mamba())
        &&& self.sliding_window_size + self.page_size <= i64::MAX
    }

    /// Whether the tree has the SWA component.
    pub fn has_swa(&self) -> (r: bool)
        ensures
            r == self.swa(),
    {
        self.sliding_window_size > 0
    }

    /// Whether the tree has the MAMBA component.
    pub fn has_mamba(&self) -> (r: bool)
        ensures
            r == self.mamba(),
    {
        self.mamba_checkpoint_grid > 0
    }

    /// Smallest page-aligned size that still covers the sliding window.
    pub fn swa_tail_size(&self) -> (r: i64)
        requires
            self.page_size >= 1,
            0 <= self.sliding_window_size,
            self.sliding_window_size + self.page_size <= i64::MAX,
        ensures
            r == self.tail_size(),
            r % (self.page_size as i64) == 0,
            self.sliding_window_size <= r < self.sliding_window_size + self.page_size,
    {
        let page = self.page_size as i64;
        let n = self.sliding_window_size + page - 1;
        proof {
            let p = page as int;
            let q = n as int / p;
            vstd::arithmetic::div_mod::lemma_fundamental_div_mod(n as int, p);
            vstd::arithmetic::div_mod::lemma_mod_bound(n as int, p);
            vstd::arithmetic::div_mod::lemma_mod_multiples_basic(q, p);
            assert(p * q == q * p) by (nonlinear_arith);
        }
        n / page * page
    }
}

/// What the caller is to do with pools and transfers.
#[derive(Debug, Clone, PartialEq)]
pub enum UCacheAction {
    /// A node with a write-through in flight was cut; both parts await the
    /// same acknowledgement.
    ReplaceWT { ack_id: i64, old_node: u32, new_node: u32, new_child_node: u32 },
    /// KV runs that an insert did not keep.
    FreeDeviceKV { chunks: Vec<Vec<i64>> },
    /// KV runs to free on the FULL side alone.
    FreeDeviceKVFullOnly { chunks: Vec<Vec<i64>> },
    /// Nodes to copy to the host, from the root side down.
    BackupKV { node_ids: Vec<u32> },
    FreeComponentDeviceSlot { ct: u8, chunks: Vec<Vec<i64>> },
    FreeComponentHostSlot { ct: u8, chunks: Vec<Vec<i64>> },
    /// States along the path of `tail_node` may exceed the cap; answered
    /// with `evict_excess_path_states`.
    MambaEvictExcess { tail_node: u32 },
    RebuildFullToSWAMapping { full_indices: Vec<Vec<i64>>, swa_indices: Vec<Vec<i64>> },
    RecoverSWAWithLockedFull { node: u32, kept_full: Vec<i64>, incoming_full: Vec<i64> },
    SWARebuild { node: u32, source_value: Vec<i64> },
}

/// An action as the model describes it.
#[verifier::ext_equal]
pub enum Act {
    ReplaceWT { ack: i64, old: NodeId, front: NodeId, child: NodeId },
    FreeKV { chunks: Seq<Seq<i64>> },
    FreeKVFullOnly { chunks: Seq<Seq<i64>> },
    BackupKV { ids: Seq<NodeId> },
    FreeDevice { ct: u8, chunks: Seq<Seq<i64>> },
    FreeHost { ct: u8, chunks: Seq<Seq<i64>> },
    EvictExcess { tail: NodeId },
    Remap { full: Seq<Seq<i64>>, swa: Seq<Seq<i64>> },
    Recover { node: NodeId, kept: Seq<i64>, incoming: Seq<i64> },
    Rebuild { node: NodeId, source: Seq<i64> },
}

/// The runs of a list of vectors.
pub open spec fn runs(v: Seq<Vec<i64>>) -> Seq<Seq<i64>> {
    Seq::new(v.len(), |i: int| v[i]@)
}

/// The texts of a list of strings.
pub open spec fn texts(v: Seq<String>) -> Seq<Seq<char>> {
    Seq::new(v.len(), |i: int| v[i]@)
}

/// The texts of an optional list of strings.
pub open spec fn opt_texts(v: Option<Vec<String>>) -> Option<Seq<Seq<char>>> {
    match v {
        Some(v) => Some(texts(v@)),
        None => None,
    }
}

impl UCacheAction {
    /// The action as the model describes it.
    pub open spec fn view(&self) -> Act {
        match self {
            UCacheAction::ReplaceWT { ack_id, old_node, new_node, new_child_node } => Act::ReplaceWT {
                ack: *ack_id,
                old: *old_node,
                front: *new_node,
                child: *new_child_node,
            },
            UCacheAction::FreeDeviceKV { chunks } => Act::FreeKV { chunks: runs(chunks@) },
            UCacheAction::FreeDeviceKVFullOnly { chunks } => Act::FreeKVFullOnly { chunks: runs(chunks@) },
            UCacheAction::BackupKV { node_ids } => Act::BackupKV { ids: node_ids@ },
            UCacheAction::FreeComponentDeviceSlot { ct, chunks } => Act::FreeDevice {
                ct: *ct,
                chunks: runs(chunks@),
            },
            UCacheAction::FreeComponentHostSlot { ct, chunks } => Act::FreeHost {
                ct: *ct,
                chunks: runs(chunks@),
            },
            UCacheAction::MambaEvictExcess { tail_node } => Act::EvictExcess { tail: *tail_node },
            UCacheAction::RebuildFullToSWAMapping { full_indices, swa_indices } => Act::Remap {
                full: runs(full_indices@),
                swa: runs(swa_indices@),
            },
            UCacheAction::RecoverSWAWithLockedFull { node, kept_full, incoming_full } => Act::Recover {
                node: *node,
                kept: kept_full@,
                incoming: incoming_full@,
            },
            UCacheAction::SWARebuild { node, source_value } => Act::Rebuild {
                node: *node,
                source: source_value@,
            },
        }
    }

    /// Whether the action may wait for the next barrier.
    pub fn is_deferrable(&self) -> (r: bool)
        ensures
            r == self@.deferrable(),
    {
        match self {
            UCacheAction::FreeDeviceKV { .. } => true,
            UCacheAction::FreeDeviceKVFullOnly { .. } => true,
            UCacheAction::ReplaceWT { .. } => true,
            _ => false,
        }
    }
}

impl Act {
    /// Frees of whole KV runs and reports of cuts may wait.
    pub open spec fn deferrable(self) -> bool {
        self is FreeKV || self is FreeKVFullOnly || self is ReplaceWT
    }
}

/// An action, if there is one.
pub open spec fn opt_act(v: Option<UCacheAction>) -> Option<Act> {
    match v {
        Some(a) => Some(a@),
        None => None,
    }
}

/// The actions of a list.
pub open spec fn acts(v: Seq<UCacheAction>) -> Seq<Act> {
    Seq::new(v.len(), |i: int| v[i]@)
}

/// One transfer between device, host and storage pools.
#[derive(Debug, Clone, PartialEq)]
pub struct UTransfer {
    /// 0 = KV, 1 = SWA, 2 = MAMBA.
    pub pool: u8,
    pub device_indices: Option<Vec<i64>>,
    pub host_indices: Option<Vec<i64>>,
    pub keys: Option<Vec<String>>,
    pub nodes_to_load: Vec<u32>,
    /// 0 = exact, 1 = trailing pages.
    pub hit_policy: u8,
}

/// A transfer as the model describes it.
#[verifier::ext_equal]
pub struct Xfer {
    pub pool: u8,
    pub device: Option<Seq<i64>>,
    pub host: Option<Seq<i64>>,
    pub keys: Option<Seq<Seq<char>>>,
    pub nodes: Seq<NodeId>,
    pub hit_policy: u8,
}

impl Xfer {
    /// A transfer of nothing in `pool`.
    pub open spec fn none(pool: u8) -> Xfer {
        Xfer { pool, device: None, host: None, keys: None, nodes: Seq::empty(), hit_policy: 0 }
    }
}

impl UTransfer {
    /// The transfer as the model describes it.
    pub open spec fn view(&self) -> Xfer {
        Xfer {
            pool: self.pool,
            device: seqs::opt_run(self.device_indices),
            host: seqs::opt_run(self.host_indices),
            keys: opt_texts(self.keys),
            nodes: self.nodes_to_load@,
            hit_policy: self.hit_policy,
        }
    }
}

impl Default for UTransfer {
    fn default() -> (r: Self)
        ensures
            r@ == Xfer::none(0),
    {
        UTransfer {
            pool: 0,
            device_indices: None,
            host_indices: None,
            keys: None,
            nodes_to_load: Vec::new(),
            hit_policy: 0,
        }
    }
}

/// The transfers of a list.
pub open spec fn xfers(v: Seq<UTransfer>) -> Seq<Xfer> {
    Seq::new(v.len(), |i: int| v[i]@)
}

/// Transfers by component.
pub open spec fn comp_xfers(v: Seq<(u8, Vec<UTransfer>)>) -> Seq<(u8, Seq<Xfer>)> {
    Seq::new(v.len(), |i: int| (v[i].0, xfers(v[i].1@)))
}

/// Node ids by component.
pub open spec fn comp_ids(v: Seq<(u8, Vec<u32>)>) -> Seq<(u8, Seq<NodeId>)> {
    Seq::new(v.len(), |i: int| (v[i].0, v[i].1@))
}

/// Runs by component.
pub open spec fn comp_runs(v: Seq<(u8, Vec<Vec<i64>>)>) -> Seq<(u8, Seq<Seq<i64>>)> {
    Seq::new(v.len(), |i: int| (v[i].0, runs(v[i].1@)))
}

/// Position of the first entry for `ct`, or the length of the list.
pub open spec fn entry_of<T>(v: Seq<(u8, T)>, ct: u8) -> int
    decreases v.len(),
{
    if v.len() == 0 {
        0
    } else if v[0].0 == ct {
        0
    } else {
        1 + entry_of(v.skip(1), ct)
    }
}

/// The ids listed for `ct`.
pub open spec fn ids_for(v: Seq<(u8, Seq<NodeId>)>, ct: u8) -> Seq<NodeId> {
    let k = entry_of(v, ct);
    if k < v.len() {
        v[k].1
    } else {
        Seq::empty()
    }
}

/// The list with `x` added to the entry for `ct`, which is made where there
/// is none.
pub open spec fn added<T>(v: Seq<(u8, Seq<T>)>, ct: u8, x: T) -> Seq<(u8, Seq<T>)> {
    let k = entry_of(v, ct);
    if k < v.len() {
        v.update(k, (ct, v[k].1.push(x)))
    } else {
        v.push((ct, seq![x]))
    }
}

/// What locking did.
#[derive(Debug, Clone, PartialEq)]
pub struct UIncLockResult {
    /// FULL tokens that became protected.
    pub delta: i64,
    /// Mark of the node where a device window was filled.
    pub swa_uuid_for_lock: Option<i64>,
    /// Mark of the node where a host window was filled.
    pub swa_uuid_for_host_lock: Option<i64>,
    /// Nodes on the way that were not locked, by component.
    pub skip_lock_node_ids: Vec<(u8, Vec<u32>)>,
}

/// The result of locking as the model describes it.
#[verifier::ext_equal]
pub struct Locked {
    pub delta: int,
    pub mark: Option<i64>,
    pub host_mark: Option<i64>,
    pub skips: Seq<(u8, Seq<NodeId>)>,
}

impl Locked {
    /// Nothing locked, nothing skipped.
    pub open spec fn none() -> Locked {
        Locked { delta: 0, mark: None, host_mark: None, skips: Seq::empty() }
    }

    /// With `id` noted as not locked for `ct`.
    pub open spec fn skipping(self, ct: u8, id: NodeId) -> Locked {
        Locked { skips: added(self.skips, ct, id), ..self }
    }
}

impl Default for UIncLockResult {
    fn default() -> (r: Self)
        ensures
            r@ == Locked::none(),
    {
        let r = UIncLockResult {
            delta: 0,
            swa_uuid_for_lock: None,
            swa_uuid_for_host_lock: None,
            skip_lock_node_ids: Vec::new(),
        };
        assert(r@.skips =~= Seq::empty());
        r
    }
}

/// Position of the first entry for `ct`, found from the front.
pub(crate) proof fn lemma_entry_of<T>(v: Seq<(u8, T)>, ct: u8, k: int)
    requires
        0 <= k <= v.len(),
        forall|j: int| 0 <= j < k ==> (#[trigger] v[j]).0 != ct,
        k < v.len() ==> v[k].0 == ct,
    ensures
        entry_of(v, ct) == k,
    decreases v.len(),
{
    if v.len() > 0 && k > 0 {
        assert(v[0].0 != ct);
        assert forall|j: int| 0 <= j < k - 1 implies (#[trigger] v.skip(1)[j]).0 != ct by {
            assert(v[j + 1].0 != ct);
        }
        lemma_entry_of(v.skip(1), ct, k - 1);
    }
}

/// The ids that `v` lists for `ct`.
fn find_ids(v: &Vec<(u8, Vec<u32>)>, ct: u8) -> (r: &[u32])
    ensures
        r@ == ids_for(comp_ids(v@), ct),
{
    find_ids_in(v.as_slice(), ct)
}

/// The ids that `v` lists for `ct`.
pub(crate) fn find_ids_in(v: &[(u8, Vec<u32>)], ct: u8) -> (r: &[u32])
    ensures
        r@ == ids_for(comp_ids(v@), ct),
{
    let mut k: usize = 0;
    while k < v.len()
        invariant
            k <= v@.len(),
            forall|j: int| 0 <= j < k ==> (#[trigger] v@[j]).0 != ct,
        decreases v@.len() - k,
    {
        if v[k].0 == ct {
            proof {
                lemma_entry_of(comp_ids(v@), ct, k as int);
            }
            return v[k].1.as_slice();
        }
        k += 1;
    }
    proof {
        lemma_entry_of(comp_ids(v@), ct, k as int);
    }
    let none: &[u32] = &[];
    assert(none@ =~= Seq::empty());
    none
}

impl UIncLockResult {
    /// The result as the model describes it.
    pub open spec fn view(&self) -> Locked {
        Locked {
            delta: self.delta as int,
            mark: self.swa_uuid_for_lock,
            host_mark: self.swa_uuid_for_host_lock,
            skips: comp_ids(self.skip_lock_node_ids@),
        }
    }

    /// The nodes that were not locked for `ct`.
    pub fn skip_ids(&self, ct: u8) -> (r: &[u32])
        ensures
            r@ == ids_for(self@.skips, ct),
    {
        find_ids(&self.skip_lock_node_ids, ct)
    }

    /// Notes that `id` was not locked for `ct`.
    pub(crate) fn add_skip(&mut self, ct: u8, id: NodeId)
        ensures
            final(self)@ == old(self)@.skipping(ct, id),
    {
        let ghost v0 = self@.skips;
        let mut k: usize = 0;
        while k < self.skip_lock_node_ids.len()
            invariant
                k <= self.skip_lock_node_ids@.len(),
                *self == *old(self),
                v0 == self@.skips,
                forall|j: int| 0 <= j < k ==> (#[trigger] self.skip_lock_node_ids@[j]).0 != ct,
            decreases self.skip_lock_node_ids@.len() - k,
        {
            if self.skip_lock_node_ids[k].0 == ct {
                proof {
                    lemma_entry_of(v0, ct, k as int);
                }
                self.skip_lock_node_ids[k].1.push(id);
                assert(self@.skips =~= added(v0, ct, id));
                return ;
            }
            k += 1;
        }
        proof {
            lemma_entry_of(v0, ct, k as int);
        }
        let mut ids: Vec<u32> = Vec::new();
        ids.push(id);
        assert(ids@ =~= seq![id]);
        self.skip_lock_node_ids.push((ct, ids));
        assert(self@.skips =~= added(v0, ct, id));
    }
}

/// What to release: the marks and the nodes to pass over that locking gave.
#[derive(Debug, Clone)]
pub struct UDecLockParams {
    pub swa_uuid_for_lock: Option<i64>,
    pub swa_uuid_for_host_lock: Option<i64>,
    pub skip_lock_node_ids: Vec<(u8, Vec<u32>)>,
}

impl Default for UDecLockParams {
    fn default() -> (r: Self)
        ensures
            r.swa_uuid_for_lock is None,
            r.swa_uuid_for_host_lock is None,
            r.skips() == Seq::<(u8, Seq<NodeId>)>::empty(),
    {
        let r = UDecLockParams {
            swa_uuid_for_lock: None,
            swa_uuid_for_host_lock: None,
            skip_lock_node_ids: Vec::new(),
        };
        assert(r.skips() =~= Seq::empty());
        r
    }
}

impl UDecLockParams {
    /// The nodes to pass over, by component.
    pub open spec fn skips(&self) -> Seq<(u8, Seq<NodeId>)> {
        comp_ids(self.skip_lock_node_ids@)
    }

    /// The nodes to pass over for `ct`.
    pub fn skip_ids(&self, ct: u8) -> (r: &[u32])
        ensures
            r@ == ids_for(self.skips(), ct),
    {
        find_ids(&self.skip_lock_node_ids, ct)
    }
}

/// A list of nodes, if there is one.
pub open spec fn opt_ids(v: Option<Vec<u32>>) -> Option<Seq<NodeId>> {
    match v {
        Some(v) => Some(v@),
        None => None,
    }
}

/// Freed runs and freed token counts, by component.
#[verifier::ext_equal]
pub struct Freed {
    pub tracker: Seq<(u8, i64)>,
    pub device: Seq<(u8, Seq<Seq<i64>>)>,
    pub host: Seq<(u8, Seq<Seq<i64>>)>,
}

/// One step of a device-eviction walk.
#[derive(Debug, Clone, PartialEq)]
pub struct UEvictStep {
    /// The leaf to evict next, if the walk came to one.
    pub node_id: Option<u32>,
    pub made_progress: bool,
    /// Tokens freed by this step.
    pub tracker: Vec<(u8, i64)>,
    pub device_frees: Vec<(u8, Vec<Vec<i64>>)>,
    pub host_frees: Vec<(u8, Vec<Vec<i64>>)>,
}

impl UEvictStep {
    /// What the step freed.
    pub open spec fn freed(&self) -> Freed {
        Freed {
            tracker: self.tracker@,
            device: comp_runs(self.device_frees@),
            host: comp_runs(self.host_frees@),
        }
    }
}

impl Default for UEvictStep {
    fn default() -> (r: Self)
        ensures
            r.node_id is None,
            !r.made_progress,
            r.freed() == Freed::none(),
    {
        let r = UEvictStep {
            node_id: None,
            made_progress: false,
            tracker: Vec::new(),
            device_frees: Vec::new(),
            host_frees: Vec::new(),
        };
        assert(r.freed() =~= Freed::none());
        r
    }
}

/// What an eviction freed.
#[derive(Debug, Clone, PartialEq)]
pub struct UEvictOutcome {
    pub tracker: Vec<(u8, i64)>,
    pub device_frees: Vec<(u8, Vec<Vec<i64>>)>,
    pub host_frees: Vec<(u8, Vec<Vec<i64>>)>,
    /// `drop_subtree_no_host` only: whether the subtree is gone.
    pub is_dropped: bool,
    /// `evict_device_leaf` only: the nodes to copy to the host before the
    /// leaf can be demoted.
    pub backup_kv: Option<Vec<u32>>,
}

impl UEvictOutcome {
    /// What was freed.
    pub open spec fn freed(&self) -> Freed {
        Freed {
            tracker: self.tracker@,
            device: comp_runs(self.device_frees@),
            host: comp_runs(self.host_frees@),
        }
    }
}

impl Default for UEvictOutcome {
    fn default() -> (r: Self)
        ensures
            !r.is_dropped,
            r.backup_kv is None,
            r.freed() == Freed::none(),
    {
        let r = UEvictOutcome {
            tracker: Vec::new(),
            device_frees: Vec::new(),
            host_frees: Vec::new(),
            is_dropped: false,
            backup_kv: None,
        };
        assert(r.freed() =~= Freed::none());
        r
    }
}

impl Freed {
    /// Nothing freed.
    pub open spec fn none() -> Freed {
        Freed { tracker: Seq::empty(), device: Seq::empty(), host: Seq::empty() }
    }

    /// With the run `chunk` freed on the device for `ct`.
    pub open spec fn with_device(self, ct: u8, chunk: Seq<i64>) -> Freed {
        Freed { device: added(self.device, ct, chunk), ..self }
    }

    /// With the run `chunk` freed on the host for `ct`.
    pub open spec fn with_host(self, ct: u8, chunk: Seq<i64>) -> Freed {
        Freed { host: added(self.host, ct, chunk), ..self }
    }

    /// Tokens counted for `ct`.
    pub open spec fn counted(self, ct: u8) -> int {
        let k = entry_of(self.tracker, ct);
        if k < self.tracker.len() {
            self.tracker[k].1 as int
        } else {
            0
        }
    }

    /// With `n` more tokens counted for `ct`; counts stop at `i64::MAX`.
    pub open spec fn counting(self, ct: u8, n: i64) -> Freed {
        let k = entry_of(self.tracker, ct);
        let tracker = if n == 0 {
            self.tracker
        } else if k < self.tracker.len() {
            self.tracker.update(k, (ct, capped(self.tracker[k].1 + n)))
        } else {
            self.tracker.push((ct, n))
        };
        Freed { tracker, ..self }
    }
}

/// `n`, or the nearest `i64` to it.
pub open spec fn capped(n: int) -> i64 {
    if n > i64::MAX {
        i64::MAX
    } else if n < i64::MIN {
        i64::MIN
    } else {
        n as i64
    }
}

/// One entry of the KV-event log: `op` 1 = stored, 0 = removed; `medium`
/// 1 = device, 2 = host.
#[derive(Debug, Clone, Copy, PartialEq, Eq, Structural)]
pub struct UrkvEvent {
    pub op: u8,
    pub node: u32,
    pub medium: u8,
}

/// Snapshot of one live node. Stamps count hundred-thousandths of a tick.
#[derive(Debug, Clone, PartialEq)]
pub struct UNodeDump {
    pub id: u32,
    pub key: Vec<i64>,
    pub last_access: i128,
    pub creation: i128,
    pub hit_count: i64,
    pub priority: i64,
    pub full_value: Option<Vec<i64>>,
    pub full_host_value: Option<Vec<i64>>,
    pub swa_value: Option<Vec<i64>>,
    pub swa_host_value: Option<Vec<i64>>,
    pub mamba_value: Option<Vec<i64>>,
    pub mamba_host_value: Option<Vec<i64>>,
    pub lock_refs: [i32; NUM_CT],
    pub host_lock_refs: [i32; NUM_CT],
    pub swa_uuid: Option<i64>,
    pub swa_host_uuid: Option<i64>,
    pub write_through_pending: Option<i64>,
    pub load_back_pending: Option<u32>,
    pub in_device_leaves: bool,
    pub in_host_leaves: bool,
    pub is_duplicate_tracked: bool,
}

/// Adds `chunk` to the runs freed for `ct`.
fn push_free(v: &mut Vec<(u8, Vec<Vec<i64>>)>, ct: u8, chunk: Vec<i64>)
    ensures
        comp_runs(final(v)@) == added(comp_runs(old(v)@), ct, chunk@),
{
    let ghost v0 = comp_runs(v@);
    let ghost c = chunk@;
    let mut k: usize = 0;
    while k < v.len()
        invariant
            k <= v@.len(),
            *v == *old(v),
            v0 == comp_runs(v@),
            c == chunk@,
            forall|j: int| 0 <= j < k ==> (#[trigger] v@[j]).0 != ct,
        decreases v@.len() - k,
    {
        if v[k].0 == ct {
            proof {
                lemma_entry_of(v0, ct, k as int);
            }
            let ghost runs0 = runs(v@[k as int].1@);
            v[k].1.push(chunk);
            proof {
                assert(runs(v@[k as int].1@) =~= runs0.push(c));
                assert(comp_runs(v@) =~= added(v0, ct, c));
            }
            return ;
        }
        k += 1;
    }
    proof {
        lemma_entry_of(v0, ct, k as int);
    }
    let mut chunks: Vec<Vec<i64>> = Vec::new();
    chunks.push(chunk);
    assert(runs(chunks@) =~= seq![c]);
    v.push((ct, chunks));
    assert(comp_runs(v@) =~= added(v0, ct, c));
}

impl UEvictOutcome {
    /// Notes a run freed on the device.
    pub(crate) fn free_device(&mut self, ct: u8, chunk: Vec<i64>)
        ensures
            final(self).freed() == old(self).freed().with_device(ct, chunk@),
            final(self).is_dropped == old(self).is_dropped,
            final(self).backup_kv == old(self).backup_kv,
    {
        push_free(&mut self.device_frees, ct, chunk);
    }

    /// Notes a run freed on the host.
    pub(crate) fn free_host(&mut self, ct: u8, chunk: Vec<i64>)
        ensures
            final(self).freed() == old(self).freed().with_host(ct, chunk@),
            final(self).is_dropped == old(self).is_dropped,
            final(self).backup_kv == old(self).backup_kv,
    {
        push_free(&mut self.host_frees, ct, chunk);
    }

    /// Tokens counted for `ct`.
    pub(crate) fn counted(&self, ct: u8) -> (r: i64)
        ensures
            r == self.freed().counted(ct),
    {
        let mut k: usize = 0;
        while k < self.tracker.len()
            invariant
                k <= self.tracker@.len(),
                forall|j: int| 0 <= j < k ==> (#[trigger] self.tracker@[j]).0 != ct,
            decreases self.tracker@.len() - k,
        {
            if self.tracker[k].0 == ct {
                proof {
                    lemma_entry_of(self.tracker@, ct, k as int);
                }
                return self.tracker[k].1;
            }
            k += 1;
        }
        proof {
            lemma_entry_of(self.tracker@, ct, k as int);
        }
        0
    }

    /// Counts `n` more tokens for `ct`.
    pub(crate) fn count(&mut self, ct: u8, n: i64)
        ensures
            final(self).freed() == old(self).freed().counting(ct, n),
            final(self).is_dropped == old(self).is_dropped,
            final(self).backup_kv == old(self).backup_kv,
    {
        if n == 0 {
            return ;
        }
        let ghost v0 = self.tracker@;
        let mut k: usize = 0;
        while k < self.tracker.len()
            invariant
                k <= self.tracker@.len(),
                *self == *old(self),
                v0 == self.tracker@,
                n != 0,
                forall|j: int| 0 <= j < k ==> (#[trigger] self.tracker@[j]).0 != ct,
            decreases self.tracker@.len() - k,
        {
            if self.tracker[k].0 == ct {
                proof {
                    lemma_entry_of(v0, ct, k as int);
                }
                let sum = self.tracker[k].1 as i128 + n as i128;
                let next = if sum > i64::MAX as i128 {
                    i64::MAX
                } else if sum < i64::MIN as i128 {
                    i64::MIN
                } else {
                    sum as i64
                };
                self.tracker[k].1 = next;
                assert(self.tracker@ =~= v0.update(k as int, (ct, next)));
                return ;
            }
            k += 1;
        }
        proof {
            lemma_entry_of(v0, ct, k as int);
        }
        self.tracker.push((ct, n));
    }
}

} // verus!
