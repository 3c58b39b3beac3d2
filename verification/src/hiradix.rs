//! The host-tier radix tree.
//!
//! Unlike the base tree, which removes evicted nodes, this tree keeps
//! device-evicted nodes in place: a node's device run and its host copy come
//! and go on their own, so a node that is evicted but backed up stays
//! reachable for host matches, `evict_host` and a load back. Device eviction
//! demotes a node (it loses its device run) or deletes it when it has no host
//! copy; host eviction deletes the node.
//!
//! - Accesses are told by a walk clock. A walk stamps all nodes it visits
//!   with one tick; a node that an operation creates, the front of a split or
//!   a new leaf, gets a fresh, strictly newer one.
//! - Evictions go by the `EvictionPolicy` priority, ties by node id.
//! - Host transfers are the caller's. The tree reports the runs to free and
//!   the splits of nodes whose backup is pending, and a load back comes in
//!   two phases, `init_load_back` and `finish_load_back`.
//!
//! Invariants that every operation keeps:
//! - a node in `evictable_leaves` is live, unlocked and has no live children,
//!   and every such node is in it;
//! - a node in `evictable_host_leaves` is evicted, unlocked, host-unlocked and
//!   has no backed-up children, and every such node is in it;
//! - an evicted node of the tree is backed up, and a live node hangs below
//!   live nodes.
//!
//! What each operation does to the tree is stated over `HiState`.

use crate::chains;
use crate::hi_laws;
use crate::hi_model;
use crate::hi_model::{HiCounter, HiInserted, HiMatched, HiNodeState, HiPolicy, HiState};
use crate::idset::IdSet;
use crate::key::RadixKey;
use crate::policy;
use crate::policy::{EvictionPolicy, Prio};
use crate::query;
use crate::query::Trunk;
use crate::queue::{EvictQueue, HeapItem};
use crate::seqs;
use crate::seqs::{append_run, copy_opt, copy_range};
use crate::topo;
use crate::topo::{NodeId, ROOT};
use crate::tree;
use crate::tree::runs_of;
use crate::tree_model;
use vstd::prelude::*;

verus! {

impl HiPolicy {
    /// The policy that `name` names, in lower case.
    pub open spec fn named(name: Seq<char>) -> Option<HiPolicy> {
        if name == "write_through"@ || name == "write_through_selective"@ {
            Some(HiPolicy::WriteThrough)
        } else if name == "write_back"@ {
            Some(HiPolicy::WriteBack)
        } else {
            None
        }
    }

    /// Parse a write policy name, in any letter case: exactly
    /// `write_through|write_through_selective|write_back`.
    pub fn parse(name: &str) -> (r: Result<Self, String>)
        ensures
            match (HiPolicy::named(policy::lowered(name@)), r) {
                (Some(p), Ok(q)) => p == q,
                (None, Err(text)) => text@ == "unknown hicache write policy "@ + policy::debug_text(
                    policy::lowered(name@),
                ) + " (expected\nwrite_through | write_through_selective | write_back)"@,
                _ => false,
            },
    {
        let low = policy::ascii_lowercase(name);
        if low == "write_through".to_owned() || low == "write_through_selective".to_owned() {
            Ok(Self::WriteThrough)
        } else if low == "write_back".to_owned() {
            Ok(Self::WriteBack)
        } else {
            let mut text = "unknown hicache write policy ".to_owned();
            text.append(policy::debug_string(low.as_str()).as_str());
            text.append(" (expected\nwrite_through | write_through_selective | write_back)");
            Err(text)
        }
    }
}

/// What one node caches. Where the node stands is kept by the tree's
/// topology under the same id.
#[derive(Debug, Clone)]
pub struct HiRadixNode {
    /// Device KV, one index per logical unit; `None` = evicted. Root:
    /// `Some(vec![])`.
    pub value: Option<Vec<i64>>,
    /// Host copy, one index per logical unit; `None` = not backed up. Root:
    /// `Some(vec![])`, so that the root anchors every host walk.
    pub host_value: Option<Vec<i64>>,
    /// Device lock.
    pub lock_ref: u32,
    /// Host reference counter (prefetch / load-back protection).
    pub host_ref: u32,
    /// Write-through hit counter (backup trigger at the threshold).
    pub hit_count: u64,
    /// Eviction priority (lower evicts earlier under `Priority`). Root is
    /// `i32::MIN`.
    pub priority: i32,
    /// Walk clock of the last visit.
    pub last_access: u64,
    /// A backup was enqueued for this node and not acknowledged yet. Split
    /// nodes inherit it on both halves.
    pub backup_pending: bool,
    pub id: NodeId,
}

impl HiRadixNode {
    /// The node as the model describes it.
    pub open spec fn view(&self) -> HiNodeState {
        HiNodeState {
            value: seqs::opt_run(self.value),
            host: seqs::opt_run(self.host_value),
            lock: self.lock_ref,
            host_ref: self.host_ref,
            hits: self.hit_count,
            priority: self.priority,
            access: self.last_access,
            pending: self.backup_pending,
        }
    }

    /// Whether the node holds no device run.
    pub fn evicted(&self) -> (r: bool)
        ensures
            r == (self@.value is None),
    {
        self.value.is_none()
    }

    /// Whether the node holds a host copy.
    pub fn backuped(&self) -> (r: bool)
        ensures
            r == (self@.host is Some),
    {
        self.host_value.is_some()
    }
}

/// The nodes as the model describes them.
pub open spec fn node_states(nodes: Seq<HiRadixNode>) -> Seq<HiNodeState> {
    Seq::new(nodes.len(), |i: int| nodes[i]@)
}

/// Result of `match_prefix`.
#[derive(Debug, Clone, PartialEq, Eq)]
pub struct HiMatchResult {
    /// Device KV of the live nodes of the matched path.
    pub indices: Vec<i64>,
    /// The last live node of the matched path (root when all of it is
    /// evicted).
    pub last_device_node: NodeId,
    /// The last backed-up node of the matched path: where a load back
    /// starts.
    pub last_host_node: NodeId,
    /// Host tokens of the evicted suffix of the matched path.
    pub host_hit_length: usize,
    /// `(front, tail)` for every node split by this match.
    pub splits: Vec<(NodeId, NodeId)>,
}

/// A match result as the model describes it.
pub open spec fn matched(r: HiMatchResult) -> HiMatched {
    HiMatched {
        indices: r.indices@,
        device_node: r.last_device_node,
        host_node: r.last_host_node,
        host_len: r.host_hit_length as int,
        splits: r.splits@,
    }
}

impl Default for HiMatchResult {
    fn default() -> (r: Self)
        ensures
            matched(r) == (HiMatched {
                indices: Seq::empty(),
                device_node: ROOT,
                host_node: ROOT,
                host_len: 0,
                splits: Seq::empty(),
            }),
    {
        HiMatchResult {
            indices: Vec::new(),
            last_device_node: ROOT,
            last_host_node: ROOT,
            host_hit_length: 0,
            splits: Vec::new(),
        }
    }
}

/// Result of `insert`.
#[derive(Debug, Clone, PartialEq, Eq)]
pub struct HiInsertResult {
    /// Live device tokens already in the tree; the runs of evicted nodes
    /// that took their part of the value are not counted.
    pub prefix_len: usize,
    /// Deepest node the walk touched (new leaf when created).
    pub last_node: NodeId,
    /// Nodes that reached the write-through threshold without a backup. The
    /// caller copies each and then calls `begin_backup`.
    pub backup_needed: Vec<NodeId>,
    /// `(front, tail)` for every node split by this insert.
    pub splits: Vec<(NodeId, NodeId)>,
}

/// An insert result as the model describes it.
pub open spec fn inserted(r: HiInsertResult) -> HiInserted {
    HiInserted {
        prefix: r.prefix_len as int,
        node: r.last_node,
        due: r.backup_needed@,
        splits: r.splits@,
    }
}

impl Default for HiInsertResult {
    fn default() -> (r: Self)
        ensures
            inserted(r) == (HiInserted {
                prefix: 0,
                node: ROOT,
                due: Seq::empty(),
                splits: Seq::empty(),
            }),
    {
        HiInsertResult { prefix_len: 0, last_node: ROOT, backup_needed: Vec::new(), splits: Vec::new() }
    }
}

/// Result of `evict`.
#[derive(Debug, Clone, PartialEq, Eq)]
pub struct HiEvictResult {
    pub num_tokens_evicted: usize,
    /// Device runs released, in eviction order: of demoted and of deleted
    /// leaves alike.
    pub free_device: Vec<Vec<i64>>,
}

impl Default for HiEvictResult {
    fn default() -> (r: Self)
        ensures
            r.num_tokens_evicted == 0,
            r.free_device@.len() == 0,
    {
        HiEvictResult { num_tokens_evicted: 0, free_device: Vec::new() }
    }
}

/// Result of `evict_host`.
#[derive(Debug, Clone, PartialEq, Eq)]
pub struct HiHostEvictResult {
    pub num_tokens_evicted: usize,
    /// Host runs released, in eviction order.
    pub free_host: Vec<Vec<i64>>,
    /// Nodes deleted from the tree, in eviction order.
    pub deleted: Vec<NodeId>,
}

impl Default for HiHostEvictResult {
    fn default() -> (r: Self)
        ensures
            r.num_tokens_evicted == 0,
            r.free_host@.len() == 0,
            r.deleted@.len() == 0,
    {
        HiHostEvictResult { num_tokens_evicted: 0, free_host: Vec::new(), deleted: Vec::new() }
    }
}

/// A load back in flight: the evicted chain and its host indices. The caller
/// owns the transfer between `init_load_back` and `finish_load_back` or
/// `abort_load_back`.
#[derive(Debug, Clone, PartialEq, Eq)]
pub struct LoadBackPlan {
    /// The live node that the chain hangs below; the one that takes the
    /// temporary device lock while the plan is open.
    pub ancestor: NodeId,
    /// The requested (deepest evicted) node.
    pub last_node: NodeId,
    /// The chain, topmost first, all evicted and backed up. While the plan
    /// is open each is host-protected, and locked on the device through the
    /// ancestor: that lock keeps the node they hang below, and with it them,
    /// in the tree.
    pub nodes: Vec<NodeId>,
    /// Host indices of the chain, in `nodes` order.
    pub host_indices: Vec<i64>,
}

impl Default for LoadBackPlan {
    fn default() -> (r: Self)
        ensures
            r.ancestor == ROOT,
            r.last_node == ROOT,
            r.nodes@.len() == 0,
            r.host_indices@.len() == 0,
    {
        LoadBackPlan { ancestor: ROOT, last_node: ROOT, nodes: Vec::new(), host_indices: Vec::new() }
    }
}

/// Result of `drop_subtree_no_host`.
#[derive(Debug, Clone, PartialEq, Eq)]
pub struct DropSubtreeResult {
    /// Device tokens freed; 0 when the subtree was refused.
    pub freed_device: i64,
    pub free_device: Vec<Vec<i64>>,
    pub free_host: Vec<Vec<i64>>,
}

impl Default for DropSubtreeResult {
    fn default() -> (r: Self)
        ensures
            r.freed_device == 0,
            r.free_device@.len() == 0,
            r.free_host@.len() == 0,
    {
        DropSubtreeResult { freed_device: 0, free_device: Vec::new(), free_host: Vec::new() }
    }
}

/// The host-tier tree.
#[derive(Clone)]
pub struct HiRadixTree {
    trunk: Trunk,
    nodes: Vec<HiRadixNode>,
    disable: bool,
    policy: HiPolicy,
    strategy: EvictionPolicy,
    write_through_threshold: u64,
    load_back_threshold: usize,
    evictable_leaves: IdSet,
    evictable_host_leaves: IdSet,
    /// Device tokens in unlocked live nodes.
    evictable_size: i64,
    /// Device tokens in locked live nodes.
    protected_size: i64,
    clock: u64,
}

impl HiRadixTree {
    /// The state of the tree.
    pub closed spec fn view(&self) -> HiState {
        HiState {
            shape: self.trunk.topo@,
            nodes: node_states(self.nodes@),
            names: self.trunk.names@,
            is_eagle: self.trunk.is_eagle,
            disable: self.disable,
            policy: self.policy,
            strategy: self.strategy,
            threshold: self.write_through_threshold,
            load_min: self.load_back_threshold as nat,
            clock: self.clock,
        }
    }

    /// The state is possible, and counters and leaf sets say what follows
    /// from it.
    pub closed spec fn wf(&self) -> bool {
        &&& self.sound()
        &&& self@.wf()
        &&& self.evictable_size == self@.count(HiCounter::Evictable)
        &&& self.protected_size == self@.count(HiCounter::Protected)
        &&& forall|id: NodeId| #[trigger] self.evictable_leaves@.contains(id) == self@.leaf(id)
        &&& forall|id: NodeId| #[trigger] self.evictable_host_leaves@.contains(id) == self@.host_leaf(id)
    }

    /// The parts are well-formed each on its own.
    closed spec fn sound(&self) -> bool {
        &&& self.trunk.wf()
        &&& self.evictable_leaves.wf()
        &&& self.evictable_host_leaves.wf()
        &&& self.nodes@.len() == self.trunk.topo@.nodes.len()
        &&& forall|i: int| 0 <= i < self.nodes@.len() ==> (#[trigger] self.nodes@[i]).id == i
    }

    /// What holds of the state of a well-formed tree.
    pub proof fn lemma_wf(&self)
        requires
            self.wf(),
        ensures
            self@.wf(),
            self@.shape.chunk() <= usize::MAX,
    {
        self.trunk.topo.lemma_wf();
    }

    /// A new tree; `page_size` and `write_through_threshold` must be at
    /// least 1.
    pub fn new(
        page_size: usize,
        is_eagle: bool,
        policy: HiPolicy,
        strategy: EvictionPolicy,
        write_through_threshold: u64,
        load_back_threshold: usize,
    ) -> (r: Self)
        requires
            page_size >= 1,
            is_eagle ==> page_size * 2 <= usize::MAX,
            write_through_threshold >= 1,
        ensures
            r.wf(),
            r@ == HiState::fresh(
                page_size as nat,
                is_eagle,
                false,
                policy,
                strategy,
                write_through_threshold,
                load_back_threshold as nat,
            ),
    {
        HiRadixTree::empty(
            page_size,
            is_eagle,
            false,
            policy,
            strategy,
            write_through_threshold,
            load_back_threshold,
        )
    }

    fn empty(
        page_size: usize,
        is_eagle: bool,
        disable: bool,
        policy: HiPolicy,
        strategy: EvictionPolicy,
        write_through_threshold: u64,
        load_back_threshold: usize,
    ) -> (r: Self)
        requires
            page_size >= 1,
            is_eagle ==> page_size * 2 <= usize::MAX,
        ensures
            r.wf(),
            r@ == HiState::fresh(
                page_size as nat,
                is_eagle,
                disable,
                policy,
                strategy,
                write_through_threshold,
                load_back_threshold as nat,
            ),
    {
        let mut nodes: Vec<HiRadixNode> = Vec::new();
        nodes.push(
            HiRadixNode {
                value: Some(Vec::new()),
                host_value: Some(Vec::new()),
                lock_ref: 1,
                host_ref: 0,
                hit_count: 0,
                priority: i32::MIN,
                last_access: 0,
                backup_pending: false,
                id: ROOT,
            },
        );
        let r = HiRadixTree {
            trunk: Trunk::new(page_size, is_eagle),
            nodes,
            disable,
            policy,
            strategy,
            write_through_threshold,
            load_back_threshold,
            evictable_leaves: IdSet::new(),
            evictable_host_leaves: IdSet::new(),
            evictable_size: 0,
            protected_size: 0,
            clock: 0,
        };
        proof {
            let st = HiState::fresh(
                page_size as nat,
                is_eagle,
                disable,
                policy,
                strategy,
                write_through_threshold,
                load_back_threshold as nat,
            );
            assert(r@.nodes[0].value->0 =~= Seq::<i64>::empty());
            assert(r@.nodes[0].host->0 =~= Seq::<i64>::empty());
            assert(r@.nodes =~= st.nodes);
            assert(r@ =~= st);
            reveal_with_fuel(seqs::total, 2);
            assert(st.frame() == r.trunk@);
        }
        r
    }

    /// Recreate the root and clear all bookkeeping.
    pub fn reset(&mut self)
        requires
            old(self).wf(),
        ensures
            final(self).wf(),
            final(self)@ == HiState::fresh(
                old(self)@.shape.page,
                old(self)@.is_eagle,
                old(self)@.disable,
                old(self)@.policy,
                old(self)@.strategy,
                old(self)@.threshold,
                old(self)@.load_min,
            ),
    {
        proof {
            self.lemma_wf();
            topo::lemma_chunk(self@.shape);
        }
        let r = HiRadixTree::empty(
            self.trunk.topo.page_size(),
            self.trunk.is_eagle,
            self.disable,
            self.policy,
            self.strategy,
            self.write_through_threshold,
            self.load_back_threshold,
        );
        *self = r;
    }

    /// The tree with caching switched off (`true`) or on.
    pub fn with_disable(self, disable: bool) -> (r: Self)
        requires
            self.wf(),
        ensures
            r.wf(),
            r@ == (HiState { disable, ..self@ }),
    {
        let ghost before = self@;
        let mut r = self;
        r.disable = disable;
        proof {
            hi_model::lemma_same_holdings(before, r@);
        }
        r
    }

    /// Logical units per page.
    pub fn page_size(&self) -> (r: usize)
        requires
            self.wf(),
        ensures
            r == self@.shape.page,
    {
        self.trunk.topo.page_size()
    }

    /// The write policy.
    pub fn policy(&self) -> (r: HiPolicy)
        ensures
            r == self@.policy,
    {
        self.policy
    }

    /// The eviction policy.
    pub fn strategy(&self) -> (r: EvictionPolicy)
        ensures
            r == self@.strategy,
    {
        self.strategy
    }

    /// Hits from which on a node is due for backup.
    pub fn write_through_threshold(&self) -> (r: u64)
        ensures
            r == self@.threshold,
    {
        self.write_through_threshold
    }

    /// Host tokens from which on a load back is worth it.
    pub fn load_back_threshold(&self) -> (r: usize)
        ensures
            r == self@.load_min,
    {
        self.load_back_threshold
    }

    /// Device tokens in unlocked live nodes.
    pub fn evictable_size(&self) -> (r: i64)
        requires
            self.wf(),
        ensures
            r == self@.count(HiCounter::Evictable),
    {
        self.evictable_size
    }

    /// Device tokens in locked live nodes.
    pub fn protected_size(&self) -> (r: i64)
        requires
            self.wf(),
        ensures
            r == self@.count(HiCounter::Protected),
    {
        self.protected_size
    }

    /// Device tokens across live nodes.
    pub fn total_size(&self) -> (r: i64)
        requires
            self.wf(),
        ensures
            r == self@.size(),
    {
        let ghost st = self@;
        proof {
            hi_model::law_sizes_add_up(st);
        }
        self.evictable_size + self.protected_size
    }

    /// Host tokens across backed-up nodes.
    pub fn total_host_size(&self) -> (r: i64)
        requires
            self.wf(),
        ensures
            r == self@.host_size(),
    {
        let ghost st = self@;
        let ghost f = |j: int| st.weight(HiCounter::Host, j);
        let mut total: i64 = 0;
        let mut i: usize = 0;
        proof {
            hi_model::law_sizes_add_up(st);
            assert(st.count(HiCounter::Host) <= i64::MAX);
            assert forall|j: int| 0 <= j < st.nodes.len() implies #[trigger] f(j) >= 0 by {
                assert(st.weight(HiCounter::Host, j) >= 0);
            }
        }
        while i < self.nodes.len()
            invariant
                self.wf(),
                st == self@,
                f == (|j: int| st.weight(HiCounter::Host, j)),
                i <= self.nodes@.len() == st.nodes.len(),
                total == seqs::total(f, i as nat),
                st.host_size() == seqs::total(f, st.nodes.len()),
                st.host_size() <= i64::MAX,
                forall|j: int| 0 <= j < st.nodes.len() ==> #[trigger] f(j) >= 0,
            decreases self.nodes@.len() - i,
        {
            proof {
                if i > 0 {
                    assert(st.node_ok(i as int));
                }
                seqs::lemma_total_prefix(f, (i + 1) as nat, st.nodes.len());
                seqs::lemma_total_bounds(f, i as nat);
                assert(st.nodes[i as int] == self.nodes@[i as int]@);
                assert(f(i as int) >= 0);
            }
            if let Some(v) = &self.nodes[i].host_value {
                total = total + v.len() as i64;
            }
            i += 1;
        }
        total
    }

    // ---- node accessors ----

    /// Children of a node.
    pub fn node_children(&self, id: NodeId) -> (r: Vec<NodeId>)
        requires
            self.wf(),
        ensures
            r@.no_duplicates(),
            forall|c: NodeId| #[trigger] r@.contains(c) <==> id < self@.nodes.len() && self@.shape.is_child(id, c),
    {
        if (id as usize) < self.nodes.len() {
            self.trunk.topo.children(id)
        } else {
            Vec::new()
        }
    }

    /// Whether a node holds no device run; `true` for an unknown id.
    pub fn node_evicted(&self, id: NodeId) -> (r: bool)
        ensures
            r == (if id < self@.nodes.len() {
                self@.nodes[id as int].value is None
            } else {
                true
            }),
    {
        if (id as usize) < self.nodes.len() {
            assert(self@.nodes[id as int] == self.nodes@[id as int]@);
            self.nodes[id as usize].evicted()
        } else {
            true
        }
    }

    /// Whether a node holds a host copy; `false` for an unknown id.
    pub fn node_backuped(&self, id: NodeId) -> (r: bool)
        ensures
            r == (if id < self@.nodes.len() {
                self@.nodes[id as int].host is Some
            } else {
                false
            }),
    {
        if (id as usize) < self.nodes.len() {
            assert(self@.nodes[id as int] == self.nodes@[id as int]@);
            self.nodes[id as usize].backuped()
        } else {
            false
        }
    }

    /// The device run of a node.
    pub fn node_value(&self, id: NodeId) -> (r: Option<Vec<i64>>)
        ensures
            seqs::opt_run(r) == (if id < self@.nodes.len() {
                self@.nodes[id as int].value
            } else {
                None
            }),
    {
        if (id as usize) < self.nodes.len() {
            assert(self@.nodes[id as int] == self.nodes@[id as int]@);
            copy_opt(&self.nodes[id as usize].value)
        } else {
            None
        }
    }

    /// The host copy of a node.
    pub fn node_host_value(&self, id: NodeId) -> (r: Option<Vec<i64>>)
        ensures
            seqs::opt_run(r) == (if id < self@.nodes.len() {
                self@.nodes[id as int].host
            } else {
                None
            }),
    {
        if (id as usize) < self.nodes.len() {
            assert(self@.nodes[id as int] == self.nodes@[id as int]@);
            copy_opt(&self.nodes[id as usize].host_value)
        } else {
            None
        }
    }

    /// The device lock count of a node; `u32::MAX` for an unknown id.
    pub fn node_lock_ref(&self, id: NodeId) -> (r: u32)
        ensures
            r == (if id < self@.nodes.len() {
                self@.nodes[id as int].lock
            } else {
                u32::MAX
            }),
    {
        if (id as usize) < self.nodes.len() {
            assert(self@.nodes[id as int] == self.nodes@[id as int]@);
            self.nodes[id as usize].lock_ref
        } else {
            u32::MAX
        }
    }

    /// The host reference count of a node; `u32::MAX` for an unknown id.
    pub fn node_host_ref(&self, id: NodeId) -> (r: u32)
        ensures
            r == (if id < self@.nodes.len() {
                self@.nodes[id as int].host_ref
            } else {
                u32::MAX
            }),
    {
        if (id as usize) < self.nodes.len() {
            assert(self@.nodes[id as int] == self.nodes@[id as int]@);
            self.nodes[id as usize].host_ref
        } else {
            u32::MAX
        }
    }

    /// The hits of a node; `u64::MAX` for an unknown id.
    pub fn node_hit_count(&self, id: NodeId) -> (r: u64)
        ensures
            r == (if id < self@.nodes.len() {
                self@.nodes[id as int].hits
            } else {
                u64::MAX
            }),
    {
        if (id as usize) < self.nodes.len() {
            assert(self@.nodes[id as int] == self.nodes@[id as int]@);
            self.nodes[id as usize].hit_count
        } else {
            u64::MAX
        }
    }

    /// The priority of a node; `i32::MIN` for an unknown id.
    pub fn node_priority(&self, id: NodeId) -> (r: i32)
        ensures
            r == (if id < self@.nodes.len() {
                self@.nodes[id as int].priority
            } else {
                i32::MIN
            }),
    {
        if (id as usize) < self.nodes.len() {
            assert(self@.nodes[id as int] == self.nodes@[id as int]@);
            self.nodes[id as usize].priority
        } else {
            i32::MIN
        }
    }

    /// The last visit of a node; `u64::MAX` for an unknown id.
    pub fn node_last_access(&self, id: NodeId) -> (r: u64)
        ensures
            r == (if id < self@.nodes.len() {
                self@.nodes[id as int].access
            } else {
                u64::MAX
            }),
    {
        if (id as usize) < self.nodes.len() {
            assert(self@.nodes[id as int] == self.nodes@[id as int]@);
            self.nodes[id as usize].last_access
        } else {
            u64::MAX
        }
    }

    /// The flattened key on the edge to a node.
    pub fn node_key(&self, id: NodeId) -> (r: Option<Vec<i64>>)
        requires
            self.wf(),
        ensures
            seqs::opt_run(r) == (if id < self@.nodes.len() {
                Some(self@.shape.nodes[id as int].key)
            } else {
                None
            }),
    {
        if (id as usize) < self.nodes.len() {
            let key = self.trunk.topo.key(id);
            let k = copy_range(key, 0, key.len());
            assert(k@ =~= key@);
            Some(k)
        } else {
            None
        }
    }

    /// Whether a backup of a node is pending; `false` for an unknown id.
    pub fn node_backup_pending(&self, id: NodeId) -> (r: bool)
        ensures
            r == (if id < self@.nodes.len() {
                self@.nodes[id as int].pending
            } else {
                false
            }),
    {
        if (id as usize) < self.nodes.len() {
            assert(self@.nodes[id as int] == self.nodes@[id as int]@);
            self.nodes[id as usize].backup_pending
        } else {
            false
        }
    }

    /// The eviction priority of a node.
    pub fn node_prio(&self, id: NodeId) -> (r: Prio)
        requires
            id < self@.nodes.len(),
        ensures
            ({
                let n = self@.nodes[id as int];
                r == self@.strategy.prio_of(id, n.access, n.hits, n.priority)
            }),
    {
        self.prio_of(id)
    }

    /// Members of the evictable device leaf set, in no particular order.
    pub fn evictable_leaves(&self) -> (r: Vec<NodeId>)
        requires
            self.wf(),
        ensures
            r@.no_duplicates(),
            forall|id: NodeId| #[trigger] r@.contains(id) <==> self@.leaf(id),
    {
        self.evictable_leaves.to_vec()
    }

    /// Members of the evictable host leaf set, in no particular order.
    pub fn evictable_host_leaves(&self) -> (r: Vec<NodeId>)
        requires
            self.wf(),
        ensures
            r@.no_duplicates(),
            forall|id: NodeId| #[trigger] r@.contains(id) <==> self@.host_leaf(id),
    {
        self.evictable_host_leaves.to_vec()
    }

    /// The evictable device leaves in eviction order.
    pub fn evictable_leaves_ordered(&self) -> (r: Vec<NodeId>)
        requires
            self.wf(),
        ensures
            forall|id: NodeId| #[trigger] r@.contains(id) <==> self@.leaf(id),
            forall|i: int, j: int| 0 <= i < j < r@.len() ==> self@.item(r@[i]).before(self@.item(r@[j])),
    {
        let leaves = self.evictable_leaves.to_vec();
        let mut queue = self.ranked(&leaves);
        let mut r: Vec<NodeId> = Vec::new();
        let ghost all = queue@;
        loop
            invariant
                self.wf(),
                queue.wf(),
                all.finite(),
                queue@.subset_of(all),
                forall|y: HeapItem| #[trigger] all.contains(y) ==> self@.leaf(y.id) && y == self@.item(y.id),
                forall|id: NodeId| #[trigger] self@.leaf(id) ==> all.contains(self@.item(id)),
                forall|y: HeapItem| #[trigger] all.contains(y) <==> queue@.contains(y) || r@.contains(y.id) && self@.leaf(y.id) && y == self@.item(y.id),
                forall|k: int| 0 <= k < r@.len() ==> self@.leaf(#[trigger] r@[k]) && !queue@.contains(self@.item(r@[k])),
                forall|k: int, y: HeapItem| 0 <= k < r@.len() && #[trigger] queue@.contains(y) ==> self@.item(#[trigger] r@[k]).before(y),
                forall|i: int, j: int| 0 <= i < j < r@.len() ==> self@.item(r@[i]).before(self@.item(r@[j])),
            ensures
                queue@ == Set::<HeapItem>::empty(),
            decreases queue@.len(),
        {
            let ghost before = queue@;
            match queue.pop() {
                Some(item) => {
                    proof {
                        vstd::set_lib::lemma_len_subset(before, all);
                        assert(all.contains(item));
                    }
                    let ghost old_r = r@;
                    r.push(item.id);
                    proof {
                        assert(r@[old_r.len() as int] == item.id);
                        assert forall|y: HeapItem| #[trigger] all.contains(y) <==> queue@.contains(y) || r@.contains(y.id) && self@.leaf(y.id) && y
                            == self@.item(y.id) by {
                            if old_r.contains(y.id) {
                                assert(r@[old_r.index_of(y.id)] == y.id);
                            }
                            if r@.contains(y.id) && !old_r.contains(y.id) {
                                let k = r@.index_of(y.id);
                                if k < old_r.len() {
                                    assert(old_r[k] == y.id);
                                }
                            }
                        }
                        assert forall|k: int, y: HeapItem| 0 <= k < r@.len() && #[trigger] queue@.contains(y) implies self@.item(
                            #[trigger] r@[k],
                        ).before(y) by {
                            assert(before.contains(y));
                            if k < old_r.len() {
                                assert(r@[k] == old_r[k]);
                            }
                        }
                        assert forall|k: int| 0 <= k < r@.len() implies self@.leaf(#[trigger] r@[k]) && !queue@.contains(self@.item(r@[k])) by {
                            if k < old_r.len() {
                                assert(r@[k] == old_r[k]);
                                assert(!before.contains(self@.item(old_r[k])));
                            }
                        }
                    }
                },
                None => {
                    break;
                },
            }
        }
        proof {
            assert forall|id: NodeId| #[trigger] r@.contains(id) <==> self@.leaf(id) by {
                if self@.leaf(id) {
                    assert(all.contains(self@.item(id)));
                }
                if r@.contains(id) {
                    let k = r@.index_of(id);
                    assert(self@.leaf(r@[k]));
                }
            }
        }
        r
    }

    fn prio_of(&self, id: NodeId) -> (r: Prio)
        requires
            id < self@.nodes.len(),
        ensures
            ({
                let n = self@.nodes[id as int];
                r == self@.strategy.prio_of(id, n.access, n.hits, n.priority)
            }),
    {
        assert(self@.nodes[id as int] == self.nodes@[id as int]@);
        let n = &self.nodes[id as usize];
        self.strategy.prio_fields(id, n.last_access, n.hit_count, n.priority)
    }

    /// The rank by which `id` is evicted.
    fn item(&self, id: NodeId) -> (r: HeapItem)
        requires
            id < self@.nodes.len(),
        ensures
            r == self@.item(id),
    {
        let p = self.prio_of(id);
        HeapItem { a: p.a, b: p.b, c: p.c as i64, id }
    }

    /// The nodes `ids` by rank.
    fn ranked(&self, ids: &Vec<NodeId>) -> (q: EvictQueue)
        requires
            self.wf(),
            ids@.no_duplicates(),
            forall|id: NodeId| #[trigger] ids@.contains(id) ==> id < self@.nodes.len(),
        ensures
            q.wf(),
            q@.finite(),
            forall|y: HeapItem| #[trigger] q@.contains(y) <==> ids@.contains(y.id) && y == self@.item(y.id),
    {
        let mut q = EvictQueue::new();
        let mut k: usize = 0;
        assert(ids@.take(0) =~= Seq::<NodeId>::empty());
        while k < ids.len()
            invariant
                self.wf(),
                q.wf(),
                q@.finite(),
                k <= ids@.len(),
                ids@.no_duplicates(),
                forall|id: NodeId| #[trigger] ids@.contains(id) ==> id < self@.nodes.len(),
                forall|y: HeapItem| #[trigger] q@.contains(y) <==> ids@.take(k as int).contains(y.id) && y == self@.item(y.id),
            decreases ids@.len() - k,
        {
            let id = ids[k];
            proof {
                assert(ids@.contains(id));
                chains::lemma_not_before(ids@, k as int);
                assert(ids@.take(k + 1) =~= ids@.take(k as int).push(id));
            }
            let ghost before = q@;
            q.push(self.item(id));
            proof {
                assert forall|y: HeapItem| #[trigger] q@.contains(y) <==> ids@.take(k + 1).contains(y.id) && y == self@.item(y.id) by {
                    tree_model::lemma_push_contains(ids@.take(k as int), id, y.id);
                }
            }
            k += 1;
        }
        assert(ids@.take(ids@.len() as int) =~= ids@);
        q
    }

    // ---- operations ----

    /// The longest cached path of `key`, on either tier. All nodes visited
    /// get one time; a node matched in part is split.
    pub fn match_prefix(&mut self, key: &RadixKey) -> (r: HiMatchResult)
        requires
            old(self).wf(),
            old(self)@.roomy(),
        ensures
            final(self).wf(),
            (final(self)@, matched(r)) == old(self)@.after_match(*key),
    {
        let ghost st = self@;
        let flat_key = self.trunk.flatten(key);
        let flat = flat_key.as_ref();
        if self.disable || flat.len() == 0 {
            return HiMatchResult::default();
        }
        let v = self.visit(ROOT, key, flat);
        let ghost at = self@;
        let indices = self.gather(&v.visited);
        let (last_device_node, host_hit_length) = self.device_end(&v.visited);
        let last_host_node = self.host_end(&v.visited);
        HiMatchResult { indices, last_device_node, last_host_node, host_hit_length, splits: v.splits }
    }

    /// Caches `value` under `key`. Evicted nodes on the way take their part
    /// of it as their device run; live ones take over a higher priority and
    /// count a hit.
    #[verifier::spinoff_prover]
    #[verifier::rlimit(40)]
    pub fn insert(&mut self, key: &RadixKey, value: &[i64], priority: i32, chunked: bool) -> (r: HiInsertResult)
        requires
            old(self).wf(),
            old(self)@.roomy(),
            !old(self)@.disable ==> {
                let units = old(self)@.frame().units(*key);
                &&& old(self)@.frame().fits(*key)
                &&& value@.len() >= units
                &&& old(self)@.size() + units <= i64::MAX
                &&& old(self)@.size() + units <= usize::MAX
            },
        ensures
            final(self).wf(),
            (final(self)@, inserted(r)) == old(self)@.after_insert(*key, value@, priority, chunked),
    {
        let ghost st = self@;
        let flat_key = self.trunk.flatten(key);
        let flat = flat_key.as_ref();
        proof {
            query::lemma_query(st.frame(), *key);
            chains::lemma_key_tokens(st.frame(), *key);
            topo::lemma_chunk(st.shape);
        }
        if self.disable || flat.len() == 0 {
            return HiInsertResult::default();
        }
        let unit = self.trunk.topo.unit_size();
        let units = flat.len() / unit;
        let value = vstd::slice::slice_subrange(value, 0, units);
        assert(value@ =~= value@.take(units as int));
        let ghost val = value@;
        let (ns, used, mut res) = self.insert_walk(key, flat, value, priority, chunked);
        proof {
            tree_model::lemma_halves(flat@.len() as int, used as int, unit as int);
            topo::lemma_aligned(st.shape, flat@.len() as int, used as int);
        }
        if used < flat.len() {
            let total = used / unit;
            let rest = copy_range(flat, used, flat.len());
            let fresh = copy_range(value, total, units);
            proof {
                assert(rest@ =~= flat@.skip(used as int));
                assert(fresh@ =~= val.skip(total as int));
            }
            let now = self.tick();
            let new_id = self.nodes.len() as NodeId;
            let leaf = HiRadixNode {
                value: Some(fresh),
                host_value: None,
                lock_ref: 0,
                host_ref: 0,
                hit_count: 0,
                priority,
                last_access: now,
                backup_pending: false,
                id: new_id,
            };
            let id = self.add_node(res.last_node, ns, rest, leaf);
            self.hit(id, chunked, &mut res.backup_needed);
            res.last_node = id;
        }
        res
    }

    /// Evicts device leaves in policy order until `num_tokens` are gone or
    /// none is left: a backed-up leaf is demoted, another is deleted.
    pub fn evict(&mut self, num_tokens: usize) -> (r: HiEvictResult)
        requires
            old(self).wf(),
            !old(self)@.disable ==> old(self)@.drains(num_tokens as int),
        ensures
            final(self).wf(),
            ({
                let done = if old(self)@.disable {
                    (old(self)@, Seq::empty())
                } else {
                    old(self)@.after_evict(num_tokens as int)
                };
                &&& (final(self)@, runs_of(r.free_device@)) == done
                &&& r.num_tokens_evicted == tree_model::run_total(done.1)
            }),
    {
        let ghost st = self@;
        let mut free_device: Vec<Vec<i64>> = Vec::new();
        let mut num_evicted: usize = 0;
        proof {
            assert(runs_of(free_device@) =~= Seq::<Seq<i64>>::empty());
            let rest = st.after_evict(num_tokens as int);
            assert(runs_of(free_device@) + rest.1 =~= rest.1);
        }
        if self.disable {
            return HiEvictResult { num_tokens_evicted: num_evicted, free_device };
        }
        loop
            invariant
                self.wf(),
                self@.drains(num_tokens - num_evicted),
                num_evicted + self@.size() == st.size(),
                st.size() <= usize::MAX,
                num_evicted == tree_model::run_total(runs_of(free_device@)),
                ({
                    let rest = self@.after_evict(num_tokens - num_evicted);
                    st.after_evict(num_tokens as int) == (rest.0, runs_of(free_device@) + rest.1)
                }),
            ensures
                st.after_evict(num_tokens as int) == (self@, runs_of(free_device@)),
                num_evicted == tree_model::run_total(runs_of(free_device@)),
                self.wf(),
            decreases self@.live_count(),
        {
            let ghost cur = self@;
            assert(runs_of(free_device@) + Seq::<Seq<i64>>::empty() =~= runs_of(free_device@));
            if num_evicted >= num_tokens {
                break;
            }
            let leaves = self.evictable_leaves.to_vec();
            proof {
                assert(leaves@.to_set() =~= cur.leaves());
            }
            let x = match self.first_of(&leaves) {
                Some(x) => x,
                None => {
                    break;
                },
            };
            proof {
                assert(cur.leaf(x));
                hi_model::lemma_evict_counts(cur, x);
                assert(cur.nodes[x as int] == self.nodes@[x as int]@);
                assert(cur.node_ok(x as int));
                hi_model::law_sizes_add_up(cur);
                assert(cur.held(x as int) <= cur.size());
            }
            let device = if self.nodes[x as usize].backuped() {
                proof {
                    hi_model::lemma_detached(cur, x);
                }
                self.detach_backuped(x)
            } else {
                proof {
                    hi_model::lemma_erased(cur, x);
                    assert(cur.erased(x).count(HiCounter::Evictable) == cur.count(HiCounter::Evictable) - cur.weight(
                        HiCounter::Evictable,
                        x as int,
                    ));
                    assert(cur.erased(x).count(HiCounter::Protected) == cur.count(HiCounter::Protected) - cur.weight(
                        HiCounter::Protected,
                        x as int,
                    ));
                }
                self.evict_regular(x)
            };
            proof {
                tree::lemma_push_run(free_device@, device);
                tree_model::lemma_run_total_push(runs_of(free_device@), device@);
                let rest = self@.after_evict(num_tokens - num_evicted - device@.len());
                assert(runs_of(free_device@) + (seq![device@] + rest.1) =~= runs_of(free_device@).push(device@) + rest.1);
                hi_model::law_sizes_add_up(self@);
                assert(self@.count(HiCounter::Evictable) >= 0);
                assert(self@.count(HiCounter::Protected) >= 0);
            }
            num_evicted = num_evicted + device.len();
            free_device.push(device);
        }
        HiEvictResult { num_tokens_evicted: num_evicted, free_device }
    }

    /// Deletes host leaves that nothing protects, in policy order, until
    /// `num_tokens` host tokens are gone or none is left.
    pub fn evict_host(&mut self, num_tokens: usize) -> (r: HiHostEvictResult)
        requires
            old(self).wf(),
        ensures
            final(self).wf(),
            (final(self)@, runs_of(r.free_host@), r.deleted@) == old(self)@.after_evict_host(num_tokens as int),
            r.num_tokens_evicted == tree_model::run_total(runs_of(r.free_host@)),
    {
        let ghost st = self@;
        let mut free_host: Vec<Vec<i64>> = Vec::new();
        let mut deleted: Vec<NodeId> = Vec::new();
        let mut num_evicted: usize = 0;
        proof {
            assert(runs_of(free_host@) =~= Seq::<Seq<i64>>::empty());
            let rest = st.after_evict_host(num_tokens as int);
            assert(runs_of(free_host@) + rest.1 =~= rest.1);
            assert(deleted@ + rest.2 =~= rest.2);
        }
        loop
            invariant
                self.wf(),
                num_evicted + self@.host_size() == st.host_size(),
                st.host_size() <= usize::MAX,
                num_evicted == tree_model::run_total(runs_of(free_host@)),
                ({
                    let rest = self@.after_evict_host(num_tokens - num_evicted);
                    st.after_evict_host(num_tokens as int) == (
                        rest.0,
                        runs_of(free_host@) + rest.1,
                        deleted@ + rest.2,
                    )
                }),
            ensures
                st.after_evict_host(num_tokens as int) == (self@, runs_of(free_host@), deleted@),
                num_evicted == tree_model::run_total(runs_of(free_host@)),
                self.wf(),
            decreases self@.node_count(),
        {
            let ghost cur = self@;
            assert(runs_of(free_host@) + Seq::<Seq<i64>>::empty() =~= runs_of(free_host@));
            assert(deleted@ + Seq::<NodeId>::empty() =~= deleted@);
            if num_evicted >= num_tokens {
                break;
            }
            let leaves = self.evictable_host_leaves.to_vec();
            proof {
                assert(leaves@.to_set() =~= cur.host_leaves());
            }
            let x = match self.first_of(&leaves) {
                Some(x) => x,
                None => {
                    break;
                },
            };
            proof {
                assert(cur.host_leaf(x));
                hi_model::lemma_erase_counts(cur, x);
                assert(cur.nodes[x as int] == self.nodes@[x as int]@);
                assert(cur.node_ok(x as int));
                lemma_host_leaf(cur, x);
                hi_model::lemma_erased(cur, x);
                hi_model::law_sizes_add_up(cur);
                assert(cur.erased(x).count(HiCounter::Host) == cur.count(HiCounter::Host) - cur.weight(
                    HiCounter::Host,
                    x as int,
                ));
                assert(cur.weight(HiCounter::Host, x as int) <= cur.count(HiCounter::Host));
            }
            let host = match &self.nodes[x as usize].host_value {
                Some(v) => copy_range(v.as_slice(), 0, v.len()),
                None => Vec::new(),
            };
            self.erase(x);
            proof {
                assert(host@ =~= hi_model::run_or_none(cur.nodes[x as int].host));
                tree::lemma_push_run(free_host@, host);
                tree_model::lemma_run_total_push(runs_of(free_host@), host@);
                let rest = self@.after_evict_host(num_tokens - num_evicted - host@.len());
                assert(runs_of(free_host@) + (seq![host@] + rest.1) =~= runs_of(free_host@).push(host@) + rest.1);
                assert(deleted@ + (seq![x] + rest.2) =~= deleted@.push(x) + rest.2);
                hi_model::law_sizes_add_up(self@);
                assert(self@.count(HiCounter::Host) >= 0);
            }
            num_evicted = num_evicted + host.len();
            free_host.push(host);
            deleted.push(x);
        }
        HiHostEvictResult { num_tokens_evicted: num_evicted, free_host, deleted }
    }

    /// Puts host-only nodes below `start_node` for what the tree does not
    /// hold of `key`. Returns the tokens that it does hold; the caller frees
    /// their host indices.
    pub fn insert_host(&mut self, start_node: NodeId, key: &RadixKey, host_value: &[i64]) -> (r: usize)
        requires
            old(self).wf(),
            !old(self)@.disable ==> {
                let f = old(self)@.frame();
                let units = f.units(*key);
                &&& old(self)@.roomy()
                &&& start_node < old(self)@.nodes.len()
                &&& old(self)@.shape.nodes[start_node as int].attached
                &&& start_node != ROOT ==> old(self)@.shape.nodes[start_node as int].ns == f.ns_of(*key)
                &&& f.fits(*key)
                &&& host_value@.len() >= units
                &&& old(self)@.host_size() + units <= i64::MAX
                &&& old(self)@.host_size() + units <= usize::MAX
            },
        ensures
            final(self).wf(),
            final(self)@ == old(self)@.after_insert_host(start_node, *key, host_value@),
            r == (if old(self)@.disable || old(self)@.frame().flat(*key).len() == 0 {
                0
            } else {
                old(self)@.frame().walk_at(start_node, *key).used as int / old(self)@.shape.unit as int
            }),
    {
        let ghost st = self@;
        let ghost f = st.frame();
        if self.disable {
            return 0;
        }
        let flat_key = self.trunk.flatten(key);
        let flat = flat_key.as_ref();
        if flat.len() == 0 {
            return 0;
        }
        proof {
            query::lemma_query_at(f, start_node, *key);
            chains::lemma_key_tokens_at(f, start_node, *key);
            topo::lemma_chunk(st.shape);
        }
        let unit = self.trunk.topo.unit_size();
        let units = flat.len() / unit;
        let v = self.visit(start_node, key, flat);
        let matched = v.used / unit;
        proof {
            tree_model::lemma_halves(flat@.len() as int, v.used as int, unit as int);
            topo::lemma_aligned(st.shape, flat@.len() as int, v.used as int);
        }
        if v.used < flat.len() {
            let parent = if v.visited.len() == 0 {
                start_node
            } else {
                v.visited[v.visited.len() - 1]
            };
            let rest = copy_range(flat, v.used, flat.len());
            let host = copy_range(host_value, matched, units);
            assert(rest@ =~= flat@.skip(v.used as int));
            assert(self@.nodes[parent as int] == self.nodes@[parent as int]@);
            let priority = self.nodes[parent as usize].priority;
            let now = self.tick();
            let new_id = self.nodes.len() as NodeId;
            let leaf = HiRadixNode {
                value: None,
                host_value: Some(host),
                lock_ref: 0,
                host_ref: 0,
                hit_count: 0,
                priority,
                last_access: now,
                backup_pending: false,
                id: new_id,
            };
            let id = self.add_node(parent, v.ns, rest, leaf);
        }
        matched
    }

    /// Demotes an evictable leaf that is backed up and hands its device run
    /// out.
    pub fn detach_backuped(&mut self, node: NodeId) -> (device: Vec<i64>)
        requires
            old(self).wf(),
            old(self)@.leaf(node),
            old(self)@.nodes[node as int].host is Some,
        ensures
            final(self).wf(),
            final(self)@ == old(self)@.detached(node),
            device@ == old(self)@.nodes[node as int].value->0,
    {
        let ghost st = self@;
        let ghost t = st.detached(node);
        proof {
            hi_model::lemma_detached(st, node);
            hi_model::law_sizes_add_up(st);
            hi_model::law_sizes_add_up(t);
            assert(st.count(HiCounter::Evictable) <= i64::MAX);
            assert(t.count(HiCounter::Evictable) >= 0);
            topo::lemma_path_grows(st.shape, node);
            assert(st.node_ok(node as int));
            assert(st.nodes[node as int] == self.nodes@[node as int]@);
        }
        let parent = match self.trunk.topo.parent(node) {
            Some(p) => p,
            None => ROOT,
        };
        let device = match self.nodes[node as usize].value.take() {
            Some(v) => v,
            None => Vec::new(),
        };
        self.evictable_size = self.evictable_size - device.len() as i64;
        proof {
            assert(self@.nodes =~= t.nodes);
            assert(self@ =~= t);
        }
        self.update_leaf_status(node);
        self.update_host_leaf_status(node);
        self.update_leaf_status(parent);
        device
    }

    /// The parent of `node`, if it is not the root and none of its children
    /// is live: it is the next candidate for eviction then.
    pub fn promote_parent(&self, node: NodeId) -> (r: Option<NodeId>)
        requires
            self.wf(),
            node < self@.nodes.len(),
        ensures
            r == ({
                let p = self@.shape.nodes[node as int].parent;
                if node != ROOT && p != ROOT && self@.no_live_child(p) {
                    Some(p)
                } else {
                    None
                }
            }),
    {
        match self.trunk.topo.parent(node) {
            Some(p) => if p != ROOT && self.no_live_child(p) {
                Some(p)
            } else {
                None
            },
            None => None,
        }
    }

    /// A backup of the live node `node` has been written: attaches the host
    /// copy, marks the backup pending and, if `lock`, locks the node. Returns
    /// the change of the evictable size.
    pub fn begin_backup(&mut self, node: NodeId, host_indices: &[i64], lock: bool) -> (r: i64)
        requires
            old(self).wf(),
            0 < node,
            old(self)@.live(node),
            host_indices@.len() == old(self)@.shape.units(node as int),
            old(self)@.host_size() + host_indices@.len() <= i64::MAX,
            old(self)@.host_size() + host_indices@.len() <= usize::MAX,
            lock ==> old(self)@.lockable(node),
        ensures
            final(self).wf(),
            ({
                let st = old(self)@.patched(
                    node,
                    HiNodeState { host: Some(host_indices@), pending: true, ..old(self)@.nodes[node as int] },
                );
                final(self)@ == (if lock {
                    st.after_lock(node)
                } else {
                    st
                })
            }),
            r == final(self)@.count(HiCounter::Evictable) - old(self)@.count(HiCounter::Evictable),
    {
        let ghost st = self@;
        let ghost mid = st.patched(
            node,
            HiNodeState { host: Some(host_indices@), ..st.nodes[node as int] },
        );
        let ghost t = st.patched(
            node,
            HiNodeState { host: Some(host_indices@), pending: true, ..st.nodes[node as int] },
        );
        let host = copy_range(host_indices, 0, host_indices.len());
        proof {
            assert(host@ =~= host_indices@);
            hi_model::lemma_hosted(st, node, host_indices@);
            assert forall|i: int| 0 <= i < mid.nodes.len() implies (#[trigger] t.nodes[i]).hits <= mid.clock by {
                assert(st.nodes[i].hits <= st.clock);
            }
            hi_model::lemma_same_holdings(mid, t);
        }
        self.nodes[node as usize].host_value = Some(host);
        self.nodes[node as usize].backup_pending = true;
        proof {
            assert(self@.nodes =~= t.nodes);
            assert(self@ =~= t);
            if lock && !st.disable {
                hi_model::lemma_up_live(st, node);
                assert forall|k: int| 0 <= k < t.shape.up(node).len() implies t.nodes[(#[trigger] t.shape.up(node)[k]) as int].lock
                    < u32::MAX by {
                    assert(st.live(st.shape.up(node)[k]));
                }
            }
        }
        if lock {
            self.inc_lock_ref(node)
        } else {
            0
        }
    }

    /// A backup has been acknowledged.
    pub fn end_backup(&mut self, node: NodeId)
        requires
            old(self).wf(),
            node < old(self)@.nodes.len(),
        ensures
            final(self).wf(),
            final(self)@ == old(self)@.patched(
                node,
                HiNodeState { pending: false, ..old(self)@.nodes[node as int] },
            ),
    {
        self.set_pending(node, false);
    }

    /// Takes one more host reference on `node`, which is no evictable host
    /// leaf while it has one.
    pub fn protect_host(&mut self, node: NodeId)
        requires
            old(self).wf(),
            node < old(self)@.nodes.len(),
            old(self)@.nodes[node as int].host_ref < u32::MAX,
        ensures
            final(self).wf(),
            final(self)@ == old(self)@.patched(
                node,
                HiNodeState {
                    host_ref: (old(self)@.nodes[node as int].host_ref + 1) as u32,
                    ..old(self)@.nodes[node as int]
                },
            ),
    {
        assert(self@.nodes[node as int] == self.nodes@[node as int]@);
        let n = self.nodes[node as usize].host_ref;
        self.set_host_ref(node, n + 1);
    }

    /// Gives one host reference on `node` back; with the last one it may be
    /// an evictable host leaf again.
    pub fn release_host(&mut self, node: NodeId)
        requires
            old(self).wf(),
            node < old(self)@.nodes.len(),
            old(self)@.nodes[node as int].host_ref > 0,
        ensures
            final(self).wf(),
            final(self)@ == old(self)@.patched(
                node,
                HiNodeState {
                    host_ref: (old(self)@.nodes[node as int].host_ref - 1) as u32,
                    ..old(self)@.nodes[node as int]
                },
            ),
    {
        assert(self@.nodes[node as int] == self.nodes@[node as int]@);
        let n = self.nodes[node as usize].host_ref;
        self.set_host_ref(node, n - 1);
    }

    /// First phase of a load back: collects the evicted nodes from
    /// `last_node` up to the first live one, locks that and protects them.
    /// `None`, with the tree unchanged, if there is nothing to load, if it
    /// is too short, or if it exceeds the quota less what the lock takes
    /// off the evictable tokens.
    pub fn init_load_back(&mut self, last_node: NodeId, mem_quota: Option<i64>) -> (r: Option<LoadBackPlan>)
        requires
            old(self).wf(),
            last_node < old(self)@.nodes.len(),
            old(self)@.shape.nodes[last_node as int].attached,
            old(self)@.lockable(old(self)@.load_ancestor(last_node)),
            forall|k: int|
                0 <= k < old(self)@.load_chain(last_node).len() ==> old(self)@.nodes[(
                #[trigger] old(self)@.load_chain(last_node)[k]) as int].host_ref < u32::MAX,
        ensures
            final(self).wf(),
            final(self)@ == old(self)@.after_init_load(last_node, mem_quota),
            r is Some <==> old(self)@.load_goes(last_node, mem_quota),
            r matches Some(plan) ==> {
                &&& plan.ancestor == old(self)@.load_ancestor(last_node)
                &&& plan.last_node == last_node
                &&& plan.nodes@ == old(self)@.load_chain(last_node)
                &&& plan.host_indices@ == old(self)@.host_gathered(plan.nodes@)
                &&& final(self)@.plan_ok(plan.ancestor, plan.nodes@)
            },
    {
        let ghost st = self@;
        assert(st.nodes[last_node as int] == self.nodes@[last_node as int]@);
        if !self.nodes[last_node as usize].evicted() {
            return None;
        }
        let (nodes, ancestor) = self.evicted_chain(last_node);
        proof {
            assert forall|j: int| 0 <= j < nodes@.len() implies (#[trigger] nodes@[j]) < st.nodes.len() by {
                assert(chain_link(st, ancestor, nodes@, j));
            }
        }
        let host_indices = self.gather_host(&nodes);
        let delta = self.inc_lock_ref(ancestor);
        let ghost mid = self@;
        let n = host_indices.len();
        let over = match mem_quota {
            Some(q) => n as i128 > q as i128 + delta as i128,
            None => false,
        };
        if n < self.load_back_threshold || over {
            proof {
                hi_laws::law_lock_then_unlock(st, ancestor);
            }
            self.dec_lock_ref(ancestor);
            return None;
        }
        proof {
            lemma_lock_plain(st, ancestor);
            assert forall|j: int| 0 <= j < nodes@.len() implies mid.nodes[(#[trigger] nodes@[j]) as int].host_ref < u32::MAX by {
                assert(nodes@[j] < st.nodes.len());
                assert(mid.nodes[nodes@[j] as int].host_ref == st.nodes[nodes@[j] as int].host_ref);
            }
        }
        self.hold_all(&nodes);
        proof {
            assert forall|k: int| 0 <= k < nodes@.len() implies #[trigger] self@.plan_link(ancestor, nodes@, k) by {
                assert(chain_link(st, ancestor, nodes@, k));
                assert(self@.nodes[nodes@[k] as int].value == mid.nodes[nodes@[k] as int].value);
            }
        }
        Some(LoadBackPlan { ancestor, last_node, nodes, host_indices })
    }

    /// Second phase of a load back. Takes the lock on the ancestor and the
    /// host protections off; with a device run, the chain takes its parts as
    /// device runs and `last_node` is locked for good. Returns the change of
    /// the evictable size that this lock makes, 0 without a run.
    pub fn finish_load_back(&mut self, plan: &LoadBackPlan, device_indices: Option<&[i64]>) -> (r: i64)
        requires
            old(self).wf(),
            old(self)@.unlockable(plan.ancestor),
            old(self)@.plan_ok(plan.ancestor, plan.nodes@),
            plan.last_node == plan.nodes@.last(),
            device_indices matches Some(d) ==> {
                let st = old(self)@.after_unlock(plan.ancestor).host_held(plan.nodes@, -1);
                &&& d@.len() == chains::tokens(old(self)@.shape, plan.nodes@, plan.nodes@.len() as int)
                &&& old(self)@.size() + d@.len() <= i64::MAX
                &&& old(self)@.size() + d@.len() <= usize::MAX
                &&& st.loaded(plan.nodes@, d@).lockable(plan.last_node)
            },
        ensures
            final(self).wf(),
            final(self)@ == old(self)@.after_finish_load(
                plan.ancestor,
                plan.nodes@,
                match device_indices {
                    Some(d) => Some(d@),
                    None => None,
                },
            ),
            match device_indices {
                None => r == 0,
                Some(d) => r == final(self)@.count(HiCounter::Evictable) - old(self)@.after_unlock(
                    plan.ancestor,
                ).host_held(plan.nodes@, -1).loaded(plan.nodes@, d@).count(HiCounter::Evictable),
            },
            r <= 0,
    {
        let ghost st = self@;
        self.dec_lock_ref(plan.ancestor);
        proof {
            lemma_unlock_plain(st, plan.ancestor);
            let mid = self@;
            assert forall|k: int| 0 <= k < plan.nodes@.len() implies #[trigger] mid.plan_link(plan.ancestor, plan.nodes@, k) by {
                assert(st.plan_link(plan.ancestor, plan.nodes@, k));
                assert(st.nodes[plan.nodes@[k] as int].host_ref == mid.nodes[plan.nodes@[k] as int].host_ref);
            }
        }
        let ghost mid = self@;
        self.release_all(plan);
        match device_indices {
            None => 0,
            Some(d) => {
                proof {
                    let ids = plan.nodes@;
                    assert forall|k: int| 0 <= k < ids.len() implies #[trigger] chain_link(self@, plan.ancestor, ids, k) by {
                        assert(mid.plan_link(plan.ancestor, ids, k));
                        assert(self@.nodes[ids[k] as int].value == mid.nodes[ids[k] as int].value);
                    }
                    assert(self@.nodes[plan.ancestor as int].value == mid.nodes[plan.ancestor as int].value);
                }
                self.load_all(plan, d);
                self.inc_lock_ref(plan.last_node)
            },
        }
    }

    /// Gives a load back up: takes the lock on the ancestor and the host
    /// protections off.
    pub fn abort_load_back(&mut self, plan: &LoadBackPlan)
        requires
            old(self).wf(),
            old(self)@.unlockable(plan.ancestor),
            old(self)@.plan_ok(plan.ancestor, plan.nodes@),
        ensures
            final(self).wf(),
            final(self)@ == old(self)@.after_finish_load(plan.ancestor, plan.nodes@, None),
    {
        let ghost st = self@;
        self.dec_lock_ref(plan.ancestor);
        proof {
            lemma_unlock_plain(st, plan.ancestor);
            let mid = self@;
            assert forall|k: int| 0 <= k < plan.nodes@.len() implies #[trigger] mid.plan_link(plan.ancestor, plan.nodes@, k) by {
                assert(st.plan_link(plan.ancestor, plan.nodes@, k));
                assert(st.nodes[plan.nodes@[k] as int].host_ref == mid.nodes[plan.nodes@[k] as int].host_ref);
            }
        }
        self.release_all(plan);
    }

    /// Deletes the whole subtree below `root`, `root` included, and hands
    /// its runs out, each node's after its parent's. Refused, with the tree
    /// unchanged, when any of its nodes holds a host reference.
    pub fn drop_subtree_no_host(&mut self, root: NodeId) -> (r: DropSubtreeResult)
        requires
            old(self).wf(),
            0 < root < old(self)@.nodes.len(),
            old(self)@.shape.nodes[root as int].attached,
        ensures
            final(self).wf(),
            final(self)@ == (if old(self)@.droppable(root) {
                old(self)@.after_drop(root)
            } else {
                old(self)@
            }),
            !old(self)@.droppable(root) ==> r.free_host@.len() == 0 && r.free_device@.len() == 0,
            old(self)@.droppable(root) ==> exists|ids: Seq<NodeId>|
                {
                    &&& #[trigger] old(self)@.lists_subtree(root, ids)
                    &&& runs_of(r.free_host@) == old(self)@.host_runs(ids)
                    &&& runs_of(r.free_device@) == old(self)@.device_runs(ids)
                },
            r.freed_device == tree_model::run_total(runs_of(r.free_device@)),
    {
        let ghost st = self@;
        let mut res = DropSubtreeResult::default();
        proof {
            assert(runs_of(res.free_host@) =~= Seq::<Seq<i64>>::empty());
            assert(runs_of(res.free_device@) =~= Seq::<Seq<i64>>::empty());
        }
        let ids = self.subtree(root);
        let mut k: usize = 0;
        while k < ids.len()
            invariant
                self.wf(),
                st == self@,
                k <= ids@.len(),
                st.lists_subtree(root, ids@),
                runs_of(res.free_host@) == Seq::<Seq<i64>>::empty(),
                runs_of(res.free_device@) == Seq::<Seq<i64>>::empty(),
                res.freed_device == 0,
                forall|j: int| 0 <= j < k ==> st.nodes[(#[trigger] ids@[j]) as int].host_ref == 0,
            decreases ids@.len() - k,
        {
            let id = ids[k];
            proof {
                assert(ids@.contains(id));
                assert(st.below(root, id));
                assert(st.nodes[id as int] == self.nodes@[id as int]@);
            }
            if self.nodes[id as usize].host_ref > 0 {
                assert(!st.droppable(root));
                assert(res.free_host@.len() == runs_of(res.free_host@).len());
                assert(res.free_device@.len() == runs_of(res.free_device@).len());
                return res;
            }
            k += 1;
        }
        proof {
            assert forall|d: NodeId| #[trigger] st.below(root, d) implies st.nodes[d as int].host_ref == 0 by {
                assert(ids@.contains(d));
                let j = ids@.index_of(d);
                assert(ids@[j] == d);
            }
        }
        proof {
            assert forall|j: int| 0 <= j < ids@.len() implies 0 < (#[trigger] ids@[j]) < st.nodes.len() by {
                assert(ids@.contains(ids@[j]));
                assert(st.below(root, ids@[j]));
            }
        }
        self.collect_runs(&ids, &mut res);
        self.erase_all(root, &ids);
        proof {
            let t = st.after_drop(root);
            assert(self@.nodes =~= t.nodes);
            assert(self@.shape.nodes =~= t.shape.nodes);
            assert(self@ =~= t);
        }
        res
    }

    // ---- locks ----

    /// Locks `node` and every node above it, the root left out. Returns the
    /// change of the evictable size (<= 0).
    pub fn inc_lock_ref(&mut self, node: NodeId) -> (r: i64)
        requires
            old(self).wf(),
            old(self)@.lockable(node),
        ensures
            final(self).wf(),
            final(self)@ == old(self)@.after_lock(node),
            final(self)@.size() == old(self)@.size(),
            r == final(self)@.count(HiCounter::Evictable) - old(self)@.count(HiCounter::Evictable),
            r <= 0,
    {
        let ghost st = self@;
        if self.disable {
            return 0;
        }
        let ids = self.trunk.topo.up(node);
        let before = self.evictable_size;
        let mut k: usize = 0;
        proof {
            hi_model::lemma_up_live(st, node);
            assert(ids@.take(0) =~= Seq::<NodeId>::empty());
            assert(self@ =~= st.locked(ids@.take(0)));
        }
        while k < ids.len()
            invariant
                self.wf(),
                st.wf(),
                k <= ids@.len(),
                ids@.no_duplicates(),
                before == st.count(HiCounter::Evictable),
                self@ == st.locked(ids@.take(k as int)),
                self@.size() == st.size(),
                self.evictable_size <= before,
                forall|j: int| 0 <= j < ids@.len() ==> {
                    let x = #[trigger] ids@[j];
                    0 < x && st.live(x) && st.nodes[x as int].lock < u32::MAX
                },
            decreases ids@.len() - k,
        {
            let id = ids[k];
            proof {
                assert(st.live(ids@[k as int]));
                hi_model::lemma_locked_step(st, ids@, k as int);
                assert(self@.nodes[id as int] == self.nodes@[id as int]@);
            }
            let lock_ref = self.nodes[id as usize].lock_ref;
            self.set_lock(id, lock_ref + 1);
            k += 1;
        }
        proof {
            assert(ids@.take(ids@.len() as int) =~= ids@);
            hi_model::law_sizes_add_up(self@);
            hi_model::law_sizes_add_up(st);
            assert(self@.count(HiCounter::Evictable) >= 0);
            assert(st.count(HiCounter::Evictable) <= i64::MAX);
        }
        self.evictable_size - before
    }

    /// Takes one lock off `node` and every node above it, the root left out.
    /// Returns the change of the evictable size (>= 0).
    pub fn dec_lock_ref(&mut self, node: NodeId) -> (r: i64)
        requires
            old(self).wf(),
            old(self)@.unlockable(node),
        ensures
            final(self).wf(),
            final(self)@ == old(self)@.after_unlock(node),
            final(self)@.size() == old(self)@.size(),
            r == final(self)@.count(HiCounter::Evictable) - old(self)@.count(HiCounter::Evictable),
            r >= 0,
    {
        let ghost st = self@;
        if self.disable {
            return 0;
        }
        let ids = self.trunk.topo.up(node);
        let before = self.evictable_size;
        let mut k: usize = 0;
        proof {
            hi_model::lemma_up_live(st, node);
            assert(ids@.take(0) =~= Seq::<NodeId>::empty());
            assert(self@ =~= st.unlocked(ids@.take(0)));
        }
        while k < ids.len()
            invariant
                self.wf(),
                st.wf(),
                k <= ids@.len(),
                ids@.no_duplicates(),
                before == st.count(HiCounter::Evictable),
                self@ == st.unlocked(ids@.take(k as int)),
                self@.size() == st.size(),
                self.evictable_size >= before,
                forall|j: int| 0 <= j < ids@.len() ==> {
                    let x = #[trigger] ids@[j];
                    0 < x && st.live(x) && st.nodes[x as int].lock > 0
                },
            decreases ids@.len() - k,
        {
            let id = ids[k];
            proof {
                assert(st.live(ids@[k as int]));
                hi_model::lemma_locked_step(st, ids@, k as int);
                assert(self@.nodes[id as int] == self.nodes@[id as int]@);
            }
            let lock_ref = self.nodes[id as usize].lock_ref;
            self.set_lock(id, lock_ref - 1);
            k += 1;
        }
        proof {
            assert(ids@.take(ids@.len() as int) =~= ids@);
            hi_model::law_sizes_add_up(self@);
            hi_model::law_sizes_add_up(st);
            assert(self@.count(HiCounter::Evictable) <= i64::MAX);
            assert(st.count(HiCounter::Evictable) >= 0);
        }
        self.evictable_size - before
    }

    // ---- internals ----

    /// The walk of a key from `start`: all nodes visited get one time, a
    /// node matched in part is split.
    fn visit(&mut self, start: NodeId, key: &RadixKey, flat: &[i64]) -> (r: Visit)
        requires
            old(self).wf(),
            old(self)@.roomy(),
            start < old(self)@.nodes.len(),
            old(self)@.shape.nodes[start as int].attached,
            start != ROOT ==> old(self)@.shape.nodes[start as int].ns == old(self)@.frame().ns_of(*key),
            flat@ == old(self)@.frame().flat(*key),
        ensures
            final(self).wf(),
            ({
                let f = old(self)@.frame();
                let w = f.walk_at(start, *key);
                let p = query::end_from(start, r.visited@);
                let s = final(self)@.shape;
                let rest = flat@.skip(w.used as int).take(s.chunk() as int);
                &&& (final(self)@, r.visited@, r.splits@) == old(self)@.after_walk(start, w, f.names_with(*key))
                &&& r.ns == f.ns_of(*key)
                &&& r.ns < final(self)@.names.len()
                &&& r.used == w.used
                &&& old(self)@.clock < final(self)@.clock <= old(self)@.clock + 2
                &&& final(self)@.nodes.len() <= old(self)@.nodes.len() + 1
                &&& final(self)@.size() == old(self)@.size()
                &&& final(self)@.host_size() == old(self)@.host_size()
                &&& s.page == old(self)@.shape.page
                &&& s.unit == old(self)@.shape.unit
                &&& s.has(p)
                &&& s.nodes[p as int].attached
                &&& p != ROOT ==> s.nodes[p as int].ns == r.ns
                &&& r.used < flat@.len() && f.fits(*key) ==> s.child_of(p, r.ns, rest) is None
                &&& r.visited@.no_duplicates()
                &&& forall|j: int|
                    0 <= j < r.visited@.len() ==> 0 < (#[trigger] r.visited@[j]) < final(self)@.nodes.len()
            }),
    {
        let ghost st = self@;
        let ghost f = st.frame();
        let ghost w = f.walk_at(start, *key);
        let (ns, path) = self.enter(start, key, flat);
        let now = self.tick();
        let ghost base = self@;
        let ghost rest = flat@.skip(w.used as int).take(st.shape.chunk() as int);
        let used = path.used;
        let mut visited = path.chain;
        let ghost chain = visited@;
        let ghost ids = seq![start] + chain;
        proof {
            query::lemma_query_at(f, start, *key);
            assert(base == (HiState { names: f.names_with(*key), clock: now, ..st }));
        }
        self.stamp_path(start, &visited, now);
        let mut splits: Vec<(NodeId, NodeId)> = Vec::new();
        assert(splits@ =~= Seq::<(NodeId, NodeId)>::empty());
        if let Some((c, m)) = path.stop {
            proof {
                let t = ids.push(c);
                assert(t.drop_last() =~= ids);
                assert(t.last() == c);
            }
            self.stamp(c, now);
            let ghost before = self@;
            let front = self.split_node(c, m);
            proof {
                assert forall|j: int| 0 <= j < chain.len() implies (#[trigger] chain[j]) < front by {
                }
                if w.used < flat@.len() && f.fits(*key) {
                    tree_model::lemma_front_children(before.shape, c, m as int, ns, rest);
                }
            }
            visited.push(front);
            splits.push((front, c));
            assert(splits@ =~= seq![(front, c)]);
        }
        Visit { visited, splits, ns, used }
    }

    /// Marks a visit of `start` and the nodes `chain`.
    fn stamp_path(&mut self, start: NodeId, chain: &Vec<NodeId>, now: u64)
        requires
            old(self).wf(),
            start < old(self)@.nodes.len(),
            forall|j: int| 0 <= j < chain@.len() ==> (#[trigger] chain@[j]) < old(self)@.nodes.len(),
        ensures
            final(self).wf(),
            final(self)@ == old(self)@.stamped(seq![start] + chain@, now),
            hi_model::same_holdings(old(self)@, final(self)@),
            final(self)@ == (HiState { nodes: final(self)@.nodes, ..old(self)@ }),
            final(self)@.size() == old(self)@.size(),
            final(self)@.host_size() == old(self)@.host_size(),
    {
        let ghost base = self@;
        let ghost ids = seq![start] + chain@;
        proof {
            assert(ids.take(1).drop_last() =~= Seq::<NodeId>::empty());
            assert(base.stamped(ids.take(1).drop_last(), now) == base);
            assert(ids.take(1).last() == start);
        }
        self.stamp(start, now);
        let mut k: usize = 0;
        while k < chain.len()
            invariant
                self.wf(),
                k <= chain@.len(),
                ids == seq![start] + chain@,
                forall|j: int| 0 <= j < chain@.len() ==> (#[trigger] chain@[j]) < base.nodes.len(),
                self@ == base.stamped(ids.take(k + 1), now),
                hi_model::same_holdings(base, self@),
                self@ == (HiState { nodes: self@.nodes, ..base }),
                self@.size() == base.size(),
                self@.host_size() == base.host_size(),
            decreases chain@.len() - k,
        {
            let c = chain[k];
            proof {
                let t = ids.take(k + 2);
                assert(t.drop_last() =~= ids.take(k + 1));
                assert(t.last() == c);
            }
            self.stamp(c, now);
            k += 1;
        }
        assert(ids.take(ids.len() as int) =~= ids);
    }

    /// The device runs of the nodes `visited`.
    fn gather(&self, visited: &Vec<NodeId>) -> (r: Vec<i64>)
        requires
            self.wf(),
            forall|j: int| 0 <= j < visited@.len() ==> (#[trigger] visited@[j]) < self@.nodes.len(),
        ensures
            r@ == self@.gathered(visited@),
    {
        let mut indices: Vec<i64> = Vec::new();
        let mut j: usize = 0;
        assert(visited@.take(0) =~= Seq::<NodeId>::empty());
        while j < visited.len()
            invariant
                self.wf(),
                j <= visited@.len(),
                forall|j: int| 0 <= j < visited@.len() ==> (#[trigger] visited@[j]) < self@.nodes.len(),
                indices@ == self@.gathered(visited@.take(j as int)),
            decreases visited@.len() - j,
        {
            let c = visited[j];
            proof {
                let t = visited@.take(j + 1);
                assert(t.drop_last() =~= visited@.take(j as int));
                assert(t.last() == c);
                assert(self@.nodes[c as int] == self.nodes@[c as int]@);
                assert(indices@ + Seq::<i64>::empty() =~= indices@);
            }
            if let Some(v) = &self.nodes[c as usize].value {
                append_run(&mut indices, v.as_slice());
            }
            j += 1;
        }
        assert(visited@.take(visited@.len() as int) =~= visited@);
        indices
    }

    /// The last live node of `visited`, and the host tokens behind it.
    fn device_end(&self, visited: &Vec<NodeId>) -> (r: (NodeId, usize))
        requires
            self.wf(),
            visited@.no_duplicates(),
            forall|j: int| 0 <= j < visited@.len() ==> 0 < (#[trigger] visited@[j]) < self@.nodes.len(),
        ensures
            self@.device_end(visited@) == (r.0, r.1 as int),
    {
        let ghost st = self@;
        let ghost f = |i: int| st.weight(HiCounter::Host, i);
        let mut k: usize = 0;
        let mut node: NodeId = ROOT;
        let mut n: usize = 0;
        proof {
            hi_model::law_sizes_add_up(st);
            assert forall|i: int| 0 <= i < st.nodes.len() implies #[trigger] f(i) >= 0 by {
                assert(st.weight(HiCounter::Host, i) >= 0);
            }
            assert(visited@.take(0) =~= Seq::<NodeId>::empty());
        }
        while k < visited.len()
            invariant
                self.wf(),
                st == self@,
                f == (|i: int| st.weight(HiCounter::Host, i)),
                k <= visited@.len(),
                visited@.no_duplicates(),
                forall|j: int| 0 <= j < visited@.len() ==> 0 < (#[trigger] visited@[j]) < st.nodes.len(),
                forall|i: int| 0 <= i < st.nodes.len() ==> #[trigger] f(i) >= 0,
                st.device_end(visited@.take(k as int)) == (node, n as int),
                n <= chains::picked(f, visited@, k as int),
                st.host_size() == seqs::total(f, st.nodes.len()),
                st.host_size() <= usize::MAX,
            decreases visited@.len() - k,
        {
            let c = visited[k];
            proof {
                let t = visited@.take(k + 1);
                assert(t.drop_last() =~= visited@.take(k as int));
                assert(t.last() == c);
                assert(st.nodes[c as int] == self.nodes@[c as int]@);
                assert(st.node_ok(c as int));
                chains::lemma_picked(f, visited@, k + 1, st.nodes.len());
                chains::lemma_picked(f, visited@, k as int, st.nodes.len());
                assert(f(c as int) >= 0);
            }
            if !self.nodes[c as usize].evicted() {
                node = c;
                n = 0;
            } else if let Some(h) = &self.nodes[c as usize].host_value {
                n = n + h.len();
            }
            k += 1;
        }
        assert(visited@.take(visited@.len() as int) =~= visited@);
        (node, n)
    }

    /// The last backed-up node of `visited`.
    fn host_end(&self, visited: &Vec<NodeId>) -> (r: NodeId)
        requires
            self.wf(),
            forall|j: int| 0 <= j < visited@.len() ==> (#[trigger] visited@[j]) < self@.nodes.len(),
        ensures
            r == self@.host_end(visited@),
    {
        let mut k: usize = 0;
        let mut node: NodeId = ROOT;
        assert(visited@.take(0) =~= Seq::<NodeId>::empty());
        while k < visited.len()
            invariant
                self.wf(),
                k <= visited@.len(),
                forall|j: int| 0 <= j < visited@.len() ==> (#[trigger] visited@[j]) < self@.nodes.len(),
                node == self@.host_end(visited@.take(k as int)),
            decreases visited@.len() - k,
        {
            let c = visited[k];
            proof {
                let t = visited@.take(k + 1);
                assert(t.drop_last() =~= visited@.take(k as int));
                assert(t.last() == c);
                assert(self@.nodes[c as int] == self.nodes@[c as int]@);
            }
            if self.nodes[c as usize].backuped() {
                node = c;
            }
            k += 1;
        }
        assert(visited@.take(visited@.len() as int) =~= visited@);
        node
    }

    /// An insert visits `id` at `now`.
    fn raise(&mut self, id: NodeId, now: u64, priority: i32)
        requires
            old(self).wf(),
            id < old(self)@.nodes.len(),
        ensures
            final(self).wf(),
            final(self)@ == old(self)@.raised(id, now, priority),
            final(self)@.size() == old(self)@.size(),
    {
        let ghost st = self@;
        assert(st.nodes[id as int] == self.nodes@[id as int]@);
        let p = self.nodes[id as usize].priority;
        self.nodes[id as usize].last_access = now;
        self.nodes[id as usize].priority = if p >= priority {
            p
        } else {
            priority
        };
        proof {
            let t = st.raised(id, now, priority);
            assert(self@.nodes =~= t.nodes);
            assert(self@ =~= t);
            self.lemma_plain(st);
        }
    }

    /// An insert hits `id`; puts it on `out` if its backup is now due.
    fn hit(&mut self, id: NodeId, chunked: bool, out: &mut Vec<NodeId>)
        requires
            old(self).wf(),
            id < old(self)@.nodes.len(),
            old(self)@.nodes[id as int].hits < old(self)@.clock,
        ensures
            final(self).wf(),
            final(self)@ == old(self)@.hit(id, chunked).0,
            final(out)@ == old(out)@ + old(self)@.hit(id, chunked).1,
            final(self)@.size() == old(self)@.size(),
    {
        let ghost st = self@;
        let ghost before = out@;
        let ghost t = st.hit(id, chunked).0;
        assert(before + Seq::<NodeId>::empty() =~= before);
        if self.policy == HiPolicy::WriteBack || chunked {
            return;
        }
        assert(st.nodes[id as int] == self.nodes@[id as int]@);
        let hits = self.nodes[id as usize].hit_count + 1;
        self.nodes[id as usize].hit_count = hits;
        proof {
            assert(self@.nodes =~= t.nodes);
            assert(self@ =~= t);
            self.lemma_plain(st);
        }
        if !self.nodes[id as usize].backuped() && hits >= self.write_through_threshold {
            out.push(id);
            assert(out@ =~= before + seq![id]);
        }
    }

    /// An insert comes to `id` with its part of the value; returns the
    /// tokens that were there already.
    fn meet(&mut self, id: NodeId, run: Vec<i64>, chunked: bool, out: &mut Vec<NodeId>) -> (n: usize)
        requires
            old(self).wf(),
            0 < id < old(self)@.nodes.len(),
            old(self)@.shape.nodes[id as int].attached,
            old(self)@.nodes[old(self)@.shape.nodes[id as int].parent as int].value is Some,
            run@.len() == old(self)@.shape.units(id as int),
            old(self)@.nodes[id as int].hits < old(self)@.clock,
            old(self)@.size() + run@.len() <= i64::MAX,
            old(self)@.size() + run@.len() <= usize::MAX,
        ensures
            final(self).wf(),
            ({
                let (st, due, k) = old(self)@.met(id, run@, chunked);
                &&& final(self)@ == st
                &&& final(out)@ == old(out)@ + due
                &&& n == k
            }),
            final(self)@.size() <= old(self)@.size() + run@.len(),
            final(self)@.live(id),
    {
        let ghost before = out@;
        assert(self@.nodes[id as int] == self.nodes@[id as int]@);
        assert(before + Seq::<NodeId>::empty() =~= before);
        if self.nodes[id as usize].evicted() {
            self.attach(id, run);
            0
        } else {
            let n = run.len();
            self.hit(id, chunked, out);
            n
        }
    }

    /// The walk of an insert; returns the namespace id, the flattened
    /// elements it passed and the result so far.
    fn insert_walk(
        &mut self,
        key: &RadixKey,
        flat: &[i64],
        value: &[i64],
        priority: i32,
        chunked: bool,
    ) -> (r: (u32, usize, HiInsertResult))
        requires
            old(self).wf(),
            old(self)@.roomy(),
            flat@ == old(self)@.frame().flat(*key),
            old(self)@.frame().fits(*key),
            value@.len() == old(self)@.frame().units(*key),
            old(self)@.size() + value@.len() <= i64::MAX,
            old(self)@.size() + value@.len() <= usize::MAX,
        ensures
            final(self).wf(),
            ({
                let f = old(self)@.frame();
                let (t, res) = old(self)@.after_insert_walk(*key, value@, priority, chunked);
                let s = t.shape;
                let p = r.2.last_node;
                &&& final(self)@ == t
                &&& inserted(r.2) == res
                &&& r.0 == f.ns_of(*key)
                &&& r.0 < t.names.len()
                &&& r.1 == f.walk(*key).used
                &&& old(self)@.clock < t.clock <= old(self)@.clock + 2
                &&& t.nodes.len() <= old(self)@.nodes.len() + 1
                &&& t.size() <= old(self)@.size() + f.prefix_len(*key)
                &&& s.page == old(self)@.shape.page
                &&& s.unit == old(self)@.shape.unit
                &&& s.has(p)
                &&& s.nodes[p as int].attached
                &&& t.live(p)
                &&& p != ROOT ==> s.nodes[p as int].ns == r.0
                &&& r.1 < flat@.len() ==> s.child_of(p, r.0, flat@.skip(r.1 as int).take(s.chunk() as int)) is None
            }),
    {
        let ghost st = self@;
        let ghost f = st.frame();
        let ghost w = f.walk(*key);
        let ghost rest = flat@.skip(w.used as int).take(st.shape.chunk() as int);
        let (ns, path) = self.enter(ROOT, key, flat);
        let now = self.tick();
        let ghost base = self@;
        proof {
            query::lemma_query(f, *key);
            chains::lemma_key_tokens(f, *key);
            assert(base == (HiState { names: f.names_with(*key), clock: now, ..st }));
            assert forall|j: int| 0 <= j < w.chain.len() implies #[trigger] follows(base, w.chain, j) by {
                assert(st.nodes[w.chain[j] as int].hits <= st.clock);
            }
        }
        let mut res = HiInsertResult::default();
        let (total, n) = self.meet_chain(&path.chain, value, now, priority, chunked, &mut res.backup_needed);
        let ghost cur = self@;
        res.last_node = path.end();
        res.prefix_len = n;
        let used = path.used;
        match path.stop {
            Some((c, m)) => {
                proof {
                    assert(w.chain.take(w.chain.len() as int) =~= w.chain);
                    assert(cur.nodes[c as int] == base.nodes[c as int]);
                    assert(st.nodes[c as int].hits <= st.clock);
                    if res.last_node != ROOT {
                        assert(cur.live(w.chain[w.chain.len() - 1]));
                    }
                }
                let front = self.meet_front(c, m, total, value, now, priority, chunked, &mut res);
                proof {
                    if w.used < flat@.len() {
                        tree_model::lemma_front_children(cur.shape, c, m as int, ns, rest);
                    }
                }
                res.last_node = front;
                res.splits.push((front, c));
                assert(res.splits@ =~= seq![(front, c)]);
            },
            None => {
                proof {
                    if res.last_node != ROOT {
                        assert(cur.live(w.chain[w.chain.len() - 1]));
                    }
                }
            },
        }
        (ns, used, res)
    }

    /// An insert cuts the node matched in part and comes to its front.
    fn meet_front(
        &mut self,
        c: NodeId,
        m: usize,
        total: usize,
        value: &[i64],
        now: u64,
        priority: i32,
        chunked: bool,
        res: &mut HiInsertResult,
    ) -> (front: NodeId)
        requires
            old(self).wf(),
            0 < c < old(self)@.nodes.len() < NodeId::MAX,
            old(self)@.shape.nodes[c as int].attached,
            old(self)@.nodes[old(self)@.shape.nodes[c as int].parent as int].value is Some,
            0 < m < old(self)@.shape.nodes[c as int].key.len(),
            old(self)@.shape.aligned(m as int),
            old(self)@.clock < u64::MAX,
            old(self)@.nodes[c as int].hits < old(self)@.clock,
            total + m as int / old(self)@.shape.unit as int <= value@.len(),
            old(res).prefix_len <= total,
            old(self)@.size() + m as int / old(self)@.shape.unit as int <= i64::MAX,
            old(self)@.size() + m as int / old(self)@.shape.unit as int <= usize::MAX,
        ensures
            final(self).wf(),
            front == old(self)@.nodes.len(),
            ({
                let u = m as int / old(self)@.shape.unit as int;
                let run = value@.subrange(total as int, total + u);
                let (st, due, n) = old(self)@.raised(c, now, priority).cut(c, m as int).met(front, run, chunked);
                &&& final(self)@ == st
                &&& final(res).backup_needed@ == old(res).backup_needed@ + due
                &&& final(res).prefix_len == old(res).prefix_len + n
                &&& final(res).splits == old(res).splits
                &&& final(self)@.size() <= old(self)@.size() + u
                &&& final(self)@.live(front)
                &&& final(self)@.shape == old(self)@.shape.split(c, m as int)
            }),
    {
        let ghost st = self@;
        let len = m / self.trunk.topo.unit_size();
        assert(total + len <= value.len());
        self.raise(c, now, priority);
        let ghost lifted = self@;
        proof {
            hi_model::lemma_cut(lifted, c, m as int);
            topo::lemma_path_grows(st.shape, c);
        }
        let front = self.split_node(c, m);
        let run = copy_range(value, total, total + len);
        let more = self.meet(front, run, chunked, &mut res.backup_needed);
        res.prefix_len = res.prefix_len + more;
        front
    }

    /// An insert comes past the nodes of its chain; returns their tokens,
    /// and those that were there already.
    fn meet_chain(
        &mut self,
        chain: &Vec<NodeId>,
        value: &[i64],
        now: u64,
        priority: i32,
        chunked: bool,
        out: &mut Vec<NodeId>,
    ) -> (r: (usize, usize))
        requires
            old(self).wf(),
            chain@.no_duplicates(),
            forall|j: int| 0 <= j < chain@.len() ==> #[trigger] follows(old(self)@, chain@, j),
            chains::tokens(old(self)@.shape, chain@, chain@.len() as int) <= value@.len(),
            old(self)@.size() + value@.len() <= i64::MAX,
            old(self)@.size() + value@.len() <= usize::MAX,
            old(out)@.len() == 0,
        ensures
            final(self).wf(),
            ({
                let (st, due, n) = old(self)@.met_all(chain@, chain@.len(), value@, now, priority, chunked);
                &&& final(self)@ == st
                &&& final(out)@ == due
                &&& r.1 == n
            }),
            r.0 == chains::tokens(old(self)@.shape, chain@, chain@.len() as int),
            0 <= r.1 <= r.0,
            final(self)@.size() <= old(self)@.size() + r.0,
            met_rest(old(self)@, final(self)@, chain@, chain@.len() as int),
    {
        let ghost base = self@;
        let mut total: usize = 0;
        let mut n: usize = 0;
        let mut k: usize = 0;
        proof {
            assert(chain@.take(0) =~= Seq::<NodeId>::empty());
            assert(out@ =~= Seq::<NodeId>::empty());
            assert forall|j: int| 0 <= j < chain@.len() implies base.shape.units((#[trigger] chain@[j]) as int) >= 0 by {
                assert(follows(base, chain@, j));
                chains::lemma_units(base.shape, chain@[j] as int);
            }
        }
        while k < chain.len()
            invariant
                self.wf(),
                base.wf(),
                chain@.no_duplicates(),
                k <= chain@.len(),
                forall|j: int| 0 <= j < chain@.len() ==> #[trigger] follows(base, chain@, j),
                forall|j: int| 0 <= j < chain@.len() ==> base.shape.units((#[trigger] chain@[j]) as int) >= 0,
                chains::tokens(base.shape, chain@, chain@.len() as int) <= value@.len(),
                base.size() + value@.len() <= i64::MAX,
                base.size() + value@.len() <= usize::MAX,
                (self@, out@, n as int) == base.met_all(chain@, k as nat, value@, now, priority, chunked),
                total == chains::tokens(base.shape, chain@, k as int),
                n <= total,
                self@.size() <= base.size() + total,
                met_rest(base, self@, chain@, k as int),
            decreases chain@.len() - k,
        {
            let c = chain[k];
            let ghost cur = self@;
            proof {
                chains::lemma_not_before(chain@, k as int);
                chains::lemma_tokens_le(base.shape, chain@, k + 1, chain@.len() as int);
                chains::lemma_tokens_le(base.shape, chain@, k as int, k + 1);
                assert(follows(base, chain@, k as int));
                assert(cur.nodes[c as int] == base.nodes[c as int]);
                if k > 0 {
                    assert(cur.live(chain@[k - 1]));
                }
            }
            let len = self.trunk.topo.units(c);
            assert(total + len <= value.len());
            let run = copy_range(value, total, total + len);
            self.raise(c, now, priority);
            let more = self.meet(c, run, chunked, out);
            proof {
                lemma_met_rest(base, cur, self@, chain@, k as int);
            }
            n = n + more;
            total = total + len;
            k += 1;
        }
        (total, n)
    }

    /// Deletes an evictable leaf without a host copy and without children,
    /// and hands its device run out.
    fn evict_regular(&mut self, node: NodeId) -> (device: Vec<i64>)
        requires
            old(self).wf(),
            old(self)@.leaf(node),
            old(self)@.shape.is_leaf(node),
        ensures
            final(self).wf(),
            final(self)@ == old(self)@.erased(node),
            device@ == old(self)@.nodes[node as int].value->0,
    {
        proof {
            assert(self@.node_ok(node as int));
            assert(self@.nodes[node as int] == self.nodes@[node as int]@);
        }
        let device = match &self.nodes[node as usize].value {
            Some(v) => copy_range(v.as_slice(), 0, v.len()),
            None => Vec::new(),
        };
        self.erase(node);
        device
    }

    /// The one of `ids` that is evicted first.
    fn first_of(&self, ids: &Vec<NodeId>) -> (r: Option<NodeId>)
        requires
            self.wf(),
            ids@.no_duplicates(),
            forall|id: NodeId| #[trigger] ids@.contains(id) ==> id < self@.nodes.len(),
        ensures
            r == self@.victim(ids@.to_set()),
            r matches Some(x) ==> ids@.contains(x),
            r is None ==> ids@.len() == 0,
    {
        let ghost st = self@;
        let ghost set = ids@.to_set();
        let mut queue = self.ranked(ids);
        match queue.pop() {
            Some(item) => {
                proof {
                    let x = item.id;
                    let all = queue@.insert(item);
                    assert(set.contains(x));
                    assert forall|y: NodeId| #[trigger] set.contains(y) && y != x implies st.item(x).before(st.item(y)) by {
                        assert(ids@.contains(y));
                        assert(all.contains(st.item(y)));
                    }
                    assert(st.first(x, set));
                    let v = choose|x: NodeId| st.first(x, set);
                    assert(st.first(v, set));
                    if v != x {
                        assert(st.item(x).before(st.item(v)));
                        assert(st.item(v).before(st.item(x)));
                    }
                }
                Some(item.id)
            },
            None => {
                proof {
                    if ids@.len() > 0 {
                        assert(ids@.contains(ids@[0]));
                        assert(queue@.contains(st.item(ids@[0])));
                    }
                    assert forall|x: NodeId| !st.first(x, set) by {
                        if set.contains(x) {
                            assert(ids@.contains(x));
                        }
                    }
                }
                None
            },
        }
    }

    /// Sets the pending mark of `id`.
    fn set_pending(&mut self, id: NodeId, pending: bool)
        requires
            old(self).wf(),
            id < old(self)@.nodes.len(),
        ensures
            final(self).wf(),
            final(self)@ == old(self)@.patched(id, HiNodeState { pending, ..old(self)@.nodes[id as int] }),
    {
        let ghost st = self@;
        self.nodes[id as usize].backup_pending = pending;
        proof {
            let t = st.patched(id, HiNodeState { pending, ..st.nodes[id as int] });
            assert(self@.nodes =~= t.nodes);
            assert(self@ =~= t);
            self.lemma_plain(st);
        }
    }

    /// Sets the host reference count of `id`, with the host leaf set that
    /// follows.
    fn set_host_ref(&mut self, id: NodeId, host_ref: u32)
        requires
            old(self).wf(),
            id < old(self)@.nodes.len(),
        ensures
            final(self).wf(),
            final(self)@ == old(self)@.patched(id, HiNodeState { host_ref, ..old(self)@.nodes[id as int] }),
            final(self)@.size() == old(self)@.size(),
    {
        let ghost st = self@;
        self.nodes[id as usize].host_ref = host_ref;
        proof {
            let t = st.patched(id, HiNodeState { host_ref, ..st.nodes[id as int] });
            assert(self@.nodes =~= t.nodes);
            assert(self@ =~= t);
            hi_model::lemma_host_ref(st, id, host_ref);
        }
        if self.trunk.topo.attached(id) {
            self.update_host_leaf_status(id);
        }
    }

    /// The evicted nodes from `last` upwards, topmost first, and the live
    /// node above them.
    fn evicted_chain(&self, last: NodeId) -> (r: (Vec<NodeId>, NodeId))
        requires
            self.wf(),
            self@.demoted(last),
        ensures
            r.0@ == self@.load_chain(last),
            r.1 == self@.load_ancestor(last),
            self@.live(r.1),
            r.0@.len() > 0,
            r.0@.last() == last,
            r.0@.no_duplicates(),
            forall|k: int| 0 <= k < r.0@.len() ==> #[trigger] chain_link(self@, r.1, r.0@, k),
    {
        let ghost st = self@;
        let up = self.trunk.topo.up(last);
        proof {
            topo::lemma_up(st.shape, last);
        }
        let mut n: usize = 0;
        assert(up@.skip(0) =~= up@);
        while n < up.len() && self.nodes[up[n] as usize].evicted()
            invariant
                self.wf(),
                st == self@,
                n <= up@.len(),
                forall|k: int| 0 <= k < up@.len() ==> 0 < (#[trigger] up@[k]) < st.nodes.len(),
                forall|k: int| 0 <= k < n ==> st.nodes[(#[trigger] up@[k]) as int].value is None,
                st.demoted_run(up@) == up@.take(n as int) + st.demoted_run(up@.skip(n as int)),
            decreases up@.len() - n,
        {
            proof {
                let rest = up@.skip(n as int);
                assert(st.nodes[up@[n as int] as int] == self.nodes@[up@[n as int] as int]@);
                assert(rest[0] == up@[n as int]);
                assert(rest.drop_first() =~= up@.skip(n + 1));
                assert(up@.take(n as int) + (seq![up@[n as int]] + st.demoted_run(up@.skip(n + 1))) =~= up@.take(n + 1)
                    + st.demoted_run(up@.skip(n + 1)));
            }
            n += 1;
        }
        let ghost run = up@.take(n as int);
        proof {
            let rest = up@.skip(n as int);
            if n < up@.len() {
                assert(rest[0] == up@[n as int]);
                assert(st.nodes[up@[n as int] as int] == self.nodes@[up@[n as int] as int]@);
            }
            assert(st.demoted_run(rest) =~= Seq::<NodeId>::empty());
            assert(st.demoted_run(up@) =~= run);
            assert(n > 0) by {
                assert(st.nodes[last as int] == self.nodes@[last as int]@);
            }
        }
        let ancestor = if n < up.len() {
            up[n]
        } else {
            ROOT
        };
        let mut nodes: Vec<NodeId> = Vec::new();
        let mut k: usize = n;
        while k > 0
            invariant
                n <= up@.len(),
                k <= n,
                run == up@.take(n as int),
                nodes@ == up@.subrange(k as int, n as int).reverse(),
            decreases k,
        {
            k -= 1;
            nodes.push(up[k]);
            assert(nodes@ =~= up@.subrange(k as int, n as int).reverse());
        }
        proof {
            assert(up@.subrange(0, n as int) =~= run);
            assert forall|k: int| 0 <= k < nodes@.len() implies #[trigger] chain_link(st, ancestor, nodes@, k) by {
                assert(nodes@[k] == up@[n - 1 - k]);
                if k > 0 {
                    assert(nodes@[k - 1] == up@[n - k]);
                }
                lemma_up_attached(st, last, n - 1 - k);
            }
            assert forall|a: int, b: int| 0 <= a < nodes@.len() && 0 <= b < nodes@.len() && a != b implies nodes@[a]
                != nodes@[b] by {
                assert(nodes@[a] == up@[n - 1 - a]);
                assert(nodes@[b] == up@[n - 1 - b]);
            }
            assert(nodes@.last() == up@[0]);
        }
        (nodes, ancestor)
    }

    /// The host runs of the nodes `ids`.
    fn gather_host(&self, ids: &Vec<NodeId>) -> (r: Vec<i64>)
        requires
            self.wf(),
            forall|j: int| 0 <= j < ids@.len() ==> (#[trigger] ids@[j]) < self@.nodes.len(),
        ensures
            r@ == self@.host_gathered(ids@),
    {
        let mut indices: Vec<i64> = Vec::new();
        let mut j: usize = 0;
        assert(ids@.take(0) =~= Seq::<NodeId>::empty());
        while j < ids.len()
            invariant
                self.wf(),
                j <= ids@.len(),
                forall|j: int| 0 <= j < ids@.len() ==> (#[trigger] ids@[j]) < self@.nodes.len(),
                indices@ == self@.host_gathered(ids@.take(j as int)),
            decreases ids@.len() - j,
        {
            let c = ids[j];
            proof {
                let t = ids@.take(j + 1);
                assert(t.drop_last() =~= ids@.take(j as int));
                assert(t.last() == c);
                assert(self@.nodes[c as int] == self.nodes@[c as int]@);
                assert(indices@ + Seq::<i64>::empty() =~= indices@);
            }
            if let Some(v) = &self.nodes[c as usize].host_value {
                append_run(&mut indices, v.as_slice());
            }
            j += 1;
        }
        assert(ids@.take(ids@.len() as int) =~= ids@);
        indices
    }

    /// Takes one more host reference on each of `ids`.
    fn hold_all(&mut self, ids: &Vec<NodeId>)
        requires
            old(self).wf(),
            ids@.no_duplicates(),
            forall|j: int| 0 <= j < ids@.len() ==> (#[trigger] ids@[j]) < old(self)@.nodes.len(),
            forall|j: int| 0 <= j < ids@.len() ==> old(self)@.nodes[(#[trigger] ids@[j]) as int].host_ref < u32::MAX,
        ensures
            final(self).wf(),
            final(self)@ == old(self)@.host_held(ids@, 1),
            hi_model::same_runs(old(self)@, final(self)@),
            forall|j: int| 0 <= j < ids@.len() ==> final(self)@.nodes[(#[trigger] ids@[j]) as int].host_ref > 0,
    {
        let ghost st = self@;
        let mut k: usize = 0;
        assert(ids@.take(0) =~= Seq::<NodeId>::empty());
        while k < ids.len()
            invariant
                self.wf(),
                k <= ids@.len(),
                ids@.no_duplicates(),
                forall|j: int| 0 <= j < ids@.len() ==> (#[trigger] ids@[j]) < st.nodes.len(),
                forall|j: int| 0 <= j < ids@.len() ==> st.nodes[(#[trigger] ids@[j]) as int].host_ref < u32::MAX,
                forall|j: int| 0 <= j < k ==> self@.nodes[(#[trigger] ids@[j]) as int].host_ref > 0,
                forall|j: int| k <= j < ids@.len() ==> self@.nodes[(#[trigger] ids@[j]) as int] == st.nodes[ids@[j] as int],
                self@ == st.host_held(ids@.take(k as int), 1),
                hi_model::same_runs(st, self@),
            decreases ids@.len() - k,
        {
            let x = ids[k];
            proof {
                let t = ids@.take(k + 1);
                assert(t.drop_last() =~= ids@.take(k as int));
                assert(t.last() == x);
                assert(self@.nodes[x as int] == st.nodes[x as int]);
            }
            self.protect_host(x);
            k += 1;
        }
        assert(ids@.take(ids@.len() as int) =~= ids@);
    }

    /// Gives the host references of a load back up.
    fn release_all(&mut self, plan: &LoadBackPlan)
        requires
            old(self).wf(),
            old(self)@.plan_ok(plan.ancestor, plan.nodes@),
        ensures
            final(self).wf(),
            final(self)@ == old(self)@.host_held(plan.nodes@, -1),
            hi_model::same_runs(old(self)@, final(self)@),
            final(self)@.size() == old(self)@.size(),
    {
        let ghost st = self@;
        let ghost ids = plan.nodes@;
        let mut k: usize = 0;
        assert(ids.take(0) =~= Seq::<NodeId>::empty());
        while k < plan.nodes.len()
            invariant
                self.wf(),
                st.wf(),
                k <= ids.len(),
                ids == plan.nodes@,
                st.plan_ok(plan.ancestor, ids),
                forall|j: int| k <= j < ids.len() ==> self@.nodes[(#[trigger] ids[j]) as int] == st.nodes[ids[j] as int],
                self@ == st.host_held(ids.take(k as int), -1),
                hi_model::same_runs(st, self@),
                self@.size() == st.size(),
            decreases ids.len() - k,
        {
            let x = plan.nodes[k];
            proof {
                let t = ids.take(k + 1);
                assert(t.drop_last() =~= ids.take(k as int));
                assert(t.last() == x);
                assert(st.plan_link(plan.ancestor, ids, k as int));
                assert(self@.nodes[ids[k as int] as int] == st.nodes[x as int]);
                assert(self@.nodes[x as int] == self.nodes@[x as int]@);
            }
            let n = self.nodes[x as usize].host_ref;
            let ghost cur = self@;
            self.set_host_ref(x, n - 1);
            proof {
                assert forall|j: int| k < j < ids.len() implies self@.nodes[(#[trigger] ids[j]) as int] == st.nodes[ids[j] as int] by {
                    assert(st.plan_link(plan.ancestor, ids, j));
                    assert(ids[j] != ids[k as int]);
                    assert(cur.nodes[ids[j] as int] == st.nodes[ids[j] as int]);
                }
            }
            k += 1;
        }
        assert(ids.take(ids.len() as int) =~= ids);
    }

    /// The nodes of a load back take their parts of `run` as device runs.
    fn load_all(&mut self, plan: &LoadBackPlan, run: &[i64])
        requires
            old(self).wf(),
            old(self)@.live(plan.ancestor),
            plan.nodes@.no_duplicates(),
            forall|k: int| 0 <= k < plan.nodes@.len() ==> #[trigger] chain_link(
                old(self)@,
                plan.ancestor,
                plan.nodes@,
                k,
            ),
            run@.len() == chains::tokens(old(self)@.shape, plan.nodes@, plan.nodes@.len() as int),
            old(self)@.size() + run@.len() <= i64::MAX,
            old(self)@.size() + run@.len() <= usize::MAX,
        ensures
            final(self).wf(),
            final(self)@ == old(self)@.loaded(plan.nodes@, run@),
    {
        let ghost st = self@;
        let ghost ids = plan.nodes@;
        let mut k: usize = 0;
        let mut at: usize = 0;
        proof {
            assert(ids.take(0) =~= Seq::<NodeId>::empty());
            assert forall|j: int| 0 <= j < ids.len() implies st.shape.units((#[trigger] ids[j]) as int) >= 0 by {
                assert(chain_link(st, plan.ancestor, ids, j));
                chains::lemma_units(st.shape, ids[j] as int);
            }
        }
        while k < plan.nodes.len()
            invariant
                self.wf(),
                st.wf(),
                k <= ids.len(),
                ids == plan.nodes@,
                ids.no_duplicates(),
                st.live(plan.ancestor),
                forall|j: int| 0 <= j < ids.len() ==> #[trigger] chain_link(st, plan.ancestor, ids, j),
                forall|j: int| 0 <= j < ids.len() ==> st.shape.units((#[trigger] ids[j]) as int) >= 0,
                run@.len() == chains::tokens(st.shape, ids, ids.len() as int),
                st.size() + run@.len() <= i64::MAX,
                st.size() + run@.len() <= usize::MAX,
                at == chains::tokens(st.shape, ids, k as int),
                self@ == st.loaded(ids.take(k as int), run@),
                self@ == (HiState { nodes: self@.nodes, ..st }),
                self@.nodes.len() == st.nodes.len(),
                self@.size() == st.size() + at,
                self@.live(plan.ancestor),
                forall|j: int| 0 <= j < k ==> self@.live(#[trigger] ids[j]),
                forall|j: int| k <= j < ids.len() ==> self@.nodes[(#[trigger] ids[j]) as int] == st.nodes[ids[j] as int],
            decreases ids.len() - k,
        {
            let x = plan.nodes[k];
            let ghost cur = self@;
            proof {
                let t = ids.take(k + 1);
                assert(t.drop_last() =~= ids.take(k as int));
                assert(t.last() == x);
                assert(chain_link(st, plan.ancestor, ids, k as int));
                assert(cur.nodes[ids[k as int] as int] == st.nodes[x as int]);
                if k > 0 {
                    assert(cur.live(ids[k - 1]));
                }
                chains::lemma_tokens_le(st.shape, ids, k + 1, ids.len() as int);
                chains::lemma_tokens_le(st.shape, ids, 0, k as int);
                lemma_tokens_take(st.shape, ids, k as int);
            }
            let len = self.trunk.topo.units(x);
            assert(at + len <= run.len());
            let part = copy_range(run, at, at + len);
            self.attach(x, part);
            proof {
                assert forall|j: int| k < j < ids.len() implies self@.nodes[(#[trigger] ids[j]) as int] == st.nodes[ids[j] as int] by {
                    assert(chain_link(st, plan.ancestor, ids, j));
                    assert(ids[j] != ids[k as int]);
                    assert(cur.nodes[ids[j] as int] == st.nodes[ids[j] as int]);
                }
                assert forall|j: int| 0 <= j < k + 1 implies self@.live(#[trigger] ids[j]) by {
                    if j < k {
                        assert(cur.live(ids[j]));
                    }
                }
            }
            at = at + len;
            k += 1;
        }
        assert(ids.take(ids.len() as int) =~= ids);
    }

    /// The subtree below `top`, each node after its parent.
    fn subtree(&self, top: NodeId) -> (ids: Vec<NodeId>)
        requires
            self.wf(),
            0 < top < self@.nodes.len(),
            self@.shape.nodes[top as int].attached,
        ensures
            self@.lists_subtree(top, ids@),
    {
        let ghost st = self@;
        let mut ids: Vec<NodeId> = Vec::new();
        ids.push(top);
        let mut k: usize = 0;
        proof {
            topo::lemma_up(st.shape, top);
            assert(st.shape.up(top)[0] == top);
        }
        while k < ids.len()
            invariant
                self.wf(),
                st == self@,
                k <= ids@.len(),
                listed(st, top, ids@, k as int),
                ids@.len() <= st.nodes.len(),
            decreases st.nodes.len() - k,
        {
            let x = ids[k];
            let ghost before = ids@;
            proof {
                assert(st.below(top, ids@[k as int]));
            }
            let children = self.trunk.topo.children(x);
            let mut i: usize = 0;
            assert(before + children@.take(0) =~= before);
            while i < children.len()
                invariant
                    self.wf(),
                    st == self@,
                    i <= children@.len(),
                    listed(st, top, before, k as int),
                    k < before.len(),
                    x == before[k as int],
                    children@.no_duplicates(),
                    forall|c: NodeId| #[trigger] children@.contains(c) <==> st.shape.is_child(x, c),
                    ids@ == before + children@.take(i as int),
                decreases children@.len() - i,
            {
                let c = children[i];
                ids.push(c);
                proof {
                    assert(children@.take(i + 1) =~= children@.take(i as int).push(c));
                    assert(ids@ =~= before + children@.take(i + 1));
                }
                i += 1;
            }
            proof {
                assert(children@.take(children@.len() as int) =~= children@);
                lemma_listed_step(st, top, before, k as int, children@);
                chains::lemma_ids_bound(ids@, st.nodes.len());
            }
            k += 1;
        }
        proof {
            lemma_listed_all(st, top, ids@);
        }
        ids
    }

    /// Puts the runs of the nodes `ids` on the result.
    fn collect_runs(&self, ids: &Vec<NodeId>, res: &mut DropSubtreeResult)
        requires
            self.wf(),
            ids@.no_duplicates(),
            forall|j: int| 0 <= j < ids@.len() ==> 0 < (#[trigger] ids@[j]) < self@.nodes.len(),
            runs_of(old(res).free_host@) == Seq::<Seq<i64>>::empty(),
            runs_of(old(res).free_device@) == Seq::<Seq<i64>>::empty(),
            old(res).freed_device == 0,
        ensures
            runs_of(final(res).free_host@) == self@.host_runs(ids@),
            runs_of(final(res).free_device@) == self@.device_runs(ids@),
            final(res).freed_device == tree_model::run_total(runs_of(final(res).free_device@)),
    {
        let ghost st = self@;
        let ghost f = |i: int| st.held(i);
        let mut k: usize = 0;
        proof {
            assert(ids@.take(0) =~= Seq::<NodeId>::empty());
            hi_model::law_sizes_add_up(st);
            assert forall|i: int| 0 <= i < st.nodes.len() implies #[trigger] f(i) >= 0 by {
                assert(st.held(i) >= 0);
            }
        }
        while k < ids.len()
            invariant
                self.wf(),
                st == self@,
                f == (|i: int| st.held(i)),
                k <= ids@.len(),
                ids@.no_duplicates(),
                forall|j: int| 0 <= j < ids@.len() ==> 0 < (#[trigger] ids@[j]) < st.nodes.len(),
                forall|i: int| 0 <= i < st.nodes.len() ==> #[trigger] f(i) >= 0,
                st.size() == seqs::total(f, st.nodes.len()),
                st.size() <= i64::MAX,
                runs_of(res.free_host@) == st.host_runs(ids@.take(k as int)),
                runs_of(res.free_device@) == st.device_runs(ids@.take(k as int)),
                res.freed_device == tree_model::run_total(runs_of(res.free_device@)),
                res.freed_device == chains::picked(f, ids@, k as int),
            decreases ids@.len() - k,
        {
            let id = ids[k];
            proof {
                let t = ids@.take(k + 1);
                assert(t.drop_last() =~= ids@.take(k as int));
                assert(t.last() == id);
                assert(st.nodes[id as int] == self.nodes@[id as int]@);
                assert(st.node_ok(id as int));
                chains::lemma_picked(f, ids@, k + 1, st.nodes.len());
                chains::lemma_picked(f, ids@, k as int, st.nodes.len());
                assert(f(id as int) == st.held(id as int));
            }
            if let Some(v) = &self.nodes[id as usize].host_value {
                let run = copy_range(v.as_slice(), 0, v.len());
                proof {
                    assert(run@ =~= v@);
                    tree::lemma_push_run(res.free_host@, run);
                }
                res.free_host.push(run);
            }
            if let Some(v) = &self.nodes[id as usize].value {
                let run = copy_range(v.as_slice(), 0, v.len());
                proof {
                    assert(run@ =~= v@);
                    tree::lemma_push_run(res.free_device@, run);
                    tree_model::lemma_run_total_push(runs_of(res.free_device@), run@);
                }
                res.freed_device = res.freed_device + run.len() as i64;
                res.free_device.push(run);
            }
            k += 1;
        }
        assert(ids@.take(ids@.len() as int) =~= ids@);
    }

    /// Deletes the nodes `ids` of a subtree, children first.
    fn erase_all(&mut self, top: NodeId, ids: &Vec<NodeId>)
        requires
            old(self).wf(),
            old(self)@.lists_subtree(top, ids@),
        ensures
            final(self).wf(),
            final(self)@ == old(self)@.without(ids@),
    {
        let ghost st = self@;
        let mut k: usize = ids.len();
        proof {
            assert(ids@.skip(k as int) =~= Seq::<NodeId>::empty());
            assert(self@.nodes =~= st.without(ids@.skip(k as int)).nodes);
            assert(self@.shape.nodes =~= st.without(ids@.skip(k as int)).shape.nodes);
            assert(self@ =~= st.without(ids@.skip(k as int)));
        }
        while k > 0
            invariant
                self.wf(),
                st.wf(),
                k <= ids@.len(),
                st.lists_subtree(top, ids@),
                self@ == st.without(ids@.skip(k as int)),
            decreases k,
        {
            let x = ids[k - 1];
            let ghost cur = self@;
            proof {
                lemma_last_is_leaf(st, top, ids@, k as int);
                assert(ids@.contains(x));
                assert(st.below(top, x));
            }
            self.set_pending(x, false);
            self.erase(x);
            proof {
                let gone = ids@.skip(k as int);
                let next = ids@.skip(k - 1);
                assert(next =~= seq![x] + gone);
                assert forall|y: NodeId| #[trigger] next.contains(y) == (y == x || gone.contains(y)) by {
                    lemma_front_contains(x, gone, y);
                }
                assert(self@.nodes =~= st.without(next).nodes);
                assert(self@.shape.nodes =~= st.without(next).shape.nodes);
                assert(self@ =~= st.without(next));
            }
            k -= 1;
        }
        assert(ids@.skip(0) =~= ids@);
    }

    /// Whether no child of `node` is live.
    fn no_live_child(&self, node: NodeId) -> (r: bool)
        requires
            self.sound(),
            node < self@.nodes.len(),
        ensures
            r == self@.no_live_child(node),
    {
        let children = self.trunk.topo.children(node);
        let mut k: usize = 0;
        while k < children.len()
            invariant
                self.sound(),
                k <= children@.len(),
                forall|c: NodeId| #[trigger] children@.contains(c) <==> self@.shape.is_child(node, c),
                forall|j: int| 0 <= j < k ==> self@.nodes[(#[trigger] children@[j]) as int].value is None,
            decreases children@.len() - k,
        {
            let c = children[k];
            proof {
                assert(children@.contains(c));
                assert(self@.shape.is_child(node, c));
                assert(self@.nodes[c as int] == self.nodes@[c as int]@);
            }
            if !self.nodes[c as usize].evicted() {
                return false;
            }
            k += 1;
        }
        proof {
            assert forall|c: NodeId| #[trigger] self@.shape.is_child(node, c) implies self@.nodes[c as int].value is None by {
                assert(children@.contains(c));
                let j = children@.index_of(c);
                assert(children@[j] == c);
            }
        }
        true
    }

    /// Whether no child of `node` is backed up.
    fn no_host_child(&self, node: NodeId) -> (r: bool)
        requires
            self.sound(),
            node < self@.nodes.len(),
        ensures
            r == self@.no_host_child(node),
    {
        let children = self.trunk.topo.children(node);
        let mut k: usize = 0;
        while k < children.len()
            invariant
                self.sound(),
                k <= children@.len(),
                forall|c: NodeId| #[trigger] children@.contains(c) <==> self@.shape.is_child(node, c),
                forall|j: int| 0 <= j < k ==> self@.nodes[(#[trigger] children@[j]) as int].host is None,
            decreases children@.len() - k,
        {
            let c = children[k];
            proof {
                assert(children@.contains(c));
                assert(self@.shape.is_child(node, c));
                assert(self@.nodes[c as int] == self.nodes@[c as int]@);
            }
            if self.nodes[c as usize].backuped() {
                return false;
            }
            k += 1;
        }
        proof {
            assert forall|c: NodeId| #[trigger] self@.shape.is_child(node, c) implies self@.nodes[c as int].host is None by {
                assert(children@.contains(c));
                let j = children@.index_of(c);
                assert(children@[j] == c);
            }
        }
        true
    }

    /// Puts `node` into the device leaf set or takes it out, as it is.
    fn update_leaf_status(&mut self, node: NodeId)
        requires
            old(self).sound(),
            node < old(self)@.nodes.len(),
        ensures
            final(self).sound(),
            *final(self) == (HiRadixTree { evictable_leaves: final(self).evictable_leaves, ..*old(self) }),
            final(self)@ == old(self)@,
            final(self).evictable_leaves@ == (if old(self)@.leaf(node) {
                old(self).evictable_leaves@.insert(node)
            } else {
                old(self).evictable_leaves@.remove(node)
            }),
    {
        assert(self@.nodes[node as int] == self.nodes@[node as int]@);
        if node == ROOT || self.nodes[node as usize].evicted() || self.nodes[node as usize].lock_ref > 0
            || !self.no_live_child(node) {
            self.evictable_leaves.remove(&node);
        } else {
            self.evictable_leaves.insert(node);
        }
    }

    /// Puts a node of the tree into the host leaf set or takes it out, as
    /// it is.
    fn update_host_leaf_status(&mut self, node: NodeId)
        requires
            old(self).sound(),
            node < old(self)@.nodes.len(),
            old(self)@.shape.nodes[node as int].attached,
        ensures
            final(self).sound(),
            *final(self) == (HiRadixTree {
                evictable_host_leaves: final(self).evictable_host_leaves,
                ..*old(self)
            }),
            final(self)@ == old(self)@,
            final(self).evictable_host_leaves@ == (if old(self)@.host_leaf(node) {
                old(self).evictable_host_leaves@.insert(node)
            } else {
                old(self).evictable_host_leaves@.remove(node)
            }),
    {
        assert(self@.nodes[node as int] == self.nodes@[node as int]@);
        if node == ROOT || !self.nodes[node as usize].evicted() || self.nodes[node as usize].lock_ref > 0
            || self.nodes[node as usize].host_ref > 0 || !self.no_host_child(node) {
            self.evictable_host_leaves.remove(&node);
        } else {
            self.evictable_host_leaves.insert(node);
        }
    }

    /// Sets the lock count of one live node, with the counters and the leaf
    /// sets that follow.
    fn set_lock(&mut self, id: NodeId, lock_ref: u32)
        requires
            old(self).wf(),
            0 < id,
            old(self)@.live(id),
        ensures
            final(self).wf(),
            final(self)@ == old(self)@.patched(
                id,
                HiNodeState { lock: lock_ref, ..old(self)@.nodes[id as int] },
            ),
            final(self)@.size() == old(self)@.size(),
            lock_ref > 0 ==> final(self).evictable_size <= old(self).evictable_size,
            old(self)@.nodes[id as int].lock > 0 ==> final(self).evictable_size >= old(self).evictable_size,
    {
        let ghost st = self@;
        let ghost t = st.patched(id, HiNodeState { lock: lock_ref, ..st.nodes[id as int] });
        proof {
            hi_model::lemma_lock(st, id, lock_ref);
            hi_model::law_sizes_add_up(st);
            hi_model::law_sizes_add_up(t);
            chains::lemma_units(st.shape, id as int);
            assert(st.nodes[id as int] == self.nodes@[id as int]@);
            assert(0 <= st.count(HiCounter::Evictable) <= i64::MAX);
            assert(0 <= t.count(HiCounter::Evictable) <= i64::MAX);
            assert(0 <= st.count(HiCounter::Protected) <= i64::MAX);
            assert(0 <= t.count(HiCounter::Protected) <= i64::MAX);
            assert(st.held(id as int) <= st.size());
        }
        let l = self.trunk.topo.units(id) as i64;
        let was = self.nodes[id as usize].lock_ref;
        self.nodes[id as usize].lock_ref = lock_ref;
        if was == 0 && lock_ref > 0 {
            self.evictable_size = self.evictable_size - l;
            self.protected_size = self.protected_size + l;
        } else if was > 0 && lock_ref == 0 {
            self.evictable_size = self.evictable_size + l;
            self.protected_size = self.protected_size - l;
        }
        proof {
            assert(self@.nodes =~= t.nodes);
            assert(self@ =~= t);
        }
        self.update_leaf_status(id);
    }

    /// Gives the demoted node `id` a device run.
    fn attach(&mut self, id: NodeId, run: Vec<i64>)
        requires
            old(self).wf(),
            old(self)@.demoted(id),
            old(self)@.nodes[old(self)@.shape.nodes[id as int].parent as int].value is Some,
            run@.len() == old(self)@.shape.units(id as int),
            old(self)@.size() + run@.len() <= i64::MAX,
            old(self)@.size() + run@.len() <= usize::MAX,
        ensures
            final(self).wf(),
            final(self)@ == old(self)@.attached(id, run@),
            final(self)@.size() == old(self)@.size() + run@.len(),
    {
        let ghost st = self@;
        let ghost t = st.attached(id, run@);
        proof {
            hi_model::lemma_attached(st, id, run@);
            hi_model::law_sizes_add_up(st);
            assert(st.count(HiCounter::Protected) >= 0);
            topo::lemma_path_grows(st.shape, id);
            assert(st.node_ok(id as int));
        }
        let n = run.len() as i64;
        let parent = match self.trunk.topo.parent(id) {
            Some(p) => p,
            None => ROOT,
        };
        self.nodes[id as usize].value = Some(run);
        self.evictable_size = self.evictable_size + n;
        proof {
            assert(self@.nodes =~= t.nodes);
            assert(self@ =~= t);
        }
        self.update_leaf_status(id);
        self.update_host_leaf_status(id);
        self.update_leaf_status(parent);
    }

    /// Deletes the childless node `id` from the tree.
    fn erase(&mut self, id: NodeId)
        requires
            old(self).wf(),
            0 < id < old(self)@.nodes.len(),
            old(self)@.shape.nodes[id as int].attached,
            old(self)@.shape.is_leaf(id),
        ensures
            final(self).wf(),
            final(self)@ == old(self)@.erased(id),
    {
        let ghost st = self@;
        let ghost t = st.erased(id);
        proof {
            hi_model::lemma_erased(st, id);
            hi_model::law_sizes_add_up(st);
            topo::lemma_path_grows(st.shape, id);
            assert(st.node_ok(id as int));
            assert(st.nodes[id as int] == self.nodes@[id as int]@);
            assert(st.weight(HiCounter::Evictable, id as int) <= st.count(HiCounter::Evictable));
            assert(st.weight(HiCounter::Protected, id as int) <= st.count(HiCounter::Protected));
            assert(0 <= st.weight(HiCounter::Evictable, id as int));
            assert(0 <= st.weight(HiCounter::Protected, id as int));
            assert(st.held(id as int) <= st.size());
        }
        let parent = match self.trunk.topo.parent(id) {
            Some(p) => p,
            None => ROOT,
        };
        let l = self.trunk.topo.units(id);
        let live = !self.nodes[id as usize].evicted();
        let locked = self.nodes[id as usize].lock_ref > 0;
        self.trunk.topo.prune(id);
        self.nodes[id as usize].value = None;
        self.nodes[id as usize].host_value = None;
        if live && locked {
            self.protected_size = self.protected_size - l as i64;
        } else if live {
            self.evictable_size = self.evictable_size - l as i64;
        }
        self.evictable_leaves.remove(&id);
        self.evictable_host_leaves.remove(&id);
        proof {
            assert(self@.nodes =~= t.nodes);
            assert(self@ =~= t);
            assert(t.shape.nodes[parent as int] == st.shape.nodes[parent as int]);
        }
        self.update_leaf_status(parent);
        self.update_host_leaf_status(parent);
    }

    /// The next clock tick.
    fn tick(&mut self) -> (now: u64)
        requires
            old(self).wf(),
            old(self)@.clock < u64::MAX,
        ensures
            final(self).wf(),
            now == old(self)@.clock + 1,
            final(self)@ == old(self)@.ticked(),
            final(self)@.size() == old(self)@.size(),
            final(self)@.host_size() == old(self)@.host_size(),
    {
        let ghost st = self@;
        self.clock = self.clock + 1;
        proof {
            assert forall|i: int| 0 <= i < self@.nodes.len() implies (#[trigger] self@.nodes[i]).hits <= self@.clock by {
                assert(st.nodes[i].hits <= st.clock);
            }
            hi_model::lemma_same_holdings(st, self@);
        }
        self.clock
    }

    /// Marks a visit of `id`.
    fn stamp(&mut self, id: NodeId, now: u64)
        requires
            old(self).wf(),
            id < old(self)@.nodes.len(),
        ensures
            final(self).wf(),
            final(self)@ == old(self)@.patched(
                id,
                HiNodeState { access: now, ..old(self)@.nodes[id as int] },
            ),
            hi_model::same_holdings(old(self)@, final(self)@),
            final(self)@.size() == old(self)@.size(),
            final(self)@.host_size() == old(self)@.host_size(),
    {
        let ghost st = self@;
        self.nodes[id as usize].last_access = now;
        proof {
            let t = st.patched(id, HiNodeState { access: now, ..st.nodes[id as int] });
            assert(self@.nodes =~= t.nodes);
            assert(self@ =~= t);
            self.lemma_plain(st);
        }
    }

    /// A change of plain fields alone leaves the tree well-formed.
    proof fn lemma_plain(&self, st: HiState)
        requires
            self.sound(),
            st.wf(),
            hi_model::same_holdings(st, self@),
            self@.names == st.names,
            self@.clock == st.clock,
            forall|i: int| 0 <= i < st.nodes.len() ==> (#[trigger] self@.nodes[i]).hits <= st.clock,
            self.evictable_size == st.count(HiCounter::Evictable),
            self.protected_size == st.count(HiCounter::Protected),
            forall|id: NodeId| #[trigger] self.evictable_leaves@.contains(id) == st.leaf(id),
            forall|id: NodeId| #[trigger] self.evictable_host_leaves@.contains(id) == st.host_leaf(id),
        ensures
            self.wf(),
            self@.size() == st.size(),
            self@.host_size() == st.host_size(),
    {
        hi_model::lemma_same_holdings(st, self@);
    }

    /// Interns the key's namespace and follows its flattened form from
    /// `start`.
    fn enter(&mut self, start: NodeId, key: &RadixKey, flat: &[i64]) -> (r: (u32, topo::WalkPath))
        requires
            old(self).wf(),
            start < old(self)@.nodes.len(),
            old(self)@.names.len() < u32::MAX,
            flat@ == old(self)@.frame().flat(*key),
        ensures
            final(self).wf(),
            final(self)@ == (HiState { names: old(self)@.frame().names_with(*key), ..old(self)@ }),
            r.0 == old(self)@.frame().ns_of(*key),
            r.0 < final(self)@.names.len(),
            r.1@ == old(self)@.frame().walk_at(start, *key),
            final(self)@.size() == old(self)@.size(),
            final(self)@.host_size() == old(self)@.host_size(),
    {
        let ghost st = self@;
        assert(st.frame() == self.trunk@);
        let r = self.trunk.enter_at(start, key, flat);
        proof {
            assert(self@ =~= (HiState { names: st.frame().names_with(*key), ..st }));
            hi_model::lemma_same_holdings(st, self@);
        }
        r
    }

    /// Cuts `child` after `m` flattened elements and returns the new front
    /// node, which inherits the child's priority, hits, locks and pending
    /// backup; `child` becomes the tail.
    fn split_node(&mut self, child: NodeId, m: usize) -> (new_id: NodeId)
        requires
            old(self).wf(),
            0 < child < old(self)@.nodes.len() < NodeId::MAX,
            old(self)@.shape.nodes[child as int].attached,
            0 < m < old(self)@.shape.nodes[child as int].key.len(),
            old(self)@.shape.aligned(m as int),
            old(self)@.clock < u64::MAX,
        ensures
            final(self).wf(),
            new_id == old(self)@.nodes.len(),
            final(self)@ == old(self)@.cut(child, m as int),
            final(self)@.size() == old(self)@.size(),
            final(self)@.host_size() == old(self)@.host_size(),
    {
        let ghost st = self@;
        let ghost t = st.cut(child, m as int);
        proof {
            hi_model::lemma_cut(st, child, m as int);
            assert(st.node_ok(child as int));
            assert(st.nodes[child as int] == self.nodes@[child as int]@);
        }
        let units = m / self.trunk.topo.unit_size();
        let new_id = self.trunk.topo.split(child, m);
        self.clock = self.clock + 1;
        let (value, tail_value) = split_opt(&self.nodes[child as usize].value, units);
        let (host_value, tail_host) = split_opt(&self.nodes[child as usize].host_value, units);
        let lock_ref = self.nodes[child as usize].lock_ref;
        let hit_count = self.nodes[child as usize].hit_count;
        let priority = self.nodes[child as usize].priority;
        let backup_pending = self.nodes[child as usize].backup_pending;
        let last_access = self.clock;
        self.nodes[child as usize].value = tail_value;
        self.nodes[child as usize].host_value = tail_host;
        self.nodes.push(
            HiRadixNode {
                value,
                host_value,
                lock_ref,
                host_ref: 0,
                hit_count,
                priority,
                last_access,
                backup_pending,
                id: new_id,
            },
        );
        proof {
            assert(self@.nodes =~= t.nodes);
            assert(self@ =~= t);
        }
        new_id
    }

    /// Adds the leaf `node` below `parent`.
    fn add_node(&mut self, parent: NodeId, ns: u32, key: Vec<i64>, node: HiRadixNode) -> (new_id: NodeId)
        requires
            old(self).wf(),
            old(self)@.shape.has(parent),
            old(self)@.shape.nodes[parent as int].attached,
            old(self)@.nodes.len() < NodeId::MAX,
            key@.len() > 0,
            old(self)@.shape.aligned(key@.len() as int),
            node.id == old(self)@.nodes.len(),
            node@.value is Some || node@.host is Some,
            node@.value is Some ==> node@.value->0.len() == key@.len() as int / old(self)@.shape.unit as int
                && old(self)@.nodes[parent as int].value is Some && old(self)@.size() + node@.value->0.len() <= i64::MAX
                && old(self)@.size() + node@.value->0.len() <= usize::MAX,
            node@.host is Some ==> node@.host->0.len() == key@.len() as int / old(self)@.shape.unit as int
                && old(self)@.host_size() + node@.host->0.len() <= i64::MAX && old(self)@.host_size()
                + node@.host->0.len() <= usize::MAX,
            node@.lock == 0,
            node@.hits == 0,
            parent != ROOT ==> old(self)@.shape.nodes[parent as int].ns == ns,
            ns < old(self)@.names.len(),
            old(self)@.shape.child_of(parent, ns, key@.take(old(self)@.shape.chunk() as int)) is None,
        ensures
            final(self).wf(),
            new_id == old(self)@.nodes.len(),
            final(self)@ == old(self)@.grown(parent, ns, key@, node@),
    {
        let ghost st = self@;
        let ghost t = st.grown(parent, ns, key@, node@);
        let ghost n = node@;
        proof {
            hi_model::lemma_grown(st, parent, ns, key@, n);
            hi_model::law_sizes_add_up(st);
            hi_model::law_sizes_add_up(t);
            assert(t.count(HiCounter::Evictable) <= i64::MAX);
            assert(t.count(HiCounter::Evictable) == st.count(HiCounter::Evictable) + t.weight(
                HiCounter::Evictable,
                st.nodes.len() as int,
            ));
            assert(t.count(HiCounter::Protected) == st.count(HiCounter::Protected) + t.weight(
                HiCounter::Protected,
                st.nodes.len() as int,
            ));
            assert(t.nodes[st.nodes.len() as int] == n);
        }
        let added: usize = match &node.value {
            Some(v) => v.len(),
            None => 0,
        };
        let new_id = self.trunk.topo.graft(parent, ns, key);
        self.nodes.push(node);
        self.evictable_size = self.evictable_size + added as i64;
        proof {
            assert(self@.nodes =~= t.nodes);
            assert(self@ =~= t);
        }
        self.update_leaf_status(parent);
        self.update_host_leaf_status(parent);
        self.update_leaf_status(new_id);
        self.update_host_leaf_status(new_id);
        new_id
    }
}

impl Default for HiRadixTree {
    fn default() -> (r: Self)
        ensures
            r.wf(),
            r@ == HiState::fresh(1, false, false, HiPolicy::WriteThrough, EvictionPolicy::Lru, 1, 10),
    {
        Self::new(1, false, HiPolicy::WriteThrough, EvictionPolicy::Lru, 1, 10)
    }
}

/// What the walk of a key leaves.
struct Visit {
    visited: Vec<NodeId>,
    splits: Vec<(NodeId, NodeId)>,
    ns: u32,
    used: usize,
}

/// The `j`th node of `chain` hangs below the one before it, the first below
/// the root, and can count one more hit.
pub open spec fn follows(st: HiState, chain: Seq<NodeId>, j: int) -> bool {
    &&& st.shape.is_child(if j == 0 { ROOT } else { chain[j - 1] }, chain[j])
    &&& st.nodes[chain[j] as int].hits < st.clock
}

/// The first `k` nodes of `chain` are live, and no other node has changed.
pub open spec fn met_rest(base: HiState, cur: HiState, chain: Seq<NodeId>, k: int) -> bool {
    &&& cur.shape == base.shape
    &&& cur.names == base.names
    &&& cur.clock == base.clock
    &&& cur.nodes.len() == base.nodes.len()
    &&& forall|i: int|
        0 <= i < base.nodes.len() && !chain.take(k).contains(i as NodeId) ==> (#[trigger] cur.nodes[i])
            == base.nodes[i]
    &&& forall|j: int| 0 <= j < k ==> cur.live(#[trigger] chain[j])
}

proof fn lemma_met_rest(base: HiState, cur: HiState, next: HiState, chain: Seq<NodeId>, k: int)
    requires
        met_rest(base, cur, chain, k),
        base.nodes.len() <= NodeId::MAX,
        chain.no_duplicates(),
        0 <= k < chain.len(),
        next.shape == cur.shape,
        next.names == cur.names,
        next.clock == cur.clock,
        next.nodes.len() == cur.nodes.len(),
        next.live(chain[k]),
        forall|i: int| 0 <= i < cur.nodes.len() && i != chain[k] ==> (#[trigger] next.nodes[i]) == cur.nodes[i],
    ensures
        met_rest(base, next, chain, k + 1),
{
    assert(chain.take(k + 1) =~= chain.take(k).push(chain[k]));
    assert forall|i: int| 0 <= i < base.nodes.len() && !chain.take(k + 1).contains(i as NodeId) implies (
    #[trigger] next.nodes[i]) == base.nodes[i] by {
        tree_model::lemma_push_contains(chain.take(k), chain[k], i as NodeId);
        assert(cur.nodes[i] == base.nodes[i]);
    }
    assert forall|j: int| 0 <= j < k + 1 implies next.live(#[trigger] chain[j]) by {
        if j < k {
            assert(cur.live(chain[j]));
        }
    }
}

/// A host leaf has no children.
proof fn lemma_host_leaf(st: HiState, x: NodeId)
    requires
        st.wf(),
        st.host_leaf(x),
    ensures
        st.shape.is_leaf(x),
{
    assert forall|c: NodeId| !(#[trigger] st.shape.is_child(x, c)) by {
        if st.shape.is_child(x, c) {
            assert(st.node_ok(c as int));
        }
    }
}

/// The `k`th of `ids` is demoted and hangs below the one before it, the first
/// below `ancestor`.
pub open spec fn chain_link(st: HiState, ancestor: NodeId, ids: Seq<NodeId>, k: int) -> bool {
    &&& st.demoted(ids[k])
    &&& st.shape.nodes[ids[k] as int].parent == (if k == 0 {
        ancestor
    } else {
        ids[k - 1]
    })
}

/// The nodes on the way up from a node of the tree are in the tree.
proof fn lemma_up_attached(st: HiState, id: NodeId, k: int)
    requires
        st.wf(),
        st.shape.has(id),
        st.shape.nodes[id as int].attached,
        0 <= k < st.shape.up(id).len(),
    ensures
        st.shape.nodes[st.shape.up(id)[k] as int].attached,
    decreases k,
{
    topo::lemma_up(st.shape, id);
    if k > 0 {
        lemma_up_attached(st, id, k - 1);
        assert(st.shape.up(id)[k - 1] > 0);
        assert(st.node_ok(st.shape.up(id)[k - 1] as int));
    }
}

/// The token count of the first nodes rests on these alone.
proof fn lemma_tokens_take(s: topo::Shape, ids: Seq<NodeId>, k: int)
    requires
        0 <= k < ids.len(),
    ensures
        chains::tokens(s, ids.take(k + 1), k) == chains::tokens(s, ids, k),
{
    lemma_tokens_same(s, ids.take(k + 1), ids, k);
}

proof fn lemma_tokens_same(s: topo::Shape, a: Seq<NodeId>, b: Seq<NodeId>, k: int)
    requires
        0 <= k <= a.len(),
        k <= b.len(),
        forall|j: int| 0 <= j < k ==> a[j] == b[j],
    ensures
        chains::tokens(s, a, k) == chains::tokens(s, b, k),
    decreases k,
{
    if k > 0 {
        lemma_tokens_same(s, a, b, k - 1);
    }
}

/// A lock changes nothing but lock counts.
proof fn lemma_lock_plain(st: HiState, node: NodeId)
    ensures
        ({
            let t = st.after_lock(node);
            &&& t == (HiState { nodes: t.nodes, ..st })
            &&& t.nodes.len() == st.nodes.len()
            &&& forall|i: int| 0 <= i < st.nodes.len() ==> (#[trigger] t.nodes[i]) == (HiNodeState {
                lock: t.nodes[i].lock,
                ..st.nodes[i]
            })
        }),
{
}

/// An unlock changes nothing but lock counts.
proof fn lemma_unlock_plain(st: HiState, node: NodeId)
    ensures
        ({
            let t = st.after_unlock(node);
            &&& t == (HiState { nodes: t.nodes, ..st })
            &&& t.nodes.len() == st.nodes.len()
            &&& forall|i: int| 0 <= i < st.nodes.len() ==> (#[trigger] t.nodes[i]) == (HiNodeState {
                lock: t.nodes[i].lock,
                ..st.nodes[i]
            })
        }),
{
}

/// The subtree below `top` is being listed: the children of the first `k`
/// nodes are in.
pub open spec fn listed(st: HiState, top: NodeId, ids: Seq<NodeId>, k: int) -> bool {
    &&& 0 < ids.len()
    &&& ids[0] == top
    &&& ids.no_duplicates()
    &&& forall|j: int| 0 <= j < ids.len() ==> st.below(top, #[trigger] ids[j])
    &&& forall|j: int, c: NodeId|
        #![trigger ids[j], st.shape.is_child(ids[j], c)]
        0 <= j < k && st.shape.is_child(ids[j], c) ==> ids.contains(c)
    &&& forall|j: int|
        #![trigger ids[j]]
        0 < j < ids.len() ==> {
            let p = st.shape.nodes[ids[j] as int].parent;
            ids.take(k).contains(p) && ids.take(j).contains(p)
        }
}

/// A child of a node of the subtree is in it.
proof fn lemma_below_child(st: HiState, top: NodeId, x: NodeId, c: NodeId)
    requires
        st.wf(),
        st.below(top, x),
        st.shape.is_child(x, c),
    ensures
        st.below(top, c),
        c != top,
{
    topo::lemma_path_grows(st.shape, c);
    topo::lemma_up(st.shape, x);
    let up = st.shape.up(x);
    assert(st.shape.up(c) == seq![c] + up);
    let k = up.index_of(top);
    assert(st.shape.up(c)[k + 1] == top);
    assert(st.shape.nodes[up[k] as int].path.len() <= st.shape.nodes[x as int].path.len());
}

proof fn lemma_listed_step(st: HiState, top: NodeId, ids: Seq<NodeId>, k: int, children: Seq<NodeId>)
    requires
        st.wf(),
        listed(st, top, ids, k),
        0 <= k < ids.len(),
        children.no_duplicates(),
        forall|c: NodeId| #[trigger] children.contains(c) <==> st.shape.is_child(ids[k], c),
    ensures
        listed(st, top, ids + children, k + 1),
{
    let all = ids + children;
    let x = ids[k];
    let n = ids.len() as int;
    assert(all.take(k + 1) =~= ids.take(k).push(x));
    assert(st.below(top, ids[k]));
    assert forall|i: int| 0 <= i < children.len() implies st.shape.is_child(x, #[trigger] children[i]) && !ids.contains(
        children[i],
    ) && st.below(top, children[i]) by {
        let c = children[i];
        assert(children.contains(c));
        lemma_below_child(st, top, x, c);
        if ids.contains(c) {
            let j = ids.index_of(c);
            assert(ids[j] == c);
            assert(j > 0);
            chains::lemma_not_before(ids, k);
            assert(ids.take(k).contains(x));
        }
    }
    assert forall|a: int, b: int| 0 <= a < all.len() && 0 <= b < all.len() && a != b implies all[a] != all[b] by {
        if a < n && b >= n {
            assert(all[b] == children[b - n]);
            assert(ids.contains(ids[a]));
        } else if b < n && a >= n {
            assert(all[a] == children[a - n]);
            assert(ids.contains(ids[b]));
        } else if a >= n && b >= n {
            assert(all[a] == children[a - n]);
            assert(all[b] == children[b - n]);
        }
    }
    assert forall|j: int| 0 <= j < all.len() implies st.below(top, #[trigger] all[j]) by {
        if j < n {
            assert(st.below(top, ids[j]));
        } else {
            assert(all[j] == children[j - n]);
        }
    }
    assert forall|j: int, c: NodeId|
        #![trigger all[j], st.shape.is_child(all[j], c)]
        0 <= j < k + 1 && st.shape.is_child(all[j], c) implies all.contains(c) by {
        assert(all[j] == ids[j]);
        if j < k {
            assert(ids.contains(c));
            assert(all[ids.index_of(c)] == c);
        } else {
            assert(children.contains(c));
            assert(all[n + children.index_of(c)] == c);
        }
    }
    assert forall|j: int|
        #![trigger all[j]]
        0 < j < all.len() implies {
        let p = st.shape.nodes[all[j] as int].parent;
        all.take(k + 1).contains(p) && all.take(j).contains(p)
    } by {
        let p = st.shape.nodes[all[j] as int].parent;
        if j < n {
            assert(all[j] == ids[j]);
            assert(ids.take(k).contains(p));
            tree_model::lemma_push_contains(ids.take(k), x, p);
            assert(all.take(j) =~= ids.take(j));
        } else {
            assert(all[j] == children[j - n]);
            assert(p == x);
            tree_model::lemma_push_contains(ids.take(k), x, x);
            assert(all.take(j)[k] == x);
        }
    }
}

/// A full list holds the whole subtree.
proof fn lemma_listed_all(st: HiState, top: NodeId, ids: Seq<NodeId>)
    requires
        st.wf(),
        0 < top,
        listed(st, top, ids, ids.len() as int),
    ensures
        st.lists_subtree(top, ids),
{
    assert forall|d: NodeId| #[trigger] ids.contains(d) <==> st.below(top, d) by {
        if ids.contains(d) {
            let j = ids.index_of(d);
            assert(st.below(top, ids[j]));
        }
        if st.below(top, d) {
            lemma_listed_has(st, top, ids, d);
        }
    }
}

proof fn lemma_listed_has(st: HiState, top: NodeId, ids: Seq<NodeId>, d: NodeId)
    requires
        st.wf(),
        0 < top,
        listed(st, top, ids, ids.len() as int),
        st.below(top, d),
    ensures
        ids.contains(d),
    decreases st.shape.nodes[d as int].path.len(),
{
    if d == top {
        assert(ids[0] == d);
    } else {
        topo::lemma_path_grows(st.shape, d);
        assert(st.node_ok(d as int));
        let p = st.shape.nodes[d as int].parent;
        let up = st.shape.up(d);
        assert(up == seq![d] + st.shape.up(p));
        let k = up.index_of(top);
        assert(st.shape.up(p)[k - 1] == top);
        lemma_listed_has(st, top, ids, p);
        let j = ids.index_of(p);
        assert(st.shape.is_child(ids[j], d));
    }
}

/// Once what comes after the `k`th node of a listed subtree is gone, the
/// `k`th has no children left.
proof fn lemma_last_is_leaf(st: HiState, top: NodeId, ids: Seq<NodeId>, k: int)
    requires
        st.wf(),
        st.lists_subtree(top, ids),
        0 < k <= ids.len(),
    ensures
        ({
            let t = st.without(ids.skip(k));
            let x = ids[k - 1];
            &&& t.shape.is_leaf(x)
            &&& t.shape.nodes[x as int].attached
            &&& !ids.skip(k).contains(x)
        }),
{
    let t = st.without(ids.skip(k));
    let x = ids[k - 1];
    assert(ids.contains(x));
    assert(st.below(top, x));
    assert(!ids.skip(k).contains(x)) by {
        if ids.skip(k).contains(x) {
            let j = ids.skip(k).index_of(x);
            assert(ids[k + j] == x);
        }
    }
    assert forall|c: NodeId| !(#[trigger] t.shape.is_child(x, c)) by {
        if t.shape.is_child(x, c) {
            assert(st.shape.is_child(x, c));
            lemma_below_child(st, top, x, c);
            assert(ids.contains(c));
            let j = ids.index_of(c);
            assert(ids[j] == c);
            if j > 0 {
                assert(ids.take(j).contains(x));
                let i = ids.take(j).index_of(x);
                assert(ids[i] == x);
                assert(i == k - 1);
                assert(ids.skip(k)[j - k] == c);
                assert(ids.skip(k).contains(c));
            } else {
                lemma_first_is_top(st, top, ids);
            }
        }
    }
}

/// A listed subtree begins with its top.
proof fn lemma_first_is_top(st: HiState, top: NodeId, ids: Seq<NodeId>)
    requires
        st.wf(),
        st.lists_subtree(top, ids),
        ids.len() > 0,
    ensures
        ids[0] == top,
{
    let d = ids[0];
    assert(ids.contains(d));
    let up = st.shape.up(d);
    topo::lemma_up(st.shape, d);
    let k = up.index_of(top);
    assert(up[k] == top);
    if k > 0 {
        topo::lemma_path_grows(st.shape, d);
        assert(st.node_ok(d as int));
        let p = st.shape.nodes[d as int].parent;
        assert(up == seq![d] + st.shape.up(p));
        assert(st.shape.up(p)[k - 1] == top);
        lemma_up_attached(st, d, k);
        topo::lemma_up(st.shape, top);
        assert(st.shape.up(top)[0] == top);
        assert(st.below(top, top));
        assert(ids.contains(top));
        let j = ids.index_of(top);
        assert(ids[j] == top);
        // The parent of the top, listed before it, would lie below it.
        if j > 0 {
            let q = st.shape.nodes[top as int].parent;
            assert(ids.take(j).contains(q));
            let i = ids.take(j).index_of(q);
            assert(ids[i] == q);
            assert(ids.contains(q));
            assert(st.below(top, q));
            topo::lemma_path_grows(st.shape, top);
            topo::lemma_up(st.shape, q);
            let m = st.shape.up(q).index_of(top);
            assert(st.shape.up(q)[m] == top);
        }
    }
}

/// Membership with one more in front.
proof fn lemma_front_contains(x: NodeId, rest: Seq<NodeId>, y: NodeId)
    ensures
        (seq![x] + rest).contains(y) == (y == x || rest.contains(y)),
{
    let all = seq![x] + rest;
    assert(all[0] == x);
    if rest.contains(y) {
        assert(all[rest.index_of(y) + 1] == y);
    }
    if all.contains(y) && y != x {
        let k = all.index_of(y);
        assert(rest[k - 1] == y);
    }
}

/// An optional run cut after `n` items.
fn split_opt(v: &Option<Vec<i64>>, n: usize) -> (r: (Option<Vec<i64>>, Option<Vec<i64>>))
    requires
        seqs::opt_run(*v) matches Some(run) ==> n <= run.len(),
    ensures
        seqs::opt_run(r.0) == hi_model::opt_take(seqs::opt_run(*v), n as int),
        seqs::opt_run(r.1) == hi_model::opt_skip(seqs::opt_run(*v), n as int),
{
    match v {
        Some(v) => {
            let a = copy_range(v.as_slice(), 0, n);
            let b = copy_range(v.as_slice(), n, v.len());
            assert(a@ =~= v@.take(n as int));
            assert(b@ =~= v@.skip(n as int));
            (Some(a), Some(b))
        },
        None => (None, None),
    }
}

} // verus!
