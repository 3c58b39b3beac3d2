//! The hybrid (full KV + mamba state) radix tree.
//!
//! - Two recency lists order the nodes. The full list holds every node below
//!   the root, mamba tombstones included, since their full KV is still live;
//!   the mamba list holds the nodes with a state.
//! - The allocator does not live inside the tree. KV runs to release come
//!   back with their offset in the request's row, mamba slots as runs, both
//!   in order; which pool a slot belongs to is up to the caller.
//! - A mamba state is one pool slot per node, so the mamba counters count
//!   states, not tokens. A state cannot be split.
//! - `inc_lock_ref(node)` locks the full side from `node` up to the root, the
//!   root left out, and the mamba side on `node` alone, when it has a state;
//!   a node's full lock count is never below its mamba lock count.
//!
//! What each operation does to the tree is stated over `MambaState`.

use crate::chains;
use crate::key::RadixKey;
use crate::lru;
use crate::lru::{LRUList, Lru};
use crate::mamba_laws;
use crate::mamba_model;
use crate::mamba_model::{MambaCounter, MambaFreed, MambaNodeState, MambaState, MambaTally};
use crate::query;
use crate::query::Trunk;
use crate::seqs;
use crate::seqs::{append_run, copy_opt, copy_range};
use crate::topo;
use crate::topo::{NodeId, ROOT};
use crate::tree;
use crate::tree::runs_of;
use crate::tree_model;
use vstd::prelude::*;

verus! {

/// What one node caches. Where the node stands is kept by the tree's
/// topology under the same id.
#[derive(Debug, Clone)]
pub struct MambaNode {
    /// One KV index per logical unit. `None` = the node was deleted from the
    /// tree.
    pub value: Option<Vec<i64>>,
    /// The node's mamba state slot; `None` = mamba tombstone (state evicted,
    /// full KV still live).
    pub mamba_value: Option<Vec<i64>>,
    /// Invariant: `full_lock_ref >= mamba_lock_ref` always.
    pub full_lock_ref: u32,
    pub mamba_lock_ref: u32,
    /// Ticks of the last visits; the lists alone order the eviction.
    pub last_access: u64,
    pub mamba_last_access: u64,
    pub id: NodeId,
}

impl MambaNode {
    /// The node as the model describes it.
    pub open spec fn view(&self) -> MambaNodeState {
        MambaNodeState {
            value: seqs::opt_run(self.value),
            mamba: seqs::opt_run(self.mamba_value),
            full_lock: self.full_lock_ref,
            mamba_lock: self.mamba_lock_ref,
        }
    }
}

/// The nodes as the model describes them.
pub open spec fn node_states(nodes: Seq<MambaNode>) -> Seq<MambaNodeState> {
    Seq::new(nodes.len(), |i: int| nodes[i]@)
}

/// Bookkeeping of the runs an operation wants released.
#[derive(Debug, Clone, PartialEq, Eq)]
pub struct MambaFreeOps {
    /// KV runs, each with its offset within the request's KV row; evictions
    /// report 0.
    pub kv: Vec<(Vec<i64>, usize)>,
    /// Mamba slots.
    pub mamba: Vec<Vec<i64>>,
}

/// The KV runs and offsets as sequences.
pub open spec fn segments(v: Seq<(Vec<i64>, usize)>) -> Seq<(Seq<i64>, int)> {
    Seq::new(v.len(), |i: int| (v[i].0@, v[i].1 as int))
}

/// Everything handed back, as the model describes it.
pub open spec fn freed(free: MambaFreeOps) -> MambaFreed {
    MambaFreed { kv: segments(free.kv@), mamba: runs_of(free.mamba@) }
}

impl Default for MambaFreeOps {
    fn default() -> (r: Self)
        ensures
            freed(r) == MambaFreed::none(),
    {
        let r = MambaFreeOps { kv: Vec::new(), mamba: Vec::new() };
        assert(freed(r) =~= MambaFreed::none());
        r
    }
}

/// Result of `match_prefix`.
#[derive(Debug, Clone, PartialEq, Eq)]
pub struct MambaMatchResult {
    /// The reusable KV prefix.
    pub indices: Vec<i64>,
    /// The node the caller locks.
    pub last_node: NodeId,
    /// The chunk-aligned length of the whole match when it extends past the
    /// last node with a state, else `None`.
    pub mamba_branching_seqlen: Option<usize>,
}

impl Default for MambaMatchResult {
    fn default() -> (r: Self)
        ensures
            r.indices@ == Seq::<i64>::empty(),
            r.last_node == ROOT,
            r.mamba_branching_seqlen is None,
    {
        MambaMatchResult { indices: Vec::new(), last_node: ROOT, mamba_branching_seqlen: None }
    }
}

/// A branching point as the model describes it.
pub open spec fn branch_of(b: Option<usize>) -> Option<int> {
    match b {
        Some(n) => Some(n as int),
        None => None,
    }
}

/// Result of `insert`.
#[derive(Debug, Clone, PartialEq, Eq)]
pub struct MambaInsertResult {
    /// Logical tokens already present in the tree.
    pub prefix_len: usize,
    /// The deepest node the walk touched (the new leaf when one was
    /// created).
    pub last_node: NodeId,
    /// A state already existed at the deepest node (or the key was empty):
    /// the caller must free the incoming one.
    pub mamba_exist: bool,
    pub free: MambaFreeOps,
}

impl Default for MambaInsertResult {
    fn default() -> (r: Self)
        ensures
            r.prefix_len == 0,
            r.last_node == ROOT,
            !r.mamba_exist,
            freed(r.free) == MambaFreed::none(),
    {
        MambaInsertResult { prefix_len: 0, last_node: ROOT, mamba_exist: false, free: MambaFreeOps::default() }
    }
}

/// Result of `evict` (dual full/mamba budgets).
#[derive(Debug, Clone, PartialEq, Eq)]
pub struct MambaEvictResult {
    /// Full KV tokens freed in the full phase, tombstone cascades included.
    /// Leaf deletions of the mamba phase free full KV too, but do not count
    /// here.
    pub full_num_evicted: usize,
    /// States evicted in the mamba phase; leaf deletions of the full phase
    /// free states too, but do not count here.
    pub mamba_num_evicted: usize,
    pub free: MambaFreeOps,
}

impl Default for MambaEvictResult {
    fn default() -> (r: Self)
        ensures
            tally(r) == (MambaTally { full: 0, mamba: 0, out: MambaFreed::none() }),
    {
        MambaEvictResult { full_num_evicted: 0, mamba_num_evicted: 0, free: MambaFreeOps::default() }
    }
}

/// The tally of an eviction, as the model describes it.
pub open spec fn tally(r: MambaEvictResult) -> MambaTally {
    MambaTally { full: r.full_num_evicted as int, mamba: r.mamba_num_evicted as int, out: freed(r.free) }
}

/// The hybrid tree.
///
/// A walk goes by whole pages: what a key shares with a node is rounded down
/// to them, so a node is only ever cut between two pages.
#[derive(Clone)]
pub struct MambaRadixTree {
    trunk: Trunk,
    nodes: Vec<MambaNode>,
    disable: bool,
    mamba_cache_chunk_size: usize,
    full_evictable_size: i64,
    mamba_evictable_size: i64,
    full_protected_size: i64,
    mamba_protected_size: i64,
    full_lru: LRUList,
    mamba_lru: LRUList,
    /// Walk clock.
    clock: u64,
}

impl MambaRadixTree {
    /// The state of the tree.
    pub closed spec fn view(&self) -> MambaState {
        MambaState {
            shape: self.trunk.topo@,
            nodes: node_states(self.nodes@),
            names: self.trunk.names@,
            is_eagle: self.trunk.is_eagle,
            disable: self.disable,
            grain: self.mamba_cache_chunk_size as nat,
            full: self.full_lru@,
            mamba: self.mamba_lru@,
        }
    }

    /// The state is possible and the counters say what follows from it.
    pub closed spec fn wf(&self) -> bool {
        &&& self.trunk.wf()
        &&& self.full_lru.wf()
        &&& self.mamba_lru.wf()
        &&& self.full_lru.capacity() == self.nodes@.len()
        &&& self.mamba_lru.capacity() == self.nodes@.len()
        &&& self@.wf()
        &&& self.counted()
        &&& forall|i: int| 0 <= i < self.nodes@.len() ==> (#[trigger] self.nodes@[i]).id == i
    }

    /// The counters say what follows from the state.
    closed spec fn counted(&self) -> bool {
        &&& self.full_evictable_size == self@.count(MambaCounter::FullEvictable)
        &&& self.full_protected_size == self@.count(MambaCounter::FullProtected)
        &&& self.mamba_evictable_size == self@.count(MambaCounter::MambaEvictable)
        &&& self.mamba_protected_size == self@.count(MambaCounter::MambaProtected)
    }

    /// What holds of the state of a well-formed tree.
    pub proof fn lemma_wf(&self)
        requires
            self.wf(),
        ensures
            self@.wf(),
            self@.shape.chunk() <= usize::MAX,
    {
        self.trunk.topo.lemma_wf();
    }

    /// A new tree; `page_size` and `mamba_cache_chunk_size`, the granularity
    /// at which states are cached, must be at least 1.
    pub fn new(page_size: usize, is_eagle: bool, mamba_cache_chunk_size: usize) -> (r: Self)
        requires
            page_size >= 1,
            is_eagle ==> page_size * 2 <= usize::MAX,
            mamba_cache_chunk_size >= 1,
        ensures
            r.wf(),
            r@ == MambaState::fresh(page_size as nat, is_eagle, false, mamba_cache_chunk_size as nat),
    {
        MambaRadixTree::empty(page_size, is_eagle, false, mamba_cache_chunk_size)
    }

    fn empty(page_size: usize, is_eagle: bool, disable: bool, mamba_cache_chunk_size: usize) -> (r: Self)
        requires
            page_size >= 1,
            is_eagle ==> page_size * 2 <= usize::MAX,
            mamba_cache_chunk_size >= 1,
        ensures
            r.wf(),
            r@ == MambaState::fresh(page_size as nat, is_eagle, disable, mamba_cache_chunk_size as nat),
    {
        let mut nodes: Vec<MambaNode> = Vec::new();
        nodes.push(
            MambaNode {
                value: Some(Vec::new()),
                mamba_value: None,
                full_lock_ref: 1,
                mamba_lock_ref: 1,
                last_access: 0,
                mamba_last_access: 0,
                id: ROOT,
            },
        );
        let mut full_lru = LRUList::default();
        let mut mamba_lru = LRUList::default();
        full_lru.grow(1);
        mamba_lru.grow(1);
        let r = MambaRadixTree {
            trunk: Trunk::new(page_size, is_eagle),
            nodes,
            disable,
            mamba_cache_chunk_size,
            full_evictable_size: 0,
            mamba_evictable_size: 0,
            full_protected_size: 0,
            mamba_protected_size: 0,
            full_lru,
            mamba_lru,
            clock: 0,
        };
        proof {
            let st = MambaState::fresh(page_size as nat, is_eagle, disable, mamba_cache_chunk_size as nat);
            assert(r@.nodes[0].value->0 =~= Seq::<i64>::empty());
            assert(r@.nodes =~= st.nodes);
            assert(r@ =~= st);
            reveal_with_fuel(seqs::total, 2);
            assert(st.frame() == r.trunk@);
        }
        r
    }

    /// Recreate the root and clear all bookkeeping.
    pub fn reset(&mut self)
        requires
            old(self).wf(),
        ensures
            final(self).wf(),
            final(self)@ == MambaState::fresh(
                old(self)@.shape.page,
                old(self)@.is_eagle,
                old(self)@.disable,
                old(self)@.grain,
            ),
    {
        proof {
            self.lemma_wf();
            topo::lemma_chunk(self@.shape);
        }
        let r = MambaRadixTree::empty(
            self.trunk.topo.page_size(),
            self.trunk.is_eagle,
            self.disable,
            self.mamba_cache_chunk_size,
        );
        *self = r;
    }

    /// The tree with caching switched off (`true`) or on.
    pub fn with_disable(self, disable: bool) -> (r: Self)
        requires
            self.wf(),
        ensures
            r.wf(),
            r@ == (MambaState { disable, ..self@ }),
    {
        let ghost before = self@;
        let mut r = self;
        r.disable = disable;
        proof {
            mamba_model::lemma_reordered(before, r@);
        }
        r
    }

    /// Logical units per page.
    pub fn page_size(&self) -> (r: usize)
        requires
            self.wf(),
        ensures
            r == self@.shape.page,
    {
        self.trunk.topo.page_size()
    }

    /// The granularity at which states are cached.
    pub fn mamba_cache_chunk_size(&self) -> (r: usize)
        ensures
            r == self@.grain,
    {
        self.mamba_cache_chunk_size
    }

    /// Logical tokens in nodes without a full lock.
    pub fn full_evictable_size(&self) -> (r: i64)
        requires
            self.wf(),
        ensures
            r == self@.count(MambaCounter::FullEvictable),
    {
        self.full_evictable_size
    }

    /// States without a mamba lock.
    pub fn mamba_evictable_size(&self) -> (r: i64)
        requires
            self.wf(),
        ensures
            r == self@.count(MambaCounter::MambaEvictable),
    {
        self.mamba_evictable_size
    }

    /// Logical tokens in nodes with a full lock.
    pub fn full_protected_size(&self) -> (r: i64)
        requires
            self.wf(),
        ensures
            r == self@.count(MambaCounter::FullProtected),
    {
        self.full_protected_size
    }

    /// States with a mamba lock.
    pub fn mamba_protected_size(&self) -> (r: i64)
        requires
            self.wf(),
        ensures
            r == self@.count(MambaCounter::MambaProtected),
    {
        self.mamba_protected_size
    }

    /// Tokens in live nodes, and live states.
    pub fn total_size(&self) -> (r: (i64, i64))
        requires
            self.wf(),
        ensures
            r.0 == self@.full_size(),
            r.1 == self@.mamba_size(),
    {
        let ghost st = self@;
        let mut full: i64 = 0;
        let mut mamba: i64 = 0;
        let mut i: usize = 0;
        proof {
            mamba_model::law_sizes_add_up(st);
            assert forall|j: int| 0 <= j < st.nodes.len() implies st.held(j) >= 0 && st.held_mamba(j) >= 0 by {
                if j > 0 {
                    chains::lemma_units(st.shape, j);
                }
            }
        }
        while i < self.nodes.len()
            invariant
                self.wf(),
                st == self@,
                i <= self.nodes@.len() == st.nodes.len(),
                full == seqs::total(|j: int| st.held(j), i as nat),
                mamba == seqs::total(|j: int| st.held_mamba(j), i as nat),
                st.full_size() == seqs::total(|j: int| st.held(j), st.nodes.len()),
                st.mamba_size() == seqs::total(|j: int| st.held_mamba(j), st.nodes.len()),
                st.mamba_size() <= st.full_size() <= i64::MAX,
                forall|j: int| 0 <= j < st.nodes.len() ==> #[trigger] st.held(j) >= 0,
                forall|j: int| 0 <= j < st.nodes.len() ==> #[trigger] st.held_mamba(j) >= 0,
            decreases self.nodes@.len() - i,
        {
            proof {
                if i > 0 {
                    assert(st.node_ok(i as int));
                }
                let f = |j: int| st.held(j);
                let g = |j: int| st.held_mamba(j);
                seqs::lemma_total_prefix(f, (i + 1) as nat, st.nodes.len());
                seqs::lemma_total_prefix(g, (i + 1) as nat, st.nodes.len());
                seqs::lemma_total_bounds(f, i as nat);
                seqs::lemma_total_bounds(g, i as nat);
                assert(st.nodes[i as int] == self.nodes@[i as int]@);
            }
            if let Some(v) = &self.nodes[i].value {
                full = full + v.len() as i64;
                if self.nodes[i].mamba_value.is_some() {
                    mamba = mamba + 1;
                }
            }
            i += 1;
        }
        (full, mamba)
    }

    /// Live children of a node.
    pub fn node_children(&self, id: NodeId) -> (r: Vec<NodeId>)
        requires
            self.wf(),
        ensures
            r@.no_duplicates(),
            forall|c: NodeId| #[trigger] r@.contains(c) <==> id < self@.nodes.len() && self@.shape.is_child(id, c),
    {
        if (id as usize) < self.nodes.len() {
            self.trunk.topo.children(id)
        } else {
            Vec::new()
        }
    }

    /// Whether the node has no state.
    pub fn node_mamba_tombstone(&self, id: NodeId) -> (r: bool)
        ensures
            r == (id < self@.nodes.len() && self@.nodes[id as int].mamba is None),
    {
        proof {
            if id < self@.nodes.len() {
                assert(self@.nodes[id as int] == self.nodes@[id as int]@);
            }
        }
        (id as usize) < self.nodes.len() && self.nodes[id as usize].mamba_value.is_none()
    }

    /// The node's state slot.
    pub fn node_mamba_value(&self, id: NodeId) -> (r: Option<Vec<i64>>)
        ensures
            seqs::opt_run(r) == (if id < self@.nodes.len() {
                self@.nodes[id as int].mamba
            } else {
                None
            }),
    {
        if (id as usize) < self.nodes.len() {
            assert(self@.nodes[id as int] == self.nodes@[id as int]@);
            copy_opt(&self.nodes[id as usize].mamba_value)
        } else {
            None
        }
    }

    /// The full lock count of a node; `u32::MAX` for an unknown id.
    pub fn node_full_lock_ref(&self, id: NodeId) -> (r: u32)
        ensures
            r == (if id < self@.nodes.len() {
                self@.nodes[id as int].full_lock
            } else {
                u32::MAX
            }),
    {
        if (id as usize) < self.nodes.len() {
            self.nodes[id as usize].full_lock_ref
        } else {
            u32::MAX
        }
    }

    /// The mamba lock count of a node; `u32::MAX` for an unknown id.
    pub fn node_mamba_lock_ref(&self, id: NodeId) -> (r: u32)
        ensures
            r == (if id < self@.nodes.len() {
                self@.nodes[id as int].mamba_lock
            } else {
                u32::MAX
            }),
    {
        if (id as usize) < self.nodes.len() {
            self.nodes[id as usize].mamba_lock_ref
        } else {
            u32::MAX
        }
    }

    /// The cached prefix of `key` up to the last node with a state. A node
    /// matched in part is split; the path of the returned node becomes the
    /// most recently used on the full side, the node itself on the mamba
    /// side.
    pub fn match_prefix(&mut self, key: &RadixKey) -> (r: MambaMatchResult)
        requires
            old(self).wf(),
            old(self)@.nodes.len() < NodeId::MAX,
            old(self)@.names.len() < u32::MAX,
        ensures
            final(self).wf(),
            (final(self)@, r.indices@, r.last_node, branch_of(r.mamba_branching_seqlen))
                == old(self)@.after_match(*key),
    {
        let ghost st = self@;
        let flat_key = self.trunk.flatten(key);
        let flat = flat_key.as_ref();
        if self.disable || flat.len() == 0 {
            return MambaMatchResult::default();
        }
        proof {
            query::lemma_query(st.frame(), *key);
            chains::lemma_key_tokens(st.frame(), *key);
        }
        let (visited, used) = self.visit(key, flat);
        let ghost at = self@;
        let (best_len, best_node) = self.best(&visited);
        self.refresh(best_node);
        let indices = self.gather(&visited, best_len);
        proof {
            lemma_gathered_same(at, self@, visited@.take(best_len as int));
        }
        let total = used / self.trunk.topo.unit_size();
        let aligned = floor_to(total, self.mamba_cache_chunk_size);
        let mamba_branching_seqlen = if visited.len() > best_len && aligned > 0 {
            Some(aligned)
        } else {
            None
        };
        MambaMatchResult { indices, last_node: best_node, mamba_branching_seqlen }
    }

    /// Caches `value` under `key`, with the state `mamba_value` at its end.
    /// The overlap with the tree past `prev_prefix_len` tokens is handed
    /// back with its offset.
    #[verifier::spinoff_prover]
    #[verifier::rlimit(40)]
    pub fn insert(
        &mut self,
        key: &RadixKey,
        value: &[i64],
        mamba_value: &[i64],
        prev_prefix_len: usize,
    ) -> (r: MambaInsertResult)
        requires
            old(self).wf(),
            old(self)@.nodes.len() + 2 <= NodeId::MAX,
            old(self)@.names.len() < u32::MAX,
            !old(self)@.disable ==> {
                let units = old(self)@.frame().units(*key);
                let fresh = units - old(self)@.frame().prefix_len(*key);
                &&& old(self)@.frame().fits(*key)
                &&& value@.len() >= units
                &&& mamba_value@.len() == 1
                &&& old(self)@.full_size() + fresh <= i64::MAX
                &&& old(self)@.full_size() + fresh <= usize::MAX
            },
        ensures
            final(self).wf(),
            ({
                let (st, kv, node, exist) = old(self)@.after_insert(
                    *key,
                    value@,
                    mamba_value@,
                    prev_prefix_len as int,
                );
                &&& final(self)@ == st
                &&& freed(r.free) == (MambaFreed { kv, mamba: Seq::empty() })
                &&& r.last_node == node
                &&& r.mamba_exist == exist
            }),
            r.prefix_len == (if old(self)@.disable {
                0
            } else {
                old(self)@.frame().prefix_len(*key)
            }),
    {
        let ghost st = self@;
        let flat_key = self.trunk.flatten(key);
        let flat = flat_key.as_ref();
        proof {
            query::lemma_query(st.frame(), *key);
            topo::lemma_chunk(st.shape);
        }
        let mut res = MambaInsertResult::default();
        if self.disable {
            return res;
        }
        if flat.len() == 0 {
            res.mamba_exist = true;
            return res;
        }
        let unit = self.trunk.topo.unit_size();
        let units = flat.len() / unit;
        let value = vstd::slice::slice_subrange(value, 0, units);
        assert(value@ =~= value@.take(units as int));
        let ghost val = value@;
        let (ns, node, used) = self.insert_walk(key, flat, value, prev_prefix_len, &mut res.free);
        let total = used / unit;
        res.prefix_len = total;
        proof {
            tree_model::lemma_halves(flat@.len() as int, used as int, unit as int);
            topo::lemma_aligned(st.shape, flat@.len() as int, used as int);
        }
        if used < flat.len() {
            let rest = copy_range(flat, used, flat.len());
            let fresh = copy_range(value, total, units);
            let slot = copy_range(mamba_value, 0, mamba_value.len());
            proof {
                assert(rest@ =~= flat@.skip(used as int));
                assert(fresh@ =~= val.skip(total as int));
                assert(slot@ =~= mamba_value@);
            }
            let id = self.add_new_node(node, ns, rest, fresh, slot);
            res.last_node = id;
        } else {
            proof {
                assert(self@.nodes[node as int] == self.nodes@[node as int]@);
            }
            let exist = self.nodes[node as usize].mamba_value.is_some();
            self.pass(node);
            if !exist {
                let slot = copy_range(mamba_value, 0, mamba_value.len());
                assert(slot@ =~= mamba_value@);
                self.revive(node, slot);
            }
            res.mamba_exist = exist;
            res.last_node = node;
        }
        res
    }

    /// Evicts with two budgets. First unlocked leaves are deleted, least
    /// recently used first, until `full_num_tokens` are gone; then states
    /// are freed until `mamba_num` are gone.
    pub fn evict(&mut self, full_num_tokens: usize, mamba_num: usize) -> (r: MambaEvictResult)
        requires
            old(self).wf(),
            old(self)@.drains(full_num_tokens as int, mamba_num as int),
        ensures
            final(self).wf(),
            (final(self)@, tally(r)) == old(self)@.after_evict(full_num_tokens as int, mamba_num as int),
            old(self)@.evict_ready() ==> final(self)@.evict_ready(),
    {
        let ghost st = self@;
        let mut res = MambaEvictResult::default();
        if self.disable {
            return res;
        }
        proof {
            mamba_model::law_sizes_add_up(st);
        }
        self.evict_full(full_num_tokens, &mut res);
        self.evict_mamba(mamba_num, &mut res);
        proof {
            if st.evict_ready() {
                mamba_laws::law_ready_stays(st, full_num_tokens as int, mamba_num as int);
            }
        }
        res
    }

    /// Locks `node` and every node above it, the root left out, on the full
    /// side, and `node` on the mamba side if it has a state. Returns the
    /// changes of the two evictable sizes (<= 0).
    pub fn inc_lock_ref(&mut self, node: NodeId) -> (r: (i64, i64))
        requires
            old(self).wf(),
            !old(self)@.disable ==> {
                let st = old(self)@;
                &&& node == ROOT || st.live(node)
                &&& forall|k: int|
                    0 <= k < st.shape.up(node).len() ==> st.nodes[(#[trigger] st.shape.up(node)[k]) as int].full_lock
                        < u32::MAX
            },
        ensures
            final(self).wf(),
            final(self)@ == (if old(self)@.disable {
                old(self)@
            } else {
                old(self)@.locked(node)
            }),
            r.0 == final(self)@.count(MambaCounter::FullEvictable) - old(self)@.count(
                MambaCounter::FullEvictable,
            ),
            r.1 == final(self)@.count(MambaCounter::MambaEvictable) - old(self)@.count(
                MambaCounter::MambaEvictable,
            ),
            r.0 <= 0,
            r.1 <= 0,
    {
        let ghost st = self@;
        if self.disable {
            return (0, 0);
        }
        let full_before = self.full_evictable_size;
        let mamba_before = self.mamba_evictable_size;
        let up = self.trunk.topo.up(node);
        proof {
            mamba_model::lemma_up_live(st, node);
            mamba_model::law_sizes_add_up(st);
        }
        self.lock_path(&up);
        let ghost mid = self@;
        proof {
            assert(mid.nodes[node as int] == self.nodes@[node as int]@);
        }
        if self.nodes[node as usize].mamba_value.is_some() {
            proof {
                assert(st.node_ok(node as int));
                assert(up@[0] == node);
                assert(up@.contains(node));
            }
            let full_lock = self.nodes[node as usize].full_lock_ref;
            let mamba_lock = self.nodes[node as usize].mamba_lock_ref;
            self.set_locks(node, full_lock, mamba_lock + 1);
        }
        proof {
            mamba_model::law_sizes_add_up(self@);
            assert(self@.count(MambaCounter::FullEvictable) >= 0);
            assert(self@.count(MambaCounter::MambaEvictable) >= 0);
        }
        (self.full_evictable_size - full_before, self.mamba_evictable_size - mamba_before)
    }

    /// Takes one lock of that kind off. Returns the changes of the two
    /// evictable sizes (>= 0).
    pub fn dec_lock_ref(&mut self, node: NodeId) -> (r: (i64, i64))
        requires
            old(self).wf(),
            !old(self)@.disable ==> {
                let st = old(self)@;
                let up = st.shape.up(node);
                &&& node == ROOT || st.live(node)
                &&& st.nodes[node as int].mamba is Some ==> st.nodes[node as int].mamba_lock > 0
                &&& forall|k: int|
                    0 <= k < up.len() ==> {
                        let n = st.nodes[(#[trigger] up[k]) as int];
                        n.full_lock > 0 && (k > 0 ==> n.full_lock > n.mamba_lock)
                    }
            },
        ensures
            final(self).wf(),
            final(self)@ == (if old(self)@.disable {
                old(self)@
            } else {
                old(self)@.unlocked(node)
            }),
            r.0 == final(self)@.count(MambaCounter::FullEvictable) - old(self)@.count(
                MambaCounter::FullEvictable,
            ),
            r.1 == final(self)@.count(MambaCounter::MambaEvictable) - old(self)@.count(
                MambaCounter::MambaEvictable,
            ),
            r.0 >= 0,
            r.1 >= 0,
    {
        let ghost st = self@;
        if self.disable {
            return (0, 0);
        }
        let full_before = self.full_evictable_size;
        let mamba_before = self.mamba_evictable_size;
        let up = self.trunk.topo.up(node);
        proof {
            mamba_model::lemma_up_live(st, node);
            mamba_model::law_sizes_add_up(st);
            assert(st.nodes[node as int] == self.nodes@[node as int]@);
            if node != ROOT {
                assert(st.node_ok(node as int));
                assert(up@[0] == node);
            }
        }
        if self.nodes[node as usize].mamba_value.is_some() {
            let full_lock = self.nodes[node as usize].full_lock_ref;
            let mamba_lock = self.nodes[node as usize].mamba_lock_ref;
            self.set_locks(node, full_lock, mamba_lock - 1);
        }
        proof {
            let mid = self@;
            assert forall|k: int| 0 <= k < up@.len() implies mid.live(#[trigger] up@[k]) && mid.nodes[up@[k] as int].full_lock
                > mid.nodes[up@[k] as int].mamba_lock by {
                assert(st.live(up@[k]));
                assert(st.node_ok(up@[k] as int));
                if k > 0 {
                    assert(up@[k] != up@[0]);
                }
            }
        }
        self.unlock_path(&up);
        proof {
            mamba_model::law_sizes_add_up(self@);
        }
        (self.full_evictable_size - full_before, self.mamba_evictable_size - mamba_before)
    }

    // ---- internals ----

    /// Deletes unlocked leaves, least recently used first, until the tally
    /// reaches the budget or none is left.
    fn evict_full(&mut self, budget: usize, res: &mut MambaEvictResult)
        requires
            old(self).wf(),
            old(self)@.full_drains(budget as int, tally(*old(res))),
            old(res).full_num_evicted + old(self)@.full_size() <= usize::MAX,
            old(res).mamba_num_evicted == 0,
        ensures
            final(self).wf(),
            (final(self)@, tally(*final(res))) == old(self)@.evict_full(budget as int, tally(*old(res))),
            final(res).mamba_num_evicted == 0,
    {
        let ghost start = self@;
        let ghost t0 = tally(*res);
        loop
            invariant
                self.wf(),
                self@.full_drains(budget as int, tally(*res)),
                start.evict_full(budget as int, t0) == self@.evict_full(budget as int, tally(*res)),
                res.full_num_evicted + self@.full_size() <= usize::MAX,
                res.mamba_num_evicted == 0,
            ensures
                start.evict_full(budget as int, t0) == (self@, tally(*res)),
            decreases self@.live_count(),
        {
            let ghost cur = self@;
            if res.full_num_evicted >= budget {
                break;
            }
            let x = match self.full_get_leaf_lru_no_lock() {
                Some(x) => x,
                None => {
                    break;
                },
            };
            proof {
                assert(cur.live(x));
                mamba_model::lemma_drop_counts(cur, x);
                mamba_model::lemma_evict_counts(cur, x, freed(res.free));
                mamba_model::lemma_evict_leaf(cur, x, freed(res.free));
                mamba_model::law_sizes_add_up(cur.evict_leaf(x, freed(res.free)).0);
            }
            let more = self.evict_leaf_node(x, &mut res.free);
            res.full_num_evicted = res.full_num_evicted + more;
        }
    }

    /// Frees states, least recently used first, until the tally reaches the
    /// budget or none is left.
    fn evict_mamba(&mut self, budget: usize, res: &mut MambaEvictResult)
        requires
            old(self).wf(),
            old(self)@.mamba_drains(budget as int, tally(*old(res))),
            old(res).mamba_num_evicted == 0,
        ensures
            final(self).wf(),
            (final(self)@, tally(*final(res))) == old(self)@.evict_mamba(budget as int, tally(*old(res))),
    {
        let ghost start = self@;
        let ghost t0 = tally(*res);
        loop
            invariant
                self.wf(),
                self@.mamba_drains(budget as int, tally(*res)),
                start.evict_mamba(budget as int, t0) == self@.evict_mamba(budget as int, tally(*res)),
            ensures
                start.evict_mamba(budget as int, t0) == (self@, tally(*res)),
            decreases self@.mamba.len(),
        {
            let ghost cur = self@;
            if res.mamba_num_evicted >= budget {
                break;
            }
            let x = match self.mamba_get_lru_no_lock() {
                Some(x) => x,
                None => {
                    break;
                },
            };
            proof {
                assert(cur.stateful(x));
                mamba_model::lemma_evict_mamba_step(cur, x, tally(*res));
            }
            if !self.trunk.topo.is_leaf(x) {
                let slot = self.slot_of(x);
                self.tombstone_internal_node(x);
                proof {
                    tree::lemma_push_run(res.free.mamba@, slot);
                }
                res.free.mamba.push(slot);
            } else {
                let more = self.evict_leaf_node(x, &mut res.free);
            }
            res.mamba_num_evicted = res.mamba_num_evicted + 1;
        }
    }

    /// Deletes the unlocked leaf `x` and the tombstones it leaves behind;
    /// returns the tokens of all.
    fn evict_leaf_node(&mut self, x: NodeId, free: &mut MambaFreeOps) -> (total: usize)
        requires
            old(self).wf(),
            old(self)@.stateful(x),
            old(self)@.shape.is_leaf(x),
            old(self)@.nodes[x as int].full_lock == 0,
        ensures
            final(self).wf(),
            (final(self)@, freed(*final(free)), total as int) == old(self)@.evict_leaf(x, freed(*old(free))),
    {
        let ghost cur = self@;
        let ghost out = freed(*free);
        proof {
            mamba_model::lemma_dropped(cur, x);
            mamba_model::law_sizes_add_up(cur);
            mamba_model::law_sizes_add_up(cur.dropped(x));
            topo::lemma_path_grows(cur.shape, x);
        }
        let v = self.run_of(x);
        let n = v.len();
        let slot = self.slot_of(x);
        let parent = match self.trunk.topo.parent(x) {
            Some(p) => p,
            None => ROOT,
        };
        self.delete_leaf(x);
        proof {
            lemma_push_segment(free.kv@, v, 0);
            tree::lemma_push_run(free.mamba@, slot);
        }
        free.kv.push((v, 0));
        free.mamba.push(slot);
        let ghost mid = freed(*free);
        proof {
            mamba_model::lemma_cascade(cur.dropped(x), parent, mid);
            let after = cur.dropped(x).cascade(parent, mid).0;
            mamba_model::law_sizes_add_up(after);
            assert(after.count(MambaCounter::FullEvictable) >= 0);
            assert(after.count(MambaCounter::FullProtected) >= 0);
        }
        let more = self.iteratively_delete_tombstone_leaf(parent, free);
        more + n
    }

    /// Deletes orphaned tombstones from `p` upwards; returns their tokens.
    fn iteratively_delete_tombstone_leaf(&mut self, p: NodeId, free: &mut MambaFreeOps) -> (total: usize)
        requires
            old(self).wf(),
            p < old(self)@.nodes.len(),
        ensures
            final(self).wf(),
            (final(self)@, freed(*final(free)), total as int) == old(self)@.cascade(p, freed(*old(free))),
    {
        let ghost start = self@;
        let ghost out0 = freed(*free);
        let mut at = p;
        let mut total: usize = 0;
        loop
            invariant
                self.wf(),
                start.wf(),
                at < self@.nodes.len(),
                ({
                    let (st, o, n) = self@.cascade(at, freed(*free));
                    start.cascade(p, out0) == (st, o, n + total)
                }),
                total + self@.full_size() == start.full_size(),
            ensures
                start.cascade(p, out0) == (self@, freed(*free), total as int),
            decreases self@.live_count(),
        {
            let ghost cur = self@;
            proof {
                assert(cur.nodes[at as int] == self.nodes@[at as int]@);
            }
            if at == ROOT || self.nodes[at as usize].value.is_none() || self.nodes[at as usize].mamba_value.is_some()
                || self.nodes[at as usize].full_lock_ref > 0 || !self.trunk.topo.is_leaf(at) {
                break;
            }
            proof {
                mamba_model::lemma_dropped(cur, at);
                mamba_model::law_sizes_add_up(cur);
                mamba_model::law_sizes_add_up(cur.dropped(at));
                topo::lemma_path_grows(cur.shape, at);
                assert(cur.dropped(at).count(MambaCounter::FullEvictable) >= 0);
                assert(cur.dropped(at).count(MambaCounter::FullProtected) >= 0);
            }
            let v = self.run_of(at);
            let n = v.len();
            let up = match self.trunk.topo.parent(at) {
                Some(q) => q,
                None => ROOT,
            };
            self.delete_leaf(at);
            proof {
                lemma_push_segment(free.kv@, v, 0);
            }
            free.kv.push((v, 0));
            total = total + n;
            at = up;
        }
        total
    }

    /// The least recently used unlocked leaf.
    fn full_get_leaf_lru_no_lock(&self) -> (r: Option<NodeId>)
        requires
            self.wf(),
        ensures
            r == self@.lru_leaf(self@.full),
            r matches Some(x) ==> self@.live(x) && self@.shape.is_leaf(x) && self@.nodes[x as int].full_lock == 0,
    {
        let ghost st = self@;
        let ghost order = st.full;
        let ghost mut i: int = order.len() as int;
        let mut at = self.full_lru.predecessor(Lru::Tail);
        proof {
            self.full_lru.lemma_members();
            assert(order.take(i) =~= order);
        }
        loop
            invariant
                self.wf(),
                st == self@,
                order == st.full,
                order.no_duplicates(),
                0 <= i <= order.len(),
                at == lru::before(order, i),
                st.lru_leaf(order) == st.lru_leaf(order.take(i)),
            decreases i,
        {
            match at {
                Lru::Node(id) => {
                    proof {
                        assert(order[i - 1] == id);
                        assert(order.contains(id));
                        assert(order.index_of(id) == i - 1);
                        assert(order.take(i).last() == id);
                        assert(order.take(i).drop_last() =~= order.take(i - 1));
                        assert(st.nodes[id as int] == self.nodes@[id as int]@);
                    }
                    if self.nodes[id as usize].full_lock_ref == 0 && self.trunk.topo.is_leaf(id) {
                        return Some(id);
                    }
                    at = self.full_lru.predecessor(at);
                    proof {
                        i = i - 1;
                    }
                },
                _ => {
                    assert(i == 0);
                    return None;
                },
            }
        }
    }

    /// The least recently used state without a mamba lock.
    fn mamba_get_lru_no_lock(&self) -> (r: Option<NodeId>)
        requires
            self.wf(),
        ensures
            r == self@.lru_unlocked(self@.mamba),
            r matches Some(x) ==> self@.stateful(x) && self@.nodes[x as int].mamba_lock == 0 && self@.mamba.contains(x),
    {
        let ghost st = self@;
        let ghost order = st.mamba;
        let ghost mut i: int = order.len() as int;
        let mut at = self.mamba_lru.predecessor(Lru::Tail);
        proof {
            self.mamba_lru.lemma_members();
            assert(order.take(i) =~= order);
        }
        loop
            invariant
                self.wf(),
                st == self@,
                order == st.mamba,
                order.no_duplicates(),
                0 <= i <= order.len(),
                at == lru::before(order, i),
                st.lru_unlocked(order) == st.lru_unlocked(order.take(i)),
            decreases i,
        {
            match at {
                Lru::Node(id) => {
                    proof {
                        assert(order[i - 1] == id);
                        assert(order.contains(id));
                        assert(order.index_of(id) == i - 1);
                        assert(order.take(i).last() == id);
                        assert(order.take(i).drop_last() =~= order.take(i - 1));
                        assert(st.nodes[id as int] == self.nodes@[id as int]@);
                    }
                    if self.nodes[id as usize].mamba_lock_ref == 0 {
                        return Some(id);
                    }
                    at = self.mamba_lru.predecessor(at);
                    proof {
                        i = i - 1;
                    }
                },
                _ => {
                    assert(i == 0);
                    return None;
                },
            }
        }
    }

    /// Detaches the unlocked leaf `node`.
    fn delete_leaf(&mut self, node: NodeId)
        requires
            old(self).wf(),
            old(self)@.live(node),
            old(self)@.shape.is_leaf(node),
            old(self)@.nodes[node as int].full_lock == 0,
        ensures
            final(self).wf(),
            final(self)@ == old(self)@.dropped(node),
    {
        let ghost st = self@;
        let ghost t = st.dropped(node);
        proof {
            mamba_model::lemma_dropped(st, node);
            mamba_model::law_sizes_add_up(st);
            mamba_model::law_sizes_add_up(t);
            assert(t.count(MambaCounter::FullEvictable) >= 0);
            assert(t.count(MambaCounter::MambaEvictable) >= 0);
            assert(st.nodes[node as int] == self.nodes@[node as int]@);
            assert(st.full.contains(node));
            assert(st.mamba.contains(node) <==> st.stateful(node));
        }
        let units = self.trunk.topo.units(node) as i64;
        self.trunk.topo.prune(node);
        self.nodes[node as usize].value = None;
        self.full_lru.remove(node);
        self.full_evictable_size = self.full_evictable_size - units;
        if self.nodes[node as usize].mamba_value.is_some() {
            self.mamba_lru.remove(node);
            self.mamba_evictable_size = self.mamba_evictable_size - 1;
        }
        proof {
            assert(self@.nodes =~= t.nodes);
            assert(self@ =~= t);
            assert(self@.frame() == self.trunk@);
        }
    }

    /// Takes the state off a node without a mamba lock.
    fn tombstone_internal_node(&mut self, node: NodeId)
        requires
            old(self).wf(),
            old(self)@.stateful(node),
            old(self)@.nodes[node as int].mamba_lock == 0,
        ensures
            final(self).wf(),
            final(self)@ == old(self)@.buried(node),
    {
        let ghost st = self@;
        let ghost t = st.buried(node);
        proof {
            mamba_model::lemma_buried(st, node);
            mamba_model::law_sizes_add_up(st);
            mamba_model::law_sizes_add_up(t);
            assert(t.count(MambaCounter::MambaEvictable) >= 0);
            assert(st.nodes[node as int] == self.nodes@[node as int]@);
        }
        self.nodes[node as usize].mamba_value = None;
        self.mamba_lru.remove(node);
        self.mamba_evictable_size = self.mamba_evictable_size - 1;
        proof {
            assert(self@.nodes =~= t.nodes);
            assert(self@ =~= t);
            assert(self@.frame() == self.trunk@);
        }
    }

    /// The walk of an insert; returns the namespace id, the node it stands
    /// at and the flattened elements it passed.
    fn insert_walk(
        &mut self,
        key: &RadixKey,
        flat: &[i64],
        value: &[i64],
        prev: usize,
        free: &mut MambaFreeOps,
    ) -> (r: (u32, NodeId, usize))
        requires
            old(self).wf(),
            old(self)@.nodes.len() + 2 <= NodeId::MAX,
            old(self)@.names.len() < u32::MAX,
            flat@ == old(self)@.frame().flat(*key),
            old(self)@.frame().fits(*key),
            value@.len() == old(self)@.frame().units(*key),
            freed(*old(free)) == MambaFreed::none(),
        ensures
            final(self).wf(),
            ({
                let (t, kv, p) = old(self)@.after_insert_walk(*key, value@, prev as int);
                let s = old(self)@.shape;
                &&& final(self)@ == t
                &&& freed(*final(free)) == (MambaFreed { kv, mamba: Seq::empty() })
                &&& r.0 == old(self)@.frame().ns_of(*key)
                &&& r.0 < t.names.len()
                &&& r.1 == p
                &&& r.2 == old(self)@.frame().walk(*key).used
                &&& t.nodes.len() <= old(self)@.nodes.len() + 1
                &&& t.full_size() == old(self)@.full_size()
                &&& t.shape.page == s.page
                &&& t.shape.unit == s.unit
                &&& t.shape.has(p)
                &&& t.shape.nodes[p as int].attached
                &&& p != ROOT ==> t.live(p) && t.shape.nodes[p as int].ns == r.0
                &&& r.2 > 0 ==> p != ROOT
                &&& r.2 < flat@.len() ==> t.shape.child_of(
                    p,
                    r.0,
                    flat@.skip(r.2 as int).take(s.chunk() as int),
                ) is None
            }),
    {
        let ghost st = self@;
        let ghost w = st.frame().walk(*key);
        let (ns, path) = self.enter(key, flat);
        let ghost base = self@;
        let ghost rest = flat@.skip(w.used as int).take(st.shape.chunk() as int);
        let now = self.tick();
        self.stamp(ROOT, now);
        proof {
            lemma_insert_path(st, base, *key);
        }
        let total = self.pass_chain(&path.chain, value, prev, free);
        let ghost cur = self@;
        proof {
            lemma_walk_same(st, base, w.chain, w.chain.len(), value@, prev as int);
        }
        let mut node = path.end();
        match path.stop {
            Some((c, m)) => {
                self.pass(c);
                proof {
                    mamba_model::lemma_passed(cur, c);
                    mamba_model::lemma_cut(cur.passed(c), c, m as int);
                }
                let len = m / self.trunk.topo.unit_size();
                hand_back(free, value, total, len, prev);
                node = self.split_node(c, m);
                proof {
                    if w.used < flat@.len() {
                        tree_model::lemma_front_children(cur.shape, c, m as int, ns, rest);
                    }
                }
            },
            None => {
                proof {
                    if node != ROOT {
                        assert(w.chain[w.chain.len() - 1] == node);
                        assert(cur.live(w.chain[w.chain.len() - 1]));
                    } else {
                        assert(w.chain.len() == 0) by {
                            if w.chain.len() > 0 {
                                assert(base.live(w.chain[w.chain.len() - 1]));
                            }
                        }
                    }
                }
            },
        }
        (ns, node, path.used)
    }

    /// An insert passes the nodes of its chain; returns their tokens.
    fn pass_chain(
        &mut self,
        chain: &Vec<NodeId>,
        value: &[i64],
        prev: usize,
        free: &mut MambaFreeOps,
    ) -> (total: usize)
        requires
            old(self).wf(),
            mamba_model::chain_of(old(self)@, chain@),
            chains::tokens(old(self)@.shape, chain@, chain@.len() as int) <= value@.len(),
            freed(*old(free)) == MambaFreed::none(),
        ensures
            final(self).wf(),
            final(self)@ == old(self)@.passed_all(chain@),
            final(self)@ == (MambaState { full: final(self)@.full, ..old(self)@ }),
            final(self)@.full_size() == old(self)@.full_size(),
            freed(*final(free)) == (MambaFreed {
                kv: old(self)@.overlaps(chain@, chain@.len(), value@, prev as int),
                mamba: Seq::empty(),
            }),
            total == old(self)@.depth(chain@, chain@.len()),
    {
        let ghost base = self@;
        let mut total: usize = 0;
        let mut k: usize = 0;
        assert(chain@.take(0) =~= Seq::<NodeId>::empty());
        while k < chain.len()
            invariant
                self.wf(),
                base.wf(),
                mamba_model::chain_of(base, chain@),
                chains::tokens(base.shape, chain@, chain@.len() as int) <= value@.len(),
                k <= chain@.len(),
                self@ == base.passed_all(chain@.take(k as int)),
                self@ == (MambaState { full: self@.full, ..base }),
                self@.full_size() == base.full_size(),
                freed(*free) == (MambaFreed {
                    kv: base.overlaps(chain@, k as nat, value@, prev as int),
                    mamba: Seq::empty(),
                }),
                total == base.depth(chain@, k as nat),
            decreases chain@.len() - k,
        {
            let c = chain[k];
            let ghost cur = self@;
            proof {
                assert(base.live(chain@[k as int]));
                lemma_depth_bound(base, chain@, k as int);
                let t = chain@.take(k + 1);
                assert(t.drop_last() =~= chain@.take(k as int));
                assert(t.last() == c);
                mamba_model::lemma_passed(cur, c);
                assert(cur.nodes[c as int] == self.nodes@[c as int]@);
            }
            self.pass(c);
            assert(self@.nodes[c as int] == self.nodes@[c as int]@);
            let len: usize = match &self.nodes[c as usize].value {
                Some(v) => v.len(),
                None => 0,
            };
            hand_back(free, value, total, len, prev);
            assert(total + len <= value.len());
            total = total + len;
            k += 1;
        }
        assert(chain@.take(chain@.len() as int) =~= chain@);
        total
    }

    /// Gives a tombstone a state.
    fn revive(&mut self, id: NodeId, slot: Vec<i64>)
        requires
            old(self).wf(),
            old(self)@.live(id),
            old(self)@.nodes[id as int].mamba is None,
            slot@.len() == 1,
        ensures
            final(self).wf(),
            final(self)@ == old(self)@.revived(id, slot@),
    {
        let ghost st = self@;
        let ghost t = st.revived(id, slot@);
        proof {
            mamba_model::lemma_revived(st, id, slot@);
            mamba_model::law_sizes_add_up(st);
            mamba_model::law_sizes_add_up(t);
            assert(st.nodes[id as int] == self.nodes@[id as int]@);
            assert(t.count(MambaCounter::MambaEvictable) <= i64::MAX);
        }
        let now = self.tick();
        self.stamp_mamba(id, now);
        let seen = self.tick();
        self.stamp(id, seen);
        proof {
            assert(self@.nodes[id as int] == self.nodes@[id as int]@);
        }
        self.nodes[id as usize].mamba_value = Some(slot);
        self.mamba_lru.insert_mru(id);
        self.mamba_evictable_size = self.mamba_evictable_size + 1;
        proof {
            assert(self@.nodes =~= t.nodes);
            assert(self@ =~= t);
            assert(self@.frame() == self.trunk@);
        }
    }

    /// Adds an unlocked leaf with a state below `parent`.
    fn add_new_node(&mut self, parent: NodeId, ns: u32, key: Vec<i64>, value: Vec<i64>, slot: Vec<i64>) -> (new_id: NodeId)
        requires
            old(self).wf(),
            old(self)@.shape.has(parent),
            old(self)@.shape.nodes[parent as int].attached,
            old(self)@.nodes.len() < NodeId::MAX,
            key@.len() > 0,
            old(self)@.shape.aligned(key@.len() as int),
            value@.len() == key@.len() as int / old(self)@.shape.unit as int,
            slot@.len() == 1,
            parent != ROOT ==> old(self)@.shape.nodes[parent as int].ns == ns,
            ns < old(self)@.names.len(),
            old(self)@.shape.child_of(parent, ns, key@.take(old(self)@.shape.chunk() as int)) is None,
            old(self)@.full_size() + value@.len() <= i64::MAX,
            old(self)@.full_size() + value@.len() <= usize::MAX,
        ensures
            final(self).wf(),
            new_id == old(self)@.nodes.len(),
            final(self)@ == old(self)@.grown(parent, ns, key@, value@, slot@),
    {
        let ghost st = self@;
        let ghost t = st.grown(parent, ns, key@, value@, slot@);
        proof {
            mamba_model::lemma_grown(st, parent, ns, key@, value@, slot@);
            mamba_model::law_sizes_add_up(st);
            mamba_model::law_sizes_add_up(t);
            assert(t.count(MambaCounter::FullEvictable) <= i64::MAX);
            assert(t.count(MambaCounter::MambaEvictable) <= i64::MAX);
        }
        let n = value.len();
        let new_id = self.trunk.topo.graft(parent, ns, key);
        let last_access = self.tick_raw();
        let mamba_last_access = self.tick_raw();
        self.nodes.push(
            MambaNode {
                value: Some(value),
                mamba_value: Some(slot),
                full_lock_ref: 0,
                mamba_lock_ref: 0,
                last_access,
                mamba_last_access,
                id: new_id,
            },
        );
        self.grow_lists();
        proof {
            assert(!st.full.contains(new_id) && !st.mamba.contains(new_id));
        }
        self.full_lru.insert_mru(new_id);
        self.mamba_lru.insert_mru(new_id);
        self.full_evictable_size = self.full_evictable_size + n as i64;
        self.mamba_evictable_size = self.mamba_evictable_size + 1;
        proof {
            assert(self@.nodes =~= t.nodes);
            assert(self@ =~= t);
            assert(self@.frame() == self.trunk@);
        }
        new_id
    }

    /// The last of `visited` with a state, and how many nodes up to it.
    fn best(&self, visited: &Vec<NodeId>) -> (r: (usize, NodeId))
        requires
            self.wf(),
            mamba_model::chain_of(self@, visited@),
        ensures
            self@.best(visited@) == (r.0 as nat, r.1),
            r.0 <= visited@.len(),
            r.1 == ROOT || self@.live(r.1),
    {
        let ghost at = self@;
        let mut best_len: usize = 0;
        let mut best_node: NodeId = ROOT;
        let mut k: usize = 0;
        assert(visited@.take(0) =~= Seq::<NodeId>::empty());
        while k < visited.len()
            invariant
                self.wf(),
                self@ == at,
                k <= visited@.len(),
                mamba_model::chain_of(at, visited@),
                at.best(visited@.take(k as int)) == (best_len as nat, best_node),
                best_len <= k,
                best_node == ROOT || at.live(best_node),
            decreases visited@.len() - k,
        {
            let c = visited[k];
            proof {
                assert(at.live(visited@[k as int]));
                assert(at.nodes[c as int] == self.nodes@[c as int]@);
                let t = visited@.take(k + 1);
                assert(t.drop_last() =~= visited@.take(k as int));
                assert(t.last() == c);
            }
            k += 1;
            if self.nodes[c as usize].mamba_value.is_some() {
                best_len = k;
                best_node = c;
            }
        }
        assert(visited@.take(visited@.len() as int) =~= visited@);
        (best_len, best_node)
    }

    /// The runs of the first `len` nodes of `visited`.
    fn gather(&self, visited: &Vec<NodeId>, len: usize) -> (r: Vec<i64>)
        requires
            self.wf(),
            mamba_model::chain_of(self@, visited@),
            len <= visited@.len(),
        ensures
            r@ == self@.gathered(visited@.take(len as int)),
    {
        let mut indices: Vec<i64> = Vec::new();
        let mut j: usize = 0;
        assert(visited@.take(0) =~= Seq::<NodeId>::empty());
        while j < len
            invariant
                self.wf(),
                j <= len <= visited@.len(),
                mamba_model::chain_of(self@, visited@),
                indices@ == self@.gathered(visited@.take(j as int)),
            decreases len - j,
        {
            proof {
                assert(self@.live(visited@[j as int]));
                let t = visited@.take(j + 1);
                assert(t.drop_last() =~= visited@.take(j as int));
                assert(t.last() == visited@[j as int]);
            }
            let run = self.run_of(visited[j]);
            append_run(&mut indices, run.as_slice());
            j += 1;
        }
        indices
    }

    /// One full lock more on the nodes `ids`.
    fn lock_path(&mut self, ids: &Vec<NodeId>)
        requires
            old(self).wf(),
            mamba_model::chain_of(old(self)@, ids@),
            forall|k: int| 0 <= k < ids@.len() ==> old(self)@.nodes[(#[trigger] ids@[k]) as int].full_lock < u32::MAX,
        ensures
            final(self).wf(),
            final(self)@ == old(self)@.full_locked(ids@),
            final(self).full_evictable_size <= old(self).full_evictable_size,
            final(self).mamba_evictable_size == old(self).mamba_evictable_size,
    {
        let ghost st = self@;
        let before = self.full_evictable_size;
        let mamba_before = self.mamba_evictable_size;
        let mut k: usize = 0;
        proof {
            assert(ids@.take(0) =~= Seq::<NodeId>::empty());
            assert(self@ =~= st.full_locked(ids@.take(0)));
        }
        while k < ids.len()
            invariant
                self.wf(),
                st.wf(),
                k <= ids@.len(),
                mamba_model::chain_of(st, ids@),
                self@ == st.full_locked(ids@.take(k as int)),
                self.full_evictable_size <= before,
                self.mamba_evictable_size == mamba_before,
                forall|j: int| 0 <= j < ids@.len() ==> st.nodes[(#[trigger] ids@[j]) as int].full_lock < u32::MAX,
            decreases ids@.len() - k,
        {
            let id = ids[k];
            proof {
                assert(st.live(ids@[k as int]));
                assert(st.node_ok(id as int));
                lemma_path_step(st, ids@, k as int);
                assert(self@.nodes[id as int] == self.nodes@[id as int]@);
            }
            let full_lock = self.nodes[id as usize].full_lock_ref;
            let mamba_lock = self.nodes[id as usize].mamba_lock_ref;
            self.set_locks(id, full_lock + 1, mamba_lock);
            k += 1;
        }
        assert(ids@.take(ids@.len() as int) =~= ids@);
    }

    /// One full lock less on the nodes `ids`.
    fn unlock_path(&mut self, ids: &Vec<NodeId>)
        requires
            old(self).wf(),
            mamba_model::chain_of(old(self)@, ids@),
            forall|k: int|
                0 <= k < ids@.len() ==> {
                    let n = old(self)@.nodes[(#[trigger] ids@[k]) as int];
                    n.full_lock > n.mamba_lock
                },
        ensures
            final(self).wf(),
            final(self)@ == old(self)@.full_unlocked(ids@),
            final(self).full_evictable_size >= old(self).full_evictable_size,
            final(self).mamba_evictable_size == old(self).mamba_evictable_size,
    {
        let ghost st = self@;
        let before = self.full_evictable_size;
        let mamba_before = self.mamba_evictable_size;
        let mut k: usize = 0;
        proof {
            assert(ids@.take(0) =~= Seq::<NodeId>::empty());
            assert(self@ =~= st.full_unlocked(ids@.take(0)));
        }
        while k < ids.len()
            invariant
                self.wf(),
                st.wf(),
                k <= ids@.len(),
                mamba_model::chain_of(st, ids@),
                self@ == st.full_unlocked(ids@.take(k as int)),
                self.full_evictable_size >= before,
                self.mamba_evictable_size == mamba_before,
                forall|j: int|
                    0 <= j < ids@.len() ==> {
                        let n = st.nodes[(#[trigger] ids@[j]) as int];
                        n.full_lock > n.mamba_lock
                    },
            decreases ids@.len() - k,
        {
            let id = ids[k];
            proof {
                assert(st.live(ids@[k as int]));
                assert(st.node_ok(id as int));
                lemma_path_step(st, ids@, k as int);
                assert(self@.nodes[id as int] == self.nodes@[id as int]@);
            }
            let full_lock = self.nodes[id as usize].full_lock_ref;
            let mamba_lock = self.nodes[id as usize].mamba_lock_ref;
            self.set_locks(id, full_lock - 1, mamba_lock);
            k += 1;
        }
        assert(ids@.take(ids@.len() as int) =~= ids@);
    }

    /// Sets the locks of one live node, with the counters that follow.
    fn set_locks(&mut self, id: NodeId, full_lock: u32, mamba_lock: u32)
        requires
            old(self).wf(),
            old(self)@.live(id),
            full_lock >= mamba_lock,
            old(self)@.nodes[id as int].mamba is None ==> mamba_lock == 0,
        ensures
            final(self).wf(),
            final(self)@ == old(self)@.patched(
                id,
                MambaNodeState { full_lock, mamba_lock, ..old(self)@.nodes[id as int] },
            ),
            full_lock > 0 ==> final(self).full_evictable_size <= old(self).full_evictable_size,
            old(self)@.nodes[id as int].full_lock > 0 ==> final(self).full_evictable_size
                >= old(self).full_evictable_size,
            full_lock == old(self)@.nodes[id as int].full_lock ==> final(self).full_evictable_size
                == old(self).full_evictable_size,
            mamba_lock > 0 ==> final(self).mamba_evictable_size <= old(self).mamba_evictable_size,
            old(self)@.nodes[id as int].mamba_lock > 0 ==> final(self).mamba_evictable_size
                >= old(self).mamba_evictable_size,
            mamba_lock == old(self)@.nodes[id as int].mamba_lock ==> final(self).mamba_evictable_size
                == old(self).mamba_evictable_size,
    {
        let ghost st = self@;
        let ghost n = MambaNodeState { full_lock, mamba_lock, ..st.nodes[id as int] };
        let ghost t = st.patched(id, n);
        proof {
            assert(st.mamba.contains(id) <==> st.stateful(id));
            assert(st.node_ok(id as int));
            mamba_model::lemma_patched(st, id, n, st.mamba);
            assert(t == (MambaState { mamba: st.mamba, ..t }));
            mamba_model::law_sizes_add_up(st);
            mamba_model::law_sizes_add_up(t);
            chains::lemma_units(st.shape, id as int);
            assert(st.nodes[id as int] == self.nodes@[id as int]@);
            assert(t.count(MambaCounter::FullEvictable) >= 0 && t.count(MambaCounter::FullEvictable) <= i64::MAX);
            assert(t.count(MambaCounter::FullProtected) >= 0 && t.count(MambaCounter::FullProtected) <= i64::MAX);
            assert(t.count(MambaCounter::MambaEvictable) >= 0 && t.count(MambaCounter::MambaEvictable) <= i64::MAX);
            assert(t.count(MambaCounter::MambaProtected) >= 0 && t.count(MambaCounter::MambaProtected) <= i64::MAX);
        }
        let l = self.trunk.topo.units(id) as i64;
        let was_full = self.nodes[id as usize].full_lock_ref;
        let was_mamba = self.nodes[id as usize].mamba_lock_ref;
        let state = self.nodes[id as usize].mamba_value.is_some();
        self.nodes[id as usize].full_lock_ref = full_lock;
        self.nodes[id as usize].mamba_lock_ref = mamba_lock;
        if was_full == 0 && full_lock > 0 {
            self.full_evictable_size = self.full_evictable_size - l;
            self.full_protected_size = self.full_protected_size + l;
        } else if was_full > 0 && full_lock == 0 {
            self.full_evictable_size = self.full_evictable_size + l;
            self.full_protected_size = self.full_protected_size - l;
        }
        if state && was_mamba == 0 && mamba_lock > 0 {
            self.mamba_evictable_size = self.mamba_evictable_size - 1;
            self.mamba_protected_size = self.mamba_protected_size + 1;
        } else if state && was_mamba > 0 && mamba_lock == 0 {
            self.mamba_evictable_size = self.mamba_evictable_size + 1;
            self.mamba_protected_size = self.mamba_protected_size - 1;
        }
        proof {
            assert(self@.nodes =~= t.nodes);
            assert(self@ =~= t);
            assert(self@.frame() == self.trunk@);
        }
    }

    /// The walk of a match: the nodes it visits and the flattened elements
    /// it passes.
    fn visit(&mut self, key: &RadixKey, flat: &[i64]) -> (r: (Vec<NodeId>, usize))
        requires
            old(self).wf(),
            old(self)@.nodes.len() < NodeId::MAX,
            old(self)@.names.len() < u32::MAX,
            flat@ == old(self)@.frame().flat(*key),
        ensures
            final(self).wf(),
            (final(self)@, r.0@) == old(self)@.after_walk(*key),
            mamba_model::chain_of(final(self)@, r.0@),
            r.1 == old(self)@.frame().walk(*key).used,
            final(self)@.shape.unit == old(self)@.shape.unit,
    {
        let ghost st = self@;
        let (ns, path) = self.enter(key, flat);
        let ghost w = st.frame().walk(*key);
        let ghost base = self@;
        proof {
            query::lemma_query(st.frame(), *key);
            assert forall|j: int| 0 <= j < w.chain.len() implies base.live(#[trigger] w.chain[j]) by {
                assert(base.node_ok(w.chain[j] as int));
            }
        }
        let used = path.used;
        let mut visited = path.chain;
        if let Some((c, m)) = path.stop {
            proof {
                assert(base.node_ok(c as int));
                mamba_model::lemma_cut_chain(base, w.chain, c, m as int);
            }
            let f = self.split_node(c, m);
            visited.push(f);
        }
        (visited, used)
    }

    /// Interns the key's namespace and follows its flattened form.
    fn enter(&mut self, key: &RadixKey, flat: &[i64]) -> (r: (u32, topo::WalkPath))
        requires
            old(self).wf(),
            old(self)@.names.len() < u32::MAX,
            flat@ == old(self)@.frame().flat(*key),
        ensures
            final(self).wf(),
            final(self)@ == (MambaState { names: old(self)@.frame().names_with(*key), ..old(self)@ }),
            r.0 == old(self)@.frame().ns_of(*key),
            r.0 < final(self)@.names.len(),
            r.1@ == old(self)@.frame().walk(*key),
            final(self)@.full_size() == old(self)@.full_size(),
    {
        let ghost st = self@;
        assert(st.frame() == self.trunk@);
        let r = self.trunk.enter(key, flat);
        proof {
            assert(self@ =~= (MambaState { names: st.frame().names_with(*key), ..st }));
            mamba_model::lemma_reordered(st, self@);
        }
        r
    }

    /// Moves the path up from `node` to the front of the full list, stamped
    /// deepest first, and `node` to the front of the mamba list.
    fn refresh(&mut self, node: NodeId)
        requires
            old(self).wf(),
            node == ROOT || old(self)@.live(node),
        ensures
            final(self).wf(),
            final(self)@ == old(self)@.refreshed(node),
    {
        let ghost st = self@;
        proof {
            mamba_model::lemma_refreshed(st, node);
            mamba_model::lemma_up_live(st, node);
        }
        let seen = self.tick();
        self.stamp_mamba(node, seen);
        let mut now = self.tick();
        let up = self.trunk.topo.up(node);
        let mut k: usize = 0;
        while k < up.len()
            invariant
                self.wf(),
                self@ == st,
                k <= up@.len(),
                up@ == st.shape.up(node),
                forall|j: int| 0 <= j < up@.len() ==> st.live(#[trigger] up@[j]),
            decreases up@.len() - k,
        {
            self.stamp(up[k], now);
            if now > 0 {
                now = now - 1;
            }
            k += 1;
        }
        self.stamp(ROOT, now);
        self.full_lru.lift(&up);
        self.mamba_lru.reset_mru(node);
        proof {
            assert(self@ =~= st.refreshed(node));
            assert(self@.frame() == self.trunk@);
        }
    }

    /// An insert walk passes `id`.
    fn pass(&mut self, id: NodeId)
        requires
            old(self).wf(),
            id < old(self)@.nodes.len(),
        ensures
            final(self).wf(),
            final(self)@ == old(self)@.passed(id),
    {
        let ghost st = self@;
        let now = self.tick();
        self.stamp(id, now);
        proof {
            mamba_model::lemma_passed(st, id);
        }
        self.full_lru.reset_mru(id);
        proof {
            assert(self@ =~= st.passed(id));
            assert(self@.frame() == self.trunk@);
        }
    }

    /// The next clock tick.
    fn tick(&mut self) -> (now: u64)
        requires
            old(self).wf(),
        ensures
            final(self).wf(),
            final(self)@ == old(self)@,
    {
        self.tick_raw()
    }

    /// The next clock tick, where the tree is being rebuilt.
    fn tick_raw(&mut self) -> (now: u64)
        ensures
            *final(self) == (MambaRadixTree { clock: now, ..*old(self) }),
    {
        if self.clock < u64::MAX {
            self.clock = self.clock + 1;
        }
        self.clock
    }

    /// Marks a visit of `id`.
    fn stamp(&mut self, id: NodeId, now: u64)
        requires
            old(self).wf(),
            id < old(self)@.nodes.len(),
        ensures
            final(self).wf(),
            final(self)@ == old(self)@,
    {
        let ghost st = self@;
        self.nodes[id as usize].last_access = now;
        assert(self@.nodes =~= st.nodes);
    }

    /// Marks a use of the state of `id`.
    fn stamp_mamba(&mut self, id: NodeId, now: u64)
        requires
            old(self).wf(),
            id < old(self)@.nodes.len(),
        ensures
            final(self).wf(),
            final(self)@ == old(self)@,
    {
        let ghost st = self@;
        self.nodes[id as usize].mamba_last_access = now;
        assert(self@.nodes =~= st.nodes);
    }

    /// A copy of a node's run.
    fn run_of(&self, id: NodeId) -> (r: Vec<i64>)
        requires
            self.wf(),
            self@.live(id),
        ensures
            r@ == self@.run(id),
    {
        assert(self@.nodes[id as int] == self.nodes@[id as int]@);
        match &self.nodes[id as usize].value {
            Some(v) => copy_range(v.as_slice(), 0, v.len()),
            None => Vec::new(),
        }
    }

    /// A copy of a node's state slot.
    fn slot_of(&self, id: NodeId) -> (r: Vec<i64>)
        requires
            self.wf(),
            self@.stateful(id),
        ensures
            r@ == self@.nodes[id as int].mamba->0,
    {
        assert(self@.nodes[id as int] == self.nodes@[id as int]@);
        match &self.nodes[id as usize].mamba_value {
            Some(v) => copy_range(v.as_slice(), 0, v.len()),
            None => Vec::new(),
        }
    }

    /// Adds a slot for one more node to both lists.
    fn grow_lists(&mut self)
        requires
            old(self).full_lru.wf(),
            old(self).mamba_lru.wf(),
            old(self).full_lru.capacity() <= old(self).nodes@.len(),
            old(self).mamba_lru.capacity() <= old(self).nodes@.len(),
        ensures
            *final(self) == (MambaRadixTree {
                full_lru: final(self).full_lru,
                mamba_lru: final(self).mamba_lru,
                ..*old(self)
            }),
            final(self).full_lru.wf(),
            final(self).mamba_lru.wf(),
            final(self).full_lru@ == old(self).full_lru@,
            final(self).mamba_lru@ == old(self).mamba_lru@,
            final(self).full_lru.capacity() == old(self).nodes@.len(),
            final(self).mamba_lru.capacity() == old(self).nodes@.len(),
    {
        proof {
            self.full_lru.lemma_members();
            self.mamba_lru.lemma_members();
        }
        let n = self.nodes.len();
        self.full_lru.grow(n);
        self.mamba_lru.grow(n);
    }

    /// Cuts `child` after `m` flattened elements and returns the new front
    /// node, a tombstone; `child` becomes the tail and keeps the state.
    fn split_node(&mut self, child: NodeId, m: usize) -> (new_id: NodeId)
        requires
            old(self).wf(),
            old(self)@.live(child),
            old(self)@.nodes.len() < NodeId::MAX,
            0 < m < old(self)@.shape.nodes[child as int].key.len(),
            old(self)@.shape.aligned(m as int),
        ensures
            final(self).wf(),
            new_id == old(self)@.nodes.len(),
            final(self)@ == old(self)@.cut(child, m as int),
            final(self)@.full_size() == old(self)@.full_size(),
    {
        let ghost st = self@;
        let ghost t = st.cut(child, m as int);
        proof {
            mamba_model::lemma_cut(st, child, m as int);
            assert(st.nodes[child as int] == self.nodes@[child as int]@);
            assert(st.full.contains(child));
        }
        let units = m / self.trunk.topo.unit_size();
        let new_id = self.trunk.topo.split(child, m);
        let front_access = self.tick_raw();
        let tail_access = self.tick_raw();
        let mut front: Vec<i64> = Vec::new();
        let mut tail: Vec<i64> = Vec::new();
        if let Some(v) = &self.nodes[child as usize].value {
            front = copy_range(v.as_slice(), 0, units);
            tail = copy_range(v.as_slice(), units, v.len());
        }
        proof {
            let v = st.run(child);
            assert(front@ =~= v.take(units as int));
            assert(tail@ =~= v.skip(units as int));
        }
        let full_lock_ref = self.nodes[child as usize].full_lock_ref;
        self.nodes[child as usize].value = Some(tail);
        self.nodes[child as usize].last_access = tail_access;
        self.nodes.push(
            MambaNode {
                value: Some(front),
                mamba_value: None,
                full_lock_ref,
                mamba_lock_ref: 0,
                last_access: front_access,
                mamba_last_access: 0,
                id: new_id,
            },
        );
        self.grow_lists();
        // The child goes in last: it is the more recently used half.
        self.full_lru.remove(child);
        proof {
            lru::lemma_gone(st.full, child, new_id);
        }
        self.full_lru.insert_mru(new_id);
        proof {
            lru::lemma_pair(st.full, child, new_id);
        }
        self.full_lru.insert_mru(child);
        proof {
            assert(self@.nodes =~= t.nodes);
            assert(self@ =~= t);
            assert(self@.frame() == self.trunk@);
        }
        new_id
    }
}

/// Hands back the overlap of `len` tokens, `total` tokens into the key, past
/// `prev` tokens.
fn hand_back(free: &mut MambaFreeOps, value: &[i64], total: usize, len: usize, prev: usize)
    requires
        total + len <= value@.len(),
    ensures
        freed(*final(free)) == (MambaFreed {
            kv: freed(*old(free)).kv + MambaState::overlap(value@, total as int, len as int, prev as int),
            ..freed(*old(free))
        }),
{
    let ghost before = freed(*free);
    assert(total + len <= value.len());
    if prev < total + len {
        let start: usize = if prev > total {
            prev - total
        } else {
            0
        };
        let run = copy_range(value, total + start, total + len);
        let ghost x = (run@, (total + start) as int);
        free.kv.push((run, total + start));
        proof {
            assert(segments(free.kv@) =~= before.kv + seq![x]);
        }
    } else {
        assert(before.kv + Seq::<(Seq<i64>, int)>::empty() =~= before.kv);
    }
}

/// One more KV run.
proof fn lemma_push_segment(v: Seq<(Vec<i64>, usize)>, x: Vec<i64>, at: usize)
    ensures
        segments(v.push((x, at))) == segments(v).push((x@, at as int)),
{
    assert(segments(v.push((x, at))) =~= segments(v).push((x@, at as int)));
}

/// The first nodes of a chain hold no more tokens than all of it.
proof fn lemma_depth_bound(st: MambaState, ids: Seq<NodeId>, k: int)
    requires
        st.wf(),
        mamba_model::chain_of(st, ids),
        0 <= k < ids.len(),
    ensures
        st.depth(ids, k as nat) >= 0,
        st.depth(ids, (k + 1) as nat) == st.depth(ids, k as nat) + st.run(ids[k]).len(),
        st.depth(ids, (k + 1) as nat) <= chains::tokens(st.shape, ids, ids.len() as int),
{
    assert forall|n: int| 0 <= n < ids.len() implies st.shape.units((#[trigger] ids[n]) as int) >= 0 by {
        assert(st.live(ids[n]));
        chains::lemma_units(st.shape, ids[n] as int);
    }
    mamba_model::lemma_depth(st, ids, (k + 1) as nat);
    mamba_model::lemma_depth(st, ids, k as nat);
    chains::lemma_tokens_le(st.shape, ids, 0, k);
    chains::lemma_tokens_le(st.shape, ids, k + 1, ids.len() as int);
}

/// What is handed back along a chain rests on the runs alone.
proof fn lemma_walk_same(a: MambaState, b: MambaState, chain: Seq<NodeId>, k: nat, val: Seq<i64>, prev: int)
    requires
        a.nodes == b.nodes,
    ensures
        a.depth(chain, k) == b.depth(chain, k),
        a.overlaps(chain, k, val, prev) == b.overlaps(chain, k, val, prev),
    decreases k,
{
    if k > 0 {
        lemma_walk_same(a, b, chain, (k - 1) as nat, val, prev);
    }
}

/// What an insert needs of its walk.
proof fn lemma_insert_path(st: MambaState, base: MambaState, key: RadixKey)
    requires
        st.wf(),
        base.wf(),
        base.nodes == st.nodes,
        base.shape == st.shape,
        st.frame().fits(key),
    ensures
        ({
            let w = st.frame().walk(key);
            let ns = st.frame().ns_of(key);
            let flat = st.frame().flat(key);
            let unit = st.shape.unit as int;
            let n = chains::tokens(base.shape, w.chain, w.chain.len() as int);
            let end = topo::end_of(w.chain);
            let k = st.shape.chunk() as int;
            &&& mamba_model::chain_of(base, w.chain)
            &&& n == base.depth(w.chain, w.chain.len())
            &&& n <= st.frame().units(key)
            &&& st.shape.has(end)
            &&& st.shape.nodes[end as int].attached
            &&& end != ROOT ==> st.shape.nodes[end as int].ns == ns
            &&& match w.stop {
                None => {
                    &&& w.used > 0 ==> w.chain.len() > 0
                    &&& w.used < flat.len() ==> st.shape.child_of(end, ns, flat.skip(w.used as int).take(k)) is None
                },
                Some((c, m)) => {
                    &&& base.live(c)
                    &&& st.shape.nodes[c as int].ns == ns
                    &&& 0 < m < st.shape.nodes[c as int].key.len()
                    &&& st.shape.aligned(m as int)
                    &&& n + m as int / unit <= st.frame().units(key)
                    &&& w.used < flat.len() ==> flat.skip(w.used as int).take(k)
                        != st.shape.nodes[c as int].key.skip(m as int).take(k)
                },
            }
        }),
{
    let f = st.frame();
    let w = f.walk(key);
    query::lemma_query(f, key);
    chains::lemma_key_tokens(f, key);
    assert forall|j: int| 0 <= j < w.chain.len() implies base.live(#[trigger] w.chain[j]) by {
        assert(base.node_ok(w.chain[j] as int));
    }
    mamba_model::lemma_depth(base, w.chain, w.chain.len());
    if let Some((c, m)) = w.stop {
        assert(base.node_ok(c as int));
    } else if w.used > 0 && w.chain.len() == 0 {
        assert(w.used as int / st.shape.unit as int > 0) by {
            tree_model::lemma_halves(w.used as int, 0, st.shape.unit as int);
        }
    }
}

/// `n` rounded down to a multiple of `grain`.
fn floor_to(n: usize, grain: usize) -> (r: usize)
    requires
        grain >= 1,
    ensures
        r == n as int / grain as int * grain,
{
    proof {
        let (t, c) = (n as int, grain as int);
        vstd::arithmetic::div_mod::lemma_fundamental_div_mod(t, c);
        vstd::arithmetic::div_mod::lemma_mod_bound(t, c);
        vstd::arithmetic::div_mod::lemma_div_pos_is_pos(t, c);
        vstd::arithmetic::mul::lemma_mul_is_commutative(t / c, c);
        vstd::arithmetic::mul::lemma_mul_nonnegative(t / c, c);
    }
    n / grain * grain
}

/// What is gathered rests on the runs alone.
proof fn lemma_gathered_same(a: MambaState, b: MambaState, ids: Seq<NodeId>)
    requires
        a.nodes == b.nodes,
    ensures
        a.gathered(ids) == b.gathered(ids),
    decreases ids.len(),
{
    if ids.len() > 0 {
        lemma_gathered_same(a, b, ids.drop_last());
    }
}

/// One more node of a path locked or unlocked.
proof fn lemma_path_step(st: MambaState, ids: Seq<NodeId>, k: int)
    requires
        ids.no_duplicates(),
        0 <= k < ids.len(),
        ids[k] < st.nodes.len(),
        st.nodes.len() <= NodeId::MAX,
    ensures
        ({
            let x = ids[k];
            let n = st.nodes[x as int];
            let a = st.full_locked(ids.take(k));
            let b = st.full_unlocked(ids.take(k));
            &&& a.nodes[x as int] == n
            &&& b.nodes[x as int] == n
            &&& st.full_locked(ids.take(k + 1)) == a.patched(
                x,
                MambaNodeState { full_lock: (n.full_lock + 1) as u32, ..n },
            )
            &&& st.full_unlocked(ids.take(k + 1)) == b.patched(
                x,
                MambaNodeState { full_lock: (n.full_lock - 1) as u32, ..n },
            )
        }),
{
    let x = ids[k];
    let n = st.nodes[x as int];
    chains::lemma_not_before(ids, k);
    assert(ids.take(k + 1) =~= ids.take(k).push(x));
    let a = st.full_locked(ids.take(k)).patched(x, MambaNodeState { full_lock: (n.full_lock + 1) as u32, ..n });
    let b = st.full_unlocked(ids.take(k)).patched(x, MambaNodeState { full_lock: (n.full_lock - 1) as u32, ..n });
    assert forall|i: int| 0 <= i < st.nodes.len() implies st.full_locked(ids.take(k + 1)).nodes[i] == a.nodes[i]
        && st.full_unlocked(ids.take(k + 1)).nodes[i] == b.nodes[i] by {
        tree_model::lemma_push_contains(ids.take(k), x, i as NodeId);
    }
    assert(st.full_locked(ids.take(k + 1)).nodes =~= a.nodes);
    assert(st.full_unlocked(ids.take(k + 1)).nodes =~= b.nodes);
}

} // verus!
