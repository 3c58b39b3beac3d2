//! The sliding-window-attention (SWA) dual-counter radix tree.
//!
//! - Two recency lists order the nodes; they are moved by every match and
//!   insert walk, so the eviction order is deterministic. A `last_access`
//!   tick is kept per node for inspection, but it orders nothing.
//! - The allocator does not live inside the tree. Every run an operation
//!   wants released is returned to the caller on the result type, in order.
//! - A match truncates the *list of node runs*, not the tokens, to its best
//!   usable prefix.
//!
//! What each operation does to the tree is stated over `SWAState`.

use crate::key::RadixKey;
use crate::lru;
use crate::lru::{LRUList, Lru};
use crate::query;
use crate::query::Trunk;
use crate::seqs;
use crate::seqs::{append_run, copy_range};
use crate::swa_model;
use crate::swa_model::{Counter, Freed, SWANodeState, SWAState, Tally};
use crate::topo;
use crate::topo::{NodeId, ROOT};
use crate::tree;
use crate::tree::runs_of;
use crate::tree_model;
use vstd::prelude::*;

verus! {

/// What one node caches. Where the node stands is kept by the tree's
/// topology under the same id.
#[derive(Debug, Clone)]
pub struct SWANode {
    /// One KV index per logical unit. `None` = the node was deleted from the
    /// tree.
    pub value: Option<Vec<i64>>,
    /// Invariant: `full_lock_ref >= swa_lock_ref` always.
    pub full_lock_ref: u32,
    pub swa_lock_ref: u32,
    /// The SWA pool slots of this node are freed while the full KV stays
    /// alive (leaf early-release or an internal-node SWA evict).
    pub swa_tombstone: bool,
    /// Marks the node where a request's SWA lock stops (the `inc_lock_ref`
    /// window boundary); the split front node inherits it, the tail loses
    /// it.
    pub swa_uuid: Option<u64>,
    /// Tick of the last visit.
    pub last_access: u64,
    pub id: NodeId,
}

impl SWANode {
    /// The node as the model describes it.
    pub open spec fn view(&self) -> SWANodeState {
        SWANodeState {
            value: match self.value {
                Some(v) => Some(v@),
                None => None,
            },
            full_lock: self.full_lock_ref,
            swa_lock: self.swa_lock_ref,
            tombstone: self.swa_tombstone,
            uuid: self.swa_uuid,
        }
    }
}

/// The nodes as the model describes them.
pub open spec fn node_states(nodes: Seq<SWANode>) -> Seq<SWANodeState> {
    Seq::new(nodes.len(), |i: int| nodes[i]@)
}

/// Bookkeeping of the KV runs an operation wants released.
#[derive(Debug, Clone, PartialEq, Eq)]
pub struct FreeOps {
    /// Full + mapped SWA slots.
    pub kv: Vec<Vec<i64>>,
    /// Full slots only.
    pub full: Vec<Vec<i64>>,
    /// SWA slots only.
    pub swa: Vec<Vec<i64>>,
}

impl Default for FreeOps {
    fn default() -> (r: Self)
        ensures
            freed(r, Seq::empty()) == Freed::none(),
    {
        let r = FreeOps { kv: Vec::new(), full: Vec::new(), swa: Vec::new() };
        assert(freed(r, Seq::empty()) =~= Freed::none());
        r
    }
}

/// Tombstone recovery on a node whose full KV is locked by a running
/// request: the caller keeps `tree_value` and re-points its full-to-SWA
/// mapping at `incoming` (the full slots of `incoming` are reported in
/// `FreeOps.full`, in walk order).
#[derive(Debug, Clone, PartialEq, Eq)]
pub struct SWARecover {
    pub tree_value: Vec<i64>,
    pub incoming: Vec<i64>,
}

/// The recoveries as sequences.
pub open spec fn recoveries(v: Seq<SWARecover>) -> Seq<(Seq<i64>, Seq<i64>)> {
    Seq::new(v.len(), |i: int| (v[i].tree_value@, v[i].incoming@))
}

/// Everything handed back, as the model describes it.
pub open spec fn freed(free: FreeOps, recover: Seq<SWARecover>) -> Freed {
    Freed {
        kv: runs_of(free.kv@),
        full: runs_of(free.full@),
        swa: runs_of(free.swa@),
        recover: recoveries(recover),
    }
}

/// Result of `match_prefix`.
#[derive(Debug, Clone, PartialEq, Eq)]
pub struct SWAMatchResult {
    /// The reusable KV prefix, a whole number of pages.
    pub indices: Vec<i64>,
    /// The node the caller locks.
    pub last_node: NodeId,
}

impl Default for SWAMatchResult {
    fn default() -> (r: Self)
        ensures
            r.indices@ == Seq::<i64>::empty(),
            r.last_node == ROOT,
    {
        SWAMatchResult { indices: Vec::new(), last_node: ROOT }
    }
}

/// Result of `insert`.
#[derive(Debug, Clone, PartialEq, Eq)]
pub struct SWAInsertResult {
    /// Logical tokens already present in the tree.
    pub prefix_len: usize,
    /// The deepest node the walk touched (the new leaf when one was
    /// created).
    pub last_node: NodeId,
    pub free: FreeOps,
    pub recover_locked_full: Vec<SWARecover>,
}

impl Default for SWAInsertResult {
    fn default() -> (r: Self)
        ensures
            r.prefix_len == 0,
            r.last_node == ROOT,
            freed(r.free, r.recover_locked_full@) == Freed::none(),
    {
        let recover_locked_full: Vec<SWARecover> = Vec::new();
        let free = FreeOps::default();
        assert(recover_locked_full@ =~= Seq::<SWARecover>::empty());
        SWAInsertResult { prefix_len: 0, last_node: ROOT, free, recover_locked_full }
    }
}

/// Result of `evict` (dual full/SWA budgets).
#[derive(Debug, Clone, PartialEq, Eq)]
pub struct SWAEvictResult {
    pub full_num_evicted: usize,
    pub swa_num_evicted: usize,
    pub free: FreeOps,
}

impl Default for SWAEvictResult {
    fn default() -> (r: Self)
        ensures
            r.full_num_evicted == 0,
            r.swa_num_evicted == 0,
            freed(r.free, Seq::empty()) == Freed::none(),
    {
        SWAEvictResult { full_num_evicted: 0, swa_num_evicted: 0, free: FreeOps::default() }
    }
}

/// Result of `dec_swa_lock_only`.
#[derive(Debug, Clone, PartialEq, Eq)]
pub struct SWADecResult {
    /// SWA runs the caller must free (leaf early-release).
    pub free_swa: Vec<Vec<i64>>,
}

impl Default for SWADecResult {
    fn default() -> (r: Self)
        ensures
            r.free_swa@.len() == 0,
    {
        SWADecResult { free_swa: Vec::new() }
    }
}

/// The sliding-window tree.
///
/// A walk goes by whole pages: what a key shares with a node is rounded down
/// to them, so a node is only ever cut between two pages, and matches, splits
/// and the runs of nodes are whole pages all over.
#[derive(Clone)]
pub struct SWARadixTree {
    trunk: Trunk,
    nodes: Vec<SWANode>,
    disable: bool,
    sliding_window_size: usize,
    full_evictable_size: i64,
    swa_evictable_size: i64,
    full_protected_size: i64,
    swa_protected_size: i64,
    full_lru: LRUList,
    swa_lru: LRUList,
    /// Last lock-boundary mark given out; starts at 1, so the first mark is 2.
    swa_uuid_counter: u64,
    /// Walk clock.
    clock: u64,
}

impl SWARadixTree {
    /// The state of the tree.
    pub closed spec fn view(&self) -> SWAState {
        SWAState {
            shape: self.trunk.topo@,
            nodes: node_states(self.nodes@),
            names: self.trunk.names@,
            is_eagle: self.trunk.is_eagle,
            disable: self.disable,
            window: self.sliding_window_size as nat,
            uuids: self.swa_uuid_counter,
            full: self.full_lru@,
            swa: self.swa_lru@,
        }
    }

    /// The state is possible and the counters say what follows from it.
    pub closed spec fn wf(&self) -> bool {
        &&& self.trunk.wf()
        &&& self.full_lru.wf()
        &&& self.swa_lru.wf()
        &&& self.full_lru.capacity() == self.nodes@.len()
        &&& self.swa_lru.capacity() == self.nodes@.len()
        &&& self@.wf()
        &&& self.counted()
        &&& forall|i: int| 0 <= i < self.nodes@.len() ==> (#[trigger] self.nodes@[i]).id == i
    }

    /// The counters say what follows from the state.
    closed spec fn counted(&self) -> bool {
        &&& self.full_evictable_size == self@.count(Counter::FullEvictable)
        &&& self.full_protected_size == self@.count(Counter::FullProtected)
        &&& self.swa_evictable_size == self@.count(Counter::SwaEvictable)
        &&& self.swa_protected_size == self@.count(Counter::SwaProtected)
    }

    /// What holds of the state of a well-formed tree.
    pub proof fn lemma_wf(&self)
        requires
            self.wf(),
        ensures
            self@.wf(),
            self@.shape.chunk() <= usize::MAX,
    {
        self.trunk.topo.lemma_wf();
    }

    /// A new tree; `page_size` must be at least 1.
    pub fn new(page_size: usize, is_eagle: bool, sliding_window_size: usize) -> (r: Self)
        requires
            page_size >= 1,
            is_eagle ==> page_size * 2 <= usize::MAX,
        ensures
            r.wf(),
            r@ == SWAState::fresh(page_size as nat, is_eagle, false, sliding_window_size as nat),
    {
        SWARadixTree::empty(page_size, is_eagle, false, sliding_window_size)
    }

    fn empty(page_size: usize, is_eagle: bool, disable: bool, sliding_window_size: usize) -> (r: Self)
        requires
            page_size >= 1,
            is_eagle ==> page_size * 2 <= usize::MAX,
        ensures
            r.wf(),
            r@ == SWAState::fresh(page_size as nat, is_eagle, disable, sliding_window_size as nat),
    {
        let mut nodes: Vec<SWANode> = Vec::new();
        nodes.push(
            SWANode {
                value: Some(Vec::new()),
                full_lock_ref: 1,
                swa_lock_ref: 1,
                swa_tombstone: false,
                swa_uuid: None,
                last_access: 0,
                id: ROOT,
            },
        );
        let mut full_lru = LRUList::default();
        let mut swa_lru = LRUList::default();
        full_lru.grow(1);
        swa_lru.grow(1);
        let r = SWARadixTree {
            trunk: Trunk::new(page_size, is_eagle),
            nodes,
            disable,
            sliding_window_size,
            full_evictable_size: 0,
            swa_evictable_size: 0,
            full_protected_size: 0,
            swa_protected_size: 0,
            full_lru,
            swa_lru,
            swa_uuid_counter: 1,
            clock: 0,
        };
        proof {
            let st = SWAState::fresh(page_size as nat, is_eagle, disable, sliding_window_size as nat);
            assert(r@.nodes[0].value->0 =~= Seq::<i64>::empty());
            assert(r@.nodes =~= st.nodes);
            assert(r@ =~= st);
            reveal_with_fuel(seqs::total, 2);
            assert(st.frame() == r.trunk@);
        }
        r
    }

    /// Recreate the root and clear all bookkeeping.
    pub fn reset(&mut self)
        requires
            old(self).wf(),
        ensures
            final(self).wf(),
            final(self)@ == SWAState::fresh(
                old(self)@.shape.page,
                old(self)@.is_eagle,
                old(self)@.disable,
                old(self)@.window,
            ),
    {
        proof {
            self.lemma_wf();
            topo::lemma_chunk(self@.shape);
        }
        let r = SWARadixTree::empty(
            self.trunk.topo.page_size(),
            self.trunk.is_eagle,
            self.disable,
            self.sliding_window_size,
        );
        *self = r;
    }

    /// The tree with caching switched off (`true`) or on.
    pub fn with_disable(self, disable: bool) -> (r: Self)
        requires
            self.wf(),
        ensures
            r.wf(),
            r@ == (SWAState { disable, ..self@ }),
    {
        let ghost before = self@;
        let mut r = self;
        r.disable = disable;
        proof {
            swa_model::lemma_reordered(before, r@);
        }
        r
    }

    /// Logical units per page.
    pub fn page_size(&self) -> (r: usize)
        requires
            self.wf(),
        ensures
            r == self@.shape.page,
    {
        self.trunk.topo.page_size()
    }

    /// Tokens of the attention window.
    pub fn sliding_window_size(&self) -> (r: usize)
        ensures
            r == self@.window,
    {
        self.sliding_window_size
    }

    /// Logical tokens in nodes without a full lock.
    pub fn full_evictable_size(&self) -> (r: i64)
        requires
            self.wf(),
        ensures
            r == self@.count(Counter::FullEvictable),
    {
        self.full_evictable_size
    }

    /// Logical tokens with window slots and without a window lock.
    pub fn swa_evictable_size(&self) -> (r: i64)
        requires
            self.wf(),
        ensures
            r == self@.count(Counter::SwaEvictable),
    {
        self.swa_evictable_size
    }

    /// Logical tokens in nodes with a full lock.
    pub fn full_protected_size(&self) -> (r: i64)
        requires
            self.wf(),
        ensures
            r == self@.count(Counter::FullProtected),
    {
        self.full_protected_size
    }

    /// Logical tokens with window slots and a window lock.
    pub fn swa_protected_size(&self) -> (r: i64)
        requires
            self.wf(),
        ensures
            r == self@.count(Counter::SwaProtected),
    {
        self.swa_protected_size
    }

    /// Tokens in live nodes, and tokens with live window slots.
    pub fn total_size(&self) -> (r: (i64, i64))
        requires
            self.wf(),
        ensures
            r.0 == self@.full_size(),
            r.1 == self@.swa_size(),
    {
        proof {
            swa_model::law_sizes_add_up(self@);
        }
        let ghost st = self@;
        let mut full: i64 = 0;
        let mut swa: i64 = 0;
        let mut i: usize = 0;
        proof {
            assert forall|j: int| 0 <= j < st.nodes.len() implies st.held(j) >= 0 && st.held_swa(j) >= 0 by {
                if j > 0 {
                    swa_model::lemma_units(st, j);
                }
            }
        }
        while i < self.nodes.len()
            invariant
                self.wf(),
                st == self@,
                i <= self.nodes@.len() == st.nodes.len(),
                full == seqs::total(|j: int| st.held(j), i as nat),
                swa == seqs::total(|j: int| st.held_swa(j), i as nat),
                st.full_size() == seqs::total(|j: int| st.held(j), st.nodes.len()),
                st.swa_size() == seqs::total(|j: int| st.held_swa(j), st.nodes.len()),
                st.swa_size() <= st.full_size() <= i64::MAX,
                forall|j: int| 0 <= j < st.nodes.len() ==> #[trigger] st.held(j) >= 0,
                forall|j: int| 0 <= j < st.nodes.len() ==> #[trigger] st.held_swa(j) >= 0,
            decreases self.nodes@.len() - i,
        {
            proof {
                if i > 0 {
                    assert(st.node_ok(i as int));
                }
                let f = |j: int| st.held(j);
                let g = |j: int| st.held_swa(j);
                seqs::lemma_total_prefix(f, (i + 1) as nat, st.nodes.len());
                seqs::lemma_total_prefix(g, (i + 1) as nat, st.nodes.len());
                seqs::lemma_total_bounds(f, i as nat);
                seqs::lemma_total_bounds(g, i as nat);
                assert(st.nodes[i as int] == self.nodes@[i as int]@);
            }
            let n: usize = match &self.nodes[i].value {
                Some(v) => v.len(),
                None => 0,
            };
            full = full + n as i64;
            if !self.nodes[i].swa_tombstone {
                swa = swa + n as i64;
            }
            i += 1;
        }
        (full, swa)
    }

    /// Live children of a node.
    pub fn node_children(&self, id: NodeId) -> (r: Vec<NodeId>)
        requires
            self.wf(),
        ensures
            r@.no_duplicates(),
            forall|c: NodeId| #[trigger] r@.contains(c) <==> id < self@.nodes.len() && self@.shape.is_child(id, c),
    {
        if (id as usize) < self.nodes.len() {
            self.trunk.topo.children(id)
        } else {
            Vec::new()
        }
    }

    /// Whether the node's window slots are freed.
    pub fn node_tombstone(&self, id: NodeId) -> (r: bool)
        ensures
            r == (id < self@.nodes.len() && self@.nodes[id as int].tombstone),
    {
        (id as usize) < self.nodes.len() && self.nodes[id as usize].swa_tombstone
    }

    /// The full lock count of a node; `u32::MAX` for an unknown id.
    pub fn node_full_lock_ref(&self, id: NodeId) -> (r: u32)
        ensures
            r == (if id < self@.nodes.len() {
                self@.nodes[id as int].full_lock
            } else {
                u32::MAX
            }),
    {
        if (id as usize) < self.nodes.len() {
            self.nodes[id as usize].full_lock_ref
        } else {
            u32::MAX
        }
    }

    /// The window lock count of a node; `u32::MAX` for an unknown id.
    pub fn node_swa_lock_ref(&self, id: NodeId) -> (r: u32)
        ensures
            r == (if id < self@.nodes.len() {
                self@.nodes[id as int].swa_lock
            } else {
                u32::MAX
            }),
    {
        if (id as usize) < self.nodes.len() {
            self.nodes[id as usize].swa_lock_ref
        } else {
            u32::MAX
        }
    }

    /// The best usable cached prefix of `key`: a prefix that ends with a full
    /// window of tokens whose slots are alive, or that no tombstone cuts off
    /// from the root. A node matched in part is split; the path of the
    /// returned node becomes the most recently used.
    pub fn match_prefix(&mut self, key: &RadixKey) -> (r: SWAMatchResult)
        requires
            old(self).wf(),
            old(self)@.nodes.len() < NodeId::MAX,
            old(self)@.names.len() < u32::MAX,
        ensures
            final(self).wf(),
            (final(self)@, r.indices@, r.last_node) == old(self)@.after_match(*key),
    {
        let ghost st = self@;
        let flat_key = self.trunk.flatten(key);
        let flat = flat_key.as_ref();
        if self.disable || flat.len() == 0 {
            return SWAMatchResult::default();
        }
        proof {
            query::lemma_query(st.frame(), *key);
        }
        let (visited, runs) = self.visit(key, flat);
        let ghost at = self@;
        let window = self.sliding_window_size;
        // `None`: no tombstone since the root.
        let mut since: Option<usize> = None;
        let mut best_len: usize = 0;
        let mut best_node: NodeId = ROOT;
        let mut k: usize = 0;
        proof {
            swa_model::law_sizes_add_up(at);
        }
        while k < visited.len()
            invariant
                self.wf(),
                self@ == at,
                window == at.window,
                k <= visited@.len(),
                runs@.len() == visited@.len(),
                chain_of(at, visited@),
                forall|j: int| 0 <= j < runs@.len() ==> (#[trigger] runs@[j])@ == at.run(visited@[j]),
                at.scan(visited@, k as nat) == (swa_model::Scan {
                    since: match since {
                        Some(n) => Some(n as nat),
                        None => None,
                    },
                    len: best_len as nat,
                    node: best_node,
                }),
                best_len <= k,
                best_node == topo::end_of(visited@.take(best_len as int)),
                since matches Some(n) ==> n <= path_tokens(at.nodes, visited@, k as int),
            decreases visited@.len() - k,
        {
            let c = visited[k];
            proof {
                assert(at.nodes[c as int] == self.nodes@[c as int]@);
                lemma_path_tokens(at, visited@, k as int);
            }
            if self.nodes[c as usize].swa_tombstone {
                let usable = match since {
                    None => true,
                    Some(n) => n >= window,
                };
                if usable {
                    best_len = k;
                    best_node = if k == 0 {
                        ROOT
                    } else {
                        visited[k - 1]
                    };
                }
                since = Some(0);
            } else if let Some(n) = since {
                let l = runs[k].len();
                since = Some(n + l);
            }
            k += 1;
        }
        let usable = match since {
            None => true,
            Some(n) => n >= window,
        };
        if usable {
            best_len = visited.len();
            best_node = if visited.len() == 0 {
                ROOT
            } else {
                visited[visited.len() - 1]
            };
        }
        assert(visited@.take(visited@.len() as int) =~= visited@);
        proof {
            lemma_end_live(at, visited@, best_len as int);
        }
        self.refresh(best_node);
        let mut indices: Vec<i64> = Vec::new();
        let mut j: usize = 0;
        assert(visited@.take(0) =~= Seq::<NodeId>::empty());
        while j < best_len
            invariant
                j <= best_len <= visited@.len() == runs@.len(),
                forall|i: int| 0 <= i < runs@.len() ==> (#[trigger] runs@[i])@ == at.run(visited@[i]),
                indices@ == at.gathered(visited@.take(j as int)),
            decreases best_len - j,
        {
            append_run(&mut indices, runs[j].as_slice());
            proof {
                let t = visited@.take(j + 1);
                assert(t.drop_last() =~= visited@.take(j as int));
                assert(t.last() == visited@[j as int]);
            }
            j += 1;
        }
        SWAMatchResult { indices, last_node: best_node }
    }

    /// Caches `value` under `key`. The overlap with the tree past
    /// `update_kv_after_len` tokens is handed back, or recovers tombstones
    /// where the incoming window slots, evicted up to
    /// `swa_evicted_seqlen`, are alive.
    pub fn insert(
        &mut self,
        key: &RadixKey,
        value: &[i64],
        update_kv_after_len: usize,
        swa_evicted_seqlen: usize,
    ) -> (r: SWAInsertResult)
        requires
            old(self).wf(),
            old(self)@.nodes.len() + 4 <= NodeId::MAX,
            old(self)@.names.len() < u32::MAX,
            !old(self)@.disable ==> {
                let units = old(self)@.frame().units(*key);
                let fresh = units - old(self)@.frame().prefix_len(*key);
                &&& old(self)@.frame().fits(*key)
                &&& value@.len() >= units
                &&& swa_evicted_seqlen as int % old(self)@.shape.page as int == 0
                &&& old(self)@.full_size() + fresh <= i64::MAX
                &&& old(self)@.full_size() + fresh <= usize::MAX
            },
        ensures
            final(self).wf(),
            (final(self)@, freed(r.free, r.recover_locked_full@), r.last_node) == old(self)@.after_insert(
                *key,
                value@,
                update_kv_after_len as int,
                swa_evicted_seqlen as int,
            ),
            r.prefix_len == (if old(self)@.disable {
                0
            } else {
                old(self)@.frame().prefix_len(*key)
            }),
    {
        let ghost st = self@;
        let flat_key = self.trunk.flatten(key);
        let flat = flat_key.as_ref();
        proof {
            query::lemma_query(st.frame(), *key);
            topo::lemma_chunk(st.shape);
        }
        let mut res = SWAInsertResult::default();
        if self.disable || flat.len() == 0 {
            return res;
        }
        let unit = self.trunk.topo.unit_size();
        let units = flat.len() / unit;
        let value = vstd::slice::slice_subrange(value, 0, units);
        assert(value@ =~= value@.take(units as int));
        let ghost val = value@;
        let ghost upd = update_kv_after_len as int;
        let ghost ev = swa_evicted_seqlen as int;
        let (ns, node, used) = self.insert_walk(
            key,
            flat,
            value,
            update_kv_after_len,
            swa_evicted_seqlen,
            &mut res.free,
            &mut res.recover_locked_full,
        );
        let total = used / unit;
        res.prefix_len = total;
        proof {
            tree_model::lemma_halves(flat@.len() as int, used as int, unit as int);
        }
        if used == flat.len() {
            res.last_node = node;
        } else {
            let id = self.grow_rest(node, ns, flat, used, value, swa_evicted_seqlen, &mut res.free);
            res.last_node = id;
        }
        res
    }

    /// Evicts with two budgets. First unlocked leaves are deleted, least
    /// recently used first, until `full_num_tokens` are gone; then window
    /// slots are freed until `swa_num_tokens` are gone.
    pub fn evict(&mut self, full_num_tokens: usize, swa_num_tokens: usize) -> (r: SWAEvictResult)
        requires
            old(self).wf(),
        ensures
            final(self).wf(),
            ({
                let (st, t) = old(self)@.after_evict(full_num_tokens as int, swa_num_tokens as int);
                &&& final(self)@ == st
                &&& r.full_num_evicted == t.full
                &&& r.swa_num_evicted == t.swa
                &&& freed(r.free, Seq::empty()) == t.out
            }),
    {
        let ghost st = self@;
        let mut res = SWAEvictResult::default();
        if self.disable {
            return res;
        }
        proof {
            swa_model::law_sizes_add_up(st);
        }
        self.evict_full(full_num_tokens, &mut res);
        self.evict_swa(swa_num_tokens, &mut res);
        res
    }

    /// Locks `node` and every node above it, the root left out: the full
    /// side all the way, the window side until a full window is locked.
    /// Returns the mark of the boundary node and the change of the full
    /// evictable size (<= 0).
    #[verifier::rlimit(60)]
    #[verifier::spinoff_prover]
    pub fn inc_lock_ref(&mut self, node: NodeId) -> (r: (Option<u64>, i64))
        requires
            old(self).wf(),
            !old(self)@.disable ==> {
                let st = old(self)@;
                let up = st.shape.up(node);
                &&& node == ROOT || st.live(node)
                &&& st.uuids < u64::MAX
                &&& forall|k: int|
                    0 <= k < up.len() ==> {
                        let n = st.nodes[(#[trigger] up[k]) as int];
                        n.full_lock < u32::MAX && (st.depth(up, k as nat) < st.window ==> !n.tombstone)
                    }
            },
        ensures
            final(self).wf(),
            (final(self)@, r.0) == (if old(self)@.disable {
                (old(self)@, None)
            } else {
                old(self)@.locked(node)
            }),
            r.1 == final(self)@.count(Counter::FullEvictable) - old(self)@.count(Counter::FullEvictable),
            r.1 <= 0,
    {
        let ghost st = self@;
        if self.disable {
            return (None, 0);
        }
        let up = self.trunk.topo.up(node);
        let before = self.full_evictable_size;
        let mut size: usize = 0;
        let mut mark: Option<u64> = None;
        let mut k: usize = 0;
        proof {
            swa_model::lemma_up_live(st, node);
            swa_model::law_sizes_add_up(st);
            assert(up@.take(0) =~= Seq::<NodeId>::empty());
        }
        while k < up.len()
            invariant
                self.wf(),
                st.wf(),
                k <= up@.len(),
                up@ == st.shape.up(node),
                chain_of(st, up@),
                before == st.count(Counter::FullEvictable),
                self.full_evictable_size <= before,
                self.sliding_window_size == st.window,
                (self@, size as int, mark) == st.lock_steps(up@, k as nat),
                untouched(st, self@, up@, k as int),
                self@.uuids == st.uuids || self@.uuids == st.uuids + 1 && size >= st.window,
                size < st.window ==> size == st.depth(up@, k as nat),
                size >= st.window ==> st.depth(up@, k as nat) >= st.window,
                size <= st.depth(up@, k as nat),
                st.depth(up@, k as nat) == path_tokens(st.nodes, up@, k as int),
                st.full_size() <= usize::MAX,
                forall|j: int| 0 <= j < up@.len() ==> {
                    let n = st.nodes[(#[trigger] up@[j]) as int];
                    n.full_lock < u32::MAX && (st.depth(up@, j as nat) < st.window ==> !n.tombstone)
                },
                st.uuids < u64::MAX,
            decreases up@.len() - k,
        {
            let id = up[k];
            let ghost cur = self@;
            proof {
                lemma_not_met(up@, k as int);
                assert(st.live(up@[k as int]));
                assert(cur.nodes[id as int] == st.nodes[id as int]);
                assert(cur.nodes[id as int] == self.nodes@[id as int]@);
                assert(st.node_ok(id as int));
                lemma_path_tokens(st, up@, k as int);
            }
            let (size1, mark1) = self.lock_one(id, size);
            size = size1;
            if mark1.is_some() {
                mark = mark1;
            }
            proof {
                lemma_untouched_step(st, cur, self@, up@, k as int);
            }
            k += 1;
        }
        proof {
            swa_model::law_sizes_add_up(self@);
            assert(self@.count(Counter::FullEvictable) >= 0);
        }
        (mark, self.full_evictable_size - before)
    }

    /// Takes one full lock off `node` and every node above it, the root left
    /// out, and one window lock off those up to the node that bears the
    /// mark, unless `skip_swa`. Returns the change of the full evictable
    /// size (>= 0).
    pub fn dec_lock_ref(&mut self, node: NodeId, swa_uuid_for_lock: Option<u64>, skip_swa: bool) -> (r: i64)
        requires
            old(self).wf(),
            !old(self)@.disable ==> {
                let st = old(self)@;
                let up = st.shape.up(node);
                &&& node == ROOT || st.live(node)
                &&& forall|k: int|
                    0 <= k < up.len() ==> {
                        let n = st.nodes[(#[trigger] up[k]) as int];
                        &&& n.full_lock > 0
                        &&& if !skip_swa && st.unmarked(up, k, swa_uuid_for_lock) {
                            !n.tombstone && n.swa_lock > 0
                        } else {
                            n.full_lock > n.swa_lock
                        }
                    }
            },
        ensures
            final(self).wf(),
            final(self)@ == (if old(self)@.disable {
                old(self)@
            } else {
                let up = old(self)@.shape.up(node);
                old(self)@.unlocked(up, up.len() as int, swa_uuid_for_lock, skip_swa)
            }),
            r == final(self)@.count(Counter::FullEvictable) - old(self)@.count(Counter::FullEvictable),
            r >= 0,
    {
        let ghost st = self@;
        if self.disable {
            return 0;
        }
        let up = self.trunk.topo.up(node);
        let before = self.full_evictable_size;
        let mut swa = !skip_swa;
        let mut k: usize = 0;
        proof {
            swa_model::lemma_up_live(st, node);
            swa_model::law_sizes_add_up(st);
            assert(up@.take(0) =~= Seq::<NodeId>::empty());
            assert(self@ =~= st.unlocked(up@, 0, swa_uuid_for_lock, skip_swa));
        }
        while k < up.len()
            invariant
                self.wf(),
                st.wf(),
                k <= up@.len(),
                up@ == st.shape.up(node),
                chain_of(st, up@),
                before == st.count(Counter::FullEvictable),
                self.full_evictable_size >= before,
                self@ == st.unlocked(up@, k as int, swa_uuid_for_lock, skip_swa),
                swa == (!skip_swa && st.unmarked(up@, k as int, swa_uuid_for_lock)),
                forall|j: int| 0 <= j < up@.len() ==> {
                    let n = st.nodes[(#[trigger] up@[j]) as int];
                    &&& n.full_lock > 0
                    &&& if !skip_swa && st.unmarked(up@, j, swa_uuid_for_lock) {
                        !n.tombstone && n.swa_lock > 0
                    } else {
                        n.full_lock > n.swa_lock
                    }
                },
            decreases up@.len() - k,
        {
            let id = up[k];
            let ghost cur = self@;
            proof {
                assert(st.live(up@[k as int]));
                lemma_unlocked_step(st, up@, k as int, swa_uuid_for_lock, skip_swa);
                assert(cur.nodes[id as int] == self.nodes@[id as int]@);
                assert(st.node_ok(id as int));
            }
            let full_lock = self.nodes[id as usize].full_lock_ref - 1;
            let uuid = self.nodes[id as usize].swa_uuid;
            let swa_lock = self.nodes[id as usize].swa_lock_ref;
            if swa {
                self.set_locks(id, full_lock, swa_lock - 1, uuid);
            } else {
                self.set_locks(id, full_lock, swa_lock, uuid);
            }
            if swa && swa_uuid_for_lock.is_some() && uuid == swa_uuid_for_lock {
                swa = false;
            }
            proof {
                assert(st.unmarked(up@, k + 1, swa_uuid_for_lock) == (st.unmarked(
                    up@,
                    k as int,
                    swa_uuid_for_lock,
                ) && (swa_uuid_for_lock is None || uuid != swa_uuid_for_lock))) by {
                    lemma_unmarked_step(st, up@, k as int, swa_uuid_for_lock);
                }
            }
            k += 1;
        }
        proof {
            swa_model::law_sizes_add_up(self@);
        }
        self.full_evictable_size - before
    }

    /// Takes one window lock off `node` and the nodes above it up to the one
    /// that bears the mark. A leaf that has none left is tombstoned and its
    /// window slots are handed back; an inner node becomes evictable.
    pub fn dec_swa_lock_only(&mut self, node: NodeId, swa_uuid_for_lock: Option<u64>) -> (r: SWADecResult)
        requires
            old(self).wf(),
            !old(self)@.disable ==> {
                let st = old(self)@;
                let up = st.shape.up(node);
                &&& node == ROOT || st.live(node)
                &&& forall|k: int|
                    0 <= k < st.release_len(up, 0, swa_uuid_for_lock) ==> {
                        let n = st.nodes[(#[trigger] up[k]) as int];
                        !n.tombstone && n.swa_lock > 0
                    }
            },
        ensures
            final(self).wf(),
            (final(self)@, runs_of(r.free_swa@)) == (if old(self)@.disable {
                (old(self)@, Seq::empty())
            } else {
                let up = old(self)@.shape.up(node);
                old(self)@.release_steps(up, old(self)@.release_len(up, 0, swa_uuid_for_lock))
            }),
    {
        let ghost st = self@;
        let mut res = SWADecResult::default();
        assert(runs_of(res.free_swa@) =~= Seq::<Seq<i64>>::empty());
        if self.disable {
            return res;
        }
        let up = self.trunk.topo.up(node);
        let ghost n = st.release_len(up@, 0, swa_uuid_for_lock);
        let mut k: usize = 0;
        let mut done = false;
        proof {
            swa_model::lemma_up_live(st, node);
            assert(up@.take(0) =~= Seq::<NodeId>::empty());
        }
        while k < up.len() && !done
            invariant
                self.wf(),
                st.wf(),
                k <= up@.len(),
                up@ == st.shape.up(node),
                chain_of(st, up@),
                n == st.release_len(up@, 0, swa_uuid_for_lock),
                !done ==> n == st.release_len(up@, k as nat, swa_uuid_for_lock),
                done ==> n == k,
                (self@, runs_of(res.free_swa@)) == st.release_steps(up@, k as nat),
                untouched(st, self@, up@, k as int),
                forall|j: int| 0 <= j < n ==> {
                    let m = st.nodes[(#[trigger] up@[j]) as int];
                    !m.tombstone && m.swa_lock > 0
                },
            decreases up@.len() - k,
        {
            let id = up[k];
            let ghost cur = self@;
            proof {
                lemma_not_met(up@, k as int);
                assert(st.live(up@[k as int]));
                assert(cur.nodes[id as int] == st.nodes[id as int]);
                assert(cur.nodes[id as int] == self.nodes@[id as int]@);
                lemma_release_len(st, up@, k as nat, swa_uuid_for_lock);
            }
            let uuid = self.nodes[id as usize].swa_uuid;
            self.release(id, &mut res);
            proof {
                lemma_untouched_step(st, cur, self@, up@, k as int);
            }
            if swa_uuid_for_lock.is_some() && uuid == swa_uuid_for_lock {
                done = true;
            }
            k += 1;
        }
        res
    }

    // ---- internals ----

    /// Deletes unlocked leaves, least recently used first, until the tally
    /// reaches the budget or none is left.
    fn evict_full(&mut self, budget: usize, res: &mut SWAEvictResult)
        requires
            old(self).wf(),
            old(res).full_num_evicted + old(self)@.full_size() <= usize::MAX,
            old(res).swa_num_evicted + old(self)@.swa_size() <= usize::MAX,
        ensures
            final(self).wf(),
            (final(self)@, tally(*final(res))) == old(self)@.evict_full(budget as int, tally(*old(res))),
            final(res).swa_num_evicted + final(self)@.swa_size() <= usize::MAX,
            final(res).full_num_evicted + final(self)@.full_size() <= usize::MAX,
    {
        let ghost start = self@;
        let ghost t0 = tally(*res);
        loop
            invariant
                self.wf(),
                start.evict_full(budget as int, t0) == self@.evict_full(budget as int, tally(*res)),
                res.full_num_evicted + self@.full_size() <= usize::MAX,
                res.swa_num_evicted + self@.swa_size() <= usize::MAX,
            ensures
                start.evict_full(budget as int, t0) == (self@, tally(*res)),
            decreases self@.live_count(),
        {
            let ghost cur = self@;
            if res.full_num_evicted >= budget {
                break;
            }
            let x = match self.full_get_leaf_lru_no_lock() {
                Some(x) => x,
                None => {
                    break;
                },
            };
            proof {
                swa_model::lemma_drop_counts(cur, x);
                lemma_evict_leaf(cur, x, tally(*res));
            }
            let more = self.evict_leaf(x, res);
            proof {
                swa_model::law_sizes_add_up(self@);
            }
            res.full_num_evicted = res.full_num_evicted + more;
        }
    }

    /// Frees window slots, least recently used first, until the tally
    /// reaches the budget or none is left.
    fn evict_swa(&mut self, budget: usize, res: &mut SWAEvictResult)
        requires
            old(self).wf(),
            old(res).full_num_evicted + old(self)@.full_size() <= usize::MAX,
            old(res).swa_num_evicted + old(self)@.swa_size() <= usize::MAX,
        ensures
            final(self).wf(),
            (final(self)@, tally(*final(res))) == old(self)@.evict_swa(budget as int, tally(*old(res))),
    {
        let ghost start = self@;
        let ghost t0 = tally(*res);
        loop
            invariant
                self.wf(),
                start.evict_swa(budget as int, t0) == self@.evict_swa(budget as int, tally(*res)),
                res.full_num_evicted + self@.full_size() <= usize::MAX,
                res.swa_num_evicted + self@.swa_size() <= usize::MAX,
            ensures
                start.evict_swa(budget as int, t0) == (self@, tally(*res)),
            decreases self@.swa.len(),
        {
            let ghost cur = self@;
            if res.swa_num_evicted >= budget {
                break;
            }
            let x = match self.swa_get_lru_no_lock() {
                Some(x) => x,
                None => {
                    break;
                },
            };
            proof {
                assert(cur.swa.contains(x) <==> cur.windowed(x));
                swa_model::lemma_evict_swa_step(cur, x, tally(*res));
                swa_model::law_sizes_add_up(cur);
                assert(cur.nodes[x as int] == self.nodes@[x as int]@);
            }
            if !self.trunk.topo.is_leaf(x) || self.nodes[x as usize].full_lock_ref > 0 {
                let v = self.run_of(x);
                let n = v.len();
                proof {
                    swa_model::lemma_buried(cur, x);
                    swa_model::law_sizes_add_up(cur.buried(x));
                    tree::lemma_push_run(res.free.swa@, v);
                    assert(cur.buried(x).count(Counter::SwaEvictable) >= 0);
                }
                self.bury(x);
                res.swa_num_evicted = res.swa_num_evicted + n;
                res.free.swa.push(v);
            } else {
                proof {
                    lemma_evict_leaf(cur, x, tally(*res));
                }
                let more = self.evict_leaf(x, res);
            }
        }
    }

    /// Deletes the unlocked leaf `x` and the tombstones it leaves behind;
    /// returns the tokens of those.
    fn evict_leaf(&mut self, x: NodeId, res: &mut SWAEvictResult) -> (more: usize)
        requires
            old(self).wf(),
            old(self)@.live(x),
            old(self)@.shape.is_leaf(x),
            old(self)@.nodes[x as int].full_lock == 0,
            old(res).full_num_evicted + old(self)@.full_size() <= usize::MAX,
            old(res).swa_num_evicted + old(self)@.swa_size() <= usize::MAX,
        ensures
            final(self).wf(),
            (final(self)@, tally(*final(res)), more as int) == old(self)@.evict_leaf(x, tally(*old(res))),
    {
        let ghost cur = self@;
        let ghost t = tally(*res);
        proof {
            swa_model::lemma_dropped(cur, x);
            swa_model::law_sizes_add_up(cur);
            swa_model::law_sizes_add_up(cur.dropped(x));
            assert(cur.dropped(x).count(Counter::FullEvictable) >= 0);
            assert(cur.dropped(x).count(Counter::SwaEvictable) >= 0);
            assert(cur.nodes[x as int] == self.nodes@[x as int]@);
            topo::lemma_path_grows(cur.shape, x);
        }
        let v = self.run_of(x);
        let n = v.len();
        let parent = match self.trunk.topo.parent(x) {
            Some(p) => p,
            None => ROOT,
        };
        let tombstone = self.nodes[x as usize].swa_tombstone;
        self.delete_leaf(x);
        res.full_num_evicted = res.full_num_evicted + n;
        if tombstone {
            proof {
                tree::lemma_push_run(res.free.full@, v);
            }
            res.free.full.push(v);
        } else {
            proof {
                tree::lemma_push_run(res.free.kv@, v);
            }
            res.swa_num_evicted = res.swa_num_evicted + n;
            res.free.kv.push(v);
        }
        let ghost out = if tombstone {
            Freed { full: t.out.full.push(cur.run(x)), ..t.out }
        } else {
            Freed { kv: t.out.kv.push(cur.run(x)), ..t.out }
        };
        assert(freed(res.free, Seq::empty()) =~= out);
        self.iteratively_delete_tombstone_leaf(parent, &mut res.free)
    }

    /// Deletes orphaned tombstones from `p` upwards; returns their tokens.
    fn iteratively_delete_tombstone_leaf(&mut self, p: NodeId, free: &mut FreeOps) -> (total: usize)
        requires
            old(self).wf(),
            p < old(self)@.nodes.len(),
        ensures
            final(self).wf(),
            (final(self)@, freed(*final(free), Seq::empty()), total as int) == old(self)@.cascade(
                p,
                freed(*old(free), Seq::empty()),
            ),
    {
        let ghost start = self@;
        let ghost out0 = freed(*free, Seq::empty());
        let mut at = p;
        let mut total: usize = 0;
        proof {
            swa_model::law_sizes_add_up(start);
        }
        loop
            invariant
                self.wf(),
                start.wf(),
                at < self@.nodes.len(),
                ({
                    let (st, o, n) = self@.cascade(at, freed(*free, Seq::empty()));
                    start.cascade(p, out0) == (st, o, n + total)
                }),
                total + self@.full_size() == start.full_size(),
            ensures
                start.cascade(p, out0) == (self@, freed(*free, Seq::empty()), total as int),
            decreases self@.live_count(),
        {
            let ghost cur = self@;
            proof {
                assert(cur.nodes[at as int] == self.nodes@[at as int]@);
            }
            if at == ROOT || self.nodes[at as usize].value.is_none() || !self.nodes[at as usize].swa_tombstone
                || self.nodes[at as usize].full_lock_ref > 0 || !self.trunk.topo.is_leaf(at) {
                break;
            }
            proof {
                swa_model::lemma_dropped(cur, at);
                swa_model::law_sizes_add_up(cur);
                swa_model::law_sizes_add_up(cur.dropped(at));
                topo::lemma_path_grows(cur.shape, at);
            }
            let v = self.run_of(at);
            let n = v.len();
            let up = match self.trunk.topo.parent(at) {
                Some(q) => q,
                None => ROOT,
            };
            proof {
                tree::lemma_push_run(free.full@, v);
                assert(cur.dropped(at).count(Counter::FullEvictable) >= 0);
            }
            self.delete_leaf(at);
            free.full.push(v);
            assert(freed(*free, Seq::empty()) =~= (Freed {
                full: runs_of(free.full@),
                ..freed(*free, Seq::empty())
            }));
            total = total + n;
            at = up;
        }
        total
    }

    /// The least recently used unlocked leaf.
    fn full_get_leaf_lru_no_lock(&self) -> (r: Option<NodeId>)
        requires
            self.wf(),
        ensures
            r == self@.lru_leaf(self@.full),
            r matches Some(x) ==> self@.live(x) && self@.shape.is_leaf(x) && self@.nodes[x as int].full_lock == 0,
    {
        let ghost st = self@;
        let ghost order = st.full;
        let ghost mut i: int = order.len() as int;
        let mut at = self.full_lru.predecessor(Lru::Tail);
        proof {
            self.full_lru.lemma_members();
            assert(order.take(i) =~= order);
        }
        loop
            invariant
                self.wf(),
                st == self@,
                order == st.full,
                order.no_duplicates(),
                0 <= i <= order.len(),
                at == lru::before(order, i),
                st.lru_leaf(order) == st.lru_leaf(order.take(i)),
            decreases i,
        {
            match at {
                Lru::Node(id) => {
                    proof {
                        assert(order[i - 1] == id);
                        assert(order.contains(id));
                        assert(order.index_of(id) == i - 1);
                        assert(order.take(i).last() == id);
                        assert(order.take(i).drop_last() =~= order.take(i - 1));
                        assert(st.nodes[id as int] == self.nodes@[id as int]@);
                    }
                    if self.nodes[id as usize].full_lock_ref == 0 && self.trunk.topo.is_leaf(id) {
                        return Some(id);
                    }
                    at = self.full_lru.predecessor(at);
                    proof {
                        i = i - 1;
                    }
                },
                _ => {
                    assert(i == 0);
                    return None;
                },
            }
        }
    }

    /// The least recently used node without a window lock.
    fn swa_get_lru_no_lock(&self) -> (r: Option<NodeId>)
        requires
            self.wf(),
        ensures
            r == self@.lru_unlocked(self@.swa),
            r matches Some(x) ==> self@.windowed(x) && self@.nodes[x as int].swa_lock == 0 && self@.swa.contains(x),
    {
        let ghost st = self@;
        let ghost order = st.swa;
        let ghost mut i: int = order.len() as int;
        let mut at = self.swa_lru.predecessor(Lru::Tail);
        proof {
            self.swa_lru.lemma_members();
            assert(order.take(i) =~= order);
        }
        loop
            invariant
                self.wf(),
                st == self@,
                order == st.swa,
                order.no_duplicates(),
                0 <= i <= order.len(),
                at == lru::before(order, i),
                st.lru_unlocked(order) == st.lru_unlocked(order.take(i)),
            decreases i,
        {
            match at {
                Lru::Node(id) => {
                    proof {
                        assert(order[i - 1] == id);
                        assert(order.contains(id));
                        assert(order.index_of(id) == i - 1);
                        assert(order.take(i).last() == id);
                        assert(order.take(i).drop_last() =~= order.take(i - 1));
                        assert(st.nodes[id as int] == self.nodes@[id as int]@);
                    }
                    if self.nodes[id as usize].swa_lock_ref == 0 {
                        return Some(id);
                    }
                    at = self.swa_lru.predecessor(at);
                    proof {
                        i = i - 1;
                    }
                },
                _ => {
                    assert(i == 0);
                    return None;
                },
            }
        }
    }

    /// Detaches the unlocked leaf `node`.
    fn delete_leaf(&mut self, node: NodeId)
        requires
            old(self).wf(),
            old(self)@.live(node),
            old(self)@.shape.is_leaf(node),
            old(self)@.nodes[node as int].full_lock == 0,
        ensures
            final(self).wf(),
            final(self)@ == old(self)@.dropped(node),
    {
        let ghost st = self@;
        let ghost t = st.dropped(node);
        proof {
            swa_model::lemma_dropped(st, node);
            swa_model::law_sizes_add_up(st);
            swa_model::law_sizes_add_up(t);
            assert(t.count(Counter::FullEvictable) >= 0);
            assert(t.count(Counter::SwaEvictable) >= 0);
            assert(st.nodes[node as int] == self.nodes@[node as int]@);
            assert(st.full.contains(node));
            assert(st.swa.contains(node) <==> st.windowed(node));
        }
        let units = self.trunk.topo.units(node) as i64;
        self.trunk.topo.prune(node);
        self.nodes[node as usize].value = None;
        self.full_lru.remove(node);
        self.full_evictable_size = self.full_evictable_size - units;
        if !self.nodes[node as usize].swa_tombstone {
            self.swa_lru.remove(node);
            self.swa_evictable_size = self.swa_evictable_size - units;
        }
        proof {
            assert(self@.nodes =~= t.nodes);
            assert(self@ =~= t);
            assert(self@.frame() == self.trunk@);
        }
    }

    /// Tombstones a node without a window lock.
    fn bury(&mut self, node: NodeId)
        requires
            old(self).wf(),
            old(self)@.windowed(node),
            old(self)@.nodes[node as int].swa_lock == 0,
        ensures
            final(self).wf(),
            final(self)@ == old(self)@.buried(node),
    {
        let ghost st = self@;
        let ghost t = st.buried(node);
        proof {
            swa_model::lemma_buried(st, node);
            swa_model::law_sizes_add_up(st);
            swa_model::law_sizes_add_up(t);
            assert(t.count(Counter::SwaEvictable) >= 0);
            assert(st.nodes[node as int] == self.nodes@[node as int]@);
            assert(st.node_ok(node as int));
        }
        let units = self.trunk.topo.units(node) as i64;
        self.nodes[node as usize].swa_tombstone = true;
        self.swa_lru.remove(node);
        self.swa_evictable_size = self.swa_evictable_size - units;
        proof {
            assert(self@.nodes =~= t.nodes);
            assert(self@ =~= t);
            assert(self@.frame() == self.trunk@);
        }
    }

    /// Locks one node; see `SWAState::lock_step`.
    fn lock_one(&mut self, id: NodeId, size: usize) -> (r: (usize, Option<u64>))
        requires
            old(self).wf(),
            old(self)@.live(id),
            old(self)@.nodes[id as int].full_lock < u32::MAX,
            size < old(self)@.window ==> {
                &&& !old(self)@.nodes[id as int].tombstone
                &&& old(self)@.uuids < u64::MAX
                &&& size + old(self)@.run(id).len() <= usize::MAX
            },
        ensures
            final(self).wf(),
            (final(self)@, r.0 as int, r.1) == old(self)@.lock_step(id, size as int),
            final(self).full_evictable_size <= old(self).full_evictable_size,
            final(self).sliding_window_size == old(self).sliding_window_size,
    {
        let ghost st = self@;
        proof {
            assert(st.nodes[id as int] == self.nodes@[id as int]@);
            assert(st.node_ok(id as int));
        }
        let full_lock = self.nodes[id as usize].full_lock_ref + 1;
        let swa_lock = self.nodes[id as usize].swa_lock_ref;
        let uuid = self.nodes[id as usize].swa_uuid;
        if size >= self.sliding_window_size {
            self.set_locks(id, full_lock, swa_lock, uuid);
            assert(self@ =~= st.lock_step(id, size as int).0);
            return (size, None);
        }
        let len: usize = match &self.nodes[id as usize].value {
            Some(v) => v.len(),
            None => 0,
        };
        let size1 = size + len;
        if size1 < self.sliding_window_size {
            self.set_locks(id, full_lock, swa_lock + 1, uuid);
            assert(self@ =~= st.lock_step(id, size as int).0);
            return (size1, None);
        }
        let mark = match uuid {
            Some(u) => u,
            None => self.next_swa_uuid(),
        };
        self.set_locks(id, full_lock, swa_lock + 1, Some(mark));
        assert(self@ =~= st.lock_step(id, size as int).0);
        (size1, Some(mark))
    }

    /// Takes one window lock off `id`; see `SWAState::release_step`.
    fn release(&mut self, id: NodeId, res: &mut SWADecResult)
        requires
            old(self).wf(),
            old(self)@.windowed(id),
            old(self)@.nodes[id as int].swa_lock > 0,
        ensures
            final(self).wf(),
            final(self)@ == old(self)@.release_step(id).0,
            runs_of(final(res).free_swa@) == runs_of(old(res).free_swa@) + old(self)@.release_step(id).1,
    {
        let ghost st = self@;
        let ghost before = runs_of(res.free_swa@);
        proof {
            assert(st.nodes[id as int] == self.nodes@[id as int]@);
            assert(st.node_ok(id as int));
        }
        let swa_lock = self.nodes[id as usize].swa_lock_ref;
        let full_lock = self.nodes[id as usize].full_lock_ref;
        let uuid = self.nodes[id as usize].swa_uuid;
        let leaf = self.trunk.topo.is_leaf(id);
        let v = self.run_of(id);
        self.set_locks(id, full_lock, swa_lock - 1, uuid);
        if swa_lock == 1 && leaf {
            proof {
                tree::lemma_push_run(res.free_swa@, v);
                assert(before.push(v@) =~= before + seq![v@]);
            }
            self.bury(id);
            res.free_swa.push(v);
        } else {
            assert(before + Seq::<Seq<i64>>::empty() =~= before);
        }
    }

    /// A new lock-boundary mark.
    fn next_swa_uuid(&mut self) -> (u: u64)
        requires
            old(self).wf(),
            old(self)@.uuids < u64::MAX,
        ensures
            final(self).wf(),
            u == old(self)@.uuids + 1,
            final(self)@ == (SWAState { uuids: u, ..old(self)@ }),
            final(self).full_evictable_size == old(self).full_evictable_size,
            final(self).nodes == old(self).nodes,
            final(self).sliding_window_size == old(self).sliding_window_size,
    {
        let ghost st = self@;
        self.swa_uuid_counter = self.swa_uuid_counter + 1;
        proof {
            swa_model::lemma_reordered(st, self@);
        }
        self.swa_uuid_counter
    }

    /// Sets the locks and the mark of one live node, with the counters that
    /// follow.
    fn set_locks(&mut self, id: NodeId, full_lock: u32, swa_lock: u32, uuid: Option<u64>)
        requires
            old(self).wf(),
            old(self)@.live(id),
            full_lock >= swa_lock,
            old(self)@.nodes[id as int].tombstone ==> swa_lock == 0,
        ensures
            final(self).wf(),
            final(self)@ == old(self)@.patched(
                id,
                SWANodeState { full_lock, swa_lock, uuid, ..old(self)@.nodes[id as int] },
            ),
            full_lock > 0 ==> final(self).full_evictable_size <= old(self).full_evictable_size,
            old(self)@.nodes[id as int].full_lock > 0 ==> final(self).full_evictable_size
                >= old(self).full_evictable_size,
            final(self).sliding_window_size == old(self).sliding_window_size,
    {
        let ghost st = self@;
        let ghost n = SWANodeState { full_lock, swa_lock, uuid, ..st.nodes[id as int] };
        let ghost t = st.patched(id, n);
        proof {
            assert(st.swa.contains(id) <==> st.windowed(id));
            assert(st.node_ok(id as int));
            swa_model::lemma_patched(st, id, n, st.swa);
            assert(t == (SWAState { swa: st.swa, ..t }));
            swa_model::law_sizes_add_up(st);
            swa_model::law_sizes_add_up(t);
            swa_model::lemma_units(st, id as int);
            assert(st.nodes[id as int] == self.nodes@[id as int]@);
            assert(t.count(Counter::FullEvictable) >= 0 && t.count(Counter::FullEvictable) <= i64::MAX);
            assert(t.count(Counter::FullProtected) >= 0 && t.count(Counter::FullProtected) <= i64::MAX);
            assert(t.count(Counter::SwaEvictable) >= 0 && t.count(Counter::SwaEvictable) <= i64::MAX);
            assert(t.count(Counter::SwaProtected) >= 0 && t.count(Counter::SwaProtected) <= i64::MAX);
        }
        let l = self.trunk.topo.units(id) as i64;
        let was_full = self.nodes[id as usize].full_lock_ref;
        let was_swa = self.nodes[id as usize].swa_lock_ref;
        let tombstone = self.nodes[id as usize].swa_tombstone;
        self.nodes[id as usize].full_lock_ref = full_lock;
        self.nodes[id as usize].swa_lock_ref = swa_lock;
        self.nodes[id as usize].swa_uuid = uuid;
        if was_full == 0 && full_lock > 0 {
            self.full_evictable_size = self.full_evictable_size - l;
            self.full_protected_size = self.full_protected_size + l;
        } else if was_full > 0 && full_lock == 0 {
            self.full_evictable_size = self.full_evictable_size + l;
            self.full_protected_size = self.full_protected_size - l;
        }
        if !tombstone && was_swa == 0 && swa_lock > 0 {
            self.swa_evictable_size = self.swa_evictable_size - l;
            self.swa_protected_size = self.swa_protected_size + l;
        } else if !tombstone && was_swa > 0 && swa_lock == 0 {
            self.swa_evictable_size = self.swa_evictable_size + l;
            self.swa_protected_size = self.swa_protected_size - l;
        }
        proof {
            assert(self@.nodes =~= t.nodes);
            assert(self@ =~= t);
            assert(self@.frame() == self.trunk@);
        }
    }

    /// The walk of a match: the nodes it visits, with their runs.
    fn visit(&mut self, key: &RadixKey, flat: &[i64]) -> (r: (Vec<NodeId>, Vec<Vec<i64>>))
        requires
            old(self).wf(),
            old(self)@.nodes.len() < NodeId::MAX,
            old(self)@.names.len() < u32::MAX,
            flat@ == old(self)@.frame().flat(*key),
        ensures
            final(self).wf(),
            (final(self)@, r.0@) == old(self)@.after_walk(*key),
            chain_of(final(self)@, r.0@),
            r.1@.len() == r.0@.len(),
            forall|j: int| 0 <= j < r.1@.len() ==> (#[trigger] r.1@[j])@ == final(self)@.run(r.0@[j]),
    {
        let ghost st = self@;
        let (ns, path) = self.enter(key, flat);
        let ghost w = st.frame().walk(*key);
        let ghost base = self@;
        proof {
            query::lemma_query(st.frame(), *key);
            assert forall|j: int| 0 <= j < w.chain.len() implies base.live(#[trigger] w.chain[j]) by {
                assert(base.node_ok(w.chain[j] as int));
            }
        }
        let mut visited = path.chain;
        if let Some((c, m)) = path.stop {
            proof {
                assert(base.node_ok(c as int));
                lemma_cut_chain(base, w.chain, c, m as int);
            }
            let f = self.split_node(c, m);
            visited.push(f);
        }
        let mut runs: Vec<Vec<i64>> = Vec::new();
        let mut k: usize = 0;
        let ghost at = self@;
        while k < visited.len()
            invariant
                self.wf(),
                self@ == at,
                k <= visited@.len(),
                runs@.len() == k,
                chain_of(at, visited@),
                forall|j: int| 0 <= j < runs@.len() ==> (#[trigger] runs@[j])@ == at.run(visited@[j]),
            decreases visited@.len() - k,
        {
            let run = self.run_of(visited[k]);
            runs.push(run);
            k += 1;
        }
        (visited, runs)
    }

    /// Interns the key's namespace and follows its flattened form.
    fn enter(&mut self, key: &RadixKey, flat: &[i64]) -> (r: (u32, topo::WalkPath))
        requires
            old(self).wf(),
            old(self)@.names.len() < u32::MAX,
            flat@ == old(self)@.frame().flat(*key),
        ensures
            final(self).wf(),
            final(self)@ == (SWAState { names: old(self)@.frame().names_with(*key), ..old(self)@ }),
            r.0 == old(self)@.frame().ns_of(*key),
            r.0 < final(self)@.names.len(),
            r.1@ == old(self)@.frame().walk(*key),
            final(self)@.full_size() == old(self)@.full_size(),
    {
        let ghost st = self@;
        assert(st.frame() == self.trunk@);
        let r = self.trunk.enter(key, flat);
        proof {
            assert(self@ =~= (SWAState { names: st.frame().names_with(*key), ..st }));
            swa_model::lemma_reordered(st, self@);
        }
        r
    }

    /// Moves the path up from `node` to the front of both lists and stamps
    /// it, deepest first.
    fn refresh(&mut self, node: NodeId)
        requires
            old(self).wf(),
            node == ROOT || old(self)@.live(node),
        ensures
            final(self).wf(),
            final(self)@ == old(self)@.refreshed(node),
    {
        let ghost st = self@;
        proof {
            swa_model::lemma_refreshed(st, node);
            swa_model::lemma_up_live(st, node);
        }
        let mut now = self.tick();
        let up = self.trunk.topo.up(node);
        let mut alive: Vec<NodeId> = Vec::new();
        let mut k: usize = 0;
        assert(up@.take(0) =~= Seq::<NodeId>::empty());
        while k < up.len()
            invariant
                self.wf(),
                self@ == st,
                k <= up@.len(),
                up@ == st.shape.up(node),
                forall|j: int| 0 <= j < up@.len() ==> st.live(#[trigger] up@[j]),
                alive@ == st.kept(up@.take(k as int)),
            decreases up@.len() - k,
        {
            let id = up[k];
            proof {
                assert(st.nodes[id as int] == self.nodes@[id as int]@);
                let t = up@.take(k + 1);
                assert(t.drop_last() =~= up@.take(k as int));
                assert(t.last() == id);
            }
            if !self.nodes[id as usize].swa_tombstone {
                alive.push(id);
            }
            self.stamp(id, now);
            if now > 0 {
                now = now - 1;
            }
            k += 1;
        }
        self.stamp(ROOT, now);
        proof {
            assert(up@.take(k as int) =~= up@);
            swa_model::lemma_kept(st, up@);
        }
        self.full_lru.lift(&up);
        self.swa_lru.lift(&alive);
        proof {
            assert(self@ =~= st.refreshed(node));
            assert(self@.frame() == self.trunk@);
        }
    }

    /// An insert walk passes `id`.
    fn pass(&mut self, id: NodeId)
        requires
            old(self).wf(),
            id < old(self)@.nodes.len(),
        ensures
            final(self).wf(),
            final(self)@ == old(self)@.passed(id),
    {
        let ghost st = self@;
        let now = self.tick();
        self.stamp(id, now);
        proof {
            swa_model::lemma_passed(st, id);
        }
        self.full_lru.reset_mru(id);
        self.swa_lru.reset_mru(id);
        proof {
            assert(self@ =~= st.passed(id));
            assert(self@.frame() == self.trunk@);
        }
    }

    /// Gives a tombstone its window slots back, with `value` as its run if
    /// there is one.
    fn revive(&mut self, id: NodeId, value: Option<Vec<i64>>)
        requires
            old(self).wf(),
            old(self)@.live(id),
            old(self)@.nodes[id as int].tombstone,
            value matches Some(v) ==> v@.len() == old(self)@.run(id).len(),
        ensures
            final(self).wf(),
            final(self)@ == old(self)@.revived(
                id,
                match value {
                    Some(v) => v@,
                    None => old(self)@.run(id),
                },
            ),
    {
        let ghost st = self@;
        let ghost run = if value is Some {
            value->0@
        } else {
            st.run(id)
        };
        let ghost t = st.revived(id, run);
        proof {
            swa_model::lemma_revived(st, id, run);
            swa_model::law_sizes_add_up(st);
            swa_model::law_sizes_add_up(t);
            assert(st.nodes[id as int] == self.nodes@[id as int]@);
        }
        let len: usize = match &self.nodes[id as usize].value {
            Some(v) => v.len(),
            None => 0,
        };
        if value.is_some() {
            self.nodes[id as usize].value = value;
        }
        self.nodes[id as usize].swa_tombstone = false;
        self.swa_lru.insert_mru(id);
        proof {
            assert(t.count(Counter::SwaEvictable) <= i64::MAX);
        }
        self.swa_evictable_size = self.swa_evictable_size + len as i64;
        proof {
            assert(self@.nodes =~= t.nodes);
            assert(self@ =~= t);
            assert(self@.frame() == self.trunk@);
        }
    }

    /// Adds an unlocked leaf below `parent`.
    fn add_leaf(&mut self, parent: NodeId, ns: u32, key: Vec<i64>, value: Vec<i64>, swa_tombstone: bool) -> (new_id:
        NodeId)
        requires
            old(self).wf(),
            old(self)@.shape.has(parent),
            old(self)@.shape.nodes[parent as int].attached,
            old(self)@.nodes.len() < NodeId::MAX,
            key@.len() > 0,
            old(self)@.shape.aligned(key@.len() as int),
            value@.len() == key@.len() as int / old(self)@.shape.unit as int,
            parent != ROOT ==> old(self)@.shape.nodes[parent as int].ns == ns,
            ns < old(self)@.names.len(),
            old(self)@.shape.child_of(parent, ns, key@.take(old(self)@.shape.chunk() as int)) is None,
            old(self)@.full_size() + value@.len() <= i64::MAX,
            old(self)@.full_size() + value@.len() <= usize::MAX,
        ensures
            final(self).wf(),
            new_id == old(self)@.nodes.len(),
            final(self)@ == old(self)@.grown(parent, ns, key@, value@, swa_tombstone),
            final(self)@.full_size() == old(self)@.full_size() + value@.len(),
    {
        let ghost st = self@;
        let ghost t = st.grown(parent, ns, key@, value@, swa_tombstone);
        proof {
            swa_model::lemma_grown(st, parent, ns, key@, value@, swa_tombstone);
            swa_model::law_sizes_add_up(st);
            swa_model::law_sizes_add_up(t);
            assert(t.count(Counter::FullEvictable) <= i64::MAX);
            assert(t.count(Counter::SwaEvictable) <= i64::MAX);
        }
        let n = value.len();
        let new_id = self.trunk.topo.graft(parent, ns, key);
        let last_access = self.tick_raw();
        self.nodes.push(
            SWANode {
                value: Some(value),
                full_lock_ref: 0,
                swa_lock_ref: 0,
                swa_tombstone,
                swa_uuid: None,
                last_access,
                id: new_id,
            },
        );
        self.grow_lists();
        proof {
            assert(!st.full.contains(new_id) && !st.swa.contains(new_id));
        }
        self.full_lru.insert_mru(new_id);
        self.full_evictable_size = self.full_evictable_size + n as i64;
        if !swa_tombstone {
            self.swa_lru.insert_mru(new_id);
            self.swa_evictable_size = self.swa_evictable_size + n as i64;
        }
        proof {
            assert(self@.nodes =~= t.nodes);
            assert(self@ =~= t);
            assert(self@.frame() == self.trunk@);
        }
        new_id
    }

    /// Adds what the tree does not hold yet below `node`; returns the last
    /// node.
    fn grow_rest(
        &mut self,
        node: NodeId,
        ns: u32,
        flat: &[i64],
        used: usize,
        value: &[i64],
        evicted: usize,
        free: &mut FreeOps,
    ) -> (id: NodeId)
        requires
            old(self).wf(),
            old(self)@.shape.has(node),
            old(self)@.shape.nodes[node as int].attached,
            old(self)@.nodes.len() + 2 <= NodeId::MAX,
            used < flat@.len(),
            old(self)@.shape.aligned(used as int),
            old(self)@.shape.aligned(flat@.len() as int),
            value@.len() == flat@.len() as int / old(self)@.shape.unit as int,
            evicted as int % old(self)@.shape.page as int == 0,
            node != ROOT ==> old(self)@.shape.nodes[node as int].ns == ns,
            ns < old(self)@.names.len(),
            old(self)@.shape.child_of(
                node,
                ns,
                flat@.skip(used as int).take(old(self)@.shape.chunk() as int),
            ) is None,
            old(self)@.full_size() + value@.len() - used as int / old(self)@.shape.unit as int <= i64::MAX,
            old(self)@.full_size() + value@.len() - used as int / old(self)@.shape.unit as int <= usize::MAX,
        ensures
            final(self).wf(),
            final(free).full == old(free).full,
            final(free).swa == old(free).swa,
            (final(self)@, runs_of(final(free).kv@), id) == grown_rest(
                old(self)@,
                runs_of(old(free).kv@),
                node,
                ns,
                flat@,
                used as int,
                value@,
                evicted as int,
            ),
    {
        let ghost a = self@;
        let ghost val = value@;
        let ghost ev = evicted as int;
        let unit = self.trunk.topo.unit_size();
        let units = value.len();
        let total = used / unit;
        proof {
            topo::lemma_chunk(a.shape);
            vstd::arithmetic::div_mod::lemma_small_mod(0, a.shape.chunk());
            topo::lemma_aligned(a.shape, flat@.len() as int, used as int);
            topo::lemma_aligned(a.shape, used as int, 0);
            tree_model::lemma_halves(flat@.len() as int, used as int, unit as int);
        }
        if evicted == units {
            // The whole remainder has lost its window slots: a leaf must
            // not be a tombstone, so none is added.
            let rest = copy_range(value, total, units);
            proof {
                assert(rest@ =~= val.skip(total as int));
                tree::lemma_push_run(free.kv@, rest);
            }
            free.kv.push(rest);
            return node;
        }
        if total < evicted && evicted < units {
            proof {
                assert(ev * unit < units * unit) by (nonlinear_arith)
                    requires
                        ev < units,
                        unit >= 1,
                ;
                assert(total * unit < ev * unit) by (nonlinear_arith)
                    requires
                        total < ev,
                        unit >= 1,
                ;
                assert(flat@.len() == flat.len());
            }
            let mid = evicted * unit;
            proof {
                lemma_page_units(a.shape, ev);
                topo::lemma_aligned(a.shape, mid as int, used as int);
                topo::lemma_aligned(a.shape, flat@.len() as int, mid as int);
                tree_model::lemma_halves(mid as int, used as int, unit as int);
                tree_model::lemma_halves(flat@.len() as int, mid as int, unit as int);
            }
            let key1 = copy_range(flat, used, mid);
            let val1 = copy_range(value, total, evicted);
            let key2 = copy_range(flat, mid, flat.len());
            let val2 = copy_range(value, evicted, units);
            let ghost k1 = key1@;
            proof {
                assert(key2@ =~= flat@.skip(mid as int));
                assert(val2@ =~= val.skip(ev));
                let k = a.shape.chunk() as int;
                assert(key1@.take(k) =~= flat@.skip(used as int).take(k));
            }
            let q = self.add_leaf(node, ns, key1, val1, true);
            proof {
                lemma_new_leaf_free(a.shape, node, ns, k1, key2@.take(a.shape.chunk() as int));
            }
            return self.add_leaf(q, ns, key2, val2, false);
        }
        let rest = copy_range(flat, used, flat.len());
        let fresh = copy_range(value, total, units);
        proof {
            assert(rest@ =~= flat@.skip(used as int));
            assert(fresh@ =~= val.skip(total as int));
        }
        self.add_leaf(node, ns, rest, fresh, false)
    }

    /// An insert meets the node `v`; see `SWAState::absorb`.
    fn absorb(
        &mut self,
        v: NodeId,
        total: usize,
        value: &[i64],
        upd: usize,
        evicted: usize,
        free: &mut FreeOps,
        recover: &mut Vec<SWARecover>,
    )
        requires
            old(self).wf(),
            old(self)@.live(v),
            old(self)@.nodes.len() < NodeId::MAX,
            total + old(self)@.run(v).len() <= value@.len(),
            old(self)@.nodes[v as int].tombstone && total < evicted < total + old(self)@.run(v).len() && upd < total
                + old(self)@.run(v).len() ==> old(self)@.shape.aligned(
                (evicted - total) * old(self)@.shape.unit,
            ),
        ensures
            final(self).wf(),
            (final(self)@, freed(*final(free), final(recover)@)) == old(self)@.absorb(
                v,
                total as int,
                value@.skip(total as int),
                upd as int,
                evicted as int,
                freed(*old(free), old(recover)@),
            ),
    {
        let ghost st = self@;
        let ghost val = value@.skip(total as int);
        let ghost out = freed(*free, recover@);
        let ghost want = st.absorb(v, total as int, val, upd as int, evicted as int, out).1;
        proof {
            assert(st.nodes[v as int] == self.nodes@[v as int]@);
        }
        let run = self.run_of(v);
        let len = run.len();
        assert(total + len <= value.len());
        let end = total + len;
        if upd >= end {
            return;
        }
        let tombstone = self.nodes[v as usize].swa_tombstone;
        let locked = self.nodes[v as usize].full_lock_ref > 0;
        if !tombstone || evicted >= end {
            // The tree holds this KV already, or the incoming window slots
            // are gone too.
            let x = copy_range(value, total, end);
            proof {
                assert(x@ =~= val.take(len as int));
                tree::lemma_push_run(free.kv@, x);
            }
            free.kv.push(x);
            assert(freed(*free, recover@) =~= want);
        } else if evicted <= total {
            let x = copy_range(value, total, end);
            assert(x@ =~= val.take(len as int));
            if locked {
                let y = copy_range(value, total, end);
                proof {
                    assert(y@ =~= val.take(len as int));
                    tree::lemma_push_run(free.full@, x);
                    lemma_push_recover(recover@, SWARecover { tree_value: run, incoming: y });
                }
                recover.push(SWARecover { tree_value: run, incoming: y });
                self.revive(v, None);
                free.full.push(x);
            } else {
                proof {
                    tree::lemma_push_run(free.kv@, run);
                }
                free.kv.push(run);
                self.revive(v, Some(x));
            }
            assert(freed(*free, recover@) =~= want);
        } else {
            let s = evicted - total;
            let unit = self.trunk.topo.unit_size();
            proof {
                lemma_cut_point(st, v, s as int);
            }
            let key_len = self.trunk.topo.key(v).len();
            assert(s * unit < key_len);
            let m = s * unit;
            let head = copy_range(value, total, evicted);
            let fresh = copy_range(value, evicted, end);
            proof {
                assert(head@ =~= val.take(s as int));
                assert(fresh@ =~= val.subrange(s as int, len as int));
            }
            self.split_node(v, m);
            let ghost cut = st.cut(v, m as int);
            assert(cut.live(v));
            if locked {
                let tail = self.run_of(v);
                let y = copy_range(value, evicted, end);
                proof {
                    assert(y@ =~= val.subrange(s as int, len as int));
                    tree::lemma_push_run(free.full@, fresh);
                    tree::lemma_push_run(free.kv@, head);
                    lemma_push_recover(recover@, SWARecover { tree_value: tail, incoming: y });
                }
                recover.push(SWARecover { tree_value: tail, incoming: y });
                self.revive(v, None);
                free.full.push(fresh);
                free.kv.push(head);
            } else {
                let tail = copy_range(run.as_slice(), s, len);
                proof {
                    assert(tail@ =~= st.run(v).skip(s as int));
                    tree::lemma_push_run(free.kv@, tail);
                    tree::lemma_push_run(free.kv@.push(tail), head);
                }
                free.kv.push(tail);
                self.revive(v, Some(fresh));
                free.kv.push(head);
            }
            assert(freed(*free, recover@) =~= want);
        }
    }

    /// The walk of an insert; returns the namespace id, the node it stands
    /// at and the flattened elements it passed.
    fn insert_walk(
        &mut self,
        key: &RadixKey,
        flat: &[i64],
        value: &[i64],
        upd: usize,
        evicted: usize,
        free: &mut FreeOps,
        recover: &mut Vec<SWARecover>,
    ) -> (r: (u32, NodeId, usize))
        requires
            old(self).wf(),
            old(self)@.nodes.len() + 4 <= NodeId::MAX,
            old(self)@.names.len() < u32::MAX,
            flat@ == old(self)@.frame().flat(*key),
            old(self)@.frame().fits(*key),
            value@.len() == old(self)@.frame().units(*key),
            evicted as int % old(self)@.shape.page as int == 0,
            freed(*old(free), old(recover)@) == Freed::none(),
        ensures
            final(self).wf(),
            ({
                let (t, out, p) = old(self)@.after_insert_walk(*key, value@, upd as int, evicted as int);
                let s = old(self)@.shape;
                &&& final(self)@ == t
                &&& freed(*final(free), final(recover)@) == out
                &&& r.0 == old(self)@.frame().ns_of(*key)
                &&& r.0 < t.names.len()
                &&& r.1 == p
                &&& r.2 == old(self)@.frame().walk(*key).used
                &&& t.nodes.len() <= old(self)@.nodes.len() + 2
                &&& t.full_size() == old(self)@.full_size()
                &&& t.shape.page == s.page
                &&& t.shape.unit == s.unit
                &&& t.shape.has(p)
                &&& t.shape.nodes[p as int].attached
                &&& p != ROOT ==> t.shape.nodes[p as int].ns == r.0
                &&& r.2 < flat@.len() ==> t.shape.child_of(
                    p,
                    r.0,
                    flat@.skip(r.2 as int).take(s.chunk() as int),
                ) is None
            }),
    {
        let ghost st = self@;
        let ghost w = st.frame().walk(*key);
        let (ns, path) = self.enter(key, flat);
        let ghost base = self@;
        let ghost rest = flat@.skip(w.used as int).take(st.shape.chunk() as int);
        let now = self.tick();
        self.stamp(ROOT, now);
        proof {
            lemma_insert_path(st, base, *key);
        }
        let total = self.meet_chain(&path.chain, value, upd, evicted, free, recover);
        let ghost cur = self@;
        let mut node = path.end();
        match path.stop {
            Some((c, m)) => {
                proof {
                    lemma_unmet_stop(base, cur, w.chain, c);
                    lemma_total_aligned(base, w.chain, w.chain.len() as int);
                    lemma_evict_aligned(st.shape, evicted as int, total as int);
                }
                node = self.meet_front(c, m, total, value, upd, evicted, free, recover);
                proof {
                    if w.used < flat@.len() {
                        tree_model::lemma_front_children(cur.shape, c, m as int, ns, rest);
                        assert(self@.shape.child_of(node, ns, rest) is None);
                    }
                    assert(self@.node_ok(node as int));
                }
            },
            None => {
                proof {
                    if node != ROOT {
                        assert(w.chain[w.chain.len() - 1] == node);
                        assert(cur.live(w.chain[w.chain.len() - 1]));
                        assert(cur.node_ok(node as int));
                    }
                    if w.used < flat@.len() {
                        assert(cur.shape.child_of(node, ns, rest) is None);
                    }
                }
            },
        }
        (ns, node, path.used)
    }

    /// An insert meets the nodes of its chain; returns the tokens passed.
    fn meet_chain(
        &mut self,
        chain: &Vec<NodeId>,
        value: &[i64],
        upd: usize,
        evicted: usize,
        free: &mut FreeOps,
        recover: &mut Vec<SWARecover>,
    ) -> (total: usize)
        requires
            old(self).wf(),
            chain_of(old(self)@, chain@),
            old(self)@.nodes.len() + 4 <= NodeId::MAX,
            evicted as int % old(self)@.shape.page as int == 0,
            path_tokens(old(self)@.nodes, chain@, chain@.len() as int) <= value@.len(),
            freed(*old(free), old(recover)@) == Freed::none(),
        ensures
            final(self).wf(),
            (final(self)@, freed(*final(free), final(recover)@), total as int) == old(self)@.met(
                chain@,
                chain@.len(),
                value@,
                upd as int,
                evicted as int,
            ),
            total == path_tokens(old(self)@.nodes, chain@, chain@.len() as int),
            met_ok(old(self)@, final(self)@, chain@, chain@.len() as int),
            final(self)@.nodes.len() <= old(self)@.nodes.len() + (if evicted < total {
                1int
            } else {
                0
            }),
            forall|p: NodeId, ns: u32, head: Seq<i64>|
                old(self)@.shape.has(p) && old(self)@.shape.child_of(p, ns, head) is None ==> (
                #[trigger] final(self)@.shape.child_of(p, ns, head)) is None,
    {
        let ghost base = self@;
        let mut total: usize = 0;
        let mut k: usize = 0;
        assert(chain@.take(0) =~= Seq::<NodeId>::empty());
        while k < chain.len()
            invariant
                self.wf(),
                base.wf(),
                chain_of(base, chain@),
                k <= chain@.len(),
                base.nodes.len() + 4 <= NodeId::MAX,
                evicted as int % base.shape.page as int == 0,
                (self@, freed(*free, recover@), total as int) == base.met(
                    chain@,
                    k as nat,
                    value@,
                    upd as int,
                    evicted as int,
                ),
                total == path_tokens(base.nodes, chain@, k as int),
                path_tokens(base.nodes, chain@, chain@.len() as int) <= value@.len(),
                met_ok(base, self@, chain@, k as int),
                self@.nodes.len() <= base.nodes.len() + (if evicted < total {
                    1int
                } else {
                    0
                }),
                forall|p: NodeId, ns: u32, head: Seq<i64>|
                    base.shape.has(p) && base.shape.child_of(p, ns, head) is None ==> (
                    #[trigger] self@.shape.child_of(p, ns, head)) is None,
            decreases chain@.len() - k,
        {
            let c = chain[k];
            let ghost cur = self@;
            let ghost out = freed(*free, recover@);
            proof {
                assert(base.live(chain@[k as int]));
                lemma_path_tokens(base, chain@, k as int);
                lemma_path_tokens_le(base.nodes, chain@, k + 1, chain@.len() as int);
                lemma_not_met(chain@, k as int);
                assert(cur.nodes[c as int] == base.nodes[c as int]);
                swa_model::lemma_passed(cur, c);
                lemma_total_aligned(base, chain@, k as int);
                lemma_evict_aligned(base.shape, evicted as int, total as int);
                swa_model::lemma_absorb(
                    cur.passed(c),
                    c,
                    total as int,
                    value@.skip(total as int),
                    upd as int,
                    evicted as int,
                    out,
                );
            }
            self.pass(c);
            let run = self.run_of(c);
            let len = run.len();
            self.absorb(c, total, value, upd, evicted, free, recover);
            proof {
                lemma_met_ok_step(base, cur, self@, chain@, k as int);
                assert(total + len <= value.len());
            }
            total = total + len;
            k += 1;
        }
        total
    }

    /// An insert cuts the node matched in part and meets its front.
    fn meet_front(
        &mut self,
        c: NodeId,
        m: usize,
        total: usize,
        value: &[i64],
        upd: usize,
        evicted: usize,
        free: &mut FreeOps,
        recover: &mut Vec<SWARecover>,
    ) -> (front: NodeId)
        requires
            old(self).wf(),
            old(self)@.live(c),
            old(self)@.nodes.len() + 2 <= NodeId::MAX,
            0 < m < old(self)@.shape.nodes[c as int].key.len(),
            old(self)@.shape.aligned(m as int),
            total + m as int / old(self)@.shape.unit as int <= value@.len(),
            total <= evicted ==> old(self)@.shape.aligned((evicted - total) * old(self)@.shape.unit),
        ensures
            final(self).wf(),
            front == old(self)@.nodes.len(),
            (final(self)@, freed(*final(free), final(recover)@)) == old(self)@.passed(c).cut(c, m as int).absorb(
                front,
                total as int,
                value@.skip(total as int),
                upd as int,
                evicted as int,
                freed(*old(free), old(recover)@),
            ),
            final(self)@.full_size() == old(self)@.full_size(),
            final(self)@.live(front),
            final(self)@.names == old(self)@.names,
            final(self)@.shape.page == old(self)@.shape.page,
            final(self)@.shape.unit == old(self)@.shape.unit,
            final(self)@.nodes.len() <= old(self)@.nodes.len() + (if total < evicted {
                2int
            } else {
                1
            }),
            final(self)@.shape.nodes[front as int].ns == old(self)@.shape.nodes[c as int].ns,
            forall|ns: u32, head: Seq<i64>|
                old(self)@.shape.split(c, m as int).child_of(front, ns, head) is None ==> (
                #[trigger] final(self)@.shape.child_of(front, ns, head)) is None,
    {
        let ghost cur = self@;
        let ghost unit = cur.shape.unit as int;
        proof {
            swa_model::lemma_passed(cur, c);
        }
        self.pass(c);
        let ghost mid = self@;
        proof {
            swa_model::lemma_cut(mid, c, m as int);
        }
        let front = self.split_node(c, m);
        let ghost cut = self@;
        proof {
            assert(cut.run(front).len() == m as int / unit);
            swa_model::lemma_absorb(
                cut,
                front,
                total as int,
                value@.skip(total as int),
                upd as int,
                evicted as int,
                freed(*free, recover@),
            );
        }
        self.absorb(front, total, value, upd, evicted, free, recover);
        front
    }

    /// The next clock tick.
    fn tick(&mut self) -> (now: u64)
        requires
            old(self).wf(),
        ensures
            final(self).wf(),
            final(self)@ == old(self)@,
    {
        if self.clock < u64::MAX {
            self.clock = self.clock + 1;
        }
        self.clock
    }

    /// Marks a visit of `id`.
    fn stamp(&mut self, id: NodeId, now: u64)
        requires
            old(self).wf(),
            id < old(self)@.nodes.len(),
        ensures
            final(self).wf(),
            final(self)@ == old(self)@,
    {
        let ghost st = self@;
        self.nodes[id as usize].last_access = now;
        assert(self@.nodes =~= st.nodes);
    }

    /// A copy of a node's run.
    fn run_of(&self, id: NodeId) -> (r: Vec<i64>)
        requires
            self.wf(),
            self@.live(id),
        ensures
            r@ == self@.run(id),
    {
        assert(self@.nodes[id as int] == self.nodes@[id as int]@);
        match &self.nodes[id as usize].value {
            Some(v) => copy_range(v.as_slice(), 0, v.len()),
            None => Vec::new(),
        }
    }

    /// Adds a slot for one more node to both lists.
    fn grow_lists(&mut self)
        requires
            old(self).full_lru.wf(),
            old(self).swa_lru.wf(),
            old(self).full_lru.capacity() <= old(self).nodes@.len(),
            old(self).swa_lru.capacity() <= old(self).nodes@.len(),
        ensures
            *final(self) == (SWARadixTree {
                full_lru: final(self).full_lru,
                swa_lru: final(self).swa_lru,
                ..*old(self)
            }),
            final(self).full_lru.wf(),
            final(self).swa_lru.wf(),
            final(self).full_lru@ == old(self).full_lru@,
            final(self).swa_lru@ == old(self).swa_lru@,
            final(self).full_lru.capacity() == old(self).nodes@.len(),
            final(self).swa_lru.capacity() == old(self).nodes@.len(),
    {
        proof {
            self.full_lru.lemma_members();
            self.swa_lru.lemma_members();
        }
        let n = self.nodes.len();
        self.full_lru.grow(n);
        self.swa_lru.grow(n);
    }

    /// Cuts `child` after `m` flattened elements and returns the new front
    /// node; `child` becomes the tail.
    fn split_node(&mut self, child: NodeId, m: usize) -> (new_id: NodeId)
        requires
            old(self).wf(),
            old(self)@.live(child),
            old(self)@.nodes.len() < NodeId::MAX,
            0 < m < old(self)@.shape.nodes[child as int].key.len(),
            old(self)@.shape.aligned(m as int),
        ensures
            final(self).wf(),
            new_id == old(self)@.nodes.len(),
            final(self)@ == old(self)@.cut(child, m as int),
    {
        let ghost st = self@;
        let ghost t = st.cut(child, m as int);
        proof {
            swa_model::lemma_cut(st, child, m as int);
            assert(st.nodes[child as int] == self.nodes@[child as int]@);
            assert(st.full.contains(child));
            assert(st.swa.contains(child) <==> !st.nodes[child as int].tombstone);
        }
        let units = m / self.trunk.topo.unit_size();
        let new_id = self.trunk.topo.split(child, m);
        let front_access = self.tick_raw();
        let tail_access = self.tick_raw();
        let mut front: Vec<i64> = Vec::new();
        let mut tail: Vec<i64> = Vec::new();
        if let Some(v) = &self.nodes[child as usize].value {
            front = copy_range(v.as_slice(), 0, units);
            tail = copy_range(v.as_slice(), units, v.len());
        }
        proof {
            let v = st.run(child);
            assert(front@ =~= v.take(units as int));
            assert(tail@ =~= v.skip(units as int));
        }
        let full_lock_ref = self.nodes[child as usize].full_lock_ref;
        let swa_lock_ref = self.nodes[child as usize].swa_lock_ref;
        let swa_tombstone = self.nodes[child as usize].swa_tombstone;
        let swa_uuid = self.nodes[child as usize].swa_uuid;
        self.nodes[child as usize].value = Some(tail);
        self.nodes[child as usize].swa_uuid = None;
        self.nodes[child as usize].last_access = tail_access;
        self.nodes.push(
            SWANode {
                value: Some(front),
                full_lock_ref,
                swa_lock_ref,
                swa_tombstone,
                swa_uuid,
                last_access: front_access,
                id: new_id,
            },
        );
        self.grow_lists();
        // The child goes in last: it is the more recently used half.
        self.full_lru.remove(child);
        proof {
            lru::lemma_gone(st.full, child, new_id);
        }
        self.full_lru.insert_mru(new_id);
        proof {
            lru::lemma_pair(st.full, child, new_id);
        }
        self.full_lru.insert_mru(child);
        if !swa_tombstone {
            self.swa_lru.remove(child);
            proof {
                lru::lemma_gone(st.swa, child, new_id);
            }
            self.swa_lru.insert_mru(new_id);
            proof {
                lru::lemma_pair(st.swa, child, new_id);
            }
            self.swa_lru.insert_mru(child);
        }
        proof {
            assert(self@.nodes =~= t.nodes);
            assert(self@ =~= t);
            assert(self@.frame() == self.trunk@);
        }
        new_id
    }

    /// The next clock tick, where the tree is being rebuilt.
    fn tick_raw(&mut self) -> (now: u64)
        ensures
            *final(self) == (SWARadixTree { clock: now, ..*old(self) }),
    {
        if self.clock < u64::MAX {
            self.clock = self.clock + 1;
        }
        self.clock
    }
}

/// The tally of an eviction, as the model describes it.
pub open spec fn tally(r: SWAEvictResult) -> Tally {
    Tally {
        full: r.full_num_evicted as int,
        swa: r.swa_num_evicted as int,
        out: freed(r.free, Seq::empty()),
    }
}

/// An eviction of a leaf hands out what the tree loses.
proof fn lemma_evict_leaf(st: SWAState, x: NodeId, t: Tally)
    requires
        st.wf(),
        st.live(x),
        st.shape.is_leaf(x),
        st.nodes[x as int].full_lock == 0,
    ensures
        ({
            let (a, t1, n) = st.evict_leaf(x, t);
            &&& a.wf()
            &&& t1.full + n + a.full_size() == t.full + st.full_size()
            &&& t1.swa + a.swa_size() == t.swa + st.swa_size()
            &&& n >= 0
            &&& a.live_count() < st.live_count()
            &&& a.live_count() >= 0
        }),
{
    swa_model::lemma_dropped(st, x);
    topo::lemma_path_grows(st.shape, x);
    let v = st.run(x);
    let out = if st.nodes[x as int].tombstone {
        Freed { full: t.out.full.push(v), ..t.out }
    } else {
        Freed { kv: t.out.kv.push(v), ..t.out }
    };
    lemma_cascade(st.dropped(x), st.shape.nodes[x as int].parent, out);
    swa_model::lemma_cascade_counts(st.dropped(x), st.shape.nodes[x as int].parent, out);
}

proof fn lemma_cascade(st: SWAState, p: NodeId, out: Freed)
    requires
        st.wf(),
    ensures
        ({
            let (a, o, n) = st.cascade(p, out);
            &&& a.wf()
            &&& n >= 0
            &&& n + a.full_size() == st.full_size()
            &&& a.swa_size() == st.swa_size()
        }),
    decreases st.live_count(),
{
    if st.orphaned(p) {
        swa_model::lemma_dropped(st, p);
        lemma_cascade(
            st.dropped(p),
            st.shape.nodes[p as int].parent,
            Freed { full: out.full.push(st.run(p)), ..out },
        );
    }
}

/// Only the first `k` of the nodes `ids` differ.
pub open spec fn untouched(st: SWAState, cur: SWAState, ids: Seq<NodeId>, k: int) -> bool {
    &&& cur.shape == st.shape
    &&& cur.window == st.window
    &&& cur.nodes.len() == st.nodes.len()
    &&& forall|i: int|
        0 <= i < st.nodes.len() && !ids.take(k).contains(i as NodeId) ==> (#[trigger] cur.nodes[i])
            == st.nodes[i]
}

proof fn lemma_untouched_step(st: SWAState, cur: SWAState, next: SWAState, ids: Seq<NodeId>, k: int)
    requires
        untouched(st, cur, ids, k),
        0 <= k < ids.len(),
        next.shape == cur.shape,
        next.window == cur.window,
        next.nodes.len() == cur.nodes.len(),
        st.nodes.len() <= NodeId::MAX,
        forall|i: int|
            0 <= i < cur.nodes.len() && i != ids[k] ==> (#[trigger] next.nodes[i]) == cur.nodes[i],
    ensures
        untouched(st, next, ids, k + 1),
{
    assert(ids.take(k + 1) =~= ids.take(k).push(ids[k]));
    assert forall|i: int| 0 <= i < st.nodes.len() && !ids.take(k + 1).contains(i as NodeId) implies (
    #[trigger] next.nodes[i]) == st.nodes[i] by {
        tree_model::lemma_push_contains(ids.take(k), ids[k], i as NodeId);
        assert(cur.nodes[i] == st.nodes[i]);
    }
}

proof fn lemma_unmarked_step(st: SWAState, up: Seq<NodeId>, k: int, uuid: Option<u64>)
    requires
        0 <= k < up.len(),
    ensures
        st.unmarked(up, k + 1, uuid) == (st.unmarked(up, k, uuid) && (uuid is None || st.nodes[up[k] as int].uuid
            != uuid)),
{
    if st.unmarked(up, k, uuid) && (uuid is None || st.nodes[up[k] as int].uuid != uuid) {
        assert forall|j: int| 0 <= j < k + 1 implies uuid is None || st.nodes[(#[trigger] up[j]) as int].uuid != uuid by {
            if j == k {
            }
        }
    }
    if st.unmarked(up, k + 1, uuid) {
        assert(uuid is None || st.nodes[up[k] as int].uuid != uuid);
    }
}

/// One more node unlocked.
proof fn lemma_unlocked_step(st: SWAState, up: Seq<NodeId>, k: int, uuid: Option<u64>, skip: bool)
    requires
        st.nodes.len() <= NodeId::MAX,
        up.no_duplicates(),
        0 <= k < up.len(),
        up[k] < st.nodes.len(),
    ensures
        ({
            let a = st.unlocked(up, k, uuid, skip);
            let n = st.nodes[up[k] as int];
            let full_lock = (n.full_lock - 1) as u32;
            &&& a.nodes[up[k] as int] == n
            &&& st.unlocked(up, k + 1, uuid, skip) == a.patched(
                up[k],
                if !skip && st.unmarked(up, k, uuid) {
                    SWANodeState { full_lock, swa_lock: (n.swa_lock - 1) as u32, ..n }
                } else {
                    SWANodeState { full_lock, ..n }
                },
            )
        }),
{
    let a = st.unlocked(up, k, uuid, skip);
    let b = st.unlocked(up, k + 1, uuid, skip);
    let x = up[k];
    assert(up.take(k + 1) =~= up.take(k).push(x));
    lemma_not_met(up, k);
    assert(up.contains(x));
    assert(up.index_of(x) == k);
    let n = st.nodes[x as int];
    let full_lock = (n.full_lock - 1) as u32;
    let m = if !skip && st.unmarked(up, k, uuid) {
        SWANodeState { full_lock, swa_lock: (n.swa_lock - 1) as u32, ..n }
    } else {
        SWANodeState { full_lock, ..n }
    };
    assert forall|i: int| 0 <= i < st.nodes.len() implies b.nodes[i] == a.patched(x, m).nodes[i] by {
        tree_model::lemma_push_contains(up.take(k), x, i as NodeId);
    }
    assert(b.nodes =~= a.patched(x, m).nodes);
}

/// A release passes at least the node it has come to.
proof fn lemma_release_len(st: SWAState, up: Seq<NodeId>, k: nat, uuid: Option<u64>)
    requires
        k < up.len(),
    ensures
        k < st.release_len(up, k, uuid) <= up.len(),
    decreases up.len() - k,
{
    reveal_with_fuel(SWAState::release_len, 2);
    if !(uuid is Some && st.nodes[up[k as int] as int].uuid == uuid) && k + 1 < up.len() {
        lemma_release_len(st, up, k + 1, uuid);
    }
}

/// What an insert adds below `p` of the part that is not in the tree.
pub open spec fn grown_rest(
    st: SWAState,
    kv: Seq<Seq<i64>>,
    p: NodeId,
    ns: u32,
    flat: Seq<i64>,
    used: int,
    val: Seq<i64>,
    evicted: int,
) -> (SWAState, Seq<Seq<i64>>, NodeId) {
    let unit = st.shape.unit as int;
    let total = used / unit;
    if evicted == val.len() {
        (st, kv.push(val.skip(total)), p)
    } else if total < evicted < val.len() {
        let q = st.nodes.len() as NodeId;
        let mid = evicted * unit;
        let a = st.grown(p, ns, flat.subrange(used, mid), val.subrange(total, evicted), true);
        (a.grown(q, ns, flat.skip(mid), val.skip(evicted), false), kv, (q + 1) as NodeId)
    } else {
        (st.grown(p, ns, flat.skip(used), val.skip(total), false), kv, st.nodes.len() as NodeId)
    }
}

/// The nodes `ids` are live, each listed by the one before it, the first by
/// the root.
pub open spec fn chain_of(st: SWAState, ids: Seq<NodeId>) -> bool {
    &&& ids.no_duplicates()
    &&& forall|j: int| 0 <= j < ids.len() ==> st.live(#[trigger] ids[j])
}

/// Tokens of the first `k` nodes of `ids`.
pub open spec fn path_tokens(nodes: Seq<SWANodeState>, ids: Seq<NodeId>, k: int) -> int
    decreases k,
{
    if k <= 0 {
        0
    } else {
        path_tokens(nodes, ids, k - 1) + nodes[ids[k - 1] as int].value->0.len()
    }
}

/// Distinct live nodes hold no more tokens than the tree.
proof fn lemma_path_tokens(st: SWAState, ids: Seq<NodeId>, k: int)
    requires
        st.wf(),
        chain_of(st, ids),
        0 <= k < ids.len(),
    ensures
        path_tokens(st.nodes, ids, k + 1) == path_tokens(st.nodes, ids, k) + st.run(ids[k]).len(),
        0 <= path_tokens(st.nodes, ids, k),
        path_tokens(st.nodes, ids, k + 1) <= st.full_size(),
{
    swa_model::law_sizes_add_up(st);
    lemma_path_tokens_bound(st, ids, k + 1, st.nodes.len());
    lemma_path_tokens_bound(st, ids, k, st.nodes.len());
}

/// What nodes outside the first `k` of `ids` hold.
spec fn held_outside(st: SWAState, ids: Seq<NodeId>, k: int, i: int) -> int {
    if ids.take(k).contains(i as NodeId) {
        0
    } else {
        st.held(i)
    }
}

proof fn lemma_path_tokens_bound(st: SWAState, ids: Seq<NodeId>, k: int, n: nat)
    requires
        st.wf(),
        chain_of(st, ids),
        0 <= k <= ids.len(),
        n == st.nodes.len(),
    ensures
        path_tokens(st.nodes, ids, k) + seqs::total(|i: int| held_outside(st, ids, k, i), n) == seqs::total(
            |i: int| st.held(i),
            n,
        ),
        seqs::total(|i: int| held_outside(st, ids, k, i), n) >= 0,
        path_tokens(st.nodes, ids, k) >= 0,
    decreases k,
{
    assert forall|i: int| 0 <= i < n implies held_outside(st, ids, k, i) >= 0 by {
        if i > 0 {
            swa_model::lemma_units(st, i);
        }
    }
    seqs::lemma_total_bounds(|i: int| held_outside(st, ids, k, i), n);
    if k == 0 {
        assert(ids.take(0) =~= Seq::<NodeId>::empty());
        seqs::lemma_total_same(|i: int| held_outside(st, ids, k, i), |i: int| st.held(i), n);
    } else {
        lemma_path_tokens_bound(st, ids, k - 1, n);
        let x = ids[k - 1];
        let a = |i: int| held_outside(st, ids, k - 1, i);
        let b = |i: int| held_outside(st, ids, k, i);
        assert(ids.take(k) =~= ids.take(k - 1).push(x));
        assert(!ids.take(k - 1).contains(x)) by {
            if ids.take(k - 1).contains(x) {
                let j = ids.take(k - 1).index_of(x);
                assert(ids[j] == ids[k - 1]);
            }
        }
        assert(st.live(ids[k - 1]));
        assert(st.node_ok(x as int));
        assert forall|i: int| 0 <= i < n && i != x implies #[trigger] a(i) == b(i) by {
            tree_model::lemma_push_contains(ids.take(k - 1), x, i as NodeId);
        }
        tree_model::lemma_push_contains(ids.take(k - 1), x, x);
        seqs::lemma_total_update(a, b, n, x as int);
    }
}

proof fn lemma_path_tokens_le(nodes: Seq<SWANodeState>, ids: Seq<NodeId>, i: int, j: int)
    requires
        0 <= i <= j,
    ensures
        path_tokens(nodes, ids, i) <= path_tokens(nodes, ids, j),
    decreases j - i,
{
    if i < j {
        lemma_path_tokens_le(nodes, ids, i, j - 1);
    }
}

/// The last of the first `k` nodes is live.
proof fn lemma_end_live(st: SWAState, ids: Seq<NodeId>, k: int)
    requires
        chain_of(st, ids),
        0 <= k <= ids.len(),
    ensures
        topo::end_of(ids.take(k)) == ROOT || st.live(topo::end_of(ids.take(k))),
{
    if k > 0 {
        assert(st.live(ids[k - 1]));
    }
}

/// A cut leaves the nodes of the chain live, and adds the front to it.
proof fn lemma_cut_chain(st: SWAState, chain: Seq<NodeId>, c: NodeId, m: int)
    requires
        st.wf(),
        st.live(c),
        st.nodes.len() < NodeId::MAX,
        chain_of(st, chain),
        !chain.contains(c),
    ensures
        chain_of(st.cut(c, m), chain.push(st.nodes.len() as NodeId)),
{
    let f = st.nodes.len() as NodeId;
    let t = st.cut(c, m);
    let ids = chain.push(f);
    assert forall|j: int| 0 <= j < ids.len() implies t.live(#[trigger] ids[j]) by {
        if j < chain.len() {
            assert(ids[j] == chain[j]);
            assert(st.live(chain[j]));
            assert(chain.contains(chain[j]));
        }
    }
    assert forall|i: int, j: int| 0 <= i < ids.len() && 0 <= j < ids.len() && i != j implies ids[i] != ids[j] by {
        if i < chain.len() {
            assert(st.live(chain[i]));
        }
        if j < chain.len() {
            assert(st.live(chain[j]));
        }
    }
}

/// One more recovery.
proof fn lemma_push_recover(v: Seq<SWARecover>, x: SWARecover)
    ensures
        recoveries(v.push(x)) == recoveries(v).push((x.tree_value@, x.incoming@)),
{
    assert(recoveries(v.push(x)) =~= recoveries(v).push((x.tree_value@, x.incoming@)));
}

/// A cut inside a node falls inside its key.
proof fn lemma_cut_point(st: SWAState, v: NodeId, s: int)
    requires
        st.wf(),
        st.live(v),
        0 < s < st.run(v).len(),
    ensures
        0 < s * st.shape.unit < st.shape.nodes[v as int].key.len(),
        s * st.shape.unit / st.shape.unit as int == s,
{
    assert(st.node_ok(v as int));
    swa_model::lemma_units(st, v as int);
    let unit = st.shape.unit as int;
    let len = st.run(v).len() as int;
    assert(0 < s * unit < len * unit) by (nonlinear_arith)
        requires
            0 < s < len,
            unit >= 1,
    ;
    vstd::arithmetic::div_mod::lemma_div_by_multiple(s, unit);
}

/// Whole pages of units are whole pages of flattened elements.
proof fn lemma_page_units(s: topo::Shape, n: int)
    requires
        s.wf(),
        0 <= n,
        n % (s.page as int) == 0,
    ensures
        s.aligned(n * s.unit),
        n * s.unit / s.unit as int == n,
        (n * s.unit) % (s.unit as int) == 0,
{
    topo::lemma_chunk(s);
    let page = s.page as int;
    let unit = s.unit as int;
    let q = n / page;
    vstd::arithmetic::div_mod::lemma_fundamental_div_mod(n, page);
    assert(n * unit == q * (page * unit)) by (nonlinear_arith)
        requires
            n == page * q,
    ;
    vstd::arithmetic::div_mod::lemma_mod_multiples_basic(q, page * unit);
    vstd::arithmetic::div_mod::lemma_mod_multiples_basic(n, unit);
    vstd::arithmetic::div_mod::lemma_div_by_multiple(n, unit);
}

/// The part of the overlap before the eviction boundary is whole pages.
proof fn lemma_evict_aligned(s: topo::Shape, evicted: int, total: int)
    requires
        s.wf(),
        0 <= total,
        0 <= evicted,
        evicted % (s.page as int) == 0,
        s.aligned(total * s.unit),
    ensures
        total <= evicted ==> s.aligned((evicted - total) * s.unit),
{
    if total <= evicted {
        lemma_page_units(s, evicted);
        let unit = s.unit as int;
        assert((evicted - total) * unit == evicted * unit - total * unit) by (nonlinear_arith);
        assert(total * unit <= evicted * unit) by (nonlinear_arith)
            requires
                total <= evicted,
                unit >= 0,
        ;
        assert(0 <= total * unit) by (nonlinear_arith)
            requires
                0 <= total,
                unit >= 0,
        ;
        topo::lemma_aligned(s, evicted * unit, total * unit);
    }
}

/// A new leaf has no children.
proof fn lemma_new_leaf_free(s: topo::Shape, p: NodeId, ns: u32, key: Seq<i64>, head: Seq<i64>)
    requires
        s.wf(),
        s.has(p),
        s.nodes.len() < NodeId::MAX,
    ensures
        s.graft(p, ns, key).child_of(s.nodes.len() as NodeId, ns, head) is None,
{
    let t = s.graft(p, ns, key);
    let f = s.nodes.len() as NodeId;
    assert forall|d: NodeId| !t.named(f, ns, head, d) by {
        if t.named(f, ns, head, d) && d != f {
            assert(s.hangs(d as int));
        }
    }
}

/// Tokens of the walked chain, with those of the node matched in part, are
/// the matched part of the key.
proof fn lemma_stop_tokens(st: SWAState, key: RadixKey)
    requires
        st.wf(),
    ensures
        ({
            let w = st.frame().walk(key);
            let n = path_tokens(st.nodes, w.chain, w.chain.len() as int);
            let unit = st.shape.unit as int;
            match w.stop {
                None => n == w.used as int / unit,
                Some((c, m)) => n + m as int / unit == w.used as int / unit,
            }
        }),
{
    query::lemma_query(st.frame(), key);
    if st.frame().fits(key) {
        lemma_walk_tokens(st, ROOT, st.frame().ns_of(key), st.frame().flat(key));
    }
}

proof fn lemma_walk_tokens(st: SWAState, node: NodeId, ns: u32, rem: Seq<i64>)
    requires
        st.wf(),
        st.shape.has(node),
        st.shape.aligned(rem.len() as int),
    ensures
        ({
            let w = st.shape.walk(node, ns, rem);
            let n = path_tokens(st.nodes, w.chain, w.chain.len() as int);
            let unit = st.shape.unit as int;
            &&& w.used as int % unit == 0
            &&& w.used <= rem.len()
            &&& match w.stop {
                None => n == w.used as int / unit,
                Some((c, m)) => n + m as int / unit == w.used as int / unit,
            }
        }),
    decreases rem.len(),
{
    let s = st.shape;
    let w = s.walk(node, ns, rem);
    let k = s.chunk() as int;
    let unit = s.unit as int;
    topo::lemma_chunk(s);
    vstd::arithmetic::div_mod::lemma_small_mod(0, s.chunk());
    if rem.len() >= k {
        if let Some(c) = s.child_of(node, ns, rem.take(k)) {
            assert(s.named(node, ns, rem.take(k), c));
            assert(st.node_ok(c as int));
            topo::lemma_shared(s, rem, c);
            let m = s.shared(rem, c) as int;
            topo::lemma_aligned(s, m, 0);
            topo::lemma_aligned(s, rem.len() as int, m);
            if m == s.nodes[c as int].key.len() {
                lemma_walk_tokens(st, c, ns, rem.skip(m));
                let w1 = s.walk(c, ns, rem.skip(m));
                assert(w.chain == seq![c] + w1.chain);
                lemma_tokens_front(st, c, w1.chain, w1.chain.len() as int);
                crate::content::lemma_units_sum(m, w1.used as int, unit);
            }
        }
    }
}

proof fn lemma_tokens_front(st: SWAState, c: NodeId, rest: Seq<NodeId>, k: int)
    requires
        0 <= k <= rest.len(),
    ensures
        path_tokens(st.nodes, seq![c] + rest, k + 1) == st.run(c).len() + path_tokens(st.nodes, rest, k),
    decreases k,
{
    let ids = seq![c] + rest;
    if k == 0 {
        assert(path_tokens(st.nodes, ids, 0) == 0);
        assert(ids[0] == c);
    } else {
        lemma_tokens_front(st, c, rest, k - 1);
        assert(ids[k] == rest[k - 1]);
    }
}

/// The chain's tokens lie within the key.
proof fn lemma_chain_tokens(st: SWAState, key: RadixKey, k: int)
    requires
        st.wf(),
        0 <= k <= st.frame().walk(key).chain.len(),
    ensures
        path_tokens(st.nodes, st.frame().walk(key).chain, k) <= st.frame().units(key),
{
    let f = st.frame();
    let w = f.walk(key);
    query::lemma_query(f, key);
    lemma_stop_tokens(st, key);
    lemma_path_tokens_le(st.nodes, w.chain, k, w.chain.len() as int);
    tree_model::lemma_halves(f.flat(key).len() as int, w.used as int, st.shape.unit as int);
    if let Some((c, m)) = w.stop {
        topo::lemma_aligned(st.shape, w.used as int, m as int);
        vstd::arithmetic::div_mod::lemma_small_mod(0, st.shape.chunk());
        topo::lemma_chunk(st.shape);
        topo::lemma_aligned(st.shape, m as int, 0);
        tree_model::lemma_halves(w.used as int, m as int, st.shape.unit as int);
    }
}

/// A chain of whole nodes is whole pages.
proof fn lemma_total_aligned(st: SWAState, chain: Seq<NodeId>, k: int)
    requires
        st.wf(),
        chain_of(st, chain),
        0 <= k <= chain.len(),
    ensures
        st.shape.aligned(path_tokens(st.nodes, chain, k) * st.shape.unit),
        path_tokens(st.nodes, chain, k) >= 0,
    decreases k,
{
    let s = st.shape;
    topo::lemma_chunk(s);
    vstd::arithmetic::div_mod::lemma_small_mod(0, s.chunk());
    if k > 0 {
        lemma_total_aligned(st, chain, k - 1);
        let c = chain[k - 1];
        assert(st.live(chain[k - 1]));
        assert(st.node_ok(c as int));
        swa_model::lemma_units(st, c as int);
        assert(s.hangs(c as int));
        lemma_aligned_sum(s, path_tokens(st.nodes, chain, k - 1), st.run(c).len() as int);
        assert(path_tokens(st.nodes, chain, k) == path_tokens(st.nodes, chain, k - 1) + st.run(c).len());
    } else {
        let unit = s.unit as int;
        assert(0 * unit == 0) by (nonlinear_arith);
    }
}

proof fn lemma_aligned_sum(s: topo::Shape, a: int, b: int)
    requires
        s.wf(),
        0 <= a,
        0 <= b,
        s.aligned(a * s.unit),
        s.aligned(b * s.unit),
    ensures
        s.aligned((a + b) * s.unit),
{
    let unit = s.unit as int;
    let x = a * unit;
    let y = b * unit;
    assert((a + b) * unit == x + y) by (nonlinear_arith)
        requires
            x == a * unit,
            y == b * unit,
    ;
    assert(x >= 0 && y >= 0) by (nonlinear_arith)
        requires
            x == a * unit,
            y == b * unit,
            a >= 0,
            b >= 0,
            unit >= 0,
    ;
    if x >= y {
        topo::lemma_aligned(s, x, y);
    } else {
        topo::lemma_aligned(s, y, x);
    }
}

/// What holds of the nodes that an insert has not met yet: they are as they
/// were; and the last one met can take a leaf.
pub open spec fn met_ok(base: SWAState, cur: SWAState, chain: Seq<NodeId>, k: int) -> bool {
    &&& cur.full_size() == base.full_size()
    &&& base.nodes.len() <= cur.nodes.len()
    &&& cur.names == base.names
    &&& cur.shape.page == base.shape.page
    &&& cur.shape.unit == base.shape.unit
    &&& forall|i: int|
        0 <= i < base.nodes.len() && !chain.take(k).contains(i as NodeId) ==> (#[trigger] cur.nodes[i])
            == base.nodes[i] && cur.shape.nodes[i] == base.shape.nodes[i]
    &&& forall|j: int|
        0 <= j < k ==> cur.live(#[trigger] chain[j]) && cur.shape.nodes[chain[j] as int].ns
            == base.shape.nodes[chain[j] as int].ns
}

proof fn lemma_met_ok_step(base: SWAState, cur: SWAState, next: SWAState, chain: Seq<NodeId>, k: int)
    requires
        base.wf(),
        cur.wf(),
        0 <= k < chain.len(),
        chain.no_duplicates(),
        met_ok(base, cur, chain, k),
        next.full_size() == cur.full_size(),
        next.live(chain[k]),
        swa_model::only_changes(cur.passed(chain[k]), next, chain[k]),
        chain[k] < base.nodes.len(),
    ensures
        met_ok(base, next, chain, k + 1),
{
    let c = chain[k];
    assert(chain.take(k + 1) =~= chain.take(k).push(c));
    assert forall|i: int| 0 <= i < base.nodes.len() && !chain.take(k + 1).contains(i as NodeId) implies (
    #[trigger] next.nodes[i]) == base.nodes[i] && next.shape.nodes[i] == base.shape.nodes[i] by {
        tree_model::lemma_push_contains(chain.take(k), c, i as NodeId);
        assert(cur.nodes[i] == base.nodes[i]);
        assert(cur.passed(c).nodes[i] == cur.nodes[i]);
    }
    lemma_not_met(chain, k);
    assert(cur.nodes[c as int] == base.nodes[c as int]);
    assert forall|j: int| 0 <= j < k + 1 implies next.live(#[trigger] chain[j]) && next.shape.nodes[chain[j] as int].ns
        == base.shape.nodes[chain[j] as int].ns by {
        if j < k {
            assert(cur.live(chain[j]));
            assert(chain[j] != c);
            assert(next.nodes[chain[j] as int] == cur.passed(c).nodes[chain[j] as int]);
        }
    }
}

/// What an insert needs of its walk.
proof fn lemma_insert_path(st: SWAState, base: SWAState, key: RadixKey)
    requires
        st.wf(),
        base.wf(),
        base.nodes == st.nodes,
        base.shape == st.shape,
        st.frame().fits(key),
    ensures
        ({
            let w = st.frame().walk(key);
            let ns = st.frame().ns_of(key);
            let flat = st.frame().flat(key);
            let unit = st.shape.unit as int;
            let n = path_tokens(base.nodes, w.chain, w.chain.len() as int);
            let end = topo::end_of(w.chain);
            let k = st.shape.chunk() as int;
            &&& chain_of(base, w.chain)
            &&& n <= st.frame().units(key)
            &&& st.shape.has(end)
            &&& st.shape.nodes[end as int].attached
            &&& end != ROOT ==> st.shape.nodes[end as int].ns == ns
            &&& match w.stop {
                None => {
                    &&& w.used < flat.len() ==> st.shape.child_of(end, ns, flat.skip(w.used as int).take(k)) is None
                },
                Some((c, m)) => {
                    &&& base.live(c)
                    &&& !w.chain.contains(c)
                    &&& st.shape.nodes[c as int].ns == ns
                    &&& 0 < m < st.shape.nodes[c as int].key.len()
                    &&& st.shape.aligned(m as int)
                    &&& n + m as int / unit <= st.frame().units(key)
                    &&& w.used < flat.len() ==> flat.skip(w.used as int).take(k)
                        != st.shape.nodes[c as int].key.skip(m as int).take(k)
                },
            }
        }),
{
    let f = st.frame();
    let w = f.walk(key);
    query::lemma_query(f, key);
    lemma_stop_tokens(st, key);
    lemma_chain_tokens(st, key, w.chain.len() as int);
    tree_model::lemma_halves(f.flat(key).len() as int, w.used as int, st.shape.unit as int);
    assert forall|j: int| 0 <= j < w.chain.len() implies base.live(#[trigger] w.chain[j]) by {
        assert(base.node_ok(w.chain[j] as int));
    }
    if let Some((c, m)) = w.stop {
        assert(base.node_ok(c as int));
    }
}

/// The node matched in part has not been met.
proof fn lemma_unmet_stop(base: SWAState, cur: SWAState, chain: Seq<NodeId>, c: NodeId)
    requires
        base.wf(),
        base.live(c),
        !chain.contains(c),
        met_ok(base, cur, chain, chain.len() as int),
    ensures
        cur.live(c),
        cur.nodes[c as int] == base.nodes[c as int],
        cur.shape.nodes[c as int] == base.shape.nodes[c as int],
{
    assert(chain.take(chain.len() as int) =~= chain);
    assert(cur.nodes[c as int] == base.nodes[c as int]);
}

/// A node of a chain without repeats is not among those before it.
proof fn lemma_not_met(chain: Seq<NodeId>, k: int)
    requires
        chain.no_duplicates(),
        0 <= k < chain.len(),
    ensures
        !chain.take(k).contains(chain[k]),
{
    if chain.take(k).contains(chain[k]) {
        let j = chain.take(k).index_of(chain[k]);
        assert(chain[j] == chain[k]);
    }
}

} // verus!
