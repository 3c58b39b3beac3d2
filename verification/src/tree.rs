//! The base radix tree: single-tier, device-only.
//!
//! - `last_access` is a per-tree walk clock. Each match/insert walk and each
//!   node allocation gets its own strictly-increasing tick, so LRU order is
//!   deterministic.
//! - Nodes live in an arena and are never freed (the parent's child table is
//!   the only reference path). Node ids stay stable for the whole tree
//!   lifetime, which request bookkeeping (`last_node` handles) relies on.
//! - `evict` returns the evicted value runs for the caller to release
//!   through its allocator.
//! - Namespaces (`extra_key`, `cache_salt`) are interned; a child is found by
//!   its namespace and the first page of its key.
//!
//! What each operation does to the tree is stated over `RadixState`.

use crate::idset::IdSet;
use crate::key::RadixKey;
use crate::ns;
use crate::ns::Namespaces;
use crate::policy::EvictionPolicy;
use crate::queue::{EvictQueue, HeapItem};
use crate::seqs;
use crate::seqs::{append_run, copy_range};
use crate::topo;
use crate::topo::{NodeId, Topology, WalkPath, ROOT};
use crate::tree_model;
use crate::tree_model::{NodeState, RadixState};
use vstd::prelude::*;

verus! {

/// What one node caches. Where the node stands (parent, children, key) is
/// kept by the tree's topology under the same id.
#[derive(Debug, Clone)]
pub struct RawNode {
    /// KV cache indices, one per logical unit. `None` = evicted.
    /// Root: `Some(vec![])` (never "evicted").
    pub value: Option<Vec<i64>>,
    pub lock_ref: u32,
    /// Walk clock of the last match/insert that visited this node.
    pub last_access: u64,
    pub hit_count: u64,
    /// Eviction priority (lower evicts earlier under `Priority` policy).
    /// Root is `i32::MIN` so any real priority overrides it.
    pub priority: i32,
    pub id: NodeId,
}

impl RawNode {
    /// The node as the model describes it.
    pub open spec fn view(&self) -> NodeState {
        NodeState {
            value: match self.value {
                Some(v) => Some(v@),
                None => None,
            },
            lock_ref: self.lock_ref,
            last_access: self.last_access,
            hit_count: self.hit_count,
            priority: self.priority,
        }
    }

    /// An unlocked node with an empty value and the given ranking fields.
    pub fn test_node(id: NodeId, last_access: u64, hit_count: u64, priority: i32) -> (r: Self)
        ensures
            r.id == id,
            r@ == (NodeState {
                value: Some(Seq::empty()),
                lock_ref: 0,
                last_access,
                hit_count,
                priority,
            }),
    {
        let r = RawNode { value: Some(Vec::new()), lock_ref: 0, last_access, hit_count, priority, id };
        assert(r@.value->0 =~= Seq::<i64>::empty());
        r
    }
}

/// The nodes as the model describes them.
pub open spec fn node_states(nodes: Seq<RawNode>) -> Seq<NodeState> {
    Seq::new(nodes.len(), |i: int| nodes[i]@)
}

/// Result of `match_prefix`: the concatenated KV indices of the longest
/// cached prefix (page-aligned), and the terminal node handle.
#[derive(Debug, Clone, PartialEq, Eq)]
pub struct MatchResult {
    pub indices: Vec<i64>,
    pub last_node: NodeId,
}

#[derive(Debug, Clone, Copy, PartialEq, Eq)]
pub struct InsertResult {
    /// Logical tokens already present in the tree before this insert
    /// (excludes the new leaf's tokens): the range the caller may free
    /// from its own pool copy.
    pub prefix_len: usize,
    pub last_node: NodeId,
}

#[derive(Debug, Clone, PartialEq, Eq)]
pub struct EvictResult {
    /// Evicted value runs, in eviction order. The caller releases them
    /// through its allocator.
    pub evicted_values: Vec<Vec<i64>>,
    pub num_tokens_evicted: usize,
}

/// The runs as sequences.
pub open spec fn runs_of(v: Seq<Vec<i64>>) -> Seq<Seq<i64>> {
    Seq::new(v.len(), |i: int| v[i]@)
}

impl Default for EvictResult {
    fn default() -> (r: Self)
        ensures
            r.evicted_values@.len() == 0,
            r.num_tokens_evicted == 0,
    {
        EvictResult { evicted_values: Vec::new(), num_tokens_evicted: 0 }
    }
}

/// The base radix tree.
#[derive(Clone)]
pub struct RadixTree {
    topo: Topology,
    nodes: Vec<RawNode>,
    names: Namespaces,
    is_eagle: bool,
    disable: bool,
    policy: EvictionPolicy,
    /// Logical tokens currently in evictable (unlocked, live) nodes.
    evictable_size: i64,
    /// Logical tokens in locked (protected) nodes.
    protected_size: i64,
    /// Nodes that are live, unlocked, and have no live children.
    evictable_leaves: IdSet,
    /// Monotonic walk clock.
    clock: u64,
}

impl RadixTree {
    /// The state of the tree.
    pub closed spec fn view(&self) -> RadixState {
        RadixState {
            shape: self.topo@,
            nodes: node_states(self.nodes@),
            names: self.names@,
            clock: self.clock,
            is_eagle: self.is_eagle,
            disable: self.disable,
            policy: self.policy,
        }
    }

    /// The state is possible, and the counters and the leaf set say what
    /// follows from it.
    pub closed spec fn wf(&self) -> bool {
        &&& self.sound()
        &&& self.evictable_size == self@.evictable()
        &&& self.protected_size == self@.protected()
        &&& forall|id: NodeId| #[trigger] self.evictable_leaves@.contains(id) == self@.leaf(id)
    }

    /// `wf` but for the counters and the members of the leaf set.
    closed spec fn sound(&self) -> bool {
        &&& self.topo.wf()
        &&& self.names.wf()
        &&& self.evictable_leaves.wf()
        &&& self@.wf()
        &&& forall|i: int| 0 <= i < self.nodes@.len() ==> (#[trigger] self.nodes@[i]).id == i
    }

    /// What holds of the state of a well-formed tree.
    pub proof fn lemma_wf(&self)
        requires
            self.wf(),
        ensures
            self@.wf(),
            self@.shape.chunk() <= usize::MAX,
    {
        self.topo.lemma_wf();
    }

    /// A new tree; `page_size` must be at least 1.
    pub fn new(page_size: usize, is_eagle: bool, policy: EvictionPolicy) -> (r: Self)
        requires
            page_size >= 1,
            is_eagle ==> page_size * 2 <= usize::MAX,
        ensures
            r.wf(),
            r@ == RadixState::fresh(page_size as nat, is_eagle, false, policy),
    {
        RadixTree::empty(page_size, is_eagle, false, policy)
    }

    fn empty(page_size: usize, is_eagle: bool, disable: bool, policy: EvictionPolicy) -> (r: Self)
        requires
            page_size >= 1,
            is_eagle ==> page_size * 2 <= usize::MAX,
        ensures
            r.wf(),
            r@ == RadixState::fresh(page_size as nat, is_eagle, disable, policy),
    {
        let unit: usize = if is_eagle {
            2
        } else {
            1
        };
        let mut nodes: Vec<RawNode> = Vec::new();
        nodes.push(
            RawNode {
                value: Some(Vec::new()),
                lock_ref: 1,
                last_access: 0,
                hit_count: 0,
                priority: i32::MIN,
                id: ROOT,
            },
        );
        let r = RadixTree {
            topo: Topology::new(page_size, unit),
            nodes,
            names: Namespaces::new(),
            is_eagle,
            disable,
            policy,
            evictable_size: 0,
            protected_size: 0,
            evictable_leaves: IdSet::new(),
            clock: 0,
        };
        proof {
            let st = RadixState::fresh(page_size as nat, is_eagle, disable, policy);
            r.topo.lemma_wf();
            assert(r@.nodes[0].value->0 =~= Seq::<i64>::empty());
            assert(r@.nodes =~= st.nodes);
            reveal_with_fuel(seqs::total, 2);
        }
        r
    }

    /// Recreate the root and clear all bookkeeping.
    pub fn reset(&mut self)
        requires
            old(self).wf(),
        ensures
            final(self).wf(),
            final(self)@ == RadixState::fresh(
                old(self)@.shape.page,
                old(self)@.is_eagle,
                old(self)@.disable,
                old(self)@.policy,
            ),
    {
        proof {
            self.lemma_wf();
            topo::lemma_chunk(self@.shape);
        }
        let r = RadixTree::empty(self.topo.page_size(), self.is_eagle, self.disable, self.policy);
        *self = r;
    }

    /// The tree with caching switched off (`true`) or on.
    pub fn with_disable(self, disable: bool) -> (r: Self)
        requires
            self.wf(),
        ensures
            r.wf(),
            r@ == (RadixState { disable, ..self@ }),
    {
        let ghost before = self@;
        let mut r = self;
        r.disable = disable;
        proof {
            lemma_hits(before);
            tree_model::lemma_same_holdings(before, r@);
        }
        r
    }

    /// Logical units per page.
    pub fn page_size(&self) -> (r: usize)
        requires
            self.wf(),
        ensures
            r == self@.shape.page,
    {
        self.topo.page_size()
    }

    /// Whether the tree forces the bigram view.
    pub fn is_eagle(&self) -> (r: bool)
        ensures
            r == self@.is_eagle,
    {
        self.is_eagle
    }

    /// The root's handle.
    pub fn root_node(&self) -> (r: NodeId)
        ensures
            r == ROOT,
    {
        ROOT
    }

    /// Logical tokens in unlocked live nodes.
    pub fn evictable_size(&self) -> (r: i64)
        requires
            self.wf(),
        ensures
            r == self@.evictable(),
    {
        self.evictable_size
    }

    /// Logical tokens in locked live nodes.
    pub fn protected_size(&self) -> (r: i64)
        requires
            self.wf(),
        ensures
            r == self@.protected(),
    {
        self.protected_size
    }

    /// Sum of live values, over all nodes.
    pub fn total_size(&self) -> (r: i64)
        requires
            self.wf(),
        ensures
            r == self@.size(),
    {
        let ghost st = self@;
        let mut sum: i64 = 0;
        let mut i: usize = 0;
        proof {
            assert forall|j: int| 0 <= j < st.nodes.len() implies st.held(j) >= 0 by {
                if j > 0 {
                    tree_model::lemma_units(st, j);
                }
            }
        }
        while i < self.nodes.len()
            invariant
                self.wf(),
                st == self@,
                i <= self.nodes@.len() == st.nodes.len(),
                sum == seqs::total(|j: int| st.held(j), i as nat),
                forall|j: int| 0 <= j < st.nodes.len() ==> #[trigger] st.held(j) >= 0,
            decreases self.nodes@.len() - i,
        {
            proof {
                if i > 0 {
                    assert(st.node_ok(i as int));
                }
                let f = |j: int| st.held(j);
                seqs::lemma_total_prefix(f, (i + 1) as nat, st.nodes.len());
                seqs::lemma_total_bounds(f, i as nat);
                assert(st.nodes[i as int] == self.nodes@[i as int]@);
            }
            let n: usize = match &self.nodes[i].value {
                Some(v) => v.len(),
                None => 0,
            };
            sum = sum + n as i64;
            i += 1;
        }
        sum
    }

    /// Whether `id` names a live (non-evicted) node of this tree.
    pub fn is_live_node(&self, id: NodeId) -> (r: bool)
        ensures
            r == self@.live(id),
    {
        (id as usize) < self.nodes.len() && self.nodes[id as usize].value.is_some()
    }

    /// The KV indices of a live node.
    pub fn node_value(&self, id: NodeId) -> (r: Option<&[i64]>)
        ensures
            r is Some <==> self@.live(id),
            r matches Some(v) ==> v@ == self@.nodes[id as int].value->0,
    {
        if (id as usize) < self.nodes.len() {
            match &self.nodes[id as usize].value {
                Some(v) => Some(v.as_slice()),
                None => None,
            }
        } else {
            None
        }
    }

    /// The lock count of a node; `u32::MAX` for an unknown id.
    pub fn node_lock_ref(&self, id: NodeId) -> (r: u32)
        ensures
            r == (if id < self@.nodes.len() {
                self@.nodes[id as int].lock_ref
            } else {
                u32::MAX
            }),
    {
        if (id as usize) < self.nodes.len() {
            self.nodes[id as usize].lock_ref
        } else {
            u32::MAX
        }
    }

    /// Sorted snapshot of the evictable-leaf set.
    pub fn debug_evictable_leaves(&self) -> (r: Vec<NodeId>)
        requires
            self.wf(),
        ensures
            forall|i: int, j: int| 0 <= i < j < r@.len() ==> r@[i] < r@[j],
            forall|id: NodeId| #[trigger] r@.contains(id) <==> self@.leaf(id),
    {
        self.evictable_leaves.sorted()
    }

    /// Nodes in the arena.
    pub(crate) fn len(&self) -> (r: usize)
        requires
            self.wf(),
        ensures
            r == self@.nodes.len(),
    {
        self.nodes.len()
    }

    /// Whether `c` is a child of `p`.
    pub(crate) fn is_child(&self, p: NodeId, c: NodeId) -> (r: bool)
        requires
            self.wf(),
            0 < c < self@.nodes.len(),
        ensures
            r == self@.shape.is_child(p, c),
    {
        assert(self@.node_ok(c as int));
        match self.topo.parent(c) {
            Some(x) => x == p && self.nodes[c as usize].value.is_some(),
            None => false,
        }
    }

    /// The flattened key of a node, and its units.
    pub(crate) fn key_of(&self, id: NodeId) -> (r: (&[i64], usize))
        requires
            self.wf(),
            id < self@.nodes.len(),
        ensures
            r.0@ == self@.shape.nodes[id as int].key,
            r.1 == self@.shape.units(id as int),
    {
        (self.topo.key(id), self.topo.units(id))
    }

    /// No key has more units than the tree has tokens.
    pub(crate) proof fn lemma_short(&self, id: NodeId)
        requires
            self.wf(),
            self@.live(id) || id == ROOT,
        ensures
            self@.shape.units(id as int) <= i64::MAX,
    {
        let st = self@;
        self.lemma_wf();
        law_size_bounds(st);
        let f = |i: int| st.held(i);
        assert forall|i: int| 0 <= i < st.nodes.len() implies #[trigger] f(i) >= 0 by {
            if i > 0 {
                assert(st.node_ok(i));
            }
        }
        seqs::lemma_total_bounds(f, st.nodes.len());
        assert(f(id as int) == st.held(id as int));
    }

    /// Live children of a node (evicted children are already detached).
    pub fn node_children(&self, id: NodeId) -> (r: Vec<NodeId>)
        requires
            self.wf(),
        ensures
            r@.no_duplicates(),
            forall|c: NodeId| #[trigger] r@.contains(c) <==> id < self@.nodes.len() && self@.shape.is_child(id, c),
    {
        if (id as usize) < self.nodes.len() {
            self.topo.children(id)
        } else {
            Vec::new()
        }
    }

    /// The longest cached prefix of `key`. A node matched in part is split,
    /// so that the returned handle covers exactly the returned indices.
    pub fn match_prefix(&mut self, key: &RadixKey) -> (r: MatchResult)
        requires
            old(self).wf(),
            old(self)@.roomy(),
        ensures
            final(self).wf(),
            (final(self)@, r.last_node) == old(self)@.after_match(*key),
            r.indices@ == (if old(self)@.disable {
                Seq::empty()
            } else {
                old(self)@.cached(*key)
            }),
    {
        let ghost st = self@;
        let is_bigram = self.is_eagle || key.is_bigram;
        let query = key.with_bigram(is_bigram);
        let flat_key = query.flatten_page_aligned(self.topo.page_size());
        let flat = flat_key.as_ref();
        proof {
            tree_model::lemma_flat(st, *key);
            topo::lemma_chunk(st.shape);
            assert(flat@ == st.flat(*key));
        }
        if self.disable || flat.len() == 0 {
            let none: Vec<i64> = Vec::new();
            assert(none@ =~= Seq::<i64>::empty());
            proof {
                if flat@.len() == 0 {
                    assert(st.walk(*key).chain =~= Seq::<NodeId>::empty());
                    assert(st.cached(*key) =~= Seq::<i64>::empty());
                }
            }
            return MatchResult { indices: none, last_node: ROOT };
        }
        let access = self.tick();
        let ns = self.intern(key);
        let path = self.walk_query(ns, flat, is_bigram);
        let ghost w = st.walk(*key);
        let ghost base = self@;
        proof {
            tree_model::lemma_query(st, *key);
            assert(base == (RadixState { names: ns::interned(st.names, key.namespace()).0, clock: access, ..st }));
        }
        self.stamp(ROOT, access);
        let mut out: Vec<i64> = Vec::new();
        let mut k: usize = 0;
        proof {
            assert(self@ =~= base.visited(w.chain.take(0), access));
            assert(w.chain.take(0) =~= Seq::<NodeId>::empty());
        }
        while k < path.chain.len()
            invariant
                self.wf(),
                st.wf(),
                base.wf(),
                base.nodes == st.nodes,
                base.shape == st.shape,
                w == st.walk(*key),
                path@ == w,
                k <= path.chain@.len(),
                self@ == base.visited(w.chain.take(k as int), access),
                out@ == tree_model::gathered(st.nodes, w.chain.take(k as int)),
                forall|j: int| 0 <= j < w.chain.len() ==> {
                    let c = #[trigger] w.chain[j];
                    0 < c < st.nodes.len() && st.nodes[c as int].value is Some
                },
            decreases path.chain@.len() - k,
        {
            let c = path.chain[k];
            proof {
                assert(w.chain[k as int] == c);
                tree_model::lemma_visited_step(base, w.chain, k as int, access);
                assert(self@.nodes[c as int].value == st.nodes[c as int].value);
                assert(self@.nodes[c as int] == self.nodes@[c as int]@);
                let t1 = w.chain.take(k + 1);
                assert(t1.drop_last() =~= w.chain.take(k as int));
                assert(t1.last() == c);
            }
            if let Some(v) = &self.nodes[c as usize].value {
                append_run(&mut out, v.as_slice());
            }
            self.stamp(c, access);
            k += 1;
        }
        assert(w.chain.take(k as int) =~= w.chain);
        match path.stop {
            None => {
                let last_node = path.end();
                MatchResult { indices: out, last_node }
            },
            Some((c, m)) => {
                let ghost before = self@;
                self.stamp(c, access);
                proof {
                    assert(st.node_ok(c as int));
                    assert(self@.nodes[c as int].value == st.nodes[c as int].value);
                }
                let new_id = self.split_node(c, m);
                assert(self.nodes@[new_id as int]@ == self@.nodes[new_id as int]);
                if let Some(v) = &self.nodes[new_id as usize].value {
                    append_run(&mut out, v.as_slice());
                }
                MatchResult { indices: out, last_node: new_id }
            },
        }
    }

    /// Caches `value` under `key`: the prefix that is in the tree stays as it
    /// is, the rest becomes a new leaf.
    pub fn insert(&mut self, key: &RadixKey, value: &[i64], priority: i32, chunked: bool) -> (r: InsertResult)
        requires
            old(self).wf(),
            old(self)@.roomy(),
            !old(self)@.disable ==> {
                let units = old(self)@.flat(*key).len() as int / old(self)@.shape.unit as int;
                let fresh = units - old(self)@.prefix_len(*key);
                &&& old(self)@.fits(*key)
                &&& value@.len() >= units
                &&& old(self)@.size() + fresh <= i64::MAX
                &&& old(self)@.size() + fresh <= usize::MAX
            },
        ensures
            final(self).wf(),
            (final(self)@, r.last_node) == old(self)@.after_insert(*key, value@, priority, chunked),
            r.prefix_len == (if old(self)@.disable {
                0
            } else {
                old(self)@.prefix_len(*key)
            }),
    {
        let ghost st = self@;
        let is_bigram = self.is_eagle || key.is_bigram;
        let query = key.with_bigram(is_bigram);
        let flat_key = query.flatten_page_aligned(self.topo.page_size());
        let flat = flat_key.as_ref();
        proof {
            tree_model::lemma_query(st, *key);
            topo::lemma_chunk(st.shape);
            assert(flat@ == st.flat(*key));
        }
        if self.disable || flat.len() == 0 {
            return InsertResult { prefix_len: 0, last_node: ROOT };
        }
        let ghost unit = st.shape.unit as int;
        let logical = flat.len() / self.topo.unit_size();
        let access = self.tick();
        let ns = self.intern(key);
        let path = self.walk_query(ns, flat, is_bigram);
        let ghost w = st.walk(*key);
        let ghost base = self@;
        let ghost (walked, at) = st.after_insert_walk(*key, priority, chunked);
        proof {
            assert(base == (RadixState { names: ns::interned(st.names, key.namespace()).0, clock: access, ..st }));
            lemma_hits(st);
        }
        self.visit_root(access, priority);
        let mut k: usize = 0;
        proof {
            assert(w.chain.take(0) =~= Seq::<NodeId>::empty());
            assert(self@ =~= base.passed(w.chain.take(0), access, priority, chunked));
        }
        while k < path.chain.len()
            invariant
                self.wf(),
                base.wf(),
                base.nodes == st.nodes,
                path@ == w,
                w.chain.no_duplicates(),
                k <= path.chain@.len(),
                base.clock == access,
                self@ == base.passed(w.chain.take(k as int), access, priority, chunked),
                forall|j: int| 0 <= j < base.nodes.len() ==> (#[trigger] base.nodes[j]).hit_count < access,
                forall|j: int| 0 <= j < w.chain.len() ==> 0 < #[trigger] w.chain[j] < base.nodes.len(),
            decreases path.chain@.len() - k,
        {
            let c = path.chain[k];
            proof {
                assert(w.chain[k as int] == c);
                tree_model::lemma_passed_step(base, w.chain, k as int, access, priority, chunked);
                assert(base.nodes[c as int].hit_count < access);
            }
            self.strike(c, access, priority, chunked);
            k += 1;
        }
        assert(w.chain.take(k as int) =~= w.chain);
        let mut node = path.end();
        if let Some((c, m)) = path.stop {
            proof {
                assert(st.node_ok(c as int));
                assert(st.nodes[c as int].hit_count < access);
                assert(self@.nodes[c as int] == st.nodes[c as int]);
            }
            self.stamp(c, access);
            let new_id = self.split_node(c, m);
            let now = self.clock;
            self.strike(new_id, now, priority, chunked);
            node = new_id;
        }
        proof {
            assert(self@ == walked);
            assert(node == at);
            tree_model::lemma_insert_walk(st, *key, priority, chunked);
        }
        let used = path.used;
        let prefix_len = used / self.topo.unit_size();
        proof {
            tree_model::lemma_halves(flat@.len() as int, used as int, unit);
        }
        if used < flat.len() {
            let rest = copy_range(flat, used, flat.len());
            let fresh = copy_range(value, prefix_len, logical);
            proof {
                assert(rest@ =~= flat@.skip(used as int));
                topo::lemma_aligned(st.shape, flat@.len() as int, used as int);
                if let Some((c, m)) = w.stop {
                    tree_model::lemma_front_children(
                        st.shape,
                        c,
                        m as int,
                        ns,
                        rest@.take(st.shape.chunk() as int),
                    );
                }
            }
            node = self.add_leaf(node, ns, rest, fresh, priority, chunked);
        }
        InsertResult { prefix_len, last_node: node }
    }

    /// Evicts unlocked leaves in policy order until `num_tokens` are gone or
    /// none is left. The evicted values are returned for the caller to free.
    pub fn evict(&mut self, num_tokens: usize) -> (r: EvictResult)
        requires
            old(self).wf(),
        ensures
            final(self).wf(),
            ({
                let done = if old(self)@.disable {
                    (old(self)@, Seq::empty())
                } else {
                    old(self)@.after_evict(num_tokens as int)
                };
                &&& (final(self)@, runs_of(r.evicted_values@)) == done
                &&& r.num_tokens_evicted == tree_model::run_total(done.1)
            }),
    {
        let ghost st = self@;
        if self.disable || num_tokens == 0 {
            let r = EvictResult::default();
            assert(runs_of(r.evicted_values@) =~= Seq::<Seq<i64>>::empty());
            return r;
        }
        let mut queue = self.leaf_queue();
        let mut evicted_values: Vec<Vec<i64>> = Vec::new();
        let mut num_evicted: usize = 0;
        proof {
            assert(runs_of(evicted_values@) =~= Seq::<Seq<i64>>::empty());
            law_size_bounds(st);
            let rest = self@.after_evict(num_tokens as int);
            assert(runs_of(evicted_values@) + rest.1 =~= rest.1);
        }
        while num_evicted < num_tokens
            invariant
                self.wf(),
                queue.wf(),
                self.queue_ok(queue@),
                st.wf(),
                st.policy == self@.policy,
                num_evicted + self@.size() == st.size(),
                num_evicted == tree_model::run_total(runs_of(evicted_values@)),
                ({
                    let rest = self@.after_evict(num_tokens - num_evicted);
                    st.after_evict(num_tokens as int) == (rest.0, runs_of(evicted_values@) + rest.1)
                }),
            ensures
                st.after_evict(num_tokens as int) == (self@, runs_of(evicted_values@)),
            decreases self@.live_count(),
        {
            let ghost cur = self@;
            proof {
                tree_model::lemma_victim(cur);
            }
            let item = match queue.pop() {
                Some(item) => item,
                None => {
                    proof {
                        if exists|y: NodeId| cur.leaf(y) {
                            let y = choose|y: NodeId| cur.leaf(y);
                            assert(queue@.contains(cur.item(y)));
                        }
                        assert(runs_of(evicted_values@) + Seq::<Seq<i64>>::empty() =~= runs_of(evicted_values@));
                    }
                    break;
                },
            };
            let x = item.id;
            proof {
                assert(cur.leaf(x) && item == cur.item(x));
                assert(cur.leaves_first(x));
                tree_model::lemma_dropped(cur, x);
                assert(cur.shape.is_child(cur.shape.nodes[x as int].parent, x));
                tree_model::lemma_drop_counts(cur, x);
            }
            let parent = match self.topo.parent(x) {
                Some(p) => p,
                None => ROOT,
            };
            let values = self.delete_leaf(x);
            proof {
                law_size_bounds(cur);
                law_size_bounds(self@);
                lemma_runs_push(evicted_values@, values);
            }
            num_evicted = num_evicted + values.len();
            evicted_values.push(values);
            if parent != ROOT && self.topo.is_leaf(parent) && self.nodes[parent as usize].lock_ref == 0 {
                let item = self.item(parent);
                queue.push(item);
            }
        }
        EvictResult { num_tokens_evicted: num_evicted, evicted_values }
    }

    /// Locks `node` and every node above it, the root left out. Returns the
    /// change of the evictable size (<= 0): the tokens that became
    /// protected.
    pub fn inc_lock_ref(&mut self, node: NodeId) -> (r: i64)
        requires
            old(self).wf(),
            !old(self)@.disable ==> {
                let up = old(self)@.shape.up(node);
                &&& old(self)@.live(node)
                &&& forall|k: int|
                    0 <= k < up.len() ==> old(self)@.nodes[(#[trigger] up[k]) as int].lock_ref < u32::MAX
            },
        ensures
            final(self).wf(),
            final(self)@ == (if old(self)@.disable {
                old(self)@
            } else {
                old(self)@.locked(old(self)@.shape.up(node))
            }),
            r == final(self)@.evictable() - old(self)@.evictable(),
            r == old(self)@.protected() - final(self)@.protected(),
            r <= 0,
    {
        let ghost st = self@;
        if self.disable {
            return 0;
        }
        let ids = self.topo.up(node);
        let before = self.evictable_size;
        let mut k: usize = 0;
        proof {
            topo::lemma_up(st.shape, node);
            tree_model::lemma_up_live(st, node);
            assert(ids@.take(0) =~= Seq::<NodeId>::empty());
            assert(self@ =~= st.locked(ids@.take(0)));
        }
        while k < ids.len()
            invariant
                self.wf(),
                st.wf(),
                k <= ids@.len(),
                ids@ == st.shape.up(node),
                ids@.no_duplicates(),
                before == st.evictable(),
                self@ == st.locked(ids@.take(k as int)),
                self@.size() == st.size(),
                self.evictable_size <= before,
                forall|j: int| 0 <= j < ids@.len() ==> {
                    let x = #[trigger] ids@[j];
                    0 < x && st.live(x) && st.nodes[x as int].lock_ref < u32::MAX
                },
            decreases ids@.len() - k,
        {
            let id = ids[k];
            proof {
                tree_model::lemma_locked_step(st, ids@, k as int);
                assert(self@.nodes[id as int] == self.nodes@[id as int]@);
                tree_model::lemma_units(self@, id as int);
            }
            let lock_ref = self.nodes[id as usize].lock_ref + 1;
            self.set_lock(id, lock_ref);
            k += 1;
        }
        proof {
            assert(ids@.take(k as int) =~= ids@);
            law_size_bounds(st);
            law_size_bounds(self@);
            tree_model::law_sizes_add_up(st);
            tree_model::law_sizes_add_up(self@);
        }
        self.evictable_size - before
    }

    /// Takes one lock off `node` and every node above it, the root left out.
    /// Returns the change of the evictable size (>= 0).
    pub fn dec_lock_ref(&mut self, node: NodeId) -> (r: i64)
        requires
            old(self).wf(),
            !old(self)@.disable ==> {
                let up = old(self)@.shape.up(node);
                &&& old(self)@.live(node)
                &&& forall|k: int|
                    0 <= k < up.len() ==> old(self)@.nodes[(#[trigger] up[k]) as int].lock_ref >= 1
            },
        ensures
            final(self).wf(),
            final(self)@ == (if old(self)@.disable {
                old(self)@
            } else {
                old(self)@.unlocked(old(self)@.shape.up(node))
            }),
            r == final(self)@.evictable() - old(self)@.evictable(),
            r == old(self)@.protected() - final(self)@.protected(),
            r >= 0,
    {
        let ghost st = self@;
        if self.disable {
            return 0;
        }
        let ids = self.topo.up(node);
        let before = self.evictable_size;
        let mut k: usize = 0;
        proof {
            topo::lemma_up(st.shape, node);
            tree_model::lemma_up_live(st, node);
            assert(ids@.take(0) =~= Seq::<NodeId>::empty());
            assert(self@ =~= st.unlocked(ids@.take(0)));
        }
        while k < ids.len()
            invariant
                self.wf(),
                st.wf(),
                k <= ids@.len(),
                ids@ == st.shape.up(node),
                ids@.no_duplicates(),
                before == st.evictable(),
                self@ == st.unlocked(ids@.take(k as int)),
                self@.size() == st.size(),
                self.evictable_size >= before,
                forall|j: int| 0 <= j < ids@.len() ==> {
                    let x = #[trigger] ids@[j];
                    0 < x && st.live(x) && st.nodes[x as int].lock_ref >= 1
                },
            decreases ids@.len() - k,
        {
            let id = ids[k];
            proof {
                tree_model::lemma_locked_step(st, ids@, k as int);
                assert(self@.nodes[id as int] == self.nodes@[id as int]@);
                tree_model::lemma_units(self@, id as int);
            }
            let lock_ref = self.nodes[id as usize].lock_ref - 1;
            self.set_lock(id, lock_ref);
            k += 1;
        }
        proof {
            assert(ids@.take(k as int) =~= ids@);
            law_size_bounds(st);
            law_size_bounds(self@);
            tree_model::law_sizes_add_up(st);
            tree_model::law_sizes_add_up(self@);
        }
        self.evictable_size - before
    }

    // ---- internals ----

    /// Sets the lock count of one live node, with the counters and the leaf
    /// set that follow from it.
    fn set_lock(&mut self, id: NodeId, lock_ref: u32)
        requires
            old(self).wf(),
            0 < id < old(self)@.nodes.len(),
            old(self)@.nodes[id as int].value is Some,
        ensures
            final(self).wf(),
            final(self)@ == (RadixState {
                nodes: old(self)@.nodes.update(
                    id as int,
                    NodeState { lock_ref, ..old(self)@.nodes[id as int] },
                ),
                ..old(self)@
            }),
            final(self)@.size() == old(self)@.size(),
            lock_ref > 0 ==> final(self).evictable_size <= old(self).evictable_size,
            old(self)@.nodes[id as int].lock_ref > 0 ==> final(self).evictable_size
                >= old(self).evictable_size,
    {
        let ghost st = self@;
        let ghost t = RadixState {
            nodes: st.nodes.update(id as int, NodeState { lock_ref, ..st.nodes[id as int] }),
            ..st
        };
        proof {
            tree_model::lemma_lock_one(st, id, lock_ref);
            tree_model::lemma_units(st, id as int);
            law_size_bounds(st);
            law_size_bounds(t);
            tree_model::law_sizes_add_up(st);
            tree_model::law_sizes_add_up(t);
            assert(st.nodes[id as int] == self.nodes@[id as int]@);
        }
        let was = self.nodes[id as usize].lock_ref;
        let units = self.topo.units(id) as i64;
        self.nodes[id as usize].lock_ref = lock_ref;
        if was == 0 && lock_ref > 0 {
            self.evictable_size = self.evictable_size - units;
            self.protected_size = self.protected_size + units;
        } else if was > 0 && lock_ref == 0 {
            self.evictable_size = self.evictable_size + units;
            self.protected_size = self.protected_size - units;
        }
        if lock_ref == 0 && self.topo.is_leaf(id) {
            self.evictable_leaves.insert(id);
        } else {
            self.evictable_leaves.remove(&id);
        }
        proof {
            assert(self@.nodes =~= t.nodes);
            assert(self@ =~= t);
        }
    }

    /// An insert walk passes the root.
    fn visit_root(&mut self, now: u64, priority: i32)
        requires
            old(self).wf(),
        ensures
            final(self).wf(),
            final(self)@ == old(self)@.passed(Seq::empty(), now, priority, true),
            final(self)@ == old(self)@.passed(Seq::empty(), now, priority, false),
    {
        let ghost st = self@;
        let p = self.nodes[0].priority;
        self.nodes[0].last_access = now;
        self.nodes[0].priority = if p >= priority {
            p
        } else {
            priority
        };
        proof {
            lemma_hits(st);
            assert(self@.nodes =~= st.passed(Seq::empty(), now, priority, true).nodes);
            assert(self@.nodes =~= st.passed(Seq::empty(), now, priority, false).nodes);
            tree_model::lemma_same_holdings(st, self@);
        }
    }

    /// An insert walk passes `id`.
    fn strike(&mut self, id: NodeId, now: u64, priority: i32, chunked: bool)
        requires
            old(self).wf(),
            id < old(self)@.nodes.len(),
            old(self)@.nodes[id as int].hit_count < old(self)@.clock,
        ensures
            final(self).wf(),
            final(self)@ == old(self)@.struck(id, now, priority, chunked),
    {
        let ghost st = self@;
        assert(st.nodes[id as int] == self.nodes@[id as int]@);
        let p = self.nodes[id as usize].priority;
        self.nodes[id as usize].last_access = now;
        self.nodes[id as usize].priority = if p >= priority {
            p
        } else {
            priority
        };
        if !chunked {
            let h = self.nodes[id as usize].hit_count;
            self.nodes[id as usize].hit_count = h + 1;
        }
        proof {
            lemma_hits(st);
            assert(self@.nodes =~= st.struck(id, now, priority, chunked).nodes);
            tree_model::lemma_same_holdings(st, self@);
        }
    }

    /// Adds a leaf below `parent`.
    fn add_leaf(
        &mut self,
        parent: NodeId,
        ns: u32,
        key: Vec<i64>,
        value: Vec<i64>,
        priority: i32,
        chunked: bool,
    ) -> (new_id: NodeId)
        requires
            old(self).wf(),
            old(self)@.shape.has(parent),
            old(self)@.shape.nodes[parent as int].attached,
            old(self)@.nodes.len() < NodeId::MAX,
            old(self)@.clock < u64::MAX,
            key@.len() > 0,
            old(self)@.shape.aligned(key@.len() as int),
            value@.len() == key@.len() as int / old(self)@.shape.unit as int,
            parent != ROOT ==> old(self)@.shape.nodes[parent as int].ns == ns,
            ns < old(self)@.names.len(),
            old(self)@.shape.child_of(parent, ns, key@.take(old(self)@.shape.chunk() as int)) is None,
            old(self)@.size() + value@.len() <= i64::MAX,
            old(self)@.size() + value@.len() <= usize::MAX,
        ensures
            final(self).wf(),
            new_id == old(self)@.nodes.len(),
            final(self)@ == old(self)@.grown(parent, ns, key@, value@, priority, chunked),
    {
        let ghost st = self@;
        let ghost t = st.grown(parent, ns, key@, value@, priority, chunked);
        proof {
            tree_model::lemma_grown(st, parent, ns, key@, value@, priority, chunked);
            law_size_bounds(st);
            law_size_bounds(t);
        }
        let n = value.len();
        let new_id = self.topo.graft(parent, ns, key);
        self.clock = self.clock + 1;
        self.nodes.push(
            RawNode {
                value: Some(value),
                lock_ref: 0,
                last_access: self.clock,
                hit_count: if chunked {
                    0
                } else {
                    1
                },
                priority,
                id: new_id,
            },
        );
        self.evictable_size = self.evictable_size + n as i64;
        self.evictable_leaves.remove(&parent);
        self.evictable_leaves.insert(new_id);
        proof {
            assert(self@.nodes =~= t.nodes);
            assert(self@ =~= t);
        }
        new_id
    }

    /// Detaches the leaf `node` and hands its value out.
    fn delete_leaf(&mut self, node: NodeId) -> (values: Vec<i64>)
        requires
            old(self).wf(),
            old(self)@.leaf(node),
        ensures
            final(self).wf(),
            final(self)@ == old(self)@.dropped(node),
            values@ == old(self)@.nodes[node as int].value->0,
    {
        let ghost st = self@;
        let ghost t = st.dropped(node);
        let ghost p = st.shape.nodes[node as int].parent;
        proof {
            tree_model::lemma_dropped(st, node);
            law_size_bounds(st);
            law_size_bounds(t);
            topo::lemma_path_grows(st.shape, node);
            assert(st.nodes[node as int] == self.nodes@[node as int]@);
        }
        let values = match self.nodes[node as usize].value.take() {
            Some(v) => v,
            None => Vec::new(),
        };
        let parent = match self.topo.parent(node) {
            Some(q) => q,
            None => ROOT,
        };
        let units = self.topo.units(node);
        self.topo.prune(node);
        self.evictable_size = self.evictable_size - units as i64;
        self.evictable_leaves.remove(&node);
        if parent != ROOT && self.nodes[parent as usize].lock_ref == 0 && self.topo.is_leaf(parent) {
            self.evictable_leaves.insert(parent);
        }
        proof {
            assert(self@.nodes =~= t.nodes);
            assert(self@ =~= t);
            assert(t.nodes[p as int] == self.nodes@[p as int]@);
        }
        values
    }

    /// The rank by which `id` is evicted.
    fn item(&self, id: NodeId) -> (r: HeapItem)
        requires
            self.wf(),
            id < self@.nodes.len(),
        ensures
            r == self@.item(id),
    {
        assert(self@.nodes[id as int] == self.nodes@[id as int]@);
        let p = self.policy.prio(&self.nodes[id as usize]);
        HeapItem { a: p.a, b: p.b, c: p.c as i64, id }
    }

    /// The queue holds the evictable leaves.
    closed spec fn queue_ok(&self, items: Set<HeapItem>) -> bool {
        &&& forall|y: HeapItem| #[trigger] items.contains(y) ==> self@.leaf(y.id) && y == self@.item(y.id)
        &&& forall|id: NodeId| #[trigger] self@.leaf(id) ==> items.contains(self@.item(id))
    }

    /// The evictable leaves by rank.
    fn leaf_queue(&self) -> (q: EvictQueue)
        requires
            self.wf(),
        ensures
            q.wf(),
            self.queue_ok(q@),
    {
        let leaves = self.evictable_leaves.to_vec();
        let mut q = EvictQueue::new();
        let mut k: usize = 0;
        while k < leaves.len()
            invariant
                self.wf(),
                q.wf(),
                k <= leaves@.len(),
                leaves@.no_duplicates(),
                forall|id: NodeId| #[trigger] leaves@.contains(id) <==> self@.leaf(id),
                forall|y: HeapItem| #[trigger] q@.contains(y) ==> {
                    &&& self@.leaf(y.id)
                    &&& y == self@.item(y.id)
                    &&& leaves@.take(k as int).contains(y.id)
                },
                forall|j: int| 0 <= j < k ==> q@.contains(self@.item(#[trigger] leaves@[j])),
            decreases leaves@.len() - k,
        {
            let id = leaves[k];
            proof {
                assert(leaves@.contains(id));
                assert(leaves@.take(k + 1) =~= leaves@.take(k as int).push(id));
                if leaves@.take(k as int).contains(id) {
                    let j = leaves@.take(k as int).index_of(id);
                    assert(leaves@[j] == id);
                }
                assert forall|z: NodeId| leaves@.take(k as int).contains(z) implies leaves@.take(k + 1).contains(z) by {
                    tree_model::lemma_push_contains(leaves@.take(k as int), id, z);
                }
                tree_model::lemma_push_contains(leaves@.take(k as int), id, id);
            }
            q.push(self.item(id));
            k += 1;
        }
        proof {
            assert forall|id: NodeId| #[trigger] self@.leaf(id) implies q@.contains(self@.item(id)) by {
                assert(leaves@.contains(id));
                let j = leaves@.index_of(id);
                assert(leaves@[j] == id);
            }
        }
        q
    }

    /// The next clock tick.
    fn tick(&mut self) -> (now: u64)
        requires
            old(self).wf(),
            old(self)@.clock < u64::MAX,
        ensures
            final(self).wf(),
            now == old(self)@.clock + 1,
            final(self)@ == (RadixState { clock: now, ..old(self)@ }),
    {
        let ghost st = self@;
        self.clock = self.clock + 1;
        proof {
            lemma_hits(st);
            tree_model::lemma_same_holdings(st, self@);
        }
        self.clock
    }

    /// The id of the key's namespace.
    fn intern(&mut self, key: &RadixKey) -> (id: u32)
        requires
            old(self).wf(),
            old(self)@.names.len() < u32::MAX,
        ensures
            final(self).wf(),
            id == old(self)@.ns_of(*key),
            id < final(self)@.names.len(),
            final(self)@ == (RadixState {
                names: ns::interned(old(self)@.names, key.namespace()).0,
                ..old(self)@
            }),
    {
        let ghost st = self@;
        let id = self.names.intern(key.extra_key, key.cache_salt);
        proof {
            lemma_hits(st);
            tree_model::lemma_same_holdings(st, self@);
        }
        id
    }

    /// Follows the flattened query.
    fn walk_query(&self, ns: u32, flat: &[i64], is_bigram: bool) -> (r: WalkPath)
        requires
            self.wf(),
            self@.shape.aligned(flat@.len() as int),
        ensures
            r@ == (if self@.shape.page > 1 || self@.is_eagle || !is_bigram {
                self@.shape.walk(ROOT, ns, flat@)
            } else {
                topo::Walk { chain: Seq::empty(), stop: None, used: 0 }
            }),
    {
        if self.topo.page_size() > 1 || self.is_eagle || !is_bigram {
            self.topo.walk(ns, flat)
        } else {
            // Pairs never head a child of a tree of single tokens.
            let chain: Vec<NodeId> = Vec::new();
            assert(chain@ =~= Seq::<NodeId>::empty());
            WalkPath { chain, stop: None, used: 0 }
        }
    }

    /// Marks a visit of `id`.
    fn stamp(&mut self, id: NodeId, now: u64)
        requires
            old(self).wf(),
            id < old(self)@.nodes.len(),
        ensures
            final(self).wf(),
            final(self)@ == old(self)@.stamped(id, now),
    {
        let ghost st = self@;
        self.nodes[id as usize].last_access = now;
        proof {
            assert(self@.nodes =~= st.stamped(id, now).nodes);
            lemma_hits(st);
            tree_model::lemma_same_holdings(st, self@);
        }
    }

    /// Cuts `child` after `m` flattened elements and returns the new front
    /// node, which inherits the child's priority, hits and locks; both
    /// halves stay consistently locked, so the counters need no change.
    fn split_node(&mut self, child: NodeId, m: usize) -> (new_id: NodeId)
        requires
            old(self).wf(),
            0 < child < old(self)@.nodes.len() < NodeId::MAX,
            old(self)@.shape.nodes[child as int].attached,
            0 < m < old(self)@.shape.nodes[child as int].key.len(),
            old(self)@.shape.aligned(m as int),
            old(self)@.clock < u64::MAX,
        ensures
            final(self).wf(),
            new_id == old(self)@.nodes.len(),
            final(self)@ == old(self)@.cut(child, m as int, (old(self)@.clock + 1) as u64),
    {
        let ghost st = self@;
        let ghost now = (st.clock + 1) as u64;
        proof {
            tree_model::lemma_cut(st, child, m as int, now);
            assert(st.node_ok(child as int));
            assert(st.nodes[child as int] == self.nodes@[child as int]@);
        }
        let units = m / self.topo.unit_size();
        let new_id = self.topo.split(child, m);
        self.clock = self.clock + 1;
        let mut front: Vec<i64> = Vec::new();
        let mut tail: Vec<i64> = Vec::new();
        if let Some(v) = &self.nodes[child as usize].value {
            front = copy_range(v.as_slice(), 0, units);
            tail = copy_range(v.as_slice(), units, v.len());
        }
        let lock_ref = self.nodes[child as usize].lock_ref;
        let hit_count = self.nodes[child as usize].hit_count;
        let priority = self.nodes[child as usize].priority;
        let last_access = self.clock;
        proof {
            let v = st.nodes[child as int].value->0;
            assert(front@ =~= v.take(units as int));
            assert(tail@ =~= v.skip(units as int));
        }
        self.nodes[child as usize].value = Some(tail);
        self.nodes.push(
            RawNode { value: Some(front), lock_ref, last_access, hit_count, priority, id: new_id },
        );
        proof {
            assert(self@.nodes =~= st.cut(child, m as int, now).nodes);
            assert(self@ =~= st.cut(child, m as int, now));
        }
        new_id
    }
}

impl Default for RadixTree {
    fn default() -> (r: Self)
        ensures
            r.wf(),
            r@ == RadixState::fresh(1, false, false, EvictionPolicy::Lru),
    {
        Self::new(1, false, EvictionPolicy::default())
    }
}

/// Counters lie between zero and the size, which fits them.
proof fn law_size_bounds(st: RadixState)
    requires
        st.wf(),
    ensures
        0 <= st.evictable() <= st.size() <= i64::MAX,
        0 <= st.protected() <= st.size(),
        st.size() <= usize::MAX,
{
    tree_model::law_sizes_add_up(st);
}

/// One more run.
proof fn lemma_runs_push(v: Seq<Vec<i64>>, x: Vec<i64>)
    ensures
        runs_of(v.push(x)) == runs_of(v).push(x@),
        tree_model::run_total(runs_of(v).push(x@)) == tree_model::run_total(runs_of(v)) + x@.len(),
{
    assert(runs_of(v.push(x)) =~= runs_of(v).push(x@));
    tree_model::lemma_run_total_push(runs_of(v), x@);
}

/// Hit counts never pass the clock.
proof fn lemma_hits(st: RadixState)
    requires
        st.wf(),
    ensures
        forall|i: int| 0 <= i < st.nodes.len() ==> (#[trigger] st.nodes[i]).hit_count <= st.clock,
{
    assert forall|i: int| 0 <= i < st.nodes.len() implies (#[trigger] st.nodes[i]).hit_count <= st.clock by {
        if i > 0 {
            assert(st.node_ok(i));
        }
    }
}

/// One more run.
pub proof fn lemma_push_run(v: Seq<Vec<i64>>, x: Vec<i64>)
    ensures
        runs_of(v.push(x)) == runs_of(v).push(x@),
{
    assert(runs_of(v.push(x)) =~= runs_of(v).push(x@));
}

} // verus!
