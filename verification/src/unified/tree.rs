//! The arena of the unified tree and the steps that change it.

use crate::idset::IdSet;
use crate::lru;
use crate::lru::{LRUList, Lru};
use crate::seqs;
use crate::seqs::copy_opt;
use crate::topo;
use crate::topo::{NodeId, Topology, ROOT};
use crate::unified;
use crate::unified::facts;
use crate::unified::model;
use crate::unified::model::{
    FullWalk, InsertPhase, Inserted, Inserting, LruEvictWalk, Ranked, UNodeState, UState, CLOCK_CAP, TICK,
};
use crate::unified::{UCacheAction, UConfig, UrkvEvent, NUM_CT};
use vstd::prelude::*;

verus! {

/// What one node holds. Arrays are by component id.
#[derive(Clone, Debug)]
pub struct UNode {
    /// The children, oldest first.
    pub child_order: Vec<u32>,
    /// Device runs (pool index lists), one item per logical token.
    pub value: [Option<Vec<i64>>; NUM_CT],
    pub host_value: [Option<Vec<i64>>; NUM_CT],
    pub lock_ref: [i32; NUM_CT],
    pub host_lock_ref: [i32; NUM_CT],
    pub last_access: i128,
    pub creation: i128,
    pub hit_count: i64,
    pub priority: i64,
    pub hash_value: Option<Vec<String>>,
    pub event_hash_value: Option<Vec<String>>,
    pub wt_pending: Option<i64>,
    pub lb_pending: Option<u32>,
    /// Marks of filled windows.
    pub swa_uuid: Option<i64>,
    pub swa_host_uuid: Option<i64>,
}

/// The runs of an array of optional vectors.
pub open spec fn opt_runs(v: Seq<Option<Vec<i64>>>) -> Seq<Option<Seq<i64>>> {
    Seq::new(v.len(), |c: int| seqs::opt_run(v[c]))
}

impl UNode {
    /// The contents as the model describes them.
    pub open spec fn view(&self) -> UNodeState {
        UNodeState {
            value: opt_runs(self.value@),
            host: opt_runs(self.host_value@),
            lock: self.lock_ref@,
            host_lock: self.host_lock_ref@,
            kids: self.child_order@,
            access: self.last_access,
            creation: self.creation,
            hits: self.hit_count,
            priority: self.priority,
            hashes: unified::opt_texts(self.hash_value),
            event_hashes: unified::opt_texts(self.event_hash_value),
            wt: self.wt_pending,
            lb: self.lb_pending,
            mark: self.swa_uuid,
            host_mark: self.swa_host_uuid,
        }
    }

    /// A node without runs, locks or children.
    pub(crate) fn blank(last_access: i128, creation: i128, priority: i64) -> (r: UNode)
        ensures
            r@ == UNodeState::blank(last_access, creation, priority),
    {
        let r = UNode {
            child_order: Vec::new(),
            value: [None, None, None, None],
            host_value: [None, None, None, None],
            lock_ref: [0, 0, 0, 0],
            host_lock_ref: [0, 0, 0, 0],
            last_access,
            creation,
            hit_count: 0,
            priority,
            hash_value: None,
            event_hash_value: None,
            wt_pending: None,
            lb_pending: None,
            swa_uuid: None,
            swa_host_uuid: None,
        };
        assert(r@ =~= UNodeState::blank(last_access, creation, priority));
        r
    }
}

/// What an insert is told besides key and value.
#[derive(Debug, Clone)]
pub struct UInsertParams {
    /// Leading tokens of the value that the tree already owns.
    pub prev_prefix_len: i64,
    pub chunked: bool,
    pub priority: i64,
    /// Leading tokens whose window slots are gone; whole pages.
    pub swa_evicted_seqlen: i64,
    /// The state to attach where MAMBA is present.
    pub mamba_value: Option<Vec<i64>>,
}

impl UInsertParams {
    /// The parameters as the model describes them.
    pub open spec fn view(&self) -> model::Asked {
        model::Asked {
            prev_prefix_len: self.prev_prefix_len,
            chunked: self.chunked,
            priority: self.priority,
            swa_evicted_seqlen: self.swa_evicted_seqlen,
            mamba_value: seqs::opt_run(self.mamba_value),
        }
    }

    /// A copy.
    pub(crate) fn copy(&self) -> (r: UInsertParams)
        ensures
            r@ == self@,
    {
        UInsertParams {
            prev_prefix_len: self.prev_prefix_len,
            chunked: self.chunked,
            priority: self.priority,
            swa_evicted_seqlen: self.swa_evicted_seqlen,
            mamba_value: copy_opt(&self.mamba_value),
        }
    }
}

impl Default for UInsertParams {
    fn default() -> (r: Self)
        ensures
            r@ == (model::Asked {
                prev_prefix_len: 0,
                chunked: false,
                priority: 0,
                swa_evicted_seqlen: 0,
                mamba_value: None,
            }),
    {
        UInsertParams {
            prev_prefix_len: 0,
            chunked: false,
            priority: 0,
            swa_evicted_seqlen: 0,
            mamba_value: None,
        }
    }
}

/// What an insert reports.
#[derive(Debug, Clone, PartialEq)]
pub struct UIntsertResult {
    /// Tokens that were in the tree.
    pub prefix_len: i64,
    /// `insert_host` only: tokens of the key.
    pub total_len: i64,
    pub last_device_node: u32,
    /// Whether the state was already there.
    pub mamba_exist: bool,
    /// `insert_host` only: the node that holds the end of the key.
    pub inserted_host_node: Option<u32>,
    /// `insert_host` only: whether the run was not kept.
    pub host_insert_dropped: bool,
    /// New leaves; the caller fills in their hashes.
    pub created_nodes: Vec<u32>,
    /// `insert_host` only: reports of cuts.
    pub cache_actions: Vec<UCacheAction>,
}

impl UIntsertResult {
    /// The report as the model describes it.
    pub open spec fn view(&self) -> Inserted {
        Inserted {
            prefix_len: self.prefix_len as int,
            total_len: self.total_len as int,
            last_device_node: self.last_device_node,
            mamba_exist: self.mamba_exist,
            host_node: self.inserted_host_node,
            host_dropped: self.host_insert_dropped,
            created: self.created_nodes@,
            actions: unified::acts(self.cache_actions@),
        }
    }
}

impl Inserted {
    /// A report of nothing.
    pub open spec fn none() -> Inserted {
        Inserted {
            prefix_len: 0,
            total_len: 0,
            last_device_node: ROOT,
            mamba_exist: false,
            host_node: None,
            host_dropped: false,
            created: Seq::empty(),
            actions: Seq::empty(),
        }
    }
}

impl Default for UIntsertResult {
    fn default() -> (r: Self)
        ensures
            r@ == Inserted::none(),
    {
        let r = UIntsertResult {
            prefix_len: 0,
            total_len: 0,
            last_device_node: ROOT,
            mamba_exist: false,
            inserted_host_node: None,
            host_insert_dropped: false,
            created_nodes: Vec::new(),
            cache_actions: Vec::new(),
        };
        assert(r@ =~= Inserted::none());
        r
    }
}

/// An insert in flight.
#[derive(Debug, Clone)]
pub struct InsertState {
    pub phase: InsertPhase,
    pub node: u32,
    pub ns: u32,
    /// Flattened units that are left of the key.
    pub key: Vec<i64>,
    /// What is left of the value, one item per unit.
    pub value: Vec<i64>,
    pub params: UInsertParams,
    pub total_prefix_length: i64,
    pub is_new_leaf: bool,
    pub target_node: u32,
    pub result: Option<UIntsertResult>,
    /// Actions that wait for the next barrier.
    pub pending: Vec<UCacheAction>,
}

/// The report of an insert, if there is one yet.
pub open spec fn opt_inserted(r: Option<UIntsertResult>) -> Option<Inserted> {
    match r {
        Some(r) => Some(r@),
        None => None,
    }
}

impl InsertState {
    /// The insert as the model describes it.
    pub open spec fn view(&self) -> Inserting {
        Inserting {
            phase: self.phase,
            node: self.node,
            ns: self.ns,
            key: self.key@,
            value: self.value@,
            asked: self.params@,
            done: self.total_prefix_length as int,
            new_leaf: self.is_new_leaf,
            target: self.target_node,
            result: opt_inserted(self.result),
            pending: unified::acts(self.pending@),
        }
    }
}

/// A FULL device-eviction walk: leaves in line, the last one handed out.
#[derive(Clone)]
pub struct FullEvictWalk {
    pub request_cnt: i64,
    pub last_node: Option<u32>,
    pub heap: Vec<Ranked>,
}

impl FullEvictWalk {
    /// The walk as the model describes it.
    pub open spec fn view(&self) -> FullWalk {
        FullWalk { request: self.request_cnt, last: self.last_node, heap: self.heap@ }
    }
}

/// An insert in flight, if there is one.
pub open spec fn opt_state(x: Option<InsertState>) -> Option<Inserting> {
    match x {
        Some(s) => Some(s@),
        None => None,
    }
}

/// A FULL device-eviction walk, if there is one.
pub open spec fn opt_walk(x: Option<FullEvictWalk>) -> Option<FullWalk> {
    match x {
        Some(w) => Some(w@),
        None => None,
    }
}

/// The unified multi-pool radix tree.
#[derive(Clone)]
pub struct UnifiedRadixTree {
    cfg: UConfig,
    topo: Topology,
    pub nodes: Vec<UNode>,
    time_counter: i128,
    uuid_counter: i64,
    enable_hicache: bool,
    enable_storage: bool,
    evictable_size: [i64; NUM_CT],
    protected_size: [i64; NUM_CT],
    /// Leaves of the device part of the tree that nothing locks.
    pub d_leaves: IdSet,
    /// Leaves with a host run alone that nothing locks.
    pub h_leaves: IdSet,
    dup_ids: Vec<u32>,
    reclaim_digest: u64,
    lru: Vec<LRUList>,
    ongoing: Option<InsertState>,
    full_evict: Option<FullEvictWalk>,
    swa_evict: Option<LruEvictWalk>,
    mamba_evict: Option<LruEvictWalk>,
    kv_log: Vec<UrkvEvent>,
}

/// The contents of the nodes.
pub open spec fn node_states(nodes: Seq<UNode>) -> Seq<UNodeState> {
    Seq::new(nodes.len(), |i: int| nodes[i]@)
}

/// The orders of the lists.
spec fn orders(lists: Seq<LRUList>) -> Seq<Seq<NodeId>> {
    Seq::new(lists.len(), |i: int| lists[i]@)
}

/// Index of an LRU list: `layer` 0 is the device, 1 the host.
pub(crate) fn lru_slot(ct: u8, layer: u8) -> (r: usize)
    ensures
        r == 2 * ct + layer,
{
    ct as usize * 2 + layer as usize
}

impl UnifiedRadixTree {
    /// The state of the tree.
    pub closed spec fn view(&self) -> UState {
        UState {
            cfg: self.cfg,
            hicache: self.enable_hicache,
            storage: self.enable_storage,
            shape: self.topo@,
            nodes: node_states(self.nodes@),
            lru: orders(self.lru@),
            clock: self.time_counter,
            uuids: self.uuid_counter,
            dups: self.dup_ids@,
            digest: self.reclaim_digest,
            log: self.kv_log@,
            ongoing: opt_state(self.ongoing),
            full_walk: opt_walk(self.full_evict),
            swa_walk: self.swa_evict,
            mamba_walk: self.mamba_evict,
        }
    }

    /// The state is possible, and counters and leaf sets say what follows
    /// from it.
    pub closed spec fn wf(&self) -> bool {
        &&& self.sound()
        &&& self@.wf()
        &&& self.sums()
        &&& self.leaves()
    }

    /// The parts are well-formed each on its own.
    pub closed spec fn sound(&self) -> bool {
        &&& self.topo.wf()
        &&& self.d_leaves.wf()
        &&& self.h_leaves.wf()
        &&& self.nodes@.len() == self.topo@.nodes.len()
        &&& self.lru@.len() == 8
        &&& forall|k: int|
            0 <= k < 8 ==> (#[trigger] self.lru@[k]).wf() && self.lru@[k].capacity() == self.nodes@.len()
    }

    /// The counters are right.
    closed spec fn sums(&self) -> bool {
        self.sums_of(self@)
    }

    /// The counters are those of `st`.
    closed spec fn sums_of(&self, st: UState) -> bool {
        &&& self.evictable_size@[0] == st.count(0, false)
        &&& self.evictable_size@[1] == st.count(1, false)
        &&& self.evictable_size@[2] == st.count(2, false)
        &&& self.protected_size@[0] == st.count(0, true)
        &&& self.protected_size@[1] == st.count(1, true)
        &&& self.protected_size@[2] == st.count(2, true)
    }

    /// The leaf sets are right.
    closed spec fn leaves(&self) -> bool {
        &&& forall|x: NodeId| #[trigger] self.d_leaves@.contains(x) == self@.device_leaf(x)
        &&& forall|x: NodeId| #[trigger] self.h_leaves@.contains(x) == self@.host_leaf(x)
    }

    /// What holds of the state of a well-formed tree.
    pub proof fn lemma_wf(&self)
        requires
            self.wf(),
        ensures
            self@.wf(),
            self.sound(),
            self@.shape.chunk() <= usize::MAX,
    {
        self.topo.lemma_wf();
    }

    /// A new tree. The configuration must have pages of one unit at least
    /// and neither session caching nor bigrams along with states.
    pub fn new(cfg: UConfig) -> (r: Self)
        requires
            cfg.wf(),
        ensures
            r.wf(),
            r@ == UState::fresh(cfg),
    {
        let unit: usize = if cfg.is_eagle { 2 } else { 1 };
        let mut root = UNode::blank(TICK, 2 * TICK, i64::MIN);
        root.value[0] = Some(Vec::new());
        root.hash_value = Some(Vec::new());
        root.lock_ref = [1, 1, 1, 1];
        let mut nodes: Vec<UNode> = Vec::new();
        let ghost root_state = root@;
        nodes.push(root);
        let mut n: usize = 0;
        while n < model::LIST_ENDS
            invariant
                n <= model::LIST_ENDS,
                nodes@.len() == n + 1,
                nodes@[0]@ == root_state,
                forall|i: int| 0 < i < nodes@.len() ==> (#[trigger] nodes@[i])@ == UNodeState::blank(0, 0, 0),
            decreases model::LIST_ENDS - n,
        {
            nodes.push(UNode::blank(0, 0, 0));
            n += 1;
        }
        let mut lists: Vec<LRUList> = Vec::new();
        let mut k: usize = 0;
        while k < 8
            invariant
                k <= 8,
                lists@.len() == k,
                forall|j: int|
                    0 <= j < k ==> {
                        &&& (#[trigger] lists@[j]).wf()
                        &&& lists@[j].capacity() == model::LIST_ENDS + 1
                        &&& lists@[j]@ == Seq::<NodeId>::empty()
                    },
            decreases 8 - k,
        {
            let mut list = LRUList::default();
            list.grow(model::LIST_ENDS + 1);
            lists.push(list);
            k += 1;
        }
        let r = UnifiedRadixTree {
            cfg,
            topo: Topology::with_spares(cfg.page_size as usize, unit, model::LIST_ENDS),
            nodes,
            time_counter: 3 * TICK,
            uuid_counter: 1,
            enable_hicache: false,
            enable_storage: false,
            evictable_size: [0, 0, 0, 0],
            protected_size: [0, 0, 0, 0],
            d_leaves: IdSet::new(),
            h_leaves: IdSet::new(),
            dup_ids: Vec::new(),
            reclaim_digest: 0,
            lru: lists,
            ongoing: None,
            full_evict: None,
            swa_evict: None,
            mamba_evict: None,
            kv_log: Vec::new(),
        };
        proof {
            let st = UState::fresh(cfg);
            assert(root_state.value[0]->0 =~= Seq::<i64>::empty());
            assert(root_state.hashes->0 =~= Seq::<Seq<char>>::empty());
            assert(root_state =~= UNodeState::root());
            assert(r@.nodes =~= st.nodes);
            assert(r@.lru =~= st.lru);
            assert(r@ =~= st);
            r.topo.lemma_wf();
            facts::lemma_fresh_counts(cfg);
            assert forall|p: NodeId, c: NodeId| !#[trigger] st.shape.is_child(p, c) by {}
            assert forall|i: int| 0 <= i < st.nodes.len() implies #[trigger] st.kids_ok(i) by {}
            assert forall|i: int| 0 < i < st.nodes.len() implies #[trigger] st.node_ok(i) by {}
            assert forall|x: NodeId| #[trigger] st.lists_ok(1, x) by {}
            assert forall|x: NodeId| #[trigger] st.lists_ok(2, x) by {}
        }
        r
    }

    /// Forgets everything but the configuration.
    pub fn reset(&mut self)
        requires
            old(self).wf(),
        ensures
            final(self).wf(),
            final(self)@ == UState::fresh(old(self)@.cfg),
    {
        let r = UnifiedRadixTree::new(self.cfg);
        *self = r;
    }
}

impl UnifiedRadixTree {
    // ---- what nodes are ----

    /// Number of node ids handed out.
    pub(crate) fn len(&self) -> (r: usize)
        requires
            self.sound(),
        ensures
            r == self@.nodes.len(),
            r == self@.shape.nodes.len(),
    {
        self.nodes.len()
    }

    /// The configuration.
    pub(crate) fn config(&self) -> (r: UConfig)
        ensures
            r == self@.cfg,
    {
        self.cfg
    }

    /// Whether `node` has a FULL host run.
    pub fn is_backuped(&self, node: NodeId) -> (r: bool)
        requires
            node < self@.nodes.len(),
        ensures
            r == self@.backuped(node),
    {
        assert(self@.nodes[node as int] == self.nodes@[node as int]@);
        self.nodes[node as usize].host_value[0].is_some()
    }

    /// Whether `node` is the root.
    pub fn is_root(&self, node: NodeId) -> (r: bool)
        ensures
            r == (node == ROOT),
    {
        node == ROOT
    }

    /// Whether `node` is below the root and without a FULL device run.
    pub fn is_evicted(&self, node: NodeId) -> (r: bool)
        requires
            node < self@.nodes.len(),
        ensures
            r == self@.evicted(node),
    {
        assert(self@.nodes[node as int] == self.nodes@[node as int]@);
        node != ROOT && self.nodes[node as usize].value[0].is_none()
    }

    /// Whether `node` is in the tree.
    pub(crate) fn is_live(&self, node: NodeId) -> (r: bool)
        requires
            self.wf(),
        ensures
            r == self@.live(node),
    {
        if node == ROOT {
            return true;
        }
        if node as usize >= self.nodes.len() {
            return false;
        }
        proof {
            assert(self@.node_ok(node as int));
            assert(self@.nodes[node as int] == self.nodes@[node as int]@);
        }
        self.nodes[node as usize].value[0].is_some() || self.nodes[node as usize].host_value[0].is_some()
    }

    /// Whether the tree has a node that hangs below it and holds a FULL
    /// device run.
    fn has_device_kid(&self, node: NodeId) -> (r: bool)
        requires
            self.sound(),
            node < self@.nodes.len(),
        ensures
            r == !self@.no_device_kid(node),
    {
        let kids = self.topo.children(node);
        let mut k: usize = 0;
        while k < kids.len()
            invariant
                self.sound(),
                k <= kids@.len(),
                forall|c: NodeId| #[trigger] kids@.contains(c) <==> self@.shape.is_child(node, c),
                forall|j: int| 0 <= j < k ==> self@.nodes[(#[trigger] kids@[j]) as int].value[0] is None,
            decreases kids@.len() - k,
        {
            let c = kids[k];
            proof {
                assert(kids@.contains(kids@[k as int]));
                assert(self@.shape.is_child(node, c));
                assert(self@.nodes[c as int] == self.nodes@[c as int]@);
            }
            if self.nodes[c as usize].value[0].is_some() {
                return true;
            }
            k += 1;
        }
        proof {
            assert forall|c: NodeId| #[trigger] self@.shape.is_child(node, c) implies self@.nodes[c as int].value[0] is None by {
                assert(kids@.contains(c));
                let j = kids@.index_of(c);
                assert(kids@[j] == c);
            }
        }
        false
    }

    /// Whether `node` is a leaf of the device part of the tree that nothing
    /// locks.
    pub fn is_device_leaf(&self, node: NodeId) -> (r: bool)
        requires
            self.wf(),
            node < self@.nodes.len(),
        ensures
            r == self@.device_leaf(node),
    {
        proof {
            self.lemma_wf();
            assert(self.d_leaves@.contains(node) == self@.device_leaf(node));
        }
        self.d_leaves.contains(&node)
    }

    /// Whether `node` is a leaf with a FULL host run alone that nothing
    /// locks.
    pub fn is_host_leaf(&self, node: NodeId) -> (r: bool)
        requires
            self.wf(),
            node < self@.nodes.len(),
        ensures
            r == self@.host_leaf(node),
    {
        proof {
            self.lemma_wf();
            assert(self.h_leaves@.contains(node) == self@.host_leaf(node));
        }
        self.h_leaves.contains(&node)
    }

    /// The device and host leaf conditions of a node of the tree, worked out
    /// from what it and its children hold.
    pub(crate) fn leaf_kinds(&self, node: NodeId) -> (r: (bool, bool))
        requires
            self.sound(),
            self@.live(node),
        ensures
            r.0 == self@.device_leaf(node),
            r.1 == self@.host_leaf(node),
    {
        assert(self@.nodes[node as int] == self.nodes@[node as int]@);
        if node == ROOT {
            return (false, false);
        }
        let n = &self.nodes[node as usize];
        if n.value[0].is_some() {
            let free = n.lock_ref[0] == 0 && n.lock_ref[1] == 0 && n.lock_ref[2] == 0 && n.lock_ref[3] == 0;
            (free && !self.has_device_kid(node), false)
        } else {
            let free = n.host_lock_ref[0] == 0 && n.host_lock_ref[1] == 0 && n.host_lock_ref[2] == 0
                && n.host_lock_ref[3] == 0;
            (false, n.host_value[0].is_some() && free && self.topo.is_leaf(node))
        }
    }

    /// Puts a node of the tree into the leaf sets or takes it out, as it is.
    fn refresh(&mut self, node: NodeId)
        requires
            old(self).sound(),
            old(self)@.live(node),
        ensures
            final(self).sound(),
            final(self)@ == old(self)@,
            old(self).sums() ==> final(self).sums(),
            forall|x: NodeId| #[trigger] final(self).d_leaves@.contains(x) == (if x == node {
                old(self)@.device_leaf(x)
            } else {
                old(self).d_leaves@.contains(x)
            }),
            forall|x: NodeId| #[trigger] final(self).h_leaves@.contains(x) == (if x == node {
                old(self)@.host_leaf(x)
            } else {
                old(self).h_leaves@.contains(x)
            }),
    {
        let (d, h) = self.leaf_kinds(node);
        let ghost st = self@;
        if d {
            self.d_leaves.insert(node);
        } else {
            self.d_leaves.remove(&node);
        }
        if h {
            self.h_leaves.insert(node);
        } else {
            self.h_leaves.remove(&node);
        }
        assert(self@ =~= st);
    }

    /// Device tokens of component `ct` that `node` holds unlocked and
    /// locked.
    fn weigh(&self, node: NodeId, ct: u8) -> (r: (i64, i64))
        requires
            0 < node < self@.nodes.len(),
            ct < 3,
            self@.weight(ct as int, false, node as int) <= i64::MAX,
            self@.weight(ct as int, true, node as int) <= i64::MAX,
        ensures
            r.0 == self@.weight(ct as int, false, node as int),
            r.1 == self@.weight(ct as int, true, node as int),
    {
        assert(self@.nodes[node as int] == self.nodes@[node as int]@);
        match &self.nodes[node as usize].value[ct as usize] {
            Some(v) => {
                if self.nodes[node as usize].lock_ref[ct as usize] > 0 {
                    (0, v.len() as i64)
                } else {
                    (v.len() as i64, 0)
                }
            },
            None => (0, 0),
        }
    }

    // ---- steps ----

    /// One tick of the clock; returns the time before it.
    fn tick(&mut self) -> (r: i128)
        requires
            old(self)@.clock <= CLOCK_CAP + TICK,
        ensures
            r == old(self)@.clock,
            *final(self) == (UnifiedRadixTree { time_counter: model::later(old(self)@.clock), ..*old(self) }),
    {
        let v = self.time_counter;
        if v < CLOCK_CAP {
            self.time_counter = v + TICK;
        }
        v
    }

    /// Visits `id`.
    pub(crate) fn touch_node(&mut self, id: NodeId)
        requires
            old(self).wf(),
            old(self)@.live(id),
        ensures
            final(self).wf(),
            final(self)@ == old(self)@.touched(id),
    {
        let ghost st = self@;
        let now = self.tick();
        let ghost n = UNodeState { access: now, ..st.nodes[id as int] };
        proof {
            assert(st.nodes[id as int] == self.nodes@[id as int]@);
            if id != ROOT {
                assert(st.node_ok(id as int));
            }
            facts::lemma_quiet(st, id, n);
        }
        self.nodes[id as usize].last_access = now;
        proof {
            self.lemma_still(st, st.patched(id, n));
        }
    }

    /// Where only node contents that count for nothing, the clock or other
    /// registers changed, the tree stays well-formed.
    proof fn lemma_still(&self, st: UState, t: UState)
        requires
            self.sound(),
            t.built(),
            t.listed(),
            st.shape == t.shape,
            forall|x: NodeId| #[trigger] t.device_leaf(x) == st.device_leaf(x),
            forall|x: NodeId| #[trigger] t.host_leaf(x) == st.host_leaf(x),
            forall|ct: int, b: bool| #[trigger] t.count(ct, b) == st.count(ct, b),
            forall|x: NodeId| #[trigger] self.d_leaves@.contains(x) == st.device_leaf(x),
            forall|x: NodeId| #[trigger] self.h_leaves@.contains(x) == st.host_leaf(x),
            self.sums_of(st),
            self@.cfg.wf(),
            self@.cfg.swa() == t.cfg.swa(),
            self@.cfg.mamba() == t.cfg.mamba(),
            self@.cfg.page_size == t.cfg.page_size,
            self@.cfg.is_eagle == t.cfg.is_eagle,
            self@.shape == t.shape,
            self@.nodes =~= t.nodes,
            self@.lru =~= t.lru,
            self@.dups == t.dups,
            TICK <= self@.clock <= CLOCK_CAP + TICK,
        ensures
            self.wf(),
    {
        let u = self@;
        assert(u.nodes == t.nodes);
        assert(u.lru == t.lru);
        assert forall|i: int| 0 < i < u.nodes.len() implies #[trigger] u.node_ok(i) by {
            assert(t.node_ok(i));
        }
        assert forall|i: int| 0 <= i < u.nodes.len() implies #[trigger] u.kids_ok(i) by {
            assert(t.kids_ok(i));
        }
        assert(t.root_ok());
        assert(u.root_ok());
        assert forall|x: NodeId| #[trigger] u.dups.contains(x) implies u.inner(x) by {
            assert(t.inner(x));
        }
        assert forall|ct: int, b: bool| #[trigger] u.count(ct, b) == t.count(ct, b) by {
            seqs::lemma_total_same(|i: int| t.weight(ct, b, i), |i: int| u.weight(ct, b, i), u.nodes.len());
        }
        assert(u.size(0) == t.size(0));
        assert(u.size(1) == t.size(1));
        assert(u.size(2) == t.size(2));
        assert forall|x: NodeId| #[trigger] u.lists_ok(1, x) by {
            assert(t.lists_ok(1, x));
        }
        assert forall|x: NodeId| #[trigger] u.lists_ok(2, x) by {
            assert(t.lists_ok(2, x));
        }
        assert forall|x: NodeId| #[trigger] u.device_leaf(x) == t.device_leaf(x) by {
            assert(u.no_device_kid(x) == t.no_device_kid(x)) by {
                if t.no_device_kid(x) {
                    assert forall|c: NodeId| #[trigger] u.shape.is_child(x, c) implies u.nodes[c as int].value[0] is None by {
                        assert(t.shape.is_child(x, c));
                    }
                }
                if u.no_device_kid(x) {
                    assert forall|c: NodeId| #[trigger] t.shape.is_child(x, c) implies t.nodes[c as int].value[0] is None by {
                        assert(u.shape.is_child(x, c));
                    }
                }
            }
        }
        assert forall|x: NodeId| #[trigger] u.host_leaf(x) == t.host_leaf(x) by {}
    }
}

impl UnifiedRadixTree {
    /// Brings counters and leaf sets up to date after a change of what node
    /// `id` holds of component `ct`; `was` is what it counted for before.
    fn settle(&mut self, id: NodeId, ct: u8, was: (i64, i64), Ghost(st): Ghost<UState>)
        requires
            old(self).sound(),
            st.built(),
            st.inner(id),
            ct < 3,
            facts::altered(st, old(self)@, id),
            old(self)@.node_ok(id as int),
            old(self)@.nodes[id as int].value[0] is None ==> st.no_device_kid(id)
                || st.nodes[id as int].value[0] is None,
            old(self)@.nodes[id as int].kids == st.nodes[id as int].kids,
            old(self)@.listed(),
            was.0 == st.weight(ct as int, false, id as int),
            was.1 == st.weight(ct as int, true, id as int),
            forall|c: int|
                0 <= c < 3 && c != ct ==> {
                    &&& #[trigger] old(self)@.nodes[id as int].value[c] == st.nodes[id as int].value[c]
                    &&& old(self)@.nodes[id as int].lock[c] == st.nodes[id as int].lock[c]
                },
            old(self)@.size(ct as int) <= i64::MAX,
            old(self).sums_of(st),
            forall|x: NodeId| #[trigger] old(self).d_leaves@.contains(x) == st.device_leaf(x),
            forall|x: NodeId| #[trigger] old(self).h_leaves@.contains(x) == st.host_leaf(x),
        ensures
            final(self).wf(),
            final(self)@ == old(self)@,
    {
        let ghost t = self@;
        proof {
            facts::lemma_counts(st, t, id, 0);
            facts::lemma_counts(st, t, id, 1);
            facts::lemma_counts(st, t, id, 2);
            facts::law_sizes_add_up(st, 0);
            facts::law_sizes_add_up(st, 1);
            facts::law_sizes_add_up(st, 2);
            assert forall|c: int| 0 <= c < 3 && c != ct implies t.size(c) == st.size(c) && #[trigger] t.count(c, false)
                == st.count(c, false) && t.count(c, true) == st.count(c, true) by {
                assert(t.nodes[id as int].value[c] == st.nodes[id as int].value[c]);
                assert(t.weight(c, false, id as int) == st.weight(c, false, id as int));
                assert(t.weight(c, true, id as int) == st.weight(c, true, id as int));
                if c == 0 {
                    assert(t.count(0, false) == st.count(0, false));
                    assert(t.count(0, true) == st.count(0, true));
                } else if c == 1 {
                    assert(t.count(1, false) == st.count(1, false));
                    assert(t.count(1, true) == st.count(1, true));
                } else {
                    assert(t.count(2, false) == st.count(2, false));
                    assert(t.count(2, true) == st.count(2, true));
                }
            }
            assert(ct == 0 || t.count(0, false) == st.count(0, false));
            assert(ct == 1 || t.count(1, false) == st.count(1, false));
            assert(ct == 2 || t.count(2, false) == st.count(2, false));
            assert(t.count(ct as int, false) == st.count(ct as int, false) - was.0 + t.weight(
                ct as int,
                false,
                id as int,
            ));
            assert(t.count(ct as int, true) == st.count(ct as int, true) - was.1 + t.weight(
                ct as int,
                true,
                id as int,
            ));
            facts::lemma_patch(st, t, id);
            facts::law_sizes_add_up(t, ct as int);
            assert(t.weight(ct as int, false, id as int) <= t.count(ct as int, false));
            assert(t.weight(ct as int, true, id as int) <= t.count(ct as int, true));
            assert(st.weight(ct as int, false, id as int) <= st.count(ct as int, false));
            assert(st.weight(ct as int, true, id as int) <= st.count(ct as int, true));
            assert(self.evictable_size@[ct as int] == st.count(ct as int, false));
            topo::lemma_path_grows(st.shape, id);
            assert(st.shape.hangs(id as int));
            assert(st.node_ok(id as int));
        }
        let now = self.weigh(id, ct);
        self.evictable_size[ct as usize] = self.evictable_size[ct as usize] - was.0 + now.0;
        self.protected_size[ct as usize] = self.protected_size[ct as usize] - was.1 + now.1;
        assert(self@ =~= t);
        assert(self.sums());
        let p = match self.topo.parent(id) {
            Some(p) => p,
            None => ROOT,
        };
        self.refresh(id);
        self.refresh(p);
    }

    /// Gives `id` another FULL device run, or takes it.
    pub(crate) fn set_full(&mut self, id: NodeId, v: Option<Vec<i64>>)
        requires
            old(self).wf(),
            old(self)@.inner(id),
            model::run_fits(seqs::opt_run(v), old(self)@.units(id)),
            ({
                let n = old(self)@.nodes[id as int];
                &&& v is None ==> n.host[0] is Some && n.value[1] is None && n.value[2] is None && n.lock[0] == 0
                &&& v is None ==> old(self)@.no_device_kid(id)
                &&& v is Some && n.value[0] is None ==> old(self)@.size(0) + old(self)@.units(id) <= i64::MAX
                &&& v is Some ==> old(self)@.nodes[old(self)@.shape.nodes[id as int].parent as int].value[0] is Some
            }),
        ensures
            final(self).wf(),
            final(self)@ == old(self)@.patched(
                id,
                old(self)@.nodes[id as int].with_value(0, seqs::opt_run(v)),
            ),
    {
        let ghost st = self@;
        let ghost t = st.patched(id, st.nodes[id as int].with_value(0, seqs::opt_run(v)));
        proof {
            assert(st.nodes[id as int] == self.nodes@[id as int]@);
            assert(st.node_ok(id as int));
            topo::lemma_path_grows(st.shape, id);
            assert(st.shape.hangs(id as int));
            facts::law_sizes_add_up(st, 0);
            facts::lemma_units(st, id);
            assert(st.weight(0, false, id as int) <= st.count(0, false));
            assert(st.weight(0, true, id as int) <= st.count(0, true));
        }
        let was = self.weigh(id, 0);
        self.nodes[id as usize].value[0] = v;
        proof {
            assert(self@.nodes[id as int].value =~= t.nodes[id as int].value);
            assert(self@.nodes =~= t.nodes);
            assert(self@ =~= t);
            facts::lemma_counts(st, t, id, 0);
            assert(t.count(0, false) + t.count(0, true) == st.size(0) - was.0 - was.1 + t.weight(0, false, id as int)
                + t.weight(0, true, id as int));
            assert(t.size(0) <= i64::MAX);
            facts::lemma_lists_same(st, t, 1, id);
            facts::lemma_lists_same(st, t, 2, id);
        }
        self.settle(id, 0, was, Ghost(st));
    }
}

impl UnifiedRadixTree {
    /// Gives `id` a device run of another component than FULL.
    pub(crate) fn store(&mut self, id: NodeId, ct: u8, v: Vec<i64>)
        requires
            old(self).wf(),
            old(self)@.inner(id),
            ct == 1 || ct == 2,
            old(self)@.cfg.active(ct as int),
            old(self)@.nodes[id as int].value[0] is Some,
            old(self)@.nodes[id as int].value[ct as int] is None,
            ct == 1 ==> v@.len() == old(self)@.units(id),
            old(self)@.size(ct as int) + v@.len() <= i64::MAX,
        ensures
            final(self).wf(),
            final(self)@ == old(self)@.stored(id, ct as int, v@),
    {
        let ghost st = self@;
        let ghost t = st.stored(id, ct as int, v@);
        let ghost c = ct as int;
        let slot = lru_slot(ct, 0);
        let host_slot = lru_slot(ct, 1);
        proof {
            assert(st.nodes[id as int] == self.nodes@[id as int]@);
            assert(st.node_ok(id as int));
            topo::lemma_path_grows(st.shape, id);
            assert(st.shape.hangs(id as int));
            assert(st.lists_ok(c, id));
            facts::law_sizes_add_up(st, c);
            assert(self.lru@[slot as int].wf() && self.lru@[host_slot as int].wf());
            assert(st.lru[slot as int] == self.lru@[slot as int]@);
            assert(st.lru[host_slot as int] == self.lru@[host_slot as int]@);
            facts::lemma_front(st.lru[slot as int], id);
            facts::lemma_rid(st.lru[host_slot as int], id);
        }
        let was = self.weigh(id, ct);
        self.nodes[id as usize].value[ct as usize] = Some(v);
        self.lru[slot].insert_mru(id);
        if self.lru[host_slot].in_list(id) {
            self.lru[host_slot].remove(id);
        }
        proof {
            assert(self@.nodes[id as int].value =~= t.nodes[id as int].value);
            assert(self@.nodes =~= t.nodes);
            assert(self@.lru =~= t.lru);
            assert(self@ =~= t);
            facts::lemma_counts(st, t, id, c);
            assert(t.count(c, false) + t.count(c, true) == st.size(c) + v@.len());
            assert(t.size(c) <= i64::MAX);
            assert(facts::lists_follow(st, t, c, id));
            facts::lemma_lists(st, t, c, id);
            facts::lemma_lists_same(st, t, 3 - c, id);
        }
        self.settle(id, ct, was, Ghost(st));
    }

    /// Takes the device run of another component than FULL off `id`.
    pub(crate) fn drop_device(&mut self, id: NodeId, ct: u8)
        requires
            old(self).wf(),
            old(self)@.inner(id),
            ct == 1 || ct == 2,
            old(self)@.nodes[id as int].value[ct as int] is Some,
            old(self)@.nodes[id as int].lock[ct as int] == 0,
        ensures
            final(self).wf(),
            final(self)@ == old(self)@.dropped(id, ct as int),
    {
        let ghost st = self@;
        let ghost t = st.dropped(id, ct as int);
        let ghost c = ct as int;
        let slot = lru_slot(ct, 0);
        let host_slot = lru_slot(ct, 1);
        proof {
            assert(st.nodes[id as int] == self.nodes@[id as int]@);
            assert(st.node_ok(id as int));
            topo::lemma_path_grows(st.shape, id);
            assert(st.shape.hangs(id as int));
            assert(st.lists_ok(c, id));
            facts::law_sizes_add_up(st, c);
            assert(st.weight(c, false, id as int) <= st.count(c, false));
            assert(self.lru@[slot as int].wf() && self.lru@[host_slot as int].wf());
            assert(st.lru[slot as int] == self.lru@[slot as int]@);
            assert(st.lru[host_slot as int] == self.lru@[host_slot as int]@);
            facts::lemma_rid(st.lru[slot as int], id);
            facts::lemma_front(st.lru[host_slot as int], id);
        }
        let was = self.weigh(id, ct);
        self.nodes[id as usize].value[ct as usize] = None;
        self.lru[slot].remove(id);
        if self.nodes[id as usize].host_value[ct as usize].is_some() {
            self.lru[host_slot].insert_mru(id);
        }
        proof {
            assert(self@.nodes[id as int].value =~= t.nodes[id as int].value);
            assert(self@.nodes =~= t.nodes);
            assert(self@.lru =~= t.lru);
            assert(self@ =~= t);
            facts::lemma_counts(st, t, id, c);
            assert(t.count(c, false) + t.count(c, true) <= st.size(c));
            assert(t.size(c) <= i64::MAX);
            assert(facts::lists_follow(st, t, c, id));
            facts::lemma_lists(st, t, c, id);
            facts::lemma_lists_same(st, t, 3 - c, id);
        }
        self.settle(id, ct, was, Ghost(st));
    }

    /// Gives `id` another FULL host run, or takes it.
    pub(crate) fn set_full_host(&mut self, id: NodeId, v: Option<Vec<i64>>)
        requires
            old(self).wf(),
            old(self)@.inner(id),
            model::run_fits(seqs::opt_run(v), old(self)@.units(id)),
            v is None ==> old(self)@.nodes[id as int].value[0] is Some,
        ensures
            final(self).wf(),
            final(self)@ == old(self)@.patched(
                id,
                old(self)@.nodes[id as int].with_host(0, seqs::opt_run(v)),
            ),
    {
        let ghost st = self@;
        let ghost t = st.patched(id, st.nodes[id as int].with_host(0, seqs::opt_run(v)));
        proof {
            assert(st.nodes[id as int] == self.nodes@[id as int]@);
            assert(st.node_ok(id as int));
            topo::lemma_path_grows(st.shape, id);
            assert(st.shape.hangs(id as int));
            facts::law_sizes_add_up(st, 0);
            assert(st.weight(0, false, id as int) <= st.count(0, false));
            assert(st.weight(0, true, id as int) <= st.count(0, true));
        }
        let was = self.weigh(id, 0);
        self.nodes[id as usize].host_value[0] = v;
        proof {
            assert(self@.nodes[id as int].host =~= t.nodes[id as int].host);
            assert(self@.nodes =~= t.nodes);
            assert(self@ =~= t);
            facts::lemma_counts(st, t, id, 0);
            assert(t.count(0, false) + t.count(0, true) == st.size(0));
            assert(t.size(0) <= i64::MAX);
            facts::lemma_lists_same(st, t, 1, id);
            facts::lemma_lists_same(st, t, 2, id);
        }
        self.settle(id, 0, was, Ghost(st));
    }

    /// Gives `id` another host run of another component than FULL.
    pub(crate) fn store_host(&mut self, id: NodeId, ct: u8, v: Vec<i64>)
        requires
            old(self).wf(),
            old(self)@.inner(id),
            ct == 1 || ct == 2,
            old(self)@.cfg.active(ct as int),
            ct == 1 ==> v@.len() == old(self)@.units(id),
        ensures
            final(self).wf(),
            final(self)@ == old(self)@.hosted(id, ct as int, v@),
    {
        let ghost st = self@;
        let ghost t = st.hosted(id, ct as int, v@);
        let ghost c = ct as int;
        let host_slot = lru_slot(ct, 1);
        proof {
            assert(st.nodes[id as int] == self.nodes@[id as int]@);
            assert(st.node_ok(id as int));
            topo::lemma_path_grows(st.shape, id);
            assert(st.shape.hangs(id as int));
            assert(st.lists_ok(c, id));
            facts::law_sizes_add_up(st, c);
            assert(st.weight(c, false, id as int) <= st.count(c, false));
            assert(st.weight(c, true, id as int) <= st.count(c, true));
            assert(self.lru@[host_slot as int].wf());
            assert(st.lru[host_slot as int] == self.lru@[host_slot as int]@);
            if !st.lru[host_slot as int].contains(id) {
                facts::lemma_front(st.lru[host_slot as int], id);
            }
        }
        let was = self.weigh(id, ct);
        self.nodes[id as usize].host_value[ct as usize] = Some(v);
        if self.nodes[id as usize].value[ct as usize].is_none() && !self.lru[host_slot].in_list(id) {
            self.lru[host_slot].insert_mru(id);
        }
        proof {
            assert(self@.nodes[id as int].host =~= t.nodes[id as int].host);
            assert(self@.nodes =~= t.nodes);
            assert(self@.lru =~= t.lru);
            assert(self@ =~= t);
            facts::lemma_counts(st, t, id, c);
            assert(t.count(c, false) + t.count(c, true) == st.size(c));
            assert(t.size(c) <= i64::MAX);
            assert(facts::lists_follow(st, t, c, id));
            facts::lemma_lists(st, t, c, id);
            facts::lemma_lists_same(st, t, 3 - c, id);
        }
        self.settle(id, ct, was, Ghost(st));
    }

    /// Takes the host run of another component than FULL off `id`.
    pub(crate) fn drop_host(&mut self, id: NodeId, ct: u8)
        requires
            old(self).wf(),
            old(self)@.inner(id),
            ct == 1 || ct == 2,
        ensures
            final(self).wf(),
            final(self)@ == old(self)@.unhosted(id, ct as int),
    {
        let ghost st = self@;
        let ghost t = st.unhosted(id, ct as int);
        let ghost c = ct as int;
        let host_slot = lru_slot(ct, 1);
        proof {
            assert(st.nodes[id as int] == self.nodes@[id as int]@);
            assert(st.node_ok(id as int));
            topo::lemma_path_grows(st.shape, id);
            assert(st.shape.hangs(id as int));
            assert(st.lists_ok(c, id));
            facts::law_sizes_add_up(st, c);
            assert(st.weight(c, false, id as int) <= st.count(c, false));
            assert(st.weight(c, true, id as int) <= st.count(c, true));
            assert(self.lru@[host_slot as int].wf());
            assert(st.lru[host_slot as int] == self.lru@[host_slot as int]@);
            facts::lemma_rid(st.lru[host_slot as int], id);
        }
        let was = self.weigh(id, ct);
        self.nodes[id as usize].host_value[ct as usize] = None;
        if self.lru[host_slot].in_list(id) {
            self.lru[host_slot].remove(id);
        }
        proof {
            assert(self@.nodes[id as int].host =~= t.nodes[id as int].host);
            assert(self@.nodes =~= t.nodes);
            assert(self@.lru =~= t.lru);
            assert(self@ =~= t);
            facts::lemma_counts(st, t, id, c);
            assert(t.count(c, false) + t.count(c, true) == st.size(c));
            assert(t.size(c) <= i64::MAX);
            assert(facts::lists_follow(st, t, c, id));
            facts::lemma_lists(st, t, c, id);
            facts::lemma_lists_same(st, t, 3 - c, id);
        }
        self.settle(id, ct, was, Ghost(st));
    }

    /// Sets the device lock count of `ct` on `id`.
    pub(crate) fn set_lock(&mut self, id: NodeId, ct: u8, n: i32)
        requires
            old(self).wf(),
            old(self)@.inner(id),
            ct < 3,
            n >= 0,
            old(self)@.nodes[id as int].value[ct as int] is None ==> n == 0,
        ensures
            final(self).wf(),
            final(self)@ == old(self)@.patched(id, old(self)@.nodes[id as int].with_lock(ct as int, n)),
    {
        let ghost st = self@;
        let ghost t = st.patched(id, st.nodes[id as int].with_lock(ct as int, n));
        let ghost c = ct as int;
        proof {
            assert(st.nodes[id as int] == self.nodes@[id as int]@);
            assert(st.node_ok(id as int));
            topo::lemma_path_grows(st.shape, id);
            assert(st.shape.hangs(id as int));
            facts::law_sizes_add_up(st, c);
            assert(st.weight(c, false, id as int) <= st.count(c, false));
            assert(st.weight(c, true, id as int) <= st.count(c, true));
        }
        let was = self.weigh(id, ct);
        self.nodes[id as usize].lock_ref[ct as usize] = n;
        proof {
            assert(self@.nodes[id as int].lock =~= t.nodes[id as int].lock);
            assert(self@.nodes =~= t.nodes);
            assert(self@ =~= t);
            facts::lemma_counts(st, t, id, c);
            assert(t.count(c, false) + t.count(c, true) == st.size(c));
            assert(t.size(c) <= i64::MAX);
            facts::lemma_lists_same(st, t, 1, id);
            facts::lemma_lists_same(st, t, 2, id);
        }
        self.settle(id, ct, was, Ghost(st));
    }

    /// One host lock of `ct` more on `id`.
    pub(crate) fn hold_host(&mut self, id: NodeId, ct: u8)
        requires
            old(self).wf(),
            old(self)@.inner(id),
            ct < 3,
            old(self)@.nodes[id as int].host_lock[ct as int] < i32::MAX,
        ensures
            final(self).wf(),
            final(self)@ == old(self)@.host_held(id, ct as int),
    {
        let ghost st = self@;
        let ghost t = st.host_held(id, ct as int);
        let ghost c = ct as int;
        let host_slot = lru_slot(ct, 1);
        proof {
            assert(st.nodes[id as int] == self.nodes@[id as int]@);
            assert(st.node_ok(id as int));
            topo::lemma_path_grows(st.shape, id);
            assert(st.shape.hangs(id as int));
            facts::law_sizes_add_up(st, c);
            assert(st.weight(c, false, id as int) <= st.count(c, false));
            assert(st.weight(c, true, id as int) <= st.count(c, true));
            assert(self.lru@[host_slot as int].wf());
            assert(st.lru[host_slot as int] == self.lru@[host_slot as int]@);
            if ct != 0 {
                assert(st.lists_ok(c, id));
            }
            facts::lemma_rid(st.lru[host_slot as int], id);
        }
        let was = self.weigh(id, ct);
        let held = self.nodes[id as usize].host_lock_ref[ct as usize];
        self.nodes[id as usize].host_lock_ref[ct as usize] = held + 1;
        if held == 0 && self.lru[host_slot].in_list(id) {
            self.lru[host_slot].remove(id);
        }
        proof {
            assert(self@.nodes[id as int].host_lock =~= t.nodes[id as int].host_lock);
            assert(self@.nodes =~= t.nodes);
            assert(self@.lru =~= t.lru);
            assert(self@ =~= t);
            facts::lemma_counts(st, t, id, c);
            assert(t.count(c, false) + t.count(c, true) == st.size(c));
            assert(t.size(c) <= i64::MAX);
            if ct == 0 {
                facts::lemma_lists_same(st, t, 1, id);
                facts::lemma_lists_same(st, t, 2, id);
            } else {
                assert(facts::lists_follow(st, t, c, id));
                facts::lemma_lists(st, t, c, id);
                facts::lemma_lists_same(st, t, 3 - c, id);
            }
        }
        self.settle(id, ct, was, Ghost(st));
    }

    /// One host lock of `ct` less on `id`.
    pub(crate) fn free_host(&mut self, id: NodeId, ct: u8)
        requires
            old(self).wf(),
            old(self)@.inner(id),
            ct < 3,
            old(self)@.nodes[id as int].host_lock[ct as int] > 0,
        ensures
            final(self).wf(),
            final(self)@ == old(self)@.host_freed(id, ct as int),
    {
        let ghost st = self@;
        let ghost t = st.host_freed(id, ct as int);
        let ghost c = ct as int;
        let host_slot = lru_slot(ct, 1);
        proof {
            assert(st.nodes[id as int] == self.nodes@[id as int]@);
            assert(st.node_ok(id as int));
            topo::lemma_path_grows(st.shape, id);
            assert(st.shape.hangs(id as int));
            facts::law_sizes_add_up(st, c);
            assert(st.weight(c, false, id as int) <= st.count(c, false));
            assert(st.weight(c, true, id as int) <= st.count(c, true));
            assert(self.lru@[host_slot as int].wf());
            assert(st.lru[host_slot as int] == self.lru@[host_slot as int]@);
            if ct != 0 {
                assert(st.lists_ok(c, id));
            }
            if !st.lru[host_slot as int].contains(id) {
                facts::lemma_front(st.lru[host_slot as int], id);
            }
        }
        let was = self.weigh(id, ct);
        let held = self.nodes[id as usize].host_lock_ref[ct as usize];
        self.nodes[id as usize].host_lock_ref[ct as usize] = held - 1;
        if held == 1 && ct != 0 && self.nodes[id as usize].host_value[ct as usize].is_some()
            && self.nodes[id as usize].value[ct as usize].is_none() && !self.lru[host_slot].in_list(id) {
            self.lru[host_slot].insert_mru(id);
        }
        proof {
            assert(self@.nodes[id as int].host_lock =~= t.nodes[id as int].host_lock);
            assert(self@.nodes =~= t.nodes);
            assert(self@.lru =~= t.lru);
            assert(self@ =~= t);
            facts::lemma_counts(st, t, id, c);
            assert(t.count(c, false) + t.count(c, true) == st.size(c));
            assert(t.size(c) <= i64::MAX);
            if ct == 0 {
                facts::lemma_lists_same(st, t, 1, id);
                facts::lemma_lists_same(st, t, 2, id);
            } else {
                assert(facts::lists_follow(st, t, c, id));
                facts::lemma_lists(st, t, c, id);
                facts::lemma_lists_same(st, t, 3 - c, id);
            }
        }
        self.settle(id, ct, was, Ghost(st));
    }
}

impl UnifiedRadixTree {
    // ---- what counts for nothing ----

    /// Sets the priority of `id`.
    pub(crate) fn set_priority(&mut self, id: NodeId, x: i64)
        requires
            old(self).wf(),
            old(self)@.live(id),
        ensures
            final(self).wf(),
            final(self)@ == old(self)@.patched(
                id,
                UNodeState { priority: x, ..old(self)@.nodes[id as int] },
            ),
    {
        let ghost st = self@;
        let ghost n = UNodeState { priority: x, ..st.nodes[id as int] };
        proof {
            assert(st.nodes[id as int] == self.nodes@[id as int]@);
            if id != ROOT {
                assert(st.node_ok(id as int));
            }
            facts::lemma_quiet(st, id, n);
        }
        self.nodes[id as usize].priority = x;
        proof {
            assert(self@.nodes =~= st.patched(id, n).nodes);
            self.lemma_still(st, st.patched(id, n));
        }
    }

    /// Sets the hit count of `id`.
    pub(crate) fn set_hits(&mut self, id: NodeId, x: i64)
        requires
            old(self).wf(),
            old(self)@.live(id),
        ensures
            final(self).wf(),
            final(self)@ == old(self)@.patched(
                id,
                UNodeState { hits: x, ..old(self)@.nodes[id as int] },
            ),
    {
        let ghost st = self@;
        let ghost n = UNodeState { hits: x, ..st.nodes[id as int] };
        proof {
            assert(st.nodes[id as int] == self.nodes@[id as int]@);
            if id != ROOT {
                assert(st.node_ok(id as int));
            }
            facts::lemma_quiet(st, id, n);
        }
        self.nodes[id as usize].hit_count = x;
        proof {
            assert(self@.nodes =~= st.patched(id, n).nodes);
            self.lemma_still(st, st.patched(id, n));
        }
    }

    /// Sets the stamp of `id`.
    pub(crate) fn set_access(&mut self, id: NodeId, x: i128)
        requires
            old(self).wf(),
            old(self)@.live(id),
        ensures
            final(self).wf(),
            final(self)@ == old(self)@.patched(
                id,
                UNodeState { access: x, ..old(self)@.nodes[id as int] },
            ),
    {
        let ghost st = self@;
        let ghost n = UNodeState { access: x, ..st.nodes[id as int] };
        proof {
            assert(st.nodes[id as int] == self.nodes@[id as int]@);
            if id != ROOT {
                assert(st.node_ok(id as int));
            }
            facts::lemma_quiet(st, id, n);
        }
        self.nodes[id as usize].last_access = x;
        proof {
            assert(self@.nodes =~= st.patched(id, n).nodes);
            self.lemma_still(st, st.patched(id, n));
        }
    }

    /// Sets the acknowledgement that `id` awaits.
    pub(crate) fn set_wt(&mut self, id: NodeId, x: Option<i64>)
        requires
            old(self).wf(),
            old(self)@.live(id),
        ensures
            final(self).wf(),
            final(self)@ == old(self)@.patched(
                id,
                UNodeState { wt: x, ..old(self)@.nodes[id as int] },
            ),
    {
        let ghost st = self@;
        let ghost n = UNodeState { wt: x, ..st.nodes[id as int] };
        proof {
            assert(st.nodes[id as int] == self.nodes@[id as int]@);
            if id != ROOT {
                assert(st.node_ok(id as int));
            }
            facts::lemma_quiet(st, id, n);
        }
        self.nodes[id as usize].wt_pending = x;
        proof {
            assert(self@.nodes =~= st.patched(id, n).nodes);
            self.lemma_still(st, st.patched(id, n));
        }
    }

    /// Sets the load-back anchor of `id`.
    pub(crate) fn set_lb(&mut self, id: NodeId, x: Option<u32>)
        requires
            old(self).wf(),
            old(self)@.live(id),
        ensures
            final(self).wf(),
            final(self)@ == old(self)@.patched(
                id,
                UNodeState { lb: x, ..old(self)@.nodes[id as int] },
            ),
    {
        let ghost st = self@;
        let ghost n = UNodeState { lb: x, ..st.nodes[id as int] };
        proof {
            assert(st.nodes[id as int] == self.nodes@[id as int]@);
            if id != ROOT {
                assert(st.node_ok(id as int));
            }
            facts::lemma_quiet(st, id, n);
        }
        self.nodes[id as usize].lb_pending = x;
        proof {
            assert(self@.nodes =~= st.patched(id, n).nodes);
            self.lemma_still(st, st.patched(id, n));
        }
    }

    /// Sets the device window mark of `id`.
    pub(crate) fn set_mark(&mut self, id: NodeId, x: Option<i64>)
        requires
            old(self).wf(),
            old(self)@.live(id),
        ensures
            final(self).wf(),
            final(self)@ == old(self)@.patched(
                id,
                UNodeState { mark: x, ..old(self)@.nodes[id as int] },
            ),
    {
        let ghost st = self@;
        let ghost n = UNodeState { mark: x, ..st.nodes[id as int] };
        proof {
            assert(st.nodes[id as int] == self.nodes@[id as int]@);
            if id != ROOT {
                assert(st.node_ok(id as int));
            }
            facts::lemma_quiet(st, id, n);
        }
        self.nodes[id as usize].swa_uuid = x;
        proof {
            assert(self@.nodes =~= st.patched(id, n).nodes);
            self.lemma_still(st, st.patched(id, n));
        }
    }

    /// Sets the host window mark of `id`.
    pub(crate) fn set_host_mark(&mut self, id: NodeId, x: Option<i64>)
        requires
            old(self).wf(),
            old(self)@.live(id),
        ensures
            final(self).wf(),
            final(self)@ == old(self)@.patched(
                id,
                UNodeState { host_mark: x, ..old(self)@.nodes[id as int] },
            ),
    {
        let ghost st = self@;
        let ghost n = UNodeState { host_mark: x, ..st.nodes[id as int] };
        proof {
            assert(st.nodes[id as int] == self.nodes@[id as int]@);
            if id != ROOT {
                assert(st.node_ok(id as int));
            }
            facts::lemma_quiet(st, id, n);
        }
        self.nodes[id as usize].swa_host_uuid = x;
        proof {
            assert(self@.nodes =~= st.patched(id, n).nodes);
            self.lemma_still(st, st.patched(id, n));
        }
    }

    /// Sets the page hashes of `id`.
    pub(crate) fn set_hashes(&mut self, id: NodeId, x: Option<Vec<String>>)
        requires
            old(self).wf(),
            old(self)@.live(id),
            id == ROOT ==> x is Some,
            id != ROOT ==> model::hashes_fit(unified::opt_texts(x), old(self)@.units(id), old(self)@.shape.page as int),
        ensures
            final(self).wf(),
            final(self)@ == old(self)@.patched(
                id,
                UNodeState { hashes: unified::opt_texts(x), ..old(self)@.nodes[id as int] },
            ),
    {
        let ghost st = self@;
        let ghost n = UNodeState { hashes: unified::opt_texts(x), ..st.nodes[id as int] };
        proof {
            assert(st.nodes[id as int] == self.nodes@[id as int]@);
            if id != ROOT {
                assert(st.node_ok(id as int));
            }
            facts::lemma_quiet(st, id, n);
        }
        self.nodes[id as usize].hash_value = x;
        proof {
            assert(self@.nodes =~= st.patched(id, n).nodes);
            self.lemma_still(st, st.patched(id, n));
        }
    }

    /// Sets the event hashes of `id`.
    pub(crate) fn set_event_hashes(&mut self, id: NodeId, x: Option<Vec<String>>)
        requires
            old(self).wf(),
            old(self)@.live(id),
            id != ROOT ==> model::hashes_fit(unified::opt_texts(x), old(self)@.units(id), old(self)@.shape.page as int),
        ensures
            final(self).wf(),
            final(self)@ == old(self)@.patched(
                id,
                UNodeState { event_hashes: unified::opt_texts(x), ..old(self)@.nodes[id as int] },
            ),
    {
        let ghost st = self@;
        let ghost n = UNodeState { event_hashes: unified::opt_texts(x), ..st.nodes[id as int] };
        proof {
            assert(st.nodes[id as int] == self.nodes@[id as int]@);
            if id != ROOT {
                assert(st.node_ok(id as int));
            }
            facts::lemma_quiet(st, id, n);
        }
        self.nodes[id as usize].event_hash_value = x;
        proof {
            assert(self@.nodes =~= st.patched(id, n).nodes);
            self.lemma_still(st, st.patched(id, n));
        }
    }

    /// Logs an event.
    pub(crate) fn log(&mut self, op: u8, node: NodeId, medium: u8)
        requires
            old(self).wf(),
        ensures
            final(self).wf(),
            final(self)@ == old(self)@.logged(op, node, medium),
    {
        let ghost st = self@;
        self.kv_log.push(UrkvEvent { op, node, medium });
        proof {
            assert(self@ =~= (UState { log: st.log.push(UrkvEvent { op, node, medium }), ..st }));
            self.lemma_still(st, st);
        }
    }

    /// Sets the mark counter.
    pub(crate) fn set_uuids(&mut self, x: i64)
        requires
            old(self).wf(),
        ensures
            final(self).wf(),
            final(self)@ == (UState { uuids: x, ..old(self)@ }),
    {
        let ghost st = self@;
        self.uuid_counter = x;
        proof {
            assert(self@ =~= (UState { uuids: x, ..st }));
            self.lemma_still(st, st);
        }
    }

    /// Sets the clock.
    pub(crate) fn set_clock(&mut self, x: i128)
        requires
            old(self).wf(),
            TICK <= x <= CLOCK_CAP + TICK,
        ensures
            final(self).wf(),
            final(self)@ == (UState { clock: x, ..old(self)@ }),
    {
        let ghost st = self@;
        self.time_counter = x;
        proof {
            assert(self@ =~= (UState { clock: x, ..st }));
            self.lemma_still(st, st);
        }
    }

    /// Sets the digest of reclaimed duplicates.
    pub(crate) fn set_digest(&mut self, x: u64)
        requires
            old(self).wf(),
        ensures
            final(self).wf(),
            final(self)@ == (UState { digest: x, ..old(self)@ }),
    {
        let ghost st = self@;
        self.reclaim_digest = x;
        proof {
            assert(self@ =~= (UState { digest: x, ..st }));
            self.lemma_still(st, st);
        }
    }

    /// Sets the SWA eviction walk.
    pub(crate) fn set_swa_walk(&mut self, x: Option<LruEvictWalk>)
        requires
            old(self).wf(),
        ensures
            final(self).wf(),
            final(self)@ == (UState { swa_walk: x, ..old(self)@ }),
    {
        let ghost st = self@;
        self.swa_evict = x;
        proof {
            assert(self@ =~= (UState { swa_walk: x, ..st }));
            self.lemma_still(st, st);
        }
    }

    /// Sets the MAMBA eviction walk.
    pub(crate) fn set_mamba_walk(&mut self, x: Option<LruEvictWalk>)
        requires
            old(self).wf(),
        ensures
            final(self).wf(),
            final(self)@ == (UState { mamba_walk: x, ..old(self)@ }),
    {
        let ghost st = self@;
        self.mamba_evict = x;
        proof {
            assert(self@ =~= (UState { mamba_walk: x, ..st }));
            self.lemma_still(st, st);
        }
    }

    /// Switches the host tier on.
    pub fn set_hicache_enabled(&mut self)
        requires
            old(self).wf(),
        ensures
            final(self).wf(),
            final(self)@ == (UState { hicache: true, ..old(self)@ }),
    {
        let ghost st = self@;
        self.enable_hicache = true;
        proof {
            assert(self@ =~= (UState { hicache: true, ..st }));
            self.lemma_still(st, st);
        }
    }

    /// Switches the storage tier on.
    pub fn set_storage_enabled(&mut self)
        requires
            old(self).wf(),
        ensures
            final(self).wf(),
            final(self)@ == (UState { storage: true, ..old(self)@ }),
    {
        let ghost st = self@;
        self.enable_storage = true;
        proof {
            assert(self@ =~= (UState { storage: true, ..st }));
            self.lemma_still(st, st);
        }
    }

    /// Switches to write-back.
    pub fn set_write_back(&mut self)
        requires
            old(self).wf(),
        ensures
            final(self).wf(),
            final(self)@ == (UState { cfg: (UConfig { is_write_back: true, ..old(self)@.cfg }), ..old(self)@ }),
    {
        let ghost st = self@;
        self.cfg.is_write_back = true;
        proof {
            assert(self@ =~= (UState { cfg: UConfig { is_write_back: true, ..st.cfg }, ..st }));
            self.lemma_still(st, st);
        }
    }

    /// Says whether the host tier has an SWA pool.
    pub fn set_swa_host_pool(&mut self, has: bool)
        requires
            old(self).wf(),
        ensures
            final(self).wf(),
            final(self)@ == (UState { cfg: (UConfig { has_swa_host_pool: has, ..old(self)@.cfg }), ..old(self)@ }),
    {
        let ghost st = self@;
        self.cfg.has_swa_host_pool = has;
        proof {
            assert(self@ =~= (UState { cfg: UConfig { has_swa_host_pool: has, ..st.cfg }, ..st }));
            self.lemma_still(st, st);
        }
    }

    /// Sets the hit count at which nodes are backed up.
    pub fn set_write_through_threshold(&mut self, v: i64)
        requires
            old(self).wf(),
        ensures
            final(self).wf(),
            final(self)@ == (UState { cfg: (UConfig { write_through_threshold: v, ..old(self)@.cfg }), ..old(self)@ }),
    {
        let ghost st = self@;
        self.cfg.write_through_threshold = v;
        proof {
            assert(self@ =~= (UState { cfg: UConfig { write_through_threshold: v, ..st.cfg }, ..st }));
            self.lemma_still(st, st);
        }
    }

    /// Sets the FULL eviction walk.
    pub(crate) fn set_full_walk(&mut self, x: Option<FullEvictWalk>)
        requires
            old(self).wf(),
        ensures
            final(self).wf(),
            final(self)@ == (UState {
                full_walk: opt_walk(x),
                ..old(self)@
            }),
    {
        let ghost st = self@;
        let ghost full_walk = opt_walk(x);
        self.full_evict = x;
        proof {
            assert(self@ =~= (UState { full_walk, ..st }));
            self.lemma_still(st, st);
        }
    }

    /// Takes the FULL eviction walk out.
    pub(crate) fn take_full_walk(&mut self) -> (r: Option<FullEvictWalk>)
        requires
            old(self).wf(),
        ensures
            final(self).wf(),
            final(self)@ == (UState { full_walk: None, ..old(self)@ }),
            old(self)@.full_walk == opt_walk(r),
    {
        let ghost st = self@;
        let r = self.full_evict.take();
        proof {
            assert(self@ =~= (UState { full_walk: None, ..st }));
            self.lemma_still(st, st);
        }
        r
    }

    /// Sets the insert in flight.
    pub(crate) fn set_ongoing(&mut self, x: Option<InsertState>)
        requires
            old(self).wf(),
        ensures
            final(self).wf(),
            final(self)@ == (UState {
                ongoing: opt_state(x),
                ..old(self)@
            }),
    {
        let ghost st = self@;
        let ghost ongoing = opt_state(x);
        self.ongoing = x;
        proof {
            assert(self@ =~= (UState { ongoing, ..st }));
            self.lemma_still(st, st);
        }
    }

    /// Takes the insert in flight out.
    pub(crate) fn take_ongoing(&mut self) -> (r: Option<InsertState>)
        requires
            old(self).wf(),
        ensures
            final(self).wf(),
            final(self)@ == (UState { ongoing: None, ..old(self)@ }),
            old(self)@.ongoing == opt_state(r),
    {
        let ghost st = self@;
        let r = self.ongoing.take();
        proof {
            assert(self@ =~= (UState { ongoing: None, ..st }));
            self.lemma_still(st, st);
        }
        r
    }

    /// Empties the event log and returns what it held.
    pub fn take_kv_events(&mut self) -> (r: Vec<UrkvEvent>)
        requires
            old(self).wf(),
        ensures
            final(self).wf(),
            r@ == old(self)@.log,
            final(self)@ == (UState { log: Seq::empty(), ..old(self)@ }),
    {
        let ghost st = self@;
        let mut r: Vec<UrkvEvent> = Vec::new();
        std::mem::swap(&mut r, &mut self.kv_log);
        proof {
            assert(self@ =~= (UState { log: Seq::empty(), ..st }));
            self.lemma_still(st, st);
        }
        r
    }

    /// Sets the FULL host lock count of the root.
    pub(crate) fn set_root_host_lock(&mut self, n: i32)
        requires
            old(self).wf(),
            n >= 0,
        ensures
            final(self).wf(),
            final(self)@ == old(self)@.patched(ROOT, old(self)@.nodes[0].with_host_lock(0, n)),
    {
        let ghost st = self@;
        let ghost t = st.patched(ROOT, st.nodes[0].with_host_lock(0, n));
        proof {
            assert(st.nodes[0] == self.nodes@[0]@);
        }
        self.nodes[0].host_lock_ref[0] = n;
        proof {
            assert(self@.nodes[0].host_lock =~= t.nodes[0].host_lock);
            assert(self@.nodes =~= t.nodes);
            assert(self@ =~= t);
            facts::lemma_root(st, n);
            self.lemma_still(st, t);
        }
    }

    // ---- duplicates ----

    /// Notes or forgets `id` as a duplicate, whichever it is.
    pub(crate) fn update_duplicate_tracking(&mut self, id: NodeId)
        requires
            old(self).wf(),
            old(self)@.live(id),
        ensures
            final(self).wf(),
            final(self)@ == old(self)@.noted(id),
    {
        let ghost st = self@;
        proof {
            assert(st.nodes[id as int] == self.nodes@[id as int]@);
            facts::lemma_noted(st, id);
        }
        let n = &self.nodes[id as usize];
        if id != ROOT && n.value[0].is_some() && n.host_value[0].is_some() && n.wt_pending.is_none()
            && n.lb_pending.is_none() {
            if !self.is_noted(id) {
                self.dup_ids.push(id);
            }
            proof {
                assert(self@ =~= st.noted(id));
                self.lemma_still(st, st.noted(id));
            }
        } else {
            self.forget(id);
        }
    }

    /// Whether `id` is noted as a duplicate.
    pub(crate) fn is_noted(&self, id: NodeId) -> (r: bool)
        ensures
            r == self@.dups.contains(id),
    {
        let mut k: usize = 0;
        while k < self.dup_ids.len()
            invariant
                k <= self.dup_ids@.len(),
                forall|j: int| 0 <= j < k ==> (#[trigger] self.dup_ids@[j]) != id,
            decreases self.dup_ids@.len() - k,
        {
            if self.dup_ids[k] == id {
                assert(self.dup_ids@[k as int] == id);
                return true;
            }
            k += 1;
        }
        false
    }

    /// Forgets `id` as a duplicate.
    pub(crate) fn forget(&mut self, id: NodeId)
        requires
            old(self).wf(),
        ensures
            final(self).wf(),
            final(self)@ == old(self)@.forgotten(id),
    {
        let ghost st = self@;
        proof {
            facts::lemma_forgotten(st, id);
        }
        self.unlist_duplicate(id);
        proof {
            assert(self@ =~= st.forgotten(id));
            self.lemma_still(st, st.forgotten(id));
        }
    }

    fn unlist_duplicate(&mut self, id: NodeId)
        requires
            old(self)@.dups.no_duplicates(),
        ensures
            *final(self) == (UnifiedRadixTree { dup_ids: final(self).dup_ids, ..*old(self) }),
            final(self).dup_ids@ == model::rid(old(self).dup_ids@, id),
    {
        let mut k: usize = 0;
        while k < self.dup_ids.len()
            invariant
                *self == *old(self),
                self@.dups.no_duplicates(),
                k <= self.dup_ids@.len(),
                forall|j: int| 0 <= j < k ==> (#[trigger] self.dup_ids@[j]) != id,
            decreases self.dup_ids@.len() - k,
        {
            if self.dup_ids[k] == id {
                proof {
                    assert(self.dup_ids@[k as int] == id);
                    assert(self.dup_ids@.index_of(id) == k);
                }
                self.dup_ids.remove(k);
                return ;
            }
            k += 1;
        }
    }
}

/// Cuts an optional run after `n` items: the front is returned, the rest
/// stays.
fn split_run(v: &mut Option<Vec<i64>>, n: usize) -> (front: Option<Vec<i64>>)
    requires
        *old(v) matches Some(x) ==> n <= x@.len(),
    ensures
        seqs::opt_run(front) == crate::hi_model::opt_take(seqs::opt_run(*old(v)), n as int),
        seqs::opt_run(*final(v)) == crate::hi_model::opt_skip(seqs::opt_run(*old(v)), n as int),
{
    match v.take() {
        None => None,
        Some(run) => {
            let mut run = run;
            let ghost all = run@;
            let rest = run.split_off(n);
            assert(run@ =~= all.take(n as int));
            assert(rest@ =~= all.skip(n as int));
            *v = Some(rest);
            Some(run)
        },
    }
}

/// Cuts an optional list of hashes after `n` of them: the front is
/// returned, the rest stays.
fn split_hash_list(v: &mut Option<Vec<String>>, n: usize) -> (front: Option<Vec<String>>)
    requires
        *old(v) matches Some(x) ==> n <= x@.len(),
    ensures
        unified::opt_texts(front) == model::hash_take(unified::opt_texts(*old(v)), n as int),
        unified::opt_texts(*final(v)) == model::hash_skip(unified::opt_texts(*old(v)), n as int),
{
    match v.take() {
        None => None,
        Some(run) => {
            let mut run = run;
            let ghost all = unified::texts(run@);
            let rest = run.split_off(n);
            assert(unified::texts(run@) =~= all.take(n as int));
            assert(unified::texts(rest@) =~= all.skip(n as int));
            *v = Some(rest);
            Some(run)
        },
    }
}

/// Puts `b` in the place of `a`.
fn replace_kid(kids: &mut Vec<u32>, a: NodeId, b: NodeId)
    requires
        old(kids)@.no_duplicates(),
        old(kids)@.contains(a),
    ensures
        final(kids)@ == model::replaced(old(kids)@, a, b),
{
    let ghost k0 = kids@;
    let ghost at = k0.index_of(a);
    let mut k: usize = 0;
    while kids[k] != a
        invariant
            kids@ == k0,
            k <= at < kids.len(),
            k0.len() == kids.len(),
            k0[at] == a,
        decreases at - k,
    {
        k += 1;
    }
    assert(k == at);
    kids[k] = b;
}

/// Takes `a` out.
fn remove_kid(kids: &mut Vec<u32>, a: NodeId)
    requires
        old(kids)@.no_duplicates(),
        old(kids)@.contains(a),
    ensures
        final(kids)@ == lru::without(old(kids)@, a),
{
    let ghost k0 = kids@;
    let ghost at = k0.index_of(a);
    let mut k: usize = 0;
    while kids[k] != a
        invariant
            kids@ == k0,
            k <= at < kids.len(),
            k0.len() == kids.len(),
            k0[at] == a,
            k0.no_duplicates(),
        decreases at - k,
    {
        k += 1;
    }
    assert(k == at);
    kids.remove(k);
}

impl UnifiedRadixTree {
    // ---- nodes that come and go ----

    /// Makes room in the lists for `len` nodes.
    fn grow_lists(&mut self, len: usize)
        requires
            old(self).lru@.len() == 8,
            forall|k: int|
                0 <= k < 8 ==> (#[trigger] old(self).lru@[k]).wf() && old(self).lru@[k].capacity() <= len,
        ensures
            *final(self) == (UnifiedRadixTree { lru: final(self).lru, ..*old(self) }),
            orders(final(self).lru@) == orders(old(self).lru@),
            final(self).lru@.len() == 8,
            forall|k: int|
                0 <= k < 8 ==> (#[trigger] final(self).lru@[k]).wf() && final(self).lru@[k].capacity() == len,
    {
        let ghost lists = self.lru@;
        let mut k: usize = 0;
        while k < 8
            invariant
                k <= 8,
                lists == old(self).lru@,
                *self == (UnifiedRadixTree { lru: self.lru, ..*old(self) }),
                self.lru@.len() == 8,
                lists.len() == 8,
                forall|j: int|
                    0 <= j < k ==> {
                        &&& (#[trigger] self.lru@[j]).wf()
                        &&& self.lru@[j].capacity() == len
                        &&& self.lru@[j]@ == lists[j]@
                    },
                forall|j: int| k <= j < 8 ==> #[trigger] self.lru@[j] == lists[j],
                forall|j: int| 0 <= j < 8 ==> (#[trigger] lists[j]).wf() && lists[j].capacity() <= len,
            decreases 8 - k,
        {
            let ghost before = self.lru@[k as int];
            proof {
                assert(before == lists[k as int]);
                before.lemma_members();
            }
            self.lru[k].grow(len);
            k += 1;
        }
        assert(orders(self.lru@) =~= orders(lists));
    }

    /// Moves what the front of a cut node takes along: its runs, hashes,
    /// locks and marks. The rest stays on `c`.
    fn front_part(&mut self, c: NodeId, u: usize, pages: usize, now: i128) -> (front: UNode)
        requires
            c < old(self).nodes@.len(),
            ({
                let n = old(self).nodes@[c as int]@;
                &&& n.arity()
                &&& n.value[3] is None && n.host[3] is None && n.lock[3] == 0
                &&& n.value[0] matches Some(v) ==> u <= v.len()
                &&& n.value[1] matches Some(v) ==> u <= v.len()
                &&& n.host[0] matches Some(v) ==> u <= v.len()
                &&& n.host[1] matches Some(v) ==> u <= v.len()
                &&& n.hashes matches Some(v) ==> pages <= v.len()
                &&& n.event_hashes matches Some(v) ==> pages <= v.len()
            }),
        ensures
            *final(self) == (UnifiedRadixTree { nodes: final(self).nodes, ..*old(self) }),
            final(self).nodes@ == old(self).nodes@.update(c as int, final(self).nodes@[c as int]),
            ({
                let n = old(self).nodes@[c as int]@;
                let swa = old(self).cfg.swa();
                &&& front@ == (UNodeState {
                    value: seq![
                        crate::hi_model::opt_take(n.value[0], u as int),
                        crate::hi_model::opt_take(n.value[1], u as int),
                        None,
                        None,
                    ],
                    host: seq![
                        crate::hi_model::opt_take(n.host[0], u as int),
                        crate::hi_model::opt_take(n.host[1], u as int),
                        None,
                        None,
                    ],
                    lock: seq![n.lock[0], n.lock[1], 0, 0],
                    host_lock: seq![0, 0, 0, 0],
                    kids: seq![c],
                    access: now,
                    hashes: model::hash_take(n.hashes, pages as int),
                    event_hashes: model::hash_take(n.event_hashes, pages as int),
                    mark: if swa {
                        n.mark
                    } else {
                        None
                    },
                    host_mark: None,
                    ..n
                })
                &&& final(self).nodes@[c as int]@ == (UNodeState {
                    value: seq![
                        crate::hi_model::opt_skip(n.value[0], u as int),
                        crate::hi_model::opt_skip(n.value[1], u as int),
                        n.value[2],
                        None,
                    ],
                    host: seq![
                        crate::hi_model::opt_skip(n.host[0], u as int),
                        crate::hi_model::opt_skip(n.host[1], u as int),
                        n.host[2],
                        None,
                    ],
                    hashes: model::hash_skip(n.hashes, pages as int),
                    event_hashes: model::hash_skip(n.event_hashes, pages as int),
                    mark: if swa {
                        None
                    } else {
                        n.mark
                    },
                    ..n
                })
            }),
    {
        let swa = self.cfg.has_swa();
        let ghost n = self.nodes@[c as int]@;
        let i = c as usize;
        let mut front = UNode::blank(now, self.nodes[i].creation, self.nodes[i].priority);
        front.value[0] = split_run(&mut self.nodes[i].value[0], u);
        front.value[1] = split_run(&mut self.nodes[i].value[1], u);
        front.host_value[0] = split_run(&mut self.nodes[i].host_value[0], u);
        front.host_value[1] = split_run(&mut self.nodes[i].host_value[1], u);
        front.lock_ref[0] = self.nodes[i].lock_ref[0];
        front.lock_ref[1] = self.nodes[i].lock_ref[1];
        front.hash_value = split_hash_list(&mut self.nodes[i].hash_value, pages);
        front.event_hash_value = split_hash_list(&mut self.nodes[i].event_hash_value, pages);
        front.hit_count = self.nodes[i].hit_count;
        front.wt_pending = self.nodes[i].wt_pending;
        front.lb_pending = self.nodes[i].lb_pending;
        if swa {
            front.swa_uuid = self.nodes[i].swa_uuid;
            self.nodes[i].swa_uuid = None;
        }
        front.child_order.push(c);
        proof {
            let m = self.nodes@[c as int]@;
            assert(front@.kids =~= seq![c]);
            assert(front@.value =~= seq![
                crate::hi_model::opt_take(n.value[0], u as int),
                crate::hi_model::opt_take(n.value[1], u as int),
                None,
                None,
            ]);
            assert(front@.host =~= seq![
                crate::hi_model::opt_take(n.host[0], u as int),
                crate::hi_model::opt_take(n.host[1], u as int),
                None,
                None,
            ]);
            assert(front@.lock =~= seq![n.lock[0], n.lock[1], 0, 0]);
            assert(front@.host_lock =~= seq![0, 0, 0, 0]);
            assert(m.value =~= seq![
                crate::hi_model::opt_skip(n.value[0], u as int),
                crate::hi_model::opt_skip(n.value[1], u as int),
                n.value[2],
                None,
            ]);
            assert(m.host =~= seq![
                crate::hi_model::opt_skip(n.host[0], u as int),
                crate::hi_model::opt_skip(n.host[1], u as int),
                n.host[2],
                None,
            ]);
        }
        front
    }
}

impl UnifiedRadixTree {
    /// Puts both parts of a cut node into the lists.
    fn relist_cut(&mut self, c: NodeId, f: NodeId, swa: bool, swa_host: bool, mamba: bool, Ghost(st): Ghost<UState>)
        requires
            st.listed(),
            old(self).lru@.len() == 8,
            orders(old(self).lru@) == st.lru,
            c < f,
            forall|k: int|
                0 <= k < 8 ==> (#[trigger] old(self).lru@[k]).wf() && old(self).lru@[k].capacity() == f + 1,
            swa == (st.nodes[c as int].value[1] is Some),
            swa_host == (st.nodes[c as int].value[1] is None && st.nodes[c as int].host[1] is Some),
            mamba == (st.nodes[c as int].value[2] is Some),
            st.inner(c),
            f == st.nodes.len(),
        ensures
            *final(self) == (UnifiedRadixTree { lru: final(self).lru, ..*old(self) }),
            orders(final(self).lru@) == st.cut_lists(c, f),
            final(self).lru@.len() == 8,
            forall|k: int|
                0 <= k < 8 ==> (#[trigger] final(self).lru@[k]).wf() && final(self).lru@[k].capacity() == f + 1,
    {
        let ghost lists = self.lru@;
        proof {
            assert(st.lists_ok(1, c));
            assert(st.lists_ok(2, c));
            assert(st.lists_ok(1, f));
            assert(st.lists_ok(2, f));
            assert(st.lru[2] == lists[2]@);
            assert(st.lru[3] == lists[3]@);
            assert(st.lru[4] == lists[4]@);
            assert(lists[2].wf() && lists[3].wf() && lists[4].wf());
        }
        if swa {
            proof {
                lru::lemma_gone(st.lru[2], c, f);
                lru::lemma_pair(st.lru[2], c, f);
            }
            self.lru[2].remove(c);
            self.lru[2].insert_mru(f);
            self.lru[2].insert_mru(c);
        }
        if swa_host {
            proof {
                facts::lemma_front(st.lru[3], f);
            }
            let there = self.lru[3].in_list(c);
            self.lru[3].insert_mru(f);
            if !there {
                self.lru[3].insert_mru(c);
            }
        }
        if mamba {
            self.lru[4].reset_mru(c);
        }
        proof {
            assert(orders(self.lru@) =~= st.cut_lists(c, f));
        }
    }

    /// Cuts `c` after `m` flattened elements; returns the new front node and
    /// the report for a write-through in flight.
    #[verifier::rlimit(40)]
    pub(crate) fn cut(&mut self, c: NodeId, m: usize) -> (r: (NodeId, Option<UCacheAction>))
        requires
            old(self).wf(),
            old(self)@.cuttable(c, m as int),
        ensures
            final(self).wf(),
            final(self)@ == old(self)@.cut(c, m as int),
            r.0 == old(self)@.nodes.len(),
            unified::opt_act(r.1) == old(self)@.cut_report(c),
    {
        let ghost st = self@;
        let ghost t = st.cut(c, m as int);
        let ghost p0 = st.shape.nodes[c as int].parent;
        proof {
            assert(st.nodes[c as int] == self.nodes@[c as int]@);
            assert(st.node_ok(c as int));
            facts::lemma_cut(st, c, m as int);
            facts::lemma_cut_listed(st, c, m as int);
            facts::lemma_cut_counts(st, c, m as int, 0);
            facts::lemma_cut_counts(st, c, m as int, 1);
            facts::lemma_cut_counts(st, c, m as int, 2);
            facts::lemma_pages(st.shape, m as int);
            facts::lemma_hash_cut(
                st.nodes[c as int].hashes,
                st.units(c),
                m as int / st.shape.unit as int,
                st.shape.page as int,
            );
            facts::lemma_hash_cut(
                st.nodes[c as int].event_hashes,
                st.units(c),
                m as int / st.shape.unit as int,
                st.shape.page as int,
            );
            topo::lemma_path_grows(st.shape, c);
            assert(st.shape.hangs(c as int));
            assert(st.shape.is_child(p0, c));
            assert(st.kids_ok(p0 as int));
            assert(st.nodes[p0 as int] == self.nodes@[p0 as int]@);
        }
        let f = self.nodes.len() as NodeId;
        let u = m / self.topo.unit_size();
        let pages = u / self.topo.page_size();
        let parent = match self.topo.parent(c) {
            Some(p) => p,
            None => ROOT,
        };
        let swa = self.nodes[c as usize].value[1].is_some();
        let swa_host = !swa && self.nodes[c as usize].host_value[1].is_some();
        let mamba = self.nodes[c as usize].value[2].is_some();
        let ack = self.nodes[c as usize].wt_pending;
        let t0 = self.tick();
        let t1 = self.tick();
        let t2 = self.tick();
        let front = self.front_part(c, u, pages, t0);
        let both = front.value[0].is_some() && front.host_value[0].is_some();
        self.nodes[c as usize].last_access = t2;
        replace_kid(&mut self.nodes[parent as usize].child_order, c, f);
        let settled = both && front.wt_pending.is_none() && front.lb_pending.is_none();
        let ghost front_state = front@;
        self.nodes.push(front);
        self.topo.split(c, m);
        if settled {
            self.dup_ids.push(f);
        }
        let len = self.nodes.len();
        self.grow_lists(len);
        self.relist_cut(c, f, swa, swa_host, mamba, Ghost(st));
        proof {
            assert(self@.nodes[c as int] =~= st.tail_of(c, m as int));
            assert(self@.nodes[f as int] =~= st.front_of(c, m as int));
            assert(self@.nodes =~= t.nodes);
            assert(!st.dups.contains(f)) by {
                if st.dups.contains(f) {
                    assert(st.inner(f));
                }
            }
            assert(self@.dups == t.dups);
            assert(self@ =~= t);
        }
        self.refresh(c);
        self.refresh(f);
        let report = match ack {
            Some(a) => Some(
                UCacheAction::ReplaceWT { ack_id: a, old_node: c, new_node: f, new_child_node: c },
            ),
            None => None,
        };
        (f, report)
    }

    /// Adds the leaf `node` below `p`; stamps are taken by the caller.
    #[verifier::rlimit(40)]
    pub(crate) fn grow(&mut self, p: NodeId, ns: u32, key: Vec<i64>, node: UNode) -> (f: NodeId)
        requires
            old(self).wf(),
            old(self)@.live(p),
            old(self)@.roomy(1),
            key@.len() > 0,
            old(self)@.shape.aligned(key@.len() as int),
            p != ROOT ==> old(self)@.shape.nodes[p as int].ns == ns,
            old(self)@.shape.child_of(p, ns, key@.take(old(self)@.shape.chunk() as int)) is None,
            ({
                let n = node@;
                let u = key@.len() as int / old(self)@.shape.unit as int;
                let page = old(self)@.shape.page as int;
                &&& n.arity() && n.counted() && n.unlocked() && n.host_unlocked()
                &&& n.value[0] is Some || n.host[0] is Some
                &&& model::run_fits(n.value[0], u) && model::run_fits(n.host[0], u)
                &&& n.value[1] is None && n.value[2] is None && n.value[3] is None
                &&& n.host[1] is None && n.host[2] is None && n.host[3] is None
                &&& n.kids.len() == 0
                &&& model::hashes_fit(n.hashes, u, page) && model::hashes_fit(n.event_hashes, u, page)
                &&& n.value[0] is Some ==> old(self)@.size(0) + u <= i64::MAX && old(self)@.nodes[p as int].value[0] is Some
            }),
        ensures
            final(self).wf(),
            final(self)@ == old(self)@.grown(p, ns, key@, node@),
            f == old(self)@.nodes.len(),
    {
        let ghost st = self@;
        let ghost n = node@;
        let ghost t = st.grown(p, ns, key@, n);
        proof {
            assert(st.nodes[p as int] == self.nodes@[p as int]@);
            facts::lemma_grown(st, p, ns, key@, n);
            facts::law_sizes_add_up(st, 0);
            facts::law_sizes_add_up(t, 0);
            assert(self.evictable_size@[0] == st.count(0, false));
        }
        let f = self.nodes.len() as NodeId;
        let t0 = self.tick();
        let t1 = self.tick();
        let size: i64 = match &node.value[0] {
            Some(v) => v.len() as i64,
            None => 0,
        };
        self.nodes[p as usize].child_order.push(f);
        self.nodes.push(node);
        let ghost key0 = key@;
        self.topo.graft(p, ns, key);
        self.evictable_size[0] = self.evictable_size[0] + size;
        let len = self.nodes.len();
        self.grow_lists(len);
        proof {
            assert(self@.nodes[p as int].kids =~= st.nodes[p as int].kids.push(f));
            assert(self@.nodes[p as int] =~= t.nodes[p as int]);
            assert(self@.nodes =~= t.nodes);
            assert(self@ =~= t);
            assert(t.count(1, false) == st.count(1, false) && t.count(1, true) == st.count(1, true));
            assert(t.count(2, false) == st.count(2, false) && t.count(2, true) == st.count(2, true));
            assert(self.sums());
        }
        self.refresh(p);
        self.refresh(f);
        f
    }

    /// Takes the leaf `x` off the tree with all it holds.
    #[verifier::rlimit(40)]
    pub(crate) fn erase(&mut self, x: NodeId)
        requires
            old(self).wf(),
            old(self)@.inner(x),
            old(self)@.shape.is_leaf(x),
            old(self)@.nodes[x as int].unlocked(),
        ensures
            final(self).wf(),
            final(self)@ == old(self)@.erased(x),
    {
        let ghost st = self@;
        let ghost t = st.erased(x);
        let ghost p0 = st.shape.nodes[x as int].parent;
        proof {
            assert(st.nodes[x as int] == self.nodes@[x as int]@);
            assert(st.node_ok(x as int));
            facts::lemma_erased(st, x);
            facts::law_sizes_add_up(st, 0);
            facts::law_sizes_add_up(st, 1);
            facts::law_sizes_add_up(st, 2);
            assert(st.kids_ok(p0 as int));
            assert(st.shape.is_child(p0, x));
            assert(st.nodes[p0 as int] == self.nodes@[p0 as int]@);
            assert(st.weight(0, false, x as int) <= st.count(0, false));
            assert(st.weight(1, false, x as int) <= st.count(1, false));
            assert(st.weight(2, false, x as int) <= st.count(2, false));
            assert(st.weight(0, true, x as int) == 0);
            assert(st.weight(1, true, x as int) == 0);
            assert(st.weight(2, true, x as int) == 0);
            assert(self.evictable_size@[0] == st.count(0, false));
            assert(self.evictable_size@[1] == st.count(1, false));
            assert(self.evictable_size@[2] == st.count(2, false));
        }
        let parent = match self.topo.parent(x) {
            Some(p) => p,
            None => ROOT,
        };
        let w0 = self.weigh(x, 0);
        let w1 = self.weigh(x, 1);
        let w2 = self.weigh(x, 2);
        self.evictable_size[0] = self.evictable_size[0] - w0.0;
        self.evictable_size[1] = self.evictable_size[1] - w1.0;
        self.evictable_size[2] = self.evictable_size[2] - w2.0;
        self.nodes[x as usize].value = [None, None, None, None];
        self.nodes[x as usize].host_value = [None, None, None, None];
        remove_kid(&mut self.nodes[parent as usize].child_order, x);
        self.topo.prune(x);
        self.unlist(x, 2);
        self.unlist(x, 3);
        self.unlist(x, 4);
        self.unlist(x, 5);
        self.unlist_duplicate(x);
        self.d_leaves.remove(&x);
        self.h_leaves.remove(&x);
        proof {
            assert(self@.nodes[x as int].value =~= seq![None, None, None, None]);
            assert(self@.nodes[x as int].host =~= seq![None, None, None, None]);
            assert(self@.nodes[x as int] =~= t.nodes[x as int]);
            assert(self@.nodes =~= t.nodes);
            assert(self@.lru =~= t.lru);
            assert(self@ =~= t);
            assert(t.count(0, false) == st.count(0, false) - st.weight(0, false, x as int));
            assert(t.count(1, false) == st.count(1, false) - st.weight(1, false, x as int));
            assert(t.count(2, false) == st.count(2, false) - st.weight(2, false, x as int));
            assert(t.count(0, true) == st.count(0, true));
            assert(t.count(1, true) == st.count(1, true));
            assert(t.count(2, true) == st.count(2, true));
            assert(self.sums());
        }
        self.refresh(parent);
    }

    /// Takes `x` off a list, if it is there.
    fn unlist(&mut self, x: NodeId, slot: usize)
        requires
            slot < 8,
            old(self).lru@.len() == 8,
            old(self).lru@[slot as int].wf(),
        ensures
            *final(self) == (UnifiedRadixTree { lru: final(self).lru, ..*old(self) }),
            final(self).lru@ == old(self).lru@.update(slot as int, final(self).lru@[slot as int]),
            final(self).lru@[slot as int].wf(),
            final(self).lru@[slot as int].capacity() == old(self).lru@[slot as int].capacity(),
            final(self).lru@[slot as int]@ == model::rid(old(self).lru@[slot as int]@, x),
    {
        if self.lru[slot].in_list(x) {
            self.lru[slot].remove(x);
        }
    }

    /// Moves the members `xs` of the device list of `ct` to its front, in
    /// their order.
    pub(crate) fn lift(&mut self, ct: u8, xs: &Vec<NodeId>)
        requires
            old(self).wf(),
            ct == 1 || ct == 2,
            xs@.no_duplicates(),
            forall|j: int| 0 <= j < xs@.len() ==> old(self)@.lru[2 * ct].contains(#[trigger] xs@[j]),
        ensures
            final(self).wf(),
            final(self)@ == old(self)@.relisted(2 * ct, lru::lifted(old(self)@.lru[2 * ct], xs@)),
    {
        let ghost st = self@;
        let slot = lru_slot(ct, 0);
        let ghost t = st.relisted(slot as int, lru::lifted(st.lru[slot as int], xs@));
        proof {
            assert(self.lru@[slot as int].wf());
            assert(st.lru[slot as int] == self.lru@[slot as int]@);
            lru::law_lift_keeps_members(st.lru[slot as int], xs@);
            facts::lemma_relisted(st, slot as int, lru::lifted(st.lru[slot as int], xs@));
        }
        self.lru[slot].lift(xs);
        proof {
            assert(self@.lru =~= t.lru);
            assert(self@ =~= t);
            self.lemma_still(st, t);
        }
    }

    /// The members of a list, most recent first.
    pub fn lru_order(&self, ct: u8, layer: u8) -> (r: Vec<u32>)
        requires
            self.sound(),
            ct < 4,
            layer < 2,
        ensures
            r@ == self@.lru[2 * ct + layer],
    {
        let slot = lru_slot(ct, layer);
        let list = &self.lru[slot];
        let ghost order = list@;
        let mut out: Vec<u32> = Vec::new();
        let mut at = list.successor(Lru::Head).node();
        proof {
            assert(self.lru@[slot as int].wf());
            list.lemma_members();
            assert(out@ =~= order.take(0));
        }
        while at.is_some()
            invariant
                list.wf(),
                order == list@,
                order.no_duplicates(),
                out@.len() <= order.len(),
                out@ == order.take(out@.len() as int),
                at == (if out@.len() < order.len() {
                    Some(order[out@.len() as int])
                } else {
                    None
                }),
            decreases order.len() - out@.len(),
        {
            let x = at.unwrap();
            proof {
                list.lemma_members();
                assert(order[out@.len() as int] == x);
                assert(order.take(out@.len() as int).push(x) =~= order.take(out@.len() as int + 1));
                assert(order.contains(x));
                assert(order.index_of(x) == out@.len());
            }
            out.push(x);
            at = list.successor(Lru::Node(x)).node();
        }
        assert(out@ =~= order);
        out
    }
}

impl UnifiedRadixTree {
    // ---- looking around ----

    /// The shape of the tree.
    pub(crate) fn topo(&self) -> (r: &Topology)
        requires
            self.sound(),
        ensures
            r.wf(),
            r@ == self@.shape,
    {
        &self.topo
    }

    /// What `node_id` holds.
    pub fn node_by_id(&self, node_id: NodeId) -> (r: &UNode)
        requires
            node_id < self@.nodes.len(),
        ensures
            r@ == self@.nodes[node_id as int],
    {
        &self.nodes[node_id as usize]
    }

    /// Whether `id` is a member of a list.
    pub(crate) fn lru_in(&self, ct: u8, layer: u8, id: NodeId) -> (r: bool)
        requires
            self.wf(),
            ct < 4,
            layer < 2,
        ensures
            r == self@.lru[2 * ct + layer].contains(id),
    {
        let slot = lru_slot(ct, layer);
        assert(self.lru@[slot as int].wf());
        self.lru[slot].in_list(id)
    }

    /// The node before `id` in a list, or the last one for `None`.
    pub(crate) fn lru_before(&self, ct: u8, layer: u8, id: Option<NodeId>) -> (r: Option<NodeId>)
        requires
            self.wf(),
            ct < 4,
            layer < 2,
            id matches Some(x) ==> self@.lru[2 * ct + layer].contains(x),
        ensures
            ({
                let order = self@.lru[2 * ct + layer];
                let k = match id {
                    Some(x) => order.index_of(x),
                    None => order.len() as int,
                };
                r == (if k > 0 {
                    Some(order[k - 1])
                } else {
                    None
                })
            }),
    {
        let slot = lru_slot(ct, layer);
        assert(self.lru@[slot as int].wf());
        proof {
            self.lru@[slot as int].lemma_members();
        }
        match id {
            Some(x) => self.lru[slot].predecessor(Lru::Node(x)).node(),
            None => self.lru[slot].predecessor(Lru::Tail).node(),
        }
    }

    /// Whether the host tier is on.
    pub(crate) fn hicache(&self) -> (r: bool)
        ensures
            r == self@.hicache,
    {
        self.enable_hicache
    }

    /// The clock.
    pub(crate) fn clock(&self) -> (r: i128)
        ensures
            r == self@.clock,
    {
        self.time_counter
    }

    /// The mark counter.
    pub(crate) fn uuids(&self) -> (r: i64)
        ensures
            r == self@.uuids,
    {
        self.uuid_counter
    }

    /// The SWA eviction walk.
    pub(crate) fn swa_walk(&self) -> (r: Option<LruEvictWalk>)
        ensures
            r == self@.swa_walk,
    {
        self.swa_evict
    }

    /// The MAMBA eviction walk.
    pub(crate) fn mamba_walk(&self) -> (r: Option<LruEvictWalk>)
        ensures
            r == self@.mamba_walk,
    {
        self.mamba_evict
    }

    /// The device leaves, by ascending id.
    pub(crate) fn device_leaves(&self) -> (r: Vec<u32>)
        requires
            self.wf(),
        ensures
            forall|i: int, j: int| 0 <= i < j < r@.len() ==> r@[i] < r@[j],
            forall|x: NodeId| #[trigger] r@.contains(x) <==> self@.device_leaf(x),
    {
        let r = self.d_leaves.sorted();
        proof {
            assert forall|x: NodeId| #[trigger] r@.contains(x) <==> self@.device_leaf(x) by {
                assert(self.d_leaves@.contains(x) == self@.device_leaf(x));
            }
        }
        r
    }

    /// The host leaves, by ascending id.
    pub(crate) fn host_leaves(&self) -> (r: Vec<u32>)
        requires
            self.wf(),
        ensures
            forall|i: int, j: int| 0 <= i < j < r@.len() ==> r@[i] < r@[j],
            forall|x: NodeId| #[trigger] r@.contains(x) <==> self@.host_leaf(x),
    {
        let r = self.h_leaves.sorted();
        proof {
            assert forall|x: NodeId| #[trigger] r@.contains(x) <==> self@.host_leaf(x) by {
                assert(self.h_leaves@.contains(x) == self@.host_leaf(x));
            }
        }
        r
    }

    /// FULL tokens of unlocked nodes.
    pub fn evictable_size(&self) -> (r: i64)
        requires
            self.wf(),
        ensures
            r == self@.count(0, false),
    {
        self.evictable_size[0]
    }

    /// FULL tokens of locked nodes.
    pub fn protected_size(&self) -> (r: i64)
        requires
            self.wf(),
        ensures
            r == self@.count(0, true),
    {
        self.protected_size[0]
    }

    /// Device tokens of component `ct` on nodes it does not lock.
    pub fn component_evictable_size(&self, ct: u8) -> (r: i64)
        requires
            self.wf(),
            ct < 4,
        ensures
            r == (if ct < 3 {
                self@.count(ct as int, false)
            } else {
                0
            }),
    {
        if ct < 3 {
            self.evictable_size[ct as usize]
        } else {
            0
        }
    }

    /// Device tokens of component `ct` on nodes it locks.
    pub fn component_protected_size(&self, ct: u8) -> (r: i64)
        requires
            self.wf(),
            ct < 4,
        ensures
            r == (if ct < 3 {
                self@.count(ct as int, true)
            } else {
                0
            }),
    {
        if ct < 3 {
            self.protected_size[ct as usize]
        } else {
            0
        }
    }

    /// Nodes noted as duplicates, oldest first.
    pub fn duplicate_ids(&self) -> (r: Vec<u32>)
        ensures
            r@ == self@.dups,
    {
        let r = self.dup_ids.clone();
        assert(r@ =~= self.dup_ids@);
        r
    }

    /// The digest of reclaimed duplicates.
    pub fn reclaim_digest(&self) -> (r: u64)
        ensures
            r == self@.digest,
    {
        self.reclaim_digest
    }

    /// The hit count at which nodes are backed up.
    pub fn write_through_threshold(&self) -> (r: i64)
        ensures
            r == self@.cfg.write_through_threshold,
    {
        self.cfg.write_through_threshold
    }

    /// Whether the tree writes back.
    pub fn is_write_back(&self) -> (r: bool)
        ensures
            r == self@.cfg.is_write_back,
    {
        self.cfg.is_write_back
    }

    /// The root.
    pub fn root_id(&self) -> (r: u32)
        ensures
            r == ROOT,
    {
        ROOT
    }

    /// Whether an insert is in flight.
    pub fn has_ongoing_insert(&self) -> (r: bool)
        ensures
            r == (self@.ongoing is Some),
    {
        self.ongoing.is_some()
    }
}

impl UnifiedRadixTree {
    /// Puts `id` on the host list of `ct`, if it has a host run alone.
    pub(crate) fn list_host(&mut self, id: NodeId, ct: u8)
        requires
            old(self).wf(),
            old(self)@.inner(id),
            ct == 1 || ct == 2,
        ensures
            final(self).wf(),
            final(self)@ == old(self)@.host_listed(id, ct as int),
    {
        let ghost st = self@;
        let ghost c = ct as int;
        let ghost t = st.host_listed(id, c);
        let slot = lru_slot(ct, 1);
        proof {
            assert(st.nodes[id as int] == self.nodes@[id as int]@);
            assert(self.lru@[slot as int].wf());
            assert(st.lru[slot as int] == self.lru@[slot as int]@);
            assert(st.lists_ok(c, id));
            assert(st.node_ok(id as int));
        }
        if self.nodes[id as usize].host_value[ct as usize].is_some()
            && self.nodes[id as usize].value[ct as usize].is_none() && !self.lru[slot].in_list(id) {
            proof {
                facts::lemma_front(st.lru[slot as int], id);
                facts::lemma_host_listed(st, id, c);
            }
            self.lru[slot].insert_mru(id);
            proof {
                assert(self@.lru =~= t.lru);
                assert(self@ =~= t);
                self.lemma_still(st, t);
            }
        } else {
            assert(self@ =~= t);
        }
    }

    /// Whether `id` is a device leaf.
    pub(crate) fn in_d_leaves(&self, id: NodeId) -> (r: bool)
        requires
            self.wf(),
        ensures
            r == self@.device_leaf(id),
    {
        assert(self.d_leaves@.contains(id) == self@.device_leaf(id));
        self.d_leaves.contains(&id)
    }

    /// Whether `id` is a host leaf.
    pub(crate) fn in_h_leaves(&self, id: NodeId) -> (r: bool)
        requires
            self.wf(),
        ensures
            r == self@.host_leaf(id),
    {
        assert(self.h_leaves@.contains(id) == self@.host_leaf(id));
        self.h_leaves.contains(&id)
    }
}

impl UnifiedRadixTree {
    /// The counter of locked or unlocked device tokens of `ct`.
    pub closed spec fn counter(&self, ct: int, locked: bool) -> i64 {
        if locked {
            self.protected_size@[ct]
        } else {
            self.evictable_size@[ct]
        }
    }

    /// The counters of a well-formed tree, and its leaf sets.
    pub proof fn lemma_counters(&self)
        requires
            self.wf(),
        ensures
            forall|ct: int, locked: bool| 0 <= ct < 3 ==> #[trigger] self.counter(ct, locked) == self@.count(ct, locked),
            forall|x: NodeId| #[trigger] self.in_leaf_set(x, false) == self@.device_leaf(x),
            forall|x: NodeId| #[trigger] self.in_leaf_set(x, true) == self@.host_leaf(x),
    {
        assert forall|x: NodeId| #[trigger] self.in_leaf_set(x, false) == self@.device_leaf(x) by {
            assert(self.d_leaves@.contains(x) == self@.device_leaf(x));
        }
        assert forall|x: NodeId| #[trigger] self.in_leaf_set(x, true) == self@.host_leaf(x) by {
            assert(self.h_leaves@.contains(x) == self@.host_leaf(x));
        }
    }

    /// Whether `x` is in the set of device leaves, or of host leaves.
    pub closed spec fn in_leaf_set(&self, x: NodeId, host: bool) -> bool {
        if host {
            self.h_leaves@.contains(x)
        } else {
            self.d_leaves@.contains(x)
        }
    }

    /// Whether `x` is in the set of device leaves, or of host leaves.
    pub(crate) fn in_set(&self, x: NodeId, host: bool) -> (r: bool)
        requires
            self.sound(),
        ensures
            r == self.in_leaf_set(x, host),
    {
        if host {
            self.h_leaves.contains(&x)
        } else {
            self.d_leaves.contains(&x)
        }
    }

    /// A bound of the node ids, of the members of the leaf sets and of the
    /// duplicates.
    pub(crate) fn id_bound(&self) -> (r: u64)
        requires
            self.sound(),
        ensures
            self@.nodes.len() <= r <= NodeId::MAX + 1,
            forall|x: NodeId, host: bool| #[trigger] self.in_leaf_set(x, host) ==> x < r,
            forall|x: NodeId| #[trigger] self@.dups.contains(x) ==> x < r,
    {
        proof {
            self.lemma_sound();
        }
        let mut r: u64 = self.nodes.len() as u64;
        let d = self.d_leaves.bound();
        if d > r {
            r = d;
        }
        let h = self.h_leaves.bound();
        if h > r {
            r = h;
        }
        let ghost least = r;
        let mut k: usize = 0;
        while k < self.dup_ids.len()
            invariant
                k <= self.dup_ids@.len(),
                least <= r <= NodeId::MAX + 1,
                forall|j: int| 0 <= j < k ==> (#[trigger] self.dup_ids@[j]) < r,
            decreases self.dup_ids@.len() - k,
        {
            let n = self.dup_ids[k] as u64 + 1;
            if n > r {
                r = n;
            }
            k += 1;
        }
        proof {
            assert forall|x: NodeId| #[trigger] self@.dups.contains(x) implies x < r by {
                let j = self.dup_ids@.index_of(x);
                assert(self.dup_ids@[j] == x);
            }
        }
        r
    }

    /// What holds of any tree of sound parts.
    pub proof fn lemma_sound(&self)
        requires
            self.sound(),
        ensures
            self@.nodes.len() == self@.shape.nodes.len(),
            1 <= self@.nodes.len() <= NodeId::MAX,
            self@.shape.wf(),
            self@.lru.len() == 8,
            forall|i: int| 0 <= i < self@.nodes.len() ==> (#[trigger] self@.nodes[i]).arity(),
    {
        self.topo.lemma_wf();
        assert forall|i: int| 0 <= i < self@.nodes.len() implies (#[trigger] self@.nodes[i]).arity() by {
            assert(self@.nodes[i] == self.nodes@[i]@);
        }
    }

    /// The counters of `ct`: unlocked, then locked.
    pub(crate) fn counters(&self, ct: u8) -> (r: (i64, i64))
        requires
            ct < 4,
        ensures
            r.0 == self.counter(ct as int, false),
            r.1 == self.counter(ct as int, true),
    {
        (self.evictable_size[ct as usize], self.protected_size[ct as usize])
    }

    /// Whether `id` names a node of the tree.
    pub(crate) fn holds_node(&self, id: NodeId) -> (r: bool)
        requires
            self.sound(),
        ensures
            r == self@.live(id),
    {
        (id as usize) < self.nodes.len() && self.topo.attached(id)
    }

    /// Whether `id` is on a list.
    pub(crate) fn on_list(&self, ct: u8, layer: u8, id: NodeId) -> (r: bool)
        requires
            self.sound(),
            ct < 4,
            layer < 2,
        ensures
            r == self@.lru[2 * ct + layer].contains(id),
    {
        let slot = lru_slot(ct, layer);
        assert(self.lru@[slot as int].wf());
        self.lru[slot].in_list(id)
    }
}

} // verus!
