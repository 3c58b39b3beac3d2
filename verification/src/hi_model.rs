//! The model of the host-tier tree: what each operation does to its state.

use crate::chains;
use crate::key::RadixKey;
use crate::ns::Names;
use crate::policy::EvictionPolicy;
use crate::query;
use crate::query::Frame;
use crate::queue::HeapItem;
use crate::seqs;
use crate::topo;
use crate::topo::{NodeId, Shape, Walk, ROOT};
use crate::tree_model;
use vstd::prelude::*;

verus! {

/// When a device node is copied to the host.
#[derive(Debug, Clone, Copy, PartialEq, Eq, Structural)]
pub enum HiPolicy {
    /// Backups fire on the hit-count threshold; device eviction demotes
    /// backed-up leaves and drops the rest.
    WriteThrough,
    /// Eviction stages leaves to the host first; the caller drives it.
    WriteBack,
}

/// What one node caches: the device run and the host copy, each with one
/// index per token, come and go on their own.
#[verifier::ext_equal]
pub struct HiNodeState {
    pub value: Option<Seq<i64>>,
    pub host: Option<Seq<i64>>,
    pub lock: u32,
    pub host_ref: u32,
    pub hits: u64,
    pub priority: i32,
    pub access: u64,
    pub pending: bool,
}

/// The state of a tree. Sizes and both leaf sets follow from it.
#[verifier::ext_equal]
pub struct HiState {
    pub shape: Shape,
    pub nodes: Seq<HiNodeState>,
    pub names: Seq<Names>,
    pub is_eagle: bool,
    pub disable: bool,
    pub policy: HiPolicy,
    pub strategy: EvictionPolicy,
    pub threshold: u64,
    pub load_min: nat,
    pub clock: u64,
}

/// The size counters.
pub enum HiCounter {
    /// Device tokens of unlocked nodes.
    Evictable,
    /// Device tokens of locked nodes.
    Protected,
    /// Host tokens.
    Host,
}

/// The first `n` items of an optional run.
pub open spec fn opt_take(v: Option<Seq<i64>>, n: int) -> Option<Seq<i64>> {
    match v {
        Some(v) => Some(v.take(n)),
        None => None,
    }
}

/// The items of an optional run past the first `n`.
pub open spec fn opt_skip(v: Option<Seq<i64>>, n: int) -> Option<Seq<i64>> {
    match v {
        Some(v) => Some(v.skip(n)),
        None => None,
    }
}

/// The items of an optional run, none if it is not there.
pub open spec fn run_or_none(v: Option<Seq<i64>>) -> Seq<i64> {
    match v {
        Some(v) => v,
        None => Seq::empty(),
    }
}

impl HiState {
    /// An empty tree.
    pub open spec fn fresh(
        page: nat,
        is_eagle: bool,
        disable: bool,
        policy: HiPolicy,
        strategy: EvictionPolicy,
        threshold: u64,
        load_min: nat,
    ) -> HiState {
        HiState {
            shape: Shape::bare(page, if is_eagle { 2 } else { 1 }),
            nodes: seq![
                HiNodeState {
                    value: Some(Seq::empty()),
                    host: Some(Seq::empty()),
                    lock: 1,
                    host_ref: 0,
                    hits: 0,
                    priority: i32::MIN,
                    access: 0,
                    pending: false,
                },
            ],
            names: Seq::empty(),
            is_eagle,
            disable,
            policy,
            strategy,
            threshold,
            load_min,
            clock: 0,
        }
    }

    /// What decides how a key is followed.
    pub open spec fn frame(self) -> Frame {
        Frame { shape: self.shape, names: self.names, is_eagle: self.is_eagle }
    }

    /// Whether `id` names a node with a device run; the root has an empty one.
    pub open spec fn live(self, id: NodeId) -> bool {
        id < self.nodes.len() && self.nodes[id as int].value is Some
    }

    /// Whether `id` names a node of the tree without a device run.
    pub open spec fn demoted(self, id: NodeId) -> bool {
        &&& 0 < id < self.nodes.len()
        &&& self.shape.has(id)
        &&& self.shape.nodes[id as int].attached
        &&& self.nodes[id as int].value is None
    }

    /// What node `i` counts towards `c`.
    pub open spec fn weight(self, c: HiCounter, i: int) -> int {
        let n = self.nodes[i];
        let counts = match c {
            HiCounter::Evictable => n.value is Some && n.lock == 0,
            HiCounter::Protected => n.value is Some && n.lock > 0,
            HiCounter::Host => n.host is Some,
        };
        if i > 0 && counts {
            self.shape.units(i)
        } else {
            0
        }
    }

    /// The value of a size counter.
    pub open spec fn count(self, c: HiCounter) -> int {
        seqs::total(|i: int| self.weight(c, i), self.nodes.len())
    }

    /// Device tokens.
    pub open spec fn size(self) -> int {
        self.count(HiCounter::Evictable) + self.count(HiCounter::Protected)
    }

    /// Host tokens.
    pub open spec fn host_size(self) -> int {
        self.count(HiCounter::Host)
    }

    /// Device tokens that node `i` holds.
    pub open spec fn held(self, i: int) -> int {
        if i > 0 && self.nodes[i].value is Some {
            self.shape.units(i)
        } else {
            0
        }
    }

    /// Number of nodes in the tree that hold a device run.
    pub open spec fn live_count(self) -> int {
        seqs::total(|i: int| if self.nodes[i].value is Some { 1 } else { 0 }, self.nodes.len())
    }

    /// Number of nodes in the tree.
    pub open spec fn node_count(self) -> int {
        seqs::total(|i: int| if self.shape.nodes[i].attached { 1 } else { 0 }, self.shape.nodes.len())
    }

    /// No child of `id` holds a device run.
    pub open spec fn no_live_child(self, id: NodeId) -> bool {
        forall|c: NodeId| #[trigger] self.shape.is_child(id, c) ==> self.nodes[c as int].value is None
    }

    /// No child of `id` is backed up.
    pub open spec fn no_host_child(self, id: NodeId) -> bool {
        forall|c: NodeId| #[trigger] self.shape.is_child(id, c) ==> self.nodes[c as int].host is None
    }

    /// A device leaf that may be evicted: live, unlocked, without live
    /// children.
    pub open spec fn leaf(self, id: NodeId) -> bool {
        &&& 0 < id < self.nodes.len()
        &&& self.nodes[id as int].value is Some
        &&& self.nodes[id as int].lock == 0
        &&& self.no_live_child(id)
    }

    /// A host leaf that may be evicted: demoted, unlocked on the device and
    /// on the host, without backed-up children.
    pub open spec fn host_leaf(self, id: NodeId) -> bool {
        &&& self.demoted(id)
        &&& self.nodes[id as int].lock == 0
        &&& self.nodes[id as int].host_ref == 0
        &&& self.no_host_child(id)
    }

    /// Node `i` holds a run only while its parent lists it, and at least one
    /// then; a device run hangs below a live node; a node without one is
    /// not locked.
    pub open spec fn node_ok(self, i: int) -> bool {
        let spot = self.shape.nodes[i];
        let n = self.nodes[i];
        &&& !spot.attached ==> n.value is None && n.host is None
        &&& spot.attached ==> n.value is Some || n.host is Some
        &&& n.value is Some ==> n.value->0.len() == self.shape.units(i)
        &&& n.host is Some ==> n.host->0.len() == self.shape.units(i)
        &&& spot.attached ==> self.shape.nodes[spot.parent as int].attached
        &&& n.value is Some ==> self.nodes[spot.parent as int].value is Some
        &&& spot.attached && n.value is None ==> n.lock == 0
        &&& spot.ns < self.names.len()
    }

    /// A possible state of a tree.
    pub open spec fn wf(self) -> bool {
        &&& self.frame().wf()
        &&& self.nodes.len() == self.shape.nodes.len()
        &&& self.nodes[0].value == Some(Seq::<i64>::empty())
        &&& self.nodes[0].host == Some(Seq::<i64>::empty())
        &&& self.nodes[0].lock == 1
        &&& forall|i: int| 0 < i < self.nodes.len() ==> #[trigger] self.node_ok(i)
        &&& forall|i: int| 0 <= i < self.nodes.len() ==> (#[trigger] self.nodes[i]).hits <= self.clock
        &&& self.size() <= i64::MAX
        &&& self.size() <= usize::MAX
        &&& self.host_size() <= i64::MAX
        &&& self.host_size() <= usize::MAX
    }

    /// Room for one more operation: ids, clock ticks and namespace ids do
    /// not run out.
    pub open spec fn roomy(self) -> bool {
        &&& self.nodes.len() + 2 <= NodeId::MAX
        &&& self.clock + 3 <= u64::MAX
        &&& self.names.len() < u32::MAX
    }

    /// Node `id` with the contents `n` instead.
    pub open spec fn patched(self, id: NodeId, n: HiNodeState) -> HiState {
        HiState { nodes: self.nodes.update(id as int, n), ..self }
    }

    /// Node `c` cut after `m` flattened elements: the new front node
    /// inherits everything but host protection, and is as new as the clock.
    pub open spec fn cut(self, c: NodeId, m: int) -> HiState {
        let n = self.nodes[c as int];
        let u = m / self.shape.unit as int;
        let now = (self.clock + 1) as u64;
        let front = HiNodeState {
            value: opt_take(n.value, u),
            host: opt_take(n.host, u),
            host_ref: 0,
            access: now,
            ..n
        };
        let tail = HiNodeState { value: opt_skip(n.value, u), host: opt_skip(n.host, u), ..n };
        HiState {
            shape: self.shape.split(c, m),
            nodes: self.nodes.update(c as int, tail).push(front),
            clock: now,
            ..self
        }
    }

    /// A new leaf `n` below `p`.
    pub open spec fn grown(self, p: NodeId, ns: u32, key: Seq<i64>, n: HiNodeState) -> HiState {
        HiState { shape: self.shape.graft(p, ns, key), nodes: self.nodes.push(n), ..self }
    }

    /// Node `x` deleted from the tree.
    pub open spec fn erased(self, x: NodeId) -> HiState {
        HiState {
            shape: self.shape.prune(x),
            nodes: self.nodes.update(
                x as int,
                HiNodeState { value: None, host: None, ..self.nodes[x as int] },
            ),
            ..self
        }
    }

    /// Node `x` loses its device run and keeps its host copy.
    pub open spec fn detached(self, x: NodeId) -> HiState {
        self.patched(x, HiNodeState { value: None, ..self.nodes[x as int] })
    }

    /// Node `x` gets a device run.
    pub open spec fn attached(self, x: NodeId, run: Seq<i64>) -> HiState {
        self.patched(x, HiNodeState { value: Some(run), ..self.nodes[x as int] })
    }

    /// The nodes `ids` visited at `now`, one after the other.
    pub open spec fn stamped(self, ids: Seq<NodeId>, now: u64) -> HiState
        decreases ids.len(),
    {
        if ids.len() == 0 {
            self
        } else {
            let st = self.stamped(ids.drop_last(), now);
            st.patched(ids.last(), HiNodeState { access: now, ..st.nodes[ids.last() as int] })
        }
    }

    // ---- match ----

    /// The device runs of the nodes `ids`, one after the other.
    pub open spec fn gathered(self, ids: Seq<NodeId>) -> Seq<i64>
        decreases ids.len(),
    {
        if ids.len() == 0 {
            Seq::empty()
        } else {
            self.gathered(ids.drop_last()) + run_or_none(self.nodes[ids.last() as int].value)
        }
    }

    /// The last of `visited` with a device run, or the root, and the host
    /// tokens of those behind it.
    pub open spec fn device_end(self, visited: Seq<NodeId>) -> (NodeId, int)
        decreases visited.len(),
    {
        if visited.len() == 0 {
            (ROOT, 0)
        } else if self.nodes[visited.last() as int].value is Some {
            (visited.last(), 0)
        } else {
            let (node, n) = self.device_end(visited.drop_last());
            (node, n + run_or_none(self.nodes[visited.last() as int].host).len())
        }
    }

    /// The last of `visited` that is backed up, or the root.
    pub open spec fn host_end(self, visited: Seq<NodeId>) -> NodeId
        decreases visited.len(),
    {
        if visited.len() == 0 {
            ROOT
        } else if self.nodes[visited.last() as int].host is Some {
            visited.last()
        } else {
            self.host_end(visited.drop_last())
        }
    }

    /// The state once the walk `w` of a key has passed, the nodes it visited
    /// and the split it made: all visited nodes, the node it started from
    /// included, get one time, a node matched in part is cut.
    pub open spec fn after_walk(
        self,
        start: NodeId,
        w: Walk,
        names: Seq<Names>,
    ) -> (HiState, Seq<NodeId>, Seq<(NodeId, NodeId)>) {
        let now = (self.clock + 1) as u64;
        let st = HiState { names, clock: now, ..self };
        match w.stop {
            None => (st.stamped(seq![start] + w.chain, now), w.chain, Seq::empty()),
            Some((c, m)) => {
                let f = self.nodes.len() as NodeId;
                (
                    st.stamped((seq![start] + w.chain).push(c), now).cut(c, m as int),
                    w.chain.push(f),
                    seq![(f, c)],
                )
            },
        }
    }

    /// The state after a match of `key`, and its result.
    pub open spec fn after_match(self, key: RadixKey) -> (HiState, HiMatched) {
        if self.disable || self.frame().flat(key).len() == 0 {
            (
                self,
                HiMatched {
                    indices: Seq::empty(),
                    device_node: ROOT,
                    host_node: ROOT,
                    host_len: 0,
                    splits: Seq::empty(),
                },
            )
        } else {
            let (st, visited, splits) = self.after_walk(
                ROOT,
                self.frame().walk(key),
                self.frame().names_with(key),
            );
            let (device_node, host_len) = st.device_end(visited);
            (
                st,
                HiMatched {
                    indices: st.gathered(visited),
                    device_node,
                    host_node: st.host_end(visited),
                    host_len,
                    splits,
                },
            )
        }
    }

    // ---- insert ----

    /// Node `x` visited by an insert at `now`.
    pub open spec fn raised(self, x: NodeId, now: u64, priority: i32) -> HiState {
        let n = self.nodes[x as int];
        self.patched(
            x,
            HiNodeState { access: now, priority: tree_model::max_prio(n.priority, priority), ..n },
        )
    }

    /// Node `x` hit by an insert: the state, and the node if its backup is
    /// now due.
    pub open spec fn hit(self, x: NodeId, chunked: bool) -> (HiState, Seq<NodeId>) {
        let n = self.nodes[x as int];
        if self.policy == HiPolicy::WriteBack || chunked {
            (self, Seq::empty())
        } else {
            let hits = (n.hits + 1) as u64;
            (
                self.patched(x, HiNodeState { hits, ..n }),
                if n.host is None && hits >= self.threshold {
                    seq![x]
                } else {
                    Seq::empty()
                },
            )
        }
    }

    /// An insert comes to node `x` with `run`: a demoted node takes it as
    /// its device run, a live one is hit. The state, the backups due, and
    /// the tokens that were there already.
    pub open spec fn met(self, x: NodeId, run: Seq<i64>, chunked: bool) -> (HiState, Seq<NodeId>, int) {
        if self.nodes[x as int].value is None {
            (self.attached(x, run), Seq::empty(), 0)
        } else {
            let (st, due) = self.hit(x, chunked);
            (st, due, run.len() as int)
        }
    }

    /// An insert has come past the first `k` nodes of `chain`.
    pub open spec fn met_all(
        self,
        chain: Seq<NodeId>,
        k: nat,
        val: Seq<i64>,
        now: u64,
        priority: i32,
        chunked: bool,
    ) -> (HiState, Seq<NodeId>, int)
        decreases k,
    {
        if k == 0 {
            (self, Seq::empty(), 0)
        } else {
            let (st, due, n) = self.met_all(chain, (k - 1) as nat, val, now, priority, chunked);
            let x = chain[k - 1];
            let at = chains::tokens(self.shape, chain, k - 1);
            let run = val.subrange(at, at + self.shape.units(x as int));
            let (st1, due1, n1) = st.raised(x, now, priority).met(x, run, chunked);
            (st1, due + due1, n + n1)
        }
    }

    /// The walk of an insert: the state, its result so far.
    pub open spec fn after_insert_walk(
        self,
        key: RadixKey,
        val: Seq<i64>,
        priority: i32,
        chunked: bool,
    ) -> (HiState, HiInserted) {
        let w = self.frame().walk(key);
        let now = (self.clock + 1) as u64;
        let st = HiState { names: self.frame().names_with(key), clock: now, ..self };
        let (st1, due, n) = st.met_all(w.chain, w.chain.len(), val, now, priority, chunked);
        match w.stop {
            None => (
                st1,
                HiInserted { prefix: n, node: topo::end_of(w.chain), due, splits: Seq::empty() },
            ),
            Some((c, m)) => {
                let f = self.nodes.len() as NodeId;
                let at = chains::tokens(self.shape, w.chain, w.chain.len() as int);
                let run = val.subrange(at, self.frame().prefix_len(key));
                let (st2, due2, n2) = st1.raised(c, now, priority).cut(c, m as int).met(f, run, chunked);
                (st2, HiInserted { prefix: n + n2, node: f, due: due + due2, splits: seq![(f, c)] })
            },
        }
    }

    /// The next tick of the clock.
    pub open spec fn ticked(self) -> HiState {
        HiState { clock: (self.clock + 1) as u64, ..self }
    }

    /// The state after an insert, and its result. A new leaf gets a tick of
    /// its own, after those of the walk and of a split.
    pub open spec fn after_insert(
        self,
        key: RadixKey,
        value: Seq<i64>,
        priority: i32,
        chunked: bool,
    ) -> (HiState, HiInserted) {
        let flat = self.frame().flat(key);
        if self.disable || flat.len() == 0 {
            (
                self,
                HiInserted { prefix: 0, node: ROOT, due: Seq::empty(), splits: Seq::empty() },
            )
        } else {
            let used = self.frame().walk(key).used as int;
            let val = value.take(self.frame().units(key));
            let (st, r) = self.after_insert_walk(key, val, priority, chunked);
            if used < flat.len() {
                let now = st.ticked();
                let leaf = HiNodeState {
                    value: Some(val.skip(self.frame().prefix_len(key))),
                    host: None,
                    lock: 0,
                    host_ref: 0,
                    hits: 0,
                    priority,
                    access: now.clock,
                    pending: false,
                };
                let f = st.nodes.len() as NodeId;
                let (st1, due) = now.grown(r.node, self.frame().ns_of(key), flat.skip(used), leaf).hit(
                    f,
                    chunked,
                );
                (st1, HiInserted { node: f, due: r.due + due, ..r })
            } else {
                (st, r)
            }
        }
    }

    /// The state after host runs have been put below `start`. A new leaf
    /// gets a tick of its own.
    pub open spec fn after_insert_host(self, start: NodeId, key: RadixKey, host: Seq<i64>) -> HiState {
        let flat = self.frame().flat(key);
        if self.disable || flat.len() == 0 {
            self
        } else {
            let w = self.frame().walk_at(start, key);
            let (st, visited, splits) = self.after_walk(start, w, self.frame().names_with(key));
            let p = query::end_from(start, visited);
            if w.used < flat.len() {
                let now = st.ticked();
                now.grown(
                    p,
                    self.frame().ns_of(key),
                    flat.skip(w.used as int),
                    HiNodeState {
                        value: None,
                        host: Some(
                            host.subrange(
                                w.used as int / self.shape.unit as int,
                                self.frame().units(key),
                            ),
                        ),
                        lock: 0,
                        host_ref: 0,
                        hits: 0,
                        priority: st.nodes[p as int].priority,
                        access: now.clock,
                        pending: false,
                    },
                )
            } else {
                st
            }
        }
    }

    // ---- locks ----

    /// One device lock more on the nodes `ids`.
    pub open spec fn locked(self, ids: Seq<NodeId>) -> HiState {
        HiState {
            nodes: Seq::new(
                self.nodes.len(),
                |i: int|
                    if ids.contains(i as NodeId) {
                        HiNodeState { lock: (self.nodes[i].lock + 1) as u32, ..self.nodes[i] }
                    } else {
                        self.nodes[i]
                    },
            ),
            ..self
        }
    }

    /// One device lock less on the nodes `ids`.
    pub open spec fn unlocked(self, ids: Seq<NodeId>) -> HiState {
        HiState {
            nodes: Seq::new(
                self.nodes.len(),
                |i: int|
                    if ids.contains(i as NodeId) {
                        HiNodeState { lock: (self.nodes[i].lock - 1) as u32, ..self.nodes[i] }
                    } else {
                        self.nodes[i]
                    },
            ),
            ..self
        }
    }

    /// The state after `inc_lock_ref(node)`.
    pub open spec fn after_lock(self, node: NodeId) -> HiState {
        if self.disable {
            self
        } else {
            self.locked(self.shape.up(node))
        }
    }

    /// The state after `dec_lock_ref(node)`.
    pub open spec fn after_unlock(self, node: NodeId) -> HiState {
        if self.disable {
            self
        } else {
            self.unlocked(self.shape.up(node))
        }
    }

    /// Whether `inc_lock_ref(node)` counts no lock past its range.
    pub open spec fn lockable(self, node: NodeId) -> bool {
        !self.disable ==> {
            &&& self.live(node)
            &&& forall|k: int|
                0 <= k < self.shape.up(node).len() ==> self.nodes[(#[trigger] self.shape.up(node)[k]) as int].lock
                    < u32::MAX
        }
    }

    /// Whether `dec_lock_ref(node)` finds a lock on every node.
    pub open spec fn unlockable(self, node: NodeId) -> bool {
        !self.disable ==> {
            &&& self.live(node)
            &&& forall|k: int|
                0 <= k < self.shape.up(node).len() ==> self.nodes[(#[trigger] self.shape.up(node)[k]) as int].lock
                    > 0
        }
    }

    // ---- load back ----

    /// The demoted nodes from `id` upwards, deepest first.
    pub open spec fn demoted_run(self, up: Seq<NodeId>) -> Seq<NodeId>
        decreases up.len(),
    {
        if up.len() == 0 || self.nodes[up[0] as int].value is Some {
            Seq::empty()
        } else {
            seq![up[0]] + self.demoted_run(up.drop_first())
        }
    }

    /// The chain to load for `last`, topmost first.
    pub open spec fn load_chain(self, last: NodeId) -> Seq<NodeId> {
        self.demoted_run(self.shape.up(last)).reverse()
    }

    /// The live node above the chain.
    pub open spec fn load_ancestor(self, last: NodeId) -> NodeId {
        let up = self.shape.up(last);
        let n = self.demoted_run(up).len();
        if n < up.len() {
            up[n as int]
        } else {
            ROOT
        }
    }

    /// The host runs of the nodes `ids`, one after the other.
    pub open spec fn host_gathered(self, ids: Seq<NodeId>) -> Seq<i64>
        decreases ids.len(),
    {
        if ids.len() == 0 {
            Seq::empty()
        } else {
            self.host_gathered(ids.drop_last()) + run_or_none(self.nodes[ids.last() as int].host)
        }
    }

    /// Whether a load of `last` goes ahead: something is to be loaded, it is
    /// long enough, and the quota, less what the lock on the ancestor takes
    /// off the evictable tokens, covers it.
    pub open spec fn load_goes(self, last: NodeId, quota: Option<i64>) -> bool {
        let n = self.host_gathered(self.load_chain(last)).len();
        let st = self.after_lock(self.load_ancestor(last));
        let delta = st.count(HiCounter::Evictable) - self.count(HiCounter::Evictable);
        &&& self.nodes[last as int].value is None
        &&& n >= self.load_min
        &&& match quota {
            Some(q) => n <= q + delta,
            None => true,
        }
    }

    /// `by` more host protections on the nodes `ids`, one after the other.
    pub open spec fn host_held(self, ids: Seq<NodeId>, by: int) -> HiState
        decreases ids.len(),
    {
        if ids.len() == 0 {
            self
        } else {
            let st = self.host_held(ids.drop_last(), by);
            let x = ids.last();
            st.patched(
                x,
                HiNodeState { host_ref: (st.nodes[x as int].host_ref + by) as u32, ..st.nodes[x as int] },
            )
        }
    }

    /// The state after `init_load_back`.
    pub open spec fn after_init_load(self, last: NodeId, quota: Option<i64>) -> HiState {
        if self.load_goes(last, quota) {
            self.after_lock(self.load_ancestor(last)).host_held(self.load_chain(last), 1)
        } else {
            self
        }
    }

    /// The nodes `ids` with consecutive parts of `run` as their device runs.
    pub open spec fn loaded(self, ids: Seq<NodeId>, run: Seq<i64>) -> HiState
        decreases ids.len(),
    {
        if ids.len() == 0 {
            self
        } else {
            let k = ids.len() - 1;
            let at = chains::tokens(self.shape, ids, k as int);
            let x = ids.last();
            self.loaded(ids.drop_last(), run).attached(
                x,
                run.subrange(at, at + self.shape.units(x as int)),
            )
        }
    }

    /// Whether the demoted nodes `ids` hang one below the other, the first
    /// below the live node `ancestor`.
    pub open spec fn plan_ok(self, ancestor: NodeId, ids: Seq<NodeId>) -> bool {
        &&& self.live(ancestor)
        &&& ids.len() > 0
        &&& ids.no_duplicates()
        &&& forall|k: int| 0 <= k < ids.len() ==> #[trigger] self.plan_link(ancestor, ids, k)
    }

    /// Whether the `k`th of `ids` is demoted, host-protected, and hangs below
    /// the one before it.
    pub open spec fn plan_link(self, ancestor: NodeId, ids: Seq<NodeId>, k: int) -> bool {
        &&& self.demoted(ids[k])
        &&& self.shape.nodes[ids[k] as int].parent == (if k == 0 {
            ancestor
        } else {
            ids[k - 1]
        })
        &&& self.nodes[ids[k] as int].host_ref > 0
    }

    /// The state after `finish_load_back`, or after the load was given up.
    pub open spec fn after_finish_load(self, ancestor: NodeId, ids: Seq<NodeId>, run: Option<Seq<i64>>) -> HiState {
        let st = self.after_unlock(ancestor).host_held(ids, -1);
        match run {
            None => st,
            Some(run) => st.loaded(ids, run).after_lock(ids.last()),
        }
    }

    // ---- evict ----

    /// The rank by which `id` is evicted.
    pub open spec fn item(self, id: NodeId) -> HeapItem {
        let n = self.nodes[id as int];
        self.strategy.item_of(id, n.access, n.hits, n.priority)
    }

    /// Whether `x` is the member of `ids` that is evicted first.
    pub open spec fn first(self, x: NodeId, ids: Set<NodeId>) -> bool {
        &&& ids.contains(x)
        &&& forall|y: NodeId| #[trigger] ids.contains(y) && y != x ==> self.item(x).before(self.item(y))
    }

    /// The member of `ids` that is evicted first.
    pub open spec fn victim(self, ids: Set<NodeId>) -> Option<NodeId> {
        if exists|x: NodeId| self.first(x, ids) {
            Some(choose|x: NodeId| self.first(x, ids))
        } else {
            None
        }
    }

    /// The device leaves that may be evicted.
    pub open spec fn leaves(self) -> Set<NodeId> {
        Set::new(|id: NodeId| self.leaf(id))
    }

    /// The host leaves that may be evicted.
    pub open spec fn host_leaves(self) -> Set<NodeId> {
        Set::new(|id: NodeId| self.host_leaf(id))
    }

    /// The leaf `x` evicted from the device: demoted if it is backed up,
    /// else deleted.
    pub open spec fn evict_step(self, x: NodeId) -> HiState {
        if self.nodes[x as int].host is Some {
            self.detached(x)
        } else {
            self.erased(x)
        }
    }

    /// Device leaves evicted in policy order until `budget` tokens are gone
    /// or none is left: the state and the runs.
    pub open spec fn after_evict(self, budget: int) -> (HiState, Seq<Seq<i64>>)
        decreases self.live_count(),
    {
        match self.victim(self.leaves()) {
            Some(x) => if budget > 0 && self.leaf(x) {
                proof {
                    lemma_evict_counts(self, x);
                }
                let run = self.nodes[x as int].value->0;
                let (st, runs) = self.evict_step(x).after_evict(budget - run.len());
                (st, seq![run] + runs)
            } else {
                (self, Seq::empty())
            },
            None => (self, Seq::empty()),
        }
    }

    /// Whether such an eviction never comes to a leaf that is not backed up
    /// but has host-only nodes below it.
    pub open spec fn drains(self, budget: int) -> bool
        decreases self.live_count(),
    {
        match self.victim(self.leaves()) {
            Some(x) => if budget > 0 && self.leaf(x) {
                proof {
                    lemma_evict_counts(self, x);
                }
                &&& self.nodes[x as int].host is Some || self.shape.is_leaf(x)
                &&& self.evict_step(x).drains(budget - self.nodes[x as int].value->0.len())
            } else {
                true
            },
            None => true,
        }
    }

    /// Backed-up nodes form a contiguous prefix from the root.
    pub open spec fn contiguous(self) -> bool {
        forall|i: int| 0 < i < self.nodes.len() ==> #[trigger] self.backed_below(i)
    }

    /// If node `i` is backed up, so is its parent.
    pub open spec fn backed_below(self, i: int) -> bool {
        self.nodes[i].host is Some ==> self.nodes[self.shape.nodes[i].parent as int].host is Some
    }

    /// Host leaves deleted in policy order until `budget` host tokens are
    /// gone or none is left: the state, the runs and the nodes.
    pub open spec fn after_evict_host(self, budget: int) -> (HiState, Seq<Seq<i64>>, Seq<NodeId>)
        decreases self.node_count(),
    {
        match self.victim(self.host_leaves()) {
            Some(x) => if budget > 0 && self.host_leaf(x) {
                proof {
                    lemma_erase_counts(self, x);
                }
                let run = run_or_none(self.nodes[x as int].host);
                let (st, runs, ids) = self.erased(x).after_evict_host(budget - run.len());
                (st, seq![run] + runs, seq![x] + ids)
            } else {
                (self, Seq::empty(), Seq::empty())
            },
            None => (self, Seq::empty(), Seq::empty()),
        }
    }

    // ---- subtrees ----

    /// Whether `d` lies in the subtree below `top`, `top` included.
    pub open spec fn below(self, top: NodeId, d: NodeId) -> bool {
        &&& 0 < d < self.nodes.len()
        &&& self.shape.nodes[d as int].attached
        &&& self.shape.up(d).contains(top)
    }

    /// Whether `ids` lists the subtree below `top`, each node once and after
    /// its parent.
    pub open spec fn lists_subtree(self, top: NodeId, ids: Seq<NodeId>) -> bool {
        &&& ids.no_duplicates()
        &&& forall|d: NodeId| #[trigger] ids.contains(d) <==> self.below(top, d)
        &&& forall|k: int|
            #![trigger ids[k]]
            0 < k < ids.len() ==> ids.take(k).contains(self.shape.nodes[ids[k] as int].parent)
    }

    /// The host runs of the nodes `ids` that have one.
    pub open spec fn host_runs(self, ids: Seq<NodeId>) -> Seq<Seq<i64>>
        decreases ids.len(),
    {
        if ids.len() == 0 {
            Seq::empty()
        } else {
            match self.nodes[ids.last() as int].host {
                Some(run) => self.host_runs(ids.drop_last()).push(run),
                None => self.host_runs(ids.drop_last()),
            }
        }
    }

    /// The device runs of the nodes `ids` that have one.
    pub open spec fn device_runs(self, ids: Seq<NodeId>) -> Seq<Seq<i64>>
        decreases ids.len(),
    {
        if ids.len() == 0 {
            Seq::empty()
        } else {
            match self.nodes[ids.last() as int].value {
                Some(run) => self.device_runs(ids.drop_last()).push(run),
                None => self.device_runs(ids.drop_last()),
            }
        }
    }

    /// The nodes `gone` deleted.
    pub open spec fn without(self, gone: Seq<NodeId>) -> HiState {
        HiState {
            shape: Shape {
                nodes: Seq::new(
                    self.nodes.len(),
                    |i: int|
                        if gone.contains(i as NodeId) {
                            topo::Spot { attached: false, ..self.shape.nodes[i] }
                        } else {
                            self.shape.nodes[i]
                        },
                ),
                ..self.shape
            },
            nodes: Seq::new(
                self.nodes.len(),
                |i: int|
                    if gone.contains(i as NodeId) {
                        HiNodeState { value: None, host: None, pending: false, ..self.nodes[i] }
                    } else {
                        self.nodes[i]
                    },
            ),
            ..self
        }
    }

    /// The subtree below `top` deleted.
    pub open spec fn after_drop(self, top: NodeId) -> HiState {
        HiState {
            shape: Shape {
                nodes: Seq::new(
                    self.nodes.len(),
                    |i: int|
                        if self.below(top, i as NodeId) {
                            topo::Spot { attached: false, ..self.shape.nodes[i] }
                        } else {
                            self.shape.nodes[i]
                        },
                ),
                ..self.shape
            },
            nodes: Seq::new(
                self.nodes.len(),
                |i: int|
                    if self.below(top, i as NodeId) {
                        HiNodeState { value: None, host: None, pending: false, ..self.nodes[i] }
                    } else {
                        self.nodes[i]
                    },
            ),
            ..self
        }
    }

    /// Whether nothing protects a host copy in the subtree below `top`.
    pub open spec fn droppable(self, top: NodeId) -> bool {
        forall|d: NodeId| #[trigger] self.below(top, d) ==> self.nodes[d as int].host_ref == 0
    }
}

/// What a match returns.
#[verifier::ext_equal]
pub struct HiMatched {
    pub indices: Seq<i64>,
    pub device_node: NodeId,
    pub host_node: NodeId,
    pub host_len: int,
    pub splits: Seq<(NodeId, NodeId)>,
}

/// What an insert returns.
#[verifier::ext_equal]
pub struct HiInserted {
    pub prefix: int,
    pub node: NodeId,
    pub due: Seq<NodeId>,
    pub splits: Seq<(NodeId, NodeId)>,
}

/// The eviction of a leaf takes one device run.
pub proof fn lemma_evict_counts(st: HiState, x: NodeId)
    requires
        st.leaf(x),
    ensures
        st.evict_step(x).live_count() == st.live_count() - 1,
        st.evict_step(x).live_count() >= 0,
{
    let t = st.evict_step(x);
    let f = |i: int| if st.nodes[i].value is Some { 1 } else { 0 };
    let g = |i: int| if t.nodes[i].value is Some { 1 } else { 0 };
    seqs::lemma_total_update(f, g, st.nodes.len(), x as int);
    seqs::lemma_total_bounds(g, st.nodes.len());
}

/// A deleted node counts no more.
pub proof fn lemma_erase_counts(st: HiState, x: NodeId)
    requires
        st.shape.has(x),
        st.shape.nodes[x as int].attached,
    ensures
        st.erased(x).node_count() == st.node_count() - 1,
        st.erased(x).node_count() >= 0,
{
    let t = st.erased(x);
    let f = |i: int| if st.shape.nodes[i].attached { 1 } else { 0 };
    let g = |i: int| if t.shape.nodes[i].attached { 1 } else { 0 };
    seqs::lemma_total_update(f, g, st.shape.nodes.len(), x as int);
    seqs::lemma_total_bounds(g, st.shape.nodes.len());
}

/// The counters of a state are sums of what nodes hold, and fit.
pub proof fn law_sizes_add_up(st: HiState)
    requires
        st.wf(),
    ensures
        forall|c: HiCounter| 0 <= #[trigger] st.count(c) <= i64::MAX,
        forall|c: HiCounter| #[trigger] st.count(c) <= usize::MAX,
        st.size() == seqs::total(|i: int| st.held(i), st.nodes.len()),
        forall|i: int| 0 <= i < st.nodes.len() ==> 0 <= #[trigger] st.held(i) <= st.size(),
        forall|c: HiCounter, i: int| 0 <= i < st.nodes.len() ==> 0 <= #[trigger] st.weight(c, i) <= st.count(c),
{
    let n = st.nodes.len();
    assert forall|i: int, c: HiCounter| 0 <= i < n implies st.held(i) >= 0 && #[trigger] st.weight(c, i) >= 0 by {
        if i > 0 {
            chains::lemma_units(st.shape, i);
        }
    }
    assert forall|c: HiCounter| #[trigger] st.count(c) >= 0 by {
        let f = |i: int| st.weight(c, i);
        seqs::lemma_total_bounds(f, n);
    }
    assert forall|c: HiCounter, i: int| 0 <= i < n implies 0 <= #[trigger] st.weight(c, i) <= st.count(c) by {
        let f = |i: int| st.weight(c, i);
        seqs::lemma_total_bounds(f, n);
        assert(f(i) <= seqs::total(f, n));
    }
    seqs::lemma_total_add(
        |i: int| st.weight(HiCounter::Evictable, i),
        |i: int| st.weight(HiCounter::Protected, i),
        |i: int| st.held(i),
        n,
    );
    let h = |i: int| st.held(i);
    assert forall|i: int| 0 <= i < n implies #[trigger] h(i) >= 0 by {
        assert(st.weight(HiCounter::Host, i) >= 0);
    }
    seqs::lemma_total_bounds(h, n);
    assert forall|i: int| 0 <= i < n implies 0 <= #[trigger] st.held(i) <= st.size() by {
        assert(h(i) <= seqs::total(h, n));
    }
    assert(st.count(HiCounter::Evictable) >= 0);
    assert(st.count(HiCounter::Protected) >= 0);
    assert forall|c: HiCounter| #[trigger] st.count(c) <= i64::MAX && st.count(c) <= usize::MAX by {
        match c {
            HiCounter::Evictable => {},
            HiCounter::Protected => {},
            HiCounter::Host => {},
        }
    }
}

/// Counters rest on the weights of the nodes alone.
pub proof fn lemma_counts_same(a: HiState, b: HiState)
    requires
        a.nodes.len() == b.nodes.len(),
        forall|c: HiCounter, i: int|
            0 <= i < a.nodes.len() ==> #[trigger] b.weight(c, i) == a.weight(c, i),
    ensures
        forall|c: HiCounter| #[trigger] b.count(c) == a.count(c),
        b.size() == a.size(),
        b.host_size() == a.host_size(),
{
    assert forall|c: HiCounter| #[trigger] b.count(c) == a.count(c) by {
        seqs::lemma_total_same(|i: int| b.weight(c, i), |i: int| a.weight(c, i), a.nodes.len());
    }
}

/// A change of one node changes each counter by that node's weight.
pub proof fn lemma_counts_update(a: HiState, b: HiState, x: int)
    requires
        a.nodes.len() == b.nodes.len(),
        0 <= x < a.nodes.len(),
        forall|c: HiCounter, i: int|
            0 <= i < a.nodes.len() && i != x ==> #[trigger] b.weight(c, i) == a.weight(c, i),
    ensures
        forall|c: HiCounter| #[trigger] b.count(c) == a.count(c) - a.weight(c, x) + b.weight(c, x),
{
    assert forall|c: HiCounter| #[trigger] b.count(c) == a.count(c) - a.weight(c, x) + b.weight(c, x) by {
        seqs::lemma_total_update(|i: int| a.weight(c, i), |i: int| b.weight(c, i), a.nodes.len(), x);
    }
}

/// One more node changes each counter by its weight.
pub proof fn lemma_counts_push(a: HiState, b: HiState)
    requires
        b.nodes.len() == a.nodes.len() + 1,
        forall|c: HiCounter, i: int|
            0 <= i < a.nodes.len() ==> #[trigger] b.weight(c, i) == a.weight(c, i),
    ensures
        forall|c: HiCounter| #[trigger] b.count(c) == a.count(c) + b.weight(c, a.nodes.len() as int),
{
    assert forall|c: HiCounter| #[trigger] b.count(c) == a.count(c) + b.weight(c, a.nodes.len() as int) by {
        seqs::lemma_total_same(|i: int| a.weight(c, i), |i: int| b.weight(c, i), a.nodes.len());
    }
}

/// Two states whose nodes hold the same runs under the same locks.
pub open spec fn same_runs(a: HiState, b: HiState) -> bool {
    &&& b.shape == a.shape
    &&& b.nodes.len() == a.nodes.len()
    &&& b.is_eagle == a.is_eagle
    &&& forall|i: int|
        0 <= i < a.nodes.len() ==> {
            &&& (#[trigger] b.nodes[i]).value == a.nodes[i].value
            &&& b.nodes[i].host == a.nodes[i].host
            &&& b.nodes[i].lock == a.nodes[i].lock
        }
}

/// Two states whose nodes hold the same runs under the same locks of both
/// tiers.
pub open spec fn same_holdings(a: HiState, b: HiState) -> bool {
    &&& same_runs(a, b)
    &&& forall|i: int| 0 <= i < a.nodes.len() ==> (#[trigger] b.nodes[i]).host_ref == a.nodes[i].host_ref
}

/// Such states agree on counters and leaves.
pub proof fn lemma_same_holdings(a: HiState, b: HiState)
    requires
        a.wf(),
        same_holdings(a, b),
        b.names.no_duplicates(),
        a.names.len() <= b.names.len(),
        forall|i: int| 0 <= i < b.nodes.len() ==> (#[trigger] b.nodes[i]).hits <= b.clock,
    ensures
        b.wf(),
        forall|c: HiCounter| #[trigger] b.count(c) == a.count(c),
        b.size() == a.size(),
        b.host_size() == a.host_size(),
        forall|id: NodeId| #[trigger] b.leaf(id) == a.leaf(id),
        forall|id: NodeId| #[trigger] b.host_leaf(id) == a.host_leaf(id),
{
    lemma_same_runs(a, b);
    assert forall|id: NodeId| #[trigger] b.host_leaf(id) == a.host_leaf(id) by {
        assert(b.no_host_child(id) == a.no_host_child(id));
        if id < a.nodes.len() {
            assert(b.nodes[id as int].value == a.nodes[id as int].value);
            assert(b.nodes[id as int].host_ref == a.nodes[id as int].host_ref);
        }
    }
}

/// States that hold the same runs under the same device locks agree on
/// counters, device leaves and backed-up children.
pub proof fn lemma_same_runs(a: HiState, b: HiState)
    requires
        a.wf(),
        same_runs(a, b),
        b.names.no_duplicates(),
        a.names.len() <= b.names.len(),
        forall|i: int| 0 <= i < b.nodes.len() ==> (#[trigger] b.nodes[i]).hits <= b.clock,
    ensures
        b.wf(),
        forall|c: HiCounter| #[trigger] b.count(c) == a.count(c),
        b.size() == a.size(),
        b.host_size() == a.host_size(),
        forall|id: NodeId| #[trigger] b.leaf(id) == a.leaf(id),
        forall|id: NodeId| #[trigger] b.no_host_child(id) == a.no_host_child(id),
{
    assert forall|c: HiCounter, i: int| 0 <= i < a.nodes.len() implies #[trigger] b.weight(c, i) == a.weight(c, i) by {
        assert(b.nodes[i].value == a.nodes[i].value);
    }
    lemma_counts_same(a, b);
    assert forall|i: int| 0 < i < b.nodes.len() implies #[trigger] b.node_ok(i) by {
        assert(a.node_ok(i));
        assert(a.shape.hangs(i));
        assert(b.nodes[i].value == a.nodes[i].value);
        assert(b.nodes[a.shape.nodes[i].parent as int].value == a.nodes[a.shape.nodes[i].parent as int].value);
    }
    assert(b.nodes[0].value == a.nodes[0].value);
    assert forall|id: NodeId| #[trigger] b.leaf(id) == a.leaf(id) by {
        if id < a.nodes.len() {
            assert(b.nodes[id as int].value == a.nodes[id as int].value);
        }
        assert(b.no_live_child(id) == a.no_live_child(id)) by {
            assert forall|c: NodeId| a.shape.is_child(id, c) implies b.nodes[c as int].value == a.nodes[c as int].value by {
            }
            if a.no_live_child(id) {
                assert forall|c: NodeId| #[trigger] b.shape.is_child(id, c) implies b.nodes[c as int].value is None by {
                    assert(a.shape.is_child(id, c));
                    assert(b.nodes[c as int].value == a.nodes[c as int].value);
                }
            }
            if b.no_live_child(id) {
                assert forall|c: NodeId| #[trigger] a.shape.is_child(id, c) implies a.nodes[c as int].value is None by {
                    assert(b.shape.is_child(id, c));
                    assert(b.nodes[c as int].value == a.nodes[c as int].value);
                }
            }
        }
    }
    assert forall|id: NodeId| #[trigger] b.no_host_child(id) == a.no_host_child(id) by {
        if a.no_host_child(id) {
            assert forall|c: NodeId| #[trigger] b.shape.is_child(id, c) implies b.nodes[c as int].host is None by {
                assert(a.shape.is_child(id, c));
                assert(b.nodes[c as int].host == a.nodes[c as int].host);
            }
        }
        if b.no_host_child(id) {
            assert forall|c: NodeId| #[trigger] a.shape.is_child(id, c) implies a.nodes[c as int].host is None by {
                assert(b.shape.is_child(id, c));
                assert(b.nodes[c as int].host == a.nodes[c as int].host);
            }
        }
    }
}

/// The host references of a node decide of no leaf but its own host leaf.
pub proof fn lemma_host_ref(st: HiState, x: NodeId, host_ref: u32)
    requires
        st.wf(),
        x < st.nodes.len(),
    ensures
        ({
            let t = st.patched(x, HiNodeState { host_ref, ..st.nodes[x as int] });
            &&& t.wf()
            &&& forall|c: HiCounter| #[trigger] t.count(c) == st.count(c)
            &&& t.size() == st.size()
            &&& forall|id: NodeId| #[trigger] t.leaf(id) == st.leaf(id)
            &&& forall|id: NodeId| id != x ==> #[trigger] t.host_leaf(id) == st.host_leaf(id)
        }),
{
    let t = st.patched(x, HiNodeState { host_ref, ..st.nodes[x as int] });
    lemma_same_runs(st, t);
    assert forall|id: NodeId| id != x implies #[trigger] t.host_leaf(id) == st.host_leaf(id) by {
        assert(t.no_host_child(id) == st.no_host_child(id));
    }
}

/// A change of node `x` alone, in place, leaves every other node but its
/// parent the leaf it was.
proof fn lemma_patch_leaves(a: HiState, b: HiState, x: NodeId)
    requires
        a.wf(),
        0 < x < a.nodes.len(),
        b.shape == a.shape,
        b.nodes.len() == a.nodes.len(),
        forall|i: int| 0 <= i < a.nodes.len() && i != x ==> (#[trigger] b.nodes[i]) == a.nodes[i],
    ensures
        forall|id: NodeId|
            id != x && id != a.shape.nodes[x as int].parent ==> #[trigger] b.leaf(id) == a.leaf(id),
        forall|id: NodeId|
            id != x && id != a.shape.nodes[x as int].parent ==> #[trigger] b.host_leaf(id) == a.host_leaf(id),
        (b.nodes[x as int].value is Some) == (a.nodes[x as int].value is Some) ==> forall|id: NodeId|
            id != x ==> #[trigger] b.leaf(id) == a.leaf(id),
        (b.nodes[x as int].host is Some) == (a.nodes[x as int].host is Some) ==> forall|id: NodeId|
            id != x ==> #[trigger] b.host_leaf(id) == a.host_leaf(id),
        b.no_live_child(x) == a.no_live_child(x),
        b.no_host_child(x) == a.no_host_child(x),
{
    let p = a.shape.nodes[x as int].parent;
    let same_value = (b.nodes[x as int].value is Some) == (a.nodes[x as int].value is Some);
    let same_host = (b.nodes[x as int].host is Some) == (a.nodes[x as int].host is Some);
    topo::lemma_path_grows(a.shape, x);
    assert forall|id: NodeId| (id != p || same_value) implies b.no_live_child(id) == a.no_live_child(id) by {
        if a.no_live_child(id) {
            assert forall|c: NodeId| #[trigger] b.shape.is_child(id, c) implies b.nodes[c as int].value is None by {
                assert(a.shape.is_child(id, c));
            }
        }
        if b.no_live_child(id) {
            assert forall|c: NodeId| #[trigger] a.shape.is_child(id, c) implies a.nodes[c as int].value is None by {
                assert(b.shape.is_child(id, c));
            }
        }
    }
    assert forall|id: NodeId| (id != p || same_host) implies b.no_host_child(id) == a.no_host_child(id) by {
        if a.no_host_child(id) {
            assert forall|c: NodeId| #[trigger] b.shape.is_child(id, c) implies b.nodes[c as int].host is None by {
                assert(a.shape.is_child(id, c));
            }
        }
        if b.no_host_child(id) {
            assert forall|c: NodeId| #[trigger] a.shape.is_child(id, c) implies a.nodes[c as int].host is None by {
                assert(b.shape.is_child(id, c));
            }
        }
    }
}

/// A live node's locks move its tokens between the counters.
pub proof fn lemma_lock(st: HiState, x: NodeId, lock: u32)
    requires
        st.wf(),
        0 < x,
        st.live(x),
    ensures
        ({
            let t = st.patched(x, HiNodeState { lock, ..st.nodes[x as int] });
            &&& t.wf()
            &&& forall|c: HiCounter|
                #[trigger] t.count(c) == st.count(c) - st.weight(c, x as int) + t.weight(c, x as int)
            &&& t.size() == st.size()
            &&& forall|id: NodeId| id != x ==> #[trigger] t.leaf(id) == st.leaf(id)
            &&& t.leaf(x) == (lock == 0 && st.no_live_child(x))
            &&& forall|id: NodeId| #[trigger] t.host_leaf(id) == st.host_leaf(id)
        }),
{
    let t = st.patched(x, HiNodeState { lock, ..st.nodes[x as int] });
    lemma_counts_update(st, t, x as int);
    lemma_patch_leaves(st, t, x);
    assert forall|i: int| 0 < i < t.nodes.len() implies #[trigger] t.node_ok(i) by {
        assert(st.node_ok(i));
        assert(st.shape.hangs(i));
    }
    assert forall|id: NodeId| #[trigger] t.host_leaf(id) == st.host_leaf(id) by {
        if id == x {
            assert(!st.demoted(x) && !t.demoted(x));
        }
    }
    assert(t.count(HiCounter::Host) == st.count(HiCounter::Host));
    assert(t.count(HiCounter::Evictable) + t.count(HiCounter::Protected) == st.size());
}

/// A demoted node below a live one may take a device run; it is a leaf then.
pub proof fn lemma_attached(st: HiState, x: NodeId, run: Seq<i64>)
    requires
        st.wf(),
        st.demoted(x),
        st.nodes[st.shape.nodes[x as int].parent as int].value is Some,
        run.len() == st.shape.units(x as int),
        st.size() + run.len() <= i64::MAX,
        st.size() + run.len() <= usize::MAX,
    ensures
        ({
            let t = st.attached(x, run);
            let p = st.shape.nodes[x as int].parent;
            &&& t.wf()
            &&& t.count(HiCounter::Evictable) == st.count(HiCounter::Evictable) + run.len()
            &&& t.count(HiCounter::Protected) == st.count(HiCounter::Protected)
            &&& t.count(HiCounter::Host) == st.count(HiCounter::Host)
            &&& t.leaf(x)
            &&& !t.leaf(p)
            &&& forall|id: NodeId| id != x && id != p ==> #[trigger] t.leaf(id) == st.leaf(id)
            &&& !t.host_leaf(x)
            &&& forall|id: NodeId| id != x ==> #[trigger] t.host_leaf(id) == st.host_leaf(id)
        }),
{
    let t = st.attached(x, run);
    let p = st.shape.nodes[x as int].parent;
    topo::lemma_path_grows(st.shape, x);
    assert(st.node_ok(x as int));
    lemma_counts_update(st, t, x as int);
    lemma_patch_leaves(st, t, x);
    assert forall|i: int| 0 < i < t.nodes.len() implies #[trigger] t.node_ok(i) by {
        assert(st.node_ok(i));
        assert(st.shape.hangs(i));
    }
    assert(st.no_live_child(x)) by {
        assert forall|c: NodeId| #[trigger] st.shape.is_child(x, c) implies st.nodes[c as int].value is None by {
            assert(st.node_ok(c as int));
        }
    }
    assert(t.shape.is_child(p, x));
}

/// An evictable leaf that is backed up may lose its device run.
pub proof fn lemma_detached(st: HiState, x: NodeId)
    requires
        st.wf(),
        st.leaf(x),
        st.nodes[x as int].host is Some,
    ensures
        ({
            let t = st.detached(x);
            let p = st.shape.nodes[x as int].parent;
            let n = st.nodes[x as int].value->0.len();
            &&& t.wf()
            &&& t.count(HiCounter::Evictable) == st.count(HiCounter::Evictable) - n
            &&& t.count(HiCounter::Protected) == st.count(HiCounter::Protected)
            &&& t.count(HiCounter::Host) == st.count(HiCounter::Host)
            &&& n == st.shape.units(x as int)
            &&& n > 0
            &&& !t.leaf(x)
            &&& forall|id: NodeId| id != x && id != p ==> #[trigger] t.leaf(id) == st.leaf(id)
            &&& forall|id: NodeId| id != x ==> #[trigger] t.host_leaf(id) == st.host_leaf(id)
        }),
{
    let t = st.detached(x);
    topo::lemma_path_grows(st.shape, x);
    assert(st.node_ok(x as int));
    chains::lemma_units(st.shape, x as int);
    law_sizes_add_up(st);
    lemma_counts_update(st, t, x as int);
    lemma_patch_leaves(st, t, x);
    assert forall|i: int| 0 < i < t.nodes.len() implies #[trigger] t.node_ok(i) by {
        assert(st.node_ok(i));
        assert(st.shape.hangs(i));
        if st.shape.nodes[i].parent == x && st.nodes[i].value is Some {
            assert(st.shape.is_child(x, i as NodeId));
        }
    }
}

/// A childless node may be deleted from the tree.
pub proof fn lemma_erased(st: HiState, x: NodeId)
    requires
        st.wf(),
        0 < x < st.nodes.len(),
        st.shape.nodes[x as int].attached,
        st.shape.is_leaf(x),
    ensures
        ({
            let t = st.erased(x);
            let p = st.shape.nodes[x as int].parent;
            &&& t.wf()
            &&& forall|c: HiCounter| #[trigger] t.count(c) == st.count(c) - st.weight(c, x as int)
            &&& forall|c: HiCounter| 0 <= #[trigger] st.weight(c, x as int) <= st.count(c)
            &&& !t.leaf(x)
            &&& !t.host_leaf(x)
            &&& forall|id: NodeId| id != x && id != p ==> #[trigger] t.leaf(id) == st.leaf(id)
            &&& forall|id: NodeId| id != x && id != p ==> #[trigger] t.host_leaf(id) == st.host_leaf(id)
        }),
{
    let t = st.erased(x);
    let p = st.shape.nodes[x as int].parent;
    topo::lemma_path_grows(st.shape, x);
    topo::lemma_prune_wf(st.shape, x);
    assert(st.node_ok(x as int));
    law_sizes_add_up(st);
    assert forall|c: HiCounter, i: int| 0 <= i < st.nodes.len() && i != x implies #[trigger] t.weight(c, i) == st.weight(c, i) by {
        assert(t.shape.nodes[i] == st.shape.nodes[i]);
    }
    lemma_counts_update(st, t, x as int);
    assert(forall|c: HiCounter| t.weight(c, x as int) == 0);
    assert forall|i: int| 0 < i < t.nodes.len() implies #[trigger] t.node_ok(i) by {
        assert(st.node_ok(i));
        assert(st.shape.hangs(i));
        if st.shape.nodes[i].attached {
            assert(st.shape.is_child(st.shape.nodes[i].parent, i as NodeId));
        }
    }
    assert forall|id: NodeId| id != x && id != p implies t.no_live_child(id) == st.no_live_child(id)
        && t.no_host_child(id) == st.no_host_child(id) by {
        assert forall|c: NodeId| t.shape.is_child(id, c) == st.shape.is_child(id, c) by {
        }
        if st.no_live_child(id) {
            assert forall|c: NodeId| #[trigger] t.shape.is_child(id, c) implies t.nodes[c as int].value is None by {
                assert(st.shape.is_child(id, c));
            }
        }
        if t.no_live_child(id) {
            assert forall|c: NodeId| #[trigger] st.shape.is_child(id, c) implies st.nodes[c as int].value is None by {
                assert(t.shape.is_child(id, c));
            }
        }
        if st.no_host_child(id) {
            assert forall|c: NodeId| #[trigger] t.shape.is_child(id, c) implies t.nodes[c as int].host is None by {
                assert(st.shape.is_child(id, c));
            }
        }
        if t.no_host_child(id) {
            assert forall|c: NodeId| #[trigger] st.shape.is_child(id, c) implies st.nodes[c as int].host is None by {
                assert(t.shape.is_child(id, c));
            }
        }
    }
    assert(t.count(HiCounter::Evictable) <= st.count(HiCounter::Evictable));
    assert(t.count(HiCounter::Protected) <= st.count(HiCounter::Protected));
    assert(t.count(HiCounter::Host) <= st.count(HiCounter::Host));
}

/// A live node may take a host copy.
pub proof fn lemma_hosted(st: HiState, x: NodeId, host: Seq<i64>)
    requires
        st.wf(),
        0 < x,
        st.live(x),
        host.len() == st.shape.units(x as int),
        st.host_size() + host.len() <= i64::MAX,
        st.host_size() + host.len() <= usize::MAX,
    ensures
        ({
            let t = st.patched(x, HiNodeState { host: Some(host), ..st.nodes[x as int] });
            &&& t.wf()
            &&& t.count(HiCounter::Evictable) == st.count(HiCounter::Evictable)
            &&& t.count(HiCounter::Protected) == st.count(HiCounter::Protected)
            &&& forall|id: NodeId| #[trigger] t.leaf(id) == st.leaf(id)
            &&& forall|id: NodeId| #[trigger] t.host_leaf(id) == st.host_leaf(id)
        }),
{
    let t = st.patched(x, HiNodeState { host: Some(host), ..st.nodes[x as int] });
    let p = st.shape.nodes[x as int].parent;
    topo::lemma_path_grows(st.shape, x);
    chains::lemma_units(st.shape, x as int);
    assert(st.node_ok(x as int));
    lemma_counts_update(st, t, x as int);
    lemma_patch_leaves(st, t, x);
    assert(t.count(HiCounter::Host) <= st.host_size() + host.len());
    assert forall|i: int| 0 < i < t.nodes.len() implies #[trigger] t.node_ok(i) by {
        assert(st.node_ok(i));
        assert(st.shape.hangs(i));
    }
    assert forall|id: NodeId| #[trigger] t.leaf(id) == st.leaf(id) by {
    }
    assert forall|id: NodeId| #[trigger] t.host_leaf(id) == st.host_leaf(id) by {
        if id == p || id == x {
            assert(!st.demoted(id) && !t.demoted(id));
        }
    }
}

/// A cut moves no token between the counters and makes no leaf.
pub proof fn lemma_cut(st: HiState, c: NodeId, m: int)
    requires
        st.wf(),
        0 < c < st.nodes.len() < NodeId::MAX,
        st.shape.nodes[c as int].attached,
        0 < m < st.shape.nodes[c as int].key.len(),
        st.shape.aligned(m),
        st.clock < u64::MAX,
    ensures
        ({
            let t = st.cut(c, m);
            let u = m / st.shape.unit as int;
            &&& t.wf()
            &&& forall|k: HiCounter| #[trigger] t.count(k) == st.count(k)
            &&& t.size() == st.size()
            &&& forall|id: NodeId| #[trigger] t.leaf(id) == st.leaf(id)
            &&& forall|id: NodeId| #[trigger] t.host_leaf(id) == st.host_leaf(id)
            &&& 0 < u <= st.shape.units(c as int)
            &&& u * st.shape.unit == m
            &&& t.shape.units(st.nodes.len() as int) == u
        }),
{
    let t = st.cut(c, m);
    let n = st.nodes.len();
    let f = n as NodeId;
    let unit = st.shape.unit as int;
    let len = st.shape.nodes[c as int].key.len() as int;
    assert(st.node_ok(c as int));
    topo::lemma_split_wf(st.shape, c, m);
    topo::lemma_path_grows(st.shape, c);
    topo::lemma_aligned(st.shape, len, m);
    vstd::arithmetic::div_mod::lemma_small_mod(0, st.shape.chunk());
    topo::lemma_aligned(st.shape, m, 0);
    chains::lemma_units(st.shape, c as int);
    tree_model::lemma_halves(len, m, unit);
    assert(t.shape.units(c as int) == (len - m) / unit);
    assert(t.shape.units(n as int) == m / unit);
    let mid = HiState {
        shape: Shape { nodes: t.shape.nodes.drop_last(), ..t.shape },
        nodes: t.nodes.drop_last(),
        ..t
    };
    assert forall|k: HiCounter, i: int| 0 <= i < n && i != c implies #[trigger] mid.weight(k, i) == st.weight(k, i) by {
        assert(mid.shape.nodes[i].key == st.shape.nodes[i].key);
    }
    lemma_counts_update(st, mid, c as int);
    assert forall|k: HiCounter, i: int| 0 <= i < n implies #[trigger] t.weight(k, i) == mid.weight(k, i) by {
        assert(t.shape.nodes[i] == mid.shape.nodes[i]);
        assert(t.nodes[i] == mid.nodes[i]);
    }
    lemma_counts_push(mid, t);
    assert forall|k: HiCounter| #[trigger] t.count(k) == st.count(k) by {
        assert(mid.count(k) == st.count(k) - st.weight(k, c as int) + mid.weight(k, c as int));
        assert(t.count(k) == mid.count(k) + t.weight(k, n as int));
        assert(mid.shape.units(c as int) == (len - m) / unit);
    }
    assert forall|i: int| 0 < i < t.nodes.len() implies #[trigger] t.node_ok(i) by {
        if i < n {
            assert(st.node_ok(i));
            assert(st.shape.hangs(i));
        }
    }
    assert forall|i: int| 0 <= i < t.nodes.len() implies (#[trigger] t.nodes[i]).hits <= t.clock by {
        assert(st.nodes[c as int].hits <= st.clock);
        if i < n && i != c {
            assert(t.nodes[i] == st.nodes[i]);
        }
    }
    lemma_cut_leaves(st, c, m);
}

/// A cut makes no leaf.
proof fn lemma_cut_leaves(st: HiState, c: NodeId, m: int)
    requires
        st.wf(),
        0 < c < st.nodes.len() < NodeId::MAX,
        st.shape.nodes[c as int].attached,
    ensures
        forall|id: NodeId| #[trigger] st.cut(c, m).leaf(id) == st.leaf(id),
        forall|id: NodeId| #[trigger] st.cut(c, m).host_leaf(id) == st.host_leaf(id),
{
    let t = st.cut(c, m);
    let n = st.nodes.len();
    let f = n as NodeId;
    let p = st.shape.nodes[c as int].parent;
    topo::lemma_path_grows(st.shape, c);
    assert(st.node_ok(c as int));
    assert(t.shape.is_child(f, c));
    assert(t.shape.is_child(p, f));
    assert forall|id: NodeId| id < n implies t.no_live_child(id) == st.no_live_child(id)
        && t.no_host_child(id) == st.no_host_child(id) by {
        assert forall|d: NodeId| t.shape.is_child(id, d) && d != f implies st.shape.is_child(id, d) && d != c by {
            if d != c {
                assert(st.shape.hangs(d as int));
            }
        }
        if st.no_live_child(id) {
            assert forall|d: NodeId| #[trigger] t.shape.is_child(id, d) implies t.nodes[d as int].value is None by {
                assert(st.shape.is_child(id, if d == f { c } else { d }));
            }
        }
        if t.no_live_child(id) {
            assert forall|d: NodeId| #[trigger] st.shape.is_child(id, d) implies st.nodes[d as int].value is None by {
                assert(t.shape.is_child(id, if d == c { f } else { d }));
            }
        }
        if st.no_host_child(id) {
            assert forall|d: NodeId| #[trigger] t.shape.is_child(id, d) implies t.nodes[d as int].host is None by {
                assert(st.shape.is_child(id, if d == f { c } else { d }));
            }
        }
        if t.no_host_child(id) {
            assert forall|d: NodeId| #[trigger] st.shape.is_child(id, d) implies st.nodes[d as int].host is None by {
                assert(t.shape.is_child(id, if d == c { f } else { d }));
            }
        }
    }
    assert forall|id: NodeId| #[trigger] t.leaf(id) == st.leaf(id) by {
        if id == f && t.leaf(f) {
            assert(t.nodes[c as int].value is None);
        }
    }
    assert forall|id: NodeId| #[trigger] t.host_leaf(id) == st.host_leaf(id) by {
        if id == f && t.host_leaf(f) {
            assert(t.nodes[c as int].host is None);
        }
    }
}

/// A new leaf adds its tokens to the tiers that it holds a run in.
pub proof fn lemma_grown(st: HiState, p: NodeId, ns: u32, key: Seq<i64>, n: HiNodeState)
    requires
        st.wf(),
        st.shape.has(p),
        st.shape.nodes[p as int].attached,
        st.nodes.len() < NodeId::MAX,
        key.len() > 0,
        st.shape.aligned(key.len() as int),
        n.value is Some || n.host is Some,
        n.value is Some ==> n.value->0.len() == key.len() as int / st.shape.unit as int && st.nodes[p as int].value
            is Some && st.size() + n.value->0.len() <= i64::MAX && st.size() + n.value->0.len() <= usize::MAX,
        n.host is Some ==> n.host->0.len() == key.len() as int / st.shape.unit as int && st.host_size()
            + n.host->0.len() <= i64::MAX && st.host_size() + n.host->0.len() <= usize::MAX,
        n.lock == 0,
        n.hits <= st.clock,
        p != ROOT ==> st.shape.nodes[p as int].ns == ns,
        ns < st.names.len(),
        st.shape.child_of(p, ns, key.take(st.shape.chunk() as int)) is None,
    ensures
        ({
            let t = st.grown(p, ns, key, n);
            let f = st.nodes.len() as NodeId;
            &&& t.wf()
            &&& forall|c: HiCounter| #[trigger] t.count(c) == st.count(c) + t.weight(c, f as int)
            &&& t.shape.units(f as int) == key.len() as int / st.shape.unit as int
            &&& t.leaf(f) == (n.value is Some)
            &&& t.host_leaf(f) == (n.value is None && n.host_ref == 0)
            &&& forall|id: NodeId| id != p && id != f ==> #[trigger] t.leaf(id) == st.leaf(id)
            &&& forall|id: NodeId| id != p && id != f ==> #[trigger] t.host_leaf(id) == st.host_leaf(id)
        }),
{
    let t = st.grown(p, ns, key, n);
    let len = st.nodes.len();
    let f = len as NodeId;
    topo::lemma_graft_wf(st.shape, p, ns, key);
    assert forall|k: HiCounter, i: int| 0 <= i < len implies #[trigger] t.weight(k, i) == st.weight(k, i) by {
        assert(t.shape.nodes[i] == st.shape.nodes[i]);
        assert(t.nodes[i] == st.nodes[i]);
    }
    lemma_counts_push(st, t);
    chains::lemma_units(t.shape, f as int);
    assert(t.count(HiCounter::Evictable) == st.count(HiCounter::Evictable) + t.weight(HiCounter::Evictable, f as int));
    assert(t.count(HiCounter::Protected) == st.count(HiCounter::Protected) + t.weight(HiCounter::Protected, f as int));
    assert(t.count(HiCounter::Host) == st.count(HiCounter::Host) + t.weight(HiCounter::Host, f as int));
    assert forall|i: int| 0 < i < t.nodes.len() implies #[trigger] t.node_ok(i) by {
        if i < len {
            assert(st.node_ok(i));
            assert(st.shape.hangs(i));
        }
    }
    assert forall|i: int| 0 <= i < t.nodes.len() implies (#[trigger] t.nodes[i]).hits <= t.clock by {
        if i < len {
            assert(t.nodes[i] == st.nodes[i]);
        }
    }
    assert forall|d: NodeId| !t.shape.is_child(f, d) by {
        if t.shape.is_child(f, d) && d != f {
            assert(st.shape.hangs(d as int));
        }
    }
    assert forall|id: NodeId| id != p && id != f implies t.no_live_child(id) == st.no_live_child(id)
        && t.no_host_child(id) == st.no_host_child(id) by {
        if st.no_live_child(id) {
            assert forall|d: NodeId| #[trigger] t.shape.is_child(id, d) implies t.nodes[d as int].value is None by {
                assert(st.shape.is_child(id, d));
            }
        }
        if t.no_live_child(id) {
            assert forall|d: NodeId| #[trigger] st.shape.is_child(id, d) implies st.nodes[d as int].value is None by {
                assert(t.shape.is_child(id, d));
            }
        }
        if st.no_host_child(id) {
            assert forall|d: NodeId| #[trigger] t.shape.is_child(id, d) implies t.nodes[d as int].host is None by {
                assert(st.shape.is_child(id, d));
            }
        }
        if t.no_host_child(id) {
            assert forall|d: NodeId| #[trigger] st.shape.is_child(id, d) implies st.nodes[d as int].host is None by {
                assert(t.shape.is_child(id, d));
            }
        }
    }
    assert forall|id: NodeId| id != p && id != f implies #[trigger] t.leaf(id) == st.leaf(id) by {
        if id < len {
            assert(t.nodes[id as int] == st.nodes[id as int]);
        }
    }
    assert forall|id: NodeId| id != p && id != f implies #[trigger] t.host_leaf(id) == st.host_leaf(id) by {
        if id < len {
            assert(t.nodes[id as int] == st.nodes[id as int]);
        }
    }
}

/// The nodes on the way up from a live node are live.
pub proof fn lemma_up_live(st: HiState, id: NodeId)
    requires
        st.wf(),
        st.live(id),
    ensures
        st.shape.up(id).no_duplicates(),
        forall|k: int|
            0 <= k < st.shape.up(id).len() ==> 0 < (#[trigger] st.shape.up(id)[k]) && st.live(st.shape.up(id)[k]),
        id != ROOT ==> st.shape.up(id).len() > 0 && st.shape.up(id)[0] == id,
    decreases st.shape.nodes[id as int].path.len(),
{
    topo::lemma_up(st.shape, id);
    if id != ROOT {
        topo::lemma_path_grows(st.shape, id);
        assert(st.node_ok(id as int));
        let p = st.shape.nodes[id as int].parent;
        lemma_up_live(st, p);
        assert forall|k: int| 0 <= k < st.shape.up(id).len() implies 0 < (#[trigger] st.shape.up(id)[k]) && st.live(
            st.shape.up(id)[k],
        ) by {
            if k > 0 {
                assert(st.shape.up(id)[k] == st.shape.up(p)[k - 1]);
            }
        }
    }
}

/// One more node of a path locked or unlocked.
pub proof fn lemma_locked_step(st: HiState, ids: Seq<NodeId>, k: int)
    requires
        ids.no_duplicates(),
        0 <= k < ids.len(),
        ids[k] < st.nodes.len(),
        st.nodes.len() <= NodeId::MAX,
    ensures
        ({
            let x = ids[k];
            let n = st.nodes[x as int];
            let a = st.locked(ids.take(k));
            let b = st.unlocked(ids.take(k));
            &&& a.nodes[x as int] == n
            &&& b.nodes[x as int] == n
            &&& st.locked(ids.take(k + 1)) == a.patched(x, HiNodeState { lock: (n.lock + 1) as u32, ..n })
            &&& st.unlocked(ids.take(k + 1)) == b.patched(x, HiNodeState { lock: (n.lock - 1) as u32, ..n })
        }),
{
    let x = ids[k];
    let n = st.nodes[x as int];
    chains::lemma_not_before(ids, k);
    assert(ids.take(k + 1) =~= ids.take(k).push(x));
    let a = st.locked(ids.take(k)).patched(x, HiNodeState { lock: (n.lock + 1) as u32, ..n });
    let b = st.unlocked(ids.take(k)).patched(x, HiNodeState { lock: (n.lock - 1) as u32, ..n });
    assert forall|i: int| 0 <= i < st.nodes.len() implies st.locked(ids.take(k + 1)).nodes[i] == a.nodes[i]
        && st.unlocked(ids.take(k + 1)).nodes[i] == b.nodes[i] by {
        tree_model::lemma_push_contains(ids.take(k), x, i as NodeId);
    }
    assert(st.locked(ids.take(k + 1)).nodes =~= a.nodes);
    assert(st.unlocked(ids.take(k + 1)).nodes =~= b.nodes);
}

} // verus!
