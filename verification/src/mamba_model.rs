//! The model of the hybrid (full KV + mamba state) tree: what each operation
//! does to its state.

use crate::chains;
use crate::key::RadixKey;
use crate::lru;
use crate::ns::Names;
use crate::query;
use crate::query::Frame;
use crate::seqs;
use crate::topo;
use crate::topo::{NodeId, Shape, ROOT};
use crate::tree_model;
use vstd::prelude::*;

verus! {

/// What one node caches. `mamba` is the node's state slot; a live node
/// without one is a mamba tombstone.
#[verifier::ext_equal]
pub struct MambaNodeState {
    pub value: Option<Seq<i64>>,
    pub mamba: Option<Seq<i64>>,
    pub full_lock: u32,
    pub mamba_lock: u32,
}

/// The state of a tree. `full` and `mamba` are the two recency orders, most
/// recently used first; the four size counters follow from the rest.
#[verifier::ext_equal]
pub struct MambaState {
    pub shape: Shape,
    pub nodes: Seq<MambaNodeState>,
    pub names: Seq<Names>,
    pub is_eagle: bool,
    pub disable: bool,
    /// Granularity at which mamba states are cached.
    pub grain: nat,
    pub full: Seq<NodeId>,
    pub mamba: Seq<NodeId>,
}

/// Runs handed back to the caller: KV runs with their offset in the
/// request's row, and mamba slots.
#[verifier::ext_equal]
pub struct MambaFreed {
    pub kv: Seq<(Seq<i64>, int)>,
    pub mamba: Seq<Seq<i64>>,
}

impl MambaFreed {
    /// Nothing.
    pub open spec fn none() -> MambaFreed {
        MambaFreed { kv: Seq::empty(), mamba: Seq::empty() }
    }
}

/// The four size counters: tokens on the full side, states on the mamba side.
pub enum MambaCounter {
    FullEvictable,
    FullProtected,
    MambaEvictable,
    MambaProtected,
}

/// Tokens and states taken by an eviction.
#[verifier::ext_equal]
pub struct MambaTally {
    pub full: int,
    pub mamba: int,
    pub out: MambaFreed,
}

impl MambaState {
    /// An empty tree.
    pub open spec fn fresh(page: nat, is_eagle: bool, disable: bool, grain: nat) -> MambaState {
        MambaState {
            shape: Shape::bare(page, if is_eagle { 2 } else { 1 }),
            nodes: seq![
                MambaNodeState {
                    value: Some(Seq::empty()),
                    mamba: None,
                    full_lock: 1,
                    mamba_lock: 1,
                },
            ],
            names: Seq::empty(),
            is_eagle,
            disable,
            grain,
            full: Seq::empty(),
            mamba: Seq::empty(),
        }
    }

    /// What decides how a key is followed.
    pub open spec fn frame(self) -> Frame {
        Frame { shape: self.shape, names: self.names, is_eagle: self.is_eagle }
    }

    /// Whether `id` names a live node below the root.
    pub open spec fn live(self, id: NodeId) -> bool {
        0 < id < self.nodes.len() && self.nodes[id as int].value is Some
    }

    /// Whether `id` names a live node with a mamba state.
    pub open spec fn stateful(self, id: NodeId) -> bool {
        self.live(id) && self.nodes[id as int].mamba is Some
    }

    /// What node `i` counts towards `c`.
    pub open spec fn weight(self, c: MambaCounter, i: int) -> int {
        let n = self.nodes[i];
        if i <= 0 || n.value is None {
            0
        } else {
            match c {
                MambaCounter::FullEvictable => if n.full_lock == 0 {
                    self.shape.units(i)
                } else {
                    0
                },
                MambaCounter::FullProtected => if n.full_lock > 0 {
                    self.shape.units(i)
                } else {
                    0
                },
                MambaCounter::MambaEvictable => if n.mamba is Some && n.mamba_lock == 0 {
                    1
                } else {
                    0
                },
                MambaCounter::MambaProtected => if n.mamba is Some && n.mamba_lock > 0 {
                    1
                } else {
                    0
                },
            }
        }
    }

    /// The value of a size counter.
    pub open spec fn count(self, c: MambaCounter) -> int {
        seqs::total(|i: int| self.weight(c, i), self.nodes.len())
    }

    /// Tokens in live nodes.
    pub open spec fn full_size(self) -> int {
        self.count(MambaCounter::FullEvictable) + self.count(MambaCounter::FullProtected)
    }

    /// Number of live mamba states.
    pub open spec fn mamba_size(self) -> int {
        self.count(MambaCounter::MambaEvictable) + self.count(MambaCounter::MambaProtected)
    }

    /// Number of live nodes.
    pub open spec fn live_count(self) -> int {
        seqs::total(|i: int| if self.nodes[i].value is Some { 1 } else { 0 }, self.nodes.len())
    }

    /// Tokens that node `i` holds; the root holds none.
    pub open spec fn held(self, i: int) -> int {
        if i > 0 && self.nodes[i].value is Some {
            self.shape.units(i)
        } else {
            0
        }
    }

    /// Mamba states that node `i` holds.
    pub open spec fn held_mamba(self, i: int) -> int {
        if i > 0 && self.nodes[i].value is Some && self.nodes[i].mamba is Some {
            1
        } else {
            0
        }
    }

    /// Node `i` is live exactly while its parent lists it, holds one index
    /// per logical unit and at most one mamba slot, and hangs below a live
    /// node; a state that is gone is not locked, and a mamba lock comes with
    /// a full lock.
    pub open spec fn node_ok(self, i: int) -> bool {
        let spot = self.shape.nodes[i];
        let n = self.nodes[i];
        &&& n.value is Some <==> spot.attached
        &&& n.value is Some ==> n.value->0.len() == self.shape.units(i)
        &&& n.mamba is Some ==> n.mamba->0.len() == 1
        &&& spot.attached ==> self.shape.nodes[spot.parent as int].attached
        &&& n.mamba is None ==> n.mamba_lock == 0
        &&& n.full_lock >= n.mamba_lock
        &&& spot.ns < self.names.len()
    }

    /// A possible state of a tree.
    pub open spec fn wf(self) -> bool {
        &&& self.frame().wf()
        &&& self.grain >= 1
        &&& self.nodes.len() == self.shape.nodes.len()
        &&& self.nodes[0].value == Some(Seq::<i64>::empty())
        &&& self.nodes[0].mamba is None
        &&& self.nodes[0].full_lock == 1
        &&& self.nodes[0].mamba_lock == 1
        &&& forall|i: int| 0 < i < self.nodes.len() ==> #[trigger] self.node_ok(i)
        &&& self.full.no_duplicates()
        &&& self.mamba.no_duplicates()
        &&& forall|id: NodeId| #[trigger] self.full.contains(id) <==> self.live(id)
        &&& forall|id: NodeId| #[trigger] self.mamba.contains(id) <==> self.stateful(id)
        &&& self.full_size() <= i64::MAX
        &&& self.full_size() <= usize::MAX
    }

    /// The node's value.
    pub open spec fn run(self, x: NodeId) -> Seq<i64> {
        self.nodes[x as int].value->0
    }

    /// Node `c` cut after `m` flattened elements: a mamba state cannot be
    /// split, so the front is a tombstone that takes over the full locks;
    /// both move to the front of the full order, the tail first.
    pub open spec fn cut(self, c: NodeId, m: int) -> MambaState {
        let n = self.nodes[c as int];
        let u = m / self.shape.unit as int;
        let f = self.nodes.len() as NodeId;
        let front = MambaNodeState {
            value: Some(n.value->0.take(u)),
            mamba: None,
            full_lock: n.full_lock,
            mamba_lock: 0,
        };
        let tail = MambaNodeState { value: Some(n.value->0.skip(u)), ..n };
        MambaState {
            shape: self.shape.split(c, m),
            nodes: self.nodes.update(c as int, tail).push(front),
            full: lru::with_pair(self.full, c, f),
            ..self
        }
    }

    /// A new unlocked leaf below `p`.
    pub open spec fn grown(
        self,
        p: NodeId,
        ns: u32,
        key: Seq<i64>,
        value: Seq<i64>,
        mamba: Seq<i64>,
    ) -> MambaState {
        let f = self.nodes.len() as NodeId;
        MambaState {
            shape: self.shape.graft(p, ns, key),
            nodes: self.nodes.push(
                MambaNodeState {
                    value: Some(value),
                    mamba: Some(mamba),
                    full_lock: 0,
                    mamba_lock: 0,
                },
            ),
            full: seq![f] + self.full,
            mamba: seq![f] + self.mamba,
            ..self
        }
    }

    /// Node `x` deleted.
    pub open spec fn dropped(self, x: NodeId) -> MambaState {
        let n = self.nodes[x as int];
        MambaState {
            shape: self.shape.prune(x),
            nodes: self.nodes.update(x as int, MambaNodeState { value: None, ..n }),
            full: lru::without(self.full, x),
            mamba: if n.mamba is Some {
                lru::without(self.mamba, x)
            } else {
                self.mamba
            },
            ..self
        }
    }

    /// Node `id` with the contents `n` instead.
    pub open spec fn patched(self, id: NodeId, n: MambaNodeState) -> MambaState {
        MambaState { nodes: self.nodes.update(id as int, n), ..self }
    }

    /// Node `x` loses its mamba state.
    pub open spec fn buried(self, x: NodeId) -> MambaState {
        MambaState {
            mamba: lru::without(self.mamba, x),
            ..self.patched(x, MambaNodeState { mamba: None, ..self.nodes[x as int] })
        }
    }

    /// The tombstone `x` gets a mamba state.
    pub open spec fn revived(self, x: NodeId, mamba: Seq<i64>) -> MambaState {
        MambaState {
            mamba: seq![x] + self.mamba,
            ..self.patched(x, MambaNodeState { mamba: Some(mamba), ..self.nodes[x as int] })
        }
    }

    /// A walk passes node `x`.
    pub open spec fn passed(self, x: NodeId) -> MambaState {
        MambaState { full: lru::touched(self.full, x), ..self }
    }

    /// The nodes `ids` passed one after the other.
    pub open spec fn passed_all(self, ids: Seq<NodeId>) -> MambaState
        decreases ids.len(),
    {
        if ids.len() == 0 {
            self
        } else {
            self.passed_all(ids.drop_last()).passed(ids.last())
        }
    }

    // ---- match ----

    /// The last of `visited` with a mamba state: how many nodes up to it,
    /// and the node; none is the root.
    pub open spec fn best(self, visited: Seq<NodeId>) -> (nat, NodeId)
        decreases visited.len(),
    {
        if visited.len() == 0 {
            (0, ROOT)
        } else if self.nodes[visited.last() as int].mamba is Some {
            (visited.len(), visited.last())
        } else {
            self.best(visited.drop_last())
        }
    }

    /// The runs of the nodes `ids`, one after the other.
    pub open spec fn gathered(self, ids: Seq<NodeId>) -> Seq<i64>
        decreases ids.len(),
    {
        if ids.len() == 0 {
            Seq::empty()
        } else {
            self.gathered(ids.drop_last()) + self.run(ids.last())
        }
    }

    /// The state after the walk of a match, and the nodes it visits: a node
    /// matched in part is cut.
    pub open spec fn after_walk(self, key: RadixKey) -> (MambaState, Seq<NodeId>) {
        let w = self.frame().walk(key);
        let st = MambaState { names: self.frame().names_with(key), ..self };
        match w.stop {
            None => (st, w.chain),
            Some((c, m)) => (st.cut(c, m as int), w.chain.push(self.nodes.len() as NodeId)),
        }
    }

    /// The path up from `node` moved to the front of the full order, and
    /// `node` to the front of the mamba order.
    pub open spec fn refreshed(self, node: NodeId) -> MambaState {
        MambaState {
            full: lru::lifted(self.full, self.shape.up(node)),
            mamba: lru::touched(self.mamba, node),
            ..self
        }
    }

    /// Where a state could be cached further on: the `total` matched tokens,
    /// rounded down to the grain, if the match goes past the last state.
    pub open spec fn branching(self, visited: nat, best_len: nat, total: int) -> Option<int> {
        let aligned = total / self.grain as int * self.grain;
        if visited > best_len && aligned > 0 {
            Some(aligned)
        } else {
            None
        }
    }

    /// The state after a match of `key`, the indices, the node and the
    /// branching point it returns.
    pub open spec fn after_match(self, key: RadixKey) -> (MambaState, Seq<i64>, NodeId, Option<int>) {
        if self.disable || self.frame().flat(key).len() == 0 {
            (self, Seq::empty(), ROOT, None)
        } else {
            let (st, visited) = self.after_walk(key);
            let (len, node) = st.best(visited);
            (
                st.refreshed(node),
                st.gathered(visited.take(len as int)),
                node,
                st.branching(visited.len(), len, self.frame().prefix_len(key)),
            )
        }
    }

    // ---- insert ----

    /// The part of an overlap of `len` tokens, `total` tokens into the key,
    /// that the caller gets back: what lies past `prev` tokens.
    pub open spec fn overlap(val: Seq<i64>, total: int, len: int, prev: int) -> Seq<(Seq<i64>, int)> {
        if prev < total + len {
            let start = if prev > total { prev - total } else { 0 };
            seq![(val.subrange(total + start, total + len), total + start)]
        } else {
            Seq::empty()
        }
    }

    /// Tokens of the first `k` nodes of `chain`.
    pub open spec fn depth(self, chain: Seq<NodeId>, k: nat) -> int
        decreases k,
    {
        if k == 0 {
            0
        } else {
            self.depth(chain, (k - 1) as nat) + self.run(chain[k - 1]).len()
        }
    }

    /// The overlaps with the first `k` nodes of `chain` that the caller gets back.
    pub open spec fn overlaps(self, chain: Seq<NodeId>, k: nat, val: Seq<i64>, prev: int) -> Seq<(Seq<i64>, int)>
        decreases k,
    {
        if k == 0 {
            Seq::empty()
        } else {
            self.overlaps(chain, (k - 1) as nat, val, prev) + MambaState::overlap(
                val,
                self.depth(chain, (k - 1) as nat),
                self.run(chain[k - 1]).len() as int,
                prev,
            )
        }
    }

    /// The walk of an insert: the state, the KV runs handed back, and the
    /// node it stands at.
    pub open spec fn after_insert_walk(
        self,
        key: RadixKey,
        val: Seq<i64>,
        prev: int,
    ) -> (MambaState, Seq<(Seq<i64>, int)>, NodeId) {
        let w = self.frame().walk(key);
        let st = MambaState { names: self.frame().names_with(key), ..self }.passed_all(w.chain);
        let kv = self.overlaps(w.chain, w.chain.len(), val, prev);
        let total = self.depth(w.chain, w.chain.len());
        match w.stop {
            None => (st, kv, topo::end_of(w.chain)),
            Some((c, m)) => (
                st.passed(c).cut(c, m as int),
                kv + MambaState::overlap(val, total, m as int / self.shape.unit as int, prev),
                self.nodes.len() as NodeId,
            ),
        }
    }

    /// The state after an insert, the KV runs handed back, the last node,
    /// and whether it had a mamba state already.
    pub open spec fn after_insert(
        self,
        key: RadixKey,
        value: Seq<i64>,
        mamba: Seq<i64>,
        prev: int,
    ) -> (MambaState, Seq<(Seq<i64>, int)>, NodeId, bool) {
        let flat = self.frame().flat(key);
        if self.disable {
            (self, Seq::empty(), ROOT, false)
        } else if flat.len() == 0 {
            (self, Seq::empty(), ROOT, true)
        } else {
            let used = self.frame().walk(key).used as int;
            let units = self.frame().units(key);
            let val = value.take(units);
            let (st, kv, p) = self.after_insert_walk(key, val, prev);
            if used < flat.len() {
                (
                    st.grown(
                        p,
                        self.frame().ns_of(key),
                        flat.skip(used),
                        val.skip(self.frame().prefix_len(key)),
                        mamba,
                    ),
                    kv,
                    st.nodes.len() as NodeId,
                    false,
                )
            } else if st.nodes[p as int].mamba is None {
                (st.passed(p).revived(p, mamba), kv, p, false)
            } else {
                (st.passed(p), kv, p, true)
            }
        }
    }

    // ---- locks ----

    /// One full lock more on the nodes `ids`.
    pub open spec fn full_locked(self, ids: Seq<NodeId>) -> MambaState {
        MambaState {
            nodes: Seq::new(
                self.nodes.len(),
                |i: int|
                    if ids.contains(i as NodeId) {
                        MambaNodeState { full_lock: (self.nodes[i].full_lock + 1) as u32, ..self.nodes[i] }
                    } else {
                        self.nodes[i]
                    },
            ),
            ..self
        }
    }

    /// One full lock less on the nodes `ids`.
    pub open spec fn full_unlocked(self, ids: Seq<NodeId>) -> MambaState {
        MambaState {
            nodes: Seq::new(
                self.nodes.len(),
                |i: int|
                    if ids.contains(i as NodeId) {
                        MambaNodeState { full_lock: (self.nodes[i].full_lock - 1) as u32, ..self.nodes[i] }
                    } else {
                        self.nodes[i]
                    },
            ),
            ..self
        }
    }

    /// `by` more mamba locks on `node`, if it has a state.
    pub open spec fn mamba_locked(self, node: NodeId, by: int) -> MambaState {
        let n = self.nodes[node as int];
        if n.mamba is Some {
            self.patched(node, MambaNodeState { mamba_lock: (n.mamba_lock + by) as u32, ..n })
        } else {
            self
        }
    }

    /// `node` and the nodes above it locked: the full side all the way, the
    /// mamba side on `node` alone.
    pub open spec fn locked(self, node: NodeId) -> MambaState {
        self.full_locked(self.shape.up(node)).mamba_locked(node, 1)
    }

    /// One lock of that kind taken off.
    pub open spec fn unlocked(self, node: NodeId) -> MambaState {
        self.mamba_locked(node, -1).full_unlocked(self.shape.up(node))
    }

    // ---- evict ----

    /// The least recently used unlocked leaf of `order`.
    pub open spec fn lru_leaf(self, order: Seq<NodeId>) -> Option<NodeId>
        decreases order.len(),
    {
        if order.len() == 0 {
            None
        } else if self.nodes[order.last() as int].full_lock == 0 && self.shape.is_leaf(order.last()) {
            Some(order.last())
        } else {
            self.lru_leaf(order.drop_last())
        }
    }

    /// The least recently used node of `order` without a mamba lock.
    pub open spec fn lru_unlocked(self, order: Seq<NodeId>) -> Option<NodeId>
        decreases order.len(),
    {
        if order.len() == 0 {
            None
        } else if self.nodes[order.last() as int].mamba_lock == 0 {
            Some(order.last())
        } else {
            self.lru_unlocked(order.drop_last())
        }
    }

    /// Whether `p` is a tombstone that its last child has left behind.
    pub open spec fn orphaned(self, p: NodeId) -> bool {
        &&& self.live(p)
        &&& self.nodes[p as int].mamba is None
        &&& self.shape.is_leaf(p)
        &&& self.nodes[p as int].full_lock == 0
    }

    /// Orphaned tombstones deleted from `p` upwards: the state, the runs and
    /// their tokens.
    pub open spec fn cascade(self, p: NodeId, out: MambaFreed) -> (MambaState, MambaFreed, int)
        decreases self.live_count(),
    {
        if self.orphaned(p) {
            proof {
                lemma_drop_counts(self, p);
            }
            let v = self.run(p);
            let (st, o, n) = self.dropped(p).cascade(
                self.shape.nodes[p as int].parent,
                MambaFreed { kv: out.kv.push((v, 0)), ..out },
            );
            (st, o, n + v.len())
        } else {
            (self, out, 0)
        }
    }

    /// The leaf `x` deleted, with the tombstones it leaves behind: the
    /// state, the runs, and the tokens of all.
    pub open spec fn evict_leaf(self, x: NodeId, out: MambaFreed) -> (MambaState, MambaFreed, int) {
        let v = self.run(x);
        let (st, o, n) = self.dropped(x).cascade(
            self.shape.nodes[x as int].parent,
            MambaFreed {
                kv: out.kv.push((v, 0)),
                mamba: out.mamba.push(self.nodes[x as int].mamba->0),
            },
        );
        (st, o, n + v.len())
    }

    /// Unlocked leaves deleted, least recently used first, until `budget`
    /// tokens are gone or none is left.
    pub open spec fn evict_full(self, budget: int, t: MambaTally) -> (MambaState, MambaTally)
        decreases self.live_count(),
    {
        match self.lru_leaf(self.full) {
            Some(x) => if t.full < budget && self.live(x) {
                let (st, o, n) = self.evict_leaf(x, t.out);
                proof {
                    lemma_evict_counts(self, x, t.out);
                }
                st.evict_full(budget, MambaTally { full: t.full + n, out: o, ..t })
            } else {
                (self, t)
            },
            None => (self, t),
        }
    }

    /// One step of the mamba eviction of `x`: an inner node only loses its
    /// state, a leaf is deleted.
    pub open spec fn evict_mamba_step(self, x: NodeId, t: MambaTally) -> (MambaState, MambaTally) {
        if !self.shape.is_leaf(x) {
            (
                self.buried(x),
                MambaTally {
                    mamba: t.mamba + 1,
                    out: MambaFreed { mamba: t.out.mamba.push(self.nodes[x as int].mamba->0), ..t.out },
                    ..t
                },
            )
        } else {
            let (st, o, n) = self.evict_leaf(x, t.out);
            (st, MambaTally { mamba: t.mamba + 1, out: o, ..t })
        }
    }

    /// Mamba states freed, least recently used first, until `budget` are
    /// gone or none is left.
    pub open spec fn evict_mamba(self, budget: int, t: MambaTally) -> (MambaState, MambaTally)
        decreases self.mamba.len(),
    {
        match self.lru_unlocked(self.mamba) {
            Some(x) => if t.mamba < budget && self.stateful(x) && self.mamba.contains(x) {
                let (st, t1) = self.evict_mamba_step(x, t);
                proof {
                    lemma_evict_mamba_step(self, x, t);
                }
                st.evict_mamba(budget, t1)
            } else {
                (self, t)
            },
            None => (self, t),
        }
    }

    /// An eviction with both budgets: the state and the tally.
    pub open spec fn after_evict(self, full_budget: int, mamba_budget: int) -> (MambaState, MambaTally) {
        let none = MambaTally { full: 0, mamba: 0, out: MambaFreed::none() };
        if self.disable {
            (self, none)
        } else {
            let (st, t) = self.evict_full(full_budget, none);
            st.evict_mamba(mamba_budget, t)
        }
    }

    /// Whether every leaf that such a deletion comes to has a state.
    pub open spec fn full_drains(self, budget: int, t: MambaTally) -> bool
        decreases self.live_count(),
    {
        match self.lru_leaf(self.full) {
            Some(x) => if t.full < budget && self.live(x) {
                let (st, o, n) = self.evict_leaf(x, t.out);
                proof {
                    lemma_evict_counts(self, x, t.out);
                }
                &&& self.nodes[x as int].mamba is Some
                &&& st.full_drains(budget, MambaTally { full: t.full + n, out: o, ..t })
            } else {
                true
            },
            None => true,
        }
    }

    /// Whether no leaf that the freeing of states comes to is full-locked.
    pub open spec fn mamba_drains(self, budget: int, t: MambaTally) -> bool
        decreases self.mamba.len(),
    {
        match self.lru_unlocked(self.mamba) {
            Some(x) => if t.mamba < budget && self.stateful(x) && self.mamba.contains(x) {
                let (st, t1) = self.evict_mamba_step(x, t);
                proof {
                    lemma_evict_mamba_step(self, x, t);
                }
                &&& self.shape.is_leaf(x) ==> self.nodes[x as int].full_lock == 0
                &&& st.mamba_drains(budget, t1)
            } else {
                true
            },
            None => true,
        }
    }

    /// Whether an eviction with both budgets comes to no leaf that it could
    /// not take: one without a state, or one that is full-locked while its
    /// state is not.
    pub open spec fn drains(self, full_budget: int, mamba_budget: int) -> bool {
        let none = MambaTally { full: 0, mamba: 0, out: MambaFreed::none() };
        self.disable || {
            let (st, t) = self.evict_full(full_budget, none);
            &&& self.full_drains(full_budget, none)
            &&& st.mamba_drains(mamba_budget, t)
        }
    }

    /// Ready for an eviction with any budgets: an unlocked leaf has a mamba
    /// state, and a node that is full-locked while its state is not has a
    /// full-locked child. Locks taken and released in pairs keep it so.
    pub open spec fn evict_ready(self) -> bool {
        &&& forall|x: NodeId|
            #![trigger self.live(x)]
            self.live(x) && self.shape.is_leaf(x) && self.nodes[x as int].full_lock == 0
                ==> self.nodes[x as int].mamba is Some
        &&& forall|x: NodeId|
            #![trigger self.stateful(x)]
            self.stateful(x) && self.nodes[x as int].full_lock > 0 && self.nodes[x as int].mamba_lock == 0
                ==> self.has_locked_child(x)
    }

    /// Whether `x` has a full-locked child.
    pub open spec fn has_locked_child(self, x: NodeId) -> bool {
        exists|c: NodeId| #[trigger] self.shape.is_child(x, c) && self.nodes[c as int].full_lock > 0
    }
}

/// The nodes `ids` are live and distinct.
pub open spec fn chain_of(st: MambaState, ids: Seq<NodeId>) -> bool {
    &&& ids.no_duplicates()
    &&& forall|j: int| 0 <= j < ids.len() ==> st.live(#[trigger] ids[j])
}

/// A live node holds one index per token on its edge.
pub proof fn lemma_depth(st: MambaState, ids: Seq<NodeId>, k: nat)
    requires
        st.wf(),
        chain_of(st, ids),
        k <= ids.len(),
    ensures
        st.depth(ids, k) == chains::tokens(st.shape, ids, k as int),
    decreases k,
{
    if k > 0 {
        lemma_depth(st, ids, (k - 1) as nat);
        assert(st.live(ids[k - 1]));
        assert(st.node_ok(ids[k - 1] as int));
    }
}

/// A deleted node counts no more.
pub proof fn lemma_drop_counts(st: MambaState, x: NodeId)
    requires
        st.live(x),
    ensures
        st.dropped(x).live_count() == st.live_count() - 1,
        st.dropped(x).live_count() >= 0,
{
    let t = st.dropped(x);
    let f = |i: int| if st.nodes[i].value is Some { 1 } else { 0 };
    let g = |i: int| if t.nodes[i].value is Some { 1 } else { 0 };
    seqs::lemma_total_update(f, g, st.nodes.len(), x as int);
    seqs::lemma_total_bounds(g, st.nodes.len());
}

/// A cascade adds no node and leaves the mamba order alone.
pub proof fn lemma_cascade_counts(st: MambaState, p: NodeId, out: MambaFreed)
    ensures
        st.cascade(p, out).0.live_count() <= st.live_count(),
        st.cascade(p, out).0.live_count() >= 0,
        st.cascade(p, out).0.mamba == st.mamba,
    decreases st.live_count(),
{
    if st.orphaned(p) {
        lemma_drop_counts(st, p);
        lemma_cascade_counts(
            st.dropped(p),
            st.shape.nodes[p as int].parent,
            MambaFreed { kv: out.kv.push((st.run(p), 0)), ..out },
        );
    } else {
        let f = |i: int| if st.nodes[i].value is Some { 1 } else { 0 };
        seqs::lemma_total_bounds(f, st.nodes.len());
    }
}

/// The eviction of a leaf takes at least one live node.
pub proof fn lemma_evict_counts(st: MambaState, x: NodeId, out: MambaFreed)
    requires
        st.live(x),
    ensures
        st.evict_leaf(x, out).0.live_count() < st.live_count(),
        st.evict_leaf(x, out).0.live_count() >= 0,
        st.evict_leaf(x, out).0.mamba == st.dropped(x).mamba,
{
    lemma_drop_counts(st, x);
    lemma_cascade_counts(
        st.dropped(x),
        st.shape.nodes[x as int].parent,
        MambaFreed {
            kv: out.kv.push((st.run(x), 0)),
            mamba: out.mamba.push(st.nodes[x as int].mamba->0),
        },
    );
}

/// A step of the mamba eviction shortens the mamba order.
pub proof fn lemma_evict_mamba_step(st: MambaState, x: NodeId, t: MambaTally)
    requires
        st.stateful(x),
        st.mamba.contains(x),
    ensures
        st.evict_mamba_step(x, t).0.mamba.len() < st.mamba.len(),
        st.evict_mamba_step(x, t).0.mamba == lru::without(st.mamba, x),
{
    let k = st.mamba.index_of(x);
    assert(st.mamba[k] == x);
    lemma_evict_counts(st, x, t.out);
}

/// The counters of a state are sums of what nodes hold.
pub proof fn law_sizes_add_up(st: MambaState)
    requires
        st.wf(),
    ensures
        forall|c: MambaCounter| #[trigger] st.count(c) >= 0,
        st.mamba_size() <= st.full_size(),
        st.full_size() == seqs::total(|i: int| st.held(i), st.nodes.len()),
        st.mamba_size() == seqs::total(|i: int| st.held_mamba(i), st.nodes.len()),
        forall|c: MambaCounter| #[trigger] st.count(c) <= i64::MAX,
{
    let n = st.nodes.len();
    assert forall|i: int| 0 <= i < n implies st.held(i) >= st.held_mamba(i) && st.held_mamba(i) >= 0 by {
        if i > 0 {
            chains::lemma_units(st.shape, i);
            assert(st.node_ok(i));
        }
    }
    let f = |c: MambaCounter| (|i: int| st.weight(c, i));
    assert forall|c: MambaCounter| #[trigger] st.count(c) >= 0 by {
        assert forall|i: int| 0 <= i < n implies #[trigger] f(c)(i) >= 0 by {
            if i > 0 {
                chains::lemma_units(st.shape, i);
            }
        }
        seqs::lemma_total_bounds(f(c), n);
        seqs::lemma_total_same(f(c), |i: int| st.weight(c, i), n);
    }
    seqs::lemma_total_add(
        |i: int| st.weight(MambaCounter::FullEvictable, i),
        |i: int| st.weight(MambaCounter::FullProtected, i),
        |i: int| st.held(i),
        n,
    );
    seqs::lemma_total_add(
        |i: int| st.weight(MambaCounter::MambaEvictable, i),
        |i: int| st.weight(MambaCounter::MambaProtected, i),
        |i: int| st.held_mamba(i),
        n,
    );
    seqs::lemma_total_le(|i: int| st.held_mamba(i), |i: int| st.held(i), n);
    assert forall|c: MambaCounter| #[trigger] st.count(c) <= i64::MAX by {
        assert(st.count(MambaCounter::FullProtected) >= 0);
        assert(st.count(MambaCounter::FullEvictable) >= 0);
        assert(st.count(MambaCounter::MambaProtected) >= 0);
        assert(st.count(MambaCounter::MambaEvictable) >= 0);
        match c {
            MambaCounter::FullEvictable => {},
            MambaCounter::FullProtected => {},
            MambaCounter::MambaEvictable => {},
            MambaCounter::MambaProtected => {},
        }
    }
}

/// Counters rest on the weights of the nodes alone.
pub proof fn lemma_counts_same(a: MambaState, b: MambaState)
    requires
        a.nodes.len() == b.nodes.len(),
        forall|c: MambaCounter, i: int|
            0 <= i < a.nodes.len() ==> #[trigger] b.weight(c, i) == a.weight(c, i),
    ensures
        forall|c: MambaCounter| #[trigger] b.count(c) == a.count(c),
        b.full_size() == a.full_size(),
        b.mamba_size() == a.mamba_size(),
{
    assert forall|c: MambaCounter| #[trigger] b.count(c) == a.count(c) by {
        seqs::lemma_total_same(|i: int| b.weight(c, i), |i: int| a.weight(c, i), a.nodes.len());
    }
}

/// A change of one node changes each counter by that node's weight.
pub proof fn lemma_counts_update(a: MambaState, b: MambaState, x: int)
    requires
        a.nodes.len() == b.nodes.len(),
        0 <= x < a.nodes.len(),
        forall|c: MambaCounter, i: int|
            0 <= i < a.nodes.len() && i != x ==> #[trigger] b.weight(c, i) == a.weight(c, i),
    ensures
        forall|c: MambaCounter| #[trigger] b.count(c) == a.count(c) - a.weight(c, x) + b.weight(c, x),
{
    assert forall|c: MambaCounter| #[trigger] b.count(c) == a.count(c) - a.weight(c, x) + b.weight(c, x) by {
        seqs::lemma_total_update(|i: int| a.weight(c, i), |i: int| b.weight(c, i), a.nodes.len(), x);
    }
}

/// One more node changes each counter by its weight.
pub proof fn lemma_counts_push(a: MambaState, b: MambaState)
    requires
        b.nodes.len() == a.nodes.len() + 1,
        forall|c: MambaCounter, i: int|
            0 <= i < a.nodes.len() ==> #[trigger] b.weight(c, i) == a.weight(c, i),
    ensures
        forall|c: MambaCounter| #[trigger] b.count(c) == a.count(c) + b.weight(c, a.nodes.len() as int),
{
    assert forall|c: MambaCounter| #[trigger] b.count(c) == a.count(c) + b.weight(c, a.nodes.len() as int) by {
        seqs::lemma_total_same(|i: int| a.weight(c, i), |i: int| b.weight(c, i), a.nodes.len());
    }
}

/// Other recency orders of the same members, and more names, leave a
/// possible state with the same counters.
pub proof fn lemma_reordered(a: MambaState, b: MambaState)
    requires
        a.wf(),
        b.shape == a.shape,
        b.nodes == a.nodes,
        b.is_eagle == a.is_eagle,
        b.grain == a.grain,
        b.names.no_duplicates(),
        a.names.len() <= b.names.len(),
        b.full.no_duplicates(),
        b.mamba.no_duplicates(),
        forall|id: NodeId| #[trigger] b.full.contains(id) <==> a.full.contains(id),
        forall|id: NodeId| #[trigger] b.mamba.contains(id) <==> a.mamba.contains(id),
    ensures
        b.wf(),
        forall|c: MambaCounter| #[trigger] b.count(c) == a.count(c),
        b.full_size() == a.full_size(),
{
    lemma_counts_same(a, b);
    assert forall|i: int| 0 < i < b.nodes.len() implies #[trigger] b.node_ok(i) by {
        assert(a.node_ok(i));
    }
}

/// A live node may change its locks and its mamba state as long as the
/// mamba order follows.
pub proof fn lemma_patched(st: MambaState, x: NodeId, n: MambaNodeState, mamba: Seq<NodeId>)
    requires
        st.wf(),
        st.live(x),
        n.value == st.nodes[x as int].value,
        n.mamba is Some ==> n.mamba->0.len() == 1,
        n.mamba is None ==> n.mamba_lock == 0,
        n.full_lock >= n.mamba_lock,
        mamba.no_duplicates(),
        forall|id: NodeId|
            #[trigger] mamba.contains(id) <==> (if id == x {
                n.mamba is Some
            } else {
                st.mamba.contains(id)
            }),
    ensures
        ({
            let t = MambaState { mamba, ..st.patched(x, n) };
            &&& t.wf()
            &&& forall|c: MambaCounter|
                #[trigger] t.count(c) == st.count(c) - st.weight(c, x as int) + t.weight(c, x as int)
            &&& t.full_size() == st.full_size()
        }),
{
    let t = MambaState { mamba, ..st.patched(x, n) };
    assert(st.node_ok(x as int));
    lemma_counts_update(st, t, x as int);
    assert forall|i: int| 0 < i < t.nodes.len() implies #[trigger] t.node_ok(i) by {
        assert(st.node_ok(i));
    }
    assert forall|id: NodeId| #[trigger] t.full.contains(id) <==> t.live(id) by {
        assert(st.full.contains(id) <==> st.live(id));
    }
    assert forall|id: NodeId| #[trigger] t.mamba.contains(id) <==> t.stateful(id) by {
        assert(st.mamba.contains(id) <==> st.stateful(id));
    }
}

/// A cut moves no token and no state between the counters.
#[verifier::rlimit(30)]
pub proof fn lemma_cut(st: MambaState, c: NodeId, m: int)
    requires
        st.wf(),
        st.live(c),
        st.nodes.len() < NodeId::MAX,
        0 < m < st.shape.nodes[c as int].key.len(),
        st.shape.aligned(m),
    ensures
        st.cut(c, m).wf(),
        forall|k: MambaCounter| #[trigger] st.cut(c, m).count(k) == st.count(k),
        st.cut(c, m).full_size() == st.full_size(),
        0 < m / st.shape.unit as int <= st.run(c).len(),
        (m / st.shape.unit as int) * st.shape.unit == m,
        st.shape.nodes[c as int].attached,
{
    let t = st.cut(c, m);
    let n = st.nodes.len();
    let f = n as NodeId;
    let unit = st.shape.unit as int;
    let len = st.shape.nodes[c as int].key.len() as int;
    assert(st.node_ok(c as int));
    topo::lemma_split_wf(st.shape, c, m);
    topo::lemma_path_grows(st.shape, c);
    topo::lemma_aligned(st.shape, len, m);
    vstd::arithmetic::div_mod::lemma_small_mod(0, st.shape.chunk());
    topo::lemma_aligned(st.shape, m, 0);
    chains::lemma_units(st.shape, c as int);
    tree_model::lemma_halves(len, m, unit);
    assert(t.shape.units(c as int) == (len - m) / unit);
    assert(t.shape.units(n as int) == m / unit);
    let mid = MambaState {
        shape: Shape { nodes: t.shape.nodes.drop_last(), ..t.shape },
        nodes: t.nodes.drop_last(),
        ..t
    };
    assert forall|k: MambaCounter, i: int| 0 <= i < n && i != c implies #[trigger] mid.weight(k, i) == st.weight(k, i) by {
        assert(mid.shape.nodes[i].key == st.shape.nodes[i].key);
    }
    lemma_counts_update(st, mid, c as int);
    assert forall|k: MambaCounter, i: int| 0 <= i < n implies #[trigger] t.weight(k, i) == mid.weight(k, i) by {
        assert(t.shape.nodes[i] == mid.shape.nodes[i]);
        assert(t.nodes[i] == mid.nodes[i]);
    }
    lemma_counts_push(mid, t);
    assert forall|k: MambaCounter| #[trigger] t.count(k) == st.count(k) by {
        assert(mid.count(k) == st.count(k) - st.weight(k, c as int) + mid.weight(k, c as int));
        assert(t.count(k) == mid.count(k) + t.weight(k, n as int));
        assert(mid.shape.units(c as int) == (len - m) / unit);
    }
    assert forall|i: int| 0 < i < t.nodes.len() implies #[trigger] t.node_ok(i) by {
        if i < n {
            assert(st.node_ok(i));
            assert(st.shape.hangs(i));
        }
    }
    assert(st.full.contains(c) && !st.full.contains(f));
    lru::lemma_with_pair(st.full, c, f);
    assert forall|id: NodeId| #[trigger] t.full.contains(id) <==> t.live(id) by {
        assert(st.full.contains(id) <==> st.live(id));
    }
    assert forall|id: NodeId| #[trigger] t.mamba.contains(id) <==> t.stateful(id) by {
        assert(st.mamba.contains(id) <==> st.stateful(id));
    }
}

/// A new leaf adds its tokens and its state to the evictable ones.
pub proof fn lemma_grown(st: MambaState, p: NodeId, ns: u32, key: Seq<i64>, value: Seq<i64>, mamba: Seq<i64>)
    requires
        st.wf(),
        st.shape.has(p),
        st.shape.nodes[p as int].attached,
        st.nodes.len() < NodeId::MAX,
        key.len() > 0,
        st.shape.aligned(key.len() as int),
        value.len() == key.len() as int / st.shape.unit as int,
        mamba.len() == 1,
        p != ROOT ==> st.shape.nodes[p as int].ns == ns,
        ns < st.names.len(),
        st.shape.child_of(p, ns, key.take(st.shape.chunk() as int)) is None,
        st.full_size() + value.len() <= i64::MAX,
        st.full_size() + value.len() <= usize::MAX,
    ensures
        ({
            let t = st.grown(p, ns, key, value, mamba);
            &&& t.wf()
            &&& t.count(MambaCounter::FullEvictable) == st.count(MambaCounter::FullEvictable) + value.len()
            &&& t.count(MambaCounter::FullProtected) == st.count(MambaCounter::FullProtected)
            &&& t.count(MambaCounter::MambaEvictable) == st.count(MambaCounter::MambaEvictable) + 1
            &&& t.count(MambaCounter::MambaProtected) == st.count(MambaCounter::MambaProtected)
        }),
{
    let t = st.grown(p, ns, key, value, mamba);
    let n = st.nodes.len();
    let f = n as NodeId;
    topo::lemma_graft_wf(st.shape, p, ns, key);
    assert forall|k: MambaCounter, i: int| 0 <= i < n implies #[trigger] t.weight(k, i) == st.weight(k, i) by {
        assert(t.shape.nodes[i] == st.shape.nodes[i]);
        assert(t.nodes[i] == st.nodes[i]);
    }
    lemma_counts_push(st, t);
    assert(t.shape.units(n as int) == value.len());
    assert forall|i: int| 0 < i < t.nodes.len() implies #[trigger] t.node_ok(i) by {
        if i < n {
            assert(st.node_ok(i));
            assert(st.shape.hangs(i));
        }
    }
    assert(!st.full.contains(f) && !st.mamba.contains(f));
    lru::lemma_insert(st.full, 0, f);
    assert(seq![f] + st.full =~= st.full.insert(0, f));
    lru::lemma_insert(st.mamba, 0, f);
    assert(seq![f] + st.mamba =~= st.mamba.insert(0, f));
    assert forall|id: NodeId| #[trigger] t.full.contains(id) <==> t.live(id) by {
        assert(st.full.contains(id) <==> st.live(id));
    }
    assert forall|id: NodeId| #[trigger] t.mamba.contains(id) <==> t.stateful(id) by {
        assert(st.mamba.contains(id) <==> st.stateful(id));
    }
}

/// Deleting an unlocked leaf takes its tokens and its state off the
/// evictable ones.
pub proof fn lemma_dropped(st: MambaState, x: NodeId)
    requires
        st.wf(),
        st.live(x),
        st.shape.is_leaf(x),
        st.nodes[x as int].full_lock == 0,
    ensures
        ({
            let t = st.dropped(x);
            let u = st.run(x).len();
            &&& t.wf()
            &&& t.count(MambaCounter::FullEvictable) == st.count(MambaCounter::FullEvictable) - u
            &&& t.count(MambaCounter::FullProtected) == st.count(MambaCounter::FullProtected)
            &&& t.count(MambaCounter::MambaEvictable) == st.count(MambaCounter::MambaEvictable) - (if st.nodes[x as int].mamba is Some {
                1int
            } else {
                0
            })
            &&& t.count(MambaCounter::MambaProtected) == st.count(MambaCounter::MambaProtected)
            &&& t.live_count() == st.live_count() - 1
            &&& t.live_count() >= 0
            &&& u == st.shape.units(x as int)
            &&& st.shape.nodes[x as int].attached
        }),
{
    let t = st.dropped(x);
    let n = st.nodes.len();
    topo::lemma_prune_wf(st.shape, x);
    topo::lemma_path_grows(st.shape, x);
    assert(st.node_ok(x as int));
    chains::lemma_units(st.shape, x as int);
    lemma_drop_counts(st, x);
    assert forall|k: MambaCounter, i: int| 0 <= i < n && i != x implies #[trigger] t.weight(k, i) == st.weight(k, i) by {
        assert(t.shape.nodes[i] == st.shape.nodes[i]);
    }
    lemma_counts_update(st, t, x as int);
    assert forall|i: int| 0 < i < n implies #[trigger] t.node_ok(i) by {
        assert(st.node_ok(i));
        assert(st.shape.hangs(i));
        if st.shape.nodes[i].attached {
            assert(st.shape.is_child(st.shape.nodes[i].parent, i as NodeId));
        }
    }
    assert(st.full.contains(x));
    let k = st.full.index_of(x);
    assert(st.full[k] == x);
    lru::lemma_remove(st.full, k);
    if st.nodes[x as int].mamba is Some {
        assert(st.mamba.contains(x));
        let j = st.mamba.index_of(x);
        assert(st.mamba[j] == x);
        lru::lemma_remove(st.mamba, j);
    }
    assert forall|id: NodeId| #[trigger] t.full.contains(id) <==> t.live(id) by {
        assert(st.full.contains(id) <==> st.live(id));
    }
    assert forall|id: NodeId| #[trigger] t.mamba.contains(id) <==> t.stateful(id) by {
        assert(st.mamba.contains(id) <==> st.stateful(id));
    }
}

/// Taking an unlocked state off a node keeps the tree possible.
pub proof fn lemma_buried(st: MambaState, x: NodeId)
    requires
        st.wf(),
        st.stateful(x),
        st.nodes[x as int].mamba_lock == 0,
    ensures
        ({
            let t = st.buried(x);
            &&& t.wf()
            &&& st.mamba.contains(x)
            &&& t.count(MambaCounter::FullEvictable) == st.count(MambaCounter::FullEvictable)
            &&& t.count(MambaCounter::FullProtected) == st.count(MambaCounter::FullProtected)
            &&& t.count(MambaCounter::MambaEvictable) == st.count(MambaCounter::MambaEvictable) - 1
            &&& t.count(MambaCounter::MambaProtected) == st.count(MambaCounter::MambaProtected)
        }),
{
    assert(st.mamba.contains(x));
    let k = st.mamba.index_of(x);
    assert(st.mamba[k] == x);
    lru::lemma_remove(st.mamba, k);
    let mamba = lru::without(st.mamba, x);
    let n = MambaNodeState { mamba: None, ..st.nodes[x as int] };
    assert(st.node_ok(x as int));
    lemma_patched(st, x, n, mamba);
    assert(st.buried(x) == (MambaState { mamba, ..st.patched(x, n) }));
}

/// Giving a tombstone a state keeps the tree possible.
pub proof fn lemma_revived(st: MambaState, x: NodeId, slot: Seq<i64>)
    requires
        st.wf(),
        st.live(x),
        st.nodes[x as int].mamba is None,
        slot.len() == 1,
    ensures
        ({
            let t = st.revived(x, slot);
            &&& t.wf()
            &&& !st.mamba.contains(x)
            &&& t.count(MambaCounter::FullEvictable) == st.count(MambaCounter::FullEvictable)
            &&& t.count(MambaCounter::FullProtected) == st.count(MambaCounter::FullProtected)
            &&& t.count(MambaCounter::MambaEvictable) == st.count(MambaCounter::MambaEvictable) + 1
            &&& t.count(MambaCounter::MambaProtected) == st.count(MambaCounter::MambaProtected)
        }),
{
    assert(!st.mamba.contains(x));
    lru::lemma_insert(st.mamba, 0, x);
    let mamba = seq![x] + st.mamba;
    assert(mamba =~= st.mamba.insert(0, x));
    let n = MambaNodeState { mamba: Some(slot), ..st.nodes[x as int] };
    assert(st.node_ok(x as int));
    lemma_patched(st, x, n, mamba);
    assert(st.revived(x, slot) == (MambaState { mamba, ..st.patched(x, n) }));
}

/// A walk past a node changes the full order alone.
pub proof fn lemma_passed(st: MambaState, x: NodeId)
    requires
        st.wf(),
    ensures
        st.passed(x).wf(),
        forall|c: MambaCounter| #[trigger] st.passed(x).count(c) == st.count(c),
        st.passed(x).full_size() == st.full_size(),
{
    lru::law_touch_keeps_members(st.full, x);
    lemma_reordered(st, st.passed(x));
}

/// The nodes on the way up from a live node are live.
pub proof fn lemma_up_live(st: MambaState, id: NodeId)
    requires
        st.wf(),
        id == ROOT || st.live(id),
    ensures
        st.shape.up(id).no_duplicates(),
        forall|k: int| 0 <= k < st.shape.up(id).len() ==> st.live(#[trigger] st.shape.up(id)[k]),
        forall|k: int|
            0 <= k < st.shape.up(id).len() ==> st.full.contains(#[trigger] st.shape.up(id)[k]),
        id != ROOT ==> st.shape.up(id).len() > 0 && st.shape.up(id)[0] == id,
    decreases st.shape.nodes[id as int].path.len(),
{
    topo::lemma_up(st.shape, id);
    if id != ROOT {
        topo::lemma_path_grows(st.shape, id);
        assert(st.node_ok(id as int));
        let p = st.shape.nodes[id as int].parent;
        if p != ROOT {
            assert(st.node_ok(p as int));
        }
        lemma_up_live(st, p);
        assert forall|k: int| 0 <= k < st.shape.up(id).len() implies st.live(#[trigger] st.shape.up(id)[k]) by {
            if k > 0 {
                assert(st.shape.up(id)[k] == st.shape.up(p)[k - 1]);
            }
        }
    }
}

/// Moving a path to the front changes the recency orders alone.
pub proof fn lemma_refreshed(st: MambaState, node: NodeId)
    requires
        st.wf(),
        node == ROOT || st.live(node),
    ensures
        st.refreshed(node).wf(),
        forall|c: MambaCounter| #[trigger] st.refreshed(node).count(c) == st.count(c),
{
    lemma_up_live(st, node);
    lru::law_lift_keeps_members(st.full, st.shape.up(node));
    lru::law_touch_keeps_members(st.mamba, node);
    lemma_reordered(st, st.refreshed(node));
}

/// A cascade takes the tokens that it reports.
pub proof fn lemma_cascade(st: MambaState, p: NodeId, out: MambaFreed)
    requires
        st.wf(),
    ensures
        ({
            let (a, o, n) = st.cascade(p, out);
            &&& a.wf()
            &&& n >= 0
            &&& n + a.full_size() == st.full_size()
            &&& ready_but(st, p) ==> a.evict_ready()
        }),
    decreases st.live_count(),
{
    if st.orphaned(p) {
        lemma_dropped(st, p);
        if ready_but(st, p) {
            lemma_ready_dropped(st, p);
        }
        lemma_cascade(
            st.dropped(p),
            st.shape.nodes[p as int].parent,
            MambaFreed { kv: out.kv.push((st.run(p), 0)), ..out },
        );
    }
}

/// The eviction of a leaf takes the tokens that it reports, and leaves the
/// tree ready for the next one.
pub proof fn lemma_evict_leaf(st: MambaState, x: NodeId, out: MambaFreed)
    requires
        st.wf(),
        st.live(x),
        st.shape.is_leaf(x),
        st.nodes[x as int].full_lock == 0,
    ensures
        ({
            let (a, o, n) = st.evict_leaf(x, out);
            &&& a.wf()
            &&& n >= 0
            &&& n + a.full_size() == st.full_size()
            &&& st.evict_ready() ==> a.evict_ready()
        }),
{
    lemma_dropped(st, x);
    if st.evict_ready() {
        lemma_ready_dropped(st, x);
    }
    lemma_cascade(
        st.dropped(x),
        st.shape.nodes[x as int].parent,
        MambaFreed {
            kv: out.kv.push((st.run(x), 0)),
            mamba: out.mamba.push(st.nodes[x as int].mamba->0),
        },
    );
}

/// Ready for an eviction but for `p`, which may be an orphaned tombstone.
pub open spec fn ready_but(st: MambaState, p: NodeId) -> bool {
    &&& forall|x: NodeId|
        #![trigger st.live(x)]
        x != p && st.live(x) && st.shape.is_leaf(x) && st.nodes[x as int].full_lock == 0 ==> st.nodes[x as int].mamba
            is Some
    &&& forall|x: NodeId|
        #![trigger st.stateful(x)]
        st.stateful(x) && st.nodes[x as int].full_lock > 0 && st.nodes[x as int].mamba_lock == 0
            ==> st.has_locked_child(x)
}

/// A deleted leaf leaves only its parent behind.
proof fn lemma_ready_dropped(st: MambaState, x: NodeId)
    requires
        st.wf(),
        st.live(x),
        st.shape.is_leaf(x),
        st.nodes[x as int].full_lock == 0,
        ready_but(st, x),
    ensures
        ready_but(st.dropped(x), st.shape.nodes[x as int].parent),
{
    let t = st.dropped(x);
    let p = st.shape.nodes[x as int].parent;
    assert forall|y: NodeId|
        #![trigger t.live(y)]
        y != p && t.live(y) && t.shape.is_leaf(y) && t.nodes[y as int].full_lock == 0 implies t.nodes[y as int].mamba is Some by {
        assert(st.live(y));
        assert(st.shape.is_leaf(y)) by {
            assert forall|c: NodeId| !(#[trigger] st.shape.is_child(y, c)) by {
                assert(!t.shape.is_child(y, c));
            }
        }
    }
    assert forall|y: NodeId|
        #![trigger t.stateful(y)]
        t.stateful(y) && t.nodes[y as int].full_lock > 0 && t.nodes[y as int].mamba_lock == 0 implies t.has_locked_child(y) by {
        assert(st.stateful(y));
        assert(st.has_locked_child(y));
        let c = choose|c: NodeId| #[trigger] st.shape.is_child(y, c) && st.nodes[c as int].full_lock > 0;
        assert(t.shape.is_child(y, c));
    }
}

/// An inner node that loses its state leaves the tree ready.
pub proof fn lemma_ready_buried(st: MambaState, x: NodeId)
    requires
        st.wf(),
        st.stateful(x),
        !st.shape.is_leaf(x),
        st.evict_ready(),
    ensures
        st.buried(x).evict_ready(),
{
    let t = st.buried(x);
    assert forall|y: NodeId|
        #![trigger t.live(y)]
        t.live(y) && t.shape.is_leaf(y) && t.nodes[y as int].full_lock == 0 implies t.nodes[y as int].mamba is Some by {
        assert(st.live(y));
    }
    assert forall|y: NodeId|
        #![trigger t.stateful(y)]
        t.stateful(y) && t.nodes[y as int].full_lock > 0 && t.nodes[y as int].mamba_lock == 0 implies t.has_locked_child(y) by {
        assert(st.stateful(y));
        assert(st.has_locked_child(y));
        let c = choose|c: NodeId| #[trigger] st.shape.is_child(y, c) && st.nodes[c as int].full_lock > 0;
        assert(t.shape.is_child(y, c));
    }
}

/// A cut leaves the nodes of the chain live, and adds the front to it.
pub proof fn lemma_cut_chain(st: MambaState, chain: Seq<NodeId>, c: NodeId, m: int)
    requires
        st.wf(),
        st.live(c),
        st.nodes.len() < NodeId::MAX,
        chain_of(st, chain),
        !chain.contains(c),
    ensures
        chain_of(st.cut(c, m), chain.push(st.nodes.len() as NodeId)),
{
    let f = st.nodes.len() as NodeId;
    let t = st.cut(c, m);
    let ids = chain.push(f);
    assert forall|j: int| 0 <= j < ids.len() implies t.live(#[trigger] ids[j]) by {
        if j < chain.len() {
            assert(ids[j] == chain[j]);
            assert(st.live(chain[j]));
            assert(chain.contains(chain[j]));
        }
    }
    assert forall|i: int, j: int| 0 <= i < ids.len() && 0 <= j < ids.len() && i != j implies ids[i] != ids[j] by {
        if i < chain.len() {
            assert(st.live(chain[i]));
        }
        if j < chain.len() {
            assert(st.live(chain[j]));
        }
    }
}

} // verus!
