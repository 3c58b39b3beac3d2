//! The model of the sliding-window tree: what each operation does to its state.

use crate::key::RadixKey;
use crate::lru;
use crate::ns::Names;
use crate::query;
use crate::query::Frame;
use crate::seqs;
use crate::topo;
use crate::topo::{NodeId, Shape, ROOT};
use crate::tree_model;
use vstd::prelude::*;

verus! {

/// What one node caches.
#[verifier::ext_equal]
pub struct SWANodeState {
    pub value: Option<Seq<i64>>,
    pub full_lock: u32,
    pub swa_lock: u32,
    pub tombstone: bool,
    pub uuid: Option<u64>,
}

/// The state of a tree. `full` and `swa` are the two recency orders, most
/// recently used first; the four size counters follow from the rest.
#[verifier::ext_equal]
pub struct SWAState {
    pub shape: Shape,
    pub nodes: Seq<SWANodeState>,
    pub names: Seq<Names>,
    pub is_eagle: bool,
    pub disable: bool,
    pub window: nat,
    pub uuids: u64,
    pub full: Seq<NodeId>,
    pub swa: Seq<NodeId>,
}

/// Runs handed back to the caller.
#[verifier::ext_equal]
pub struct Freed {
    pub kv: Seq<Seq<i64>>,
    pub full: Seq<Seq<i64>>,
    pub swa: Seq<Seq<i64>>,
    pub recover: Seq<(Seq<i64>, Seq<i64>)>,
}

impl Freed {
    /// Nothing.
    pub open spec fn none() -> Freed {
        Freed { kv: Seq::empty(), full: Seq::empty(), swa: Seq::empty(), recover: Seq::empty() }
    }
}

/// The four size counters.
pub enum Counter {
    FullEvictable,
    FullProtected,
    SwaEvictable,
    SwaProtected,
}

/// The best prefix found so far by a match: tokens since the last tombstone
/// (`None`: no tombstone since the root), number of runs, and node.
#[verifier::ext_equal]
pub struct Scan {
    pub since: Option<nat>,
    pub len: nat,
    pub node: NodeId,
}

impl SWAState {
    /// An empty tree.
    pub open spec fn fresh(page: nat, is_eagle: bool, disable: bool, window: nat) -> SWAState {
        SWAState {
            shape: Shape::bare(page, if is_eagle { 2 } else { 1 }),
            nodes: seq![
                SWANodeState {
                    value: Some(Seq::empty()),
                    full_lock: 1,
                    swa_lock: 1,
                    tombstone: false,
                    uuid: None,
                },
            ],
            names: Seq::empty(),
            is_eagle,
            disable,
            window,
            uuids: 1,
            full: Seq::empty(),
            swa: Seq::empty(),
        }
    }

    /// What decides how a key is followed.
    pub open spec fn frame(self) -> Frame {
        Frame { shape: self.shape, names: self.names, is_eagle: self.is_eagle }
    }

    /// Whether `id` names a live node below the root.
    pub open spec fn live(self, id: NodeId) -> bool {
        0 < id < self.nodes.len() && self.nodes[id as int].value is Some
    }

    /// Whether `id` names a live node with live window slots.
    pub open spec fn windowed(self, id: NodeId) -> bool {
        self.live(id) && !self.nodes[id as int].tombstone
    }

    /// Tokens of node `i` that count towards `c`.
    pub open spec fn weight(self, c: Counter, i: int) -> int {
        let n = self.nodes[i];
        if i <= 0 || n.value is None {
            0
        } else if match c {
            Counter::FullEvictable => n.full_lock == 0,
            Counter::FullProtected => n.full_lock > 0,
            Counter::SwaEvictable => !n.tombstone && n.swa_lock == 0,
            Counter::SwaProtected => !n.tombstone && n.swa_lock > 0,
        } {
            self.shape.units(i)
        } else {
            0
        }
    }

    /// The value of a size counter.
    pub open spec fn count(self, c: Counter) -> int {
        seqs::total(|i: int| self.weight(c, i), self.nodes.len())
    }

    /// Tokens in live nodes.
    pub open spec fn full_size(self) -> int {
        self.count(Counter::FullEvictable) + self.count(Counter::FullProtected)
    }

    /// Tokens with live window slots.
    pub open spec fn swa_size(self) -> int {
        self.count(Counter::SwaEvictable) + self.count(Counter::SwaProtected)
    }

    /// Number of live nodes.
    pub open spec fn live_count(self) -> int {
        seqs::total(|i: int| if self.nodes[i].value is Some { 1 } else { 0 }, self.nodes.len())
    }

    /// Node `i` is live exactly while its parent lists it, holds one index
    /// per logical unit, and hangs below a live node; window slots that are
    /// gone are not locked, and a window lock comes with a full lock.
    pub open spec fn node_ok(self, i: int) -> bool {
        let spot = self.shape.nodes[i];
        let n = self.nodes[i];
        &&& n.value is Some <==> spot.attached
        &&& n.value is Some ==> n.value->0.len() == self.shape.units(i)
        &&& spot.attached ==> self.shape.nodes[spot.parent as int].attached
        &&& n.tombstone ==> n.swa_lock == 0
        &&& n.full_lock >= n.swa_lock
        &&& spot.ns < self.names.len()
    }

    /// A possible state of a tree.
    pub open spec fn wf(self) -> bool {
        &&& self.frame().wf()
        &&& self.nodes.len() == self.shape.nodes.len()
        &&& self.nodes[0].value == Some(Seq::<i64>::empty())
        &&& !self.nodes[0].tombstone
        &&& self.nodes[0].full_lock == 1
        &&& self.nodes[0].swa_lock == 1
        &&& forall|i: int| 0 < i < self.nodes.len() ==> #[trigger] self.node_ok(i)
        &&& self.full.no_duplicates()
        &&& self.swa.no_duplicates()
        &&& forall|id: NodeId| #[trigger] self.full.contains(id) <==> self.live(id)
        &&& forall|id: NodeId| #[trigger] self.swa.contains(id) <==> self.windowed(id)
        &&& self.full_size() <= i64::MAX
        &&& self.full_size() <= usize::MAX
    }

    /// Node `c` cut after `m` flattened elements: the front inherits locks,
    /// tombstone and lock boundary, the tail loses the boundary; both move
    /// to the front of the recency orders, the tail first.
    pub open spec fn cut(self, c: NodeId, m: int) -> SWAState {
        let n = self.nodes[c as int];
        let u = m / self.shape.unit as int;
        let f = self.nodes.len() as NodeId;
        let front = SWANodeState { value: Some(n.value->0.take(u)), ..n };
        let tail = SWANodeState { value: Some(n.value->0.skip(u)), uuid: None, ..n };
        SWAState {
            shape: self.shape.split(c, m),
            nodes: self.nodes.update(c as int, tail).push(front),
            full: lru::with_pair(self.full, c, f),
            swa: if n.tombstone {
                self.swa
            } else {
                lru::with_pair(self.swa, c, f)
            },
            ..self
        }
    }

    /// A new unlocked leaf below `p`.
    pub open spec fn grown(
        self,
        p: NodeId,
        ns: u32,
        key: Seq<i64>,
        value: Seq<i64>,
        tombstone: bool,
    ) -> SWAState {
        let f = self.nodes.len() as NodeId;
        SWAState {
            shape: self.shape.graft(p, ns, key),
            nodes: self.nodes.push(
                SWANodeState {
                    value: Some(value),
                    full_lock: 0,
                    swa_lock: 0,
                    tombstone,
                    uuid: None,
                },
            ),
            full: seq![f] + self.full,
            swa: if tombstone {
                self.swa
            } else {
                seq![f] + self.swa
            },
            ..self
        }
    }

    /// Node `x` deleted.
    pub open spec fn dropped(self, x: NodeId) -> SWAState {
        let n = self.nodes[x as int];
        SWAState {
            shape: self.shape.prune(x),
            nodes: self.nodes.update(x as int, SWANodeState { value: None, ..n }),
            full: lru::without(self.full, x),
            swa: if n.tombstone {
                self.swa
            } else {
                lru::without(self.swa, x)
            },
            ..self
        }
    }

    /// Node `id` with the contents `n` instead.
    pub open spec fn patched(self, id: NodeId, n: SWANodeState) -> SWAState {
        SWAState { nodes: self.nodes.update(id as int, n), ..self }
    }

    /// Node `x` loses its window slots.
    pub open spec fn buried(self, x: NodeId) -> SWAState {
        SWAState {
            swa: lru::without(self.swa, x),
            ..self.patched(x, SWANodeState { tombstone: true, ..self.nodes[x as int] })
        }
    }

    /// Node `x` has window slots again, and holds `value`.
    pub open spec fn revived(self, x: NodeId, value: Seq<i64>) -> SWAState {
        SWAState {
            swa: seq![x] + self.swa,
            ..self.patched(
                x,
                SWANodeState { tombstone: false, value: Some(value), ..self.nodes[x as int] },
            )
        }
    }

    /// A walk passes node `x`.
    pub open spec fn passed(self, x: NodeId) -> SWAState {
        SWAState {
            full: lru::touched(self.full, x),
            swa: lru::touched(self.swa, x),
            ..self
        }
    }

    /// The node's value.
    pub open spec fn run(self, x: NodeId) -> Seq<i64> {
        self.nodes[x as int].value->0
    }

    // ---- match ----

    /// Whether a prefix with `since` tokens after its last tombstone is
    /// usable: it needs a full window of them.
    pub open spec fn window_ok(self, since: Option<nat>) -> bool {
        match since {
            None => true,
            Some(n) => n >= self.window,
        }
    }

    /// The best prefix after the first `k` nodes of `visited`.
    pub open spec fn scan(self, visited: Seq<NodeId>, k: nat) -> Scan
        decreases k,
    {
        if k == 0 {
            Scan { since: None, len: 0, node: ROOT }
        } else {
            let s = self.scan(visited, (k - 1) as nat);
            let c = visited[k - 1];
            let before = if k == 1 { ROOT } else { visited[k - 2] };
            if self.nodes[c as int].tombstone {
                if self.window_ok(s.since) {
                    Scan { since: Some(0), len: (k - 1) as nat, node: before }
                } else {
                    Scan { since: Some(0), ..s }
                }
            } else {
                match s.since {
                    None => s,
                    Some(n) => Scan { since: Some(n + self.run(c).len()), ..s },
                }
            }
        }
    }

    /// The best prefix of the whole path: number of runs, and node.
    pub open spec fn best(self, visited: Seq<NodeId>) -> (nat, NodeId) {
        let s = self.scan(visited, visited.len());
        if self.window_ok(s.since) {
            (visited.len(), topo::end_of(visited))
        } else {
            (s.len, s.node)
        }
    }

    /// The nodes of `ids` that are no tombstones.
    pub open spec fn kept(self, ids: Seq<NodeId>) -> Seq<NodeId>
        decreases ids.len(),
    {
        if ids.len() == 0 {
            Seq::empty()
        } else if self.nodes[ids.last() as int].tombstone {
            self.kept(ids.drop_last())
        } else {
            self.kept(ids.drop_last()).push(ids.last())
        }
    }

    /// The runs of the nodes `ids`, one after the other.
    pub open spec fn gathered(self, ids: Seq<NodeId>) -> Seq<i64>
        decreases ids.len(),
    {
        if ids.len() == 0 {
            Seq::empty()
        } else {
            self.gathered(ids.drop_last()) + self.run(ids.last())
        }
    }

    /// The state after the walk of a match, and the nodes it visits: a node
    /// matched in part is cut.
    pub open spec fn after_walk(self, key: RadixKey) -> (SWAState, Seq<NodeId>) {
        let w = self.frame().walk(key);
        let st = SWAState { names: self.frame().names_with(key), ..self };
        match w.stop {
            None => (st, w.chain),
            Some((c, m)) => (st.cut(c, m as int), w.chain.push(self.nodes.len() as NodeId)),
        }
    }

    /// The path up from `node` moved to the front of both recency orders,
    /// tombstones left out of the window order.
    pub open spec fn refreshed(self, node: NodeId) -> SWAState {
        let up = self.shape.up(node);
        SWAState { full: lru::lifted(self.full, up), swa: lru::lifted(self.swa, self.kept(up)), ..self }
    }

    /// The state after a match of `key`, the indices and the node it returns.
    pub open spec fn after_match(self, key: RadixKey) -> (SWAState, Seq<i64>, NodeId) {
        if self.disable || self.frame().flat(key).len() == 0 {
            (self, Seq::empty(), ROOT)
        } else {
            let (st, visited) = self.after_walk(key);
            let (len, node) = st.best(visited);
            (st.refreshed(node), st.gathered(visited.take(len as int)), node)
        }
    }
}

/// Tokens and runs taken by an eviction.
#[verifier::ext_equal]
pub struct Tally {
    pub full: int,
    pub swa: int,
    pub out: Freed,
}

impl SWAState {
    // ---- insert ----

    /// An insert meets the node `v`, whose run starts `total` tokens into the
    /// key, with the incoming indices `val`. Up to `upd` tokens the caller
    /// shares the tree's indices already; past them the overlap is handed
    /// back, or taken over where the node lost its window slots and the
    /// incoming ones, evicted up to `evicted`, still have theirs.
    pub open spec fn absorb(
        self,
        v: NodeId,
        total: int,
        val: Seq<i64>,
        upd: int,
        evicted: int,
        out: Freed,
    ) -> (SWAState, Freed) {
        let n = self.nodes[v as int];
        let len = self.run(v).len() as int;
        if upd >= total + len {
            (self, out)
        } else if !n.tombstone || evicted >= total + len {
            (self, Freed { kv: out.kv.push(val.take(len)), ..out })
        } else if evicted <= total {
            if n.full_lock > 0 {
                (
                    self.revived(v, self.run(v)),
                    Freed {
                        recover: out.recover.push((self.run(v), val.take(len))),
                        full: out.full.push(val.take(len)),
                        ..out
                    },
                )
            } else {
                (self.revived(v, val.take(len)), Freed { kv: out.kv.push(self.run(v)), ..out })
            }
        } else {
            let s = evicted - total;
            let st = self.cut(v, s * self.shape.unit);
            let fresh = val.subrange(s, len);
            if n.full_lock > 0 {
                (
                    st.revived(v, st.run(v)),
                    Freed {
                        recover: out.recover.push((st.run(v), fresh)),
                        full: out.full.push(fresh),
                        kv: out.kv.push(val.take(s)),
                        ..out
                    },
                )
            } else {
                (
                    st.revived(v, fresh),
                    Freed { kv: out.kv.push(self.run(v).skip(s)).push(val.take(s)), ..out },
                )
            }
        }
    }

    /// An insert has met the first `k` nodes of `chain`: the state, the runs
    /// handed back and the tokens passed.
    pub open spec fn met(
        self,
        chain: Seq<NodeId>,
        k: nat,
        val: Seq<i64>,
        upd: int,
        evicted: int,
    ) -> (SWAState, Freed, int)
        decreases k,
    {
        if k == 0 {
            (self, Freed::none(), 0)
        } else {
            let (a, out, total) = self.met(chain, (k - 1) as nat, val, upd, evicted);
            let c = chain[k - 1];
            let (t, o) = a.passed(c).absorb(c, total, val.skip(total), upd, evicted, out);
            (t, o, total + a.run(c).len())
        }
    }

    /// The walk of an insert: the state, the runs handed back, and the node
    /// it stands at. A node matched in part is cut, and its front is met.
    pub open spec fn after_insert_walk(
        self,
        key: RadixKey,
        val: Seq<i64>,
        upd: int,
        evicted: int,
    ) -> (SWAState, Freed, NodeId) {
        let w = self.frame().walk(key);
        let st = SWAState { names: self.frame().names_with(key), ..self };
        let (a, out, total) = st.met(w.chain, w.chain.len(), val, upd, evicted);
        match w.stop {
            None => (a, out, topo::end_of(w.chain)),
            Some((c, m)) => {
                let f = a.nodes.len() as NodeId;
                let (t, o) = a.passed(c).cut(c, m as int).absorb(
                    f,
                    total,
                    val.skip(total),
                    upd,
                    evicted,
                    out,
                );
                (t, o, f)
            },
        }
    }

    /// The state after an insert, the runs handed back and the last node.
    /// Of a part that is not in the tree yet, tokens whose window slots are
    /// gone become a tombstone of their own; if all are gone, none is added.
    pub open spec fn after_insert(
        self,
        key: RadixKey,
        value: Seq<i64>,
        upd: int,
        evicted: int,
    ) -> (SWAState, Freed, NodeId) {
        let flat = self.frame().flat(key);
        if self.disable || flat.len() == 0 {
            (self, Freed::none(), ROOT)
        } else {
            let units = self.frame().units(key);
            let unit = self.shape.unit as int;
            let val = value.take(units);
            let total = self.frame().prefix_len(key);
            let used = self.frame().walk(key).used as int;
            let ns = self.frame().ns_of(key);
            let (st, out, p) = self.after_insert_walk(key, val, upd, evicted);
            if used == flat.len() {
                (st, out, p)
            } else if evicted == units {
                (st, Freed { kv: out.kv.push(val.skip(total)), ..out }, p)
            } else if total < evicted < units {
                let q = st.nodes.len() as NodeId;
                let mid = evicted * unit;
                let a = st.grown(p, ns, flat.subrange(used, mid), val.subrange(total, evicted), true);
                (
                    a.grown(q, ns, flat.skip(mid), val.skip(evicted), false),
                    out,
                    (q + 1) as NodeId,
                )
            } else {
                (
                    st.grown(p, ns, flat.skip(used), val.skip(total), false),
                    out,
                    st.nodes.len() as NodeId,
                )
            }
        }
    }

    // ---- locks ----

    /// One step of locking: `size` tokens of the window are locked already.
    /// The node where the window fills up is marked as the boundary.
    pub open spec fn lock_step(self, id: NodeId, size: int) -> (SWAState, int, Option<u64>) {
        let n = self.nodes[id as int];
        let full_lock = (n.full_lock + 1) as u32;
        if size < self.window {
            let swa_lock = (n.swa_lock + 1) as u32;
            let size1 = size + self.run(id).len();
            if size1 >= self.window {
                match n.uuid {
                    Some(u) => (
                        self.patched(id, SWANodeState { full_lock, swa_lock, ..n }),
                        size1,
                        Some(u),
                    ),
                    None => {
                        let u = (self.uuids + 1) as u64;
                        (
                            SWAState {
                                uuids: u,
                                ..self.patched(
                                    id,
                                    SWANodeState { full_lock, swa_lock, uuid: Some(u), ..n },
                                )
                            },
                            size1,
                            Some(u),
                        )
                    },
                }
            } else {
                (self.patched(id, SWANodeState { full_lock, swa_lock, ..n }), size1, None)
            }
        } else {
            (self.patched(id, SWANodeState { full_lock, ..n }), size, None)
        }
    }

    /// The first `k` nodes of `up` locked: the state, the window tokens
    /// locked, and the boundary mark.
    pub open spec fn lock_steps(self, up: Seq<NodeId>, k: nat) -> (SWAState, int, Option<u64>)
        decreases k,
    {
        if k == 0 {
            (self, 0, None)
        } else {
            let (a, size, mark) = self.lock_steps(up, (k - 1) as nat);
            let (b, size1, mark1) = a.lock_step(up[k - 1], size);
            (
                b,
                size1,
                if mark1 is Some {
                    mark1
                } else {
                    mark
                },
            )
        }
    }

    /// Tokens of the first `k` nodes of `up`.
    pub open spec fn depth(self, up: Seq<NodeId>, k: nat) -> int
        decreases k,
    {
        if k == 0 {
            0
        } else {
            self.depth(up, (k - 1) as nat) + self.run(up[k - 1]).len()
        }
    }

    /// The path up from `node` locked, the window part up to the boundary.
    pub open spec fn locked(self, node: NodeId) -> (SWAState, Option<u64>) {
        let up = self.shape.up(node);
        let (st, size, mark) = self.lock_steps(up, up.len());
        (st, mark)
    }

    /// Whether a release that ends at the mark `uuid` still goes on at the
    /// `k`-th node of `up`: no node before it bears the mark.
    pub open spec fn unmarked(self, up: Seq<NodeId>, k: int, uuid: Option<u64>) -> bool {
        forall|j: int| 0 <= j < k ==> uuid is None || self.nodes[(#[trigger] up[j]) as int].uuid != uuid
    }

    /// Full locks taken off the first `k` nodes of `up`, window locks as
    /// far as the mark unless `skip`.
    pub open spec fn unlocked(
        self,
        up: Seq<NodeId>,
        k: int,
        uuid: Option<u64>,
        skip: bool,
    ) -> SWAState {
        SWAState {
            nodes: Seq::new(
                self.nodes.len(),
                |i: int|
                    {
                        let j = up.index_of(i as NodeId);
                        let n = self.nodes[i];
                        if !up.take(k).contains(i as NodeId) {
                            n
                        } else if !skip && self.unmarked(up, j, uuid) {
                            SWANodeState {
                                full_lock: (n.full_lock - 1) as u32,
                                swa_lock: (n.swa_lock - 1) as u32,
                                ..n
                            }
                        } else {
                            SWANodeState { full_lock: (n.full_lock - 1) as u32, ..n }
                        }
                    },
            ),
            ..self
        }
    }

    /// One window lock taken off `id`; a leaf that has none left loses its
    /// window slots at once.
    pub open spec fn release_step(self, id: NodeId) -> (SWAState, Seq<Seq<i64>>) {
        let n = self.nodes[id as int];
        let m = SWANodeState { swa_lock: (n.swa_lock - 1) as u32, ..n };
        if n.swa_lock == 1 && self.shape.is_leaf(id) {
            (self.patched(id, m).buried(id), seq![self.run(id)])
        } else {
            (self.patched(id, m), Seq::empty())
        }
    }

    /// Window locks taken off the first `k` nodes of `up`.
    pub open spec fn release_steps(self, up: Seq<NodeId>, k: nat) -> (SWAState, Seq<Seq<i64>>)
        decreases k,
    {
        if k == 0 {
            (self, Seq::empty())
        } else {
            let (a, out) = self.release_steps(up, (k - 1) as nat);
            let (b, more) = a.release_step(up[k - 1]);
            (b, out + more)
        }
    }

    /// How many nodes of `up`, from the `k`-th on, a release that ends at
    /// the mark `uuid` passes, with those before.
    pub open spec fn release_len(self, up: Seq<NodeId>, k: nat, uuid: Option<u64>) -> nat
        decreases up.len() - k,
    {
        if k >= up.len() {
            up.len()
        } else if uuid is Some && self.nodes[up[k as int] as int].uuid == uuid {
            k + 1
        } else {
            self.release_len(up, k + 1, uuid)
        }
    }

    // ---- evict ----

    /// The least recently used unlocked leaf of `order`.
    pub open spec fn lru_leaf(self, order: Seq<NodeId>) -> Option<NodeId>
        decreases order.len(),
    {
        if order.len() == 0 {
            None
        } else if self.nodes[order.last() as int].full_lock == 0 && self.shape.is_leaf(order.last()) {
            Some(order.last())
        } else {
            self.lru_leaf(order.drop_last())
        }
    }

    /// The least recently used node of `order` without a window lock.
    pub open spec fn lru_unlocked(self, order: Seq<NodeId>) -> Option<NodeId>
        decreases order.len(),
    {
        if order.len() == 0 {
            None
        } else if self.nodes[order.last() as int].swa_lock == 0 {
            Some(order.last())
        } else {
            self.lru_unlocked(order.drop_last())
        }
    }

    /// Whether `p` is a tombstone that its last child has left behind.
    pub open spec fn orphaned(self, p: NodeId) -> bool {
        &&& self.live(p)
        &&& self.nodes[p as int].tombstone
        &&& self.shape.is_leaf(p)
        &&& self.nodes[p as int].full_lock == 0
    }

    /// Orphaned tombstones deleted from `p` upwards: the state, the runs and
    /// their tokens.
    pub open spec fn cascade(self, p: NodeId, out: Freed) -> (SWAState, Freed, int)
        decreases self.live_count(),
    {
        if self.orphaned(p) {
            proof {
                lemma_drop_counts(self, p);
            }
            let v = self.run(p);
            let (st, o, n) = self.dropped(p).cascade(
                self.shape.nodes[p as int].parent,
                Freed { full: out.full.push(v), ..out },
            );
            (st, o, n + v.len())
        } else {
            (self, out, 0)
        }
    }

    /// The leaf `x` deleted, with the tombstones it leaves behind; the last
    /// component counts the tokens of those.
    pub open spec fn evict_leaf(self, x: NodeId, t: Tally) -> (SWAState, Tally, int) {
        let v = self.run(x);
        let tombstone = self.nodes[x as int].tombstone;
        let out = if tombstone {
            Freed { full: t.out.full.push(v), ..t.out }
        } else {
            Freed { kv: t.out.kv.push(v), ..t.out }
        };
        let (st, o, n) = self.dropped(x).cascade(self.shape.nodes[x as int].parent, out);
        (
            st,
            Tally {
                full: t.full + v.len(),
                swa: t.swa + (if tombstone {
                    0
                } else {
                    v.len() as int
                }),
                out: o,
            },
            n,
        )
    }

    /// Unlocked leaves deleted, least recently used first, until `budget`
    /// tokens are gone or none is left.
    pub open spec fn evict_full(self, budget: int, t: Tally) -> (SWAState, Tally)
        decreases self.live_count(),
    {
        match self.lru_leaf(self.full) {
            Some(x) => if t.full < budget && self.live(x) {
                let (st, t1, n) = self.evict_leaf(x, t);
                proof {
                    lemma_drop_counts(self, x);
                    lemma_cascade_counts(
                        self.dropped(x),
                        self.shape.nodes[x as int].parent,
                        if self.nodes[x as int].tombstone {
                            Freed { full: t.out.full.push(self.run(x)), ..t.out }
                        } else {
                            Freed { kv: t.out.kv.push(self.run(x)), ..t.out }
                        },
                    );
                }
                st.evict_full(budget, Tally { full: t1.full + n, ..t1 })
            } else {
                (self, t)
            },
            None => (self, t),
        }
    }

    /// One step of the window eviction of `x`: an inner node, or a leaf
    /// that is still locked, only loses its window slots; another leaf is
    /// deleted.
    pub open spec fn evict_swa_step(self, x: NodeId, t: Tally) -> (SWAState, Tally) {
        let v = self.run(x);
        if !self.shape.is_leaf(x) || self.nodes[x as int].full_lock > 0 {
            (
                self.buried(x),
                Tally {
                    swa: t.swa + v.len(),
                    out: Freed { swa: t.out.swa.push(v), ..t.out },
                    ..t
                },
            )
        } else {
            let (st, t1, n) = self.evict_leaf(x, t);
            (st, t1)
        }
    }

    /// Window slots freed, least recently used first, until `budget` tokens
    /// are gone or none is left.
    pub open spec fn evict_swa(self, budget: int, t: Tally) -> (SWAState, Tally)
        decreases self.swa.len(),
    {
        match self.lru_unlocked(self.swa) {
            Some(x) => if t.swa < budget && self.windowed(x) && self.swa.contains(x) {
                let (st, t1) = self.evict_swa_step(x, t);
                proof {
                    lemma_evict_swa_step(self, x, t);
                }
                st.evict_swa(budget, t1)
            } else {
                (self, t)
            },
            None => (self, t),
        }
    }

    /// An eviction with both budgets: the state and the tally.
    pub open spec fn after_evict(self, full_budget: int, swa_budget: int) -> (SWAState, Tally) {
        let none = Tally { full: 0, swa: 0, out: Freed::none() };
        if self.disable {
            (self, none)
        } else {
            let (st, t) = self.evict_full(full_budget, none);
            st.evict_swa(swa_budget, t)
        }
    }
}

/// A deleted node counts no more.
pub proof fn lemma_drop_counts(st: SWAState, x: NodeId)
    requires
        st.live(x),
    ensures
        st.dropped(x).live_count() == st.live_count() - 1,
        st.dropped(x).live_count() >= 0,
{
    let t = st.dropped(x);
    let f = |i: int| if st.nodes[i].value is Some { 1 } else { 0 };
    let g = |i: int| if t.nodes[i].value is Some { 1 } else { 0 };
    seqs::lemma_total_update(f, g, st.nodes.len(), x as int);
    seqs::lemma_total_bounds(g, st.nodes.len());
}

/// A cascade adds no node and leaves the window order alone.
pub proof fn lemma_cascade_counts(st: SWAState, p: NodeId, out: Freed)
    ensures
        st.cascade(p, out).0.live_count() <= st.live_count(),
        st.cascade(p, out).0.live_count() >= 0,
        st.cascade(p, out).0.swa == st.swa,
    decreases st.live_count(),
{
    if st.orphaned(p) {
        lemma_drop_counts(st, p);
        lemma_cascade_counts(
            st.dropped(p),
            st.shape.nodes[p as int].parent,
            Freed { full: out.full.push(st.run(p)), ..out },
        );
    } else {
        let f = |i: int| if st.nodes[i].value is Some { 1 } else { 0 };
        seqs::lemma_total_bounds(f, st.nodes.len());
    }
}

/// A step of the window eviction shortens the window order.
pub proof fn lemma_evict_swa_step(st: SWAState, x: NodeId, t: Tally)
    requires
        st.windowed(x),
        st.swa.contains(x),
    ensures
        st.evict_swa_step(x, t).0.swa.len() < st.swa.len(),
        st.evict_swa_step(x, t).0.swa == lru::without(st.swa, x),
{
    let k = st.swa.index_of(x);
    assert(st.swa[k] == x);
    lemma_cascade_counts(
        st.dropped(x),
        st.shape.nodes[x as int].parent,
        Freed { kv: t.out.kv.push(st.run(x)), ..t.out },
    );
}

/// The counters of a state are sums of what nodes hold.
pub proof fn law_sizes_add_up(st: SWAState)
    requires
        st.wf(),
    ensures
        forall|c: Counter| #[trigger] st.count(c) >= 0,
        st.swa_size() <= st.full_size(),
        st.full_size() == seqs::total(|i: int| st.held(i), st.nodes.len()),
        st.swa_size() == seqs::total(|i: int| st.held_swa(i), st.nodes.len()),
        forall|c: Counter| #[trigger] st.count(c) <= i64::MAX,
{
    let n = st.nodes.len();
    assert forall|i: int| 0 <= i < n implies st.held(i) >= 0 && st.held_swa(i) >= 0 by {
        if i > 0 {
            lemma_units(st, i);
        }
    }
    let f = |c: Counter| (|i: int| st.weight(c, i));
    assert forall|c: Counter| #[trigger] st.count(c) >= 0 by {
        assert forall|i: int| 0 <= i < n implies #[trigger] f(c)(i) >= 0 by {
            if i > 0 {
                lemma_units(st, i);
            }
        }
        seqs::lemma_total_bounds(f(c), n);
        seqs::lemma_total_same(f(c), |i: int| st.weight(c, i), n);
    }
    seqs::lemma_total_add(
        |i: int| st.weight(Counter::FullEvictable, i),
        |i: int| st.weight(Counter::FullProtected, i),
        |i: int| st.held(i),
        n,
    );
    seqs::lemma_total_add(
        |i: int| st.weight(Counter::SwaEvictable, i),
        |i: int| st.weight(Counter::SwaProtected, i),
        |i: int| st.held_swa(i),
        n,
    );
    seqs::lemma_total_le(|i: int| st.held_swa(i), |i: int| st.held(i), n);
    assert forall|c: Counter| #[trigger] st.count(c) <= i64::MAX by {
        match c {
            Counter::FullEvictable => {
                assert(st.count(Counter::FullProtected) >= 0);
            },
            Counter::FullProtected => {
                assert(st.count(Counter::FullEvictable) >= 0);
            },
            Counter::SwaEvictable => {
                assert(st.count(Counter::SwaProtected) >= 0);
            },
            Counter::SwaProtected => {
                assert(st.count(Counter::SwaEvictable) >= 0);
            },
        }
    }
}

impl SWAState {
    /// Tokens that node `i` holds; the root holds none.
    pub open spec fn held(self, i: int) -> int {
        if i > 0 && self.nodes[i].value is Some {
            self.shape.units(i)
        } else {
            0
        }
    }

    /// Tokens of node `i` with live window slots.
    pub open spec fn held_swa(self, i: int) -> int {
        if self.nodes[i].tombstone {
            0
        } else {
            self.held(i)
        }
    }
}

/// A node of the tree below the root has at least one token on its edge.
pub proof fn lemma_units(st: SWAState, i: int)
    requires
        st.wf(),
        0 < i < st.nodes.len(),
    ensures
        st.shape.units(i) >= 0,
        st.shape.nodes[i].attached ==> st.shape.units(i) >= 1,
        st.shape.units(i) * st.shape.unit == st.shape.nodes[i].key.len(),
{
    assert(st.shape.hangs(i));
    let len = st.shape.nodes[i].key.len() as int;
    topo::lemma_chunk(st.shape);
    vstd::arithmetic::div_mod::lemma_small_mod(0, st.shape.chunk());
    topo::lemma_aligned(st.shape, len, 0);
    tree_model::lemma_halves(len, 0, st.shape.unit as int);
}

/// Counters rest on the weights of the nodes alone.
pub proof fn lemma_counts_same(a: SWAState, b: SWAState)
    requires
        a.nodes.len() == b.nodes.len(),
        forall|c: Counter, i: int| 0 <= i < a.nodes.len() ==> #[trigger] b.weight(c, i) == a.weight(c, i),
    ensures
        forall|c: Counter| #[trigger] b.count(c) == a.count(c),
        b.full_size() == a.full_size(),
        b.swa_size() == a.swa_size(),
{
    assert forall|c: Counter| #[trigger] b.count(c) == a.count(c) by {
        seqs::lemma_total_same(|i: int| b.weight(c, i), |i: int| a.weight(c, i), a.nodes.len());
    }
}

/// A change of one node changes each counter by that node's weight.
pub proof fn lemma_counts_update(a: SWAState, b: SWAState, x: int)
    requires
        a.nodes.len() == b.nodes.len(),
        0 <= x < a.nodes.len(),
        forall|c: Counter, i: int|
            0 <= i < a.nodes.len() && i != x ==> #[trigger] b.weight(c, i) == a.weight(c, i),
    ensures
        forall|c: Counter| #[trigger] b.count(c) == a.count(c) - a.weight(c, x) + b.weight(c, x),
{
    assert forall|c: Counter| #[trigger] b.count(c) == a.count(c) - a.weight(c, x) + b.weight(c, x) by {
        seqs::lemma_total_update(|i: int| a.weight(c, i), |i: int| b.weight(c, i), a.nodes.len(), x);
    }
}

/// One more node changes each counter by its weight.
pub proof fn lemma_counts_push(a: SWAState, b: SWAState)
    requires
        b.nodes.len() == a.nodes.len() + 1,
        forall|c: Counter, i: int| 0 <= i < a.nodes.len() ==> #[trigger] b.weight(c, i) == a.weight(c, i),
    ensures
        forall|c: Counter| #[trigger] b.count(c) == a.count(c) + b.weight(c, a.nodes.len() as int),
{
    assert forall|c: Counter| #[trigger] b.count(c) == a.count(c) + b.weight(c, a.nodes.len() as int) by {
        seqs::lemma_total_same(|i: int| a.weight(c, i), |i: int| b.weight(c, i), a.nodes.len());
    }
}

/// Other recency orders of the same members, and more names, leave a
/// possible state with the same counters.
pub proof fn lemma_reordered(a: SWAState, b: SWAState)
    requires
        a.wf(),
        b.shape == a.shape,
        b.nodes == a.nodes,
        b.is_eagle == a.is_eagle,
        b.names.no_duplicates(),
        a.names.len() <= b.names.len(),
        b.full.no_duplicates(),
        b.swa.no_duplicates(),
        forall|id: NodeId| #[trigger] b.full.contains(id) <==> a.full.contains(id),
        forall|id: NodeId| #[trigger] b.swa.contains(id) <==> a.swa.contains(id),
    ensures
        b.wf(),
        forall|c: Counter| #[trigger] b.count(c) == a.count(c),
{
    lemma_counts_same(a, b);
    assert forall|i: int| 0 < i < b.nodes.len() implies #[trigger] b.node_ok(i) by {
        assert(a.node_ok(i));
    }
}

/// A live node may change its locks, tombstone, boundary and contents as
/// long as the window order follows.
pub proof fn lemma_patched(st: SWAState, x: NodeId, n: SWANodeState, swa: Seq<NodeId>)
    requires
        st.wf(),
        st.live(x),
        n.value is Some,
        n.value->0.len() == st.run(x).len(),
        n.tombstone ==> n.swa_lock == 0,
        n.full_lock >= n.swa_lock,
        swa.no_duplicates(),
        forall|id: NodeId|
            #[trigger] swa.contains(id) <==> (if id == x {
                !n.tombstone
            } else {
                st.swa.contains(id)
            }),
    ensures
        ({
            let t = SWAState { swa, ..st.patched(x, n) };
            &&& t.wf()
            &&& forall|c: Counter|
                #[trigger] t.count(c) == st.count(c) - st.weight(c, x as int) + t.weight(c, x as int)
            &&& t.full_size() == st.full_size()
        }),
{
    let t = SWAState { swa, ..st.patched(x, n) };
    assert(st.node_ok(x as int));
    lemma_counts_update(st, t, x as int);
    assert forall|i: int| 0 < i < t.nodes.len() implies #[trigger] t.node_ok(i) by {
        assert(st.node_ok(i));
    }
    assert forall|id: NodeId| #[trigger] t.full.contains(id) <==> t.live(id) by {
        assert(st.full.contains(id) <==> st.live(id));
    }
    assert forall|id: NodeId| #[trigger] t.swa.contains(id) <==> t.windowed(id) by {
        assert(st.swa.contains(id) <==> st.windowed(id));
    }
}

/// A cut moves no token between the counters.
#[verifier::rlimit(30)]
pub proof fn lemma_cut(st: SWAState, c: NodeId, m: int)
    requires
        st.wf(),
        st.live(c),
        st.nodes.len() < NodeId::MAX,
        0 < m < st.shape.nodes[c as int].key.len(),
        st.shape.aligned(m),
    ensures
        st.cut(c, m).wf(),
        forall|k: Counter| #[trigger] st.cut(c, m).count(k) == st.count(k),
        0 < m / st.shape.unit as int <= st.run(c).len(),
        (m / st.shape.unit as int) * st.shape.unit == m,
        st.shape.nodes[c as int].attached,
{
    let t = st.cut(c, m);
    let n = st.nodes.len();
    let f = n as NodeId;
    let unit = st.shape.unit as int;
    let len = st.shape.nodes[c as int].key.len() as int;
    assert(st.node_ok(c as int));
    topo::lemma_split_wf(st.shape, c, m);
    topo::lemma_path_grows(st.shape, c);
    topo::lemma_aligned(st.shape, len, m);
    vstd::arithmetic::div_mod::lemma_small_mod(0, st.shape.chunk());
    topo::lemma_aligned(st.shape, m, 0);
    lemma_units(st, c as int);
    tree_model::lemma_halves(len, m, unit);
    assert(t.shape.units(c as int) == (len - m) / unit);
    assert(t.shape.units(n as int) == m / unit);
    let mid = SWAState {
        shape: Shape { nodes: t.shape.nodes.drop_last(), ..t.shape },
        nodes: t.nodes.drop_last(),
        ..t
    };
    assert forall|k: Counter, i: int| 0 <= i < n && i != c implies #[trigger] mid.weight(k, i) == st.weight(k, i) by {
        assert(mid.shape.nodes[i].key == st.shape.nodes[i].key);
    }
    lemma_counts_update(st, mid, c as int);
    assert forall|k: Counter, i: int| 0 <= i < n implies #[trigger] t.weight(k, i) == mid.weight(k, i) by {
        assert(t.shape.nodes[i] == mid.shape.nodes[i]);
        assert(t.nodes[i] == mid.nodes[i]);
    }
    lemma_counts_push(mid, t);
    assert forall|k: Counter| #[trigger] t.count(k) == st.count(k) by {
        assert(mid.count(k) == st.count(k) - st.weight(k, c as int) + mid.weight(k, c as int));
        assert(t.count(k) == mid.count(k) + t.weight(k, n as int));
        assert(mid.shape.units(c as int) == (len - m) / unit);
    }
    assert forall|i: int| 0 < i < t.nodes.len() implies #[trigger] t.node_ok(i) by {
        if i < n {
            assert(st.node_ok(i));
            assert(st.shape.hangs(i));
        }
    }
    lru::lemma_with_pair(st.full, c, f);
    if !st.nodes[c as int].tombstone {
        lru::lemma_with_pair(st.swa, c, f);
    }
    assert forall|id: NodeId| #[trigger] t.full.contains(id) <==> t.live(id) by {
        assert(st.full.contains(id) <==> st.live(id));
    }
    assert forall|id: NodeId| #[trigger] t.swa.contains(id) <==> t.windowed(id) by {
        assert(st.swa.contains(id) <==> st.windowed(id));
    }
}

/// A new leaf adds its tokens to the evictable ones.
pub proof fn lemma_grown(st: SWAState, p: NodeId, ns: u32, key: Seq<i64>, value: Seq<i64>, tombstone: bool)
    requires
        st.wf(),
        st.shape.has(p),
        st.shape.nodes[p as int].attached,
        st.nodes.len() < NodeId::MAX,
        key.len() > 0,
        st.shape.aligned(key.len() as int),
        value.len() == key.len() as int / st.shape.unit as int,
        p != ROOT ==> st.shape.nodes[p as int].ns == ns,
        ns < st.names.len(),
        st.shape.child_of(p, ns, key.take(st.shape.chunk() as int)) is None,
        st.full_size() + value.len() <= i64::MAX,
        st.full_size() + value.len() <= usize::MAX,
    ensures
        ({
            let t = st.grown(p, ns, key, value, tombstone);
            &&& t.wf()
            &&& t.count(Counter::FullEvictable) == st.count(Counter::FullEvictable) + value.len()
            &&& t.count(Counter::FullProtected) == st.count(Counter::FullProtected)
            &&& t.count(Counter::SwaEvictable) == st.count(Counter::SwaEvictable) + (if tombstone {
                0
            } else {
                value.len() as int
            })
            &&& t.count(Counter::SwaProtected) == st.count(Counter::SwaProtected)
        }),
{
    let t = st.grown(p, ns, key, value, tombstone);
    let n = st.nodes.len();
    let f = n as NodeId;
    topo::lemma_graft_wf(st.shape, p, ns, key);
    assert forall|k: Counter, i: int| 0 <= i < n implies #[trigger] t.weight(k, i) == st.weight(k, i) by {
        assert(t.shape.nodes[i] == st.shape.nodes[i]);
        assert(t.nodes[i] == st.nodes[i]);
    }
    lemma_counts_push(st, t);
    assert(t.shape.units(n as int) == value.len());
    assert forall|i: int| 0 < i < t.nodes.len() implies #[trigger] t.node_ok(i) by {
        if i < n {
            assert(st.node_ok(i));
            assert(st.shape.hangs(i));
        }
    }
    assert(!st.full.contains(f) && !st.swa.contains(f));
    lru::lemma_insert(st.full, 0, f);
    assert(seq![f] + st.full =~= st.full.insert(0, f));
    if !tombstone {
        lru::lemma_insert(st.swa, 0, f);
        assert(seq![f] + st.swa =~= st.swa.insert(0, f));
    }
    assert forall|id: NodeId| #[trigger] t.full.contains(id) <==> t.live(id) by {
        assert(st.full.contains(id) <==> st.live(id));
    }
    assert forall|id: NodeId| #[trigger] t.swa.contains(id) <==> t.windowed(id) by {
        assert(st.swa.contains(id) <==> st.windowed(id));
    }
}

/// Deleting an unlocked leaf takes its tokens off the evictable ones.
pub proof fn lemma_dropped(st: SWAState, x: NodeId)
    requires
        st.wf(),
        st.live(x),
        st.shape.is_leaf(x),
        st.nodes[x as int].full_lock == 0,
    ensures
        ({
            let t = st.dropped(x);
            let u = st.run(x).len();
            &&& t.wf()
            &&& t.count(Counter::FullEvictable) == st.count(Counter::FullEvictable) - u
            &&& t.count(Counter::FullProtected) == st.count(Counter::FullProtected)
            &&& t.count(Counter::SwaEvictable) == st.count(Counter::SwaEvictable) - (if st.nodes[x as int].tombstone {
                0
            } else {
                u as int
            })
            &&& t.count(Counter::SwaProtected) == st.count(Counter::SwaProtected)
            &&& t.live_count() == st.live_count() - 1
            &&& t.live_count() >= 0
            &&& u == st.shape.units(x as int)
            &&& st.shape.nodes[x as int].attached
            &&& st.nodes[st.shape.nodes[x as int].parent as int].value is Some
        }),
{
    let t = st.dropped(x);
    let n = st.nodes.len();
    topo::lemma_prune_wf(st.shape, x);
    topo::lemma_path_grows(st.shape, x);
    assert(st.node_ok(x as int));
    lemma_units(st, x as int);
    let p = st.shape.nodes[x as int].parent;
    if p != ROOT {
        assert(st.node_ok(p as int));
    }
    assert forall|k: Counter, i: int| 0 <= i < n && i != x implies #[trigger] t.weight(k, i) == st.weight(k, i) by {
        assert(t.shape.nodes[i] == st.shape.nodes[i]);
    }
    lemma_counts_update(st, t, x as int);
    let f = |i: int| if st.nodes[i].value is Some { 1 } else { 0 };
    let g = |i: int| if t.nodes[i].value is Some { 1 } else { 0 };
    seqs::lemma_total_update(f, g, n, x as int);
    seqs::lemma_total_bounds(g, n);
    assert forall|i: int| 0 < i < n implies #[trigger] t.node_ok(i) by {
        assert(st.node_ok(i));
        assert(st.shape.hangs(i));
        if st.shape.nodes[i].attached {
            assert(st.shape.is_child(st.shape.nodes[i].parent, i as NodeId));
        }
    }
    assert(st.full.contains(x));
    let k = st.full.index_of(x);
    assert(st.full[k] == x);
    lru::lemma_remove(st.full, k);
    if !st.nodes[x as int].tombstone {
        assert(st.swa.contains(x));
        let j = st.swa.index_of(x);
        assert(st.swa[j] == x);
        lru::lemma_remove(st.swa, j);
    }
    assert forall|id: NodeId| #[trigger] t.full.contains(id) <==> t.live(id) by {
        assert(st.full.contains(id) <==> st.live(id));
    }
    assert forall|id: NodeId| #[trigger] t.swa.contains(id) <==> t.windowed(id) by {
        assert(st.swa.contains(id) <==> st.windowed(id));
    }
}

/// Tombstoning an unlocked live node keeps the state possible.
pub proof fn lemma_buried(st: SWAState, x: NodeId)
    requires
        st.wf(),
        st.windowed(x),
        st.nodes[x as int].swa_lock == 0,
    ensures
        ({
            let t = st.buried(x);
            let u = st.run(x).len();
            &&& t.wf()
            &&& st.swa.contains(x)
            &&& t.count(Counter::FullEvictable) == st.count(Counter::FullEvictable)
            &&& t.count(Counter::FullProtected) == st.count(Counter::FullProtected)
            &&& t.count(Counter::SwaEvictable) == st.count(Counter::SwaEvictable) - u
            &&& t.count(Counter::SwaProtected) == st.count(Counter::SwaProtected)
        }),
{
    assert(st.swa.contains(x));
    let k = st.swa.index_of(x);
    assert(st.swa[k] == x);
    lru::lemma_remove(st.swa, k);
    let swa = lru::without(st.swa, x);
    let n = SWANodeState { tombstone: true, ..st.nodes[x as int] };
    lemma_patched(st, x, n, swa);
    assert(st.node_ok(x as int));
    assert(st.buried(x) == (SWAState { swa, ..st.patched(x, n) }));
}

/// Reviving a tombstone keeps the state possible.
pub proof fn lemma_revived(st: SWAState, x: NodeId, value: Seq<i64>)
    requires
        st.wf(),
        st.live(x),
        st.nodes[x as int].tombstone,
        value.len() == st.run(x).len(),
    ensures
        ({
            let t = st.revived(x, value);
            &&& t.wf()
            &&& !st.swa.contains(x)
            &&& t.count(Counter::FullEvictable) == st.count(Counter::FullEvictable)
            &&& t.count(Counter::FullProtected) == st.count(Counter::FullProtected)
            &&& t.count(Counter::SwaEvictable) == st.count(Counter::SwaEvictable) + value.len()
            &&& t.count(Counter::SwaProtected) == st.count(Counter::SwaProtected)
            &&& t.full_size() == st.full_size()
        }),
{
    assert(!st.swa.contains(x));
    lru::lemma_insert(st.swa, 0, x);
    let swa = seq![x] + st.swa;
    assert(swa =~= st.swa.insert(0, x));
    let n = SWANodeState { tombstone: false, value: Some(value), ..st.nodes[x as int] };
    assert(st.node_ok(x as int));
    lemma_patched(st, x, n, swa);
    assert(st.revived(x, value) == (SWAState { swa, ..st.patched(x, n) }));
}

/// Nodes other than `v` stay as they are.
pub open spec fn only_changes(a: SWAState, b: SWAState, v: NodeId) -> bool {
    &&& a.nodes.len() <= b.nodes.len() <= a.nodes.len() + 1
    &&& b.shape.nodes.len() == b.nodes.len()
    &&& b.names == a.names
    &&& b.shape.page == a.shape.page
    &&& b.shape.unit == a.shape.unit
    &&& b.is_eagle == a.is_eagle
    &&& b.disable == a.disable
    &&& b.window == a.window
    &&& b.uuids == a.uuids
    &&& forall|i: int|
        0 <= i < a.nodes.len() && i != v ==> (#[trigger] b.nodes[i]) == a.nodes[i] && b.shape.nodes[i]
            == a.shape.nodes[i]
    &&& b.shape.nodes[v as int].ns == a.shape.nodes[v as int].ns
}

/// Meeting a node keeps the state possible and changes that node alone.
#[verifier::rlimit(30)]
pub proof fn lemma_absorb(
    st: SWAState,
    v: NodeId,
    total: int,
    val: Seq<i64>,
    upd: int,
    evicted: int,
    out: Freed,
)
    requires
        st.wf(),
        st.live(v),
        st.nodes.len() < NodeId::MAX,
        val.len() >= st.run(v).len(),
        0 <= total,
        st.nodes[v as int].tombstone && total < evicted < total + st.run(v).len() && upd < total + st.run(v).len()
            ==> st.shape.aligned((evicted - total) * st.shape.unit),
    ensures
        ({
            let t = st.absorb(v, total, val, upd, evicted, out).0;
            &&& t.wf()
            &&& t.full_size() == st.full_size()
            &&& t.live(v)
            &&& only_changes(st, t, v)
            &&& t.nodes.len() > st.nodes.len() ==> total < evicted < total + st.run(v).len()
            &&& forall|p: NodeId, ns: u32, head: Seq<i64>|
                st.shape.has(p) && st.shape.child_of(p, ns, head) is None ==> (#[trigger] t.shape.child_of(
                    p,
                    ns,
                    head,
                )) is None
        }),
{
    let n = st.nodes[v as int];
    let len = st.run(v).len() as int;
    let t = st.absorb(v, total, val, upd, evicted, out).0;
    assert(st.node_ok(v as int));
    if upd < total + len && n.tombstone && evicted < total + len {
        if evicted <= total {
            if n.full_lock > 0 {
                lemma_revived(st, v, st.run(v));
            } else {
                lemma_revived(st, v, val.take(len));
            }
        } else {
            let s = evicted - total;
            let unit = st.shape.unit as int;
            let m = s * unit;
            lemma_units(st, v as int);
            assert(0 < m < len * unit) by (nonlinear_arith)
                requires
                    0 < s < len,
                    unit >= 1,
                    m == s * unit,
            ;
            lemma_cut(st, v, m);
            assert(m / unit == s) by {
                vstd::arithmetic::div_mod::lemma_div_multiples_vanish(s, unit);
                assert(s * unit == unit * s) by (nonlinear_arith);
            }
            let c = st.cut(v, m);
            if n.full_lock > 0 {
                lemma_revived(c, v, c.run(v));
            } else {
                lemma_revived(c, v, val.subrange(s, len));
            }
            assert(c.full_size() == st.full_size());
            assert forall|p: NodeId, ns: u32, head: Seq<i64>|
                st.shape.has(p) && st.shape.child_of(p, ns, head) is None implies (#[trigger] t.shape.child_of(
                p,
                ns,
                head,
            )) is None by {
                query::lemma_split_keeps_free(st.shape, v, m, p, ns, head);
            }
        }
    }
}

/// A walk past a node changes the recency orders alone.
pub proof fn lemma_passed(st: SWAState, x: NodeId)
    requires
        st.wf(),
    ensures
        st.passed(x).wf(),
        forall|c: Counter| #[trigger] st.passed(x).count(c) == st.count(c),
        st.passed(x).full_size() == st.full_size(),
{
    lru::law_touch_keeps_members(st.full, x);
    lru::law_touch_keeps_members(st.swa, x);
    lemma_reordered(st, st.passed(x));
}

/// The nodes on the way up from a live node are live.
pub proof fn lemma_up_live(st: SWAState, id: NodeId)
    requires
        st.wf(),
        id == ROOT || st.live(id),
    ensures
        st.shape.up(id).no_duplicates(),
        forall|k: int| 0 <= k < st.shape.up(id).len() ==> st.live(#[trigger] st.shape.up(id)[k]),
        forall|k: int|
            0 <= k < st.shape.up(id).len() ==> st.full.contains(#[trigger] st.shape.up(id)[k]),
    decreases st.shape.nodes[id as int].path.len(),
{
    topo::lemma_up(st.shape, id);
    if id != ROOT {
        topo::lemma_path_grows(st.shape, id);
        assert(st.node_ok(id as int));
        let p = st.shape.nodes[id as int].parent;
        if p != ROOT {
            assert(st.node_ok(p as int));
        }
        lemma_up_live(st, p);
        assert forall|k: int| 0 <= k < st.shape.up(id).len() implies st.live(#[trigger] st.shape.up(id)[k]) by {
            if k > 0 {
                assert(st.shape.up(id)[k] == st.shape.up(p)[k - 1]);
            }
        }
    }
}

/// The nodes that are no tombstones are a part of the list.
pub proof fn lemma_kept(st: SWAState, ids: Seq<NodeId>)
    requires
        st.wf(),
        ids.no_duplicates(),
        forall|k: int| 0 <= k < ids.len() ==> st.live(#[trigger] ids[k]),
    ensures
        st.kept(ids).no_duplicates(),
        forall|k: int| 0 <= k < st.kept(ids).len() ==> st.swa.contains(#[trigger] st.kept(ids)[k]),
        forall|y: NodeId|
            #[trigger] st.kept(ids).contains(y) <==> ids.contains(y) && !st.nodes[y as int].tombstone,
    decreases ids.len(),
{
    if ids.len() > 0 {
        let xs = ids.drop_last();
        let x = ids.last();
        assert forall|k: int| 0 <= k < xs.len() implies st.live(#[trigger] xs[k]) by {
            assert(xs[k] == ids[k]);
        }
        lemma_kept(st, xs);
        assert(st.live(ids[ids.len() - 1]));
        assert(ids =~= xs.push(x));
        assert(!xs.contains(x)) by {
            if xs.contains(x) {
                let j = xs.index_of(x);
                assert(ids[j] == ids[ids.len() - 1]);
            }
        }
        assert forall|y: NodeId|
            #[trigger] st.kept(ids).contains(y) <==> ids.contains(y) && !st.nodes[y as int].tombstone by {
            tree_model::lemma_push_contains(xs, x, y);
            tree_model::lemma_push_contains(st.kept(xs), x, y);
        }
        if !st.nodes[x as int].tombstone {
            lru::lemma_insert(st.kept(xs), st.kept(xs).len() as int, x);
            assert(st.kept(xs).push(x) =~= st.kept(xs).insert(st.kept(xs).len() as int, x));
        }
        assert forall|k: int| 0 <= k < st.kept(ids).len() implies st.swa.contains(#[trigger] st.kept(ids)[k]) by {
            let y = st.kept(ids)[k];
            assert(st.kept(ids).contains(y));
            let j = ids.index_of(y);
            assert(st.live(ids[j]));
        }
    }
}

/// Moving a path to the front changes the recency orders alone.
pub proof fn lemma_refreshed(st: SWAState, node: NodeId)
    requires
        st.wf(),
        node == ROOT || st.live(node),
    ensures
        st.refreshed(node).wf(),
        forall|c: Counter| #[trigger] st.refreshed(node).count(c) == st.count(c),
{
    let up = st.shape.up(node);
    lemma_up_live(st, node);
    lemma_kept(st, up);
    lru::law_lift_keeps_members(st.full, up);
    lru::law_lift_keeps_members(st.swa, st.kept(up));
    lemma_reordered(st, st.refreshed(node));
}

} // verus!
