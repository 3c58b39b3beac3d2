//! The model of the base tree: what each operation does to its state.

use crate::key::RadixKey;
use crate::ns;
use crate::ns::Names;
use crate::policy::EvictionPolicy;
use crate::queue::HeapItem;
use crate::seqs;
use crate::topo;
use crate::topo::{NodeId, Shape, Walk, ROOT};
use vstd::prelude::*;

verus! {

/// What one node caches.
#[verifier::ext_equal]
pub struct NodeState {
    pub value: Option<Seq<i64>>,
    pub lock_ref: u32,
    pub last_access: u64,
    pub hit_count: u64,
    pub priority: i32,
}

/// The state of a tree. Sizes and the set of evictable leaves follow from it.
#[verifier::ext_equal]
pub struct RadixState {
    pub shape: Shape,
    pub nodes: Seq<NodeState>,
    pub names: Seq<Names>,
    pub clock: u64,
    pub is_eagle: bool,
    pub disable: bool,
    pub policy: EvictionPolicy,
}

/// The values of the nodes `chain`, one after the other.
pub open spec fn gathered(nodes: Seq<NodeState>, chain: Seq<NodeId>) -> Seq<i64>
    decreases chain.len(),
{
    if chain.len() == 0 {
        Seq::empty()
    } else {
        gathered(nodes, chain.drop_last()) + nodes[chain.last() as int].value->0
    }
}

/// The larger of two priorities.
pub open spec fn max_prio(a: i32, b: i32) -> i32 {
    if a >= b {
        a
    } else {
        b
    }
}

impl RadixState {
    /// An empty tree.
    pub open spec fn fresh(
        page: nat,
        is_eagle: bool,
        disable: bool,
        policy: EvictionPolicy,
    ) -> RadixState {
        RadixState {
            shape: Shape::bare(page, if is_eagle { 2 } else { 1 }),
            nodes: seq![
                NodeState {
                    value: Some(Seq::empty()),
                    lock_ref: 1,
                    last_access: 0,
                    hit_count: 0,
                    priority: i32::MIN,
                },
            ],
            names: Seq::empty(),
            clock: 0,
            is_eagle,
            disable,
            policy,
        }
    }

    /// Whether `id` names a node that holds a value.
    pub open spec fn live(self, id: NodeId) -> bool {
        id < self.nodes.len() && self.nodes[id as int].value is Some
    }

    /// Tokens that node `i` holds; the root holds none.
    pub open spec fn held(self, i: int) -> int {
        if i > 0 && self.nodes[i].value is Some {
            self.shape.units(i)
        } else {
            0
        }
    }

    /// Tokens of node `i` that may be evicted.
    pub open spec fn loose(self, i: int) -> int {
        if self.nodes[i].lock_ref == 0 {
            self.held(i)
        } else {
            0
        }
    }

    /// Tokens of node `i` that are locked.
    pub open spec fn pinned(self, i: int) -> int {
        if self.nodes[i].lock_ref == 0 {
            0
        } else {
            self.held(i)
        }
    }

    /// Tokens in unlocked live nodes.
    pub open spec fn evictable(self) -> int {
        seqs::total(|i: int| self.loose(i), self.nodes.len())
    }

    /// Tokens in locked live nodes.
    pub open spec fn protected(self) -> int {
        seqs::total(|i: int| self.pinned(i), self.nodes.len())
    }

    /// Tokens in live nodes.
    pub open spec fn size(self) -> int {
        seqs::total(|i: int| self.held(i), self.nodes.len())
    }

    /// Number of live nodes.
    pub open spec fn live_count(self) -> int {
        seqs::total(|i: int| if self.nodes[i].value is Some { 1 } else { 0 }, self.nodes.len())
    }

    /// Whether `id` is a live, unlocked node without live children.
    pub open spec fn leaf(self, id: NodeId) -> bool {
        &&& 0 < id < self.nodes.len()
        &&& self.nodes[id as int].value is Some
        &&& self.nodes[id as int].lock_ref == 0
        &&& self.shape.is_leaf(id)
    }

    /// Node `i` is live exactly while its parent lists it, holds one index
    /// per logical unit, and hangs below a live node.
    pub open spec fn node_ok(self, i: int) -> bool {
        let spot = self.shape.nodes[i];
        let n = self.nodes[i];
        &&& n.value is Some <==> spot.attached
        &&& n.value is Some ==> n.value->0.len() == self.shape.units(i)
        &&& spot.attached ==> self.shape.nodes[spot.parent as int].attached
        &&& n.hit_count <= self.clock
        &&& spot.ns < self.names.len()
    }

    /// A possible state of a tree.
    pub open spec fn wf(self) -> bool {
        &&& self.shape.wf()
        &&& self.shape.unit == (if self.is_eagle {
            2nat
        } else {
            1
        })
        &&& self.nodes.len() == self.shape.nodes.len()
        &&& self.names.no_duplicates()
        &&& self.nodes[0].value == Some(Seq::<i64>::empty())
        &&& self.nodes[0].lock_ref == 1
        &&& self.nodes[0].hit_count <= self.clock
        &&& forall|i: int| 0 < i < self.nodes.len() ==> #[trigger] self.node_ok(i)
        &&& self.size() <= i64::MAX
        &&& self.size() <= usize::MAX
    }

    /// Room for one more operation: ids, clock ticks and namespace ids do not run out.
    pub open spec fn roomy(self) -> bool {
        &&& self.nodes.len() + 2 <= NodeId::MAX
        &&& self.clock + 3 <= u64::MAX
        &&& self.names.len() < u32::MAX
    }

    /// The bigram view is in force: the tree forces it, or the key asks for it.
    pub open spec fn bigram(self, key: RadixKey) -> bool {
        self.is_eagle || key.is_bigram
    }

    /// The flattened query, in whole pages.
    pub open spec fn flat(self, key: RadixKey) -> Seq<i64> {
        key.flat(self.bigram(key), self.shape.page)
    }

    /// Whether the key's first page has the form of this tree's child-table
    /// heads: a pair is none in a tree whose heads are single tokens.
    pub open spec fn fits(self, key: RadixKey) -> bool {
        self.shape.page > 1 || self.is_eagle || !key.is_bigram
    }

    /// The id of the key's namespace.
    pub open spec fn ns_of(self, key: RadixKey) -> u32 {
        ns::interned(self.names, key.namespace()).1
    }

    /// The walk of the key from the root.
    pub open spec fn walk(self, key: RadixKey) -> Walk {
        if self.fits(key) {
            self.shape.walk(ROOT, self.ns_of(key), self.flat(key))
        } else {
            Walk { chain: Seq::empty(), stop: None, used: 0 }
        }
    }

    /// The longest cached prefix of the key: the indices of the nodes
    /// matched whole, then those of the part of the last node.
    pub open spec fn cached(self, key: RadixKey) -> Seq<i64> {
        let w = self.walk(key);
        match w.stop {
            None => gathered(self.nodes, w.chain),
            Some((c, m)) => gathered(self.nodes, w.chain) + self.nodes[c as int].value->0.take(
                m as int / self.shape.unit as int,
            ),
        }
    }

    /// Node `c` cut after `m` flattened elements at time `now`: the new front
    /// node inherits priority, hits and locks.
    pub open spec fn cut(self, c: NodeId, m: int, now: u64) -> RadixState {
        let n = self.nodes[c as int];
        let u = m / self.shape.unit as int;
        let front = NodeState { value: Some(n.value->0.take(u)), last_access: now, ..n };
        let tail = NodeState { value: Some(n.value->0.skip(u)), ..n };
        RadixState {
            shape: self.shape.split(c, m),
            nodes: self.nodes.update(c as int, tail).push(front),
            clock: now,
            ..self
        }
    }

    /// A match walk has passed the root and the nodes `chain` at time `now`.
    pub open spec fn visited(self, chain: Seq<NodeId>, now: u64) -> RadixState {
        RadixState {
            nodes: Seq::new(
                self.nodes.len(),
                |i: int|
                    if i == 0 || chain.contains(i as NodeId) {
                        NodeState { last_access: now, ..self.nodes[i] }
                    } else {
                        self.nodes[i]
                    },
            ),
            ..self
        }
    }

    /// An insert walk has passed the nodes `chain` at time `now`: they take
    /// over a higher priority and, unless chunked, count a hit.
    pub open spec fn passed(
        self,
        chain: Seq<NodeId>,
        now: u64,
        priority: i32,
        chunked: bool,
    ) -> RadixState {
        RadixState {
            nodes: Seq::new(
                self.nodes.len(),
                |i: int|
                    if i == 0 {
                        NodeState {
                            last_access: now,
                            priority: max_prio(self.nodes[i].priority, priority),
                            ..self.nodes[i]
                        }
                    } else if chain.contains(i as NodeId) {
                        self.nodes[i].hit(now, priority, chunked)
                    } else {
                        self.nodes[i]
                    },
            ),
            ..self
        }
    }

    /// The state and the result of a match of `key`.
    pub open spec fn after_match(self, key: RadixKey) -> (RadixState, NodeId) {
        if self.disable || self.flat(key).len() == 0 {
            (self, ROOT)
        } else {
            let now = (self.clock + 1) as u64;
            let w = self.walk(key);
            let names = ns::interned(self.names, key.namespace()).0;
            let st = RadixState { names, clock: now, ..self.visited(w.chain, now) };
            match w.stop {
                None => (st, topo::end_of(w.chain)),
                Some((c, m)) => (
                    st.stamped(c, now).cut(c, m as int, (now + 1) as u64),
                    self.nodes.len() as NodeId,
                ),
            }
        }
    }

    /// Node `c` last visited at `now`.
    pub open spec fn stamped(self, c: NodeId, now: u64) -> RadixState {
        RadixState {
            nodes: self.nodes.update(
                c as int,
                NodeState { last_access: now, ..self.nodes[c as int] },
            ),
            ..self
        }
    }

    /// The state of an insert after its walk, and the node it stands at: a
    /// node matched in part is cut, and its front takes the visit.
    pub open spec fn after_insert_walk(
        self,
        key: RadixKey,
        priority: i32,
        chunked: bool,
    ) -> (RadixState, NodeId) {
        let now = (self.clock + 1) as u64;
        let w = self.walk(key);
        let names = ns::interned(self.names, key.namespace()).0;
        let st = RadixState { names, clock: now, ..self.passed(w.chain, now, priority, chunked) };
        match w.stop {
            None => (st, topo::end_of(w.chain)),
            Some((c, m)) => {
                let cut = st.stamped(c, now).cut(c, m as int, (now + 1) as u64);
                let f = self.nodes.len() as NodeId;
                (cut.struck(f, cut.nodes[f as int].last_access, priority, chunked), f)
            },
        }
    }

    /// Node `c` visited by an insert at `now`.
    pub open spec fn struck(self, c: NodeId, now: u64, priority: i32, chunked: bool) -> RadixState {
        RadixState {
            nodes: self.nodes.update(c as int, self.nodes[c as int].hit(now, priority, chunked)),
            ..self
        }
    }

    /// A new leaf below `p` with key `key` and value `value`.
    pub open spec fn grown(
        self,
        p: NodeId,
        ns: u32,
        key: Seq<i64>,
        value: Seq<i64>,
        priority: i32,
        chunked: bool,
    ) -> RadixState {
        let now = (self.clock + 1) as u64;
        RadixState {
            shape: self.shape.graft(p, ns, key),
            nodes: self.nodes.push(
                NodeState {
                    value: Some(value),
                    lock_ref: 0,
                    last_access: now,
                    hit_count: if chunked {
                        0
                    } else {
                        1
                    },
                    priority,
                },
            ),
            clock: now,
            ..self
        }
    }

    /// Tokens of `key` that are in the tree.
    pub open spec fn prefix_len(self, key: RadixKey) -> int {
        self.walk(key).used as int / self.shape.unit as int
    }

    /// The state and the last node of an insert of `key` with `value`.
    pub open spec fn after_insert(
        self,
        key: RadixKey,
        value: Seq<i64>,
        priority: i32,
        chunked: bool,
    ) -> (RadixState, NodeId) {
        let flat = self.flat(key);
        if self.disable || flat.len() == 0 {
            (self, ROOT)
        } else {
            let w = self.walk(key);
            let (st, p) = self.after_insert_walk(key, priority, chunked);
            if w.used < flat.len() {
                (
                    st.grown(
                        p,
                        self.ns_of(key),
                        flat.skip(w.used as int),
                        value.subrange(
                            self.prefix_len(key),
                            flat.len() as int / self.shape.unit as int,
                        ),
                        priority,
                        chunked,
                    ),
                    st.nodes.len() as NodeId,
                )
            } else {
                (st, p)
            }
        }
    }

    /// Locks added to the nodes `ids`.
    pub open spec fn locked(self, ids: Seq<NodeId>) -> RadixState {
        RadixState {
            nodes: Seq::new(
                self.nodes.len(),
                |i: int|
                    if ids.contains(i as NodeId) {
                        NodeState {
                            lock_ref: (self.nodes[i].lock_ref + 1) as u32,
                            ..self.nodes[i]
                        }
                    } else {
                        self.nodes[i]
                    },
            ),
            ..self
        }
    }

    /// Locks taken off the nodes `ids`.
    pub open spec fn unlocked(self, ids: Seq<NodeId>) -> RadixState {
        RadixState {
            nodes: Seq::new(
                self.nodes.len(),
                |i: int|
                    if ids.contains(i as NodeId) {
                        NodeState {
                            lock_ref: (self.nodes[i].lock_ref - 1) as u32,
                            ..self.nodes[i]
                        }
                    } else {
                        self.nodes[i]
                    },
            ),
            ..self
        }
    }

    /// The rank by which node `id` is evicted.
    pub open spec fn item(self, id: NodeId) -> HeapItem {
        let n = self.nodes[id as int];
        self.policy.item_of(id, n.last_access, n.hit_count, n.priority)
    }

    /// Whether `x` is the evictable leaf that leaves first.
    pub open spec fn leaves_first(self, x: NodeId) -> bool {
        &&& self.leaf(x)
        &&& forall|y: NodeId| #[trigger] self.leaf(y) && y != x ==> self.item(x).before(self.item(y))
    }

    /// The evictable leaf that leaves first, where there is one.
    pub open spec fn victim(self) -> NodeId {
        choose|x: NodeId| self.leaves_first(x)
    }

    /// Node `x` evicted.
    pub open spec fn dropped(self, x: NodeId) -> RadixState {
        RadixState {
            shape: self.shape.prune(x),
            nodes: self.nodes.update(x as int, NodeState { value: None, ..self.nodes[x as int] }),
            ..self
        }
    }

    /// Evicts leaf by leaf until `budget` tokens are gone or no evictable
    /// leaf is left: the state, and the runs in eviction order.
    pub open spec fn after_evict(self, budget: int) -> (RadixState, Seq<Seq<i64>>)
        decreases self.live_count(),
    {
        let x = self.victim();
        if budget <= 0 || !self.leaves_first(x) {
            (self, Seq::empty())
        } else {
            proof {
                lemma_drop_counts(self, x);
            }
            let v = self.nodes[x as int].value->0;
            let r = self.dropped(x).after_evict(budget - v.len());
            (r.0, seq![v] + r.1)
        }
    }
}

impl NodeState {
    /// Visited by an insert at `now`.
    pub open spec fn hit(self, now: u64, priority: i32, chunked: bool) -> NodeState {
        NodeState {
            last_access: now,
            priority: max_prio(self.priority, priority),
            hit_count: if chunked {
                self.hit_count
            } else {
                (self.hit_count + 1) as u64
            },
            ..self
        }
    }
}

/// Number of indices in a list of runs.
pub open spec fn run_total(runs: Seq<Seq<i64>>) -> int
    decreases runs.len(),
{
    if runs.len() == 0 {
        0
    } else {
        runs[0].len() + run_total(runs.drop_first())
    }
}

/// The number of indices grows by those of one more run.
pub proof fn lemma_run_total_push(runs: Seq<Seq<i64>>, x: Seq<i64>)
    ensures
        run_total(runs.push(x)) == run_total(runs) + x.len(),
    decreases runs.len(),
{
    if runs.len() == 0 {
        assert(runs.push(x).drop_first() =~= Seq::<Seq<i64>>::empty());
        reveal_with_fuel(run_total, 2);
    } else {
        assert(runs.push(x).drop_first() =~= runs.drop_first().push(x));
        lemma_run_total_push(runs.drop_first(), x);
    }
}

/// Evicting a node leaves one live node less.
pub proof fn lemma_drop_counts(st: RadixState, x: NodeId)
    requires
        st.leaf(x),
    ensures
        st.dropped(x).live_count() == st.live_count() - 1,
        st.dropped(x).live_count() >= 0,
{
    let t = st.dropped(x);
    let f = |i: int| if st.nodes[i].value is Some { 1 } else { 0 };
    let g = |i: int| if t.nodes[i].value is Some { 1 } else { 0 };
    seqs::lemma_total_update(f, g, st.nodes.len(), x as int);
    seqs::lemma_total_bounds(g, st.nodes.len());
}

/// The parts of a state on which sizes and leaves rest.
pub open spec fn same_holdings(a: RadixState, b: RadixState) -> bool {
    &&& a.shape == b.shape
    &&& a.nodes.len() == b.nodes.len()
    &&& forall|i: int|
        0 <= i < a.nodes.len() ==> (#[trigger] a.nodes[i]).value == b.nodes[i].value && a.nodes[i].lock_ref
            == b.nodes[i].lock_ref
}

/// Visits change no size and no leaf, and leave a possible state.
pub proof fn lemma_same_holdings(a: RadixState, b: RadixState)
    requires
        a.wf(),
        same_holdings(a, b),
        a.is_eagle == b.is_eagle,
        b.names.no_duplicates(),
        a.names.len() <= b.names.len(),
        forall|i: int| 0 <= i < b.nodes.len() ==> (#[trigger] b.nodes[i]).hit_count <= b.clock,
    ensures
        b.wf(),
        b.evictable() == a.evictable(),
        b.protected() == a.protected(),
        b.size() == a.size(),
        forall|id: NodeId| #[trigger] b.leaf(id) == a.leaf(id),
{
    let n = a.nodes.len();
    assert forall|i: int| 0 <= i < n implies b.held(i) == a.held(i) && b.loose(i) == a.loose(i) && b.pinned(i)
        == a.pinned(i) by {
        assert(a.nodes[i].value == b.nodes[i].value);
    }
    seqs::lemma_total_same(|i: int| a.held(i), |i: int| b.held(i), n);
    seqs::lemma_total_same(|i: int| a.loose(i), |i: int| b.loose(i), n);
    seqs::lemma_total_same(|i: int| a.pinned(i), |i: int| b.pinned(i), n);
    assert forall|i: int| 0 < i < n implies #[trigger] b.node_ok(i) by {
        assert(a.node_ok(i));
        assert(a.nodes[i].value == b.nodes[i].value);
        assert(b.nodes[i].hit_count <= b.clock);
    }
    assert(a.nodes[0].value == b.nodes[0].value);
    assert forall|id: NodeId| #[trigger] b.leaf(id) == a.leaf(id) by {
        if 0 < id < n {
            assert(a.nodes[id as int].value == b.nodes[id as int].value);
        }
    }
}

/// Whole units on both sides of a cut add up.
pub proof fn lemma_halves(len: int, m: int, unit: int)
    requires
        unit == 1 || unit == 2,
        0 <= m <= len,
        len % unit == 0,
        m % unit == 0,
    ensures
        (len - m) / unit + m / unit == len / unit,
        (len / unit) * unit == len,
        (m / unit) * unit == m,
        m > 0 ==> m / unit > 0,
        m < len ==> m / unit < len / unit,
{
    if unit == 1 {
    } else {
    }
}

/// A live node below the root holds at least one token, and its key is as
/// many flattened elements.
pub proof fn lemma_units(st: RadixState, i: int)
    requires
        st.wf(),
        0 < i < st.nodes.len(),
    ensures
        st.shape.units(i) >= 0,
        st.shape.nodes[i].attached ==> st.shape.units(i) >= 1,
        st.shape.units(i) * st.shape.unit == st.shape.nodes[i].key.len(),
{
    assert(st.shape.hangs(i));
    let len = st.shape.nodes[i].key.len() as int;
    topo::lemma_chunk(st.shape);
    vstd::arithmetic::div_mod::lemma_small_mod(0, st.shape.chunk());
    topo::lemma_aligned(st.shape, len, 0);
    lemma_halves(len, 0, st.shape.unit as int);
}

/// Sizes are sums of what nodes hold, none of which is negative.
pub proof fn law_sizes_add_up(st: RadixState)
    requires
        st.wf(),
    ensures
        st.evictable() + st.protected() == st.size(),
        st.evictable() >= 0,
        st.protected() >= 0,
{
    let n = st.nodes.len();
    assert forall|i: int| 0 <= i < n implies st.held(i) >= 0 && st.loose(i) >= 0 && st.pinned(i) >= 0 by {
        if i > 0 {
            lemma_units(st, i);
        }
    }
    seqs::lemma_total_add(|i: int| st.loose(i), |i: int| st.pinned(i), |i: int| st.held(i), n);
    seqs::lemma_total_bounds(|i: int| st.loose(i), n);
    seqs::lemma_total_bounds(|i: int| st.pinned(i), n);
}

/// A cut moves no token between the counters and makes no leaf.
pub proof fn lemma_cut(st: RadixState, c: NodeId, m: int, now: u64)
    requires
        st.wf(),
        0 < c < st.nodes.len() < NodeId::MAX,
        st.shape.nodes[c as int].attached,
        0 < m < st.shape.nodes[c as int].key.len(),
        st.shape.aligned(m),
        st.clock <= now,
    ensures
        st.cut(c, m, now).wf(),
        st.cut(c, m, now).evictable() == st.evictable(),
        st.cut(c, m, now).protected() == st.protected(),
        st.cut(c, m, now).size() == st.size(),
        forall|id: NodeId| #[trigger] st.cut(c, m, now).leaf(id) == st.leaf(id),
        0 < m / st.shape.unit as int <= st.nodes[c as int].value->0.len(),
        (m / st.shape.unit as int) * st.shape.unit == m,
{
    let t = st.cut(c, m, now);
    let n = st.nodes.len();
    let f = n as NodeId;
    let unit = st.shape.unit as int;
    let len = st.shape.nodes[c as int].key.len() as int;
    topo::lemma_split_wf(st.shape, c, m);
    topo::lemma_path_grows(st.shape, c);
    topo::lemma_aligned(st.shape, len, m);
    vstd::arithmetic::div_mod::lemma_small_mod(0, st.shape.chunk());
    topo::lemma_aligned(st.shape, m, 0);
    lemma_units(st, c as int);
    assert(st.node_ok(c as int));
    lemma_halves(len, m, unit);
    assert(t.shape.units(c as int) == (len - m) / unit);
    assert(t.shape.units(n as int) == m / unit);
    assert forall|i: int| 0 <= i < n && i != c implies t.held(i) == st.held(i) && t.loose(i) == st.loose(i)
        && t.pinned(i) == st.pinned(i) by {
        assert(t.shape.nodes[i].key == st.shape.nodes[i].key);
    }
    seqs::lemma_total_update(|i: int| st.held(i), |i: int| t.held(i), n, c as int);
    seqs::lemma_total_update(|i: int| st.loose(i), |i: int| t.loose(i), n, c as int);
    seqs::lemma_total_update(|i: int| st.pinned(i), |i: int| t.pinned(i), n, c as int);
    assert forall|i: int| 0 < i < t.nodes.len() implies #[trigger] t.node_ok(i) by {
        if i < n {
            assert(st.node_ok(i));
            assert(st.shape.hangs(i));
        }
    }
    assert forall|id: NodeId| #[trigger] t.leaf(id) == st.leaf(id) by {
        if id == f {
            assert(t.shape.is_child(f, c));
        } else if 0 < id < n {
            if st.leaf(id) {
                assert forall|d: NodeId| !#[trigger] t.shape.is_child(id, d) by {
                    assert(!st.shape.is_child(id, d));
                    assert(!st.shape.is_child(id, c));
                }
            }
            if t.leaf(id) {
                assert forall|d: NodeId| !#[trigger] st.shape.is_child(id, d) by {
                    assert(!t.shape.is_child(id, d));
                    assert(!t.shape.is_child(id, f));
                }
            }
        }
    }
}

/// A new leaf adds its tokens to the evictable ones; it is a leaf, and its
/// parent is none any more.
pub proof fn lemma_grown(
    st: RadixState,
    p: NodeId,
    ns: u32,
    key: Seq<i64>,
    value: Seq<i64>,
    priority: i32,
    chunked: bool,
)
    requires
        st.wf(),
        st.shape.has(p),
        st.shape.nodes[p as int].attached,
        st.nodes.len() < NodeId::MAX,
        st.clock < u64::MAX,
        key.len() > 0,
        st.shape.aligned(key.len() as int),
        value.len() == key.len() as int / st.shape.unit as int,
        p != ROOT ==> st.shape.nodes[p as int].ns == ns,
        ns < st.names.len(),
        st.shape.child_of(p, ns, key.take(st.shape.chunk() as int)) is None,
        st.size() + value.len() <= i64::MAX,
        st.size() + value.len() <= usize::MAX,
    ensures
        ({
            let t = st.grown(p, ns, key, value, priority, chunked);
            let f = st.nodes.len() as NodeId;
            &&& t.wf()
            &&& t.evictable() == st.evictable() + value.len()
            &&& t.protected() == st.protected()
            &&& t.size() == st.size() + value.len()
            &&& forall|id: NodeId| #[trigger] t.leaf(id) == (id == f || (id != p && st.leaf(id)))
        }),
{
    let t = st.grown(p, ns, key, value, priority, chunked);
    let n = st.nodes.len();
    let f = n as NodeId;
    topo::lemma_graft_wf(st.shape, p, ns, key);
    assert forall|i: int| 0 <= i < n implies t.held(i) == st.held(i) && t.loose(i) == st.loose(i) && t.pinned(i)
        == st.pinned(i) by {
        assert(t.shape.nodes[i] == st.shape.nodes[i]);
    }
    seqs::lemma_total_same(|i: int| st.held(i), |i: int| t.held(i), n);
    seqs::lemma_total_same(|i: int| st.loose(i), |i: int| t.loose(i), n);
    seqs::lemma_total_same(|i: int| st.pinned(i), |i: int| t.pinned(i), n);
    assert forall|i: int| 0 < i < t.nodes.len() implies #[trigger] t.node_ok(i) by {
        if i < n {
            assert(st.node_ok(i));
            assert(st.shape.hangs(i));
        }
    }
    assert forall|id: NodeId| #[trigger] t.leaf(id) == (id == f || (id != p && st.leaf(id))) by {
        if id == f {
            assert forall|d: NodeId| !#[trigger] t.shape.is_child(f, d) by {
                if 0 < d < n {
                    assert(st.shape.hangs(d as int));
                }
            }
        } else if id == p {
            assert(t.shape.is_child(p, f));
        } else if 0 < id < n {
            if st.leaf(id) {
                assert forall|d: NodeId| !#[trigger] t.shape.is_child(id, d) by {
                    assert(!st.shape.is_child(id, d));
                }
            }
            if t.leaf(id) {
                assert forall|d: NodeId| !#[trigger] st.shape.is_child(id, d) by {
                    assert(!t.shape.is_child(id, d));
                }
            }
        }
    }
}

/// Changing the lock count of one live node moves its tokens between the
/// counters when the count leaves or reaches zero.
pub proof fn lemma_lock_one(st: RadixState, id: NodeId, lock_ref: u32)
    requires
        st.wf(),
        0 < id < st.nodes.len(),
        st.nodes[id as int].value is Some,
    ensures
        ({
            let t = RadixState {
                nodes: st.nodes.update(id as int, NodeState { lock_ref, ..st.nodes[id as int] }),
                ..st
            };
            let was = st.nodes[id as int].lock_ref;
            let u = st.shape.units(id as int);
            &&& t.wf()
            &&& t.size() == st.size()
            &&& t.evictable() == st.evictable() + (if was == 0 && lock_ref > 0 {
                -u
            } else if was > 0 && lock_ref == 0 {
                u
            } else {
                0
            })
            &&& forall|x: NodeId|
                #[trigger] t.leaf(x) == (if x == id {
                    lock_ref == 0 && st.shape.is_leaf(id)
                } else {
                    st.leaf(x)
                })
        }),
{
    let t = RadixState {
        nodes: st.nodes.update(id as int, NodeState { lock_ref, ..st.nodes[id as int] }),
        ..st
    };
    let n = st.nodes.len();
    seqs::lemma_total_same(|i: int| st.held(i), |i: int| t.held(i), n);
    seqs::lemma_total_update(|i: int| st.loose(i), |i: int| t.loose(i), n, id as int);
    assert forall|i: int| 0 < i < n implies #[trigger] t.node_ok(i) by {
        assert(st.node_ok(i));
    }
}

/// Evicting a leaf takes its tokens off the evictable ones; its parent may
/// become a leaf.
pub proof fn lemma_dropped(st: RadixState, x: NodeId)
    requires
        st.wf(),
        st.leaf(x),
    ensures
        ({
            let t = st.dropped(x);
            let p = st.shape.nodes[x as int].parent;
            &&& t.wf()
            &&& t.evictable() == st.evictable() - st.shape.units(x as int)
            &&& t.protected() == st.protected()
            &&& t.size() == st.size() - st.shape.units(x as int)
            &&& st.shape.nodes[x as int].attached
            &&& st.nodes[x as int].value->0.len() == st.shape.units(x as int)
            &&& st.nodes[p as int].value is Some
            &&& t.nodes[p as int] == st.nodes[p as int]
            &&& forall|y: NodeId|
                #[trigger] t.leaf(y) == (y != x && (st.leaf(y) || y == p && p != ROOT && t.shape.is_leaf(p)
                    && st.nodes[p as int].lock_ref == 0))
        }),
{
    let t = st.dropped(x);
    let n = st.nodes.len();
    let p = st.shape.nodes[x as int].parent;
    topo::lemma_prune_wf(st.shape, x);
    topo::lemma_path_grows(st.shape, x);
    assert(st.node_ok(x as int));
    lemma_units(st, x as int);
    if p != ROOT {
        assert(st.node_ok(p as int));
    }
    seqs::lemma_total_update(|i: int| st.held(i), |i: int| t.held(i), n, x as int);
    seqs::lemma_total_update(|i: int| st.loose(i), |i: int| t.loose(i), n, x as int);
    seqs::lemma_total_same(|i: int| st.pinned(i), |i: int| t.pinned(i), n);
    assert forall|i: int| 0 < i < n implies #[trigger] t.node_ok(i) by {
        assert(st.node_ok(i));
        assert(st.shape.hangs(i));
        if st.shape.nodes[i].attached {
            assert(st.shape.is_child(st.shape.nodes[i].parent, i as NodeId));
        }
    }
    assert forall|y: NodeId|
        #[trigger] t.leaf(y) == (y != x && (st.leaf(y) || y == p && p != ROOT && t.shape.is_leaf(p)
            && st.nodes[p as int].lock_ref == 0)) by {
        if y != x && 0 < y < n {
            if st.leaf(y) {
                assert forall|d: NodeId| !#[trigger] t.shape.is_child(y, d) by {
                    assert(!st.shape.is_child(y, d));
                }
            }
            if t.leaf(y) && y != p {
                assert forall|d: NodeId| !#[trigger] st.shape.is_child(y, d) by {
                    assert(!t.shape.is_child(y, d));
                }
            }
        }
    }
}

/// Flattened queries are whole pages, and whole units.
pub proof fn lemma_flat(st: RadixState, key: RadixKey)
    requires
        st.wf(),
    ensures
        st.shape.aligned(st.flat(key).len() as int),
        (st.flat(key).len() as int) % (st.shape.unit as int) == 0,
{
    let page = st.shape.page;
    let n = key.units(st.bigram(key));
    let k = crate::key::page_floor(n, page);
    crate::key::lemma_page_floor(n, page);
    let len = st.flat(key).len() as int;
    let chunk = st.shape.chunk() as int;
    topo::lemma_chunk(st.shape);
    let q = n as int / page as int;
    assert(k == q * page);
    if st.bigram(key) {
        assert(len == 2 * k);
        if st.is_eagle {
            assert(chunk == 2 * page);
            assert(2 * (q * page as int) == q * (2 * page as int)) by (nonlinear_arith);
            vstd::arithmetic::div_mod::lemma_mod_multiples_basic(q, chunk);
        } else {
            assert(2 * (q * page as int) == (2 * q) * page as int) by (nonlinear_arith);
            vstd::arithmetic::div_mod::lemma_mod_multiples_basic(2 * q, chunk);
        }
    } else {
        assert(len == k);
        vstd::arithmetic::div_mod::lemma_mod_multiples_basic(q, chunk);
    }
}

/// One more node of the chain visited.
pub proof fn lemma_visited_step(st: RadixState, chain: Seq<NodeId>, k: int, now: u64)
    requires
        0 <= k < chain.len(),
        st.nodes.len() <= NodeId::MAX,
        chain[k] < st.nodes.len(),
    ensures
        st.visited(chain.take(k), now).stamped(chain[k], now) == st.visited(chain.take(k + 1), now),
{
    let a = st.visited(chain.take(k), now).stamped(chain[k], now);
    let b = st.visited(chain.take(k + 1), now);
    assert(chain.take(k + 1) =~= chain.take(k).push(chain[k]));
    assert forall|i: int| 0 <= i < st.nodes.len() implies a.nodes[i] == b.nodes[i] by {
        lemma_push_contains(chain.take(k), chain[k], i as NodeId);
    }
    assert(a.nodes =~= b.nodes);
}

/// Membership after a push.
pub proof fn lemma_push_contains(s: Seq<NodeId>, x: NodeId, y: NodeId)
    ensures
        s.push(x).contains(y) <==> s.contains(y) || x == y,
{
    if s.contains(y) {
        assert(s.push(x)[s.index_of(y)] == y);
    }
    assert(s.push(x)[s.len() as int] == x);
    if s.push(x).contains(y) && x != y {
        let i = s.push(x).index_of(y);
        assert(s[i] == y);
    }
}

/// One more node of the chain passed by an insert.
pub proof fn lemma_passed_step(
    st: RadixState,
    chain: Seq<NodeId>,
    k: int,
    now: u64,
    priority: i32,
    chunked: bool,
)
    requires
        0 <= k < chain.len(),
        st.nodes.len() <= NodeId::MAX,
        0 < chain[k] < st.nodes.len(),
        chain.no_duplicates(),
    ensures
        st.passed(chain.take(k), now, priority, chunked).struck(chain[k], now, priority, chunked) == st.passed(
            chain.take(k + 1),
            now,
            priority,
            chunked,
        ),
        st.passed(chain.take(k), now, priority, chunked).nodes[chain[k] as int] == st.nodes[chain[k] as int],
{
    let a = st.passed(chain.take(k), now, priority, chunked).struck(chain[k], now, priority, chunked);
    let b = st.passed(chain.take(k + 1), now, priority, chunked);
    assert(chain.take(k + 1) =~= chain.take(k).push(chain[k]));
    assert(!chain.take(k).contains(chain[k])) by {
        if chain.take(k).contains(chain[k]) {
            let j = chain.take(k).index_of(chain[k]);
            assert(chain[j] == chain[k]);
        }
    }
    assert forall|i: int| 0 <= i < st.nodes.len() implies a.nodes[i] == b.nodes[i] by {
        lemma_push_contains(chain.take(k), chain[k], i as NodeId);
    }
    assert(a.nodes =~= b.nodes);
}

/// One more node locked.
pub proof fn lemma_locked_step(st: RadixState, ids: Seq<NodeId>, k: int)
    requires
        0 <= k < ids.len(),
        st.nodes.len() <= NodeId::MAX,
        ids[k] < st.nodes.len(),
        ids.no_duplicates(),
    ensures
        ({
            let a = st.locked(ids.take(k));
            let n = st.nodes[ids[k] as int];
            &&& a.nodes[ids[k] as int] == n
            &&& st.locked(ids.take(k + 1)) == (RadixState {
                nodes: a.nodes.update(
                    ids[k] as int,
                    NodeState { lock_ref: (n.lock_ref + 1) as u32, ..n },
                ),
                ..a
            })
        }),
        ({
            let a = st.unlocked(ids.take(k));
            let n = st.nodes[ids[k] as int];
            &&& a.nodes[ids[k] as int] == n
            &&& st.unlocked(ids.take(k + 1)) == (RadixState {
                nodes: a.nodes.update(
                    ids[k] as int,
                    NodeState { lock_ref: (n.lock_ref - 1) as u32, ..n },
                ),
                ..a
            })
        }),
{
    assert(ids.take(k + 1) =~= ids.take(k).push(ids[k]));
    assert(!ids.take(k).contains(ids[k])) by {
        if ids.take(k).contains(ids[k]) {
            let j = ids.take(k).index_of(ids[k]);
            assert(ids[j] == ids[k]);
        }
    }
    let n = st.nodes[ids[k] as int];
    let a = st.locked(ids.take(k));
    let b = st.unlocked(ids.take(k));
    let a1 = a.nodes.update(ids[k] as int, NodeState { lock_ref: (n.lock_ref + 1) as u32, ..n });
    let b1 = b.nodes.update(ids[k] as int, NodeState { lock_ref: (n.lock_ref - 1) as u32, ..n });
    assert forall|i: int| 0 <= i < st.nodes.len() implies st.locked(ids.take(k + 1)).nodes[i] == a1[i]
        && st.unlocked(ids.take(k + 1)).nodes[i] == b1[i] by {
        lemma_push_contains(ids.take(k), ids[k], i as NodeId);
    }
    assert(st.locked(ids.take(k + 1)).nodes =~= a1);
    assert(st.unlocked(ids.take(k + 1)).nodes =~= b1);
}

/// All nodes on the way up from a live node are live.
pub proof fn lemma_up_live(st: RadixState, id: NodeId)
    requires
        st.wf(),
        st.live(id),
    ensures
        forall|k: int| 0 <= k < st.shape.up(id).len() ==> st.live(#[trigger] st.shape.up(id)[k]),
    decreases st.shape.nodes[id as int].path.len(),
{
    if id != ROOT {
        topo::lemma_path_grows(st.shape, id);
        assert(st.node_ok(id as int));
        let p = st.shape.nodes[id as int].parent;
        if p != ROOT {
            assert(st.node_ok(p as int));
        }
        lemma_up_live(st, p);
        assert forall|k: int| 0 <= k < st.shape.up(id).len() implies st.live(#[trigger] st.shape.up(id)[k]) by {
            if k > 0 {
                assert(st.shape.up(id)[k] == st.shape.up(p)[k - 1]);
            }
        }
    }
}

/// Below the front of a cut only the tail is listed.
pub proof fn lemma_front_children(s: Shape, c: NodeId, m: int, ns: u32, head: Seq<i64>)
    requires
        s.wf(),
        0 < c < s.nodes.len() < NodeId::MAX,
        s.nodes[c as int].key.skip(m).take(s.chunk() as int) != head,
    ensures
        s.split(c, m).child_of(s.nodes.len() as NodeId, ns, head) is None,
{
    let t = s.split(c, m);
    let f = s.nodes.len() as NodeId;
    assert forall|d: NodeId| !t.named(f, ns, head, d) by {
        if t.named(f, ns, head, d) && d != c {
            assert(t.is_child(f, d));
            if 0 < d < s.nodes.len() {
                assert(s.hangs(d as int));
            } else {
                topo::lemma_path_grows(s, c);
            }
        }
    }
}

/// Whether `x` leaves first among the leaves below id `n`.
spec fn first_below(st: RadixState, n: int, x: NodeId) -> bool {
    &&& st.leaf(x)
    &&& x < n
    &&& forall|z: NodeId| #[trigger] st.leaf(z) && z < n && z != x ==> st.item(x).before(st.item(z))
}

/// Of the leaves below id `n` one leaves first.
proof fn lemma_first_below(st: RadixState, n: int)
    requires
        0 <= n <= st.nodes.len() <= NodeId::MAX,
    ensures
        (exists|y: NodeId| st.leaf(y) && y < n) ==> exists|x: NodeId| first_below(st, n, x),
    decreases n,
{
    if n > 0 {
        let last = (n - 1) as NodeId;
        let m = n - 1;
        lemma_first_below(st, m);
        if exists|y: NodeId| st.leaf(y) && y < m {
            let x = choose|x: NodeId| first_below(st, m, x);
            assert(first_below(st, m, x));
            if st.leaf(last) && st.item(last).before(st.item(x)) {
                assert(first_below(st, n, last));
            } else {
                assert(first_below(st, n, x));
            }
        } else if st.leaf(last) {
            assert(first_below(st, n, last));
        }
    }
}

/// The victim is the one leaf that leaves first, where there is a leaf.
pub proof fn lemma_victim(st: RadixState)
    requires
        st.nodes.len() <= NodeId::MAX,
    ensures
        (exists|y: NodeId| st.leaf(y)) ==> st.leaves_first(st.victim()),
        forall|x: NodeId| #[trigger] st.leaves_first(x) ==> x == st.victim(),
{
    if exists|y: NodeId| st.leaf(y) {
        let y = choose|y: NodeId| st.leaf(y);
        assert(st.leaf(y) && y < st.nodes.len());
        lemma_first_below(st, st.nodes.len() as int);
        let n = st.nodes.len() as int;
        let x = choose|x: NodeId| first_below(st, n, x);
        assert(first_below(st, n, x));
        assert(st.leaves_first(x));
    }
    assert forall|x: NodeId| #[trigger] st.leaves_first(x) implies x == st.victim() by {
        let v = st.victim();
        assert(st.leaves_first(v));
        if x != v {
            assert(st.leaf(v));
            assert(st.leaf(x));
        }
    }
}

/// What a query's walk passes is live, distinct and in the query's namespace.
pub proof fn lemma_query(st: RadixState, key: RadixKey)
    requires
        st.wf(),
    ensures
        ({
            let w = st.walk(key);
            let flat = st.flat(key);
            let end = topo::end_of(w.chain);
            let unit = st.shape.unit as int;
            &&& st.shape.aligned(flat.len() as int)
            &&& w.used <= flat.len()
            &&& st.shape.aligned(w.used as int)
            &&& w.used as int % unit == 0
            &&& w.chain.no_duplicates()
            &&& st.live(end)
            &&& st.shape.nodes[end as int].attached
            &&& end != ROOT ==> st.shape.nodes[end as int].ns == st.ns_of(key)
            &&& forall|j: int|
                0 <= j < w.chain.len() ==> {
                    let c = #[trigger] w.chain[j];
                    0 < c < st.nodes.len() && st.nodes[c as int].value is Some
                }
            &&& w.stop matches Some((c, m)) ==> {
                &&& 0 < c < st.nodes.len()
                &&& st.shape.nodes[c as int].attached
                &&& st.nodes[c as int].value is Some
                &&& st.shape.nodes[c as int].ns == st.ns_of(key)
                &&& !w.chain.contains(c)
                &&& 0 < m < st.shape.nodes[c as int].key.len()
                &&& st.shape.aligned(m as int)
            }
            &&& w.used < flat.len() && st.fits(key) ==> match w.stop {
                None => st.shape.child_of(
                    end,
                    st.ns_of(key),
                    flat.skip(w.used as int).take(st.shape.chunk() as int),
                ) is None,
                Some((c, m)) => flat.skip(w.used as int).take(st.shape.chunk() as int)
                    != st.shape.nodes[c as int].key.skip(m as int).take(st.shape.chunk() as int),
            }
        }),
{
    lemma_flat(st, key);
    let w = st.walk(key);
    let flat = st.flat(key);
    topo::lemma_chunk(st.shape);
    vstd::arithmetic::div_mod::lemma_small_mod(0, st.shape.chunk());
    topo::lemma_walk(st.shape, ROOT, st.ns_of(key), flat);
    topo::lemma_aligned(st.shape, w.used as int, 0);
    assert forall|j: int| 0 <= j < w.chain.len() implies {
        let c = #[trigger] w.chain[j];
        0 < c < st.nodes.len() && st.nodes[c as int].value is Some
    } by {
        assert(st.node_ok(w.chain[j] as int));
    }
    if let Some((c, m)) = w.stop {
        assert(st.node_ok(c as int));
    }
}

/// The walk of an insert moves no token and makes no leaf.
pub proof fn lemma_insert_walk(st: RadixState, key: RadixKey, priority: i32, chunked: bool)
    requires
        st.wf(),
        st.roomy(),
    ensures
        ({
            let t = st.after_insert_walk(key, priority, chunked).0;
            &&& t.wf()
            &&& t.evictable() == st.evictable()
            &&& t.protected() == st.protected()
            &&& t.size() == st.size()
            &&& forall|id: NodeId| #[trigger] t.leaf(id) == st.leaf(id)
        }),
{
    lemma_query(st, key);
    let now = (st.clock + 1) as u64;
    let w = st.walk(key);
    let names = ns::interned(st.names, key.namespace()).0;
    let a = RadixState { names, clock: now, ..st.passed(w.chain, now, priority, chunked) };
    assert forall|i: int| 0 <= i < a.nodes.len() implies (#[trigger] a.nodes[i]).hit_count <= a.clock by {
        if i > 0 {
            assert(st.node_ok(i));
        }
    }
    lemma_same_holdings(st, a);
    if let Some((c, m)) = w.stop {
        let b = a.stamped(c, now);
        lemma_same_holdings(a, b);
        lemma_cut(b, c, m as int, (now + 1) as u64);
        let d = b.cut(c, m as int, (now + 1) as u64);
        let f = st.nodes.len() as NodeId;
        let e = d.struck(f, d.nodes[f as int].last_access, priority, chunked);
        assert forall|i: int| 0 <= i < e.nodes.len() implies (#[trigger] e.nodes[i]).hit_count <= e.clock by {
            if i > 0 {
                assert(d.node_ok(i));
                assert(b.node_ok(c as int));
            }
        }
        lemma_same_holdings(d, e);
    }
}

} // verus!
