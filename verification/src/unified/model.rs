//! The model of the unified tree: its state, and the steps that every
//! operation is made of.

use crate::hi_model::{opt_skip, opt_take};
use crate::key;
use crate::lru;
use crate::seqs;
use crate::topo;
use crate::topo::{NodeId, Shape, Walk, ROOT};
use crate::unified::{Act, UConfig, UrkvEvent};
use vstd::prelude::*;

verus! {

/// The ids right behind the root's name the ends of the LRU lists, two for
/// each of the eight; nodes get the ids after them.
pub const LIST_ENDS: usize = 16;

/// One tick of the tree's clock, in the unit of stamps.
pub const TICK: i128 = 100_000;

/// Where the clock stands still: after 2^53 ticks.
pub const CLOCK_CAP: i128 = 900_719_925_474_099_200_000;

/// The clock one tick after `t`.
pub open spec fn later(t: i128) -> i128 {
    if t < CLOCK_CAP {
        (t + TICK) as i128
    } else {
        t
    }
}

/// What one node holds. The lists are by component id.
#[verifier::ext_equal]
pub struct UNodeState {
    /// Device runs.
    pub value: Seq<Option<Seq<i64>>>,
    /// Host runs.
    pub host: Seq<Option<Seq<i64>>>,
    pub lock: Seq<i32>,
    pub host_lock: Seq<i32>,
    /// The children, oldest first.
    pub kids: Seq<NodeId>,
    pub access: i128,
    pub creation: i128,
    pub hits: i64,
    pub priority: i64,
    pub hashes: Option<Seq<Seq<char>>>,
    pub event_hashes: Option<Seq<Seq<char>>>,
    /// The acknowledgement that a write-through in flight awaits.
    pub wt: Option<i64>,
    /// The anchor of a load-back in flight.
    pub lb: Option<NodeId>,
    /// Mark of a filled device window.
    pub mark: Option<i64>,
    /// Mark of a filled host window.
    pub host_mark: Option<i64>,
}

impl UNodeState {
    /// A node without runs, locks or children.
    pub open spec fn blank(access: i128, creation: i128, priority: i64) -> UNodeState {
        UNodeState {
            value: seq![None, None, None, None],
            host: seq![None, None, None, None],
            lock: seq![0, 0, 0, 0],
            host_lock: seq![0, 0, 0, 0],
            kids: Seq::empty(),
            access,
            creation,
            hits: 0,
            priority,
            hashes: None,
            event_hashes: None,
            wt: None,
            lb: None,
            mark: None,
            host_mark: None,
        }
    }

    /// The root of an empty tree.
    pub open spec fn root() -> UNodeState {
        UNodeState {
            value: seq![Some(Seq::empty()), None, None, None],
            lock: seq![1, 1, 1, 1],
            hashes: Some(Seq::empty()),
            ..UNodeState::blank(TICK, (2 * TICK) as i128, i64::MIN)
        }
    }

    /// One entry per component id.
    pub open spec fn arity(self) -> bool {
        &&& self.value.len() == 4
        &&& self.host.len() == 4
        &&& self.lock.len() == 4
        &&& self.host_lock.len() == 4
    }

    /// No run on either side.
    pub open spec fn bare(self) -> bool {
        &&& self.value[0] is None && self.value[1] is None && self.value[2] is None
        &&& self.host[0] is None && self.host[1] is None && self.host[2] is None
    }

    /// No component locks the device side.
    pub open spec fn unlocked(self) -> bool {
        self.lock[0] == 0 && self.lock[1] == 0 && self.lock[2] == 0 && self.lock[3] == 0
    }

    /// No component locks the host side.
    pub open spec fn host_unlocked(self) -> bool {
        &&& self.host_lock[0] == 0 && self.host_lock[1] == 0
        &&& self.host_lock[2] == 0 && self.host_lock[3] == 0
    }

    /// Lock counts are counts.
    pub open spec fn counted(self) -> bool {
        &&& self.lock[0] >= 0 && self.lock[1] >= 0 && self.lock[2] >= 0
        &&& self.host_lock[0] >= 0 && self.host_lock[1] >= 0 && self.host_lock[2] >= 0
        &&& self.host_lock[3] == 0
    }

    pub open spec fn with_value(self, ct: int, v: Option<Seq<i64>>) -> UNodeState {
        UNodeState { value: self.value.update(ct, v), ..self }
    }

    pub open spec fn with_host(self, ct: int, v: Option<Seq<i64>>) -> UNodeState {
        UNodeState { host: self.host.update(ct, v), ..self }
    }

    pub open spec fn with_lock(self, ct: int, n: i32) -> UNodeState {
        UNodeState { lock: self.lock.update(ct, n), ..self }
    }

    pub open spec fn with_host_lock(self, ct: int, n: i32) -> UNodeState {
        UNodeState { host_lock: self.host_lock.update(ct, n), ..self }
    }
}

/// An optional run, if it is there, has one item per unit.
pub open spec fn run_fits(v: Option<Seq<i64>>, units: int) -> bool {
    v is Some ==> v->0.len() == units
}

/// A hash list, if it is there, covers the pages of `units`.
pub open spec fn hashes_fit(h: Option<Seq<Seq<char>>>, units: int, page: int) -> bool {
    h is Some ==> units <= h->0.len() * page
}

/// The first `n` hashes of an optional list.
pub open spec fn hash_take(v: Option<Seq<Seq<char>>>, n: int) -> Option<Seq<Seq<char>>> {
    match v {
        Some(v) => Some(v.take(n)),
        None => None,
    }
}

/// The hashes of an optional list past the first `n`.
pub open spec fn hash_skip(v: Option<Seq<Seq<char>>>, n: int) -> Option<Seq<Seq<char>>> {
    match v {
        Some(v) => Some(v.skip(n)),
        None => None,
    }
}

/// `kids` with `b` in the place of `a`.
pub open spec fn replaced(kids: Seq<NodeId>, a: NodeId, b: NodeId) -> Seq<NodeId> {
    kids.update(kids.index_of(a), b)
}

/// `order` without `x`, if it is there.
pub open spec fn rid(order: Seq<NodeId>, x: NodeId) -> Seq<NodeId> {
    if order.contains(x) {
        lru::without(order, x)
    } else {
        order
    }
}

/// The raw tokens of a flattened key: bigrams overlap by one token.
pub open spec fn raw_of(flat: Seq<i64>, eagle: bool) -> Seq<i64> {
    if eagle && flat.len() > 0 {
        let n = flat.len() / 2;
        Seq::new(n + 1, |i: int| if i < n { flat[2 * i] } else { flat[2 * n - 1] })
    } else {
        flat
    }
}

/// The phase of an insert in steps.
#[derive(Debug, Clone, Copy, PartialEq, Eq, Structural)]
pub enum InsertPhase {
    /// Following the key down.
    Walk,
    /// Adding the leaf and what components attach to it.
    Commit,
    /// Refreshing recency and asking for a backup.
    Tail,
}

/// What an insert is told besides key and value.
#[verifier::ext_equal]
pub struct Asked {
    pub prev_prefix_len: i64,
    pub chunked: bool,
    pub priority: i64,
    pub swa_evicted_seqlen: i64,
    pub mamba_value: Option<Seq<i64>>,
}

/// What an insert reports.
#[verifier::ext_equal]
pub struct Inserted {
    pub prefix_len: int,
    pub total_len: int,
    pub last_device_node: NodeId,
    pub mamba_exist: bool,
    pub host_node: Option<NodeId>,
    pub host_dropped: bool,
    pub created: Seq<NodeId>,
    pub actions: Seq<Act>,
}

/// An insert in flight: where it stands, and what is left of the flattened
/// key and of the value.
#[verifier::ext_equal]
pub struct Inserting {
    pub phase: InsertPhase,
    pub node: NodeId,
    pub ns: u32,
    pub key: Seq<i64>,
    pub value: Seq<i64>,
    pub asked: Asked,
    pub done: int,
    pub new_leaf: bool,
    pub target: NodeId,
    pub result: Option<Inserted>,
    pub pending: Seq<Act>,
}

/// A leaf in line for eviction: its strategy key, then its id.
#[derive(Debug, Clone, Copy, PartialEq, Eq, Structural)]
pub struct Ranked {
    pub a: i64,
    pub t: i128,
    pub id: u32,
}

/// A FULL device-eviction walk.
#[verifier::ext_equal]
pub struct FullWalk {
    pub request: i64,
    pub last: Option<NodeId>,
    pub heap: Seq<Ranked>,
}

/// An SWA or MAMBA device-eviction walk: a cursor in the LRU list.
#[derive(Debug, Clone, Copy, PartialEq, Eq, Structural)]
pub struct LruEvictWalk {
    pub request_cnt: i64,
    pub cursor: Option<u32>,
}

/// The state of a tree. Sizes and leaf sets follow from it.
#[verifier::ext_equal]
pub struct UState {
    pub cfg: UConfig,
    pub hicache: bool,
    pub storage: bool,
    pub shape: Shape,
    pub nodes: Seq<UNodeState>,
    /// LRU lists, most recent first: `2 * ct` device, `2 * ct + 1` host.
    pub lru: Seq<Seq<NodeId>>,
    pub clock: i128,
    pub uuids: i64,
    /// Nodes known to hold KV on both sides, oldest first.
    pub dups: Seq<NodeId>,
    pub digest: u64,
    pub log: Seq<UrkvEvent>,
    pub ongoing: Option<Inserting>,
    pub full_walk: Option<FullWalk>,
    pub swa_walk: Option<LruEvictWalk>,
    pub mamba_walk: Option<LruEvictWalk>,
}

impl UState {
    /// An empty tree: the root, and the ends of its lists.
    pub open spec fn fresh(cfg: UConfig) -> UState {
        UState {
            cfg,
            hicache: false,
            storage: false,
            shape: Shape::bare(cfg.page_size as nat, if cfg.is_eagle { 2 } else { 1 }).with_spares(
                LIST_ENDS as nat,
            ),
            nodes: seq![UNodeState::root()] + Seq::new(LIST_ENDS as nat, |i: int| UNodeState::blank(0, 0, 0)),
            lru: Seq::new(8, |i: int| Seq::<NodeId>::empty()),
            clock: (3 * TICK) as i128,
            uuids: 1,
            dups: Seq::empty(),
            digest: 0,
            log: Seq::empty(),
            ongoing: None,
            full_walk: None,
            swa_walk: None,
            mamba_walk: None,
        }
    }

    // ---- nodes ----

    /// Whether `id` names a node of the tree.
    pub open spec fn live(self, id: NodeId) -> bool {
        id < self.nodes.len() && self.shape.nodes[id as int].attached
    }

    /// Whether `id` names a node of the tree below the root.
    pub open spec fn inner(self, id: NodeId) -> bool {
        id != ROOT && self.live(id)
    }

    /// Units on the edge of `id`.
    pub open spec fn units(self, id: NodeId) -> int {
        self.shape.units(id as int)
    }

    /// Below the root without a FULL device run.
    pub open spec fn evicted(self, id: NodeId) -> bool {
        id != ROOT && self.nodes[id as int].value[0] is None
    }

    /// With a FULL host run.
    pub open spec fn backuped(self, id: NodeId) -> bool {
        self.nodes[id as int].host[0] is Some
    }

    /// What node `i` counts towards the locked or the unlocked device tokens
    /// of component `ct`.
    pub open spec fn weight(self, ct: int, locked: bool, i: int) -> int {
        let n = self.nodes[i];
        if i > 0 && n.value[ct] is Some && (n.lock[ct] > 0) == locked {
            n.value[ct]->0.len() as int
        } else {
            0
        }
    }

    /// Locked or unlocked device tokens of component `ct`.
    pub open spec fn count(self, ct: int, locked: bool) -> int {
        seqs::total(|i: int| self.weight(ct, locked, i), self.nodes.len())
    }

    /// Device tokens of component `ct`.
    pub open spec fn size(self, ct: int) -> int {
        self.count(ct, false) + self.count(ct, true)
    }

    /// No child of `id` holds a FULL device run.
    pub open spec fn no_device_kid(self, id: NodeId) -> bool {
        forall|c: NodeId| #[trigger] self.shape.is_child(id, c) ==> self.nodes[c as int].value[0] is None
    }

    /// A leaf of the device part of the tree that nothing locks.
    pub open spec fn device_leaf(self, id: NodeId) -> bool {
        &&& self.inner(id)
        &&& self.nodes[id as int].value[0] is Some
        &&& self.nodes[id as int].unlocked()
        &&& self.no_device_kid(id)
    }

    /// A leaf of the tree with a FULL host run alone that nothing locks.
    pub open spec fn host_leaf(self, id: NodeId) -> bool {
        &&& self.inner(id)
        &&& self.nodes[id as int].value[0] is None
        &&& self.nodes[id as int].host[0] is Some
        &&& self.nodes[id as int].host_unlocked()
        &&& self.shape.is_leaf(id)
    }

    /// FULL runs on both sides and no transfer in flight.
    pub open spec fn settled_duplicate(self, id: NodeId) -> bool {
        let n = self.nodes[id as int];
        &&& id != ROOT
        &&& n.value[0] is Some
        &&& n.host[0] is Some
        &&& n.wt is None
        &&& n.lb is None
    }

    /// Node `i` lists its children, each once.
    pub open spec fn kids_ok(self, i: int) -> bool {
        &&& self.nodes[i].kids.no_duplicates()
        &&& forall|c: NodeId| #[trigger] self.nodes[i].kids.contains(c) == self.shape.is_child(i as NodeId, c)
    }

    /// Node `i` holds FULL KV on one side at least while its parent lists it,
    /// and nothing else; FULL device runs hang below one another; runs are as
    /// long as the key, state runs aside; other components have device runs
    /// only over FULL ones; only what has a device run is locked there.
    pub open spec fn node_ok(self, i: int) -> bool {
        let spot = self.shape.nodes[i];
        let n = self.nodes[i];
        let u = self.shape.units(i);
        &&& n.arity()
        &&& n.counted()
        &&& !spot.attached ==> n.bare()
        &&& spot.attached ==> n.value[0] is Some || n.host[0] is Some
        &&& spot.attached ==> self.shape.nodes[spot.parent as int].attached
        &&& n.value[0] is Some ==> self.nodes[spot.parent as int].value[0] is Some
        &&& run_fits(n.value[0], u) && run_fits(n.host[0], u)
        &&& run_fits(n.value[1], u) && run_fits(n.host[1], u)
        &&& n.value[1] is Some || n.value[2] is Some ==> n.value[0] is Some
        &&& n.value[0] is None ==> n.lock[0] == 0
        &&& n.value[1] is None ==> n.lock[1] == 0
        &&& n.value[2] is None ==> n.lock[2] == 0
        &&& n.value[3] is None && n.host[3] is None && n.lock[3] == 0
        &&& !self.cfg.swa() ==> n.value[1] is None && n.host[1] is None
        &&& !self.cfg.mamba() ==> n.value[2] is None && n.host[2] is None
        &&& hashes_fit(n.hashes, u, self.shape.page as int)
        &&& hashes_fit(n.event_hashes, u, self.shape.page as int)
    }

    /// The root holds nothing and is always locked.
    pub open spec fn root_ok(self) -> bool {
        let n = self.nodes[0];
        &&& n.arity()
        &&& n.counted()
        &&& n.value =~= seq![Some(Seq::<i64>::empty()), None, None, None]
        &&& n.host =~= seq![None::<Seq<i64>>, None, None, None]
        &&& n.lock =~= seq![1i32, 1, 1, 1]
        &&& n.hashes is Some
    }

    /// The lists of component `ct` on node `x`: the device list has the nodes
    /// with a device run, the host list those with a host run alone, of which
    /// locked ones may be missing.
    pub open spec fn lists_ok(self, ct: int, x: NodeId) -> bool {
        let n = self.nodes[x as int];
        let dev = self.lru[2 * ct];
        let host = self.lru[2 * ct + 1];
        &&& dev.contains(x) == (self.inner(x) && n.value[ct] is Some)
        &&& host.contains(x) ==> self.inner(x) && n.value[ct] is None && n.host[ct] is Some
        &&& self.inner(x) && n.value[ct] is None && n.host[ct] is Some && n.host_lock[ct] == 0
            ==> host.contains(x)
    }

    /// The LRU lists name what they should, each node once.
    pub open spec fn listed(self) -> bool {
        &&& self.lru.len() == 8
        &&& self.lru[0].len() == 0 && self.lru[1].len() == 0
        &&& self.lru[6].len() == 0 && self.lru[7].len() == 0
        &&& self.lru[2].no_duplicates() && self.lru[3].no_duplicates()
        &&& self.lru[4].no_duplicates() && self.lru[5].no_duplicates()
        &&& forall|x: NodeId| #[trigger] self.lists_ok(1, x)
        &&& forall|x: NodeId| #[trigger] self.lists_ok(2, x)
    }

    /// Everything but the LRU lists.
    pub open spec fn built(self) -> bool {
        &&& self.cfg.wf()
        &&& self.shape.wf()
        &&& self.shape.page == self.cfg.page_size
        &&& self.shape.unit == (if self.cfg.is_eagle { 2nat } else { 1 })
        &&& self.nodes.len() == self.shape.nodes.len()
        &&& self.root_ok()
        &&& forall|i: int| 0 < i < self.nodes.len() ==> #[trigger] self.node_ok(i)
        &&& forall|i: int| 0 <= i < self.nodes.len() ==> #[trigger] self.kids_ok(i)
        &&& self.dups.no_duplicates()
        &&& forall|x: NodeId| #[trigger] self.dups.contains(x) ==> self.inner(x)
        &&& TICK <= self.clock <= CLOCK_CAP + TICK
        &&& self.size(0) <= i64::MAX
        &&& self.size(1) <= i64::MAX
        &&& self.size(2) <= i64::MAX
    }

    /// A possible state of a tree.
    pub open spec fn wf(self) -> bool {
        self.built() && self.listed()
    }

    /// Room for `n` more nodes.
    pub open spec fn roomy(self, n: int) -> bool {
        self.nodes.len() + n <= NodeId::MAX
    }

    // ---- steps ----

    /// Node `id` with the contents `n` instead.
    pub open spec fn patched(self, id: NodeId, n: UNodeState) -> UState {
        UState { nodes: self.nodes.update(id as int, n), ..self }
    }

    /// The list `slot` with the order `order` instead.
    pub open spec fn relisted(self, slot: int, order: Seq<NodeId>) -> UState {
        UState { lru: self.lru.update(slot, order), ..self }
    }

    /// One tick later, with node `id` visited.
    pub open spec fn touched(self, id: NodeId) -> UState {
        UState { clock: later(self.clock), ..self.patched(
            id,
            UNodeState { access: self.clock, ..self.nodes[id as int] },
        ) }
    }

    /// With an event logged.
    pub open spec fn logged(self, op: u8, node: NodeId, medium: u8) -> UState {
        UState { log: self.log.push(UrkvEvent { op, node, medium }), ..self }
    }

    /// With node `id` noted or forgotten as a duplicate, whichever it is.
    pub open spec fn noted(self, id: NodeId) -> UState {
        if self.settled_duplicate(id) {
            if self.dups.contains(id) {
                self
            } else {
                UState { dups: self.dups.push(id), ..self }
            }
        } else {
            self.forgotten(id)
        }
    }

    /// With node `id` not noted as a duplicate.
    pub open spec fn forgotten(self, id: NodeId) -> UState {
        UState { dups: rid(self.dups, id), ..self }
    }

    /// A device run of another component stored on `id`.
    pub open spec fn stored(self, id: NodeId, ct: int, v: Seq<i64>) -> UState {
        UState {
            lru: self.lru.update(2 * ct, seq![id] + self.lru[2 * ct]).update(
                2 * ct + 1,
                rid(self.lru[2 * ct + 1], id),
            ),
            ..self.patched(id, self.nodes[id as int].with_value(ct, Some(v)))
        }
    }

    /// The device run of another component dropped from `id`; a host run
    /// that is left makes the node the most recent of the host list.
    pub open spec fn dropped(self, id: NodeId, ct: int) -> UState {
        let host = if self.nodes[id as int].host[ct] is Some {
            seq![id] + self.lru[2 * ct + 1]
        } else {
            self.lru[2 * ct + 1]
        };
        UState {
            lru: self.lru.update(2 * ct, rid(self.lru[2 * ct], id)).update(2 * ct + 1, host),
            ..self.patched(id, self.nodes[id as int].with_value(ct, None))
        }
    }

    /// The host list of `ct` with `id` in front, if it belongs there and is
    /// not there.
    pub open spec fn host_list_with(self, id: NodeId, ct: int) -> Seq<NodeId> {
        if self.nodes[id as int].value[ct] is None && !self.lru[2 * ct + 1].contains(id) {
            seq![id] + self.lru[2 * ct + 1]
        } else {
            self.lru[2 * ct + 1]
        }
    }

    /// With `id` on the host list of `ct`, if it has a host run.
    pub open spec fn host_listed(self, id: NodeId, ct: int) -> UState {
        if self.nodes[id as int].host[ct] is Some {
            self.relisted(2 * ct + 1, self.host_list_with(id, ct))
        } else {
            self
        }
    }

    /// A host run of another component stored on `id`.
    pub open spec fn hosted(self, id: NodeId, ct: int, v: Seq<i64>) -> UState {
        self.patched(id, self.nodes[id as int].with_host(ct, Some(v))).relisted(
            2 * ct + 1,
            self.host_list_with(id, ct),
        )
    }

    /// The host run of another component dropped from `id`.
    pub open spec fn unhosted(self, id: NodeId, ct: int) -> UState {
        self.patched(id, self.nodes[id as int].with_host(ct, None)).relisted(
            2 * ct + 1,
            rid(self.lru[2 * ct + 1], id),
        )
    }

    /// One host lock of `ct` more on `id`; the first takes it off the host
    /// list.
    pub open spec fn host_held(self, id: NodeId, ct: int) -> UState {
        let n = self.nodes[id as int];
        let t = self.patched(id, n.with_host_lock(ct, (n.host_lock[ct] + 1) as i32));
        if n.host_lock[ct] == 0 {
            t.relisted(2 * ct + 1, rid(self.lru[2 * ct + 1], id))
        } else {
            t
        }
    }

    /// One host lock of `ct` less on `id`; the last puts it back on the host
    /// list.
    pub open spec fn host_freed(self, id: NodeId, ct: int) -> UState {
        let n = self.nodes[id as int];
        let t = self.patched(id, n.with_host_lock(ct, (n.host_lock[ct] - 1) as i32));
        if n.host_lock[ct] == 1 && ct != 0 && n.host[ct] is Some {
            t.relisted(2 * ct + 1, self.host_list_with(id, ct))
        } else {
            t
        }
    }

    /// The front part of node `c` cut after `m` flattened elements. States
    /// stay with the rest.
    pub open spec fn front_of(self, c: NodeId, m: int) -> UNodeState {
        let n = self.nodes[c as int];
        let u = m / self.shape.unit as int;
        let pages = u / self.shape.page as int;
        UNodeState {
            value: seq![opt_take(n.value[0], u), opt_take(n.value[1], u), None, None],
            host: seq![opt_take(n.host[0], u), opt_take(n.host[1], u), None, None],
            lock: seq![n.lock[0], n.lock[1], 0, 0],
            host_lock: seq![0, 0, 0, 0],
            kids: seq![c],
            access: self.clock,
            hashes: hash_take(n.hashes, pages),
            event_hashes: hash_take(n.event_hashes, pages),
            mark: if self.cfg.swa() {
                n.mark
            } else {
                None
            },
            host_mark: None,
            ..n
        }
    }

    /// The rest of node `c` cut after `m` flattened elements.
    pub open spec fn tail_of(self, c: NodeId, m: int) -> UNodeState {
        let n = self.nodes[c as int];
        let u = m / self.shape.unit as int;
        let pages = u / self.shape.page as int;
        UNodeState {
            value: seq![opt_skip(n.value[0], u), opt_skip(n.value[1], u), n.value[2], None],
            host: seq![opt_skip(n.host[0], u), opt_skip(n.host[1], u), n.host[2], None],
            access: later(later(self.clock)),
            hashes: hash_skip(n.hashes, pages),
            event_hashes: hash_skip(n.event_hashes, pages),
            mark: if self.cfg.swa() {
                None
            } else {
                n.mark
            },
            ..n
        }
    }

    /// The LRU lists once `c` is cut and `f` is its front: both parts become
    /// the most recent, the rest of the node first.
    pub open spec fn cut_lists(self, c: NodeId, f: NodeId) -> Seq<Seq<NodeId>> {
        let n = self.nodes[c as int];
        let swa = if n.value[1] is Some {
            lru::with_pair(self.lru[2], c, f)
        } else {
            self.lru[2]
        };
        let swa_host = if n.value[1] is None && n.host[1] is Some {
            if self.lru[3].contains(c) {
                seq![f] + self.lru[3]
            } else {
                seq![c] + (seq![f] + self.lru[3])
            }
        } else {
            self.lru[3]
        };
        let mamba = if n.value[2] is Some {
            lru::touched(self.lru[4], c)
        } else {
            self.lru[4]
        };
        self.lru.update(2, swa).update(3, swa_host).update(4, mamba)
    }

    /// Node `c` cut after `m` flattened elements: a new node takes the front
    /// and its place, `c` keeps the rest below it.
    pub open spec fn cut(self, c: NodeId, m: int) -> UState {
        let p = self.shape.nodes[c as int].parent;
        let f = self.nodes.len() as NodeId;
        let above = self.nodes[p as int];
        UState {
            shape: self.shape.split(c, m),
            nodes: self.nodes.update(c as int, self.tail_of(c, m)).update(
                p as int,
                UNodeState { kids: replaced(above.kids, c, f), ..above },
            ).push(self.front_of(c, m)),
            lru: self.cut_lists(c, f),
            clock: later(later(later(self.clock))),
            ..self
        }.noted(f)
    }

    /// What a cut of `c` has to report: a write-through in flight now awaits
    /// two nodes.
    pub open spec fn cut_report(self, c: NodeId) -> Option<Act> {
        match self.nodes[c as int].wt {
            Some(ack) => Some(
                Act::ReplaceWT { ack, old: c, front: self.nodes.len() as NodeId, child: c },
            ),
            None => None,
        }
    }

    /// Whether `c` can be cut after `m` flattened elements.
    pub open spec fn cuttable(self, c: NodeId, m: int) -> bool {
        &&& self.inner(c)
        &&& 0 < m < self.shape.nodes[c as int].key.len()
        &&& self.shape.aligned(m)
        &&& self.roomy(1)
    }

    /// A new leaf `n` below `p`, two ticks later.
    pub open spec fn grown(self, p: NodeId, ns: u32, key: Seq<i64>, n: UNodeState) -> UState {
        let above = self.nodes[p as int];
        UState {
            shape: self.shape.graft(p, ns, key),
            nodes: self.nodes.update(
                p as int,
                UNodeState { kids: above.kids.push(self.nodes.len() as NodeId), ..above },
            ).push(n),
            clock: later(later(self.clock)),
            ..self
        }
    }

    /// A node made now, without runs.
    pub open spec fn newborn(self, priority: i64) -> UNodeState {
        UNodeState::blank(self.clock, later(self.clock), priority)
    }

    /// Leaf `x` taken off the tree with all it holds.
    pub open spec fn erased(self, x: NodeId) -> UState {
        let p = self.shape.nodes[x as int].parent;
        let above = self.nodes[p as int];
        let gone = UNodeState {
            value: seq![None, None, None, None],
            host: seq![None, None, None, None],
            ..self.nodes[x as int]
        };
        UState {
            shape: self.shape.prune(x),
            nodes: self.nodes.update(x as int, gone).update(
                p as int,
                UNodeState { kids: lru::without(above.kids, x), ..above },
            ),
            lru: self.lru.update(2, rid(self.lru[2], x)).update(3, rid(self.lru[3], x)).update(
                4,
                rid(self.lru[4], x),
            ).update(5, rid(self.lru[5], x)),
            ..self
        }.forgotten(x)
    }
}

} // verus!
