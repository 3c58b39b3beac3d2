//! Prefix matching in the unified tree.

use crate::chains;
use crate::key;
use crate::key::RadixKey;
use crate::lru;
use crate::query;
use crate::seqs;
use crate::seqs::append_run;
use crate::topo;
use crate::topo::{NodeId, Shape, Walk, ROOT};
use crate::unified;
use crate::unified::facts;
use crate::unified::model;
use crate::unified::model::{UNodeState, UState};
use crate::unified::tree::UnifiedRadixTree;
use crate::unified::{Act, UCacheAction};
use vstd::prelude::*;

verus! {

/// What a match found.
#[derive(Debug, Clone, PartialEq)]
pub struct UMatchResult {
    /// Device indices of the matched prefix.
    pub device_indices: Vec<i64>,
    pub last_device_node: u32,
    pub last_host_node: u32,
    pub best_match_node: u32,
    /// FULL host tokens past the device prefix.
    pub host_hit_length: i64,
    /// SWA host tokens of the last window.
    pub swa_host_hit_length: i64,
    /// 1 if the best node has its state on the host alone.
    pub mamba_host_hit_length: i64,
    /// Where the next state checkpoint is due, if past the prefix.
    pub mamba_branching_seqlen: Option<i64>,
    /// Tokens of the key that are in the tree.
    pub full_kv_hit_length: i64,
    /// The report of a cut, if there was one.
    pub actions: Vec<UCacheAction>,
}

/// A match as the model describes it.
#[verifier::ext_equal]
pub struct Matched {
    pub device: Seq<i64>,
    pub device_node: NodeId,
    pub host_node: NodeId,
    pub best: NodeId,
    pub host_hit: int,
    pub swa_hit: int,
    pub mamba_hit: int,
    pub branching: Option<int>,
    pub full_hit: int,
    pub actions: Seq<Act>,
}

/// An optional length as a number.
pub open spec fn opt_int(v: Option<i64>) -> Option<int> {
    match v {
        Some(v) => Some(v as int),
        None => None,
    }
}

impl UMatchResult {
    /// The match as the model describes it.
    pub open spec fn view(&self) -> Matched {
        Matched {
            device: self.device_indices@,
            device_node: self.last_device_node,
            host_node: self.last_host_node,
            best: self.best_match_node,
            host_hit: self.host_hit_length as int,
            swa_hit: self.swa_host_hit_length as int,
            mamba_hit: self.mamba_host_hit_length as int,
            branching: opt_int(self.mamba_branching_seqlen),
            full_hit: self.full_kv_hit_length as int,
            actions: unified::acts(self.actions@),
        }
    }
}

impl Matched {
    /// A match of nothing.
    pub open spec fn none() -> Matched {
        Matched {
            device: Seq::empty(),
            device_node: ROOT,
            host_node: ROOT,
            best: ROOT,
            host_hit: 0,
            swa_hit: 0,
            mamba_hit: 0,
            branching: None,
            full_hit: 0,
            actions: Seq::empty(),
        }
    }
}

impl Default for UMatchResult {
    fn default() -> (r: Self)
        ensures
            r@ == Matched::none(),
    {
        let r = UMatchResult {
            device_indices: Vec::new(),
            last_device_node: ROOT,
            last_host_node: ROOT,
            best_match_node: ROOT,
            host_hit_length: 0,
            swa_host_hit_length: 0,
            mamba_host_hit_length: 0,
            mamba_branching_seqlen: None,
            full_kv_hit_length: 0,
            actions: Vec::new(),
        };
        assert(r@ =~= Matched::none());
        r
    }
}

/// An action as a list of one, no action as none.
pub open spec fn opt_list(a: Option<Act>) -> Seq<Act> {
    match a {
        Some(a) => seq![a],
        None => Seq::empty(),
    }
}

impl UState {
    /// The flattened query, in whole pages.
    pub open spec fn flat(self, raw: Seq<i64>) -> Seq<i64> {
        key::flatten(raw, raw.len(), self.cfg.is_eagle, self.shape.page)
    }

    /// The walk of a query from the root.
    pub open spec fn walk(self, ns: u32, raw: Seq<i64>) -> Walk {
        self.shape.walk(ROOT, ns, self.flat(raw))
    }

    /// The tree with the node that a walk matched in part cut there.
    pub open spec fn walked(self, w: Walk) -> UState {
        match w.stop {
            Some((c, m)) => self.cut(c, m as int),
            None => self,
        }
    }

    /// The nodes that a walk passed, the front of a cut node last.
    pub open spec fn passed(self, w: Walk) -> Seq<NodeId> {
        match w.stop {
            Some((c, m)) => w.chain.push(self.nodes.len() as NodeId),
            None => w.chain,
        }
    }

    /// The report of the cut that a walk makes.
    pub open spec fn walk_report(self, w: Walk) -> Option<Act> {
        match w.stop {
            Some((c, m)) => self.cut_report(c),
            None => None,
        }
    }

    // ---- which prefix is usable ----

    /// Whether FULL KV of `id` is usable: on the device, or on either side
    /// unless `device_only`.
    pub open spec fn full_valid(self, id: NodeId, device_only: bool) -> bool {
        let n = self.nodes[id as int];
        n.value[0] is Some || (!device_only && n.host[0] is Some)
    }

    /// Whether the window slots of `id` are usable.
    pub open spec fn swa_present(self, id: NodeId, device_only: bool) -> bool {
        let n = self.nodes[id as int];
        n.value[1] is Some || (!device_only && n.host[1] is Some)
    }

    /// The host tier is on and holds no window slots.
    pub open spec fn poolless(self) -> bool {
        !self.cfg.has_swa_host_pool && self.hicache
    }

    /// Window tokens in a row up to the first `k` of `ids`; `None` while no
    /// gap was met, which no window is longer than.
    pub open spec fn swa_run(self, ids: Seq<NodeId>, k: int, device_only: bool) -> Option<int>
        decreases k,
    {
        if k <= 0 {
            None
        } else if !self.swa_present(ids[k - 1], device_only) {
            Some(0)
        } else {
            match self.swa_run(ids, k - 1, device_only) {
                Some(n) => Some(n + self.units(ids[k - 1])),
                None => None,
            }
        }
    }

    /// Whether the window before the end of `ids[k]` is usable. Where the
    /// host tier holds no window slots, a gap does not matter.
    pub open spec fn swa_valid(self, ids: Seq<NodeId>, k: int, device_only: bool) -> bool {
        if !self.swa_present(ids[k], device_only) {
            self.poolless() && (self.backuped(ids[k]) || !self.evicted(ids[k]))
        } else {
            match self.swa_run(ids, k + 1, device_only) {
                Some(n) => n >= self.cfg.sliding_window_size,
                None => true,
            }
        }
    }

    /// Whether `id` has a usable state.
    pub open spec fn mamba_valid(self, id: NodeId, device_only: bool) -> bool {
        let n = self.nodes[id as int];
        n.value[2] is Some || (!device_only && n.host[2] is Some)
    }

    /// Whether the prefix that ends with `ids[k]` is usable in all components.
    pub open spec fn valid_at(self, ids: Seq<NodeId>, k: int, device_only: bool) -> bool {
        &&& self.full_valid(ids[k], device_only)
        &&& self.cfg.swa() ==> self.swa_valid(ids, k, device_only)
        &&& self.cfg.mamba() ==> self.mamba_valid(ids[k], device_only)
    }

    /// Number of nodes in the longest usable prefix of the first `k` of `ids`.
    pub open spec fn usable(self, ids: Seq<NodeId>, k: int, device_only: bool) -> int
        decreases k,
    {
        if k <= 0 {
            0
        } else if self.valid_at(ids, k - 1, device_only) {
            k
        } else {
            self.usable(ids, k - 1, device_only)
        }
    }

    /// The FULL device runs of the first `k` of `ids`, one after the other.
    pub open spec fn device_run(self, ids: Seq<NodeId>, k: int) -> Seq<i64>
        decreases k,
    {
        if k <= 0 {
            Seq::empty()
        } else {
            match self.nodes[ids[k - 1] as int].value[0] {
                Some(v) => self.device_run(ids, k - 1) + v,
                None => self.device_run(ids, k - 1),
            }
        }
    }

    // ---- what a match refreshes ----

    /// Of the first `k` of `up`, those that begin within `limit` tokens and
    /// hold window slots on the device.
    pub open spec fn window_ids(self, up: Seq<NodeId>, k: int, limit: int) -> Seq<NodeId>
        decreases k,
    {
        if k <= 0 {
            Seq::empty()
        } else if chains::tokens(self.shape, up, k - 1) < limit && self.nodes[up[k - 1] as int].value[1] is Some {
            self.window_ids(up, k - 1, limit).push(up[k - 1])
        } else {
            self.window_ids(up, k - 1, limit)
        }
    }

    /// The window above `id`, a page more than the window itself, made the
    /// most recent.
    pub open spec fn window_refreshed(self, id: NodeId) -> UState {
        let up = self.shape.up(id);
        let limit = self.cfg.sliding_window_size + self.cfg.page_size;
        self.relisted(2, lru::lifted(self.lru[2], self.window_ids(up, up.len() as int, limit)))
    }

    /// The first `k` of `ids` stamped, each a little earlier than the one
    /// before it.
    pub open spec fn stamped(self, ids: Seq<NodeId>, k: int, now: int) -> UState
        decreases k,
    {
        if k <= 0 {
            self
        } else {
            let st = self.stamped(ids, k - 1, now);
            st.patched(
                ids[k - 1],
                UNodeState { access: (now - (k - 1)) as i128, ..st.nodes[ids[k - 1] as int] },
            )
        }
    }

    /// The tree after a match that ended at `best`: its window and its state
    /// become the most recent, and the path up to the root is stamped.
    pub open spec fn refreshed(self, best: NodeId) -> UState {
        let a = if self.cfg.swa() {
            self.window_refreshed(best)
        } else {
            self
        };
        let b = if self.cfg.mamba() && a.nodes[best as int].value[2] is Some {
            a.relisted(4, lru::lifted(a.lru[4], seq![best]))
        } else {
            a
        };
        let ids = b.shape.up(best).push(ROOT);
        let c = b.stamped(ids, ids.len() as int, b.clock as int);
        UState { clock: model::later(b.clock), ..c }
    }

    // ---- what a match reports ----

    /// FULL host tokens on the first `k` of `up`, up to `stop`.
    pub open spec fn host_tokens(self, up: Seq<NodeId>, k: int, stop: NodeId) -> int
        decreases up.len() - k,
    {
        if k < 0 || k >= up.len() || up[k] == stop {
            0
        } else {
            self.host_tokens(up, k + 1, stop) + match self.nodes[up[k] as int].host[0] {
                Some(v) => v.len() as int,
                None => 0,
            }
        }
    }

    /// SWA host tokens on `up` from its `k`th node on, until a window is
    /// full or a node holds none; `seen` tokens of the window came before.
    pub open spec fn swa_host_tokens(self, up: Seq<NodeId>, k: int, seen: int) -> int
        decreases up.len() - k,
    {
        if k < 0 || k >= up.len() || seen >= self.cfg.sliding_window_size {
            0
        } else {
            let n = self.nodes[up[k] as int];
            match n.value[1] {
                Some(v) => self.swa_host_tokens(up, k + 1, seen + v.len()),
                None => match n.host[1] {
                    Some(v) => v.len() + self.swa_host_tokens(up, k + 1, seen + v.len()),
                    None => 0,
                },
            }
        }
    }

    /// The last checkpoint position in `full_hit` tokens, if it is past
    /// `boundary`.
    pub open spec fn branching(self, full_hit: int, boundary: int) -> Option<int> {
        let grid = self.cfg.mamba_checkpoint_grid as int;
        let aligned = full_hit / grid * grid;
        if self.cfg.mamba() && aligned > boundary {
            Some(aligned)
        } else {
            None
        }
    }

    /// What a match reports whose nodes are `ids`, on the tree `self`.
    pub open spec fn match_report(self, ids: Seq<NodeId>, full_hit: int, actions: Seq<Act>) -> Matched {
        let kd = self.usable(ids, ids.len() as int, true);
        let km = if self.hicache {
            self.usable(ids, ids.len() as int, false)
        } else {
            kd
        };
        let dev = node_at(ids, kd);
        let best = node_at(ids, km);
        let up = self.shape.up(best);
        let device = self.device_run(ids, kd);
        let host_hit = self.host_tokens(up, 0, dev);
        let n = self.nodes[best as int];
        Matched {
            device,
            device_node: dev,
            host_node: if self.hicache {
                best
            } else {
                dev
            },
            best,
            host_hit,
            swa_hit: if self.cfg.swa() {
                self.swa_host_tokens(up, 0, 0)
            } else {
                0
            },
            mamba_hit: if self.cfg.mamba() && n.value[2] is None && n.host[2] is Some {
                1
            } else {
                0
            },
            branching: self.branching(full_hit, device.len() + host_hit),
            full_hit,
            actions,
        }
    }

    /// The tree after a match, and what it reports.
    pub open spec fn after_match(self, ns: u32, raw: Seq<i64>) -> (UState, Matched) {
        if self.flat(raw).len() == 0 {
            (self, Matched::none())
        } else {
            let w = self.walk(ns, raw);
            let st = self.walked(w);
            let ids = self.passed(w);
            let m = st.match_report(ids, w.used as int / self.shape.unit as int, opt_list(self.walk_report(w)));
            (st.refreshed(m.best), m)
        }
    }
}

/// The `k`th node of `ids`, counted from one; the root for none.
pub open spec fn node_at(ids: Seq<NodeId>, k: int) -> NodeId {
    if 0 < k <= ids.len() {
        ids[k - 1]
    } else {
        ROOT
    }
}

/// Flattened queries are whole pages, and as many units as tokens at most.
pub proof fn lemma_flat(st: UState, raw: Seq<i64>)
    requires
        st.built(),
    ensures
        st.shape.aligned(st.flat(raw).len() as int),
        st.flat(raw).len() as int / st.shape.unit as int <= raw.len(),
        (st.flat(raw).len() as int / st.shape.unit as int) * st.shape.unit == st.flat(raw).len(),
        st.cfg.is_eagle && raw.len() > 0 ==> st.flat(raw).len() as int / st.shape.unit as int + 1 <= raw.len(),
{
    let page = st.shape.page;
    let n: nat = if st.cfg.is_eagle && raw.len() > 0 {
        (raw.len() - 1) as nat
    } else {
        raw.len()
    };
    let k = key::page_floor(n, page);
    key::lemma_page_floor(n, page);
    let chunk = st.shape.chunk() as int;
    topo::lemma_chunk(st.shape);
    let q = n as int / page as int;
    assert(k == q * page);
    if st.cfg.is_eagle {
        assert(st.flat(raw).len() == 2 * k);
        assert(chunk == 2 * page);
        assert(2 * (q * page as int) == q * (2 * page as int)) by (nonlinear_arith);
        vstd::arithmetic::div_mod::lemma_mod_multiples_basic(q, chunk);
    } else {
        assert(st.flat(raw).len() == k);
        vstd::arithmetic::div_mod::lemma_mod_multiples_basic(q, chunk);
    }
}

/// The nodes on the way up hold the path, unit by unit.
pub proof fn lemma_up_tokens(s: Shape, id: NodeId)
    requires
        s.wf(),
        s.has(id),
    ensures
        chains::tokens(s, s.up(id), s.up(id).len() as int) * s.unit == s.nodes[id as int].path.len(),
        forall|k: int| 0 <= k < s.up(id).len() ==> s.units((#[trigger] s.up(id)[k]) as int) >= 0,
    decreases s.nodes[id as int].path.len(),
{
    if id != ROOT {
        let p = s.nodes[id as int].parent;
        topo::lemma_path_grows(s, id);
        assert(s.hangs(id as int));
        if p != ROOT {
            lemma_up_tokens(s, p);
        } else {
            assert(chains::tokens(s, s.up(p), 0) == 0);
            assert(0 * s.unit == 0) by (nonlinear_arith);
        }
        chains::lemma_units(s, id as int);
        let rest = s.up(p);
        assert(s.up(id) =~= seq![id] + rest);
        chains::lemma_tokens_front(s, id, rest, rest.len() as int);
        let a = s.units(id as int);
        let b = chains::tokens(s, rest, rest.len() as int);
        assert((a + b) * s.unit == a * s.unit + b * s.unit) by (nonlinear_arith);
        assert forall|k: int| 0 <= k < s.up(id).len() implies s.units((#[trigger] s.up(id)[k]) as int) >= 0 by {
            if k > 0 {
                assert(s.up(id)[k] == rest[k - 1]);
            }
        }
    } else {
        assert(chains::tokens(s, s.up(id), 0) == 0);
        assert(0 * s.unit == 0) by (nonlinear_arith);
    }
}

/// The nodes on the way up from a node of the tree are nodes of the tree.
pub proof fn lemma_up_live(st: UState, id: NodeId)
    requires
        st.built(),
        st.live(id),
    ensures
        st.shape.up(id).no_duplicates(),
        forall|k: int| 0 <= k < st.shape.up(id).len() ==> st.inner(#[trigger] st.shape.up(id)[k]),
    decreases st.shape.nodes[id as int].path.len(),
{
    topo::lemma_up(st.shape, id);
    if id != ROOT {
        let p = st.shape.nodes[id as int].parent;
        topo::lemma_path_grows(st.shape, id);
        assert(st.shape.hangs(id as int));
        assert(st.node_ok(id as int));
        lemma_up_live(st, p);
        assert(st.shape.up(id) =~= seq![id] + st.shape.up(p));
        assert forall|k: int| 0 <= k < st.shape.up(id).len() implies st.inner(#[trigger] st.shape.up(id)[k]) by {
            if k > 0 {
                assert(st.shape.up(id)[k] == st.shape.up(p)[k - 1]);
            }
        }
    }
}

/// What a walk passes: nodes of the tree, none longer than the query.
pub proof fn lemma_walked(st: UState, ns: u32, raw: Seq<i64>)
    requires
        st.wf(),
        st.roomy(1),
    ensures
        ({
            let w = st.walk(ns, raw);
            let t = st.walked(w);
            let ids = st.passed(w);
            &&& w.stop matches Some((c, m)) ==> st.cuttable(c, m as int)
            &&& t.wf()
            &&& t.cfg == st.cfg && t.hicache == st.hicache && t.shape.page == st.shape.page && t.shape.unit
                == st.shape.unit
            &&& ids.no_duplicates()
            &&& forall|k: int|
                0 <= k < ids.len() ==> {
                    &&& t.inner(#[trigger] ids[k])
                    &&& t.shape.nodes[ids[k] as int].path.len() <= st.flat(raw).len()
                }
            &&& w.used <= st.flat(raw).len()
            &&& chains::tokens(t.shape, ids, ids.len() as int) == w.used as int / st.shape.unit as int
        }),
{
    let s = st.shape;
    let flat = st.flat(raw);
    let w = st.walk(ns, raw);
    lemma_flat(st, raw);
    topo::lemma_walk(s, ROOT, ns, flat);
    topo::lemma_walk_path(s, ROOT, ns, flat);
    chains::lemma_walk_tokens(s, ROOT, ns, flat);
    let t = st.walked(w);
    let ids = st.passed(w);
    let n = st.nodes.len();
    assert forall|k: int| 0 <= k < w.chain.len() implies st.inner(#[trigger] w.chain[k])
        && s.nodes[w.chain[k] as int].path.len() <= flat.len() by {
        assert(s.is_child(if k == 0 { ROOT } else { w.chain[k - 1] }, w.chain[k]));
        topo::lemma_chain_grows(s, ROOT, w.chain, k, w.chain.len() - 1);
    }
    if let Some((c, m)) = w.stop {
        let end = if w.chain.len() == 0 {
            ROOT
        } else {
            w.chain.last()
        };
        assert(s.is_child(end, c));
        assert(st.cuttable(c, m as int));
        facts::lemma_cut(st, c, m as int);
        facts::lemma_cut_listed(st, c, m as int);
        assert(t.shape == s.split(c, m as int));
        assert forall|k: int| 0 <= k < ids.len() implies t.inner(#[trigger] ids[k])
            && t.shape.nodes[ids[k] as int].path.len() <= flat.len() by {
            if k < w.chain.len() {
                assert(ids[k] == w.chain[k]);
                assert(w.chain.contains(w.chain[k]));
                assert(st.inner(w.chain[k]));
            } else {
                assert(t.shape.nodes[n as int].path.len() == s.nodes[end as int].path.len() + m);
            }
        }
        assert forall|i: int, j: int| 0 <= i < ids.len() && 0 <= j < ids.len() && i != j implies ids[i] != ids[j] by {
            if i < w.chain.len() {
                assert(st.inner(w.chain[i]));
            }
            if j < w.chain.len() {
                assert(st.inner(w.chain[j]));
            }
        }
        lemma_tokens_kept(s, t.shape, w.chain, ids, w.chain.len() as int);
    }
}

/// Tokens along nodes whose keys are the same.
pub proof fn lemma_tokens_kept(s: Shape, t: Shape, a: Seq<NodeId>, b: Seq<NodeId>, k: int)
    requires
        0 <= k <= a.len(),
        k <= b.len(),
        s.unit == t.unit,
        forall|j: int| 0 <= j < k ==> a[j] == #[trigger] b[j] && s.nodes[a[j] as int].key == t.nodes[a[j] as int].key,
    ensures
        chains::tokens(s, a, k) == chains::tokens(t, b, k),
    decreases k,
{
    if k > 0 {
        lemma_tokens_kept(s, t, a, b, k - 1);
        assert(a[k - 1] == b[k - 1]);
    }
}

/// Window members are distinct nodes on the way up that the device list
/// holds.
pub(crate) proof fn lemma_window_ids(st: UState, up: Seq<NodeId>, k: int, limit: int)
    requires
        st.wf(),
        0 <= k <= up.len(),
        up.no_duplicates(),
        forall|j: int| 0 <= j < up.len() ==> st.inner(#[trigger] up[j]),
    ensures
        st.window_ids(up, k, limit).no_duplicates(),
        forall|j: int|
            0 <= j < st.window_ids(up, k, limit).len() ==> {
                let x = #[trigger] st.window_ids(up, k, limit)[j];
                st.lru[2].contains(x) && up.take(k).contains(x)
            },
    decreases k,
{
    if k > 0 {
        lemma_window_ids(st, up, k - 1, limit);
        let xs = st.window_ids(up, k - 1, limit);
        let ys = st.window_ids(up, k, limit);
        let x = up[k - 1];
        assert(st.inner(up[k - 1]));
        assert(st.lists_ok(1, x));
        if xs.contains(x) {
            let j = xs.index_of(x);
            assert(up.take(k - 1).contains(xs[j]));
            let i = up.take(k - 1).index_of(x);
            assert(up[i] == up[k - 1]);
        }
        if ys != xs {
            facts::lemma_back(xs, x);
        }
        assert forall|j: int| 0 <= j < ys.len() implies {
            let y = #[trigger] ys[j];
            st.lru[2].contains(y) && up.take(k).contains(y)
        } by {
            if j < xs.len() {
                assert(ys[j] == xs[j]);
                assert(up.take(k - 1).contains(xs[j]));
                let i = up.take(k - 1).index_of(xs[j]);
                assert(up.take(k)[i] == xs[j]);
            } else {
                assert(up.take(k)[k - 1] == x);
            }
        }
    }
}

/// Stamping keeps the tree and what its nodes hold.
proof fn lemma_stamped(st: UState, ids: Seq<NodeId>, k: int, now: int)
    requires
        st.wf(),
        0 <= k <= ids.len(),
        forall|j: int| 0 <= j < ids.len() ==> st.live(#[trigger] ids[j]),
    ensures
        st.stamped(ids, k, now) == (UState { nodes: st.stamped(ids, k, now).nodes, ..st }),
        st.stamped(ids, k, now).nodes.len() == st.nodes.len(),
        forall|j: int| 0 <= j < ids.len() ==> st.stamped(ids, k, now).live(#[trigger] ids[j]),
    decreases k,
{
    if k > 0 {
        lemma_stamped(st, ids, k - 1, now);
    }
}

impl UnifiedRadixTree {
    /// Logical length of a raw key: a bigram less than tokens in the bigram
    /// view.
    pub fn key_len(&self, raw: &[i64]) -> (r: i64)
        requires
            raw@.len() <= i64::MAX,
        ensures
            r == (if self@.cfg.is_eagle && raw@.len() > 0 {
                raw@.len() - 1
            } else {
                raw@.len() as int
            }),
    {
        if raw.len() == 0 {
            return 0;
        }
        if self.config().is_eagle {
            raw.len() as i64 - 1
        } else {
            raw.len() as i64
        }
    }

    /// The nodes from `id` up, the root left out.
    pub(crate) fn up(&self, id: NodeId) -> (r: Vec<NodeId>)
        requires
            self.wf(),
            self@.live(id),
        ensures
            r@ == self@.shape.up(id),
            r@.no_duplicates(),
            forall|k: int| 0 <= k < r@.len() ==> self@.inner(#[trigger] r@[k]),
            r@.len() < self@.nodes.len(),
    {
        proof {
            self.lemma_wf();
            lemma_up_live(self@, id);
        }
        let r = self.topo().up(id);
        proof {
            lemma_few(self@, r@);
        }
        r
    }

    /// Number of nodes in the longest usable prefix of `ids`.
    fn usable(&self, ids: &Vec<NodeId>, device_only: bool) -> (r: usize)
        requires
            self.wf(),
            forall|k: int| 0 <= k < ids@.len() ==> self@.inner(#[trigger] ids@[k]),
            chains::tokens(self@.shape, ids@, ids@.len() as int) <= i64::MAX,
        ensures
            r == self@.usable(ids@, ids@.len() as int, device_only),
            r <= ids@.len(),
    {
        proof {
            self.lemma_wf();
        }
        let cfg = self.config();
        let ghost st = self@;
        let swa = cfg.has_swa();
        let mamba = cfg.has_mamba();
        let poolless = !cfg.has_swa_host_pool && self.hicache();
        let mut best: usize = 0;
        let mut run: Option<i64> = None;
        let mut k: usize = 0;
        while k < ids.len()
            invariant
                self.wf(),
                st == self@,
                st.wf(),
                cfg == st.cfg,
                swa == cfg.swa(),
                mamba == cfg.mamba(),
                poolless == st.poolless(),
                k <= ids@.len(),
                best <= k,
                forall|j: int| 0 <= j < ids@.len() ==> st.inner(#[trigger] ids@[j]),
                chains::tokens(st.shape, ids@, ids@.len() as int) <= i64::MAX,
                best == st.usable(ids@, k as int, device_only),
                swa ==> opt_int(run) == st.swa_run(ids@, k as int, device_only),
                run matches Some(n) ==> 0 <= n <= chains::tokens(st.shape, ids@, k as int),
            decreases ids@.len() - k,
        {
            let id = ids[k];
            proof {
                self.lemma_wf();
                assert(st.inner(ids@[k as int]));
                assert(st.node_ok(id as int));
                facts::lemma_units(st, id);
                assert forall|j: int| 0 <= j < ids@.len() implies st.shape.units((#[trigger] ids@[j]) as int) >= 0 by {
                    assert(st.inner(ids@[j]));
                    facts::lemma_units(st, ids@[j]);
                }
                chains::lemma_tokens_le(st.shape, ids@, k as int + 1, ids@.len() as int);
                chains::lemma_tokens_le(st.shape, ids@, k as int, k as int + 1);
            }
            let n = self.node_by_id(id);
            let full_ok = n.value[0].is_some() || (!device_only && n.host_value[0].is_some());
            let mut swa_ok = true;
            if swa {
                let present = n.value[1].is_some() || (!device_only && n.host_value[1].is_some());
                if present {
                    let units = self.topo().units(id);
                    match run {
                        Some(seen) => {
                            run = Some(seen + units as i64);
                            swa_ok = seen + units as i64 >= cfg.sliding_window_size;
                        },
                        None => {},
                    }
                } else {
                    run = Some(0);
                    swa_ok = poolless && (n.host_value[0].is_some() || n.value[0].is_some());
                }
            }
            let mamba_ok = !mamba || n.value[2].is_some() || (!device_only && n.host_value[2].is_some());
            k += 1;
            if full_ok && swa_ok && mamba_ok {
                best = k;
            }
        }
        best
    }

    /// The FULL device runs of the first `k` of `ids`.
    fn device_run(&self, ids: &Vec<NodeId>, k: usize) -> (r: Vec<i64>)
        requires
            self.wf(),
            k <= ids@.len(),
            forall|j: int| 0 <= j < ids@.len() ==> self@.inner(#[trigger] ids@[j]),
        ensures
            r@ == self@.device_run(ids@, k as int),
    {
        let mut r: Vec<i64> = Vec::new();
        let mut j: usize = 0;
        while j < k
            invariant
                self.wf(),
                j <= k <= ids@.len(),
                forall|j: int| 0 <= j < ids@.len() ==> self@.inner(#[trigger] ids@[j]),
                r@ == self@.device_run(ids@, j as int),
            decreases k - j,
        {
            assert(self@.inner(ids@[j as int]));
            let n = self.node_by_id(ids[j]);
            match &n.value[0] {
                Some(v) => {
                    append_run(&mut r, v.as_slice());
                },
                None => {},
            }
            j += 1;
        }
        r
    }

    /// Makes the window above `id` the most recent.
    pub(crate) fn refresh_window(&mut self, id: NodeId)
        requires
            old(self).wf(),
            old(self)@.live(id),
            old(self)@.cfg.swa(),
        ensures
            final(self).wf(),
            final(self)@ == old(self)@.window_refreshed(id),
    {
        let ghost st = self@;
        proof {
            self.lemma_wf();
        }
        let cfg = self.config();
        let limit: i64 = cfg.sliding_window_size + cfg.page_size as i64;
        let up = self.up(id);
        let mut xs: Vec<NodeId> = Vec::new();
        let mut seen: i128 = 0;
        let mut k: usize = 0;
        while k < up.len()
            invariant
                self.wf(),
                st == self@,
                st.wf(),
                limit == st.cfg.sliding_window_size + st.cfg.page_size,
                k <= up@.len(),
                forall|j: int| 0 <= j < up@.len() ==> st.inner(#[trigger] up@[j]),
                xs@ == st.window_ids(up@, k as int, limit as int),
                seen == chains::tokens(st.shape, up@, k as int),
                0 <= seen <= k * usize::MAX,
                k <= u32::MAX,
                up@.len() <= u32::MAX,
            decreases up@.len() - k,
        {
            let x = up[k];
            proof {
                self.lemma_wf();
                assert(st.inner(up@[k as int]));
                facts::lemma_units(st, x);
            }
            if seen < limit as i128 && self.node_by_id(x).value[1].is_some() {
                xs.push(x);
            }
            let units = self.topo().units(x);
            proof {
                assert(k * usize::MAX + usize::MAX == (k + 1) * usize::MAX) by (nonlinear_arith);
                assert(k * usize::MAX <= u32::MAX * usize::MAX) by (nonlinear_arith)
                    requires
                        k <= u32::MAX,
                ;
            }
            seen = seen + units as i128;
            k += 1;
        }
        proof {
            lemma_window_ids(st, up@, up@.len() as int, limit as int);
        }
        self.lift(1, &xs);
    }

    /// Stamps the path from `id` up to the root, each node a little earlier
    /// than the one below it, and ticks.
    fn stamp_up(&mut self, id: NodeId)
        requires
            old(self).wf(),
            old(self)@.live(id),
        ensures
            final(self).wf(),
            ({
                let st = old(self)@;
                let ids = st.shape.up(id).push(ROOT);
                final(self)@ == (UState {
                    clock: model::later(st.clock),
                    ..st.stamped(ids, ids.len() as int, st.clock as int)
                })
            }),
    {
        let ghost st = self@;
        proof {
            self.lemma_wf();
        }
        let now = self.clock();
        let mut ids = self.up(id);
        let ghost up = ids@;
        ids.push(ROOT);
        proof {
            assert forall|j: int| 0 <= j < ids@.len() implies st.live(#[trigger] ids@[j]) by {
                if j < up.len() {
                    assert(ids@[j] == up[j]);
                    assert(st.inner(up[j]));
                }
            }
        }
        let mut k: usize = 0;
        while k < ids.len()
            invariant
                self.wf(),
                st.wf(),
                now == st.clock,
                k <= ids@.len() <= u32::MAX,
                forall|j: int| 0 <= j < ids@.len() ==> st.live(#[trigger] ids@[j]),
                self@ == st.stamped(ids@, k as int, now as int),
            decreases ids@.len() - k,
        {
            proof {
                lemma_stamped(st, ids@, k as int, now as int);
                assert(st.live(ids@[k as int]));
                assert(st.stamped(ids@, k as int, now as int).live(ids@[k as int]));
            }
            self.set_access(ids[k], now - k as i128);
            k += 1;
        }
        proof {
            lemma_stamped(st, ids@, k as int, now as int);
            self.lemma_wf();
        }
        let next = if now < model::CLOCK_CAP {
            now + model::TICK
        } else {
            now
        };
        self.set_clock(next);
    }

    /// FULL host tokens from the bottom of `up` to `stop`.
    fn host_tokens(&self, up: &Vec<NodeId>, stop: NodeId) -> (r: i64)
        requires
            self.wf(),
            forall|k: int| 0 <= k < up@.len() ==> self@.inner(#[trigger] up@[k]),
            chains::tokens(self@.shape, up@, up@.len() as int) <= i64::MAX,
        ensures
            r == self@.host_tokens(up@, 0, stop),
            0 <= r <= chains::tokens(self@.shape, up@, up@.len() as int),
    {
        proof {
            self.lemma_wf();
        }
        let ghost st = self@;
        let mut r: i64 = 0;
        let mut k: usize = 0;
        while k < up.len() && up[k] != stop
            invariant
                self.wf(),
                st == self@,
                st.wf(),
                k <= up@.len(),
                forall|k: int| 0 <= k < up@.len() ==> st.inner(#[trigger] up@[k]),
                chains::tokens(st.shape, up@, up@.len() as int) <= i64::MAX,
                r + st.host_tokens(up@, k as int, stop) == st.host_tokens(up@, 0, stop),
                0 <= r <= chains::tokens(st.shape, up@, k as int),
            decreases up@.len() - k,
        {
            let id = up[k];
            proof {
                assert(st.inner(up@[k as int]));
                assert(st.node_ok(id as int));
                assert forall|j: int| 0 <= j < up@.len() implies st.shape.units((#[trigger] up@[j]) as int) >= 0 by {
                    assert(st.inner(up@[j]));
                    facts::lemma_units(st, up@[j]);
                }
                facts::lemma_units(st, id);
                chains::lemma_tokens_le(st.shape, up@, k as int + 1, up@.len() as int);
            }
            match &self.node_by_id(id).host_value[0] {
                Some(v) => {
                    r = r + v.len() as i64;
                },
                None => {},
            }
            k += 1;
        }
        proof {
            assert(st.host_tokens(up@, k as int, stop) == 0);
            assert forall|j: int| 0 <= j < up@.len() implies st.shape.units((#[trigger] up@[j]) as int) >= 0 by {
                assert(st.inner(up@[j]));
                facts::lemma_units(st, up@[j]);
            }
            chains::lemma_tokens_le(st.shape, up@, k as int, up@.len() as int);
        }
        r
    }

    /// SWA host tokens of the window that `up` begins with.
    fn swa_host_tokens(&self, up: &Vec<NodeId>) -> (r: i64)
        requires
            self.wf(),
            forall|k: int| 0 <= k < up@.len() ==> self@.inner(#[trigger] up@[k]),
            chains::tokens(self@.shape, up@, up@.len() as int) <= i64::MAX,
        ensures
            r == self@.swa_host_tokens(up@, 0, 0),
    {
        proof {
            self.lemma_wf();
        }
        let ghost st = self@;
        let window = self.config().sliding_window_size;
        let mut r: i64 = 0;
        let mut seen: i64 = 0;
        let mut k: usize = 0;
        while k < up.len() && seen < window
            invariant
                self.wf(),
                st == self@,
                st.wf(),
                window == st.cfg.sliding_window_size,
                k <= up@.len(),
                forall|k: int| 0 <= k < up@.len() ==> st.inner(#[trigger] up@[k]),
                chains::tokens(st.shape, up@, up@.len() as int) <= i64::MAX,
                r + st.swa_host_tokens(up@, k as int, seen as int) == st.swa_host_tokens(up@, 0, 0),
                0 <= r <= seen <= chains::tokens(st.shape, up@, k as int),
            decreases up@.len() - k,
        {
            let id = up[k];
            proof {
                assert(st.inner(up@[k as int]));
                assert(st.node_ok(id as int));
                assert forall|j: int| 0 <= j < up@.len() implies st.shape.units((#[trigger] up@[j]) as int) >= 0 by {
                    assert(st.inner(up@[j]));
                    facts::lemma_units(st, up@[j]);
                }
                facts::lemma_units(st, id);
                chains::lemma_tokens_le(st.shape, up@, k as int + 1, up@.len() as int);
            }
            let n = self.node_by_id(id);
            match &n.value[1] {
                Some(v) => {
                    seen = seen + v.len() as i64;
                },
                None => match &n.host_value[1] {
                    Some(v) => {
                        r = r + v.len() as i64;
                        seen = seen + v.len() as i64;
                    },
                    None => {
                        return r;
                    },
                },
            }
            k += 1;
        }
        assert(st.swa_host_tokens(up@, k as int, seen as int) == 0);
        r
    }
}

/// Distinct nodes below the root are fewer than there are ids.
pub proof fn lemma_few(st: UState, ids: Seq<NodeId>)
    requires
        ids.no_duplicates(),
        forall|k: int| 0 <= k < ids.len() ==> st.inner(#[trigger] ids[k]),
        1 <= st.nodes.len() <= NodeId::MAX,
    ensures
        ids.len() < st.nodes.len(),
{
    let all = ids.push(ROOT);
    assert forall|i: int, j: int| 0 <= i < all.len() && 0 <= j < all.len() && i != j implies all[i] != all[j] by {
        if i < ids.len() {
            assert(st.inner(ids[i]));
        }
        if j < ids.len() {
            assert(st.inner(ids[j]));
        }
    }
    assert forall|k: int| 0 <= k < all.len() implies (#[trigger] all[k]) < st.nodes.len() by {
        if k < ids.len() {
            assert(st.inner(ids[k]));
        }
    }
    chains::lemma_ids_bound(all, st.nodes.len());
}

impl UnifiedRadixTree {
    /// A match of nothing.
    pub fn empty_match_result(&self) -> (r: UMatchResult)
        ensures
            r@ == Matched::none(),
    {
        UMatchResult::default()
    }

    /// Works out what a match reports whose nodes are `ids`.
    fn match_report(&self, ids: &Vec<NodeId>, full_hit: i64, action: Option<UCacheAction>) -> (r: UMatchResult)
        requires
            self.wf(),
            forall|k: int|
                0 <= k < ids@.len() ==> {
                    &&& self@.inner(#[trigger] ids@[k])
                    &&& self@.shape.nodes[ids@[k] as int].path.len() <= i64::MAX * self@.shape.unit
                },
            0 <= full_hit,
            full_hit == chains::tokens(self@.shape, ids@, ids@.len() as int),
        ensures
            r@ == self@.match_report(ids@, full_hit as int, opt_list(unified::opt_act(action))),
    {
        proof {
            self.lemma_wf();
        }
        let ghost st = self@;
        let cfg = self.config();
        let kd = self.usable(ids, true);
        let km = if self.hicache() {
            self.usable(ids, false)
        } else {
            kd
        };
        let dev = if kd > 0 {
            ids[kd - 1]
        } else {
            ROOT
        };
        let best = if km > 0 {
            ids[km - 1]
        } else {
            ROOT
        };
        proof {
            if km > 0 {
                assert(st.inner(ids@[km - 1]));
            }
            lemma_up_tokens(st.shape, best);
            let n = chains::tokens(st.shape, st.shape.up(best), st.shape.up(best).len() as int);
            assert(st.shape.nodes[best as int].path.len() <= i64::MAX * st.shape.unit);
            assert(n <= i64::MAX) by (nonlinear_arith)
                requires
                    n * st.shape.unit <= i64::MAX * st.shape.unit,
                    st.shape.unit >= 1,
            ;
        }
        let up = self.up(best);
        let device = self.device_run(ids, kd);
        let host_hit = self.host_tokens(&up, dev);
        let swa_hit: i64 = if cfg.has_swa() {
            self.swa_host_tokens(&up)
        } else {
            0
        };
        let n = self.node_by_id(best);
        let mamba_hit: i64 = if cfg.has_mamba() && n.value[2].is_none() && n.host_value[2].is_some() {
            1
        } else {
            0
        };
        let mut branching: Option<i64> = None;
        if cfg.has_mamba() {
            let grid = cfg.mamba_checkpoint_grid;
            proof {
                let g = grid as int;
                vstd::arithmetic::div_mod::lemma_fundamental_div_mod(full_hit as int, g);
                vstd::arithmetic::div_mod::lemma_mod_bound(full_hit as int, g);
                vstd::arithmetic::div_mod::lemma_div_pos_is_pos(full_hit as int, g);
                assert(g * (full_hit as int / g) == (full_hit as int / g) * g) by (nonlinear_arith);
                assert(0 <= (full_hit as int / g) * g) by (nonlinear_arith)
                    requires
                        full_hit as int / g >= 0,
                        g > 0,
                ;
            }
            let aligned = full_hit / grid * grid;
            if aligned as i128 > device.len() as i128 + host_hit as i128 {
                branching = Some(aligned);
            }
        }
        let mut actions: Vec<UCacheAction> = Vec::new();
        let ghost acts = opt_list(unified::opt_act(action));
        match action {
            Some(a) => {
                actions.push(a);
            },
            None => {},
        }
        assert(unified::acts(actions@) =~= acts);
        UMatchResult {
            device_indices: device,
            last_device_node: dev,
            last_host_node: if self.hicache() {
                best
            } else {
                dev
            },
            best_match_node: best,
            host_hit_length: host_hit,
            swa_host_hit_length: swa_hit,
            mamba_host_hit_length: mamba_hit,
            mamba_branching_seqlen: branching,
            full_kv_hit_length: full_hit,
            actions,
        }
    }

    /// Refreshes recency after a match that ended at `best`.
    fn refresh_match(&mut self, best: NodeId)
        requires
            old(self).wf(),
            old(self)@.live(best),
        ensures
            final(self).wf(),
            final(self)@ == old(self)@.refreshed(best),
    {
        let cfg = self.config();
        proof {
            self.lemma_wf();
        }
        if cfg.has_swa() {
            self.refresh_window(best);
        }
        if cfg.has_mamba() && self.node_by_id(best).value[2].is_some() {
            let mut xs: Vec<NodeId> = Vec::new();
            xs.push(best);
            proof {
                self.lemma_wf();
                assert(self@.root_ok());
                assert(self@.lists_ok(2, best));
                assert(xs@ =~= seq![best]);
            }
            self.lift(2, &xs);
        }
        self.stamp_up(best);
    }

    /// The longest prefix of the key that is in the tree and usable in all
    /// components. A node that the key matches in part is cut there.
    pub fn match_prefix(&mut self, ns: u32, raw_tokens: &[i64]) -> (r: UMatchResult)
        requires
            old(self).wf(),
            old(self)@.roomy(1),
            raw_tokens@.len() <= i64::MAX,
        ensures
            final(self).wf(),
            (final(self)@, r@) == old(self)@.after_match(ns, raw_tokens@),
    {
        let ghost st = self@;
        proof {
            self.lemma_wf();
            lemma_flat(st, raw_tokens@);
            lemma_walked(st, ns, raw_tokens@);
        }
        let cfg = self.config();
        let flat = RadixKey::new(raw_tokens).with_bigram(cfg.is_eagle).flatten_page_aligned(cfg.page_size as usize);
        if flat.len() == 0 {
            return self.empty_match_result();
        }
        let ghost w = st.walk(ns, raw_tokens@);
        let path = self.topo().walk(ns, flat.as_ref());
        let used = path.used;
        let unit = self.topo().unit_size();
        let stop = path.stop;
        let mut ids = path.chain;
        let mut action: Option<UCacheAction> = None;
        if stop.is_some() {
            let (c, m) = stop.unwrap();
            let (f, a) = self.cut(c, m);
            ids.push(f);
            action = a;
        }
        let full_hit = (used / unit) as i64;
        proof {
            let u = st.flat(raw_tokens@).len() as int / st.shape.unit as int;
            assert(st.flat(raw_tokens@).len() <= i64::MAX * st.shape.unit) by (nonlinear_arith)
                requires
                    u * st.shape.unit == st.flat(raw_tokens@).len(),
                    u <= i64::MAX,
                    st.shape.unit >= 1,
            ;
            assert(used as int / unit as int <= u) by {
                vstd::arithmetic::div_mod::lemma_div_is_ordered(
                    used as int,
                    st.flat(raw_tokens@).len() as int,
                    unit as int,
                );
            }
            assert(self@ == st.walked(w));
            assert(ids@ == st.passed(w));
            assert(unified::opt_act(action) == st.walk_report(w));
        }
        let r = self.match_report(&ids, full_hit, action);
        let best = r.best_match_node;
        proof {
            self.lemma_wf();
            let k = if st.hicache {
                self@.usable(ids@, ids@.len() as int, false)
            } else {
                self@.usable(ids@, ids@.len() as int, true)
            };
            if 0 < k <= ids@.len() {
                assert(self@.inner(ids@[k - 1]));
            }
        }
        self.refresh_match(best);
        r
    }
}

} // verus!
