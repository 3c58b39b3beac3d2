//! Transfers between device, host and storage pools: what to copy where.
//!
//! Pools: 0 = KV, 1 = SWA, 2 = MAMBA. Hit policy: 0 = exact, 1 = trailing
//! pages.

use crate::chains;
use crate::hi_model::run_or_none;
use crate::seqs;
use crate::seqs::{append_run, copy_range};
use crate::topo;
use crate::topo::{NodeId, ROOT};
use crate::unified;
use crate::unified::facts;
use crate::unified::matching;
use crate::unified::model::UState;
use crate::unified::tree::UnifiedRadixTree;
use crate::unified::views;
use crate::unified::views::copy_texts;
use crate::unified::{UTransfer, Xfer, CT_FULL, CT_MAMBA, CT_SWA};
use vstd::prelude::*;

verus! {

/// Phases of a transfer.
pub const PHASE_BACKUP_HOST: u8 = 0;

pub const PHASE_LOAD_BACK: u8 = 1;

pub const PHASE_BACKUP_STORAGE: u8 = 2;

pub const PHASE_PREFETCH: u8 = 3;

/// Pools of transfers.
pub const POOL_KV: u8 = 0;

pub const POOL_SWA: u8 = 1;

pub const POOL_MAMBA: u8 = 2;

/// What to copy from the host to storage.
#[derive(Debug, Clone)]
pub struct UStorageBackupSpec {
    pub host_value: Option<Vec<i64>>,
    /// Raw tokens of the node's key.
    pub token_ids: Vec<i64>,
    pub hash_value: Option<Vec<String>>,
    /// Page hashes above the node, if asked for.
    pub prefix_keys: Option<Vec<String>>,
    pub comp_xfers: Vec<(u8, Vec<UTransfer>)>,
}

/// What to copy from the host to storage, as the model describes it.
#[verifier::ext_equal]
pub struct StorageSpec {
    pub host: Option<Seq<i64>>,
    pub tokens: Seq<i64>,
    pub hashes: Option<Seq<Seq<char>>>,
    pub prefix: Option<Seq<Seq<char>>>,
    pub comps: Seq<(u8, Seq<Xfer>)>,
}

impl UStorageBackupSpec {
    pub open spec fn view(&self) -> StorageSpec {
        StorageSpec {
            host: seqs::opt_run(self.host_value),
            tokens: self.token_ids@,
            hashes: unified::opt_texts(self.hash_value),
            prefix: unified::opt_texts(self.prefix_keys),
            comps: unified::comp_xfers(self.comp_xfers@),
        }
    }
}

impl Default for UStorageBackupSpec {
    fn default() -> (r: Self)
        ensures
            r@ == (StorageSpec {
                host: None,
                tokens: Seq::empty(),
                hashes: None,
                prefix: None,
                comps: Seq::empty(),
            }),
    {
        let r = UStorageBackupSpec {
            host_value: None,
            token_ids: Vec::new(),
            hash_value: None,
            prefix_keys: None,
            comp_xfers: Vec::new(),
        };
        assert(r@.comps =~= Seq::empty());
        r
    }
}

/// What to copy from the host to the device.
#[derive(Debug, Clone)]
pub struct ULoadBackSpec {
    pub kv: UTransfer,
    pub comp_xfers: Vec<(u8, Vec<UTransfer>)>,
}

impl ULoadBackSpec {
    pub open spec fn view(&self) -> (Xfer, Seq<(u8, Seq<Xfer>)>) {
        (self.kv@, unified::comp_xfers(self.comp_xfers@))
    }
}

impl Default for ULoadBackSpec {
    fn default() -> (r: Self)
        ensures
            r@ == (Xfer::none(0), Seq::<(u8, Seq<Xfer>)>::empty()),
    {
        let r = ULoadBackSpec { kv: UTransfer::default(), comp_xfers: Vec::new() };
        assert(r@.1 =~= Seq::empty());
        r
    }
}

/// The key of a page whose hash is not known yet.
pub open spec fn unknown_key() -> Seq<char> {
    "__placeholder__"@
}

/// A transfer, if there is one.
pub open spec fn opt_xfer(x: Option<UTransfer>) -> Option<Xfer> {
    match x {
        Some(x) => Some(x@),
        None => None,
    }
}

/// The transfers of SWA and of MAMBA, by component.
pub open spec fn comp_list(swa: Option<Xfer>, mamba: Option<Xfer>) -> Seq<(u8, Seq<Xfer>)> {
    (match swa {
        Some(x) => seq![(CT_SWA, seq![x])],
        None => Seq::empty(),
    }) + (match mamba {
        Some(x) => seq![(CT_MAMBA, seq![x])],
        None => Seq::empty(),
    })
}

impl UState {
    /// How many of `up`, from place `k` on, a window reaches over.
    pub open spec fn window_span(self, up: Seq<NodeId>, k: int) -> int
        decreases up.len() - k,
    {
        if k >= up.len() || chains::tokens(self.shape, up, k) >= self.cfg.sliding_window_size {
            k
        } else {
            self.window_span(up, k + 1)
        }
    }

    /// Of the first `k` of `up`, those without window slots on the device,
    /// topmost first.
    pub open spec fn window_loads(self, up: Seq<NodeId>, k: int) -> Seq<NodeId>
        decreases k,
    {
        if k <= 0 {
            Seq::empty()
        } else if self.nodes[up[k - 1] as int].value[1] is None {
            seq![up[k - 1]] + self.window_loads(up, k - 1)
        } else {
            self.window_loads(up, k - 1)
        }
    }

    /// Host runs of component `ct` of `ids`, one after the other.
    pub open spec fn host_runs(self, ids: Seq<NodeId>, ct: int) -> Seq<i64>
        decreases ids.len(),
    {
        if ids.len() == 0 {
            Seq::empty()
        } else {
            self.host_runs(ids.drop_last(), ct) + run_or_none(self.nodes[ids.last() as int].host[ct])
        }
    }

    /// Whether the window above `node` is there, on one side or the other.
    pub open spec fn window_covered(self, node: NodeId) -> bool {
        let up = self.shape.up(node);
        forall|k: int|
            0 <= k < self.window_span(up, 0) ==> {
                let n = self.nodes[(#[trigger] up[k]) as int];
                n.value[1] is Some || n.host[1] is Some
            }
    }

    /// The SWA transfer of `node` in `phase`.
    pub open spec fn swa_transfer(self, node: NodeId, phase: u8, host: Option<Seq<i64>>) -> Option<Xfer> {
        let n = self.nodes[node as int];
        let page = self.shape.page as int;
        let none = Xfer::none(POOL_SWA);
        if self.poolless() {
            None
        } else if phase == PHASE_BACKUP_HOST {
            match n.value[1] {
                Some(v) => Some(Xfer { device: Some(v), ..none }),
                None => None,
            }
        } else if phase == PHASE_LOAD_BACK {
            let up = self.shape.up(node);
            let ids = self.window_loads(up, self.window_span(up, 0));
            if ids.len() == 0 {
                None
            } else {
                Some(Xfer { host: Some(self.host_runs(ids, 1)), nodes: ids, ..none })
            }
        } else if phase == PHASE_BACKUP_STORAGE {
            match (n.host[1], n.hashes) {
                (Some(h), Some(keys)) => {
                    let pages = h.len() as int / page;
                    if pages == 0 {
                        None
                    } else {
                        Some(
                            Xfer {
                                host: Some(h.skip(h.len() - pages * page)),
                                keys: Some(keys.skip(keys.len() - pages)),
                                hit_policy: 1,
                                ..none
                            },
                        )
                    }
                },
                _ => None,
            }
        } else if phase == PHASE_PREFETCH {
            match host {
                Some(h) => Some(
                    Xfer {
                        host: Some(h),
                        keys: Some(Seq::new((h.len() as int / page) as nat, |i: int| unknown_key())),
                        hit_policy: 1,
                        ..none
                    },
                ),
                None => None,
            }
        } else {
            None
        }
    }

    /// The MAMBA transfer of `node` in `phase`.
    pub open spec fn mamba_transfer(self, node: NodeId, phase: u8, host: Option<Seq<i64>>) -> Option<Xfer> {
        let n = self.nodes[node as int];
        let none = Xfer::none(POOL_MAMBA);
        if phase == PHASE_BACKUP_HOST {
            match n.value[2] {
                Some(v) => Some(Xfer { device: Some(v), ..none }),
                None => None,
            }
        } else if phase == PHASE_LOAD_BACK {
            match n.host[2] {
                Some(h) => if n.value[2] is None {
                    Some(Xfer { host: Some(h), nodes: seq![node], ..none })
                } else {
                    None
                },
                None => None,
            }
        } else if phase == PHASE_BACKUP_STORAGE {
            match (n.host[2], n.hashes) {
                (Some(h), Some(keys)) => Some(
                    Xfer { host: Some(h), keys: Some(seq![keys.last()]), hit_policy: 1, ..none },
                ),
                _ => None,
            }
        } else if phase == PHASE_PREFETCH {
            match host {
                Some(h) => Some(Xfer { host: Some(h), keys: Some(seq![unknown_key()]), hit_policy: 1, ..none }),
                None => None,
            }
        } else {
            None
        }
    }

    /// The transfer of component `ct` for `node` in `phase`; a prefetch is
    /// into the host slots `host`.
    pub open spec fn comp_transfer(self, ct: u8, node: NodeId, phase: u8, host: Option<Seq<i64>>) -> Option<Xfer> {
        if ct == CT_SWA {
            self.swa_transfer(node, phase, host)
        } else if ct == CT_MAMBA {
            self.mamba_transfer(node, phase, host)
        } else {
            None
        }
    }

    /// The transfer of component `ct`, if the tree has it.
    pub open spec fn active_transfer(self, ct: u8, node: NodeId, phase: u8) -> Option<Xfer> {
        if self.cfg.active(ct as int) {
            self.comp_transfer(ct, node, phase, None)
        } else {
            None
        }
    }

    /// The transfer of component `ct` to the host, unless it is there.
    pub open spec fn missing_transfer(self, ct: u8, node: NodeId) -> Option<Xfer> {
        if self.nodes[node as int].host[ct as int] is Some {
            None
        } else {
            self.active_transfer(ct, node, PHASE_BACKUP_HOST)
        }
    }

    /// What to copy from the device to the host for `node`.
    pub open spec fn backup_spec(self, node: NodeId) -> (Seq<i64>, Seq<(u8, Seq<Xfer>)>) {
        (
            if self.backuped(node) {
                Seq::empty()
            } else {
                run_or_none(self.nodes[node as int].value[0])
            },
            comp_list(self.missing_transfer(CT_SWA, node), self.missing_transfer(CT_MAMBA, node)),
        )
    }

    /// What to copy from the host to storage for `node`.
    pub open spec fn storage_spec(self, node: NodeId, prefix: bool) -> Option<StorageSpec> {
        if self.backuped(node) {
            Some(
                StorageSpec {
                    host: self.nodes[node as int].host[0],
                    tokens: self.raw_key(node),
                    hashes: self.nodes[node as int].hashes,
                    prefix: if prefix {
                        Some(self.hashes_above(self.shape.up(node), 1))
                    } else {
                        None
                    },
                    comps: comp_list(
                        self.active_transfer(CT_SWA, node, PHASE_BACKUP_STORAGE),
                        self.active_transfer(CT_MAMBA, node, PHASE_BACKUP_STORAGE),
                    ),
                },
            )
        } else {
            None
        }
    }

    /// How many of `up`, from place `k` on, are evicted.
    pub open spec fn evicted_until(self, up: Seq<NodeId>, k: int) -> int
        decreases up.len() - k,
    {
        if k >= up.len() || !self.evicted(up[k]) {
            k
        } else {
            self.evicted_until(up, k + 1)
        }
    }

    /// The evicted nodes up from `node`, topmost first.
    pub open spec fn evicted_chain(self, node: NodeId) -> Seq<NodeId> {
        let up = self.shape.up(node);
        up.take(self.evicted_until(up, 0)).reverse()
    }

    /// Whether a load-back for another anchor than `node` holds one of `ids`.
    pub open spec fn pinned(self, ids: Seq<NodeId>, node: NodeId) -> bool {
        exists|k: int|
            0 <= k < ids.len() && self.nodes[(#[trigger] ids[k]) as int].lb is Some && self.nodes[ids[k] as int].lb
                != Some(node)
    }

    /// Whether a load-back for another anchor holds a node of the transfer.
    pub open spec fn xfer_pinned(self, x: Option<Xfer>, node: NodeId) -> bool {
        x is Some && self.pinned(x->0.nodes, node)
    }

    /// What to copy from the host to the device for `node`; nothing if a
    /// load-back for another anchor holds a node of it.
    pub open spec fn load_back_spec(self, node: NodeId) -> Option<(Xfer, Seq<(u8, Seq<Xfer>)>)> {
        let ids = self.evicted_chain(node);
        let kv = Xfer { host: Some(self.host_runs(ids, 0)), nodes: ids, ..Xfer::none(POOL_KV) };
        let swa = self.active_transfer(CT_SWA, node, PHASE_LOAD_BACK);
        let mamba = self.active_transfer(CT_MAMBA, node, PHASE_LOAD_BACK);
        if self.pinned(ids, node) || self.xfer_pinned(swa, node) || self.xfer_pinned(mamba, node) {
            None
        } else {
            Some((kv, comp_list(swa, mamba)))
        }
    }
}

/// A transfer of nothing in `pool`.
fn no_transfer(pool: u8) -> (r: UTransfer)
    ensures
        r@ == Xfer::none(pool),
{
    let mut r = UTransfer::default();
    r.pool = pool;
    r
}

/// `n` keys of pages whose hashes are not known yet.
fn unknown_keys(n: usize) -> (r: Vec<String>)
    ensures
        unified::texts(r@) == Seq::new(n as nat, |i: int| unknown_key()),
{
    let mut r: Vec<String> = Vec::new();
    let mut k: usize = 0;
    while k < n
        invariant
            k <= n,
            r@.len() == k,
            forall|i: int| 0 <= i < k ==> (#[trigger] r@[i])@ == unknown_key(),
        decreases n - k,
    {
        r.push("__placeholder__".to_owned());
        k += 1;
    }
    assert(unified::texts(r@) =~= Seq::new(n as nat, |i: int| unknown_key()));
    r
}

impl UnifiedRadixTree {
    /// The nodes that a window above `node` has to load.
    fn window_loads(&self, node: NodeId) -> (r: Vec<NodeId>)
        requires
            self.wf(),
            self@.live(node),
        ensures
            r@ == self@.window_loads(self@.shape.up(node), self@.window_span(self@.shape.up(node), 0)),
            forall|k: int| 0 <= k < r@.len() ==> self@.inner(#[trigger] r@[k]),
    {
        let cfg = self.config();
        let up = self.up(node);
        proof {
            self.lemma_wf();
            matching::lemma_up_tokens(self@.shape, node);
        }
        let mut seen: i128 = 0;
        let mut k: usize = 0;
        while k < up.len() && seen < cfg.sliding_window_size as i128
            invariant
                self.wf(),
                cfg == self@.cfg,
                k <= up@.len(),
                up@ == self@.shape.up(node),
                forall|j: int| 0 <= j < up@.len() ==> self@.inner(#[trigger] up@[j]),
                seen == chains::tokens(self@.shape, up@, k as int),
                0 <= seen <= i64::MAX + usize::MAX,
                self@.window_span(up@, 0) == self@.window_span(up@, k as int),
            decreases up@.len() - k,
        {
            proof {
                self.lemma_wf();
                assert(self@.inner(up@[k as int]));
            }
            seen += self.topo().units(up[k]) as i128;
            k += 1;
        }
        let mut r: Vec<NodeId> = Vec::new();
        let mut j: usize = 0;
        while j < k
            invariant
                self.wf(),
                j <= k <= up@.len(),
                up@ == self@.shape.up(node),
                forall|j: int| 0 <= j < up@.len() ==> self@.inner(#[trigger] up@[j]),
                r@ == self@.window_loads(up@, j as int),
                forall|k: int| 0 <= k < r@.len() ==> self@.inner(#[trigger] r@[k]),
            decreases k - j,
        {
            let x = up[j];
            assert(self@.inner(up@[j as int]));
            if self.copy_device(x, CT_SWA).is_none() {
                let ghost before = r@;
                r.insert(0, x);
                proof {
                    assert(r@ =~= seq![x] + before);
                    assert forall|k: int| 0 <= k < r@.len() implies self@.inner(#[trigger] r@[k]) by {
                        if k > 0 {
                            assert(r@[k] == before[k - 1]);
                        }
                    }
                }
            }
            j += 1;
        }
        r
    }

    /// Host runs of component `ct` of `ids`, one after the other.
    fn host_runs(&self, ids: &Vec<NodeId>, ct: u8) -> (r: Vec<i64>)
        requires
            self.wf(),
            ct < 3,
            forall|k: int| 0 <= k < ids@.len() ==> self@.inner(#[trigger] ids@[k]),
        ensures
            r@ == self@.host_runs(ids@, ct as int),
    {
        let mut r: Vec<i64> = Vec::new();
        let mut k: usize = 0;
        while k < ids.len()
            invariant
                self.wf(),
                ct < 3,
                k <= ids@.len(),
                forall|k: int| 0 <= k < ids@.len() ==> self@.inner(#[trigger] ids@[k]),
                r@ == self@.host_runs(ids@.take(k as int), ct as int),
            decreases ids@.len() - k,
        {
            assert(ids@.take(k + 1).drop_last() =~= ids@.take(k as int));
            assert(self@.inner(ids@[k as int]));
            let v = self.copy_host(ids[k], ct);
            let ghost before = r@;
            match v {
                Some(v) => {
                    append_run(&mut r, v.as_slice());
                },
                None => {
                    assert(before + Seq::<i64>::empty() =~= before);
                },
            }
            k += 1;
        }
        assert(ids@.take(k as int) =~= ids@);
        r
    }

    /// The SWA transfer of `node` in `phase`.
    fn swa_transfer(&self, node: NodeId, phase: u8, host_indices: Option<&[i64]>) -> (r: Option<UTransfer>)
        requires
            self.wf(),
            self@.live(node),
        ensures
            opt_xfer(r) == self@.swa_transfer(node, phase, opt_slice(host_indices)),
    {
        let cfg = self.config();
        let page = cfg.page_size as usize;
        proof {
            self.lemma_wf();
        }
        if !cfg.has_swa_host_pool && self.hicache() {
            return None;
        }
        let mut x = no_transfer(POOL_SWA);
        if phase == PHASE_BACKUP_HOST {
            let v = self.copy_device(node, CT_SWA);
            if v.is_none() {
                return None;
            }
            x.device_indices = v;
            return Some(x);
        }
        if phase == PHASE_LOAD_BACK {
            let ids = self.window_loads(node);
            if ids.len() == 0 {
                return None;
            }
            x.host_indices = Some(self.host_runs(&ids, CT_SWA));
            x.nodes_to_load = ids;
            return Some(x);
        }
        if phase == PHASE_BACKUP_STORAGE {
            let h = match self.copy_host(node, CT_SWA) {
                Some(h) => h,
                None => {
                    return None;
                },
            };
            let n = self.node_by_id(node);
            match &n.hash_value {
                Some(keys) => {
                    let pages = h.len() / page;
                    if pages == 0 {
                        return None;
                    }
                    proof {
                        self.lemma_root_bare(node);
                        assert(self@.node_ok(node as int));
                        lemma_pages_covered(h@.len() as int, keys@.len() as int, page as int);
                    }
                    let rest = copy_range(h.as_slice(), h.len() - pages * page, h.len());
                    assert(rest@ =~= h@.skip(h@.len() - pages * page));
                    let names = copy_texts(keys, keys.len() - pages, keys.len());
                    assert(unified::texts(names@) =~= unified::texts(keys@).skip(keys@.len() - pages));
                    x.host_indices = Some(rest);
                    x.keys = Some(names);
                    x.hit_policy = 1;
                    return Some(x);
                },
                None => {
                    return None;
                },
            }
        }
        if phase == PHASE_PREFETCH {
            return match host_indices {
                Some(h) => {
                    let copy = copy_range(h, 0, h.len());
                    assert(copy@ =~= h@);
                    x.keys = Some(unknown_keys(h.len() / page));
                    x.host_indices = Some(copy);
                    x.hit_policy = 1;
                    Some(x)
                },
                None => None,
            };
        }
        None
    }

    /// The MAMBA transfer of `node` in `phase`.
    fn mamba_transfer(&self, node: NodeId, phase: u8, host_indices: Option<&[i64]>) -> (r: Option<UTransfer>)
        requires
            self.wf(),
            self@.live(node),
        ensures
            opt_xfer(r) == self@.mamba_transfer(node, phase, opt_slice(host_indices)),
    {
        proof {
            self.lemma_wf();
        }
        let mut x = no_transfer(POOL_MAMBA);
        if phase == PHASE_BACKUP_HOST {
            let v = self.copy_device(node, CT_MAMBA);
            if v.is_none() {
                return None;
            }
            x.device_indices = v;
            return Some(x);
        }
        if phase == PHASE_LOAD_BACK {
            let h = self.copy_host(node, CT_MAMBA);
            if h.is_none() || self.copy_device(node, CT_MAMBA).is_some() {
                return None;
            }
            let mut ids: Vec<NodeId> = Vec::new();
            ids.push(node);
            assert(ids@ =~= seq![node]);
            x.host_indices = h;
            x.nodes_to_load = ids;
            return Some(x);
        }
        if phase == PHASE_BACKUP_STORAGE {
            let h = self.copy_host(node, CT_MAMBA);
            if h.is_none() {
                return None;
            }
            let n = self.node_by_id(node);
            return match &n.hash_value {
                Some(keys) => {
                    proof {
                        self.lemma_root_bare(node);
                        assert(self@.node_ok(node as int));
                        facts::lemma_units(self@, node);
                        assert(keys@.len() > 0) by (nonlinear_arith)
                            requires
                                keys@.len() * self@.shape.page >= self@.units(node),
                                self@.units(node) >= 1,
                        ;
                    }
                    let names = copy_texts(keys, keys.len() - 1, keys.len());
                    assert(unified::texts(names@) =~= seq![unified::texts(keys@).last()]);
                    x.host_indices = h;
                    x.keys = Some(names);
                    x.hit_policy = 1;
                    Some(x)
                },
                None => None,
            };
        }
        if phase == PHASE_PREFETCH {
            return match host_indices {
                Some(h) => {
                    let copy = copy_range(h, 0, h.len());
                    assert(copy@ =~= h@);
                    let names = unknown_keys(1);
                    assert(unified::texts(names@) =~= seq![unknown_key()]);
                    x.keys = Some(names);
                    x.host_indices = Some(copy);
                    x.hit_policy = 1;
                    Some(x)
                },
                None => None,
            };
        }
        None
    }

    /// The transfer of component `ct` for `node` in `phase`. A prefetch is
    /// into the host slots `host_indices`; the slot `mamba_pool_idx` is the
    /// caller's to copy the state on to.
    pub fn build_comp_transfer(
        &self,
        ct: u8,
        node: NodeId,
        phase: u8,
        host_indices: Option<&[i64]>,
        mamba_pool_idx: Option<&[i64]>,
    ) -> (r: Option<UTransfer>)
        requires
            self.wf(),
            self@.live(node),
            ct == CT_SWA && phase == PHASE_LOAD_BACK && !self@.poolless() ==> self@.window_covered(node),
        ensures
            opt_xfer(r) == self@.comp_transfer(ct, node, phase, opt_slice(host_indices)),
    {
        if ct == CT_SWA {
            self.swa_transfer(node, phase, host_indices)
        } else if ct == CT_MAMBA {
            self.mamba_transfer(node, phase, host_indices)
        } else {
            None
        }
    }
}

/// The items of an optional slice.
pub open spec fn opt_slice(v: Option<&[i64]>) -> Option<Seq<i64>> {
    match v {
        Some(v) => Some(v@),
        None => None,
    }
}

/// Whole pages of `n` tokens are covered by keys that cover the tokens.
proof fn lemma_pages_covered(n: int, keys: int, page: int)
    requires
        0 <= n <= keys * page,
        page >= 1,
        keys >= 0,
    ensures
        0 <= n / page <= keys,
        0 <= (n / page) * page <= n,
{
    let q = n / page;
    vstd::arithmetic::div_mod::lemma_fundamental_div_mod(n, page);
    vstd::arithmetic::div_mod::lemma_mod_bound(n, page);
    assert(page * q == q * page) by (nonlinear_arith);
    assert(q <= keys) by (nonlinear_arith)
        requires
            q * page <= keys * page,
            page >= 1,
    ;
    assert(q >= 0) by (nonlinear_arith)
        requires
            q * page > n - page,
            n >= 0,
            page >= 1,
    ;
    assert(q * page >= 0) by (nonlinear_arith)
        requires
            q >= 0,
            page >= 1,
    ;
}

impl UnifiedRadixTree {
    /// A node with a host run lies below the root.
    proof fn lemma_root_bare(&self, node: NodeId)
        requires
            self.wf(),
            self@.live(node),
        ensures
            node == ROOT ==> self@.nodes[node as int].host[1] is None && self@.nodes[node as int].host[2] is None,
    {
        self.lemma_wf();
    }
}

/// Adds the transfer of a component, if there is one.
fn add_xfer(v: &mut Vec<(u8, Vec<UTransfer>)>, ct: u8, x: Option<UTransfer>)
    ensures
        unified::comp_xfers(final(v)@) == unified::comp_xfers(old(v)@) + (match opt_xfer(x) {
            Some(x) => seq![(ct, seq![x])],
            None => Seq::empty(),
        }),
{
    let ghost before = unified::comp_xfers(v@);
    match x {
        Some(x) => {
            let ghost xs = x@;
            let mut list: Vec<UTransfer> = Vec::new();
            list.push(x);
            assert(unified::xfers(list@) =~= seq![xs]);
            v.push((ct, list));
            assert(unified::comp_xfers(v@) =~= before + seq![(ct, seq![xs])]);
        },
        None => {
            assert(before =~= before + Seq::<(u8, Seq<Xfer>)>::empty());
        },
    }
}

impl UnifiedRadixTree {
    /// The transfer of component `ct`, if the tree has it.
    fn active_transfer(&self, ct: u8, node: NodeId, phase: u8) -> (r: Option<UTransfer>)
        requires
            self.wf(),
            self@.live(node),
            ct == CT_SWA || ct == CT_MAMBA,
            self@.cfg.swa() && phase == PHASE_LOAD_BACK && !self@.poolless() ==> self@.window_covered(node),
        ensures
            opt_xfer(r) == self@.active_transfer(ct, node, phase),
    {
        let cfg = self.config();
        if if ct == CT_SWA {
            cfg.has_swa()
        } else {
            cfg.has_mamba()
        } {
            self.build_comp_transfer(ct, node, phase, None, None)
        } else {
            None
        }
    }

    /// What to copy from the device to the host for `node`: its KV, unless
    /// it is backed up, and what other components have on the device alone.
    pub fn build_backup_spec(&self, node: NodeId) -> (r: (Vec<i64>, Vec<(u8, Vec<UTransfer>)>))
        requires
            self.wf(),
            self@.live(node),
            self@.backuped(node) || self@.nodes[node as int].value[0] is Some,
        ensures
            (r.0@, unified::comp_xfers(r.1@)) == self@.backup_spec(node),
    {
        let value = if self.is_backuped(node) {
            Vec::new()
        } else {
            match self.copy_device(node, CT_FULL) {
                Some(v) => v,
                None => Vec::new(),
            }
        };
        let mut comps: Vec<(u8, Vec<UTransfer>)> = Vec::new();
        assert(unified::comp_xfers(comps@) =~= Seq::<(u8, Seq<Xfer>)>::empty());
        let swa = if self.copy_host(node, CT_SWA).is_some() {
            None
        } else {
            self.active_transfer(CT_SWA, node, PHASE_BACKUP_HOST)
        };
        let mamba = if self.copy_host(node, CT_MAMBA).is_some() {
            None
        } else {
            self.active_transfer(CT_MAMBA, node, PHASE_BACKUP_HOST)
        };
        let ghost (a, b) = (opt_xfer(swa), opt_xfer(mamba));
        add_xfer(&mut comps, CT_SWA, swa);
        add_xfer(&mut comps, CT_MAMBA, mamba);
        assert(unified::comp_xfers(comps@) =~= comp_list(a, b));
        (value, comps)
    }

    /// What to copy from the host to storage for `node`; `None` if it is not
    /// backed up.
    pub fn build_storage_backup_spec(&self, node: NodeId, pass_prefix_keys: bool) -> (r: Option<UStorageBackupSpec>)
        requires
            self.wf(),
            self@.live(node),
        ensures
            (match r {
                Some(s) => Some(s@),
                None => None,
            }) == self@.storage_spec(node, pass_prefix_keys),
    {
        if !self.is_backuped(node) {
            return None;
        }
        let swa = self.active_transfer(CT_SWA, node, PHASE_BACKUP_STORAGE);
        let mamba = self.active_transfer(CT_MAMBA, node, PHASE_BACKUP_STORAGE);
        let ghost (a, b) = (opt_xfer(swa), opt_xfer(mamba));
        let mut comps: Vec<(u8, Vec<UTransfer>)> = Vec::new();
        assert(unified::comp_xfers(comps@) =~= Seq::<(u8, Seq<Xfer>)>::empty());
        add_xfer(&mut comps, CT_SWA, swa);
        add_xfer(&mut comps, CT_MAMBA, mamba);
        assert(unified::comp_xfers(comps@) =~= comp_list(a, b));
        let prefix_keys = if pass_prefix_keys {
            Some(self.get_prefix_hash_values(node))
        } else {
            None
        };
        Some(
            UStorageBackupSpec {
                host_value: self.copy_host(node, CT_FULL),
                token_ids: self.node_key(node),
                hash_value: self.get_hash_values_opt(node),
                prefix_keys,
                comp_xfers: comps,
            },
        )
    }

    /// Whether a load-back for another anchor than `node` holds one of `ids`.
    fn any_pinned(&self, ids: &Vec<NodeId>, node: NodeId) -> (r: bool)
        requires
            self.wf(),
            forall|k: int| 0 <= k < ids@.len() ==> self@.live(#[trigger] ids@[k]),
        ensures
            r == self@.pinned(ids@, node),
    {
        let mut k: usize = 0;
        while k < ids.len()
            invariant
                self.wf(),
                k <= ids@.len(),
                forall|k: int| 0 <= k < ids@.len() ==> self@.live(#[trigger] ids@[k]),
                forall|j: int|
                    0 <= j < k ==> self@.nodes[(#[trigger] ids@[j]) as int].lb is None || self@.nodes[ids@[j] as int].lb
                        == Some(node),
            decreases ids@.len() - k,
        {
            assert(self@.live(ids@[k as int]));
            if let Some(p) = self.node_by_id(ids[k]).lb_pending {
                if p != node {
                    return true;
                }
            }
            k += 1;
        }
        false
    }

    /// The evicted nodes up from `node`, topmost first.
    fn evicted_chain(&self, node: NodeId) -> (r: Vec<NodeId>)
        requires
            self.wf(),
            self@.live(node),
        ensures
            r@ == self@.evicted_chain(node),
            forall|k: int| 0 <= k < r@.len() ==> self@.inner(#[trigger] r@[k]),
    {
        let up = self.up(node);
        let mut k: usize = 0;
        while k < up.len() && self.is_evicted(up[k])
            invariant
                self.wf(),
                k <= up@.len(),
                forall|j: int| 0 <= j < up@.len() ==> self@.inner(#[trigger] up@[j]),
                self@.evicted_until(up@, 0) == self@.evicted_until(up@, k as int),
            decreases up@.len() - k,
        {
            k += 1;
        }
        let mut ids: Vec<NodeId> = Vec::new();
        let mut j: usize = k;
        while j > 0
            invariant
                j <= k <= up@.len(),
                ids@.len() == k - j,
                forall|i: int| 0 <= i < ids@.len() ==> ids@[i] == up@[k - 1 - i],
            decreases j,
        {
            j -= 1;
            ids.push(up[j]);
        }
        assert(ids@ =~= up@.take(k as int).reverse());
        assert forall|i: int| 0 <= i < ids@.len() implies self@.inner(#[trigger] ids@[i]) by {
            assert(ids@[i] == up@[k - 1 - i]);
        }
        ids
    }

    /// What to copy from the host to the device for `node`: the KV of the
    /// evicted nodes up from it, and what other components need beside it.
    /// `None` if a load-back for another anchor holds a node of it.
    #[verifier::rlimit(30)]
    pub fn build_load_back_spec(&self, node: NodeId, mamba_pool_idx: Option<&[i64]>) -> (r: Option<ULoadBackSpec>)
        requires
            self.wf(),
            self@.live(node),
            self@.cfg.swa() && !self@.poolless() ==> self@.window_covered(node),
        ensures
            (match r {
                Some(s) => Some(s@),
                None => None,
            }) == self@.load_back_spec(node),
    {
        let ids = self.evicted_chain(node);
        let swa = self.active_transfer(CT_SWA, node, PHASE_LOAD_BACK);
        let mamba = self.active_transfer(CT_MAMBA, node, PHASE_LOAD_BACK);
        let ghost (a, b) = (opt_xfer(swa), opt_xfer(mamba));
        proof {
            self.lemma_wf();
            if a is Some {
                lemma_loads_live(self@, node);
            }
        }
        if self.any_pinned(&ids, node) {
            return None;
        }
        if let Some(x) = &swa {
            if self.any_pinned(&x.nodes_to_load, node) {
                return None;
            }
        }
        if let Some(x) = &mamba {
            if self.any_pinned(&x.nodes_to_load, node) {
                return None;
            }
        }
        let mut kv = no_transfer(POOL_KV);
        kv.host_indices = Some(self.host_runs(&ids, CT_FULL));
        kv.nodes_to_load = ids;
        let mut comps: Vec<(u8, Vec<UTransfer>)> = Vec::new();
        assert(unified::comp_xfers(comps@) =~= Seq::<(u8, Seq<Xfer>)>::empty());
        add_xfer(&mut comps, CT_SWA, swa);
        add_xfer(&mut comps, CT_MAMBA, mamba);
        assert(unified::comp_xfers(comps@) =~= comp_list(a, b));
        Some(ULoadBackSpec { kv, comp_xfers: comps })
    }
}

/// The nodes that a window has to load are nodes of the tree.
proof fn lemma_loads_live(st: UState, node: NodeId)
    requires
        st.wf(),
        st.live(node),
    ensures
        ({
            let up = st.shape.up(node);
            let ids = st.window_loads(up, st.window_span(up, 0));
            forall|k: int| 0 <= k < ids.len() ==> st.inner(#[trigger] ids[k])
        }),
{
    let up = st.shape.up(node);
    matching::lemma_up_live(st, node);
    lemma_span(st, up, 0);
    lemma_loads(st, up, st.window_span(up, 0));
}

/// A span ends on the way up.
proof fn lemma_span(st: UState, up: Seq<NodeId>, k: int)
    requires
        0 <= k <= up.len(),
    ensures
        k <= st.window_span(up, k) <= up.len(),
    decreases up.len() - k,
{
    if k < up.len() && chains::tokens(st.shape, up, k) < st.cfg.sliding_window_size {
        lemma_span(st, up, k + 1);
    }
}

/// What is loaded is on the way up.
proof fn lemma_loads(st: UState, up: Seq<NodeId>, k: int)
    requires
        0 <= k <= up.len(),
        forall|j: int| 0 <= j < up.len() ==> st.inner(#[trigger] up[j]),
    ensures
        forall|j: int| 0 <= j < st.window_loads(up, k).len() ==> st.inner(#[trigger] st.window_loads(up, k)[j]),
    decreases k,
{
    if k > 0 {
        lemma_loads(st, up, k - 1);
        let rest = st.window_loads(up, k - 1);
        assert(st.inner(up[k - 1]));
        assert forall|j: int| 0 <= j < st.window_loads(up, k).len() implies st.inner(
            #[trigger] st.window_loads(up, k)[j],
        ) by {
            if st.nodes[up[k - 1] as int].value[1] is None && j > 0 {
                assert(st.window_loads(up, k)[j] == rest[j - 1]);
            }
        }
    }
}

} // verus!
