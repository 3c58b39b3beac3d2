//! Inserts in steps.
//!
//! An insert follows the key down, adds what is missing as a leaf, and
//! refreshes recency. It stops wherever the caller has to act before it can
//! go on, and is taken up again from there.

use crate::hi_model::run_or_none;
use crate::key;
use crate::key::RadixKey;
use crate::lru;
use crate::seqs;
use crate::seqs::{copy_opt, copy_range};
use crate::topo;
use crate::topo::{NodeId, ROOT};
use crate::unified;
use crate::unified::facts;
use crate::unified::matching;
use crate::unified::model;
use crate::unified::model::{Asked, InsertPhase, Inserted, Inserting, UNodeState, UState};
use crate::unified::tree;
use crate::unified::tree::{InsertState, UInsertParams, UIntsertResult, UNode, UnifiedRadixTree};
use crate::unified::{Act, UCacheAction, CT_FULL, CT_MAMBA, CT_SWA};
use vstd::prelude::*;

verus! {

/// Where an insert stands: actions to perform, and its report once it is
/// done.
#[derive(Debug, Clone)]
pub struct UStepResult {
    pub actions: Vec<UCacheAction>,
    pub result: Option<UIntsertResult>,
}

impl UStepResult {
    /// Actions and report as the model describes them.
    pub open spec fn view(&self) -> (Seq<Act>, Option<Inserted>) {
        (unified::acts(self.actions@), tree::opt_inserted(self.result))
    }
}

impl Inserting {
    /// How far the insert is from its end.
    pub open spec fn left(self) -> nat {
        match self.phase {
            InsertPhase::Walk => self.key.len() + 2,
            InsertPhase::Commit => 1,
            InsertPhase::Tail => 0,
        }
    }
}

/// Whether an action of `acts` must be performed at once.
pub open spec fn urgent(acts: Seq<Act>) -> bool {
    exists|k: int| 0 <= k < acts.len() && !(#[trigger] acts[k]).deferrable()
}

impl UState {
    // ---- backups ----

    /// One hit more on `node`, and whether it is to be backed up for it.
    /// Counts stop at `i64::MAX`.
    pub open spec fn hit_counted(self, node: NodeId, chunked: bool) -> (UState, bool) {
        let n = self.nodes[node as int];
        let hits = unified::capped(n.hits + 1);
        if self.evicted(node) || chunked || self.cfg.is_write_back {
            (self, false)
        } else {
            (
                self.patched(node, UNodeState { hits, ..n }),
                self.hicache && !self.backuped(node) && hits >= self.cfg.write_through_threshold,
            )
        }
    }

    /// Where the nodes of `up` from place `k` on that are not backed up end.
    pub open spec fn bare_until(self, up: Seq<NodeId>, k: int) -> int
        decreases up.len() - k,
    {
        if k >= up.len() || self.backuped(up[k]) {
            k
        } else {
            self.bare_until(up, k + 1)
        }
    }

    /// `node` and the ancestors to be backed up with it, topmost first.
    pub open spec fn backup_chain(self, node: NodeId) -> Seq<NodeId> {
        let up = self.shape.up(node);
        up.take(self.bare_until(up, 1)).reverse()
    }

    /// Whether `node`, which is backed up, holds a state that is not.
    pub open spec fn backup_owed(self, node: NodeId) -> bool {
        let n = self.nodes[node as int];
        &&& self.hicache && !self.cfg.is_write_back
        &&& self.backuped(node)
        &&& n.wt is None
        &&& self.cfg.mamba() && n.value[2] is Some && n.host[2] is None
    }

    // ---- the walk down ----

    /// Device KV for `node`, which had none.
    pub open spec fn unevicted(self, node: NodeId, fresh: Seq<i64>) -> UState {
        self.patched(node, self.nodes[node as int].with_value(0, Some(fresh))).noted(node).logged(1, node, 1)
    }

    /// Window slots asked for on `node`, which begins `done` tokens into the
    /// key, as far as it lies past the evicted part; it is cut where that
    /// ends inside it.
    pub open spec fn window_recovered(self, node: NodeId, done: int, asked: Asked) -> (UState, Seq<Act>) {
        let k = asked.swa_evicted_seqlen - done;
        let n = self.units(node);
        if k <= 0 {
            (self, seq![Act::Rebuild { node, source: run_or_none(self.nodes[node as int].value[0]) }])
        } else if k < n {
            let t = self.cut(node, k * self.shape.unit);
            (
                t,
                matching::opt_list(self.cut_report(node)).push(
                    Act::Rebuild { node, source: run_or_none(t.nodes[node as int].value[0]) },
                ),
            )
        } else {
            (self, Seq::empty())
        }
    }

    /// The incoming run `fresh` taken over on `node`, which has lost its
    /// window slots: in the place of its own run, or beside it if that is
    /// locked.
    pub open spec fn window_replaced(self, node: NodeId, fresh: Seq<i64>) -> (UState, Seq<Act>) {
        let n = self.nodes[node as int];
        let own = run_or_none(n.value[0]);
        if n.lock[0] > 0 {
            (self, seq![Act::Recover { node, kept: own, incoming: fresh }])
        } else {
            (
                self.patched(node, n.with_value(0, Some(fresh))),
                seq![Act::FreeKVFullOnly { chunks: seq![own] }, Act::Rebuild { node, source: fresh }],
            )
        }
    }

    /// The incoming run `slice` over `node`, which the tree holds on the
    /// device: the tree's own is kept but where window slots are missing.
    /// Also how many leading tokens of the incoming run were not taken over.
    pub open spec fn overlapped(self, node: NodeId, done: int, slice: Seq<i64>, asked: Asked) -> (
        UState,
        Seq<Act>,
        int,
    ) {
        let n = self.units(node);
        let k = asked.swa_evicted_seqlen - done;
        if !self.cfg.swa() || asked.prev_prefix_len >= done + n || self.nodes[node as int].value[1] is Some {
            (self, Seq::empty(), n)
        } else if k <= 0 {
            let (t, acts) = self.window_replaced(node, slice);
            (t, acts, 0)
        } else if k < n {
            let (t, acts) = self.cut(node, k * self.shape.unit).window_replaced(node, slice.skip(k));
            (t, matching::opt_list(self.cut_report(node)) + acts, k)
        } else {
            (self, Seq::empty(), n)
        }
    }

    /// What is done to `node`, which the key matches whole.
    pub open spec fn node_passed(self, node: NodeId, done: int, slice: Seq<i64>, asked: Asked) -> (UState, Seq<Act>) {
        if self.evicted(node) {
            let t = self.unevicted(node, slice);
            if self.cfg.swa() {
                t.window_recovered(node, done, asked)
            } else {
                (t, Seq::empty())
            }
        } else {
            let (t, acts, kept) = self.overlapped(node, done, slice, asked);
            let from = if asked.prev_prefix_len > done {
                asked.prev_prefix_len - done
            } else {
                0
            };
            (
                t,
                if from < kept {
                    acts.push(Act::FreeKV { chunks: seq![slice.subrange(from, kept)] })
                } else {
                    acts
                },
            )
        }
    }

    /// The child of `s.node` that the rest of the key goes on into.
    pub open spec fn next_child(self, s: Inserting) -> Option<NodeId> {
        if s.key.len() == 0 {
            None
        } else {
            match self.shape.child_of(s.node, s.ns, s.key.take(self.shape.chunk() as int)) {
                Some(c) => if 0 < self.shape.shared(s.key, c) <= s.key.len() {
                    Some(c)
                } else {
                    None
                },
                None => None,
            }
        }
    }

    /// The child `c` entered by a key that matches `m` flattened elements of
    /// it: visited, and cut there if it is longer. Also the node that is
    /// matched whole, and the report of the cut.
    pub open spec fn entered(self, c: NodeId, m: int, priority: i64) -> (UState, NodeId, Seq<Act>) {
        let a = self.touched(c);
        let (b, node, acts) = if m < self.shape.nodes[c as int].key.len() {
            (a.cut(c, m), self.nodes.len() as NodeId, matching::opt_list(self.cut_report(c)))
        } else {
            (a, c, Seq::empty())
        };
        let n = b.nodes[node as int];
        let p = if n.priority < priority {
            priority
        } else {
            n.priority
        };
        (b.patched(node, UNodeState { priority: p, ..n }), node, acts)
    }

    /// One node further down, with the actions that this asks for; or over
    /// to the leaf.
    pub open spec fn walk_stepped(self, s: Inserting) -> (UState, Inserting, Seq<Act>) {
        match self.next_child(s) {
            None => (self, Inserting { phase: InsertPhase::Commit, ..s }, Seq::empty()),
            Some(c) => {
                let m = self.shape.shared(s.key, c) as int;
                let n = m / self.shape.unit as int;
                let (a, node, cuts) = self.entered(c, m, s.asked.priority);
                let (b, acts) = a.node_passed(node, s.done, s.value.take(n), s.asked);
                let (d, back) = b.hit_counted(node, s.asked.chunked);
                let news = cuts + acts + (if back {
                    seq![Act::BackupKV { ids: d.backup_chain(node) }]
                } else {
                    Seq::empty()
                });
                (
                    d,
                    Inserting {
                        node,
                        done: s.done + n,
                        key: s.key.skip(m),
                        value: s.value.skip(n),
                        pending: s.pending + news,
                        ..s
                    },
                    news,
                )
            },
        }
    }

    // ---- the leaf ----

    /// A new leaf with device KV.
    pub open spec fn leafed(self, p: NodeId, ns: u32, key: Seq<i64>, value: Seq<i64>, priority: i64) -> UState {
        self.grown(p, ns, key, self.newborn(priority).with_value(0, Some(value))).logged(
            1,
            self.nodes.len() as NodeId,
            1,
        )
    }

    /// The window slots of a new leaf asked for: past the evicted part, and
    /// with one window as a node of its own, so that it can be locked alone.
    pub open spec fn leaf_windowed(self, leaf: NodeId, done: int, asked: Asked) -> (UState, Seq<Act>) {
        let k = asked.swa_evicted_seqlen - done;
        if k >= self.units(leaf) {
            (self, Seq::empty())
        } else {
            let a = if k > 0 {
                self.cut(leaf, k * self.shape.unit)
            } else {
                self
            };
            let extra = a.units(leaf) - self.cfg.tail_size();
            if extra > 0 {
                let b = a.cut(leaf, extra * self.shape.unit);
                let f = a.nodes.len() as NodeId;
                (
                    b,
                    seq![
                        Act::Rebuild { node: f, source: run_or_none(b.nodes[f as int].value[0]) },
                        Act::Rebuild { node: leaf, source: run_or_none(b.nodes[leaf as int].value[0]) },
                    ],
                )
            } else {
                (a, seq![Act::Rebuild { node: leaf, source: run_or_none(a.nodes[leaf as int].value[0]) }])
            }
        }
    }

    /// The state `v` attached to `node`, unless it has one. Also whether it
    /// had one.
    pub open spec fn state_attached(self, node: NodeId, fresh: bool, v: Seq<i64>) -> (UState, Seq<Act>, bool) {
        let acts = if self.cfg.mamba_max_states_per_path >= 0 {
            seq![Act::EvictExcess { tail: node }]
        } else {
            Seq::empty()
        };
        if fresh {
            (self.stored(node, 2, v), acts, false)
        } else if self.nodes[node as int].value[2] is None {
            (self.stored(node, 2, v).touched(node), acts, false)
        } else {
            (self.relisted(4, lru::lifted(self.lru[4], seq![node])).touched(node), Seq::empty(), true)
        }
    }

    /// What is left of the key added as a leaf, and what components attach
    /// to the end of the key.
    pub open spec fn commit_stepped(self, s: Inserting) -> (UState, Inserting, Seq<Act>) {
        let fresh = s.key.len() > 0;
        let target = if fresh {
            self.nodes.len() as NodeId
        } else {
            s.node
        };
        let a = if fresh {
            self.leafed(s.node, s.ns, s.key, s.value, s.asked.priority)
        } else {
            self
        };
        let (b, windows) = if self.cfg.swa() && fresh {
            a.leaf_windowed(target, s.done, s.asked)
        } else {
            (a, Seq::empty())
        };
        let (d, states, had) = if self.cfg.mamba() {
            b.state_attached(target, fresh, run_or_none(s.asked.mamba_value))
        } else {
            (b, Seq::empty(), false)
        };
        let result = Inserted {
            prefix_len: s.done,
            last_device_node: target,
            mamba_exist: had,
            created: if fresh {
                seq![target]
            } else {
                Seq::empty()
            },
            ..Inserted::none()
        };
        (
            d,
            Inserting {
                phase: InsertPhase::Tail,
                new_leaf: fresh || s.new_leaf,
                target,
                result: Some(result),
                pending: s.pending + (windows + states),
                ..s
            },
            windows + states,
        )
    }

    /// The end of an insert: recency of the window, and a backup.
    pub open spec fn tail_stepped(self, s: Inserting) -> (UState, Seq<Act>) {
        let a = if self.cfg.swa() {
            self.window_refreshed(s.target)
        } else {
            self
        };
        let (b, back) = if s.new_leaf {
            a.hit_counted(s.target, s.asked.chunked)
        } else {
            (a, a.backup_owed(s.target))
        };
        (
            b,
            if back {
                seq![Act::BackupKV { ids: b.backup_chain(s.target) }]
            } else {
                Seq::empty()
            },
        )
    }

    // ---- the whole ----

    /// One step of an insert that is not at its end.
    #[verifier::opaque]
    pub open spec fn stepped(self, s: Inserting) -> (UState, Inserting, Seq<Act>) {
        if s.phase is Walk {
            self.walk_stepped(s)
        } else {
            self.commit_stepped(s)
        }
    }

    /// An insert taken up at `s` until it ends or a step asks for something
    /// that cannot wait. Also the actions, and the report if it ended.
    pub open spec fn advanced(self, s: Inserting) -> (UState, Seq<Act>, Option<Inserted>)
        decreases s.left(),
    {
        if s.phase is Tail {
            let (a, acts) = self.tail_stepped(s);
            (a, s.pending + acts, s.result)
        } else {
            let (a, t, acts) = self.stepped(s);
            proof {
                lemma_stepped(self, s);
            }
            if urgent(acts) {
                (UState { ongoing: Some(Inserting { pending: Seq::empty(), ..t }), ..a }, t.pending, None)
            } else {
                a.advanced(t)
            }
        }
    }

    /// A possible point of an insert.
    pub open spec fn inserting(self, s: Inserting) -> bool {
        let u = s.key.len() as int / self.shape.unit as int;
        if s.phase is Tail {
            self.inner(s.target)
        } else {
            &&& self.shape.aligned(s.key.len() as int)
            &&& s.value.len() == u
            &&& 0 <= s.done && s.done + u <= i64::MAX && s.done % (self.shape.page as int) == 0
            &&& self.live(s.node)
            &&& self.nodes[s.node as int].value[0] is Some
            &&& s.node == ROOT ==> s.key.len() > 0
            &&& s.node != ROOT ==> self.shape.nodes[s.node as int].ns == s.ns
            &&& s.phase is Commit && s.key.len() > 0 ==> self.shape.child_of(
                s.node,
                s.ns,
                s.key.take(self.shape.chunk() as int),
            ) is None
            &&& self.cfg.swa() ==> s.asked.swa_evicted_seqlen as int % (self.shape.page as int) == 0
            &&& self.cfg.mamba() ==> s.asked.mamba_value is Some
            &&& self.insertable(u, s.asked)
        }
    }

    /// Room for `u` more tokens.
    pub open spec fn insertable(self, u: int, asked: Asked) -> bool {
        &&& self.roomy(2 * u + 3)
        &&& self.size(0) + u <= i64::MAX
        &&& self.cfg.mamba() ==> self.size(2) + run_or_none(asked.mamba_value).len() <= i64::MAX
    }

    /// The start of an insert: the root is visited and takes its priority.
    pub open spec fn welcomed(self, priority: i64) -> UState {
        let a = self.touched(ROOT);
        let n = a.nodes[0];
        a.patched(
            ROOT,
            UNodeState {
                priority: if n.priority < priority {
                    priority
                } else {
                    n.priority
                },
                ..n
            },
        )
    }

    /// The insert that `begin_insert` starts.
    pub open spec fn insert_of(self, ns: u32, raw: Seq<i64>, value: Option<Seq<i64>>, asked: Asked) -> Inserting {
        let flat = self.flat(raw);
        let u = flat.len() as int / self.shape.unit as int;
        Inserting {
            phase: InsertPhase::Walk,
            node: ROOT,
            ns,
            key: flat,
            value: match value {
                Some(v) => v.take(u),
                None => raw.take(u),
            },
            asked,
            done: 0,
            new_leaf: false,
            target: 0,
            result: None,
            pending: Seq::empty(),
        }
    }

    /// An insert begun: as far as it goes without the caller.
    pub open spec fn after_begin(self, ns: u32, raw: Seq<i64>, value: Option<Seq<i64>>, asked: Asked) -> (
        UState,
        Seq<Act>,
        Option<Inserted>,
    ) {
        let t = self.welcomed(asked.priority);
        if self.flat(raw).len() == 0 {
            (t, Seq::empty(), Some(Inserted { mamba_exist: true, ..Inserted::none() }))
        } else {
            t.advanced(t.insert_of(ns, raw, value, asked))
        }
    }
}

/// Units and pages of aligned lengths.
pub proof fn lemma_cut_at(st: UState, node: NodeId, k: int)
    requires
        st.built(),
        st.inner(node),
        0 < k < st.units(node),
        k % (st.shape.page as int) == 0,
    ensures
        0 < k * st.shape.unit < st.shape.nodes[node as int].key.len(),
        st.shape.aligned(k * st.shape.unit),
        (k * st.shape.unit) / st.shape.unit as int == k,
{
    let s = st.shape;
    let unit = s.unit as int;
    let page = s.page as int;
    facts::lemma_units(st, node);
    topo::lemma_chunk(s);
    let q = k / page;
    vstd::arithmetic::div_mod::lemma_fundamental_div_mod(k, page);
    assert(k == page * q);
    assert(k * unit == q * (page * unit)) by (nonlinear_arith)
        requires
            k == page * q,
    ;
    vstd::arithmetic::div_mod::lemma_mod_multiples_basic(q, page * unit);
    assert(0 < k * unit < st.units(node) * unit) by (nonlinear_arith)
        requires
            0 < k < st.units(node),
            unit >= 1,
    ;
    vstd::arithmetic::div_mod::lemma_div_multiples_vanish(k, unit);
    assert(k * unit == unit * k) by (nonlinear_arith);
}

/// Counts depend on the nodes alone.
proof fn lemma_sizes(a: UState, b: UState)
    requires
        a.nodes == b.nodes,
    ensures
        a.size(0) == b.size(0),
        a.size(2) == b.size(2),
{
    assert forall|c: int, l: bool| #[trigger] a.count(c, l) == b.count(c, l) by {
        seqs::lemma_total_same(|i: int| a.weight(c, l, i), |i: int| b.weight(c, l, i), a.nodes.len());
    }
}

impl UnifiedRadixTree {
    /// Counts a hit on `node`; whether it is to be backed up for it.
    pub(crate) fn inc_hit_count_and_check(&mut self, node: NodeId, chunked: bool) -> (r: bool)
        requires
            old(self).wf(),
            old(self)@.live(node),
        ensures
            final(self).wf(),
            (final(self)@, r) == old(self)@.hit_counted(node, chunked),
    {
        if self.is_evicted(node) || chunked || self.is_write_back() {
            return false;
        }
        let hits = self.node_by_id(node).hit_count;
        let next: i64 = if hits < i64::MAX {
            hits + 1
        } else {
            hits
        };
        self.set_hits(node, next);
        self.hicache() && !self.is_backuped(node) && next >= self.write_through_threshold()
    }

    /// Asks for `node` and its ancestors that are not backed up to be.
    pub(crate) fn build_backup_kv(&self, node: NodeId) -> (r: UCacheAction)
        requires
            self.wf(),
            self@.inner(node),
        ensures
            r@ == (Act::BackupKV { ids: self@.backup_chain(node) }),
    {
        let up = self.up(node);
        proof {
            self.lemma_wf();
            topo::lemma_up(self@.shape, node);
            topo::lemma_path_grows(self@.shape, node);
        }
        let mut k: usize = 1;
        while k < up.len() && !self.is_backuped(up[k])
            invariant
                self.wf(),
                1 <= k <= up@.len(),
                up@.len() < self@.nodes.len(),
                forall|j: int| 0 <= j < up@.len() ==> self@.inner(#[trigger] up@[j]),
                self@.bare_until(up@, 1) == self@.bare_until(up@, k as int),
            decreases up@.len() - k,
        {
            k += 1;
        }
        let mut ids: Vec<NodeId> = Vec::new();
        let mut j: usize = k;
        while j > 0
            invariant
                j <= k <= up@.len(),
                ids@.len() == k - j,
                forall|i: int| 0 <= i < ids@.len() ==> ids@[i] == up@[k - 1 - i],
            decreases j,
        {
            j -= 1;
            ids.push(up[j]);
        }
        assert(ids@ =~= up@.take(k as int).reverse());
        UCacheAction::BackupKV { node_ids: ids }
    }

    /// Whether `node`, which is backed up, holds a state that is not.
    fn should_backup_existing(&self, node: NodeId) -> (r: bool)
        requires
            self.wf(),
            self@.live(node),
        ensures
            r == self@.backup_owed(node),
    {
        let cfg = self.config();
        let n = self.node_by_id(node);
        proof {
            assert(n@.value[2] == seqs::opt_run(n.value@[2]));
            assert(n@.host[2] == seqs::opt_run(n.host_value@[2]));
        }
        self.hicache() && !cfg.is_write_back && self.is_backuped(node) && n.wt_pending.is_none() && cfg.has_mamba()
            && n.value[2].is_some() && n.host_value[2].is_none()
    }

    /// A copy of the FULL device run of `node`.
    fn full_of(&self, node: NodeId) -> (r: Vec<i64>)
        requires
            self.wf(),
            self@.live(node),
        ensures
            r@ == run_or_none(self@.nodes[node as int].value[0]),
    {
        match self.copy_device(node, CT_FULL) {
            Some(v) => v,
            None => Vec::new(),
        }
    }
}

/// `b` comes of `a` by steps that keep `node` and its device KV and add
/// `more` nodes and `extra` tokens at most.
pub open spec fn stays(a: UState, b: UState, node: NodeId, more: int, extra: int) -> bool {
    &&& b.cfg == a.cfg && b.hicache == a.hicache && b.ongoing == a.ongoing
    &&& b.shape.page == a.shape.page && b.shape.unit == a.shape.unit
    &&& b.nodes.len() <= a.nodes.len() + more
    &&& b.inner(node)
    &&& b.shape.nodes[node as int].ns == a.shape.nodes[node as int].ns
    &&& b.nodes[node as int].value[0] is Some
    &&& b.size(0) <= a.size(0) + extra
    &&& b.size(2) == a.size(2)
}

/// A cut takes its part off the node.
pub proof fn lemma_cut_units(st: UState, c: NodeId, m: int)
    requires
        st.wf(),
        st.cuttable(c, m),
    ensures
        st.cut(c, m).units(c) == st.units(c) - m / st.shape.unit as int,
        st.cut(c, m).units(st.nodes.len() as NodeId) == m / st.shape.unit as int,
{
    facts::lemma_pages(st.shape, m);
    let unit = st.shape.unit as int;
    let n = st.shape.nodes[c as int].key.len() as int;
    facts::lemma_units(st, c);
    let u = m / unit;
    assert(u * unit == m);
    assert((n - m) / unit == n / unit - u) by {
        assert(n - m == (n / unit - u) * unit) by (nonlinear_arith)
            requires
                (n / unit) * unit == n,
                u * unit == m,
        ;
        vstd::arithmetic::div_mod::lemma_div_multiples_vanish(n / unit - u, unit);
        assert((n / unit - u) * unit == unit * (n / unit - u)) by (nonlinear_arith);
    }
}

/// A cut keeps the node that it cuts.
proof fn lemma_cut_stays(st: UState, c: NodeId, m: int)
    requires
        st.wf(),
        st.cuttable(c, m),
        st.nodes[c as int].value[0] is Some,
    ensures
        stays(st, st.cut(c, m), c, 1, 0),
        st.cut(c, m).units(c) == st.units(c) - m / st.shape.unit as int,
        ({
            let f = st.nodes.len() as NodeId;
            let t = st.cut(c, m);
            &&& t.inner(f)
            &&& t.units(f) == m / st.shape.unit as int
            &&& t.shape.nodes[f as int].ns == st.shape.nodes[c as int].ns
            &&& t.nodes[f as int].value[0] is Some
        }),
{
    facts::lemma_cut(st, c, m);
    facts::lemma_cut_counts(st, c, m, 0);
    facts::lemma_cut_counts(st, c, m, 2);
    topo::lemma_path_grows(st.shape, c);
    assert(st.node_ok(c as int));
    lemma_cut_units(st, c, m);
}

/// An action more at the end of a list.
proof fn lemma_acts_push(v: Seq<UCacheAction>, a: UCacheAction)
    ensures
        unified::acts(v.push(a)) == unified::acts(v).push(a@),
{
    assert(unified::acts(v.push(a)) =~= unified::acts(v).push(a@));
}

/// Adds an action.
pub(crate) fn add_act(pending: &mut Vec<UCacheAction>, a: UCacheAction)
    ensures
        unified::acts(final(pending)@) == unified::acts(old(pending)@).push(a@),
{
    proof {
        lemma_acts_push(pending@, a);
    }
    pending.push(a);
}

/// Adds an action, if there is one.
pub(crate) fn add_opt_act(pending: &mut Vec<UCacheAction>, a: Option<UCacheAction>)
    ensures
        unified::acts(final(pending)@) == unified::acts(old(pending)@) + matching::opt_list(unified::opt_act(a)),
{
    let ghost before = unified::acts(pending@);
    match a {
        Some(a) => {
            add_act(pending, a);
            assert(unified::acts(pending@) =~= before + seq![a@]);
        },
        None => {
            assert(before =~= before + Seq::<Act>::empty());
        },
    }
}

impl UnifiedRadixTree {
    /// Gives `node`, which has none, device KV.
    fn unevict_node_on_insert(&mut self, node: NodeId, fresh: Vec<i64>)
        requires
            old(self).wf(),
            old(self)@.inner(node),
            old(self)@.nodes[node as int].value[0] is None,
            old(self)@.nodes[old(self)@.shape.nodes[node as int].parent as int].value[0] is Some,
            fresh@.len() == old(self)@.units(node),
            old(self)@.size(0) + fresh@.len() <= i64::MAX,
        ensures
            final(self).wf(),
            final(self)@ == old(self)@.unevicted(node, fresh@),
            stays(old(self)@, final(self)@, node, 0, fresh@.len() as int),
    {
        let ghost st = self@;
        let ghost f = fresh@;
        proof {
            self.lemma_wf();
            assert(st.node_ok(node as int));
        }
        self.set_full(node, Some(fresh));
        let ghost a = self@;
        proof {
            self.lemma_wf();
            facts::lemma_counts(st, a, node, 0);
            facts::lemma_counts(st, a, node, 2);
            facts::lemma_noted(a, node);
            lemma_sizes(a, a.noted(node));
            lemma_sizes(a, a.noted(node).logged(1, node, 1));
        }
        self.update_duplicate_tracking(node);
        self.log(1, node, 1);
    }

    /// Asks for window slots on `node`.
    fn swa_recover_after_unevict(
        &mut self,
        node: NodeId,
        done: i64,
        params: &UInsertParams,
        pending: &mut Vec<UCacheAction>,
    )
        requires
            old(self).wf(),
            old(self)@.inner(node),
            old(self)@.roomy(1),
            old(self)@.nodes[node as int].value[0] is Some,
            (params.swa_evicted_seqlen - done) % (old(self)@.shape.page as int) == 0,
        ensures
            final(self).wf(),
            ({
                let (t, acts) = old(self)@.window_recovered(node, done as int, params@);
                &&& final(self)@ == t
                &&& unified::acts(final(pending)@) == unified::acts(old(pending)@) + acts
            }),
            stays(old(self)@, final(self)@, node, 1, 0),
    {
        let ghost st = self@;
        let ghost before = unified::acts(pending@);
        let k: i128 = params.swa_evicted_seqlen as i128 - done as i128;
        proof {
            self.lemma_wf();
        }
        let n = self.topo().units(node);
        proof {
            facts::lemma_units(st, node);
        }
        if k >= n as i128 {
            assert(before =~= before + Seq::<Act>::empty());
            return ;
        }
        if k > 0 {
            let unit = self.topo().unit_size();
            proof {
                lemma_cut_at(st, node, k as int);
                facts::lemma_units(st, node);
                lemma_cut_stays(st, node, k * unit);
            }
            let len = self.topo().key(node).len();
            assert(k as usize * unit < len);
            let (f, a) = self.cut(node, k as usize * unit);
            add_opt_act(pending, a);
        } else {
            assert(before =~= before + Seq::<Act>::empty());
        }
        let ghost mid = unified::acts(pending@);
        let source = self.full_of(node);
        add_act(pending, UCacheAction::SWARebuild { node, source_value: source });
        proof {
            if k > 0 {
                let rep = matching::opt_list(st.cut_report(node));
                let last = Act::Rebuild { node, source: source@ };
                assert((before + rep).push(last) =~= before + rep.push(last));
            } else {
                assert(before.push(Act::Rebuild { node, source: source@ }) =~= before + seq![
                    Act::Rebuild { node, source: source@ },
                ]);
            }
        }
    }

    /// Takes the run `fresh` over on `node`.
    fn replace_window(&mut self, node: NodeId, fresh: Vec<i64>, pending: &mut Vec<UCacheAction>)
        requires
            old(self).wf(),
            old(self)@.inner(node),
            old(self)@.nodes[node as int].value[0] is Some,
            fresh@.len() == old(self)@.units(node),
        ensures
            final(self).wf(),
            ({
                let (t, acts) = old(self)@.window_replaced(node, fresh@);
                &&& final(self)@ == t
                &&& unified::acts(final(pending)@) == unified::acts(old(pending)@) + acts
            }),
            stays(old(self)@, final(self)@, node, 0, 0),
    {
        let ghost st = self@;
        let ghost before = unified::acts(pending@);
        let ghost fs = fresh@;
        proof {
            self.lemma_wf();
            assert(st.node_ok(node as int));
            assert(st.shape.hangs(node as int));
        }
        let own = self.full_of(node);
        let ghost os = own@;
        let locked = self.node_by_id(node).lock_ref[0] > 0;
        if locked {
            add_act(pending, UCacheAction::RecoverSWAWithLockedFull { node, kept_full: own, incoming_full: fresh });
            assert(unified::acts(pending@) =~= before + st.window_replaced(node, fs).1);
        } else {
            let source = copy_range(fresh.as_slice(), 0, fresh.len());
            assert(source@ =~= fs);
            self.set_full(node, Some(fresh));
            let mut chunks: Vec<Vec<i64>> = Vec::new();
            chunks.push(own);
            assert(unified::runs(chunks@) =~= seq![os]);
            add_act(pending, UCacheAction::FreeDeviceKVFullOnly { chunks });
            add_act(pending, UCacheAction::SWARebuild { node, source_value: source });
            proof {
                facts::lemma_counts(st, self@, node, 0);
                facts::lemma_counts(st, self@, node, 2);
                assert(unified::acts(pending@) =~= before + st.window_replaced(node, fs).1);
            }
        }
    }

    /// The incoming run `slice` over `node`, which the tree holds.
    #[verifier::rlimit(30)]
    fn swa_insert_overlap(
        &mut self,
        node: NodeId,
        done: i64,
        slice: &Vec<i64>,
        params: &UInsertParams,
        pending: &mut Vec<UCacheAction>,
    ) -> (kept: usize)
        requires
            old(self).wf(),
            old(self)@.inner(node),
            old(self)@.roomy(1),
            old(self)@.nodes[node as int].value[0] is Some,
            slice@.len() == old(self)@.units(node),
            done >= 0,
            done + slice@.len() <= i64::MAX,
            old(self)@.cfg.swa() ==> (params.swa_evicted_seqlen - done) % (old(self)@.shape.page as int) == 0,
        ensures
            final(self).wf(),
            ({
                let (t, acts, n) = old(self)@.overlapped(node, done as int, slice@, params@);
                &&& final(self)@ == t
                &&& unified::acts(final(pending)@) == unified::acts(old(pending)@) + acts
                &&& kept == n
            }),
            kept <= slice@.len(),
            stays(old(self)@, final(self)@, node, 1, 0),
    {
        let ghost st = self@;
        let ghost before = unified::acts(pending@);
        let cfg = self.config();
        let n = slice.len();
        proof {
            self.lemma_wf();
            facts::lemma_units(st, node);
            assert(before =~= before + Seq::<Act>::empty());
        }
        let held = self.copy_device(node, CT_SWA).is_some();
        if !cfg.has_swa() || params.prev_prefix_len >= done + n as i64 || held {
            return n;
        }
        let k: i128 = params.swa_evicted_seqlen as i128 - done as i128;
        if k >= n as i128 {
            return n;
        }
        if k <= 0 {
            let fresh = copy_range(slice.as_slice(), 0, n);
            assert(fresh@ =~= slice@);
            self.replace_window(node, fresh, pending);
            return 0;
        }
        let unit = self.topo().unit_size();
        proof {
            lemma_cut_at(st, node, k as int);
            lemma_cut_stays(st, node, k * unit);
        }
        let len = self.topo().key(node).len();
        assert(k as usize * unit < len);
        let (f, a) = self.cut(node, k as usize * unit);
        add_opt_act(pending, a);
        let fresh = copy_range(slice.as_slice(), k as usize, n);
        assert(fresh@ =~= slice@.skip(k as int));
        let ghost mid = unified::acts(pending@);
        self.replace_window(node, fresh, pending);
        proof {
            let rep = matching::opt_list(st.cut_report(node));
            let acts = st.cut(node, k * unit).window_replaced(node, slice@.skip(k as int)).1;
            assert((before + rep) + acts =~= before + (rep + acts));
        }
        k as usize
    }

    /// What is done to `node`, which the key matches whole.
    fn pass_node(
        &mut self,
        node: NodeId,
        done: i64,
        slice: Vec<i64>,
        params: &UInsertParams,
        pending: &mut Vec<UCacheAction>,
    )
        requires
            old(self).wf(),
            old(self)@.inner(node),
            old(self)@.roomy(1),
            old(self)@.nodes[old(self)@.shape.nodes[node as int].parent as int].value[0] is Some,
            slice@.len() == old(self)@.units(node),
            old(self)@.size(0) + slice@.len() <= i64::MAX,
            done >= 0,
            done + slice@.len() <= i64::MAX,
            old(self)@.cfg.swa() ==> (params.swa_evicted_seqlen - done) % (old(self)@.shape.page as int) == 0,
        ensures
            final(self).wf(),
            ({
                let (t, acts) = old(self)@.node_passed(node, done as int, slice@, params@);
                &&& final(self)@ == t
                &&& unified::acts(final(pending)@) == unified::acts(old(pending)@) + acts
            }),
            stays(old(self)@, final(self)@, node, 1, slice@.len() as int),
    {
        let ghost st = self@;
        let ghost before = unified::acts(pending@);
        let ghost sl = slice@;
        let cfg = self.config();
        if self.is_evicted(node) {
            self.unevict_node_on_insert(node, slice);
            if cfg.has_swa() {
                self.swa_recover_after_unevict(node, done, params, pending);
            } else {
                assert(before =~= before + Seq::<Act>::empty());
            }
        } else {
            let kept = self.swa_insert_overlap(node, done, &slice, params, pending);
            let from: i128 = if params.prev_prefix_len > done {
                params.prev_prefix_len as i128 - done as i128
            } else {
                0
            };
            if from < kept as i128 {
                let chunk = copy_range(slice.as_slice(), from as usize, kept);
                let ghost cs = chunk@;
                let mut chunks: Vec<Vec<i64>> = Vec::new();
                chunks.push(chunk);
                assert(unified::runs(chunks@) =~= seq![cs]);
                add_act(pending, UCacheAction::FreeDeviceKV { chunks });
                proof {
                    let acts = st.overlapped(node, done as int, sl, params@).1;
                    let last = Act::FreeKV { chunks: seq![cs] };
                    assert((before + acts).push(last) =~= before + acts.push(last));
                }
            }
        }
    }
}

/// What is left of an aligned length.
pub proof fn lemma_rest(st: UState, len: int, m: int)
    requires
        st.built(),
        0 <= m <= len,
        st.shape.aligned(len),
        st.shape.aligned(m),
    ensures
        st.shape.aligned(len - m),
        (len - m) / st.shape.unit as int == len / st.shape.unit as int - m / st.shape.unit as int,
        (m / st.shape.unit as int) * st.shape.unit == m,
        (m / st.shape.unit as int) % (st.shape.page as int) == 0,
        0 <= m / st.shape.unit as int <= len / st.shape.unit as int,
        m > 0 ==> m / st.shape.unit as int >= 1,
{
    let unit = st.shape.unit as int;
    let page = st.shape.page as int;
    topo::lemma_aligned(st.shape, len, m);
    facts::lemma_pages(st.shape, m);
    facts::lemma_pages(st.shape, len);
    let a = len / unit;
    let b = m / unit;
    assert(len - m == (a - b) * unit) by (nonlinear_arith)
        requires
            a * unit == len,
            b * unit == m,
    ;
    vstd::arithmetic::div_mod::lemma_div_multiples_vanish(a - b, unit);
    assert((a - b) * unit == unit * (a - b)) by (nonlinear_arith);
    vstd::arithmetic::div_mod::lemma_mod_multiples_basic(b / page, page);
    assert(b <= a) by (nonlinear_arith)
        requires
            a * unit == len,
            b * unit == m,
            m <= len,
            unit >= 1,
    ;
    assert(b >= 0) by (nonlinear_arith)
        requires
            b * unit == m,
            m >= 0,
            unit >= 1,
    ;
    if m > 0 {
        assert(b != 0) by (nonlinear_arith)
            requires
                b * unit == m,
                m > 0,
        ;
    }
}

impl UnifiedRadixTree {
    /// Visits the child `c` and cuts it after `m` flattened elements, if it
    /// is longer.
    fn enter_child(&mut self, c: NodeId, m: usize, priority: i64) -> (r: (NodeId, Option<UCacheAction>))
        requires
            old(self).wf(),
            old(self)@.inner(c),
            0 < m <= old(self)@.shape.nodes[c as int].key.len(),
            old(self)@.shape.aligned(m as int),
            old(self)@.roomy(1),
        ensures
            final(self).wf(),
            (final(self)@, r.0, matching::opt_list(unified::opt_act(r.1))) == old(self)@.entered(
                c,
                m as int,
                priority,
            ),
            ({
                let a = old(self)@;
                let b = final(self)@;
                let p = a.shape.nodes[c as int].parent;
                &&& b.cfg == a.cfg && b.hicache == a.hicache && b.ongoing == a.ongoing
                &&& b.shape.page == a.shape.page && b.shape.unit == a.shape.unit
                &&& b.nodes.len() <= a.nodes.len() + 1
                &&& b.inner(r.0)
                &&& b.units(r.0) == m as int / a.shape.unit as int
                &&& b.shape.nodes[r.0 as int].ns == a.shape.nodes[c as int].ns
                &&& b.shape.nodes[r.0 as int].parent == p
                &&& b.nodes[p as int].value[0] == a.nodes[p as int].value[0]
                &&& b.size(0) == a.size(0)
                &&& b.size(2) == a.size(2)
            }),
    {
        let ghost st = self@;
        let ghost p = st.shape.nodes[c as int].parent;
        proof {
            self.lemma_wf();
            topo::lemma_path_grows(st.shape, c);
            assert(st.node_ok(c as int));
            facts::lemma_quiet(st, c, UNodeState { access: st.clock, ..st.nodes[c as int] });
            lemma_sizes(st.patched(c, UNodeState { access: st.clock, ..st.nodes[c as int] }), st.touched(c));
        }
        self.touch_node(c);
        let ghost a = self@;
        proof {
            self.lemma_wf();
        }
        let len = self.topo().key(c).len();
        let mut node = c;
        let mut act: Option<UCacheAction> = None;
        if m < len {
            proof {
                assert(a.cuttable(c, m as int));
                facts::lemma_cut(a, c, m as int);
                facts::lemma_cut_counts(a, c, m as int, 0);
                facts::lemma_cut_counts(a, c, m as int, 2);
            }
            let (f, x) = self.cut(c, m);
            node = f;
            act = x;
        }
        let ghost b = self@;
        let old_priority = self.node_by_id(node).priority;
        let next: i64 = if old_priority < priority {
            priority
        } else {
            old_priority
        };
        proof {
            self.lemma_wf();
            assert(b.node_ok(node as int));
            facts::lemma_quiet(b, node, UNodeState { priority: next, ..b.nodes[node as int] });
        }
        self.set_priority(node, next);
        (node, act)
    }

    /// One node further down, or over to the leaf.
    #[verifier::rlimit(40)]
    fn walk_step(&mut self, s: &mut InsertState)
        requires
            old(self).wf(),
            old(s)@.phase is Walk,
            old(self)@.inserting(old(s)@),
        ensures
            final(self).wf(),
            ({
                let (t, u, acts) = old(self)@.walk_stepped(old(s)@);
                &&& final(self)@ == t
                &&& final(s)@ == u
            }),
            final(self)@.inserting(final(s)@),
            final(self)@.ongoing == old(self)@.ongoing,
    {
        let ghost st = self@;
        let ghost s0 = s@;
        proof {
            self.lemma_wf();
            topo::lemma_chunk(st.shape);
        }
        if s.key.len() == 0 {
            s.phase = InsertPhase::Commit;
            assert(s@ == (Inserting { phase: InsertPhase::Commit, ..s0 }));
            return ;
        }
        let chunk = self.topo().chunk();
        proof {
            topo::lemma_aligned(st.shape, s.key@.len() as int, 0);
            assert(s.key@.subrange(0, chunk as int) =~= s.key@.take(chunk as int));
        }
        let head = vstd::slice::slice_subrange(s.key.as_slice(), 0, chunk);
        let found = self.topo().find_child(s.node, s.ns, head);
        if found.is_none() {
            s.phase = InsertPhase::Commit;
            assert(s@ == (Inserting { phase: InsertPhase::Commit, ..s0 }));
            return ;
        }
        let c = found.unwrap();
        let m = self.topo().shared(s.key.as_slice(), c);
        proof {
            topo::lemma_shared(st.shape, s.key@, c);
            lemma_rest(st, s.key@.len() as int, m as int);
            assert(st.next_child(s0) == Some(c));
            assert(st.inner(c));
        }
        let unit = self.topo().unit_size();
        let n = m / unit;
        let (node, cuts) = self.enter_child(c, m, s.params.priority);
        let ghost a = self@;
        add_opt_act(&mut s.pending, cuts);
        let ghost p1 = unified::acts(s.pending@);
        let slice = copy_range(s.value.as_slice(), 0, n);
        proof {
            assert(slice@ =~= s0.value.take(n as int));
            let page = st.shape.page as int;
            if st.cfg.swa() {
                vstd::arithmetic::div_mod::lemma_mod_equivalence(
                    s0.asked.swa_evicted_seqlen as int,
                    s0.done,
                    page,
                );
            }
        }
        self.pass_node(node, s.total_prefix_length, slice, &s.params, &mut s.pending);
        let ghost b = self@;
        let ghost p2 = unified::acts(s.pending@);
        proof {
            self.lemma_wf();
            assert(b.node_ok(node as int));
        }
        let back = self.inc_hit_count_and_check(node, s.params.chunked);
        let ghost d = self@;
        proof {
            let hits = unified::capped(b.nodes[node as int].hits + 1);
            facts::lemma_quiet(b, node, UNodeState { hits, ..b.nodes[node as int] });
        }
        if back {
            let act = self.build_backup_kv(node);
            add_act(&mut s.pending, act);
        }
        s.node = node;
        s.total_prefix_length = s.total_prefix_length + n as i64;
        let key = copy_range(s.key.as_slice(), m, s.key.len());
        let value = copy_range(s.value.as_slice(), n, s.value.len());
        s.key = key;
        s.value = value;
        proof {
            let (t, u, acts) = st.walk_stepped(s0);
            assert(key@ =~= s0.key.skip(m as int));
            assert(value@ =~= s0.value.skip(n as int));
            assert(d == t);
            assert(s@.pending =~= u.pending);
            assert(s@ =~= u);
            lemma_mod_sum(s0.done, n as int, st.shape.page as int);
            assert(2 * (u.key.len() as int / st.shape.unit as int) + 2 <= 2 * (s0.key.len() as int
                / st.shape.unit as int));
        }
    }
}

/// Whole pages add up to whole pages.
pub proof fn lemma_mod_sum(a: int, b: int, page: int)
    requires
        page >= 1,
        a % page == 0,
        b % page == 0,
    ensures
        (a + b) % page == 0,
{
    vstd::arithmetic::div_mod::lemma_add_mod_noop(a, b, page);
    vstd::arithmetic::div_mod::lemma_small_mod(0, page as nat);
}

impl UnifiedRadixTree {
    /// Adds a leaf with device KV below `p`.
    fn add_new_node(&mut self, p: NodeId, ns: u32, key: Vec<i64>, value: Vec<i64>, priority: i64) -> (f: NodeId)
        requires
            old(self).wf(),
            old(self)@.live(p),
            old(self)@.roomy(1),
            key@.len() > 0,
            old(self)@.shape.aligned(key@.len() as int),
            p != ROOT ==> old(self)@.shape.nodes[p as int].ns == ns,
            old(self)@.shape.child_of(p, ns, key@.take(old(self)@.shape.chunk() as int)) is None,
            old(self)@.nodes[p as int].value[0] is Some,
            value@.len() == key@.len() as int / old(self)@.shape.unit as int,
            old(self)@.size(0) + value@.len() <= i64::MAX,
        ensures
            final(self).wf(),
            final(self)@ == old(self)@.leafed(p, ns, key@, value@, priority),
            f == old(self)@.nodes.len(),
            final(self)@.inner(f),
            final(self)@.units(f) == value@.len(),
            final(self)@.nodes[f as int].value[0] is Some,
            final(self)@.nodes[f as int].value[2] is None,
            final(self)@.nodes.len() == old(self)@.nodes.len() + 1,
            final(self)@.shape.page == old(self)@.shape.page,
            final(self)@.shape.unit == old(self)@.shape.unit,
            final(self)@.size(2) == old(self)@.size(2),
    {
        let ghost st = self@;
        let ghost vs = value@;
        let c0 = self.clock();
        proof {
            self.lemma_wf();
        }
        let c1: i128 = if c0 < model::CLOCK_CAP {
            c0 + model::TICK
        } else {
            c0
        };
        let mut node = UNode::blank(c0, c1, priority);
        node.value[0] = Some(value);
        let ghost n = node@;
        proof {
            assert(n.value =~= st.newborn(priority).with_value(0, Some(vs)).value);
            assert(n =~= st.newborn(priority).with_value(0, Some(vs)));
            assert(n.value[0] == Some(vs));
            assert(n.value[1] is None && n.value[2] is None && n.value[3] is None);
            facts::lemma_grown(st, p, ns, key@, n);
        }
        let f = self.grow(p, ns, key, node);
        proof {
            lemma_sizes(self@, self@.logged(1, f, 1));
        }
        self.log(1, f, 1);
        f
    }

    /// Asks for the window slots of a new leaf.
    #[verifier::rlimit(30)]
    fn swa_commit_insert(
        &mut self,
        leaf: NodeId,
        done: i64,
        params: &UInsertParams,
        pending: &mut Vec<UCacheAction>,
    )
        requires
            old(self).wf(),
            old(self)@.cfg.swa(),
            old(self)@.inner(leaf),
            old(self)@.roomy(2),
            old(self)@.nodes[leaf as int].value[0] is Some,
            (params.swa_evicted_seqlen - done) % (old(self)@.shape.page as int) == 0,
        ensures
            final(self).wf(),
            ({
                let (t, acts) = old(self)@.leaf_windowed(leaf, done as int, params@);
                &&& final(self)@ == t
                &&& unified::acts(final(pending)@) == unified::acts(old(pending)@) + acts
            }),
            stays(old(self)@, final(self)@, leaf, 2, 0),
            final(self)@.nodes[leaf as int].value[2] == old(self)@.nodes[leaf as int].value[2],
    {
        let ghost st = self@;
        let ghost before = unified::acts(pending@);
        let cfg = self.config();
        let k: i128 = params.swa_evicted_seqlen as i128 - done as i128;
        proof {
            self.lemma_wf();
            facts::lemma_units(st, leaf);
            topo::lemma_path_grows(st.shape, leaf);
        }
        let n = self.topo().units(leaf);
        if k >= n as i128 {
            assert(before =~= before + Seq::<Act>::empty());
            return ;
        }
        let unit = self.topo().unit_size();
        if k > 0 {
            let len = self.topo().key(leaf).len();
            proof {
                lemma_cut_at(st, leaf, k as int);
                lemma_cut_stays(st, leaf, k * unit);
                facts::lemma_cut_listed(st, leaf, k * unit);
            }
            let (f, a) = self.cut(leaf, k as usize * unit);
        }
        let ghost a = self@;
        proof {
            self.lemma_wf();
            facts::lemma_units(a, leaf);
            topo::lemma_path_grows(a.shape, leaf);
        }
        let tail = cfg.swa_tail_size();
        let n = self.topo().units(leaf);
        let extra: i128 = n as i128 - tail as i128;
        if extra > 0 {
            let len = self.topo().key(leaf).len();
            proof {
                assert(a.shape.hangs(leaf as int));
                facts::lemma_pages(a.shape, len as int);
                vstd::arithmetic::div_mod::lemma_mod_equivalence(n as int, tail as int, a.shape.page as int);
                lemma_cut_at(a, leaf, extra as int);
                lemma_cut_stays(a, leaf, extra * unit);
            }
            let (f, x) = self.cut(leaf, extra as usize * unit);
            let ghost b = self@;
            let source = self.full_of(f);
            add_act(pending, UCacheAction::SWARebuild { node: f, source_value: source });
        }
        let source = self.full_of(leaf);
        add_act(pending, UCacheAction::SWARebuild { node: leaf, source_value: source });
        assert(unified::acts(pending@) =~= before + st.leaf_windowed(leaf, done as int, params@).1);
    }

    /// Attaches a state to `node`, unless it has one; whether it had one.
    fn mamba_commit_insert(
        &mut self,
        node: NodeId,
        fresh: bool,
        params: &UInsertParams,
        pending: &mut Vec<UCacheAction>,
    ) -> (had: bool)
        requires
            old(self).wf(),
            old(self)@.cfg.mamba(),
            old(self)@.inner(node),
            old(self)@.nodes[node as int].value[0] is Some,
            fresh ==> old(self)@.nodes[node as int].value[2] is None,
            params.mamba_value is Some,
            old(self)@.size(2) + params.mamba_value->0@.len() <= i64::MAX,
        ensures
            final(self).wf(),
            ({
                let (t, acts, h) = old(self)@.state_attached(node, fresh, run_or_none(params@.mamba_value));
                &&& final(self)@ == t
                &&& unified::acts(final(pending)@) == unified::acts(old(pending)@) + acts
                &&& had == h
            }),
            final(self)@.inner(node),
            final(self)@.ongoing == old(self)@.ongoing,
    {
        let ghost st = self@;
        let ghost before = unified::acts(pending@);
        let cfg = self.config();
        let held = self.copy_device(node, CT_MAMBA).is_some();
        proof {
            self.lemma_wf();
            assert(before =~= before + Seq::<Act>::empty());
        }
        if held {
            let mut xs: Vec<NodeId> = Vec::new();
            xs.push(node);
            proof {
                assert(xs@ =~= seq![node]);
                assert(st.lists_ok(2, node));
            }
            self.lift(CT_MAMBA, &xs);
            self.touch_node(node);
            return true;
        }
        let v = match copy_opt(&params.mamba_value) {
            Some(v) => v,
            None => Vec::new(),
        };
        self.store(node, CT_MAMBA, v);
        if !fresh {
            self.touch_node(node);
        }
        if cfg.mamba_max_states_per_path >= 0 {
            add_act(pending, UCacheAction::MambaEvictExcess { tail_node: node });
            assert(unified::acts(pending@) =~= before + seq![Act::EvictExcess { tail: node }]);
        }
        false
    }

    /// Adds the leaf and what components attach to the end of the key.
    #[verifier::rlimit(40)]
    fn commit_step(&mut self, s: &mut InsertState)
        requires
            old(self).wf(),
            old(s)@.phase is Commit,
            old(self)@.inserting(old(s)@),
        ensures
            final(self).wf(),
            ({
                let (t, u, acts) = old(self)@.commit_stepped(old(s)@);
                &&& final(self)@ == t
                &&& final(s)@ == u
            }),
            final(self)@.inserting(final(s)@),
            final(self)@.ongoing == old(self)@.ongoing,
    {
        let ghost st = self@;
        let ghost s0 = s@;
        let cfg = self.config();
        proof {
            self.lemma_wf();
            if st.cfg.swa() {
                vstd::arithmetic::div_mod::lemma_mod_equivalence(
                    s0.asked.swa_evicted_seqlen as int,
                    s0.done,
                    st.shape.page as int,
                );
            }
        }
        let fresh = s.key.len() > 0;
        let mut target = s.node;
        if fresh {
            let key = copy_range(s.key.as_slice(), 0, s.key.len());
            let value = copy_range(s.value.as_slice(), 0, s.value.len());
            proof {
                assert(key@ =~= s0.key);
                assert(value@ =~= s0.value);
                lemma_rest(st, s0.key.len() as int, s0.key.len() as int);
            }
            target = self.add_new_node(s.node, s.ns, key, value, s.params.priority);
            s.is_new_leaf = true;
        }
        let ghost a = self@;
        let ghost p0 = unified::acts(s.pending@);
        assert(p0 =~= p0 + Seq::<Act>::empty());
        if cfg.has_swa() && fresh {
            self.swa_commit_insert(target, s.total_prefix_length, &s.params, &mut s.pending);
        }
        let ghost b = self@;
        let ghost windows = if st.cfg.swa() && fresh {
            a.leaf_windowed(target, s0.done, s0.asked).1
        } else {
            Seq::empty()
        };
        assert(unified::acts(s.pending@) == p0 + windows);
        let mut had = false;
        if cfg.has_mamba() {
            had = self.mamba_commit_insert(target, fresh, &s.params, &mut s.pending);
        }
        let mut created: Vec<u32> = Vec::new();
        if fresh {
            created.push(target);
        }
        let result = UIntsertResult {
            prefix_len: s.total_prefix_length,
            total_len: 0,
            last_device_node: target,
            mamba_exist: had,
            inserted_host_node: None,
            host_insert_dropped: false,
            created_nodes: created,
            cache_actions: Vec::new(),
        };
        s.target_node = target;
        s.result = Some(result);
        s.phase = InsertPhase::Tail;
        proof {
            let (t, u, acts) = st.commit_stepped(s0);
            assert(self@ == t);
            assert(s@.pending =~= u.pending);
            assert(result@ =~= u.result->0);
            assert(s@ =~= u);
        }
    }

    /// Refreshes the window and asks for a backup.
    fn tail_step(&mut self, s: &mut InsertState)
        requires
            old(self).wf(),
            old(self)@.inner(old(s)@.target),
        ensures
            final(self).wf(),
            ({
                let (t, acts) = old(self)@.tail_stepped(old(s)@);
                &&& final(self)@ == t
                &&& final(s)@ == (Inserting { pending: old(s)@.pending + acts, ..old(s)@ })
            }),
            final(self)@.ongoing == old(self)@.ongoing,
    {
        let ghost s0 = s@;
        let cfg = self.config();
        let target = s.target_node;
        if cfg.has_swa() {
            self.refresh_window(target);
        }
        let back = if s.is_new_leaf {
            self.inc_hit_count_and_check(target, s.params.chunked)
        } else {
            self.should_backup_existing(target)
        };
        if back {
            let act = self.build_backup_kv(target);
            add_act(&mut s.pending, act);
            assert(s@.pending =~= s0.pending + seq![act@]);
        } else {
            assert(s0.pending =~= s0.pending + Seq::<Act>::empty());
        }
    }
}

/// A step brings the end closer, and adds its actions to those that wait.
pub proof fn lemma_stepped(st: UState, s: Inserting)
    requires
        !(s.phase is Tail),
    ensures
        ({
            let (a, t, acts) = st.stepped(s);
            &&& t.left() < s.left()
            &&& t.pending.len() >= s.pending.len()
            &&& t.pending.skip(s.pending.len() as int) == acts
        }),
{
    reveal(UState::stepped);
    let (a, t, acts) = st.stepped(s);
    assert(t.pending.skip(s.pending.len() as int) =~= acts);
}

/// Whether an action from place `k` on must be performed at once.
fn any_urgent(v: &Vec<UCacheAction>, k: usize) -> (r: bool)
    requires
        k <= v@.len(),
    ensures
        r == urgent(unified::acts(v@).skip(k as int)),
{
    let ghost acts = unified::acts(v@).skip(k as int);
    let mut j: usize = k;
    while j < v.len()
        invariant
            k <= j <= v@.len(),
            acts == unified::acts(v@).skip(k as int),
            forall|i: int| 0 <= i < j - k ==> (#[trigger] acts[i]).deferrable(),
        decreases v@.len() - j,
    {
        assert(acts[j - k] == v@[j as int]@);
        if !v[j].is_deferrable() {
            return true;
        }
        j += 1;
    }
    false
}

impl UnifiedRadixTree {
    /// One step of an insert that is not at its end.
    fn insert_step(&mut self, s: &mut InsertState)
        requires
            old(self).wf(),
            !(old(s)@.phase is Tail),
            old(self)@.inserting(old(s)@),
        ensures
            final(self).wf(),
            ({
                let (t, u, acts) = old(self)@.stepped(old(s)@);
                &&& final(self)@ == t
                &&& final(s)@ == u
            }),
            final(self)@.inserting(final(s)@),
            final(self)@.ongoing == old(self)@.ongoing,
    {
        reveal(UState::stepped);
        if matches!(s.phase, InsertPhase::Walk) {
            self.walk_step(s);
        } else {
            self.commit_step(s);
        }
    }

    /// Takes an insert on until it ends or something cannot wait.
    fn advance_insert(&mut self, start: InsertState) -> (r: UStepResult)
        requires
            old(self).wf(),
            old(self)@.ongoing is None,
            old(self)@.inserting(start@),
        ensures
            final(self).wf(),
            (final(self)@, r@.0, r@.1) == old(self)@.advanced(start@),
            final(self)@.ongoing matches Some(s) ==> final(self)@.inserting(s),
    {
        let ghost goal = self@.advanced(start@);
        let mut s = start;
        loop
            invariant
                self.wf(),
                self@.ongoing is None,
                self@.inserting(s@),
                goal == old(self)@.advanced(start@),
                self@.advanced(s@) == goal,
            decreases s@.left(),
        {
            let ghost st = self@;
            let ghost s0 = s@;
            let flushed = s.pending.len();
            if matches!(s.phase, InsertPhase::Tail) {
                self.tail_step(&mut s);
                return UStepResult { actions: s.pending, result: s.result };
            }
            self.insert_step(&mut s);
            proof {
                lemma_stepped(st, s0);
                assert(unified::acts(s.pending@).len() == s.pending@.len());
                assert(s0.pending.len() == flushed);
            }
            if any_urgent(&s.pending, flushed) {
                let mut rest = s;
                let mut actions: Vec<UCacheAction> = Vec::new();
                let ghost u = rest@;
                std::mem::swap(&mut actions, &mut rest.pending);
                proof {
                    assert(unified::acts(rest.pending@) =~= Seq::<Act>::empty());
                    assert(rest@ =~= (Inserting { pending: Seq::empty(), ..u }));
                }
                let ghost a = self@;
                self.set_ongoing(Some(rest));
                proof {
                    lemma_sizes(a, self@);
                }
                return UStepResult { actions, result: None };
            }
        }
    }

    /// Inserts a key with its device run, as far as that goes without the
    /// caller. Without a value the tokens of the key stand for it.
    pub fn begin_insert(&mut self, ns: u32, raw_tokens: &[i64], value: Option<Vec<i64>>, params: &UInsertParams) -> (r:
        UStepResult)
        requires
            old(self).wf(),
            old(self)@.ongoing is None,
            raw_tokens@.len() <= i64::MAX,
            ({
                let st = old(self)@;
                let u = st.flat(raw_tokens@).len() as int / st.shape.unit as int;
                u > 0 ==> {
                    &&& value matches Some(v) ==> v@.len() >= u
                    &&& st.cfg.swa() ==> params.swa_evicted_seqlen as int % (st.cfg.page_size as int) == 0
                    &&& st.cfg.mamba() ==> params.mamba_value is Some
                    &&& st.insertable(u, params@)
                }
            }),
        ensures
            final(self).wf(),
            (final(self)@, r@.0, r@.1) == old(self)@.after_begin(ns, raw_tokens@, seqs::opt_run(value), params@),
            final(self)@.ongoing matches Some(s) ==> final(self)@.inserting(s),
    {
        let ghost st = self@;
        let ghost given = seqs::opt_run(value);
        let cfg = self.config();
        proof {
            self.lemma_wf();
            facts::lemma_quiet(st, ROOT, UNodeState { access: st.clock, ..st.nodes[0] });
            lemma_sizes(st.patched(ROOT, UNodeState { access: st.clock, ..st.nodes[0] }), st.touched(ROOT));
        }
        self.touch_node(ROOT);
        let ghost a = self@;
        let before = self.node_by_id(ROOT).priority;
        let next: i64 = if before < params.priority {
            params.priority
        } else {
            before
        };
        proof {
            self.lemma_wf();
            facts::lemma_quiet(a, ROOT, UNodeState { priority: next, ..a.nodes[0] });
        }
        self.set_priority(ROOT, next);
        let ghost t = self@;
        proof {
            self.lemma_wf();
            matching::lemma_flat(st, raw_tokens@);
            assert(t == st.welcomed(params@.priority));
        }
        let flat = RadixKey::new(raw_tokens).with_bigram(cfg.is_eagle).flatten_page_aligned(cfg.page_size as usize);
        if flat.len() == 0 {
            let mut result = UIntsertResult::default();
            result.mamba_exist = true;
            let r = UStepResult { actions: Vec::new(), result: Some(result) };
            proof {
                assert(result@ =~= (Inserted { mamba_exist: true, ..Inserted::none() }));
                assert(r@.0 =~= Seq::<Act>::empty());
            }
            return r;
        }
        let unit = self.topo().unit_size();
        let u = flat.len() / unit;
        proof {
            lemma_rest(t, flat@.len() as int, flat@.len() as int);
        }
        let key = copy_range(flat.as_ref(), 0, flat.len());
        let value = match value {
            Some(v) => copy_range(v.as_slice(), 0, u),
            None => copy_range(raw_tokens, 0, u),
        };
        let s = InsertState {
            phase: InsertPhase::Walk,
            node: ROOT,
            ns,
            key,
            value,
            params: params.copy(),
            total_prefix_length: 0,
            is_new_leaf: false,
            target_node: 0,
            result: None,
            pending: Vec::new(),
        };
        proof {
            let goal = t.insert_of(ns, raw_tokens@, given, params@);
            assert(s@.key =~= st.flat(raw_tokens@));
            assert(s@.pending =~= Seq::<Act>::empty());
            assert(s@.value =~= goal.value);
            assert(s@ =~= goal);
        }
        self.advance_insert(s)
    }

    /// Takes up the insert in flight.
    pub fn resume_insert(&mut self) -> (r: UStepResult)
        requires
            old(self).wf(),
            old(self)@.ongoing matches Some(s) && old(self)@.inserting(s),
        ensures
            final(self).wf(),
            (final(self)@, r@.0, r@.1) == (UState { ongoing: None, ..old(self)@ }).advanced(old(self)@.ongoing->0),
            final(self)@.ongoing matches Some(s) ==> final(self)@.inserting(s),
    {
        let ghost st = self@;
        let taken = self.take_ongoing();
        let s = taken.unwrap();
        proof {
            let t = self@;
            lemma_sizes(st, t);
        }
        self.advance_insert(s)
    }

    /// Gives up the insert in flight, if there is one; the actions that
    /// still waited.
    pub fn end_insert(&mut self) -> (r: Vec<UCacheAction>)
        requires
            old(self).wf(),
        ensures
            final(self).wf(),
            final(self)@ == (UState { ongoing: None, ..old(self)@ }),
            unified::acts(r@) == (match old(self)@.ongoing {
                Some(s) => s.pending,
                None => Seq::empty(),
            }),
    {
        match self.take_ongoing() {
            Some(s) => s.pending,
            None => {
                let v: Vec<UCacheAction> = Vec::new();
                assert(unified::acts(v@) =~= Seq::<Act>::empty());
                v
            },
        }
    }
}

} // verus!
