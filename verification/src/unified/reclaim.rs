//! Host eviction in the unified tree, and the limit on states per path.
//!
//! Host eviction is driven for one component at a time. Where the tree
//! writes back, host copies of what the device still holds go first.

use crate::hi_model::run_or_none;
use crate::lru;
use crate::topo;
use crate::topo::NodeId;
use crate::unified::facts;
use crate::unified::model;
use crate::unified::model::UState;
use crate::unified::tree::UnifiedRadixTree;
use crate::unified::{Freed, UEvictOutcome, CT_FULL, CT_MAMBA, CT_SWA};
use vstd::prelude::*;

verus! {

/// Where the digest of reclaimed duplicates wraps around.
pub const DIGEST_RANGE: u128 = 4_398_046_511_104;

/// The digest once `node` has been reclaimed.
pub open spec fn digest_after(digest: u64, node: NodeId) -> u64 {
    ((digest * 1_000_003 + node + 1) % (DIGEST_RANGE as int)) as u64
}

impl UState {
    // ---- FULL ----

    /// Whether the host leaf `x` leaves first.
    pub open spec fn host_first(self, x: NodeId) -> bool {
        &&& self.host_leaf(x)
        &&& forall|y: NodeId| #[trigger] self.host_leaf(y) && y != x ==> self.rank(x).before(self.rank(y))
    }

    /// The host leaf that leaves first.
    pub open spec fn host_victim(self) -> Option<NodeId> {
        if exists|x: NodeId| self.host_first(x) {
            Some(choose|x: NodeId| self.host_first(x))
        } else {
            None
        }
    }

    /// Host leaves deleted until `n` tokens are counted or none is left.
    pub open spec fn host_driven(self, n: i64, out: Freed) -> (UState, Freed)
        decreases facts::population(self.shape),
        when self.nodes.len() == self.shape.nodes.len()
    {
        match self.host_victim() {
            Some(x) => if out.counted(CT_FULL) < n {
                proof {
                    facts::lemma_population(self.shape, x);
                }
                let (a, o) = self.deleted(x, 2, out, true);
                a.host_driven(n, o)
            } else {
                (self, out)
            },
            None => (self, out),
        }
    }

    /// Whether the host copy of what `x` holds on the device can go.
    pub open spec fn reclaimable(self, x: NodeId) -> bool {
        self.settled_duplicate(x) && self.nodes[x as int].host_lock[0] == 0
    }

    /// The host copy of what `x` holds on the device dropped.
    pub open spec fn reclaimed(self, x: NodeId, out: Freed) -> (UState, Freed) {
        let h = run_or_none(self.nodes[x as int].host[0]);
        (
            UState {
                digest: digest_after(self.digest, x),
                ..self.logged(0, x, 2).patched(x, self.nodes[x as int].with_host(0, None))
            }.forgotten(x),
            out.with_host(CT_FULL, h).counting(CT_FULL, h.len() as i64),
        )
    }

    /// One duplicate dealt with: a stale note is forgotten, a copy that can
    /// go is dropped; device leaves are spared if `spare`.
    pub open spec fn duplicate_swept(self, x: NodeId, spare: bool, out: Freed) -> (UState, Freed) {
        let n = self.nodes[x as int];
        if n.value[0] is None || n.host[0] is None {
            (self.forgotten(x), out)
        } else if (spare && self.device_leaf(x)) || !self.reclaimable(x) {
            (self, out)
        } else {
            self.reclaimed(x, out)
        }
    }

    /// The duplicates `ids` from place `k` on dealt with until `n` tokens are
    /// counted.
    pub open spec fn swept(self, ids: Seq<NodeId>, k: int, spare: bool, n: i64, out: Freed) -> (UState, Freed)
        decreases ids.len() - k,
    {
        if k >= ids.len() || out.counted(CT_FULL) >= n {
            (self, out)
        } else {
            let (a, o) = self.duplicate_swept(ids[k], spare, out);
            a.swept(ids, k + 1, spare, n, o)
        }
    }

    /// Duplicates dropped until `n` tokens are counted: device leaves, soon
    /// to be demoted, are spared at first.
    pub open spec fn duplicates_reclaimed(self, n: i64, out: Freed) -> (UState, Freed) {
        let (a, o) = self.swept(self.dups, 0, true, n, out);
        a.swept(self.dups, 0, false, n, o)
    }

    // ---- SWA and MAMBA ----

    /// Host runs of `ct` dropped from `cur` on, old to recent, until `n`
    /// tokens are counted.
    pub open spec fn aux_host_driven(self, ct: u8, n: i64, cur: Option<NodeId>, out: Freed) -> (UState, Freed)
        decreases self.lru[2 * ct + 1].len(),
        when self.lru.len() == 8 && (ct == 1 || ct == 2)
    {
        match cur {
            Some(x) => if out.counted(ct) < n && self.lru[2 * ct + 1].contains(x) {
                let next = self.free_after(ct, true, x);
                let (a, o) = if self.host_leaf(x) {
                    self.deleted(x, 2, out, true)
                } else {
                    self.host_hollowed(x, ct, out)
                };
                proof {
                    lemma_shorter(self, x, ct, out);
                }
                a.aux_host_driven(ct, n, next, o)
            } else {
                (self, out)
            },
            None => (self, out),
        }
    }

    /// Whether no state is held where window slots are not.
    pub open spec fn hosts_ready(self) -> bool {
        forall|x: NodeId| #[trigger]
            self.inner(x) && self.nodes[x as int].host[1] is Some && self.nodes[x as int].host_lock[1] == 0
                ==> self.nodes[x as int].host[2] is None || self.nodes[x as int].host_lock[2] == 0
    }

    /// Host eviction for `ct` until `n` tokens are counted.
    pub open spec fn host_evicted(self, ct: u8, n: i64) -> (UState, Freed) {
        if ct == CT_FULL {
            let (a, o) = if self.cfg.is_write_back {
                self.duplicates_reclaimed(n, Freed::none())
            } else {
                (self, Freed::none())
            };
            a.host_driven(n, o)
        } else if ct == CT_SWA || ct == CT_MAMBA {
            self.aux_host_driven(ct, n, self.oldest_free(ct, true), Freed::none())
        } else {
            (self, Freed::none())
        }
    }

    // ---- states per path ----

    /// The nodes of `ids` with a state on the device.
    pub open spec fn holders(self, ids: Seq<NodeId>) -> Seq<NodeId>
        decreases ids.len(),
    {
        if ids.len() == 0 {
            Seq::empty()
        } else {
            let h = self.holders(ids.drop_last());
            if self.nodes[ids.last() as int].value[2] is Some {
                h.push(ids.last())
            } else {
                h
            }
        }
    }

    /// Whether the state of `x` can go from the middle of a path.
    pub open spec fn thinnable(self, x: NodeId) -> bool {
        let n = self.nodes[x as int];
        n.lock[2] <= 0 && n.kids.len() == 1 && !self.device_leaf(x)
    }

    /// `excess` states dropped from the first `k` nodes of `ids`, the last
    /// one first, `tail` aside.
    pub open spec fn thinned(self, ids: Seq<NodeId>, k: int, tail: NodeId, excess: int, out: Freed) -> (UState, Freed)
        decreases k,
    {
        if k <= 0 || excess <= 0 || ids[k - 1] == tail {
            (self, out)
        } else if self.thinnable(ids[k - 1]) {
            let (a, o) = self.hollowed(ids[k - 1], CT_MAMBA, out);
            a.thinned(ids, k - 1, tail, excess - 1, o)
        } else {
            self.thinned(ids, k - 1, tail, excess, out)
        }
    }

    /// The path of `tail` with as many states as it may have, as far as
    /// states can go.
    pub open spec fn excess_evicted(self, tail: NodeId) -> (UState, Freed) {
        let cap = self.cfg.mamba_max_states_per_path;
        let ids = self.holders(self.shape.up(tail));
        if cap < 0 {
            (self, Freed::none())
        } else {
            self.thinned(ids, ids.len() as int, tail, ids.len() - cap, Freed::none())
        }
    }
}

/// A step of host eviction makes the host list shorter.
pub proof fn lemma_shorter(st: UState, x: NodeId, ct: u8, out: Freed)
    requires
        st.lru.len() == 8,
        ct == 1 || ct == 2,
        st.lru[2 * ct + 1].contains(x),
    ensures
        st.deleted(x, 2, out, true).0.lru.len() == 8,
        st.deleted(x, 2, out, true).0.lru[2 * ct + 1].len() == st.lru[2 * ct + 1].len() - 1,
        st.host_hollowed(x, ct, out).0.lru.len() == 8,
        st.host_hollowed(x, ct, out).0.lru[2 * ct + 1].len() == st.lru[2 * ct + 1].len() - 1,
{
    let order = st.lru[2 * ct + 1];
    assert(model::rid(order, x).len() == order.len() - 1);
}

impl UnifiedRadixTree {
    /// The host leaf that leaves first.
    fn host_victim(&self) -> (r: Option<NodeId>)
        requires
            self.wf(),
        ensures
            r == self@.host_victim(),
            r matches Some(x) ==> self@.host_leaf(x),
    {
        let ghost st = self@;
        let leaves = self.host_leaves();
        proof {
            self.lemma_wf();
        }
        if leaves.len() == 0 {
            proof {
                assert forall|x: NodeId| !#[trigger] st.host_first(x) by {
                    if st.host_first(x) {
                        assert(leaves@.contains(x));
                    }
                }
            }
            return None;
        }
        assert(leaves@.contains(leaves@[0]));
        let mut best = leaves[0];
        let mut top = self.strategy_key(best);
        let mut k: usize = 1;
        while k < leaves.len()
            invariant
                self.wf(),
                self@ == st,
                1 <= k <= leaves@.len(),
                forall|x: NodeId| #[trigger] leaves@.contains(x) <==> st.host_leaf(x),
                st.host_leaf(best),
                top == st.rank(best),
                forall|j: int| 0 <= j < k && leaves@[j] != best ==> top.before(st.rank(#[trigger] leaves@[j])),
            decreases leaves@.len() - k,
        {
            let x = leaves[k];
            assert(leaves@.contains(x));
            let mine = self.strategy_key(x);
            if mine.leaves_before(&top) {
                best = x;
                top = mine;
            }
            k += 1;
        }
        proof {
            assert(st.host_first(best)) by {
                assert forall|y: NodeId| #[trigger] st.host_leaf(y) && y != best implies st.rank(best).before(st.rank(y)) by {
                    assert(leaves@.contains(y));
                    let j = choose|j: int| 0 <= j < leaves@.len() && leaves@[j] == y;
                    assert(leaves@[j] == y);
                }
            }
            let c = choose|x: NodeId| st.host_first(x);
            assert(st.host_first(c));
            assert(c == best) by {
                if c != best {
                    assert(st.host_leaf(c) && st.host_leaf(best));
                    assert(st.rank(best).before(st.rank(c)));
                    assert(st.rank(c).before(st.rank(best)));
                }
            }
        }
        Some(best)
    }

    /// Deletes host leaves until `n` tokens are counted.
    fn drive_host_eviction_full(&mut self, n: i64, out: &mut UEvictOutcome)
        requires
            old(self).wf(),
        ensures
            final(self).wf(),
            (final(self)@, final(out).freed()) == old(self)@.host_driven(n, old(out).freed()),
            final(out).is_dropped == old(out).is_dropped,
            final(out).backup_kv == old(out).backup_kv,
    {
        let ghost goal = self@.host_driven(n, out.freed());
        loop
            invariant
                self.wf(),
                self@.host_driven(n, out.freed()) == goal,
                out.is_dropped == old(out).is_dropped,
                out.backup_kv == old(out).backup_kv,
            ensures
                self.wf(),
                (self@, out.freed()) == goal,
                out.is_dropped == old(out).is_dropped,
                out.backup_kv == old(out).backup_kv,
            decreases facts::population(self@.shape),
        {
            let ghost st = self@;
            proof {
                self.lemma_wf();
            }
            if out.counted(CT_FULL) >= n {
                break ;
            }
            match self.host_victim() {
                Some(x) => {
                    proof {
                        facts::lemma_population(st.shape, x);
                        assert(st.node_ok(x as int));
                    }
                    self.delete_leaf(x, 2, true, out);
                    proof {
                        self.lemma_wf();
                    }
                },
                None => {
                    break ;
                },
            }
        }
    }

    /// Drops host runs of `ct` until `n` tokens are counted.
    fn drive_host_eviction_aux(&mut self, ct: u8, n: i64, out: &mut UEvictOutcome)
        requires
            old(self).wf(),
            ct == CT_SWA || ct == CT_MAMBA,
        ensures
            final(self).wf(),
            (final(self)@, final(out).freed()) == old(self)@.aux_host_driven(
                ct,
                n,
                old(self)@.oldest_free(ct, true),
                old(out).freed(),
            ),
            final(out).is_dropped == old(out).is_dropped,
            final(out).backup_kv == old(out).backup_kv,
    {
        let mut cur = self.free_from(ct, true, None);
        let ghost goal = self@.aux_host_driven(ct, n, cur, out.freed());
        loop
            invariant
                self.wf(),
                ct == CT_SWA || ct == CT_MAMBA,
                self@.aux_host_driven(ct, n, cur, out.freed()) == goal,
                out.is_dropped == old(out).is_dropped,
                out.backup_kv == old(out).backup_kv,
            ensures
                self.wf(),
                (self@, out.freed()) == goal,
                out.is_dropped == old(out).is_dropped,
                out.backup_kv == old(out).backup_kv,
            decreases self@.lru[2 * ct + 1].len(),
        {
            let ghost st = self@;
            proof {
                self.lemma_wf();
            }
            if out.counted(ct) >= n {
                break ;
            }
            match cur {
                Some(x) => {
                    if !self.lru_in(ct, 1, x) {
                        break ;
                    }
                    proof {
                        assert(st.lists_ok(ct as int, x));
                        assert(st.node_ok(x as int));
                        lemma_shorter(st, x, ct, out.freed());
                    }
                    let next = self.free_from(ct, true, Some(x));
                    if self.in_h_leaves(x) {
                        self.delete_leaf(x, 2, true, out);
                    } else {
                        self.hollow_host(x, ct, out);
                    }
                    cur = next;
                },
                None => {
                    break ;
                },
            }
        }
    }

    /// Drops the host copy of what `x` holds on the device.
    fn release_full_host_duplicate(&mut self, x: NodeId, out: &mut UEvictOutcome)
        requires
            old(self).wf(),
            old(self)@.inner(x),
            old(self)@.reclaimable(x),
        ensures
            final(self).wf(),
            (final(self)@, final(out).freed()) == old(self)@.reclaimed(x, old(out).freed()),
            final(out).is_dropped == old(out).is_dropped,
            final(out).backup_kv == old(out).backup_kv,
    {
        let ghost st = self@;
        self.log(0, x, 2);
        if let Some(h) = self.copy_host(x, CT_FULL) {
            let n = h.len() as i64;
            out.free_host(CT_FULL, h);
            out.count(CT_FULL, n);
        }
        self.set_full_host(x, None);
        let d = (self.reclaim_digest() as u128 * 1_000_003 + x as u128 + 1) % DIGEST_RANGE;
        self.set_digest(d as u64);
        self.forget(x);
        assert(self@ =~= st.reclaimed(x, old(out).freed()).0);
    }

    /// Goes once over the duplicates `ids`.
    fn sweep(&mut self, ids: &Vec<NodeId>, spare: bool, n: i64, out: &mut UEvictOutcome)
        requires
            old(self).wf(),
            forall|j: int| 0 <= j < ids@.len() ==> old(self)@.inner(#[trigger] ids@[j]),
        ensures
            final(self).wf(),
            (final(self)@, final(out).freed()) == old(self)@.swept(ids@, 0, spare, n, old(out).freed()),
            final(self)@.shape == old(self)@.shape,
            final(self)@.nodes.len() == old(self)@.nodes.len(),
            final(out).is_dropped == old(out).is_dropped,
            final(out).backup_kv == old(out).backup_kv,
    {
        let ghost goal = self@.swept(ids@, 0, spare, n, out.freed());
        let ghost s0 = self@;
        let mut k: usize = 0;
        while k < ids.len() && out.counted(CT_FULL) < n
            invariant
                self.wf(),
                self@.shape == s0.shape,
                self@.nodes.len() == s0.nodes.len(),
                k <= ids@.len(),
                forall|j: int| 0 <= j < ids@.len() ==> s0.inner(#[trigger] ids@[j]),
                self@.swept(ids@, k as int, spare, n, out.freed()) == goal,
                out.is_dropped == old(out).is_dropped,
                out.backup_kv == old(out).backup_kv,
            decreases ids@.len() - k,
        {
            let x = ids[k];
            assert(s0.inner(ids@[k as int]));
            assert(self@.inner(x));
            let v = self.copy_device(x, CT_FULL);
            let h = self.copy_host(x, CT_FULL);
            if v.is_none() || h.is_none() {
                self.forget(x);
            } else {
                let nd = self.node_by_id(x);
                let loose = nd.wt_pending.is_none() && nd.lb_pending.is_none() && nd.host_lock_ref[0] == 0;
                if loose && !(spare && self.in_d_leaves(x)) {
                    self.release_full_host_duplicate(x, out);
                }
            }
            k += 1;
        }
    }

    /// Evicts from the host for `ct` until `num_tokens` are freed.
    pub fn drive_host_eviction(&mut self, ct: u8, num_tokens: i64) -> (r: UEvictOutcome)
        requires
            old(self).wf(),
            ct == CT_SWA ==> old(self)@.hosts_ready(),
        ensures
            final(self).wf(),
            (final(self)@, r.freed()) == old(self)@.host_evicted(ct, num_tokens),
            !r.is_dropped,
            r.backup_kv is None,
    {
        let mut out = UEvictOutcome::default();
        if ct == CT_FULL {
            if self.is_write_back() {
                let ids = self.duplicate_ids();
                proof {
                    self.lemma_wf();
                    assert forall|j: int| 0 <= j < ids@.len() implies self@.inner(#[trigger] ids@[j]) by {
                        assert(self@.dups.contains(ids@[j]));
                    }
                }
                self.sweep(&ids, true, num_tokens, &mut out);
                self.sweep(&ids, false, num_tokens, &mut out);
            }
            self.drive_host_eviction_full(num_tokens, &mut out);
        } else if ct == CT_SWA || ct == CT_MAMBA {
            self.drive_host_eviction_aux(ct, num_tokens, &mut out);
        }
        out
    }

    /// Drops states from the path of `tail` that has too many of them, the
    /// topmost first.
    pub fn evict_excess_path_states(&mut self, tail: NodeId) -> (r: UEvictOutcome)
        requires
            old(self).wf(),
            old(self)@.live(tail),
        ensures
            final(self).wf(),
            (final(self)@, r.freed()) == old(self)@.excess_evicted(tail),
            !r.is_dropped,
            r.backup_kv is None,
    {
        let ghost st = self@;
        let mut out = UEvictOutcome::default();
        let cfg = self.config();
        let cap = cfg.mamba_max_states_per_path;
        if cap < 0 {
            return out;
        }
        let up = self.up(tail);
        let mut ids: Vec<NodeId> = Vec::new();
        let mut j: usize = 0;
        while j < up.len()
            invariant
                self.wf(),
                self@ == st,
                j <= up@.len(),
                up@ == st.shape.up(tail),
                up@.no_duplicates(),
                up@.len() < st.nodes.len(),
                ids@.len() <= j,
                forall|k: int| 0 <= k < up@.len() ==> st.inner(#[trigger] up@[k]),
                ids@ == st.holders(up@.take(j as int)),
                ids@.no_duplicates(),
                forall|k: int|
                    0 <= k < ids@.len() ==> st.inner(#[trigger] ids@[k]) && st.nodes[ids@[k] as int].value[2] is Some
                        && up@.take(j as int).contains(ids@[k]),
            decreases up@.len() - j,
        {
            let x = up[j];
            proof {
                let a = up@.take(j as int);
                let b = up@.take(j + 1);
                assert(b.drop_last() =~= a);
                assert(b.last() == x);
                assert forall|k: int| 0 <= k < ids@.len() implies b.contains(#[trigger] ids@[k]) && ids@[k] != x by {
                    let i = choose|i: int| 0 <= i < a.len() && a[i] == ids@[k];
                    assert(up@[i] != up@[j as int]);
                    assert(b[i] == ids@[k]);
                }
                assert(b[j as int] == x);
            }
            let v = self.copy_device(x, CT_MAMBA);
            if v.is_some() {
                ids.push(x);
            }
            j += 1;
        }
        proof {
            assert(up@.take(j as int) =~= up@);
            self.lemma_wf();
        }
        let mut k: usize = ids.len();
        let mut excess: i64 = ids.len() as i64 - cap;
        let ghost goal = st.excess_evicted(tail);
        while k > 0 && excess > 0 && ids[k - 1] != tail
            invariant
                self.wf(),
                k <= ids@.len(),
                excess >= -cap,
                cap >= 0,
                ids@.no_duplicates(),
                forall|i: int|
                    0 <= i < k ==> self@.inner(#[trigger] ids@[i]) && self@.nodes[ids@[i] as int].value[2] is Some,
                self@.thinned(ids@, k as int, tail, excess as int, out.freed()) == goal,
                !out.is_dropped,
                out.backup_kv is None,
            decreases k,
        {
            let x = ids[k - 1];
            let ghost cur = self@;
            assert(self@.inner(ids@[k - 1]));
            let n = self.node_by_id(x);
            let free = n.lock_ref[2] <= 0 && n.child_order.len() == 1;
            proof {
                self.lemma_wf();
                assert(cur.node_ok(x as int));
            }
            if free && !self.in_d_leaves(x) {
                self.hollow(x, CT_MAMBA, &mut out);
                excess -= 1;
            }
            k -= 1;
            assert forall|i: int| 0 <= i < k implies self@.inner(#[trigger] ids@[i]) && self@.nodes[ids@[i] as int].value[2] is Some by {
                assert(ids@[i] != ids@[k as int]);
                assert(cur.inner(ids@[i]));
            }
        }
        out
    }
}

} // verus!
