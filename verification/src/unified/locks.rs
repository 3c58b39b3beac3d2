//! Locks of the unified tree.
//!
//! A device lock on a node holds the FULL path up to the root, the SWA nodes
//! of the last window, and the node's own state. What a component did not
//! lock on the way is listed, so that a release can pass it over.

use crate::seqs;
use crate::topo;
use crate::topo::{NodeId, ROOT};
use crate::unified;
use crate::unified::facts;
use crate::unified::matching;
use crate::unified::model;
use crate::unified::model::{UNodeState, UState};
use crate::unified::tree::UnifiedRadixTree;
use crate::unified::{
    Freed, Locked, UDecLockParams, UEvictOutcome, UIncLockResult, CT_FULL, CT_MAMBA, CT_SWA,
};
use vstd::prelude::*;

verus! {

/// A window lock on its way up: the tree, the window tokens locked so far,
/// and the mark of the node that filled the window.
#[verifier::ext_equal]
pub struct WindowHold {
    pub st: UState,
    pub size: int,
    pub mark: Option<i64>,
    pub out: Locked,
}

impl UState {
    // ---- FULL ----

    /// The first `k` of `up` with one FULL lock more on those that hold a
    /// FULL device run; the others are listed.
    pub open spec fn full_held(self, up: Seq<NodeId>, k: int, out: Locked) -> (UState, Locked)
        decreases k,
    {
        if k <= 0 {
            (self, out)
        } else {
            let (st, o) = self.full_held(up, k - 1, out);
            let x = up[k - 1];
            let n = st.nodes[x as int];
            if n.value[0] is None {
                (st, o.skipping(CT_FULL, x))
            } else {
                (st.patched(x, n.with_lock(0, (n.lock[0] + 1) as i32)), o)
            }
        }
    }

    /// A FULL lock on the path of `node`; what became protected is counted.
    pub open spec fn full_locked(self, node: NodeId, out: Locked) -> (UState, Locked) {
        let up = self.shape.up(node);
        let (st, o) = self.full_held(up, up.len() as int, out);
        (st, Locked { delta: self.count(0, false) - st.count(0, false), ..o })
    }

    /// The first `k` of `up` with one FULL lock less, but for `skip`.
    pub open spec fn full_freed(self, up: Seq<NodeId>, k: int, skip: Seq<NodeId>) -> UState
        decreases k,
    {
        if k <= 0 {
            self
        } else {
            let st = self.full_freed(up, k - 1, skip);
            let x = up[k - 1];
            let n = st.nodes[x as int];
            if skip.contains(x) {
                st
            } else {
                st.patched(x, n.with_lock(0, (n.lock[0] - 1) as i32))
            }
        }
    }

    /// A FULL host lock on `node` alone. Without a host run there is nothing
    /// to lock, unless the tree writes back.
    pub open spec fn full_host_locked(self, node: NodeId) -> UState {
        if !self.backuped(node) && !self.cfg.is_write_back {
            self
        } else {
            self.host_held(node, 0)
        }
    }

    /// The release of a FULL host lock.
    pub open spec fn full_host_freed(self, node: NodeId) -> UState {
        if self.nodes[node as int].host_lock[0] == 0 || (!self.backuped(node) && !self.cfg.is_write_back) {
            self
        } else {
            self.host_freed(node, 0)
        }
    }

    // ---- SWA ----

    /// The window run of `id` on the device or on the host.
    pub open spec fn swa_side(self, id: NodeId, host: bool) -> Option<Seq<i64>> {
        if host {
            self.nodes[id as int].host[1]
        } else {
            self.nodes[id as int].value[1]
        }
    }

    /// The mark of `id` for device or host windows.
    pub open spec fn mark_side(self, id: NodeId, host: bool) -> Option<i64> {
        if host {
            self.nodes[id as int].host_mark
        } else {
            self.nodes[id as int].mark
        }
    }

    /// With a new mark on `id`, if it has none.
    pub open spec fn marked(self, id: NodeId, host: bool) -> UState {
        if self.mark_side(id, host) is Some {
            self
        } else {
            let u = (self.uuids + 1) as i64;
            let n = self.nodes[id as int];
            UState {
                uuids: u,
                ..self.patched(
                    id,
                    if host {
                        UNodeState { host_mark: Some(u), ..n }
                    } else {
                        UNodeState { mark: Some(u), ..n }
                    },
                )
            }
        }
    }

    /// One SWA lock more on `id`.
    pub open spec fn swa_held_one(self, id: NodeId, host: bool) -> UState {
        if host {
            self.host_held(id, 1)
        } else {
            let n = self.nodes[id as int];
            self.patched(id, n.with_lock(1, (n.lock[1] + 1) as i32))
        }
    }

    /// A window lock over the first `k` of `up`: nodes with window slots are
    /// locked until a window is full, where the last one is marked; the
    /// others on the way are listed.
    pub open spec fn swa_held(self, up: Seq<NodeId>, k: int, host: bool, out: Locked) -> WindowHold
        decreases k,
    {
        if k <= 0 {
            WindowHold { st: self, size: 0, mark: None, out }
        } else {
            let h = self.swa_held(up, k - 1, host, out);
            let x = up[k - 1];
            if h.size >= self.cfg.sliding_window_size {
                h
            } else {
                match h.st.swa_side(x, host) {
                    None => WindowHold { out: h.out.skipping(CT_SWA, x), ..h },
                    Some(v) => {
                        let a = h.st.swa_held_one(x, host);
                        let size = h.size + v.len();
                        if size >= self.cfg.sliding_window_size {
                            let b = a.marked(x, host);
                            WindowHold { st: b, size, mark: b.mark_side(x, host), out: h.out }
                        } else {
                            WindowHold { st: a, size, ..h }
                        }
                    },
                }
            }
        }
    }

    /// A window lock on the path of `node`.
    pub open spec fn swa_locked(self, node: NodeId, host: bool, out: Locked) -> (UState, Locked) {
        let up = self.shape.up(node);
        let h = self.swa_held(up, up.len() as int, host, out);
        (h.st, if host {
            Locked { host_mark: h.mark, ..h.out }
        } else {
            Locked { mark: h.mark, ..h.out }
        })
    }

    /// The release of a window lock over the first `k` of `up`, but for
    /// `skip`, up to the node that bears `mark`; and whether it goes on.
    pub open spec fn swa_freed(
        self,
        up: Seq<NodeId>,
        k: int,
        host: bool,
        skip: Seq<NodeId>,
        mark: Option<i64>,
    ) -> (UState, bool)
        decreases k,
    {
        if k <= 0 {
            (self, true)
        } else {
            let (st, going) = self.swa_freed(up, k - 1, host, skip, mark);
            let x = up[k - 1];
            let n = st.nodes[x as int];
            let held = if host {
                n.host_lock[1]
            } else {
                n.lock[1]
            };
            if !going || skip.contains(x) || held == 0 {
                (st, going)
            } else {
                let t = if host {
                    st.host_freed(x, 1)
                } else {
                    st.patched(x, n.with_lock(1, (held - 1) as i32))
                };
                (t, !(mark is Some && st.mark_side(x, host) == mark))
            }
        }
    }

    // ---- MAMBA ----

    /// A lock on the state of `node`.
    pub open spec fn mamba_locked(self, node: NodeId, host: bool, out: Locked) -> (UState, Locked) {
        let n = self.nodes[node as int];
        if node == ROOT {
            (self, out)
        } else if host {
            if n.host[2] is None {
                (self, out.skipping(CT_MAMBA, node))
            } else {
                (self.host_held(node, 2), out)
            }
        } else {
            if n.value[2] is None {
                (self, out.skipping(CT_MAMBA, node))
            } else {
                (self.patched(node, n.with_lock(2, (n.lock[2] + 1) as i32)), out)
            }
        }
    }

    /// The release of a lock on the state of `node`, if it is not in `skip`.
    pub open spec fn mamba_freed(self, node: NodeId, host: bool, skip: Seq<NodeId>) -> UState {
        let n = self.nodes[node as int];
        if node == ROOT || skip.contains(node) {
            self
        } else if host {
            self.host_freed(node, 2)
        } else if n.lock[2] > 0 {
            self.patched(node, n.with_lock(2, (n.lock[2] - 1) as i32))
        } else {
            self
        }
    }

    // ---- all components ----

    /// `node` noted as not locked for `ct`, the root aside.
    pub open spec fn passing(self, ct: u8, node: NodeId, out: Locked) -> Locked {
        if node == ROOT {
            out
        } else {
            out.skipping(ct, node)
        }
    }

    /// A device lock on `node` in all components but `skip`.
    pub open spec fn locked(self, node: NodeId, skip: Seq<u8>) -> (UState, Locked) {
        let (a, oa) = if skip.contains(CT_FULL) {
            (self, self.passing(CT_FULL, node, Locked::none()))
        } else {
            self.full_locked(node, Locked::none())
        };
        let (b, ob) = if !self.cfg.swa() {
            (a, oa)
        } else if skip.contains(CT_SWA) {
            (a, self.passing(CT_SWA, node, oa))
        } else {
            a.swa_locked(node, false, oa)
        };
        if !self.cfg.mamba() {
            (b, ob)
        } else if skip.contains(CT_MAMBA) {
            (b, self.passing(CT_MAMBA, node, ob))
        } else {
            b.mamba_locked(node, false, ob)
        }
    }

    /// The release of a device lock on `node`.
    pub open spec fn unlocked(
        self,
        node: NodeId,
        skips: Seq<(u8, Seq<NodeId>)>,
        mark: Option<i64>,
        skip_swa: bool,
    ) -> UState {
        let up = self.shape.up(node);
        let a = self.full_freed(up, up.len() as int, unified::ids_for(skips, CT_FULL));
        let b = if self.cfg.swa() && !skip_swa {
            a.swa_freed(up, up.len() as int, false, unified::ids_for(skips, CT_SWA), mark).0
        } else {
            a
        };
        if self.cfg.mamba() {
            b.mamba_freed(node, false, unified::ids_for(skips, CT_MAMBA))
        } else {
            b
        }
    }

    /// A host lock on `node` in all components.
    pub open spec fn host_locked(self, node: NodeId) -> (UState, Locked) {
        let a = self.full_host_locked(node);
        let (b, ob) = if self.cfg.swa() {
            a.swa_locked(node, true, Locked::none())
        } else {
            (a, Locked::none())
        };
        if self.cfg.mamba() {
            b.mamba_locked(node, true, ob)
        } else {
            (b, ob)
        }
    }

    /// The release of a host lock on `node`.
    pub open spec fn host_unlocked(self, node: NodeId, skips: Seq<(u8, Seq<NodeId>)>, mark: Option<i64>) -> UState {
        let up = self.shape.up(node);
        let a = self.full_host_freed(node);
        let b = if self.cfg.swa() {
            a.swa_freed(up, up.len() as int, true, unified::ids_for(skips, CT_SWA), mark).0
        } else {
            a
        };
        if self.cfg.mamba() {
            b.mamba_freed(node, true, unified::ids_for(skips, CT_MAMBA))
        } else {
            b
        }
    }

    /// Lock counts on the path of `node` and the mark counter have room for
    /// one lock more.
    pub open spec fn lockable(self, node: NodeId) -> bool {
        &&& self.uuids < i64::MAX
        &&& self.nodes[node as int].host_lock[0] < i32::MAX
        &&& forall|k: int|
            0 <= k < self.shape.up(node).len() ==> has_room(self.nodes[(#[trigger] self.shape.up(node)[k]) as int])
    }

    /// SWA lock counts on the path of `node` and the mark counter have room
    /// for one lock more.
    pub open spec fn window_lockable(self, node: NodeId) -> bool {
        &&& self.uuids < i64::MAX
        &&& forall|k: int|
            0 <= k < self.shape.up(node).len() ==> has_swa_room(
                self.nodes[(#[trigger] self.shape.up(node)[k]) as int],
            )
    }

    /// Every node on the path of `node` that is not in `skip` bears a FULL
    /// lock.
    pub open spec fn unlockable(self, node: NodeId, skip: Seq<NodeId>) -> bool {
        forall|k: int|
            0 <= k < self.shape.up(node).len() ==> {
                let x = #[trigger] self.shape.up(node)[k];
                skip.contains(x) || self.nodes[x as int].lock[0] > 0
            }
    }
}

/// Every lock count has room for one more.
pub open spec fn has_room(n: UNodeState) -> bool {
    &&& n.lock[0] < i32::MAX && n.lock[1] < i32::MAX && n.lock[2] < i32::MAX
    &&& n.host_lock[0] < i32::MAX && n.host_lock[1] < i32::MAX && n.host_lock[2] < i32::MAX
}

/// The SWA lock counts have room for one more.
pub open spec fn has_swa_room(n: UNodeState) -> bool {
    n.lock[1] < i32::MAX && n.host_lock[1] < i32::MAX
}

/// `b` is `a` with other locks, marks and host lists.
pub open spec fn same_tree(a: UState, b: UState) -> bool {
    &&& b.shape == a.shape
    &&& b.cfg == a.cfg
    &&& b.nodes.len() == a.nodes.len()
    &&& forall|i: int|
        0 <= i < a.nodes.len() ==> {
            &&& (#[trigger] b.nodes[i]).value == a.nodes[i].value
            &&& b.nodes[i].host == a.nodes[i].host
        }
}

/// A FULL lock in progress has not come to the nodes above.
proof fn lemma_full_held(st: UState, up: Seq<NodeId>, k: int, out: Locked)
    requires
        0 <= k <= up.len(),
        up.no_duplicates(),
        forall|j: int| 0 <= j < up.len() ==> (#[trigger] up[j]) < st.nodes.len() && st.nodes[up[j] as int].arity(),
    ensures
        same_tree(st, st.full_held(up, k, out).0),
        st.full_held(up, k, out).0.uuids == st.uuids,
        forall|j: int|
            k <= j < up.len() ==> st.full_held(up, k, out).0.nodes[(#[trigger] up[j]) as int] == st.nodes[up[j] as int],
        forall|j: int|
            0 <= j < up.len() ==> {
                let n = st.full_held(up, k, out).0.nodes[(#[trigger] up[j]) as int];
                let m = st.nodes[up[j] as int];
                &&& n.lock.len() == 4
                &&& n == (UNodeState { lock: n.lock, ..m })
                &&& n.lock[1] == m.lock[1] && n.lock[2] == m.lock[2]
            },
        st.full_held(up, k, out).1.mark == out.mark,
        st.full_held(up, k, out).1.host_mark == out.host_mark,
    decreases k,
{
    if k > 0 {
        lemma_full_held(st, up, k - 1, out);
    }
}

/// The release of a FULL lock in progress has not come to the nodes above.
proof fn lemma_full_freed(st: UState, up: Seq<NodeId>, k: int, skip: Seq<NodeId>)
    requires
        0 <= k <= up.len(),
        up.no_duplicates(),
        forall|j: int| 0 <= j < up.len() ==> (#[trigger] up[j]) < st.nodes.len() && st.nodes[up[j] as int].arity(),
    ensures
        same_tree(st, st.full_freed(up, k, skip)),
        forall|j: int|
            k <= j < up.len() ==> st.full_freed(up, k, skip).nodes[(#[trigger] up[j]) as int] == st.nodes[up[j] as int],
    decreases k,
{
    if k > 0 {
        lemma_full_freed(st, up, k - 1, skip);
    }
}

/// A window lock in progress has not come to the nodes above; it makes one
/// mark at most, when the window is full.
proof fn lemma_swa_held(st: UState, up: Seq<NodeId>, k: int, host: bool, out: Locked)
    requires
        0 <= k <= up.len(),
        up.no_duplicates(),
        forall|j: int| 0 <= j < up.len() ==> (#[trigger] up[j]) < st.nodes.len() && st.nodes[up[j] as int].arity(),
        st.uuids < i64::MAX,
    ensures
        ({
            let h = st.swa_held(up, k, host, out);
            &&& same_tree(st, h.st)
            &&& h.size >= 0
            &&& h.st.uuids == st.uuids || (h.st.uuids == st.uuids + 1 && h.size >= st.cfg.sliding_window_size)
            &&& forall|j: int|
                k <= j < up.len() ==> h.st.nodes[(#[trigger] up[j]) as int] == st.nodes[up[j] as int]
            &&& forall|j: int|
                0 <= j < up.len() ==> {
                    let n = h.st.nodes[(#[trigger] up[j]) as int];
                    let m = st.nodes[up[j] as int];
                    &&& n.arity()
                    &&& n.lock[0] == m.lock[0] && n.lock[2] == m.lock[2]
                    &&& n.host_lock[0] == m.host_lock[0] && n.host_lock[2] == m.host_lock[2]
                }
        }),
    decreases k,
{
    if k > 0 {
        lemma_swa_held(st, up, k - 1, host, out);
    }
}

/// The release of a window lock keeps the tree.
proof fn lemma_swa_freed(st: UState, up: Seq<NodeId>, k: int, host: bool, skip: Seq<NodeId>, mark: Option<i64>)
    requires
        0 <= k <= up.len(),
        up.no_duplicates(),
        forall|j: int| 0 <= j < up.len() ==> (#[trigger] up[j]) < st.nodes.len() && st.nodes[up[j] as int].arity(),
    ensures
        ({
            let t = st.swa_freed(up, k, host, skip, mark).0;
            &&& same_tree(st, t)
            &&& forall|j: int| k <= j < up.len() ==> t.nodes[(#[trigger] up[j]) as int] == st.nodes[up[j] as int]
            &&& forall|j: int|
                0 <= j < up.len() ==> {
                    let n = t.nodes[(#[trigger] up[j]) as int];
                    let m = st.nodes[up[j] as int];
                    &&& n.arity()
                    &&& n.lock[2] == m.lock[2] && n.host_lock[2] == m.host_lock[2]
                }
        }),
    decreases k,
{
    if k > 0 {
        lemma_swa_freed(st, up, k - 1, host, skip, mark);
    }
}

/// Whether `ids` holds `x`.
fn holds(ids: &[u32], x: u32) -> (r: bool)
    ensures
        r == ids@.contains(x),
{
    let mut k: usize = 0;
    while k < ids.len()
        invariant
            k <= ids@.len(),
            forall|j: int| 0 <= j < k ==> (#[trigger] ids@[j]) != x,
        decreases ids@.len() - k,
    {
        if ids[k] == x {
            return true;
        }
        k += 1;
    }
    false
}

/// Whether `cts` holds `x`.
fn holds_ct(cts: &[u8], x: u8) -> (r: bool)
    ensures
        r == cts@.contains(x),
{
    let mut k: usize = 0;
    while k < cts.len()
        invariant
            k <= cts@.len(),
            forall|j: int| 0 <= j < k ==> (#[trigger] cts@[j]) != x,
        decreases cts@.len() - k,
    {
        if cts[k] == x {
            return true;
        }
        k += 1;
    }
    false
}

impl UnifiedRadixTree {
    /// A FULL lock on the path of `node`.
    fn full_acquire_lock(&mut self, node: NodeId, out: &mut UIncLockResult)
        requires
            old(self).wf(),
            old(self)@.live(node),
            old(self)@.lockable(node),
        ensures
            final(self).wf(),
            (final(self)@, final(out)@) == old(self)@.full_locked(node, old(out)@),
    {
        let ghost st = self@;
        let ghost o = out@;
        let before = self.evictable_size();
        let up = self.up(node);
        proof {
            self.lemma_wf();
        }
        let mut k: usize = 0;
        while k < up.len()
            invariant
                self.wf(),
                st.wf(),
                st.lockable(node),
                up@ == st.shape.up(node),
                up@.no_duplicates(),
                forall|j: int| 0 <= j < up@.len() ==> st.inner(#[trigger] up@[j]),
                k <= up@.len(),
                (self@, out@) == st.full_held(up@, k as int, o),
            decreases up@.len() - k,
        {
            let x = up[k];
            proof {
                assert forall|j: int| 0 <= j < up@.len() implies (#[trigger] up@[j]) < st.nodes.len() && st.nodes[up@[j] as int].arity() by {
                    assert(st.inner(up@[j]));
                    assert(st.node_ok(up@[j] as int));
                }
                lemma_full_held(st, up@, k as int, o);
                assert(st.inner(up@[k as int]));
                assert(has_room(st.nodes[st.shape.up(node)[k as int] as int]));
                self.lemma_wf();
                assert(self@.node_ok(x as int));
            }
            if self.node_by_id(x).value[0].is_none() {
                out.add_skip(CT_FULL, x);
            } else {
                let n = self.node_by_id(x).lock_ref[0];
                self.set_lock(x, 0, n + 1);
            }
            k += 1;
        }
        let after = self.evictable_size();
        proof {
            self.lemma_wf();
            facts::law_sizes_add_up(st, 0);
            facts::law_sizes_add_up(self@, 0);
        }
        out.delta = before - after;
    }

    /// The release of a FULL lock on the path of `node`.
    fn full_release_lock(&mut self, node: NodeId, skip: &[u32])
        requires
            old(self).wf(),
            old(self)@.live(node),
            old(self)@.unlockable(node, skip@),
        ensures
            final(self).wf(),
            ({
                let up = old(self)@.shape.up(node);
                final(self)@ == old(self)@.full_freed(up, up.len() as int, skip@)
            }),
    {
        let ghost st = self@;
        let up = self.up(node);
        proof {
            self.lemma_wf();
        }
        let mut k: usize = 0;
        while k < up.len()
            invariant
                self.wf(),
                st.wf(),
                st.unlockable(node, skip@),
                up@ == st.shape.up(node),
                up@.no_duplicates(),
                forall|j: int| 0 <= j < up@.len() ==> st.inner(#[trigger] up@[j]),
                k <= up@.len(),
                self@ == st.full_freed(up@, k as int, skip@),
            decreases up@.len() - k,
        {
            let x = up[k];
            proof {
                assert forall|j: int| 0 <= j < up@.len() implies (#[trigger] up@[j]) < st.nodes.len() && st.nodes[up@[j] as int].arity() by {
                    assert(st.inner(up@[j]));
                    assert(st.node_ok(up@[j] as int));
                }
                lemma_full_freed(st, up@, k as int, skip@);
                assert(st.inner(up@[k as int]));
                self.lemma_wf();
                assert(self@.node_ok(x as int));
                assert(skip@.contains(st.shape.up(node)[k as int]) || st.nodes[x as int].lock[0] > 0);
            }
            if !holds(skip, x) {
                let n = self.node_by_id(x).lock_ref[0];
                self.set_lock(x, 0, n - 1);
            }
            k += 1;
        }
    }

    /// A FULL host lock on `node`.
    fn full_acquire_host_lock(&mut self, node: NodeId)
        requires
            old(self).wf(),
            old(self)@.live(node),
            old(self)@.nodes[node as int].host_lock[0] < i32::MAX,
        ensures
            final(self).wf(),
            final(self)@ == old(self)@.full_host_locked(node),
    {
        let ghost st = self@;
        proof {
            self.lemma_wf();
        }
        if !self.is_backuped(node) && !self.is_write_back() {
            return ;
        }
        if node == ROOT {
            let n = self.node_by_id(node).host_lock_ref[0];
            proof {
                assert(st.root_ok());
            }
            self.set_root_host_lock(n + 1);
            assert(self@ =~= st.full_host_locked(node));
        } else {
            self.hold_host(node, 0);
        }
    }

    /// The release of a FULL host lock on `node`.
    fn full_release_host_lock(&mut self, node: NodeId)
        requires
            old(self).wf(),
            old(self)@.live(node),
        ensures
            final(self).wf(),
            final(self)@ == old(self)@.full_host_freed(node),
    {
        let ghost st = self@;
        proof {
            self.lemma_wf();
            assert(st.root_ok());
            if node != ROOT {
                assert(st.node_ok(node as int));
            }
        }
        let n = self.node_by_id(node).host_lock_ref[0];
        if n == 0 || (!self.is_backuped(node) && !self.is_write_back()) {
            return ;
        }
        if node == ROOT {
            self.set_root_host_lock(n - 1);
            assert(self@ =~= st.full_host_freed(node));
        } else {
            self.free_host(node, 0);
        }
    }

    /// One SWA lock more on `x`; returns the length of its window run.
    fn swa_hold_one(&mut self, x: NodeId, lock_host: bool) -> (n: usize)
        requires
            old(self).wf(),
            old(self)@.inner(x),
            old(self)@.swa_side(x, lock_host) is Some,
            has_swa_room(old(self)@.nodes[x as int]),
        ensures
            final(self).wf(),
            final(self)@ == old(self)@.swa_held_one(x, lock_host),
            n == old(self)@.swa_side(x, lock_host)->0.len(),
    {
        proof {
            self.lemma_wf();
            assert(self@.node_ok(x as int));
        }
        if lock_host {
            let n = match &self.node_by_id(x).host_value[1] {
                Some(v) => v.len(),
                None => 0,
            };
            self.hold_host(x, 1);
            n
        } else {
            let n = match &self.node_by_id(x).value[1] {
                Some(v) => v.len(),
                None => 0,
            };
            let held = self.node_by_id(x).lock_ref[1];
            self.set_lock(x, 1, held + 1);
            n
        }
    }

    /// Marks `x` if it bears no mark; returns its mark.
    fn swa_mark(&mut self, x: NodeId, lock_host: bool) -> (m: Option<i64>)
        requires
            old(self).wf(),
            old(self)@.inner(x),
            old(self)@.uuids < i64::MAX,
        ensures
            final(self).wf(),
            final(self)@ == old(self)@.marked(x, lock_host),
            m == final(self)@.mark_side(x, lock_host),
    {
        let ghost st = self@;
        proof {
            self.lemma_wf();
        }
        let have = if lock_host {
            self.node_by_id(x).swa_host_uuid
        } else {
            self.node_by_id(x).swa_uuid
        };
        if have.is_some() {
            return have;
        }
        let u = self.uuids() + 1;
        self.set_uuids(u);
        if lock_host {
            self.set_host_mark(x, Some(u));
        } else {
            self.set_mark(x, Some(u));
        }
        assert(self@ =~= st.marked(x, lock_host));
        Some(u)
    }

    /// A window lock on the path of `node`.
    fn swa_acquire_lock(&mut self, node: NodeId, out: &mut UIncLockResult, lock_host: bool)
        requires
            old(self).wf(),
            old(self)@.live(node),
            old(self)@.window_lockable(node),
            old(self)@.cfg.swa(),
        ensures
            final(self).wf(),
            (final(self)@, final(out)@) == old(self)@.swa_locked(node, lock_host, old(out)@),
    {
        let ghost st = self@;
        let ghost o = out@;
        let up = self.up(node);
        proof {
            self.lemma_wf();
        }
        let window = self.config().sliding_window_size as i128;
        let mut size: i128 = 0;
        let mut mark: Option<i64> = None;
        let mut k: usize = 0;
        while k < up.len()
            invariant
                self.wf(),
                st.wf(),
                st.window_lockable(node),
                window == st.cfg.sliding_window_size,
                up@ == st.shape.up(node),
                up@.no_duplicates(),
                forall|j: int| 0 <= j < up@.len() ==> st.inner(#[trigger] up@[j]),
                k <= up@.len(),
                0 <= size <= window + usize::MAX,
                size >= window ==> size <= window + usize::MAX,
                ({
                    let h = st.swa_held(up@, k as int, lock_host, o);
                    self@ == h.st && size == h.size && mark == h.mark && out@ == h.out
                }),
            decreases up@.len() - k,
        {
            let x = up[k];
            proof {
                assert forall|j: int| 0 <= j < up@.len() implies (#[trigger] up@[j]) < st.nodes.len() && st.nodes[up@[j] as int].arity() by {
                    assert(st.inner(up@[j]));
                    assert(st.node_ok(up@[j] as int));
                }
                lemma_swa_held(st, up@, k as int, lock_host, o);
                assert(st.inner(up@[k as int]));
                assert(has_swa_room(st.nodes[st.shape.up(node)[k as int] as int]));
                self.lemma_wf();
            }
            if size < window {
                let present = if lock_host {
                    self.node_by_id(x).host_value[1].is_some()
                } else {
                    self.node_by_id(x).value[1].is_some()
                };
                if !present {
                    out.add_skip(CT_SWA, x);
                } else {
                    let n = self.swa_hold_one(x, lock_host);
                    size = size + n as i128;
                    if size >= window {
                        mark = self.swa_mark(x, lock_host);
                    }
                }
            }
            k += 1;
        }
        if lock_host {
            out.swa_uuid_for_host_lock = mark;
        } else {
            out.swa_uuid_for_lock = mark;
        }
    }

    /// The release of a window lock on the path of `node`.
    fn swa_release_lock(&mut self, node: NodeId, skip: &[u32], mark: Option<i64>, lock_host: bool)
        requires
            old(self).wf(),
            old(self)@.live(node),
        ensures
            final(self).wf(),
            ({
                let up = old(self)@.shape.up(node);
                final(self)@ == old(self)@.swa_freed(up, up.len() as int, lock_host, skip@, mark).0
            }),
    {
        let ghost st = self@;
        let up = self.up(node);
        proof {
            self.lemma_wf();
        }
        let mut going = true;
        let mut k: usize = 0;
        while k < up.len()
            invariant
                self.wf(),
                st.wf(),
                up@ == st.shape.up(node),
                up@.no_duplicates(),
                forall|j: int| 0 <= j < up@.len() ==> st.inner(#[trigger] up@[j]),
                k <= up@.len(),
                (self@, going) == st.swa_freed(up@, k as int, lock_host, skip@, mark),
            decreases up@.len() - k,
        {
            let x = up[k];
            proof {
                assert forall|j: int| 0 <= j < up@.len() implies (#[trigger] up@[j]) < st.nodes.len() && st.nodes[up@[j] as int].arity() by {
                    assert(st.inner(up@[j]));
                    assert(st.node_ok(up@[j] as int));
                }
                lemma_swa_freed(st, up@, k as int, lock_host, skip@, mark);
                assert(st.inner(up@[k as int]));
                self.lemma_wf();
                assert(self@.node_ok(x as int));
            }
            let held = if lock_host {
                self.node_by_id(x).host_lock_ref[1]
            } else {
                self.node_by_id(x).lock_ref[1]
            };
            if going && !holds(skip, x) && held != 0 {
                let own = if lock_host {
                    self.node_by_id(x).swa_host_uuid
                } else {
                    self.node_by_id(x).swa_uuid
                };
                if lock_host {
                    self.free_host(x, 1);
                } else {
                    self.set_lock(x, 1, held - 1);
                }
                if mark.is_some() && own == mark {
                    going = false;
                }
            }
            k += 1;
        }
    }

    /// A lock on the state of `node`.
    fn mamba_acquire_lock(&mut self, node: NodeId, out: &mut UIncLockResult, lock_host: bool)
        requires
            old(self).wf(),
            old(self)@.live(node),
            node != ROOT ==> old(self)@.nodes[node as int].lock[2] < i32::MAX,
            node != ROOT ==> old(self)@.nodes[node as int].host_lock[2] < i32::MAX,
        ensures
            final(self).wf(),
            (final(self)@, final(out)@) == old(self)@.mamba_locked(node, lock_host, old(out)@),
    {
        if node == ROOT {
            return ;
        }
        proof {
            self.lemma_wf();
            assert(self@.node_ok(node as int));
        }
        if lock_host {
            if self.node_by_id(node).host_value[2].is_none() {
                out.add_skip(CT_MAMBA, node);
            } else {
                self.hold_host(node, 2);
            }
        } else {
            if self.node_by_id(node).value[2].is_none() {
                out.add_skip(CT_MAMBA, node);
            } else {
                let n = self.node_by_id(node).lock_ref[2];
                self.set_lock(node, 2, n + 1);
            }
        }
    }

    /// The release of a lock on the state of `node`.
    fn mamba_release_lock(&mut self, node: NodeId, skip: &[u32], lock_host: bool)
        requires
            old(self).wf(),
            old(self)@.live(node),
            lock_host && node != ROOT && !skip@.contains(node) ==> old(self)@.nodes[node as int].host_lock[2] > 0,
        ensures
            final(self).wf(),
            final(self)@ == old(self)@.mamba_freed(node, lock_host, skip@),
    {
        if node == ROOT || holds(skip, node) {
            return ;
        }
        proof {
            self.lemma_wf();
            assert(self@.node_ok(node as int));
        }
        if lock_host {
            self.free_host(node, 2);
        } else {
            let n = self.node_by_id(node).lock_ref[2];
            if n > 0 {
                self.set_lock(node, 2, n - 1);
            }
        }
    }
}

/// The path of a node below the root begins with it.
pub proof fn lemma_up_first(st: UState, node: NodeId)
    requires
        st.built(),
        st.live(node),
    ensures
        node != ROOT ==> st.shape.up(node).len() > 0 && st.shape.up(node)[0] == node,
        node == ROOT ==> st.shape.up(node).len() == 0,
        st.shape.up(node).no_duplicates(),
        forall|j: int|
            0 <= j < st.shape.up(node).len() ==> {
                let x = #[trigger] st.shape.up(node)[j];
                x < st.nodes.len() && st.nodes[x as int].arity() && st.inner(x)
            },
{
    topo::lemma_up(st.shape, node);
    matching::lemma_up_live(st, node);
    assert forall|j: int| 0 <= j < st.shape.up(node).len() implies {
        let x = #[trigger] st.shape.up(node)[j];
        x < st.nodes.len() && st.nodes[x as int].arity() && st.inner(x)
    } by {
        let x = st.shape.up(node)[j];
        assert(st.inner(x));
        assert(st.node_ok(x as int));
    }
}

impl UnifiedRadixTree {
    /// Locks `node` on the device in all components but those to skip.
    pub fn inc_lock_ref(&mut self, node: NodeId, skip_lock_components: &[u8]) -> (r: UIncLockResult)
        requires
            old(self).wf(),
            old(self)@.live(node),
            old(self)@.lockable(node),
        ensures
            final(self).wf(),
            (final(self)@, r@) == old(self)@.locked(node, skip_lock_components@),
    {
        let ghost st = self@;
        let mut out = UIncLockResult::default();
        let cfg = self.config();
        proof {
            self.lemma_wf();
            lemma_up_first(st, node);
        }
        let ghost up = st.shape.up(node);
        if holds_ct(skip_lock_components, CT_FULL) {
            if node != ROOT {
                out.add_skip(CT_FULL, node);
            }
        } else {
            self.full_acquire_lock(node, &mut out);
            proof {
                lemma_full_held(st, up, up.len() as int, Locked::none());
            }
        }
        let ghost a = self@;
        let ghost oa = out@;
        proof {
            assert forall|k: int| 0 <= k < a.shape.up(node).len() implies has_swa_room(
                a.nodes[(#[trigger] a.shape.up(node)[k]) as int],
            ) by {
                assert(has_room(st.nodes[up[k] as int]));
                let n = a.nodes[up[k] as int];
            }
        }
        if cfg.has_swa() {
            if holds_ct(skip_lock_components, CT_SWA) {
                if node != ROOT {
                    out.add_skip(CT_SWA, node);
                }
            } else {
                self.swa_acquire_lock(node, &mut out, false);
                proof {
                    self.lemma_wf();
                    assert forall|j: int| 0 <= j < up.len() implies (#[trigger] up[j]) < a.nodes.len() && a.nodes[up[j] as int].arity() by {
                        assert(st.nodes[up[j] as int].arity());
                    }
                    lemma_swa_held(a, up, up.len() as int, false, oa);
                }
            }
        }
        if cfg.has_mamba() {
            if holds_ct(skip_lock_components, CT_MAMBA) {
                if node != ROOT {
                    out.add_skip(CT_MAMBA, node);
                }
            } else {
                proof {
                    if node != ROOT {
                        assert(has_room(st.nodes[up[0] as int]));
                        assert(a.nodes[up[0] as int].lock[2] == st.nodes[up[0] as int].lock[2]);
                        assert(self@.nodes[up[0] as int].lock[2] == a.nodes[up[0] as int].lock[2]);
                    }
                }
                self.mamba_acquire_lock(node, &mut out, false);
            }
        }
        out
    }

    /// Releases a device lock on `node`.
    pub fn dec_lock_ref(&mut self, node: NodeId, params: &UDecLockParams, skip_swa: bool)
        requires
            old(self).wf(),
            old(self)@.live(node),
            old(self)@.unlockable(node, unified::ids_for(params.skips(), CT_FULL)),
        ensures
            final(self).wf(),
            final(self)@ == old(self)@.unlocked(node, params.skips(), params.swa_uuid_for_lock, skip_swa),
    {
        let ghost st = self@;
        let cfg = self.config();
        proof {
            self.lemma_wf();
            lemma_up_first(st, node);
        }
        let ghost up = st.shape.up(node);
        self.full_release_lock(node, params.skip_ids(CT_FULL));
        proof {
            lemma_full_freed(st, up, up.len() as int, unified::ids_for(params.skips(), CT_FULL));
        }
        let ghost a = self@;
        proof {
            self.lemma_wf();
            assert forall|j: int| 0 <= j < up.len() implies (#[trigger] up[j]) < a.nodes.len() && a.nodes[up[j] as int].arity() by {
                assert(st.inner(up[j]));
                assert(a.node_ok(up[j] as int));
            }
        }
        if cfg.has_swa() && !skip_swa {
            self.swa_release_lock(node, params.skip_ids(CT_SWA), params.swa_uuid_for_lock, false);
            proof {
                lemma_swa_freed(
                    a,
                    up,
                    up.len() as int,
                    false,
                    unified::ids_for(params.skips(), CT_SWA),
                    params.swa_uuid_for_lock,
                );
            }
        }
        if cfg.has_mamba() {
            self.mamba_release_lock(node, params.skip_ids(CT_MAMBA), false);
        }
    }

    /// Locks `node` on the host in all components.
    pub fn inc_host_lock_ref(&mut self, node: NodeId) -> (r: UIncLockResult)
        requires
            old(self).wf(),
            old(self)@.live(node),
            old(self)@.lockable(node),
        ensures
            final(self).wf(),
            (final(self)@, r@) == old(self)@.host_locked(node),
    {
        let ghost st = self@;
        let mut out = UIncLockResult::default();
        let cfg = self.config();
        proof {
            self.lemma_wf();
            lemma_up_first(st, node);
            assert(st.root_ok());
        }
        let ghost up = st.shape.up(node);
        self.full_acquire_host_lock(node);
        let ghost a = self@;
        proof {
            self.lemma_wf();
            assert forall|k: int| 0 <= k < a.shape.up(node).len() implies has_swa_room(
                a.nodes[(#[trigger] a.shape.up(node)[k]) as int],
            ) by {
                assert(has_room(st.nodes[up[k] as int]));
                assert(st.nodes[up[k] as int].arity());
            }
            assert forall|j: int| 0 <= j < up.len() implies (#[trigger] up[j]) < a.nodes.len() && a.nodes[up[j] as int].arity() by {
                assert(st.nodes[up[j] as int].arity());
            }
        }
        if cfg.has_swa() {
            self.swa_acquire_lock(node, &mut out, true);
            proof {
                lemma_swa_held(a, up, up.len() as int, true, Locked::none());
            }
        }
        if cfg.has_mamba() {
            proof {
                if node != ROOT {
                    assert(has_room(st.nodes[up[0] as int]));
                    assert(st.nodes[up[0] as int].arity());
                    assert(self@.nodes[up[0] as int].host_lock[2] == a.nodes[up[0] as int].host_lock[2]);
                    assert(self@.nodes[up[0] as int].lock[2] == a.nodes[up[0] as int].lock[2]);
                }
            }
            self.mamba_acquire_lock(node, &mut out, true);
        }
        out
    }

    /// Releases a host lock on `node`.
    pub fn dec_host_lock_ref(&mut self, node: NodeId, params: &UDecLockParams)
        requires
            old(self).wf(),
            old(self)@.live(node),
            old(self)@.cfg.mamba() && node != ROOT && !unified::ids_for(params.skips(), CT_MAMBA).contains(node)
                ==> old(self)@.nodes[node as int].host_lock[2] > 0,
        ensures
            final(self).wf(),
            final(self)@ == old(self)@.host_unlocked(node, params.skips(), params.swa_uuid_for_host_lock),
    {
        let ghost st = self@;
        let cfg = self.config();
        proof {
            self.lemma_wf();
            lemma_up_first(st, node);
            assert(st.root_ok());
        }
        let ghost up = st.shape.up(node);
        self.full_release_host_lock(node);
        let ghost a = self@;
        proof {
            assert forall|j: int| 0 <= j < up.len() implies (#[trigger] up[j]) < a.nodes.len() && a.nodes[up[j] as int].arity() by {
                assert(st.nodes[up[j] as int].arity());
            }
        }
        if cfg.has_swa() {
            self.swa_release_lock(node, params.skip_ids(CT_SWA), params.swa_uuid_for_host_lock, true);
            proof {
                lemma_swa_freed(
                    a,
                    up,
                    up.len() as int,
                    true,
                    unified::ids_for(params.skips(), CT_SWA),
                    params.swa_uuid_for_host_lock,
                );
            }
        }
        if cfg.has_mamba() {
            proof {
                if node != ROOT {
                    assert(up[0] == node);
                    assert(st.nodes[up[0] as int].arity());
                    assert(self@.nodes[up[0] as int].host_lock[2] == a.nodes[up[0] as int].host_lock[2]);
                }
            }
            self.mamba_release_lock(node, params.skip_ids(CT_MAMBA), true);
        }
    }
}

/// The release of a window lock on its way up: the tree, what was freed,
/// and whether it goes on.
#[verifier::ext_equal]
pub struct WindowFree {
    pub st: UState,
    pub freed: Freed,
    pub going: bool,
}

impl UState {
    /// The release of a window lock alone over the first `k` of `up`: a
    /// device leaf that no lock holds any more loses its window slots. The
    /// node that bears `mark` is the last.
    pub open spec fn window_freed(self, up: Seq<NodeId>, k: int, mark: Option<i64>, freed: Freed) -> WindowFree
        decreases k,
    {
        if k <= 0 {
            WindowFree { st: self, freed, going: true }
        } else {
            let w = self.window_freed(up, k - 1, mark, freed);
            let x = up[k - 1];
            let n = w.st.nodes[x as int];
            if !w.going {
                w
            } else {
                let going = !(mark is Some && n.mark == mark);
                if n.value[1] is None || n.lock[1] == 0 {
                    WindowFree { going, ..w }
                } else {
                    let a = w.st.patched(x, n.with_lock(1, (n.lock[1] - 1) as i32));
                    if n.lock[1] == 1 && a.device_leaf(x) {
                        WindowFree {
                            st: a.dropped(x, 1),
                            freed: w.freed.with_device(CT_SWA, n.value[0]->0),
                            going,
                        }
                    } else {
                        WindowFree { st: a, freed: w.freed, going }
                    }
                }
            }
        }
    }

    /// The early release of the window lock on `node`, and of its state's
    /// lock along with it.
    pub open spec fn window_unlocked(
        self,
        node: NodeId,
        mark: Option<i64>,
        skips: Seq<(u8, Seq<NodeId>)>,
    ) -> (UState, Freed) {
        if !self.cfg.swa() {
            (self, Freed::none())
        } else {
            let up = self.shape.up(node);
            let w = self.window_freed(up, up.len() as int, mark, Freed::none());
            (if self.cfg.mamba() {
                w.st.mamba_freed(node, false, unified::ids_for(skips, CT_MAMBA))
            } else {
                w.st
            }, w.freed)
        }
    }
}

/// The early release of a window lock keeps the shape.
proof fn lemma_window_freed(st: UState, up: Seq<NodeId>, k: int, mark: Option<i64>, freed: Freed)
    requires
        0 <= k <= up.len(),
        forall|j: int| 0 <= j < up.len() ==> (#[trigger] up[j]) < st.nodes.len(),
    ensures
        st.window_freed(up, k, mark, freed).st.shape == st.shape,
        st.window_freed(up, k, mark, freed).st.cfg == st.cfg,
        st.window_freed(up, k, mark, freed).st.nodes.len() == st.nodes.len(),
    decreases k,
{
    if k > 0 {
        lemma_window_freed(st, up, k - 1, mark, freed);
    }
}

impl UnifiedRadixTree {
    /// Releases the window lock on `node` alone, and the lock on its state.
    /// Device leaves that no lock holds any more lose their window slots.
    pub fn dec_swa_lock_only(
        &mut self,
        node: NodeId,
        swa_uuid_for_lock: Option<i64>,
        skip_lock_node_ids: &[(u8, Vec<u32>)],
    ) -> (r: UEvictOutcome)
        requires
            old(self).wf(),
            old(self)@.live(node),
        ensures
            final(self).wf(),
            (final(self)@, r.freed()) == old(self)@.window_unlocked(
                node,
                swa_uuid_for_lock,
                unified::comp_ids(skip_lock_node_ids@),
            ),
            !r.is_dropped,
            r.backup_kv is None,
    {
        let ghost st = self@;
        let mut out = UEvictOutcome::default();
        let cfg = self.config();
        if !cfg.has_swa() {
            return out;
        }
        proof {
            self.lemma_wf();
        }
        let up = self.up(node);
        let mut going = true;
        let mut k: usize = 0;
        while k < up.len()
            invariant
                self.wf(),
                st.wf(),
                forall|j: int| 0 <= j < up@.len() ==> st.inner(#[trigger] up@[j]),
                k <= up@.len(),
                !out.is_dropped,
                out.backup_kv is None,
                (WindowFree { st: self@, freed: out.freed(), going }) == st.window_freed(
                    up@,
                    k as int,
                    swa_uuid_for_lock,
                    Freed::none(),
                ),
            decreases up@.len() - k,
        {
            let x = up[k];
            proof {
                assert forall|j: int| 0 <= j < up@.len() implies (#[trigger] up@[j]) < st.nodes.len() by {
                    assert(st.inner(up@[j]));
                }
                lemma_window_freed(st, up@, k as int, swa_uuid_for_lock, Freed::none());
                assert(st.inner(up@[k as int]));
                self.lemma_wf();
                assert(self@.node_ok(x as int));
            }
            if going {
                let own = self.node_by_id(x).swa_uuid;
                let held = self.node_by_id(x).lock_ref[1];
                if self.node_by_id(x).value[1].is_some() && held != 0 {
                    self.set_lock(x, 1, held - 1);
                    if held == 1 && self.is_device_leaf(x) {
                        let full = match seqs::copy_opt(&self.node_by_id(x).value[0]) {
                            Some(v) => v,
                            None => Vec::new(),
                        };
                        self.drop_device(x, 1);
                        out.free_device(CT_SWA, full);
                    }
                }
                if swa_uuid_for_lock.is_some() && own == swa_uuid_for_lock {
                    going = false;
                }
            }
            k += 1;
        }
        proof {
            assert forall|j: int| 0 <= j < up@.len() implies (#[trigger] up@[j]) < st.nodes.len() by {
                assert(st.inner(up@[j]));
            }
            lemma_window_freed(st, up@, up@.len() as int, swa_uuid_for_lock, Freed::none());
        }
        if cfg.has_mamba() {
            let skip = unified::find_ids_in(skip_lock_node_ids, CT_MAMBA);
            self.mamba_release_lock(node, skip, false);
        }
        out
    }
}

} // verus!
