//! The audit of a unified tree: what holds of every tree between two
//! operations, checked node by node.

use crate::seqs;
use crate::topo::{NodeId, ROOT};
use crate::unified;
use crate::unified::findings;
use crate::unified::findings::{
    say, text_around, text_around_three, text_around_two, text_counting, text_differing, text_naming, UGroup,
};
use crate::unified::model::UState;
use crate::unified::tree::UnifiedRadixTree;
use crate::unified::{UConfig, CT_FULL, CT_MAMBA, CT_SWA};
use vstd::prelude::*;
use vstd::string::StringExecFns;

verus! {

/// A report goes on.
proof fn lemma_then(start: Seq<Seq<char>>, a: Seq<Seq<char>>, b: Seq<Seq<char>>)
    ensures
        start + (a + b) == start + a + b,
{
    assert(start + (a + b) =~= start + a + b);
}

/// A report goes on component by component.
proof fn lemma_comps(
    start: Seq<Seq<char>>,
    cfg: UConfig,
    full: Seq<Seq<char>>,
    swa: Seq<Seq<char>>,
    mamba: Seq<Seq<char>>,
)
    ensures
        ({
            let a = start + full;
            let b = if cfg.swa() {
                a + swa
            } else {
                a
            };
            start + findings::of_comps(cfg, full, swa, mamba) == (if cfg.mamba() {
                b + mamba
            } else {
                b
            })
        }),
{
    let a = start + full;
    let b = if cfg.swa() {
        a + swa
    } else {
        a
    };
    let c = if cfg.mamba() {
        b + mamba
    } else {
        b
    };
    assert(start + findings::of_comps(cfg, full, swa, mamba) =~= c);
}

impl UnifiedRadixTree {
    /// Audits the root.
    fn check_root(&self, out: &mut Vec<String>)
        requires
            self.sound(),
        ensures
            unified::texts(final(out)@) == unified::texts(old(out)@) + self@.root_report(),
    {
        let ghost start = unified::texts(out@);
        proof {
            self.lemma_sound();
        }
        let n = self.node_by_id(ROOT);
        assert(n@.value[0] == seqs::opt_run(n.value@[0]));
        if n.value[0].is_none() {
            say(out, "[Root] root missing Full device value".to_owned());
        }
        if n.lock_ref[0] <= 0 {
            say(out, text_around("[Root] root Full lock_ref=", n.lock_ref[0] as i128, ""));
        }
        assert(unified::texts(out@) =~= start + self@.root_report());
    }

    /// Audits what node `x` holds of component `ct` without KV.
    fn check_aux(&self, x: NodeId, ct: u8, out: &mut Vec<String>)
        requires
            self.sound(),
            self@.inner(x),
            ct == 1 || ct == 2,
        ensures
            unified::texts(final(out)@) == unified::texts(old(out)@) + self@.aux_report(x, ct as int),
    {
        let ghost start = unified::texts(out@);
        let cfg = self.config();
        let n = self.node_by_id(x);
        let c = ct as usize;
        proof {
            self.lemma_sound();
            assert(n@.value[0] == seqs::opt_run(n.value@[0]));
            assert(n@.host[0] == seqs::opt_run(n.host_value@[0]));
            assert(n@.value[ct as int] == seqs::opt_run(n.value@[ct as int]));
            assert(n@.host[ct as int] == seqs::opt_run(n.host_value@[ct as int]));
        }
        let kv = n.value[0].is_some();
        if n.value[c].is_some() && !kv {
            say(
                out,
                text_around_two("node ", x as i128, " ct", ct as i128, " device present but Full.value=None"),
            );
        }
        if n.host_value[c].is_some() && n.host_value[0].is_none() && !(cfg.is_write_back && kv) {
            say(
                out,
                text_around_two("node ", x as i128, " ct", ct as i128, " host present but Full.host_value=None"),
            );
        }
        assert(unified::texts(out@) =~= start + self@.aux_report(x, ct as int));
    }

    /// Audits the KV of node `x`.
    fn check_kv(&self, x: NodeId, out: &mut Vec<String>)
        requires
            self.sound(),
            self@.inner(x),
        ensures
            unified::texts(final(out)@) == unified::texts(old(out)@) + self@.kv_report(x),
    {
        let ghost start = unified::texts(out@);
        let cfg = self.config();
        let n = self.node_by_id(x);
        proof {
            self.lemma_sound();
            assert(n@.value[0] == seqs::opt_run(n.value@[0]));
            assert(n@.host[0] == seqs::opt_run(n.host_value@[0]));
        }
        let dev = n.value[0].is_some();
        let host = n.host_value[0].is_some();
        let p = self.topo().parent(x).unwrap();
        let above = self.node_by_id(p);
        proof {
            assert(above@.value[0] == seqs::opt_run(above.value@[0]));
            assert(above@.host[0] == seqs::opt_run(above.host_value@[0]));
        }
        if !dev && !host {
            say(out, text_around("node ", x as i128, " dead: no Full device and no Full host"));
        }
        if p != ROOT && dev && above.value[0].is_none() {
            say(out, text_around_two("node ", x as i128, " device present but parent ", p as i128, " evicted"));
        }
        if p != ROOT && host && above.host_value[0].is_none() && !cfg.is_write_back {
            say(out, text_around_two("node ", x as i128, " backed up but parent ", p as i128, " not backed up"));
        }
        assert(unified::texts(out@) =~= start + self@.kv_report(x));
    }

    /// Audits the locks of node `x` in component `ct`.
    fn check_locks(&self, x: NodeId, ct: u8, out: &mut Vec<String>)
        requires
            self.sound(),
            self@.inner(x),
            ct < 3,
        ensures
            unified::texts(final(out)@) == unified::texts(old(out)@) + self@.lock_report(x, ct as int),
    {
        let ghost start = unified::texts(out@);
        let n = self.node_by_id(x);
        let c = ct as usize;
        proof {
            self.lemma_sound();
            assert(n@.value[ct as int] == seqs::opt_run(n.value@[ct as int]));
        }
        let lock = n.lock_ref[c];
        if lock < 0 {
            say(out, text_around_three("node ", x as i128, " ct", ct as i128, " lock_ref=", lock as i128));
        }
        let host_lock = n.host_lock_ref[c];
        if host_lock < 0 {
            say(out, text_around_three("node ", x as i128, " ct", ct as i128, " host_lock_ref=", host_lock as i128));
        }
        let full = n.lock_ref[0];
        if ct != 0 && full < lock {
            let mut text = text_around_three("node ", x as i128, " full_lock=", full as i128, " < ct", ct as i128);
            let rest = text_around("_lock=", lock as i128, "");
            text.append(rest.as_str());
            say(out, text);
        }
        if n.value[c].is_none() && lock > 0 {
            say(out, text_around_three("node ", x as i128, " ct", ct as i128, " evicted but lock_ref=", lock as i128));
        }
        assert(unified::texts(out@) =~= start + self@.lock_report(x, ct as int));
    }

    /// Audits node `x`.
    fn check_node(&self, x: NodeId, out: &mut Vec<String>)
        requires
            self.sound(),
            self@.inner(x),
        ensures
            unified::texts(final(out)@) == unified::texts(old(out)@) + self@.node_report(x),
    {
        let ghost start = unified::texts(out@);
        let ghost st = self@;
        let ghost none = Seq::<Seq<char>>::empty();
        let cfg = self.config();
        assert(start + none =~= start);
        if cfg.has_swa() {
            self.check_aux(x, CT_SWA, out);
        }
        if cfg.has_mamba() {
            self.check_aux(x, CT_MAMBA, out);
        }
        let ghost aux = findings::of_comps(cfg, none, st.aux_report(x, 1), st.aux_report(x, 2));
        proof {
            lemma_comps(start, cfg, none, st.aux_report(x, 1), st.aux_report(x, 2));
            lemma_then(start, aux, st.kv_report(x));
        }
        self.check_kv(x, out);
        let ghost mid = unified::texts(out@);
        self.check_locks(x, CT_FULL, out);
        if cfg.has_swa() {
            self.check_locks(x, CT_SWA, out);
        }
        if cfg.has_mamba() {
            self.check_locks(x, CT_MAMBA, out);
        }
        proof {
            let locks = findings::of_comps(cfg, st.lock_report(x, 0), st.lock_report(x, 1), st.lock_report(x, 2));
            lemma_comps(mid, cfg, st.lock_report(x, 0), st.lock_report(x, 1), st.lock_report(x, 2));
            lemma_then(start, aux + st.kv_report(x), locks);
        }
    }

    /// Audits the nodes below the root.
    fn check_nodes(&self, out: &mut Vec<String>)
        requires
            self.sound(),
        ensures
            unified::texts(final(out)@) == unified::texts(old(out)@) + self@.nodes_report(self@.nodes.len()),
    {
        let ghost start = unified::texts(out@);
        proof {
            self.lemma_sound();
        }
        let n = self.len();
        let mut x: usize = 0;
        assert(start + self@.nodes_report(0) =~= start);
        while x < n
            invariant
                self.sound(),
                x <= n,
                n == self@.nodes.len(),
                n <= NodeId::MAX,
                unified::texts(out@) == start + self@.nodes_report(x as nat),
            decreases n - x,
        {
            if x as NodeId != ROOT && self.holds_node(x as NodeId) {
                self.check_node(x as NodeId, out);
            }
            x += 1;
            assert(unified::texts(out@) =~= start + self@.nodes_report(x as nat));
        }
    }

    /// Whether `x` belongs to the group.
    fn belongs(&self, g: UGroup, ct: u8, x: NodeId) -> (r: bool)
        requires
            self.sound(),
            ct < 3,
        ensures
            r == self.in_group(g, ct as int, x),
    {
        proof {
            self.lemma_sound();
        }
        let live = self.holds_node(x);
        match g {
            UGroup::DeviceLeafExtra => self.in_set(x, false) && !(live && self.leaf_kinds(x).0),
            UGroup::DeviceLeafMissing => live && self.leaf_kinds(x).0 && !self.in_set(x, false),
            UGroup::DeviceLeafStale => self.in_set(x, false) && !live,
            UGroup::HostLeafExtra => self.in_set(x, true) && !(live && self.leaf_kinds(x).1),
            UGroup::HostLeafMissing => live && self.leaf_kinds(x).1 && !self.in_set(x, true),
            UGroup::HostLeafStale => self.in_set(x, true) && !live,
            UGroup::LeafOnBothSides => self.in_set(x, false) && self.in_set(x, true),
            UGroup::DuplicateMissing => live && self.settled(x) && !self.is_noted(x),
            UGroup::DuplicateGhost => self.is_noted(x) && !live,
            UGroup::DeviceListMissing => self.should_be_listed(ct, x).0 && !self.on_list(ct, 0, x),
            UGroup::DeviceListExtra => (x as usize) < self.len() && self.on_list(ct, 0, x)
                && !self.should_be_listed(ct, x).0,
            UGroup::HostListMissing => self.should_be_listed(ct, x).1 && !self.on_list(ct, 1, x),
            UGroup::HostListExtra => (x as usize) < self.len() && self.on_list(ct, 1, x)
                && !self.should_be_listed(ct, x).1,
            UGroup::OnBothLists => (x as usize) < self.len() && self.on_list(ct, 0, x) && self.on_list(ct, 1, x),
        }
    }

    /// Whether node `x` has KV on both sides and no transfer in flight.
    fn settled(&self, x: NodeId) -> (r: bool)
        requires
            self.sound(),
            self@.live(x),
        ensures
            r == self@.settled_duplicate(x),
    {
        let n = self.node_by_id(x);
        proof {
            self.lemma_sound();
            assert(n@.value[0] == seqs::opt_run(n.value@[0]));
            assert(n@.host[0] == seqs::opt_run(n.host_value@[0]));
        }
        x != ROOT && n.value[0].is_some() && n.host_value[0].is_some() && n.wt_pending.is_none()
            && n.lb_pending.is_none()
    }

    /// Whether `x` belongs on the device list and on the host list of `ct`.
    fn should_be_listed(&self, ct: u8, x: NodeId) -> (r: (bool, bool))
        requires
            self.sound(),
            ct < 3,
        ensures
            r.0 == (self@.inner(x) && self@.nodes[x as int].value[ct as int] is Some),
            r.1 == (self@.inner(x) && self@.nodes[x as int].value[ct as int] is None
                && self@.nodes[x as int].host[ct as int] is Some),
    {
        if x == ROOT || !self.holds_node(x) {
            return (false, false);
        }
        let n = self.node_by_id(x);
        proof {
            self.lemma_sound();
            assert(n@.value[ct as int] == seqs::opt_run(n.value@[ct as int]));
            assert(n@.host[ct as int] == seqs::opt_run(n.host_value@[ct as int]));
        }
        let dev = n.value[ct as usize].is_some();
        (dev, !dev && n.host_value[ct as usize].is_some())
    }

    /// The members of a group.
    fn members(&self, g: UGroup, ct: u8) -> (r: Vec<NodeId>)
        requires
            self.sound(),
            ct < 3,
        ensures
            r@ == self.group(g, ct as int),
    {
        let n = self.id_bound();
        let mut r: Vec<NodeId> = Vec::new();
        let mut x: u64 = 0;
        while x < n
            invariant
                self.sound(),
                ct < 3,
                x <= n <= NodeId::MAX + 1,
                r@ == self.group_below(g, ct as int, x as nat),
            decreases n - x,
        {
            if self.belongs(g, ct, x as NodeId) {
                r.push(x as NodeId);
            }
            x += 1;
        }
        proof {
            self.lemma_sound();
            assert forall|y: NodeId| n <= y implies !#[trigger] self.in_group(g, ct as int, y) by {
                assert(!self.in_leaf_set(y, false) && !self.in_leaf_set(y, true));
                assert(!self@.dups.contains(y));
            }
            self.lemma_none_above(g, ct as int, n as nat, (NodeId::MAX + 1) as nat);
        }
        r
    }

    /// No member above a bound of them adds to a group.
    proof fn lemma_none_above(&self, g: UGroup, ct: int, lo: nat, hi: nat)
        requires
            lo <= hi <= NodeId::MAX + 1,
            forall|y: NodeId| lo <= y ==> !#[trigger] self.in_group(g, ct, y),
        ensures
            self.group_below(g, ct, hi) == self.group_below(g, ct, lo),
        decreases hi - lo,
    {
        if lo < hi {
            self.lemma_none_above(g, ct, lo, (hi - 1) as nat);
            assert(!self.in_group(g, ct, (hi - 1) as NodeId));
        }
    }

    /// At most five members of a group.
    fn some_members(&self, g: UGroup) -> (r: Vec<NodeId>)
        requires
            self.sound(),
        ensures
            r@ == findings::some_of(self.group(g, 0)),
    {
        let mut r = self.members(g, CT_FULL);
        if r.len() > 5 {
            r.truncate(5);
        }
        r
    }

    /// Audits one group.
    fn check_group(&self, head: &str, g: UGroup, out: &mut Vec<String>)
        requires
            self.sound(),
        ensures
            unified::texts(final(out)@) == unified::texts(old(out)@) + self.group_report(head@, g),
    {
        let ghost start = unified::texts(out@);
        let ids = self.some_members(g);
        if ids.len() > 0 {
            say(out, text_naming(head, &ids));
        }
        assert(unified::texts(out@) =~= start + self.group_report(head@, g));
    }

    /// Audits one group whose members are counted.
    fn check_count(&self, head: &str, tail: &str, g: UGroup, out: &mut Vec<String>)
        requires
            self.sound(),
        ensures
            unified::texts(final(out)@) == unified::texts(old(out)@) + self.count_report(head@, tail@, g),
    {
        let ghost start = unified::texts(out@);
        let ids = self.some_members(g);
        if ids.len() > 0 {
            say(out, text_counting(head, ids.len() as i128, tail, &ids));
        }
        assert(unified::texts(out@) =~= start + self.count_report(head@, tail@, g));
    }

    /// Audits the leaf sets and the duplicates.
    fn check_sets(&self, out: &mut Vec<String>)
        requires
            self.sound(),
        ensures
            unified::texts(final(out)@) == unified::texts(old(out)@) + self.sets_report(),
    {
        let ghost start = unified::texts(out@);
        self.check_group("D-leaf extra: ", UGroup::DeviceLeafExtra, out);
        self.check_group("D-leaf missing: ", UGroup::DeviceLeafMissing, out);
        self.check_group("H-leaf extra: ", UGroup::HostLeafExtra, out);
        self.check_group("H-leaf missing: ", UGroup::HostLeafMissing, out);
        self.check_group("Duplicate missing: ", UGroup::DuplicateMissing, out);
        self.check_group("Duplicate ghosts: ", UGroup::DuplicateGhost, out);
        self.check_count("[Leaf] ", " in both sets: ", UGroup::LeafOnBothSides, out);
        self.check_count("", " stale nodes in device_leaves: ", UGroup::DeviceLeafStale, out);
        self.check_count("", " stale nodes in host_leaves: ", UGroup::HostLeafStale, out);
        proof {
            let r1 = self.group_report("D-leaf extra: "@, UGroup::DeviceLeafExtra);
            let r2 = self.group_report("D-leaf missing: "@, UGroup::DeviceLeafMissing);
            let r3 = self.group_report("H-leaf extra: "@, UGroup::HostLeafExtra);
            let r4 = self.group_report("H-leaf missing: "@, UGroup::HostLeafMissing);
            let r5 = self.group_report("Duplicate missing: "@, UGroup::DuplicateMissing);
            let r6 = self.group_report("Duplicate ghosts: "@, UGroup::DuplicateGhost);
            let r7 = self.count_report("[Leaf] "@, " in both sets: "@, UGroup::LeafOnBothSides);
            let r8 = self.count_report(""@, " stale nodes in device_leaves: "@, UGroup::DeviceLeafStale);
            let r9 = self.count_report(""@, " stale nodes in host_leaves: "@, UGroup::HostLeafStale);
            lemma_then(start, r1, r2);
            lemma_then(start, r1 + r2, r3);
            lemma_then(start, r1 + r2 + r3, r4);
            lemma_then(start, r1 + r2 + r3 + r4, r5);
            lemma_then(start, r1 + r2 + r3 + r4 + r5, r6);
            lemma_then(start, r1 + r2 + r3 + r4 + r5 + r6, r7);
            lemma_then(start, r1 + r2 + r3 + r4 + r5 + r6 + r7, r8);
            lemma_then(start, r1 + r2 + r3 + r4 + r5 + r6 + r7 + r8, r9);
        }
    }

    /// Audits the LRU lists of `ct`.
    fn check_lists(&self, ct: u8, out: &mut Vec<String>)
        requires
            self.sound(),
            ct < 3,
        ensures
            unified::texts(final(out)@) == unified::texts(old(out)@) + self.lists_report(ct as int),
    {
        let ghost start = unified::texts(out@);
        if ct == CT_FULL {
            let dev = self.lru_order(ct, 0).len();
            if dev > 0 {
                say(out, text_around("Full device LRU not empty: ", dev as i128, ""));
            }
            let host = self.lru_order(ct, 1).len();
            if host > 0 {
                say(out, text_around("Full host LRU not empty: ", host as i128, ""));
            }
        } else {
            let dev = self.members(UGroup::DeviceListMissing, ct);
            let dev_over = self.members(UGroup::DeviceListExtra, ct);
            if dev.len() > 0 || dev_over.len() > 0 {
                say(out, text_differing(ct, " device LRU: +tree=", &dev, &dev_over));
            }
            let host = self.members(UGroup::HostListMissing, ct);
            let host_over = self.members(UGroup::HostListExtra, ct);
            if host.len() > 0 || host_over.len() > 0 {
                say(out, text_differing(ct, " host LRU: +S3=", &host, &host_over));
            }
            let both = self.members(UGroup::OnBothLists, ct);
            if both.len() > 0 {
                say(out, text_counting("ct", ct as i128, " in both device and host LRU: ", &both));
            }
        }
        assert(unified::texts(out@) =~= start + self.lists_report(ct as int));
    }

    /// Device tokens of `ct` on the nodes of the tree: unlocked, then locked.
    fn recount(&self, ct: u8) -> (r: (i128, i128))
        requires
            self.sound(),
            ct < 3,
        ensures
            r.0 == self@.live_count(ct as int, false),
            r.1 == self@.live_count(ct as int, true),
            r.0 >= 0,
            r.1 >= 0,
    {
        proof {
            self.lemma_sound();
        }
        let n = self.len();
        let mut free: i128 = 0;
        let mut locked: i128 = 0;
        let mut x: usize = 0;
        let ghost f = |i: int|
            if self@.shape.nodes[i].attached {
                self@.weight(ct as int, false, i)
            } else {
                0
            };
        let ghost g = |i: int|
            if self@.shape.nodes[i].attached {
                self@.weight(ct as int, true, i)
            } else {
                0
            };
        while x < n
            invariant
                self.sound(),
                ct < 3,
                x <= n,
                n == self@.nodes.len(),
                n <= NodeId::MAX,
                f == (|i: int|
                    if self@.shape.nodes[i].attached {
                        self@.weight(ct as int, false, i)
                    } else {
                        0
                    }),
                g == (|i: int|
                    if self@.shape.nodes[i].attached {
                        self@.weight(ct as int, true, i)
                    } else {
                        0
                    }),
                free == seqs::total(f, x as nat),
                locked == seqs::total(g, x as nat),
                0 <= free <= x * usize::MAX,
                0 <= locked <= x * usize::MAX,
            decreases n - x,
        {
            proof {
                assert((x + 1) * usize::MAX == x * usize::MAX + usize::MAX) by (nonlinear_arith);
                assert(x * usize::MAX <= NodeId::MAX * usize::MAX) by (nonlinear_arith)
                    requires
                        x <= NodeId::MAX,
                ;
            }
            if x > 0 && self.holds_node(x as NodeId) {
                let node = self.node_by_id(x as NodeId);
                assert(node@.value[ct as int] == seqs::opt_run(node.value@[ct as int]));
                if let Some(v) = &node.value[ct as usize] {
                    let len = v.len();
                    if node.lock_ref[ct as usize] > 0 {
                        locked += len as i128;
                    } else {
                        free += len as i128;
                    }
                }
            }
            x += 1;
        }
        (free, locked)
    }

    /// Audits the counters of `ct`.
    fn check_sizes(&self, ct: u8, out: &mut Vec<String>)
        requires
            self.sound(),
            ct < 3,
        ensures
            unified::texts(final(out)@) == unified::texts(old(out)@) + self.sizes_report(ct as int),
    {
        let ghost start = unified::texts(out@);
        let (free, locked) = self.recount(ct);
        let (evictable, protected) = self.counters(ct);
        if evictable as i128 != free {
            say(
                out,
                text_around_three("[Size] ct", ct as i128, " evictable=", evictable as i128, " != recomputed=", free),
            );
        }
        if protected as i128 != locked {
            say(
                out,
                text_around_three("[Size] ct", ct as i128, " protected=", protected as i128, " != recomputed=", locked),
            );
        }
        assert(unified::texts(out@) =~= start + self.sizes_report(ct as int));
    }

    /// Audits what each component that the tree has is tracked by.
    fn check_comps(&self, out: &mut Vec<String>)
        requires
            self.sound(),
        ensures
            unified::texts(final(out)@) == unified::texts(old(out)@) + findings::of_comps(
                self@.cfg,
                self.lists_report(0),
                self.lists_report(1),
                self.lists_report(2),
            ) + findings::of_comps(self@.cfg, self.sizes_report(0), self.sizes_report(1), self.sizes_report(2)),
    {
        let ghost start = unified::texts(out@);
        let cfg = self.config();
        self.check_lists(CT_FULL, out);
        if cfg.has_swa() {
            self.check_lists(CT_SWA, out);
        }
        if cfg.has_mamba() {
            self.check_lists(CT_MAMBA, out);
        }
        let ghost mid = unified::texts(out@);
        proof {
            lemma_comps(start, cfg, self.lists_report(0), self.lists_report(1), self.lists_report(2));
        }
        self.check_sizes(CT_FULL, out);
        if cfg.has_swa() {
            self.check_sizes(CT_SWA, out);
        }
        if cfg.has_mamba() {
            self.check_sizes(CT_MAMBA, out);
        }
        proof {
            lemma_comps(mid, cfg, self.sizes_report(0), self.sizes_report(1), self.sizes_report(2));
        }
    }

    /// Audits transfers in flight.
    fn check_transfers(&self, head: &str, list: &[(i64, u32)], out: &mut Vec<String>)
        requires
            self.sound(),
        ensures
            unified::texts(final(out)@) == unified::texts(old(out)@) + self.transfers_report(head@, list@),
    {
        let ghost start = unified::texts(out@);
        let mut k: usize = 0;
        assert(start + self.transfers_report(head@, list@.take(0)) =~= start);
        while k < list.len()
            invariant
                self.sound(),
                k <= list@.len(),
                unified::texts(out@) == start + self.transfers_report(head@, list@.take(k as int)),
            decreases list@.len() - k,
        {
            let (id, x) = list[k];
            proof {
                self.lemma_sound();
                assert(list@.take(k + 1).drop_last() =~= list@.take(k as int));
                assert(list@.take(k + 1).last() == list@[k as int]);
            }
            let ghost before = self.transfers_report(head@, list@.take(k as int));
            if self.holds_node(x) {
                let lock = self.node_by_id(x).lock_ref[0];
                if lock <= 0 {
                    say(out, text_around_two(head, id as i128, " lock_ref=", lock as i128, ""));
                }
            } else {
                say(out, text_around(head, id as i128, " not in tree"));
            }
            assert(unified::texts(out@) =~= start + (before + self.transfer_report(head@, id, x)));
            k += 1;
        }
        assert(list@.take(k as int) =~= list@);
    }

    /// Audits the nodes that wait for load-backs.
    fn check_waits(&self, list: &[(i64, u32)], out: &mut Vec<String>)
        requires
            self.sound(),
        ensures
            unified::texts(final(out)@) == unified::texts(old(out)@) + self.waits_report(self@.nodes.len(), list@),
    {
        let ghost start = unified::texts(out@);
        proof {
            self.lemma_sound();
        }
        let n = self.len();
        let mut x: usize = 0;
        assert(start + self.waits_report(0, list@) =~= start);
        while x < n
            invariant
                self.sound(),
                x <= n,
                n == self@.nodes.len(),
                n <= NodeId::MAX,
                unified::texts(out@) == start + self.waits_report(x as nat, list@),
            decreases n - x,
        {
            let ghost before = self.waits_report(x as nat, list@);
            if let Some(a) = self.node_by_id(x as NodeId).lb_pending {
                if self.holds_node(x as NodeId) && !in_flight(a, list) {
                    say(
                        out,
                        text_around_two(
                            "[Ongoing] node ",
                            x as i128,
                            " load_back_pending_id=",
                            a as i128,
                            " has no live load-back",
                        ),
                    );
                }
            }
            assert(unified::texts(out@) =~= start + (before + self.wait_report(x as NodeId, list@)));
            x += 1;
        }
    }

    /// Audits the tree, with the write-throughs and load-backs in flight as
    /// pairs of transfer id and node: a message for each finding, none if
    /// the tree is sound.
    pub fn sanity_check(&self, ongoing_write_through: &[(i64, u32)], ongoing_load_back: &[(i64, u32)]) -> (r: Vec<String>)
        requires
            self.sound(),
        ensures
            unified::texts(r@) == self.report(ongoing_write_through@, ongoing_load_back@),
    {
        sanity_check(self, ongoing_write_through, ongoing_load_back)
    }
}

/// Whether the anchor `id` has a load-back in flight.
fn in_flight(id: u32, list: &[(i64, u32)]) -> (r: bool)
    ensures
        r == UnifiedRadixTree::loading(id as int, list@),
{
    let mut k: usize = 0;
    while k < list.len()
        invariant
            k <= list@.len(),
            forall|j: int| 0 <= j < k ==> (#[trigger] list@[j]).1 != id,
        decreases list@.len() - k,
    {
        if list[k].1 == id {
            assert(list@[k as int].1 == id);
            return true;
        }
        k += 1;
    }
    false
}

/// Audits `t`, with the write-throughs and load-backs in flight as pairs of
/// transfer id and node: a message for each finding, none if the tree is
/// sound.
pub fn sanity_check(
    t: &UnifiedRadixTree,
    ongoing_write_through: &[(i64, u32)],
    ongoing_load_back: &[(i64, u32)],
) -> (r: Vec<String>)
    requires
        t.sound(),
    ensures
        unified::texts(r@) == t.report(ongoing_write_through@, ongoing_load_back@),
{
    let mut out: Vec<String> = Vec::new();
    t.check_root(&mut out);
    t.check_nodes(&mut out);
    t.check_sets(&mut out);
    t.check_comps(&mut out);
    t.check_transfers("[Ongoing] write_through node ", ongoing_write_through, &mut out);
    t.check_transfers("[Ongoing] load_back node ", ongoing_load_back, &mut out);
    t.check_waits(ongoing_load_back, &mut out);
    assert(unified::texts(out@) =~= t.report(ongoing_write_through@, ongoing_load_back@));
    out
}

// ---- between two operations ----

impl UState {
    /// Component `ct` of node `x` as it is while the caller has nothing in
    /// flight there: no more locks than KV, backed up no earlier than KV, and
    /// not locked where it is on the host alone.
    pub open spec fn aux_at_rest(self, x: NodeId, ct: int) -> bool {
        let n = self.nodes[x as int];
        &&& n.lock[ct] <= n.lock[0]
        &&& n.host[ct] is Some ==> n.host[0] is Some || (self.cfg.is_write_back && n.value[0] is Some)
        &&& n.value[ct] is None && n.host[ct] is Some ==> n.host_lock[ct] == 0
    }

    /// Node `x` as it is while the caller has nothing in flight there: backed
    /// up no earlier than its parent, and noted if it is a settled duplicate.
    pub open spec fn at_rest(self, x: NodeId) -> bool {
        let n = self.nodes[x as int];
        let p = self.shape.nodes[x as int].parent;
        &&& p != ROOT && n.host[0] is Some && !self.cfg.is_write_back ==> self.nodes[p as int].host[0] is Some
        &&& self.settled_duplicate(x) ==> self.dups.contains(x)
        &&& self.cfg.swa() ==> self.aux_at_rest(x, 1)
        &&& self.cfg.mamba() ==> self.aux_at_rest(x, 2)
    }

    /// The transfer is for a locked node of the tree.
    pub open spec fn carried(self, e: (i64, u32)) -> bool {
        self.live(e.1) && self.nodes[e.1 as int].lock[0] > 0
    }

    /// If node `x` waits for a load-back, one of `lb` is that.
    pub open spec fn awaited(self, x: NodeId, lb: Seq<(i64, u32)>) -> bool {
        self.nodes[x as int].lb matches Some(a) ==> UnifiedRadixTree::loading(a as int, lb)
    }

    /// All nodes are at rest, and the transfers in flight are for locked
    /// nodes of the tree, one for each node that waits for a load-back.
    pub open spec fn calm(self, wt: Seq<(i64, u32)>, lb: Seq<(i64, u32)>) -> bool {
        &&& forall|x: NodeId| #[trigger] self.inner(x) ==> self.at_rest(x)
        &&& forall|k: int| 0 <= k < wt.len() ==> self.carried(#[trigger] wt[k])
        &&& forall|k: int| 0 <= k < lb.len() ==> self.carried(#[trigger] lb[k])
        &&& forall|x: NodeId| #[trigger] self.live(x) ==> self.awaited(x, lb)
    }

    proof fn lemma_no_nodes(self, n: nat)
        requires
            forall|x: NodeId| #[trigger] self.inner(x) ==> self.node_report(x) == Seq::<Seq<char>>::empty(),
        ensures
            self.nodes_report(n) == Seq::<Seq<char>>::empty(),
        decreases n,
    {
        if n > 0 {
            self.lemma_no_nodes((n - 1) as nat);
            assert(self.nodes_report(n) =~= Seq::<Seq<char>>::empty());
        }
    }

    /// A node at rest of a well-formed state gives nothing to report.
    proof fn lemma_no_node(self, x: NodeId)
        requires
            self.wf(),
            self.inner(x),
            self.at_rest(x),
        ensures
            self.node_report(x) == Seq::<Seq<char>>::empty(),
    {
        let none = Seq::<Seq<char>>::empty();
        assert(self.node_ok(x as int));
        assert(self.kv_report(x) =~= none);
        assert(self.lock_report(x, 0) =~= none);
        if self.cfg.swa() {
            assert(self.aux_report(x, 1) =~= none);
            assert(self.lock_report(x, 1) =~= none);
        }
        if self.cfg.mamba() {
            assert(self.aux_report(x, 2) =~= none);
            assert(self.lock_report(x, 2) =~= none);
        }
        assert(self.node_report(x) =~= none);
    }

    /// The tokens on the nodes of a well-formed state are all there are.
    proof fn lemma_live_count(self, ct: int, locked: bool)
        requires
            self.wf(),
            0 <= ct < 3,
        ensures
            self.live_count(ct, locked) == self.count(ct, locked),
    {
        let f = |i: int|
            if self.shape.nodes[i].attached {
                self.weight(ct, locked, i)
            } else {
                0
            };
        let g = |i: int| self.weight(ct, locked, i);
        assert forall|i: int| 0 <= i < self.nodes.len() implies #[trigger] f(i) == g(i) by {
            if i > 0 {
                assert(self.node_ok(i));
            }
        }
        seqs::lemma_total_same(f, g, self.nodes.len());
    }
}

impl UnifiedRadixTree {
    proof fn lemma_no_transfers(&self, head: Seq<char>, list: Seq<(i64, u32)>)
        requires
            forall|k: int| 0 <= k < list.len() ==> self@.carried(#[trigger] list[k]),
        ensures
            self.transfers_report(head, list) == Seq::<Seq<char>>::empty(),
        decreases list.len(),
    {
        if list.len() > 0 {
            assert forall|k: int| 0 <= k < list.len() - 1 implies self@.carried(#[trigger] list.drop_last()[k]) by {
                assert(self@.carried(list[k]));
            }
            self.lemma_no_transfers(head, list.drop_last());
            assert(self@.carried(list[list.len() - 1]));
            assert(self.transfers_report(head, list) =~= Seq::<Seq<char>>::empty());
        }
    }

    proof fn lemma_no_waits(&self, n: nat, lb: Seq<(i64, u32)>)
        requires
            forall|x: NodeId| #[trigger] self@.live(x) ==> self@.awaited(x, lb),
        ensures
            self.waits_report(n, lb) == Seq::<Seq<char>>::empty(),
        decreases n,
    {
        if n > 0 {
            self.lemma_no_waits((n - 1) as nat, lb);
            let x = (n - 1) as NodeId;
            if self@.live(x) {
                assert(self@.awaited(x, lb));
            }
            assert(self.waits_report(n, lb) =~= Seq::<Seq<char>>::empty());
        }
    }
}

/// Between two operations leaf sets and LRU lists name no node that they
/// should not, no device leaf is missing and no node is missing from a device
/// list, no duplicate is a ghost, and all counters are right.
pub proof fn law_tracking_is_right(t: &UnifiedRadixTree, g: UGroup, ct: int)
    requires
        t.wf(),
    ensures
        t@.root_report() == Seq::<Seq<char>>::empty(),
        t.lists_report(0) == Seq::<Seq<char>>::empty(),
        !(g is DuplicateMissing || g is HostListMissing) && 1 <= ct < 3 ==> t.group(g, ct)
            == Seq::<NodeId>::empty(),
        0 <= ct < 3 ==> t.sizes_report(ct) == Seq::<Seq<char>>::empty(),
{
    let st = t@;
    let none = Seq::<Seq<char>>::empty();
    t.lemma_wf();
    t.lemma_counters();
    assert(st.root_report() =~= none);
    assert(t.lists_report(0) =~= none);
    if 0 <= ct < 3 {
        st.lemma_live_count(ct, false);
        st.lemma_live_count(ct, true);
        assert(t.counter(ct, false) == st.count(ct, false));
        assert(t.counter(ct, true) == st.count(ct, true));
        assert(t.sizes_report(ct) =~= none);
    }
    if !(g is DuplicateMissing || g is HostListMissing) && 1 <= ct < 3 {
        assert forall|y: NodeId| 0 <= y implies !#[trigger] t.in_group(g, ct, y) by {
            assert(st.lists_ok(ct, y));
            assert(t.in_leaf_set(y, false) == st.device_leaf(y));
            assert(t.in_leaf_set(y, true) == st.host_leaf(y));
        }
        t.lemma_none_above(g, ct, 0, (NodeId::MAX + 1) as nat);
    }
}

/// The leaf sets and duplicates of a tree at rest give nothing to report.
proof fn lemma_no_sets(t: &UnifiedRadixTree)
    requires
        t.wf(),
        forall|x: NodeId| #[trigger] t@.inner(x) ==> t@.at_rest(x),
    ensures
        t.sets_report() == Seq::<Seq<char>>::empty(),
{
    let st = t@;
    t.lemma_wf();
    t.lemma_counters();
    assert forall|g: UGroup|
        g is DeviceLeafExtra || g is DeviceLeafMissing || g is DeviceLeafStale || g is HostLeafExtra
            || g is HostLeafMissing || g is HostLeafStale || g is LeafOnBothSides || g is DuplicateMissing
            || g is DuplicateGhost implies #[trigger] t.group(g, 0) == Seq::<NodeId>::empty() by {
        assert forall|y: NodeId| 0 <= y implies !#[trigger] t.in_group(g, 0, y) by {
            assert(t.in_leaf_set(y, false) == st.device_leaf(y));
            assert(t.in_leaf_set(y, true) == st.host_leaf(y));
            if st.inner(y) {
                assert(st.at_rest(y));
            }
        }
        t.lemma_none_above(g, 0, 0, (NodeId::MAX + 1) as nat);
    }
    assert(t.sets_report() =~= Seq::<Seq<char>>::empty());
}

/// The LRU lists of a component at rest give nothing to report.
proof fn lemma_no_lists(t: &UnifiedRadixTree, ct: int)
    requires
        t.wf(),
        1 <= ct < 3,
        forall|x: NodeId| #[trigger] t@.inner(x) ==> t@.at_rest(x),
        t@.cfg.active(ct),
    ensures
        t.lists_report(ct) == Seq::<Seq<char>>::empty(),
{
    let st = t@;
    t.lemma_wf();
    assert forall|g: UGroup|
        g is DeviceListMissing || g is DeviceListExtra || g is HostListMissing || g is HostListExtra
            || g is OnBothLists implies #[trigger] t.group(g, ct) == Seq::<NodeId>::empty() by {
        assert forall|y: NodeId| 0 <= y implies !#[trigger] t.in_group(g, ct, y) by {
            assert(st.lists_ok(ct, y));
            if st.inner(y) {
                assert(st.at_rest(y));
            }
        }
        t.lemma_none_above(g, ct, 0, (NodeId::MAX + 1) as nat);
    }
    assert(t.lists_report(ct) =~= Seq::<Seq<char>>::empty());
}

/// Between two operations an audit reports nothing, if the caller has nothing
/// half done: a component or a child backed up ahead of KV or of its parent,
/// a duplicate settled and not noted, a component locked more often than KV,
/// a host lock, or a transfer that is not as the tree has it.
pub proof fn law_audit(t: &UnifiedRadixTree, wt: Seq<(i64, u32)>, lb: Seq<(i64, u32)>)
    requires
        t.wf(),
        t@.calm(wt, lb),
    ensures
        t.report(wt, lb) == Seq::<Seq<char>>::empty(),
{
    let st = t@;
    let none = Seq::<Seq<char>>::empty();
    t.lemma_wf();
    assert forall|x: NodeId| #[trigger] st.inner(x) implies st.node_report(x) == none by {
        st.lemma_no_node(x);
    }
    st.lemma_no_nodes(st.nodes.len());
    assert(t.sets_report() =~= none) by {
        lemma_no_sets(t);
    }
    if st.cfg.swa() {
        lemma_no_lists(t, 1);
    }
    if st.cfg.mamba() {
        lemma_no_lists(t, 2);
    }
    law_tracking_is_right(t, UGroup::OnBothLists, 0);
    law_tracking_is_right(t, UGroup::OnBothLists, 1);
    law_tracking_is_right(t, UGroup::OnBothLists, 2);
    t.lemma_no_transfers("[Ongoing] write_through node "@, wt);
    t.lemma_no_transfers("[Ongoing] load_back node "@, lb);
    t.lemma_no_waits(st.nodes.len(), lb);
    assert(t.report(wt, lb) =~= none);
}

} // verus!
