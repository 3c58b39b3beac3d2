//! What an audit of a unified tree reports, message by message.
//!
//! A report goes from the root over the nodes, the leaf sets, the duplicates
//! and the LRU lists to the counters and the transfers in flight. Nodes are
//! named in the order of their ids.

use crate::render;
use crate::render::{append_decimal, append_list};
use crate::seqs;
use crate::topo::{NodeId, ROOT};
use crate::unified;
use crate::unified::model::UState;
use crate::unified::tree::UnifiedRadixTree;
use crate::unified::UConfig;
use vstd::prelude::*;
use vstd::string::StringExecFns;

verus! {

// ---- texts ----

/// `head`, then `n` in decimal, then `tail`.
pub open spec fn around(head: Seq<char>, n: int, tail: Seq<char>) -> Seq<char> {
    head + render::decimal(n) + tail
}

/// The same as a string.
pub(crate) fn text_around(head: &str, n: i128, tail: &str) -> (r: String)
    requires
        n > i128::MIN,
    ensures
        r@ == around(head@, n as int, tail@),
{
    let mut out = String::new();
    out.append(head);
    append_decimal(&mut out, n);
    out.append(tail);
    assert(out@ =~= around(head@, n as int, tail@));
    out
}

/// Two numbers with text around them.
pub open spec fn around_two(head: Seq<char>, n: int, mid: Seq<char>, m: int, tail: Seq<char>) -> Seq<char> {
    around(head, n, mid) + render::decimal(m) + tail
}

/// The same as a string.
pub(crate) fn text_around_two(head: &str, n: i128, mid: &str, m: i128, tail: &str) -> (r: String)
    requires
        n > i128::MIN,
        m > i128::MIN,
    ensures
        r@ == around_two(head@, n as int, mid@, m as int, tail@),
{
    let mut out = text_around(head, n, mid);
    append_decimal(&mut out, m);
    out.append(tail);
    out
}

/// Three numbers with text before each.
pub open spec fn around_three(
    head: Seq<char>,
    n: int,
    mid: Seq<char>,
    m: int,
    last: Seq<char>,
    k: int,
) -> Seq<char> {
    around_two(head, n, mid, m, last) + render::decimal(k)
}

/// The same as a string.
pub(crate) fn text_around_three(head: &str, n: i128, mid: &str, m: i128, last: &str, k: i128) -> (r: String)
    requires
        n > i128::MIN,
        m > i128::MIN,
        k > i128::MIN,
    ensures
        r@ == around_three(head@, n as int, mid@, m as int, last@, k as int),
{
    let mut out = text_around_two(head, n, mid, m, last);
    append_decimal(&mut out, k);
    out
}

/// Node ids in square brackets.
pub open spec fn id_list(ids: Seq<NodeId>) -> Seq<char> {
    "["@ + render::listed(Seq::new(ids.len(), |i: int| ids[i] as i64)) + "]"@
}

/// Adds node ids in square brackets.
fn append_ids(out: &mut String, ids: &Vec<NodeId>)
    ensures
        final(out)@ == old(out)@ + id_list(ids@),
{
    let ghost before = out@;
    let mut items: Vec<i64> = Vec::new();
    let mut k: usize = 0;
    while k < ids.len()
        invariant
            k <= ids@.len(),
            items@ == Seq::new(k as nat, |i: int| ids@[i] as i64),
        decreases ids@.len() - k,
    {
        items.push(ids[k] as i64);
        k += 1;
        assert(items@ =~= Seq::new(k as nat, |i: int| ids@[i] as i64));
    }
    out.append("[");
    append_list(out, items.as_slice());
    out.append("]");
    assert(out@ =~= before + id_list(ids@));
}

/// `head`, then node ids in square brackets.
pub open spec fn naming(head: Seq<char>, ids: Seq<NodeId>) -> Seq<char> {
    head + id_list(ids)
}

/// The same as a string.
pub(crate) fn text_naming(head: &str, ids: &Vec<NodeId>) -> (r: String)
    ensures
        r@ == naming(head@, ids@),
{
    let mut out = String::new();
    out.append(head);
    append_ids(&mut out, ids);
    assert(out@ =~= naming(head@, ids@));
    out
}

/// `n` between two texts, then node ids in square brackets.
pub(crate) fn text_counting(head: &str, n: i128, tail: &str, ids: &Vec<NodeId>) -> (r: String)
    requires
        n > i128::MIN,
    ensures
        r@ == naming(around(head@, n as int, tail@), ids@),
{
    let mut out = text_around(head, n, tail);
    append_ids(&mut out, ids);
    out
}

/// What a list of component `ct` lacks and what it has too much.
pub open spec fn differing(
    ct: int,
    head: Seq<char>,
    lacks: Seq<NodeId>,
    over: Seq<NodeId>,
) -> Seq<char> {
    naming(naming(around("ct"@, ct, head), lacks) + ", +lru="@, over)
}

/// The same as a string.
pub(crate) fn text_differing(ct: u8, head: &str, lacks: &Vec<NodeId>, over: &Vec<NodeId>) -> (r: String)
    ensures
        r@ == differing(ct as int, head@, lacks@, over@),
{
    let mut out = text_counting("ct", ct as i128, head, lacks);
    out.append(", +lru=");
    append_ids(&mut out, over);
    out
}

/// `text` if `cond` holds.
pub open spec fn one(cond: bool, text: Seq<char>) -> Seq<Seq<char>> {
    if cond {
        seq![text]
    } else {
        Seq::empty()
    }
}

/// Adds a message.
pub(crate) fn say(out: &mut Vec<String>, text: String)
    ensures
        unified::texts(final(out)@) == unified::texts(old(out)@) + one(true, text@),
{
    let ghost before = unified::texts(out@);
    out.push(text);
    assert(unified::texts(out@) =~= before + one(true, text@));
}

/// The messages on FULL, then those on the other components that a tree has.
pub open spec fn of_comps(
    cfg: UConfig,
    full: Seq<Seq<char>>,
    swa: Seq<Seq<char>>,
    mamba: Seq<Seq<char>>,
) -> Seq<Seq<char>> {
    full + (if cfg.swa() {
        swa
    } else {
        Seq::empty()
    }) + (if cfg.mamba() {
        mamba
    } else {
        Seq::empty()
    })
}

// ---- nodes ----

impl UState {
    /// Locked or unlocked device tokens of component `ct` on the nodes of
    /// the tree.
    pub open spec fn live_count(self, ct: int, locked: bool) -> int {
        seqs::total(
            |i: int|
                if self.shape.nodes[i].attached {
                    self.weight(ct, locked, i)
                } else {
                    0
                },
            self.nodes.len(),
        )
    }

    /// On the root.
    pub open spec fn root_report(self) -> Seq<Seq<char>> {
        let n = self.nodes[0];
        one(n.value[0] is None, "[Root] root missing Full device value"@) + one(
            n.lock[0] <= 0,
            around("[Root] root Full lock_ref="@, n.lock[0] as int, ""@),
        )
    }

    /// On what node `x` holds of component `ct` without KV.
    pub open spec fn aux_report(self, x: NodeId, ct: int) -> Seq<Seq<char>> {
        let n = self.nodes[x as int];
        one(
            n.value[ct] is Some && n.value[0] is None,
            around_two("node "@, x as int, " ct"@, ct, " device present but Full.value=None"@),
        ) + one(
            n.host[ct] is Some && n.host[0] is None && !(self.cfg.is_write_back && n.value[0] is Some),
            around_two("node "@, x as int, " ct"@, ct, " host present but Full.host_value=None"@),
        )
    }

    /// On the KV of node `x` and of its parent.
    pub open spec fn kv_report(self, x: NodeId) -> Seq<Seq<char>> {
        let n = self.nodes[x as int];
        let p = self.shape.nodes[x as int].parent;
        let above = self.nodes[p as int];
        one(
            n.value[0] is None && n.host[0] is None,
            around("node "@, x as int, " dead: no Full device and no Full host"@),
        ) + one(
            p != ROOT && n.value[0] is Some && above.value[0] is None,
            around_two("node "@, x as int, " device present but parent "@, p as int, " evicted"@),
        ) + one(
            p != ROOT && n.host[0] is Some && above.host[0] is None && !self.cfg.is_write_back,
            around_two("node "@, x as int, " backed up but parent "@, p as int, " not backed up"@),
        )
    }

    /// On the locks of node `x` in component `ct`.
    pub open spec fn lock_report(self, x: NodeId, ct: int) -> Seq<Seq<char>> {
        let n = self.nodes[x as int];
        one(
            n.lock[ct] < 0,
            around_three("node "@, x as int, " ct"@, ct, " lock_ref="@, n.lock[ct] as int),
        ) + one(
            n.host_lock[ct] < 0,
            around_three("node "@, x as int, " ct"@, ct, " host_lock_ref="@, n.host_lock[ct] as int),
        ) + one(
            ct != 0 && n.lock[0] < n.lock[ct],
            around_three("node "@, x as int, " full_lock="@, n.lock[0] as int, " < ct"@, ct) + around(
                "_lock="@,
                n.lock[ct] as int,
                ""@,
            ),
        ) + one(
            n.value[ct] is None && n.lock[ct] > 0,
            around_three("node "@, x as int, " ct"@, ct, " evicted but lock_ref="@, n.lock[ct] as int),
        )
    }

    /// On node `x`.
    pub open spec fn node_report(self, x: NodeId) -> Seq<Seq<char>> {
        of_comps(self.cfg, Seq::empty(), self.aux_report(x, 1), self.aux_report(x, 2)) + self.kv_report(x)
            + of_comps(self.cfg, self.lock_report(x, 0), self.lock_report(x, 1), self.lock_report(x, 2))
    }

    /// On the nodes below the root with ids below `n`.
    pub open spec fn nodes_report(self, n: nat) -> Seq<Seq<char>>
        decreases n,
    {
        if n == 0 {
            Seq::empty()
        } else {
            let x = (n - 1) as NodeId;
            self.nodes_report((n - 1) as nat) + (if self.inner(x) {
                self.node_report(x)
            } else {
                Seq::empty()
            })
        }
    }
}

// ---- leaf sets, duplicates and lists ----

/// What leaf sets, duplicates and LRU lists can get wrong about a node.
#[derive(Debug, Clone, Copy, PartialEq, Eq, Structural)]
pub enum UGroup {
    DeviceLeafExtra,
    DeviceLeafMissing,
    /// A device leaf that the tree does not have.
    DeviceLeafStale,
    HostLeafExtra,
    HostLeafMissing,
    /// A host leaf that the tree does not have.
    HostLeafStale,
    /// In both leaf sets.
    LeafOnBothSides,
    DuplicateMissing,
    /// A duplicate that the tree does not have.
    DuplicateGhost,
    DeviceListMissing,
    DeviceListExtra,
    HostListMissing,
    HostListExtra,
    OnBothLists,
}

/// At most five of `ids`, the first ones.
pub open spec fn some_of(ids: Seq<NodeId>) -> Seq<NodeId> {
    if ids.len() > 5 {
        ids.take(5)
    } else {
        ids
    }
}

impl UnifiedRadixTree {
    /// Whether `x` belongs to the group, where the group is about lists
    /// those of component `ct`.
    pub open spec fn in_group(&self, g: UGroup, ct: int, x: NodeId) -> bool {
        let st = self@;
        let n = st.nodes[x as int];
        let dev = st.lru[2 * ct].contains(x);
        let host = st.lru[2 * ct + 1].contains(x);
        let on_dev = st.inner(x) && n.value[ct] is Some;
        let on_host = st.inner(x) && n.value[ct] is None && n.host[ct] is Some;
        match g {
            UGroup::DeviceLeafExtra => self.in_leaf_set(x, false) && !st.device_leaf(x),
            UGroup::DeviceLeafMissing => st.device_leaf(x) && !self.in_leaf_set(x, false),
            UGroup::DeviceLeafStale => self.in_leaf_set(x, false) && !st.live(x),
            UGroup::HostLeafExtra => self.in_leaf_set(x, true) && !st.host_leaf(x),
            UGroup::HostLeafMissing => st.host_leaf(x) && !self.in_leaf_set(x, true),
            UGroup::HostLeafStale => self.in_leaf_set(x, true) && !st.live(x),
            UGroup::LeafOnBothSides => self.in_leaf_set(x, false) && self.in_leaf_set(x, true),
            UGroup::DuplicateMissing => st.inner(x) && st.settled_duplicate(x) && !st.dups.contains(x),
            UGroup::DuplicateGhost => st.dups.contains(x) && !st.live(x),
            UGroup::DeviceListMissing => on_dev && !dev,
            UGroup::DeviceListExtra => x < st.nodes.len() && dev && !on_dev,
            UGroup::HostListMissing => on_host && !host,
            UGroup::HostListExtra => x < st.nodes.len() && host && !on_host,
            UGroup::OnBothLists => x < st.nodes.len() && dev && host,
        }
    }

    /// The members of the group with ids below `n`.
    pub open spec fn group_below(&self, g: UGroup, ct: int, n: nat) -> Seq<NodeId>
        decreases n,
    {
        if n == 0 {
            Seq::empty()
        } else {
            let rest = self.group_below(g, ct, (n - 1) as nat);
            if self.in_group(g, ct, (n - 1) as NodeId) {
                rest.push((n - 1) as NodeId)
            } else {
                rest
            }
        }
    }

    /// The members of the group.
    pub open spec fn group(&self, g: UGroup, ct: int) -> Seq<NodeId> {
        self.group_below(g, ct, (NodeId::MAX + 1) as nat)
    }

    /// `head` and at most five members of the group, if it has any.
    pub open spec fn group_report(&self, head: Seq<char>, g: UGroup) -> Seq<Seq<char>> {
        let ids = some_of(self.group(g, 0));
        one(ids.len() > 0, naming(head, ids))
    }

    /// The same with the number of those named between two texts.
    pub open spec fn count_report(&self, head: Seq<char>, tail: Seq<char>, g: UGroup) -> Seq<Seq<char>> {
        let ids = some_of(self.group(g, 0));
        one(ids.len() > 0, naming(around(head, ids.len() as int, tail), ids))
    }

    /// On the leaf sets and the duplicates.
    pub open spec fn sets_report(&self) -> Seq<Seq<char>> {
        self.group_report("D-leaf extra: "@, UGroup::DeviceLeafExtra) + self.group_report(
            "D-leaf missing: "@,
            UGroup::DeviceLeafMissing,
        ) + self.group_report("H-leaf extra: "@, UGroup::HostLeafExtra) + self.group_report(
            "H-leaf missing: "@,
            UGroup::HostLeafMissing,
        ) + self.group_report("Duplicate missing: "@, UGroup::DuplicateMissing) + self.group_report(
            "Duplicate ghosts: "@,
            UGroup::DuplicateGhost,
        ) + self.count_report("[Leaf] "@, " in both sets: "@, UGroup::LeafOnBothSides) + self.count_report(
            ""@,
            " stale nodes in device_leaves: "@,
            UGroup::DeviceLeafStale,
        ) + self.count_report(""@, " stale nodes in host_leaves: "@, UGroup::HostLeafStale)
    }

    /// On the LRU lists of component `ct`.
    pub open spec fn lists_report(&self, ct: int) -> Seq<Seq<char>> {
        if ct == 0 {
            let dev = self@.lru[0].len() as int;
            let host = self@.lru[1].len() as int;
            one(dev > 0, around("Full device LRU not empty: "@, dev, ""@)) + one(
                host > 0,
                around("Full host LRU not empty: "@, host, ""@),
            )
        } else {
            let dev = self.group(UGroup::DeviceListMissing, ct);
            let dev_over = self.group(UGroup::DeviceListExtra, ct);
            let host = self.group(UGroup::HostListMissing, ct);
            let host_over = self.group(UGroup::HostListExtra, ct);
            let both = self.group(UGroup::OnBothLists, ct);
            one(
                dev.len() > 0 || dev_over.len() > 0,
                differing(ct, " device LRU: +tree="@, dev, dev_over),
            ) + one(
                host.len() > 0 || host_over.len() > 0,
                differing(ct, " host LRU: +S3="@, host, host_over),
            ) + one(both.len() > 0, naming(around("ct"@, ct, " in both device and host LRU: "@), both))
        }
    }

    // ---- counters and transfers ----

    /// On the counters of component `ct`.
    pub open spec fn sizes_report(&self, ct: int) -> Seq<Seq<char>> {
        let free = self@.live_count(ct, false);
        let locked = self@.live_count(ct, true);
        one(
            self.counter(ct, false) != free,
            around_three(
                "[Size] ct"@,
                ct,
                " evictable="@,
                self.counter(ct, false) as int,
                " != recomputed="@,
                free,
            ),
        ) + one(
            self.counter(ct, true) != locked,
            around_three(
                "[Size] ct"@,
                ct,
                " protected="@,
                self.counter(ct, true) as int,
                " != recomputed="@,
                locked,
            ),
        )
    }

    /// On a transfer in flight, `head` and its id before what is wrong.
    pub open spec fn transfer_report(&self, head: Seq<char>, id: i64, x: NodeId) -> Seq<Seq<char>> {
        let n = self@.nodes[x as int];
        if self@.live(x) {
            one(n.lock[0] <= 0, around_two(head, id as int, " lock_ref="@, n.lock[0] as int, ""@))
        } else {
            one(true, around(head, id as int, " not in tree"@))
        }
    }

    /// On the transfers in flight, pairs of id and node.
    pub open spec fn transfers_report(&self, head: Seq<char>, list: Seq<(i64, u32)>) -> Seq<Seq<char>>
        decreases list.len(),
    {
        if list.len() == 0 {
            Seq::empty()
        } else {
            self.transfers_report(head, list.drop_last()) + self.transfer_report(
                head,
                list.last().0,
                list.last().1,
            )
        }
    }

    /// Whether the anchor `id` has a load-back in flight.
    pub open spec fn loading(id: int, list: Seq<(i64, u32)>) -> bool {
        exists|k: int| 0 <= k < list.len() && (#[trigger] list[k]).1 == id
    }

    /// On node `x`, if it waits for a load-back that is not in flight.
    pub open spec fn wait_report(&self, x: NodeId, lb: Seq<(i64, u32)>) -> Seq<Seq<char>> {
        match self@.nodes[x as int].lb {
            Some(a) => one(
                self@.live(x) && !Self::loading(a as int, lb),
                around_two(
                    "[Ongoing] node "@,
                    x as int,
                    " load_back_pending_id="@,
                    a as int,
                    " has no live load-back"@,
                ),
            ),
            None => Seq::empty(),
        }
    }

    /// On the nodes with ids below `n` that wait so.
    pub open spec fn waits_report(&self, n: nat, lb: Seq<(i64, u32)>) -> Seq<Seq<char>>
        decreases n,
    {
        if n == 0 {
            Seq::empty()
        } else {
            self.waits_report((n - 1) as nat, lb) + self.wait_report((n - 1) as NodeId, lb)
        }
    }

    /// What an audit reports, with the write-throughs `wt` and the
    /// load-backs `lb` in flight.
    pub open spec fn report(&self, wt: Seq<(i64, u32)>, lb: Seq<(i64, u32)>) -> Seq<Seq<char>> {
        let st = self@;
        st.root_report() + st.nodes_report(st.nodes.len()) + self.sets_report() + of_comps(
            st.cfg,
            self.lists_report(0),
            self.lists_report(1),
            self.lists_report(2),
        ) + of_comps(st.cfg, self.sizes_report(0), self.sizes_report(1), self.sizes_report(2))
            + self.transfers_report("[Ongoing] write_through node "@, wt) + self.transfers_report(
            "[Ongoing] load_back node "@,
            lb,
        ) + self.waits_report(st.nodes.len(), lb)
    }
}

} // verus!
