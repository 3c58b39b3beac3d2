//! Where the slots go that an insert brings: each stays in the tree or is
//! handed back, and what it displaces is handed back too.

use crate::hi_model;
use crate::topo;
use crate::topo::{NodeId, ROOT};
use crate::unified;
use crate::unified::insert;
use crate::unified::matching;
use crate::unified::model::{Asked, UNodeState, UState};
use crate::unified::Act;
use vstd::prelude::*;

verus! {

/// The runs put together.
pub open spec fn joined(runs: Seq<Seq<i64>>) -> Seq<i64>
    decreases runs.len(),
{
    if runs.len() == 0 {
        Seq::empty()
    } else {
        joined(runs.drop_last()) + runs.last()
    }
}

/// The incoming slots that the actions free.
pub open spec fn freed_slots(acts: Seq<Act>) -> Seq<i64>
    decreases acts.len(),
{
    if acts.len() == 0 {
        Seq::empty()
    } else {
        freed_slots(acts.drop_last()) + match acts.last() {
            Act::FreeKV { chunks } => joined(chunks),
            _ => Seq::empty(),
        }
    }
}

/// The slots for which the actions ask new window slots.
pub open spec fn rebuilt_slots(acts: Seq<Act>) -> Seq<i64>
    decreases acts.len(),
{
    if acts.len() == 0 {
        Seq::empty()
    } else {
        rebuilt_slots(acts.drop_last()) + match acts.last() {
            Act::Rebuild { node, source } => source,
            _ => Seq::empty(),
        }
    }
}

proof fn lemma_push(acts: Seq<Act>, a: Act)
    ensures
        freed_slots(acts.push(a)) == freed_slots(acts) + (match a {
            Act::FreeKV { chunks } => joined(chunks),
            _ => Seq::empty(),
        }),
        rebuilt_slots(acts.push(a)) == rebuilt_slots(acts) + (match a {
            Act::Rebuild { node, source } => source,
            _ => Seq::empty(),
        }),
{
    assert(acts.push(a).drop_last() =~= acts);
}

proof fn lemma_few(a: Option<Act>)
    requires
        a matches Some(x) ==> x is ReplaceWT,
    ensures
        freed_slots(matching::opt_list(a)).len() == 0,
        rebuilt_slots(matching::opt_list(a)).len() == 0,
{
    let acts = matching::opt_list(a);
    reveal_with_fuel(freed_slots, 2);
    reveal_with_fuel(rebuilt_slots, 2);
    if let Some(x) = a {
        assert(acts.drop_last() =~= Seq::<Act>::empty());
        assert(acts.last() == x);
    }
}

/// The FULL slots of `x` on the device.
pub open spec fn own(st: UState, x: NodeId) -> Seq<i64> {
    hi_model::run_or_none(st.nodes[x as int].value[0])
}

/// Whether the nodes that `node` of `st` became in `t` hold `slots`: `node`
/// alone, or a new node right above it and `node`.
pub open spec fn takes(st: UState, t: UState, node: NodeId, slots: Seq<i64>) -> bool {
    let p = t.shape.nodes[node as int].parent;
    if t.nodes.len() == st.nodes.len() {
        own(t, node) == slots
    } else {
        p == st.nodes.len() && own(t, p) + own(t, node) == slots
    }
}

/// An insert that comes past a node without FULL slots on the device leaves
/// the incoming ones there, all of them, and frees none. With a window, it
/// asks window slots for those past what the window lost.
pub proof fn law_insert_fills(st: UState, node: NodeId, done: int, slice: Seq<i64>, asked: Asked)
    requires
        st.wf(),
        st.inner(node),
        st.roomy(1),
        st.nodes[node as int].value[0] is None,
        slice.len() == st.units(node),
        st.cfg.swa() ==> (asked.swa_evicted_seqlen - done) % (st.shape.page as int) == 0,
    ensures
        ({
            let (t, acts) = st.node_passed(node, done, slice, asked);
            let lost = asked.swa_evicted_seqlen - done;
            &&& takes(st, t, node, slice)
            &&& freed_slots(acts).len() == 0
            &&& rebuilt_slots(acts) == (if !st.cfg.swa() || lost >= slice.len() {
                Seq::empty()
            } else if lost <= 0 {
                slice
            } else {
                slice.skip(lost)
            })
        }),
{
    let (t, acts) = st.node_passed(node, done, slice, asked);
    let a = st.unevicted(node, slice);
    let lost = asked.swa_evicted_seqlen - done;
    let none = Seq::<Act>::empty();
    assert(st.node_ok(node as int));
    assert(a.nodes[node as int].value[0] == Some(slice));
    assert(a.units(node) == st.units(node));
    if st.cfg.swa() {
        if lost <= 0 {
            assert(acts =~= none.push(Act::Rebuild { node, source: slice }));
            lemma_push(none, Act::Rebuild { node, source: slice });
            assert(rebuilt_slots(acts) =~= slice);
            assert(freed_slots(acts) =~= Seq::empty());
        } else if lost < slice.len() {
            insert::lemma_cut_at(st, node, lost);
            let cuts = matching::opt_list(a.cut_report(node));
            assert(t == a.cut(node, lost * a.shape.unit));
            lemma_few(a.cut_report(node));
            let p = st.shape.nodes[node as int].parent;
            assert(p != node && p < st.nodes.len()) by {
                topo::lemma_path_grows(st.shape, node);
            }
            assert(t.nodes[node as int].value[0] == Some(slice.skip(lost)));
            assert(t.nodes[st.nodes.len() as int].value[0] == Some(slice.take(lost)));
            assert(t.shape.nodes[node as int].parent == st.nodes.len());
            assert(own(t, st.nodes.len() as NodeId) + own(t, node) =~= slice);
            lemma_push(cuts, Act::Rebuild { node, source: slice.skip(lost) });
            assert(rebuilt_slots(acts) =~= slice.skip(lost));
            assert(freed_slots(acts) =~= Seq::empty());
        }
    }
}

/// An insert that comes past a node with FULL slots on the device leaves
/// these and frees the incoming ones past `prev_prefix_len`; or, where the
/// node has lost its window slots and the incoming ones have theirs from
/// `kept` on, takes over those: the node holds them and its own are freed,
/// unless a lock keeps its own, which then are to take over the window slots
/// of the incoming ones.
pub proof fn law_insert_frees(st: UState, node: NodeId, done: int, slice: Seq<i64>, asked: Asked)
    requires
        st.wf(),
        st.inner(node),
        st.roomy(1),
        st.nodes[node as int].value[0] is Some,
        slice.len() == st.units(node),
        0 <= done,
        st.cfg.swa() ==> (asked.swa_evicted_seqlen - done) % (st.shape.page as int) == 0,
    ensures
        ({
            let (t, acts) = st.node_passed(node, done, slice, asked);
            let n = slice.len() as int;
            let lost = asked.swa_evicted_seqlen - done;
            let from = if asked.prev_prefix_len > done {
                asked.prev_prefix_len - done
            } else {
                0
            };
            let renewed = st.cfg.swa() && st.nodes[node as int].value[1] is None && from < n && lost < n;
            let kept = if !renewed {
                n
            } else if lost > 0 {
                lost
            } else {
                0
            };
            &&& freed_slots(acts) == (if from < kept {
                slice.subrange(from, kept)
            } else {
                Seq::empty()
            })
            &&& !renewed ==> t == st
            &&& renewed && st.nodes[node as int].lock[0] > 0 ==> {
                &&& takes(st, t, node, own(st, node))
                &&& acts.contains(
                    Act::Recover { node, kept: own(st, node).skip(kept), incoming: slice.skip(kept) },
                )
            }
            &&& renewed && st.nodes[node as int].lock[0] == 0 ==> {
                &&& takes(st, t, node, own(st, node).take(kept) + slice.skip(kept))
                &&& rebuilt_slots(acts) == slice.skip(kept)
                &&& acts.contains(Act::FreeKVFullOnly { chunks: seq![own(st, node).skip(kept)] })
            }
        }),
{
    let (t, acts) = st.node_passed(node, done, slice, asked);
    let n = slice.len() as int;
    let lost = asked.swa_evicted_seqlen - done;
    let from = if asked.prev_prefix_len > done {
        asked.prev_prefix_len - done
    } else {
        0
    };
    let renewed = st.cfg.swa() && st.nodes[node as int].value[1] is None && from < n && lost < n;
    let kept = if !renewed {
        n
    } else if lost > 0 {
        lost
    } else {
        0
    };
    let none = Seq::<Act>::empty();
    let mine = own(st, node);
    assert(st.node_ok(node as int));
    assert(mine.len() == n);
    assert(n >= 1) by {
        unified::facts::lemma_units(st, node);
    }
    let (b, news, k) = st.overlapped(node, done, slice, asked);
    assert(k == kept);
    let last = Act::FreeKV { chunks: seq![slice.subrange(from, kept)] };
    assert(joined(seq![slice.subrange(from, kept)]) =~= slice.subrange(from, kept)) by {
        let one = seq![slice.subrange(from, kept)];
        reveal_with_fuel(joined, 2);
        assert(one.drop_last() =~= Seq::<Seq<i64>>::empty());
    }
    lemma_push(news, last);
    if renewed {
        let cutting = lost > 0;
        let a = if cutting {
            st.cut(node, lost * st.shape.unit)
        } else {
            st
        };
        let cuts = if cutting {
            matching::opt_list(st.cut_report(node))
        } else {
            none
        };
        if cutting {
            insert::lemma_cut_at(st, node, lost);
            let p = st.shape.nodes[node as int].parent;
            assert(p != node && p < st.nodes.len()) by {
                topo::lemma_path_grows(st.shape, node);
            }
            assert(a.nodes[node as int].value[0] == Some(mine.skip(lost)));
            assert(a.nodes[st.nodes.len() as int].value[0] == Some(mine.take(lost)));
            assert(a.nodes[node as int].lock == st.nodes[node as int].lock);
            assert(a.nodes[node as int].value.len() == 4);
            assert(a.shape.nodes[node as int].parent == st.nodes.len());
            assert(a.nodes.len() == st.nodes.len() + 1);
            lemma_few(st.cut_report(node));
        } else {
            assert(mine.skip(0) =~= mine);
            assert(slice.skip(0) =~= slice);
            assert(mine.take(0) + slice.skip(0) =~= slice);
        }
        let fresh = slice.skip(kept);
        let (d, more) = a.window_replaced(node, fresh);
        assert(b == d);
        assert(news =~= cuts + more);
        if st.nodes[node as int].lock[0] > 0 {
            let r = Act::Recover { node, kept: mine.skip(kept), incoming: fresh };
            assert(more =~= none.push(r));
            assert(news =~= cuts.push(r));
            lemma_push(cuts, r);
            assert(news[cuts.len() as int] == r);
            assert(acts[cuts.len() as int] == r);
            assert(mine.take(kept) + mine.skip(kept) =~= mine);
        } else {
            let r = Act::FreeKVFullOnly { chunks: seq![mine.skip(kept)] };
            let q = Act::Rebuild { node, source: fresh };
            assert(more =~= none.push(r).push(q));
            assert(news =~= cuts.push(r).push(q));
            lemma_push(cuts, r);
            lemma_push(cuts.push(r), q);
            assert(news[cuts.len() as int] == r);
            assert(acts[cuts.len() as int] == r);
            assert(rebuilt_slots(news) =~= fresh);
        }
        assert(freed_slots(news) =~= Seq::empty());
    } else {
        assert(news =~= none);
    }
    if from < kept {
        assert(freed_slots(acts) =~= slice.subrange(from, kept));
    } else {
        assert(freed_slots(acts) =~= Seq::empty());
    }
}

/// An insert counts a hit of a node that it comes past, unless the node is
/// not on the device, the insert is part of a chunked one or the tree writes
/// back; and calls for its backup just where the tree has a host tier, the
/// node has no host copy and its hits have reached the threshold.
pub proof fn law_insert_hits(st: UState, node: NodeId, chunked: bool)
    requires
        st.wf(),
        st.inner(node),
        st.nodes[node as int].hits < i64::MAX,
    ensures
        ({
            let (t, back) = st.hit_counted(node, chunked);
            let counts = st.nodes[node as int].value[0] is Some && !chunked && !st.cfg.is_write_back;
            let m = t.nodes[node as int];
            &&& m == (UNodeState { hits: m.hits, ..st.nodes[node as int] })
            &&& m.hits == st.nodes[node as int].hits + (if counts {
                1int
            } else {
                0
            })
            &&& back <==> counts && st.hicache && m.host[0] is None && m.hits >= st.cfg.write_through_threshold
            &&& t.nodes.len() == st.nodes.len()
            &&& forall|i: int| 0 <= i < st.nodes.len() && i != node ==> (#[trigger] t.nodes[i]) == st.nodes[i]
        }),
{
}

proof fn lemma_bare_until(st: UState, up: Seq<NodeId>, k: int)
    requires
        0 <= k <= up.len(),
    ensures
        k <= st.bare_until(up, k) <= up.len(),
        forall|j: int| k <= j < st.bare_until(up, k) ==> !st.backuped(#[trigger] up[j]),
        st.bare_until(up, k) < up.len() ==> st.backuped(up[st.bare_until(up, k)]),
    decreases up.len() - k,
{
    if !(k >= up.len() || st.backuped(up[k])) {
        lemma_bare_until(st, up, k + 1);
    }
}

/// The nodes to back up for `node` are those of its path that have no host
/// copy, down from the first, and `node` last: so copies on the host always
/// hang below one another.
pub proof fn law_backup_chain(st: UState, node: NodeId)
    requires
        st.wf(),
        st.inner(node),
    ensures
        ({
            let ids = st.backup_chain(node);
            let top = st.shape.nodes[ids[0] as int].parent;
            &&& ids.len() > 0
            &&& ids.last() == node
            &&& top == ROOT || st.nodes[top as int].host[0] is Some
            &&& forall|k: int|
                #![trigger ids[k]]
                0 <= k < ids.len() - 1 ==> st.nodes[ids[k] as int].host[0] is None && st.shape.nodes[
                    ids[k + 1] as int].parent == ids[k]
        }),
{
    let up = st.shape.up(node);
    let ids = st.backup_chain(node);
    topo::lemma_up(st.shape, node);
    lemma_bare_until(st, up, 1);
    let n = st.bare_until(up, 1);
    assert(ids.len() == n);
    assert(ids[0] == up[n - 1]);
    assert(ids.last() == up[0]);
    assert forall|k: int| #![trigger ids[k]] 0 <= k < ids.len() - 1 implies st.nodes[ids[k] as int].host[0] is None
        && st.shape.nodes[ids[k + 1] as int].parent == ids[k] by {
        assert(ids[k] == up[n - 1 - k]);
        assert(ids[k + 1] == up[n - 2 - k]);
        assert(!st.backuped(up[n - 1 - k]));
    }
}

/// A new leaf has window slots asked for all of its tokens past what the
/// window lost, and no others; each request names the node that holds the
/// slots.
pub proof fn law_leaf_windows(st: UState, leaf: NodeId, done: int, asked: Asked)
    requires
        st.wf(),
        st.inner(leaf),
        st.roomy(2),
        st.cfg.swa(),
        st.nodes[leaf as int].value[0] is Some,
        (asked.swa_evicted_seqlen - done) % (st.shape.page as int) == 0,
    ensures
        ({
            let (t, acts) = st.leaf_windowed(leaf, done, asked);
            let mine = own(st, leaf);
            let lost = asked.swa_evicted_seqlen - done;
            &&& rebuilt_slots(acts) == (if lost >= mine.len() {
                Seq::empty()
            } else if lost > 0 {
                mine.skip(lost)
            } else {
                mine
            })
            &&& forall|k: int|
                #![trigger acts[k]]
                0 <= k < acts.len() ==> match acts[k] {
                    Act::Rebuild { node, source } => own(t, node) == source,
                    _ => false,
                }
        }),
{
    let (t, acts) = st.leaf_windowed(leaf, done, asked);
    let mine = own(st, leaf);
    let lost = asked.swa_evicted_seqlen - done;
    let none = Seq::<Act>::empty();
    let unit = st.shape.unit as int;
    assert(st.node_ok(leaf as int));
    assert(mine.len() == st.units(leaf));
    if lost < mine.len() {
        let a = if lost > 0 {
            st.cut(leaf, lost * unit)
        } else {
            st
        };
        let rest = if lost > 0 {
            mine.skip(lost)
        } else {
            mine
        };
        if lost > 0 {
            insert::lemma_cut_at(st, leaf, lost);
            unified::facts::lemma_cut(st, leaf, lost * unit);
            let p = st.shape.nodes[leaf as int].parent;
            assert(p != leaf && p < st.nodes.len()) by {
                topo::lemma_path_grows(st.shape, leaf);
            }
        }
        assert(a.nodes[leaf as int].value[0] == Some(rest));
        assert(a.built() && a.inner(leaf));
        assert(a.node_ok(leaf as int));
        assert(a.units(leaf) == rest.len());
        let extra = a.units(leaf) - st.cfg.tail_size();
        if extra > 0 {
            lemma_tail_aligned(st);
            let page = st.shape.page as int;
            assert(a.units(leaf) % page == 0) by {
                lemma_whole_units(a, leaf);
            }
            assert(extra % page == 0) by {
                vstd::arithmetic::div_mod::lemma_sub_mod_noop(a.units(leaf), st.cfg.tail_size(), page);
                vstd::arithmetic::div_mod::lemma_small_mod(0, page as nat);
            }
            insert::lemma_cut_at(a, leaf, extra);
            let f = a.nodes.len() as NodeId;
            let above = a.shape.nodes[leaf as int].parent;
            assert(above != leaf && above < a.nodes.len()) by {
                topo::lemma_path_grows(a.shape, leaf);
            }
            assert(t == a.cut(leaf, extra * unit));
            assert(t.nodes[leaf as int].value[0] == Some(rest.skip(extra)));
            assert(t.nodes[f as int].value[0] == Some(rest.take(extra)));
            let p = Act::Rebuild { node: f, source: rest.take(extra) };
            let q = Act::Rebuild { node: leaf, source: rest.skip(extra) };
            assert(acts =~= none.push(p).push(q));
            lemma_push(none, p);
            lemma_push(none.push(p), q);
            assert(rebuilt_slots(acts) =~= rest);
        } else {
            let p = Act::Rebuild { node: leaf, source: rest };
            assert(acts =~= none.push(p));
            lemma_push(none, p);
            assert(rebuilt_slots(acts) =~= rest);
        }
    }
}

/// The tail of a window is whole pages, and one at least.
proof fn lemma_tail_aligned(st: UState)
    requires
        st.wf(),
        st.cfg.swa(),
    ensures
        st.cfg.tail_size() % (st.shape.page as int) == 0,
        st.cfg.tail_size() > 0,
{
    let page = st.shape.page as int;
    let k = (st.cfg.sliding_window_size + page - 1) / page;
    vstd::arithmetic::div_mod::lemma_mod_multiples_basic(k, page);
    assert(st.cfg.tail_size() == k * page);
    assert(k >= 1) by (nonlinear_arith)
        requires
            k == (st.cfg.sliding_window_size + page - 1) / page,
            st.cfg.sliding_window_size > 0,
            page >= 1,
    ;
    assert(k * page > 0) by (nonlinear_arith)
        requires
            k >= 1,
            page >= 1,
    ;
}

/// An edge is whole pages.
proof fn lemma_whole_units(st: UState, x: NodeId)
    requires
        st.built(),
        st.inner(x),
    ensures
        st.units(x) % (st.shape.page as int) == 0,
{
    assert(st.shape.hangs(x as int));
    unified::facts::lemma_pages(st.shape, st.shape.nodes[x as int].key.len() as int);
}

} // verus!
