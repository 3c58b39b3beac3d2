//! What an insert on the host and a prefetched window add to the tree.

use crate::chains;
use crate::hi_plans;
use crate::topo;
use crate::topo::{NodeId, ROOT};
use crate::unified::laws;
use crate::unified::matching;
use crate::unified::model::{Inserted, UState};
use crate::unified::{Act, CT_SWA};
use vstd::prelude::*;

verus! {

/// Visits change no run.
proof fn lemma_touched_runs(st: UState, ids: Seq<NodeId>)
    requires
        laws::within(st, ids),
    ensures
        laws::same_runs(st, st.touched_all(ids)),
    decreases ids.len(),
{
    if ids.len() > 0 {
        let xs = ids.drop_last();
        assert forall|k: int| 0 <= k < xs.len() implies (#[trigger] xs[k]) < st.nodes.len() by {
            assert(xs[k] == ids[k]);
        }
        lemma_touched_runs(st, xs);
        assert(ids[ids.len() - 1] < st.nodes.len());
    }
}

/// The node an insert on the host names holds the whole key below `anchor` in
/// its path and is on the host. What it adds is at most one leaf, with its
/// part of the host slots and nothing on the device; it does so unless the
/// node above has no host slots and the tree is not written back, and then it
/// says that it dropped them. All nodes but one that it cuts keep their slots.
#[verifier::spinoff_prover]
#[verifier::rlimit(60)]
pub proof fn law_insert_host_stores(
    st: UState,
    anchor: NodeId,
    ns: u32,
    raw: Seq<i64>,
    host: Seq<i64>,
    hashes: Option<Seq<Seq<char>>>,
)
    requires
        st.wf(),
        st.live(anchor),
        st.roomy(2),
        st.flat(raw).len() > 0,
        host.len() * st.shape.unit == st.flat(raw).len(),
    ensures
        ({
            let flat = st.flat(raw);
            let w = st.shape.walk(anchor, ns, flat);
            let (t, r) = st.after_insert_host(anchor, ns, raw, host, hashes);
            let cuts: int = if w.stop is Some {
                1
            } else {
                0
            };
            let x = r.host_node->0;
            &&& forall|i: int|
                0 <= i < st.nodes.len() && !(w.stop matches Some((c, m)) && c == i) ==> (#[trigger] t.nodes[i]).value
                    == st.nodes[i].value && t.nodes[i].host == st.nodes[i].host
            &&& r.host_node is Some ==> x != ROOT && t.backuped(x) && t.shape.nodes[x as int].path
                == st.shape.nodes[anchor as int].path + flat
            &&& w.used == flat.len() ==> t.nodes.len() == st.nodes.len() + cuts && !r.host_dropped
            &&& w.used < flat.len() ==> r.host_dropped == (r.host_node is None)
            &&& r.host_dropped ==> t.nodes.len() == st.nodes.len() + cuts && !st.cfg.is_write_back
            &&& w.used < flat.len() && r.host_node is Some ==> {
                let leaf = t.nodes[x as int];
                &&& x == st.nodes.len() + cuts
                &&& t.nodes.len() == x + 1
                &&& leaf.host[0]->0 == host.skip(r.prefix_len)
                &&& (r.prefix_len + leaf.host[0]->0.len()) == host.len()
                &&& leaf.value[0] is None
                &&& leaf.priority == t.nodes[t.shape.nodes[x as int].parent as int].priority
            }
        }),
{
    let s = st.shape;
    let flat = st.flat(raw);
    let w = s.walk(anchor, ns, flat);
    let (t, r) = st.after_insert_host(anchor, ns, raw, host, hashes);
    let unit = s.unit as int;
    let end = if w.chain.len() == 0 {
        anchor
    } else {
        w.chain.last()
    };
    matching::lemma_flat(st, raw);
    topo::lemma_walk(s, anchor, ns, flat);
    topo::lemma_walk_path(s, anchor, ns, flat);
    assert(laws::within(st.touched(anchor), w.chain)) by {
        assert forall|k: int| 0 <= k < w.chain.len() implies (#[trigger] w.chain[k]) < st.touched(anchor).nodes.len() by {
            assert(s.is_child(if k == 0 { anchor } else { w.chain[k - 1] }, w.chain[k]));
        }
    }
    lemma_touched_runs(st.touched(anchor), w.chain);
    let a = st.touched(anchor).touched_all(w.chain);
    assert(laws::same_runs(st, a));
    let b = st.host_walked(anchor, w);
    let node = st.host_end(anchor, w);
    if let Some((c, m)) = w.stop {
        assert(s.nodes[c as int].parent == end);
        assert(c < st.nodes.len() && end < st.nodes.len());
        hi_plans::lemma_stop_key(s, anchor, ns, flat);
        let d = a.touched(c);
        assert(laws::same_runs(st, d));
        assert(b == d.cut(c, m as int));
        assert(b.nodes.len() == st.nodes.len() + 1);
        assert(b.shape == s.split(c, m as int));
        assert(flat.take(w.used - m) + flat.subrange(w.used - m, w.used as int) =~= flat.take(w.used as int));
        assert((s.nodes[anchor as int].path + flat.take(w.used - m)) + flat.subrange(w.used - m, w.used as int)
            =~= s.nodes[anchor as int].path + flat.take(w.used as int));
        assert(b.shape.nodes[node as int].path == s.nodes[anchor as int].path + flat.take(w.used as int));
        assert forall|i: int| 0 <= i < st.nodes.len() && i != c implies (#[trigger] b.nodes[i]).value == st.nodes[i].value
            && b.nodes[i].host == st.nodes[i].host by {
            assert(d.nodes[i].value == st.nodes[i].value);
        }
    } else {
        assert(b == a);
        assert(node == end);
        assert(b.shape.nodes[node as int].path == s.nodes[anchor as int].path + flat.take(w.used as int));
    }
    assert(node < b.nodes.len());
    assert(flat.take(w.used as int) + flat.skip(w.used as int) =~= flat);
    assert((s.nodes[anchor as int].path + flat.take(w.used as int)) + flat.skip(w.used as int)
        =~= s.nodes[anchor as int].path + flat);
    assert(flat.take(flat.len() as int) =~= flat);
    if w.used < flat.len() {
        let n = w.used as int / unit;
        assert(0 <= n <= host.len()) by (nonlinear_arith)
            requires
                n == w.used as int / unit,
                unit > 0,
                w.used as int <= host.len() * unit,
        ;
        if r.host_node is Some {
            let x = r.host_node->0;
            assert(b.shape.nodes.len() == b.nodes.len());
            assert(t.nodes.len() == b.nodes.len() + 1);
            assert(t.shape.nodes[x as int].parent == node);
            assert(t.nodes[node as int].priority == b.nodes[node as int].priority);
            assert(host.skip(n).len() == host.len() - n);
            assert forall|i: int| 0 <= i < b.nodes.len() implies (#[trigger] t.nodes[i]).value == b.nodes[i].value
                && t.nodes[i].host == b.nodes[i].host by {}
        }
    }
}

/// Where in the window the part that lies on `ids[j]` begins and ends: nodes
/// follow each other upwards from `pos`, and the window starts at `start`.
pub open spec fn window_part(st: UState, ids: Seq<NodeId>, j: int, pos: int, start: int, host: Seq<i64>) -> Seq<i64> {
    let to = pos - chains::tokens(st.shape, ids, j);
    let from = pos - chains::tokens(st.shape, ids, j + 1);
    host.subrange(
        if from < start {
            0
        } else {
            from - start
        },
        to - start,
    )
}

/// Whether the window reaches `ids[j]`.
pub open spec fn reached(st: UState, ids: Seq<NodeId>, j: int, pos: int, start: int) -> bool {
    0 <= j < ids.len() && pos - chains::tokens(st.shape, ids, j) > start
}

/// What `t` and `acts` make of the window on `ids` from its `k`th node on: a
/// node without window slots on the host gets its part, the part of another
/// one is handed back, and all other nodes keep what they have.
pub open spec fn window_placed(
    st: UState,
    t: UState,
    acts: Seq<Act>,
    ids: Seq<NodeId>,
    k: int,
    pos: int,
    start: int,
    host: Seq<i64>,
) -> bool {
    &&& forall|j: int|
        #![trigger ids[j]]
        k <= j && reached(st, ids, j, pos, start) ==> {
            let part = window_part(st, ids, j, pos, start, host);
            if st.nodes[ids[j] as int].host[1] is None {
                t.nodes[ids[j] as int].host[1] == Some(part)
            } else {
                &&& t.nodes[ids[j] as int].host[1] == st.nodes[ids[j] as int].host[1]
                &&& acts.contains(Act::FreeHost { ct: CT_SWA, chunks: seq![part] })
            }
        }
    &&& forall|i: int|
        0 <= i < st.nodes.len() && (forall|j: int| k <= j && #[trigger] reached(st, ids, j, pos, start) ==> ids[j] != i)
            ==> (#[trigger] t.nodes[i]).host == st.nodes[i].host
}

/// The filling of the window from its `k`th node on.
#[verifier::spinoff_prover]
#[verifier::rlimit(80)]
proof fn lemma_filled(st: UState, ids: Seq<NodeId>, k: int, top: int, start: int, host: Seq<i64>)
    requires
        ids.no_duplicates(),
        0 <= k <= ids.len(),
        forall|j: int|
            0 <= j < ids.len() ==> {
                let x = #[trigger] ids[j];
                &&& x < st.nodes.len()
                &&& st.shape.nodes[x as int].parent < st.nodes.len()
                &&& st.shape.nodes[x as int].parent != x
                &&& st.nodes[x as int].host.len() == 4
                &&& st.units(x) >= 0
            },
    ensures
        ({
            let pos = top - chains::tokens(st.shape, ids, k);
            let (t, acts, end) = st.window_filled(ids, k, pos, start, host);
            window_placed(st, t, acts, ids, k, top, start, host)
        }),
    decreases ids.len() - k,
{
    let pos = top - chains::tokens(st.shape, ids, k);
    let (t, acts, end) = st.window_filled(ids, k, pos, start, host);
    if k >= ids.len() || pos <= start {
        assert forall|j: int| k <= j && #[trigger] reached(st, ids, j, top, start) implies false by {
            assert forall|n: int| 0 <= n < ids.len() implies st.shape.units((#[trigger] ids[n]) as int) >= 0 by {
                assert(st.units(ids[n]) >= 0);
            }
            chains::lemma_tokens_le(st.shape, ids, k, j);
        }
    } else {
        let x = ids[k];
        let from = pos - st.units(x);
        let part = window_part(st, ids, k, top, start, host);
        assert(chains::tokens(st.shape, ids, k + 1) == chains::tokens(st.shape, ids, k) + st.units(x));
        assert(from == top - chains::tokens(st.shape, ids, k + 1));
        let fill = if from < start {
            start
        } else {
            from
        };
        assert(host.subrange(fill - start, pos - start) == part);
        assert(reached(st, ids, k, top, start));
        if from < start {
            // The last node that the window reaches.
            assert forall|j: int| k < j && #[trigger] reached(st, ids, j, top, start) implies false by {
                assert forall|n: int| 0 <= n < ids.len() implies st.shape.units((#[trigger] ids[n]) as int) >= 0 by {
                    assert(st.units(ids[n]) >= 0);
                }
                chains::lemma_tokens_le(st.shape, ids, k + 1, j);
            }
            if st.nodes[x as int].host[1] is None {
                let c = st.cut(x, (fill - from) * st.shape.unit);
                let d = c.hosted(x, 1, part);
                assert(d.window_filled(ids, k + 1, from, start, host).0 == d);
                assert(t == d);
                assert(c.nodes[x as int].host.len() == 4);
                assert(t.nodes[x as int].host[1] == Some(part));
                assert forall|i: int|
                    0 <= i < st.nodes.len() && (forall|j: int|
                        k <= j && #[trigger] reached(st, ids, j, top, start) ==> ids[j] != i) implies (
                #[trigger] t.nodes[i]).host == st.nodes[i].host by {
                    assert(i != x);
                    assert(c.nodes[i].host == st.nodes[i].host);
                }
            } else {
                assert(st.window_filled(ids, k + 1, from, start, host) == (st, Seq::<Act>::empty(), from));
                assert(t == st);
                assert(acts[0] == (Act::FreeHost { ct: CT_SWA, chunks: seq![part] }));
            }
        } else if st.nodes[x as int].host[1] is None {
            let d = st.hosted(x, 1, part);
            assert(d.nodes[x as int].host[1] == Some(part));
            lemma_filled(d, ids, k + 1, top, start, host);
            let (t2, more, end2) = d.window_filled(ids, k + 1, from, start, host);
            lemma_tokens_shape(st, d, ids);
            assert(t == t2);
            assert(acts =~= more);
            assert forall|j: int| #![trigger ids[j]] k <= j && reached(st, ids, j, top, start) implies ({
                let p = window_part(st, ids, j, top, start, host);
                if st.nodes[ids[j] as int].host[1] is None {
                    t.nodes[ids[j] as int].host[1] == Some(p)
                } else {
                    &&& t.nodes[ids[j] as int].host[1] == st.nodes[ids[j] as int].host[1]
                    &&& acts.contains(Act::FreeHost { ct: CT_SWA, chunks: seq![p] })
                }
            }) by {
                if j == k {
                    assert forall|n: int| k + 1 <= n && #[trigger] reached(d, ids, n, top, start) implies ids[n] != x by {
                        assert(ids[n] != ids[k]);
                    }
                    assert(t.nodes[x as int].host == d.nodes[x as int].host);
                } else {
                    assert(ids[j] != ids[k]);
                    assert(reached(d, ids, j, top, start));
                    assert(d.nodes[ids[j] as int] == st.nodes[ids[j] as int]);
                    assert(window_part(d, ids, j, top, start, host) == window_part(st, ids, j, top, start, host));
                }
            }
            assert forall|i: int|
                0 <= i < st.nodes.len() && (forall|j: int|
                    k <= j && #[trigger] reached(st, ids, j, top, start) ==> ids[j] != i) implies (
            #[trigger] t.nodes[i]).host == st.nodes[i].host by {
                assert(i != x);
                assert forall|n: int| k + 1 <= n && #[trigger] reached(d, ids, n, top, start) implies ids[n] != i by {
                    assert(reached(st, ids, n, top, start));
                }
                assert(d.nodes[i] == st.nodes[i]);
            }
        } else {
            lemma_filled(st, ids, k + 1, top, start, host);
            let (t2, more, end2) = st.window_filled(ids, k + 1, from, start, host);
            assert(t == t2);
            let back = Act::FreeHost { ct: CT_SWA, chunks: seq![part] };
            assert(acts == seq![back] + more);
            assert(acts[0] == back);
            assert forall|a: Act| #[trigger] more.contains(a) implies acts.contains(a) by {
                assert(acts[more.index_of(a) + 1] == a);
            }
            assert forall|j: int| #![trigger ids[j]] k <= j && reached(st, ids, j, top, start) implies ({
                let p = window_part(st, ids, j, top, start, host);
                if st.nodes[ids[j] as int].host[1] is None {
                    t.nodes[ids[j] as int].host[1] == Some(p)
                } else {
                    &&& t.nodes[ids[j] as int].host[1] == st.nodes[ids[j] as int].host[1]
                    &&& acts.contains(Act::FreeHost { ct: CT_SWA, chunks: seq![p] })
                }
            }) by {
                if j == k {
                    assert forall|n: int| k + 1 <= n && #[trigger] reached(st, ids, n, top, start) implies ids[n] != x by {
                        assert(ids[n] != ids[k]);
                    }
                    assert(t.nodes[x as int].host == st.nodes[x as int].host);
                } else {
                    assert(ids[j] != ids[k]);
                }
            }
            assert forall|i: int|
                0 <= i < st.nodes.len() && (forall|j: int|
                    k <= j && #[trigger] reached(st, ids, j, top, start) ==> ids[j] != i) implies (
            #[trigger] t.nodes[i]).host == st.nodes[i].host by {
                assert forall|n: int| k + 1 <= n && #[trigger] reached(st, ids, n, top, start) implies ids[n] != i by {}
            }
        }
    }
}

proof fn lemma_tokens_shape(a: UState, b: UState, ids: Seq<NodeId>)
    requires
        a.shape == b.shape,
    ensures
        forall|j: int| #[trigger] chains::tokens(a.shape, ids, j) == chains::tokens(b.shape, ids, j),
{
}

/// A prefetched window that a tree takes lies where it belongs: its end is
/// the end of the inserted key, and each node on the way up that it reaches
/// has its own part of it, or keeps the slots it has and the part goes back.
/// A window that the tree does not take goes back whole and changes nothing.
pub proof fn law_window_prefetch_places(st: UState, anchor: NodeId, host: Seq<i64>, loaded: i64, r: Inserted)
    requires
        st.wf(),
        r.host_node matches Some(x) ==> st.inner(x) && (anchor == ROOT || st.shape.up(x).contains(anchor)),
    ensures
        ({
            let (t, acts) = st.swa_prefetched(anchor, host, loaded, r);
            let page = st.shape.page as int;
            let whole = host.len() as int / page;
            let taken = r.host_node is Some && 0 < whole <= loaded && (anchor == ROOT || whole >= st.cfg.tail_size() / page);
            let up = st.shape.up(r.host_node->0);
            &&& !taken ==> t == st && (host.len() > 0 ==> acts == seq![Act::FreeHost { ct: CT_SWA, chunks: seq![host] }])
            &&& !taken && host.len() == 0 ==> acts.len() == 0
            &&& taken && anchor == ROOT ==> window_placed(st, t, acts, up, 0, r.total_len, r.total_len - whole * page, host)
            &&& taken && anchor != ROOT ==> window_placed(
                st,
                t,
                acts,
                up.take(up.index_of(anchor)),
                0,
                r.total_len,
                r.total_len - whole * page,
                host,
            )
        }),
{
    let (t, acts) = st.swa_prefetched(anchor, host, loaded, r);
    let page = st.shape.page as int;
    let whole = host.len() as int / page;
    let taken = r.host_node is Some && 0 < whole <= loaded && (anchor == ROOT || whole >= st.cfg.tail_size() / page);
    assert(whole >= 0) by (nonlinear_arith)
        requires
            whole == host.len() as int / page,
            page > 0,
    ;
    if taken {
        let x = r.host_node->0;
        let up = st.shape.up(x);
        let n = st.place_of(up, anchor);
        let ids = up.take(n);
        let start = r.total_len - whole * page;
        matching::lemma_up_live(st, x);
        topo::lemma_up(st.shape, x);
        assert(0 <= n <= up.len());
        assert forall|j: int| 0 <= j < ids.len() implies ({
            let y = #[trigger] ids[j];
            &&& y < st.nodes.len()
            &&& st.shape.nodes[y as int].parent < st.nodes.len()
            &&& st.shape.nodes[y as int].parent != y
            &&& st.nodes[y as int].host.len() == 4
            &&& st.units(y) >= 0
        }) by {
            let y = up[j];
            assert(ids[j] == y);
            assert(st.inner(y));
            assert(st.node_ok(y as int));
            topo::lemma_path_grows(st.shape, y);
            assert(st.units(y) >= 0) by {
                let len = st.shape.nodes[y as int].key.len() as int;
                let unit = st.shape.unit as int;
                assert(len / unit >= 0) by (nonlinear_arith)
                    requires
                        len >= 0,
                        unit > 0,
                ;
            }
        }
        assert(ids.no_duplicates());
        lemma_filled(st, ids, 0, r.total_len, start, host);
        let (t2, more, end) = st.window_filled(ids, 0, r.total_len, start, host);
        assert(t2 == t);
        assert forall|a: Act| #[trigger] more.contains(a) implies acts.contains(a) by {
            assert(acts[more.index_of(a)] == a);
        }
        assert(window_placed(st, t, acts, ids, 0, r.total_len, start, host));
        if anchor == ROOT {
            assert(ids =~= up);
        }
    }
}

} // verus!
