//! Where the slots go that an insert into the sliding-window tree brings.

use crate::swa_model::{Freed, SWAState};
use crate::topo::NodeId;
use vstd::prelude::*;

verus! {

/// Whether the nodes that `v` of `st` became in `t` hold `slots`: `v` alone,
/// or a new node right above it and `v`.
pub open spec fn takes(st: SWAState, t: SWAState, v: NodeId, slots: Seq<i64>) -> bool {
    if t.nodes.len() == st.nodes.len() {
        t.run(v) == slots
    } else {
        let p = t.shape.nodes[v as int].parent;
        p == st.nodes.len() && t.nodes[p as int].tombstone && t.run(p) + t.run(v) == slots
    }
}

/// From `before` to `after` the runs `more` were added, and no others.
pub open spec fn adds(before: Seq<Seq<i64>>, after: Seq<Seq<i64>>, more: Seq<Seq<i64>>) -> bool {
    after == before + more
}

/// An insert that comes past node `v`, whose tokens start at `total`, with as
/// many slots: those before `upd` are the tree's already. A node with window
/// slots keeps its own, as does one that the window of the incoming ones does
/// not reach, and all the incoming ones are handed back. Another gets window
/// slots again for its tokens past `evicted`: it takes the incoming slots
/// for these, and its own are handed back with the incoming ones before; or,
/// if it is locked, keeps its own, which are to take over the window slots of
/// the incoming ones.
pub proof fn law_swa_insert_accounts(
    st: SWAState,
    v: NodeId,
    total: int,
    val: Seq<i64>,
    upd: int,
    evicted: int,
    out: Freed,
)
    requires
        st.wf(),
        st.live(v),
        st.nodes.len() < NodeId::MAX,
        val.len() >= st.run(v).len(),
    ensures
        ({
            let (t, o) = st.absorb(v, total, val, upd, evicted, out);
            let own = st.run(v);
            let n = own.len() as int;
            let slice = val.take(n);
            let known = upd >= total + n;
            let renewed = !known && st.nodes[v as int].tombstone && evicted < total + n;
            let kept = if evicted > total {
                evicted - total
            } else {
                0
            };
            let locked = st.nodes[v as int].full_lock > 0;
            &&& known ==> t == st && o == out
            &&& !known && !renewed ==> t == st && o == (Freed { kv: out.kv.push(slice), ..out })
            &&& renewed ==> !t.nodes[v as int].tombstone && o.swa == out.swa
            &&& renewed && locked ==> {
                &&& takes(st, t, v, own)
                &&& o.recover == out.recover.push((own.skip(kept), slice.skip(kept)))
                &&& adds(out.full, o.full, seq![slice.skip(kept)])
                &&& adds(out.kv, o.kv, if kept > 0 {
                    seq![slice.take(kept)]
                } else {
                    Seq::empty()
                })
            }
            &&& renewed && !locked ==> {
                &&& takes(st, t, v, own.take(kept) + slice.skip(kept))
                &&& o.recover == out.recover
                &&& o.full == out.full
                &&& adds(out.kv, o.kv, if kept > 0 {
                    seq![own.skip(kept), slice.take(kept)]
                } else {
                    seq![own]
                })
            }
        }),
{
    let (t, o) = st.absorb(v, total, val, upd, evicted, out);
    let own = st.run(v);
    let n = own.len() as int;
    let slice = val.take(n);
    let known = upd >= total + n;
    let renewed = !known && st.nodes[v as int].tombstone && evicted < total + n;
    let kept = if evicted > total {
        evicted - total
    } else {
        0
    };
    let unit = st.shape.unit as int;
    if renewed {
        assert(st.node_ok(v as int));
        if kept > 0 {
            let m = kept * unit;
            assert(m / unit == kept) by {
                vstd::arithmetic::div_mod::lemma_div_multiples_vanish(kept, unit);
                assert(kept * unit == unit * kept) by (nonlinear_arith);
            }
            let a = st.cut(v, m);
            assert(a.run(v) == own.skip(kept));
            assert(a.run(st.nodes.len() as NodeId) == own.take(kept));
            assert(a.shape.nodes[v as int].parent == st.nodes.len());
            assert(val.subrange(kept, n) =~= slice.skip(kept));
            assert(val.take(kept) =~= slice.take(kept));
            assert(own.take(kept) + own.skip(kept) =~= own);
            assert(own.take(kept) + slice.skip(kept) =~= own.take(kept) + val.subrange(kept, n));
            if st.nodes[v as int].full_lock > 0 {
                assert(o.full =~= out.full + seq![slice.skip(kept)]);
                assert(o.kv =~= out.kv + seq![slice.take(kept)]);
            } else {
                assert(o.kv =~= out.kv + seq![own.skip(kept), slice.take(kept)]);
            }
        } else {
            assert(own.skip(0) =~= own && slice.skip(0) =~= slice);
            assert(own.take(0) + slice.skip(0) =~= slice);
            assert(out.kv + Seq::<Seq<i64>>::empty() =~= out.kv);
            if st.nodes[v as int].full_lock > 0 {
                assert(o.full =~= out.full + seq![slice.skip(0)]);
            } else {
                assert(o.kv =~= out.kv + seq![own]);
            }
        }
    }
}

} // verus!
