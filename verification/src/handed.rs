//! What an insert of the hybrid tree gives back.
//!
//! The caller hands an insert one index per token of the key and says how
//! many of the first ones the tree already owns. Each other index ends in one
//! place: in the new leaf, or in a run that is handed back.

use crate::chains;
use crate::key::RadixKey;
use crate::mamba_laws;
use crate::mamba_model;
use crate::mamba_model::MambaState;
use crate::query;
use crate::topo;
use crate::topo::NodeId;
use crate::walk_laws;
use vstd::prelude::*;

verus! {

/// The runs put together.
pub open spec fn joined(kv: Seq<(Seq<i64>, int)>) -> Seq<i64>
    decreases kv.len(),
{
    if kv.len() == 0 {
        Seq::empty()
    } else {
        joined(kv.drop_last()) + kv.last().0
    }
}

/// The runs are the stretch `from .. to` of `value`, cut up in order: none is
/// empty, and each comes with its place in the key.
pub open spec fn covers(kv: Seq<(Seq<i64>, int)>, value: Seq<i64>, from: int, to: int) -> bool {
    &&& joined(kv) == value.subrange(from, to)
    &&& forall|i: int|
        #![trigger kv[i]]
        0 <= i < kv.len() ==> {
            &&& kv[i].0.len() > 0
            &&& from <= kv[i].1
            &&& kv[i].1 + kv[i].0.len() <= to
            &&& kv[i].0 == value.subrange(kv[i].1, kv[i].1 + kv[i].0.len())
            &&& kv[i].1 == from + joined(kv.take(i)).len()
        }
}

/// A stretch that goes on where the last one ended.
proof fn lemma_covers_on(kv: Seq<(Seq<i64>, int)>, value: Seq<i64>, from: int, mid: int, to: int)
    requires
        0 <= from <= mid < to <= value.len(),
        covers(kv, value, from, mid),
    ensures
        covers(kv.push((value.subrange(mid, to), mid)), value, from, to),
{
    let all = kv.push((value.subrange(mid, to), mid));
    assert(all.drop_last() =~= kv);
    assert(joined(all) =~= value.subrange(from, to));
    assert forall|i: int| #![trigger all[i]] 0 <= i < all.len() implies {
        &&& all[i].0.len() > 0
        &&& from <= all[i].1
        &&& all[i].1 + all[i].0.len() <= to
        &&& all[i].0 == value.subrange(all[i].1, all[i].1 + all[i].0.len())
        &&& all[i].1 == from + joined(all.take(i)).len()
    } by {
        assert(all.take(i) =~= kv.take(i));
        if i < kv.len() {
            assert(all[i] == kv[i]);
        } else {
            assert(kv.take(i) =~= kv);
        }
    }
}

/// One node met by an insert.
proof fn lemma_overlap(kv: Seq<(Seq<i64>, int)>, val: Seq<i64>, total: int, len: int, prev: int)
    requires
        0 <= prev,
        0 <= total,
        0 < len,
        total + len <= val.len(),
        prev < total ==> covers(kv, val, prev, total),
        prev >= total ==> kv.len() == 0,
    ensures
        prev < total + len ==> covers(kv + MambaState::overlap(val, total, len, prev), val, prev, total + len),
        prev >= total + len ==> (kv + MambaState::overlap(val, total, len, prev)).len() == 0,
{
    let more = MambaState::overlap(val, total, len, prev);
    if prev < total {
        lemma_covers_on(kv, val, prev, total, total + len);
        assert(kv + more =~= kv.push((val.subrange(total, total + len), total)));
    } else if prev < total + len {
        assert(kv =~= Seq::empty());
        assert(joined(kv) =~= val.subrange(prev, prev));
        lemma_covers_on(kv, val, prev, prev, total + len);
        assert(kv + more =~= kv.push((val.subrange(prev, total + len), prev)));
    }
}

/// The nodes that an insert passes whole.
proof fn lemma_overlaps(st: MambaState, chain: Seq<NodeId>, k: nat, val: Seq<i64>, prev: int)
    requires
        st.wf(),
        mamba_model::chain_of(st, chain),
        k <= chain.len(),
        0 <= prev,
        chains::tokens(st.shape, chain, k as int) <= val.len(),
    ensures
        0 <= chains::tokens(st.shape, chain, k as int),
        prev < chains::tokens(st.shape, chain, k as int) ==> covers(
            st.overlaps(chain, k, val, prev),
            val,
            prev,
            chains::tokens(st.shape, chain, k as int),
        ),
        prev >= chains::tokens(st.shape, chain, k as int) ==> st.overlaps(chain, k, val, prev).len() == 0,
    decreases k,
{
    if k > 0 {
        let c = chain[k - 1];
        let before = chains::tokens(st.shape, chain, k - 1);
        assert(st.live(c));
        assert(st.node_ok(c as int));
        chains::lemma_units(st.shape, c as int);
        assert(chains::tokens(st.shape, chain, k as int) == before + st.shape.units(c as int));
        assert(st.run(c).len() == st.shape.units(c as int));
        lemma_overlaps(st, chain, (k - 1) as nat, val, prev);
        mamba_model::lemma_depth(st, chain, (k - 1) as nat);
        lemma_overlap(st.overlaps(chain, (k - 1) as nat, val, prev), val, before, st.run(c).len() as int, prev);
    }
}

/// Where an insert's walk stops inside a node, it has passed some of it.
proof fn lemma_part(st: MambaState, key: RadixKey)
    requires
        st.wf(),
    ensures
        mamba_model::chain_of(st, st.frame().walk(key).chain),
        st.frame().walk(key).stop matches Some((c, m)) ==> m as int / st.shape.unit as int > 0,
{
    let f = st.frame();
    let w = f.walk(key);
    assert(mamba_model::chain_of(st, w.chain)) by {
        query::lemma_query(f, key);
        assert forall|j: int| 0 <= j < w.chain.len() implies st.live(#[trigger] w.chain[j]) by {
            assert(st.node_ok(w.chain[j] as int));
        }
    }
    if let Some((c, m)) = w.stop {
        assert(0 < m && st.shape.aligned(m as int)) by {
            query::lemma_query(f, key);
        }
        topo::lemma_aligned(st.shape, m as int, 0);
        assert(m as int >= st.shape.unit);
        assert(m as int / st.shape.unit as int >= 1) by (nonlinear_arith)
            requires
                m as int >= st.shape.unit,
                st.shape.unit == 1 || st.shape.unit == 2,
        ;
    }
}

/// An insert hands back, in order and each with its place in the key, the
/// indices of the matched prefix past the `prev` that the tree already owns,
/// and puts the rest in a new leaf: of the incoming indices past `prev` each
/// is in one of the two, once.
pub proof fn law_mamba_insert_hands_back(
    st: MambaState,
    key: RadixKey,
    value: Seq<i64>,
    mamba: Seq<i64>,
    prev: int,
)
    requires
        st.wf(),
        st.nodes.len() + 2 <= NodeId::MAX,
        !st.disable,
        st.frame().flat(key).len() > 0,
        value.len() >= st.frame().units(key),
        0 <= prev,
    ensures
        ({
            let units = st.frame().units(key);
            let matched = st.frame().prefix_len(key);
            let (t, kv, node, exist) = st.after_insert(key, value, mamba, prev);
            &&& 0 <= matched <= units
            &&& prev < matched ==> covers(kv, value, prev, matched)
            &&& prev >= matched ==> kv.len() == 0
            &&& matched < units ==> t.nodes[node as int].value == Some(value.subrange(matched, units))
                && t.nodes.len() == node + 1
            &&& prev <= matched ==> joined(kv) + (if matched < units {
                t.run(node)
            } else {
                Seq::empty()
            }) == value.subrange(prev, units)
        }),
{
    let f = st.frame();
    let w = f.walk(key);
    let units = f.units(key);
    let matched = f.prefix_len(key);
    let val = value.take(units);
    let (t, kv, node, exist) = st.after_insert(key, value, mamba, prev);
    walk_laws::lemma_lengths(f, key);
    chains::lemma_key_tokens(f, key);
    lemma_part(st, key);
    let n = chains::tokens(st.shape, w.chain, w.chain.len() as int);
    lemma_overlaps(st, w.chain, w.chain.len(), val, prev);
    mamba_model::lemma_depth(st, w.chain, w.chain.len());
    if let Some((c, m)) = w.stop {
        lemma_overlap(
            st.overlaps(w.chain, w.chain.len(), val, prev),
            val,
            n,
            m as int / st.shape.unit as int,
            prev,
        );
    }
    if prev < matched {
        lemma_covers_take(kv, value, units, prev, matched);
    } else {
        assert(kv =~= Seq::empty());
    }
    let base = MambaState { names: f.names_with(key), ..st };
    mamba_laws::lemma_passed_all(base, w.chain);
    assert(val.skip(matched) =~= value.subrange(matched, units));
    if matched < units {
        let p = st.after_insert_walk(key, val, prev).0;
        let a = base.passed_all(w.chain);
        assert(a.nodes == st.nodes);
        match w.stop {
            None => {
                assert(p == a);
            },
            Some((c, m)) => {
                assert(p == a.passed(c).cut(c, m as int));
                assert(a.passed(c).nodes == st.nodes);
                assert(p.nodes.len() == st.nodes.len() + 1) by {
                    query::lemma_query(f, key);
                }
            },
        }
        assert(p.nodes.len() <= st.nodes.len() + 1);
        assert(w.used < f.flat(key).len());
        assert(node as int == p.nodes.len());
        assert(t.nodes[node as int].value == Some(val.skip(matched)));
    }
    if prev <= matched {
        let rest = if matched < units {
            t.run(node)
        } else {
            Seq::empty()
        };
        assert(joined(kv) =~= value.subrange(prev, matched));
        assert(joined(kv) + rest =~= value.subrange(prev, units));
    }
}

/// The runs come out of the indices, also where only the first of these count.
proof fn lemma_covers_take(kv: Seq<(Seq<i64>, int)>, value: Seq<i64>, units: int, from: int, to: int)
    requires
        0 <= from <= to <= units <= value.len(),
        covers(kv, value.take(units), from, to),
    ensures
        covers(kv, value, from, to),
{
    assert(value.take(units).subrange(from, to) =~= value.subrange(from, to));
    assert forall|i: int| #![trigger kv[i]] 0 <= i < kv.len() implies kv[i].0 == value.subrange(
        kv[i].1,
        kv[i].1 + kv[i].0.len(),
    ) by {
        assert(value.take(units).subrange(kv[i].1, kv[i].1 + kv[i].0.len()) =~= value.subrange(
            kv[i].1,
            kv[i].1 + kv[i].0.len(),
        ));
    }
}

} // verus!
