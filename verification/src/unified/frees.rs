//! What an eviction hands back: the slots of what goes, of each component
//! once, and how many there are.

use crate::hi_model;
use crate::topo::NodeId;
use crate::unified;
use crate::unified::lock_laws;
use crate::unified::model::UState;
use crate::unified::{Freed, CT_FULL, CT_MAMBA, CT_SWA};
use vstd::prelude::*;

verus! {

/// The runs listed for `ct`.
pub open spec fn runs_for(v: Seq<(u8, Seq<Seq<i64>>)>, ct: u8) -> Seq<Seq<i64>> {
    let k = unified::entry_of(v, ct);
    if k < v.len() {
        v[k].1
    } else {
        Seq::empty()
    }
}

proof fn lemma_entry_is<T>(v: Seq<(u8, T)>, ct: u8, k: int)
    requires
        0 <= k < v.len(),
        v[k].0 == ct,
        forall|j: int| 0 <= j < k ==> (#[trigger] v[j]).0 != ct,
    ensures
        unified::entry_of(v, ct) == k,
{
    lock_laws::lemma_entry(v, ct);
    let e = unified::entry_of(v, ct);
    if e < k {
        assert(v[e].0 != ct);
    }
    if k < e {
        assert(v[k].0 != ct);
    }
}

proof fn lemma_no_entry<T>(v: Seq<(u8, T)>, ct: u8)
    requires
        forall|j: int| 0 <= j < v.len() ==> (#[trigger] v[j]).0 != ct,
    ensures
        unified::entry_of(v, ct) == v.len(),
{
    lock_laws::lemma_entry(v, ct);
    let e = unified::entry_of(v, ct);
    if e < v.len() {
        assert(v[e].0 != ct);
    }
}

proof fn lemma_added(v: Seq<(u8, Seq<Seq<i64>>)>, ct: u8, x: Seq<i64>, other: u8)
    ensures
        runs_for(unified::added(v, ct, x), other) == (if other == ct {
            runs_for(v, ct).push(x)
        } else {
            runs_for(v, other)
        }),
{
    let k = unified::entry_of(v, ct);
    let w = unified::added(v, ct, x);
    lock_laws::lemma_entry(v, ct);
    lock_laws::lemma_entry(v, other);
    let e = unified::entry_of(v, other);
    if other == ct {
        if k < v.len() {
            assert forall|j: int| 0 <= j < k implies (#[trigger] w[j]).0 != ct by {
                assert(v[j].0 != ct);
            }
            lemma_entry_is(w, ct, k);
        } else {
            assert forall|j: int| 0 <= j < v.len() implies (#[trigger] w[j]).0 != ct by {
                assert(v[j].0 != ct);
            }
            lemma_entry_is(w, ct, v.len() as int);
            assert(runs_for(v, ct).push(x) =~= seq![x]);
        }
    } else if e < v.len() {
        assert(e != k);
        assert forall|j: int| 0 <= j < e implies (#[trigger] w[j]).0 != other by {
            assert(v[j].0 != other);
        }
        assert(w[e] == v[e]);
        lemma_entry_is(w, other, e);
    } else {
        assert forall|j: int| 0 <= j < w.len() implies (#[trigger] w[j]).0 != other by {
            if j < v.len() {
                assert(v[j].0 != other);
            }
        }
        lemma_no_entry(w, other);
    }
}

proof fn lemma_counting(f: Freed, ct: u8, n: i64, other: u8)
    requires
        0 <= n,
        0 <= f.counted(ct),
        f.counted(ct) + n <= i64::MAX,
    ensures
        f.counting(ct, n).counted(other) == f.counted(other) + (if other == ct {
            n as int
        } else {
            0
        }),
        f.counting(ct, n).device == f.device,
        f.counting(ct, n).host == f.host,
{
    let v = f.tracker;
    let k = unified::entry_of(v, ct);
    let w = f.counting(ct, n).tracker;
    lock_laws::lemma_entry(v, ct);
    lock_laws::lemma_entry(v, other);
    let e = unified::entry_of(v, other);
    if n != 0 {
        if other == ct {
            if k < v.len() {
                assert forall|j: int| 0 <= j < k implies (#[trigger] w[j]).0 != ct by {
                    assert(v[j].0 != ct);
                }
                lemma_entry_is(w, ct, k);
            } else {
                assert forall|j: int| 0 <= j < v.len() implies (#[trigger] w[j]).0 != ct by {
                    assert(v[j].0 != ct);
                }
                lemma_entry_is(w, ct, v.len() as int);
            }
        } else if e < v.len() {
            assert forall|j: int| 0 <= j < e implies (#[trigger] w[j]).0 != other by {
                assert(v[j].0 != other);
            }
            assert(w[e] == v[e]);
            lemma_entry_is(w, other, e);
        } else {
            assert forall|j: int| 0 <= j < w.len() implies (#[trigger] w[j]).0 != other by {
                if j < v.len() {
                    assert(v[j].0 != other);
                }
            }
            lemma_no_entry(w, other);
        }
    }
}

/// The run of a component, if there is one, as a list.
pub open spec fn run_list(v: Option<Seq<i64>>) -> Seq<Seq<i64>> {
    match v {
        Some(v) => seq![v],
        None => Seq::empty(),
    }
}

/// What `x` has on the device of each component, as it is handed back: window
/// slots by the FULL slots that they belong to.
pub open spec fn handed_device(st: UState, x: NodeId, ct: u8) -> Seq<Seq<i64>> {
    let n = st.nodes[x as int];
    if n.value[ct as int] is None {
        Seq::empty()
    } else if ct == CT_MAMBA {
        run_list(n.value[2])
    } else {
        run_list(n.value[0])
    }
}

/// What one component of a node that goes adds to what is handed back.
proof fn lemma_comp(st: UState, x: NodeId, ct: u8, out: Freed, by_host: bool, other: u8)
    requires
        st.wf(),
        st.inner(x),
        ct < 3,
        0 <= out.counted(ct),
        out.counted(ct) + hi_model::run_or_none(
            if by_host {
                st.nodes[x as int].host[ct as int]
            } else {
                st.nodes[x as int].value[ct as int]
            },
        ).len() <= i64::MAX,
    ensures
        ({
            let n = st.nodes[x as int];
            let o = st.comp_released(x, ct, out, by_host);
            &&& runs_for(o.device, other) == runs_for(out.device, other) + (if other == ct {
                handed_device(st, x, ct)
            } else {
                Seq::empty()
            })
            &&& runs_for(o.host, other) == runs_for(out.host, other) + (if other == ct {
                run_list(n.host[ct as int])
            } else {
                Seq::empty()
            })
            &&& o.counted(other) == out.counted(other) + (if other == ct {
                hi_model::run_or_none(
                    if by_host {
                        n.host[ct as int]
                    } else {
                        n.value[ct as int]
                    },
                ).len() as int
            } else {
                0
            })
        }),
{
    let n = st.nodes[x as int];
    assert(st.node_ok(x as int));
    let a = if n.value[ct as int] is Some {
        out.with_device(ct, st.device_chunk(x, ct))
    } else {
        out
    };
    let b = if n.host[ct as int] is Some {
        a.with_host(ct, n.host[ct as int]->0)
    } else {
        a
    };
    let len = hi_model::run_or_none(
        if by_host {
            n.host[ct as int]
        } else {
            n.value[ct as int]
        },
    ).len();
    lemma_added(out.device, ct, st.device_chunk(x, ct), other);
    if n.host[ct as int] is Some {
        lemma_added(a.host, ct, n.host[ct as int]->0, other);
    }
    assert(b.tracker == out.tracker);
    assert(b.counted(ct) == out.counted(ct) && b.counted(other) == out.counted(other));
    lemma_counting(b, ct, len as i64, other);
    if other == ct {
        if n.value[ct as int] is Some {
            assert(handed_device(st, x, ct) =~= seq![st.device_chunk(x, ct)]);
            assert(runs_for(a.device, other) =~= runs_for(out.device, other) + handed_device(st, x, ct));
        } else {
            assert(runs_for(out.device, other) + handed_device(st, x, ct) =~= runs_for(out.device, other));
        }
        assert(runs_for(b.host, other) =~= runs_for(out.host, other) + run_list(n.host[ct as int]));
    } else {
        assert(runs_for(out.device, other) + Seq::empty() =~= runs_for(out.device, other));
        assert(runs_for(out.host, other) + Seq::empty() =~= runs_for(out.host, other));
    }
}

/// A leaf that is deleted hands back all it held, on the device and on the
/// host, of each component once, and counts the tokens of the side it is
/// deleted for.
pub proof fn law_deleted_hands_back(st: UState, x: NodeId, medium: u8, by_host: bool, ct: u8)
    requires
        st.wf(),
        st.inner(x),
        ct < 3,
        forall|c: int|
            0 <= c < 3 ==> hi_model::run_or_none(#[trigger] st.nodes[x as int].host[c]).len() <= i64::MAX
                && hi_model::run_or_none(st.nodes[x as int].value[c]).len() <= i64::MAX,
    ensures
        ({
            let n = st.nodes[x as int];
            let (t, out) = st.deleted(x, medium, Freed::none(), by_host);
            &&& !t.live(x)
            &&& runs_for(out.device, ct) == handed_device(st, x, ct)
            &&& runs_for(out.host, ct) == run_list(n.host[ct as int])
            &&& out.counted(ct) == hi_model::run_or_none(
                if by_host {
                    n.host[ct as int]
                } else {
                    n.value[ct as int]
                },
            ).len()
        }),
{
    let n = st.nodes[x as int];
    let none = Freed::none();
    assert(st.node_ok(x as int));
    let a = st.comp_released(x, CT_FULL, none, by_host);
    let b = st.comp_released(x, CT_SWA, a, by_host);
    assert(n.host[0] == n.host[CT_FULL as int] && n.host[1] == n.host[CT_SWA as int] && n.host[2]
        == n.host[CT_MAMBA as int]);
    lemma_comp(st, x, CT_FULL, none, by_host, CT_FULL);
    lemma_comp(st, x, CT_FULL, none, by_host, CT_SWA);
    lemma_comp(st, x, CT_FULL, none, by_host, CT_MAMBA);
    lemma_comp(st, x, CT_SWA, a, by_host, CT_FULL);
    lemma_comp(st, x, CT_SWA, a, by_host, CT_SWA);
    lemma_comp(st, x, CT_SWA, a, by_host, CT_MAMBA);
    lemma_comp(st, x, CT_MAMBA, b, by_host, ct);
    let out = st.released(x, none, by_host);
    assert(runs_for(none.device, ct) =~= Seq::empty() && runs_for(none.host, ct) =~= Seq::empty());
    assert(runs_for(out.device, ct) =~= handed_device(st, x, ct));
    assert(runs_for(out.host, ct) =~= run_list(n.host[ct as int]));
}

proof fn lemma_aux(st: UState, x: NodeId, ct: u8, out: Freed, other: u8)
    requires
        x < st.nodes.len(),
        st.nodes[x as int].value.len() == 4,
        st.nodes[x as int].value[0] is Some,
        ct == CT_SWA || ct == CT_MAMBA,
        0 <= out.counted(ct),
        out.counted(ct) + hi_model::run_or_none(st.nodes[x as int].value[ct as int]).len() <= i64::MAX,
    ensures
        ({
            let n = st.nodes[x as int];
            let (t, o) = st.aux_evicted_any(x, ct, out);
            &&& t.nodes.len() == st.nodes.len()
            &&& t.nodes[x as int].value == n.value.update(ct as int, None)
            &&& o.host == out.host
            &&& runs_for(o.device, other) == runs_for(out.device, other) + (if other == ct {
                handed_device(st, x, ct)
            } else {
                Seq::empty()
            })
            &&& o.counted(other) == out.counted(other) + (if other == ct {
                hi_model::run_or_none(n.value[ct as int]).len() as int
            } else {
                0
            })
        }),
{
    let n = st.nodes[x as int];
    let (t, o) = st.aux_evicted_any(x, ct, out);
    let chunk = st.device_chunk(x, ct);
    lemma_added(out.device, ct, chunk, other);
    if n.value[ct as int] is Some {
        let a = out.with_device(ct, chunk);
        assert(a.tracker == out.tracker);
        assert(a.counted(ct) == out.counted(ct) && a.counted(other) == out.counted(other));
        lemma_counting(a, ct, hi_model::run_or_none(n.value[ct as int]).len() as i64, other);
        if other == ct {
            assert(handed_device(st, x, ct) =~= seq![chunk]);
            assert(runs_for(o.device, other) =~= runs_for(out.device, other) + handed_device(st, x, ct));
        } else {
            assert(runs_for(out.device, other) + Seq::empty() =~= runs_for(out.device, other));
        }
    } else {
        assert(n.value =~= n.value.update(ct as int, None));
        assert(runs_for(out.device, other) + Seq::empty() =~= runs_for(out.device, other));
    }
}

/// A backed-up leaf that is evicted from the device hands back all it held
/// there, of each component once, and nothing of the host; it has no device
/// slots left.
pub proof fn law_demoted_hands_back(st: UState, x: NodeId, ct: u8)
    requires
        st.wf(),
        st.device_leaf(x),
        st.backuped(x),
        ct < 3,
        forall|c: int|
            0 <= c < 3 ==> hi_model::run_or_none(#[trigger] st.nodes[x as int].value[c]).len() <= i64::MAX,
    ensures
        ({
            let n = st.nodes[x as int];
            let (t, out) = st.demoted(x, Freed::none());
            &&& runs_for(out.device, ct) == handed_device(st, x, ct)
            &&& out.host.len() == 0
            &&& out.counted(ct) == hi_model::run_or_none(n.value[ct as int]).len()
            &&& t.nodes[x as int].value[ct as int] is None
            &&& t.nodes[x as int].host == n.host
        }),
{
    let n = st.nodes[x as int];
    let none = Freed::none();
    let full = hi_model::run_or_none(n.value[0]);
    assert(st.node_ok(x as int));
    assert(n.value[0] == n.value[CT_FULL as int] && n.value[1] == n.value[CT_SWA as int] && n.value[2]
        == n.value[CT_MAMBA as int]);
    let f = none.with_device(CT_FULL, full);
    let o = f.counting(CT_FULL, full.len() as i64);
    assert(f.tracker == none.tracker);
    assert forall|c: u8| #[trigger] none.counted(c) == 0 && f.counted(c) == 0 by {}
    lemma_added(none.device, CT_FULL, full, ct);
    lemma_added(none.device, CT_FULL, full, CT_SWA);
    lemma_added(none.device, CT_FULL, full, CT_MAMBA);
    lemma_counting(f, CT_FULL, full.len() as i64, ct);
    lemma_counting(f, CT_FULL, full.len() as i64, CT_SWA);
    lemma_counting(f, CT_FULL, full.len() as i64, CT_MAMBA);
    let (a, oa) = st.aux_evicted_any(x, CT_SWA, o);
    lemma_aux(st, x, CT_SWA, o, ct);
    lemma_aux(st, x, CT_SWA, o, CT_MAMBA);
    let (b, ob) = a.aux_evicted_any(x, CT_MAMBA, oa);
    lemma_aux(a, x, CT_MAMBA, oa, ct);
    assert(handed_device(a, x, CT_MAMBA) == handed_device(st, x, CT_MAMBA));
    assert(runs_for(none.device, ct) =~= Seq::empty());
    let (t, out) = st.demoted(x, none);
    assert(out == ob);
    assert(runs_for(out.device, ct) =~= handed_device(st, x, ct));
}

} // verus!
