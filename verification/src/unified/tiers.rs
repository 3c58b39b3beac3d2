//! What a match still has to bring back from the host.

use crate::topo;
use crate::topo::NodeId;
use crate::unified::fitting;
use crate::unified::laws;
use crate::unified::matching;
use crate::unified::model::{UNodeState, UState};
use vstd::prelude::*;

verus! {

/// The sum of `s`.
pub open spec fn total(s: Seq<int>) -> int
    decreases s.len(),
{
    if s.len() == 0 {
        0
    } else {
        s[0] + total(s.drop_first())
    }
}

/// How many slots of component `ct` a node holds on the host.
pub open spec fn on_host(n: UNodeState, ct: int) -> int {
    match n.host[ct] {
        Some(v) => v.len() as int,
        None => 0,
    }
}

/// How many slots of component `ct` a node holds, the device first.
pub open spec fn on_either(n: UNodeState, ct: int) -> int {
    match n.value[ct] {
        Some(v) => v.len() as int,
        None => on_host(n, ct),
    }
}

/// How many slots of component `ct` a node holds on the host alone.
pub open spec fn on_host_alone(n: UNodeState, ct: int) -> int {
    if n.value[ct] is Some {
        0
    } else {
        on_host(n, ct)
    }
}

/// FULL host slots, node by node.
pub open spec fn host_runs(st: UState, path: Seq<NodeId>) -> Seq<int> {
    Seq::new(path.len(), |i: int| on_host(st.nodes[path[i] as int], 0))
}

/// Window slots of either side, node by node.
pub open spec fn window_runs(st: UState, path: Seq<NodeId>) -> Seq<int> {
    Seq::new(path.len(), |i: int| on_either(st.nodes[path[i] as int], 1))
}

/// Window slots of the host alone, node by node.
pub open spec fn window_loads(st: UState, path: Seq<NodeId>) -> Seq<int> {
    Seq::new(path.len(), |i: int| on_host_alone(st.nodes[path[i] as int], 1))
}

/// Whether `d` is how many nodes of `path` come before `x`.
pub open spec fn before(path: Seq<NodeId>, x: NodeId, d: int) -> bool {
    &&& 0 <= d <= path.len()
    &&& forall|j: int| 0 <= j < d ==> #[trigger] path[j] != x
    &&& d == path.len() || path[d] == x
}

/// Whether the first `c` nodes of `path` are those that make up its window:
/// each holds window slots and the ones before it do not fill the window yet.
pub open spec fn windowed(st: UState, path: Seq<NodeId>, c: int) -> bool {
    let runs = window_runs(st, path);
    let size = st.cfg.sliding_window_size;
    &&& 0 <= c <= path.len()
    &&& forall|j: int|
        #![trigger path[j]]
        0 <= j < c ==> total(runs.take(j)) < size && fitting::holds(st.nodes[path[j] as int], 1, false)
    &&& c == path.len() || total(runs.take(c)) >= size || !fitting::holds(st.nodes[path[c] as int], 1, false)
}

proof fn lemma_total_push(s: Seq<int>, x: int)
    ensures
        total(s.push(x)) == total(s) + x,
    decreases s.len(),
{
    if s.len() == 0 {
        assert(s.push(x).drop_first() =~= Seq::empty());
        assert(total(s.push(x).drop_first()) == 0);
    } else {
        lemma_total_push(s.drop_first(), x);
        assert(s.push(x).drop_first() =~= s.drop_first().push(x));
    }
}

proof fn lemma_host_tokens(st: UState, path: Seq<NodeId>, k: int, d: int, x: NodeId)
    requires
        before(path, x, d),
        0 <= k <= d,
    ensures
        st.host_tokens(path, k, x) == total(host_runs(st, path).subrange(k, d)),
    decreases d - k,
{
    let runs = host_runs(st, path);
    if k < d {
        assert(path[k] != x);
        lemma_host_tokens(st, path, k + 1, d, x);
        assert(runs.subrange(k, d).drop_first() =~= runs.subrange(k + 1, d));
    }
}

proof fn lemma_window_tokens(st: UState, path: Seq<NodeId>, k: int, c: int)
    requires
        windowed(st, path, c),
        0 <= k <= c,
    ensures
        st.swa_host_tokens(path, k, total(window_runs(st, path).take(k))) == total(
            window_loads(st, path).subrange(k, c),
        ),
    decreases c - k,
{
    let runs = window_runs(st, path);
    let loads = window_loads(st, path);
    if k < c {
        let n = st.nodes[path[k] as int];
        assert(fitting::holds(n, 1, false));
        lemma_window_tokens(st, path, k + 1, c);
        lemma_total_push(runs.take(k), runs[k]);
        assert(runs.take(k).push(runs[k]) =~= runs.take(k + 1));
        assert(loads.subrange(k, c).drop_first() =~= loads.subrange(k + 1, c));
    }
}

/// What a match says is to be brought back from the host. Of FULL slots: those
/// the host holds on the path of the best node, down to the device node and
/// no further. Of window slots: those that the host alone holds among the
/// nodes that make up the window. Of states: the one of the best node, if the
/// host alone holds it.
pub proof fn law_match_host_hits(st: UState, ns: u32, raw: Seq<i64>)
    requires
        st.wf(),
        st.roomy(1),
        st.flat(raw).len() > 0,
    ensures
        ({
            let (t, m) = st.after_match(ns, raw);
            let path = t.shape.up(m.best);
            let n = t.nodes[m.best as int];
            &&& forall|d: int| #[trigger]
                before(path, m.device_node, d) ==> m.host_hit == total(host_runs(t, path).take(d))
            &&& st.cfg.swa() ==> forall|c: int| #[trigger]
                windowed(t, path, c) ==> m.swa_hit == total(window_loads(t, path).take(c))
            &&& !st.cfg.swa() ==> m.swa_hit == 0
            &&& m.mamba_hit == 1 || m.mamba_hit == 0
            &&& m.mamba_hit == 1 <==> st.cfg.mamba() && n.value[2] is None && n.host[2] is Some
        }),
{
    let w = st.walk(ns, raw);
    let a = st.walked(w);
    let ids = st.passed(w);
    let (t, m) = st.after_match(ns, raw);
    matching::lemma_flat(st, raw);
    matching::lemma_walked(st, ns, raw);
    laws::lemma_usable_range(a, ids, ids.len() as int, true);
    laws::lemma_usable_range(a, ids, ids.len() as int, false);
    assert(a.shape.has(m.best));
    laws::lemma_refreshed_runs(a, m.best);
    let path = t.shape.up(m.best);
    topo::lemma_up(a.shape, m.best);
    assert(laws::within(a, path));
    assert(m.host_hit == t.host_tokens(path, 0, m.device_node)) by {
        lemma_tokens_same(a, t, path, 0, m.device_node, 0);
    }
    assert(st.cfg.swa() ==> m.swa_hit == t.swa_host_tokens(path, 0, 0)) by {
        lemma_tokens_same(a, t, path, 0, m.device_node, 0);
    }
    assert forall|d: int| #[trigger] before(path, m.device_node, d) implies m.host_hit == total(
        host_runs(t, path).take(d),
    ) by {
        lemma_host_tokens(t, path, 0, d, m.device_node);
    }
    if st.cfg.swa() {
        assert forall|c: int| #[trigger] windowed(t, path, c) implies m.swa_hit == total(
            window_loads(t, path).take(c),
        ) by {
            lemma_window_tokens(t, path, 0, c);
            assert(window_runs(t, path).take(0).len() == 0);
        }
    }
}

proof fn lemma_tokens_same(a: UState, b: UState, path: Seq<NodeId>, k: int, stop: NodeId, seen: int)
    requires
        laws::same_runs(a, b),
        laws::within(a, path),
        0 <= k <= path.len(),
    ensures
        a.host_tokens(path, k, stop) == b.host_tokens(path, k, stop),
        a.swa_host_tokens(path, k, seen) == b.swa_host_tokens(path, k, seen),
    decreases path.len() - k,
{
    if k < path.len() {
        let n = a.nodes[path[k] as int];
        assert(b.nodes[path[k] as int].value == n.value);
        assert(b.nodes[path[k] as int].host == n.host);
        lemma_tokens_same(a, b, path, k + 1, stop, seen + on_either(n, 1));
    }
}

} // verus!
