//! Which leaf goes first: what each eviction policy means in terms of what a
//! node holds.

use crate::policy::EvictionPolicy;
use crate::topo::NodeId;
use crate::unified::evict;
use crate::unified::model::{Ranked, UNodeState, UState};
use crate::unified::facts;
use crate::unified::{Freed, CT_FULL};
use vstd::prelude::*;

verus! {

/// Of nodes `i` and `j` that hold `a` and `b`, whether `policy` evicts `i`
/// before `j`. Equal stamps go by id.
pub open spec fn goes_first(policy: EvictionPolicy, a: UNodeState, i: NodeId, b: UNodeState, j: NodeId) -> bool {
    let older = a.access < b.access || (a.access == b.access && i < j);
    match policy {
        EvictionPolicy::Lru => older,
        EvictionPolicy::Lfu => a.hits < b.hits || (a.hits == b.hits && older),
        EvictionPolicy::Fifo => a.creation < b.creation || (a.creation == b.creation && i < j),
        EvictionPolicy::Mru => a.access > b.access || (a.access == b.access && i < j),
        EvictionPolicy::Filo => a.creation > b.creation || (a.creation == b.creation && i < j),
        EvictionPolicy::Priority => a.priority < b.priority || (a.priority == b.priority && older),
        EvictionPolicy::Slru { threshold } => {
            let on_trial = a.hits < threshold as i64;
            let other_on_trial = b.hits < threshold as i64;
            (on_trial && !other_on_trial) || (on_trial == other_on_trial && older)
        },
    }
}

/// Whether the device side of `x` may go: a node below the root with FULL
/// slots on the device that nothing locks, with no such slots below it.
pub open spec fn may_leave_device(st: UState, x: NodeId) -> bool {
    &&& 0 < x < st.nodes.len()
    &&& st.shape.nodes[x as int].attached
    &&& st.nodes[x as int].value[0] is Some
    &&& forall|ct: int| 0 <= ct < 4 ==> #[trigger] st.nodes[x as int].lock[ct] == 0
    &&& forall|c: NodeId| #[trigger] st.shape.is_child(x, c) ==> st.nodes[c as int].value[0] is None
}

/// Whether `x` may go from the host: a leaf with FULL slots on the host alone
/// that nothing locks there.
pub open spec fn may_leave_host(st: UState, x: NodeId) -> bool {
    &&& 0 < x < st.nodes.len()
    &&& st.shape.nodes[x as int].attached
    &&& st.nodes[x as int].value[0] is None
    &&& st.nodes[x as int].host[0] is Some
    &&& forall|ct: int| 0 <= ct < 4 ==> #[trigger] st.nodes[x as int].host_lock[ct] == 0
    &&& forall|c: NodeId| !#[trigger] st.shape.is_child(x, c)
}

/// Stamps that can be told apart when time runs backwards.
pub open spec fn stamped_apart(st: UState) -> bool {
    forall|i: int|
        0 <= i < st.nodes.len() ==> (#[trigger] st.nodes[i]).access > i128::MIN && st.nodes[i].creation > i128::MIN
}

pub proof fn lemma_may(st: UState, x: NodeId)
    ensures
        may_leave_device(st, x) == st.device_leaf(x),
        may_leave_host(st, x) == st.host_leaf(x),
{
    let n = st.nodes[x as int];
    assert(n.unlocked() <==> forall|ct: int| 0 <= ct < 4 ==> #[trigger] n.lock[ct] == 0);
    assert(n.host_unlocked() <==> forall|ct: int| 0 <= ct < 4 ==> #[trigger] n.host_lock[ct] == 0);
}

/// The order of the line is the order of the policy.
proof fn lemma_order(st: UState, x: NodeId, y: NodeId)
    requires
        st.nodes[x as int].access > i128::MIN,
        st.nodes[x as int].creation > i128::MIN,
        st.nodes[y as int].access > i128::MIN,
        st.nodes[y as int].creation > i128::MIN,
    ensures
        st.rank(x).before(st.rank(y)) == goes_first(
            st.cfg.eviction_policy,
            st.nodes[x as int],
            x,
            st.nodes[y as int],
            y,
        ),
        x != y ==> st.rank(x).before(st.rank(y)) == !st.rank(y).before(st.rank(x)),
{
}

/// A line in which each node has its present place.
pub open spec fn up_to_date(st: UState, heap: Seq<Ranked>) -> bool {
    forall|k: int|
        #![trigger heap[k]]
        0 <= k < heap.len() ==> heap[k].id < st.nodes.len() && heap[k] == st.rank(heap[k].id)
}

/// Whether `x` stands in the line.
pub open spec fn stands_in(heap: Seq<Ranked>, x: NodeId) -> bool {
    exists|k: int| 0 <= k < heap.len() && (#[trigger] heap[k]).id == x
}

proof fn lemma_line(st: UState, k: int)
    requires
        0 <= k <= st.nodes.len() <= NodeId::MAX,
    ensures
        up_to_date(st, st.ranked_leaves(k)),
        forall|x: NodeId| #[trigger] stands_in(st.ranked_leaves(k), x) <==> x < k && st.device_leaf(x),
    decreases k,
{
    if k > 0 {
        lemma_line(st, k - 1);
        let s = st.ranked_leaves(k - 1);
        let t = st.ranked_leaves(k);
        let y = (k - 1) as NodeId;
        assert forall|x: NodeId| #[trigger] stands_in(t, x) <==> x < k && st.device_leaf(x) by {
            assert(stands_in(s, x) <==> x < k - 1 && st.device_leaf(x));
            if stands_in(s, x) {
                let j = choose|j: int| 0 <= j < s.len() && (#[trigger] s[j]).id == x;
                assert(t[j].id == x);
            }
            if st.device_leaf(y) {
                assert(t[s.len() as int].id == y);
                if stands_in(t, x) && x != y {
                    let j = choose|j: int| 0 <= j < t.len() && (#[trigger] t[j]).id == x;
                    assert(s[j].id == x);
                }
            }
        }
    } else {
        assert forall|x: NodeId| !#[trigger] stands_in(st.ranked_leaves(k), x) by {}
    }
}

/// What comes off a line.
proof fn lemma_next(st: UState, heap: Seq<Ranked>)
    requires
        up_to_date(st, heap),
        stamped_apart(st),
    ensures
        ({
            let (rest, r) = st.next_leaf(heap);
            &&& r is None <==> forall|y: NodeId| #[trigger] stands_in(heap, y) ==> !st.device_leaf(y)
            &&& r matches Some(x) ==> {
                &&& stands_in(heap, x)
                &&& st.device_leaf(x)
                &&& forall|y: NodeId| #[trigger] stands_in(heap, y) && st.device_leaf(y) && y != x ==> goes_first(
                    st.cfg.eviction_policy,
                    st.nodes[x as int],
                    x,
                    st.nodes[y as int],
                    y,
                )
                &&& forall|y: NodeId| #[trigger] stands_in(heap, y) && st.device_leaf(y) && y != x ==> stands_in(rest, y)
            }
            &&& up_to_date(st, rest)
        }),
    decreases heap.len(),
{
    if heap.len() > 0 {
        evict::lemma_first_place(heap);
        let k = evict::first_place(heap);
        let x = heap[k].id;
        let less = heap.remove(k);
        assert(stands_in(heap, x));
        assert forall|y: NodeId| y != x implies stands_in(less, y) == #[trigger] stands_in(heap, y) by {
            if stands_in(heap, y) {
                let j = choose|j: int| 0 <= j < heap.len() && (#[trigger] heap[j]).id == y;
                let i = if j < k { j } else { j - 1 };
                assert(less[i].id == y);
            }
            if stands_in(less, y) {
                let j = choose|j: int| 0 <= j < less.len() && (#[trigger] less[j]).id == y;
                let i = if j < k { j } else { j + 1 };
                assert(heap[i].id == y);
            }
        }
        assert forall|j: int| #![trigger less[j]]
            0 <= j < less.len() implies less[j].id < st.nodes.len() && less[j] == st.rank(less[j].id) by {
            assert(less[j] == heap[if j < k { j } else { j + 1 }]);
        }
        if st.device_leaf(x) {
            assert forall|y: NodeId| #[trigger] stands_in(heap, y) && st.device_leaf(y) && y != x implies goes_first(
                st.cfg.eviction_policy,
                st.nodes[x as int],
                x,
                st.nodes[y as int],
                y,
            ) by {
                let j = choose|j: int| 0 <= j < heap.len() && (#[trigger] heap[j]).id == y;
                assert(heap[j] == st.rank(y));
                assert(heap[k] == st.rank(x));
                lemma_order(st, x, y);
            }
        } else {
            lemma_next(st, less);
            let r = st.next_leaf(less).1;
            assert forall|y: NodeId| #[trigger] stands_in(heap, y) && st.device_leaf(y) implies stands_in(less, y) by {}
            if r is Some {
                assert(stands_in(heap, r->0));
            } else {
                assert forall|y: NodeId| #[trigger] stands_in(heap, y) implies !st.device_leaf(y) by {
                    if y != x {
                        assert(stands_in(less, y));
                    }
                }
            }
            if forall|y: NodeId| #[trigger] stands_in(heap, y) ==> !st.device_leaf(y) {
                assert forall|y: NodeId| #[trigger] stands_in(less, y) implies !st.device_leaf(y) by {
                    if y != x {
                        assert(stands_in(heap, y));
                    }
                }
            }
        }
    } else {
        assert forall|y: NodeId| !#[trigger] stands_in(heap, y) by {}
    }
}

/// The first step of a device eviction of FULL slots gives a leaf that may
/// go, and of all such leaves the one that the policy evicts first: the one
/// with the oldest access, the fewest hits, the oldest or the newest
/// creation, and so on. It gives none only if none may go.
pub proof fn law_full_eviction_picks(st: UState, request: i64, running: i64)
    requires
        st.wf(),
        running < request,
        stamped_apart(st),
    ensures
        ({
            let (t, victim, progress, freed) = st.evict_started(CT_FULL, request).evict_stepped(CT_FULL, running);
            &&& progress == victim is Some
            &&& t.nodes == st.nodes && t.shape == st.shape
            &&& victim is None <==> forall|y: NodeId| !#[trigger] may_leave_device(st, y)
            &&& victim matches Some(x) ==> {
                &&& may_leave_device(st, x)
                &&& forall|y: NodeId| #[trigger] may_leave_device(st, y) && y != x ==> goes_first(
                    st.cfg.eviction_policy,
                    st.nodes[x as int],
                    x,
                    st.nodes[y as int],
                    y,
                )
            }
        }),
{
    let a = st.evict_started(CT_FULL, request);
    let heap = st.ranked_leaves(st.nodes.len() as int);
    lemma_line(st, st.nodes.len() as int);
    assert forall|x: NodeId| #[trigger] a.device_leaf(x) == st.device_leaf(x) by {
        assert(a.no_device_kid(x) == st.no_device_kid(x));
    }
    assert forall|x: NodeId| #[trigger] may_leave_device(st, x) == a.device_leaf(x) by {
        lemma_may(st, x);
    }
    assert(up_to_date(a, heap)) by {
        assert forall|k: int| #![trigger heap[k]] 0 <= k < heap.len() implies heap[k].id < a.nodes.len() && heap[k] == a.rank(
            heap[k].id,
        ) by {
            assert(a.rank(heap[k].id) == st.rank(heap[k].id));
        }
    }
    lemma_next(a, heap);
    assert forall|x: NodeId| may_leave_device(st, x) implies #[trigger] stands_in(heap, x) by {
        lemma_may(st, x);
        assert(st.device_leaf(x));
    }
    let victim = a.next_leaf(heap).1;
    if victim is None {
        assert forall|y: NodeId| !#[trigger] may_leave_device(st, y) by {
            if may_leave_device(st, y) {
                assert(stands_in(heap, y));
                assert(a.device_leaf(y));
            }
        }
    } else {
        let x = victim->0;
        assert(a.device_leaf(x));
        assert(may_leave_device(st, x));
        assert forall|y: NodeId| #[trigger] may_leave_device(st, y) && y != x implies goes_first(
            st.cfg.eviction_policy,
            st.nodes[x as int],
            x,
            st.nodes[y as int],
            y,
        ) by {
            assert(stands_in(heap, y));
            assert(a.device_leaf(y));
        }
    }
}

/// The line of a device eviction of FULL slots that is under way: each leaf
/// that may go stands in it, but for the one given out last and the node
/// above that one.
pub open spec fn line_holds(st: UState) -> bool {
    st.full_walk matches Some(w) ==> {
        &&& up_to_date(st, w.heap)
        &&& forall|y: NodeId| #[trigger]
            may_leave_device(st, y) ==> stands_in(w.heap, y) || (w.last matches Some(x) && 0 < x < st.nodes.len() && (y
                == x || y == st.shape.nodes[x as int].parent))
    }
}

/// A device eviction of FULL slots starts with every leaf that may go.
pub proof fn law_full_eviction_starts(st: UState, request: i64)
    requires
        st.wf(),
    ensures
        line_holds(st.evict_started(CT_FULL, request)),
        st.evict_started(CT_FULL, request).full_walk matches Some(w) && w.request == request && w.last is None,
{
    let a = st.evict_started(CT_FULL, request);
    let heap = st.ranked_leaves(st.nodes.len() as int);
    lemma_line(st, st.nodes.len() as int);
    assert forall|k: int| #![trigger heap[k]] 0 <= k < heap.len() implies heap[k].id < a.nodes.len() && heap[k] == a.rank(
            heap[k].id,
        ) by {
        assert(a.rank(heap[k].id) == st.rank(heap[k].id));
    }
    assert forall|y: NodeId| #[trigger] may_leave_device(a, y) implies stands_in(heap, y) by {
        assert(may_leave_device(st, y));
        lemma_may(st, y);
    }
}

/// Each further step, once the leaf given out last is gone, gives of all the
/// leaves that may go then the one that the policy evicts first.
pub proof fn law_full_eviction_goes_on(st: UState, running: i64)
    requires
        line_holds(st),
        stamped_apart(st),
        st.full_walk matches Some(w) && running < w.request && (w.last matches Some(x) ==> 0 < x < st.nodes.len()
            && !may_leave_device(st, x)),
    ensures
        ({
            let (t, victim, progress, freed) = st.evict_stepped(CT_FULL, running);
            &&& line_holds(t)
            &&& t == (UState { full_walk: t.full_walk, ..st })
            &&& t.full_walk matches Some(w) && w.last == victim && w.request == st.full_walk->0.request
            &&& victim is None <==> forall|y: NodeId| !#[trigger] may_leave_device(st, y)
            &&& victim matches Some(x) ==> {
                &&& may_leave_device(st, x)
                &&& forall|y: NodeId| #[trigger] may_leave_device(st, y) && y != x ==> goes_first(
                    st.cfg.eviction_policy,
                    st.nodes[x as int],
                    x,
                    st.nodes[y as int],
                    y,
                )
            }
        }),
{
    let w = st.full_walk->0;
    let line = st.heap_after(w.heap, w.last);
    let (t, victim, progress, freed) = st.evict_stepped(CT_FULL, running);
    assert(up_to_date(st, line));
    assert forall|y: NodeId| #[trigger] may_leave_device(st, y) implies stands_in(line, y) && st.device_leaf(y) by {
        lemma_may(st, y);
        if stands_in(w.heap, y) {
            let j = choose|j: int| 0 <= j < w.heap.len() && (#[trigger] w.heap[j]).id == y;
            assert(line[j].id == y);
        } else {
            assert(line[w.heap.len() as int].id == y);
        }
    }
    lemma_next(st, line);
    let rest = st.next_leaf(line).0;
    if let Some(x) = victim {
        lemma_may(st, x);
        assert forall|y: NodeId| #[trigger] may_leave_device(st, y) && y != x implies goes_first(
            st.cfg.eviction_policy,
            st.nodes[x as int],
            x,
            st.nodes[y as int],
            y,
        ) && stands_in(rest, y) by {
            assert(stands_in(line, y));
        }
    } else {
        assert forall|y: NodeId| !#[trigger] may_leave_device(st, y) by {
            if may_leave_device(st, y) {
                assert(stands_in(line, y));
            }
        }
    }
    assert(line_holds(t)) by {
        assert forall|k: int| #![trigger rest[k]] 0 <= k < rest.len() implies rest[k].id < t.nodes.len() && rest[k] == t.rank(
            rest[k].id,
        ) by {
            assert(t.rank(rest[k].id) == st.rank(rest[k].id));
        }
        assert forall|y: NodeId| #[trigger] may_leave_device(t, y) implies stands_in(rest, y) || victim == Some(y) by {
            assert(may_leave_device(st, y));
        }
    }
}

/// The eviction of the leaf given out last leaves the line in order.
pub proof fn law_full_eviction_keeps_the_line(st: UState, x: NodeId)
    requires
        st.wf(),
        line_holds(st),
        st.full_walk matches Some(w) && w.last == Some(x),
        may_leave_device(st, x),
        st.backuped(x) || st.shape.is_leaf(x),
    ensures
        ({
            let t = st.leaf_evicted(x, false).0;
            &&& line_holds(t)
            &&& !may_leave_device(t, x)
            &&& t.full_walk == st.full_walk
            &&& stamped_apart(st) ==> stamped_apart(t)
        }),
{
    let t = st.leaf_evicted(x, false).0;
    let w = st.full_walk->0;
    let p = st.shape.nodes[x as int].parent;
    lemma_may(st, x);
    assert(st.node_ok(x as int));
    assert(st.shape.is_child(p, x));
    crate::topo::lemma_path_grows(st.shape, x);
    assert(t.nodes.len() == st.nodes.len());
    assert forall|i: int| 0 <= i < st.nodes.len() implies {
        &&& (#[trigger] t.nodes[i]).access == st.nodes[i].access
        &&& t.nodes[i].creation == st.nodes[i].creation
        &&& t.nodes[i].hits == st.nodes[i].hits
        &&& t.nodes[i].priority == st.nodes[i].priority
    } by {
        if i != x && i != p {
            assert(t.nodes[i] == st.nodes[i]);
        }
    }
    assert forall|i: int| 0 <= i < st.nodes.len() && i != x implies (#[trigger] t.nodes[i]).value == st.nodes[i].value
        && t.nodes[i].lock == st.nodes[i].lock by {
        if i != p {
            assert(t.nodes[i] == st.nodes[i]);
        }
    }
    assert forall|k: int| #![trigger w.heap[k]] 0 <= k < w.heap.len() implies w.heap[k].id < t.nodes.len() && w.heap[k]
        == t.rank(w.heap[k].id) by {
        let y = w.heap[k].id;
        assert(t.nodes[y as int].access == st.nodes[y as int].access);
        assert(t.rank(y) == st.rank(y));
    }
    assert(t.nodes[x as int].value[0] is None);
    assert forall|y: NodeId| #[trigger] may_leave_device(t, y) implies stands_in(w.heap, y) || y == p by {
        if y != p {
            assert(y != x);
            assert(t.nodes[y as int].value == st.nodes[y as int].value);
            assert(may_leave_device(st, y)) by {
                assert forall|ct: int| 0 <= ct < 4 implies #[trigger] st.nodes[y as int].lock[ct] == 0 by {
                    assert(t.nodes[y as int].lock[ct] == 0);
                }
                assert forall|c: NodeId| #[trigger] st.shape.is_child(y, c) implies st.nodes[c as int].value[0] is None by {
                    assert(c != x);
                    assert(t.shape.is_child(y, c));
                    assert(t.nodes[c as int].value == st.nodes[c as int].value);
                }
            }
        }
    }
}

/// The first of the host leaves below `k`.
proof fn lemma_first_below(st: UState, k: int) -> (r: Option<NodeId>)
    requires
        0 <= k <= st.nodes.len() <= NodeId::MAX,
        stamped_apart(st),
    ensures
        r is None ==> forall|y: NodeId| #[trigger] st.host_leaf(y) ==> y >= k,
        r matches Some(x) ==> x < k && st.host_leaf(x) && forall|y: NodeId| #[trigger]
            st.host_leaf(y) && y < k && y != x ==> st.rank(x).before(st.rank(y)),
    decreases k,
{
    if k <= 0 {
        None
    } else {
        let x = (k - 1) as NodeId;
        let r = lemma_first_below(st, k - 1);
        if !st.host_leaf(x) {
            r
        } else {
            match r {
                None => Some(x),
                Some(y) => {
                    lemma_order(st, x, y);
                    if st.rank(x).before(st.rank(y)) {
                        assert forall|z: NodeId| #[trigger] st.host_leaf(z) && z < k && z != x implies st.rank(x).before(
                            st.rank(z),
                        ) by {
                            if z != y {
                                assert(st.rank(y).before(st.rank(z)));
                            }
                        }
                        Some(x)
                    } else {
                        Some(y)
                    }
                },
            }
        }
    }
}

/// The host leaf that goes first.
proof fn lemma_host_victim(st: UState)
    requires
        st.nodes.len() <= NodeId::MAX,
        stamped_apart(st),
    ensures
        st.host_victim() is None <==> forall|y: NodeId| !#[trigger] st.host_leaf(y),
        st.host_victim() matches Some(x) ==> st.host_leaf(x) && forall|y: NodeId| #[trigger]
            st.host_leaf(y) && y != x ==> goes_first(
            st.cfg.eviction_policy,
            st.nodes[x as int],
            x,
            st.nodes[y as int],
            y,
        ),
{
    let r = lemma_first_below(st, st.nodes.len() as int);
    match r {
        None => {
            assert forall|x: NodeId| !#[trigger] st.host_first(x) by {
                if st.host_first(x) {
                    assert(st.host_leaf(x));
                }
            }
            assert forall|y: NodeId| !#[trigger] st.host_leaf(y) by {}
        },
        Some(m) => {
            assert(st.host_first(m));
            assert(st.host_leaf(m));
        },
    }
    if let Some(x) = st.host_victim() {
        assert(st.host_first(x));
        assert forall|y: NodeId| #[trigger] st.host_leaf(y) && y != x implies goes_first(
            st.cfg.eviction_policy,
            st.nodes[x as int],
            x,
            st.nodes[y as int],
            y,
        ) by {
            lemma_order(st, x, y);
        }
    }
}

/// Two nodes alike in what a host eviction looks at.
pub open spec fn alike(a: UNodeState, b: UNodeState) -> bool {
    &&& a.value == b.value
    &&& a.lock == b.lock
    &&& a.host_lock == b.host_lock
    &&& a.access == b.access
    &&& a.creation == b.creation
    &&& a.hits == b.hits
    &&& a.priority == b.priority
}

/// What an eviction of host leaves does from `st` to `t`.
pub open spec fn leaves_went(st: UState, t: UState) -> bool {
    &&& t.nodes.len() == st.nodes.len()
    &&& t.cfg == st.cfg
    &&& forall|z: NodeId| #[trigger] t.live(z) ==> st.live(z)
    &&& forall|z: NodeId|
        #![trigger t.live(z)]
        st.live(z) && !t.live(z) ==> st.nodes[z as int].value[0] is None && st.nodes[z as int].host_unlocked()
    &&& forall|z: int|
        0 <= z < st.nodes.len() && t.live(z as NodeId) ==> alike(#[trigger] t.nodes[z], st.nodes[z])
    &&& forall|x: NodeId, y: NodeId|
        #![trigger may_leave_host(st, x), may_leave_host(st, y)]
        may_leave_host(st, x) && may_leave_host(st, y) && !t.live(x) && t.live(y) ==> goes_first(
            st.cfg.eviction_policy,
            st.nodes[x as int],
            x,
            st.nodes[y as int],
            y,
        )
}

proof fn lemma_host_driven(st: UState, n: i64, out: Freed)
    requires
        st.shape.wf(),
        st.nodes.len() == st.shape.nodes.len() <= NodeId::MAX,
        stamped_apart(st),
    ensures
        ({
            let (t, o) = st.host_driven(n, out);
            &&& leaves_went(st, t)
            &&& forall|z: int|
                0 <= z < st.nodes.len() && t.live(z as NodeId) ==> (#[trigger] t.nodes[z]).host == st.nodes[z].host
            &&& o.counted(CT_FULL) >= n || forall|y: NodeId| !#[trigger] may_leave_host(t, y)
        }),
    decreases facts::population(st.shape),
{
    lemma_host_victim(st);
    let (t, o) = st.host_driven(n, out);
    if st.host_victim() is Some && out.counted(CT_FULL) < n {
        let x = st.host_victim()->0;
        let (a, oa) = st.deleted(x, 2, out, true);
        let p = st.shape.nodes[x as int].parent;
        facts::lemma_population(st.shape, x);
        crate::topo::lemma_path_grows(st.shape, x);
        crate::topo::lemma_prune_wf(st.shape, x);
        assert(a.nodes.len() == st.nodes.len());
        assert forall|i: int| 0 <= i < st.nodes.len() implies (#[trigger] a.nodes[i]).access == st.nodes[i].access
            && a.nodes[i].creation == st.nodes[i].creation && (i != x ==> alike(a.nodes[i], st.nodes[i])
            && a.nodes[i].host == st.nodes[i].host) by {
            if i != x && i != p {
                assert(a.nodes[i] == st.nodes[i]);
            }
        }
        assert(stamped_apart(a));
        lemma_host_driven(a, n, oa);
        assert(t == a.host_driven(n, oa).0);
        assert forall|z: NodeId| #[trigger] a.live(z) == (st.live(z) && z != x) by {}
        assert(!a.live(x));
        lemma_may(st, x);
        assert forall|y: NodeId| #[trigger] may_leave_host(st, y) && y != x implies may_leave_host(a, y) && alike(
            a.nodes[y as int],
            st.nodes[y as int],
        ) by {
            if y == p {
                assert(st.shape.is_child(y, x));
            }
            assert(a.live(y));
            assert(a.nodes[y as int].host == st.nodes[y as int].host);
            assert forall|c: NodeId| !#[trigger] a.shape.is_child(y, c) by {
                if a.shape.is_child(y, c) {
                    assert(st.shape.is_child(y, c));
                }
            }
            assert forall|ct: int| 0 <= ct < 4 implies #[trigger] a.nodes[y as int].host_lock[ct] == 0 by {
                assert(st.nodes[y as int].host_lock[ct] == 0);
            }
        }
        assert(leaves_went(st, t)) by {
            assert forall|z: NodeId| #![trigger t.live(z)] st.live(z) && !t.live(z) implies st.nodes[z as int].value[0]
                is None && st.nodes[z as int].host_unlocked() by {
                if z != x {
                    assert(a.live(z));
                    assert(alike(a.nodes[z as int], st.nodes[z as int]));
                }
            }
            assert forall|z: NodeId| #[trigger] t.live(z) implies st.live(z) by {
                assert(a.live(z));
            }
            assert forall|z: int| 0 <= z < st.nodes.len() && t.live(z as NodeId) implies alike(
                #[trigger] t.nodes[z],
                st.nodes[z],
            ) by {
                assert(a.live(z as NodeId));
                assert(alike(a.nodes[z], st.nodes[z]));
                assert(alike(t.nodes[z], a.nodes[z]));
            }
            assert forall|u: NodeId, v: NodeId|
                #![trigger may_leave_host(st, u), may_leave_host(st, v)]
                may_leave_host(st, u) && may_leave_host(st, v) && !t.live(u) && t.live(v) implies goes_first(
                st.cfg.eviction_policy,
                st.nodes[u as int],
                u,
                st.nodes[v as int],
                v,
            ) by {
                assert(a.live(v));
                if u == x {
                    lemma_may(st, v);
                    assert(st.host_leaf(v));
                } else {
                    assert(may_leave_host(a, u) && may_leave_host(a, v));
                    assert(alike(a.nodes[u as int], st.nodes[u as int]));
                    assert(alike(a.nodes[v as int], st.nodes[v as int]));
                }
            }
        }
        assert forall|z: int| 0 <= z < st.nodes.len() && t.live(z as NodeId) implies (#[trigger] t.nodes[z]).host
            == st.nodes[z].host by {
            assert(a.live(z as NodeId));
            assert(a.nodes[z].host == st.nodes[z].host);
        }
    } else {
        assert(t == st);
        if out.counted(CT_FULL) < n {
            assert forall|y: NodeId| !#[trigger] may_leave_host(t, y) by {
                lemma_may(t, y);
                assert(!st.host_leaf(y));
            }
        }
    }
}

/// Reclaiming duplicates takes nothing that the host alone holds.
spec fn swept_clean(st: UState, a: UState) -> bool {
    &&& a.shape == st.shape
    &&& a.cfg == st.cfg
    &&& a.nodes.len() == st.nodes.len()
    &&& forall|i: int|
        0 <= i < st.nodes.len() ==> {
            &&& alike(#[trigger] a.nodes[i], st.nodes[i])
            &&& st.nodes[i].value[0] is None ==> a.nodes[i] == st.nodes[i]
            &&& a.nodes[i].host != st.nodes[i].host ==> a.nodes[i].host[0] is None && st.nodes[i].host_lock[0] == 0
        }
}

proof fn lemma_swept(st: UState, ids: Seq<NodeId>, k: int, spare: bool, n: i64, out: Freed)
    requires
        0 <= k,
        forall|j: int| 0 <= j < ids.len() ==> (#[trigger] ids[j]) < st.nodes.len(),
        forall|i: int| 0 <= i < st.nodes.len() ==> (#[trigger] st.nodes[i]).host.len() == 4,
    ensures
        swept_clean(st, st.swept(ids, k, spare, n, out).0),
        forall|i: int| 0 <= i < st.nodes.len() ==> (#[trigger] st.swept(ids, k, spare, n, out).0.nodes[i]).host.len() == 4,
    decreases ids.len() - k,
{
    if !(k >= ids.len() || out.counted(CT_FULL) >= n) {
        let (a, o) = st.duplicate_swept(ids[k], spare, out);
        assert(ids[k] < st.nodes.len());
        assert(swept_clean(st, a));
        lemma_swept(a, ids, k + 1, spare, n, o);
        let t = st.swept(ids, k, spare, n, out).0;
        assert forall|i: int| 0 <= i < st.nodes.len() implies {
            &&& alike(#[trigger] t.nodes[i], st.nodes[i])
            &&& st.nodes[i].value[0] is None ==> t.nodes[i] == st.nodes[i]
            &&& t.nodes[i].host != st.nodes[i].host ==> t.nodes[i].host[0] is None && st.nodes[i].host_lock[0] == 0
        } by {
            assert(alike(a.nodes[i], st.nodes[i]));
            assert(alike(t.nodes[i], a.nodes[i]));
        }
    }
}

/// A host eviction of FULL slots deletes leaves of the tree that the host
/// alone holds and nothing locks there, in the order of the policy: a leaf
/// that goes goes before any that may go and stays. It ends when enough is
/// freed or none may go; what the device holds stays.
pub proof fn law_host_eviction_picks(st: UState, n: i64)
    requires
        st.wf(),
        stamped_apart(st),
    ensures
        ({
            let (t, freed) = st.host_evicted(CT_FULL, n);
            &&& leaves_went(st, t)
            &&& freed.counted(CT_FULL) >= n || forall|y: NodeId| !#[trigger] may_leave_host(t, y)
        }),
{
    let (t, freed) = st.host_evicted(CT_FULL, n);
    let (a, o) = if st.cfg.is_write_back {
        st.duplicates_reclaimed(n, Freed::none())
    } else {
        (st, Freed::none())
    };
    assert(swept_clean(st, a)) by {
        if st.cfg.is_write_back {
            assert forall|i: int| 0 <= i < st.nodes.len() implies (#[trigger] st.nodes[i]).host.len() == 4 by {
                if i > 0 {
                    assert(st.node_ok(i));
                }
            }
            assert forall|j: int| 0 <= j < st.dups.len() implies (#[trigger] st.dups[j]) < st.nodes.len() by {
                assert(st.dups.contains(st.dups[j]));
            }
            lemma_swept(st, st.dups, 0, true, n, Freed::none());
            let (b, ob) = st.swept(st.dups, 0, true, n, Freed::none());
            lemma_swept(b, st.dups, 0, false, n, ob);
            assert forall|i: int| 0 <= i < st.nodes.len() implies {
                &&& alike(#[trigger] a.nodes[i], st.nodes[i])
                &&& st.nodes[i].value[0] is None ==> a.nodes[i] == st.nodes[i]
                &&& a.nodes[i].host != st.nodes[i].host ==> a.nodes[i].host[0] is None && st.nodes[i].host_lock[0] == 0
            } by {
                assert(alike(b.nodes[i], st.nodes[i]));
                assert(alike(a.nodes[i], b.nodes[i]));
            }
        }
    }
    assert(stamped_apart(a)) by {
        assert forall|i: int| 0 <= i < a.nodes.len() implies (#[trigger] a.nodes[i]).access > i128::MIN
            && a.nodes[i].creation > i128::MIN by {
            assert(alike(a.nodes[i], st.nodes[i]));
        }
    }
    lemma_host_driven(a, n, o);
    assert(t == a.host_driven(n, o).0);
    assert forall|y: NodeId| #[trigger] may_leave_host(st, y) implies may_leave_host(a, y) && a.nodes[y as int]
        == st.nodes[y as int] by {
        assert(alike(a.nodes[y as int], st.nodes[y as int]));
    }
    assert(leaves_went(st, t)) by {
        assert forall|z: NodeId| #[trigger] t.live(z) implies st.live(z) by {
            assert(a.live(z));
        }
        assert forall|z: NodeId| #![trigger t.live(z)] st.live(z) && !t.live(z) implies st.nodes[z as int].value[0]
            is None && st.nodes[z as int].host_unlocked() by {
            assert(a.live(z));
            assert(alike(a.nodes[z as int], st.nodes[z as int]));
        }
        assert forall|z: int| 0 <= z < st.nodes.len() && t.live(z as NodeId) implies alike(
            #[trigger] t.nodes[z],
            st.nodes[z],
        ) by {
            assert(alike(a.nodes[z], st.nodes[z]));
            assert(alike(t.nodes[z], a.nodes[z]));
        }
        assert forall|u: NodeId, v: NodeId|
            #![trigger may_leave_host(st, u), may_leave_host(st, v)]
            may_leave_host(st, u) && may_leave_host(st, v) && !t.live(u) && t.live(v) implies goes_first(
            st.cfg.eviction_policy,
            st.nodes[u as int],
            u,
            st.nodes[v as int],
            v,
        ) by {
            assert(may_leave_host(a, u) && may_leave_host(a, v));
        }
    }
}

} // verus!
