//! Intrusive doubly-linked recency list shared by the tree variants.
//!
//! The list has dummy head/tail sentinels and a move-to-front operation for
//! every match/insert walk. Order is maintained structurally, so the
//! eviction order is deterministic without a wall clock.
//!
//! The list itself only knows `NodeId`s. Variant-specific predicates (which
//! lock ref gates eviction, which nodes are members, whether a node is a
//! leaf) live in the tree that owns the list.
//!
//! The model of a list is the sequence of its members, most recently used
//! first.

use crate::topo::NodeId;
use vstd::prelude::*;

verus! {

/// A list position: a real node or one of the two dummy sentinels.
#[derive(Debug, Clone, Copy, PartialEq, Eq, Structural)]
pub enum Lru {
    /// Dummy head, the most-recently-used side.
    Head,
    /// Dummy tail, the least-recently-used side.
    Tail,
    /// A real tree node.
    Node(NodeId),
}

impl Lru {
    /// The node at this position, if it is one.
    pub fn node(self) -> (r: Option<NodeId>)
        ensures
            r == (match self {
                Lru::Node(id) => Some(id),
                _ => None,
            }),
    {
        match self {
            Lru::Node(id) => Some(id),
            _ => None,
        }
    }
}

/// The position before index `i` of `order`.
pub open spec fn before(order: Seq<NodeId>, i: int) -> Lru {
    if i == 0 {
        Lru::Head
    } else {
        Lru::Node(order[i - 1])
    }
}

/// The position after index `i` of `order`.
pub open spec fn after(order: Seq<NodeId>, i: int) -> Lru {
    if i + 1 == order.len() {
        Lru::Tail
    } else {
        Lru::Node(order[i + 1])
    }
}

/// `order` without `id`.
pub open spec fn without(order: Seq<NodeId>, id: NodeId) -> Seq<NodeId> {
    order.remove(order.index_of(id))
}

/// `order` after a visit of `id`: a member moves to the front, another node changes nothing.
pub open spec fn touched(order: Seq<NodeId>, id: NodeId) -> Seq<NodeId> {
    if order.contains(id) {
        seq![id] + without(order, id)
    } else {
        order
    }
}

/// `order` with the member `c` in front and the new node `f` right behind it.
pub open spec fn with_pair(order: Seq<NodeId>, c: NodeId, f: NodeId) -> Seq<NodeId> {
    seq![c, f] + without(order, c)
}

/// `order` without the nodes `xs`, one after the other.
pub open spec fn minus(order: Seq<NodeId>, xs: Seq<NodeId>) -> Seq<NodeId>
    decreases xs.len(),
{
    if xs.len() == 0 {
        order
    } else {
        without(minus(order, xs.drop_last()), xs.last())
    }
}

/// `order` with the nodes `xs` in front, in their order.
pub open spec fn lifted(order: Seq<NodeId>, xs: Seq<NodeId>) -> Seq<NodeId> {
    xs + minus(order, xs)
}

/// The neighbors of the member at `i`, as the link arrays give them.
spec fn linked(prev: Seq<Option<Lru>>, next: Seq<Option<Lru>>, order: Seq<NodeId>, i: int) -> bool {
    &&& prev[order[i] as int] == Some(before(order, i))
    &&& next[order[i] as int] == Some(after(order, i))
}

/// Node ids index the `prev`/`next` arrays; the dummy head/tail live in
/// `head_next`/`tail_prev`.
#[derive(Clone)]
pub struct LRUList {
    /// Predecessor of node `id`; `None` = not in the list.
    prev: Vec<Option<Lru>>,
    /// Successor of node `id`; `None` = not in the list.
    next: Vec<Option<Lru>>,
    /// First real node after the head; `None` = empty list.
    head_next: Option<NodeId>,
    /// Last real node before the tail; `None` = empty list.
    tail_prev: Option<NodeId>,
    order: Ghost<Seq<NodeId>>,
}

impl Default for LRUList {
    fn default() -> (r: Self)
        ensures
            r.wf(),
            r@ == Seq::<NodeId>::empty(),
            r.capacity() == 0,
    {
        LRUList {
            prev: Vec::new(),
            next: Vec::new(),
            head_next: None,
            tail_prev: None,
            order: Ghost(Seq::empty()),
        }
    }
}

impl LRUList {
    /// Members, most recently used first.
    pub closed spec fn view(&self) -> Seq<NodeId> {
        self.order@
    }

    /// Number of node slots.
    pub closed spec fn capacity(&self) -> nat {
        self.prev@.len()
    }

    /// The links spell out the member sequence.
    pub closed spec fn wf(&self) -> bool {
        &&& self.prev@.len() == self.next@.len()
        &&& self.order@.no_duplicates()
        &&& forall|i: int| 0 <= i < self.order@.len() ==> (#[trigger] self.order@[i]) < self.prev@.len()
        &&& forall|i: int|
            0 <= i < self.order@.len() ==> #[trigger] linked(self.prev@, self.next@, self.order@, i)
        &&& forall|id: NodeId|
            id < self.prev@.len() && !self.order@.contains(id) ==> (#[trigger] self.prev@[id as int]) is None
                && self.next@[id as int] is None
        &&& self.head_next == (if self.order@.len() == 0 {
            None
        } else {
            Some(self.order@[0])
        })
        &&& self.tail_prev == (if self.order@.len() == 0 {
            None
        } else {
            Some(self.order@.last())
        })
    }

    /// A well-formed list names each member once, and only slots it has.
    pub proof fn lemma_members(&self)
        requires
            self.wf(),
        ensures
            self@.no_duplicates(),
            forall|i: int| 0 <= i < self@.len() ==> (#[trigger] self@[i]) < self.capacity(),
            forall|id: NodeId| #[trigger] self@.contains(id) ==> id < self.capacity(),
    {
    }

    /// Resize the per-node arrays to `len` slots (new slots start
    /// unlinked). Slots that go away must be unlinked.
    pub fn grow(&mut self, len: usize)
        requires
            old(self).wf(),
            forall|i: int| 0 <= i < old(self)@.len() ==> (#[trigger] old(self)@[i]) < len,
        ensures
            final(self).wf(),
            final(self)@ == old(self)@,
            final(self).capacity() == len,
    {
        let ghost start = *self;
        self.prev.truncate(len);
        self.next.truncate(len);
        while self.prev.len() < len
            invariant
                start.wf(),
                self.order == start.order,
                self.head_next == start.head_next,
                self.tail_prev == start.tail_prev,
                self.prev@.len() == self.next@.len(),
                self.prev@.len() <= len,
                self.prev@.len() >= start.prev@.len() || self.prev@.len() == len,
                forall|i: int| 0 <= i < start@.len() ==> (#[trigger] start@[i]) < len,
                forall|j: int| 0 <= j < start.prev@.len() && j < self.prev@.len() ==> #[trigger] self.prev@[j]
                    == start.prev@[j] && self.next@[j] == start.next@[j],
                forall|j: int| start.prev@.len() <= j < self.prev@.len() ==> (#[trigger] self.prev@[j]) is None
                    && self.next@[j] is None,
            decreases len - self.prev@.len(),
        {
            self.prev.push(None);
            self.next.push(None);
        }
        assert(self.wf()) by {
            assert forall|id: NodeId| id < self.prev@.len() && !self.order@.contains(id) implies (
            #[trigger] self.prev@[id as int]) is None && self.next@[id as int] is None by {
                if (id as int) < start.prev@.len() {
                    assert(start.prev@[id as int] is None);
                }
            }
            assert forall|i: int| 0 <= i < self.order@.len() implies (#[trigger] self.order@[i]) < self.prev@.len() by {
                assert(start@[i] < len);
            }
            assert forall|i: int| 0 <= i < self.order@.len() implies #[trigger] linked(
                self.prev@,
                self.next@,
                self.order@,
                i,
            ) by {
                assert(start@[i] < len);
                assert(linked(start.prev@, start.next@, start.order@, i));
            }
        }
    }

    /// Whether `id` is a member.
    pub fn in_list(&self, id: NodeId) -> (r: bool)
        requires
            self.wf(),
        ensures
            r == self@.contains(id),
    {
        if (id as usize) < self.prev.len() {
            proof {
                if self.order@.contains(id) {
                    let i = self.order@.index_of(id);
                    assert(linked(self.prev@, self.next@, self.order@, i));
                }
            }
            self.prev[id as usize].is_some()
        } else {
            false
        }
    }

    /// The more-recently-used neighbor of `l`.
    pub fn predecessor(&self, l: Lru) -> (r: Lru)
        requires
            self.wf(),
            l !is Head,
            l matches Lru::Node(id) ==> id < self.capacity(),
        ensures
            l is Tail ==> r == before(self@, self@.len() as int),
            l matches Lru::Node(id) ==> r == (if self@.contains(id) {
                before(self@, self@.index_of(id))
            } else {
                Lru::Head
            }),
    {
        match l {
            Lru::Head => Lru::Head,
            Lru::Tail => match self.tail_prev {
                Some(id) => Lru::Node(id),
                None => Lru::Head,
            },
            Lru::Node(id) => {
                proof {
                    if self.order@.contains(id) {
                        assert(linked(self.prev@, self.next@, self.order@, self.order@.index_of(id)));
                    }
                }
                match self.prev[id as usize] {
                    Some(p) => p,
                    None => Lru::Head,
                }
            },
        }
    }

    /// The less-recently-used neighbor of `l`.
    pub fn successor(&self, l: Lru) -> (r: Lru)
        requires
            self.wf(),
            l !is Tail,
            l matches Lru::Node(id) ==> id < self.capacity(),
        ensures
            l is Head ==> r == after(self@, -1),
            l matches Lru::Node(id) ==> r == (if self@.contains(id) {
                after(self@, self@.index_of(id))
            } else {
                Lru::Tail
            }),
    {
        match l {
            Lru::Head => match self.head_next {
                Some(id) => Lru::Node(id),
                None => Lru::Tail,
            },
            Lru::Tail => Lru::Tail,
            Lru::Node(id) => {
                proof {
                    if self.order@.contains(id) {
                        assert(linked(self.prev@, self.next@, self.order@, self.order@.index_of(id)));
                    } else {
                        assert(self.prev@[id as int] is None);
                    }
                }
                match self.next[id as usize] {
                    Some(n) => n,
                    None => Lru::Tail,
                }
            },
        }
    }

    /// Insert `id` right after `old_pos`.
    pub fn add_after(&mut self, old_pos: Lru, id: NodeId)
        requires
            old(self).wf(),
            id < old(self).capacity(),
            !old(self)@.contains(id),
            old_pos !is Tail,
            old_pos matches Lru::Node(o) ==> old(self)@.contains(o),
        ensures
            final(self).wf(),
            final(self).capacity() == old(self).capacity(),
            old_pos is Head ==> final(self)@ == old(self)@.insert(0, id),
            old_pos matches Lru::Node(o) ==> final(self)@ == old(self)@.insert(
                old(self)@.index_of(o) + 1,
                id,
            ),
    {
        let ghost start = *self;
        let ghost k: int = match old_pos {
            Lru::Node(o) => self.order@.index_of(o) + 1,
            _ => 0,
        };
        proof {
            if let Lru::Node(o) = old_pos {
                assert(linked(self.prev@, self.next@, self.order@, self.order@.index_of(o)));
            }
        }
        let old_next = self.successor(old_pos);
        match old_pos {
            Lru::Head => {
                self.head_next = Some(id);
            },
            Lru::Node(o) => {
                self.next[o as usize] = Some(Lru::Node(id));
            },
            Lru::Tail => {},
        }
        match old_next {
            Lru::Tail => {
                self.tail_prev = Some(id);
            },
            Lru::Node(n) => {
                assert(start.order@[k] == n);
                self.prev[n as usize] = Some(Lru::Node(id));
            },
            Lru::Head => {},
        }
        self.prev[id as usize] = Some(old_pos);
        self.next[id as usize] = Some(old_next);
        self.order = Ghost(self.order@.insert(k, id));
        proof {
            lemma_insert(start.order@, k, id);
            assert forall|i: int| 0 <= i < self.order@.len() implies #[trigger] linked(
                self.prev@,
                self.next@,
                self.order@,
                i,
            ) by {
                let ord = self.order@;
                if i < k {
                    assert(ord[i] == start.order@[i]);
                    assert(linked(start.prev@, start.next@, start.order@, i));
                } else if i > k {
                    assert(ord[i] == start.order@[i - 1]);
                    assert(linked(start.prev@, start.next@, start.order@, i - 1));
                }
            }
            assert forall|x: NodeId| x < self.prev@.len() && !self.order@.contains(x) implies (
            #[trigger] self.prev@[x as int]) is None && self.next@[x as int] is None by {
                assert(!start.order@.contains(x));
                assert(start.prev@[x as int] is None);
            }
        }
    }

    /// Insert `id` as the most-recently-used node.
    pub fn insert_mru(&mut self, id: NodeId)
        requires
            old(self).wf(),
            id < old(self).capacity(),
            !old(self)@.contains(id),
        ensures
            final(self).wf(),
            final(self).capacity() == old(self).capacity(),
            final(self)@ == seq![id] + old(self)@,
    {
        let ghost start = self@;
        self.add_after(Lru::Head, id);
        assert(self@ =~= seq![id] + start);
    }

    /// Remove `id` from the list.
    pub fn remove(&mut self, id: NodeId)
        requires
            old(self).wf(),
            old(self)@.contains(id),
        ensures
            final(self).wf(),
            final(self).capacity() == old(self).capacity(),
            final(self)@ == without(old(self)@, id),
            !final(self)@.contains(id),
    {
        let ghost start = *self;
        let ghost k = self.order@.index_of(id);
        assert(linked(self.prev@, self.next@, self.order@, k));
        let p = match self.prev[id as usize] {
            Some(p) => p,
            None => Lru::Head,
        };
        let n = match self.next[id as usize] {
            Some(n) => n,
            None => Lru::Tail,
        };
        match p {
            Lru::Head => {
                self.head_next = n.node();
            },
            Lru::Node(x) => {
                assert(start.order@[k - 1] == x);
                self.next[x as usize] = Some(n);
            },
            Lru::Tail => {},
        }
        match n {
            Lru::Tail => {
                self.tail_prev = p.node();
            },
            Lru::Node(x) => {
                assert(start.order@[k + 1] == x);
                self.prev[x as usize] = Some(p);
            },
            Lru::Head => {},
        }
        self.prev[id as usize] = None;
        self.next[id as usize] = None;
        self.order = Ghost(self.order@.remove(k));
        proof {
            lemma_remove(start.order@, k);
            lemma_remove_links(start.prev@, start.next@, start.order@, k, self.prev@, self.next@);
            assert forall|x: NodeId| x < self.prev@.len() && !self.order@.contains(x) implies (
            #[trigger] self.prev@[x as int]) is None && self.next@[x as int] is None by {
                if x != id {
                    assert(!start.order@.contains(x));
                    assert(start.prev@[x as int] is None);
                }
            }
        }
    }

    /// Moves the members `xs` to the front, in their order.
    pub fn lift(&mut self, xs: &Vec<NodeId>)
        requires
            old(self).wf(),
            xs@.no_duplicates(),
            forall|j: int| 0 <= j < xs@.len() ==> old(self)@.contains(#[trigger] xs@[j]),
        ensures
            final(self).wf(),
            final(self).capacity() == old(self).capacity(),
            final(self)@ == lifted(old(self)@, xs@),
    {
        let ghost start = self@;
        let ghost cap = self.capacity();
        let mut at = Lru::Head;
        let mut k: usize = 0;
        proof {
            self.lemma_members();
            assert(xs@.take(0) =~= Seq::<NodeId>::empty());
            assert(self@ =~= lifted(start, xs@.take(0)));
        }
        while k < xs.len()
            invariant
                self.wf(),
                self.capacity() == cap,
                k <= xs@.len(),
                start.no_duplicates(),
                xs@.no_duplicates(),
                forall|j: int| 0 <= j < xs@.len() ==> start.contains(#[trigger] xs@[j]),
                self@ == lifted(start, xs@.take(k as int)),
                k == 0 ==> at == Lru::Head,
                k > 0 ==> at == Lru::Node(xs@[k - 1]),
            decreases xs@.len() - k,
        {
            let x = xs[k];
            proof {
                self.lemma_members();
                lemma_lift_step(start, xs@, k as int);
            }
            self.remove(x);
            proof {
                if k > 0 {
                    let order = without(lifted(start, xs@.take(k as int)), x);
                    assert(order[k - 1] == xs@[k - 1]);
                    assert(self@.contains(xs@[k - 1]));
                    self.lemma_members();
                    assert(order.index_of(xs@[k - 1]) == k - 1);
                }
            }
            self.add_after(at, x);
            at = Lru::Node(x);
            k += 1;
        }
        assert(xs@.take(k as int) =~= xs@);
    }

    /// Move an existing node to the MRU position. No-op when the node is
    /// not in the list.
    pub fn reset_mru(&mut self, id: NodeId)
        requires
            old(self).wf(),
        ensures
            final(self).wf(),
            final(self).capacity() == old(self).capacity(),
            final(self)@ == touched(old(self)@, id),
    {
        if !self.in_list(id) {
            return;
        }
        proof {
            self.lemma_members();
        }
        self.remove(id);
        self.insert_mru(id);
    }
}

/// Taking the member at `k` out relinks its two neighbors and nothing else.
proof fn lemma_remove_links(
    prev: Seq<Option<Lru>>,
    next: Seq<Option<Lru>>,
    order: Seq<NodeId>,
    k: int,
    prev1: Seq<Option<Lru>>,
    next1: Seq<Option<Lru>>,
)
    requires
        order.no_duplicates(),
        0 <= k < order.len(),
        prev.len() == next.len(),
        prev1.len() == prev.len(),
        next1.len() == next.len(),
        forall|i: int| 0 <= i < order.len() ==> (#[trigger] order[i]) < prev.len(),
        forall|i: int| 0 <= i < order.len() ==> #[trigger] linked(prev, next, order, i),
        forall|x: int|
            0 <= x < prev.len() && x != order[k] && (k + 1 < order.len() ==> x != order[k + 1])
                ==> #[trigger] prev1[x] == prev[x],
        forall|x: int|
            0 <= x < prev.len() && x != order[k] && (k > 0 ==> x != order[k - 1]) ==> #[trigger] next1[x]
                == next[x],
        k + 1 < order.len() ==> prev1[order[k + 1] as int] == Some(before(order, k)),
        k > 0 ==> next1[order[k - 1] as int] == Some(after(order, k)),
    ensures
        forall|i: int| 0 <= i < order.len() - 1 ==> #[trigger] linked(prev1, next1, order.remove(k), i),
{
    let t = order.remove(k);
    assert forall|i: int| 0 <= i < order.len() - 1 implies #[trigger] linked(prev1, next1, t, i) by {
        if i < k {
            assert(t[i] == order[i]);
            assert(linked(prev, next, order, i));
        } else {
            assert(t[i] == order[i + 1]);
            assert(linked(prev, next, order, i + 1));
        }
    }
}

/// Inserting a new element keeps a sequence free of duplicates and adds that member alone.
pub proof fn lemma_insert(s: Seq<NodeId>, k: int, x: NodeId)
    requires
        0 <= k <= s.len(),
        s.no_duplicates(),
        !s.contains(x),
    ensures
        s.insert(k, x).no_duplicates(),
        forall|y: NodeId| #[trigger] s.insert(k, x).contains(y) <==> y == x || s.contains(y),
{
    let t = s.insert(k, x);
    assert forall|i: int, j: int| 0 <= i < t.len() && 0 <= j < t.len() && i != j implies t[i] != t[j] by {
        let oi = if i < k { i } else { i - 1 };
        let oj = if j < k { j } else { j - 1 };
        if i == k {
            assert(t[j] == s[oj]);
        } else if j == k {
            assert(t[i] == s[oi]);
        } else {
            assert(t[i] == s[oi] && t[j] == s[oj]);
        }
    }
    assert forall|y: NodeId| #[trigger] t.contains(y) <==> y == x || s.contains(y) by {
        assert(t[k] == x);
        if s.contains(y) {
            let i = s.index_of(y);
            assert(t[if i < k { i } else { i + 1 }] == y);
        }
        if t.contains(y) && y != x {
            let i = t.index_of(y);
            assert(s[if i < k { i } else { i - 1 }] == y);
        }
    }
}

/// Removing an element keeps a sequence free of duplicates and takes that member alone.
pub proof fn lemma_remove(s: Seq<NodeId>, k: int)
    requires
        0 <= k < s.len(),
        s.no_duplicates(),
    ensures
        s.remove(k).no_duplicates(),
        forall|y: NodeId| #[trigger] s.remove(k).contains(y) <==> y != s[k] && s.contains(y),
{
    let t = s.remove(k);
    assert forall|i: int, j: int| 0 <= i < t.len() && 0 <= j < t.len() && i != j implies t[i] != t[j] by {
        assert(t[i] == s[if i < k { i } else { i + 1 }]);
        assert(t[j] == s[if j < k { j } else { j + 1 }]);
    }
    assert forall|y: NodeId| #[trigger] t.contains(y) <==> y != s[k] && s.contains(y) by {
        if s.contains(y) && y != s[k] {
            let i = s.index_of(y);
            assert(t[if i < k { i } else { i - 1 }] == y);
        }
        if t.contains(y) {
            let i = t.index_of(y);
            assert(s[if i < k { i } else { i + 1 }] == y);
        }
    }
}

/// Taking members out one after the other.
pub proof fn lemma_minus(order: Seq<NodeId>, xs: Seq<NodeId>)
    requires
        order.no_duplicates(),
        xs.no_duplicates(),
        forall|j: int| 0 <= j < xs.len() ==> order.contains(#[trigger] xs[j]),
    ensures
        minus(order, xs).no_duplicates(),
        forall|y: NodeId| #[trigger] minus(order, xs).contains(y) <==> order.contains(y) && !xs.contains(y),
    decreases xs.len(),
{
    if xs.len() > 0 {
        let ys = xs.drop_last();
        let x = xs.last();
        lemma_minus(order, ys);
        let m = minus(order, ys);
        assert(!ys.contains(x)) by {
            if ys.contains(x) {
                let j = ys.index_of(x);
                assert(xs[j] == xs[xs.len() - 1]);
            }
        }
        assert(order.contains(xs[xs.len() - 1]));
        assert(m.contains(x));
        let k = m.index_of(x);
        assert(m[k] == x);
        lemma_remove(m, k);
        assert forall|y: NodeId| #[trigger] minus(order, xs).contains(y) <==> order.contains(y) && !xs.contains(y) by {
            assert(minus(order, xs) == m.remove(k));
            if xs.contains(y) && y != x {
                let j = xs.index_of(y);
                assert(ys[j] == y);
            }
            if ys.contains(y) {
                let j = ys.index_of(y);
                assert(xs[j] == y);
            }
            assert(xs[xs.len() - 1] == x);
        }
    }
}

/// Lifting keeps the members of the list and leaves each in it once.
pub proof fn law_lift_keeps_members(order: Seq<NodeId>, xs: Seq<NodeId>)
    requires
        order.no_duplicates(),
        xs.no_duplicates(),
        forall|j: int| 0 <= j < xs.len() ==> order.contains(#[trigger] xs[j]),
    ensures
        lifted(order, xs).no_duplicates(),
        forall|y: NodeId| #[trigger] lifted(order, xs).contains(y) <==> order.contains(y),
{
    lemma_minus(order, xs);
    let m = minus(order, xs);
    let t = lifted(order, xs);
    assert forall|i: int, j: int| 0 <= i < t.len() && 0 <= j < t.len() && i != j implies t[i] != t[j] by {
        if i < xs.len() && j >= xs.len() {
            assert(t[j] == m[j - xs.len()]);
            assert(m.contains(t[j]));
            assert(xs.contains(t[i]));
        } else if j < xs.len() && i >= xs.len() {
            assert(t[i] == m[i - xs.len()]);
            assert(m.contains(t[i]));
            assert(xs.contains(t[j]));
        }
    }
    assert forall|y: NodeId| #[trigger] t.contains(y) <==> order.contains(y) by {
        if t.contains(y) {
            let i = t.index_of(y);
            if i < xs.len() {
                assert(order.contains(xs[i]));
            } else {
                assert(m[i - xs.len()] == y);
                assert(m.contains(y));
            }
        }
        if order.contains(y) {
            if xs.contains(y) {
                assert(t[xs.index_of(y)] == y);
            } else {
                assert(m.contains(y));
                assert(t[xs.len() + m.index_of(y)] == y);
            }
        }
    }
}

proof fn lemma_lift_step(order: Seq<NodeId>, xs: Seq<NodeId>, k: int)
    requires
        order.no_duplicates(),
        xs.no_duplicates(),
        0 <= k < xs.len(),
        forall|j: int| 0 <= j < xs.len() ==> order.contains(#[trigger] xs[j]),
    ensures
        lifted(order, xs.take(k)).contains(xs[k]),
        without(lifted(order, xs.take(k)), xs[k]).insert(k, xs[k]) == lifted(order, xs.take(k + 1)),
        without(lifted(order, xs.take(k)), xs[k]).len() >= k,
        forall|j: int| 0 <= j < k ==> without(lifted(order, xs.take(k)), xs[k])[j] == xs[j],
{
    let ys = xs.take(k);
    let x = xs[k];
    let m = minus(order, ys);
    let t = lifted(order, ys);
    law_lift_keeps_members(order, ys);
    lemma_minus(order, ys);
    assert(!ys.contains(x)) by {
        if ys.contains(x) {
            let j = ys.index_of(x);
            assert(xs[j] == xs[k]);
        }
    }
    assert(order.contains(xs[k]));
    assert(m.contains(x));
    let i = m.index_of(x);
    assert(t[k + i] == x);
    assert(t.contains(x));
    let p = t.index_of(x);
    assert(p == k + i);
    assert(xs.take(k + 1).drop_last() =~= ys);
    assert(xs.take(k + 1).last() == x);
    assert(t.remove(p) =~= ys + m.remove(i));
    assert((ys + m.remove(i)).insert(k, x) =~= xs.take(k + 1) + m.remove(i));
}

/// A pair in front adds the new node to the members and nothing else.
pub proof fn lemma_with_pair(order: Seq<NodeId>, c: NodeId, f: NodeId)
    requires
        order.no_duplicates(),
        order.contains(c),
        !order.contains(f),
    ensures
        with_pair(order, c, f).no_duplicates(),
        forall|id: NodeId| #[trigger] with_pair(order, c, f).contains(id) <==> order.contains(id) || id == f,
{
    let k = order.index_of(c);
    assert(order[k] == c);
    let a = order.remove(k);
    lemma_remove(order, k);
    let b = a.insert(0, f);
    lemma_insert(a, 0, f);
    lemma_insert(b, 0, c);
    assert(with_pair(order, c, f) =~= b.insert(0, c));
}

/// A visit keeps the members of the list and leaves each in it once.
pub proof fn law_touch_keeps_members(order: Seq<NodeId>, id: NodeId)
    requires
        order.no_duplicates(),
    ensures
        touched(order, id).no_duplicates(),
        forall|y: NodeId| #[trigger] touched(order, id).contains(y) <==> order.contains(y),
        order.contains(id) ==> touched(order, id)[0] == id,
{
    if order.contains(id) {
        let k = order.index_of(id);
        lemma_remove(order, k);
        lemma_insert(order.remove(k), 0, id);
        assert(touched(order, id) =~= order.remove(k).insert(0, id));
    }
}

/// Inserting a node in front and removing it again gives the list back.
pub proof fn law_insert_then_remove(order: Seq<NodeId>, id: NodeId)
    requires
        order.no_duplicates(),
        !order.contains(id),
    ensures
        without(seq![id] + order, id) == order,
{
    let t = seq![id] + order;
    assert(t[0] == id);
    let k = t.index_of(id);
    if k > 0 {
        assert(order[k - 1] == id);
    }
    assert(t.remove(0) =~= order);
}

/// Where a member has been taken out, neither it nor a new node is one.
pub proof fn lemma_gone(order: Seq<NodeId>, c: NodeId, f: NodeId)
    requires
        order.no_duplicates(),
        order.contains(c),
        !order.contains(f),
    ensures
        !without(order, c).contains(f),
        !without(order, c).contains(c),
        without(order, c).no_duplicates(),
{
    let k = order.index_of(c);
    assert(order[k] == c);
    lemma_remove(order, k);
}

/// Two insertions in front make a pair.
pub proof fn lemma_pair(order: Seq<NodeId>, c: NodeId, f: NodeId)
    requires
        order.no_duplicates(),
        order.contains(c),
        !order.contains(f),
    ensures
        !(seq![f] + without(order, c)).contains(c),
        seq![c] + (seq![f] + without(order, c)) == with_pair(order, c, f),
{
    lemma_gone(order, c, f);
    let a = without(order, c);
    let b = seq![f] + a;
    if b.contains(c) {
        let k = b.index_of(c);
        if k > 0 {
            assert(a[k - 1] == c);
        }
    }
    assert(seq![c] + b =~= with_pair(order, c, f));
}

/// Whether `y` stands before `z`: it was used more recently.
pub open spec fn ahead(order: Seq<NodeId>, y: NodeId, z: NodeId) -> bool {
    exists|i: int, j: int| 0 <= i < j < order.len() && #[trigger] order[i] == y && #[trigger] order[j] == z
}

/// Of two members one stands before the other, and not the other way round.
pub proof fn law_order_is_total(order: Seq<NodeId>, y: NodeId, z: NodeId)
    requires
        order.no_duplicates(),
        order.contains(y),
        order.contains(z),
        y != z,
    ensures
        ahead(order, y, z) == !ahead(order, z, y),
        ahead(order, y, z) == (order.index_of(y) < order.index_of(z)),
{
    let i = order.index_of(y);
    let j = order.index_of(z);
    assert(order[i] == y && order[j] == z);
    if ahead(order, y, z) {
        let (a, b) = choose|a: int, b: int|
            0 <= a < b < order.len() && #[trigger] order[a] == y && #[trigger] order[b] == z;
        assert(a == i && b == j);
    }
    if ahead(order, z, y) {
        let (a, b) = choose|a: int, b: int|
            0 <= a < b < order.len() && #[trigger] order[a] == z && #[trigger] order[b] == y;
        assert(a == j && b == i);
    }
}

/// A member that leaves the list leaves the others in their order.
pub proof fn law_removal_keeps_order(order: Seq<NodeId>, x: NodeId, y: NodeId, z: NodeId)
    requires
        order.no_duplicates(),
        order.contains(x),
        x != y,
        x != z,
    ensures
        ahead(without(order, x), y, z) == ahead(order, y, z),
{
    let k = order.index_of(x);
    let t = without(order, x);
    assert(order[k] == x);
    if ahead(order, y, z) {
        let (a, b) = choose|a: int, b: int|
            0 <= a < b < order.len() && #[trigger] order[a] == y && #[trigger] order[b] == z;
        let a1 = if a < k { a } else { a - 1 };
        let b1 = if b < k { b } else { b - 1 };
        assert(t[a1] == y && t[b1] == z);
    }
    if ahead(t, y, z) {
        let (a, b) = choose|a: int, b: int| 0 <= a < b < t.len() && #[trigger] t[a] == y && #[trigger] t[b] == z;
        let a1 = if a < k { a } else { a + 1 };
        let b1 = if b < k { b } else { b + 1 };
        assert(order[a1] == y && order[b1] == z);
    }
}

proof fn lemma_minus_order(order: Seq<NodeId>, xs: Seq<NodeId>, y: NodeId, z: NodeId)
    requires
        order.no_duplicates(),
        xs.no_duplicates(),
        forall|j: int| 0 <= j < xs.len() ==> order.contains(#[trigger] xs[j]),
        !xs.contains(y),
        !xs.contains(z),
    ensures
        ahead(minus(order, xs), y, z) == ahead(order, y, z),
    decreases xs.len(),
{
    if xs.len() > 0 {
        let ys = xs.drop_last();
        let x = xs.last();
        assert(xs[xs.len() - 1] == x);
        assert(forall|v: NodeId| ys.contains(v) ==> xs.contains(v)) by {
            assert forall|v: NodeId| ys.contains(v) implies xs.contains(v) by {
                assert(xs[ys.index_of(v)] == v);
            }
        }
        assert(!ys.contains(x)) by {
            if ys.contains(x) {
                assert(xs[ys.index_of(x)] == xs[xs.len() - 1]);
            }
        }
        lemma_minus_order(order, ys, y, z);
        lemma_minus(order, ys);
        assert(order.contains(xs[xs.len() - 1]));
        law_removal_keeps_order(minus(order, ys), x, y, z);
    }
}

/// A list behind a few nodes: those stand before it in their order, and the
/// list keeps its own.
pub proof fn lemma_joined_order(xs: Seq<NodeId>, rest: Seq<NodeId>)
    requires
        forall|y: NodeId| #[trigger] xs.contains(y) ==> !rest.contains(y),
    ensures
        forall|i: int, j: int|
            #![trigger xs[i], xs[j]]
            0 <= i < j < xs.len() ==> ahead(xs + rest, xs[i], xs[j]),
        forall|y: NodeId, z: NodeId|
            #![trigger xs.contains(y), rest.contains(z)]
            xs.contains(y) && rest.contains(z) ==> ahead(xs + rest, y, z),
        forall|y: NodeId, z: NodeId|
            !xs.contains(y) && !xs.contains(z) ==> #[trigger] ahead(xs + rest, y, z) == ahead(rest, y, z),
{
    let t = xs + rest;
    let n = xs.len() as int;
    assert forall|i: int, j: int| #![trigger xs[i], xs[j]] 0 <= i < j < xs.len() implies ahead(t, xs[i], xs[j]) by {
        assert(t[i] == xs[i] && t[j] == xs[j]);
    }
    assert forall|y: NodeId, z: NodeId|
        #![trigger xs.contains(y), rest.contains(z)]
        xs.contains(y) && rest.contains(z) implies ahead(t, y, z) by {
        assert(t[xs.index_of(y)] == y && t[n + rest.index_of(z)] == z);
    }
    assert forall|y: NodeId, z: NodeId| !xs.contains(y) && !xs.contains(z) implies #[trigger] ahead(t, y, z) == ahead(
        rest,
        y,
        z,
    ) by {
        if ahead(t, y, z) {
            let (a, b) = choose|a: int, b: int| 0 <= a < b < t.len() && #[trigger] t[a] == y && #[trigger] t[b] == z;
            if a < n {
                assert(xs[a] == y);
            }
            assert(rest[a - n] == y && rest[b - n] == z);
        }
        if ahead(rest, y, z) {
            let (a, b) = choose|a: int, b: int|
                0 <= a < b < rest.len() && #[trigger] rest[a] == y && #[trigger] rest[b] == z;
            assert(t[a + n] == y && t[b + n] == z);
        }
    }
}

/// Nodes that are lifted stand before all others, in the order they were
/// given in, and the others keep their order.
pub proof fn law_lift_order(order: Seq<NodeId>, xs: Seq<NodeId>)
    requires
        order.no_duplicates(),
        xs.no_duplicates(),
        forall|j: int| 0 <= j < xs.len() ==> order.contains(#[trigger] xs[j]),
    ensures
        forall|i: int, j: int|
            #![trigger xs[i], xs[j]]
            0 <= i < j < xs.len() ==> ahead(lifted(order, xs), xs[i], xs[j]),
        forall|y: NodeId, z: NodeId|
            #![trigger xs.contains(y), order.contains(z)]
            xs.contains(y) && order.contains(z) && !xs.contains(z) ==> ahead(lifted(order, xs), y, z),
        forall|y: NodeId, z: NodeId|
            !xs.contains(y) && !xs.contains(z) ==> #[trigger] ahead(lifted(order, xs), y, z) == ahead(order, y, z),
{
    let m = minus(order, xs);
    lemma_minus(order, xs);
    lemma_joined_order(xs, m);
    assert forall|y: NodeId, z: NodeId|
        #![trigger xs.contains(y), order.contains(z)]
        xs.contains(y) && order.contains(z) && !xs.contains(z) implies ahead(lifted(order, xs), y, z) by {
        assert(m.contains(z));
    }
    assert forall|y: NodeId, z: NodeId|
        !xs.contains(y) && !xs.contains(z) implies #[trigger] ahead(lifted(order, xs), y, z) == ahead(order, y, z) by {
        lemma_minus_order(order, xs, y, z);
    }
}

/// A member that is visited stands before all others, and those keep their
/// order.
pub proof fn law_touch_order(order: Seq<NodeId>, x: NodeId)
    requires
        order.no_duplicates(),
        order.contains(x),
    ensures
        forall|z: NodeId| order.contains(z) && z != x ==> #[trigger] ahead(touched(order, x), x, z),
        forall|y: NodeId, z: NodeId|
            y != x && z != x ==> #[trigger] ahead(touched(order, x), y, z) == ahead(order, y, z),
{
    let xs = seq![x];
    let rest = without(order, x);
    assert(xs[0] == x);
    lemma_remove(order, order.index_of(x));
    assert(order[order.index_of(x)] == x);
    lemma_joined_order(xs, rest);
    assert forall|z: NodeId| order.contains(z) && z != x implies #[trigger] ahead(touched(order, x), x, z) by {
        assert(xs.contains(x) && rest.contains(z));
    }
    assert forall|y: NodeId, z: NodeId| y != x && z != x implies #[trigger] ahead(touched(order, x), y, z) == ahead(
        order,
        y,
        z,
    ) by {
        assert(!xs.contains(y) && !xs.contains(z));
        assert(ahead(xs + rest, y, z) == ahead(rest, y, z));
        law_removal_keeps_order(order, x, y, z);
    }
}

/// The parts of a cut stand before all others, which keep their order.
pub proof fn law_pair_order(order: Seq<NodeId>, c: NodeId, f: NodeId)
    requires
        order.no_duplicates(),
        order.contains(c),
        !order.contains(f),
    ensures
        ahead(with_pair(order, c, f), c, f),
        forall|z: NodeId|
            #![trigger order.contains(z)]
            order.contains(z) && z != c ==> ahead(with_pair(order, c, f), c, z) && ahead(with_pair(order, c, f), f, z),
        forall|y: NodeId, z: NodeId|
            y != c && z != c && y != f && z != f ==> #[trigger] ahead(with_pair(order, c, f), y, z) == ahead(
                order,
                y,
                z,
            ),
{
    let xs = seq![c, f];
    let rest = without(order, c);
    assert(xs[0] == c && xs[1] == f);
    assert(order[order.index_of(c)] == c);
    lemma_remove(order, order.index_of(c));
    lemma_joined_order(xs, rest);
    assert forall|z: NodeId| #![trigger order.contains(z)] order.contains(z) && z != c implies ahead(
        with_pair(order, c, f),
        c,
        z,
    ) && ahead(with_pair(order, c, f), f, z) by {
        assert(xs.contains(c) && xs.contains(f) && rest.contains(z));
    }
    assert forall|y: NodeId, z: NodeId| y != c && z != c && y != f && z != f implies #[trigger] ahead(
        with_pair(order, c, f),
        y,
        z,
    ) == ahead(order, y, z) by {
        assert(!xs.contains(y) && !xs.contains(z));
        assert(ahead(xs + rest, y, z) == ahead(rest, y, z));
        law_removal_keeps_order(order, c, y, z);
    }
}

} // verus!
