//! Eviction queue: hands out the item of smallest rank.

use crate::topo::NodeId;
use vstd::prelude::*;

verus! {

/// A node with the rank it is evicted by. Items are ordered by `a`, then
/// `b`, then `c`, then node id; smaller leaves first.
#[derive(Debug, Clone, Copy, PartialEq, Eq, Structural)]
pub struct HeapItem {
    pub a: i64,
    pub b: i64,
    pub c: i64,
    pub id: NodeId,
}

impl HeapItem {
    /// Whether `self` leaves before `other`.
    pub open spec fn before(self, other: HeapItem) -> bool {
        ||| self.a < other.a
        ||| self.a == other.a && self.b < other.b
        ||| self.a == other.a && self.b == other.b && self.c < other.c
        ||| self.a == other.a && self.b == other.b && self.c == other.c && self.id < other.id
    }

    /// Whether `self` leaves before `other`.
    pub fn leaves_before(&self, other: &HeapItem) -> (r: bool)
        ensures
            r == self.before(*other),
    {
        if self.a != other.a {
            self.a < other.a
        } else if self.b != other.b {
            self.b < other.b
        } else if self.c != other.c {
            self.c < other.c
        } else {
            self.id < other.id
        }
    }
}

/// Items waiting for eviction, each once.
pub struct EvictQueue {
    items: Vec<HeapItem>,
}

impl EvictQueue {
    /// The items.
    pub closed spec fn view(&self) -> Set<HeapItem> {
        self.items@.to_set()
    }

    /// No item occurs twice.
    pub closed spec fn wf(&self) -> bool {
        self.items@.no_duplicates()
    }

    /// No items.
    pub fn new() -> (r: EvictQueue)
        ensures
            r.wf(),
            r@ == Set::<HeapItem>::empty(),
    {
        let r = EvictQueue { items: Vec::new() };
        assert(r@ =~= Set::<HeapItem>::empty());
        r
    }

    /// Adds an item that is not waiting yet.
    pub fn push(&mut self, item: HeapItem)
        requires
            old(self).wf(),
            !old(self)@.contains(item),
        ensures
            final(self).wf(),
            final(self)@ == old(self)@.insert(item),
    {
        let ghost before = self.items@;
        self.items.push(item);
        proof {
            assert(!before.contains(item));
            assert forall|x: HeapItem| self@.contains(x) <==> before.to_set().insert(item).contains(x) by {
                assert(self.items@[before.len() as int] == item);
                if before.contains(x) {
                    assert(self.items@[before.index_of(x)] == x);
                }
            }
            assert(self@ =~= before.to_set().insert(item));
        }
    }

    /// Takes out the item that leaves first.
    pub fn pop(&mut self) -> (r: Option<HeapItem>)
        requires
            old(self).wf(),
        ensures
            final(self).wf(),
            r is None <==> old(self)@ == Set::<HeapItem>::empty(),
            r is None ==> final(self)@ == old(self)@,
            r matches Some(x) ==> {
                &&& old(self)@.contains(x)
                &&& final(self)@ == old(self)@.remove(x)
                &&& forall|y: HeapItem| #[trigger] old(self)@.contains(y) && y != x ==> x.before(y)
            },
    {
        let ghost before = self.items@;
        if self.items.len() == 0 {
            assert(self@ =~= Set::<HeapItem>::empty());
            return None;
        }
        let mut best: usize = 0;
        let mut i: usize = 1;
        while i < self.items.len()
            invariant
                self.items@ == before,
                before.no_duplicates(),
                best < i <= before.len(),
                forall|j: int| 0 <= j < i && j != best ==> before[best as int].before(#[trigger] before[j]),
            decreases before.len() - i,
        {
            if self.items[i].leaves_before(&self.items[best]) {
                best = i;
            }
            i += 1;
        }
        let x = self.items.swap_remove(best);
        proof {
            let after = self.items@;
            assert(before.contains(x));
            assert(before.to_set().contains(x));
            assert forall|y: HeapItem| #[trigger] before.to_set().contains(y) && y != x implies x.before(y) by {
                let j = before.index_of(y);
                assert(before[j] == y);
            }
            assert forall|y: HeapItem| after.to_set().contains(y) <==> before.to_set().remove(x).contains(y) by {
                if before.contains(y) && y != x {
                    let j = before.index_of(y);
                    if j == before.len() - 1 {
                        assert(after[best as int] == y);
                    } else {
                        assert(after[j] == y);
                    }
                }
                if after.contains(y) {
                    let j = after.index_of(y);
                    if j == best {
                        assert(before[before.len() - 1] == y);
                    } else {
                        assert(before[j] == y);
                    }
                }
            }
            assert(after.to_set() =~= before.to_set().remove(x));
        }
        Some(x)
    }
}

/// The eviction order is total: of two items one leaves before the other.
pub proof fn law_eviction_order_is_total(x: HeapItem, y: HeapItem, z: HeapItem)
    ensures
        !x.before(x),
        x != y ==> x.before(y) || y.before(x),
        x.before(y) ==> !y.before(x),
        x.before(y) && y.before(z) ==> x.before(z),
{
}

} // verus!
