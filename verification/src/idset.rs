//! Set of node ids with constant-time updates and dense iteration.

use crate::topo::NodeId;
use vstd::prelude::*;

verus! {

/// A set of node ids: the members in one dense array, and for each id its
/// position there plus one (zero: not a member).
#[derive(Clone)]
pub struct IdSet {
    members: Vec<NodeId>,
    slot: Vec<usize>,
}

impl IdSet {
    /// The members.
    pub closed spec fn view(&self) -> Set<NodeId> {
        Set::new(|id: NodeId| self.members@.contains(id))
    }

    /// Both arrays describe the same set.
    pub closed spec fn wf(&self) -> bool {
        &&& self.members@.len() <= self.slot@.len()
        &&& forall|k: int|
            0 <= k < self.members@.len() ==> {
                &&& (#[trigger] self.members@[k]) < self.slot@.len()
                &&& self.slot@[self.members@[k] as int] == k + 1
            }
        &&& forall|id: int|
            0 <= id < self.slot@.len() && (#[trigger] self.slot@[id]) > 0 ==> {
                &&& self.slot@[id] <= self.members@.len()
                &&& self.members@[self.slot@[id] - 1] == id
            }
    }

    /// The empty set.
    pub fn new() -> (r: IdSet)
        ensures
            r.wf(),
            r@ == Set::<NodeId>::empty(),
    {
        let r = IdSet { members: Vec::new(), slot: Vec::new() };
        assert(r@ =~= Set::<NodeId>::empty());
        r
    }

    /// Whether `id` is a member.
    pub fn contains(&self, id: &NodeId) -> (r: bool)
        requires
            self.wf(),
        ensures
            r == self@.contains(*id),
    {
        proof {
            if self.members@.contains(*id) {
                let k = self.members@.index_of(*id);
                assert(self.members@[k] == *id);
            }
            if *id < self.slot@.len() && self.slot@[*id as int] > 0 {
                assert(self.members@[self.slot@[*id as int] - 1] == *id);
            }
        }
        (*id as usize) < self.slot.len() && self.slot[*id as usize] > 0
    }

    /// A bound of the members.
    pub fn bound(&self) -> (r: u64)
        requires
            self.wf(),
        ensures
            r <= NodeId::MAX + 1,
            forall|id: NodeId| #[trigger] self@.contains(id) ==> id < r,
    {
        proof {
            assert forall|id: NodeId| #[trigger] self@.contains(id) implies id < self.slot@.len() by {
                let k = self.members@.index_of(id);
                assert(self.members@[k] == id);
            }
        }
        let n = self.slot.len() as u64;
        if n <= NodeId::MAX as u64 {
            n
        } else {
            NodeId::MAX as u64 + 1
        }
    }

    /// Number of members.
    pub fn len(&self) -> (r: usize)
        requires
            self.wf(),
        ensures
            self@.finite(),
            r == self@.len(),
    {
        proof {
            self.lemma_dense();
        }
        self.members.len()
    }

    proof fn lemma_dense(&self)
        requires
            self.wf(),
        ensures
            self.members@.no_duplicates(),
            self@.finite(),
            self@.len() == self.members@.len(),
            self.members@.to_set() == self@,
    {
        assert forall|i: int, j: int|
            0 <= i < self.members@.len() && 0 <= j < self.members@.len() && i != j implies self.members@[i]
            != self.members@[j] by {
            assert(self.slot@[self.members@[i] as int] == i + 1);
            assert(self.slot@[self.members@[j] as int] == j + 1);
        }
        assert(self.members@.to_set() =~= self@);
        self.members@.unique_seq_to_set();
    }

    /// Adds `id`; returns whether it is new.
    pub fn insert(&mut self, id: NodeId) -> (r: bool)
        requires
            old(self).wf(),
        ensures
            final(self).wf(),
            final(self)@ == old(self)@.insert(id),
            r == !old(self)@.contains(id),
    {
        let ghost before = *self;
        if self.contains(&id) {
            assert(self@ =~= before@.insert(id));
            return false;
        }
        while self.slot.len() <= id as usize
            invariant
                self.wf(),
                self.members@ == before.members@,
            decreases id + 1 - self.slot@.len(),
        {
            self.slot.push(0);
        }
        assert(self@ =~= before@);
        assert(self.slot@[id as int] == 0);
        proof {
            self.lemma_dense();
            lemma_fewer(*self, id);
        }
        self.slot[id as usize] = self.members.len() + 1;
        self.members.push(id);
        proof {
            assert forall|x: NodeId| self@.contains(x) <==> before@.insert(id).contains(x) by {
                if before.members@.contains(x) {
                    assert(self.members@[before.members@.index_of(x)] == x);
                }
                assert(self.members@[self.members@.len() - 1] == id);
                if self.members@.contains(x) && x != id {
                    let k = self.members@.index_of(x);
                    assert(before.members@[k] == x);
                }
            }
            assert(self@ =~= before@.insert(id));
        }
        true
    }

    /// Removes `id`; returns whether it was a member.
    pub fn remove(&mut self, id: &NodeId) -> (r: bool)
        requires
            old(self).wf(),
        ensures
            final(self).wf(),
            final(self)@ == old(self)@.remove(*id),
            r == old(self)@.contains(*id),
    {
        let ghost before = *self;
        let ghost gone = *id;
        if !self.contains(id) {
            assert(self@ =~= before@.remove(gone));
            return false;
        }
        let k = self.slot[*id as usize] - 1;
        let last = self.members[self.members.len() - 1];
        assert(self.members@[k as int] == gone);
        assert(self.slot@[last as int] == self.members@.len());
        self.members.swap_remove(k);
        self.slot[last as usize] = k + 1;
        self.slot[*id as usize] = 0;
        proof {
            before.lemma_dense();
            assert forall|j: int| 0 <= j < self.members@.len() implies {
                &&& (#[trigger] self.members@[j]) < self.slot@.len()
                &&& self.slot@[self.members@[j] as int] == j + 1
            } by {
                if j != k {
                    assert(self.members@[j] == before.members@[j]);
                    assert(before.members@[j] != before.members@[before.members@.len() - 1]);
                    assert(before.members@[j] != before.members@[k as int]);
                } else {
                    assert(before.members@[before.members@.len() - 1] != before.members@[k as int]);
                }
            }
            assert forall|x: NodeId| self@.contains(x) <==> before@.remove(gone).contains(x) by {
                if before.members@.contains(x) && x != gone {
                    let j = before.members@.index_of(x);
                    if j == before.members@.len() - 1 {
                        assert(self.members@[k as int] == x);
                    } else {
                        assert(self.members@[j] == x);
                    }
                }
                if self.members@.contains(x) {
                    let j = self.members@.index_of(x);
                    if j == k {
                        assert(before.members@[before.members@.len() - 1] == x);
                    } else {
                        assert(before.members@[j] == x);
                    }
                    assert(before.members@.contains(x));
                    assert(self.slot@[x as int] == j + 1);
                }
            }
            assert(self@ =~= before@.remove(gone));
        }
        true
    }

    /// Empties the set.
    pub fn clear(&mut self)
        ensures
            final(self).wf(),
            final(self)@ == Set::<NodeId>::empty(),
    {
        self.members.clear();
        self.slot.clear();
        assert(self@ =~= Set::<NodeId>::empty());
    }

    /// The members, each once.
    pub fn to_vec(&self) -> (r: Vec<NodeId>)
        requires
            self.wf(),
        ensures
            r@.no_duplicates(),
            forall|id: NodeId| #[trigger] r@.contains(id) <==> self@.contains(id),
    {
        proof {
            self.lemma_dense();
        }
        let r = self.members.clone();
        assert(r@ =~= self.members@);
        r
    }

    /// The members in ascending order.
    pub fn sorted(&self) -> (r: Vec<NodeId>)
        requires
            self.wf(),
        ensures
            forall|i: int, j: int| 0 <= i < j < r@.len() ==> r@[i] < r@[j],
            forall|id: NodeId| #[trigger] r@.contains(id) <==> self@.contains(id),
    {
        let mut r: Vec<NodeId> = Vec::new();
        let mut id: usize = 0;
        while id < self.slot.len()
            invariant
                self.wf(),
                id <= self.slot@.len(),
                forall|k: int| 0 <= k < r@.len() ==> (#[trigger] r@[k]) < id && self@.contains(r@[k]),
                forall|i: int, j: int| 0 <= i < j < r@.len() ==> r@[i] < r@[j],
                forall|x: NodeId| x < id && self@.contains(x) ==> #[trigger] r@.contains(x),
            decreases self.slot@.len() - id,
        {
            let ghost before = r@;
            if self.slot[id] > 0 {
                let x = self.members[self.slot[id] - 1];
                assert(x == id);
                r.push(x);
                proof {
                    assert(self.members@.contains(x));
                    assert forall|y: NodeId| y < id + 1 && self@.contains(y) implies #[trigger] r@.contains(y) by {
                        if y < id {
                            assert(before.contains(y));
                            assert(r@[before.index_of(y)] == y);
                        } else {
                            assert(r@[r@.len() - 1] == y);
                        }
                    }
                }
            } else {
                assert forall|y: NodeId| y < id + 1 && self@.contains(y) implies #[trigger] r@.contains(y) by {
                    if y == id {
                        let k = self.members@.index_of(y);
                        assert(self.slot@[self.members@[k] as int] == k + 1);
                    }
                }
            }
            id += 1;
        }
        proof {
            assert forall|x: NodeId| #[trigger] r@.contains(x) <==> self@.contains(x) by {
                if r@.contains(x) {
                    assert(r@[r@.index_of(x)] == x);
                }
                if self@.contains(x) {
                    let k = self.members@.index_of(x);
                    assert(self.members@[k] < self.slot@.len());
                }
            }
        }
        r
    }
}

/// With a free slot there are fewer members than slots.
proof fn lemma_fewer(s: IdSet, id: NodeId)
    requires
        s.wf(),
        id < s.slot@.len(),
        s.slot@[id as int] == 0,
    ensures
        s.members@.len() < s.slot@.len(),
{
    s.lemma_dense();
    let m = s.members@.map_values(|x: NodeId| x as int);
    let room = vstd::set_lib::set_int_range(0, s.slot@.len() as int).remove(id as int);
    vstd::set_lib::lemma_int_range(0, s.slot@.len() as int);
    assert(m.no_duplicates());
    m.unique_seq_to_set();
    assert forall|x: int| m.to_set().contains(x) implies room.contains(x) by {
        let k = m.index_of(x);
        assert(s.members@[k] as int == x);
    }
    vstd::set_lib::lemma_len_subset(m.to_set(), room);
}

} // verus!
