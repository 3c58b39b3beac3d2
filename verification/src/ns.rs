//! Namespaces: `(extra_key, cache_salt)` pairs interned to dense ids.

use vstd::prelude::*;
use vstd::string::*;

verus! {

/// The text of a namespace.
pub type Names = (Seq<char>, Seq<char>);

/// The namespace that the two parts of a key name: absent parts are empty.
pub open spec fn names_of(extra_key: Option<&str>, cache_salt: Option<&str>) -> Names {
    (
        match extra_key {
            Some(s) => s@,
            None => Seq::empty(),
        },
        match cache_salt {
            Some(s) => s@,
            None => Seq::empty(),
        },
    )
}

/// The id of `name`, and the table once it is interned: a known name keeps
/// its id, a new one gets the next.
pub open spec fn interned(table: Seq<Names>, name: Names) -> (Seq<Names>, u32) {
    if table.contains(name) {
        (table, table.index_of(name) as u32)
    } else {
        (table.push(name), table.len() as u32)
    }
}

/// The namespaces seen so far; the id of one is its index.
#[derive(Clone)]
pub struct Namespaces {
    list: Vec<(String, String)>,
}

impl Namespaces {
    /// The names by id.
    pub closed spec fn view(&self) -> Seq<Names> {
        Seq::new(self.list@.len(), |i: int| (self.list@[i].0@, self.list@[i].1@))
    }

    /// No name has two ids.
    pub open spec fn wf(&self) -> bool {
        self@.no_duplicates()
    }

    /// No names.
    pub fn new() -> (r: Namespaces)
        ensures
            r.wf(),
            r@ == Seq::<Names>::empty(),
    {
        let r = Namespaces { list: Vec::new() };
        assert(r@ =~= Seq::<Names>::empty());
        r
    }

    /// The id of the namespace, new or known; absent parts are empty.
    pub fn intern(&mut self, extra_key: Option<&str>, cache_salt: Option<&str>) -> (id: u32)
        requires
            old(self).wf(),
            old(self)@.len() < u32::MAX,
        ensures
            final(self).wf(),
            (final(self)@, id) == interned(old(self)@, names_of(extra_key, cache_salt)),
            id < final(self)@.len(),
            final(self)@[id as int] == names_of(extra_key, cache_salt),
    {
        let ghost before = self@;
        let a = match extra_key {
            Some(s) => s.to_owned(),
            None => String::new(),
        };
        let b = match cache_salt {
            Some(s) => s.to_owned(),
            None => String::new(),
        };
        let ghost name = names_of(extra_key, cache_salt);
        let mut i: usize = 0;
        while i < self.list.len()
            invariant
                self@ == before,
                self.wf(),
                before.len() < u32::MAX,
                name == (a@, b@),
                name == names_of(extra_key, cache_salt),
                i <= self.list@.len() == before.len(),
                forall|j: int| 0 <= j < i ==> before[j] != name,
            decreases self.list@.len() - i,
        {
            if self.list[i].0 == a && self.list[i].1 == b {
                assert(before[i as int] == name);
                assert(before.contains(name));
                assert(before.index_of(name) == i);
                return i as u32;
            }
            assert(before[i as int] != name);
            i += 1;
        }
        assert(!before.contains(name));
        self.list.push((a, b));
        assert(self@ =~= before.push(name));
        assert(self@.no_duplicates());
        i as u32
    }

    /// Forgets all names.
    pub fn clear(&mut self)
        ensures
            final(self).wf(),
            final(self)@ == Seq::<Names>::empty(),
    {
        self.list.clear();
        assert(self@ =~= Seq::<Names>::empty());
    }
}

/// Interning keeps ids: a name that has one keeps it, and two names never share one.
pub proof fn law_namespaces_are_stable(table: Seq<Names>, a: Names, b: Names)
    requires
        table.no_duplicates(),
        table.len() < u32::MAX,
    ensures
        ({
            let (t1, ia) = interned(table, a);
            let (t2, ib) = interned(t1, b);
            &&& t1.no_duplicates()
            &&& t1[ia as int] == a
            &&& interned(t1, a) == (t1, ia)
            &&& t1.len() < u32::MAX ==> (ia == ib <==> a == b)
            &&& t1.len() < u32::MAX ==> interned(t2, a) == (t2, ia)
        }),
{
    let (t1, ia) = interned(table, a);
    let (t2, ib) = interned(t1, b);
    if !table.contains(a) {
        assert(t1[table.len() as int] == a);
    }
    assert(t1.contains(a));
    assert(t1.index_of(a) == ia);
    if t1.len() < u32::MAX {
        if !t1.contains(b) {
            assert(t2[t1.len() as int] == b);
        }
        assert(t2[ia as int] == a);
        assert(t2.contains(a));
        assert(t2.no_duplicates());
        assert(t2.index_of(a) == ia);
    }
}

} // verus!
