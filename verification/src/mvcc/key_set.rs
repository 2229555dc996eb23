//! Sets of key hashes.
use vstd::prelude::*;
use std::collections::HashSet;

verus! {

/// A set of 32-bit hashes.
pub struct KeySet {
    hashes: HashSet<u32>,
}

impl View for KeySet {
    type V = Set<u32>;

    closed spec fn view(&self) -> Set<u32> {
        self.hashes@
    }
}

impl KeySet {
    pub fn new() -> (r: KeySet)
        ensures
            r@ == Set::<u32>::empty(),
    {
        KeySet { hashes: HashSet::new() }
    }

    pub fn contains(&self, h: u32) -> (r: bool)
        ensures
            r == self@.contains(h),
    {
        broadcast use vstd::std_specs::hash::group_hash_axioms;

        self.hashes.contains(&h)
    }

    pub fn insert(&mut self, h: u32)
        ensures
            final(self)@ == old(self)@.insert(h),
    {
        broadcast use vstd::std_specs::hash::group_hash_axioms;

        self.hashes.insert(h);
    }

    pub fn is_empty(&self) -> (r: bool)
        ensures
            r == (self@ == Set::<u32>::empty()),
    {
        let r = self.hashes.is_empty();
        assert(self@.is_empty() <==> self@ =~= Set::<u32>::empty());
        r
    }

    /// Whether two sets have no common member.
    pub fn is_disjoint(&self, other: &KeySet) -> (r: bool)
        ensures
            r == self@.disjoint(other@),
    {
        broadcast use vstd::std_specs::hash::group_hash_axioms;

        for h in it: self.hashes.iter()
            invariant
                it.seq().unref().to_set() == self@,
                forall|k: int| 0 <= k < it.index() ==> !other@.contains(*#[trigger] it.seq()[k]),
        {
            if other.contains(*h) {
                proof {
                    assert(it.seq().unref()[it.index() as int] == *h);
                    assert(it.seq().unref().contains(*h));
                    assert(self@.contains(*h));
                }
                return false;
            }
        }
        assert forall|x: u32| self@.contains(x) implies !other@.contains(x) by {
        }
        true
    }

    pub fn copied(&self) -> (r: KeySet)
        ensures
            r@ == self@,
    {
        broadcast use vstd::std_specs::hash::group_hash_axioms;

        let mut r = KeySet::new();
        for h in it: self.hashes.iter()
            invariant
                it.seq().unref().to_set() == self@,
                forall|k: int| 0 <= k < it.index() ==> r@.contains(*#[trigger] it.seq()[k]),
                forall|x: u32| #[trigger] r@.contains(x) ==> self@.contains(x),
        {
            proof {
                assert(it.seq().unref()[it.index() as int] == *h);
                assert(it.seq().unref().contains(*h));
            }
            r.insert(*h);
        }
        assert forall|x: u32| self@.contains(x) implies r@.contains(x) by {
        }
        assert(r@ =~= self@);
        r
    }
}

} // verus!
