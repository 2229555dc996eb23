use vstd::prelude::*;
use crate::entry::Entry;
use crate::error::Error;
use crate::iterators::StorageIterator;
use crate::key::{key_le, lemma_key_lt_total, KeySlice};
use crate::merge::{lemma_merge2_sorted, merge2};
use crate::order::Order;

verus! {

/// Merges two iterators of different types into one. If the two iterators have the same key,
/// only produces the key once and prefers the entry from A.
pub struct TwoMergeIterator<A: StorageIterator, B: StorageIterator> {
    a: A,
    b: B,
    /// Whether the current entry is the one of `a`.
    current_a: bool,
    /// Whether the current entries of both have the same key.
    same_key: bool,
}

impl<A: StorageIterator, B: StorageIterator> TwoMergeIterator<A, B> {
    pub closed spec fn left(&self) -> A {
        self.a
    }

    pub closed spec fn right(&self) -> B {
        self.b
    }

    /// Whether the current entry is the one of the first iterator.
    pub closed spec fn on_left(&self) -> bool {
        self.current_a
    }

    pub closed spec fn inv(&self) -> bool {
        let ra = self.a.remaining();
        let rb = self.b.remaining();
        &&& self.a.wf()
        &&& self.b.wf()
        &&& self.current_a == (ra.len() > 0 && (rb.len() == 0 || key_le(ra[0].key, rb[0].key)))
        &&& self.same_key == (ra.len() > 0 && rb.len() > 0 && ra[0].key == rb[0].key)
    }

    /// Decides which of two iterators holds the current entry.
    fn choose_current(a: &A, b: &B) -> (r: (bool, bool))
        requires
            a.wf(),
            b.wf(),
        ensures
            r.0 == (a.remaining().len() > 0 && (b.remaining().len() == 0 || key_le(
                a.remaining()[0].key,
                b.remaining()[0].key,
            ))),
            r.1 == (a.remaining().len() > 0 && b.remaining().len() > 0 && a.remaining()[0].key
                == b.remaining()[0].key),
    {
        if a.is_valid() && b.is_valid() {
            match a.key().compare(&b.key()) {
                Order::Less => (true, false),
                Order::Equal => (true, true),
                Order::Greater => (false, false),
            }
        } else {
            (a.is_valid(), false)
        }
    }

    /// Creates the merge of two iterators.
    pub fn create(a: A, b: B) -> (r: Result<TwoMergeIterator<A, B>, Error>)
        requires
            a.wf(),
            b.wf(),
        ensures
            match r {
                Ok(it) => {
                    &&& it.wf()
                    &&& it.left() == a
                    &&& it.right() == b
                    &&& it.remaining() == merge2(a.remaining(), b.remaining())
                    &&& it.reliable() == (a.reliable() && b.reliable())
                    &&& it.active() == a.active() + b.active()
                },
                Err(_) => false,
            },
    {
        let (current_a, same_key) = Self::choose_current(&a, &b);
        Ok(TwoMergeIterator { a, b, current_a, same_key })
    }
}

impl<A: StorageIterator, B: StorageIterator> StorageIterator for TwoMergeIterator<A, B> {
    closed spec fn wf(&self) -> bool {
        self.inv()
    }

    closed spec fn remaining(&self) -> Seq<Entry> {
        merge2(self.a.remaining(), self.b.remaining())
    }

    open spec fn can_next(&self) -> bool {
        if self.on_left() {
            self.left().can_next()
        } else {
            self.right().can_next()
        }
    }

    closed spec fn reliable(&self) -> bool {
        self.a.reliable() && self.b.reliable()
    }

    proof fn lemma_wf(&self) {
        self.a.lemma_wf();
        self.b.lemma_wf();
        lemma_merge2_sorted(self.a.remaining(), self.b.remaining());
    }

    fn key(&self) -> (r: KeySlice<'_>) {
        if self.current_a {
            self.a.key()
        } else {
            self.b.key()
        }
    }

    fn value(&self) -> (r: &[u8]) {
        if self.current_a {
            self.a.value()
        } else {
            self.b.value()
        }
    }

    fn is_valid(&self) -> (r: bool) {
        if self.current_a {
            self.a.is_valid()
        } else {
            self.b.is_valid()
        }
    }

    fn next(&mut self) -> (r: Result<(), Error>) {
        let ghost ra = self.a.remaining();
        let ghost rb = self.b.remaining();
        proof {
            self.a.lemma_wf();
            self.b.lemma_wf();
        }
        if self.current_a {
            self.a.next()?;
            // the key has been produced; the entry of b does not count any more
            if self.same_key {
                self.b.next()?;
            }
        } else {
            self.b.next()?;
        }
        let (current_a, same_key) = Self::choose_current(&self.a, &self.b);
        self.current_a = current_a;
        self.same_key = same_key;
        proof {
            let m = merge2(ra, rb);
            if ra.len() > 0 && rb.len() > 0 {
                lemma_key_lt_total(ra[0].key, rb[0].key);
            }
            if m.len() > 0 {
                assert(m.drop_first() =~= self.remaining());
            }
        }
        Ok(())
    }

    closed spec fn active(&self) -> nat {
        self.a.active() + self.b.active()
    }

    fn num_active_iterators(&self) -> (r: usize) {
        self.a.num_active_iterators() + self.b.num_active_iterators()
    }
}

impl<A: StorageIterator, B: StorageIterator> TwoMergeIterator<A, B> {
    /// A merge counts what its two iterators count.
    pub proof fn lemma_active(&self)
        ensures
            self.active() == self.left().active() + self.right().active(),
    {
    }
}

} // verus!
