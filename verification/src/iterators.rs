//! Iterators over key-value entries in key order.
pub mod concat_iterator;
pub mod merge_iterator;
pub mod two_merge_iterator;

use vstd::prelude::*;
use crate::entry::{sorted, Entry};
use crate::error::Error;
use crate::key::KeySlice;

verus! {

/// An iterator over entries in key order. It stands on an entry until it is exhausted.
pub trait StorageIterator: Sized {
    /// Whether the parts of the iterator fit together.
    spec fn wf(&self) -> bool;

    /// The entry on which the iterator stands and all that follow, in key order.
    spec fn remaining(&self) -> Seq<Entry>;

    /// Whether `next` may be called.
    spec fn can_next(&self) -> bool;

    /// Whether no further step can fail.
    spec fn reliable(&self) -> bool;

    /// The remaining entries are sorted, and an iterator that stands on an entry can move on.
    proof fn lemma_wf(&self)
        requires
            self.wf(),
        ensures
            sorted(self.remaining()),
            self.remaining().len() > 0 ==> self.can_next(),
    ;

    /// The current key.
    fn key(&self) -> (r: KeySlice<'_>)
        requires
            self.wf(),
            self.remaining().len() > 0,
        ensures
            r@ == self.remaining()[0].key,
    ;

    /// The current value.
    fn value(&self) -> (r: &[u8])
        requires
            self.wf(),
            self.remaining().len() > 0,
        ensures
            r@ == self.remaining()[0].value,
    ;

    /// Whether the iterator stands on an entry.
    fn is_valid(&self) -> (r: bool)
        requires
            self.wf(),
        ensures
            r == (self.remaining().len() > 0),
    ;

    /// Moves to the next entry.
    fn next(&mut self) -> (r: Result<(), Error>)
        requires
            old(self).wf(),
            old(self).can_next(),
        ensures
            r is Ok ==> {
                &&& final(self).wf()
                &&& final(self).remaining() == if old(self).remaining().len() > 0 {
                    old(self).remaining().drop_first()
                } else {
                    old(self).remaining()
                }
            },
            old(self).reliable() && old(self).remaining().len() > 0 ==> r is Ok
                && final(self).reliable(),
    ;

    /// The number of underlying iterators that are still active.
    spec fn active(&self) -> nat;

    fn num_active_iterators(&self) -> (r: usize)
        requires
            self.active() <= usize::MAX,
        ensures
            r == self.active(),
    ;
}

} // verus!
