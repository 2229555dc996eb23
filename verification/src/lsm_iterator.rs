//! The iterator that a scan returns.
use vstd::prelude::*;
use std::ops::Bound;
use crate::codec::copy_range;
use crate::entry::{sorted, Entry};
use crate::error::Error;
use crate::iterators::concat_iterator::SstConcatIterator;
use crate::iterators::merge_iterator::MergeIterator;
use crate::iterators::two_merge_iterator::TwoMergeIterator;
use crate::iterators::StorageIterator;
use crate::key::{KeySlice, TS_DEFAULT};
use crate::mem_table::MemTableIterator;
use crate::order::{bytes_equal, bytes_less, bytes_lt, lemma_bytes_lt_irreflexive};
use crate::snapshot::{
    lemma_seen_decided, lemma_seen_invisible, lemma_seen_past, lemma_skip_user,
    lemma_snapshot_sorted, seen, skip_user, snapshot, unversioned, user_below,
};
use crate::table::iterator::SsTableIterator;

verus! {

/// The mathematical value of a bound of user keys.
pub open spec fn bytes_bound(b: Bound<Vec<u8>>) -> Bound<Seq<u8>> {
    match b {
        Bound::Included(k) => Bound::Included(k@),
        Bound::Excluded(k) => Bound::Excluded(k@),
        Bound::Unbounded => Bound::Unbounded,
    }
}

/// The mathematical value of a borrowed bound of user keys.
pub open spec fn user_bound(b: Bound<&[u8]>) -> Bound<Seq<u8>> {
    match b {
        Bound::Included(k) => Bound::Included(k@),
        Bound::Excluded(k) => Bound::Excluded(k@),
        Bound::Unbounded => Bound::Unbounded,
    }
}

/// Copies a bound of user keys.
pub fn copy_bound(b: Bound<&[u8]>) -> (r: Bound<Vec<u8>>)
    ensures
        bytes_bound(r) == user_bound(b),
{
    match b {
        Bound::Included(k) => {
            let c = copy_range(k, 0, k.len());
            assert(c@ =~= k@);
            Bound::Included(c)
        },
        Bound::Excluded(k) => {
            let c = copy_range(k, 0, k.len());
            assert(c@ =~= k@);
            Bound::Excluded(c)
        },
        Bound::Unbounded => Bound::Unbounded,
    }
}

/// Whether a user key lies past an upper bound.
pub fn is_past_upper_bound(upper_bound: &Bound<Vec<u8>>, value: &[u8]) -> (r: bool)
    ensures
        r == !user_below(bytes_bound(*upper_bound), value@),
{
    match upper_bound {
        Bound::Included(b) => bytes_less(b.as_slice(), value),
        Bound::Excluded(b) => !bytes_less(value, b.as_slice()),
        Bound::Unbounded => false,
    }
}

/// The merge of all sources: the memtables, the tables of level 0 and the other levels.
pub type LsmIteratorInner<'a> = TwoMergeIterator<
    TwoMergeIterator<MergeIterator<MemTableIterator<'a>>, MergeIterator<SsTableIterator>>,
    MergeIterator<SstConcatIterator>,
>;

/// An iterator over what a reader sees. Its keys are user keys and carry no version.
pub struct LsmIterator<'a> {
    inner: LsmIteratorInner<'a>,
    end_bound: Bound<Vec<u8>>,
    read_ts: u64,
    stopped: bool,
}

impl<'a> LsmIterator<'a> {
    /// What the reader sees from the place of the merge on, also past the bound.
    pub closed spec fn visible(&self) -> Seq<Entry> {
        snapshot(self.inner.remaining(), self.read_ts, Bound::Unbounded)
    }

    /// Whether the iterator has stopped at an entry past the bound.
    pub closed spec fn past_bound(&self) -> bool {
        self.stopped
    }

    /// Whether the current version is one that the reader sees, where there is one.
    spec fn settled(&self) -> bool {
        let m = self.inner.remaining();
        m.len() > 0 ==> m[0].key.ts <= self.read_ts && m[0].value.len() > 0
    }

    pub closed spec fn inv(&self) -> bool {
        let m = self.inner.remaining();
        &&& self.inner.wf()
        &&& self.settled()
        &&& self.stopped ==> m.len() > 0
        &&& m.len() > 0 ==> (self.stopped <==> !user_below(
            bytes_bound(self.end_bound),
            m[0].key.user,
        ))
    }

    /// Whether no step of the merge can fail.
    pub closed spec fn steady(&self) -> bool {
        self.inner.reliable()
    }

    /// Creates an iterator over what a reader at `read_ts` sees of the merged sources, up to
    /// a bound.
    pub fn new(iter: LsmIteratorInner<'a>, end_bound: Bound<Vec<u8>>, read_ts: u64) -> (r: Result<
        LsmIterator<'a>,
        Error,
    >)
        requires
            iter.wf(),
        ensures
            match r {
                Ok(it) => {
                    &&& it.wf()
                    &&& it.remaining() == snapshot(
                        iter.remaining(),
                        read_ts,
                        bytes_bound(end_bound),
                    )
                    &&& it.visible() == snapshot(iter.remaining(), read_ts, Bound::Unbounded)
                    &&& it.past_bound() <==> it.remaining().len() == 0 && it.visible().len() > 0
                    &&& iter.reliable() ==> it.reliable()
                },
                Err(_) => !iter.reliable(),
            },
    {
        let mut obj = LsmIterator { inner: iter, end_bound, read_ts, stopped: false };
        obj.advance_to_visible_key()?;
        proof {
            obj.lemma_head();
        }
        if obj.inner.is_valid() && is_past_upper_bound(&obj.end_bound, obj.inner.key().key_ref()) {
            obj.stopped = true;
        }
        proof {
            obj.lemma_head();
        }
        Ok(obj)
    }

    /// What follows from the place of the merge.
    proof fn lemma_head(&self)
        requires
            self.inner.wf(),
            self.settled(),
        ensures
            sorted(self.inner.remaining()),
            self.inner.remaining().len() > 0 <==> self.visible().len() > 0,
            ({
                let m = self.inner.remaining();
                m.len() > 0 ==> seen(m, self.read_ts, Bound::Unbounded) == seq![m[0]] + seen(
                    skip_user(m, m[0].key.user),
                    self.read_ts,
                    Bound::Unbounded,
                )
            }),
            ({
                let m = self.inner.remaining();
                let upper = bytes_bound(self.end_bound);
                &&& m.len() == 0 ==> seen(m, self.read_ts, upper) == Seq::<Entry>::empty()
                &&& m.len() > 0 && !user_below(upper, m[0].key.user) ==> seen(
                    m,
                    self.read_ts,
                    upper,
                ) == Seq::<Entry>::empty()
                &&& m.len() > 0 && user_below(upper, m[0].key.user) ==> seen(
                    m,
                    self.read_ts,
                    upper,
                ) == seq![m[0]] + seen(skip_user(m, m[0].key.user), self.read_ts, upper)
            }),
    {
        let m = self.inner.remaining();
        let upper = bytes_bound(self.end_bound);
        self.inner.lemma_wf();
        if m.len() > 0 {
            lemma_seen_decided(m, self.read_ts, Bound::Unbounded);
            if user_below(upper, m[0].key.user) {
                lemma_seen_decided(m, self.read_ts, upper);
            } else {
                lemma_seen_past(m, self.read_ts, upper);
            }
        } else {
            reveal(Seq::filter);
            assert(seen(m, self.read_ts, upper) =~= Seq::<Entry>::empty());
            assert(seen(m, self.read_ts, Bound::Unbounded) =~= Seq::<Entry>::empty());
        }
    }

    /// Drops the leading versions of a user key.
    fn drop_versions(&mut self, user: &[u8]) -> (r: Result<(), Error>)
        requires
            old(self).inner.wf(),
        ensures
            final(self).end_bound == old(self).end_bound,
            final(self).read_ts == old(self).read_ts,
            final(self).stopped == old(self).stopped,
            old(self).inner.reliable() ==> r is Ok && final(self).inner.reliable(),
            r is Ok ==> {
                &&& final(self).inner.wf()
                &&& final(self).inner.remaining() == skip_user(old(self).inner.remaining(), user@)
                &&& final(self).inner.remaining().len() <= old(self).inner.remaining().len()
            },
    {
        while self.inner.is_valid() && bytes_equal(user, self.inner.key().key_ref())
            invariant
                self.inner.wf(),
                self.end_bound == old(self).end_bound,
                self.read_ts == old(self).read_ts,
                self.stopped == old(self).stopped,
                old(self).inner.reliable() ==> self.inner.reliable(),
                self.inner.remaining().len() <= old(self).inner.remaining().len(),
                skip_user(self.inner.remaining(), user@) == skip_user(
                    old(self).inner.remaining(),
                    user@,
                ),
            decreases self.inner.remaining().len(),
        {
            proof {
                self.inner.lemma_wf();
            }
            self.inner.next()?;
        }
        Ok(())
    }

    /// Moves the merge to the next version that the reader sees.
    fn advance_to_visible_key(&mut self) -> (r: Result<(), Error>)
        requires
            old(self).inner.wf(),
        ensures
            final(self).end_bound == old(self).end_bound,
            final(self).read_ts == old(self).read_ts,
            final(self).stopped == old(self).stopped,
            old(self).inner.reliable() ==> r is Ok && final(self).inner.reliable(),
            r is Ok ==> {
                &&& final(self).inner.wf()
                &&& final(self).settled()
                &&& forall|upper: Bound<Seq<u8>>| #[trigger]
                    seen(final(self).inner.remaining(), old(self).read_ts, upper) == seen(
                        old(self).inner.remaining(),
                        old(self).read_ts,
                        upper,
                    )
            },
    {
        let ghost ts = self.read_ts;
        let ghost m0 = self.inner.remaining();
        loop
            invariant
                self.inner.wf(),
                ts == self.read_ts,
                m0 == old(self).inner.remaining(),
                self.end_bound == old(self).end_bound,
                self.read_ts == old(self).read_ts,
                self.stopped == old(self).stopped,
                old(self).inner.reliable() ==> self.inner.reliable(),
                forall|upper: Bound<Seq<u8>>| #[trigger]
                    seen(self.inner.remaining(), ts, upper) == seen(m0, ts, upper),
            decreases self.inner.remaining().len(),
        {
            let ghost start = self.inner.remaining().len();
            // A version newer than the snapshot is invisible, but an older version of the
            // same user key may still be visible.
            while self.inner.is_valid() && self.inner.key().ts() > self.read_ts
                invariant
                    self.inner.wf(),
                    ts == self.read_ts,
                    self.end_bound == old(self).end_bound,
                    self.read_ts == old(self).read_ts,
                    self.stopped == old(self).stopped,
                    old(self).inner.reliable() ==> self.inner.reliable(),
                    self.inner.remaining().len() <= start,
                    forall|upper: Bound<Seq<u8>>| #[trigger]
                        seen(self.inner.remaining(), ts, upper) == seen(m0, ts, upper),
                decreases self.inner.remaining().len(),
            {
                let ghost m = self.inner.remaining();
                proof {
                    self.inner.lemma_wf();
                }
                self.inner.next()?;
                proof {
                    assert forall|upper: Bound<Seq<u8>>| #[trigger]
                        seen(m.drop_first(), ts, upper) == seen(m0, ts, upper) by {
                        lemma_seen_invisible(m, ts, upper);
                        assert(seen(m, ts, upper) == seen(m0, ts, upper));
                    }
                }
            }
            if !self.inner.is_valid() || self.inner.value().len() != 0 {
                return Ok(());
            }
            // A visible deletion hides every older version of its user key.

            let ghost m = self.inner.remaining();
            proof {
                self.inner.lemma_wf();
                lemma_skip_user(m, m[0].key.user);
                lemma_seen_some(m);
            }
            let user_key = copy_range(self.inner.key().key_ref(), 0, self.inner.key().key_len());
            assert(user_key@ =~= m[0].key.user);
            self.drop_versions(user_key.as_slice())?;
            proof {
                let t = skip_user(m, m[0].key.user);
                assert forall|upper: Bound<Seq<u8>>| #[trigger]
                    seen(t, ts, upper) == seen(m0, ts, upper) by {
                    lemma_seen_decided(m, ts, upper);
                    assert(seen(m, ts, upper) == seen(m0, ts, upper));
                    assert(Seq::<Entry>::empty() + seen(t, ts, upper) =~= seen(t, ts, upper));
                }
            }
        }
    }
}

/// Dropping the versions of the first user key drops at least one entry.
proof fn lemma_seen_some(m: Seq<Entry>)
    requires
        sorted(m),
        m.len() > 0,
    ensures
        skip_user(m, m[0].key.user).len() < m.len(),
{
    let user = m[0].key.user;
    lemma_skip_user(m, user);
    let t = skip_user(m, user);
    if t.len() == m.len() {
        assert(t =~= m);
        lemma_bytes_lt_irreflexive(user);
        assert(bytes_lt(user, t[0].key.user));
    }
}

impl<'a> StorageIterator for LsmIterator<'a> {
    open spec fn wf(&self) -> bool {
        self.inv()
    }

    closed spec fn remaining(&self) -> Seq<Entry> {
        if self.stopped {
            Seq::empty()
        } else {
            snapshot(self.inner.remaining(), self.read_ts, bytes_bound(self.end_bound))
        }
    }

    open spec fn can_next(&self) -> bool {
        self.visible().len() > 0
    }

    open spec fn reliable(&self) -> bool {
        self.steady()
    }

    proof fn lemma_wf(&self) {
        self.inner.lemma_wf();
        lemma_snapshot_sorted(
            self.inner.remaining(),
            self.read_ts,
            bytes_bound(self.end_bound),
        );
        self.lemma_head();
    }

    fn is_valid(&self) -> (r: bool) {
        proof {
            self.lemma_head();
        }
        self.inner.is_valid() && !self.stopped
    }

    fn key(&self) -> (r: KeySlice<'_>) {
        proof {
            self.lemma_head();
        }
        KeySlice::from_slice(self.inner.key().key_ref(), TS_DEFAULT)
    }

    fn value(&self) -> (r: &[u8]) {
        proof {
            self.lemma_head();
        }
        self.inner.value()
    }

    fn next(&mut self) -> (r: Result<(), Error>)
        ensures
            old(self).reliable() ==> r is Ok && final(self).reliable(),
            old(self).past_bound() ==> r is Ok && *final(self) == *old(self),
            r is Ok ==> {
                &&& final(self).visible() == if old(self).past_bound() {
                    old(self).visible()
                } else {
                    old(self).visible().drop_first()
                }
                &&& final(self).past_bound() <==> final(self).remaining().len() == 0
                    && final(self).visible().len() > 0
            },
    {
        proof {
            self.lemma_head();
        }
        if self.stopped {
            return Ok(());
        }
        let ghost m = self.inner.remaining();
        let ghost upper = bytes_bound(self.end_bound);
        let ghost ts = self.read_ts;
        proof {
            self.inner.lemma_wf();
        }
        let prev_key = copy_range(self.inner.key().key_ref(), 0, self.inner.key().key_len());
        assert(prev_key@ =~= m[0].key.user);
        self.inner.next()?;
        // The visible version has been returned, so the older versions are dropped.
        self.drop_versions(prev_key.as_slice())?;
        self.advance_to_visible_key()?;
        proof {
            let t = skip_user(m, m[0].key.user);
            assert(t == skip_user(m.drop_first(), m[0].key.user));
            assert(seen(self.inner.remaining(), ts, upper) == seen(t, ts, upper));
            assert((seq![m[0]] + seen(t, ts, upper)).drop_first() =~= seen(t, ts, upper));
            assert(snapshot(m, ts, upper).drop_first() =~= unversioned(
                seen(m, ts, upper).drop_first(),
            ));
            let all: Bound<Seq<u8>> = Bound::Unbounded;
            assert(seen(self.inner.remaining(), ts, all) == seen(t, ts, all));
            assert((seq![m[0]] + seen(t, ts, all)).drop_first() =~= seen(t, ts, all));
            assert(snapshot(m, ts, all).drop_first() =~= unversioned(
                seen(m, ts, all).drop_first(),
            ));
            self.lemma_head();
        }
        if self.inner.is_valid() && is_past_upper_bound(
            &self.end_bound,
            self.inner.key().key_ref(),
        ) {
            self.stopped = true;
        }
        Ok(())
    }

    closed spec fn active(&self) -> nat {
        self.inner.active()
    }

    fn num_active_iterators(&self) -> (r: usize) {
        self.inner.num_active_iterators()
    }
}

/// A wrapper around an iterator that lets `next` be called when the iterator is not valid.
/// Then `next` does nothing. Once `next` has failed, the iterator is not valid any more and
/// `next` always fails.
pub struct FusedIterator<I: StorageIterator> {
    iter: I,
    has_errored: bool,
}

impl<I: StorageIterator> FusedIterator<I> {
    pub closed spec fn inner(&self) -> I {
        self.iter
    }

    pub closed spec fn errored(&self) -> bool {
        self.has_errored
    }

    /// Wraps an iterator.
    pub fn new(iter: I) -> (r: FusedIterator<I>)
        ensures
            r.inner() == iter,
            !r.errored(),
    {
        FusedIterator { iter, has_errored: false }
    }
}

impl<I: StorageIterator> StorageIterator for FusedIterator<I> {
    open spec fn wf(&self) -> bool {
        self.errored() || self.inner().wf()
    }

    open spec fn remaining(&self) -> Seq<Entry> {
        if self.errored() {
            Seq::empty()
        } else {
            self.inner().remaining()
        }
    }

    open spec fn can_next(&self) -> bool {
        true
    }

    open spec fn reliable(&self) -> bool {
        !self.errored() && self.inner().reliable()
    }

    proof fn lemma_wf(&self) {
        if !self.has_errored {
            self.iter.lemma_wf();
        }
    }

    fn is_valid(&self) -> (r: bool) {
        if self.has_errored {
            return false;
        }
        self.iter.is_valid()
    }

    fn key(&self) -> (r: KeySlice<'_>) {
        self.iter.key()
    }

    fn value(&self) -> (r: &[u8]) {
        self.iter.value()
    }

    fn next(&mut self) -> (r: Result<(), Error>)
        ensures
            final(self).wf(),
            old(self).errored() ==> r == Err::<(), Error>(Error::IteratorErrored) && *final(self)
                == *old(self),
            !old(self).errored() && old(self).remaining().len() == 0 ==> r is Ok && *final(self)
                == *old(self),
            r is Err ==> final(self).errored(),
            r is Ok ==> !final(self).errored(),
    {
        if self.has_errored {
            return Err(Error::IteratorErrored);
        }
        if !self.is_valid() {
            return Ok(());
        }
        proof {
            self.iter.lemma_wf();
        }
        match self.iter.next() {
            Ok(_) => Ok(()),
            Err(e) => {
                self.has_errored = true;
                Err(e)
            },
        }
    }

    open spec fn active(&self) -> nat {
        self.inner().active()
    }

    fn num_active_iterators(&self) -> (r: usize) {
        self.iter.num_active_iterators()
    }
}

} // verus!
