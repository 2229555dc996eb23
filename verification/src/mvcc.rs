//! Multi-version concurrency control.
pub mod key_set;
pub mod txn;
pub mod watermark;

use vstd::prelude::*;
use crate::error::Error;
use crate::mvcc::key_set::KeySet;
use crate::mvcc::watermark::Watermark;

verus! {

/// What has to be remembered of a committed transaction.
pub struct CommittedTxnData {
    /// The hashes of the keys that it wrote.
    pub key_hashes: KeySet,
    pub read_ts: u64,
    pub commit_ts: u64,
}

/// Whether the transactions stand in the order of their commits.
pub open spec fn in_commit_order(txns: Seq<CommittedTxnData>) -> bool {
    forall|i: int, j: int|
        #![trigger txns[i], txns[j]]
        0 <= i < j < txns.len() ==> txns[i].commit_ts < txns[j].commit_ts
}

/// The timestamps of commits and readers.
pub struct LsmMvccInner {
    latest_commit_ts: u64,
    readers: Watermark,
    committed_txns: Vec<CommittedTxnData>,
}

impl LsmMvccInner {
    /// The timestamp of the latest commit.
    pub closed spec fn latest(&self) -> u64 {
        self.latest_commit_ts
    }

    pub closed spec fn readers(&self) -> Watermark {
        self.readers
    }

    /// The committed transactions that are remembered.
    pub closed spec fn committed(&self) -> Seq<CommittedTxnData> {
        self.committed_txns@
    }

    pub open spec fn wf(&self) -> bool {
        &&& self.readers().wf()
        &&& forall|t: u64| #[trigger] self.readers().count(t) > 0 ==> t <= self.latest()
        &&& in_commit_order(self.committed())
        &&& forall|i: int|
            0 <= i < self.committed().len() ==> (#[trigger] self.committed()[i]).commit_ts
                <= self.latest()
    }

    /// Whether `ts` is the watermark: the smallest timestamp of a reader, or that of the
    /// latest commit where there is no reader.
    pub open spec fn is_watermark(&self, ts: u64) -> bool {
        &&& forall|t: u64| #[trigger] self.readers().count(t) > 0 ==> ts <= t
        &&& self.readers().count(ts) > 0 || (ts == self.latest() && forall|t: u64| #[trigger]
            self.readers().count(t) == 0)
    }

    /// The watermark.
    pub open spec fn low(&self) -> u64 {
        choose|ts: u64| self.is_watermark(ts)
    }

    /// There is one watermark.
    pub proof fn lemma_low(&self, ts: u64)
        requires
            self.is_watermark(ts),
        ensures
            self.low() == ts,
    {
        let w = self.low();
        assert(self.is_watermark(w));
        assert(self.readers().count(w) >= 0 && self.readers().count(ts) >= 0);
    }

    pub fn new(initial_ts: u64) -> (r: LsmMvccInner)
        ensures
            r.wf(),
            r.latest() == initial_ts,
            r.committed() == Seq::<CommittedTxnData>::empty(),
            forall|t: u64| #[trigger] r.readers().count(t) == 0,
    {
        LsmMvccInner {
            latest_commit_ts: initial_ts,
            readers: Watermark::new(),
            committed_txns: Vec::new(),
        }
    }

    pub fn latest_commit_ts(&self) -> (r: u64)
        ensures
            r == self.latest(),
    {
        self.latest_commit_ts
    }

    /// Notes a commit.
    pub fn update_commit_ts(&mut self, ts: u64)
        requires
            old(self).wf(),
            ts >= old(self).latest(),
        ensures
            final(self).wf(),
            final(self).latest() == ts,
            final(self).readers() == old(self).readers(),
            final(self).committed() == old(self).committed(),
    {
        self.latest_commit_ts = ts;
    }

    /// All timestamps that readers may use are at or after the watermark.
    pub fn watermark(&self) -> (r: u64)
        requires
            self.wf(),
        ensures
            self.is_watermark(r),
            r == self.low(),
            r <= self.latest(),
    {
        let r = match self.readers.watermark() {
            Some(ts) => ts,
            None => self.latest_commit_ts,
        };
        proof {
            self.lemma_low(r);
        }
        r
    }

    /// Adds a reader at the latest commit and returns its timestamp. Fails where the readers
    /// there cannot be counted any more.
    pub fn add_reader(&mut self) -> (r: Result<u64, Error>)
        requires
            old(self).wf(),
        ensures
            match r {
                Ok(ts) => {
                    &&& ts == old(self).latest()
                    &&& final(self).reader_added(*old(self), ts)
                },
                Err(e) => {
                    &&& e == Error::ReadersExhausted
                    &&& old(self).pinned(old(self).latest()) == usize::MAX
                    &&& *final(self) == *old(self)
                },
            },
    {
        let ts = self.latest_commit_ts;
        if self.readers.num_readers(ts) == usize::MAX {
            return Err(Error::ReadersExhausted);
        }
        self.readers.add_reader(ts);
        Ok(ts)
    }

    /// What holds after one more reader has been added.
    pub open spec fn reader_added(&self, before: LsmMvccInner, ts: u64) -> bool {
        &&& self.wf()
        &&& self.latest() == before.latest()
        &&& self.committed() == before.committed()
        &&& forall|t: u64| #[trigger]
            self.pinned(t) == before.pinned(t) + if t == ts {
                1nat
            } else {
                0
            }
    }

    /// What holds after a reader has been removed.
    pub open spec fn reader_removed(&self, before: LsmMvccInner, ts: u64) -> bool {
        before.reader_added(*self, ts)
    }

    /// Removes a reader.
    pub fn remove_reader(&mut self, ts: u64)
        requires
            old(self).wf(),
            old(self).pinned(ts) > 0,
        ensures
            final(self).wf(),
            final(self).reader_removed(*old(self), ts),
    {
        self.readers.remove_reader(ts);
        assert forall|t: u64| #[trigger] old(self).pinned(t) == self.pinned(t) + (if t == ts {
            1nat
        } else {
            0
        }) by {
            assert(self.readers().count(t) >= 0);
        }
    }

    /// How many readers there are at a timestamp.
    pub open spec fn pinned(&self, ts: u64) -> nat {
        self.readers().count(ts)
    }

    /// Remembers a committed transaction.
    pub fn remember(&mut self, txn: CommittedTxnData)
        requires
            old(self).wf(),
            txn.commit_ts == old(self).latest(),
            forall|i: int|
                0 <= i < old(self).committed().len() ==> (
                #[trigger] old(self).committed()[i]).commit_ts < txn.commit_ts,
        ensures
            final(self).wf(),
            final(self).latest() == old(self).latest(),
            final(self).readers() == old(self).readers(),
            final(self).committed() == old(self).committed().push(txn),
    {
        self.committed_txns.push(txn);
        proof {
            let txns = self.committed();
            let before = old(self).committed();
            assert forall|i: int, j: int| #![trigger txns[i], txns[j]] 0 <= i < j
                < txns.len() implies txns[i].commit_ts < txns[j].commit_ts by {
                assert(txns[i] == before[i]);
                if j < before.len() {
                    assert(txns[j] == before[j]);
                }
            }
        }
    }

    /// Whether a set of hashes meets the keys of a transaction that committed after `read_ts`.
    pub open spec fn conflicts(&self, read_ts: u64, hashes: Set<u32>) -> bool {
        exists|i: int|
            0 <= i < self.committed().len() && (#[trigger] self.committed()[i]).commit_ts > read_ts
                && !hashes.disjoint(self.committed()[i].key_hashes@)
    }

    /// Whether a set of hashes meets the keys of a transaction that committed after `read_ts`.
    pub fn has_conflict(&self, read_ts: u64, hashes: &KeySet) -> (r: bool)
        requires
            self.wf(),
        ensures
            r == self.conflicts(read_ts, hashes@),
    {
        let mut i: usize = 0;
        while i < self.committed_txns.len()
            invariant
                i <= self.committed_txns@.len(),
                forall|k: int|
                    0 <= k < i ==> (#[trigger] self.committed()[k]).commit_ts <= read_ts
                        || hashes@.disjoint(self.committed()[k].key_hashes@),
            decreases self.committed_txns@.len() - i,
        {
            let txn = &self.committed_txns[i];
            if txn.commit_ts > read_ts {
                if !txn.key_hashes.is_empty() && !hashes.is_disjoint(&txn.key_hashes) {
                    assert(self.committed()[i as int].commit_ts > read_ts);
                    return true;
                }
            }
            i += 1;
        }
        false
    }

    /// Every remembered commit after `read_ts` counts, whatever was committed before or after it:
    /// hashes are in conflict exactly where they share one with the writes of such a commit.
    pub proof fn lemma_every_commit_counts(&self, read_ts: u64, hashes: Set<u32>)
        ensures
            forall|i: int, h: u32|
                #![trigger self.committed()[i], hashes.contains(h)]
                0 <= i < self.committed().len() && read_ts < self.committed()[i].commit_ts
                    && hashes.contains(h) && self.committed()[i].key_hashes@.contains(h)
                    ==> self.conflicts(read_ts, hashes),
            self.conflicts(read_ts, hashes) ==> exists|i: int, h: u32|
                #![trigger self.committed()[i], hashes.contains(h)]
                0 <= i < self.committed().len() && read_ts < self.committed()[i].commit_ts
                    && hashes.contains(h) && self.committed()[i].key_hashes@.contains(h),
    {
        assert forall|i: int, h: u32|
            #![trigger self.committed()[i], hashes.contains(h)]
            0 <= i < self.committed().len() && read_ts < self.committed()[i].commit_ts
                && hashes.contains(h) && self.committed()[i].key_hashes@.contains(
                h,
            ) implies self.conflicts(read_ts, hashes) by {
            let keys = self.committed()[i].key_hashes@;
            assert(!hashes.disjoint(keys));
        }
        if self.conflicts(read_ts, hashes) {
            let i = choose|i: int|
                0 <= i < self.committed().len() && (#[trigger] self.committed()[i]).commit_ts
                    > read_ts && !hashes.disjoint(self.committed()[i].key_hashes@);
            let keys = self.committed()[i].key_hashes@;
            let h = choose|h: u32| hashes.contains(h) && keys.contains(h);
            assert(hashes.contains(h) && self.committed()[i].key_hashes@.contains(h));
        }
    }

    /// A conflict stays when further commits are remembered, and when more has been read since an
    /// earlier timestamp.
    pub proof fn lemma_conflict_stays(
        &self,
        before: LsmMvccInner,
        read_ts: u64,
        hashes: Set<u32>,
        earlier_ts: u64,
        more: Set<u32>,
    )
        requires
            before.conflicts(read_ts, hashes),
            before.committed().len() <= self.committed().len(),
            self.committed().take(before.committed().len() as int) == before.committed(),
            earlier_ts <= read_ts,
            hashes.subset_of(more),
        ensures
            self.conflicts(earlier_ts, more),
    {
        before.lemma_every_commit_counts(read_ts, hashes);
        self.lemma_every_commit_counts(earlier_ts, more);
        let (i, h) = choose|i: int, h: u32|
            #![trigger before.committed()[i], hashes.contains(h)]
            0 <= i < before.committed().len() && read_ts < before.committed()[i].commit_ts
                && hashes.contains(h) && before.committed()[i].key_hashes@.contains(h);
        assert(self.committed().take(before.committed().len() as int)[i] == self.committed()[i]);
        assert(more.contains(h));
    }

    /// A new reader is counted at its timestamp and nowhere else, and the watermark does not pass
    /// it. When it leaves again, the readers are as before.
    pub proof fn lemma_reader_counted(&self, before: LsmMvccInner, later: LsmMvccInner, ts: u64)
        requires
            self.reader_added(before, ts),
        ensures
            self.pinned(ts) == before.pinned(ts) + 1,
            forall|t: u64| t != ts ==> #[trigger] self.pinned(t) == before.pinned(t),
            self.low() <= ts,
            self.latest() == before.latest(),
            self.committed() == before.committed(),
            later.reader_removed(*self, ts) ==> forall|t: u64| #[trigger]
                later.pinned(t) == before.pinned(t),
    {
        assert(self.pinned(ts) == before.pinned(ts) + 1);
        self.lemma_reader_pins(ts);
        if later.reader_removed(*self, ts) {
            assert forall|t: u64| #[trigger] later.pinned(t) == before.pinned(t) by {
                assert(self.pinned(t) == before.pinned(t) + if t == ts {
                    1nat
                } else {
                    0
                });
            }
        }
    }

    /// The watermark is never lower than it has to be: it is the timestamp of a reader, or that
    /// of the latest commit.
    pub proof fn lemma_low_is_attained(&self)
        requires
            self.wf(),
        ensures
            self.pinned(self.low()) > 0 || self.low() == self.latest(),
            (exists|t: u64| #[trigger] self.pinned(t) > 0) ==> self.pinned(self.low()) > 0,
    {
        self.lemma_has_low();
        if exists|t: u64| #[trigger] self.pinned(t) > 0 {
            let t = choose|t: u64| #[trigger] self.pinned(t) > 0;
            assert(self.readers().count(t) > 0);
        }
    }

    /// As long as there is a reader at a timestamp, the watermark does not pass it.
    pub proof fn lemma_reader_pins(&self, ts: u64)
        requires
            self.wf(),
            self.pinned(ts) > 0,
        ensures
            self.low() <= ts,
    {
        self.lemma_has_low();
        assert(self.readers().count(ts) > 0);
    }

    /// Without a reader the watermark is the latest commit.
    pub proof fn lemma_no_reader(&self)
        requires
            forall|t: u64| #[trigger] self.pinned(t) == 0,
        ensures
            self.low() == self.latest(),
    {
        assert forall|t: u64| #[trigger] self.readers().count(t) == 0 by {
            assert(self.pinned(t) == 0);
        }
        self.lemma_low(self.latest());
    }

    /// A new reader at the latest commit leaves the watermark where it is.
    pub proof fn lemma_added_keeps(&self, before: LsmMvccInner)
        requires
            before.wf(),
            self.reader_added(before, before.latest()),
        ensures
            self.low() == before.low(),
    {
        before.lemma_has_low();
        let w = before.low();
        assert forall|t: u64| #[trigger] self.readers().count(t) > 0 implies w <= t by {
            assert(self.pinned(t) == before.pinned(t) + if t == before.latest() {
                1nat
            } else {
                0
            });
            if t != before.latest() {
                assert(before.readers().count(t) > 0);
            }
        }
        assert(self.pinned(w) == before.pinned(w) + if w == before.latest() {
            1nat
        } else {
            0
        });
        self.lemma_low(w);
    }

    /// The watermark never moves back when a reader leaves.
    pub proof fn lemma_removed_raises(&self, before: LsmMvccInner, ts: u64)
        requires
            before.wf(),
            self.wf(),
            self.reader_removed(before, ts),
        ensures
            before.low() <= self.low() <= self.latest(),
    {
        before.lemma_has_low();
        self.lemma_has_low();
        let w = self.low();
        assert(before.pinned(w) == self.pinned(w) + if w == ts {
            1nat
        } else {
            0
        });
        if self.readers().count(w) > 0 {
            assert(before.readers().count(w) > 0);
        }
    }

    /// The watermark stays where it is when a reader leaves and another one is left at the
    /// same timestamp.
    pub proof fn lemma_removed_keeps(&self, before: LsmMvccInner, ts: u64)
        requires
            before.wf(),
            self.wf(),
            self.reader_removed(before, ts),
            self.pinned(ts) > 0,
        ensures
            self.low() == before.low(),
    {
        before.lemma_has_low();
        let w = before.low();
        assert forall|t: u64| #[trigger] self.readers().count(t) > 0 implies w <= t by {
            assert(before.pinned(t) == self.pinned(t) + if t == ts {
                1nat
            } else {
                0
            });
            assert(before.readers().count(t) > 0);
        }
        assert(before.pinned(ts) == self.pinned(ts) + 1);
        assert(before.readers().count(ts) > 0);
        assert(before.pinned(w) == self.pinned(w) + if w == ts {
            1nat
        } else {
            0
        });
        self.lemma_low(w);
    }

    /// A commit does not move the watermark back, and leaves it where it is as long as there
    /// is a reader.
    pub proof fn lemma_commit_raises(&self, before: LsmMvccInner)
        requires
            before.wf(),
            self.wf(),
            self.readers() == before.readers(),
            self.latest() >= before.latest(),
        ensures
            before.low() <= self.low() <= self.latest(),
            (exists|t: u64| #[trigger] before.pinned(t) > 0) ==> self.low() == before.low(),
    {
        before.lemma_has_low();
        self.lemma_has_low();
        if exists|t: u64| #[trigger] before.pinned(t) > 0 {
            let t = choose|t: u64| #[trigger] before.pinned(t) > 0;
            assert(before.readers().count(t) > 0);
            assert(self.readers().count(self.low()) > 0);
            assert(before.readers().count(before.low()) > 0);
        }
    }

    /// There is a watermark, and it is not after the latest commit.
    pub proof fn lemma_has_low(&self)
        requires
            self.wf(),
        ensures
            self.is_watermark(self.low()),
            self.low() <= self.latest(),
    {
        self.readers().lemma_smallest();
        if exists|t: u64| self.readers().is_smallest(t) {
            let t = choose|t: u64| self.readers().is_smallest(t);
            assert(self.is_watermark(t));
        } else {
            assert(self.is_watermark(self.latest()));
        }
    }
}

} // verus!
