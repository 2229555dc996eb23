//! The timestamps at which transactions read.
use vstd::prelude::*;

verus! {

/// How many readers there are at a timestamp.
pub open spec fn readers_at(readers: Seq<(u64, usize)>, ts: u64) -> nat
    decreases readers.len(),
{
    if readers.len() == 0 {
        0
    } else if readers.last().0 == ts {
        readers.last().1 as nat
    } else {
        readers_at(readers.drop_last(), ts)
    }
}

/// Whether the timestamps ascend and each has a reader.
pub open spec fn ascending(readers: Seq<(u64, usize)>) -> bool {
    &&& forall|i: int, j: int|
        #![trigger readers[i], readers[j]]
        0 <= i < j < readers.len() ==> readers[i].0 < readers[j].0
    &&& forall|i: int| 0 <= i < readers.len() ==> (#[trigger] readers[i]).1 > 0
}

/// The number of readers at a timestamp is the one that is noted for it.
pub proof fn lemma_readers_at(readers: Seq<(u64, usize)>, ts: u64)
    requires
        ascending(readers),
    ensures
        forall|i: int|
            0 <= i < readers.len() && (#[trigger] readers[i]).0 == ts ==> readers_at(readers, ts)
                == readers[i].1,
        (forall|i: int| 0 <= i < readers.len() ==> (#[trigger] readers[i]).0 != ts)
            ==> readers_at(readers, ts) == 0,
        readers_at(readers, ts) > 0 ==> exists|i: int|
            0 <= i < readers.len() && (#[trigger] readers[i]).0 == ts,
    decreases readers.len(),
{
    if readers.len() > 0 {
        let t = readers.drop_last();
        assert forall|i: int, j: int| #![trigger t[i], t[j]] 0 <= i < j < t.len() implies t[i].0
            < t[j].0 by {
            assert(t[i] == readers[i] && t[j] == readers[j]);
        }
        assert forall|i: int| 0 <= i < t.len() implies (#[trigger] t[i]).1 > 0 by {
            assert(t[i] == readers[i]);
        }
        lemma_readers_at(t, ts);
        let n = readers.len() - 1;
        assert forall|i: int| 0 <= i < readers.len() && (
        #[trigger] readers[i]).0 == ts implies readers_at(readers, ts) == readers[i].1 by {
            if i < n {
                assert(t[i] == readers[i]);
                assert(readers[i].0 < readers[n].0);
            }
        }
        if forall|i: int| 0 <= i < readers.len() ==> (#[trigger] readers[i]).0 != ts {
            assert forall|i: int| 0 <= i < t.len() implies (#[trigger] t[i]).0 != ts by {
                assert(t[i] == readers[i]);
            }
            assert(readers[n].0 != ts);
        }
        if readers_at(readers, ts) > 0 {
            if readers[n].0 != ts {
                let i = choose|i: int| 0 <= i < t.len() && (#[trigger] t[i]).0 == ts;
                assert(readers[i].0 == ts);
            }
        }
    }
}

/// One more reader at a timestamp.
#[verifier::rlimit(40)]
proof fn lemma_added(
    before: Seq<(u64, usize)>,
    after: Seq<(u64, usize)>,
    ts: u64,
    i: int,
)
    requires
        ascending(before),
        0 <= i <= before.len(),
        forall|k: int| 0 <= k < i ==> (#[trigger] before[k]).0 < ts,
        forall|k: int| i <= k < before.len() ==> (#[trigger] before[k]).0 >= ts,
        readers_at(before, ts) < usize::MAX,
        after == if i < before.len() && before[i].0 == ts {
            before.update(i, (ts, (before[i].1 + 1) as usize))
        } else {
            before.insert(i, (ts, 1))
        },
    ensures
        ascending(after),
        forall|t: u64| #[trigger]
            readers_at(after, t) == readers_at(before, t) + if t == ts {
                1nat
            } else {
                0
            },
{
    lemma_readers_at(before, ts);
    let there = i < before.len() && before[i].0 == ts;
    assert forall|a: int| 0 <= a < after.len() implies #[trigger] after[a] == (if a == i {
        (ts, (readers_at(before, ts) + 1) as usize)
    } else if a < i || there {
        before[a]
    } else {
        before[a - 1]
    }) by {
        if !there {
            assert forall|k: int| 0 <= k < before.len() implies (
            #[trigger] before[k]).0 != ts by {
                if k > i {
                    assert(before[i].0 < before[k].0);
                }
            }
        }
    }
    assert forall|a: int, b: int| #![trigger after[a], after[b]] 0 <= a < b
        < after.len() implies after[a].0 < after[b].0 by {
        let a1 = if a < i || there { a } else { a - 1 };
        let b1 = if b < i || there { b } else { b - 1 };
        if a != i && b != i {
            assert(before[a1].0 < before[b1].0);
        } else if a == i && there {
            assert(before[i].0 < before[b].0);
        } else if a == i {
            assert(before[b1].0 >= ts);
            if before[b1].0 == ts && b1 > i {
                assert(before[i].0 < before[b1].0);
            }
        }
    }
    assert(ascending(after)) by {
        assert forall|a: int| 0 <= a < after.len() implies (#[trigger] after[a]).1 > 0 by {
            let a1 = if a < i || there { a } else { a - 1 };
            if a != i {
                assert(before[a1].1 > 0);
            }
        }
    }
    assert forall|t: u64| #[trigger] readers_at(after, t) == readers_at(before, t) + (if t == ts {
        1nat
    } else {
        0
    }) by {
        lemma_readers_at(before, t);
        lemma_readers_at(after, t);
        if t == ts {
            assert(after[i].0 == ts);
        } else {
            if readers_at(before, t) > 0 {
                let k = choose|k: int|
                    0 <= k < before.len() && (#[trigger] before[k]).0 == t;
                let k1 = if k < i || there { k } else { k + 1 };
                assert(after[k1] == before[k]);
            }
            if readers_at(after, t) > 0 {
                let k = choose|k: int| 0 <= k < after.len() && (#[trigger] after[k]).0 == t;
                let k1 = if k < i || there { k } else { k - 1 };
                assert(after[k] == before[k1]);
            }
        }
    }
}

/// One reader less at a timestamp.
#[verifier::rlimit(40)]
proof fn lemma_removed(
    before: Seq<(u64, usize)>,
    after: Seq<(u64, usize)>,
    ts: u64,
    i: int,
    n: usize,
)
    requires
        ascending(before),
        0 <= i < before.len(),
        before[i] == (ts, n),
        after == if n > 1 {
            before.update(i, (ts, (n - 1) as usize))
        } else {
            before.remove(i)
        },
    ensures
        ascending(after),
        forall|t: u64| #[trigger]
            readers_at(after, t) + (if t == ts {
                1nat
            } else {
                0
            }) == readers_at(before, t),
{
    let stays = n > 1;
    assert forall|a: int| 0 <= a < after.len() implies #[trigger] after[a] == (if a == i
        && stays {
        (ts, (n - 1) as usize)
    } else if a < i || stays {
        before[a]
    } else {
        before[a + 1]
    }) by {}
    assert forall|a: int, b: int| #![trigger after[a], after[b]] 0 <= a < b
        < after.len() implies after[a].0 < after[b].0 by {
        let a1 = if a < i || stays { a } else { a + 1 };
        let b1 = if b < i || stays { b } else { b + 1 };
        assert(before[a1].0 < before[b1].0);
    }
    assert(ascending(after)) by {
        assert forall|a: int| 0 <= a < after.len() implies (#[trigger] after[a]).1 > 0 by {
            let a1 = if a < i || stays { a } else { a + 1 };
            assert(before[a1].1 > 0);
        }
    }
    assert forall|t: u64| #[trigger] readers_at(after, t) + (if t == ts {
        1nat
    } else {
        0
    }) == readers_at(before, t) by {
        lemma_readers_at(before, t);
        lemma_readers_at(after, t);
        if t == ts {
            assert(before[i].0 == ts);
            if stays {
                assert(after[i].0 == ts);
            } else if readers_at(after, t) > 0 {
                let k = choose|k: int| 0 <= k < after.len() && (#[trigger] after[k]).0 == t;
                let k1 = if k < i { k } else { k + 1 };
                assert(after[k] == before[k1]);
                if k1 < i {
                    assert(before[k1].0 < before[i].0);
                } else {
                    assert(before[i].0 < before[k1].0);
                }
            }
        } else {
            if readers_at(before, t) > 0 {
                let k = choose|k: int|
                    0 <= k < before.len() && (#[trigger] before[k]).0 == t;
                let k1 = if k < i || stays { k } else { k - 1 };
                assert(after[k1] == before[k]);
            }
            if readers_at(after, t) > 0 {
                let k = choose|k: int| 0 <= k < after.len() && (#[trigger] after[k]).0 == t;
                let k1 = if k < i || stays { k } else { k + 1 };
                assert(after[k] == before[k1]);
            }
        }
    }
}

/// The readers by timestamp. Versions that no reader may see any more lie below the smallest
/// timestamp.
pub struct Watermark {
    readers: Vec<(u64, usize)>,
}

impl Watermark {
    pub closed spec fn readers(&self) -> Seq<(u64, usize)> {
        self.readers@
    }

    pub open spec fn wf(&self) -> bool {
        ascending(self.readers())
    }

    /// How many readers there are at a timestamp.
    pub open spec fn count(&self, ts: u64) -> nat {
        readers_at(self.readers(), ts)
    }

    pub fn new() -> (r: Watermark)
        ensures
            r.wf(),
            r.readers() == Seq::<(u64, usize)>::empty(),
            forall|t: u64| #[trigger] r.count(t) == 0,
    {
        Watermark { readers: Vec::new() }
    }

    /// The place of the first timestamp that is not before `ts`.
    fn place(&self, ts: u64) -> (r: usize)
        requires
            self.wf(),
        ensures
            r <= self.readers@.len(),
            forall|i: int| 0 <= i < r ==> (#[trigger] self.readers@[i]).0 < ts,
            forall|i: int| r <= i < self.readers@.len() ==> (#[trigger] self.readers@[i]).0 >= ts,
    {
        let mut i: usize = 0;
        while i < self.readers.len() && self.readers[i].0 < ts
            invariant
                i <= self.readers@.len(),
                self.wf(),
                forall|k: int| 0 <= k < i ==> (#[trigger] self.readers@[k]).0 < ts,
            decreases self.readers@.len() - i,
        {
            i += 1;
        }
        proof {
            assert forall|k: int| i <= k < self.readers@.len() implies (
            #[trigger] self.readers@[k]).0 >= ts by {
                if k > i {
                    assert(self.readers@[i as int].0 < self.readers@[k].0);
                }
            }
        }
        i
    }

    /// The number of readers at a timestamp.
    pub fn num_readers(&self, ts: u64) -> (r: usize)
        requires
            self.wf(),
        ensures
            r == self.count(ts),
    {
        let i = self.place(ts);
        proof {
            let rs = self.readers@;
            lemma_readers_at(rs, ts);
            assert forall|k: int| 0 <= k < rs.len() && k != i implies (#[trigger] rs[k]).0 != ts by {
                if k > i {
                    assert(rs[i as int].0 < rs[k].0);
                }
            }
        }
        if i < self.readers.len() && self.readers[i].0 == ts {
            self.readers[i].1
        } else {
            0
        }
    }

    /// Adds a reader.
    pub fn add_reader(&mut self, ts: u64)
        requires
            old(self).wf(),
            old(self).count(ts) < usize::MAX,
        ensures
            final(self).wf(),
            forall|t: u64| #[trigger]
                final(self).count(t) == old(self).count(t) + if t == ts {
                    1nat
                } else {
                    0
                },
    {
        let i = self.place(ts);
        let ghost before = self.readers@;
        proof {
            lemma_readers_at(before, ts);
        }
        if i < self.readers.len() && self.readers[i].0 == ts {
            let n = self.readers[i].1;
            self.readers.set(i, (ts, n + 1));
        } else {
            self.readers.insert(i, (ts, 1));
        }
        proof {
            lemma_added(before, self.readers@, ts, i as int);
        }
    }

    /// Removes a reader.
    pub fn remove_reader(&mut self, ts: u64)
        requires
            old(self).wf(),
            old(self).count(ts) > 0,
        ensures
            final(self).wf(),
            forall|t: u64| #[trigger]
                final(self).count(t) + (if t == ts {
                    1nat
                } else {
                    0
                }) == old(self).count(t),
    {
        let i = self.place(ts);
        let ghost before = self.readers@;
        proof {
            lemma_readers_at(before, ts);
            let k = choose|k: int| 0 <= k < before.len() && (#[trigger] before[k]).0 == ts;
            if k > i {
                assert(before[i as int].0 < before[k].0);
            }
        }
        let n = self.readers[i].1;
        if n > 1 {
            self.readers.set(i, (ts, n - 1));
        } else {
            self.readers.remove(i);
        }
        proof {
            lemma_removed(before, self.readers@, ts, i as int, n);
        }
    }

    /// Whether `ts` is the smallest timestamp with a reader.
    pub open spec fn is_smallest(&self, ts: u64) -> bool {
        self.count(ts) > 0 && forall|t: u64| #[trigger] self.count(t) > 0 ==> ts <= t
    }

    /// Where there is a reader, there is a smallest timestamp with one.
    pub proof fn lemma_smallest(&self)
        requires
            self.wf(),
        ensures
            self.readers().len() > 0 ==> self.is_smallest(self.readers()[0].0),
            self.readers().len() == 0 ==> forall|t: u64| #[trigger] self.count(t) == 0,
    {
        let rs = self.readers();
        if rs.len() > 0 {
            let ts = rs[0].0;
            lemma_readers_at(rs, ts);
            assert forall|t: u64| #[trigger] self.count(t) > 0 implies ts <= t by {
                lemma_readers_at(rs, t);
                let k = choose|k: int| 0 <= k < rs.len() && (#[trigger] rs[k]).0 == t;
                if k > 0 {
                    assert(rs[0].0 < rs[k].0);
                }
            }
        }
    }

    /// As many timestamps are noted as have a reader.
    pub proof fn lemma_snapshots(&self)
        requires
            self.wf(),
        ensures
            Set::new(|t: u64| self.count(t) > 0).finite(),
            Set::new(|t: u64| self.count(t) > 0).len() == self.readers().len(),
    {
        let rs = self.readers();
        let times = rs.map_values(|r: (u64, usize)| r.0);
        let with = Set::new(|t: u64| self.count(t) > 0);
        assert(times.no_duplicates()) by {
            assert forall|i: int, j: int|
                0 <= i < times.len() && 0 <= j < times.len() && i != j implies times[i]
                != times[j] by {
                assert(rs[i].0 == times[i] && rs[j].0 == times[j]);
            }
        }
        times.unique_seq_to_set();
        assert(times.to_set() =~= with) by {
            assert forall|t: u64| times.to_set().contains(t) <==> with.contains(t) by {
                lemma_readers_at(rs, t);
                if times.contains(t) {
                    let i = choose|i: int| 0 <= i < times.len() && times[i] == t;
                    assert(rs[i].0 == t && rs[i].1 > 0);
                }
                if with.contains(t) {
                    let i = choose|i: int| 0 <= i < rs.len() && (#[trigger] rs[i]).0 == t;
                    assert(times[i] == t);
                }
            }
        }
    }

    /// The smallest timestamp with a reader.
    pub fn watermark(&self) -> (r: Option<u64>)
        requires
            self.wf(),
        ensures
            match r {
                Some(ts) => self.is_smallest(ts),
                None => forall|t: u64| #[trigger] self.count(t) == 0,
            },
    {
        proof {
            self.lemma_smallest();
        }
        if self.readers.len() == 0 {
            return None;
        }
        Some(self.readers[0].0)
    }

    /// The number of different timestamps with a reader.
    pub fn num_retained_snapshots(&self) -> (r: usize)
        ensures
            self.wf() ==> r == Set::new(|t: u64| self.count(t) > 0).len(),
            r == self.readers().len(),
    {
        proof {
            if self.wf() {
                self.lemma_snapshots();
            }
        }
        self.readers.len()
    }
}

} // verus!
