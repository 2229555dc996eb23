use vstd::prelude::*;
use crate::entry::{sorted, Entry};
use crate::error::Error;
use crate::iterators::StorageIterator;
use crate::key::{
    key_le, key_lt, lemma_key_lt_irreflexive, lemma_key_lt_total, lemma_key_lt_transitive, KeySlice,
};
use crate::merge::{
    advance, first_min, lemma_merge_all_empty, lemma_merge_all_remove, lemma_merge_all_sorted,
    lemma_merge_all_step, merge_all,
};

verus! {

/// What is left of each iterator.
pub open spec fn runs_of<I: StorageIterator>(iters: Seq<I>) -> Seq<Seq<Entry>> {
    Seq::new(iters.len(), |i: int| iters[i].remaining())
}

pub open spec fn all_wf<I: StorageIterator>(iters: Seq<I>) -> bool {
    forall|i: int| 0 <= i < iters.len() ==> (#[trigger] iters[i]).wf()
}

pub open spec fn all_reliable<I: StorageIterator>(iters: Seq<I>) -> bool {
    forall|i: int| 0 <= i < iters.len() ==> (#[trigger] iters[i]).reliable()
}

/// The number of active iterators below some others.
pub open spec fn active_sum<I: StorageIterator>(iters: Seq<I>) -> nat
    decreases iters.len(),
{
    if iters.len() == 0 {
        0
    } else {
        active_sum(iters.drop_last()) + iters.last().active()
    }
}

/// The iterators that stand on an entry.
pub open spec fn standing<I: StorageIterator>(iters: Seq<I>) -> Seq<I> {
    iters.filter(|it: I| it.remaining().len() > 0)
}

/// Merges several iterators of the same type. If several have the same key, only produces the
/// key once and prefers the entry of the iterator that comes first.
pub struct MergeIterator<I: StorageIterator> {
    /// The iterators that still stand on an entry.
    iters: Vec<I>,
    /// The iterator that stands on the current entry.
    current: Option<usize>,
}

impl<I: StorageIterator> MergeIterator<I> {
    pub closed spec fn iters(&self) -> Seq<I> {
        self.iters@
    }

    pub closed spec fn inv(&self) -> bool {
        &&& all_wf(self.iters@)
        &&& match self.current {
            Some(c) => first_min(runs_of(self.iters@), c as int),
            None => forall|i: int|
                0 <= i < self.iters@.len() ==> (#[trigger] self.iters@[i]).remaining().len() == 0,
        }
    }

    /// Drops the iterators that are exhausted.
    fn drop_exhausted(iters: Vec<I>) -> (r: Vec<I>)
        requires
            all_wf(iters@),
        ensures
            all_wf(r@),
            r@ == standing(iters@),
            merge_all(runs_of(r@)) == merge_all(runs_of(iters@)),
            all_reliable(iters@) ==> all_reliable(r@),
    {
        let ghost start = iters@;
        let ghost p = |it: I| it.remaining().len() > 0;
        let mut iters = iters;
        let mut i: usize = 0;
        proof {
            reveal(Seq::filter);
            assert(start.take(0).filter(p) =~= Seq::<I>::empty());
            assert(iters@ =~= iters@.take(0) + start.skip(0));
        }
        let ghost mut n: int = 0;
        while i < iters.len()
            invariant
                i <= iters@.len(),
                0 <= n <= start.len(),
                p == (|it: I| it.remaining().len() > 0),
                iters@ == start.take(n).filter(p) + start.skip(n),
                i == start.take(n).filter(p).len(),
                all_wf(iters@),
                merge_all(runs_of(iters@)) == merge_all(runs_of(start)),
                all_reliable(start) ==> all_reliable(iters@),
            decreases iters@.len() - i,
        {
            let ghost here = iters@;
            let ghost f = start.take(n).filter(p);
            assert(here.len() == f.len() + (start.len() - n));
            assert(here[i as int] == start.skip(n)[0]);
            assert(here[i as int].wf());
            proof {
                reveal(Seq::filter);
                assert(start.take(n + 1).drop_last() =~= start.take(n));
                assert(start.take(n + 1).last() == here[i as int]);
            }
            if iters[i].is_valid() {
                assert(f.push(here[i as int]) + start.skip(n + 1) =~= here);
                i += 1;
            } else {
                proof {
                    lemma_merge_all_remove(runs_of(here), i as int);
                }
                iters.remove(i);
                proof {
                    assert(runs_of(iters@) =~= runs_of(here).remove(i as int));
                    assert(iters@ =~= f + start.skip(n + 1));
                    assert forall|k: int| 0 <= k < iters@.len() implies (
                    #[trigger] iters@[k]).wf() && (all_reliable(start) ==> iters@[k].reliable()) by {
                        let o = if k < i { k } else { k + 1 };
                        assert(iters@[k] == here[o]);
                    }
                }
            }
            proof {
                n = n + 1;
            }
        }
        proof {
            assert(start.take(n) =~= start);
            assert(iters@ =~= start.filter(p));
        }
        iters
    }

    /// Finds the first iterator that stands on the smallest key.
    fn find_current(iters: &Vec<I>) -> (r: Option<usize>)
        requires
            all_wf(iters@),
        ensures
            match r {
                Some(c) => first_min(runs_of(iters@), c as int),
                None => forall|i: int|
                    0 <= i < iters@.len() ==> (#[trigger] iters@[i]).remaining().len() == 0,
            },
    {
        let ghost runs = runs_of(iters@);
        let mut best: Option<usize> = None;
        let mut i: usize = 0;
        while i < iters.len()
            invariant
                i <= iters@.len(),
                all_wf(iters@),
                runs == runs_of(iters@),
                match best {
                    Some(c) => {
                        &&& c < i
                        &&& runs[c as int].len() > 0
                        &&& forall|j: int|
                            0 <= j < i && (#[trigger] runs[j]).len() > 0 ==> key_le(
                                runs[c as int][0].key,
                                runs[j][0].key,
                            )
                        &&& forall|j: int|
                            0 <= j < c && (#[trigger] runs[j]).len() > 0 ==> runs[j][0].key
                                != runs[c as int][0].key
                    },
                    None => forall|j: int| 0 <= j < i ==> (#[trigger] runs[j]).len() == 0,
                },
            decreases iters@.len() - i,
        {
            assert(runs[i as int] == iters@[i as int].remaining());
            if iters[i].is_valid() {
                match best {
                    None => {
                        best = Some(i);
                    },
                    Some(c) => {
                        assert(runs[c as int] == iters@[c as int].remaining());
                        let ghost old_key = runs[c as int][0].key;
                        let ghost new_key = runs[i as int][0].key;
                        proof {
                            lemma_key_lt_total(new_key, old_key);
                        }
                        if iters[i].key().less(&iters[c].key()) {
                            proof {
                                assert forall|j: int|
                                    0 <= j < i && (#[trigger] runs[j]).len() > 0 implies key_lt(
                                    new_key,
                                    runs[j][0].key,
                                ) by {
                                    if old_key != runs[j][0].key {
                                        lemma_key_lt_transitive(new_key, old_key, runs[j][0].key);
                                    }
                                }
                                lemma_key_lt_irreflexive(new_key);
                            }
                            best = Some(i);
                        }
                    },
                }
            }
            i += 1;
        }
        proof {
            if best is None {
                assert forall|j: int| 0 <= j < iters@.len() implies (#[trigger] iters@[j]).remaining().len()
                    == 0 by {
                    assert(runs[j].len() == 0);
                }
            }
        }
        best
    }

    /// Creates the merge of some iterators.
    pub fn create(iters: Vec<I>) -> (r: MergeIterator<I>)
        requires
            all_wf(iters@),
        ensures
            r.wf(),
            r.iters() == standing(iters@),
            r.remaining() == merge_all(runs_of(iters@)),
            all_reliable(iters@) ==> r.reliable(),
            r.active() == active_sum(standing(iters@)),
    {
        let iters = Self::drop_exhausted(iters);
        let current = Self::find_current(&iters);
        MergeIterator { iters, current }
    }

    proof fn lemma_current(&self)
        requires
            self.inv(),
        ensures
            self.current is None ==> self.remaining().len() == 0,
            self.current matches Some(c) ==> {
                &&& c < self.iters@.len()
                &&& self.iters@[c as int].wf()
                &&& self.iters@[c as int].remaining().len() > 0
                &&& self.remaining().len() > 0
                &&& self.remaining()[0] == self.iters@[c as int].remaining()[0]
            },
    {
        let runs = runs_of(self.iters@);
        match self.current {
            Some(c) => {
                lemma_merge_all_step(runs, c as int);
                assert(runs[c as int] == self.iters@[c as int].remaining());
            },
            None => {
                assert forall|i: int| 0 <= i < runs.len() implies (#[trigger] runs[i]).len() == 0 by {
                    assert(self.iters@[i].remaining().len() == 0);
                }
                lemma_merge_all_empty(runs);
            },
        }
    }
}

impl<I: StorageIterator> StorageIterator for MergeIterator<I> {
    closed spec fn wf(&self) -> bool {
        self.inv()
    }

    closed spec fn remaining(&self) -> Seq<Entry> {
        merge_all(runs_of(self.iters@))
    }

    closed spec fn can_next(&self) -> bool {
        self.remaining().len() > 0
    }

    closed spec fn reliable(&self) -> bool {
        all_reliable(self.iters@)
    }

    proof fn lemma_wf(&self) {
        let runs = runs_of(self.iters@);
        assert forall|i: int| 0 <= i < runs.len() implies sorted(#[trigger] runs[i]) by {
            assert(self.iters@[i].wf());
            self.iters@[i].lemma_wf();
        }
        lemma_merge_all_sorted(runs);
    }

    fn key(&self) -> (r: KeySlice<'_>) {
        proof {
            self.lemma_current();
        }
        let c = self.current.unwrap();
        self.iters[c].key()
    }

    fn value(&self) -> (r: &[u8]) {
        proof {
            self.lemma_current();
        }
        let c = self.current.unwrap();
        self.iters[c].value()
    }

    fn is_valid(&self) -> (r: bool) {
        proof {
            self.lemma_current();
        }
        self.current.is_some()
    }

    fn next(&mut self) -> (r: Result<(), Error>) {
        proof {
            self.lemma_current();
        }
        let key = self.key().to_key_vec();
        let ghost start = self.iters@;
        let ghost runs = runs_of(self.iters@);
        let ghost reliable = self.reliable();
        let c = self.current.unwrap();
        proof {
            lemma_merge_all_step(runs, c as int);
            assert(runs[c as int] == start[c as int].remaining());
        }
        let n = self.iters.len();
        let mut i: usize = 0;
        while i < n
            invariant
                i <= n,
                n == self.iters@.len(),
                n == start.len(),
                runs == runs_of(start),
                all_wf(self.iters@),
                reliable == old(self).reliable(),
                reliable ==> all_reliable(self.iters@),
                forall|j: int|
                    0 <= j < i ==> (#[trigger] self.iters@[j]).remaining() == advance(
                        runs,
                        key@,
                    )[j],
                forall|j: int| i <= j < n ==> #[trigger] self.iters@[j] == start[j],
            decreases n - i,
        {
            assert(self.iters@[i as int] == start[i as int]);
            assert(runs[i as int] == start[i as int].remaining());
            assert(self.iters@[i as int].wf());
            if self.iters[i].is_valid() && self.iters[i].key().equal(&key.as_key_slice()) {
                proof {
                    self.iters@[i as int].lemma_wf();
                    assert(reliable ==> self.iters@[i as int].reliable());
                }
                let ghost before = self.iters@;
                let r = self.iters[i].next();
                assert(self.iters@ =~= before.update(i as int, self.iters@[i as int]));
                if let Err(e) = r {
                    return Err(e);
                }
            }
            i += 1;
        }
        proof {
            assert(runs_of(self.iters@) =~= advance(runs, key@));
        }
        let mut left: Vec<I> = Vec::new();
        std::mem::swap(&mut left, &mut self.iters);
        self.iters = Self::drop_exhausted(left);
        self.current = Self::find_current(&self.iters);
        Ok(())
    }

    closed spec fn active(&self) -> nat {
        active_sum(self.iters@)
    }

    fn num_active_iterators(&self) -> (r: usize) {
        let mut sum: usize = 0;
        let mut i: usize = 0;
        assert(self.iters@.take(self.iters@.len() as int) =~= self.iters@);
        while i < self.iters.len()
            invariant
                i <= self.iters@.len(),
                sum == active_sum(self.iters@.take(i as int)),
                active_sum(self.iters@) <= usize::MAX,
            decreases self.iters@.len() - i,
        {
            let ghost t = self.iters@.take(i + 1);
            assert(t.drop_last() =~= self.iters@.take(i as int));
            assert(t.last() == self.iters@[i as int]);
            proof {
                lemma_active_sum_monotonic(self.iters@, i + 1);
            }
            sum += self.iters[i].num_active_iterators();
            i += 1;
        }
        sum
    }
}

/// The active iterators below two lists of iterators are those below each of them.
pub proof fn lemma_active_sum<I: StorageIterator>(a: Seq<I>, b: Seq<I>, it: I)
    ensures
        active_sum(a + b) == active_sum(a) + active_sum(b),
        active_sum(seq![it]) == it.active(),
    decreases b.len(),
{
    assert(active_sum(seq![it].drop_last()) == 0);
    if b.len() > 0 {
        lemma_active_sum(a, b.drop_last(), it);
        assert((a + b).drop_last() =~= a + b.drop_last());
    } else {
        assert(a + b =~= a);
    }
}

impl<I: StorageIterator> MergeIterator<I> {
    /// A merge counts what its iterators count.
    pub proof fn lemma_active(&self)
        ensures
            self.active() == active_sum(self.iters()),
    {
    }
}

proof fn lemma_active_sum_monotonic<I: StorageIterator>(iters: Seq<I>, i: int)
    requires
        0 <= i <= iters.len(),
    ensures
        active_sum(iters.take(i)) <= active_sum(iters),
    decreases iters.len() - i,
{
    if i < iters.len() {
        lemma_active_sum_monotonic(iters, i + 1);
        assert(iters.take(i + 1).drop_last() =~= iters.take(i));
    } else {
        assert(iters.take(i) =~= iters);
    }
}

} // verus!
