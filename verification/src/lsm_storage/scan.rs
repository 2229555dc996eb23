//! Scans over a range of user keys.
use vstd::prelude::*;
use std::ops::Bound;
use std::sync::Arc;
use crate::bound::{above, below, in_range, lemma_filter_subrange, slice_bound};
use crate::common::{lower_partitioned, overlapping_sst_range, upper_partitioned};
use crate::entry::{
    lemma_lower_bound_is, lemma_lower_bound_range, lemma_lower_bound_sorted, lemma_rest_at,
    lemma_rest_find, lemma_runs_sorted, lemma_sorted_skip, lower_bound, rest, run_start, sorted,
    Entry,
};
use crate::error::Error;
use crate::iterators::concat_iterator::{
    level_wf, seek_table, sought, table_runs, SstConcatIterator,
};
use crate::iterators::merge_iterator::{all_wf, runs_of, MergeIterator};
use crate::iterators::two_merge_iterator::TwoMergeIterator;
use crate::iterators::StorageIterator;
use crate::key::{
    key_lt, lemma_key_lt_asymmetric, lemma_key_lt_transitive, KeySlice, VKey, TS_RANGE_BEGIN,
    TS_RANGE_END,
};
use crate::lsm_iterator::{copy_bound, user_bound, FusedIterator, LsmIterator};
use crate::lsm_storage::state::{
    all_known, apart, ends_before, filled, ids_from, lemma_ends, lemma_filled, lemma_level_ids,
    lemma_runs_at_append, levels_view, runs_at, table_ok, tables_at, tables_ok, LsmStorageState,
};
use crate::mem_table::MemTableIterator;
use crate::merge::{all_sorted, lemma_merge2_sorted, merge2, merge_all};
use crate::order::{
    bytes_equal, bytes_le, bytes_less, bytes_lt, lemma_bytes_lt_irreflexive, lemma_bytes_lt_total,
    lemma_bytes_lt_transitive,
};
use crate::snapshot::{
    lemma_filter_contains, lemma_filter_sorted, lemma_skip_user, skip_user, snapshot, user_above,
    user_below,
};
use crate::sources::{
    drawn_from, held, lemma_age_ordered_merge, lemma_merge2_contains, lemma_merge_all_contains,
    lemma_seen_same,
};
use crate::table::iterator::SsTableIterator;
use crate::table::SsTable;

verus! {

/// The entries whose user keys are inside a lower bound.
pub open spec fn from_user(s: Seq<Entry>, lower: Bound<Seq<u8>>) -> Seq<Entry> {
    s.filter(|e: Entry| user_above(lower, e.key.user))
}

/// Whether a table may hold user keys of a range. One without entries does not.
pub open spec fn overlaps(t: SsTable, lower: Bound<Seq<u8>>, upper: Bound<Seq<u8>>) -> bool {
    &&& t.entries().len() > 0
    &&& user_above(lower, t.last().user)
    &&& user_below(upper, t.first().user)
}

/// The identifiers of the tables that may hold user keys of a range.
pub open spec fn overlapping(
    m: Map<usize, Arc<SsTable>>,
    ids: Seq<usize>,
    lower: Bound<Seq<u8>>,
    upper: Bound<Seq<u8>>,
) -> Seq<usize> {
    ids.filter(|id: usize| overlaps(*m[id], lower, upper))
}

/// What an iterator over each of some tables yields from a lower bound on.
pub open spec fn runs_from(
    m: Map<usize, Arc<SsTable>>,
    ids: Seq<usize>,
    lower: Bound<Seq<u8>>,
) -> Seq<Seq<Entry>> {
    Seq::new(ids.len(), |i: int| from_user(m[ids[i]].entries(), lower))
}

/// What an iterator over a level yields from a lower bound on.
pub open spec fn level_from(
    m: Map<usize, Arc<SsTable>>,
    ids: Seq<usize>,
    lower: Bound<Seq<u8>>,
    upper: Bound<Seq<u8>>,
) -> Seq<Entry> {
    from_user(rest(runs_at(m, overlapping(m, ids, lower, upper)), 0), lower)
}

/// The bound of versioned keys for a lower bound of user keys.
pub open spec fn lower_key(b: Bound<Seq<u8>>) -> Bound<VKey> {
    match b {
        Bound::Included(k) => Bound::Included(VKey { user: k, ts: TS_RANGE_BEGIN }),
        Bound::Excluded(k) => Bound::Excluded(VKey { user: k, ts: TS_RANGE_END }),
        Bound::Unbounded => Bound::Unbounded,
    }
}

/// The bound of versioned keys for an upper bound of user keys.
pub open spec fn upper_key(b: Bound<Seq<u8>>) -> Bound<VKey> {
    match b {
        Bound::Included(k) => Bound::Included(VKey { user: k, ts: TS_RANGE_END }),
        Bound::Excluded(k) => Bound::Excluded(VKey { user: k, ts: TS_RANGE_BEGIN }),
        Bound::Unbounded => Bound::Unbounded,
    }
}

fn map_lower_bound(b: Bound<&[u8]>) -> (r: Bound<KeySlice<'_>>)
    ensures
        slice_bound(r) == lower_key(user_bound(b)),
{
    match b {
        Bound::Included(k) => Bound::Included(KeySlice::from_slice(k, TS_RANGE_BEGIN)),
        Bound::Excluded(k) => Bound::Excluded(KeySlice::from_slice(k, TS_RANGE_END)),
        Bound::Unbounded => Bound::Unbounded,
    }
}

fn map_upper_bound(b: Bound<&[u8]>) -> (r: Bound<KeySlice<'_>>)
    ensures
        slice_bound(r) == upper_key(user_bound(b)),
{
    match b {
        Bound::Included(k) => Bound::Included(KeySlice::from_slice(k, TS_RANGE_END)),
        Bound::Excluded(k) => Bound::Excluded(KeySlice::from_slice(k, TS_RANGE_BEGIN)),
        Bound::Unbounded => Bound::Unbounded,
    }
}

/// The bounds of versioned keys let all versions of the user keys in range through.
proof fn lemma_key_bounds(lower: Bound<Seq<u8>>, upper: Bound<Seq<u8>>, k: VKey)
    ensures
        above(lower_key(lower), k) == user_above(lower, k.user),
        below(upper_key(upper), k) == user_below(upper, k.user),
{
    lemma_bytes_lt_irreflexive(k.user);
}

/// Where the entries inside a lower bound start.
proof fn lemma_from_lower(m: Seq<Entry>, k: Seq<u8>)
    requires
        sorted(m),
    ensures
        ({
            let i = lower_bound(m, VKey { user: k, ts: TS_RANGE_BEGIN });
            &&& 0 <= i <= m.len()
            &&& from_user(m, Bound::Included(k)) == m.skip(i)
            &&& from_user(m, Bound::Excluded(k)) == skip_user(m.skip(i), k)
        }),
{
    let key = VKey { user: k, ts: TS_RANGE_BEGIN };
    let i = lower_bound(m, key);
    lemma_lower_bound_sorted(m, key);
    let p = |e: Entry| user_above(Bound::Included(k), e.key.user);
    assert forall|j: int| 0 <= j < m.len() implies (p(#[trigger] m[j]) <==> i <= j < m.len()) by {
        assert(key_lt(m[j].key, key) <==> j < i);
    }
    lemma_filter_subrange(m, p, i, m.len() as int);
    assert(m.skip(i) =~= m.subrange(i, m.len() as int));
    let t = m.skip(i);
    lemma_sorted_skip(m, i);
    lemma_skip_user(t, k);
    let r = skip_user(t, k);
    let n = m.len() - r.len();
    let q = |e: Entry| user_above(Bound::Excluded(k), e.key.user);
    assert forall|j: int| 0 <= j < m.len() implies (q(#[trigger] m[j]) <==> n <= j < m.len()) by {
        assert(key_lt(m[j].key, key) <==> j < i);
        lemma_bytes_lt_irreflexive(k);
        if j < i {
            if bytes_lt(k, m[j].key.user) {
                lemma_bytes_lt_transitive(k, m[j].key.user, k);
            }
        } else if j < n {
            assert(t[j - i] == m[j]);
            assert(t[j - i].key.user == k);
        } else {
            assert(r[j - n] == m[j]);
            if t[0].key.user == k {
                assert(bytes_lt(k, r[j - n].key.user));
            } else {
                assert(r == t);
                assert(t[0] == m[i]);
                lemma_bytes_lt_total(k, m[i].key.user);
                if j > i {
                    assert(key_lt(m[i].key, m[j].key));
                    if m[i].key.user != m[j].key.user {
                        lemma_bytes_lt_transitive(k, m[i].key.user, m[j].key.user);
                    }
                }
            }
        }
    }
    lemma_filter_subrange(m, q, n, m.len() as int);
    assert(r =~= m.subrange(n, m.len() as int));
}

/// Without a lower bound all entries are inside.
proof fn lemma_from_unbounded(m: Seq<Entry>)
    ensures
        from_user(m, Bound::Unbounded) == m,
{
    let p = |e: Entry| user_above(Bound::Unbounded, e.key.user);
    assert forall|j: int| 0 <= j < m.len() implies (p(#[trigger] m[j]) <==> 0 <= j < m.len()) by {}
    lemma_filter_subrange(m, p, 0, m.len() as int);
    assert(m.subrange(0, m.len() as int) =~= m);
}

/// Moves an iterator past the versions of a user key.
fn pass_user_key<I: StorageIterator>(iter: &mut I, key: &[u8]) -> (r: Result<(), Error>)
    requires
        old(iter).wf(),
        old(iter).reliable(),
    ensures
        r is Ok,
        final(iter).wf(),
        final(iter).reliable(),
        final(iter).remaining() == skip_user(old(iter).remaining(), key@),
{
    while iter.is_valid() && bytes_equal(iter.key().key_ref(), key)
        invariant
            iter.wf(),
            iter.reliable(),
            skip_user(iter.remaining(), key@) == skip_user(old(iter).remaining(), key@),
        decreases iter.remaining().len(),
    {
        proof {
            iter.lemma_wf();
        }
        iter.next()?;
    }
    Ok(())
}

/// An iterator over the entries of a table whose user keys are inside a lower bound.
fn table_iter(table: Arc<SsTable>, lower: Bound<&[u8]>) -> (r: Result<SsTableIterator, Error>)
    requires
        table.searchable(),
        table.entries().len() > 0,
    ensures
        match r {
            Ok(it) => {
                &&& it.wf()
                &&& it.remaining() == from_user(table.entries(), user_bound(lower))
            },
            Err(_) => false,
        },
{
    let ghost es = table.entries();
    proof {
        table.lemma_wf();
    }
    match lower {
        Bound::Included(key) => {
            proof {
                lemma_from_lower(es, key@);
            }
            SsTableIterator::create_and_seek_to_key(
                table,
                KeySlice::from_slice(key, TS_RANGE_BEGIN),
            )
        },
        Bound::Excluded(key) => {
            proof {
                lemma_from_lower(es, key@);
            }
            let mut iter = SsTableIterator::create_and_seek_to_key(
                table,
                KeySlice::from_slice(key, TS_RANGE_BEGIN),
            )?;
            pass_user_key(&mut iter, key)?;
            Ok(iter)
        },
        Bound::Unbounded => {
            proof {
                lemma_from_unbounded(es);
            }
            SsTableIterator::create_and_seek_to_first(table)
        },
    }
}

/// Tables with entries that end before the next one starts make a level.
pub proof fn lemma_apart_level(m: Map<usize, Arc<SsTable>>, ids: Seq<usize>)
    requires
        tables_ok(m),
        all_known(m, ids),
        apart(tables_at(m, ids)),
        forall|i: int| 0 <= i < ids.len() ==> m[#[trigger] ids[i]].entries().len() > 0,
    ensures
        level_wf(tables_at(m, ids)),
        table_runs(tables_at(m, ids)) == runs_at(m, ids),
{
    let tables = tables_at(m, ids);
    let runs = table_runs(tables);
    assert(runs =~= runs_at(m, ids));
    assert forall|i: int| 0 <= i < tables.len() implies {
        &&& (#[trigger] tables[i]).searchable()
        &&& tables[i].entries().len() > 0
    } by {
        assert(m.contains_key(ids[i]));
        assert(table_ok(*m[ids[i]], ids[i]));
    }
    assert forall|a: int| 0 <= a < runs.len() implies sorted(#[trigger] runs[a]) by {
        assert(tables[a].searchable());
    }
    assert forall|a: int| 0 <= a < runs.len() implies (#[trigger] runs[a]).len() > 0 by {
        assert(tables[a].entries().len() > 0);
    }
    assert forall|a: int| 0 <= a < runs.len() - 1 implies key_lt(
        (#[trigger] runs[a]).last().key,
        runs[a + 1][0].key,
    ) by {
        assert(tables[a].searchable() && tables[a + 1].searchable());
        tables[a].lemma_wf();
        tables[a + 1].lemma_wf();
        assert(ends_before(*tables[a], *tables[a + 1]));
    }
    lemma_runs_sorted(runs);
}

/// Tables that end before the next one starts are parted by every bound.
proof fn lemma_apart_partitioned(
    m: Map<usize, Arc<SsTable>>,
    ids: Seq<usize>,
    lower: Bound<Seq<u8>>,
    upper: Bound<Seq<u8>>,
)
    requires
        tables_ok(m),
        all_known(m, ids),
        apart(tables_at(m, ids)),
    ensures
        lower_partitioned(tables_at(m, ids), lower),
        upper_partitioned(tables_at(m, ids), upper),
{
    let ts = tables_at(m, ids);
    assert forall|i: int, j: int|
        #![trigger ts[i], ts[j]]
        0 <= i < j < ts.len() implies bytes_le(ts[i].last().user, ts[j].last().user) && bytes_le(
        ts[i].first().user,
        ts[j].first().user,
    ) by {
        assert(m.contains_key(ids[i]) && m.contains_key(ids[j]));
        assert(table_ok(*m[ids[i]], ids[i]) && table_ok(*m[ids[j]], ids[j]));
        assert(ends_before(*ts[i], *ts[j]));
        lemma_ends(&ts[i]);
        lemma_ends(&ts[j]);
        let a = ts[i].first().user;
        let b = ts[i].last().user;
        let c = ts[j].first().user;
        let d = ts[j].last().user;
        if b != c && c != d {
            lemma_bytes_lt_transitive(b, c, d);
        }
        if a != b && b != c {
            lemma_bytes_lt_transitive(a, b, c);
        }
    }
    assert forall|i: int, j: int|
        #![trigger ts[i], ts[j]]
        0 <= i < j < ts.len() && user_above(lower, ts[i].last().user) implies user_above(
        lower,
        ts[j].last().user,
    ) by {
        let a = ts[i].last().user;
        let b = ts[j].last().user;
        assert(bytes_le(a, b));
        if a != b {
            match lower {
                Bound::Included(k) => {
                    if bytes_lt(b, k) {
                        lemma_bytes_lt_transitive(a, b, k);
                    }
                },
                Bound::Excluded(k) => {
                    lemma_bytes_lt_transitive(k, a, b);
                },
                Bound::Unbounded => {},
            }
        }
    }
    assert forall|i: int, j: int|
        #![trigger ts[i], ts[j]]
        0 <= i < j < ts.len() && user_below(upper, ts[j].first().user) implies user_below(
        upper,
        ts[i].first().user,
    ) by {
        let a = ts[i].first().user;
        let b = ts[j].first().user;
        assert(bytes_le(a, b));
        if a != b {
            match upper {
                Bound::Included(k) => {
                    if bytes_lt(k, a) {
                        lemma_bytes_lt_transitive(k, a, b);
                    }
                },
                Bound::Excluded(k) => {
                    lemma_bytes_lt_transitive(a, b, k);
                },
                Bound::Unbounded => {},
            }
        }
    }
}

/// A search in tables of which the first one reaches the bound stops in that table.
proof fn lemma_sought_first(tables: Seq<Arc<SsTable>>, k: Seq<u8>)
    requires
        level_wf(tables),
        apart(tables),
        tables.len() > 0,
        !bytes_lt(tables[0].last().user, k),
    ensures
        sought(tables, VKey { user: k, ts: TS_RANGE_BEGIN }) == rest(table_runs(tables), 0).skip(
            lower_bound(rest(table_runs(tables), 0), VKey { user: k, ts: TS_RANGE_BEGIN }),
        ),
{
    let key = VKey { user: k, ts: TS_RANGE_BEGIN };
    let runs = table_runs(tables);
    let m = rest(runs, 0);
    let es = tables[0].entries();
    assert(tables[0].searchable());
    tables[0].lemma_wf();
    lemma_seek_first(tables, key);
    lemma_lower_bound_range(es, key);
    let i = lower_bound(es, key);
    let last = es[es.len() - 1].key;
    assert(!key_lt(last, key));
    assert(i < es.len()) by {
        if i == es.len() {
            assert(key_lt(es[es.len() - 1].key, key));
        }
    }
    assert(runs[0] == es);
    assert(m == es + rest(runs, 1));
    assert forall|j: int| 0 <= j < i implies key_lt(#[trigger] m[j].key, key) by {
        assert(m[j] == es[j]);
        assert(key_lt(es[j].key, key));
    }
    assert(m[i] == es[i]);
    lemma_lower_bound_is(m, key, i);
    assert(m.skip(i) =~= es.skip(i) + rest(runs, 1));
}

proof fn lemma_seek_first(tables: Seq<Arc<SsTable>>, key: VKey)
    requires
        tables.len() > 0,
        apart(tables),
        key.ts == TS_RANGE_BEGIN,
        !bytes_lt(tables[0].last().user, key.user),
    ensures
        seek_table(tables, key) == 0,
    decreases tables.len(),
{
    if tables.len() > 1 {
        let n = tables.len() - 1;
        let a = tables[0].last();
        assert(ends_before(*tables[0], *tables[n]));
        lemma_bytes_lt_total(a.user, key.user);
        if a != key {
            assert(key_lt(key, a));
            lemma_key_lt_transitive(key, a, tables[n].first());
        }
        lemma_key_lt_asymmetric(key, tables[n].first());
        assert(tables.last() == tables[n]);
        let init = tables.drop_last();
        assert forall|i: int, j: int| #![trigger init[i], init[j]] 0 <= i < j
            < init.len() implies ends_before(*init[i], *init[j]) by {
            assert(init[i] == tables[i] && init[j] == tables[j]);
        }
        assert(init[0] == tables[0]);
        lemma_seek_first(init, key);
    }
}

/// The identifiers that stand between two places are those that overlap.
proof fn lemma_overlapping_range(
    m: Map<usize, Arc<SsTable>>,
    ids: Seq<usize>,
    lower: Bound<Seq<u8>>,
    upper: Bound<Seq<u8>>,
    start: int,
    end: int,
)
    requires
        0 <= start <= end <= ids.len(),
        forall|i: int| 0 <= i < ids.len() ==> m[#[trigger] ids[i]].entries().len() > 0,
        forall|i: int|
            0 <= i < ids.len() ==> (i < end <==> user_below(
                upper,
                (#[trigger] tables_at(m, ids)[i]).first().user,
            )),
        forall|i: int|
            0 <= i < end ==> (i < start <==> !user_above(
                lower,
                (#[trigger] tables_at(m, ids)[i]).last().user,
            )),
    ensures
        overlapping(m, ids, lower, upper) == ids.subrange(start, end),
{
    let p = |id: usize| overlaps(*m[id], lower, upper);
    let ts = tables_at(m, ids);
    assert forall|k: int| 0 <= k < ids.len() implies (p(#[trigger] ids[k]) <==> start <= k
        < end) by {
        assert(ts[k] == m[ids[k]]);
        assert(k < end <==> user_below(upper, ts[k].first().user));
        if k < end {
            assert(k < start <==> !user_above(lower, ts[k].last().user));
        }
    }
    lemma_filter_subrange(ids, p, start, end);
}

impl LsmStorageState {
    /// Iterators over the tables of L0 that may hold user keys of a range, from the lower
    /// bound on.
    pub fn create_sst_iters(&self, lower: Bound<&[u8]>, upper: Bound<&[u8]>) -> (r: Result<
        Vec<SsTableIterator>,
        Error,
    >)
        requires
            tables_ok(self.sstables@),
            all_known(self.sstables@, self.l0_sstables@),
        ensures
            match r {
                Ok(iters) => {
                    &&& all_wf(iters@)
                    &&& runs_of(iters@) == runs_from(
                        self.sstables@,
                        overlapping(
                            self.sstables@,
                            self.l0_sstables@,
                            user_bound(lower),
                            user_bound(upper),
                        ),
                        user_bound(lower),
                    )
                },
                Err(_) => false,
            },
    {
        broadcast use vstd::std_specs::hash::group_hash_axioms;

        let ghost m = self.sstables@;
        let ghost ids = self.l0_sstables@;
        let ghost lo = user_bound(lower);
        let ghost hi = user_bound(upper);
        let ghost p = |id: usize| overlaps(*m[id], lo, hi);
        let mut iters: Vec<SsTableIterator> = Vec::new();
        let mut i: usize = 0;
        proof {
            reveal(Seq::filter);
            assert(ids.take(0).filter(p) =~= Seq::<usize>::empty());
            assert(runs_of(iters@) =~= runs_from(m, ids.take(0).filter(p), lo));
        }
        while i < self.l0_sstables.len()
            invariant
                i <= self.l0_sstables@.len(),
                m == self.sstables@,
                ids == self.l0_sstables@,
                lo == user_bound(lower),
                hi == user_bound(upper),
                p == (|id: usize| overlaps(*m[id], lo, hi)),
                tables_ok(m),
                all_known(m, ids),
                all_wf(iters@),
                runs_of(iters@) == runs_from(m, ids.take(i as int).filter(p), lo),
            decreases self.l0_sstables@.len() - i,
        {
            let id = self.l0_sstables[i];
            assert(m.contains_key(ids[i as int]));
            assert(table_ok(*m[id], id));
            proof {
                reveal(Seq::filter);
                assert(ids.take(i + 1).drop_last() =~= ids.take(i as int));
                assert(ids.take(i + 1).last() == id);
            }
            if let Some(table) = self.sstables.get(&id) {
                if table_overlaps(table, lower, upper) {
                    let iter = table_iter(table.clone(), lower)?;
                    let ghost before = iters@;
                    iters.push(iter);
                    proof {
                        assert(p(id));
                        let f = ids.take(i as int).filter(p);
                        assert(ids.take(i + 1).filter(p) == f.push(id));
                        assert(runs_of(iters@) =~= runs_of(before).push(
                            from_user(m[id].entries(), lo),
                        ));
                        assert(runs_from(m, f.push(id), lo) =~= runs_from(m, f, lo).push(
                            from_user(m[id].entries(), lo),
                        ));
                    }
                } else {
                    assert(!p(id));
                }
            }
            i += 1;
        }
        assert(ids.take(i as int) =~= ids);
        Ok(iters)
    }

    /// An iterator over the tables of a level that may hold user keys of a range, from the
    /// lower bound on.
    pub fn create_concat_iters(
        &self,
        level_sst_ids: &Vec<usize>,
        lower: Bound<&[u8]>,
        upper: Bound<&[u8]>,
    ) -> (r: Result<SstConcatIterator, Error>)
        requires
            tables_ok(self.sstables@),
            all_known(self.sstables@, level_sst_ids@),
            apart(tables_at(self.sstables@, level_sst_ids@)),
        ensures
            match r {
                Ok(it) => {
                    &&& it.wf()
                    &&& it.remaining() == level_from(
                        self.sstables@,
                        level_sst_ids@,
                        user_bound(lower),
                        user_bound(upper),
                    )
                },
                Err(_) => false,
            },
    {
        let ghost m = self.sstables@;
        let ghost ids = filled(m, level_sst_ids@);
        let ghost lo = user_bound(lower);
        let ghost hi = user_bound(upper);
        let level_sstables = self.get_filled_sstables(level_sst_ids);
        proof {
            lemma_filled(m, level_sst_ids@);
            lemma_apart_filter(m, level_sst_ids@, |id: usize| m[id].entries().len() > 0);
            lemma_overlapping_filled(m, level_sst_ids@, lo, hi);
            lemma_apart_partitioned(m, ids, lo, hi);
        }
        let range = overlapping_sst_range(level_sstables.as_slice(), lower, upper);
        let ghost part = ids.subrange(range.start as int, range.end as int);
        proof {
            lemma_overlapping_range(m, ids, lo, hi, range.start as int, range.end as int);
        }
        let mut included: Vec<Arc<SsTable>> = Vec::new();
        let mut i = range.start;
        while i < range.end
            invariant
                range.start <= i <= range.end <= level_sstables@.len(),
                level_sstables@ == tables_at(m, ids),
                included@ == tables_at(m, ids.subrange(range.start as int, i as int)),
            decreases range.end - i,
        {
            included.push(level_sstables[i].clone());
            assert(included@ =~= tables_at(m, ids.subrange(range.start as int, i + 1)));
            i += 1;
        }
        assert(included@ == tables_at(m, part));
        proof {
            assert(all_known(m, part)) by {
                assert forall|k: int| 0 <= k < part.len() implies m.contains_key(
                    #[trigger] part[k],
                ) by {
                    assert(part[k] == ids[range.start + k]);
                }
            }
            let ts = tables_at(m, ids);
            assert forall|a: int, b: int|
                #![trigger included@[a], included@[b]]
                0 <= a < b < included@.len() implies ends_before(
                *included@[a],
                *included@[b],
            ) by {
                assert(included@[a] == ts[range.start + a] && included@[b] == ts[range.start + b]);
            }
            assert forall|k: int| 0 <= k < part.len() implies m[#[trigger] part[k]].entries().len()
                > 0 by {
                assert(part[k] == ids[range.start + k]);
            }
            lemma_apart_level(m, part);
            if part.len() > 0 {
                assert(ts[range.start as int] == included@[0]);
                assert(user_above(lo, ts[range.start as int].last().user));
            } else {
                assert(rest(runs_at(m, part), 0) =~= Seq::<Entry>::empty());
                reveal(Seq::filter);
                assert(from_user(rest(runs_at(m, part), 0), lo) =~= Seq::<Entry>::empty());
            }
        }
        if included.len() == 0 {
            return SstConcatIterator::create_and_seek_to_first(included);
        }
        let ghost all = rest(runs_at(m, part), 0);
        match lower {
            Bound::Included(key) => {
                proof {
                    lemma_sought_first(included@, key@);
                    lemma_from_lower(all, key@);
                }
                SstConcatIterator::create_and_seek_to_key(
                    included,
                    KeySlice::from_slice(key, TS_RANGE_BEGIN),
                )
            },
            Bound::Excluded(key) => {
                proof {
                    let last = included@[0].last().user;
                    if bytes_lt(last, key@) {
                        lemma_bytes_lt_transitive(last, key@, last);
                        lemma_bytes_lt_irreflexive(last);
                    }
                    lemma_sought_first(included@, key@);
                    lemma_from_lower(all, key@);
                }
                let mut iter = SstConcatIterator::create_and_seek_to_key(
                    included,
                    KeySlice::from_slice(key, TS_RANGE_BEGIN),
                )?;
                pass_user_key(&mut iter, key)?;
                Ok(iter)
            },
            Bound::Unbounded => {
                proof {
                    lemma_from_unbounded(all);
                }
                SstConcatIterator::create_and_seek_to_first(included)
            },
        }
    }

    /// Iterators over the levels.
    fn create_level_iters(&self, lower: Bound<&[u8]>, upper: Bound<&[u8]>) -> (r: Result<
        Vec<SstConcatIterator>,
        Error,
    >)
        requires
            self.wf(),
        ensures
            match r {
                Ok(iters) => {
                    &&& all_wf(iters@)
                    &&& runs_of(iters@) == Seq::new(
                        self.levels@.len(),
                        |i: int|
                            level_from(
                                self.sstables@,
                                self.levels@[i].1@,
                                user_bound(lower),
                                user_bound(upper),
                            ),
                    )
                },
                Err(_) => false,
            },
    {
        let mut iters: Vec<SstConcatIterator> = Vec::new();
        let mut i: usize = 0;
        while i < self.levels.len()
            invariant
                i <= self.levels@.len(),
                self.wf(),
                all_wf(iters@),
                iters@.len() == i,
                forall|k: int|
                    0 <= k < i ==> (#[trigger] iters@[k]).remaining() == level_from(
                        self.sstables@,
                        self.levels@[k].1@,
                        user_bound(lower),
                        user_bound(upper),
                    ),
            decreases self.levels@.len() - i,
        {
            proof {
                self.lemma_level_known(i as int);
                assert(apart(tables_at(self.sstables@, self.levels@[i as int].1@)));
            }
            let iter = self.create_concat_iters(&self.levels[i].1, lower, upper)?;
            iters.push(iter);
            i += 1;
        }
        assert(runs_of(iters@) =~= Seq::new(
            self.levels@.len(),
            |i: int|
                level_from(
                    self.sstables@,
                    self.levels@[i].1@,
                    user_bound(lower),
                    user_bound(upper),
                ),
        ));
        Ok(iters)
    }

    /// The identifiers of a level name tables.
    pub proof fn lemma_level_known(&self, i: int)
        requires
            self.wf(),
            0 <= i < self.levels@.len(),
        ensures
            all_known(self.sstables@, self.levels@[i].1@),
            forall|k: int|
                0 <= k < self.levels@[i].1@.len() ==> self.flat_ids().contains(
                    #[trigger] self.levels@[i].1@[k],
                ),
    {
        let lv = levels_view(self.levels@);
        let list = self.levels@[i].1@;
        assert(lv[i].1 == list);
        let start = lemma_level_ids(lv, i, 0);
        let all = ids_from(lv, 0);
        let n = self.l0_sstables@.len();
        assert forall|k: int| 0 <= k < list.len() implies self.sstables@.contains_key(
            #[trigger] list[k],
        ) && self.flat_ids().contains(list[k]) by {
            assert(all.subrange(start, (start + list.len()) as int)[k] == all[start + k]);
            assert(self.flat_ids()[n + start + k] == list[k]);
        }
    }

    /// Every identifier stands in L0 or in a level.
    proof fn lemma_find_level(&self, k: int)
        requires
            0 <= k < self.flat_ids().len(),
        ensures
            self.l0_sstables@.contains(self.flat_ids()[k]) || exists|i: int|
                0 <= i < self.levels@.len() && (#[trigger] self.levels@[i]).1@.contains(
                    self.flat_ids()[k],
                ),
    {
        let n = self.l0_sstables@.len();
        if k < n {
            assert(self.l0_sstables@[k] == self.flat_ids()[k]);
        } else {
            let lv = levels_view(self.levels@);
            let i = lemma_find_in_levels(lv, 0, k - n);
            assert(lv[i].1 == self.levels@[i].1@);
        }
    }

    /// Creates an iterator over what a reader at `read_ts` sees of a range of user keys.
    pub fn scan_with_ts(&self, lower: Bound<&[u8]>, upper: Bound<&[u8]>, read_ts: u64) -> (r: Result<
        FusedIterator<LsmIterator<'_>>,
        Error,
    >)
        requires
            self.wf(),
        ensures
            match r {
                Ok(it) => {
                    &&& it.wf()
                    &&& it.reliable()
                    &&& it.remaining() == snapshot(
                        from_user(self.content(), user_bound(lower)),
                        read_ts,
                        user_bound(upper),
                    )
                },
                Err(_) => false,
            },
    {
        let ghost lo = user_bound(lower);
        let ghost hi = user_bound(upper);
        // the memtables
        let mut memtables: Vec<MemTableIterator> = Vec::new();
        memtables.push(self.memtable.scan(map_lower_bound(lower), map_upper_bound(upper)));
        let mut i: usize = 0;
        while i < self.imm_memtables.len()
            invariant
                i <= self.imm_memtables@.len(),
                self.wf(),
                lo == user_bound(lower),
                hi == user_bound(upper),
                all_wf(memtables@),
                memtables@.len() == i + 1,
                memtables@[0].remaining() == in_range(
                    self.memtable.entries(),
                    lower_key(lo),
                    upper_key(hi),
                ),
                forall|k: int|
                    0 < k < memtables@.len() ==> (#[trigger] memtables@[k]).remaining() == in_range(
                        self.imm_memtables@[k - 1].entries(),
                        lower_key(lo),
                        upper_key(hi),
                    ),
            decreases self.imm_memtables@.len() - i,
        {
            assert(self.imm_memtables@[i as int].wf());
            memtables.push(
                self.imm_memtables[i].scan(map_lower_bound(lower), map_upper_bound(upper)),
            );
            i += 1;
        }
        let ghost mr = runs_of(memtables@);
        // the tables of L0
        proof {
            lemma_runs_at_append(
                self.sstables@,
                self.l0_sstables@,
                ids_from(levels_view(self.levels@), 0),
            );
        }
        let sst_iters = self.create_sst_iters(lower, upper)?;
        let ghost lr = runs_of(sst_iters@);
        // the levels
        let level_iters = self.create_level_iters(lower, upper)?;
        let ghost vr = runs_of(level_iters@);
        let mem_merge_iter = MergeIterator::create(memtables);
        let sst_merge_iter = MergeIterator::create(sst_iters);
        let mem_and_l0_iter = TwoMergeIterator::create(mem_merge_iter, sst_merge_iter)?;
        let level_merge_iter = MergeIterator::create(level_iters);
        let inner = TwoMergeIterator::create(mem_and_l0_iter, level_merge_iter)?;
        proof {
            inner.lemma_wf();
            assert(mr.len() == 1 + self.imm_memtables@.len());
            assert forall|k: int| 0 <= k < mr.len() implies #[trigger] mr[k] == in_range(
                self.sources()[k],
                lower_key(lo),
                upper_key(hi),
            ) by {
                assert(mr[k] == memtables@[k].remaining());
            }
            self.lemma_scan(lo, hi, mr, lr, vr, read_ts);
        }
        let iter = LsmIterator::new(inner, copy_bound(upper), read_ts)?;
        Ok(FusedIterator::new(iter))
    }

    /// The merge of the iterators shows a reader what the whole content does.
    proof fn lemma_scan(
        &self,
        lower: Bound<Seq<u8>>,
        upper: Bound<Seq<u8>>,
        mr: Seq<Seq<Entry>>,
        lr: Seq<Seq<Entry>>,
        vr: Seq<Seq<Entry>>,
        ts: u64,
    )
        requires
            self.wf(),
            mr.len() == 1 + self.imm_memtables@.len(),
            forall|k: int|
                0 <= k < mr.len() ==> #[trigger] mr[k] == in_range(
                    self.sources()[k],
                    lower_key(lower),
                    upper_key(upper),
                ),
            lr == runs_from(
                self.sstables@,
                overlapping(self.sstables@, self.l0_sstables@, lower, upper),
                lower,
            ),
            vr == Seq::new(
                self.levels@.len(),
                |i: int| level_from(self.sstables@, self.levels@[i].1@, lower, upper),
            ),
        ensures
            snapshot(
                merge2(merge2(merge_all(mr), merge_all(lr)), merge_all(vr)),
                ts,
                upper,
            ) == snapshot(from_user(self.content(), lower), ts, upper),
    {
        let d = self.content();
        let x = merge2(merge2(merge_all(mr), merge_all(lr)), merge_all(vr));
        let y = from_user(d, lower);
        self.lemma_sources();
        lemma_age_ordered_merge(self.sources());
        lemma_filter_sorted(d, |e: Entry| user_above(lower, e.key.user));
        self.lemma_mem_part(lower, upper, mr);
        self.lemma_l0_part(lower, upper, lr);
        self.lemma_level_part(lower, upper, vr);
        lemma_merge_all_contains(mr, d);
        lemma_merge_all_contains(lr, d);
        lemma_merge_all_contains(vr, d);
        let a = merge_all(mr);
        let b = merge_all(lr);
        let c = merge_all(vr);
        lemma_merged_drawn(mr, d);
        lemma_merged_drawn(lr, d);
        lemma_merged_drawn(vr, d);
        lemma_merge2_contains(a, b, d);
        lemma_merge2_sorted(a, b);
        let ab = merge2(a, b);
        assert forall|i: int| 0 <= i < ab.len() implies d.contains(#[trigger] ab[i]) by {
            assert(ab.contains(ab[i]));
            if a.contains(ab[i]) {
                let j = choose|j: int| 0 <= j < a.len() && a[j] == ab[i];
                assert(d.contains(a[j]));
            } else {
                assert(b.contains(ab[i]));
                let j = choose|j: int| 0 <= j < b.len() && b[j] == ab[i];
                assert(d.contains(b[j]));
            }
        }
        lemma_merge2_contains(ab, c, d);
        lemma_merge2_sorted(ab, c);
        assert forall|e: Entry| user_below(upper, e.key.user) implies (#[trigger] x.contains(e)
            <==> y.contains(e)) by {
            lemma_filter_contains(d, |e: Entry| user_above(lower, e.key.user), e);
            assert(x.contains(e) <==> ab.contains(e) || c.contains(e));
            assert(ab.contains(e) <==> a.contains(e) || b.contains(e));
            assert(a.contains(e) <==> held(mr, e));
            assert(b.contains(e) <==> held(lr, e));
            assert(c.contains(e) <==> held(vr, e));
            assert(d.contains(e) <==> held(self.sources(), e));
            self.lemma_parts(lower, upper, mr, lr, vr, e);
        }
        lemma_seen_same(x, y, ts, upper);
    }

    /// The memtables' part of a scan.
    proof fn lemma_mem_part(&self, lower: Bound<Seq<u8>>, upper: Bound<Seq<u8>>, mr: Seq<Seq<Entry>>)
        requires
            self.wf(),
            mr.len() == 1 + self.imm_memtables@.len(),
            forall|k: int|
                0 <= k < mr.len() ==> #[trigger] mr[k] == in_range(
                    self.sources()[k],
                    lower_key(lower),
                    upper_key(upper),
                ),
        ensures
            all_sorted(mr),
            drawn_from(mr, self.content()),
    {
        let runs = self.sources();
        let d = self.content();
        self.lemma_sources();
        lemma_age_ordered_merge(runs);
        let p = |e: Entry| above(lower_key(lower), e.key) && below(upper_key(upper), e.key);
        assert forall|i: int| 0 <= i < mr.len() implies sorted(#[trigger] mr[i]) by {
            assert(sorted(runs[i]));
            lemma_filter_sorted(runs[i], p);
        }
        assert forall|i: int, x: int| #![trigger mr[i][x]] 0 <= i < mr.len() && 0 <= x
            < mr[i].len() implies d.contains(mr[i][x]) by {
            let e = mr[i][x];
            assert(mr[i].contains(e));
            assert(mr[i] == in_range(runs[i], lower_key(lower), upper_key(upper)));
            lemma_filter_contains(runs[i], p, e);
            assert(held(runs, e));
        }
    }

    /// The part of L0 of a scan.
    proof fn lemma_l0_part(&self, lower: Bound<Seq<u8>>, upper: Bound<Seq<u8>>, lr: Seq<Seq<Entry>>)
        requires
            self.wf(),
            lr == runs_from(
                self.sstables@,
                overlapping(self.sstables@, self.l0_sstables@, lower, upper),
                lower,
            ),
        ensures
            all_sorted(lr),
            drawn_from(lr, self.content()),
    {
        let m = self.sstables@;
        let runs = self.sources();
        let d = self.content();
        self.lemma_sources();
        lemma_age_ordered_merge(runs);
        let p = |e: Entry| user_above(lower, e.key.user);
        let f = overlapping(m, self.l0_sstables@, lower, upper);
        assert forall|i: int| 0 <= i < lr.len() implies m.contains_key(#[trigger] f[i])
            && self.flat_ids().contains(f[i]) by {
            assert(f.contains(f[i]));
            lemma_ids_filter_contains(
                self.l0_sstables@,
                |id: usize| overlaps(*m[id], lower, upper),
                f[i],
            );
            let k = choose|k: int|
                0 <= k < self.l0_sstables@.len() && self.l0_sstables@[k] == f[i];
            assert(self.flat_ids()[k] == f[i]);
        }
        assert forall|i: int| 0 <= i < lr.len() implies sorted(#[trigger] lr[i]) by {
            assert(m.contains_key(f[i]));
            assert(table_ok(*m[f[i]], f[i]));
            lemma_filter_sorted(m[f[i]].entries(), p);
        }
        assert forall|i: int, x: int| #![trigger lr[i][x]] 0 <= i < lr.len() && 0 <= x
            < lr[i].len() implies d.contains(lr[i][x]) by {
            let e = lr[i][x];
            assert(lr[i].contains(e));
            assert(m.contains_key(f[i]));
            lemma_filter_contains(m[f[i]].entries(), p, e);
            self.lemma_table_held(f[i], e);
        }
    }

    /// The levels' part of a scan.
    proof fn lemma_level_part(
        &self,
        lower: Bound<Seq<u8>>,
        upper: Bound<Seq<u8>>,
        vr: Seq<Seq<Entry>>,
    )
        requires
            self.wf(),
            vr == Seq::new(
                self.levels@.len(),
                |i: int| level_from(self.sstables@, self.levels@[i].1@, lower, upper),
            ),
        ensures
            all_sorted(vr),
            drawn_from(vr, self.content()),
    {
        let m = self.sstables@;
        let runs = self.sources();
        let d = self.content();
        self.lemma_sources();
        lemma_age_ordered_merge(runs);
        let p = |e: Entry| user_above(lower, e.key.user);
        assert forall|i: int| 0 <= i < vr.len() implies sorted(#[trigger] vr[i]) by {
            let f = overlapping(m, self.levels@[i].1@, lower, upper);
            self.lemma_level_sorted(i, lower, upper);
            lemma_filter_sorted(rest(runs_at(m, f), 0), p);
        }
        assert forall|i: int, x: int| #![trigger vr[i][x]] 0 <= i < vr.len() && 0 <= x
            < vr[i].len() implies d.contains(vr[i][x]) by {
            let e = vr[i][x];
            let f = overlapping(m, self.levels@[i].1@, lower, upper);
            let all = rest(runs_at(m, f), 0);
            assert(vr[i].contains(e));
            lemma_filter_contains(all, p, e);
            let k = choose|k: int| 0 <= k < all.len() && all[k] == e;
            let (a, b) = lemma_rest_find(runs_at(m, f), k);
            assert(m[f[a]].entries()[b] == e);
            assert(m[f[a]].entries().contains(e));
            assert(f.contains(f[a]));
            lemma_ids_filter_contains(
                self.levels@[i].1@,
                |id: usize| overlaps(*m[id], lower, upper),
                f[a],
            );
            self.lemma_level_known(i);
            let q = choose|q: int| 0 <= q < self.levels@[i].1@.len() && self.levels@[i].1@[q] == f[a];
            assert(self.flat_ids().contains(self.levels@[i].1@[q]));
            self.lemma_table_held(f[a], e);
        }
    }

    /// What a table holds is part of the content.
    proof fn lemma_table_held(&self, id: usize, e: Entry)
        requires
            self.flat_ids().contains(id),
            self.sstables@[id].entries().contains(e),
        ensures
            held(self.sources(), e),
    {
        let k = choose|k: int| 0 <= k < self.flat_ids().len() && self.flat_ids()[k] == id;
        let n = 1 + self.imm_memtables@.len();
        assert(self.sources()[n + k] == self.sstables@[id].entries());
        assert(self.sources()[n + k].contains(e));
    }

    /// The overlapping tables of a level are sorted together.
    proof fn lemma_level_sorted(&self, i: int, lower: Bound<Seq<u8>>, upper: Bound<Seq<u8>>)
        requires
            self.wf(),
            0 <= i < self.levels@.len(),
        ensures
            sorted(
                rest(
                    runs_at(
                        self.sstables@,
                        overlapping(self.sstables@, self.levels@[i].1@, lower, upper),
                    ),
                    0,
                ),
            ),
    {
        let m = self.sstables@;
        let ids = self.levels@[i].1@;
        self.lemma_level_known(i);
        assert(apart(tables_at(m, self.levels@[i].1@)));
        let f = overlapping(m, ids, lower, upper);
        lemma_apart_filter(m, ids, |id: usize| overlaps(*m[id], lower, upper));
        assert forall|k: int| 0 <= k < f.len() implies m[#[trigger] f[k]].entries().len() > 0 by {
            assert(f.contains(f[k]));
            lemma_ids_filter_contains(ids, |id: usize| overlaps(*m[id], lower, upper), f[k]);
        }
        lemma_apart_level(m, f);
    }

    /// An entry in range stands in the iterators exactly if it stands in the sources.
    proof fn lemma_parts(
        &self,
        lower: Bound<Seq<u8>>,
        upper: Bound<Seq<u8>>,
        mr: Seq<Seq<Entry>>,
        lr: Seq<Seq<Entry>>,
        vr: Seq<Seq<Entry>>,
        e: Entry,
    )
        requires
            self.wf(),
            user_below(upper, e.key.user),
            mr.len() == 1 + self.imm_memtables@.len(),
            forall|k: int|
                0 <= k < mr.len() ==> #[trigger] mr[k] == in_range(
                    self.sources()[k],
                    lower_key(lower),
                    upper_key(upper),
                ),
            lr == runs_from(
                self.sstables@,
                overlapping(self.sstables@, self.l0_sstables@, lower, upper),
                lower,
            ),
            vr == Seq::new(
                self.levels@.len(),
                |i: int| level_from(self.sstables@, self.levels@[i].1@, lower, upper),
            ),
            drawn_from(mr, self.content()),
            drawn_from(lr, self.content()),
            drawn_from(vr, self.content()),
        ensures
            held(mr, e) || held(lr, e) || held(vr, e) <==> held(self.sources(), e) && user_above(
                lower,
                e.key.user,
            ),
    {
        let m = self.sstables@;
        let runs = self.sources();
        let n = 1 + self.imm_memtables@.len();
        let p = |x: Entry| above(lower_key(lower), x.key) && below(upper_key(upper), x.key);
        let q = |x: Entry| user_above(lower, x.key.user);
        self.lemma_sources();
        lemma_age_ordered_merge(runs);
        lemma_key_bounds(lower, upper, e.key);
        if held(mr, e) {
            let i = choose|i: int| 0 <= i < mr.len() && (#[trigger] mr[i]).contains(e);
            assert(mr[i] == in_range(runs[i], lower_key(lower), upper_key(upper)));
            lemma_filter_contains(runs[i], p, e);
            assert(held(runs, e));
        }
        if held(lr, e) {
            let i = choose|i: int| 0 <= i < lr.len() && (#[trigger] lr[i]).contains(e);
            let x = choose|x: int| 0 <= x < lr[i].len() && lr[i][x] == e;
            assert(self.content().contains(lr[i][x]));
            let f = overlapping(m, self.l0_sstables@, lower, upper);
            lemma_filter_contains(m[f[i]].entries(), q, e);
        }
        if held(vr, e) {
            let i = choose|i: int| 0 <= i < vr.len() && (#[trigger] vr[i]).contains(e);
            let x = choose|x: int| 0 <= x < vr[i].len() && vr[i][x] == e;
            assert(self.content().contains(vr[i][x]));
            let f = overlapping(m, self.levels@[i].1@, lower, upper);
            lemma_filter_contains(rest(runs_at(m, f), 0), q, e);
        }
        if held(runs, e) && user_above(lower, e.key.user) {
            let i = choose|i: int| 0 <= i < runs.len() && (#[trigger] runs[i]).contains(e);
            if i < n {
                assert(mr[i] == in_range(runs[i], lower_key(lower), upper_key(upper)));
                lemma_filter_contains(runs[i], p, e);
                assert(held(mr, e));
            } else {
                let k = i - n;
                let id = self.flat_ids()[k];
                assert(runs[i] == m[id].entries());
                assert(m.contains_key(id));
                assert(table_ok(*m[id], id));
                lemma_entry_overlaps(&m[id], lower, upper, e);
                self.lemma_find_level(k);
                if self.l0_sstables@.contains(id) {
                    let f = overlapping(m, self.l0_sstables@, lower, upper);
                    lemma_ids_filter_contains(
                        self.l0_sstables@,
                        |id: usize| overlaps(*m[id], lower, upper),
                        id,
                    );
                    let a = choose|a: int| 0 <= a < f.len() && f[a] == id;
                    lemma_filter_contains(m[id].entries(), q, e);
                    assert(lr[a].contains(e));
                    assert(held(lr, e));
                } else {
                    let v = choose|v: int|
                        0 <= v < self.levels@.len() && (#[trigger] self.levels@[v]).1@.contains(id);
                    let ids = self.levels@[v].1@;
                    let f = overlapping(m, ids, lower, upper);
                    lemma_ids_filter_contains(
                        ids,
                        |id: usize| overlaps(*m[id], lower, upper),
                        id,
                    );
                    let a = choose|a: int| 0 <= a < f.len() && f[a] == id;
                    let b = choose|b: int|
                        0 <= b < m[id].entries().len() && m[id].entries()[b] == e;
                    let fr = runs_at(m, f);
                    assert(fr[a] == m[id].entries());
                    lemma_rest_at(fr, a, b);
                    assert(rest(fr, 0)[run_start(fr, a) + b] == e);
                    assert(rest(fr, 0).contains(e));
                    lemma_filter_contains(rest(fr, 0), q, e);
                    assert(vr[v].contains(e));
                    assert(held(vr, e));
                }
            }
        }
    }
}

/// Whether a table may hold user keys of a range.
fn table_overlaps(table: &SsTable, lower: Bound<&[u8]>, upper: Bound<&[u8]>) -> (r: bool)
    requires
        table.wf(),
    ensures
        r == overlaps(*table, user_bound(lower), user_bound(upper)),
{
    proof {
        table.lemma_wf();
    }
    if table.num_of_blocks() == 0 {
        return false;
    }
    let first_key = table.first_key().as_key_slice().key_ref();
    let last_key = table.last_key().as_key_slice().key_ref();
    let skip_for_lower = match lower {
        Bound::Included(target) => bytes_less(last_key, target),
        Bound::Excluded(target) => !bytes_less(target, last_key),
        Bound::Unbounded => false,
    };
    if skip_for_lower {
        return false;
    }
    let skip_for_upper = match upper {
        Bound::Included(target) => bytes_less(target, first_key),
        Bound::Excluded(target) => !bytes_less(first_key, target),
        Bound::Unbounded => false,
    };
    !skip_for_upper
}

/// A table with an entry in range overlaps the range.
proof fn lemma_entry_overlaps(
    t: &SsTable,
    lower: Bound<Seq<u8>>,
    upper: Bound<Seq<u8>>,
    e: Entry,
)
    requires
        t.searchable(),
        t.entries().contains(e),
        user_above(lower, e.key.user),
        user_below(upper, e.key.user),
    ensures
        overlaps(*t, lower, upper),
{
    let es = t.entries();
    t.lemma_wf();
    let i = choose|i: int| 0 <= i < es.len() && es[i] == e;
    let n = es.len() - 1;
    let u = e.key.user;
    let a = es[0].key.user;
    let b = es[n].key.user;
    assert(bytes_le(a, u)) by {
        if i > 0 {
            assert(key_lt(es[0].key, es[i].key));
        }
    }
    assert(bytes_le(u, b)) by {
        if i < n {
            assert(key_lt(es[i].key, es[n].key));
        }
    }
    match lower {
        Bound::Included(k) => {
            if bytes_lt(b, k) && u != b {
                lemma_bytes_lt_transitive(u, b, k);
            }
        },
        Bound::Excluded(k) => {
            if u != b {
                lemma_bytes_lt_transitive(k, u, b);
            }
        },
        Bound::Unbounded => {},
    }
    match upper {
        Bound::Included(k) => {
            if bytes_lt(k, a) && u != a {
                lemma_bytes_lt_transitive(k, a, u);
            }
        },
        Bound::Excluded(k) => {
            if u != a {
                lemma_bytes_lt_transitive(a, u, k);
            }
        },
        Bound::Unbounded => {},
    }
}

/// An identifier is picked exactly if it satisfies the predicate.
proof fn lemma_ids_filter_contains(s: Seq<usize>, p: spec_fn(usize) -> bool, x: usize)
    ensures
        s.filter(p).contains(x) <==> s.contains(x) && p(x),
    decreases s.len(),
{
    reveal(Seq::filter);
    if s.len() > 0 {
        let t = s.drop_last();
        let n = s.len() - 1;
        lemma_ids_filter_contains(t, p, x);
        if s.filter(p).contains(x) {
            let i = choose|i: int| 0 <= i < s.filter(p).len() && s.filter(p)[i] == x;
            if i < t.filter(p).len() {
                assert(t.filter(p)[i] == x);
                let j = choose|j: int| 0 <= j < t.len() && t[j] == x;
                assert(s[j] == x);
            } else {
                assert(s[n] == x);
            }
        }
        if s.contains(x) && p(x) {
            let j = choose|j: int| 0 <= j < s.len() && s[j] == x;
            if j < n {
                assert(t[j] == x);
                let i = choose|i: int| 0 <= i < t.filter(p).len() && t.filter(p)[i] == x;
                assert(s.filter(p)[i] == x);
            } else {
                assert(s.filter(p)[s.filter(p).len() - 1] == x);
            }
        }
    }
}

/// Some tables of a level end before the next one starts, too.
proof fn lemma_apart_filter(m: Map<usize, Arc<SsTable>>, ids: Seq<usize>, p: spec_fn(usize) -> bool)
    requires
        tables_ok(m),
        all_known(m, ids),
        apart(tables_at(m, ids)),
    ensures
        all_known(m, ids.filter(p)),
        apart(tables_at(m, ids.filter(p))),
    decreases ids.len(),
{
    reveal(Seq::filter);
    if ids.len() > 0 {
        let t = ids.drop_last();
        let n = ids.len() - 1;
        let ts = tables_at(m, ids);
        assert forall|i: int| 0 <= i < t.len() implies m.contains_key(#[trigger] t[i]) by {
            assert(t[i] == ids[i]);
        }
        let tt = tables_at(m, t);
        assert forall|i: int, j: int|
            #![trigger tt[i], tt[j]]
            0 <= i < j < tt.len() implies ends_before(*tt[i], *tt[j]) by {
            assert(tt[i] == ts[i] && tt[j] == ts[j]);
        }
        lemma_apart_filter(m, t, p);
        let f = ids.filter(p);
        let g = t.filter(p);
        let ft = tables_at(m, f);
        let gt = tables_at(m, g);
        assert(m.contains_key(ids[n]));
        assert forall|i: int| 0 <= i < f.len() implies m.contains_key(#[trigger] f[i]) by {
            if i < g.len() {
                assert(f[i] == g[i]);
            }
        }
        assert forall|i: int, j: int|
            #![trigger ft[i], ft[j]]
            0 <= i < j < ft.len() implies ends_before(*ft[i], *ft[j]) by {
            assert(f[i] == g[i]);
            assert(ft[i] == gt[i]);
            if j < g.len() {
                assert(f[j] == g[j]);
                assert(ft[j] == gt[j]);
            } else {
                assert(g.contains(g[i]));
                lemma_ids_filter_contains(t, p, g[i]);
                let k = choose|k: int| 0 <= k < t.len() && t[k] == g[i];
                assert(ts[k] == ft[i]);
                assert(ts[n] == ft[j]);
            }
        }
    }
}

/// The tables of a level that hold entries make a level, and hold all that the level holds.
pub proof fn lemma_filled_level(m: Map<usize, Arc<SsTable>>, ids: Seq<usize>)
    requires
        tables_ok(m),
        all_known(m, ids),
        apart(tables_at(m, ids)),
    ensures
        level_wf(tables_at(m, filled(m, ids))),
        table_runs(tables_at(m, filled(m, ids))) == runs_at(m, filled(m, ids)),
        rest(runs_at(m, filled(m, ids)), 0) == rest(runs_at(m, ids), 0),
{
    lemma_filled(m, ids);
    lemma_apart_filter(m, ids, |id: usize| m[id].entries().len() > 0);
    lemma_apart_level(m, filled(m, ids));
}

/// Tables without entries overlap no range.
proof fn lemma_overlapping_filled(
    m: Map<usize, Arc<SsTable>>,
    ids: Seq<usize>,
    lower: Bound<Seq<u8>>,
    upper: Bound<Seq<u8>>,
)
    ensures
        overlapping(m, filled(m, ids), lower, upper) == overlapping(m, ids, lower, upper),
    decreases ids.len(),
{
    reveal(Seq::filter);
    let f = filled(m, ids);
    if ids.len() > 0 {
        let t = ids.drop_last();
        lemma_overlapping_filled(m, t, lower, upper);
        if m[ids.last()].entries().len() > 0 {
            assert(f.drop_last() =~= filled(m, t));
        }
    }
}

proof fn lemma_find_in_levels(lv: Seq<(usize, Seq<usize>)>, from: int, k: int) -> (i: int)
    requires
        0 <= from <= lv.len(),
        0 <= k < ids_from(lv, from).len(),
    ensures
        from <= i < lv.len(),
        lv[i].1.contains(ids_from(lv, from)[k]),
    decreases lv.len() - from,
{
    let n = lv[from].1.len();
    if k < n {
        assert(lv[from].1[k] == ids_from(lv, from)[k]);
        from
    } else {
        assert(ids_from(lv, from)[k] == ids_from(lv, from + 1)[k - n]);
        lemma_find_in_levels(lv, from + 1, k - n)
    }
}

/// The merge of runs that are drawn from `m` is drawn from `m`.
proof fn lemma_merged_drawn(runs: Seq<Seq<Entry>>, m: Seq<Entry>)
    requires
        drawn_from(runs, m),
        forall|e: Entry| #[trigger] merge_all(runs).contains(e) <==> held(runs, e),
    ensures
        forall|x: int| 0 <= x < merge_all(runs).len() ==> m.contains(#[trigger] merge_all(runs)[x]),
{
    let a = merge_all(runs);
    assert forall|x: int| 0 <= x < a.len() implies m.contains(#[trigger] a[x]) by {
        assert(a.contains(a[x]));
        assert(held(runs, a[x]));
        let i = choose|i: int| 0 <= i < runs.len() && (#[trigger] runs[i]).contains(a[x]);
        let y = choose|y: int| 0 <= y < runs[i].len() && runs[i][y] == a[x];
        assert(m.contains(runs[i][y]));
    }
}

} // verus!
