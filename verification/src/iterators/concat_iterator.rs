use vstd::prelude::*;
use std::sync::Arc;
use crate::entry::{
    lemma_lower_bound_is, lemma_lower_bound_range, lemma_rest_at, lemma_runs_sorted,
    lemma_sorted_runs, lemma_sorted_skip, lower_bound, rest, run_start, sorted, Entry,
};
use crate::error::Error;
use crate::iterators::StorageIterator;
use crate::key::{
    key_le, key_lt, lemma_key_lt_asymmetric, lemma_key_lt_total, lemma_key_lt_transitive, KeySlice,
    VKey,
};
use crate::table::iterator::SsTableIterator;
use crate::table::SsTable;

verus! {

/// The entries of each table.
pub open spec fn table_runs(tables: Seq<Arc<SsTable>>) -> Seq<Seq<Entry>> {
    Seq::new(tables.len(), |i: int| tables[i].entries())
}

/// Whether every table can be searched and holds an entry.
pub open spec fn tables_wf(tables: Seq<Arc<SsTable>>) -> bool {
    forall|i: int|
        0 <= i < tables.len() ==> {
            &&& (#[trigger] tables[i]).searchable()
            &&& tables[i].entries().len() > 0
        }
}

/// Whether the tables stand in key order and their key ranges do not overlap.
pub open spec fn level_wf(tables: Seq<Arc<SsTable>>) -> bool {
    &&& tables_wf(tables)
    &&& sorted(rest(table_runs(tables), 0))
}

/// The last table that starts at or before `key`, or the first one.
pub open spec fn seek_table(tables: Seq<Arc<SsTable>>, key: VKey) -> int
    decreases tables.len(),
{
    if tables.len() <= 1 || key_le(tables.last().first(), key) {
        tables.len() - 1
    } else {
        seek_table(tables.drop_last(), key)
    }
}

/// Where a search for `key` leads: to the first entry of the sought table that is not before
/// `key` and all that follow, or to nothing where that table has no such entry.
pub open spec fn sought(tables: Seq<Arc<SsTable>>, key: VKey) -> Seq<Entry> {
    let t = seek_table(tables, key);
    let found = tables[t].entries().skip(lower_bound(tables[t].entries(), key));
    if tables.len() == 0 || found.len() == 0 {
        Seq::empty()
    } else {
        found + rest(table_runs(tables), t + 1)
    }
}

proof fn lemma_seek_table(tables: Seq<Arc<SsTable>>, key: VKey, t: int)
    requires
        level_wf(tables),
        0 <= t < tables.len(),
        t == 0 || key_le(tables[t].first(), key),
        t + 1 < tables.len() ==> key_lt(key, tables[t + 1].first()),
    ensures
        seek_table(tables, key) == t,
    decreases tables.len(),
{
    if t + 1 < tables.len() {
        let n = tables.len() - 1;
        let init = tables.drop_last();
        lemma_firsts_ordered(tables, t + 1, n);
        if t + 1 < n {
            lemma_key_lt_transitive(key, tables[t + 1].first(), tables[n].first());
        }
        lemma_key_lt_asymmetric(key, tables[n].first());
        lemma_level_prefix(tables, n);
        assert(tables.take(n) =~= init);
        lemma_seek_table(init, key, t);
    }
}

/// Whether a key lies behind the end of a table and before the start of the next one.
pub open spec fn between_tables(tables: Seq<Arc<SsTable>>, key: VKey) -> bool {
    exists|t: int|
        0 <= t && t + 1 < tables.len() && key_lt((#[trigger] tables[t]).last(), key) && key_lt(
            key,
            tables[t + 1].first(),
        )
}

/// The sought table starts at or before the key unless it is the first one, and the next one
/// starts behind it.
proof fn lemma_seek_table_bounds(tables: Seq<Arc<SsTable>>, key: VKey)
    requires
        tables.len() > 0,
    ensures
        ({
            let t = seek_table(tables, key);
            &&& 0 <= t < tables.len()
            &&& t == 0 || key_le(tables[t].first(), key)
            &&& t + 1 < tables.len() ==> key_lt(key, tables[t + 1].first())
        }),
    decreases tables.len(),
{
    if tables.len() > 1 && !key_le(tables.last().first(), key) {
        lemma_seek_table_bounds(tables.drop_last(), key);
        lemma_key_lt_total(key, tables.last().first());
    }
}

/// A search for a key that does not lie between two tables leads to the first entry of all tables
/// that is not before the key, and to all that follow.
pub proof fn lemma_sought(tables: Seq<Arc<SsTable>>, key: VKey)
    requires
        level_wf(tables),
        !between_tables(tables, key),
    ensures
        ({
            let all = rest(table_runs(tables), 0);
            sought(tables, key) == all.skip(lower_bound(all, key))
        }),
{
    let runs = table_runs(tables);
    let all = rest(runs, 0);
    if tables.len() > 0 {
        let t = seek_table(tables, key);
        lemma_seek_table_bounds(tables, key);
        let es = tables[t].entries();
        assert(tables[t].searchable());
        tables[t].lemma_wf();
        assert(runs[t] == es);
        lemma_lower_bound_range(es, key);
        let b = lower_bound(es, key);
        let start = run_start(runs, t);
        let i = start + b;
        lemma_rest_at(runs, t, b);
        lemma_rest_at(runs, t, 0);
        if b == es.len() {
            assert(key_lt(es[b - 1].key, key));
            assert(t + 1 == tables.len());
            assert(all.skip(i).len() == 0);
        }
        assert forall|j: int| 0 <= j < i implies key_lt(#[trigger] all[j].key, key) by {
            if j < start {
                assert(t > 0);
                assert(all[start] == es[0]);
                assert(key_lt(all[j].key, all[start].key));
                if es[0].key != key {
                    lemma_key_lt_transitive(all[j].key, es[0].key, key);
                }
            } else {
                lemma_rest_at(runs, t, j - start);
                assert(all[j] == es[j - start]);
            }
        }
        lemma_lower_bound_is(all, key, i);
        assert(sought(tables, key) =~= all.skip(i));
    } else {
        lemma_lower_bound_range(all, key);
        assert(sought(tables, key) =~= all.skip(lower_bound(all, key)));
    }
}

/// A later table starts after an earlier one.
pub proof fn lemma_firsts_ordered(tables: Seq<Arc<SsTable>>, a: int, b: int)
    requires
        level_wf(tables),
        0 <= a <= b < tables.len(),
    ensures
        a < b ==> key_lt(tables[a].last(), tables[b].first()),
        a < b ==> key_lt(tables[a].first(), tables[b].first()),
        key_le(tables[a].first(), tables[a].last()),
{
    let runs = table_runs(tables);
    assert(tables[a].searchable() && tables[b].searchable());
    tables[a].lemma_wf();
    tables[b].lemma_wf();
    assert(runs[a] == tables[a].entries() && runs[b] == tables[b].entries());
    if a < b {
        lemma_sorted_runs(runs, a, runs[a].len() - 1, b, 0);
        lemma_sorted_runs(runs, a, 0, b, 0);
    }
    if runs[a].len() > 1 {
        lemma_sorted_runs(runs, a, 0, a, runs[a].len() - 1);
    }
}

/// Some tables of a level are a level.
pub proof fn lemma_level_range(tables: Seq<Arc<SsTable>>, from: int, to: int)
    requires
        level_wf(tables),
        0 <= from <= to <= tables.len(),
    ensures
        level_wf(tables.subrange(from, to)),
{
    let part = tables.subrange(from, to);
    let runs = table_runs(tables);
    let prs = table_runs(part);
    assert forall|i: int| 0 <= i < part.len() implies {
        &&& (#[trigger] part[i]).searchable()
        &&& part[i].entries().len() > 0
    } by {
        assert(part[i] == tables[i + from]);
    }
    assert forall|a: int| 0 <= a < prs.len() implies sorted(#[trigger] prs[a]) by {
        assert(part[a].searchable());
    }
    assert forall|a: int| 0 <= a < prs.len() - 1 implies key_lt(
        (#[trigger] prs[a]).last().key,
        prs[a + 1][0].key,
    ) by {
        assert(part[a] == tables[a + from] && part[a + 1] == tables[a + 1 + from]);
        assert(tables[a + from].searchable() && tables[a + 1 + from].searchable());
        let r1 = runs[a + from];
        lemma_sorted_runs(runs, a + from, r1.len() - 1, a + 1 + from, 0);
    }
    assert forall|a: int| 0 <= a < prs.len() implies (#[trigger] prs[a]).len() > 0 by {
        assert(part[a].entries().len() > 0);
    }
    lemma_runs_sorted(prs);
}

proof fn lemma_level_prefix(tables: Seq<Arc<SsTable>>, n: int)
    requires
        level_wf(tables),
        0 <= n <= tables.len(),
    ensures
        level_wf(tables.take(n)),
{
    lemma_level_range(tables, 0, n);
    assert(tables.take(n) =~= tables.subrange(0, n));
}

/// Concatenates tables in key order whose key ranges do not overlap. The iterators over the
/// single tables are only created when they are reached.
pub struct SstConcatIterator {
    current: Option<SsTableIterator>,
    next_sst_idx: usize,
    sstables: Vec<Arc<SsTable>>,
}

impl SstConcatIterator {
    pub closed spec fn tables(&self) -> Seq<Arc<SsTable>> {
        self.sstables@
    }

    pub closed spec fn inv(&self) -> bool {
        &&& level_wf(self.sstables@)
        &&& self.next_sst_idx <= self.sstables@.len()
        &&& self.current matches Some(it) ==> {
            &&& it.wf()
            &&& self.next_sst_idx > 0
            &&& it.table() == *self.sstables@[self.next_sst_idx - 1]
        }
    }

    /// Creates an iterator that stands on the first entry of the first table.
    pub fn create_and_seek_to_first(sstables: Vec<Arc<SsTable>>) -> (r: Result<
        SstConcatIterator,
        Error,
    >)
        requires
            level_wf(sstables@),
        ensures
            match r {
                Ok(it) => {
                    &&& it.wf()
                    &&& it.tables() == sstables@
                    &&& it.remaining() == rest(table_runs(sstables@), 0)
                },
                Err(_) => false,
            },
    {
        if sstables.len() == 0 {
            return Ok(SstConcatIterator { current: None, next_sst_idx: 0, sstables });
        }
        proof {
            assert(sstables@[0].searchable());
            sstables@[0].lemma_wf();
        }
        let current = SsTableIterator::create_and_seek_to_first(sstables[0].clone())?;
        let it = SstConcatIterator { current: Some(current), next_sst_idx: 1, sstables };
        assert(table_runs(it.sstables@)[0] == it.sstables@[0].entries());
        Ok(it)
    }

    /// Seeks to the first entry of a given table that is not before `key`.
    fn seek_to_idx(&mut self, idx: usize, key: KeySlice) -> (r: Result<(), Error>)
        requires
            old(self).inv(),
            idx < old(self).tables().len(),
        ensures
            r is Ok,
            final(self).inv(),
            final(self).tables() == old(self).tables(),
            final(self).remaining() == {
                let es = old(self).tables()[idx as int].entries();
                if lower_bound(es, key@) < es.len() {
                    es.skip(lower_bound(es, key@)) + rest(
                        table_runs(old(self).tables()),
                        idx + 1,
                    )
                } else {
                    Seq::empty()
                }
            },
    {
        proof {
            assert(self.sstables@[idx as int].searchable());
            self.sstables@[idx as int].lemma_wf();
            lemma_lower_bound_range(self.sstables@[idx as int].entries(), key@);
        }
        assert(idx < self.sstables.len());
        self.current = Some(
            SsTableIterator::create_and_seek_to_key(self.sstables[idx].clone(), key)?,
        );
        self.next_sst_idx = idx + 1;
        Ok(())
    }

    /// Searches for `key` in the last table that starts at or before it. The iterator is not
    /// valid afterwards where that table ends before `key`.
    pub fn seek_to_key(&mut self, key: KeySlice) -> (r: Result<(), Error>)
        requires
            old(self).wf(),
            old(self).tables().len() > 0,
        ensures
            r is Ok,
            final(self).wf(),
            final(self).tables() == old(self).tables(),
            final(self).remaining() == sought(old(self).tables(), key@),
    {
        let ghost tables = self.sstables@;
        let mut left: usize = 0;
        let mut right: usize = self.sstables.len();
        while left < right
            invariant
                *self == *old(self),
                self.inv(),
                tables == self.sstables@,
                left <= right <= tables.len(),
                left > 0 ==> key_le(tables[left - 1].first(), key@),
                right < tables.len() ==> key_lt(key@, tables[right as int].first()),
            decreases right - left,
        {
            let mid = left + (right - left) / 2;
            let mid_key = self.sstables[mid].first_key();
            proof {
                lemma_key_lt_total(mid_key@, key@);
            }
            if !key.less(&mid_key.as_key_slice()) {
                left = mid + 1;
            } else {
                right = mid;
            }
        }
        let idx = if left == 0 {
            0
        } else {
            left - 1
        };
        proof {
            if left == 0 && tables.len() > 1 {
                lemma_firsts_ordered(tables, 0, 1);
                lemma_key_lt_transitive(key@, tables[0].first(), tables[1].first());
            }
            lemma_seek_table(tables, key@, idx as int);
            lemma_lower_bound_range(tables[idx as int].entries(), key@);
        }
        self.seek_to_idx(idx, key)
    }

    /// Creates an iterator and searches for `key`.
    pub fn create_and_seek_to_key(sstables: Vec<Arc<SsTable>>, key: KeySlice) -> (r: Result<
        SstConcatIterator,
        Error,
    >)
        requires
            level_wf(sstables@),
        ensures
            match r {
                Ok(it) => {
                    &&& it.wf()
                    &&& it.tables() == sstables@
                    &&& it.remaining() == sought(sstables@, key@)
                },
                Err(_) => false,
            },
    {
        if sstables.len() == 0 {
            return Ok(SstConcatIterator { current: None, next_sst_idx: 0, sstables });
        }
        let mut itr = Self::create_and_seek_to_first(sstables)?;
        itr.seek_to_key(key)?;
        Ok(itr)
    }
}

impl StorageIterator for SstConcatIterator {
    closed spec fn wf(&self) -> bool {
        self.inv()
    }

    closed spec fn remaining(&self) -> Seq<Entry> {
        match self.current {
            None => Seq::empty(),
            Some(it) => if it.remaining().len() == 0 {
                Seq::empty()
            } else {
                it.remaining() + rest(table_runs(self.sstables@), self.next_sst_idx as int)
            },
        }
    }

    open spec fn can_next(&self) -> bool {
        true
    }

    open spec fn reliable(&self) -> bool {
        true
    }

    proof fn lemma_wf(&self) {
        if self.current is Some && self.current->0.remaining().len() > 0 {
            let it = self.current->0;
            let runs = table_runs(self.sstables@);
            let i = self.next_sst_idx - 1;
            it.lemma_suffix();
            assert(runs[i] == self.sstables@[i].entries());
            let p = choose|p: int| 0 <= p <= runs[i].len() && it.remaining() == runs[i].skip(p);
            lemma_rest_at(runs, i, p);
            lemma_sorted_skip(rest(runs, 0), run_start(runs, i) + p);
        }
    }

    fn key(&self) -> (r: KeySlice<'_>) {
        match &self.current {
            Some(it) => it.key(),
            None => KeySlice::from_slice(&[], 0),
        }
    }

    fn value(&self) -> (r: &[u8]) {
        match &self.current {
            Some(it) => it.value(),
            None => &[],
        }
    }

    fn is_valid(&self) -> (r: bool) {
        match &self.current {
            None => false,
            Some(inner) => inner.is_valid(),
        }
    }

    /// Moves to the next entry. Fails where the iterator stands on none.
    fn next(&mut self) -> (r: Result<(), Error>)
        ensures
            r is Ok <==> old(self).remaining().len() > 0,
            r is Err ==> r == Err::<(), Error>(Error::InvalidIterator) && *final(self) == *old(
                self,
            ),
            final(self).tables() == old(self).tables(),
    {
        if !self.is_valid() {
            return Err(Error::InvalidIterator);
        }
        let ghost runs = table_runs(self.sstables@);
        let ghost before = self.remaining();
        let ghost head = self.current->0.remaining();
        let mut current = self.current.take().unwrap();
        current.next()?;
        if !current.is_valid() {
            if self.next_sst_idx < self.sstables.len() {
                proof {
                    let table = self.sstables@[self.next_sst_idx as int];
                    assert(table.searchable());
                    table.lemma_wf();
                    assert(runs[self.next_sst_idx as int] == table.entries());
                }
                self.current = Some(SsTableIterator::create_and_seek_to_first(
                    self.sstables[self.next_sst_idx].clone(),
                )?);
                self.next_sst_idx = self.next_sst_idx + 1;
            }
        } else {
            self.current = Some(current);
        }
        proof {
            assert(before.drop_first() =~= head.drop_first() + rest(
                runs,
                old(self).next_sst_idx as int,
            ));
            assert(self.remaining() =~= before.drop_first());
        }
        Ok(())
    }

    open spec fn active(&self) -> nat {
        1
    }

    fn num_active_iterators(&self) -> (r: usize) {
        1
    }
}

} // verus!
