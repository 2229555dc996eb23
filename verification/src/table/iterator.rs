use vstd::prelude::*;
use std::sync::Arc;
use crate::block::iterator::BlockIterator;
use crate::entry::{
    lemma_lower_bound_is, lemma_lower_bound_range, lemma_rest_at, lemma_rest_find, lemma_rest_skip,
    lemma_run_start_monotonic, lemma_sorted_run, lemma_sorted_runs, lemma_sorted_skip, lower_bound,
    rest, run_start, Entry,
};
use crate::error::Error;
use crate::iterators::StorageIterator;
use crate::key::{
    key_le, key_lt, lemma_key_lt_asymmetric, lemma_key_lt_irreflexive, lemma_key_lt_total,
    lemma_key_lt_transitive, KeySlice,
};
use crate::table::SsTable;

verus! {

/// An iterator over the entries of a table.
pub struct SsTableIterator {
    table: Arc<SsTable>,
    blk_iter: BlockIterator,
    blk_idx: usize,
}

impl SsTableIterator {
    pub closed spec fn table(&self) -> SsTable {
        *self.table
    }

    /// The index of the current block.
    pub closed spec fn block_idx(&self) -> int {
        self.blk_idx as int
    }

    /// The index of the current entry among all entries of the table.
    pub closed spec fn pos(&self) -> int {
        run_start(self.table.blocks(), self.blk_idx as int) + self.blk_iter.idx()
    }

    /// Whether the block iterator stands in the current block or at its end.
    spec fn placed(&self) -> bool {
        &&& self.table.searchable()
        &&& self.blk_idx < self.table.blocks().len()
        &&& self.blk_iter.wf()
        &&& self.blk_iter.entries() == self.table.blocks()[self.blk_idx as int]
        &&& self.blk_iter.moved_to(self.blk_iter.idx())
    }

    pub closed spec fn inv(&self) -> bool {
        &&& self.placed()
        &&& self.blk_iter.blank() ==> self.blk_idx + 1 == self.table.blocks().len()
    }

    proof fn lemma_placed(&self)
        requires
            self.placed(),
        ensures
            0 <= self.pos() <= self.table.entries().len(),
            self.table.entries().skip(self.pos()) == self.blk_iter.entries().skip(
                self.blk_iter.idx(),
            ) + rest(self.table.blocks(), self.blk_idx + 1),
            self.blk_iter.idx() < self.blk_iter.entries().len() ==> {
                &&& self.blk_iter.positioned()
                &&& !self.blk_iter.blank()
                &&& self.pos() < self.table.entries().len()
                &&& self.table.entries()[self.pos()] == self.blk_iter.entries()[self.blk_iter.idx()]
            },
            self.blk_iter.idx() == self.blk_iter.entries().len() ==> {
                &&& self.blk_iter.blank()
                &&& self.pos() == run_start(self.table.blocks(), self.blk_idx + 1)
                &&& self.blk_idx + 1 == self.table.blocks().len() ==> self.pos()
                    == self.table.entries().len()
            },
    {
        let runs = self.table.blocks();
        lemma_rest_at(runs, self.blk_idx as int, self.blk_iter.idx());
        if self.blk_iter.idx() >= self.blk_iter.entries().len() {
            lemma_rest_skip(runs, self.blk_idx + 1);
            if self.blk_idx + 1 == runs.len() {
                assert(rest(runs, 0).skip(run_start(runs, runs.len() as int)).len() == 0);
            }
        }
    }

    /// What remains is a tail of the table's entries.
    pub proof fn lemma_suffix(&self)
        requires
            self.wf(),
        ensures
            self.table().searchable(),
            exists|p: int|
                0 <= p <= self.table().entries().len() && self.remaining()
                    == #[trigger] self.table().entries().skip(p),
    {
        self.lemma_placed();
    }

    proof fn lemma_first_keys(table: SsTable, i: int)
        requires
            table.searchable(),
            0 <= i < table.blocks().len(),
        ensures
            table.blocks()[i].len() > 0,
            table.metas()[i].first == table.blocks()[i][0].key,
            table.metas()[i].last == table.blocks()[i].last().key,
            table.metas().len() == table.blocks().len(),
    {
        table.lemma_wf();
    }

    /// Creates an iterator that stands on the first entry. Fails on a table without blocks.
    pub fn create_and_seek_to_first(table: Arc<SsTable>) -> (r: Result<SsTableIterator, Error>)
        requires
            table.searchable(),
        ensures
            match r {
                Ok(it) => {
                    &&& table.metas().len() > 0
                    &&& it.inv()
                    &&& it.table() == *table
                    &&& it.pos() == 0
                    &&& it.remaining() == table.entries()
                },
                Err(e) => e == Error::EmptyTable && table.metas().len() == 0,
            },
    {
        proof {
            table.lemma_wf();
        }
        if table.num_of_blocks() == 0 {
            return Err(Error::EmptyTable);
        }
        let block = table.read_block(0)?;
        let mut blk_iter = BlockIterator::new(block);
        blk_iter.seek_to_first();
        let mut itr = SsTableIterator { table, blk_iter, blk_idx: 0 };
        proof {
            Self::lemma_first_keys(itr.table(), 0);
        }
        itr.seek_to_first()?;
        Ok(itr)
    }

    /// Seeks to the first entry.
    pub fn seek_to_first(&mut self) -> (r: Result<(), Error>)
        requires
            old(self).inv(),
        ensures
            r is Ok,
            final(self).inv(),
            final(self).table() == old(self).table(),
            final(self).pos() == 0,
            final(self).remaining() == final(self).table().entries(),
    {
        proof {
            self.table.lemma_wf();
        }
        let r = self.seek_to_idx(0);
        proof {
            assert(self.table.entries().skip(0) =~= self.table.entries());
        }
        r
    }

    /// Creates an iterator that stands on the first entry whose key is not before `key`.
    pub fn create_and_seek_to_key(table: Arc<SsTable>, key: KeySlice) -> (r: Result<
        SsTableIterator,
        Error,
    >)
        requires
            table.searchable(),
        ensures
            match r {
                Ok(it) => {
                    &&& table.metas().len() > 0
                    &&& it.inv()
                    &&& it.table() == *table
                    &&& it.remaining() == table.entries().skip(lower_bound(table.entries(), key@))
                },
                Err(e) => e == Error::EmptyTable && table.metas().len() == 0,
            },
    {
        let mut itr = Self::create_and_seek_to_first(table)?;
        itr.seek_to_key(key)?;
        Ok(itr)
    }

    /// The first key of a block.
    pub fn first_key_at_idx(&self, idx: usize) -> (r: KeySlice<'_>)
        requires
            idx < self.table().metas().len(),
        ensures
            r@ == self.table().metas()[idx as int].first,
    {
        assert(idx < self.table.block_meta@.len());
        self.table.block_meta[idx].first_key.as_key_slice()
    }

    /// Whether a key lies between the first and the last key of a block.
    pub fn key_in_block(&self, idx: usize, key: KeySlice) -> (r: bool)
        requires
            idx < self.table().metas().len(),
        ensures
            r == (key_le(self.table().metas()[idx as int].first, key@) && key_le(
                key@,
                self.table().metas()[idx as int].last,
            )),
    {
        assert(idx < self.table.block_meta@.len());
        let meta = &self.table.block_meta[idx];
        let first = meta.first_key.as_key_slice();
        let last = meta.last_key.as_key_slice();
        !is_after(&first, &key) && !is_after(&key, &last)
    }

    /// Seeks to the first entry whose key is not before `key`.
    pub fn seek_to_key(&mut self, key: KeySlice) -> (r: Result<(), Error>)
        requires
            old(self).inv(),
        ensures
            r is Ok,
            final(self).inv(),
            final(self).table() == old(self).table(),
            final(self).remaining() == final(self).table().entries().skip(
                lower_bound(final(self).table().entries(), key@),
            ),
    {
        let ghost table = self.table();
        let ghost runs = table.blocks();
        proof {
            table.lemma_wf();
        }
        let mut left: usize = 0;
        let mut right: usize = self.table.num_of_blocks();
        while left < right
            invariant
                *self == *old(self),
                self.inv(),
                table == self.table(),
                runs == table.blocks(),
                table.searchable(),
                left <= right <= runs.len(),
                table.metas().len() == runs.len(),
                left > 0 ==> key_le(runs[left - 1][0].key, key@),
                right < runs.len() ==> key_lt(key@, runs[right as int][0].key),
            decreases right - left,
        {
            let mid = left + (right - left) / 2;
            proof {
                Self::lemma_first_keys(table, mid as int);
                lemma_key_lt_total(runs[mid as int][0].key, key@);
            }
            if !is_after(&self.first_key_at_idx(mid), &key) {
                left = mid + 1;
            } else {
                right = mid;
            }
        }
        let idx = if left == 0 {
            0
        } else {
            left - 1
        };
        self.seek_to_idx(idx)?;
        proof {
            lemma_sorted_run(runs, idx as int);
        }
        self.blk_iter.seek_to_key(key);
        let ghost j = self.blk_iter.idx();
        proof {
            lemma_lower_bound_range(runs[idx as int], key@);
            if left == 0 {
                lemma_key_lt_asymmetric(key@, runs[0][0].key);
                assert(j == 0);
            }
            self.lemma_placed();
            Self::lemma_first_keys(table, idx as int);
            lemma_key_lt_total(runs[idx as int][0].key, key@);
            let es = table.entries();
            let p = self.pos();
            assert forall|k: int| 0 <= k < p implies key_lt(#[trigger] es[k].key, key@) by {
                let (a, b) = lemma_rest_find(runs, k);
                if a > idx {
                    lemma_run_start_monotonic(runs, idx + 1, a);
                } else if a < idx {
                    lemma_sorted_runs(runs, a, b, idx as int, 0);
                    if key_lt(runs[idx as int][0].key, key@) {
                        lemma_key_lt_transitive(es[k].key, runs[idx as int][0].key, key@);
                    }
                }
            }
            if j == runs[idx as int].len() && idx + 1 < runs.len() {
                Self::lemma_first_keys(table, idx + 1);
                lemma_rest_at(runs, idx + 1, 0);
                lemma_key_lt_asymmetric(key@, runs[idx + 1][0].key);
            }
            lemma_lower_bound_is(es, key@, p);
        }
        if !self.blk_iter.is_positioned() && self.blk_idx + 1 < self.table.num_of_blocks() {
            self.seek_to_idx(self.blk_idx + 1)?;
        }
        proof {
            self.lemma_placed();
        }
        Ok(())
    }

    /// Seeks to the first entry of a block.
    pub fn seek_to_idx(&mut self, idx: usize) -> (r: Result<(), Error>)
        requires
            old(self).table().searchable(),
            idx < old(self).table().metas().len(),
        ensures
            r is Ok,
            final(self).inv(),
            final(self).table() == old(self).table(),
            final(self).block_idx() == idx,
            final(self).pos() == run_start(final(self).table().blocks(), idx as int),
            final(self).remaining() == rest(final(self).table().blocks(), idx as int),
    {
        proof {
            self.table.lemma_wf();
        }
        self.blk_idx = idx;
        let block = self.table.read_block(idx)?;
        self.blk_iter = BlockIterator::new(block);
        self.blk_iter.seek_to_first();
        proof {
            Self::lemma_first_keys(self.table(), idx as int);
            self.lemma_placed();
            lemma_rest_skip(self.table.blocks(), idx as int);
        }
        Ok(())
    }
}

/// Whether `a` comes after `b`.
fn is_after(a: &KeySlice, b: &KeySlice) -> (r: bool)
    ensures
        r == key_lt(b@, a@),
        !r == key_le(a@, b@),
{
    proof {
        lemma_key_lt_total(a@, b@);
        if key_lt(a@, b@) {
            lemma_key_lt_asymmetric(a@, b@);
        }
        lemma_key_lt_irreflexive(a@);
    }
    b.less(a)
}

impl StorageIterator for SsTableIterator {
    open spec fn wf(&self) -> bool {
        self.inv()
    }

    closed spec fn remaining(&self) -> Seq<Entry> {
        self.table.entries().skip(self.pos())
    }

    open spec fn can_next(&self) -> bool {
        true
    }

    open spec fn reliable(&self) -> bool {
        true
    }

    proof fn lemma_wf(&self) {
        self.lemma_placed();
        lemma_sorted_skip(self.table.entries(), self.pos());
    }

    fn key(&self) -> (r: KeySlice<'_>) {
        proof {
            self.lemma_placed();
        }
        self.blk_iter.key()
    }

    fn value(&self) -> (r: &[u8]) {
        proof {
            self.lemma_placed();
        }
        self.blk_iter.value()
    }

    fn is_valid(&self) -> (r: bool) {
        proof {
            self.lemma_placed();
        }
        self.blk_iter.is_positioned()
    }

    fn next(&mut self) -> (r: Result<(), Error>)
        ensures
            r is Ok,
            final(self).table() == old(self).table(),
    {
        proof {
            self.lemma_placed();
            self.table.lemma_wf();
        }
        assert(self.blk_idx < self.table.block_meta.len());
        let ghost p = self.pos();
        self.blk_iter.next();
        proof {
            self.lemma_placed();
        }
        if !self.blk_iter.is_positioned() {
            if self.blk_idx + 1 < self.table.num_of_blocks() {
                self.seek_to_idx(self.blk_idx + 1)?;
            }
        }
        proof {
            self.lemma_placed();
            let es = self.table.entries();
            if p < es.len() {
                assert(es.skip(p).drop_first() =~= es.skip(p + 1));
            }
        }
        Ok(())
    }

    open spec fn active(&self) -> nat {
        1
    }

    fn num_active_iterators(&self) -> (r: usize) {
        1
    }
}

} // verus!
