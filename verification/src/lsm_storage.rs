//! The storage engine.
pub mod laws;
pub mod scan;
pub mod state;

pub use crate::lsm_storage::state::{LsmStorageOptions, LsmStorageState};

use vstd::prelude::*;
use std::ops::Bound;
use std::sync::Arc;
use crate::compact::{
    CompactionController, CompactionOptions, LeveledCompactionController,
    SimpleLeveledCompactionController, TieredCompactionController,
};
use crate::entry::Entry;
use crate::error::Error;
use crate::key::{KeySlice, VKey};
use crate::lsm_iterator::{user_bound, FusedIterator, LsmIterator};
use crate::lsm_storage::scan::from_user;
use crate::lsm_storage::state::{
    all_known, apart, ids_from, lemma_level_ids, levels_view, mem_runs, opt_view, runs_at, table_ok,
    tables_at, tables_ok,
};
use crate::mem_table::{has_taken, is_fresh, total_size, wrapped, MemTable};
use crate::merge::merge_all;
use crate::iterators::StorageIterator;
use crate::mvcc::txn::Transaction;
use crate::mvcc::LsmMvccInner;
use crate::snapshot::{lookup, snapshot};
use crate::sources::{held, lemma_empty_in_front, lemma_upsert_all_from, lemma_write, older_behind};
use crate::table::builder::{split_blocks, table_fits, SsTableBuilder};
use crate::table::{all_storable, SsTable};
use crate::version_map::upsert_all;
use crate::wal::batch_entries;

verus! {

/// One change of a batch.
pub enum WriteBatchRecord<T> {
    Put(T, T),
    Del(T),
}

/// The entry that a change becomes with a timestamp. A deletion is an empty value.
pub open spec fn record_entry(r: WriteBatchRecord<&[u8]>, ts: u64) -> Entry {
    match r {
        WriteBatchRecord::Put(k, v) => Entry { key: VKey { user: k@, ts }, value: v@ },
        WriteBatchRecord::Del(k) => Entry { key: VKey { user: k@, ts }, value: Seq::empty() },
    }
}

/// The entries that a batch becomes with a timestamp.
pub open spec fn record_entries(batch: Seq<WriteBatchRecord<&[u8]>>, ts: u64) -> Seq<Entry> {
    Seq::new(batch.len(), |i: int| record_entry(batch[i], ts))
}

/// Entries that a compaction may leave out.
#[derive(Debug)]
pub enum CompactionFilter {
    Prefix(Vec<u8>),
}

/// Whether memtables have different identifiers, none of which names a table.
pub open spec fn mem_ids_ok(s: LsmStorageState) -> bool {
    let ids = seq![s.memtable.spec_id()] + mem_ids(s.imm_memtables@);
    &&& ids.no_duplicates()
    &&& forall|i: int|
        0 <= i < ids.len() ==> !s.sstables@.contains_key(#[trigger] ids[i])
}

/// The identifiers of some memtables.
pub open spec fn mem_ids(memtables: Seq<Arc<MemTable>>) -> Seq<usize> {
    Seq::new(memtables.len(), |i: int| memtables[i].spec_id())
}

/// Whether all identifiers are below a limit.
pub open spec fn ids_below(s: LsmStorageState, limit: usize) -> bool {
    &&& s.memtable.spec_id() < limit
    &&& forall|i: int|
        0 <= i < s.imm_memtables@.len() ==> (#[trigger] s.imm_memtables@[i]).spec_id() < limit
    &&& forall|id: usize| #[trigger] s.sstables@.contains_key(id) ==> id < limit
}

/// Whether no entry is newer than a timestamp.
pub open spec fn stamped(s: LsmStorageState, latest: u64) -> bool {
    forall|e: Entry| #[trigger] held(s.sources(), e) ==> e.key.ts <= latest
}

/// Whether the levels are those that the compaction options call for, and the controller is
/// the one for these options.
pub open spec fn shaped(
    s: LsmStorageState,
    options: CompactionOptions,
    controller: CompactionController,
) -> bool {
    match options {
        CompactionOptions::Leveled(o) => s.levels@.len() == o.max_levels && (controller matches
            CompactionController::Leveled(c) && c.spec_options() == o),
        CompactionOptions::Simple(o) => s.levels@.len() == o.max_levels && (controller matches
            CompactionController::Simple(c) && c.spec_options() == o),
        CompactionOptions::Tiered(o) => s.l0_sstables@.len() == 0 && (controller matches
            CompactionController::Tiered(c) && c.spec_options() == o),
        CompactionOptions::NoCompaction => s.levels@.len() == 1 && controller is NoCompaction,
    }
}

/// Whether the numbers of the tiers are below a limit, and none is the identifier of a memtable,
/// which will be the number of a tier once the memtable is flushed.
pub open spec fn tiers_ok(s: LsmStorageState, limit: usize) -> bool {
    let ids = seq![s.memtable.spec_id()] + mem_ids(s.imm_memtables@);
    forall|k: int|
        0 <= k < s.levels@.len() ==> (#[trigger] s.levels@[k]).0 < limit && !ids.contains(
            s.levels@[k].0,
        )
}

/// The storage engine. It keeps everything in memory; whoever uses it writes the files.
pub struct LsmStorageInner {
    pub state: LsmStorageState,
    pub next_sst_id: usize,
    pub options: LsmStorageOptions,
    pub compaction_controller: CompactionController,
    pub mvcc: LsmMvccInner,
    pub compaction_filters: Vec<CompactionFilter>,
}

impl LsmStorageInner {
    pub open spec fn wf(&self) -> bool {
        &&& self.state.wf()
        &&& self.mvcc.wf()
        &&& mem_ids_ok(self.state)
        &&& ids_below(self.state, self.next_sst_id)
        &&& stamped(self.state, self.mvcc.latest())
        &&& shaped(self.state, self.options.compaction_options, self.compaction_controller)
        &&& self.options.compaction_options is Tiered ==> tiers_ok(self.state, self.next_sst_id)
    }

    /// All versions of all user keys.
    pub open spec fn content(&self) -> Seq<Entry> {
        self.state.content()
    }

    /// Whether two engines differ in their states and identifiers at most.
    pub open spec fn same_setup(&self, other: LsmStorageInner) -> bool {
        &&& self.options == other.options
        &&& self.compaction_controller == other.compaction_controller
        &&& self.compaction_filters == other.compaction_filters
    }

    /// Starts an empty engine.
    pub fn open(options: LsmStorageOptions) -> (r: LsmStorageInner)
        requires
            options.num_levels() < usize::MAX,
        ensures
            r.wf(),
            r.content() == Seq::<Entry>::empty(),
            r.options == options,
            r.next_sst_id == 1,
            r.mvcc.latest() == 0,
            forall|t: u64| #[trigger] r.mvcc.pinned(t) == 0,
            r.compaction_filters@.len() == 0,
            r.state.imm_memtables@.len() == 0,
            r.state.l0_sstables@.len() == 0,
            r.state.sstables@ == Map::<usize, Arc<SsTable>>::empty(),
            levels_view(r.state.levels@) == Seq::new(
                options.num_levels() as nat,
                |i: int| ((i + 1) as usize, Seq::<usize>::empty()),
            ),
            is_fresh(r.state.memtable, 0),
    {
        let state = LsmStorageState::create(&options);
        let compaction_controller = match options.compaction_options {
            CompactionOptions::Leveled(o) => CompactionController::Leveled(
                LeveledCompactionController::new(o),
            ),
            CompactionOptions::Tiered(o) => CompactionController::Tiered(
                TieredCompactionController::new(o),
            ),
            CompactionOptions::Simple(o) => CompactionController::Simple(
                SimpleLeveledCompactionController::new(o),
            ),
            CompactionOptions::NoCompaction => CompactionController::NoCompaction,
        };
        proof {
            lemma_fresh(state, options.num_levels() as nat);
        }
        LsmStorageInner {
            state,
            next_sst_id: 1,
            options,
            compaction_controller,
            mvcc: LsmMvccInner::new(0),
            compaction_filters: Vec::new(),
        }
    }

    /// Takes the next identifier.
    pub fn next_sst_id(&mut self) -> (r: usize)
        requires
            old(self).next_sst_id < usize::MAX,
        ensures
            r == old(self).next_sst_id,
            final(self).next_sst_id == old(self).next_sst_id + 1,
            final(self).state == old(self).state,
            final(self).mvcc == old(self).mvcc,
            final(self).same_setup(*old(self)),
    {
        let id = self.next_sst_id;
        self.next_sst_id = id + 1;
        id
    }

    pub fn mvcc(&self) -> (r: &LsmMvccInner)
        ensures
            *r == self.mvcc,
    {
        &self.mvcc
    }

    /// Hands out what the log of the current memtable has to make durable.
    pub fn sync(&mut self) -> (r: Option<Vec<u8>>)
        requires
            old(self).wf(),
        ensures
            final(self).wf(),
            final(self).content() == old(self).content(),
            final(self).same_setup(*old(self)),
            final(self).mvcc == old(self).mvcc,
            final(self).next_sst_id == old(self).next_sst_id,
            final(self).state.memtable.entries() == old(self).state.memtable.entries(),
            final(self).state.memtable.spec_id() == old(self).state.memtable.spec_id(),
            final(self).state.memtable.size() == old(self).state.memtable.size(),
            final(self).state.imm_memtables == old(self).state.imm_memtables,
            final(self).state.l0_sstables == old(self).state.l0_sstables,
            final(self).state.levels == old(self).state.levels,
            final(self).state.sstables == old(self).state.sstables,
            match old(self).state.memtable.log() {
                Some(wal) => {
                    &&& r matches Some(bytes) && bytes@ == wal.pending()
                    &&& final(self).state.memtable.log() matches Some(w) && w.pending()
                        == Seq::<u8>::empty()
                },
                None => r is None && final(self).state.memtable.log() is None,
            },
    {
        let r = self.state.memtable.sync_wal();
        assert(self.state.sources() =~= old(self).state.sources());
        r
    }

    /// Adds a filter for compactions.
    pub fn add_compaction_filter(&mut self, compaction_filter: CompactionFilter)
        ensures
            final(self).compaction_filters@ == old(self).compaction_filters@.push(
                compaction_filter,
            ),
            final(self).state == old(self).state,
            final(self).mvcc == old(self).mvcc,
            final(self).next_sst_id == old(self).next_sst_id,
            final(self).options == old(self).options,
            final(self).compaction_controller == old(self).compaction_controller,
    {
        self.compaction_filters.push(compaction_filter);
    }

    /// Whether a reader at a timestamp finds a value, or nothing, under a user key.
    pub open spec fn finds(&self, user: Seq<u8>, ts: u64, v: Option<Seq<u8>>) -> bool {
        v == lookup(self.content(), user, ts)
    }

    /// Whether entries are what a reader at a timestamp is shown of a range of user keys.
    pub open spec fn shows(
        &self,
        lower: Bound<Seq<u8>>,
        upper: Bound<Seq<u8>>,
        ts: u64,
        es: Seq<Entry>,
    ) -> bool {
        es == snapshot(from_user(self.content(), lower), ts, upper)
    }

    /// Whether there are so many memtables that one has to be flushed.
    pub open spec fn flush_due(&self) -> bool {
        self.state.imm_memtables@.len() + 1 > self.options.num_memtable_limit
    }

    /// Gets the current value of a user key.
    pub fn get(&self, key: &[u8]) -> (r: Result<Option<Vec<u8>>, Error>)
        requires
            self.wf(),
        ensures
            match r {
                Ok(v) => {
                    &&& self.finds(key@, self.mvcc.latest(), opt_view(v))
                    &&& opt_view(v) == lookup(self.content(), key@, self.mvcc.latest())
                },
                Err(_) => false,
            },
    {
        self.get_with_ts(key, self.mvcc.latest_commit_ts())
    }

    /// Gets the value of a user key that a reader at `read_ts` sees.
    pub fn get_with_ts(&self, key: &[u8], read_ts: u64) -> (r: Result<Option<Vec<u8>>, Error>)
        requires
            self.wf(),
        ensures
            match r {
                Ok(v) => {
                    &&& self.finds(key@, read_ts, opt_view(v))
                    &&& opt_view(v) == lookup(self.content(), key@, read_ts)
                },
                Err(_) => false,
            },
    {
        self.state.get_with_ts(key, read_ts)
    }

    /// Creates an iterator over the current values of a range of user keys.
    pub fn scan(&self, lower: Bound<&[u8]>, upper: Bound<&[u8]>) -> (r: Result<
        FusedIterator<LsmIterator<'_>>,
        Error,
    >)
        requires
            self.wf(),
        ensures
            match r {
                Ok(it) => {
                    &&& it.wf()
                    &&& it.reliable()
                    &&& self.shows(
                        user_bound(lower),
                        user_bound(upper),
                        self.mvcc.latest(),
                        it.remaining(),
                    )
                    &&& it.remaining() == snapshot(
                        from_user(self.content(), user_bound(lower)),
                        self.mvcc.latest(),
                        user_bound(upper),
                    )
                },
                Err(_) => false,
            },
    {
        self.scan_with_ts(lower, upper, self.mvcc.latest_commit_ts())
    }

    /// Creates an iterator over what a reader at `read_ts` sees in a range of user keys.
    pub fn scan_with_ts(&self, lower: Bound<&[u8]>, upper: Bound<&[u8]>, read_ts: u64) -> (r: Result<
        FusedIterator<LsmIterator<'_>>,
        Error,
    >)
        requires
            self.wf(),
        ensures
            match r {
                Ok(it) => {
                    &&& it.wf()
                    &&& it.reliable()
                    &&& self.shows(user_bound(lower), user_bound(upper), read_ts, it.remaining())
                    &&& it.remaining() == snapshot(
                        from_user(self.content(), user_bound(lower)),
                        read_ts,
                        user_bound(upper),
                    )
                },
                Err(_) => false,
            },
    {
        self.state.scan_with_ts(lower, upper, read_ts)
    }

    /// What an engine is after a transaction has been started.
    pub open spec fn has_begun(&self, before: LsmStorageInner, txn: Transaction) -> bool {
        &&& self.wf()
        &&& self.state == before.state
        &&& self.mvcc.reader_added(before.mvcc, before.mvcc.latest())
        &&& txn.wf()
        &&& txn.ts() == before.mvcc.latest()
        &&& txn.local() == Seq::<Entry>::empty()
        &&& !txn.is_committed()
        &&& txn.tracks() == before.options.serializable
        &&& txn.writes() == Set::<u32>::empty()
        &&& txn.reads() == Set::<u32>::empty()
    }

    /// Starts a transaction on the latest commit. Its snapshot is kept until the transaction
    /// is released.
    pub fn new_txn(&mut self) -> (r: Result<Transaction, Error>)
        requires
            old(self).wf(),
        ensures
            match r {
                Ok(txn) => {
                    &&& final(self).wf()
                    &&& final(self).has_begun(*old(self), txn)
                    &&& final(self).state == old(self).state
                    &&& final(self).next_sst_id == old(self).next_sst_id
                    &&& final(self).same_setup(*old(self))
                    &&& final(self).mvcc.reader_added(old(self).mvcc, txn.ts())
                    &&& txn.wf()
                    &&& txn.ts() == old(self).mvcc.latest()
                    &&& txn.local() == Seq::<Entry>::empty()
                    &&& !txn.is_committed()
                    &&& txn.tracks() == old(self).options.serializable
                    &&& txn.writes() == Set::<u32>::empty()
                    &&& txn.reads() == Set::<u32>::empty()
                },
                Err(e) => {
                    &&& e == Error::ReadersExhausted
                    &&& old(self).mvcc.pinned(old(self).mvcc.latest()) == usize::MAX
                    &&& *final(self) == *old(self)
                },
            },
    {
        let read_ts = self.mvcc.add_reader()?;
        Ok(Transaction::new(read_ts, self.options.serializable))
    }

    /// What the state is after entries have been put into the memtable and its log. The memtable
    /// is frozen once it is larger than a table should be.
    pub open spec fn written(&self, before: LsmStorageInner, es: Seq<Entry>) -> bool {
        let s = self.state;
        let b = before.state;
        let size = wrapped(b.memtable.size() + total_size(es));
        &&& s.l0_sstables == b.l0_sstables
        &&& s.levels == b.levels
        &&& s.sstables == b.sstables
        &&& if size > before.options.target_sst_size {
            &&& self.next_sst_id == before.next_sst_id + 1
            &&& is_fresh(s.memtable, before.next_sst_id)
            &&& s.imm_memtables@.len() > 0
            &&& has_taken(*s.imm_memtables@[0], b.memtable, es)
            &&& s.imm_memtables@.drop_first() == b.imm_memtables@
        } else {
            &&& self.next_sst_id == before.next_sst_id
            &&& has_taken(s.memtable, b.memtable, es)
            &&& s.imm_memtables == b.imm_memtables
        }
    }

    /// Writes a batch: all its changes get the next timestamp, which is returned. Of several
    /// changes of one user key the last one counts. Fails where no timestamp or no identifier
    /// for a further memtable is left.
    pub fn write_batch_inner(&mut self, batch: &[WriteBatchRecord<&[u8]>]) -> (r: Result<
        u64,
        Error,
    >)
        requires
            old(self).wf(),
        ensures
            final(self).wf(),
            final(self).same_setup(*old(self)),
            final(self).mvcc.readers() == old(self).mvcc.readers(),
            final(self).mvcc.committed() == old(self).mvcc.committed(),
            match r {
                Ok(ts) => {
                    let es = record_entries(batch@, ts);
                    &&& ts == old(self).mvcc.latest() + 1
                    &&& old(self).next_sst_id < usize::MAX
                    &&& final(self).mvcc.latest() == ts
                    &&& final(self).has_written(*old(self), es)
                    &&& final(self).content() == upsert_all(old(self).content(), es)
                    &&& final(self).written(*old(self), es)
                },
                Err(e) => {
                    &&& *final(self) == *old(self)
                    &&& if old(self).mvcc.latest() == u64::MAX {
                        e == Error::TimestampsExhausted
                    } else {
                        e == Error::IdsExhausted && old(self).next_sst_id == usize::MAX
                    }
                },
            },
    {
        let latest = self.mvcc.latest_commit_ts();
        if latest == 0xffff_ffff_ffff_ffff {
            return Err(Error::TimestampsExhausted);
        }
        if self.next_sst_id == usize::MAX {
            return Err(Error::IdsExhausted);
        }
        let ts = latest + 1;
        let ghost es = record_entries(batch@, ts);
        let mut data: Vec<(KeySlice, &[u8])> = Vec::new();
        let mut i: usize = 0;
        while i < batch.len()
            invariant
                i <= batch@.len(),
                batch_entries(data@) == record_entries(batch@, ts).take(i as int),
            decreases batch@.len() - i,
        {
            let ghost before = batch_entries(data@);
            match &batch[i] {
                WriteBatchRecord::Put(key, value) => {
                    data.push((KeySlice::from_slice(key, ts), value));
                },
                WriteBatchRecord::Del(key) => {
                    let nothing: &[u8] = &[];
                    assert(nothing@ =~= Seq::<u8>::empty());
                    data.push((KeySlice::from_slice(key, ts), nothing));
                },
            }
            proof {
                let e = record_entry(batch@[i as int], ts);
                assert(batch_entries(data@) =~= before.push(e));
                assert(record_entries(batch@, ts).take(i + 1) =~= record_entries(batch@, ts).take(
                    i as int,
                ).push(e));
            }
            i += 1;
        }
        assert(record_entries(batch@, ts).take(i as int) =~= es);
        let ghost pre = *self;
        let _ = self.state.memtable.put_batch(data.as_slice());
        self.mvcc.update_commit_ts(ts);
        proof {
            lemma_put(pre.state, self.state, es, latest);
        }
        let ghost mid = *self;
        self.check_and_freeze_if_necessary();
        proof {
            if mid.state.memtable.size() > mid.options.target_sst_size {
                assert(*self.state.imm_memtables@[0] == mid.state.memtable);
                assert(self.state.imm_memtables@.drop_first() =~= mid.state.imm_memtables@);
            }
        }
        Ok(ts)
    }

    /// Writes a batch.
    pub fn write_batch(&mut self, batch: &[WriteBatchRecord<&[u8]>]) -> (r: Result<(), Error>)
        requires
            old(self).wf(),
        ensures
            final(self).wf(),
            final(self).same_setup(*old(self)),
            final(self).mvcc.readers() == old(self).mvcc.readers(),
            final(self).mvcc.committed() == old(self).mvcc.committed(),
            match r {
                Ok(_) => {
                    let ts = final(self).mvcc.latest();
                    let es = record_entries(batch@, ts);
                    &&& ts == old(self).mvcc.latest() + 1
                    &&& old(self).next_sst_id < usize::MAX
                    &&& final(self).has_written(*old(self), es)
                    &&& final(self).content() == upsert_all(old(self).content(), es)
                    &&& final(self).written(*old(self), es)
                },
                Err(e) => {
                    &&& *final(self) == *old(self)
                    &&& if old(self).mvcc.latest() == u64::MAX {
                        e == Error::TimestampsExhausted
                    } else {
                        e == Error::IdsExhausted && old(self).next_sst_id == usize::MAX
                    }
                },
            },
    {
        match self.write_batch_inner(batch) {
            Ok(_) => Ok(()),
            Err(e) => Err(e),
        }
    }

    /// Puts a key-value pair into the storage.
    pub fn put(&mut self, key: &[u8], value: &[u8]) -> (r: Result<(), Error>)
        requires
            old(self).wf(),
        ensures
            final(self).wf(),
            final(self).same_setup(*old(self)),
            final(self).mvcc.readers() == old(self).mvcc.readers(),
            final(self).mvcc.committed() == old(self).mvcc.committed(),
            match r {
                Ok(_) => {
                    let ts = final(self).mvcc.latest();
                    let e = Entry { key: VKey { user: key@, ts }, value: value@ };
                    &&& ts == old(self).mvcc.latest() + 1
                    &&& old(self).next_sst_id < usize::MAX
                    &&& final(self).has_written(*old(self), seq![e])
                    &&& final(self).content() == upsert_all(old(self).content(), seq![e])
                    &&& final(self).written(*old(self), seq![e])
                },
                Err(e) => {
                    &&& *final(self) == *old(self)
                    &&& if old(self).mvcc.latest() == u64::MAX {
                        e == Error::TimestampsExhausted
                    } else {
                        e == Error::IdsExhausted && old(self).next_sst_id == usize::MAX
                    }
                },
            },
    {
        let batch = [WriteBatchRecord::Put(key, value)];
        let r = self.write_batch(&batch);
        proof {
            let ts = self.mvcc.latest();
            assert(record_entries(batch@, ts) =~= seq![
                Entry { key: VKey { user: key@, ts }, value: value@ },
            ]);
        }
        r
    }

    /// Removes a key from the storage by writing an empty value.
    pub fn delete(&mut self, key: &[u8]) -> (r: Result<(), Error>)
        requires
            old(self).wf(),
        ensures
            final(self).wf(),
            final(self).same_setup(*old(self)),
            final(self).mvcc.readers() == old(self).mvcc.readers(),
            final(self).mvcc.committed() == old(self).mvcc.committed(),
            match r {
                Ok(_) => {
                    let ts = final(self).mvcc.latest();
                    let e = Entry { key: VKey { user: key@, ts }, value: Seq::empty() };
                    &&& ts == old(self).mvcc.latest() + 1
                    &&& old(self).next_sst_id < usize::MAX
                    &&& final(self).has_written(*old(self), seq![e])
                    &&& final(self).content() == upsert_all(old(self).content(), seq![e])
                    &&& final(self).written(*old(self), seq![e])
                },
                Err(e) => {
                    &&& *final(self) == *old(self)
                    &&& if old(self).mvcc.latest() == u64::MAX {
                        e == Error::TimestampsExhausted
                    } else {
                        e == Error::IdsExhausted && old(self).next_sst_id == usize::MAX
                    }
                },
            },
    {
        let batch = [WriteBatchRecord::Del(key)];
        let r = self.write_batch(&batch);
        proof {
            let ts = self.mvcc.latest();
            assert(record_entries(batch@, ts) =~= seq![
                Entry { key: VKey { user: key@, ts }, value: Seq::empty() },
            ]);
        }
        r
    }

    /// Freezes the current memtable once it is larger than a table should be.
    fn check_and_freeze_if_necessary(&mut self)
        requires
            old(self).wf(),
            old(self).next_sst_id < usize::MAX,
        ensures
            final(self).wf(),
            final(self).content() == old(self).content(),
            final(self).same_setup(*old(self)),
            final(self).mvcc == old(self).mvcc,
            if old(self).state.memtable.size() > old(self).options.target_sst_size {
                final(self).frozen(*old(self))
            } else {
                *final(self) == *old(self)
            },
    {
        if self.state.memtable.approximate_size() > self.options.target_sst_size {
            self.force_freeze_memtable();
        }
    }

    /// What the state is after the memtable has been frozen.
    pub open spec fn frozen(&self, before: LsmStorageInner) -> bool {
        let s = self.state;
        let b = before.state;
        &&& s.l0_sstables == b.l0_sstables
        &&& s.levels == b.levels
        &&& s.sstables == b.sstables
        &&& self.next_sst_id == before.next_sst_id + 1
        &&& is_fresh(s.memtable, before.next_sst_id)
        &&& s.imm_memtables@ == seq![Arc::new(b.memtable)] + b.imm_memtables@
    }

    /// Freezes the current memtable and starts a new one.
    pub fn force_freeze_memtable(&mut self)
        requires
            old(self).wf(),
            old(self).next_sst_id < usize::MAX,
        ensures
            final(self).wf(),
            final(self).content() == old(self).content(),
            final(self).same_setup(*old(self)),
            final(self).mvcc == old(self).mvcc,
            final(self).frozen(*old(self)),
    {
        let id = self.next_sst_id();
        let mut memtable = MemTable::create(id);
        std::mem::swap(&mut memtable, &mut self.state.memtable);
        self.state.imm_memtables.insert(0, Arc::new(memtable));
        proof {
            assert(self.state.imm_memtables@ =~= seq![Arc::new(old(self).state.memtable)]
                + old(self).state.imm_memtables@);
            assert(mem_runs(self.state.imm_memtables@) =~= seq![old(self).state.memtable.entries()]
                + mem_runs(old(self).state.imm_memtables@));
            assert(mem_ids(self.state.imm_memtables@) =~= seq![old(self).state.memtable.spec_id()]
                + mem_ids(old(self).state.imm_memtables@));
            assert(self.state.imm_memtables@.drop_first() =~= old(self).state.imm_memtables@);
            lemma_frozen(old(self).state, self.state, id);
            assert(ids_below(self.state, self.next_sst_id)) by {
                let imm = self.state.imm_memtables@;
                let before = old(self).state.imm_memtables@;
                assert forall|i: int| 0 <= i < imm.len() implies (#[trigger] imm[i]).spec_id()
                    < self.next_sst_id by {
                    if i > 0 {
                        assert(imm[i] == before[i - 1]);
                    }
                }
            }
        }
    }

    /// Whether the earliest immutable memtable cannot be written out, with the reason.
    pub open spec fn unflushable(&self, e: Error) -> bool {
        let es = self.state.imm_memtables@.last().entries();
        &&& self.state.imm_memtables@.len() > 0
        &&& {
            ||| e == Error::TableTooLarge && all_storable(es) && !table_fits(
                self.options.block_size,
                es,
            )
            ||| e == Error::EntryTooLarge && !all_storable(es)
        }
    }

    /// Writes the earliest immutable memtable out as a table. Returns `None` where there is
    /// none. A memtable without entries becomes a table without entries. Fails where the key or
    /// the value of an entry is too long for a table, and where the table is too large.
    pub fn flush_next_imm_memtable(&self) -> (r: Result<Option<SsTable>, Error>)
        requires
            self.wf(),
        ensures
            match r {
                Ok(None) => self.state.imm_memtables@.len() == 0,
                Ok(Some(table)) => {
                    &&& self.state.imm_memtables@.len() > 0
                    &&& self.is_flushed(table)
                },
                Err(e) => self.unflushable(e),
            },
    {
        let n = self.state.imm_memtables.len();
        if n == 0 {
            return Ok(None);
        }
        let memtable = &self.state.imm_memtables[n - 1];
        assert(self.state.imm_memtables@[n - 1].wf());
        let table = memtable.flush(SsTableBuilder::new(self.options.block_size))?;
        Ok(Some(table))
    }

    /// Whether a table is what the earliest immutable memtable was written out as.
    pub open spec fn is_flushed(&self, table: SsTable) -> bool {
        let es = self.state.imm_memtables@.last().entries();
        &&& table_ok(table, self.state.imm_memtables@.last().spec_id())
        &&& table.entries() == es
        &&& table.blocks() == split_blocks(self.options.block_size, es)
    }

    /// What the state is after the earliest immutable memtable has become a table: the newest
    /// one of L0, or a tier of its own in front of the others for tiered compaction.
    pub open spec fn installed(&self, before: LsmStorageInner, table: SsTable) -> bool {
        let s = self.state;
        let b = before.state;
        let id = table.spec_id();
        &&& s.memtable == b.memtable
        &&& s.imm_memtables@ == b.imm_memtables@.drop_last()
        &&& s.sstables@ == b.sstables@.insert(id, Arc::new(table))
        &&& if before.options.compaction_options is Tiered {
            &&& s.l0_sstables == b.l0_sstables
            &&& levels_view(s.levels@) == seq![(id, seq![id])] + levels_view(b.levels@)
        } else {
            &&& s.l0_sstables@ == seq![id] + b.l0_sstables@
            &&& s.levels == b.levels
        }
    }

    /// Puts the table that the earliest immutable memtable was written out as into its place.
    pub fn install_flushed(&mut self, sst: SsTable)
        requires
            old(self).wf(),
            old(self).state.imm_memtables@.len() > 0,
            old(self).is_flushed(sst),
        ensures
            final(self).wf(),
            final(self).content() == old(self).content(),
            final(self).same_setup(*old(self)),
            final(self).mvcc == old(self).mvcc,
            final(self).next_sst_id == old(self).next_sst_id,
            final(self).installed(*old(self), sst),
    {
        broadcast use vstd::std_specs::hash::group_hash_axioms;

        let id = sst.sst_id();
        let ghost table = sst;
        match self.options.compaction_options {
            CompactionOptions::Tiered(_) => {
                self.state.imm_memtables.pop();
                let mut tier: Vec<usize> = Vec::new();
                tier.push(id);
                self.state.levels.insert(0, (id, tier));
                self.state.sstables.insert(id, Arc::new(sst));
                assert(levels_view(self.state.levels@) =~= seq![(id, seq![id])] + levels_view(
                    old(self).state.levels@,
                ));
            },
            _ => {
                self.state.imm_memtables.pop();
                self.state.l0_sstables.insert(0, id);
                self.state.sstables.insert(id, Arc::new(sst));
                assert(self.state.l0_sstables@ =~= seq![id] + old(self).state.l0_sstables@);
            },
        }
        proof {
            lemma_installed(*old(self), *self, table);
        }
    }

    /// Makes the earliest immutable memtable a table. Returns its identifier, or `None` where
    /// there is no such memtable.
    pub fn force_flush_next_imm_memtable(&mut self) -> (r: Result<Option<usize>, Error>)
        requires
            old(self).wf(),
        ensures
            final(self).wf(),
            final(self).content() == old(self).content(),
            final(self).same_setup(*old(self)),
            final(self).mvcc == old(self).mvcc,
            final(self).next_sst_id == old(self).next_sst_id,
            match r {
                Ok(None) => old(self).state.imm_memtables@.len() == 0 && *final(self) == *old(self),
                Ok(Some(id)) => {
                    &&& old(self).state.imm_memtables@.len() > 0
                    &&& id == old(self).state.imm_memtables@.last().spec_id()
                    &&& exists|table: SsTable|
                        old(self).is_flushed(table) && #[trigger] final(self).installed(
                            *old(self),
                            table,
                        )
                },
                Err(e) => *final(self) == *old(self) && old(self).unflushable(e),
            },
    {
        match self.flush_next_imm_memtable()? {
            None => Ok(None),
            Some(table) => {
                let id = table.sst_id();
                self.install_flushed(table);
                Ok(Some(id))
            },
        }
    }

    /// Flushes one memtable, if there are so many that one has to be flushed. Returns the
    /// identifier of its table.
    pub fn trigger_flush(&mut self) -> (r: Result<Option<usize>, Error>)
        requires
            old(self).wf(),
        ensures
            final(self).wf(),
            final(self).content() == old(self).content(),
            final(self).same_setup(*old(self)),
            final(self).mvcc == old(self).mvcc,
            final(self).next_sst_id == old(self).next_sst_id,
            ({
                let b = old(self).state.imm_memtables@;
                let due = b.len() + 1 > old(self).options.num_memtable_limit;
                &&& due == old(self).flush_due()
                &&& match r {
                    Ok(None) => *final(self) == *old(self) && (!due || b.len() == 0),
                    Ok(Some(id)) => {
                        &&& due
                        &&& b.len() > 0
                        &&& id == b.last().spec_id()
                        &&& exists|table: SsTable|
                            old(self).is_flushed(table) && #[trigger] final(self).installed(
                                *old(self),
                                table,
                            )
                    },
                    Err(e) => due && *final(self) == *old(self) && old(self).unflushable(e),
                }
            }),
    {
        if self.needs_flush() {
            self.force_flush_next_imm_memtable()
        } else {
            Ok(None)
        }
    }

    /// Whether this is what another engine becomes when its memtable is frozen, unless it is
    /// empty.
    pub open spec fn frozen_if_filled(&self, before: LsmStorageInner) -> bool {
        if before.state.memtable.entries().len() > 0 {
            self.frozen(before)
        } else {
            *self == before
        }
    }

    /// Freezes the current memtable, unless it is empty, and flushes the earliest immutable
    /// memtable. Returns the identifier of its table, or `None` where there is nothing to flush.
    pub fn force_flush(&mut self) -> (r: Result<Option<usize>, Error>)
        requires
            old(self).wf(),
        ensures
            final(self).wf(),
            final(self).content() == old(self).content(),
            final(self).same_setup(*old(self)),
            final(self).mvcc == old(self).mvcc,
            match r {
                Ok(None) => {
                    &&& *final(self) == *old(self)
                    &&& old(self).state.memtable.entries().len() == 0
                    &&& old(self).state.imm_memtables@.len() == 0
                },
                Ok(Some(id)) => exists|mid: LsmStorageInner, table: SsTable|
                    {
                        &&& #[trigger] mid.frozen_if_filled(*old(self))
                        &&& mid.is_flushed(table)
                        &&& id == table.spec_id()
                        &&& #[trigger] final(self).installed(mid, table)
                    },
                Err(e) => if old(self).state.memtable.entries().len() > 0 && old(self).next_sst_id
                    == usize::MAX {
                    e == Error::IdsExhausted && *final(self) == *old(self)
                } else {
                    final(self).frozen_if_filled(*old(self)) && final(self).unflushable(e)
                },
            },
    {
        if !self.state.memtable.is_empty() {
            if self.next_sst_id == usize::MAX {
                return Err(Error::IdsExhausted);
            }
            self.force_freeze_memtable();
        }
        let ghost mid = *self;
        assert(mid.frozen_if_filled(*old(self)));
        let r = self.force_flush_next_imm_memtable();
        proof {
            if old(self).state.memtable.entries().len() > 0 {
                assert(mem_runs(mid.state.imm_memtables@).len() > 0);
            }
        }
        r
    }

    /// Whether there are so many memtables that one has to be flushed.
    pub fn needs_flush(&self) -> (r: bool)
        ensures
            r == self.flush_due(),
            r == (self.state.imm_memtables@.len() + 1 > self.options.num_memtable_limit),
    {
        self.state.imm_memtables.len() >= self.options.num_memtable_limit
    }
}

/// What holds of a state without tables and entries.
proof fn lemma_fresh(s: LsmStorageState, n: nat)
    requires
        s.wf(),
        s.memtable.entries() == Seq::<Entry>::empty(),
        s.imm_memtables@.len() == 0,
        s.l0_sstables@.len() == 0,
        s.sstables@ == Map::<usize, Arc<SsTable>>::empty(),
        levels_view(s.levels@) == Seq::new(
            n,
            |i: int| ((i + 1) as usize, Seq::<usize>::empty()),
        ),
    ensures
        s.content() == Seq::<Entry>::empty(),
        stamped(s, 0),
        s.levels@.len() == n,
        mem_ids_ok(s),
{
    let ids = s.flat_ids();
    if ids.len() > 0 {
        assert(s.sstables@.contains_key(ids[0]));
    }
    let runs = s.sources();
    assert(runs =~= seq![Seq::<Entry>::empty()]);
    assert(runs.drop_first() =~= Seq::<Seq<Entry>>::empty());
    assert(merge_all(runs.drop_first()) == Seq::<Entry>::empty());
    assert(levels_view(s.levels@).len() == n);
    assert(mem_ids(s.imm_memtables@) =~= Seq::<usize>::empty());
}

/// Putting entries with the next timestamp into the memtable.
proof fn lemma_put(before: LsmStorageState, after: LsmStorageState, es: Seq<Entry>, latest: u64)
    requires
        before.wf(),
        stamped(before, latest),
        latest < u64::MAX,
        forall|i: int| 0 <= i < es.len() ==> (#[trigger] es[i]).key.ts == latest + 1,
        after.memtable.wf(),
        after.memtable.entries() == upsert_all(before.memtable.entries(), es),
        after.imm_memtables == before.imm_memtables,
        after.l0_sstables == before.l0_sstables,
        after.levels == before.levels,
        after.sstables == before.sstables,
    ensures
        after.wf(),
        after.content() == upsert_all(before.content(), es),
        stamped(after, (latest + 1) as u64),
{
    let runs = before.sources();
    before.lemma_sources();
    assert forall|i: int, x: int| #![trigger runs[i][x]] 0 < i < runs.len() && 0 <= x
        < runs[i].len() implies runs[i][x].key.ts < (latest + 1) as u64 by {
        assert(runs[i].contains(runs[i][x]));
        assert(held(runs, runs[i][x]));
    }
    assert(older_behind(runs, (latest + 1) as u64));
    lemma_write(runs, es, (latest + 1) as u64);
    assert(runs[0] == before.memtable.entries());
    assert(after.sources() =~= runs.update(0, upsert_all(runs[0], es)));
    assert forall|e: Entry| #[trigger] held(after.sources(), e) implies e.key.ts <= (latest
        + 1) as u64 by {
        let i = choose|i: int|
            0 <= i < after.sources().len() && (#[trigger] after.sources()[i]).contains(e);
        if i == 0 {
            before.memtable.lemma_wf();
            lemma_upsert_all_from(before.memtable.entries(), es, e);
            if es.contains(e) {
                let k = choose|k: int| 0 <= k < es.len() && es[k] == e;
                assert(es[k].key.ts == latest + 1);
            } else {
                assert(runs[0].contains(e));
                assert(held(runs, e));
            }
        } else {
            assert(runs[i].contains(e));
            assert(held(runs, e));
        }
    }
}

/// Freezing the memtable.
proof fn lemma_frozen(before: LsmStorageState, after: LsmStorageState, id: usize)
    requires
        before.wf(),
        mem_ids_ok(before),
        ids_below(before, id),
        after.memtable.wf(),
        after.memtable.entries() == Seq::<Entry>::empty(),
        after.memtable.spec_id() == id,
        after.imm_memtables@.len() == before.imm_memtables@.len() + 1,
        after.imm_memtables@[0] == before.memtable,
        after.imm_memtables@.drop_first() == before.imm_memtables@,
        mem_runs(after.imm_memtables@) == seq![before.memtable.entries()] + mem_runs(
            before.imm_memtables@,
        ),
        mem_ids(after.imm_memtables@) == seq![before.memtable.spec_id()] + mem_ids(
            before.imm_memtables@,
        ),
        after.l0_sstables == before.l0_sstables,
        after.levels == before.levels,
        after.sstables == before.sstables,
    ensures
        after.wf(),
        after.content() == before.content(),
        mem_ids_ok(after),
        forall|latest: u64| stamped(before, latest) ==> #[trigger] stamped(after, latest),
{
    assert(after.sources() =~= seq![Seq::<Entry>::empty()] + before.sources());
    lemma_empty_in_front(before.sources());
    assert forall|i: int| 0 <= i < after.imm_memtables@.len() implies (
    #[trigger] after.imm_memtables@[i]).wf() by {
        if i > 0 {
            assert(after.imm_memtables@[i] == before.imm_memtables@[i - 1]);
        }
    }
    let old_ids = seq![before.memtable.spec_id()] + mem_ids(before.imm_memtables@);
    let ids = seq![after.memtable.spec_id()] + mem_ids(after.imm_memtables@);
    assert(ids =~= seq![id] + old_ids);
    assert forall|i: int| 0 <= i < ids.len() implies !after.sstables@.contains_key(
        #[trigger] ids[i],
    ) && (i > 0 ==> ids[i] < id) by {
        if i > 0 {
            assert(ids[i] == old_ids[i - 1]);
            if i > 1 {
                assert(old_ids[i - 1] == before.imm_memtables@[i - 2].spec_id());
            }
        }
    }
    assert(ids.no_duplicates()) by {
        assert forall|i: int, j: int| 0 <= i < j < ids.len() implies ids[i] != ids[j] by {
            if i > 0 {
                assert(ids[i] == old_ids[i - 1] && ids[j] == old_ids[j - 1]);
            }
        }
    }
    assert forall|latest: u64| stamped(before, latest) implies #[trigger] stamped(
        after,
        latest,
    ) by {
        assert forall|e: Entry| #[trigger] held(after.sources(), e) implies e.key.ts
            <= latest by {
            assert(held(before.sources(), e));
        }
    }
}

/// Putting a flushed table into its place changes nothing that the engine holds.
pub proof fn lemma_installed(before: LsmStorageInner, after: LsmStorageInner, table: SsTable)
    requires
        before.wf(),
        before.state.imm_memtables@.len() > 0,
        before.is_flushed(table),
        after.installed(before, table),
        after.same_setup(before),
        after.mvcc == before.mvcc,
        after.next_sst_id == before.next_sst_id,
    ensures
        after.wf(),
        after.content() == before.content(),
{
    let s = after.state;
    let b = before.state;
    let id = table.spec_id();
    let m = b.sstables@;
    let m2 = s.sstables@;
    let n = b.imm_memtables@.len() - 1;
    let old_ids = seq![b.memtable.spec_id()] + mem_ids(b.imm_memtables@);
    let ids = seq![s.memtable.spec_id()] + mem_ids(s.imm_memtables@);
    assert(old_ids[n + 1] == id);
    assert(!m.contains_key(id));
    let lv = levels_view(b.levels@);
    assert(s.flat_ids() =~= seq![id] + b.flat_ids()) by {
        if before.options.compaction_options is Tiered {
            lemma_ids_in_front(lv, (id, seq![id]));
            assert(b.flat_ids() =~= ids_from(lv, 0));
            assert(s.flat_ids() =~= ids_from(levels_view(s.levels@), 0));
        } else {
            assert(levels_view(s.levels@) == lv);
        }
    }
    assert forall|i: int| 0 <= i < b.flat_ids().len() implies m2[#[trigger] b.flat_ids()[i]]
        == m[b.flat_ids()[i]] && b.flat_ids()[i] != id by {
        assert(m.contains_key(b.flat_ids()[i]));
    }
    assert(runs_at(m2, b.flat_ids()) =~= runs_at(m, b.flat_ids()));
    assert(runs_at(m2, s.flat_ids()) =~= seq![table.entries()] + runs_at(m, b.flat_ids()));
    assert(mem_runs(b.imm_memtables@) =~= mem_runs(s.imm_memtables@).push(table.entries()));
    assert(s.sources() =~= b.sources());
    assert(tables_ok(m2)) by {
        assert forall|k: usize| #[trigger] m2.contains_key(k) implies table_ok(*m2[k], k) by {
            if k != id {
                assert(m.contains_key(k));
            }
        }
    }
    assert(all_known(m2, s.flat_ids())) by {
        assert forall|i: int| 0 <= i < s.flat_ids().len() implies m2.contains_key(
            #[trigger] s.flat_ids()[i],
        ) by {
            if i > 0 {
                assert(s.flat_ids()[i] == b.flat_ids()[i - 1]);
            }
        }
    }
    assert(s.flat_ids().no_duplicates()) by {
        assert forall|i: int, j: int|
            0 <= i < j < s.flat_ids().len() implies s.flat_ids()[i] != s.flat_ids()[j] by {
            assert(s.flat_ids()[j] == b.flat_ids()[j - 1]);
            if i > 0 {
                assert(s.flat_ids()[i] == b.flat_ids()[i - 1]);
            }
        }
    }
    assert forall|i: int| 0 <= i < s.imm_memtables@.len() implies (
    #[trigger] s.imm_memtables@[i]).wf() && s.imm_memtables@[i].spec_id() < after.next_sst_id by {
        assert(s.imm_memtables@[i] == b.imm_memtables@[i]);
    }
    assert forall|i: int| 0 <= i < s.levels@.len() implies apart(
        tables_at(m2, (#[trigger] s.levels@[i]).1@),
    ) by {
        let d: int = if before.options.compaction_options is Tiered { 1 } else { 0 };
        assert(levels_view(s.levels@)[i].1 == s.levels@[i].1@);
        if i >= d {
            assert(lv[i - d].1 == b.levels@[i - d].1@);
            let list = b.levels@[i - d].1@;
            assert(s.levels@[i].1@ == list);
            let start = lemma_level_ids(lv, i - d, 0);
            assert forall|k: int| 0 <= k < list.len() implies m2[#[trigger] list[k]] == m[list[k]] by {
                let all = ids_from(lv, 0);
                assert(all.subrange(start, (start + list.len()) as int)[k] == all[start + k]);
                assert(b.flat_ids()[b.l0_sstables@.len() + start + k] == list[k]);
            }
            assert(tables_at(m2, list) =~= tables_at(m, list));
            assert(apart(tables_at(m, b.levels@[i - d].1@)));
        }
    }
    assert(mem_ids_ok(s)) by {
        assert forall|i: int| 0 <= i < ids.len() implies #[trigger] ids[i] == old_ids[i] by {}
        assert forall|i: int| 0 <= i < ids.len() implies !m2.contains_key(#[trigger] ids[i]) by {
            assert(ids[i] == old_ids[i]);
            assert(!m.contains_key(old_ids[i]));
            assert(old_ids[i] != old_ids[n + 1]);
        }
        assert(ids.no_duplicates());
    }
    assert(ids_below(s, after.next_sst_id)) by {
        assert(b.imm_memtables@[n].spec_id() < before.next_sst_id);
    }
    if before.options.compaction_options is Tiered {
        let lv2 = levels_view(s.levels@);
        assert forall|k: int| 0 <= k < s.levels@.len() implies (#[trigger] s.levels@[k]).0
            < after.next_sst_id && !ids.contains(s.levels@[k].0) by {
            assert(lv2[k].0 == s.levels@[k].0);
            let x = s.levels@[k].0;
            if k > 0 {
                assert(lv2[k] == lv[k - 1]);
                assert(lv[k - 1].0 == b.levels@[k - 1].0);
                assert(!old_ids.contains(b.levels@[k - 1].0));
            }
            if ids.contains(x) {
                let i = choose|i: int| 0 <= i < ids.len() && ids[i] == x;
                assert(old_ids[i] == x);
                assert(old_ids[i] != old_ids[n + 1]);
            }
            assert(b.imm_memtables@[n].spec_id() < before.next_sst_id);
        }
    } else {
        assert(s.levels@.len() == b.levels@.len());
    }
}

/// The identifiers of levels with one more in front.
proof fn lemma_ids_in_front(lv: Seq<(usize, Seq<usize>)>, level: (usize, Seq<usize>))
    ensures
        ids_from(seq![level] + lv, 0) == level.1 + ids_from(lv, 0),
{
    lemma_ids_shift(lv, level, 0);
}

proof fn lemma_ids_shift(lv: Seq<(usize, Seq<usize>)>, level: (usize, Seq<usize>), i: int)
    requires
        0 <= i <= lv.len(),
    ensures
        ids_from(seq![level] + lv, i + 1) == ids_from(lv, i),
    decreases lv.len() - i,
{
    if i < lv.len() {
        lemma_ids_shift(lv, level, i + 1);
        assert((seq![level] + lv)[i + 1] == lv[i]);
    }
}

} // verus!
