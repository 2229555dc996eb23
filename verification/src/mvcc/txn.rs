//! Transactions.
use vstd::prelude::*;
use std::ops::Bound;
use crate::bound::{above, below, in_range, lemma_filter_subrange, slice_bound};
use crate::codec::copy_range;
use crate::entry::{lemma_sorted_skip, sorted, Entry};
use crate::error::Error;
use crate::hash::{conflict_hash, hash_for_conflicts};
use crate::iterators::two_merge_iterator::TwoMergeIterator;
use crate::iterators::StorageIterator;
use crate::key::{KeySlice, KeyVec, VKey, TS_DEFAULT};
use crate::lsm_iterator::{user_bound, FusedIterator, LsmIterator};
use crate::lsm_storage::scan::from_user;
use crate::lsm_storage::state::opt_view;
use crate::lsm_storage::{record_entries, LsmStorageInner, WriteBatchRecord};
use crate::mem_table::{default_bound, lemma_unbounded, with_default_ts, MemTableIterator};
use crate::merge::merge2;
use crate::mvcc::key_set::KeySet;
use crate::mvcc::{CommittedTxnData, LsmMvccInner};
use crate::snapshot::{
    lemma_filter_agree, lemma_filter_append, lemma_filter_contains, lemma_filter_sorted, lookup,
    snapshot, user_above, user_below,
};
use crate::version_map::{lemma_upsert, upsert, upsert_all, value_of, VersionMap};
use crate::wal::item_entries;
use crate::sources::lemma_upsert_contains;

verus! {

/// Whether no entry has a version.
pub open spec fn unstamped(es: Seq<Entry>) -> bool {
    forall|i: int| 0 <= i < es.len() ==> (#[trigger] es[i]).key.ts == TS_DEFAULT
}

/// The key under which a transaction keeps what it writes to a user key.
pub open spec fn local_key(user: Seq<u8>) -> VKey {
    VKey { user, ts: TS_DEFAULT }
}

/// What a transaction that wrote `local` finds under a user key: what it wrote there itself, and
/// otherwise what its snapshot holds.
pub open spec fn txn_lookup(
    local: Seq<Entry>,
    content: Seq<Entry>,
    user: Seq<u8>,
    read_ts: u64,
) -> Option<Seq<u8>> {
    match value_of(local, local_key(user)) {
        Some(v) => if v.len() > 0 {
            Some(v)
        } else {
            None
        },
        None => lookup(content, user, read_ts),
    }
}

/// What the writes of a transaction become with its commit timestamp.
pub open spec fn commit_entries(local: Seq<Entry>, ts: u64) -> Seq<Entry> {
    Seq::new(
        local.len(),
        |i: int| Entry { key: VKey { user: local[i].key.user, ts }, value: local[i].value },
    )
}

/// The entries whose user keys lie in a range.
pub open spec fn in_user_range(
    es: Seq<Entry>,
    lower: Bound<Seq<u8>>,
    upper: Bound<Seq<u8>>,
) -> Seq<Entry> {
    es.filter(|e: Entry| user_above(lower, e.key.user) && user_below(upper, e.key.user))
}

/// Whether a set holds exactly the hashes of the user keys of some entries.
pub open spec fn hashes_of(es: Seq<Entry>, hashes: Set<u32>) -> bool {
    &&& forall|i: int|
        0 <= i < es.len() ==> hashes.contains(conflict_hash((#[trigger] es[i]).key.user))
    &&& forall|h: u32| #[trigger]
        hashes.contains(h) ==> exists|i: int|
            0 <= i < es.len() && conflict_hash((#[trigger] es[i]).key.user) == h
}

/// A transaction. It reads the snapshot that it was started at and its own writes, which
/// become visible to others when it commits.
pub struct Transaction {
    read_ts: u64,
    local_storage: VersionMap,
    committed: bool,
    /// Write set and read set.
    key_hashes: Option<(KeySet, KeySet)>,
}

impl Transaction {
    /// The timestamp of the snapshot.
    pub closed spec fn ts(&self) -> u64 {
        self.read_ts
    }

    /// The writes of the transaction, one for each user key.
    pub closed spec fn local(&self) -> Seq<Entry> {
        self.local_storage.entries()
    }

    pub closed spec fn is_committed(&self) -> bool {
        self.committed
    }

    /// Whether the transaction notes the keys that it reads and writes.
    pub closed spec fn tracks(&self) -> bool {
        self.key_hashes is Some
    }

    /// The hashes of the keys that it wrote.
    pub closed spec fn writes(&self) -> Set<u32> {
        match self.key_hashes {
            Some(sets) => sets.0@,
            None => Set::empty(),
        }
    }

    /// The hashes of the keys that it read.
    pub closed spec fn reads(&self) -> Set<u32> {
        match self.key_hashes {
            Some(sets) => sets.1@,
            None => Set::empty(),
        }
    }

    pub closed spec fn wf(&self) -> bool {
        &&& self.local_storage.wf()
        &&& unstamped(self.local())
        &&& self.tracks() ==> hashes_of(self.local(), self.writes())
    }

    pub proof fn lemma_wf(&self)
        requires
            self.wf(),
        ensures
            sorted(self.local()),
            unstamped(self.local()),
            self.tracks() ==> hashes_of(self.local(), self.writes()),
    {
        self.local_storage.lemma_wf();
    }

    /// Whether two transactions differ at most in what they read.
    pub open spec fn same_but_reads(&self, other: Transaction) -> bool {
        &&& self.ts() == other.ts()
        &&& self.local() == other.local()
        &&& self.is_committed() == other.is_committed()
        &&& self.tracks() == other.tracks()
        &&& self.writes() == other.writes()
    }

    /// Whether the transaction finds a value, or nothing, under a user key.
    pub open spec fn finds(
        &self,
        storage: LsmStorageInner,
        user: Seq<u8>,
        v: Option<Seq<u8>>,
    ) -> bool {
        v == txn_lookup(self.local(), storage.content(), user, self.ts())
    }

    /// Whether entries are what the transaction is shown of a range of user keys.
    pub open spec fn shows(
        &self,
        storage: LsmStorageInner,
        lower: Bound<Seq<u8>>,
        upper: Bound<Seq<u8>>,
        es: Seq<Entry>,
    ) -> bool {
        es == shown(self.merged(storage.content(), lower, upper))
    }

    /// What a transaction is after it has read a user key.
    pub open spec fn has_read(&self, before: Transaction, user: Seq<u8>) -> bool {
        &&& self.same_but_reads(before)
        &&& self.reads() == if before.tracks() {
            before.reads().insert(conflict_hash(user))
        } else {
            before.reads()
        }
    }

    /// What a transaction is after it has written a value under a user key.
    pub open spec fn has_put(&self, before: Transaction, user: Seq<u8>, value: Seq<u8>) -> bool {
        &&& self.ts() == before.ts()
        &&& self.is_committed() == before.is_committed()
        &&& self.tracks() == before.tracks()
        &&& self.reads() == before.reads()
        &&& self.local() == upsert(before.local(), Entry { key: local_key(user), value })
        &&& self.writes() == if before.tracks() {
            before.writes().insert(conflict_hash(user))
        } else {
            before.writes()
        }
    }

    /// Starts a transaction on a snapshot.
    pub fn new(read_ts: u64, serializable: bool) -> (r: Transaction)
        ensures
            r.wf(),
            r.ts() == read_ts,
            r.local() == Seq::<Entry>::empty(),
            !r.is_committed(),
            r.tracks() == serializable,
            r.writes() == Set::<u32>::empty(),
            r.reads() == Set::<u32>::empty(),
    {
        let key_hashes = if serializable {
            Some((KeySet::new(), KeySet::new()))
        } else {
            None
        };
        Transaction { read_ts, local_storage: VersionMap::new(), committed: false, key_hashes }
    }

    pub fn read_ts(&self) -> (r: u64)
        ensures
            r == self.ts(),
    {
        self.read_ts
    }

    pub fn has_committed(&self) -> (r: bool)
        ensures
            r == self.is_committed(),
    {
        self.committed
    }

    /// Notes that a key was read.
    fn note_read(&mut self, key: &[u8])
        requires
            old(self).wf(),
        ensures
            final(self).wf(),
            final(self).same_but_reads(*old(self)),
            final(self).reads() == if old(self).tracks() {
                old(self).reads().insert(conflict_hash(key@))
            } else {
                old(self).reads()
            },
    {
        if let Some(sets) = &mut self.key_hashes {
            sets.1.insert(hash_for_conflicts(key));
        }
    }

    /// Gets the value of a user key: the one that the transaction wrote itself, or the one of
    /// its snapshot.
    pub fn get(&mut self, storage: &LsmStorageInner, key: &[u8]) -> (r: Result<
        Option<Vec<u8>>,
        Error,
    >)
        requires
            old(self).wf(),
            storage.wf(),
        ensures
            final(self).wf(),
            final(self).same_but_reads(*old(self)),
            final(self).has_read(*old(self), key@),
            match r {
                Ok(v) => {
                    &&& old(self).finds(*storage, key@, opt_view(v))
                    &&& opt_view(v) == txn_lookup(
                        old(self).local(),
                        storage.content(),
                        key@,
                        old(self).ts(),
                    )
                    &&& final(self).reads() == if old(self).tracks() {
                        old(self).reads().insert(conflict_hash(key@))
                    } else {
                        old(self).reads()
                    }
                },
                Err(_) => false,
            },
    {
        self.note_read(key);
        if let Some(v) = self.local_storage.get(KeySlice::from_slice(key, TS_DEFAULT)) {
            if v.len() == 0 {
                return Ok(None);
            }
            return Ok(Some(v));
        }
        storage.get_with_ts(key, self.read_ts)
    }

    /// Writes a value. Nobody else sees it before the commit.
    pub fn put(&mut self, key: &[u8], value: &[u8])
        requires
            old(self).wf(),
            !old(self).is_committed(),
        ensures
            final(self).wf(),
            final(self).has_put(*old(self), key@, value@),
            final(self).ts() == old(self).ts(),
            final(self).is_committed() == old(self).is_committed(),
            final(self).tracks() == old(self).tracks(),
            final(self).reads() == old(self).reads(),
            final(self).local() == upsert(
                old(self).local(),
                Entry { key: local_key(key@), value: value@ },
            ),
            final(self).writes() == if old(self).tracks() {
                old(self).writes().insert(conflict_hash(key@))
            } else {
                old(self).writes()
            },
    {
        let ghost e = Entry { key: local_key(key@), value: value@ };
        self.local_storage.insert(KeySlice::from_slice(key, TS_DEFAULT), value);
        if let Some(sets) = &mut self.key_hashes {
            sets.0.insert(hash_for_conflicts(key));
        }
        proof {
            old(self).lemma_wf();
            lemma_written(old(self).local(), e);
            if self.tracks() {
                lemma_hashes(old(self).local(), e, old(self).writes());
            }
        }
    }

    /// Deletes a user key by writing an empty value.
    pub fn delete(&mut self, key: &[u8])
        requires
            old(self).wf(),
            !old(self).is_committed(),
        ensures
            final(self).wf(),
            final(self).has_put(*old(self), key@, Seq::empty()),
            final(self).ts() == old(self).ts(),
            final(self).is_committed() == old(self).is_committed(),
            final(self).tracks() == old(self).tracks(),
            final(self).reads() == old(self).reads(),
            final(self).local() == upsert(
                old(self).local(),
                Entry { key: local_key(key@), value: Seq::empty() },
            ),
            final(self).writes() == if old(self).tracks() {
                old(self).writes().insert(conflict_hash(key@))
            } else {
                old(self).writes()
            },
    {
        let nothing: &[u8] = &[];
        assert(nothing@ =~= Seq::<u8>::empty());
        self.put(key, nothing);
    }

    /// Whether no transaction that committed after the snapshot wrote a key that this one
    /// read.
    fn validate_commit(&self, mvcc: &LsmMvccInner) -> (r: bool)
        requires
            mvcc.wf(),
            self.tracks(),
        ensures
            r == !mvcc.conflicts(self.ts(), self.reads()),
    {
        match &self.key_hashes {
            Some(sets) => !mvcc.has_conflict(self.read_ts, &sets.1),
            None => true,
        }
    }

    /// Whether the transaction may not commit, because another one that committed since has
    /// written a key that this one read.
    pub open spec fn is_refused(&self, storage: LsmStorageInner) -> bool {
        &&& storage.options.serializable
        &&& self.writes() != Set::<u32>::empty()
        &&& storage.mvcc.conflicts(self.ts(), self.reads())
    }

    /// Writes what the transaction wrote into the storage, all with one new timestamp.
    pub fn commit(&mut self, storage: &mut LsmStorageInner) -> (r: Result<(), Error>)
        requires
            old(self).wf(),
            old(storage).wf(),
            old(storage).options.serializable ==> old(self).tracks(),
        ensures
            final(self).wf(),
            final(storage).wf(),
            final(self).is_committed(),
            final(self).ts() == old(self).ts(),
            final(self).local() == old(self).local(),
            final(self).tracks() == old(self).tracks(),
            final(self).writes() == old(self).writes(),
            final(self).reads() == old(self).reads(),
            final(storage).same_setup(*old(storage)),
            final(storage).mvcc.readers() == old(storage).mvcc.readers(),
            match r {
                Ok(_) => {
                    let ts = final(storage).mvcc.latest();
                    let es = commit_entries(old(self).local(), ts);
                    &&& !old(self).is_committed()
                    &&& !old(self).is_refused(*old(storage))
                    &&& ts == old(storage).mvcc.latest() + 1
                    &&& old(storage).next_sst_id < usize::MAX
                    &&& final(storage).has_written(*old(storage), es)
                    &&& final(storage).content() == upsert_all(old(storage).content(), es)
                    &&& final(storage).written(*old(storage), es)
                    &&& old(self).remembered(
                        old(storage).mvcc.committed(),
                        final(storage).mvcc.committed(),
                        old(storage).options.serializable,
                        ts,
                    )
                },
                Err(e) => {
                    &&& *final(storage) == *old(storage)
                    &&& if old(self).is_committed() {
                        e == Error::AlreadyCommitted
                    } else if old(self).is_refused(*old(storage)) {
                        e == Error::Conflict
                    } else if old(storage).mvcc.latest() == u64::MAX {
                        e == Error::TimestampsExhausted
                    } else {
                        e == Error::IdsExhausted && old(storage).next_sst_id == usize::MAX
                    }
                },
            },
    {
        if self.committed {
            return Err(Error::AlreadyCommitted);
        }
        self.committed = true;
        if let Some(sets) = &self.key_hashes {
            if !sets.0.is_empty() && storage.options.serializable && !self.validate_commit(
                &storage.mvcc,
            ) {
                return Err(Error::Conflict);
            }
        }
        let items = collect_range(&self.local_storage, Bound::Unbounded, Bound::Unbounded);
        proof {
            old(self).lemma_wf();
            lemma_unbounded(self.local());
        }
        let mut records: Vec<WriteBatchRecord<&[u8]>> = Vec::new();
        let mut i: usize = 0;
        while i < items.len()
            invariant
                i <= items@.len(),
                records@.len() == i,
                forall|ts: u64| #[trigger]
                    record_entries(records@, ts) == commit_entries(item_entries(items@), ts).take(
                        i as int,
                    ),
            decreases items@.len() - i,
        {
            let key = items[i].0.key.as_slice();
            let value = items[i].1.as_slice();
            let ghost before = records@;
            if value.len() == 0 {
                records.push(WriteBatchRecord::Del(key));
            } else {
                records.push(WriteBatchRecord::Put(key, value));
            }
            proof {
                assert forall|ts: u64| #[trigger] record_entries(records@, ts) == commit_entries(
                    item_entries(items@),
                    ts,
                ).take(i + 1) by {
                    let c = commit_entries(item_entries(items@), ts);
                    assert(record_entries(before, ts) == c.take(i as int));
                    assert(value@.len() == 0 ==> value@ =~= Seq::<u8>::empty());
                    assert(record_entries(records@, ts) =~= record_entries(before, ts).push(
                        c[i as int],
                    ));
                    assert(c.take(i + 1) =~= c.take(i as int).push(c[i as int]));
                }
            }
            i += 1;
        }
        proof {
            assert forall|ts: u64| #[trigger] record_entries(records@, ts) == commit_entries(
                self.local(),
                ts,
            ) by {
                let c = commit_entries(item_entries(items@), ts);
                assert(c.take(items@.len() as int) =~= c);
            }
        }
        let commit_ts = storage.write_batch_inner(records.as_slice())?;
        if storage.options.serializable {
            if let Some(sets) = &self.key_hashes {
                storage.mvcc.remember(
                    CommittedTxnData {
                        key_hashes: sets.0.copied(),
                        read_ts: self.read_ts,
                        commit_ts,
                    },
                );
                assert(storage.mvcc.committed().drop_last() =~= old(storage).mvcc.committed());
            }
        }
        Ok(())
    }

    /// Whether a commit at `ts` has been added to the remembered ones, if it has to be.
    pub open spec fn remembered(
        &self,
        before: Seq<CommittedTxnData>,
        after: Seq<CommittedTxnData>,
        serializable: bool,
        ts: u64,
    ) -> bool {
        if serializable {
            &&& after.len() == before.len() + 1
            &&& after.drop_last() == before
            &&& after.last().commit_ts == ts
            &&& after.last().read_ts == self.ts()
            &&& after.last().key_hashes@ == self.writes()
        } else {
            after == before
        }
    }
}

/// Copies the entries between two bounds.
fn collect_range(map: &VersionMap, lower: Bound<KeySlice>, upper: Bound<KeySlice>) -> (r: Vec<
    (KeyVec, Vec<u8>),
>)
    requires
        map.wf(),
    ensures
        item_entries(r@) == in_range(map.entries(), slice_bound(lower), slice_bound(upper)),
{
    let mut items: Vec<(KeyVec, Vec<u8>)> = Vec::new();
    let mut iter = MemTableIterator::over(map, lower, upper);
    let ghost all = in_range(map.entries(), slice_bound(lower), slice_bound(upper));
    assert(item_entries(items@) + iter.remaining() =~= all);
    while iter.is_valid()
        invariant
            iter.wf(),
            item_entries(items@) + iter.remaining() == all,
        decreases iter.remaining().len(),
    {
        let ghost before = item_entries(items@);
        let ghost m = iter.remaining();
        let key = iter.key();
        let value = iter.value();
        let copy = copy_range(value, 0, value.len());
        assert(copy@ =~= m[0].value);
        items.push((key.to_key_vec(), copy));
        let _ = iter.next();
        proof {
            assert(item_entries(items@) =~= before.push(m[0]));
            assert(before + m =~= before.push(m[0]) + m.drop_first());
        }
    }
    assert(item_entries(items@) + iter.remaining() =~= item_entries(items@));
    items
}

/// Writing keeps the writes of a transaction sorted and without versions.
proof fn lemma_written(local: Seq<Entry>, e: Entry)
    requires
        sorted(local),
        unstamped(local),
        e.key.ts == TS_DEFAULT,
    ensures
        sorted(upsert(local, e)),
        unstamped(upsert(local, e)),
{
    lemma_upsert(local, e);
}

proof fn lemma_hashes(local: Seq<Entry>, e: Entry, hashes: Set<u32>)
    requires
        sorted(local),
        hashes_of(local, hashes),
    ensures
        hashes_of(upsert(local, e), hashes.insert(conflict_hash(e.key.user))),
{
    let t = upsert(local, e);
    let more = hashes.insert(conflict_hash(e.key.user));
    lemma_upsert(local, e);
    assert forall|h: u32| #[trigger] more.contains(h) implies exists|i: int|
        0 <= i < t.len() && conflict_hash((#[trigger] t[i]).key.user) == h by {
        lemma_upsert_contains(local, e);
        if h == conflict_hash(e.key.user) {
            assert(t.contains(e));
            let i = choose|i: int| 0 <= i < t.len() && t[i] == e;
            assert(conflict_hash(t[i].key.user) == h);
        } else {
            let j = choose|j: int|
                0 <= j < local.len() && conflict_hash((#[trigger] local[j]).key.user) == h;
            assert(local.contains(local[j]));
            assert(t.contains(local[j]));
            let i = choose|i: int| 0 <= i < t.len() && t[i] == local[j];
            assert(conflict_hash(t[i].key.user) == h);
        }
    }
}

/// An iterator over the writes of a transaction in a range of user keys.
pub struct TxnLocalIterator {
    items: Vec<(KeyVec, Vec<u8>)>,
    pos: usize,
}

impl TxnLocalIterator {
    pub closed spec fn inv(&self) -> bool {
        &&& self.pos <= self.items@.len()
        &&& sorted(item_entries(self.items@))
    }

    /// Creates an iterator over the writes between two bounds.
    fn create(map: &VersionMap, lower: Bound<&[u8]>, upper: Bound<&[u8]>) -> (r: TxnLocalIterator)
        requires
            map.wf(),
            unstamped(map.entries()),
        ensures
            r.wf(),
            r.remaining() == in_user_range(map.entries(), user_bound(lower), user_bound(upper)),
    {
        let items = collect_range(map, with_default_ts(lower), with_default_ts(upper));
        proof {
            let es = map.entries();
            let lo = default_bound(lower);
            let hi = default_bound(upper);
            map.lemma_wf();
            let p = |e: Entry| above(lo, e.key) && below(hi, e.key);
            let q = |e: Entry|
                user_above(user_bound(lower), e.key.user) && user_below(
                    user_bound(upper),
                    e.key.user,
                );
            lemma_filter_sorted(es, p);
            lemma_filter_agree(es, p, q);
            assert(item_entries(items@).skip(0) =~= item_entries(items@));
        }
        TxnLocalIterator { items, pos: 0 }
    }
}

impl StorageIterator for TxnLocalIterator {
    open spec fn wf(&self) -> bool {
        self.inv()
    }

    closed spec fn remaining(&self) -> Seq<Entry> {
        item_entries(self.items@).skip(self.pos as int)
    }

    open spec fn can_next(&self) -> bool {
        true
    }

    open spec fn reliable(&self) -> bool {
        true
    }

    proof fn lemma_wf(&self) {
        lemma_sorted_skip(item_entries(self.items@), self.pos as int);
    }

    fn key(&self) -> (r: KeySlice<'_>) {
        self.items[self.pos].0.as_key_slice()
    }

    fn value(&self) -> (r: &[u8]) {
        self.items[self.pos].1.as_slice()
    }

    fn is_valid(&self) -> (r: bool) {
        self.pos < self.items.len()
    }

    fn next(&mut self) -> (r: Result<(), Error>)
        ensures
            r is Ok,
    {
        let ghost es = item_entries(self.items@);
        if self.pos < self.items.len() {
            assert(es.skip(self.pos as int).drop_first() =~= es.skip(self.pos + 1));
            self.pos = self.pos + 1;
        }
        Ok(())
    }

    open spec fn active(&self) -> nat {
        1
    }

    fn num_active_iterators(&self) -> (r: usize) {
        1
    }
}

/// The merge that an iterator of a transaction runs on: its own writes in front of the
/// snapshot.
pub type TxnMerge<'a> = TwoMergeIterator<TxnLocalIterator, FusedIterator<LsmIterator<'a>>>;

/// What an iterator of a transaction shows of the merged entries: all but the deletions.
pub open spec fn shown(m: Seq<Entry>) -> Seq<Entry> {
    m.filter(|e: Entry| e.value.len() > 0)
}

/// What is shown are some of the merged entries, in key order: the first one, unless it is a
/// deletion, and what is shown of the others.
pub proof fn lemma_shown(m: Seq<Entry>)
    requires
        sorted(m),
    ensures
        sorted(shown(m)),
        forall|e: Entry| #[trigger] shown(m).contains(e) <==> m.contains(e) && e.value.len() > 0,
        m.len() == 0 ==> shown(m) == Seq::<Entry>::empty(),
        m.len() > 0 ==> shown(m) == if m[0].value.len() > 0 {
            seq![m[0]] + shown(m.drop_first())
        } else {
            shown(m.drop_first())
        },
{
    let p = |e: Entry| e.value.len() > 0;
    lemma_filter_sorted(m, p);
    assert forall|e: Entry| #[trigger] shown(m).contains(e) <==> m.contains(e) && e.value.len()
        > 0 by {
        lemma_filter_contains(m, p, e);
    }
    if m.len() > 0 {
        let one = seq![m[0]];
        let t = m.drop_first();
        assert(m =~= one + t);
        lemma_filter_append(one, t, p);
        if p(m[0]) {
            lemma_filter_subrange(one, p, 0, 1);
            assert(one.subrange(0, 1) =~= one);
        } else {
            lemma_filter_subrange(one, p, 0, 0);
            assert(one.subrange(0, 0) + t.filter(p) =~= t.filter(p));
        }
    } else {
        lemma_filter_subrange(m, p, 0, 0);
        assert(m.subrange(0, 0) =~= Seq::<Entry>::empty());
    }
}

/// An iterator over what a transaction sees. It owns the transaction and notes every key that
/// it shows as read.
pub struct TxnIterator<'a> {
    txn: Transaction,
    iter: TxnMerge<'a>,
}

impl<'a> TxnIterator<'a> {
    /// The transaction, with all that has been read so far.
    pub closed spec fn transaction(&self) -> Transaction {
        self.txn
    }

    pub closed spec fn merged(&self) -> Seq<Entry> {
        self.iter.remaining()
    }

    pub closed spec fn inv(&self) -> bool {
        &&& self.txn.wf()
        &&& self.iter.wf()
        &&& self.merged().len() > 0 ==> self.merged()[0].value.len() > 0
    }

    /// Whether no step of the merge can fail.
    pub closed spec fn steady(&self) -> bool {
        self.iter.reliable()
    }

    /// What has been read once the iterator stands on the first of some entries.
    pub open spec fn noted(txn: Transaction, es: Seq<Entry>) -> Set<u32> {
        if txn.tracks() && es.len() > 0 {
            txn.reads().insert(conflict_hash(es[0].key.user))
        } else {
            txn.reads()
        }
    }

    /// A step of a scan takes nothing out of the read set, and puts the key that is then shown
    /// into it and nothing else.
    pub proof fn lemma_noted(txn: Transaction, es: Seq<Entry>)
        ensures
            txn.reads().subset_of(Self::noted(txn, es)),
            txn.tracks() && es.len() > 0 ==> Self::noted(txn, es).contains(
                conflict_hash(es[0].key.user),
            ),
            forall|h: u32| #[trigger]
                Self::noted(txn, es).contains(h) ==> txn.reads().contains(h) || (txn.tracks()
                    && es.len() > 0 && h == conflict_hash(es[0].key.user)),
    {
    }

    /// A scan that shows some entries one after the other: `txns[0]` is the transaction before the
    /// scan, and `txns[k + 1]` the one while the iterator stands on the `k`-th entry, or behind
    /// the last one. What was read before the scan stays read, every key that was shown is read,
    /// and nothing else is.
    pub proof fn lemma_scan_reads(txns: Seq<Transaction>, es: Seq<Entry>)
        requires
            txns.len() > 0,
            txns.len() <= es.len() + 2,
            forall|k: int|
                #![trigger txns[k + 1]]
                0 <= k && k + 1 < txns.len() ==> {
                    &&& txns[k + 1].tracks() == txns[k].tracks()
                    &&& txns[k + 1].reads() == Self::noted(txns[k], es.skip(k))
                },
        ensures
            txns[0].reads().subset_of(txns.last().reads()),
            txns[0].tracks() ==> forall|j: int|
                0 <= j < es.len() && j + 1 < txns.len() ==> txns.last().reads().contains(
                    conflict_hash((#[trigger] es[j]).key.user),
                ),
            forall|h: u32| #[trigger]
                txns.last().reads().contains(h) ==> txns[0].reads().contains(h) || exists|j: int|
                    0 <= j < es.len() && j + 1 < txns.len() && conflict_hash(
                        (#[trigger] es[j]).key.user,
                    ) == h,
            txns.last().tracks() == txns[0].tracks(),
        decreases txns.len(),
    {
        if txns.len() > 1 {
            let init = txns.drop_last();
            let n = txns.len() - 2;
            assert forall|k: int|
                #![trigger init[k + 1]]
                0 <= k && k + 1 < init.len() implies init[k + 1].tracks() == init[k].tracks()
                && init[k + 1].reads() == Self::noted(init[k], es.skip(k)) by {
                assert(init[k + 1] == txns[k + 1]);
            }
            Self::lemma_scan_reads(init, es);
            assert(txns[n + 1] == txns.last());
            let here = es.skip(n);
            Self::lemma_noted(txns[n], here);
            if n < es.len() {
                assert(here[0] == es[n]);
            }
            assert(init.last() == txns[n]);
            assert forall|h: u32| #[trigger]
                txns.last().reads().contains(h) implies txns[0].reads().contains(h) || exists|
                j: int,
            |
                0 <= j < es.len() && j + 1 < txns.len() && conflict_hash(
                    (#[trigger] es[j]).key.user,
                ) == h by {
                if init.last().reads().contains(h) {
                    if !txns[0].reads().contains(h) {
                        let j = choose|j: int|
                            0 <= j < es.len() && j + 1 < init.len() && conflict_hash(
                                (#[trigger] es[j]).key.user,
                            ) == h;
                        assert(conflict_hash(es[j].key.user) == h);
                    }
                } else {
                    assert(conflict_hash(es[n].key.user) == h);
                }
            }
        }
    }

    /// Creates an iterator over what a transaction sees of the merge of its own writes and its
    /// snapshot. Where that fails, the transaction is given back.
    pub fn create(txn: Transaction, iter: TxnMerge<'a>) -> (r: Result<
        TxnIterator<'a>,
        (Transaction, Error),
    >)
        requires
            txn.wf(),
            iter.wf(),
        ensures
            match r {
                Ok(it) => {
                    &&& it.wf()
                    &&& it.remaining() == shown(iter.remaining())
                    &&& it.transaction().wf()
                    &&& it.transaction().same_but_reads(txn)
                    &&& it.transaction().reads() == Self::noted(txn, shown(iter.remaining()))
                    &&& txn.reads().subset_of(it.transaction().reads())
                    &&& txn.tracks() && it.remaining().len() > 0
                        ==> it.transaction().reads().contains(
                        conflict_hash(it.remaining()[0].key.user),
                    )
                    &&& iter.reliable() ==> it.reliable()
                },
                Err((t, _)) => t == txn && !iter.reliable(),
            },
    {
        let ghost m = iter.remaining();
        let mut obj = TxnIterator { txn, iter };
        match obj.advance_to_visible_key() {
            Ok(_) => {},
            Err(e) => {
                return Err((obj.txn, e));
            },
        }
        proof {
            obj.lemma_head();
        }
        obj.add_visible_key_to_readset();
        Ok(obj)
    }

    /// The iterator shows the entry that the merge stands on, if it stands on one.
    proof fn lemma_head(&self)
        requires
            self.inv(),
        ensures
            sorted(self.merged()),
            self.remaining() == shown(self.merged()),
            self.merged().len() > 0 <==> self.remaining().len() > 0,
            self.merged().len() > 0 ==> {
                &&& self.remaining()[0] == self.merged()[0]
                &&& self.remaining().drop_first() == shown(self.merged().drop_first())
            },
    {
        let m = self.merged();
        self.iter.lemma_wf();
        lemma_shown(m);
        if m.len() > 0 {
            assert((seq![m[0]] + shown(m.drop_first())).drop_first() =~= shown(m.drop_first()));
        }
    }

    /// Ends the iteration and gives the transaction back.
    pub fn finish(self) -> (r: Transaction)
        ensures
            r == self.transaction(),
    {
        self.txn
    }

    fn add_visible_key_to_readset(&mut self)
        requires
            old(self).wf(),
        ensures
            final(self).wf(),
            final(self).iter == old(self).iter,
            final(self).txn.wf(),
            final(self).txn.same_but_reads(old(self).txn),
            final(self).txn.reads() == Self::noted(old(self).txn, old(self).merged()),
    {
        if self.iter.is_valid() {
            let key = self.iter.key();
            self.txn.note_read(key.key_ref());
        }
    }

    /// Moves the merge past the deletions that it stands on.
    fn advance_to_visible_key(&mut self) -> (r: Result<(), Error>)
        requires
            old(self).txn.wf(),
            old(self).iter.wf(),
        ensures
            final(self).txn == old(self).txn,
            old(self).iter.reliable() ==> r is Ok && final(self).iter.reliable(),
            r is Ok ==> {
                &&& final(self).inv()
                &&& shown(final(self).merged()) == shown(old(self).merged())
            },
    {
        while self.iter.is_valid() && self.iter.value().len() == 0
            invariant
                self.iter.wf(),
                self.txn == old(self).txn,
                old(self).iter.reliable() ==> self.iter.reliable(),
                shown(self.iter.remaining()) == shown(old(self).iter.remaining()),
            decreases self.iter.remaining().len(),
        {
            proof {
                self.iter.lemma_wf();
                lemma_shown(self.iter.remaining());
            }
            self.iter.next()?;
        }
        Ok(())
    }
}

impl<'a> StorageIterator for TxnIterator<'a> {
    open spec fn wf(&self) -> bool {
        self.inv()
    }

    closed spec fn remaining(&self) -> Seq<Entry> {
        shown(self.iter.remaining())
    }

    open spec fn can_next(&self) -> bool {
        true
    }

    open spec fn reliable(&self) -> bool {
        self.steady()
    }

    proof fn lemma_wf(&self) {
        self.iter.lemma_wf();
        lemma_shown(self.iter.remaining());
    }

    fn key(&self) -> (r: KeySlice<'_>) {
        proof {
            self.lemma_head();
        }
        self.iter.key()
    }

    fn value(&self) -> (r: &[u8]) {
        proof {
            self.lemma_head();
        }
        self.iter.value()
    }

    fn is_valid(&self) -> (r: bool) {
        proof {
            self.lemma_head();
        }
        self.iter.is_valid()
    }

    fn next(&mut self) -> (r: Result<(), Error>)
        ensures
            final(self).transaction().wf(),
            final(self).transaction().same_but_reads(old(self).transaction()),
            old(self).transaction().reads().subset_of(final(self).transaction().reads()),
            match r {
                Ok(_) => {
                    &&& final(self).transaction().reads() == Self::noted(
                        old(self).transaction(),
                        final(self).remaining(),
                    )
                    &&& final(self).transaction().tracks() && final(self).remaining().len() > 0
                        ==> final(self).transaction().reads().contains(
                        conflict_hash(final(self).remaining()[0].key.user),
                    )
                },
                Err(_) => final(self).transaction() == old(self).transaction(),
            },
    {
        proof {
            self.lemma_head();
            self.iter.lemma_wf();
        }
        self.iter.next()?;
        self.advance_to_visible_key()?;
        proof {
            self.lemma_head();
        }
        self.add_visible_key_to_readset();
        Ok(())
    }

    closed spec fn active(&self) -> nat {
        self.iter.active()
    }

    fn num_active_iterators(&self) -> (r: usize) {
        self.iter.num_active_iterators()
    }
}

impl Transaction {
    /// What the transaction sees in a range of user keys, with its own writes in front, and
    /// with the deletions among them.
    pub open spec fn merged(
        &self,
        content: Seq<Entry>,
        lower: Bound<Seq<u8>>,
        upper: Bound<Seq<u8>>,
    ) -> Seq<Entry> {
        merge2(
            in_user_range(self.local(), lower, upper),
            snapshot(from_user(content, lower), self.ts(), upper),
        )
    }

    /// Creates an iterator over a range of user keys. Where that fails, the transaction is
    /// given back.
    pub fn scan<'a>(self, storage: &'a LsmStorageInner, lower: Bound<&[u8]>, upper: Bound<&[u8]>)
        -> (r: Result<TxnIterator<'a>, (Transaction, Error)>)
        requires
            self.wf(),
            storage.wf(),
        ensures
            match r {
                Ok(it) => {
                    let es = shown(
                        self.merged(storage.content(), user_bound(lower), user_bound(upper)),
                    );
                    &&& it.wf()
                    &&& it.reliable()
                    &&& self.shows(
                        *storage,
                        user_bound(lower),
                        user_bound(upper),
                        it.remaining(),
                    )
                    &&& it.remaining() == es
                    &&& it.transaction().wf()
                    &&& it.transaction().same_but_reads(self)
                    &&& it.transaction().reads() == TxnIterator::noted(self, es)
                    &&& self.reads().subset_of(it.transaction().reads())
                    &&& self.tracks() && es.len() > 0 ==> it.transaction().reads().contains(
                        conflict_hash(es[0].key.user),
                    )
                },
                Err(_) => false,
            },
    {
        let fused_iter = match storage.scan_with_ts(lower, upper, self.read_ts) {
            Ok(it) => it,
            Err(e) => {
                return Err((self, e));
            },
        };
        let txn_iter = TxnLocalIterator::create(&self.local_storage, lower, upper);
        match TwoMergeIterator::create(txn_iter, fused_iter) {
            Ok(iter) => TxnIterator::create(self, iter),
            Err(e) => Err((self, e)),
        }
    }

    /// Ends the transaction: the storage need not keep its snapshot any more.
    pub fn release(self, storage: &mut LsmStorageInner)
        requires
            old(storage).wf(),
            old(storage).mvcc.pinned(self.ts()) > 0,
        ensures
            final(storage).wf(),
            final(storage).state == old(storage).state,
            final(storage).next_sst_id == old(storage).next_sst_id,
            final(storage).same_setup(*old(storage)),
            final(storage).mvcc.reader_removed(old(storage).mvcc, self.ts()),
    {
        storage.mvcc.remove_reader(self.read_ts);
    }
}

} // verus!
