//! The in-memory tables that take up the writes.
use vstd::prelude::*;
use std::ops::Bound;
use crate::bound::{
    above, borrow_bound, end_of, in_range, lemma_end_of, lemma_in_range_subrange, lemma_start_of,
    map_bound, slice_bound, start_of, vec_bound,
};
use crate::entry::{lemma_lower_bound_is, lower_bound, sorted, Entry};
use crate::error::Error;
use crate::iterators::StorageIterator;
use crate::key::{
    key_lt, lemma_key_lt_irreflexive, lemma_parse_raw_key, KeySlice, KeyVec, VKey, TS_DEFAULT,
};
use crate::order::bytes_equal;
use crate::snapshot::version;
use crate::table::bloom::BLOOM_BITS_PER_KEY;
use crate::table::builder::{fingerprints, split_blocks, table_fits, SsTableBuilder};
use crate::table::{all_storable, storable, SsTable};
use crate::version_map::{upsert, upsert_all, value_of, VersionMap};
use crate::wal::{
    all_entries, batch_entries, batch_fits, body_bytes, lemma_log_followed, lemma_log_round_trip,
    log_bytes, log_end, log_entries, record_bytes, LogEnd, Wal,
};

verus! {

/// How many bytes the keys and values of some entries have.
pub open spec fn total_size(es: Seq<Entry>) -> nat
    decreases es.len(),
{
    if es.len() == 0 {
        0
    } else {
        total_size(es.drop_last()) + es.last().key.user.len() + es.last().value.len()
    }
}

/// A number as a machine word, which forgets what exceeds it.
pub open spec fn wrapped(n: int) -> int {
    n % (usize::MAX + 1)
}

/// Tables that are kept in memory and sorted by key.
pub struct MemTable {
    map: VersionMap,
    wal: Option<Wal>,
    id: usize,
    approximate_size: usize,
}

impl MemTable {
    /// The entries in key order.
    pub closed spec fn entries(&self) -> Seq<Entry> {
        self.map.entries()
    }

    /// The write-ahead log.
    pub closed spec fn log(&self) -> Option<Wal> {
        self.wal
    }

    pub closed spec fn spec_id(&self) -> usize {
        self.id
    }

    /// The number of bytes that were put in.
    pub closed spec fn size(&self) -> usize {
        self.approximate_size
    }

    pub closed spec fn wf(&self) -> bool {
        self.map.wf()
    }

    pub proof fn lemma_wf(&self)
        requires
            self.wf(),
        ensures
            sorted(self.entries()),
    {
        self.map.lemma_wf();
    }

    /// Creates an empty memtable.
    pub fn create(id: usize) -> (r: MemTable)
        ensures
            r.wf(),
            r.entries() == Seq::<Entry>::empty(),
            r.log() is None,
            r.spec_id() == id,
            r.size() == 0,
    {
        MemTable { map: VersionMap::new(), wal: None, id, approximate_size: 0 }
    }

    /// Creates an empty memtable with a write-ahead log.
    pub fn create_with_wal(id: usize) -> (r: MemTable)
        ensures
            r.wf(),
            r.entries() == Seq::<Entry>::empty(),
            r.log() matches Some(wal) && wal.pending() == Seq::<u8>::empty(),
            r.spec_id() == id,
            r.size() == 0,
    {
        MemTable { map: VersionMap::new(), wal: Some(Wal::create()), id, approximate_size: 0 }
    }

    /// Creates a memtable from the content of a write-ahead log.
    pub fn recover_from_wal(id: usize, log: &[u8]) -> (r: Result<MemTable, Error>)
        ensures
            match r {
                Ok(m) => {
                    &&& log_end(log@) is Done
                    &&& m.wf()
                    &&& m.entries() == upsert_all(Seq::empty(), log_entries(log@))
                    &&& m.log() matches Some(wal) && wal.pending() == Seq::<u8>::empty()
                    &&& m.spec_id() == id
                    &&& m.size() == wrapped(total_size(m.entries()) as int)
                },
                Err(e) => match log_end(log@) {
                    LogEnd::Done => false,
                    LogEnd::TruncatedLength => e == Error::TruncatedLength,
                    LogEnd::TruncatedBody => e == Error::TruncatedBody,
                    LogEnd::MalformedBody => e == Error::MalformedBody,
                    LogEnd::TruncatedChecksum => e == Error::TruncatedChecksum,
                    LogEnd::ChecksumMismatch => e == Error::ChecksumMismatch,
                },
            },
    {
        let mut map = VersionMap::new();
        let wal = Wal::recover(log, &mut map)?;
        let mut size: usize = 0;
        let ghost es = map.entries();
        proof {
            map.lemma_wf();
            assert(es.take(0) =~= Seq::<Entry>::empty());
        }
        let mut iter = MemTableIterator::over(&map, Bound::Unbounded, Bound::Unbounded);
        let ghost mut n: int = 0;
        proof {
            lemma_unbounded(es);
            assert(es.skip(0) =~= es);
            assert(total_size(es.take(0)) == 0);
            vstd::arithmetic::div_mod::lemma_small_mod(0, (usize::MAX + 1) as nat);
        }
        while iter.is_valid()
            invariant
                iter.wf(),
                0 <= n <= es.len(),
                iter.remaining() == es.skip(n),
                size == wrapped(total_size(es.take(n)) as int),
            decreases es.len() - n,
        {
            let pair_size = iter.key().key_len().wrapping_add(iter.value().len());
            let ghost before = size;
            proof {
                let t = es.take(n + 1);
                assert(t.drop_last() =~= es.take(n));
                assert(t.last() == es[n]);
                assert(es.skip(n)[0] == es[n]);
                assert(es.skip(n).drop_first() =~= es.skip(n + 1));
                let a = total_size(es.take(n)) as int;
                let k = es[n].key.user.len() as int;
                let v = es[n].value.len() as int;
                lemma_wrapped(a, k, v, before, k as usize, v as usize);
            }
            size = size.wrapping_add(pair_size);
            let step = iter.next();
            assert(step is Ok);
            proof {
                n = n + 1;
            }
        }
        assert(es.take(n) =~= es);
        Ok(MemTable { map, wal: Some(wal), id, approximate_size: size })
    }

    /// Puts a pair in under the default timestamp.
    pub fn for_testing_put_slice(&mut self, key: &[u8], value: &[u8]) -> (r: Result<(), Error>)
        requires
            old(self).wf(),
        ensures
            r is Ok,
            final(self).wf(),
            final(self).entries() == upsert(
                old(self).entries(),
                Entry { key: VKey { user: key@, ts: TS_DEFAULT }, value: value@ },
            ),
            final(self).spec_id() == old(self).spec_id(),
            final(self).size() == wrapped(old(self).size() + key@.len() + value@.len()),
            logged(
                old(self).log(),
                final(self).log(),
                seq![Entry { key: VKey { user: key@, ts: TS_DEFAULT }, value: value@ }],
            ),
    {
        self.put(KeySlice::from_slice(key, TS_DEFAULT), value)
    }

    /// Gets the value under a key with the default timestamp.
    pub fn for_testing_get_slice(&self, key: &[u8]) -> (r: Option<Vec<u8>>)
        requires
            self.wf(),
        ensures
            match r {
                Some(v) => value_of(self.entries(), VKey { user: key@, ts: TS_DEFAULT }) == Some(
                    v@,
                ),
                None => value_of(self.entries(), VKey { user: key@, ts: TS_DEFAULT }) is None,
            },
    {
        self.get(KeySlice::from_slice(key, TS_DEFAULT))
    }

    /// Iterates over the keys between two bounds, taken with the default timestamp.
    pub fn for_testing_scan_slice(&self, lower: Bound<&[u8]>, upper: Bound<&[u8]>) -> (r:
        MemTableIterator<'_>)
        requires
            self.wf(),
        ensures
            r.wf(),
            r.remaining() == in_range(self.entries(), default_bound(lower), default_bound(upper)),
    {
        self.scan(with_default_ts(lower), with_default_ts(upper))
    }

    /// Gets the value under a key.
    pub fn get(&self, key: KeySlice) -> (r: Option<Vec<u8>>)
        requires
            self.wf(),
        ensures
            match r {
                Some(v) => value_of(self.entries(), key@) == Some(v@),
                None => value_of(self.entries(), key@) is None,
            },
    {
        self.map.get(key)
    }

    /// Gets the value of the newest version of a user key that a reader at `ts` may see.
    pub fn get_version(&self, user: &[u8], ts: u64) -> (r: Option<Vec<u8>>)
        requires
            self.wf(),
        ensures
            match r {
                Some(v) => version(self.entries(), user@, ts) matches Some(e) && e.value == v@,
                None => version(self.entries(), user@, ts) is None,
            },
    {
        let key = KeySlice::from_slice(user, ts);
        proof {
            let s = self.entries();
            let i = start_of(s, Bound::Included(key@));
            self.map.lemma_wf();
            lemma_start_of(s, Bound::Included(key@));
            lemma_end_of(s, Bound::Unbounded);
            lemma_in_range_subrange(s, Bound::Included(key@), Bound::Unbounded, i, s.len() as int);
            assert(lower_bound(s, key@) == i) by {
                assert forall|j: int| 0 <= j < i implies key_lt(#[trigger] s[j].key, key@) by {
                    assert(!above(Bound::Included(key@), s[j].key));
                }
                if i < s.len() {
                    assert(above(Bound::Included(key@), s[i].key));
                }
                lemma_lower_bound_is(s, key@, i);
            }
        }
        match self.map.first_in(Bound::Included(key), Bound::Unbounded) {
            Some((found, value)) => if bytes_equal(found.as_key_slice().key_ref(), user) {
                Some(value)
            } else {
                None
            },
            None => None,
        }
    }

    /// Puts a key-value pair into the memtable, after it has been written to the log.
    pub fn put(&mut self, key: KeySlice, value: &[u8]) -> (r: Result<(), Error>)
        requires
            old(self).wf(),
        ensures
            r is Ok,
            final(self).wf(),
            final(self).entries() == upsert(
                old(self).entries(),
                Entry { key: key@, value: value@ },
            ),
            final(self).spec_id() == old(self).spec_id(),
            final(self).size() == wrapped(old(self).size() + key@.user.len() + value@.len()),
            logged(old(self).log(), final(self).log(), seq![Entry { key: key@, value: value@ }]),
    {
        let batch = [(key, value)];
        let r = self.put_batch(&batch);
        proof {
            let e = Entry { key: key@, value: value@ };
            let es = batch_entries(batch@);
            assert(es =~= seq![e]);
            assert(es.drop_first() =~= Seq::<Entry>::empty());
            assert(upsert_all(upsert(old(self).entries(), e), es.drop_first()) == upsert(
                old(self).entries(),
                e,
            ));
            assert(es.drop_last() =~= Seq::<Entry>::empty());
            assert(total_size(es.drop_last()) == 0);
        }
        r
    }

    /// Puts the pairs of a batch into the memtable, after they have been written to the log.
    pub fn put_batch(&mut self, data: &[(KeySlice, &[u8])]) -> (r: Result<(), Error>)
        requires
            old(self).wf(),
        ensures
            r is Ok,
            final(self).wf(),
            final(self).entries() == upsert_all(old(self).entries(), batch_entries(data@)),
            final(self).spec_id() == old(self).spec_id(),
            final(self).size() == wrapped(old(self).size() + total_size(batch_entries(data@))),
            logged(old(self).log(), final(self).log(), batch_entries(data@)),
    {
        if let Some(wal) = &mut self.wal {
            wal.put_batch(data)?;
        }
        let ghost es = batch_entries(data@);
        let ghost start = self.map.entries();
        let ghost size0 = self.approximate_size;
        let ghost wal0 = self.wal;
        let mut i: usize = 0;
        proof {
            assert(es.skip(0) =~= es);
            assert(es.take(0) =~= Seq::<Entry>::empty());
            vstd::arithmetic::div_mod::lemma_small_mod(size0 as nat, (usize::MAX + 1) as nat);
        }
        while i < data.len()
            invariant
                i <= data@.len(),
                es == batch_entries(data@),
                self.map.wf(),
                self.id == old(self).id,
                self.wal == wal0,
                upsert_all(start, es) == upsert_all(self.map.entries(), es.skip(i as int)),
                self.approximate_size == wrapped(size0 + total_size(es.take(i as int))),
            decreases data@.len() - i,
        {
            let key = data[i].0;
            let value = data[i].1;
            let size = key.key_len().wrapping_add(value.len());
            proof {
                let t = es.take(i + 1);
                assert(t.drop_last() =~= es.take(i as int));
                assert(t.last() == es[i as int]);
                assert(es.skip(i as int).drop_first() =~= es.skip(i + 1));
                lemma_wrapped(
                    size0 + total_size(es.take(i as int)),
                    key@.user.len() as int,
                    value@.len() as int,
                    self.approximate_size,
                    key@.user.len() as usize,
                    value@.len() as usize,
                );
            }
            self.approximate_size = self.approximate_size.wrapping_add(size);
            self.map.insert(key, value);
            i += 1;
        }
        proof {
            assert(es.skip(i as int) =~= Seq::<Entry>::empty());
            assert(es.take(i as int) =~= es);
        }
        Ok(())
    }

    /// Hands out what the log has to append to its file and make durable.
    pub fn sync_wal(&mut self) -> (r: Option<Vec<u8>>)
        requires
            old(self).wf(),
        ensures
            final(self).wf(),
            final(self).entries() == old(self).entries(),
            final(self).spec_id() == old(self).spec_id(),
            final(self).size() == old(self).size(),
            match old(self).log() {
                Some(wal) => {
                    &&& r matches Some(bytes) && bytes@ == wal.pending()
                    &&& final(self).log() matches Some(w) && w.pending() == Seq::<u8>::empty()
                },
                None => r is None && final(self).log() is None,
            },
    {
        if let Some(wal) = &mut self.wal {
            Some(wal.sync())
        } else {
            None
        }
    }

    /// Iterates over the keys between two bounds.
    pub fn scan(&self, lower: Bound<KeySlice>, upper: Bound<KeySlice>) -> (r: MemTableIterator<'_>)
        requires
            self.wf(),
        ensures
            r.wf(),
            r.remaining() == in_range(self.entries(), slice_bound(lower), slice_bound(upper)),
    {
        MemTableIterator::over(&self.map, lower, upper)
    }

    /// Writes the memtable out as a table with its identifier. Fails where the key or the value of
    /// an entry is too long for a table, and where the table is too large.
    pub fn flush(&self, builder: SsTableBuilder) -> (r: Result<SsTable, Error>)
        requires
            self.wf(),
            builder.wf(),
            builder.entries().len() == 0,
        ensures
            match r {
                Ok(table) => {
                    &&& all_storable(self.entries())
                    &&& table_fits(builder.block_size(), self.entries())
                    &&& table.searchable()
                    &&& table.entries() == self.entries()
                    &&& table.blocks() == split_blocks(builder.block_size(), self.entries())
                    &&& table.spec_id() == self.spec_id()
                    &&& table.filter() matches Some(bloom) && bloom.built_from(
                        fingerprints(self.entries()),
                        BLOOM_BITS_PER_KEY,
                    )
                },
                Err(e) => {
                    ||| e == Error::TableTooLarge && all_storable(self.entries()) && !table_fits(
                        builder.block_size(),
                        self.entries(),
                    )
                    ||| e == Error::EntryTooLarge && !all_storable(self.entries())
                },
            },
    {
        let ghost es = self.entries();
        proof {
            self.map.lemma_wf();
            lemma_unbounded(es);
            assert(es.skip(0) =~= es);
            assert(es.take(0) =~= Seq::<Entry>::empty());
            assert(builder.entries() =~= es.take(0));
        }
        let ghost block_size = builder.block_size();
        let mut builder = builder;
        let mut iter = MemTableIterator::over(&self.map, Bound::Unbounded, Bound::Unbounded);
        let ghost mut n: int = 0;
        while iter.is_valid()
            invariant
                iter.wf(),
                builder.wf(),
                builder.block_size() == block_size,
                es == self.entries(),
                0 <= n <= es.len(),
                iter.remaining() == es.skip(n),
                builder.entries() == es.take(n),
                all_storable(es.take(n)),
            decreases es.len() - n,
        {
            let ghost e = es[n];
            assert(es.skip(n)[0] == e);
            let key = iter.key();
            let value = iter.value();
            proof {
                lemma_parse_raw_key(key@);
            }
            if key.key_len() > 0xffff - 8 || value.len() > 0xffff {
                assert(!storable(es[n]));
                return Err(Error::EntryTooLarge);
            }
            builder.add(key, value);
            proof {
                assert(es.take(n + 1) =~= es.take(n).push(e));
                assert(e =~= (Entry { key: key@, value: value@ }));
                assert forall|j: int| 0 <= j < n + 1 implies storable(
                    #[trigger] es.take(n + 1)[j],
                ) by {
                    if j < n {
                        assert(es.take(n + 1)[j] == es.take(n)[j]);
                    }
                }
                assert(es.skip(n).drop_first() =~= es.skip(n + 1));
            }
            let step = iter.next();
            assert(step is Ok);
            proof {
                n = n + 1;
            }
        }
        assert(es.take(n) =~= es);
        let table = builder.build(self.id())?;
        Ok(table)
    }

    pub fn id(&self) -> (r: usize)
        ensures
            r == self.spec_id(),
    {
        self.id
    }

    /// How many bytes were put in.
    pub fn approximate_size(&self) -> (r: usize)
        ensures
            r == self.size(),
    {
        self.approximate_size
    }

    /// Whether nothing was put in.
    pub fn is_empty(&self) -> (r: bool)
        requires
            self.wf(),
        ensures
            r == (self.entries().len() == 0),
    {
        self.map.is_empty()
    }
}

/// Whether a log got a record with the entries of a batch.
pub open spec fn logged(before: Option<Wal>, after: Option<Wal>, es: Seq<Entry>) -> bool {
    match before {
        Some(wal) => after matches Some(w) && w.pending() == wal.pending() + record_bytes(
            body_bytes(es),
        ),
        None => after is None,
    }
}

/// What was put into a memtable with a log can be recovered from the log: first the batches that
/// were logged before, and then the new one, if its lengths fit their fields.
pub proof fn lemma_logged(before: Wal, after: Option<Wal>, batches: Seq<Seq<Entry>>, es: Seq<Entry>)
    requires
        logged(Some(before), after, es),
        before.pending() == log_bytes(batches),
        forall|i: int| 0 <= i < batches.len() ==> batch_fits(#[trigger] batches[i]),
        batch_fits(es),
    ensures
        after is Some,
        log_end(after->0.pending()) is Done,
        log_entries(after->0.pending()) == all_entries(batches) + es,
{
    let one = seq![es];
    assert(one.drop_first() =~= Seq::<Seq<Entry>>::empty());
    assert(log_bytes(one.drop_first()) =~= Seq::<u8>::empty());
    assert(all_entries(one.drop_first()) =~= Seq::<Entry>::empty());
    assert(log_bytes(one) =~= record_bytes(body_bytes(es)));
    assert(all_entries(one) =~= es);
    assert forall|i: int| 0 <= i < one.len() implies batch_fits(#[trigger] one[i]) by {}
    lemma_log_round_trip(one);
    lemma_log_followed(batches, log_bytes(one));
}

/// Whether a memtable is an empty one without a log.
pub open spec fn is_fresh(memtable: MemTable, id: usize) -> bool {
    &&& memtable.entries() == Seq::<Entry>::empty()
    &&& memtable.spec_id() == id
    &&& memtable.size() == 0
    &&& memtable.log() is None
}

/// Whether a memtable is what another one becomes when the entries of a batch are put into it.
pub open spec fn has_taken(after: MemTable, before: MemTable, es: Seq<Entry>) -> bool {
    &&& after.entries() == upsert_all(before.entries(), es)
    &&& after.spec_id() == before.spec_id()
    &&& after.size() == wrapped(before.size() + total_size(es))
    &&& logged(before.log(), after.log(), es)
}

/// A bound of user keys, taken with the default timestamp.
pub open spec fn default_bound(b: Bound<&[u8]>) -> Bound<VKey> {
    match b {
        Bound::Included(k) => Bound::Included(VKey { user: k@, ts: TS_DEFAULT }),
        Bound::Excluded(k) => Bound::Excluded(VKey { user: k@, ts: TS_DEFAULT }),
        Bound::Unbounded => Bound::Unbounded,
    }
}

pub(crate) fn with_default_ts(b: Bound<&[u8]>) -> (r: Bound<KeySlice<'_>>)
    ensures
        slice_bound(r) == default_bound(b),
{
    match b {
        Bound::Included(key) => Bound::Included(KeySlice::from_slice(key, TS_DEFAULT)),
        Bound::Excluded(key) => Bound::Excluded(KeySlice::from_slice(key, TS_DEFAULT)),
        Bound::Unbounded => Bound::Unbounded,
    }
}

proof fn lemma_wrapped(a: int, k: int, v: int, word: usize, k_word: usize, v_word: usize)
    requires
        a >= 0,
        word == wrapped(a),
        k_word == k,
        v_word == v,
    ensures
        wrapped(a + k + v) == word.wrapping_add(k_word.wrapping_add(v_word)),
{
    let m = usize::MAX + 1;
    vstd::arithmetic::div_mod::lemma_add_mod_noop(a, k + v, m);
    vstd::arithmetic::div_mod::lemma_small_mod(word as nat, m as nat);
    let s = (k + v) % m;
    assert(k_word.wrapping_add(v_word) == s) by {
        if k + v <= usize::MAX {
            vstd::arithmetic::div_mod::lemma_small_mod((k + v) as nat, m as nat);
        } else {
            vstd::arithmetic::div_mod::lemma_fundamental_div_mod_converse(k + v, m, 1, k + v - m);
        }
    }
    assert(wrapped(a + k + v) == (word + s) % m);
    if word + s <= usize::MAX {
        vstd::arithmetic::div_mod::lemma_small_mod((word + s) as nat, m as nat);
    } else {
        vstd::arithmetic::div_mod::lemma_fundamental_div_mod_converse(word + s, m, 1, word + s - m);
    }
}

/// Without bounds every entry is in range.
pub proof fn lemma_unbounded(s: Seq<Entry>)
    requires
        sorted(s),
    ensures
        in_range(s, Bound::Unbounded, Bound::Unbounded) == s,
{
    lemma_in_range_subrange(s, Bound::Unbounded, Bound::Unbounded, 0, s.len() as int);
    assert(s.subrange(0, s.len() as int) =~= s);
}

/// An iterator over the keys of a memtable between two bounds.
pub struct MemTableIterator<'a> {
    map: &'a VersionMap,
    upper: Bound<KeyVec>,
    /// The current key-value pair.
    item: Option<(KeyVec, Vec<u8>)>,
    /// Where the current pair stands among all entries.
    pos: Ghost<int>,
}

impl<'a> MemTableIterator<'a> {
    spec fn end(&self) -> int {
        end_of(self.map.entries(), vec_bound(self.upper))
    }

    pub closed spec fn inv(&self) -> bool {
        let s = self.map.entries();
        &&& self.map.wf()
        &&& match self.item {
            Some(item) => {
                &&& 0 <= self.pos@ < self.end()
                &&& s[self.pos@] == (Entry { key: item.0@, value: item.1@ })
            },
            None => self.pos@ == self.end(),
        }
    }

    pub(crate) fn over(map: &'a VersionMap, lower: Bound<KeySlice>, upper: Bound<KeySlice>) -> (r:
        MemTableIterator<'a>)
        requires
            map.wf(),
        ensures
            r.wf(),
            r.remaining() == in_range(map.entries(), slice_bound(lower), slice_bound(upper)),
    {
        let ghost s = map.entries();
        let ghost i = start_of(s, slice_bound(lower));
        let ghost j = end_of(s, slice_bound(upper));
        proof {
            map.lemma_wf();
            lemma_start_of(s, slice_bound(lower));
            lemma_end_of(s, slice_bound(upper));
            lemma_in_range_subrange(s, slice_bound(lower), slice_bound(upper), i, j);
        }
        let item = map.first_in(lower, upper);
        let r = MemTableIterator {
            map,
            upper: map_bound(upper),
            item,
            pos: Ghost(
                if i < j {
                    i
                } else {
                    j
                },
            ),
        };
        assert(r.remaining() =~= in_range(s, slice_bound(lower), slice_bound(upper)));
        r
    }
}

impl<'a> StorageIterator for MemTableIterator<'a> {
    closed spec fn wf(&self) -> bool {
        self.inv()
    }

    closed spec fn remaining(&self) -> Seq<Entry> {
        self.map.entries().subrange(self.pos@, self.end())
    }

    open spec fn can_next(&self) -> bool {
        true
    }

    open spec fn reliable(&self) -> bool {
        true
    }

    proof fn lemma_wf(&self) {
        let s = self.map.entries();
        self.map.lemma_wf();
        lemma_end_of(s, vec_bound(self.upper));
        let t = self.remaining();
        assert forall|a: int, b: int| #![trigger t[a], t[b]] 0 <= a < b < t.len() implies key_lt(
            t[a].key,
            t[b].key,
        ) by {
            assert(t[a] == s[a + self.pos@] && t[b] == s[b + self.pos@]);
        }
    }

    fn key(&self) -> (r: KeySlice<'_>) {
        proof {
            self.map.lemma_wf();
            lemma_end_of(self.map.entries(), vec_bound(self.upper));
        }
        match &self.item {
            Some(item) => item.0.as_key_slice(),
            None => KeySlice::from_slice(&[], TS_DEFAULT),
        }
    }

    fn value(&self) -> (r: &[u8]) {
        proof {
            self.map.lemma_wf();
            lemma_end_of(self.map.entries(), vec_bound(self.upper));
        }
        match &self.item {
            Some(item) => item.1.as_slice(),
            None => &[],
        }
    }

    fn is_valid(&self) -> (r: bool) {
        proof {
            self.map.lemma_wf();
            lemma_end_of(self.map.entries(), vec_bound(self.upper));
        }
        self.item.is_some()
    }

    fn next(&mut self) -> (r: Result<(), Error>)
        ensures
            r is Ok,
    {
        let ghost s = self.map.entries();
        let ghost p = self.pos@;
        proof {
            self.map.lemma_wf();
            lemma_end_of(s, vec_bound(self.upper));
        }
        if let Some(item) = &self.item {
            let ghost k = item.0@;
            proof {
                lemma_start_of(s, Bound::Excluded(k));
                let i = start_of(s, Bound::Excluded(k));
                lemma_key_lt_irreflexive(k);
                assert(s[p].key == k);
                assert(p < i);
                if p + 1 < i {
                    assert(key_lt(s[p].key, s[p + 1].key));
                }
                assert(i == p + 1);
                lemma_in_range_subrange(s, Bound::Excluded(k), vec_bound(self.upper), i, self.end());
            }
            let next = self.map.first_in(
                Bound::Excluded(item.0.as_key_slice()),
                borrow_bound(&self.upper),
            );
            self.item = next;
            self.pos = Ghost(p + 1);
        }
        proof {
            if p < self.end() {
                assert(s.subrange(p, self.end()).drop_first() =~= s.subrange(p + 1, self.end()));
            }
        }
        Ok(())
    }

    open spec fn active(&self) -> nat {
        1
    }

    fn num_active_iterators(&self) -> (r: usize) {
        1
    }
}

} // verus!
