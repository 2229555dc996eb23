//! The write-ahead log: records of written batches, each with a checksum.
use vstd::prelude::*;
use crate::codec::{
    be16, be32, be64, copy_range, get_u16, get_u32, get_u64, holds_at, lemma_u16_at, lemma_u32_at,
    lemma_u64_at, put_slice, put_u16, put_u32, put_u64, u16_at, u32_at, u64_at,
};
use crate::entry::Entry;
use crate::error::Error;
use crate::hash::{crc32, crc32_of};
use crate::key::{KeySlice, KeyVec, VKey};
use crate::version_map::{lemma_upsert_all_append, upsert_all, VersionMap};

verus! {

/// The entries of a batch.
pub open spec fn batch_entries(data: Seq<(KeySlice, &[u8])>) -> Seq<Entry> {
    Seq::new(data.len(), |i: int| Entry { key: data[i].0@, value: data[i].1@ })
}

/// The bytes of one entry. The lengths keep their lower sixteen bits.
pub open spec fn item_bytes(e: Entry) -> Seq<u8> {
    be16(e.key.user.len() as u16) + e.key.user + be64(e.key.ts) + be16(e.value.len() as u16)
        + e.value
}

/// The body of a record.
pub open spec fn body_bytes(es: Seq<Entry>) -> Seq<u8>
    decreases es.len(),
{
    if es.len() == 0 {
        Seq::empty()
    } else {
        item_bytes(es[0]) + body_bytes(es.drop_first())
    }
}

/// A record: the length of the body, the body and its checksum. The length keeps its lower
/// thirty-two bits.
pub open spec fn record_bytes(body: Seq<u8>) -> Seq<u8> {
    be32(body.len() as u32) + body + be32(crc32_of(body))
}

/// The bytes of a log to which some batches were written.
pub open spec fn log_bytes(batches: Seq<Seq<Entry>>) -> Seq<u8>
    decreases batches.len(),
{
    if batches.len() == 0 {
        Seq::empty()
    } else {
        record_bytes(body_bytes(batches[0])) + log_bytes(batches.drop_first())
    }
}

/// The entries of some batches, one batch after the other.
pub open spec fn all_entries(batches: Seq<Seq<Entry>>) -> Seq<Entry>
    decreases batches.len(),
{
    if batches.len() == 0 {
        Seq::empty()
    } else {
        batches[0] + all_entries(batches.drop_first())
    }
}

/// The first entry in the body of a record and the number of its bytes, if it is whole.
pub open spec fn first_item(body: Seq<u8>) -> Option<(Entry, int)> {
    let k = u16_at(body, 0);
    let v = u16_at(body, k + 10);
    if body.len() < 2 || body.len() < k + 12 || body.len() < k + v + 12 || k < 0 || v < 0 {
        None
    } else {
        let e = Entry {
            key: VKey { user: body.subrange(2, k + 2), ts: u64_at(body, k + 2) as u64 },
            value: body.subrange(k + 12, k + v + 12),
        };
        Some((e, k + v + 12))
    }
}

/// The entries in the body of a record, if it is made of whole entries.
pub open spec fn parse_body(body: Seq<u8>) -> Option<Seq<Entry>>
    decreases body.len(),
{
    if body.len() == 0 {
        Some(Seq::empty())
    } else {
        match first_item(body) {
            None => None,
            Some((e, n)) => match parse_body(body.skip(n)) {
                Some(es) => Some(seq![e] + es),
                None => None,
            },
        }
    }
}

/// How the reading of a log ends.
pub enum LogEnd {
    /// At the end of the last record.
    Done,
    /// Inside the length of a record.
    TruncatedLength,
    /// Inside the body of a record.
    TruncatedBody,
    /// At a body that is not made of whole entries.
    MalformedBody,
    /// Inside the checksum of a record.
    TruncatedChecksum,
    /// At a checksum that does not match the body.
    ChecksumMismatch,
}

/// How the reading of a log ends.
pub open spec fn log_end(log: Seq<u8>) -> LogEnd
    decreases log.len(),
{
    let n = u32_at(log, 0);
    let body = log.subrange(4, n + 4);
    if log.len() == 0 {
        LogEnd::Done
    } else if log.len() < 4 || n < 0 {
        LogEnd::TruncatedLength
    } else if log.len() < n + 4 {
        LogEnd::TruncatedBody
    } else if parse_body(body) is None {
        LogEnd::MalformedBody
    } else if log.len() < n + 8 {
        LogEnd::TruncatedChecksum
    } else if u32_at(log, n + 4) != crc32_of(body) {
        LogEnd::ChecksumMismatch
    } else {
        log_end(log.skip(n + 8))
    }
}

/// The entries of the records that come before the reading of a log ends.
pub open spec fn log_entries(log: Seq<u8>) -> Seq<Entry>
    decreases log.len(),
{
    let n = u32_at(log, 0);
    let body = log.subrange(4, n + 4);
    if log.len() < 4 || n < 0 || log.len() < n + 8 || parse_body(body) is None || u32_at(log, n + 4)
        != crc32_of(body) {
        Seq::empty()
    } else {
        parse_body(body).unwrap() + log_entries(log.skip(n + 8))
    }
}

/// Whether the lengths of an entry fit their fields.
pub open spec fn item_fits(e: Entry) -> bool {
    e.key.user.len() <= 0xffff && e.value.len() <= 0xffff
}

/// Whether the lengths of a batch fit their fields.
pub open spec fn batch_fits(es: Seq<Entry>) -> bool {
    &&& forall|i: int| 0 <= i < es.len() ==> item_fits(#[trigger] es[i])
    &&& body_bytes(es).len() <= 0xffff_ffff
}

proof fn lemma_parse_item(e: Entry, more: Seq<u8>)
    requires
        item_fits(e),
    ensures
        ({
            let body = item_bytes(e) + more;
            let k = u16_at(body, 0);
            let v = u16_at(body, k + 10);
            &&& k == e.key.user.len()
            &&& v == e.value.len()
            &&& item_bytes(e).len() == k + v + 12
            &&& body.subrange(2, k + 2) == e.key.user
            &&& u64_at(body, k + 2) == e.key.ts
            &&& body.subrange(k + 12, k + v + 12) == e.value
            &&& body.skip(k + v + 12) == more
        }),
{
    let body = item_bytes(e) + more;
    let k = e.key.user.len() as int;
    let v = e.value.len() as int;
    assert(body.subrange(0, 2) =~= be16(e.key.user.len() as u16));
    assert(holds_at(body, 0, be16(e.key.user.len() as u16)));
    lemma_u16_at(body, 0, e.key.user.len() as u16);
    assert(body.subrange(2, k + 2) =~= e.key.user);
    assert(body.subrange(k + 2, k + 10) =~= be64(e.key.ts));
    assert(holds_at(body, k + 2, be64(e.key.ts)));
    lemma_u64_at(body, k + 2, e.key.ts);
    assert(body.subrange(k + 10, k + 12) =~= be16(e.value.len() as u16));
    assert(holds_at(body, k + 10, be16(e.value.len() as u16)));
    lemma_u16_at(body, k + 10, e.value.len() as u16);
    assert(body.subrange(k + 12, k + v + 12) =~= e.value);
    assert(body.skip(k + v + 12) =~= more);
}

/// The body of a record gives back the entries that were written, if their lengths fit.
pub proof fn lemma_parse_body(es: Seq<Entry>)
    requires
        forall|i: int| 0 <= i < es.len() ==> item_fits(#[trigger] es[i]),
    ensures
        parse_body(body_bytes(es)) == Some(es),
    decreases es.len(),
{
    if es.len() == 0 {
        assert(es =~= Seq::<Entry>::empty());
    } else {
        let t = es.drop_first();
        assert forall|i: int| 0 <= i < t.len() implies item_fits(#[trigger] t[i]) by {
            assert(t[i] == es[i + 1]);
        }
        lemma_parse_body(t);
        assert(item_fits(es[0]));
        lemma_parse_item(es[0], body_bytes(t));
        let e = es[0];
        assert(es =~= seq![e] + t);
        assert(e =~= (Entry { key: VKey { user: e.key.user, ts: e.key.ts }, value: e.value }));
    }
}

/// Reading back a log gives the batches that were written to it, in order, if the lengths of
/// the keys, the values and the bodies fit their fields.
pub proof fn lemma_log_round_trip(batches: Seq<Seq<Entry>>)
    requires
        forall|i: int| 0 <= i < batches.len() ==> batch_fits(#[trigger] batches[i]),
    ensures
        log_end(log_bytes(batches)) is Done,
        log_entries(log_bytes(batches)) == all_entries(batches),
    decreases batches.len(),
{
    if batches.len() > 0 {
        let t = batches.drop_first();
        assert forall|i: int| 0 <= i < t.len() implies batch_fits(#[trigger] t[i]) by {
            assert(t[i] == batches[i + 1]);
        }
        lemma_log_round_trip(t);
        assert(batch_fits(batches[0]));
        lemma_record(batches[0], log_bytes(t));
    }
}

proof fn lemma_record(es: Seq<Entry>, more: Seq<u8>)
    requires
        batch_fits(es),
    ensures
        log_end(record_bytes(body_bytes(es)) + more) == log_end(more),
        log_entries(record_bytes(body_bytes(es)) + more) == es + log_entries(more),
{
    let body = body_bytes(es);
    lemma_parse_body(es);
    lemma_record_parts(body, more);
}

proof fn lemma_record_parts(body: Seq<u8>, more: Seq<u8>)
    requires
        body.len() <= 0xffff_ffff,
    ensures
        ({
            let log = record_bytes(body) + more;
            let n = body.len() as int;
            &&& log.len() == n + 8 + more.len()
            &&& u32_at(log, 0) == n
            &&& log.subrange(4, n + 4) == body
            &&& u32_at(log, n + 4) == crc32_of(body)
            &&& log.skip(n + 8) == more
        }),
{
    lemma_framed(body, crc32_of(body), more);
}

/// What stands where in a length, a body, a checksum and what follows.
proof fn lemma_framed(body: Seq<u8>, checksum: u32, more: Seq<u8>)
    requires
        body.len() <= 0xffff_ffff,
    ensures
        ({
            let log = be32(body.len() as u32) + body + be32(checksum) + more;
            let n = body.len() as int;
            &&& log.len() == n + 8 + more.len()
            &&& u32_at(log, 0) == n
            &&& log.subrange(4, n + 4) == body
            &&& u32_at(log, n + 4) == checksum
            &&& log.skip(n + 8) == more
        }),
{
    let log = be32(body.len() as u32) + body + be32(checksum) + more;
    let n = body.len() as int;
    assert(log.subrange(0, 4) =~= be32(body.len() as u32));
    assert(holds_at(log, 0, be32(body.len() as u32)));
    lemma_u32_at(log, 0, body.len() as u32);
    assert(log.subrange(4, n + 4) =~= body);
    assert(log.subrange(n + 4, n + 8) =~= be32(checksum));
    assert(holds_at(log, n + 4, be32(checksum)));
    lemma_u32_at(log, n + 4, checksum);
    assert(log.skip(n + 8) =~= more);
}

proof fn lemma_concat<A>(a: Seq<A>, b: Seq<A>, c: Seq<A>)
    ensures
        (a + b) + c == a + (b + c),
{
    assert((a + b) + c =~= a + (b + c));
}

/// What stands behind whole records does not change what is read of them: first all of these are
/// read, in order, and how the reading ends depends on what follows.
pub proof fn lemma_log_followed(batches: Seq<Seq<Entry>>, more: Seq<u8>)
    requires
        forall|i: int| 0 <= i < batches.len() ==> batch_fits(#[trigger] batches[i]),
    ensures
        log_end(log_bytes(batches) + more) == log_end(more),
        log_entries(log_bytes(batches) + more) == all_entries(batches) + log_entries(more),
    decreases batches.len(),
{
    if batches.len() > 0 {
        let t = batches.drop_first();
        assert forall|i: int| 0 <= i < t.len() implies batch_fits(#[trigger] t[i]) by {
            assert(t[i] == batches[i + 1]);
        }
        lemma_log_followed(t, more);
        assert(batch_fits(batches[0]));
        lemma_record(batches[0], log_bytes(t) + more);
        let first = record_bytes(body_bytes(batches[0]));
        lemma_concat(first, log_bytes(t), more);
        lemma_concat(batches[0], all_entries(t), log_entries(more));
    } else {
        assert(log_bytes(batches) + more =~= more);
        assert(all_entries(batches) + log_entries(more) =~= log_entries(more));
    }
}

/// A record that is cut off is noticed, and nothing of it is read. What stands before it is.
pub proof fn lemma_log_cut_off(batches: Seq<Seq<Entry>>, es: Seq<Entry>, n: int)
    requires
        forall|i: int| 0 <= i < batches.len() ==> batch_fits(#[trigger] batches[i]),
        batch_fits(es),
        0 < n < record_bytes(body_bytes(es)).len(),
    ensures
        ({
            let log = log_bytes(batches) + record_bytes(body_bytes(es)).take(n);
            &&& !(log_end(log) is Done)
            &&& !(log_end(log) is ChecksumMismatch)
            &&& log_entries(log) == all_entries(batches)
        }),
{
    let body = body_bytes(es);
    let record = record_bytes(body);
    let tail = record.take(n);
    lemma_log_followed(batches, tail);
    lemma_record_parts(body, Seq::empty());
    assert(record + Seq::<u8>::empty() =~= record);
    if n >= 4 {
        assert(tail.subrange(0, 4) =~= be32(body.len() as u32));
        assert(holds_at(tail, 0, be32(body.len() as u32)));
        lemma_u32_at(tail, 0, body.len() as u32);
        if n >= 4 + body.len() {
            assert(tail.subrange(4, body.len() as int + 4) =~= body);
            lemma_parse_body(es);
        }
    }
    assert(log_entries(tail) =~= Seq::<Entry>::empty());
    assert(all_entries(batches) + Seq::<Entry>::empty() =~= all_entries(batches));
}

/// A record whose checksum does not match is noticed, and nothing of it or behind it is read.
pub proof fn lemma_log_damaged(
    batches: Seq<Seq<Entry>>,
    es: Seq<Entry>,
    checksum: u32,
    more: Seq<u8>,
)
    requires
        forall|i: int| 0 <= i < batches.len() ==> batch_fits(#[trigger] batches[i]),
        batch_fits(es),
        checksum != crc32_of(body_bytes(es)),
    ensures
        ({
            let body = body_bytes(es);
            let log = log_bytes(batches) + (be32(body.len() as u32) + body + be32(checksum) + more);
            &&& log_end(log) is ChecksumMismatch
            &&& log_entries(log) == all_entries(batches)
        }),
{
    let body = body_bytes(es);
    let tail = be32(body.len() as u32) + body + be32(checksum) + more;
    lemma_log_followed(batches, tail);
    lemma_framed(body, checksum, more);
    lemma_parse_body(es);
    assert(log_entries(tail) == Seq::<Entry>::empty());
    assert(all_entries(batches) + Seq::<Entry>::empty() =~= all_entries(batches));
}

proof fn lemma_body_push(es: Seq<Entry>, e: Entry)
    ensures
        body_bytes(es.push(e)) == body_bytes(es) + item_bytes(e),
    decreases es.len(),
{
    let p = es.push(e);
    if es.len() == 0 {
        assert(p.drop_first() =~= Seq::<Entry>::empty());
        assert(body_bytes(p.drop_first()) =~= Seq::<u8>::empty());
        assert(body_bytes(p) =~= body_bytes(es) + item_bytes(e));
    } else {
        assert(p.drop_first() =~= es.drop_first().push(e));
        lemma_body_push(es.drop_first(), e);
        assert(body_bytes(p) =~= body_bytes(es) + item_bytes(e));
    }
}

/// A write-ahead log. It holds what was written and has not been handed to the file yet.
pub struct Wal {
    buffered: Vec<u8>,
}

impl Wal {
    /// The bytes that the file does not hold yet.
    pub closed spec fn pending(&self) -> Seq<u8> {
        self.buffered@
    }

    /// Starts a log.
    pub fn create() -> (r: Wal)
        ensures
            r.pending() == Seq::<u8>::empty(),
    {
        Wal { buffered: Vec::new() }
    }

    /// The checksum of a payload.
    pub fn checksum(payload: &[u8]) -> (r: u32)
        ensures
            r == crc32_of(payload@),
    {
        crc32(payload)
    }

    /// The entry at some place in the body of a record and the number of its bytes, if it is
    /// whole.
    fn read_item(body: &[u8], cursor: usize) -> (r: Option<(KeyVec, Vec<u8>, usize)>)
        requires
            cursor <= body@.len(),
        ensures
            match first_item(body@.skip(cursor as int)) {
                Some((e, n)) => r matches Some(item) && item.0@ == e.key && item.1@ == e.value
                    && item.2 == n && 0 < n <= body@.len() - cursor,
                None => r is None,
            },
    {
        let ghost left = body@.skip(cursor as int);
        let n = body.len() - cursor;
        if n < 2 {
            return None;
        }
        let k = get_u16(body, cursor) as usize;
        assert(u16_at(left, 0) == k);
        if n < k + 12 {
            return None;
        }
        let v = get_u16(body, cursor + k + 10) as usize;
        assert(u16_at(left, k + 10) == v);
        if n < k + v + 12 {
            return None;
        }
        let key = copy_range(body, cursor + 2, cursor + 2 + k);
        let ts = get_u64(body, cursor + k + 2);
        let value = copy_range(body, cursor + k + 12, cursor + k + 12 + v);
        proof {
            assert(left.subrange(2, k + 2) =~= key@);
            assert(u64_at(left, k + 2) == ts);
            assert(left.subrange(k + 12, k + v + 12) =~= value@);
        }
        Some((KeyVec::from_vec_with_ts(key, ts), value, k + v + 12))
    }

    /// The entries in the body of a record, if it is made of whole entries.
    fn read_body(body: &[u8]) -> (r: Option<Vec<(KeyVec, Vec<u8>)>>)
        ensures
            match r {
                Some(items) => parse_body(body@) == Some(item_entries(items@)),
                None => parse_body(body@) is None,
            },
    {
        let mut items: Vec<(KeyVec, Vec<u8>)> = Vec::new();
        let mut cursor: usize = 0;
        proof {
            assert(body@.skip(0) =~= body@);
            match parse_body(body@) {
                Some(es) => {
                    assert(item_entries(items@) + es =~= es);
                },
                None => {},
            }
        }
        while cursor < body.len()
            invariant
                cursor <= body@.len(),
                parse_body(body@) == match parse_body(body@.skip(cursor as int)) {
                    Some(es) => Some(item_entries(items@) + es),
                    None => None,
                },
            decreases body@.len() - cursor,
        {
            let ghost left = body@.skip(cursor as int);
            let ghost before = item_entries(items@);
            let (key, value, size) = match Self::read_item(body, cursor) {
                Some(item) => item,
                None => {
                    return None;
                },
            };
            items.push((key, value));
            proof {
                let e = Entry { key: key@, value: value@ };
                assert(left.skip(size as int) =~= body@.skip(cursor + size));
                assert(item_entries(items@) =~= before.push(e));
                match parse_body(body@.skip(cursor + size)) {
                    Some(es) => {
                        assert(before + (seq![e] + es) =~= item_entries(items@) + es);
                    },
                    None => {},
                }
            }
            cursor = cursor + size;
        }
        proof {
            assert(body@.skip(cursor as int) =~= Seq::<u8>::empty());
            assert(item_entries(items@) + Seq::<Entry>::empty() =~= item_entries(items@));
        }
        Some(items)
    }

    /// Puts the entries of a record into a map.
    fn replay(map: &mut VersionMap, items: &Vec<(KeyVec, Vec<u8>)>)
        requires
            old(map).wf(),
        ensures
            final(map).wf(),
            final(map).entries() == upsert_all(old(map).entries(), item_entries(items@)),
    {
        let ghost es = item_entries(items@);
        let mut i: usize = 0;
        assert(es.skip(0) =~= es);
        while i < items.len()
            invariant
                i <= items@.len(),
                es == item_entries(items@),
                map.wf(),
                upsert_all(old(map).entries(), es) == upsert_all(
                    map.entries(),
                    es.skip(i as int),
                ),
            decreases items@.len() - i,
        {
            assert(es.skip(i as int).drop_first() =~= es.skip(i + 1));
            assert(es[i as int] =~= (Entry {
                key: items@[i as int].0@,
                value: items@[i as int].1@,
            }));
            map.insert(items[i].0.as_key_slice(), items[i].1.as_slice());
            i += 1;
        }
        assert(es.skip(i as int) =~= Seq::<Entry>::empty());
    }

    /// Puts the entries of a log into a map and continues the log. Where the reading ends
    /// early, the entries of the records before that place are in the map.
    #[verifier::rlimit(40)]
    pub fn recover(log: &[u8], map: &mut VersionMap) -> (r: Result<Wal, Error>)
        requires
            old(map).wf(),
        ensures
            final(map).wf(),
            final(map).entries() == upsert_all(old(map).entries(), log_entries(log@)),
            match r {
                Ok(wal) => log_end(log@) is Done && wal.pending() == Seq::<u8>::empty(),
                Err(e) => match log_end(log@) {
                    LogEnd::Done => false,
                    LogEnd::TruncatedLength => e == Error::TruncatedLength,
                    LogEnd::TruncatedBody => e == Error::TruncatedBody,
                    LogEnd::MalformedBody => e == Error::MalformedBody,
                    LogEnd::TruncatedChecksum => e == Error::TruncatedChecksum,
                    LogEnd::ChecksumMismatch => e == Error::ChecksumMismatch,
                },
            },
    {
        let mut pos: usize = 0;
        assert(log@.skip(0) =~= log@);
        while pos < log.len()
            invariant
                pos <= log@.len(),
                map.wf(),
                log_end(log@) == log_end(log@.skip(pos as int)),
                upsert_all(old(map).entries(), log_entries(log@)) == upsert_all(
                    map.entries(),
                    log_entries(log@.skip(pos as int)),
                ),
            decreases log@.len() - pos,
        {
            let ghost left = log@.skip(pos as int);
            let left_len = log.len() - pos;
            if left_len < 4 {
                return Err(Error::TruncatedLength);
            }
            let n32 = get_u32(log, pos);
            let n = n32 as usize;
            assert(u32_at(left, 0) == n32);
            if left_len - 4 < n {
                return Err(Error::TruncatedBody);
            }
            let body = vstd::slice::slice_subrange(log, pos + 4, pos + 4 + n);
            assert(left.subrange(4, n + 4) =~= body@);
            let items = match Self::read_body(body) {
                Some(items) => items,
                None => {
                    return Err(Error::MalformedBody);
                },
            };
            if left_len - 4 - n < 4 {
                return Err(Error::TruncatedChecksum);
            }
            let expected = get_u32(log, pos + 4 + n);
            assert(u32_at(left, n + 4) == expected);
            if crc32(body) != expected {
                return Err(Error::ChecksumMismatch);
            }
            let ghost start = map.entries();
            Self::replay(map, &items);
            proof {
                lemma_upsert_all_append(
                    start,
                    item_entries(items@),
                    log_entries(left.skip(n + 8)),
                );
                assert(left.skip(n + 8) =~= log@.skip(pos + n + 8));
            }
            pos = pos + 4 + n + 4;
        }
        assert(log@.skip(pos as int) =~= Seq::<u8>::empty());
        Ok(Wal { buffered: Vec::new() })
    }

    /// Appends a record with one entry.
    pub fn put(&mut self, key: KeySlice, value: &[u8]) -> (r: Result<(), Error>)
        ensures
            r is Ok,
            final(self).pending() == old(self).pending() + record_bytes(
                item_bytes(Entry { key: key@, value: value@ }),
            ),
    {
        let batch = [(key, value)];
        let r = self.put_batch(&batch);
        proof {
            let e = Entry { key: key@, value: value@ };
            let es = batch_entries(batch@);
            assert(es =~= seq![e]);
            assert(es.drop_first() =~= Seq::<Entry>::empty());
            assert(body_bytes(es.drop_first()) =~= Seq::<u8>::empty());
            assert(body_bytes(es) =~= item_bytes(e));
        }
        r
    }

    /// Appends a record with the entries of a batch.
    pub fn put_batch(&mut self, data: &[(KeySlice, &[u8])]) -> (r: Result<(), Error>)
        ensures
            r is Ok,
            final(self).pending() == old(self).pending() + record_bytes(
                body_bytes(batch_entries(data@)),
            ),
    {
        let mut buf: Vec<u8> = Vec::new();
        let ghost es = batch_entries(data@);
        let mut i: usize = 0;
        assert(es.take(0) =~= Seq::<Entry>::empty());
        while i < data.len()
            invariant
                i <= data@.len(),
                es == batch_entries(data@),
                buf@ == body_bytes(es.take(i as int)),
            decreases data@.len() - i,
        {
            let ghost before = buf@;
            let key = data[i].0;
            let value = data[i].1;
            put_u16(&mut buf, #[verifier::truncate] (key.key_len() as u16));
            put_slice(&mut buf, key.key_ref());
            put_u64(&mut buf, key.ts());
            put_u16(&mut buf, #[verifier::truncate] (value.len() as u16));
            put_slice(&mut buf, value);
            proof {
                let e = es[i as int];
                assert(buf@ =~= before + item_bytes(e));
                lemma_body_push(es.take(i as int), e);
                assert(es.take(i as int).push(e) =~= es.take(i + 1));
            }
            i += 1;
        }
        assert(es.take(i as int) =~= es);
        let body_length = #[verifier::truncate] (buf.len() as u32);
        let checksum = Self::checksum(buf.as_slice());
        put_u32(&mut self.buffered, body_length);
        put_slice(&mut self.buffered, buf.as_slice());
        put_u32(&mut self.buffered, checksum);
        assert(self.buffered@ =~= old(self).buffered@ + record_bytes(body_bytes(es)));
        Ok(())
    }

    /// Hands out the bytes that have to be appended to the file and made durable.
    pub fn sync(&mut self) -> (r: Vec<u8>)
        ensures
            r@ == old(self).pending(),
            final(self).pending() == Seq::<u8>::empty(),
    {
        let mut out: Vec<u8> = Vec::new();
        std::mem::swap(&mut out, &mut self.buffered);
        out
    }
}

/// The entries of some owned pairs.
pub open spec fn item_entries(items: Seq<(KeyVec, Vec<u8>)>) -> Seq<Entry> {
    Seq::new(items.len(), |i: int| Entry { key: items[i].0@, value: items[i].1@ })
}

} // verus!
