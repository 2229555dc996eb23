//! The manifest: records of what happened to the set of tables, each with a checksum.
use vstd::prelude::*;
use crate::codec::{be32, copy_range, get_u32, holds_at, lemma_u32_at, put_slice, put_u32, u32_at};
use crate::compact::CompactionTask;
use crate::error::Error;
use crate::hash::{crc32, crc32_of};

verus! {

/// What the manifest records.
#[derive(Debug)]
pub enum ManifestRecord {
    /// A memtable became the table with this identifier.
    Flush(usize),
    /// A memtable with this identifier was created.
    NewMemtable(usize),
    /// A compaction produced these tables.
    Compaction(CompactionTask, Vec<usize>),
}

/// The bytes of a record: the length, the encoded record and its checksum. The length keeps
/// its lower thirty-two bits.
pub open spec fn frame_bytes(record: Seq<u8>) -> Seq<u8> {
    be32(record.len() as u32) + record + be32(crc32_of(record))
}

/// The bytes of a manifest with some encoded records.
pub open spec fn manifest_bytes(records: Seq<Seq<u8>>) -> Seq<u8>
    decreases records.len(),
{
    if records.len() == 0 {
        Seq::empty()
    } else {
        frame_bytes(records[0]) + manifest_bytes(records.drop_first())
    }
}

/// What stands at the start of the rest of a manifest.
#[verifier::ext_equal]
pub enum Frame {
    /// No whole length: the manifest ends here.
    End,
    /// A record that is cut off.
    TruncatedBody,
    /// A checksum that is cut off.
    TruncatedChecksum,
    /// A record that does not match its checksum.
    ChecksumMismatch,
    /// A record.
    Record(Seq<u8>),
}

/// What stands at the start of the rest of a manifest.
pub open spec fn first_frame(bytes: Seq<u8>) -> Frame {
    let n = u32_at(bytes, 0);
    let record = bytes.subrange(4, n + 4);
    if bytes.len() < 4 {
        Frame::End
    } else if bytes.len() < n + 4 {
        Frame::TruncatedBody
    } else if bytes.len() < n + 8 {
        Frame::TruncatedChecksum
    } else if u32_at(bytes, n + 4) != crc32_of(record) {
        Frame::ChecksumMismatch
    } else {
        Frame::Record(record)
    }
}

/// How the reading of a manifest ends: not with a record.
pub open spec fn manifest_end(bytes: Seq<u8>) -> Frame
    decreases bytes.len(),
{
    match first_frame(bytes) {
        Frame::Record(record) => manifest_end(bytes.skip((record.len() + 8) as int)),
        f => f,
    }
}

/// The encoded records before the reading of a manifest ends.
pub open spec fn manifest_records(bytes: Seq<u8>) -> Seq<Seq<u8>>
    decreases bytes.len(),
{
    match first_frame(bytes) {
        Frame::Record(record) => seq![record] + manifest_records(
            bytes.skip((record.len() + 8) as int),
        ),
        _ => Seq::empty(),
    }
}

/// The contents of some owned byte strings.
pub open spec fn contents(v: Seq<Vec<u8>>) -> Seq<Seq<u8>> {
    Seq::new(v.len(), |i: int| v[i]@)
}

proof fn lemma_first_frame(record: Seq<u8>, more: Seq<u8>)
    requires
        record.len() <= 0xffff_ffff,
    ensures
        first_frame(frame_bytes(record) + more) == Frame::Record(record),
        (frame_bytes(record) + more).skip((record.len() + 8) as int) == more,
{
    let bytes = frame_bytes(record) + more;
    let n = record.len() as int;
    assert(bytes.subrange(0, 4) =~= be32(record.len() as u32));
    assert(holds_at(bytes, 0, be32(record.len() as u32)));
    lemma_u32_at(bytes, 0, record.len() as u32);
    assert(bytes.subrange(4, n + 4) =~= record);
    assert(bytes.subrange(n + 4, n + 8) =~= be32(crc32_of(record)));
    assert(holds_at(bytes, n + 4, be32(crc32_of(record))));
    lemma_u32_at(bytes, n + 4, crc32_of(record));
    assert(bytes.skip(n + 8) =~= more);
}

/// Reading back a manifest gives the records that were added, in order, if their lengths fit
/// the length field.
pub proof fn lemma_manifest_round_trip(records: Seq<Seq<u8>>)
    requires
        forall|i: int| 0 <= i < records.len() ==> (#[trigger] records[i]).len() <= 0xffff_ffff,
    ensures
        manifest_end(manifest_bytes(records)) == Frame::End,
        manifest_records(manifest_bytes(records)) == records,
    decreases records.len(),
{
    if records.len() > 0 {
        let t = records.drop_first();
        assert forall|i: int| 0 <= i < t.len() implies (#[trigger] t[i]).len() <= 0xffff_ffff by {
            assert(t[i] == records[i + 1]);
        }
        lemma_manifest_round_trip(t);
        assert(records[0].len() <= 0xffff_ffff);
        lemma_first_frame(records[0], manifest_bytes(t));
        assert(records =~= seq![records[0]] + t);
    } else {
        assert(manifest_records(manifest_bytes(records)) =~= records);
    }
}

/// What stands behind whole records does not change what is read of them: first all of these are
/// read, in order, and how the reading ends depends on what follows.
pub proof fn lemma_manifest_followed(records: Seq<Seq<u8>>, more: Seq<u8>)
    requires
        forall|i: int| 0 <= i < records.len() ==> (#[trigger] records[i]).len() <= 0xffff_ffff,
    ensures
        manifest_end(manifest_bytes(records) + more) == manifest_end(more),
        manifest_records(manifest_bytes(records) + more) == records + manifest_records(more),
    decreases records.len(),
{
    if records.len() > 0 {
        let t = records.drop_first();
        assert forall|i: int| 0 <= i < t.len() implies (#[trigger] t[i]).len() <= 0xffff_ffff by {
            assert(t[i] == records[i + 1]);
        }
        lemma_manifest_followed(t, more);
        assert(records[0].len() <= 0xffff_ffff);
        lemma_first_frame(records[0], manifest_bytes(t) + more);
        assert(manifest_bytes(records) + more =~= frame_bytes(records[0]) + (manifest_bytes(t)
            + more));
        assert(records + manifest_records(more) =~= seq![records[0]] + (t + manifest_records(
            more,
        )));
    } else {
        assert(manifest_bytes(records) + more =~= more);
        assert(records + manifest_records(more) =~= manifest_records(more));
    }
}

/// A record that is cut off behind its length is noticed, and nothing of it is read. What stands
/// before it is.
pub proof fn lemma_manifest_cut_off(records: Seq<Seq<u8>>, record: Seq<u8>, n: int)
    requires
        forall|i: int| 0 <= i < records.len() ==> (#[trigger] records[i]).len() <= 0xffff_ffff,
        record.len() <= 0xffff_ffff,
        4 <= n < frame_bytes(record).len(),
    ensures
        ({
            let bytes = manifest_bytes(records) + frame_bytes(record).take(n);
            &&& manifest_end(bytes) is TruncatedBody || manifest_end(bytes) is TruncatedChecksum
            &&& manifest_records(bytes) == records
        }),
{
    let tail = frame_bytes(record).take(n);
    lemma_manifest_followed(records, tail);
    assert(tail.subrange(0, 4) =~= be32(record.len() as u32));
    assert(holds_at(tail, 0, be32(record.len() as u32)));
    lemma_u32_at(tail, 0, record.len() as u32);
    assert(records + Seq::<Seq<u8>>::empty() =~= records);
}

/// A record that does not match its checksum is noticed, and nothing of it or behind it is read.
/// What stands before it is.
pub proof fn lemma_manifest_damaged(
    records: Seq<Seq<u8>>,
    record: Seq<u8>,
    checksum: u32,
    more: Seq<u8>,
)
    requires
        forall|i: int| 0 <= i < records.len() ==> (#[trigger] records[i]).len() <= 0xffff_ffff,
        record.len() <= 0xffff_ffff,
        checksum != crc32_of(record),
    ensures
        ({
            let bytes = manifest_bytes(records) + (be32(record.len() as u32) + record + be32(
                checksum,
            ) + more);
            &&& manifest_end(bytes) is ChecksumMismatch
            &&& manifest_records(bytes) == records
        }),
{
    let tail = be32(record.len() as u32) + record + be32(checksum) + more;
    lemma_manifest_followed(records, tail);
    lemma_wrong_frame(record, checksum, more);
    assert(records + Seq::<Seq<u8>>::empty() =~= records);
}

proof fn lemma_wrong_frame(record: Seq<u8>, checksum: u32, more: Seq<u8>)
    requires
        record.len() <= 0xffff_ffff,
        checksum != crc32_of(record),
    ensures
        first_frame(be32(record.len() as u32) + record + be32(checksum) + more)
            == Frame::ChecksumMismatch,
{
    let bytes = be32(record.len() as u32) + record + be32(checksum) + more;
    let n = record.len() as int;
    assert(bytes.subrange(0, 4) =~= be32(record.len() as u32));
    assert(holds_at(bytes, 0, be32(record.len() as u32)));
    lemma_u32_at(bytes, 0, record.len() as u32);
    assert(bytes.subrange(4, n + 4) =~= record);
    assert(bytes.subrange(n + 4, n + 8) =~= be32(checksum));
    assert(holds_at(bytes, n + 4, be32(checksum)));
    lemma_u32_at(bytes, n + 4, checksum);
}

/// The manifest. It holds what was added and has not been handed to the file yet.
pub struct Manifest {
    buffered: Vec<u8>,
}

impl Manifest {
    /// The bytes that the file does not hold yet.
    pub closed spec fn pending(&self) -> Seq<u8> {
        self.buffered@
    }

    /// Starts a manifest.
    pub fn create() -> (r: Manifest)
        ensures
            r.pending() == Seq::<u8>::empty(),
    {
        Manifest { buffered: Vec::new() }
    }

    /// Reads the record that starts at `pos` and tells where the next one starts. Returns
    /// `None` where no whole length is left.
    pub fn read_record(bytes: &[u8], pos: usize) -> (r: Result<Option<(Vec<u8>, usize)>, Error>)
        requires
            pos <= bytes.len(),
        ensures
            match first_frame(bytes@.skip(pos as int)) {
                Frame::End => r == Ok::<Option<(Vec<u8>, usize)>, Error>(None),
                Frame::TruncatedBody => r == Err::<Option<(Vec<u8>, usize)>, Error>(
                    Error::TruncatedBody,
                ),
                Frame::TruncatedChecksum => r == Err::<Option<(Vec<u8>, usize)>, Error>(
                    Error::TruncatedChecksum,
                ),
                Frame::ChecksumMismatch => r == Err::<Option<(Vec<u8>, usize)>, Error>(
                    Error::ChecksumMismatch,
                ),
                Frame::Record(record) => r matches Ok(Some(item)) && item.0@ == record && item.1
                    == pos + record.len() + 8 && item.1 <= bytes.len(),
            },
    {
        let ghost left = bytes@.skip(pos as int);
        let left_len = bytes.len() - pos;
        if left_len < 4 {
            return Ok(None);
        }
        let n32 = get_u32(bytes, pos);
        let length = n32 as usize;
        assert(u32_at(left, 0) == n32);
        if left_len - 4 < length {
            return Err(Error::TruncatedBody);
        }
        let encoded_record = copy_range(bytes, pos + 4, pos + 4 + length);
        assert(left.subrange(4, length + 4) =~= encoded_record@);
        if left_len - 4 - length < 4 {
            return Err(Error::TruncatedChecksum);
        }
        let expected = get_u32(bytes, pos + 4 + length);
        assert(u32_at(left, length + 4) == expected);
        let actual = crc32(encoded_record.as_slice());
        if actual != expected {
            return Err(Error::ChecksumMismatch);
        }
        Ok(Some((encoded_record, pos + 4 + length + 4)))
    }

    /// Reads all records of a manifest and continues it.
    pub fn recover(bytes: &[u8]) -> (r: Result<(Manifest, Vec<Vec<u8>>), Error>)
        ensures
            match r {
                Ok((manifest, records)) => {
                    &&& manifest_end(bytes@) == Frame::End
                    &&& manifest.pending() == Seq::<u8>::empty()
                    &&& contents(records@) == manifest_records(bytes@)
                },
                Err(e) => match manifest_end(bytes@) {
                    Frame::TruncatedBody => e == Error::TruncatedBody,
                    Frame::TruncatedChecksum => e == Error::TruncatedChecksum,
                    Frame::ChecksumMismatch => e == Error::ChecksumMismatch,
                    _ => false,
                },
            },
    {
        let mut records: Vec<Vec<u8>> = Vec::new();
        let mut pos: usize = 0;
        proof {
            assert(bytes@.skip(0) =~= bytes@);
            assert(contents(records@) + manifest_records(bytes@) =~= manifest_records(bytes@));
        }
        loop
            invariant
                pos <= bytes@.len(),
                manifest_end(bytes@) == manifest_end(bytes@.skip(pos as int)),
                manifest_records(bytes@) == contents(records@) + manifest_records(
                    bytes@.skip(pos as int),
                ),
            decreases bytes@.len() - pos,
        {
            let ghost left = bytes@.skip(pos as int);
            match Self::read_record(bytes, pos)? {
                None => {
                    assert(contents(records@) + Seq::<Seq<u8>>::empty() =~= contents(records@));
                    return Ok((Manifest { buffered: Vec::new() }, records));
                },
                Some((record, next)) => {
                    let ghost before = contents(records@);
                    let ghost rec = record@;
                    records.push(record);
                    proof {
                        assert(left.skip((rec.len() + 8) as int) =~= bytes@.skip(next as int));
                        assert(contents(records@) =~= before.push(rec));
                        assert(before + (seq![rec] + manifest_records(bytes@.skip(next as int)))
                            =~= contents(records@) + manifest_records(bytes@.skip(next as int)));
                    }
                    pos = next;
                },
            }
        }
    }

    /// Adds an encoded record.
    pub fn add_record(&mut self, encoded_record: &[u8]) -> (r: Result<(), Error>)
        ensures
            r is Ok,
            final(self).pending() == old(self).pending() + frame_bytes(encoded_record@),
    {
        self.add_record_when_init(encoded_record)
    }

    /// Adds an encoded record while the engine starts.
    pub fn add_record_when_init(&mut self, encoded_record: &[u8]) -> (r: Result<(), Error>)
        ensures
            r is Ok,
            final(self).pending() == old(self).pending() + frame_bytes(encoded_record@),
    {
        let length = #[verifier::truncate] (encoded_record.len() as u32);
        let checksum = crc32(encoded_record);
        put_u32(&mut self.buffered, length);
        put_slice(&mut self.buffered, encoded_record);
        put_u32(&mut self.buffered, checksum);
        assert(self.buffered@ =~= old(self).buffered@ + frame_bytes(encoded_record@));
        Ok(())
    }

    /// Hands out the bytes that have to be appended to the file and made durable.
    pub fn sync(&mut self) -> (r: Vec<u8>)
        ensures
            r@ == old(self).pending(),
            final(self).pending() == Seq::<u8>::empty(),
    {
        let mut out: Vec<u8> = Vec::new();
        std::mem::swap(&mut out, &mut self.buffered);
        out
    }
}

} // verus!
