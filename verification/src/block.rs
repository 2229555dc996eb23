//! Blocks of key-value entries.
//!
//! A block comes in two forms. In the stored form an entry names how many leading bytes its
//! key shares with the first key of the block and holds only the rest:
//!
//! ```text
//! | overlap (u16) | rest_len (u16) | rest of the key | value_len (u16) | value |
//! ```
//!
//! In the plain form, in which a block is searched, every entry holds its whole key:
//!
//! ```text
//! | key_len (u16) | key | value_len (u16) | value |
//! ```
//!
//! All numbers are big-endian. The key bytes are the user key followed by its timestamp. A
//! block that is written out ends with the offsets of its entries (u16 each) and their
//! number (u16).
pub mod builder;
pub mod iterator;

use vstd::prelude::*;
use crate::codec::{
    be16, copy_range, get_u16, lemma_holds_split, lemma_u16_at, put_slice, put_u16, u16_at,
};
use crate::entry::Entry;
use crate::error::Error;
use crate::key::parse_raw;



verus! {

/// The key bytes and the value of an entry.
#[verifier::ext_equal]
pub struct RawEntry {
    pub key: Seq<u8>,
    pub value: Seq<u8>,
}

/// The entries with their key bytes read as keys.
#[verifier::opaque]
pub open spec fn typed(s: Seq<RawEntry>) -> Seq<Entry> {
    Seq::new(s.len(), |i: int| Entry { key: parse_raw(s[i].key), value: s[i].value })
}

/// Reading the key bytes as keys, entry by entry.
pub proof fn lemma_typed(s: Seq<RawEntry>)
    ensures
        typed(s).len() == s.len(),
        forall|i: int|
            0 <= i < s.len() ==> #[trigger] typed(s)[i] == (Entry {
                key: parse_raw(s[i].key),
                value: s[i].value,
            }),
{
    reveal(typed);
}

// The plain form.

pub open spec fn plain_key_len(d: Seq<u8>, p: int) -> int {
    u16_at(d, p)
}

pub open spec fn plain_value_start(d: Seq<u8>, p: int) -> int {
    p + 4 + plain_key_len(d, p)
}

pub open spec fn plain_value_end(d: Seq<u8>, p: int) -> int {
    plain_value_start(d, p) + u16_at(d, p + 2 + plain_key_len(d, p))
}

/// Whether a whole entry in plain form stands at `p`.
pub open spec fn plain_ok(d: Seq<u8>, p: int) -> bool {
    &&& 0 <= p
    &&& p + 2 <= d.len()
    &&& plain_value_start(d, p) <= d.len()
    &&& plain_value_end(d, p) <= d.len()
}

/// The entry in plain form at `p`.
pub open spec fn plain_entry_at(d: Seq<u8>, p: int) -> RawEntry {
    RawEntry {
        key: d.subrange(p + 2, p + 2 + plain_key_len(d, p)),
        value: d.subrange(plain_value_start(d, p), plain_value_end(d, p)),
    }
}

/// The bytes of an entry in plain form.
pub open spec fn plain_bytes(e: RawEntry) -> Seq<u8> {
    be16(e.key.len() as u16) + e.key + be16(e.value.len() as u16) + e.value
}

// The stored form.

pub open spec fn stored_overlap(d: Seq<u8>, p: int) -> int {
    u16_at(d, p)
}

pub open spec fn stored_rest_len(d: Seq<u8>, p: int) -> int {
    u16_at(d, p + 2)
}

pub open spec fn stored_rest(d: Seq<u8>, p: int) -> Seq<u8> {
    d.subrange(p + 4, p + 4 + stored_rest_len(d, p))
}

pub open spec fn stored_value_start(d: Seq<u8>, p: int) -> int {
    p + 6 + stored_rest_len(d, p)
}

pub open spec fn stored_value_end(d: Seq<u8>, p: int) -> int {
    stored_value_start(d, p) + u16_at(d, p + 4 + stored_rest_len(d, p))
}

/// Whether a whole entry in stored form stands at `p`, for a block whose first key is `first`.
pub open spec fn stored_ok(d: Seq<u8>, p: int, first: Seq<u8>) -> bool {
    &&& 0 <= p
    &&& p + 4 <= d.len()
    &&& stored_value_start(d, p) <= d.len()
    &&& stored_value_end(d, p) <= d.len()
    &&& stored_overlap(d, p) <= first.len()
}

/// The entry in stored form at `p`, for a block whose first key is `first`.
pub open spec fn stored_entry_at(d: Seq<u8>, p: int, first: Seq<u8>) -> RawEntry {
    RawEntry {
        key: first.subrange(0, stored_overlap(d, p)) + stored_rest(d, p),
        value: d.subrange(stored_value_start(d, p), stored_value_end(d, p)),
    }
}

/// The bytes of an entry in stored form that shares `overlap` bytes with the first key.
pub open spec fn stored_bytes(overlap: int, e: RawEntry) -> Seq<u8> {
    be16(overlap as u16) + be16((e.key.len() - overlap) as u16) + e.key.skip(overlap) + be16(
        e.value.len() as u16,
    ) + e.value
}

/// The first key of a block in stored form.
pub open spec fn stored_first(d: Seq<u8>, offsets: Seq<usize>) -> Seq<u8> {
    if offsets.len() == 0 {
        Seq::empty()
    } else {
        stored_rest(d, offsets[0] as int)
    }
}

/// Whether a block in stored form holds a whole entry at every offset.
#[verifier::opaque]
pub open spec fn stored_wf(d: Seq<u8>, offsets: Seq<usize>) -> bool {
    &&& offsets.len() > 0 ==> offsets[0] + 4 <= d.len() && stored_overlap(d, offsets[0] as int) == 0
    &&& forall|i: int|
        0 <= i < offsets.len() ==> stored_ok(d, #[trigger] offsets[i] as int, stored_first(d, offsets))
}

/// The entries of a block in stored form.
#[verifier::opaque]
pub open spec fn stored_entries(d: Seq<u8>, offsets: Seq<usize>) -> Seq<RawEntry> {
    Seq::new(
        offsets.len(),
        |i: int| stored_entry_at(d, offsets[i] as int, stored_first(d, offsets)),
    )
}

/// The two bytes of each offset, in order.
pub open spec fn offset_bytes(offsets: Seq<usize>) -> Seq<u8>
    decreases offsets.len(),
{
    if offsets.len() == 0 {
        Seq::empty()
    } else {
        offset_bytes(offsets.drop_last()) + be16(offsets.last() as u16)
    }
}

/// The bytes of a block that is written out: the entries, their offsets and their number.
pub open spec fn block_image(d: Seq<u8>, offsets: Seq<usize>) -> Seq<u8> {
    d + offset_bytes(offsets) + be16((offsets.len() % 65536) as u16)
}

/// The number of offsets at the end of a written block.
pub open spec fn image_count(image: Seq<u8>) -> int {
    u16_at(image, image.len() - 2)
}

/// Where the offsets start in a written block.
pub open spec fn image_offsets_start(image: Seq<u8>) -> int {
    image.len() - 2 - 2 * image_count(image)
}

/// Whether the bytes are long enough for the offsets that they claim to hold.
pub open spec fn decodable(image: Seq<u8>) -> bool {
    image.len() >= 2 && image_offsets_start(image) >= 0
}

pub open spec fn decoded_data(image: Seq<u8>) -> Seq<u8> {
    image.subrange(0, image_offsets_start(image))
}

pub open spec fn decoded_offsets(image: Seq<u8>) -> Seq<usize> {
    Seq::new(
        image_count(image) as nat,
        |i: int| u16_at(image, image_offsets_start(image) + 2 * i) as usize,
    )
}

pub proof fn lemma_offset_bytes(offsets: Seq<usize>)
    ensures
        offset_bytes(offsets).len() == 2 * offsets.len(),
        forall|i: int|
            0 <= i < offsets.len() && offsets[i] <= 0xffff ==> u16_at(offset_bytes(offsets), 2 * i)
                == #[trigger] offsets[i],
    decreases offsets.len(),
{
    if offsets.len() > 0 {
        let init = offsets.drop_last();
        lemma_offset_bytes(init);
        let b = offset_bytes(offsets);
        assert forall|i: int| 0 <= i < offsets.len() && offsets[i] <= 0xffff implies u16_at(b, 2 * i)
            == #[trigger] offsets[i] by {
            if i < init.len() {
                assert(init[i] == offsets[i]);
                assert(u16_at(b, 2 * i) == u16_at(offset_bytes(init), 2 * i));
            } else {
                let x = offsets.last() as u16;
                assert(b[2 * i] == be16(x)[0] && b[2 * i + 1] == be16(x)[1]);
            }
        }
    }
}

/// A block that is written out and decoded is the same block again.
pub proof fn lemma_decode_image(d: Seq<u8>, offsets: Seq<usize>)
    requires
        offsets.len() <= 0xffff,
        forall|i: int| 0 <= i < offsets.len() ==> #[trigger] offsets[i] <= 0xffff,
    ensures
        decodable(block_image(d, offsets)),
        decoded_data(block_image(d, offsets)) == d,
        decoded_offsets(block_image(d, offsets)) == offsets,
{
    let image = block_image(d, offsets);
    let ob = offset_bytes(offsets);
    let n = offsets.len();
    lemma_offset_bytes(offsets);
    let last = be16((n % 65536) as u16);
    assert(image[image.len() - 2] == last[0] && image[image.len() - 1] == last[1]);
    assert(image_count(image) == n);
    assert(decoded_data(image) =~= d);
    assert forall|i: int| 0 <= i < n implies decoded_offsets(image)[i] == offsets[i] by {
        let p = d.len() + 2 * i;
        assert(image[p] == ob[2 * i] && image[p + 1] == ob[2 * i + 1]);
        assert(u16_at(image, p) == u16_at(ob, 2 * i));
    }
    assert(decoded_offsets(image) =~= offsets);
}

pub proof fn lemma_plain_append(d: Seq<u8>, p: int, more: Seq<u8>)
    requires
        plain_ok(d, p),
    ensures
        plain_ok(d + more, p),
        plain_entry_at(d + more, p) == plain_entry_at(d, p),
{
    let x = d + more;
    assert(x[p] == d[p] && x[p + 1] == d[p + 1]);
    let q = p + 2 + plain_key_len(d, p);
    assert(x[q] == d[q] && x[q + 1] == d[q + 1]);
    assert(plain_entry_at(x, p).key =~= plain_entry_at(d, p).key);
    assert(plain_entry_at(x, p).value =~= plain_entry_at(d, p).value);
}

pub proof fn lemma_plain_bytes_at(d: Seq<u8>, e: RawEntry)
    requires
        e.key.len() <= 0xffff,
        e.value.len() <= 0xffff,
    ensures
        plain_ok(d + plain_bytes(e), d.len() as int),
        plain_entry_at(d + plain_bytes(e), d.len() as int) == e,
{
    let x = d + plain_bytes(e);
    let p = d.len() as int;
    let k = be16(e.key.len() as u16);
    let v = be16(e.value.len() as u16);
    assert(x.subrange(p, p + plain_bytes(e).len()) =~= plain_bytes(e));
    lemma_holds_split(x, p, k + e.key + v, e.value);
    lemma_holds_split(x, p, k + e.key, v);
    lemma_holds_split(x, p, k, e.key);
    lemma_u16_at(x, p, e.key.len() as u16);
    lemma_u16_at(x, p + 2 + e.key.len(), e.value.len() as u16);
    assert(plain_entry_at(x, p).key =~= e.key);
    assert(plain_entry_at(x, p).value =~= e.value);
}

pub proof fn lemma_stored_append(d: Seq<u8>, p: int, first: Seq<u8>, more: Seq<u8>)
    requires
        stored_ok(d, p, first),
    ensures
        stored_ok(d + more, p, first),
        stored_entry_at(d + more, p, first) == stored_entry_at(d, p, first),
        stored_overlap(d + more, p) == stored_overlap(d, p),
        stored_rest(d + more, p) == stored_rest(d, p),
{
    let x = d + more;
    assert(x[p] == d[p] && x[p + 1] == d[p + 1] && x[p + 2] == d[p + 2] && x[p + 3] == d[p + 3]);
    let q = p + 4 + stored_rest_len(d, p);
    assert(x[q] == d[q] && x[q + 1] == d[q + 1]);
    assert(stored_rest(x, p) =~= stored_rest(d, p));
    assert(stored_entry_at(x, p, first).value =~= stored_entry_at(d, p, first).value);
}

#[verifier::rlimit(40)]
pub proof fn lemma_stored_bytes_at(d: Seq<u8>, overlap: int, e: RawEntry, first: Seq<u8>)
    requires
        0 <= overlap <= e.key.len(),
        overlap <= first.len(),
        overlap <= 0xffff,
        e.key.len() - overlap <= 0xffff,
        e.value.len() <= 0xffff,
        first.subrange(0, overlap) == e.key.subrange(0, overlap),
    ensures
        stored_ok(d + stored_bytes(overlap, e), d.len() as int, first),
        stored_entry_at(d + stored_bytes(overlap, e), d.len() as int, first) == e,
        stored_overlap(d + stored_bytes(overlap, e), d.len() as int) == overlap,
        stored_rest(d + stored_bytes(overlap, e), d.len() as int) == e.key.skip(overlap),
{
    let x = d + stored_bytes(overlap, e);
    let p = d.len() as int;
    let o = be16(overlap as u16);
    let r = be16((e.key.len() - overlap) as u16);
    let rest = e.key.skip(overlap);
    let v = be16(e.value.len() as u16);
    assert(x.subrange(p, p + stored_bytes(overlap, e).len()) =~= stored_bytes(overlap, e));
    lemma_holds_split(x, p, o + r + rest + v, e.value);
    lemma_holds_split(x, p, o + r + rest, v);
    lemma_holds_split(x, p, o + r, rest);
    lemma_holds_split(x, p, o, r);
    lemma_u16_at(x, p, overlap as u16);
    lemma_u16_at(x, p + 2, (e.key.len() - overlap) as u16);
    lemma_u16_at(x, p + 4 + rest.len(), e.value.len() as u16);
    assert(stored_rest(x, p) =~= rest);
    assert(stored_entry_at(x, p, first).key =~= e.key);
    assert(stored_entry_at(x, p, first).value =~= e.value);
}

/// A block is the smallest unit of reading: a collection of sorted key-value pairs.
pub struct Block {
    pub(crate) data: Vec<u8>,
    pub(crate) offsets: Vec<usize>,
}

impl Block {
    pub closed spec fn data(&self) -> Seq<u8> {
        self.data@
    }

    pub closed spec fn offsets(&self) -> Seq<usize> {
        self.offsets@
    }

    /// Whether a whole entry in plain form stands at every offset.
    pub open spec fn plain_wf(&self) -> bool {
        forall|i: int|
            0 <= i < self.offsets().len() ==> plain_ok(self.data(), #[trigger] self.offsets()[i] as int)
    }

    /// The entries of a block in plain form, as bytes.
    pub open spec fn plain_entries(&self) -> Seq<RawEntry> {
        Seq::new(
            self.offsets().len(),
            |i: int| plain_entry_at(self.data(), self.offsets()[i] as int),
        )
    }

    /// The entries of a block in plain form.
    pub open spec fn entries(&self) -> Seq<Entry> {
        typed(self.plain_entries())
    }

    /// Writes the block out: the entries, then the offsets, then the number of offsets.
    pub fn encode(&self) -> (image: Vec<u8>)
        requires
            forall|i: int| 0 <= i < self.offsets().len() ==> #[trigger] self.offsets()[i] <= 0xffff,
        ensures
            image@ == block_image(self.data(), self.offsets()),
    {
        let mut buff: Vec<u8> = Vec::new();
        put_slice(&mut buff, self.data.as_slice());
        assert(buff@ =~= self.data@ + offset_bytes(self.offsets@.take(0)));
        let mut i: usize = 0;
        while i < self.offsets.len()
            invariant
                i <= self.offsets@.len(),
                buff@ == self.data@ + offset_bytes(self.offsets@.take(i as int)),
                forall|j: int|
                    0 <= j < self.offsets().len() ==> #[trigger] self.offsets()[j] <= 0xffff,
            decreases self.offsets@.len() - i,
        {
            assert(self.offsets()[i as int] <= 0xffff);
            put_u16(&mut buff, self.offsets[i] as u16);
            proof {
                let t = self.offsets@.take(i + 1);
                assert(t.drop_last() =~= self.offsets@.take(i as int));
                assert(t.last() == self.offsets@[i as int]);
                assert(buff@ =~= self.data@ + offset_bytes(t));
            }
            i += 1;
        }
        assert(self.offsets@.take(i as int) =~= self.offsets@);
        put_u16(&mut buff, (self.offsets.len() % 65536) as u16);
        assert(buff@ =~= block_image(self.data(), self.offsets()));
        buff
    }

    /// Reads a block that was written out.
    pub fn decode(data: &[u8]) -> (block: Block)
        requires
            decodable(data@),
        ensures
            block.data() == decoded_data(data@),
            block.offsets() == decoded_offsets(data@),
    {
        let num_offsets = get_u16(data, data.len() - 2) as usize;
        let offsets_start = data.len() - 2 - num_offsets * 2;
        let mut offsets: Vec<usize> = Vec::new();
        let mut i: usize = 0;
        while i < num_offsets
            invariant
                i <= num_offsets,
                decodable(data@),
                num_offsets == image_count(data@),
                offsets_start == image_offsets_start(data@),
                offsets_start + 2 * num_offsets + 2 == data.len(),
                offsets@.len() == i,
                forall|j: int|
                    0 <= j < i ==> #[trigger] offsets@[j] == u16_at(data@, offsets_start + 2 * j),
            decreases num_offsets - i,
        {
            let x = get_u16(data, offsets_start + 2 * i) as usize;
            offsets.push(x);
            i += 1;
        }
        assert(offsets@ =~= decoded_offsets(data@));
        Block { data: copy_range(data, 0, offsets_start), offsets }
    }

    /// What turning a block in stored form into plain form gives.
    pub open spec fn expanded(&self, r: Result<Block, Error>) -> bool {
        match r {
            Ok(block) => {
                &&& stored_wf(self.data(), self.offsets())
                &&& short_keys(stored_entries(self.data(), self.offsets()))
                &&& block.plain_wf()
                &&& block.plain_entries() == stored_entries(self.data(), self.offsets())
            },
            Err(Error::CorruptBlock) => !stored_wf(self.data(), self.offsets()),
            Err(Error::EntryTooLarge) => !short_keys(stored_entries(self.data(), self.offsets())),
            Err(_) => false,
        }
    }

    /// Turns a block in stored form into the block in plain form with the same entries. Fails
    /// on a block that holds no whole entry at some offset, and on a key that does not fit
    /// the length field of the plain form.
    pub fn expand(&self) -> (r: Result<Block, Error>)
        ensures
            self.expanded(r),
    {
        reveal(stored_wf);
        reveal(stored_entries);
        let mut data: Vec<u8> = Vec::new();
        let mut offsets: Vec<usize> = Vec::new();
        let n = self.offsets.len();
        if n == 0 {
            let block = Block { data, offsets };
            assert(block.plain_entries() =~= stored_entries(self.data(), self.offsets()));
            return Ok(block);
        }
        let d = self.data.as_slice();
        let ghost offs = self.offsets@;
        let ghost fs = stored_first(self.data@, offs);
        let p0 = self.offsets[0];
        if p0 > d.len() || d.len() - p0 < 4 || get_u16(d, p0) != 0 {
            assert(!stored_ok(d@, offs[0] as int, fs) || stored_overlap(d@, offs[0] as int) != 0);
            return Err(Error::CorruptBlock);
        }
        let r0 = get_u16(d, p0 + 2) as usize;
        if d.len() - p0 - 4 < r0 {
            assert(!stored_ok(d@, offs[0] as int, fs));
            return Err(Error::CorruptBlock);
        }
        let first = copy_range(d, p0 + 4, p0 + 4 + r0);
        let ghost es = stored_entries(d@, offs);
        let mut i: usize = 0;
        while i < n
            invariant
                i <= n,
                n == offs.len(),
                d@ == self.data@,
                offs == self.offsets@,
                fs == first@,
                fs == stored_first(self.data@, offs),
                es == stored_entries(self.data@, offs),
                es.len() == n,
                forall|j: int|
                    0 <= j < n ==> #[trigger] es[j] == stored_entry_at(d@, offs[j] as int, fs),
                offsets@.len() == i,
                forall|j: int| 0 <= j < i ==> stored_ok(d@, #[trigger] offs[j] as int, fs),
                forall|j: int| 0 <= j < i ==> (#[trigger] es[j]).key.len() <= 0xffff,
                plain_prefix(data@, offsets@, es),
            ensures
                i == n,
            decreases n - i,
        {
            let p = self.offsets[i];
            let span = match stored_span(d, p, first.len(), Ghost(fs)) {
                None => {
                    reveal(stored_wf);
                    assert(!stored_ok(d@, offs[i as int] as int, fs));
                    return Err(Error::CorruptBlock);
                },
                Some(span) => span,
            };
            if span.overlap + span.rest_len > 0xffff {
                assert(es[i as int].key.len() > 0xffff);
                return Err(Error::EntryTooLarge);
            }
            push_plain(&mut data, &mut offsets, d, p, first.as_slice(), span, Ghost(es));
            i += 1;
        }
        let block = Block { data, offsets };
        assert(block.plain_entries() =~= stored_entries(self.data(), self.offsets()));
        Ok(block)
    }
}

/// Whether every key fits the length field of the plain form.
pub open spec fn short_keys(s: Seq<RawEntry>) -> bool {
    forall|i: int| 0 <= i < s.len() ==> (#[trigger] s[i]).key.len() <= 0xffff
}

/// Whether the offsets name the first entries of `es` in plain form.
spec fn plain_prefix(d: Seq<u8>, offsets: Seq<usize>, es: Seq<RawEntry>) -> bool {
    &&& offsets.len() <= es.len()
    &&& forall|j: int|
        0 <= j < offsets.len() ==> {
            &&& plain_ok(d, #[trigger] offsets[j] as int)
            &&& plain_entry_at(d, offsets[j] as int) == es[j]
        }
}

/// Where the parts of an entry in stored form stand.
struct StoredSpan {
    overlap: usize,
    rest_len: usize,
    value_start: usize,
    value_len: usize,
}

impl StoredSpan {
    spec fn at(&self, d: Seq<u8>, p: int, first: Seq<u8>) -> bool {
        &&& stored_ok(d, p, first)
        &&& self.overlap == stored_overlap(d, p)
        &&& self.rest_len == stored_rest_len(d, p)
        &&& self.value_start == stored_value_start(d, p)
        &&& self.value_start + self.value_len == stored_value_end(d, p)
    }
}

fn stored_span(d: &[u8], p: usize, first_len: usize, Ghost(first): Ghost<Seq<u8>>) -> (r: Option<
    StoredSpan,
>)
    requires
        first_len == first.len(),
    ensures
        match r {
            Some(span) => span.at(d@, p as int, first),
            None => !stored_ok(d@, p as int, first),
        },
{
    if p > d.len() || d.len() - p < 4 {
        return None;
    }
    let overlap = get_u16(d, p) as usize;
    let rest_len = get_u16(d, p + 2) as usize;
    if overlap > first_len || d.len() - p - 4 < rest_len || d.len() - p - 4 - rest_len < 2 {
        return None;
    }
    let value_len = get_u16(d, p + 4 + rest_len) as usize;
    let value_start = p + 6 + rest_len;
    if d.len() - value_start < value_len {
        return None;
    }
    Some(StoredSpan { overlap, rest_len, value_start, value_len })
}

/// Appends the entry in stored form at `p` in plain form.
fn push_plain(
    data: &mut Vec<u8>,
    offsets: &mut Vec<usize>,
    d: &[u8],
    p: usize,
    first: &[u8],
    span: StoredSpan,
    Ghost(es): Ghost<Seq<RawEntry>>,
)
    requires
        span.at(d@, p as int, first@),
        span.overlap + span.rest_len <= 0xffff,
        plain_prefix(old(data)@, old(offsets)@, es),
        old(offsets)@.len() < es.len(),
        es[old(offsets)@.len() as int] == stored_entry_at(d@, p as int, first@),
    ensures
        plain_prefix(final(data)@, final(offsets)@, es),
        final(offsets)@.len() == old(offsets)@.len() + 1,
{
    let ghost e = stored_entry_at(d@, p as int, first@);
    let ghost before = data@;
    let offset = data.len();
    assert(span.value_start + span.value_len <= d.len());
    put_u16(data, (span.overlap + span.rest_len) as u16);
    put_slice(data, vstd::slice::slice_subrange(first, 0, span.overlap));
    put_slice(data, vstd::slice::slice_subrange(d, p + 4, p + 4 + span.rest_len));
    put_u16(data, span.value_len as u16);
    put_slice(
        data,
        vstd::slice::slice_subrange(d, span.value_start, span.value_start + span.value_len),
    );
    offsets.push(offset);
    proof {
        assert(data@ =~= before + plain_bytes(e));
        lemma_plain_bytes_at(before, e);
        assert forall|j: int| 0 <= j < offsets@.len() implies {
            &&& plain_ok(data@, #[trigger] offsets@[j] as int)
            &&& plain_entry_at(data@, offsets@[j] as int) == es[j]
        } by {
            if j < old(offsets)@.len() {
                lemma_plain_append(before, old(offsets)@[j] as int, plain_bytes(e));
            }
        }
    }
}

} // verus!
