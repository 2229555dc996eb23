use vstd::prelude::*;
use crate::block::{
    block_image, decodable, decoded_data, decoded_offsets, lemma_decode_image, lemma_offset_bytes,
    lemma_stored_append, lemma_stored_bytes_at, lemma_typed, short_keys, stored_bytes,
    stored_entries, stored_entry_at, stored_first, stored_ok, stored_wf, typed, Block, RawEntry,
};
use crate::codec::{put_slice, put_u16};
use crate::entry::Entry;
use crate::error::Error;
use crate::key::{lemma_parse_raw_key, parse_raw, raw_key, KeySlice, KeyVec, VKey, TS_DEFAULT};

verus! {

/// How many leading bytes two byte strings share.
pub open spec fn common_prefix(a: Seq<u8>, b: Seq<u8>) -> int
    decreases a.len(),
{
    if a.len() == 0 || b.len() == 0 || a[0] != b[0] {
        0
    } else {
        1 + common_prefix(a.skip(1), b.skip(1))
    }
}

/// The shared bytes are equal, and the bytes after them differ.
pub proof fn lemma_common_prefix(a: Seq<u8>, b: Seq<u8>)
    ensures
        0 <= common_prefix(a, b) <= a.len(),
        common_prefix(a, b) <= b.len(),
        a.subrange(0, common_prefix(a, b)) == b.subrange(0, common_prefix(a, b)),
        common_prefix(a, b) < a.len() && common_prefix(a, b) < b.len() ==> a[common_prefix(a, b)]
            != b[common_prefix(a, b)],
    decreases a.len(),
{
    if a.len() == 0 || b.len() == 0 || a[0] != b[0] {
        assert(a.subrange(0, 0) =~= b.subrange(0, 0));
    } else {
        let n = common_prefix(a.skip(1), b.skip(1));
        lemma_common_prefix(a.skip(1), b.skip(1));
        assert forall|i: int| 0 <= i < n + 1 implies a[i] == b[i] by {
            if i > 0 {
                assert(a.skip(1).subrange(0, n)[i - 1] == b.skip(1).subrange(0, n)[i - 1]);
            }
        }
        assert(a.subrange(0, n + 1) =~= b.subrange(0, n + 1));
    }
}

fn shared_len(a: &[u8], b: &[u8]) -> (n: usize)
    ensures
        n == common_prefix(a@, b@),
{
    let mut i: usize = 0;
    assert(a@.skip(0) =~= a@);
    assert(b@.skip(0) =~= b@);
    while i < a.len() && i < b.len() && a[i] == b[i]
        invariant
            i <= a@.len(),
            i <= b@.len(),
            common_prefix(a@, b@) == i + common_prefix(a@.skip(i as int), b@.skip(i as int)),
        decreases a@.len() - i,
    {
        assert(a@.skip(i as int).skip(1) =~= a@.skip(i + 1));
        assert(b@.skip(i as int).skip(1) =~= b@.skip(i + 1));
        i += 1;
    }
    i
}

/// A further entry behind a block in stored form.
proof fn lemma_push_stored(d: Seq<u8>, offsets: Seq<usize>, first: Seq<u8>, o: int, e: RawEntry)
    requires
        stored_wf(d, offsets),
        d.len() <= 0xffff,
        offsets.len() > 0 ==> first == stored_entries(d, offsets)[0].key,
        offsets.len() == 0 ==> first == e.key && o == 0,
        0 <= o <= e.key.len(),
        o <= first.len() <= 0xffff,
        e.key.len() - o <= 0xffff,
        e.value.len() <= 0xffff,
        first.subrange(0, o) == e.key.subrange(0, o),
    ensures
        stored_wf(d + stored_bytes(o, e), offsets.push(d.len() as usize)),
        stored_entries(d + stored_bytes(o, e), offsets.push(d.len() as usize)) == stored_entries(
            d,
            offsets,
        ).push(e),
{
    reveal(stored_wf);
    reveal(stored_entries);
    let d2 = d + stored_bytes(o, e);
    let offsets2 = offsets.push(d.len() as usize);
    lemma_stored_bytes_at(d, o, e, first);
    assert(e.key.skip(0) =~= e.key);
    if offsets.len() > 0 {
        let f = stored_first(d, offsets);
        assert(stored_ok(d, offsets[0] as int, f));
        assert(stored_entry_at(d, offsets[0] as int, f).key =~= f);
        lemma_stored_append(d, offsets[0] as int, first, stored_bytes(o, e));
    }
    assert(stored_first(d2, offsets2) == first);
    assert forall|i: int| 0 <= i < offsets2.len() implies stored_ok(
        d2,
        #[trigger] offsets2[i] as int,
        first,
    ) by {
        if i < offsets.len() {
            assert(stored_ok(d, offsets[i] as int, first));
            lemma_stored_append(d, offsets[i] as int, first, stored_bytes(o, e));
        }
    }
    assert forall|i: int| 0 <= i < offsets2.len() implies #[trigger] stored_entries(d2, offsets2)[i]
        == stored_entries(d, offsets).push(e)[i] by {
        if i < offsets.len() {
            assert(stored_ok(d, offsets[i] as int, first));
            lemma_stored_append(d, offsets[i] as int, first, stored_bytes(o, e));
        }
    }
    assert(stored_entries(d2, offsets2) =~= stored_entries(d, offsets).push(e));
}

proof fn lemma_typed_push(s: Seq<RawEntry>, e: RawEntry)
    ensures
        typed(s.push(e)) == typed(s).push(Entry { key: parse_raw(e.key), value: e.value }),
{
    reveal(typed);
    assert(typed(s.push(e)) =~= typed(s).push(Entry { key: parse_raw(e.key), value: e.value }));
}

/// Appends an entry in stored form.
fn put_stored(data: &mut Vec<u8>, overlap: usize, raw: &[u8], value: &[u8])
    requires
        overlap <= raw@.len(),
        overlap <= 0xffff,
        raw@.len() - overlap <= 0xffff,
        value@.len() <= 0xffff,
    ensures
        final(data)@ == old(data)@ + stored_bytes(
            overlap as int,
            RawEntry { key: raw@, value: value@ },
        ),
{
    let rest_key = vstd::slice::slice_subrange(raw, overlap, raw.len());
    assert(rest_key@ =~= raw@.skip(overlap as int));
    put_u16(data, overlap as u16);
    put_u16(data, rest_key.len() as u16);
    put_slice(data, rest_key);
    put_u16(data, value.len() as u16);
    put_slice(data, value);
    assert(data@ =~= old(data)@ + stored_bytes(
        overlap as int,
        RawEntry { key: raw@, value: value@ },
    ));
}

/// How many bytes a key shares with the first key of a block.
pub open spec fn shared(es: Seq<Entry>, key: VKey) -> int {
    if es.len() == 0 {
        0
    } else {
        common_prefix(raw_key(es[0].key), raw_key(key))
    }
}

/// How many bytes the entries of a block take up.
pub open spec fn block_bytes(es: Seq<Entry>) -> int
    decreases es.len(),
{
    if es.len() == 0 {
        0
    } else {
        let t = es.drop_last();
        let e = es.last();
        block_bytes(t) + 6 + raw_key(e.key).len() - shared(t, e.key) + e.value.len()
    }
}

/// Whether a block with some entries takes no further one: its data have outgrown the offsets,
/// or, once it holds an entry, the new one would fill the block.
pub open spec fn block_full(block_size: usize, es: Seq<Entry>, e: Entry) -> bool {
    ||| block_bytes(es) > 0xffff
    ||| es.len() > 0 && block_bytes(es.push(e)) >= block_size
}

/// The key without bytes, which stands for the first and the last key of a block without
/// entries.
pub open spec fn no_key() -> VKey {
    VKey { user: Seq::empty(), ts: TS_DEFAULT }
}

/// Builds a block in stored form.
pub struct BlockBuilder {
    /// Offsets of each key-value entry.
    offsets: Vec<usize>,
    /// All serialized key-value pairs in the block.
    data: Vec<u8>,
    /// The expected block size.
    block_size: usize,
    /// The first key in the block.
    first_key: KeyVec,
    /// The last key in the block.
    last_key: KeyVec,
}

impl BlockBuilder {
    pub closed spec fn data(&self) -> Seq<u8> {
        self.data@
    }

    pub closed spec fn offsets(&self) -> Seq<usize> {
        self.offsets@
    }

    pub closed spec fn block_size(&self) -> usize {
        self.block_size
    }

    pub closed spec fn first(&self) -> VKey {
        self.first_key@
    }

    pub closed spec fn last(&self) -> VKey {
        self.last_key@
    }

    /// The entries added so far, with their key bytes.
    pub closed spec fn raw_entries(&self) -> Seq<RawEntry> {
        stored_entries(self.data(), self.offsets())
    }

    /// The entries added so far.
    pub closed spec fn entries(&self) -> Seq<Entry> {
        typed(self.raw_entries())
    }

    pub closed spec fn wf(&self) -> bool {
        &&& stored_wf(self.data(), self.offsets())
        &&& 6 * self.offsets().len() <= self.data().len()
        &&& self.data().len() == block_bytes(self.entries())
        &&& self.offsets().len() == 0 ==> self.data().len() == 0
        &&& forall|i: int|
            0 <= i < self.offsets().len() ==> 6 * i <= #[trigger] self.offsets()[i] <= 0xffff
        &&& forall|i: int|
            0 <= i < self.raw_entries().len() ==> raw_key(
                parse_raw((#[trigger] self.raw_entries()[i]).key),
            ) == self.raw_entries()[i].key
        &&& self.offsets().len() > 0 ==> {
            &&& raw_key(self.first()).len() <= 0xffff
            &&& self.raw_entries()[0].key == raw_key(self.first())
            &&& self.entries()[0].key == self.first()
            &&& self.entries().last().key == self.last()
        }
        &&& self.offsets().len() == 0 ==> self.first() == no_key() && self.last() == no_key()
    }

    /// Each entry has its offset.
    proof fn lemma_count(&self)
        ensures
            self.entries().len() == self.raw_entries().len() == self.offsets().len(),
    {
        reveal(stored_entries);
        lemma_typed(self.raw_entries());
    }

    /// How many bytes the key shares with the first key of the block.
    pub open spec fn overlap(&self, key: VKey) -> int {
        if self.offsets().len() == 0 {
            0
        } else {
            common_prefix(raw_key(self.first()), raw_key(key))
        }
    }

    /// Whether the block takes no further entry with this key and this value: its data have
    /// outgrown the offsets, or, once it holds an entry, the new one would fill the block.
    pub open spec fn full(&self, key: VKey, value: Seq<u8>) -> bool {
        ||| self.data().len() > 0xffff
        ||| self.offsets().len() > 0 && 2 + 2 + (raw_key(key).len() - self.overlap(key)) + 2
            + value.len() + self.data().len() >= self.block_size()
    }

    /// What is left to show once the parts of a builder have been brought up to date.
    #[verifier::rlimit(40)]
    proof fn lemma_added(pre: Self, post: Self, key: VKey, value: Seq<u8>)
        requires
            pre.wf(),
            !pre.full(key, value),
            raw_key(key).len() - pre.overlap(key) <= 0xffff,
            value.len() <= 0xffff,
            post.data() == pre.data() + stored_bytes(
                pre.overlap(key),
                RawEntry { key: raw_key(key), value },
            ),
            post.offsets() == pre.offsets().push(pre.data().len() as usize),
            post.first() == if pre.offsets().len() == 0 { key } else { pre.first() },
            post.last() == key,
        ensures
            post.wf(),
            post.raw_entries() == pre.raw_entries().push(RawEntry { key: raw_key(key), value }),
            post.entries() == pre.entries().push(Entry { key, value }),
    {
        lemma_typed(pre.raw_entries());
        lemma_typed(post.raw_entries());
        assert(pre.raw_entries().len() == pre.offsets().len()) by {
            reveal(stored_entries);
        }
        let e = RawEntry { key: raw_key(key), value };
        let o = pre.overlap(key);
        let first = raw_key(post.first());
        lemma_common_prefix(first, e.key);
        lemma_parse_raw_key(key);
        assert(first.subrange(0, o) =~= e.key.subrange(0, o));
        lemma_push_stored(pre.data(), pre.offsets(), first, o, e);
        lemma_typed_push(pre.raw_entries(), e);
        assert forall|i: int| 0 <= i < post.raw_entries().len() implies raw_key(
            parse_raw((#[trigger] post.raw_entries()[i]).key),
        ) == post.raw_entries()[i].key by {
            if i < pre.raw_entries().len() {
                assert(pre.raw_entries()[i] == post.raw_entries()[i]);
            }
        }
        assert(post.entries().drop_last() =~= pre.entries());
        if pre.offsets().len() > 0 {
            assert(post.entries()[0] == pre.entries()[0]);
            assert(post.raw_entries()[0] == pre.raw_entries()[0]);
        }
    }

    /// Whether a block is full depends on its size, its entries and the new one.
    pub proof fn lemma_full(&self, key: VKey, value: Seq<u8>)
        requires
            self.wf(),
        ensures
            self.full(key, value) == block_full(
                self.block_size(),
                self.entries(),
                Entry { key, value },
            ),
    {
        let e = Entry { key, value };
        let es = self.entries();
        lemma_typed(self.raw_entries());
        assert(self.raw_entries().len() == self.offsets().len()) by {
            reveal(stored_entries);
        }
        assert(es.push(e).drop_last() =~= es);
        assert(es.push(e).last() == e);
    }

    /// Whether every key fits the length field of the plain form.
    pub closed spec fn short(&self) -> bool {
        short_keys(self.raw_entries())
    }

    /// What a builder holds can be written out and read back.
    pub proof fn lemma_image(&self)
        requires
            self.wf(),
        ensures
            self.entries().len() == self.offsets().len(),
            self.entries().len() == 0 ==> {
                &&& self.data().len() == 0
                &&& self.first() == no_key()
                &&& self.last() == no_key()
            },
            block_image(self.data(), self.offsets()).len() == block_bytes(self.entries()) + 2
                * self.entries().len() + 2,
            self.entries().len() > 0 ==> {
                &&& self.entries()[0].key == self.first()
                &&& self.entries().last().key == self.last()
            },
            decodable(block_image(self.data(), self.offsets())),
            stored_wf(
                decoded_data(block_image(self.data(), self.offsets())),
                decoded_offsets(block_image(self.data(), self.offsets())),
            ),
            typed(
                stored_entries(
                    decoded_data(block_image(self.data(), self.offsets())),
                    decoded_offsets(block_image(self.data(), self.offsets())),
                ),
            ) == self.entries(),
            self.short() ==> short_keys(
                stored_entries(
                    decoded_data(block_image(self.data(), self.offsets())),
                    decoded_offsets(block_image(self.data(), self.offsets())),
                ),
            ),
            self.short() && self.entries().len() > 0 ==> raw_key(self.last()).len() <= 0xffff,
            self.entries().len() > 0 ==> raw_key(self.first()).len() <= 0xffff,
            forall|i: int|
                0 <= i < self.offsets().len() ==> #[trigger] self.offsets()[i] <= 0xffff,
    {
        reveal(stored_entries);
        lemma_typed(self.raw_entries());
        let n = self.offsets().len();
        if n > 0 {
            assert(6 * (n - 1) <= self.offsets()[n - 1] <= 0xffff);
            let e = self.raw_entries()[n - 1];
            assert(raw_key(parse_raw(e.key)) == e.key);
        }
        lemma_decode_image(self.data(), self.offsets());
        lemma_offset_bytes(self.offsets());
    }

    /// A built block, turned into the plain form, holds exactly the entries that were added, in
    /// their order. The plain form can be had where every key fits its length field.
    pub proof fn lemma_built(&self, block: Block, r: Result<Block, Error>)
        requires
            self.wf(),
            block.data() == self.data(),
            block.offsets() == self.offsets(),
            block.expanded(r),
        ensures
            match r {
                Ok(plain) => self.short() && plain.plain_wf() && plain.entries() == self.entries(),
                Err(e) => e == Error::EntryTooLarge && !self.short(),
            },
    {
    }

    /// Creates a new block builder.
    pub fn new(block_size: usize) -> (r: BlockBuilder)
        ensures
            r.wf(),
            r.block_size() == block_size,
            r.short(),
            r.entries() == Seq::<Entry>::empty(),
            r.data() == Seq::<u8>::empty(),
            r.offsets() == Seq::<usize>::empty(),
            r.first() == no_key(),
            r.last() == no_key(),
    {
        let r = BlockBuilder {
            offsets: Vec::new(),
            data: Vec::new(),
            block_size,
            first_key: KeyVec::new(),
            last_key: KeyVec::new(),
        };
        reveal(stored_wf);
        reveal(stored_entries);
        reveal(typed);
        assert(r.entries() =~= Seq::<Entry>::empty());
        r
    }

    /// Adds a key-value pair to the block. Returns false when the block is full.
    #[must_use]
    pub fn add(&mut self, key: KeySlice, value: &[u8]) -> (r: bool)
        requires
            old(self).wf(),
            !old(self).full(key@, value@) ==> {
                &&& raw_key(key@).len() - old(self).overlap(key@) <= 0xffff
                &&& value@.len() <= 0xffff
            },
        ensures
            final(self).wf(),
            final(self).block_size() == old(self).block_size(),
            r == !old(self).full(key@, value@),
            !r ==> *final(self) == *old(self),
            r ==> {
                &&& final(self).data() == old(self).data() + stored_bytes(
                    old(self).overlap(key@),
                    RawEntry { key: raw_key(key@), value: value@ },
                )
                &&& final(self).offsets() == old(self).offsets().push(old(self).data().len() as usize)
                &&& old(self).short() && raw_key(key@).len() <= 0xffff ==> final(self).short()
                &&& final(self).entries() == old(self).entries().push(
                    Entry { key: key@, value: value@ },
                )
                &&& final(self).first() == if old(self).entries().len() == 0 {
                    key@
                } else {
                    old(self).first()
                }
                &&& final(self).last() == key@
            },
    {
        let offset = self.data.len();
        if offset > 0xffff {
            return false;
        }
        let raw = key.to_raw();
        let overlap_len: usize = if self.offsets.is_empty() {
            0
        } else {
            let first = self.first_key.as_key_slice().to_raw();
            shared_len(first.as_slice(), raw.as_slice())
        };
        proof {
            lemma_common_prefix(raw_key(self.first_key@), raw@);
        }
        let rest_len = raw.len() - overlap_len;
        let size = rest_len.saturating_add(value.len()).saturating_add(6 + offset);
        if !self.offsets.is_empty() && size >= self.block_size {
            return false;
        }
        put_stored(&mut self.data, overlap_len, raw.as_slice(), value);
        if self.offsets.is_empty() {
            self.first_key = key.to_key_vec();
        }
        self.offsets.push(offset);
        self.last_key = key.to_key_vec();
        proof {
            old(self).lemma_count();
            Self::lemma_added(*old(self), *self, key@, value@);
        }
        true
    }

    /// Checks if there is no key-value pair in the block.
    pub fn is_empty(&self) -> (r: bool)
        ensures
            r == (self.entries().len() == 0),
            r == (self.offsets().len() == 0),
    {
        proof {
            self.lemma_count();
        }
        self.offsets.is_empty()
    }

    /// Finalizes the block.
    pub fn build(self) -> (block: Block)
        ensures
            block.data() == self.data(),
            block.offsets() == self.offsets(),
    {
        Block { data: self.data, offsets: self.offsets }
    }

    /// The key of the first entry; the empty key while there is none.
    pub fn first_key(&self) -> (r: KeyVec)
        ensures
            r@ == self.first(),
    {
        self.first_key.copied()
    }

    /// The key of the last entry; the empty key while there is none.
    pub fn last_key(&self) -> (r: KeyVec)
        ensures
            r@ == self.last(),
    {
        self.last_key.copied()
    }

    /// The size of the serialized entries.
    pub fn estimated_size(&self) -> (r: usize)
        ensures
            r == self.data().len(),
    {
        self.data.len()
    }
}

} // verus!
