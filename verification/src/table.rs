//! Sorted string tables: immutable files of blocks, block metadata and a key filter.
pub mod bloom;
pub mod builder;
pub mod iterator;

use vstd::prelude::*;
use std::sync::Arc;
use crate::block::{
    decodable, decoded_data, decoded_offsets, lemma_typed, short_keys, stored_entries, stored_first,
    stored_ok, stored_wf, typed, Block, RawEntry,
};
use crate::codec::{be16, be32, put_slice, put_u16, put_u32};
use crate::entry::{lemma_rest_find, rest, sorted, Entry};
use crate::error::Error;
use crate::hash::filter_hash;
use crate::key::{parse_raw, raw_key, KeyVec, VKey};
use crate::table::bloom::Bloom;

verus! {

/// The mathematical value of a block's metadata.
#[verifier::ext_equal]
pub struct MetaView {
    pub offset: int,
    pub first: VKey,
    pub last: VKey,
}

/// Where a block starts in the table, and its first and last key.
pub struct BlockMeta {
    /// The offset of the block.
    pub offset: usize,
    /// The first key of the block.
    pub first_key: KeyVec,
    /// The last key of the block.
    pub last_key: KeyVec,
}

impl View for BlockMeta {
    type V = MetaView;

    open spec fn view(&self) -> MetaView {
        MetaView { offset: self.offset as int, first: self.first_key@, last: self.last_key@ }
    }
}

/// The metadata of all blocks.
pub open spec fn metas(s: Seq<BlockMeta>) -> Seq<MetaView> {
    Seq::new(s.len(), |i: int| s[i]@)
}

/// The bytes of one block's metadata.
pub open spec fn meta_bytes(m: MetaView) -> Seq<u8> {
    be32(m.offset as u32) + be16(raw_key(m.first).len() as u16) + raw_key(m.first) + be16(
        raw_key(m.last).len() as u16,
    ) + raw_key(m.last)
}

/// The bytes of the metadata of some blocks.
pub open spec fn all_meta_bytes(s: Seq<MetaView>) -> Seq<u8>
    decreases s.len(),
{
    if s.len() == 0 {
        Seq::empty()
    } else {
        all_meta_bytes(s.drop_last()) + meta_bytes(s.last())
    }
}

/// Whether the fields of a block's metadata fit the places that they are written to.
pub open spec fn meta_fits(m: MetaView) -> bool {
    &&& 0 <= m.offset <= 0xffff_ffff
    &&& raw_key(m.first).len() <= 0xffff
    &&& raw_key(m.last).len() <= 0xffff
}

impl BlockMeta {
    /// Appends the metadata of all blocks: their number, then for each block its offset and
    /// its first and last key.
    pub fn encode_block_meta(block_meta: &[BlockMeta], buf: &mut Vec<u8>)
        requires
            block_meta@.len() <= 0xffff_ffff,
            forall|i: int| 0 <= i < block_meta@.len() ==> meta_fits(#[trigger] block_meta@[i]@),
        ensures
            final(buf)@ == old(buf)@ + be32(block_meta@.len() as u32) + all_meta_bytes(
                metas(block_meta@),
            ),
    {
        put_u32(buf, block_meta.len() as u32);
        let ghost head = old(buf)@ + be32(block_meta@.len() as u32);
        let ghost ms = metas(block_meta@);
        assert(buf@ =~= head + all_meta_bytes(ms.take(0)));
        let mut i: usize = 0;
        while i < block_meta.len()
            invariant
                i <= block_meta@.len(),
                ms == metas(block_meta@),
                buf@ == head + all_meta_bytes(ms.take(i as int)),
                forall|j: int|
                    0 <= j < block_meta@.len() ==> meta_fits(#[trigger] block_meta@[j]@),
            decreases block_meta@.len() - i,
        {
            let m = &block_meta[i];
            assert(meta_fits(block_meta@[i as int]@));
            let ghost before = buf@;
            put_u32(buf, m.offset as u32);
            let first = m.first_key.as_key_slice().to_raw();
            put_u16(buf, first.len() as u16);
            put_slice(buf, first.as_slice());
            let last = m.last_key.as_key_slice().to_raw();
            put_u16(buf, last.len() as u16);
            put_slice(buf, last.as_slice());
            proof {
                assert(buf@ =~= before + meta_bytes(m@));
                let t = ms.take(i + 1);
                assert(t.drop_last() =~= ms.take(i as int));
                assert(t.last() == m@);
                assert(buf@ =~= head + all_meta_bytes(t));
            }
            i += 1;
        }
        assert(ms.take(i as int) =~= ms);
    }
}

/// The entries of a block that is written out.
pub open spec fn image_entries(image: Seq<u8>) -> Seq<RawEntry> {
    stored_entries(decoded_data(image), decoded_offsets(image))
}

/// Whether the bytes are a block that can be read.
pub open spec fn image_ok(image: Seq<u8>) -> bool {
    &&& decodable(image)
    &&& stored_wf(decoded_data(image), decoded_offsets(image))
    &&& short_keys(image_entries(image))
}

/// Where the `i`-th block ends, if the last one ends at `end`.
pub open spec fn block_end(ms: Seq<MetaView>, i: int, end: int) -> int {
    if i + 1 < ms.len() {
        ms[i + 1].offset
    } else {
        end
    }
}

/// The bytes of the `i`-th block.
pub open spec fn image_at(file: Seq<u8>, ms: Seq<MetaView>, i: int, end: int) -> Seq<u8> {
    file.subrange(ms[i].offset, block_end(ms, i, end))
}

/// The lengths in a block that can be read.
proof fn lemma_image_sizes(image: Seq<u8>)
    requires
        image_ok(image),
    ensures
        forall|b: int|
            0 <= b < typed(image_entries(image)).len() ==> {
                &&& raw_key((#[trigger] typed(image_entries(image))[b]).key).len() <= 0xffff
                &&& typed(image_entries(image))[b].value.len() <= 0xffff
            },
{
    let raw = image_entries(image);
    lemma_typed(raw);
    let d = decoded_data(image);
    let offsets = decoded_offsets(image);
    assert forall|b: int| 0 <= b < typed(raw).len() implies {
        &&& raw_key((#[trigger] typed(raw)[b]).key).len() <= 0xffff
        &&& typed(raw)[b].value.len() <= 0xffff
    } by {
        reveal(stored_entries);
        reveal(stored_wf);
        assert(stored_ok(d, offsets[b] as int, stored_first(d, offsets)));
        assert(raw[b].key.len() <= 0xffff);
        assert(raw_key(parse_raw(raw[b].key)).len() <= 0xffff);
    }
}

/// The entries of the `i`-th block.
pub open spec fn entries_at(file: Seq<u8>, ms: Seq<MetaView>, i: int, end: int) -> Seq<Entry> {
    typed(image_entries(image_at(file, ms, i, end)))
}

/// The entries of the blocks.
pub open spec fn blocks_of(file: Seq<u8>, ms: Seq<MetaView>, end: int) -> Seq<Seq<Entry>> {
    Seq::new(ms.len(), |i: int| entries_at(file, ms, i, end))
}

/// Whether a readable block that is not empty stands where the metadata say, with the keys
/// that they say.
pub open spec fn block_wf(file: Seq<u8>, ms: Seq<MetaView>, i: int, end: int) -> bool {
    let es = entries_at(file, ms, i, end);
    &&& 0 <= ms[i].offset <= block_end(ms, i, end) <= end <= file.len()
    &&& image_ok(image_at(file, ms, i, end))
    &&& es.len() > 0
    &&& ms[i].first == es[0].key
    &&& ms[i].last == es.last().key
}

pub open spec fn blocks_wf(file: Seq<u8>, ms: Seq<MetaView>, end: int) -> bool {
    forall|i: int| 0 <= i < ms.len() ==> #[trigger] block_wf(file, ms, i, end)
}

/// Whether an entry can stand in a table.
pub open spec fn storable(e: Entry) -> bool {
    &&& raw_key(e.key).len() <= 0xffff
    &&& e.value.len() <= 0xffff
}

/// Whether all entries can stand in a table.
pub open spec fn all_storable(es: Seq<Entry>) -> bool {
    forall|i: int| 0 <= i < es.len() ==> storable(#[trigger] es[i])
}

/// The content of a table file.
pub struct FileObject {
    pub(crate) data: Vec<u8>,
}

impl FileObject {
    pub closed spec fn bytes(&self) -> Seq<u8> {
        self.data@
    }

    /// The size of the file.
    pub fn size(&self) -> (r: u64)
        ensures
            r == self.bytes().len(),
    {
        self.data.len() as u64
    }

    /// The bytes of the file.
    pub fn content(&self) -> (r: &[u8])
        ensures
            r@ == self.bytes(),
    {
        self.data.as_slice()
    }
}

/// A sorted string table.
pub struct SsTable {
    /// The content of the file.
    pub(crate) file: FileObject,
    /// The metadata of the blocks.
    pub(crate) block_meta: Vec<BlockMeta>,
    /// Where the metadata start in the file.
    pub(crate) block_meta_offset: usize,
    id: usize,
    first_key: KeyVec,
    last_key: KeyVec,
    bloom: Option<Bloom>,
    max_ts: u64,
}

impl SsTable {
    pub closed spec fn file(&self) -> Seq<u8> {
        self.file.bytes()
    }

    pub closed spec fn metas(&self) -> Seq<MetaView> {
        metas(self.block_meta@)
    }

    pub closed spec fn meta_offset(&self) -> int {
        self.block_meta_offset as int
    }

    pub closed spec fn filter(&self) -> Option<Bloom> {
        self.bloom
    }

    pub closed spec fn spec_id(&self) -> usize {
        self.id
    }

    pub closed spec fn first(&self) -> VKey {
        self.first_key@
    }

    pub closed spec fn last(&self) -> VKey {
        self.last_key@
    }

    pub closed spec fn spec_max_ts(&self) -> u64 {
        self.max_ts
    }

    /// The entries of the blocks.
    #[verifier::opaque]
    pub open spec fn blocks(&self) -> Seq<Seq<Entry>> {
        blocks_of(self.file(), self.metas(), self.meta_offset())
    }

    /// The entries of the table.
    pub open spec fn entries(&self) -> Seq<Entry> {
        rest(self.blocks(), 0)
    }

    /// Whether the blocks can be read, the boundary keys are right and the filter lets every
    /// user key of the table pass.
    #[verifier::opaque]
    pub open spec fn wf(&self) -> bool {
        &&& blocks_wf(self.file(), self.metas(), self.meta_offset())
        &&& self.entries().len() > 0 ==> {
            &&& self.first() == self.entries()[0].key
            &&& self.last() == self.entries().last().key
        }
        &&& self.filter() matches Some(bloom) ==> {
            &&& bloom.wf()
            &&& forall|i: int|
                0 <= i < self.entries().len() ==> bloom.passes(
                    filter_hash((#[trigger] self.entries()[i]).key.user),
                )
        }
    }

    /// Whether the table can be searched: its keys are sorted.
    pub open spec fn searchable(&self) -> bool {
        &&& self.wf()
        &&& sorted(self.entries())
    }

    /// What the parts of a table say about each other.
    pub proof fn lemma_wf(&self)
        requires
            self.wf(),
        ensures
            self.metas().len() == self.blocks().len(),
            forall|i: int|
                0 <= i < self.blocks().len() ==> {
                    &&& (#[trigger] self.blocks()[i]).len() > 0
                    &&& self.metas()[i].first == self.blocks()[i][0].key
                    &&& self.metas()[i].last == self.blocks()[i].last().key
                },
            self.metas().len() > 0 <==> self.entries().len() > 0,
            self.entries().len() > 0 ==> {
                &&& self.first() == self.entries()[0].key
                &&& self.last() == self.entries().last().key
            },
    {
        reveal(SsTable::wf);
        reveal(SsTable::blocks);
        assert forall|i: int| 0 <= i < self.blocks().len() implies {
            &&& (#[trigger] self.blocks()[i]).len() > 0
            &&& self.metas()[i].first == self.blocks()[i][0].key
            &&& self.metas()[i].last == self.blocks()[i].last().key
        } by {
            assert(block_wf(self.file(), self.metas(), i, self.meta_offset()));
        }
        if self.metas().len() > 0 {
            assert(self.blocks()[0].len() > 0);
        }
    }

    /// What stands in a table with a filter can stand in another one.
    pub proof fn lemma_storable(&self)
        requires
            self.searchable(),
            self.filter() is Some,
        ensures
            all_storable(self.entries()),
    {
        reveal(SsTable::wf);
        reveal(SsTable::blocks);
        let es = self.entries();
        assert forall|k: int| 0 <= k < es.len() implies storable(#[trigger] es[k]) by {
            let (a, b) = lemma_rest_find(self.blocks(), k);
            assert(block_wf(self.file(), self.metas(), a, self.meta_offset()));
            lemma_image_sizes(image_at(self.file(), self.metas(), a, self.meta_offset()));
            assert(self.blocks()[a] == entries_at(
                self.file(),
                self.metas(),
                a,
                self.meta_offset(),
            ));
        }
    }

    pub(crate) fn from_parts(
        data: Vec<u8>,
        block_meta: Vec<BlockMeta>,
        block_meta_offset: usize,
        id: usize,
        first_key: KeyVec,
        last_key: KeyVec,
        bloom: Option<Bloom>,
    ) -> (r: SsTable)
        ensures
            r.file() == data@,
            r.metas() == metas(block_meta@),
            r.meta_offset() == block_meta_offset,
            r.spec_id() == id,
            r.first() == first_key@,
            r.last() == last_key@,
            r.filter() == bloom,
            r.spec_max_ts() == 0,
    {
        SsTable {
            file: FileObject { data },
            block_meta,
            block_meta_offset,
            id,
            first_key,
            last_key,
            bloom,
            max_ts: 0,
        }
    }

    /// Reads a block.
    pub fn read_block(&self, block_idx: usize) -> (r: Result<Arc<Block>, Error>)
        requires
            self.wf(),
            block_idx < self.metas().len(),
        ensures
            match r {
                Ok(block) => block.plain_wf() && block.entries() == self.blocks()[block_idx as int],
                Err(_) => false,
            },
    {
        proof {
            reveal(SsTable::wf);
            reveal(SsTable::blocks);
        }
        let start = self.block_meta[block_idx].offset;
        assert(block_idx < self.block_meta.len());
        let end = if block_idx + 1 < self.block_meta.len() {
            self.block_meta[block_idx + 1].offset
        } else {
            self.block_meta_offset
        };
        assert(block_wf(self.file(), self.metas(), block_idx as int, self.meta_offset()));
        let image = vstd::slice::slice_subrange(self.file.data.as_slice(), start, end);
        assert(image@ == image_at(
            self.file(),
            self.metas(),
            block_idx as int,
            self.meta_offset(),
        ));
        let block = Block::decode(image).expand()?;
        Ok(Arc::new(block))
    }

    /// The number of blocks.
    pub fn num_of_blocks(&self) -> (r: usize)
        ensures
            r == self.metas().len(),
    {
        self.block_meta.len()
    }

    pub fn first_key(&self) -> (r: &KeyVec)
        ensures
            r@ == self.first(),
    {
        &self.first_key
    }

    pub fn last_key(&self) -> (r: &KeyVec)
        ensures
            r@ == self.last(),
    {
        &self.last_key
    }

    /// The size of the file.
    pub fn table_size(&self) -> (r: u64)
        ensures
            r == self.file().len(),
    {
        self.file.size()
    }

    pub fn sst_id(&self) -> (r: usize)
        ensures
            r == self.spec_id(),
    {
        self.id
    }

    /// The filter of the user keys.
    pub fn bloom(&self) -> (r: &Option<Bloom>)
        ensures
            *r == self.filter(),
    {
        &self.bloom
    }

    /// The timestamp that is recorded as the largest one of the table. Tables are built and
    /// opened with 0.
    pub fn max_ts(&self) -> (r: u64)
        ensures
            r == self.spec_max_ts(),
    {
        self.max_ts
    }

    /// The bytes that the file of the table holds.
    pub fn content(&self) -> (r: &[u8])
        ensures
            r@ == self.file(),
    {
        self.file.content()
    }
}

} // verus!
