use vstd::prelude::*;
use crate::block::builder::{block_bytes, block_full, lemma_common_prefix, BlockBuilder};
use crate::block::{block_image, decoded_offsets, lemma_typed, stored_entries, typed};
use crate::codec::{be32, put_slice, put_u32};
use crate::entry::{
    lemma_rest_at, lemma_rest_push, lemma_rest_skip, lemma_sorted_runs, rest, run_start, sorted,
    Entry,
};
use crate::error::Error;
use crate::lsm_storage::laws::lemma_total_size;
use crate::mem_table::total_size;
use crate::hash::{filter_hash, hash_for_filter};
use crate::key::{key_le, key_lt, lemma_parse_raw_key, raw_key, KeySlice, KeyVec};
use crate::table::bloom::{Bloom, BLOOM_BITS_PER_KEY};
use crate::table::{
    all_meta_bytes, block_end, block_wf, blocks_of, blocks_wf, image_at, image_entries, image_ok,
    meta_bytes, meta_fits, metas, BlockMeta, MetaView, SsTable,
};

verus! {

/// Builds a table from key-value pairs.
pub struct SsTableBuilder {
    builder: BlockBuilder,
    first_key: KeyVec,
    last_key: KeyVec,
    data: Vec<u8>,
    pub(crate) meta: Vec<BlockMeta>,
    block_size: usize,
    key_hashes: Vec<u32>,
}

/// The blocks do not change when bytes follow them.
proof fn lemma_blocks_append(file: Seq<u8>, ms: Seq<MetaView>, end: int, more: Seq<u8>)
    requires
        blocks_wf(file, ms, end),
    ensures
        blocks_wf(file + more, ms, end),
        blocks_of(file + more, ms, end) == blocks_of(file, ms, end),
{
    let file2 = file + more;
    assert forall|i: int| 0 <= i < ms.len() implies #[trigger] block_wf(file2, ms, i, end) by {
        assert(block_wf(file, ms, i, end));
        assert(image_at(file2, ms, i, end) =~= image_at(file, ms, i, end));
    }
    assert forall|i: int| 0 <= i < ms.len() implies #[trigger] blocks_of(file2, ms, end)[i]
        == blocks_of(file, ms, end)[i] by {
        assert(block_wf(file, ms, i, end));
        assert(image_at(file2, ms, i, end) =~= image_at(file, ms, i, end));
    }
    assert(blocks_of(file2, ms, end) =~= blocks_of(file, ms, end));
}

/// A further block behind the others.
proof fn lemma_blocks_push(file: Seq<u8>, ms: Seq<MetaView>, image: Seq<u8>, m: MetaView)
    requires
        blocks_wf(file, ms, file.len() as int),
        m.offset == file.len(),
        image_ok(image),
        image_entries(image).len() > 0,
        m.first == typed(image_entries(image))[0].key,
        m.last == typed(image_entries(image)).last().key,
    ensures
        blocks_wf(file + image, ms.push(m), (file.len() + image.len()) as int),
        blocks_of(file + image, ms.push(m), (file.len() + image.len()) as int) == blocks_of(
            file,
            ms,
            file.len() as int,
        ).push(typed(image_entries(image))),
{
    lemma_typed(image_entries(image));
    let file2 = file + image;
    let ms2 = ms.push(m);
    let end = file.len() as int;
    let end2 = file2.len() as int;
    assert forall|i: int| 0 <= i < ms2.len() implies {
        &&& #[trigger] block_wf(file2, ms2, i, end2)
        &&& blocks_of(file2, ms2, end2)[i] == blocks_of(file, ms, end).push(
            typed(image_entries(image)),
        )[i]
    } by {
        if i < ms.len() {
            assert(block_wf(file, ms, i, end));
            assert(ms2[i] == ms[i]);
            assert(block_end(ms2, i, end2) == block_end(ms, i, end));
            assert(image_at(file2, ms2, i, end2) =~= image_at(file, ms, i, end));
        } else {
            assert(image_at(file2, ms2, i, end2) =~= image);
        }
    }
    assert forall|i: int| 0 <= i < ms2.len() implies #[trigger] blocks_of(file2, ms2, end2)[i]
        == blocks_of(file, ms, end).push(typed(image_entries(image)))[i] by {
        assert(block_wf(file2, ms2, i, end2));
    }
    assert(blocks_of(file2, ms2, end2) =~= blocks_of(file, ms, end).push(
        typed(image_entries(image)),
    ));
}

/// The bytes of a table file: the blocks, their metadata, where the metadata start, the
/// filter, and where the filter starts.
pub open spec fn table_image(blocks: Seq<u8>, ms: Seq<MetaView>, filter: Seq<u8>) -> Seq<u8> {
    let with_meta = blocks + be32(ms.len() as u32) + all_meta_bytes(ms) + be32(blocks.len() as u32);
    with_meta + filter + be32(with_meta.len() as u32)
}

/// How a builder splits entries into blocks of a given size: the finished blocks, and the
/// entries of the one that is being built.
pub open spec fn layout(block_size: usize, es: Seq<Entry>) -> (Seq<Seq<Entry>>, Seq<Entry>)
    decreases es.len(),
{
    if es.len() == 0 {
        (Seq::empty(), Seq::empty())
    } else {
        let (blocks, pending) = layout(block_size, es.drop_last());
        let e = es.last();
        if block_full(block_size, pending, e) {
            (blocks.push(pending), seq![e])
        } else {
            (blocks, pending.push(e))
        }
    }
}

/// The blocks that entries are split into.
pub open spec fn split_blocks(block_size: usize, es: Seq<Entry>) -> Seq<Seq<Entry>> {
    let (blocks, pending) = layout(block_size, es);
    if pending.len() == 0 {
        blocks
    } else {
        blocks.push(pending)
    }
}

/// The hashes of the user keys of some entries.
pub open spec fn fingerprints(es: Seq<Entry>) -> Seq<u32> {
    Seq::new(es.len(), |i: int| filter_hash(es[i].key.user))
}

/// How many bytes a block with some entries takes up in a table file.
pub open spec fn image_len(es: Seq<Entry>) -> int {
    block_bytes(es) + 2 * es.len() + 2
}

/// How many bytes some blocks take up in a table file.
pub open spec fn images_len(blocks: Seq<Seq<Entry>>) -> int
    decreases blocks.len(),
{
    if blocks.len() == 0 {
        0
    } else {
        images_len(blocks.drop_last()) + image_len(blocks.last())
    }
}

/// How many bytes the metadata of some blocks take up in a table file.
pub open spec fn metas_len(blocks: Seq<Seq<Entry>>) -> int
    decreases blocks.len(),
{
    if blocks.len() == 0 {
        0
    } else {
        let es = blocks.last();
        metas_len(blocks.drop_last()) + 8 + raw_key(es[0].key).len() + raw_key(
            es.last().key,
        ).len()
    }
}

/// How many bytes the finished blocks take up once some entries have been added to a builder.
pub open spec fn finished_bytes(block_size: usize, es: Seq<Entry>) -> int {
    images_len(layout(block_size, es).0)
}

/// How many bytes a table with some entries takes up in front of its filter: the blocks, their
/// metadata, the number of blocks and where the metadata start.
pub open spec fn table_bytes(block_size: usize, es: Seq<Entry>) -> int {
    let blocks = split_blocks(block_size, es);
    images_len(blocks) + metas_len(blocks) + 8
}

/// Whether a table with some entries can be written: the place of the filter fits its field.
pub open spec fn table_fits(block_size: usize, es: Seq<Entry>) -> bool {
    table_bytes(block_size, es) <= 0xffff_ffff
}

/// How entries are split into blocks: no entry is lost or moved, and no block is empty. A block
/// ends exactly where the next entry would fill it, or where its data have outgrown the offsets.
pub proof fn lemma_split_blocks(block_size: usize, es: Seq<Entry>)
    ensures
        ({
            let blocks = split_blocks(block_size, es);
            &&& rest(blocks, 0) == es
            &&& forall|i: int| 0 <= i < blocks.len() ==> (#[trigger] blocks[i]).len() > 0
            &&& forall|i: int|
                #![trigger blocks[i + 1]]
                0 <= i && i + 1 < blocks.len() ==> block_bytes(blocks[i]) > 0xffff || block_bytes(
                    blocks[i].push(blocks[i + 1][0]),
                ) >= block_size
            &&& forall|i: int, k: int|
                #![trigger blocks[i].take(k)]
                0 <= i < blocks.len() && 0 < k < blocks[i].len() ==> {
                    &&& block_bytes(blocks[i].take(k)) <= 0xffff
                    &&& block_bytes(blocks[i].take(k + 1)) < block_size
                }
        }),
{
    let (blocks, pending) = layout(block_size, es);
    lemma_layout(block_size, es);
    if pending.len() > 0 {
        lemma_rest_push(blocks, pending, 0);
        let all = blocks.push(pending);
        assert forall|i: int|
            #![trigger all[i + 1]]
            0 <= i && i + 1 < all.len() implies block_bytes(all[i]) > 0xffff || block_bytes(
            all[i].push(all[i + 1][0]),
        ) >= block_size by {
            assert(all[i] == blocks[i]);
            if i + 1 < blocks.len() {
                assert(all[i + 1] == blocks[i + 1]);
            }
        }
        assert forall|i: int, k: int|
            #![trigger all[i].take(k)]
            0 <= i < all.len() && 0 < k < all[i].len() implies block_bytes(all[i].take(k)) <= 0xffff
            && block_bytes(all[i].take(k + 1)) < block_size by {
            if i < blocks.len() {
                assert(blocks[i].take(k) == all[i].take(k));
            } else {
                assert(pending.take(k) == all[i].take(k));
            }
        }
    } else {
        assert(rest(blocks, 0) + pending =~= rest(blocks, 0));
    }
}

proof fn lemma_layout(block_size: usize, es: Seq<Entry>)
    ensures
        ({
            let (blocks, pending) = layout(block_size, es);
            &&& rest(blocks, 0) + pending == es
            &&& es.len() > 0 ==> pending.len() > 0
            &&& forall|i: int| 0 <= i < blocks.len() ==> (#[trigger] blocks[i]).len() > 0
            &&& forall|i: int|
                #![trigger blocks[i + 1]]
                0 <= i && i + 1 < blocks.len() ==> block_bytes(blocks[i]) > 0xffff || block_bytes(
                    blocks[i].push(blocks[i + 1][0]),
                ) >= block_size
            &&& blocks.len() > 0 ==> pending.len() > 0 && (block_bytes(blocks.last()) > 0xffff
                || block_bytes(blocks.last().push(pending[0])) >= block_size)
            &&& forall|i: int, k: int|
                #![trigger blocks[i].take(k)]
                0 <= i < blocks.len() && 0 < k < blocks[i].len() ==> {
                    &&& block_bytes(blocks[i].take(k)) <= 0xffff
                    &&& block_bytes(blocks[i].take(k + 1)) < block_size
                }
            &&& forall|k: int|
                #![trigger pending.take(k)]
                0 < k < pending.len() ==> {
                    &&& block_bytes(pending.take(k)) <= 0xffff
                    &&& block_bytes(pending.take(k + 1)) < block_size
                }
        }),
    decreases es.len(),
{
    if es.len() == 0 {
        assert(rest(Seq::<Seq<Entry>>::empty(), 0) + Seq::<Entry>::empty() =~= es);
    } else {
        let (blocks, pending) = layout(block_size, es.drop_last());
        let e = es.last();
        lemma_layout(block_size, es.drop_last());
        assert(es =~= es.drop_last().push(e));
        if block_full(block_size, pending, e) {
            if pending.len() == 0 {
                assert(block_bytes(pending) == 0);
            }
            let more = blocks.push(pending);
            lemma_rest_push(blocks, pending, 0);
            assert(rest(more, 0) + seq![e] =~= es);
            assert forall|i: int|
                #![trigger more[i + 1]]
                0 <= i && i + 1 < more.len() implies block_bytes(more[i]) > 0xffff || block_bytes(
                more[i].push(more[i + 1][0]),
            ) >= block_size by {
                assert(more[i] == blocks[i]);
                if i + 1 < blocks.len() {
                    assert(more[i + 1] == blocks[i + 1]);
                }
            }
            assert forall|i: int, k: int|
                #![trigger more[i].take(k)]
                0 <= i < more.len() && 0 < k < more[i].len() implies block_bytes(more[i].take(k))
                <= 0xffff && block_bytes(more[i].take(k + 1)) < block_size by {
                if i < blocks.len() {
                    assert(blocks[i].take(k) == more[i].take(k));
                } else {
                    assert(pending.take(k) == more[i].take(k));
                }
            }
        } else {
            let grown = pending.push(e);
            assert(rest(blocks, 0) + grown =~= es);
            assert forall|k: int|
                #![trigger grown.take(k)]
                0 < k < grown.len() implies block_bytes(grown.take(k)) <= 0xffff && block_bytes(
                grown.take(k + 1),
            ) < block_size by {
                assert(grown.take(k) =~= pending.take(k));
                if k < pending.len() {
                    assert(grown.take(k + 1) =~= pending.take(k + 1));
                } else {
                    assert(pending.take(k) =~= pending);
                    assert(grown.take(k + 1) =~= grown);
                }
            }
            if blocks.len() > 0 {
                assert(grown[0] == pending[0]);
            }
        }
    }
}

/// The finished blocks are all but the last one, and each takes up its entries, their offsets and
/// their number.
pub proof fn lemma_finished_bytes(block_size: usize, es: Seq<Entry>, blocks: Seq<Seq<Entry>>, b: Seq<
    Entry,
>)
    requires
        es.len() > 0,
    ensures
        split_blocks(block_size, es).len() > 0,
        finished_bytes(block_size, es) == images_len(split_blocks(block_size, es).drop_last()),
        images_len(blocks.push(b)) == images_len(blocks) + block_bytes(b) + 2 * b.len() + 2,
        images_len(Seq::empty()) == 0,
{
    lemma_layout(block_size, es);
    let (done, pending) = layout(block_size, es);
    assert(done.push(pending).drop_last() =~= done);
    assert(blocks.push(b).drop_last() =~= blocks);
}

/// A table can be written whenever its entries are not too many and too long: three times their
/// bytes and some more for each of them must fit the fields that say where its parts start.
pub proof fn lemma_small_table_fits(block_size: usize, es: Seq<Entry>)
    requires
        3 * total_size(es) + 42 * es.len() + 8 <= 0xffff_ffff,
    ensures
        table_fits(block_size, es),
{
    lemma_split_blocks(block_size, es);
    lemma_blocks_bound(split_blocks(block_size, es));
}

proof fn lemma_block_bound(es: Seq<Entry>)
    ensures
        block_bytes(es) <= total_size(es) + 14 * es.len(),
        forall|i: int|
            0 <= i < es.len() ==> (#[trigger] es[i]).key.user.len() <= total_size(es),
    decreases es.len(),
{
    if es.len() > 0 {
        let t = es.drop_last();
        let e = es.last();
        lemma_block_bound(t);
        lemma_parse_raw_key(e.key);
        if t.len() > 0 {
            lemma_common_prefix(raw_key(t[0].key), raw_key(e.key));
        }
        assert forall|i: int| 0 <= i < es.len() implies (#[trigger] es[i]).key.user.len()
            <= total_size(es) by {
            if i < t.len() {
                assert(es[i] == t[i]);
            }
        }
    }
}

proof fn lemma_blocks_bound(blocks: Seq<Seq<Entry>>)
    requires
        forall|i: int| 0 <= i < blocks.len() ==> (#[trigger] blocks[i]).len() > 0,
    ensures
        images_len(blocks) <= total_size(rest(blocks, 0)) + 18 * rest(blocks, 0).len(),
        metas_len(blocks) <= 2 * total_size(rest(blocks, 0)) + 24 * rest(blocks, 0).len(),
    decreases blocks.len(),
{
    if blocks.len() > 0 {
        let init = blocks.drop_last();
        let es = blocks.last();
        assert(blocks[blocks.len() - 1].len() > 0);
        assert forall|i: int| 0 <= i < init.len() implies (#[trigger] init[i]).len() > 0 by {
            assert(init[i] == blocks[i]);
        }
        lemma_blocks_bound(init);
        lemma_rest_push(init, es, 0);
        assert(init.push(es) =~= blocks);
        lemma_total_size(rest(init, 0), es, es[0]);
        lemma_block_bound(es);
        lemma_parse_raw_key(es[0].key);
        lemma_parse_raw_key(es.last().key);
        assert(es[es.len() - 1].key.user.len() <= total_size(es));
        assert(es[0].key.user.len() <= total_size(es));
    }
}

proof fn lemma_meta_len(ms: Seq<MetaView>)
    ensures
        all_meta_bytes(ms).len() >= 8 * ms.len(),
    decreases ms.len(),
{
    if ms.len() > 0 {
        lemma_meta_len(ms.drop_last());
    }
}

/// Whether the finished blocks can be read, from the start of the data on, and their keys fit
/// the metadata.
#[verifier::opaque]
spec fn closed_part(data: Seq<u8>, meta: Seq<BlockMeta>) -> bool {
    &&& blocks_wf(data, metas(meta), data.len() as int)
    &&& meta.len() == 0 ==> data.len() == 0
    &&& meta.len() > 0 ==> metas(meta)[0].offset == 0
    &&& forall|i: int|
        0 <= i < meta.len() ==> raw_key((#[trigger] meta[i]).first_key@).len() <= 0xffff
            && raw_key(meta[i].last_key@).len() <= 0xffff
}

/// The entries of the finished blocks.
#[verifier::opaque]
spec fn closed_blocks(data: Seq<u8>, meta: Seq<BlockMeta>) -> Seq<Seq<Entry>> {
    blocks_of(data, metas(meta), data.len() as int)
}

proof fn lemma_closed_push(
    data: Seq<u8>,
    meta: Seq<BlockMeta>,
    meta2: Seq<BlockMeta>,
    image: Seq<u8>,
    m: MetaView,
)
    requires
        closed_part(data, meta),
        metas(meta2) == metas(meta).push(m),
        m.offset == data.len(),
        image_ok(image),
        image_entries(image).len() > 0,
        m.first == typed(image_entries(image))[0].key,
        m.last == typed(image_entries(image)).last().key,
        raw_key(m.first).len() <= 0xffff,
        raw_key(m.last).len() <= 0xffff,
    ensures
        closed_part(data + image, meta2),
        closed_blocks(data + image, meta2) == closed_blocks(data, meta).push(
            typed(image_entries(image)),
        ),
{
    reveal(closed_part);
    reveal(closed_blocks);
    lemma_blocks_push(data, metas(meta), image, m);
    assert(metas(meta2).len() == metas(meta).len() + 1);
    assert forall|i: int| 0 <= i < meta2.len() implies raw_key(
        (#[trigger] meta2[i]).first_key@,
    ).len() <= 0xffff && raw_key(meta2[i].last_key@).len() <= 0xffff by {
        assert(metas(meta2)[i] == meta2[i]@);
        if i < meta.len() {
            assert(metas(meta)[i] == meta[i]@);
            assert(metas(meta2)[i] == metas(meta)[i]);
        } else {
            assert(metas(meta2)[i] == m);
        }
    }
}

impl SsTableBuilder {
    /// The bytes of the finished blocks.
    pub closed spec fn data(&self) -> Seq<u8> {
        self.data@
    }

    /// The metadata of the finished blocks.
    pub closed spec fn metas(&self) -> Seq<MetaView> {
        metas(self.meta@)
    }

    pub closed spec fn block_size(&self) -> usize {
        self.block_size
    }

    /// The entries of the finished blocks.
    pub closed spec fn blocks(&self) -> Seq<Seq<Entry>> {
        closed_blocks(self.data@, self.meta@)
    }

    /// The entries of the block that is being built.
    pub closed spec fn pending(&self) -> Seq<Entry> {
        self.builder.entries()
    }

    pub closed spec fn builder(&self) -> BlockBuilder {
        self.builder
    }

    /// The entries added so far.
    pub open spec fn entries(&self) -> Seq<Entry> {
        rest(self.blocks(), 0) + self.pending()
    }

    /// The bytes of all blocks, once the last one is closed.
    pub open spec fn all_data(&self) -> Seq<u8> {
        if self.pending().len() == 0 {
            self.data()
        } else {
            self.data() + block_image(self.builder().data(), self.builder().offsets())
        }
    }

    /// The entries of all blocks, once the last one is closed.
    pub open spec fn all_blocks(&self) -> Seq<Seq<Entry>> {
        if self.pending().len() == 0 {
            self.blocks()
        } else {
            self.blocks().push(self.pending())
        }
    }

    /// The metadata of all blocks, once the last one is closed.
    pub open spec fn all_metas(&self) -> Seq<MetaView> {
        if self.pending().len() == 0 {
            self.metas()
        } else {
            self.metas().push(
                MetaView {
                    offset: self.data().len() as int,
                    first: self.builder().first(),
                    last: self.builder().last(),
                },
            )
        }
    }

    pub closed spec fn wf(&self) -> bool {
        &&& self.builder.wf()
        &&& self.builder.block_size() == self.block_size
        &&& self.builder.short()
        &&& closed_part(self.data@, self.meta@)
        &&& self.data@.len() == images_len(self.blocks())
        &&& all_meta_bytes(metas(self.meta@)).len() == metas_len(self.blocks())
        &&& self.pending().len() == 0 ==> self.meta@.len() == 0
        &&& layout(self.block_size, self.entries()) == (self.blocks(), self.pending())
        &&& self.entries().len() > 0 ==> {
            &&& self.first_key@ == self.entries()[0].key
            &&& self.last_key@ == self.entries().last().key
        }
        &&& self.key_hashes@.len() == self.entries().len()
        &&& forall|i: int|
            0 <= i < self.entries().len() ==> self.key_hashes@[i] == filter_hash(
                (#[trigger] self.entries()[i]).key.user,
            )
    }

    /// Creates a builder with a target block size.
    pub fn new(block_size: usize) -> (r: SsTableBuilder)
        ensures
            r.wf(),
            r.block_size() == block_size,
            r.entries() == Seq::<Entry>::empty(),
            r.data() == Seq::<u8>::empty(),
            r.blocks() == Seq::<Seq<Entry>>::empty(),
            r.pending() == Seq::<Entry>::empty(),
            r.metas() == Seq::<MetaView>::empty(),
    {
        let r = SsTableBuilder {
            builder: BlockBuilder::new(block_size),
            first_key: KeyVec::new(),
            last_key: KeyVec::new(),
            data: Vec::new(),
            meta: Vec::new(),
            block_size,
            key_hashes: Vec::new(),
        };
        reveal(closed_part);
        reveal(closed_blocks);
        assert(r.blocks() =~= Seq::<Seq<Entry>>::empty());
        assert(r.entries() =~= Seq::<Entry>::empty());
        assert(r.metas() =~= Seq::<MetaView>::empty());
        r
    }

    /// Whether no entry has been added.
    pub fn is_empty(&self) -> (r: bool)
        requires
            self.wf(),
        ensures
            r == (self.entries().len() == 0),
    {
        reveal(closed_blocks);
        assert(self.meta@.len() == 0 ==> self.blocks() =~= Seq::<Seq<Entry>>::empty());
        self.builder.is_empty()
    }

    fn hash(&self, key: KeySlice) -> (r: u32)
        ensures
            r == filter_hash(key@.user),
    {
        hash_for_filter(key.key_ref())
    }

    /// What is left to show once a block has been appended with its metadata.
    proof fn lemma_finished(pre: Self, post: Self, m: MetaView)
        requires
            pre.wf(),
            pre.pending().len() > 0,
            m == (MetaView {
                offset: pre.data@.len() as int,
                first: pre.builder.first(),
                last: pre.builder.last(),
            }),
            post.data@ == pre.data@ + block_image(pre.builder.data(), pre.builder.offsets()),
            metas(post.meta@) == metas(pre.meta@).push(m),
            post.pending() == Seq::<Entry>::empty(),
        ensures
            closed_part(post.data@, post.meta@),
            post.blocks() == pre.blocks().push(pre.pending()),
            post.entries() == pre.entries(),
            rest(post.blocks(), 0) == rest(pre.blocks(), 0) + pre.pending(),
    {
        let image = block_image(pre.builder.data(), pre.builder.offsets());
        pre.builder.lemma_image();
        assert(image_ok(image));
        assert(typed(image_entries(image)) == pre.pending());
        lemma_typed(image_entries(image));
        lemma_closed_push(pre.data@, pre.meta@, post.meta@, image, m);
        lemma_rest_push(pre.blocks(), pre.pending(), 0);
        assert(post.entries() =~= pre.entries());
    }

    /// How large the finished blocks and their metadata are with one more.
    proof fn lemma_finished_size(pre: Self, post: Self, m: MetaView)
        requires
            pre.wf(),
            pre.pending().len() > 0,
            m.first == pre.builder.first(),
            m.last == pre.builder.last(),
            post.data@ == pre.data@ + block_image(pre.builder.data(), pre.builder.offsets()),
            metas(post.meta@) == metas(pre.meta@).push(m),
            post.blocks() == pre.blocks().push(pre.pending()),
        ensures
            post.data@.len() == images_len(post.blocks()),
            all_meta_bytes(metas(post.meta@)).len() == metas_len(post.blocks()),
    {
        pre.builder.lemma_image();
        assert(post.blocks().drop_last() =~= pre.blocks());
        assert(metas(post.meta@).drop_last() =~= metas(pre.meta@));
        assert(all_meta_bytes(metas(post.meta@)) == all_meta_bytes(metas(pre.meta@)) + meta_bytes(
            m,
        ));
    }

    /// The sizes of a builder depend on the size of its blocks and on its entries.
    pub proof fn lemma_size(&self)
        requires
            self.wf(),
        ensures
            self.data().len() == finished_bytes(self.block_size(), self.entries()),
    {
    }

    /// Closes the block that is being built, if it holds anything.
    fn finish_block(&mut self)
        requires
            old(self).wf(),
        ensures
            final(self).block_size == old(self).block_size,
            final(self).first_key == old(self).first_key,
            final(self).last_key == old(self).last_key,
            final(self).key_hashes == old(self).key_hashes,
            final(self).entries() == old(self).entries(),
            final(self).builder.wf(),
            final(self).builder.block_size() == final(self).block_size,
            final(self).builder.entries().len() == 0,
            final(self).builder.short(),
            closed_part(final(self).data@, final(self).meta@),
            final(self).data@.len() == images_len(final(self).blocks()),
            all_meta_bytes(metas(final(self).meta@)).len() == metas_len(final(self).blocks()),
            old(self).pending().len() == 0 ==> *final(self) == *old(self),
            old(self).pending().len() > 0 ==> {
                &&& final(self).data() == old(self).data() + block_image(
                    old(self).builder().data(),
                    old(self).builder().offsets(),
                )
                &&& final(self).blocks() == old(self).blocks().push(old(self).pending())
                &&& final(self).meta@.len() > 0
            },
            final(self).data() == old(self).all_data(),
            final(self).metas() == old(self).all_metas(),
    {
        if self.builder.is_empty() {
            return ;
        }
        let pos = self.data.len();
        let mut current = BlockBuilder::new(self.block_size);
        std::mem::swap(&mut self.builder, &mut current);
        proof {
            current.lemma_image();
        }
        let first_key = current.first_key();
        let last_key = current.last_key();
        let block = current.build();
        let image = block.encode();
        put_slice(&mut self.data, image.as_slice());
        self.meta.push(BlockMeta { offset: pos, first_key, last_key });
        proof {
            let m = MetaView { offset: pos as int, first: first_key@, last: last_key@ };
            assert(metas(self.meta@) =~= metas(old(self).meta@).push(m));
            Self::lemma_finished(*old(self), *self, m);
            Self::lemma_finished_size(*old(self), *self, m);
        }
    }

    /// Adds a key-value pair to the table.
    pub fn add(&mut self, key: KeySlice, value: &[u8])
        requires
            old(self).wf(),
            raw_key(key@).len() <= 0xffff,
            value@.len() <= 0xffff,
        ensures
            final(self).wf(),
            final(self).block_size() == old(self).block_size(),
            final(self).entries() == old(self).entries().push(Entry { key: key@, value: value@ }),
            if old(self).builder().full(key@, value@) {
                &&& final(self).blocks() == old(self).blocks().push(old(self).pending())
                &&& final(self).pending() == seq![Entry { key: key@, value: value@ }]
                &&& final(self).data() == old(self).data() + block_image(
                    old(self).builder().data(),
                    old(self).builder().offsets(),
                )
                &&& final(self).metas() == old(self).all_metas()
                &&& old(self).pending().len() > 0
            } else {
                &&& final(self).blocks() == old(self).blocks()
                &&& final(self).metas() == old(self).metas()
                &&& final(self).pending() == old(self).pending().push(
                    Entry { key: key@, value: value@ },
                )
                &&& final(self).data() == old(self).data()
            },
    {
        let ghost e = Entry { key: key@, value: value@ };
        if self.meta.is_empty() && self.builder.is_empty() {
            self.first_key = key.to_key_vec();
            assert(old(self).blocks() =~= Seq::<Seq<Entry>>::empty()) by {
                reveal(closed_blocks);
            }
        }
        proof {
            lemma_common_prefix(raw_key(self.builder.first()), raw_key(key@));
            self.builder.lemma_full(key@, value@);
        }
        if !self.builder.add(key, value) {
            let ghost mid = *self;
            self.finish_block();
            proof {
                self.builder.lemma_image();
            }
            let added = self.builder.add(key, value);
            assert(added);
            assert(self.builder.entries() =~= seq![e]);
        }
        self.last_key = key.to_key_vec();
        let h = self.hash(key);
        self.key_hashes.push(h);
        assert(self.entries() =~= old(self).entries().push(e));
        assert(self.entries().drop_last() =~= old(self).entries());
    }

    /// Each block has its metadata, and the last entry stands in the block that is being built.
    pub proof fn lemma_block_count(&self)
        requires
            self.wf(),
        ensures
            self.blocks().len() == self.metas().len(),
            self.pending().len() == 0 ==> self.blocks().len() == 0 && self.entries().len() == 0,
    {
        reveal(closed_blocks);
    }

    /// While keys are added in ascending order, the metadata of the finished blocks ascend: the
    /// first block starts with the first key at the start of the data, each block ends before the
    /// next one starts, in keys and in bytes, and the key that was added last is behind them all,
    /// in the block that is being built.
    pub proof fn lemma_metas_ascend(&self)
        requires
            self.wf(),
            sorted(self.entries()),
        ensures
            forall|i: int|
                0 <= i < self.metas().len() ==> key_le(
                    (#[trigger] self.metas()[i]).first,
                    self.metas()[i].last,
                ),
            forall|i: int, j: int|
                #![trigger self.metas()[i], self.metas()[j]]
                0 <= i < j < self.metas().len() ==> {
                    &&& key_lt(self.metas()[i].last, self.metas()[j].first)
                    &&& self.metas()[i].offset < self.metas()[j].offset
                },
            self.metas().len() > 0 ==> {
                &&& self.metas()[0].first == self.entries()[0].key
                &&& self.metas()[0].offset == 0
            },
            self.entries().len() > 0 ==> {
                &&& self.pending().len() > 0
                &&& self.pending().last() == self.entries().last()
                &&& forall|i: int|
                    0 <= i < self.metas().len() ==> key_lt(
                        (#[trigger] self.metas()[i]).last,
                        self.entries().last().key,
                    )
            },
    {
        reveal(closed_part);
        reveal(closed_blocks);
        let ms = self.metas();
        let data = self.data();
        let end = data.len() as int;
        let runs = self.all_blocks();
        self.lemma_block_count();
        if self.pending().len() > 0 {
            lemma_rest_push(self.blocks(), self.pending(), 0);
        } else {
            assert(self.entries() =~= rest(runs, 0));
        }
        assert forall|i: int| 0 <= i < ms.len() implies {
            &&& key_le((#[trigger] ms[i]).first, ms[i].last)
            &&& self.pending().len() > 0 ==> key_lt(ms[i].last, self.entries().last().key)
        } by {
            assert(block_wf(data, ms, i, end));
            assert(runs[i] == self.blocks()[i]);
            let n = runs[i].len() - 1;
            if n > 0 {
                lemma_sorted_runs(runs, i, 0, i, n);
            }
            if self.pending().len() > 0 {
                lemma_sorted_runs(runs, i, n, ms.len() as int, self.pending().len() - 1);
            }
        }
        assert forall|i: int, j: int| #![trigger ms[i], ms[j]] 0 <= i < j < ms.len() implies {
            &&& key_lt(ms[i].last, ms[j].first)
            &&& ms[i].offset < ms[j].offset
        } by {
            assert(block_wf(data, ms, i, end) && block_wf(data, ms, j, end));
            assert(runs[i] == self.blocks()[i] && runs[j] == self.blocks()[j]);
            lemma_sorted_runs(runs, i, runs[i].len() - 1, j, 0);
            lemma_offsets_ascend(data, ms, i, j, end);
        }
        if ms.len() > 0 {
            assert(block_wf(data, ms, 0, end));
            assert(runs[0] == self.blocks()[0]);
            lemma_rest_at(runs, 0, 0);
        }
    }

    /// The last block will start where the finished blocks end.
    pub proof fn lemma_last_meta(&self)
        requires
            self.wf(),
            self.entries().len() > 0,
        ensures
            self.all_metas().len() > 0,
            self.all_metas().last().offset == self.data().len(),
    {
        reveal(closed_blocks);
        assert(self.meta@.len() == 0 ==> self.blocks() =~= Seq::<Seq<Entry>>::empty());
    }

    /// The size of the finished blocks, which hold most of what the table will hold.
    pub fn estimated_size(&self) -> (r: usize)
        ensures
            r == self.data().len(),
    {
        self.data.len()
    }

    /// Builds the table with the given identifier. Fails if it is too large for the fields that
    /// say where its parts start.
    #[verifier::rlimit(40)]
    pub fn build(self, id: usize) -> (r: Result<SsTable, Error>)
        requires
            self.wf(),
        ensures
            match r {
                Ok(table) => {
                    &&& table_fits(self.block_size(), self.entries())
                    &&& table.wf()
                    &&& table.entries() == self.entries()
                    &&& table.spec_id() == id
                    &&& table.spec_max_ts() == 0
                    &&& table.metas() == self.all_metas()
                    &&& table.blocks() == self.all_blocks()
                    &&& table.blocks() == split_blocks(self.block_size(), self.entries())
                    &&& table.meta_offset() == self.all_data().len()
                    &&& table.filter() matches Some(bloom) && {
                        &&& bloom.built_from(fingerprints(self.entries()), BLOOM_BITS_PER_KEY)
                        &&& table.file() == table_image(
                            self.all_data(),
                            self.all_metas(),
                            bloom.bits().push(bloom.num_probes()),
                        )
                    }
                },
                Err(e) => e == Error::TableTooLarge && !table_fits(
                    self.block_size(),
                    self.entries(),
                ),
            },
    {
        let mut this = self;
        this.finish_block();
        let SsTableBuilder { builder: _, first_key, last_key, data, meta, block_size: _, key_hashes } =
            this;
        let mut data = data;
        let ghost blocks = data@;
        let ghost ms = metas(meta@);
        let ghost es = self.entries();
        let meta_offset = data.len();
        assert(rest(this.blocks(), 0) =~= es);
        assert(this.blocks() == split_blocks(self.block_size(), es));
        proof {
            lemma_meta_len(ms);
            reveal(closed_part);
            reveal(closed_blocks);
        }
        if meta_offset as u64 > 0xffff_ffff || meta.len() as u64 > 0xffff_ffff {
            return Err(Error::TableTooLarge);
        }
        proof {
            lemma_entry_count(blocks, ms);
        }
        assert(key_hashes@ =~= fingerprints(es));
        let bloom = Bloom::build_from_key_hashes(key_hashes.as_slice(), BLOOM_BITS_PER_KEY);
        proof {
            assert forall|i: int| 0 <= i < meta@.len() implies meta_fits(#[trigger] meta@[i]@) by {
                assert(block_wf(blocks, ms, i, blocks.len() as int));
                assert(ms[i] == meta@[i]@);
            }
        }
        BlockMeta::encode_block_meta(meta.as_slice(), &mut data);
        put_u32(&mut data, meta_offset as u32);
        let bloom_offset = data.len();
        assert(bloom_offset == blocks.len() + 4 + all_meta_bytes(ms).len() + 4);
        if bloom_offset as u64 > 0xffff_ffff {
            return Err(Error::TableTooLarge);
        }
        bloom.encode(&mut data);
        put_u32(&mut data, bloom_offset as u32);
        let table = SsTable::from_parts(
            data,
            meta,
            meta_offset,
            id,
            first_key,
            last_key,
            Some(bloom),
        );
        proof {
            reveal(SsTable::wf);
            reveal(SsTable::blocks);
            let more = table.file().skip(blocks.len() as int);
            assert(table.file() =~= table_image(
                blocks,
                ms,
                bloom.bits().push(bloom.num_probes()),
            ));
            assert(table.file() =~= blocks + more);
            lemma_blocks_append(blocks, ms, blocks.len() as int, more);
            assert(table.entries() =~= es);
            assert forall|i: int| 0 <= i < table.entries().len() implies bloom.passes(
                filter_hash((#[trigger] table.entries()[i]).key.user),
            ) by {
                assert(bloom.passes(key_hashes@[i]));
                assert(self.entries()[i] == table.entries()[i]);
            }
        }
        Ok(table)
    }
}

/// A later block starts behind an earlier one.
proof fn lemma_offsets_ascend(file: Seq<u8>, ms: Seq<MetaView>, i: int, j: int, end: int)
    requires
        blocks_wf(file, ms, end),
        0 <= i < j < ms.len(),
    ensures
        ms[i].offset < ms[j].offset,
    decreases j - i,
{
    assert(block_wf(file, ms, i, end));
    assert(image_at(file, ms, i, end).len() >= 2);
    if i + 1 < j {
        lemma_offsets_ascend(file, ms, i + 1, j, end);
    }
}

/// Two bytes of a block's image belong to each of its entries.
proof fn lemma_entry_count(file: Seq<u8>, ms: Seq<MetaView>)
    requires
        blocks_wf(file, ms, file.len() as int),
    ensures
        2 * rest(blocks_of(file, ms, file.len() as int), 0).len() <= file.len(),
{
    let end = file.len() as int;
    let runs = blocks_of(file, ms, end);
    lemma_entry_count_upto(file, ms, ms.len() as int);
    lemma_rest_skip(runs, ms.len() as int);
    assert(rest(runs, 0).skip(run_start(runs, ms.len() as int)).len() == 0);
}

proof fn lemma_entry_count_upto(file: Seq<u8>, ms: Seq<MetaView>, i: int)
    requires
        blocks_wf(file, ms, file.len() as int),
        0 <= i <= ms.len(),
    ensures
        2 * run_start(blocks_of(file, ms, file.len() as int), i) <= if i < ms.len() {
            ms[i].offset
        } else {
            file.len() as int
        },
    decreases i,
{
    let end = file.len() as int;
    let runs = blocks_of(file, ms, end);
    if i > 0 {
        lemma_entry_count_upto(file, ms, i - 1);
        assert(block_wf(file, ms, i - 1, end));
        let image = image_at(file, ms, i - 1, end);
        lemma_typed(image_entries(image));
        reveal(stored_entries);
        assert(runs[i - 1].len() == decoded_offsets(image).len());
        assert(image.len() >= 2 * decoded_offsets(image).len() + 2);
    } else if ms.len() > 0 {
        assert(block_wf(file, ms, 0, end));
    }
}

} // verus!
