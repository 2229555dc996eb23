use vstd::prelude::*;
use std::sync::Arc;
use crate::block::{
    lemma_typed, plain_entry_at, plain_ok, plain_value_end, plain_value_start, Block,
};
use crate::codec::get_u16;
use crate::entry::{lemma_lower_bound_is, lower_bound, sorted, Entry};
use crate::key::{key_lt, lemma_key_lt_transitive, parse_raw, KeySlice, KeyVec, VKey, TS_DEFAULT};

verus! {

/// Iterates over a block in plain form.
pub struct BlockIterator {
    /// The block.
    block: Arc<Block>,
    /// The current key; an empty key means that the iterator is invalid.
    key: KeyVec,
    /// Where the current value stands in the data of the block.
    value_range: (usize, usize),
    /// The index of the current entry, or the number of entries.
    idx: usize,
}

impl BlockIterator {
    /// The entries, one for each offset.
    proof fn lemma_entries(block: &Block)
        ensures
            block.entries().len() == block.offsets@.len(),
            forall|i: int|
                0 <= i < block.offsets@.len() ==> #[trigger] block.entries()[i] == (Entry {
                    key: parse_raw(plain_entry_at(block.data@, block.offsets@[i] as int).key),
                    value: plain_entry_at(block.data@, block.offsets@[i] as int).value,
                }),
    {
        lemma_typed(block.plain_entries());
    }

    pub closed spec fn block(&self) -> Block {
        *self.block
    }

    /// The index of the current entry.
    pub closed spec fn idx(&self) -> int {
        self.idx as int
    }

    pub closed spec fn current_key(&self) -> VKey {
        self.key@
    }

    /// All entries of the block.
    pub open spec fn entries(&self) -> Seq<Entry> {
        self.block().entries()
    }

    /// Whether the iterator stands on an entry.
    pub closed spec fn positioned(&self) -> bool {
        &&& self.idx < self.block.offsets@.len()
        &&& self.key@ == self.block.entries()[self.idx as int].key
        &&& self.value_range.0 == plain_value_start(
            self.block.data@,
            self.block.offsets@[self.idx as int] as int,
        )
        &&& self.value_range.1 == plain_value_end(
            self.block.data@,
            self.block.offsets@[self.idx as int] as int,
        )
    }

    /// Whether the iterator stands nowhere.
    pub closed spec fn blank(&self) -> bool {
        &&& self.key@ == VKey { user: Seq::empty(), ts: TS_DEFAULT }
        &&& self.value_range == (0usize, 0usize)
    }

    pub open spec fn wf(&self) -> bool {
        &&& self.block().plain_wf()
        &&& 0 <= self.idx() <= self.entries().len()
        &&& self.positioned() || self.blank()
        &&& self.positioned() ==> self.idx() < self.entries().len() && self.current_key()
            == self.entries()[self.idx()].key
        &&& self.blank() ==> self.current_key().user.len() == 0 && !self.positioned()
    }

    /// Where the iterator stands after a move to the entry with index `i`.
    pub open spec fn moved_to(&self, i: int) -> bool {
        if i < self.entries().len() {
            self.positioned() && self.idx() == i
        } else {
            self.blank() && self.idx() == self.entries().len()
        }
    }

    /// Creates an iterator that stands nowhere.
    pub fn new(block: Arc<Block>) -> (r: BlockIterator)
        requires
            block.plain_wf(),
        ensures
            r.wf(),
            r.block() == *block,
            r.blank(),
            r.idx() == 0,
    {
        proof {
            Self::lemma_entries(&block);
        }
        BlockIterator { block, key: KeyVec::new(), value_range: (0, 0), idx: 0 }
    }

    fn clear(&mut self)
        requires
            old(self).wf(),
        ensures
            final(self).wf(),
            final(self).block() == old(self).block(),
            final(self).blank(),
            final(self).idx() == final(self).entries().len(),
    {
        proof {
            Self::lemma_entries(&self.block);
        }
        self.key = KeyVec::new();
        self.value_range = (0, 0);
        self.idx = self.block.offsets.len();
    }

    fn key_at_idx(&self, idx: usize) -> (r: KeySlice<'_>)
        requires
            self.wf(),
            idx < self.entries().len(),
        ensures
            r@ == self.entries()[idx as int].key,
    {
        proof {
            Self::lemma_entries(&self.block);
        }
        let pos = self.block.offsets[idx];
        assert(plain_ok(self.block().data(), self.block().offsets()[idx as int] as int));
        let data = self.block.data.as_slice();
        let key_len = get_u16(data, pos) as usize;
        assert(pos + 2 + key_len <= data.len());
        KeySlice::from_raw(vstd::slice::slice_subrange(data, pos + 2, pos + 2 + key_len))
    }

    fn seek_to_idx(&mut self, idx: usize)
        requires
            old(self).wf(),
        ensures
            final(self).wf(),
            final(self).block() == old(self).block(),
            final(self).moved_to(idx as int),
    {
        proof {
            Self::lemma_entries(&self.block);
        }
        if idx >= self.block.offsets.len() {
            self.clear();
            return;
        }
        let key = self.key_at_idx(idx).to_key_vec();
        let pos = self.block.offsets[idx];
        assert(plain_ok(self.block().data(), self.block().offsets()[idx as int] as int));
        let data = self.block.data.as_slice();
        let key_len = get_u16(data, pos) as usize;
        let value_start = pos + 4 + key_len;
        let value_len = get_u16(data, pos + 2 + key_len) as usize;
        assert(value_start + value_len <= data.len());
        self.key = key;
        self.idx = idx;
        self.value_range = (value_start, value_start + value_len);
    }

    /// Creates a block iterator and seeks to the first entry.
    pub fn create_and_seek_to_first(block: Arc<Block>) -> (r: BlockIterator)
        requires
            block.plain_wf(),
        ensures
            r.wf(),
            r.block() == *block,
            r.moved_to(0),
    {
        let mut iter = BlockIterator::new(block);
        iter.seek_to_first();
        iter
    }

    /// Creates a block iterator and seeks to the first key that is not before `key`.
    pub fn create_and_seek_to_key(block: Arc<Block>, key: KeySlice) -> (r: BlockIterator)
        requires
            block.plain_wf(),
            sorted(block.entries()),
        ensures
            r.wf(),
            r.block() == *block,
            r.moved_to(lower_bound(block.entries(), key@)),
    {
        let mut iter = BlockIterator::new(block);
        iter.seek_to_key(key);
        iter
    }

    /// Returns the key of the current entry; the empty key if there is none.
    pub fn key(&self) -> (r: KeySlice<'_>)
        requires
            self.wf(),
        ensures
            r@ == self.current_key(),
            self.positioned() ==> r@ == self.entries()[self.idx()].key,
            self.blank() ==> r@ == (VKey { user: Seq::empty(), ts: TS_DEFAULT }),
    {
        self.key.as_key_slice()
    }

    /// Returns the value of the current entry; the empty value if there is none.
    pub fn value(&self) -> (r: &[u8])
        requires
            self.wf(),
        ensures
            self.positioned() ==> r@ == self.entries()[self.idx()].value,
            !self.positioned() ==> r@ == Seq::<u8>::empty(),
    {
        proof {
            Self::lemma_entries(&self.block);
            if self.positioned() {
                assert(plain_ok(self.block().data(), self.block().offsets()[self.idx()] as int));
            } else {
                assert(self.block.data@.subrange(0, 0) =~= Seq::<u8>::empty());
            }
        }
        vstd::slice::slice_subrange(
            self.block.data.as_slice(),
            self.value_range.0,
            self.value_range.1,
        )
    }

    /// Returns true if the iterator stands on an entry with a non-empty key.
    pub fn is_valid(&self) -> (r: bool)
        requires
            self.wf(),
        ensures
            r == (self.current_key().user.len() > 0),
            r ==> self.positioned(),
    {
        !self.key().is_empty()
    }

    /// Returns true if the iterator stands on an entry, whatever its key.
    pub fn is_positioned(&self) -> (r: bool)
        requires
            self.wf(),
        ensures
            r == self.positioned(),
            r == !self.blank(),
    {
        self.value_range.0 != 0
    }

    /// Seeks to the first key in the block.
    pub fn seek_to_first(&mut self)
        requires
            old(self).wf(),
        ensures
            final(self).wf(),
            final(self).block() == old(self).block(),
            final(self).moved_to(0),
    {
        self.seek_to_idx(0);
    }

    /// Moves to the next key in the block.
    pub fn next(&mut self)
        requires
            old(self).wf(),
        ensures
            final(self).wf(),
            final(self).block() == old(self).block(),
            final(self).moved_to(old(self).idx() + 1),
    {
        proof {
            Self::lemma_entries(&self.block);
        }
        if self.idx == self.block.offsets.len() {
            self.clear();
        } else {
            self.seek_to_idx(self.idx + 1);
        }
    }

    /// Seeks to the first key that is not before `target`, in a block whose keys are sorted.
    pub fn seek_to_key(&mut self, target: KeySlice)
        requires
            old(self).wf(),
            sorted(old(self).entries()),
        ensures
            final(self).wf(),
            final(self).block() == old(self).block(),
            final(self).moved_to(lower_bound(final(self).entries(), target@)),
    {
        proof {
            Self::lemma_entries(&self.block);
        }
        let mut left: usize = 0;
        let mut right: usize = self.block.offsets.len();
        let ghost es = self.entries();
        while left < right
            invariant
                self.wf(),
                *self == *old(self),
                es == self.entries(),
                sorted(es),
                left <= right <= es.len(),
                forall|j: int| 0 <= j < left ==> key_lt(#[trigger] es[j].key, target@),
                right < es.len() ==> !key_lt(es[right as int].key, target@),
            decreases right - left,
        {
            let mid = left + (right - left) / 2;
            if self.key_at_idx(mid).less(&target) {
                proof {
                    assert forall|j: int| 0 <= j < mid + 1 implies key_lt(
                        #[trigger] es[j].key,
                        target@,
                    ) by {
                        if j < mid {
                            assert(key_lt(es[j].key, es[mid as int].key));
                            lemma_key_lt_transitive(es[j].key, es[mid as int].key, target@);
                        }
                    }
                }
                left = mid + 1;
            } else {
                right = mid;
            }
        }
        proof {
            lemma_lower_bound_is(es, target@, left as int);
        }
        self.seek_to_idx(left);
    }
}

} // verus!
