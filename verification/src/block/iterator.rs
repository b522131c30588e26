//! Walks the pairs of a block, and finds a key in it.

use vstd::prelude::*;
use vstd::slice::slice_to_vec;
use std::sync::Arc;
use crate::block::layout::{
    decode_entry, overlap_at, record_end, record_ok, rest_at, rest_len_at, value_start_at,
};
use crate::block::layout_lemmas::{lemma_block_structure, lemma_cursor_steps, lemma_key_assembly};
use crate::block::{Block, EntryModel, SIZEOF_U16};
use crate::key::{
    key_le, key_lt, lemma_key_le_lt_transitive, lemma_key_trichotomy, KeyModel, KeyOrder, KeySlice,
    KeyVec,
};
use crate::wire::{advance, get_u16, get_u64};

verus! {

/// Iterates on a block.
pub struct BlockIterator {
    /// The internal `Block`, wrapped by an `Arc`
    block: Arc<Block>,
    /// The current key, empty represents the iterator is invalid
    key: KeyVec,
    /// the current value range in the block.data, corresponds to the current key
    value_range: (usize, usize),
    /// Current index of the key-value pair, should be in range of [0, num_of_elements)
    idx: usize,
    /// The first key in the block
    first_key: KeyVec,
}

impl Block {
    /// The key of the first pair, read from the first record.
    pub fn get_first_key(&self) -> (k: KeyVec)
        ensures
            k@ == self.entries()[0].key,
    {
        let mut buf: &[u8] = self.data();
        proof {
            self.lemma_wf();
            lemma_block_structure(self.entries());
            assert(record_ok(self@.data, self@.offsets, 0));
        }
        get_u16(&mut buf);
        let key_len = get_u16(&mut buf) as usize;
        let key = &buf[0..key_len];
        advance(&mut buf, key_len);
        proof {
            assert(key@ =~= rest_at(self@.data, 0));
            assert(rest_at(self@.data, 0).take(0) + rest_at(self@.data, 0) =~= key@);
            assert(buf@ =~= self@.data.skip(4 + rest_len_at(self@.data, 0)));
        }
        KeyVec::from_vec_with_ts(slice_to_vec(key), get_u64(&mut buf))
    }
}

/// The keys never go down from one entry to the next.
pub open spec fn sorted(entries: Seq<EntryModel>) -> bool {
    forall|i: int, j: int|
        0 <= i <= j < entries.len() ==> key_le(#[trigger] entries[i].key, #[trigger] entries[j].key)
}

/// The keys go up from one entry to the next.
pub open spec fn strictly_sorted(entries: Seq<EntryModel>) -> bool {
    forall|i: int, j: int|
        0 <= i < j < entries.len() ==> key_lt(#[trigger] entries[i].key, #[trigger] entries[j].key)
}

/// Every entry before `p` has a key below `target`, and every entry from `p`
/// on a key above it.
pub open spec fn splits_at(entries: Seq<EntryModel>, target: KeyModel, p: int) -> bool {
    &&& 0 <= p <= entries.len()
    &&& forall|i: int| 0 <= i < p ==> key_lt(#[trigger] entries[i].key, target)
    &&& forall|i: int| p <= i < entries.len() ==> key_lt(target, #[trigger] entries[i].key)
}

/// Where a search for `target` may end: on an entry whose key is `target`, or,
/// if there is none, between the entries below `target` and those above it.
pub open spec fn seek_result(entries: Seq<EntryModel>, target: KeyModel, p: int) -> bool {
    ||| (0 <= p < entries.len() && entries[p].key == target)
    ||| splits_at(entries, target, p)
}

/// `p` is the first entry whose key is `target` or above, or the number of
/// entries if there is none.
pub open spec fn first_at_or_above(entries: Seq<EntryModel>, target: KeyModel, p: int) -> bool {
    &&& 0 <= p <= entries.len()
    &&& forall|i: int| 0 <= i < p ==> key_lt(#[trigger] entries[i].key, target)
    &&& p < entries.len() ==> key_le(target, entries[p].key)
}

/// In a block whose keys go up, a search ends on the first entry whose key is
/// the target or above, and past the last entry if the target is above all keys.
pub proof fn lemma_seek_lands_on_first(entries: Seq<EntryModel>, target: KeyModel, p: int)
    requires
        strictly_sorted(entries),
        seek_result(entries, target, p),
    ensures
        first_at_or_above(entries, target, p),
{
    if 0 <= p < entries.len() && entries[p].key == target {
        lemma_key_trichotomy(target, target);
        assert forall|i: int| 0 <= i < p implies key_lt(#[trigger] entries[i].key, target) by {
            assert(key_lt(entries[i].key, entries[p].key));
        }
    } else if p < entries.len() {
        lemma_key_trichotomy(target, entries[p].key);
    }
}

/// In a block whose keys go up, only one position is that of the first entry
/// at or above a target.
pub proof fn lemma_first_at_or_above_unique(
    entries: Seq<EntryModel>,
    target: KeyModel,
    p: int,
    q: int,
)
    requires
        strictly_sorted(entries),
        first_at_or_above(entries, target, p),
        first_at_or_above(entries, target, q),
    ensures
        p == q,
{
    if p < q {
        lemma_key_trichotomy(entries[p].key, target);
    } else if q < p {
        lemma_key_trichotomy(entries[q].key, target);
    }
}

impl BlockIterator {
    /// The block that the iterator reads.
    pub closed spec fn block(&self) -> Block {
        *self.block
    }

    /// The pairs of the block, in their order.
    pub open spec fn entries(&self) -> Seq<EntryModel> {
        self.block().entries()
    }

    /// The index of the current entry, and the number of entries when the
    /// iterator is past the last one.
    pub closed spec fn position(&self) -> int {
        if self.key@.key.len() > 0 {
            self.idx as int
        } else {
            self.block@.offsets.len() as int
        }
    }

    /// The iterator knows the block's first key, and holds either no key and
    /// an empty value range, when it is past the last entry, or the key and
    /// the place of the value of the entry it is on.
    pub closed spec fn wf(&self) -> bool {
        let data = self.block@.data;
        let offsets = self.block@.offsets;
        &&& self.block.wf()
        &&& self.first_key@.key == rest_at(data, 0)
        &&& self.key@.key.len() > 0 ==> {
            let off = offsets[self.idx as int] as int;
            &&& self.idx < offsets.len()
            &&& self.key@ == decode_entry(data, off, rest_at(data, 0)).key
            &&& self.value_range.0 == value_start_at(data, off)
            &&& self.value_range.1 == record_end(data, off)
        }
        &&& self.key@.key.len() == 0 ==> self.value_range == (0usize, 0usize)
    }

    /// The iterator reads a block and knows its first key.
    closed spec fn attached(&self) -> bool {
        &&& self.block.wf()
        &&& self.first_key@.key == rest_at(self.block@.data, 0)
    }

    /// What `wf` and the block's own invariant say of the position.
    pub proof fn lemma_position(&self)
        requires
            self.wf(),
        ensures
            0 <= self.position() <= self.entries().len(),
            0 < self.entries().len() <= 4682,
    {
        self.block.lemma_wf();
        lemma_block_structure(self.block.entries());
    }

    fn new(block: Arc<Block>) -> (iter: Self)
        ensures
            iter.wf(),
            iter.block() == *block,
    {
        let first_key = block.get_first_key();
        proof {
            use_type_invariant(&*block);
            block.lemma_wf();
            lemma_block_structure(block.entries());
        }
        Self { first_key, block, key: KeyVec::new(), value_range: (0, 0), idx: 0 }
    }

    /// Creates a block iterator and seek to the first entry.
    pub fn create_and_seek_to_first(block: Arc<Block>) -> (iter: Self)
        ensures
            iter.wf(),
            iter.block() == *block,
            iter.position() == 0,
    {
        let mut iter = Self::new(block);
        iter.seek_to(0);
        iter
    }

    /// Creates a block iterator and seek to the first key that >= `key`.
    pub fn create_and_seek_to_key(block: Arc<Block>, key: KeySlice) -> (iter: Self)
        ensures
            iter.wf(),
            iter.block() == *block,
            sorted(block.entries()) ==> seek_result(block.entries(), key@, iter.position()),
            strictly_sorted(block.entries()) ==> first_at_or_above(
                block.entries(),
                key@,
                iter.position(),
            ),
    {
        let mut iter = Self::new(block);
        iter.seek_to_key(key);
        iter
    }

    /// Returns the key of the current entry. The iterator must be valid.
    pub fn key(&self) -> (k: KeySlice<'_>)
        requires
            self.wf(),
            self.position() < self.entries().len(),
        ensures
            k@ == self.entries()[self.position()].key,
    {
        proof {
            self.block.lemma_wf();
            lemma_block_structure(self.block.entries());
        }
        self.key.as_key_slice()
    }

    /// Returns the value of the current entry. The iterator must be valid.
    pub fn value(&self) -> (v: &[u8])
        requires
            self.wf(),
            self.position() < self.entries().len(),
        ensures
            v@ == self.entries()[self.position()].value,
    {
        proof {
            self.block.lemma_wf();
            lemma_block_structure(self.block.entries());
            assert(record_ok(self.block@.data, self.block@.offsets, self.idx as int));
        }
        let data = self.block.data();
        &data[self.value_range.0..self.value_range.1]
    }

    /// Returns true if the iterator is valid.
    pub fn is_valid(&self) -> (valid: bool)
        requires
            self.wf(),
        ensures
            valid == (self.position() < self.entries().len()),
    {
        !self.key.is_empty()
    }

    /// Seeks to the first key in the block.
    pub fn seek_to_first(&mut self)
        requires
            old(self).wf(),
        ensures
            final(self).wf(),
            final(self).block() == old(self).block(),
            final(self).position() == 0,
    {
        proof {
            self.lemma_position();
        }
        self.seek_to(0);
    }

    /// Seeks to the idx-th key in the block.
    fn seek_to(&mut self, idx: usize)
        requires
            old(self).attached(),
        ensures
            final(self).wf(),
            final(self).block() == old(self).block(),
            final(self).position() == if idx < old(self).entries().len() {
                idx as int
            } else {
                old(self).entries().len() as int
            },
    {
        proof {
            self.block.lemma_wf();
            lemma_block_structure(self.block.entries());
        }
        if idx >= self.block.offsets().len() {
            self.key.clear();
            self.value_range = (0, 0);
            return ;
        }
        proof {
            assert(record_ok(self.block@.data, self.block@.offsets, idx as int));
            assert(record_ok(self.block@.data, self.block@.offsets, 0));
            lemma_cursor_steps(self.block@.data, self.block@.offsets[idx as int] as int);
        }
        let offset = self.block.offsets()[idx] as usize;
        self.seek_to_offset(offset);
        self.idx = idx;
    }

    /// Move to the next key in the block. Does nothing once the iterator is
    /// past the last entry.
    pub fn next(&mut self)
        requires
            old(self).wf(),
        ensures
            final(self).wf(),
            final(self).block() == old(self).block(),
            final(self).position() == if old(self).position() < old(self).entries().len() {
                old(self).position() + 1
            } else {
                old(self).position()
            },
    {
        if self.is_valid() {
            proof {
                self.lemma_position();
            }
            self.idx += 1;
            self.seek_to(self.idx);
        }
    }

    /// Seek to the specified position and update the current `key` and `value`
    /// Index update will be handled by caller
    fn seek_to_offset(&mut self, offset: usize)
        requires
            old(self).first_key@.key == rest_at(old(self).block@.data, 0),
            value_start_at(old(self).block@.data, 0) <= old(self).block@.data.len(),
            value_start_at(old(self).block@.data, offset as int) <= old(self).block@.data.len(),
            record_end(old(self).block@.data, offset as int) <= old(self).block@.data.len(),
            overlap_at(old(self).block@.data, offset as int) <= rest_len_at(
                old(self).block@.data,
                0,
            ),
        ensures
            final(self).block == old(self).block,
            final(self).first_key == old(self).first_key,
            final(self).idx == old(self).idx,
            final(self).key@ == decode_entry(
                old(self).block@.data,
                offset as int,
                rest_at(old(self).block@.data, 0),
            ).key,
            final(self).value_range.0 == value_start_at(old(self).block@.data, offset as int),
            final(self).value_range.1 == record_end(old(self).block@.data, offset as int),
    {
        proof {
            let data = self.block@.data;
            lemma_cursor_steps(data, offset as int);
            lemma_cursor_steps(data, 0);
            lemma_key_assembly(
                rest_at(data, 0),
                overlap_at(data, offset as int),
                rest_at(data, offset as int),
            );
        }
        let mut entry: &[u8] = self.block.data();
        assert(entry.len() == self.block@.data.len());
        advance(&mut entry, offset);
        // Since `get_u16()` will automatically move the ptr 2 bytes ahead here,
        // we don't need to manually advance it
        let overlap_len = get_u16(&mut entry) as usize;
        let key_len = get_u16(&mut entry) as usize;
        let key = &entry[0..key_len];
        self.key.clear();
        let first_key = self.first_key.key_ref();
        self.key.append(&first_key[0..overlap_len]);
        self.key.append(key);
        advance(&mut entry, key_len);
        let ts = get_u64(&mut entry);
        self.key.set_ts(ts);
        let value_len = get_u16(&mut entry) as usize;
        // REMEMBER TO CHANGE THIS every time you change the encoding!
        let value_offset_begin = offset + SIZEOF_U16 + SIZEOF_U16 + 8 + key_len + SIZEOF_U16;
        let value_offset_end = value_offset_begin + value_len;
        self.value_range = (value_offset_begin, value_offset_end);
    }

    /// Seek to the first key that >= `key`.
    /// Note: You should assume the key-value pairs in the block are sorted when being added by
    /// callers.
    pub fn seek_to_key(&mut self, key: KeySlice)
        requires
            old(self).wf(),
        ensures
            final(self).wf(),
            final(self).block() == old(self).block(),
            sorted(old(self).entries()) ==> seek_result(
                old(self).entries(),
                key@,
                final(self).position(),
            ),
            strictly_sorted(old(self).entries()) ==> first_at_or_above(
                old(self).entries(),
                key@,
                final(self).position(),
            ),
    {
        let ghost entries = self.entries();
        proof {
            self.lemma_position();
            if strictly_sorted(entries) {
                lemma_strictly_sorted_is_sorted(entries);
            }
        }
        let mut low: usize = 0;
        let mut high: usize = self.block.offsets().len();
        while low < high
            invariant
                self.wf(),
                self.block() == old(self).block(),
                entries == old(self).entries(),
                0 <= low <= high <= entries.len(),
                high == entries.len() || high < entries.len(),
                sorted(entries) ==> forall|i: int|
                    0 <= i < low ==> key_lt(#[trigger] entries[i].key, key@),
                sorted(entries) ==> forall|i: int|
                    high <= i < entries.len() ==> key_lt(key@, #[trigger] entries[i].key),
            decreases high - low,
        {
            let mid = low + (high - low) / 2;
            self.seek_to(mid);
            match self.key().compare(&key) {
                KeyOrder::Less => {
                    proof {
                        if sorted(entries) {
                            assert forall|i: int| 0 <= i < mid + 1 implies key_lt(
                                #[trigger] entries[i].key,
                                key@,
                            ) by {
                                lemma_key_trichotomy(entries[i].key, entries[mid as int].key);
                                lemma_key_le_lt_transitive(
                                    entries[i].key,
                                    entries[mid as int].key,
                                    key@,
                                );
                            }
                        }
                    }
                    low = mid + 1
                },
                KeyOrder::Greater => {
                    proof {
                        if sorted(entries) {
                            assert forall|i: int| mid <= i < entries.len() implies key_lt(
                                key@,
                                #[trigger] entries[i].key,
                            ) by {
                                lemma_key_le_lt_transitive(
                                    key@,
                                    entries[mid as int].key,
                                    entries[i].key,
                                );
                            }
                        }
                    }
                    high = mid
                },
                KeyOrder::Equal => {
                    proof {
                        if strictly_sorted(entries) {
                            lemma_seek_lands_on_first(entries, key@, mid as int);
                        }
                    }
                    return ;
                },
            }
        }
        self.seek_to(low);
        proof {
            if strictly_sorted(entries) {
                lemma_seek_lands_on_first(entries, key@, low as int);
            }
        }
    }
}

/// Keys that go up never go down.
pub proof fn lemma_strictly_sorted_is_sorted(entries: Seq<EntryModel>)
    requires
        strictly_sorted(entries),
    ensures
        sorted(entries),
{
    assert forall|i: int, j: int| 0 <= i <= j < entries.len() implies key_le(
        #[trigger] entries[i].key,
        #[trigger] entries[j].key,
    ) by {
        lemma_key_trichotomy(entries[i].key, entries[j].key);
    }
}

} // verus!
