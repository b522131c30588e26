//! Builds a block out of key/value pairs, one after another.

use vstd::prelude::*;
use crate::block::layout::{
    block_data, block_offsets, decode_block, encodable, encode_entry, first_key_of, layout_wf,
    serialized_size,
};
use crate::block::layout_lemmas::{
    lemma_block_structure, lemma_encodable_index, lemma_fields_are_record, lemma_layout_push,
    lemma_serialized_size_push,
};
use crate::block::{Block, BlockModel, EntryModel, SIZEOF_U16};
use crate::key::{
    common_prefix_from, common_prefix_len, lemma_common_prefix_len, lemma_shared_prefix, KeySlice,
    KeyVec,
};
use crate::wire::{put, put_u16, put_u64};

verus! {

/// Builds a block.
pub struct BlockBuilder {
    /// Offsets of each key-value entries.
    offsets: Vec<u16>,
    /// All serialized key-value pairs in the block.
    data: Vec<u8>,
    /// The expected block size.
    block_size: usize,
    /// The first key in the block, empty while there is none.
    first_key: KeyVec,
}

/// The number of leading bytes that the two raw keys share. It is no more
/// than either key has, and the first key's prefix of that length, with what
/// is left of `key` after that many bytes, is `key`.
pub fn compute_overlap(first_key: KeySlice, key: KeySlice) -> (overlap: usize)
    ensures
        overlap == common_prefix_len(first_key@.key, key@.key),
        overlap <= first_key@.key.len(),
        overlap <= key@.key.len(),
        first_key@.key.take(overlap as int) + key@.key.skip(overlap as int) == key@.key,
{
    let a = first_key.key_ref();
    let b = key.key_ref();
    proof {
        lemma_shared_prefix(a@, b@);
    }
    let mut i: usize = 0;
    loop
        invariant
            a@ == first_key@.key,
            b@ == key@.key,
            i <= a@.len(),
            i <= b@.len(),
            common_prefix_from(a@, b@, i as nat) == common_prefix_len(a@, b@),
        ensures
            i == common_prefix_len(a@, b@),
        decreases a@.len() - i,
    {
        if i >= a.len() || i >= b.len() {
            break ;
        }
        if a[i] != b[i] {
            break ;
        }
        i += 1;
    }
    i
}

/// Entries of a block stay within `block_size`, but for two bytes that the
/// admission rule does not count and that a shared prefix of two bytes or
/// more makes up for. A single entry is under no bound.
pub open spec fn within_budget(entries: Seq<EntryModel>, block_size: usize) -> bool {
    entries.len() >= 2 ==> serialized_size(entries) + common_prefix_len(
        entries[0].key.key,
        entries.last().key.key,
    ) <= block_size + 2
}

/// A pair that is admitted after others leaves the entries within budget,
/// and so does a first pair.
pub proof fn lemma_budget_push(entries: Seq<EntryModel>, e: EntryModel, block_size: usize)
    requires
        entries.len() > 0 ==> serialized_size(entries) + e.key.key.len() + 8 + e.value.len() + 6
            <= block_size,
        serialized_size(entries.push(e)) == serialized_size(entries) + 16 + e.key.key.len()
            - common_prefix_len(first_key_of(entries), e.key.key) + e.value.len(),
    ensures
        within_budget(entries.push(e), block_size),
{
}

impl BlockBuilder {
    /// The builder's data is the layout of its entries, it knows its first
    /// key, and it is within its budget.
    pub closed spec fn wf(&self) -> bool {
        &&& layout_wf(self.data@, self.offsets@)
        &&& self.first_key@.key == first_key_of(decode_block(self.data@, self.offsets@))
        &&& within_budget(decode_block(self.data@, self.offsets@), self.block_size)
    }

    /// The pairs added so far, in their order.
    pub closed spec fn entries(&self) -> Seq<EntryModel> {
        decode_block(self.data@, self.offsets@)
    }

    /// The configured block size in bytes.
    pub closed spec fn block_size(&self) -> usize {
        self.block_size
    }

    /// The data and the offsets written so far.
    pub closed spec fn layout(&self) -> BlockModel {
        BlockModel { data: self.data@, offsets: self.offsets@ }
    }

    /// Whether the builder takes one more pair. The first pair is always
    /// taken. A later one is taken where the serialized size so far, the raw
    /// key with its version stamp, the value and three two-byte fields stay
    /// within the block size.
    pub open spec fn admits(&self, key: Seq<u8>, value: Seq<u8>) -> bool {
        self.entries().len() == 0 || serialized_size(self.entries()) + key.len() + 8 + value.len()
            + 6 <= self.block_size()
    }

    /// The format of a block can express the pair after the pairs so far:
    /// the lengths of key and value fit the two bytes that a record has for
    /// each, and, where the builder takes the pair, so does the offset of its
    /// record, which is the length of the data so far.
    pub open spec fn representable(&self, key: Seq<u8>, value: Seq<u8>) -> bool {
        &&& key.len() <= 0xFFFF
        &&& value.len() <= 0xFFFF
        &&& self.admits(key, value) ==> block_data(self.entries()).len() <= 0xFFFF
    }

    /// What the builder has written is the layout of its entries.
    pub proof fn lemma_layout(&self)
        requires
            self.wf(),
        ensures
            self.layout() == (BlockModel {
                data: block_data(self.entries()),
                offsets: block_offsets(self.entries()),
            }),
            self.entries() == decode_block(self.layout().data, self.layout().offsets),
    {
    }

    /// The entries of a builder can be laid out as one block.
    pub proof fn lemma_entries_encodable(&self)
        requires
            self.wf(),
        ensures
            encodable(self.entries()),
    {
    }

    /// Size bound: a builder with more than one entry is no larger than its
    /// block size and two bytes, less what its last key shares with the first.
    /// So it is within its block size wherever the last key shares two bytes
    /// or more with the first. The first entry is taken whatever its size.
    pub proof fn lemma_size_bound(&self)
        requires
            self.wf(),
            self.entries().len() >= 2,
        ensures
            serialized_size(self.entries()) + common_prefix_len(
                self.entries()[0].key.key,
                self.entries().last().key.key,
            ) <= self.block_size() + 2,
            common_prefix_len(self.entries()[0].key.key, self.entries().last().key.key) >= 2
                ==> serialized_size(self.entries()) <= self.block_size(),
    {
    }

    /// Creates a new block builder.
    pub fn new(block_size: usize) -> (b: Self)
        ensures
            b.wf(),
            b.entries() == Seq::<EntryModel>::empty(),
            b.block_size() == block_size,
    {
        Self { offsets: Vec::new(), data: Vec::new(), block_size, first_key: KeyVec::new() }
    }

    /// The size that the block would have if it were serialized now.
    pub fn estimated_size(&self) -> (size: usize)
        requires
            self.wf(),
        ensures
            size == serialized_size(self.entries()),
    {
        proof {
            lemma_block_structure(self.entries());
        }
        SIZEOF_U16 + self.offsets.len() * SIZEOF_U16 + self.data.len()
    }

    /// Whether the format of a block can express the pair after the pairs so
    /// far. `add` asks for it.
    pub fn can_represent(&self, key: KeySlice, value: &[u8]) -> (r: bool)
        requires
            self.wf(),
        ensures
            r == self.representable(key@.key, value@),
    {
        proof {
            lemma_block_structure(self.entries());
        }
        if key.key_len() > 0xFFFF || value.len() > 0xFFFF {
            return false;
        }
        self.data.len() <= 0xFFFF || (self.estimated_size() + key.raw_len() + value.len()
            + SIZEOF_U16 * 3 > self.block_size && !self.is_empty())
    }

    /// Adds a key-value pair to the block. Returns false when the block is
    /// full, and then leaves the builder as it was. The key must not be
    /// empty, and the format must be able to express the pair. What is
    /// written is the offset of the new record, and the record itself after
    /// the data so far.
    #[must_use]
    pub fn add(&mut self, key: KeySlice, value: &[u8]) -> (added: bool)
        requires
            old(self).wf(),
            key@.key.len() >= 1,
            old(self).representable(key@.key, value@),
        ensures
            final(self).wf(),
            final(self).block_size() == old(self).block_size(),
            added == old(self).admits(key@.key, value@),
            added ==> final(self).entries() == old(self).entries().push(
                EntryModel { key: key@, value: value@ },
            ),
            added ==> final(self).layout() == (BlockModel {
                data: old(self).layout().data + encode_entry(
                    first_key_of(old(self).entries()),
                    EntryModel { key: key@, value: value@ },
                ),
                offsets: old(self).layout().offsets.push(old(self).layout().data.len() as u16),
            }),
            !added ==> *final(self) == *old(self),
    {
        proof {
            lemma_block_structure(self.entries());
        }
        if self.estimated_size() + key.raw_len() + value.len() + SIZEOF_U16 * 3 > self.block_size
            && !self.is_empty() {
            return false;
        }
        let ghost e = EntryModel { key: key@, value: value@ };
        proof {
            if self.entries().len() > 0 {
                lemma_encodable_index(self.entries(), 0);
            }
            lemma_layout_push(self.data@, self.offsets@, e);
            lemma_serialized_size_push(self.entries(), e);
            lemma_fields_are_record(self.data@, self.first_key@.key, e);
            lemma_common_prefix_len(self.first_key@.key, key@.key);
        }
        // Add the offset of the data into the offset array.
        self.offsets.push(self.data.len() as u16);
        let overlap = compute_overlap(self.first_key.as_key_slice(), key);
        // Encode key overlap.
        put_u16(&mut self.data, overlap as u16);
        // Encode key length.
        put_u16(&mut self.data, (key.key_len() - overlap) as u16);
        // Encode key content.
        let key_bytes = key.key_ref();
        put(&mut self.data, &key_bytes[overlap..key_bytes.len()]);
        // Encode key ts
        put_u64(&mut self.data, key.ts());
        // Encode value length.
        put_u16(&mut self.data, value.len() as u16);
        // Encode value content.
        put(&mut self.data, value);

        if self.first_key.is_empty() {
            self.first_key = key.to_key_vec();
        }
        proof {
            lemma_budget_push(old(self).entries(), e, self.block_size);
        }
        true
    }

    /// Check if there is no key-value pair in the block.
    pub fn is_empty(&self) -> (r: bool)
        ensures
            r == (self.entries().len() == 0),
    {
        self.offsets.is_empty()
    }

    /// Finalize the block. The builder must hold a pair.
    pub fn build(self) -> (block: Block)
        requires
            self.wf(),
            self.entries().len() > 0,
        ensures
            block.wf(),
            block.entries() == self.entries(),
            block@ == self.layout(),
            block@ == (BlockModel {
                data: block_data(self.entries()),
                offsets: block_offsets(self.entries()),
            }),
    {
        Block::new(self.data, self.offsets)
    }
}

} // verus!
