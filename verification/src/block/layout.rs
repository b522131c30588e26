//! The byte layout of a block: how pairs are written as records, and what
//! records stand for.

use vstd::prelude::*;
use crate::block::EntryModel;
use crate::key::{common_prefix_len, KeyModel};
use crate::wire::{be_u16, be_u64, u16_be, u64_be};

verus! {

/// A pair can be written as an entry record: its key is not empty, and the
/// lengths of key and value fit the two-byte length fields.
pub open spec fn entry_encodable(e: EntryModel) -> bool {
    &&& 1 <= e.key.key.len() <= 0xFFFF
    &&& e.value.len() <= 0xFFFF
}

/// The record of `e` in a block whose first key is `first_key`: the length
/// of the prefix shared with the first key, the length of the rest of the key,
/// the rest of the key, the version stamp, the length of the value, the value.
/// All numbers are big-endian.
pub open spec fn encode_entry(first_key: Seq<u8>, e: EntryModel) -> Seq<u8> {
    let overlap = common_prefix_len(first_key, e.key.key);
    u16_be(overlap as u16) + u16_be((e.key.key.len() - overlap) as u16) + e.key.key.skip(
        overlap as int,
    ) + u64_be(e.key.ts) + u16_be(e.value.len() as u16) + e.value
}

/// The key against which the next record is compressed: the key of the first
/// entry, and the empty key while there is none.
pub open spec fn first_key_of(entries: Seq<EntryModel>) -> Seq<u8> {
    if entries.len() == 0 {
        Seq::empty()
    } else {
        entries[0].key.key
    }
}

/// The data of a block that holds `entries` in this order.
pub open spec fn block_data(entries: Seq<EntryModel>) -> Seq<u8>
    decreases entries.len(),
{
    if entries.len() == 0 {
        Seq::empty()
    } else {
        block_data(entries.drop_last()) + encode_entry(
            first_key_of(entries.drop_last()),
            entries.last(),
        )
    }
}

/// The offsets of a block that holds `entries` in this order: each record
/// starts where the one before it ends.
pub open spec fn block_offsets(entries: Seq<EntryModel>) -> Seq<u16>
    decreases entries.len(),
{
    if entries.len() == 0 {
        Seq::empty()
    } else {
        block_offsets(entries.drop_last()).push(block_data(entries.drop_last()).len() as u16)
    }
}

/// `entries` can be laid out as one block: each of them can be written as a
/// record, and each record starts at an offset that two bytes can hold.
pub open spec fn encodable(entries: Seq<EntryModel>) -> bool
    decreases entries.len(),
{
    entries.len() == 0 || {
        &&& encodable(entries.drop_last())
        &&& entry_encodable(entries.last())
        &&& block_data(entries.drop_last()).len() <= 0xFFFF
    }
}

/// The serialized size of a block that holds `entries`: the entry count,
/// one offset for each entry, and the data.
pub open spec fn serialized_size(entries: Seq<EntryModel>) -> nat {
    2 + 2 * entries.len() + block_data(entries).len()
}

/// The overlap field of the record at `off`.
pub open spec fn overlap_at(data: Seq<u8>, off: int) -> int {
    be_u16(data.skip(off)) as int
}

/// The length of the rest of the key in the record at `off`.
pub open spec fn rest_len_at(data: Seq<u8>, off: int) -> int {
    be_u16(data.skip(off + 2)) as int
}

/// The rest of the key in the record at `off`.
pub open spec fn rest_at(data: Seq<u8>, off: int) -> Seq<u8> {
    data.subrange(off + 4, off + 4 + rest_len_at(data, off))
}

/// The version stamp in the record at `off`.
pub open spec fn ts_at(data: Seq<u8>, off: int) -> u64 {
    be_u64(data.skip(off + 4 + rest_len_at(data, off)))
}

/// The length of the value in the record at `off`.
pub open spec fn value_len_at(data: Seq<u8>, off: int) -> int {
    be_u16(data.skip(off + 12 + rest_len_at(data, off))) as int
}

/// Where the value of the record at `off` starts.
pub open spec fn value_start_at(data: Seq<u8>, off: int) -> int {
    off + 14 + rest_len_at(data, off)
}

/// Where the record at `off` ends.
pub open spec fn record_end(data: Seq<u8>, off: int) -> int {
    value_start_at(data, off) + value_len_at(data, off)
}

/// The value in the record at `off`.
pub open spec fn value_at(data: Seq<u8>, off: int) -> Seq<u8> {
    data.subrange(value_start_at(data, off), record_end(data, off))
}

/// The pair that the record at `off` stands for in a block whose first key
/// is `first_key`: the key is the shared prefix of the first key, then the rest.
pub open spec fn decode_entry(data: Seq<u8>, off: int, first_key: Seq<u8>) -> EntryModel {
    EntryModel {
        key: KeyModel {
            key: first_key.take(overlap_at(data, off)) + rest_at(data, off),
            ts: ts_at(data, off),
        },
        value: value_at(data, off),
    }
}

/// The pairs that a block stands for. The first record holds the first key
/// whole.
pub open spec fn decode_block(data: Seq<u8>, offsets: Seq<u16>) -> Seq<EntryModel> {
    Seq::new(offsets.len(), |i: int| decode_entry(data, offsets[i] as int, rest_at(data, 0)))
}

/// The record that `offsets[i]` points at lies within `data`, ends where the
/// next one starts, shares no more with the first key than the first key
/// has, and holds a key that is not empty.
pub open spec fn record_ok(data: Seq<u8>, offsets: Seq<u16>, i: int) -> bool {
    let off = offsets[i] as int;
    &&& value_start_at(data, off) <= data.len()
    &&& record_end(data, off) <= data.len()
    &&& record_end(data, off) == if i + 1 < offsets.len() {
        offsets[i + 1] as int
    } else {
        data.len() as int
    }
    &&& overlap_at(data, off) <= rest_len_at(data, 0)
    &&& overlap_at(data, off) + rest_len_at(data, off) >= 1
}

/// `data` and `offsets` are the layout of the pairs that they decode to.
pub open spec fn layout_wf(data: Seq<u8>, offsets: Seq<u16>) -> bool {
    let entries = decode_block(data, offsets);
    &&& encodable(entries)
    &&& data == block_data(entries)
    &&& offsets == block_offsets(entries)
}

} // verus!
