//! What holds of the byte layout of a block: that records read back as the
//! pairs they were written from, and what follows from it.

use vstd::prelude::*;
use crate::block::layout::{
    block_data, block_offsets, decode_block, decode_entry, encodable, encode_entry,
    entry_encodable, first_key_of, layout_wf, overlap_at, record_end, record_ok, rest_at,
    rest_len_at, serialized_size, ts_at, value_at, value_len_at, value_start_at,
};
use crate::block::EntryModel;
use crate::key::{common_prefix_len, lemma_common_prefix_len};
use crate::wire::{lemma_be_u64_prefix, lemma_u16_round_trip, lemma_u64_round_trip, u16_be, u64_be};

verus! {

/// A record that lies within `data` reads the same when more bytes follow.
pub proof fn lemma_record_stable(data: Seq<u8>, off: int, more: Seq<u8>)
    requires
        0 <= off,
        value_start_at(data, off) <= data.len(),
        record_end(data, off) <= data.len(),
    ensures
        overlap_at(data + more, off) == overlap_at(data, off),
        rest_len_at(data + more, off) == rest_len_at(data, off),
        rest_at(data + more, off) == rest_at(data, off),
        ts_at(data + more, off) == ts_at(data, off),
        value_len_at(data + more, off) == value_len_at(data, off),
        value_at(data + more, off) == value_at(data, off),
{
    let d = data + more;
    assert(rest_len_at(d, off) == rest_len_at(data, off));
    assert(rest_at(d, off) =~= rest_at(data, off));
    let at = off + 4 + rest_len_at(data, off);
    assert(d.skip(at).take(8) =~= data.skip(at).take(8));
    lemma_be_u64_prefix(d.skip(at), data.skip(at));
    assert(value_len_at(d, off) == value_len_at(data, off));
    assert(value_at(d, off) =~= value_at(data, off));
}

/// What a cursor sees that reads the record at `off` field by field, each
/// read moving it past the field.
pub proof fn lemma_cursor_steps(data: Seq<u8>, off: int)
    requires
        0 <= off,
        value_start_at(data, off) <= data.len(),
    ensures
        data.skip(off).len() >= 2,
        data.skip(off).skip(2) == data.skip(off + 2),
        data.skip(off + 2).len() >= 2,
        data.skip(off + 2).skip(2) == data.skip(off + 4),
        data.skip(off + 4).len() >= rest_len_at(data, off),
        data.skip(off + 4).subrange(0, rest_len_at(data, off)) == rest_at(data, off),
        data.skip(off + 4).skip(rest_len_at(data, off)) == data.skip(
            off + 4 + rest_len_at(data, off),
        ),
        data.skip(off + 4 + rest_len_at(data, off)).len() >= 8,
        data.skip(off + 4 + rest_len_at(data, off)).skip(8) == data.skip(
            off + 12 + rest_len_at(data, off),
        ),
        data.skip(off + 12 + rest_len_at(data, off)).len() >= 2,
        rest_at(data, off).len() == rest_len_at(data, off),
        record_end(data, off) <= data.len() ==> value_at(data, off).len() == value_len_at(
            data,
            off,
        ),
        0 <= rest_len_at(data, off) <= 0xFFFF,
        0 <= value_len_at(data, off) <= 0xFFFF,
        0 <= overlap_at(data, off) <= 0xFFFF,
{
    let rl = rest_len_at(data, off);
    assert(data.skip(off).skip(2) =~= data.skip(off + 2));
    assert(data.skip(off + 2).skip(2) =~= data.skip(off + 4));
    assert(data.skip(off + 4).subrange(0, rl) =~= rest_at(data, off));
    assert(data.skip(off + 4).skip(rl) =~= data.skip(off + 4 + rl));
    assert(data.skip(off + 4 + rl).skip(8) =~= data.skip(off + 12 + rl));
}

/// A key put together from nothing, a prefix of the first key and the rest
/// is that prefix and the rest.
pub proof fn lemma_key_assembly(first_key: Seq<u8>, overlap: int, rest: Seq<u8>)
    requires
        0 <= overlap <= first_key.len(),
    ensures
        Seq::<u8>::empty() + first_key.subrange(0, overlap) + rest == first_key.take(overlap)
            + rest,
{
    assert(Seq::<u8>::empty() + first_key.subrange(0, overlap) + rest =~= first_key.take(overlap)
        + rest);
}

/// A record written after `before` reads back as the pair it was made from.
pub proof fn lemma_record_decodes(before: Seq<u8>, first_key: Seq<u8>, e: EntryModel)
    requires
        e.key.key.len() <= 0xFFFF,
        e.value.len() <= 0xFFFF,
    ensures
        ({
            let data = before + encode_entry(first_key, e);
            let off = before.len() as int;
            let overlap = common_prefix_len(first_key, e.key.key);
            &&& overlap <= first_key.len()
            &&& overlap <= e.key.key.len()
            &&& encode_entry(first_key, e).len() == 14 + e.key.key.len() - overlap + e.value.len()
            &&& overlap_at(data, off) == overlap
            &&& rest_len_at(data, off) == e.key.key.len() - overlap
            &&& rest_at(data, off) == e.key.key.skip(overlap as int)
            &&& ts_at(data, off) == e.key.ts
            &&& value_len_at(data, off) == e.value.len()
            &&& value_at(data, off) == e.value
            &&& record_end(data, off) == data.len()
            &&& decode_entry(data, off, first_key) == e
        }),
{
    lemma_common_prefix_len(first_key, e.key.key);
    let overlap = common_prefix_len(first_key, e.key.key);
    let rest = e.key.key.skip(overlap as int);
    let f1 = u16_be(overlap as u16);
    let f2 = u16_be(rest.len() as u16);
    let f4 = u64_be(e.key.ts);
    let f5 = u16_be(e.value.len() as u16);
    let rec = encode_entry(first_key, e);
    let data = before + rec;
    let off = before.len() as int;
    lemma_u16_round_trip(overlap as u16, f2 + rest + f4 + f5 + e.value);
    lemma_u16_round_trip(rest.len() as u16, rest + f4 + f5 + e.value);
    lemma_u64_round_trip(e.key.ts, f5 + e.value);
    lemma_u16_round_trip(e.value.len() as u16, e.value);
    assert(data.skip(off) =~= f1 + (f2 + rest + f4 + f5 + e.value));
    assert(data.skip(off + 2) =~= f2 + (rest + f4 + f5 + e.value));
    assert(rest_len_at(data, off) == rest.len());
    assert(rest_at(data, off) =~= rest);
    assert(data.skip(off + 4 + rest.len()) =~= f4 + (f5 + e.value));
    assert(data.skip(off + 12 + rest.len()) =~= f5 + e.value);
    assert(value_len_at(data, off) == e.value.len());
    assert(value_at(data, off) =~= e.value);
    assert(first_key.take(overlap as int) + rest =~= e.key.key);
}

/// A record of a layout is still in order, and stands for the same pair,
/// when one more record is written after the data.
pub proof fn lemma_record_kept(data: Seq<u8>, offsets: Seq<u16>, more: Seq<u8>, i: int)
    requires
        0 <= i < offsets.len(),
        offsets[0] == 0,
        data.len() <= 0xFFFF,
        record_ok(data, offsets, 0),
        record_ok(data, offsets, i),
    ensures
        record_ok(data + more, offsets.push(data.len() as u16), i),
        rest_at(data + more, 0) == rest_at(data, 0),
        decode_entry(data + more, offsets[i] as int, rest_at(data + more, 0)) == decode_entry(
            data,
            offsets[i] as int,
            rest_at(data, 0),
        ),
{
    lemma_record_stable(data, offsets[i] as int, more);
    lemma_record_stable(data, 0, more);
}

/// With the record of `e` written after a layout, the new record is in
/// order and stands for `e`.
pub proof fn lemma_record_added(data: Seq<u8>, offsets: Seq<u16>, first_key: Seq<u8>, e: EntryModel)
    requires
        entry_encodable(e),
        data.len() <= 0xFFFF,
        offsets.len() == 0 ==> data.len() == 0 && first_key.len() == 0,
        offsets.len() > 0 ==> {
            &&& offsets[0] == 0
            &&& overlap_at(data, 0) == 0
            &&& rest_at(data, 0) == first_key
            &&& record_ok(data, offsets, 0)
        },
    ensures
        ({
            let data2 = data + encode_entry(first_key, e);
            let offsets2 = offsets.push(data.len() as u16);
            let n = offsets.len() as int;
            &&& data.len() + 14 <= data2.len() <= 0xFFFF + 14 + 0xFFFF + 0xFFFF
            &&& offsets2[0] == 0
            &&& overlap_at(data2, 0) == 0
            &&& rest_at(data2, 0) == (if n == 0 {
                e.key.key
            } else {
                first_key
            })
            &&& record_ok(data2, offsets2, n)
            &&& decode_entry(data2, offsets2[n] as int, rest_at(data2, 0)) == e
        }),
{
    let rec = encode_entry(first_key, e);
    let data2 = data + rec;
    let off = data.len() as int;
    lemma_record_decodes(data, first_key, e);
    if offsets.len() == 0 {
        assert(first_key =~= Seq::<u8>::empty());
        assert(rest_at(data2, 0) =~= e.key.key);
        assert(rest_at(data2, 0).take(0) + rest_at(data2, off) =~= e.key.key);
    } else {
        lemma_record_stable(data, 0, rec);
    }
}

/// `data` and `offsets` hold one record for each of `entries`, in order, and
/// each record stands for its pair.
pub open spec fn holds_entries(data: Seq<u8>, offsets: Seq<u16>, entries: Seq<EntryModel>) -> bool {
    &&& offsets.len() == entries.len()
    &&& entries.len() > 0 ==> {
        &&& offsets[0] == 0
        &&& overlap_at(data, 0) == 0
        &&& rest_at(data, 0) == entries[0].key.key
    }
    &&& forall|i: int|
        0 <= i < entries.len() ==> {
            &&& #[trigger] record_ok(data, offsets, i)
            &&& decode_entry(data, offsets[i] as int, rest_at(data, 0)) == entries[i]
        }
}

/// Writing the record of one more pair after a layout gives a layout of the
/// pairs with that pair after them.
pub proof fn lemma_holds_entries_push(
    data: Seq<u8>,
    offsets: Seq<u16>,
    entries: Seq<EntryModel>,
    e: EntryModel,
)
    requires
        holds_entries(data, offsets, entries),
        entries.len() == 0 ==> data.len() == 0,
        entry_encodable(e),
        data.len() <= 0xFFFF,
    ensures
        holds_entries(
            data + encode_entry(first_key_of(entries), e),
            offsets.push(data.len() as u16),
            entries.push(e),
        ),
        data.len() + 14 <= (data + encode_entry(first_key_of(entries), e)).len() <= 0xFFFF + 14
            + 0xFFFF + 0xFFFF,
{
    let n = entries.len() as int;
    let first_key = first_key_of(entries);
    let rec = encode_entry(first_key, e);
    let data2 = data + rec;
    let offsets2 = offsets.push(data.len() as u16);
    let entries2 = entries.push(e);
    assert(n > 0 ==> record_ok(data, offsets, 0));
    lemma_record_added(data, offsets, first_key, e);
    assert forall|i: int| 0 <= i < entries2.len() implies {
        &&& #[trigger] record_ok(data2, offsets2, i)
        &&& decode_entry(data2, offsets2[i] as int, rest_at(data2, 0)) == entries2[i]
    } by {
        if i < n {
            assert(record_ok(data, offsets, i));
            lemma_record_kept(data, offsets, rec, i);
        }
    }
}

/// What holds one record for each of some pairs decodes to those pairs.
pub proof fn lemma_holds_entries_decodes(
    data: Seq<u8>,
    offsets: Seq<u16>,
    entries: Seq<EntryModel>,
)
    requires
        holds_entries(data, offsets, entries),
    ensures
        decode_block(data, offsets) == entries,
{
    assert forall|i: int| 0 <= i < entries.len() implies decode_block(data, offsets)[i]
        == entries[i] by {
        assert(record_ok(data, offsets, i));
    }
    assert(decode_block(data, offsets) =~= entries);
}

/// The layout of encodable pairs holds one record for each of them, and
/// decodes to them.
pub proof fn lemma_block_structure(entries: Seq<EntryModel>)
    requires
        encodable(entries),
    ensures
        holds_entries(block_data(entries), block_offsets(entries), entries),
        decode_block(block_data(entries), block_offsets(entries)) == entries,
        14 * entries.len() <= block_data(entries).len() <= 0xFFFF + 14 + 0xFFFF + 0xFFFF,
        entries.len() <= 4682,
    decreases entries.len(),
{
    if entries.len() > 0 {
        let init = entries.drop_last();
        let e = entries.last();
        lemma_block_structure(init);
        lemma_holds_entries_push(block_data(init), block_offsets(init), init, e);
        assert(init.push(e) =~= entries);
    }
    lemma_holds_entries_decodes(block_data(entries), block_offsets(entries), entries);
}

/// Each of the pairs of a layout can be written as a record.
pub proof fn lemma_encodable_index(entries: Seq<EntryModel>, i: int)
    requires
        encodable(entries),
        0 <= i < entries.len(),
    ensures
        entry_encodable(entries[i]),
    decreases entries.len(),
{
    if i < entries.len() - 1 {
        lemma_encodable_index(entries.drop_last(), i);
    }
}

/// Writing the six fields of a record one after another writes the record.
pub proof fn lemma_fields_are_record(data: Seq<u8>, first_key: Seq<u8>, e: EntryModel)
    ensures
        ({
            let overlap = common_prefix_len(first_key, e.key.key);
            data + u16_be(overlap as u16) + u16_be((e.key.key.len() - overlap) as u16)
                + e.key.key.skip(overlap as int) + u64_be(e.key.ts) + u16_be(e.value.len() as u16)
                + e.value == data + encode_entry(first_key, e)
        }),
{
    let overlap = common_prefix_len(first_key, e.key.key);
    lemma_u64_round_trip(e.key.ts, Seq::empty());
    assert(data + u16_be(overlap as u16) + u16_be((e.key.key.len() - overlap) as u16)
        + e.key.key.skip(overlap as int) + u64_be(e.key.ts) + u16_be(e.value.len() as u16)
        + e.value =~= data + encode_entry(first_key, e));
}

/// One more pair makes a block larger by its offset, by the fixed fields of
/// its record and the version stamp, by the rest of its key, and by its value.
pub proof fn lemma_serialized_size_push(entries: Seq<EntryModel>, e: EntryModel)
    requires
        e.key.key.len() <= 0xFFFF,
        e.value.len() <= 0xFFFF,
    ensures
        serialized_size(entries.push(e)) == serialized_size(entries) + 16 + e.key.key.len()
            - common_prefix_len(first_key_of(entries), e.key.key) + e.value.len(),
{
    assert(entries.push(e).drop_last() =~= entries);
    lemma_record_decodes(block_data(entries), first_key_of(entries), e);
}

/// Adding the record of one more pair to a layout in order gives a layout in
/// order, of the pairs with that pair after them.
pub proof fn lemma_layout_push(data: Seq<u8>, offsets: Seq<u16>, e: EntryModel)
    requires
        layout_wf(data, offsets),
        entry_encodable(e),
        data.len() <= 0xFFFF,
    ensures
        ({
            let entries = decode_block(data, offsets);
            let data2 = data + encode_entry(first_key_of(entries), e);
            let offsets2 = offsets.push(data.len() as u16);
            &&& layout_wf(data2, offsets2)
            &&& decode_block(data2, offsets2) == entries.push(e)
        }),
{
    let entries = decode_block(data, offsets);
    let entries2 = entries.push(e);
    assert(entries2.drop_last() =~= entries);
    assert(encodable(entries2));
    lemma_block_structure(entries2);
}

/// Round trip: pairs that can be laid out as one block are what their layout
/// decodes to. A builder that took the pairs builds that layout, and an
/// iterator walks what it decodes to.
pub proof fn lemma_round_trip(entries: Seq<EntryModel>)
    requires
        encodable(entries),
    ensures
        layout_wf(block_data(entries), block_offsets(entries)),
        decode_block(block_data(entries), block_offsets(entries)) == entries,
{
    lemma_block_structure(entries);
}

/// Prefix compression: the overlap written for a key is the length of what
/// the key shares with the block's first key; it is no longer than the first
/// key and no longer than the key; and the first key's prefix of that length,
/// with the rest of the key after it, is the key. That is how a record is
/// read back. It holds of every key that a record can hold, whatever the
/// value.
pub proof fn lemma_prefix_compression(before: Seq<u8>, first_key: Seq<u8>, e: EntryModel)
    requires
        e.key.key.len() <= 0xFFFF,
    ensures
        ({
            let data = before + encode_entry(first_key, e);
            let off = before.len() as int;
            &&& overlap_at(data, off) == common_prefix_len(first_key, e.key.key)
            &&& overlap_at(data, off) <= first_key.len()
            &&& overlap_at(data, off) <= e.key.key.len()
            &&& rest_at(data, off) == e.key.key.skip(overlap_at(data, off))
            &&& first_key.take(overlap_at(data, off)) + rest_at(data, off) == e.key.key
        }),
{
    lemma_common_prefix_len(first_key, e.key.key);
    let overlap = common_prefix_len(first_key, e.key.key);
    let rest = e.key.key.skip(overlap as int);
    let f1 = u16_be(overlap as u16);
    let f2 = u16_be(rest.len() as u16);
    let tail = u64_be(e.key.ts) + u16_be(e.value.len() as u16) + e.value;
    let data = before + encode_entry(first_key, e);
    let off = before.len() as int;
    lemma_u16_round_trip(overlap as u16, f2 + rest + tail);
    lemma_u16_round_trip(rest.len() as u16, rest + tail);
    assert(data.skip(off) =~= f1 + (f2 + rest + tail));
    assert(data.skip(off + 2) =~= f2 + (rest + tail));
    assert(rest_at(data, off) =~= rest);
    assert(first_key.take(overlap as int) + rest =~= e.key.key);
}

} // verus!
