use mini_lsm::block::builder::BlockBuilder;
use mini_lsm::block::iterator::BlockIterator;
use mini_lsm::block::Block;
use mini_lsm::key::KeySlice;
use std::sync::Arc;

fn block_of(pairs: &[(&[u8], u64, &[u8])]) -> Arc<Block> {
    let mut builder = BlockBuilder::new(1 << 16);
    for (key, ts, value) in pairs {
        assert!(builder.add(KeySlice::from_slice(key, *ts), value));
    }
    Arc::new(builder.build())
}

fn fruit() -> Arc<Block> {
    block_of(&[
        (b"apple", 0, b"1"),
        (b"apply", 0, b"2"),
        (b"banana", 0, b"3"),
        (b"cherry", 0, b"4"),
        (b"date", 0, b"5"),
    ])
}

#[test]
fn test_iterator_reconstructs_apply_from_appl_and_y() {
    let block = block_of(&[(b"apple", 0, b"1"), (b"apply", 0, b"2")]);
    let mut iter = BlockIterator::create_and_seek_to_first(block);
    assert!(iter.is_valid());
    assert_eq!(iter.key().key_ref(), b"apple");
    assert_eq!(iter.value(), b"1");
    iter.next();
    assert!(iter.is_valid());
    assert_eq!(iter.key().key_ref(), b"apply");
    assert_eq!(iter.value(), b"2");
    iter.next();
    assert!(!iter.is_valid());
}

#[test]
fn test_round_trip_gives_back_keys_stamps_and_values() {
    let pairs: Vec<(Vec<u8>, u64, Vec<u8>)> = (0..200u32)
        .map(|i| {
            (
                format!("key_{:05}", i).into_bytes(),
                u64::MAX - i as u64,
                format!("value {}", i * 7).into_bytes(),
            )
        })
        .collect();
    let mut builder = BlockBuilder::new(1 << 16);
    for (key, ts, value) in &pairs {
        assert!(builder.add(KeySlice::from_slice(key, *ts), value));
    }
    let mut iter = BlockIterator::create_and_seek_to_first(Arc::new(builder.build()));
    for (key, ts, value) in &pairs {
        assert!(iter.is_valid());
        assert_eq!(iter.key().key_ref(), key.as_slice());
        assert_eq!(iter.key().ts(), *ts);
        assert_eq!(iter.value(), value.as_slice());
        iter.next();
    }
    assert!(!iter.is_valid());
}

#[test]
fn test_round_trip_of_empty_values_and_a_large_pair() {
    let large_key = vec![b'z'; 5000];
    let large_value = vec![9u8; 20_000];
    let block = block_of(&[
        (b"a", 3, b""),
        (b"ab", 2, b"x"),
        (&large_key, 1, &large_value),
    ]);
    let mut iter = BlockIterator::create_and_seek_to_first(block);
    assert_eq!(iter.key().key_ref(), b"a");
    assert_eq!(iter.key().ts(), 3);
    assert_eq!(iter.value(), b"");
    iter.next();
    assert_eq!(iter.key().key_ref(), b"ab");
    assert_eq!(iter.value(), b"x");
    iter.next();
    assert_eq!(iter.key().key_ref(), large_key.as_slice());
    assert_eq!(iter.key().ts(), 1);
    assert_eq!(iter.value(), large_value.as_slice());
    iter.next();
    assert!(!iter.is_valid());
}

#[test]
fn test_round_trip_of_the_version_stamp_in_all_its_bytes() {
    let block = block_of(&[(b"k", 0x0123_4567_89ab_cdef, b"v")]);
    let iter = BlockIterator::create_and_seek_to_first(block);
    assert_eq!(iter.key().ts(), 0x0123_4567_89ab_cdef);
}

#[test]
fn test_first_key_of_a_block() {
    let block = block_of(&[(b"first", 77, b"1"), (b"second", 5, b"2")]);
    let key = block.get_first_key();
    assert_eq!(key.key_ref(), b"first");
    assert_eq!(key.ts(), 77);
}

#[test]
fn test_next_does_nothing_past_the_last_entry() {
    let mut iter = BlockIterator::create_and_seek_to_first(block_of(&[(b"only", 0, b"1")]));
    assert!(iter.is_valid());
    iter.next();
    assert!(!iter.is_valid());
    iter.next();
    iter.next();
    assert!(!iter.is_valid());
}

#[test]
fn test_seek_to_first_starts_over() {
    let mut iter = BlockIterator::create_and_seek_to_first(fruit());
    iter.next();
    iter.next();
    iter.next();
    iter.next();
    iter.next();
    assert!(!iter.is_valid());
    iter.seek_to_first();
    assert!(iter.is_valid());
    assert_eq!(iter.key().key_ref(), b"apple");
    assert_eq!(iter.value(), b"1");
}

#[test]
fn test_seek_to_key_finds_each_key() {
    let keys: [&[u8]; 5] = [b"apple", b"apply", b"banana", b"cherry", b"date"];
    let values: [&[u8]; 5] = [b"1", b"2", b"3", b"4", b"5"];
    for i in 0..5 {
        let iter = BlockIterator::create_and_seek_to_key(fruit(), KeySlice::from_slice(keys[i], 0));
        assert!(iter.is_valid());
        assert_eq!(iter.key().key_ref(), keys[i]);
        assert_eq!(iter.value(), values[i]);
    }
}

#[test]
fn test_seek_to_key_lands_on_the_next_key_above() {
    let iter = BlockIterator::create_and_seek_to_key(fruit(), KeySlice::from_slice(b"b", 0));
    assert!(iter.is_valid());
    assert_eq!(iter.key().key_ref(), b"banana");
    let iter = BlockIterator::create_and_seek_to_key(fruit(), KeySlice::from_slice(b"applz", 0));
    assert_eq!(iter.key().key_ref(), b"banana");
    let iter = BlockIterator::create_and_seek_to_key(fruit(), KeySlice::from_slice(b"appl", 0));
    assert_eq!(iter.key().key_ref(), b"apple");
}

#[test]
fn test_seek_to_key_below_all_keys_lands_on_the_first() {
    let iter = BlockIterator::create_and_seek_to_key(fruit(), KeySlice::from_slice(b"a", 0));
    assert!(iter.is_valid());
    assert_eq!(iter.key().key_ref(), b"apple");
}

#[test]
fn test_seek_to_key_above_all_keys_is_invalid() {
    let mut iter = BlockIterator::create_and_seek_to_key(fruit(), KeySlice::from_slice(b"zzz", 0));
    assert!(!iter.is_valid());
    iter.next();
    assert!(!iter.is_valid());
}

#[test]
fn test_seek_to_key_goes_by_the_version_stamp_too() {
    let versions = block_of(&[
        (b"a", 9, b"a9"),
        (b"a", 5, b"a5"),
        (b"a", 1, b"a1"),
        (b"b", 7, b"b7"),
    ]);
    // newer versions come first: stamp 6 falls between 9 and 5
    let target = KeySlice::from_slice(b"a", 6);
    let iter = BlockIterator::create_and_seek_to_key(versions.clone(), target);
    assert_eq!(iter.key().key_ref(), b"a");
    assert_eq!(iter.key().ts(), 5);
    assert_eq!(iter.value(), b"a5");
    let target = KeySlice::from_slice(b"a", 5);
    let iter = BlockIterator::create_and_seek_to_key(versions.clone(), target);
    assert_eq!(iter.key().ts(), 5);
    let target = KeySlice::from_slice(b"a", u64::MAX);
    let iter = BlockIterator::create_and_seek_to_key(versions.clone(), target);
    assert_eq!(iter.key().ts(), 9);
    let target = KeySlice::from_slice(b"a", 0);
    let iter = BlockIterator::create_and_seek_to_key(versions.clone(), target);
    assert_eq!(iter.key().key_ref(), b"b");
    assert_eq!(iter.key().ts(), 7);
    let iter = BlockIterator::create_and_seek_to_key(versions, KeySlice::from_slice(b"b", 0));
    assert!(!iter.is_valid());
}

#[test]
fn test_seek_to_key_on_a_large_block() {
    let keys: Vec<Vec<u8>> = (0..1000u32)
        .map(|i| format!("{:06}", i * 2).into_bytes())
        .collect();
    let mut builder = BlockBuilder::new(1 << 16);
    for key in &keys {
        assert!(builder.add(KeySlice::from_slice(key, 0), key));
    }
    let block = Arc::new(builder.build());
    let mut iter = BlockIterator::create_and_seek_to_first(block);
    for i in 0..1000u32 {
        let odd = format!("{:06}", i * 2 + 1).into_bytes();
        iter.seek_to_key(KeySlice::from_slice(&odd, 0));
        if i == 999 {
            assert!(!iter.is_valid());
        } else {
            assert_eq!(iter.key().key_ref(), keys[i as usize + 1].as_slice());
        }
        let even = format!("{:06}", i * 2).into_bytes();
        iter.seek_to_key(KeySlice::from_slice(&even, 0));
        assert_eq!(iter.key().key_ref(), even.as_slice());
        assert_eq!(iter.value(), even.as_slice());
    }
}

#[test]
fn test_iterators_share_a_block() {
    let block = fruit();
    let mut first = BlockIterator::create_and_seek_to_first(block.clone());
    let second = BlockIterator::create_and_seek_to_key(block, KeySlice::from_slice(b"cherry", 0));
    first.next();
    assert_eq!(first.key().key_ref(), b"apply");
    assert_eq!(second.key().key_ref(), b"cherry");
}
