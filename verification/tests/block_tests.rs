use std::sync::Arc;
use summer_kv::blocks::block_builder::{BlockBuilder, BLOCK_SIZE};
use summer_kv::blocks::iterator::BlockRecordIterator;
use summer_kv::blocks::Blocks;
use summer_kv::error::Error;

fn create_block_with_rec_num(size: u8) -> Arc<Blocks> {
    let mut builder = BlockBuilder::new();
    for i in 0..size {
        builder
            .add(
                format!("key_{}", i + 1).as_ref(),
                format!("value_{}", i + 1).as_ref(),
            )
            .expect("Testing expect");
    }
    Arc::new(builder.build())
}

#[test]
fn test_build_block() {
    let mut builder = BlockBuilder::new();
    builder.add(b"49", b"50").expect("Testing expect");
    let buf = builder.build().encode();
    println!("{:?}", buf.to_vec())
}

#[test]
fn test_iterator_create() {
    let block = create_block_with_rec_num(1);
    let iter = BlockRecordIterator::new(block);
    assert!(!iter.is_valid());
}

#[test]
fn test_iterator_seek_to_first() {
    let block = create_block_with_rec_num(10);
    let mut iter = BlockRecordIterator::new(block);
    iter.seek_to_first();
    assert_eq!("key_1".as_bytes(), iter.key());
}

#[test]
fn test_iterator_seek_to_last() {
    let block = create_block_with_rec_num(10);
    let mut iter = BlockRecordIterator::new(block);
    iter.seek_to_last();
    assert_eq!("key_10".as_bytes(), iter.key());
}

#[test]
fn test_iterator_seek_to_key() {
    let block = create_block_with_rec_num(10);
    let mut iter = BlockRecordIterator::new(block);
    iter.seek_to_key("key_7".as_ref());
    assert_eq!("key_7".as_bytes(), iter.key());
}

#[test]
fn test_iterator_next() {
    let block = create_block_with_rec_num(10);
    let mut iter = BlockRecordIterator::new(block);
    iter.seek_to_key("key_5".as_ref());
    assert!(iter.is_valid());
    assert_eq!("key_5".as_bytes(), iter.key());
    iter.next();
    assert!(iter.is_valid());
    assert_eq!("key_6".as_bytes(), iter.key());
    println!("finish")
}

#[test]
fn test_block_boundary() {
    let block = create_block_with_rec_num(10);
    assert_eq!("key_1".as_bytes(), block.smallest_key());
    assert_eq!("key_10".as_bytes(), block.largest_key());
}

#[test]
fn test_block_encode_decode_round_trip() {
    let mut builder = BlockBuilder::new();
    builder.add(b"alpha", b"1").expect("add");
    builder.add(b"beta", b"2").expect("add");
    builder.add(b"gamma", b"3").expect("add");
    let block = builder.build();
    let encoded = block.encode();
    let decoded = Blocks::decode(encoded.as_slice()).expect("well-formed block must decode");
    assert_eq!(decoded.encode(), encoded);
    assert_eq!(decoded.smallest_key(), b"alpha".as_slice());
    assert_eq!(decoded.largest_key(), b"gamma".as_slice());
    assert_eq!(decoded.len(), 3);
    assert_eq!(decoded.size(), encoded.len() as u64);
}

#[test]
fn test_block_decode_rejects_garbage() {
    assert_eq!(Blocks::decode(&[]).unwrap_err(), Error::Corruption);
    assert_eq!(Blocks::decode(&[0xff, 0xff]).unwrap_err(), Error::Corruption);
    // A count claiming more entries than the bytes can hold.
    assert_eq!(Blocks::decode(&[0x00, 0x09]).unwrap_err(), Error::Corruption);
}

#[test]
fn test_block_decode_rejects_unsorted() {
    // Two entries out of order survive encoding but are refused on read.
    let mut builder = BlockBuilder::new();
    builder.add(b"b", b"1").expect("add");
    builder.add(b"a", b"2").expect("add");
    let encoded = builder.build().encode();
    assert_eq!(Blocks::decode(encoded.as_slice()).unwrap_err(), Error::Corruption);
}

#[test]
fn test_block_builder_overflow() {
    // The very first entry is accepted even though it alone exceeds the
    // block capacity.
    let mut builder = BlockBuilder::new();
    let big_value = vec![7u8; BLOCK_SIZE + 100];
    builder.add(b"huge", big_value.as_slice()).expect("first add always succeeds");
    // A second entry would overflow: it is rejected and the builder is
    // left untouched.
    assert_eq!(builder.add(b"tiny", b"x").unwrap_err(), Error::BlockOverflow);
    assert_eq!(builder.len(), 1);
    // The already-added entry remains retrievable.
    let block = builder.build();
    let mut iter = BlockRecordIterator::new(Arc::new(block));
    iter.seek_to_first();
    assert!(iter.is_valid());
    assert_eq!(iter.key(), b"huge".as_slice());
    assert_eq!(iter.value(), big_value.as_slice());
}

#[test]
fn test_block_builder_rejects_before_capacity() {
    let mut builder = BlockBuilder::new();
    builder.add(b"a", vec![1u8; 2000].as_slice()).expect("fits");
    builder.add(b"b", vec![2u8; 2000].as_slice()).expect("fits");
    // 2 + 2 * (4 + 1 + 2000 + 2) bytes are used; another 2000-byte
    // record would pass the capacity.
    assert_eq!(
        builder.add(b"c", vec![3u8; 2000].as_slice()).unwrap_err(),
        Error::BlockOverflow
    );
    // A small record still fits.
    builder.add(b"c", b"small").expect("fits");
}

#[test]
fn test_block_iterator_prev() {
    let block = create_block_with_rec_num(3);
    let mut iter = BlockRecordIterator::new(block);
    iter.seek_to_last();
    assert_eq!(iter.key(), b"key_3".as_slice());
    iter.prev();
    assert!(iter.is_valid());
    assert_eq!(iter.key(), b"key_2".as_slice());
    iter.prev();
    assert_eq!(iter.key(), b"key_1".as_slice());
    iter.prev();
    assert!(!iter.is_valid());
}

#[test]
fn test_block_full_iteration_ascending() {
    // Keys come back in strictly ascending order between the block's
    // smallest and largest key.
    let mut builder = BlockBuilder::new();
    for key in [b"apple".as_slice(), b"banana", b"cherry", b"damson"] {
        builder.add(key, b"fruit").expect("add");
    }
    let block = Arc::new(builder.build());
    let smallest = block.smallest_key().to_vec();
    let largest = block.largest_key().to_vec();
    let mut iter = BlockRecordIterator::new(block);
    iter.seek_to_first();
    let mut previous: Option<Vec<u8>> = None;
    while iter.is_valid() {
        let key = iter.key().to_vec();
        assert!(smallest.as_slice() <= key.as_slice());
        assert!(key.as_slice() <= largest.as_slice());
        if let Some(prev) = &previous {
            assert!(prev.as_slice() < key.as_slice());
        }
        previous = Some(key);
        iter.next();
    }
    assert_eq!(previous, Some(b"damson".to_vec()));
}

#[test]
fn test_block_iterator_seek_absent_key() {
    let block = create_block_with_rec_num(5);
    let mut iter = BlockRecordIterator::new(block);
    iter.seek_to_first();
    let found = iter.seek_to_key(b"key_7_missing");
    assert!(!found);
    // The iterator is left exactly where it was.
    assert!(iter.is_valid());
    assert_eq!(iter.key(), b"key_1".as_slice());
}
