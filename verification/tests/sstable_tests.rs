use std::sync::Arc;
use summer_kv::error::Error;
use summer_kv::sstable::iterator::SSTableRecordIterator;
use summer_kv::sstable::sstable_builder::SSTableBuilder;
use summer_kv::sstable::{BlockPointer, Footer, SSTable};

/// Builds a table from `number` records inserted in numeric naming
/// order: `key_1`, `key_2`, and so on.
fn create_for_test(number: u16) -> SSTable {
    let mut builder = SSTableBuilder::new();
    for i in 0..number {
        builder.add(
            format!("key_{}", i + 1).as_bytes(),
            format!("value_{}", i + 1).as_bytes(),
        );
    }
    builder.build(1)
}

/// Builds a table whose keys ascend in byte order: two-digit numbering.
fn create_sorted_run() -> SSTable {
    let mut builder = SSTableBuilder::new();
    for i in 10..100 {
        builder.add(
            format!("key_{}", i).as_bytes(),
            format!("value_{}", i).as_bytes(),
        );
    }
    builder.build(2)
}

#[test]
fn test_footer_encode_and_decode() {
    let mut block_pointer_vec: Vec<BlockPointer> = Vec::new();
    for i in 0..5 {
        block_pointer_vec.push(BlockPointer(i, i));
    }
    let footer = Footer {
        num_of_index_block: block_pointer_vec.len(),
        index_block_pointers: block_pointer_vec,
    };
    // encode the footer
    let buf = footer.encode();

    // decode the footer
    let decode_footer = Footer::decode(buf.as_slice()).expect("Testing expect");
    for i in 0..decode_footer.num_of_index_block {
        assert_eq!(
            footer.index_block_pointers[i],
            decode_footer.index_block_pointers[i]
        )
    }
}

#[test]
fn test_build_sstable_one_record() {
    create_for_test(1);
}

#[test]
fn test_build_sstable_multi_records() {
    create_for_test(100);
}

#[test]
fn test_open_non_exists_sstable() {
    // No file bytes exist for this sequence number: nothing to open.
    let ret = SSTable::open(2, Vec::new());
    assert!(ret.is_err());
}

#[test]
fn test_open_sorted_sstable() {
    let built = create_sorted_run();
    let reopened = SSTable::open(2, built.file_bytes().clone()).expect("Testing expect");
    assert_eq!(reopened.seq_num(), 2);
    assert_eq!(reopened.index_len(), built.index_len());
}

#[test]
fn test_open_rejects_unsorted_sstable() {
    // Numeric naming is not ascending in byte order ("key_10" sorts
    // before "key_9"), so the run violates the table invariant and
    // opening its bytes reports the corruption.
    let built = create_for_test(10);
    let ret = SSTable::open(1, built.file_bytes().clone());
    assert!(ret.is_err());
}

#[test]
fn test_sstable_get_found_and_not_found() {
    let table = create_for_test(9);
    let sstable = SSTable::open(1, table.file_bytes().clone()).unwrap();
    let value = sstable.get(b"key_5").unwrap();
    assert_eq!(value, b"value_5".to_vec());
    let value = sstable.get(b"key_not_found");
    assert!(value.is_err());
    assert_eq!(value.unwrap_err(), Error::KeyNotFound);
}

#[test]
fn test_sstable_full_iteration() {
    let table = create_sorted_run();
    let sstable = SSTable::open(2, table.file_bytes().clone()).unwrap();
    let mut iter = SSTableRecordIterator::new(Arc::new(sstable));
    iter.seek_to_first();
    let mut seen: Vec<(Vec<u8>, Vec<u8>)> = Vec::new();
    while iter.is_valid() {
        seen.push((iter.key().to_vec(), iter.value().to_vec()));
        iter.next();
    }
    assert_eq!(seen.len(), 90);
    for i in 10..100 {
        let expect_key = format!("key_{}", i).into_bytes();
        let expect_value = format!("value_{}", i).into_bytes();
        assert_eq!(seen[i - 10].0, expect_key);
        assert_eq!(seen[i - 10].1, expect_value);
    }
    iter.seek_to_last();
    assert!(iter.is_valid());
    assert_eq!(iter.key(), b"key_99".as_slice());
    assert_eq!(iter.value(), b"value_99".as_slice());
}

#[test]
fn test_sstable_seek_found() {
    let table = create_sorted_run();
    let sstable = SSTable::open(2, table.file_bytes().clone()).unwrap();
    let mut iter = SSTableRecordIterator::new(Arc::new(sstable));
    iter.seek_to_first();
    assert_eq!(iter.key(), b"key_10".as_slice());
    let found = iter.seek_to_key(b"key_53");
    assert!(found);
    assert!(iter.is_valid());
    assert_eq!(iter.key(), b"key_53".as_slice());
    assert_eq!(iter.value(), b"value_53".as_slice());
}

#[test]
fn test_sstable_seek_absent() {
    let table = create_sorted_run();
    let sstable = SSTable::open(2, table.file_bytes().clone()).unwrap();
    let mut iter = SSTableRecordIterator::new(Arc::new(sstable));
    let found = iter.seek_to_key(b"key_53_missing");
    assert!(!found);
    assert!(!iter.is_valid());
}

#[test]
fn test_sstable_reopen_yields_same_index() {
    let built = create_sorted_run();
    let first = SSTable::open(2, built.file_bytes().clone()).unwrap();
    let second = SSTable::open(2, built.file_bytes().clone()).unwrap();
    assert_eq!(first.index_len(), second.index_len());
    for i in 0..first.index_len() {
        assert_eq!(first.index_record(i), second.index_record(i));
    }
}

#[test]
fn test_sstable_spans_multiple_blocks() {
    // Values of a few hundred bytes force several data blocks.
    let mut builder = SSTableBuilder::new();
    for i in 10..60 {
        let key = format!("key_{}", i);
        let value = vec![i as u8; 400];
        builder.add(key.as_bytes(), value.as_slice());
    }
    let built = builder.build(3);
    assert!(built.index_len() > 1);
    let sstable = SSTable::open(3, built.file_bytes().clone()).unwrap();
    let got = sstable.get(b"key_42").unwrap();
    assert_eq!(got, vec![42u8; 400]);
    // Iteration crosses the block boundaries in order.
    let mut iter = SSTableRecordIterator::new(Arc::new(sstable));
    iter.seek_to_first();
    let mut count = 0;
    while iter.is_valid() {
        count += 1;
        iter.next();
    }
    assert_eq!(count, 50);
}

#[test]
fn test_sstable_get_at_block_boundaries() {
    // Keys at the first and last position of every data block resolve
    // through the sparse index like any other.
    let mut builder = SSTableBuilder::new();
    for i in 10..60 {
        builder.add(format!("key_{}", i).as_bytes(), vec![i as u8; 400].as_slice());
    }
    let built = builder.build(4);
    let sstable = SSTable::open(4, built.file_bytes().clone()).unwrap();
    assert!(sstable.index_len() > 1);
    for i in 10..60 {
        let got = sstable.get(format!("key_{}", i).as_bytes()).unwrap();
        assert_eq!(got, vec![i as u8; 400]);
    }
    assert!(sstable.get(b"key_09").is_err());
    assert!(sstable.get(b"key_60").is_err());
}

#[test]
fn test_block_pointer_encode_decode() {
    let p = BlockPointer(123456789, 4096);
    let encoded = p.encode();
    assert_eq!(encoded.len(), 16);
    let decoded = BlockPointer::decode(encoded.as_slice()).unwrap();
    assert_eq!(decoded, p);
    assert!(BlockPointer::decode(&encoded.as_slice()[..15]).is_err());
}
