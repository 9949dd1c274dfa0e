use std::sync::Arc;
use summer_kv::blocks::block_builder::BlockBuilder;
use summer_kv::blocks::iterator::BlockRecordIterator;
use summer_kv::iterator::Iterator;
use summer_kv::sstable::iterator::SSTableRecordIterator;
use summer_kv::sstable::sstable_builder::SSTableBuilder;
use summer_kv::sstable::SSTable;

/// Walks any record iterator forward from the first entry and collects
/// the keys: the shared protocol, exercised through the trait.
fn collect_keys<I: Iterator>(iter: &mut I) -> Vec<Vec<u8>> {
    let mut keys = Vec::new();
    iter.seek_to_first();
    while iter.is_valid() {
        keys.push(iter.key().to_vec());
        iter.next();
    }
    keys
}

#[test]
fn test_trait_over_block_iterator() {
    let mut builder = BlockBuilder::new();
    for key in [b"ant".as_slice(), b"bee", b"cat"] {
        builder.add(key, b"x").expect("add");
    }
    let mut iter: BlockRecordIterator = Iterator::new(Arc::new(builder.build()));
    let keys = collect_keys(&mut iter);
    assert_eq!(keys, vec![b"ant".to_vec(), b"bee".to_vec(), b"cat".to_vec()]);
    assert!(iter.seek_to_key(b"bee"));
    assert_eq!(iter.value(), b"x".as_slice());
    iter.prev();
    assert_eq!(iter.key(), b"ant".as_slice());
}

#[test]
fn test_trait_over_sstable_iterator() {
    let mut builder = SSTableBuilder::new();
    for i in 10..40 {
        builder.add(format!("key_{}", i).as_bytes(), vec![i as u8; 300].as_slice());
    }
    let built = builder.build(8);
    let sstable = SSTable::open(8, built.file_bytes().clone()).unwrap();
    let mut iter: SSTableRecordIterator = Iterator::new(Arc::new(sstable));
    let keys = collect_keys(&mut iter);
    assert_eq!(keys.len(), 30);
    assert_eq!(keys[0], b"key_10".to_vec());
    assert_eq!(keys[29], b"key_39".to_vec());
    // Stepping backwards crosses block boundaries too.
    iter.seek_to_last();
    let mut back = Vec::new();
    while iter.is_valid() {
        back.push(iter.key().to_vec());
        iter.prev();
    }
    back.reverse();
    assert_eq!(back, keys);
}
