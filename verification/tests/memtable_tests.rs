use summer_kv::memtable::logger::{LogRecordsBuilder, LoggerRecord, OperationType};
use summer_kv::memtable::MemTable;

#[test]
fn test_memtable_put() {
    let mut memtable = MemTable::new(0);
    let ret = memtable.put("key1".as_bytes(), "value1".as_bytes());
    assert!(ret.is_ok())
}

#[test]
fn test_memtable_get() {
    let mut memtable = MemTable::new(0);
    let ret = memtable.put("key1".as_bytes(), "value1".as_bytes());
    assert!(ret.is_ok());
    assert_eq!(memtable.get("key1".as_bytes()), Some(b"value1".to_vec()));
    assert_eq!(memtable.get("key".as_bytes()), None);
}

#[test]
fn test_memtable_remove() {
    let mut memtable = MemTable::new(0);
    let ret = memtable.put("key1".as_bytes(), "value1".as_bytes());
    assert!(ret.is_ok());
    assert_eq!(memtable.get("key1".as_bytes()), Some(b"value1".to_vec()));
    assert_eq!(memtable.get("key".as_bytes()), None);
    let ret = memtable.delete("key1".as_bytes());
    assert!(ret.is_ok());
    assert_eq!(memtable.get("key1".as_bytes()), Some(b"".to_vec()));
}

#[test]
fn test_memtable_overwrite() {
    let mut memtable = MemTable::new(0);
    memtable.put(b"k", b"first").unwrap();
    memtable.put(b"k", b"second").unwrap();
    assert_eq!(memtable.get(b"k"), Some(b"second".to_vec()));
}

#[test]
fn test_memtable_recover_reproduces_puts() {
    let mut live = MemTable::new(5);
    live.put(b"apple", b"1").unwrap();
    live.put(b"banana", b"2").unwrap();
    live.put(b"cherry", b"3").unwrap();
    live.put(b"banana", b"20").unwrap();
    let recovered = MemTable::recover(5, live.wal_bytes().as_slice());
    assert_eq!(recovered.seq_num(), 5);
    assert_eq!(recovered.get(b"apple"), Some(b"1".to_vec()));
    assert_eq!(recovered.get(b"banana"), Some(b"20".to_vec()));
    assert_eq!(recovered.get(b"cherry"), Some(b"3".to_vec()));
    assert_eq!(recovered.get(b"durian"), None);
}

#[test]
fn test_memtable_recover_applies_delete_as_removal() {
    // A recovered delete removes the key, while the live table keeps
    // the empty-value marker: the one divergence of the two replays.
    let mut live = MemTable::new(6);
    live.put(b"k1", b"v1").unwrap();
    live.delete(b"k1").unwrap();
    live.put(b"k2", b"v2").unwrap();
    assert_eq!(live.get(b"k1"), Some(b"".to_vec()));
    let recovered = MemTable::recover(6, live.wal_bytes().as_slice());
    assert_eq!(recovered.get(b"k1"), None);
    assert_eq!(recovered.get(b"k2"), Some(b"v2".to_vec()));
}

#[test]
fn test_memtable_recover_stops_at_truncated_tail() {
    let mut live = MemTable::new(7);
    live.put(b"k1", b"v1").unwrap();
    live.put(b"k2", b"v2").unwrap();
    let mut wal = live.wal_bytes().clone();
    // Chop the final record in half: an incomplete append.
    let cut = wal.len() - 3;
    wal.truncate(cut);
    let recovered = MemTable::recover(7, wal.as_slice());
    assert_eq!(recovered.get(b"k1"), Some(b"v1".to_vec()));
    assert_eq!(recovered.get(b"k2"), None);
}

#[test]
fn test_memtable_recover_empty_log() {
    let recovered = MemTable::recover(9, b"");
    assert_eq!(recovered.get(b"anything"), None);
    assert_eq!(recovered.wal_bytes().len(), 0);
}

#[test]
fn test_logger_record_round_trip() {
    let record = LoggerRecord::new(OperationType::PUT, b"key1", b"value1");
    let encoded = record.encode();
    let decoded = LoggerRecord::decode(encoded.as_slice()).unwrap();
    assert_eq!(decoded.opt_type, OperationType::PUT);
    assert_eq!(decoded.key, b"key1".to_vec());
    assert_eq!(decoded.value, b"value1".to_vec());
}

#[test]
fn test_logger_record_delete_marker() {
    let record = LoggerRecord::new(OperationType::DELETE, b"key1", b"ignored");
    let encoded = record.encode();
    let decoded = LoggerRecord::decode(encoded.as_slice()).unwrap();
    assert_eq!(decoded.opt_type, OperationType::DELETE);
    assert_eq!(decoded.key, b"key1".to_vec());
    assert_eq!(decoded.value, Vec::<u8>::new());
}

#[test]
fn test_logger_record_decode_truncated() {
    assert!(LoggerRecord::decode(&[0x00]).is_err());
    assert!(LoggerRecord::decode(&[0x00, 0x05, b'a']).is_err());
}

#[test]
fn test_log_records_builder() {
    let mut builder = LogRecordsBuilder::new();
    builder.add(OperationType::PUT, b"k1", b"v1").unwrap();
    builder.add(OperationType::DELETE, b"k2", b"").unwrap();
    let first = LoggerRecord::new(OperationType::PUT, b"k1", b"v1").encode();
    let second = LoggerRecord::new(OperationType::DELETE, b"k2", b"").encode();
    let mut expected = first.clone();
    expected.extend_from_slice(second.as_slice());
    assert_eq!(builder.build(), expected.as_slice());
    builder.cleanup();
    assert_eq!(builder.build(), b"".as_slice());
}
