use summer_kv::codec::{decode_entry, encode_entry};
use summer_kv::error::Error;
use summer_kv::util::env::{logfile_path, sstfile_path};

#[test]
fn test_entry_round_trip() {
    let encoded = encode_entry(b"key_1", b"value_1");
    // u16 key length, key, u16 value length, value — big-endian.
    assert_eq!(encoded[0], 0);
    assert_eq!(encoded[1], 5);
    assert_eq!(&encoded[2..7], b"key_1");
    assert_eq!(encoded[7], 0);
    assert_eq!(encoded[8], 7);
    assert_eq!(&encoded[9..16], b"value_1");
    let (key, value, consumed) = decode_entry(encoded.as_slice(), 0).unwrap();
    assert_eq!(key, b"key_1".to_vec());
    assert_eq!(value, b"value_1".to_vec());
    assert_eq!(consumed, encoded.len());
}

#[test]
fn test_entry_round_trip_empty_value() {
    let encoded = encode_entry(b"key", b"");
    let (key, value, consumed) = decode_entry(encoded.as_slice(), 0).unwrap();
    assert_eq!(key, b"key".to_vec());
    assert_eq!(value, Vec::<u8>::new());
    assert_eq!(consumed, 7);
}

#[test]
fn test_entry_decode_truncated() {
    assert_eq!(decode_entry(&[], 0).unwrap_err(), Error::Corruption);
    assert_eq!(decode_entry(&[0x00], 0).unwrap_err(), Error::Corruption);
    // Key length claims three bytes but only two follow.
    assert_eq!(decode_entry(&[0x00, 0x03, b'a', b'b'], 0).unwrap_err(), Error::Corruption);
    // Value length runs past the end.
    assert_eq!(
        decode_entry(&[0x00, 0x01, b'a', 0x00, 0x05, b'x'], 0).unwrap_err(),
        Error::Corruption
    );
}

#[test]
fn test_entry_decode_at_position() {
    let mut buf = encode_entry(b"a", b"1");
    let first_len = buf.len();
    buf.extend_from_slice(encode_entry(b"b", b"2").as_slice());
    let (key, value, consumed) = decode_entry(buf.as_slice(), first_len).unwrap();
    assert_eq!(key, b"b".to_vec());
    assert_eq!(value, b"2".to_vec());
    assert_eq!(consumed, buf.len());
}

#[test]
fn test_sstfile_path() {
    assert_eq!(sstfile_path(0).as_str(), "/tmp/summer_kv_test/0.sst");
    assert_eq!(sstfile_path(42).as_str(), "/tmp/summer_kv_test/42.sst");
    assert_eq!(sstfile_path(1000).as_str(), "/tmp/summer_kv_test/1000.sst");
}

#[test]
fn test_logfile_path() {
    assert_eq!(logfile_path(7).as_str(), "/tmp/summer_kv_test/7.log");
    assert_eq!(logfile_path(305).as_str(), "/tmp/summer_kv_test/305.log");
}
