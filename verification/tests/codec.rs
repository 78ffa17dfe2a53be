use mvcc_scan::errors::Error;
use mvcc_scan::key::Key;
use mvcc_scan::lock::{Lock, LockType};
use mvcc_scan::order::{bytes_eq, bytes_lt, bytes_strict_prefix};
use mvcc_scan::write::{Write, WriteType};

#[test]
fn composite_key_round_trip() {
    let k = Key::from_encoded_slice(b"user").append_ts(77);
    let enc = k.encoded().clone();
    assert_eq!(enc.len(), 4 + 8);
    assert_eq!(Key::decode_ts_from(&enc).unwrap(), 77);
    assert_eq!(Key::truncate_ts_for(&enc).unwrap(), b"user");
    assert!(Key::is_user_key_eq(&enc, b"user"));
    assert!(!Key::is_user_key_eq(&enc, b"use"));
    assert!(!Key::is_user_key_eq(&enc, b"usurper"));
}

#[test]
fn composite_keys_order_by_descending_timestamp() {
    let newer = Key::from_encoded_slice(b"k").append_ts(9);
    let older = Key::from_encoded_slice(b"k").append_ts(3);
    // The newer version sorts first in ascending byte order.
    assert!(bytes_lt(newer.encoded(), older.encoded()));
    assert!(!bytes_lt(older.encoded(), newer.encoded()));
}

#[test]
fn short_keys_are_malformed() {
    assert!(matches!(
        Key::decode_ts_from(&[1, 2, 3]),
        Err(Error::MalformedKey)
    ));
    assert!(matches!(
        Key::truncate_ts_for(&[1, 2, 3, 4, 5, 6, 7]),
        Err(Error::MalformedKey)
    ));
}

#[test]
fn write_record_round_trip_with_short_value() {
    let w = Write::new(WriteType::Put, 42, Some(b"hello".to_vec()));
    let bytes = w.to_bytes();
    let back = Write::parse(&bytes).unwrap();
    assert_eq!(back.write_type, WriteType::Put);
    assert_eq!(back.start_ts, 42);
    assert_eq!(back.short_value, Some(b"hello".to_vec()));
}

#[test]
fn write_record_round_trip_without_short_value() {
    for t in [
        WriteType::Put,
        WriteType::Delete,
        WriteType::Lock,
        WriteType::Rollback,
    ] {
        let w = Write::new(t, u64::MAX, None);
        let bytes = w.to_bytes();
        let back = Write::parse(&bytes).unwrap();
        assert_eq!(back.write_type, t);
        assert_eq!(back.start_ts, u64::MAX);
        assert_eq!(back.short_value, None);
    }
}

#[test]
fn write_record_exact_bytes() {
    // kind byte, then the start timestamp big-endian, then the marker and
    // the inline value.
    let w = Write::new(WriteType::Put, 258, Some(vec![7]));
    assert_eq!(w.to_bytes(), vec![80u8, 0, 0, 0, 0, 0, 0, 1, 2, 118, 7]);
}

#[test]
fn malformed_write_records_are_rejected() {
    // Too short.
    assert!(matches!(
        Write::parse(&[80u8, 0, 0, 0]),
        Err(Error::MalformedWrite)
    ));
    // Unknown kind byte.
    assert!(matches!(
        Write::parse(&[0u8, 0, 0, 0, 0, 0, 0, 0, 1]),
        Err(Error::MalformedWrite)
    ));
    // Bad short-value marker.
    assert!(matches!(
        Write::parse(&[80u8, 0, 0, 0, 0, 0, 0, 0, 1, 9, 9]),
        Err(Error::MalformedWrite)
    ));
}

#[test]
fn lock_record_round_trip() {
    let l = Lock::new(LockType::Put, b"primary".to_vec(), 8, 100);
    let bytes = l.to_bytes();
    let back = Lock::parse(&bytes).unwrap();
    assert_eq!(back.lock_type, LockType::Put);
    assert_eq!(back.primary, b"primary".to_vec());
    assert_eq!(back.ts, 8);
    assert_eq!(back.ttl, 100);
}

#[test]
fn malformed_lock_records_are_rejected() {
    assert!(matches!(Lock::parse(&[80u8, 1]), Err(Error::MalformedLock)));
    let mut bad = vec![1u8];
    bad.extend_from_slice(&[0u8; 16]);
    assert!(matches!(Lock::parse(&bad), Err(Error::MalformedLock)));
}

#[test]
fn byte_string_order_is_lexicographic() {
    assert!(bytes_lt(b"", b"a"));
    assert!(bytes_lt(b"a", b"ab"));
    assert!(bytes_lt(b"ab", b"b"));
    assert!(!bytes_lt(b"b", b"ab"));
    assert!(!bytes_lt(b"a", b"a"));
    assert!(bytes_eq(b"ab", b"ab"));
    assert!(!bytes_eq(b"ab", b"ba"));
    assert!(bytes_strict_prefix(b"ab", b"abc"));
    assert!(!bytes_strict_prefix(b"ab", b"ab"));
    assert!(!bytes_strict_prefix(b"abc", b"ab"));
}
