use mvcc_scan::cursor::Entry;
use mvcc_scan::errors::Error;
use mvcc_scan::key::Key;
use mvcc_scan::lock::{Lock, LockType};
use mvcc_scan::scanner::{BackwardScannerBuilder, IsolationLevel};
use mvcc_scan::snapshot::Snapshot;
use mvcc_scan::statistics::Statistics;
use mvcc_scan::write::{Write, WriteType, SHORT_VALUE_MAX_LEN};

fn put(s: &mut Snapshot, key: &[u8], value: &[u8], start_ts: u64, commit_ts: u64) {
    let short = if value.len() <= SHORT_VALUE_MAX_LEN {
        Some(value.to_vec())
    } else {
        None
    };
    if short.is_none() {
        s.put_default(key, start_ts, value);
    }
    let w = Write::new(WriteType::Put, start_ts, short);
    assert!(s.put_write(key, commit_ts, &w));
}

fn delete(s: &mut Snapshot, key: &[u8], start_ts: u64, commit_ts: u64) {
    let w = Write::new(WriteType::Delete, start_ts, None);
    assert!(s.put_write(key, commit_ts, &w));
}

fn rollback(s: &mut Snapshot, key: &[u8], ts: u64) {
    let w = Write::new(WriteType::Rollback, ts, None);
    assert!(s.put_write(key, ts, &w));
}

fn key(b: &[u8]) -> Key {
    Key::from_encoded_slice(b)
}

/// A blocking lock under snapshot isolation surfaces as `KeyIsLocked`, and
/// the scanner moves past the locked key afterwards; under read committed
/// the same lock is ignored.
#[test]
fn lock_blocks_under_snapshot_isolation() {
    let mut engine = Snapshot::new();
    put(&mut engine, b"a", b"va", 1, 2);
    put(&mut engine, b"k", b"vk", 4, 5);
    engine.put_lock(b"k", &Lock::new(LockType::Put, b"k".to_vec(), 7, 30));

    let mut scanner = BackwardScannerBuilder::new(engine.clone(), 10)
        .build()
        .unwrap();
    let err = scanner.read_next().unwrap_err();
    match err {
        Error::KeyIsLocked(info) => {
            assert_eq!(info.key, b"k".to_vec());
            assert_eq!(info.primary, b"k".to_vec());
            assert_eq!(info.ts, 7);
            assert_eq!(info.ttl, 30);
        }
        other => panic!("expected KeyIsLocked, got {:?}", other),
    }
    // The scanner stays usable and has moved past the locked key.
    assert_eq!(
        scanner.read_next().unwrap(),
        Some((key(b"a"), b"va".to_vec()))
    );
    assert_eq!(scanner.read_next().unwrap(), None);

    let mut scanner = BackwardScannerBuilder::new(engine, 10)
        .isolation_level(IsolationLevel::Rc)
        .build()
        .unwrap();
    assert_eq!(
        scanner.read_next().unwrap(),
        Some((key(b"k"), b"vk".to_vec()))
    );
    assert_eq!(
        scanner.read_next().unwrap(),
        Some((key(b"a"), b"va".to_vec()))
    );
    assert_eq!(scanner.read_next().unwrap(), None);
}

/// A lock from a transaction newer than the read timestamp, or a pure lock
/// marker, never blocks.
#[test]
fn newer_or_marker_locks_do_not_block() {
    let mut engine = Snapshot::new();
    put(&mut engine, b"k", b"vk", 4, 5);
    engine.put_lock(b"k", &Lock::new(LockType::Put, b"k".to_vec(), 9, 0));
    let mut scanner = BackwardScannerBuilder::new(engine, 8).build().unwrap();
    assert_eq!(
        scanner.read_next().unwrap(),
        Some((key(b"k"), b"vk".to_vec()))
    );

    let mut engine = Snapshot::new();
    put(&mut engine, b"k", b"vk", 4, 5);
    engine.put_lock(b"k", &Lock::new(LockType::Lock, b"k".to_vec(), 6, 0));
    let mut scanner = BackwardScannerBuilder::new(engine, 8).build().unwrap();
    assert_eq!(
        scanner.read_next().unwrap(),
        Some((key(b"k"), b"vk".to_vec()))
    );
}

/// At the maximum read timestamp, the reader's own primary lock is bypassed
/// by reading just below the locking transaction's start.
#[test]
fn own_primary_lock_is_bypassed_at_max_ts() {
    let mut engine = Snapshot::new();
    put(&mut engine, b"k", b"old", 2, 3);
    put(&mut engine, b"k", b"new", 7, 8);
    engine.put_lock(b"k", &Lock::new(LockType::Put, b"k".to_vec(), 7, 0));
    let mut scanner = BackwardScannerBuilder::new(engine, u64::MAX).build().unwrap();
    // Reading resumes at start_ts - 1 = 6, so the version committed at 8 is
    // not seen.
    assert_eq!(
        scanner.read_next().unwrap(),
        Some((key(b"k"), b"old".to_vec()))
    );
}

/// With `omit_value`, returned values are empty and the default column
/// family cursor is never created, even for out-of-line values.
#[test]
fn omit_value_returns_empty_values() {
    let mut engine = Snapshot::new();
    let big = vec![3u8; SHORT_VALUE_MAX_LEN + 40];
    put(&mut engine, b"a", &big, 1, 2);
    put(&mut engine, b"b", b"small", 1, 2);
    let mut scanner = BackwardScannerBuilder::new(engine, 5)
        .omit_value(true)
        .build()
        .unwrap();
    assert_eq!(scanner.read_next().unwrap(), Some((key(b"b"), vec![])));
    assert_eq!(scanner.read_next().unwrap(), Some((key(b"a"), vec![])));
    assert_eq!(scanner.read_next().unwrap(), None);
    // The default column family was never touched.
    let statistics = scanner.take_statistics();
    assert_eq!(statistics.data, Default::default());
}

/// Values too long for a write record are stored out of line and loaded
/// from the default column family.
#[test]
fn out_of_line_values_are_loaded() {
    let mut engine = Snapshot::new();
    let big_a = vec![7u8; SHORT_VALUE_MAX_LEN + 100];
    let big_b = vec![8u8; SHORT_VALUE_MAX_LEN + 1];
    put(&mut engine, b"a", &big_a, 1, 2);
    put(&mut engine, b"b", &big_b, 3, 4);
    put(&mut engine, b"c", b"short", 5, 6);
    let mut scanner = BackwardScannerBuilder::new(engine, 10).build().unwrap();
    assert_eq!(
        scanner.read_next().unwrap(),
        Some((key(b"c"), b"short".to_vec()))
    );
    assert_eq!(scanner.read_next().unwrap(), Some((key(b"b"), big_b)));
    assert_eq!(scanner.read_next().unwrap(), Some((key(b"a"), big_a)));
    assert_eq!(scanner.read_next().unwrap(), None);
}

/// A put that points at a missing out-of-line value is a store-invariant
/// violation and surfaces as `ValueNotFound`.
#[test]
fn missing_out_of_line_value_is_reported() {
    let mut engine = Snapshot::new();
    let w = Write::new(WriteType::Put, 1, None);
    assert!(engine.put_write(b"k", 2, &w));
    let mut scanner = BackwardScannerBuilder::new(engine, 5).build().unwrap();
    assert!(matches!(
        scanner.read_next(),
        Err(Error::ValueNotFound)
    ));
}

/// A write record that does not decode surfaces as `MalformedWrite`.
#[test]
fn corrupt_write_record_is_reported() {
    let mut engine = Snapshot::new();
    let composite = key(b"k").append_ts(3).into_encoded();
    engine.write.push(Entry {
        key: composite,
        value: vec![1, 2, 3],
    });
    let mut scanner = BackwardScannerBuilder::new(engine, 5).build().unwrap();
    assert!(matches!(
        scanner.read_next(),
        Err(Error::MalformedWrite)
    ));
}

/// A lock record that does not decode surfaces as `MalformedLock`.
#[test]
fn corrupt_lock_record_is_reported() {
    let mut engine = Snapshot::new();
    put(&mut engine, b"k", b"v", 1, 2);
    engine.lock.push(Entry {
        key: b"k".to_vec(),
        value: vec![9],
    });
    let mut scanner = BackwardScannerBuilder::new(engine, 5).build().unwrap();
    assert!(matches!(
        scanner.read_next(),
        Err(Error::MalformedLock)
    ));
}

/// Taking the statistics returns the accumulated counters and resets them:
/// a second take with no scanner operation in between yields zeroes.
#[test]
fn take_statistics_resets() {
    let mut engine = Snapshot::new();
    put(&mut engine, b"k", b"v", 1, 2);
    let mut scanner = BackwardScannerBuilder::new(engine, 5).build().unwrap();
    assert_eq!(
        scanner.read_next().unwrap(),
        Some((key(b"k"), b"v".to_vec()))
    );
    let first = scanner.take_statistics();
    assert!(first.write.seek > 0);
    let second = scanner.take_statistics();
    assert_eq!(second, Statistics::new());
}

/// Lock and rollback write records never affect the returned values: adding
/// them anywhere in the history changes no result.
#[test]
fn locks_and_rollbacks_never_affect_values() {
    let mut plain = Snapshot::new();
    put(&mut plain, b"a", b"v1", 1, 2);
    put(&mut plain, b"a", b"v2", 3, 4);
    put(&mut plain, b"b", b"w1", 1, 2);
    delete(&mut plain, b"b", 5, 6);
    put(&mut plain, b"c", b"x1", 1, 2);

    let mut noisy = plain.clone();
    for ts in [3u64, 7, 8, 9] {
        rollback(&mut noisy, b"b", ts);
    }
    for ts in [5u64, 6] {
        rollback(&mut noisy, b"a", ts);
    }
    let w = Write::new(WriteType::Lock, 7, None);
    assert!(noisy.put_write(b"c", 7, &w));
    assert!(noisy.put_write(b"a", 7, &Write::new(WriteType::Lock, 7, None)));

    for ts in [2u64, 4, 6, 9] {
        let mut s1 = BackwardScannerBuilder::new(plain.clone(), ts).build().unwrap();
        let mut s2 = BackwardScannerBuilder::new(noisy.clone(), ts).build().unwrap();
        loop {
            let a = s1.read_next().unwrap();
            let b = s2.read_next().unwrap();
            assert_eq!(a, b);
            if a.is_none() {
                break;
            }
        }
    }
}

/// The newest committed version at or below the read timestamp decides: a
/// delete suppresses the key, an older read timestamp sees older versions.
#[test]
fn versions_are_read_as_of_the_timestamp() {
    let mut engine = Snapshot::new();
    put(&mut engine, b"k", b"v1", 1, 2);
    put(&mut engine, b"k", b"v2", 3, 4);
    delete(&mut engine, b"k", 5, 6);
    put(&mut engine, b"k", b"v3", 7, 8);

    let expect = |ts: u64, want: Option<&[u8]>| {
        let mut scanner = BackwardScannerBuilder::new(engine.clone(), ts).build().unwrap();
        let got = scanner.read_next().unwrap();
        match want {
            None => assert_eq!(got, None),
            Some(v) => assert_eq!(got, Some((key(b"k"), v.to_vec()))),
        }
        assert_eq!(scanner.read_next().unwrap(), None);
    };
    expect(1, None);
    expect(2, Some(b"v1"));
    expect(3, Some(b"v1"));
    expect(4, Some(b"v2"));
    expect(5, Some(b"v2"));
    expect(6, None);
    expect(7, None);
    expect(8, Some(b"v3"));
    expect(100, Some(b"v3"));
}

/// An empty snapshot yields nothing.
#[test]
fn empty_snapshot_yields_nothing() {
    let engine = Snapshot::new();
    let mut scanner = BackwardScannerBuilder::new(engine, 5).build().unwrap();
    assert_eq!(scanner.read_next().unwrap(), None);
    assert_eq!(scanner.read_next().unwrap(), None);
}
