use mvcc_scan::key::Key;
use mvcc_scan::lock::{Lock, LockType};
use mvcc_scan::scanner::{BackwardScannerBuilder, REVERSE_SEEK_BOUND};
use mvcc_scan::cursor::SEEK_BOUND;
use mvcc_scan::snapshot::Snapshot;
use mvcc_scan::write::{Write, WriteType, SHORT_VALUE_MAX_LEN};

fn put(s: &mut Snapshot, key: &[u8], value: &[u8], start_ts: u64, commit_ts: u64) {
    let short = if value.len() <= SHORT_VALUE_MAX_LEN {
        Some(value.to_vec())
    } else {
        None
    };
    if short.is_none() {
        s.put_default(key, start_ts, value);
    }
    let w = Write::new(WriteType::Put, start_ts, short);
    assert!(s.put_write(key, commit_ts, &w));
}

fn delete(s: &mut Snapshot, key: &[u8], start_ts: u64, commit_ts: u64) {
    let w = Write::new(WriteType::Delete, start_ts, None);
    assert!(s.put_write(key, commit_ts, &w));
}

fn rollback(s: &mut Snapshot, key: &[u8], ts: u64) {
    let w = Write::new(WriteType::Rollback, ts, None);
    assert!(s.put_write(key, ts, &w));
}

fn lock_key(s: &mut Snapshot, key: &[u8], primary: &[u8], start_ts: u64) {
    s.put_lock(key, &Lock::new(LockType::Put, primary.to_vec(), start_ts, 0));
}

fn key(b: &[u8]) -> Key {
    Key::from_encoded_slice(b)
}

#[test]
fn test_basic() {
    let mut engine = Snapshot::new();

    // Generate REVERSE_SEEK_BOUND / 2 Put for key [10].
    let k = &[10 as u8];
    for ts in 0..REVERSE_SEEK_BOUND / 2 {
        put(&mut engine, k, &[ts as u8], ts, ts);
    }

    // Generate REVERSE_SEEK_BOUND + 1 Put for key [9].
    let k = &[9 as u8];
    for ts in 0..REVERSE_SEEK_BOUND + 1 {
        put(&mut engine, k, &[ts as u8], ts, ts);
    }

    // Generate REVERSE_SEEK_BOUND / 2 Put and REVERSE_SEEK_BOUND / 2 + 1
    // Rollback for key [8].
    let k = &[8 as u8];
    for ts in 0..REVERSE_SEEK_BOUND + 1 {
        if ts < REVERSE_SEEK_BOUND / 2 {
            put(&mut engine, k, &[ts as u8], ts, ts);
        } else {
            rollback(&mut engine, k, ts);
        }
    }

    // Generate REVERSE_SEEK_BOUND / 2 Put, 1 Delete and REVERSE_SEEK_BOUND / 2
    // Rollback for key [7].
    let k = &[7 as u8];
    for ts in 0..REVERSE_SEEK_BOUND / 2 {
        put(&mut engine, k, &[ts as u8], ts, ts);
    }
    {
        let ts = REVERSE_SEEK_BOUND / 2;
        delete(&mut engine, k, ts, ts);
    }
    for ts in REVERSE_SEEK_BOUND / 2 + 1..REVERSE_SEEK_BOUND + 1 {
        rollback(&mut engine, k, ts);
    }

    // Generate 1 PUT for key [6].
    let k = &[6 as u8];
    for ts in 0..1 {
        put(&mut engine, k, &[ts as u8], ts, ts);
    }

    // Generate REVERSE_SEEK_BOUND + 1 Rollback for key [5].
    let k = &[5 as u8];
    for ts in 0..REVERSE_SEEK_BOUND + 1 {
        rollback(&mut engine, k, ts);
    }

    // Generate 1 PUT with ts = REVERSE_SEEK_BOUND and 1 PUT with
    // ts = REVERSE_SEEK_BOUND + 1 for key [4].
    let k = &[4 as u8];
    for ts in REVERSE_SEEK_BOUND..REVERSE_SEEK_BOUND + 2 {
        put(&mut engine, k, &[ts as u8], ts, ts);
    }

    let snapshot = engine;
    let mut scanner = BackwardScannerBuilder::new(snapshot, REVERSE_SEEK_BOUND)
        .range(None, Some(key(&[11 as u8])))
        .build()
        .unwrap();

    assert_eq!(
        scanner.read_next().unwrap(),
        Some((key(&[10 as u8]), vec![(REVERSE_SEEK_BOUND / 2 - 1) as u8]))
    );
    let statistics = scanner.take_statistics();
    assert_eq!(statistics.write.prev, REVERSE_SEEK_BOUND as usize / 2);
    assert_eq!(statistics.write.seek, 0);
    assert_eq!(statistics.write.next, 0);
    assert_eq!(statistics.write.seek_for_prev, 1);

    assert_eq!(
        scanner.read_next().unwrap(),
        Some((key(&[9 as u8]), vec![REVERSE_SEEK_BOUND as u8]))
    );
    let statistics = scanner.take_statistics();
    assert_eq!(statistics.write.prev, REVERSE_SEEK_BOUND as usize);
    assert_eq!(statistics.write.seek, 1);
    assert_eq!(statistics.write.next, 0);
    assert_eq!(statistics.write.seek_for_prev, 0);

    assert_eq!(
        scanner.read_next().unwrap(),
        Some((key(&[8 as u8]), vec![(REVERSE_SEEK_BOUND / 2 - 1) as u8]))
    );
    let statistics = scanner.take_statistics();
    assert_eq!(statistics.write.prev, REVERSE_SEEK_BOUND as usize + 1);
    assert_eq!(statistics.write.seek, 1);
    assert_eq!(statistics.write.next, 1);
    assert_eq!(statistics.write.seek_for_prev, 0);

    assert_eq!(
        scanner.read_next().unwrap(),
        Some((key(&[6 as u8]), vec![0 as u8]))
    );
    let statistics = scanner.take_statistics();
    assert_eq!(statistics.write.prev, REVERSE_SEEK_BOUND as usize + 2);
    assert_eq!(statistics.write.seek, 1);
    assert_eq!(statistics.write.next, 1);
    assert_eq!(statistics.write.seek_for_prev, 0);

    assert_eq!(
        scanner.read_next().unwrap(),
        Some((key(&[4 as u8]), vec![REVERSE_SEEK_BOUND as u8]))
    );
    let statistics = scanner.take_statistics();
    assert_eq!(statistics.write.prev, REVERSE_SEEK_BOUND as usize + 3);
    assert_eq!(statistics.write.seek, 1);
    assert_eq!(statistics.write.next, 1);
    assert_eq!(statistics.write.seek_for_prev, 0);

    // Scan end.
    assert_eq!(scanner.read_next().unwrap(), None);
    let statistics = scanner.take_statistics();
    assert_eq!(statistics.write.prev, 0);
    assert_eq!(statistics.write.seek, 0);
    assert_eq!(statistics.write.next, 0);
    assert_eq!(statistics.write.seek_for_prev, 0);
}

/// Check whether everything works as usual when the version search goes out
/// of bound with nothing recorded yet.
#[test]
fn test_reverse_get_out_of_bound_1() {
    let mut engine = Snapshot::new();

    // Generate N/2 rollback for [b].
    for ts in 0..REVERSE_SEEK_BOUND / 2 {
        rollback(&mut engine, b"b", ts);
    }

    // Generate 1 put for [c].
    put(&mut engine, b"c", b"value", REVERSE_SEEK_BOUND * 2, REVERSE_SEEK_BOUND * 2);

    let mut scanner = BackwardScannerBuilder::new(engine, REVERSE_SEEK_BOUND * 2)
        .range(None, None)
        .build()
        .unwrap();

    assert_eq!(
        scanner.read_next().unwrap(),
        Some((key(b"c"), b"value".to_vec())),
    );
    let statistics = scanner.take_statistics();
    assert_eq!(statistics.write.seek, 1);
    assert_eq!(statistics.write.seek_for_prev, 0);
    assert_eq!(statistics.write.next, 0);
    assert_eq!(statistics.write.prev, 1);

    assert_eq!(scanner.read_next().unwrap(), None);
    let statistics = scanner.take_statistics();
    assert_eq!(statistics.write.seek, 0);
    assert_eq!(statistics.write.seek_for_prev, 0);
    assert_eq!(statistics.write.next, 0);
    assert_eq!(statistics.write.prev, (REVERSE_SEEK_BOUND / 2) as usize);

    // Cursor remains invalid, so nothing should happen.
    assert_eq!(scanner.read_next().unwrap(), None);
    let statistics = scanner.take_statistics();
    assert_eq!(statistics.write.seek, 0);
    assert_eq!(statistics.write.seek_for_prev, 0);
    assert_eq!(statistics.write.next, 0);
    assert_eq!(statistics.write.prev, 0);
}

/// Check whether everything works as usual when the version search goes out
/// of bound with a version already recorded.
#[test]
fn test_reverse_get_out_of_bound_2() {
    let mut engine = Snapshot::new();

    // Generate 1 put and N/2 rollback for [b].
    put(&mut engine, b"b", b"value_b", 0, 0);
    for ts in 1..REVERSE_SEEK_BOUND / 2 + 1 {
        rollback(&mut engine, b"b", ts);
    }

    // Generate 1 put for [c].
    put(&mut engine, b"c", b"value_c", REVERSE_SEEK_BOUND * 2, REVERSE_SEEK_BOUND * 2);

    let mut scanner = BackwardScannerBuilder::new(engine, REVERSE_SEEK_BOUND * 2)
        .range(None, None)
        .build()
        .unwrap();

    assert_eq!(
        scanner.read_next().unwrap(),
        Some((key(b"c"), b"value_c".to_vec())),
    );
    let statistics = scanner.take_statistics();
    assert_eq!(statistics.write.seek, 1);
    assert_eq!(statistics.write.seek_for_prev, 0);
    assert_eq!(statistics.write.next, 0);
    assert_eq!(statistics.write.prev, 1);

    assert_eq!(
        scanner.read_next().unwrap(),
        Some((key(b"b"), b"value_b".to_vec())),
    );
    let statistics = scanner.take_statistics();
    assert_eq!(statistics.write.seek, 0);
    assert_eq!(statistics.write.seek_for_prev, 0);
    assert_eq!(statistics.write.next, 0);
    assert_eq!(statistics.write.prev, (REVERSE_SEEK_BOUND / 2 + 1) as usize);

    assert_eq!(scanner.read_next().unwrap(), None);
    let statistics = scanner.take_statistics();
    assert_eq!(statistics.write.seek, 0);
    assert_eq!(statistics.write.seek_for_prev, 0);
    assert_eq!(statistics.write.next, 0);
    assert_eq!(statistics.write.prev, 0);
}

/// Check whether everything works as usual when skipping the rest of one
/// user key's versions steps out of bound.
#[test]
fn test_move_prev_user_key_out_of_bound_1() {
    let mut engine = Snapshot::new();

    // Generate 1 put for [c].
    put(&mut engine, b"c", b"value", 1, 1);

    // Generate N/2 put for [b].
    for ts in 1..SEEK_BOUND / 2 + 1 {
        put(&mut engine, b"b", &[ts as u8], ts, ts);
    }

    let mut scanner = BackwardScannerBuilder::new(engine, 1)
        .range(None, None)
        .build()
        .unwrap();

    assert_eq!(
        scanner.read_next().unwrap(),
        Some((key(b"c"), b"value".to_vec())),
    );
    let statistics = scanner.take_statistics();
    assert_eq!(statistics.write.seek, 1);
    assert_eq!(statistics.write.seek_for_prev, 0);
    assert_eq!(statistics.write.next, 0);
    assert_eq!(statistics.write.prev, 1);

    assert_eq!(
        scanner.read_next().unwrap(),
        Some((key(b"b"), vec![1u8].to_vec())),
    );
    let statistics = scanner.take_statistics();
    assert_eq!(statistics.write.seek, 0);
    assert_eq!(statistics.write.seek_for_prev, 0);
    assert_eq!(statistics.write.next, 0);
    assert_eq!(statistics.write.prev, (SEEK_BOUND / 2) as usize);

    // Next we should get nothing.
    assert_eq!(scanner.read_next().unwrap(), None);
    let statistics = scanner.take_statistics();
    assert_eq!(statistics.write.seek, 0);
    assert_eq!(statistics.write.seek_for_prev, 0);
    assert_eq!(statistics.write.next, 0);
    assert_eq!(statistics.write.prev, 0);
}

/// Check whether everything works as usual when skipping the rest of one
/// user key's versions falls back to a backward seek.
#[test]
fn test_move_prev_user_key_out_of_bound_2() {
    let mut engine = Snapshot::new();

    // Generate 1 put for [c].
    put(&mut engine, b"c", b"value", 1, 1);

    // Generate N+1 put for [b].
    for ts in 1..SEEK_BOUND + 2 {
        put(&mut engine, b"b", &[ts as u8], ts, ts);
    }

    let mut scanner = BackwardScannerBuilder::new(engine, 1)
        .range(None, None)
        .build()
        .unwrap();

    assert_eq!(
        scanner.read_next().unwrap(),
        Some((key(b"c"), b"value".to_vec())),
    );
    let statistics = scanner.take_statistics();
    assert_eq!(statistics.write.seek, 1);
    assert_eq!(statistics.write.seek_for_prev, 0);
    assert_eq!(statistics.write.next, 0);
    assert_eq!(statistics.write.prev, 1);

    assert_eq!(
        scanner.read_next().unwrap(),
        Some((key(b"b"), vec![1u8])),
    );
    let statistics = scanner.take_statistics();
    assert_eq!(statistics.write.seek, 0);
    assert_eq!(statistics.write.seek_for_prev, 1);
    assert_eq!(statistics.write.next, 0);
    assert_eq!(statistics.write.prev, SEEK_BOUND as usize);

    // Next we should get nothing.
    assert_eq!(scanner.read_next().unwrap(), None);
    let statistics = scanner.take_statistics();
    assert_eq!(statistics.write.seek, 0);
    assert_eq!(statistics.write.seek_for_prev, 0);
    assert_eq!(statistics.write.next, 0);
    assert_eq!(statistics.write.prev, 0);
}

/// Check whether everything works as usual when both the version search and
/// the skip to the previous user key pay for their seeks.
#[test]
fn test_move_prev_user_key_out_of_bound_3() {
    let mut engine = Snapshot::new();

    // N denotes SEEK_BOUND, M denotes REVERSE_SEEK_BOUND.

    // Generate 1 put for [c].
    put(&mut engine, b"c", b"value", 1, 1);

    // Generate N+M+1 put for [b].
    for ts in 1..SEEK_BOUND + REVERSE_SEEK_BOUND + 2 {
        put(&mut engine, b"b", &[ts as u8], ts, ts);
    }

    let mut scanner = BackwardScannerBuilder::new(engine, REVERSE_SEEK_BOUND + 1)
        .range(None, None)
        .build()
        .unwrap();

    assert_eq!(
        scanner.read_next().unwrap(),
        Some((key(b"c"), b"value".to_vec())),
    );
    let statistics = scanner.take_statistics();
    assert_eq!(statistics.write.seek, 1);
    assert_eq!(statistics.write.seek_for_prev, 0);
    assert_eq!(statistics.write.next, 0);
    assert_eq!(statistics.write.prev, 1);

    assert_eq!(
        scanner.read_next().unwrap(),
        Some((key(b"b"), vec![(REVERSE_SEEK_BOUND + 1) as u8])),
    );
    let statistics = scanner.take_statistics();
    assert_eq!(statistics.write.seek, 1);
    assert_eq!(statistics.write.seek_for_prev, 1);
    assert_eq!(statistics.write.next, 0);
    assert_eq!(
        statistics.write.prev,
        (REVERSE_SEEK_BOUND - 1 + SEEK_BOUND - 1) as usize
    );

    // Next we should get nothing.
    assert_eq!(scanner.read_next().unwrap(), None);
    let statistics = scanner.take_statistics();
    assert_eq!(statistics.write.seek, 0);
    assert_eq!(statistics.write.seek_for_prev, 0);
    assert_eq!(statistics.write.next, 0);
    assert_eq!(statistics.write.prev, 0);
}

/// Range is left closed right open.
#[test]
fn test_range() {
    let mut engine = Snapshot::new();

    // Generate 1 put for [1], [2] ... [6].
    for i in 1..7 {
        // ts = 1: value = []
        put(&mut engine, &[i], &[], 1, 1);

        // ts = 7: value = [i]
        put(&mut engine, &[i], &[i], 7, 7);

        // ts = 14: value = []
        put(&mut engine, &[i], &[], 14, 14);
    }

    let snapshot = engine;

    // Test both bound specified.
    let mut scanner = BackwardScannerBuilder::new(snapshot.clone(), 10)
        .range(Some(key(&[3u8])), Some(key(&[5u8])))
        .build()
        .unwrap();
    assert_eq!(
        scanner.read_next().unwrap(),
        Some((key(&[4u8]), vec![4u8]))
    );
    assert_eq!(
        scanner.read_next().unwrap(),
        Some((key(&[3u8]), vec![3u8]))
    );
    assert_eq!(scanner.read_next().unwrap(), None);

    // Test left bound not specified.
    let mut scanner = BackwardScannerBuilder::new(snapshot.clone(), 10)
        .range(None, Some(key(&[3u8])))
        .build()
        .unwrap();
    assert_eq!(
        scanner.read_next().unwrap(),
        Some((key(&[2u8]), vec![2u8]))
    );
    assert_eq!(
        scanner.read_next().unwrap(),
        Some((key(&[1u8]), vec![1u8]))
    );
    assert_eq!(scanner.read_next().unwrap(), None);

    // Test right bound not specified.
    let mut scanner = BackwardScannerBuilder::new(snapshot.clone(), 10)
        .range(Some(key(&[5u8])), None)
        .build()
        .unwrap();
    assert_eq!(
        scanner.read_next().unwrap(),
        Some((key(&[6u8]), vec![6u8]))
    );
    assert_eq!(
        scanner.read_next().unwrap(),
        Some((key(&[5u8]), vec![5u8]))
    );
    assert_eq!(scanner.read_next().unwrap(), None);

    // Test both bound not specified.
    let mut scanner = BackwardScannerBuilder::new(snapshot.clone(), 10)
        .range(None, None)
        .build()
        .unwrap();
    assert_eq!(
        scanner.read_next().unwrap(),
        Some((key(&[6u8]), vec![6u8]))
    );
    assert_eq!(
        scanner.read_next().unwrap(),
        Some((key(&[5u8]), vec![5u8]))
    );
    assert_eq!(
        scanner.read_next().unwrap(),
        Some((key(&[4u8]), vec![4u8]))
    );
    assert_eq!(
        scanner.read_next().unwrap(),
        Some((key(&[3u8]), vec![3u8]))
    );
    assert_eq!(
        scanner.read_next().unwrap(),
        Some((key(&[2u8]), vec![2u8]))
    );
    assert_eq!(
        scanner.read_next().unwrap(),
        Some((key(&[1u8]), vec![1u8]))
    );
    assert_eq!(scanner.read_next().unwrap(), None);
}

#[test]
fn test_many_tombstones() {
    let mut engine = Snapshot::new();

    // Rolled-back writes between [0,0] and [255,255]. The ones in between
    // were collected away and are absent from the snapshot; only the two
    // ends remain.
    let start_ts = 1;
    rollback(&mut engine, &[0u8, 0u8], start_ts);
    rollback(&mut engine, &[255u8, 255u8], start_ts);

    // Generate 256 locks in the lock column family.
    let start_ts = 3;
    for i in 0..256 {
        let pk = &[i as u8];
        lock_key(&mut engine, pk, pk, start_ts);
    }

    let row = &[255 as u8];
    let k = key(row);

    // Call reverse scan.
    let ts = 2;
    let mut scanner = BackwardScannerBuilder::new(engine, ts)
        .range(None, Some(k))
        .build()
        .unwrap();
    assert_eq!(scanner.read_next().unwrap(), None);
    let statistics = scanner.take_statistics();
    assert_eq!(statistics.lock.prev, 256);
    assert_eq!(statistics.write.prev, 1);
}
