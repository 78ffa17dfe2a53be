//! The backward MVCC scanner.
//!
//! Given a snapshot and a read timestamp, `read_next` yields, in descending
//! user-key order, the value each user key had as of that timestamp: the
//! newest committed put or delete at or below the timestamp decides, lock
//! and rollback records are skipped, and transactional locks are checked
//! first under snapshot isolation.
//!
//! The write and lock cursors are co-advanced in descending order. Within
//! one user key the scanner steps the write cursor backward — which walks
//! versions from oldest to newest — up to `REVERSE_SEEK_BOUND` times before
//! paying for a seek, because reversing an LSM iterator's direction costs as
//! much as a fresh seek.

use vstd::prelude::*;

use crate::cursor::below_upper;
use crate::cursor::sorted_entries;
use crate::cursor::views;
use crate::cursor::Cursor;
use crate::cursor::EntryView;
use crate::cursor::SEEK_BOUND;
use crate::errors::Error;
use crate::errors::LockInfo;
use crate::key::composite;
use crate::key::ts_of;
use crate::key::user_of;
use crate::key::Key;
use crate::key::TS_LEN;
use crate::lock::Lock;
use crate::lock::LockRecord;
use crate::lock::LockType;
use crate::order::is_strict_prefix;
use crate::order::lex_le;
use crate::order::lex_lt;
use crate::snapshot::composite_keys_wf;
use crate::snapshot::Snapshot;
use crate::statistics::bump;
use crate::statistics::CfStatistics;
use crate::statistics::Statistics;
use crate::write::spec_parse_write;
use crate::write::Write;
use crate::write::WriteInfo;
use crate::write::WriteType;

verus! {

/// Step budget for finding the right version of one user key before the
/// scanner falls back to a seek.
pub const REVERSE_SEEK_BOUND: u64 = 16;

#[derive(Clone, Copy, Debug, PartialEq, Eq, Structural)]
pub enum IsolationLevel {
    /// Snapshot isolation: locks are checked and may block the read.
    Si,
    /// Read committed: locks are ignored.
    Rc,
}

/// What a lock means for one read.
#[derive(Debug)]
pub enum CheckLockResult {
    /// No lock affects this reader.
    NotLocked,
    /// A blocking lock; the read surfaces this error for the key.
    Locked(Error),
    /// The lock's transaction is treated as uncommitted; read again at the
    /// returned timestamp instead.
    Ignored(u64),
}

/// A lock blocks a read at `ts` on `key` unless it is from a newer
/// transaction, is a pure lock marker, or belongs to the reader's own
/// primary-key retry at the maximum timestamp.
pub open spec fn lock_blocks(key: Seq<u8>, ts: u64, l: LockRecord) -> bool {
    &&& l.ts <= ts
    &&& l.lock_type != LockType::Lock
    &&& !(ts == u64::MAX && key == l.primary)
}

/// The lock is bypassed by re-reading at the timestamp just below the
/// locking transaction's start.
pub open spec fn lock_ignored(key: Seq<u8>, ts: u64, l: LockRecord) -> bool {
    &&& l.ts <= ts
    &&& l.lock_type != LockType::Lock
    &&& ts == u64::MAX
    &&& key == l.primary
}

/// Decide whether a lock blocks, is ignored, or permits the read.
pub fn check_lock(user_key: &Key, ts: u64, lock: &Lock) -> (r: CheckLockResult)
    ensures
        match r {
            CheckLockResult::NotLocked => !lock_blocks(user_key@, ts, lock@) && !lock_ignored(
                user_key@,
                ts,
                lock@,
            ),
            CheckLockResult::Locked(e) => lock_blocks(user_key@, ts, lock@) && (match e {
                Error::KeyIsLocked(info) => info.key@ == user_key@ && info.primary@
                    == lock.primary@ && info.ts == lock.ts && info.ttl == lock.ttl,
                _ => false,
            }),
            CheckLockResult::Ignored(t) => lock_ignored(user_key@, ts, lock@) && t == (
            if lock.ts == 0 {
                0u64
            } else {
                (lock.ts - 1) as u64
            }),
        },
{
    if lock.ts > ts || matches!(lock.lock_type, LockType::Lock) {
        return CheckLockResult::NotLocked;
    }
    if ts == u64::MAX && crate::order::bytes_eq(
        user_key.encoded().as_slice(),
        lock.primary.as_slice(),
    ) {
        let t = if lock.ts == 0 {
            0u64
        } else {
            lock.ts - 1
        };
        return CheckLockResult::Ignored(t);
    }
    CheckLockResult::Locked(
        Error::KeyIsLocked(
            LockInfo {
                key: crate::key::clone_bytes(user_key.encoded()),
                primary: crate::key::clone_bytes(&lock.primary),
                ts: lock.ts,
                ttl: lock.ttl,
            },
        ),
    )
}

pub open spec fn opt_key_view(o: Option<Key>) -> Option<Seq<u8>> {
    match o {
        None => None,
        Some(k) => Some(k@),
    }
}

/// The user key of a write-column-family entry.
pub open spec fn entry_user(e: EntryView) -> Seq<u8> {
    user_of(e.key)
}

/// The commit timestamp of a write-column-family entry.
pub open spec fn entry_ts(e: EntryView) -> u64 {
    ts_of(e.key)
}

/// The entry is a version of user key `u`.
pub open spec fn is_version_of(e: EntryView, u: Seq<u8>) -> bool {
    e.key.len() >= TS_LEN && entry_user(e) == u
}

/// The entry is a committed put or delete of `u` readable at `ts`.
pub open spec fn is_visible_version(e: EntryView, u: Seq<u8>, ts: u64) -> bool {
    &&& is_version_of(e, u)
    &&& entry_ts(e) <= ts
    &&& match spec_parse_write(e.value) {
        Some(w) => w.write_type == WriteType::Put || w.write_type == WriteType::Delete,
        None => false,
    }
}

/// No version of `u` is visible at `ts` anywhere in `s`.
pub open spec fn no_visible(s: Seq<EntryView>, u: Seq<u8>, ts: u64) -> bool {
    forall|i: int| 0 <= i < s.len() ==> !is_visible_version(#[trigger] s[i], u, ts)
}

/// `s[i]` is the newest version of `u` visible at `ts`: within one user key
/// the store sorts newer versions first, so it is the first visible one.
pub open spec fn newest_visible_at(s: Seq<EntryView>, u: Seq<u8>, ts: u64, i: int) -> bool {
    &&& 0 <= i < s.len()
    &&& is_visible_version(s[i], u, ts)
    &&& forall|j: int| 0 <= j < i ==> !is_visible_version(#[trigger] s[j], u, ts)
}

/// Every version of `u` readable at `ts` decodes to a write record.
pub open spec fn all_versions_parse(s: Seq<EntryView>, u: Seq<u8>, ts: u64) -> bool {
    forall|i: int|
        0 <= i < s.len() && is_version_of(#[trigger] s[i], u) && entry_ts(s[i]) <= ts
            ==> spec_parse_write(s[i].value) is Some
}

/// The value stored for `key` in a column family, if any: used to look up
/// out-of-line values in the default column family and lock records in the
/// lock column family.
pub open spec fn default_value_of(d: Seq<EntryView>, key: Seq<u8>) -> Option<Seq<u8>>
    decreases d.len(),
{
    if d.len() == 0 {
        None
    } else if d[0].key == key {
        Some(d[0].value)
    } else {
        default_value_of(d.subrange(1, d.len() as int), key)
    }
}

/// What value a put record `w` of user key `u` yields: empty when values
/// are omitted, the inline short value when there is one, and otherwise the
/// default-column-family entry at `(u, start_ts)`.
pub open spec fn value_loaded(
    d: Seq<EntryView>,
    u: Seq<u8>,
    w: WriteInfo,
    omit: bool,
    v: Seq<u8>,
) -> bool {
    if omit {
        v.len() == 0
    } else {
        match w.short_value {
            Some(sv) => v == sv,
            None => default_value_of(d, composite(u, w.start_ts)) == Some(v),
        }
    }
}

/// The put record `w` points at an out-of-line value that is missing.
pub open spec fn value_missing(d: Seq<EntryView>, u: Seq<u8>, w: WriteInfo, omit: bool) -> bool {
    &&& !omit
    &&& w.short_value is None
    &&& default_value_of(d, composite(u, w.start_ts)) is None
}

/// What a completed read of `u` at `ts` may return: nothing when no version
/// is visible or the newest visible one is a delete, and the put's value
/// otherwise. Lock and rollback records are never visible, so they cannot
/// affect the outcome.
pub open spec fn get_outcome_ok(
    s: Seq<EntryView>,
    d: Seq<EntryView>,
    u: Seq<u8>,
    ts: u64,
    omit: bool,
    r: Option<Seq<u8>>,
) -> bool {
    ||| (r is None && no_visible(s, u, ts))
    ||| exists|i: int|
        #[trigger] newest_visible_at(s, u, ts, i) && {
            let w = spec_parse_write(s[i].value).unwrap();
            match w.write_type {
                WriteType::Delete => r is None,
                WriteType::Put => r is Some && value_loaded(d, u, w, omit, r.unwrap()),
                _ => false,
            }
        }
}

/// The timestamp at which one key is effectively read, `None` when a lock
/// blocks the read or does not decode. Under read committed locks are
/// ignored; under snapshot isolation a blocking lock stops the read, the
/// reader's own primary lock at the maximum read timestamp moves the read
/// to just below the locking transaction's start, and any other lock leaves
/// the read timestamp alone.
pub open spec fn effective_read_ts(
    lc: Seq<EntryView>,
    k: Seq<u8>,
    ts: u64,
    iso: IsolationLevel,
) -> Option<u64> {
    if iso == IsolationLevel::Rc {
        Some(ts)
    } else {
        match default_value_of(lc, k) {
            None => Some(ts),
            Some(bytes) => match crate::lock::spec_parse_lock(bytes) {
                None => None,
                Some(l) => if lock_blocks(k, ts, l) {
                    None
                } else if lock_ignored(k, ts, l) {
                    Some(
                        if l.ts == 0 {
                            0u64
                        } else {
                            (l.ts - 1) as u64
                        },
                    )
                } else {
                    Some(ts)
                },
            },
        }
    }
}

/// Nothing in the store can stop a read at `ts`: every write record
/// decodes, every lock record decodes, every out-of-line value a put points
/// at is present (unless values are omitted), and no lock blocks (unless
/// the level is read committed).
pub open spec fn store_readable(
    s: Seq<EntryView>,
    d: Seq<EntryView>,
    lc: Seq<EntryView>,
    ts: u64,
    omit: bool,
    iso: IsolationLevel,
) -> bool {
    &&& forall|i: int| 0 <= i < s.len() ==> spec_parse_write((#[trigger] s[i]).value) is Some
    &&& forall|i: int|
        0 <= i < lc.len() ==> crate::lock::spec_parse_lock((#[trigger] lc[i]).value) is Some
    &&& (omit || forall|i: int|
        0 <= i < s.len() ==> match spec_parse_write((#[trigger] s[i]).value) {
            Some(w) => w.write_type == WriteType::Put && w.short_value is None
                ==> default_value_of(d, composite(user_of(s[i].key), w.start_ts)) is Some,
            None => true,
        })
    &&& (iso == IsolationLevel::Rc || forall|i: int|
        0 <= i < lc.len() ==> match crate::lock::spec_parse_lock((#[trigger] lc[i]).value) {
            Some(l) => !lock_blocks(lc[i].key, ts, l),
            None => true,
        })
}

/// Every user key with an in-range write entry strictly between `lo` and
/// `hi` — unbounded where they are `None` — reads as nothing at `ts`: it is
/// settled that the scan owes no value for it. Keys whose lock blocks or
/// adjusts the read are exempt, as are keys with undecodable version
/// records.
pub open spec fn keys_settled(
    s: Seq<EntryView>,
    d: Seq<EntryView>,
    lc: Seq<EntryView>,
    up: Option<Seq<u8>>,
    ts: u64,
    omit: bool,
    iso: IsolationLevel,
    lo: Option<Seq<u8>>,
    hi: Option<Seq<u8>>,
) -> bool {
    forall|idx: int|
        0 <= idx < s.len() && below_upper((#[trigger] s[idx]).key, up) && (lo is Some ==> lex_lt(
            lo.unwrap(),
            user_of(s[idx].key),
        )) && (hi is Some ==> lex_lt(user_of(s[idx].key), hi.unwrap())) && effective_read_ts(
            lc,
            user_of(s[idx].key),
            ts,
            iso,
        ) == Some(ts) && all_versions_parse(s, user_of(s[idx].key), ts) ==> get_outcome_ok(
            s,
            d,
            user_of(s[idx].key),
            ts,
            omit,
            None,
        )
}

/// The scan owes no value for the single user key `u`.
pub open spec fn user_settled(
    s: Seq<EntryView>,
    d: Seq<EntryView>,
    lc: Seq<EntryView>,
    ts: u64,
    omit: bool,
    iso: IsolationLevel,
    u: Seq<u8>,
) -> bool {
    effective_read_ts(lc, u, ts, iso) == Some(ts) && all_versions_parse(s, u, ts)
        ==> get_outcome_ok(s, d, u, ts, omit, None)
}

/// Everything one emitted result promises about the state the call started
/// from: the key sorts below the previous result and inside the range, the
/// value is empty when values are omitted, no blocking lock let it through,
/// the value is what the newest version visible at the effective read
/// timestamp prescribes, and every key skipped on the way reads as nothing.
pub open spec fn emission_ok(pre: BackwardScanner, k: Seq<u8>, v: Seq<u8>) -> bool {
    &&& (pre.last_user_key() is Some ==> lex_lt(k, pre.last_user_key().unwrap()))
    &&& (pre.lower_limit() is Some ==> lex_le(pre.lower_limit().unwrap(), k))
    &&& (pre.upper_limit() is Some ==> lex_lt(k, pre.upper_limit().unwrap()))
    &&& (pre.omits_value() ==> v.len() == 0)
    &&& effective_read_ts(pre.lock_entries(), k, pre.read_ts(), pre.iso_level()) is Some
    &&& (all_versions_parse(
        pre.write_entries(),
        k,
        effective_read_ts(pre.lock_entries(), k, pre.read_ts(), pre.iso_level()).unwrap(),
    ) ==> get_outcome_ok(
        pre.write_entries(),
        pre.default_entries(),
        k,
        effective_read_ts(pre.lock_entries(), k, pre.read_ts(), pre.iso_level()).unwrap(),
        pre.omits_value(),
        Some(v),
    ))
    &&& keys_settled(
        pre.write_entries(),
        pre.default_entries(),
        pre.lock_entries(),
        pre.upper_limit(),
        pre.read_ts(),
        pre.omits_value(),
        pre.iso_level(),
        Some(k),
        pre.last_user_key(),
    )
}

/// Each error a scan can surface, tied to its cause in the store the call
/// started from.
pub open spec fn error_cause(pre: BackwardScanner, e: Error) -> bool {
    match e {
        Error::MalformedKey => false,
        Error::MalformedWrite => exists|i: int|
            0 <= i < pre.write_entries().len() && spec_parse_write(
                (#[trigger] pre.write_entries()[i]).value,
            ) is None,
        Error::MalformedLock => exists|i: int|
            0 <= i < pre.lock_entries().len() && crate::lock::spec_parse_lock(
                (#[trigger] pre.lock_entries()[i]).value,
            ) is None,
        Error::ValueNotFound => !pre.omits_value() && exists|i: int|
            0 <= i < pre.write_entries().len() && match spec_parse_write(
                (#[trigger] pre.write_entries()[i]).value,
            ) {
                Some(w) => w.write_type == WriteType::Put && w.short_value is None
                    && default_value_of(
                    pre.default_entries(),
                    composite(user_of(pre.write_entries()[i].key), w.start_ts),
                ) is None,
                None => false,
            },
        Error::KeyIsLocked(info) => pre.iso_level() == IsolationLevel::Si && match default_value_of(
            pre.lock_entries(),
            info.key@,
        ) {
            Some(bytes) => match crate::lock::spec_parse_lock(bytes) {
                Some(l) => lock_blocks(info.key@, pre.read_ts(), l) && info.primary@ == l.primary
                    && info.ts == l.ts && info.ttl == l.ttl,
                None => false,
            },
            None => false,
        },
    }
}

/// Success is owed: every error the scan can surface points at something in
/// the store that makes it unreadable, so on a readable store every call of
/// `read_next` returns `Ok`.
pub proof fn lemma_readable_store_reads_ok(pre: BackwardScanner, e: Error)
    requires
        error_cause(pre, e),
    ensures
        !store_readable(
            pre.write_entries(),
            pre.default_entries(),
            pre.lock_entries(),
            pre.read_ts(),
            pre.omits_value(),
            pre.iso_level(),
        ),
{
    let s = pre.write_entries();
    let d = pre.default_entries();
    let lc = pre.lock_entries();
    match e {
        Error::MalformedKey => {},
        Error::MalformedWrite => {},
        Error::MalformedLock => {},
        Error::ValueNotFound => {},
        Error::KeyIsLocked(info) => {
            lemma_stored_value_is_entry(lc, info.key@);
        },
    }
}

/// A successful lookup names an entry.
proof fn lemma_stored_value_is_entry(d: Seq<EntryView>, key: Seq<u8>)
    requires
        default_value_of(d, key) is Some,
    ensures
        exists|i: int|
            0 <= i < d.len() && (#[trigger] d[i]).key == key && d[i].value == default_value_of(
                d,
                key,
            ).unwrap(),
    decreases d.len(),
{
    if d.len() > 0 {
        if d[0].key == key {
            assert(d[0].key == key && d[0].value == default_value_of(d, key).unwrap());
        } else {
            let d1 = d.subrange(1, d.len() as int);
            lemma_stored_value_is_entry(d1, key);
            let i = choose|i: int|
                0 <= i < d1.len() && (#[trigger] d1[i]).key == key && d1[i].value
                    == default_value_of(d1, key).unwrap();
            assert(d[i + 1].key == key && d[i + 1].value == default_value_of(d, key).unwrap());
        }
    }
}

/// After one round of the scan processed the key `cu`, every in-range key
/// strictly between `cu` and the previous frontier `f0` is settled: keys
/// above the write cursor were settled in earlier rounds (recorded between
/// the current frontier `front` and `f0`), and keys at or below it sort at
/// or below `cu`.
proof fn lemma_scan_window_settled(
    s: Seq<EntryView>,
    d: Seq<EntryView>,
    lc: Seq<EntryView>,
    up: Option<Seq<u8>>,
    ts0: u64,
    om: bool,
    iso: IsolationLevel,
    cu: Seq<u8>,
    f0: Option<Seq<u8>>,
    front: Option<Seq<u8>>,
    w_valid: bool,
    wpos: int,
)
    requires
        w_valid ==> 0 <= wpos < s.len(),
        forall|idx: int|
            (if w_valid {
                wpos
            } else {
                -1
            }) < idx < s.len() ==> !below_upper((#[trigger] s[idx]).key, up) || (front is Some
                && lex_le(front.unwrap(), user_of(s[idx].key))),
        w_valid ==> forall|idx: int|
            0 <= idx <= wpos ==> lex_le(
                user_of((#[trigger] s[idx]).key),
                user_of(s[wpos].key),
            ),
        w_valid ==> lex_le(user_of(s[wpos].key), cu),
        front is Some ==> lex_lt(cu, front.unwrap()),
        front == f0 || (front is Some && keys_settled(s, d, lc, up, ts0, om, iso, front, f0)
            && user_settled(s, d, lc, ts0, om, iso, front.unwrap())),
    ensures
        keys_settled(s, d, lc, up, ts0, om, iso, Some(cu), f0),
{
    assert forall|idx: int|
        0 <= idx < s.len() && below_upper((#[trigger] s[idx]).key, up) && lex_lt(
            cu,
            user_of(s[idx].key),
        ) && (f0 is Some ==> lex_lt(user_of(s[idx].key), f0.unwrap())) && effective_read_ts(
            lc,
            user_of(s[idx].key),
            ts0,
            iso,
        ) == Some(ts0) && all_versions_parse(s, user_of(s[idx].key), ts0) implies get_outcome_ok(
        s,
        d,
        user_of(s[idx].key),
        ts0,
        om,
        None,
    ) by {
        let uu = user_of(s[idx].key);
        if w_valid && idx <= wpos {
            crate::order::lemma_lex_le_trans(uu, user_of(s[wpos].key), cu);
            crate::order::lemma_lex_lt_le_trans(cu, uu, cu);
            crate::order::lemma_lex_lt_irrefl(cu);
        } else {
            assert(front is Some && lex_le(front.unwrap(), uu));
            if front == f0 {
                if uu == front.unwrap() {
                    crate::order::lemma_lex_lt_irrefl(uu);
                } else {
                    crate::order::lemma_lex_lt_le_trans(uu, front.unwrap(), uu);
                    crate::order::lemma_lex_lt_irrefl(uu);
                }
            } else {
                if uu != front.unwrap() {
                    assert(lex_lt(front.unwrap(), uu));
                }
            }
        }
    }
}

/// When both cursors have walked off the store, every in-range key below
/// the previous frontier is settled.
proof fn lemma_exhausted_settled(
    s: Seq<EntryView>,
    d: Seq<EntryView>,
    lc: Seq<EntryView>,
    up: Option<Seq<u8>>,
    ts0: u64,
    om: bool,
    iso: IsolationLevel,
    f0: Option<Seq<u8>>,
    front: Option<Seq<u8>>,
)
    requires
        forall|idx: int|
            0 <= idx < s.len() ==> !below_upper((#[trigger] s[idx]).key, up) || (front is Some
                && lex_le(front.unwrap(), user_of(s[idx].key))),
        front == f0 || (front is Some && keys_settled(s, d, lc, up, ts0, om, iso, front, f0)
            && user_settled(s, d, lc, ts0, om, iso, front.unwrap())),
    ensures
        keys_settled(s, d, lc, up, ts0, om, iso, None, f0),
{
    assert forall|idx: int|
        0 <= idx < s.len() && below_upper((#[trigger] s[idx]).key, up) && (f0 is Some ==> lex_lt(
            user_of(s[idx].key),
            f0.unwrap(),
        )) && effective_read_ts(lc, user_of(s[idx].key), ts0, iso) == Some(ts0)
            && all_versions_parse(s, user_of(s[idx].key), ts0) implies get_outcome_ok(
        s,
        d,
        user_of(s[idx].key),
        ts0,
        om,
        None,
    ) by {
        let uu = user_of(s[idx].key);
        assert(front is Some && lex_le(front.unwrap(), uu));
        if front == f0 {
            if uu == front.unwrap() {
                crate::order::lemma_lex_lt_irrefl(uu);
            } else {
                crate::order::lemma_lex_lt_le_trans(uu, front.unwrap(), uu);
                crate::order::lemma_lex_lt_irrefl(uu);
            }
        } else {
            if uu != front.unwrap() {
                assert(lex_lt(front.unwrap(), uu));
            }
        }
    }
}

/// A scan outcome is uniquely determined by the store, the user key, the
/// read timestamp and the configuration: two correct outcomes are equal.
pub proof fn lemma_outcome_unique(
    s: Seq<EntryView>,
    d: Seq<EntryView>,
    u: Seq<u8>,
    ts: u64,
    omit: bool,
    r1: Option<Seq<u8>>,
    r2: Option<Seq<u8>>,
)
    requires
        get_outcome_ok(s, d, u, ts, omit, r1),
        get_outcome_ok(s, d, u, ts, omit, r2),
    ensures
        r1 == r2,
{
    if !(r1 is None && no_visible(s, u, ts)) && !(r2 is None && no_visible(s, u, ts)) {
        let k1 = choose|k: int|
            #[trigger] newest_visible_at(s, u, ts, k) && {
                let w = spec_parse_write(s[k].value).unwrap();
                match w.write_type {
                    WriteType::Delete => r1 is None,
                    WriteType::Put => r1 is Some && value_loaded(d, u, w, omit, r1.unwrap()),
                    _ => false,
                }
            };
        let k2 = choose|k: int|
            #[trigger] newest_visible_at(s, u, ts, k) && {
                let w = spec_parse_write(s[k].value).unwrap();
                match w.write_type {
                    WriteType::Delete => r2 is None,
                    WriteType::Put => r2 is Some && value_loaded(d, u, w, omit, r2.unwrap()),
                    _ => false,
                }
            };
        // the newest visible version is unique
        assert(k1 == k2);
        let w = spec_parse_write(s[k1].value).unwrap();
        if w.write_type == WriteType::Put && omit {
            assert(r1.unwrap() =~= r2.unwrap());
        }
    } else if r1 is None && no_visible(s, u, ts) {
        if !(r2 is None && no_visible(s, u, ts)) {
            let k2 = choose|k: int|
                #[trigger] newest_visible_at(s, u, ts, k) && {
                    let w = spec_parse_write(s[k].value).unwrap();
                    match w.write_type {
                        WriteType::Delete => r2 is None,
                        WriteType::Put => r2 is Some && value_loaded(d, u, w, omit, r2.unwrap()),
                        _ => false,
                    }
                };
            assert(is_visible_version(s[k2], u, ts));
            assert(false);
        }
    } else {
        if !(r1 is None && no_visible(s, u, ts)) {
            let k1 = choose|k: int|
                #[trigger] newest_visible_at(s, u, ts, k) && {
                    let w = spec_parse_write(s[k].value).unwrap();
                    match w.write_type {
                        WriteType::Delete => r1 is None,
                        WriteType::Put => r1 is Some && value_loaded(d, u, w, omit, r1.unwrap()),
                        _ => false,
                    }
                };
            assert(is_visible_version(s[k1], u, ts));
            assert(false);
        }
    }
}

/// Lock and rollback write records never affect the returned value: a scan
/// outcome is a correct outcome of the write column family exactly when it
/// is a correct outcome of that column family with any lock or rollback
/// record removed.
pub proof fn lemma_locks_and_rollbacks_immaterial(
    s: Seq<EntryView>,
    d: Seq<EntryView>,
    u: Seq<u8>,
    ts: u64,
    omit: bool,
    r: Option<Seq<u8>>,
    i: int,
)
    requires
        0 <= i < s.len(),
        match spec_parse_write(s[i].value) {
            Some(w) => w.write_type == WriteType::Lock || w.write_type == WriteType::Rollback,
            None => false,
        },
    ensures
        get_outcome_ok(s, d, u, ts, omit, r) <==> get_outcome_ok(s.remove(i), d, u, ts, omit, r),
{
    let s2 = s.remove(i);
    assert(!is_visible_version(s[i], u, ts));
    assert(forall|j: int| 0 <= j < i ==> s2[j] == s[j]);
    assert(forall|j: int| i <= j < s2.len() ==> s2[j] == s[j + 1]);
    if no_visible(s, u, ts) {
        assert forall|j: int| 0 <= j < s2.len() implies !is_visible_version(
            #[trigger] s2[j],
            u,
            ts,
        ) by {
            if j < i {
                assert(s2[j] == s[j]);
            } else {
                assert(s2[j] == s[j + 1]);
            }
        }
    }
    if no_visible(s2, u, ts) {
        assert forall|j: int| 0 <= j < s.len() implies !is_visible_version(
            #[trigger] s[j],
            u,
            ts,
        ) by {
            if j < i {
                assert(s2[j] == s[j]);
            } else if j > i {
                assert(s2[j - 1] == s[j]);
            }
        }
    }
    assert forall|k: int| #[trigger] newest_visible_at(s, u, ts, k) implies newest_visible_at(
        s2,
        u,
        ts,
        (if k < i {
            k
        } else {
            k - 1
        }),
    ) && s2[if k < i {
        k
    } else {
        k - 1
    }] == s[k] by {
        let k2: int = if k < i {
            k
        } else {
            k - 1
        };
        assert(k != i);
        assert(s2[k2] == s[k]);
        assert forall|j: int| 0 <= j < k2 implies !is_visible_version(#[trigger] s2[j], u, ts) by {
            if j < i {
                assert(s2[j] == s[j]);
            } else {
                assert(s2[j] == s[j + 1]);
            }
        }
    }
    assert forall|k2: int| #[trigger] newest_visible_at(s2, u, ts, k2) implies newest_visible_at(
        s,
        u,
        ts,
        (if k2 < i {
            k2
        } else {
            k2 + 1
        }),
    ) && s2[k2] == s[if k2 < i {
        k2
    } else {
        k2 + 1
    }] by {
        let k: int = if k2 < i {
            k2
        } else {
            k2 + 1
        };
        assert(s2[k2] == s[k]);
        assert forall|j: int| 0 <= j < k implies !is_visible_version(#[trigger] s[j], u, ts) by {
            if j < i {
                assert(s2[j] == s[j]);
            } else if j > i {
                assert(s2[j - 1] == s[j]);
            }
        }
    }
    if get_outcome_ok(s, d, u, ts, omit, r) && !(r is None && no_visible(s, u, ts)) {
        let k = choose|k: int|
            #[trigger] newest_visible_at(s, u, ts, k) && {
                let w = spec_parse_write(s[k].value).unwrap();
                match w.write_type {
                    WriteType::Delete => r is None,
                    WriteType::Put => r is Some && value_loaded(d, u, w, omit, r.unwrap()),
                    _ => false,
                }
            };
        let k2: int = if k < i {
            k
        } else {
            k - 1
        };
        assert(newest_visible_at(s2, u, ts, k2) && s2[k2] == s[k]);
    }
    if get_outcome_ok(s2, d, u, ts, omit, r) && !(r is None && no_visible(s2, u, ts)) {
        let k2 = choose|k2: int|
            #[trigger] newest_visible_at(s2, u, ts, k2) && {
                let w = spec_parse_write(s2[k2].value).unwrap();
                match w.write_type {
                    WriteType::Delete => r is None,
                    WriteType::Put => r is Some && value_loaded(d, u, w, omit, r.unwrap()),
                    _ => false,
                }
            };
        let k: int = if k2 < i {
            k2
        } else {
            k2 + 1
        };
        assert(newest_visible_at(s, u, ts, k) && s2[k2] == s[k]);
    }
}

/// The bounds never cut a user key's version range in half: no user key in
/// the write column family is a strict prefix of either bound. The external
/// key encoding guarantees this for every pair of encoded keys.
pub open spec fn range_compatible(
    write: Seq<EntryView>,
    lower: Option<Seq<u8>>,
    upper: Option<Seq<u8>>,
) -> bool {
    forall|j: int|
        0 <= j < write.len() ==> {
            &&& (lower is Some ==> !is_strict_prefix(
                user_of((#[trigger] write[j]).key),
                lower.unwrap(),
            ))
            &&& (upper is Some ==> !is_strict_prefix(user_of(write[j].key), upper.unwrap()))
        }
}

/// `BackwardScanner` factory.
#[derive(Debug)]
pub struct BackwardScannerBuilder {
    snapshot: Snapshot,
    fill_cache: bool,
    omit_value: bool,
    isolation_level: IsolationLevel,
    lower_bound: Option<Key>,
    upper_bound: Option<Key>,
    ts: u64,
}

impl BackwardScannerBuilder {
    pub closed spec fn store(self) -> Snapshot {
        self.snapshot
    }

    pub closed spec fn wf(self) -> bool {
        &&& self.snapshot.wf()
        &&& range_compatible(
            self.snapshot.write_view(),
            opt_key_view(self.lower_bound),
            opt_key_view(self.upper_bound),
        )
    }

    pub closed spec fn read_ts(self) -> u64 {
        self.ts
    }

    pub closed spec fn omits_value(self) -> bool {
        self.omit_value
    }

    pub closed spec fn fills_cache(self) -> bool {
        self.fill_cache
    }

    pub closed spec fn iso_level(self) -> IsolationLevel {
        self.isolation_level
    }

    pub closed spec fn lower_limit(self) -> Option<Seq<u8>> {
        opt_key_view(self.lower_bound)
    }

    pub closed spec fn upper_limit(self) -> Option<Seq<u8>> {
        opt_key_view(self.upper_bound)
    }

    /// Initialize a new builder over `snapshot`, reading at `ts`.
    pub fn new(snapshot: Snapshot, ts: u64) -> (r: BackwardScannerBuilder)
        requires
            snapshot.wf(),
        ensures
            r.wf(),
            r.store() == snapshot,
            r.read_ts() == ts,
            !r.omits_value(),
            r.fills_cache(),
            r.iso_level() == IsolationLevel::Si,
            r.lower_limit() is None,
            r.upper_limit() is None,
    {
        BackwardScannerBuilder {
            snapshot,
            fill_cache: true,
            omit_value: false,
            isolation_level: IsolationLevel::Si,
            lower_bound: None,
            upper_bound: None,
            ts,
        }
    }

    /// Set whether reads should fill the underlying engine's cache.
    ///
    /// Defaults to `true`.
    pub fn fill_cache(self, fill_cache: bool) -> (r: BackwardScannerBuilder)
        ensures
            r.fills_cache() == fill_cache,
            r.wf() == self.wf(),
            r.store() == self.store(),
            r.read_ts() == self.read_ts(),
            r.omits_value() == self.omits_value(),
            r.iso_level() == self.iso_level(),
            r.lower_limit() == self.lower_limit(),
            r.upper_limit() == self.upper_limit(),
    {
        BackwardScannerBuilder { fill_cache, ..self }
    }

    /// Set whether values should be omitted: when `true`, every returned
    /// value is an empty byte string and the default column family is never
    /// touched.
    ///
    /// Defaults to `false`.
    pub fn omit_value(self, omit_value: bool) -> (r: BackwardScannerBuilder)
        ensures
            r.omits_value() == omit_value,
            r.wf() == self.wf(),
            r.store() == self.store(),
            r.read_ts() == self.read_ts(),
            r.fills_cache() == self.fills_cache(),
            r.iso_level() == self.iso_level(),
            r.lower_limit() == self.lower_limit(),
            r.upper_limit() == self.upper_limit(),
    {
        BackwardScannerBuilder { omit_value, ..self }
    }

    /// Set the isolation level.
    ///
    /// Defaults to snapshot isolation.
    pub fn isolation_level(self, isolation_level: IsolationLevel) -> (r: BackwardScannerBuilder)
        ensures
            r.iso_level() == isolation_level,
            r.wf() == self.wf(),
            r.store() == self.store(),
            r.read_ts() == self.read_ts(),
            r.fills_cache() == self.fills_cache(),
            r.omits_value() == self.omits_value(),
            r.lower_limit() == self.lower_limit(),
            r.upper_limit() == self.upper_limit(),
    {
        BackwardScannerBuilder { isolation_level, ..self }
    }

    /// Limit the scan to the half-open range `[lower_bound, upper_bound)`.
    /// `None` means unbounded on that side.
    ///
    /// Defaults to `(None, None)`.
    pub fn range(self, lower_bound: Option<Key>, upper_bound: Option<Key>) -> (r:
        BackwardScannerBuilder)
        requires
            range_compatible(
                self.store().write_view(),
                opt_key_view(lower_bound),
                opt_key_view(upper_bound),
            ),
        ensures
            r.lower_limit() == opt_key_view(lower_bound),
            r.upper_limit() == opt_key_view(upper_bound),
            r.wf() == self.store().wf(),
            r.store() == self.store(),
            r.read_ts() == self.read_ts(),
            r.fills_cache() == self.fills_cache(),
            r.omits_value() == self.omits_value(),
            r.iso_level() == self.iso_level(),
    {
        BackwardScannerBuilder { lower_bound, upper_bound, ..self }
    }

    /// Build a `BackwardScanner` from the current configuration. The write
    /// and lock cursors are created eagerly; the default cursor is deferred
    /// until the first out-of-line value load.
    pub fn build(self) -> (r: Result<BackwardScanner, Error>)
        requires
            self.wf(),
        ensures
            r is Ok,
            ({
                let s = r.unwrap();
                &&& s.wf()
                &&& s.read_ts() == self.read_ts()
                &&& s.omits_value() == self.omits_value()
                &&& s.iso_level() == self.iso_level()
                &&& s.lower_limit() == self.lower_limit()
                &&& s.upper_limit() == self.upper_limit()
                &&& s.stats() == Statistics::zeroed()
                &&& s.last_user_key() is None
                &&& !s.started()
                &&& !s.has_default_cursor()
                // the scan ranges over the given snapshot, restricted to the
                // given range: the write and lock entries are the snapshot's
                // column families clipped at the lower bound, and values are
                // loaded from the snapshot's default column family
                &&& crate::cursor::lower_clipped(
                    self.store().write_view(),
                    self.lower_limit(),
                    s.write_entries(),
                )
                &&& crate::cursor::lower_clipped(
                    self.store().lock_view(),
                    self.lower_limit(),
                    s.lock_entries(),
                )
                &&& s.default_entries() == self.store().default_view()
            }),
    {
        let lower_ref: Option<&Vec<u8>> = match &self.lower_bound {
            None => None,
            Some(k) => Some(k.encoded()),
        };
        let upper_ref: Option<&Vec<u8>> = match &self.upper_bound {
            None => None,
            Some(k) => Some(k.encoded()),
        };
        let lock_cursor = Cursor::new(&self.snapshot.lock, lower_ref, upper_ref);
        let write_cursor = Cursor::new(&self.snapshot.write, lower_ref, upper_ref);
        proof {
            let wv = self.snapshot.write_view();
            let wc = write_cursor@;
            let drop = wv.len() - wc.len();
            assert(composite_keys_wf(wc)) by {
                assert forall|a: int| 0 <= a < wc.len() implies (#[trigger] wc[a].key).len()
                    >= TS_LEN by {
                    assert(wc[a] == wv[drop + a]);
                }
                assert forall|a: int, b: int| 0 <= a < wc.len() && 0 <= b < wc.len() implies
                    crate::order::prefix_incomparable(
                    user_of(#[trigger] wc[a].key),
                    user_of(#[trigger] wc[b].key),
                ) by {
                    assert(wc[a] == wv[drop + a] && wc[b] == wv[drop + b]);
                }
            }
            assert(range_compatible(wc, self.lower_limit(), self.upper_limit())) by {
                assert forall|a: int| 0 <= a < wc.len() implies wc[a] == wv[drop + a] by {}
            }
        }
        Ok(
            BackwardScanner {
                snapshot: self.snapshot,
                fill_cache: self.fill_cache,
                omit_value: self.omit_value,
                isolation_level: self.isolation_level,
                lower_bound: self.lower_bound,
                upper_bound: self.upper_bound,
                ts: self.ts,
                lock_cursor,
                write_cursor,
                default_cursor: None,
                is_started: false,
                statistics: Statistics::new(),
                frontier: Ghost(None),
            },
        )
    }
}

/// Scans user keys in descending order, yielding for each the value it had
/// at the configured read timestamp.
///
/// Build one with `BackwardScannerBuilder`.
pub struct BackwardScanner {
    snapshot: Snapshot,
    fill_cache: bool,
    omit_value: bool,
    isolation_level: IsolationLevel,
    lower_bound: Option<Key>,
    upper_bound: Option<Key>,
    ts: u64,
    lock_cursor: Cursor,
    write_cursor: Cursor,
    /// Created lazily, on the first out-of-line value load.
    default_cursor: Option<Cursor>,
    is_started: bool,
    statistics: Statistics,
    /// The user key processed most recently: every key still to be emitted
    /// sorts strictly below it.
    frontier: Ghost<Option<Seq<u8>>>,
}

impl BackwardScanner {
    pub closed spec fn read_ts(self) -> u64 {
        self.ts
    }

    pub closed spec fn omits_value(self) -> bool {
        self.omit_value
    }

    pub closed spec fn iso_level(self) -> IsolationLevel {
        self.isolation_level
    }

    pub closed spec fn lower_limit(self) -> Option<Seq<u8>> {
        opt_key_view(self.lower_bound)
    }

    pub closed spec fn upper_limit(self) -> Option<Seq<u8>> {
        opt_key_view(self.upper_bound)
    }

    pub closed spec fn stats(self) -> Statistics {
        self.statistics
    }

    /// The user key processed most recently, `None` before the first one.
    pub closed spec fn last_user_key(self) -> Option<Seq<u8>> {
        self.frontier@
    }

    /// Whether the default column family cursor has been created. It never
    /// is when values are omitted.
    pub closed spec fn has_default_cursor(self) -> bool {
        self.default_cursor is Some
    }

    /// Both cursors have walked off the store: nothing remains to emit.
    pub closed spec fn exhausted(self) -> bool {
        !self.write_cursor.is_valid() && !self.lock_cursor.is_valid()
    }

    /// Whether the initial positioning of the cursors has happened.
    pub closed spec fn started(self) -> bool {
        self.is_started
    }

    /// The write column family entries the scan ranges over.
    pub closed spec fn write_entries(self) -> Seq<EntryView> {
        self.write_cursor@
    }

    /// The lock column family entries the scan ranges over.
    pub closed spec fn lock_entries(self) -> Seq<EntryView> {
        self.lock_cursor@
    }

    /// The default column family entries values are loaded from.
    pub closed spec fn default_entries(self) -> Seq<EntryView> {
        self.snapshot.default_view()
    }

    /// How much of one column family is still ahead of a cursor.
    spec fn cursor_measure(c: Cursor) -> int {
        if c.is_valid() {
            c.position() + 1
        } else {
            0
        }
    }

    /// Entries past the cursor: everything above its position, or everything
    /// at all once it has walked off the store.
    spec fn passed_from(c: Cursor) -> int {
        if c.is_valid() {
            c.position()
        } else {
            -1
        }
    }

    /// The scan has handled every write entry above the write cursor: each
    /// either lies outside the upper bound or belongs to a user key at or
    /// above the frontier.
    spec fn write_passed(self) -> bool {
        forall|idx: int|
            Self::passed_from(self.write_cursor) < idx < self.write_cursor@.len()
                ==> !below_upper((#[trigger] self.write_cursor@[idx]).key, self.upper_limit()) || (
            self.frontier@ is Some && lex_le(
                self.frontier@.unwrap(),
                user_of(self.write_cursor@[idx].key),
            ))
    }

    /// The scan has handled every lock entry above the lock cursor.
    spec fn lock_passed(self) -> bool {
        forall|idx: int|
            Self::passed_from(self.lock_cursor) < idx < self.lock_cursor@.len() ==> !below_upper(
                (#[trigger] self.lock_cursor@[idx]).key,
                self.upper_limit(),
            ) || (self.frontier@ is Some && lex_le(
                self.frontier@.unwrap(),
                self.lock_cursor@[idx].key,
            ))
    }

    /// The parts of the invariant that hold even in the middle of processing
    /// one user key.
    spec fn wf_core(self) -> bool {
        &&& self.snapshot.wf()
        &&& self.write_cursor.wf()
        &&& self.lock_cursor.wf()
        &&& composite_keys_wf(self.write_cursor@)
        &&& range_compatible(self.write_cursor@, self.lower_limit(), self.upper_limit())
        &&& self.write_cursor.upper_view() == self.upper_limit()
        &&& self.lock_cursor.upper_view() == self.upper_limit()
        &&& (match self.lower_limit() {
            None => true,
            Some(l) => (forall|idx: int|
                0 <= idx < self.write_cursor@.len() ==> lex_le(
                    l,
                    (#[trigger] self.write_cursor@[idx]).key,
                )) && (forall|idx: int|
                0 <= idx < self.lock_cursor@.len() ==> lex_le(
                    l,
                    (#[trigger] self.lock_cursor@[idx]).key,
                )),
        })
        &&& (self.write_cursor.is_valid() ==> below_upper(
            self.write_cursor.cur_key(),
            self.upper_limit(),
        ))
        &&& (self.lock_cursor.is_valid() ==> below_upper(
            self.lock_cursor.cur_key(),
            self.upper_limit(),
        ))
        &&& (match self.default_cursor {
            None => true,
            Some(ref c) => c.wf() && c@ == self.snapshot.default_view() && !self.omit_value,
        })
        &&& (self.omit_value ==> self.default_cursor is None)
        &&& self.statistics.write.next <= self.statistics.write.processed
    }

    pub closed spec fn wf(self) -> bool {
        &&& self.wf_core()
        &&& (!self.is_started ==> self.frontier@ is None && !self.write_cursor.is_valid()
            && !self.lock_cursor.is_valid())
        &&& (self.is_started ==> self.write_passed() && self.lock_passed())
        &&& (self.write_cursor.is_valid() && self.frontier@ is Some ==> lex_lt(
            user_of(self.write_cursor.cur_key()),
            self.frontier@.unwrap(),
        ))
        &&& (self.lock_cursor.is_valid() && self.frontier@ is Some ==> lex_lt(
            self.lock_cursor.cur_key(),
            self.frontier@.unwrap(),
        ))
    }

    /// Get the next key-value pair, in descending user-key order: the
    /// greatest unprocessed user key that has a value visible at the read
    /// timestamp, together with that value. Keys whose newest visible record
    /// is a delete, and keys with only lock or rollback records, are skipped.
    /// Under snapshot isolation a blocking lock surfaces as `KeyIsLocked`
    /// for its key; the scanner stays usable and moves past that key.
    #[verifier::rlimit(100)]
    #[verifier::spinoff_prover]
    pub fn read_next(&mut self) -> (r: Result<Option<(Key, Vec<u8>)>, Error>)
        requires
            old(self).wf(),
        ensures
            final(self).wf(),
            final(self).read_ts() == old(self).read_ts(),
            final(self).omits_value() == old(self).omits_value(),
            final(self).iso_level() == old(self).iso_level(),
            final(self).lower_limit() == old(self).lower_limit(),
            final(self).upper_limit() == old(self).upper_limit(),
            final(self).write_entries() == old(self).write_entries(),
            final(self).lock_entries() == old(self).lock_entries(),
            final(self).default_entries() == old(self).default_entries(),
            // with omitted values the default cursor is never created
            old(self).omits_value() ==> !final(self).has_default_cursor(),
            match r {
                Ok(Some((k, v))) => {
                    // the emitted key and value are the ones the store owes
                    // next, and everything skipped reads as nothing
                    &&& emission_ok(*old(self), k@, v@)
                    &&& final(self).last_user_key() == Some(k@)
                },
                Ok(None) => keys_settled(
                    old(self).write_entries(),
                    old(self).default_entries(),
                    old(self).lock_entries(),
                    old(self).upper_limit(),
                    old(self).read_ts(),
                    old(self).omits_value(),
                    old(self).iso_level(),
                    None,
                    old(self).last_user_key(),
                ),
                _ => true,
            },
            // the frontier of processed keys only moves down
            old(self).last_user_key() is Some ==> final(self).last_user_key() is Some && lex_le(
                final(self).last_user_key().unwrap(),
                old(self).last_user_key().unwrap(),
            ),
            // each error has its cause in the store
            match r {
                Err(e) => error_cause(*old(self), e),
                Ok(_) => true,
            },
            // cursor work is conservative: the write cursor steps forward at
            // most once per record it processes
            final(self).stats().write.next <= final(self).stats().write.processed,
            // the end of the stream really is the end
            final(self).started(),
            r == Ok::<Option<(Key, Vec<u8>)>, Error>(None) ==> final(self).exhausted(),
            old(self).started() && old(self).exhausted() ==> *final(self) == *old(self) && r
                == Ok::<Option<(Key, Vec<u8>)>, Error>(None),
            // the default cursor, once created, stays
            old(self).has_default_cursor() ==> final(self).has_default_cursor(),
            // counters only grow
            old(self).stats().write.processed <= final(self).stats().write.processed,
    {
        if !self.is_started {
            match &self.upper_bound {
                Some(ub) => {
                    self.write_cursor.reverse_seek(ub, &mut self.statistics.write);
                    self.lock_cursor.reverse_seek(ub, &mut self.statistics.lock);
                },
                None => {
                    self.write_cursor.seek_to_last(&mut self.statistics.write);
                    self.lock_cursor.seek_to_last(&mut self.statistics.lock);
                },
            }
            self.is_started = true;
        }
        loop
            invariant
                self.wf(),
                self.is_started,
                self.read_ts() == old(self).read_ts(),
                self.omits_value() == old(self).omits_value(),
                self.iso_level() == old(self).iso_level(),
                self.lower_limit() == old(self).lower_limit(),
                self.upper_limit() == old(self).upper_limit(),
                self.write_entries() == old(self).write_entries(),
                self.lock_entries() == old(self).lock_entries(),
                self.default_entries() == old(self).default_entries(),
                old(self).omits_value() ==> !self.has_default_cursor(),
                old(self).last_user_key() is Some ==> self.last_user_key() is Some && lex_le(
                    self.last_user_key().unwrap(),
                    old(self).last_user_key().unwrap(),
                ),
                old(self).started() && old(self).exhausted() ==> *self == *old(self),
                old(self).has_default_cursor() ==> self.has_default_cursor(),
                old(self).stats().write.processed <= self.stats().write.processed,
                self.last_user_key() == old(self).last_user_key() || (self.last_user_key() is Some
                    && keys_settled(
                    self.write_entries(),
                    self.default_entries(),
                    self.lock_entries(),
                    self.upper_limit(),
                    self.read_ts(),
                    self.omits_value(),
                    self.iso_level(),
                    self.last_user_key(),
                    old(self).last_user_key(),
                ) && user_settled(
                    self.write_entries(),
                    self.default_entries(),
                    self.lock_entries(),
                    self.read_ts(),
                    self.omits_value(),
                    self.iso_level(),
                    self.last_user_key().unwrap(),
                )),
            decreases Self::cursor_measure(self.write_cursor) + Self::cursor_measure(
                self.lock_cursor,
            ),
        {
            let ghost s = self.write_cursor@;
            let ghost lc = self.lock_cursor@;
            let ghost up = self.upper_limit();
            let ghost low = self.lower_limit();
            let ghost front = self.frontier@;
            let ghost f0 = old(self).last_user_key();
            let ghost ts0 = old(self).read_ts();
            let ghost d = self.default_entries();
            let ghost iso = self.iso_level();
            let ghost om = self.omits_value();
            let w_valid = self.write_cursor.valid();
            let l_valid = self.lock_cursor.valid();
            if !w_valid && !l_valid {
                proof {
                    assert(forall|idx: int|
                        0 <= idx < s.len() ==> !below_upper((#[trigger] s[idx]).key, up) || (
                    front is Some && lex_le(front.unwrap(), user_of(s[idx].key))));
                    lemma_exhausted_settled(s, d, lc, up, ts0, om, iso, f0, front);
                }
                return Ok(None);
            }
            let mut has_write = false;
            let mut has_lock = false;
            let current_user_key: Key;
            if w_valid && l_valid {
                let wk_user = match Key::truncate_ts_for(self.write_cursor.key().as_slice()) {
                    Ok(uu) => uu,
                    Err(e) => {
                        proof {
                            assert(false);
                        }
                        return Err(e);
                    },
                };
                let lk = self.lock_cursor.key();
                if crate::order::bytes_lt(wk_user, lk.as_slice()) {
                    // We scan from the largest user key down, so a greater
                    // lock key means a lock whose write records are absent.
                    has_lock = true;
                    current_user_key = Key::from_encoded_slice(lk.as_slice());
                } else if crate::order::bytes_lt(lk.as_slice(), wk_user) {
                    // A write without a lock.
                    has_write = true;
                    current_user_key = Key::from_encoded_slice(wk_user);
                } else {
                    proof {
                        crate::order::lemma_lex_total(
                            user_of(self.write_cursor.cur_key()),
                            self.lock_cursor.cur_key(),
                        );
                    }
                    has_write = true;
                    has_lock = true;
                    current_user_key = Key::from_encoded_slice(wk_user);
                }
            } else if w_valid {
                let wk_user = match Key::truncate_ts_for(self.write_cursor.key().as_slice()) {
                    Ok(uu) => uu,
                    Err(e) => {
                        proof {
                            assert(false);
                        }
                        return Err(e);
                    },
                };
                has_write = true;
                current_user_key = Key::from_encoded_slice(wk_user);
            } else {
                has_lock = true;
                current_user_key = Key::from_encoded_slice(self.lock_cursor.key().as_slice());
            }
            let ghost cu = current_user_key@;
            let ghost wpos = self.write_cursor.position();
            let ghost lpos = self.lock_cursor.position();
            proof {
                if has_write {
                    assert(cu == user_of(s[wpos].key));
                }
                if self.write_cursor.is_valid() {
                    crate::key::lemma_key_decompose(s[wpos].key);
                }
                // the current key sorts below the frontier
                if front is Some {
                    assert(lex_lt(cu, front.unwrap()));
                }
                // the current key lies inside the configured range
                if low is Some {
                    assert(lex_le(low.unwrap(), cu)) by {
                        if has_write {
                            lemma_user_above_lower(cu, ts_of(s[wpos].key), low.unwrap());
                        }
                    }
                }
                if up is Some {
                    assert(lex_lt(cu, up.unwrap())) by {
                        if has_write {
                            lemma_user_below_upper(cu, ts_of(s[wpos].key), up.unwrap());
                        }
                    }
                }
                // when the lock cursor does not contribute, no lock exists
                // on the current key at all
                if !has_lock {
                    assert(!has_lock_on(lc, cu)) by {
                        assert forall|i: int| 0 <= i < lc.len() implies (#[trigger] lc[i]).key
                            != cu by {
                            if lc[i].key == cu {
                                if self.lock_cursor.is_valid() && i <= lpos {
                                    if i < lpos {
                                        assert(lex_lt(lc[i].key, lc[lpos].key));
                                    }
                                    assert(lex_lt(lc[lpos].key, cu));
                                    if i < lpos {
                                        crate::order::lemma_lex_lt_trans(
                                            lc[i].key,
                                            lc[lpos].key,
                                            cu,
                                        );
                                    }
                                    crate::order::lemma_lex_lt_irrefl(cu);
                                } else {
                                    // a passed entry: out of range or at or
                                    // above the frontier
                                    assert(!below_upper(lc[i].key, up) || (front is Some && lex_le(
                                        front.unwrap(),
                                        lc[i].key,
                                    )));
                                    if front is Some && lex_le(front.unwrap(), lc[i].key) {
                                        crate::order::lemma_lex_lt_le_trans(
                                            cu,
                                            front.unwrap(),
                                            lc[i].key,
                                        );
                                        crate::order::lemma_lex_lt_irrefl(cu);
                                    }
                                }
                            }
                        }
                    }
                }
                // facts about the state at the top of this round, over
                // captured values, so they survive the cursor movement below
                assert forall|idx: int|
                    (if w_valid {
                        wpos
                    } else {
                        -1
                    }) < idx < s.len() implies !below_upper((#[trigger] s[idx]).key, up) || (
                front is Some && lex_le(front.unwrap(), user_of(s[idx].key))) by {}
                if w_valid {
                    lemma_below_top_users(s, wpos);
                }
                // when the write cursor does not contribute, no write entry
                // of the current key exists anywhere
                if !has_write {
                    lemma_no_stray_versions(s, up, front, cu, w_valid, wpos);
                }
                // preconditions of `reverse_get`
                if has_write {
                    assert forall|idx: int| wpos < idx < s.len() implies !below_upper(
                        (#[trigger] s[idx]).key,
                        up,
                    ) || lex_lt(cu, user_of(s[idx].key)) by {
                        if below_upper(s[idx].key, up) && front is Some {
                            crate::order::lemma_lex_lt_le_trans(
                                cu,
                                front.unwrap(),
                                user_of(s[idx].key),
                            );
                        }
                    }
                    lemma_all_versions_in_upper(s, up, cu, wpos);
                }
            }
            let mut result: Result<Option<Vec<u8>>, Error> = Ok(None);
            let mut get_ts = self.ts;
            let mut met_prev_user_key = false;
            let ghost mut lock_error: bool = false;
            let ghost mut lock_rec: Option<LockRecord> = None;
            if has_lock {
                proof {
                    // the lock column family has at most one entry per key
                    lemma_default_value_found(lc, cu, lpos);
                }
                match self.isolation_level {
                    IsolationLevel::Si => {
                        let lock = match Lock::parse(self.lock_cursor.value().as_slice()) {
                            Ok(l) => l,
                            Err(e) => {
                                proof {
                                    assert(crate::lock::spec_parse_lock(
                                        lc[lpos].value,
                                    ) is None);
                                    assert(error_cause(*old(self), e));
                                    assert(!store_readable(s, d, lc, ts0, om, iso));
                                }
                                return Err(e);
                            },
                        };
                        proof {
                            lock_rec = Some(lock@);
                            assert(crate::lock::spec_parse_lock(lc[lpos].value) == Some(lock@));
                        }
                        match check_lock(&current_user_key, self.ts, &lock) {
                            CheckLockResult::NotLocked => {},
                            CheckLockResult::Locked(e) => {
                                proof {
                                    lock_error = true;
                                }
                                result = Err(e);
                            },
                            CheckLockResult::Ignored(t) => {
                                get_ts = t;
                            },
                        }
                    },
                    IsolationLevel::Rc => {},
                }
                let ghost lp_before = self.lock_cursor.position();
                self.lock_cursor.prev(&mut self.statistics.lock);
                proof {
                    if self.lock_cursor.is_valid() {
                        assert(lex_lt(lc[lp_before - 1].key, lc[lp_before].key));
                        if up is Some {
                            crate::order::lemma_lex_lt_trans(
                                lc[lp_before - 1].key,
                                lc[lp_before].key,
                                up.unwrap(),
                            );
                        }
                    }
                }
            }
            if has_write {
                if result.is_ok() {
                    result = self.reverse_get(&current_user_key, get_ts, &mut met_prev_user_key);
                }
                if !met_prev_user_key {
                    // Skip the rest of this key's versions so the next round
                    // sees the previous user key.
                    let ghost wp_mid = self.write_cursor.position();
                    match self.move_write_cursor_to_prev_user_key(&current_user_key) {
                        Ok(()) => {},
                        Err(e) => {
                            proof {
                                assert(false);
                            }
                            return Err(e);
                        },
                    }
                    proof {
                        if self.write_cursor.is_valid() {
                            let p = self.write_cursor.position();
                            assert(user_of(s[wp_mid].key) == cu);
                            assert(p < wp_mid);
                            assert(lex_lt(user_of(s[p].key), cu)) by {
                                crate::key::lemma_key_decompose(s[p].key);
                                crate::key::lemma_key_decompose(s[wp_mid].key);
                                assert(lex_lt(s[p].key, s[wp_mid].key));
                                crate::key::lemma_composite_diff_user(
                                    user_of(s[p].key),
                                    ts_of(s[p].key),
                                    cu,
                                    ts_of(s[wp_mid].key),
                                );
                            }
                        }
                    }
                }
            }
            proof {
                self.frontier@ = Some(cu);
            }
            proof {
                if old(self).last_user_key() is Some {
                    crate::order::lemma_lex_lt_le_trans(
                        cu,
                        front.unwrap(),
                        old(self).last_user_key().unwrap(),
                    );
                }
                // the invariant holds again with the current key as frontier
                assert(self.write_passed()) by {
                    assert forall|idx: int|
                        Self::passed_from(self.write_cursor) < idx < s.len() implies !below_upper(
                        (#[trigger] s[idx]).key,
                        up,
                    ) || lex_le(cu, user_of(s[idx].key)) by {
                        if below_upper(s[idx].key, up) {
                            if !has_write {
                                if front is Some && lex_le(front.unwrap(), user_of(s[idx].key)) {
                                    crate::order::lemma_lex_lt_le_trans(
                                        cu,
                                        front.unwrap(),
                                        user_of(s[idx].key),
                                    );
                                }
                            }
                        }
                    }
                }
                assert(self.lock_passed()) by {
                    assert forall|idx: int|
                        Self::passed_from(self.lock_cursor) < idx < lc.len() implies !below_upper(
                        (#[trigger] lc[idx]).key,
                        up,
                    ) || lex_le(cu, lc[idx].key) by {
                        if below_upper(lc[idx].key, up) {
                            if has_lock {
                                if idx > lpos && front is Some && lex_le(
                                    front.unwrap(),
                                    lc[idx].key,
                                ) {
                                    crate::order::lemma_lex_lt_le_trans(
                                        cu,
                                        front.unwrap(),
                                        lc[idx].key,
                                    );
                                }
                            } else {
                                if front is Some && lex_le(front.unwrap(), lc[idx].key) {
                                    crate::order::lemma_lex_lt_le_trans(
                                        cu,
                                        front.unwrap(),
                                        lc[idx].key,
                                    );
                                }
                            }
                        }
                    }
                }
                if self.lock_cursor.is_valid() {
                    assert(lex_lt(self.lock_cursor.cur_key(), cu)) by {
                        if has_lock {
                            assert(lex_lt(lc[lpos - 1].key, lc[lpos].key));
                        }
                    }
                }
                // every in-range key strictly above the current one was
                // settled in an earlier round of this scan or a previous call
                if w_valid {
                    assert(lex_le(user_of(s[wpos].key), cu));
                }
                lemma_scan_window_settled(s, d, lc, up, ts0, om, iso, cu, f0, front, w_valid, wpos);
            }
            proof {
                // the loop makes progress: at least one cursor moved down
                if has_write {
                    if self.write_cursor.is_valid() {
                        if user_of(self.write_cursor.cur_key()) == cu {
                            crate::order::lemma_lex_lt_irrefl(cu);
                        }
                        assert(self.write_cursor.position() < wpos);
                    }
                }
            }
            proof {
                // what the lock check decided, in terms of the effective
                // read timestamp of the current key
                if !has_lock {
                    lemma_default_value_absent(lc, cu);
                }
                if !lock_error {
                    assert(effective_read_ts(lc, cu, ts0, iso) == Some(get_ts)) by {
                        if has_lock && iso == IsolationLevel::Si {
                            let l = lock_rec.unwrap();
                            if lock_ignored(cu, ts0, l) {
                            } else {
                                assert(!lock_blocks(cu, ts0, l));
                            }
                        }
                    }
                }
            }
            match result {
                Ok(Some(v)) => {
                    proof {
                        assert(keys_settled(s, d, lc, up, ts0, om, iso, Some(cu), f0));
                        assert(!lock_error);
                        assert(emission_ok(*old(self), cu, v@));
                    }
                    return Ok(Some((current_user_key, v)));
                },
                Ok(None) => {
                    proof {
                        assert(keys_settled(s, d, lc, up, ts0, om, iso, Some(cu), f0));
                        assert(!lock_error);
                        // this round's key itself reads as nothing
                        assert(user_settled(s, d, lc, ts0, om, iso, cu)) by {
                            if effective_read_ts(lc, cu, ts0, iso) == Some(ts0)
                                && all_versions_parse(s, cu, ts0) {
                                assert(get_ts == ts0);
                                if has_write {
                                    assert(get_outcome_ok(s, d, cu, ts0, om, None));
                                } else {
                                    assert(no_visible(s, cu, ts0));
                                }
                            }
                        }
                        if f0 is Some {
                            if Some(cu) == f0 {
                                crate::order::lemma_lex_lt_irrefl(cu);
                            }
                        }
                    }
                },
                Err(e) => {
                    proof {
                        lemma_error_settles(
                            s,
                            d,
                            lc,
                            ts0,
                            om,
                            iso,
                            cu,
                            get_ts,
                            lpos,
                            lock_error,
                            lock_rec,
                            e,
                            *old(self),
                        );
                    }
                    return Err(e);
                },
            }
        }
    }

    /// Take out and reset the statistics collected so far. Taking them twice
    /// in a row yields zeroed counters the second time.
    pub fn take_statistics(&mut self) -> (r: Statistics)
        requires
            old(self).wf(),
        ensures
            r == old(self).stats(),
            final(self).stats() == Statistics::zeroed(),
            final(self).wf(),
            final(self).read_ts() == old(self).read_ts(),
            final(self).omits_value() == old(self).omits_value(),
            final(self).iso_level() == old(self).iso_level(),
            final(self).lower_limit() == old(self).lower_limit(),
            final(self).upper_limit() == old(self).upper_limit(),
            final(self).last_user_key() == old(self).last_user_key(),
            final(self).has_default_cursor() == old(self).has_default_cursor(),
            final(self).write_entries() == old(self).write_entries(),
            final(self).default_entries() == old(self).default_entries(),
    {
        let r = self.statistics;
        self.statistics = Statistics::new();
        r
    }

    /// Create the default cursor if it does not exist yet.
    fn ensure_default_cursor(&mut self)
        requires
            old(self).wf_core(),
            !old(self).omit_value,
        ensures
            final(self).wf_core(),
            final(self).default_cursor is Some,
            unchanged_but_default(*old(self), *final(self)),
            final(self).statistics == old(self).statistics,
            old(self).default_cursor is Some ==> *final(self) == *old(self),
    {
        if self.default_cursor.is_some() {
            return ;
        }
        let cursor = Cursor::new(&self.snapshot.default, None, None);
        proof {
            assert(cursor@ =~= self.snapshot.default_view());
        }
        self.default_cursor = Some(cursor);
    }

    /// Load the value a put record stands for: an empty value when values
    /// are omitted, the record's own short value when it carries one, and
    /// otherwise the default column family entry at `(user_key, start_ts)`,
    /// located by a near seek.
    fn reverse_load_data_by_write(&mut self, write: Write, user_key: &Key) -> (r: Result<
        Vec<u8>,
        Error,
    >)
        requires
            old(self).wf_core(),
            write@.write_type == WriteType::Put,
        ensures
            final(self).wf_core(),
            unchanged_but_default(*old(self), *final(self)),
            final(self).statistics.write == old(self).statistics.write,
            final(self).statistics.lock == old(self).statistics.lock,
            old(self).omit_value || write@.short_value is Some ==> *final(self) == *old(self),
            !old(self).omit_value && write@.short_value is None ==> final(self).default_cursor
                is Some,
            old(self).default_cursor is Some ==> final(self).default_cursor is Some,
            match r {
                Ok(v) => value_loaded(
                    old(self).default_entries(),
                    user_key@,
                    write@,
                    old(self).omit_value,
                    v@,
                ),
                Err(e) => e is ValueNotFound && value_missing(
                    old(self).default_entries(),
                    user_key@,
                    write@,
                    old(self).omit_value,
                ),
            },
    {
        if self.omit_value {
            return Ok(vec![]);
        }
        match write.short_value {
            Some(value) => Ok(value),
            None => {
                self.ensure_default_cursor();
                let seek_key = user_key.clone().append_ts(write.start_ts);
                let ghost d = old(self).default_entries();
                match &mut self.default_cursor {
                    None => {
                        proof {
                            assert(false);
                        }
                        Err(Error::ValueNotFound)
                    },
                    Some(cursor) => {
                        cursor.near_seek_for_prev(&seek_key, &mut self.statistics.data);
                        if !cursor.valid() {
                            proof {
                                assert forall|i: int| 0 <= i < d.len() implies (#[trigger] d[i]).key
                                    != seek_key@ by {
                                    if d[i].key == seek_key@ {
                                        crate::order::lemma_lex_lt_irrefl(seek_key@);
                                    }
                                }
                                lemma_default_value_absent(d, seek_key@);
                            }
                            return Err(Error::ValueNotFound);
                        }
                        let found = crate::order::bytes_eq(
                            cursor.key().as_slice(),
                            seek_key.encoded().as_slice(),
                        );
                        if !found {
                            proof {
                                let p = cursor.position();
                                assert forall|i: int| 0 <= i < d.len() implies (#[trigger] d[i]).key
                                    != seek_key@ by {
                                    if i < p {
                                        assert(lex_lt(d[i].key, d[p].key));
                                        if d[i].key == seek_key@ {
                                            crate::order::lemma_lex_le_lt_trans(
                                                d[p].key,
                                                seek_key@,
                                                d[p].key,
                                            );
                                            crate::order::lemma_lex_lt_irrefl(d[p].key);
                                        }
                                    } else if i > p {
                                        if d[i].key == seek_key@ {
                                            crate::order::lemma_lex_lt_irrefl(seek_key@);
                                        }
                                    }
                                }
                                lemma_default_value_absent(d, seek_key@);
                            }
                            return Err(Error::ValueNotFound);
                        }
                        self.statistics.data.processed = bump(self.statistics.data.processed);
                        let v = crate::key::clone_bytes(cursor.value());
                        proof {
                            lemma_default_value_found(d, seek_key@, cursor.position());
                        }
                        Ok(v)
                    },
                }
            },
        }
    }
}

impl BackwardScanner {
    /// Interpret the most recent committed version recorded while stepping:
    /// a put yields its value, a delete yields nothing.
    fn handle_last_version(&mut self, some_write: Option<Write>, user_key: &Key) -> (r: Result<
        Option<Vec<u8>>,
        Error,
    >)
        requires
            old(self).wf_core(),
            match some_write {
                Some(w) => w@.write_type == WriteType::Put || w@.write_type == WriteType::Delete,
                None => true,
            },
        ensures
            final(self).wf_core(),
            unchanged_but_default(*old(self), *final(self)),
            final(self).statistics.write == old(self).statistics.write,
            final(self).statistics.lock == old(self).statistics.lock,
            r is Err ==> r.unwrap_err() is ValueNotFound,
            old(self).default_cursor is Some ==> final(self).default_cursor is Some,
            match some_write {
                None => r is Ok && r.unwrap() is None && *final(self) == *old(self),
                Some(w) => match w@.write_type {
                    WriteType::Delete => r is Ok && r.unwrap() is None && *final(self) == *old(
                        self,
                    ),
                    WriteType::Put => match r {
                        Ok(opt) => opt is Some && value_loaded(
                            old(self).default_entries(),
                            user_key@,
                            w@,
                            old(self).omit_value,
                            opt.unwrap()@,
                        ),
                        Err(e) => e is ValueNotFound && value_missing(
                            old(self).default_entries(),
                            user_key@,
                            w@,
                            old(self).omit_value,
                        ),
                    },
                    _ => false,
                },
            },
    {
        match some_write {
            None => Ok(None),
            Some(write) => match write.write_type {
                WriteType::Put => match self.reverse_load_data_by_write(write, user_key) {
                    Ok(v) => Ok(Some(v)),
                    Err(e) => Err(e),
                },
                WriteType::Delete => Ok(None),
                WriteType::Lock | WriteType::Rollback => {
                    proof {
                        assert(false);
                    }
                    Ok(None)
                },
            },
        }
    }

    /// After reading one user key, step the write cursor past that key's
    /// remaining versions, so the next round sees a smaller user key or the
    /// end of the store: up to `SEEK_BOUND - 1` backward steps, then one
    /// backward seek.
    fn move_write_cursor_to_prev_user_key(&mut self, current_user_key: &Key) -> (r: Result<
        (),
        Error,
    >)
        requires
            old(self).wf_core(),
        ensures
            final(self).wf_core(),
            r is Ok,
            final(self).write_cursor@ == old(self).write_cursor@,
            final(self).write_cursor.upper_view() == old(self).write_cursor.upper_view(),
            unchanged_but_write(*old(self), *final(self)),
            final(self).statistics.write.seek == old(self).statistics.write.seek,
            final(self).statistics.write.next == old(self).statistics.write.next,
            final(self).statistics.write.processed == old(self).statistics.write.processed,
            old(self).statistics.write.prev <= final(self).statistics.write.prev <= old(
                self,
            ).statistics.write.prev + (SEEK_BOUND - 1),
            old(self).statistics.write.seek_for_prev <= final(self).statistics.write.seek_for_prev
                <= old(self).statistics.write.seek_for_prev + 1,
            !old(self).write_cursor.is_valid() ==> *final(self) == *old(self),
            old(self).write_cursor.is_valid() ==> {
                let s = old(self).write_cursor@;
                let p0 = old(self).write_cursor.position();
                &&& forall|idx: int|
                    Self::passed_from(final(self).write_cursor) < idx <= p0 ==> is_version_of(
                        #[trigger] s[idx],
                        current_user_key@,
                    )
                &&& (final(self).write_cursor.is_valid() ==> final(self).write_cursor.position()
                    <= p0 && user_of(final(self).write_cursor.cur_key()) != current_user_key@)
            },
    {
        if !self.write_cursor.valid() {
            // Key space ended; nothing to skip.
            return Ok(());
        }
        let ghost s = self.write_cursor@;
        let ghost u = current_user_key@;
        let ghost p0 = self.write_cursor.position();
        let mut steps: u64 = 0;
        let mut on_current = Key::is_user_key_eq(
            self.write_cursor.key().as_slice(),
            current_user_key.encoded().as_slice(),
        );
        proof {
            lemma_user_key_eq(s[p0], u, on_current);
        }
        while on_current && steps < SEEK_BOUND - 1
            invariant
                old(self).wf_core(),
                self.wf_core(),
                unchanged_but_write(*old(self), *self),
                s == old(self).write_cursor@,
                u == current_user_key@,
                p0 == old(self).write_cursor.position(),
                old(self).write_cursor.is_valid(),
                self.write_cursor@ == s,
                self.write_cursor.upper_view() == old(self).write_cursor.upper_view(),
                self.write_cursor.is_valid(),
                0 <= steps <= SEEK_BOUND - 1,
                self.write_cursor.position() == p0 - steps,
                on_current <==> user_of(s[p0 - steps].key) == u,
                forall|idx: int|
                    self.write_cursor.position() < idx <= p0 ==> is_version_of(
                        #[trigger] s[idx],
                        u,
                    ),
                self.statistics.write.seek == old(self).statistics.write.seek,
                self.statistics.write.next == old(self).statistics.write.next,
                self.statistics.write.processed == old(self).statistics.write.processed,
                self.statistics.write.seek_for_prev == old(self).statistics.write.seek_for_prev,
                old(self).statistics.write.prev <= self.statistics.write.prev <= old(
                    self,
                ).statistics.write.prev + steps,
            decreases SEEK_BOUND - steps,
        {
            let ghost p_before = self.write_cursor.position();
            proof {
                assert(user_of(s[p_before].key) == u);
                assert(is_version_of(s[p_before], u));
            }
            self.write_cursor.prev(&mut self.statistics.write);
            if !self.write_cursor.valid() {
                // Key space ended.
                proof {
                    assert(p_before == 0);
                    assert forall|idx: int| -1 < idx <= p0 implies is_version_of(
                        #[trigger] s[idx],
                        u,
                    ) by {
                        if idx == 0 {
                        }
                    }
                }
                return Ok(());
            }
            steps = steps + 1;
            on_current = Key::is_user_key_eq(
                self.write_cursor.key().as_slice(),
                current_user_key.encoded().as_slice(),
            );
            proof {
                let p = self.write_cursor.position();
                lemma_user_key_eq(s[p], u, on_current);
                assert(is_version_of(s[p_before], u));
                assert(below_upper(self.write_cursor.cur_key(), self.upper_limit())) by {
                    assert(lex_lt(s[p].key, s[p_before].key));
                    if self.upper_limit() is Some {
                        crate::order::lemma_lex_lt_trans(
                            s[p].key,
                            s[p_before].key,
                            self.upper_limit().unwrap(),
                        );
                    }
                }
            }
        }
        if !on_current {
            // Found another user key; done.
            return Ok(());
        }
        // Still on the same user key after the step budget: one backward
        // seek lands strictly below every version of it.
        proof {
            assert(user_of(s[p0 - steps].key) == u);
            assert(is_version_of(s[p0], u)) by {
                if steps == 0 {
                    assert(s[p0].key.len() >= TS_LEN);
                }
            }
        }
        self.write_cursor.internal_seek_for_prev(current_user_key, &mut self.statistics.write);
        proof {
            let wc = self.write_cursor;
            let thi = ts_of(s[p0].key);
            assert(is_version_of(s[p0], u));
            crate::key::lemma_key_decompose(s[p0].key);
            assert forall|idx: int| Self::passed_from(wc) < idx <= p0 implies is_version_of(
                #[trigger] s[idx],
                u,
            ) by {
                if wc.is_valid() && idx <= wc.position() {
                } else {
                    // Above the landing point every key is strictly above
                    // the bare user key, and at or below position `p0` it is
                    // no higher than that key's oldest version.
                    assert(lex_lt(u, s[idx].key));
                    assert(s[idx].key.len() >= TS_LEN);
                    crate::key::lemma_key_decompose(s[idx].key);
                    if idx < p0 {
                        assert(lex_lt(s[idx].key, s[p0].key));
                    }
                    assert(!lex_lt(s[p0].key, s[idx].key)) by {
                        if idx < p0 {
                            crate::order::lemma_lex_lt_asym(s[idx].key, s[p0].key);
                        } else {
                            crate::order::lemma_lex_lt_irrefl(s[p0].key);
                        }
                    }
                    crate::key::lemma_between_user_and_composite(
                        u,
                        thi,
                        user_of(s[idx].key),
                        ts_of(s[idx].key),
                    );
                }
            }
            if wc.is_valid() {
                let p = wc.position();
                assert(lex_le(s[p].key, u));
                assert(user_of(wc.cur_key()) != u) by {
                    crate::key::lemma_key_decompose(s[p].key);
                    if user_of(s[p].key) == u {
                        crate::key::lemma_user_lt_composite(u, ts_of(s[p].key));
                        crate::order::lemma_lex_le_lt_trans(s[p].key, u, s[p].key);
                        crate::order::lemma_lex_lt_irrefl(s[p].key);
                    }
                }
                assert(p <= p0) by {
                    if p > p0 {
                        assert(lex_lt(s[p0].key, s[p].key));
                        assert(lex_lt(u, s[p0].key)) by {
                            crate::key::lemma_user_lt_composite(u, thi);
                        }
                        crate::order::lemma_lex_lt_trans(u, s[p0].key, s[p].key);
                        crate::order::lemma_lex_le_lt_trans(s[p].key, u, s[p].key);
                        crate::order::lemma_lex_lt_irrefl(s[p].key);
                    }
                }
                assert(below_upper(wc.cur_key(), self.upper_limit())) by {
                    assert(below_upper(s[p0].key, self.upper_limit()));
                    if self.upper_limit() is Some {
                        assert(lex_lt(u, s[p0].key)) by {
                            crate::key::lemma_user_lt_composite(u, thi);
                        }
                        crate::order::lemma_lex_le_lt_trans(s[p].key, u, s[p0].key);
                        crate::order::lemma_lex_lt_trans(
                            s[p].key,
                            s[p0].key,
                            self.upper_limit().unwrap(),
                        );
                    }
                }
            }
        }
        Ok(())
    }
}

pub open spec fn opt_bytes_view(o: Option<Vec<u8>>) -> Option<Seq<u8>> {
    match o {
        None => None,
        Some(v) => Some(v@),
    }
}

impl BackwardScanner {
    /// Get the value of `user_key` as of `ts`, given that the write cursor
    /// points at the oldest in-range version of `user_key`.
    ///
    /// First walks backward — toward newer versions — up to
    /// `REVERSE_SEEK_BOUND` times, remembering the newest committed put or
    /// delete seen at or below `ts`. Only when a newer acceptable version
    /// may still exist does it pay for one seek to `(user_key, ts)` and
    /// walk forward from there.
    #[verifier::rlimit(100)]
    fn reverse_get(&mut self, user_key: &Key, ts: u64, met_prev_user_key: &mut bool) -> (r: Result<
        Option<Vec<u8>>,
        Error,
    >)
        requires
            old(self).wf_core(),
            old(self).write_cursor.is_valid(),
            user_of(old(self).write_cursor.cur_key()) == user_key@,
            *old(met_prev_user_key) == false,
            // everything above the cursor is out of range or belongs to a
            // strictly greater user key
            forall|idx: int|
                old(self).write_cursor.position() < idx < old(self).write_cursor@.len()
                    ==> !below_upper(
                    (#[trigger] old(self).write_cursor@[idx]).key,
                    old(self).upper_limit(),
                ) || lex_lt(user_key@, user_of(old(self).write_cursor@[idx].key)),
            // every version of this user key lies below the upper bound
            forall|idx: int|
                0 <= idx < old(self).write_cursor@.len() && user_of(
                    (#[trigger] old(self).write_cursor@[idx]).key,
                ) == user_key@ ==> below_upper(
                    old(self).write_cursor@[idx].key,
                    old(self).upper_limit(),
                ),
        ensures
            final(self).wf_core(),
            unchanged_but_write_and_default(*old(self), *final(self)),
            final(self).write_cursor@ == old(self).write_cursor@,
            final(self).write_cursor.upper_view() == old(self).write_cursor.upper_view(),
            final(self).statistics.lock == old(self).statistics.lock,
            old(self).statistics.write.prev <= final(self).statistics.write.prev <= old(
                self,
            ).statistics.write.prev + (REVERSE_SEEK_BOUND - 1),
            old(self).statistics.write.seek <= final(self).statistics.write.seek <= old(
                self,
            ).statistics.write.seek + 1,
            final(self).statistics.write.seek_for_prev == old(
                self,
            ).statistics.write.seek_for_prev,
            // the cursor never moves above its starting position
            final(self).write_cursor.is_valid() ==> final(self).write_cursor.position() <= old(
                self,
            ).write_cursor.position(),
            // everything above the final position is out of range or belongs
            // to this or a greater user key
            forall|idx: int|
                Self::passed_from(final(self).write_cursor) < idx < old(self).write_cursor@.len()
                    ==> !below_upper(
                    (#[trigger] old(self).write_cursor@[idx]).key,
                    old(self).upper_limit(),
                ) || lex_le(user_key@, user_of(old(self).write_cursor@[idx].key)),
            // whether the cursor already reached a previous user key
            *final(met_prev_user_key) ==> final(self).write_cursor.is_valid() && lex_lt(
                user_of(final(self).write_cursor.cur_key()),
                user_key@,
            ),
            !*final(met_prev_user_key) ==> !final(self).write_cursor.is_valid() || user_of(
                final(self).write_cursor.cur_key(),
            ) == user_key@,
            // the value returned is the one the newest visible version
            // prescribes
            all_versions_parse(old(self).write_cursor@, user_key@, ts) ==> match r {
                Ok(opt) => get_outcome_ok(
                    old(self).write_cursor@,
                    old(self).default_entries(),
                    user_key@,
                    ts,
                    old(self).omit_value,
                    opt_bytes_view(opt),
                ),
                Err(e) => e is ValueNotFound && exists|i: int|
                    #[trigger] newest_visible_at(old(self).write_cursor@, user_key@, ts, i)
                        && spec_parse_write(old(self).write_cursor@[i].value).unwrap().write_type
                        == WriteType::Put && value_missing(
                        old(self).default_entries(),
                        user_key@,
                        spec_parse_write(old(self).write_cursor@[i].value).unwrap(),
                        old(self).omit_value,
                    ),
            },
            // each error has its cause, whether or not the history decodes
            match r {
                Err(e) => {
                    ||| (e is MalformedWrite && !all_versions_parse(
                        old(self).write_cursor@,
                        user_key@,
                        ts,
                    ))
                    ||| (e is ValueNotFound && exists|i: int|
                        #[trigger] newest_visible_at(old(self).write_cursor@, user_key@, ts, i)
                            && spec_parse_write(
                            old(self).write_cursor@[i].value,
                        ).unwrap().write_type == WriteType::Put && value_missing(
                            old(self).default_entries(),
                            user_key@,
                            spec_parse_write(old(self).write_cursor@[i].value).unwrap(),
                            old(self).omit_value,
                        ))
                },
                Ok(_) => true,
            },
            old(self).omit_value ==> match r {
                Ok(opt) => opt is Some ==> opt.unwrap()@.len() == 0,
                Err(_) => true,
            },
            // the default cursor, once created, stays
            old(self).default_cursor is Some ==> final(self).default_cursor is Some,
            // counter discipline: processed only grows, and the forward
            // steps taken are covered by the records processed
            old(self).statistics.write.processed <= final(self).statistics.write.processed,
            final(self).statistics.write.processed == usize::MAX
                || final(self).statistics.write.next - old(self).statistics.write.next <= final(
            self).statistics.write.processed - old(self).statistics.write.processed,
    {
        let ghost s = self.write_cursor@;
        let ghost u = user_key@;
        let ghost up = self.upper_limit();
        let ghost d = self.default_entries();
        let ghost p0 = self.write_cursor.position();

        let mut last_version: Option<Write> = None;
        let mut last_checked_commit_ts: u64 = 0;
        let ghost mut lv_idx: int = 0;
        let ghost mut lo: int = p0 + 1;

        let mut i: u64 = 0;
        while i < REVERSE_SEEK_BOUND
            invariant
                old(self).wf_core(),
                self.wf_core(),
                unchanged_but_write_and_default(*old(self), *self),
                self.default_cursor == old(self).default_cursor,
                s == old(self).write_cursor@,
                u == user_key@,
                up == old(self).upper_limit(),
                d == old(self).default_entries(),
                p0 == old(self).write_cursor.position(),
                old(self).write_cursor.is_valid(),
                user_of(s[p0].key) == u,
                forall|idx: int|
                    p0 < idx < s.len() ==> !below_upper((#[trigger] s[idx]).key, up) || lex_lt(
                        u,
                        user_of(s[idx].key),
                    ),
                forall|idx: int|
                    0 <= idx < s.len() && user_of((#[trigger] s[idx]).key) == u ==> below_upper(
                        s[idx].key,
                        up,
                    ),
                *met_prev_user_key == false,
                self.write_cursor@ == s,
                self.write_cursor.upper_view() == old(self).write_cursor.upper_view(),
                self.write_cursor.is_valid(),
                0 <= i <= REVERSE_SEEK_BOUND,
                i == 0 ==> self.write_cursor.position() == p0 && lo == p0 + 1,
                i >= 1 ==> self.write_cursor.position() == p0 - (i - 1) && lo
                    == self.write_cursor.position(),
                lo <= p0 + 1,
                // the examined region holds only versions of `u`, readable
                // at `ts` and well-formed
                forall|idx: int|
                    lo <= idx <= p0 ==> user_of((#[trigger] s[idx]).key) == u && entry_ts(s[idx])
                        <= ts && spec_parse_write(s[idx].value) is Some,
                i >= 1 ==> last_checked_commit_ts == entry_ts(s[lo]),
                // the recorded version is the newest visible one examined
                match last_version {
                    None => forall|idx: int|
                        lo <= idx <= p0 ==> !is_visible_version(#[trigger] s[idx], u, ts),
                    Some(w) => (w@.write_type == WriteType::Put || w@.write_type
                        == WriteType::Delete) && lo <= lv_idx <= p0 && is_visible_version(
                        s[lv_idx],
                        u,
                        ts,
                    ) && spec_parse_write(s[lv_idx].value) == Some(w@) && forall|j: int|
                        lo <= j < lv_idx ==> !is_visible_version(#[trigger] s[j], u, ts),
                },
                user_of(self.write_cursor.cur_key()) == u,
                self.statistics.write.seek == old(self).statistics.write.seek,
                self.statistics.write.seek_for_prev == old(self).statistics.write.seek_for_prev,
                self.statistics.write.next == old(self).statistics.write.next,
                old(self).statistics.write.processed <= self.statistics.write.processed,
                old(self).statistics.write.prev <= self.statistics.write.prev <= old(
                    self,
                ).statistics.write.prev + (if i == 0 {
                    0int
                } else {
                    i - 1
                }),
                self.statistics.lock == old(self).statistics.lock,
            decreases REVERSE_SEEK_BOUND - i,
        {
            if i > 0 {
                let ghost p_before = self.write_cursor.position();
                self.write_cursor.prev(&mut self.statistics.write);
                if !self.write_cursor.valid() {
                    // Key space ended: whatever was recorded decides.
                    proof {
                        assert(p_before == 0);
                        assert(lo == 0);
                        lemma_visible_only_examined(s, u, ts, up, 0, p0);
                    }
                    let ghost had_version = last_version is Some;
                    let r = self.handle_last_version(last_version, user_key);
                    proof {
                        if had_version {
                            assert(newest_visible_at(s, u, ts, lv_idx));
                        } else {
                            assert(no_visible(s, u, ts));
                        }
                    }
                    return r;
                }
                proof {
                    assert(below_upper(self.write_cursor.cur_key(), up)) by {
                        let p = self.write_cursor.position();
                        assert(lex_lt(s[p].key, s[p_before].key));
                        if up is Some {
                            crate::order::lemma_lex_lt_trans(
                                s[p].key,
                                s[p_before].key,
                                up.unwrap(),
                            );
                        }
                    }
                }
            }
            let ghost q = self.write_cursor.position();
            let kts = match Key::decode_ts_from(self.write_cursor.key().as_slice()) {
                Ok(t) => t,
                Err(e) => {
                    proof {
                        assert(s[q].key.len() >= TS_LEN);
                        assert(false);
                    }
                    return Err(e);
                },
            };
            last_checked_commit_ts = kts;
            let on_current = Key::is_user_key_eq(
                self.write_cursor.key().as_slice(),
                user_key.encoded().as_slice(),
            );
            proof {
                lemma_user_key_eq(s[q], u, on_current);
            }
            if !on_current {
                // Met another user key: everything of `u` has been examined.
                *met_prev_user_key = true;
                proof {
                    assert(i >= 1);
                    assert(user_of(s[q + 1].key) == u);
                    crate::key::lemma_key_decompose(s[q].key);
                    crate::key::lemma_key_decompose(s[q + 1].key);
                    assert(lex_lt(s[q].key, s[q + 1].key));
                    crate::key::lemma_composite_diff_user(
                        user_of(s[q].key),
                        ts_of(s[q].key),
                        u,
                        ts_of(s[q + 1].key),
                    );
                    lemma_no_user_below(s, u, q);
                    lemma_visible_only_examined(s, u, ts, up, q + 1, p0);
                }
                let ghost had_version = last_version is Some;
                let r = self.handle_last_version(last_version, user_key);
                proof {
                    if had_version {
                        assert(newest_visible_at(s, u, ts, lv_idx));
                    } else {
                        assert(no_visible(s, u, ts));
                    }
                }
                return r;
            }
            if kts > ts {
                // Stepped past the newest acceptable version.
                proof {
                    crate::key::lemma_key_decompose(s[q].key);
                    lemma_newer_below(s, u, q, ts);
                    lemma_visible_only_examined_low(s, u, ts, up, q, p0);
                }
                let ghost had_version = last_version is Some;
                let r = self.handle_last_version(last_version, user_key);
                proof {
                    if had_version {
                        assert(newest_visible_at(s, u, ts, lv_idx));
                    } else {
                        assert(no_visible(s, u, ts));
                    }
                }
                return r;
            }
            let write = match Write::parse(self.write_cursor.value().as_slice()) {
                Ok(w) => w,
                Err(e) => {
                    proof {
                        assert(is_version_of(s[q], u) && entry_ts(s[q]) <= ts);
                        assert(!all_versions_parse(s, u, ts));
                    }
                    return Err(e);
                },
            };
            self.statistics.write.processed = bump(self.statistics.write.processed);
            match write.write_type {
                WriteType::Put | WriteType::Delete => {
                    proof {
                        lv_idx = q;
                    }
                    last_version = Some(write);
                },
                WriteType::Lock | WriteType::Rollback => {
                    proof {
                        assert(!is_visible_version(s[q], u, ts));
                    }
                },
            }
            proof {
                lo = q;
            }
            i = i + 1;
        }
        // The cursor sits on a version at or below `ts`. If it is exactly at
        // `ts`, no newer acceptable version can exist.
        let ghost qf = self.write_cursor.position();
        if last_checked_commit_ts == ts {
            proof {
                crate::key::lemma_key_decompose(s[qf].key);
                lemma_newer_below_eq(s, u, qf, ts);
                lemma_visible_only_examined_low(s, u, ts, up, qf, p0);
            }
            let ghost had_version = last_version is Some;
            let r = self.handle_last_version(last_version, user_key);
            proof {
                if had_version {
                    assert(newest_visible_at(s, u, ts, lv_idx));
                } else {
                    assert(no_visible(s, u, ts));
                }
            }
            return r;
        }
        proof {
            assert(last_checked_commit_ts < ts);
        }
        // A version with a commit timestamp in
        // `(last_checked_commit_ts, ts]` may still exist: seek to
        // `(user_key, ts)` — the newest version at or below `ts` — and walk
        // forward toward older versions from there.
        let seek_key = user_key.clone().append_ts(ts);
        proof {
            crate::key::lemma_key_decompose(s[qf].key);
            crate::key::lemma_composite_same_user(u, ts, ts_of(s[qf].key));
            assert(lex_le(seek_key@, s[qf].key));
        }
        self.write_cursor.internal_seek(&seek_key, &mut self.statistics.write);
        proof {
            assert(self.write_cursor.is_valid()) by {
                if !self.write_cursor.is_valid() {
                    assert(lex_lt(s[qf].key, seek_key@) || !below_upper(s[qf].key, up));
                    crate::order::lemma_lex_lt_asym(s[qf].key, seek_key@);
                    crate::order::lemma_lex_lt_irrefl(s[qf].key);
                }
            }
            let p1 = self.write_cursor.position();
            assert(p1 <= qf) by {
                if p1 > qf {
                    assert(lex_lt(s[qf].key, seek_key@));
                    crate::order::lemma_lex_lt_asym(s[qf].key, seek_key@);
                    crate::order::lemma_lex_lt_irrefl(s[qf].key);
                }
            }
            assert(user_of(s[p1].key) == u) by {
                crate::key::lemma_key_decompose(s[p1].key);
                assert(!lex_lt(s[p1].key, seek_key@)) by {
                    if lex_lt(s[p1].key, seek_key@) {
                        crate::order::lemma_lex_le_lt_trans(seek_key@, s[p1].key, seek_key@);
                        crate::order::lemma_lex_lt_irrefl(seek_key@);
                    }
                }
                assert(!lex_lt(s[qf].key, s[p1].key)) by {
                    if p1 < qf {
                        assert(lex_lt(s[p1].key, s[qf].key));
                        crate::order::lemma_lex_lt_asym(s[p1].key, s[qf].key);
                    } else {
                        crate::order::lemma_lex_lt_irrefl(s[qf].key);
                    }
                }
                crate::key::lemma_between_composites(
                    u,
                    ts,
                    ts_of(s[qf].key),
                    user_of(s[p1].key),
                    ts_of(s[p1].key),
                );
            }
            // everything strictly below the landing point is too new
            assert forall|j: int|
                0 <= j < p1 && user_of((#[trigger] s[j]).key) == u implies entry_ts(s[j]) > ts by {
                if entry_ts(s[j]) <= ts {
                    crate::key::lemma_key_decompose(s[j].key);
                    crate::key::lemma_composite_same_user(u, ts_of(s[j].key), ts);
                    assert(lex_lt(s[j].key, seek_key@));
                    crate::order::lemma_lex_lt_asym(s[j].key, seek_key@);
                }
            }
            // everything from the landing point up to the start belongs to
            // this user key
            crate::key::lemma_key_decompose(s[p1].key);
            assert forall|idx: int| p1 <= idx <= p0 implies user_of((#[trigger] s[idx]).key)
                == u by {
                if p1 < idx && idx < qf {
                    crate::key::lemma_key_decompose(s[idx].key);
                    assert(lex_lt(s[p1].key, s[idx].key));
                    assert(lex_lt(s[idx].key, s[qf].key));
                    crate::order::lemma_lex_lt_asym(s[p1].key, s[idx].key);
                    crate::order::lemma_lex_lt_asym(s[idx].key, s[qf].key);
                    crate::key::lemma_between_composites(
                        u,
                        ts_of(s[p1].key),
                        ts_of(s[qf].key),
                        user_of(s[idx].key),
                        ts_of(s[idx].key),
                    );
                }
            }
        }
        let ghost p1 = self.write_cursor.position();
        loop
            invariant
                old(self).wf_core(),
                self.wf_core(),
                unchanged_but_write_and_default(*old(self), *self),
                self.default_cursor == old(self).default_cursor,
                s == old(self).write_cursor@,
                u == user_key@,
                up == old(self).upper_limit(),
                d == old(self).default_entries(),
                p0 == old(self).write_cursor.position(),
                old(self).write_cursor.is_valid(),
                user_of(s[p0].key) == u,
                forall|idx: int|
                    p0 < idx < s.len() ==> !below_upper((#[trigger] s[idx]).key, up) || lex_lt(
                        u,
                        user_of(s[idx].key),
                    ),
                forall|idx: int|
                    0 <= idx < s.len() && user_of((#[trigger] s[idx]).key) == u ==> below_upper(
                        s[idx].key,
                        up,
                    ),
                *met_prev_user_key == false,
                self.write_cursor@ == s,
                self.write_cursor.upper_view() == old(self).write_cursor.upper_view(),
                self.write_cursor.is_valid(),
                0 <= p1 <= self.write_cursor.position() <= qf <= p0,
                qf == p0 - (REVERSE_SEEK_BOUND - 1),
                lo == qf,
                user_of(self.write_cursor.cur_key()) == u,
                last_checked_commit_ts == entry_ts(s[qf]),
                last_checked_commit_ts < ts,
                // examined region of the first phase
                forall|idx: int|
                    qf <= idx <= p0 ==> user_of((#[trigger] s[idx]).key) == u && entry_ts(s[idx])
                        <= ts && spec_parse_write(s[idx].value) is Some,
                match last_version {
                    None => forall|idx: int|
                        qf <= idx <= p0 ==> !is_visible_version(#[trigger] s[idx], u, ts),
                    Some(w) => (w@.write_type == WriteType::Put || w@.write_type
                        == WriteType::Delete) && qf <= lv_idx <= p0 && is_visible_version(
                        s[lv_idx],
                        u,
                        ts,
                    ) && spec_parse_write(s[lv_idx].value) == Some(w@) && forall|j: int|
                        qf <= j < lv_idx ==> !is_visible_version(#[trigger] s[j], u, ts),
                },
                // nothing below the landing point is visible
                forall|j: int|
                    0 <= j < p1 && user_of((#[trigger] s[j]).key) == u ==> entry_ts(s[j]) > ts,
                forall|idx: int| p1 <= idx <= p0 ==> user_of((#[trigger] s[idx]).key) == u,
                lex_le(composite(u, ts), s[p1].key),
                // entries walked over since the landing point are lock or
                // rollback records
                forall|j: int|
                    p1 <= j < self.write_cursor.position() ==> spec_parse_write(
                        (#[trigger] s[j]).value,
                    ) is Some && !is_visible_version(s[j], u, ts),
                old(self).statistics.write.seek <= self.statistics.write.seek <= old(
                    self,
                ).statistics.write.seek + 1,
                self.statistics.write.seek_for_prev == old(self).statistics.write.seek_for_prev,
                old(self).statistics.write.prev <= self.statistics.write.prev <= old(
                    self,
                ).statistics.write.prev + (REVERSE_SEEK_BOUND - 1),
                old(self).statistics.write.processed <= self.statistics.write.processed,
                self.statistics.write.processed == usize::MAX || self.statistics.write.next - old(
                    self,
                ).statistics.write.next <= self.statistics.write.processed - old(
                    self,
                ).statistics.write.processed,
                self.statistics.lock == old(self).statistics.lock,
            decreases qf - self.write_cursor.position(),
        {
            let ghost q = self.write_cursor.position();
            let cts = match Key::decode_ts_from(self.write_cursor.key().as_slice()) {
                Ok(t) => t,
                Err(e) => {
                    proof {
                        assert(s[q].key.len() >= TS_LEN);
                        assert(false);
                    }
                    return Err(e);
                },
            };
            if cts <= last_checked_commit_ts {
                // Re-entered the region the first phase already walked.
                proof {
                    assert(q >= qf) by {
                        if q < qf {
                            crate::key::lemma_key_decompose(s[q].key);
                            crate::key::lemma_key_decompose(s[qf].key);
                            assert(lex_lt(s[q].key, s[qf].key));
                            crate::key::lemma_composite_same_user(u, ts_of(s[q].key), ts_of(
                                s[qf].key,
                            ));
                        }
                    }
                    assert(q == qf);
                    // everything below the landing point is too new, and what
                    // the forward walk passed over was a lock or a rollback
                    assert forall|idx: int| 0 <= idx < s.len() && !(qf <= idx <= p0) implies
                        !is_visible_version(#[trigger] s[idx], u, ts) by {
                        if idx > p0 && user_of(s[idx].key) == u {
                            crate::order::lemma_lex_lt_irrefl(u);
                        }
                    }
                }
                let ghost had_version = last_version is Some;
                let r = self.handle_last_version(last_version, user_key);
                proof {
                    if had_version {
                        assert(newest_visible_at(s, u, ts, lv_idx));
                    } else {
                        assert(no_visible(s, u, ts));
                    }
                }
                return r;
            }
            proof {
                assert(q < qf) by {
                    if q >= qf {
                        if q > qf {
                            crate::key::lemma_key_decompose(s[q].key);
                            crate::key::lemma_key_decompose(s[qf].key);
                            assert(lex_lt(s[qf].key, s[q].key));
                            crate::key::lemma_composite_same_user(u, ts_of(s[qf].key), ts_of(
                                s[q].key,
                            ));
                        }
                    }
                }
                assert(entry_ts(s[q]) <= ts) by {
                    crate::key::lemma_key_decompose(s[q].key);
                    assert(lex_le(composite(u, ts), s[q].key)) by {
                        if q > p1 {
                            assert(lex_lt(s[p1].key, s[q].key));
                            crate::order::lemma_lex_le_lt_trans(
                                composite(u, ts),
                                s[p1].key,
                                s[q].key,
                            );
                        }
                    }
                    if entry_ts(s[q]) > ts {
                        crate::key::lemma_composite_same_user(u, ts_of(s[q].key), ts);
                        crate::order::lemma_lex_le_lt_trans(
                            composite(u, ts),
                            s[q].key,
                            composite(u, ts),
                        );
                        crate::order::lemma_lex_lt_irrefl(composite(u, ts));
                    }
                }
            }
            let write = match Write::parse(self.write_cursor.value().as_slice()) {
                Ok(w) => w,
                Err(e) => {
                    proof {
                        assert(is_version_of(s[q], u) && entry_ts(s[q]) <= ts);
                        assert(!all_versions_parse(s, u, ts));
                    }
                    return Err(e);
                },
            };
            self.statistics.write.processed = bump(self.statistics.write.processed);
            match write.write_type {
                WriteType::Put => {
                    proof {
                        assert(newest_visible_at(s, u, ts, q)) by {
                            assert forall|j: int| 0 <= j < q implies !is_visible_version(
                                #[trigger] s[j],
                                u,
                                ts,
                            ) by {}
                        }
                    }
                    let loaded = self.reverse_load_data_by_write(write, user_key);
                    match loaded {
                        Ok(v) => {
                            return Ok(Some(v));
                        },
                        Err(e) => {
                            return Err(e);
                        },
                    }
                },
                WriteType::Delete => {
                    proof {
                        assert(newest_visible_at(s, u, ts, q)) by {
                            assert forall|j: int| 0 <= j < q implies !is_visible_version(
                                #[trigger] s[j],
                                u,
                                ts,
                            ) by {}
                        }
                    }
                    return Ok(None);
                },
                WriteType::Lock | WriteType::Rollback => {
                    // Not a committed version; look at the next older one.
                    self.write_cursor.next(&mut self.statistics.write);
                    proof {
                        assert(q + 1 <= qf);
                        assert(user_of(s[q + 1].key) == u);
                        assert(below_upper(s[q + 1].key, up));
                        assert(self.write_cursor.is_valid());
                        assert(!is_visible_version(s[q], u, ts));
                    }
                },
            }
        }
    }
}

/// Everything of a scanner but its write and default cursors and their
/// statistics is unchanged.
spec fn unchanged_but_write_and_default(a: BackwardScanner, b: BackwardScanner) -> bool {
    &&& b.read_ts() == a.read_ts()
    &&& b.omits_value() == a.omits_value()
    &&& b.iso_level() == a.iso_level()
    &&& b.lower_limit() == a.lower_limit()
    &&& b.upper_limit() == a.upper_limit()
    &&& b.last_user_key() == a.last_user_key()
    &&& b.lock_cursor == a.lock_cursor
    &&& b.is_started == a.is_started
    &&& b.snapshot == a.snapshot
    &&& b.lower_bound == a.lower_bound
    &&& b.upper_bound == a.upper_bound
    &&& b.statistics.lock == a.statistics.lock
}

/// Versions of `u` can only sit next to each other: below an entry of a
/// different user key that itself sits below a version of `u`, no further
/// version of `u` appears.
proof fn lemma_no_user_below(s: Seq<EntryView>, u: Seq<u8>, q: int)
    requires
        sorted_entries(s),
        composite_keys_wf(s),
        0 <= q,
        q + 1 < s.len(),
        user_of(s[q + 1].key) == u,
        user_of(s[q].key) != u,
    ensures
        forall|idx: int| 0 <= idx <= q ==> user_of((#[trigger] s[idx]).key) != u,
        forall|idx: int| 0 <= idx <= q ==> lex_lt(user_of((#[trigger] s[idx]).key), u),
{
    crate::key::lemma_key_decompose(s[q].key);
    crate::key::lemma_key_decompose(s[q + 1].key);
    assert(lex_lt(user_of(s[q].key), u)) by {
        assert(lex_lt(s[q].key, s[q + 1].key));
        crate::key::lemma_composite_diff_user(
            user_of(s[q].key),
            ts_of(s[q].key),
            u,
            ts_of(s[q + 1].key),
        );
    }
    assert forall|idx: int| 0 <= idx <= q implies user_of((#[trigger] s[idx]).key) != u && lex_lt(
        user_of(s[idx].key),
        u,
    ) by {
        crate::key::lemma_key_decompose(s[idx].key);
        if idx == q {
        } else {
            assert(lex_lt(s[idx].key, s[q].key));
            if user_of(s[idx].key) == u {
                // a version of `u` below `s[q]` would squeeze `s[q]` between
                // two versions of `u`
                crate::order::lemma_lex_lt_asym(s[q].key, s[q + 1].key);
                crate::order::lemma_lex_lt_asym(s[idx].key, s[q].key);
                crate::key::lemma_between_composites(
                    u,
                    ts_of(s[idx].key),
                    ts_of(s[q + 1].key),
                    user_of(s[q].key),
                    ts_of(s[q].key),
                );
            }
            if user_of(s[idx].key) == user_of(s[q].key) {
            } else {
                assert(lex_lt(user_of(s[idx].key), user_of(s[q].key))) by {
                    crate::key::lemma_composite_diff_user(
                        user_of(s[idx].key),
                        ts_of(s[idx].key),
                        user_of(s[q].key),
                        ts_of(s[q].key),
                    );
                }
                crate::order::lemma_lex_lt_trans(
                    user_of(s[idx].key),
                    user_of(s[q].key),
                    u,
                );
            }
        }
    }
}

/// When no version of `u` exists outside `[lo, hi]`, a version recorded as
/// newest visible there is newest visible over the whole store.
proof fn lemma_visible_only_examined(
    s: Seq<EntryView>,
    u: Seq<u8>,
    ts: u64,
    up: Option<Seq<u8>>,
    lo: int,
    hi: int,
)
    requires
        forall|idx: int| 0 <= idx < lo ==> user_of((#[trigger] s[idx]).key) != u,
        forall|idx: int|
            hi < idx < s.len() ==> !below_upper((#[trigger] s[idx]).key, up) || lex_lt(
                u,
                user_of(s[idx].key),
            ),
        forall|idx: int|
            0 <= idx < s.len() && user_of((#[trigger] s[idx]).key) == u ==> below_upper(
                s[idx].key,
                up,
            ),
    ensures
        forall|idx: int|
            0 <= idx < s.len() && !(lo <= idx <= hi) ==> !is_visible_version(
                #[trigger] s[idx],
                u,
                ts,
            ),
{
    assert forall|idx: int| 0 <= idx < s.len() && !(lo <= idx <= hi) implies !is_visible_version(
        #[trigger] s[idx],
        u,
        ts,
    ) by {
        if idx > hi && user_of(s[idx].key) == u {
            crate::order::lemma_lex_lt_irrefl(u);
        }
    }
}

/// Entries below a version of `u` are newer versions of `u` or other user
/// keys entirely, so when the version at `lo` is already newer than any
/// acceptable one — or exactly at the read timestamp — nothing below `lo`
/// is visible.
proof fn lemma_newer_below(s: Seq<EntryView>, u: Seq<u8>, lo: int, ts: u64)
    requires
        sorted_entries(s),
        composite_keys_wf(s),
        0 <= lo < s.len(),
        user_of(s[lo].key) == u,
        entry_ts(s[lo]) > ts,
    ensures
        forall|idx: int| 0 <= idx <= lo ==> !is_visible_version(#[trigger] s[idx], u, ts),
{
    assert forall|idx: int| 0 <= idx <= lo implies !is_visible_version(#[trigger] s[idx], u, ts) by {
        if user_of(s[idx].key) == u && idx < lo {
            crate::key::lemma_key_decompose(s[idx].key);
            crate::key::lemma_key_decompose(s[lo].key);
            assert(lex_lt(s[idx].key, s[lo].key));
            crate::key::lemma_composite_same_user(u, ts_of(s[idx].key), ts_of(s[lo].key));
        }
    }
}

/// Like `lemma_newer_below`, for a version exactly at the read timestamp:
/// everything strictly below it is too new.
proof fn lemma_newer_below_eq(s: Seq<EntryView>, u: Seq<u8>, lo: int, ts: u64)
    requires
        sorted_entries(s),
        composite_keys_wf(s),
        0 <= lo < s.len(),
        user_of(s[lo].key) == u,
        entry_ts(s[lo]) == ts,
    ensures
        forall|idx: int| 0 <= idx < lo ==> !is_visible_version(#[trigger] s[idx], u, ts),
{
    assert forall|idx: int| 0 <= idx < lo implies !is_visible_version(#[trigger] s[idx], u, ts) by {
        if user_of(s[idx].key) == u {
            crate::key::lemma_key_decompose(s[idx].key);
            crate::key::lemma_key_decompose(s[lo].key);
            assert(lex_lt(s[idx].key, s[lo].key));
            crate::key::lemma_composite_same_user(u, ts_of(s[idx].key), ts_of(s[lo].key));
        }
    }
}

/// Everything visible lies in `[lo, hi]` when the entry at `lo` is a version
/// of `u` at or below the read timestamp and nothing above `hi` belongs to
/// `u`.
proof fn lemma_visible_only_examined_low(
    s: Seq<EntryView>,
    u: Seq<u8>,
    ts: u64,
    up: Option<Seq<u8>>,
    lo: int,
    hi: int,
)
    requires
        sorted_entries(s),
        composite_keys_wf(s),
        0 <= lo < s.len(),
        lo <= hi,
        user_of(s[lo].key) == u,
        forall|idx: int|
            hi < idx < s.len() ==> !below_upper((#[trigger] s[idx]).key, up) || lex_lt(
                u,
                user_of(s[idx].key),
            ),
        forall|idx: int|
            0 <= idx < s.len() && user_of((#[trigger] s[idx]).key) == u ==> below_upper(
                s[idx].key,
                up,
            ),
        entry_ts(s[lo]) >= ts,
    ensures
        forall|idx: int|
            0 <= idx < s.len() && !(lo <= idx <= hi) ==> !is_visible_version(
                #[trigger] s[idx],
                u,
                ts,
            ),
{
    assert forall|idx: int| 0 <= idx < s.len() && !(lo <= idx <= hi) implies !is_visible_version(
        #[trigger] s[idx],
        u,
        ts,
    ) by {
        if idx > hi && user_of(s[idx].key) == u {
            crate::order::lemma_lex_lt_irrefl(u);
        }
        if idx < lo && user_of(s[idx].key) == u && entry_ts(s[idx]) <= ts {
            crate::key::lemma_key_decompose(s[idx].key);
            crate::key::lemma_key_decompose(s[lo].key);
            assert(lex_lt(s[idx].key, s[lo].key));
            crate::key::lemma_composite_same_user(u, ts_of(s[idx].key), ts_of(s[lo].key));
        }
    }
}

/// The lock column family holds an entry for `k`.
pub open spec fn has_lock_on(s: Seq<EntryView>, k: Seq<u8>) -> bool {
    exists|i: int| 0 <= i < s.len() && (#[trigger] s[i]).key == k
}

/// A user key whose version stands at or above the lower bound stands there
/// itself, unless the external encoding were broken and the key a strict
/// prefix of the bound.
proof fn lemma_user_above_lower(u: Seq<u8>, t: u64, l: Seq<u8>)
    requires
        lex_le(l, composite(u, t)),
        !is_strict_prefix(u, l),
    ensures
        lex_le(l, u),
{
    crate::order::lemma_lex_total(u, l);
    if lex_lt(u, l) {
        crate::order::lemma_squeeze_prefix(u, l, crate::key::ts_suffix(t));
        if u.len() == l.len() {
            assert(u =~= l);
            crate::order::lemma_lex_lt_irrefl(u);
        }
    }
}

/// A user key with a version below the upper bound lies below it itself.
proof fn lemma_user_below_upper(u: Seq<u8>, t: u64, up: Seq<u8>)
    requires
        lex_lt(composite(u, t), up),
    ensures
        lex_lt(u, up),
{
    crate::order::lemma_prefix_le(u, crate::key::ts_suffix(t));
    crate::order::lemma_lex_le_lt_trans(u, composite(u, t), up);
}

/// One user key's versions never straddle the upper bound: with one version
/// below it, every version is below it.
proof fn lemma_versions_same_side(u: Seq<u8>, t_in: u64, t_out: u64, up: Seq<u8>)
    requires
        lex_lt(composite(u, t_in), up),
        !is_strict_prefix(u, up),
    ensures
        lex_lt(composite(u, t_out), up),
{
    lemma_user_below_upper(u, t_in, up);
    if !lex_lt(composite(u, t_out), up) {
        crate::order::lemma_lex_total(composite(u, t_out), up);
        crate::order::lemma_squeeze_prefix(u, up, crate::key::ts_suffix(t_out));
        if u.len() == up.len() {
            assert(u =~= up);
            crate::order::lemma_lex_lt_irrefl(u);
        }
    }
}

/// In a sorted, prefix-free write column family, the user keys of entries
/// at or below a position sort at or below that position's user key.
proof fn lemma_below_top_users(s: Seq<EntryView>, wpos: int)
    requires
        sorted_entries(s),
        composite_keys_wf(s),
        0 <= wpos < s.len(),
    ensures
        forall|idx: int|
            0 <= idx <= wpos ==> lex_le(user_of((#[trigger] s[idx]).key), user_of(s[wpos].key)),
{
    let wt = user_of(s[wpos].key);
    crate::key::lemma_key_decompose(s[wpos].key);
    assert forall|idx: int| 0 <= idx <= wpos implies lex_le(
        user_of((#[trigger] s[idx]).key),
        wt,
    ) by {
        if idx < wpos {
            crate::key::lemma_key_decompose(s[idx].key);
            if user_of(s[idx].key) != wt {
                assert(lex_lt(s[idx].key, s[wpos].key));
                crate::key::lemma_composite_diff_user(
                    user_of(s[idx].key),
                    ts_of(s[idx].key),
                    wt,
                    ts_of(s[wpos].key),
                );
            }
        }
    }
}

/// A user key that only the lock cursor contributed has no write entries at
/// all: nothing below the write cursor can reach up to it, everything above
/// was passed for a greater key or lies beyond the upper bound, and versions
/// beyond the upper bound would make it a strict prefix of that bound.
proof fn lemma_no_stray_versions(
    s: Seq<EntryView>,
    up: Option<Seq<u8>>,
    front: Option<Seq<u8>>,
    cu: Seq<u8>,
    w_valid: bool,
    wpos: int,
)
    requires
        sorted_entries(s),
        composite_keys_wf(s),
        w_valid ==> 0 <= wpos < s.len() && lex_lt(user_of(s[wpos].key), cu),
        forall|idx: int|
            (if w_valid {
                wpos
            } else {
                -1
            }) < idx < s.len() ==> !below_upper((#[trigger] s[idx]).key, up) || (front is Some
                && lex_le(front.unwrap(), user_of(s[idx].key))),
        front is Some ==> lex_lt(cu, front.unwrap()),
        up is Some ==> lex_lt(cu, up.unwrap()),
        forall|j: int|
            0 <= j < s.len() ==> (up is Some ==> !is_strict_prefix(
                user_of((#[trigger] s[j]).key),
                up.unwrap(),
            )),
    ensures
        forall|idx: int| 0 <= idx < s.len() ==> user_of((#[trigger] s[idx]).key) != cu,
{
    if w_valid {
        lemma_below_top_users(s, wpos);
    }
    assert forall|idx: int| 0 <= idx < s.len() implies user_of((#[trigger] s[idx]).key) != cu by {
        if user_of(s[idx].key) == cu {
            if w_valid && idx <= wpos {
                crate::order::lemma_lex_le_lt_trans(
                    user_of(s[idx].key),
                    user_of(s[wpos].key),
                    cu,
                );
                crate::order::lemma_lex_lt_irrefl(cu);
            } else {
                if front is Some && lex_le(front.unwrap(), user_of(s[idx].key)) {
                    crate::order::lemma_lex_lt_le_trans(
                        cu,
                        front.unwrap(),
                        user_of(s[idx].key),
                    );
                    crate::order::lemma_lex_lt_irrefl(cu);
                } else {
                    // the entry would be a version of an in-range key beyond
                    // the upper bound
                    crate::key::lemma_key_decompose(s[idx].key);
                    crate::order::lemma_lex_total(s[idx].key, up.unwrap());
                    crate::order::lemma_squeeze_prefix(
                        cu,
                        up.unwrap(),
                        crate::key::ts_suffix(ts_of(s[idx].key)),
                    );
                    if cu.len() == up.unwrap().len() {
                        assert(cu =~= up.unwrap());
                        crate::order::lemma_lex_lt_irrefl(cu);
                    }
                }
            }
        }
    }
}

/// With one version of a user key below the upper bound and the bound not
/// splitting that key, every version of it lies below the bound.
proof fn lemma_all_versions_in_upper(s: Seq<EntryView>, up: Option<Seq<u8>>, cu: Seq<u8>, wpos: int)
    requires
        composite_keys_wf(s),
        0 <= wpos < s.len(),
        user_of(s[wpos].key) == cu,
        below_upper(s[wpos].key, up),
        forall|j: int|
            0 <= j < s.len() ==> (up is Some ==> !is_strict_prefix(
                user_of((#[trigger] s[j]).key),
                up.unwrap(),
            )),
    ensures
        forall|idx: int|
            0 <= idx < s.len() && user_of((#[trigger] s[idx]).key) == cu ==> below_upper(
                s[idx].key,
                up,
            ),
{
    assert forall|idx: int| 0 <= idx < s.len() && user_of((#[trigger] s[idx]).key) == cu implies
        below_upper(s[idx].key, up) by {
        if !below_upper(s[idx].key, up) {
            crate::key::lemma_key_decompose(s[wpos].key);
            crate::key::lemma_key_decompose(s[idx].key);
            lemma_versions_same_side(cu, ts_of(s[wpos].key), ts_of(s[idx].key), up.unwrap());
        }
    }
}

/// An error raised while processing the key `cu` has its cause in the
/// store, and that store is not readable.
proof fn lemma_error_settles(
    s: Seq<EntryView>,
    d: Seq<EntryView>,
    lc: Seq<EntryView>,
    ts0: u64,
    om: bool,
    iso: IsolationLevel,
    cu: Seq<u8>,
    gts: u64,
    lpos: int,
    lock_error: bool,
    lock_rec: Option<LockRecord>,
    e: Error,
    pre: BackwardScanner,
)
    requires
        pre.write_entries() == s,
        pre.lock_entries() == lc,
        pre.default_entries() == d,
        pre.read_ts() == ts0,
        pre.omits_value() == om,
        pre.iso_level() == iso,
        lock_error ==> {
            &&& iso == IsolationLevel::Si
            &&& 0 <= lpos < lc.len()
            &&& lc[lpos].key == cu
            &&& lock_rec is Some
            &&& crate::lock::spec_parse_lock(lc[lpos].value) == Some(lock_rec.unwrap())
            &&& default_value_of(lc, cu) == Some(lc[lpos].value)
            &&& lock_blocks(cu, ts0, lock_rec.unwrap())
            &&& match e {
                Error::KeyIsLocked(info) => info.key@ == cu && info.primary@
                    == lock_rec.unwrap().primary && info.ts == lock_rec.unwrap().ts && info.ttl
                    == lock_rec.unwrap().ttl,
                _ => false,
            }
        },
        !lock_error ==> {
            ||| (e is MalformedWrite && !all_versions_parse(s, cu, gts))
            ||| (e is ValueNotFound && exists|i: int|
                #[trigger] newest_visible_at(s, cu, gts, i) && spec_parse_write(
                    s[i].value,
                ).unwrap().write_type == WriteType::Put && value_missing(
                    d,
                    cu,
                    spec_parse_write(s[i].value).unwrap(),
                    om,
                ))
        },
    ensures
        error_cause(pre, e),
        !store_readable(s, d, lc, ts0, om, iso),
{
    if lock_error {
        let l = lock_rec.unwrap();
        assert(!store_readable(s, d, lc, ts0, om, iso)) by {
            assert(crate::lock::spec_parse_lock(lc[lpos].value) == Some(l));
        }
    } else {
        if e is ValueNotFound {
            let i = choose|i: int|
                #[trigger] newest_visible_at(s, cu, gts, i) && spec_parse_write(
                    s[i].value,
                ).unwrap().write_type == WriteType::Put && value_missing(
                    d,
                    cu,
                    spec_parse_write(s[i].value).unwrap(),
                    om,
                );
            assert(0 <= i < s.len());
            assert(is_version_of(s[i], cu));
            assert(user_of(s[i].key) == cu);
            let w = spec_parse_write(s[i].value).unwrap();
            assert(spec_parse_write(s[i].value) is Some);
            assert(w.write_type == WriteType::Put && w.short_value is None && default_value_of(
                d,
                composite(cu, w.start_ts),
            ) is None);
            assert(!om);
            assert(exists|i2: int|
                0 <= i2 < s.len() && match spec_parse_write((#[trigger] s[i2]).value) {
                    Some(w2) => w2.write_type == WriteType::Put && w2.short_value is None
                        && default_value_of(
                        d,
                        composite(user_of(s[i2].key), w2.start_ts),
                    ) is None,
                    None => false,
                });
            assert(!store_readable(s, d, lc, ts0, om, iso));
        } else {
            assert(e is MalformedWrite);
            assert(!all_versions_parse(s, cu, gts));
            let j = choose|j: int|
                0 <= j < s.len() && is_version_of(#[trigger] s[j], cu) && entry_ts(s[j]) <= gts
                    && !(spec_parse_write(s[j].value) is Some);
            assert(spec_parse_write(s[j].value) is None);
            assert(exists|i: int|
                0 <= i < s.len() && spec_parse_write((#[trigger] s[i]).value) is None);
            assert(!store_readable(s, d, lc, ts0, om, iso));
        }
    }
}

/// What `Key::is_user_key_eq` answers for a well-formed composite key: the
/// length check adds nothing once the user-key prefix matches.
proof fn lemma_user_key_eq(e: EntryView, u: Seq<u8>, r: bool)
    requires
        e.key.len() >= TS_LEN,
        r <==> (e.key.len() == u.len() + TS_LEN && user_of(e.key) == u),
    ensures
        r <==> user_of(e.key) == u,
{
    if user_of(e.key) == u {
        assert(user_of(e.key).len() == e.key.len() - TS_LEN);
    }
}

/// Everything of a scanner but its write cursor and write-column-family
/// statistics is unchanged.
spec fn unchanged_but_write(a: BackwardScanner, b: BackwardScanner) -> bool {
    &&& b.read_ts() == a.read_ts()
    &&& b.omits_value() == a.omits_value()
    &&& b.iso_level() == a.iso_level()
    &&& b.lower_limit() == a.lower_limit()
    &&& b.upper_limit() == a.upper_limit()
    &&& b.last_user_key() == a.last_user_key()
    &&& b.lock_cursor == a.lock_cursor
    &&& b.default_cursor == a.default_cursor
    &&& b.is_started == a.is_started
    &&& b.snapshot == a.snapshot
    &&& b.lower_bound == a.lower_bound
    &&& b.upper_bound == a.upper_bound
    &&& b.statistics.lock == a.statistics.lock
    &&& b.statistics.data == a.statistics.data
}

/// Everything of a scanner but its default cursor and its default-column-
/// family statistics is unchanged.
spec fn unchanged_but_default(a: BackwardScanner, b: BackwardScanner) -> bool {
    &&& b.read_ts() == a.read_ts()
    &&& b.omits_value() == a.omits_value()
    &&& b.iso_level() == a.iso_level()
    &&& b.lower_limit() == a.lower_limit()
    &&& b.upper_limit() == a.upper_limit()
    &&& b.last_user_key() == a.last_user_key()
    &&& b.write_cursor == a.write_cursor
    &&& b.lock_cursor == a.lock_cursor
    &&& b.is_started == a.is_started
    &&& b.snapshot == a.snapshot
    &&& b.lower_bound == a.lower_bound
    &&& b.upper_bound == a.upper_bound
}

/// In a sorted column family, finding an entry under `key` means the lookup
/// yields its value.
proof fn lemma_default_value_found(d: Seq<EntryView>, key: Seq<u8>, p: int)
    requires
        sorted_entries(d),
        0 <= p < d.len(),
        d[p].key == key,
    ensures
        default_value_of(d, key) == Some(d[p].value),
    decreases d.len(),
{
    if p == 0 {
    } else {
        assert(lex_lt(d[0].key, d[p].key));
        if d[0].key == key {
            crate::order::lemma_lex_lt_irrefl(key);
        }
        let d1 = d.subrange(1, d.len() as int);
        assert(sorted_entries(d1)) by {
            assert(forall|a: int, b: int|
                0 <= a < b < d1.len() ==> d1[a] == d[a + 1] && d1[b] == d[b + 1]);
        }
        lemma_default_value_found(d1, key, p - 1);
    }
}

/// When no entry carries `key`, the lookup yields nothing.
proof fn lemma_default_value_absent(d: Seq<EntryView>, key: Seq<u8>)
    requires
        forall|i: int| 0 <= i < d.len() ==> (#[trigger] d[i]).key != key,
    ensures
        default_value_of(d, key) is None,
    decreases d.len(),
{
    if d.len() > 0 {
        let d1 = d.subrange(1, d.len() as int);
        assert(forall|i: int| 0 <= i < d1.len() ==> d1[i] == d[i + 1]);
        lemma_default_value_absent(d1, key);
    }
}

} // verus!
