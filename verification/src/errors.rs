//! Errors surfaced by the scanner and its codecs.

use vstd::prelude::*;

verus! {

/// Details of a blocking lock, reported to the caller so it can wait for or
/// resolve the conflicting transaction.
#[derive(Debug)]
pub struct LockInfo {
    /// The user key the blocking lock is on.
    pub key: Vec<u8>,
    /// The primary key of the locking transaction.
    pub primary: Vec<u8>,
    /// The start timestamp of the locking transaction.
    pub ts: u64,
    /// The time-to-live of the lock.
    pub ttl: u64,
}

#[derive(Debug)]
pub enum Error {
    /// A composite key in the store is too short to carry a timestamp suffix.
    MalformedKey,
    /// A write-column-family value does not decode to a write record.
    MalformedWrite,
    /// A lock-column-family value does not decode to a lock record.
    MalformedLock,
    /// A write record points at an out-of-line value that the default column
    /// family does not contain: the store violates its own invariant.
    ValueNotFound,
    /// A lock blocks the read under snapshot isolation.
    KeyIsLocked(LockInfo),
}

} // verus!
