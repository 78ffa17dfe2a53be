//! A reverse MVCC range scanner over a three-column-family key-value store.
//!
//! Given an immutable snapshot and a read timestamp, the scanner yields, in
//! descending user-key order, the value each key had as of that timestamp,
//! respecting transactional locks and rollback markers.

pub mod cursor;
pub mod errors;
pub mod key;
pub mod lock;
pub mod order;
pub mod scanner;
pub mod snapshot;
pub mod statistics;
pub mod write;
