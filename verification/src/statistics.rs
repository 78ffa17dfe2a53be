//! Per-column-family operation counters.
//!
//! Cursors count each seek, seek-for-prev, next and prev they perform, and
//! the scanner counts each write record it parses under `processed`. All
//! counters saturate instead of wrapping, so an increment is always defined.

use vstd::prelude::*;

verus! {

/// `x + 1`, stopping at the top of the counter's range.
pub open spec fn sat_inc(x: usize) -> usize {
    if x == usize::MAX {
        x
    } else {
        (x + 1) as usize
    }
}

/// Saturating increment of one counter.
pub fn bump(x: usize) -> (r: usize)
    ensures
        r == sat_inc(x),
{
    if x == usize::MAX {
        x
    } else {
        x + 1
    }
}

/// Counters of one column family's cursor.
#[derive(Clone, Copy, Debug, PartialEq, Eq, Structural)]
pub struct CfStatistics {
    /// Records processed (parsed) by the scanner.
    pub processed: usize,
    /// Forward seeks.
    pub seek: usize,
    /// Forward steps.
    pub next: usize,
    /// Backward steps.
    pub prev: usize,
    /// Backward seeks.
    pub seek_for_prev: usize,
}

impl CfStatistics {
    pub open spec fn zeroed() -> CfStatistics {
        CfStatistics { processed: 0, seek: 0, next: 0, prev: 0, seek_for_prev: 0 }
    }

    pub fn new() -> (r: CfStatistics)
        ensures
            r == CfStatistics::zeroed(),
    {
        CfStatistics { processed: 0, seek: 0, next: 0, prev: 0, seek_for_prev: 0 }
    }
}

impl Default for CfStatistics {
    fn default() -> (r: CfStatistics)
        ensures
            r == CfStatistics::zeroed(),
    {
        CfStatistics::new()
    }
}

/// Counters of all three column families.
#[derive(Clone, Copy, Debug, PartialEq, Eq, Structural)]
pub struct Statistics {
    pub lock: CfStatistics,
    pub write: CfStatistics,
    /// The default column family.
    pub data: CfStatistics,
}

impl Statistics {
    pub open spec fn zeroed() -> Statistics {
        Statistics {
            lock: CfStatistics::zeroed(),
            write: CfStatistics::zeroed(),
            data: CfStatistics::zeroed(),
        }
    }

    pub fn new() -> (r: Statistics)
        ensures
            r == Statistics::zeroed(),
    {
        Statistics { lock: CfStatistics::new(), write: CfStatistics::new(), data: CfStatistics::new() }
    }
}

impl Default for Statistics {
    fn default() -> (r: Statistics)
        ensures
            r == Statistics::zeroed(),
    {
        Statistics::new()
    }
}

} // verus!
