//! Lock records: the values of the lock column family.
//!
//! A lock marks an ongoing transaction touching one user key. It carries the
//! kind of pending mutation, the transaction's start timestamp, its
//! time-to-live, and the primary key of the transaction.

use vstd::prelude::*;

use crate::errors::Error;
use crate::key::be64;
use crate::key::be64_value;
use crate::key::lemma_be64_roundtrip;
use crate::key::push_be64;
use crate::key::read_be64;

verus! {

#[derive(Clone, Copy, Debug, PartialEq, Eq, Structural)]
pub enum LockType {
    Put,
    Delete,
    Lock,
}

/// The mathematical content of a lock record.
pub struct LockRecord {
    pub lock_type: LockType,
    pub primary: Seq<u8>,
    pub ts: u64,
    pub ttl: u64,
}

/// A parsed lock record.
#[derive(Debug)]
pub struct Lock {
    pub lock_type: LockType,
    pub primary: Vec<u8>,
    pub ts: u64,
    pub ttl: u64,
}

impl View for Lock {
    type V = LockRecord;

    open spec fn view(&self) -> LockRecord {
        LockRecord {
            lock_type: self.lock_type,
            primary: self.primary@,
            ts: self.ts,
            ttl: self.ttl,
        }
    }
}

pub open spec fn lock_type_byte(t: LockType) -> u8 {
    match t {
        LockType::Put => 80u8,
        LockType::Delete => 68u8,
        LockType::Lock => 76u8,
    }
}

pub open spec fn lock_type_of_byte(b: u8) -> Option<LockType> {
    if b == 80u8 {
        Some(LockType::Put)
    } else if b == 68u8 {
        Some(LockType::Delete)
    } else if b == 76u8 {
        Some(LockType::Lock)
    } else {
        None
    }
}

/// The serialized form of a lock record: a kind byte, the start timestamp
/// and the time-to-live in big-endian, then the primary key.
pub open spec fn spec_lock_bytes(l: LockRecord) -> Seq<u8> {
    seq![lock_type_byte(l.lock_type)] + be64(l.ts) + be64(l.ttl) + l.primary
}

/// What a byte string decodes to, if anything.
pub open spec fn spec_parse_lock(s: Seq<u8>) -> Option<LockRecord> {
    if s.len() < 17 {
        None
    } else {
        match lock_type_of_byte(s[0]) {
            None => None,
            Some(t) => Some(
                LockRecord {
                    lock_type: t,
                    ts: be64_value(s.subrange(1, 9)),
                    ttl: be64_value(s.subrange(9, 17)),
                    primary: s.subrange(17, s.len() as int),
                },
            ),
        }
    }
}

impl Lock {
    pub fn new(lock_type: LockType, primary: Vec<u8>, ts: u64, ttl: u64) -> (l: Lock)
        ensures
            l.lock_type == lock_type,
            l.primary == primary,
            l.ts == ts,
            l.ttl == ttl,
    {
        Lock { lock_type, primary, ts, ttl }
    }

    /// Decode a lock record, reporting a malformed lock on a short buffer or
    /// an unknown kind byte.
    pub fn parse(b: &[u8]) -> (r: Result<Lock, Error>)
        ensures
            match r {
                Ok(l) => spec_parse_lock(b@) == Some(l@),
                Err(e) => spec_parse_lock(b@) is None && e is MalformedLock,
            },
    {
        let n = b.len();
        if n < 17 {
            return Err(Error::MalformedLock);
        }
        let lock_type = if b[0] == 80u8 {
            LockType::Put
        } else if b[0] == 68u8 {
            LockType::Delete
        } else if b[0] == 76u8 {
            LockType::Lock
        } else {
            return Err(Error::MalformedLock);
        };
        let ts = read_be64(b, 1);
        let ttl = read_be64(b, 9);
        let primary = crate::key::bytes_to_vec(vstd::slice::slice_subrange(b, 17, n));
        Ok(Lock { lock_type, primary, ts, ttl })
    }

    /// Serialize this record; `parse` undoes it.
    pub fn to_bytes(&self) -> (r: Vec<u8>)
        ensures
            r@ == spec_lock_bytes(self@),
    {
        let mut r: Vec<u8> = Vec::new();
        let tb: u8 = match self.lock_type {
            LockType::Put => 80u8,
            LockType::Delete => 68u8,
            LockType::Lock => 76u8,
        };
        r.push(tb);
        push_be64(&mut r, self.ts);
        push_be64(&mut r, self.ttl);
        proof {
            assert(r@ =~= seq![lock_type_byte(self.lock_type)] + be64(self.ts) + be64(self.ttl));
        }
        let n = self.primary.len();
        let mut i: usize = 0;
        while i < n
            invariant
                0 <= i <= n,
                n == self.primary@.len(),
                r@ == (seq![lock_type_byte(self.lock_type)] + be64(self.ts) + be64(self.ttl)
                    + self.primary@.subrange(0, i as int)),
            decreases n - i,
        {
            r.push(self.primary[i]);
            proof {
                assert(r@ =~= seq![lock_type_byte(self.lock_type)] + be64(self.ts) + be64(self.ttl)
                    + self.primary@.subrange(0, i + 1 as int));
            }
            i = i + 1;
        }
        proof {
            assert(self.primary@.subrange(0, n as int) =~= self.primary@);
            assert(r@ =~= spec_lock_bytes(self@));
        }
        r
    }
}

/// Serialization round-trips: whatever `to_bytes` writes, `parse` reads back.
pub proof fn lemma_lock_roundtrip(l: LockRecord)
    ensures
        spec_parse_lock(spec_lock_bytes(l)) == Some(l),
{
    let s = spec_lock_bytes(l);
    lemma_be64_roundtrip(l.ts);
    lemma_be64_roundtrip(l.ttl);
    assert(s.len() == 17 + l.primary.len());
    assert(s[0] == lock_type_byte(l.lock_type));
    assert(s.subrange(1, 9) =~= be64(l.ts));
    assert(s.subrange(9, 17) =~= be64(l.ttl));
    assert(s.subrange(17, s.len() as int) =~= l.primary);
}

} // verus!
