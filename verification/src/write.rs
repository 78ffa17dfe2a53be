//! Write records: the values of the write column family.
//!
//! A write record marks what happened to one user key at one commit
//! timestamp: a committed put or delete, a transactional lock marker, or a
//! rollback. A put may carry its value inline (a "short value"); otherwise
//! the value lives in the default column family under the key
//! `(user_key, start_ts)`.

use vstd::prelude::*;

use crate::errors::Error;
use crate::key::be64;
use crate::key::be64_value;
use crate::key::lemma_be64_roundtrip;
use crate::key::push_be64;
use crate::key::read_be64;

verus! {

/// Marker byte introducing an inline short value.
pub const SHORT_VALUE_MARKER: u8 = 118u8;

/// Longest value stored inline in a write record; longer values go to the
/// default column family.
pub const SHORT_VALUE_MAX_LEN: usize = 64;

#[derive(Clone, Copy, Debug, PartialEq, Eq, Structural)]
pub enum WriteType {
    Put,
    Delete,
    Lock,
    Rollback,
}

/// The mathematical content of a write record.
pub struct WriteInfo {
    pub write_type: WriteType,
    pub start_ts: u64,
    pub short_value: Option<Seq<u8>>,
}

/// A parsed write record.
#[derive(Debug)]
pub struct Write {
    pub write_type: WriteType,
    pub start_ts: u64,
    pub short_value: Option<Vec<u8>>,
}

impl View for Write {
    type V = WriteInfo;

    open spec fn view(&self) -> WriteInfo {
        WriteInfo {
            write_type: self.write_type,
            start_ts: self.start_ts,
            short_value: match self.short_value {
                Some(ref v) => Some(v@),
                None => None,
            },
        }
    }
}

pub open spec fn write_type_byte(t: WriteType) -> u8 {
    match t {
        WriteType::Put => 80u8,
        WriteType::Delete => 68u8,
        WriteType::Lock => 76u8,
        WriteType::Rollback => 82u8,
    }
}

pub open spec fn write_type_of_byte(b: u8) -> Option<WriteType> {
    if b == 80u8 {
        Some(WriteType::Put)
    } else if b == 68u8 {
        Some(WriteType::Delete)
    } else if b == 76u8 {
        Some(WriteType::Lock)
    } else if b == 82u8 {
        Some(WriteType::Rollback)
    } else {
        None
    }
}

/// The serialized form of a write record: a kind byte, the start timestamp
/// in big-endian, and optionally a marker byte followed by the short value.
pub open spec fn spec_write_bytes(w: WriteInfo) -> Seq<u8> {
    let base = seq![write_type_byte(w.write_type)] + be64(w.start_ts);
    match w.short_value {
        None => base,
        Some(v) => base + seq![SHORT_VALUE_MARKER] + v,
    }
}

/// What a byte string decodes to, if anything.
pub open spec fn spec_parse_write(s: Seq<u8>) -> Option<WriteInfo> {
    if s.len() < 9 {
        None
    } else {
        match write_type_of_byte(s[0]) {
            None => None,
            Some(t) => {
                let start_ts = be64_value(s.subrange(1, 9));
                if s.len() == 9 {
                    Some(WriteInfo { write_type: t, start_ts, short_value: None })
                } else if s[9] == SHORT_VALUE_MARKER {
                    Some(
                        WriteInfo {
                            write_type: t,
                            start_ts,
                            short_value: Some(s.subrange(10, s.len() as int)),
                        },
                    )
                } else {
                    None
                }
            },
        }
    }
}

impl Write {
    pub fn new(write_type: WriteType, start_ts: u64, short_value: Option<Vec<u8>>) -> (w: Write)
        ensures
            w.write_type == write_type,
            w.start_ts == start_ts,
            w.short_value == short_value,
    {
        Write { write_type, start_ts, short_value }
    }

    /// Decode a write record, reporting a malformed write on a short buffer,
    /// an unknown kind byte, or a bad short-value marker.
    pub fn parse(b: &[u8]) -> (r: Result<Write, Error>)
        ensures
            match r {
                Ok(w) => spec_parse_write(b@) == Some(w@),
                Err(e) => spec_parse_write(b@) is None && e is MalformedWrite,
            },
    {
        let n = b.len();
        if n < 9 {
            return Err(Error::MalformedWrite);
        }
        let write_type = if b[0] == 80u8 {
            WriteType::Put
        } else if b[0] == 68u8 {
            WriteType::Delete
        } else if b[0] == 76u8 {
            WriteType::Lock
        } else if b[0] == 82u8 {
            WriteType::Rollback
        } else {
            return Err(Error::MalformedWrite);
        };
        let start_ts = read_be64(b, 1);
        if n == 9 {
            return Ok(Write { write_type, start_ts, short_value: None });
        }
        if b[9] != SHORT_VALUE_MARKER {
            return Err(Error::MalformedWrite);
        }
        let value = crate::key::bytes_to_vec(vstd::slice::slice_subrange(b, 10, n));
        Ok(Write { write_type, start_ts, short_value: Some(value) })
    }

    /// Serialize this record; `parse` undoes it.
    pub fn to_bytes(&self) -> (r: Vec<u8>)
        ensures
            r@ == spec_write_bytes(self@),
    {
        let mut r: Vec<u8> = Vec::new();
        let tb: u8 = match self.write_type {
            WriteType::Put => 80u8,
            WriteType::Delete => 68u8,
            WriteType::Lock => 76u8,
            WriteType::Rollback => 82u8,
        };
        r.push(tb);
        push_be64(&mut r, self.start_ts);
        proof {
            assert(r@ =~= seq![write_type_byte(self.write_type)] + be64(self.start_ts));
        }
        match &self.short_value {
            None => r,
            Some(v) => {
                r.push(SHORT_VALUE_MARKER);
                let n = v.len();
                let mut i: usize = 0;
                while i < n
                    invariant
                        0 <= i <= n,
                        n == v@.len(),
                        r@ == (seq![write_type_byte(self.write_type)] + be64(self.start_ts) + seq![
                            SHORT_VALUE_MARKER
                        ] + v@.subrange(0, i as int)),
                    decreases n - i,
                {
                    r.push(v[i]);
                    proof {
                        assert(r@ =~= seq![write_type_byte(self.write_type)] + be64(self.start_ts)
                            + seq![SHORT_VALUE_MARKER] + v@.subrange(0, i + 1 as int));
                    }
                    i = i + 1;
                }
                proof {
                    assert(v@.subrange(0, n as int) =~= v@);
                    assert(r@ =~= spec_write_bytes(self@));
                }
                r
            },
        }
    }
}

/// Serialization round-trips: whatever `to_bytes` writes, `parse` reads back.
pub proof fn lemma_write_roundtrip(w: WriteInfo)
    ensures
        spec_parse_write(spec_write_bytes(w)) == Some(w),
{
    let s = spec_write_bytes(w);
    lemma_be64_roundtrip(w.start_ts);
    match w.short_value {
        None => {
            assert(s.len() == 9);
            assert(s[0] == write_type_byte(w.write_type));
            assert(s.subrange(1, 9) =~= be64(w.start_ts));
        },
        Some(v) => {
            assert(s.len() == 10 + v.len());
            assert(s[0] == write_type_byte(w.write_type));
            assert(s.subrange(1, 9) =~= be64(w.start_ts));
            assert(s[9] == SHORT_VALUE_MARKER);
            assert(s.subrange(10, s.len() as int) =~= v);
        },
    }
}

} // verus!
