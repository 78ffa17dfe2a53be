//! Composite keys: an encoded user key followed by a timestamp suffix.
//!
//! The suffix is the 8-byte big-endian encoding of the bitwise complement of
//! the commit timestamp, so that ascending byte order corresponds to
//! ascending user key and, within one user key, descending timestamp.
//!
//! User keys are opaque encoded byte strings. The encoding that produced
//! them is outside this crate; what matters here is its guarantee that no
//! encoded user key is a strict prefix of another.

use vstd::prelude::*;

use crate::errors::Error;
use crate::order::bytes_eq;
use crate::order::is_strict_prefix;
use crate::order::lemma_common_prefix_order;
use crate::order::lemma_incomparable_extend;
use crate::order::lemma_lex_lt_asym;
use crate::order::lemma_lex_lt_irrefl;
use crate::order::lemma_lex_total;
use crate::order::lemma_prefix_le;
use crate::order::lemma_strict_prefix_lt;
use crate::order::lex_lt;
use crate::order::prefix_incomparable;

verus! {

/// Length of the timestamp suffix of a composite key, in bytes.
pub const TS_LEN: usize = 8;

/// Byte `i` of the big-endian encoding of `x`.
pub open spec fn be64_byte(x: u64, i: int) -> u8 {
    ((x >> (((7 - i) * 8) as u64)) & 0xff) as u8
}

/// The 8-byte big-endian encoding of `x`.
pub open spec fn be64(x: u64) -> Seq<u8> {
    Seq::new(8, |i: int| be64_byte(x, i))
}

/// The value encoded by an 8-byte big-endian string.
pub open spec fn be64_value(s: Seq<u8>) -> u64 {
    ((s[0] as u64) << 56u64) | ((s[1] as u64) << 48u64) | ((s[2] as u64) << 40u64) | ((s[3]
        as u64) << 32u64) | ((s[4] as u64) << 24u64) | ((s[5] as u64) << 16u64) | ((s[6]
        as u64) << 8u64) | (s[7] as u64)
}

/// The timestamp suffix appended to an encoded user key.
pub open spec fn ts_suffix(ts: u64) -> Seq<u8> {
    be64(!ts)
}

/// The timestamp a suffix stands for.
pub open spec fn suffix_ts(s: Seq<u8>) -> u64 {
    !be64_value(s)
}

/// The composite key of one version of a user key.
pub open spec fn composite(user: Seq<u8>, ts: u64) -> Seq<u8> {
    user + ts_suffix(ts)
}

/// The user-key prefix of a composite key.
pub open spec fn user_of(key: Seq<u8>) -> Seq<u8> {
    key.subrange(0, key.len() - TS_LEN)
}

/// The timestamp of a composite key.
pub open spec fn ts_of(key: Seq<u8>) -> u64 {
    suffix_ts(key.subrange(key.len() - TS_LEN, key.len() as int))
}

pub proof fn lemma_be64_roundtrip(x: u64)
    ensures
        be64_value(be64(x)) == x,
{
    let s = be64(x);
    assert(s[0] == ((x >> 56u64) & 0xff) as u8);
    assert(s[1] == ((x >> 48u64) & 0xff) as u8);
    assert(s[2] == ((x >> 40u64) & 0xff) as u8);
    assert(s[3] == ((x >> 32u64) & 0xff) as u8);
    assert(s[4] == ((x >> 24u64) & 0xff) as u8);
    assert(s[5] == ((x >> 16u64) & 0xff) as u8);
    assert(s[6] == ((x >> 8u64) & 0xff) as u8);
    assert(s[7] == ((x >> 0u64) & 0xff) as u8);
    assert(((((x >> 56u64) & 0xff) as u8 as u64) << 56u64) | ((((x >> 48u64) & 0xff) as u8
        as u64) << 48u64) | ((((x >> 40u64) & 0xff) as u8 as u64) << 40u64) | ((((x >> 32u64)
        & 0xff) as u8 as u64) << 32u64) | ((((x >> 24u64) & 0xff) as u8 as u64) << 24u64) | ((((x
        >> 16u64) & 0xff) as u8 as u64) << 16u64) | ((((x >> 8u64) & 0xff) as u8 as u64)
        << 8u64) | (((x >> 0u64) & 0xff) as u8 as u64) == x) by (bit_vector);
}

pub proof fn lemma_ts_suffix_roundtrip(ts: u64)
    ensures
        suffix_ts(ts_suffix(ts)) == ts,
{
    lemma_be64_roundtrip(!ts);
    assert(!!ts == ts) by (bit_vector);
}

/// Big-endian encoding preserves the order of 64-bit values.
pub proof fn lemma_be64_order(x: u64, y: u64)
    requires
        x < y,
    ensures
        lex_lt(be64(x), be64(y)),
{
    let s = be64(x);
    let t = be64(y);
    let x0 = (x >> 56u64) & 0xff;
    let y0 = (y >> 56u64) & 0xff;
    let x1 = (x >> 48u64) & 0xff;
    let y1 = (y >> 48u64) & 0xff;
    let x2 = (x >> 40u64) & 0xff;
    let y2 = (y >> 40u64) & 0xff;
    let x3 = (x >> 32u64) & 0xff;
    let y3 = (y >> 32u64) & 0xff;
    let x4 = (x >> 24u64) & 0xff;
    let y4 = (y >> 24u64) & 0xff;
    let x5 = (x >> 16u64) & 0xff;
    let y5 = (y >> 16u64) & 0xff;
    let x6 = (x >> 8u64) & 0xff;
    let y6 = (y >> 8u64) & 0xff;
    let x7 = (x >> 0u64) & 0xff;
    let y7 = (y >> 0u64) & 0xff;
    assert(((x >> 56u64) & 0xff) < 256 && ((x >> 48u64) & 0xff) < 256 && ((x >> 40u64) & 0xff)
        < 256 && ((x >> 32u64) & 0xff) < 256 && ((x >> 24u64) & 0xff) < 256 && ((x >> 16u64)
        & 0xff) < 256 && ((x >> 8u64) & 0xff) < 256 && ((x >> 0u64) & 0xff) < 256) by (bit_vector);
    assert(((y >> 56u64) & 0xff) < 256 && ((y >> 48u64) & 0xff) < 256 && ((y >> 40u64) & 0xff)
        < 256 && ((y >> 32u64) & 0xff) < 256 && ((y >> 24u64) & 0xff) < 256 && ((y >> 16u64)
        & 0xff) < 256 && ((y >> 8u64) & 0xff) < 256 && ((y >> 0u64) & 0xff) < 256) by (bit_vector);
    if x0 != y0 {
        assert(x0 < y0) by (bit_vector)
            requires
                x < y && x0 == (x >> 56u64) & 0xff && y0 == (y >> 56u64) & 0xff && x0 != y0,
        ;
        crate::order::lemma_lex_by_first_diff(s, t, 0);
    } else if x1 != y1 {
        assert(x1 < y1) by (bit_vector)
            requires
                x < y && (x >> 56u64) & 0xff == (y >> 56u64) & 0xff && x1 == (x >> 48u64) & 0xff
                    && y1 == (y >> 48u64) & 0xff && x1 != y1,
        ;
        crate::order::lemma_lex_by_first_diff(s, t, 1);
    } else if x2 != y2 {
        assert(x2 < y2) by (bit_vector)
            requires
                x < y && (x >> 56u64) & 0xff == (y >> 56u64) & 0xff && (x >> 48u64) & 0xff == (y
                    >> 48u64) & 0xff && x2 == (x >> 40u64) & 0xff && y2 == (y >> 40u64) & 0xff
                    && x2 != y2,
        ;
        crate::order::lemma_lex_by_first_diff(s, t, 2);
    } else if x3 != y3 {
        assert(x3 < y3) by (bit_vector)
            requires
                x < y && (x >> 56u64) & 0xff == (y >> 56u64) & 0xff && (x >> 48u64) & 0xff == (y
                    >> 48u64) & 0xff && (x >> 40u64) & 0xff == (y >> 40u64) & 0xff && x3 == (x
                    >> 32u64) & 0xff && y3 == (y >> 32u64) & 0xff && x3 != y3,
        ;
        crate::order::lemma_lex_by_first_diff(s, t, 3);
    } else if x4 != y4 {
        assert(x4 < y4) by (bit_vector)
            requires
                x < y && (x >> 56u64) & 0xff == (y >> 56u64) & 0xff && (x >> 48u64) & 0xff == (y
                    >> 48u64) & 0xff && (x >> 40u64) & 0xff == (y >> 40u64) & 0xff && (x >> 32u64)
                    & 0xff == (y >> 32u64) & 0xff && x4 == (x >> 24u64) & 0xff && y4 == (y
                    >> 24u64) & 0xff && x4 != y4,
        ;
        crate::order::lemma_lex_by_first_diff(s, t, 4);
    } else if x5 != y5 {
        assert(x5 < y5) by (bit_vector)
            requires
                x < y && (x >> 56u64) & 0xff == (y >> 56u64) & 0xff && (x >> 48u64) & 0xff == (y
                    >> 48u64) & 0xff && (x >> 40u64) & 0xff == (y >> 40u64) & 0xff && (x >> 32u64)
                    & 0xff == (y >> 32u64) & 0xff && (x >> 24u64) & 0xff == (y >> 24u64) & 0xff
                    && x5 == (x >> 16u64) & 0xff && y5 == (y >> 16u64) & 0xff && x5 != y5,
        ;
        crate::order::lemma_lex_by_first_diff(s, t, 5);
    } else if x6 != y6 {
        assert(x6 < y6) by (bit_vector)
            requires
                x < y && (x >> 56u64) & 0xff == (y >> 56u64) & 0xff && (x >> 48u64) & 0xff == (y
                    >> 48u64) & 0xff && (x >> 40u64) & 0xff == (y >> 40u64) & 0xff && (x >> 32u64)
                    & 0xff == (y >> 32u64) & 0xff && (x >> 24u64) & 0xff == (y >> 24u64) & 0xff
                    && (x >> 16u64) & 0xff == (y >> 16u64) & 0xff && x6 == (x >> 8u64) & 0xff
                    && y6 == (y >> 8u64) & 0xff && x6 != y6,
        ;
        crate::order::lemma_lex_by_first_diff(s, t, 6);
    } else {
        assert(x7 < y7) by (bit_vector)
            requires
                x < y && (x >> 56u64) & 0xff == (y >> 56u64) & 0xff && (x >> 48u64) & 0xff == (y
                    >> 48u64) & 0xff && (x >> 40u64) & 0xff == (y >> 40u64) & 0xff && (x >> 32u64)
                    & 0xff == (y >> 32u64) & 0xff && (x >> 24u64) & 0xff == (y >> 24u64) & 0xff
                    && (x >> 16u64) & 0xff == (y >> 16u64) & 0xff && (x >> 8u64) & 0xff == (y
                    >> 8u64) & 0xff && x7 == (x >> 0u64) & 0xff && y7 == (y >> 0u64) & 0xff,
        ;
        crate::order::lemma_lex_by_first_diff(s, t, 7);
    }
}

/// Decoding then re-encoding an 8-byte string gives it back.
pub proof fn lemma_be64_value_roundtrip(s: Seq<u8>)
    requires
        s.len() == 8,
    ensures
        be64(be64_value(s)) == s,
{
    let b0 = s[0];
    let b1 = s[1];
    let b2 = s[2];
    let b3 = s[3];
    let b4 = s[4];
    let b5 = s[5];
    let b6 = s[6];
    let b7 = s[7];
    let v = be64_value(s);
    assert((((b0 as u64) << 56u64 | (b1 as u64) << 48u64 | (b2 as u64) << 40u64 | (b3 as u64)
        << 32u64 | (b4 as u64) << 24u64 | (b5 as u64) << 16u64 | (b6 as u64) << 8u64 | (b7
        as u64)) >> 56u64) & 0xff == b0 as u64) by (bit_vector);
    assert((((b0 as u64) << 56u64 | (b1 as u64) << 48u64 | (b2 as u64) << 40u64 | (b3 as u64)
        << 32u64 | (b4 as u64) << 24u64 | (b5 as u64) << 16u64 | (b6 as u64) << 8u64 | (b7
        as u64)) >> 48u64) & 0xff == b1 as u64) by (bit_vector);
    assert((((b0 as u64) << 56u64 | (b1 as u64) << 48u64 | (b2 as u64) << 40u64 | (b3 as u64)
        << 32u64 | (b4 as u64) << 24u64 | (b5 as u64) << 16u64 | (b6 as u64) << 8u64 | (b7
        as u64)) >> 40u64) & 0xff == b2 as u64) by (bit_vector);
    assert((((b0 as u64) << 56u64 | (b1 as u64) << 48u64 | (b2 as u64) << 40u64 | (b3 as u64)
        << 32u64 | (b4 as u64) << 24u64 | (b5 as u64) << 16u64 | (b6 as u64) << 8u64 | (b7
        as u64)) >> 32u64) & 0xff == b3 as u64) by (bit_vector);
    assert((((b0 as u64) << 56u64 | (b1 as u64) << 48u64 | (b2 as u64) << 40u64 | (b3 as u64)
        << 32u64 | (b4 as u64) << 24u64 | (b5 as u64) << 16u64 | (b6 as u64) << 8u64 | (b7
        as u64)) >> 24u64) & 0xff == b4 as u64) by (bit_vector);
    assert((((b0 as u64) << 56u64 | (b1 as u64) << 48u64 | (b2 as u64) << 40u64 | (b3 as u64)
        << 32u64 | (b4 as u64) << 24u64 | (b5 as u64) << 16u64 | (b6 as u64) << 8u64 | (b7
        as u64)) >> 16u64) & 0xff == b5 as u64) by (bit_vector);
    assert((((b0 as u64) << 56u64 | (b1 as u64) << 48u64 | (b2 as u64) << 40u64 | (b3 as u64)
        << 32u64 | (b4 as u64) << 24u64 | (b5 as u64) << 16u64 | (b6 as u64) << 8u64 | (b7
        as u64)) >> 8u64) & 0xff == b6 as u64) by (bit_vector);
    assert((((b0 as u64) << 56u64 | (b1 as u64) << 48u64 | (b2 as u64) << 40u64 | (b3 as u64)
        << 32u64 | (b4 as u64) << 24u64 | (b5 as u64) << 16u64 | (b6 as u64) << 8u64 | (b7
        as u64)) >> 0u64) & 0xff == b7 as u64) by (bit_vector);
    assert(be64(v) =~= s);
}

/// Any key long enough to carry a suffix is the composite key of its own
/// user key and timestamp.
pub proof fn lemma_key_decompose(k: Seq<u8>)
    requires
        k.len() >= TS_LEN,
    ensures
        composite(user_of(k), ts_of(k)) == k,
{
    let sub = k.subrange(k.len() - TS_LEN, k.len() as int);
    lemma_be64_value_roundtrip(sub);
    let t = ts_of(k);
    let v = be64_value(sub);
    assert(!!v == v) by (bit_vector);
    assert(ts_suffix(t) == sub);
    assert(composite(user_of(k), t) =~= k);
}

/// A larger timestamp has a suffix that sorts earlier.
pub proof fn lemma_ts_suffix_order(t1: u64, t2: u64)
    requires
        t1 < t2,
    ensures
        lex_lt(ts_suffix(t2), ts_suffix(t1)),
{
    assert(!t2 < !t1) by (bit_vector)
        requires
            t1 < t2,
    ;
    lemma_be64_order(!t2, !t1);
}

/// Within one user key, composite keys sort by descending timestamp.
pub proof fn lemma_composite_same_user(u: Seq<u8>, t1: u64, t2: u64)
    ensures
        lex_lt(composite(u, t1), composite(u, t2)) <==> t2 < t1,
{
    lemma_common_prefix_order(u, ts_suffix(t1), ts_suffix(t2));
    if t2 < t1 {
        lemma_ts_suffix_order(t2, t1);
    } else if t1 < t2 {
        lemma_ts_suffix_order(t1, t2);
        lemma_lex_lt_asym(ts_suffix(t2), ts_suffix(t1));
    } else {
        lemma_lex_lt_irrefl(ts_suffix(t1));
    }
}

/// Suffixes decode injectively.
pub proof fn lemma_composite_ts_injective(u: Seq<u8>, t1: u64, t2: u64)
    requires
        composite(u, t1) == composite(u, t2),
    ensures
        t1 == t2,
{
    assert(ts_suffix(t1) =~= ts_suffix(t2)) by {
        assert(forall|j: int|
            0 <= j < 8 ==> ts_suffix(t1)[j] == composite(u, t1)[u.len() + j] && ts_suffix(t2)[j]
                == composite(u, t2)[u.len() + j]);
    }
    lemma_ts_suffix_roundtrip(t1);
    lemma_ts_suffix_roundtrip(t2);
}

/// Across prefix-incomparable user keys, composite keys sort by user key,
/// whatever the timestamps.
pub proof fn lemma_composite_diff_user(u1: Seq<u8>, t1: u64, u2: Seq<u8>, t2: u64)
    requires
        u1 != u2,
        prefix_incomparable(u1, u2),
    ensures
        lex_lt(composite(u1, t1), composite(u2, t2)) <==> lex_lt(u1, u2),
{
    lemma_lex_total(u1, u2);
    if lex_lt(u1, u2) {
        lemma_incomparable_extend(u1, u2, ts_suffix(t1), ts_suffix(t2));
    } else {
        lemma_incomparable_extend(u2, u1, ts_suffix(t2), ts_suffix(t1));
        lemma_lex_lt_asym(composite(u2, t2), composite(u1, t1));
    }
}

/// A user key sorts strictly before each of its own composite keys.
pub proof fn lemma_user_lt_composite(u: Seq<u8>, t: u64)
    ensures
        lex_lt(u, composite(u, t)),
{
    assert(is_strict_prefix(u, composite(u, t))) by {
        assert(u =~= composite(u, t).subrange(0, u.len() as int));
    }
    lemma_strict_prefix_lt(u, composite(u, t));
}

/// The user key of a composite key built from `u` is `u` again.
pub proof fn lemma_user_of_composite(u: Seq<u8>, t: u64)
    ensures
        user_of(composite(u, t)) == u,
        ts_of(composite(u, t)) == t,
        composite(u, t).len() == u.len() + 8,
{
    assert(user_of(composite(u, t)) =~= u);
    assert(composite(u, t).subrange(
        composite(u, t).len() - TS_LEN,
        composite(u, t).len() as int,
    ) =~= ts_suffix(t));
    lemma_ts_suffix_roundtrip(t);
}

/// Equal composite keys come from the same user key and the same timestamp.
pub proof fn lemma_composite_injective(u: Seq<u8>, t1: u64, v: Seq<u8>, t2: u64)
    requires
        composite(u, t1) == composite(v, t2),
    ensures
        u == v,
        t1 == t2,
{
    assert(composite(u, t1).len() == u.len() + 8);
    assert(composite(v, t2).len() == v.len() + 8);
    assert(u =~= v) by {
        assert(forall|j: int|
            0 <= j < u.len() ==> u[j] == composite(u, t1)[j] && v[j] == composite(v, t2)[j]);
    }
    lemma_composite_ts_injective(u, t1, t2);
}

/// A composite key strictly above a user key `u` and no higher than one of
/// `u`'s own composite keys belongs to `u`, provided the user keys are
/// prefix-incomparable.
pub proof fn lemma_between_user_and_composite(u: Seq<u8>, thi: u64, w: Seq<u8>, t: u64)
    requires
        lex_lt(u, composite(w, t)),
        !lex_lt(composite(u, thi), composite(w, t)),
        prefix_incomparable(u, w),
    ensures
        w == u,
{
    lemma_lex_total(composite(w, t), composite(u, thi));
    crate::order::lemma_squeeze_prefix(u, composite(w, t), ts_suffix(thi));
    let c = composite(w, t);
    assert(u == c.subrange(0, u.len() as int));
    if w != u {
        if u.len() < w.len() {
            assert(u =~= w.subrange(0, u.len() as int)) by {
                assert(forall|j: int|
                    0 <= j < u.len() ==> c.subrange(0, u.len() as int)[j] == c[j] && c[j] == w[j]
                        && w.subrange(0, u.len() as int)[j] == w[j]);
            }
            assert(is_strict_prefix(u, w));
        } else if u.len() == w.len() {
            assert(u =~= w) by {
                assert(forall|j: int|
                    0 <= j < u.len() ==> c.subrange(0, u.len() as int)[j] == c[j] && c[j] == w[j]);
            }
        } else {
            assert(w =~= u.subrange(0, w.len() as int)) by {
                assert(forall|j: int|
                    0 <= j < w.len() ==> u[j] == c.subrange(0, u.len() as int)[j] && c.subrange(
                        0,
                        u.len() as int,
                    )[j] == c[j] && c[j] == w[j]);
            }
            assert(is_strict_prefix(w, u));
        }
    }
}

/// A key squeezed between two composite keys of the same user key belongs to
/// that user key, provided the two user keys are prefix-incomparable.
pub proof fn lemma_between_composites(u: Seq<u8>, tlo: u64, thi: u64, v: Seq<u8>, t: u64)
    requires
        !lex_lt(composite(v, t), composite(u, tlo)),
        !lex_lt(composite(u, thi), composite(v, t)),
        prefix_incomparable(u, v),
    ensures
        v == u,
{
    if v != u {
        lemma_lex_total(composite(u, tlo), composite(v, t));
        lemma_lex_total(composite(v, t), composite(u, thi));
        if composite(u, tlo) == composite(v, t) {
            lemma_composite_injective(u, tlo, v, t);
        } else if composite(v, t) == composite(u, thi) {
            lemma_composite_injective(v, t, u, thi);
        } else {
            lemma_composite_diff_user(u, tlo, v, t);
            lemma_composite_diff_user(v, t, u, thi);
            lemma_lex_lt_asym(u, v);
        }
    }
}

/// A key of an opaque encoding, wrapping the raw bytes of either a user key
/// or a composite key.
#[derive(Debug)]
pub struct Key {
    data: Vec<u8>,
}

impl View for Key {
    type V = Seq<u8>;

    closed spec fn view(&self) -> Seq<u8> {
        self.data@
    }
}

impl Clone for Key {
    fn clone(&self) -> (r: Key)
        ensures
            r@ == self@,
    {
        Key { data: clone_bytes(&self.data) }
    }
}

impl PartialEq for Key {
    fn eq(&self, other: &Key) -> (r: bool) {
        bytes_eq(self.data.as_slice(), other.data.as_slice())
    }
}

impl Eq for Key {

}

impl vstd::std_specs::cmp::PartialEqSpecImpl for Key {
    open spec fn obeys_eq_spec() -> bool {
        true
    }

    open spec fn eq_spec(&self, other: &Key) -> bool {
        self@ == other@
    }
}

/// Copy a byte vector.
pub fn clone_bytes(v: &Vec<u8>) -> (r: Vec<u8>)
    ensures
        r@ == v@,
{
    let mut r: Vec<u8> = Vec::new();
    let n = v.len();
    let mut i: usize = 0;
    while i < n
        invariant
            0 <= i <= n,
            n == v@.len(),
            r@ == v@.subrange(0, i as int),
        decreases n - i,
    {
        r.push(v[i]);
        proof {
            assert(r@ =~= v@.subrange(0, i + 1 as int));
        }
        i = i + 1;
    }
    proof {
        assert(r@ =~= v@);
    }
    r
}

/// Copy a byte slice into a fresh vector.
pub fn bytes_to_vec(s: &[u8]) -> (r: Vec<u8>)
    ensures
        r@ == s@,
{
    let mut r: Vec<u8> = Vec::new();
    let n = s.len();
    let mut i: usize = 0;
    while i < n
        invariant
            0 <= i <= n,
            n == s@.len(),
            r@ == s@.subrange(0, i as int),
        decreases n - i,
    {
        r.push(s[i]);
        proof {
            assert(r@ =~= s@.subrange(0, i + 1 as int));
        }
        i = i + 1;
    }
    proof {
        assert(r@ =~= s@);
    }
    r
}

/// Append the 8-byte big-endian encoding of `x`.
pub fn push_be64(buf: &mut Vec<u8>, x: u64)
    ensures
        final(buf)@ == old(buf)@ + be64(x),
{
    buf.push(((x >> 56u64) & 0xff) as u8);
    buf.push(((x >> 48u64) & 0xff) as u8);
    buf.push(((x >> 40u64) & 0xff) as u8);
    buf.push(((x >> 32u64) & 0xff) as u8);
    buf.push(((x >> 24u64) & 0xff) as u8);
    buf.push(((x >> 16u64) & 0xff) as u8);
    buf.push(((x >> 8u64) & 0xff) as u8);
    buf.push((x & 0xff) as u8);
    proof {
        assert(x & 0xff == (x >> 0u64) & 0xff) by (bit_vector);
        assert(buf@ =~= old(buf)@ + be64(x));
    }
}

/// Read the 8-byte big-endian value starting at `off`.
pub fn read_be64(s: &[u8], off: usize) -> (r: u64)
    requires
        off + 8 <= s@.len(),
    ensures
        r == be64_value(s@.subrange(off as int, off + 8)),
{
    let r = ((s[off] as u64) << 56u64) | ((s[off + 1] as u64) << 48u64) | ((s[off + 2] as u64)
        << 40u64) | ((s[off + 3] as u64) << 32u64) | ((s[off + 4] as u64) << 24u64) | ((s[off + 5]
        as u64) << 16u64) | ((s[off + 6] as u64) << 8u64) | (s[off + 7] as u64);
    proof {
        let sub = s@.subrange(off as int, off + 8);
        assert(forall|j: int| 0 <= j < 8 ==> sub[j] == s@[off + j]);
    }
    r
}

impl Key {
    /// Wrap an already-encoded key.
    pub fn from_encoded(data: Vec<u8>) -> (k: Key)
        ensures
            k@ == data@,
    {
        Key { data }
    }

    /// Copy an already-encoded key out of a borrowed slice.
    pub fn from_encoded_slice(s: &[u8]) -> (k: Key)
        ensures
            k@ == s@,
    {
        Key { data: bytes_to_vec(s) }
    }

    /// Give up the wrapper and hand the raw encoded bytes over.
    pub fn into_encoded(self) -> (r: Vec<u8>)
        ensures
            r@ == self@,
    {
        self.data
    }

    /// The raw encoded bytes.
    pub fn encoded(&self) -> (r: &Vec<u8>)
        ensures
            r@ == self@,
    {
        &self.data
    }

    /// Turn a user key into the composite key of its version at `ts`.
    pub fn append_ts(self, ts: u64) -> (k: Key)
        ensures
            k@ == composite(self@, ts),
    {
        let mut data = self.data;
        push_be64(&mut data, !ts);
        Key { data }
    }

    /// Strip the timestamp suffix off a composite key, reporting a malformed
    /// key when no suffix can be there.
    pub fn truncate_ts_for(key: &[u8]) -> (r: Result<&[u8], Error>)
        ensures
            match r {
                Ok(user) => key@.len() >= TS_LEN && user@ == user_of(key@),
                Err(e) => key@.len() < TS_LEN && e is MalformedKey,
            },
    {
        let n = key.len();
        if n < TS_LEN {
            return Err(Error::MalformedKey);
        }
        Ok(vstd::slice::slice_subrange(key, 0, n - TS_LEN))
    }

    /// Read the timestamp out of a composite key's suffix.
    pub fn decode_ts_from(key: &[u8]) -> (r: Result<u64, Error>)
        ensures
            match r {
                Ok(ts) => key@.len() >= TS_LEN && ts == ts_of(key@),
                Err(e) => key@.len() < TS_LEN && e is MalformedKey,
            },
    {
        let n = key.len();
        if n < TS_LEN {
            return Err(Error::MalformedKey);
        }
        let raw = read_be64(key, n - 8);
        Ok(!raw)
    }

    /// Whether a composite key's user-key prefix equals the given user key.
    pub fn is_user_key_eq(key: &[u8], user_key: &[u8]) -> (r: bool)
        ensures
            r <==> (key@.len() == user_key@.len() + TS_LEN && user_of(key@) == user_key@),
    {
        let n = key.len();
        if n < TS_LEN || n - TS_LEN != user_key.len() {
            return false;
        }
        bytes_eq(vstd::slice::slice_subrange(key, 0, n - TS_LEN), user_key)
    }
}

} // verus!
