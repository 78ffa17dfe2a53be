//! Lexicographic order on byte strings.
//!
//! Keys in every column family are opaque byte strings whose total order is
//! plain lexicographic order over raw bytes. This module defines that order
//! as a specification, provides executable comparisons, and proves the
//! ordering facts the cursor and scanner proofs rest on.

use vstd::prelude::*;

verus! {

/// Strict lexicographic order: `a` sorts before `b`.
pub open spec fn lex_lt(a: Seq<u8>, b: Seq<u8>) -> bool
    decreases a.len(),
{
    if b.len() == 0 {
        false
    } else if a.len() == 0 {
        true
    } else if a[0] < b[0] {
        true
    } else if a[0] > b[0] {
        false
    } else {
        lex_lt(a.subrange(1, a.len() as int), b.subrange(1, b.len() as int))
    }
}

pub open spec fn lex_le(a: Seq<u8>, b: Seq<u8>) -> bool {
    lex_lt(a, b) || a == b
}

/// `a` is a strict prefix of `b`.
pub open spec fn is_strict_prefix(a: Seq<u8>, b: Seq<u8>) -> bool {
    a.len() < b.len() && a == b.subrange(0, a.len() as int)
}

/// Neither byte string is a strict prefix of the other.
pub open spec fn prefix_incomparable(a: Seq<u8>, b: Seq<u8>) -> bool {
    !is_strict_prefix(a, b) && !is_strict_prefix(b, a)
}

pub proof fn lemma_lex_lt_irrefl(a: Seq<u8>)
    ensures
        !lex_lt(a, a),
    decreases a.len(),
{
    if a.len() > 0 {
        lemma_lex_lt_irrefl(a.subrange(1, a.len() as int));
    }
}

pub proof fn lemma_lex_lt_asym(a: Seq<u8>, b: Seq<u8>)
    requires
        lex_lt(a, b),
    ensures
        !lex_lt(b, a),
        a != b,
    decreases a.len(),
{
    if a.len() > 0 && b.len() > 0 && a[0] == b[0] {
        let a1 = a.subrange(1, a.len() as int);
        let b1 = b.subrange(1, b.len() as int);
        lemma_lex_lt_asym(a1, b1);
        if a == b {
            assert(a1 =~= b1);
        }
    }
}

pub proof fn lemma_lex_total(a: Seq<u8>, b: Seq<u8>)
    ensures
        lex_lt(a, b) || lex_lt(b, a) || a == b,
    decreases a.len(),
{
    if a.len() > 0 && b.len() > 0 && a[0] == b[0] {
        let a1 = a.subrange(1, a.len() as int);
        let b1 = b.subrange(1, b.len() as int);
        lemma_lex_total(a1, b1);
        if a1 == b1 {
            assert(a =~= b) by {
                assert(forall|j: int| 1 <= j < a.len() ==> a[j] == a1[j - 1]);
                assert(forall|j: int| 1 <= j < b.len() ==> b[j] == b1[j - 1]);
            }
        }
    }
}

pub proof fn lemma_lex_lt_trans(a: Seq<u8>, b: Seq<u8>, c: Seq<u8>)
    requires
        lex_lt(a, b),
        lex_lt(b, c),
    ensures
        lex_lt(a, c),
    decreases a.len(),
{
    if a.len() > 0 && b.len() > 0 && c.len() > 0 {
        if a[0] == b[0] && b[0] == c[0] {
            lemma_lex_lt_trans(
                a.subrange(1, a.len() as int),
                b.subrange(1, b.len() as int),
                c.subrange(1, c.len() as int),
            );
        }
    }
}

pub proof fn lemma_lex_le_trans(a: Seq<u8>, b: Seq<u8>, c: Seq<u8>)
    requires
        lex_le(a, b),
        lex_le(b, c),
    ensures
        lex_le(a, c),
{
    if a != b && b != c {
        lemma_lex_lt_trans(a, b, c);
    }
}

pub proof fn lemma_lex_le_lt_trans(a: Seq<u8>, b: Seq<u8>, c: Seq<u8>)
    requires
        lex_le(a, b),
        lex_lt(b, c),
    ensures
        lex_lt(a, c),
{
    if a != b {
        lemma_lex_lt_trans(a, b, c);
    }
}

pub proof fn lemma_lex_lt_le_trans(a: Seq<u8>, b: Seq<u8>, c: Seq<u8>)
    requires
        lex_lt(a, b),
        lex_le(b, c),
    ensures
        lex_lt(a, c),
{
    if b != c {
        lemma_lex_lt_trans(a, b, c);
    }
}

/// A strict prefix sorts strictly before its extensions.
pub proof fn lemma_strict_prefix_lt(a: Seq<u8>, b: Seq<u8>)
    requires
        is_strict_prefix(a, b),
    ensures
        lex_lt(a, b),
    decreases a.len(),
{
    if a.len() > 0 {
        assert(a[0] == b[0]) by {
            assert(b.subrange(0, a.len() as int)[0] == b[0]);
        }
        let a1 = a.subrange(1, a.len() as int);
        let b1 = b.subrange(1, b.len() as int);
        assert(is_strict_prefix(a1, b1)) by {
            assert(a1 =~= b1.subrange(0, a1.len() as int)) by {
                assert forall|j: int| 0 <= j < a1.len() implies a1[j] == b1.subrange(
                    0,
                    a1.len() as int,
                )[j] by {
                    assert(a1[j] == a[j + 1]);
                    assert(a[j + 1] == b.subrange(0, a.len() as int)[j + 1]);
                    assert(b1.subrange(0, a1.len() as int)[j] == b1[j]);
                    assert(b1[j] == b[j + 1]);
                }
            }
        }
        lemma_strict_prefix_lt(a1, b1);
    }
}

/// A byte string never sorts after any of its extensions.
pub proof fn lemma_prefix_le(a: Seq<u8>, ext: Seq<u8>)
    ensures
        lex_le(a, a + ext),
{
    if ext.len() == 0 {
        assert(a =~= a + ext);
    } else {
        assert(is_strict_prefix(a, a + ext)) by {
            assert(a =~= (a + ext).subrange(0, a.len() as int));
        }
        lemma_strict_prefix_lt(a, a + ext);
    }
}

/// Two byte strings that agree up to position `i` and then differ are
/// ordered by the byte at `i`.
pub proof fn lemma_lex_by_first_diff(a: Seq<u8>, b: Seq<u8>, i: int)
    requires
        0 <= i < a.len(),
        i < b.len(),
        forall|j: int| 0 <= j < i ==> a[j] == b[j],
        a[i] < b[i],
    ensures
        lex_lt(a, b),
    decreases i,
{
    if i == 0 {
    } else {
        let a1 = a.subrange(1, a.len() as int);
        let b1 = b.subrange(1, b.len() as int);
        assert(forall|j: int| 0 <= j < i - 1 ==> a1[j] == a[j + 1] && b1[j] == b[j + 1]);
        assert(a1[i - 1] == a[i] && b1[i - 1] == b[i]);
        lemma_lex_by_first_diff(a1, b1, i - 1);
    }
}

/// Prepending a common prefix preserves the order of the tails.
pub proof fn lemma_common_prefix_order(p: Seq<u8>, s: Seq<u8>, t: Seq<u8>)
    ensures
        lex_lt(p + s, p + t) <==> lex_lt(s, t),
    decreases p.len(),
{
    if p.len() == 0 {
        assert(p + s =~= s);
        assert(p + t =~= t);
    } else {
        let p1 = p.subrange(1, p.len() as int);
        assert((p + s).subrange(1, (p + s).len() as int) =~= p1 + s);
        assert((p + t).subrange(1, (p + t).len() as int) =~= p1 + t);
        assert((p + s)[0] == p[0] && (p + t)[0] == p[0]);
        lemma_common_prefix_order(p1, s, t);
    }
}

/// When neither string is a prefix of the other, their order is decided
/// strictly inside the shorter length, so arbitrary extensions compare
/// exactly as the originals do.
pub proof fn lemma_incomparable_extend(a: Seq<u8>, b: Seq<u8>, s: Seq<u8>, t: Seq<u8>)
    requires
        lex_lt(a, b),
        !is_strict_prefix(a, b),
    ensures
        lex_lt(a + s, b + t),
    decreases a.len(),
{
    if a.len() == 0 {
        assert(b.len() > 0);
        assert(a =~= b.subrange(0, 0));
        assert(false);
    } else if b.len() == 0 {
        assert(false);
    } else if a[0] < b[0] {
        assert((a + s)[0] == a[0]);
        assert((b + t)[0] == b[0]);
    } else {
        assert(a[0] == b[0]);
        let a1 = a.subrange(1, a.len() as int);
        let b1 = b.subrange(1, b.len() as int);
        assert(!is_strict_prefix(a1, b1)) by {
            if is_strict_prefix(a1, b1) {
                assert(a =~= b.subrange(0, a.len() as int)) by {
                    assert forall|j: int| 0 <= j < a.len() implies a[j] == b.subrange(
                        0,
                        a.len() as int,
                    )[j] by {
                        if j > 0 {
                            assert(a1[j - 1] == b1.subrange(0, a1.len() as int)[j - 1]);
                            assert(b1.subrange(0, a1.len() as int)[j - 1] == b1[j - 1]);
                            assert(a1[j - 1] == a[j] && b1[j - 1] == b[j]);
                        }
                        assert(b.subrange(0, a.len() as int)[j] == b[j]);
                    }
                }
            }
        }
        lemma_incomparable_extend(a1, b1, s, t);
        assert((a + s).subrange(1, (a + s).len() as int) =~= a1 + s);
        assert((b + t).subrange(1, (b + t).len() as int) =~= b1 + t);
        assert((a + s)[0] == a[0] && (b + t)[0] == b[0]);
    }
}

/// Anything squeezed between a string and one of its extensions starts with
/// that string.
pub proof fn lemma_squeeze_prefix(a: Seq<u8>, b: Seq<u8>, ext: Seq<u8>)
    requires
        lex_le(a, b),
        lex_le(b, a + ext),
    ensures
        a.len() <= b.len(),
        a == b.subrange(0, a.len() as int),
    decreases a.len(),
{
    if a.len() == 0 {
        assert(a =~= b.subrange(0, 0));
    } else if a == b {
        assert(a =~= b.subrange(0, a.len() as int));
    } else {
        assert(lex_lt(a, b));
        assert(b.len() > 0);
        assert((a + ext)[0] == a[0]);
        if a[0] < b[0] {
            if b == a + ext {
                assert(b[0] == a[0]);
                assert(false);
            } else {
                assert(lex_lt(b, a + ext));
                assert(false);
            }
        } else {
            assert(a[0] == b[0]);
            let a1 = a.subrange(1, a.len() as int);
            let b1 = b.subrange(1, b.len() as int);
            assert(lex_lt(a1, b1));
            assert(lex_le(b1, a1 + ext)) by {
                assert((a + ext).subrange(1, (a + ext).len() as int) =~= a1 + ext);
                if b == a + ext {
                    assert(b1 =~= a1 + ext);
                } else {
                    assert(lex_lt(b, a + ext));
                }
            }
            lemma_squeeze_prefix(a1, b1, ext);
            assert(a =~= b.subrange(0, a.len() as int)) by {
                assert forall|j: int| 0 <= j < a.len() implies a[j] == b.subrange(
                    0,
                    a.len() as int,
                )[j] by {
                    if j > 0 {
                        assert(a1[j - 1] == b1.subrange(0, a1.len() as int)[j - 1]);
                        assert(b1.subrange(0, a1.len() as int)[j - 1] == b1[j - 1]);
                        assert(a1[j - 1] == a[j] && b1[j - 1] == b[j]);
                    }
                    assert(b.subrange(0, a.len() as int)[j] == b[j]);
                }
            }
        }
    }
}

/// Executable equality of byte strings.
pub fn bytes_eq(a: &[u8], b: &[u8]) -> (r: bool)
    ensures
        r <==> a@ == b@,
{
    if a.len() != b.len() {
        return false;
    }
    let n = a.len();
    let mut i: usize = 0;
    while i < n
        invariant
            0 <= i <= n,
            n == a@.len() && n == b@.len(),
            forall|j: int| 0 <= j < i ==> a@[j] == b@[j],
        decreases n - i,
    {
        if a[i] != b[i] {
            return false;
        }
        i = i + 1;
    }
    proof {
        assert(a@ =~= b@);
    }
    true
}

/// Executable strict lexicographic comparison.
pub fn bytes_lt(a: &[u8], b: &[u8]) -> (r: bool)
    ensures
        r <==> lex_lt(a@, b@),
{
    let an = a.len();
    let bn = b.len();
    let n = if an < bn {
        an
    } else {
        bn
    };
    let mut i: usize = 0;
    while i < n
        invariant
            0 <= i <= n,
            an == a@.len(),
            bn == b@.len(),
            n == if an < bn {
                an
            } else {
                bn
            },
            forall|j: int| 0 <= j < i ==> a@[j] == b@[j],
        decreases n - i,
    {
        if a[i] < b[i] {
            proof {
                lemma_lex_by_first_diff(a@, b@, i as int);
            }
            return true;
        }
        if a[i] > b[i] {
            proof {
                lemma_lex_by_first_diff(b@, a@, i as int);
                lemma_lex_lt_asym(b@, a@);
            }
            return false;
        }
        i = i + 1;
    }
    if an < bn {
        proof {
            assert(a@ =~= b@.subrange(0, a@.len() as int));
            lemma_strict_prefix_lt(a@, b@);
        }
        true
    } else {
        proof {
            if an == bn {
                assert(a@ =~= b@);
                lemma_lex_lt_irrefl(a@);
            } else {
                assert(b@ =~= a@.subrange(0, b@.len() as int));
                lemma_strict_prefix_lt(b@, a@);
                lemma_lex_lt_asym(b@, a@);
            }
        }
        false
    }
}

/// Executable check that `a` is a strict prefix of `b`.
pub fn bytes_strict_prefix(a: &[u8], b: &[u8]) -> (r: bool)
    ensures
        r <==> is_strict_prefix(a@, b@),
{
    if a.len() >= b.len() {
        return false;
    }
    let n = a.len();
    let mut i: usize = 0;
    while i < n
        invariant
            0 <= i <= n,
            n == a@.len(),
            n < b@.len(),
            forall|j: int| 0 <= j < i ==> a@[j] == b@[j],
        decreases n - i,
    {
        if a[i] != b[i] {
            proof {
                if is_strict_prefix(a@, b@) {
                    assert(b@.subrange(0, a@.len() as int)[i as int] == b@[i as int]);
                }
            }
            return false;
        }
        i = i + 1;
    }
    proof {
        assert(a@ =~= b@.subrange(0, a@.len() as int));
    }
    true
}

} // verus!
