//! A positioned iterator over one column family of a snapshot.
//!
//! The engine under the scanner is an ordered key-value store; a cursor owns
//! an immutable, sorted copy of one column family's entries, restricted at
//! construction to keys at or above the configured lower bound. The upper
//! bound stays live in the cursor and is enforced in the forward direction
//! (`seek`, `next`, `seek_to_last`), matching an LSM iterator whose upper
//! bound caps forward iteration; `seek_for_prev` may inspect the key at the
//! bound itself, which `reverse_seek` relies on.
//!
//! Every mutating operation counts itself in the statistics sink it is
//! handed.

use vstd::prelude::*;

use crate::order::bytes_eq;
use crate::order::bytes_lt;
use crate::order::lemma_lex_lt_asym;
use crate::order::lemma_lex_total;
use crate::order::lex_le;
use crate::order::lex_lt;
use crate::statistics::bump;
use crate::statistics::sat_inc;
use crate::statistics::CfStatistics;

verus! {

/// Step budget before an operation that walks the store falls back to a
/// seek.
pub const SEEK_BOUND: u64 = 8;

/// One key-value pair of a column family.
#[derive(Debug)]
pub struct Entry {
    pub key: Vec<u8>,
    pub value: Vec<u8>,
}

/// The mathematical content of an entry.
pub struct EntryView {
    pub key: Seq<u8>,
    pub value: Seq<u8>,
}

impl View for Entry {
    type V = EntryView;

    open spec fn view(&self) -> EntryView {
        EntryView { key: self.key@, value: self.value@ }
    }
}

/// The views of a sequence of entries.
pub open spec fn views(s: Seq<Entry>) -> Seq<EntryView> {
    s.map_values(|e: Entry| e@)
}

/// Entries strictly sorted by key.
pub open spec fn sorted_entries(s: Seq<EntryView>) -> bool {
    forall|i: int, j: int| 0 <= i < j < s.len() ==> lex_lt(#[trigger] s[i].key, #[trigger] s[j].key)
}

/// Whether a key lies below an optional exclusive upper bound.
pub open spec fn below_upper(k: Seq<u8>, upper: Option<Seq<u8>>) -> bool {
    match upper {
        None => true,
        Some(u) => lex_lt(k, u),
    }
}

/// `part` is what remains of the sorted column family `full` after dropping
/// exactly the entries below the lower bound: the order is kept, everything
/// dropped lies below the bound, and everything kept lies at or above it.
pub open spec fn lower_clipped(
    full: Seq<EntryView>,
    lower: Option<Seq<u8>>,
    part: Seq<EntryView>,
) -> bool {
    &&& part.len() <= full.len()
    &&& (forall|j: int| 0 <= j < part.len() ==> #[trigger] part[j] == full[full.len() - part.len() + j])
    &&& (forall|j: int|
        0 <= j < full.len() - part.len() ==> lower is Some && lex_lt(
            (#[trigger] full[j]).key,
            lower.unwrap(),
        ))
    &&& (match lower {
        None => part.len() == full.len(),
        Some(l) => forall|j: int| 0 <= j < part.len() ==> lex_le(l, (#[trigger] part[j]).key),
    })
}

/// A cursor over one column family.
#[derive(Debug)]
pub struct Cursor {
    pub entries: Vec<Entry>,
    pub upper: Option<Vec<u8>>,
    pub pos: usize,
    pub valid: bool,
}

impl View for Cursor {
    type V = Seq<EntryView>;

    open spec fn view(&self) -> Seq<EntryView> {
        views(self.entries@)
    }
}

impl Cursor {
    pub open spec fn wf(self) -> bool {
        &&& sorted_entries(self@)
        &&& (self.valid ==> self.pos < self@.len())
    }

    pub open spec fn upper_view(self) -> Option<Seq<u8>> {
        match self.upper {
            None => None,
            Some(ref u) => Some(u@),
        }
    }

    pub open spec fn is_valid(self) -> bool {
        self.valid
    }

    pub open spec fn position(self) -> int {
        self.pos as int
    }

    /// The key under the cursor.
    pub open spec fn cur_key(self) -> Seq<u8>
        recommends
            self.is_valid(),
            self.wf(),
    {
        self@[self.position()].key
    }

    /// Build a cursor over `entries`, dropping everything below the lower
    /// bound and remembering the upper bound. The cursor starts unpositioned.
    pub fn new(entries: &Vec<Entry>, lower: Option<&Vec<u8>>, upper: Option<&Vec<u8>>) -> (r:
        Cursor)
        requires
            sorted_entries(views(entries@)),
        ensures
            r.wf(),
            !r.is_valid(),
            r.upper_view() == (match upper {
                None => None::<Seq<u8>>,
                Some(u) => Some(u@),
            }),
            r@.len() <= views(entries@).len(),
            forall|j: int|
                0 <= j < r@.len() ==> r@[j] == views(entries@)[views(entries@).len() - r@.len()
                    + j],
            forall|j: int|
                0 <= j < views(entries@).len() - r@.len() ==> lower is Some && lex_lt(
                    views(entries@)[j].key,
                    lower.unwrap()@,
                ),
            match lower {
                None => r@.len() == views(entries@).len(),
                Some(l) => forall|j: int| 0 <= j < r@.len() ==> lex_le(l@, r@[j].key),
            },
    {
        let ghost full = views(entries@);
        let n = entries.len();
        let mut d: usize = 0;
        match lower {
            None => {},
            Some(l) => {
                while d < n && bytes_lt(entries[d].key.as_slice(), l.as_slice())
                    invariant
                        0 <= d <= n,
                        n == full.len(),
                        full == views(entries@),
                        forall|j: int| 0 <= j < d ==> lex_lt(full[j].key, l@),
                    decreases n - d,
                {
                    d = d + 1;
                }
                proof {
                    if d < n {
                        lemma_lex_total(full[d as int].key, l@);
                        assert forall|j: int| d <= j < n implies lex_le(l@, full[j].key) by {
                            if j > d {
                                assert(lex_lt(full[d as int].key, full[j].key));
                                crate::order::lemma_lex_le_trans(
                                    l@,
                                    full[d as int].key,
                                    full[j].key,
                                );
                            }
                        }
                    }
                }
            },
        }
        let mut data: Vec<Entry> = Vec::new();
        let mut i: usize = d;
        while i < n
            invariant
                d <= i <= n,
                n == full.len(),
                full == views(entries@),
                views(data@).len() == i - d,
                forall|j: int| 0 <= j < i - d ==> views(data@)[j] == full[d + j],
            decreases n - i,
        {
            let ghost prev_data = data@;
            let e = &entries[i];
            let k = crate::key::clone_bytes(&e.key);
            let v = crate::key::clone_bytes(&e.value);
            data.push(Entry { key: k, value: v });
            proof {
                assert(data@ == prev_data.push(Entry { key: k, value: v }));
                assert forall|j: int| 0 <= j < i + 1 - d implies views(data@)[j] == full[d + j] by {
                    if j < i - d {
                        assert(data@[j] == prev_data[j]);
                        assert(views(prev_data)[j] == full[d + j]);
                    } else {
                        assert(data@[j]@ == full[i as int]);
                    }
                }
            }
            i = i + 1;
        }
        let up: Option<Vec<u8>> = match upper {
            None => None,
            Some(u) => Some(crate::key::clone_bytes(u)),
        };
        let r = Cursor { entries: data, upper: up, pos: 0, valid: false };
        proof {
            assert(sorted_entries(r@)) by {
                assert forall|i2: int, j2: int| 0 <= i2 < j2 < r@.len() implies lex_lt(
                    r@[i2].key,
                    r@[j2].key,
                ) by {
                    assert(r@[i2] == full[d + i2]);
                    assert(r@[j2] == full[d + j2]);
                }
            }
        }
        r
    }

    /// Whether the cursor is on an entry.
    pub fn valid(&self) -> (r: bool)
        ensures
            r == self.is_valid(),
    {
        self.valid
    }

    /// The key under the cursor.
    pub fn key(&self) -> (r: &Vec<u8>)
        requires
            self.wf(),
            self.is_valid(),
        ensures
            r@ == self.cur_key(),
    {
        &self.entries[self.pos].key
    }

    /// The value under the cursor.
    pub fn value(&self) -> (r: &Vec<u8>)
        requires
            self.wf(),
            self.is_valid(),
        ensures
            r@ == self@[self.position()].value,
    {
        &self.entries[self.pos].value
    }

    /// Step one entry forward (toward larger keys). Walks off the store or
    /// past the upper bound and becomes invalid.
    pub fn next(&mut self, stats: &mut CfStatistics)
        requires
            old(self).wf(),
            old(self).is_valid(),
        ensures
            final(self)@ == old(self)@,
            final(self).upper_view() == old(self).upper_view(),
            final(self).wf(),
            ({
                let p = old(self).position() + 1;
                if p < old(self)@.len() && below_upper(old(self)@[p].key, old(self).upper_view()) {
                    final(self).is_valid() && final(self).position() == p
                } else {
                    !final(self).is_valid()
                }
            }),
            final(stats).next == sat_inc(old(stats).next),
            final(stats).prev == old(stats).prev,
            final(stats).seek == old(stats).seek,
            final(stats).seek_for_prev == old(stats).seek_for_prev,
            final(stats).processed == old(stats).processed,
    {
        stats.next = bump(stats.next);
        let n = self.entries.len();
        proof {
            assert(self.pos < self.entries@.len());
        }
        if self.pos + 1 < n {
            let below = match &self.upper {
                None => true,
                Some(u) => bytes_lt(self.entries[self.pos + 1].key.as_slice(), u.as_slice()),
            };
            if below {
                self.pos = self.pos + 1;
            } else {
                self.valid = false;
            }
        } else {
            self.valid = false;
        }
    }

    /// Step one entry backward (toward smaller keys). Walks off the store
    /// and becomes invalid.
    pub fn prev(&mut self, stats: &mut CfStatistics)
        requires
            old(self).wf(),
            old(self).is_valid(),
        ensures
            final(self)@ == old(self)@,
            final(self).upper_view() == old(self).upper_view(),
            final(self).wf(),
            ({
                if old(self).position() > 0 {
                    final(self).is_valid() && final(self).position() == old(self).position() - 1
                } else {
                    !final(self).is_valid()
                }
            }),
            final(stats).prev == sat_inc(old(stats).prev),
            final(stats).next == old(stats).next,
            final(stats).seek == old(stats).seek,
            final(stats).seek_for_prev == old(stats).seek_for_prev,
            final(stats).processed == old(stats).processed,
    {
        stats.prev = bump(stats.prev);
        if self.pos > 0 {
            self.pos = self.pos - 1;
        } else {
            self.valid = false;
        }
    }

    /// Position at the first entry with key at or above `key` that the upper
    /// bound admits.
    pub fn internal_seek(&mut self, key: &crate::key::Key, stats: &mut CfStatistics)
        requires
            old(self).wf(),
        ensures
            final(self)@ == old(self)@,
            final(self).upper_view() == old(self).upper_view(),
            final(self).wf(),
            final(self).is_valid() ==> {
                let p = final(self).position();
                &&& p < final(self)@.len()
                &&& lex_le(key@, final(self)@[p].key)
                &&& below_upper(final(self)@[p].key, final(self).upper_view())
                &&& forall|j: int| 0 <= j < p ==> lex_lt(final(self)@[j].key, key@)
            },
            !final(self).is_valid() ==> forall|j: int|
                0 <= j < final(self)@.len() ==> lex_lt(#[trigger] final(self)@[j].key, key@)
                    || !below_upper(final(self)@[j].key, final(self).upper_view()),
            final(stats).seek == sat_inc(old(stats).seek),
            final(stats).prev == old(stats).prev,
            final(stats).next == old(stats).next,
            final(stats).seek_for_prev == old(stats).seek_for_prev,
            final(stats).processed == old(stats).processed,
    {
        stats.seek = bump(stats.seek);
        let n = self.entries.len();
        let mut i: usize = 0;
        while i < n && bytes_lt(self.entries[i].key.as_slice(), key.encoded().as_slice())
            invariant
                0 <= i <= n,
                n == self@.len(),
                forall|j: int| 0 <= j < i ==> lex_lt(self@[j].key, key@),
                self@ == old(self)@,
                self.upper == old(self).upper,
                self.entries == old(self).entries,
            decreases n - i,
        {
            i = i + 1;
        }
        if i == n {
            self.valid = false;
            return ;
        }
        proof {
            lemma_lex_total(key@, self@[i as int].key);
        }
        let below = match &self.upper {
            None => true,
            Some(u) => bytes_lt(self.entries[i].key.as_slice(), u.as_slice()),
        };
        if below {
            self.pos = i;
            self.valid = true;
        } else {
            self.valid = false;
            proof {
                let iv = i as int;
                assert forall|j: int| 0 <= j < self@.len() implies lex_lt(
                    #[trigger] self@[j].key,
                    key@,
                ) || !below_upper(self@[j].key, self.upper_view()) by {
                    if j >= iv {
                        let u = self.upper_view().unwrap();
                        if j > iv {
                            assert(lex_lt(self@[iv].key, self@[j].key));
                            if lex_lt(self@[j].key, u) {
                                crate::order::lemma_lex_lt_trans(self@[iv].key, self@[j].key, u);
                            }
                        }
                    }
                }
            }
        }
    }

    /// Position at the last entry with key at or below `key`, ignoring the
    /// upper bound: backing engines enforce that bound only while moving
    /// forward.
    pub fn internal_seek_for_prev(&mut self, key: &crate::key::Key, stats: &mut CfStatistics)
        requires
            old(self).wf(),
        ensures
            final(self)@ == old(self)@,
            final(self).upper_view() == old(self).upper_view(),
            final(self).wf(),
            final(self).is_valid() ==> {
                let p = final(self).position();
                &&& p < final(self)@.len()
                &&& lex_le(final(self)@[p].key, key@)
                &&& forall|j: int|
                    p < j < final(self)@.len() ==> lex_lt(key@, #[trigger] final(self)@[j].key)
            },
            !final(self).is_valid() ==> forall|j: int|
                0 <= j < final(self)@.len() ==> lex_lt(key@, #[trigger] final(self)@[j].key),
            final(stats).seek_for_prev == sat_inc(old(stats).seek_for_prev),
            final(stats).prev == old(stats).prev,
            final(stats).next == old(stats).next,
            final(stats).seek == old(stats).seek,
            final(stats).processed == old(stats).processed,
    {
        stats.seek_for_prev = bump(stats.seek_for_prev);
        self.seek_for_prev_untracked(key);
    }

    /// The positioning work of `internal_seek_for_prev`, shared with
    /// `near_seek_for_prev`.
    fn seek_for_prev_untracked(&mut self, key: &crate::key::Key)
        requires
            old(self).wf(),
        ensures
            final(self)@ == old(self)@,
            final(self).upper_view() == old(self).upper_view(),
            final(self).wf(),
            final(self).is_valid() ==> {
                let p = final(self).position();
                &&& p < final(self)@.len()
                &&& lex_le(final(self)@[p].key, key@)
                &&& forall|j: int|
                    p < j < final(self)@.len() ==> lex_lt(key@, #[trigger] final(self)@[j].key)
            },
            !final(self).is_valid() ==> forall|j: int|
                0 <= j < final(self)@.len() ==> lex_lt(key@, #[trigger] final(self)@[j].key),
    {
        let n = self.entries.len();
        let mut i: usize = n;
        while i > 0 && bytes_lt(key.encoded().as_slice(), self.entries[i - 1].key.as_slice())
            invariant
                0 <= i <= n,
                n == self@.len(),
                forall|j: int| i <= j < n ==> lex_lt(key@, #[trigger] self@[j].key),
                self@ == old(self)@,
                self.upper == old(self).upper,
                self.entries == old(self).entries,
            decreases i,
        {
            i = i - 1;
        }
        if i == 0 {
            self.valid = false;
        } else {
            self.pos = i - 1;
            self.valid = true;
            proof {
                lemma_lex_total(self@[i - 1].key, key@);
            }
        }
    }

    /// Position at the last entry, or the last one the upper bound admits.
    pub fn seek_to_last(&mut self, stats: &mut CfStatistics)
        requires
            old(self).wf(),
        ensures
            final(self)@ == old(self)@,
            final(self).upper_view() == old(self).upper_view(),
            final(self).wf(),
            final(self).is_valid() ==> {
                let p = final(self).position();
                &&& p < final(self)@.len()
                &&& below_upper(final(self)@[p].key, final(self).upper_view())
                &&& forall|j: int|
                    p < j < final(self)@.len() ==> !below_upper(
                        #[trigger] final(self)@[j].key,
                        final(self).upper_view(),
                    )
            },
            !final(self).is_valid() ==> forall|j: int|
                0 <= j < final(self)@.len() ==> !below_upper(
                    #[trigger] final(self)@[j].key,
                    final(self).upper_view(),
                ),
            final(stats).seek == sat_inc(old(stats).seek),
            final(stats).prev == old(stats).prev,
            final(stats).next == old(stats).next,
            final(stats).seek_for_prev == old(stats).seek_for_prev,
            final(stats).processed == old(stats).processed,
    {
        stats.seek = bump(stats.seek);
        let n = self.entries.len();
        match &self.upper {
            None => {
                if n > 0 {
                    self.pos = n - 1;
                    self.valid = true;
                } else {
                    self.valid = false;
                }
            },
            Some(u) => {
                let mut i: usize = n;
                while i > 0 && !bytes_lt(self.entries[i - 1].key.as_slice(), u.as_slice())
                    invariant
                        0 <= i <= n,
                        n == self@.len(),
                        self.upper is Some && self.upper.unwrap()@ == u@,
                        forall|j: int|
                            i <= j < n ==> !below_upper(#[trigger] self@[j].key, self.upper_view()),
                        self@ == old(self)@,
                        self.upper == old(self).upper,
                        self.entries == old(self).entries,
                    decreases i,
                {
                    i = i - 1;
                }
                if i == 0 {
                    self.valid = false;
                } else {
                    self.pos = i - 1;
                    self.valid = true;
                }
            },
        }
    }

    /// Position at the last entry with key strictly below `key`: a backward
    /// seek to the greatest key less than the given one.
    pub fn reverse_seek(&mut self, key: &crate::key::Key, stats: &mut CfStatistics)
        requires
            old(self).wf(),
        ensures
            final(self)@ == old(self)@,
            final(self).upper_view() == old(self).upper_view(),
            final(self).wf(),
            final(self).is_valid() ==> {
                let p = final(self).position();
                &&& p < final(self)@.len()
                &&& lex_lt(final(self)@[p].key, key@)
                &&& forall|j: int|
                    p < j < final(self)@.len() ==> !lex_lt(#[trigger] final(self)@[j].key, key@)
            },
            !final(self).is_valid() ==> forall|j: int|
                0 <= j < final(self)@.len() ==> !lex_lt(#[trigger] final(self)@[j].key, key@),
            final(stats).seek_for_prev == sat_inc(old(stats).seek_for_prev),
            final(stats).prev == (if exists|j: int|
                0 <= j < old(self)@.len() && (#[trigger] old(self)@[j].key) == key@ {
                sat_inc(old(stats).prev)
            } else {
                old(stats).prev
            }),
            final(stats).next == old(stats).next,
            final(stats).seek == old(stats).seek,
            final(stats).processed == old(stats).processed,
    {
        self.internal_seek_for_prev(key, stats);
        if !self.valid {
            proof {
                assert forall|j: int| 0 <= j < self@.len() implies !((#[trigger] self@[j].key)
                    == key@) && !lex_lt(self@[j].key, key@) by {
                    lemma_lex_lt_asym(key@, self@[j].key);
                }
            }
            return ;
        }
        let ghost p = self.position();
        if bytes_eq(self.entries[self.pos].key.as_slice(), key.encoded().as_slice()) {
            proof {
                assert(exists|j: int| 0 <= j < self@.len() && (#[trigger] self@[j].key) == key@)
                    by {
                    assert(self@[p].key == key@);
                }
            }
            self.prev(stats);
            proof {
                if p > 0 {
                    assert(lex_lt(self@[p - 1].key, key@));
                    assert forall|j: int| p - 1 < j < self@.len() implies !lex_lt(
                        #[trigger] self@[j].key,
                        key@,
                    ) by {
                        if j == p {
                            crate::order::lemma_lex_lt_irrefl(key@);
                        } else {
                            lemma_lex_lt_asym(key@, self@[j].key);
                        }
                    }
                } else {
                    assert forall|j: int| 0 <= j < self@.len() implies !lex_lt(
                        #[trigger] self@[j].key,
                        key@,
                    ) by {
                        if j == 0 {
                            crate::order::lemma_lex_lt_irrefl(key@);
                        } else {
                            lemma_lex_lt_asym(key@, self@[j].key);
                        }
                    }
                }
            }
        } else {
            proof {
                lemma_lex_total(self@[p].key, key@);
                assert forall|j: int| p < j < self@.len() implies !lex_lt(
                    #[trigger] self@[j].key,
                    key@,
                ) by {
                    lemma_lex_lt_asym(key@, self@[j].key);
                }
                assert forall|j: int| 0 <= j < self@.len() implies !((#[trigger] self@[j].key)
                    == key@) by {
                    if self@[j].key == key@ {
                        if j < p {
                            assert(lex_lt(self@[j].key, self@[p].key));
                            crate::order::lemma_lex_lt_trans(self@[j].key, self@[p].key, key@);
                            crate::order::lemma_lex_lt_irrefl(key@);
                        } else if j > p {
                            lemma_lex_lt_asym(key@, self@[j].key);
                        }
                    }
                }
            }
        }
    }

    /// Like `internal_seek_for_prev`, but first tries up to `SEEK_BOUND`
    /// backward steps from the current position, paying for a full seek only
    /// when the target is further away.
    pub fn near_seek_for_prev(&mut self, key: &crate::key::Key, stats: &mut CfStatistics)
        requires
            old(self).wf(),
        ensures
            final(self)@ == old(self)@,
            final(self).upper_view() == old(self).upper_view(),
            final(self).wf(),
            final(self).is_valid() ==> {
                let p = final(self).position();
                &&& p < final(self)@.len()
                &&& lex_le(final(self)@[p].key, key@)
                &&& forall|j: int|
                    p < j < final(self)@.len() ==> lex_lt(key@, #[trigger] final(self)@[j].key)
            },
            !final(self).is_valid() ==> forall|j: int|
                0 <= j < final(self)@.len() ==> lex_lt(key@, #[trigger] final(self)@[j].key),
            old(stats).prev <= final(stats).prev <= old(stats).prev + SEEK_BOUND,
            old(stats).seek_for_prev <= final(stats).seek_for_prev <= old(stats).seek_for_prev
                + 1,
            final(stats).next == old(stats).next,
            final(stats).seek == old(stats).seek,
            final(stats).processed == old(stats).processed,
    {
        if !self.valid {
            stats.seek_for_prev = bump(stats.seek_for_prev);
            self.seek_for_prev_untracked(key);
            return ;
        }
        if bytes_lt(self.entries[self.pos].key.as_slice(), key.encoded().as_slice()) {
            // The target lies ahead of the cursor; stepping backward cannot
            // reach it.
            stats.seek_for_prev = bump(stats.seek_for_prev);
            self.seek_for_prev_untracked(key);
            return ;
        }
        proof {
            lemma_lex_total(self@[self.position()].key, key@);
            assert forall|j: int| self.position() < j < self@.len() implies lex_lt(
                key@,
                #[trigger] self@[j].key,
            ) by {
                assert(lex_lt(self@[self.position()].key, self@[j].key));
                if lex_lt(key@, self@[self.position()].key) {
                    crate::order::lemma_lex_lt_trans(
                        key@,
                        self@[self.position()].key,
                        self@[j].key,
                    );
                }
            }
        }
        let mut steps: u64 = 0;
        while steps < SEEK_BOUND && self.valid && bytes_lt(
            key.encoded().as_slice(),
            self.entries[self.pos].key.as_slice(),
        )
            invariant
                self@ == old(self)@,
                self.upper_view() == old(self).upper_view(),
                self.wf(),
                0 <= steps <= SEEK_BOUND,
                self.valid ==> self.position() < self@.len(),
                self.valid ==> forall|j: int|
                    self.position() < j < self@.len() ==> lex_lt(key@, #[trigger] self@[j].key),
                !self.valid ==> forall|j: int|
                    0 <= j < self@.len() ==> lex_lt(key@, #[trigger] self@[j].key),
                old(stats).prev <= stats.prev <= old(stats).prev + steps,
                stats.seek_for_prev == old(stats).seek_for_prev,
                stats.next == old(stats).next,
                stats.seek == old(stats).seek,
                stats.processed == old(stats).processed,
            decreases SEEK_BOUND - steps,
    {
            let ghost p = self.position();
            self.prev(stats);
            proof {
                assert forall|j: int| self.valid && self.position() < j < self@.len() implies
                    lex_lt(key@, #[trigger] self@[j].key) by {
                    if j > p {
                    } else {
                        assert(j == p);
                    }
                }
                if !self.valid {
                    assert forall|j: int| 0 <= j < self@.len() implies lex_lt(
                        key@,
                        #[trigger] self@[j].key,
                    ) by {
                        if j > 0 {
                        } else {
                            assert(j == p);
                        }
                    }
                }
            }
            steps = steps + 1;
        }
        if !self.valid {
            stats.seek_for_prev = bump(stats.seek_for_prev);
            self.seek_for_prev_untracked(key);
            return ;
        }
        if bytes_lt(key.encoded().as_slice(), self.entries[self.pos].key.as_slice()) {
            stats.seek_for_prev = bump(stats.seek_for_prev);
            self.seek_for_prev_untracked(key);
            return ;
        }
        proof {
            lemma_lex_total(self@[self.position()].key, key@);
        }
    }
}

} // verus!
