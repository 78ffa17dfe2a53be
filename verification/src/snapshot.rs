//! An immutable view of the three column families.
//!
//! The write column family maps composite keys to serialized write records;
//! the lock column family maps user keys to serialized lock records; the
//! default column family maps composite keys to out-of-line values.
//!
//! Each column family is a sorted sequence of entries. Beyond sortedness,
//! a well-formed snapshot promises that every write key carries a timestamp
//! suffix and that distinct user keys in the write column family are never
//! strict prefixes of one another — a guarantee of the external user-key
//! encoding that this crate's order reasoning rests on.

use vstd::prelude::*;

use crate::cursor::sorted_entries;
use crate::cursor::views;
use crate::cursor::Entry;
use crate::cursor::EntryView;
use crate::key::composite;
use crate::key::user_of;
use crate::key::Key;
use crate::key::TS_LEN;
use crate::lock::Lock;
use crate::order::bytes_eq;
use crate::order::bytes_lt;
use crate::order::bytes_strict_prefix;
use crate::order::lemma_lex_lt_asym;
use crate::order::lemma_lex_lt_irrefl;
use crate::order::lemma_lex_lt_trans;
use crate::order::lemma_lex_total;
use crate::order::lex_lt;
use crate::order::prefix_incomparable;
use crate::write::Write;

verus! {

/// Composite-key shape and prefix-freedom of user keys across one column
/// family of composite keys.
pub open spec fn composite_keys_wf(s: Seq<EntryView>) -> bool {
    &&& forall|i: int| 0 <= i < s.len() ==> (#[trigger] s[i].key).len() >= TS_LEN
    &&& forall|i: int, j: int|
        0 <= i < s.len() && 0 <= j < s.len() ==> prefix_incomparable(
            user_of(#[trigger] s[i].key),
            user_of(#[trigger] s[j].key),
        )
}

/// An immutable snapshot of the store.
#[derive(Debug)]
pub struct Snapshot {
    pub write: Vec<Entry>,
    pub lock: Vec<Entry>,
    pub default: Vec<Entry>,
}

impl Snapshot {
    pub open spec fn write_view(self) -> Seq<EntryView> {
        views(self.write@)
    }

    pub open spec fn lock_view(self) -> Seq<EntryView> {
        views(self.lock@)
    }

    pub open spec fn default_view(self) -> Seq<EntryView> {
        views(self.default@)
    }

    pub open spec fn wf(self) -> bool {
        &&& sorted_entries(self.write_view())
        &&& sorted_entries(self.lock_view())
        &&& sorted_entries(self.default_view())
        &&& composite_keys_wf(self.write_view())
    }

    /// An empty snapshot, to be filled by the `put_*` operations.
    pub fn new() -> (r: Snapshot)
        ensures
            r.wf(),
            r.write_view().len() == 0,
            r.lock_view().len() == 0,
            r.default_view().len() == 0,
    {
        Snapshot { write: Vec::new(), lock: Vec::new(), default: Vec::new() }
    }

    /// Record `write` for `user_key` at `commit_ts`. Refused (returning
    /// `false`, changing nothing) when the user key is prefix-comparable
    /// with a different user key already present, which the external key
    /// encoding never produces.
    pub fn put_write(&mut self, user_key: &[u8], commit_ts: u64, write: &Write) -> (r: bool)
        requires
            old(self).wf(),
        ensures
            final(self).wf(),
            final(self).lock_view() == old(self).lock_view(),
            final(self).default_view() == old(self).default_view(),
            r <==> forall|j: int|
                0 <= j < old(self).write_view().len() ==> prefix_incomparable(
                    user_of(#[trigger] old(self).write_view()[j].key),
                    user_key@,
                ),
            r ==> entry_put(
                old(self).write_view(),
                final(self).write_view(),
                composite(user_key@, commit_ts),
                crate::write::spec_write_bytes(write@),
            ),
            !r ==> final(self).write_view() == old(self).write_view(),
    {
        let ghost olds = self.write_view();
        let n = self.write.len();
        let mut i: usize = 0;
        while i < n
            invariant
                0 <= i <= n,
                n == olds.len(),
                olds == views(self.write@),
                old(self).wf(),
                self == old(self),
                forall|j: int|
                    0 <= j < i ==> prefix_incomparable(
                        user_of(#[trigger] olds[j].key),
                        user_key@,
                    ),
            decreases n - i,
        {
            let ek = &self.write[i].key;
            let m = ek.len();
            proof {
                assert(olds[i as int].key.len() >= TS_LEN);
            }
            let u = vstd::slice::slice_subrange(ek.as_slice(), 0, m - TS_LEN);
            proof {
                assert(u@ == user_of(olds[i as int].key));
            }
            if bytes_strict_prefix(u, user_key) || bytes_strict_prefix(user_key, u) {
                return false;
            }
            i = i + 1;
        }
        let ckey = Key::from_encoded_slice(user_key).append_ts(commit_ts);
        let value = write.to_bytes();
        proof {
            crate::key::lemma_user_of_composite(user_key@, commit_ts);
        }
        insert_sorted(&mut self.write, ckey.into_encoded(), value);
        proof {
            let news = self.write_view();
            let ck = composite(user_key@, commit_ts);
            assert(composite_keys_wf(news)) by {
                assert forall|a: int| 0 <= a < news.len() implies (#[trigger] news[a].key).len()
                    >= TS_LEN by {
                    if news[a] != (EntryView { key: ck, value: value@ }) {
                        let b = choose|b: int|
                            0 <= b < olds.len() && olds[b] == news[a];
                        assert(olds[b].key.len() >= TS_LEN);
                    }
                }
                assert forall|a: int, b: int| 0 <= a < news.len() && 0 <= b < news.len() implies
                    prefix_incomparable(
                    user_of(#[trigger] news[a].key),
                    user_of(#[trigger] news[b].key),
                ) by {
                    assert(user_of(ck) == user_key@);
                    if news[a] != (EntryView { key: ck, value: value@ }) {
                        let a2 = choose|a2: int| 0 <= a2 < olds.len() && olds[a2] == news[a];
                        assert(prefix_incomparable(user_of(olds[a2].key), user_key@));
                    }
                    if news[b] != (EntryView { key: ck, value: value@ }) {
                        let b2 = choose|b2: int| 0 <= b2 < olds.len() && olds[b2] == news[b];
                        assert(prefix_incomparable(user_of(olds[b2].key), user_key@));
                    }
                }
            }
        }
        true
    }

    /// Record a lock on `key`.
    pub fn put_lock(&mut self, key: &[u8], lock: &Lock)
        requires
            old(self).wf(),
        ensures
            final(self).wf(),
            final(self).write_view() == old(self).write_view(),
            final(self).default_view() == old(self).default_view(),
            entry_put(
                old(self).lock_view(),
                final(self).lock_view(),
                key@,
                crate::lock::spec_lock_bytes(lock@),
            ),
    {
        let k = crate::key::bytes_to_vec(key);
        let value = lock.to_bytes();
        insert_sorted(&mut self.lock, k, value);
    }

    /// Remove the lock on `key`, if any.
    pub fn remove_lock(&mut self, key: &[u8])
        requires
            old(self).wf(),
        ensures
            final(self).wf(),
            final(self).write_view() == old(self).write_view(),
            final(self).default_view() == old(self).default_view(),
            forall|j: int|
                0 <= j < final(self).lock_view().len() ==> old(self).lock_view().contains(
                    #[trigger] final(self).lock_view()[j],
                ) && final(self).lock_view()[j].key != key@,
    {
        let ghost olds = self.lock_view();
        let n = self.lock.len();
        let mut i: usize = 0;
        while i < n
            invariant
                0 <= i <= n,
                n == olds.len(),
                olds == views(self.lock@),
                old(self).wf(),
                self == old(self),
                forall|j: int| 0 <= j < i ==> (#[trigger] olds[j]).key != key@,
            decreases n - i,
        {
            if bytes_eq(self.lock[i].key.as_slice(), key) {
                self.lock.remove(i);
                proof {
                    let news = self.lock_view();
                    assert(news =~= olds.remove(i as int));
                    assert forall|a: int, b: int| 0 <= a < b < news.len() implies lex_lt(
                        #[trigger] news[a].key,
                        #[trigger] news[b].key,
                    ) by {
                        let a2: int = if a < i as int {
                            a
                        } else {
                            a + 1
                        };
                        let b2: int = if b < i as int {
                            b
                        } else {
                            b + 1
                        };
                        assert(news[a] == olds[a2] && news[b] == olds[b2]);
                    }
                    assert forall|j: int| 0 <= j < news.len() implies olds.contains(
                        #[trigger] news[j],
                    ) && news[j].key != key@ by {
                        let j2: int = if j < i as int {
                            j
                        } else {
                            j + 1
                        };
                        assert(news[j] == olds[j2]);
                        if j2 != i as int && olds[j2].key == key@ {
                            lemma_lex_lt_irrefl(key@);
                            assert(lex_lt(olds[j2].key, olds[i as int].key) || lex_lt(
                                olds[i as int].key,
                                olds[j2].key,
                            ));
                        }
                    }
                }
                return ;
            }
            i = i + 1;
        }
        proof {
            assert forall|j: int| 0 <= j < self.lock_view().len() implies old(
                self,
            ).lock_view().contains(#[trigger] self.lock_view()[j]) && self.lock_view()[j].key
                != key@ by {
                assert(self.lock_view()[j] == olds[j]);
            }
        }
    }

    /// Store the out-of-line value of `user_key`'s version started at
    /// `start_ts`.
    pub fn put_default(&mut self, user_key: &[u8], start_ts: u64, value: &[u8])
        requires
            old(self).wf(),
        ensures
            final(self).wf(),
            final(self).write_view() == old(self).write_view(),
            final(self).lock_view() == old(self).lock_view(),
            entry_put(
                old(self).default_view(),
                final(self).default_view(),
                composite(user_key@, start_ts),
                value@,
            ),
    {
        let ckey = Key::from_encoded_slice(user_key).append_ts(start_ts);
        let v = crate::key::bytes_to_vec(value);
        insert_sorted(&mut self.default, ckey.into_encoded(), v);
    }
}

impl Clone for Snapshot {
    fn clone(&self) -> (r: Snapshot)
        ensures
            r.write_view() == self.write_view(),
            r.lock_view() == self.lock_view(),
            r.default_view() == self.default_view(),
    {
        Snapshot {
            write: clone_entries(&self.write),
            lock: clone_entries(&self.lock),
            default: clone_entries(&self.default),
        }
    }
}

/// Copy a column family.
pub fn clone_entries(v: &Vec<Entry>) -> (r: Vec<Entry>)
    ensures
        views(r@) == views(v@),
{
    let mut r: Vec<Entry> = Vec::new();
    let n = v.len();
    let mut i: usize = 0;
    while i < n
        invariant
            0 <= i <= n,
            n == v@.len(),
            views(r@).len() == i,
            forall|j: int| 0 <= j < i ==> views(r@)[j] == views(v@)[j],
        decreases n - i,
    {
        let ghost prev = r@;
        let k = crate::key::clone_bytes(&v[i].key);
        let val = crate::key::clone_bytes(&v[i].value);
        r.push(Entry { key: k, value: val });
        proof {
            assert forall|j: int| 0 <= j < i + 1 implies views(r@)[j] == views(v@)[j] by {
                if j < i {
                    assert(r@[j] == prev[j]);
                }
            }
        }
        i = i + 1;
    }
    proof {
        assert(views(r@) =~= views(v@));
    }
    r
}

/// How one put changes a column family: the new entry is present, every
/// entry under another key is kept, and nothing else appears.
pub open spec fn entry_put(
    olds: Seq<EntryView>,
    news: Seq<EntryView>,
    key: Seq<u8>,
    value: Seq<u8>,
) -> bool {
    &&& news.contains(EntryView { key, value })
    &&& forall|j: int|
        0 <= j < olds.len() && (#[trigger] olds[j]).key != key ==> news.contains(olds[j])
    &&& forall|j: int|
        0 <= j < news.len() ==> (#[trigger] news[j]) == (EntryView { key, value })
            || (olds.contains(news[j]) && news[j].key != key)
}

/// Insert an entry into a sorted column family, replacing the entry under
/// the same key if one is there.
fn insert_sorted(cf: &mut Vec<Entry>, key: Vec<u8>, value: Vec<u8>)
    requires
        sorted_entries(views(old(cf)@)),
    ensures
        sorted_entries(views(final(cf)@)),
        entry_put(views(old(cf)@), views(final(cf)@), key@, value@),
{
    let ghost olds = views(cf@);
    let ghost e = EntryView { key: key@, value: value@ };
    let n = cf.len();
    let mut i: usize = 0;
    while i < n && bytes_lt(cf[i].key.as_slice(), key.as_slice())
        invariant
            0 <= i <= n,
            n == olds.len(),
            olds == views(cf@),
            sorted_entries(olds),
            cf == old(cf),
            forall|j: int| 0 <= j < i ==> lex_lt((#[trigger] olds[j]).key, key@),
        decreases n - i,
    {
        i = i + 1;
    }
    if i < n && bytes_eq(cf[i].key.as_slice(), key.as_slice()) {
        cf.remove(i);
        cf.insert(i, Entry { key, value });
        proof {
            let news = views(cf@);
            assert(news =~= olds.update(i as int, e));
            assert forall|a: int, b: int| 0 <= a < b < news.len() implies lex_lt(
                #[trigger] news[a].key,
                #[trigger] news[b].key,
            ) by {
                assert(news[a].key == olds[a].key && news[b].key == olds[b].key);
            }
            assert forall|j: int| 0 <= j < olds.len() && (#[trigger] olds[j]).key != key@ implies
                news.contains(olds[j]) by {
                assert(news[j] == olds[j]);
            }
            assert(news[i as int] == e);
            assert forall|j: int| 0 <= j < news.len() implies (#[trigger] news[j]) == e || (
            olds.contains(news[j]) && news[j].key != key@) by {
                if j != i as int {
                    assert(news[j] == olds[j]);
                    if olds[j].key == key@ {
                        if j < i as int {
                            assert(lex_lt(olds[j].key, olds[i as int].key));
                        } else {
                            assert(lex_lt(olds[i as int].key, olds[j].key));
                        }
                        lemma_lex_lt_irrefl(key@);
                    }
                }
            }
        }
        return ;
    }
    proof {
        if i < n {
            // The loop stopped on a key at or above the new one, and the
            // replace branch was not taken, so it is strictly above.
            lemma_lex_total(olds[i as int].key, key@);
            assert(lex_lt(key@, olds[i as int].key));
        }
        // Every entry from position `i` on sorts strictly above the new key.
        assert forall|j: int| i <= j < n implies lex_lt(key@, (#[trigger] olds[j]).key) by {
            if j > i as int {
                assert(lex_lt(olds[i as int].key, olds[j].key));
                lemma_lex_lt_trans(key@, olds[i as int].key, olds[j].key);
            }
        }
    }
    cf.insert(i, Entry { key, value });
    proof {
        let news = views(cf@);
        let iv = i as int;
        assert(news =~= olds.insert(iv, e));
        assert(forall|j: int| 0 <= j < iv ==> #[trigger] news[j] == olds[j]);
        assert(forall|j: int| iv < j < news.len() ==> #[trigger] news[j] == olds[j - 1]);
        assert forall|a: int, b: int| 0 <= a < b < news.len() implies lex_lt(
            #[trigger] news[a].key,
            #[trigger] news[b].key,
        ) by {
            if b < iv {
            } else if a < iv && b == iv {
                assert(lex_lt(olds[a].key, key@));
            } else if a < iv && b > iv {
                assert(lex_lt(olds[a].key, key@));
                assert(lex_lt(key@, olds[b - 1].key));
                lemma_lex_lt_trans(olds[a].key, key@, olds[b - 1].key);
            } else if a == iv {
                assert(lex_lt(key@, olds[b - 1].key));
            } else {
                assert(lex_lt(olds[a - 1].key, olds[b - 1].key));
            }
        }
        assert forall|j: int| 0 <= j < olds.len() && (#[trigger] olds[j]).key != key@ implies
            news.contains(olds[j]) by {
            if j < iv {
                assert(news[j] == olds[j]);
            } else {
                assert(news[j + 1] == olds[j]);
            }
        }
        assert(news[iv] == e);
        assert(news.contains(e));
        assert forall|j: int| 0 <= j < news.len() implies (#[trigger] news[j]) == e || (
        olds.contains(news[j]) && news[j].key != key@) by {
            if j < iv {
                assert(news[j] == olds[j]);
                assert(olds.contains(news[j]));
                if olds[j].key == key@ {
                    assert(lex_lt(olds[j].key, key@));
                    lemma_lex_lt_irrefl(key@);
                }
            } else if j > iv {
                assert(news[j] == olds[j - 1]);
                assert(olds.contains(news[j]));
                if olds[j - 1].key == key@ {
                    assert(lex_lt(key@, olds[j - 1].key));
                    lemma_lex_lt_irrefl(key@);
                }
            }
        }
    }
}

} // verus!
