//! The cache index: a mapping from cache keys to entry records (blob
//! filename, last-access time), with uniqueness of keys as its invariant and
//! least-recently-used eviction with a first-in-key-order tie-break.
use vstd::prelude::*;
use crate::bytes::{bytes_eq, clone_bytes};
use crate::ord::{lex_lt, lex_lt_exec, lemma_lex_lt_irrefl, lemma_lex_lt_trans, lemma_lex_lt_connex};

verus! {

/// The mathematical model of one index entry.
#[verifier::ext_equal]
pub struct EntryModel {
    pub key: Seq<u8>,
    pub filename: Seq<u8>,
    pub last_accessed: u64,
}

/// One record of the index: the blob filename for the key, and the Unix time
/// in seconds at which the entry was last stored or read.
pub struct IndexEntry {
    pub key: Vec<u8>,
    pub filename: Vec<u8>,
    pub last_accessed: u64,
}

impl View for IndexEntry {
    type V = EntryModel;

    open spec fn view(&self) -> EntryModel {
        EntryModel { key: self.key@, filename: self.filename@, last_accessed: self.last_accessed }
    }
}

/// Entry `a` is evicted in preference to entry `b`: it was accessed strictly
/// earlier, or at the same time and its key comes first in lexicographic
/// order.
pub open spec fn entry_lt(a: EntryModel, b: EntryModel) -> bool {
    ||| a.last_accessed < b.last_accessed
    ||| (a.last_accessed == b.last_accessed && lex_lt(a.key, b.key))
}

/// Some entry of `s` has key `k`.
pub open spec fn has_key(s: Seq<EntryModel>, k: Seq<u8>) -> bool {
    exists|i: int| 0 <= i < s.len() && s[i].key == k
}

/// The position of the entry of `s` with key `k`; meaningful only when
/// `has_key(s, k)` holds and keys are unique.
pub open spec fn idx_of(s: Seq<EntryModel>, k: Seq<u8>) -> int {
    choose|i: int| 0 <= i < s.len() && s[i].key == k
}

/// Keys are unique across the entries of `s`.
pub open spec fn entries_wf(s: Seq<EntryModel>) -> bool {
    forall|i: int, j: int| 0 <= i < j < s.len() ==> s[i].key != s[j].key
}

/// The entries after an insert-or-replace of `e`: the entry sharing `e`'s key
/// is replaced in place, or `e` is appended at the end.
pub open spec fn spec_insert(s: Seq<EntryModel>, e: EntryModel) -> Seq<EntryModel> {
    if has_key(s, e.key) {
        s.update(idx_of(s, e.key), e)
    } else {
        s.push(e)
    }
}

/// The position of the entry that eviction selects: the least last-access
/// time, ties broken towards the lexicographically least key.
pub open spec fn min_index(s: Seq<EntryModel>) -> int
    decreases s.len(),
{
    if s.len() <= 1 {
        0
    } else {
        let m = min_index(s.drop_last());
        if entry_lt(s.last(), s[m]) {
            s.len() - 1
        } else {
            m
        }
    }
}

pub proof fn lemma_entry_lt_trans(a: EntryModel, b: EntryModel, c: EntryModel)
    requires
        entry_lt(a, b),
        entry_lt(b, c),
    ensures
        entry_lt(a, c),
{
    if a.last_accessed == b.last_accessed && b.last_accessed == c.last_accessed {
        lemma_lex_lt_trans(a.key, b.key, c.key);
    }
}

pub proof fn lemma_entry_lt_connex(a: EntryModel, b: EntryModel)
    requires
        a.key != b.key,
    ensures
        entry_lt(a, b) || entry_lt(b, a),
{
    if a.last_accessed == b.last_accessed {
        lemma_lex_lt_connex(a.key, b.key);
    }
}

/// The selected entry is a strict minimum: every other entry loses to it.
pub proof fn lemma_min_index(s: Seq<EntryModel>)
    requires
        s.len() >= 1,
        entries_wf(s),
    ensures
        0 <= min_index(s) < s.len(),
        forall|j: int| 0 <= j < s.len() && j != min_index(s) ==> entry_lt(s[min_index(s)], s[j]),
    decreases s.len(),
{
    if s.len() > 1 {
        let t = s.drop_last();
        assert(entries_wf(t));
        lemma_min_index(t);
        let m = min_index(t);
        assert(forall|j: int| 0 <= j < t.len() ==> t[j] == s[j]);
        if entry_lt(s.last(), s[m]) {
            assert forall|j: int| 0 <= j < s.len() && j != s.len() - 1 implies #[trigger] entry_lt(
                s[s.len() - 1],
                s[j],
            ) by {
                if j != m {
                    lemma_entry_lt_trans(s.last(), s[m], s[j]);
                }
            }
        } else {
            assert(s[m].key != s.last().key);
            lemma_entry_lt_connex(s[m], s.last());
        }
    }
}

/// The entries of `s` with last-access time set to `now` at position `i`.
pub open spec fn spec_touch(s: Seq<EntryModel>, i: int, now: u64) -> Seq<EntryModel> {
    s.update(i, EntryModel { key: s[i].key, filename: s[i].filename, last_accessed: now })
}

/// The cache index: entries with pairwise distinct keys, in insertion order.
pub struct CacheIndex {
    entries: Vec<IndexEntry>,
}

impl View for CacheIndex {
    type V = Seq<EntryModel>;

    closed spec fn view(&self) -> Seq<EntryModel> {
        Seq::new(self.entries@.len(), |i: int| self.entries@[i]@)
    }
}

impl CacheIndex {
    /// Keys are unique across the index.
    pub open spec fn wf(&self) -> bool {
        entries_wf(self@)
    }

    /// An empty index.
    pub fn new() -> (r: CacheIndex)
        ensures
            r@ == Seq::<EntryModel>::empty(),
            r.wf(),
    {
        let r = CacheIndex { entries: Vec::new() };
        proof {
            assert(r@ =~= Seq::<EntryModel>::empty());
        }
        r
    }

    /// The number of entries.
    pub fn len(&self) -> (r: usize)
        ensures
            r == self@.len(),
    {
        self.entries.len()
    }

    /// The entry at the given position.
    pub fn entry_at(&self, i: usize) -> (r: &IndexEntry)
        requires
            i < self@.len(),
        ensures
            r@ == self@[i as int],
    {
        &self.entries[i]
    }

    /// Builds an index from parsed entries; refuses them exactly when two
    /// entries share a key.
    pub fn from_entries(entries: Vec<IndexEntry>) -> (r: Option<CacheIndex>)
        ensures
            ({
                let s = Seq::new(entries@.len(), |i: int| entries@[i]@);
                match r {
                    Some(ci) => ci@ == s && ci.wf(),
                    None => !entries_wf(s),
                }
            }),
    {
        let ghost s = Seq::new(entries@.len(), |i: int| entries@[i]@);
        let n = entries.len();
        let mut i: usize = 0;
        while i < n
            invariant
                n == entries@.len(),
                s == Seq::new(entries@.len(), |k: int| entries@[k]@),
                i <= n,
                forall|a: int, b: int| 0 <= a < b < i ==> s[a].key != s[b].key,
            decreases n - i,
        {
            let mut j: usize = 0;
            while j < i
                invariant
                    n == entries@.len(),
                    s == Seq::new(entries@.len(), |k: int| entries@[k]@),
                    j <= i < n,
                    forall|a: int| 0 <= a < j ==> s[a].key != s[i as int].key,
                decreases i - j,
            {
                if bytes_eq(&entries[j].key, &entries[i].key) {
                    proof {
                        assert(s[j as int].key == s[i as int].key);
                    }
                    return None;
                }
                j = j + 1;
            }
            i = i + 1;
        }
        let ci = CacheIndex { entries };
        proof {
            assert(ci@ =~= s);
        }
        Some(ci)
    }

    /// The position of the entry with the given key, if one exists.
    fn find(&self, key: &Vec<u8>) -> (r: Option<usize>)
        requires
            self.wf(),
        ensures
            match r {
                Some(i) => has_key(self@, key@) && idx_of(self@, key@) == i as int && i
                    < self@.len(),
                None => !has_key(self@, key@),
            },
    {
        let n = self.entries.len();
        let mut i: usize = 0;
        while i < n
            invariant
                self.wf(),
                n == self@.len(),
                i <= n,
                forall|j: int| 0 <= j < i ==> self@[j].key != key@,
            decreases n - i,
        {
            if bytes_eq(&self.entries[i].key, key) {
                proof {
                    assert(self@[i as int].key == key@);
                    let w = idx_of(self@, key@);
                    assert(0 <= w < self@.len() && self@[w].key == key@);
                    assert(w == i as int);
                }
                return Some(i);
            }
            i = i + 1;
        }
        None
    }

    /// Reports whether the index holds an entry for the given key.
    pub fn contains_key(&self, key: &Vec<u8>) -> (r: bool)
        requires
            self.wf(),
        ensures
            r == has_key(self@, key@),
    {
        self.find(key).is_some()
    }

    /// On a hit, sets the entry's last-access time to `now` and returns a copy
    /// of its filename; on a miss, changes nothing.
    pub fn touch(&mut self, key: &Vec<u8>, now: u64) -> (r: Option<Vec<u8>>)
        requires
            old(self).wf(),
        ensures
            final(self).wf(),
            match r {
                Some(f) => {
                    &&& has_key(old(self)@, key@)
                    &&& f@ == old(self)@[idx_of(old(self)@, key@)].filename
                    &&& final(self)@ == spec_touch(old(self)@, idx_of(old(self)@, key@), now)
                },
                None => !has_key(old(self)@, key@) && *final(self) == *old(self),
            },
    {
        match self.find(key) {
            None => None,
            Some(i) => {
                let e = self.entries.remove(i);
                let filename = clone_bytes(&e.filename);
                let ne = IndexEntry { key: e.key, filename: e.filename, last_accessed: now };
                self.entries.insert(i, ne);
                proof {
                    assert(final(self)@ =~= spec_touch(old(self)@, i as int, now));
                    assert forall|a: int, b: int|
                        0 <= a < b < final(self)@.len() implies final(self)@[a].key
                        != final(self)@[b].key by {
                        assert(final(self)@[a].key == old(self)@[a].key);
                        assert(final(self)@[b].key == old(self)@[b].key);
                    }
                }
                Some(filename)
            },
        }
    }

    /// Inserts an entry for the key, or replaces the one already present.
    pub fn insert_entry(&mut self, key: Vec<u8>, filename: Vec<u8>, now: u64)
        requires
            old(self).wf(),
        ensures
            final(self).wf(),
            final(self)@ == spec_insert(
                old(self)@,
                EntryModel { key: key@, filename: filename@, last_accessed: now },
            ),
    {
        let ghost e = EntryModel { key: key@, filename: filename@, last_accessed: now };
        match self.find(&key) {
            Some(i) => {
                let _ = self.entries.remove(i);
                self.entries.insert(i, IndexEntry { key, filename, last_accessed: now });
                proof {
                    assert(final(self)@ =~= old(self)@.update(idx_of(old(self)@, e.key), e));
                    assert forall|a: int, b: int|
                        0 <= a < b < final(self)@.len() implies final(self)@[a].key
                        != final(self)@[b].key by {
                        assert(final(self)@[a].key == old(self)@[a].key);
                        assert(final(self)@[b].key == old(self)@[b].key);
                    }
                }
            },
            None => {
                self.entries.push(IndexEntry { key, filename, last_accessed: now });
                proof {
                    assert(final(self)@ =~= old(self)@.push(e));
                    assert forall|a: int, b: int|
                        0 <= a < b < final(self)@.len() implies final(self)@[a].key
                        != final(self)@[b].key by {
                        if b < old(self)@.len() {
                            assert(final(self)@[a].key == old(self)@[a].key);
                            assert(final(self)@[b].key == old(self)@[b].key);
                        } else {
                            assert(final(self)@[b] == e);
                            assert(final(self)@[a].key == old(self)@[a].key);
                        }
                    }
                }
            },
        }
    }

    /// Removes the least-recently-accessed entry (ties broken towards the
    /// lexicographically least key) and returns its key and filename.
    pub fn evict_min(&mut self) -> (r: (Vec<u8>, Vec<u8>))
        requires
            old(self).wf(),
            old(self)@.len() >= 1,
        ensures
            final(self).wf(),
            r.0@ == old(self)@[min_index(old(self)@)].key,
            r.1@ == old(self)@[min_index(old(self)@)].filename,
            final(self)@ == old(self)@.remove(min_index(old(self)@)),
    {
        let n = self.entries.len();
        let mut best: usize = 0;
        let mut i: usize = 1;
        while i < n
            invariant
                self.wf(),
                n == self@.len(),
                n >= 1,
                best < i,
                i <= n,
                forall|j: int| 0 <= j < i && j != best ==> entry_lt(self@[best as int], self@[j]),
            decreases n - i,
        {
            let better = if self.entries[i].last_accessed < self.entries[best].last_accessed {
                true
            } else if self.entries[i].last_accessed == self.entries[best].last_accessed {
                lex_lt_exec(&self.entries[i].key, &self.entries[best].key)
            } else {
                false
            };
            if better {
                proof {
                    assert(entry_lt(self@[i as int], self@[best as int]));
                    assert forall|j: int| 0 <= j < i + 1 && j != i implies entry_lt(
                        self@[i as int],
                        self@[j],
                    ) by {
                        if j != best {
                            lemma_entry_lt_trans(self@[i as int], self@[best as int], self@[j]);
                        }
                    }
                }
                best = i;
            } else {
                proof {
                    assert(self@[best as int].key != self@[i as int].key);
                    lemma_entry_lt_connex(self@[best as int], self@[i as int]);
                    if entry_lt(self@[i as int], self@[best as int]) {
                        assert(!(self@[i as int].last_accessed
                            > self@[best as int].last_accessed));
                        if self@[i as int].last_accessed == self@[best as int].last_accessed {
                            assert(lex_lt(self@[i as int].key, self@[best as int].key));
                        }
                        assert(false);
                    }
                }
            }
            i = i + 1;
        }
        proof {
            lemma_min_index(self@);
            let m = min_index(self@);
            if m != best as int {
                assert(entry_lt(self@[m], self@[best as int]));
                assert(entry_lt(self@[best as int], self@[m]));
                lemma_entry_lt_trans(self@[m], self@[best as int], self@[m]);
                assert(self@[m].last_accessed < self@[m].last_accessed || lex_lt(
                    self@[m].key,
                    self@[m].key,
                ));
                lemma_lex_lt_irrefl(self@[m].key);
                assert(false);
            }
        }
        let e = self.entries.remove(best);
        proof {
            assert(final(self)@ =~= old(self)@.remove(min_index(old(self)@)));
            assert forall|a: int, b: int|
                0 <= a < b < final(self)@.len() implies final(self)@[a].key
                != final(self)@[b].key by {
                let s = old(self)@;
                let m = min_index(s);
                let oa = if a < m { a } else { a + 1 };
                let ob = if b < m { b } else { b + 1 };
                assert(final(self)@[a] == s[oa]);
                assert(final(self)@[b] == s[ob]);
            }
        }
        (e.key, e.filename)
    }
}

} // verus!
