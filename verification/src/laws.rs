//! The laws of the cache, stated over the index model and proved once and
//! for all: what an insert-or-replace does, that stores keep the index within
//! its bound and evict exactly the least-recently-used entry, and that a
//! store followed by a lookup finds what was stored.
use vstd::prelude::*;
use crate::MAX_CACHE_ENTRIES;
use crate::cache::{spec_store, spec_store_evicted};
use crate::index::{
    EntryModel, entries_wf, entry_lt, has_key, idx_of, lemma_min_index, min_index, spec_insert,
    spec_touch,
};

verus! {

/// An insert-or-replace keeps keys unique, puts the entry where its key can
/// be found, and grows the index exactly when the key was new.
pub proof fn lemma_spec_insert_wf(s: Seq<EntryModel>, e: EntryModel)
    requires
        entries_wf(s),
    ensures
        entries_wf(spec_insert(s, e)),
        has_key(spec_insert(s, e), e.key),
        0 <= idx_of(spec_insert(s, e), e.key) < spec_insert(s, e).len(),
        spec_insert(s, e)[idx_of(spec_insert(s, e), e.key)] == e,
        s.len() <= spec_insert(s, e).len() <= s.len() + 1,
        (spec_insert(s, e).len() == s.len() + 1) <==> !has_key(s, e.key),
        forall|j: int|
            0 <= j < spec_insert(s, e).len() && spec_insert(s, e)[j].key != e.key ==> spec_insert(
                s,
                e,
            )[j] == s[j],
{
    let ins = spec_insert(s, e);
    if has_key(s, e.key) {
        let i = idx_of(s, e.key);
        assert(0 <= i < s.len() && s[i].key == e.key);
        assert(ins == s.update(i, e));
        assert forall|a: int| 0 <= a < ins.len() implies ins[a].key == s[a].key by {
            if a == i {
                assert(ins[a] == e);
            }
        }
        assert(entries_wf(ins));
        assert(ins[i] == e);
        assert(has_key(ins, e.key));
        let w = idx_of(ins, e.key);
        assert(0 <= w < ins.len() && ins[w].key == e.key);
        if w != i {
            assert(s[w].key == e.key && s[i].key == e.key);
            assert(false);
        }
    } else {
        assert(ins == s.push(e));
        assert(forall|j: int| 0 <= j < s.len() ==> s[j].key != e.key);
        assert forall|a: int, b: int| 0 <= a < b < ins.len() implies ins[a].key != ins[b].key by {
            if b == s.len() {
                assert(ins[b] == e);
                assert(ins[a] == s[a]);
            } else {
                assert(ins[a] == s[a] && ins[b] == s[b]);
            }
        }
        assert(ins[s.len() as int] == e);
        assert(has_key(ins, e.key));
        let w = idx_of(ins, e.key);
        assert(0 <= w < ins.len() && ins[w].key == e.key);
        if w != s.len() {
            assert(ins[w] == s[w]);
            assert(false);
        }
    }
}

/// Removing one entry keeps keys unique.
pub proof fn lemma_entries_wf_remove(s: Seq<EntryModel>, m: int)
    requires
        entries_wf(s),
        0 <= m < s.len(),
    ensures
        entries_wf(s.remove(m)),
{
    let t = s.remove(m);
    assert forall|a: int, b: int| 0 <= a < b < t.len() implies t[a].key != t[b].key by {
        let oa = if a < m {
            a
        } else {
            a + 1
        };
        let ob = if b < m {
            b
        } else {
            b + 1
        };
        assert(t[a] == s[oa]);
        assert(t[b] == s[ob]);
    }
}

/// Law: a store never leaves the index over `MAX_CACHE_ENTRIES`. Eviction
/// happens exactly when the index stood at the bound and the key was new, and
/// then what is removed is the least entry — smallest last-access time, ties
/// broken towards the lexicographically least key — among the entries as they
/// stood after the insertion.
pub proof fn lemma_store_capacity(s: Seq<EntryModel>, key: Seq<u8>, filename: Seq<u8>, now: u64)
    requires
        entries_wf(s),
        s.len() <= MAX_CACHE_ENTRIES,
    ensures
        entries_wf(spec_store(s, key, filename, now)),
        spec_store(s, key, filename, now).len() <= MAX_CACHE_ENTRIES,
        (spec_store_evicted(s, key, filename, now) is Some) <==> (s.len() == MAX_CACHE_ENTRIES
            && !has_key(s, key)),
        match spec_store_evicted(s, key, filename, now) {
            Some(e) => {
                let ins = spec_insert(s, EntryModel { key, filename, last_accessed: now });
                &&& e == ins[min_index(ins)]
                &&& forall|j: int|
                    0 <= j < ins.len() && j != min_index(ins) ==> entry_lt(e, ins[j])
            },
            None => spec_store(s, key, filename, now) == spec_insert(
                s,
                EntryModel { key, filename, last_accessed: now },
            ),
        },
{
    let e = EntryModel { key, filename, last_accessed: now };
    let ins = spec_insert(s, e);
    lemma_spec_insert_wf(s, e);
    if ins.len() > MAX_CACHE_ENTRIES {
        assert(ins.len() == s.len() + 1);
        assert(!has_key(s, key));
        assert(s.len() == MAX_CACHE_ENTRIES);
        lemma_min_index(ins);
        lemma_entries_wf_remove(ins, min_index(ins));
    } else {
        if s.len() == MAX_CACHE_ENTRIES && !has_key(s, key) {
            assert(ins.len() == s.len() + 1);
            assert(false);
        }
    }
}

/// Law: after a store of an identity at time `t1`, the identity's key is in
/// the index with the stored filename and time `t1` — provided the store did
/// not evict the very entry it inserted — and a following lookup touch at
/// time `t2` finds the same filename and leaves the entry's last-access time
/// at `t2`.
pub proof fn lemma_store_then_get(
    s: Seq<EntryModel>,
    key: Seq<u8>,
    filename: Seq<u8>,
    t1: u64,
    t2: u64,
)
    requires
        entries_wf(s),
        match spec_store_evicted(s, key, filename, t1) {
            Some(e) => e.key != key,
            None => true,
        },
    ensures
        ({
            let s1 = spec_store(s, key, filename, t1);
            &&& entries_wf(s1)
            &&& has_key(s1, key)
            &&& s1[idx_of(s1, key)].filename == filename
            &&& s1[idx_of(s1, key)].last_accessed == t1
            &&& ({
                let s2 = spec_touch(s1, idx_of(s1, key), t2);
                &&& entries_wf(s2)
                &&& has_key(s2, key)
                &&& idx_of(s2, key) == idx_of(s1, key)
                &&& s2[idx_of(s2, key)].filename == filename
                &&& s2[idx_of(s2, key)].last_accessed == t2
            })
        }),
{
    let e = EntryModel { key, filename, last_accessed: t1 };
    let ins = spec_insert(s, e);
    lemma_spec_insert_wf(s, e);
    let i = idx_of(ins, key);
    assert(ins[i] == e);
    let s1 = spec_store(s, key, filename, t1);
    let i1: int;
    if ins.len() > MAX_CACHE_ENTRIES {
        let m = min_index(ins);
        lemma_min_index(ins);
        assert(ins[m].key != key);
        assert(m != i);
        lemma_entries_wf_remove(ins, m);
        assert(s1 == ins.remove(m));
        i1 = if i < m {
            i
        } else {
            i - 1
        };
        assert(s1[i1] == ins[i]);
    } else {
        assert(s1 == ins);
        i1 = i;
    }
    assert(s1[i1] == e);
    assert(has_key(s1, key));
    let w = idx_of(s1, key);
    assert(0 <= w < s1.len() && s1[w].key == key);
    if w != i1 {
        assert(entries_wf(s1));
        assert(false);
    }
    let s2 = spec_touch(s1, i1, t2);
    assert(s2[i1] == EntryModel { key, filename, last_accessed: t2 });
    assert forall|a: int| 0 <= a < s2.len() implies s2[a].key == s1[a].key by {
        if a == i1 {
        }
    }
    assert(entries_wf(s2));
    assert(has_key(s2, key));
    let w2 = idx_of(s2, key);
    if w2 != i1 {
        assert(s2[w2].key == key);
        assert(false);
    }
}

/// Law: a fresh, never-stored cache holds no key, so every lookup on it
/// misses.
pub proof fn lemma_fresh_cache_misses(k: Seq<u8>)
    ensures
        !has_key(Seq::<EntryModel>::empty(), k),
{
}

/// Law: a store at a time strictly later than every resident entry's
/// last-access time never evicts the entry it just inserted: what leaves, if
/// anything, is one of the older resident entries. So in a run of stores with
/// strictly increasing times, each stored identity is present immediately
/// after its store.
pub proof fn lemma_store_evicts_older(s: Seq<EntryModel>, key: Seq<u8>, filename: Seq<u8>, t: u64)
    requires
        entries_wf(s),
        forall|i: int| 0 <= i < s.len() ==> #[trigger] s[i].last_accessed < t,
    ensures
        match spec_store_evicted(s, key, filename, t) {
            Some(e) => e.key != key && exists|i: int| 0 <= i < s.len() && s[i] == e,
            None => true,
        },
{
    let e = EntryModel { key, filename, last_accessed: t };
    let ins = spec_insert(s, e);
    lemma_spec_insert_wf(s, e);
    if ins.len() > MAX_CACHE_ENTRIES {
        lemma_min_index(ins);
        let m = min_index(ins);
        let ix = idx_of(ins, key);
        assert(ins[ix] == e);
        if m == ix {
            let j: int = if m == 0 {
                1
            } else {
                0
            };
            assert(entry_lt(ins[m], ins[j]));
            if has_key(s, e.key) {
                assert(ins[j] == s[j]);
            } else {
                assert(ins == s.push(e));
                assert(ins[j] == s[j]);
            }
            assert(ins[j].last_accessed < t);
            assert(false);
        }
        assert(ins[m].key != key);
        if has_key(s, e.key) {
            assert(ins[m] == s[m]);
        } else {
            assert(ins == s.push(e));
            assert(ins[m] == s[m]);
        }
    }
}

/// One entry per position: key, filename and last-access time taken from the
/// three sequences.
pub open spec fn entries_of(keys: Seq<Seq<u8>>, filenames: Seq<Seq<u8>>, times: Seq<u64>, n: int) -> Seq<EntryModel> {
    Seq::new(n as nat, |i: int| EntryModel { key: keys[i], filename: filenames[i], last_accessed: times[i] })
}

/// The index after the first `n` of a run of stores, starting from an empty
/// index.
pub open spec fn spec_store_sequence(
    keys: Seq<Seq<u8>>,
    filenames: Seq<Seq<u8>>,
    times: Seq<u64>,
    n: int,
) -> Seq<EntryModel>
    decreases n,
{
    if n <= 0 {
        Seq::empty()
    } else {
        spec_store(
            spec_store_sequence(keys, filenames, times, n - 1),
            keys[n - 1],
            filenames[n - 1],
            times[n - 1],
        )
    }
}

/// Up to the bound, a run of stores of distinct keys evicts nothing: the
/// index holds exactly the stored entries, in order.
pub proof fn lemma_store_sequence_fills(
    keys: Seq<Seq<u8>>,
    filenames: Seq<Seq<u8>>,
    times: Seq<u64>,
    n: int,
)
    requires
        0 <= n <= MAX_CACHE_ENTRIES,
        n <= keys.len(),
        n <= filenames.len(),
        n <= times.len(),
        forall|i: int, j: int| 0 <= i < j < n ==> keys[i] != keys[j],
    ensures
        spec_store_sequence(keys, filenames, times, n) == entries_of(keys, filenames, times, n),
        entries_wf(spec_store_sequence(keys, filenames, times, n)),
    decreases n,
{
    let m = entries_of(keys, filenames, times, n);
    if n == 0 {
        assert(spec_store_sequence(keys, filenames, times, 0) =~= m);
    } else {
        lemma_store_sequence_fills(keys, filenames, times, n - 1);
        let prev = entries_of(keys, filenames, times, n - 1);
        let e = EntryModel {
            key: keys[n - 1],
            filename: filenames[n - 1],
            last_accessed: times[n - 1],
        };
        if has_key(prev, e.key) {
            let w = choose|i: int| 0 <= i < prev.len() && prev[i].key == e.key;
            assert(keys[w] == keys[n - 1]);
            assert(false);
        }
        lemma_spec_insert_wf(prev, e);
        assert(spec_insert(prev, e) == prev.push(e));
        assert(spec_insert(prev, e).len() == n);
        assert(spec_store(prev, e.key, e.filename, e.last_accessed) == prev.push(e));
        assert(prev.push(e) =~= m);
    }
    assert(entries_wf(m)) by {
        assert forall|i: int, j: int| 0 <= i < j < m.len() implies m[i].key != m[j].key by {
            assert(m[i].key == keys[i]);
            assert(m[j].key == keys[j]);
        }
    }
}

/// Law: starting from an empty index, storing one more than
/// `MAX_CACHE_ENTRIES` distinct songs at strictly increasing times leaves
/// exactly `MAX_CACHE_ENTRIES` entries; the first-stored song — the one with
/// the oldest access time — is gone, and every later one is present.
pub proof fn lemma_fill_evicts_oldest(keys: Seq<Seq<u8>>, filenames: Seq<Seq<u8>>, times: Seq<u64>)
    requires
        keys.len() == MAX_CACHE_ENTRIES + 1,
        filenames.len() == MAX_CACHE_ENTRIES + 1,
        times.len() == MAX_CACHE_ENTRIES + 1,
        forall|i: int, j: int| 0 <= i < j < keys.len() ==> keys[i] != keys[j],
        forall|i: int, j: int| 0 <= i < j < times.len() ==> times[i] < times[j],
    ensures
        ({
            let n = MAX_CACHE_ENTRIES + 1;
            let fin = spec_store_sequence(keys, filenames, times, n as int);
            &&& fin.len() == MAX_CACHE_ENTRIES
            &&& !has_key(fin, keys[0])
            &&& forall|i: int| 1 <= i < n ==> has_key(fin, keys[i])
        }),
{
    let n = MAX_CACHE_ENTRIES as int;
    lemma_store_sequence_fills(keys, filenames, times, n);
    let full = entries_of(keys, filenames, times, n);
    let e = EntryModel { key: keys[n], filename: filenames[n], last_accessed: times[n] };
    if has_key(full, e.key) {
        let w = choose|i: int| 0 <= i < full.len() && full[i].key == e.key;
        assert(keys[w] == keys[n]);
        assert(false);
    }
    lemma_spec_insert_wf(full, e);
    let ins = spec_insert(full, e);
    assert(ins == full.push(e));
    assert(ins.len() == n + 1);
    lemma_min_index(ins);
    let m = min_index(ins);
    assert forall|j: int| 0 <= j < ins.len() implies ins[j].last_accessed == times[j] by {
        if j < n {
            assert(ins[j] == full[j]);
        } else {
            assert(ins[j] == e);
        }
    }
    if m != 0 {
        assert(entry_lt(ins[m], ins[0]));
        assert(times[0] < times[m]);
        assert(false);
    }
    let fin = spec_store_sequence(keys, filenames, times, n + 1);
    assert(fin == ins.remove(0));
    assert(fin.len() == n);
    assert forall|j: int| 0 <= j < fin.len() implies fin[j] == ins[j + 1] by {}
    assert(!has_key(fin, keys[0])) by {
        if has_key(fin, keys[0]) {
            let w = choose|i: int| 0 <= i < fin.len() && fin[i].key == keys[0];
            assert(fin[w] == ins[w + 1]);
            assert(ins[w + 1].key == keys[w + 1]);
            if w + 1 < n {
                assert(full[w + 1].key == keys[w + 1]);
            }
            assert(keys[w + 1] == keys[0]);
            assert(false);
        }
    }
    assert forall|i: int| 1 <= i < n + 1 implies has_key(fin, keys[i]) by {
        assert(fin[i - 1] == ins[i]);
        if i < n {
            assert(ins[i] == full[i]);
            assert(fin[i - 1].key == keys[i]);
        } else {
            assert(ins[i] == e);
            assert(fin[i - 1].key == keys[i]);
        }
    }
}

} // verus!
