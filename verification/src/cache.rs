//! The lyrics cache service: an owned, explicitly initialized index with
//! lookup (which refreshes recency), store (which inserts and evicts), and a
//! canonical byte form for persistence. Blob file I/O stays with the caller:
//! lookup and store name the blob file to read, write or delete, and take the
//! current time as an argument.
use vstd::prelude::*;
use crate::CacheError;
use crate::MAX_CACHE_ENTRIES;
use crate::codec::{entries_clean, entry_clean, parse_index, serialize_index, spec_serialize};
use crate::bytes::clone_bytes;
use crate::index::{
    CacheIndex, EntryModel, entries_wf, has_key, idx_of, lemma_min_index, min_index, spec_insert,
    spec_touch,
};
use crate::keys::{
    canonical_of, filename_of, generate_filename, generate_key, key_of,
    lemma_spec_hex_encode_range, sha256_of, spec_hex_encode,
};

verus! {

/// What a lookup reports: the cache is not initialized, the key is absent, or
/// the key is present and its blob file should be read.
#[derive(Debug)]
pub enum GetOutcome {
    /// The cache was not initialized; nothing was looked up.
    NotInitialized,
    /// The key is not in the index; nothing changed.
    Miss,
    /// The key is in the index; its last-access time has been refreshed, and
    /// the named blob file holds the lyrics.
    Hit { filename: Vec<u8> },
}

/// What a store reports: the cache is not initialized, or the entry was
/// recorded, possibly evicting the least-recently-used entry.
#[derive(Debug)]
pub enum StoreOutcome {
    /// The cache was not initialized; nothing was stored.
    NotInitialized,
    /// The entry was recorded under `filename`; when an entry was evicted to
    /// keep the index within its bound, `evicted` names its blob file, which
    /// should be deleted.
    Stored { filename: Vec<u8>, evicted: Option<Vec<u8>> },
}

/// The index after a store: the entry is inserted or replaced, and if that
/// leaves the index over its bound, the least entry (smallest last-access
/// time, ties broken towards the lexicographically least key) is removed.
pub open spec fn spec_store(s: Seq<EntryModel>, key: Seq<u8>, filename: Seq<u8>, now: u64) -> Seq<
    EntryModel,
> {
    let ins = spec_insert(s, EntryModel { key, filename, last_accessed: now });
    if ins.len() > MAX_CACHE_ENTRIES {
        ins.remove(min_index(ins))
    } else {
        ins
    }
}

/// The entry a store evicts, if the insertion leaves the index over its
/// bound.
pub open spec fn spec_store_evicted(
    s: Seq<EntryModel>,
    key: Seq<u8>,
    filename: Seq<u8>,
    now: u64,
) -> Option<EntryModel> {
    let ins = spec_insert(s, EntryModel { key, filename, last_accessed: now });
    if ins.len() > MAX_CACHE_ENTRIES {
        Some(ins[min_index(ins)])
    } else {
        None
    }
}

/// The lyrics cache service. Construct one with `new`, call `init_cache`
/// once, then look up and store entries.
pub struct LyricsCache {
    initialized: bool,
    index: CacheIndex,
}

impl LyricsCache {
    /// Whether `init_cache` has completed.
    pub closed spec fn is_init(&self) -> bool {
        self.initialized
    }

    /// The model of the index.
    pub closed spec fn entries(&self) -> Seq<EntryModel> {
        self.index@
    }

    /// Keys are unique across the index, and every entry is representable in
    /// the persisted form (no key or filename holds a double quote).
    pub open spec fn wf(&self) -> bool {
        entries_wf(self.entries()) && entries_clean(self.entries())
    }

    /// A cache that is not yet initialized and holds nothing.
    pub fn new() -> (r: LyricsCache)
        ensures
            !r.is_init(),
            r.entries() == Seq::<EntryModel>::empty(),
            r.wf(),
    {
        LyricsCache { initialized: false, index: CacheIndex::new() }
    }

    /// Whether `init_cache` has completed.
    pub fn is_initialized(&self) -> (r: bool)
        ensures
            r == self.is_init(),
    {
        self.initialized
    }

    /// The number of entries in the index.
    pub fn num_entries(&self) -> (r: usize)
        ensures
            r == self.entries().len(),
    {
        self.index.len()
    }

    /// Initializes the cache from the persisted index file, handed over as
    /// `Some` bytes, or from nothing when no index file exists. Idempotent: a
    /// second call changes nothing and succeeds. Fails exactly when the bytes
    /// are not the canonical serialization of a well-formed index — the form
    /// `save_index` writes — and then leaves the cache untouched and
    /// uninitialized.
    pub fn init_cache(&mut self, file: Option<&Vec<u8>>) -> (r: Result<(), CacheError>)
        requires
            old(self).wf(),
        ensures
            final(self).wf(),
            old(self).is_init() ==> r == Ok::<(), CacheError>(()) && *final(self) == *old(self),
            !old(self).is_init() ==> match r {
                Ok(()) => final(self).is_init() && match file {
                    None => final(self).entries() == Seq::<EntryModel>::empty(),
                    Some(bytes) => spec_serialize(final(self).entries()) == bytes@
                        && entries_clean(final(self).entries()),
                },
                Err(e) => {
                    &&& e == CacheError::IndexCorrupt
                    &&& *final(self) == *old(self)
                    &&& !final(self).is_init()
                    &&& file matches Some(bytes) && !exists|s: Seq<EntryModel>|
                        entries_wf(s) && entries_clean(s) && spec_serialize(s) == bytes@
                },
            },
    {
        if self.initialized {
            return Ok(());
        }
        match file {
            None => {
                self.index = CacheIndex::new();
                self.initialized = true;
                Ok(())
            },
            Some(bytes) => match parse_index(bytes) {
                Ok(ci) => {
                    self.index = ci;
                    self.initialized = true;
                    Ok(())
                },
                Err(e) => Err(e),
            },
        }
    }

    /// The canonical bytes of the index, to be written to the index file
    /// after every mutating operation.
    pub fn save_index(&self) -> (r: Vec<u8>)
        ensures
            r@ == spec_serialize(self.entries()),
    {
        serialize_index(&self.index)
    }

    /// Looks up the lyrics for the given artists and title at time `now`.
    /// Before initialization, reports so and changes nothing. On a miss,
    /// changes nothing. On a hit, refreshes the entry's last-access time to
    /// `now` and names the blob file that holds the lyrics; the caller should
    /// persist the index, then read that file, and treat a missing or
    /// unreadable file as a miss with an integrity warning.
    pub fn get_lyrics_from_cache(&mut self, artists: &Vec<String>, title: &str, now: u64) -> (r:
        GetOutcome)
        requires
            old(self).wf(),
        ensures
            final(self).wf(),
            ({
                let k = key_of(artists.deep_view(), title@);
                match r {
                    GetOutcome::NotInitialized => !old(self).is_init() && *final(self) == *old(
                        self,
                    ),
                    GetOutcome::Miss => {
                        &&& old(self).is_init()
                        &&& !has_key(old(self).entries(), k)
                        &&& *final(self) == *old(self)
                    },
                    GetOutcome::Hit { filename } => {
                        &&& old(self).is_init()
                        &&& final(self).is_init()
                        &&& has_key(old(self).entries(), k)
                        &&& filename@ == old(self).entries()[idx_of(old(self).entries(), k)]
                            .filename
                        &&& final(self).entries() == spec_touch(
                            old(self).entries(),
                            idx_of(old(self).entries(), k),
                            now,
                        )
                    },
                }
            }),
    {
        if !self.initialized {
            return GetOutcome::NotInitialized;
        }
        let key = generate_key(artists, title);
        match self.index.touch(&key, now) {
            None => GetOutcome::Miss,
            Some(filename) => {
                proof {
                    let oldv = old(self).entries();
                    let ix = idx_of(oldv, key@);
                    assert forall|j: int| 0 <= j < self.entries().len() implies entry_clean(
                        #[trigger] self.entries()[j],
                    ) by {
                        if j == ix {
                            assert(self.entries()[j].key == oldv[j].key);
                            assert(self.entries()[j].filename == oldv[j].filename);
                        } else {
                            assert(self.entries()[j] == oldv[j]);
                        }
                    }
                }
                GetOutcome::Hit { filename }
            },
        }
    }

    /// Records that the lyrics for the given artists and title were written
    /// at time `now` to the blob file it names in the outcome; the caller
    /// must have written that file already, and writes the index file
    /// afterwards. Before initialization, reports so and changes nothing.
    /// When the insertion leaves the index over `MAX_CACHE_ENTRIES`, the
    /// least-recently-used entry is removed and its blob file named for
    /// deletion.
    pub fn store_lyrics_to_cache(&mut self, artists: &Vec<String>, title: &str, now: u64) -> (r:
        StoreOutcome)
        requires
            old(self).wf(),
        ensures
            final(self).wf(),
            ({
                let k = key_of(artists.deep_view(), title@);
                let f = filename_of(k);
                match r {
                    StoreOutcome::NotInitialized => !old(self).is_init() && *final(self) == *old(
                        self,
                    ),
                    StoreOutcome::Stored { filename, evicted } => {
                        &&& old(self).is_init()
                        &&& final(self).is_init()
                        &&& filename@ == f
                        &&& final(self).entries() == spec_store(old(self).entries(), k, f, now)
                        &&& match (evicted, spec_store_evicted(old(self).entries(), k, f, now)) {
                            (Some(ef), Some(e)) => ef@ == e.filename,
                            (None, None) => true,
                            _ => false,
                        }
                    },
                }
            }),
    {
        if !self.initialized {
            return StoreOutcome::NotInitialized;
        }
        let key = generate_key(artists, title);
        let filename = generate_filename(&key);
        let filename_out = clone_bytes(&filename);
        let ghost oldv = self.entries();
        let ghost e = EntryModel { key: key@, filename: filename@, last_accessed: now };
        proof {
            let sha = sha256_of(canonical_of(artists.deep_view(), title@));
            lemma_spec_hex_encode_range(sha);
            assert forall|i: int| 0 <= i < e.key.len() implies e.key[i] != 34 by {
                assert(e.key[i] == spec_hex_encode(sha)[i]);
            }
            assert forall|i: int| 0 <= i < e.filename.len() implies e.filename[i] != 34 by {
                if i < e.key.len() {
                    assert(e.filename[i] == spec_hex_encode(sha)[i]);
                } else {
                    assert(e.filename[i] == seq![46u8, 116u8, 120u8, 116u8][i - e.key.len()]);
                }
            }
            assert(entry_clean(e));
        }
        self.index.insert_entry(key, filename, now);
        let ghost inserted = self.entries();
        proof {
            assert forall|j: int| 0 <= j < inserted.len() implies entry_clean(
                #[trigger] inserted[j],
            ) by {
                if has_key(oldv, e.key) {
                    let ix = idx_of(oldv, e.key);
                    if j == ix {
                        assert(inserted[j] == e);
                    } else {
                        assert(inserted[j] == oldv[j]);
                    }
                } else {
                    if j == oldv.len() {
                        assert(inserted[j] == e);
                    } else {
                        assert(inserted[j] == oldv[j]);
                    }
                }
            }
        }
        let evicted = if self.index.len() > MAX_CACHE_ENTRIES {
            let (_evicted_key, evicted_filename) = self.index.evict_min();
            proof {
                lemma_min_index(inserted);
                let m = min_index(inserted);
                assert forall|j: int| 0 <= j < self.entries().len() implies entry_clean(
                    #[trigger] self.entries()[j],
                ) by {
                    let oj = if j < m {
                        j
                    } else {
                        j + 1
                    };
                    assert(self.entries()[j] == inserted[oj]);
                }
            }
            Some(evicted_filename)
        } else {
            None
        };
        StoreOutcome::Stored { filename: filename_out, evicted }
    }
}

} // verus!
