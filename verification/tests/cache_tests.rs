use std::collections::HashMap;

use lyricrs_cache::CacheError;
use lyricrs_cache::MAX_CACHE_ENTRIES;
use lyricrs_cache::cache::{GetOutcome, LyricsCache, StoreOutcome};
use lyricrs_cache::keys::{generate_filename, generate_key};

/// The blob store as the surrounding application would keep it on disk.
type Blobs = HashMap<Vec<u8>, Vec<u8>>;

fn contains_sub(haystack: &[u8], needle: &[u8]) -> bool {
    haystack.windows(needle.len()).any(|w| w == needle)
}

fn store_with_blobs(
    cache: &mut LyricsCache,
    blobs: &mut Blobs,
    artists: &Vec<String>,
    title: &str,
    lyrics: &[u8],
    now: u64,
) -> Option<Vec<u8>> {
    // The application writes the blob file first, then records the entry and
    // deletes the evicted blob, as the outcome directs.
    let key = generate_key(artists, title);
    let filename = generate_filename(&key);
    blobs.insert(filename, lyrics.to_vec());
    match cache.store_lyrics_to_cache(artists, title, now) {
        StoreOutcome::Stored { filename: _, evicted } => {
            if let Some(ef) = &evicted {
                assert!(blobs.remove(ef).is_some());
            }
            evicted
        },
        StoreOutcome::NotInitialized => panic!("store on an initialized cache"),
    }
}

#[test]
fn round_trip_store_then_get() {
    let mut cache = LyricsCache::new();
    assert!(cache.init_cache(None).is_ok());
    let mut blobs = Blobs::new();
    let artists = vec!["A".to_string()];
    let lyrics = b"la la la\nsecond line";
    store_with_blobs(&mut cache, &mut blobs, &artists, "Song", lyrics, 10);
    match cache.get_lyrics_from_cache(&artists, "Song", 20) {
        GetOutcome::Hit { filename } => {
            assert_eq!(blobs.get(&filename).unwrap().as_slice(), lyrics);
        },
        other => panic!("expected a hit, got {:?}", other),
    }
}

#[test]
fn store_sets_time_and_get_refreshes_it() {
    let mut cache = LyricsCache::new();
    assert!(cache.init_cache(None).is_ok());
    let artists = vec!["A".to_string()];
    match cache.store_lyrics_to_cache(&artists, "Song", 100) {
        StoreOutcome::Stored { .. } => {},
        other => panic!("expected a store, got {:?}", other),
    }
    let bytes = cache.save_index();
    assert!(contains_sub(&bytes, b"\"last_accessed\":100"));
    match cache.get_lyrics_from_cache(&artists, "Song", 250) {
        GetOutcome::Hit { .. } => {},
        other => panic!("expected a hit, got {:?}", other),
    }
    let bytes = cache.save_index();
    assert!(contains_sub(&bytes, b"\"last_accessed\":250"));
    assert!(!contains_sub(&bytes, b"\"last_accessed\":100"));
}

#[test]
fn miss_before_store() {
    let mut cache = LyricsCache::new();
    assert!(cache.init_cache(None).is_ok());
    let blobs = Blobs::new();
    let artists = vec!["A".to_string()];
    match cache.get_lyrics_from_cache(&artists, "Song", 5) {
        GetOutcome::Miss => {},
        other => panic!("expected a miss, got {:?}", other),
    }
    assert_eq!(cache.num_entries(), 0);
    assert!(blobs.is_empty());
}

#[test]
fn operations_before_init_do_nothing() {
    let mut cache = LyricsCache::new();
    let artists = vec!["A".to_string()];
    match cache.get_lyrics_from_cache(&artists, "Song", 5) {
        GetOutcome::NotInitialized => {},
        other => panic!("expected not-initialized, got {:?}", other),
    }
    match cache.store_lyrics_to_cache(&artists, "Song", 5) {
        StoreOutcome::NotInitialized => {},
        other => panic!("expected not-initialized, got {:?}", other),
    }
    assert_eq!(cache.num_entries(), 0);
}

#[test]
fn init_twice_is_idempotent() {
    let mut cache = LyricsCache::new();
    assert!(cache.init_cache(None).is_ok());
    let artists = vec!["A".to_string()];
    cache.store_lyrics_to_cache(&artists, "Song", 3);
    let before = cache.save_index();
    // A second init returns at once, whatever it is handed.
    let garbage = b"not an index at all".to_vec();
    assert!(cache.init_cache(Some(&garbage)).is_ok());
    assert_eq!(cache.save_index(), before);
    assert_eq!(cache.num_entries(), 1);
}

#[test]
fn init_rejects_corrupt_index() {
    let mut cache = LyricsCache::new();
    let garbage = b"{".to_vec();
    assert_eq!(cache.init_cache(Some(&garbage)), Err(CacheError::IndexCorrupt));
    assert!(!cache.is_initialized());
}

#[test]
fn empty_index_serializes_to_empty_object() {
    let mut cache = LyricsCache::new();
    assert!(cache.init_cache(None).is_ok());
    assert_eq!(cache.save_index(), b"{\"entries\":{}}".to_vec());
}

#[test]
fn one_entry_serializes_exactly() {
    let mut cache = LyricsCache::new();
    assert!(cache.init_cache(None).is_ok());
    let artists = vec!["A".to_string()];
    cache.store_lyrics_to_cache(&artists, "Song", 5);
    // The key is the SHA-256 of "A - Song" in lowercase hex.
    let expected = b"{\"entries\":{\"b0fd61df4089838b873b98f3be283ac9351e374ccb957f8241d1ae12ba5f09c1\":{\"filename\":\"b0fd61df4089838b873b98f3be283ac9351e374ccb957f8241d1ae12ba5f09c1.txt\",\"last_accessed\":5}}}".to_vec();
    assert_eq!(cache.save_index(), expected);
}

#[test]
fn persisted_index_loads_back() {
    let mut cache = LyricsCache::new();
    assert!(cache.init_cache(None).is_ok());
    let a1 = vec!["One".to_string()];
    let a2 = vec!["Two".to_string(), "Three".to_string()];
    cache.store_lyrics_to_cache(&a1, "First", 11);
    cache.store_lyrics_to_cache(&a2, "Second", 22);
    let bytes = cache.save_index();

    let mut restored = LyricsCache::new();
    assert!(restored.init_cache(Some(&bytes)).is_ok());
    assert_eq!(restored.num_entries(), 2);
    assert_eq!(restored.save_index(), bytes);
    match restored.get_lyrics_from_cache(&a1, "First", 33) {
        GetOutcome::Hit { .. } => {},
        other => panic!("expected a hit after reload, got {:?}", other),
    }
}

#[test]
fn eviction_after_capacity_with_increasing_times() {
    let mut cache = LyricsCache::new();
    assert!(cache.init_cache(None).is_ok());
    let mut blobs = Blobs::new();
    let first_artists = vec!["artist0".to_string()];
    let first_filename = generate_filename(&generate_key(&first_artists, "song0"));

    for i in 0..(MAX_CACHE_ENTRIES + 1) {
        let artists = vec![format!("artist{}", i)];
        let title = format!("song{}", i);
        let evicted = store_with_blobs(
            &mut cache,
            &mut blobs,
            &artists,
            &title,
            b"words",
            (i + 1) as u64,
        );
        assert!(cache.num_entries() <= MAX_CACHE_ENTRIES);
        if i < MAX_CACHE_ENTRIES {
            assert!(evicted.is_none());
        } else {
            // The 501st store evicts the oldest entry, the first one stored.
            assert_eq!(evicted, Some(first_filename.clone()));
        }
    }
    assert_eq!(cache.num_entries(), MAX_CACHE_ENTRIES);
    assert!(!blobs.contains_key(&first_filename));
    match cache.get_lyrics_from_cache(&first_artists, "song0", 10_000) {
        GetOutcome::Miss => {},
        other => panic!("expected the evicted song to miss, got {:?}", other),
    }
    let second_artists = vec!["artist1".to_string()];
    match cache.get_lyrics_from_cache(&second_artists, "song1", 10_001) {
        GetOutcome::Hit { .. } => {},
        other => panic!("expected the second song to hit, got {:?}", other),
    }
}

#[test]
fn eviction_tie_breaks_on_smallest_key() {
    let mut cache = LyricsCache::new();
    assert!(cache.init_cache(None).is_ok());
    let mut keys: Vec<Vec<u8>> = Vec::new();
    // Every entry shares one access time, so the lexicographically least key
    // loses.
    for i in 0..(MAX_CACHE_ENTRIES + 1) {
        let artists = vec![format!("tied{}", i)];
        keys.push(generate_key(&artists, "song"));
        let outcome = cache.store_lyrics_to_cache(&artists, "song", 7);
        if i == MAX_CACHE_ENTRIES {
            let mut sorted = keys.clone();
            sorted.sort();
            let expected = generate_filename(&sorted[0]);
            match outcome {
                StoreOutcome::Stored { evicted: Some(ef), .. } => assert_eq!(ef, expected),
                other => panic!("expected an eviction, got {:?}", other),
            }
        }
    }
}

#[test]
fn restoring_a_song_replaces_and_refreshes() {
    let mut cache = LyricsCache::new();
    assert!(cache.init_cache(None).is_ok());
    let mut blobs = Blobs::new();
    let artists = vec!["A".to_string()];
    store_with_blobs(&mut cache, &mut blobs, &artists, "Song", b"old words", 10);
    store_with_blobs(&mut cache, &mut blobs, &artists, "Song", b"new words", 20);
    assert_eq!(cache.num_entries(), 1);
    match cache.get_lyrics_from_cache(&artists, "Song", 30) {
        GetOutcome::Hit { filename } => {
            assert_eq!(blobs.get(&filename).unwrap().as_slice(), b"new words");
        },
        other => panic!("expected a hit, got {:?}", other),
    }
}

#[test]
fn largest_timestamps_round_trip() {
    // Timestamps near the top of the range survive persist and reload.
    let mut cache = LyricsCache::new();
    assert!(cache.init_cache(None).is_ok());
    let a1 = vec!["A".to_string()];
    let a2 = vec!["B".to_string()];
    cache.store_lyrics_to_cache(&a1, "Song", u64::MAX);
    cache.store_lyrics_to_cache(&a2, "Song", 18_446_744_073_709_551_610);
    let bytes = cache.save_index();
    let mut restored = LyricsCache::new();
    assert!(restored.init_cache(Some(&bytes)).is_ok());
    assert_eq!(restored.save_index(), bytes);
    assert_eq!(restored.num_entries(), 2);
}

#[test]
fn init_rejects_non_canonical_spelling() {
    // The parser accepts exactly the bytes save_index writes: another
    // spelling of the same object is reported corrupt.
    let mut cache = LyricsCache::new();
    let spaced = b"{\"entries\": {}}".to_vec();
    assert_eq!(cache.init_cache(Some(&spaced)), Err(CacheError::IndexCorrupt));
    let canonical = b"{\"entries\":{}}".to_vec();
    assert!(cache.init_cache(Some(&canonical)).is_ok());
    assert_eq!(cache.num_entries(), 0);
}
