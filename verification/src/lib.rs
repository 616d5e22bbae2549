//! A verified lyrics cache: a size-bounded key/value store mapping a
//! (artists, title) identity to cached lyric text, with least-recently-used
//! eviction, a content-hash key scheme, and a canonical on-disk index format.
use vstd::prelude::*;

pub mod bytes;
pub mod cache;
pub mod codec;
pub mod genius;
pub mod keys;
pub mod laws;
pub mod index;
pub mod ord;

verus! {

/// The largest number of entries the index may hold after a store.
pub const MAX_CACHE_ENTRIES: usize = 500;

/// The kinds of failure a cache operation can report. All of them are
/// recoverable: a caller degrades to uncached behaviour rather than stop.
#[derive(Clone, Copy, Debug, PartialEq, Eq, Structural)]
pub enum CacheError {
    /// The cache directory could not be resolved or created.
    DirectoryUnavailable,
    /// The index file is present but does not hold a well-formed index.
    IndexCorrupt,
    /// Reading, writing or deleting an individual blob file failed.
    BlobIOError,
    /// A lookup or store was attempted before initialization.
    NotInitialized,
    /// The index names a blob file that is missing or unreadable.
    IntegrityWarning,
}

} // verus!
