//! Outcomes of the caches' operations.
use vstd::prelude::*;

verus! {

/// The one expected failure: the key is not in the cache.
#[derive(PartialEq, Eq, Structural, Clone, Copy, Debug)]
pub enum Error {
    KeyNotFound,
}

/// What an insert hands back to the caller. `E` is the owned
/// `(key, value)` of an entry that left the cache.
#[allow(inconsistent_fields)]
pub enum InsertResult<E> {
    /// A clash in the store, an in-cache eviction, or both.
    OldEntry { clash: Option<E>, evicted: Option<E> },
    /// The least recent entry was evicted to make room.
    OldTail { clash: Option<E>, evicted: E },
    /// Nothing was displaced.
    Success,
}

/// What a cache working over a shared store reports after linking a new
/// entry.
#[derive(PartialEq, Eq, Structural, Clone, Copy, Debug)]
pub enum InsertResultShared {
    /// An entry of this cache was overwritten in place; no size change.
    OldEntry,
    /// The cache overflowed: the slot at `evicted` left every chain and
    /// must now be emptied in the store by the caller.
    OldTailPtr { evicted: usize },
    /// Linked without displacing anything.
    Success,
}

} // verus!
