//! What an attempt to store a file in the cache can come to.

use vstd::prelude::*;

verus! {

/// Why a file was not admitted to the cache.
#[derive(Debug, PartialEq, Eq, Structural)]
pub enum CacheInvalidationError {
    /// Every resident file would have to go, and still there would not be
    /// room enough.
    NoMoreFilesToRemove,
    /// The files that would have to go are together worth more than the new
    /// file.
    NewPriorityIsNotHighEnough,
}

/// How a file was admitted to the cache.
#[derive(Debug, PartialEq, Eq, Structural)]
pub enum CacheInvalidationSuccess {
    /// Resident files of lower priority were evicted to make room.
    ReplacedFile,
    /// The file fitted into the space that was free.
    InsertedFileIntoAvailableSpace,
}

} // verus!
