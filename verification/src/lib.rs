//! An in-memory, read-through cache of file contents under a fixed byte budget.
//!
//! A [`Cache`] stands in front of a store of files. Each time a file is asked
//! for, the cache decides whether its contents are worth keeping in memory:
//! it weighs how often the path was asked for against the size of the file,
//! and evicts resident files of lower priority to make room for one of higher
//! priority. The resident files never hold more bytes than the budget that
//! the cache was made with.

pub mod cache;
pub mod laws;
pub mod lemmas;
pub mod model;
pub mod order;
pub mod outcome;
pub mod priority;
mod resident;
mod sort;
pub mod sized_file;

pub use cache::{Cache, CachedFile};
pub use outcome::{CacheInvalidationError, CacheInvalidationSuccess};
pub use priority::{AccessPriority, BalancedPriority, PriorityFunction};
pub use sized_file::SizedFile;

