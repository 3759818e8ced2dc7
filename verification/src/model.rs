//! The cache as a mathematical object: its state, and what each operation
//! makes of a state.

use crate::outcome::{CacheInvalidationError, CacheInvalidationSuccess};
use crate::priority::PriorityFunction;
use vstd::prelude::*;

verus! {

/// A file that is held in the cache.
pub struct Resident {
    pub path: Seq<char>,
    pub bytes: Seq<u8>,
}

/// A resident file as the eviction search sees it.
pub struct Ranked {
    pub path: Seq<char>,
    pub priority: nat,
    pub size: nat,
}

/// The state of a cache.
#[verifier::ext_equal]
pub struct CacheState<P> {
    /// The number of bytes that the resident files may hold together.
    pub size_limit: nat,
    /// The rule that scores files.
    pub policy: P,
    /// The resident files, in the order in which they were admitted.
    pub resident: Seq<Resident>,
    /// How often each path was asked for. A path that was never asked for has
    /// no entry.
    pub access_counts: Map<Seq<char>, usize>,
}

/// The number of bytes that the files hold together.
pub open spec fn total_size(resident: Seq<Resident>) -> nat
    decreases resident.len(),
{
    if resident.len() == 0 {
        0
    } else {
        total_size(resident.drop_last()) + resident.last().bytes.len()
    }
}

/// No two of the files have the same path.
pub open spec fn distinct_paths(resident: Seq<Resident>) -> bool {
    forall|i: int, j: int|
        0 <= i < j < resident.len() ==> (#[trigger] resident[i]).path != (
        #[trigger] resident[j]).path
}

/// The files whose path is not among `victims`, in their order.
pub open spec fn without(resident: Seq<Resident>, victims: Set<Seq<char>>) -> Seq<Resident> {
    resident.filter(|file: Resident| !victims.contains(file.path))
}

/// The files after `path` was given the contents `bytes`: an earlier file
/// under that path is gone, and the new one is the most recently admitted.
pub open spec fn put(resident: Seq<Resident>, path: Seq<char>, bytes: Seq<u8>) -> Seq<Resident> {
    without(resident, set![path]).push(Resident { path, bytes })
}

/// The count after one more access. A count that has reached the largest
/// `usize` stays there.
pub open spec fn bump(count: usize) -> usize {
    if count < usize::MAX {
        (count + 1) as usize
    } else {
        count
    }
}

/// The entries in the order in which the eviction search takes them, last
/// first: by descending priority, and among entries of equal priority the one
/// that stood later in `entries` stands later here too.
pub open spec fn sort_by_priority(entries: Seq<Ranked>) -> Seq<Ranked>
    decreases entries.len(),
{
    if entries.len() == 0 {
        entries
    } else {
        insert_by_priority(sort_by_priority(entries.drop_last()), entries.last())
    }
}

/// `sorted` with `entry` put behind every entry whose priority is at least
/// its own.
pub open spec fn insert_by_priority(sorted: Seq<Ranked>, entry: Ranked) -> Seq<Ranked>
    decreases sorted.len(),
{
    if sorted.len() > 0 && sorted.last().priority < entry.priority {
        insert_by_priority(sorted.drop_last(), entry).push(sorted.last())
    } else {
        sorted.push(entry)
    }
}

/// The paths of the last `count` entries.
pub open spec fn tail_paths(sorted: Seq<Ranked>, count: nat) -> Set<Seq<char>> {
    Set::new(
        |path: Seq<char>|
            exists|i: int|
                sorted.len() - count <= i < sorted.len() && 0 <= i && (#[trigger] sorted[i]).path
                    == path,
    )
}

/// The eviction search. It takes entries from the end of `sorted`, the lowest
/// priority first, until their sizes add up to `required` bytes, and gives the
/// number of entries taken. It fails once the priorities of the entries taken
/// add up to more than `budget`, or when there is no entry left to take.
pub open spec fn eviction_search(sorted: Seq<Ranked>, required: int, budget: int) -> Result<
    nat,
    CacheInvalidationError,
>
    decreases sorted.len(),
{
    if required <= 0 {
        Ok(0)
    } else if sorted.len() == 0 {
        Err(CacheInvalidationError::NoMoreFilesToRemove)
    } else if sorted.last().priority > budget {
        Err(CacheInvalidationError::NewPriorityIsNotHighEnough)
    } else {
        match eviction_search(
            sorted.drop_last(),
            required - sorted.last().size,
            budget - sorted.last().priority,
        ) {
            Ok(taken) => Ok(taken + 1),
            Err(cause) => Err(cause),
        }
    }
}

/// What can be done to a cache.
pub enum Operation {
    /// One more access to `path` is counted.
    Touch { path: Seq<char> },
    /// The file `bytes` is offered under `path`.
    Store { path: Seq<char>, bytes: Seq<u8> },
    /// Room of `required` bytes is made for a file of priority `priority`.
    MakeRoom { required: int, priority: nat },
    /// The file under `path` was not resident, and `read` is what the read of
    /// it came to.
    Read { path: Seq<char>, read: Option<Seq<u8>> },
    /// The file under `path` is asked for, and `read` is what a read of it
    /// comes to.
    Request { path: Seq<char>, read: Option<Seq<u8>> },
}

impl<P: PriorityFunction> CacheState<P> {
    /// The state of a cache that holds nothing and has counted nothing.
    pub open spec fn empty(size_limit: nat, policy: P) -> CacheState<P> {
        CacheState { size_limit, policy, resident: Seq::empty(), access_counts: Map::empty() }
    }

    /// The number of bytes that the resident files hold together.
    pub open spec fn resident_bytes(self) -> nat {
        total_size(self.resident)
    }

    /// What holds of every state that a cache can reach: no path is resident
    /// twice, and the resident files fit in the byte budget.
    pub open spec fn wf(self) -> bool {
        &&& distinct_paths(self.resident)
        &&& self.resident_bytes() <= self.size_limit
    }

    /// Whether a file is resident under `path`.
    pub open spec fn is_resident(self, path: Seq<char>) -> bool {
        exists|i: int| 0 <= i < self.resident.len() && (#[trigger] self.resident[i]).path == path
    }

    /// The contents of the file that is resident under `path`.
    pub open spec fn contents(self, path: Seq<char>) -> Seq<u8>
        recommends
            self.is_resident(path),
    {
        let i = choose|i: int|
            0 <= i < self.resident.len() && (#[trigger] self.resident[i]).path == path;
        self.resident[i].bytes
    }

    /// How often `path` was asked for.
    pub open spec fn access_count(self, path: Seq<char>) -> usize {
        if self.access_counts.contains_key(path) {
            self.access_counts[path]
        } else {
            0
        }
    }

    /// The state after one more access to `path`.
    pub open spec fn touch(self, path: Seq<char>) -> CacheState<P> {
        CacheState {
            access_counts: self.access_counts.insert(path, bump(self.access_count(path))),
            ..self
        }
    }

    /// A resident file as the eviction search sees it. A resident file that
    /// was never asked for counts as asked for once.
    pub open spec fn rank(self, file: Resident) -> Ranked {
        let access_count: nat = if self.access_counts.contains_key(file.path) {
            self.access_counts[file.path] as nat
        } else {
            1
        };
        Ranked {
            path: file.path,
            priority: self.policy.spec_priority(access_count, file.bytes.len()),
            size: file.bytes.len(),
        }
    }

    /// The files as the eviction search sees them, in their order.
    pub open spec fn rank_all(self, files: Seq<Resident>) -> Seq<Ranked> {
        files.map_values(|file: Resident| self.rank(file))
    }

    /// The resident files as the eviction search sees them, in the order in
    /// which they were admitted.
    pub open spec fn ranking(self) -> Seq<Ranked> {
        self.rank_all(self.resident)
    }

    /// The resident files in the order in which the eviction search takes
    /// them, last first.
    pub open spec fn sorted_ranking(self) -> Seq<Ranked> {
        sort_by_priority(self.ranking())
    }

    /// The priority of a file of `size` bytes that is offered under `path`.
    /// A path that was never asked for counts as never asked for.
    pub open spec fn candidate_priority(self, path: Seq<char>, size: nat) -> nat {
        self.policy.spec_priority(self.access_count(path) as nat, size)
    }

    /// The state after the resident files of lowest priority were evicted to
    /// free `required` bytes for a file of priority `priority`, or the reason
    /// why none was evicted.
    pub open spec fn make_room(self, required: int, priority: nat) -> Result<
        CacheState<P>,
        CacheInvalidationError,
    > {
        let sorted = self.sorted_ranking();
        match eviction_search(sorted, required, priority as int) {
            Ok(taken) => Ok(
                CacheState { resident: without(self.resident, tail_paths(sorted, taken)), ..self },
            ),
            Err(cause) => Err(cause),
        }
    }

    /// How an attempt to store `bytes` under `path` ends.
    pub open spec fn store_outcome(self, path: Seq<char>, bytes: Seq<u8>) -> Result<
        CacheInvalidationSuccess,
        CacheInvalidationError,
    > {
        let required = self.resident_bytes() + bytes.len() - self.size_limit;
        if required <= 0 {
            Ok(CacheInvalidationSuccess::InsertedFileIntoAvailableSpace)
        } else {
            match self.make_room(required, self.candidate_priority(path, bytes.len())) {
                Ok(_) => Ok(CacheInvalidationSuccess::ReplacedFile),
                Err(_) => Err(CacheInvalidationError::NewPriorityIsNotHighEnough),
            }
        }
    }

    /// The state after an attempt to store `bytes` under `path`.
    pub open spec fn store(self, path: Seq<char>, bytes: Seq<u8>) -> CacheState<P> {
        let required = self.resident_bytes() + bytes.len() - self.size_limit;
        if required <= 0 {
            CacheState { resident: put(self.resident, path, bytes), ..self }
        } else {
            match self.make_room(required, self.candidate_priority(path, bytes.len())) {
                Ok(roomy) => CacheState { resident: put(roomy.resident, path, bytes), ..self },
                Err(_) => self,
            }
        }
    }

    /// The state after `path` was asked for, was not resident, and the read
    /// of its file came to `read`. A failed read changes nothing. A read that
    /// brought bytes counts as an access, and the bytes are then offered to
    /// the cache.
    pub open spec fn after_read(self, path: Seq<char>, read: Option<Seq<u8>>) -> CacheState<P> {
        match read {
            Some(bytes) => self.touch(path).store(path, bytes),
            None => self,
        }
    }

    /// The state after `path` was asked for, where `read` is what a read of
    /// its file comes to. A hit counts as an access and needs no read.
    pub open spec fn after_request(self, path: Seq<char>, read: Option<Seq<u8>>) -> CacheState<P> {
        if self.is_resident(path) {
            self.touch(path)
        } else {
            self.after_read(path, read)
        }
    }

    /// The state after `operation`.
    pub open spec fn apply(self, operation: Operation) -> CacheState<P> {
        match operation {
            Operation::Touch { path } => self.touch(path),
            Operation::Store { path, bytes } => self.store(path, bytes),
            Operation::MakeRoom { required, priority } => match self.make_room(required, priority) {
                Ok(roomy) => roomy,
                Err(_) => self,
            },
            Operation::Read { path, read } => self.after_read(path, read),
            Operation::Request { path, read } => self.after_request(path, read),
        }
    }

    /// The state after the operations, one after the other.
    pub open spec fn run(self, operations: Seq<Operation>) -> CacheState<P>
        decreases operations.len(),
    {
        if operations.len() == 0 {
            self
        } else {
            self.run(operations.drop_last()).apply(operations.last())
        }
    }

    /// The file that is handed out when `path` is asked for, where `read` is
    /// what a read of its file comes to: the resident file on a hit, what was
    /// read on a miss, whether or not the cache admits it, and nothing where
    /// the read failed.
    pub open spec fn served(self, path: Seq<char>, read: Option<Seq<u8>>) -> Option<Resident> {
        if self.is_resident(path) {
            Some(Resident { path, bytes: self.contents(path) })
        } else {
            match read {
                Some(bytes) => Some(Resident { path, bytes }),
                None => None,
            }
        }
    }
}

} // verus!
