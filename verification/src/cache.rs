//! The cache itself.

use crate::laws::{lemma_make_room_frees, lemma_store_within_budget};
use crate::lemmas::{
    lemma_put, lemma_total_size_prefix, lemma_total_size_take, lemma_without_absent,
    lemma_without_twice,
};
use crate::model::{
    eviction_search, put, tail_paths, total_size, without, CacheState, Ranked, Resident,
};
use crate::order::lemma_rank_all;
use crate::outcome::{CacheInvalidationError, CacheInvalidationSuccess};
use crate::priority::{AccessPriority, BalancedPriority, PriorityFunction};
use crate::resident::{share, ResidentFiles};
use crate::sized_file::SizedFile;
use crate::sort::{lemma_ranks_sort_entries, lemma_sorted_ranks, sort_ranks, Rank};
use std::sync::Arc;
use vstd::hash_map::StringHashMap;
use vstd::prelude::*;

verus! {

/// A file as the cache hands it out: the path it was asked for under, and
/// the contents, shared with the cache and with every other handle. A handle
/// stays good when the cache evicts the file.
pub struct CachedFile {
    path: String,
    file: Arc<SizedFile>,
}

impl View for CachedFile {
    type V = Resident;

    closed spec fn view(&self) -> Resident {
        Resident { path: self.path@, bytes: self.file@ }
    }
}

impl Clone for CachedFile {
    /// Another handle on the same file. The contents are shared, not copied.
    fn clone(&self) -> (copy: CachedFile)
        ensures
            copy@ == self@,
    {
        CachedFile { path: self.path.clone(), file: share(&self.file) }
    }
}

impl CachedFile {
    /// The path that the file was asked for under.
    pub fn path(&self) -> (path: &String)
        ensures
            path@ == self@.path,
    {
        &self.path
    }

    /// The contents of the file.
    pub fn file(&self) -> (file: &Arc<SizedFile>)
        ensures
            file@ == self@.bytes,
    {
        &self.file
    }
}

/// A cache of files under a byte budget.
///
/// When a file is asked for, the cache hands out its copy, if it has one.
/// If it has none, the file is read and offered to the cache. Where there is
/// room, the cache stores it. Where there is none, the cache evicts resident
/// files of lower priority to make room, unless they are together worth more
/// than the new file. How often each path was asked for is counted for as
/// long as the cache lives, so that a file that was evicted regains its
/// priority when it is asked for again.
pub struct Cache<P: PriorityFunction = BalancedPriority> {
    /// The number of bytes that the resident files may hold together.
    size_limit: usize,
    /// The rule that scores files.
    priority_function: P,
    /// The resident files.
    file_map: ResidentFiles,
    /// How often each path was asked for.
    access_count_map: StringHashMap<usize>,
}

/// What a list of paths with their priorities and sizes stands for.
pub open spec fn ranked_entries(entries: Seq<(String, usize, usize)>) -> Seq<Ranked> {
    entries.map_values(
        |entry: (String, usize, usize)|
            Ranked { path: entry.0@, priority: entry.1 as nat, size: entry.2 as nat },
    )
}

/// What has come of a read: the bytes, if there are any.
pub open spec fn bytes_read<E>(outcome: Result<SizedFile, E>) -> Option<Seq<u8>> {
    match outcome {
        Ok(file) => Some(file@),
        Err(_) => None,
    }
}

/// What a handle stands for, if there is one.
pub open spec fn handed_out(found: Option<CachedFile>) -> Option<Resident> {
    match found {
        Some(handle) => Some(handle@),
        None => None,
    }
}

impl<P: PriorityFunction> View for Cache<P> {
    type V = CacheState<P>;

    closed spec fn view(&self) -> CacheState<P> {
        CacheState {
            size_limit: self.size_limit as nat,
            policy: self.priority_function,
            resident: self.file_map@,
            access_counts: self.access_count_map@,
        }
    }
}

impl Cache<BalancedPriority> {
    /// The rule of a cache that was made without naming one.
    pub const DEFAULT_PRIORITY_FUNCTION: BalancedPriority = BalancedPriority;

    /// The rule that values files by the number of times they were asked for
    /// alone.
    pub const ACCESS_PRIORITY_FUNCTION: AccessPriority = AccessPriority;

    /// A cache that holds at most `size_limit` bytes and scores files by the
    /// balanced rule. It starts empty.
    pub fn new(size_limit: usize) -> (cache: Cache<BalancedPriority>)
        ensures
            cache@ == CacheState::empty(size_limit as nat, BalancedPriority),
            cache@.wf(),
    {
        Cache::new_with_priority_function(size_limit, BalancedPriority)
    }
}

impl<P: PriorityFunction> Cache<P> {
    #[verifier::type_invariant]
    spec fn within_budget(self) -> bool {
        self.file_map.wf() && self@.wf()
    }

    /// A cache that holds at most `size_limit` bytes and scores files by
    /// `priority_function`. It starts empty.
    pub fn new_with_priority_function(size_limit: usize, priority_function: P) -> (cache: Cache<P>)
        ensures
            cache@ == CacheState::empty(size_limit as nat, priority_function),
            cache@.wf(),
    {
        Cache {
            size_limit,
            priority_function,
            file_map: ResidentFiles::new(),
            access_count_map: StringHashMap::new(),
        }
    }

    /// The number of bytes that the resident files may hold together.
    pub fn size_limit(&self) -> (size_limit: usize)
        ensures
            size_limit == self@.size_limit,
    {
        self.size_limit
    }

    /// The number of bytes that the resident files hold together. It is
    /// never more than the byte budget.
    pub fn size_bytes(&self) -> (total: usize)
        ensures
            total == self@.resident_bytes(),
            total <= self@.size_limit,
            self@.wf(),
    {
        proof {
            use_type_invariant(self);
        }
        let ghost files = self.file_map@;
        let mut total: usize = 0;
        let mut i: usize = 0;
        while i < self.file_map.len()
            invariant
                i <= files.len(),
                files == self.file_map@,
                total == total_size(files.take(i as int)),
                total_size(files) <= usize::MAX,
            decreases files.len() - i,
        {
            proof {
                lemma_total_size_take(files, i as int);
                lemma_total_size_prefix(files, i + 1);
            }
            total = total + self.file_map.file(i).size();
            i = i + 1;
        }
        assert(files.take(i as int) =~= files);
        total
    }

    /// How often `path` was asked for.
    pub fn access_count(&self, path: &String) -> (count: usize)
        ensures
            count == self@.access_count(path@),
    {
        match self.access_count_map.get(path.as_str()) {
            Some(count) => *count,
            None => 0,
        }
    }

    /// Counts one more access to `path`, resident or not. The resident files
    /// stay as they are.
    pub fn increment_access_count(&mut self, path: &String)
        ensures
            final(self)@ == old(self)@.touch(path@),
            final(self)@.wf(),
    {
        proof {
            use_type_invariant(&*self);
        }
        let count: usize = self.access_count(path);
        let bumped: usize = if count < usize::MAX {
            count + 1
        } else {
            count
        };
        let mut counts: StringHashMap<usize> = StringHashMap::new();
        std::mem::swap(&mut counts, &mut self.access_count_map);
        counts.insert(path.clone(), bumped);
        self.access_count_map = counts;
    }

    /// The file that is resident under `path`, if there is one. The handle
    /// shares the contents with the cache.
    pub fn get(&self, path: &String) -> (found: Option<CachedFile>)
        ensures
            match found {
                Some(handle) => self@.is_resident(path@) && handle@ == (Resident {
                    path: path@,
                    bytes: self@.contents(path@),
                }),
                None => !self@.is_resident(path@),
            },
    {
        proof {
            use_type_invariant(self);
        }
        match self.file_map.get(path) {
            Some(file) => Some(CachedFile { path: path.clone(), file: share(file) }),
            None => None,
        }
    }

    /// Puts the file under `path`, in place of the file that was there, if
    /// there was one.
    fn insert(&mut self, path: String, file: Arc<SizedFile>)
        requires
            total_size(without(old(self)@.resident, set![path@])) + file@.len() <= old(
                self,
            )@.size_limit,
        ensures
            final(self)@ == (CacheState {
                resident: put(old(self)@.resident, path@, file@),
                ..old(self)@
            }),
    {
        proof {
            use_type_invariant(&*self);
            lemma_put(self@.resident, path@, file@);
        }
        let mut files = ResidentFiles::new();
        std::mem::swap(&mut files, &mut self.file_map);
        files.put(path, file);
        self.file_map = files;
    }

    /// The ranks of the resident files in the order in which the eviction
    /// search takes them, last first.
    fn sorted_ranks(&self) -> (sorted: Vec<Rank>)
        ensures
            sorted.len() == self@.sorted_ranking().len(),
            sorted.len() == self@.resident.len(),
            forall|a: int|
                0 <= a < sorted.len() ==> (#[trigger] sorted[a]).slot < self@.resident.len()
                    && self@.sorted_ranking()[a] == self@.ranking()[sorted[a].slot as int]
                    && sorted[a].priority == self@.sorted_ranking()[a].priority,
    {
        proof {
            use_type_invariant(self);
            lemma_rank_all(self@, self@.resident, Set::empty());
        }
        let ghost ranking = self@.ranking();
        let mut ranks: Vec<Rank> = Vec::new();
        let mut slot: usize = 0;
        while slot < self.file_map.len()
            invariant
                slot <= ranking.len(),
                ranking == self@.ranking(),
                ranking.len() == self.file_map@.len(),
                ranks.len() == slot,
                forall|k: int|
                    0 <= k < slot ==> (#[trigger] ranks[k]).slot == k && ranks[k].priority
                        == ranking[k].priority,
            decreases ranking.len() - slot,
        {
            let access_count: usize = match self.access_count_map.get(
                self.file_map.path(slot).as_str(),
            ) {
                Some(count) => *count,
                None => 1,
            };
            let size: usize = self.file_map.file(slot).size();
            let priority: usize = self.priority_function.priority(access_count, size);
            ranks.push(Rank { priority, slot });
            slot = slot + 1;
        }
        let ghost unsorted = ranks@;
        let sorted = sort_ranks(ranks);
        proof {
            lemma_sorted_ranks(ranking, unsorted, sorted@);
            let taken = Seq::new(sorted@.len(), |a: int| ranking[sorted@[a].slot as int]);
            lemma_ranks_sort_entries(ranking, unsorted, sorted@, taken);
        }
        sorted
    }

    /// The resident files, each with its path, its priority and its size, in
    /// the order in which the eviction search takes them, last first: by
    /// descending priority, and among files of equal priority the one that
    /// was admitted later stands later.
    pub fn sorted_priorities(&self) -> (priorities: Vec<(String, usize, usize)>)
        ensures
            ranked_entries(priorities@) == self@.sorted_ranking(),
    {
        let sorted = self.sorted_ranks();
        let mut priorities: Vec<(String, usize, usize)> = Vec::new();
        let mut next: usize = 0;
        while next < sorted.len()
            invariant
                next <= sorted.len(),
                sorted.len() == self@.sorted_ranking().len(),
                forall|a: int|
                    0 <= a < sorted.len() ==> (#[trigger] sorted[a]).slot < self@.resident.len()
                        && self@.sorted_ranking()[a] == self@.ranking()[sorted[a].slot as int]
                        && sorted[a].priority == self@.sorted_ranking()[a].priority,
                priorities.len() == next,
                forall|a: int|
                    0 <= a < next ==> (#[trigger] ranked_entries(priorities@)[a])
                        == self@.sorted_ranking()[a],
            decreases sorted.len() - next,
        {
            let rank = sorted[next];
            let ghost before = priorities@;
            priorities.push(
                (
                    self.file_map.path(rank.slot).clone(),
                    rank.priority,
                    self.file_map.file(rank.slot).size(),
                ),
            );
            assert forall|a: int| 0 <= a < next + 1 implies (#[trigger] ranked_entries(
                priorities@,
            )[a]) == self@.sorted_ranking()[a] by {
                if a < next {
                    assert(priorities@[a] == before[a]);
                    assert(ranked_entries(before)[a] == self@.sorted_ranking()[a]);
                }
            }
            next = next + 1;
        }
        assert(ranked_entries(priorities@) =~= self@.sorted_ranking());
        priorities
    }

    /// Evicts the resident files of lowest priority until `required_space`
    /// bytes are free, or evicts nothing. Nothing is evicted where the files
    /// that would have to go are together worth more than
    /// `new_file_priority`, or where all of them together would not free
    /// enough.
    pub fn make_room_for_new_file(&mut self, required_space: usize, new_file_priority: usize) -> (made:
        Result<(), CacheInvalidationError>)
        ensures
            match old(self)@.make_room(required_space as int, new_file_priority as nat) {
                Ok(roomy) => made is Ok && final(self)@ == roomy,
                Err(cause) => made == Err::<(), CacheInvalidationError>(cause) && final(self)@
                    == old(self)@,
            },
            final(self)@.wf(),
            final(self)@.access_counts == old(self)@.access_counts,
    {
        proof {
            use_type_invariant(&*self);
        }
        let ranks = self.sorted_ranks();
        let ghost sorted = self@.sorted_ranking();
        let ghost search = eviction_search(sorted, required_space as int, new_file_priority as int);
        let mut file_paths_to_remove: Vec<String> = Vec::new();
        let mut untaken: usize = ranks.len();
        let mut needed: usize = required_space;
        let mut budget: usize = new_file_priority;
        assert(sorted.take(untaken as int) =~= sorted);
        while needed > 0
            invariant
                *self == *old(self),
                self@.wf(),
                untaken <= ranks.len(),
                sorted == self@.sorted_ranking(),
                ranks.len() == sorted.len(),
                forall|a: int|
                    0 <= a < ranks.len() ==> (#[trigger] ranks[a]).slot
                        < self@.resident.len() && sorted[a] == self@.ranking()[ranks[a].slot as int]
                        && ranks[a].priority == sorted[a].priority,
                search == eviction_search(sorted, required_space as int, new_file_priority as int),
                needed > 0 ==> search == taken_more(
                    eviction_search(sorted.take(untaken as int), needed as int, budget as int),
                    (sorted.len() - untaken) as nat,
                ),
                needed == 0 ==> search == Ok::<nat, CacheInvalidationError>(
                    (sorted.len() - untaken) as nat,
                ),
                file_paths_to_remove.len() == sorted.len() - untaken,
                forall|k: int|
                    0 <= k < file_paths_to_remove.len() ==> (#[trigger] file_paths_to_remove[k])@
                        == sorted[sorted.len() - 1 - k].path,
            decreases untaken,
        {
            let ghost rest = sorted.take(untaken as int);
            if untaken == 0 {
                return Err(CacheInvalidationError::NoMoreFilesToRemove);
            }
            untaken = untaken - 1;
            let lowest = ranks[untaken];
            let lowest_file_priority: usize = lowest.priority;
            let lowest_file_size: usize = self.file_map.file(lowest.slot).size();
            proof {
                assert(rest.last() == sorted[untaken as int]);
                assert(rest.drop_last() =~= sorted.take(untaken as int));
            }
            if lowest_file_priority > budget {
                return Err(CacheInvalidationError::NewPriorityIsNotHighEnough);
            }
            proof {
                if lowest_file_size >= needed {
                    assert(eviction_search(
                        rest.drop_last(),
                        needed - lowest_file_size,
                        budget - lowest_file_priority,
                    ) == Ok::<nat, CacheInvalidationError>(0));
                }
            }
            budget = budget - lowest_file_priority;
            needed = if lowest_file_size >= needed {
                0
            } else {
                needed - lowest_file_size
            };
            file_paths_to_remove.push(self.file_map.path(lowest.slot).clone());
        }
        let ghost before = self@.resident;
        let mut files = ResidentFiles::new();
        std::mem::swap(&mut files, &mut self.file_map);
        let mut removed: usize = 0;
        proof {
            assert(tail_paths(sorted, 0) =~= Set::<Seq<char>>::empty());
            lemma_without_absent(before, Set::<Seq<char>>::empty());
            lemma_make_room_frees(old(self)@, required_space as int, new_file_priority as nat);
        }
        while removed < file_paths_to_remove.len()
            invariant
                removed <= file_paths_to_remove.len() <= sorted.len(),
                forall|k: int|
                    0 <= k < file_paths_to_remove.len() ==> (#[trigger] file_paths_to_remove[k])@
                        == sorted[sorted.len() - 1 - k].path,
                files.wf(),
                files@ == without(before, tail_paths(sorted, removed as nat)),
            decreases file_paths_to_remove.len() - removed,
        {
            let ghost gone = tail_paths(sorted, removed as nat);
            let ghost victim = set![file_paths_to_remove[removed as int]@];
            proof {
                lemma_without_twice(before, gone, victim);
                assert(gone.union(victim) =~= tail_paths(sorted, (removed + 1) as nat)) by {
                    assert(file_paths_to_remove[removed as int]@ == sorted[sorted.len() - 1
                        - removed].path);
                }
            }
            files.remove(&file_paths_to_remove[removed]);
            removed = removed + 1;
        }
        self.file_map = files;
        Ok(())
    }

    /// Tries to store the file under `path`.
    ///
    /// Where the file fits into the free space, it is stored. Otherwise the
    /// resident files of lowest priority are evicted to make room, as long as
    /// they are together worth no more than the new file; where they are
    /// worth more, or where there are not enough of them, nothing changes.
    /// The access counts stay as they are in either case.
    pub fn try_store(&mut self, path: String, file: Arc<SizedFile>) -> (outcome: Result<
        CacheInvalidationSuccess,
        CacheInvalidationError,
    >)
        ensures
            outcome == old(self)@.store_outcome(path@, file@),
            final(self)@ == old(self)@.store(path@, file@),
            final(self)@.wf(),
            outcome is Err ==> final(self)@ == old(self)@,
            final(self)@.access_counts == old(self)@.access_counts,
    {
        proof {
            use_type_invariant(&*self);
            lemma_store_within_budget(self@, path@, file@);
        }
        let size: usize = file.size();
        let available: usize = self.size_limit - self.size_bytes();
        if size <= available {
            proof {
                lemma_put(self@.resident, path@, file@);
            }
            self.insert(path, file);
            Ok(CacheInvalidationSuccess::InsertedFileIntoAvailableSpace)
        } else {
            let required_space: usize = size - available;
            let new_file_priority: usize = self.priority_function.priority(
                self.access_count(&path),
                size,
            );
            match self.make_room_for_new_file(required_space, new_file_priority) {
                Ok(_) => {
                    proof {
                        lemma_make_room_frees(
                            old(self)@,
                            required_space as int,
                            new_file_priority as nat,
                        );
                        lemma_put(self@.resident, path@, file@);
                    }
                    self.insert(path, file);
                    Ok(CacheInvalidationSuccess::ReplacedFile)
                },
                Err(_) => Err(CacheInvalidationError::NewPriorityIsNotHighEnough),
            }
        }
    }

    /// What becomes of a miss on `pathbuf` once the read of its file has come
    /// back with `outcome`.
    ///
    /// A failed read hands out nothing and changes nothing, whatever the
    /// error was. A read that brought a file counts as an access; the file is
    /// offered to the cache, and is handed out whether or not the cache has
    /// admitted it.
    pub fn serve_read<E>(&mut self, pathbuf: String, outcome: Result<SizedFile, E>) -> (found:
        Option<CachedFile>)
        ensures
            final(self)@ == old(self)@.after_read(pathbuf@, bytes_read(outcome)),
            handed_out(found) == match bytes_read(outcome) {
                Some(bytes) => Some(Resident { path: pathbuf@, bytes }),
                None => None,
            },
            final(self)@.wf(),
    {
        proof {
            use_type_invariant(&*self);
        }
        match outcome {
            Ok(file) => {
                self.increment_access_count(&pathbuf);
                let shared: Arc<SizedFile> = Arc::new(file);
                let handle = CachedFile { path: pathbuf.clone(), file: share(&shared) };
                let _ = self.try_store(pathbuf, shared);
                Some(handle)
            },
            Err(_) => None,
        }
    }

    /// Hands out the file under `pathbuf`: from the cache where it is
    /// resident, and otherwise from `read`, which is called on a miss only.
    ///
    /// A hit counts as an access. On a miss, `read` is asked for the file.
    /// Where it fails, nothing is handed out and nothing changes, the access
    /// counts included. Where it brings a file, that counts as an access, the
    /// file is offered to the cache, and it is handed out whether or not the
    /// cache has admitted it.
    pub fn get_or_cache<R, E>(&mut self, pathbuf: String, read: R) -> (found: Option<
        CachedFile,
    >) where R: FnOnce(&String) -> Result<SizedFile, E>
        requires
            read.requires((&pathbuf,)),
        ensures
            old(self)@.is_resident(pathbuf@) ==> {
                &&& final(self)@ == old(self)@.touch(pathbuf@)
                &&& handed_out(found) == Some(
                    Resident { path: pathbuf@, bytes: old(self)@.contents(pathbuf@) },
                )
            },
            !old(self)@.is_resident(pathbuf@) ==> exists|outcome: Result<SizedFile, E>|
                {
                    &&& #[trigger] read.ensures((&pathbuf,), outcome)
                    &&& final(self)@ == old(self)@.after_read(pathbuf@, bytes_read(outcome))
                    &&& handed_out(found) == old(self)@.served(pathbuf@, bytes_read(outcome))
                },
            final(self)@.wf(),
    {
        proof {
            use_type_invariant(&*self);
        }
        match self.get(&pathbuf) {
            Some(handle) => {
                self.increment_access_count(&pathbuf);
                Some(handle)
            },
            None => {
                let outcome = read(&pathbuf);
                self.serve_read(pathbuf, outcome)
            },
        }
    }
}

/// The outcome of a search that went on after `more` entries were taken.
spec fn taken_more(search: Result<nat, CacheInvalidationError>, more: nat) -> Result<
    nat,
    CacheInvalidationError,
> {
    match search {
        Ok(taken) => Ok(taken + more),
        Err(cause) => Err(cause),
    }
}

} // verus!
