//! What holds of the cache in every state and across its operations.

use crate::lemmas::{lemma_put, lemma_without_absent, lemma_without_distinct};
use crate::model::{bump, CacheState, Operation, Ranked, Resident};
use crate::order::{
    is_stable_sort, lemma_rank_all, lemma_search_frees_enough, lemma_sort_distinct,
    lemma_sort_is_stable_sort, lemma_sort_is_the_stable_sort, lemma_sort_kept_size,
    lemma_tail_is_freed,
};
use crate::outcome::CacheInvalidationError;
use crate::priority::PriorityFunction;
use vstd::prelude::*;

verus! {

/// The budget holds in every state that a cache can reach: whatever is done
/// to a cache, and in whatever order, from the moment it is made, the
/// resident files fit in the byte budget that it was made with, and no path
/// is resident twice.
pub proof fn lemma_budget_holds<P: PriorityFunction>(
    size_limit: nat,
    policy: P,
    operations: Seq<Operation>,
)
    ensures
        CacheState::empty(size_limit, policy).run(operations).wf(),
        CacheState::empty(size_limit, policy).run(operations).size_limit == size_limit,
        CacheState::empty(size_limit, policy).run(operations).resident_bytes() <= size_limit,
    decreases operations.len(),
{
    if operations.len() > 0 {
        lemma_budget_holds(size_limit, policy, operations.drop_last());
        lemma_operation_within_budget(
            CacheState::empty(size_limit, policy).run(operations.drop_last()),
            operations.last(),
        );
    }
}

/// The budget holds in every state that a cache can reach: no operation
/// takes a cache out of its budget, or changes the budget.
pub proof fn lemma_operation_within_budget<P: PriorityFunction>(
    state: CacheState<P>,
    operation: Operation,
)
    requires
        state.wf(),
    ensures
        state.apply(operation).wf(),
        state.apply(operation).size_limit == state.size_limit,
{
    match operation {
        Operation::Touch { path } => {},
        Operation::Store { path, bytes } => {
            lemma_store_within_budget(state, path, bytes);
        },
        Operation::MakeRoom { required, priority } => {
            if state.make_room(required, priority) is Ok {
                lemma_make_room_frees(state, required, priority);
            }
        },
        Operation::Read { path, read } => {
            lemma_request_within_budget(state, path, read);
            if read is Some {
                lemma_store_within_budget(state.touch(path), path, read->Some_0);
            }
        },
        Operation::Request { path, read } => {
            lemma_request_within_budget(state, path, read);
        },
    }
}

/// The budget holds in every state that a cache can reach: an empty cache is
/// within its budget.
pub proof fn lemma_empty_within_budget<P: PriorityFunction>(size_limit: nat, policy: P)
    ensures
        CacheState::empty(size_limit, policy).wf(),
        CacheState::empty(size_limit, policy).resident_bytes() == 0,
{
}

/// The budget holds in every state that a cache can reach: counting an
/// access changes neither the resident files nor the budget.
pub proof fn lemma_touch_within_budget<P: PriorityFunction>(state: CacheState<P>, path: Seq<char>)
    requires
        state.wf(),
    ensures
        state.touch(path).wf(),
        state.touch(path).resident == state.resident,
        state.touch(path).size_limit == state.size_limit,
{
}

/// The budget holds in every state that a cache can reach: after an attempt
/// to store a file, whatever its outcome, the resident files fit in the byte
/// budget, which is the one that the cache was made with, and no path is
/// resident twice.
pub proof fn lemma_store_within_budget<P: PriorityFunction>(
    state: CacheState<P>,
    path: Seq<char>,
    bytes: Seq<u8>,
)
    requires
        state.wf(),
    ensures
        state.store(path, bytes).wf(),
        state.store(path, bytes).resident_bytes() <= state.size_limit,
        state.store(path, bytes).size_limit == state.size_limit,
{
    let required = state.resident_bytes() + bytes.len() - state.size_limit;
    if required <= 0 {
        lemma_put(state.resident, path, bytes);
    } else {
        let priority = state.candidate_priority(path, bytes.len());
        if state.make_room(required, priority) is Ok {
            lemma_make_room_frees(state, required, priority);
            lemma_put(state.make_room(required, priority)->Ok_0.resident, path, bytes);
        }
    }
}

/// The budget holds in every state that a cache can reach: after a file was
/// asked for, whether it was resident or not and whatever the read of it came
/// to, the resident files fit in the byte budget.
pub proof fn lemma_request_within_budget<P: PriorityFunction>(
    state: CacheState<P>,
    path: Seq<char>,
    read: Option<Seq<u8>>,
)
    requires
        state.wf(),
    ensures
        state.after_request(path, read).wf(),
        state.after_request(path, read).size_limit == state.size_limit,
{
    if !state.is_resident(path) && read is Some {
        lemma_store_within_budget(state.touch(path), path, read->Some_0);
    }
}

/// Eviction frees what was asked for: where room was made, the paths are
/// still distinct, and the resident files hold fewer bytes than before by at
/// least the number required.
pub proof fn lemma_make_room_frees<P: PriorityFunction>(
    state: CacheState<P>,
    required: int,
    priority: nat,
)
    requires
        state.wf(),
        state.make_room(required, priority) is Ok,
    ensures
        state.make_room(required, priority)->Ok_0.wf(),
        state.make_room(required, priority)->Ok_0.resident_bytes() + required
            <= state.resident_bytes(),
{
    let sorted = state.sorted_ranking();
    let taken = crate::model::eviction_search(sorted, required, priority as int)->Ok_0;
    let victims = crate::model::tail_paths(sorted, taken);
    let nobody = Set::<Seq<char>>::empty();
    lemma_search_frees_enough(sorted, required, priority as int);
    lemma_rank_all(state, state.resident, victims);
    lemma_rank_all(state, state.resident, nobody);
    lemma_sort_kept_size(state.ranking(), victims);
    lemma_sort_kept_size(state.ranking(), nobody);
    lemma_sort_distinct(state.ranking());
    lemma_tail_is_freed(sorted, taken);
    lemma_without_absent(state.resident, nobody);
    lemma_without_distinct(state.resident, victims);
}

/// A rejected file changes nothing: where the attempt to store a file fails,
/// the state after it is the state before it, and so are the resident files
/// and the bytes they hold.
pub proof fn lemma_rejected_store_changes_nothing<P: PriorityFunction>(
    state: CacheState<P>,
    path: Seq<char>,
    bytes: Seq<u8>,
)
    requires
        state.store_outcome(path, bytes) is Err,
    ensures
        state.store_outcome(path, bytes) == Err::<
            crate::outcome::CacheInvalidationSuccess,
            CacheInvalidationError,
        >(CacheInvalidationError::NewPriorityIsNotHighEnough),
        state.store(path, bytes) == state,
        state.store(path, bytes).resident == state.resident,
        state.store(path, bytes).resident_bytes() == state.resident_bytes(),
{
}

/// A counter is never reset: whatever is done to a cache, and in whatever
/// order, no path's access count falls, and a path that has a counter keeps
/// it.
pub proof fn lemma_counters_never_fall<P: PriorityFunction>(
    state: CacheState<P>,
    operations: Seq<Operation>,
    path: Seq<char>,
)
    ensures
        state.run(operations).access_count(path) >= state.access_count(path),
        state.access_counts.contains_key(path) ==> state.run(operations).access_counts.contains_key(
            path,
        ),
    decreases operations.len(),
{
    if operations.len() > 0 {
        lemma_counters_never_fall(state, operations.drop_last(), path);
        let before = state.run(operations.drop_last());
        match operations.last() {
            Operation::Touch { path: touched } => {},
            Operation::Store { path: stored, bytes } => {
                lemma_counters_persist(before, stored, bytes, path);
            },
            Operation::MakeRoom { required, priority } => {},
            Operation::Read { path: asked, read } => {
                if read is Some {
                    lemma_counters_persist(before.touch(asked), asked, read->Some_0, path);
                }
            },
            Operation::Request { path: asked, read } => {
                if !before.is_resident(asked) && read is Some {
                    lemma_counters_persist(before.touch(asked), asked, read->Some_0, path);
                }
            },
        }
    }
}

/// Eviction does not reset a counter: an attempt to store a file, whatever it
/// evicts, leaves every path's access count as it was, and the next access to
/// any path, resident or not, adds to the count that the path had.
pub proof fn lemma_counters_persist<P: PriorityFunction>(
    state: CacheState<P>,
    path: Seq<char>,
    bytes: Seq<u8>,
    other: Seq<char>,
)
    ensures
        state.store(path, bytes).access_counts == state.access_counts,
        state.store(path, bytes).access_count(other) == state.access_count(other),
        state.store(path, bytes).touch(other).access_count(other) == bump(
            state.access_count(other),
        ),
{
}

/// A path has one file: in a state that a cache can reach, the contents under
/// the path of a resident file are the contents of that file.
pub proof fn lemma_one_file_per_path<P: PriorityFunction>(state: CacheState<P>, i: int)
    requires
        state.wf(),
        0 <= i < state.resident.len(),
    ensures
        state.is_resident(state.resident[i].path),
        state.contents(state.resident[i].path) == state.resident[i].bytes,
{
    let path = state.resident[i].path;
    let chosen = choose|j: int|
        0 <= j < state.resident.len() && (#[trigger] state.resident[j]).path == path;
    if chosen < i {
        assert(state.resident[chosen].path != state.resident[i].path);
    } else if i < chosen {
        assert(state.resident[i].path != state.resident[chosen].path);
    }
}

/// A file that was admitted is resident: where the attempt to store a file
/// succeeds, the file is resident under its path afterwards, with the
/// contents that were offered, and it is the file that was admitted last.
pub proof fn lemma_stored_file_is_resident<P: PriorityFunction>(
    state: CacheState<P>,
    path: Seq<char>,
    bytes: Seq<u8>,
)
    requires
        state.wf(),
        state.store_outcome(path, bytes) is Ok,
    ensures
        state.store(path, bytes).is_resident(path),
        state.store(path, bytes).contents(path) == bytes,
        state.store(path, bytes).resident.last() == (Resident { path, bytes }),
{
    let after = state.store(path, bytes);
    lemma_store_within_budget(state, path, bytes);
    lemma_one_file_per_path(after, after.resident.len() - 1);
}

/// The order in which the eviction search takes the resident files, last
/// first, is the order of their admission sorted by descending priority: it
/// holds each resident file once, no entry has a lower priority than an entry
/// behind it, and files of equal priority stand in the order of their
/// admission. So the files that the search takes are files of lowest
/// priority, and among files of equal priority it takes the one that was
/// admitted last. There is no other order of which all this holds.
pub proof fn lemma_eviction_order<P: PriorityFunction>(state: CacheState<P>, order: Seq<Ranked>)
    requires
        state.wf(),
    ensures
        state.sorted_ranking().len() == state.resident.len(),
        is_stable_sort(state.ranking(), state.sorted_ranking()),
        is_stable_sort(state.ranking(), order) ==> order == state.sorted_ranking(),
{
    lemma_rank_all(state, state.resident, Set::empty());
    lemma_sort_is_stable_sort(state.ranking());
    if is_stable_sort(state.ranking(), order) {
        lemma_sort_is_the_stable_sort(state.ranking(), order);
    }
}

} // verus!
