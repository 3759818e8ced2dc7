//! Facts about the order in which the eviction search takes the resident
//! files, and about what it frees.

use crate::lemmas::{lemma_total_size_push, lemma_without_empty, lemma_without_push};
use crate::model::{
    distinct_paths, eviction_search, insert_by_priority, sort_by_priority, tail_paths, total_size,
    without, CacheState, Ranked, Resident,
};
use crate::outcome::CacheInvalidationError;
use crate::priority::PriorityFunction;
use vstd::prelude::*;

verus! {

/// No two of the entries have the same path.
pub open spec fn distinct_ranked(entries: Seq<Ranked>) -> bool {
    forall|i: int, j: int|
        0 <= i < j < entries.len() ==> (#[trigger] entries[i]).path != (#[trigger] entries[j]).path
}

/// The sizes of the entries whose path is not among `victims`, added up.
pub open spec fn kept_size(entries: Seq<Ranked>, victims: Set<Seq<char>>) -> nat
    decreases entries.len(),
{
    if entries.len() == 0 {
        0
    } else {
        kept_size(entries.drop_last(), victims) + if victims.contains(entries.last().path) {
            0
        } else {
            entries.last().size
        }
    }
}

/// The sizes of the last `count` entries, added up.
pub open spec fn tail_size(entries: Seq<Ranked>, count: nat) -> nat
    decreases count,
{
    if count == 0 || entries.len() == 0 {
        0
    } else {
        tail_size(entries.drop_last(), (count - 1) as nat) + entries.last().size
    }
}

/// The priorities of the last `count` entries, added up.
pub open spec fn tail_priority(entries: Seq<Ranked>, count: nat) -> nat
    decreases count,
{
    if count == 0 || entries.len() == 0 {
        0
    } else {
        tail_priority(entries.drop_last(), (count - 1) as nat) + entries.last().priority
    }
}

/// Each entry's priority is at least that of the next.
pub open spec fn descending(entries: Seq<Ranked>) -> bool {
    forall|i: int, j: int|
        0 <= i <= j < entries.len() ==> (#[trigger] entries[i]).priority >= (
        #[trigger] entries[j]).priority
}

/// Where `entry` goes in `sorted`: behind every entry whose priority is at
/// least its own.
pub open spec fn insert_position(sorted: Seq<Ranked>, entry: Ranked) -> int
    decreases sorted.len(),
{
    if sorted.len() > 0 && sorted.last().priority < entry.priority {
        insert_position(sorted.drop_last(), entry)
    } else {
        sorted.len() as int
    }
}

/// `insert_position` is a position in `sorted`, and `insert_by_priority` puts
/// the entry there.
pub proof fn lemma_insert_position(sorted: Seq<Ranked>, entry: Ranked)
    ensures
        0 <= insert_position(sorted, entry) <= sorted.len(),
        insert_by_priority(sorted, entry) == sorted.insert(insert_position(sorted, entry), entry),
    decreases sorted.len(),
{
    if sorted.len() > 0 && sorted.last().priority < entry.priority {
        lemma_insert_position(sorted.drop_last(), entry);
        let at = insert_position(sorted.drop_last(), entry);
        assert(sorted.drop_last().insert(at, entry).push(sorted.last()) =~= sorted.insert(
            at,
            entry,
        ));
    } else {
        assert(sorted.push(entry) =~= sorted.insert(sorted.len() as int, entry));
    }
}

/// One more entry adds its size to the total, unless it is a victim.
pub proof fn lemma_kept_size_push(entries: Seq<Ranked>, entry: Ranked, victims: Set<Seq<char>>)
    ensures
        kept_size(entries.push(entry), victims) == kept_size(entries, victims) + if victims.contains(
            entry.path,
        ) {
            0
        } else {
            entry.size
        },
{
    assert(entries.push(entry).drop_last() =~= entries);
}

/// `insert_by_priority` adds the entry's size to the total, unless it is a
/// victim.
pub proof fn lemma_insert_kept_size(sorted: Seq<Ranked>, entry: Ranked, victims: Set<Seq<char>>)
    ensures
        kept_size(insert_by_priority(sorted, entry), victims) == kept_size(sorted, victims)
            + if victims.contains(entry.path) {
            0
        } else {
            entry.size
        },
    decreases sorted.len(),
{
    if sorted.len() > 0 && sorted.last().priority < entry.priority {
        lemma_insert_kept_size(sorted.drop_last(), entry, victims);
        lemma_kept_size_push(
            insert_by_priority(sorted.drop_last(), entry),
            sorted.last(),
            victims,
        );
    } else {
        lemma_kept_size_push(sorted, entry, victims);
    }
}

/// Sorting does not change the total.
pub proof fn lemma_sort_kept_size(entries: Seq<Ranked>, victims: Set<Seq<char>>)
    ensures
        kept_size(sort_by_priority(entries), victims) == kept_size(entries, victims),
    decreases entries.len(),
{
    if entries.len() > 0 {
        lemma_sort_kept_size(entries.drop_last(), victims);
        lemma_insert_kept_size(sort_by_priority(entries.drop_last()), entries.last(), victims);
    }
}

/// `insert_by_priority` holds the entries of `sorted` and the new one, and
/// nothing else.
pub proof fn lemma_insert_members(sorted: Seq<Ranked>, entry: Ranked)
    ensures
        insert_by_priority(sorted, entry).len() == sorted.len() + 1,
        forall|other: Ranked|
            #[trigger] insert_by_priority(sorted, entry).contains(other) <==> (sorted.contains(
                other,
            ) || other == entry),
{
    lemma_insert_position(sorted, entry);
    let at = insert_position(sorted, entry);
    let grown = sorted.insert(at, entry);
    assert forall|other: Ranked| grown.contains(other) <==> (sorted.contains(other) || other
        == entry) by {
        if grown.contains(other) {
            let i = choose|i: int| 0 <= i < grown.len() && grown[i] == other;
            if i < at {
                assert(sorted[i] == other);
            } else if i > at {
                assert(sorted[i - 1] == other);
            }
        }
        if sorted.contains(other) {
            let i = choose|i: int| 0 <= i < sorted.len() && sorted[i] == other;
            if i < at {
                assert(grown[i] == other);
            } else {
                assert(grown[i + 1] == other);
            }
        }
        if other == entry {
            assert(grown[at] == other);
        }
    }
}

/// Sorting keeps the entries: the sorted list holds what the list held, and
/// nothing else.
pub proof fn lemma_sort_members(entries: Seq<Ranked>)
    ensures
        sort_by_priority(entries).len() == entries.len(),
        forall|other: Ranked|
            #[trigger] sort_by_priority(entries).contains(other) <==> entries.contains(other),
    decreases entries.len(),
{
    if entries.len() > 0 {
        let rest = entries.drop_last();
        let last = entries.last();
        lemma_sort_members(rest);
        lemma_insert_members(sort_by_priority(rest), last);
        assert forall|other: Ranked| sort_by_priority(entries).contains(other)
            <==> entries.contains(other) by {
            if entries.contains(other) {
                let i = choose|i: int| 0 <= i < entries.len() && entries[i] == other;
                if i < rest.len() {
                    assert(rest[i] == other);
                }
            }
            if rest.contains(other) {
                let i = choose|i: int| 0 <= i < rest.len() && rest[i] == other;
                assert(entries[i] == other);
            }
            if other == last {
                assert(entries[entries.len() - 1] == other);
            }
        }
    }
}

/// `insert_by_priority` keeps paths distinct, where the new entry's path is
/// not yet there.
pub proof fn lemma_insert_distinct(sorted: Seq<Ranked>, entry: Ranked)
    requires
        distinct_ranked(sorted),
        forall|i: int| 0 <= i < sorted.len() ==> (#[trigger] sorted[i]).path != entry.path,
    ensures
        distinct_ranked(insert_by_priority(sorted, entry)),
{
    lemma_insert_position(sorted, entry);
    let at = insert_position(sorted, entry);
    let grown = sorted.insert(at, entry);
    assert forall|i: int, j: int| 0 <= i < j < grown.len() implies (#[trigger] grown[i]).path != (
    #[trigger] grown[j]).path by {
        let a = if i < at {
            i
        } else {
            i - 1
        };
        let b = if j < at {
            j
        } else {
            j - 1
        };
        if i == at {
            assert(grown[j] == sorted[b]);
        } else if j == at {
            assert(grown[i] == sorted[a]);
        } else {
            assert(grown[i] == sorted[a] && grown[j] == sorted[b]);
        }
    }
}

/// Sorting keeps paths distinct.
pub proof fn lemma_sort_distinct(entries: Seq<Ranked>)
    requires
        distinct_ranked(entries),
    ensures
        distinct_ranked(sort_by_priority(entries)),
    decreases entries.len(),
{
    if entries.len() > 0 {
        let rest = entries.drop_last();
        let last = entries.last();
        assert(distinct_ranked(rest)) by {
            assert forall|i: int, j: int| 0 <= i < j < rest.len() implies (#[trigger] rest[i]).path
                != (#[trigger] rest[j]).path by {
                assert(rest[i] == entries[i] && rest[j] == entries[j]);
            }
        }
        lemma_sort_distinct(rest);
        lemma_sort_members(rest);
        let sorted = sort_by_priority(rest);
        assert forall|i: int| 0 <= i < sorted.len() implies (#[trigger] sorted[i]).path
            != last.path by {
            assert(sorted.contains(sorted[i]));
            assert(rest.contains(sorted[i]));
            let k = choose|k: int| 0 <= k < rest.len() && rest[k] == sorted[i];
            assert(entries[k].path != entries[entries.len() - 1].path);
        }
        lemma_insert_distinct(sorted, last);
    }
}

/// `insert_by_priority` keeps a descending list descending.
pub proof fn lemma_insert_descending(sorted: Seq<Ranked>, entry: Ranked)
    requires
        descending(sorted),
    ensures
        descending(insert_by_priority(sorted, entry)),
    decreases sorted.len(),
{
    if sorted.len() > 0 && sorted.last().priority < entry.priority {
        let rest = sorted.drop_last();
        assert(descending(rest)) by {
            assert forall|i: int, j: int| 0 <= i <= j < rest.len() implies (
            #[trigger] rest[i]).priority >= (#[trigger] rest[j]).priority by {
                assert(rest[i] == sorted[i] && rest[j] == sorted[j]);
            }
        }
        lemma_insert_descending(rest, entry);
        lemma_insert_members(rest, entry);
        let grown = insert_by_priority(rest, entry);
        let whole = grown.push(sorted.last());
        assert forall|i: int, j: int| 0 <= i <= j < whole.len() implies (
        #[trigger] whole[i]).priority >= (#[trigger] whole[j]).priority by {
            if j == grown.len() && i < j {
                assert(grown.contains(grown[i]));
                if grown[i] != entry {
                    assert(rest.contains(grown[i]));
                    let k = choose|k: int| 0 <= k < rest.len() && rest[k] == grown[i];
                    assert(sorted[k].priority >= sorted[sorted.len() - 1].priority);
                }
            } else if j < grown.len() {
                assert(grown[i].priority >= grown[j].priority);
            }
        }
    } else {
        let whole = sorted.push(entry);
        assert forall|i: int, j: int| 0 <= i <= j < whole.len() implies (
        #[trigger] whole[i]).priority >= (#[trigger] whole[j]).priority by {
            if j == sorted.len() && i < j {
                assert(sorted[i].priority >= sorted[sorted.len() - 1].priority);
            } else if j < sorted.len() {
                assert(sorted[i].priority >= sorted[j].priority);
            }
        }
    }
}

/// A sorted list is descending.
pub proof fn lemma_sort_descending(entries: Seq<Ranked>)
    ensures
        descending(sort_by_priority(entries)),
    decreases entries.len(),
{
    if entries.len() > 0 {
        lemma_sort_descending(entries.drop_last());
        lemma_insert_descending(sort_by_priority(entries.drop_last()), entries.last());
    }
}

/// What the eviction search comes to, said of the sums alone.
///
/// Where it succeeds, it took the least number of entries that frees the
/// bytes required, and their priorities add up to no more than the budget.
/// Where it runs out of entries, all of them together do not free the bytes
/// required, though their priorities are within the budget. Where the
/// priority is not high enough, some number of entries would be needed whose
/// priorities add up to more than the budget.
pub proof fn lemma_search_outcome(sorted: Seq<Ranked>, required: int, budget: int)
    requires
        required > 0,
        budget >= 0,
    ensures
        match eviction_search(sorted, required, budget) {
            Ok(taken) => {
                &&& 1 <= taken <= sorted.len()
                &&& tail_size(sorted, taken) >= required
                &&& tail_size(sorted, (taken - 1) as nat) < required
                &&& tail_priority(sorted, taken) <= budget
            },
            Err(CacheInvalidationError::NoMoreFilesToRemove) => {
                &&& tail_size(sorted, sorted.len()) < required
                &&& tail_priority(sorted, sorted.len()) <= budget
            },
            Err(CacheInvalidationError::NewPriorityIsNotHighEnough) => exists|needed: nat|
                {
                    &&& 1 <= needed <= sorted.len()
                    &&& tail_size(sorted, (needed - 1) as nat) < required
                    &&& #[trigger] tail_priority(sorted, needed) > budget
                },
        },
    decreases sorted.len(),
{
    if sorted.len() == 0 {
    } else if sorted.last().priority > budget {
        assert(tail_priority(sorted.drop_last(), 0) == 0);
        assert(tail_priority(sorted, 1) > budget);
    } else {
        let rest = sorted.drop_last();
        let still_required = required - sorted.last().size;
        let still_budget = budget - sorted.last().priority;
        if still_required <= 0 {
            assert(tail_size(rest, 0) == 0);
            assert(tail_priority(rest, 0) == 0);
        } else {
            lemma_search_outcome(rest, still_required, still_budget);
            match eviction_search(rest, still_required, still_budget) {
                Ok(taken) => {},
                Err(CacheInvalidationError::NoMoreFilesToRemove) => {},
                Err(CacheInvalidationError::NewPriorityIsNotHighEnough) => {
                    let needed = choose|needed: nat|
                        {
                            &&& 1 <= needed <= rest.len()
                            &&& tail_size(rest, (needed - 1) as nat) < still_required
                            &&& #[trigger] tail_priority(rest, needed) > still_budget
                        };
                    assert(tail_priority(sorted, needed + 1) > budget);
                },
            }
        }
    }
}

/// Where the search succeeds, it took no more entries than there are, and the
/// entries it took free the bytes that were required.
pub proof fn lemma_search_frees_enough(sorted: Seq<Ranked>, required: int, budget: int)
    requires
        eviction_search(sorted, required, budget) is Ok,
    ensures
        eviction_search(sorted, required, budget)->Ok_0 <= sorted.len(),
        tail_size(sorted, eviction_search(sorted, required, budget)->Ok_0) >= required,
    decreases sorted.len(),
{
    if required > 0 {
        lemma_search_frees_enough(
            sorted.drop_last(),
            required - sorted.last().size,
            budget - sorted.last().priority,
        );
    }
}

/// What `insert_position` is: every entry from there on has a lower priority
/// than `entry`, and the entry just before it has not.
pub proof fn lemma_insert_position_divides(sorted: Seq<Ranked>, entry: Ranked)
    ensures
        0 <= insert_position(sorted, entry) <= sorted.len(),
        forall|i: int|
            insert_position(sorted, entry) <= i < sorted.len() ==> (#[trigger] sorted[i]).priority
                < entry.priority,
        insert_position(sorted, entry) > 0 ==> sorted[insert_position(sorted, entry) - 1].priority
            >= entry.priority,
    decreases sorted.len(),
{
    if sorted.len() > 0 && sorted.last().priority < entry.priority {
        let rest = sorted.drop_last();
        lemma_insert_position_divides(rest, entry);
        let at = insert_position(rest, entry);
        assert forall|i: int| at <= i < sorted.len() implies (#[trigger] sorted[i]).priority
            < entry.priority by {
            if i < rest.len() {
                assert(rest[i] == sorted[i]);
            }
        }
        if at > 0 {
            assert(rest[at - 1] == sorted[at - 1]);
        }
    }
}

/// The entries of `sorted` stand in the order in which they stood in
/// `entries`, wherever their priorities are equal.
pub open spec fn keeps_order_of_equals(entries: Seq<Ranked>, sorted: Seq<Ranked>) -> bool {
    forall|i: int, j: int, a: int, b: int|
        0 <= i < j < entries.len() && 0 <= a < sorted.len() && 0 <= b < sorted.len() && (
        #[trigger] entries[i]).priority == (#[trigger] entries[j]).priority && (
        #[trigger] sorted[a]) == entries[i] && (#[trigger] sorted[b]) == entries[j] ==> a < b
}

/// Sorting is stable: among entries with distinct paths, entries of equal
/// priority keep the order in which they stood.
pub proof fn lemma_sort_stable(entries: Seq<Ranked>)
    requires
        distinct_ranked(entries),
    ensures
        keeps_order_of_equals(entries, sort_by_priority(entries)),
    decreases entries.len(),
{
    if entries.len() > 0 {
        let rest = entries.drop_last();
        let last = entries.last();
        let before = sort_by_priority(rest);
        let sorted = sort_by_priority(entries);
        assert(distinct_ranked(rest)) by {
            assert forall|i: int, j: int| 0 <= i < j < rest.len() implies (#[trigger] rest[i]).path
                != (#[trigger] rest[j]).path by {
                assert(rest[i] == entries[i] && rest[j] == entries[j]);
            }
        }
        lemma_sort_stable(rest);
        lemma_sort_members(rest);
        lemma_insert_position(before, last);
        lemma_insert_position_divides(before, last);
        let at = insert_position(before, last);
        assert forall|i: int, j: int, a: int, b: int|
            0 <= i < j < entries.len() && 0 <= a < sorted.len() && 0 <= b < sorted.len() && (
            #[trigger] entries[i]).priority == (#[trigger] entries[j]).priority && (
            #[trigger] sorted[a]) == entries[i] && (#[trigger] sorted[b])
                == entries[j] implies a < b by {
            assert(entries[i].path != entries[j].path);
            assert(rest[i] == entries[i]);
            assert(entries[i].path != entries[entries.len() - 1].path);
            let low = if a < at {
                a
            } else {
                a - 1
            };
            assert(a != at);
            assert(before[low] == sorted[a]);
            if j == entries.len() - 1 {
                if b != at {
                    let other = if b < at {
                        b
                    } else {
                        b - 1
                    };
                    assert(before[other] == sorted[b]);
                    assert(before.contains(before[other]));
                    assert(rest.contains(last));
                    let k = choose|k: int| 0 <= k < rest.len() && rest[k] == last;
                    assert(entries[k].path == entries[entries.len() - 1].path);
                }
                assert(b == at);
            } else {
                assert(rest[j] == entries[j]);
                assert(entries[j].path != entries[entries.len() - 1].path);
                assert(b != at);
                let high = if b < at {
                    b
                } else {
                    b - 1
                };
                assert(before[high] == sorted[b]);
                assert(low < high);
            }
        }
    }
}

/// `sorted` holds the entries, each once, by descending priority, and entries
/// of equal priority in the order in which they stood.
pub open spec fn is_stable_sort(entries: Seq<Ranked>, sorted: Seq<Ranked>) -> bool {
    &&& sorted.len() == entries.len()
    &&& forall|entry: Ranked| #[trigger] sorted.contains(entry) <==> entries.contains(entry)
    &&& distinct_ranked(sorted)
    &&& descending(sorted)
    &&& keeps_order_of_equals(entries, sorted)
}

/// `sort_by_priority` is a stable sort.
pub proof fn lemma_sort_is_stable_sort(entries: Seq<Ranked>)
    requires
        distinct_ranked(entries),
    ensures
        is_stable_sort(entries, sort_by_priority(entries)),
{
    lemma_sort_members(entries);
    lemma_sort_distinct(entries);
    lemma_sort_descending(entries);
    lemma_sort_stable(entries);
}

/// What is left of a stable sort without its last entry is a stable sort of
/// the entries without that entry.
proof fn lemma_stable_sort_without_last(entries: Seq<Ranked>, sorted: Seq<Ranked>, i: int)
    requires
        distinct_ranked(entries),
        is_stable_sort(entries, sorted),
        0 <= i < entries.len(),
        sorted.last() == entries[i],
    ensures
        distinct_ranked(entries.remove(i)),
        is_stable_sort(entries.remove(i), sorted.drop_last()),
{
    let fewer = entries.remove(i);
    let front = sorted.drop_last();
    let end = sorted.len() - 1;
    assert forall|a: int, b: int| 0 <= a < b < fewer.len() implies (#[trigger] fewer[a]).path != (
    #[trigger] fewer[b]).path by {
        let from_a = if a < i {
            a
        } else {
            a + 1
        };
        let from_b = if b < i {
            b
        } else {
            b + 1
        };
        assert(fewer[a] == entries[from_a] && fewer[b] == entries[from_b]);
    }
    assert forall|entry: Ranked| #[trigger] front.contains(entry) <==> fewer.contains(entry) by {
        if front.contains(entry) {
            let a = choose|a: int| 0 <= a < front.len() && front[a] == entry;
            assert(sorted[a] == entry);
            assert(sorted[a].path != sorted[end].path);
            assert(sorted.contains(entry));
            let k = choose|k: int| 0 <= k < entries.len() && entries[k] == entry;
            let to = if k < i {
                k
            } else {
                k - 1
            };
            assert(fewer[to] == entry);
        }
        if fewer.contains(entry) {
            let k = choose|k: int| 0 <= k < fewer.len() && fewer[k] == entry;
            let from = if k < i {
                k
            } else {
                k + 1
            };
            assert(entries[from] == entry);
            assert(entries[from].path != entries[i].path);
            assert(entries.contains(entry));
            assert(sorted.contains(entry));
            let a = choose|a: int| 0 <= a < sorted.len() && sorted[a] == entry;
            assert(sorted[end] == entries[i]);
            assert(a != end);
            assert(front[a] == entry);
        }
    }
    assert forall|a: int, b: int| 0 <= a < b < front.len() implies (#[trigger] front[a]).path != (
    #[trigger] front[b]).path by {
        assert(front[a] == sorted[a] && front[b] == sorted[b]);
    }
    assert forall|a: int, b: int| 0 <= a <= b < front.len() implies (#[trigger] front[a]).priority
        >= (#[trigger] front[b]).priority by {
        assert(front[a] == sorted[a] && front[b] == sorted[b]);
    }
    assert forall|k: int, l: int, a: int, b: int|
        0 <= k < l < fewer.len() && 0 <= a < front.len() && 0 <= b < front.len() && (
        #[trigger] fewer[k]).priority == (#[trigger] fewer[l]).priority && (#[trigger] front[a])
            == fewer[k] && (#[trigger] front[b]) == fewer[l] implies a < b by {
        let from_k = if k < i {
            k
        } else {
            k + 1
        };
        let from_l = if l < i {
            l
        } else {
            l + 1
        };
        assert(entries[from_k] == fewer[k] && entries[from_l] == fewer[l]);
        assert(sorted[a] == front[a] && sorted[b] == front[b]);
    }
}

/// The entries have one stable sort only.
pub proof fn lemma_stable_sort_unique(entries: Seq<Ranked>, first: Seq<Ranked>, second: Seq<Ranked>)
    requires
        distinct_ranked(entries),
        is_stable_sort(entries, first),
        is_stable_sort(entries, second),
    ensures
        first == second,
    decreases entries.len(),
{
    if entries.len() == 0 {
        assert(first =~= second);
    } else {
        let end = entries.len() - 1;
        assert(first.contains(first[end]));
        assert(second.contains(second[end]));
        let i = choose|i: int| 0 <= i < entries.len() && entries[i] == first[end];
        let j = choose|j: int| 0 <= j < entries.len() && entries[j] == second[end];
        if i != j {
            assert(entries[i].path != entries[j].path);
            assert(entries.contains(entries[i]) && entries.contains(entries[j]));
            assert(second.contains(entries[i]) && first.contains(entries[j]));
            let a = choose|a: int| 0 <= a < second.len() && second[a] == entries[i];
            let b = choose|b: int| 0 <= b < first.len() && first[b] == entries[j];
            assert(first[b].priority >= first[end].priority);
            assert(second[a].priority >= second[end].priority);
            if i < j {
                assert(end < b);
            } else {
                assert(end < a);
            }
        }
        lemma_stable_sort_without_last(entries, first, i);
        lemma_stable_sort_without_last(entries, second, i);
        lemma_stable_sort_unique(entries.remove(i), first.drop_last(), second.drop_last());
        assert(first =~= first.drop_last().push(first[end]));
        assert(second =~= second.drop_last().push(second[end]));
    }
}

/// `sort_by_priority` gives the stable sort: whatever holds the entries, each
/// once, by descending priority, and entries of equal priority in the order
/// in which they stood, is what `sort_by_priority` gives.
pub proof fn lemma_sort_is_the_stable_sort(entries: Seq<Ranked>, sorted: Seq<Ranked>)
    requires
        distinct_ranked(entries),
        is_stable_sort(entries, sorted),
    ensures
        sorted == sort_by_priority(entries),
{
    lemma_sort_is_stable_sort(entries);
    lemma_stable_sort_unique(entries, sorted, sort_by_priority(entries));
}

/// The ranked files are as many as the files, have their paths and sizes, and
/// hold together, victims left out, what the files hold that `without` leaves.
pub proof fn lemma_rank_all<P: PriorityFunction>(
    state: CacheState<P>,
    files: Seq<Resident>,
    victims: Set<Seq<char>>,
)
    ensures
        state.rank_all(files).len() == files.len(),
        kept_size(state.rank_all(files), victims) == total_size(without(files, victims)),
        distinct_paths(files) ==> distinct_ranked(state.rank_all(files)),
    decreases files.len(),
{
    let ranked = state.rank_all(files);
    if files.len() == 0 {
        lemma_without_empty(victims);
    } else {
        let rest = files.drop_last();
        let last = files.last();
        assert(files =~= rest.push(last));
        assert(ranked.drop_last() =~= state.rank_all(rest));
        lemma_rank_all(state, rest, victims);
        lemma_without_push(rest, last, victims);
        lemma_total_size_push(without(rest, victims), last);
    }
    if distinct_paths(files) {
        assert forall|i: int, j: int| 0 <= i < j < ranked.len() implies (#[trigger] ranked[i]).path
            != (#[trigger] ranked[j]).path by {
            assert(files[i].path != files[j].path);
        }
    }
}

/// Among entries with distinct paths, what is kept when the paths of the last
/// `count` entries are victims, and what those entries hold, make up the
/// whole.
pub proof fn lemma_tail_is_freed(sorted: Seq<Ranked>, count: nat)
    requires
        distinct_ranked(sorted),
        count <= sorted.len(),
    ensures
        kept_size(sorted, tail_paths(sorted, count)) + tail_size(sorted, count) == kept_size(
            sorted,
            Set::empty(),
        ),
{
    lemma_split_kept_size(sorted, tail_paths(sorted, count), count);
}

/// Where the victims are the paths of the last `count` entries and of none
/// before them, the entries kept are the entries before the last `count`.
proof fn lemma_split_kept_size(entries: Seq<Ranked>, victims: Set<Seq<char>>, count: nat)
    requires
        count <= entries.len(),
        forall|i: int|
            0 <= i < entries.len() ==> (victims.contains((#[trigger] entries[i]).path) <==> i
                >= entries.len() - count),
    ensures
        kept_size(entries, victims) + tail_size(entries, count) == kept_size(entries, Set::empty()),
    decreases entries.len(),
{
    if entries.len() > 0 {
        let rest = entries.drop_last();
        let last_index = entries.len() - 1;
        assert(entries[last_index] == entries.last());
        if count == 0 {
            assert forall|i: int| 0 <= i < rest.len() implies (victims.contains(
                (#[trigger] rest[i]).path,
            ) <==> i >= rest.len() - 0) by {
                assert(rest[i] == entries[i]);
            }
            lemma_split_kept_size(rest, victims, 0);
        } else {
            assert forall|i: int| 0 <= i < rest.len() implies (victims.contains(
                (#[trigger] rest[i]).path,
            ) <==> i >= rest.len() - (count - 1)) by {
                assert(rest[i] == entries[i]);
            }
            lemma_split_kept_size(rest, victims, (count - 1) as nat);
        }
    }
}

} // verus!
