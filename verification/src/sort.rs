//! Sorting the resident files by rank.

use crate::model::{sort_by_priority, Ranked};
use crate::order::{distinct_ranked, is_stable_sort, lemma_sort_is_the_stable_sort};
use vstd::prelude::*;
use vstd::seq_lib::{
    lemma_multiset_commutative, to_multiset_build, to_multiset_contains, to_multiset_len,
};

verus! {

/// What a resident file is ranked by: its priority, and its place among the
/// resident files in the order of their admission.
#[derive(Clone, Copy)]
pub struct Rank {
    pub priority: usize,
    pub slot: usize,
}

/// `first` stands no later than `second` among the ranks in order: its
/// priority is higher, or it is the same and its place is no later.
pub open spec fn no_later(first: Rank, second: Rank) -> bool {
    first.priority > second.priority || (first.priority == second.priority && first.slot
        <= second.slot)
}

/// The ranks stand in order: by descending priority, and by place where the
/// priorities are equal.
pub open spec fn in_order(ranks: Seq<Rank>) -> bool {
    forall|i: int, j: int|
        0 <= i <= j < ranks.len() ==> no_later(#[trigger] ranks[i], #[trigger] ranks[j])
}

/// Merges two lists that stand in order into one.
fn merge(left: &Vec<Rank>, right: &Vec<Rank>) -> (merged: Vec<Rank>)
    requires
        in_order(left@),
        in_order(right@),
    ensures
        in_order(merged@),
        merged@.to_multiset() == left@.to_multiset().add(right@.to_multiset()),
{
    let mut merged: Vec<Rank> = Vec::new();
    let mut i: usize = 0;
    let mut j: usize = 0;
    assert(left@.take(0) =~= Seq::<Rank>::empty());
    assert(right@.take(0) =~= Seq::<Rank>::empty());
    assert(merged@.to_multiset() =~= left@.take(0).to_multiset().add(
        right@.take(0).to_multiset(),
    )) by {
        lemma_multiset_commutative(Seq::<Rank>::empty(), Seq::<Rank>::empty());
        assert(Seq::<Rank>::empty() + Seq::<Rank>::empty() =~= Seq::<Rank>::empty());
    }
    while i < left.len() || j < right.len()
        invariant
            i <= left.len(),
            j <= right.len(),
            in_order(left@),
            in_order(right@),
            in_order(merged@),
            merged@.to_multiset() == left@.take(i as int).to_multiset().add(
                right@.take(j as int).to_multiset(),
            ),
            forall|m: int, k: int|
                0 <= m < merged.len() && i <= k < left.len() ==> no_later(
                    #[trigger] merged[m],
                    #[trigger] left[k],
                ),
            forall|m: int, k: int|
                0 <= m < merged.len() && j <= k < right.len() ==> no_later(
                    #[trigger] merged[m],
                    #[trigger] right[k],
                ),
        decreases left.len() - i + right.len() - j,
    {
        let ghost before = merged@;
        let from_left: bool = if j == right.len() {
            true
        } else if i == left.len() {
            false
        } else {
            left[i].priority > right[j].priority || (left[i].priority == right[j].priority
                && left[i].slot <= right[j].slot)
        };
        if from_left {
            let next = left[i];
            merged.push(next);
            proof {
                to_multiset_build(before, next);
                to_multiset_build(left@.take(i as int), next);
                assert(left@.take(i + 1) =~= left@.take(i as int).push(next));
                assert(merged@.to_multiset() =~= left@.take(i + 1).to_multiset().add(
                    right@.take(j as int).to_multiset(),
                ));
                assert forall|m: int, k: int|
                    0 <= m < merged.len() && i + 1 <= k < left.len() implies no_later(
                    #[trigger] merged[m],
                    #[trigger] left[k],
                ) by {
                    if m < before.len() {
                        assert(merged[m] == before[m]);
                    } else {
                        assert(no_later(left[i as int], left[k]));
                    }
                }
                assert forall|m: int, k: int|
                    0 <= m < merged.len() && j <= k < right.len() implies no_later(
                    #[trigger] merged[m],
                    #[trigger] right[k],
                ) by {
                    if m < before.len() {
                        assert(merged[m] == before[m]);
                    } else {
                        assert(no_later(right[j as int], right[k]));
                    }
                }
                assert forall|a: int, b: int| 0 <= a <= b < merged.len() implies no_later(
                    #[trigger] merged[a],
                    #[trigger] merged[b],
                ) by {
                    if b < before.len() {
                        assert(merged[a] == before[a] && merged[b] == before[b]);
                    } else if a < before.len() {
                        assert(merged[a] == before[a]);
                        assert(no_later(before[a], left[i as int]));
                    }
                }
            }
            i = i + 1;
        } else {
            let next = right[j];
            merged.push(next);
            proof {
                to_multiset_build(before, next);
                to_multiset_build(right@.take(j as int), next);
                assert(right@.take(j + 1) =~= right@.take(j as int).push(next));
                assert(merged@.to_multiset() =~= left@.take(i as int).to_multiset().add(
                    right@.take(j + 1).to_multiset(),
                ));
                assert forall|m: int, k: int|
                    0 <= m < merged.len() && i <= k < left.len() implies no_later(
                    #[trigger] merged[m],
                    #[trigger] left[k],
                ) by {
                    if m < before.len() {
                        assert(merged[m] == before[m]);
                    } else {
                        assert(no_later(left[i as int], left[k]));
                    }
                }
                assert forall|m: int, k: int|
                    0 <= m < merged.len() && j + 1 <= k < right.len() implies no_later(
                    #[trigger] merged[m],
                    #[trigger] right[k],
                ) by {
                    if m < before.len() {
                        assert(merged[m] == before[m]);
                    } else {
                        assert(no_later(right[j as int], right[k]));
                    }
                }
                assert forall|a: int, b: int| 0 <= a <= b < merged.len() implies no_later(
                    #[trigger] merged[a],
                    #[trigger] merged[b],
                ) by {
                    if b < before.len() {
                        assert(merged[a] == before[a] && merged[b] == before[b]);
                    } else if a < before.len() {
                        assert(merged[a] == before[a]);
                        assert(no_later(before[a], right[j as int]));
                    }
                }
            }
            j = j + 1;
        }
    }
    assert(left@.take(i as int) =~= left@);
    assert(right@.take(j as int) =~= right@);
    merged
}

/// Puts the ranks in order: by descending priority, and by place where the
/// priorities are equal. The list holds what it held, each rank as often as
/// before.
pub fn sort_ranks(ranks: Vec<Rank>) -> (sorted: Vec<Rank>)
    ensures
        in_order(sorted@),
        sorted@.to_multiset() == ranks@.to_multiset(),
    decreases ranks.len(),
{
    if ranks.len() <= 1 {
        return ranks;
    }
    let ghost whole = ranks@;
    let mut left = ranks;
    let middle: usize = left.len() / 2;
    let right = left.split_off(middle);
    proof {
        assert(whole =~= left@ + right@);
        lemma_multiset_commutative(left@, right@);
    }
    let left = sort_ranks(left);
    let right = sort_ranks(right);
    merge(&left, &right)
}

/// `ranks` holds, for each of the entries, its priority and its place.
pub open spec fn ranks_of(entries: Seq<Ranked>, ranks: Seq<Rank>) -> bool {
    &&& ranks.len() == entries.len()
    &&& forall|k: int|
        0 <= k < ranks.len() ==> (#[trigger] ranks[k]).slot == k && ranks[k].priority
            == entries[k].priority
}

/// Lists that hold the same ranks, each as often, have the same members.
proof fn lemma_same_members(first: Seq<Rank>, second: Seq<Rank>, rank: Rank)
    requires
        first.to_multiset() == second.to_multiset(),
    ensures
        first.contains(rank) <==> second.contains(rank),
{
    to_multiset_contains(first, rank);
    to_multiset_contains(second, rank);
}

/// The sorted ranks are as many as the entries, and each is the rank of the
/// entry in its place.
pub proof fn lemma_sorted_ranks(entries: Seq<Ranked>, ranks: Seq<Rank>, sorted: Seq<Rank>)
    requires
        ranks_of(entries, ranks),
        sorted.to_multiset() == ranks.to_multiset(),
    ensures
        sorted.len() == entries.len(),
        forall|a: int|
            0 <= a < sorted.len() ==> (#[trigger] sorted[a]).slot < entries.len()
                && sorted[a].priority == entries[sorted[a].slot as int].priority,
{
    to_multiset_len(ranks);
    to_multiset_len(sorted);
    assert forall|a: int| 0 <= a < sorted.len() implies (#[trigger] sorted[a]).slot < entries.len()
        && sorted[a].priority == entries[sorted[a].slot as int].priority by {
        assert(sorted.contains(sorted[a]));
        lemma_same_members(sorted, ranks, sorted[a]);
        let k = choose|k: int| 0 <= k < ranks.len() && ranks[k] == sorted[a];
        assert(ranks[k].slot == k);
    }
}

/// The entries taken in the order of their sorted ranks are the entries
/// sorted by priority.
///
/// Here `ranks` holds, for each entry, its priority and its place, `sorted`
/// holds the same ranks in order, and `taken` holds, for each rank of `sorted`,
/// the entry that stands in its place.
pub proof fn lemma_ranks_sort_entries(
    entries: Seq<Ranked>,
    ranks: Seq<Rank>,
    sorted: Seq<Rank>,
    taken: Seq<Ranked>,
)
    requires
        distinct_ranked(entries),
        ranks_of(entries, ranks),
        in_order(sorted),
        sorted.to_multiset() == ranks.to_multiset(),
        taken.len() == sorted.len(),
        forall|a: int|
            0 <= a < sorted.len() ==> (#[trigger] sorted[a]).slot < entries.len() && (
            #[trigger] taken[a]) == entries[sorted[a].slot as int],
    ensures
        taken == sort_by_priority(entries),
{
    lemma_sorted_ranks(entries, ranks, sorted);
    assert(ranks.no_duplicates());
    ranks.lemma_multiset_has_no_duplicates();
    sorted.lemma_multiset_has_no_duplicates_conv();
    assert forall|entry: Ranked| #[trigger] taken.contains(entry) <==> entries.contains(entry) by {
        if taken.contains(entry) {
            let a = choose|a: int| 0 <= a < taken.len() && taken[a] == entry;
            assert(entries[sorted[a].slot as int] == entry);
        }
        if entries.contains(entry) {
            let k = choose|k: int| 0 <= k < entries.len() && entries[k] == entry;
            assert(ranks.contains(ranks[k]));
            lemma_same_members(sorted, ranks, ranks[k]);
            let a = choose|a: int| 0 <= a < sorted.len() && sorted[a] == ranks[k];
            assert(taken[a] == entry);
        }
    }
    assert forall|a: int, b: int| 0 <= a < b < taken.len() implies (#[trigger] taken[a]).path != (
    #[trigger] taken[b]).path by {
        assert(sorted[a] != sorted[b]);
        assert(sorted[a].slot != sorted[b].slot);
        if sorted[a].slot < sorted[b].slot {
            assert(entries[sorted[a].slot as int].path != entries[sorted[b].slot as int].path);
        } else {
            assert(entries[sorted[b].slot as int].path != entries[sorted[a].slot as int].path);
        }
    }
    assert forall|a: int, b: int| 0 <= a <= b < taken.len() implies (#[trigger] taken[a]).priority
        >= (#[trigger] taken[b]).priority by {
        assert(no_later(sorted[a], sorted[b]));
    }
    assert forall|i: int, j: int, a: int, b: int|
        0 <= i < j < entries.len() && 0 <= a < taken.len() && 0 <= b < taken.len() && (
        #[trigger] entries[i]).priority == (#[trigger] entries[j]).priority && (
        #[trigger] taken[a]) == entries[i] && (#[trigger] taken[b]) == entries[j] implies a
        < b by {
        assert(entries[i].path != entries[j].path);
        let from_a = sorted[a].slot as int;
        let from_b = sorted[b].slot as int;
        if from_a != i {
            if from_a < i {
                assert(entries[from_a].path != entries[i].path);
            } else {
                assert(entries[i].path != entries[from_a].path);
            }
        }
        if from_b != j {
            if from_b < j {
                assert(entries[from_b].path != entries[j].path);
            } else {
                assert(entries[j].path != entries[from_b].path);
            }
        }
        if b <= a {
            assert(no_later(sorted[b], sorted[a]));
        }
    }
    assert(is_stable_sort(entries, taken));
    lemma_sort_is_the_stable_sort(entries, taken);
}

} // verus!
