//! Facts about sequences of files that the proofs of the cache rest on.

use crate::model::{distinct_paths, put, total_size, without, Resident};
use vstd::prelude::*;

verus! {

/// One more file adds its length to the total.
pub proof fn lemma_total_size_push(files: Seq<Resident>, file: Resident)
    ensures
        total_size(files.push(file)) == total_size(files) + file.bytes.len(),
{
    assert(files.push(file).drop_last() =~= files);
}

/// The total of the first `i + 1` files is that of the first `i` and the
/// length of the next.
pub proof fn lemma_total_size_take(files: Seq<Resident>, i: int)
    requires
        0 <= i < files.len(),
    ensures
        total_size(files.take(i + 1)) == total_size(files.take(i)) + files[i].bytes.len(),
{
    assert(files.take(i + 1).drop_last() =~= files.take(i));
}

/// The first files hold no more than all of them.
pub proof fn lemma_total_size_prefix(files: Seq<Resident>, i: int)
    requires
        0 <= i <= files.len(),
    ensures
        total_size(files.take(i)) <= total_size(files),
    decreases files.len() - i,
{
    if i < files.len() {
        lemma_total_size_take(files, i);
        lemma_total_size_prefix(files, i + 1);
    } else {
        assert(files.take(i) =~= files);
    }
}

/// What `without` makes of a list with one more file.
pub proof fn lemma_without_push(files: Seq<Resident>, file: Resident, victims: Set<Seq<char>>)
    ensures
        without(files.push(file), victims) == if victims.contains(file.path) {
            without(files, victims)
        } else {
            without(files, victims).push(file)
        },
{
    files.lemma_filter_push(file, |file: Resident| !victims.contains(file.path));
}

/// Nothing is left of an empty list.
pub proof fn lemma_without_empty(victims: Set<Seq<char>>)
    ensures
        without(Seq::<Resident>::empty(), victims) == Seq::<Resident>::empty(),
{
    reveal(Seq::filter);
}

/// Every file that is left was there before, and is no victim.
pub proof fn lemma_without_members(files: Seq<Resident>, victims: Set<Seq<char>>, i: int)
    requires
        0 <= i < without(files, victims).len(),
    ensures
        files.contains(without(files, victims)[i]),
        !victims.contains(without(files, victims)[i].path),
    decreases files.len(),
{
    if files.len() == 0 {
        lemma_without_empty(victims);
    } else {
        let rest = files.drop_last();
        let last = files.last();
        assert(files =~= rest.push(last));
        lemma_without_push(rest, last, victims);
        if i < without(rest, victims).len() {
            lemma_without_members(rest, victims, i);
            let kept = without(rest, victims)[i];
            let j = choose|j: int| 0 <= j < rest.len() && rest[j] == kept;
            assert(files[j] == kept);
        } else {
            assert(files[files.len() - 1] == last);
        }
    }
}

/// What is left of files with distinct paths has distinct paths.
pub proof fn lemma_without_distinct(files: Seq<Resident>, victims: Set<Seq<char>>)
    requires
        distinct_paths(files),
    ensures
        distinct_paths(without(files, victims)),
    decreases files.len(),
{
    if files.len() == 0 {
        lemma_without_empty(victims);
    } else {
        let rest = files.drop_last();
        let last = files.last();
        assert(files =~= rest.push(last));
        lemma_without_push(rest, last, victims);
        assert(distinct_paths(rest)) by {
            assert forall|i: int, j: int| 0 <= i < j < rest.len() implies (#[trigger] rest[i]).path
                != (#[trigger] rest[j]).path by {
                assert(rest[i] == files[i] && rest[j] == files[j]);
            }
        }
        lemma_without_distinct(rest, victims);
        let kept = without(rest, victims);
        if !victims.contains(last.path) {
            assert forall|i: int, j: int| 0 <= i < j < kept.push(last).len() implies (
            #[trigger] kept.push(last)[i]).path != (#[trigger] kept.push(last)[j]).path by {
                if j == kept.len() {
                    lemma_without_members(rest, victims, i);
                    let k = choose|k: int| 0 <= k < rest.len() && rest[k] == kept[i];
                    assert(files[k].path != files[files.len() - 1].path);
                } else {
                    assert(kept[i].path != kept[j].path);
                }
            }
        }
    }
}

/// What is left holds no more than what was there.
pub proof fn lemma_without_total(files: Seq<Resident>, victims: Set<Seq<char>>)
    ensures
        total_size(without(files, victims)) <= total_size(files),
    decreases files.len(),
{
    if files.len() == 0 {
        lemma_without_empty(victims);
    } else {
        let rest = files.drop_last();
        let last = files.last();
        assert(files =~= rest.push(last));
        lemma_without_push(rest, last, victims);
        lemma_without_total(rest, victims);
        lemma_total_size_push(without(rest, victims), last);
    }
}

/// Where no file is a victim, all are left.
pub proof fn lemma_without_absent(files: Seq<Resident>, victims: Set<Seq<char>>)
    requires
        forall|i: int| 0 <= i < files.len() ==> !victims.contains((#[trigger] files[i]).path),
    ensures
        without(files, victims) == files,
    decreases files.len(),
{
    if files.len() == 0 {
        lemma_without_empty(victims);
    } else {
        let rest = files.drop_last();
        let last = files.last();
        assert(files =~= rest.push(last));
        lemma_without_push(rest, last, victims);
        assert forall|i: int| 0 <= i < rest.len() implies !victims.contains(
            (#[trigger] rest[i]).path,
        ) by {
            assert(rest[i] == files[i]);
        }
        lemma_without_absent(rest, victims);
        assert(files[files.len() - 1] == last);
    }
}

/// To leave out one set of paths and then another is to leave out both.
pub proof fn lemma_without_twice(
    files: Seq<Resident>,
    first: Set<Seq<char>>,
    second: Set<Seq<char>>,
)
    ensures
        without(without(files, first), second) == without(files, first.union(second)),
    decreases files.len(),
{
    if files.len() == 0 {
        lemma_without_empty(first);
        lemma_without_empty(second);
        lemma_without_empty(first.union(second));
    } else {
        let rest = files.drop_last();
        let last = files.last();
        assert(files =~= rest.push(last));
        lemma_without_push(rest, last, first);
        lemma_without_push(rest, last, first.union(second));
        lemma_without_push(without(rest, first), last, second);
        lemma_without_twice(rest, first, second);
    }
}

/// Among files with distinct paths, to remove the file at `i` is to leave
/// out its path.
pub proof fn lemma_remove_is_without(files: Seq<Resident>, i: int)
    requires
        distinct_paths(files),
        0 <= i < files.len(),
    ensures
        files.remove(i) == without(files, set![files[i].path]),
    decreases files.len(),
{
    let victims = set![files[i].path];
    let rest = files.drop_last();
    let last = files.last();
    assert(files =~= rest.push(last));
    lemma_without_push(rest, last, victims);
    if i == files.len() - 1 {
        assert forall|j: int| 0 <= j < rest.len() implies !victims.contains(
            (#[trigger] rest[j]).path,
        ) by {
            assert(files[j].path != files[i].path);
        }
        lemma_without_absent(rest, victims);
        assert(files.remove(i) =~= rest);
    } else {
        assert(files[i].path != files[files.len() - 1].path);
        assert(distinct_paths(rest)) by {
            assert forall|a: int, b: int| 0 <= a < b < rest.len() implies (#[trigger] rest[a]).path
                != (#[trigger] rest[b]).path by {
                assert(rest[a] == files[a] && rest[b] == files[b]);
            }
        }
        assert(rest[i] == files[i]);
        lemma_remove_is_without(rest, i);
        assert(files.remove(i) =~= rest.remove(i).push(last));
    }
}

/// After `put`, the paths are distinct, and the total has grown by no more
/// than the length of the new file.
pub proof fn lemma_put(files: Seq<Resident>, path: Seq<char>, bytes: Seq<u8>)
    requires
        distinct_paths(files),
    ensures
        distinct_paths(put(files, path, bytes)),
        total_size(put(files, path, bytes)) == total_size(without(files, set![path]))
            + bytes.len(),
        total_size(put(files, path, bytes)) <= total_size(files) + bytes.len(),
{
    let victims = set![path];
    let kept = without(files, victims);
    let file = Resident { path, bytes };
    lemma_without_distinct(files, victims);
    lemma_without_total(files, victims);
    lemma_total_size_push(kept, file);
    assert forall|i: int, j: int| 0 <= i < j < kept.push(file).len() implies (
    #[trigger] kept.push(file)[i]).path != (#[trigger] kept.push(file)[j]).path by {
        if j == kept.len() {
            lemma_without_members(files, victims, i);
        } else {
            assert(kept[i].path != kept[j].path);
        }
    }
}

} // verus!
