//! The files that a cache holds: a list in the order of admission, and an
//! index of the same files by path.

use crate::lemmas::{lemma_remove_is_without, lemma_without_absent};
use crate::model::{distinct_paths, put, without, Resident};
use crate::sized_file::SizedFile;
use std::sync::Arc;
use vstd::hash_map::StringHashMap;
use vstd::prelude::*;

verus! {

/// The files that a cache holds.
pub struct ResidentFiles {
    /// The files with their paths, in the order in which they were admitted.
    files: Vec<(String, Arc<SizedFile>)>,
    /// The same files, to be found by their paths.
    index: StringHashMap<Arc<SizedFile>>,
}

/// What a list of paths and files stands for.
pub closed spec fn resident_files(files: Seq<(String, Arc<SizedFile>)>) -> Seq<Resident> {
    files.map_values(|entry: (String, Arc<SizedFile>)| Resident { path: entry.0@, bytes: entry.1@ })
}

impl View for ResidentFiles {
    type V = Seq<Resident>;

    closed spec fn view(&self) -> Seq<Resident> {
        resident_files(self.files@)
    }
}

/// Another handle on the same contents. This is `Arc::clone` of the standard
/// library, which copies the pointer and leaves the contents alone: the new
/// handle points to what the old one points to.
#[verifier::external_body]
pub(crate) fn share(file: &Arc<SizedFile>) -> (shared: Arc<SizedFile>)
    ensures
        shared == *file,
{
    Arc::clone(file)
}

impl ResidentFiles {
    /// No path is there twice, and the index holds what the list holds.
    pub closed spec fn wf(&self) -> bool {
        &&& distinct_paths(self@)
        &&& forall|i: int|
            0 <= i < self.files.len() ==> self.index@.contains_key((#[trigger] self.files[i]).0@)
                && self.index@[self.files[i].0@] == self.files[i].1
        &&& forall|path: Seq<char>| #[trigger]
            self.index@.contains_key(path) ==> exists|i: int|
                0 <= i < self.files.len() && (#[trigger] self.files[i]).0@ == path
    }

    /// No files.
    pub fn new() -> (files: ResidentFiles)
        ensures
            files.wf(),
            files@ == Seq::<Resident>::empty(),
    {
        let files = ResidentFiles { files: Vec::new(), index: StringHashMap::new() };
        assert(files@ =~= Seq::<Resident>::empty());
        files
    }

    /// The number of files.
    pub fn len(&self) -> (len: usize)
        ensures
            len == self@.len(),
    {
        self.files.len()
    }

    /// The path of the file at `i`.
    pub fn path(&self, i: usize) -> (path: &String)
        requires
            i < self@.len(),
        ensures
            path@ == self@[i as int].path,
    {
        &self.files[i].0
    }

    /// The file at `i`.
    pub fn file(&self, i: usize) -> (file: &Arc<SizedFile>)
        requires
            i < self@.len(),
        ensures
            file@ == self@[i as int].bytes,
    {
        &self.files[i].1
    }

    /// The file under `path`, if there is one.
    pub fn get(&self, path: &String) -> (found: Option<&Arc<SizedFile>>)
        requires
            self.wf(),
        ensures
            match found {
                Some(file) => exists|i: int|
                    0 <= i < self@.len() && (#[trigger] self@[i]).path == path@ && self@[i].bytes
                        == file@,
                None => forall|i: int| 0 <= i < self@.len() ==> (#[trigger] self@[i]).path != path@,
            },
    {
        let found = self.index.get(path.as_str());
        proof {
            match found {
                Some(file) => {
                    let i = choose|i: int|
                        0 <= i < self.files.len() && (#[trigger] self.files[i]).0@ == path@;
                    assert(self@[i].path == path@ && self@[i].bytes == file@);
                },
                None => {
                    assert forall|i: int| 0 <= i < self@.len() implies (#[trigger] self@[i]).path
                        != path@ by {
                        assert(self.index@.contains_key(self.files[i].0@));
                    }
                },
            }
        }
        found
    }

    /// The place of `path` in the list, which holds it.
    fn position(&self, path: &String) -> (i: usize)
        requires
            exists|j: int| 0 <= j < self.files.len() && (#[trigger] self.files[j]).0@ == path@,
        ensures
            i < self.files.len(),
            self.files[i as int].0@ == path@,
    {
        let mut i: usize = 0;
        loop
            invariant
                exists|j: int| i <= j < self.files.len() && (#[trigger] self.files[j]).0@ == path@,
            decreases self.files.len() - i,
        {
            if self.files[i].0 == *path {
                return i;
            }
            i = i + 1;
        }
    }

    /// Takes the file under `path` away, if there is one.
    pub fn remove(&mut self, path: &String)
        requires
            old(self).wf(),
        ensures
            final(self).wf(),
            final(self)@ == without(old(self)@, set![path@]),
    {
        let ghost before = self@;
        if self.index.contains_key(path.as_str()) {
            let i = self.position(path);
            proof {
                lemma_remove_is_without(before, i as int);
            }
            let ghost files = self.files@;
            self.files.remove(i);
            self.index.remove(path.as_str());
            assert(self@ =~= before.remove(i as int));
            proof {
                crate::lemmas::lemma_without_distinct(before, set![path@]);
                assert forall|j: int| 0 <= j < self.files.len() implies self.index@.contains_key(
                    (#[trigger] self.files[j]).0@,
                ) && self.index@[self.files[j].0@] == self.files[j].1 by {
                    let k = if j < i {
                        j
                    } else {
                        j + 1
                    };
                    assert(self.files[j] == files[k]);
                    assert(before[k].path != before[i as int].path);
                }
                assert forall|other: Seq<char>| #[trigger]
                    self.index@.contains_key(other) implies exists|j: int|
                    0 <= j < self.files.len() && (#[trigger] self.files[j]).0@ == other by {
                    let k = choose|k: int|
                        0 <= k < files.len() && (#[trigger] files[k]).0@ == other;
                    let j = if k < i {
                        k
                    } else {
                        k - 1
                    };
                    assert(self.files[j] == files[k]);
                }
            }
        } else {
            proof {
                assert forall|j: int| 0 <= j < before.len() implies !set![path@].contains(
                    (#[trigger] before[j]).path,
                ) by {
                    assert(self.index@.contains_key(self.files[j].0@));
                }
                lemma_without_absent(before, set![path@]);
            }
        }
    }

    /// Puts the file under `path`, in place of the file that was there, if
    /// there was one. The file is then the last in the list.
    pub fn put(&mut self, path: String, file: Arc<SizedFile>)
        requires
            old(self).wf(),
        ensures
            final(self).wf(),
            final(self)@ == put(old(self)@, path@, file@),
    {
        let ghost before = self@;
        self.remove(&path);
        let ghost kept = self@;
        let ghost files = self.files@;
        let ghost index = self.index@;
        proof {
            crate::lemmas::lemma_put(before, path@, file@);
            assert forall|j: int| 0 <= j < kept.len() implies (#[trigger] kept[j]).path != path@ by {
                crate::lemmas::lemma_without_members(before, set![path@], j);
            }
        }
        self.index.insert(path.clone(), share(&file));
        self.files.push((path, file));
        assert(self@ =~= kept.push(Resident { path: path@, bytes: file@ }));
        proof {
            assert forall|j: int| 0 <= j < self.files.len() implies self.index@.contains_key(
                (#[trigger] self.files[j]).0@,
            ) && self.index@[self.files[j].0@] == self.files[j].1 by {
                if j < files.len() {
                    assert(self.files[j] == files[j]);
                    assert(kept[j].path != path@);
                }
            }
            assert forall|other: Seq<char>| #[trigger]
                self.index@.contains_key(other) implies exists|j: int|
                0 <= j < self.files.len() && (#[trigger] self.files[j]).0@ == other by {
                if other == path@ {
                    assert(self.files[files.len() as int].0@ == other);
                } else {
                    let k = choose|k: int| 0 <= k < files.len() && (#[trigger] files[k]).0@ == other;
                    assert(self.files[k] == files[k]);
                }
            }
        }
    }
}

} // verus!
