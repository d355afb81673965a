//! The content store: current document bodies, addressed by filename.
//! Its abstract state is a map from filename to body.

use vstd::prelude::*;
use crate::text::str_eq;

verus! {

pub struct FileEntry {
    pub name: String,
    pub body: String,
}

/// The position of the entry named `k`, when one exists.
pub open spec fn idx_of(s: Seq<FileEntry>, k: Seq<char>) -> int {
    choose|i: int| 0 <= i < s.len() && s[i].name@ == k
}

/// No two entries share a filename.
pub open spec fn unique_names(s: Seq<FileEntry>) -> bool {
    forall|i: int, j: int| 0 <= i < j < s.len() ==> s[i].name@ != s[j].name@
}

pub open spec fn map_of(s: Seq<FileEntry>) -> Map<Seq<char>, Seq<char>> {
    Map::new(
        |k: Seq<char>| exists|i: int| 0 <= i < s.len() && s[i].name@ == k,
        |k: Seq<char>| s[idx_of(s, k)].body@,
    )
}

/// When an entry named `k` exists and names are unique, `idx_of` is
/// that entry's one position.
proof fn lemma_idx_of(s: Seq<FileEntry>, k: Seq<char>)
    requires
        unique_names(s),
        exists|i: int| 0 <= i < s.len() && s[i].name@ == k,
    ensures
        0 <= idx_of(s, k) < s.len(),
        s[idx_of(s, k)].name@ == k,
        forall|j: int| 0 <= j < s.len() && s[j].name@ == k ==> j == idx_of(s, k),
{
    let i = idx_of(s, k);
    assert(0 <= i < s.len() && s[i].name@ == k);
    assert forall|j: int| 0 <= j < s.len() && s[j].name@ == k implies j == i by {
        if j < i {
            assert(s[j].name@ != s[i].name@);
        } else if i < j {
            assert(s[i].name@ != s[j].name@);
        }
    }
}

/// Durable storage of current document bodies, one entry per filename.
pub struct ContentStore {
    files: Vec<FileEntry>,
}

impl ContentStore {
    /// The store as a map from filename to body.
    pub closed spec fn view(&self) -> Map<Seq<char>, Seq<char>> {
        map_of(self.files@)
    }

    pub closed spec fn wf(&self) -> bool {
        unique_names(self.files@)
    }

    /// The filenames currently stored, in storage order.
    pub closed spec fn names(&self) -> Seq<Seq<char>> {
        self.files@.map(|i: int, e: FileEntry| e.name@)
    }

    /// `names()` lists the domain of the store exactly, without repeats.
    pub proof fn lemma_names_characterize(&self)
        requires
            self.wf(),
        ensures
            self.names().no_duplicates(),
            forall|i: int|
                0 <= i < self.names().len() ==> self@.dom().contains(#[trigger] self.names()[i]),
            forall|k: Seq<char>|
                self@.dom().contains(k) ==> exists|i: int|
                    0 <= i < self.names().len() && self.names()[i] == k,
    {
        assert forall|i: int|
            0 <= i < self.names().len() implies self@.dom().contains(#[trigger] self.names()[i]) by {
            assert(self.files@[i].name@ == self.names()[i]);
        }
        assert forall|k: Seq<char>| self@.dom().contains(k) implies exists|i: int|
            0 <= i < self.names().len() && self.names()[i] == k by {
            let i = choose|i: int| 0 <= i < self.files@.len() && self.files@[i].name@ == k;
            assert(self.names()[i] == k);
        }
    }

    pub fn new() -> (s: Self)
        ensures
            s.wf(),
            s@ == Map::<Seq<char>, Seq<char>>::empty(),
    {
        let s = ContentStore { files: Vec::new() };
        proof {
            assert(s@ =~= Map::<Seq<char>, Seq<char>>::empty());
        }
        s
    }

    /// The index of the entry named `name`, if one exists.
    fn find(&self, name: &str) -> (r: Option<usize>)
        ensures
            match r {
                Some(i) => i < self.files@.len() && self.files@[i as int].name@ == name@,
                None => forall|j: int| 0 <= j < self.files@.len() ==> self.files@[j].name@ != name@,
            },
    {
        let mut i: usize = 0;
        while i < self.files.len()
            invariant
                i <= self.files@.len(),
                forall|j: int| 0 <= j < i ==> self.files@[j].name@ != name@,
            decreases self.files@.len() - i,
        {
            if str_eq(self.files[i].name.as_str(), name) {
                return Some(i);
            }
            i = i + 1;
        }
        None
    }

    /// Reads the current body of `name`, or nothing when no such
    /// document is stored.
    pub fn read(&self, name: &str) -> (r: Option<String>)
        requires
            self.wf(),
        ensures
            match r {
                Some(b) => self@.contains_key(name@) && b@ == self@[name@],
                None => !self@.contains_key(name@),
            },
    {
        match self.find(name) {
            Some(i) => {
                proof {
                    lemma_idx_of(self.files@, name@);
                }
                Some(self.files[i].body.clone())
            },
            None => None,
        }
    }

    /// Whether a document named `name` is stored.
    pub fn has(&self, name: &str) -> (r: bool)
        requires
            self.wf(),
        ensures
            r == self@.contains_key(name@),
    {
        self.find(name).is_some()
    }

    /// Writes `body` as the new current content of `name`, creating the
    /// entry when absent.
    pub fn write(&mut self, name: &str, body: String)
        requires
            old(self).wf(),
        ensures
            final(self).wf(),
            final(self)@ == old(self)@.insert(name@, body@),
    {
        let ghost pre = self.files@;
        match self.find(name) {
            Some(i) => {
                self.files[i].body = body;
                proof {
                    let post = self.files@;
                    assert(forall|j: int| 0 <= j < post.len() ==> post[j].name@ == pre[j].name@);
                    assert(self.wf());
                    assert forall|k: Seq<char>|
                        #![trigger map_of(post).dom().contains(k)]
                        #![trigger map_of(pre).insert(name@, body@).dom().contains(k)]
                        true implies {
                        &&& map_of(post).dom().contains(k) == map_of(pre).insert(
                            name@,
                            body@,
                        ).dom().contains(k)
                        &&& (map_of(post).dom().contains(k) ==> map_of(post)[k] == map_of(pre).insert(
                            name@,
                            body@,
                        )[k])
                    } by {
                        if exists|j: int| 0 <= j < pre.len() && pre[j].name@ == k {
                            lemma_idx_of(pre, k);
                            assert(post[idx_of(pre, k)].name@ == k);
                            lemma_idx_of(post, k);
                            assert(idx_of(post, k) == idx_of(pre, k));
                        } else {
                            assert(forall|j: int| 0 <= j < post.len() ==> post[j].name@ != k);
                        }
                    }
                    assert(final(self)@ =~= old(self)@.insert(name@, body@));
                }
            },
            None => {
                self.files.push(FileEntry { name: String::from_str(name), body });
                proof {
                    let post = self.files@;
                    assert(post[pre.len() as int].name@ == name@);
                    assert(self.wf());
                    assert forall|k: Seq<char>|
                        #![trigger map_of(post).dom().contains(k)]
                        #![trigger map_of(pre).insert(name@, body@).dom().contains(k)]
                        true implies {
                        &&& map_of(post).dom().contains(k) == map_of(pre).insert(
                            name@,
                            body@,
                        ).dom().contains(k)
                        &&& (map_of(post).dom().contains(k) ==> map_of(post)[k] == map_of(pre).insert(
                            name@,
                            body@,
                        )[k])
                    } by {
                        if k == name@ {
                            lemma_idx_of(post, k);
                            assert(idx_of(post, k) == pre.len());
                        } else if exists|j: int| 0 <= j < pre.len() && pre[j].name@ == k {
                            lemma_idx_of(pre, k);
                            assert(post[idx_of(pre, k)].name@ == k);
                            lemma_idx_of(post, k);
                            assert(idx_of(post, k) == idx_of(pre, k));
                        } else {
                            assert(forall|j: int| 0 <= j < post.len() ==> post[j].name@ != k);
                        }
                    }
                    assert(final(self)@ =~= old(self)@.insert(name@, body@));
                }
            },
        }
    }

    /// Removes the entry named `name`; reports whether one existed.
    pub fn delete(&mut self, name: &str) -> (r: bool)
        requires
            old(self).wf(),
        ensures
            final(self).wf(),
            final(self)@ == old(self)@.remove(name@),
            r == old(self)@.contains_key(name@),
    {
        let ghost pre = self.files@;
        match self.find(name) {
            Some(i) => {
                self.files.remove(i);
                proof {
                    let post = self.files@;
                    assert(forall|j: int| 0 <= j < i ==> post[j] == pre[j]);
                    assert(forall|j: int| i <= j < post.len() ==> post[j] == pre[j + 1]);
                    assert(self.wf());
                    assert forall|k: Seq<char>|
                        #![trigger map_of(post).dom().contains(k)]
                        #![trigger map_of(pre).remove(name@).dom().contains(k)]
                        true implies {
                        &&& map_of(post).dom().contains(k) == map_of(pre).remove(
                            name@,
                        ).dom().contains(k)
                        &&& (map_of(post).dom().contains(k) ==> map_of(post)[k] == map_of(pre).remove(
                            name@,
                        )[k])
                    } by {
                        lemma_idx_of(pre, name@);
                        assert(idx_of(pre, name@) == i);
                        if k != name@ && exists|j: int| 0 <= j < pre.len() && pre[j].name@ == k {
                            lemma_idx_of(pre, k);
                            let j = idx_of(pre, k);
                            assert(j != i);
                            if j < i {
                                assert(post[j].name@ == k);
                            } else {
                                assert(post[j - 1].name@ == k);
                            }
                            lemma_idx_of(post, k);
                        } else if k == name@ {
                            assert forall|j: int| 0 <= j < post.len() implies post[j].name@ != k by {
                                if j < i {
                                    assert(pre[j].name@ != name@);
                                } else {
                                    assert(pre[j + 1].name@ != name@);
                                }
                            }
                        } else {
                            assert forall|j: int| 0 <= j < post.len() implies post[j].name@ != k by {
                                if j < i {
                                    assert(pre[j].name@ != k);
                                } else {
                                    assert(pre[j + 1].name@ != k);
                                }
                            }
                        }
                    }
                    assert(final(self)@ =~= old(self)@.remove(name@));
                }
                true
            },
            None => {
                proof {
                    assert(final(self)@ =~= old(self)@.remove(name@));
                }
                false
            },
        }
    }

    /// Lists the stored filenames.
    pub fn list(&self) -> (r: Vec<String>)
        requires
            self.wf(),
        ensures
            r@.map(|i: int, s: String| s@) == self.names(),
    {
        let mut r: Vec<String> = Vec::new();
        let mut i: usize = 0;
        while i < self.files.len()
            invariant
                i <= self.files@.len(),
                r@.len() == i,
                forall|j: int| 0 <= j < i ==> r@[j]@ == self.files@[j].name@,
            decreases self.files@.len() - i,
        {
            r.push(self.files[i].name.clone());
            i = i + 1;
        }
        proof {
            assert(r@.map(|i: int, s: String| s@) =~= self.names());
        }
        r
    }
}

} // verus!
