//! The result table: one record for each directory that was walked, keyed by
//! the directory's path.

use vstd::hash_map::StringHashMap;
use vstd::prelude::*;

verus! {

/// One line of the table: a directory and the bytes found under it.
pub ghost struct Record {
    pub path: Seq<char>,
    pub size: nat,
}

/// Whether `s` holds a record for `path`.
pub open spec fn has_path(s: Seq<Record>, path: Seq<char>) -> bool {
    exists|i: int| 0 <= i < s.len() && (#[trigger] s[i]).path == path
}

/// Where in `s` a record for `path` stands, if `s` holds one.
pub open spec fn index_of(s: Seq<Record>, path: Seq<char>) -> int {
    choose|i: int| 0 <= i < s.len() && (#[trigger] s[i]).path == path
}

/// Whether no two records of `s` have the same path.
pub open spec fn distinct_paths(s: Seq<Record>) -> bool {
    forall|i: int, j: int|
        0 <= i < s.len() && 0 <= j < s.len() && (#[trigger] s[i]).path == (#[trigger] s[j]).path
            ==> i == j
}

/// The table `s` after `r` was written to it: a record with the same path is
/// overwritten where it stands, a new path is added at the end.
pub open spec fn upsert(s: Seq<Record>, r: Record) -> Seq<Record> {
    if has_path(s, r.path) {
        s.update(index_of(s, r.path), r)
    } else {
        s.push(r)
    }
}

/// A map from directory paths to sizes that remembers the order in which the
/// paths first came.
pub struct Table {
    paths: Vec<String>,
    sizes: Vec<u64>,
    index: StringHashMap<usize>,
}

impl View for Table {
    type V = Seq<Record>;

    closed spec fn view(&self) -> Seq<Record> {
        Seq::new(
            self.paths@.len(),
            |i: int| Record { path: self.paths@[i]@, size: self.sizes@[i] as nat },
        )
    }
}

impl Table {
    /// The invariant of a table: the index knows exactly the paths that are
    /// recorded, each with its position.
    pub closed spec fn wf(&self) -> bool {
        &&& self.paths@.len() == self.sizes@.len()
        &&& forall|i: int|
            0 <= i < self.paths@.len() ==> self.index@.contains_key(#[trigger] self.paths@[i]@)
                && self.index@[self.paths@[i]@] == i
        &&& forall|p: Seq<char>| #[trigger]
            self.index@.contains_key(p) ==> 0 <= self.index@[p] < self.paths@.len()
                && self.paths@[self.index@[p] as int]@ == p
    }

    /// In a well-formed table no path occurs twice.
    pub proof fn lemma_distinct(&self)
        requires
            self.wf(),
        ensures
            distinct_paths(self@),
    {
        assert forall|i: int, j: int|
            0 <= i < self@.len() && 0 <= j < self@.len() && (#[trigger] self@[i]).path == (
            #[trigger] self@[j]).path implies i == j by {
            assert(self.index@[self.paths@[i]@] == i);
            assert(self.index@[self.paths@[j]@] == j);
        }
    }

    /// An empty table.
    pub fn new() -> (table: Table)
        ensures
            table.wf(),
            table@ == Seq::<Record>::empty(),
    {
        Table { paths: Vec::new(), sizes: Vec::new(), index: StringHashMap::new() }
    }

    /// The number of records.
    pub fn len(&self) -> (n: usize)
        requires
            self.wf(),
        ensures
            n == self@.len(),
    {
        self.paths.len()
    }

    /// Writes the size of `path`, overwriting what was recorded for it before.
    pub fn insert(&mut self, path: String, size: u64)
        requires
            old(self).wf(),
        ensures
            final(self).wf(),
            final(self)@ == upsert(old(self)@, Record { path: path@, size: size as nat }),
    {
        let ghost before = self@;
        let ghost r = Record { path: path@, size: size as nat };
        match self.index.get(path.as_str()) {
            Some(at) => {
                let i = *at;
                proof {
                    self.lemma_distinct();
                    assert(before[i as int].path == path@);
                    assert(has_path(before, path@));
                    assert(index_of(before, path@) == i);
                }
                self.sizes.set(i, size);
                assert(self@ =~= before.update(i as int, r));
            },
            None => {
                proof {
                    if has_path(before, path@) {
                        let i = index_of(before, path@);
                        assert(self.index@.contains_key(self.paths@[i]@));
                    }
                }
                let n = self.paths.len();
                self.index.insert(path.clone(), n);
                self.paths.push(path);
                self.sizes.push(size);
                assert(self@ =~= before.push(r));
                assert forall|p: Seq<char>| #[trigger]
                    self.index@.contains_key(p) implies 0 <= self.index@[p] < self.paths@.len()
                    && self.paths@[self.index@[p] as int]@ == p by {
                    if p != path@ {
                        assert(old(self).index@.contains_key(p));
                    }
                }
            },
        }
    }

    /// The size recorded for `path`, if there is one.
    pub fn get(&self, path: &str) -> (size: Option<u64>)
        requires
            self.wf(),
        ensures
            match size {
                Some(n) => has_path(self@, path@) && self@[index_of(self@, path@)].size == n,
                None => !has_path(self@, path@),
            },
    {
        match self.index.get(path) {
            Some(at) => {
                let i = *at;
                proof {
                    self.lemma_distinct();
                    assert(self@[i as int].path == path@);
                    assert(index_of(self@, path@) == i);
                }
                Some(self.sizes[i])
            },
            None => {
                proof {
                    if has_path(self@, path@) {
                        let i = index_of(self@, path@);
                        assert(self.index@.contains_key(self.paths@[i]@));
                    }
                }
                None
            },
        }
    }

    /// The path of the record at position `i`.
    pub fn path_at(&self, i: usize) -> (path: &String)
        requires
            self.wf(),
            i < self@.len(),
        ensures
            path@ == self@[i as int].path,
    {
        &self.paths[i]
    }

    /// The size of the record at position `i`.
    pub fn size_at(&self, i: usize) -> (size: u64)
        requires
            self.wf(),
            i < self@.len(),
        ensures
            size == self@[i as int].size,
    {
        self.sizes[i]
    }
}

} // verus!
