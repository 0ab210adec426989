//! Errors met while walking and scanning, one record per failing file.
use vstd::prelude::*;
use crate::sets::{StrSet, views, members};

verus! {

/// Why a file could not be scanned.
#[derive(Clone, Copy, Debug, PartialEq, Eq, Structural)]
pub enum ErrorKind {
    /// The graph knows the library but it has no location on disk.
    NotFound,
    /// The file's bytes could not be obtained.
    CannotRead,
    /// The bytes are not a binary that can be decoded.
    CannotParse,
    /// A symbol's name could not be read inside an otherwise decoded file.
    Unknown,
}

/// The failing files, each with the kind of its first error, and for each
/// failing file the names of those that referred to it.
pub struct ErrorMap {
    kinds: Vec<(String, ErrorKind)>,
    refs: Vec<(String, String)>,
}

impl ErrorMap {
    /// Pairs (file, kind): at most one per file.
    pub closed spec fn kinds(&self) -> Set<(Seq<char>, ErrorKind)> {
        Set::new(
            |e: (Seq<char>, ErrorKind)|
                exists|i: int| 0 <= i < self.kinds@.len() && #[trigger] self.kinds@[i].0@ == e.0 && self.kinds@[i].1 == e.1,
        )
    }

    /// Pairs (file, name of a referrer).
    pub closed spec fn referrers(&self) -> Set<(Seq<char>, Seq<char>)> {
        Set::new(
            |e: (Seq<char>, Seq<char>)|
                exists|i: int| 0 <= i < self.refs@.len() && #[trigger] self.refs@[i].0@ == e.0 && self.refs@[i].1@ == e.1,
        )
    }

    /// No file has two kinds.
    pub closed spec fn wf(&self) -> bool {
        forall|i: int, j: int|
            0 <= i < j < self.kinds@.len() ==> #[trigger] self.kinds@[i].0@ != #[trigger] self.kinds@[j].0@
    }

    /// The kind recorded for `path`, if any.
    pub open spec fn kind_spec(&self, path: Seq<char>) -> Option<ErrorKind> {
        if exists|k: ErrorKind| self.kinds().contains((path, k)) {
            Some(choose|k: ErrorKind| self.kinds().contains((path, k)))
        } else {
            None
        }
    }

    /// The files that have an error.
    pub open spec fn failing(&self) -> Set<Seq<char>> {
        Set::new(|p: Seq<char>| exists|k: ErrorKind| self.kinds().contains((p, k)))
    }

    /// Those that referred to `path`.
    pub open spec fn referrers_spec(&self, path: Seq<char>) -> Set<Seq<char>> {
        Set::new(|n: Seq<char>| self.referrers().contains((path, n)))
    }

    pub proof fn lemma_kind_unique(&self, path: Seq<char>, k: ErrorKind)
        requires
            self.wf(),
            self.kinds().contains((path, k)),
        ensures
            self.kind_spec(path) == Some(k),
    {
        let c = choose|c: ErrorKind| self.kinds().contains((path, c));
        let i = choose|i: int| 0 <= i < self.kinds@.len() && #[trigger] self.kinds@[i].0@ == path && self.kinds@[i].1 == k;
        let j = choose|j: int| 0 <= j < self.kinds@.len() && #[trigger] self.kinds@[j].0@ == path && self.kinds@[j].1 == c;
        assert(i == j);
    }

    /// A file has at most one kind.
    pub proof fn lemma_one_kind(&self, path: Seq<char>, k1: ErrorKind, k2: ErrorKind)
        requires
            self.wf(),
            self.kinds().contains((path, k1)),
            self.kinds().contains((path, k2)),
        ensures
            k1 == k2,
    {
        self.lemma_kind_unique(path, k1);
        self.lemma_kind_unique(path, k2);
    }

    /// More kinds, more failing files.
    pub proof fn lemma_failing_grows(&self, other: &ErrorMap)
        requires
            self.kinds().subset_of(other.kinds()),
        ensures
            self.failing().subset_of(other.failing()),
    {
        assert forall|p: Seq<char>| self.failing().contains(p) implies other.failing().contains(p) by {
            let k = choose|k: ErrorKind| self.kinds().contains((p, k));
            assert(other.kinds().contains((p, k)));
        }
    }

    pub fn new() -> (r: ErrorMap)
        ensures
            r.wf(),
            r.kinds() == Set::<(Seq<char>, ErrorKind)>::empty(),
            r.referrers() == Set::<(Seq<char>, Seq<char>)>::empty(),
    {
        let r = ErrorMap { kinds: Vec::new(), refs: Vec::new() };
        assert(r.kinds() =~= Set::<(Seq<char>, ErrorKind)>::empty());
        assert(r.referrers() =~= Set::<(Seq<char>, Seq<char>)>::empty());
        r
    }

    /// The kind recorded for `path`, if it has failed.
    pub fn kind_of(&self, path: &String) -> (r: Option<ErrorKind>)
        requires
            self.wf(),
        ensures
            r == self.kind_spec(path@),
    {
        let mut i: usize = 0;
        while i < self.kinds.len()
            invariant
                self.wf(),
                i <= self.kinds@.len(),
                forall|j: int| 0 <= j < i ==> self.kinds@[j].0@ != path@,
            decreases self.kinds@.len() - i,
        {
            if self.kinds[i].0 == *path {
                let k = self.kinds[i].1;
                proof {
                    assert(self.kinds().contains((path@, k)));
                    self.lemma_kind_unique(path@, k);
                }
                return Some(k);
            }
            i = i + 1;
        }
        proof {
            assert forall|k: ErrorKind| !self.kinds().contains((path@, k)) by {}
        }
        None
    }

    /// Whether `path` has failed.
    pub fn has_failed(&self, path: &String) -> (r: bool)
        requires
            self.wf(),
        ensures
            r == self.failing().contains(path@),
    {
        let k = self.kind_of(path);
        proof {
            if let Some(k0) = k {
                assert(self.kinds().contains((path@, k0)));
            }
        }
        k.is_some()
    }

    /// The failing files whose kind is `kind`, each once.
    pub fn paths_of_kind(&self, kind: ErrorKind) -> (r: Vec<String>)
        requires
            self.wf(),
        ensures
            members(r@) == Set::new(|p: Seq<char>| self.kinds().contains((p, kind))),
            views(r@).no_duplicates(),
    {
        let mut set = StrSet::new();
        let mut i: usize = 0;
        while i < self.kinds.len()
            invariant
                i <= self.kinds@.len(),
                set.wf(),
                set@ == Set::new(
                    |p: Seq<char>| exists|j: int| 0 <= j < i && #[trigger] self.kinds@[j].0@ == p && self.kinds@[j].1 == kind,
                ),
            decreases self.kinds@.len() - i,
        {
            let ghost before = set@;
            if self.kinds[i].1 == kind {
                set.insert(self.kinds[i].0.clone());
            }
            assert(set@ =~= Set::new(
                |p: Seq<char>| exists|j: int| 0 <= j < i + 1 && #[trigger] self.kinds@[j].0@ == p && self.kinds@[j].1 == kind,
            )) by {
                assert forall|p| set@.contains(p) implies exists|j: int|
                    0 <= j < i + 1 && #[trigger] self.kinds@[j].0@ == p && self.kinds@[j].1 == kind by {
                    if !before.contains(p) {
                        assert(self.kinds@[i as int].0@ == p);
                    }
                }
                assert forall|p| (exists|j: int|
                    0 <= j < i + 1 && #[trigger] self.kinds@[j].0@ == p && self.kinds@[j].1 == kind) implies set@.contains(p) by {
                    let j = choose|j: int| 0 <= j < i + 1 && #[trigger] self.kinds@[j].0@ == p && self.kinds@[j].1 == kind;
                    if j < i {
                        assert(before.contains(p));
                    }
                }
            }
            i = i + 1;
        }
        let r = set.to_vec();
        assert(set@ =~= Set::new(|p: Seq<char>| self.kinds().contains((p, kind))));
        r
    }

    /// All failing files, each once.
    pub fn failing_paths(&self) -> (r: Vec<String>)
        requires
            self.wf(),
        ensures
            members(r@) == self.failing(),
            views(r@).no_duplicates(),
    {
        let mut r: Vec<String> = Vec::new();
        let mut i: usize = 0;
        while i < self.kinds.len()
            invariant
                self.wf(),
                i <= self.kinds@.len(),
                r@.len() == i,
                forall|j: int| 0 <= j < i ==> #[trigger] r@[j]@ == self.kinds@[j].0@,
            decreases self.kinds@.len() - i,
        {
            r.push(self.kinds[i].0.clone());
            i = i + 1;
        }
        proof {
            assert forall|p| members(r@).contains(p) implies self.failing().contains(p) by {
                let j = choose|j: int| 0 <= j < r@.len() && #[trigger] r@[j]@ == p;
                assert(self.kinds().contains((p, self.kinds@[j].1)));
            }
            assert forall|p| self.failing().contains(p) implies members(r@).contains(p) by {
                let k = choose|k: ErrorKind| self.kinds().contains((p, k));
                let j = choose|j: int| 0 <= j < self.kinds@.len() && #[trigger] self.kinds@[j].0@ == p && self.kinds@[j].1 == k;
                assert(r@[j]@ == p);
            }
            assert(members(r@) =~= self.failing());
            assert forall|a: int, b: int| 0 <= a < views(r@).len() && 0 <= b < views(r@).len() && a != b
                implies views(r@)[a] != views(r@)[b] by {
                if a < b {
                    assert(self.kinds@[a].0@ != self.kinds@[b].0@);
                } else {
                    assert(self.kinds@[b].0@ != self.kinds@[a].0@);
                }
            }
        }
        r
    }

    /// The names that referred to `path`, each once.
    pub fn referrers_of(&self, path: &String) -> (r: Vec<String>)
        ensures
            members(r@) == self.referrers_spec(path@),
            views(r@).no_duplicates(),
    {
        let mut set = StrSet::new();
        let mut i: usize = 0;
        while i < self.refs.len()
            invariant
                i <= self.refs@.len(),
                set.wf(),
                set@ == Set::new(
                    |n: Seq<char>| exists|j: int| 0 <= j < i && #[trigger] self.refs@[j].0@ == path@ && self.refs@[j].1@ == n,
                ),
            decreases self.refs@.len() - i,
        {
            let ghost before = set@;
            if self.refs[i].0 == *path {
                set.insert(self.refs[i].1.clone());
            }
            assert(set@ =~= Set::new(
                |n: Seq<char>| exists|j: int| 0 <= j < i + 1 && #[trigger] self.refs@[j].0@ == path@ && self.refs@[j].1@ == n,
            )) by {
                assert forall|n| set@.contains(n) implies exists|j: int|
                    0 <= j < i + 1 && #[trigger] self.refs@[j].0@ == path@ && self.refs@[j].1@ == n by {
                    if !before.contains(n) {
                        assert(self.refs@[i as int].0@ == path@);
                    }
                }
                assert forall|n| (exists|j: int|
                    0 <= j < i + 1 && #[trigger] self.refs@[j].0@ == path@ && self.refs@[j].1@ == n) implies set@.contains(n) by {
                    let j = choose|j: int| 0 <= j < i + 1 && #[trigger] self.refs@[j].0@ == path@ && self.refs@[j].1@ == n;
                    if j < i {
                        assert(before.contains(n));
                    }
                }
            }
            i = i + 1;
        }
        let r = set.to_vec();
        assert(set@ =~= self.referrers_spec(path@));
        r
    }

    /// Whether one of `roots` is itself among the failing files: the one
    /// condition on which a run fails.
    pub fn any_failed(&self, roots: &Vec<String>) -> (r: bool)
        requires
            self.wf(),
        ensures
            r == exists|i: int| 0 <= i < roots@.len() && self.failing().contains(#[trigger] roots@[i]@),
    {
        let mut i: usize = 0;
        while i < roots.len()
            invariant
                self.wf(),
                i <= roots@.len(),
                forall|j: int| 0 <= j < i ==> !self.failing().contains(#[trigger] roots@[j]@),
            decreases roots@.len() - i,
        {
            if self.has_failed(&roots[i]) {
                return true;
            }
            i = i + 1;
        }
        false
    }

    /// Records that `referenced_by` met an error of kind `kind` on `path`.
    /// A file that already failed keeps its first kind and gains the name.
    pub fn record(&mut self, path: String, kind: ErrorKind, referenced_by: String)
        requires
            old(self).wf(),
        ensures
            final(self).wf(),
            final(self).kinds() == if old(self).failing().contains(path@) {
                old(self).kinds()
            } else {
                old(self).kinds().insert((path@, kind))
            },
            final(self).referrers() == old(self).referrers().insert((path@, referenced_by@)),
            final(self).failing().contains(path@),
    {
        let known = self.has_failed(&path);
        if !known {
            let ghost prev = self.kinds@;
            self.kinds.push((path.clone(), kind));
            proof {
                assert(self.kinds() =~= old(self).kinds().insert((path@, kind))) by {
                    assert forall|e| self.kinds().contains(e) implies old(self).kinds().insert((path@, kind)).contains(e) by {
                        let i = choose|i: int| 0 <= i < self.kinds@.len() && #[trigger] self.kinds@[i].0@ == e.0 && self.kinds@[i].1 == e.1;
                        if i < prev.len() {
                            assert(prev[i].0@ == e.0);
                        }
                    }
                    assert forall|e| old(self).kinds().insert((path@, kind)).contains(e) implies self.kinds().contains(e) by {
                        if e == (path@, kind) {
                            assert(self.kinds@[prev.len() as int].0@ == e.0);
                        } else {
                            let i = choose|i: int| 0 <= i < prev.len() && #[trigger] prev[i].0@ == e.0 && prev[i].1 == e.1;
                            assert(self.kinds@[i].0@ == e.0);
                        }
                    }
                }
                assert forall|i: int, j: int| 0 <= i < j < self.kinds@.len() implies #[trigger] self.kinds@[i].0@
                    != #[trigger] self.kinds@[j].0@ by {
                    if j == prev.len() {
                        assert(old(self).kinds().contains((prev[i].0@, prev[i].1)));
                    }
                }
            }
        }
        let ghost mid = self.refs@;
        let ghost kinds_mid = self.kinds();
        let ghost kvec = self.kinds@;
        proof {
            if old(self).failing().contains(path@) {
                let k = choose|k: ErrorKind| old(self).kinds().contains((path@, k));
                assert(self.kinds().contains((path@, k)));
            } else {
                assert(self.kinds().contains((path@, kind)));
            }
        }
        let mut i: usize = 0;
        while i < self.refs.len()
            invariant
                self.refs@ == mid,
                mid == old(self).refs@,
                self.kinds@ == kvec,
                self.wf(),
                self.failing().contains(path@),
                self.kinds() == if old(self).failing().contains(path@) {
                    old(self).kinds()
                } else {
                    old(self).kinds().insert((path@, kind))
                },
                i <= mid.len(),
                forall|j: int| 0 <= j < i ==> !(mid[j].0@ == path@ && mid[j].1@ == referenced_by@),
            decreases mid.len() - i,
        {
            if self.refs[i].0 == path && self.refs[i].1 == referenced_by {
                proof {
                    assert(self.referrers().contains((path@, referenced_by@)));
                    assert(self.referrers() =~= self.referrers().insert((path@, referenced_by@)));
                    assert(self.referrers() =~= old(self).referrers());
                }
                return;
            }
            i = i + 1;
        }
        let ghost e0 = (path@, referenced_by@);
        self.refs.push((path, referenced_by));
        proof {
            assert(self.kinds() =~= kinds_mid);
            assert(self.failing() =~= Set::new(|p: Seq<char>| exists|k: ErrorKind| kinds_mid.contains((p, k))));
            assert(self.referrers() =~= old(self).referrers().insert(e0)) by {
                assert forall|e| self.referrers().contains(e) implies old(self).referrers().insert(e0).contains(e) by {
                    let i = choose|i: int| 0 <= i < self.refs@.len() && #[trigger] self.refs@[i].0@ == e.0 && self.refs@[i].1@ == e.1;
                    if i < mid.len() {
                        assert(mid[i].0@ == e.0);
                    }
                }
                assert forall|e| old(self).referrers().insert(e0).contains(e) implies self.referrers().contains(e) by {
                    if e == e0 {
                        assert(self.refs@[mid.len() as int].0@ == e.0);
                    } else {
                        let i = choose|i: int| 0 <= i < mid.len() && #[trigger] mid[i].0@ == e.0 && mid[i].1@ == e.1;
                        assert(self.refs@[i].0@ == e.0);
                    }
                }
            }
        }
    }
}

} // verus!
