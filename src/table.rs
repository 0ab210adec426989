//! The aggregation of requirements: version, then function, then file.
use vstd::prelude::*;
use vstd::set_lib::lemma_len_subset;
use crate::sets::{StrSet, views, members, lemma_members};
use crate::text::{lex_lt, str_less, lemma_lex_total, lemma_lex_trans};

verus! {

/// One versioned-symbol requirement: `function` needs runtime `version`,
/// and the symbol was found in `file`.
pub struct GlibcRequirement {
    pub version: String,
    pub function: String,
    pub file: String,
}

impl GlibcRequirement {
    pub open spec fn key(&self) -> (Seq<char>, Seq<char>, Seq<char>) {
        (self.version@, self.function@, self.file@)
    }
}

/// The versions named in a set of requirements.
pub open spec fn versions_in(t: Set<(Seq<char>, Seq<char>, Seq<char>)>) -> Set<Seq<char>> {
    Set::new(|v: Seq<char>| exists|f: Seq<char>, p: Seq<char>| t.contains((v, f, p)))
}

/// The functions that need version `v`.
pub open spec fn functions_in(t: Set<(Seq<char>, Seq<char>, Seq<char>)>, v: Seq<char>) -> Set<
    Seq<char>,
> {
    Set::new(|f: Seq<char>| exists|p: Seq<char>| t.contains((v, f, p)))
}

/// The files in which function `f` needs version `v`.
pub open spec fn files_in(
    t: Set<(Seq<char>, Seq<char>, Seq<char>)>,
    v: Seq<char>,
    f: Seq<char>,
) -> Set<Seq<char>> {
    Set::new(|p: Seq<char>| t.contains((v, f, p)))
}

/// `r` lists the `n` highest strings of `s` (all of them if there are fewer),
/// highest first, in lexicographic order.
pub open spec fn is_top_n(s: Set<Seq<char>>, n: nat, r: Seq<Seq<char>>) -> bool {
    &&& r.len() == if n < s.len() { n } else { s.len() }
    &&& forall|i: int| 0 <= i < r.len() ==> s.contains(#[trigger] r[i])
    &&& forall|i: int, j: int| 0 <= i < j < r.len() ==> lex_lt(#[trigger] r[j], #[trigger] r[i])
    &&& forall|v: Seq<char>, k: int|
        s.contains(v) && !r.contains(v) && 0 <= k < r.len() ==> #[trigger] lex_lt(v, r[k])
}

/// The requirements found so far, each once.
pub struct RequirementTable {
    entries: Vec<GlibcRequirement>,
}

impl View for RequirementTable {
    type V = Set<(Seq<char>, Seq<char>, Seq<char>)>;

    closed spec fn view(&self) -> Set<(Seq<char>, Seq<char>, Seq<char>)> {
        Set::new(
            |t: (Seq<char>, Seq<char>, Seq<char>)|
                exists|i: int| 0 <= i < self.entries@.len() && #[trigger] self.entries@[i].key() == t,
        )
    }
}

impl RequirementTable {
    /// No requirement is held twice.
    pub closed spec fn wf(&self) -> bool {
        forall|i: int, j: int|
            0 <= i < j < self.entries@.len() ==> #[trigger] self.entries@[i].key()
                != #[trigger] self.entries@[j].key()
    }

    pub fn new() -> (r: RequirementTable)
        ensures
            r.wf(),
            r@ == Set::<(Seq<char>, Seq<char>, Seq<char>)>::empty(),
    {
        let r = RequirementTable { entries: Vec::new() };
        assert(r@ =~= Set::<(Seq<char>, Seq<char>, Seq<char>)>::empty());
        r
    }

    pub fn contains(&self, req: &GlibcRequirement) -> (r: bool)
        ensures
            r == self@.contains(req.key()),
    {
        let mut i: usize = 0;
        while i < self.entries.len()
            invariant
                i <= self.entries@.len(),
                forall|j: int| 0 <= j < i ==> self.entries@[j].key() != req.key(),
            decreases self.entries@.len() - i,
        {
            let e = &self.entries[i];
            if e.version == req.version && e.function == req.function && e.file == req.file {
                assert(self@.contains(self.entries@[i as int].key()));
                return true;
            }
            i = i + 1;
        }
        false
    }

    /// Records a requirement; one already present leaves the table as it is.
    pub fn insert(&mut self, req: GlibcRequirement)
        requires
            old(self).wf(),
        ensures
            final(self).wf(),
            final(self)@ == old(self)@.insert(req.key()),
    {
        if self.contains(&req) {
            assert(self@.insert(req.key()) =~= self@);
            return;
        }
        let ghost prev = self.entries@;
        let ghost k = req.key();
        self.entries.push(req);
        assert(self@ =~= old(self)@.insert(k)) by {
            assert forall|t| self@.contains(t) implies old(self)@.insert(k).contains(t) by {
                let i = choose|i: int| 0 <= i < self.entries@.len() && #[trigger] self.entries@[i].key() == t;
                if i < prev.len() {
                    assert(prev[i].key() == t);
                }
            }
            assert forall|t| old(self)@.insert(k).contains(t) implies self@.contains(t) by {
                if t == k {
                    assert(self.entries@[prev.len() as int].key() == t);
                } else {
                    let i = choose|i: int| 0 <= i < prev.len() && #[trigger] prev[i].key() == t;
                    assert(self.entries@[i].key() == t);
                }
            }
        }
        assert forall|i: int, j: int| 0 <= i < j < self.entries@.len() implies #[trigger] self.entries@[i].key()
            != #[trigger] self.entries@[j].key() by {
            if j == prev.len() {
                assert(prev[i].key() == self.entries@[i].key());
            }
        }
    }

    /// The distinct versions, each once.
    pub fn versions(&self) -> (r: Vec<String>)
        ensures
            views(r@).no_duplicates(),
            members(r@) == versions_in(self@),
    {
        let mut set = StrSet::new();
        let mut i: usize = 0;
        while i < self.entries.len()
            invariant
                i <= self.entries@.len(),
                set.wf(),
                set@ == Set::new(|v: Seq<char>| exists|j: int| 0 <= j < i && #[trigger] self.entries@[j].version@ == v),
            decreases self.entries@.len() - i,
        {
            let ghost before = set@;
            set.insert(self.entries[i].version.clone());
            assert(set@ =~= Set::new(|v: Seq<char>| exists|j: int| 0 <= j < i + 1 && #[trigger] self.entries@[j].version@ == v)) by {
                assert forall|v| set@.contains(v) implies exists|j: int| 0 <= j < i + 1 && #[trigger] self.entries@[j].version@ == v by {
                    if v == self.entries@[i as int].version@ {
                    } else {
                        assert(before.contains(v));
                    }
                }
            }
            i = i + 1;
        }
        let r = set.to_vec();
        proof {
            lemma_members(r@);
            set.lemma_len();
            assert(set@ =~= versions_in(self@)) by {
                assert forall|v| set@.contains(v) implies versions_in(self@).contains(v) by {
                    let j = choose|j: int| 0 <= j < self.entries@.len() && #[trigger] self.entries@[j].version@ == v;
                    let e = self.entries@[j];
                    assert(self@.contains(e.key()));
                }
                assert forall|v| versions_in(self@).contains(v) implies set@.contains(v) by {
                    let (f, p) = choose|f: Seq<char>, p: Seq<char>| self@.contains((v, f, p));
                    let j = choose|j: int| 0 <= j < self.entries@.len() && #[trigger] self.entries@[j].key() == (v, f, p);
                    assert(self.entries@[j].version@ == v);
                }
            }
        }
        r
    }
}

impl RequirementTable {
    /// The distinct functions that need version `version`.
    pub fn functions_of(&self, version: &String) -> (r: Vec<String>)
        ensures
            views(r@).no_duplicates(),
            members(r@) == functions_in(self@, version@),
    {
        let mut set = StrSet::new();
        let mut i: usize = 0;
        while i < self.entries.len()
            invariant
                i <= self.entries@.len(),
                set.wf(),
                set@ == Set::new(
                    |f: Seq<char>|
                        exists|j: int|
                            0 <= j < i && #[trigger] self.entries@[j].version@ == version@
                                && self.entries@[j].function@ == f,
                ),
            decreases self.entries@.len() - i,
        {
            let ghost before = set@;
            if self.entries[i].version == *version {
                set.insert(self.entries[i].function.clone());
            }
            assert(set@ =~= Set::new(
                |f: Seq<char>|
                    exists|j: int|
                        0 <= j < i + 1 && #[trigger] self.entries@[j].version@ == version@
                            && self.entries@[j].function@ == f,
            )) by {
                assert forall|f| set@.contains(f) implies exists|j: int|
                    0 <= j < i + 1 && #[trigger] self.entries@[j].version@ == version@
                        && self.entries@[j].function@ == f by {
                    if !before.contains(f) {
                        assert(self.entries@[i as int].function@ == f);
                    }
                }
            }
            i = i + 1;
        }
        let r = set.to_vec();
        proof {
            assert(set@ =~= functions_in(self@, version@)) by {
                assert forall|f| set@.contains(f) implies functions_in(self@, version@).contains(f) by {
                    let j = choose|j: int|
                        0 <= j < self.entries@.len() && #[trigger] self.entries@[j].version@ == version@
                            && self.entries@[j].function@ == f;
                    assert(self@.contains(self.entries@[j].key()));
                }
                assert forall|f| functions_in(self@, version@).contains(f) implies set@.contains(f) by {
                    let p = choose|p: Seq<char>| self@.contains((version@, f, p));
                    let j = choose|j: int|
                        0 <= j < self.entries@.len() && #[trigger] self.entries@[j].key() == (version@, f, p);
                    assert(self.entries@[j].version@ == version@);
                }
            }
        }
        r
    }

    /// The distinct files in which `function` needs version `version`.
    pub fn files_of(&self, version: &String, function: &String) -> (r: Vec<String>)
        ensures
            views(r@).no_duplicates(),
            members(r@) == files_in(self@, version@, function@),
    {
        let mut set = StrSet::new();
        let mut i: usize = 0;
        while i < self.entries.len()
            invariant
                i <= self.entries@.len(),
                set.wf(),
                set@ == Set::new(
                    |p: Seq<char>|
                        exists|j: int|
                            0 <= j < i && #[trigger] self.entries@[j].key() == (version@, function@, p),
                ),
            decreases self.entries@.len() - i,
        {
            let ghost before = set@;
            if self.entries[i].version == *version && self.entries[i].function == *function {
                set.insert(self.entries[i].file.clone());
            }
            assert(set@ =~= Set::new(
                |p: Seq<char>|
                    exists|j: int|
                        0 <= j < i + 1 && #[trigger] self.entries@[j].key() == (version@, function@, p),
            )) by {
                assert forall|p| set@.contains(p) implies exists|j: int|
                    0 <= j < i + 1 && #[trigger] self.entries@[j].key() == (version@, function@, p) by {
                    if !before.contains(p) {
                        assert(self.entries@[i as int].key() == (version@, function@, p));
                    }
                }
                assert forall|p| (exists|j: int|
                    0 <= j < i + 1 && #[trigger] self.entries@[j].key() == (version@, function@, p)) implies set@.contains(p) by {
                    let j = choose|j: int|
                        0 <= j < i + 1 && #[trigger] self.entries@[j].key() == (version@, function@, p);
                    if j < i {
                        assert(before.contains(p));
                    }
                }
            }
            i = i + 1;
        }
        let r = set.to_vec();
        proof {
            assert(set@ =~= files_in(self@, version@, function@));
        }
        r
    }
}

/// `x` may still be picked after `out`: it is lower than all picked so far.
pub open spec fn below_all(out: Seq<String>, x: Seq<char>) -> bool {
    out.len() == 0 || lex_lt(x, out.last()@)
}

/// Strictly descending strings hold no string twice.
proof fn lemma_descending_distinct(out: Seq<String>)
    requires
        forall|i: int, j: int| 0 <= i < j < out.len() ==> lex_lt(#[trigger] out[j]@, #[trigger] out[i]@),
    ensures
        views(out).no_duplicates(),
{
    assert forall|i: int, j: int| 0 <= i < views(out).len() && 0 <= j < views(out).len() && i != j
        implies views(out)[i] != views(out)[j] by {
        lemma_lex_total(out[i]@, out[j]@);
        lemma_lex_total(out[j]@, out[i]@);
    }
}

impl RequirementTable {
    /// The `n` highest versions, highest first, compared as plain strings
    /// (so `"2.4"` ranks above `"2.17"`).
    pub fn select_top_n(&self, n: usize) -> (r: Vec<String>)
        ensures
            is_top_n(versions_in(self@), n as nat, views(r@)),
    {
        let vs = self.versions();
        let ghost s = versions_in(self@);
        proof {
            lemma_members(vs@);
        }
        let mut out: Vec<String> = Vec::new();
        while out.len() < n
            invariant
                views(vs@).no_duplicates(),
                members(vs@) == s,
                s.finite(),
                s.len() == vs@.len(),
                out@.len() <= n,
                forall|i: int| 0 <= i < out@.len() ==> s.contains(#[trigger] out@[i]@),
                forall|i: int, j: int|
                    0 <= i < j < out@.len() ==> lex_lt(#[trigger] out@[j]@, #[trigger] out@[i]@),
                forall|v: Seq<char>, k: int|
                    s.contains(v) && !views(out@).contains(v) && 0 <= k < out@.len() ==> #[trigger] lex_lt(
                        v,
                        out@[k]@,
                    ),
            ensures
                out@.len() < n ==> forall|v: Seq<char>| s.contains(v) ==> views(out@).contains(v),
            decreases n - out@.len(),
        {
            let mut best: Option<usize> = None;
            let mut j: usize = 0;
            while j < vs.len()
                invariant
                    j <= vs@.len(),
                    views(vs@).no_duplicates(),
                    forall|t: int|
                        0 <= t < j && below_all(out@, #[trigger] vs@[t]@) ==> match best {
                            Some(b) => vs@[t]@ == vs@[b as int]@ || lex_lt(vs@[t]@, vs@[b as int]@),
                            None => false,
                        },
                    match best {
                        Some(b) => b < j && below_all(out@, vs@[b as int]@),
                        None => true,
                    },
                decreases vs@.len() - j,
            {
                let x = &vs[j];
                let c = out.len() == 0 || str_less(x, &out[out.len() - 1]);
                if c {
                    match best {
                        None => {
                            best = Some(j);
                        },
                        Some(b) => {
                            if str_less(&vs[b], x) {
                                proof {
                                    assert forall|t: int|
                                        0 <= t < j && below_all(out@, #[trigger] vs@[t]@) implies vs@[t]@
                                        == x@ || lex_lt(vs@[t]@, x@) by {
                                        if vs@[t]@ != vs@[b as int]@ {
                                            lemma_lex_trans(vs@[t]@, vs@[b as int]@, x@);
                                        }
                                    }
                                }
                                best = Some(j);
                            } else {
                                proof {
                                    lemma_lex_total(x@, vs@[b as int]@);
                                    assert(vs@[b as int]@ != x@) by {
                                        assert(views(vs@)[b as int] != views(vs@)[j as int]);
                                    }
                                }
                            }
                        },
                    }
                }
                j = j + 1;
            }
            match best {
                None => {
                    proof {
                        assert forall|v: Seq<char>| s.contains(v) implies views(out@).contains(v) by {
                            let t = choose|t: int| 0 <= t < vs@.len() && #[trigger] vs@[t]@ == v;
                            if !views(out@).contains(v) && out@.len() > 0 {
                                assert(lex_lt(v, out@[out@.len() - 1]@));
                            }
                        }
                    }
                    break;
                },
                Some(b) => {
                    let ghost prev = out@;
                    let m = vs[b].clone();
                    proof {
                        assert(members(vs@).contains(vs@[b as int]@));
                        assert forall|i: int| 0 <= i < prev.len() implies #[trigger] lex_lt(m@, prev[i]@) by {
                            if i < prev.len() - 1 {
                                lemma_lex_trans(m@, prev.last()@, prev[i]@);
                            }
                        }
                    }
                    out.push(m);
                    proof {
                        assert(views(out@) =~= views(prev).push(m@));
                        assert forall|v: Seq<char>, k: int|
                            s.contains(v) && !views(out@).contains(v) && 0 <= k < out@.len() implies #[trigger] lex_lt(
                            v,
                            out@[k]@,
                        ) by {
                            if views(prev).contains(v) {
                                let i = choose|i: int| 0 <= i < views(prev).len() && views(prev)[i] == v;
                                assert(views(out@)[i] == v);
                            }
                            if k == prev.len() {
                                let t = choose|t: int| 0 <= t < vs@.len() && #[trigger] vs@[t]@ == v;
                                if prev.len() > 0 {
                                    assert(lex_lt(v, prev[prev.len() - 1]@));
                                }
                                assert(below_all(prev, vs@[t]@));
                                assert(views(out@)[prev.len() as int] == out@[k]@);
                                assert(out@[k]@ == vs@[b as int]@);
                            } else {
                                assert(out@[k] == prev[k]);
                            }
                        }
                    }
                },
            }
        }
        proof {
            lemma_descending_distinct(out@);
            lemma_members(out@);
            assert(members(out@).subset_of(s)) by {
                assert forall|v| members(out@).contains(v) implies s.contains(v) by {
                    let i = choose|i: int| 0 <= i < out@.len() && #[trigger] out@[i]@ == v;
                }
            }
            lemma_len_subset(members(out@), s);
            if out@.len() < n {
                assert forall|v| s.contains(v) implies members(out@).contains(v) by {
                    assert(views(out@).contains(v));
                    let i = choose|i: int| 0 <= i < views(out@).len() && views(out@)[i] == v;
                    assert(out@[i]@ == v);
                }
                assert(members(out@) =~= s);
            }
            assert forall|v: Seq<char>, k: int|
                s.contains(v) && !views(out@).contains(v) && 0 <= k < views(out@).len() implies #[trigger] lex_lt(
                v,
                views(out@)[k],
            ) by {
                assert(views(out@)[k] == out@[k]@);
            }
        }
        out
    }
}

} // verus!
