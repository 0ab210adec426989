//! The resolved dependency graph and the walk that collects, under path
//! scopes, the library files still to be scanned.
use vstd::prelude::*;
use crate::errors::{ErrorKind, ErrorMap};
use crate::sets::{StrSet, views};

verus! {

/// Whether `base` is a prefix of `path`, compared as file system paths.
pub uninterp spec fn path_prefix(path: Seq<char>, base: Seq<char>) -> bool;

/// Relies on std::path::Path::starts_with: whether `base` is a prefix of
/// `path`, component by component; the answer depends on the two strings alone.
#[verifier::external_body]
fn path_starts_with(path: &String, base: &String) -> (r: bool)
    ensures
        r == path_prefix(path@, base@),
{
    std::path::Path::new(path.as_str()).starts_with(base.as_str())
}

/// One library as the resolver knows it.
pub struct LibraryNode {
    /// How the library is referred to in a needed-library list.
    pub name: String,
    /// The path as recorded at link time.
    pub declared_path: String,
    /// Where the library was found on disk, if it was.
    pub resolved_path: Option<String>,
    /// The names of the libraries it needs itself.
    pub needed: Vec<String>,
}

/// The libraries that a resolver found, looked up by name.
pub struct DependencyGraph {
    pub libraries: Vec<LibraryNode>,
}

/// The first library of `g` called `name`.
pub open spec fn lookup_spec(g: Seq<LibraryNode>, name: Seq<char>) -> Option<int> {
    if exists|i: int| 0 <= i < g.len() && #[trigger] g[i].name@ == name {
        Some(
            choose|i: int|
                0 <= i < g.len() && #[trigger] g[i].name@ == name && forall|j: int|
                    0 <= j < i ==> g[j].name@ != name,
        )
    } else {
        None
    }
}

/// A path lies under at least one of the scopes.
pub open spec fn in_scope(path: Seq<char>, scopes: Seq<Seq<char>>) -> bool {
    exists|i: int| 0 <= i < scopes.len() && path_prefix(path, #[trigger] scopes[i])
}

/// Some library that the record `t` marks as expanded has location `p`.
pub open spec fn expanded_at(g: Seq<LibraryNode>, t: Seq<bool>, p: Seq<char>) -> bool {
    exists|n: int|
        0 <= n < g.len() && #[trigger] t[n] && match g[n].resolved_path {
            Some(s) => s@ == p,
            None => false,
        }
}

/// The library called `name` has been dealt with in this state, by a walk
/// that started from the visited set `v0`: it is unknown; or it has no
/// location, its declared path is failing and names `referenced_by`; or it
/// is in scope, its file is visited, and unless it was visited before the
/// walk a library with that file has been expanded; or it is out of scope and
/// has been expanded.
pub open spec fn handled(
    g: Seq<LibraryNode>,
    scopes: Seq<Seq<char>>,
    referenced_by: Seq<char>,
    v0: Set<Seq<char>>,
    name: Seq<char>,
    visited: Set<Seq<char>>,
    expanded: Seq<bool>,
    refs: Set<(Seq<char>, Seq<char>)>,
    failing: Set<Seq<char>>,
) -> bool {
    match lookup_spec(g, name) {
        None => true,
        Some(m) => match g[m].resolved_path {
            None => refs.contains((g[m].declared_path@, referenced_by)) && failing.contains(
                g[m].declared_path@,
            ),
            Some(p) => if in_scope(p@, scopes) {
                visited.contains(p@) && (v0.contains(p@) || expanded_at(g, expanded, p@))
            } else {
                expanded[m]
            },
        },
    }
}

/// Every library that node `n` needs has been dealt with.
pub open spec fn closed(
    g: Seq<LibraryNode>,
    scopes: Seq<Seq<char>>,
    referenced_by: Seq<char>,
    v0: Set<Seq<char>>,
    n: int,
    visited: Set<Seq<char>>,
    expanded: Seq<bool>,
    refs: Set<(Seq<char>, Seq<char>)>,
    failing: Set<Seq<char>>,
) -> bool {
    forall|k: int|
        0 <= k < g[n].needed@.len() ==> handled(
            g,
            scopes,
            referenced_by,
            v0,
            #[trigger] g[n].needed@[k]@,
            visited,
            expanded,
            refs,
            failing,
        )
}

/// Library `a` has a location and `b` is among those that it needs.
#[verifier::opaque]
pub open spec fn step(g: Seq<LibraryNode>, a: int, b: int) -> bool {
    0 <= a < g.len() && g[a].resolved_path is Some && exists|k: int|
        0 <= k < g[a].needed@.len() && lookup_spec(g, #[trigger] g[a].needed@[k]@) == Some(b)
}

/// Library `n` is the one called `start` or one that it needs, directly or
/// through other libraries that have a location.
#[verifier::opaque]
pub open spec fn reachable(g: Seq<LibraryNode>, start: Seq<char>, n: int) -> bool {
    exists|p: Seq<int>|
        p.len() >= 1 && lookup_spec(g, start) == Some(p[0]) && p.last() == n && forall|i: int|
            0 <= i < p.len() - 1 ==> step(g, #[trigger] p[i], p[i + 1])
}

/// A path is the in-scope location of a library reachable from `start`.
pub open spec fn located(g: Seq<LibraryNode>, scopes: Seq<Seq<char>>, start: Seq<char>, p: Seq<char>) -> bool {
    in_scope(p, scopes) && exists|i: int|
        0 <= i < g.len() && reachable(g, start, i) && match #[trigger] g[i].resolved_path {
            Some(s) => s@ == p,
            None => false,
        }
}

/// An error entry that the walk may add: a library reachable from `start`
/// without a location, named for `referenced_by`.
pub open spec fn missing_entry(
    g: Seq<LibraryNode>,
    start: Seq<char>,
    referenced_by: Seq<char>,
    e: (Seq<char>, Seq<char>),
) -> bool {
    e.1 == referenced_by && exists|i: int|
        0 <= i < g.len() && reachable(g, start, i) && #[trigger] g[i].resolved_path is None
            && g[i].declared_path@ == e.0
}

/// A kind that the walk may add: not found, on the declared path of a
/// library reachable from `start` that has no location.
pub open spec fn missing_kind(g: Seq<LibraryNode>, start: Seq<char>, e: (Seq<char>, ErrorKind)) -> bool {
    e.1 == ErrorKind::NotFound && exists|i: int|
        0 <= i < g.len() && reachable(g, start, i) && #[trigger] g[i].resolved_path is None
            && g[i].declared_path@ == e.0
}

proof fn lemma_reach_start(g: Seq<LibraryNode>, start: Seq<char>, m: int)
    requires
        lookup_spec(g, start) == Some(m),
    ensures
        reachable(g, start, m),
{
    reveal(reachable);
    let p = seq![m];
    assert(p.last() == m);
}

proof fn lemma_reach_step(g: Seq<LibraryNode>, start: Seq<char>, a: int, k: int, c: int)
    requires
        reachable(g, start, a),
        0 <= a < g.len(),
        g[a].resolved_path is Some,
        0 <= k < g[a].needed@.len(),
        lookup_spec(g, g[a].needed@[k]@) == Some(c),
    ensures
        reachable(g, start, c),
{
    reveal(reachable);
    let p = choose|p: Seq<int>|
        p.len() >= 1 && lookup_spec(g, start) == Some(p[0]) && p.last() == a && forall|i: int|
            0 <= i < p.len() - 1 ==> step(g, #[trigger] p[i], p[i + 1]);
    let q = p.push(c);
    assert(step(g, a, c)) by {
        reveal(step);
        assert(lookup_spec(g, g[a].needed@[k]@) == Some(c));
    }
    assert forall|i: int| 0 <= i < q.len() - 1 implies step(g, #[trigger] q[i], q[i + 1]) by {
        if i < p.len() - 1 {
            assert(q[i] == p[i] && q[i + 1] == p[i + 1]);
        } else {
            assert(q[i] == a && q[i + 1] == c);
        }
    }
    assert(q[0] == p[0]);
    assert(q.last() == c);
}

/// Number of libraries not yet expanded.
pub open spec fn count_false(s: Seq<bool>) -> nat
    decreases s.len(),
{
    if s.len() == 0 {
        0
    } else {
        (if s.last() { 0nat } else { 1nat }) + count_false(s.drop_last())
    }
}

proof fn lemma_count_update(s: Seq<bool>, i: int)
    requires
        0 <= i < s.len(),
        !s[i],
    ensures
        count_false(s.update(i, true)) + 1 == count_false(s),
    decreases s.len(),
{
    if i == s.len() - 1 {
        assert(s.update(i, true).drop_last() =~= s.drop_last());
    } else {
        assert(s.update(i, true).drop_last() =~= s.drop_last().update(i, true));
        lemma_count_update(s.drop_last(), i);
    }
}

proof fn lemma_count_grows(s: Seq<bool>, t: Seq<bool>)
    requires
        s.len() == t.len(),
        forall|n: int| 0 <= n < s.len() && s[n] ==> t[n],
    ensures
        count_false(t) <= count_false(s),
    decreases s.len(),
{
    if s.len() > 0 {
        lemma_count_grows(s.drop_last(), t.drop_last());
    }
}

proof fn lemma_first_exists(g: Seq<LibraryNode>, name: Seq<char>, i: int)
    requires
        0 <= i < g.len(),
        g[i].name@ == name,
    ensures
        exists|c: int|
            0 <= c < g.len() && #[trigger] g[c].name@ == name && forall|j: int|
                0 <= j < c ==> g[j].name@ != name,
    decreases i,
{
    if exists|j: int| 0 <= j < i && g[j].name@ == name {
        let j = choose|j: int| 0 <= j < i && g[j].name@ == name;
        lemma_first_exists(g, name, j);
    } else {
        assert(g[i].name@ == name);
    }
}

/// What a lookup finds: the first library of that name.
pub proof fn lemma_lookup(g: Seq<LibraryNode>, name: Seq<char>)
    ensures
        match lookup_spec(g, name) {
            Some(m) => 0 <= m < g.len() && g[m].name@ == name && forall|j: int|
                0 <= j < m ==> g[j].name@ != name,
            None => forall|i: int| 0 <= i < g.len() ==> g[i].name@ != name,
        },
{
    if exists|i: int| 0 <= i < g.len() && #[trigger] g[i].name@ == name {
        let i = choose|i: int| 0 <= i < g.len() && #[trigger] g[i].name@ == name;
        lemma_first_exists(g, name, i);
    }
}

/// Dealt-with stays dealt-with as the state grows.
proof fn lemma_handled_grows(
    g: Seq<LibraryNode>,
    scopes: Seq<Seq<char>>,
    referenced_by: Seq<char>,
    v0: Set<Seq<char>>,
    name: Seq<char>,
    v1: Set<Seq<char>>,
    e1: Seq<bool>,
    r1: Set<(Seq<char>, Seq<char>)>,
    f1: Set<Seq<char>>,
    v2: Set<Seq<char>>,
    e2: Seq<bool>,
    r2: Set<(Seq<char>, Seq<char>)>,
    f2: Set<Seq<char>>,
)
    requires
        handled(g, scopes, referenced_by, v0, name, v1, e1, r1, f1),
        v1.subset_of(v2),
        r1.subset_of(r2),
        f1.subset_of(f2),
        e1.len() == g.len(),
        e2.len() == e1.len(),
        forall|n: int| 0 <= n < e1.len() && e1[n] ==> e2[n],
    ensures
        handled(g, scopes, referenced_by, v0, name, v2, e2, r2, f2),
{
    lemma_lookup(g, name);
    if let Some(m) = lookup_spec(g, name) {
        if let Some(p) = g[m].resolved_path {
            if in_scope(p@, scopes) && !v0.contains(p@) {
                let n = choose|n: int|
                    0 <= n < g.len() && #[trigger] e1[n] && match g[n].resolved_path {
                        Some(s) => s@ == p@,
                        None => false,
                    };
                assert(e2[n]);
            }
        }
    }
}

impl DependencyGraph {
    /// The index of the first library called `name`.
    pub fn lookup(&self, name: &String) -> (r: Option<usize>)
        ensures
            match r {
                Some(i) => lookup_spec(self.libraries@, name@) == Some(i as int),
                None => lookup_spec(self.libraries@, name@) is None,
            },
    {
        let mut i: usize = 0;
        while i < self.libraries.len()
            invariant
                i <= self.libraries@.len(),
                forall|j: int| 0 <= j < i ==> self.libraries@[j].name@ != name@,
            decreases self.libraries@.len() - i,
        {
            if self.libraries[i].name == *name {
                proof {
                    lemma_lookup(self.libraries@, name@);
                    let m = lookup_spec(self.libraries@, name@)->Some_0;
                    assert(m == i) by {
                        if m > i {
                            assert(self.libraries@[i as int].name@ == name@);
                        }
                    }
                }
                return Some(i);
            }
            i = i + 1;
        }
        proof {
            lemma_lookup(self.libraries@, name@);
        }
        None
    }
}

/// Node `n` has a location, and in scope that location is visited.
pub open spec fn expanded_ok(g: Seq<LibraryNode>, scopes: Seq<Seq<char>>, n: int, visited: Set<Seq<char>>) -> bool {
    match g[n].resolved_path {
        Some(p) => in_scope(p@, scopes) ==> visited.contains(p@),
        None => false,
    }
}

proof fn lemma_closed_grows(
    g: Seq<LibraryNode>,
    scopes: Seq<Seq<char>>,
    referenced_by: Seq<char>,
    v0: Set<Seq<char>>,
    n: int,
    v1: Set<Seq<char>>,
    e1: Seq<bool>,
    r1: Set<(Seq<char>, Seq<char>)>,
    f1: Set<Seq<char>>,
    v2: Set<Seq<char>>,
    e2: Seq<bool>,
    r2: Set<(Seq<char>, Seq<char>)>,
    f2: Set<Seq<char>>,
)
    requires
        0 <= n < g.len(),
        closed(g, scopes, referenced_by, v0, n, v1, e1, r1, f1),
        v1.subset_of(v2),
        r1.subset_of(r2),
        f1.subset_of(f2),
        e1.len() == g.len(),
        e2.len() == e1.len(),
        forall|m: int| 0 <= m < e1.len() && e1[m] ==> e2[m],
    ensures
        closed(g, scopes, referenced_by, v0, n, v2, e2, r2, f2),
{
    assert forall|k: int| 0 <= k < g[n].needed@.len() implies handled(
        g,
        scopes,
        referenced_by,
        v0,
        #[trigger] g[n].needed@[k]@,
        v2,
        e2,
        r2,
        f2,
    ) by {
        lemma_handled_grows(g, scopes, referenced_by, v0, g[n].needed@[k]@, v1, e1, r1, f1, v2, e2, r2, f2);
    }
}

/// One step of the walk: deals with the library called `name`, and with
/// what it needs in turn.
fn visit(
    referenced_by: &String,
    name: &String,
    g: &DependencyGraph,
    scopes: &Vec<String>,
    visited: &mut StrSet,
    out: &mut StrSet,
    expanded: &mut Vec<bool>,
    errors: &mut ErrorMap,
    Ghost(v0): Ghost<Set<Seq<char>>>,
    Ghost(start): Ghost<Seq<char>>,
)
    requires
        match lookup_spec(g.libraries@, name@) {
            Some(m) => reachable(g.libraries@, start, m),
            None => true,
        },
        old(visited).wf(),
        old(out).wf(),
        old(errors).wf(),
        old(expanded)@.len() == g.libraries@.len(),
        old(visited)@ == v0 + old(out)@,
        v0.disjoint(old(out)@),
        forall|p: Seq<char>| old(out)@.contains(p) ==> located(g.libraries@, views(scopes@), start, p),
        forall|p: Seq<char>| old(out)@.contains(p) ==> expanded_at(g.libraries@, old(expanded)@, p),
        forall|n: int|
            0 <= n < g.libraries@.len() && #[trigger] old(expanded)@[n] ==> expanded_ok(
                g.libraries@,
                views(scopes@),
                n,
                old(visited)@,
            ),
    ensures
        final(visited).wf(),
        final(out).wf(),
        final(errors).wf(),
        final(expanded)@.len() == old(expanded)@.len(),
        forall|n: int| 0 <= n < old(expanded)@.len() && #[trigger] old(expanded)@[n] ==> final(expanded)@[n],
        count_false(final(expanded)@) <= count_false(old(expanded)@),
        final(visited)@ == v0 + final(out)@,
        v0.disjoint(final(out)@),
        old(visited)@.subset_of(final(visited)@),
        forall|p: Seq<char>| final(out)@.contains(p) ==> located(g.libraries@, views(scopes@), start, p),
        forall|p: Seq<char>| final(out)@.contains(p) ==> expanded_at(g.libraries@, final(expanded)@, p),
        forall|n: int|
            0 <= n < g.libraries@.len() && #[trigger] final(expanded)@[n] ==> expanded_ok(
                g.libraries@,
                views(scopes@),
                n,
                final(visited)@,
            ),
        old(errors).kinds().subset_of(final(errors).kinds()),
        old(errors).referrers().subset_of(final(errors).referrers()),
        forall|e: (Seq<char>, Seq<char>)|
            #[trigger] final(errors).referrers().contains(e) && !old(errors).referrers().contains(e)
                ==> missing_entry(g.libraries@, start, referenced_by@, e),
        forall|e: (Seq<char>, Seq<char>)|
            #[trigger] final(errors).referrers().contains(e) && !old(errors).referrers().contains(e)
                ==> final(errors).failing().contains(e.0),
        forall|e: (Seq<char>, ErrorKind)|
            #[trigger] final(errors).kinds().contains(e) && !old(errors).kinds().contains(e) ==> missing_kind(
                g.libraries@,
                start,
                e,
            ),
        handled(
            g.libraries@,
            views(scopes@),
            referenced_by@,
            v0,
            name@,
            final(visited)@,
            final(expanded)@,
            final(errors).referrers(),
            final(errors).failing(),
        ),
        forall|n: int|
            0 <= n < g.libraries@.len() && #[trigger] final(expanded)@[n] && !old(expanded)@[n] ==> closed(
                g.libraries@,
                views(scopes@),
                referenced_by@,
                v0,
                n,
                final(visited)@,
                final(expanded)@,
                final(errors).referrers(),
                final(errors).failing(),
            ),
    decreases count_false(old(expanded)@),
{
    let ghost gs = g.libraries@;
    let ghost sc = views(scopes@);
    let found = g.lookup(name);
    proof {
        lemma_lookup(gs, name@);
    }
    let idx = match found {
        None => {
            return ;
        },
        Some(i) => i,
    };
    if expanded[idx] {
        proof {
            assert(expanded_ok(gs, sc, idx as int, visited@));
            if let Some(p) = gs[idx as int].resolved_path {
                assert(expanded_at(gs, expanded@, p@));
            }
        }
        return ;
    }
    let node = &g.libraries[idx];
    match &node.resolved_path {
        None => {
            errors.record(node.declared_path.clone(), ErrorKind::NotFound, referenced_by.clone());
            proof {
                assert(missing_entry(gs, start, referenced_by@, (node.declared_path@, referenced_by@)));
                assert(missing_kind(gs, start, (node.declared_path@, ErrorKind::NotFound)));
            }
            return ;
        },
        Some(p) => {
            if path_in_scope(p, scopes) {
                if visited.contains(p) {
                    proof {
                        if !v0.contains(p@) {
                            assert(out@.contains(p@));
                        }
                    }
                    return ;
                }
                proof {
                    assert(located(gs, sc, start, p@));
                }
                visited.insert(p.clone());
                out.insert(p.clone());
                proof {
                    assert(visited@ =~= v0 + out@);
                }
            }
            proof {
                lemma_count_update(expanded@, idx as int);
            }
            let ghost e_before = expanded@;
            expanded.set(idx, true);
            proof {
                assert(expanded@[idx as int]);
                assert(gs[idx as int] == *node);
                assert(match gs[idx as int].resolved_path {
                    Some(s) => s@ == p@,
                    None => false,
                });
                assert(expanded_at(gs, expanded@, p@));
                assert forall|q: Seq<char>| out@.contains(q) implies expanded_at(gs, expanded@, q) by {
                    if q != p@ {
                        assert(expanded_at(gs, e_before, q));
                        let n = choose|n: int|
                            0 <= n < gs.len() && #[trigger] e_before[n] && match gs[n].resolved_path {
                                Some(s) => s@ == q,
                                None => false,
                            };
                        assert(expanded@[n]);
                    }
                }
            }
            let mut i: usize = 0;
            while i < node.needed.len()
                invariant
                    0 <= i <= node.needed@.len(),
                    *node == gs[idx as int],
                    gs[idx as int].resolved_path == Some(*p),
                    gs == g.libraries@,
                    sc == views(scopes@),
                    0 <= idx < gs.len(),
                    visited.wf(),
                    out.wf(),
                    errors.wf(),
                    expanded@.len() == gs.len(),
                    old(expanded)@.len() == gs.len(),
                    forall|n: int| 0 <= n < old(expanded)@.len() && #[trigger] old(expanded)@[n] ==> expanded@[n],
                    expanded@[idx as int],
                    !old(expanded)@[idx as int],
                    count_false(expanded@) < count_false(old(expanded)@),
                    visited@ == v0 + out@,
                    v0.disjoint(out@),
                    old(visited)@.subset_of(visited@),
                    forall|q: Seq<char>| out@.contains(q) ==> located(gs, sc, start, q),
                    forall|q: Seq<char>| out@.contains(q) ==> expanded_at(gs, expanded@, q),
                    reachable(gs, start, idx as int),
                    forall|n: int| 0 <= n < gs.len() && #[trigger] expanded@[n] ==> expanded_ok(gs, sc, n, visited@),
                    old(errors).kinds().subset_of(errors.kinds()),
                    old(errors).referrers().subset_of(errors.referrers()),
                    forall|e: (Seq<char>, Seq<char>)|
                        #[trigger] errors.referrers().contains(e) && !old(errors).referrers().contains(e)
                            ==> missing_entry(gs, start, referenced_by@, e),
                    forall|e: (Seq<char>, Seq<char>)|
                        #[trigger] errors.referrers().contains(e) && !old(errors).referrers().contains(e)
                            ==> errors.failing().contains(e.0),
                    forall|e: (Seq<char>, ErrorKind)|
                        #[trigger] errors.kinds().contains(e) && !old(errors).kinds().contains(e) ==> missing_kind(
                            gs,
                            start,
                            e,
                        ),
                    forall|k: int|
                        0 <= k < i ==> handled(
                            gs,
                            sc,
                            referenced_by@,
                            v0,
                            #[trigger] gs[idx as int].needed@[k]@,
                            visited@,
                            expanded@,
                            errors.referrers(),
                            errors.failing(),
                        ),
                    forall|n: int|
                        0 <= n < gs.len() && #[trigger] expanded@[n] && !old(expanded)@[n] && n != idx ==> closed(
                            gs,
                            sc,
                            referenced_by@,
                            v0,
                            n,
                            visited@,
                            expanded@,
                            errors.referrers(),
                            errors.failing(),
                        ),
                decreases node.needed@.len() - i,
            {
                let ghost v1 = visited@;
                let ghost e1 = expanded@;
                let ghost r1 = errors.referrers();
                let ghost k1 = errors.kinds();
                let ghost f1 = errors.failing();
                proof {
                    lemma_lookup(gs, gs[idx as int].needed@[i as int]@);
                    if let Some(c) = lookup_spec(gs, gs[idx as int].needed@[i as int]@) {
                        lemma_reach_step(gs, start, idx as int, i as int, c);
                    }
                }
                visit(
                    referenced_by,
                    &node.needed[i],
                    g,
                    scopes,
                    visited,
                    out,
                    expanded,
                    errors,
                    Ghost(v0),
                    Ghost(start),
                );
                proof {
                    let ghost f2 = errors.failing();
                    assert(f1.subset_of(f2)) by {
                        assert forall|q: Seq<char>| f1.contains(q) implies f2.contains(q) by {
                            let k = choose|k: ErrorKind| k1.contains((q, k));
                            assert(errors.kinds().contains((q, k)));
                        }
                    }
                    lemma_count_grows(e1, expanded@);
                    assert forall|n: int| 0 <= n < old(expanded)@.len() && #[trigger] old(expanded)@[n] implies expanded@[n] by {
                        assert(e1[n]);
                    }
                    assert forall|k: int| 0 <= k < i implies handled(
                        gs,
                        sc,
                        referenced_by@,
                        v0,
                        #[trigger] gs[idx as int].needed@[k]@,
                        visited@,
                        expanded@,
                        errors.referrers(),
                        errors.failing(),
                    ) by {
                        lemma_handled_grows(gs, sc, referenced_by@, v0, gs[idx as int].needed@[k]@, v1, e1, r1, f1, visited@, expanded@, errors.referrers(), f2);
                    }
                    assert forall|n: int|
                        0 <= n < gs.len() && #[trigger] expanded@[n] && !old(expanded)@[n] && n != idx
                            implies closed(gs, sc, referenced_by@, v0, n, visited@, expanded@, errors.referrers(), errors.failing()) by {
                        if e1[n] {
                            lemma_closed_grows(gs, sc, referenced_by@, v0, n, v1, e1, r1, f1, visited@, expanded@, errors.referrers(), f2);
                        }
                    }
                    assert forall|e: (Seq<char>, Seq<char>)|
                        #[trigger] errors.referrers().contains(e) && !old(errors).referrers().contains(e)
                            implies missing_entry(gs, start, referenced_by@, e) by {
                        if r1.contains(e) {
                        }
                    }
                    assert forall|e: (Seq<char>, Seq<char>)|
                        #[trigger] errors.referrers().contains(e) && !old(errors).referrers().contains(e)
                            implies errors.failing().contains(e.0) by {
                        if r1.contains(e) {
                            assert(f1.contains(e.0));
                        }
                    }
                    assert forall|e: (Seq<char>, ErrorKind)|
                        #[trigger] errors.kinds().contains(e) && !old(errors).kinds().contains(e) implies missing_kind(gs, start, e) by {
                        if k1.contains(e) {
                        }
                    }
                }
                i = i + 1;
            }
            proof {
                assert(expanded@[idx as int]);
                assert(match gs[idx as int].resolved_path {
                    Some(s) => s@ == p@,
                    None => false,
                });
                assert(expanded_at(gs, expanded@, p@));
            }
        },
    }
}

/// The walk from `name`, which started from the visited set `v0`, is
/// complete in this state: some record `t` of expanded libraries has every
/// expanded library located (and visited, in scope) with all its needs dealt
/// with, every file that entered visited in the walk expanded, and `name`
/// itself dealt with.
pub open spec fn walk_complete(
    g: Seq<LibraryNode>,
    scopes: Seq<Seq<char>>,
    referenced_by: Seq<char>,
    v0: Set<Seq<char>>,
    name: Seq<char>,
    visited: Set<Seq<char>>,
    refs: Set<(Seq<char>, Seq<char>)>,
    failing: Set<Seq<char>>,
) -> bool {
    exists|t: Seq<bool>|
        t.len() == g.len() && handled(g, scopes, referenced_by, v0, name, visited, t, refs, failing)
            && (forall|p: Seq<char>| visited.contains(p) && !v0.contains(p) ==> expanded_at(g, t, p))
            && forall|n: int|
            0 <= n < g.len() && #[trigger] t[n] ==> expanded_ok(g, scopes, n, visited) && closed(
                g,
                scopes,
                referenced_by,
                v0,
                n,
                visited,
                t,
                refs,
                failing,
            )
}

/// Collects the files to scan for the library called `library_name`, needed
/// by `referenced_by`: the in-scope locations of it and of what it needs,
/// directly or through other located libraries, that no earlier walk of the
/// run visited. Libraries out of scope are not collected but their needs are
/// walked; libraries without a location are recorded as not found and not
/// walked further; an unknown name is skipped.
pub fn collect(
    referenced_by: &String,
    library_name: &String,
    graph: &DependencyGraph,
    scopes: &Vec<String>,
    visited: &mut StrSet,
    errors: &mut ErrorMap,
) -> (r: StrSet)
    requires
        old(visited).wf(),
        old(errors).wf(),
    ensures
        r.wf(),
        final(visited).wf(),
        final(errors).wf(),
        final(visited)@ == old(visited)@ + r@,
        old(visited)@.disjoint(r@),
        forall|p: Seq<char>| r@.contains(p) ==> located(graph.libraries@, views(scopes@), library_name@, p),
        old(errors).kinds().subset_of(final(errors).kinds()),
        old(errors).referrers().subset_of(final(errors).referrers()),
        forall|e: (Seq<char>, Seq<char>)|
            #[trigger] final(errors).referrers().contains(e) && !old(errors).referrers().contains(e)
                ==> missing_entry(graph.libraries@, library_name@, referenced_by@, e),
        forall|e: (Seq<char>, Seq<char>)|
            #[trigger] final(errors).referrers().contains(e) && !old(errors).referrers().contains(e)
                ==> final(errors).failing().contains(e.0),
        forall|e: (Seq<char>, ErrorKind)|
            #[trigger] final(errors).kinds().contains(e) && !old(errors).kinds().contains(e) ==> missing_kind(
                graph.libraries@,
                library_name@,
                e,
            ),
        walk_complete(
            graph.libraries@,
            views(scopes@),
            referenced_by@,
            old(visited)@,
            library_name@,
            final(visited)@,
            final(errors).referrers(),
            final(errors).failing(),
        ),
{
    let mut expanded: Vec<bool> = Vec::new();
    let mut i: usize = 0;
    while i < graph.libraries.len()
        invariant
            i <= graph.libraries@.len(),
            expanded@.len() == i,
            forall|n: int| 0 <= n < i ==> !#[trigger] expanded@[n],
        decreases graph.libraries@.len() - i,
    {
        expanded.push(false);
        i = i + 1;
    }
    let ghost start = expanded@;
    let mut out = StrSet::new();
    assert(visited@ =~= visited@ + out@);
    proof {
        lemma_lookup(graph.libraries@, library_name@);
        if let Some(m) = lookup_spec(graph.libraries@, library_name@) {
            lemma_reach_start(graph.libraries@, library_name@, m);
        }
    }
    visit(
        referenced_by,
        library_name,
        graph,
        scopes,
        visited,
        &mut out,
        &mut expanded,
        errors,
        Ghost(old(visited)@),
        Ghost(library_name@),
    );
    assert(walk_complete(
        graph.libraries@,
        views(scopes@),
        referenced_by@,
        old(visited)@,
        library_name@,
        visited@,
        errors.referrers(),
        errors.failing(),
    )) by {
        assert forall|n: int| 0 <= n < graph.libraries@.len() && #[trigger] expanded@[n] implies !start[n] by {}
        assert forall|p: Seq<char>| visited@.contains(p) && !old(visited)@.contains(p) implies expanded_at(
            graph.libraries@,
            expanded@,
            p,
        ) by {
            assert(out@.contains(p));
        }
    }
    out
}

/// Whether `path` lies under one of `scopes`.
pub fn path_in_scope(path: &String, scopes: &Vec<String>) -> (r: bool)
    ensures
        r == in_scope(path@, views(scopes@)),
{
    let mut i: usize = 0;
    while i < scopes.len()
        invariant
            i <= scopes@.len(),
            forall|j: int| 0 <= j < i ==> !path_prefix(path@, #[trigger] views(scopes@)[j]),
        decreases scopes@.len() - i,
    {
        if path_starts_with(path, &scopes[i]) {
            assert(path_prefix(path@, views(scopes@)[i as int]));
            return true;
        }
        i = i + 1;
    }
    false
}

} // verus!
