//! Properties that relate several calls of the library.
use vstd::prelude::*;
use crate::errors::{ErrorKind, ErrorMap};
use crate::graph::{
    LibraryNode, lookup_spec, in_scope, walk_complete, handled, closed, expanded_ok, expanded_at,
    lemma_lookup, reachable, step, missing_kind,
};
use crate::sets::views;
use crate::scan::{tagged, recorded};
use crate::table::{files_in, is_top_n};
use crate::text::{lex_lt, lemma_lex_total};

verus! {

proof fn lemma_visited_grow(vs: Seq<Set<Seq<char>>>, rs: Seq<Set<Seq<char>>>, a: int, b: int)
    requires
        vs.len() == rs.len() + 1,
        forall|k: int| 0 <= k < rs.len() ==> vs[k + 1] == vs[k] + #[trigger] rs[k],
        0 <= a <= b < vs.len(),
    ensures
        vs[a].subset_of(vs[b]),
    decreases b - a,
{
    if a < b {
        lemma_visited_grow(vs, rs, a, b - 1);
        let r = rs[b - 1];
        assert(vs[b] == vs[b - 1] + r);
    }
}

/// Each file is collected for scanning at most once per run: when the
/// visited set goes from `vs[k]` to `vs[k + 1]` by the files `rs[k]` that
/// the k-th walk collected (as `collect` ensures), no two walks collect the
/// same file.
pub proof fn lemma_scanned_at_most_once(
    vs: Seq<Set<Seq<char>>>,
    rs: Seq<Set<Seq<char>>>,
    i: int,
    j: int,
)
    requires
        vs.len() == rs.len() + 1,
        forall|k: int| 0 <= k < rs.len() ==> vs[k + 1] == vs[k] + #[trigger] rs[k],
        forall|k: int| 0 <= k < rs.len() ==> vs[k].disjoint(#[trigger] rs[k]),
        0 <= i < j < rs.len(),
    ensures
        rs[i].disjoint(rs[j]),
{
    lemma_visited_grow(vs, rs, i + 1, j);
    assert(vs[i + 1] == vs[i] + rs[i]);
    assert(vs[j].disjoint(rs[j]));
}

/// Scope decides what is scanned, not what is walked: when a walk from
/// `name` is complete and `name` is a library outside every scope, each
/// in-scope library that it needs has its file visited.
pub proof fn lemma_walk_passes_out_of_scope(
    g: Seq<LibraryNode>,
    scopes: Seq<Seq<char>>,
    referenced_by: Seq<char>,
    v0: Set<Seq<char>>,
    name: Seq<char>,
    visited: Set<Seq<char>>,
    refs: Set<(Seq<char>, Seq<char>)>,
    failing: Set<Seq<char>>,
    k: int,
)
    requires
        walk_complete(g, scopes, referenced_by, v0, name, visited, refs, failing),
        lookup_spec(g, name) is Some,
        g[lookup_spec(g, name)->Some_0].resolved_path is Some,
        !in_scope(g[lookup_spec(g, name)->Some_0].resolved_path->Some_0@, scopes),
        0 <= k < g[lookup_spec(g, name)->Some_0].needed@.len(),
        lookup_spec(g, g[lookup_spec(g, name)->Some_0].needed@[k]@) is Some,
        g[lookup_spec(g, g[lookup_spec(g, name)->Some_0].needed@[k]@)->Some_0].resolved_path is Some,
        in_scope(
            g[lookup_spec(g, g[lookup_spec(g, name)->Some_0].needed@[k]@)->Some_0].resolved_path->Some_0@,
            scopes,
        ),
    ensures
        visited.contains(
            g[lookup_spec(g, g[lookup_spec(g, name)->Some_0].needed@[k]@)->Some_0].resolved_path->Some_0@,
        ),
{
    let m = lookup_spec(g, name)->Some_0;
    lemma_lookup(g, name);
    let t = choose|t: Seq<bool>|
        t.len() == g.len() && handled(g, scopes, referenced_by, v0, name, visited, t, refs, failing)
            && (forall|p: Seq<char>| visited.contains(p) && !v0.contains(p) ==> expanded_at(g, t, p))
            && forall|n: int|
            0 <= n < g.len() && #[trigger] t[n] ==> expanded_ok(g, scopes, n, visited) && closed(
                g,
                scopes,
                referenced_by,
                v0,
                n,
                visited,
                t,
                refs,
                failing,
            );
    assert(t[m]);
    assert(closed(g, scopes, referenced_by, v0, m, visited, t, refs, failing));
    assert(handled(g, scopes, referenced_by, v0, g[m].needed@[k]@, visited, t, refs, failing));
}

/// Libraries with the same file need the same libraries, as libraries read
/// from one file do.
pub open spec fn same_file_same_needs(g: Seq<LibraryNode>) -> bool {
    forall|i: int, j: int|
        0 <= i < g.len() && 0 <= j < g.len() && #[trigger] g[i].resolved_path is Some
            && #[trigger] g[j].resolved_path is Some && g[i].resolved_path->Some_0@
            == g[j].resolved_path->Some_0@ ==> views(g[i].needed@) == views(g[j].needed@)
}

proof fn lemma_chain_handled(
    g: Seq<LibraryNode>,
    scopes: Seq<Seq<char>>,
    referenced_by: Seq<char>,
    name: Seq<char>,
    visited: Set<Seq<char>>,
    refs: Set<(Seq<char>, Seq<char>)>,
    failing: Set<Seq<char>>,
    t: Seq<bool>,
    p: Seq<int>,
    i: int,
) -> (nm: Seq<char>)
    requires
        same_file_same_needs(g),
        t.len() == g.len(),
        handled(g, scopes, referenced_by, Set::empty(), name, visited, t, refs, failing),
        forall|n: int|
            0 <= n < g.len() && #[trigger] t[n] ==> expanded_ok(g, scopes, n, visited) && closed(
                g,
                scopes,
                referenced_by,
                Set::empty(),
                n,
                visited,
                t,
                refs,
                failing,
            ),
        p.len() >= 1,
        lookup_spec(g, name) == Some(p[0]),
        forall|j: int| 0 <= j < p.len() - 1 ==> step(g, #[trigger] p[j], p[j + 1]),
        0 <= i < p.len(),
    ensures
        lookup_spec(g, nm) == Some(p[i]),
        handled(g, scopes, referenced_by, Set::empty(), nm, visited, t, refs, failing),
    decreases i,
{
    if i == 0 {
        name
    } else {
        let prev = lemma_chain_handled(g, scopes, referenced_by, name, visited, refs, failing, t, p, i - 1);
        let a = p[i - 1];
        assert(step(g, p[i - 1], p[i]));
        reveal(step);
        let k = choose|k: int| 0 <= k < g[a].needed@.len() && lookup_spec(g, #[trigger] g[a].needed@[k]@) == Some(p[i]);
        lemma_lookup(g, prev);
        let pa = g[a].resolved_path->Some_0;
        if in_scope(pa@, scopes) {
            let n2 = choose|n: int|
                0 <= n < g.len() && #[trigger] t[n] && match g[n].resolved_path {
                    Some(s) => s@ == pa@,
                    None => false,
                };
            assert(closed(g, scopes, referenced_by, Set::empty(), n2, visited, t, refs, failing));
            assert(views(g[n2].needed@) == views(g[a].needed@));
            assert(views(g[n2].needed@)[k] == g[n2].needed@[k]@);
            assert(views(g[a].needed@)[k] == g[a].needed@[k]@);
            assert(handled(g, scopes, referenced_by, Set::empty(), g[n2].needed@[k]@, visited, t, refs, failing));
        } else {
            assert(t[a]);
            assert(handled(g, scopes, referenced_by, Set::empty(), g[a].needed@[k]@, visited, t, refs, failing));
        }
        g[a].needed@[k]@
    }
}

/// A walk from an empty visited set misses nothing: in a graph where
/// libraries with the same file need the same libraries, each library
/// reachable from `name` (through located libraries) is dealt with. Its file
/// is visited where it lies in scope, and where it has no location its
/// declared path is failing and names `referenced_by`.
pub proof fn lemma_walk_covers_reachable(
    g: Seq<LibraryNode>,
    scopes: Seq<Seq<char>>,
    referenced_by: Seq<char>,
    name: Seq<char>,
    visited: Set<Seq<char>>,
    refs: Set<(Seq<char>, Seq<char>)>,
    failing: Set<Seq<char>>,
    n: int,
)
    requires
        walk_complete(g, scopes, referenced_by, Set::empty(), name, visited, refs, failing),
        same_file_same_needs(g),
        0 <= n < g.len(),
        reachable(g, name, n),
    ensures
        match g[n].resolved_path {
            Some(p) => in_scope(p@, scopes) ==> visited.contains(p@),
            None => refs.contains((g[n].declared_path@, referenced_by)) && failing.contains(
                g[n].declared_path@,
            ),
        },
{
    let t = choose|t: Seq<bool>|
        t.len() == g.len() && handled(g, scopes, referenced_by, Set::empty(), name, visited, t, refs, failing)
            && (forall|p: Seq<char>| visited.contains(p) && !Set::<Seq<char>>::empty().contains(p) ==> expanded_at(g, t, p))
            && forall|m: int|
            0 <= m < g.len() && #[trigger] t[m] ==> expanded_ok(g, scopes, m, visited) && closed(
                g,
                scopes,
                referenced_by,
                Set::empty(),
                m,
                visited,
                t,
                refs,
                failing,
            );
    reveal(reachable);
    let p = choose|p: Seq<int>|
        p.len() >= 1 && lookup_spec(g, name) == Some(p[0]) && p.last() == n && forall|j: int|
            0 <= j < p.len() - 1 ==> step(g, #[trigger] p[j], p[j + 1]);
    let nm = lemma_chain_handled(g, scopes, referenced_by, name, visited, refs, failing, t, p, p.len() - 1);
}

/// Scanning the same symbol names of a file again (the same bytes, whose
/// names are `elf_symbol_names`) leaves the table as the first scan left it, so the files of each function stay the same.
pub proof fn lemma_rescan_unchanged(
    t: Set<(Seq<char>, Seq<char>, Seq<char>)>,
    names: Seq<Option<Seq<char>>>,
    file: Seq<char>,
    v: Seq<char>,
    f: Seq<char>,
)
    ensures
        (t + tagged(names, names.len() as int, file)) + tagged(names, names.len() as int, file) == t
            + tagged(names, names.len() as int, file),
        files_in((t + tagged(names, names.len() as int, file)) + tagged(names, names.len() as int, file), v, f)
            == files_in(t + tagged(names, names.len() as int, file), v, f),
{
    let once = t + tagged(names, names.len() as int, file);
    assert(once + tagged(names, names.len() as int, file) =~= once);
}

/// Two referrers that meet an error on the same file leave one record for
/// it, with one kind (the first) and both names.
pub proof fn lemma_errors_merge(
    e0: &ErrorMap,
    e1: &ErrorMap,
    e2: &ErrorMap,
    path: Seq<char>,
    k1: ErrorKind,
    k2: ErrorKind,
    a: Seq<char>,
    b: Seq<char>,
)
    requires
        e0.wf(),
        e2.wf(),
        !e0.failing().contains(path),
        recorded(e0, e1, path, k1, a),
        recorded(e1, e2, path, k2, b),
    ensures
        e2.kind_spec(path) == Some(k1),
        forall|k: ErrorKind| e2.kinds().contains((path, k)) ==> k == k1,
        e2.referrers_spec(path).contains(a),
        e2.referrers_spec(path).contains(b),
{
    assert(e1.kinds().contains((path, k1)));
    assert(e1.failing().contains(path));
    assert(e2.kinds().contains((path, k1)));
    e2.lemma_kind_unique(path, k1);
    assert forall|k: ErrorKind| e2.kinds().contains((path, k)) implies k == k1 by {
        e2.lemma_one_kind(path, k, k1);
    }
}

proof fn lemma_top_n_no_swap(s: Set<Seq<char>>, n: nat, a: Seq<Seq<char>>, b: Seq<Seq<char>>, i: int)
    requires
        is_top_n(s, n, a),
        is_top_n(s, n, b),
        0 <= i < a.len(),
        forall|j: int| 0 <= j < i ==> a[j] == b[j],
    ensures
        !lex_lt(b[i], a[i]),
{
    lemma_lex_total(a[i], b[i]);
    if lex_lt(b[i], a[i]) {
        assert(!b.contains(a[i])) by {
            if b.contains(a[i]) {
                let j = choose|j: int| 0 <= j < b.len() && b[j] == a[i];
                if j < i {
                    assert(lex_lt(a[i], a[j]));
                    lemma_lex_total(a[i], a[i]);
                } else if j == i {
                    lemma_lex_total(a[i], a[i]);
                } else {
                    assert(lex_lt(b[j], b[i]));
                    lemma_lex_total(b[i], b[j]);
                }
            }
        }
        assert(s.contains(a[i]));
        assert(lex_lt(a[i], b[i]));
    }
}

proof fn lemma_top_n_at(s: Set<Seq<char>>, n: nat, a: Seq<Seq<char>>, b: Seq<Seq<char>>, i: int)
    requires
        is_top_n(s, n, a),
        is_top_n(s, n, b),
        0 <= i < a.len(),
    ensures
        a[i] == b[i],
    decreases i,
{
    assert forall|j: int| 0 <= j < i implies a[j] == b[j] by {
        lemma_top_n_at(s, n, a, b, j);
    }
    if a[i] != b[i] {
        lemma_lex_total(a[i], b[i]);
        if lex_lt(b[i], a[i]) {
            lemma_top_n_no_swap(s, n, a, b, i);
        } else {
            lemma_top_n_no_swap(s, n, b, a, i);
        }
    }
}

/// The `n` highest strings of a set, highest first, form exactly one
/// sequence: selecting twice from the same table gives the same answer.
pub proof fn lemma_top_n_unique(s: Set<Seq<char>>, n: nat, a: Seq<Seq<char>>, b: Seq<Seq<char>>)
    requires
        is_top_n(s, n, a),
        is_top_n(s, n, b),
    ensures
        a == b,
{
    assert forall|i: int| 0 <= i < a.len() implies a[i] == b[i] by {
        lemma_top_n_at(s, n, a, b, i);
    }
    assert(a =~= b);
}

/// Two walks from the same library without a location, for two referrers
/// (each walk ending as `collect` ensures), leave one not-found record for
/// its declared path, naming both referrers.
pub proof fn lemma_walks_merge_missing(
    g: Seq<LibraryNode>,
    scopes: Seq<Seq<char>>,
    name: Seq<char>,
    a: Seq<char>,
    b: Seq<char>,
    v0: Set<Seq<char>>,
    v1: Set<Seq<char>>,
    v2: Set<Seq<char>>,
    e0: &ErrorMap,
    e1: &ErrorMap,
    e2: &ErrorMap,
)
    requires
        lookup_spec(g, name) is Some,
        g[lookup_spec(g, name)->Some_0].resolved_path is None,
        !e0.failing().contains(g[lookup_spec(g, name)->Some_0].declared_path@),
        e2.wf(),
        walk_complete(g, scopes, a, v0, name, v1, e1.referrers(), e1.failing()),
        walk_complete(g, scopes, b, v1, name, v2, e2.referrers(), e2.failing()),
        e0.kinds().subset_of(e1.kinds()),
        e1.kinds().subset_of(e2.kinds()),
        e1.referrers().subset_of(e2.referrers()),
        forall|e: (Seq<char>, ErrorKind)|
            #[trigger] e1.kinds().contains(e) && !e0.kinds().contains(e) ==> missing_kind(g, name, e),
    ensures
        e2.kind_spec(g[lookup_spec(g, name)->Some_0].declared_path@) == Some(ErrorKind::NotFound),
        e2.referrers_spec(g[lookup_spec(g, name)->Some_0].declared_path@).contains(a),
        e2.referrers_spec(g[lookup_spec(g, name)->Some_0].declared_path@).contains(b),
{
    let m = lookup_spec(g, name)->Some_0;
    let d = g[m].declared_path@;
    let t1 = choose|t: Seq<bool>|
        t.len() == g.len() && handled(g, scopes, a, v0, name, v1, t, e1.referrers(), e1.failing())
            && (forall|p: Seq<char>| v1.contains(p) && !v0.contains(p) ==> expanded_at(g, t, p))
            && forall|n: int|
            0 <= n < g.len() && #[trigger] t[n] ==> expanded_ok(g, scopes, n, v1) && closed(
                g,
                scopes,
                a,
                v0,
                n,
                v1,
                t,
                e1.referrers(),
                e1.failing(),
            );
    let t2 = choose|t: Seq<bool>|
        t.len() == g.len() && handled(g, scopes, b, v1, name, v2, t, e2.referrers(), e2.failing())
            && (forall|p: Seq<char>| v2.contains(p) && !v1.contains(p) ==> expanded_at(g, t, p))
            && forall|n: int|
            0 <= n < g.len() && #[trigger] t[n] ==> expanded_ok(g, scopes, n, v2) && closed(
                g,
                scopes,
                b,
                v1,
                n,
                v2,
                t,
                e2.referrers(),
                e2.failing(),
            );
    assert(e1.failing().contains(d));
    let k = choose|k: ErrorKind| e1.kinds().contains((d, k));
    if e0.kinds().contains((d, k)) {
        assert(e0.failing().contains(d));
    }
    assert(missing_kind(g, name, (d, k)));
    assert(e2.kinds().contains((d, ErrorKind::NotFound)));
    e2.lemma_kind_unique(d, ErrorKind::NotFound);
    assert(e1.referrers().contains((d, a)));
}

} // verus!
