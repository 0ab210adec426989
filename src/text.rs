//! Text-level rules: versioned-symbol tags and the ordering of version strings.
use vstd::prelude::*;

verus! {

/// The marker between a function name and the runtime version it needs.
pub open spec fn marker() -> Seq<char> {
    seq!['@', '@', 'G', 'L', 'I', 'B', 'C', '_']
}

/// Number of characters in the marker.
pub const MARKER_LEN: usize = 8;

/// The marker starts at position `i` of `s`.
pub open spec fn occurs_at(s: Seq<char>, i: int) -> bool {
    0 <= i && i + 8 <= s.len() && s.subrange(i, i + 8) == marker()
}

/// The marker occurs in `s` exactly once, at `i`.
pub open spec fn sole_occurrence(s: Seq<char>, i: int) -> bool {
    occurs_at(s, i) && forall|j: int| #[trigger] occurs_at(s, j) ==> j == i
}

/// Splitting `s` on the marker gives exactly two parts: the function name
/// before it and the version after it. Any other count of parts gives `None`.
pub open spec fn tag_split(s: Seq<char>) -> Option<(Seq<char>, Seq<char>)> {
    if exists|i: int| sole_occurrence(s, i) {
        let i = choose|i: int| sole_occurrence(s, i);
        Some((s.subrange(0, i), s.subrange(i + 8, s.len() as int)))
    } else {
        None
    }
}

/// Whether the marker starts at position `i` of `s`.
fn marker_at(s: &str, len: usize, i: usize) -> (r: bool)
    requires
        len == s@.len(),
    ensures
        r == occurs_at(s@, i as int),
{
    if i > len || len - i < MARKER_LEN {
        return false;
    }
    let m = "@@GLIBC_";
    proof {
        reveal_strlit("@@GLIBC_");
    }
    assert(m@ == marker());
    let mut k: usize = 0;
    while k < MARKER_LEN
        invariant
            i + MARKER_LEN <= len,
            len == s@.len(),
            m@ == marker(),
            k <= MARKER_LEN,
            forall|t: int| 0 <= t < k ==> s@[i + t] == marker()[t],
        decreases MARKER_LEN - k,
    {
        if s.get_char(i + k) != m.get_char(k) {
            assert(s@.subrange(i as int, i + 8)[k as int] != marker()[k as int]);
            return false;
        }
        k = k + 1;
    }
    assert(s@.subrange(i as int, i + 8) =~= marker());
    true
}

/// Reads a versioned-symbol tag such as `memcpy@@GLIBC_2.14` into the
/// function name and the version. A name without the marker, or with it
/// more than once, gives `None`.
pub fn parse_symbol_tag(name: &str) -> (r: Option<(String, String)>)
    ensures
        match r {
            Some((f, v)) => tag_split(name@) == Some((f@, v@)),
            None => tag_split(name@) is None,
        },
{
    let len = name.unicode_len();
    let mut first: Option<usize> = None;
    let mut i: usize = 0;
    while i < len
        invariant
            len == name@.len(),
            i <= len,
            match first {
                None => forall|j: int| 0 <= j < i ==> !occurs_at(name@, j),
                Some(f) => f < i && occurs_at(name@, f as int) && forall|j: int|
                    0 <= j < i && j != f ==> !occurs_at(name@, j),
            },
        decreases len - i,
    {
        if marker_at(name, len, i) {
            match first {
                None => {
                    first = Some(i);
                },
                Some(f) => {
                    assert(!sole_occurrence(name@, f as int));
                    assert forall|k: int| !sole_occurrence(name@, k) by {
                        if sole_occurrence(name@, k) {
                            assert(occurs_at(name@, f as int));
                            assert(occurs_at(name@, i as int));
                        }
                    }
                    return None;
                },
            }
        }
        i = i + 1;
    }
    assert forall|j: int| #[trigger] occurs_at(name@, j) implies 0 <= j < len by {}
    match first {
        None => {
            assert forall|k: int| !sole_occurrence(name@, k) by {}
            None
        },
        Some(f) => {
            assert(sole_occurrence(name@, f as int));
            let ghost c = choose|i: int| sole_occurrence(name@, i);
            assert(c == f);
            let func = String::from_str(name.substring_char(0, f));
            let ver = String::from_str(name.substring_char(f + MARKER_LEN, len));
            Some((func, ver))
        },
    }
}

/// Lexicographic order of strings, character by character, as `str`'s
/// own ordering gives it (UTF-8 keeps the order of code points).
pub open spec fn lex_lt(a: Seq<char>, b: Seq<char>) -> bool
    decreases a.len(),
{
    if a.len() == 0 {
        b.len() > 0
    } else if b.len() == 0 {
        false
    } else if a[0] != b[0] {
        a[0] < b[0]
    } else {
        lex_lt(a.drop_first(), b.drop_first())
    }
}

/// The order is irreflexive and any two distinct strings are comparable.
pub proof fn lemma_lex_total(a: Seq<char>, b: Seq<char>)
    ensures
        !lex_lt(a, a),
        a == b || lex_lt(a, b) || lex_lt(b, a),
        !(lex_lt(a, b) && lex_lt(b, a)),
    decreases a.len(),
{
    if a.len() > 0 {
        lemma_lex_total(a.drop_first(), a.drop_first());
        if b.len() > 0 {
            lemma_lex_total(a.drop_first(), b.drop_first());
            if a[0] == b[0] && a.drop_first() == b.drop_first() {
                assert(a =~= seq![a[0]] + a.drop_first());
                assert(b =~= seq![b[0]] + b.drop_first());
            }
        }
    } else if b.len() == 0 {
        assert(a =~= b);
    }
}

/// The order is transitive.
pub proof fn lemma_lex_trans(a: Seq<char>, b: Seq<char>, c: Seq<char>)
    requires
        lex_lt(a, b),
        lex_lt(b, c),
    ensures
        lex_lt(a, c),
    decreases a.len(),
{
    if a.len() > 0 && b.len() > 0 && c.len() > 0 {
        if a[0] == b[0] && b[0] == c[0] {
            lemma_lex_trans(a.drop_first(), b.drop_first(), c.drop_first());
        }
    }
}

/// Whether `a` comes strictly before `b` in lexicographic order.
pub fn str_less(a: &str, b: &str) -> (r: bool)
    ensures
        r == lex_lt(a@, b@),
{
    let la = a.unicode_len();
    let lb = b.unicode_len();
    let mut i: usize = 0;
    assert(a@.skip(0) =~= a@ && b@.skip(0) =~= b@);
    while i < la && i < lb
        invariant
            la == a@.len(),
            lb == b@.len(),
            i <= la,
            i <= lb,
            lex_lt(a@, b@) == lex_lt(a@.skip(i as int), b@.skip(i as int)),
        decreases la - i,
    {
        let ca = a.get_char(i);
        let cb = b.get_char(i);
        let ghost sa = a@.skip(i as int);
        let ghost sb = b@.skip(i as int);
        assert(sa[0] == ca && sb[0] == cb);
        if ca != cb {
            return ca < cb;
        }
        assert(sa.drop_first() =~= a@.skip(i + 1));
        assert(sb.drop_first() =~= b@.skip(i + 1));
        i = i + 1;
    }
    i == la && i < lb
}

} // verus!
