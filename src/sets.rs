//! A set of strings kept as a vector without repeats.
use vstd::prelude::*;

verus! {

/// The character sequences of a sequence of strings.
pub open spec fn views(s: Seq<String>) -> Seq<Seq<char>> {
    s.map_values(|x: String| x@)
}

/// The set of character sequences held by a sequence of strings.
pub open spec fn members(s: Seq<String>) -> Set<Seq<char>> {
    Set::new(|p: Seq<char>| exists|i: int| 0 <= i < s.len() && #[trigger] s[i]@ == p)
}

/// The members of a sequence of strings form a finite set, as large as the
/// sequence when no string repeats.
pub proof fn lemma_members(s: Seq<String>)
    ensures
        members(s) == views(s).to_set(),
        members(s).finite(),
        views(s).no_duplicates() ==> members(s).len() == s.len(),
{
    assert forall|p: Seq<char>| views(s).to_set().contains(p) implies members(s).contains(p) by {
        let i = choose|i: int| 0 <= i < views(s).len() && views(s)[i] == p;
        assert(s[i]@ == p);
    }
    assert forall|p: Seq<char>| members(s).contains(p) implies views(s).to_set().contains(p) by {
        let i = choose|i: int| 0 <= i < s.len() && #[trigger] s[i]@ == p;
        assert(views(s)[i] == p);
    }
    assert(members(s) =~= views(s).to_set());
    if views(s).no_duplicates() {
        views(s).unique_seq_to_set();
    }
}

/// A set of strings (file paths, names or versions).
pub struct StrSet {
    items: Vec<String>,
}

impl View for StrSet {
    type V = Set<Seq<char>>;

    closed spec fn view(&self) -> Set<Seq<char>> {
        members(self.items@)
    }
}

impl StrSet {
    /// No string is held twice.
    pub closed spec fn wf(&self) -> bool {
        views(self.items@).no_duplicates()
    }

    /// The strings in the order they were added.
    pub closed spec fn order(&self) -> Seq<Seq<char>> {
        views(self.items@)
    }

    pub fn new() -> (r: StrSet)
        ensures
            r.wf(),
            r@ == Set::<Seq<char>>::empty(),
            r.order() == Seq::<Seq<char>>::empty(),
    {
        let r = StrSet { items: Vec::new() };
        assert(r@ =~= Set::<Seq<char>>::empty());
        assert(r.order() =~= Seq::<Seq<char>>::empty());
        r
    }

    pub fn len(&self) -> (r: usize)
        requires
            self.wf(),
        ensures
            r == self@.len(),
            r == self.order().len(),
    {
        proof {
            self.lemma_len();
        }
        self.items.len()
    }

    pub proof fn lemma_len(&self)
        requires
            self.wf(),
        ensures
            self@.len() == self.order().len(),
            self@ == self.order().to_set(),
            self@.finite(),
    {
        assert forall|p: Seq<char>| self.order().to_set().contains(p) implies self@.contains(p) by {
            let i = choose|i: int| 0 <= i < self.order().len() && self.order()[i] == p;
            assert(self.items@[i]@ == p);
        }
        assert forall|p: Seq<char>| self@.contains(p) implies self.order().to_set().contains(p) by {
            let i = choose|i: int| 0 <= i < self.items@.len() && #[trigger] self.items@[i]@ == p;
            assert(self.order()[i] == p);
        }
        assert(self@ =~= self.order().to_set());
        self.order().unique_seq_to_set();
    }

    pub fn contains(&self, s: &String) -> (r: bool)
        ensures
            r == self@.contains(s@),
    {
        let mut i: usize = 0;
        while i < self.items.len()
            invariant
                i <= self.items@.len(),
                forall|j: int| 0 <= j < i ==> self.items@[j]@ != s@,
            decreases self.items@.len() - i,
        {
            if self.items[i] == *s {
                return true;
            }
            i = i + 1;
        }
        false
    }

    /// Adds `s`; the result tells whether it was new.
    pub fn insert(&mut self, s: String) -> (r: bool)
        requires
            old(self).wf(),
        ensures
            final(self).wf(),
            final(self)@ == old(self)@.insert(s@),
            r == !old(self)@.contains(s@),
            final(self).order() == if r {
                old(self).order().push(s@)
            } else {
                old(self).order()
            },
    {
        if self.contains(&s) {
            assert(self@.insert(s@) =~= self@);
            return false;
        }
        let ghost prev = self.items@;
        self.items.push(s);
        proof {
            assert(views(self.items@) =~= views(prev).push(s@));
            assert(self@ =~= members(prev).insert(s@)) by {
                assert forall|p: Seq<char>| self@.contains(p) implies members(prev).insert(s@).contains(p) by {
                    let i = choose|i: int| 0 <= i < self.items@.len() && #[trigger] self.items@[i]@ == p;
                    if i < prev.len() {
                        assert(prev[i]@ == p);
                    }
                }
                assert forall|p: Seq<char>| members(prev).insert(s@).contains(p) implies self@.contains(p) by {
                    if p == s@ {
                        assert(self.items@[prev.len() as int]@ == p);
                    } else {
                        let i = choose|i: int| 0 <= i < prev.len() && #[trigger] prev[i]@ == p;
                        assert(self.items@[i]@ == p);
                    }
                }
            }
            assert forall|i: int, j: int| 0 <= i < views(self.items@).len() && 0 <= j < views(self.items@).len() && i != j
                implies views(self.items@)[i] != views(self.items@)[j] by {
                if i == prev.len() as int && j < prev.len() {
                    assert(prev[j]@ == views(prev)[j]);
                    assert(members(prev).contains(prev[j]@));
                } else if j == prev.len() as int && i < prev.len() {
                    assert(members(prev).contains(prev[i]@));
                }
            }
        }
        true
    }

    /// The strings, each once, in the order they were added.
    pub fn to_vec(&self) -> (r: Vec<String>)
        requires
            self.wf(),
        ensures
            views(r@).no_duplicates(),
            views(r@) == self.order(),
            members(r@) == self@,
    {
        let mut r: Vec<String> = Vec::new();
        let mut i: usize = 0;
        while i < self.items.len()
            invariant
                i <= self.items@.len(),
                r@.len() == i,
                forall|j: int| 0 <= j < i ==> #[trigger] r@[j] == self.items@[j],
            decreases self.items@.len() - i,
        {
            r.push(self.items[i].clone());
            i = i + 1;
        }
        assert(r@ =~= self.items@);
        r
    }
}

} // verus!
