//! A set of article names that keeps the order in which they came.

use crate::url::{names, URL};
use vstd::hash_set::StringHashSet;
use vstd::prelude::*;

verus! {

/// A sequence with one more item holds what it held before and that item.
pub proof fn lemma_push_to_set<A>(s: Seq<A>, x: A)
    ensures
        s.push(x).to_set() == s.to_set().insert(x),
{
    assert forall|y: A| s.push(x).to_set().contains(y) <==> s.to_set().insert(x).contains(y) by {
        if s.push(x).contains(y) {
            let i = choose|i: int| 0 <= i < s.push(x).len() && s.push(x)[i] == y;
            if i < s.len() {
                assert(s[i] == y);
            }
        }
        if s.contains(y) {
            let i = choose|i: int| 0 <= i < s.len() && s[i] == y;
            assert(s.push(x)[i] == y);
        }
        if y == x {
            assert(s.push(x)[s.len() as int] == x);
        }
    }
    assert(s.push(x).to_set() =~= s.to_set().insert(x));
}

/// A set of article names, in the order in which they were put in.
pub struct UrlSet {
    items: Vec<URL>,
    index: StringHashSet,
}

impl View for UrlSet {
    type V = Set<Seq<char>>;

    closed spec fn view(&self) -> Set<Seq<char>> {
        self.index@
    }
}

impl UrlSet {
    /// The names are held once each, and can be looked up.
    pub closed spec fn wf(&self) -> bool {
        &&& names(self.items@).no_duplicates()
        &&& self.index@ == names(self.items@).to_set()
    }

    /// The names in the order in which they were put in.
    pub closed spec fn order(&self) -> Seq<Seq<char>> {
        names(self.items@)
    }

    /// The names of the set are those of its order, each once.
    pub proof fn lemma_order(&self)
        requires
            self.wf(),
        ensures
            self.order().no_duplicates(),
            self.order().to_set() == self@,
            self@.finite(),
            self@.len() == self.order().len(),
    {
        self.order().unique_seq_to_set();
    }

    /// The set that holds nothing.
    pub fn new() -> (s: UrlSet)
        ensures
            s.wf(),
            s@ == Set::<Seq<char>>::empty(),
            s.order() == Seq::<Seq<char>>::empty(),
    {
        let s = UrlSet { items: Vec::new(), index: StringHashSet::new() };
        proof {
            assert(names(s.items@) =~= Seq::<Seq<char>>::empty());
            assert(s.index@ =~= names(s.items@).to_set());
        }
        s
    }

    /// Whether `u` is in the set.
    pub fn contains(&self, u: &URL) -> (b: bool)
        requires
            self.wf(),
        ensures
            b == self@.contains(u@),
    {
        self.index.contains(u.as_str())
    }

    /// Puts `u` in the set. Says whether it was not in it before.
    pub fn insert(&mut self, u: &URL) -> (added: bool)
        requires
            old(self).wf(),
        ensures
            final(self).wf(),
            final(self)@ == old(self)@.insert(u@),
            added == !old(self)@.contains(u@),
            final(self).order() == if added {
                old(self).order().push(u@)
            } else {
                old(self).order()
            },
    {
        if self.index.contains(u.as_str()) {
            proof {
                assert(self@.insert(u@) =~= self@);
            }
            false
        } else {
            let ghost before = names(self.items@);
            self.index.insert(u.as_str().to_owned());
            self.items.push(u.clone());
            proof {
                assert(names(self.items@) =~= before.push(u@));
                lemma_push_to_set(before, u@);
            }
            true
        }
    }

    /// How many names the set holds.
    pub fn len(&self) -> (n: usize)
        requires
            self.wf(),
        ensures
            n == self.order().len(),
    {
        self.items.len()
    }

    /// The names in the order in which they were put in.
    pub fn as_vec(&self) -> (v: &Vec<URL>)
        requires
            self.wf(),
        ensures
            names(v@) == self.order(),
    {
        &self.items
    }

    /// The names in the order in which they were put in.
    pub fn into_vec(self) -> (v: Vec<URL>)
        requires
            self.wf(),
        ensures
            names(v@) == self.order(),
    {
        self.items
    }

    /// Whether the set holds nothing.
    pub fn is_empty(&self) -> (b: bool)
        requires
            self.wf(),
        ensures
            b == (self.order().len() == 0),
    {
        self.items.len() == 0
    }
}

} // verus!
