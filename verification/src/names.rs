//! A set of names.

use crate::text;
use vstd::prelude::*;

verus! {

/// A set of names, kept as a list in which no name occurs twice.
#[derive(Debug)]
pub struct NameSet {
    pub names: Vec<String>,
}

impl View for NameSet {
    type V = Set<Seq<char>>;

    open spec fn view(&self) -> Set<Seq<char>> {
        text::string_texts(self.names@).to_set()
    }
}

impl NameSet {
    /// Whether no name occurs twice.
    pub open spec fn wf(self) -> bool {
        text::string_texts(self.names@).no_duplicates()
    }

    /// The empty set.
    pub fn new() -> (r: NameSet)
        ensures
            r.wf(),
            r@ == Set::<Seq<char>>::empty(),
    {
        let r = NameSet { names: Vec::new() };
        assert(text::string_texts(r.names@) =~= Seq::empty());
        assert(r@ =~= Set::<Seq<char>>::empty());
        r
    }

    /// Whether `name` is in the set.
    pub fn contains(&self, name: &str) -> (r: bool)
        ensures
            r == self@.contains(name@),
    {
        let ghost texts = text::string_texts(self.names@);
        let mut i: usize = 0;
        while i < self.names.len()
            invariant
                i <= self.names@.len(),
                texts == text::string_texts(self.names@),
                forall|j: int| 0 <= j < i ==> texts[j] != name@,
            decreases self.names@.len() - i,
        {
            assert(texts[i as int] == self.names@[i as int]@);
            if text::str_eq(self.names[i].as_str(), name) {
                return true;
            }
            i += 1;
        }
        false
    }

    /// Adds `name` to the set.
    pub fn insert(&mut self, name: String)
        requires
            old(self).wf(),
        ensures
            final(self).wf(),
            final(self)@ == old(self)@.insert(name@),
    {
        let ghost texts = text::string_texts(self.names@);
        if !self.contains(name.as_str()) {
            let ghost added = name@;
            self.names.push(name);
            assert(text::string_texts(self.names@) =~= texts.push(added));
            assert(texts.push(added).to_set() =~= texts.to_set().insert(added)) by {
                texts.lemma_push_to_set_commute(added);
            }
            assert(texts.push(added).no_duplicates());
        } else {
            assert(texts.to_set().insert(name@) =~= texts.to_set());
        }
    }

    /// A set with the same names.
    pub fn copy(&self) -> (r: NameSet)
        ensures
            r@ == self@,
            self.wf() ==> r.wf(),
    {
        let mut names: Vec<String> = Vec::new();
        let mut i: usize = 0;
        while i < self.names.len()
            invariant
                i <= self.names@.len(),
                text::string_texts(names@) == text::string_texts(self.names@).take(i as int),
            decreases self.names@.len() - i,
        {
            let ghost before = text::string_texts(names@);
            let name = self.names[i].clone();
            names.push(name);
            assert(text::string_texts(names@) =~= before.push(self.names@[i as int]@));
            assert(text::string_texts(names@) =~= text::string_texts(self.names@).take(i + 1));
            i += 1;
        }
        let r = NameSet { names };
        assert(text::string_texts(r.names@) =~= text::string_texts(self.names@));
        r
    }
}

} // verus!
