//! Finite sets of type names.

use crate::text::{names_distinct, names_view, same_text};
use vstd::prelude::*;
use vstd::std_specs::cmp::PartialEqSpecImpl;

verus! {

/// A finite set of names. It is kept as a list in which no name occurs
/// twice; the order of the list carries no meaning.
#[derive(Debug)]
pub struct NameSet {
    names: Vec<String>,
}

impl View for NameSet {
    type V = Set<Seq<char>>;

    closed spec fn view(&self) -> Set<Seq<char>> {
        names_view(self.names@).to_set()
    }
}

/// Whether `name` is one of `names`.
fn holds_name(names: &Vec<String>, name: &str) -> (found: bool)
    ensures
        found == names_view(names@).contains(name@),
{
    let mut i: usize = 0;
    while i < names.len()
        invariant
            i <= names.len(),
            forall|m: int| 0 <= m < i ==> names_view(names@)[m] != name@,
        decreases names.len() - i,
    {
        if same_text(names[i].as_str(), name) {
            assert(names_view(names@)[i as int] == name@);
            return true;
        }
        i += 1;
    }
    false
}

impl NameSet {
    #[verifier::type_invariant]
    closed spec fn well_formed(&self) -> bool {
        names_distinct(self.names@)
    }

    /// The empty set.
    pub fn new() -> (set: NameSet)
        ensures
            set@ == Set::<Seq<char>>::empty(),
    {
        let names: Vec<String> = Vec::new();
        assert(names_view(names@).to_set() =~= Set::<Seq<char>>::empty());
        NameSet { names }
    }

    /// The set of the names in `names`, of which some may occur twice.
    pub fn from_names(names: &Vec<String>) -> (set: NameSet)
        ensures
            set@ == names_view(names@).to_set(),
    {
        let mut set = NameSet::new();
        let ghost all = names_view(names@);
        let mut k: usize = 0;
        while k < names.len()
            invariant
                k <= names.len(),
                all == names_view(names@),
                set@ == all.take(k as int).to_set(),
            decreases names.len() - k,
        {
            proof {
                assert(all.take(k as int + 1) =~= all.take(k as int) + seq![all[k as int]]);
                Seq::lemma_to_set_insert_commutes(all.take(k as int), all[k as int]);
            }
            set.insert(names[k].clone());
            k += 1;
        }
        assert(all.take(all.len() as int) =~= all);
        set
    }

    /// Whether `name` is in the set.
    pub fn contains(&self, name: &str) -> (found: bool)
        ensures
            found == self@.contains(name@),
    {
        holds_name(&self.names, name)
    }

    /// Adds `name` to the set, and says whether it was new.
    pub fn insert(&mut self, name: String) -> (added: bool)
        ensures
            final(self)@ == old(self)@.insert(name@),
            added == !old(self)@.contains(name@),
    {
        proof {
            use_type_invariant(&*self);
        }
        if holds_name(&self.names, name.as_str()) {
            assert(self@.insert(name@) =~= self@);
            return false;
        }
        let mut names: Vec<String> = Vec::new();
        std::mem::swap(&mut names, &mut self.names);
        let ghost before = names_view(names@);
        let ghost new_name = name@;
        names.push(name);
        proof {
            assert(names_view(names@) =~= before + seq![new_name]);
            assert(names_view(names@).no_duplicates());
            Seq::lemma_to_set_insert_commutes(before, new_name);
        }
        self.names = names;
        true
    }

    /// Adds every name of `other` to the set.
    pub fn extend(&mut self, other: &NameSet)
        ensures
            final(self)@ == old(self)@.union(other@),
    {
        let ghost before = self@;
        let ghost added = names_view(other.names@);
        assert(before.union(added.take(0).to_set()) =~= before);
        let mut i: usize = 0;
        while i < other.names.len()
            invariant
                i <= other.names.len(),
                added == names_view(other.names@),
                self@ == before.union(added.take(i as int).to_set()),
            decreases other.names.len() - i,
        {
            proof {
                assert(added.take(i as int + 1) =~= added.take(i as int) + seq![added[i as int]]);
                Seq::lemma_to_set_insert_commutes(added.take(i as int), added[i as int]);
            }
            self.insert(other.names[i].clone());
            assert(self@ =~= before.union(added.take(i as int + 1).to_set()));
            i += 1;
        }
        assert(added.take(added.len() as int) =~= added);
    }

    /// The names that are in both sets.
    pub fn intersection(&self, other: &NameSet) -> (common: NameSet)
        ensures
            common@ == self@.intersect(other@),
    {
        let ghost all = names_view(self.names@);
        let mut common = NameSet::new();
        let mut i: usize = 0;
        assert(all.take(0).to_set().intersect(other@) =~= Set::<Seq<char>>::empty());
        while i < self.names.len()
            invariant
                i <= self.names.len(),
                all == names_view(self.names@),
                common@ == all.take(i as int).to_set().intersect(other@),
            decreases self.names.len() - i,
        {
            proof {
                assert(all.take(i as int + 1) =~= all.take(i as int) + seq![all[i as int]]);
                Seq::lemma_to_set_insert_commutes(all.take(i as int), all[i as int]);
            }
            if other.contains(self.names[i].as_str()) {
                common.insert(self.names[i].clone());
            }
            assert(common@ =~= all.take(i as int + 1).to_set().intersect(other@));
            i += 1;
        }
        assert(all.take(all.len() as int) =~= all);
        common
    }

    /// The number of names in the set.
    pub fn len(&self) -> (count: usize)
        ensures
            self@.finite(),
            count == self@.len(),
    {
        proof {
            use_type_invariant(self);
            names_view(self.names@).unique_seq_to_set();
        }
        self.names.len()
    }

    /// The names of the set, each once, in no particular order.
    pub fn to_vec(&self) -> (names: Vec<String>)
        ensures
            names_distinct(names@),
            names_view(names@).to_set() == self@,
    {
        proof {
            use_type_invariant(self);
        }
        let mut names: Vec<String> = Vec::new();
        let mut i: usize = 0;
        while i < self.names.len()
            invariant
                i <= self.names.len(),
                names.len() == i,
                forall|m: int| 0 <= m < i ==> names@[m]@ == self.names@[m]@,
            decreases self.names.len() - i,
        {
            names.push(self.names[i].clone());
            i += 1;
        }
        assert(names_view(names@) =~= names_view(self.names@));
        names
    }

    /// A copy of the set.
    pub fn duplicate(&self) -> (copy: NameSet)
        ensures
            copy@ == self@,
    {
        NameSet { names: self.to_vec() }
    }

    /// Whether every name of the set is in `other`.
    pub fn is_subset_of(&self, other: &NameSet) -> (within: bool)
        ensures
            within == self@.subset_of(other@),
    {
        let mut i: usize = 0;
        while i < self.names.len()
            invariant
                i <= self.names.len(),
                forall|m: int| 0 <= m < i ==> other@.contains(names_view(self.names@)[m]),
            decreases self.names.len() - i,
        {
            if !other.contains(self.names[i].as_str()) {
                assert(self@.contains(names_view(self.names@)[i as int]));
                return false;
            }
            i += 1;
        }
        true
    }

    /// Whether two sets hold the same names.
    pub fn same_as(&self, other: &NameSet) -> (same: bool)
        ensures
            same == (self@ == other@),
    {
        let same = self.is_subset_of(other) && other.is_subset_of(self);
        assert(same == (self@ =~= other@));
        same
    }
}

/// Whether no name occurs twice in `names`.
pub fn all_distinct(names: &Vec<String>) -> (distinct: bool)
    ensures
        distinct == names_distinct(names@),
{
    let set = NameSet::from_names(names);
    let count = set.len();
    proof {
        if names_distinct(names@) {
            names_view(names@).unique_seq_to_set();
        }
        if count == names.len() {
            names_view(names@).lemma_no_dup_set_cardinality();
        }
    }
    count == names.len()
}

impl PartialEq for NameSet {
    /// Two sets are equal when they hold the same names.
    fn eq(&self, other: &NameSet) -> (same: bool) {
        self.same_as(other)
    }
}

impl PartialEqSpecImpl for NameSet {
    open spec fn obeys_eq_spec() -> bool {
        true
    }

    open spec fn eq_spec(&self, other: &NameSet) -> bool {
        self@ == other@
    }
}

impl Clone for NameSet {
    /// A copy of the set.
    fn clone(&self) -> (copy: NameSet)
        ensures
            copy@ == self@,
    {
        self.duplicate()
    }
}

} // verus!
