//! Fields and selection sets: one list of fields for each concrete object
//! type, with the merge that keeps every response key once.

use crate::directive::{
    directives_view, duplicate_directives, find_argument, same_directives, Directive, DirectiveView,
};
use crate::merge_laws::{lemma_key_index, lemma_merge_step};
use crate::plan::{
    field_accepted, fields_accept, fields_wf, has_key, key_index, keys_distinct, merged_fields,
    with_field, FieldView, SelectionSetView,
};
use crate::position::same_position;
use crate::text::{first_named, names_distinct, names_view, same_text};
use crate::value::{
    duplicate_named_values, named_values_view, same_named_values, Value, ValueView,
};
use graphql_parser::Pos;
use vstd::prelude::*;
use vstd::std_specs::cmp::PartialEqSpecImpl;

verus! {

/// A field to execute as part of a query. Variables were interpolated and
/// the argument values coerced before the field was built.
#[derive(Debug)]
pub struct Field {
    pub position: Pos,
    pub alias: Option<String>,
    pub name: String,
    pub arguments: Vec<(String, Value)>,
    pub directives: Vec<Directive>,
    pub selection_set: SelectionSet,
}

/// A table from concrete object types to the fields selected for objects of
/// that type. The types are fixed when the set is made; fields are added for
/// all of them or for some. No type occurs twice, and no list of fields
/// holds a response key twice.
#[derive(Debug)]
pub struct SelectionSet {
    items: Vec<(String, Vec<Field>)>,
}

/// The views of a sequence of fields, element by element.
pub open spec fn fields_view(fields: Seq<Field>) -> Seq<FieldView> {
    Seq::new(fields.len(), |k: int| fields[k].model())
}

/// The views of a sequence of buckets, element by element.
pub open spec fn buckets_view(items: Seq<(String, Vec<Field>)>) -> Seq<
    (Seq<char>, Seq<FieldView>),
> {
    Seq::new(items.len(), |i: int| (items[i].0@, fields_view(items[i].1@)))
}

impl Field {
    /// What the field denotes.
    pub open spec fn model(&self) -> FieldView
        decreases self,
    {
        FieldView {
            position: self.position,
            alias: match self.alias {
                Some(alias) => Some(alias@),
                None => None,
            },
            name: self.name@,
            arguments: named_values_view(self.arguments@),
            directives: directives_view(self.directives@),
            selection_set: self.selection_set.model(),
        }
    }
}

impl View for Field {
    type V = FieldView;

    open spec fn view(&self) -> FieldView {
        self.model()
    }
}

impl SelectionSet {
    /// What the set denotes.
    pub closed spec fn model(&self) -> SelectionSetView
        decreases self,
    {
        SelectionSetView {
            items: Seq::new(
                self.items@.len(),
                |i: int|
                    if 0 <= i < self.items@.len() {
                        (
                            self.items@[i].0@,
                            Seq::new(
                                self.items@[i].1@.len(),
                                |k: int|
                                    if 0 <= k < self.items@[i].1@.len() {
                                        self.items@[i].1@[k].model()
                                    } else {
                                        arbitrary()
                                    },
                            ),
                        )
                    } else {
                        arbitrary()
                    },
            ),
        }
    }

    #[verifier::type_invariant]
    closed spec fn well_formed(&self) -> bool {
        self.model().wf()
    }

    /// The set denotes its buckets' views, one by one.
    proof fn lemma_model(&self)
        ensures
            self@.items == buckets_view(self.items@),
            self@ == (SelectionSetView { items: buckets_view(self.items@) }),
    {
        assert forall|i: int| 0 <= i < self.items@.len() implies self.model().items[i]
            == buckets_view(self.items@)[i] by {
            assert(self.model().items[i].1 =~= fields_view(self.items@[i].1@));
        }
        assert(self.model().items =~= buckets_view(self.items@));
    }
}

impl View for SelectionSet {
    type V = SelectionSetView;

    closed spec fn view(&self) -> SelectionSetView {
        self.model()
    }
}

impl Field {
    /// Returns the response key of a field, which is either its name or its
    /// alias (if there is one).
    pub fn response_key(&self) -> (key: &str)
        ensures
            key@ == self@.response_key(),
    {
        match &self.alias {
            Some(alias) => alias.as_str(),
            None => self.name.as_str(),
        }
    }

    /// Looks up the value of an argument for this field.
    pub fn argument_value(&self, name: &str) -> (found: Option<&Value>)
        ensures
            match found {
                Some(value) => first_named(self@.arguments, name@) == Some(value@),
                None => first_named(self@.arguments, name@) is None,
            },
    {
        find_argument(&self.arguments, name)
    }

    /// Puts `directives` in front of the field's own.
    pub fn prepend_directives(&mut self, directives: Vec<Directive>)
        ensures
            final(self)@ == old(self)@.with_directives_first(directives_view(directives@)),
            final(self).selection_set == old(self).selection_set,
    {
        let mut front = directives;
        std::mem::swap(&mut self.directives, &mut front);
        self.directives.append(&mut front);
        assert(directives_view(self.directives@) =~= directives_view(directives@)
            + directives_view(old(self).directives@));
    }

    /// Whether the field selects nothing below itself.
    pub fn is_leaf(&self) -> (leaf: bool)
        ensures
            leaf == self@.is_leaf(),
    {
        self.selection_set.is_empty()
    }
}

/// The place of the first field of `fields` with the response key `key`.
fn find_key(fields: &Vec<Field>, key: &str) -> (found: Option<usize>)
    ensures
        match found {
            Some(j) => j < fields.len() && fields@[j as int]@.response_key() == key@,
            None => !has_key(fields_view(fields@), key@),
        },
{
    let mut j: usize = 0;
    while j < fields.len()
        invariant
            j <= fields.len(),
            forall|m: int| 0 <= m < j ==> fields_view(fields@)[m].response_key() != key@,
        decreases fields.len() - j,
    {
        if same_text(fields[j].response_key(), key) {
            return Some(j);
        }
        j += 1;
    }
    None
}

/// The place of the first bucket of `items` for the type `name`.
fn find_type(items: &Vec<(String, Vec<Field>)>, name: &str) -> (found: Option<usize>)
    ensures
        match found {
            Some(i) => i < items.len() && items@[i as int].0@ == name@,
            None => forall|m: int| 0 <= m < items.len() ==> items@[m].0@ != name@,
        },
{
    let mut i: usize = 0;
    while i < items.len()
        invariant
            i <= items.len(),
            forall|m: int| 0 <= m < i ==> items@[m].0@ != name@,
        decreases items.len() - i,
    {
        if same_text(items[i].0.as_str(), name) {
            return Some(i);
        }
        i += 1;
    }
    None
}

impl SelectionSet {
    /// Create a new `SelectionSet` that can handle the given types, which
    /// must differ from each other.
    pub fn new(types: Vec<String>) -> (set: SelectionSet)
        requires
            names_distinct(types@),
        ensures
            set@.type_names() == names_view(types@),
            set@.is_empty(),
            set@.wf(),
    {
        let mut items: Vec<(String, Vec<Field>)> = Vec::new();
        let mut i: usize = 0;
        while i < types.len()
            invariant
                i <= types.len(),
                items.len() == i,
                forall|k: int|
                    0 <= k < i ==> (#[trigger] items@[k]).0@ == types@[k]@ && items@[k].1@.len()
                        == 0,
            decreases types.len() - i,
        {
            let ghost before = items@;
            let name = types[i].clone();
            let fields: Vec<Field> = Vec::new();
            items.push((name, fields));
            assert forall|k: int| 0 <= k < i + 1 implies (#[trigger] items@[k]).0@ == types@[k]@
                && items@[k].1@.len() == 0 by {
                if k < i {
                    assert(items@[k] == before[k]);
                }
            }
            i += 1;
        }
        let ghost view = SelectionSetView { items: buckets_view(items@) };
        proof {
            assert forall|k: int| 0 <= k < types.len() implies view.items[k] == (
                types@[k]@,
                Seq::<FieldView>::empty(),
            ) by {
                assert(view.items[k].1 =~= Seq::<FieldView>::empty());
            }
            assert forall|a: int, b: int| 0 <= a < b < view.items.len() implies (
            #[trigger] view.items[a]).0 != (#[trigger] view.items[b]).0 by {
                assert(names_view(types@)[a] != names_view(types@)[b]);
            }
            assert(view.wf());
        }
        proof {
            (SelectionSet { items }).lemma_model();
            assert(view.type_names() =~= names_view(types@));
        }
        SelectionSet { items }
    }

    /// Return `true` if this selection set does not select any fields for
    /// its types.
    pub fn is_empty(&self) -> (empty: bool)
        ensures
            empty == self@.is_empty(),
    {
        proof {
            self.lemma_model();
        }
        let mut i: usize = 0;
        while i < self.items.len()
            invariant
                i <= self.items.len(),
                self@.items == buckets_view(self.items@),
                forall|k: int| 0 <= k < i ==> (#[trigger] self@.items[k]).1.len() == 0,
            decreases self.items.len() - i,
        {
            if self.items[i].1.len() != 0 {
                assert(self@.items[i as int].1.len() != 0);
                return false;
            }
            i += 1;
        }
        true
    }
}

impl SelectionSet {
    /// Merges the one field `new_field` into `fields`: where a field of the
    /// same response key is there, its selection set takes in that of
    /// `new_field`; else `new_field` is added at the end.
    fn merge_field(fields: &mut Vec<Field>, new_field: Field)
        requires
            fields_wf(fields_view(old(fields)@)),
            field_accepted(fields_view(old(fields)@), new_field@),
        ensures
            fields_view(final(fields)@) == with_field(fields_view(old(fields)@), new_field@),
            fields_wf(fields_view(final(fields)@)),
        decreases new_field.selection_set, 1int,
    {
        let ghost before = fields_view(fields@);
        proof {
            use_type_invariant(&new_field.selection_set);
        }
        match find_key(fields, new_field.response_key()) {
            Some(j) => {
                proof {
                    lemma_key_index(before, new_field@.response_key(), j as int);
                }
                fields[j].selection_set.merge(new_field.selection_set, Vec::new());
                proof {
                    let after = fields_view(fields@);
                    assert(directives_view(Seq::<Directive>::empty()) =~= Seq::<
                        DirectiveView,
                    >::empty());
                    assert(after =~= with_field(before, new_field@));
                    assert forall|a: int, b: int| 0 <= a < b < after.len() implies after[a].response_key()
                        != after[b].response_key() by {
                        assert(after[a].response_key() == before[a].response_key());
                        assert(after[b].response_key() == before[b].response_key());
                    }
                    assert forall|m: int| 0 <= m < after.len() implies (
                    #[trigger] after[m]).selection_set.wf() by {
                        if m != j {
                            assert(after[m] == before[m]);
                        }
                    }
                }
            },
            None => {
                fields.push(new_field);
                proof {
                    let after = fields_view(fields@);
                    assert(after =~= with_field(before, new_field@));
                    assert forall|a: int, b: int| 0 <= a < b < after.len() implies after[a].response_key()
                        != after[b].response_key() by {
                        assert(after[a] == before[a]);
                        if b < before.len() {
                            assert(after[b] == before[b]);
                        } else {
                            assert(before[a].response_key() != new_field@.response_key());
                        }
                    }
                    assert forall|m: int| 0 <= m < after.len() implies (
                    #[trigger] after[m]).selection_set.wf() by {
                        if m < before.len() {
                            assert(after[m] == before[m]);
                        }
                    }
                }
            },
        }
    }

    /// Merges the fields of `incoming` into `fields`, in order, each with
    /// `directives` put in front of its own.
    fn merge_fields(fields: &mut Vec<Field>, incoming: Vec<Field>, directives: &Vec<Directive>)
        requires
            fields_wf(fields_view(old(fields)@)),
            fields_wf(fields_view(incoming@)),
            fields_accept(fields_view(old(fields)@), fields_view(incoming@)),
        ensures
            fields_view(final(fields)@) == merged_fields(
                fields_view(old(fields)@),
                fields_view(incoming@),
                directives_view(directives@),
            ),
            fields_wf(fields_view(final(fields)@)),
        decreases incoming, 0int,
    {
        let ghost before = fields_view(fields@);
        let ghost source = fields_view(incoming@);
        let ghost extra = directives_view(directives@);
        let ghost incoming_seq = incoming@;
        proof {
            assert(merged_fields(before, source.take(0), extra) =~= before);
        }
        for field in it: incoming
            invariant
                it.seq() == incoming_seq,
                source == fields_view(incoming_seq),
                extra == directives_view(directives@),
                fields_wf(before),
                fields_wf(source),
                fields_accept(before, source),
                fields_wf(fields_view(fields@)),
                fields_view(fields@) == merged_fields(before, source.take(it.index() as int), extra),
        {
            let ghost k = it.index() as int;
            let mut field = field;
            assert(field@ == source[k]);
            field.prepend_directives(duplicate_directives(directives));
            proof {
                lemma_merge_step(before, source, extra, k);
                let key = source[k].response_key();
                if has_key(before, key) {
                    let j = key_index(before, key);
                    assert(before[j].response_key() == source[k].response_key());
                }
            }
            Self::merge_field(fields, field);
        }
        proof {
            assert(source.take(source.len() as int) =~= source);
        }
    }

    /// Merge `self` with the fields from `other`, which must have the same,
    /// or a subset of, the types of `self`. The `directives` are put in
    /// front of the directives of each field that is added, so that they
    /// take precedence over the directives it has.
    pub fn merge(&mut self, other: SelectionSet, directives: Vec<Directive>)
        requires
            old(self)@.accepts(other@),
        ensures
            final(self)@ == old(self)@.merged(other@, directives_view(directives@)),
            final(self)@.type_names() == old(self)@.type_names(),
            final(self)@.wf(),
        decreases other, 0int,
    {
        proof {
            use_type_invariant(&*self);
            use_type_invariant(&other);
            self.lemma_model();
            other.lemma_model();
        }
        let ghost target = self@;
        let ghost source = other@;
        let ghost extra = directives_view(directives@);
        let mut items: Vec<(String, Vec<Field>)> = Vec::new();
        std::mem::swap(&mut items, &mut self.items);
        proof {
            assert forall|b: int| 0 <= b < items.len() implies (#[trigger] items@[b]).0@
                == target.items[b].0 && fields_view(items@[b].1@) == target.items[b].1
                && fields_wf(fields_view(items@[b].1@)) by {
                assert(target.items[b] == buckets_view(items@)[b]);
            }
        }
        let ghost whole = other;
        let other_items = other.items;
        let ghost other_seq = other_items@;
        for bucket in it: other_items
            invariant
                it.seq() == other_seq,
                other_seq == whole.items@,
                whole == other,
                source.items == buckets_view(other_seq),
                extra == directives_view(directives@),
                target.wf(),
                source.wf(),
                target.accepts(source),
                items.len() == target.items.len(),
                forall|b: int|
                    0 <= b < items.len() ==> {
                        &&& (#[trigger] items@[b]).0@ == target.items[b].0
                        &&& fields_wf(fields_view(items@[b].1@))
                        &&& fields_view(items@[b].1@) == if source.has_type(target.items[b].0)
                            && source.type_index(target.items[b].0) < it.index() {
                            merged_fields(
                                target.items[b].1,
                                source.fields_of(target.items[b].0),
                                extra,
                            )
                        } else {
                            target.items[b].1
                        }
                    },
        {
            let ghost i = it.index() as int;
            let (other_name, other_fields) = bucket;
            assert(source.items[i] == (other_name@, fields_view(other_fields@)));
            let found = find_type(&items, other_name.as_str());
            proof {
                // The type is one of this set's, at one place only.
                let at = target.type_index(source.items[i].0);
                assert(target.items[at].0 == other_name@);
                assert(items@[at].0@ == other_name@);
            }
            let at = found.unwrap();
            proof {
                let chosen = target.type_index(source.items[i].0);
                if chosen < at {
                    assert(target.items[chosen].0 != target.items[at as int].0);
                } else if (at as int) < chosen {
                    assert(target.items[at as int].0 != target.items[chosen].0);
                }
                let back = source.type_index(target.items[at as int].0);
                assert(source.items[back].0 == source.items[i].0);
                if back < i {
                    assert(source.items[back].0 != source.items[i].0);
                } else if i < back {
                    assert(source.items[i].0 != source.items[back].0);
                }
            }
            let ghost previous = items@;
            proof {
                assert(decreases_to!(whole => whole.items));
                assert(decreases_to!(whole.items => whole.items@));
                assert(decreases_to!(other_seq => other_seq[i]));
                assert(decreases_to!(other_seq[i] => other_seq[i].1));
                assert(decreases_to!(other => other_fields));
            }
            Self::merge_fields(&mut items[at].1, other_fields, &directives);
            proof {
                assert forall|b: int| 0 <= b < items.len() implies {
                    &&& (#[trigger] items@[b]).0@ == target.items[b].0
                    &&& fields_wf(fields_view(items@[b].1@))
                    &&& fields_view(items@[b].1@) == if source.has_type(target.items[b].0)
                        && source.type_index(target.items[b].0) < i + 1 {
                        merged_fields(
                            target.items[b].1,
                            source.fields_of(target.items[b].0),
                            extra,
                        )
                    } else {
                        target.items[b].1
                    }
                } by {
                    if b != at {
                        assert(items@[b] == previous[b]);
                        if source.has_type(target.items[b].0) {
                            let o = source.type_index(target.items[b].0);
                            if o == i {
                                if b < at {
                                    assert(target.items[b].0 != target.items[at as int].0);
                                } else {
                                    assert(target.items[at as int].0 != target.items[b].0);
                                }
                            }
                        }
                    }
                }
            }
        }
        proof {
            let merged = target.merged(source, extra);
            assert(buckets_view(items@) =~= merged.items);
            (SelectionSet { items }).lemma_model();
            assert(merged.types_distinct()) by {
                assert forall|a: int, b: int| 0 <= a < b < merged.items.len() implies (
                #[trigger] merged.items[a]).0 != (#[trigger] merged.items[b]).0 by {
                    assert(target.items[a].0 != target.items[b].0);
                }
            }
            assert(merged.wf());
            assert(merged.type_names() =~= target.type_names());
        }
        self.items = items;
    }
}

/// The views of a sequence of borrowed fields, element by element.
pub open spec fn refs_view(fields: Seq<&Field>) -> Seq<FieldView> {
    Seq::new(fields.len(), |k: int| fields[k]@)
}

/// The views of a listing of types with their fields, element by element.
pub open spec fn listing_view(listing: Seq<(&str, Vec<&Field>)>) -> Seq<
    (Seq<char>, Seq<FieldView>),
> {
    Seq::new(listing.len(), |i: int| (listing[i].0@, refs_view(listing[i].1@)))
}

/// The test that keeps the fields which select something below themselves.
pub open spec fn is_interior() -> spec_fn(FieldView) -> bool {
    |field: FieldView| !field.is_leaf()
}

impl Field {
    /// Whether two fields denote the same value: position, alias, name,
    /// arguments, directives and selection set.
    pub fn same_as(&self, other: &Field) -> (same: bool)
        ensures
            same == (self@ == other@),
        decreases self,
    {
        let same_alias = match (&self.alias, &other.alias) {
            (Some(a), Some(b)) => *a == *b,
            (None, None) => true,
            _ => false,
        };
        same_alias && same_position(&self.position, &other.position) && self.name == other.name
            && same_named_values(&self.arguments, &other.arguments) && same_directives(
            &self.directives,
            &other.directives,
        ) && self.selection_set.same_as(&other.selection_set)
    }

    /// A deep copy.
    pub fn duplicate(&self) -> (copy: Field)
        ensures
            copy@ == self@,
        decreases self,
    {
        Field {
            position: self.position,
            alias: match &self.alias {
                Some(alias) => Some(alias.clone()),
                None => None,
            },
            name: self.name.clone(),
            arguments: duplicate_named_values(&self.arguments),
            directives: duplicate_directives(&self.directives),
            selection_set: self.selection_set.duplicate(),
        }
    }
}

/// Whether two lists of fields denote the same sequence.
fn same_fields(a: &Vec<Field>, b: &Vec<Field>) -> (same: bool)
    ensures
        same == (fields_view(a@) == fields_view(b@)),
    decreases a,
{
    if a.len() != b.len() {
        assert(fields_view(a@).len() != fields_view(b@).len());
        return false;
    }
    let mut k: usize = 0;
    while k < a.len()
        invariant
            k <= a.len(),
            a.len() == b.len(),
            forall|m: int| 0 <= m < k ==> a@[m]@ == b@[m]@,
        decreases a.len() - k,
    {
        if !a[k].same_as(&b[k]) {
            assert(fields_view(a@)[k as int] != fields_view(b@)[k as int]);
            return false;
        }
        k += 1;
    }
    assert(fields_view(a@) =~= fields_view(b@));
    true
}

/// Deep copies of a list of fields.
fn duplicate_fields(fields: &Vec<Field>) -> (copies: Vec<Field>)
    ensures
        fields_view(copies@) == fields_view(fields@),
    decreases fields,
{
    let mut copies: Vec<Field> = Vec::new();
    let mut k: usize = 0;
    while k < fields.len()
        invariant
            k <= fields.len(),
            copies.len() == k,
            forall|m: int| 0 <= m < k ==> copies@[m]@ == fields@[m]@,
        decreases fields.len() - k,
    {
        copies.push(fields[k].duplicate());
        k += 1;
    }
    assert(fields_view(copies@) =~= fields_view(fields@));
    copies
}

impl SelectionSet {
    /// Whether two sets denote the same table: the same types in the same
    /// order, each with the same fields in the same order.
    pub fn same_as(&self, other: &SelectionSet) -> (same: bool)
        ensures
            same == (self@ == other@),
        decreases self,
    {
        proof {
            self.lemma_model();
            other.lemma_model();
        }
        if self.items.len() != other.items.len() {
            assert(self@.items.len() != other@.items.len());
            return false;
        }
        let mut i: usize = 0;
        while i < self.items.len()
            invariant
                i <= self.items.len(),
                self.items.len() == other.items.len(),
                self@.items == buckets_view(self.items@),
                other@.items == buckets_view(other.items@),
                forall|m: int| 0 <= m < i ==> self@.items[m] == other@.items[m],
            decreases self.items.len() - i,
        {
            if self.items[i].0 != other.items[i].0 || !same_fields(
                &self.items[i].1,
                &other.items[i].1,
            ) {
                assert(self@.items[i as int] != other@.items[i as int]);
                return false;
            }
            i += 1;
        }
        assert(self@.items =~= other@.items);
        true
    }

    /// A deep copy.
    pub fn duplicate(&self) -> (copy: SelectionSet)
        ensures
            copy@ == self@,
        decreases self,
    {
        proof {
            use_type_invariant(self);
            self.lemma_model();
        }
        let mut items: Vec<(String, Vec<Field>)> = Vec::new();
        let mut i: usize = 0;
        while i < self.items.len()
            invariant
                i <= self.items.len(),
                items.len() == i,
                forall|m: int|
                    0 <= m < i ==> (#[trigger] items@[m]).0@ == self.items@[m].0@ && fields_view(
                        items@[m].1@,
                    ) == fields_view(self.items@[m].1@),
            decreases self.items.len() - i,
        {
            items.push((self.items[i].0.clone(), duplicate_fields(&self.items[i].1)));
            i += 1;
        }
        proof {
            assert(buckets_view(items@) =~= buckets_view(self.items@));
            (SelectionSet { items }).lemma_model();
        }
        SelectionSet { items }
    }

    /// Create a new `SelectionSet` that can handle the same types as
    /// `other`, but ignore all fields from `other`.
    pub fn empty_from(other: &SelectionSet) -> (set: SelectionSet)
        ensures
            set@ == other@.cleared(),
            set@.wf(),
    {
        proof {
            use_type_invariant(other);
            other.lemma_model();
        }
        let mut items: Vec<(String, Vec<Field>)> = Vec::new();
        let mut i: usize = 0;
        while i < other.items.len()
            invariant
                i <= other.items.len(),
                items.len() == i,
                forall|m: int|
                    0 <= m < i ==> (#[trigger] items@[m]).0@ == other.items@[m].0@
                        && items@[m].1@.len() == 0,
            decreases other.items.len() - i,
        {
            items.push((other.items[i].0.clone(), Vec::new()));
            i += 1;
        }
        proof {
            let cleared = other@.cleared();
            assert forall|m: int| 0 <= m < items.len() implies buckets_view(items@)[m]
                == cleared.items[m] by {
                assert(fields_view(items@[m].1@) =~= Seq::<FieldView>::empty());
            }
            assert(buckets_view(items@) =~= cleared.items);
            assert(cleared.types_distinct()) by {
                assert forall|a: int, b: int| 0 <= a < b < cleared.items.len() implies (
                #[trigger] cleared.items[a]).0 != (#[trigger] cleared.items[b]).0 by {
                    assert(other@.items[a].0 != other@.items[b].0);
                }
            }
            assert(cleared.wf());
            (SelectionSet { items }).lemma_model();
        }
        SelectionSet { items }
    }

    /// If the selection set contains a single field across all its types,
    /// return it. Otherwise, return `None`.
    pub fn single_field(&self) -> (found: Option<&Field>)
        ensures
            match found {
                Some(field) => self@.single_field() == Some(field@),
                None => self@.single_field() is None,
            },
    {
        proof {
            self.lemma_model();
        }
        if self.items.len() == 0 {
            return None;
        }
        if self.items[0].1.len() != 1 {
            assert(self@.items[0].1.len() != 1);
            return None;
        }
        let field = &self.items[0].1[0];
        let mut i: usize = 1;
        while i < self.items.len()
            invariant
                1 <= i <= self.items.len(),
                self@.items == buckets_view(self.items@),
                self.items@[0].1@.len() == 1,
                *field == self.items@[0].1@[0],
                forall|m: int| 0 <= m < i ==> (#[trigger] self@.items[m]).1 =~= seq![field@],
            decreases self.items.len() - i,
        {
            if self.items[i].1.len() != 1 {
                assert(self@.items[i as int].1.len() != 1);
                return None;
            }
            if !self.items[i].1[0].same_as(field) {
                assert(self@.items[i as int].1[0] != field@);
                return None;
            }
            i += 1;
        }
        assert(self@.items[0].1[0] == field@);
        Some(field)
    }

    /// All types, each with the fields selected for it.
    pub fn fields(&self) -> (listing: Vec<(&str, Vec<&Field>)>)
        ensures
            listing_view(listing@) == self@.items,
    {
        proof {
            self.lemma_model();
        }
        let mut listing: Vec<(&str, Vec<&Field>)> = Vec::new();
        let mut i: usize = 0;
        while i < self.items.len()
            invariant
                i <= self.items.len(),
                listing.len() == i,
                self@.items == buckets_view(self.items@),
                forall|m: int| 0 <= m < i ==> listing_view(listing@)[m] == self@.items[m],
            decreases self.items.len() - i,
        {
            let bucket = &self.items[i].1;
            let mut selected: Vec<&Field> = Vec::new();
            let mut k: usize = 0;
            while k < bucket.len()
                invariant
                    k <= bucket.len(),
                    selected.len() == k,
                    forall|m: int| 0 <= m < k ==> *selected@[m] == bucket@[m],
                decreases bucket.len() - k,
            {
                selected.push(&bucket[k]);
                k += 1;
            }
            assert(refs_view(selected@) =~= fields_view(bucket@));
            let ghost before = listing_view(listing@);
            listing.push((self.items[i].0.as_str(), selected));
            assert forall|m: int| 0 <= m < i + 1 implies listing_view(listing@)[m]
                == self@.items[m] by {
                if m < i {
                    assert(listing_view(listing@)[m] == before[m]);
                }
            }
            i += 1;
        }
        assert(listing_view(listing@) =~= self@.items);
        listing
    }

    /// All types, each with those of its fields that are not leaf fields,
    /// i.e. whose selection sets are not empty.
    pub fn interior_fields(&self) -> (listing: Vec<(&str, Vec<&Field>)>)
        ensures
            listing_view(listing@) == self@.interior().items,
    {
        proof {
            self.lemma_model();
        }
        let mut listing: Vec<(&str, Vec<&Field>)> = Vec::new();
        let mut i: usize = 0;
        while i < self.items.len()
            invariant
                i <= self.items.len(),
                listing.len() == i,
                self@.items == buckets_view(self.items@),
                forall|m: int| 0 <= m < i ==> listing_view(listing@)[m] == self@.interior().items[m],
            decreases self.items.len() - i,
        {
            let bucket = &self.items[i].1;
            let ghost all = fields_view(bucket@);
            let mut selected: Vec<&Field> = Vec::new();
            let mut k: usize = 0;
            proof {
                reveal(Seq::filter);
                assert(all.take(0).filter(is_interior()) =~= Seq::<FieldView>::empty());
            }
            while k < bucket.len()
                invariant
                    k <= bucket.len(),
                    all == fields_view(bucket@),
                    refs_view(selected@) == all.take(k as int).filter(is_interior()),
                decreases bucket.len() - k,
            {
                let ghost kept = refs_view(selected@);
                proof {
                    assert(all.take(k as int).push(all[k as int]) =~= all.take(k as int + 1));
                    all.take(k as int).lemma_filter_push(all[k as int], is_interior());
                }
                if !bucket[k].is_leaf() {
                    selected.push(&bucket[k]);
                    assert(refs_view(selected@) =~= kept.push(all[k as int]));
                }
                k += 1;
            }
            assert(all.take(bucket.len() as int) =~= all);
            let ghost before = listing_view(listing@);
            listing.push((self.items[i].0.as_str(), selected));
            assert forall|m: int| 0 <= m < i + 1 implies listing_view(listing@)[m]
                == self@.interior().items[m] by {
                if m < i {
                    assert(listing_view(listing@)[m] == before[m]);
                }
            }
            i += 1;
        }
        assert(listing_view(listing@) =~= self@.interior().items);
        listing
    }

    /// The fields selected for the given object type, which must be one of
    /// the set's types.
    pub fn fields_for(&self, obj_type: &str) -> (selected: Vec<&Field>)
        requires
            self@.has_type(obj_type@),
        ensures
            refs_view(selected@) == self@.fields_of(obj_type@),
    {
        proof {
            use_type_invariant(self);
            self.lemma_model();
            let chosen = self@.type_index(obj_type@);
            assert(self.items@[chosen].0@ == obj_type@);
        }
        let at = find_type(&self.items, obj_type).unwrap();
        proof {
            let chosen = self@.type_index(obj_type@);
            if chosen < at {
                assert(self@.items[chosen].0 != self@.items[at as int].0);
            } else if (at as int) < chosen {
                assert(self@.items[at as int].0 != self@.items[chosen].0);
            }
        }
        let bucket = &self.items[at].1;
        let mut selected: Vec<&Field> = Vec::new();
        let mut k: usize = 0;
        while k < bucket.len()
            invariant
                k <= bucket.len(),
                selected.len() == k,
                forall|m: int| 0 <= m < k ==> *selected@[m] == bucket@[m],
            decreases bucket.len() - k,
        {
            selected.push(&bucket[k]);
            k += 1;
        }
        assert(refs_view(selected@) =~= fields_view(bucket@));
        selected
    }

    /// Append the field for all the sets' types.
    pub fn push(&mut self, new_field: &Field)
        requires
            old(self)@.accepts_field(new_field@),
        ensures
            final(self)@ == old(self)@.pushed(new_field@),
            final(self)@.type_names() == old(self)@.type_names(),
            final(self)@.wf(),
    {
        proof {
            use_type_invariant(&*self);
            self.lemma_model();
        }
        let ghost target = self@;
        let mut items: Vec<(String, Vec<Field>)> = Vec::new();
        std::mem::swap(&mut items, &mut self.items);
        proof {
            assert forall|m: int| 0 <= m < items.len() implies (#[trigger] items@[m]).0@
                == target.items[m].0 && fields_view(items@[m].1@) == target.items[m].1
                && fields_wf(fields_view(items@[m].1@)) by {
                assert(target.items[m] == buckets_view(items@)[m]);
            }
        }
        let mut b: usize = 0;
        while b < items.len()
            invariant
                b <= items.len(),
                items.len() == target.items.len(),
                target.wf(),
                target.accepts_field(new_field@),
                forall|m: int|
                    0 <= m < items.len() ==> {
                        &&& (#[trigger] items@[m]).0@ == target.items[m].0
                        &&& fields_wf(fields_view(items@[m].1@))
                        &&& fields_view(items@[m].1@) == if m < b {
                            with_field(target.items[m].1, new_field@)
                        } else {
                            target.items[m].1
                        }
                    },
            decreases items.len() - b,
        {
            let ghost previous = items@;
            assert(field_accepted(target.items[b as int].1, new_field@));
            Self::merge_field(&mut items[b].1, new_field.duplicate());
            proof {
                assert forall|m: int| 0 <= m < items.len() implies {
                    &&& (#[trigger] items@[m]).0@ == target.items[m].0
                    &&& fields_wf(fields_view(items@[m].1@))
                    &&& fields_view(items@[m].1@) == if m < b + 1 {
                        with_field(target.items[m].1, new_field@)
                    } else {
                        target.items[m].1
                    }
                } by {
                    if m != b {
                        assert(items@[m] == previous[m]);
                    }
                }
            }
            b += 1;
        }
        proof {
            let pushed = target.pushed(new_field@);
            assert(buckets_view(items@) =~= pushed.items);
            (SelectionSet { items }).lemma_model();
            assert(pushed.types_distinct()) by {
                assert forall|a: int, c: int| 0 <= a < c < pushed.items.len() implies (
                #[trigger] pushed.items[a]).0 != (#[trigger] pushed.items[c]).0 by {
                    assert(target.items[a].0 != target.items[c].0);
                }
            }
            assert(pushed.wf());
            assert(pushed.type_names() =~= target.type_names());
        }
        self.items = items;
    }

    /// Append the fields for all the sets' types, one after the other.
    pub fn push_fields(&mut self, fields: Vec<&Field>)
        requires
            old(self)@.accepts_fields(refs_view(fields@)),
        ensures
            final(self)@ == old(self)@.pushed_all(refs_view(fields@)),
            final(self)@.type_names() == old(self)@.type_names(),
            final(self)@.wf(),
    {
        proof {
            use_type_invariant(&*self);
        }
        let ghost target = self@;
        let ghost all = refs_view(fields@);
        assert(all.skip(0) =~= all);
        let mut k: usize = 0;
        while k < fields.len()
            invariant
                k <= fields.len(),
                all == refs_view(fields@),
                self@.wf(),
                self@.type_names() == target.type_names(),
                self@.accepts_fields(all.skip(k as int)),
                self@.pushed_all(all.skip(k as int)) == target.pushed_all(all),
            decreases fields.len() - k,
        {
            proof {
                assert(all.skip(k as int).drop_first() =~= all.skip(k as int + 1));
                assert(all.skip(k as int)[0] == fields@[k as int]@);
            }
            self.push(fields[k]);
            k += 1;
        }
    }
}

/// Whether `incoming` can be merged into `fields`.
fn fields_accept_all(fields: &Vec<Field>, incoming: &Vec<Field>) -> (ok: bool)
    requires
        keys_distinct(fields_view(fields@)),
    ensures
        ok == fields_accept(fields_view(fields@), fields_view(incoming@)),
    decreases incoming,
{
    let ghost own = fields_view(fields@);
    let ghost new = fields_view(incoming@);
    let mut k: usize = 0;
    while k < incoming.len()
        invariant
            k <= incoming.len(),
            own == fields_view(fields@),
            new == fields_view(incoming@),
            keys_distinct(own),
            forall|j: int, m: int|
                0 <= j < own.len() && 0 <= m < k && (#[trigger] own[j]).response_key() == (
                #[trigger] new[m]).response_key() ==> own[j].selection_set.accepts(
                    new[m].selection_set,
                ),
        decreases incoming.len() - k,
    {
        match find_key(fields, incoming[k].response_key()) {
            Some(j) => {
                let fits = fields[j].selection_set.accepts(&incoming[k].selection_set);
                if !fits {
                    assert(own[j as int].response_key() == new[k as int].response_key());
                    return false;
                }
                assert forall|a: int|
                    0 <= a < own.len() && (#[trigger] own[a]).response_key()
                        == new[k as int].response_key() implies own[a].selection_set.accepts(
                    new[k as int].selection_set,
                ) by {
                    lemma_key_index(own, new[k as int].response_key(), a);
                    lemma_key_index(own, new[k as int].response_key(), j as int);
                }
            },
            None => {
                assert forall|a: int| 0 <= a < own.len() implies (#[trigger] own[a]).response_key()
                    != new[k as int].response_key() by {
                    if own[a].response_key() == new[k as int].response_key() {
                        assert(has_key(own, new[k as int].response_key()));
                    }
                }
            },
        }
        k += 1;
    }
    true
}

impl SelectionSet {
    /// Whether `name` is one of the set's types.
    pub fn has_type(&self, name: &str) -> (found: bool)
        ensures
            found == self@.has_type(name@),
    {
        proof {
            self.lemma_model();
        }
        match find_type(&self.items, name) {
            Some(at) => {
                assert(self@.items[at as int].0 == name@);
                true
            },
            None => {
                assert forall|i: int| 0 <= i < self@.items.len() implies (
                #[trigger] self@.items[i]).0 != name@ by {
                    assert(self.items@[i].0@ != name@);
                }
                false
            },
        }
    }

    /// Whether `other` can be merged into this set: whether each of its
    /// types is one of this set's, here and wherever two fields of the same
    /// type and response key meet below.
    pub fn accepts(&self, other: &SelectionSet) -> (ok: bool)
        ensures
            ok == self@.accepts(other@),
        decreases other,
    {
        proof {
            use_type_invariant(self);
            self.lemma_model();
            other.lemma_model();
        }
        let mut i: usize = 0;
        while i < other.items.len()
            invariant
                i <= other.items.len(),
                self@.wf(),
                self@.items == buckets_view(self.items@),
                other@.items == buckets_view(other.items@),
                forall|m: int|
                    0 <= m < i ==> self@.has_type((#[trigger] other@.items[m]).0) && fields_accept(
                        self@.fields_of(other@.items[m].0),
                        other@.items[m].1,
                    ),
            decreases other.items.len() - i,
        {
            let ghost name = other@.items[i as int].0;
            assert(name == other.items@[i as int].0@);
            match find_type(&self.items, other.items[i].0.as_str()) {
                None => {
                    assert forall|b: int| 0 <= b < self@.items.len() implies (
                    #[trigger] self@.items[b]).0 != name by {
                        assert(self.items@[b].0@ != name);
                    }
                    assert(!self@.has_type(other@.items[i as int].0));
                    return false;
                },
                Some(at) => {
                    proof {
                        assert(self@.items[at as int].0 == name);
                        let chosen = self@.type_index(name);
                        if chosen < at {
                            assert(self@.items[chosen].0 != self@.items[at as int].0);
                        } else if (at as int) < chosen {
                            assert(self@.items[at as int].0 != self@.items[chosen].0);
                        }
                        assert(self@.fields_of(name) == fields_view(self.items@[at as int].1@));
                        assert(fields_wf(self@.items[at as int].1));
                    }
                    if !fields_accept_all(&self.items[at].1, &other.items[i].1) {
                        return false;
                    }
                },
            }
            i += 1;
        }
        true
    }

    /// Whether `field` can be pushed: whether, for every type that has a
    /// field of the same response key, that field's selection set accepts
    /// the one of `field`.
    pub fn accepts_field(&self, field: &Field) -> (ok: bool)
        ensures
            ok == self@.accepts_field(field@),
    {
        proof {
            use_type_invariant(self);
            self.lemma_model();
        }
        let mut b: usize = 0;
        while b < self.items.len()
            invariant
                b <= self.items.len(),
                self@.wf(),
                self@.items == buckets_view(self.items@),
                forall|m: int| 0 <= m < b ==> field_accepted((#[trigger] self@.items[m]).1, field@),
            decreases self.items.len() - b,
        {
            let bucket = &self.items[b].1;
            proof {
                assert(self@.items[b as int].1 == fields_view(bucket@));
                assert(fields_wf(self@.items[b as int].1));
            }
            match find_key(bucket, field.response_key()) {
                Some(j) => {
                    proof {
                        lemma_key_index(fields_view(bucket@), field@.response_key(), j as int);
                    }
                    if !bucket[j].selection_set.accepts(&field.selection_set) {
                        return false;
                    }
                },
                None => {},
            }
            b += 1;
        }
        true
    }
}

impl PartialEq for Field {
    /// Two fields are equal when they denote the same value.
    fn eq(&self, other: &Field) -> (same: bool) {
        self.same_as(other)
    }
}

impl PartialEqSpecImpl for Field {
    open spec fn obeys_eq_spec() -> bool {
        true
    }

    open spec fn eq_spec(&self, other: &Field) -> bool {
        self@ == other@
    }
}

impl Clone for Field {
    /// A deep copy.
    fn clone(&self) -> (copy: Field)
        ensures
            copy@ == self@,
    {
        self.duplicate()
    }
}

impl PartialEq for SelectionSet {
    /// Two sets are equal when they denote the same table.
    fn eq(&self, other: &SelectionSet) -> (same: bool) {
        self.same_as(other)
    }
}

impl PartialEqSpecImpl for SelectionSet {
    open spec fn obeys_eq_spec() -> bool {
        true
    }

    open spec fn eq_spec(&self, other: &SelectionSet) -> bool {
        self@ == other@
    }
}

impl Clone for SelectionSet {
    /// A deep copy.
    fn clone(&self) -> (copy: SelectionSet)
        ensures
            copy@ == self@,
    {
        self.duplicate()
    }
}

} // verus!
