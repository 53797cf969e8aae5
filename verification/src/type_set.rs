//! The object types that are in play at a point of a query.

use crate::error::{QueryExecutionError, QueryExecutionErrorView};
use crate::names::NameSet;
use crate::schema::{resolve_object_types, Schema, SchemaView};
use crate::text::{names_distinct, names_view};
use vstd::prelude::*;
use vstd::std_specs::cmp::PartialEqSpecImpl;

verus! {

/// The type condition of a fragment: `on` and the name of a type.
#[derive(Debug, PartialEq, Eq)]
pub enum TypeCondition {
    On(String),
}

/// A set of object types, generated from resolving interfaces into the
/// object types that implement them, and possibly narrowing further when
/// expanding fragments with type conditions.
#[derive(Debug)]
pub enum ObjectTypeSet {
    /// Every object type.
    Any,
    /// The object types named in the set, and no others.
    Only(NameSet),
}

/// What an [`ObjectTypeSet`] denotes.
pub enum ObjectTypeSetView {
    Any,
    Only(Set<Seq<char>>),
}

impl ObjectTypeSetView {
    /// Whether the object type called `name` is in the set.
    pub open spec fn matches_name(self, name: Seq<char>) -> bool {
        match self {
            ObjectTypeSetView::Any => true,
            ObjectTypeSetView::Only(names) => names.contains(name),
        }
    }

    /// The object types that are in both sets.
    pub open spec fn intersect(self, other: ObjectTypeSetView) -> ObjectTypeSetView {
        match self {
            ObjectTypeSetView::Any => other,
            ObjectTypeSetView::Only(names) => match other {
                ObjectTypeSetView::Any => ObjectTypeSetView::Only(names),
                ObjectTypeSetView::Only(others) => ObjectTypeSetView::Only(names.intersect(others)),
            },
        }
    }

    /// Those of `objects` that are in the set.
    pub open spec fn narrow(self, objects: Set<Seq<char>>) -> Set<Seq<char>> {
        objects.filter(|name: Seq<char>| self.matches_name(name))
    }
}

impl View for ObjectTypeSet {
    type V = ObjectTypeSetView;

    open spec fn view(&self) -> ObjectTypeSetView {
        match self {
            ObjectTypeSet::Any => ObjectTypeSetView::Any,
            ObjectTypeSet::Only(names) => ObjectTypeSetView::Only(names@),
        }
    }
}

/// What resolving `name` into a set of object types gives: the object types
/// that the name denotes, and no others, or the error of the resolution.
pub open spec fn set_from_name(schema: SchemaView, name: Seq<char>) -> Result<
    ObjectTypeSetView,
    QueryExecutionErrorView,
> {
    match schema.object_types(name) {
        Ok(objects) => Ok(ObjectTypeSetView::Only(objects)),
        Err(error) => Err(error),
    }
}

/// Whether an outcome is the given one.
pub open spec fn same_set_outcome(
    outcome: Result<ObjectTypeSet, QueryExecutionError>,
    given: Result<ObjectTypeSetView, QueryExecutionErrorView>,
) -> bool {
    match outcome {
        Ok(set) => given == Ok::<ObjectTypeSetView, QueryExecutionErrorView>(set@),
        Err(error) => given == Err::<ObjectTypeSetView, QueryExecutionErrorView>(error@),
    }
}

impl ObjectTypeSet {
    /// The set for an optional type condition: every object type where there
    /// is none, else the object types that the named type denotes.
    pub fn convert(schema: &Schema, type_cond: Option<&TypeCondition>) -> (outcome: Result<
        ObjectTypeSet,
        QueryExecutionError,
    >)
        ensures
            match type_cond {
                Some(TypeCondition::On(name)) => same_set_outcome(
                    outcome,
                    set_from_name(schema@, name@),
                ),
                None => same_set_outcome(outcome, Ok(ObjectTypeSetView::Any)),
            },
    {
        match type_cond {
            Some(TypeCondition::On(name)) => Self::from_name(schema, name.as_str()),
            None => Ok(ObjectTypeSet::Any),
        }
    }

    /// The set of the object types that the type called `name` denotes.
    pub fn from_name(schema: &Schema, name: &str) -> (outcome: Result<
        ObjectTypeSet,
        QueryExecutionError,
    >)
        ensures
            same_set_outcome(outcome, set_from_name(schema@, name@)),
            outcome matches Ok(ObjectTypeSet::Only(names)) ==> schema@.all_objects(names@),
    {
        match resolve_object_types(schema, name) {
            Ok(objects) => Ok(ObjectTypeSet::Only(objects)),
            Err(error) => Err(error),
        }
    }

    /// Whether the object type called `name` is in the set.
    pub fn matches_name(&self, name: &str) -> (matches: bool)
        ensures
            matches == self@.matches_name(name@),
    {
        match self {
            ObjectTypeSet::Any => true,
            ObjectTypeSet::Only(names) => names.contains(name),
        }
    }

    /// The object types that are in this set and in `other`.
    pub fn intersect(self, other: &ObjectTypeSet) -> (common: ObjectTypeSet)
        ensures
            common@ == self@.intersect(other@),
    {
        match self {
            ObjectTypeSet::Any => other.duplicate(),
            ObjectTypeSet::Only(names) => match other {
                ObjectTypeSet::Any => ObjectTypeSet::Only(names),
                ObjectTypeSet::Only(others) => ObjectTypeSet::Only(names.intersection(others)),
            },
        }
    }

    /// Return a list of the object type names that are in this type set and
    /// are also implementations of `current_type`. Each name is listed
    /// once; the order of the list carries no meaning.
    pub fn type_names(&self, schema: &Schema, current_type: &str) -> (outcome: Result<
        Vec<String>,
        QueryExecutionError,
    >)
        ensures
            match outcome {
                Ok(names) => schema@.object_types(current_type@) is Ok && names_distinct(names@)
                    && names_view(names@).to_set() == self@.narrow(
                    schema@.object_types(current_type@)->Ok_0,
                ) && schema@.all_objects(names_view(names@).to_set()),
                Err(error) => schema@.object_types(current_type@) == Err::<
                    Set<Seq<char>>,
                    QueryExecutionErrorView,
                >(error@),
            },
    {
        match resolve_object_types(schema, current_type) {
            Ok(objects) => match self {
                ObjectTypeSet::Any => {
                    assert(self@.narrow(objects@) =~= objects@);
                    Ok(objects.to_vec())
                },
                ObjectTypeSet::Only(names) => {
                    let common = objects.intersection(names);
                    assert(self@.narrow(objects@) =~= common@);
                    Ok(common.to_vec())
                },
            },
            Err(error) => Err(error),
        }
    }

    /// A copy of the set.
    pub fn duplicate(&self) -> (copy: ObjectTypeSet)
        ensures
            copy@ == self@,
    {
        match self {
            ObjectTypeSet::Any => ObjectTypeSet::Any,
            ObjectTypeSet::Only(names) => ObjectTypeSet::Only(names.duplicate()),
        }
    }

    /// Whether two sets hold the same object types.
    pub fn same_as(&self, other: &ObjectTypeSet) -> (same: bool)
        ensures
            same == (self@ == other@),
    {
        match (self, other) {
            (ObjectTypeSet::Any, ObjectTypeSet::Any) => true,
            (ObjectTypeSet::Only(names), ObjectTypeSet::Only(others)) => names.same_as(others),
            _ => false,
        }
    }
}

/// Intersecting with the set of every object type changes nothing, on
/// either side.
pub proof fn lemma_intersect_any(set: ObjectTypeSetView)
    ensures
        set.intersect(ObjectTypeSetView::Any) == set,
        ObjectTypeSetView::Any.intersect(set) == set,
{
}

/// An object type is in the intersection of two sets exactly where it is in
/// both: intersecting never adds an object type to either set.
pub proof fn lemma_intersect_matches_both(
    set: ObjectTypeSetView,
    other: ObjectTypeSetView,
    name: Seq<char>,
)
    ensures
        set.intersect(other).matches_name(name) == (set.matches_name(name) && other.matches_name(
            name,
        )),
{
}

/// The intersection of two explicit sets holds what both hold, and so has
/// at most as many object types as the smaller of them.
pub proof fn lemma_intersect_shrinks(names: Set<Seq<char>>, others: Set<Seq<char>>)
    requires
        names.finite(),
        others.finite(),
    ensures
        ObjectTypeSetView::Only(names).intersect(ObjectTypeSetView::Only(others))
            == ObjectTypeSetView::Only(names.intersect(others)),
        names.intersect(others).finite(),
        names.intersect(others).len() <= names.len(),
        names.intersect(others).len() <= others.len(),
{
    vstd::set_lib::lemma_len_intersect(names, others);
    vstd::set_lib::lemma_len_intersect(others, names);
    assert(names.intersect(others) =~= others.intersect(names));
}

impl PartialEq for ObjectTypeSet {
    /// Two sets are equal when they hold the same object types.
    fn eq(&self, other: &ObjectTypeSet) -> (same: bool) {
        self.same_as(other)
    }
}

impl PartialEqSpecImpl for ObjectTypeSet {
    open spec fn obeys_eq_spec() -> bool {
        true
    }

    open spec fn eq_spec(&self, other: &ObjectTypeSet) -> bool {
        self@ == other@
    }
}

impl Clone for ObjectTypeSet {
    /// A copy of the set.
    fn clone(&self) -> (copy: ObjectTypeSet)
        ensures
            copy@ == self@,
    {
        self.duplicate()
    }
}

} // verus!
