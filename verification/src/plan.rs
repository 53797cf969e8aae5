//! What fields and selection sets denote, and what merging makes of them.
//!
//! Everything here is mathematics over sequences: the executable types of
//! [`crate::selection`] are measured against it.

use crate::directive::DirectiveView;
use crate::value::ValueView;
use graphql_parser::Pos;
use vstd::prelude::*;

verus! {

/// What a [`Field`] denotes.
pub struct FieldView {
    pub position: Pos,
    pub alias: Option<Seq<char>>,
    pub name: Seq<char>,
    pub arguments: Seq<(Seq<char>, ValueView)>,
    pub directives: Seq<DirectiveView>,
    pub selection_set: SelectionSetView,
}

/// What a [`SelectionSet`] denotes: its types in order, each with its fields
/// in order.
pub struct SelectionSetView {
    pub items: Seq<(Seq<char>, Seq<FieldView>)>,
}

/// Whether some field of `fields` has the response key `key`.
pub open spec fn has_key(fields: Seq<FieldView>, key: Seq<char>) -> bool {
    exists|i: int| 0 <= i < fields.len() && #[trigger] fields[i].response_key() == key
}

/// The place of a field of `fields` with the response key `key`.
pub open spec fn key_index(fields: Seq<FieldView>, key: Seq<char>) -> int {
    choose|i: int| 0 <= i < fields.len() && #[trigger] fields[i].response_key() == key
}

/// Whether no two fields of `fields` share a response key.
pub open spec fn keys_distinct(fields: Seq<FieldView>) -> bool {
    forall|i: int, j: int|
        0 <= i < j < fields.len() ==> #[trigger] fields[i].response_key()
            != #[trigger] fields[j].response_key()
}

impl FieldView {
    /// The key under which the field appears in the response: its alias if
    /// it has one, else its name.
    pub open spec fn response_key(self) -> Seq<char> {
        match self.alias {
            Some(alias) => alias,
            None => self.name,
        }
    }

    /// Whether the field selects nothing below itself.
    pub open spec fn is_leaf(self) -> bool {
        self.selection_set.is_empty()
    }

    /// The field with `directives` put in front of its own.
    pub open spec fn with_directives_first(self, directives: Seq<DirectiveView>) -> FieldView {
        FieldView { directives: directives + self.directives, ..self }
    }
}

impl SelectionSetView {
    /// The types of the set, in order.
    pub open spec fn type_names(self) -> Seq<Seq<char>> {
        Seq::new(self.items.len(), |i: int| self.items[i].0)
    }

    /// Whether `name` is one of the set's types.
    pub open spec fn has_type(self, name: Seq<char>) -> bool {
        exists|i: int| 0 <= i < self.items.len() && #[trigger] self.items[i].0 == name
    }

    /// The place of the type `name` in the set.
    pub open spec fn type_index(self, name: Seq<char>) -> int {
        choose|i: int| 0 <= i < self.items.len() && #[trigger] self.items[i].0 == name
    }

    /// The fields selected for the type `name`.
    pub open spec fn fields_of(self, name: Seq<char>) -> Seq<FieldView> {
        self.items[self.type_index(name)].1
    }

    /// Whether no field is selected for any type.
    pub open spec fn is_empty(self) -> bool {
        forall|i: int| 0 <= i < self.items.len() ==> (#[trigger] self.items[i]).1.len() == 0
    }

    /// Whether no type occurs twice.
    pub open spec fn types_distinct(self) -> bool {
        forall|i: int, j: int|
            0 <= i < j < self.items.len() ==> (#[trigger] self.items[i]).0 != (
            #[trigger] self.items[j]).0
    }

    /// The invariant of a selection set, at every depth: no type occurs
    /// twice, and no list of fields holds a response key twice.
    pub open spec fn wf(self) -> bool
        decreases self,
    {
        &&& self.types_distinct()
        &&& forall|i: int| 0 <= i < self.items.len() ==> fields_wf((#[trigger] self.items[i]).1)
    }

    /// Whether `other` can be merged into this set: each of its types is
    /// one of this set's, and wherever a field of `other` meets a field of
    /// this set under the same type and response key, the same holds of
    /// their selection sets.
    pub open spec fn accepts(self, other: SelectionSetView) -> bool
        decreases other, 1int,
    {
        forall|i: int|
            0 <= i < other.items.len() ==> {
                &&& self.has_type((#[trigger] other.items[i]).0)
                &&& fields_accept(self.fields_of(other.items[i].0), other.items[i].1)
            }
    }

    /// The set after `other` was merged into it with `directives`. Types
    /// that `other` lacks keep their fields.
    pub open spec fn merged(
        self,
        other: SelectionSetView,
        directives: Seq<DirectiveView>,
    ) -> SelectionSetView
        decreases other, 2int,
    {
        SelectionSetView {
            items: Seq::new(
                self.items.len(),
                |i: int|
                    (
                        self.items[i].0,
                        if other.has_type(self.items[i].0) {
                            merged_fields(
                                self.items[i].1,
                                other.fields_of(self.items[i].0),
                                directives,
                            )
                        } else {
                            self.items[i].1
                        },
                    ),
            ),
        }
    }

    /// Whether `field` can be pushed: wherever it meets a field of the same
    /// response key, that field's selection set accepts its own.
    pub open spec fn accepts_field(self, field: FieldView) -> bool {
        forall|i: int|
            0 <= i < self.items.len() ==> field_accepted((#[trigger] self.items[i]).1, field)
    }

    /// The set after `field` was pushed for every type.
    pub open spec fn pushed(self, field: FieldView) -> SelectionSetView {
        SelectionSetView {
            items: Seq::new(
                self.items.len(),
                |i: int| (self.items[i].0, with_field(self.items[i].1, field)),
            ),
        }
    }

    /// Whether the fields of `fields` can be pushed one after the other.
    pub open spec fn accepts_fields(self, fields: Seq<FieldView>) -> bool
        decreases fields.len(),
    {
        fields.len() > 0 ==> self.accepts_field(fields[0]) && self.pushed(
            fields[0],
        ).accepts_fields(fields.drop_first())
    }

    /// The set after the fields of `fields` were pushed one after the other.
    pub open spec fn pushed_all(self, fields: Seq<FieldView>) -> SelectionSetView
        decreases fields.len(),
    {
        if fields.len() == 0 {
            self
        } else {
            self.pushed(fields[0]).pushed_all(fields.drop_first())
        }
    }

    /// The field that every type selects alone, if there is such a field.
    pub open spec fn single_field(self) -> Option<FieldView> {
        if self.items.len() > 0 && forall|i: int|
            0 <= i < self.items.len() ==> (#[trigger] self.items[i]).1 == seq![
                self.items[0].1[0],
            ] {
            Some(self.items[0].1[0])
        } else {
            None
        }
    }

    /// The set with the fields left out that select nothing below
    /// themselves.
    pub open spec fn interior(self) -> SelectionSetView {
        SelectionSetView {
            items: Seq::new(
                self.items.len(),
                |i: int|
                    (self.items[i].0, self.items[i].1.filter(|f: FieldView| !f.is_leaf())),
            ),
        }
    }

    /// The set with the same types and no fields.
    pub open spec fn cleared(self) -> SelectionSetView {
        SelectionSetView {
            items: Seq::new(
                self.items.len(),
                |i: int| (self.items[i].0, Seq::<FieldView>::empty()),
            ),
        }
    }
}

/// The invariant of one list of fields: no response key occurs twice, and
/// every selection set below is well-formed.
pub open spec fn fields_wf(fields: Seq<FieldView>) -> bool
    decreases fields,
{
    &&& keys_distinct(fields)
    &&& forall|k: int| 0 <= k < fields.len() ==> (#[trigger] fields[k]).selection_set.wf()
}

/// Whether `incoming` can be merged into `fields`: wherever two fields
/// share a response key, the selection set of the first accepts that of the
/// second.
pub open spec fn fields_accept(fields: Seq<FieldView>, incoming: Seq<FieldView>) -> bool
    decreases incoming, 0int,
{
    forall|j: int, k: int|
        0 <= j < fields.len() && 0 <= k < incoming.len() && (#[trigger] fields[j]).response_key()
            == (#[trigger] incoming[k]).response_key() ==> fields[j].selection_set.accepts(
            incoming[k].selection_set,
        )
}

/// Whether the one field `field` can be merged into `fields`.
pub open spec fn field_accepted(fields: Seq<FieldView>, field: FieldView) -> bool {
    has_key(fields, field.response_key()) ==> fields[key_index(
        fields,
        field.response_key(),
    )].selection_set.accepts(field.selection_set)
}

/// One field after `incoming` was merged into its list: where `incoming`
/// holds a field of the same response key, the selection set of that field
/// is merged into this one's, and nothing else of it is taken over.
pub open spec fn merged_field(field: FieldView, incoming: Seq<FieldView>) -> FieldView
    decreases incoming, 0int,
{
    if has_key(incoming, field.response_key()) {
        FieldView {
            selection_set: field.selection_set.merged(
                incoming[key_index(incoming, field.response_key())].selection_set,
                Seq::empty(),
            ),
            ..field
        }
    } else {
        field
    }
}

/// The fields of `incoming` whose response key `fields` lacks, in order,
/// each with `directives` put in front of its own.
pub open spec fn appended_fields(
    fields: Seq<FieldView>,
    incoming: Seq<FieldView>,
    directives: Seq<DirectiveView>,
) -> Seq<FieldView>
    decreases incoming.len(),
{
    if incoming.len() == 0 {
        Seq::empty()
    } else {
        let before = appended_fields(fields, incoming.drop_last(), directives);
        if has_key(fields, incoming.last().response_key()) {
            before
        } else {
            before.push(incoming.last().with_directives_first(directives))
        }
    }
}

/// A list of fields after `incoming` was merged into it with `directives`:
/// first its own fields, each merged with the field of `incoming` that has
/// its response key, then the fields of `incoming` whose key is new.
pub open spec fn merged_fields(
    fields: Seq<FieldView>,
    incoming: Seq<FieldView>,
    directives: Seq<DirectiveView>,
) -> Seq<FieldView>
    decreases incoming, 1int,
{
    Seq::new(
        fields.len(),
        |j: int| merged_field(fields[j], incoming),
    ) + appended_fields(fields, incoming, directives)
}

/// A list of fields after the one field `field` was merged into it: the
/// field of the same response key takes in its selection set, or, where
/// there is none, `field` is added at the end.
pub open spec fn with_field(fields: Seq<FieldView>, field: FieldView) -> Seq<FieldView> {
    if has_key(fields, field.response_key()) {
        let j = key_index(fields, field.response_key());
        fields.update(
            j,
            FieldView {
                selection_set: fields[j].selection_set.merged(field.selection_set, Seq::empty()),
                ..fields[j]
            },
        )
    } else {
        fields.push(field)
    }
}

} // verus!
