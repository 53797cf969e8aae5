//! The schema, as far as planning reads it: the named types with their
//! kinds, and for each interface the object types that implement it.

use crate::error::{QueryExecutionError, QueryExecutionErrorView};
use crate::names::NameSet;
use crate::text::{first_named, lemma_first_named, names_view, same_text};
use vstd::prelude::*;

verus! {

/// The kind of a named type. A union lists its member types by name.
#[derive(Debug)]
pub enum TypeKind {
    Scalar,
    Object,
    Interface,
    Union(Vec<String>),
    Enum,
    InputObject,
}

/// A named type of the schema.
#[derive(Debug)]
pub struct TypeDefinition {
    pub name: String,
    pub kind: TypeKind,
}

/// What a [`TypeKind`] denotes.
pub enum TypeKindView {
    Scalar,
    Object,
    Interface,
    Union(Seq<Seq<char>>),
    Enum,
    InputObject,
}

impl View for TypeKind {
    type V = TypeKindView;

    open spec fn view(&self) -> TypeKindView {
        match self {
            TypeKind::Scalar => TypeKindView::Scalar,
            TypeKind::Object => TypeKindView::Object,
            TypeKind::Interface => TypeKindView::Interface,
            TypeKind::Union(members) => TypeKindView::Union(names_view(members@)),
            TypeKind::Enum => TypeKindView::Enum,
            TypeKind::InputObject => TypeKindView::InputObject,
        }
    }
}

/// A validated schema. Every interface has an entry in the table of
/// implementers, every implementer is an object type of the schema, and
/// no type resolves by way of a union that contains itself.
#[derive(Debug)]
pub struct Schema {
    types: Vec<TypeDefinition>,
    implementers: Vec<(String, Vec<String>)>,
}

/// What a [`Schema`] denotes: the named types in order, and the table from
/// interfaces to their implementers. A lookup by name finds the first
/// entry of that name.
pub struct SchemaView {
    pub types: Seq<(Seq<char>, TypeKindView)>,
    pub implementers: Seq<(Seq<char>, Seq<Seq<char>>)>,
}

/// The views of a sequence of type definitions, element by element.
pub open spec fn types_view(types: Seq<TypeDefinition>) -> Seq<(Seq<char>, TypeKindView)> {
    Seq::new(types.len(), |i: int| (types[i].name@, types[i].kind@))
}

/// The views of the entries of a table of implementers, element by element.
pub open spec fn table_view(table: Seq<(String, Vec<String>)>) -> Seq<
    (Seq<char>, Seq<Seq<char>>),
> {
    Seq::new(table.len(), |i: int| (table[i].0@, names_view(table[i].1@)))
}

/// The schema that the two lists denote.
pub open spec fn schema_view(
    types: Seq<TypeDefinition>,
    table: Seq<(String, Vec<String>)>,
) -> SchemaView {
    SchemaView { types: types_view(types), implementers: table_view(table) }
}

/// The object types found so far, together with what the rest resolves to.
pub open spec fn join(
    first: Set<Seq<char>>,
    rest: Option<Result<Set<Seq<char>>, QueryExecutionErrorView>>,
) -> Option<Result<Set<Seq<char>>, QueryExecutionErrorView>> {
    match rest {
        Some(Ok(others)) => Some(Ok(first.union(others))),
        other => other,
    }
}

impl SchemaView {
    /// The kind of the type called `name`.
    pub open spec fn named_type(self, name: Seq<char>) -> Option<TypeKindView> {
        first_named(self.types, name)
    }

    /// The object types that implement the interface called `name`.
    pub open spec fn types_for_interface(self, name: Seq<char>) -> Option<Seq<Seq<char>>> {
        first_named(self.implementers, name)
    }

    /// The object types that `name` denotes, where unions are followed at
    /// most `depth` levels into their members; `None` where that is not
    /// deep enough. An object type denotes itself, an interface its
    /// implementers, a union what its members denote. The first member that
    /// fails decides the error.
    pub open spec fn resolve(self, name: Seq<char>, depth: nat) -> Option<
        Result<Set<Seq<char>>, QueryExecutionErrorView>,
    >
        decreases depth, 0nat,
    {
        match self.named_type(name) {
            None => Some(Err(QueryExecutionErrorView::AbstractTypeError(name))),
            Some(TypeKindView::Object) => Some(Ok(set![name])),
            Some(TypeKindView::Interface) => Some(
                Ok(
                    match self.types_for_interface(name) {
                        Some(objects) => objects.to_set(),
                        None => Set::empty(),
                    },
                ),
            ),
            Some(TypeKindView::Union(members)) => if depth == 0 {
                None
            } else {
                self.resolve_all(members, (depth - 1) as nat)
            },
            Some(_) => Some(Err(QueryExecutionErrorView::NamedTypeError(name))),
        }
    }

    /// The union of what the names in `members` denote, in order.
    pub open spec fn resolve_all(self, members: Seq<Seq<char>>, depth: nat) -> Option<
        Result<Set<Seq<char>>, QueryExecutionErrorView>,
    >
        decreases depth, members.len() + 1,
    {
        if members.len() == 0 {
            Some(Ok(Set::empty()))
        } else {
            match self.resolve(members[0], depth) {
                Some(Ok(first)) => join(first, self.resolve_all(members.drop_first(), depth)),
                other => other,
            }
        }
    }

    /// Whether every interface has an entry in the table of implementers.
    pub open spec fn interfaces_listed(self) -> bool {
        forall|i: int|
            0 <= i < self.types.len() && (#[trigger] self.types[i]).1 is Interface
                ==> self.types_for_interface(self.types[i].0) is Some
    }

    /// Whether every implementer in the table is an object type.
    pub open spec fn implementers_are_objects(self) -> bool {
        forall|e: int, k: int|
            0 <= e < self.implementers.len() && 0 <= k < self.implementers[e].1.len()
                ==> self.named_type(#[trigger] self.implementers[e].1[k]) == Some(
                TypeKindView::Object,
            )
    }

    /// Whether every type resolves within as many levels as the schema has
    /// types. A resolution that runs into the same union again never does.
    pub open spec fn unions_settle(self) -> bool {
        forall|i: int|
            0 <= i < self.types.len() ==> self.resolve(
                (#[trigger] self.types[i]).0,
                self.types.len(),
            ) is Some
    }

    /// Whether every name in `names` is an object type of the schema.
    pub open spec fn all_objects(self, names: Set<Seq<char>>) -> bool {
        forall|name: Seq<char>|
            names.contains(name) ==> self.named_type(name) == Some(TypeKindView::Object)
    }

    /// The names of the types, in order.
    pub open spec fn type_names(self) -> Seq<Seq<char>> {
        Seq::new(self.types.len(), |i: int| self.types[i].0)
    }

    /// Whether `name` is a union of the schema.
    pub open spec fn is_union(self, name: Seq<char>) -> bool {
        self.named_type(name) matches Some(TypeKindView::Union(_))
    }

    /// Whether `rank` puts every union that is a member of a union below
    /// that union. With such a ranking no union contains itself, directly
    /// or through other unions.
    pub open spec fn unions_ranked(self, rank: spec_fn(Seq<char>) -> nat) -> bool {
        forall|name: Seq<char>, k: int|
            self.is_union(name) && 0 <= k < self.named_type(name)->0->Union_0.len()
                && self.is_union(#[trigger] self.named_type(name)->0->Union_0[k]) ==> rank(
                self.named_type(name)->0->Union_0[k],
            ) < rank(name)
    }

    /// The invariant of a schema.
    pub open spec fn valid(self) -> bool {
        &&& self.interfaces_listed()
        &&& self.implementers_are_objects()
        &&& self.unions_settle()
    }

    /// The concrete object types that `name` denotes, or why it denotes
    /// none. In a valid schema the depth is always enough.
    pub open spec fn object_types(self, name: Seq<char>) -> Result<
        Set<Seq<char>>,
        QueryExecutionErrorView,
    > {
        match self.resolve(name, self.types.len()) {
            Some(outcome) => outcome,
            None => Err(QueryExecutionErrorView::AbstractTypeError(name)),
        }
    }

    /// The union of the object types that the names in `members` denote,
    /// or the error of the first of them that denotes none.
    pub open spec fn object_types_of_all(self, members: Seq<Seq<char>>) -> Result<
        Set<Seq<char>>,
        QueryExecutionErrorView,
    >
        decreases members.len(),
    {
        if members.len() == 0 {
            Ok(Set::empty())
        } else {
            match self.object_types(members[0]) {
                Ok(first) => match self.object_types_of_all(members.drop_first()) {
                    Ok(others) => Ok(first.union(others)),
                    Err(error) => Err(error),
                },
                Err(error) => Err(error),
            }
        }
    }
}

/// Where a name resolves within some depth, it resolves to the same within
/// one level more.
pub proof fn lemma_deeper_agrees(schema: SchemaView, name: Seq<char>, depth: nat)
    requires
        schema.resolve(name, depth) is Some,
    ensures
        schema.resolve(name, depth + 1) == schema.resolve(name, depth),
    decreases depth, 0nat,
{
    if let Some(TypeKindView::Union(members)) = schema.named_type(name) {
        lemma_deeper_agrees_all(schema, members, (depth - 1) as nat);
    }
}

/// Where a list of names resolves within some depth, it resolves to the
/// same within one level more.
pub proof fn lemma_deeper_agrees_all(schema: SchemaView, members: Seq<Seq<char>>, depth: nat)
    requires
        schema.resolve_all(members, depth) is Some,
    ensures
        schema.resolve_all(members, depth + 1) == schema.resolve_all(members, depth),
    decreases depth, members.len() + 1,
{
    if members.len() > 0 {
        lemma_deeper_agrees(schema, members[0], depth);
        if let Some(Ok(first)) = schema.resolve(members[0], depth) {
            lemma_deeper_agrees_all(schema, members.drop_first(), depth);
        }
    }
}

/// In a valid schema every name resolves, to a set or to an error, within
/// as many levels as the schema has types.
pub proof fn lemma_settles(schema: SchemaView, name: Seq<char>)
    requires
        schema.valid(),
    ensures
        schema.resolve(name, schema.types.len()) is Some,
{
    lemma_first_named(schema.types, name);
    if let Some(kind) = schema.named_type(name) {
        let i = choose|i: int| 0 <= i < schema.types.len() && #[trigger] schema.types[i] == (name, kind);
        assert(schema.types[i].0 == name);
    }
}

/// The unions of the schema that `rank` puts no higher than `name`.
pub open spec fn unions_up_to(
    schema: SchemaView,
    rank: spec_fn(Seq<char>) -> nat,
    name: Seq<char>,
) -> Set<Seq<char>> {
    schema.type_names().to_set().filter(
        |union: Seq<char>| schema.is_union(union) && rank(union) <= rank(name),
    )
}

/// Where the unions are ranked, a name resolves within as many levels as
/// there are unions that rank no higher than it.
proof fn lemma_settles_within(
    schema: SchemaView,
    rank: spec_fn(Seq<char>) -> nat,
    name: Seq<char>,
    depth: nat,
)
    requires
        schema.unions_ranked(rank),
        schema.is_union(name) ==> unions_up_to(schema, rank, name).len() <= depth,
    ensures
        schema.resolve(name, depth) is Some,
    decreases depth, 0nat,
{
    if let Some(TypeKindView::Union(members)) = schema.named_type(name) {
        let up = unions_up_to(schema, rank, name);
        lemma_first_named(schema.types, name);
        let i = choose|i: int|
            0 <= i < schema.types.len() && #[trigger] schema.types[i] == (
                name,
                TypeKindView::Union(members),
            );
        assert(schema.type_names()[i] == name);
        assert(up.contains(name));
        assert(up.finite());
        vstd::set::axiom_set_remove_len(up, name);
        assert forall|k: int|
            0 <= k < members.len() && schema.is_union(#[trigger] members[k]) implies unions_up_to(
            schema,
            rank,
            members[k],
        ).len() <= depth - 1 by {
            let low = unions_up_to(schema, rank, members[k]);
            assert(rank(members[k]) < rank(name));
            assert(low.subset_of(up.remove(name)));
            vstd::set_lib::lemma_len_subset(low, up.remove(name));
        }
        lemma_all_settle_within(schema, rank, members, (depth - 1) as nat);
    }
}

/// Where the unions are ranked, a list of names resolves within as many
/// levels as each of its unions needs.
proof fn lemma_all_settle_within(
    schema: SchemaView,
    rank: spec_fn(Seq<char>) -> nat,
    members: Seq<Seq<char>>,
    depth: nat,
)
    requires
        schema.unions_ranked(rank),
        forall|k: int|
            0 <= k < members.len() && schema.is_union(#[trigger] members[k]) ==> unions_up_to(
                schema,
                rank,
                members[k],
            ).len() <= depth,
    ensures
        schema.resolve_all(members, depth) is Some,
    decreases depth, members.len() + 1,
{
    if members.len() > 0 {
        lemma_settles_within(schema, rank, members[0], depth);
        let rest = members.drop_first();
        assert forall|k: int|
            0 <= k < rest.len() && schema.is_union(#[trigger] rest[k]) implies unions_up_to(
            schema,
            rank,
            rest[k],
        ).len() <= depth by {
            assert(rest[k] == members[k + 1]);
        }
        lemma_all_settle_within(schema, rank, rest, depth);
    }
}

/// A schema in which no union contains itself, directly or through other
/// unions, resolves every type within as many levels as it has types: the
/// depth that a valid schema is held to is never too small for it.
pub proof fn lemma_ranked_unions_settle(schema: SchemaView, rank: spec_fn(Seq<char>) -> nat)
    requires
        schema.unions_ranked(rank),
    ensures
        schema.unions_settle(),
{
    assert forall|i: int| 0 <= i < schema.types.len() implies schema.resolve(
        (#[trigger] schema.types[i]).0,
        schema.types.len(),
    ) is Some by {
        let name = schema.types[i].0;
        let all = schema.type_names().to_set();
        schema.type_names().lemma_cardinality_of_set();
        vstd::set_lib::lemma_len_subset(unions_up_to(schema, rank, name), all);
        lemma_settles_within(schema, rank, name, schema.types.len());
    }
}

/// Type resolution yields object types only: every name in what `name`
/// resolves to is an object type of the schema.
pub proof fn lemma_resolves_to_objects(schema: SchemaView, name: Seq<char>, depth: nat)
    requires
        schema.implementers_are_objects(),
        schema.resolve(name, depth) matches Some(Ok(_)),
    ensures
        schema.all_objects(schema.resolve(name, depth)->0->Ok_0),
    decreases depth, 0nat,
{
    match schema.named_type(name) {
        Some(TypeKindView::Interface) => {
            lemma_first_named(schema.implementers, name);
            if let Some(objects) = schema.types_for_interface(name) {
                let e = choose|e: int|
                    0 <= e < schema.implementers.len() && #[trigger] schema.implementers[e] == (
                        name,
                        objects,
                    );
                assert forall|object: Seq<char>| objects.to_set().contains(object) implies schema.named_type(
                    object,
                ) == Some(TypeKindView::Object) by {
                    let k = choose|k: int| 0 <= k < objects.len() && objects[k] == object;
                    assert(schema.implementers[e].1[k] == object);
                }
            }
        },
        Some(TypeKindView::Union(members)) => {
            lemma_all_resolve_to_objects(schema, members, (depth - 1) as nat);
        },
        _ => {},
    }
}

/// Every name in what a list of names resolves to is an object type of the
/// schema.
pub proof fn lemma_all_resolve_to_objects(
    schema: SchemaView,
    members: Seq<Seq<char>>,
    depth: nat,
)
    requires
        schema.implementers_are_objects(),
        schema.resolve_all(members, depth) matches Some(Ok(_)),
    ensures
        schema.all_objects(schema.resolve_all(members, depth)->0->Ok_0),
    decreases depth, members.len() + 1,
{
    if members.len() > 0 {
        lemma_resolves_to_objects(schema, members[0], depth);
        lemma_all_resolve_to_objects(schema, members.drop_first(), depth);
    }
}

/// In a valid schema, what a name denotes holds object types only.
pub proof fn lemma_object_types_are_objects(schema: SchemaView, name: Seq<char>)
    requires
        schema.valid(),
        schema.object_types(name) is Ok,
    ensures
        schema.all_objects(schema.object_types(name)->Ok_0),
{
    lemma_settles(schema, name);
    lemma_resolves_to_objects(schema, name, schema.types.len());
}

/// Where a list of names resolves at full depth, it resolves to the union
/// of what its names denote.
proof fn lemma_all_at_full_depth(schema: SchemaView, members: Seq<Seq<char>>)
    requires
        schema.resolve_all(members, schema.types.len()) is Some,
    ensures
        schema.resolve_all(members, schema.types.len()) == Some(
            schema.object_types_of_all(members),
        ),
    decreases members.len(),
{
    if members.len() > 0 {
        if let Some(Ok(first)) = schema.resolve(members[0], schema.types.len()) {
            lemma_all_at_full_depth(schema, members.drop_first());
        }
    }
}

/// In a valid schema, a union denotes the union of what its members
/// denote, and fails as the first of its members that fails.
pub proof fn lemma_union_denotes_members(
    schema: SchemaView,
    name: Seq<char>,
    members: Seq<Seq<char>>,
)
    requires
        schema.valid(),
        schema.named_type(name) == Some(TypeKindView::Union(members)),
    ensures
        schema.object_types(name) == schema.object_types_of_all(members),
{
    lemma_first_named(schema.types, name);
    lemma_settles(schema, name);
    let below = (schema.types.len() - 1) as nat;
    lemma_deeper_agrees_all(schema, members, below);
    lemma_all_at_full_depth(schema, members);
}

impl View for Schema {
    type V = SchemaView;

    closed spec fn view(&self) -> SchemaView {
        schema_view(self.types@, self.implementers@)
    }
}

/// Whether an outcome of resolution is the one that the schema gives.
pub open spec fn same_names(
    outcome: Result<NameSet, QueryExecutionError>,
    given: Result<Set<Seq<char>>, QueryExecutionErrorView>,
) -> bool {
    match outcome {
        Ok(set) => given == Ok::<Set<Seq<char>>, QueryExecutionErrorView>(set@),
        Err(error) => given == Err::<Set<Seq<char>>, QueryExecutionErrorView>(error@),
    }
}

/// Whether an outcome of resolution within some depth is the one that the
/// schema gives.
pub open spec fn same_outcome(
    outcome: Option<Result<NameSet, QueryExecutionError>>,
    given: Option<Result<Set<Seq<char>>, QueryExecutionErrorView>>,
) -> bool {
    match outcome {
        None => given is None,
        Some(settled) => given is Some && same_names(settled, given->0),
    }
}

/// The kind of the first type called `name`.
fn find_kind<'a>(types: &'a Vec<TypeDefinition>, name: &str) -> (found: Option<&'a TypeKind>)
    ensures
        match found {
            Some(kind) => first_named(types_view(types@), name@) == Some(kind@),
            None => first_named(types_view(types@), name@) is None,
        },
{
    let ghost all = types_view(types@);
    assert(all.skip(0) =~= all);
    let mut i: usize = 0;
    while i < types.len()
        invariant
            i <= types.len(),
            all == types_view(types@),
            first_named(all, name@) == first_named(all.skip(i as int), name@),
        decreases types.len() - i,
    {
        proof {
            assert(all.skip(i as int).drop_first() =~= all.skip(i as int + 1));
        }
        if same_text(types[i].name.as_str(), name) {
            return Some(&types[i].kind);
        }
        i += 1;
    }
    None
}

/// The implementers that the first entry called `name` lists.
fn find_implementers<'a>(table: &'a Vec<(String, Vec<String>)>, name: &str) -> (found: Option<
    &'a Vec<String>,
>)
    ensures
        match found {
            Some(objects) => first_named(table_view(table@), name@) == Some(names_view(objects@)),
            None => first_named(table_view(table@), name@) is None,
        },
{
    let ghost all = table_view(table@);
    assert(all.skip(0) =~= all);
    let mut i: usize = 0;
    while i < table.len()
        invariant
            i <= table.len(),
            all == table_view(table@),
            first_named(all, name@) == first_named(all.skip(i as int), name@),
        decreases table.len() - i,
    {
        proof {
            assert(all.skip(i as int).drop_first() =~= all.skip(i as int + 1));
        }
        if same_text(table[i].0.as_str(), name) {
            return Some(&table[i].1);
        }
        i += 1;
    }
    None
}

/// Resolves `name`, following unions at most `depth` levels into their
/// members.
fn resolve_within(
    types: &Vec<TypeDefinition>,
    table: &Vec<(String, Vec<String>)>,
    name: &str,
    depth: usize,
) -> (outcome: Option<Result<NameSet, QueryExecutionError>>)
    ensures
        same_outcome(outcome, schema_view(types@, table@).resolve(name@, depth as nat)),
    decreases depth,
{
    let ghost schema = schema_view(types@, table@);
    match find_kind(types, name) {
        None => Some(Err(QueryExecutionError::AbstractTypeError(name.to_owned()))),
        Some(TypeKind::Object) => {
            let mut set = NameSet::new();
            set.insert(name.to_owned());
            assert(set@ =~= set![name@]);
            Some(Ok(set))
        },
        Some(TypeKind::Interface) => {
            match find_implementers(table, name) {
                Some(objects) => Some(Ok(NameSet::from_names(objects))),
                None => Some(Ok(NameSet::new())),
            }
        },
        Some(TypeKind::Union(members)) => {
            if depth == 0 {
                return None;
            }
            let ghost all = names_view(members@);
            let ghost below = (depth - 1) as nat;
            let mut set = NameSet::new();
            let mut k: usize = 0;
            proof {
                assert(all.skip(0) =~= all);
                let rest = schema.resolve_all(all, below);
                assert(join(set@, rest) == rest) by {
                    if let Some(Ok(others)) = rest {
                        assert(set@.union(others) =~= others);
                    }
                }
            }
            while k < members.len()
                invariant
                    k <= members.len(),
                    depth > 0,
                    below == (depth - 1) as nat,
                    all == names_view(members@),
                    schema == schema_view(types@, table@),
                    schema.resolve(name@, depth as nat) == schema.resolve_all(all, below),
                    schema.resolve_all(all, below) == join(
                        set@,
                        schema.resolve_all(all.skip(k as int), below),
                    ),
                decreases members.len() - k,
            {
                let ghost found_before = set@;
                proof {
                    assert(all.skip(k as int).drop_first() =~= all.skip(k as int + 1));
                    assert(all.skip(k as int)[0] == members@[k as int]@);
                }
                match resolve_within(types, table, members[k].as_str(), depth - 1) {
                    None => {
                        return None;
                    },
                    Some(Err(error)) => {
                        return Some(Err(error));
                    },
                    Some(Ok(found)) => {
                        set.extend(&found);
                        proof {
                            let rest = schema.resolve_all(all.skip(k as int + 1), below);
                            assert(join(found_before, join(found@, rest)) == join(set@, rest)) by {
                                if let Some(Ok(others)) = rest {
                                    assert(found_before.union(found@.union(others)) =~= set@.union(
                                        others,
                                    ));
                                }
                            }
                        }
                    },
                }
                k += 1;
            }
            proof {
                assert(set@.union(Set::empty()) =~= set@);
            }
            Some(Ok(set))
        },
        Some(_) => Some(Err(QueryExecutionError::NamedTypeError(name.to_owned()))),
    }
}

/// Whether every interface of `types` has an entry in `table`.
fn interfaces_listed(types: &Vec<TypeDefinition>, table: &Vec<(String, Vec<String>)>) -> (ok: bool)
    ensures
        ok == schema_view(types@, table@).interfaces_listed(),
{
    let ghost schema = schema_view(types@, table@);
    let mut i: usize = 0;
    while i < types.len()
        invariant
            i <= types.len(),
            schema == schema_view(types@, table@),
            forall|m: int|
                0 <= m < i && (#[trigger] schema.types[m]).1 is Interface
                    ==> schema.types_for_interface(schema.types[m].0) is Some,
        decreases types.len() - i,
    {
        if let TypeKind::Interface = &types[i].kind {
            if find_implementers(table, types[i].name.as_str()).is_none() {
                assert(schema.types[i as int].1 is Interface);
                return false;
            }
        }
        i += 1;
    }
    true
}

/// Whether every implementer that `table` lists is an object type of
/// `types`.
fn implementers_are_objects(types: &Vec<TypeDefinition>, table: &Vec<(String, Vec<String>)>) -> (ok:
    bool)
    ensures
        ok == schema_view(types@, table@).implementers_are_objects(),
{
    let ghost schema = schema_view(types@, table@);
    let mut e: usize = 0;
    while e < table.len()
        invariant
            e <= table.len(),
            schema == schema_view(types@, table@),
            forall|m: int, k: int|
                0 <= m < e && 0 <= k < schema.implementers[m].1.len() ==> schema.named_type(
                    #[trigger] schema.implementers[m].1[k],
                ) == Some(TypeKindView::Object),
        decreases table.len() - e,
    {
        let objects = &table[e].1;
        let mut k: usize = 0;
        while k < objects.len()
            invariant
                k <= objects.len(),
                e < table.len(),
                *objects == table@[e as int].1,
                schema == schema_view(types@, table@),
                forall|n: int|
                    0 <= n < k ==> schema.named_type(#[trigger] schema.implementers[e as int].1[n])
                        == Some(TypeKindView::Object),
            decreases objects.len() - k,
        {
            let is_object = match find_kind(types, objects[k].as_str()) {
                Some(TypeKind::Object) => true,
                _ => false,
            };
            if !is_object {
                assert(schema.named_type(schema.implementers[e as int].1[k as int]) != Some(
                    TypeKindView::Object,
                ));
                return false;
            }
            k += 1;
        }
        e += 1;
    }
    true
}

/// Whether every type of `types` resolves within as many levels as there
/// are types.
fn unions_settle(types: &Vec<TypeDefinition>, table: &Vec<(String, Vec<String>)>) -> (ok: bool)
    ensures
        ok == schema_view(types@, table@).unions_settle(),
{
    let ghost schema = schema_view(types@, table@);
    let mut i: usize = 0;
    while i < types.len()
        invariant
            i <= types.len(),
            schema == schema_view(types@, table@),
            forall|m: int|
                0 <= m < i ==> schema.resolve((#[trigger] schema.types[m]).0, schema.types.len())
                    is Some,
        decreases types.len() - i,
    {
        if resolve_within(types, table, types[i].name.as_str(), types.len()).is_none() {
            assert(schema.resolve(schema.types[i as int].0, schema.types.len()) is None);
            return false;
        }
        i += 1;
    }
    true
}

impl Schema {
    #[verifier::type_invariant]
    closed spec fn well_formed(&self) -> bool {
        schema_view(self.types@, self.implementers@).valid()
    }

    /// Makes a schema of the named types and the table of implementers, if
    /// the two are valid together.
    pub fn new(types: Vec<TypeDefinition>, implementers: Vec<(String, Vec<String>)>) -> (made:
        Option<Schema>)
        ensures
            match made {
                Some(schema) => schema@ == schema_view(types@, implementers@) && schema@.valid(),
                None => !schema_view(types@, implementers@).valid(),
            },
    {
        if interfaces_listed(&types, &implementers) && implementers_are_objects(
            &types,
            &implementers,
        ) && unions_settle(&types, &implementers) {
            Some(Schema { types, implementers })
        } else {
            None
        }
    }

    /// The kind of the type called `name`, if the schema has such a type.
    pub fn get_named_type(&self, name: &str) -> (found: Option<&TypeKind>)
        ensures
            self@.valid(),
            match found {
                Some(kind) => self@.named_type(name@) == Some(kind@),
                None => self@.named_type(name@) is None,
            },
    {
        proof {
            use_type_invariant(self);
        }
        find_kind(&self.types, name)
    }

    /// The object types that implement the interface called `name`, if the
    /// table has an entry for it.
    pub fn types_for_interface(&self, name: &str) -> (found: Option<&Vec<String>>)
        ensures
            self@.valid(),
            match found {
                Some(objects) => self@.types_for_interface(name@) == Some(names_view(objects@)),
                None => self@.types_for_interface(name@) is None,
            },
    {
        proof {
            use_type_invariant(self);
        }
        find_implementers(&self.implementers, name)
    }
}

/// Look up the type `name` from the schema and resolve interfaces and
/// unions until we are left with a set of concrete object types.
pub fn resolve_object_types(schema: &Schema, name: &str) -> (outcome: Result<
    NameSet,
    QueryExecutionError,
>)
    ensures
        schema@.valid(),
        same_names(outcome, schema@.object_types(name@)),
        outcome matches Ok(objects) ==> schema@.all_objects(objects@),
{
    proof {
        use_type_invariant(schema);
        lemma_settles(schema@, name@);
        if schema@.object_types(name@) is Ok {
            lemma_object_types_are_objects(schema@, name@);
        }
    }
    match resolve_within(&schema.types, &schema.implementers, name, schema.types.len()) {
        Some(outcome) => outcome,
        None => vstd::pervasive::unreached(),
    }
}

} // verus!
