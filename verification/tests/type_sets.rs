use graphql_parser::Pos;
use graphql_selection::names::all_distinct;
use graphql_selection::{
    resolve_object_types, Field, NameSet, ObjectTypeSet, QueryExecutionError, Schema,
    SelectionSet, TypeCondition, TypeDefinition, TypeKind,
};

fn names(names: &[&str]) -> Vec<String> {
    names.iter().map(|name| name.to_string()).collect()
}

fn set_of(items: &[&str]) -> NameSet {
    NameSet::from_names(&names(items))
}

fn sorted(mut names: Vec<String>) -> Vec<String> {
    names.sort();
    names
}

fn define(name: &str, kind: TypeKind) -> TypeDefinition {
    TypeDefinition {
        name: name.to_string(),
        kind,
    }
}

fn union_of(members: &[&str]) -> TypeKind {
    TypeKind::Union(names(members))
}

fn zoo() -> Schema {
    Schema::new(
        vec![
            define("Node", TypeKind::Interface),
            define("Named", TypeKind::Interface),
            define("Cat", TypeKind::Object),
            define("Dog", TypeKind::Object),
            define("Rock", TypeKind::Object),
            define("Pet", union_of(&["Cat", "Dog"])),
            define("Thing", union_of(&["Pet", "Rock", "Cat"])),
            define("Nothing", union_of(&[])),
            define("Date", TypeKind::Scalar),
            define("Color", TypeKind::Enum),
            define("Filter", TypeKind::InputObject),
        ],
        vec![
            ("Node".to_string(), names(&["Cat", "Dog"])),
            ("Named".to_string(), vec![]),
        ],
    )
    .unwrap()
}

fn leaf(name: &str) -> Field {
    Field {
        position: Pos { line: 1, column: 1 },
        alias: None,
        name: name.to_string(),
        arguments: vec![],
        directives: vec![],
        selection_set: SelectionSet::new(vec![]),
    }
}

#[test]
fn object_type_resolves_to_itself() {
    assert_eq!(resolve_object_types(&zoo(), "Cat"), Ok(set_of(&["Cat"])));
}

#[test]
fn interface_resolves_to_its_implementers() {
    let schema = Schema::new(
        vec![
            define("I", TypeKind::Interface),
            define("A", TypeKind::Object),
            define("B", TypeKind::Object),
            define("C", TypeKind::Object),
            define("U", union_of(&["A", "B"])),
        ],
        vec![("I".to_string(), names(&["A", "C"]))],
    )
    .unwrap();
    assert_eq!(resolve_object_types(&schema, "I"), Ok(set_of(&["A", "C"])));
    assert_eq!(resolve_object_types(&schema, "U"), Ok(set_of(&["A", "B"])));
    assert_eq!(resolve_object_types(&zoo(), "Named"), Ok(NameSet::new()));
}

#[test]
fn union_resolves_to_the_union_of_its_members() {
    let schema = zoo();
    assert_eq!(resolve_object_types(&schema, "Pet"), Ok(set_of(&["Cat", "Dog"])));
    let thing = resolve_object_types(&schema, "Thing").unwrap();
    assert_eq!(thing, set_of(&["Dog", "Rock", "Cat"]));
    assert_eq!(thing.len(), 3);
    assert_eq!(resolve_object_types(&schema, "Nothing"), Ok(NameSet::new()));
}

#[test]
fn resolved_names_are_object_types() {
    let schema = zoo();
    for name in ["Node", "Named", "Cat", "Pet", "Thing", "Nothing"] {
        for object in resolve_object_types(&schema, name).unwrap().to_vec() {
            assert!(matches!(
                schema.get_named_type(&object),
                Some(TypeKind::Object)
            ));
        }
    }
}

#[test]
fn unknown_name_is_an_abstract_type_error() {
    assert_eq!(
        resolve_object_types(&zoo(), "Fish"),
        Err(QueryExecutionError::AbstractTypeError("Fish".to_string()))
    );
    assert_eq!(
        resolve_object_types(&zoo(), ""),
        Err(QueryExecutionError::AbstractTypeError(String::new()))
    );
}

#[test]
fn scalar_enum_and_input_are_named_type_errors() {
    for name in ["Date", "Color", "Filter"] {
        assert_eq!(
            resolve_object_types(&zoo(), name),
            Err(QueryExecutionError::NamedTypeError(name.to_string()))
        );
    }
}

#[test]
fn union_fails_as_its_first_failing_member() {
    let schema = Schema::new(
        vec![
            define("A", TypeKind::Object),
            define("Date", TypeKind::Scalar),
            define("U", union_of(&["A", "Gone", "Date"])),
            define("V", union_of(&["Date", "Gone"])),
            define("W", union_of(&["A", "V"])),
        ],
        vec![],
    )
    .unwrap();
    assert_eq!(
        resolve_object_types(&schema, "U"),
        Err(QueryExecutionError::AbstractTypeError("Gone".to_string()))
    );
    assert_eq!(
        resolve_object_types(&schema, "V"),
        Err(QueryExecutionError::NamedTypeError("Date".to_string()))
    );
    assert_eq!(
        resolve_object_types(&schema, "W"),
        Err(QueryExecutionError::NamedTypeError("Date".to_string()))
    );
}

#[test]
fn first_definition_of_a_name_counts() {
    let schema = Schema::new(
        vec![define("A", TypeKind::Object), define("A", TypeKind::Scalar)],
        vec![],
    )
    .unwrap();
    assert_eq!(resolve_object_types(&schema, "A"), Ok(set_of(&["A"])));
    assert!(matches!(schema.get_named_type("A"), Some(TypeKind::Object)));
    assert!(schema.get_named_type("B").is_none());
}

#[test]
fn schema_needs_an_entry_for_every_interface() {
    assert!(Schema::new(vec![define("I", TypeKind::Interface)], vec![]).is_none());
    let schema = Schema::new(
        vec![define("I", TypeKind::Interface)],
        vec![("I".to_string(), vec![])],
    )
    .unwrap();
    assert_eq!(schema.types_for_interface("I"), Some(&vec![]));
    assert_eq!(schema.types_for_interface("J"), None);
}

#[test]
fn schema_needs_implementers_to_be_object_types() {
    let types = || {
        vec![
            define("I", TypeKind::Interface),
            define("A", TypeKind::Object),
            define("Date", TypeKind::Scalar),
        ]
    };
    assert!(Schema::new(types(), vec![("I".to_string(), names(&["A"]))]).is_some());
    assert!(Schema::new(types(), vec![("I".to_string(), names(&["A", "Date"]))]).is_none());
    assert!(Schema::new(types(), vec![("I".to_string(), names(&["Gone"]))]).is_none());
    assert!(Schema::new(types(), vec![("I".to_string(), names(&["I"]))]).is_none());
}

#[test]
fn schema_refuses_a_union_that_contains_itself() {
    assert!(Schema::new(vec![define("U", union_of(&["U"]))], vec![]).is_none());
    assert!(Schema::new(
        vec![
            define("A", TypeKind::Object),
            define("U", union_of(&["A", "V"])),
            define("V", union_of(&["U"])),
        ],
        vec![],
    )
    .is_none());
}

#[test]
fn schema_takes_unions_nested_as_deep_as_it_has_types() {
    let schema = Schema::new(
        vec![
            define("U1", union_of(&["U2"])),
            define("U2", union_of(&["U3"])),
            define("U3", union_of(&["U4"])),
            define("U4", union_of(&["A"])),
            define("A", TypeKind::Object),
        ],
        vec![],
    )
    .unwrap();
    assert_eq!(resolve_object_types(&schema, "U1"), Ok(set_of(&["A"])));
    let schema = Schema::new(
        vec![
            define("U1", union_of(&["U2"])),
            define("U2", union_of(&["U3"])),
            define("U3", union_of(&[])),
        ],
        vec![],
    )
    .unwrap();
    assert_eq!(resolve_object_types(&schema, "U1"), Ok(NameSet::new()));
}

#[test]
fn convert_without_condition_is_any() {
    assert_eq!(ObjectTypeSet::convert(&zoo(), None), Ok(ObjectTypeSet::Any));
}

#[test]
fn convert_with_condition_resolves_the_name() {
    let schema = zoo();
    let on = |name: &str| TypeCondition::On(name.to_string());
    assert_eq!(
        ObjectTypeSet::convert(&schema, Some(&on("Node"))),
        Ok(ObjectTypeSet::Only(set_of(&["Dog", "Cat"])))
    );
    assert_eq!(
        ObjectTypeSet::convert(&schema, Some(&on("Date"))),
        Err(QueryExecutionError::NamedTypeError("Date".to_string()))
    );
    assert_eq!(
        ObjectTypeSet::convert(&schema, Some(&on("Fish"))),
        Err(QueryExecutionError::AbstractTypeError("Fish".to_string()))
    );
}

#[test]
fn from_name_wraps_the_resolved_set() {
    let schema = zoo();
    assert_eq!(
        ObjectTypeSet::from_name(&schema, "Cat"),
        Ok(ObjectTypeSet::Only(set_of(&["Cat"])))
    );
    assert_eq!(
        ObjectTypeSet::from_name(&schema, "Nothing"),
        Ok(ObjectTypeSet::Only(NameSet::new()))
    );
    assert_ne!(
        ObjectTypeSet::from_name(&schema, "Nothing"),
        Ok(ObjectTypeSet::Any)
    );
    assert_eq!(
        ObjectTypeSet::from_name(&schema, "Color"),
        Err(QueryExecutionError::NamedTypeError("Color".to_string()))
    );
}

#[test]
fn matches_name_tests_membership() {
    assert!(ObjectTypeSet::Any.matches_name("Cat"));
    assert!(ObjectTypeSet::Any.matches_name(""));
    let only = ObjectTypeSet::Only(set_of(&["Cat", "Dog"]));
    assert!(only.matches_name("Cat"));
    assert!(only.matches_name("Dog"));
    assert!(!only.matches_name("Rock"));
    assert!(!only.matches_name("cat"));
    assert!(!ObjectTypeSet::Only(NameSet::new()).matches_name("Cat"));
}

#[test]
fn intersect_with_any_changes_nothing() {
    let sets = || {
        vec![
            ObjectTypeSet::Any,
            ObjectTypeSet::Only(NameSet::new()),
            ObjectTypeSet::Only(set_of(&["Cat"])),
            ObjectTypeSet::Only(set_of(&["Cat", "Dog", "Rock"])),
        ]
    };
    for set in sets() {
        assert_eq!(set.clone().intersect(&ObjectTypeSet::Any), set);
        assert_eq!(ObjectTypeSet::Any.intersect(&set), set);
    }
}

#[test]
fn intersect_keeps_what_both_hold() {
    let left = ObjectTypeSet::Only(set_of(&["Cat", "Dog", "Rock"]));
    let right = ObjectTypeSet::Only(set_of(&["Rock", "Fish", "Cat"]));
    let common = left.clone().intersect(&right);
    assert_eq!(common, ObjectTypeSet::Only(set_of(&["Cat", "Rock"])));
    assert_eq!(right.clone().intersect(&left), common);
    match &common {
        ObjectTypeSet::Only(names) => assert_eq!(names.len(), 2),
        ObjectTypeSet::Any => panic!("an explicit set was expected"),
    }
    let none = ObjectTypeSet::Only(set_of(&["Cat"])).intersect(&ObjectTypeSet::Only(set_of(&["Dog"])));
    assert_eq!(none, ObjectTypeSet::Only(NameSet::new()));
}

#[test]
fn type_names_are_the_implementers_in_the_set() {
    let schema = zoo();
    assert_eq!(
        ObjectTypeSet::Any.type_names(&schema, "Node").map(sorted),
        Ok(names(&["Cat", "Dog"]))
    );
    let cats = ObjectTypeSet::Only(set_of(&["Cat", "Rock"]));
    assert_eq!(cats.type_names(&schema, "Node"), Ok(names(&["Cat"])));
    assert_eq!(cats.type_names(&schema, "Dog"), Ok(vec![]));
    assert_eq!(
        cats.type_names(&schema, "Thing").map(sorted),
        Ok(names(&["Cat", "Rock"]))
    );
    assert_eq!(
        cats.type_names(&schema, "Date"),
        Err(QueryExecutionError::NamedTypeError("Date".to_string()))
    );
    assert_eq!(
        ObjectTypeSet::Any.type_names(&schema, "Fish"),
        Err(QueryExecutionError::AbstractTypeError("Fish".to_string()))
    );
}

#[test]
fn name_sets_hold_each_name_once() {
    let mut set = NameSet::from_names(&names(&["a", "b", "a"]));
    assert_eq!(set.len(), 2);
    assert!(!set.insert("b".to_string()));
    assert!(set.insert("c".to_string()));
    assert_eq!(set.len(), 3);
    assert_eq!(sorted(set.to_vec()), names(&["a", "b", "c"]));
    assert_eq!(set, set_of(&["c", "b", "a"]));
    assert_ne!(set, set_of(&["a", "b"]));
    assert_ne!(set, set_of(&["a", "b", "c", "d"]));
    set.extend(&set_of(&["d", "a"]));
    assert_eq!(set, set_of(&["a", "b", "c", "d"]));
    assert!(set_of(&["a", "d"]).is_subset_of(&set));
    assert!(!set.is_subset_of(&set_of(&["a", "d"])));
    assert_eq!(set.intersection(&set_of(&["d", "e"])), set_of(&["d"]));
}

#[test]
fn fragment_on_one_implementer_reaches_only_that_type() {
    let schema = zoo();
    let in_force = ObjectTypeSet::Any;
    let mut plan = SelectionSet::new(in_force.type_names(&schema, "Node").unwrap());
    plan.push(&leaf("name"));

    let condition = TypeCondition::On("Cat".to_string());
    let narrowed = in_force.intersect(&ObjectTypeSet::convert(&schema, Some(&condition)).unwrap());
    let mut fragment = SelectionSet::new(narrowed.type_names(&schema, "Node").unwrap());
    fragment.push(&leaf("meow"));
    plan.merge(fragment, vec![]);

    let keys = |object_type: &str| -> Vec<String> {
        plan.fields_for(object_type)
            .iter()
            .map(|field| field.response_key().to_string())
            .collect()
    };
    assert_eq!(keys("Cat"), vec!["name", "meow"]);
    assert_eq!(keys("Dog"), vec!["name"]);
    assert_eq!(plan.fields().len(), 2);
}

#[test]
fn all_distinct_finds_a_name_that_occurs_twice() {
    assert!(all_distinct(&names(&[])));
    assert!(all_distinct(&names(&["a"])));
    assert!(all_distinct(&names(&["a", "b", "c"])));
    assert!(!all_distinct(&names(&["a", "b", "a"])));
    assert!(!all_distinct(&names(&["a", "a"])));
    assert!(all_distinct(&names(&["a", "A", ""])));
}
