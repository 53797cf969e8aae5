use graphql_parser::Pos;
use graphql_selection::{Directive, Field, SelectionSet, Value};

fn names(names: &[&str]) -> Vec<String> {
    names.iter().map(|name| name.to_string()).collect()
}

fn leaf(name: &str) -> Field {
    Field {
        position: Pos { line: 1, column: 1 },
        alias: None,
        name: name.to_string(),
        arguments: vec![],
        directives: vec![],
        selection_set: SelectionSet::new(vec![]),
    }
}

fn parent(name: &str, types: &[&str], children: &[&str]) -> Field {
    let mut selection_set = SelectionSet::new(names(types));
    for child in children {
        selection_set.push(&leaf(child));
    }
    Field {
        selection_set,
        ..leaf(name)
    }
}

fn directive(name: &str) -> Directive {
    Directive {
        position: Pos { line: 2, column: 3 },
        name: name.to_string(),
        arguments: vec![("if".to_string(), Value::Boolean(true))],
    }
}

fn keys(set: &SelectionSet, object_type: &str) -> Vec<String> {
    set.fields_for(object_type)
        .iter()
        .map(|field| field.response_key().to_string())
        .collect()
}

fn no_key_twice(set: &SelectionSet) -> bool {
    set.fields().iter().all(|(_, fields)| {
        fields.iter().enumerate().all(|(i, field)| {
            fields[..i]
                .iter()
                .all(|earlier| earlier.response_key() != field.response_key())
                && no_key_twice(&field.selection_set)
        })
    })
}

#[test]
fn response_key_is_alias_or_name() {
    let mut field = leaf("name");
    assert_eq!(field.response_key(), "name");
    field.alias = Some("title".to_string());
    assert_eq!(field.response_key(), "title");
    field.alias = Some(String::new());
    assert_eq!(field.response_key(), "");
}

#[test]
fn field_argument_lookup_finds_the_first_of_that_name() {
    let mut field = leaf("users");
    field.arguments = vec![
        ("first".to_string(), Value::Int(10)),
        ("skip".to_string(), Value::Int(5)),
        ("first".to_string(), Value::Int(20)),
    ];
    assert_eq!(field.argument_value("first"), Some(&Value::Int(10)));
    assert_eq!(field.argument_value("skip"), Some(&Value::Int(5)));
    assert_eq!(field.argument_value("last"), None);
}

#[test]
fn leaf_has_no_fields_below() {
    assert!(leaf("name").is_leaf());
    assert!(parent("owner", &["User"], &[]).is_leaf());
    assert!(!parent("owner", &["User"], &["id"]).is_leaf());
}

#[test]
fn prepended_directives_come_first() {
    let mut field = leaf("name");
    field.directives = vec![directive("a"), directive("b")];
    field.prepend_directives(vec![directive("c"), directive("d")]);
    let order: Vec<&str> = field.directives.iter().map(|d| d.name.as_str()).collect();
    assert_eq!(order, vec!["c", "d", "a", "b"]);
    field.prepend_directives(vec![]);
    assert_eq!(field.directives.len(), 4);
}

#[test]
fn new_set_has_its_types_and_no_fields() {
    let set = SelectionSet::new(names(&["Cat", "Dog"]));
    assert!(set.is_empty());
    let listing = set.fields();
    assert_eq!(listing.len(), 2);
    assert_eq!(listing[0].0, "Cat");
    assert_eq!(listing[1].0, "Dog");
    assert!(listing[0].1.is_empty());
    assert!(listing[1].1.is_empty());
    assert!(set.single_field().is_none());
    assert!(SelectionSet::new(vec![]).is_empty());
    assert!(SelectionSet::new(vec![]).single_field().is_none());
}

#[test]
fn empty_from_keeps_types_and_drops_fields() {
    let mut set = SelectionSet::new(names(&["Cat", "Dog"]));
    set.push(&leaf("name"));
    assert!(!set.is_empty());
    let cleared = SelectionSet::empty_from(&set);
    assert!(cleared.is_empty());
    assert_eq!(cleared, SelectionSet::new(names(&["Cat", "Dog"])));
    assert_eq!(keys(&set, "Cat"), vec!["name"]);
}

#[test]
fn push_adds_the_field_for_every_type() {
    let mut set = SelectionSet::new(names(&["Cat", "Dog"]));
    set.push(&leaf("name"));
    set.push(&leaf("age"));
    assert_eq!(keys(&set, "Cat"), vec!["name", "age"]);
    assert_eq!(keys(&set, "Dog"), vec!["name", "age"]);
    assert_eq!(set.fields_for("Cat")[0], &leaf("name"));
}

#[test]
fn push_of_a_known_key_merges_below() {
    let mut set = SelectionSet::new(names(&["Cat"]));
    set.push(&parent("owner", &["User"], &["id"]));
    let mut again = parent("owner", &["User"], &["id", "email"]);
    again.directives = vec![directive("skip")];
    again.arguments = vec![("x".to_string(), Value::Int(1))];
    set.push(&again);
    assert_eq!(keys(&set, "Cat"), vec!["owner"]);
    let owner = set.fields_for("Cat")[0];
    assert!(owner.directives.is_empty());
    assert!(owner.arguments.is_empty());
    assert_eq!(keys(&owner.selection_set, "User"), vec!["id", "email"]);
}

#[test]
fn alias_decides_what_merges() {
    let mut set = SelectionSet::new(names(&["Cat"]));
    set.push(&leaf("name"));
    let mut aliased = leaf("title");
    aliased.alias = Some("name".to_string());
    set.push(&aliased);
    assert_eq!(set.fields_for("Cat").len(), 1);
    assert_eq!(set.fields_for("Cat")[0].name, "name");
    let mut other = leaf("name");
    other.alias = Some("label".to_string());
    set.push(&other);
    assert_eq!(keys(&set, "Cat"), vec!["name", "label"]);
}

#[test]
fn push_fields_pushes_in_order() {
    let mut set = SelectionSet::new(names(&["Cat", "Dog"]));
    let a = leaf("a");
    let b = leaf("b");
    set.push_fields(vec![&a, &b, &a]);
    assert_eq!(keys(&set, "Cat"), vec!["a", "b"]);
    assert_eq!(keys(&set, "Dog"), vec!["a", "b"]);
    set.push_fields(vec![]);
    assert_eq!(keys(&set, "Cat"), vec!["a", "b"]);
}

#[test]
fn merge_adds_new_fields_with_directives_in_front() {
    let mut set = SelectionSet::new(names(&["Cat", "Dog"]));
    set.push(&leaf("name"));
    let mut other = SelectionSet::new(names(&["Cat"]));
    let mut meow = leaf("meow");
    meow.directives = vec![directive("own")];
    other.push(&meow);
    set.merge(other, vec![directive("outer"), directive("inner")]);
    assert_eq!(keys(&set, "Cat"), vec!["name", "meow"]);
    assert_eq!(keys(&set, "Dog"), vec!["name"]);
    let merged = set.fields_for("Cat")[1];
    let order: Vec<&str> = merged.directives.iter().map(|d| d.name.as_str()).collect();
    assert_eq!(order, vec!["outer", "inner", "own"]);
    assert!(set.fields_for("Cat")[0].directives.is_empty());
}

#[test]
fn merge_of_a_known_key_merges_below_and_drops_the_rest() {
    let mut set = SelectionSet::new(names(&["Cat", "Dog"]));
    set.push(&parent("owner", &["User", "Team"], &["id"]));
    let mut other = SelectionSet::new(names(&["Dog"]));
    let mut incoming = parent("owner", &["User"], &["email", "id"]);
    incoming.position = Pos { line: 9, column: 9 };
    incoming.arguments = vec![("x".to_string(), Value::Int(1))];
    other.push(&incoming);
    set.merge(other, vec![directive("skip")]);
    assert_eq!(keys(&set, "Cat"), vec!["owner"]);
    assert_eq!(keys(&set, "Dog"), vec!["owner"]);
    let cat_owner = set.fields_for("Cat")[0];
    assert_eq!(keys(&cat_owner.selection_set, "User"), vec!["id"]);
    let dog_owner = set.fields_for("Dog")[0];
    assert_eq!(dog_owner.position, Pos { line: 1, column: 1 });
    assert!(dog_owner.arguments.is_empty());
    assert!(dog_owner.directives.is_empty());
    assert_eq!(keys(&dog_owner.selection_set, "User"), vec!["id", "email"]);
    assert_eq!(keys(&dog_owner.selection_set, "Team"), vec!["id"]);
    let email = dog_owner.selection_set.fields_for("User")[1];
    assert!(email.directives.is_empty());
}

#[test]
fn merge_with_a_set_without_types_changes_nothing() {
    let mut set = SelectionSet::new(names(&["Cat"]));
    set.push(&leaf("name"));
    let before = set.clone();
    set.merge(SelectionSet::new(vec![]), vec![directive("skip")]);
    assert_eq!(set, before);
}

#[test]
fn merging_a_copy_adds_no_field() {
    let mut set = SelectionSet::new(names(&["Cat", "Dog"]));
    set.push(&leaf("name"));
    set.push(&parent("owner", &["User"], &["id", "email"]));
    let mut extra = SelectionSet::new(names(&["Dog"]));
    extra.push(&leaf("bark"));
    set.merge(extra, vec![]);
    let copy = set.clone();
    set.merge(copy.clone(), vec![directive("skip")]);
    assert_eq!(keys(&set, "Cat"), vec!["name", "owner"]);
    assert_eq!(keys(&set, "Dog"), vec!["name", "owner", "bark"]);
    assert_eq!(set, copy);
}

#[test]
fn no_response_key_occurs_twice() {
    let mut set = SelectionSet::new(names(&["Cat", "Dog"]));
    set.push(&leaf("name"));
    set.push(&leaf("name"));
    set.push(&parent("owner", &["User"], &["id", "id"]));
    let mut other = SelectionSet::new(names(&["Dog", "Cat"]));
    other.push(&leaf("name"));
    other.push(&parent("owner", &["User"], &["email", "id"]));
    other.push(&leaf("bark"));
    set.merge(other, vec![directive("include")]);
    assert!(no_key_twice(&set));
    assert_eq!(keys(&set, "Cat"), vec!["name", "owner", "bark"]);
    assert_eq!(keys(&set, "Dog"), vec!["name", "owner", "bark"]);
    let owner = set.fields_for("Cat")[1];
    assert_eq!(keys(&owner.selection_set, "User"), vec!["id", "email"]);
}

#[test]
fn single_field_where_all_types_agree() {
    let mut set = SelectionSet::new(names(&["A", "B"]));
    let field = parent("f", &["User"], &["id"]);
    set.push(&field);
    assert_eq!(set.single_field(), Some(&field));
    let mut one = SelectionSet::new(names(&["A"]));
    one.push(&field);
    assert_eq!(one.single_field(), Some(&field));
}

#[test]
fn single_field_is_none_where_types_differ() {
    let mut set = SelectionSet::new(names(&["A", "B"]));
    let mut a = SelectionSet::new(names(&["A"]));
    a.push(&leaf("f"));
    let mut b = SelectionSet::new(names(&["B"]));
    b.push(&leaf("g"));
    set.merge(a, vec![]);
    set.merge(b, vec![]);
    assert_eq!(keys(&set, "A"), vec!["f"]);
    assert_eq!(keys(&set, "B"), vec!["g"]);
    assert_eq!(set.single_field(), None);
}

#[test]
fn single_field_is_none_where_a_type_has_none_or_two() {
    let mut set = SelectionSet::new(names(&["A", "B"]));
    let mut a = SelectionSet::new(names(&["A"]));
    a.push(&leaf("f"));
    set.merge(a, vec![]);
    assert_eq!(set.single_field(), None);
    let mut b = SelectionSet::new(names(&["B"]));
    b.push(&leaf("f"));
    b.push(&leaf("g"));
    set.merge(b, vec![]);
    assert_eq!(set.single_field(), None);
}

#[test]
fn single_field_compares_every_part() {
    let mut set = SelectionSet::new(names(&["A", "B"]));
    let mut a = SelectionSet::new(names(&["A"]));
    a.push(&leaf("f"));
    set.merge(a, vec![]);
    let mut b = SelectionSet::new(names(&["B"]));
    let mut moved = leaf("f");
    moved.position = Pos { line: 1, column: 2 };
    b.push(&moved);
    set.merge(b, vec![]);
    assert_eq!(set.single_field(), None);

    let mut set = SelectionSet::new(names(&["A", "B"]));
    let mut a = SelectionSet::new(names(&["A"]));
    a.push(&leaf("f"));
    set.merge(a, vec![]);
    let mut b = SelectionSet::new(names(&["B"]));
    b.push(&leaf("f"));
    set.merge(b, vec![directive("skip")]);
    assert_eq!(set.single_field(), None);
}

#[test]
fn fields_differing_in_one_part_are_not_equal() {
    let field = parent("f", &["User"], &["id"]);
    assert_eq!(field, field.clone());
    let mut other = field.clone();
    other.alias = Some("f".to_string());
    assert_ne!(field, other);
    let mut other = field.clone();
    other.arguments = vec![("x".to_string(), Value::Null)];
    assert_ne!(field, other);
    let mut other = field.clone();
    other.position = Pos { line: 7, column: 1 };
    assert_ne!(field, other);
    assert_ne!(field, parent("f", &["User"], &["email"]));
    assert_ne!(field, parent("f", &["Team"], &["id"]));
    assert_ne!(field, parent("f", &["User"], &[]));
}

#[test]
fn interior_fields_leave_out_the_leaves() {
    let mut set = SelectionSet::new(names(&["Cat", "Dog"]));
    set.push(&leaf("name"));
    set.push(&parent("owner", &["User"], &["id"]));
    set.push(&parent("vet", &["User"], &[]));
    set.push(&parent("home", &["Address"], &["city"]));
    let listing = set.interior_fields();
    assert_eq!(listing.len(), 2);
    for (object_type, fields) in &listing {
        assert!(*object_type == "Cat" || *object_type == "Dog");
        let keys: Vec<&str> = fields.iter().map(|field| field.response_key()).collect();
        assert_eq!(keys, vec!["owner", "home"]);
    }
    let all = set.fields();
    assert_eq!(all[0].1.len(), 4);
    assert_eq!(all[1].1.len(), 4);
}

#[test]
fn fields_for_finds_the_type_by_name() {
    let mut set = SelectionSet::new(names(&["Cat", "Dog", "Bird"]));
    let mut dog = SelectionSet::new(names(&["Dog"]));
    dog.push(&leaf("bark"));
    set.merge(dog, vec![]);
    assert!(set.fields_for("Cat").is_empty());
    assert_eq!(keys(&set, "Dog"), vec!["bark"]);
    assert!(set.fields_for("Bird").is_empty());
}

#[test]
fn has_type_tests_the_types_of_the_set() {
    let set = SelectionSet::new(names(&["Cat", "Dog"]));
    assert!(set.has_type("Cat"));
    assert!(set.has_type("Dog"));
    assert!(!set.has_type("Bird"));
    assert!(!set.has_type(""));
    assert!(!SelectionSet::new(vec![]).has_type("Cat"));
}

#[test]
fn a_set_accepts_sets_over_some_of_its_types() {
    let mut set = SelectionSet::new(names(&["Cat", "Dog"]));
    set.push(&leaf("name"));
    assert!(set.accepts(&SelectionSet::new(vec![])));
    assert!(set.accepts(&SelectionSet::new(names(&["Dog"]))));
    assert!(set.accepts(&SelectionSet::new(names(&["Dog", "Cat"]))));
    assert!(set.accepts(&set));
    assert!(!set.accepts(&SelectionSet::new(names(&["Bird"]))));
    assert!(!set.accepts(&SelectionSet::new(names(&["Cat", "Bird"]))));
    assert!(!SelectionSet::new(vec![]).accepts(&set));
}

#[test]
fn acceptance_looks_below_fields_of_the_same_key() {
    let mut set = SelectionSet::new(names(&["Cat", "Dog"]));
    set.push(&parent("owner", &["User"], &["id"]));
    let narrower = parent("owner", &[], &[]);
    let same = parent("owner", &["User"], &["email"]);
    let broader = parent("owner", &["User", "Team"], &["id"]);
    let unrelated = parent("vet", &["Team"], &["id"]);
    assert!(set.accepts_field(&narrower));
    assert!(set.accepts_field(&same));
    assert!(!set.accepts_field(&broader));
    assert!(set.accepts_field(&unrelated));
    assert!(set.accepts_field(&leaf("owner")));

    let over = |field: &Field| {
        let mut other = SelectionSet::new(names(&["Dog"]));
        other.push(field);
        other
    };
    assert!(set.accepts(&over(&narrower)));
    assert!(set.accepts(&over(&same)));
    assert!(!set.accepts(&over(&broader)));
    assert!(set.accepts(&over(&unrelated)));

    let mut aliased = broader.clone();
    aliased.alias = Some("keeper".to_string());
    assert!(set.accepts_field(&aliased));
    assert!(set.accepts(&over(&aliased)));
}
