use graphql_parser::Pos;
use graphql_selection::{Directive, Value};

fn directive(name: &str, arguments: Vec<(&str, Value)>) -> Directive {
    Directive {
        position: Pos { line: 1, column: 1 },
        name: name.to_string(),
        arguments: arguments
            .into_iter()
            .map(|(name, value)| (name.to_string(), value))
            .collect(),
    }
}

#[test]
fn include_with_false_condition_skips() {
    assert!(directive("include", vec![("if", Value::Boolean(false))]).skip());
}

#[test]
fn include_with_true_condition_keeps() {
    assert!(!directive("include", vec![("if", Value::Boolean(true))]).skip());
}

#[test]
fn skip_with_true_condition_skips() {
    assert!(directive("skip", vec![("if", Value::Boolean(true))]).skip());
}

#[test]
fn skip_with_false_condition_keeps() {
    assert!(!directive("skip", vec![("if", Value::Boolean(false))]).skip());
}

#[test]
fn skip_without_condition_skips() {
    assert!(directive("skip", vec![]).skip());
}

#[test]
fn include_without_condition_keeps() {
    assert!(!directive("include", vec![]).skip());
}

#[test]
fn non_boolean_condition_counts_as_false() {
    let text = Value::String("true".to_string());
    assert!(!directive("skip", vec![("if", text.clone())]).skip());
    assert!(directive("include", vec![("if", text)]).skip());
    assert!(!directive("skip", vec![("if", Value::Null)]).skip());
    assert!(directive("include", vec![("if", Value::Int(1))]).skip());
}

#[test]
fn other_directives_never_skip() {
    assert!(!directive("deprecated", vec![]).skip());
    assert!(!directive("deprecated", vec![("if", Value::Boolean(true))]).skip());
    assert!(!directive("deprecated", vec![("if", Value::Boolean(false))]).skip());
    assert!(!directive("Skip", vec![("if", Value::Boolean(true))]).skip());
    assert!(!directive("", vec![("if", Value::Boolean(true))]).skip());
}

#[test]
fn condition_is_read_from_the_argument_called_if() {
    let d = directive(
        "skip",
        vec![("unless", Value::Boolean(true)), ("if", Value::Boolean(false))],
    );
    assert!(!d.eval_if());
    assert!(!d.skip());
    let d = directive("skip", vec![("iff", Value::Boolean(false))]);
    assert!(d.eval_if());
    assert!(d.skip());
}

#[test]
fn argument_lookup_finds_the_first_of_that_name() {
    let d = directive(
        "cost",
        vec![
            ("a", Value::Int(1)),
            ("b", Value::Int(2)),
            ("a", Value::Int(3)),
        ],
    );
    assert_eq!(d.argument_value("a"), Some(&Value::Int(1)));
    assert_eq!(d.argument_value("b"), Some(&Value::Int(2)));
    assert_eq!(d.argument_value("c"), None);
    assert_eq!(d.argument_value(""), None);
    assert_eq!(d.argument_value("A"), None);
}

#[test]
fn directives_compare_by_position_name_and_arguments() {
    let d = directive("skip", vec![("if", Value::Boolean(true))]);
    assert_eq!(d, d.clone());
    let mut moved = d.clone();
    moved.position = Pos { line: 1, column: 2 };
    assert_ne!(d, moved);
    let mut renamed = d.clone();
    renamed.name = "include".to_string();
    assert_ne!(d, renamed);
    assert_ne!(d, directive("skip", vec![("if", Value::Boolean(false))]));
    assert_ne!(d, directive("skip", vec![]));
}

#[test]
fn values_compare_as_trees() {
    let list = Value::List(vec![Value::Int(1), Value::Enum("RED".to_string())]);
    assert_eq!(list, list.clone());
    assert_ne!(
        list,
        Value::List(vec![Value::Enum("RED".to_string()), Value::Int(1)])
    );
    assert_ne!(list, Value::List(vec![Value::Int(1)]));
    let object = Value::Object(vec![
        ("x".to_string(), Value::Float(1.5f64.to_bits())),
        ("y".to_string(), Value::Null),
    ]);
    assert_eq!(object, object.clone());
    assert_ne!(
        object,
        Value::Object(vec![
            ("x".to_string(), Value::Float(2.5f64.to_bits())),
            ("y".to_string(), Value::Null),
        ])
    );
    assert_ne!(Value::String("RED".to_string()), Value::Enum("RED".to_string()));
    assert_ne!(Value::Int(0), Value::Null);
    assert_ne!(Value::Boolean(true), Value::Boolean(false));
}
