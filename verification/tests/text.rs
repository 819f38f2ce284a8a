use json_shape::text::{chars_of, compare_texts, digit_runs_are_short, Place, MAX_DIGIT_RUN};
use json_shape::types::{insert_type, Primitive, TypeExpression};

fn place(a: &str, b: &str) -> Place {
    compare_texts(&chars_of(a), &chars_of(b))
}

#[test]
fn chars_are_read_in_order() {
    assert_eq!(chars_of("ab-c"), vec!['a', 'b', '-', 'c']);
    assert_eq!(chars_of(""), Vec::<char>::new());
}

#[test]
fn texts_compare_alphabetically() {
    assert!(matches!(place("any", "boolean"), Place::Before));
    assert!(matches!(place("string", "number"), Place::After));
    assert!(matches!(place("number", "number"), Place::Same));
    assert!(matches!(place("num", "number"), Place::Before));
    assert!(matches!(place("number", "num"), Place::After));
    assert!(matches!(place("", ""), Place::Same));
    assert!(matches!(place("(a)[]", "A"), Place::Before));
    assert!(matches!(place("Zed", "any"), Place::Before));
}

#[test]
fn insert_type_keeps_order_and_drops_duplicates() {
    let mut types = Vec::new();
    insert_type(&mut types, TypeExpression::Primitive(Primitive::String));
    insert_type(&mut types, TypeExpression::Primitive(Primitive::Any));
    insert_type(&mut types, TypeExpression::Reference("FooData".to_string()));
    insert_type(&mut types, TypeExpression::Primitive(Primitive::String));
    insert_type(&mut types, TypeExpression::Primitive(Primitive::Number));
    let texts: Vec<String> = types.iter().map(|t| t.render()).collect();
    assert_eq!(texts, vec!["FooData", "any", "number", "string"]);
}

#[test]
fn digit_runs_are_counted_between_other_characters() {
    assert!(digit_runs_are_short(""));
    assert!(digit_runs_are_short("no digits"));
    assert!(digit_runs_are_short(&"9".repeat(MAX_DIGIT_RUN)));
    assert!(!digit_runs_are_short(&"9".repeat(MAX_DIGIT_RUN + 1)));
    let broken = format!("{}.{}", "1".repeat(MAX_DIGIT_RUN), "2".repeat(MAX_DIGIT_RUN));
    assert!(digit_runs_are_short(&broken));
    let late = format!("abc{}", "0".repeat(MAX_DIGIT_RUN + 1));
    assert!(!digit_runs_are_short(&late));
    let wide = format!("é{}é", "5".repeat(MAX_DIGIT_RUN));
    assert!(digit_runs_are_short(&wide));
}
