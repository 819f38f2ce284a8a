use json_shape::document::{parse_value, DocumentError};
use json_shape::emit::{render_all, render_field};
use json_shape::infer::{classify, merge_samples, synthesize};
use json_shape::naming::{derive_name, to_kebab_case};
use json_shape::registry::{FieldEntry, TypeDefinition, TypeRegistry};
use json_shape::types::{Primitive, TypeExpression};
use json_shape::value::Value;

fn object(fields: Vec<(&str, Value)>) -> Value {
    Value::Object(fields.into_iter().map(|(name, value)| (name.to_string(), value)).collect())
}

fn lines(fields: &[FieldEntry]) -> Vec<String> {
    fields.iter().map(render_field).collect()
}

#[test]
fn fields_stand_in_first_seen_order() {
    let samples = vec![
        object(vec![("b", Value::Number)]),
        object(vec![("a", Value::Number), ("b", Value::Number)]),
        object(vec![("c", Value::Number), ("a", Value::Number)]),
    ];
    let mut registry = TypeRegistry::new();
    let table = merge_samples(&samples, &mut registry);
    assert_eq!(lines(&table), vec!["b?: number;", "a?: number;", "c?: number;"]);
    assert_eq!(registry.len(), 0);
}

#[test]
fn field_of_every_sample_is_required() {
    let samples = vec![
        object(vec![("id", Value::Number), ("x", Value::String)]),
        object(vec![("x", Value::Boolean), ("id", Value::Number)]),
    ];
    let mut registry = TypeRegistry::new();
    let table = merge_samples(&samples, &mut registry);
    assert_eq!(lines(&table), vec!["id: number;", "x: boolean | string;"]);
}

#[test]
fn alternatives_are_the_types_seen() {
    let samples = vec![
        object(vec![("v", Value::Array(vec![Value::Number]))]),
        object(vec![("v", Value::Null)]),
        object(vec![("v", Value::Number)]),
        object(vec![("v", Value::Array(vec![Value::Number, Value::Number]))]),
        object(vec![("v", object(vec![]))]),
    ];
    let mut registry = TypeRegistry::new();
    let table = merge_samples(&samples, &mut registry);
    assert_eq!(table.len(), 1);
    assert_eq!(
        table[0].types,
        vec![
            TypeExpression::Reference("VData".to_string()),
            TypeExpression::Primitive(Primitive::Number),
            TypeExpression::Array(Box::new(TypeExpression::Primitive(Primitive::Number))),
        ]
    );
    assert_eq!(render_field(&table[0]), "v?: VData | number | number[];");
}

#[test]
fn new_null_field_of_a_later_sample_is_any() {
    let samples = vec![object(vec![]), object(vec![("n", Value::Null)])];
    let mut registry = TypeRegistry::new();
    let table = merge_samples(&samples, &mut registry);
    assert_eq!(lines(&table), vec!["n?: any;"]);
}

#[test]
fn empty_first_sample_makes_every_field_optional() {
    let items = Value::Array(vec![object(vec![]), object(vec![("a", Value::Number)])]);
    let mut registry = TypeRegistry::new();
    classify("things", &items, &mut registry);
    match registry.get("ThingsData") {
        Some(TypeDefinition::Record(fields)) => assert_eq!(lines(fields), vec!["a?: number;"]),
        other => panic!("unexpected definition {:?}", other),
    }
}

#[test]
fn members_that_are_no_objects_are_passed_over_when_merging() {
    let items = vec![Value::Number, object(vec![("a", Value::Number)]), Value::Null];
    let mut registry = TypeRegistry::new();
    let table = merge_samples(&items, &mut registry);
    assert_eq!(lines(&table), vec!["a: number;"]);
}

#[test]
fn repeated_field_name_in_one_object_is_merged() {
    let value = object(vec![("a", Value::Number), ("a", Value::String)]);
    let mut registry = TypeRegistry::new();
    classify("o", &value, &mut registry);
    match registry.get("OData") {
        Some(TypeDefinition::Record(fields)) => {
            assert_eq!(lines(fields), vec!["a: number | string;"])
        }
        other => panic!("unexpected definition {:?}", other),
    }
}

#[test]
fn nested_empty_shapes() {
    let mut registry = TypeRegistry::new();
    let t = classify("m", &Value::Array(vec![Value::Array(vec![])]), &mut registry);
    assert_eq!(t.render(), "any[][]");
    let t = classify("o", &object(vec![("inner", object(vec![]))]), &mut registry);
    assert_eq!(t.render(), "OData");
    assert_eq!(
        render_all(&registry),
        vec![
            ("InnerData".to_string(), "type InnerData = {\n}".to_string()),
            ("OData".to_string(), "type OData = {\n    inner: InnerData;\n}".to_string()),
        ]
    );
}

#[test]
fn array_of_arrays_of_objects_registers_the_record_once() {
    let row = || Value::Array(vec![object(vec![("x", Value::Number)])]);
    let mut registry = TypeRegistry::new();
    let t = classify("cells", &Value::Array(vec![row(), row()]), &mut registry);
    assert_eq!(t.render(), "CellsData[][]");
    assert_eq!(registry.len(), 1);
}

#[test]
fn classifying_again_changes_nothing() {
    let value = object(vec![
        ("a", object(vec![("b", Value::Array(vec![object(vec![("c", Value::Null)])]))])),
        ("b", object(vec![("d", Value::Number)])),
    ]);
    let mut registry = TypeRegistry::new();
    classify("root", &value, &mut registry);
    let once = render_all(&registry);
    classify("root", &value, &mut registry);
    assert_eq!(render_all(&registry), once);
    let names: Vec<&str> = once.iter().map(|(name, _)| name.as_str()).collect();
    assert_eq!(names, vec!["BData", "AData", "RootData"]);
}

#[test]
fn synthesizing_again_changes_nothing() {
    let samples = vec![
        object(vec![("a", Value::Number)]),
        object(vec![("a", Value::Null), ("o", object(vec![]))]),
    ];
    let mut registry = TypeRegistry::new();
    synthesize("T", &samples, &mut registry);
    let once = render_all(&registry);
    synthesize("T", &samples, &mut registry);
    assert_eq!(render_all(&registry), once);
    assert_eq!(once.len(), 2);
}

#[test]
fn only_ascii_letters_are_upper_cased() {
    assert_eq!(to_kebab_case("étage-x"), "étageX");
    assert_eq!(to_kebab_case("1st_place"), "1stPlace");
    assert_eq!(to_kebab_case("Already_Upper"), "AlreadyUpper");
    assert_eq!(to_kebab_case("z"), "Z");
    assert_eq!(to_kebab_case("a b"), "A b");
    assert_eq!(derive_name("user-id_list"), "UserIdListData");
}

#[test]
fn parse_value_reads_the_shape() {
    assert_eq!(
        parse_value(r#"{"a": [1, "x", null, true, {}]}"#),
        Ok(object(vec![(
            "a",
            Value::Array(vec![
                Value::Number,
                Value::String,
                Value::Null,
                Value::Boolean,
                object(vec![]),
            ])
        )]))
    );
    assert_eq!(parse_value("-1.5e3"), Ok(Value::Number));
    assert_eq!(parse_value("[1, 2"), Err(DocumentError::InvalidJson));
    assert_eq!(parse_value("nul"), Err(DocumentError::InvalidJson));
}

#[test]
fn repeated_key_in_a_text_keeps_the_first_place_and_the_last_value() {
    assert_eq!(
        parse_value(r#"{"a": 1, "b": 2, "a": "x"}"#),
        Ok(object(vec![("a", Value::String), ("b", Value::Number)]))
    );
}

fn references(t: &TypeExpression, out: &mut Vec<String>) {
    match t {
        TypeExpression::Primitive(_) => {}
        TypeExpression::Reference(name) => out.push(name.clone()),
        TypeExpression::Array(inner) => references(inner, out),
        TypeExpression::Union(members) => members.iter().for_each(|m| references(m, out)),
    }
}

#[test]
fn every_referenced_type_is_registered() {
    let value = object(vec![
        ("a", object(vec![("b", Value::Array(vec![object(vec![("c", Value::Null)]), Value::Number]))])),
        ("list", Value::Array(vec![Value::Array(vec![object(vec![("deep", object(vec![]))])])])),
    ]);
    let mut registry = TypeRegistry::new();
    let t = classify("root", &value, &mut registry);
    let mut names = Vec::new();
    references(&t, &mut names);
    for i in 0..registry.len() {
        match registry.definition_at(i) {
            TypeDefinition::Record(fields) => {
                for field in fields {
                    field.types.iter().for_each(|t| references(t, &mut names));
                }
            }
            TypeDefinition::Alias(t) => references(t, &mut names),
        }
    }
    assert_eq!(names, vec!["RootData", "BData", "DeepData", "AData", "ListData"]);
    let registered: Vec<&str> = (0..registry.len()).map(|i| registry.name_at(i).as_str()).collect();
    assert_eq!(registered, vec!["BData", "AData", "DeepData", "ListData", "RootData"]);
    for name in &names {
        assert!(registry.get(name).is_some(), "{} is not registered", name);
    }
}
