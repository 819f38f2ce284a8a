use json_shape::emit::{render_all, render_definition, render_field};
use json_shape::infer::{classify, synthesize};
use json_shape::registry::{FieldEntry, TypeDefinition, TypeRegistry};
use json_shape::types::{Primitive, TypeExpression};
use json_shape::value::Value;

fn object(fields: Vec<(&str, Value)>) -> Value {
    Value::Object(fields.into_iter().map(|(name, value)| (name.to_string(), value)).collect())
}

fn primitive(p: Primitive) -> TypeExpression {
    TypeExpression::Primitive(p)
}

fn record_of<'a>(registry: &'a TypeRegistry, name: &str) -> &'a Vec<FieldEntry> {
    match registry.get(name) {
        Some(TypeDefinition::Record(fields)) => fields,
        other => panic!("no record under {}: {:?}", name, other),
    }
}

#[test]
fn scalars_classify_as_primitives() {
    let mut registry = TypeRegistry::new();
    assert_eq!(classify("a", &Value::Null, &mut registry), primitive(Primitive::Any));
    assert_eq!(classify("a", &Value::String, &mut registry), primitive(Primitive::String));
    assert_eq!(classify("a", &Value::Number, &mut registry), primitive(Primitive::Number));
    assert_eq!(classify("a", &Value::Boolean, &mut registry), primitive(Primitive::Boolean));
    assert_eq!(registry.len(), 0);
}

#[test]
fn empty_array_is_array_of_any() {
    let mut registry = TypeRegistry::new();
    let t = classify("tags", &Value::Array(vec![]), &mut registry);
    assert_eq!(t, TypeExpression::Array(Box::new(primitive(Primitive::Any))));
    assert_eq!(t.render(), "any[]");
    assert_eq!(registry.len(), 0);
}

#[test]
fn array_of_one_member_type() {
    let mut registry = TypeRegistry::new();
    let t = classify("roles", &Value::Array(vec![Value::String, Value::String]), &mut registry);
    assert_eq!(t, TypeExpression::Array(Box::new(primitive(Primitive::String))));
    assert_eq!(t.render(), "string[]");
}

#[test]
fn array_of_several_member_types_is_a_sorted_union() {
    let mut registry = TypeRegistry::new();
    let items = vec![Value::String, Value::Number, Value::Null, Value::String, Value::Boolean];
    let t = classify("mixed", &Value::Array(items), &mut registry);
    assert_eq!(
        t,
        TypeExpression::Array(Box::new(TypeExpression::Union(vec![
            primitive(Primitive::Any),
            primitive(Primitive::Boolean),
            primitive(Primitive::Number),
            primitive(Primitive::String),
        ])))
    );
    assert_eq!(t.render(), "(any | boolean | number | string)[]");
}

#[test]
fn nested_arrays_render_with_brackets() {
    let mut registry = TypeRegistry::new();
    let inner = Value::Array(vec![Value::Number, Value::String]);
    let t = classify("grid", &Value::Array(vec![inner, Value::Number]), &mut registry);
    assert_eq!(t.render(), "((number | string)[] | number)[]");
}

#[test]
fn object_registers_a_record_and_is_a_reference() {
    let mut registry = TypeRegistry::new();
    let value = object(vec![("twitter", Value::String), ("facebook", Value::Null)]);
    let t = classify("socialMedia", &value, &mut registry);
    assert_eq!(t, TypeExpression::Reference("SocialMediaData".to_string()));
    let fields = record_of(&registry, "SocialMediaData");
    assert_eq!(fields.len(), 2);
    assert_eq!(render_field(&fields[0]), "twitter: string;");
    assert_eq!(render_field(&fields[1]), "facebook?: any;");
    assert!(!fields[0].optional);
    assert!(fields[1].optional);
}

#[test]
fn single_object_twice_gives_identical_definitions() {
    let value = object(vec![
        ("id", Value::Number),
        ("tags", Value::Array(vec![Value::String])),
        ("owner", object(vec![("name", Value::String)])),
    ]);
    let mut first = TypeRegistry::new();
    classify("item", &value, &mut first);
    let mut second = TypeRegistry::new();
    classify("item", &value, &mut second);
    classify("item", &value, &mut second);
    assert_eq!(first.get("ItemData"), second.get("ItemData"));
    assert_eq!(render_all(&first), render_all(&second));
}

#[test]
fn null_makes_optional_without_joining_the_union() {
    let samples = vec![object(vec![("field", Value::Null)]), object(vec![("field", Value::String)])];
    let mut registry = TypeRegistry::new();
    let t = classify("rows", &Value::Array(samples), &mut registry);
    assert_eq!(t.render(), "RowsData[]");
    let fields = record_of(&registry, "RowsData");
    assert_eq!(fields.len(), 1);
    assert_eq!(render_field(&fields[0]), "field?: string;");
    assert_eq!(fields[0].types, vec![primitive(Primitive::String)]);
}

#[test]
fn null_after_a_type_makes_optional_too() {
    let samples = vec![object(vec![("field", Value::String)]), object(vec![("field", Value::Null)])];
    let mut registry = TypeRegistry::new();
    synthesize("Rows", &samples, &mut registry);
    let fields = record_of(&registry, "Rows");
    assert_eq!(render_field(&fields[0]), "field?: string;");
}

#[test]
fn always_null_field_renders_as_any() {
    let samples = vec![object(vec![("field", Value::Null)]), object(vec![("field", Value::Null)])];
    let mut registry = TypeRegistry::new();
    synthesize("Rows", &samples, &mut registry);
    let fields = record_of(&registry, "Rows");
    assert_eq!(render_field(&fields[0]), "field?: any;");
}

#[test]
fn absent_field_is_optional_in_either_order() {
    let with_a = || object(vec![("a", Value::Number), ("b", Value::String)]);
    let without_a = || object(vec![("b", Value::String)]);

    let mut registry = TypeRegistry::new();
    synthesize("T", &vec![with_a(), without_a()], &mut registry);
    let fields = record_of(&registry, "T");
    assert_eq!(render_field(&fields[0]), "a?: number;");
    assert_eq!(render_field(&fields[1]), "b: string;");

    let mut registry = TypeRegistry::new();
    synthesize("T", &vec![without_a(), with_a()], &mut registry);
    let fields = record_of(&registry, "T");
    assert_eq!(render_field(&fields[0]), "b: string;");
    assert_eq!(render_field(&fields[1]), "a?: number;");
}

#[test]
fn union_grows_without_duplicates_in_alphabetical_order() {
    let samples = vec![
        object(vec![("v", Value::Number)]),
        object(vec![("v", Value::String)]),
        object(vec![("v", Value::Number)]),
    ];
    let mut registry = TypeRegistry::new();
    synthesize("T", &samples, &mut registry);
    let fields = record_of(&registry, "T");
    assert_eq!(fields[0].types, vec![primitive(Primitive::Number), primitive(Primitive::String)]);
    assert_eq!(render_field(&fields[0]), "v: number | string;");

    let reversed = vec![
        object(vec![("v", Value::String)]),
        object(vec![("v", Value::Number)]),
    ];
    let mut registry = TypeRegistry::new();
    synthesize("T", &reversed, &mut registry);
    let fields = record_of(&registry, "T");
    assert_eq!(render_field(&fields[0]), "v: number | string;");
}

#[test]
fn array_of_objects_registers_one_record() {
    let phones = Value::Array(vec![
        object(vec![("type", Value::String)]),
        object(vec![("type", Value::String)]),
    ]);
    let mut registry = TypeRegistry::new();
    let t = classify("phoneNumbers", &phones, &mut registry);
    assert_eq!(
        t,
        TypeExpression::Array(Box::new(TypeExpression::Reference("PhoneNumbersData".to_string())))
    );
    assert_eq!(t.render(), "PhoneNumbersData[]");
    let fields = record_of(&registry, "PhoneNumbersData");
    assert_eq!(fields.len(), 1);
    assert!(!fields[0].optional);
    assert_eq!(render_field(&fields[0]), "type: string;");
}

#[test]
fn array_of_objects_and_others_is_a_union_with_the_reference() {
    let items = Value::Array(vec![object(vec![("x", Value::Number)]), Value::String, Value::Null]);
    let mut registry = TypeRegistry::new();
    let t = classify("things", &items, &mut registry);
    assert_eq!(t.render(), "(ThingsData | any | string)[]");
}

#[test]
fn present_array_field_is_required() {
    let root = object(vec![("roles", Value::Array(vec![Value::String, Value::String]))]);
    let mut registry = TypeRegistry::new();
    synthesize("Root", &vec![root], &mut registry);
    let fields = record_of(&registry, "Root");
    assert_eq!(
        fields[0].types,
        vec![TypeExpression::Array(Box::new(primitive(Primitive::String)))]
    );
    assert_eq!(render_field(&fields[0]), "roles: string[];");
}

#[test]
fn later_type_of_the_same_name_overwrites_the_earlier() {
    let root = object(vec![
        ("address", object(vec![("street", Value::String)])),
        ("billing", object(vec![("address", object(vec![("zip", Value::Number)]))])),
    ]);
    let mut registry = TypeRegistry::new();
    synthesize("Root", &vec![root], &mut registry);
    let fields = record_of(&registry, "AddressData");
    assert_eq!(fields.len(), 1);
    assert_eq!(render_field(&fields[0]), "zip: number;");
    let names: Vec<String> = render_all(&registry).into_iter().map(|(name, _)| name).collect();
    assert_eq!(names, vec!["AddressData", "BillingData", "Root"]);
}

#[test]
fn root_array_is_registered_as_an_alias() {
    let root = Value::Array(vec![object(vec![("id", Value::Number)])]);
    let mut registry = TypeRegistry::new();
    synthesize("Root", &vec![root], &mut registry);
    assert_eq!(
        registry.get("Root"),
        Some(&TypeDefinition::Alias(TypeExpression::Array(Box::new(TypeExpression::Reference(
            "RootData".to_string()
        )))))
    );
    let out = render_all(&registry);
    assert_eq!(out.len(), 2);
    assert_eq!(out[0], ("RootData".to_string(), "type RootData = {\n    id: number;\n}".to_string()));
    assert_eq!(out[1], ("Root".to_string(), "type Root = RootData[]".to_string()));
}

#[test]
fn declarations_come_in_first_registered_order() {
    let root = object(vec![
        ("user", object(vec![("name", Value::String), ("nick", Value::Null)])),
        ("tags", Value::Array(vec![Value::String, Value::Number])),
    ]);
    let mut registry = TypeRegistry::new();
    synthesize("Root", &vec![root], &mut registry);
    let out = render_all(&registry);
    assert_eq!(out.len(), 2);
    assert_eq!(out[0].0, "UserData");
    assert_eq!(out[0].1, "type UserData = {\n    name: string;\n    nick?: any;\n}");
    assert_eq!(out[1].0, "Root");
    assert_eq!(
        out[1].1,
        "type Root = {\n    user: UserData;\n    tags: (number | string)[];\n}"
    );
}

#[test]
fn empty_record_and_empty_alternatives() {
    assert_eq!(render_definition("E", &TypeDefinition::Record(vec![])), "type E = {\n}");
    let field = FieldEntry { name: "x".to_string(), types: vec![], optional: true };
    assert_eq!(render_field(&field), "x?: any;");
}

#[test]
fn put_overwrites_and_keeps_the_place() {
    let mut registry = TypeRegistry::new();
    registry.put("A".to_string(), TypeDefinition::Alias(primitive(Primitive::String)));
    registry.put("B".to_string(), TypeDefinition::Alias(primitive(Primitive::Number)));
    registry.put("A".to_string(), TypeDefinition::Alias(primitive(Primitive::Boolean)));
    assert_eq!(registry.len(), 2);
    assert_eq!(registry.name_at(0), "A");
    assert_eq!(registry.name_at(1), "B");
    assert_eq!(registry.get("A"), Some(&TypeDefinition::Alias(primitive(Primitive::Boolean))));
    assert_eq!(registry.get("C"), None);
}
