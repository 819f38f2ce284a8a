use json_shape::document::{
    infer_declarations, infer_declarations_from_text, samples_valid, DocumentError,
};
use json_shape::value::Value;

fn pair(name: &str, text: &str) -> (String, String) {
    (name.to_string(), text.to_string())
}

#[test]
fn text_of_an_object_gives_its_declarations() {
    let text = r#"{"roles": ["admin", "editor"], "name": "x", "age": 3, "ok": true, "nick": null}"#;
    let out = infer_declarations_from_text("Root", text).unwrap();
    assert_eq!(
        out,
        vec![pair(
            "Root",
            "type Root = {\n    roles: string[];\n    name: string;\n    age: number;\n    ok: boolean;\n    nick?: any;\n}"
        )]
    );
}

#[test]
fn fields_come_in_the_order_of_the_text() {
    let text = r#"{"zeta": 1, "alpha": 2, "mid": 3}"#;
    let out = infer_declarations_from_text("Root", text).unwrap();
    assert_eq!(
        out,
        vec![pair("Root", "type Root = {\n    zeta: number;\n    alpha: number;\n    mid: number;\n}")]
    );
}

#[test]
fn nested_objects_are_declared_before_their_parent() {
    let text = r#"{
        "profile": {"address": {"city": "Anytown"}, "age": 30},
        "phoneNumbers": [{"type": "home", "ext": null}, {"type": "work"}]
    }"#;
    let out = infer_declarations_from_text("Root", text).unwrap();
    assert_eq!(
        out,
        vec![
            pair("AddressData", "type AddressData = {\n    city: string;\n}"),
            pair("ProfileData", "type ProfileData = {\n    address: AddressData;\n    age: number;\n}"),
            pair("PhoneNumbersData", "type PhoneNumbersData = {\n    type: string;\n    ext?: any;\n}"),
            pair(
                "Root",
                "type Root = {\n    profile: ProfileData;\n    phoneNumbers: PhoneNumbersData[];\n}"
            ),
        ]
    );
}

#[test]
fn text_of_an_array_gives_an_alias() {
    let out = infer_declarations_from_text("Root", r#"[1, "a", [true], {"k": null}]"#).unwrap();
    assert_eq!(
        out,
        vec![
            pair("RootData", "type RootData = {\n    k?: any;\n}"),
            pair("Root", "type Root = (RootData | boolean[] | number | string)[]"),
        ]
    );
}

#[test]
fn long_and_short_strings_are_both_strings() {
    let text = r#"{"s": "x", "l": "a string that is much longer than thirty-two bytes in all"}"#;
    let out = infer_declarations_from_text("Root", text).unwrap();
    assert_eq!(out, vec![pair("Root", "type Root = {\n    s: string;\n    l: string;\n}")]);
}

#[test]
fn text_that_is_not_json_is_refused() {
    assert_eq!(infer_declarations_from_text("Root", "{"), Err(DocumentError::InvalidJson));
    assert_eq!(infer_declarations_from_text("Root", ""), Err(DocumentError::InvalidJson));
}

#[test]
fn scalar_root_is_refused() {
    assert_eq!(infer_declarations_from_text("Root", "42"), Err(DocumentError::InvalidSamples));
    assert_eq!(infer_declarations_from_text("Root", "null"), Err(DocumentError::InvalidSamples));
}

#[test]
fn samples_are_valid_as_one_composite_or_several_objects() {
    assert!(!samples_valid(&vec![]));
    assert!(samples_valid(&vec![Value::Object(vec![])]));
    assert!(samples_valid(&vec![Value::Array(vec![])]));
    assert!(!samples_valid(&vec![Value::Number]));
    assert!(samples_valid(&vec![Value::Object(vec![]), Value::Object(vec![])]));
    assert!(!samples_valid(&vec![Value::Object(vec![]), Value::Array(vec![])]));
    assert!(!samples_valid(&vec![Value::Array(vec![]), Value::Array(vec![])]));
}

#[test]
fn invalid_samples_give_no_declarations() {
    assert_eq!(infer_declarations("T", &vec![Value::String]), Err(DocumentError::InvalidSamples));
    assert_eq!(infer_declarations("T", &vec![]), Err(DocumentError::InvalidSamples));
    assert_eq!(
        infer_declarations("T", &vec![Value::Object(vec![])]),
        Ok(vec![pair("T", "type T = {\n}")])
    );
}

#[test]
fn long_run_of_digits_is_refused_unread() {
    let fraction = format!("0.{}", "0".repeat(40000));
    assert_eq!(infer_declarations_from_text("Root", &fraction), Err(DocumentError::NumberTooLong));
    let in_array = format!("[1, 2.{}5, 3]", "0".repeat(32768));
    assert_eq!(infer_declarations_from_text("Root", &in_array), Err(DocumentError::NumberTooLong));
    let in_string = format!("{{\"id\": \"{}\"}}", "7".repeat(32768));
    assert_eq!(infer_declarations_from_text("Root", &in_string), Err(DocumentError::NumberTooLong));
    let not_json = format!("{{{}", "1".repeat(32768));
    assert_eq!(infer_declarations_from_text("Root", &not_json), Err(DocumentError::NumberTooLong));
}

#[test]
fn longest_admitted_run_of_digits_is_read() {
    let fraction = format!("[0.{}]", "0".repeat(32767));
    assert_eq!(
        infer_declarations_from_text("Root", &fraction),
        Ok(vec![pair("Root", "type Root = number[]")])
    );
    let integer = format!("{{\"n\": 1{}}}", "0".repeat(32766));
    assert_eq!(
        infer_declarations_from_text("Root", &integer),
        Ok(vec![pair("Root", "type Root = {\n    n: number;\n}")])
    );
    let runs = format!("[{}, {}]", "1".repeat(18), "2".repeat(18));
    assert_eq!(
        infer_declarations_from_text("Root", &runs),
        Ok(vec![pair("Root", "type Root = number[]")])
    );
}
