use json_shape::naming::{derive_name, to_kebab_case};

#[test]
fn pascal_case_joins_pieces() {
    assert_eq!(to_kebab_case("phone-numbers"), "PhoneNumbers");
    assert_eq!(to_kebab_case("social_media"), "SocialMedia");
    assert_eq!(to_kebab_case("phoneNumbers"), "PhoneNumbers");
    assert_eq!(to_kebab_case(""), "");
    assert_eq!(to_kebab_case("--a__b-"), "AB");
}

#[test]
fn derived_names_end_in_data() {
    assert_eq!(derive_name("phoneNumbers"), "PhoneNumbersData");
    assert_eq!(derive_name("address"), "AddressData");
    assert_eq!(derive_name(""), "Data");
}
