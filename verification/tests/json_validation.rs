use xml_json_converter::json_validation::validate;

#[test]
fn valid_object() {
    assert!(validate("{\"key\": \"value\"}").is_ok());
}

#[test]
fn valid_array() {
    assert!(validate("[1, 2, 3]").is_ok());
}

#[test]
fn valid_empty_object() {
    assert!(validate("{}").is_ok());
}

#[test]
fn valid_empty_array() {
    assert!(validate("[]").is_ok());
}

#[test]
fn valid_nested_structures() {
    assert!(validate("{\"a\": {\"b\": [1, true, null]}}").is_ok());
}

#[test]
fn valid_all_scalar_types() {
    assert!(validate("{\"s\": \"str\", \"n\": 42, \"b\": true, \"f\": false, \"z\": null}").is_ok());
}

#[test]
fn unclosed_brace_fails() {
    assert!(validate("{\"key\": \"value\"").is_err());
}

#[test]
fn unclosed_bracket_fails() {
    assert!(validate("[1, 2").is_err());
}

#[test]
fn missing_colon_fails() {
    assert!(validate("{\"key\" \"value\"}").is_err());
}

#[test]
fn double_comma_fails() {
    assert!(validate("[1,, 2]").is_err());
}

#[test]
fn mismatched_brackets_fail() {
    assert!(validate("[1, 2}").is_err());
}

#[test]
fn trailing_comma_in_object_fails() {
    assert!(validate("{\"a\": 1,}").is_err());
}

#[test]
fn invalid_keyword_literal_fails() {
    assert!(validate("{\"x\": treu}").is_err());
}

#[test]
fn invalid_number_literal_fails() {
    assert!(validate("{\"x\": 1.2.3}").is_err());
}
