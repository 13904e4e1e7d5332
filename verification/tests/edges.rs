use xml_json_converter::json_to_xml;
use xml_json_converter::json_validation;
use xml_json_converter::xml_to_json;
use xml_json_converter::xml_validation;

const DECL: &str = "<?xml version=\"1.0\" encoding=\"UTF-8\"?>";

fn item_xml(inner: &str) -> String {
    format!("{}<root><item>{}</item></root>", DECL, inner)
}

#[test]
fn float_forms_accepted_as_numbers() {
    for lit in ["nan", "nAn", "-inf", "-Infinity", "1e5", "1.5E+3", "5.", "-.5", "0.25e-2"] {
        let json = format!("[{}]", lit);
        assert_eq!(json_to_xml::convert(&json, false).unwrap(), item_xml(lit), "literal {}", lit);
    }
}

#[test]
fn malformed_numbers_rejected() {
    for lit in ["1e", "-", "0x10", "1_000", "1.2.3", "--1"] {
        let json = format!("[{}]", lit);
        let err = json_to_xml::convert(&json, false).unwrap_err();
        assert!(err.starts_with(&format!("Invalid literal '{}'", lit)), "{} gave {}", lit, err);
    }
}

#[test]
fn letters_that_start_no_literal_rejected() {
    let err = json_to_xml::convert("[NaN]", false).unwrap_err();
    assert!(err.starts_with("Unexpected character 'N'"), "got {}", err);
    let err = json_to_xml::convert("[+1]", false).unwrap_err();
    assert!(err.starts_with("Unexpected character '+'"), "got {}", err);
}

#[test]
fn unicode_escape_decodes_to_character() {
    let xml = json_to_xml::convert("{\"a\": \"\\u0041\\u00e9\"}", false).unwrap();
    assert_eq!(xml, format!("{}<root><a>Aé</a></root>", DECL));
}

#[test]
fn unterminated_string_rejected() {
    let err = json_to_xml::convert("{\"a\": \"abc", false).unwrap_err();
    assert!(err.starts_with("Unterminated string literal"), "got {}", err);
}

#[test]
fn invalid_escape_rejected() {
    let err = json_to_xml::convert("[\"\\q\"]", false).unwrap_err();
    assert!(err.starts_with("Invalid escape '\\q'"), "got {}", err);
}

#[test]
fn pretty_nested_layout() {
    let xml = json_to_xml::convert("{\"a\": {\"b\": 1}, \"c\": [2, 3]}", true).unwrap();
    assert_eq!(
        xml,
        format!(
            "{}\n<root>\n    <a>\n        <b>1</b>\n    </a>\n    <c>2</c>\n    <c>3</c>\n</root>",
            DECL
        )
    );
}

#[test]
fn top_level_scalar_and_array() {
    assert_eq!(json_to_xml::convert("42", false).unwrap(), format!("{}<root>42</root>", DECL));
    assert_eq!(json_to_xml::convert("null", false).unwrap(), format!("{}<root />", DECL));
    assert_eq!(
        json_to_xml::convert("[[1]]", false).unwrap(),
        format!("{}<root><item><item>1</item></item></root>", DECL)
    );
}

#[test]
fn xml_pretty_exact_layout() {
    let json = xml_to_json::convert("<r a=\"1\"><x>1</x><x>2</x>t</r>", 2).unwrap();
    assert_eq!(
        json,
        "{\n  \"r\": {\n    \"@a\": \"1\",\n    \"x\": [\n      \"1\",\n      \"2\"\n    ],\n    \"#text\": \"t\"\n  }\n}"
    );
}

#[test]
fn xml_byte_order_mark_is_skipped() {
    let json = xml_to_json::convert("\u{feff}<r>x</r>", 0).unwrap();
    assert_eq!(json, "{ \"r\": \"x\" }");
}

#[test]
fn xml_entities_outside_the_five_kept() {
    let json = xml_to_json::convert("<r>&copy; &#65; &#xD800; &amp</r>", 0).unwrap();
    assert_eq!(json, "{ \"r\": \"&copy; A &#xD800; &amp\" }");
}

#[test]
fn json_validation_error_messages() {
    let cases = [
        ("]", "Unexpected closing ']' at line 1, col 1"),
        ("[1}", "Mismatched closing '}' at line 1, col 3"),
        ("{:", "Unexpected ':' at line 1, col 2"),
        ("[,", "Unexpected ',' at line 1, col 2"),
        ("{\"a\" \"b\"}", "Unexpected string at line 1, col 6"),
        ("{x", "Unexpected character 'x' at line 1, col 2"),
        ("[1", "Unexpected EOF: unclosed structures"),
        ("[\n1,\n,]", "Unexpected ',' at line 3, col 1"),
    ];
    for (input, msg) in cases {
        assert_eq!(json_validation::validate(input), Err(msg.to_string()), "input {:?}", input);
    }
}

#[test]
fn json_get_content_cases() {
    assert_eq!(
        json_validation::get_content(Err("Failed to read the file: gone".to_string())),
        Err("Failed to read the file: gone".to_string())
    );
    assert_eq!(
        json_validation::get_content(Ok(String::new())),
        Err("Content is empty".to_string())
    );
    assert_eq!(json_validation::get_content(Ok("[1]".to_string())), Ok("[1]".to_string()));
    assert_eq!(
        json_validation::get_content(Ok("[1".to_string())),
        Err("Unexpected EOF: unclosed structures".to_string())
    );
}

#[test]
fn xml_get_content_cases() {
    assert_eq!(
        xml_validation::get_content(Err("Failed to read the file: gone".to_string())),
        Err("Failed to read the file: gone".to_string())
    );
    assert_eq!(
        xml_validation::get_content(Ok(String::new())),
        Err("Content is empty".to_string())
    );
    assert_eq!(xml_validation::get_content(Ok("<a/>".to_string())), Ok("<a/>".to_string()));
    assert!(xml_validation::get_content(Ok("<a>".to_string())).is_err());
}
