use xml_json_converter::json_to_xml;
use xml_json_converter::xml_to_json;

fn json_err(input: &str) -> String {
    json_to_xml::convert(input, false).unwrap_err()
}

fn xml_err(input: &str) -> String {
    xml_to_json::convert(input, 0).unwrap_err()
}

#[test]
fn json_parser_error_messages() {
    let cases = [
        ("[1] 2", "Unexpected number after top-level JSON value"),
        ("{} {}", "Unexpected '{' after top-level JSON value"),
        ("1 [", "Unexpected '[' after top-level JSON value"),
        ("\"a\" \"b\"", "Unexpected string after top-level JSON value"),
        ("1 true", "Unexpected boolean after top-level JSON value"),
        ("1 null", "Unexpected 'null' after top-level JSON value"),
        ("1 ]", "Unexpected token after top-level JSON value"),
        ("", "Empty token stream"),
        ("]", "Invalid start of JSON"),
        ("{1: 2}", "Expected string key in object"),
        ("{\"a\" 1}", "Expected ':' after object key"),
        ("{\"a\": 1 2}", "Expected ',' or '}' in object"),
        ("[1 2]", "Expected ',' or ']' in array"),
    ];
    for (input, msg) in cases {
        assert_eq!(json_err(input), msg, "input {:?}", input);
    }
}

#[test]
fn json_depth_limit_in_parser() {
    let deep = format!("{}{}", "[".repeat(600), "]".repeat(600));
    assert_eq!(json_err(&deep), "Nesting depth limit exceeded");
}

#[test]
fn xml_parser_error_messages() {
    let cases = [
        ("", "Empty XML document"),
        ("<a/><b/>", "Second root element <b>"),
        ("</a>", "Unbalanced tags"),
        ("<a></b>", "Expected </a>, found </b>"),
        ("<a>", "Unclosed element <a> at end of input"),
        ("hello", "Text outside of the root element"),
    ];
    for (input, msg) in cases {
        assert_eq!(xml_err(input), msg, "input {:?}", input);
    }
}

#[test]
fn xml_lexer_error_messages() {
    let cases = [
        ("<a", "Unexpected end of input: tag not closed"),
        ("<a x></a>", "Attribute without '=' in tag"),
        ("<a></a", "Unexpected EOF in closing tag"),
        ("<a><![CDATA[x</a>", "Unclosed CDATA section"),
        ("<>", "Empty tag name"),
        ("<a><!-- x</a>", "Unclosed comment"),
        ("<?xml", "Unclosed processing instruction"),
    ];
    for (input, prefix) in cases {
        let err = xml_err(input);
        assert!(err.starts_with(prefix), "input {:?} gave {:?}", input, err);
    }
}
