use xml_json_converter::json_to_xml;
use xml_json_converter::json_to_xml::json_lexer::Lexer as JsonLexer;
use xml_json_converter::json_to_xml::json_model::Token as JsonToken;
use xml_json_converter::json_to_xml::json_parser::Parser as JsonParser;
use xml_json_converter::xml_to_json;
use xml_json_converter::xml_to_json::xml_lexer::Lexer as XmlLexer;
use xml_json_converter::xml_to_json::xml_model::{XmlNode, escape_json_text};
use xml_json_converter::xml_to_json::xml_parser::Parser as XmlParser;

const DECL: &str = "<?xml version=\"1.0\" encoding=\"UTF-8\"?>";

fn json_by_steps(json: &str, pretty: bool) -> Result<String, String> {
    let tokens = JsonLexer::new(json).tokenize()?;
    let node = JsonParser::new(tokens).parse()?;
    if pretty {
        node.to_pretty_xml(4).map(|x| format!("{}\n{}", DECL, x))
    } else {
        node.to_xml().map(|x| format!("{}{}", DECL, x))
    }
}

fn xml_by_steps(xml: &str, indent: usize) -> Result<String, String> {
    let xml = xml.strip_prefix('\u{FEFF}').unwrap_or(xml);
    let tokens = XmlLexer::new(xml).tokenize()?;
    let node = XmlParser::new(tokens).parse()?;
    let name = match &node {
        XmlNode::Element { name, .. } => name.clone(),
        XmlNode::Text(_) => panic!("the root is an element"),
    };
    if indent > 0 {
        let body = node.to_pretty_json_at(1, indent)?;
        Ok(format!("{{\n{}\"{}\": {}\n}}", " ".repeat(indent), name, body))
    } else {
        Ok(format!("{{ \"{}\": {} }}", name, node.to_json()?))
    }
}

#[test]
fn json_conversion_is_lex_parse_write() {
    let inputs = [
        "{\"a\": [1, {\"b\": null}], \"c\": \"x<y\"}",
        "[1, 2]",
        "\"s\"",
        "{\"a\" 1}",
        "[1,]",
        "{\"k\": tru}",
        "",
    ];
    for json in inputs {
        for pretty in [false, true] {
            assert_eq!(json_to_xml::convert(json, pretty), json_by_steps(json, pretty), "{:?}", json);
        }
    }
}

#[test]
fn xml_conversion_is_lex_parse_write() {
    let inputs = [
        "<r a=\"1\"><x>1</x><x>2</x><y/>t</r>",
        "\u{feff}<r>x</r>",
        "<r><a></r>",
        "<r a=1/>",
        "",
        "<a/><b/>",
    ];
    for xml in inputs {
        for indent in [0, 2] {
            assert_eq!(xml_to_json::convert(xml, indent), xml_by_steps(xml, indent), "{:?}", xml);
        }
    }
}

#[test]
fn escaped_json_string_lexes_as_the_text() {
    for text in ["", "plain", "q\"b\\s/", "\n\r\t\u{1}\u{1f}", "é€😀"] {
        let chars: Vec<char> = text.chars().collect();
        let mut out: Vec<char> = vec!['"'];
        escape_json_text(&chars, &mut out);
        out.push('"');
        let quoted: String = out.into_iter().collect();
        assert_eq!(
            JsonLexer::new(&quoted).tokenize(),
            Ok(vec![JsonToken::StringVal(text.to_string())]),
            "{:?}",
            text
        );
    }
}

#[test]
fn parser_reads_the_tokens_of_one_value() {
    let tokens = vec![
        JsonToken::BraceOpen,
        JsonToken::StringVal("a".to_string()),
        JsonToken::Colon,
        JsonToken::Number("1".to_string()),
        JsonToken::Comma,
        JsonToken::StringVal("a".to_string()),
        JsonToken::Colon,
        JsonToken::BracketOpen,
        JsonToken::Null,
        JsonToken::Comma,
        JsonToken::BoolVal(true),
        JsonToken::BracketClose,
        JsonToken::BraceClose,
    ];
    let node = JsonParser::new(tokens).parse().unwrap();
    match &node {
        xml_json_converter::json_to_xml::json_model::JsonNode::Object(members) => {
            assert_eq!(members.len(), 2);
            assert_eq!(members[0].0, "a");
            assert_eq!(members[1].0, "a");
        },
        _ => panic!("an object"),
    }
    assert_eq!(
        node.to_xml(),
        Ok("<root><a>1</a><a_2 /><a_2>true</a_2></root>".to_string())
    );
    let not_one_value = [
        vec![JsonToken::Number("1".to_string()), JsonToken::Number("2".to_string())],
        vec![JsonToken::BracketOpen, JsonToken::Comma, JsonToken::BracketClose],
        vec![JsonToken::BracketOpen, JsonToken::Number("1".to_string()), JsonToken::Comma, JsonToken::BracketClose],
        vec![JsonToken::BraceOpen, JsonToken::Number("1".to_string()), JsonToken::Colon, JsonToken::Null, JsonToken::BraceClose],
        vec![JsonToken::BracketOpen],
        vec![],
    ];
    for tokens in not_one_value {
        let shown = format!("{:?}", tokens);
        assert!(JsonParser::new(tokens).parse().is_err(), "{}", shown);
    }
}
