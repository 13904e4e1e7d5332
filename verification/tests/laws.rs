use xml_json_converter::json_to_xml;
use xml_json_converter::xml_to_json;
use xml_json_converter::json_to_xml::json_model::sanitize_classified;
use xml_json_converter::xml_to_json::xml_lexer::Lexer as XmlLexer;
use xml_json_converter::xml_to_json::xml_model::Token as XmlToken;

const DECL: &str = "<?xml version=\"1.0\" encoding=\"UTF-8\"?>";

#[test]
fn xml_text_reads_back_after_escaping() {
    let xml = json_to_xml::convert("{\"t\": \"a&b<c]]>d\"}", false).unwrap();
    assert_eq!(xml, format!("{}<root><t>a&amp;b&lt;c]]&gt;d</t></root>", DECL));
    let json = xml_to_json::convert(&xml, 0).unwrap();
    assert_eq!(json, "{ \"root\": { \"t\": \"a&b<c]]>d\" } }");
}

#[test]
fn json_string_reads_back_after_escaping() {
    let xml = "<root><t>say \"hi\"\\back\ttab\u{1}</t></root>";
    let json = xml_to_json::convert(xml, 0).unwrap();
    assert_eq!(json, "{ \"root\": { \"t\": \"say \\\"hi\\\"\\\\back\\ttab\\u0001\" } }");
    let back = json_to_xml::convert(&json, false).unwrap();
    assert_eq!(
        back,
        format!("{}<root><root><t>say \"hi\"\\back\ttab\u{1}</t></root></root>", DECL)
    );
}

#[test]
fn escaped_text_never_holds_cdata_end_or_lt() {
    let xml = json_to_xml::convert("{\"t\": \"]]]>>]]><\"}", false).unwrap();
    assert_eq!(xml, format!("{}<root><t>]]]&gt;>]]&gt;&lt;</t></root>", DECL));
    assert!(!xml.contains("]]>"));
}

#[test]
fn sanitized_tags_are_valid_names() {
    let xml = json_to_xml::convert("{\"1 a.b\": 1, \"-x\": 2, \"é!\": 3}", false).unwrap();
    assert_eq!(
        xml,
        format!("{}<root><_1_a.b>1</_1_a.b><_-x>2</_-x><é_>3</é_></root>", DECL)
    );
}

#[test]
fn unicode_numeric_first_char_gets_prefix() {
    let xml = json_to_xml::convert("{\"\u{663}x\": 1, \"\u{bd}\": 2}", false).unwrap();
    assert_eq!(
        xml,
        format!("{}<root><_\u{663}x>1</_\u{663}x><_\u{bd}>2</_\u{bd}></root>", DECL)
    );
}

#[test]
fn keys_with_same_tag_get_distinct_elements() {
    let xml = json_to_xml::convert("{\"a b\": 1, \"a_b\": 2, \"a-b\": 3, \"a?b\": 4}", false).unwrap();
    assert_eq!(
        xml,
        format!("{}<root><a_b>1</a_b><a_b_2>2</a_b_2><a-b>3</a-b><a_b_3>4</a_b_3></root>", DECL)
    );
}

#[test]
fn parsed_root_is_an_element() {
    let json = xml_to_json::convert("<doc/>", 0).unwrap();
    assert_eq!(json, "{ \"doc\": {} }");
}

#[test]
fn written_json_converts_back() {
    let json = xml_to_json::convert("<r a=\"1\"><x>1</x><x>2</x>t</r>", 2).unwrap();
    let xml = json_to_xml::convert(&json, false).unwrap();
    assert_eq!(
        xml,
        format!("{}<root><r><_a>1</_a><x>1</x><x>2</x><_text>t</_text></r></root>", DECL)
    );
    let compact = xml_to_json::convert("<r a=\"1\"><x>1</x><x>2</x>t</r>", 0).unwrap();
    assert_eq!(json_to_xml::convert(&compact, false).unwrap(), xml);
}

#[test]
fn written_xml_converts_back() {
    let xml = json_to_xml::convert("{\"a\": [1, 2], \"b\": null, \"c\": \"x<y\"}", false).unwrap();
    assert_eq!(
        xml,
        format!("{}<root><a>1</a><a>2</a><b /><c>x&lt;y</c></root>", DECL)
    );
    let json = xml_to_json::convert(&xml, 0).unwrap();
    assert_eq!(json, "{ \"root\": { \"a\": [\"1\", \"2\"], \"b\": {}, \"c\": \"x<y\" } }");
    let pretty = json_to_xml::convert("{\"a\": [1, 2], \"b\": null, \"c\": \"x<y\"}", true).unwrap();
    assert_eq!(xml_to_json::convert(&pretty, 0).unwrap(), json);
}

#[test]
fn written_json_passes_the_json_check() {
    let xml = "<r a=\"q&quot;\"><x>1</x><x>tab\there</x>t<y/></r>";
    for indent in [0, 2, 4] {
        let json = xml_to_json::convert(xml, indent).unwrap();
        assert_eq!(xml_json_converter::json_validation::validate(&json), Ok(()), "indent {}", indent);
    }
}

#[test]
fn written_xml_passes_the_xml_check() {
    let json = "{\"a\": [1, {\"b\": null}], \"c\": \"<&>]]>\", \"d\": true, \"e\": {}}";
    for pretty in [false, true] {
        let xml = json_to_xml::convert(json, pretty).unwrap();
        assert_eq!(xml_json_converter::xml_validation::validate(&xml), Ok(()), "pretty {}", pretty);
    }
}

#[test]
fn indentation_keeps_the_json_document() {
    let xml = "<r a=\"1\"><x>1</x><x>2</x><y><z/></y>t</r>";
    let compact = xml_to_json::convert(xml, 0).unwrap();
    for indent in [1, 2, 4] {
        let pretty = xml_to_json::convert(xml, indent).unwrap();
        assert_eq!(
            json_to_xml::convert(&pretty, false).unwrap(),
            json_to_xml::convert(&compact, false).unwrap()
        );
    }
}

fn nested_xml(levels: usize) -> String {
    format!("{}x{}", "<a>".repeat(levels), "</a>".repeat(levels))
}

#[test]
fn indentation_does_not_change_the_nesting_limit() {
    let fits = nested_xml(512);
    let compact = xml_to_json::convert(&fits, 0);
    assert!(compact.is_ok());
    for indent in [1, 2, 4] {
        assert!(xml_to_json::convert(&fits, indent).is_ok(), "indent {}", indent);
    }
    let too_deep = nested_xml(513);
    for indent in [0, 1, 2, 4] {
        assert_eq!(
            xml_to_json::convert(&too_deep, indent),
            Err("Nesting depth limit exceeded".to_string()),
            "indent {}",
            indent
        );
    }
}

#[test]
fn sanitized_tag_names_are_stable() {
    for name in ["root", "1 a.b", "-x", "é!", "\u{663}x", "", "_9", "a:b"] {
        let chars: Vec<char> = name.chars().collect();
        let once = json_to_xml::json_model::sanitize_tag_name(&chars);
        let twice = json_to_xml::json_model::sanitize_tag_name(&once);
        assert_eq!(once, twice, "name {:?}", name);
    }
    let root: Vec<char> = "root".chars().collect();
    assert_eq!(json_to_xml::json_model::sanitize_tag_name(&root), root);
}

#[test]
fn tag_from_given_classes() {
    let name: Vec<char> = "1a?".chars().collect();
    assert_eq!(sanitize_classified(&name, &[true, true, false], true), vec!['_', '1', 'a', '_']);
    assert_eq!(sanitize_classified(&name, &[true, true, false], false), vec!['1', 'a', '_']);
    assert_eq!(sanitize_classified(&name, &[false, false, false], false), vec!['_', '_', '_']);
    let dash: Vec<char> = "-b".chars().collect();
    assert_eq!(sanitize_classified(&dash, &[false, true], false), vec!['_', '-', 'b']);
    assert_eq!(sanitize_classified(&[], &[], true), vec!['_']);
}

#[test]
fn every_parsed_json_document_converts() {
    for n in [1usize, 100, 511, 512] {
        let arrays = format!("{}{}", "[".repeat(n), "]".repeat(n));
        assert!(json_to_xml::convert(&arrays, false).is_ok(), "arrays {}", n);
        assert!(json_to_xml::convert(&arrays, true).is_ok(), "arrays {}", n);
    }
    for n in [1usize, 100, 511] {
        let objects = format!("{}1{}", "{\"a\": ".repeat(n), "}".repeat(n));
        assert!(json_to_xml::convert(&objects, false).is_ok(), "objects {}", n);
    }
    let deep = format!("{}{}", "[".repeat(513), "]".repeat(513));
    assert_eq!(
        json_to_xml::convert(&deep, false),
        Err("Nesting depth limit exceeded".to_string())
    );
}

#[test]
fn xml_tokens_have_their_shape() {
    use_xml_tokens("<?xml version=\"1.0\"?><r a=\"1\" b='&amp;'><x/>t&lt;<![CDATA[]]><![CDATA[c]]><!-- n --></ r >");
}

fn use_xml_tokens(text: &str) {
    let tokens = XmlLexer::new(text).tokenize().unwrap();
    for (i, t) in tokens.iter().enumerate() {
        match t {
            XmlToken::Text(x) => assert!(!x.is_empty()),
            XmlToken::TagOpen(n) => {
                assert!(!n.is_empty());
                assert!(!n.chars().any(|c| c.is_whitespace() || c == '>' || c == '/'));
            },
            XmlToken::TagClose(n) => assert_eq!(n.trim(), n),
            XmlToken::Attr(_, _) | XmlToken::TagSelfClose => {
                assert!(i > 0);
                assert!(matches!(tokens[i - 1], XmlToken::TagOpen(_) | XmlToken::Attr(_, _)));
            },
            XmlToken::ProcessingInstruction => {},
        }
    }
    assert_eq!(tokens.len(), 9);
    assert_eq!(tokens[7], XmlToken::Text("c".to_string()));
    assert_eq!(tokens[8], XmlToken::TagClose("r".to_string()));
}

fn without_layout(s: &str) -> String {
    let mut out = String::new();
    let mut after_break = false;
    for c in s.chars() {
        if c == '\n' {
            after_break = true;
            continue;
        }
        if after_break && c == ' ' {
            continue;
        }
        after_break = false;
        out.push(c);
    }
    out
}

#[test]
fn indented_xml_differs_in_layout_only() {
    let json = "{\"a\": [1, {\"b\": null}, []], \"c\": \"x  y \", \"d\": {}, \"e\": [[true, \"z\"]]}";
    let compact = json_to_xml::convert(json, false).unwrap();
    let pretty = json_to_xml::convert(json, true).unwrap();
    assert_ne!(pretty, compact);
    assert_eq!(without_layout(&pretty), compact);
    for (i, c) in pretty.char_indices() {
        if c == '\n' {
            assert!(i > 0 && pretty[..i].ends_with('>'), "break at {}", i);
        }
    }
}

fn balanced_outside_strings(s: &str) -> bool {
    let mut stack: Vec<char> = Vec::new();
    let mut in_string = false;
    let mut escaped = false;
    for c in s.chars() {
        if in_string {
            if escaped {
                escaped = false;
            } else if c == '\\' {
                escaped = true;
            } else if c == '"' {
                in_string = false;
            }
            continue;
        }
        match c {
            '"' => in_string = true,
            '{' | '[' => stack.push(c),
            '}' => {
                if stack.pop() != Some('{') {
                    return false;
                }
            },
            ']' => {
                if stack.pop() != Some('[') {
                    return false;
                }
            },
            _ => {},
        }
    }
    !in_string && stack.is_empty()
}

#[test]
fn accepted_json_is_balanced() {
    let accepted = [
        "{\"a\": [1, 2.5e3, {\"b\": null}], \"c\": \"[{\\\"\"}",
        "[true, false, -0.5, \"]\", {}]",
        " 42 ",
        "\"}\"",
        "[inf, NaN, +1]",
    ];
    for text in accepted {
        assert_eq!(xml_json_converter::json_validation::validate(text), Ok(()), "{}", text);
        assert!(balanced_outside_strings(text), "{}", text);
    }
    let rejected = ["[1, 2", "[1}", "{\"a\": 1,}", "[1,,2]", "[1, 2,]", "[tru]", "[1x]", "\"open"];
    for text in rejected {
        assert!(xml_json_converter::json_validation::validate(text).is_err(), "{}", text);
    }
}

#[test]
fn documents_the_converter_reads_pass_the_check() {
    let documents = [
        "{\"a\": [1, -2.5E+3, {\"b\": null}], \"c\": \"\\u00e9\\ud83d\\ude00\\\"\"}",
        " [ true , false , \"x\\/y\" ] ",
        "\"only a string\"",
        "[-inf, -NaN, 7]",
        "{}",
    ];
    for text in documents {
        assert!(json_to_xml::convert(text, false).is_ok(), "{}", text);
        assert_eq!(xml_json_converter::json_validation::validate(text), Ok(()), "{}", text);
    }
}

#[test]
fn rfc_8259_texts_pass_the_check() {
    let deep = format!("{}{}", "[".repeat(600), "]".repeat(600));
    let texts = [
        "\t{ \"a\" :\r\n[ 1 , -0.5e-3 , 0 , 12E+2 , true , false , null ] , \"b\\u00e9\\\"\\/\\b\\f\\n\\r\\t\" : { } }\n",
        "[]",
        "[ ]",
        "{ }",
        "\"\\ud800\"",
        " -0 ",
        "\"\u{7f}\u{e9}\"",
        deep.as_str(),
    ];
    for text in texts {
        assert_eq!(xml_json_converter::json_validation::validate(text), Ok(()), "{:?}", text);
    }
}

#[test]
fn escaped_xml_text_only_escapes_what_it_must() {
    use_escape("plain text > ] ]", "plain text > ] ]");
    use_escape("a&b<c]]>d", "a&amp;b&lt;c]]&gt;d");
}

fn use_escape(text: &str, expected: &str) {
    let chars: Vec<char> = text.chars().collect();
    let mut out: Vec<char> = Vec::new();
    json_to_xml::json_model::escape_xml_text(&chars, &mut out);
    let written: String = out.iter().collect();
    assert_eq!(written, expected);
    for (i, c) in written.char_indices() {
        if c == '&' {
            let rest = &written[i..];
            assert!(rest.starts_with("&amp;") || rest.starts_with("&lt;") || rest.starts_with("&gt;"));
        }
    }
}

#[test]
fn xml_lexer_is_usable_after_tokenize() {
    let mut lexer = XmlLexer::new("<a>x</a>");
    assert_eq!(lexer.tokenize().map(|t| t.len()), Ok(3));
    assert_eq!(lexer.tokenize(), Ok(vec![]));
    let mut open = XmlLexer::new("<a");
    let first = open.tokenize();
    assert!(first.is_err());
    assert_eq!(open.tokenize(), first);
}
