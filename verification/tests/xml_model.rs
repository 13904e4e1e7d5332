use xml_json_converter::xml_to_json::xml_model::{XmlNode, MAX_DEPTH};

fn elem(name: &str, children: Vec<XmlNode>) -> XmlNode {
    XmlNode::Element {
        name: name.to_string(),
        attributes: Vec::new(),
        children,
    }
}

fn elem_attr(name: &str, attrs: &[(&str, &str)]) -> XmlNode {
    let attributes = attrs
        .iter()
        .map(|(k, v)| (k.to_string(), v.to_string()))
        .collect();
    XmlNode::Element {
        name: name.to_string(),
        attributes,
        children: Vec::new(),
    }
}

#[test]
fn text_node_to_json() {
    let node = XmlNode::Text("hello".to_string());
    assert_eq!(node.to_json().unwrap(), "\"hello\"");
}

#[test]
fn text_node_escapes_quotes() {
    let node = XmlNode::Text("say \"hi\"".to_string());
    let json = node.to_json().unwrap();
    assert!(json.contains("\\\""));
}

#[test]
fn text_node_escapes_backslash() {
    let node = XmlNode::Text("C:\\path".to_string());
    let json = node.to_json().unwrap();
    assert!(json.contains("\\\\"));
}

#[test]
fn element_with_only_text_returns_string() {
    let node = elem("root", vec![XmlNode::Text("value".to_string())]);
    assert_eq!(node.to_json().unwrap(), "\"value\"");
}

#[test]
fn element_with_attribute_has_at_prefix() {
    let node = elem_attr("root", &[("id", "1")]);
    let json = node.to_json().unwrap();
    assert!(json.contains("\"@id\": \"1\""));
}

#[test]
fn attribute_order_preserved() {
    let node = elem_attr("root", &[("first", "1"), ("second", "2"), ("third", "3")]);
    let json = node.to_json().unwrap();
    let pos_first = json.find("\"@first\"").unwrap();
    let pos_second = json.find("\"@second\"").unwrap();
    let pos_third = json.find("\"@third\"").unwrap();
    assert!(pos_first < pos_second && pos_second < pos_third);
}

#[test]
fn repeated_children_produce_array() {
    let node = elem(
        "root",
        vec![
            elem("item", vec![XmlNode::Text("a".to_string())]),
            elem("item", vec![XmlNode::Text("b".to_string())]),
        ],
    );
    let json = node.to_json().unwrap();
    assert!(json.contains('['));
    assert!(json.contains("\"item\""));
}

#[test]
fn unique_children_produce_object_keys() {
    let node = elem(
        "root",
        vec![
            elem("a", vec![XmlNode::Text("1".to_string())]),
            elem("b", vec![XmlNode::Text("2".to_string())]),
        ],
    );
    let json = node.to_json().unwrap();
    assert!(json.contains("\"a\""));
    assert!(json.contains("\"b\""));
    assert!(!json.contains('['));
}

#[test]
fn child_order_preserved() {
    let node = elem(
        "root",
        vec![
            elem("a", vec![XmlNode::Text("1".to_string())]),
            elem("b", vec![XmlNode::Text("2".to_string())]),
            elem("c", vec![XmlNode::Text("3".to_string())]),
        ],
    );
    let json = node.to_json().unwrap();
    let pos_a = json.find("\"a\"").unwrap();
    let pos_b = json.find("\"b\"").unwrap();
    let pos_c = json.find("\"c\"").unwrap();
    assert!(pos_a < pos_b && pos_b < pos_c);
}

#[test]
fn mixed_text_and_children_adds_hash_text() {
    let node = XmlNode::Element {
        name: "root".to_string(),
        attributes: Vec::new(),
        children: vec![
            XmlNode::Text("note".to_string()),
            elem("child", vec![]),
        ],
    };
    let json = node.to_json().unwrap();
    assert!(json.contains("\"#text\""));
    assert!(json.contains("\"note\""));
}

#[test]
fn multiple_text_nodes_joined_without_separator() {
    // "a " and " b" already carry their own whitespace — join must not add more
    let node = XmlNode::Element {
        name: "p".to_string(),
        attributes: Vec::new(),
        children: vec![
            XmlNode::Text("a ".to_string()),
            elem("b", vec![]),
            XmlNode::Text(" c".to_string()),
        ],
    };
    let json = node.to_json().unwrap();
    assert!(json.contains("\"a  c\""), "got: {}", json);
}

#[test]
fn pretty_json_contains_newlines() {
    let node = elem("root", vec![elem("child", vec![XmlNode::Text("x".to_string())])]);
    let pretty = node.to_pretty_json_at(0, 4).unwrap();
    assert!(pretty.contains('\n'));
}

#[test]
fn empty_element_produces_empty_object() {
    let node = elem("root", vec![]);
    let json = node.to_json().unwrap();
    assert_eq!(json, "{}");
}

#[test]
fn control_chars_are_escaped_as_unicode() {
    let node = XmlNode::Text("\x01\x1F".to_string());
    let json = node.to_json().unwrap();
    assert!(json.contains("\\u0001"), "got: {}", json);
    assert!(json.contains("\\u001F"), "got: {}", json);
}

#[test]
fn tab_newline_carriage_use_short_escapes() {
    let node = XmlNode::Text("\t\n\r".to_string());
    let json = node.to_json().unwrap();
    assert!(json.contains("\\t"));
    assert!(json.contains("\\n"));
    assert!(json.contains("\\r"));
    assert!(!json.contains("\\u0009"));
    assert!(!json.contains("\\u000A"));
    assert!(!json.contains("\\u000D"));
}

#[test]
fn xml_model_exceeds_max_depth_returns_error() {
    let mut node = XmlNode::Element {
        name: "a".to_string(),
        attributes: vec![],
        children: vec![],
    };
    for _ in 0..(MAX_DEPTH + 1) {
        node = XmlNode::Element {
            name: "a".to_string(),
            attributes: vec![],
            children: vec![node],
        };
    }
    assert!(node.to_json().is_err());
}
