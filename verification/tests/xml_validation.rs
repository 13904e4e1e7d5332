use xml_json_converter::xml_validation::validate;

#[test]
fn valid_simple_xml() {
    assert!(validate("<root><child>text</child></root>").is_ok());
}

#[test]
fn valid_with_declaration() {
    assert!(validate("<?xml version=\"1.0\"?><root/>").is_ok());
}

#[test]
fn valid_self_closing_child() {
    assert!(validate("<root><br/></root>").is_ok());
}

#[test]
fn valid_comment_inside() {
    assert!(validate("<root><!-- comment --><child/></root>").is_ok());
}

#[test]
fn unclosed_comment_inside_root_fails() {
    assert!(validate("<root><!-- unclosed</root>").is_err());
}

#[test]
fn unclosed_comment_after_root_fails() {
    assert!(validate("<root><child/></root><!-- unclosed").is_err());
}

#[test]
fn valid_with_attributes() {
    assert!(validate("<root id=\"1\"><child name=\"x\"/></root>").is_ok());
}

#[test]
fn empty_document_fails() {
    assert!(validate("").is_err());
}

#[test]
fn unclosed_tag_fails() {
    assert!(validate("<root><child></root>").is_err());
}

#[test]
fn mismatched_closing_tag_fails() {
    assert!(validate("<root><a></b></root>").is_err());
}

#[test]
fn unexpected_closing_tag_fails() {
    assert!(validate("</root>").is_err());
}

#[test]
fn multiple_root_elements_fail() {
    assert!(validate("<a/><b/>").is_err());
}

#[test]
fn tag_not_closed_at_eof_fails() {
    assert!(validate("<root><child>text</child>").is_err());
}

#[test]
fn valid_with_doctype() {
    assert!(validate("<!DOCTYPE root><root/>").is_ok());
}

#[test]
fn valid_doctype_before_content() {
    assert!(validate("<!DOCTYPE root><root><child>text</child></root>").is_ok());
}

#[test]
fn xml_validation_greater_than_in_double_quoted_attr_is_valid() {
    assert!(validate("<root attr=\"1>0\"/>").is_ok());
}

#[test]
fn xml_validation_greater_than_in_single_quoted_attr_is_valid() {
    assert!(validate("<root attr='1>0'/>").is_ok());
}

#[test]
fn xml_validation_greater_than_in_attr_with_children_is_valid() {
    assert!(validate("<root><item href=\"a>b\"/></root>").is_ok());
}

#[test]
fn multiple_attrs_with_greater_than_is_valid() {
    assert!(validate("<root x=\"1>2\" y=\"3>4\"/>").is_ok());
}

#[test]
fn processing_instruction_with_gt_inside_is_valid() {
    // '>' inside a PI must not terminate it; only '?>' does
    assert!(validate("<?pi foo=\"1>2\"?><root/>").is_ok());
}

#[test]
fn unclosed_processing_instruction_fails() {
    assert!(validate("<?unclosed <root/>").is_err());
}

#[test]
fn processing_instruction_at_eof_fails() {
    assert!(validate("<?xml version=\"1.0\"").is_err());
}
