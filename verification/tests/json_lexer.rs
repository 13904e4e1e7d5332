use xml_json_converter::json_to_xml::json_lexer::Lexer;
use xml_json_converter::json_to_xml::json_model::Token;

#[test]
fn multibyte_char_after_digit_does_not_panic() {
    // "1€" — '€' is 3 bytes; the slice must not cut it in the middle.
    // The literal is invalid JSON, but the error must be a clean message, not a panic.
    let result = Lexer::new("1€").tokenize();
    assert!(result.is_err());
}

#[test]
fn valid_integer_literal() {
    let tokens = Lexer::new("42").tokenize().unwrap();
    assert_eq!(tokens, vec![Token::Number("42".to_string())]);
}

#[test]
fn valid_bool_true() {
    let tokens = Lexer::new("true").tokenize().unwrap();
    assert_eq!(tokens, vec![Token::BoolVal(true)]);
}

#[test]
fn valid_null_literal() {
    let tokens = Lexer::new("null").tokenize().unwrap();
    assert_eq!(tokens, vec![Token::Null]);
}

#[test]
fn surrogate_pair_emoji_decoded() {
    // 😀 → 😀 (U+1F600)
    let tokens = Lexer::new("\"\\uD83D\\uDE00\"").tokenize().unwrap();
    assert_eq!(tokens, vec![Token::StringVal("😀".to_string())]);
}

#[test]
fn surrogate_pair_linear_b_decoded() {
    // 𐀀 → 𐀀 (U+10000, first supplementary character)
    let tokens = Lexer::new("\"\\uD800\\uDC00\"").tokenize().unwrap();
    assert_eq!(tokens, vec![Token::StringVal("\u{10000}".to_string())]);
}

#[test]
fn lone_high_surrogate_returns_error() {
    assert!(Lexer::new("\"\\uD800\"").tokenize().is_err());
}

#[test]
fn lone_low_surrogate_returns_error() {
    assert!(Lexer::new("\"\\uDC00\"").tokenize().is_err());
}

#[test]
fn high_surrogate_followed_by_non_surrogate_u_returns_error() {
    // \uD800A — second escape is not a low surrogate
    assert!(Lexer::new("\"\\uD800\\u0041\"").tokenize().is_err());
}
