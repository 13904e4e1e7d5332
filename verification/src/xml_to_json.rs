//! XML to JSON: lexing, parsing and printing an XML document as JSON.

pub mod xml_lexer;
pub mod xml_model;
pub mod xml_parser;

use vstd::prelude::*;
use crate::text::{chars_to_string, push_chars, push_spaces, push_str, slice_chars, spaces, str_to_chars};
use crate::xml_to_json::xml_lexer::{Lexer, xml_tokens};
use crate::xml_to_json::xml_model::{MAX_DEPTH, XmlNode, XmlValue, json_of, lemma_json_of_limit};
use crate::xml_to_json::xml_parser::{Parser, element_name, xml_document};

verus! {

/// `s` without a leading byte order mark.
pub open spec fn strip_bom(s: Seq<char>) -> Seq<char> {
    if s.len() > 0 && s[0] == '\u{FEFF}' {
        s.drop_first()
    } else {
        s
    }
}

/// The JSON document for the root element `root`: an object with one
/// member, named after the root. With `indent > 0` it is indented by
/// `indent` spaces per level; with 0 it is compact. Either way the nesting
/// limit counts the levels below the root.
pub open spec fn json_document(root: XmlValue, indent: nat) -> Result<Seq<char>, Seq<char>> {
    let name = element_name(root);
    if indent > 0 {
        match json_of(root, 1, 1, Some(indent)) {
            None => Err("Nesting depth limit exceeded"@),
            Some(j) => Ok(
                seq!['{', '\n'] + spaces(indent) + seq!['"'] + name + seq!['"', ':', ' '] + j + seq![
                    '\n',
                    '}',
                ],
            ),
        }
    } else {
        match json_of(root, 0, 0, None) {
            None => Err("Nesting depth limit exceeded"@),
            Some(j) => Ok(seq!['{', ' ', '"'] + name + seq!['"', ':', ' '] + j + seq![' ', '}']),
        }
    }
}

/// The JSON document for the XML text `s` (see [`json_document`]), or the
/// message of the first error.
pub open spec fn xml_to_json(s: Seq<char>, indent: nat) -> Result<Seq<char>, Seq<char>> {
    match xml_tokens(strip_bom(s)) {
        Err(m) => Err(m),
        Ok(ts) => match xml_document(ts, 0) {
            Err(m) => Err(m),
            Ok(root) => json_document(root, indent),
        },
    }
}

/// The indentation controls the layout only: the conversion succeeds with
/// any indentation exactly when it succeeds compact, and fails with the same
/// message.
pub proof fn lemma_indent_keeps_outcome(s: Seq<char>, indent: nat)
    ensures
        (xml_to_json(s, indent) is Ok) == (xml_to_json(s, 0) is Ok),
        xml_to_json(s, indent) is Err ==> xml_to_json(s, indent) == xml_to_json(s, 0),
{
    if let Ok(ts) = xml_tokens(strip_bom(s)) {
        if let Ok(root) = xml_document(ts, 0) {
            lemma_json_of_limit(root, 1, 1, Some(indent), 0, 0, None);
        }
    }
}

/// A byte order mark in front of the document changes nothing: the text
/// with one leading mark converts as the text without it (when the text
/// does not itself start with a mark).
pub proof fn lemma_byte_order_mark_ignored(s: Seq<char>, indent: nat)
    requires
        !(s.len() > 0 && s[0] == '\u{FEFF}'),
    ensures
        xml_to_json(seq!['\u{FEFF}'] + s, indent) == xml_to_json(s, indent),
{
    assert(strip_bom(seq!['\u{FEFF}'] + s) =~= s);
}

/// Converts an XML document to JSON (see [`xml_to_json`]). `indent` is 0 for
/// compact output, else the number of spaces per level.
pub fn convert(xml: &str, indent: usize) -> (r: Result<String, String>)
    requires
        xml@.len() < usize::MAX,
        indent * (MAX_DEPTH + 2) <= usize::MAX,
    ensures
        match xml_to_json(xml@, indent as nat) {
            Ok(j) => r matches Ok(s) && s@ == j,
            Err(m) => r matches Err(e) && e@ == m,
        },
{
    let all = str_to_chars(xml);
    let text = if all.len() > 0 && all[0] == '\u{FEFF}' {
        slice_chars(&all, 1, all.len())
    } else {
        all
    };
    assert(text@ =~= strip_bom(xml@));
    let mut lexer = Lexer::from_chars(text);
    let tokens = match lexer.tokenize() {
        Ok(t) => t,
        Err(e) => {
            return Err(e);
        },
    };
    let root_node = match Parser::new(tokens).parse() {
        Ok(n) => n,
        Err(e) => {
            return Err(e);
        },
    };
    let name = match &root_node {
        XmlNode::Element { name, .. } => str_to_chars(name.as_str()),
        XmlNode::Text(_) => Vec::new(),
    };
    assert(name@ == element_name(root_node@));
    let mut out: Vec<char> = Vec::new();
    if indent > 0 {
        let body = match root_node.to_pretty_json_at(1, indent) {
            Ok(j) => j,
            Err(e) => {
                return Err(e);
            },
        };
        out.push('{');
        out.push('\n');
        push_spaces(&mut out, indent);
        out.push('"');
        push_chars(&mut out, &name);
        out.push('"');
        out.push(':');
        out.push(' ');
        push_str(&mut out, body.as_str());
        out.push('\n');
        out.push('}');
    } else {
        let body = match root_node.to_json() {
            Ok(j) => j,
            Err(e) => {
                return Err(e);
            },
        };
        out.push('{');
        out.push(' ');
        out.push('"');
        push_chars(&mut out, &name);
        out.push('"');
        out.push(':');
        out.push(' ');
        push_str(&mut out, body.as_str());
        out.push(' ');
        out.push('}');
    }
    assert(out@ =~= xml_to_json(xml@, indent as nat)->Ok_0);
    Ok(chars_to_string(&out))
}

} // verus!
