//! JSON to XML: lexing, parsing and printing a JSON document as XML.

pub mod json_lexer;
pub mod json_model;
pub mod json_parser;

use vstd::prelude::*;
use crate::json_to_xml::json_lexer::{Lexer, json_tokens};
use crate::json_to_xml::json_model::{JsonValue, xml_of};
use crate::json_to_xml::json_parser::{Parser, parse_document};
use crate::text::{chars_to_string, push_str};

verus! {

/// The XML declaration that starts every converted document.
pub open spec fn xml_declaration() -> Seq<char> {
    "<?xml version=\"1.0\" encoding=\"UTF-8\"?>"@
}

/// The XML document for the JSON value `v`: the value becomes element
/// `root`; in pretty mode the declaration stands on its own line and each
/// level is indented by four spaces.
pub open spec fn xml_document_of(v: JsonValue, pretty: bool) -> Result<Seq<char>, Seq<char>> {
    match xml_of(v, "root"@, 0, if pretty { Some(4nat) } else { None }) {
        None => Err("Nesting depth limit exceeded"@),
        Some(x) => Ok(
            xml_declaration() + (if pretty {
                seq!['\n']
            } else {
                Seq::empty()
            }) + x,
        ),
    }
}

/// The XML document for the JSON text `s` (see [`xml_document_of`]), or the
/// message of the first error.
pub open spec fn json_to_xml(s: Seq<char>, pretty: bool) -> Result<Seq<char>, Seq<char>> {
    match json_tokens(s) {
        Err(m) => Err(m),
        Ok(ts) => match parse_document(ts, 0) {
            Err(m) => Err(m),
            Ok(v) => xml_document_of(v, pretty),
        },
    }
}

/// Converts a JSON document to XML (see [`json_to_xml`]).
pub fn convert(json: &str, pretty: bool) -> (r: Result<String, String>)
    requires
        json@.len() < usize::MAX,
    ensures
        match json_to_xml(json@, pretty) {
            Ok(x) => r matches Ok(s) && s@ == x,
            Err(m) => r matches Err(e) && e@ == m,
        },
        r matches Ok(s) ==> s@.take(xml_declaration().len() as int) == xml_declaration(),
{
    let mut lexer = Lexer::new(json);
    let tokens = match lexer.tokenize() {
        Ok(t) => t,
        Err(e) => {
            return Err(e);
        },
    };
    let root_node = match Parser::new(tokens).parse() {
        Ok(n) => n,
        Err(e) => {
            return Err(e);
        },
    };
    let body = if pretty {
        root_node.to_pretty_xml(4)
    } else {
        root_node.to_xml()
    };
    match body {
        Ok(x) => {
            let mut out: Vec<char> = Vec::new();
            push_str(&mut out, "<?xml version=\"1.0\" encoding=\"UTF-8\"?>");
            if pretty {
                out.push('\n');
            }
            push_str(&mut out, x.as_str());
            assert(out@.take(xml_declaration().len() as int) =~= xml_declaration());
            Ok(chars_to_string(&out))
        },
        Err(e) => Err(e),
    }
}

} // verus!
