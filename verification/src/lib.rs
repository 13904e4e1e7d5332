//! Conversion between XML and JSON documents, with well-formedness checks
//! for both formats and the command-line option parsing of the converter.
//!
//! `round_trip`, `json_readback`, `xml_readback`, `json_validity`,
//! `xml_validity`, `json_nesting`, `json_grammar`, `json_acceptance`,
//! `json_rfc`, `json_structure` and `xml_layout` hold what is proved of the
//! conversions and checks together: what one side writes, the other reads
//! back and the checks accept; what the nesting limits allow; which token
//! sequences the JSON reader accepts, and that the JSON check accepts every
//! document the reader accepts and every JSON text of RFC 8259; what the
//! JSON check guarantees of the text it accepts; and that indentation
//! changes the layout of the XML only.

pub mod json_to_xml;
pub mod json_validation;
pub mod params;
pub mod text;
pub mod xml_to_json;
pub mod xml_validation;

pub mod json_acceptance;
pub mod json_grammar;
pub mod json_nesting;
pub mod json_readback;
pub mod json_rfc;
pub mod json_structure;
pub mod json_validity;
pub mod round_trip;
pub mod xml_layout;
pub mod xml_readback;
pub mod xml_validity;
