# xml_json_converter

Conversion between XML and JSON documents, verified with Verus.

- `src/json_to_xml`: JSON lexer, recursive-descent parser and XML printer.
- `src/xml_to_json`: XML lexer (entities, CDATA, comments, DOCTYPE),
  tree builder and JSON printer.
- `src/json_validation.rs`, `src/xml_validation.rs`: well-formedness checks
  with line and column in their messages.
- `src/params.rs`: the command-line options.
- `src/text.rs`: character-level helpers shared by the modules.
- `src/round_trip.rs`, `src/json_readback.rs`, `src/xml_readback.rs`,
  `src/json_validity.rs`, `src/xml_validity.rs`: what is proved of the two
  directions together. The JSON that the XML side writes is read back by
  the JSON side and passes the JSON check; the XML that the JSON side
  writes is read back by the XML side and passes the XML check.
- `src/json_nesting.rs`: the nesting limits of the JSON reader and of the
  XML writer; every JSON document the reader accepts converts to XML.
- `src/json_grammar.rs`: the JSON reader accepts exactly the token
  sequences of JSON values that nest within its limit.
- `src/json_acceptance.rs`: every JSON document the converter reads passes
  the JSON check.
- `src/json_rfc.rs`: the grammar of RFC 8259, white space included; the
  JSON check accepts every text it describes.
- `src/json_structure.rs`: what the JSON check guarantees of the text it
  accepts (balanced brackets, closed strings, no empty list slot, only
  accepted bare literals).
- `src/xml_layout.rs`: indented XML differs from compact XML in layout
  only.
- `app/main.rs`: the command-line program (file reading and writing).

The functions of the library state what they return in their `ensures`,
over specification functions that define the formats. Where the standard
library decides (`Path::extension` on a path with directories, which
characters outside ASCII are alphanumeric or numeric), the contract says
what holds on every platform; the Unicode classes outside ASCII are
named results.
