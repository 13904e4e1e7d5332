//! The JSON token and tree types, and the printing of a tree as XML.

use vstd::prelude::*;
use crate::text::{chars_eq, chars_to_string, decimal, digit_char, push_chars, push_decimal, push_spaces, push_str, spaces, str_to_chars};

verus! {

/// Nesting limit of JSON values, both when parsing and when printing.
pub const MAX_DEPTH: usize = 512;

/// A JSON token.
#[derive(Debug, PartialEq, Eq)]
pub enum Token {
    BraceOpen,
    BraceClose,
    BracketOpen,
    BracketClose,
    Colon,
    Comma,
    StringVal(String),
    Number(String),
    BoolVal(bool),
    Null,
}

/// The mathematical form of a [`Token`].
pub enum TokenView {
    BraceOpen,
    BraceClose,
    BracketOpen,
    BracketClose,
    Colon,
    Comma,
    StringVal(Seq<char>),
    Number(Seq<char>),
    BoolVal(bool),
    Null,
}

impl View for Token {
    type V = TokenView;

    open spec fn view(&self) -> TokenView {
        match self {
            Token::BraceOpen => TokenView::BraceOpen,
            Token::BraceClose => TokenView::BraceClose,
            Token::BracketOpen => TokenView::BracketOpen,
            Token::BracketClose => TokenView::BracketClose,
            Token::Colon => TokenView::Colon,
            Token::Comma => TokenView::Comma,
            Token::StringVal(s) => TokenView::StringVal(s@),
            Token::Number(s) => TokenView::Number(s@),
            Token::BoolVal(b) => TokenView::BoolVal(*b),
            Token::Null => TokenView::Null,
        }
    }
}

/// The views of a sequence of tokens.
pub open spec fn tokens_view(ts: Seq<Token>) -> Seq<TokenView> {
    ts.map_values(|t: Token| t@)
}

/// A JSON value. Object members keep their order and duplicates.
#[derive(Debug)]
pub enum JsonNode {
    Object(Vec<(String, JsonNode)>),
    Array(Vec<JsonNode>),
    StringVal(String),
    Number(String),
    BoolVal(bool),
    Null,
}

/// The mathematical form of a [`JsonNode`].
pub enum JsonValue {
    Object(Seq<(Seq<char>, JsonValue)>),
    Array(Seq<JsonValue>),
    StringVal(Seq<char>),
    Number(Seq<char>),
    BoolVal(bool),
    Null,
}

/// The mathematical form of a [`JsonNode`].
pub open spec fn json_value(n: JsonNode) -> JsonValue
    decreases n,
{
    match n {
        JsonNode::Object(p) => JsonValue::Object(
            Seq::new(
                p@.len(),
                |i: int|
                    if 0 <= i < p@.len() {
                        (p@[i].0@, json_value(p@[i].1))
                    } else {
                        (Seq::empty(), JsonValue::Null)
                    },
            ),
        ),
        JsonNode::Array(e) => JsonValue::Array(
            Seq::new(
                e@.len(),
                |i: int|
                    if 0 <= i < e@.len() {
                        json_value(e@[i])
                    } else {
                        JsonValue::Null
                    },
            ),
        ),
        JsonNode::StringVal(s) => JsonValue::StringVal(s@),
        JsonNode::Number(s) => JsonValue::Number(s@),
        JsonNode::BoolVal(b) => JsonValue::BoolVal(b),
        JsonNode::Null => JsonValue::Null,
    }
}

impl View for JsonNode {
    type V = JsonValue;

    open spec fn view(&self) -> JsonValue {
        json_value(*self)
    }
}

/// The views of the members of an object.
pub open spec fn members_view(p: Seq<(String, JsonNode)>) -> Seq<(Seq<char>, JsonValue)> {
    Seq::new(p.len(), |i: int| (p[i].0@, json_value(p[i].1)))
}

/// The views of the elements of an array.
pub open spec fn elements_view(e: Seq<JsonNode>) -> Seq<JsonValue> {
    Seq::new(e.len(), |i: int| json_value(e[i]))
}

pub proof fn lemma_object_view(p: Vec<(String, JsonNode)>)
    ensures
        json_value(JsonNode::Object(p)) == JsonValue::Object(members_view(p@)),
{
    assert(json_value(JsonNode::Object(p))->Object_0 =~= members_view(p@));
}

pub proof fn lemma_array_view(e: Vec<JsonNode>)
    ensures
        json_value(JsonNode::Array(e)) == JsonValue::Array(elements_view(e@)),
{
    assert(json_value(JsonNode::Array(e))->Array_0 =~= elements_view(e@));
}

// ---------------------------------------------------------------------------
// Tag names
// ---------------------------------------------------------------------------

/// Whether the non-ASCII character `c` is alphabetic or numeric in Unicode
/// (`char::is_alphanumeric`).
pub uninterp spec fn char_is_alphanumeric(c: char) -> bool;

/// Whether the non-ASCII character `c` is numeric in Unicode
/// (`char::is_numeric`).
pub uninterp spec fn char_is_numeric(c: char) -> bool;

/// An ASCII digit, `0` to `9`.
pub open spec fn ascii_digit(c: char) -> bool {
    48 <= (c as u32) && (c as u32) <= 57
}

/// An ASCII letter or digit.
pub open spec fn ascii_alphanumeric(c: char) -> bool {
    ||| ascii_digit(c)
    ||| 65 <= (c as u32) && (c as u32) <= 90
    ||| 97 <= (c as u32) && (c as u32) <= 122
}

/// `char::is_alphanumeric`: an ASCII letter or digit in ASCII; outside
/// ASCII, what Unicode tables say (`char_is_alphanumeric`).
pub open spec fn alphanumeric(c: char) -> bool {
    if (c as u32) < 128 {
        ascii_alphanumeric(c)
    } else {
        char_is_alphanumeric(c)
    }
}

/// `char::is_numeric`: an ASCII digit in ASCII; outside ASCII, what Unicode
/// tables say (`char_is_numeric`).
pub open spec fn numeric(c: char) -> bool {
    if (c as u32) < 128 {
        ascii_digit(c)
    } else {
        char_is_numeric(c)
    }
}

/// `char::is_alphanumeric`: whether `c` has the Unicode `Alphabetic`
/// property or a numeric general category. In ASCII these are exactly the
/// letters and digits (std matches `'a'..='z' | 'A'..='Z'` and `'0'..='9'`
/// before it looks at any table); outside ASCII the answer comes from
/// Unicode tables and is left to the name `char_is_alphanumeric`.
#[verifier::external_body]
fn is_alphanumeric(c: char) -> (r: bool)
    ensures
        (c as u32) < 128 ==> r == ascii_alphanumeric(c),
        (c as u32) >= 128 ==> r == char_is_alphanumeric(c),
{
    c.is_alphanumeric()
}

/// `char::is_numeric`: whether `c` is in a numeric general category
/// (`Nd`, `Nl` or `No`). In ASCII these are exactly the digits `0` to `9`;
/// outside ASCII the answer comes from Unicode tables and is left to the
/// name `char_is_numeric`.
#[verifier::external_body]
fn is_numeric(c: char) -> (r: bool)
    ensures
        (c as u32) < 128 ==> r == ascii_digit(c),
        (c as u32) >= 128 ==> r == char_is_numeric(c),
{
    c.is_numeric()
}

/// A character that may stand in an XML tag name as written here.
pub open spec fn tag_char_ok(c: char) -> bool {
    alphanumeric(c) || c == '_' || c == '-' || c == '.' || c == ':'
}

/// The tag name made from `name`: `_` for an empty name; otherwise every
/// character that may not stand in a tag becomes `_`, and `_` goes in front
/// when the name would start with a digit, `-` or `.`.
pub open spec fn sanitize_tag(name: Seq<char>) -> Seq<char> {
    if name.len() == 0 {
        seq!['_']
    } else {
        let t = Seq::new(name.len(), |i: int| if tag_char_ok(name[i]) { name[i] } else { '_' });
        if numeric(t[0]) || t[0] == '-' || t[0] == '.' {
            seq!['_'] + t
        } else {
            t
        }
    }
}

/// Whether `c` is kept in a tag name, where `alnum` tells whether it is
/// alphanumeric.
pub open spec fn kept_char(c: char, alnum: bool) -> bool {
    alnum || c == '_' || c == '-' || c == '.' || c == ':'
}

/// `name` with every character that is not kept replaced by `_`, where
/// `alnum[i]` tells whether `name[i]` is alphanumeric.
pub open spec fn replaced_chars(name: Seq<char>, alnum: Seq<bool>) -> Seq<char> {
    Seq::new(name.len(), |i: int| if kept_char(name[i], alnum[i]) { name[i] } else { '_' })
}

/// The tag name made from `name`, where `alnum[i]` tells whether `name[i]`
/// is alphanumeric and `lead_numeric` whether the first character after
/// replacement is numeric: `_` for an empty name; otherwise the replaced
/// name, with `_` in front when it starts with a numeric character, `-` or
/// `.`.
pub open spec fn tag_from_classes(name: Seq<char>, alnum: Seq<bool>, lead_numeric: bool) -> Seq<char> {
    if name.len() == 0 {
        seq!['_']
    } else {
        let t = replaced_chars(name, alnum);
        if lead_numeric || t[0] == '-' || t[0] == '.' {
            seq!['_'] + t
        } else {
            t
        }
    }
}

/// The tag name made from `name` (see [`tag_from_classes`]), given for each
/// character whether it is alphanumeric (`alnum`) and whether the first
/// character after replacement is numeric (`lead_numeric`).
pub fn sanitize_classified(name: &[char], alnum: &[bool], lead_numeric: bool) -> (r: Vec<char>)
    requires
        alnum@.len() == name@.len(),
    ensures
        r@ == tag_from_classes(name@, alnum@, lead_numeric),
{
    if name.len() == 0 {
        let mut r: Vec<char> = Vec::new();
        r.push('_');
        assert(r@ =~= seq!['_']);
        return r;
    }
    let ghost t = replaced_chars(name@, alnum@);
    let mut body: Vec<char> = Vec::new();
    let mut i: usize = 0;
    while i < name.len()
        invariant
            i <= name.len(),
            alnum@.len() == name@.len(),
            t == replaced_chars(name@, alnum@),
            body@ == t.take(i as int),
        decreases name.len() - i,
    {
        let c = name[i];
        if alnum[i] || c == '_' || c == '-' || c == '.' || c == ':' {
            body.push(c);
        } else {
            body.push('_');
        }
        i = i + 1;
        assert(body@ =~= t.take(i as int));
    }
    assert(body@ =~= t);
    let first = body[0];
    if lead_numeric || first == '-' || first == '.' {
        let mut r: Vec<char> = Vec::new();
        r.push('_');
        push_chars(&mut r, &body);
        assert(r@ =~= seq!['_'] + t);
        r
    } else {
        body
    }
}

/// The tag name made from `name` (see [`sanitize_tag`]).
pub fn sanitize_tag_name(name: &[char]) -> (r: Vec<char>)
    ensures
        r@ == sanitize_tag(name@),
{
    let mut alnum: Vec<bool> = Vec::new();
    let mut i: usize = 0;
    while i < name.len()
        invariant
            i <= name.len(),
            alnum@.len() == i,
            forall|j: int| 0 <= j < i ==> alnum@[j] == alphanumeric(#[trigger] name@[j]),
        decreases name.len() - i,
    {
        let a = is_alphanumeric(name[i]);
        alnum.push(a);
        i = i + 1;
    }
    let lead_numeric = if name.len() > 0 {
        let c = name[0];
        let first = if alnum[0] || c == '_' || c == '-' || c == '.' || c == ':' {
            c
        } else {
            '_'
        };
        is_numeric(first)
    } else {
        false
    };
    let r = sanitize_classified(name, &alnum, lead_numeric);
    proof {
        if name@.len() > 0 {
            let t = Seq::new(name@.len(), |i: int| if tag_char_ok(name@[i]) { name@[i] } else { '_' });
            assert(replaced_chars(name@, alnum@) =~= t);
        }
    }
    r
}

// ---------------------------------------------------------------------------
// Text content
// ---------------------------------------------------------------------------

/// What the character at `i` of `s` becomes in XML text: `&` and `<` are
/// escaped, and so is a `>` that would end `]]>`.
pub open spec fn xml_text_piece(s: Seq<char>, i: int) -> Seq<char> {
    let c = s[i];
    if c == '&' {
        seq!['&', 'a', 'm', 'p', ';']
    } else if c == '<' {
        seq!['&', 'l', 't', ';']
    } else if c == '>' && i >= 2 && s[i - 1] == ']' && s[i - 2] == ']' {
        seq!['&', 'g', 't', ';']
    } else {
        seq![c]
    }
}

/// The XML text for the first `n` characters of `s`.
pub open spec fn escape_xml_prefix(s: Seq<char>, n: int) -> Seq<char>
    decreases n,
{
    if n <= 0 || n > s.len() {
        Seq::empty()
    } else {
        escape_xml_prefix(s, n - 1) + xml_text_piece(s, n - 1)
    }
}

/// `s` written as XML text content.
pub open spec fn escape_xml(s: Seq<char>) -> Seq<char> {
    escape_xml_prefix(s, s.len() as int)
}

/// Appends `s` written as XML text content (see [`escape_xml`]).
pub fn escape_xml_text(s: &[char], out: &mut Vec<char>)
    ensures
        final(out)@ == old(out)@ + escape_xml(s@),
{
    let ghost o0 = out@;
    let mut i: usize = 0;
    while i < s.len()
        invariant
            i <= s.len(),
            out@ == o0 + escape_xml_prefix(s@, i as int),
        decreases s.len() - i,
    {
        let c = s[i];
        let ghost before = out@;
        if c == '&' {
            out.push('&');
            out.push('a');
            out.push('m');
            out.push('p');
            out.push(';');
        } else if c == '<' {
            out.push('&');
            out.push('l');
            out.push('t');
            out.push(';');
        } else if c == '>' && i >= 2 && s[i - 1] == ']' && s[i - 2] == ']' {
            out.push('&');
            out.push('g');
            out.push('t');
            out.push(';');
        } else {
            out.push(c);
        }
        assert(out@ =~= before + xml_text_piece(s@, i as int));
        i = i + 1;
    }
}

// ---------------------------------------------------------------------------
// Printing a JSON value as XML
// ---------------------------------------------------------------------------

/// How many of the first `n` members have a key whose tag name is `base`.
pub open spec fn count_tag(pairs: Seq<(Seq<char>, JsonValue)>, base: Seq<char>, n: int) -> nat
    decreases n,
{
    if n <= 0 || n > pairs.len() {
        0
    } else {
        count_tag(pairs, base, n - 1) + if sanitize_tag(pairs[n - 1].0) == base {
            1nat
        } else {
            0nat
        }
    }
}

/// The tag of member `i`: its key's tag name, and `_k` after it when it is
/// the `k`-th member (`k > 1`) with that tag name.
pub open spec fn member_tag(pairs: Seq<(Seq<char>, JsonValue)>, i: int) -> Seq<char> {
    let base = sanitize_tag(pairs[i].0);
    let k = count_tag(pairs, base, i + 1);
    if k == 1 {
        base
    } else {
        base + seq!['_'] + decimal(k)
    }
}

/// The indentation of a value nested `depth` deep.
pub open spec fn xml_pad(depth: nat, indent: Option<nat>) -> Seq<char> {
    match indent {
        Some(sz) => spaces(depth * sz),
        None => Seq::empty(),
    }
}

/// The line break before a child, in pretty mode.
pub open spec fn xml_break(indent: Option<nat>) -> Seq<char> {
    if indent is Some {
        seq!['\n']
    } else {
        Seq::empty()
    }
}

/// An element `tag` with content `inner`, closing on its own line in pretty
/// mode.
pub open spec fn xml_wrap(pad: Seq<char>, tag: Seq<char>, inner: Seq<char>, indent: Option<nat>) -> Seq<char> {
    let close_pad = if indent is Some {
        seq!['\n'] + pad
    } else {
        Seq::empty()
    };
    pad + "<"@ + tag + ">"@ + inner + close_pad + "</"@ + tag + ">"@
}

/// The XML for value `v` as element `label`, nested `depth` deep; `indent`
/// is the indentation width in pretty mode. `None` when the nesting limit is
/// reached.
pub open spec fn xml_of(v: JsonValue, label: Seq<char>, depth: nat, indent: Option<nat>) -> Option<
    Seq<char>,
>
    decreases v, 0nat,
{
    if depth >= MAX_DEPTH {
        None
    } else {
        let tag = sanitize_tag(label);
        let pad = xml_pad(depth, indent);
        match v {
            JsonValue::Object(pairs) => match members_xml(pairs, pairs.len() as int, depth, indent) {
                Some(inner) => Some(xml_wrap(pad, tag, inner, indent)),
                None => None,
            },
            JsonValue::Array(els) => match elements_xml(
                els,
                els.len() as int,
                "item"@,
                depth,
                indent,
            ) {
                Some(inner) => Some(xml_wrap(pad, tag, inner, indent)),
                None => None,
            },
            JsonValue::StringVal(s) => Some(
                pad + "<"@ + tag + ">"@ + escape_xml(s) + "</"@ + tag + ">"@,
            ),
            JsonValue::Number(n) => Some(pad + "<"@ + tag + ">"@ + n + "</"@ + tag + ">"@),
            JsonValue::BoolVal(b) => Some(
                pad + "<"@ + tag + ">"@ + (if b {
                    "true"@
                } else {
                    "false"@
                }) + "</"@ + tag + ">"@,
            ),
            JsonValue::Null => Some(pad + "<"@ + tag + " />"@),
        }
    }
}

/// The XML for the first `n` members of an object nested `depth` deep: a
/// member whose value is an array gives one element per array element, all
/// named by the member's tag.
pub open spec fn members_xml(
    pairs: Seq<(Seq<char>, JsonValue)>,
    n: int,
    depth: nat,
    indent: Option<nat>,
) -> Option<Seq<char>>
    decreases pairs, n,
{
    if n <= 0 || n > pairs.len() {
        Some(Seq::empty())
    } else {
        match members_xml(pairs, n - 1, depth, indent) {
            None => None,
            Some(prev) => {
                let tag = member_tag(pairs, n - 1);
                let piece = match pairs[n - 1].1 {
                    JsonValue::Array(els) => elements_xml(els, els.len() as int, tag, depth, indent),
                    _ => match xml_of(pairs[n - 1].1, tag, depth + 1, indent) {
                        Some(x) => Some(xml_break(indent) + x),
                        None => None,
                    },
                };
                match piece {
                    Some(x) => Some(prev + x),
                    None => None,
                }
            },
        }
    }
}

/// The XML for the first `n` elements of a sequence, each as element `tag`,
/// one level below `depth`.
pub open spec fn elements_xml(
    els: Seq<JsonValue>,
    n: int,
    tag: Seq<char>,
    depth: nat,
    indent: Option<nat>,
) -> Option<Seq<char>>
    decreases els, n,
{
    if n <= 0 || n > els.len() {
        Some(Seq::empty())
    } else {
        match elements_xml(els, n - 1, tag, depth, indent) {
            None => None,
            Some(prev) => match xml_of(els[n - 1], tag, depth + 1, indent) {
                Some(x) => Some(prev + xml_break(indent) + x),
                None => None,
            },
        }
    }
}

pub proof fn lemma_members_xml_none(
    pairs: Seq<(Seq<char>, JsonValue)>,
    k: int,
    n: int,
    depth: nat,
    indent: Option<nat>,
)
    requires
        0 <= k <= n <= pairs.len(),
        members_xml(pairs, k, depth, indent) is None,
    ensures
        members_xml(pairs, n, depth, indent) is None,
    decreases n - k,
{
    if k < n {
        lemma_members_xml_none(pairs, k, n - 1, depth, indent);
    }
}

pub proof fn lemma_elements_xml_none(
    els: Seq<JsonValue>,
    k: int,
    n: int,
    tag: Seq<char>,
    depth: nat,
    indent: Option<nat>,
)
    requires
        0 <= k <= n <= els.len(),
        elements_xml(els, k, tag, depth, indent) is None,
    ensures
        elements_xml(els, n, tag, depth, indent) is None,
    decreases n - k,
{
    if k < n {
        lemma_elements_xml_none(els, k, n - 1, tag, depth, indent);
    }
}

proof fn lemma_count_tag_bound(pairs: Seq<(Seq<char>, JsonValue)>, base: Seq<char>, n: int)
    requires
        0 <= n <= pairs.len(),
    ensures
        count_tag(pairs, base, n) <= n,
    decreases n,
{
    if n > 0 {
        lemma_count_tag_bound(pairs, base, n - 1);
    }
}

/// The indentation width as a number, in pretty mode.
pub open spec fn indent_width(indent: Option<usize>) -> Option<nat> {
    match indent {
        Some(sz) => Some(sz as nat),
        None => None,
    }
}

/// The index of `name` in `names`, if it is there.
fn find_name(names: &Vec<Vec<char>>, name: &[char]) -> (r: Option<usize>)
    ensures
        r matches Some(i) ==> i < names@.len() && names@[i as int]@ == name@,
        r is None ==> forall|i: int| 0 <= i < names@.len() ==> names@[i]@ != name@,
{
    let mut i: usize = 0;
    while i < names.len()
        invariant
            i <= names@.len(),
            forall|j: int| 0 <= j < i ==> names@[j]@ != name@,
        decreases names.len() - i,
    {
        if chars_eq(&names[i], name) {
            return Some(i);
        }
        i = i + 1;
    }
    None
}

fn push_line_break(indent: Option<usize>, out: &mut Vec<char>)
    ensures
        final(out)@ == old(out)@ + xml_break(indent_width(indent)),
{
    if indent.is_some() {
        out.push('\n');
    }
    assert(out@ =~= old(out)@ + xml_break(indent_width(indent)));
}

fn push_pad(depth: usize, indent: Option<usize>, out: &mut Vec<char>)
    requires
        depth <= MAX_DEPTH,
        indent matches Some(sz) ==> sz <= usize::MAX / MAX_DEPTH,
    ensures
        final(out)@ == old(out)@ + xml_pad(depth as nat, indent_width(indent)),
{
    match indent {
        Some(sz) => {
            assert(depth * sz <= MAX_DEPTH * (usize::MAX / MAX_DEPTH)) by (nonlinear_arith)
                requires
                    depth <= MAX_DEPTH,
                    sz <= usize::MAX / MAX_DEPTH,
            ;
            push_spaces(out, depth * sz);
        },
        None => {
            assert(out@ =~= old(out)@ + xml_pad(depth as nat, indent_width(indent)));
        },
    }
}

/// Appends `<tag>` (with its indentation) to `out`.
fn push_open_tag(pad_depth: usize, indent: Option<usize>, tag: &[char], out: &mut Vec<char>)
    requires
        pad_depth <= MAX_DEPTH,
        indent matches Some(sz) ==> sz <= usize::MAX / MAX_DEPTH,
    ensures
        final(out)@ == old(out)@ + xml_pad(pad_depth as nat, indent_width(indent)) + "<"@ + tag@
            + ">"@,
{
    let ghost o0 = out@;
    push_pad(pad_depth, indent, out);
    push_str(out, "<");
    push_chars(out, tag);
    push_str(out, ">");
    assert(out@ =~= o0 + xml_pad(pad_depth as nat, indent_width(indent)) + "<"@ + tag@ + ">"@);
}

/// Appends `</tag>` to `out`.
fn push_close_tag(tag: &[char], out: &mut Vec<char>)
    ensures
        final(out)@ == old(out)@ + "</"@ + tag@ + ">"@,
{
    let ghost o0 = out@;
    push_str(out, "</");
    push_chars(out, tag);
    push_str(out, ">");
    assert(out@ =~= o0 + "</"@ + tag@ + ">"@);
}

/// Appends the closing of an element whose content is done.
fn push_wrap_close(depth: usize, indent: Option<usize>, tag: &[char], out: &mut Vec<char>)
    requires
        depth <= MAX_DEPTH,
        indent matches Some(sz) ==> sz <= usize::MAX / MAX_DEPTH,
    ensures
        final(out)@ == old(out)@ + (if indent is Some {
            seq!['\n'] + xml_pad(depth as nat, indent_width(indent))
        } else {
            Seq::empty()
        }) + "</"@ + tag@ + ">"@,
{
    let ghost o0 = out@;
    if indent.is_some() {
        out.push('\n');
        push_pad(depth, indent, out);
    }
    push_close_tag(tag, out);
    assert(out@ =~= o0 + (if indent is Some {
        seq!['\n'] + xml_pad(depth as nat, indent_width(indent))
    } else {
        Seq::empty()
    }) + "</"@ + tag@ + ">"@);
}

/// Appends the XML of the elements `els`, each as element `tag` one level
/// below `depth`; false when the nesting limit is reached.
fn elements_into(
    els: &Vec<JsonNode>,
    tag: &[char],
    depth: usize,
    indent: Option<usize>,
    out: &mut Vec<char>,
) -> (ok: bool)
    requires
        depth < MAX_DEPTH,
        indent matches Some(sz) ==> sz <= usize::MAX / MAX_DEPTH,
    ensures
        ok == elements_xml(elements_view(els@), els@.len() as int, tag@, depth as nat, indent_width(indent)) is Some,
        ok ==> final(out)@ == old(out)@ + elements_xml(
            elements_view(els@),
            els@.len() as int,
            tag@,
            depth as nat,
            indent_width(indent),
        )->Some_0,
    decreases els, 0nat,
{
    let ghost ev = elements_view(els@);
    let ghost ind = indent_width(indent);
    let ghost o0 = out@;
    let mut j: usize = 0;
    while j < els.len()
        invariant
            j <= els@.len(),
            depth < MAX_DEPTH,
            indent matches Some(sz) ==> sz <= usize::MAX / MAX_DEPTH,
            ev == elements_view(els@),
            ind == indent_width(indent),
            elements_xml(ev, j as int, tag@, depth as nat, ind) is Some,
            out@ == o0 + elements_xml(ev, j as int, tag@, depth as nat, ind)->Some_0,
        decreases els@.len() - j,
    {
        push_line_break(indent, out);
        assert(ev[j as int] == els@[j as int]@);
        if !els[j].to_xml_into(tag, depth + 1, indent, out) {
            proof {
                lemma_elements_xml_none(ev, j + 1, els@.len() as int, tag@, depth as nat, ind);
            }
            return false;
        }
        j = j + 1;
    }
    true
}


/// `names` and `counts` tally the tag names of the first `k` members:
/// each distinct name once, with the number of members that bear it.
spec fn tally_of(names: Seq<Vec<char>>, counts: Seq<usize>, pv: Seq<(Seq<char>, JsonValue)>, k: int) -> bool {
    &&& names.len() == counts.len()
    &&& forall|i: int| 0 <= i < names.len() ==> counts[i] == count_tag(pv, #[trigger] names[i]@, k)
    &&& forall|b: Seq<char>| #[trigger] count_tag(pv, b, k) > 0 ==> exists|i: int| 0 <= i < names.len() && #[trigger] names[i]@ == b
    &&& forall|i: int, j: int| 0 <= i < j < names.len() ==> names[i]@ != names[j]@
}

/// Counts member `k`, whose tag name is `base`, into the tally; returns how
/// many of the first `k + 1` members bear that name.
fn count_member(
    names: &mut Vec<Vec<char>>,
    counts: &mut Vec<usize>,
    base: &Vec<char>,
    Ghost(pv): Ghost<Seq<(Seq<char>, JsonValue)>>,
    Ghost(k): Ghost<int>,
) -> (n: usize)
    requires
        0 <= k < pv.len(),
        pv.len() <= usize::MAX,
        base@ == sanitize_tag(pv[k].0),
        tally_of(old(names)@, old(counts)@, pv, k),
    ensures
        tally_of(final(names)@, final(counts)@, pv, k + 1),
        n == count_tag(pv, base@, k + 1),
{
    let ghost prev_names = names@;
    proof {
        lemma_count_tag_bound(pv, base@, k);
    }
    let n: usize = match find_name(names, base) {
        Some(i) => {
            let n = counts[i] + 1;
            counts.set(i, n);
            n
        },
        None => {
            names.push(base.clone());
            counts.push(1);
            1
        },
    };
    assert forall|i: int| 0 <= i < names@.len() implies counts@[i] == count_tag(pv, #[trigger] names@[i]@, k + 1) by {
        if i < prev_names.len() {
            assert(names@[i] == prev_names[i]);
        }
    }
    assert forall|b: Seq<char>| #[trigger] count_tag(pv, b, k + 1) > 0 implies exists|i: int| 0 <= i < names@.len() && #[trigger] names@[i]@ == b by {
        if b == base@ {
            if names@.len() > prev_names.len() {
                assert(names@[prev_names.len() as int]@ == b);
            }
        } else {
            assert(count_tag(pv, b, k) > 0);
            let i = choose|i: int| 0 <= i < prev_names.len() && #[trigger] prev_names[i]@ == b;
            assert(names@[i] == prev_names[i]);
        }
    }
    n
}


/// Appends the XML of the members `pairs` of an object nested `depth` deep;
/// false when the nesting limit is reached.
fn members_into(
    pairs: &Vec<(String, JsonNode)>,
    depth: usize,
    indent: Option<usize>,
    out: &mut Vec<char>,
) -> (ok: bool)
    requires
        depth < MAX_DEPTH,
        indent matches Some(sz) ==> sz <= usize::MAX / MAX_DEPTH,
    ensures
        ok == members_xml(members_view(pairs@), pairs@.len() as int, depth as nat, indent_width(indent)) is Some,
        ok ==> final(out)@ == old(out)@ + members_xml(
            members_view(pairs@),
            pairs@.len() as int,
            depth as nat,
            indent_width(indent),
        )->Some_0,
    decreases pairs, 0nat,
{
    let ghost ind = indent_width(indent);
    let ghost pv = members_view(pairs@);
    let ghost o1 = out@;
    let mut names: Vec<Vec<char>> = Vec::new();
    let mut counts: Vec<usize> = Vec::new();
    let mut k: usize = 0;
        while k < pairs.len()
            invariant
                k <= pairs@.len(),
                depth < MAX_DEPTH,
                indent matches Some(sz) ==> sz <= usize::MAX / MAX_DEPTH,
                pv == members_view(pairs@),
                ind == indent_width(indent),
                members_xml(pv, k as int, depth as nat, ind) is Some,
                out@ == o1 + members_xml(pv, k as int, depth as nat, ind)->Some_0,
                tally_of(names@, counts@, pv, k as int),
            decreases pairs@.len() - k,
        {
            let key = str_to_chars(pairs[k].0.as_str());
            let base = sanitize_tag_name(&key);
            assert(pv[k as int].0 == key@);
            let n = count_member(&mut names, &mut counts, &base, Ghost(pv), Ghost(k as int));
            let mut member_tag_v = base.clone();
            if n != 1 {
                member_tag_v.push('_');
                push_decimal(&mut member_tag_v, n);
            }
            assert(member_tag_v@ =~= member_tag(pv, k as int));
            let val = &pairs[k].1;
            assert(pv[k as int].1 == val@);
            match val {
                JsonNode::Array(els) => {
                    proof {
                        lemma_array_view(*els);
                    }
                    assert(decreases_to!(pairs => *els));
                    if !elements_into(els, &member_tag_v, depth, indent, out) {
                        proof {
                            lemma_members_xml_none(pv, k + 1, pairs@.len() as int, depth as nat, ind);
                        }
                        return false;
                    }
                    assert(out@ =~= o1 + members_xml(pv, k + 1, depth as nat, ind)->Some_0);
                },
                _ => {
                    push_line_break(indent, out);
                    if !val.to_xml_into(&member_tag_v, depth + 1, indent, out) {
                        proof {
                            lemma_members_xml_none(pv, k + 1, pairs@.len() as int, depth as nat, ind);
                        }
                        return false;
                    }
                    assert(out@ =~= o1 + members_xml(pv, k + 1, depth as nat, ind)->Some_0);
                },
            }
            k = k + 1;
        }
    true
}

impl JsonNode {
    /// The document as XML, with the top value as element `root`.
    pub fn to_xml(&self) -> (r: Result<String, String>)
        ensures
            match xml_of(self@, "root"@, 0, None) {
                Some(x) => r matches Ok(s) && s@ == x,
                None => r matches Err(e) && e@ == "Nesting depth limit exceeded"@,
            },
    {
        self.to_xml_string(None)
    }

    /// The document as indented XML, `indent_size` spaces per level, with
    /// the top value as element `root`.
    pub fn to_pretty_xml(&self, indent_size: usize) -> (r: Result<String, String>)
        requires
            indent_size <= usize::MAX / MAX_DEPTH,
        ensures
            match xml_of(self@, "root"@, 0, Some(indent_size as nat)) {
                Some(x) => r matches Ok(s) && s@ == x,
                None => r matches Err(e) && e@ == "Nesting depth limit exceeded"@,
            },
    {
        self.to_xml_string(Some(indent_size))
    }

    fn to_xml_string(&self, indent: Option<usize>) -> (r: Result<String, String>)
        requires
            indent matches Some(sz) ==> sz <= usize::MAX / MAX_DEPTH,
        ensures
            match xml_of(self@, "root"@, 0, indent_width(indent)) {
                Some(x) => r matches Ok(s) && s@ == x,
                None => r matches Err(e) && e@ == "Nesting depth limit exceeded"@,
            },
    {
        let label = str_to_chars("root");
        let mut out: Vec<char> = Vec::new();
        if self.to_xml_into(&label, 0, indent, &mut out) {
            assert(out@ =~= xml_of(self@, "root"@, 0, indent_width(indent))->Some_0);
            Ok(chars_to_string(&out))
        } else {
            let m = str_to_chars("Nesting depth limit exceeded");
            Err(chars_to_string(&m))
        }
    }

    /// Appends the XML of this value as element `label`, nested `depth`
    /// deep; false when the nesting limit is reached.
    #[verifier::rlimit(50)]
    fn to_xml_into(&self, label: &[char], depth: usize, indent: Option<usize>, out: &mut Vec<char>) -> (ok: bool)
        requires
            depth <= MAX_DEPTH,
            indent matches Some(sz) ==> sz <= usize::MAX / MAX_DEPTH,
        ensures
            ok == xml_of(self@, label@, depth as nat, indent_width(indent)) is Some,
            ok ==> final(out)@ == old(out)@ + xml_of(self@, label@, depth as nat, indent_width(indent))->Some_0,
        decreases self, 0nat,
    {
        if depth >= MAX_DEPTH {
            return false;
        }
        let ghost ind = indent_width(indent);
        let ghost o0 = out@;
        let tag = sanitize_tag_name(label);
        match self {
            JsonNode::Object(pairs) => {
                proof {
                    lemma_object_view(*pairs);
                }
                push_open_tag(depth, indent, &tag, out);
                if !members_into(pairs, depth, indent, out) {
                    return false;
                }
                push_wrap_close(depth, indent, &tag, out);
                assert(out@ =~= o0 + xml_of(self@, label@, depth as nat, ind)->Some_0);
                true
            },
            JsonNode::Array(els) => {
                proof {
                    lemma_array_view(*els);
                }
                push_open_tag(depth, indent, &tag, out);
                let item = str_to_chars("item");
                if !elements_into(els, &item, depth, indent, out) {
                    return false;
                }
                push_wrap_close(depth, indent, &tag, out);
                assert(out@ =~= o0 + xml_of(self@, label@, depth as nat, ind)->Some_0);
                true
            },
            _ => {
                self.scalar_into(label, &tag, depth, indent, out);
                true
            },
        }
    }

    /// Appends the XML of a string, number, boolean or null as element
    /// `label` (already sanitized into `tag`).
    #[verifier::spinoff_prover]
    #[verifier::rlimit(40)]
    fn scalar_into(&self, label: &[char], tag: &Vec<char>, depth: usize, indent: Option<usize>, out: &mut Vec<char>)
        requires
            depth < MAX_DEPTH,
            indent matches Some(sz) ==> sz <= usize::MAX / MAX_DEPTH,
            tag@ == sanitize_tag(label@),
            !(self is Object),
            !(self is Array),
        ensures
            xml_of(self@, label@, depth as nat, indent_width(indent)) is Some,
            final(out)@ == old(out)@ + xml_of(self@, label@, depth as nat, indent_width(indent))->Some_0,
    {
        let ghost ind = indent_width(indent);
        let ghost o0 = out@;
        match self {
            JsonNode::StringVal(s) => {
                push_open_tag(depth, indent, tag, out);
                let sc = str_to_chars(s.as_str());
                escape_xml_text(&sc, out);
                push_close_tag(tag, out);
                assert(out@ =~= o0 + xml_of(self@, label@, depth as nat, ind)->Some_0);
            },
            JsonNode::Number(n) => {
                push_open_tag(depth, indent, tag, out);
                push_str(out, n.as_str());
                push_close_tag(tag, out);
                assert(out@ =~= o0 + xml_of(self@, label@, depth as nat, ind)->Some_0);
            },
            JsonNode::BoolVal(b) => {
                push_open_tag(depth, indent, tag, out);
                if *b {
                    push_str(out, "true");
                } else {
                    push_str(out, "false");
                }
                push_close_tag(tag, out);
                assert(out@ =~= o0 + xml_of(self@, label@, depth as nat, ind)->Some_0);
            },
            JsonNode::Null => {
                push_pad(depth, indent, out);
                push_str(out, "<");
                push_chars(out, tag);
                push_str(out, " />");
                assert(out@ =~= o0 + xml_of(self@, label@, depth as nat, ind)->Some_0);
            },
            _ => {},
        }
    }
}

// ---------------------------------------------------------------------------
// Laws
// ---------------------------------------------------------------------------

/// `t` holds `]]>`, which may not stand in XML text content.
pub open spec fn has_cdata_end(t: Seq<char>) -> bool {
    exists|i: int| 0 <= i && i + 2 < t.len() && #[trigger] t[i] == ']' && t[i + 1] == ']' && t[i + 2] == '>'
}

proof fn lemma_escape_xml_prefix_shape(s: Seq<char>, n: int)
    requires
        0 <= n <= s.len(),
    ensures
        ({
            let t = escape_xml_prefix(s, n);
            &&& forall|k: int| 0 <= k < t.len() ==> t[k] != '<'
            &&& !has_cdata_end(t)
            &&& (t.len() > 0 && t.last() == ']') <==> (n >= 1 && s[n - 1] == ']')
            &&& (t.len() > 1 && t[t.len() - 1] == ']' && t[t.len() - 2] == ']') <==> (n >= 2 && s[n - 1] == ']' && s[n - 2] == ']')
        }),
    decreases n,
{
    if n > 0 {
        lemma_escape_xml_prefix_shape(s, n - 1);
        let prev = escape_xml_prefix(s, n - 1);
        let piece = xml_text_piece(s, n - 1);
        let t = escape_xml_prefix(s, n);
        assert(t == prev + piece);
        assert forall|k: int| 0 <= k < t.len() implies t[k] != '<' by {
            if k >= prev.len() {
                assert(t[k] == piece[k - prev.len()]);
            } else {
                assert(t[k] == prev[k]);
            }
        }
        assert(piece.len() >= 1);
        assert(t.last() == piece.last());
        assert(piece.last() == ']' <==> s[n - 1] == ']');
        if piece.len() == 1 && t.len() > 1 {
            assert(t[t.len() - 2] == prev.last());
        }
        if piece.len() > 1 {
            assert(t[t.len() - 2] == piece[piece.len() - 2]);
        }
        assert(!has_cdata_end(t)) by {
            if has_cdata_end(t) {
                let i = choose|i: int| 0 <= i && i + 2 < t.len() && #[trigger] t[i] == ']' && t[i + 1] == ']' && t[i + 2] == '>';
                if i + 2 < prev.len() {
                    assert(prev[i] == t[i] && prev[i + 1] == t[i + 1] && prev[i + 2] == t[i + 2]);
                    assert(has_cdata_end(prev));
                } else {
                    assert(t[i + 2] == piece[i + 2 - prev.len()]);
                    if piece.len() > 1 {
                        assert(false);
                    } else {
                        assert(i + 2 == prev.len());
                        assert(piece[0] == '>');
                        assert(prev[prev.len() - 1] == t[i + 1]);
                        assert(prev[prev.len() - 2] == t[i]);
                    }
                }
            }
        }
    }
}

/// Text written by [`escape_xml_text`] is safe as XML content: it holds no
/// `<` and never the sequence `]]>`.
pub proof fn lemma_escaped_text_is_safe(s: Seq<char>)
    ensures
        forall|k: int| 0 <= k < escape_xml(s).len() ==> escape_xml(s)[k] != '<',
        !has_cdata_end(escape_xml(s)),
{
    lemma_escape_xml_prefix_shape(s, s.len() as int);
}

/// At index `k` of `t` stands one of the entity references `&amp;`,
/// `&lt;` or `&gt;`.
pub open spec fn entity_at(t: Seq<char>, k: int) -> bool {
    ||| 0 <= k && k + 5 <= t.len() && t.subrange(k, k + 5) == seq!['&', 'a', 'm', 'p', ';']
    ||| 0 <= k && k + 4 <= t.len() && t.subrange(k, k + 4) == seq!['&', 'l', 't', ';']
    ||| 0 <= k && k + 4 <= t.len() && t.subrange(k, k + 4) == seq!['&', 'g', 't', ';']
}

/// Every `&` of `t` begins `&amp;`, `&lt;` or `&gt;`.
pub open spec fn ampersands_escaped(t: Seq<char>) -> bool {
    forall|k: int| 0 <= k < t.len() && #[trigger] t[k] == '&' ==> entity_at(t, k)
}

proof fn lemma_ampersands_append(a: Seq<char>, b: Seq<char>)
    requires
        ampersands_escaped(a),
        ampersands_escaped(b),
    ensures
        ampersands_escaped(a + b),
{
    let t = a + b;
    assert forall|k: int| 0 <= k < t.len() && #[trigger] t[k] == '&' implies entity_at(t, k) by {
        if k < a.len() {
            assert(a[k] == '&');
            assert(entity_at(a, k));
            if k + 5 <= a.len() && a.subrange(k, k + 5) == seq!['&', 'a', 'm', 'p', ';'] {
                assert(t.subrange(k, k + 5) =~= a.subrange(k, k + 5));
            } else if k + 4 <= a.len() && a.subrange(k, k + 4) == seq!['&', 'l', 't', ';'] {
                assert(t.subrange(k, k + 4) =~= a.subrange(k, k + 4));
            } else {
                assert(t.subrange(k, k + 4) =~= a.subrange(k, k + 4));
            }
        } else {
            let j = k - a.len();
            assert(b[j] == '&');
            assert(entity_at(b, j));
            if j + 5 <= b.len() && b.subrange(j, j + 5) == seq!['&', 'a', 'm', 'p', ';'] {
                assert(t.subrange(k, k + 5) =~= b.subrange(j, j + 5));
            } else if j + 4 <= b.len() && b.subrange(j, j + 4) == seq!['&', 'l', 't', ';'] {
                assert(t.subrange(k, k + 4) =~= b.subrange(j, j + 4));
            } else {
                assert(t.subrange(k, k + 4) =~= b.subrange(j, j + 4));
            }
        }
    }
}

proof fn lemma_escape_prefix_ampersands(s: Seq<char>, n: int)
    requires
        0 <= n <= s.len(),
    ensures
        ampersands_escaped(escape_xml_prefix(s, n)),
    decreases n,
{
    if n > 0 {
        lemma_escape_prefix_ampersands(s, n - 1);
        let piece = xml_text_piece(s, n - 1);
        assert(ampersands_escaped(piece)) by {
            assert forall|k: int| 0 <= k < piece.len() && #[trigger] piece[k] == '&' implies entity_at(
                piece,
                k,
            ) by {
                assert(k == 0);
                if s[n - 1] == '&' {
                    assert(piece.subrange(0, 5) =~= piece);
                } else {
                    assert(piece.subrange(0, 4) =~= piece);
                }
            }
        }
        lemma_ampersands_append(escape_xml_prefix(s, n - 1), piece);
    }
}

proof fn lemma_escape_prefix_plain(s: Seq<char>, n: int)
    requires
        0 <= n <= s.len(),
        !s.contains('&'),
        !s.contains('<'),
        !has_cdata_end(s),
    ensures
        escape_xml_prefix(s, n) == s.take(n),
    decreases n,
{
    if n > 0 {
        lemma_escape_prefix_plain(s, n - 1);
        let c = s[n - 1];
        assert(c != '&');
        assert(c != '<');
        if c == '>' && n - 1 >= 2 && s[n - 2] == ']' && s[n - 3] == ']' {
            assert(s[n - 3] == ']' && s[n - 3 + 1] == ']' && s[n - 3 + 2] == '>');
            assert(has_cdata_end(s));
        }
        assert(xml_text_piece(s, n - 1) == seq![c]);
        assert(s.take(n - 1).push(c) =~= s.take(n));
    }
}

/// Text written by [`escape_xml_text`] escapes only what it must: every
/// `&` of the result begins `&amp;`, `&lt;` or `&gt;`, and a text holding
/// no `&`, no `<` and no `]]>` is written unchanged.
pub proof fn lemma_escaped_text_entities(s: Seq<char>)
    ensures
        ampersands_escaped(escape_xml(s)),
        !s.contains('&') && !s.contains('<') && !has_cdata_end(s) ==> escape_xml(s) == s,
{
    lemma_escape_prefix_ampersands(s, s.len() as int);
    if !s.contains('&') && !s.contains('<') && !has_cdata_end(s) {
        lemma_escape_prefix_plain(s, s.len() as int);
        assert(s.take(s.len() as int) =~= s);
    }
}

/// A tag name made by [`sanitize_tag_name`] is never empty, holds only
/// characters allowed in tag names, and starts with `_` or with a character
/// that is neither numeric nor `-` nor `.`.
pub proof fn lemma_sanitized_tag_is_valid(name: Seq<char>)
    ensures
        sanitize_tag(name).len() > 0,
        forall|i: int| 0 <= i < sanitize_tag(name).len() ==> tag_char_ok(#[trigger] sanitize_tag(name)[i]),
        sanitize_tag(name)[0] == '_' || !(numeric(sanitize_tag(name)[0])
            || sanitize_tag(name)[0] == '-' || sanitize_tag(name)[0] == '.'),
{
    let r = sanitize_tag(name);
    if name.len() > 0 {
        let t = Seq::new(name.len(), |i: int| if tag_char_ok(name[i]) { name[i] } else { '_' });
        assert forall|i: int| 0 <= i < t.len() implies tag_char_ok(#[trigger] t[i]) by {}
        if numeric(t[0]) || t[0] == '-' || t[0] == '.' {
            assert forall|i: int| 0 <= i < r.len() implies tag_char_ok(#[trigger] r[i]) by {
                if i > 0 {
                    assert(r[i] == t[i - 1]);
                }
            }
        }
    }
}

/// A tag name made by [`sanitize_tag_name`] comes back unchanged when it is
/// made into a tag name again.
pub proof fn lemma_sanitize_tag_idempotent(name: Seq<char>)
    ensures
        sanitize_tag(sanitize_tag(name)) == sanitize_tag(name),
{
    let r = sanitize_tag(name);
    lemma_sanitized_tag_is_valid(name);
    let t = Seq::new(r.len(), |i: int| if tag_char_ok(r[i]) { r[i] } else { '_' });
    assert(t =~= r);
    assert(!numeric('_'));
}

proof fn lemma_decimal_nonempty(n: nat)
    ensures
        decimal(n).len() >= 1,
        n >= 10 ==> decimal(n).len() >= 2,
    decreases n,
{
    if n >= 10 {
        lemma_decimal_nonempty(n / 10);
    }
}

/// Different numbers have different decimal representations.
pub proof fn lemma_decimal_injective(a: nat, b: nat)
    requires
        decimal(a) == decimal(b),
    ensures
        a == b,
    decreases a,
{
    lemma_decimal_nonempty(a);
    lemma_decimal_nonempty(b);
    if a < 10 && b < 10 {
        assert(decimal(a)[0] == digit_char(a));
        assert(decimal(b)[0] == digit_char(b));
        assert((48 + a) as char as u32 == 48 + a);
        assert((48 + b) as char as u32 == 48 + b);
    } else if a >= 10 && b >= 10 {
        let da = decimal(a / 10);
        let db = decimal(b / 10);
        assert(decimal(a).last() == digit_char(a % 10));
        assert(decimal(b).last() == digit_char(b % 10));
        assert((48 + a % 10) as char as u32 == 48 + a % 10);
        assert((48 + b % 10) as char as u32 == 48 + b % 10);
        assert(da == decimal(a).drop_last());
        assert(db == decimal(b).drop_last());
        lemma_decimal_injective(a / 10, b / 10);
    }
}

proof fn lemma_count_tag_monotone(pairs: Seq<(Seq<char>, JsonValue)>, base: Seq<char>, i: int, j: int)
    requires
        0 <= i <= j <= pairs.len(),
    ensures
        count_tag(pairs, base, i) <= count_tag(pairs, base, j),
    decreases j - i,
{
    if i < j {
        lemma_count_tag_monotone(pairs, base, i, j - 1);
    }
}

/// Within an object, two members whose keys make the same tag name are
/// written as different elements: the first keeps the name and the `k`-th
/// gets `_k` after it.
pub proof fn lemma_member_tags_distinct(pairs: Seq<(Seq<char>, JsonValue)>, i: int, j: int)
    requires
        0 <= i < j < pairs.len(),
        sanitize_tag(pairs[i].0) == sanitize_tag(pairs[j].0),
    ensures
        member_tag(pairs, i) != member_tag(pairs, j),
{
    let base = sanitize_tag(pairs[i].0);
    let ki = count_tag(pairs, base, i + 1);
    let kj = count_tag(pairs, base, j + 1);
    lemma_count_tag_monotone(pairs, base, i + 1, j);
    assert(kj == count_tag(pairs, base, j) + 1);
    assert(ki >= 1);
    assert(ki < kj);
    let ti = member_tag(pairs, i);
    let tj = member_tag(pairs, j);
    lemma_decimal_nonempty(kj);
    if ki == 1 {
        assert(tj.len() > base.len());
    } else if ti == tj {
        lemma_decimal_nonempty(ki);
        let pre = base + seq!['_'];
        assert(ti == pre + decimal(ki));
        assert(tj == pre + decimal(kj));
        assert(decimal(ki) =~= ti.subrange(pre.len() as int, ti.len() as int));
        assert(decimal(kj) =~= tj.subrange(pre.len() as int, tj.len() as int));
        lemma_decimal_injective(ki, kj);
    }
}

} // verus!
