//! The XML text that the JSON to XML conversion writes passes the XML
//! well-formedness check.

use vstd::prelude::*;
use crate::json_readback::{json_root, lemma_document_numbers, occurs_at, plain_numbers};
use crate::json_to_xml::json_model::{
    JsonValue, elements_xml, escape_xml, lemma_escaped_text_is_safe, member_tag, members_xml,
    sanitize_tag, xml_break, xml_of, xml_pad,
};
use crate::json_to_xml::{json_to_xml, xml_declaration};
use crate::text::{is_white_space, skip_white_space};
use crate::xml_readback::{
    bad_tag_char, clean_tag, close_pad, core_xml, lead, lemma_find_char_at, lemma_literal_safe,
    lemma_member_tag_safe, lemma_occurs_index, lemma_sanitize_clean, lemma_trim_clean,
    lemma_white_no_lt, lemma_xml_of_core, safe_key, safe_keys,
};
use crate::xml_validation::{
    check_xml_from, first_word, open_tag_end, pi_close, word_end, xml_well_formed,
};

verus! {

// ---------------------------------------------------------------------------
// Checking a piece of XML text wherever it stands
// ---------------------------------------------------------------------------

/// The check of `t` from index `p` on.
#[verifier::opaque]
pub open spec fn check_xml_at(
    t: Seq<char>,
    p: int,
    st: Seq<Seq<char>>,
    has_root: bool,
    line: nat,
    col: nat,
) -> Result<(), Seq<char>> {
    check_xml_from(t, p, st, has_root, line, col)
}

/// The check passes from index `p` on, whatever line and column it counts
/// from.
pub open spec fn passes_from(t: Seq<char>, p: int, st: Seq<Seq<char>>, has_root: bool) -> bool {
    forall|line: nat, col: nat| #[trigger] check_xml_at(t, p, st, has_root, line, col) is Ok
}

/// Wherever `w` stands inside an open element, the check passes from its
/// start when it passes from its end.
#[verifier::opaque]
pub open spec fn xml_checks(w: Seq<char>) -> bool {
    forall|t: Seq<char>, p: int, st: Seq<Seq<char>>, has_root: bool|
        occurs_at(t, p, w) && st.len() > 0 && passes_from(t, p + w.len(), st, has_root)
            ==> #[trigger] passes_from(t, p, st, has_root)
}

proof fn lemma_occurs_split(t: Seq<char>, p: int, a: Seq<char>, b: Seq<char>)
    requires
        occurs_at(t, p, a + b),
    ensures
        occurs_at(t, p, a),
        occurs_at(t, p + a.len(), b),
{
    let w = a + b;
    assert(t.subrange(p, p + a.len()) =~= a) by {
        assert forall|k: int| 0 <= k < a.len() implies t.subrange(p, p + a.len())[k] == a[k] by {
            lemma_occurs_index(t, p, w, k);
        }
    }
    assert(t.subrange(p + a.len(), p + a.len() + b.len()) =~= b) by {
        assert forall|k: int| 0 <= k < b.len() implies t.subrange(p + a.len(), p + a.len() + b.len())[k]
            == b[k] by {
            lemma_occurs_index(t, p, w, a.len() + k);
        }
    }
}

/// Text without `<`: the check goes through it character by character.
proof fn lemma_text_step(t: Seq<char>, p: int, w: Seq<char>, st: Seq<Seq<char>>, has_root: bool)
    requires
        occurs_at(t, p, w),
        forall|k: int| 0 <= k < w.len() ==> #[trigger] w[k] != '<',
        passes_from(t, p + w.len(), st, has_root),
    ensures
        passes_from(t, p, st, has_root),
    decreases w.len(),
{
    if w.len() > 0 {
        let rest = w.drop_first();
        assert(w =~= seq![w[0]] + rest);
        lemma_occurs_split(t, p, seq![w[0]], rest);
        assert forall|k: int| 0 <= k < rest.len() implies #[trigger] rest[k] != '<' by {
            assert(rest[k] == w[k + 1]);
        }
        lemma_text_step(t, p + 1, rest, st, has_root);
        lemma_occurs_index(t, p, w, 0);
        assert forall|line: nat, col: nat| #[trigger] check_xml_at(t, p, st, has_root, line, col) is Ok by {
            reveal(check_xml_at);
            let c = t[p];
            let l2: nat = if c == '\n' {
                line + 1
            } else {
                line
            };
            let c2: nat = if c == '\n' {
                0
            } else {
                col + 1
            };
            assert(check_xml_at(t, p + 1, st, has_root, l2, c2) is Ok);
        }
    }
}

proof fn lemma_open_tag_end_at(t: Seq<char>, i: int, j: int)
    requires
        0 <= i <= j < t.len(),
        forall|k: int| i <= k < j ==> #[trigger] t[k] != '"' && t[k] != '\'' && t[k] != '>',
        t[j] == '>',
    ensures
        open_tag_end(t, i, None) == j,
    decreases j - i,
{
    if i < j {
        lemma_open_tag_end_at(t, i + 1, j);
    }
}

proof fn lemma_word_end_at(s: Seq<char>, i: int, j: int)
    requires
        0 <= i <= j <= s.len(),
        forall|k: int| i <= k < j ==> !is_white_space(#[trigger] s[k]),
        j == s.len() || is_white_space(s[j]),
    ensures
        word_end(s, i) == j,
    decreases j - i,
{
    if i < j {
        lemma_word_end_at(s, i + 1, j);
    }
}

/// The first word of a clean tag, maybe followed by white space, is the tag.
proof fn lemma_first_word_tag(tag: Seq<char>, rest: Seq<char>)
    requires
        clean_tag(tag),
        rest.len() == 0 || is_white_space(rest[0]),
    ensures
        first_word(tag + rest) == tag,
{
    let s = tag + rest;
    assert(!bad_tag_char(tag[0]));
    assert(s[0] == tag[0]);
    assert(skip_white_space(s, 0) == 0);
    assert forall|k: int| 0 <= k < tag.len() implies !is_white_space(#[trigger] s[k]) by {
        assert(s[k] == tag[k]);
        assert(!bad_tag_char(tag[k]));
    }
    if rest.len() > 0 {
        assert(s[tag.len() as int] == rest[0]);
    }
    lemma_word_end_at(s, 0, tag.len() as int);
    assert(s.subrange(0, tag.len() as int) =~= tag);
}

/// An opening tag `<tag>`.
proof fn lemma_open_step(t: Seq<char>, p: int, tag: Seq<char>, st: Seq<Seq<char>>, has_root: bool)
    requires
        clean_tag(tag),
        occurs_at(t, p, seq!['<'] + tag + seq!['>']),
        !(st.len() == 0 && has_root),
        passes_from(t, p + tag.len() + 2, st.push(tag), has_root || st.len() == 0),
    ensures
        passes_from(t, p, st, has_root),
{
    let w = seq!['<'] + tag + seq!['>'];
    let e = p + 1 + tag.len();
    lemma_occurs_index(t, p, w, 0);
    lemma_occurs_index(t, p, w, 1);
    lemma_occurs_index(t, p, w, tag.len() as int + 1);
    assert(!bad_tag_char(tag[0]));
    assert forall|k: int| p + 1 <= k < e implies #[trigger] t[k] != '"' && t[k] != '\'' && t[k] != '>' by {
        lemma_occurs_index(t, p, w, k - p);
        assert(!bad_tag_char(tag[k - p - 1]));
    }
    lemma_open_tag_end_at(t, p + 1, e);
    assert(t.subrange(p + 1, e) =~= tag) by {
        assert forall|k: int| 0 <= k < tag.len() implies t.subrange(p + 1, e)[k] == tag[k] by {
            lemma_occurs_index(t, p, w, k + 1);
        }
    }
    assert(!bad_tag_char(tag[tag.len() - 1]));
    lemma_first_word_tag(tag, Seq::empty());
    assert(tag + Seq::<char>::empty() =~= tag);
    assert forall|line: nat, col: nat| #[trigger] check_xml_at(t, p, st, has_root, line, col) is Ok by {
        reveal(check_xml_at);
        assert(check_xml_at(t, e + 1, st.push(tag), has_root || st.len() == 0, line, col + 1) is Ok);
    }
}

/// A closing tag `</tag>` for the innermost open element.
proof fn lemma_close_step(t: Seq<char>, p: int, tag: Seq<char>, st: Seq<Seq<char>>, has_root: bool)
    requires
        clean_tag(tag),
        occurs_at(t, p, seq!['<', '/'] + tag + seq!['>']),
        st.len() > 0,
        st.last() == tag,
        passes_from(t, p + tag.len() + 3, st.drop_last(), has_root),
    ensures
        passes_from(t, p, st, has_root),
{
    let w = seq!['<', '/'] + tag + seq!['>'];
    let j = p + 2 + tag.len();
    lemma_occurs_index(t, p, w, 0);
    lemma_occurs_index(t, p, w, 1);
    lemma_occurs_index(t, p, w, tag.len() as int + 2);
    assert forall|k: int| p + 2 <= k < j implies #[trigger] t[k] != '>' by {
        lemma_occurs_index(t, p, w, k - p);
        assert(!bad_tag_char(tag[k - p - 2]));
    }
    lemma_find_char_at(t, p + 2, j, '>');
    assert(t.subrange(p + 2, j) =~= tag) by {
        assert forall|k: int| 0 <= k < tag.len() implies t.subrange(p + 2, j)[k] == tag[k] by {
            lemma_occurs_index(t, p, w, k + 2);
        }
    }
    lemma_trim_clean(tag);
    assert forall|line: nat, col: nat| #[trigger] check_xml_at(t, p, st, has_root, line, col) is Ok by {
        reveal(check_xml_at);
        assert(check_xml_at(t, j + 1, st.drop_last(), has_root, line, col + 1) is Ok);
    }
}

/// An empty element `<tag />`.
proof fn lemma_empty_step(t: Seq<char>, p: int, tag: Seq<char>, st: Seq<Seq<char>>, has_root: bool)
    requires
        clean_tag(tag),
        occurs_at(t, p, seq!['<'] + tag + seq![' ', '/', '>']),
        !(st.len() == 0 && has_root),
        passes_from(t, p + tag.len() + 4, st, has_root || st.len() == 0),
    ensures
        passes_from(t, p, st, has_root),
{
    let w = seq!['<'] + tag + seq![' ', '/', '>'];
    let e = p + 3 + tag.len();
    lemma_occurs_index(t, p, w, 0);
    lemma_occurs_index(t, p, w, 1);
    lemma_occurs_index(t, p, w, tag.len() as int + 1);
    lemma_occurs_index(t, p, w, tag.len() as int + 2);
    lemma_occurs_index(t, p, w, tag.len() as int + 3);
    assert(!bad_tag_char(tag[0]));
    assert forall|k: int| p + 1 <= k < e implies #[trigger] t[k] != '"' && t[k] != '\'' && t[k] != '>' by {
        lemma_occurs_index(t, p, w, k - p);
        if k < p + 1 + tag.len() {
            assert(!bad_tag_char(tag[k - p - 1]));
        }
    }
    lemma_open_tag_end_at(t, p + 1, e);
    let content = t.subrange(p + 1, e);
    assert(content =~= tag + seq![' ', '/']) by {
        assert forall|k: int| 0 <= k < tag.len() + 2 implies content[k] == (tag + seq![' ', '/'])[k] by {
            lemma_occurs_index(t, p, w, k + 1);
        }
    }
    assert(content.drop_last() =~= tag + seq![' ']);
    assert(is_white_space(' '));
    lemma_first_word_tag(tag, seq![' ']);
    assert forall|line: nat, col: nat| #[trigger] check_xml_at(t, p, st, has_root, line, col) is Ok by {
        reveal(check_xml_at);
        assert(check_xml_at(t, e + 1, st, has_root || st.len() == 0, line, col + 1) is Ok);
    }
}

/// The XML declaration, a processing instruction.
proof fn lemma_decl_step(t: Seq<char>, p: int, st: Seq<Seq<char>>, has_root: bool)
    requires
        occurs_at(t, p, xml_declaration()),
        passes_from(t, p + 38, st, has_root),
    ensures
        passes_from(t, p, st, has_root),
{
    let w = xml_declaration();
    reveal_strlit("<?xml version=\"1.0\" encoding=\"UTF-8\"?>");
    assert(w.len() == 38);
    lemma_occurs_index(t, p, w, 0);
    lemma_occurs_index(t, p, w, 1);
    lemma_occurs_index(t, p, w, 36);
    lemma_occurs_index(t, p, w, 37);
    assert forall|k: int| p + 1 <= k < p + 37 implies #[trigger] t[k] != '>' by {
        lemma_occurs_index(t, p, w, k - p);
        assert(w[k - p] != '>');
    }
    lemma_pi_close_at(t, p + 1, false, p + 37);
    assert forall|line: nat, col: nat| #[trigger] check_xml_at(t, p, st, has_root, line, col) is Ok by {
        reveal(check_xml_at);
        assert(check_xml_at(t, p + 38, st, has_root, line, col + 1) is Ok);
    }
}

proof fn lemma_pi_close_at(t: Seq<char>, i: int, prev_question: bool, j: int)
    requires
        0 <= i < j < t.len(),
        forall|k: int| i <= k < j ==> #[trigger] t[k] != '>',
        t[j] == '>',
        t[j - 1] == '?',
    ensures
        pi_close(t, i, prev_question) == Some(j + 1),
    decreases j - i,
{
    if i < j - 1 {
        lemma_pi_close_at(t, i + 1, t[i] == '?', j);
    } else {
        assert(pi_close(t, j, true) == Some(j + 1));
    }
}

proof fn lemma_checks_concat(a: Seq<char>, b: Seq<char>)
    requires
        xml_checks(a),
        xml_checks(b),
    ensures
        xml_checks(a + b),
{
    reveal(xml_checks);
    let w = a + b;
    assert forall|t: Seq<char>, p: int, st: Seq<Seq<char>>, has_root: bool|
        occurs_at(t, p, w) && st.len() > 0 && passes_from(t, p + w.len(), st, has_root) implies #[trigger] passes_from(
        t,
        p,
        st,
        has_root,
    ) by {
        lemma_occurs_split(t, p, a, b);
        assert(passes_from(t, p + a.len(), st, has_root));
    }
}

proof fn lemma_text_checks(w: Seq<char>)
    requires
        forall|k: int| 0 <= k < w.len() ==> #[trigger] w[k] != '<',
    ensures
        xml_checks(w),
{
    reveal(xml_checks);
    assert forall|t: Seq<char>, p: int, st: Seq<Seq<char>>, has_root: bool|
        occurs_at(t, p, w) && st.len() > 0 && passes_from(t, p + w.len(), st, has_root) implies #[trigger] passes_from(
        t,
        p,
        st,
        has_root,
    ) by {
        lemma_text_step(t, p, w, st, has_root);
    }
}

/// An element `<tag>inner</tag>` inside an open element.
proof fn lemma_element_checks(tag: Seq<char>, inner: Seq<char>)
    requires
        clean_tag(tag),
        xml_checks(inner),
    ensures
        xml_checks(seq!['<'] + tag + seq!['>'] + inner + (seq!['<', '/'] + tag + seq!['>'])),
{
    reveal(xml_checks);
    let open = seq!['<'] + tag + seq!['>'];
    let close = seq!['<', '/'] + tag + seq!['>'];
    let w = open + inner + close;
    assert forall|t: Seq<char>, p: int, st: Seq<Seq<char>>, has_root: bool|
        occurs_at(t, p, w) && st.len() > 0 && passes_from(t, p + w.len(), st, has_root) implies #[trigger] passes_from(
        t,
        p,
        st,
        has_root,
    ) by {
        lemma_occurs_split(t, p, open + inner, close);
        lemma_occurs_split(t, p, open, inner);
        let st1 = st.push(tag);
        assert(st1.drop_last() =~= st);
        lemma_close_step(t, p + open.len() + inner.len(), tag, st1, has_root);
        assert(passes_from(t, p + open.len(), st1, has_root));
        lemma_open_step(t, p, tag, st, has_root);
    }
}

/// An empty element `<tag />` inside an open element.
proof fn lemma_empty_element_checks(tag: Seq<char>)
    requires
        clean_tag(tag),
    ensures
        xml_checks(seq!['<'] + tag + seq![' ', '/', '>']),
{
    reveal(xml_checks);
    let w = seq!['<'] + tag + seq![' ', '/', '>'];
    assert forall|t: Seq<char>, p: int, st: Seq<Seq<char>>, has_root: bool|
        occurs_at(t, p, w) && st.len() > 0 && passes_from(t, p + w.len(), st, has_root) implies #[trigger] passes_from(
        t,
        p,
        st,
        has_root,
    ) by {
        lemma_empty_step(t, p, tag, st, has_root);
    }
}

// ---------------------------------------------------------------------------
// What the JSON to XML conversion writes
// ---------------------------------------------------------------------------

/// What stands between the opening and the closing tag of the XML for `v`.
pub open spec fn core_inner(v: JsonValue, depth: nat, indent: Option<nat>) -> Seq<char> {
    match v {
        JsonValue::Object(pairs) => members_xml(pairs, pairs.len() as int, depth, indent)->Some_0
            + close_pad(depth, indent),
        JsonValue::Array(els) => elements_xml(els, els.len() as int, "item"@, depth, indent)->Some_0
            + close_pad(depth, indent),
        JsonValue::StringVal(s) => escape_xml(s),
        JsonValue::Number(n) => n,
        JsonValue::BoolVal(b) => if b {
            "true"@
        } else {
            "false"@
        },
        JsonValue::Null => Seq::empty(),
    }
}

proof fn lemma_core_split(v: JsonValue, label: Seq<char>, depth: nat, indent: Option<nat>)
    requires
        !(v is Null),
    ensures
        core_xml(v, label, depth, indent) == seq!['<'] + sanitize_tag(label) + seq!['>'] + core_inner(
            v,
            depth,
            indent,
        ) + (seq!['<', '/'] + sanitize_tag(label) + seq!['>']),
{
    let tag = sanitize_tag(label);
    assert(core_xml(v, label, depth, indent) =~= seq!['<'] + tag + seq!['>'] + core_inner(v, depth, indent)
        + (seq!['<', '/'] + tag + seq!['>']));
}

proof fn lemma_core_checks(v: JsonValue, label: Seq<char>, depth: nat, indent: Option<nat>)
    requires
        xml_of(v, label, depth, indent) is Some,
        safe_key(label),
        safe_keys(v),
        plain_numbers(v),
    ensures
        xml_checks(core_inner(v, depth, indent)),
        xml_checks(core_xml(v, label, depth, indent)),
    decreases v, 0nat,
{
    lemma_sanitize_clean(label);
    let tag = sanitize_tag(label);
    lemma_white_no_lt(depth, indent);
    match v {
        JsonValue::Object(pairs) => {
            let n = pairs.len() as int;
            lemma_members_checks(pairs, n, depth, indent);
            lemma_text_checks(close_pad(depth, indent));
            lemma_checks_concat(members_xml(pairs, n, depth, indent)->Some_0, close_pad(depth, indent));
        },
        JsonValue::Array(els) => {
            let n = els.len() as int;
            reveal_strlit("item");
            lemma_literal_safe("item"@);
            lemma_items_checks(els, n, "item"@, depth, indent);
            lemma_text_checks(close_pad(depth, indent));
            lemma_checks_concat(elements_xml(els, n, "item"@, depth, indent)->Some_0, close_pad(depth, indent));
        },
        JsonValue::StringVal(x) => {
            lemma_escaped_text_is_safe(x);
            lemma_text_checks(escape_xml(x));
        },
        JsonValue::Number(x) => {
            lemma_text_checks(x);
        },
        JsonValue::BoolVal(b) => {
            reveal_strlit("true");
            reveal_strlit("false");
            lemma_text_checks(
                if b {
                    "true"@
                } else {
                    "false"@
                },
            );
        },
        JsonValue::Null => {
            lemma_text_checks(Seq::empty());
        },
    }
    if v is Null {
        lemma_empty_element_checks(tag);
    } else {
        lemma_element_checks(tag, core_inner(v, depth, indent));
        lemma_core_split(v, label, depth, indent);
    }
}

proof fn lemma_members_checks(pairs: Seq<(Seq<char>, JsonValue)>, n: int, depth: nat, indent: Option<nat>)
    requires
        0 <= n <= pairs.len(),
        members_xml(pairs, n, depth, indent) is Some,
        forall|i: int|
            0 <= i < pairs.len() ==> safe_key(#[trigger] pairs[i].0) && safe_keys(pairs[i].1)
                && plain_numbers(pairs[i].1),
    ensures
        xml_checks(members_xml(pairs, n, depth, indent)->Some_0),
    decreases pairs, n,
{
    if n == 0 {
        lemma_text_checks(Seq::empty());
    } else {
        lemma_members_checks(pairs, n - 1, depth, indent);
        let prev = members_xml(pairs, n - 1, depth, indent)->Some_0;
        let tag = member_tag(pairs, n - 1);
        assert(safe_key(pairs[n - 1].0));
        lemma_member_tag_safe(pairs, n - 1);
        match pairs[n - 1].1 {
            JsonValue::Array(els) => {
                assert(safe_keys(pairs[n - 1].1));
                lemma_items_checks(els, els.len() as int, tag, depth, indent);
                lemma_checks_concat(prev, elements_xml(els, els.len() as int, tag, depth, indent)->Some_0);
            },
            _ => {
                let c = pairs[n - 1].1;
                lemma_core_checks(c, tag, depth + 1, indent);
                lemma_xml_of_core(c, tag, depth + 1, indent);
                lemma_white_no_lt(depth + 1, indent);
                lemma_text_checks(lead(depth + 1, indent));
                let core = core_xml(c, tag, depth + 1, indent);
                lemma_checks_concat(lead(depth + 1, indent), core);
                assert(xml_break(indent) + xml_of(c, tag, depth + 1, indent)->Some_0 =~= lead(depth + 1, indent) + core);
                lemma_checks_concat(prev, lead(depth + 1, indent) + core);
            },
        }
    }
}

proof fn lemma_items_checks(els: Seq<JsonValue>, n: int, tag: Seq<char>, depth: nat, indent: Option<nat>)
    requires
        0 <= n <= els.len(),
        elements_xml(els, n, tag, depth, indent) is Some,
        safe_key(tag),
        forall|i: int| 0 <= i < els.len() ==> safe_keys(#[trigger] els[i]) && plain_numbers(els[i]),
    ensures
        xml_checks(elements_xml(els, n, tag, depth, indent)->Some_0),
    decreases els, n,
{
    if n == 0 {
        lemma_text_checks(Seq::empty());
    } else {
        lemma_items_checks(els, n - 1, tag, depth, indent);
        let prev = elements_xml(els, n - 1, tag, depth, indent)->Some_0;
        let c = els[n - 1];
        assert(safe_keys(c) && plain_numbers(c));
        lemma_core_checks(c, tag, depth + 1, indent);
        lemma_xml_of_core(c, tag, depth + 1, indent);
        lemma_white_no_lt(depth + 1, indent);
        lemma_text_checks(lead(depth + 1, indent));
        let core = core_xml(c, tag, depth + 1, indent);
        lemma_checks_concat(lead(depth + 1, indent), core);
        lemma_checks_concat(prev, lead(depth + 1, indent) + core);
        assert(prev + xml_break(indent) + xml_of(c, tag, depth + 1, indent)->Some_0 =~= prev + (lead(depth + 1, indent) + core));
    }
}

// ---------------------------------------------------------------------------
// The whole document
// ---------------------------------------------------------------------------

/// The XML text that the JSON to XML conversion writes, compact or
/// indented, passes the XML well-formedness check (so the converter takes
/// its own output back after checking it). This holds when the keys keep no
/// character that the check treats specially in a name (see [`safe_key`]).
pub proof fn lemma_written_xml_well_formed(s: Seq<char>, pretty: bool)
    requires
        json_to_xml(s, pretty) is Ok,
        safe_keys(json_root(s)->Some_0),
    ensures
        xml_well_formed(json_to_xml(s, pretty)->Ok_0) is Ok,
{
    let v = json_root(s)->Some_0;
    lemma_document_numbers(s);
    let ind = if pretty {
        Some(4nat)
    } else {
        None
    };
    let out = json_to_xml(s, pretty)->Ok_0;
    reveal_strlit("root");
    lemma_literal_safe("root"@);
    lemma_core_checks(v, "root"@, 0, ind);
    lemma_xml_of_core(v, "root"@, 0, ind);
    lemma_sanitize_clean("root"@);
    let tag = sanitize_tag("root"@);
    let core = core_xml(v, "root"@, 0, ind);
    assert(xml_pad(0, ind) =~= Seq::<char>::empty());
    let nl = if pretty {
        seq!['\n']
    } else {
        Seq::<char>::empty()
    };
    assert(out =~= xml_declaration() + nl + core);
    reveal_strlit("<?xml version=\"1.0\" encoding=\"UTF-8\"?>");
    let i0: int = 38 + nl.len() as int;
    assert(out.subrange(0, out.len() as int) =~= out);
    assert(occurs_at(out, 0, xml_declaration() + nl + core));
    lemma_occurs_split(out, 0, xml_declaration() + nl, core);
    lemma_occurs_split(out, 0, xml_declaration(), nl);
    let e: int = out.len() as int;
    assert(passes_from(out, e, Seq::empty(), true)) by {
        assert forall|line: nat, col: nat| #[trigger] check_xml_at(out, e, Seq::empty(), true, line, col) is Ok by {
            reveal(check_xml_at);
        }
    }
    let empty: Seq<Seq<char>> = Seq::empty();
    if v is Null {
        assert(core == seq!['<'] + tag + seq![' ', '/', '>']);
        lemma_empty_step(out, i0, tag, empty, false);
    } else {
        lemma_core_split(v, "root"@, 0, ind);
        let open = seq!['<'] + tag + seq!['>'];
        let inner = core_inner(v, 0, ind);
        let close = seq!['<', '/'] + tag + seq!['>'];
        lemma_occurs_split(out, i0, open + inner, close);
        lemma_occurs_split(out, i0, open, inner);
        let st1 = empty.push(tag);
        assert(st1.drop_last() =~= empty);
        lemma_close_step(out, i0 + open.len() + inner.len(), tag, st1, true);
        reveal(xml_checks);
        assert(passes_from(out, i0 + open.len(), st1, true));
        lemma_open_step(out, i0, tag, empty, false);
    }
    assert forall|k: int| 0 <= k < nl.len() implies #[trigger] nl[k] != '<' by {}
    lemma_text_step(out, 38, nl, empty, false);
    lemma_decl_step(out, 0, empty, false);
    reveal(check_xml_at);
    assert(check_xml_at(out, 0, empty, false, 1, 0) is Ok);
    assert(xml_well_formed(out) is Ok);
}

} // verus!
