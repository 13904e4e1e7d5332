//! The JSON text that the XML to JSON conversion writes passes the JSON
//! well-formedness check.

use vstd::prelude::*;
use crate::json_readback::{
    all_white, lemma_children_json_facts, lemma_members_are_elements, lemma_names_have_members,
    lemma_spaces_white, occurs_at, plain_names, plain_text, xml_root,
};
use crate::json_validation::{
    Expect, check_from, expects_key, expects_value, json_well_formed, string_end,
};
use crate::text::{is_white_space, spaces};
use crate::xml_to_json::xml_lexer::xml_tokens;
use crate::xml_to_json::xml_model::{
    XmlValue, attribute_part, attribute_parts, children_json, element_json, element_texts,
    escape_json, escape_json_prefix, group_members, group_names, group_parts, join, join_all,
    json_array, json_char, json_object, json_of, json_string, pretty_members,
};
use crate::xml_to_json::xml_parser::{element_name, lemma_document_is_element};
use crate::xml_to_json::{strip_bom, xml_to_json};

verus! {

// ---------------------------------------------------------------------------
// Checking a piece of text wherever it stands
// ---------------------------------------------------------------------------

/// The check of `t` from index `p` on, with the open brackets `st` and the
/// expectation `e`.
#[verifier::opaque]
pub open spec fn check_at(t: Seq<char>, p: int, st: Seq<char>, e: Expect) -> Result<(), Seq<char>> {
    check_from(t, p, st, e)
}

/// The innermost open bracket of `st` is `top`, when `top` is given.
pub open spec fn top_is(st: Seq<char>, top: Option<char>) -> bool {
    match top {
        Some(c) => st.len() > 0 && st.last() == c,
        None => true,
    }
}

/// Wherever `w` stands, checked with the expectation `e1` and open brackets
/// whose innermost is `top`, the check goes on right after it with the same
/// brackets and the expectation `e2`.
#[verifier::opaque]
pub open spec fn checks_as(w: Seq<char>, e1: Expect, e2: Expect, top: Option<char>) -> bool {
    forall|t: Seq<char>, p: int, st: Seq<char>|
        occurs_at(t, p, w) && top_is(st, top) ==> #[trigger] check_at(t, p, st, e1) == check_at(
            t,
            p + w.len(),
            st,
            e2,
        )
}

/// `w` is checked as a value wherever a value may stand, whatever the open
/// brackets.
pub open spec fn value_checks(w: Seq<char>) -> bool {
    &&& checks_as(w, Expect::Value, Expect::CommaOrClose, None)
    &&& checks_as(w, Expect::ValueAfterComma, Expect::CommaOrClose, None)
    &&& checks_as(w, Expect::Any, Expect::CommaOrClose, None)
}

pub(crate) proof fn lemma_occurs_index(t: Seq<char>, p: int, w: Seq<char>, k: int)
    requires
        occurs_at(t, p, w),
        0 <= k < w.len(),
    ensures
        t[p + k] == w[k],
{
    assert(t[p + k] == t.subrange(p, p + w.len())[k]);
}

pub(crate) proof fn lemma_occurs_split(t: Seq<char>, p: int, a: Seq<char>, b: Seq<char>)
    requires
        occurs_at(t, p, a + b),
    ensures
        occurs_at(t, p, a),
        occurs_at(t, p + a.len(), b),
{
    let w = a + b;
    assert(t.subrange(p, p + a.len()) =~= a) by {
        assert forall|k: int| 0 <= k < a.len() implies t.subrange(p, p + a.len())[k] == a[k] by {
            lemma_occurs_index(t, p, w, k);
        }
    }
    assert(t.subrange(p + a.len(), p + a.len() + b.len()) =~= b) by {
        assert forall|k: int| 0 <= k < b.len() implies t.subrange(p + a.len(), p + a.len() + b.len())[k]
            == b[k] by {
            lemma_occurs_index(t, p, w, a.len() + k);
        }
    }
}

/// Two pieces one after the other.
proof fn lemma_checks_concat(
    a: Seq<char>,
    b: Seq<char>,
    e1: Expect,
    e2: Expect,
    e3: Expect,
    top: Option<char>,
)
    requires
        checks_as(a, e1, e2, top),
        checks_as(b, e2, e3, top),
    ensures
        checks_as(a + b, e1, e3, top),
{
    reveal(checks_as);
    let w = a + b;
    assert forall|t: Seq<char>, p: int, st: Seq<char>| occurs_at(t, p, w) && top_is(st, top) implies #[trigger] check_at(
        t,
        p,
        st,
        e1,
    ) == check_at(t, p + w.len(), st, e3) by {
        lemma_occurs_split(t, p, a, b);
        assert(check_at(t, p, st, e1) == check_at(t, p + a.len(), st, e2));
        assert(check_at(t, p + a.len(), st, e2) == check_at(t, p + a.len() + b.len(), st, e3));
    }
}

/// What holds for any open brackets holds for those with a given innermost.
proof fn lemma_checks_any_top(w: Seq<char>, e1: Expect, e2: Expect, top: Option<char>)
    requires
        checks_as(w, e1, e2, None),
    ensures
        checks_as(w, e1, e2, top),
{
    reveal(checks_as);
}

/// White space leaves the check as it is.
proof fn lemma_white_checks(w: Seq<char>, e: Expect)
    requires
        all_white(w),
    ensures
        checks_as(w, e, e, None),
    decreases w.len(),
{
    reveal(checks_as);
    if w.len() > 0 {
        lemma_white_checks(w.drop_first(), e);
        assert forall|t: Seq<char>, p: int, st: Seq<char>| occurs_at(t, p, w) && top_is(st, None) implies #[trigger] check_at(
            t,
            p,
            st,
            e,
        ) == check_at(t, p + w.len(), st, e) by {
            reveal(check_at);
            lemma_occurs_index(t, p, w, 0);
            assert(is_white_space(w[0]));
            assert(w =~= seq![w[0]] + w.drop_first());
            lemma_occurs_split(t, p, seq![w[0]], w.drop_first());
            assert(check_at(t, p + 1, st, e) == check_at(t, p + 1 + w.drop_first().len(), st, e));
        }
    } else {
        assert forall|t: Seq<char>, p: int, st: Seq<char>| occurs_at(t, p, w) && top_is(st, None) implies #[trigger] check_at(
            t,
            p,
            st,
            e,
        ) == check_at(t, p + w.len(), st, e) by {}
    }
}

/// A colon after a key.
proof fn lemma_colon_checks()
    ensures
        checks_as(seq![':'], Expect::Colon, Expect::Value, None),
{
    reveal(checks_as);
    reveal(check_at);
    assert forall|t: Seq<char>, p: int, st: Seq<char>| occurs_at(t, p, seq![':']) && top_is(st, None) implies #[trigger] check_at(
        t,
        p,
        st,
        Expect::Colon,
    ) == check_at(t, p + 1, st, Expect::Value) by {
        lemma_occurs_index(t, p, seq![':'], 0);
        assert(!is_white_space(':'));
    }
}

/// A comma between members of an object.
proof fn lemma_member_comma_checks()
    ensures
        checks_as(seq![','], Expect::CommaOrClose, Expect::KeyAfterComma, Some('{')),
{
    reveal(checks_as);
    reveal(check_at);
    assert forall|t: Seq<char>, p: int, st: Seq<char>| occurs_at(t, p, seq![',']) && top_is(st, Some('{')) implies #[trigger] check_at(
        t,
        p,
        st,
        Expect::CommaOrClose,
    ) == check_at(t, p + 1, st, Expect::KeyAfterComma) by {
        lemma_occurs_index(t, p, seq![','], 0);
        assert(!is_white_space(','));
    }
}

/// A comma between items of an array.
proof fn lemma_item_comma_checks()
    ensures
        checks_as(seq![','], Expect::CommaOrClose, Expect::ValueAfterComma, Some('[')),
{
    reveal(checks_as);
    reveal(check_at);
    assert forall|t: Seq<char>, p: int, st: Seq<char>| occurs_at(t, p, seq![',']) && top_is(st, Some('[')) implies #[trigger] check_at(
        t,
        p,
        st,
        Expect::CommaOrClose,
    ) == check_at(t, p + 1, st, Expect::ValueAfterComma) by {
        lemma_occurs_index(t, p, seq![','], 0);
        assert(!is_white_space(','));
    }
}

// ---------------------------------------------------------------------------
// Strings
// ---------------------------------------------------------------------------

proof fn lemma_string_end_char(t: Seq<char>, q: int, c: char)
    requires
        0 <= q,
        occurs_at(t, q, json_char(c)),
    ensures
        string_end(t, q, false) == string_end(t, q + json_char(c).len(), false),
{
    let w = json_char(c);
    lemma_occurs_index(t, q, w, 0);
    if w.len() >= 2 {
        lemma_occurs_index(t, q, w, 1);
    }
    if c == '\\' || c == '"' || c == '\n' || c == '\r' || c == '\t' {
        assert(string_end(t, q + 1, true) == string_end(t, q + 2, false));
    } else if (c as u32) < 0x20 {
        let h = crate::text::hex4_upper(c as u32 as nat);
        lemma_occurs_index(t, q, w, 2);
        lemma_occurs_index(t, q, w, 3);
        lemma_occurs_index(t, q, w, 4);
        lemma_occurs_index(t, q, w, 5);
        assert(w[2] == h[0] && w[3] == h[1] && w[4] == h[2] && w[5] == h[3]);
        assert(string_end(t, q + 5, false) == string_end(t, q + 6, false));
        assert(string_end(t, q + 4, false) == string_end(t, q + 5, false));
        assert(string_end(t, q + 3, false) == string_end(t, q + 4, false));
        assert(string_end(t, q + 2, false) == string_end(t, q + 3, false));
        assert(string_end(t, q + 1, true) == string_end(t, q + 2, false));
    }
}

proof fn lemma_string_end_prefix(t: Seq<char>, p0: int, s: Seq<char>, n: int)
    requires
        0 <= n <= s.len(),
        0 <= p0,
        occurs_at(t, p0, json_string(s)),
    ensures
        string_end(t, p0 + 1, false) == string_end(t, p0 + 1 + escape_json_prefix(s, n).len(), false),
    decreases n,
{
    if n > 0 {
        lemma_string_end_prefix(t, p0, s, n - 1);
        let prev = escape_json_prefix(s, n - 1);
        let w = json_char(s[n - 1]);
        let js = json_string(s);
        lemma_escape_json_prefix_within(s, n);
        let q: int = p0 + 1 + prev.len() as int;
        assert(t.subrange(q, q + w.len()) =~= w) by {
            assert forall|k: int| 0 <= k < w.len() implies t.subrange(q, q + w.len())[k] == w[k] by {
                lemma_occurs_index(t, p0, js, 1 + prev.len() + k);
                assert(js[1 + prev.len() + k] == escape_json(s)[prev.len() + k]);
                assert(escape_json_prefix(s, n)[prev.len() + k] == w[k]);
            }
        }
        lemma_string_end_char(t, q, s[n - 1]);
    }
}

proof fn lemma_escape_json_prefix_within(s: Seq<char>, n: int)
    requires
        0 <= n <= s.len(),
    ensures
        escape_json_prefix(s, n).len() <= escape_json(s).len(),
        forall|k: int|
            0 <= k < escape_json_prefix(s, n).len() ==> escape_json(s)[k] == #[trigger] escape_json_prefix(
                s,
                n,
            )[k],
    decreases s.len() - n,
{
    if n < s.len() {
        lemma_escape_json_prefix_within(s, n + 1);
        let a = escape_json_prefix(s, n);
        let b = escape_json_prefix(s, n + 1);
        assert(b == a + json_char(s[n]));
        assert forall|k: int| 0 <= k < a.len() implies escape_json(s)[k] == #[trigger] a[k] by {
            assert(b[k] == a[k]);
        }
    }
}

/// The string written for a text ends at its closing quote.
proof fn lemma_written_string_end(t: Seq<char>, p0: int, s: Seq<char>)
    requires
        0 <= p0,
        occurs_at(t, p0, json_string(s)),
    ensures
        string_end(t, p0 + 1, false) == Some(p0 + json_string(s).len()),
{
    let js = json_string(s);
    let e = escape_json(s);
    lemma_string_end_prefix(t, p0, s, s.len() as int);
    lemma_occurs_index(t, p0, js, 1 + e.len() as int);
}

proof fn lemma_raw_string_end(t: Seq<char>, p0: int, s: Seq<char>, n: int)
    requires
        plain_text(s),
        0 <= n <= s.len(),
        0 <= p0,
        occurs_at(t, p0, seq!['"'] + s + seq!['"']),
    ensures
        string_end(t, p0 + 1, false) == string_end(t, p0 + 1 + n, false),
    decreases n,
{
    if n > 0 {
        lemma_raw_string_end(t, p0, s, n - 1);
        lemma_occurs_index(t, p0, seq!['"'] + s + seq!['"'], n);
        assert((seq!['"'] + s + seq!['"'])[n] == s[n - 1]);
    }
}

/// A string, quotes included, whose body ends at `end`: checked as a key
/// or as a value.
proof fn lemma_quoted_checks(w: Seq<char>)
    requires
        w.len() >= 2,
        w[0] == '"',
        forall|t: Seq<char>, p: int|
            occurs_at(t, p, w) ==> #[trigger] string_end(t, p + 1, false) == Some(p + w.len()),
    ensures
        value_checks(w),
        checks_as(w, Expect::Key, Expect::Colon, None),
        checks_as(w, Expect::KeyAfterComma, Expect::Colon, None),
{
    reveal(checks_as);
    reveal(check_at);
    assert(!is_white_space('"'));
    assert forall|t: Seq<char>, p: int, st: Seq<char>, e: Expect|
        occurs_at(t, p, w) && (expects_value(e) || expects_key(e)) implies #[trigger] check_from(t, p, st, e)
        == check_from(
        t,
        p + w.len(),
        st,
        if expects_key(e) {
            Expect::Colon
        } else {
            Expect::CommaOrClose
        },
    ) by {
        lemma_occurs_index(t, p, w, 0);
        assert(string_end(t, p + 1, false) == Some(p + w.len()));
    }
}

/// A string written for a text is checked as a key or a value.
proof fn lemma_string_checks(s: Seq<char>)
    ensures
        value_checks(json_string(s)),
        checks_as(json_string(s), Expect::Key, Expect::Colon, None),
        checks_as(json_string(s), Expect::KeyAfterComma, Expect::Colon, None),
{
    let w = json_string(s);
    assert forall|t: Seq<char>, p: int| occurs_at(t, p, w) implies #[trigger] string_end(t, p + 1, false)
        == Some(p + w.len()) by {
        lemma_written_string_end(t, p, s);
    }
    lemma_quoted_checks(w);
}

/// A plain text between quotes is checked as a key or a value.
proof fn lemma_raw_string_checks(s: Seq<char>)
    requires
        plain_text(s),
    ensures
        value_checks(seq!['"'] + s + seq!['"']),
        checks_as(seq!['"'] + s + seq!['"'], Expect::Key, Expect::Colon, None),
        checks_as(seq!['"'] + s + seq!['"'], Expect::KeyAfterComma, Expect::Colon, None),
{
    let w = seq!['"'] + s + seq!['"'];
    assert forall|t: Seq<char>, p: int| occurs_at(t, p, w) implies #[trigger] string_end(t, p + 1, false)
        == Some(p + w.len()) by {
        lemma_raw_string_end(t, p, s, s.len() as int);
        lemma_occurs_index(t, p, w, 1 + s.len() as int);
    }
    lemma_quoted_checks(w);
}

// ---------------------------------------------------------------------------
// Objects and arrays
// ---------------------------------------------------------------------------

/// `w` is checked as a member of an object, first or after a comma.
pub open spec fn member_checks(w: Seq<char>) -> bool {
    &&& checks_as(w, Expect::Key, Expect::CommaOrClose, Some('{'))
    &&& checks_as(w, Expect::KeyAfterComma, Expect::CommaOrClose, Some('{'))
}

/// `w` is checked as an item of an array, first or after a comma.
pub open spec fn item_checks(w: Seq<char>) -> bool {
    &&& checks_as(w, Expect::Value, Expect::CommaOrClose, Some('['))
    &&& checks_as(w, Expect::ValueAfterComma, Expect::CommaOrClose, Some('['))
}

proof fn lemma_value_is_item(w: Seq<char>)
    requires
        value_checks(w),
    ensures
        item_checks(w),
{
    lemma_checks_any_top(w, Expect::Value, Expect::CommaOrClose, Some('['));
    lemma_checks_any_top(w, Expect::ValueAfterComma, Expect::CommaOrClose, Some('['));
}

/// A bracket, a body that leaves the check where a closing bracket may come,
/// and the closing bracket: a value.
proof fn lemma_bracketed_checks(body: Seq<char>, open: char, close: char, start: Expect, end: Expect)
    requires
        (open == '{' && close == '}' && start == Expect::Key) || (open == '[' && close == ']' && start
            == Expect::Value),
        end == Expect::CommaOrClose || end == start,
        checks_as(body, start, end, Some(open)),
    ensures
        value_checks(seq![open] + body + seq![close]),
{
    reveal(checks_as);
    let w = seq![open] + body + seq![close];
    assert(!is_white_space(open));
    assert(!is_white_space(close));
    assert forall|t: Seq<char>, p: int, st: Seq<char>, e: Expect|
        occurs_at(t, p, w) && expects_value(e) implies #[trigger] check_at(t, p, st, e) == check_at(
        t,
        p + w.len(),
        st,
        Expect::CommaOrClose,
    ) by {
        reveal(check_at);
        lemma_occurs_split(t, p, seq![open] + body, seq![close]);
        lemma_occurs_split(t, p, seq![open], body);
        lemma_occurs_index(t, p, seq![open], 0);
        lemma_occurs_index(t, p + 1 + body.len(), seq![close], 0);
        let st1 = st.push(open);
        assert(top_is(st1, Some(open)));
        assert(check_at(t, p + 1, st1, start) == check_at(t, p + 1 + body.len(), st1, end));
        assert(st1.drop_last() =~= st);
    }
}

proof fn lemma_join_members(parts: Seq<Seq<char>>, n: int)
    requires
        1 <= n <= parts.len(),
        forall|k: int| 0 <= k < parts.len() ==> member_checks(#[trigger] parts[k]),
    ensures
        checks_as(join(parts, seq![',', ' '], n), Expect::Key, Expect::CommaOrClose, Some('{')),
    decreases n,
{
    assert(member_checks(parts[n - 1]));
    if n == 1 {
        assert(member_checks(parts[0]));
    } else {
        lemma_join_members(parts, n - 1);
        lemma_member_comma_checks();
        assert(all_white(seq![' ']));
        lemma_white_checks(seq![' '], Expect::KeyAfterComma);
        lemma_checks_any_top(seq![' '], Expect::KeyAfterComma, Expect::KeyAfterComma, Some('{'));
        lemma_checks_concat(seq![','], seq![' '], Expect::CommaOrClose, Expect::KeyAfterComma, Expect::KeyAfterComma, Some('{'));
        assert(seq![','] + seq![' '] =~= seq![',', ' ']);
        let prev = join(parts, seq![',', ' '], n - 1);
        lemma_checks_concat(prev, seq![',', ' '], Expect::Key, Expect::CommaOrClose, Expect::KeyAfterComma, Some('{'));
        lemma_checks_concat(prev + seq![',', ' '], parts[n - 1], Expect::Key, Expect::KeyAfterComma, Expect::CommaOrClose, Some('{'));
    }
}

proof fn lemma_join_items(items: Seq<Seq<char>>, sep: Seq<char>, n: int)
    requires
        1 <= n <= items.len(),
        forall|k: int| 0 <= k < items.len() ==> item_checks(#[trigger] items[k]),
        checks_as(sep, Expect::CommaOrClose, Expect::ValueAfterComma, Some('[')),
    ensures
        checks_as(join(items, sep, n), Expect::Value, Expect::CommaOrClose, Some('[')),
    decreases n,
{
    assert(item_checks(items[n - 1]));
    if n == 1 {
        assert(item_checks(items[0]));
    } else {
        lemma_join_items(items, sep, n - 1);
        let prev = join(items, sep, n - 1);
        lemma_checks_concat(prev, sep, Expect::Value, Expect::CommaOrClose, Expect::ValueAfterComma, Some('['));
        lemma_checks_concat(prev + sep, items[n - 1], Expect::Value, Expect::ValueAfterComma, Expect::CommaOrClose, Some('['));
    }
}

/// After the first `n` lines of an indented object: still a key expected
/// before the first, a key after a comma in between, a comma or the end
/// after the last.
pub open spec fn after_members(n: int, len: int) -> Expect {
    if n == 0 {
        Expect::Key
    } else if n < len {
        Expect::KeyAfterComma
    } else {
        Expect::CommaOrClose
    }
}

proof fn lemma_pretty_members_checks(parts: Seq<Seq<char>>, n: int, pad: Seq<char>)
    requires
        0 <= n <= parts.len(),
        forall|k: int| 0 <= k < parts.len() ==> member_checks(#[trigger] parts[k]),
        all_white(pad),
    ensures
        checks_as(pretty_members(parts, n, pad), Expect::Key, after_members(n, parts.len() as int), Some('{')),
    decreases n,
{
    let len = parts.len() as int;
    if n == 0 {
        lemma_white_checks(Seq::empty(), Expect::Key);
        lemma_checks_any_top(Seq::empty(), Expect::Key, Expect::Key, Some('{'));
    } else {
        lemma_pretty_members_checks(parts, n - 1, pad);
        let prev = pretty_members(parts, n - 1, pad);
        let s0 = after_members(n - 1, len);
        lemma_white_checks(pad, s0);
        lemma_checks_any_top(pad, s0, s0, Some('{'));
        assert(member_checks(parts[n - 1]));
        lemma_checks_concat(prev, pad, Expect::Key, s0, s0, Some('{'));
        lemma_checks_concat(prev + pad, parts[n - 1], Expect::Key, s0, Expect::CommaOrClose, Some('{'));
        let c = if n < len {
            seq![',']
        } else {
            Seq::empty()
        };
        let s1 = if n < len {
            Expect::KeyAfterComma
        } else {
            Expect::CommaOrClose
        };
        if n < len {
            lemma_member_comma_checks();
        } else {
            lemma_white_checks(Seq::empty(), Expect::CommaOrClose);
            lemma_checks_any_top(Seq::empty(), Expect::CommaOrClose, Expect::CommaOrClose, Some('{'));
        }
        lemma_checks_concat(prev + pad + parts[n - 1], c, Expect::Key, Expect::CommaOrClose, s1, Some('{'));
        assert(all_white(seq!['\n']));
        lemma_white_checks(seq!['\n'], s1);
        lemma_checks_any_top(seq!['\n'], s1, s1, Some('{'));
        lemma_checks_concat(prev + pad + parts[n - 1] + c, seq!['\n'], Expect::Key, s1, s1, Some('{'));
    }
}

proof fn lemma_object_checks(parts: Seq<Seq<char>>, depth: nat, indent: Option<nat>)
    requires
        forall|k: int| 0 <= k < parts.len() ==> member_checks(#[trigger] parts[k]),
    ensures
        value_checks(json_object(parts, depth, indent)),
{
    let n = parts.len() as int;
    match indent {
        Some(sz) => {
            let pad = spaces((depth + 1) * sz);
            lemma_spaces_white((depth + 1) * sz);
            lemma_pretty_members_checks(parts, n, pad);
            let s = after_members(n, n);
            assert(s == Expect::Key || s == Expect::CommaOrClose);
            let lead = seq!['\n'];
            assert(all_white(lead));
            lemma_white_checks(lead, Expect::Key);
            lemma_checks_any_top(lead, Expect::Key, Expect::Key, Some('{'));
            lemma_spaces_white(depth * sz);
            lemma_white_checks(spaces(depth * sz), s);
            lemma_checks_any_top(spaces(depth * sz), s, s, Some('{'));
            let pm = pretty_members(parts, n, pad);
            lemma_checks_concat(lead, pm, Expect::Key, Expect::Key, s, Some('{'));
            lemma_checks_concat(lead + pm, spaces(depth * sz), Expect::Key, s, s, Some('{'));
            lemma_bracketed_checks(lead + pm + spaces(depth * sz), '{', '}', Expect::Key, s);
            assert(seq!['{'] + (lead + pm + spaces(depth * sz)) + seq!['}'] =~= json_object(parts, depth, indent));
        },
        None => {
            if n == 0 {
                lemma_white_checks(Seq::empty(), Expect::Key);
                lemma_checks_any_top(Seq::empty(), Expect::Key, Expect::Key, Some('{'));
                lemma_bracketed_checks(Seq::empty(), '{', '}', Expect::Key, Expect::Key);
                assert(seq!['{'] + Seq::<char>::empty() + seq!['}'] =~= json_object(parts, depth, indent));
            } else {
                lemma_join_members(parts, n);
                assert(all_white(seq![' ']));
                lemma_white_checks(seq![' '], Expect::Key);
                lemma_checks_any_top(seq![' '], Expect::Key, Expect::Key, Some('{'));
                lemma_white_checks(seq![' '], Expect::CommaOrClose);
                lemma_checks_any_top(seq![' '], Expect::CommaOrClose, Expect::CommaOrClose, Some('{'));
                let body = join_all(parts, seq![',', ' ']);
                lemma_checks_concat(seq![' '], body, Expect::Key, Expect::Key, Expect::CommaOrClose, Some('{'));
                lemma_checks_concat(seq![' '] + body, seq![' '], Expect::Key, Expect::CommaOrClose, Expect::CommaOrClose, Some('{'));
                lemma_bracketed_checks(seq![' '] + body + seq![' '], '{', '}', Expect::Key, Expect::CommaOrClose);
                assert(seq!['{'] + (seq![' '] + body + seq![' ']) + seq!['}'] =~= json_object(parts, depth, indent));
            }
        },
    }
}

proof fn lemma_array_checks(items: Seq<Seq<char>>, depth: nat, indent: Option<nat>)
    requires
        items.len() >= 1,
        forall|k: int| 0 <= k < items.len() ==> value_checks(#[trigger] items[k]),
    ensures
        value_checks(json_array(items, depth, indent)),
{
    let n = items.len() as int;
    assert forall|k: int| 0 <= k < items.len() implies item_checks(#[trigger] items[k]) by {
        assert(value_checks(items[k]));
        lemma_value_is_item(items[k]);
    }
    lemma_item_comma_checks();
    match indent {
        Some(sz) => {
            let item_pad = spaces((depth + 2) * sz);
            lemma_spaces_white((depth + 2) * sz);
            let lead = seq!['\n'] + item_pad;
            assert(all_white(lead)) by {
                assert forall|k: int| 0 <= k < lead.len() implies is_white_space(#[trigger] lead[k]) by {
                    if k > 0 {
                        assert(lead[k] == item_pad[k - 1]);
                    }
                }
            }
            lemma_white_checks(lead, Expect::ValueAfterComma);
            lemma_checks_any_top(lead, Expect::ValueAfterComma, Expect::ValueAfterComma, Some('['));
            lemma_checks_concat(seq![','], lead, Expect::CommaOrClose, Expect::ValueAfterComma, Expect::ValueAfterComma, Some('['));
            let sep = seq![',', '\n'] + item_pad;
            assert(seq![','] + lead =~= sep);
            lemma_join_items(items, sep, n);
            lemma_white_checks(lead, Expect::Value);
            lemma_checks_any_top(lead, Expect::Value, Expect::Value, Some('['));
            let tail = seq!['\n'] + spaces((depth + 1) * sz);
            lemma_spaces_white((depth + 1) * sz);
            assert(all_white(tail)) by {
                assert forall|k: int| 0 <= k < tail.len() implies is_white_space(#[trigger] tail[k]) by {
                    if k > 0 {
                        assert(tail[k] == spaces((depth + 1) * sz)[k - 1]);
                    }
                }
            }
            lemma_white_checks(tail, Expect::CommaOrClose);
            lemma_checks_any_top(tail, Expect::CommaOrClose, Expect::CommaOrClose, Some('['));
            let body = join_all(items, sep);
            lemma_checks_concat(lead, body, Expect::Value, Expect::Value, Expect::CommaOrClose, Some('['));
            lemma_checks_concat(lead + body, tail, Expect::Value, Expect::CommaOrClose, Expect::CommaOrClose, Some('['));
            lemma_bracketed_checks(lead + body + tail, '[', ']', Expect::Value, Expect::CommaOrClose);
            assert(seq!['['] + (lead + body + tail) + seq![']'] =~= json_array(items, depth, indent));
        },
        None => {
            assert(all_white(seq![' ']));
            lemma_white_checks(seq![' '], Expect::ValueAfterComma);
            lemma_checks_any_top(seq![' '], Expect::ValueAfterComma, Expect::ValueAfterComma, Some('['));
            lemma_checks_concat(seq![','], seq![' '], Expect::CommaOrClose, Expect::ValueAfterComma, Expect::ValueAfterComma, Some('['));
            assert(seq![','] + seq![' '] =~= seq![',', ' ']);
            lemma_join_items(items, seq![',', ' '], n);
            let body = join_all(items, seq![',', ' ']);
            lemma_bracketed_checks(body, '[', ']', Expect::Value, Expect::CommaOrClose);
        },
    }
}

// ---------------------------------------------------------------------------
// Members and elements
// ---------------------------------------------------------------------------

/// A plain name as a key, then a value: a member.
proof fn lemma_member_checks(name: Seq<char>, value: Seq<char>)
    requires
        plain_text(name),
        value_checks(value),
    ensures
        member_checks(seq!['"'] + name + seq!['"', ':', ' '] + value),
{
    let q = seq!['"'] + name + seq!['"'];
    lemma_raw_string_checks(name);
    lemma_colon_checks();
    assert(all_white(seq![' ']));
    lemma_white_checks(seq![' '], Expect::Value);
    let w = seq!['"'] + name + seq!['"', ':', ' '] + value;
    assert(q + seq![':'] + seq![' '] + value =~= w);
    let top = Some('{');
    lemma_checks_any_top(seq![':'], Expect::Colon, Expect::Value, top);
    lemma_checks_any_top(seq![' '], Expect::Value, Expect::Value, top);
    lemma_checks_any_top(value, Expect::Value, Expect::CommaOrClose, top);
    lemma_checks_concat(seq![':'], seq![' '], Expect::Colon, Expect::Value, Expect::Value, top);
    lemma_checks_concat(seq![':'] + seq![' '], value, Expect::Colon, Expect::Value, Expect::CommaOrClose, top);
    assert(q + (seq![':'] + seq![' '] + value) =~= w);
    lemma_checks_any_top(q, Expect::Key, Expect::Colon, top);
    lemma_checks_any_top(q, Expect::KeyAfterComma, Expect::Colon, top);
    lemma_checks_concat(q, seq![':'] + seq![' '] + value, Expect::Key, Expect::Colon, Expect::CommaOrClose, top);
    lemma_checks_concat(q, seq![':'] + seq![' '] + value, Expect::KeyAfterComma, Expect::Colon, Expect::CommaOrClose, top);
}

proof fn lemma_attribute_parts_check(attrs: Seq<(Seq<char>, Seq<char>)>, n: int)
    requires
        0 <= n <= attrs.len(),
        forall|i: int| 0 <= i < attrs.len() ==> plain_text(#[trigger] attrs[i].0),
    ensures
        attribute_parts(attrs, n).len() == n,
        forall|k: int| 0 <= k < n ==> member_checks(#[trigger] attribute_parts(attrs, n)[k]),
    decreases n,
{
    if n > 0 {
        lemma_attribute_parts_check(attrs, n - 1);
        let a = attrs[n - 1];
        let name = seq!['@'] + a.0;
        assert(plain_text(a.0));
        assert(plain_text(name)) by {
            assert forall|i: int| 0 <= i < name.len() implies name[i] != '"' && name[i] != '\\' by {
                if i > 0 {
                    assert(name[i] == a.0[i - 1]);
                }
            }
        }
        lemma_string_checks(a.1);
        lemma_member_checks(name, json_string(a.1));
        assert(seq!['"'] + name + seq!['"', ':', ' '] + json_string(a.1) =~= attribute_part(a));
        let ps = attribute_parts(attrs, n);
        assert forall|k: int| 0 <= k < n implies member_checks(#[trigger] ps[k]) by {
            if k < n - 1 {
                assert(ps[k] == attribute_parts(attrs, n - 1)[k]);
            }
        }
    }
}

proof fn lemma_group_parts_check(
    ch: Seq<XmlValue>,
    cj: Seq<Seq<char>>,
    n: int,
    depth: nat,
    indent: Option<nat>,
)
    requires
        0 <= n <= group_names(ch, ch.len() as int).len(),
        cj.len() == ch.len(),
        forall|i: int| 0 <= i < ch.len() && (#[trigger] ch[i]) is Element ==> value_checks(cj[i]),
        forall|i: int| 0 <= i < ch.len() ==> plain_names(#[trigger] ch[i]),
    ensures
        group_parts(ch, cj, n, depth, indent).len() == n,
        forall|k: int| 0 <= k < n ==> member_checks(#[trigger] group_parts(ch, cj, n, depth, indent)[k]),
    decreases n,
{
    if n > 0 {
        lemma_group_parts_check(ch, cj, n - 1, depth, indent);
        let names = group_names(ch, ch.len() as int);
        let x = names[n - 1];
        let idx = group_members(ch, x, ch.len() as int);
        lemma_names_have_members(ch, ch.len() as int);
        lemma_members_are_elements(ch, x, ch.len() as int);
        assert(idx.len() >= 1);
        let j0 = idx[0];
        assert(plain_names(ch[j0]));
        assert(plain_text(x));
        assert forall|k: int| 0 <= k < idx.len() implies value_checks(cj[#[trigger] idx[k]]) by {
            let j = idx[k];
            assert(ch[j] is Element);
        }
        if idx.len() > 1 {
            let items = Seq::new(idx.len(), |k: int| cj[idx[k]]);
            assert forall|k: int| 0 <= k < items.len() implies value_checks(#[trigger] items[k]) by {
                assert(value_checks(cj[idx[k]]));
            }
            lemma_array_checks(items, depth, indent);
            lemma_member_checks(x, json_array(items, depth, indent));
        } else {
            assert(value_checks(cj[idx[0]]));
            lemma_member_checks(x, cj[idx[0]]);
        }
        let ps = group_parts(ch, cj, n, depth, indent);
        assert(member_checks(ps[n - 1]));
        assert forall|k: int| 0 <= k < n implies member_checks(#[trigger] ps[k]) by {
            if k < n - 1 {
                assert(ps[k] == group_parts(ch, cj, n - 1, depth, indent)[k]);
            }
        }
    }
}

proof fn lemma_element_checks(
    attrs: Seq<(Seq<char>, Seq<char>)>,
    ch: Seq<XmlValue>,
    cj: Seq<Seq<char>>,
    depth: nat,
    indent: Option<nat>,
)
    requires
        cj.len() == ch.len(),
        forall|i: int| 0 <= i < ch.len() && (#[trigger] ch[i]) is Element ==> value_checks(cj[i]),
        forall|i: int| 0 <= i < ch.len() ==> plain_names(#[trigger] ch[i]),
        forall|i: int| 0 <= i < attrs.len() ==> plain_text(#[trigger] attrs[i].0),
    ensures
        value_checks(element_json(attrs, ch, cj, depth, indent)),
{
    let ng = group_names(ch, ch.len() as int).len() as int;
    lemma_attribute_parts_check(attrs, attrs.len() as int);
    lemma_group_parts_check(ch, cj, ng, depth, indent);
    let a = attribute_parts(attrs, attrs.len() as int);
    let g = group_parts(ch, cj, ng, depth, indent);
    let parts = a + g;
    assert forall|k: int| 0 <= k < parts.len() implies member_checks(#[trigger] parts[k]) by {
        if k < a.len() {
            assert(member_checks(a[k]));
        } else {
            assert(member_checks(g[k - a.len()]));
        }
    }
    let texts = element_texts(ch);
    let joined = join_all(texts, Seq::empty());
    if parts.len() == 0 && texts.len() > 0 {
        lemma_string_checks(joined);
    } else if texts.len() > 0 {
        let hash = seq!['#', 't', 'e', 'x', 't'];
        assert(plain_text(hash));
        lemma_string_checks(joined);
        lemma_member_checks(hash, json_string(joined));
        let tp = seq!['"', '#', 't', 'e', 'x', 't', '"', ':', ' '] + json_string(joined);
        assert(seq!['"'] + hash + seq!['"', ':', ' '] + json_string(joined) =~= tp);
        let all = parts.push(tp);
        assert forall|k: int| 0 <= k < all.len() implies member_checks(#[trigger] all[k]) by {
            if k < parts.len() {
                assert(member_checks(parts[k]));
            }
        }
        lemma_object_checks(all, depth, indent);
    } else {
        lemma_object_checks(parts, depth, indent);
    }
}

/// The JSON written for a value is checked as a value.
proof fn lemma_json_of_checks(v: XmlValue, base: nat, depth: nat, indent: Option<nat>)
    requires
        plain_names(v),
        json_of(v, base, depth, indent) is Some,
    ensures
        value_checks(json_of(v, base, depth, indent)->Some_0),
    decreases v,
{
    match v {
        XmlValue::Text(s) => {
            lemma_string_checks(s);
            assert(json_of(v, base, depth, indent)->Some_0 == json_string(s));
        },
        XmlValue::Element { name, attributes, children } => {
            let n = children.len() as int;
            let cj = children_json(children, n, base, depth, indent)->Some_0;
            lemma_children_json_facts(children, n, base, depth, indent);
            assert forall|i: int| 0 <= i < children.len() && (#[trigger] children[i]) is Element implies value_checks(
                cj[i],
            ) by {
                assert(plain_names(children[i]));
                lemma_json_of_checks(children[i], base, depth + 1, indent);
            }
            lemma_element_checks(attributes, children, cj, depth, indent);
            assert(json_of(v, base, depth, indent)->Some_0 == element_json(attributes, children, cj, depth, indent));
        },
    }
}

// ---------------------------------------------------------------------------
// The whole document
// ---------------------------------------------------------------------------

/// The JSON text that the XML to JSON conversion writes, compact or
/// indented, passes the JSON well-formedness check (so the converter takes
/// its own output back after checking it). This holds when no element or
/// attribute name of the document holds a quote or a backslash, which the
/// writer puts between quotes as they are.
pub proof fn lemma_written_json_well_formed(s: Seq<char>, indent: nat)
    requires
        xml_to_json(s, indent) is Ok,
        plain_names(xml_root(s)->Some_0),
    ensures
        json_well_formed(xml_to_json(s, indent)->Ok_0) is Ok,
{
    let ts = xml_tokens(strip_bom(s))->Ok_0;
    let root = xml_root(s)->Some_0;
    lemma_document_is_element(ts, 0);
    let name = element_name(root);
    assert(plain_text(name));
    let out = xml_to_json(s, indent)->Ok_0;
    let top = Some('{');
    let (lead, j, tail) = if indent > 0 {
        lemma_spaces_white(indent);
        (seq!['\n'] + spaces(indent), json_of(root, 1, 1, Some(indent))->Some_0, seq!['\n'])
    } else {
        (seq![' '], json_of(root, 0, 0, None)->Some_0, seq![' '])
    };
    if indent > 0 {
        lemma_json_of_checks(root, 1, 1, Some(indent));
        assert(all_white(lead)) by {
            assert forall|k: int| 0 <= k < lead.len() implies is_white_space(#[trigger] lead[k]) by {
                if k > 0 {
                    assert(lead[k] == spaces(indent)[k - 1]);
                }
            }
        }
    } else {
        lemma_json_of_checks(root, 0, 0, None);
        assert(all_white(lead));
    }
    assert(all_white(tail));
    lemma_member_checks(name, j);
    let m = seq!['"'] + name + seq!['"', ':', ' '] + j;
    lemma_white_checks(lead, Expect::Key);
    lemma_checks_any_top(lead, Expect::Key, Expect::Key, top);
    lemma_white_checks(tail, Expect::CommaOrClose);
    lemma_checks_any_top(tail, Expect::CommaOrClose, Expect::CommaOrClose, top);
    lemma_checks_concat(lead, m, Expect::Key, Expect::Key, Expect::CommaOrClose, top);
    lemma_checks_concat(lead + m, tail, Expect::Key, Expect::CommaOrClose, Expect::CommaOrClose, top);
    lemma_bracketed_checks(lead + m + tail, '{', '}', Expect::Key, Expect::CommaOrClose);
    assert(seq!['{'] + (lead + m + tail) + seq!['}'] =~= out);
    reveal(checks_as);
    reveal(check_at);
    assert(out.subrange(0, out.len() as int) =~= out);
    assert(occurs_at(out, 0, out));
    assert(check_at(out, 0, Seq::empty(), Expect::Any) == check_at(out, out.len() as int, Seq::empty(), Expect::CommaOrClose));
}

} // verus!
