//! The JSON check accepts every JSON text of RFC 8259: one value, with
//! optional white space around it and between its tokens.

use vstd::prelude::*;
use crate::json_readback::occurs_at;
use crate::json_structure::lemma_digits_run;
use crate::json_to_xml::json_lexer::{ends_literal, literal_end};
use crate::json_validation::{Expect, check_from, expects_key, expects_value, json_well_formed, string_end};
use crate::json_validity::{lemma_occurs_index, lemma_occurs_split};
use crate::text::{digits_end, float_literal, is_ascii_digit, is_white_space, number_syntax};

verus! {

// ---------------------------------------------------------------------------
// The grammar of RFC 8259
// ---------------------------------------------------------------------------

/// A JSON value as RFC 8259 writes it, with the white space it may carry
/// between its tokens.
pub enum RfcValue {
    /// `{`, the members separated by `,`, and `}`; the text is the white
    /// space inside an object without members.
    Object(Seq<RfcMember>, Seq<char>),
    /// `[`, the items separated by `,`, and `]`; the text is the white space
    /// inside an array without items.
    Array(Seq<RfcItem>, Seq<char>),
    /// A string: the characters between its quotes, escapes as written.
    Str(Seq<char>),
    /// A number, as written.
    Num(Seq<char>),
    True,
    False,
    Null,
}

/// An object member: white space, the key (the characters between its
/// quotes), white space, `:`, white space, the value, white space.
pub struct RfcMember {
    pub before: Seq<char>,
    pub key: Seq<char>,
    pub before_colon: Seq<char>,
    pub after_colon: Seq<char>,
    pub value: RfcValue,
    pub after: Seq<char>,
}

/// An array item: white space, the value, white space.
pub struct RfcItem {
    pub before: Seq<char>,
    pub value: RfcValue,
    pub after: Seq<char>,
}

/// JSON white space: space, tab, line feed and carriage return.
pub open spec fn rfc_ws(w: Seq<char>) -> bool {
    forall|i: int| 0 <= i < w.len() ==> (#[trigger] w[i] == ' ' || w[i] == '\t' || w[i] == '\n' || w[i] == '\r')
}

/// A hexadecimal digit.
pub open spec fn hex_digit(c: char) -> bool {
    ('0' <= c <= '9') || ('a' <= c <= 'f') || ('A' <= c <= 'F')
}

/// The characters of a string between its quotes: characters from U+0020
/// on other than `"` and `\`, and escapes `\"`, `\\`, `\/`, `\b`, `\f`,
/// `\n`, `\r`, `\t` and `\u` with four hexadecimal digits.
pub open spec fn rfc_string(s: Seq<char>) -> bool
    decreases s.len(),
{
    if s.len() == 0 {
        true
    } else if s[0] == '\\' {
        s.len() >= 2 && {
            let c = s[1];
            if c == '"' || c == '\\' || c == '/' || c == 'b' || c == 'f' || c == 'n' || c == 'r' || c
                == 't' {
                rfc_string(s.subrange(2, s.len() as int))
            } else if c == 'u' {
                s.len() >= 6 && hex_digit(s[2]) && hex_digit(s[3]) && hex_digit(s[4]) && hex_digit(s[5])
                    && rfc_string(s.subrange(6, s.len() as int))
            } else {
                false
            }
        }
    } else {
        (s[0] as u32) >= 0x20 && s[0] != '"' && rfc_string(s.drop_first())
    }
}

/// The end of the integer part of a number starting at `a`: `0`, or a
/// digit from `1` to `9` and more digits; `a` itself when there is none.
pub open spec fn rfc_int_end(n: Seq<char>, a: int) -> int {
    if 0 <= a < n.len() && n[a] == '0' {
        a + 1
    } else if 0 <= a < n.len() && '1' <= n[a] <= '9' {
        digits_end(n, a + 1)
    } else {
        a
    }
}

/// A number: an optional `-`, the integer part, an optional fraction (`.`
/// and at least one digit) and an optional exponent (`e` or `E`, an
/// optional sign and at least one digit), and nothing else.
pub open spec fn rfc_number(n: Seq<char>) -> bool {
    let a: int = if n.len() > 0 && n[0] == '-' {
        1
    } else {
        0
    };
    let i = rfc_int_end(n, a);
    let j = if i < n.len() && n[i] == '.' {
        digits_end(n, i + 1)
    } else {
        i
    };
    let m = if j + 1 < n.len() && (n[j + 1] == '+' || n[j + 1] == '-') {
        j + 2
    } else {
        j + 1
    };
    &&& i > a
    &&& (i < n.len() && n[i] == '.') ==> j > i + 1
    &&& j == n.len() || ((n[j] == 'e' || n[j] == 'E') && m < n.len() && digits_end(n, m) == n.len())
}

/// The text of a value.
pub open spec fn value_text(v: RfcValue) -> Seq<char>
    decreases v, 0int,
{
    match v {
        RfcValue::Object(ms, ws) => seq!['{'] + (if ms.len() == 0 {
            ws
        } else {
            members_text(ms, 0)
        }) + seq!['}'],
        RfcValue::Array(its, ws) => seq!['['] + (if its.len() == 0 {
            ws
        } else {
            items_text(its, 0)
        }) + seq![']'],
        RfcValue::Str(raw) => seq!['"'] + raw + seq!['"'],
        RfcValue::Num(n) => n,
        RfcValue::True => seq!['t', 'r', 'u', 'e'],
        RfcValue::False => seq!['f', 'a', 'l', 's', 'e'],
        RfcValue::Null => seq!['n', 'u', 'l', 'l'],
    }
}

/// The text of the members from `k` on, separated by `,`.
pub open spec fn members_text(ms: Seq<RfcMember>, k: int) -> Seq<char>
    decreases ms, ms.len() - k,
{
    if k < 0 || k >= ms.len() {
        Seq::empty()
    } else {
        ms[k].before + seq!['"'] + ms[k].key + seq!['"'] + ms[k].before_colon + seq![':']
            + ms[k].after_colon + value_text(ms[k].value) + ms[k].after + (if k + 1 < ms.len() {
            seq![','] + members_text(ms, k + 1)
        } else {
            Seq::empty()
        })
    }
}

/// The text of the items from `k` on, separated by `,`.
pub open spec fn items_text(its: Seq<RfcItem>, k: int) -> Seq<char>
    decreases its, its.len() - k,
{
    if k < 0 || k >= its.len() {
        Seq::empty()
    } else {
        its[k].before + value_text(its[k].value) + its[k].after + (if k + 1 < its.len() {
            seq![','] + items_text(its, k + 1)
        } else {
            Seq::empty()
        })
    }
}

/// Every string, number and run of white space in `v` is as RFC 8259
/// allows.
pub open spec fn rfc_valid(v: RfcValue) -> bool
    decreases v,
{
    match v {
        RfcValue::Object(ms, ws) => rfc_ws(ws) && forall|i: int|
            0 <= i < ms.len() ==> {
                &&& rfc_ws(#[trigger] ms[i].before)
                &&& rfc_string(ms[i].key)
                &&& rfc_ws(ms[i].before_colon)
                &&& rfc_ws(ms[i].after_colon)
                &&& rfc_valid(ms[i].value)
                &&& rfc_ws(ms[i].after)
            },
        RfcValue::Array(its, ws) => rfc_ws(ws) && forall|i: int|
            0 <= i < its.len() ==> {
                &&& rfc_ws(#[trigger] its[i].before)
                &&& rfc_valid(its[i].value)
                &&& rfc_ws(its[i].after)
            },
        RfcValue::Str(raw) => rfc_string(raw),
        RfcValue::Num(n) => rfc_number(n),
        _ => true,
    }
}

// ---------------------------------------------------------------------------
// White space, strings and literals under the check
// ---------------------------------------------------------------------------

proof fn lemma_ws_passes(t: Seq<char>, p: int, w: Seq<char>, st: Seq<char>, e: Expect)
    requires
        occurs_at(t, p, w),
        rfc_ws(w),
    ensures
        check_from(t, p, st, e) == check_from(t, p + w.len(), st, e),
    decreases w.len(),
{
    if w.len() > 0 {
        lemma_occurs_index(t, p, w, 0);
        assert(is_white_space(w[0]));
        assert(w =~= seq![w[0]] + w.drop_first());
        lemma_occurs_split(t, p, seq![w[0]], w.drop_first());
        assert(rfc_ws(w.drop_first())) by {
            assert forall|i: int| 0 <= i < w.drop_first().len() implies (#[trigger] w.drop_first()[i]
                == ' ' || w.drop_first()[i] == '\t' || w.drop_first()[i] == '\n'
                || w.drop_first()[i] == '\r') by {
                assert(w.drop_first()[i] == w[i + 1]);
            }
        }
        lemma_ws_passes(t, p + 1, w.drop_first(), st, e);
    }
}

proof fn lemma_rfc_string_end(t: Seq<char>, q: int, raw: Seq<char>)
    requires
        occurs_at(t, q, raw),
        q + raw.len() < t.len(),
        t[q + raw.len()] == '"',
        rfc_string(raw),
    ensures
        string_end(t, q, false) == Some(q + raw.len() + 1),
    decreases raw.len(),
{
    if raw.len() > 0 {
        lemma_occurs_index(t, q, raw, 0);
        if raw[0] == '\\' {
            lemma_occurs_index(t, q, raw, 1);
            assert(string_end(t, q, false) == string_end(t, q + 1, true));
            assert(string_end(t, q + 1, true) == string_end(t, q + 2, false));
            if raw[1] == 'u' {
                let rest = raw.subrange(6, raw.len() as int);
                assert(raw =~= raw.subrange(0, 6) + rest);
                lemma_occurs_split(t, q, raw.subrange(0, 6), rest);
                lemma_occurs_index(t, q, raw, 2);
                lemma_occurs_index(t, q, raw, 3);
                lemma_occurs_index(t, q, raw, 4);
                lemma_occurs_index(t, q, raw, 5);
                assert(string_end(t, q + 2, false) == string_end(t, q + 3, false));
                assert(string_end(t, q + 3, false) == string_end(t, q + 4, false));
                assert(string_end(t, q + 4, false) == string_end(t, q + 5, false));
                assert(string_end(t, q + 5, false) == string_end(t, q + 6, false));
                lemma_rfc_string_end(t, q + 6, rest);
            } else {
                let rest = raw.subrange(2, raw.len() as int);
                assert(raw =~= raw.subrange(0, 2) + rest);
                lemma_occurs_split(t, q, raw.subrange(0, 2), rest);
                lemma_rfc_string_end(t, q + 2, rest);
            }
        } else {
            let rest = raw.drop_first();
            assert(raw =~= seq![raw[0]] + rest);
            lemma_occurs_split(t, q, seq![raw[0]], rest);
            lemma_rfc_string_end(t, q + 1, rest);
        }
    }
}

/// A string with RFC 8259 content passes the check as a key or a value.
proof fn lemma_string_passes(t: Seq<char>, p: int, raw: Seq<char>, st: Seq<char>, e: Expect)
    requires
        0 <= p < t.len(),
        t[p] == '"',
        occurs_at(t, p + 1, raw),
        p + 1 + raw.len() < t.len(),
        t[p + 1 + raw.len()] == '"',
        rfc_string(raw),
        expects_key(e) || expects_value(e),
    ensures
        check_from(t, p, st, e) == check_from(
            t,
            p + raw.len() + 2,
            st,
            if expects_key(e) {
                Expect::Colon
            } else {
                Expect::CommaOrClose
            },
        ),
{
    lemma_rfc_string_end(t, p + 1, raw);
}

proof fn lemma_literal_end_exact(t: Seq<char>, a: int, b: int)
    requires
        0 <= a <= b <= t.len(),
        forall|k: int| a <= k < b ==> !ends_literal(#[trigger] t[k]),
        b == t.len() || ends_literal(t[b]),
    ensures
        literal_end(t, a) == b,
    decreases b - a,
{
    if a < b {
        assert(!ends_literal(t[a]));
        lemma_literal_end_exact(t, a + 1, b);
    }
}

/// The characters a number may hold: digits, `-`, `+`, `.`, `e` and `E`.
pub open spec fn number_char(c: char) -> bool {
    is_ascii_digit(c) || c == '-' || c == '+' || c == '.' || c == 'e' || c == 'E'
}

proof fn lemma_rfc_number_facts(n: Seq<char>)
    requires
        rfc_number(n),
    ensures
        n.len() > 0,
        n[0] == '-' || is_ascii_digit(n[0]),
        forall|k: int| 0 <= k < n.len() ==> number_char(#[trigger] n[k]),
        float_literal(n),
{
    let a: int = if n.len() > 0 && n[0] == '-' {
        1
    } else {
        0
    };
    let i = rfc_int_end(n, a);
    if n[a] == '0' {
        assert(i == a + 1);
    } else {
        lemma_digits_run(n, a + 1);
    }
    let frac = i < n.len() && n[i] == '.';
    let j = if frac {
        digits_end(n, i + 1)
    } else {
        i
    };
    if frac {
        lemma_digits_run(n, i + 1);
    }
    let m = if j + 1 < n.len() && (n[j + 1] == '+' || n[j + 1] == '-') {
        j + 2
    } else {
        j + 1
    };
    if j < n.len() {
        lemma_digits_run(n, m);
    }
    assert forall|k: int| 0 <= k < n.len() implies number_char(#[trigger] n[k]) by {
        if k < a {
        } else if k < i {
            if k > a {
                assert(is_ascii_digit(n[k]));
            }
        } else if frac && k < j {
            if k > i {
                assert(is_ascii_digit(n[k]));
            }
        } else if k >= m {
            assert(is_ascii_digit(n[k]));
        }
    }
    // the decimal syntax that `str::parse::<f64>` reads
    assert(digits_end(n, a) == i) by {
        if n[a] == '0' {
            if a + 1 < n.len() {
                assert(!is_ascii_digit(n[a + 1]));
            }
            assert(digits_end(n, a + 1) == a + 1);
        }
    }
    assert(number_syntax(n, a));
}

/// A number passes the check as a value when white space, `,`, `}`, `]`,
/// `:` or the end follows it.
proof fn lemma_number_passes(t: Seq<char>, p: int, n: Seq<char>, st: Seq<char>, e: Expect)
    requires
        occurs_at(t, p, n),
        rfc_number(n),
        p + n.len() == t.len() || ends_literal(t[p + n.len()]),
        expects_value(e),
    ensures
        check_from(t, p, st, e) == check_from(t, p + n.len(), st, Expect::CommaOrClose),
{
    lemma_rfc_number_facts(n);
    lemma_occurs_index(t, p, n, 0);
    assert forall|k: int| p + 1 <= k < p + n.len() implies !ends_literal(#[trigger] t[k]) by {
        lemma_occurs_index(t, p, n, k - p);
        assert(number_char(n[k - p]));
    }
    lemma_literal_end_exact(t, p + 1, p + n.len());
    assert(t.subrange(p, p + n.len()) == n);
    assert(!is_white_space(t[p]));
}

/// `true`, `false` and `null` pass the check as values when white space,
/// `,`, `}`, `]`, `:` or the end follows them.
proof fn lemma_word_passes(t: Seq<char>, p: int, w: Seq<char>, st: Seq<char>, e: Expect)
    requires
        occurs_at(t, p, w),
        w == seq!['t', 'r', 'u', 'e'] || w == seq!['f', 'a', 'l', 's', 'e'] || w == seq![
            'n',
            'u',
            'l',
            'l',
        ],
        p + w.len() == t.len() || ends_literal(t[p + w.len()]),
        expects_value(e),
    ensures
        check_from(t, p, st, e) == check_from(t, p + w.len(), st, Expect::CommaOrClose),
{
    reveal_strlit("true");
    reveal_strlit("false");
    reveal_strlit("null");
    lemma_occurs_index(t, p, w, 0);
    assert forall|k: int| p + 1 <= k < p + w.len() implies !ends_literal(#[trigger] t[k]) by {
        lemma_occurs_index(t, p, w, k - p);
    }
    lemma_literal_end_exact(t, p + 1, p + w.len());
    assert(t.subrange(p, p + w.len()) == w);
    assert(!is_white_space(t[p]));
    assert(w == "true"@ || w == "false"@ || w == "null"@);
    let c = t[p];
    assert(c == 't' || c == 'f' || c == 'n');
    assert(p < t.len());
    assert(literal_end(t, p + 1) == p + w.len());
}

// ---------------------------------------------------------------------------
// Objects, arrays and whole texts under the check
// ---------------------------------------------------------------------------

/// The check may stand at `i` after a value: the end of the text, or a
/// character that ends a bare literal.
pub open spec fn ends_ok(t: Seq<char>, i: int) -> bool {
    i >= t.len() || (0 <= i && ends_literal(t[i]))
}

proof fn lemma_value_passes(v: RfcValue, t: Seq<char>, p: int, st: Seq<char>, e: Expect)
    requires
        rfc_valid(v),
        occurs_at(t, p, value_text(v)),
        ends_ok(t, p + value_text(v).len()),
        expects_value(e),
    ensures
        check_from(t, p, st, e) == check_from(t, p + value_text(v).len(), st, Expect::CommaOrClose),
    decreases v, 0int,
{
    let vt = value_text(v);
    match v {
        RfcValue::Object(ms, ws) => {
            let st2 = st.push('{');
            let body = if ms.len() == 0 {
                ws
            } else {
                members_text(ms, 0)
            };
            assert(vt == seq!['{'] + body + seq!['}']);
            lemma_occurs_split(t, p, seq!['{'] + body, seq!['}']);
            lemma_occurs_split(t, p, seq!['{'], body);
            lemma_occurs_index(t, p, vt, 0);
            let q = p + 1 + body.len();
            lemma_occurs_index(t, p, vt, 1 + body.len() as int);
            assert(t[q] == '}');
            assert(check_from(t, p, st, e) == check_from(t, p + 1, st2, Expect::Key));
            assert(st2.drop_last() =~= st);
            if ms.len() == 0 {
                lemma_ws_passes(t, p + 1, ws, st2, Expect::Key);
                assert(check_from(t, q, st2, Expect::Key) == check_from(
                    t,
                    q + 1,
                    st,
                    Expect::CommaOrClose,
                ));
            } else {
                lemma_members_passes(ms, ws, 0, t, p + 1, st2, Expect::Key);
                assert(check_from(t, q, st2, Expect::CommaOrClose) == check_from(
                    t,
                    q + 1,
                    st,
                    Expect::CommaOrClose,
                ));
            }
        },
        RfcValue::Array(its, ws) => {
            let st2 = st.push('[');
            let body = if its.len() == 0 {
                ws
            } else {
                items_text(its, 0)
            };
            assert(vt == seq!['['] + body + seq![']']);
            lemma_occurs_split(t, p, seq!['['] + body, seq![']']);
            lemma_occurs_split(t, p, seq!['['], body);
            lemma_occurs_index(t, p, vt, 0);
            let q = p + 1 + body.len();
            lemma_occurs_index(t, p, vt, 1 + body.len() as int);
            assert(t[q] == ']');
            assert(check_from(t, p, st, e) == check_from(t, p + 1, st2, Expect::Value));
            assert(st2.drop_last() =~= st);
            if its.len() == 0 {
                lemma_ws_passes(t, p + 1, ws, st2, Expect::Value);
                assert(check_from(t, q, st2, Expect::Value) == check_from(
                    t,
                    q + 1,
                    st,
                    Expect::CommaOrClose,
                ));
            } else {
                lemma_items_passes(its, ws, 0, t, p + 1, st2, Expect::Value);
                assert(check_from(t, q, st2, Expect::CommaOrClose) == check_from(
                    t,
                    q + 1,
                    st,
                    Expect::CommaOrClose,
                ));
            }
        },
        RfcValue::Str(raw) => {
            lemma_occurs_split(t, p, seq!['"'] + raw, seq!['"']);
            lemma_occurs_split(t, p, seq!['"'], raw);
            lemma_occurs_index(t, p, vt, 0);
            lemma_occurs_index(t, p, vt, raw.len() as int + 1);
            lemma_string_passes(t, p, raw, st, e);
        },
        RfcValue::Num(n) => {
            lemma_number_passes(t, p, n, st, e);
        },
        _ => {
            lemma_word_passes(t, p, vt, st, e);
        },
    }
}

proof fn lemma_members_passes(
    ms: Seq<RfcMember>,
    ws: Seq<char>,
    k: int,
    t: Seq<char>,
    q: int,
    st: Seq<char>,
    e: Expect,
)
    requires
        rfc_valid(RfcValue::Object(ms, ws)),
        0 <= k < ms.len(),
        occurs_at(t, q, members_text(ms, k)),
        q + members_text(ms, k).len() < t.len(),
        t[q + members_text(ms, k).len()] == '}',
        st.len() > 0,
        st.last() == '{',
        expects_key(e),
    ensures
        check_from(t, q, st, e) == check_from(
            t,
            q + members_text(ms, k).len(),
            st,
            Expect::CommaOrClose,
        ),
    decreases ms, ms.len() - k,
{
    let m = ms[k];
    assert(rfc_ws(m.before));
    let vt = value_text(m.value);
    let rest = if k + 1 < ms.len() {
        seq![','] + members_text(ms, k + 1)
    } else {
        Seq::empty()
    };
    let x0 = m.before;
    let x1 = x0 + seq!['"'];
    let x2 = x1 + m.key;
    let x3 = x2 + seq!['"'];
    let x4 = x3 + m.before_colon;
    let x5 = x4 + seq![':'];
    let x6 = x5 + m.after_colon;
    let x7 = x6 + vt;
    let x8 = x7 + m.after;
    assert(members_text(ms, k) == x8 + rest);
    lemma_occurs_split(t, q, x8, rest);
    lemma_occurs_split(t, q, x7, m.after);
    lemma_occurs_split(t, q, x6, vt);
    lemma_occurs_split(t, q, x5, m.after_colon);
    lemma_occurs_split(t, q, x4, seq![':']);
    lemma_occurs_split(t, q, x3, m.before_colon);
    lemma_occurs_split(t, q, x2, seq!['"']);
    lemma_occurs_split(t, q, x1, m.key);
    lemma_occurs_split(t, q, x0, seq!['"']);
    lemma_occurs_index(t, q + x0.len(), seq!['"'], 0);
    lemma_occurs_index(t, q + x2.len(), seq!['"'], 0);
    lemma_occurs_index(t, q + x4.len(), seq![':'], 0);
    let end = q + members_text(ms, k).len();
    let q8 = q + x8.len();
    // white space, the key, white space, the colon, white space
    lemma_ws_passes(t, q, x0, st, e);
    lemma_string_passes(t, q + x0.len(), m.key, st, e);
    lemma_ws_passes(t, q + x3.len(), m.before_colon, st, Expect::Colon);
    assert(check_from(t, q + x4.len(), st, Expect::Colon) == check_from(
        t,
        q + x5.len(),
        st,
        Expect::Value,
    ));
    lemma_ws_passes(t, q + x5.len(), m.after_colon, st, Expect::Value);
    // the value, then white space
    if m.after.len() > 0 {
        lemma_occurs_index(t, q + x7.len(), m.after, 0);
    } else if k + 1 < ms.len() {
        lemma_occurs_index(t, q8, rest, 0);
    }
    lemma_value_passes(m.value, t, q + x6.len(), st, Expect::Value);
    lemma_ws_passes(t, q + x7.len(), m.after, st, Expect::CommaOrClose);
    if k + 1 < ms.len() {
        lemma_occurs_index(t, q8, rest, 0);
        lemma_occurs_split(t, q8, seq![','], members_text(ms, k + 1));
        assert(check_from(t, q8, st, Expect::CommaOrClose) == check_from(
            t,
            q8 + 1,
            st,
            Expect::KeyAfterComma,
        ));
        lemma_members_passes(ms, ws, k + 1, t, q8 + 1, st, Expect::KeyAfterComma);
    }
}

proof fn lemma_items_passes(
    its: Seq<RfcItem>,
    ws: Seq<char>,
    k: int,
    t: Seq<char>,
    q: int,
    st: Seq<char>,
    e: Expect,
)
    requires
        rfc_valid(RfcValue::Array(its, ws)),
        0 <= k < its.len(),
        occurs_at(t, q, items_text(its, k)),
        q + items_text(its, k).len() < t.len(),
        t[q + items_text(its, k).len()] == ']',
        st.len() > 0,
        st.last() == '[',
        expects_value(e),
    ensures
        check_from(t, q, st, e) == check_from(
            t,
            q + items_text(its, k).len(),
            st,
            Expect::CommaOrClose,
        ),
    decreases its, its.len() - k,
{
    let it = its[k];
    assert(rfc_ws(it.before));
    let vt = value_text(it.value);
    let rest = if k + 1 < its.len() {
        seq![','] + items_text(its, k + 1)
    } else {
        Seq::empty()
    };
    let x0 = it.before;
    let x1 = x0 + vt;
    let x2 = x1 + it.after;
    assert(items_text(its, k) == x2 + rest);
    lemma_occurs_split(t, q, x2, rest);
    lemma_occurs_split(t, q, x1, it.after);
    lemma_occurs_split(t, q, x0, vt);
    let q2 = q + x2.len();
    lemma_ws_passes(t, q, x0, st, e);
    if it.after.len() > 0 {
        lemma_occurs_index(t, q + x1.len(), it.after, 0);
    } else if k + 1 < its.len() {
        lemma_occurs_index(t, q2, rest, 0);
    }
    lemma_value_passes(it.value, t, q + x0.len(), st, e);
    lemma_ws_passes(t, q + x1.len(), it.after, st, Expect::CommaOrClose);
    if k + 1 < its.len() {
        lemma_occurs_index(t, q2, rest, 0);
        lemma_occurs_split(t, q2, seq![','], items_text(its, k + 1));
        assert(check_from(t, q2, st, Expect::CommaOrClose) == check_from(
            t,
            q2 + 1,
            st,
            Expect::ValueAfterComma,
        ));
        lemma_items_passes(its, ws, k + 1, t, q2 + 1, st, Expect::ValueAfterComma);
    }
}

/// The JSON check accepts every JSON text of RFC 8259: white space, one
/// value (see [`RfcValue`], [`value_text`], [`rfc_valid`]) and white space.
pub proof fn lemma_rfc_text_accepted(before: Seq<char>, v: RfcValue, after: Seq<char>)
    requires
        rfc_ws(before),
        rfc_valid(v),
        rfc_ws(after),
    ensures
        json_well_formed(before + value_text(v) + after) is Ok,
{
    let vt = value_text(v);
    let t = before + vt + after;
    assert(t.subrange(0, t.len() as int) =~= t);
    lemma_occurs_split(t, 0, before + vt, after);
    lemma_occurs_split(t, 0, before, vt);
    let st = Seq::<char>::empty();
    lemma_ws_passes(t, 0, before, st, Expect::Any);
    if after.len() > 0 {
        lemma_occurs_index(t, before.len() as int + vt.len(), after, 0);
    }
    lemma_value_passes(v, t, before.len() as int, st, Expect::Any);
    lemma_ws_passes(t, before.len() as int + vt.len(), after, st, Expect::CommaOrClose);
    assert(check_from(t, t.len() as int, st, Expect::CommaOrClose) is Ok);
}

} // verus!
