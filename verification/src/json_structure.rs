//! What the JSON well-formedness check guarantees of the text it accepts:
//! its brackets are balanced and its strings closed.

use vstd::prelude::*;
use crate::json_to_xml::json_lexer::{ends_literal, literal_end};
use crate::json_validation::{Expect, check_from, json_well_formed, string_end};
use crate::text::{
    ascii_lower, digits_end, eq_ignore_ascii_case, exponent_ok, float_literal, is_ascii_digit,
    is_white_space, number_syntax, skip_white_space,
};

verus! {

// ---------------------------------------------------------------------------
// Brackets and strings
// ---------------------------------------------------------------------------

/// A bracket or a quote.
pub open spec fn structural(c: char) -> bool {
    c == '{' || c == '[' || c == '}' || c == ']' || c == '"'
}

/// The brackets of `s` from `p` on, outside string literals, with the
/// brackets `stack` open before `p`: `Some` of the brackets still open at
/// the end when every closing bracket closes the innermost open one of its
/// kind and every string literal (a `"` up to the next `"` that no
/// backslash escapes) is closed; `None` otherwise.
pub open spec fn bracket_scan(s: Seq<char>, p: int, stack: Seq<char>) -> Option<Seq<char>>
    decreases s.len() - p,
{
    if p < 0 || p >= s.len() {
        Some(stack)
    } else if s[p] == '"' {
        match string_end(s, p + 1, false) {
            None => None,
            Some(e) => if p < e <= s.len() {
                bracket_scan(s, e, stack)
            } else {
                None
            },
        }
    } else if s[p] == '{' || s[p] == '[' {
        bracket_scan(s, p + 1, stack.push(s[p]))
    } else if s[p] == '}' || s[p] == ']' {
        let open = if s[p] == '}' {
            '{'
        } else {
            '['
        };
        if stack.len() > 0 && stack.last() == open {
            bracket_scan(s, p + 1, stack.drop_last())
        } else {
            None
        }
    } else {
        bracket_scan(s, p + 1, stack)
    }
}

/// Outside string literals, the brackets of `s` are balanced and properly
/// nested, and every string literal is closed.
pub open spec fn brackets_balanced(s: Seq<char>) -> bool {
    bracket_scan(s, 0, Seq::empty()) == Some(Seq::<char>::empty())
}

pub(crate) proof fn lemma_string_end_range(s: Seq<char>, i: int, escaped: bool)
    requires
        0 <= i,
    ensures
        string_end(s, i, escaped) matches Some(e) ==> i < e <= s.len(),
    decreases s.len() - i,
{
    if 0 <= i < s.len() {
        if escaped {
            lemma_string_end_range(s, i + 1, false);
        } else if s[i] == '\\' {
            lemma_string_end_range(s, i + 1, true);
        } else if s[i] != '"' {
            lemma_string_end_range(s, i + 1, false);
        }
    }
}

pub(crate) proof fn lemma_literal_end_range(s: Seq<char>, p: int)
    requires
        0 <= p <= s.len(),
    ensures
        p <= literal_end(s, p) <= s.len(),
        forall|k: int| p <= k < literal_end(s, p) ==> !ends_literal(#[trigger] s[k]),
    decreases s.len() - p,
{
    if p < s.len() && !ends_literal(s[p]) {
        lemma_literal_end_range(s, p + 1);
    }
}

/// Characters that are not brackets or quotes pass without changing the
/// open brackets.
proof fn lemma_scan_plain(s: Seq<char>, p: int, e: int, stack: Seq<char>)
    requires
        0 <= p <= e <= s.len(),
        forall|k: int| p <= k < e ==> !structural(#[trigger] s[k]),
    ensures
        bracket_scan(s, p, stack) == bracket_scan(s, e, stack),
    decreases e - p,
{
    if p < e {
        assert(!structural(s[p]));
        lemma_scan_plain(s, p + 1, e, stack);
    }
}

pub(crate) proof fn lemma_digits_run(s: Seq<char>, i: int)
    requires
        0 <= i <= s.len(),
    ensures
        i <= digits_end(s, i) <= s.len(),
        forall|k: int| i <= k < digits_end(s, i) ==> is_ascii_digit(#[trigger] s[k]),
    decreases s.len() - i,
{
    if i < s.len() && is_ascii_digit(s[i]) {
        lemma_digits_run(s, i + 1);
    }
}

/// A character that may stand in a bare literal the check accepts: no
/// opening bracket and no quote.
pub open spec fn literal_char(c: char) -> bool {
    c != '{' && c != '[' && c != '"'
}

proof fn lemma_number_chars(lit: Seq<char>, b: int)
    requires
        0 <= b <= lit.len(),
        forall|k: int| 0 <= k < b ==> literal_char(#[trigger] lit[k]),
        number_syntax(lit, b),
    ensures
        forall|k: int| 0 <= k < lit.len() ==> literal_char(#[trigger] lit[k]),
{
    let i = digits_end(lit, b);
    lemma_digits_run(lit, b);
    let j = if i < lit.len() && lit[i] == '.' {
        lemma_digits_run(lit, i + 1);
        digits_end(lit, i + 1)
    } else {
        i
    };
    assert(exponent_ok(lit, j));
    if j < lit.len() {
        let m = if j + 1 < lit.len() && (lit[j + 1] == '+' || lit[j + 1] == '-') {
            j + 2
        } else {
            j + 1
        };
        lemma_digits_run(lit, m);
        assert forall|k: int| 0 <= k < lit.len() implies literal_char(#[trigger] lit[k]) by {
            if k >= m {
                assert(is_ascii_digit(lit[k]));
            } else if k > i && k < j {
                assert(is_ascii_digit(lit[k]));
            } else if b <= k < i {
                assert(is_ascii_digit(lit[k]));
            }
        }
    } else {
        assert forall|k: int| 0 <= k < lit.len() implies literal_char(#[trigger] lit[k]) by {
            if k > i && k < j {
                assert(is_ascii_digit(lit[k]));
            } else if b <= k < i {
                assert(is_ascii_digit(lit[k]));
            }
        }
    }
}

proof fn lemma_word_chars(lit: Seq<char>, b: int, word: Seq<char>)
    requires
        0 <= b <= lit.len(),
        forall|k: int| 0 <= k < b ==> literal_char(#[trigger] lit[k]),
        eq_ignore_ascii_case(lit.subrange(b, lit.len() as int), word),
        forall|k: int| 0 <= k < word.len() ==> 'a' <= #[trigger] word[k] <= 'z',
    ensures
        forall|k: int| 0 <= k < lit.len() ==> literal_char(#[trigger] lit[k]),
{
    let body = lit.subrange(b, lit.len() as int);
    assert forall|k: int| 0 <= k < lit.len() implies literal_char(#[trigger] lit[k]) by {
        if k >= b {
            assert(body[k - b] == lit[k]);
            assert(ascii_lower(body[k - b]) == ascii_lower(word[k - b]));
        }
    }
}

/// The bare literals the check accepts hold no opening bracket and no
/// quote.
proof fn lemma_literal_chars(lit: Seq<char>)
    requires
        accepted_literal(lit),
    ensures
        forall|k: int| 0 <= k < lit.len() ==> literal_char(#[trigger] lit[k]),
{
    reveal_strlit("true");
    reveal_strlit("false");
    reveal_strlit("null");
    reveal_strlit("inf");
    reveal_strlit("infinity");
    reveal_strlit("nan");
    if lit == "true"@ || lit == "false"@ || lit == "null"@ {
    } else {
        let b: int = if lit.len() > 0 && (lit[0] == '+' || lit[0] == '-') {
            1
        } else {
            0
        };
        let body = lit.subrange(b, lit.len() as int);
        if eq_ignore_ascii_case(body, "inf"@) {
            lemma_word_chars(lit, b, "inf"@);
        } else if eq_ignore_ascii_case(body, "infinity"@) {
            lemma_word_chars(lit, b, "infinity"@);
        } else if eq_ignore_ascii_case(body, "nan"@) {
            lemma_word_chars(lit, b, "nan"@);
        } else {
            lemma_number_chars(lit, b);
        }
    }
}

proof fn lemma_check_brackets(s: Seq<char>, p: int, stack: Seq<char>, expect: Expect)
    requires
        0 <= p,
    ensures
        check_from(s, p, stack, expect) is Ok ==> bracket_scan(s, p, stack) == Some(
            Seq::<char>::empty(),
        ),
    decreases s.len() - p,
{
    if p < s.len() {
        let c = s[p];
        if is_white_space(c) {
            lemma_check_brackets(s, p + 1, stack, expect);
        } else if c == '{' {
            lemma_check_brackets(s, p + 1, stack.push('{'), Expect::Key);
        } else if c == '[' {
            lemma_check_brackets(s, p + 1, stack.push('['), Expect::Value);
        } else if c == '}' || c == ']' {
            lemma_check_brackets(s, p + 1, stack.drop_last(), Expect::CommaOrClose);
        } else if c == ':' {
            lemma_check_brackets(s, p + 1, stack, Expect::Value);
        } else if c == ',' {
            lemma_check_brackets(
                s,
                p + 1,
                stack,
                if stack.len() > 0 && stack.last() == '{' {
                    Expect::KeyAfterComma
                } else {
                    Expect::ValueAfterComma
                },
            );
        } else if c == '"' {
            lemma_string_end_range(s, p + 1, false);
            if let Some(e) = string_end(s, p + 1, false) {
                lemma_check_brackets(s, e, stack, Expect::Colon);
                lemma_check_brackets(s, e, stack, Expect::CommaOrClose);
            }
        } else {
            let e = literal_end(s, p + 1);
            lemma_literal_end_range(s, p + 1);
            let lit = s.subrange(p, e);
            lemma_check_brackets(s, e, stack, Expect::CommaOrClose);
            if check_from(s, p, stack, expect) is Ok {
                lemma_literal_chars(lit);
                assert forall|k: int| p <= k < e implies !structural(#[trigger] s[k]) by {
                    assert(lit[k - p] == s[k]);
                    assert(literal_char(lit[k - p]));
                }
                lemma_scan_plain(s, p, e, stack);
            }
        }
    }
}

// ---------------------------------------------------------------------------
// Commas and bare literals
// ---------------------------------------------------------------------------

/// From `p` on, outside string literals, no `,` is followed, white space
/// skipped, by `,`, `}` or `]`; `false` also when a string literal is not
/// closed.
pub open spec fn comma_scan(s: Seq<char>, p: int) -> bool
    decreases s.len() - p,
{
    if p < 0 || p >= s.len() {
        true
    } else if s[p] == '"' {
        match string_end(s, p + 1, false) {
            None => false,
            Some(e) => p < e <= s.len() && comma_scan(s, e),
        }
    } else if s[p] == ',' {
        let q = skip_white_space(s, p + 1);
        !(q < s.len() && (s[q] == ',' || s[q] == '}' || s[q] == ']')) && comma_scan(s, p + 1)
    } else {
        comma_scan(s, p + 1)
    }
}

/// A character that starts a bare literal: none of white space, brackets,
/// quotes, `:` and `,`.
pub open spec fn starts_literal(c: char) -> bool {
    !is_white_space(c) && !structural(c) && c != ':' && c != ','
}

/// A bare literal the check accepts: `true`, `false`, `null`, or a text that
/// `str::parse::<f64>` reads.
pub open spec fn accepted_literal(lit: Seq<char>) -> bool {
    lit == "true"@ || lit == "false"@ || lit == "null"@ || float_literal(lit)
}

/// From `p` on, outside string literals, every bare literal (from a
/// character that starts one up to white space, `,`, `}`, `]`, `:` or the
/// end) is accepted; `false` also when a string literal is not closed.
pub open spec fn literal_scan(s: Seq<char>, p: int) -> bool
    decreases s.len() - p,
{
    if p < 0 || p >= s.len() {
        true
    } else if s[p] == '"' {
        match string_end(s, p + 1, false) {
            None => false,
            Some(e) => p < e <= s.len() && literal_scan(s, e),
        }
    } else if starts_literal(s[p]) {
        let e = literal_end(s, p + 1);
        p < e <= s.len() && accepted_literal(s.subrange(p, e)) && literal_scan(s, e)
    } else {
        literal_scan(s, p + 1)
    }
}

proof fn lemma_after_comma(s: Seq<char>, q: int, stack: Seq<char>, expect: Expect)
    requires
        0 <= q,
        expect == Expect::KeyAfterComma || expect == Expect::ValueAfterComma,
    ensures
        check_from(s, q, stack, expect) is Ok ==> {
            let k = skip_white_space(s, q);
            !(k < s.len() && (s[k] == ',' || s[k] == '}' || s[k] == ']'))
        },
    decreases s.len() - q,
{
    if q < s.len() && is_white_space(s[q]) {
        lemma_after_comma(s, q + 1, stack, expect);
    }
}

proof fn lemma_comma_scan_plain(s: Seq<char>, p: int, e: int)
    requires
        0 <= p <= e <= s.len(),
        forall|k: int| p <= k < e ==> (#[trigger] s[k]) != '"' && s[k] != ',',
    ensures
        comma_scan(s, p) == comma_scan(s, e),
    decreases e - p,
{
    if p < e {
        assert(s[p] != '"' && s[p] != ',');
        lemma_comma_scan_plain(s, p + 1, e);
    }
}

proof fn lemma_check_commas(s: Seq<char>, p: int, stack: Seq<char>, expect: Expect)
    requires
        0 <= p,
    ensures
        check_from(s, p, stack, expect) is Ok ==> comma_scan(s, p),
    decreases s.len() - p,
{
    if p < s.len() {
        let c = s[p];
        if is_white_space(c) {
            lemma_check_commas(s, p + 1, stack, expect);
        } else if c == '{' {
            lemma_check_commas(s, p + 1, stack.push('{'), Expect::Key);
        } else if c == '[' {
            lemma_check_commas(s, p + 1, stack.push('['), Expect::Value);
        } else if c == '}' || c == ']' {
            lemma_check_commas(s, p + 1, stack.drop_last(), Expect::CommaOrClose);
        } else if c == ':' {
            lemma_check_commas(s, p + 1, stack, Expect::Value);
        } else if c == ',' {
            let next = if stack.len() > 0 && stack.last() == '{' {
                Expect::KeyAfterComma
            } else {
                Expect::ValueAfterComma
            };
            lemma_check_commas(s, p + 1, stack, next);
            lemma_after_comma(s, p + 1, stack, next);
        } else if c == '"' {
            lemma_string_end_range(s, p + 1, false);
            if let Some(e) = string_end(s, p + 1, false) {
                lemma_check_commas(s, e, stack, Expect::Colon);
                lemma_check_commas(s, e, stack, Expect::CommaOrClose);
            }
        } else {
            let e = literal_end(s, p + 1);
            lemma_literal_end_range(s, p + 1);
            let lit = s.subrange(p, e);
            lemma_check_commas(s, e, stack, Expect::CommaOrClose);
            if check_from(s, p, stack, expect) is Ok {
                lemma_literal_chars(lit);
                assert forall|k: int| p <= k < e implies (#[trigger] s[k]) != '"' && s[k] != ',' by {
                    assert(lit[k - p] == s[k]);
                    assert(literal_char(lit[k - p]));
                }
                lemma_comma_scan_plain(s, p, e);
            }
        }
    }
}

proof fn lemma_check_literals(s: Seq<char>, p: int, stack: Seq<char>, expect: Expect)
    requires
        0 <= p,
    ensures
        check_from(s, p, stack, expect) is Ok ==> literal_scan(s, p),
    decreases s.len() - p,
{
    if p < s.len() {
        let c = s[p];
        if is_white_space(c) {
            lemma_check_literals(s, p + 1, stack, expect);
        } else if c == '{' {
            lemma_check_literals(s, p + 1, stack.push('{'), Expect::Key);
        } else if c == '[' {
            lemma_check_literals(s, p + 1, stack.push('['), Expect::Value);
        } else if c == '}' || c == ']' {
            lemma_check_literals(s, p + 1, stack.drop_last(), Expect::CommaOrClose);
        } else if c == ':' {
            lemma_check_literals(s, p + 1, stack, Expect::Value);
        } else if c == ',' {
            lemma_check_literals(
                s,
                p + 1,
                stack,
                if stack.len() > 0 && stack.last() == '{' {
                    Expect::KeyAfterComma
                } else {
                    Expect::ValueAfterComma
                },
            );
        } else if c == '"' {
            lemma_string_end_range(s, p + 1, false);
            if let Some(e) = string_end(s, p + 1, false) {
                lemma_check_literals(s, e, stack, Expect::Colon);
                lemma_check_literals(s, e, stack, Expect::CommaOrClose);
            }
        } else {
            lemma_literal_end_range(s, p + 1);
            lemma_check_literals(s, literal_end(s, p + 1), stack, Expect::CommaOrClose);
        }
    }
}

/// What the JSON check accepts has no empty slot in a list: outside string
/// literals, no `,` is followed, white space skipped, by `,`, `}` or `]`.
pub proof fn lemma_accepted_json_commas(s: Seq<char>)
    ensures
        json_well_formed(s) is Ok ==> comma_scan(s, 0),
{
    lemma_check_commas(s, 0, Seq::empty(), Expect::Any);
}

/// What the JSON check accepts has only accepted bare literals: outside
/// string literals, every bare literal is `true`, `false`, `null` or a text
/// that `str::parse::<f64>` reads.
pub proof fn lemma_accepted_json_literals(s: Seq<char>)
    ensures
        json_well_formed(s) is Ok ==> literal_scan(s, 0),
{
    lemma_check_literals(s, 0, Seq::empty(), Expect::Any);
}

/// What the JSON check accepts has balanced brackets: outside string
/// literals, every `}` or `]` closes the innermost open `{` or `[`, and
/// everything opened is closed; and every string literal is closed.
pub proof fn lemma_accepted_json_balanced(s: Seq<char>)
    ensures
        json_well_formed(s) is Ok ==> brackets_balanced(s),
{
    lemma_check_brackets(s, 0, Seq::empty(), Expect::Any);
}

// ---------------------------------------------------------------------------
// Values are separated
// ---------------------------------------------------------------------------

/// From `p` on, outside string literals, no value is followed directly by
/// another: after a string, a bare literal, `}` or `]` (`after_value`), the
/// next character other than white space is neither a quote nor the start
/// of a bare literal; `false` also when a string literal is not closed.
pub open spec fn separation_scan(s: Seq<char>, p: int, after_value: bool) -> bool
    decreases s.len() - p,
{
    if p < 0 || p >= s.len() {
        true
    } else if is_white_space(s[p]) {
        separation_scan(s, p + 1, after_value)
    } else if s[p] == '"' {
        !after_value && match string_end(s, p + 1, false) {
            None => false,
            Some(e) => p < e <= s.len() && separation_scan(s, e, true),
        }
    } else if starts_literal(s[p]) {
        let e = literal_end(s, p + 1);
        !after_value && p < e <= s.len() && separation_scan(s, e, true)
    } else if s[p] == '}' || s[p] == ']' {
        separation_scan(s, p + 1, true)
    } else {
        separation_scan(s, p + 1, false)
    }
}

proof fn lemma_check_separation(s: Seq<char>, p: int, stack: Seq<char>, expect: Expect, after_value: bool)
    requires
        0 <= p,
        after_value ==> expect == Expect::Colon || expect == Expect::CommaOrClose,
    ensures
        check_from(s, p, stack, expect) is Ok ==> separation_scan(s, p, after_value),
    decreases s.len() - p,
{
    if p < s.len() {
        let c = s[p];
        if is_white_space(c) {
            lemma_check_separation(s, p + 1, stack, expect, after_value);
        } else if c == '{' {
            lemma_check_separation(s, p + 1, stack.push('{'), Expect::Key, false);
        } else if c == '[' {
            lemma_check_separation(s, p + 1, stack.push('['), Expect::Value, false);
        } else if c == '}' || c == ']' {
            lemma_check_separation(s, p + 1, stack.drop_last(), Expect::CommaOrClose, true);
        } else if c == ':' {
            lemma_check_separation(s, p + 1, stack, Expect::Value, false);
        } else if c == ',' {
            lemma_check_separation(
                s,
                p + 1,
                stack,
                if stack.len() > 0 && stack.last() == '{' {
                    Expect::KeyAfterComma
                } else {
                    Expect::ValueAfterComma
                },
                false,
            );
        } else if c == '"' {
            lemma_string_end_range(s, p + 1, false);
            if let Some(e) = string_end(s, p + 1, false) {
                lemma_check_separation(s, e, stack, Expect::Colon, true);
                lemma_check_separation(s, e, stack, Expect::CommaOrClose, true);
            }
        } else {
            lemma_literal_end_range(s, p + 1);
            lemma_check_separation(s, literal_end(s, p + 1), stack, Expect::CommaOrClose, true);
        }
    }
}

/// What the JSON check accepts never holds two values with no comma
/// between them: outside string literals, a string, a bare literal, `}` or
/// `]` is never followed, white space skipped, by a string or a bare
/// literal. So `[1 2]`, `{"a": 1 "b": 2}` and `"x" "y"` are rejected.
pub proof fn lemma_accepted_json_separated(s: Seq<char>)
    ensures
        json_well_formed(s) is Ok ==> separation_scan(s, 0, false),
{
    lemma_check_separation(s, 0, Seq::empty(), Expect::Any, false);
}

// ---------------------------------------------------------------------------
// Object members are keyed
// ---------------------------------------------------------------------------

/// From `p` on, outside string literals, with the brackets `stack` open:
/// where a key is due (`at_key`: after `{`, or after `,` inside an object)
/// there is no bare literal, `,` or `:`; a string read there is a key, and
/// after a key (`after_key`) the next character other than white space is
/// `:`; and a `:` comes only after a key. `false` also when a string
/// literal is not closed.
pub open spec fn member_scan(s: Seq<char>, p: int, stack: Seq<char>, at_key: bool, after_key: bool) -> bool
    decreases s.len() - p,
{
    if p < 0 || p >= s.len() {
        true
    } else if is_white_space(s[p]) {
        member_scan(s, p + 1, stack, at_key, after_key)
    } else if s[p] == '"' {
        !after_key && match string_end(s, p + 1, false) {
            None => false,
            Some(e) => p < e <= s.len() && member_scan(s, e, stack, false, at_key),
        }
    } else if s[p] == ':' {
        after_key && member_scan(s, p + 1, stack, false, false)
    } else if s[p] == '{' || s[p] == '[' {
        member_scan(s, p + 1, stack.push(s[p]), s[p] == '{', false)
    } else if s[p] == '}' || s[p] == ']' {
        !after_key && member_scan(s, p + 1, stack.drop_last(), false, false)
    } else if s[p] == ',' {
        !after_key && !at_key && member_scan(
            s,
            p + 1,
            stack,
            stack.len() > 0 && stack.last() == '{',
            false,
        )
    } else {
        let e = literal_end(s, p + 1);
        !at_key && !after_key && p < e <= s.len() && member_scan(s, e, stack, false, false)
    }
}

proof fn lemma_check_members(s: Seq<char>, p: int, stack: Seq<char>, expect: Expect)
    requires
        0 <= p,
    ensures
        check_from(s, p, stack, expect) is Ok ==> member_scan(
            s,
            p,
            stack,
            expect == Expect::Key || expect == Expect::KeyAfterComma,
            expect == Expect::Colon,
        ),
    decreases s.len() - p,
{
    if p < s.len() {
        let c = s[p];
        if is_white_space(c) {
            lemma_check_members(s, p + 1, stack, expect);
        } else if c == '{' {
            lemma_check_members(s, p + 1, stack.push('{'), Expect::Key);
        } else if c == '[' {
            lemma_check_members(s, p + 1, stack.push('['), Expect::Value);
        } else if c == '}' || c == ']' {
            lemma_check_members(s, p + 1, stack.drop_last(), Expect::CommaOrClose);
        } else if c == ':' {
            lemma_check_members(s, p + 1, stack, Expect::Value);
        } else if c == ',' {
            lemma_check_members(
                s,
                p + 1,
                stack,
                if stack.len() > 0 && stack.last() == '{' {
                    Expect::KeyAfterComma
                } else {
                    Expect::ValueAfterComma
                },
            );
        } else if c == '"' {
            lemma_string_end_range(s, p + 1, false);
            if let Some(e) = string_end(s, p + 1, false) {
                lemma_check_members(s, e, stack, Expect::Colon);
                lemma_check_members(s, e, stack, Expect::CommaOrClose);
            }
        } else {
            lemma_literal_end_range(s, p + 1);
            lemma_check_members(s, literal_end(s, p + 1), stack, Expect::CommaOrClose);
        }
    }
}

/// What the JSON check accepts keys every object member: outside string
/// literals, a `:` stands only after a key (a string that follows `{`, or a
/// `,` inside an object), every key is followed, white space skipped, by
/// `:`, and where a key is due no bare literal, `,` or `:` stands. So
/// `{1: 2}`, `{"a" 1}`, `{"a": 1, : 2}` and `[1: 2]` are rejected.
pub proof fn lemma_accepted_json_keyed(s: Seq<char>)
    ensures
        json_well_formed(s) is Ok ==> member_scan(s, 0, Seq::empty(), false, false),
{
    lemma_check_members(s, 0, Seq::empty(), Expect::Any);
}

} // verus!
