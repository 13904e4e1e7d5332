//! Checking that a text is well-formed JSON without building a tree.

use vstd::prelude::*;
use crate::json_to_xml::json_lexer::literal_end;
use crate::text::{
    at_line_col, chars_to_string, col_at, float_literal, is_white_space, is_whitespace,
    is_float_literal, line_at, line_col, near_line_col, push_at_line_col, push_chars,
    push_near_line_col, push_str, range_eq_str, slice_chars, str_to_chars,
};

verus! {

/// What may come next.
#[derive(PartialEq, Eq, Structural)]
pub enum Expect {
    /// The start of the document.
    Any,
    /// Just after `{`: a key, or `}` for an empty object.
    Key,
    /// Just after `[` or `:`: a value, or `]` for an empty array.
    Value,
    /// After `,` in an object: a key.
    KeyAfterComma,
    /// After `,` in an array: a value.
    ValueAfterComma,
    /// After a key.
    Colon,
    /// After a value.
    CommaOrClose,
}

/// The end of the string whose body starts at `i` (after the opening
/// quote): the index after the first quote that no backslash escapes.
pub open spec fn string_end(s: Seq<char>, i: int, escaped: bool) -> Option<int>
    decreases s.len() - i,
{
    if i < 0 || i >= s.len() {
        None
    } else if escaped {
        string_end(s, i + 1, false)
    } else if s[i] == '\\' {
        string_end(s, i + 1, true)
    } else if s[i] == '"' {
        Some(i + 1)
    } else {
        string_end(s, i + 1, false)
    }
}

/// Where a value may start.
pub open spec fn expects_value(e: Expect) -> bool {
    e == Expect::Value || e == Expect::ValueAfterComma || e == Expect::Any
}

/// Where a key may start.
pub open spec fn expects_key(e: Expect) -> bool {
    e == Expect::Key || e == Expect::KeyAfterComma
}

/// The check of `s` from index `p` on, with the open brackets `stack` and
/// the expectation `expect`; `Err` holds the message of the first problem.
pub open spec fn check_from(s: Seq<char>, p: int, stack: Seq<char>, expect: Expect) -> Result<
    (),
    Seq<char>,
>
    decreases s.len() - p,
{
    if p < 0 || p >= s.len() {
        if stack.len() > 0 {
            Err("Unexpected EOF: unclosed structures"@)
        } else {
            Ok(())
        }
    } else {
        let c = s[p];
        let at = at_line_col(line_at(s, p + 1), col_at(s, p + 1));
        let near = near_line_col(line_at(s, p + 1), col_at(s, p + 1));
        if is_white_space(c) {
            check_from(s, p + 1, stack, expect)
        } else if c == '{' {
            check_from(s, p + 1, stack.push('{'), Expect::Key)
        } else if c == '[' {
            check_from(s, p + 1, stack.push('['), Expect::Value)
        } else if c == '}' || c == ']' {
            let open = if c == '}' {
                '{'
            } else {
                '['
            };
            if expect != Expect::CommaOrClose && expect != Expect::Key && expect != Expect::Value {
                Err("Unexpected closing '"@ + seq![c] + "'"@ + at)
            } else if stack.len() == 0 || stack.last() != open {
                Err("Mismatched closing '"@ + seq![c] + "'"@ + at)
            } else {
                check_from(s, p + 1, stack.drop_last(), Expect::CommaOrClose)
            }
        } else if c == ':' {
            if expect != Expect::Colon {
                Err("Unexpected ':'"@ + at)
            } else {
                check_from(s, p + 1, stack, Expect::Value)
            }
        } else if c == ',' {
            if expect != Expect::CommaOrClose {
                Err("Unexpected ','"@ + at)
            } else {
                check_from(
                    s,
                    p + 1,
                    stack,
                    if stack.len() > 0 && stack.last() == '{' {
                        Expect::KeyAfterComma
                    } else {
                        Expect::ValueAfterComma
                    },
                )
            }
        } else if c == '"' {
            if !expects_key(expect) && !expects_value(expect) {
                Err("Unexpected string"@ + at)
            } else {
                match string_end(s, p + 1, false) {
                    None => Err("Unclosed string"@ + near),
                    Some(e) => if p < e <= s.len() {
                        check_from(
                            s,
                            e,
                            stack,
                            if expects_key(expect) {
                                Expect::Colon
                            } else {
                                Expect::CommaOrClose
                            },
                        )
                    } else {
                        Ok(())
                    },
                }
            }
        } else if expects_value(expect) {
            let e = literal_end(s, p + 1);
            let lit = s.subrange(p, e);
            if lit == "true"@ || lit == "false"@ || lit == "null"@ || float_literal(lit) {
                if p < e <= s.len() {
                    check_from(s, e, stack, Expect::CommaOrClose)
                } else {
                    Ok(())
                }
            } else {
                Err("Invalid literal '"@ + lit + "'"@ + near)
            }
        } else {
            Err("Unexpected character '"@ + seq![c] + "'"@ + at)
        }
    }
}

/// Whether `s` is well-formed JSON: `Ok`, or the message of the first
/// problem found reading from the start.
pub open spec fn json_well_formed(s: Seq<char>) -> Result<(), Seq<char>> {
    check_from(s, 0, Seq::empty(), Expect::Any)
}

/// Checks that `json` is well-formed JSON (see [`json_well_formed`]).
pub fn validate(json: &str) -> (r: Result<(), String>)
    requires
        json@.len() < usize::MAX,
    ensures
        match json_well_formed(json@) {
            Ok(()) => r is Ok,
            Err(m) => r matches Err(e) && e@ == m,
        },
{
    let s = str_to_chars(json);
    is_well_formed(&s)
}

/// The content of a JSON file once read (`read` is the outcome of reading
/// it): the read error as it is, `Content is empty` for an empty file, the
/// message of the first problem for text that is not well-formed JSON, or
/// the text itself.
pub fn get_content(read: Result<String, String>) -> (r: Result<String, String>)
    requires
        read matches Ok(c) ==> c@.len() < usize::MAX,
    ensures
        match read {
            Err(e) => r == Err::<String, String>(e),
            Ok(c) => if c@.len() == 0 {
                r matches Err(e) && e@ == "Content is empty"@
            } else {
                match json_well_formed(c@) {
                    Ok(()) => r matches Ok(t) && t@ == c@,
                    Err(m) => r matches Err(e) && e@ == m,
                }
            },
        },
{
    let content = match read {
        Ok(c) => c,
        Err(e) => {
            return Err(e);
        },
    };
    if content.as_str().is_empty() {
        let m = str_to_chars("Content is empty");
        return Err(chars_to_string(&m));
    }
    match validate(content.as_str()) {
        Ok(()) => Ok(content),
        Err(e) => Err(e),
    }
}

fn string_end_at(s: &[char], i: usize) -> (r: Option<usize>)
    requires
        i <= s@.len(),
    ensures
        r matches Some(e) ==> string_end(s@, i as int, false) == Some(e as int) && i < e <= s@.len(),
        r is None ==> string_end(s@, i as int, false) is None,
{
    let mut j = i;
    let mut escaped = false;
    while j < s.len()
        invariant
            i <= j <= s@.len(),
            string_end(s@, j as int, escaped) == string_end(s@, i as int, false),
        decreases s.len() - j,
    {
        if escaped {
            escaped = false;
        } else if s[j] == '\\' {
            escaped = true;
        } else if s[j] == '"' {
            return Some(j + 1);
        }
        j = j + 1;
    }
    None
}

fn literal_end_at(s: &[char], i: usize) -> (r: usize)
    requires
        i <= s@.len(),
    ensures
        r == literal_end(s@, i as int),
        i <= r <= s@.len(),
{
    let mut j = i;
    while j < s.len() && !(is_whitespace(s[j]) || s[j] == ',' || s[j] == '}' || s[j] == ']' || s[j]
        == ' ' || s[j] == ':')
        invariant
            i <= j <= s@.len(),
            literal_end(s@, j as int) == literal_end(s@, i as int),
        decreases s.len() - j,
    {
        j = j + 1;
    }
    j
}

/// The message `prefix` followed by `suffix_near ? " near" : " at"` and the
/// position of the character at `p`.
fn error_at(s: &[char], p: usize, prefix: Vec<char>, near: bool) -> (r: String)
    requires
        p < s@.len() < usize::MAX,
    ensures
        r@ == prefix@ + if near {
            near_line_col(line_at(s@, p + 1), col_at(s@, p + 1))
        } else {
            at_line_col(line_at(s@, p + 1), col_at(s@, p + 1))
        },
{
    let (l, c) = line_col(s, p + 1);
    let mut m = prefix;
    if near {
        push_near_line_col(&mut m, l, c);
    } else {
        push_at_line_col(&mut m, l, c);
    }
    chars_to_string(&m)
}

fn is_well_formed(s: &Vec<char>) -> (r: Result<(), String>)
    requires
        s@.len() < usize::MAX,
    ensures
        match json_well_formed(s@) {
            Ok(()) => r is Ok,
            Err(m) => r matches Err(e) && e@ == m,
        },
{
    let mut stack: Vec<char> = Vec::new();
    let mut expect = Expect::Any;
    let mut p: usize = 0;
    while p < s.len()
        invariant
            p <= s@.len() < usize::MAX,
            check_from(s@, p as int, stack@, expect) == json_well_formed(s@),
        decreases s@.len() - p,
    {
        let c = s[p];
        if is_whitespace(c) {
            p = p + 1;
        } else if c == '{' {
            stack.push('{');
            expect = Expect::Key;
            p = p + 1;
        } else if c == '[' {
            stack.push('[');
            expect = Expect::Value;
            p = p + 1;
        } else if c == '}' || c == ']' {
            if expect != Expect::CommaOrClose && expect != Expect::Key && expect != Expect::Value {
                let mut m: Vec<char> = Vec::new();
                push_str(&mut m, "Unexpected closing '");
                m.push(c);
                push_str(&mut m, "'");
                return Err(error_at(s, p, m, false));
            }
            let open = if c == '}' {
                '{'
            } else {
                '['
            };
            let n = stack.len();
            if n == 0 || stack[n - 1] != open {
                let mut m: Vec<char> = Vec::new();
                push_str(&mut m, "Mismatched closing '");
                m.push(c);
                push_str(&mut m, "'");
                return Err(error_at(s, p, m, false));
            }
            let ghost st = stack@;
            stack.pop();
            assert(stack@ =~= st.drop_last());
            expect = Expect::CommaOrClose;
            p = p + 1;
        } else if c == ':' {
            if expect != Expect::Colon {
                let mut m: Vec<char> = Vec::new();
                push_str(&mut m, "Unexpected ':'");
                return Err(error_at(s, p, m, false));
            }
            expect = Expect::Value;
            p = p + 1;
        } else if c == ',' {
            if expect != Expect::CommaOrClose {
                let mut m: Vec<char> = Vec::new();
                push_str(&mut m, "Unexpected ','");
                return Err(error_at(s, p, m, false));
            }
            let n = stack.len();
            expect = if n > 0 && stack[n - 1] == '{' {
                Expect::KeyAfterComma
            } else {
                Expect::ValueAfterComma
            };
            p = p + 1;
        } else if c == '"' {
            let is_key = expect == Expect::Key || expect == Expect::KeyAfterComma;
            let is_value = expect == Expect::Value || expect == Expect::ValueAfterComma || expect
                == Expect::Any;
            if !is_key && !is_value {
                let mut m: Vec<char> = Vec::new();
                push_str(&mut m, "Unexpected string");
                return Err(error_at(s, p, m, false));
            }
            match string_end_at(s, p + 1) {
                None => {
                    let mut m: Vec<char> = Vec::new();
                    push_str(&mut m, "Unclosed string");
                    return Err(error_at(s, p, m, true));
                },
                Some(e) => {
                    expect = if is_key {
                        Expect::Colon
                    } else {
                        Expect::CommaOrClose
                    };
                    p = e;
                },
            }
        } else {
            let is_value = expect == Expect::Value || expect == Expect::ValueAfterComma || expect
                == Expect::Any;
            if !is_value {
                let mut m: Vec<char> = Vec::new();
                push_str(&mut m, "Unexpected character '");
                m.push(c);
                push_str(&mut m, "'");
                return Err(error_at(s, p, m, false));
            }
            let e = literal_end_at(s, p + 1);
            if range_eq_str(s, p, e, "true") || range_eq_str(s, p, e, "false") || range_eq_str(
                s,
                p,
                e,
                "null",
            ) || is_float_literal(s, p, e) {
                expect = Expect::CommaOrClose;
                p = e;
            } else {
                let mut m: Vec<char> = Vec::new();
                push_str(&mut m, "Invalid literal '");
                let lit = slice_chars(s, p, e);
                push_chars(&mut m, &lit);
                push_str(&mut m, "'");
                return Err(error_at(s, p, m, true));
            }
        }
    }
    if stack.len() > 0 {
        let m = str_to_chars("Unexpected EOF: unclosed structures");
        return Err(chars_to_string(&m));
    }
    Ok(())
}

} // verus!
