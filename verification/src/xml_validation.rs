//! Checking that a text is well-formed XML without building a tree.

use vstd::prelude::*;
use crate::text::{
    chars_eq, chars_to_string, decimal, find_char, find_char_at, is_white_space, is_whitespace,
    lemma_find_char, push_chars, push_decimal, push_str, skip_white_space, skip_whitespace_at,
    slice_chars, str_to_chars, trim_range, trim_white_space,
};

verus! {

// ---------------------------------------------------------------------------
// What checking computes
// ---------------------------------------------------------------------------

/// The end of a processing instruction scanned from `i`: the index after
/// the first `>` that follows a `?` (the `?` of `<?` counts).
pub open spec fn pi_close(s: Seq<char>, i: int, prev_question: bool) -> Option<int>
    decreases s.len() - i,
{
    if i < 0 || i >= s.len() {
        None
    } else if prev_question && s[i] == '>' {
        Some(i + 1)
    } else {
        pi_close(s, i + 1, s[i] == '?')
    }
}

/// The end of a comment whose body starts at `i`: the index after the
/// first `-->`.
pub open spec fn comment_close(s: Seq<char>, i: int) -> Option<int>
    decreases s.len() - i,
{
    if i < 0 || i >= s.len() {
        None
    } else if s[i] == '-' && i + 1 < s.len() && s[i + 1] == '-' {
        if i + 2 < s.len() && s[i + 2] == '>' {
            Some(i + 3)
        } else {
            comment_close(s, i + 2)
        }
    } else {
        comment_close(s, i + 1)
    }
}

/// The index after the first `>` at or after `i`, or the end of `s`.
pub open spec fn past_gt(s: Seq<char>, i: int) -> int {
    match find_char(s, i, '>') {
        Some(j) => j + 1,
        None => s.len() as int,
    }
}

/// The index of the `>` that ends an opening tag whose content starts at
/// `i` (a `>` between quotes does not count), or the end of `s`.
pub open spec fn open_tag_end(s: Seq<char>, i: int, quote: Option<char>) -> int
    decreases s.len() - i,
{
    if i < 0 || i >= s.len() {
        s.len() as int
    } else {
        match quote {
            Some(q) => open_tag_end(
                s,
                i + 1,
                if s[i] == q {
                    None
                } else {
                    quote
                },
            ),
            None => if s[i] == '"' || s[i] == '\'' {
                open_tag_end(s, i + 1, Some(s[i]))
            } else if s[i] == '>' {
                i
            } else {
                open_tag_end(s, i + 1, None)
            },
        }
    }
}

/// The end of the word that starts at `i`: the first white space, or the
/// end of `s`.
pub open spec fn word_end(s: Seq<char>, i: int) -> int
    decreases s.len() - i,
{
    if 0 <= i < s.len() && !is_white_space(s[i]) {
        word_end(s, i + 1)
    } else {
        i
    }
}

/// The first white-space-separated word of `s`, or the empty string.
pub open spec fn first_word(s: Seq<char>) -> Seq<char> {
    let a = skip_white_space(s, 0);
    s.subrange(a, word_end(s, a))
}

/// `Error at L:C: `, the start of the messages about a tag at that position.
pub open spec fn error_at(line: nat, col: nat) -> Seq<char> {
    "Error at "@ + decimal(line) + seq![':'] + decimal(col) + seq![':', ' ']
}

/// The check of `s` from index `p` on, with the names of the open elements
/// `stack` (innermost last), whether a root element was met, and the line
/// and column counted over the characters that start constructs or stand
/// between them.
pub open spec fn check_xml_from(
    s: Seq<char>,
    p: int,
    stack: Seq<Seq<char>>,
    has_root: bool,
    line: nat,
    col: nat,
) -> Result<(), Seq<char>>
    decreases s.len() - p,
{
    if p < 0 || p >= s.len() {
        if stack.len() > 0 {
            Err("Error: Tag <"@ + stack.last() + "> was not closed before end of file"@)
        } else if !has_root {
            Err("Error: Empty document"@)
        } else {
            Ok(())
        }
    } else {
        let c = s[p];
        let l2: nat = if c == '\n' {
            line + 1
        } else {
            line
        };
        let c2: nat = if c == '\n' {
            0
        } else {
            col + 1
        };
        if c != '<' {
            check_xml_from(s, p + 1, stack, has_root, l2, c2)
        } else {
            let at = error_at(l2, c2);
            if p + 1 < s.len() && s[p + 1] == '?' {
                match pi_close(s, p + 1, false) {
                    None => Err(at + "Unclosed processing instruction"@),
                    Some(e) => if p < e <= s.len() {
                        check_xml_from(s, e, stack, has_root, l2, c2)
                    } else {
                        Err(Seq::empty())
                    },
                }
            } else if p + 1 < s.len() && s[p + 1] == '!' {
                if p + 3 < s.len() && s[p + 2] == '-' && s[p + 3] == '-' {
                    match comment_close(s, p + 4) {
                        None => Err(at + "Unclosed comment"@),
                        Some(e) => if p < e <= s.len() {
                            check_xml_from(s, e, stack, has_root, l2, c2)
                        } else {
                            Err(Seq::empty())
                        },
                    }
                } else {
                    let start = if p + 2 < s.len() {
                        p + 3
                    } else {
                        s.len() as int
                    };
                    let e = past_gt(s, start);
                    if p < e <= s.len() {
                        check_xml_from(s, e, stack, has_root, l2, c2)
                    } else {
                        Err(Seq::empty())
                    }
                }
            } else if p + 1 < s.len() && s[p + 1] == '/' {
                let j = match find_char(s, p + 2, '>') {
                    Some(j) => j,
                    None => s.len() as int,
                };
                let next = if j < s.len() {
                    j + 1
                } else {
                    s.len() as int
                };
                let expected = trim_white_space(s.subrange(p + 2, j));
                if stack.len() == 0 {
                    Err(at + "Unexpected closing tag </"@ + expected + ">"@)
                } else if stack.last() != expected {
                    Err(at + "Expected </"@ + stack.last() + ">, but found </"@ + expected + ">"@)
                } else if p < next <= s.len() {
                    check_xml_from(s, next, stack.drop_last(), has_root, l2, c2)
                } else {
                    Err(Seq::empty())
                }
            } else {
                let e = open_tag_end(s, p + 1, None);
                let content = s.subrange(p + 1, e);
                let self_closing = content.len() > 0 && content.last() == '/';
                let body = if self_closing {
                    content.drop_last()
                } else {
                    content
                };
                let next = if e < s.len() {
                    e + 1
                } else {
                    s.len() as int
                };
                let name = first_word(body);
                if stack.len() == 0 && has_root {
                    Err(at + "Second root element <"@ + name + ">"@)
                } else if p < next <= s.len() {
                    check_xml_from(
                        s,
                        next,
                        if self_closing {
                            stack
                        } else {
                            stack.push(name)
                        },
                        has_root || stack.len() == 0,
                        l2,
                        c2,
                    )
                } else {
                    Err(Seq::empty())
                }
            }
        }
    }
}

/// Whether `s` is well-formed XML as far as this check goes: tags balance,
/// there is one root element, and processing instructions and comments are
/// closed. `Err` holds the message of the first problem.
pub open spec fn xml_well_formed(s: Seq<char>) -> Result<(), Seq<char>> {
    check_xml_from(s, 0, Seq::empty(), false, 1, 0)
}

// ---------------------------------------------------------------------------
// The check
// ---------------------------------------------------------------------------

fn pi_close_at(s: &[char], i: usize) -> (r: Option<usize>)
    requires
        i <= s@.len(),
    ensures
        r matches Some(e) ==> pi_close(s@, i as int, false) == Some(e as int) && i < e <= s@.len(),
        r is None ==> pi_close(s@, i as int, false) is None,
{
    let mut j = i;
    let mut prev_question = false;
    while j < s.len()
        invariant
            i <= j <= s@.len(),
            pi_close(s@, j as int, prev_question) == pi_close(s@, i as int, false),
        decreases s@.len() - j,
    {
        if prev_question && s[j] == '>' {
            return Some(j + 1);
        }
        prev_question = s[j] == '?';
        j = j + 1;
    }
    None
}

fn comment_close_at(s: &[char], i: usize) -> (r: Option<usize>)
    requires
        i <= s@.len(),
    ensures
        r matches Some(e) ==> comment_close(s@, i as int) == Some(e as int) && i < e <= s@.len(),
        r is None ==> comment_close(s@, i as int) is None,
{
    let n = s.len();
    let mut j = i;
    while j < n
        invariant
            i <= j <= s@.len(),
            n == s@.len(),
            comment_close(s@, j as int) == comment_close(s@, i as int),
        decreases s@.len() - j,
    {
        if s[j] == '-' && j + 1 < n && s[j + 1] == '-' {
            if j + 2 < n && s[j + 2] == '>' {
                return Some(j + 3);
            }
            j = j + 2;
        } else {
            j = j + 1;
        }
    }
    None
}

fn open_tag_end_at(s: &[char], i: usize) -> (r: usize)
    requires
        i <= s@.len(),
    ensures
        r == open_tag_end(s@, i as int, None),
        i <= r <= s@.len(),
{
    let mut j = i;
    let mut quote: Option<char> = None;
    while j < s.len()
        invariant
            i <= j <= s@.len(),
            open_tag_end(s@, j as int, quote) == open_tag_end(s@, i as int, None),
        decreases s@.len() - j,
    {
        match quote {
            Some(q) => {
                if s[j] == q {
                    quote = None;
                }
            },
            None => {
                if s[j] == '"' || s[j] == '\'' {
                    quote = Some(s[j]);
                } else if s[j] == '>' {
                    return j;
                }
            },
        }
        j = j + 1;
    }
    j
}

fn word_end_at(s: &[char], i: usize) -> (r: usize)
    requires
        i <= s@.len(),
    ensures
        r == word_end(s@, i as int),
        i <= r <= s@.len(),
{
    let mut j = i;
    while j < s.len() && !is_whitespace(s[j])
        invariant
            i <= j <= s@.len(),
            word_end(s@, j as int) == word_end(s@, i as int),
        decreases s@.len() - j,
    {
        j = j + 1;
    }
    j
}

proof fn lemma_skip_bound(s: Seq<char>, i: int)
    requires
        0 <= i <= s.len(),
    ensures
        i <= skip_white_space(s, i) <= s.len(),
    decreases s.len() - i,
{
    if 0 <= i < s.len() && is_white_space(s[i]) {
        lemma_skip_bound(s, i + 1);
    }
}

fn first_word_of(s: &[char]) -> (r: Vec<char>)
    ensures
        r@ == first_word(s@),
{
    proof {
        lemma_skip_bound(s@, 0);
    }
    let a = skip_whitespace_at(s, 0);
    let b = word_end_at(s, a);
    slice_chars(s, a, b)
}

/// Appends `Error at L:C: `.
fn push_error_at(m: &mut Vec<char>, line: usize, col: usize)
    ensures
        final(m)@ == old(m)@ + error_at(line as nat, col as nat),
{
    let ghost m0 = m@;
    push_str(m, "Error at ");
    push_decimal(m, line);
    m.push(':');
    push_decimal(m, col);
    m.push(':');
    m.push(' ');
    assert(m@ =~= m0 + error_at(line as nat, col as nat));
}

/// The views of a stack of names.
pub open spec fn names_view(v: Seq<Vec<char>>) -> Seq<Seq<char>> {
    Seq::new(v.len(), |i: int| v[i]@)
}

/// Checks that `xml` is well-formed (see [`xml_well_formed`]).
pub fn validate(xml: &str) -> (r: Result<(), String>)
    requires
        xml@.len() < usize::MAX,
    ensures
        match xml_well_formed(xml@) {
            Ok(()) => r is Ok,
            Err(m) => r matches Err(e) && e@ == m,
        },
{
    let s = str_to_chars(xml);
    is_well_formed(&s)
}

/// The content of an XML file once read (`read` is the outcome of reading
/// it): the read error as it is, `Content is empty` for an empty file, the
/// message of the first problem for text that is not well-formed, or the
/// text itself.
pub fn get_content(read: Result<String, String>) -> (r: Result<String, String>)
    requires
        read matches Ok(c) ==> c@.len() < usize::MAX,
    ensures
        match read {
            Err(e) => r == Err::<String, String>(e),
            Ok(c) => if c@.len() == 0 {
                r matches Err(e) && e@ == "Content is empty"@
            } else {
                match xml_well_formed(c@) {
                    Ok(()) => r matches Ok(t) && t@ == c@,
                    Err(m) => r matches Err(e) && e@ == m,
                }
            },
        },
{
    let content = match read {
        Ok(c) => c,
        Err(e) => {
            return Err(e);
        },
    };
    if content.as_str().is_empty() {
        let m = str_to_chars("Content is empty");
        return Err(chars_to_string(&m));
    }
    match validate(content.as_str()) {
        Ok(()) => Ok(content),
        Err(e) => Err(e),
    }
}

#[verifier::rlimit(50)]
fn is_well_formed(s: &Vec<char>) -> (r: Result<(), String>)
    requires
        s@.len() < usize::MAX,
    ensures
        match xml_well_formed(s@) {
            Ok(()) => r is Ok,
            Err(m) => r matches Err(e) && e@ == m,
        },
{
    let n = s.len();
    let mut stack: Vec<Vec<char>> = Vec::new();
    let mut has_root = false;
    let mut line: usize = 1;
    let mut col: usize = 0;
    let mut p: usize = 0;
    assert(names_view(stack@) =~= Seq::empty());
    while p < n
        invariant
            n == s@.len() < usize::MAX,
            p <= n,
            line + col <= p + 1,
            check_xml_from(s@, p as int, names_view(stack@), has_root, line as nat, col as nat)
                == xml_well_formed(s@),
        decreases n - p,
    {
        let c = s[p];
        if c == '\n' {
            line = line + 1;
            col = 0;
        } else {
            col = col + 1;
        }
        if c != '<' {
            p = p + 1;
        } else if p + 1 < n && s[p + 1] == '?' {
            match pi_close_at(s, p + 1) {
                None => {
                    let mut m: Vec<char> = Vec::new();
                    push_error_at(&mut m, line, col);
                    push_str(&mut m, "Unclosed processing instruction");
                    return Err(chars_to_string(&m));
                },
                Some(e) => {
                    p = e;
                },
            }
        } else if p + 1 < n && s[p + 1] == '!' {
            if p + 3 < n && s[p + 2] == '-' && s[p + 3] == '-' {
                match comment_close_at(s, p + 4) {
                    None => {
                        let mut m: Vec<char> = Vec::new();
                        push_error_at(&mut m, line, col);
                        push_str(&mut m, "Unclosed comment");
                        return Err(chars_to_string(&m));
                    },
                    Some(e) => {
                        p = e;
                    },
                }
            } else {
                let start = if p + 2 < n {
                    p + 3
                } else {
                    n
                };
                proof {
                    lemma_find_char(s@, start as int, '>');
                }
                p = match find_char_at(s, start, '>') {
                    Some(j) => j + 1,
                    None => n,
                };
            }
        } else if p + 1 < n && s[p + 1] == '/' {
            proof {
                lemma_find_char(s@, p + 2, '>');
            }
            let j = match find_char_at(s, p + 2, '>') {
                Some(j) => j,
                None => n,
            };
            let next = if j < n {
                j + 1
            } else {
                n
            };
            let expected = trim_range(s, p + 2, j);
            let k = stack.len();
            if k == 0 {
                let mut m: Vec<char> = Vec::new();
                push_error_at(&mut m, line, col);
                push_str(&mut m, "Unexpected closing tag </");
                push_chars(&mut m, &expected);
                push_str(&mut m, ">");
                return Err(chars_to_string(&m));
            }
            if !chars_eq(&stack[k - 1], &expected) {
                let mut m: Vec<char> = Vec::new();
                push_error_at(&mut m, line, col);
                push_str(&mut m, "Expected </");
                push_chars(&mut m, &stack[k - 1]);
                push_str(&mut m, ">, but found </");
                push_chars(&mut m, &expected);
                push_str(&mut m, ">");
                return Err(chars_to_string(&m));
            }
            let ghost st = names_view(stack@);
            stack.pop();
            assert(names_view(stack@) =~= st.drop_last());
            p = next;
        } else {
            let e = open_tag_end_at(s, p + 1);
            let content = slice_chars(s, p + 1, e);
            let self_closing = content.len() > 0 && content[content.len() - 1] == '/';
            let body = if self_closing {
                slice_chars(&content, 0, content.len() - 1)
            } else {
                content
            };
            assert(body@ =~= (if self_closing {
                s@.subrange(p + 1, e as int).drop_last()
            } else {
                s@.subrange(p + 1, e as int)
            }));
            let next = if e < n {
                e + 1
            } else {
                n
            };
            let name = first_word_of(&body);
            if stack.len() == 0 && has_root {
                let mut m: Vec<char> = Vec::new();
                push_error_at(&mut m, line, col);
                push_str(&mut m, "Second root element <");
                push_chars(&mut m, &name);
                push_str(&mut m, ">");
                return Err(chars_to_string(&m));
            }
            if stack.len() == 0 {
                has_root = true;
            }
            if !self_closing {
                let ghost st = names_view(stack@);
                let ghost nv = name@;
                stack.push(name);
                assert(names_view(stack@) =~= st.push(nv));
            }
            p = next;
        }
    }
    if stack.len() > 0 {
        let k = stack.len();
        let mut m: Vec<char> = Vec::new();
        push_str(&mut m, "Error: Tag <");
        push_chars(&mut m, &stack[k - 1]);
        push_str(&mut m, "> was not closed before end of file");
        return Err(chars_to_string(&m));
    }
    if !has_root {
        let m = str_to_chars("Error: Empty document");
        return Err(chars_to_string(&m));
    }
    Ok(())
}

} // verus!
