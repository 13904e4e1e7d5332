//! Splitting JSON text into tokens.

use vstd::prelude::*;
use crate::json_to_xml::json_model::{Token, TokenView, tokens_view};
use crate::text::{
    all_digits, at_line_col, char_from_u32, chars_to_string, col_at, digit_value, digits_value,
    float_literal, from_str_radix_u32, hex4_upper, is_ascii_digit, is_float_literal,
    is_white_space, is_whitespace, lemma_line_col_bounds, lemma_skip_white_space, line_at,
    parse_radix_u32, push_at_line_col, push_chars, push_hex4, push_str, range_eq_str,
    skip_white_space, slice_chars, str_to_chars,
};

verus! {

// ---------------------------------------------------------------------------
// What lexing computes
// ---------------------------------------------------------------------------

/// The position suffix of an error about the token that starts at index `q`:
/// the line and column reached after reading that token's first character.
pub open spec fn token_at(s: Seq<char>, q: int) -> Seq<char> {
    at_line_col(line_at(s, q + 1), col_at(s, q + 1))
}

/// The character that the simple escape `\e` stands for.
pub open spec fn simple_escape(e: char) -> Option<char> {
    if e == '"' {
        Some('"')
    } else if e == '\\' {
        Some('\\')
    } else if e == '/' {
        Some('/')
    } else if e == 'n' {
        Some('\n')
    } else if e == 'r' {
        Some('\r')
    } else if e == 't' {
        Some('\t')
    } else if e == 'b' {
        Some('\x08')
    } else if e == 'f' {
        Some('\x0C')
    } else {
        None
    }
}

/// The four hexadecimal digits of a `\u` escape at `p`, and the index after
/// them; `q` is where the string token starts.
pub open spec fn lex_hex4(s: Seq<char>, p: int, q: int) -> Result<(nat, int), Seq<char>> {
    if p + 4 > s.len() {
        Err("Unexpected end in unicode escape"@ + token_at(s, q))
    } else {
        match from_str_radix_u32(s.subrange(p, p + 4), 16) {
            Some(v) => Ok((v, p + 4)),
            None => Err("Invalid unicode escape \\u"@ + s.subrange(p, p + 4) + token_at(s, q)),
        }
    }
}

/// The character written by a `\u` escape whose digits start at `p`
/// (a surrogate pair takes a second `\u` escape), and the index after it.
pub open spec fn lex_unicode_escape(s: Seq<char>, p: int, q: int) -> Result<(char, int), Seq<char>> {
    match lex_hex4(s, p, q) {
        Err(m) => Err(m),
        Ok((code, p1)) => if 0xD800 <= code <= 0xDBFF {
            if !(p1 + 1 < s.len() && s[p1] == '\\' && s[p1 + 1] == 'u') {
                Err(
                    "High surrogate \\u"@ + hex4_upper(code) + " not followed by \\u"@ + token_at(
                        s,
                        q,
                    ),
                )
            } else {
                match lex_hex4(s, p1 + 2, q) {
                    Err(m) => Err(m),
                    Ok((low, p2)) => if 0xDC00 <= low <= 0xDFFF {
                        Ok(
                            (
                                (0x10000 + (code - 0xD800) * 1024 + (low - 0xDC00)) as char,
                                p2,
                            ),
                        )
                    } else {
                        Err(
                            "Expected low surrogate after \\u"@ + hex4_upper(code) + ", got \\u"@
                                + hex4_upper(low) + token_at(s, q),
                        )
                    },
                }
            }
        } else if 0xDC00 <= code <= 0xDFFF {
            Err("Lone low surrogate \\u"@ + hex4_upper(code) + token_at(s, q))
        } else {
            Ok((code as char, p1))
        },
    }
}

/// The rest of a string token from `p` (after its opening quote at `q`),
/// with `acc` decoded so far: the decoded text and the index after the
/// closing quote.
pub open spec fn lex_string_body(s: Seq<char>, p: int, acc: Seq<char>, q: int) -> Result<
    (Seq<char>, int),
    Seq<char>,
>
    decreases s.len() - p,
{
    if p < 0 || p >= s.len() {
        Err("Unterminated string literal"@ + token_at(s, q))
    } else if s[p] == '\\' {
        if p + 1 >= s.len() {
            Err("Unexpected end after '\\'"@ + token_at(s, q))
        } else {
            let e = s[p + 1];
            match simple_escape(e) {
                Some(x) => lex_string_body(s, p + 2, acc.push(x), q),
                None => if e == 'u' {
                    match lex_unicode_escape(s, p + 2, q) {
                        Ok((ch, np)) => if p < np <= s.len() {
                            lex_string_body(s, np, acc.push(ch), q)
                        } else {
                            Err(Seq::empty())
                        },
                        Err(m) => Err(m),
                    }
                } else {
                    Err("Invalid escape '\\"@ + seq![e] + "'"@ + token_at(s, q))
                },
            }
        }
    } else if s[p] == '"' {
        Ok((acc, p + 1))
    } else {
        lex_string_body(s, p + 1, acc.push(s[p]), q)
    }
}

/// A character that ends a bare literal.
pub open spec fn ends_literal(c: char) -> bool {
    is_white_space(c) || c == ',' || c == '}' || c == ']' || c == ' ' || c == ':'
}

/// The end of the bare literal that continues at `p`.
pub open spec fn literal_end(s: Seq<char>, p: int) -> int
    decreases s.len() - p,
{
    if 0 <= p < s.len() && !ends_literal(s[p]) {
        literal_end(s, p + 1)
    } else {
        p
    }
}

/// The bare literal (`true`, `false`, `null` or a number) starting at `q`,
/// and the index after it.
pub open spec fn lex_literal(s: Seq<char>, q: int) -> Result<(TokenView, int), Seq<char>> {
    let e = literal_end(s, q + 1);
    let lit = s.subrange(q, e);
    if lit == "true"@ {
        Ok((TokenView::BoolVal(true), e))
    } else if lit == "false"@ {
        Ok((TokenView::BoolVal(false), e))
    } else if lit == "null"@ {
        Ok((TokenView::Null, e))
    } else if float_literal(lit) {
        Ok((TokenView::Number(lit), e))
    } else {
        Err("Invalid literal '"@ + lit + "'"@ + token_at(s, q))
    }
}

/// A character that starts a bare literal.
pub open spec fn starts_literal(c: char) -> bool {
    c == 'n' || c == 't' || c == 'f' || c == '-' || is_ascii_digit(c)
}

/// The token starting at `q`, and the index after it.
#[verifier::opaque]
pub open spec fn lex_token(s: Seq<char>, q: int) -> Result<(TokenView, int), Seq<char>> {
    let c = s[q];
    if c == '{' {
        Ok((TokenView::BraceOpen, q + 1))
    } else if c == '}' {
        Ok((TokenView::BraceClose, q + 1))
    } else if c == '[' {
        Ok((TokenView::BracketOpen, q + 1))
    } else if c == ']' {
        Ok((TokenView::BracketClose, q + 1))
    } else if c == ':' {
        Ok((TokenView::Colon, q + 1))
    } else if c == ',' {
        Ok((TokenView::Comma, q + 1))
    } else if c == '"' {
        match lex_string_body(s, q + 1, Seq::empty(), q) {
            Ok((text, e)) => Ok((TokenView::StringVal(text), e)),
            Err(m) => Err(m),
        }
    } else if starts_literal(c) {
        lex_literal(s, q)
    } else {
        Err("Unexpected character '"@ + seq![c] + "'"@ + token_at(s, q))
    }
}

/// The tokens of `s` from index `p` on, after the tokens `acc`.
pub open spec fn lex_from(s: Seq<char>, p: int, acc: Seq<TokenView>) -> Result<
    Seq<TokenView>,
    Seq<char>,
>
    decreases s.len() - p,
{
    let q = skip_white_space(s, p);
    if p < 0 || q >= s.len() {
        Ok(acc)
    } else {
        match lex_token(s, q) {
            Ok((t, e)) => if p < e <= s.len() {
                lex_from(s, e, acc.push(t))
            } else {
                Ok(acc)
            },
            Err(m) => Err(m),
        }
    }
}

/// The tokens of the JSON text `s`, or the message of the first error.
pub open spec fn json_tokens(s: Seq<char>) -> Result<Seq<TokenView>, Seq<char>> {
    lex_from(s, 0, Seq::empty())
}

// ---------------------------------------------------------------------------
// The lexer
// ---------------------------------------------------------------------------

/// Reads JSON text one character at a time, keeping the line and column.
pub struct Lexer {
    chars: Vec<char>,
    pos: usize,
    line: usize,
    col: usize,
}

impl Lexer {
    /// The text being read.
    pub closed spec fn input(self) -> Seq<char> {
        self.chars@
    }

    /// The index of the next character to read.
    pub closed spec fn next_index(self) -> nat {
        self.pos as nat
    }

    /// The line and column agree with the characters read so far.
    pub closed spec fn wf(self) -> bool {
        &&& self.pos <= self.chars@.len() < usize::MAX
        &&& self.line == line_at(self.chars@, self.pos as int)
        &&& self.col == col_at(self.chars@, self.pos as int)
    }

    /// A lexer at the start of `input`.
    pub fn new(input: &str) -> (r: Self)
        requires
            input@.len() < usize::MAX,
        ensures
            r.wf(),
            r.input() == input@,
            r.next_index() == 0,
    {
        Lexer { chars: str_to_chars(input), pos: 0, line: 1, col: 0 }
    }

    /// All remaining tokens, or the message of the first error.
    pub fn tokenize(&mut self) -> (r: Result<Vec<Token>, String>)
        requires
            old(self).wf(),
        ensures
            final(self).wf(),
            final(self).input() == old(self).input(),
            match lex_from(old(self).input(), old(self).next_index() as int, Seq::empty()) {
                Ok(ts) => r matches Ok(v) && tokens_view(v@) == ts,
                Err(m) => r matches Err(e) && e@ == m,
            },
    {
        let mut tokens: Vec<Token> = Vec::new();
        let ghost p0 = self.pos as int;
        assert(tokens_view(tokens@) =~= Seq::empty());
        loop
            invariant
                self.wf(),
                self.input() == old(self).input(),
                p0 == old(self).pos as int,
                lex_from(self.input(), self.pos as int, tokens_view(tokens@)) == lex_from(
                    self.input(),
                    p0,
                    Seq::empty(),
                ),
            decreases self.input().len() - self.pos,
        {
            let ghost p = self.pos as int;
            let ghost acc = tokens_view(tokens@);
            let ghost sq = self.input();
            match self.next_token() {
                Err(e) => {
                    assert(lex_from(sq, p, acc) == Err::<Seq<TokenView>, Seq<char>>(e@));
                    return Err(e);
                },
                Ok(None) => {
                    return Ok(tokens);
                },
                Ok(Some(t)) => {
                    let ghost tv = t@;
                    let ghost prev = tokens@;
                    tokens.push(t);
                    assert(tokens_view(tokens@) =~= tokens_view(prev).push(tv));
                },
            }
        }
    }

    fn consume(&mut self) -> (r: Option<char>)
        requires
            old(self).wf(),
        ensures
            final(self).wf(),
            final(self).chars == old(self).chars,
            old(self).pos < old(self).chars@.len() ==> r == Some(old(self).chars@[old(self).pos as int])
                && final(self).pos == old(self).pos + 1,
            old(self).pos >= old(self).chars@.len() ==> r is None && final(self).pos == old(self).pos,
    {
        if self.pos >= self.chars.len() {
            return None;
        }
        proof {
            lemma_line_col_bounds(self.chars@, self.pos as int);
        }
        let c = self.chars[self.pos];
        if c == '\n' {
            self.line = self.line + 1;
            self.col = 0;
        } else {
            self.col = self.col + 1;
        }
        self.pos = self.pos + 1;
        Some(c)
    }

    fn skip_whitespace(&mut self)
        requires
            old(self).wf(),
        ensures
            final(self).wf(),
            final(self).chars == old(self).chars,
            final(self).pos == skip_white_space(old(self).chars@, old(self).pos as int),
    {
        while self.pos < self.chars.len() && is_whitespace(self.chars[self.pos])
            invariant
                self.wf(),
                self.chars == old(self).chars,
                skip_white_space(self.chars@, self.pos as int) == skip_white_space(
                    old(self).chars@,
                    old(self).pos as int,
                ),
            decreases self.chars@.len() - self.pos,
        {
            self.consume();
        }
    }

    /// The message `prefix` followed by the position `line`, `col`.
    fn error_at(prefix: Vec<char>, line: usize, col: usize) -> (r: String)
        ensures
            r@ == prefix@ + at_line_col(line as nat, col as nat),
    {
        let mut m = prefix;
        push_at_line_col(&mut m, line, col);
        chars_to_string(&m)
    }

    fn next_token(&mut self) -> (r: Result<Option<Token>, String>)
        requires
            old(self).wf(),
        ensures
            final(self).wf(),
            final(self).chars == old(self).chars,
            ({
                let s = old(self).chars@;
                let p = old(self).pos as int;
                let q = skip_white_space(s, p);
                if q >= s.len() {
                    r matches Ok(None)
                } else {
                    match lex_token(s, q) {
                        Ok((t, e)) => r matches Ok(Some(tok)) && tok@ == t && final(self).pos == e
                            && p < e <= s.len(),
                        Err(m) => r matches Err(msg) && msg@ == m,
                    }
                }
            }),
    {
        reveal(lex_token);
        self.skip_whitespace();
        proof {
            lemma_skip_white_space(self.chars@, old(self).pos as int);
        }
        let start = self.pos;
        let c = match self.consume() {
            Some(c) => c,
            None => {
                return Ok(None);
            },
        };
        let line = self.line;
        let col = self.col;
        if c == '{' {
            Ok(Some(Token::BraceOpen))
        } else if c == '}' {
            Ok(Some(Token::BraceClose))
        } else if c == '[' {
            Ok(Some(Token::BracketOpen))
        } else if c == ']' {
            Ok(Some(Token::BracketClose))
        } else if c == ':' {
            Ok(Some(Token::Colon))
        } else if c == ',' {
            Ok(Some(Token::Comma))
        } else if c == '"' {
            match self.read_string(start, line, col) {
                Ok(text) => Ok(Some(Token::StringVal(text))),
                Err(e) => Err(e),
            }
        } else if c == 'n' || c == 't' || c == 'f' || c == '-' || ('0' <= c && c <= '9') {
            self.read_literal(start, line, col)
        } else {
            let mut m: Vec<char> = Vec::new();
            push_str(&mut m, "Unexpected character '");
            m.push(c);
            push_str(&mut m, "'");
            Err(Self::error_at(m, line, col))
        }
    }

    fn read_hex4(&mut self, q: Ghost<int>, line: usize, col: usize) -> (r: Result<u32, String>)
        requires
            old(self).wf(),
            0 <= q@ < old(self).chars@.len(),
            line == line_at(old(self).chars@, q@ + 1),
            col == col_at(old(self).chars@, q@ + 1),
        ensures
            final(self).wf(),
            final(self).chars == old(self).chars,
            match lex_hex4(old(self).chars@, old(self).pos as int, q@) {
                Ok((v, p1)) => r matches Ok(code) && code == v && final(self).pos == p1 && code
                    <= 0xFFFF,
                Err(m) => r matches Err(msg) && msg@ == m,
            },
    {
        let s = self.pos;
        let mut k: usize = 0;
        while k < 4
            invariant
                self.wf(),
                0 <= q@ < self.chars@.len(),
                s == old(self).pos,
                line == line_at(self.chars@, q@ + 1),
                col == col_at(self.chars@, q@ + 1),
                self.chars == old(self).chars,
                k <= 4,
                self.pos == s + k,
                s + k <= self.chars@.len(),
            decreases 4 - k,
        {
            match self.consume() {
                Some(_) => {},
                None => {
                    let mut m: Vec<char> = Vec::new();
                    push_str(&mut m, "Unexpected end in unicode escape");
                    return Err(Self::error_at(m, line, col));
                },
            }
            k = k + 1;
        }
        match parse_radix_u32(&self.chars, s, s + 4, 16) {
            Some(v) => {
                proof {
                    lemma_hex4_bound(self.chars@.subrange(s as int, s + 4));
                }
                Ok(v)
            },
            None => {
                let mut m: Vec<char> = Vec::new();
                push_str(&mut m, "Invalid unicode escape \\u");
                let h = slice_chars(&self.chars, s, s + 4);
                push_chars(&mut m, &h);
                Err(Self::error_at(m, line, col))
            },
        }
    }

    fn read_unicode_escape(&mut self, q: Ghost<int>, line: usize, col: usize) -> (r: Result<
        char,
        String,
    >)
        requires
            old(self).wf(),
            0 <= q@ < old(self).chars@.len(),
            line == line_at(old(self).chars@, q@ + 1),
            col == col_at(old(self).chars@, q@ + 1),
        ensures
            final(self).wf(),
            final(self).chars == old(self).chars,
            match lex_unicode_escape(old(self).chars@, old(self).pos as int, q@) {
                Ok((ch, p1)) => r matches Ok(c) && c == ch && final(self).pos == p1 && old(
                    self,
                ).pos < p1,
                Err(m) => r matches Err(msg) && msg@ == m,
            },
    {
        let code = match self.read_hex4(q, line, col) {
            Ok(code) => code,
            Err(e) => {
                return Err(e);
            },
        };
        if 0xD800 <= code && code <= 0xDBFF {
            let b = self.consume();
            let u = self.consume();
            if b != Some('\\') || u != Some('u') {
                let mut m: Vec<char> = Vec::new();
                push_str(&mut m, "High surrogate \\u");
                push_hex4(&mut m, code);
                push_str(&mut m, " not followed by \\u");
                return Err(Self::error_at(m, line, col));
            }
            let low = match self.read_hex4(q, line, col) {
                Ok(low) => low,
                Err(e) => {
                    return Err(e);
                },
            };
            if !(0xDC00 <= low && low <= 0xDFFF) {
                let mut m: Vec<char> = Vec::new();
                push_str(&mut m, "Expected low surrogate after \\u");
                push_hex4(&mut m, code);
                push_str(&mut m, ", got \\u");
                push_hex4(&mut m, low);
                return Err(Self::error_at(m, line, col));
            }
            let cp: u32 = 0x10000 + (code - 0xD800) * 1024 + (low - 0xDC00);
            match char_from_u32(cp) {
                Some(ch) => {
                    proof {
                        lemma_char_of_code(ch, cp as nat);
                    }
                    Ok(ch)
                },
                None => {
                    let mut m: Vec<char> = Vec::new();
                    push_str(&mut m, "Invalid surrogate pair");
                    Err(Self::error_at(m, line, col))
                },
            }
        } else if 0xDC00 <= code && code <= 0xDFFF {
            let mut m: Vec<char> = Vec::new();
            push_str(&mut m, "Lone low surrogate \\u");
            push_hex4(&mut m, code);
            Err(Self::error_at(m, line, col))
        } else {
            match char_from_u32(code) {
                Some(ch) => {
                    proof {
                        lemma_char_of_code(ch, code as nat);
                    }
                    Ok(ch)
                },
                None => {
                    let mut m: Vec<char> = Vec::new();
                    push_str(&mut m, "Invalid unicode codepoint");
                    Err(Self::error_at(m, line, col))
                },
            }
        }
    }

    fn read_string(&mut self, q: usize, line: usize, col: usize) -> (r: Result<String, String>)
        requires
            old(self).wf(),
            q < old(self).chars@.len(),
            old(self).pos == q + 1,
            line == line_at(old(self).chars@, q + 1),
            col == col_at(old(self).chars@, q + 1),
        ensures
            final(self).wf(),
            final(self).chars == old(self).chars,
            match lex_string_body(old(self).chars@, q + 1, Seq::empty(), q as int) {
                Ok((text, e)) => r matches Ok(t) && t@ == text && final(self).pos == e && q + 1
                    < e <= old(self).chars@.len(),
                Err(m) => r matches Err(msg) && msg@ == m,
            },
    {
        let mut out: Vec<char> = Vec::new();
        loop
            invariant
                self.wf(),
                self.chars == old(self).chars,
                q + 1 <= self.pos,
                q < self.chars@.len(),
                line == line_at(self.chars@, q + 1),
                col == col_at(self.chars@, q + 1),
                lex_string_body(self.chars@, self.pos as int, out@, q as int) == lex_string_body(
                    self.chars@,
                    q + 1,
                    Seq::empty(),
                    q as int,
                ),
            decreases self.chars@.len() - self.pos,
        {
            let c = match self.consume() {
                Some(c) => c,
                None => {
                    let mut m: Vec<char> = Vec::new();
                    push_str(&mut m, "Unterminated string literal");
                    return Err(Self::error_at(m, line, col));
                },
            };
            if c == '\\' {
                let e = match self.consume() {
                    Some(e) => e,
                    None => {
                        let mut m: Vec<char> = Vec::new();
                        push_str(&mut m, "Unexpected end after '\\'");
                        return Err(Self::error_at(m, line, col));
                    },
                };
                if e == '"' {
                    out.push('"');
                } else if e == '\\' {
                    out.push('\\');
                } else if e == '/' {
                    out.push('/');
                } else if e == 'n' {
                    out.push('\n');
                } else if e == 'r' {
                    out.push('\r');
                } else if e == 't' {
                    out.push('\t');
                } else if e == 'b' {
                    out.push('\x08');
                } else if e == 'f' {
                    out.push('\x0C');
                } else if e == 'u' {
                    match self.read_unicode_escape(Ghost(q as int), line, col) {
                        Ok(ch) => out.push(ch),
                        Err(m) => {
                            return Err(m);
                        },
                    }
                } else {
                    let mut m: Vec<char> = Vec::new();
                    push_str(&mut m, "Invalid escape '\\");
                    m.push(e);
                    push_str(&mut m, "'");
                    return Err(Self::error_at(m, line, col));
                }
            } else if c == '"' {
                return Ok(chars_to_string(&out));
            } else {
                out.push(c);
            }
        }
    }

    fn read_literal(&mut self, q: usize, line: usize, col: usize) -> (r: Result<
        Option<Token>,
        String,
    >)
        requires
            old(self).wf(),
            q < old(self).chars@.len(),
            old(self).pos == q + 1,
            line == line_at(old(self).chars@, q + 1),
            col == col_at(old(self).chars@, q + 1),
        ensures
            final(self).wf(),
            final(self).chars == old(self).chars,
            match lex_literal(old(self).chars@, q as int) {
                Ok((t, e)) => r matches Ok(Some(tok)) && tok@ == t && final(self).pos == e && q
                    < e <= old(self).chars@.len(),
                Err(m) => r matches Err(msg) && msg@ == m,
            },
    {
        while self.pos < self.chars.len() && !(is_whitespace(self.chars[self.pos])
            || self.chars[self.pos] == ',' || self.chars[self.pos] == '}' || self.chars[self.pos]
            == ']' || self.chars[self.pos] == ' ' || self.chars[self.pos] == ':')
            invariant
                self.wf(),
                self.chars == old(self).chars,
                q + 1 <= self.pos <= self.chars@.len(),
                literal_end(self.chars@, self.pos as int) == literal_end(self.chars@, q + 1),
            decreases self.chars@.len() - self.pos,
        {
            self.consume();
        }
        let e = self.pos;
        if range_eq_str(&self.chars, q, e, "true") {
            Ok(Some(Token::BoolVal(true)))
        } else if range_eq_str(&self.chars, q, e, "false") {
            Ok(Some(Token::BoolVal(false)))
        } else if range_eq_str(&self.chars, q, e, "null") {
            Ok(Some(Token::Null))
        } else if is_float_literal(&self.chars, q, e) {
            let lit = slice_chars(&self.chars, q, e);
            Ok(Some(Token::Number(chars_to_string(&lit))))
        } else {
            let mut m: Vec<char> = Vec::new();
            push_str(&mut m, "Invalid literal '");
            let lit = slice_chars(&self.chars, q, e);
            push_chars(&mut m, &lit);
            push_str(&mut m, "'");
            Err(Self::error_at(m, line, col))
        }
    }
}

proof fn lemma_hex4_bound(h: Seq<char>)
    requires
        h.len() == 4,
        from_str_radix_u32(h, 16) is Some,
    ensures
        from_str_radix_u32(h, 16)->Some_0 <= 0xFFFF,
{
    let d = if h[0] == '+' {
        h.drop_first()
    } else {
        h
    };
    assert(d.len() <= 4);
    reveal_with_fuel(digits_value, 5);
    if d.len() == 4 {
        assert(d.drop_last().drop_last().drop_last().drop_last().len() == 0);
    }
    lemma_digits_value_bound(d);
}

proof fn lemma_digits_value_bound(d: Seq<char>)
    requires
        all_digits(d, 16),
    ensures
        digits_value(d, 16) < pow16(d.len()),
    decreases d.len(),
{
    if d.len() > 0 {
        let t = d.drop_last();
        assert(all_digits(t, 16)) by {
            assert forall|i: int| 0 <= i < t.len() implies (#[trigger] digit_value(t[i], 16)) is Some by {
                assert(t[i] == d[i]);
            }
        }
        lemma_digits_value_bound(t);
        assert(digit_value(d[d.len() - 1], 16) is Some);
        let a = digits_value(t, 16);
        let b = pow16(t.len());
        let x: nat = digit_value(d.last(), 16)->Some_0;
        assert(a * 16 + x < b * 16) by (nonlinear_arith)
            requires
                a < b,
                x < 16,
        ;
    }
}

spec fn pow16(n: nat) -> nat
    decreases n,
{
    if n == 0 {
        1
    } else {
        16 * pow16((n - 1) as nat)
    }
}

proof fn lemma_char_of_code(c: char, code: nat)
    requires
        c as u32 == code,
    ensures
        c == code as char,
{
}

} // verus!
