//! Splitting XML text into tokens.

use vstd::prelude::*;
use crate::text::{
    at_line_col, char_from_u32, chars_to_string, col_at, find_char, find_char_at, find_from,
    find_str_at, from_str_radix_u32, is_white_space, is_whitespace, lemma_find_char,
    lemma_find_from_bounds, lemma_skip_white_space, line_at, match_str_at, matches_at,
    parse_radix_u32, position_of, push_at_line_col, push_chars, push_str, range_eq_str,
    skip_white_space, skip_whitespace_at, slice_chars, str_to_chars, trim_end_index, trim_range,
    trim_white_space,
};
use crate::xml_to_json::xml_model::{Token, TokenView, tokens_view};

verus! {

// ---------------------------------------------------------------------------
// Entities
// ---------------------------------------------------------------------------

/// The text that the entity reference `&e;` stands for: the five predefined
/// entities, a decimal (`#65`) or hexadecimal (`#x41`) character reference
/// to a valid character, or else the reference itself, unchanged.
pub open spec fn entity_text(e: Seq<char>) -> Seq<char> {
    let unchanged = seq!['&'] + e + seq![';'];
    if e == "amp"@ {
        seq!['&']
    } else if e == "lt"@ {
        seq!['<']
    } else if e == "gt"@ {
        seq!['>']
    } else if e == "quot"@ {
        seq!['"']
    } else if e == "apos"@ {
        seq!['\'']
    } else if e.len() > 0 && e[0] == '#' {
        let hex = e.len() > 1 && (e[1] == 'x' || e[1] == 'X');
        let digits = if hex {
            e.subrange(2, e.len() as int)
        } else {
            e.subrange(1, e.len() as int)
        };
        match from_str_radix_u32(
            digits,
            if hex {
                16
            } else {
                10
            },
        ) {
            Some(v) => if v <= 0x10FFFF && !(0xD800 <= v <= 0xDFFF) {
                seq![v as char]
            } else {
                unchanged
            },
            None => unchanged,
        }
    } else {
        unchanged
    }
}

/// `s` from index `i` on with its entity references replaced; an `&` with
/// no `;` after it is kept with the rest of the text.
pub open spec fn decode_from(s: Seq<char>, i: int) -> Seq<char>
    decreases s.len() - i,
{
    if i < 0 || i >= s.len() {
        Seq::empty()
    } else if s[i] != '&' {
        seq![s[i]] + decode_from(s, i + 1)
    } else {
        match find_char(s, i + 1, ';') {
            None => s.subrange(i, s.len() as int),
            Some(j) => if i < j < s.len() {
                entity_text(s.subrange(i + 1, j)) + decode_from(s, j + 1)
            } else {
                Seq::empty()
            },
        }
    }
}

/// `s` with its entity references replaced.
pub open spec fn decode_entities(s: Seq<char>) -> Seq<char> {
    decode_from(s, 0)
}

fn push_entity_text(e: &[char], out: &mut Vec<char>)
    ensures
        final(out)@ == old(out)@ + entity_text(e@),
{
    let ghost o0 = out@;
    let n = e.len();
    if range_eq_str(e, 0, n, "amp") {
        out.push('&');
    } else if range_eq_str(e, 0, n, "lt") {
        out.push('<');
    } else if range_eq_str(e, 0, n, "gt") {
        out.push('>');
    } else if range_eq_str(e, 0, n, "quot") {
        out.push('"');
    } else if range_eq_str(e, 0, n, "apos") {
        out.push('\'');
    } else if n > 0 && e[0] == '#' {
        let hex = n > 1 && (e[1] == 'x' || e[1] == 'X');
        let start: usize = if hex {
            2
        } else {
            1
        };
        let radix: u32 = if hex {
            16
        } else {
            10
        };
        let decoded = match parse_radix_u32(e, start, n, radix) {
            Some(v) => {
                let c = char_from_u32(v);
                proof {
                    if let Some(ch) = c {
                        lemma_char_of_code(ch, v as nat);
                    }
                }
                c
            },
            None => None,
        };
        match decoded {
            Some(c) => out.push(c),
            None => {
                out.push('&');
                push_chars(out, e);
                out.push(';');
            },
        }
    } else {
        out.push('&');
        push_chars(out, e);
        out.push(';');
    }
    assert(e@.subrange(0, n as int) =~= e@);
    assert(out@ =~= o0 + entity_text(e@));
}

/// `s` with its entity references replaced (see [`decode_entities`]).
pub fn decode_entity_refs(s: &[char]) -> (r: Vec<char>)
    ensures
        r@ == decode_entities(s@),
{
    let mut out: Vec<char> = Vec::new();
    let mut i: usize = 0;
    while i < s.len()
        invariant
            i <= s@.len(),
            out@ + decode_from(s@, i as int) == decode_entities(s@),
        decreases s@.len() - i,
    {
        let ghost o = out@;
        if s[i] != '&' {
            out.push(s[i]);
            assert(out@ + decode_from(s@, i + 1) =~= o + decode_from(s@, i as int));
            i = i + 1;
        } else {
            proof {
                lemma_find_char(s@, i + 1, ';');
            }
            match find_char_at(s, i + 1, ';') {
                None => {
                    let rest = slice_chars(s, i, s.len());
                    push_chars(&mut out, &rest);
                    assert(out@ + decode_from(s@, s@.len() as int) =~= o + decode_from(s@, i as int));
                    i = s.len();
                },
                Some(j) => {
                    let e = slice_chars(s, i + 1, j);
                    push_entity_text(&e, &mut out);
                    assert(out@ + decode_from(s@, j + 1) =~= o + decode_from(s@, i as int));
                    i = j + 1;
                },
            }
        }
    }
    assert(decode_from(s@, i as int) =~= Seq::empty());
    assert(out@ =~= decode_entities(s@));
    out
}

proof fn lemma_char_of_code(c: char, code: nat)
    requires
        c as u32 == code,
    ensures
        c == code as char,
{
}

// ---------------------------------------------------------------------------
// Document type declarations
// ---------------------------------------------------------------------------

/// The end of an internal DTD subset whose body continues at `i`: the index
/// after the first `]>` that is neither quoted nor inside a comment, or the
/// end of `s`.
pub open spec fn subset_end(s: Seq<char>, i: int, quote: Option<char>) -> int
    decreases s.len() - i,
{
    if i < 0 || i >= s.len() {
        s.len() as int
    } else {
        match quote {
            Some(q) => subset_end(
                s,
                i + 1,
                if s[i] == q {
                    None
                } else {
                    quote
                },
            ),
            None => if matches_at(s, i, "<!--"@) {
                match find_from(s, i, "-->"@) {
                    Some(e) => if i < e + "-->"@.len() <= s.len() {
                        subset_end(s, e + "-->"@.len(), None)
                    } else {
                        s.len() as int
                    },
                    None => s.len() as int,
                }
            } else if s[i] == '"' || s[i] == '\'' {
                subset_end(s, i + 1, Some(s[i]))
            } else if s[i] == ']' && i + 1 < s.len() && s[i + 1] == '>' {
                i + 2
            } else {
                subset_end(s, i + 1, None)
            },
        }
    }
}

/// The end of a `<!` declaration at `cur`: past its internal subset when a
/// `[` comes before the first `>`, else past the first `>`, else the end of
/// the text.
pub open spec fn declaration_end(s: Seq<char>, cur: int) -> int {
    let gt = find_char(s, cur, '>');
    match find_char(s, cur, '[') {
        Some(b) if (gt is None || b < gt->Some_0) => subset_end(s, b + 1, None),
        _ => match gt {
            Some(g) => g + 1,
            None => s.len() as int,
        },
    }
}

proof fn lemma_subset_end(s: Seq<char>, i: int, quote: Option<char>)
    requires
        0 <= i <= s.len(),
    ensures
        i <= subset_end(s, i, quote) <= s.len(),
    decreases s.len() - i,
{
    if i < s.len() {
        match quote {
            Some(q) => lemma_subset_end(
                s,
                i + 1,
                if s[i] == q {
                    None
                } else {
                    quote
                },
            ),
            None => if matches_at(s, i, "<!--"@) {
                lemma_find_from_bounds(s, i, "-->"@);
                match find_from(s, i, "-->"@) {
                    Some(e) => if i < e + "-->"@.len() <= s.len() {
                        lemma_subset_end(s, e + "-->"@.len(), None);
                    },
                    None => {},
                }
            } else if s[i] == '"' || s[i] == '\'' {
                lemma_subset_end(s, i + 1, Some(s[i]));
            } else if s[i] == ']' && i + 1 < s.len() && s[i + 1] == '>' {
            } else {
                lemma_subset_end(s, i + 1, None);
            },
        }
    }
}

fn subset_end_at(s: &[char], i: usize) -> (r: usize)
    requires
        i <= s@.len(),
    ensures
        r == subset_end(s@, i as int, None),
        i <= r <= s@.len(),
{
    proof {
        lemma_subset_end(s@, i as int, None);
    }
    let ghost target = subset_end(s@, i as int, None);
    let mut j = i;
    let mut quote: Option<char> = None;
    while j < s.len()
        invariant
            i <= j <= s@.len(),
            target == subset_end(s@, i as int, None),
            subset_end(s@, j as int, quote) == target,
        decreases s@.len() - j,
    {
        match quote {
            Some(q) => {
                if s[j] == q {
                    quote = None;
                }
                j = j + 1;
            },
            None => {
                if match_str_at(s, j, "<!--") {
                    proof {
                        lemma_find_from_bounds(s@, j as int, "-->"@);
                    }
                    match find_str_at(s, j, "-->") {
                        Some(e) => {
                            let close = str_to_chars("-->");
                            if j < e + close.len() {
                                j = e + close.len();
                            } else {
                                return s.len();
                            }
                        },
                        None => {
                            return s.len();
                        },
                    }
                } else if s[j] == '"' || s[j] == '\'' {
                    quote = Some(s[j]);
                    j = j + 1;
                } else if s[j] == ']' && j + 1 < s.len() && s[j + 1] == '>' {
                    return j + 2;
                } else {
                    j = j + 1;
                }
            },
        }
    }
    s.len()
}

fn declaration_end_at(s: &[char], cur: usize) -> (r: usize)
    requires
        cur < s@.len(),
    ensures
        r == declaration_end(s@, cur as int),
        cur < r <= s@.len(),
{
    proof {
        lemma_find_char(s@, cur as int, '>');
        lemma_find_char(s@, cur as int, '[');
    }
    let n = s.len();
    let gt = find_char_at(s, cur, '>');
    match find_char_at(s, cur, '[') {
        Some(b) => {
            let before_gt = match gt {
                Some(g) => b < g,
                None => true,
            };
            if before_gt {
                return subset_end_at(s, b + 1);
            }
        },
        None => {},
    }
    match gt {
        Some(g) => g + 1,
        None => s.len(),
    }
}

// ---------------------------------------------------------------------------
// What lexing computes
// ---------------------------------------------------------------------------

/// One step of the lexer.
pub enum LexStep {
    /// The end of the text, inside a tag or not.
    End(bool),
    /// Nothing to emit; go on at the index, inside a tag or not.
    Skip(int, bool),
    /// A token; go on at the index, inside a tag or not.
    Emit(TokenView, int, bool),
    /// An error, with its message.
    Fail(Seq<char>),
    /// Stop inside a tag at the index: an attribute's `=` ends the text.
    Halt(int),
}

/// ` at line L, col C` for the character at index `n` (line and column from 1).
pub open spec fn at_pos(s: Seq<char>, n: int) -> Seq<char> {
    at_line_col(line_at(s, n), col_at(s, n) + 1)
}

/// The end of the name that continues at `i`: the first white space, `>` or
/// `/`, or the end of the text.
pub open spec fn name_end(s: Seq<char>, i: int) -> int
    decreases s.len() - i,
{
    if 0 <= i < s.len() && !(is_white_space(s[i]) || s[i] == '>' || s[i] == '/') {
        name_end(s, i + 1)
    } else {
        i
    }
}

/// The end of the attribute name that starts at `i`: the first white space,
/// `=`, `>` or `/`, or the end of the text.
pub open spec fn attr_name_end(s: Seq<char>, i: int) -> int
    decreases s.len() - i,
{
    if 0 <= i < s.len() && !(is_white_space(s[i]) || s[i] == '=' || s[i] == '>' || s[i] == '/') {
        attr_name_end(s, i + 1)
    } else {
        i
    }
}

/// The attribute that starts at `k` inside a tag: `name = "value"` or
/// `name = 'value'`, white space allowed around `=`.
pub open spec fn attribute_step(s: Seq<char>, k: int) -> LexStep {
    let ne = attr_name_end(s, k);
    let p1 = skip_white_space(s, ne);
    if !(p1 < s.len() && s[p1] == '=') {
        LexStep::Fail("Attribute without '=' in tag"@ + at_pos(s, p1))
    } else {
        let p2 = skip_white_space(s, p1 + 1);
        if p2 >= s.len() {
            LexStep::Halt(k)
        } else {
            let quote = s[p2];
            if quote != '"' && quote != '\'' {
                LexStep::Fail(
                    "Attribute value must be quoted with '\"' or \"'\" (found '"@ + seq![quote]
                        + "' after '=')"@ + at_pos(s, p2),
                )
            } else {
                match find_char(s, p2 + 1, quote) {
                    None => LexStep::Fail("Unterminated attribute value"@ + at_pos(s, p2)),
                    Some(ve) => LexStep::Emit(
                        TokenView::Attr(
                            s.subrange(k, ne),
                            decode_entities(s.subrange(p2 + 1, ve)),
                        ),
                        ve + 1,
                        true,
                    ),
                }
            }
        }
    }
}

/// Inside a tag at `cur`: white space, then `/>`, `>` or an attribute.
pub open spec fn tag_step(s: Seq<char>, cur: int) -> LexStep {
    let k = skip_white_space(s, cur);
    if matches_at(s, k, "/>"@) {
        LexStep::Emit(TokenView::TagSelfClose, k + "/>"@.len(), false)
    } else if k < s.len() && s[k] == '>' {
        LexStep::Skip(k + 1, false)
    } else {
        attribute_step(s, k)
    }
}

/// A closing tag `</name>` at `cur`; the name is trimmed.
pub open spec fn close_tag_step(s: Seq<char>, cur: int) -> LexStep {
    match find_char(s, cur, '>') {
        None => LexStep::Fail("Unexpected EOF in closing tag"@ + at_pos(s, cur)),
        Some(e) => LexStep::Emit(
            TokenView::TagClose(trim_white_space(s.subrange(cur + "</"@.len(), e))),
            e + 1,
            false,
        ),
    }
}

/// A processing instruction `<?...?>` at `cur`.
pub open spec fn pi_step(s: Seq<char>, cur: int) -> LexStep {
    match find_from(s, cur, "?>"@) {
        None => LexStep::Fail("Unclosed processing instruction"@ + at_pos(s, cur)),
        Some(e) => LexStep::Emit(TokenView::ProcessingInstruction, e + "?>"@.len(), false),
    }
}

/// A comment `<!--...-->` at `cur`, skipped.
pub open spec fn comment_step(s: Seq<char>, cur: int) -> LexStep {
    match find_from(s, cur, "-->"@) {
        None => LexStep::Fail("Unclosed comment"@ + at_pos(s, cur)),
        Some(e) => LexStep::Skip(e + "-->"@.len(), false),
    }
}

/// A CDATA section at `cur`: its content is text, taken as it is; an empty
/// section is skipped.
pub open spec fn cdata_step(s: Seq<char>, cur: int) -> LexStep {
    match find_from(s, cur, "]]>"@) {
        None => LexStep::Fail("Unclosed CDATA section"@ + at_pos(s, cur)),
        Some(e) => {
            let content = s.subrange(cur + "<![CDATA["@.len(), e);
            if content.len() > 0 {
                LexStep::Emit(TokenView::Text(content), e + "]]>"@.len(), false)
            } else {
                LexStep::Skip(e + "]]>"@.len(), false)
            }
        },
    }
}

/// An opening tag `<name` at `cur`; the lexer is then inside the tag.
pub open spec fn open_tag_step(s: Seq<char>, cur: int) -> LexStep {
    let e = name_end(s, cur + 1);
    if e == cur + 1 {
        LexStep::Fail("Empty tag name"@ + at_pos(s, cur))
    } else {
        LexStep::Emit(TokenView::TagOpen(s.subrange(cur + 1, e)), e, true)
    }
}

/// Text at `cur`, up to the next `<`, entity-decoded.
pub open spec fn text_step(s: Seq<char>, cur: int) -> LexStep {
    let e = match find_char(s, cur, '<') {
        Some(e) => e,
        None => s.len() as int,
    };
    LexStep::Emit(TokenView::Text(decode_entities(s.subrange(cur, e))), e, false)
}

/// One step of the lexer at index `cur`, inside a tag or not.
pub open spec fn xml_step(s: Seq<char>, cur: int, in_tag: bool) -> LexStep {
    if cur < 0 || cur >= s.len() {
        LexStep::End(in_tag)
    } else if in_tag {
        tag_step(s, cur)
    } else if matches_at(s, cur, "</"@) {
        close_tag_step(s, cur)
    } else if matches_at(s, cur, "<?"@) {
        pi_step(s, cur)
    } else if matches_at(s, cur, "<!--"@) {
        comment_step(s, cur)
    } else if matches_at(s, cur, "<![CDATA["@) {
        cdata_step(s, cur)
    } else if matches_at(s, cur, "<!"@) {
        LexStep::Skip(declaration_end(s, cur), false)
    } else if s[cur] == '<' {
        open_tag_step(s, cur)
    } else {
        text_step(s, cur)
    }
}

/// The next step from `cur` that is not a skip.
pub open spec fn next_event(s: Seq<char>, cur: int, in_tag: bool) -> LexStep
    decreases s.len() - cur,
{
    match xml_step(s, cur, in_tag) {
        LexStep::Skip(c2, t2) => if cur < c2 <= s.len() {
            next_event(s, c2, t2)
        } else {
            LexStep::Fail(Seq::empty())
        },
        other => other,
    }
}

/// The tokens of `s` from index `cur` on, after the tokens `acc`.
pub open spec fn lex_xml_from(s: Seq<char>, cur: int, in_tag: bool, acc: Seq<TokenView>) -> Result<
    Seq<TokenView>,
    Seq<char>,
>
    decreases s.len() - cur,
{
    match next_event(s, cur, in_tag) {
        LexStep::End(t) => if t {
            Err("Unexpected end of input: tag not closed"@ + at_pos(s, s.len() as int))
        } else {
            Ok(acc)
        },
        LexStep::Halt(k) => Err("Unexpected end of input: tag not closed"@ + at_pos(s, k)),
        LexStep::Fail(m) => Err(m),
        LexStep::Emit(t, c2, t2) => if cur < c2 <= s.len() {
            lex_xml_from(s, c2, t2, acc.push(t))
        } else {
            Err(Seq::empty())
        },
        LexStep::Skip(_, _) => Err(Seq::empty()),
    }
}

/// The tokens of the XML text `s`, or the message of the first error.
pub open spec fn xml_tokens(s: Seq<char>) -> Result<Seq<TokenView>, Seq<char>> {
    lex_xml_from(s, 0, false, Seq::empty())
}

fn name_end_at(s: &[char], i: usize) -> (r: usize)
    requires
        i <= s@.len(),
    ensures
        r == name_end(s@, i as int),
        i <= r <= s@.len(),
{
    let mut j = i;
    while j < s.len() && !(is_whitespace(s[j]) || s[j] == '>' || s[j] == '/')
        invariant
            i <= j <= s@.len(),
            name_end(s@, j as int) == name_end(s@, i as int),
        decreases s@.len() - j,
    {
        j = j + 1;
    }
    j
}

fn attr_name_end_at(s: &[char], i: usize) -> (r: usize)
    requires
        i <= s@.len(),
    ensures
        r == attr_name_end(s@, i as int),
        i <= r <= s@.len(),
{
    let mut j = i;
    while j < s.len() && !(is_whitespace(s[j]) || s[j] == '=' || s[j] == '>' || s[j] == '/')
        invariant
            i <= j <= s@.len(),
            attr_name_end(s@, j as int) == attr_name_end(s@, i as int),
        decreases s@.len() - j,
    {
        j = j + 1;
    }
    j
}

// ---------------------------------------------------------------------------
// The lexer
// ---------------------------------------------------------------------------

/// What one step of the lexer did.
enum Stepped {
    Skipped,
    Emitted(Token),
    Stopped,
}

/// Reads XML text, remembering whether it is inside a tag.
pub struct Lexer {
    input: Vec<char>,
    cursor: usize,
    in_tag: bool,
    error: Option<String>,
}

impl Lexer {
    /// The text being read.
    pub closed spec fn input(self) -> Seq<char> {
        self.input@
    }

    /// The index of the next character to read.
    pub closed spec fn next_index(self) -> nat {
        self.cursor as nat
    }

    /// Whether the lexer is inside a tag.
    pub closed spec fn inside_tag(self) -> bool {
        self.in_tag
    }

    /// The lexer is within its text and has met no error.
    pub closed spec fn wf(self) -> bool {
        &&& self.cursor <= self.input@.len() < usize::MAX
        &&& self.error is None
    }

    /// A lexer at the start of `input`, outside any tag.
    pub fn new(input: &str) -> (r: Self)
        requires
            input@.len() < usize::MAX,
        ensures
            r.wf(),
            r.input() == input@,
            r.next_index() == 0,
            !r.inside_tag(),
    {
        Lexer { input: str_to_chars(input), cursor: 0, in_tag: false, error: None }
    }

    /// A lexer at the start of the text `input`, outside any tag.
    pub(crate) fn from_chars(input: Vec<char>) -> (r: Self)
        requires
            input@.len() < usize::MAX,
        ensures
            r.wf(),
            r.input() == input@,
            r.next_index() == 0,
            !r.inside_tag(),
    {
        Lexer { input, cursor: 0, in_tag: false, error: None }
    }

    /// All remaining tokens, or the message of the first error. Afterwards
    /// the lexer is well formed again (an error is not kept), and after
    /// success it stands at the end of its text, outside any tag. The
    /// tokens read from outside a tag have the shape of [`token_shape`].
    pub fn tokenize(&mut self) -> (r: Result<Vec<Token>, String>)
        requires
            old(self).wf(),
        ensures
            final(self).wf(),
            final(self).input() == old(self).input(),
            r is Ok ==> final(self).next_index() == final(self).input().len(),
            r is Ok ==> !final(self).inside_tag(),
            !old(self).inside_tag() ==> (r matches Ok(v) ==> forall|i: int|
                0 <= i < v@.len() ==> token_shape(tokens_view(v@), i)),
            match lex_xml_from(
                old(self).input(),
                old(self).next_index() as int,
                old(self).inside_tag(),
                Seq::empty(),
            ) {
                Ok(ts) => r matches Ok(v) && tokens_view(v@) == ts,
                Err(m) => r matches Err(e) && e@ == m,
            },
    {
        let ghost s = self.input@;
        let ghost c0 = self.cursor as int;
        let ghost t0 = self.in_tag;
        let mut tokens: Vec<Token> = Vec::new();
        assert(tokens_view(tokens@) =~= Seq::empty());
        proof {
            if !t0 {
                lemma_lex_shape(s, c0, t0, Seq::empty());
            }
        }
        loop
            invariant
                self.wf(),
                self.input@ == s,
                !t0 ==> (lex_xml_from(s, c0, t0, Seq::empty()) matches Ok(ts) ==> forall|i: int|
                    0 <= i < ts.len() ==> token_shape(ts, i)),
                s == old(self).input(),
                c0 == old(self).next_index() as int,
                t0 == old(self).inside_tag(),
                lex_xml_from(s, self.cursor as int, self.in_tag, tokens_view(tokens@))
                    == lex_xml_from(s, c0, t0, Seq::empty()),
            decreases s.len() - self.cursor,
        {
            match self.next_token() {
                Some(t) => {
                    let ghost tv = t@;
                    let ghost prev = tokens@;
                    tokens.push(t);
                    assert(tokens_view(tokens@) =~= tokens_view(prev).push(tv));
                },
                None => {
                    if let Some(err) = self.error.take() {
                        return Err(err);
                    }
                    if self.in_tag {
                        let (line, col) = position_of(&self.input, self.cursor);
                        let mut m: Vec<char> = Vec::new();
                        push_str(&mut m, "Unexpected end of input: tag not closed");
                        push_at_line_col(&mut m, line, col);
                        return Err(chars_to_string(&m));
                    }
                    assert(lex_xml_from(s, c0, t0, Seq::empty()) == Ok::<Seq<TokenView>, Seq<char>>(
                        tokens_view(tokens@),
                    ));
                    assert(tokens_view(tokens@).len() == tokens@.len());
                    proof {
                        let tv = tokens_view(tokens@);
                        if !t0 {
                            let all = lex_xml_from(s, c0, t0, Seq::empty());
                            assert(all == Ok::<Seq<TokenView>, Seq<char>>(tv));
                            assert(all matches Ok(ts) ==> forall|i: int|
                                0 <= i < ts.len() ==> token_shape(ts, i));
                            assert(forall|i: int| 0 <= i < tv.len() ==> token_shape(tv, i));
                        }
                    }
                    return Ok(tokens);
                },
            }
        }
    }

    /// The message `prefix` followed by the position of the character at `n`.
    fn error_at(&self, n: usize, prefix: Vec<char>) -> (r: String)
        requires
            self.input@.len() < usize::MAX,
            n <= self.input@.len(),
        ensures
            r@ == prefix@ + at_pos(self.input@, n as int),
    {
        let (line, col) = position_of(&self.input, n);
        let mut m = prefix;
        push_at_line_col(&mut m, line, col);
        chars_to_string(&m)
    }

    /// The next token; `None` at the end of the text, on an error (kept in
    /// `error`), or when an attribute's `=` ends the text.
    fn next_token(&mut self) -> (r: Option<Token>)
        requires
            old(self).wf(),
        ensures
            final(self).input == old(self).input,
            final(self).cursor <= final(self).input@.len(),
            match next_event(old(self).input@, old(self).cursor as int, old(self).in_tag) {
                LexStep::End(t) => r is None && final(self).error is None && final(self).in_tag == t
                    && final(self).cursor == old(self).input@.len(),
                LexStep::Halt(k) => r is None && final(self).error is None && final(self).in_tag
                    && final(self).cursor == k,
                LexStep::Fail(m) => r is None && (final(self).error matches Some(e) && e@ == m),
                LexStep::Emit(tok, c2, t2) => r matches Some(t) && t@ == tok && final(self).error is None
                    && final(self).cursor == c2 && final(self).in_tag == t2 && old(self).cursor < c2,
                LexStep::Skip(_, _) => false,
            },
    {
        let ghost s = self.input@;
        loop
            invariant
                self.wf(),
                self.input == old(self).input,
                self.input@ == s,
                s == old(self).input@,
                old(self).cursor <= self.cursor,
                next_event(s, self.cursor as int, self.in_tag) == next_event(
                    s,
                    old(self).cursor as int,
                    old(self).in_tag,
                ),
            decreases s.len() - self.cursor,
        {
            match self.step() {
                Stepped::Skipped => {},
                Stepped::Emitted(t) => {
                    return Some(t);
                },
                Stepped::Stopped => {
                    return None;
                },
            }
        }
    }

    /// One step of the lexer (see [`xml_step`]).
    fn step(&mut self) -> (r: Stepped)
        requires
            old(self).wf(),
        ensures
            final(self).input == old(self).input,
            final(self).cursor <= final(self).input@.len(),
            match xml_step(old(self).input@, old(self).cursor as int, old(self).in_tag) {
                LexStep::End(t) => r is Stopped && final(self).error is None && final(self).in_tag == t
                    && final(self).cursor == old(self).input@.len(),
                LexStep::Halt(k) => r is Stopped && final(self).error is None && final(self).in_tag
                    && final(self).cursor == k,
                LexStep::Fail(m) => r is Stopped && (final(self).error matches Some(e) && e@ == m),
                LexStep::Emit(tok, c2, t2) => r matches Stepped::Emitted(t) && t@ == tok
                    && final(self).error is None && final(self).cursor == c2 && final(self).in_tag
                    == t2 && old(self).cursor < c2,
                LexStep::Skip(c2, t2) => r is Skipped && final(self).error is None
                    && final(self).cursor == c2 && final(self).in_tag == t2 && old(self).cursor < c2,
            },
    {
        let n = self.input.len();
        let cur = self.cursor;
        if cur >= n {
            return Stepped::Stopped;
        }
        if self.in_tag {
            self.tag_step()
        } else if match_str_at(&self.input, cur, "</") {
            self.close_tag_step()
        } else if match_str_at(&self.input, cur, "<?") {
            self.pi_step()
        } else if match_str_at(&self.input, cur, "<!--") {
            self.comment_step()
        } else if match_str_at(&self.input, cur, "<![CDATA[") {
            self.cdata_step()
        } else if match_str_at(&self.input, cur, "<!") {
            let end = declaration_end_at(&self.input, cur);
            self.cursor = end;
            Stepped::Skipped
        } else if self.input[cur] == '<' {
            self.open_tag_step()
        } else {
            self.text_step()
        }
    }

    fn tag_step(&mut self) -> (r: Stepped)
        requires
            old(self).wf(),
            old(self).cursor < old(self).input@.len(),
        ensures
            final(self).input == old(self).input,
            final(self).cursor <= final(self).input@.len(),
            match tag_step(old(self).input@, old(self).cursor as int) {
                LexStep::Halt(k) => r is Stopped && final(self).error is None && final(self).in_tag
                    == old(self).in_tag && final(self).cursor == k,
                LexStep::Fail(m) => r is Stopped && (final(self).error matches Some(e) && e@ == m),
                LexStep::Emit(tok, c2, t2) => r matches Stepped::Emitted(t) && t@ == tok
                    && final(self).error is None && final(self).cursor == c2
                    && (t2 ==> final(self).in_tag == old(self).in_tag)
                    && (!t2 ==> !final(self).in_tag) && old(self).cursor < c2,
                LexStep::Skip(c2, t2) => r is Skipped && final(self).error is None
                    && final(self).cursor == c2 && !t2 && !final(self).in_tag && old(self).cursor < c2,
                _ => false,
            },
    {
        let ghost s = self.input@;
        let n = self.input.len();
        let k = skip_whitespace_at(&self.input, self.cursor);
        proof {
            lemma_skip_white_space(s, self.cursor as int);
        }
        self.cursor = k;
        if match_str_at(&self.input, k, "/>") {
            let sg = str_to_chars("/>");
            proof {
                reveal_strlit("/>");
            }
            self.in_tag = false;
            self.cursor = k + sg.len();
            Stepped::Emitted(Token::TagSelfClose)
        } else if k < n && self.input[k] == '>' {
            self.in_tag = false;
            self.cursor = k + 1;
            Stepped::Skipped
        } else {
            match self.parse_attribute() {
                Some(t) => Stepped::Emitted(t),
                None => Stepped::Stopped,
            }
        }
    }

    fn close_tag_step(&mut self) -> (r: Stepped)
        requires
            old(self).wf(),
            matches_at(old(self).input@, old(self).cursor as int, "</"@),
        ensures
            final(self).input == old(self).input,
            final(self).in_tag == old(self).in_tag,
            final(self).cursor <= final(self).input@.len(),
            match close_tag_step(old(self).input@, old(self).cursor as int) {
                LexStep::Fail(m) => r is Stopped && (final(self).error matches Some(e) && e@ == m),
                LexStep::Emit(tok, c2, t2) => r matches Stepped::Emitted(t) && t@ == tok
                    && final(self).error is None && final(self).cursor == c2 && !t2 && old(self).cursor < c2,
                _ => false,
            },
    {
        let ghost s = self.input@;
        let cur = self.cursor;
        proof {
            lemma_find_char(s, cur as int, '>');
            reveal_strlit("</");
            assert(s.subrange(cur as int, cur + 2)[0] == s[cur as int]);
            assert(s.subrange(cur as int, cur + 2)[1] == s[cur + 1]);
        }
        match find_char_at(&self.input, cur, '>') {
            None => {
                let mut m: Vec<char> = Vec::new();
                push_str(&mut m, "Unexpected EOF in closing tag");
                self.error = Some(self.error_at(cur, m));
                Stepped::Stopped
            },
            Some(e) => {
                let name = trim_range(&self.input, cur + 2, e);
                self.cursor = e + 1;
                Stepped::Emitted(Token::TagClose(chars_to_string(&name)))
            },
        }
    }

    fn pi_step(&mut self) -> (r: Stepped)
        requires
            old(self).wf(),
            old(self).cursor < old(self).input@.len(),
        ensures
            final(self).input == old(self).input,
            final(self).in_tag == old(self).in_tag,
            final(self).cursor <= final(self).input@.len(),
            match pi_step(old(self).input@, old(self).cursor as int) {
                LexStep::Fail(m) => r is Stopped && (final(self).error matches Some(e) && e@ == m),
                LexStep::Emit(tok, c2, t2) => r matches Stepped::Emitted(t) && t@ == tok
                    && final(self).error is None && final(self).cursor == c2 && !t2 && old(self).cursor < c2,
                _ => false,
            },
    {
        let ghost s = self.input@;
        let cur = self.cursor;
        proof {
            lemma_find_from_bounds(s, cur as int, "?>"@);
            reveal_strlit("?>");
        }
        match find_str_at(&self.input, cur, "?>") {
            None => {
                let mut m: Vec<char> = Vec::new();
                push_str(&mut m, "Unclosed processing instruction");
                self.error = Some(self.error_at(cur, m));
                Stepped::Stopped
            },
            Some(e) => {
                let close = str_to_chars("?>");
                self.cursor = e + close.len();
                Stepped::Emitted(Token::ProcessingInstruction)
            },
        }
    }

    fn comment_step(&mut self) -> (r: Stepped)
        requires
            old(self).wf(),
            old(self).cursor < old(self).input@.len(),
        ensures
            final(self).input == old(self).input,
            final(self).in_tag == old(self).in_tag,
            final(self).cursor <= final(self).input@.len(),
            match comment_step(old(self).input@, old(self).cursor as int) {
                LexStep::Fail(m) => r is Stopped && (final(self).error matches Some(e) && e@ == m),
                LexStep::Skip(c2, t2) => r is Skipped && final(self).error is None
                    && final(self).cursor == c2 && !t2 && old(self).cursor < c2,
                _ => false,
            },
    {
        let ghost s = self.input@;
        let cur = self.cursor;
        proof {
            lemma_find_from_bounds(s, cur as int, "-->"@);
            reveal_strlit("-->");
        }
        match find_str_at(&self.input, cur, "-->") {
            None => {
                let mut m: Vec<char> = Vec::new();
                push_str(&mut m, "Unclosed comment");
                self.error = Some(self.error_at(cur, m));
                Stepped::Stopped
            },
            Some(e) => {
                let close = str_to_chars("-->");
                self.cursor = e + close.len();
                Stepped::Skipped
            },
        }
    }

    fn cdata_step(&mut self) -> (r: Stepped)
        requires
            old(self).wf(),
            matches_at(old(self).input@, old(self).cursor as int, "<![CDATA["@),
        ensures
            final(self).input == old(self).input,
            final(self).in_tag == old(self).in_tag,
            final(self).cursor <= final(self).input@.len(),
            match cdata_step(old(self).input@, old(self).cursor as int) {
                LexStep::Fail(m) => r is Stopped && (final(self).error matches Some(e) && e@ == m),
                LexStep::Skip(c2, t2) => r is Skipped && final(self).error is None
                    && final(self).cursor == c2 && !t2 && old(self).cursor < c2,
                LexStep::Emit(tok, c2, t2) => r matches Stepped::Emitted(t) && t@ == tok
                    && final(self).error is None && final(self).cursor == c2 && !t2 && old(self).cursor < c2,
                _ => false,
            },
    {
        let ghost s = self.input@;
        let cur = self.cursor;
        proof {
            lemma_find_from_bounds(s, cur as int, "]]>"@);
            reveal_strlit("]]>");
        }
        match find_str_at(&self.input, cur, "]]>") {
            None => {
                let mut m: Vec<char> = Vec::new();
                push_str(&mut m, "Unclosed CDATA section");
                self.error = Some(self.error_at(cur, m));
                Stepped::Stopped
            },
            Some(e) => {
                let open = str_to_chars("<![CDATA[");
                let close = str_to_chars("]]>");
                proof {
                    lemma_cdata_content(s, cur as int, e as int);
                }
                let content = slice_chars(&self.input, cur + open.len(), e);
                self.cursor = e + close.len();
                if content.len() > 0 {
                    Stepped::Emitted(Token::Text(chars_to_string(&content)))
                } else {
                    Stepped::Skipped
                }
            },
        }
    }

    fn open_tag_step(&mut self) -> (r: Stepped)
        requires
            old(self).wf(),
            old(self).cursor < old(self).input@.len(),
        ensures
            final(self).input == old(self).input,
            final(self).cursor <= final(self).input@.len(),
            match open_tag_step(old(self).input@, old(self).cursor as int) {
                LexStep::Fail(m) => r is Stopped && (final(self).error matches Some(e) && e@ == m),
                LexStep::Emit(tok, c2, t2) => r matches Stepped::Emitted(t) && t@ == tok
                    && final(self).error is None && final(self).cursor == c2 && t2 && final(self).in_tag
                    && old(self).cursor < c2,
                _ => false,
            },
    {
        let cur = self.cursor;
        self.in_tag = true;
        let e = name_end_at(&self.input, cur + 1);
        if e == cur + 1 {
            let mut m: Vec<char> = Vec::new();
            push_str(&mut m, "Empty tag name");
            self.error = Some(self.error_at(cur, m));
            return Stepped::Stopped;
        }
        let name = slice_chars(&self.input, cur + 1, e);
        self.cursor = e;
        Stepped::Emitted(Token::TagOpen(chars_to_string(&name)))
    }

    fn text_step(&mut self) -> (r: Stepped)
        requires
            old(self).wf(),
            old(self).cursor < old(self).input@.len(),
            old(self).input@[old(self).cursor as int] != '<',
        ensures
            final(self).input == old(self).input,
            final(self).in_tag == old(self).in_tag,
            final(self).cursor <= final(self).input@.len(),
            match text_step(old(self).input@, old(self).cursor as int) {
                LexStep::Emit(tok, c2, t2) => r matches Stepped::Emitted(t) && t@ == tok
                    && final(self).error is None && final(self).cursor == c2 && !t2 && old(self).cursor < c2,
                _ => false,
            },
    {
        let ghost s = self.input@;
        let cur = self.cursor;
        let n = self.input.len();
        proof {
            lemma_find_char(s, cur as int, '<');
        }
        let e = match find_char_at(&self.input, cur, '<') {
            Some(e) => e,
            None => n,
        };
        let text = slice_chars(&self.input, cur, e);
        let decoded = decode_entity_refs(&text);
        self.cursor = e;
        Stepped::Emitted(Token::Text(chars_to_string(&decoded)))
    }

    /// The attribute at the cursor (inside a tag, after white space).
    fn parse_attribute(&mut self) -> (r: Option<Token>)
        requires
            old(self).wf(),
        ensures
            final(self).input == old(self).input,
            final(self).in_tag == old(self).in_tag,
            final(self).cursor <= final(self).input@.len(),
            match attribute_step(old(self).input@, old(self).cursor as int) {
                LexStep::Halt(k) => r is None && final(self).error is None && final(self).cursor == k,
                LexStep::Fail(m) => r is None && (final(self).error matches Some(e) && e@ == m),
                LexStep::Emit(tok, c2, t2) => r matches Some(t) && t@ == tok && final(self).error is None
                    && final(self).cursor == c2 && t2 && old(self).cursor < c2,
                _ => false,
            },
    {
        let ghost s = self.input@;
        let k = self.cursor;
        let n = self.input.len();
        let ne = attr_name_end_at(&self.input, k);
        let p1 = skip_whitespace_at(&self.input, ne);
        proof {
            lemma_skip_white_space(s, ne as int);
        }
        if !(p1 < n && self.input[p1] == '=') {
            let mut m: Vec<char> = Vec::new();
            push_str(&mut m, "Attribute without '=' in tag");
            self.error = Some(self.error_at(p1, m));
            return None;
        }
        let p2 = skip_whitespace_at(&self.input, p1 + 1);
        proof {
            lemma_skip_white_space(s, p1 + 1);
        }
        if p2 >= n {
            return None;
        }
        let quote = self.input[p2];
        if quote != '"' && quote != '\'' {
            let mut m: Vec<char> = Vec::new();
            push_str(&mut m, "Attribute value must be quoted with '\"' or \"'\" (found '");
            m.push(quote);
            push_str(&mut m, "' after '=')");
            self.error = Some(self.error_at(p2, m));
            return None;
        }
        match find_char_at(&self.input, p2 + 1, quote) {
            None => {
                let mut m: Vec<char> = Vec::new();
                push_str(&mut m, "Unterminated attribute value");
                self.error = Some(self.error_at(p2, m));
                None
            },
            Some(ve) => {
                let key = slice_chars(&self.input, k, ne);
                let raw = slice_chars(&self.input, p2 + 1, ve);
                let value = decode_entity_refs(&raw);
                self.cursor = ve + 1;
                Some(Token::Attr(chars_to_string(&key), chars_to_string(&value)))
            },
        }
    }
}

proof fn lemma_cdata_content(s: Seq<char>, cur: int, e: int)
    requires
        0 <= cur,
        matches_at(s, cur, "<![CDATA["@),
        find_from(s, cur, "]]>"@) == Some(e),
    ensures
        cur + "<![CDATA["@.len() <= e,
        e + "]]>"@.len() <= s.len(),
{
    lemma_find_from_bounds(s, cur, "]]>"@);
    reveal_strlit("<![CDATA[");
    reveal_strlit("]]>");
    if e < cur + 9 {
        assert(s.subrange(e, e + 3)[0] == s[e]);
        assert(s.subrange(cur, cur + 9)[e - cur] == s[e]);
    }
}

// ---------------------------------------------------------------------------
// The shape of the token stream
// ---------------------------------------------------------------------------

/// The shape of a token on its own: a text is not empty; an opening tag's
/// name is not empty and holds no white space, `>` or `/`; a closing tag's
/// name has no white space at either end.
pub open spec fn token_form(t: TokenView) -> bool {
    match t {
        TokenView::Text(x) => x.len() > 0,
        TokenView::TagOpen(n) => n.len() > 0 && forall|j: int|
            0 <= j < n.len() ==> !(is_white_space(#[trigger] n[j]) || n[j] == '>' || n[j] == '/'),
        TokenView::TagClose(n) => trim_white_space(n) == n,
        _ => true,
    }
}

/// The shape of token `i` of `ts`: its [`token_form`], and an attribute or
/// `/>` comes right after an opening tag or an attribute.
pub open spec fn token_shape(ts: Seq<TokenView>, i: int) -> bool {
    &&& token_form(ts[i])
    &&& (ts[i] is Attr || ts[i] is TagSelfClose) ==> i > 0 && (ts[i - 1] is TagOpen
        || ts[i - 1] is Attr)
}

/// What one emitted token `t` is, for a lexer that was inside a tag or not
/// (`in_tag`) and goes on inside a tag or not (`t2`).
pub open spec fn emitted_ok(t: TokenView, in_tag: bool, t2: bool) -> bool {
    &&& token_form(t)
    &&& (t is Attr || t is TagSelfClose) ==> in_tag
    &&& t2 ==> (t is TagOpen || t is Attr)
}

proof fn lemma_decode_from_nonempty(s: Seq<char>, i: int)
    requires
        0 <= i < s.len(),
    ensures
        decode_from(s, i).len() > 0,
{
    if s[i] == '&' {
        match find_char(s, i + 1, ';') {
            None => {},
            Some(j) => {
                lemma_find_char(s, i + 1, ';');
                let e = s.subrange(i + 1, j);
                assert(entity_text(e).len() > 0);
            },
        }
    }
}

proof fn lemma_name_end(s: Seq<char>, i: int)
    requires
        0 <= i <= s.len(),
    ensures
        i <= name_end(s, i) <= s.len(),
        forall|j: int| i <= j < name_end(s, i) ==> !(is_white_space(#[trigger] s[j]) || s[j] == '>'
            || s[j] == '/'),
    decreases s.len() - i,
{
    if i < s.len() && !(is_white_space(s[i]) || s[i] == '>' || s[i] == '/') {
        lemma_name_end(s, i + 1);
    }
}

proof fn lemma_trim_end_index(s: Seq<char>, hi: int, lo: int)
    requires
        0 <= lo <= hi <= s.len(),
    ensures
        lo <= trim_end_index(s, hi, lo) <= hi,
        trim_end_index(s, hi, lo) > lo ==> !is_white_space(s[trim_end_index(s, hi, lo) - 1]),
    decreases hi - lo,
{
    if lo < hi && is_white_space(s[hi - 1]) {
        lemma_trim_end_index(s, hi - 1, lo);
    }
}

/// Trimming white space a second time changes nothing.
pub proof fn lemma_trim_white_space_twice(x: Seq<char>)
    ensures
        trim_white_space(trim_white_space(x)) == trim_white_space(x),
{
    let lo = skip_white_space(x, 0);
    lemma_skip_white_space(x, 0);
    let h = trim_end_index(x, x.len() as int, lo);
    lemma_trim_end_index(x, x.len() as int, lo);
    let t = x.subrange(lo, h);
    assert(trim_white_space(x) == t);
    if t.len() > 0 {
        assert(t[0] == x[lo]);
        assert(skip_white_space(t, 0) == 0);
        assert(t[t.len() - 1] == x[h - 1]);
        assert(trim_end_index(t, t.len() as int, 0) == t.len());
    }
    assert(t.subrange(0, t.len() as int) =~= t);
}

proof fn lemma_xml_step_shape(s: Seq<char>, cur: int, in_tag: bool)
    requires
        0 <= cur,
    ensures
        xml_step(s, cur, in_tag) matches LexStep::Emit(t, _, t2) ==> emitted_ok(t, in_tag, t2),
        xml_step(s, cur, in_tag) matches LexStep::Skip(_, t2) ==> !t2,
{
    if cur < s.len() {
        if in_tag {
        } else if matches_at(s, cur, "</"@) {
            match find_char(s, cur, '>') {
                None => {},
                Some(e) => {
                    lemma_trim_white_space_twice(s.subrange(cur + "</"@.len(), e));
                },
            }
        } else if matches_at(s, cur, "<?"@) {
        } else if matches_at(s, cur, "<!--"@) {
        } else if matches_at(s, cur, "<![CDATA["@) {
        } else if matches_at(s, cur, "<!"@) {
        } else if s[cur] == '<' {
            lemma_name_end(s, cur + 1);
            let e = name_end(s, cur + 1);
            let n = s.subrange(cur + 1, e);
            assert forall|j: int| 0 <= j < n.len() implies !(is_white_space(#[trigger] n[j])
                || n[j] == '>' || n[j] == '/') by {
                assert(n[j] == s[cur + 1 + j]);
            }
        } else {
            lemma_find_char(s, cur, '<');
            let e = match find_char(s, cur, '<') {
                Some(e) => e,
                None => s.len() as int,
            };
            lemma_decode_from_nonempty(s.subrange(cur, e), 0);
        }
    }
}

proof fn lemma_next_event_shape(s: Seq<char>, cur: int, in_tag: bool)
    requires
        0 <= cur,
    ensures
        next_event(s, cur, in_tag) matches LexStep::Emit(t, _, t2) ==> emitted_ok(t, in_tag, t2),
    decreases s.len() - cur,
{
    lemma_xml_step_shape(s, cur, in_tag);
    if let LexStep::Skip(c2, t2) = xml_step(s, cur, in_tag) {
        if cur < c2 <= s.len() {
            lemma_next_event_shape(s, c2, t2);
        }
    }
}

proof fn lemma_lex_shape(s: Seq<char>, cur: int, in_tag: bool, acc: Seq<TokenView>)
    requires
        0 <= cur,
        forall|i: int| 0 <= i < acc.len() ==> token_shape(acc, i),
        in_tag ==> acc.len() > 0 && (acc.last() is TagOpen || acc.last() is Attr),
    ensures
        lex_xml_from(s, cur, in_tag, acc) matches Ok(ts) ==> forall|i: int|
            0 <= i < ts.len() ==> token_shape(ts, i),
    decreases s.len() - cur,
{
    lemma_next_event_shape(s, cur, in_tag);
    if let LexStep::Emit(t, c2, t2) = next_event(s, cur, in_tag) {
        if cur < c2 <= s.len() {
            let acc2 = acc.push(t);
            let n = acc.len() as int;
            assert forall|i: int| 0 <= i < acc2.len() implies token_shape(acc2, i) by {
                if i < n {
                    assert(acc2[i] == acc[i]);
                    if i > 0 {
                        assert(acc2[i - 1] == acc[i - 1]);
                    }
                    assert(token_shape(acc, i));
                } else {
                    assert(acc2[i] == t);
                    if i > 0 {
                        assert(acc2[i - 1] == acc.last());
                    }
                }
            }
            lemma_lex_shape(s, c2, t2, acc2);
        }
    }
}

/// The tokens of every XML text the lexer accepts have the shape of
/// [`token_shape`]: no empty text; opening tag names that are not empty and
/// hold no white space, `>` or `/`; closing tag names without white space at
/// either end; attributes and `/>` only right after an opening tag or an
/// attribute.
pub proof fn lemma_token_shapes(s: Seq<char>)
    ensures
        xml_tokens(s) matches Ok(ts) ==> forall|i: int| 0 <= i < ts.len() ==> token_shape(ts, i),
{
    lemma_lex_shape(s, 0, false, Seq::empty());
}

// ---------------------------------------------------------------------------
// Attribute values, whatever their quotes
// ---------------------------------------------------------------------------

/// The text `<n a=qvq/>`: an empty element `n` with one attribute `a`
/// whose value `v` stands between the quotes `q`.
pub open spec fn attribute_tag_text(n: Seq<char>, a: Seq<char>, v: Seq<char>, q: char) -> Seq<char> {
    seq!['<'] + n + seq![' '] + a + seq!['=', q] + v + seq![q, '/', '>']
}

/// A name that can stand as a tag name: not empty, not starting a
/// processing instruction or declaration, and without white space, `>`
/// or `/`.
pub open spec fn plain_tag_name(n: Seq<char>) -> bool {
    &&& n.len() > 0
    &&& n[0] != '?' && n[0] != '!'
    &&& forall|i: int| 0 <= i < n.len() ==> !(is_white_space(#[trigger] n[i]) || n[i] == '>' || n[i] == '/')
}

/// A name that can stand as an attribute name: without white space, `=`,
/// `>` or `/`.
pub open spec fn plain_attribute_name(a: Seq<char>) -> bool {
    forall|i: int| 0 <= i < a.len() ==> !(is_white_space(#[trigger] a[i]) || a[i] == '=' || a[i] == '>'
        || a[i] == '/')
}

proof fn lemma_name_end_exact(s: Seq<char>, i: int, j: int)
    requires
        0 <= i <= j < s.len(),
        forall|k: int| i <= k < j ==> !(is_white_space(#[trigger] s[k]) || s[k] == '>' || s[k] == '/'),
        is_white_space(s[j]) || s[j] == '>' || s[j] == '/',
    ensures
        name_end(s, i) == j,
    decreases j - i,
{
    if i < j {
        assert(!(is_white_space(s[i]) || s[i] == '>' || s[i] == '/'));
        lemma_name_end_exact(s, i + 1, j);
    }
}

proof fn lemma_attr_name_end_exact(s: Seq<char>, i: int, j: int)
    requires
        0 <= i <= j < s.len(),
        forall|k: int| i <= k < j ==> !(is_white_space(#[trigger] s[k]) || s[k] == '=' || s[k] == '>'
            || s[k] == '/'),
        s[j] == '=',
    ensures
        attr_name_end(s, i) == j,
    decreases j - i,
{
    if i < j {
        assert(!(is_white_space(s[i]) || s[i] == '=' || s[i] == '>' || s[i] == '/'));
        lemma_attr_name_end_exact(s, i + 1, j);
    }
}

proof fn lemma_find_char_exact(s: Seq<char>, i: int, j: int, c: char)
    requires
        0 <= i <= j < s.len(),
        forall|k: int| i <= k < j ==> #[trigger] s[k] != c,
        s[j] == c,
    ensures
        find_char(s, i, c) == Some(j),
    decreases j - i,
{
    if i < j {
        assert(s[i] != c);
        lemma_find_char_exact(s, i + 1, j, c);
    }
}

proof fn lemma_attribute_tag_layout(n: Seq<char>, a: Seq<char>, v: Seq<char>, q: char)
    ensures
        ({
            let s = attribute_tag_text(n, a, v, q);
            let e0 = 1 + n.len() as int;
            let k = e0 + 1;
            let ne = k + a.len() as int;
            let p2 = ne + 1;
            let ve = p2 + 1 + v.len() as int;
            &&& s.len() == ve + 3
            &&& s[0] == '<'
            &&& forall|x: int| 0 <= x < n.len() ==> s[1 + x] == #[trigger] n[x]
            &&& s[e0] == ' '
            &&& forall|x: int| 0 <= x < a.len() ==> s[k + x] == #[trigger] a[x]
            &&& s[ne] == '='
            &&& s[p2] == q
            &&& forall|x: int| 0 <= x < v.len() ==> s[p2 + 1 + x] == #[trigger] v[x]
            &&& s[ve] == q
            &&& s[ve + 1] == '/'
            &&& s[ve + 2] == '>'
            &&& s.subrange(1, e0) == n
            &&& s.subrange(k, ne) == a
            &&& s.subrange(p2 + 1, ve) == v
        }),
{
    let s = attribute_tag_text(n, a, v, q);
    let e0 = 1 + n.len() as int;
    let k = e0 + 1;
    let ne = k + a.len() as int;
    let p2 = ne + 1;
    let ve = p2 + 1 + v.len() as int;
    assert(s.subrange(1, e0) =~= n);
    assert(s.subrange(k, ne) =~= a);
    assert(s.subrange(p2 + 1, ve) =~= v);
}

#[verifier::spinoff_prover]
#[verifier::rlimit(40)]
proof fn lemma_attribute_tag_open(n: Seq<char>, a: Seq<char>, v: Seq<char>, q: char)
    requires
        plain_tag_name(n),
    ensures
        next_event(attribute_tag_text(n, a, v, q), 0, false) == LexStep::Emit(
            TokenView::TagOpen(n),
            1 + n.len() as int,
            true,
        ),
{
    reveal_strlit("</");
    reveal_strlit("<?");
    reveal_strlit("<!--");
    reveal_strlit("<![CDATA[");
    reveal_strlit("<!");
    let s = attribute_tag_text(n, a, v, q);
    let e0 = 1 + n.len() as int;
    lemma_attribute_tag_layout(n, a, v, q);
    assert(s[1] == n[0]) by {
        assert(s[1 + 0int] == n[0]);
    }
    assert(!matches_at(s, 0, "</"@)) by {
        if matches_at(s, 0, "</"@) {
            assert(s.subrange(0, 2)[1] == s[1]);
        }
    }
    assert(!matches_at(s, 0, "<?"@)) by {
        if matches_at(s, 0, "<?"@) {
            assert(s.subrange(0, 2)[1] == s[1]);
        }
    }
    assert(!matches_at(s, 0, "<!--"@)) by {
        if matches_at(s, 0, "<!--"@) {
            assert(s.subrange(0, 4)[1] == s[1]);
        }
    }
    assert(!matches_at(s, 0, "<![CDATA["@)) by {
        if matches_at(s, 0, "<![CDATA["@) {
            assert(s.subrange(0, 9)[1] == s[1]);
        }
    }
    assert(!matches_at(s, 0, "<!"@)) by {
        if matches_at(s, 0, "<!"@) {
            assert(s.subrange(0, 2)[1] == s[1]);
        }
    }
    assert forall|x: int| 1 <= x < e0 implies !(is_white_space(#[trigger] s[x]) || s[x] == '>' || s[x]
        == '/') by {
        assert(s[1 + (x - 1)] == n[x - 1]);
    }
    assert(is_white_space(' '));
    lemma_name_end_exact(s, 1, e0);
    assert(open_tag_step(s, 0) == LexStep::Emit(TokenView::TagOpen(n), e0, true));
}

#[verifier::spinoff_prover]
#[verifier::rlimit(40)]
proof fn lemma_attribute_tag_value(n: Seq<char>, a: Seq<char>, v: Seq<char>, q: char)
    requires
        plain_attribute_name(a),
        q == '\'' || q == '"',
        forall|i: int| 0 <= i < v.len() ==> #[trigger] v[i] != q,
    ensures
        next_event(attribute_tag_text(n, a, v, q), 1 + n.len() as int, true) == LexStep::Emit(
            TokenView::Attr(a, decode_entities(v)),
            n.len() as int + a.len() + v.len() + 5,
            true,
        ),
{
    reveal_strlit("/>");
    let s = attribute_tag_text(n, a, v, q);
    let e0 = 1 + n.len() as int;
    let k = e0 + 1;
    let ne = k + a.len() as int;
    let p2 = ne + 1;
    let ve = p2 + 1 + v.len() as int;
    lemma_attribute_tag_layout(n, a, v, q);
    assert(is_white_space(' '));
    assert(!is_white_space(s[k]) && s[k] != '/' && s[k] != '>') by {
        if a.len() > 0 {
            assert(s[k + 0] == a[0]);
        }
    }
    assert(skip_white_space(s, k) == k);
    assert(skip_white_space(s, e0) == k);
    assert(!matches_at(s, k, "/>"@)) by {
        if matches_at(s, k, "/>"@) {
            assert(s.subrange(k, k + 2)[0] == s[k]);
        }
    }
    assert forall|x: int| k <= x < ne implies !(is_white_space(#[trigger] s[x]) || s[x] == '=' || s[x]
        == '>' || s[x] == '/') by {
        assert(s[k + (x - k)] == a[x - k]);
    }
    lemma_attr_name_end_exact(s, k, ne);
    assert(skip_white_space(s, ne) == ne);
    assert(!is_white_space(q));
    assert(skip_white_space(s, p2) == p2);
    assert forall|x: int| p2 + 1 <= x < ve implies #[trigger] s[x] != q by {
        assert(s[p2 + 1 + (x - p2 - 1)] == v[x - p2 - 1]);
    }
    lemma_find_char_exact(s, p2 + 1, ve, q);
    assert(attribute_step(s, k) == LexStep::Emit(TokenView::Attr(a, decode_entities(v)), ve + 1, true));
    assert(tag_step(s, e0) == attribute_step(s, k));
}

proof fn lemma_attribute_tag_close(n: Seq<char>, a: Seq<char>, v: Seq<char>, q: char)
    ensures
        next_event(attribute_tag_text(n, a, v, q), n.len() as int + a.len() + v.len() + 5, true)
            == LexStep::Emit(TokenView::TagSelfClose, n.len() as int + a.len() + v.len() + 7, false),
{
    reveal_strlit("/>");
    let s = attribute_tag_text(n, a, v, q);
    let c = n.len() as int + a.len() + v.len() + 5;
    lemma_attribute_tag_layout(n, a, v, q);
    assert(skip_white_space(s, c) == c);
    assert(s.subrange(c, c + 2) =~= seq!['/', '>']);
    assert("/>"@ =~= seq!['/', '>']);
    assert(matches_at(s, c, "/>"@));
}

/// The tokens of `<n a=qvq/>`.
pub(crate) proof fn lemma_attribute_tag_tokens(n: Seq<char>, a: Seq<char>, v: Seq<char>, q: char)
    requires
        plain_tag_name(n),
        plain_attribute_name(a),
        q == '\'' || q == '"',
        forall|i: int| 0 <= i < v.len() ==> #[trigger] v[i] != q,
    ensures
        xml_tokens(attribute_tag_text(n, a, v, q)) == Ok::<Seq<TokenView>, Seq<char>>(
            seq![
                TokenView::TagOpen(n),
                TokenView::Attr(a, decode_entities(v)),
                TokenView::TagSelfClose,
            ],
        ),
{
    let s = attribute_tag_text(n, a, v, q);
    let e0 = 1 + n.len() as int;
    let c = n.len() as int + a.len() + v.len() + 5;
    let len = n.len() as int + a.len() + v.len() + 7;
    assert(s.len() == len);
    lemma_attribute_tag_open(n, a, v, q);
    lemma_attribute_tag_value(n, a, v, q);
    lemma_attribute_tag_close(n, a, v, q);
    let t1 = TokenView::TagOpen(n);
    let t2 = TokenView::Attr(a, decode_entities(v));
    let t3 = TokenView::TagSelfClose;
    let acc1 = Seq::<TokenView>::empty().push(t1);
    let acc2 = acc1.push(t2);
    let acc3 = acc2.push(t3);
    assert(next_event(s, len, false) == LexStep::End(false));
    assert(lex_xml_from(s, len, false, acc3) == Ok::<Seq<TokenView>, Seq<char>>(acc3));
    assert(lex_xml_from(s, c, true, acc2) == lex_xml_from(s, len, false, acc3));
    assert(lex_xml_from(s, e0, true, acc1) == lex_xml_from(s, c, true, acc2));
    assert(lex_xml_from(s, 0, false, Seq::empty()) == lex_xml_from(s, e0, true, acc1));
    assert(acc3 =~= seq![t1, t2, t3]);
}

/// An attribute value is read the same whether it stands between single
/// or double quotes: `<n a='v'/>` and `<n a="v"/>` give the same tokens,
/// the attribute's value being `v` with its entity references replaced.
pub proof fn lemma_attribute_quotes_agree(n: Seq<char>, a: Seq<char>, v: Seq<char>)
    requires
        plain_tag_name(n),
        plain_attribute_name(a),
        forall|i: int| 0 <= i < v.len() ==> #[trigger] v[i] != '\'' && v[i] != '"',
    ensures
        xml_tokens(attribute_tag_text(n, a, v, '\'')) == xml_tokens(attribute_tag_text(n, a, v, '"')),
        xml_tokens(attribute_tag_text(n, a, v, '"')) == Ok::<Seq<TokenView>, Seq<char>>(
            seq![
                TokenView::TagOpen(n),
                TokenView::Attr(a, decode_entities(v)),
                TokenView::TagSelfClose,
            ],
        ),
{
    lemma_attribute_tag_tokens(n, a, v, '\'');
    lemma_attribute_tag_tokens(n, a, v, '"');
}

/// An attribute value runs up to the next quote of the kind that opened
/// it: in `<n a=qvq/>` the value `v` may hold the other kind of quote, and
/// the attribute's value is `v` with its entity references replaced. So
/// `<n a='say "hi"'/>` gives `say "hi"` and `<n a="it's"/>` gives `it's`.
pub proof fn lemma_attribute_value_to_its_quote(n: Seq<char>, a: Seq<char>, v: Seq<char>, q: char)
    requires
        plain_tag_name(n),
        plain_attribute_name(a),
        q == '\'' || q == '"',
        forall|i: int| 0 <= i < v.len() ==> #[trigger] v[i] != q,
    ensures
        xml_tokens(attribute_tag_text(n, a, v, q)) == Ok::<Seq<TokenView>, Seq<char>>(
            seq![
                TokenView::TagOpen(n),
                TokenView::Attr(a, decode_entities(v)),
                TokenView::TagSelfClose,
            ],
        ),
{
    lemma_attribute_tag_tokens(n, a, v, q);
}

} // verus!
