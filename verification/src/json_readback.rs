//! The JSON text that the XML to JSON conversion writes is read back by the
//! JSON lexer of the JSON to XML conversion.

use vstd::prelude::*;
use crate::json_to_xml::json_lexer::{
    json_tokens, lex_from, lex_literal, lex_string_body, lex_token, lex_unicode_escape, literal_end,
    simple_escape,
};
use crate::json_to_xml::json_model::{JsonValue, MAX_DEPTH, TokenView};
use crate::json_to_xml::json_parser::{
    parse_array, parse_document, parse_elements, parse_members, parse_object, parse_value,
};
use crate::json_to_xml::{json_to_xml, xml_document_of};
use crate::round_trip::lemma_string_body_reads;
use crate::text::{
    ascii_lower, digits_end, eq_ignore_ascii_case, exponent_ok, float_literal, is_ascii_digit,
    is_white_space, lemma_skip_white_space, number_syntax, skip_white_space, spaces,
};
use crate::xml_to_json::{lemma_indent_keeps_outcome, strip_bom, xml_to_json};
use crate::xml_to_json::xml_lexer::xml_tokens;
use crate::xml_to_json::xml_parser::{element_name, lemma_document_is_element, xml_document};
use crate::xml_to_json::xml_model::{
    XmlValue, attribute_part, attribute_parts, children_json, element_json, element_texts,
    group_members, group_names, group_part, group_parts, join, join_all, json_array, json_object,
    json_of, json_string, pretty_members,
};

verus! {

// ---------------------------------------------------------------------------
// Reading a piece of text wherever it stands
// ---------------------------------------------------------------------------

/// `w` stands in `t` at index `p`.
pub open spec fn occurs_at(t: Seq<char>, p: int, w: Seq<char>) -> bool {
    0 <= p && p + w.len() <= t.len() && t.subrange(p, p + w.len()) == w
}

/// Wherever `w` stands, the JSON lexer reads it as the tokens `ts` and goes
/// on right after it.
#[verifier::opaque]
pub open spec fn lexes_as(w: Seq<char>, ts: Seq<TokenView>) -> bool {
    forall|t: Seq<char>, p: int, acc: Seq<TokenView>|
        occurs_at(t, p, w) ==> #[trigger] lex_from(t, p, acc) == lex_from(t, p + w.len(), acc + ts)
}

proof fn lemma_string_body_advances(s: Seq<char>, p: int, acc: Seq<char>, q: int)
    requires
        0 <= p,
    ensures
        lex_string_body(s, p, acc, q) matches Ok((_, e)) ==> e > p,
    decreases s.len() - p,
{
    if 0 <= p < s.len() {
        if s[p] == '\\' {
            if p + 1 < s.len() {
                match simple_escape(s[p + 1]) {
                    Some(x) => {
                        lemma_string_body_advances(s, p + 2, acc.push(x), q);
                    },
                    None => {
                        if s[p + 1] == 'u' {
                            match lex_unicode_escape(s, p + 2, q) {
                                Ok((ch, np)) => {
                                    if p < np <= s.len() {
                                        lemma_string_body_advances(s, np, acc.push(ch), q);
                                    }
                                },
                                Err(_) => {},
                            }
                        }
                    },
                }
            }
        } else if s[p] != '"' {
            lemma_string_body_advances(s, p + 1, acc.push(s[p]), q);
        }
    }
}

proof fn lemma_literal_end_bound(s: Seq<char>, p: int)
    ensures
        literal_end(s, p) >= p,
    decreases s.len() - p,
{
    if 0 <= p < s.len() {
        lemma_literal_end_bound(s, p + 1);
    }
}

/// A token that is read ends after it starts.
pub(crate) proof fn lemma_token_advances(s: Seq<char>, q: int)
    requires
        0 <= q < s.len(),
    ensures
        lex_token(s, q) matches Ok((_, e)) ==> e > q,
{
    reveal(lex_token);
    lemma_string_body_advances(s, q + 1, Seq::empty(), q);
    lemma_literal_end_bound(s, q + 1);
}

proof fn lemma_skip_over_white(t: Seq<char>, p: int, n: int)
    requires
        0 <= p,
        0 <= n,
        p + n <= t.len(),
        forall|k: int| p <= k < p + n ==> is_white_space(#[trigger] t[k]),
    ensures
        skip_white_space(t, p) == skip_white_space(t, p + n),
    decreases n,
{
    if n > 0 {
        lemma_skip_over_white(t, p + 1, n - 1);
    }
}

/// A piece made of white space only is read as no token.
proof fn lemma_white_lexes(w: Seq<char>)
    requires
        forall|k: int| 0 <= k < w.len() ==> is_white_space(#[trigger] w[k]),
    ensures
        lexes_as(w, Seq::empty()),
{
    reveal(lexes_as);
    assert forall|t: Seq<char>, p: int, acc: Seq<TokenView>| occurs_at(t, p, w) implies #[trigger] lex_from(
        t,
        p,
        acc,
    ) == lex_from(t, p + w.len(), acc + Seq::<TokenView>::empty()) by {
        assert forall|k: int| p <= k < p + w.len() implies is_white_space(#[trigger] t[k]) by {
            assert(t[k] == t.subrange(p, p + w.len())[k - p]);
            assert(w[k - p] == t[k]);
        }
        lemma_skip_over_white(t, p, w.len() as int);
        lemma_skip_white_space(t, p + w.len());
        let q = skip_white_space(t, p);
        if q < t.len() {
            lemma_token_advances(t, q);
        }
        assert(acc + Seq::<TokenView>::empty() =~= acc);
    }
}

/// A punctuation character is read as its token.
proof fn lemma_punct_lexes(c: char, tok: TokenView)
    requires
        (c == '{' && tok == TokenView::BraceOpen) || (c == '}' && tok == TokenView::BraceClose) || (c
            == '[' && tok == TokenView::BracketOpen) || (c == ']' && tok == TokenView::BracketClose)
            || (c == ':' && tok == TokenView::Colon) || (c == ',' && tok == TokenView::Comma),
    ensures
        lexes_as(seq![c], seq![tok]),
{
    reveal(lexes_as);
    assert forall|t: Seq<char>, p: int, acc: Seq<TokenView>| occurs_at(t, p, seq![c]) implies #[trigger] lex_from(
        t,
        p,
        acc,
    ) == lex_from(t, p + 1, acc + seq![tok]) by {
        assert(t[p] == t.subrange(p, p + 1)[0]);
        assert(!is_white_space(c));
        assert(skip_white_space(t, p) == p);
        assert(lex_token(t, p) == Ok::<(TokenView, int), Seq<char>>((tok, p + 1))) by {
            reveal(lex_token);
        }
        assert(acc + seq![tok] =~= acc.push(tok));
    }
}

/// A JSON string as the XML side writes it is read as one string token.
proof fn lemma_string_lexes(s: Seq<char>)
    ensures
        lexes_as(json_string(s), seq![TokenView::StringVal(s)]),
{
    reveal(lexes_as);
    let js = json_string(s);
    assert forall|t: Seq<char>, p: int, acc: Seq<TokenView>| occurs_at(t, p, js) implies #[trigger] lex_from(
        t,
        p,
        acc,
    ) == lex_from(t, p + js.len(), acc + seq![TokenView::StringVal(s)]) by {
        lemma_string_body_reads(t, p, s);
        assert(t[p] == t.subrange(p, p + js.len())[0]);
        assert(!is_white_space('"'));
        assert(skip_white_space(t, p) == p);
        assert(lex_token(t, p) == Ok::<(TokenView, int), Seq<char>>(
            (TokenView::StringVal(s), p + js.len()),
        )) by {
            reveal(lex_token);
        }
        assert(acc + seq![TokenView::StringVal(s)] =~= acc.push(TokenView::StringVal(s)));
    }
}

/// Text free of quotes and backslashes.
pub open spec fn plain_text(s: Seq<char>) -> bool {
    forall|i: int| 0 <= i < s.len() ==> s[i] != '"' && s[i] != '\\'
}

proof fn lemma_raw_body(t: Seq<char>, p0: int, s: Seq<char>, n: int)
    requires
        plain_text(s),
        0 <= n <= s.len(),
        occurs_at(t, p0, seq!['"'] + s + seq!['"']),
    ensures
        lex_string_body(t, p0 + 1, Seq::empty(), p0) == lex_string_body(t, p0 + 1 + n, s.take(n), p0),
    decreases n,
{
    if n > 0 {
        lemma_raw_body(t, p0, s, n - 1);
        let w = seq!['"'] + s + seq!['"'];
        assert(t[p0 + n] == t.subrange(p0, p0 + w.len())[n]);
        assert(w[n] == s[n - 1]);
        assert(s.take(n - 1).push(s[n - 1]) =~= s.take(n));
        assert(p0 + 1 + (n - 1) + 1 == p0 + 1 + n);
    } else {
        assert(s.take(0) =~= Seq::<char>::empty());
    }
}

/// A text free of quotes and backslashes between quotes is read as one
/// string token.
proof fn lemma_quoted_lexes(s: Seq<char>)
    requires
        plain_text(s),
    ensures
        lexes_as(seq!['"'] + s + seq!['"'], seq![TokenView::StringVal(s)]),
{
    reveal(lexes_as);
    let w = seq!['"'] + s + seq!['"'];
    assert forall|t: Seq<char>, p: int, acc: Seq<TokenView>| occurs_at(t, p, w) implies #[trigger] lex_from(
        t,
        p,
        acc,
    ) == lex_from(t, p + w.len(), acc + seq![TokenView::StringVal(s)]) by {
        lemma_raw_body(t, p, s, s.len() as int);
        assert(s.take(s.len() as int) =~= s);
        assert(t[p] == t.subrange(p, p + w.len())[0]);
        assert(t[p + 1 + s.len()] == t.subrange(p, p + w.len())[1 + s.len() as int]);
        assert(lex_string_body(t, p + 1 + s.len(), s, p) == Ok::<(Seq<char>, int), Seq<char>>(
            (s, p + w.len()),
        ));
        assert(!is_white_space('"'));
        assert(skip_white_space(t, p) == p);
        assert(lex_token(t, p) == Ok::<(TokenView, int), Seq<char>>(
            (TokenView::StringVal(s), p + w.len()),
        )) by {
            reveal(lex_token);
        }
        assert(acc + seq![TokenView::StringVal(s)] =~= acc.push(TokenView::StringVal(s)));
    }
}

/// Two pieces one after the other are read as their tokens one after the
/// other.
proof fn lemma_concat_lexes(a: Seq<char>, ta: Seq<TokenView>, b: Seq<char>, tb: Seq<TokenView>)
    requires
        lexes_as(a, ta),
        lexes_as(b, tb),
    ensures
        lexes_as(a + b, ta + tb),
{
    reveal(lexes_as);
    let w = a + b;
    assert forall|t: Seq<char>, p: int, acc: Seq<TokenView>| occurs_at(t, p, w) implies #[trigger] lex_from(
        t,
        p,
        acc,
    ) == lex_from(t, p + w.len(), acc + (ta + tb)) by {
        assert(t.subrange(p, p + a.len()) =~= a) by {
            assert forall|k: int| 0 <= k < a.len() implies t.subrange(p, p + a.len())[k] == a[k] by {
                assert(t[p + k] == t.subrange(p, p + w.len())[k]);
                assert(w[k] == a[k]);
            }
        }
        assert(t.subrange(p + a.len(), p + a.len() + b.len()) =~= b) by {
            assert forall|k: int| 0 <= k < b.len() implies t.subrange(p + a.len(), p + a.len() + b.len())[k]
                == b[k] by {
                assert(t[p + a.len() + k] == t.subrange(p, p + w.len())[a.len() + k]);
                assert(w[a.len() + k] == b[k]);
            }
        }
        assert(occurs_at(t, p, a));
        assert(occurs_at(t, p + a.len(), b));
        assert(lex_from(t, p, acc) == lex_from(t, p + a.len(), acc + ta));
        assert(lex_from(t, p + a.len(), acc + ta) == lex_from(t, p + a.len() + b.len(), (acc + ta) + tb));
        assert((acc + ta) + tb =~= acc + (ta + tb));
    }
}

proof fn lemma_empty_lexes()
    ensures
        lexes_as(Seq::empty(), Seq::empty()),
{
    lemma_white_lexes(Seq::empty());
}

/// Every character of `w` is white space.
pub open spec fn all_white(w: Seq<char>) -> bool {
    forall|k: int| 0 <= k < w.len() ==> is_white_space(#[trigger] w[k])
}

pub(crate) proof fn lemma_spaces_white(n: nat)
    ensures
        all_white(spaces(n)),
{
    assert forall|k: int| 0 <= k < spaces(n).len() implies is_white_space(#[trigger] spaces(n)[k]) by {
        assert(spaces(n)[k] == ' ');
    }
}

/// A punctuation character followed by white space.
proof fn lemma_punct_white_lexes(c: char, tok: TokenView, w: Seq<char>)
    requires
        (c == '{' && tok == TokenView::BraceOpen) || (c == '}' && tok == TokenView::BraceClose) || (c
            == '[' && tok == TokenView::BracketOpen) || (c == ']' && tok == TokenView::BracketClose)
            || (c == ':' && tok == TokenView::Colon) || (c == ',' && tok == TokenView::Comma),
        all_white(w),
    ensures
        lexes_as(seq![c] + w, seq![tok]),
{
    lemma_punct_lexes(c, tok);
    lemma_white_lexes(w);
    lemma_concat_lexes(seq![c], seq![tok], w, Seq::empty());
    assert(seq![tok] + Seq::<TokenView>::empty() =~= seq![tok]);
}

/// White space followed by a punctuation character.
proof fn lemma_white_punct_lexes(w: Seq<char>, c: char, tok: TokenView)
    requires
        (c == '{' && tok == TokenView::BraceOpen) || (c == '}' && tok == TokenView::BraceClose) || (c
            == '[' && tok == TokenView::BracketOpen) || (c == ']' && tok == TokenView::BracketClose)
            || (c == ':' && tok == TokenView::Colon) || (c == ',' && tok == TokenView::Comma),
        all_white(w),
    ensures
        lexes_as(w + seq![c], seq![tok]),
{
    lemma_punct_lexes(c, tok);
    lemma_white_lexes(w);
    lemma_concat_lexes(w, Seq::empty(), seq![c], seq![tok]);
    assert(Seq::<TokenView>::empty() + seq![tok] =~= seq![tok]);
}

// ---------------------------------------------------------------------------
// Tokens of joined pieces, objects and arrays
// ---------------------------------------------------------------------------

/// The first `n` token sequences of `parts`, with `sep` between them.
pub open spec fn join_tokens(parts: Seq<Seq<TokenView>>, sep: Seq<TokenView>, n: int) -> Seq<TokenView>
    decreases n,
{
    if n <= 0 || n > parts.len() {
        Seq::empty()
    } else if n == 1 {
        parts[0]
    } else {
        join_tokens(parts, sep, n - 1) + sep + parts[n - 1]
    }
}

/// The tokens of an object whose members have the tokens `parts`.
pub open spec fn object_tokens(parts: Seq<Seq<TokenView>>) -> Seq<TokenView> {
    seq![TokenView::BraceOpen] + join_tokens(parts, seq![TokenView::Comma], parts.len() as int)
        + seq![TokenView::BraceClose]
}

/// The tokens of an array whose items have the tokens `items`.
pub open spec fn array_tokens(items: Seq<Seq<TokenView>>) -> Seq<TokenView> {
    seq![TokenView::BracketOpen] + join_tokens(items, seq![TokenView::Comma], items.len() as int)
        + seq![TokenView::BracketClose]
}

/// Each piece of `parts` is read as the tokens at the same index of `pt`.
pub open spec fn all_lex(parts: Seq<Seq<char>>, pt: Seq<Seq<TokenView>>) -> bool {
    &&& parts.len() == pt.len()
    &&& forall|k: int| 0 <= k < parts.len() ==> lexes_as(#[trigger] parts[k], pt[k])
}

proof fn lemma_join_lexes(
    parts: Seq<Seq<char>>,
    pt: Seq<Seq<TokenView>>,
    sep: Seq<char>,
    st: Seq<TokenView>,
    n: int,
)
    requires
        0 <= n <= parts.len(),
        all_lex(parts, pt),
        lexes_as(sep, st),
    ensures
        lexes_as(join(parts, sep, n), join_tokens(pt, st, n)),
    decreases n,
{
    if n == 0 {
        lemma_empty_lexes();
    } else if n == 1 {
        assert(lexes_as(parts[0], pt[0]));
    } else {
        lemma_join_lexes(parts, pt, sep, st, n - 1);
        assert(lexes_as(parts[n - 1], pt[n - 1]));
        lemma_concat_lexes(join(parts, sep, n - 1), join_tokens(pt, st, n - 1), sep, st);
        lemma_concat_lexes(
            join(parts, sep, n - 1) + sep,
            join_tokens(pt, st, n - 1) + st,
            parts[n - 1],
            pt[n - 1],
        );
    }
}

proof fn lemma_pretty_members_lexes(parts: Seq<Seq<char>>, pt: Seq<Seq<TokenView>>, pad: Seq<char>, n: int)
    requires
        0 <= n <= parts.len(),
        all_lex(parts, pt),
        all_white(pad),
    ensures
        lexes_as(
            pretty_members(parts, n, pad),
            join_tokens(pt, seq![TokenView::Comma], n) + (if 0 < n < parts.len() {
                seq![TokenView::Comma]
            } else {
                Seq::empty()
            }),
        ),
    decreases n,
{
    let comma = seq![TokenView::Comma];
    if n == 0 {
        lemma_empty_lexes();
        assert(join_tokens(pt, comma, 0) + Seq::<TokenView>::empty() =~= Seq::<TokenView>::empty());
    } else {
        lemma_pretty_members_lexes(parts, pt, pad, n - 1);
        let prev = pretty_members(parts, n - 1, pad);
        let tprev = join_tokens(pt, comma, n - 1) + (if 0 < n - 1 < parts.len() {
            comma
        } else {
            Seq::empty()
        });
        lemma_white_lexes(pad);
        assert(lexes_as(parts[n - 1], pt[n - 1]));
        let c = if n < parts.len() {
            seq![',']
        } else {
            Seq::empty()
        };
        let tc = if n < parts.len() {
            comma
        } else {
            Seq::empty()
        };
        if n < parts.len() {
            lemma_punct_lexes(',', TokenView::Comma);
        } else {
            lemma_empty_lexes();
        }
        assert(all_white(seq!['\n']));
        lemma_white_lexes(seq!['\n']);
        lemma_concat_lexes(prev, tprev, pad, Seq::empty());
        lemma_concat_lexes(prev + pad, tprev + Seq::empty(), parts[n - 1], pt[n - 1]);
        lemma_concat_lexes(prev + pad + parts[n - 1], tprev + Seq::empty() + pt[n - 1], c, tc);
        lemma_concat_lexes(
            prev + pad + parts[n - 1] + c,
            tprev + Seq::empty() + pt[n - 1] + tc,
            seq!['\n'],
            Seq::empty(),
        );
        assert(tprev + Seq::empty() + pt[n - 1] + tc + Seq::empty() =~= join_tokens(pt, comma, n) + tc);
    }
}

proof fn lemma_object_lexes(parts: Seq<Seq<char>>, pt: Seq<Seq<TokenView>>, depth: nat, indent: Option<nat>)
    requires
        all_lex(parts, pt),
    ensures
        lexes_as(json_object(parts, depth, indent), object_tokens(pt)),
{
    let n = parts.len() as int;
    let comma = seq![TokenView::Comma];
    let open = seq![TokenView::BraceOpen];
    let close = seq![TokenView::BraceClose];
    match indent {
        Some(sz) => {
            assert(all_white(seq!['\n']));
            lemma_punct_white_lexes('{', TokenView::BraceOpen, seq!['\n']);
            assert(seq!['{'] + seq!['\n'] =~= seq!['{', '\n']);
            let pad = spaces((depth + 1) * sz);
            lemma_spaces_white((depth + 1) * sz);
            lemma_pretty_members_lexes(parts, pt, pad, n);
            assert(join_tokens(pt, comma, n) + Seq::<TokenView>::empty() =~= join_tokens(pt, comma, n));
            lemma_spaces_white(depth * sz);
            lemma_white_punct_lexes(spaces(depth * sz), '}', TokenView::BraceClose);
            let pm = pretty_members(parts, n, pad);
            lemma_concat_lexes(seq!['{', '\n'], open, pm, join_tokens(pt, comma, n));
            lemma_concat_lexes(
                seq!['{', '\n'] + pm,
                open + join_tokens(pt, comma, n),
                spaces(depth * sz) + seq!['}'],
                close,
            );
            assert(seq!['{', '\n'] + pm + (spaces(depth * sz) + seq!['}']) =~= json_object(parts, depth, indent));
        },
        None => {
            if n == 0 {
                lemma_punct_lexes('{', TokenView::BraceOpen);
                lemma_punct_lexes('}', TokenView::BraceClose);
                lemma_concat_lexes(seq!['{'], open, seq!['}'], close);
                assert(seq!['{'] + seq!['}'] =~= seq!['{', '}']);
                assert(open + close =~= object_tokens(pt));
            } else {
                assert(all_white(seq![' ']));
                lemma_punct_white_lexes('{', TokenView::BraceOpen, seq![' ']);
                assert(seq!['{'] + seq![' '] =~= seq!['{', ' ']);
                lemma_punct_white_lexes(',', TokenView::Comma, seq![' ']);
                assert(seq![','] + seq![' '] =~= seq![',', ' ']);
                lemma_join_lexes(parts, pt, seq![',', ' '], comma, n);
                lemma_white_punct_lexes(seq![' '], '}', TokenView::BraceClose);
                assert(seq![' '] + seq!['}'] =~= seq![' ', '}']);
                let body = join_all(parts, seq![',', ' ']);
                lemma_concat_lexes(seq!['{', ' '], open, body, join_tokens(pt, comma, n));
                lemma_concat_lexes(seq!['{', ' '] + body, open + join_tokens(pt, comma, n), seq![' ', '}'], close);
            }
        },
    }
}

proof fn lemma_array_lexes(items: Seq<Seq<char>>, it: Seq<Seq<TokenView>>, depth: nat, indent: Option<nat>)
    requires
        all_lex(items, it),
    ensures
        lexes_as(json_array(items, depth, indent), array_tokens(it)),
{
    let n = items.len() as int;
    let comma = seq![TokenView::Comma];
    let open = seq![TokenView::BracketOpen];
    let close = seq![TokenView::BracketClose];
    match indent {
        Some(sz) => {
            let item_pad = spaces((depth + 2) * sz);
            lemma_spaces_white((depth + 2) * sz);
            let head = seq!['[', '\n'] + item_pad;
            assert(all_white(seq!['\n'] + item_pad)) by {
                assert forall|k: int| 0 <= k < (seq!['\n'] + item_pad).len() implies is_white_space(
                    #[trigger] (seq!['\n'] + item_pad)[k],
                ) by {
                    if k > 0 {
                        assert((seq!['\n'] + item_pad)[k] == item_pad[k - 1]);
                    }
                }
            }
            lemma_punct_white_lexes('[', TokenView::BracketOpen, seq!['\n'] + item_pad);
            assert(seq!['['] + (seq!['\n'] + item_pad) =~= head);
            let sep = seq![',', '\n'] + item_pad;
            lemma_punct_white_lexes(',', TokenView::Comma, seq!['\n'] + item_pad);
            assert(seq![','] + (seq!['\n'] + item_pad) =~= sep);
            lemma_join_lexes(items, it, sep, comma, n);
            let tail_white = seq!['\n'] + spaces((depth + 1) * sz);
            lemma_spaces_white((depth + 1) * sz);
            assert(all_white(tail_white)) by {
                assert forall|k: int| 0 <= k < tail_white.len() implies is_white_space(#[trigger] tail_white[k]) by {
                    if k > 0 {
                        assert(tail_white[k] == spaces((depth + 1) * sz)[k - 1]);
                    }
                }
            }
            lemma_white_punct_lexes(tail_white, ']', TokenView::BracketClose);
            let body = join_all(items, sep);
            lemma_concat_lexes(head, open, body, join_tokens(it, comma, n));
            lemma_concat_lexes(head + body, open + join_tokens(it, comma, n), tail_white + seq![']'], close);
            assert(head + body + (tail_white + seq![']']) =~= json_array(items, depth, indent));
        },
        None => {
            lemma_punct_lexes('[', TokenView::BracketOpen);
            lemma_punct_white_lexes(',', TokenView::Comma, seq![' ']);
            assert(seq![','] + seq![' '] =~= seq![',', ' ']);
            lemma_join_lexes(items, it, seq![',', ' '], comma, n);
            lemma_punct_lexes(']', TokenView::BracketClose);
            let body = join_all(items, seq![',', ' ']);
            lemma_concat_lexes(seq!['['], open, body, join_tokens(it, comma, n));
            lemma_concat_lexes(seq!['['] + body, open + join_tokens(it, comma, n), seq![']'], close);
        },
    }
}

// ---------------------------------------------------------------------------
// Tokens of the JSON written for an XML value
// ---------------------------------------------------------------------------

/// Element and attribute names free of quotes and backslashes, all the way
/// down (the JSON writer puts names between quotes as they are).
pub open spec fn plain_names(v: XmlValue) -> bool
    decreases v,
{
    match v {
        XmlValue::Text(_) => true,
        XmlValue::Element { name, attributes, children } => {
            &&& plain_text(name)
            &&& forall|i: int| 0 <= i < attributes.len() ==> plain_text(#[trigger] attributes[i].0)
            &&& forall|i: int| 0 <= i < children.len() ==> plain_names(#[trigger] children[i])
        },
    }
}

/// The tokens of the member for attribute `a`.
pub open spec fn attribute_tokens(a: (Seq<char>, Seq<char>)) -> Seq<TokenView> {
    seq![TokenView::StringVal(seq!['@'] + a.0), TokenView::Colon, TokenView::StringVal(a.1)]
}

/// The tokens of the members for the first `n` attributes.
pub open spec fn attribute_token_parts(attrs: Seq<(Seq<char>, Seq<char>)>, n: int) -> Seq<
    Seq<TokenView>,
>
    decreases n,
{
    if n <= 0 || n > attrs.len() {
        Seq::empty()
    } else {
        attribute_token_parts(attrs, n - 1).push(attribute_tokens(attrs[n - 1]))
    }
}

/// The tokens of the member for the children named `name` at indices `idx`,
/// whose tokens are in `ct`.
pub open spec fn group_tokens(name: Seq<char>, idx: Seq<int>, ct: Seq<Seq<TokenView>>) -> Seq<
    TokenView,
> {
    let key = seq![TokenView::StringVal(name), TokenView::Colon];
    if idx.len() > 1 {
        key + array_tokens(Seq::new(idx.len(), |k: int| ct[idx[k]]))
    } else {
        key + ct[idx[0]]
    }
}

/// The tokens of the members for the first `n` child names of `ch`.
pub open spec fn group_token_parts(ch: Seq<XmlValue>, ct: Seq<Seq<TokenView>>, n: int) -> Seq<
    Seq<TokenView>,
>
    decreases n,
{
    let names = group_names(ch, ch.len() as int);
    if n <= 0 || n > names.len() {
        Seq::empty()
    } else {
        group_token_parts(ch, ct, n - 1).push(
            group_tokens(names[n - 1], group_members(ch, names[n - 1], ch.len() as int), ct),
        )
    }
}

/// The tokens of the JSON for an element with `attrs` and children `ch`,
/// whose tokens are in `ct`.
pub open spec fn element_tokens(
    attrs: Seq<(Seq<char>, Seq<char>)>,
    ch: Seq<XmlValue>,
    ct: Seq<Seq<TokenView>>,
) -> Seq<TokenView> {
    let parts = attribute_token_parts(attrs, attrs.len() as int) + group_token_parts(
        ch,
        ct,
        group_names(ch, ch.len() as int).len() as int,
    );
    let texts = element_texts(ch);
    let joined = join_all(texts, Seq::empty());
    if parts.len() == 0 && texts.len() > 0 {
        seq![TokenView::StringVal(joined)]
    } else if texts.len() > 0 {
        object_tokens(
            parts.push(
                seq![
                    TokenView::StringVal(seq!['#', 't', 'e', 'x', 't']),
                    TokenView::Colon,
                    TokenView::StringVal(joined),
                ],
            ),
        )
    } else {
        object_tokens(parts)
    }
}

/// The tokens of the JSON written for `v`, whatever the indentation.
pub open spec fn value_tokens(v: XmlValue) -> Seq<TokenView>
    decreases v,
{
    match v {
        XmlValue::Text(s) => seq![TokenView::StringVal(s)],
        XmlValue::Element { name, attributes, children } => element_tokens(
            attributes,
            children,
            children_tokens(children),
        ),
    }
}

/// The tokens of each of the nodes `ch`.
pub open spec fn children_tokens(ch: Seq<XmlValue>) -> Seq<Seq<TokenView>>
    decreases ch,
{
    Seq::new(
        ch.len(),
        |i: int|
            if 0 <= i < ch.len() {
                value_tokens(ch[i])
            } else {
                Seq::empty()
            },
    )
}

// ---------------------------------------------------------------------------
// Facts about grouping and children
// ---------------------------------------------------------------------------

pub(crate) proof fn lemma_members_are_elements(ch: Seq<XmlValue>, name: Seq<char>, n: int)
    requires
        0 <= n <= ch.len(),
    ensures
        forall|k: int|
            0 <= k < group_members(ch, name, n).len() ==> {
                let j = #[trigger] group_members(ch, name, n)[k];
                &&& 0 <= j < n
                &&& ch[j] matches XmlValue::Element { name: m, .. } && m == name
            },
    decreases n,
{
    if n > 0 {
        lemma_members_are_elements(ch, name, n - 1);
        let g = group_members(ch, name, n - 1);
        assert forall|k: int| 0 <= k < group_members(ch, name, n).len() implies {
            let j = #[trigger] group_members(ch, name, n)[k];
            &&& 0 <= j < n
            &&& ch[j] matches XmlValue::Element { name: m, .. } && m == name
        } by {
            if k < g.len() {
                assert(group_members(ch, name, n)[k] == g[k]);
            }
        }
    }
}

proof fn lemma_members_grow(ch: Seq<XmlValue>, name: Seq<char>, n: int)
    requires
        0 < n <= ch.len(),
    ensures
        group_members(ch, name, n).len() >= group_members(ch, name, n - 1).len(),
{
}

pub(crate) proof fn lemma_names_have_members(ch: Seq<XmlValue>, n: int)
    requires
        0 <= n <= ch.len(),
    ensures
        forall|g: int|
            0 <= g < group_names(ch, n).len() ==> group_members(ch, #[trigger] group_names(ch, n)[g], n).len()
                >= 1,
    decreases n,
{
    if n > 0 {
        lemma_names_have_members(ch, n - 1);
        let prev = group_names(ch, n - 1);
        assert forall|g: int| 0 <= g < group_names(ch, n).len() implies group_members(
            ch,
            #[trigger] group_names(ch, n)[g],
            n,
        ).len() >= 1 by {
            let x = group_names(ch, n)[g];
            lemma_members_grow(ch, x, n);
            if g < prev.len() {
                assert(x == prev[g]);
            }
        }
    }
}

pub(crate) proof fn lemma_children_json_facts(ch: Seq<XmlValue>, n: int, base: nat, depth: nat, indent: Option<nat>)
    requires
        0 <= n <= ch.len(),
        children_json(ch, n, base, depth, indent) is Some,
    ensures
        children_json(ch, n, base, depth, indent)->Some_0.len() == n,
        forall|i: int|
            0 <= i < n && (#[trigger] ch[i]) is Element ==> json_of(ch[i], base, depth + 1, indent) == Some(
                children_json(ch, n, base, depth, indent)->Some_0[i],
            ),
    decreases n,
{
    if n > 0 {
        lemma_children_json_facts(ch, n - 1, base, depth, indent);
        let prev = children_json(ch, n - 1, base, depth, indent)->Some_0;
        let cur = children_json(ch, n, base, depth, indent)->Some_0;
        assert forall|i: int| 0 <= i < n && (#[trigger] ch[i]) is Element implies json_of(
            ch[i],
            base,
            depth + 1,
            indent,
        ) == Some(cur[i]) by {
            if i < n - 1 {
                assert(cur[i] == prev[i]);
            }
        }
    }
}

// ---------------------------------------------------------------------------
// Members
// ---------------------------------------------------------------------------

/// A plain name between quotes, a colon and a space: a key.
proof fn lemma_key_lexes(name: Seq<char>)
    requires
        plain_text(name),
    ensures
        lexes_as(
            seq!['"'] + name + seq!['"', ':', ' '],
            seq![TokenView::StringVal(name), TokenView::Colon],
        ),
{
    lemma_quoted_lexes(name);
    assert(all_white(seq![' ']));
    lemma_punct_white_lexes(':', TokenView::Colon, seq![' ']);
    lemma_concat_lexes(
        seq!['"'] + name + seq!['"'],
        seq![TokenView::StringVal(name)],
        seq![':'] + seq![' '],
        seq![TokenView::Colon],
    );
    assert(seq!['"'] + name + seq!['"'] + (seq![':'] + seq![' ']) =~= seq!['"'] + name + seq![
        '"',
        ':',
        ' ',
    ]);
    assert(seq![TokenView::StringVal(name)] + seq![TokenView::Colon] =~= seq![
        TokenView::StringVal(name),
        TokenView::Colon,
    ]);
}

proof fn lemma_attribute_lexes(a: (Seq<char>, Seq<char>))
    requires
        plain_text(a.0),
    ensures
        lexes_as(attribute_part(a), attribute_tokens(a)),
{
    let name = seq!['@'] + a.0;
    assert(plain_text(name)) by {
        assert forall|i: int| 0 <= i < name.len() implies name[i] != '"' && name[i] != '\\' by {
            if i > 0 {
                assert(name[i] == a.0[i - 1]);
            }
        }
    }
    lemma_key_lexes(name);
    lemma_string_lexes(a.1);
    lemma_concat_lexes(
        seq!['"'] + name + seq!['"', ':', ' '],
        seq![TokenView::StringVal(name), TokenView::Colon],
        json_string(a.1),
        seq![TokenView::StringVal(a.1)],
    );
    assert(seq!['"'] + name + seq!['"', ':', ' '] + json_string(a.1) =~= attribute_part(a));
    assert(seq![TokenView::StringVal(name), TokenView::Colon] + seq![TokenView::StringVal(a.1)]
        =~= attribute_tokens(a));
}

proof fn lemma_part_lengths(
    attrs: Seq<(Seq<char>, Seq<char>)>,
    ch: Seq<XmlValue>,
    cj: Seq<Seq<char>>,
    ct: Seq<Seq<TokenView>>,
    n: int,
    m: int,
    depth: nat,
    indent: Option<nat>,
)
    requires
        0 <= n <= attrs.len(),
        0 <= m <= group_names(ch, ch.len() as int).len(),
    ensures
        attribute_parts(attrs, n).len() == n,
        attribute_token_parts(attrs, n).len() == n,
        group_parts(ch, cj, m, depth, indent).len() == m,
        group_token_parts(ch, ct, m).len() == m,
    decreases n + m,
{
    if n > 0 {
        lemma_part_lengths(attrs, ch, cj, ct, n - 1, m, depth, indent);
    }
    if m > 0 {
        lemma_part_lengths(attrs, ch, cj, ct, n, m - 1, depth, indent);
    }
}

proof fn lemma_attribute_parts_lex(attrs: Seq<(Seq<char>, Seq<char>)>, n: int)
    requires
        0 <= n <= attrs.len(),
        forall|i: int| 0 <= i < attrs.len() ==> plain_text(#[trigger] attrs[i].0),
    ensures
        all_lex(attribute_parts(attrs, n), attribute_token_parts(attrs, n)),
    decreases n,
{
    if n > 0 {
        lemma_attribute_parts_lex(attrs, n - 1);
        lemma_part_lengths(attrs, Seq::empty(), Seq::empty(), Seq::empty(), n - 1, 0, 0, None);
        assert(plain_text(attrs[n - 1].0));
        lemma_attribute_lexes(attrs[n - 1]);
        let a = attribute_parts(attrs, n);
        let ta = attribute_token_parts(attrs, n);
        assert forall|k: int| 0 <= k < a.len() implies lexes_as(#[trigger] a[k], ta[k]) by {
            if k < n - 1 {
                assert(a[k] == attribute_parts(attrs, n - 1)[k]);
                assert(ta[k] == attribute_token_parts(attrs, n - 1)[k]);
            }
        }
    }
}

proof fn lemma_all_lex_concat(
    a: Seq<Seq<char>>,
    ta: Seq<Seq<TokenView>>,
    b: Seq<Seq<char>>,
    tb: Seq<Seq<TokenView>>,
)
    requires
        all_lex(a, ta),
        all_lex(b, tb),
    ensures
        all_lex(a + b, ta + tb),
{
    assert forall|k: int| 0 <= k < (a + b).len() implies lexes_as(#[trigger] (a + b)[k], (ta + tb)[k]) by {
        if k < a.len() {
            assert(lexes_as(a[k], ta[k]));
        } else {
            assert(lexes_as(b[k - a.len()], tb[k - a.len()]));
        }
    }
}

proof fn lemma_group_lexes(
    name: Seq<char>,
    idx: Seq<int>,
    cj: Seq<Seq<char>>,
    ct: Seq<Seq<TokenView>>,
    depth: nat,
    indent: Option<nat>,
)
    requires
        plain_text(name),
        idx.len() >= 1,
        forall|k: int| 0 <= k < idx.len() ==> lexes_as(cj[#[trigger] idx[k]], ct[idx[k]]),
    ensures
        lexes_as(group_part(name, idx, cj, depth, indent), group_tokens(name, idx, ct)),
{
    let key = seq!['"'] + name + seq!['"', ':', ' '];
    let tkey = seq![TokenView::StringVal(name), TokenView::Colon];
    lemma_key_lexes(name);
    if idx.len() > 1 {
        let items = Seq::new(idx.len(), |k: int| cj[idx[k]]);
        let it = Seq::new(idx.len(), |k: int| ct[idx[k]]);
        assert(all_lex(items, it)) by {
            assert forall|k: int| 0 <= k < items.len() implies lexes_as(#[trigger] items[k], it[k]) by {
                assert(lexes_as(cj[idx[k]], ct[idx[k]]));
            }
        }
        lemma_array_lexes(items, it, depth, indent);
        lemma_concat_lexes(key, tkey, json_array(items, depth, indent), array_tokens(it));
    } else {
        assert(lexes_as(cj[idx[0]], ct[idx[0]]));
        lemma_concat_lexes(key, tkey, cj[idx[0]], ct[idx[0]]);
    }
}

proof fn lemma_group_parts_lex(
    ch: Seq<XmlValue>,
    cj: Seq<Seq<char>>,
    ct: Seq<Seq<TokenView>>,
    n: int,
    depth: nat,
    indent: Option<nat>,
)
    requires
        0 <= n <= group_names(ch, ch.len() as int).len(),
        cj.len() == ch.len(),
        ct.len() == ch.len(),
        forall|i: int| 0 <= i < ch.len() && (#[trigger] ch[i]) is Element ==> lexes_as(cj[i], ct[i]),
        forall|i: int| 0 <= i < ch.len() ==> plain_names(#[trigger] ch[i]),
    ensures
        all_lex(group_parts(ch, cj, n, depth, indent), group_token_parts(ch, ct, n)),
    decreases n,
{
    if n > 0 {
        lemma_group_parts_lex(ch, cj, ct, n - 1, depth, indent);
        lemma_part_lengths(Seq::empty(), ch, cj, ct, 0, n - 1, depth, indent);
        let names = group_names(ch, ch.len() as int);
        let x = names[n - 1];
        let idx = group_members(ch, x, ch.len() as int);
        lemma_names_have_members(ch, ch.len() as int);
        lemma_members_are_elements(ch, x, ch.len() as int);
        assert(idx.len() >= 1);
        let j0 = idx[0];
        assert(plain_names(ch[j0]));
        assert(plain_text(x));
        assert forall|k: int| 0 <= k < idx.len() implies lexes_as(cj[#[trigger] idx[k]], ct[idx[k]]) by {
            let j = idx[k];
            assert(ch[j] is Element);
        }
        lemma_group_lexes(x, idx, cj, ct, depth, indent);
        let a = group_parts(ch, cj, n, depth, indent);
        let ta = group_token_parts(ch, ct, n);
        assert forall|k: int| 0 <= k < a.len() implies lexes_as(#[trigger] a[k], ta[k]) by {
            if k < n - 1 {
                assert(a[k] == group_parts(ch, cj, n - 1, depth, indent)[k]);
                assert(ta[k] == group_token_parts(ch, ct, n - 1)[k]);
            }
        }
    }
}

proof fn lemma_element_lexes(
    attrs: Seq<(Seq<char>, Seq<char>)>,
    ch: Seq<XmlValue>,
    cj: Seq<Seq<char>>,
    ct: Seq<Seq<TokenView>>,
    depth: nat,
    indent: Option<nat>,
)
    requires
        cj.len() == ch.len(),
        ct.len() == ch.len(),
        forall|i: int| 0 <= i < ch.len() && (#[trigger] ch[i]) is Element ==> lexes_as(cj[i], ct[i]),
        forall|i: int| 0 <= i < ch.len() ==> plain_names(#[trigger] ch[i]),
        forall|i: int| 0 <= i < attrs.len() ==> plain_text(#[trigger] attrs[i].0),
    ensures
        lexes_as(element_json(attrs, ch, cj, depth, indent), element_tokens(attrs, ch, ct)),
{
    let ng = group_names(ch, ch.len() as int).len() as int;
    lemma_attribute_parts_lex(attrs, attrs.len() as int);
    lemma_group_parts_lex(ch, cj, ct, ng, depth, indent);
    let parts = attribute_parts(attrs, attrs.len() as int) + group_parts(ch, cj, ng, depth, indent);
    let pt = attribute_token_parts(attrs, attrs.len() as int) + group_token_parts(ch, ct, ng);
    lemma_all_lex_concat(
        attribute_parts(attrs, attrs.len() as int),
        attribute_token_parts(attrs, attrs.len() as int),
        group_parts(ch, cj, ng, depth, indent),
        group_token_parts(ch, ct, ng),
    );
    let texts = element_texts(ch);
    let joined = join_all(texts, Seq::empty());
    if parts.len() == 0 && texts.len() > 0 {
        lemma_string_lexes(joined);
    } else if texts.len() > 0 {
        let hash = seq!['#', 't', 'e', 'x', 't'];
        assert(plain_text(hash));
        lemma_key_lexes(hash);
        lemma_string_lexes(joined);
        let tp = seq!['"', '#', 't', 'e', 'x', 't', '"', ':', ' '] + json_string(joined);
        let ttp = seq![TokenView::StringVal(hash), TokenView::Colon, TokenView::StringVal(joined)];
        lemma_concat_lexes(
            seq!['"'] + hash + seq!['"', ':', ' '],
            seq![TokenView::StringVal(hash), TokenView::Colon],
            json_string(joined),
            seq![TokenView::StringVal(joined)],
        );
        assert(seq!['"'] + hash + seq!['"', ':', ' '] + json_string(joined) =~= tp);
        assert(seq![TokenView::StringVal(hash), TokenView::Colon] + seq![TokenView::StringVal(joined)]
            =~= ttp);
        assert(all_lex(parts.push(tp), pt.push(ttp))) by {
            assert forall|k: int| 0 <= k < parts.push(tp).len() implies lexes_as(
                #[trigger] parts.push(tp)[k],
                pt.push(ttp)[k],
            ) by {
                if k < parts.len() {
                    assert(lexes_as(parts[k], pt[k]));
                }
            }
        }
        lemma_object_lexes(parts.push(tp), pt.push(ttp), depth, indent);
    } else {
        lemma_object_lexes(parts, pt, depth, indent);
    }
}

/// The JSON written for a value is read as the value's tokens.
proof fn lemma_json_of_lexes(v: XmlValue, base: nat, depth: nat, indent: Option<nat>)
    requires
        plain_names(v),
        json_of(v, base, depth, indent) is Some,
    ensures
        lexes_as(json_of(v, base, depth, indent)->Some_0, value_tokens(v)),
    decreases v,
{
    match v {
        XmlValue::Text(s) => {
            lemma_string_lexes(s);
            assert(json_of(v, base, depth, indent)->Some_0 == json_string(s));
            assert(value_tokens(v) == seq![TokenView::StringVal(s)]);
        },
        XmlValue::Element { name, attributes, children } => {
            let n = children.len() as int;
            let cj = children_json(children, n, base, depth, indent)->Some_0;
            lemma_children_json_facts(children, n, base, depth, indent);
            let ct = children_tokens(children);
            assert forall|i: int| 0 <= i < children.len() && (#[trigger] children[i]) is Element implies lexes_as(
                cj[i],
                ct[i],
            ) by {
                assert(plain_names(children[i]));
                assert(ct[i] == value_tokens(children[i]));
                lemma_json_of_lexes(children[i], base, depth + 1, indent);
            }
            lemma_element_lexes(attributes, children, cj, ct, depth, indent);
            assert(json_of(v, base, depth, indent)->Some_0 == element_json(attributes, children, cj, depth, indent));
            assert(value_tokens(v) == element_tokens(attributes, children, ct));
        },
    }
}

// ---------------------------------------------------------------------------
// Parsing the tokens
// ---------------------------------------------------------------------------

/// How deep the parser nests to read `v`: one level for every value, and
/// the deepest member or item below an object or array.
pub open spec fn json_depth(v: JsonValue) -> nat
    decreases v, 0int,
{
    match v {
        JsonValue::Object(ms) => 1 + members_depth(ms, ms.len() as int),
        JsonValue::Array(es) => 1 + items_depth(es, es.len() as int),
        _ => 1,
    }
}

/// The deepest of the first `n` member values.
pub open spec fn members_depth(ms: Seq<(Seq<char>, JsonValue)>, n: int) -> nat
    decreases ms, n,
{
    if n <= 0 || n > ms.len() {
        0
    } else {
        let a = members_depth(ms, n - 1);
        let b = json_depth(ms[n - 1].1);
        if a >= b {
            a
        } else {
            b
        }
    }
}

/// The deepest of the first `n` items.
pub open spec fn items_depth(es: Seq<JsonValue>, n: int) -> nat
    decreases es, n,
{
    if n <= 0 || n > es.len() {
        0
    } else {
        let a = items_depth(es, n - 1);
        let b = json_depth(es[n - 1]);
        if a >= b {
            a
        } else {
            b
        }
    }
}

proof fn lemma_members_depth(ms: Seq<(Seq<char>, JsonValue)>, n: int, k: int)
    requires
        0 <= k < n <= ms.len(),
    ensures
        members_depth(ms, n) >= json_depth(ms[k].1),
    decreases n,
{
    if k < n - 1 {
        lemma_members_depth(ms, n - 1, k);
    }
}

proof fn lemma_items_depth(es: Seq<JsonValue>, n: int, k: int)
    requires
        0 <= k < n <= es.len(),
    ensures
        items_depth(es, n) >= json_depth(es[k]),
    decreases n,
{
    if k < n - 1 {
        lemma_items_depth(es, n - 1, k);
    }
}

/// The tokens `w` stand in `ts` at index `p`.
pub open spec fn tokens_at(ts: Seq<TokenView>, p: int, w: Seq<TokenView>) -> bool {
    0 <= p && p + w.len() <= ts.len() && ts.subrange(p, p + w.len()) == w
}

/// Wherever the tokens `w` stand, with room left for the nesting of `v`,
/// the parser reads them as the value `v` and goes on right after them.
#[verifier::opaque]
pub open spec fn parses_as(w: Seq<TokenView>, v: JsonValue) -> bool {
    forall|ts: Seq<TokenView>, p: int, d: nat|
        tokens_at(ts, p, w) && d + json_depth(v) <= MAX_DEPTH ==> #[trigger] parse_value(ts, p, d)
            == Ok::<(JsonValue, int), Seq<char>>((v, p + w.len()))
}

pub(crate) proof fn lemma_tokens_at_index(ts: Seq<TokenView>, p: int, w: Seq<TokenView>, k: int)
    requires
        tokens_at(ts, p, w),
        0 <= k < w.len(),
    ensures
        ts[p + k] == w[k],
{
    assert(ts[p + k] == ts.subrange(p, p + w.len())[k]);
}

proof fn lemma_tokens_at_split(ts: Seq<TokenView>, p: int, a: Seq<TokenView>, b: Seq<TokenView>)
    requires
        tokens_at(ts, p, a + b),
    ensures
        tokens_at(ts, p, a),
        tokens_at(ts, p + a.len(), b),
{
    let w = a + b;
    assert(ts.subrange(p, p + a.len()) =~= a) by {
        assert forall|k: int| 0 <= k < a.len() implies ts.subrange(p, p + a.len())[k] == a[k] by {
            lemma_tokens_at_index(ts, p, w, k);
        }
    }
    assert(ts.subrange(p + a.len(), p + a.len() + b.len()) =~= b) by {
        assert forall|k: int| 0 <= k < b.len() implies ts.subrange(p + a.len(), p + a.len() + b.len())[k]
            == b[k] by {
            lemma_tokens_at_index(ts, p, w, a.len() + k);
        }
    }
}

pub(crate) proof fn lemma_string_parses(s: Seq<char>)
    ensures
        parses_as(seq![TokenView::StringVal(s)], JsonValue::StringVal(s)),
{
    reveal(parses_as);
    assert forall|ts: Seq<TokenView>, p: int, d: nat|
        tokens_at(ts, p, seq![TokenView::StringVal(s)]) && d + json_depth(JsonValue::StringVal(s))
            <= MAX_DEPTH implies #[trigger] parse_value(ts, p, d) == Ok::<(JsonValue, int), Seq<char>>(
        (JsonValue::StringVal(s), p + 1),
    ) by {
        lemma_tokens_at_index(ts, p, seq![TokenView::StringVal(s)], 0);
    }
}

/// The token sequences `ms[i..n]` with a comma between each two.
pub open spec fn join_from(ms: Seq<Seq<TokenView>>, i: int, n: int) -> Seq<TokenView>
    decreases n - i,
{
    if i < 0 || i >= n || n > ms.len() {
        Seq::empty()
    } else if i == n - 1 {
        ms[i]
    } else {
        ms[i] + seq![TokenView::Comma] + join_from(ms, i + 1, n)
    }
}

proof fn lemma_join_from_last(ms: Seq<Seq<TokenView>>, i: int, n: int)
    requires
        0 <= i < n - 1,
        n <= ms.len(),
    ensures
        join_from(ms, i, n - 1) + seq![TokenView::Comma] + ms[n - 1] == join_from(ms, i, n),
    decreases n - i,
{
    let c = seq![TokenView::Comma];
    assert(join_from(ms, i, n) == ms[i] + c + join_from(ms, i + 1, n));
    if i < n - 2 {
        lemma_join_from_last(ms, i + 1, n);
        assert(join_from(ms, i, n - 1) == ms[i] + c + join_from(ms, i + 1, n - 1));
        assert(join_from(ms, i, n - 1) + c + ms[n - 1] =~= ms[i] + c + (join_from(ms, i + 1, n - 1) + c
            + ms[n - 1]));
    } else {
        assert(join_from(ms, i, n - 1) == ms[i]);
        assert(join_from(ms, i + 1, n) == ms[n - 1]);
    }
}

pub(crate) proof fn lemma_join_tokens_from(ms: Seq<Seq<TokenView>>, n: int)
    requires
        1 <= n <= ms.len(),
    ensures
        join_tokens(ms, seq![TokenView::Comma], n) == join_from(ms, 0, n),
    decreases n,
{
    if n > 1 {
        lemma_join_tokens_from(ms, n - 1);
        lemma_join_from_last(ms, 0, n);
    }
}

/// The tokens `m` of an object member: its key, a colon, and tokens read as
/// the member's value.
pub open spec fn member_part(m: Seq<TokenView>, pair: (Seq<char>, JsonValue)) -> bool {
    &&& m.len() >= 2
    &&& m[0] == TokenView::StringVal(pair.0)
    &&& m[1] == TokenView::Colon
    &&& parses_as(m.subrange(2, m.len() as int), pair.1)
}

/// Each of the token sequences `ms` is the member at the same index of `pairs`.
pub open spec fn member_parts(ms: Seq<Seq<TokenView>>, pairs: Seq<(Seq<char>, JsonValue)>) -> bool {
    &&& ms.len() == pairs.len()
    &&& forall|k: int| 0 <= k < ms.len() ==> member_part(#[trigger] ms[k], pairs[k])
}

/// Each of the token sequences `items` is read as the value at the same
/// index of `vals`.
pub open spec fn item_parts(items: Seq<Seq<TokenView>>, vals: Seq<JsonValue>) -> bool {
    &&& items.len() == vals.len()
    &&& forall|k: int| 0 <= k < items.len() ==> parses_as(#[trigger] items[k], vals[k])
}

proof fn lemma_members_parse(
    ts: Seq<TokenView>,
    q: int,
    d: nat,
    acc: Seq<(Seq<char>, JsonValue)>,
    ms: Seq<Seq<TokenView>>,
    pairs: Seq<(Seq<char>, JsonValue)>,
    i: int,
)
    requires
        member_parts(ms, pairs),
        0 <= i < ms.len(),
        forall|k: int| 0 <= k < pairs.len() ==> d + json_depth(#[trigger] pairs[k].1) <= MAX_DEPTH,
        tokens_at(ts, q, join_from(ms, i, ms.len() as int) + seq![TokenView::BraceClose]),
    ensures
        parse_members(ts, q, d, acc) == Ok::<(JsonValue, int), Seq<char>>(
            (
                JsonValue::Object(acc + pairs.subrange(i, pairs.len() as int)),
                q + join_from(ms, i, ms.len() as int).len() + 1,
            ),
        ),
    decreases ms.len() - i,
{
    reveal(parses_as);
    let n = ms.len() as int;
    let m = ms[i];
    assert(member_part(m, pairs[i]));
    let w = m.subrange(2, m.len() as int);
    let rest = join_from(ms, i, n) + seq![TokenView::BraceClose];
    let after = if i == n - 1 {
        seq![TokenView::BraceClose]
    } else {
        seq![TokenView::Comma] + join_from(ms, i + 1, n) + seq![TokenView::BraceClose]
    };
    assert(rest =~= m + after);
    lemma_tokens_at_split(ts, q, m, after);
    lemma_tokens_at_index(ts, q, m, 0);
    lemma_tokens_at_index(ts, q, m, 1);
    assert(m =~= m.subrange(0, 2) + w);
    lemma_tokens_at_split(ts, q, m.subrange(0, 2), w);
    assert(json_depth(pairs[i].1) + d <= MAX_DEPTH);
    assert(parse_value(ts, q + 2, d) == Ok::<(JsonValue, int), Seq<char>>((pairs[i].1, q + 2 + w.len())));
    let p3 = q + m.len();
    lemma_tokens_at_index(ts, p3, after, 0);
    let acc2 = acc.push((pairs[i].0, pairs[i].1));
    if i == n - 1 {
        assert(acc2 =~= acc + pairs.subrange(i, n));
    } else {
        assert(after =~= seq![TokenView::Comma] + (join_from(ms, i + 1, n) + seq![TokenView::BraceClose]));
        lemma_tokens_at_split(ts, p3, seq![TokenView::Comma], join_from(ms, i + 1, n) + seq![TokenView::BraceClose]);
        lemma_members_parse(ts, p3 + 1, d, acc2, ms, pairs, i + 1);
        assert(acc2 + pairs.subrange(i + 1, n) =~= acc + pairs.subrange(i, n));
    }
}

pub(crate) proof fn lemma_object_parses(ms: Seq<Seq<TokenView>>, pairs: Seq<(Seq<char>, JsonValue)>)
    requires
        member_parts(ms, pairs),
    ensures
        parses_as(object_tokens(ms), JsonValue::Object(pairs)),
{
    reveal(parses_as);
    let n = ms.len() as int;
    let w = object_tokens(ms);
    let v = JsonValue::Object(pairs);
    assert forall|ts: Seq<TokenView>, p: int, d: nat| tokens_at(ts, p, w) && d + json_depth(v) <= MAX_DEPTH implies #[trigger] parse_value(
        ts,
        p,
        d,
    ) == Ok::<(JsonValue, int), Seq<char>>((v, p + w.len())) by {
        lemma_tokens_at_index(ts, p, w, 0);
        if n == 0 {
            assert(w =~= seq![TokenView::BraceOpen, TokenView::BraceClose]);
            lemma_tokens_at_index(ts, p, w, 1);
            assert(pairs =~= Seq::<(Seq<char>, JsonValue)>::empty());
        } else {
            lemma_join_tokens_from(ms, n);
            let body = join_from(ms, 0, n) + seq![TokenView::BraceClose];
            assert(w =~= seq![TokenView::BraceOpen] + body);
            lemma_tokens_at_split(ts, p, seq![TokenView::BraceOpen], body);
            assert forall|k: int| 0 <= k < pairs.len() implies (d + 1) + json_depth(#[trigger] pairs[k].1)
                <= MAX_DEPTH by {
                lemma_members_depth(pairs, n, k);
            }
            lemma_members_parse(ts, p + 1, d + 1, Seq::empty(), ms, pairs, 0);
            assert(Seq::<(Seq<char>, JsonValue)>::empty() + pairs.subrange(0, n) =~= pairs);
            assert(member_part(ms[0], pairs[0]));
            assert(join_from(ms, 0, n)[0] == ms[0][0]) by {
                if n > 1 {
                    assert(join_from(ms, 0, n) == ms[0] + seq![TokenView::Comma] + join_from(ms, 1, n));
                }
            }
            lemma_tokens_at_index(ts, p + 1, body, 0);
        }
    }
}

proof fn lemma_elements_parse(
    ts: Seq<TokenView>,
    q: int,
    d: nat,
    acc: Seq<JsonValue>,
    items: Seq<Seq<TokenView>>,
    vals: Seq<JsonValue>,
    i: int,
)
    requires
        item_parts(items, vals),
        0 <= i < items.len(),
        forall|k: int| 0 <= k < vals.len() ==> d + json_depth(#[trigger] vals[k]) <= MAX_DEPTH,
        tokens_at(ts, q, join_from(items, i, items.len() as int) + seq![TokenView::BracketClose]),
    ensures
        parse_elements(ts, q, d, acc) == Ok::<(JsonValue, int), Seq<char>>(
            (
                JsonValue::Array(acc + vals.subrange(i, vals.len() as int)),
                q + join_from(items, i, items.len() as int).len() + 1,
            ),
        ),
    decreases items.len() - i,
{
    reveal(parses_as);
    let n = items.len() as int;
    let m = items[i];
    assert(parses_as(m, vals[i]));
    let rest = join_from(items, i, n) + seq![TokenView::BracketClose];
    let after = if i == n - 1 {
        seq![TokenView::BracketClose]
    } else {
        seq![TokenView::Comma] + join_from(items, i + 1, n) + seq![TokenView::BracketClose]
    };
    assert(rest =~= m + after);
    lemma_tokens_at_split(ts, q, m, after);
    assert(json_depth(vals[i]) + d <= MAX_DEPTH);
    assert(parse_value(ts, q, d) == Ok::<(JsonValue, int), Seq<char>>((vals[i], q + m.len())));
    let p3 = q + m.len();
    lemma_tokens_at_index(ts, p3, after, 0);
    let acc2 = acc.push(vals[i]);
    if i == n - 1 {
        assert(acc2 =~= acc + vals.subrange(i, n));
    } else {
        assert(after =~= seq![TokenView::Comma] + (join_from(items, i + 1, n) + seq![TokenView::BracketClose]));
        lemma_tokens_at_split(ts, p3, seq![TokenView::Comma], join_from(items, i + 1, n) + seq![TokenView::BracketClose]);
        lemma_elements_parse(ts, p3 + 1, d, acc2, items, vals, i + 1);
        assert(acc2 + vals.subrange(i + 1, n) =~= acc + vals.subrange(i, n));
    }
}

pub(crate) proof fn lemma_array_parses(items: Seq<Seq<TokenView>>, vals: Seq<JsonValue>)
    requires
        item_parts(items, vals),
        items.len() >= 1,
    ensures
        parses_as(array_tokens(items), JsonValue::Array(vals)),
{
    reveal(parses_as);
    let n = items.len() as int;
    let w = array_tokens(items);
    let v = JsonValue::Array(vals);
    assert forall|ts: Seq<TokenView>, p: int, d: nat| tokens_at(ts, p, w) && d + json_depth(v) <= MAX_DEPTH implies #[trigger] parse_value(
        ts,
        p,
        d,
    ) == Ok::<(JsonValue, int), Seq<char>>((v, p + w.len())) by {
        lemma_tokens_at_index(ts, p, w, 0);
        lemma_join_tokens_from(items, n);
        let body = join_from(items, 0, n) + seq![TokenView::BracketClose];
        assert(w =~= seq![TokenView::BracketOpen] + body);
        lemma_tokens_at_split(ts, p, seq![TokenView::BracketOpen], body);
        assert forall|k: int| 0 <= k < vals.len() implies (d + 1) + json_depth(#[trigger] vals[k])
            <= MAX_DEPTH by {
            lemma_items_depth(vals, n, k);
        }
        lemma_elements_parse(ts, p + 1, d + 1, Seq::empty(), items, vals, 0);
        assert(Seq::<JsonValue>::empty() + vals.subrange(0, n) =~= vals);
        assert(!(ts[p + 1] is BracketClose)) by {
            assert(parses_as(items[0], vals[0]));
            let rest0 = if n == 1 {
                seq![TokenView::BracketClose]
            } else {
                seq![TokenView::Comma] + join_from(items, 1, n) + seq![TokenView::BracketClose]
            };
            assert(body =~= items[0] + rest0);
            lemma_tokens_at_split(ts, p + 1, items[0], rest0);
            lemma_items_depth(vals, n, 0);
            assert(parse_value(ts, p + 1, d + 1) is Ok);
        }
    }
}

// ---------------------------------------------------------------------------
// The values read for an XML value
// ---------------------------------------------------------------------------

/// The member read for attribute `a`.
pub open spec fn attribute_entry(a: (Seq<char>, Seq<char>)) -> (Seq<char>, JsonValue) {
    (seq!['@'] + a.0, JsonValue::StringVal(a.1))
}

/// The members read for the first `n` attributes.
pub open spec fn attribute_entries(attrs: Seq<(Seq<char>, Seq<char>)>, n: int) -> Seq<
    (Seq<char>, JsonValue),
>
    decreases n,
{
    if n <= 0 || n > attrs.len() {
        Seq::empty()
    } else {
        attribute_entries(attrs, n - 1).push(attribute_entry(attrs[n - 1]))
    }
}

/// The member read for the children named `name` at indices `idx`, whose
/// values are in `cv`: an array when the name repeats.
pub open spec fn group_entry(name: Seq<char>, idx: Seq<int>, cv: Seq<JsonValue>) -> (
    Seq<char>,
    JsonValue,
) {
    (
        name,
        if idx.len() > 1 {
            JsonValue::Array(Seq::new(idx.len(), |k: int| cv[idx[k]]))
        } else {
            cv[idx[0]]
        },
    )
}

/// The members read for the first `n` child names of `ch`.
pub open spec fn group_entries(ch: Seq<XmlValue>, cv: Seq<JsonValue>, n: int) -> Seq<
    (Seq<char>, JsonValue),
>
    decreases n,
{
    let names = group_names(ch, ch.len() as int);
    if n <= 0 || n > names.len() {
        Seq::empty()
    } else {
        group_entries(ch, cv, n - 1).push(
            group_entry(names[n - 1], group_members(ch, names[n - 1], ch.len() as int), cv),
        )
    }
}

/// The value read for an element with `attrs` and children `ch`, whose
/// values are in `cv`.
pub open spec fn element_read(attrs: Seq<(Seq<char>, Seq<char>)>, ch: Seq<XmlValue>, cv: Seq<JsonValue>) -> JsonValue {
    let entries = attribute_entries(attrs, attrs.len() as int) + group_entries(
        ch,
        cv,
        group_names(ch, ch.len() as int).len() as int,
    );
    let texts = element_texts(ch);
    let joined = join_all(texts, Seq::empty());
    if entries.len() == 0 && texts.len() > 0 {
        JsonValue::StringVal(joined)
    } else if texts.len() > 0 {
        JsonValue::Object(entries.push((seq!['#', 't', 'e', 'x', 't'], JsonValue::StringVal(joined))))
    } else {
        JsonValue::Object(entries)
    }
}

/// The JSON value read back from what is written for `v`.
pub open spec fn read_value(v: XmlValue) -> JsonValue
    decreases v,
{
    match v {
        XmlValue::Text(s) => JsonValue::StringVal(s),
        XmlValue::Element { name, attributes, children } => element_read(
            attributes,
            children,
            read_children(children),
        ),
    }
}

/// The values read for each of the nodes `ch`.
pub open spec fn read_children(ch: Seq<XmlValue>) -> Seq<JsonValue>
    decreases ch,
{
    Seq::new(
        ch.len(),
        |i: int|
            if 0 <= i < ch.len() {
                read_value(ch[i])
            } else {
                JsonValue::Null
            },
    )
}

proof fn lemma_entry_lengths(
    attrs: Seq<(Seq<char>, Seq<char>)>,
    ch: Seq<XmlValue>,
    cv: Seq<JsonValue>,
    n: int,
    m: int,
)
    requires
        0 <= n <= attrs.len(),
        0 <= m <= group_names(ch, ch.len() as int).len(),
    ensures
        attribute_entries(attrs, n).len() == n,
        group_entries(ch, cv, m).len() == m,
    decreases n + m,
{
    if n > 0 {
        lemma_entry_lengths(attrs, ch, cv, n - 1, m);
    }
    if m > 0 {
        lemma_entry_lengths(attrs, ch, cv, n, m - 1);
    }
}

proof fn lemma_attribute_entries_parse(attrs: Seq<(Seq<char>, Seq<char>)>, n: int)
    requires
        0 <= n <= attrs.len(),
    ensures
        member_parts(attribute_token_parts(attrs, n), attribute_entries(attrs, n)),
    decreases n,
{
    if n > 0 {
        lemma_attribute_entries_parse(attrs, n - 1);
        lemma_part_lengths(attrs, Seq::empty(), Seq::empty(), Seq::empty(), n - 1, 0, 0, None);
        lemma_entry_lengths(attrs, Seq::empty(), Seq::empty(), n - 1, 0);
        let a = attrs[n - 1];
        let m = attribute_tokens(a);
        lemma_string_parses(a.1);
        assert(m.subrange(2, m.len() as int) =~= seq![TokenView::StringVal(a.1)]);
        assert(member_part(m, attribute_entry(a)));
        let ms = attribute_token_parts(attrs, n);
        let es = attribute_entries(attrs, n);
        assert forall|k: int| 0 <= k < ms.len() implies member_part(#[trigger] ms[k], es[k]) by {
            if k < n - 1 {
                assert(ms[k] == attribute_token_parts(attrs, n - 1)[k]);
                assert(es[k] == attribute_entries(attrs, n - 1)[k]);
            }
        }
    }
}

proof fn lemma_group_entry_parses(name: Seq<char>, idx: Seq<int>, ct: Seq<Seq<TokenView>>, cv: Seq<JsonValue>)
    requires
        idx.len() >= 1,
        forall|k: int| 0 <= k < idx.len() ==> parses_as(ct[#[trigger] idx[k]], cv[idx[k]]),
    ensures
        member_part(group_tokens(name, idx, ct), group_entry(name, idx, cv)),
{
    let m = group_tokens(name, idx, ct);
    let key = seq![TokenView::StringVal(name), TokenView::Colon];
    if idx.len() > 1 {
        let items = Seq::new(idx.len(), |k: int| ct[idx[k]]);
        let vals = Seq::new(idx.len(), |k: int| cv[idx[k]]);
        assert(item_parts(items, vals)) by {
            assert forall|k: int| 0 <= k < items.len() implies parses_as(#[trigger] items[k], vals[k]) by {
                assert(parses_as(ct[idx[k]], cv[idx[k]]));
            }
        }
        lemma_array_parses(items, vals);
        assert(m.subrange(2, m.len() as int) =~= array_tokens(items));
    } else {
        assert(parses_as(ct[idx[0]], cv[idx[0]]));
        assert(m.subrange(2, m.len() as int) =~= ct[idx[0]]);
    }
}

proof fn lemma_group_entries_parse(ch: Seq<XmlValue>, ct: Seq<Seq<TokenView>>, cv: Seq<JsonValue>, n: int)
    requires
        0 <= n <= group_names(ch, ch.len() as int).len(),
        ct.len() == ch.len(),
        cv.len() == ch.len(),
        forall|i: int| 0 <= i < ch.len() && (#[trigger] ch[i]) is Element ==> parses_as(ct[i], cv[i]),
    ensures
        member_parts(group_token_parts(ch, ct, n), group_entries(ch, cv, n)),
    decreases n,
{
    if n > 0 {
        lemma_group_entries_parse(ch, ct, cv, n - 1);
        lemma_part_lengths(Seq::empty(), ch, Seq::empty(), ct, 0, n - 1, 0, None);
        lemma_entry_lengths(Seq::empty(), ch, cv, 0, n - 1);
        let names = group_names(ch, ch.len() as int);
        let x = names[n - 1];
        let idx = group_members(ch, x, ch.len() as int);
        lemma_names_have_members(ch, ch.len() as int);
        lemma_members_are_elements(ch, x, ch.len() as int);
        assert(idx.len() >= 1);
        assert forall|k: int| 0 <= k < idx.len() implies parses_as(ct[#[trigger] idx[k]], cv[idx[k]]) by {
            let j = idx[k];
            assert(ch[j] is Element);
        }
        lemma_group_entry_parses(x, idx, ct, cv);
        let ms = group_token_parts(ch, ct, n);
        let es = group_entries(ch, cv, n);
        assert forall|k: int| 0 <= k < ms.len() implies member_part(#[trigger] ms[k], es[k]) by {
            if k < n - 1 {
                assert(ms[k] == group_token_parts(ch, ct, n - 1)[k]);
                assert(es[k] == group_entries(ch, cv, n - 1)[k]);
            }
        }
    }
}

proof fn lemma_member_parts_concat(
    a: Seq<Seq<TokenView>>,
    pa: Seq<(Seq<char>, JsonValue)>,
    b: Seq<Seq<TokenView>>,
    pb: Seq<(Seq<char>, JsonValue)>,
)
    requires
        member_parts(a, pa),
        member_parts(b, pb),
    ensures
        member_parts(a + b, pa + pb),
{
    assert forall|k: int| 0 <= k < (a + b).len() implies member_part(#[trigger] (a + b)[k], (pa + pb)[k]) by {
        if k < a.len() {
            assert(member_part(a[k], pa[k]));
        } else {
            assert(member_part(b[k - a.len()], pb[k - a.len()]));
        }
    }
}

proof fn lemma_element_parses(
    attrs: Seq<(Seq<char>, Seq<char>)>,
    ch: Seq<XmlValue>,
    ct: Seq<Seq<TokenView>>,
    cv: Seq<JsonValue>,
)
    requires
        ct.len() == ch.len(),
        cv.len() == ch.len(),
        forall|i: int| 0 <= i < ch.len() && (#[trigger] ch[i]) is Element ==> parses_as(ct[i], cv[i]),
    ensures
        parses_as(element_tokens(attrs, ch, ct), element_read(attrs, ch, cv)),
{
    let ng = group_names(ch, ch.len() as int).len() as int;
    lemma_attribute_entries_parse(attrs, attrs.len() as int);
    lemma_group_entries_parse(ch, ct, cv, ng);
    let parts = attribute_token_parts(attrs, attrs.len() as int) + group_token_parts(ch, ct, ng);
    let entries = attribute_entries(attrs, attrs.len() as int) + group_entries(ch, cv, ng);
    lemma_member_parts_concat(
        attribute_token_parts(attrs, attrs.len() as int),
        attribute_entries(attrs, attrs.len() as int),
        group_token_parts(ch, ct, ng),
        group_entries(ch, cv, ng),
    );
    let texts = element_texts(ch);
    let joined = join_all(texts, Seq::empty());
    if parts.len() == 0 && texts.len() > 0 {
        lemma_string_parses(joined);
    } else if texts.len() > 0 {
        let hash = seq!['#', 't', 'e', 'x', 't'];
        let tp = seq![TokenView::StringVal(hash), TokenView::Colon, TokenView::StringVal(joined)];
        let ep = (hash, JsonValue::StringVal(joined));
        lemma_string_parses(joined);
        assert(tp.subrange(2, tp.len() as int) =~= seq![TokenView::StringVal(joined)]);
        assert(member_part(tp, ep));
        assert(member_parts(parts.push(tp), entries.push(ep))) by {
            assert forall|k: int| 0 <= k < parts.push(tp).len() implies member_part(
                #[trigger] parts.push(tp)[k],
                entries.push(ep)[k],
            ) by {
                if k < parts.len() {
                    assert(member_part(parts[k], entries[k]));
                }
            }
        }
        lemma_object_parses(parts.push(tp), entries.push(ep));
    } else {
        lemma_object_parses(parts, entries);
    }
}

/// The tokens written for a value are read as the value's JSON value.
proof fn lemma_value_parses(v: XmlValue)
    ensures
        parses_as(value_tokens(v), read_value(v)),
    decreases v,
{
    match v {
        XmlValue::Text(s) => {
            lemma_string_parses(s);
            assert(value_tokens(v) == seq![TokenView::StringVal(s)]);
            assert(read_value(v) == JsonValue::StringVal(s));
        },
        XmlValue::Element { name, attributes, children } => {
            let ct = children_tokens(children);
            let cv = read_children(children);
            assert forall|i: int| 0 <= i < children.len() && (#[trigger] children[i]) is Element implies parses_as(
                ct[i],
                cv[i],
            ) by {
                assert(ct[i] == value_tokens(children[i]));
                assert(cv[i] == read_value(children[i]));
                lemma_value_parses(children[i]);
            }
            lemma_element_parses(attributes, children, ct, cv);
            assert(value_tokens(v) == element_tokens(attributes, children, ct));
            assert(read_value(v) == element_read(attributes, children, cv));
        },
    }
}

// ---------------------------------------------------------------------------
// The whole document
// ---------------------------------------------------------------------------

/// A text read as `ts` from its start reads, as a whole, as exactly `ts`.
proof fn lemma_lexes_whole(w: Seq<char>, ts: Seq<TokenView>)
    requires
        lexes_as(w, ts),
    ensures
        json_tokens(w) == Ok::<Seq<TokenView>, Seq<char>>(ts),
{
    reveal(lexes_as);
    assert(w.subrange(0, w.len() as int) =~= w);
    assert(occurs_at(w, 0, w));
    assert(lex_from(w, 0, Seq::empty()) == lex_from(w, w.len() as int, Seq::<TokenView>::empty() + ts));
    assert(Seq::<TokenView>::empty() + ts =~= ts);
    assert(skip_white_space(w, w.len() as int) == w.len());
}

/// The root element of the XML text `s`, when `s` reads as a document.
pub open spec fn xml_root(s: Seq<char>) -> Option<XmlValue> {
    match xml_tokens(strip_bom(s)) {
        Ok(ts) => match xml_document(ts, 0) {
            Ok(root) => Some(root),
            Err(_) => None,
        },
        Err(_) => None,
    }
}

/// The tokens of the JSON document written for the root element `root`:
/// one object whose one member is named after the root.
pub open spec fn document_tokens(root: XmlValue) -> Seq<TokenView> {
    seq![TokenView::BraceOpen, TokenView::StringVal(element_name(root)), TokenView::Colon]
        + value_tokens(root) + seq![TokenView::BraceClose]
}

/// The JSON text that the XML to JSON conversion writes, compact or
/// indented, is read by the JSON lexer of the JSON to XML conversion without
/// error, as the tokens of the document (see [`document_tokens`]): the same
/// tokens whatever the indentation. This holds when no element or attribute
/// name of the document holds a quote or a backslash, which the writer puts
/// between quotes as they are.
pub proof fn lemma_written_json_lexes(s: Seq<char>, indent: nat)
    requires
        xml_to_json(s, indent) is Ok,
        plain_names(xml_root(s)->Some_0),
    ensures
        xml_root(s) is Some,
        json_tokens(xml_to_json(s, indent)->Ok_0) == Ok::<Seq<TokenView>, Seq<char>>(
            document_tokens(xml_root(s)->Some_0),
        ),
{
    let ts = xml_tokens(strip_bom(s))->Ok_0;
    let root = xml_root(s)->Some_0;
    lemma_document_is_element(ts, 0);
    assert(root is Element);
    let name = element_name(root);
    assert(plain_text(name));
    lemma_key_lexes(name);
    let key = seq!['"'] + name + seq!['"', ':', ' '];
    let tkey = seq![TokenView::StringVal(name), TokenView::Colon];
    let open = seq![TokenView::BraceOpen];
    let close = seq![TokenView::BraceClose];
    let out = xml_to_json(s, indent)->Ok_0;
    if indent > 0 {
        let j = json_of(root, 1, 1, Some(indent))->Some_0;
        lemma_json_of_lexes(root, 1, 1, Some(indent));
        let lead = seq!['\n'] + spaces(indent);
        lemma_spaces_white(indent);
        assert(all_white(lead)) by {
            assert forall|k: int| 0 <= k < lead.len() implies is_white_space(#[trigger] lead[k]) by {
                if k > 0 {
                    assert(lead[k] == spaces(indent)[k - 1]);
                }
            }
        }
        lemma_punct_white_lexes('{', TokenView::BraceOpen, lead);
        assert(all_white(seq!['\n']));
        lemma_white_punct_lexes(seq!['\n'], '}', TokenView::BraceClose);
        let head = seq!['{'] + lead;
        let tail = seq!['\n'] + seq!['}'];
        lemma_concat_lexes(head, open, key, tkey);
        lemma_concat_lexes(head + key, open + tkey, j, value_tokens(root));
        lemma_concat_lexes(head + key + j, open + tkey + value_tokens(root), tail, close);
        assert(head + key + j + tail =~= out);
        assert(open + tkey + value_tokens(root) + close =~= document_tokens(root));
        lemma_lexes_whole(out, document_tokens(root));
    } else {
        let j = json_of(root, 0, 0, None)->Some_0;
        lemma_json_of_lexes(root, 0, 0, None);
        assert(all_white(seq![' ']));
        lemma_punct_white_lexes('{', TokenView::BraceOpen, seq![' ']);
        lemma_white_punct_lexes(seq![' '], '}', TokenView::BraceClose);
        let head = seq!['{'] + seq![' '];
        let tail = seq![' '] + seq!['}'];
        lemma_concat_lexes(head, open, key, tkey);
        lemma_concat_lexes(head + key, open + tkey, j, value_tokens(root));
        lemma_concat_lexes(head + key + j, open + tkey + value_tokens(root), tail, close);
        assert(head + key + j + tail =~= out);
        assert(open + tkey + value_tokens(root) + close =~= document_tokens(root));
        lemma_lexes_whole(out, document_tokens(root));
    }
}

/// The JSON document value read back for the root element `root`: an object
/// with one member, named after the root.
pub open spec fn document_value(root: XmlValue) -> JsonValue {
    JsonValue::Object(seq![(element_name(root), read_value(root))])
}

proof fn lemma_document_parses(root: XmlValue)
    requires
        json_depth(document_value(root)) <= MAX_DEPTH,
    ensures
        parse_document(document_tokens(root), 0) == Ok::<JsonValue, Seq<char>>(document_value(root)),
{
    let name = element_name(root);
    let vt = value_tokens(root);
    let m = seq![TokenView::StringVal(name), TokenView::Colon] + vt;
    let ms = seq![m];
    let pairs = seq![(name, read_value(root))];
    lemma_value_parses(root);
    assert(m.subrange(2, m.len() as int) =~= vt);
    assert(member_part(m, pairs[0]));
    assert(member_parts(ms, pairs));
    lemma_object_parses(ms, pairs);
    let doc = document_tokens(root);
    assert(object_tokens(ms) =~= doc);
    reveal(parses_as);
    assert(doc.subrange(0, doc.len() as int) =~= doc);
    assert(tokens_at(doc, 0, doc));
    assert(parse_value(doc, 0, 0) == Ok::<(JsonValue, int), Seq<char>>((document_value(root), doc.len() as int)));
}

/// Feeding the JSON that the XML to JSON conversion writes to the JSON to
/// XML conversion: the JSON reads back as the document value of the root
/// element (see [`document_value`]), and the result is the XML written for
/// that value. This holds when no element or attribute name of the document
/// holds a quote or a backslash, and the JSON nests no deeper than the JSON
/// reader allows.
pub proof fn lemma_written_json_converts_back(s: Seq<char>, indent: nat, pretty: bool)
    requires
        xml_to_json(s, indent) is Ok,
        plain_names(xml_root(s)->Some_0),
        json_depth(document_value(xml_root(s)->Some_0)) <= MAX_DEPTH,
    ensures
        xml_root(s) is Some,
        parse_document(document_tokens(xml_root(s)->Some_0), 0) == Ok::<JsonValue, Seq<char>>(
            document_value(xml_root(s)->Some_0),
        ),
        json_to_xml(xml_to_json(s, indent)->Ok_0, pretty) == xml_document_of(
            document_value(xml_root(s)->Some_0),
            pretty,
        ),
{
    lemma_written_json_lexes(s, indent);
    lemma_document_parses(xml_root(s)->Some_0);
}

// ---------------------------------------------------------------------------
// Numbers of a JSON document
// ---------------------------------------------------------------------------

/// Text free of `<` and `&`.
pub open spec fn markup_free(n: Seq<char>) -> bool {
    forall|i: int| 0 <= i < n.len() ==> #[trigger] n[i] != '<' && n[i] != '&'
}

/// Every number of `v`, all the way down, is written without `<` or `&`.
pub open spec fn plain_numbers(v: JsonValue) -> bool
    decreases v,
{
    match v {
        JsonValue::Object(ms) => forall|i: int| 0 <= i < ms.len() ==> plain_numbers(#[trigger] ms[i].1),
        JsonValue::Array(es) => forall|i: int| 0 <= i < es.len() ==> plain_numbers(#[trigger] es[i]),
        JsonValue::Number(n) => markup_free(n),
        _ => true,
    }
}

/// The JSON value of the JSON text `s`, when it reads as a document.
pub open spec fn json_root(s: Seq<char>) -> Option<JsonValue> {
    match json_tokens(s) {
        Ok(ts) => match parse_document(ts, 0) {
            Ok(v) => Some(v),
            Err(_) => None,
        },
        Err(_) => None,
    }
}

/// Every number token of `ts` is written without `<` or `&`.
pub open spec fn plain_number_tokens(ts: Seq<TokenView>) -> bool {
    forall|i: int| 0 <= i < ts.len() ==> (#[trigger] ts[i] matches TokenView::Number(n) ==> markup_free(n))
}

proof fn lemma_digits_run(s: Seq<char>, i: int)
    requires
        0 <= i,
    ensures
        forall|k: int| i <= k < digits_end(s, i) ==> is_ascii_digit(#[trigger] s[k]),
    decreases s.len() - i,
{
    if 0 <= i < s.len() && is_ascii_digit(s[i]) {
        lemma_digits_run(s, i + 1);
    }
}

proof fn lemma_word_markup_free(body: Seq<char>, word: Seq<char>)
    requires
        eq_ignore_ascii_case(body, word),
        forall|i: int| 0 <= i < word.len() ==> 'a' <= #[trigger] word[i] <= 'z',
    ensures
        markup_free(body),
{
    assert forall|i: int| 0 <= i < body.len() implies #[trigger] body[i] != '<' && body[i] != '&' by {
        assert(ascii_lower(body[i]) == ascii_lower(word[i]));
    }
}

/// A literal that reads as a floating-point number holds no `<` or `&`.
proof fn lemma_float_markup_free(n: Seq<char>)
    requires
        float_literal(n),
    ensures
        markup_free(n),
{
    let b: int = if n.len() > 0 && (n[0] == '+' || n[0] == '-') {
        1
    } else {
        0
    };
    let body = n.subrange(b, n.len() as int);
    reveal_strlit("inf");
    reveal_strlit("infinity");
    reveal_strlit("nan");
    if eq_ignore_ascii_case(body, "inf"@) {
        lemma_word_markup_free(body, "inf"@);
    } else if eq_ignore_ascii_case(body, "infinity"@) {
        lemma_word_markup_free(body, "infinity"@);
    } else if eq_ignore_ascii_case(body, "nan"@) {
        lemma_word_markup_free(body, "nan"@);
    }
    if !number_syntax(n, b) {
        assert forall|i: int| 0 <= i < n.len() implies #[trigger] n[i] != '<' && n[i] != '&' by {
            if i >= b {
                assert(n[i] == body[i - b]);
            }
        }
    } else {
        let i1 = digits_end(n, b);
        lemma_digits_run(n, b);
        crate::text::lemma_digits_end(n, b);
        let j = if i1 < n.len() && n[i1] == '.' {
            digits_end(n, i1 + 1)
        } else {
            i1
        };
        if i1 < n.len() && n[i1] == '.' {
            lemma_digits_run(n, i1 + 1);
            crate::text::lemma_digits_end(n, i1 + 1);
        }
        assert(exponent_ok(n, j));
        let m = if j + 1 < n.len() && (n[j + 1] == '+' || n[j + 1] == '-') {
            j + 2
        } else {
            j + 1
        };
        if j < n.len() {
            lemma_digits_run(n, m);
        }
        assert forall|k: int| 0 <= k < n.len() implies #[trigger] n[k] != '<' && n[k] != '&' by {
            if k < b {
            } else if k < i1 {
                assert(is_ascii_digit(n[k]));
            } else if k == i1 {
            } else if k < j {
                assert(is_ascii_digit(n[k]));
            } else if k == j {
            } else if k < m {
            } else {
                assert(is_ascii_digit(n[k]));
            }
        }
    }
}

/// Lexing adds number tokens only for literals that read as numbers.
proof fn lemma_lex_numbers(s: Seq<char>, p: int, acc: Seq<TokenView>)
    requires
        plain_number_tokens(acc),
    ensures
        lex_from(s, p, acc) matches Ok(ts) ==> plain_number_tokens(ts),
    decreases s.len() - p,
{
    let q = skip_white_space(s, p);
    if !(p < 0 || q >= s.len()) {
        reveal(lex_token);
        match lex_token(s, q) {
            Ok((t, e)) => {
                if p < e <= s.len() {
                    if let TokenView::Number(n) = t {
                        let lit = s.subrange(q, literal_end(s, q + 1));
                        assert(lex_literal(s, q) is Ok);
                        assert(n == lit);
                        lemma_float_markup_free(n);
                    }
                    let acc2 = acc.push(t);
                    assert(plain_number_tokens(acc2)) by {
                        assert forall|i: int| 0 <= i < acc2.len() implies (#[trigger] acc2[i] matches TokenView::Number(
                            n,
                        ) ==> markup_free(n)) by {
                            if i < acc.len() {
                                assert(acc2[i] == acc[i]);
                            }
                        }
                    }
                    lemma_lex_numbers(s, e, acc2);
                }
            },
            Err(_) => {},
        }
    }
}

/// Parsing makes number values only from number tokens.
proof fn lemma_parse_numbers(ts: Seq<TokenView>, p: int, depth: nat)
    requires
        plain_number_tokens(ts),
    ensures
        parse_value(ts, p, depth) matches Ok((v, _)) ==> plain_numbers(v),
    decreases ts.len() - p, 0nat,
{
    if depth < MAX_DEPTH && 0 <= p < ts.len() {
        match ts[p] {
            TokenView::BraceOpen => {
                lemma_parse_object_numbers(ts, p + 1, depth + 1);
            },
            TokenView::BracketOpen => {
                lemma_parse_array_numbers(ts, p + 1, depth + 1);
            },
            TokenView::Number(n) => {
                assert(ts[p] matches TokenView::Number(n) ==> markup_free(n));
            },
            _ => {},
        }
    }
}

proof fn lemma_parse_object_numbers(ts: Seq<TokenView>, p: int, depth: nat)
    requires
        plain_number_tokens(ts),
    ensures
        parse_object(ts, p, depth) matches Ok((v, _)) ==> plain_numbers(v),
    decreases ts.len() - p, 2nat,
{
    if !(0 <= p < ts.len() && ts[p] is BraceClose) {
        lemma_parse_members_numbers(ts, p, depth, Seq::empty());
    }
}

proof fn lemma_parse_members_numbers(
    ts: Seq<TokenView>,
    p: int,
    depth: nat,
    acc: Seq<(Seq<char>, JsonValue)>,
)
    requires
        plain_number_tokens(ts),
        forall|i: int| 0 <= i < acc.len() ==> plain_numbers(#[trigger] acc[i].1),
    ensures
        parse_members(ts, p, depth, acc) matches Ok((v, _)) ==> plain_numbers(v),
    decreases ts.len() - p, 1nat,
{
    if 0 <= p < ts.len() && ts[p] is StringVal && p + 1 < ts.len() && ts[p + 1] is Colon {
        lemma_parse_numbers(ts, p + 2, depth);
        match parse_value(ts, p + 2, depth) {
            Ok((v, p3)) => {
                let acc2 = acc.push((ts[p]->StringVal_0, v));
                assert forall|i: int| 0 <= i < acc2.len() implies plain_numbers(#[trigger] acc2[i].1) by {
                    if i < acc.len() {
                        assert(acc2[i] == acc[i]);
                    }
                }
                if 0 <= p3 < ts.len() && ts[p3] is Comma && p3 + 1 > p && !(ts[p3] is BraceClose) {
                    lemma_parse_members_numbers(ts, p3 + 1, depth, acc2);
                }
            },
            Err(_) => {},
        }
    }
}

proof fn lemma_parse_array_numbers(ts: Seq<TokenView>, p: int, depth: nat)
    requires
        plain_number_tokens(ts),
    ensures
        parse_array(ts, p, depth) matches Ok((v, _)) ==> plain_numbers(v),
    decreases ts.len() - p, 2nat,
{
    if !(0 <= p < ts.len() && ts[p] is BracketClose) {
        lemma_parse_elements_numbers(ts, p, depth, Seq::empty());
    }
}

proof fn lemma_parse_elements_numbers(ts: Seq<TokenView>, p: int, depth: nat, acc: Seq<JsonValue>)
    requires
        plain_number_tokens(ts),
        forall|i: int| 0 <= i < acc.len() ==> plain_numbers(#[trigger] acc[i]),
    ensures
        parse_elements(ts, p, depth, acc) matches Ok((v, _)) ==> plain_numbers(v),
    decreases ts.len() - p, 1nat,
{
    lemma_parse_numbers(ts, p, depth);
    match parse_value(ts, p, depth) {
        Ok((v, p3)) => {
            let acc2 = acc.push(v);
            assert forall|i: int| 0 <= i < acc2.len() implies plain_numbers(#[trigger] acc2[i]) by {
                if i < acc.len() {
                    assert(acc2[i] == acc[i]);
                }
            }
            if 0 <= p3 < ts.len() && ts[p3] is Comma && p3 + 1 > p && !(ts[p3] is BracketClose) {
                lemma_parse_elements_numbers(ts, p3 + 1, depth, acc2);
            }
        },
        Err(_) => {},
    }
}

/// The numbers of a JSON document hold no `<` or `&`.
pub proof fn lemma_document_numbers(s: Seq<char>)
    requires
        json_root(s) is Some,
    ensures
        plain_numbers(json_root(s)->Some_0),
{
    lemma_lex_numbers(s, 0, Seq::empty());
    let ts = json_tokens(s)->Ok_0;
    lemma_parse_numbers(ts, 0, 0);
}

/// The indentation of the JSON that the XML to JSON conversion writes does
/// not change what the JSON lexer reads: when the conversion succeeds with
/// one indentation it succeeds with any other, and the two texts give the
/// same tokens (when no name holds a quote or a backslash).
pub proof fn lemma_indent_keeps_tokens(s: Seq<char>, a: nat, b: nat)
    requires
        xml_to_json(s, a) is Ok,
        plain_names(xml_root(s)->Some_0),
    ensures
        xml_to_json(s, b) is Ok,
        json_tokens(xml_to_json(s, a)->Ok_0) == json_tokens(xml_to_json(s, b)->Ok_0),
{
    lemma_indent_keeps_outcome(s, a);
    lemma_indent_keeps_outcome(s, b);
    lemma_written_json_lexes(s, a);
    lemma_written_json_lexes(s, b);
}

} // verus!
