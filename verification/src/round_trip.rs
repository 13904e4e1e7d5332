//! What one direction of conversion writes, the other reads back.

use vstd::prelude::*;
use crate::json_to_xml::json_lexer::{
    json_tokens, lex_from, lex_hex4, lex_string_body, lex_token, lex_unicode_escape, simple_escape,
};
use crate::json_to_xml::json_model::{TokenView, escape_xml, escape_xml_prefix, xml_text_piece};
use crate::text::{
    digit_value, digits_value, find_char, from_str_radix_u32, hex4_upper, hex_digit_upper,
    is_white_space, lemma_find_char, skip_white_space,
};
use crate::xml_to_json::xml_lexer::{
    attribute_tag_text, decode_entities, decode_from, entity_text, lemma_attribute_tag_tokens,
    plain_attribute_name, plain_tag_name, xml_tokens,
};
use crate::xml_to_json::xml_model::TokenView as XmlTokenView;
use crate::xml_to_json::xml_model::{escape_json, escape_json_prefix, json_char, json_string};

verus! {

// ---------------------------------------------------------------------------
// XML text: escaping, then entity decoding
// ---------------------------------------------------------------------------

proof fn lemma_find_char_shift(p: Seq<char>, x: Seq<char>, i: int, c: char)
    requires
        0 <= i,
    ensures
        find_char(p + x, p.len() + i, c) == match find_char(x, i, c) {
            Some(j) => Some(p.len() + j),
            None => None,
        },
    decreases x.len() - i,
{
    let s = p + x;
    if i < x.len() {
        assert(s[p.len() + i] == x[i]);
        if x[i] != c {
            lemma_find_char_shift(p, x, i + 1, c);
            assert(p.len() + i + 1 == p.len() + (i + 1));
        }
    }
}

/// Decoding what follows a prefix does not depend on the prefix.
proof fn lemma_decode_shift(p: Seq<char>, x: Seq<char>, i: int)
    requires
        0 <= i,
    ensures
        decode_from(p + x, p.len() + i) == decode_from(x, i),
    decreases x.len() - i,
{
    let s = p + x;
    if i < x.len() {
        assert(s[p.len() + i] == x[i]);
        if x[i] != '&' {
            lemma_decode_shift(p, x, i + 1);
            assert(p.len() + i + 1 == p.len() + (i + 1));
        } else {
            lemma_find_char_shift(p, x, i + 1, ';');
            assert(p.len() + i + 1 == p.len() + (i + 1));
            match find_char(x, i + 1, ';') {
                None => {
                    assert(s.subrange(p.len() + i, s.len() as int) =~= x.subrange(i, x.len() as int));
                },
                Some(j) => {
                    lemma_find_char(x, i + 1, ';');
                    assert(s.subrange(p.len() + i + 1, p.len() + j) =~= x.subrange(i + 1, j));
                    lemma_decode_shift(p, x, j + 1);
                    assert(p.len() + j + 1 == p.len() + (j + 1));
                },
            }
        }
    }
}

/// The text of one escaped character decodes to that character.
#[verifier::spinoff_prover]
#[verifier::rlimit(40)]
proof fn lemma_decode_piece(s: Seq<char>, n: int, x: Seq<char>)
    requires
        0 <= n < s.len(),
    ensures
        decode_from(xml_text_piece(s, n) + x, 0) == seq![s[n]] + decode_from(x, 0),
{
    let p = xml_text_piece(s, n);
    let t = p + x;
    let c = s[n];
    if c == '&' {
        assert(t[0] == '&' && t[1] == 'a' && t[2] == 'm' && t[3] == 'p' && t[4] == ';');
        assert(find_char(t, 4, ';') == Some(4int));
        assert(find_char(t, 3, ';') == Some(4int));
        assert(find_char(t, 2, ';') == Some(4int));
        assert(find_char(t, 1, ';') == Some(4int));
        assert(t.subrange(1, 4) =~= "amp"@) by {
            reveal_strlit("amp");
        }
        assert(entity_text("amp"@) == seq!['&']);
        lemma_decode_shift(p, x, 0);
    } else if c == '<' {
        assert(t[0] == '&' && t[1] == 'l' && t[2] == 't' && t[3] == ';');
        assert(find_char(t, 3, ';') == Some(3int));
        assert(find_char(t, 2, ';') == Some(3int));
        assert(find_char(t, 1, ';') == Some(3int));
        assert(t.subrange(1, 3) =~= "lt"@) by {
            reveal_strlit("lt");
            reveal_strlit("amp");
        }
        assert(entity_text("lt"@) == seq!['<']) by {
            reveal_strlit("lt");
            reveal_strlit("amp");
        }
        lemma_decode_shift(p, x, 0);
    } else if c == '>' && n >= 2 && s[n - 1] == ']' && s[n - 2] == ']' {
        assert(t[0] == '&' && t[1] == 'g' && t[2] == 't' && t[3] == ';');
        assert(find_char(t, 3, ';') == Some(3int));
        assert(find_char(t, 2, ';') == Some(3int));
        assert(find_char(t, 1, ';') == Some(3int));
        assert(t.subrange(1, 3) =~= "gt"@) by {
            reveal_strlit("gt");
        }
        assert(entity_text("gt"@) == seq!['>']) by {
            reveal_strlit("gt");
            reveal_strlit("lt");
            reveal_strlit("amp");
            assert("gt"@[0] != "lt"@[0]);
            assert("gt"@.len() != "amp"@.len());
        }
        lemma_decode_shift(p, x, 0);
    } else {
        assert(p == seq![c]);
        assert(t[0] == c);
        lemma_decode_shift(p, x, 0);
    }
}

proof fn lemma_decode_escape_prefix(s: Seq<char>, n: int, x: Seq<char>)
    requires
        0 <= n <= s.len(),
    ensures
        decode_from(escape_xml_prefix(s, n) + x, 0) == s.take(n) + decode_from(x, 0),
    decreases n,
{
    if n > 0 {
        let prev = escape_xml_prefix(s, n - 1);
        let piece = xml_text_piece(s, n - 1);
        assert(escape_xml_prefix(s, n) + x =~= prev + (piece + x));
        lemma_decode_escape_prefix(s, n - 1, piece + x);
        lemma_decode_piece(s, n - 1, x);
        assert(s.take(n) =~= s.take(n - 1) + seq![s[n - 1]]);
    } else {
        assert(escape_xml_prefix(s, 0) + x =~= x);
        assert(s.take(0) =~= Seq::<char>::empty());
    }
}

/// Text that the JSON to XML conversion writes as XML character data reads
/// back, once its entity references are replaced, as the original text.
pub proof fn lemma_xml_text_round_trip(s: Seq<char>)
    ensures
        decode_entities(escape_xml(s)) == s,
{
    lemma_decode_escape_prefix(s, s.len() as int, Seq::empty());
    assert(escape_xml(s) + Seq::<char>::empty() =~= escape_xml(s));
    assert(s.take(s.len() as int) =~= s);
}

proof fn lemma_escape_keeps_out(x: Seq<char>, n: int, c: char)
    requires
        0 <= n <= x.len(),
        c == '\'' || c == '"',
        forall|i: int| 0 <= i < x.len() ==> #[trigger] x[i] != c,
    ensures
        forall|i: int| 0 <= i < escape_xml_prefix(x, n).len() ==> #[trigger] escape_xml_prefix(x, n)[i]
            != c,
    decreases n,
{
    if n > 0 {
        lemma_escape_keeps_out(x, n - 1, c);
        let prev = escape_xml_prefix(x, n - 1);
        let piece = xml_text_piece(x, n - 1);
        assert(forall|i: int| 0 <= i < piece.len() ==> #[trigger] piece[i] != c);
        assert(escape_xml_prefix(x, n) == prev + piece);
        assert forall|i: int| 0 <= i < (prev + piece).len() implies #[trigger] (prev + piece)[i] != c by {
            if i >= prev.len() {
                assert((prev + piece)[i] == piece[i - prev.len()]);
            }
        }
    }
}

/// An attribute value written as XML text (see [`escape_xml`]) reads back,
/// between single quotes or double quotes alike, as the text it was written
/// for.
pub proof fn lemma_attribute_value_round_trip(n: Seq<char>, a: Seq<char>, x: Seq<char>, q: char)
    requires
        plain_tag_name(n),
        plain_attribute_name(a),
        q == '\'' || q == '"',
        forall|i: int| 0 <= i < x.len() ==> #[trigger] x[i] != '\'' && x[i] != '"',
    ensures
        xml_tokens(attribute_tag_text(n, a, escape_xml(x), q)) == Ok::<Seq<XmlTokenView>, Seq<char>>(
            seq![XmlTokenView::TagOpen(n), XmlTokenView::Attr(a, x), XmlTokenView::TagSelfClose],
        ),
{
    lemma_escape_keeps_out(x, x.len() as int, q);
    lemma_attribute_tag_tokens(n, a, escape_xml(x), q);
    lemma_xml_text_round_trip(x);
}

// ---------------------------------------------------------------------------
// JSON strings: escaping, then lexing
// ---------------------------------------------------------------------------

proof fn lemma_hex_digit_value(d: nat)
    requires
        d < 16,
    ensures
        digit_value(hex_digit_upper(d), 16) == Some(d),
{
}

/// Four upper-case hexadecimal digits read back as the number they write.
#[verifier::spinoff_prover]
#[verifier::rlimit(40)]
proof fn lemma_hex4_reads_back(v: nat)
    requires
        v < 0x10000,
    ensures
        from_str_radix_u32(hex4_upper(v), 16) == Some(v),
{
    let h = hex4_upper(v);
    let a = v / 4096;
    let b = (v / 256) % 16;
    let c = (v / 16) % 16;
    let d = v % 16;
    lemma_hex_digit_value(a);
    lemma_hex_digit_value(b);
    lemma_hex_digit_value(c);
    lemma_hex_digit_value(d);
    assert(((a * 16 + b) * 16 + c) * 16 + d == v) by (nonlinear_arith)
        requires
            a == v / 4096,
            b == (v / 256) % 16,
            c == (v / 16) % 16,
            d == v % 16,
            v < 0x10000,
    ;
    assert(h[0] != '+');
    assert(h.drop_last().drop_last().drop_last().drop_last() =~= Seq::<char>::empty());
    assert(h.drop_last().drop_last().drop_last() =~= seq![h[0]]);
    assert(h.drop_last().drop_last() =~= seq![h[0], h[1]]);
    assert(h.drop_last() =~= seq![h[0], h[1], h[2]]);
    reveal_with_fuel(digits_value, 5);
    assert(digits_value(seq![h[0]], 16) == a) by {
        assert(seq![h[0]].drop_last() =~= Seq::<char>::empty());
    }
    assert(digits_value(seq![h[0], h[1]], 16) == a * 16 + b) by {
        assert(seq![h[0], h[1]].drop_last() =~= seq![h[0]]);
    }
    assert(digits_value(seq![h[0], h[1], h[2]], 16) == (a * 16 + b) * 16 + c) by {
        assert(seq![h[0], h[1], h[2]].drop_last() =~= seq![h[0], h[1]]);
    }
    assert(digits_value(h, 16) == v);
}

proof fn lemma_lex_simple(t: Seq<char>, p: int, c: char, acc: Seq<char>, q: int)
    requires
        0 <= p,
        p + 1 < t.len(),
        t[p] == '\\',
        simple_escape(t[p + 1]) == Some(c),
    ensures
        lex_string_body(t, p, acc, q) == lex_string_body(t, p + 2, acc.push(c), q),
{
}

proof fn lemma_lex_unicode(t: Seq<char>, p: int, c: char, acc: Seq<char>, q: int)
    requires
        0 <= p,
        p + 6 <= t.len(),
        t[p] == '\\',
        t[p + 1] == 'u',
        from_str_radix_u32(t.subrange(p + 2, p + 6), 16) == Some(c as u32 as nat),
        (c as u32) < 0xD800,
    ensures
        lex_string_body(t, p, acc, q) == lex_string_body(t, p + 6, acc.push(c), q),
{
    assert(simple_escape('u') is None);
    assert(lex_unicode_escape(t, p + 2, q) == Ok::<(char, int), Seq<char>>((c, p + 6)));
}

proof fn lemma_lex_plain(t: Seq<char>, p: int, c: char, acc: Seq<char>, q: int)
    requires
        0 <= p < t.len(),
        t[p] == c,
        c != '\\',
        c != '"',
    ensures
        lex_string_body(t, p, acc, q) == lex_string_body(t, p + 1, acc.push(c), q),
{
}

/// Lexing a string body over one written character yields that character.
proof fn lemma_lex_json_char(t: Seq<char>, p: int, c: char, acc: Seq<char>, q: int)
    requires
        0 <= p,
        p + json_char(c).len() <= t.len(),
        t.subrange(p, p + json_char(c).len()) == json_char(c),
    ensures
        lex_string_body(t, p, acc, q) == lex_string_body(t, p + json_char(c).len(), acc.push(c), q),
{
    let w = json_char(c);
    assert(forall|k: int| 0 <= k < w.len() ==> t[p + k] == #[trigger] w[k]) by {
        assert forall|k: int| 0 <= k < w.len() implies t[p + k] == #[trigger] w[k] by {
            assert(t.subrange(p, p + w.len())[k] == t[p + k]);
        }
    }
    if c == '\\' || c == '"' || c == '\n' || c == '\r' || c == '\t' {
        assert(t[p] == w[0] && t[p + 1] == w[1]);
        lemma_lex_simple(t, p, c, acc, q);
    } else if (c as u32) < 0x20 {
        let code = c as u32 as nat;
        assert(t[p] == w[0] && t[p + 1] == w[1]);
        assert(t.subrange(p + 2, p + 6) =~= hex4_upper(code)) by {
            assert forall|k: int| 0 <= k < 4 implies t.subrange(p + 2, p + 6)[k] == hex4_upper(code)[k] by {
                assert(w[k + 2] == hex4_upper(code)[k]);
                assert(t[p + 2 + k] == w[k + 2]);
            }
        }
        lemma_hex4_reads_back(code);
        lemma_lex_unicode(t, p, c, acc, q);
    } else {
        assert(w[0] == c);
        assert(t[p + 0] == w[0]);
        lemma_lex_plain(t, p, c, acc, q);
    }
}

#[verifier::spinoff_prover]
#[verifier::rlimit(40)]
proof fn lemma_lex_escaped_prefix(t: Seq<char>, p0: int, s: Seq<char>, n: int)
    requires
        0 <= n <= s.len(),
        0 <= p0,
        p0 + json_string(s).len() <= t.len(),
        t.subrange(p0, p0 + json_string(s).len()) == json_string(s),
    ensures
        lex_string_body(t, p0 + 1, Seq::empty(), p0) == lex_string_body(
            t,
            p0 + 1 + escape_json_prefix(s, n).len() as int,
            s.take(n),
            p0,
        ),
    decreases n,
{
    if n > 0 {
        lemma_lex_escaped_prefix(t, p0, s, n - 1);
        let prev = escape_json_prefix(s, n - 1);
        let w = json_char(s[n - 1]);
        let e = escape_json(s);
        let js = json_string(s);
        lemma_escape_json_prefix_of(s, n);
        let p: int = p0 + 1 + prev.len() as int;
        assert(t.subrange(p, p + w.len()) =~= w) by {
            assert forall|k: int| 0 <= k < w.len() implies t.subrange(p, p + w.len())[k] == w[k] by {
                assert(t[p + k] == t.subrange(p0, p0 + js.len())[1 + prev.len() + k]);
                assert(js[1 + prev.len() + k] == e[prev.len() + k]);
                assert(escape_json_prefix(s, n)[prev.len() + k] == w[k]);
            }
        }
        lemma_lex_json_char(t, p, s[n - 1], s.take(n - 1), p0);
        assert(s.take(n - 1).push(s[n - 1]) =~= s.take(n));
    } else {
        assert(s.take(0) =~= Seq::<char>::empty());
    }
}

/// The body of a JSON string written at `p0` reads as the text it was
/// written for, ending just after the written string.
pub(crate) proof fn lemma_string_body_reads(t: Seq<char>, p0: int, s: Seq<char>)
    requires
        0 <= p0,
        p0 + json_string(s).len() <= t.len(),
        t.subrange(p0, p0 + json_string(s).len()) == json_string(s),
    ensures
        lex_string_body(t, p0 + 1, Seq::empty(), p0) == Ok::<(Seq<char>, int), Seq<char>>(
            (s, p0 + json_string(s).len()),
        ),
{
    let js = json_string(s);
    let e = escape_json(s);
    let n = s.len() as int;
    lemma_lex_escaped_prefix(t, p0, s, n);
    assert(s.take(n) =~= s);
    let end: int = p0 + 1 + e.len() as int;
    assert(t[end] == t.subrange(p0, p0 + js.len())[1 + e.len() as int]);
}

/// Each written prefix is a prefix of the whole written text.
proof fn lemma_escape_json_prefix_of(s: Seq<char>, n: int)
    requires
        0 <= n <= s.len(),
    ensures
        escape_json_prefix(s, n).len() <= escape_json(s).len(),
        forall|k: int|
            0 <= k < escape_json_prefix(s, n).len() ==> escape_json(
                s,
            )[k] == #[trigger] escape_json_prefix(s, n)[k],
    decreases s.len() - n,
{
    if n < s.len() {
        lemma_escape_json_prefix_of(s, n + 1);
        let a = escape_json_prefix(s, n);
        let b = escape_json_prefix(s, n + 1);
        assert(b == a + json_char(s[n]));
        assert forall|k: int| 0 <= k < a.len() implies escape_json(
            s,
        )[k] == #[trigger] a[k] by {
            assert(b[k] == a[k]);
        }
    }
}

/// A JSON string that the XML to JSON conversion writes for a text is read
/// by the JSON lexer as one string token holding exactly that text.
pub proof fn lemma_json_string_round_trip(s: Seq<char>)
    ensures
        json_tokens(json_string(s)) == Ok::<Seq<TokenView>, Seq<char>>(seq![TokenView::StringVal(s)]),
{
    let t = json_string(s);
    assert(t.subrange(0, t.len() as int) =~= t);
    lemma_string_body_reads(t, 0, s);
    assert(t[0] == '"');
    assert(!is_white_space('"'));
    assert(skip_white_space(t, 0) == 0);
    assert(lex_token(t, 0) == Ok::<(TokenView, int), Seq<char>>((TokenView::StringVal(s), t.len() as int))) by {
        reveal(lex_token);
    }
    assert(skip_white_space(t, t.len() as int) == t.len());
    assert(lex_from(t, t.len() as int, seq![TokenView::StringVal(s)]) == Ok::<Seq<TokenView>, Seq<char>>(seq![TokenView::StringVal(s)]));
    assert(seq![TokenView::StringVal(s)] =~= Seq::<TokenView>::empty().push(TokenView::StringVal(s)));
}

/// A text with no quote and no backslash.
pub open spec fn unescaped(x: Seq<char>) -> bool {
    forall|i: int| 0 <= i < x.len() ==> x[i] != '"' && x[i] != '\\'
}

proof fn lemma_lex_run(t: Seq<char>, p: int, x: Seq<char>, acc: Seq<char>, q: int)
    requires
        0 <= p,
        p + x.len() <= t.len(),
        forall|k: int| 0 <= k < x.len() ==> t[p + k] == x[k],
        unescaped(x),
    ensures
        lex_string_body(t, p, acc, q) == lex_string_body(t, p + x.len(), acc + x, q),
    decreases x.len(),
{
    if x.len() > 0 {
        assert(t[p + 0] == x[0]);
        lemma_lex_plain(t, p, x[0], acc, q);
        let y = x.drop_first();
        assert forall|k: int| 0 <= k < y.len() implies t[p + 1 + k] == y[k] by {
            assert(t[p + (k + 1)] == x[k + 1]);
        }
        lemma_lex_run(t, p + 1, y, acc.push(x[0]), q);
        assert(acc.push(x[0]) + y =~= acc + x);
    } else {
        assert(acc + x =~= acc);
    }
}

/// A string `"a m b"` whose middle `m` the string reader turns into the one
/// character `d`, while `a` and `b` hold no quote or backslash, is read as
/// the one string `a d b`.
proof fn lemma_string_with_middle(a: Seq<char>, m: Seq<char>, b: Seq<char>, d: char)
    requires
        unescaped(a),
        unescaped(b),
        m.len() > 0,
        ({
            let t = seq!['"'] + a + m + b + seq!['"'];
            let pm = 1 + a.len() as int;
            forall|acc: Seq<char>| #[trigger] lex_string_body(t, pm, acc, 0) == lex_string_body(
                t,
                pm + m.len() as int,
                acc.push(d),
                0,
            )
        }),
    ensures
        json_tokens(seq!['"'] + a + m + b + seq!['"']) == Ok::<Seq<TokenView>, Seq<char>>(
            seq![TokenView::StringVal(a + seq![d] + b)],
        ),
{
    let t = seq!['"'] + a + m + b + seq!['"'];
    let n = t.len() as int;
    let pa = 1int;
    let pm = 1 + a.len() as int;
    let pb = pm + m.len() as int;
    let pq = pb + b.len() as int;
    assert(n == pq + 1);
    assert forall|k: int| 0 <= k < a.len() implies t[pa + k] == a[k] by {}
    assert forall|k: int| 0 <= k < b.len() implies t[pb + k] == b[k] by {}
    assert(t[pq] == '"' && t[0] == '"');
    lemma_lex_run(t, pa, a, Seq::empty(), 0);
    let acc_a = Seq::<char>::empty() + a;
    assert(lex_string_body(t, pm, acc_a, 0) == lex_string_body(t, pb, acc_a.push(d), 0));
    lemma_lex_run(t, pb, b, acc_a.push(d), 0);
    let text = acc_a.push(d) + b;
    assert(text =~= a + seq![d] + b);
    assert(lex_string_body(t, pq, text, 0) == Ok::<(Seq<char>, int), Seq<char>>((text, n)));
    assert(!is_white_space('"'));
    assert(skip_white_space(t, 0) == 0);
    assert(lex_token(t, 0) == Ok::<(TokenView, int), Seq<char>>((TokenView::StringVal(text), n))) by {
        reveal(lex_token);
    }
    assert(skip_white_space(t, n) == n);
    assert(lex_from(t, n, seq![TokenView::StringVal(text)]) == Ok::<Seq<TokenView>, Seq<char>>(
        seq![TokenView::StringVal(text)],
    ));
    assert(seq![TokenView::StringVal(text)] =~= Seq::<TokenView>::empty().push(TokenView::StringVal(text)));
}

/// Each escape of RFC 8259 reads as the character it stands for: in a
/// string `"a\cb"` whose parts `a` and `b` hold no quote or backslash, the
/// JSON lexer reads the one string `a d b`, where `\"` gives `"`, `\\`
/// gives `\`, `\/` gives `/`, `\b` backspace, `\f` form feed, `\n` line
/// feed, `\r` carriage return and `\t` tab.
pub proof fn lemma_json_escape_reads(a: Seq<char>, b: Seq<char>, c: char, d: char)
    requires
        unescaped(a),
        unescaped(b),
        (c == '"' && d == '"') || (c == '\\' && d == '\\') || (c == '/' && d == '/') || (c == 'b'
            && d == '\u{8}') || (c == 'f' && d == '\u{c}') || (c == 'n' && d == '\n') || (c == 'r'
            && d == '\r') || (c == 't' && d == '\t'),
    ensures
        json_tokens(seq!['"'] + a + seq!['\\', c] + b + seq!['"']) == Ok::<Seq<TokenView>, Seq<char>>(
            seq![TokenView::StringVal(a + seq![d] + b)],
        ),
{
    let m = seq!['\\', c];
    let t = seq!['"'] + a + m + b + seq!['"'];
    let pm = 1 + a.len() as int;
    assert(t[pm] == '\\' && t[pm + 1] == c);
    assert(simple_escape(c) == Some(d));
    assert forall|acc: Seq<char>| #[trigger] lex_string_body(t, pm, acc, 0) == lex_string_body(
        t,
        pm + m.len() as int,
        acc.push(d),
        0,
    ) by {
        lemma_lex_simple(t, pm, d, acc, 0);
    }
    lemma_string_with_middle(a, m, b, d);
}

/// A `\u` escape with four hexadecimal digits reads as the character with
/// that code, for every code outside the surrogates: the string
/// `"a\uHHHHb"` is read as `a`, the character, `b`.
pub proof fn lemma_json_unicode_escape_reads(a: Seq<char>, b: Seq<char>, code: nat)
    requires
        unescaped(a),
        unescaped(b),
        code < 0x10000,
        !(0xD800 <= code <= 0xDFFF),
    ensures
        json_tokens(seq!['"'] + a + seq!['\\', 'u'] + hex4_upper(code) + b + seq!['"'])
            == Ok::<Seq<TokenView>, Seq<char>>(seq![TokenView::StringVal(a + seq![code as char] + b)]),
{
    let m = seq!['\\', 'u'] + hex4_upper(code);
    let t = seq!['"'] + a + m + b + seq!['"'];
    assert(seq!['"'] + a + seq!['\\', 'u'] + hex4_upper(code) + b + seq!['"'] =~= t);
    let pm = 1 + a.len() as int;
    assert(t[pm] == '\\' && t[pm + 1] == 'u');
    assert(t.subrange(pm + 2, pm + 6) =~= hex4_upper(code));
    lemma_hex4_reads_back(code);
    assert(simple_escape('u') is None);
    assert(lex_hex4(t, pm + 2, 0) == Ok::<(nat, int), Seq<char>>((code, pm + 6)));
    assert(lex_unicode_escape(t, pm + 2, 0) == Ok::<(char, int), Seq<char>>((code as char, pm + 6)));
    assert forall|acc: Seq<char>| #[trigger] lex_string_body(t, pm, acc, 0) == lex_string_body(
        t,
        pm + m.len() as int,
        acc.push(code as char),
        0,
    ) by {}
    lemma_string_with_middle(a, m, b, code as char);
}

/// A surrogate pair of `\u` escapes reads as the one character it encodes:
/// `"a\uHHHH\uLLLLb"` with a high surrogate `H` and a low surrogate `L` is
/// read as `a`, the character `0x10000 + (H - 0xD800) * 0x400 + (L -
/// 0xDC00)`, `b`.
pub proof fn lemma_json_surrogate_pair_reads(a: Seq<char>, b: Seq<char>, hi: nat, lo: nat)
    requires
        unescaped(a),
        unescaped(b),
        0xD800 <= hi <= 0xDBFF,
        0xDC00 <= lo <= 0xDFFF,
    ensures
        json_tokens(
            seq!['"'] + a + seq!['\\', 'u'] + hex4_upper(hi) + seq!['\\', 'u'] + hex4_upper(lo) + b
                + seq!['"'],
        ) == Ok::<Seq<TokenView>, Seq<char>>(
            seq![
                TokenView::StringVal(
                    a + seq![(0x10000 + (hi - 0xD800) * 0x400 + (lo - 0xDC00)) as char] + b,
                ),
            ],
        ),
{
    let m = seq!['\\', 'u'] + hex4_upper(hi) + seq!['\\', 'u'] + hex4_upper(lo);
    let t = seq!['"'] + a + m + b + seq!['"'];
    assert(seq!['"'] + a + seq!['\\', 'u'] + hex4_upper(hi) + seq!['\\', 'u'] + hex4_upper(lo) + b
        + seq!['"'] =~= t);
    let ch = (0x10000 + (hi - 0xD800) * 0x400 + (lo - 0xDC00)) as char;
    let pm = 1 + a.len() as int;
    assert(t[pm] == '\\' && t[pm + 1] == 'u');
    assert(t.subrange(pm + 2, pm + 6) =~= hex4_upper(hi));
    assert(t[pm + 6] == '\\' && t[pm + 7] == 'u');
    assert(t.subrange(pm + 8, pm + 12) =~= hex4_upper(lo));
    lemma_hex4_reads_back(hi);
    lemma_hex4_reads_back(lo);
    assert(simple_escape('u') is None);
    assert(lex_hex4(t, pm + 2, 0) == Ok::<(nat, int), Seq<char>>((hi, pm + 6)));
    assert(lex_hex4(t, pm + 8, 0) == Ok::<(nat, int), Seq<char>>((lo, pm + 12)));
    assert(lex_unicode_escape(t, pm + 2, 0) == Ok::<(char, int), Seq<char>>((ch, pm + 12)));
    assert forall|acc: Seq<char>| #[trigger] lex_string_body(t, pm, acc, 0) == lex_string_body(
        t,
        pm + m.len() as int,
        acc.push(ch),
        0,
    ) by {}
    lemma_string_with_middle(a, m, b, ch);
}

/// A string `"a m...` whose reader fails at the middle `m` (while `a` holds
/// no quote or backslash) is not read: the lexer reports an error.
proof fn lemma_string_fails_at(a: Seq<char>, m: Seq<char>, rest: Seq<char>)
    requires
        unescaped(a),
        ({
            let t = seq!['"'] + a + m + rest;
            forall|acc: Seq<char>| #[trigger] lex_string_body(t, 1 + a.len() as int, acc, 0) is Err
        }),
    ensures
        json_tokens(seq!['"'] + a + m + rest) is Err,
{
    let t = seq!['"'] + a + m + rest;
    let pm = 1 + a.len() as int;
    assert forall|k: int| 0 <= k < a.len() implies t[1 + k] == a[k] by {}
    lemma_lex_run(t, 1, a, Seq::empty(), 0);
    assert(lex_string_body(t, pm, Seq::empty() + a, 0) is Err);
    assert(t[0] == '"');
    assert(!is_white_space('"'));
    assert(skip_white_space(t, 0) == 0);
    assert(lex_token(t, 0) is Err) by {
        reveal(lex_token);
    }
}

/// Only the escapes of RFC 8259 are read: a string `"a\c...` whose part `a`
/// holds no quote or backslash, and whose escaped character `c` is none of
/// `"`, `\`, `/`, `b`, `f`, `n`, `r`, `t` and `u`, is refused, whatever
/// follows.
pub proof fn lemma_json_bad_escape_rejected(a: Seq<char>, c: char, rest: Seq<char>)
    requires
        unescaped(a),
        c != '"' && c != '\\' && c != '/' && c != 'b' && c != 'f' && c != 'n' && c != 'r' && c
            != 't' && c != 'u',
    ensures
        json_tokens(seq!['"'] + a + seq!['\\', c] + rest) is Err,
{
    let m = seq!['\\', c];
    let t = seq!['"'] + a + m + rest;
    let pm = 1 + a.len() as int;
    assert(t[pm] == '\\' && t[pm + 1] == c);
    assert(simple_escape(c) is None);
    lemma_string_fails_at(a, m, rest);
}

/// A low surrogate cannot stand alone: a string `"a\uLLLL...` with `L` in
/// `DC00`..`DFFF`, whose part `a` holds no quote or backslash, is refused,
/// whatever follows.
pub proof fn lemma_json_lone_low_surrogate_rejected(a: Seq<char>, lo: nat, rest: Seq<char>)
    requires
        unescaped(a),
        0xDC00 <= lo <= 0xDFFF,
    ensures
        json_tokens(seq!['"'] + a + seq!['\\', 'u'] + hex4_upper(lo) + rest) is Err,
{
    let m = seq!['\\', 'u'] + hex4_upper(lo);
    let t = seq!['"'] + a + m + rest;
    assert(seq!['"'] + a + seq!['\\', 'u'] + hex4_upper(lo) + rest =~= t);
    let pm = 1 + a.len() as int;
    assert(t[pm] == '\\' && t[pm + 1] == 'u');
    assert(t.subrange(pm + 2, pm + 6) =~= hex4_upper(lo));
    lemma_hex4_reads_back(lo);
    assert(simple_escape('u') is None);
    assert(lex_hex4(t, pm + 2, 0) == Ok::<(nat, int), Seq<char>>((lo, pm + 6)));
    assert(lex_unicode_escape(t, pm + 2, 0) is Err);
    lemma_string_fails_at(a, m, rest);
}

/// A high surrogate needs a second `\u` escape: a string `"a\uHHHH` with
/// `H` in `D800`..`DBFF`, followed by anything that does not start with
/// `\u`, is refused.
pub proof fn lemma_json_lone_high_surrogate_rejected(a: Seq<char>, hi: nat, rest: Seq<char>)
    requires
        unescaped(a),
        0xD800 <= hi <= 0xDBFF,
        !(rest.len() >= 2 && rest[0] == '\\' && rest[1] == 'u'),
    ensures
        json_tokens(seq!['"'] + a + seq!['\\', 'u'] + hex4_upper(hi) + rest) is Err,
{
    let m = seq!['\\', 'u'] + hex4_upper(hi);
    let t = seq!['"'] + a + m + rest;
    assert(seq!['"'] + a + seq!['\\', 'u'] + hex4_upper(hi) + rest =~= t);
    let pm = 1 + a.len() as int;
    assert(t[pm] == '\\' && t[pm + 1] == 'u');
    assert(t.subrange(pm + 2, pm + 6) =~= hex4_upper(hi));
    lemma_hex4_reads_back(hi);
    assert(simple_escape('u') is None);
    assert(lex_hex4(t, pm + 2, 0) == Ok::<(nat, int), Seq<char>>((hi, pm + 6)));
    if pm + 7 < t.len() {
        assert(t[pm + 6] == rest[0] && t[pm + 7] == rest[1]);
    }
    assert(lex_unicode_escape(t, pm + 2, 0) is Err);
    lemma_string_fails_at(a, m, rest);
}

} // verus!
