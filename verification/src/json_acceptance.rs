//! Every JSON document that the converter reads passes the JSON
//! well-formedness check.

use vstd::prelude::*;
use crate::json_grammar::{
    item_token_parts, json_value_tokens, lemma_item_token_parts, lemma_item_token_parts_len,
    lemma_member_token_parts, lemma_member_token_parts_len, lemma_parser_reads_value_tokens,
    member_token_parts,
};
use crate::json_readback::{join_from, lemma_join_tokens_from};
use crate::json_to_xml::json_model::{JsonValue, TokenView};
use crate::json_structure::{lemma_literal_end_range, lemma_string_end_range};
use crate::json_readback::lemma_token_advances;
use crate::json_to_xml::json_lexer::{
    json_tokens, lex_from, lex_hex4, lex_string_body, lex_token, lex_unicode_escape, simple_escape,
};
use crate::json_to_xml::json_parser::parse_document;
use crate::json_validation::{
    Expect, check_from, expects_key, expects_value, json_well_formed, string_end,
};
use crate::text::{
    all_digits, digit_value, from_str_radix_u32, is_white_space, lemma_skip_white_space,
    skip_white_space,
};

verus! {

// ---------------------------------------------------------------------------
// The check, read token by token
// ---------------------------------------------------------------------------

/// Where a closing bracket may stand.
pub open spec fn may_close(e: Expect) -> bool {
    e == Expect::CommaOrClose || e == Expect::Key || e == Expect::Value
}

/// The JSON check (see `check_from`) run over tokens instead of characters:
/// from token `i` on, with the open brackets `stack` and the expectation `e`.
pub open spec fn token_check(ts: Seq<TokenView>, i: int, stack: Seq<char>, e: Expect) -> bool
    decreases ts.len() - i,
{
    if i < 0 || i >= ts.len() {
        stack.len() == 0
    } else {
        match ts[i] {
            TokenView::BraceOpen => token_check(ts, i + 1, stack.push('{'), Expect::Key),
            TokenView::BracketOpen => token_check(ts, i + 1, stack.push('['), Expect::Value),
            TokenView::BraceClose => may_close(e) && stack.len() > 0 && stack.last() == '{'
                && token_check(ts, i + 1, stack.drop_last(), Expect::CommaOrClose),
            TokenView::BracketClose => may_close(e) && stack.len() > 0 && stack.last() == '['
                && token_check(ts, i + 1, stack.drop_last(), Expect::CommaOrClose),
            TokenView::Colon => e == Expect::Colon && token_check(ts, i + 1, stack, Expect::Value),
            TokenView::Comma => e == Expect::CommaOrClose && token_check(
                ts,
                i + 1,
                stack,
                if stack.len() > 0 && stack.last() == '{' {
                    Expect::KeyAfterComma
                } else {
                    Expect::ValueAfterComma
                },
            ),
            TokenView::StringVal(_) => (expects_key(e) || expects_value(e)) && token_check(
                ts,
                i + 1,
                stack,
                if expects_key(e) {
                    Expect::Colon
                } else {
                    Expect::CommaOrClose
                },
            ),
            _ => expects_value(e) && token_check(ts, i + 1, stack, Expect::CommaOrClose),
        }
    }
}

/// The tokens of a value, read where a value may stand, leave the open
/// brackets as they were and expect a comma or a closing bracket after.
proof fn lemma_value_token_check(v: JsonValue, ts: Seq<TokenView>, i: int, st: Seq<char>, e: Expect)
    requires
        0 <= i,
        i + json_value_tokens(v).len() <= ts.len(),
        ts.subrange(i, i + json_value_tokens(v).len()) == json_value_tokens(v),
        expects_value(e),
    ensures
        token_check(ts, i, st, e) == token_check(
            ts,
            i + json_value_tokens(v).len(),
            st,
            Expect::CommaOrClose,
        ),
    decreases v, 0int,
{
    let w = json_value_tokens(v);
    assert(ts[i] == w[0]);
    match v {
        JsonValue::Object(ms) => {
            let n = ms.len() as int;
            let mt = member_token_parts(ms, n);
            lemma_member_token_parts_len(ms, n);
            let st2 = st.push('{');
            if n == 0 {
                assert(mt =~= Seq::<Seq<TokenView>>::empty());
                assert(w =~= seq![TokenView::BraceOpen, TokenView::BraceClose]);
                assert(ts[i + 1] == w[1]);
                assert(st2.drop_last() =~= st);
                assert(token_check(ts, i, st, e) == token_check(ts, i + 1, st2, Expect::Key));
                assert(token_check(ts, i + 1, st2, Expect::Key) == token_check(
                    ts,
                    i + 2,
                    st,
                    Expect::CommaOrClose,
                ));
                assert(token_check(ts, i, st, e) == token_check(ts, i + w.len(), st, Expect::CommaOrClose));
            } else {
                lemma_join_tokens_from(mt, n);
                let j = join_from(mt, 0, n);
                assert(w =~= seq![TokenView::BraceOpen] + j + seq![TokenView::BraceClose]);
                assert(ts.subrange(i + 1, i + 1 + j.len()) =~= j) by {
                    assert forall|x: int| 0 <= x < j.len() implies ts.subrange(i + 1, i + 1 + j.len())[x]
                        == j[x] by {
                        assert(ts[i + 1 + x] == w[1 + x]);
                    }
                }
                assert(token_check(ts, i, st, e) == token_check(ts, i + 1, st2, Expect::Key));
                lemma_members_token_check(ms, ts, i + 1, 0, st2, Expect::Key);
                assert(token_check(ts, i + 1, st2, Expect::Key) == token_check(
                    ts,
                    i + 1 + j.len(),
                    st2,
                    Expect::CommaOrClose,
                ));
                assert(w.len() == j.len() + 2);
                assert(ts[i + 1 + j.len()] == w[1 + j.len() as int]);
                assert(st2.drop_last() =~= st);
                assert(token_check(ts, i + 1 + j.len(), st2, Expect::CommaOrClose) == token_check(
                    ts,
                    i + 2 + j.len(),
                    st,
                    Expect::CommaOrClose,
                ));
                assert(token_check(ts, i, st, e) == token_check(ts, i + w.len(), st, Expect::CommaOrClose));
            }
        },
        JsonValue::Array(es) => {
            let n = es.len() as int;
            let it = item_token_parts(es, n);
            lemma_item_token_parts_len(es, n);
            let st2 = st.push('[');
            if n == 0 {
                assert(it =~= Seq::<Seq<TokenView>>::empty());
                assert(w =~= seq![TokenView::BracketOpen, TokenView::BracketClose]);
                assert(ts[i + 1] == w[1]);
                assert(st2.drop_last() =~= st);
                assert(token_check(ts, i, st, e) == token_check(ts, i + 1, st2, Expect::Value));
                assert(token_check(ts, i + 1, st2, Expect::Value) == token_check(
                    ts,
                    i + 2,
                    st,
                    Expect::CommaOrClose,
                ));
            } else {
                lemma_join_tokens_from(it, n);
                let j = join_from(it, 0, n);
                assert(w =~= seq![TokenView::BracketOpen] + j + seq![TokenView::BracketClose]);
                assert(ts.subrange(i + 1, i + 1 + j.len()) =~= j) by {
                    assert forall|x: int| 0 <= x < j.len() implies ts.subrange(i + 1, i + 1 + j.len())[x]
                        == j[x] by {
                        assert(ts[i + 1 + x] == w[1 + x]);
                    }
                }
                assert(token_check(ts, i, st, e) == token_check(ts, i + 1, st2, Expect::Value));
                lemma_items_token_check(es, ts, i + 1, 0, st2, Expect::Value);
                assert(token_check(ts, i + 1, st2, Expect::Value) == token_check(
                    ts,
                    i + 1 + j.len(),
                    st2,
                    Expect::CommaOrClose,
                ));
                assert(ts[i + 1 + j.len()] == w[1 + j.len() as int]);
                assert(st2.drop_last() =~= st);
                assert(token_check(ts, i + 1 + j.len(), st2, Expect::CommaOrClose) == token_check(
                    ts,
                    i + 2 + j.len(),
                    st,
                    Expect::CommaOrClose,
                ));
                assert(token_check(ts, i, st, e) == token_check(ts, i + 1, st2, Expect::Value));
                assert(w.len() == j.len() + 2);
            }
        },
        _ => {
            assert(w.len() == 1);
            assert(!expects_key(e));
            assert(token_check(ts, i, st, e) == token_check(ts, i + 1, st, Expect::CommaOrClose));
        },
    }
}

proof fn lemma_members_token_check(
    ms: Seq<(Seq<char>, JsonValue)>,
    ts: Seq<TokenView>,
    i: int,
    k: int,
    st: Seq<char>,
    e: Expect,
)
    requires
        0 <= i,
        0 <= k < ms.len(),
        st.len() > 0,
        st.last() == '{',
        expects_key(e),
        i + join_from(member_token_parts(ms, ms.len() as int), k, ms.len() as int).len() <= ts.len(),
        ts.subrange(
            i,
            i + join_from(member_token_parts(ms, ms.len() as int), k, ms.len() as int).len(),
        ) == join_from(member_token_parts(ms, ms.len() as int), k, ms.len() as int),
    ensures
        token_check(ts, i, st, e) == token_check(
            ts,
            i + join_from(member_token_parts(ms, ms.len() as int), k, ms.len() as int).len(),
            st,
            Expect::CommaOrClose,
        ),
    decreases ms, ms.len() - k,
{
    let n = ms.len() as int;
    let mt = member_token_parts(ms, n);
    let j = join_from(mt, k, n);
    lemma_member_token_parts(ms, n, k);
    let part = mt[k];
    let wv = json_value_tokens(ms[k].1);
    assert(part == seq![TokenView::StringVal(ms[k].0), TokenView::Colon] + wv);
    let rest = if k == n - 1 {
        Seq::<TokenView>::empty()
    } else {
        seq![TokenView::Comma] + join_from(mt, k + 1, n)
    };
    assert(j =~= part + rest);
    assert(ts[i] == j[0]);
    assert(ts[i + 1] == j[1]);
    assert(ts.subrange(i + 2, i + 2 + wv.len()) =~= wv) by {
        assert forall|x: int| 0 <= x < wv.len() implies ts.subrange(i + 2, i + 2 + wv.len())[x]
            == wv[x] by {
            assert(ts[i + 2 + x] == j[2 + x]);
        }
    }
    assert(token_check(ts, i, st, e) == token_check(ts, i + 1, st, Expect::Colon));
    assert(token_check(ts, i + 1, st, Expect::Colon) == token_check(ts, i + 2, st, Expect::Value));
    lemma_value_token_check(ms[k].1, ts, i + 2, st, Expect::Value);
    if k < n - 1 {
        let p = i + part.len();
        assert(ts[p] == j[part.len() as int]);
        let j2 = join_from(mt, k + 1, n);
        assert(ts.subrange(p + 1, p + 1 + j2.len()) =~= j2) by {
            assert forall|x: int| 0 <= x < j2.len() implies ts.subrange(p + 1, p + 1 + j2.len())[x]
                == j2[x] by {
                assert(ts[p + 1 + x] == j[part.len() + 1 + x]);
            }
        }
        assert(token_check(ts, p, st, Expect::CommaOrClose) == token_check(
            ts,
            p + 1,
            st,
            Expect::KeyAfterComma,
        ));
        lemma_members_token_check(ms, ts, p + 1, k + 1, st, Expect::KeyAfterComma);
    }
}

proof fn lemma_items_token_check(
    es: Seq<JsonValue>,
    ts: Seq<TokenView>,
    i: int,
    k: int,
    st: Seq<char>,
    e: Expect,
)
    requires
        0 <= i,
        0 <= k < es.len(),
        st.len() > 0,
        st.last() == '[',
        expects_value(e),
        i + join_from(item_token_parts(es, es.len() as int), k, es.len() as int).len() <= ts.len(),
        ts.subrange(i, i + join_from(item_token_parts(es, es.len() as int), k, es.len() as int).len())
            == join_from(item_token_parts(es, es.len() as int), k, es.len() as int),
    ensures
        token_check(ts, i, st, e) == token_check(
            ts,
            i + join_from(item_token_parts(es, es.len() as int), k, es.len() as int).len(),
            st,
            Expect::CommaOrClose,
        ),
    decreases es, es.len() - k,
{
    let n = es.len() as int;
    let it = item_token_parts(es, n);
    let j = join_from(it, k, n);
    lemma_item_token_parts(es, n, k);
    let part = it[k];
    let rest = if k == n - 1 {
        Seq::<TokenView>::empty()
    } else {
        seq![TokenView::Comma] + join_from(it, k + 1, n)
    };
    assert(j =~= part + rest);
    assert(ts.subrange(i, i + part.len()) =~= part) by {
        assert forall|x: int| 0 <= x < part.len() implies ts.subrange(i, i + part.len())[x]
            == part[x] by {
            assert(ts[i + x] == j[x]);
        }
    }
    lemma_value_token_check(es[k], ts, i, st, e);
    if k < n - 1 {
        let p = i + part.len();
        assert(ts[p] == j[part.len() as int]);
        let j2 = join_from(it, k + 1, n);
        assert(ts.subrange(p + 1, p + 1 + j2.len()) =~= j2) by {
            assert forall|x: int| 0 <= x < j2.len() implies ts.subrange(p + 1, p + 1 + j2.len())[x]
                == j2[x] by {
                assert(ts[p + 1 + x] == j[part.len() + 1 + x]);
            }
        }
        assert(token_check(ts, p, st, Expect::CommaOrClose) == token_check(
            ts,
            p + 1,
            st,
            Expect::ValueAfterComma,
        ));
        lemma_items_token_check(es, ts, p + 1, k + 1, st, Expect::ValueAfterComma);
    }
}

// ---------------------------------------------------------------------------
// The check, read character by character, follows the tokens
// ---------------------------------------------------------------------------

proof fn lemma_check_skips_white(s: Seq<char>, p: int, st: Seq<char>, e: Expect)
    requires
        0 <= p,
    ensures
        check_from(s, p, st, e) == check_from(s, skip_white_space(s, p), st, e),
    decreases s.len() - p,
{
    if p < s.len() && is_white_space(s[p]) {
        lemma_check_skips_white(s, p + 1, st, e);
    }
}

proof fn lemma_lex_prefix(s: Seq<char>, p: int, acc: Seq<TokenView>)
    ensures
        lex_from(s, p, acc) matches Ok(all) ==> all.len() >= acc.len() && all.subrange(
            0,
            acc.len() as int,
        ) == acc,
    decreases s.len() - p,
{
    let q = skip_white_space(s, p);
    if p >= 0 && q < s.len() {
        if let Ok((t, e)) = lex_token(s, q) {
            if p < e <= s.len() {
                lemma_lex_prefix(s, e, acc.push(t));
                if let Ok(all) = lex_from(s, e, acc.push(t)) {
                    assert(all.subrange(0, acc.len() as int) =~= all.subrange(0, acc.len() as int + 1).subrange(
                        0,
                        acc.len() as int,
                    ));
                    assert(acc.push(t).subrange(0, acc.len() as int) =~= acc);
                }
            }
        }
    } else {
        if let Ok(all) = lex_from(s, p, acc) {
            assert(all.subrange(0, acc.len() as int) =~= acc);
        }
    }
}

proof fn lemma_string_end_plain(s: Seq<char>, a: int, b: int)
    requires
        0 <= a <= b <= s.len(),
        forall|k: int| a <= k < b ==> (#[trigger] s[k]) != '"' && s[k] != '\\',
    ensures
        string_end(s, a, false) == string_end(s, b, false),
    decreases b - a,
{
    if a < b {
        assert(s[a] != '"' && s[a] != '\\');
        lemma_string_end_plain(s, a + 1, b);
    }
}

proof fn lemma_hex_plain(s: Seq<char>, p: int)
    requires
        0 <= p,
        p + 4 <= s.len(),
        from_str_radix_u32(s.subrange(p, p + 4), 16) is Some,
    ensures
        forall|k: int| p <= k < p + 4 ==> (#[trigger] s[k]) != '"' && s[k] != '\\',
{
    let sub = s.subrange(p, p + 4);
    let d = if sub[0] == '+' {
        sub.drop_first()
    } else {
        sub
    };
    assert(all_digits(d, 16));
    assert forall|k: int| p <= k < p + 4 implies (#[trigger] s[k]) != '"' && s[k] != '\\' by {
        assert(sub[k - p] == s[k]);
        if sub[0] == '+' {
            if k > p {
                assert(d[k - p - 1] == s[k]);
                assert(digit_value(d[k - p - 1], 16) is Some);
            }
        } else {
            assert(d[k - p] == s[k]);
            assert(digit_value(d[k - p], 16) is Some);
        }
    }
}

proof fn lemma_unicode_end(s: Seq<char>, p: int, q: int)
    requires
        0 <= p,
    ensures
        lex_unicode_escape(s, p, q) matches Ok((_, np)) ==> p < np <= s.len() && string_end(
            s,
            p,
            false,
        ) == string_end(s, np, false),
{
    if let Ok((code, p1)) = lex_hex4(s, p, q) {
        lemma_hex_plain(s, p);
        lemma_string_end_plain(s, p, p + 4);
        if 0xD800 <= code <= 0xDBFF {
            if p1 + 1 < s.len() && s[p1] == '\\' && s[p1 + 1] == 'u' {
                if let Ok((low, p2)) = lex_hex4(s, p1 + 2, q) {
                    lemma_hex_plain(s, p1 + 2);
                    lemma_string_end_plain(s, p1 + 2, p1 + 6);
                    assert(string_end(s, p1, false) == string_end(s, p1 + 1, true));
                    assert(string_end(s, p1 + 1, true) == string_end(s, p1 + 2, false));
                }
            }
        }
    }
}

proof fn lemma_string_body_end(s: Seq<char>, p: int, acc: Seq<char>, q: int)
    requires
        0 <= p,
    ensures
        lex_string_body(s, p, acc, q) matches Ok((_, end)) ==> string_end(s, p, false) == Some(end),
    decreases s.len() - p,
{
    if p < s.len() {
        if s[p] == '\\' {
            if p + 1 < s.len() {
                let c = s[p + 1];
                match simple_escape(c) {
                    Some(x) => {
                        lemma_string_body_end(s, p + 2, acc.push(x), q);
                        assert(string_end(s, p, false) == string_end(s, p + 1, true));
                        assert(string_end(s, p + 1, true) == string_end(s, p + 2, false));
                    },
                    None => {
                        if c == 'u' {
                            assert(string_end(s, p, false) == string_end(s, p + 1, true));
                            assert(string_end(s, p + 1, true) == string_end(s, p + 2, false));
                            lemma_unicode_end(s, p + 2, q);
                            if let Ok((ch, np)) = lex_unicode_escape(s, p + 2, q) {
                                if p < np <= s.len() {
                                    lemma_string_body_end(s, np, acc.push(ch), q);
                                }
                            }
                        }
                    },
                }
            }
        } else if s[p] != '"' {
            lemma_string_body_end(s, p + 1, acc.push(s[p]), q);
        }
    }
}

proof fn lemma_lex_check(s: Seq<char>, p: int, acc: Seq<TokenView>, all: Seq<TokenView>, st: Seq<char>, e: Expect)
    requires
        0 <= p,
        lex_from(s, p, acc) == Ok::<Seq<TokenView>, Seq<char>>(all),
        token_check(all, acc.len() as int, st, e),
    ensures
        check_from(s, p, st, e) is Ok,
    decreases s.len() - p,
{
    let q = skip_white_space(s, p);
    if p <= s.len() {
        lemma_skip_white_space(s, p);
    }
    lemma_check_skips_white(s, p, st, e);
    if q < s.len() {
        let c = s[q];
        assert(!is_white_space(c));
        reveal(lex_token);
        lemma_token_advances(s, q);
        if let Ok((t, end)) = lex_token(s, q) {
            if c == '"' {
                lemma_string_body_end(s, q + 1, Seq::empty(), q);
                lemma_string_end_range(s, q + 1, false);
            } else if !(c == '{' || c == '}' || c == '[' || c == ']' || c == ':' || c == ',') {
                lemma_literal_end_range(s, q + 1);
            }
            assert(end <= s.len());
            let acc2 = acc.push(t);
            lemma_lex_prefix(s, end, acc2);
            assert(all[acc.len() as int] == acc2[acc.len() as int]) by {
                assert(all.subrange(0, acc2.len() as int)[acc.len() as int] == all[acc.len() as int]);
            }
            assert(all[acc.len() as int] == t);
            let st2 = if c == '{' {
                st.push('{')
            } else if c == '[' {
                st.push('[')
            } else if c == '}' || c == ']' {
                st.drop_last()
            } else {
                st
            };
            let e2 = if c == '{' {
                Expect::Key
            } else if c == '[' || c == ':' {
                Expect::Value
            } else if c == ',' {
                if st.len() > 0 && st.last() == '{' {
                    Expect::KeyAfterComma
                } else {
                    Expect::ValueAfterComma
                }
            } else if c == '"' && expects_key(e) {
                Expect::Colon
            } else {
                Expect::CommaOrClose
            };
            assert(token_check(all, acc2.len() as int, st2, e2));
            lemma_lex_check(s, end, acc2, all, st2, e2);
        }
    }
}

/// Every JSON document that the converter reads (the lexer splits it into
/// tokens and the parser reads them as one value) passes the JSON
/// well-formedness check.
pub proof fn lemma_read_json_is_well_formed(s: Seq<char>)
    ensures
        (json_tokens(s) matches Ok(ts) && parse_document(ts, 0) is Ok) ==> json_well_formed(s) is Ok,
{
    if let Ok(ts) = json_tokens(s) {
        if let Ok(v) = parse_document(ts, 0) {
            lemma_parser_reads_value_tokens(ts, v);
            assert(ts.subrange(0, ts.len() as int) =~= ts);
            lemma_value_token_check(v, ts, 0, Seq::empty(), Expect::Any);
            assert(token_check(ts, 0, Seq::empty(), Expect::Any));
            lemma_lex_check(s, 0, Seq::empty(), ts, Seq::empty(), Expect::Any);
        }
    }
}

} // verus!
