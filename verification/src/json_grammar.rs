//! The JSON reader reads exactly the token sequences of JSON values: a
//! token sequence is read as a value if and only if it is that value's
//! tokens and the value nests within the reader's limit.

use vstd::prelude::*;
use crate::json_nesting::lemma_parsed_depth;
use crate::json_readback::{
    array_tokens, item_parts, join_from, json_depth, lemma_array_parses,
    lemma_join_tokens_from, lemma_object_parses, lemma_string_parses, lemma_tokens_at_index,
    member_part, object_tokens, parses_as, tokens_at,
};
use crate::json_to_xml::json_model::{JsonValue, MAX_DEPTH, TokenView};
use crate::json_to_xml::json_parser::{
    parse_array, parse_document, parse_elements, parse_members, parse_object, parse_value,
};

verus! {

// ---------------------------------------------------------------------------
// The tokens of a value
// ---------------------------------------------------------------------------

/// The tokens of the JSON value `v`: a scalar is its one token; an object
/// is `{`, its members separated by `,`, and `}`; an array is `[`, its items
/// separated by `,`, and `]`.
pub open spec fn json_value_tokens(v: JsonValue) -> Seq<TokenView>
    decreases v, 1nat,
{
    match v {
        JsonValue::Object(ms) => object_tokens(member_token_parts(ms, ms.len() as int)),
        JsonValue::Array(es) => array_tokens(item_token_parts(es, es.len() as int)),
        JsonValue::StringVal(s) => seq![TokenView::StringVal(s)],
        JsonValue::Number(n) => seq![TokenView::Number(n)],
        JsonValue::BoolVal(b) => seq![TokenView::BoolVal(b)],
        JsonValue::Null => seq![TokenView::Null],
    }
}

/// The tokens of the first `n` members: each its key, `:` and its value's
/// tokens.
pub open spec fn member_token_parts(ms: Seq<(Seq<char>, JsonValue)>, n: int) -> Seq<Seq<TokenView>>
    decreases ms, n,
{
    if n <= 0 || n > ms.len() {
        Seq::empty()
    } else {
        member_token_parts(ms, n - 1).push(
            seq![TokenView::StringVal(ms[n - 1].0), TokenView::Colon] + json_value_tokens(ms[n - 1].1),
        )
    }
}

/// The tokens of the first `n` items.
pub open spec fn item_token_parts(es: Seq<JsonValue>, n: int) -> Seq<Seq<TokenView>>
    decreases es, n,
{
    if n <= 0 || n > es.len() {
        Seq::empty()
    } else {
        item_token_parts(es, n - 1).push(json_value_tokens(es[n - 1]))
    }
}

pub(crate) proof fn lemma_member_token_parts_len(ms: Seq<(Seq<char>, JsonValue)>, n: int)
    requires
        0 <= n <= ms.len(),
    ensures
        member_token_parts(ms, n).len() == n,
    decreases n,
{
    if n > 0 {
        lemma_member_token_parts_len(ms, n - 1);
    }
}

pub(crate) proof fn lemma_member_token_parts(ms: Seq<(Seq<char>, JsonValue)>, n: int, i: int)
    requires
        0 <= i < n <= ms.len(),
    ensures
        member_token_parts(ms, n).len() == n,
        member_token_parts(ms, n)[i] == seq![TokenView::StringVal(ms[i].0), TokenView::Colon]
            + json_value_tokens(ms[i].1),
    decreases n,
{
    lemma_member_token_parts_len(ms, n);
    lemma_member_token_parts_len(ms, n - 1);
    if i < n - 1 {
        lemma_member_token_parts(ms, n - 1, i);
    }
}

pub(crate) proof fn lemma_item_token_parts_len(es: Seq<JsonValue>, n: int)
    requires
        0 <= n <= es.len(),
    ensures
        item_token_parts(es, n).len() == n,
    decreases n,
{
    if n > 0 {
        lemma_item_token_parts_len(es, n - 1);
    }
}

pub(crate) proof fn lemma_item_token_parts(es: Seq<JsonValue>, n: int, i: int)
    requires
        0 <= i < n <= es.len(),
    ensures
        item_token_parts(es, n).len() == n,
        item_token_parts(es, n)[i] == json_value_tokens(es[i]),
    decreases n,
{
    lemma_item_token_parts_len(es, n);
    lemma_item_token_parts_len(es, n - 1);
    if i < n - 1 {
        lemma_item_token_parts(es, n - 1, i);
    }
}

// ---------------------------------------------------------------------------
// The tokens of a value are read as the value
// ---------------------------------------------------------------------------

proof fn lemma_scalar_tokens_parse(v: JsonValue)
    requires
        !(v is Object),
        !(v is Array),
        !(v is StringVal),
    ensures
        parses_as(json_value_tokens(v), v),
{
    reveal(parses_as);
    let w = json_value_tokens(v);
    assert forall|ts: Seq<TokenView>, p: int, d: nat|
        tokens_at(ts, p, w) && d + json_depth(v) <= MAX_DEPTH implies #[trigger] parse_value(ts, p, d)
        == Ok::<(JsonValue, int), Seq<char>>((v, p + w.len())) by {
        lemma_tokens_at_index(ts, p, w, 0);
    }
}

proof fn lemma_empty_array_parses()
    ensures
        parses_as(json_value_tokens(JsonValue::Array(Seq::empty())), JsonValue::Array(Seq::empty())),
{
    reveal(parses_as);
    let v = JsonValue::Array(Seq::empty());
    let w = json_value_tokens(v);
    assert(item_token_parts(Seq::<JsonValue>::empty(), 0) =~= Seq::<Seq<TokenView>>::empty());
    assert(w =~= seq![TokenView::BracketOpen, TokenView::BracketClose]);
    assert forall|ts: Seq<TokenView>, p: int, d: nat|
        tokens_at(ts, p, w) && d + json_depth(v) <= MAX_DEPTH implies #[trigger] parse_value(ts, p, d)
        == Ok::<(JsonValue, int), Seq<char>>((v, p + w.len())) by {
        lemma_tokens_at_index(ts, p, w, 0);
        lemma_tokens_at_index(ts, p, w, 1);
    }
}

/// The tokens of a value are read as that value, wherever they stand with
/// room left for its nesting.
proof fn lemma_value_tokens_parse(v: JsonValue)
    ensures
        parses_as(json_value_tokens(v), v),
    decreases v,
{
    match v {
        JsonValue::Object(ms) => {
            let n = ms.len() as int;
            let mt = member_token_parts(ms, n);
            lemma_member_token_parts_len(ms, n);
            assert forall|k: int| 0 <= k < mt.len() implies member_part(#[trigger] mt[k], ms[k]) by {
                lemma_member_token_parts(ms, n, k);
                lemma_value_tokens_parse(ms[k].1);
                assert(mt[k].subrange(2, mt[k].len() as int) =~= json_value_tokens(ms[k].1));
            }
            lemma_object_parses(mt, ms);
        },
        JsonValue::Array(es) => {
            let n = es.len() as int;
            if n == 0 {
                assert(es =~= Seq::<JsonValue>::empty());
                lemma_empty_array_parses();
            } else {
                let it = item_token_parts(es, n);
                lemma_item_token_parts_len(es, n);
                assert forall|k: int| 0 <= k < it.len() implies parses_as(#[trigger] it[k], es[k]) by {
                    lemma_item_token_parts(es, n, k);
                    lemma_value_tokens_parse(es[k]);
                }
                assert(item_parts(it, es));
                lemma_array_parses(it, es);
            }
        },
        JsonValue::StringVal(t) => {
            lemma_string_parses(t);
        },
        _ => {
            lemma_scalar_tokens_parse(v);
        },
    }
}

// ---------------------------------------------------------------------------
// What is read is the tokens of the value read
// ---------------------------------------------------------------------------

proof fn lemma_parse_value_tokens(ts: Seq<TokenView>, p: int, d: nat)
    requires
        0 <= p,
    ensures
        parse_value(ts, p, d) matches Ok((v, e)) ==> p < e <= ts.len() && ts.subrange(p, e)
            == json_value_tokens(v),
    decreases ts.len() - p, 0nat,
{
    if d < MAX_DEPTH && p < ts.len() {
        match ts[p] {
            TokenView::BraceOpen => {
                lemma_parse_object_tokens(ts, p + 1, d + 1);
            },
            TokenView::BracketOpen => {
                lemma_parse_array_tokens(ts, p + 1, d + 1);
            },
            _ => {
                if let Ok((v, e)) = parse_value(ts, p, d) {
                    assert(ts.subrange(p, e) =~= seq![ts[p]]);
                }
            },
        }
    }
}

proof fn lemma_parse_object_tokens(ts: Seq<TokenView>, q: int, d: nat)
    requires
        1 <= q <= ts.len(),
        ts[q - 1] == TokenView::BraceOpen,
    ensures
        parse_object(ts, q, d) matches Ok((v, e)) ==> q < e <= ts.len() && ts.subrange(q - 1, e)
            == json_value_tokens(v),
    decreases ts.len() - q, 2nat,
{
    if q < ts.len() && ts[q] is BraceClose {
        let v = JsonValue::Object(Seq::empty());
        assert(member_token_parts(Seq::<(Seq<char>, JsonValue)>::empty(), 0) =~= Seq::<
            Seq<TokenView>,
        >::empty());
        assert(ts.subrange(q - 1, q + 1) =~= json_value_tokens(v));
    } else {
        lemma_parse_members_tokens(ts, q, d, Seq::empty());
        if let Ok((v, e)) = parse_object(ts, q, d) {
            let ms = v->Object_0;
            let n = ms.len() as int;
            let mt = member_token_parts(ms, n);
            lemma_member_token_parts_len(ms, n);
            lemma_join_tokens_from(mt, n);
            assert(ts.subrange(q - 1, e) =~= seq![TokenView::BraceOpen] + ts.subrange(q, e));
        }
    }
}

proof fn lemma_parse_members_tokens(
    ts: Seq<TokenView>,
    p: int,
    d: nat,
    acc: Seq<(Seq<char>, JsonValue)>,
)
    requires
        0 <= p,
    ensures
        parse_members(ts, p, d, acc) matches Ok((v, e)) ==> {
            &&& v is Object
            &&& v->Object_0.len() > acc.len()
            &&& v->Object_0.take(acc.len() as int) == acc
            &&& p < e <= ts.len()
            &&& ts.subrange(p, e) == join_from(
                member_token_parts(v->Object_0, v->Object_0.len() as int),
                acc.len() as int,
                v->Object_0.len() as int,
            ) + seq![TokenView::BraceClose]
        },
    decreases ts.len() - p, 1nat,
{
    if p < ts.len() {
        if let TokenView::StringVal(key) = ts[p] {
            if p + 1 < ts.len() && ts[p + 1] is Colon {
                lemma_parse_value_tokens(ts, p + 2, d);
                if let Ok((x, p3)) = parse_value(ts, p + 2, d) {
                    let acc2 = acc.push((key, x));
                    let part = seq![TokenView::StringVal(key), TokenView::Colon] + json_value_tokens(x);
                    assert(ts.subrange(p, p3) =~= seq![ts[p], ts[p + 1]] + ts.subrange(p + 2, p3));
                    if 0 <= p3 < ts.len() && ts[p3] is BraceClose {
                        let n = acc2.len() as int;
                        lemma_member_token_parts(acc2, n, n - 1);
                        assert(acc2.take(acc.len() as int) =~= acc);
                        assert(ts.subrange(p, p3 + 1) =~= ts.subrange(p, p3) + seq![ts[p3]]);
                    } else if 0 <= p3 < ts.len() && ts[p3] is Comma && p3 + 1 > p {
                        lemma_parse_members_tokens(ts, p3 + 1, d, acc2);
                        if let Ok((v, e)) = parse_members(ts, p3 + 1, d, acc2) {
                            let ms = v->Object_0;
                            let n = ms.len() as int;
                            let mt = member_token_parts(ms, n);
                            let i = acc.len() as int;
                            assert(ms[i] == ms.take(acc2.len() as int)[i]);
                            assert(ms[i] == (key, x));
                            lemma_member_token_parts(ms, n, i);
                            lemma_member_token_parts_len(ms, n);
                            assert(ms.take(i) =~= acc) by {
                                assert forall|j: int| 0 <= j < i implies ms.take(i)[j] == acc[j] by {
                                    assert(ms.take(i)[j] == ms.take(acc2.len() as int)[j]);
                                    assert(acc2[j] == acc[j]);
                                }
                            }
                            assert(join_from(mt, i, n) == mt[i] + seq![TokenView::Comma] + join_from(
                                mt,
                                i + 1,
                                n,
                            ));
                            assert(ts.subrange(p, e) =~= ts.subrange(p, p3) + seq![ts[p3]]
                                + ts.subrange(p3 + 1, e));
                        }
                    }
                }
            }
        }
    }
}

proof fn lemma_parse_array_tokens(ts: Seq<TokenView>, q: int, d: nat)
    requires
        1 <= q <= ts.len(),
        ts[q - 1] == TokenView::BracketOpen,
    ensures
        parse_array(ts, q, d) matches Ok((v, e)) ==> q < e <= ts.len() && ts.subrange(q - 1, e)
            == json_value_tokens(v),
    decreases ts.len() - q, 2nat,
{
    if q < ts.len() && ts[q] is BracketClose {
        let v = JsonValue::Array(Seq::empty());
        assert(item_token_parts(Seq::<JsonValue>::empty(), 0) =~= Seq::<Seq<TokenView>>::empty());
        assert(ts.subrange(q - 1, q + 1) =~= json_value_tokens(v));
    } else {
        lemma_parse_elements_tokens(ts, q, d, Seq::empty());
        if let Ok((v, e)) = parse_array(ts, q, d) {
            let es = v->Array_0;
            let n = es.len() as int;
            let it = item_token_parts(es, n);
            lemma_item_token_parts_len(es, n);
            lemma_join_tokens_from(it, n);
            assert(ts.subrange(q - 1, e) =~= seq![TokenView::BracketOpen] + ts.subrange(q, e));
        }
    }
}

proof fn lemma_parse_elements_tokens(ts: Seq<TokenView>, p: int, d: nat, acc: Seq<JsonValue>)
    requires
        0 <= p,
    ensures
        parse_elements(ts, p, d, acc) matches Ok((v, e)) ==> {
            &&& v is Array
            &&& v->Array_0.len() > acc.len()
            &&& v->Array_0.take(acc.len() as int) == acc
            &&& p < e <= ts.len()
            &&& ts.subrange(p, e) == join_from(
                item_token_parts(v->Array_0, v->Array_0.len() as int),
                acc.len() as int,
                v->Array_0.len() as int,
            ) + seq![TokenView::BracketClose]
        },
    decreases ts.len() - p, 1nat,
{
    lemma_parse_value_tokens(ts, p, d);
    if let Ok((x, p3)) = parse_value(ts, p, d) {
        let acc2 = acc.push(x);
        if 0 <= p3 < ts.len() && ts[p3] is BracketClose {
            let n = acc2.len() as int;
            lemma_item_token_parts(acc2, n, n - 1);
            assert(acc2.take(acc.len() as int) =~= acc);
            assert(ts.subrange(p, p3 + 1) =~= ts.subrange(p, p3) + seq![ts[p3]]);
        } else if 0 <= p3 < ts.len() && ts[p3] is Comma && p3 + 1 > p {
            lemma_parse_elements_tokens(ts, p3 + 1, d, acc2);
            if let Ok((v, e)) = parse_elements(ts, p3 + 1, d, acc2) {
                let es = v->Array_0;
                let n = es.len() as int;
                let it = item_token_parts(es, n);
                let i = acc.len() as int;
                assert(es[i] == es.take(acc2.len() as int)[i]);
                assert(es[i] == x);
                lemma_item_token_parts(es, n, i);
                lemma_item_token_parts_len(es, n);
                assert(es.take(i) =~= acc) by {
                    assert forall|j: int| 0 <= j < i implies es.take(i)[j] == acc[j] by {
                        assert(es.take(i)[j] == es.take(acc2.len() as int)[j]);
                        assert(acc2[j] == acc[j]);
                    }
                }
                assert(join_from(it, i, n) == it[i] + seq![TokenView::Comma] + join_from(it, i + 1, n));
                assert(ts.subrange(p, e) =~= ts.subrange(p, p3) + seq![ts[p3]] + ts.subrange(p3 + 1, e));
            }
        }
    }
}

/// The JSON reader reads a token sequence as the value `v` exactly when the
/// sequence is the tokens of `v` (see [`json_value_tokens`]) and `v` nests
/// within the reader's limit (see `json_depth`): the reader accepts one
/// value of the JSON grammar and nothing after it, and the value it returns
/// mirrors the tokens, members in order and duplicates kept.
pub proof fn lemma_parser_reads_value_tokens(ts: Seq<TokenView>, v: JsonValue)
    ensures
        (parse_document(ts, 0) == Ok::<JsonValue, Seq<char>>(v)) == (ts == json_value_tokens(v)
            && json_depth(v) <= MAX_DEPTH),
{
    lemma_parse_value_tokens(ts, 0, 0);
    lemma_parsed_depth(ts);
    if let Ok((x, e)) = parse_value(ts, 0, 0) {
        if e >= ts.len() {
            assert(ts.subrange(0, e) =~= ts);
        }
    }
    if ts == json_value_tokens(v) && json_depth(v) <= MAX_DEPTH {
        lemma_value_tokens_parse(v);
        reveal(parses_as);
        assert(ts.subrange(0, ts.len() as int) =~= ts);
        assert(tokens_at(ts, 0, json_value_tokens(v)));
        assert(parse_value(ts, 0, 0) == Ok::<(JsonValue, int), Seq<char>>((v, ts.len() as int)));
    }
}

} // verus!
