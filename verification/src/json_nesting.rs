//! How deep a JSON value nests, as the JSON reader counts it and as the XML
//! writer counts it, and what follows: every value the reader returns can be
//! written as XML.

use vstd::prelude::*;
use crate::json_readback::{items_depth, json_depth, members_depth};
use crate::json_to_xml::{json_to_xml, xml_document_of};
use crate::json_to_xml::json_lexer::json_tokens;
use crate::json_to_xml::json_model::{JsonValue, MAX_DEPTH, TokenView, elements_xml, members_xml, xml_of};
use crate::json_to_xml::json_parser::{
    parse_array, parse_document, parse_elements, parse_members, parse_object, parse_value,
};

verus! {

// ---------------------------------------------------------------------------
// Nesting as the XML writer counts it
// ---------------------------------------------------------------------------

/// How many element levels the XML for `v` takes: one for `v`, and below an
/// object the deepest member, where a member whose value is an array counts
/// as its deepest item (its items stand directly in the object's element).
pub open spec fn xml_depth(v: JsonValue) -> nat
    decreases v, 0nat,
{
    match v {
        JsonValue::Object(ps) => 1 + members_xml_depth(ps, ps.len() as int),
        JsonValue::Array(es) => 1 + items_xml_depth(es, es.len() as int),
        _ => 1,
    }
}

/// The deepest of the first `n` members of an object, as the XML writer
/// counts them (see [`xml_depth`]).
pub open spec fn members_xml_depth(ps: Seq<(Seq<char>, JsonValue)>, n: int) -> nat
    decreases ps, n,
{
    if n <= 0 || n > ps.len() {
        0
    } else {
        let a = members_xml_depth(ps, n - 1);
        let b = match ps[n - 1].1 {
            JsonValue::Array(es) => items_xml_depth(es, es.len() as int),
            _ => xml_depth(ps[n - 1].1),
        };
        if a >= b {
            a
        } else {
            b
        }
    }
}

/// The deepest of the first `n` items, as the XML writer counts them.
pub open spec fn items_xml_depth(es: Seq<JsonValue>, n: int) -> nat
    decreases es, n,
{
    if n <= 0 || n > es.len() {
        0
    } else {
        let a = items_xml_depth(es, n - 1);
        let b = xml_depth(es[n - 1]);
        if a >= b {
            a
        } else {
            b
        }
    }
}

/// Writing `v` as XML at level `depth` fails exactly when its element
/// levels (see [`xml_depth`]) reach past the nesting limit: `to_xml` and
/// `to_pretty_xml` give "Nesting depth limit exceeded" exactly for the
/// values with `xml_depth(v) > MAX_DEPTH`, whatever the label and layout.
pub proof fn lemma_xml_of_limit(v: JsonValue, label: Seq<char>, depth: nat, indent: Option<nat>)
    ensures
        (xml_of(v, label, depth, indent) is Some) == (depth + xml_depth(v) <= MAX_DEPTH),
    decreases v, 0nat,
{
    if depth < MAX_DEPTH {
        match v {
            JsonValue::Object(ps) => {
                lemma_members_xml_limit(ps, ps.len() as int, depth, indent);
            },
            JsonValue::Array(es) => {
                lemma_elements_xml_limit(es, es.len() as int, "item"@, depth, indent);
            },
            _ => {},
        }
    }
}

proof fn lemma_members_xml_limit(
    ps: Seq<(Seq<char>, JsonValue)>,
    n: int,
    depth: nat,
    indent: Option<nat>,
)
    requires
        depth < MAX_DEPTH,
    ensures
        (members_xml(ps, n, depth, indent) is Some) == (depth + 1 + members_xml_depth(ps, n)
            <= MAX_DEPTH),
    decreases ps, n,
{
    if 0 < n <= ps.len() {
        lemma_members_xml_limit(ps, n - 1, depth, indent);
        let tag = crate::json_to_xml::json_model::member_tag(ps, n - 1);
        match ps[n - 1].1 {
            JsonValue::Array(es) => {
                lemma_elements_xml_limit(es, es.len() as int, tag, depth, indent);
            },
            _ => {
                lemma_xml_of_limit(ps[n - 1].1, tag, depth + 1, indent);
            },
        }
    }
}

proof fn lemma_elements_xml_limit(
    es: Seq<JsonValue>,
    n: int,
    tag: Seq<char>,
    depth: nat,
    indent: Option<nat>,
)
    requires
        depth < MAX_DEPTH,
    ensures
        (elements_xml(es, n, tag, depth, indent) is Some) == (depth + 1 + items_xml_depth(es, n)
            <= MAX_DEPTH),
    decreases es, n,
{
    if 0 < n <= es.len() {
        lemma_elements_xml_limit(es, n - 1, tag, depth, indent);
        lemma_xml_of_limit(es[n - 1], tag, depth + 1, indent);
    }
}

// ---------------------------------------------------------------------------
// The XML writer's count never exceeds the reader's
// ---------------------------------------------------------------------------

/// The XML for a value takes no more levels than the JSON reader nests to
/// read it (see [`json_depth`]).
pub proof fn lemma_xml_depth_within(v: JsonValue)
    ensures
        xml_depth(v) <= json_depth(v),
    decreases v, 0nat,
{
    match v {
        JsonValue::Object(ps) => {
            lemma_members_xml_depth_within(ps, ps.len() as int);
        },
        JsonValue::Array(es) => {
            lemma_items_xml_depth_within(es, es.len() as int);
        },
        _ => {},
    }
}

proof fn lemma_members_xml_depth_within(ps: Seq<(Seq<char>, JsonValue)>, n: int)
    ensures
        members_xml_depth(ps, n) <= members_depth(ps, n),
    decreases ps, n,
{
    if 0 < n <= ps.len() {
        lemma_members_xml_depth_within(ps, n - 1);
        match ps[n - 1].1 {
            JsonValue::Array(es) => {
                lemma_items_xml_depth_within(es, es.len() as int);
                assert(json_depth(ps[n - 1].1) == 1 + items_depth(es, es.len() as int));
            },
            _ => {
                lemma_xml_depth_within(ps[n - 1].1);
            },
        }
    }
}

proof fn lemma_items_xml_depth_within(es: Seq<JsonValue>, n: int)
    ensures
        items_xml_depth(es, n) <= items_depth(es, n),
    decreases es, n,
{
    if 0 < n <= es.len() {
        lemma_items_xml_depth_within(es, n - 1);
        lemma_xml_depth_within(es[n - 1]);
    }
}

// ---------------------------------------------------------------------------
// What the reader returns fits in the limit
// ---------------------------------------------------------------------------

proof fn lemma_members_depth_bound(ms: Seq<(Seq<char>, JsonValue)>, n: int, b: nat)
    requires
        forall|k: int| 0 <= k < n && k < ms.len() ==> json_depth(#[trigger] ms[k].1) <= b,
    ensures
        members_depth(ms, n) <= b,
    decreases n,
{
    if 0 < n <= ms.len() {
        lemma_members_depth_bound(ms, n - 1, b);
    }
}

proof fn lemma_items_depth_bound(es: Seq<JsonValue>, n: int, b: nat)
    requires
        forall|k: int| 0 <= k < n && k < es.len() ==> json_depth(#[trigger] es[k]) <= b,
    ensures
        items_depth(es, n) <= b,
    decreases n,
{
    if 0 < n <= es.len() {
        lemma_items_depth_bound(es, n - 1, b);
    }
}

proof fn lemma_parse_value_depth(ts: Seq<TokenView>, p: int, depth: nat)
    ensures
        parse_value(ts, p, depth) matches Ok((v, _)) ==> depth + json_depth(v) <= MAX_DEPTH,
    decreases ts.len() - p, 0nat,
{
    if depth < MAX_DEPTH && 0 <= p < ts.len() {
        match ts[p] {
            TokenView::BraceOpen => {
                lemma_parse_object_depth(ts, p + 1, depth + 1);
                if let Ok((v, _)) = parse_object(ts, p + 1, depth + 1) {
                    let ms = v->Object_0;
                    lemma_members_depth_bound(ms, ms.len() as int, (MAX_DEPTH - depth - 1) as nat);
                }
            },
            TokenView::BracketOpen => {
                lemma_parse_array_depth(ts, p + 1, depth + 1);
                if let Ok((v, _)) = parse_array(ts, p + 1, depth + 1) {
                    let es = v->Array_0;
                    lemma_items_depth_bound(es, es.len() as int, (MAX_DEPTH - depth - 1) as nat);
                }
            },
            _ => {},
        }
    }
}

proof fn lemma_parse_object_depth(ts: Seq<TokenView>, p: int, depth: nat)
    requires
        depth <= MAX_DEPTH,
    ensures
        parse_object(ts, p, depth) matches Ok((v, _)) ==> v is Object && forall|k: int|
            0 <= k < v->Object_0.len() ==> depth + json_depth(#[trigger] v->Object_0[k].1)
                <= MAX_DEPTH,
    decreases ts.len() - p, 2nat,
{
    if !(0 <= p < ts.len() && ts[p] is BraceClose) {
        lemma_parse_members_depth(ts, p, depth, Seq::empty());
    }
}

proof fn lemma_parse_members_depth(
    ts: Seq<TokenView>,
    p: int,
    depth: nat,
    acc: Seq<(Seq<char>, JsonValue)>,
)
    requires
        forall|k: int| 0 <= k < acc.len() ==> depth + json_depth(#[trigger] acc[k].1) <= MAX_DEPTH,
    ensures
        parse_members(ts, p, depth, acc) matches Ok((v, _)) ==> v is Object && forall|k: int|
            0 <= k < v->Object_0.len() ==> depth + json_depth(#[trigger] v->Object_0[k].1)
                <= MAX_DEPTH,
    decreases ts.len() - p, 1nat,
{
    if 0 <= p < ts.len() {
        if let TokenView::StringVal(key) = ts[p] {
            if p + 1 < ts.len() && ts[p + 1] is Colon {
                lemma_parse_value_depth(ts, p + 2, depth);
                if let Ok((v, p3)) = parse_value(ts, p + 2, depth) {
                    let acc2 = acc.push((key, v));
                    assert forall|j: int| 0 <= j < acc2.len() implies depth + json_depth(
                        #[trigger] acc2[j].1,
                    ) <= MAX_DEPTH by {
                        if j < acc.len() {
                            assert(acc2[j] == acc[j]);
                        }
                    }
                    if !(0 <= p3 < ts.len() && ts[p3] is BraceClose) && 0 <= p3 < ts.len()
                        && ts[p3] is Comma && p3 + 1 > p {
                        lemma_parse_members_depth(ts, p3 + 1, depth, acc2);
                    }
                }
            }
        }
    }
}

proof fn lemma_parse_array_depth(ts: Seq<TokenView>, p: int, depth: nat)
    requires
        depth <= MAX_DEPTH,
    ensures
        parse_array(ts, p, depth) matches Ok((v, _)) ==> v is Array && forall|k: int|
            0 <= k < v->Array_0.len() ==> depth + json_depth(#[trigger] v->Array_0[k])
                <= MAX_DEPTH,
    decreases ts.len() - p, 2nat,
{
    if !(0 <= p < ts.len() && ts[p] is BracketClose) {
        lemma_parse_elements_depth(ts, p, depth, Seq::empty());
    }
}

proof fn lemma_parse_elements_depth(ts: Seq<TokenView>, p: int, depth: nat, acc: Seq<JsonValue>)
    requires
        forall|k: int| 0 <= k < acc.len() ==> depth + json_depth(#[trigger] acc[k]) <= MAX_DEPTH,
    ensures
        parse_elements(ts, p, depth, acc) matches Ok((v, _)) ==> v is Array && forall|k: int|
            0 <= k < v->Array_0.len() ==> depth + json_depth(#[trigger] v->Array_0[k])
                <= MAX_DEPTH,
    decreases ts.len() - p, 1nat,
{
    lemma_parse_value_depth(ts, p, depth);
    if let Ok((v, p3)) = parse_value(ts, p, depth) {
        let acc2 = acc.push(v);
        assert forall|j: int| 0 <= j < acc2.len() implies depth + json_depth(#[trigger] acc2[j])
            <= MAX_DEPTH by {
            if j < acc.len() {
                assert(acc2[j] == acc[j]);
            }
        }
        if !(0 <= p3 < ts.len() && ts[p3] is BracketClose) && 0 <= p3 < ts.len() && ts[p3] is Comma
            && p3 + 1 > p {
            lemma_parse_elements_depth(ts, p3 + 1, depth, acc2);
        }
    }
}

/// The JSON reader returns only values that nest within its limit: the
/// value of every document it reads has `json_depth` at most `MAX_DEPTH`.
pub proof fn lemma_parsed_depth(ts: Seq<TokenView>)
    ensures
        parse_document(ts, 0) matches Ok(v) ==> json_depth(v) <= MAX_DEPTH,
{
    lemma_parse_value_depth(ts, 0, 0);
}

/// The JSON to XML conversion fails only where reading the JSON fails:
/// every document the reader accepts is written as XML, compact or
/// indented, and never hits the writer's nesting limit.
pub proof fn lemma_read_json_converts(s: Seq<char>, pretty: bool)
    ensures
        (json_to_xml(s, pretty) is Ok) == (json_tokens(s) is Ok && parse_document(
            json_tokens(s)->Ok_0,
            0,
        ) is Ok),
{
    if let Ok(ts) = json_tokens(s) {
        if let Ok(v) = parse_document(ts, 0) {
            lemma_parsed_depth(ts);
            lemma_xml_depth_within(v);
            lemma_xml_of_limit(v, "root"@, 0, if pretty { Some(4nat) } else { None });
            assert(xml_document_of(v, pretty) is Ok);
        }
    }
}

} // verus!
