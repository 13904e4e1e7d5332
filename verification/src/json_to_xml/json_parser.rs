//! Building a JSON tree from tokens, by recursive descent.

use vstd::prelude::*;
use crate::json_to_xml::json_model::{
    JsonNode, JsonValue, MAX_DEPTH, Token, TokenView, elements_view,
    lemma_array_view, lemma_object_view, members_view, tokens_view,
};
use crate::text::{chars_to_string, push_str};

verus! {

// ---------------------------------------------------------------------------
// What parsing computes
// ---------------------------------------------------------------------------

/// The value starting at token `p`, nested `depth` deep, and the index of the
/// token after it.
pub open spec fn parse_value(ts: Seq<TokenView>, p: int, depth: nat) -> Result<
    (JsonValue, int),
    Seq<char>,
>
    decreases ts.len() - p, 0nat,
{
    if depth >= MAX_DEPTH {
        Err("Nesting depth limit exceeded"@)
    } else if p < 0 || p >= ts.len() {
        Err("Empty token stream"@)
    } else {
        match ts[p] {
            TokenView::BraceOpen => parse_object(ts, p + 1, depth + 1),
            TokenView::BracketOpen => parse_array(ts, p + 1, depth + 1),
            TokenView::StringVal(s) => Ok((JsonValue::StringVal(s), p + 1)),
            TokenView::Number(n) => Ok((JsonValue::Number(n), p + 1)),
            TokenView::BoolVal(b) => Ok((JsonValue::BoolVal(b), p + 1)),
            TokenView::Null => Ok((JsonValue::Null, p + 1)),
            _ => Err("Invalid start of JSON"@),
        }
    }
}

/// The object whose `{` precedes token `p`.
pub open spec fn parse_object(ts: Seq<TokenView>, p: int, depth: nat) -> Result<
    (JsonValue, int),
    Seq<char>,
>
    decreases ts.len() - p, 2nat,
{
    if 0 <= p < ts.len() && ts[p] is BraceClose {
        Ok((JsonValue::Object(Seq::empty()), p + 1))
    } else {
        parse_members(ts, p, depth, Seq::empty())
    }
}

/// The members of an object from token `p` on, after the members `acc`.
pub open spec fn parse_members(
    ts: Seq<TokenView>,
    p: int,
    depth: nat,
    acc: Seq<(Seq<char>, JsonValue)>,
) -> Result<(JsonValue, int), Seq<char>>
    decreases ts.len() - p, 1nat,
{
    if !(0 <= p < ts.len()) {
        Err("Expected string key in object"@)
    } else {
        match ts[p] {
            TokenView::StringVal(k) => if !(p + 1 < ts.len() && ts[p + 1] is Colon) {
                Err("Expected ':' after object key"@)
            } else {
                match parse_value(ts, p + 2, depth) {
                    Err(m) => Err(m),
                    Ok((v, p3)) => {
                        let acc2 = acc.push((k, v));
                        if 0 <= p3 < ts.len() && ts[p3] is BraceClose {
                            Ok((JsonValue::Object(acc2), p3 + 1))
                        } else if 0 <= p3 < ts.len() && ts[p3] is Comma && p3 + 1 > p {
                            parse_members(ts, p3 + 1, depth, acc2)
                        } else {
                            Err("Expected ',' or '}' in object"@)
                        }
                    },
                }
            },
            _ => Err("Expected string key in object"@),
        }
    }
}

/// The array whose `[` precedes token `p`.
pub open spec fn parse_array(ts: Seq<TokenView>, p: int, depth: nat) -> Result<
    (JsonValue, int),
    Seq<char>,
>
    decreases ts.len() - p, 2nat,
{
    if 0 <= p < ts.len() && ts[p] is BracketClose {
        Ok((JsonValue::Array(Seq::empty()), p + 1))
    } else {
        parse_elements(ts, p, depth, Seq::empty())
    }
}

/// The elements of an array from token `p` on, after the elements `acc`.
pub open spec fn parse_elements(ts: Seq<TokenView>, p: int, depth: nat, acc: Seq<JsonValue>) -> Result<
    (JsonValue, int),
    Seq<char>,
>
    decreases ts.len() - p, 1nat,
{
    match parse_value(ts, p, depth) {
        Err(m) => Err(m),
        Ok((v, p3)) => {
            let acc2 = acc.push(v);
            if 0 <= p3 < ts.len() && ts[p3] is BracketClose {
                Ok((JsonValue::Array(acc2), p3 + 1))
            } else if 0 <= p3 < ts.len() && ts[p3] is Comma && p3 + 1 > p {
                parse_elements(ts, p3 + 1, depth, acc2)
            } else {
                Err("Expected ',' or ']' in array"@)
            }
        },
    }
}

/// How an unexpected token after the top-level value is named.
pub open spec fn token_description(t: TokenView) -> Seq<char> {
    match t {
        TokenView::BraceOpen => "'{'"@,
        TokenView::BracketOpen => "'['"@,
        TokenView::StringVal(_) => "string"@,
        TokenView::Number(_) => "number"@,
        TokenView::BoolVal(_) => "boolean"@,
        TokenView::Null => "'null'"@,
        _ => "token"@,
    }
}

/// The document made of the tokens from `p` on: one value and nothing after it.
pub open spec fn parse_document(ts: Seq<TokenView>, p: int) -> Result<JsonValue, Seq<char>> {
    match parse_value(ts, p, 0) {
        Err(m) => Err(m),
        Ok((v, e)) => if 0 <= e < ts.len() {
            Err("Unexpected "@ + token_description(ts[e]) + " after top-level JSON value"@)
        } else {
            Ok(v)
        },
    }
}

// ---------------------------------------------------------------------------
// The parser
// ---------------------------------------------------------------------------

/// A recursive-descent parser over a token sequence.
pub struct Parser {
    tokens: Vec<Token>,
    pos: usize,
}

fn message(s: &str) -> (r: String)
    ensures
        r@ == s@,
{
    let mut m: Vec<char> = Vec::new();
    push_str(&mut m, s);
    chars_to_string(&m)
}

impl Parser {
    /// The tokens being parsed.
    pub closed spec fn tokens(self) -> Seq<TokenView> {
        tokens_view(self.tokens@)
    }

    /// The index of the next token.
    pub closed spec fn next_index(self) -> nat {
        self.pos as nat
    }

    /// A parser at the first of `tokens`.
    pub fn new(tokens: Vec<Token>) -> (r: Self)
        ensures
            r.tokens() == tokens_view(tokens@),
            r.next_index() == 0,
    {
        Parser { tokens, pos: 0 }
    }

    /// The JSON value made by the remaining tokens, which must hold exactly
    /// one value.
    pub fn parse(&mut self) -> (r: Result<JsonNode, String>)
        ensures
            final(self).tokens() == old(self).tokens(),
            match parse_document(old(self).tokens(), old(self).next_index() as int) {
                Ok(v) => r matches Ok(n) && n@ == v,
                Err(m) => r matches Err(e) && e@ == m,
            },
    {
        let (node, e) = match parse_value_at(&self.tokens, self.pos, 0) {
            Ok(x) => x,
            Err(m) => {
                return Err(m);
            },
        };
        self.pos = e;
        if e < self.tokens.len() {
            let mut m: Vec<char> = Vec::new();
            push_str(&mut m, "Unexpected ");
            match &self.tokens[e] {
                Token::BraceOpen => push_str(&mut m, "'{'"),
                Token::BracketOpen => push_str(&mut m, "'['"),
                Token::StringVal(_) => push_str(&mut m, "string"),
                Token::Number(_) => push_str(&mut m, "number"),
                Token::BoolVal(_) => push_str(&mut m, "boolean"),
                Token::Null => push_str(&mut m, "'null'"),
                _ => push_str(&mut m, "token"),
            }
            push_str(&mut m, " after top-level JSON value");
            return Err(chars_to_string(&m));
        }
        Ok(node)
    }
}

fn parse_value_at(tokens: &Vec<Token>, pos: usize, depth: usize) -> (r: Result<
    (JsonNode, usize),
    String,
>)
    requires
        depth <= MAX_DEPTH,
    ensures
        match parse_value(tokens_view(tokens@), pos as int, depth as nat) {
            Ok((v, e)) => r matches Ok((n, e2)) && n@ == v && e2 == e && pos < e <= tokens@.len(),
            Err(m) => r matches Err(msg) && msg@ == m,
        },
    decreases tokens@.len() - pos, 0nat,
{
    let ghost ts = tokens_view(tokens@);
    if depth >= MAX_DEPTH {
        return Err(message("Nesting depth limit exceeded"));
    }
    if pos >= tokens.len() {
        return Err(message("Empty token stream"));
    }
    assert(ts[pos as int] == tokens@[pos as int]@);
    match &tokens[pos] {
        Token::BraceOpen => parse_object_at(tokens, pos + 1, depth + 1),
        Token::BracketOpen => parse_array_at(tokens, pos + 1, depth + 1),
        Token::StringVal(s) => Ok((JsonNode::StringVal(s.clone()), pos + 1)),
        Token::Number(n) => Ok((JsonNode::Number(n.clone()), pos + 1)),
        Token::BoolVal(b) => Ok((JsonNode::BoolVal(*b), pos + 1)),
        Token::Null => Ok((JsonNode::Null, pos + 1)),
        _ => Err(message("Invalid start of JSON")),
    }
}

fn parse_object_at(tokens: &Vec<Token>, pos: usize, depth: usize) -> (r: Result<
    (JsonNode, usize),
    String,
>)
    requires
        depth <= MAX_DEPTH,
        pos <= tokens@.len(),
    ensures
        match parse_object(tokens_view(tokens@), pos as int, depth as nat) {
            Ok((v, e)) => r matches Ok((n, e2)) && n@ == v && e2 == e && pos < e <= tokens@.len(),
            Err(m) => r matches Err(msg) && msg@ == m,
        },
    decreases tokens@.len() - pos, 2nat,
{
    let ghost ts = tokens_view(tokens@);
    let mut pairs: Vec<(String, JsonNode)> = Vec::new();
    if pos < tokens.len() {
        assert(ts[pos as int] == tokens@[pos as int]@);
        if let Token::BraceClose = &tokens[pos] {
            proof {
                lemma_object_view(pairs);
                assert(members_view(pairs@) =~= Seq::empty());
            }
            return Ok((JsonNode::Object(pairs), pos + 1));
        }
    }
    let mut p = pos;
    assert(members_view(pairs@) =~= Seq::empty());
    loop
        invariant
            depth <= MAX_DEPTH,
            pos <= p <= tokens@.len(),
            ts == tokens_view(tokens@),
            !(0 <= pos < ts.len() && ts[pos as int] is BraceClose),
            parse_members(ts, p as int, depth as nat, members_view(pairs@)) == parse_object(
                ts,
                pos as int,
                depth as nat,
            ),
        decreases tokens@.len() - p,
    {
        let ghost acc = members_view(pairs@);
        if p >= tokens.len() {
            return Err(message("Expected string key in object"));
        }
        assert(ts[p as int] == tokens@[p as int]@);
        let key = match &tokens[p] {
            Token::StringVal(s) => s.clone(),
            _ => {
                return Err(message("Expected string key in object"));
            },
        };
        if p + 1 >= tokens.len() {
            return Err(message("Expected ':' after object key"));
        }
        assert(ts[p + 1] == tokens@[p + 1]@);
        match &tokens[p + 1] {
            Token::Colon => {},
            _ => {
                return Err(message("Expected ':' after object key"));
            },
        }
        let (value, p3) = match parse_value_at(tokens, p + 2, depth) {
            Ok(x) => x,
            Err(m) => {
                return Err(m);
            },
        };
        let ghost kv = key@;
        let ghost vv = value@;
        pairs.push((key, value));
        assert(members_view(pairs@) =~= acc.push((kv, vv)));
        if p3 < tokens.len() {
            assert(ts[p3 as int] == tokens@[p3 as int]@);
            match &tokens[p3] {
                Token::BraceClose => {
                    proof {
                        lemma_object_view(pairs);
                    }
                    return Ok((JsonNode::Object(pairs), p3 + 1));
                },
                Token::Comma => {
                    p = p3 + 1;
                },
                _ => {
                    return Err(message("Expected ',' or '}' in object"));
                },
            }
        } else {
            return Err(message("Expected ',' or '}' in object"));
        }
    }
}

fn parse_array_at(tokens: &Vec<Token>, pos: usize, depth: usize) -> (r: Result<
    (JsonNode, usize),
    String,
>)
    requires
        depth <= MAX_DEPTH,
        pos <= tokens@.len(),
    ensures
        match parse_array(tokens_view(tokens@), pos as int, depth as nat) {
            Ok((v, e)) => r matches Ok((n, e2)) && n@ == v && e2 == e && pos < e <= tokens@.len(),
            Err(m) => r matches Err(msg) && msg@ == m,
        },
    decreases tokens@.len() - pos, 2nat,
{
    let ghost ts = tokens_view(tokens@);
    let mut elements: Vec<JsonNode> = Vec::new();
    if pos < tokens.len() {
        assert(ts[pos as int] == tokens@[pos as int]@);
        if let Token::BracketClose = &tokens[pos] {
            proof {
                lemma_array_view(elements);
                assert(elements_view(elements@) =~= Seq::empty());
            }
            return Ok((JsonNode::Array(elements), pos + 1));
        }
    }
    let mut p = pos;
    assert(elements_view(elements@) =~= Seq::empty());
    loop
        invariant
            depth <= MAX_DEPTH,
            pos <= p <= tokens@.len(),
            ts == tokens_view(tokens@),
            !(0 <= pos < ts.len() && ts[pos as int] is BracketClose),
            parse_elements(ts, p as int, depth as nat, elements_view(elements@)) == parse_array(
                ts,
                pos as int,
                depth as nat,
            ),
        decreases tokens@.len() - p,
    {
        let ghost acc = elements_view(elements@);
        let (value, p3) = match parse_value_at(tokens, p, depth) {
            Ok(x) => x,
            Err(m) => {
                return Err(m);
            },
        };
        let ghost vv = value@;
        elements.push(value);
        assert(elements_view(elements@) =~= acc.push(vv));
        if p3 < tokens.len() {
            assert(ts[p3 as int] == tokens@[p3 as int]@);
            match &tokens[p3] {
                Token::BracketClose => {
                    proof {
                        lemma_array_view(elements);
                    }
                    return Ok((JsonNode::Array(elements), p3 + 1));
                },
                Token::Comma => {
                    p = p3 + 1;
                },
                _ => {
                    return Err(message("Expected ',' or ']' in array"));
                },
            }
        } else {
            return Err(message("Expected ',' or ']' in array"));
        }
    }
}

} // verus!
