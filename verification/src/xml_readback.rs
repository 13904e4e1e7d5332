//! The XML text that the JSON to XML conversion writes is read back by the
//! XML lexer and parser of the XML to JSON conversion.

use vstd::prelude::*;
use crate::json_readback::{json_root, lemma_document_numbers, occurs_at, plain_numbers, xml_root};
use crate::json_to_xml::json_model::{
    JsonValue, elements_xml, escape_xml, lemma_escaped_text_is_safe, member_tag, members_xml,
    sanitize_tag, tag_char_ok, xml_break, xml_of, xml_pad,
};
use crate::json_to_xml::xml_declaration;
use crate::round_trip::lemma_xml_text_round_trip;
use crate::text::{
    all_white_space, decimal, digit_char, find_char, find_from, is_white_space, lemma_find_char,
    lemma_find_from_bounds, lemma_skip_white_space, matches_at, skip_white_space, trim_end_index,
    trim_white_space,
};
use crate::xml_to_json::xml_lexer::{
    attr_name_end, close_tag_step, decode_entities, decode_from, lex_xml_from, name_end,
    next_event, open_tag_step, xml_step, xml_tokens, LexStep,
};
use crate::xml_to_json::xml_model::{TokenView, XmlValue};
use crate::xml_to_json::xml_parser::{add_child, build_from, close_element, element_name, xml_document};
use crate::xml_to_json::{json_document, strip_bom, xml_to_json};

verus! {

// ---------------------------------------------------------------------------
// Reading a piece of XML text wherever it stands
// ---------------------------------------------------------------------------

/// Index `e` of `t` is the end of the text or a `<`.
pub open spec fn tag_follows(t: Seq<char>, e: int) -> bool {
    e == t.len() || (0 <= e < t.len() && t[e] == '<')
}

/// The tokens of `t` from index `p` on, outside a tag, after `acc`.
#[verifier::opaque]
pub open spec fn lex_outside(t: Seq<char>, p: int, acc: Seq<TokenView>) -> Result<
    Seq<TokenView>,
    Seq<char>,
> {
    lex_xml_from(t, p, false, acc)
}

/// Wherever `w` stands outside a tag, the XML lexer reads it as the tokens
/// `ts` and goes on right after it, outside a tag.
#[verifier::opaque]
pub open spec fn xml_lexes_as(w: Seq<char>, ts: Seq<TokenView>) -> bool {
    forall|t: Seq<char>, p: int, acc: Seq<TokenView>|
        occurs_at(t, p, w) ==> #[trigger] lex_outside(t, p, acc) == lex_outside(t, p + w.len(), acc + ts)
}

/// Wherever the text `w` stands outside a tag, followed by `<` or by the end
/// of the text, the XML lexer reads it as the tokens `ts` and goes on right
/// after it, outside a tag.
#[verifier::opaque]
pub open spec fn xml_text_lexes_as(w: Seq<char>, ts: Seq<TokenView>) -> bool {
    forall|t: Seq<char>, p: int, acc: Seq<TokenView>|
        occurs_at(t, p, w) && tag_follows(t, p + w.len()) ==> #[trigger] lex_outside(t, p, acc)
            == lex_outside(t, p + w.len(), acc + ts)
}

proof fn lemma_name_end_bound(s: Seq<char>, i: int)
    ensures
        name_end(s, i) >= i,
    decreases s.len() - i,
{
    if 0 <= i < s.len() {
        lemma_name_end_bound(s, i + 1);
    }
}

proof fn lemma_attr_name_end_bound(s: Seq<char>, i: int)
    ensures
        attr_name_end(s, i) >= i,
    decreases s.len() - i,
{
    if 0 <= i < s.len() {
        lemma_attr_name_end_bound(s, i + 1);
    }
}

/// A token that a step emits ends after the step starts.
proof fn lemma_step_advances(s: Seq<char>, cur: int, in_tag: bool)
    requires
        0 <= cur < s.len(),
    ensures
        xml_step(s, cur, in_tag) matches LexStep::Emit(_, c2, _) ==> c2 > cur,
{
    reveal_strlit("/>");
    reveal_strlit("</");
    reveal_strlit("?>");
    reveal_strlit("]]>");
    lemma_skip_white_space(s, cur);
    let k = skip_white_space(s, cur);
    if in_tag {
        lemma_attr_name_end_bound(s, k);
        let ne = attr_name_end(s, k);
        if 0 <= ne <= s.len() {
            lemma_skip_white_space(s, ne);
            let p1 = skip_white_space(s, ne);
            if p1 < s.len() {
                lemma_skip_white_space(s, p1 + 1);
                let p2 = skip_white_space(s, p1 + 1);
                if p2 < s.len() {
                    lemma_find_char(s, p2 + 1, s[p2]);
                }
            }
        }
    } else {
        lemma_find_char(s, cur, '>');
        lemma_find_from_bounds(s, cur, "?>"@);
        lemma_find_from_bounds(s, cur, "]]>"@);
        lemma_name_end_bound(s, cur + 1);
        lemma_find_char(s, cur, '<');
        if s[cur] != '<' {
            assert(find_char(s, cur, '<') != Some(cur));
        }
    }
}

/// The next token that is read ends after the place reading starts.
proof fn lemma_event_advances(s: Seq<char>, cur: int, in_tag: bool)
    requires
        0 <= cur,
    ensures
        next_event(s, cur, in_tag) matches LexStep::Emit(_, c2, _) ==> c2 > cur,
    decreases s.len() - cur,
{
    if cur < s.len() {
        lemma_step_advances(s, cur, in_tag);
        match xml_step(s, cur, in_tag) {
            LexStep::Skip(c2, t2) => {
                if cur < c2 <= s.len() {
                    lemma_event_advances(s, c2, t2);
                }
            },
            _ => {},
        }
    }
}

/// Reading from two places whose next event is the same gives the same.
proof fn lemma_same_event(t: Seq<char>, c1: int, i1: bool, c2: int, i2: bool, acc: Seq<TokenView>)
    requires
        0 <= c1 <= c2,
        next_event(t, c1, i1) == next_event(t, c2, i2),
    ensures
        lex_xml_from(t, c1, i1, acc) == lex_xml_from(t, c2, i2, acc),
{
    lemma_event_advances(t, c2, i2);
}

/// A character that may not stand in a tag name as the XML reader and the
/// XML check read it.
pub open spec fn bad_tag_char(c: char) -> bool {
    is_white_space(c) || c == '>' || c == '/' || c == '?' || c == '!' || c == '"' || c == '\''
}

/// A tag name that the XML reader reads back as it is.
pub open spec fn clean_tag(tag: Seq<char>) -> bool {
    &&& tag.len() > 0
    &&& forall|i: int| 0 <= i < tag.len() ==> !bad_tag_char(#[trigger] tag[i])
}

pub(crate) proof fn lemma_occurs_index(t: Seq<char>, p: int, w: Seq<char>, k: int)
    requires
        occurs_at(t, p, w),
        0 <= k < w.len(),
    ensures
        t[p + k] == w[k],
{
    assert(t[p + k] == t.subrange(p, p + w.len())[k]);
}

proof fn lemma_name_end_at(t: Seq<char>, i: int, j: int)
    requires
        0 <= i <= j < t.len(),
        forall|k: int| i <= k < j ==> !(is_white_space(#[trigger] t[k]) || t[k] == '>' || t[k] == '/'),
        is_white_space(t[j]) || t[j] == '>' || t[j] == '/',
    ensures
        name_end(t, i) == j,
    decreases j - i,
{
    if i < j {
        lemma_name_end_at(t, i + 1, j);
    }
}

pub(crate) proof fn lemma_find_char_at(s: Seq<char>, i: int, j: int, c: char)
    requires
        0 <= i <= j < s.len(),
        s[j] == c,
        forall|k: int| i <= k < j ==> #[trigger] s[k] != c,
    ensures
        find_char(s, i, c) == Some(j),
{
    lemma_find_char(s, i, c);
    if let Some(j2) = find_char(s, i, c) {
        if j2 > j {
            assert(s[j] != c);
        }
    }
}

pub(crate) proof fn lemma_trim_clean(tag: Seq<char>)
    requires
        clean_tag(tag),
    ensures
        trim_white_space(tag) == tag,
{
    assert(!bad_tag_char(tag[0]));
    assert(!bad_tag_char(tag[tag.len() - 1]));
    assert(skip_white_space(tag, 0) == 0);
    assert(trim_end_index(tag, tag.len() as int, 0) == tag.len());
    assert(tag.subrange(0, tag.len() as int) =~= tag);
}

/// At a `<` followed by a character that starts no special markup, the step
/// reads an opening tag.
proof fn lemma_plain_open_step(t: Seq<char>, p: int)
    requires
        0 <= p,
        p + 1 < t.len(),
        t[p] == '<',
        !(t[p + 1] == '/' || t[p + 1] == '?' || t[p + 1] == '!'),
    ensures
        xml_step(t, p, false) == open_tag_step(t, p),
{
    reveal_strlit("</");
    reveal_strlit("<?");
    reveal_strlit("<!--");
    reveal_strlit("<![CDATA[");
    reveal_strlit("<!");
    assert(!matches_at(t, p, "</"@)) by {
        if matches_at(t, p, "</"@) {
            assert(t.subrange(p, p + 2)[1] == t[p + 1]);
        }
    }
    assert(!matches_at(t, p, "<?"@)) by {
        if matches_at(t, p, "<?"@) {
            assert(t.subrange(p, p + 2)[1] == t[p + 1]);
        }
    }
    assert(!matches_at(t, p, "<!--"@)) by {
        if matches_at(t, p, "<!--"@) {
            assert(t.subrange(p, p + 4)[1] == t[p + 1]);
        }
    }
    assert(!matches_at(t, p, "<![CDATA["@)) by {
        if matches_at(t, p, "<![CDATA["@) {
            assert(t.subrange(p, p + 9)[1] == t[p + 1]);
        }
    }
    assert(!matches_at(t, p, "<!"@)) by {
        if matches_at(t, p, "<!"@) {
            assert(t.subrange(p, p + 2)[1] == t[p + 1]);
        }
    }
}

/// An opening tag `<tag>` is read as its token.
#[verifier::spinoff_prover]
#[verifier::rlimit(40)]
proof fn lemma_open_tag_lexes(tag: Seq<char>)
    requires
        clean_tag(tag),
    ensures
        xml_lexes_as(seq!['<'] + tag + seq!['>'], seq![TokenView::TagOpen(tag)]),
{
    reveal(xml_lexes_as);
    reveal(lex_outside);
    let w = seq!['<'] + tag + seq!['>'];
    assert forall|t: Seq<char>, p: int, acc: Seq<TokenView>|
        occurs_at(t, p, w) implies #[trigger] lex_outside(t, p, acc)
        == lex_outside(t, p + w.len(), acc + seq![TokenView::TagOpen(tag)]) by {
        let e = p + 1 + tag.len();
        lemma_occurs_index(t, p, w, 0);
        lemma_occurs_index(t, p, w, 1);
        lemma_occurs_index(t, p, w, tag.len() as int + 1);
        assert(!bad_tag_char(tag[0]));
        lemma_plain_open_step(t, p);
        assert forall|k: int| p + 1 <= k < e implies !(is_white_space(#[trigger] t[k]) || t[k] == '>'
            || t[k] == '/') by {
            lemma_occurs_index(t, p, w, k - p);
            assert(!bad_tag_char(tag[k - p - 1]));
        }
        lemma_name_end_at(t, p + 1, e);
        assert(t.subrange(p + 1, e) =~= tag) by {
            assert forall|k: int| 0 <= k < tag.len() implies t.subrange(p + 1, e)[k] == tag[k] by {
                lemma_occurs_index(t, p, w, k + 1);
            }
        }
        assert(xml_step(t, p, false) == LexStep::Emit(TokenView::TagOpen(tag), e, true));
        let acc2 = acc.push(TokenView::TagOpen(tag));
        reveal_strlit("/>");
        assert(!is_white_space('>'));
        assert(skip_white_space(t, e) == e);
        assert(!matches_at(t, e, "/>"@)) by {
            if matches_at(t, e, "/>"@) {
                assert(t.subrange(e, e + 2)[0] == t[e]);
            }
        }
        assert(xml_step(t, e, true) == LexStep::Skip(e + 1, false));
        lemma_same_event(t, e, true, e + 1, false, acc2);
        assert(acc2 =~= acc + seq![TokenView::TagOpen(tag)]);
    }
}

/// A closing tag `</tag>` is read as its token.
#[verifier::spinoff_prover]
#[verifier::rlimit(40)]
proof fn lemma_close_tag_lexes(tag: Seq<char>)
    requires
        clean_tag(tag),
    ensures
        xml_lexes_as(seq!['<', '/'] + tag + seq!['>'], seq![TokenView::TagClose(tag)]),
{
    reveal(xml_lexes_as);
    reveal(lex_outside);
    let w = seq!['<', '/'] + tag + seq!['>'];
    assert forall|t: Seq<char>, p: int, acc: Seq<TokenView>|
        occurs_at(t, p, w) implies #[trigger] lex_outside(t, p, acc)
        == lex_outside(t, p + w.len(), acc + seq![TokenView::TagClose(tag)]) by {
        let e = p + 2 + tag.len();
        lemma_occurs_index(t, p, w, 0);
        lemma_occurs_index(t, p, w, 1);
        lemma_occurs_index(t, p, w, tag.len() as int + 2);
        reveal_strlit("</");
        assert(t.subrange(p, p + 2) =~= "</"@);
        assert(matches_at(t, p, "</"@));
        assert forall|k: int| p <= k < e implies #[trigger] t[k] != '>' by {
            lemma_occurs_index(t, p, w, k - p);
            if k >= p + 2 {
                assert(!bad_tag_char(tag[k - p - 2]));
            }
        }
        lemma_find_char_at(t, p, e, '>');
        assert(t.subrange(p + 2, e) =~= tag) by {
            assert forall|k: int| 0 <= k < tag.len() implies t.subrange(p + 2, e)[k] == tag[k] by {
                lemma_occurs_index(t, p, w, k + 2);
            }
        }
        lemma_trim_clean(tag);
        assert(close_tag_step(t, p) == LexStep::Emit(TokenView::TagClose(tag), e + 1, false));
        assert(xml_step(t, p, false) == LexStep::Emit(TokenView::TagClose(tag), e + 1, false));
        assert(acc.push(TokenView::TagClose(tag)) =~= acc + seq![TokenView::TagClose(tag)]);
    }
}

/// An empty element `<tag />` is read as its opening and self-closing tokens.
#[verifier::spinoff_prover]
#[verifier::rlimit(40)]
proof fn lemma_empty_tag_lexes(tag: Seq<char>)
    requires
        clean_tag(tag),
    ensures
        xml_lexes_as(
            seq!['<'] + tag + seq![' ', '/', '>'],
            seq![TokenView::TagOpen(tag), TokenView::TagSelfClose],
        ),
{
    reveal(xml_lexes_as);
    reveal(lex_outside);
    let w = seq!['<'] + tag + seq![' ', '/', '>'];
    let ts = seq![TokenView::TagOpen(tag), TokenView::TagSelfClose];
    assert forall|t: Seq<char>, p: int, acc: Seq<TokenView>|
        occurs_at(t, p, w) implies #[trigger] lex_outside(t, p, acc)
        == lex_outside(t, p + w.len(), acc + ts) by {
        let e = p + 1 + tag.len();
        lemma_occurs_index(t, p, w, 0);
        lemma_occurs_index(t, p, w, 1);
        lemma_occurs_index(t, p, w, tag.len() as int + 1);
        lemma_occurs_index(t, p, w, tag.len() as int + 2);
        lemma_occurs_index(t, p, w, tag.len() as int + 3);
        assert(!bad_tag_char(tag[0]));
        lemma_plain_open_step(t, p);
        assert forall|k: int| p + 1 <= k < e implies !(is_white_space(#[trigger] t[k]) || t[k] == '>'
            || t[k] == '/') by {
            lemma_occurs_index(t, p, w, k - p);
            assert(!bad_tag_char(tag[k - p - 1]));
        }
        assert(is_white_space(' '));
        lemma_name_end_at(t, p + 1, e);
        assert(t.subrange(p + 1, e) =~= tag) by {
            assert forall|k: int| 0 <= k < tag.len() implies t.subrange(p + 1, e)[k] == tag[k] by {
                lemma_occurs_index(t, p, w, k + 1);
            }
        }
        assert(xml_step(t, p, false) == LexStep::Emit(TokenView::TagOpen(tag), e, true));
        let acc2 = acc.push(TokenView::TagOpen(tag));
        reveal_strlit("/>");
        assert(!is_white_space('/'));
        assert(skip_white_space(t, e + 1) == e + 1);
        assert(skip_white_space(t, e) == e + 1);
        assert(t.subrange(e + 1, e + 3) =~= "/>"@);
        assert(matches_at(t, e + 1, "/>"@));
        assert(xml_step(t, e, true) == LexStep::Emit(TokenView::TagSelfClose, e + 3, false));
        assert(next_event(t, p, false) == LexStep::Emit(TokenView::TagOpen(tag), e, true));
        assert(next_event(t, e, true) == LexStep::Emit(TokenView::TagSelfClose, e + 3, false));
        assert(lex_xml_from(t, e, true, acc2) == lex_xml_from(t, e + 3, false, acc2.push(TokenView::TagSelfClose)));
        assert(lex_xml_from(t, p, false, acc) == lex_xml_from(t, e, true, acc2));
        assert(acc2.push(TokenView::TagSelfClose) =~= acc + ts);
    }
}

/// Text without `<`, followed by a tag or the end, is read as one text
/// token holding it with its entity references replaced.
#[verifier::spinoff_prover]
#[verifier::rlimit(40)]
proof fn lemma_text_lexes(w: Seq<char>)
    requires
        w.len() > 0,
        forall|k: int| 0 <= k < w.len() ==> #[trigger] w[k] != '<',
    ensures
        xml_text_lexes_as(w, seq![TokenView::Text(decode_entities(w))]),
{
    reveal(xml_text_lexes_as);
    reveal(lex_outside);
    assert forall|t: Seq<char>, p: int, acc: Seq<TokenView>|
        occurs_at(t, p, w) && tag_follows(t, p + w.len()) implies #[trigger] lex_outside(t, p, acc)
        == lex_outside(t, p + w.len(), acc + seq![TokenView::Text(decode_entities(w))]) by {
        let e = p + w.len();
        lemma_occurs_index(t, p, w, 0);
        reveal_strlit("</");
        reveal_strlit("<?");
        reveal_strlit("<!--");
        reveal_strlit("<![CDATA[");
        reveal_strlit("<!");
        assert(!matches_at(t, p, "</"@)) by {
            if matches_at(t, p, "</"@) {
                assert(t.subrange(p, p + 2)[0] == t[p]);
            }
        }
        assert(!matches_at(t, p, "<?"@)) by {
            if matches_at(t, p, "<?"@) {
                assert(t.subrange(p, p + 2)[0] == t[p]);
            }
        }
        assert(!matches_at(t, p, "<!--"@)) by {
            if matches_at(t, p, "<!--"@) {
                assert(t.subrange(p, p + 4)[0] == t[p]);
            }
        }
        assert(!matches_at(t, p, "<![CDATA["@)) by {
            if matches_at(t, p, "<![CDATA["@) {
                assert(t.subrange(p, p + 9)[0] == t[p]);
            }
        }
        assert(!matches_at(t, p, "<!"@)) by {
            if matches_at(t, p, "<!"@) {
                assert(t.subrange(p, p + 2)[0] == t[p]);
            }
        }
        assert forall|k: int| p <= k < e implies #[trigger] t[k] != '<' by {
            lemma_occurs_index(t, p, w, k - p);
        }
        if e < t.len() {
            lemma_find_char_at(t, p, e, '<');
        } else {
            lemma_find_char(t, p, '<');
        }
        assert(t.subrange(p, e) =~= w);
        assert(xml_step(t, p, false) == LexStep::Emit(TokenView::Text(decode_entities(w)), e, false));
        assert(acc.push(TokenView::Text(decode_entities(w))) =~= acc + seq![
            TokenView::Text(decode_entities(w)),
        ]);
    }
}

/// Two pieces one after the other are read as their tokens one after the
/// other.
proof fn lemma_xml_concat_lexes(a: Seq<char>, ta: Seq<TokenView>, b: Seq<char>, tb: Seq<TokenView>)
    requires
        xml_lexes_as(a, ta),
        xml_lexes_as(b, tb),
    ensures
        xml_lexes_as(a + b, ta + tb),
{
    reveal(xml_lexes_as);
    let w = a + b;
    assert forall|t: Seq<char>, p: int, acc: Seq<TokenView>| occurs_at(t, p, w) implies #[trigger] lex_outside(
        t,
        p,
        acc,
    ) == lex_outside(t, p + w.len(), acc + (ta + tb)) by {
        lemma_occurs_split(t, p, a, b);
        assert(lex_outside(t, p, acc) == lex_outside(t, p + a.len(), acc + ta));
        assert(lex_outside(t, p + a.len(), acc + ta) == lex_outside(t, p + a.len() + b.len(), (acc + ta) + tb));
        assert((acc + ta) + tb =~= acc + (ta + tb));
    }
}

/// A text followed by a piece that starts with a tag is read as the text's
/// tokens, then the piece's.
proof fn lemma_xml_text_then_lexes(a: Seq<char>, ta: Seq<TokenView>, b: Seq<char>, tb: Seq<TokenView>)
    requires
        xml_text_lexes_as(a, ta),
        xml_lexes_as(b, tb),
        b.len() > 0,
        b[0] == '<',
    ensures
        xml_lexes_as(a + b, ta + tb),
{
    reveal(xml_lexes_as);
    reveal(xml_text_lexes_as);
    let w = a + b;
    assert forall|t: Seq<char>, p: int, acc: Seq<TokenView>| occurs_at(t, p, w) implies #[trigger] lex_outside(
        t,
        p,
        acc,
    ) == lex_outside(t, p + w.len(), acc + (ta + tb)) by {
        lemma_occurs_split(t, p, a, b);
        lemma_occurs_index(t, p + a.len(), b, 0);
        assert(tag_follows(t, p + a.len()));
        assert(lex_outside(t, p, acc) == lex_outside(t, p + a.len(), acc + ta));
        assert(lex_outside(t, p + a.len(), acc + ta) == lex_outside(t, p + a.len() + b.len(), (acc + ta) + tb));
        assert((acc + ta) + tb =~= acc + (ta + tb));
    }
}

proof fn lemma_occurs_split(t: Seq<char>, p: int, a: Seq<char>, b: Seq<char>)
    requires
        occurs_at(t, p, a + b),
    ensures
        occurs_at(t, p, a),
        occurs_at(t, p + a.len(), b),
{
    let w = a + b;
    assert(t.subrange(p, p + a.len()) =~= a) by {
        assert forall|k: int| 0 <= k < a.len() implies t.subrange(p, p + a.len())[k] == a[k] by {
            lemma_occurs_index(t, p, w, k);
        }
    }
    assert(t.subrange(p + a.len(), p + a.len() + b.len()) =~= b) by {
        assert forall|k: int| 0 <= k < b.len() implies t.subrange(p + a.len(), p + a.len() + b.len())[k]
            == b[k] by {
            lemma_occurs_index(t, p, w, a.len() + k);
        }
    }
}

proof fn lemma_xml_empty_lexes()
    ensures
        xml_lexes_as(Seq::empty(), Seq::empty()),
{
    reveal(xml_lexes_as);
    assert forall|t: Seq<char>, p: int, acc: Seq<TokenView>| occurs_at(t, p, Seq::empty()) implies #[trigger] lex_outside(
        t,
        p,
        acc,
    ) == lex_outside(t, p + 0, acc + Seq::<TokenView>::empty()) by {
        assert(acc + Seq::<TokenView>::empty() =~= acc);
    }
}

proof fn lemma_find_from_first(s: Seq<char>, i: int, j: int, pat: Seq<char>)
    requires
        0 <= i <= j,
        matches_at(s, j, pat),
        forall|k: int| i <= k < j ==> !#[trigger] matches_at(s, k, pat),
    ensures
        find_from(s, i, pat) == Some(j),
{
    lemma_find_from_bounds(s, i, pat);
    if let Some(j2) = find_from(s, i, pat) {
        if j2 > j {
            assert(!matches_at(s, j, pat));
        }
    }
}

/// The XML declaration is read as one processing-instruction token.
#[verifier::spinoff_prover]
#[verifier::rlimit(40)]
proof fn lemma_declaration_lexes()
    ensures
        xml_lexes_as(xml_declaration(), seq![TokenView::ProcessingInstruction]),
{
    reveal(xml_lexes_as);
    reveal(lex_outside);
    let w = xml_declaration();
    reveal_strlit("<?xml version=\"1.0\" encoding=\"UTF-8\"?>");
    reveal_strlit("</");
    reveal_strlit("<?");
    reveal_strlit("?>");
    assert(w.len() == 38);
    assert forall|t: Seq<char>, p: int, acc: Seq<TokenView>|
        occurs_at(t, p, w) implies #[trigger] lex_outside(t, p, acc)
        == lex_outside(t, p + w.len(), acc + seq![TokenView::ProcessingInstruction]) by {
        lemma_occurs_index(t, p, w, 0);
        lemma_occurs_index(t, p, w, 1);
        lemma_occurs_index(t, p, w, 2);
        lemma_occurs_index(t, p, w, 36);
        lemma_occurs_index(t, p, w, 37);
        assert(!matches_at(t, p, "</"@)) by {
            if matches_at(t, p, "</"@) {
                assert(t.subrange(p, p + 2)[1] == t[p + 1]);
            }
        }
        assert(t.subrange(p, p + 2) =~= "<?"@);
        assert(t.subrange(p + 36, p + 38) =~= "?>"@);
        assert forall|k: int| p <= k < p + 36 implies !#[trigger] matches_at(t, k, "?>"@) by {
            if matches_at(t, k, "?>"@) {
                assert(t.subrange(k, k + 2)[0] == t[k]);
                assert(t.subrange(k, k + 2)[1] == t[k + 1]);
                lemma_occurs_index(t, p, w, k - p);
                lemma_occurs_index(t, p, w, k - p + 1);
                assert(w[k - p] == '?');
                assert(w[k - p + 1] == '>');
            }
        }
        lemma_find_from_first(t, p, p + 36, "?>"@);
        assert(xml_step(t, p, false) == LexStep::Emit(TokenView::ProcessingInstruction, p + 38, false));
        assert(acc.push(TokenView::ProcessingInstruction) =~= acc + seq![TokenView::ProcessingInstruction]);
    }
}

// ---------------------------------------------------------------------------
// What the JSON to XML conversion writes
// ---------------------------------------------------------------------------

/// A key whose characters, where the tag-name rule keeps them (Unicode
/// alphanumerics and `_ - . :`), are none that the XML reader treats
/// specially in a name. Which characters outside ASCII are alphanumeric is
/// left to Unicode tables (`char_is_alphanumeric`), so this is stated over
/// that rule.
pub open spec fn safe_key(k: Seq<char>) -> bool {
    forall|i: int| 0 <= i < k.len() ==> (tag_char_ok(#[trigger] k[i]) ==> !bad_tag_char(k[i]))
}

/// Every key of `v`, all the way down, is a safe key.
pub open spec fn safe_keys(v: JsonValue) -> bool
    decreases v,
{
    match v {
        JsonValue::Object(ms) => forall|i: int|
            0 <= i < ms.len() ==> safe_key(#[trigger] ms[i].0) && safe_keys(ms[i].1),
        JsonValue::Array(es) => forall|i: int| 0 <= i < es.len() ==> safe_keys(#[trigger] es[i]),
        _ => true,
    }
}

pub(crate) proof fn lemma_sanitize_clean(name: Seq<char>)
    requires
        safe_key(name),
    ensures
        clean_tag(sanitize_tag(name)),
{
    let r = sanitize_tag(name);
    if name.len() > 0 {
        let t = Seq::new(name.len(), |i: int| if tag_char_ok(name[i]) { name[i] } else { '_' });
        assert forall|i: int| 0 <= i < t.len() implies !bad_tag_char(#[trigger] t[i]) by {
            assert(tag_char_ok(name[i]) ==> !bad_tag_char(name[i]));
        }
        assert forall|i: int| 0 <= i < r.len() implies !bad_tag_char(#[trigger] r[i]) by {
            if r.len() > t.len() && i > 0 {
                assert(r[i] == t[i - 1]);
            } else if r.len() == t.len() {
                assert(r[i] == t[i]);
            }
        }
    }
}

proof fn lemma_decimal_digits(n: nat)
    ensures
        forall|i: int| 0 <= i < decimal(n).len() ==> !bad_tag_char(#[trigger] decimal(n)[i]),
    decreases n,
{
    if n >= 10 {
        lemma_decimal_digits(n / 10);
        let d = decimal(n);
        assert forall|i: int| 0 <= i < d.len() implies !bad_tag_char(#[trigger] d[i]) by {
            if i < d.len() - 1 {
                assert(d[i] == decimal(n / 10)[i]);
            } else {
                assert(d[i] == digit_char(n % 10));
                assert((48 + n % 10) as char as u32 == 48 + n % 10);
            }
        }
    } else {
        assert((48 + n) as char as u32 == 48 + n);
    }
}

pub(crate) proof fn lemma_member_tag_safe(pairs: Seq<(Seq<char>, JsonValue)>, k: int)
    requires
        0 <= k < pairs.len(),
        safe_key(pairs[k].0),
    ensures
        safe_key(member_tag(pairs, k)),
{
    lemma_sanitize_clean(pairs[k].0);
    let base = sanitize_tag(pairs[k].0);
    let m = member_tag(pairs, k);
    let c = crate::json_to_xml::json_model::count_tag(pairs, base, k + 1);
    lemma_decimal_digits(c);
    assert forall|i: int| 0 <= i < m.len() && tag_char_ok(#[trigger] m[i]) implies !bad_tag_char(m[i]) by {
        if i < base.len() {
            assert(m[i] == base[i]);
        } else if i == base.len() {
            assert(m[i] == '_');
        } else {
            assert(m[i] == decimal(c)[i - base.len() - 1]);
        }
    }
}

pub(crate) proof fn lemma_literal_safe(w: Seq<char>)
    requires
        forall|i: int| 0 <= i < w.len() ==> !bad_tag_char(#[trigger] w[i]),
    ensures
        safe_key(w),
{
}

/// The white space in front of a value nested `depth` deep: in pretty mode
/// a line break and the indentation.
pub open spec fn lead(depth: nat, indent: Option<nat>) -> Seq<char> {
    xml_break(indent) + xml_pad(depth, indent)
}

/// The white space before the closing tag of an element with content
/// nested `depth` deep.
pub open spec fn close_pad(depth: nat, indent: Option<nat>) -> Seq<char> {
    if indent is Some {
        seq!['\n'] + xml_pad(depth, indent)
    } else {
        Seq::empty()
    }
}

/// The XML for `v` as element `label` without the indentation in front.
pub open spec fn core_xml(v: JsonValue, label: Seq<char>, depth: nat, indent: Option<nat>) -> Seq<char> {
    let tag = sanitize_tag(label);
    let open = seq!['<'] + tag + seq!['>'];
    let close = seq!['<', '/'] + tag + seq!['>'];
    match v {
        JsonValue::Object(pairs) => open + members_xml(pairs, pairs.len() as int, depth, indent)->Some_0
            + close_pad(depth, indent) + close,
        JsonValue::Array(els) => open + elements_xml(els, els.len() as int, "item"@, depth, indent)->Some_0
            + close_pad(depth, indent) + close,
        JsonValue::StringVal(s) => open + escape_xml(s) + close,
        JsonValue::Number(n) => open + n + close,
        JsonValue::BoolVal(b) => open + (if b {
            "true"@
        } else {
            "false"@
        }) + close,
        JsonValue::Null => seq!['<'] + tag + seq![' ', '/', '>'],
    }
}

proof fn lemma_wrap_core(pad: Seq<char>, tag: Seq<char>, inner: Seq<char>, depth: nat, indent: Option<nat>)
    requires
        pad == xml_pad(depth, indent),
    ensures
        crate::json_to_xml::json_model::xml_wrap(pad, tag, inner, indent) == pad + (seq!['<'] + tag + seq!['>']
            + inner + close_pad(depth, indent) + (seq!['<', '/'] + tag + seq!['>'])),
{
    reveal_strlit("<");
    reveal_strlit(">");
    reveal_strlit("</");
    assert(crate::json_to_xml::json_model::xml_wrap(pad, tag, inner, indent) =~= pad + (seq!['<'] + tag
        + seq!['>'] + inner + close_pad(depth, indent) + (seq!['<', '/'] + tag + seq!['>'])));
}

proof fn lemma_scalar_core(pad: Seq<char>, tag: Seq<char>, x: Seq<char>)
    ensures
        pad + "<"@ + tag + ">"@ + x + "</"@ + tag + ">"@ == pad + (seq!['<'] + tag + seq!['>'] + x + (
        seq!['<', '/'] + tag + seq!['>'])),
{
    reveal_strlit("<");
    reveal_strlit(">");
    reveal_strlit("</");
    assert(pad + "<"@ + tag + ">"@ + x + "</"@ + tag + ">"@ =~= pad + (seq!['<'] + tag + seq!['>'] + x + (
    seq!['<', '/'] + tag + seq!['>'])));
}

#[verifier::spinoff_prover]
#[verifier::rlimit(40)]
pub(crate) proof fn lemma_xml_of_core(v: JsonValue, label: Seq<char>, depth: nat, indent: Option<nat>)
    requires
        xml_of(v, label, depth, indent) is Some,
    ensures
        xml_of(v, label, depth, indent)->Some_0 == xml_pad(depth, indent) + core_xml(v, label, depth, indent),
        core_xml(v, label, depth, indent).len() > 0,
        core_xml(v, label, depth, indent)[0] == '<',
{
    let tag = sanitize_tag(label);
    let pad = xml_pad(depth, indent);
    match v {
        JsonValue::Object(pairs) => {
            lemma_wrap_core(pad, tag, members_xml(pairs, pairs.len() as int, depth, indent)->Some_0, depth, indent);
        },
        JsonValue::Array(els) => {
            lemma_wrap_core(pad, tag, elements_xml(els, els.len() as int, "item"@, depth, indent)->Some_0, depth, indent);
        },
        JsonValue::StringVal(x) => {
            lemma_scalar_core(pad, tag, escape_xml(x));
        },
        JsonValue::Number(x) => {
            lemma_scalar_core(pad, tag, x);
        },
        JsonValue::BoolVal(b) => {
            lemma_scalar_core(pad, tag, if b {
                "true"@
            } else {
                "false"@
            });
        },
        JsonValue::Null => {
            reveal_strlit("<");
            reveal_strlit(" />");
            assert(pad + "<"@ + tag + " />"@ =~= pad + (seq!['<'] + tag + seq![' ', '/', '>']));
        },
    }
}

/// The tokens of a text: none for an empty one, else one text token.
pub open spec fn text_tokens(w: Seq<char>) -> Seq<TokenView> {
    if w.len() == 0 {
        Seq::empty()
    } else {
        seq![TokenView::Text(w)]
    }
}

/// Text without `&` reads as itself.
proof fn lemma_decode_plain(w: Seq<char>, i: int)
    requires
        0 <= i <= w.len(),
        forall|k: int| 0 <= k < w.len() ==> #[trigger] w[k] != '&',
    ensures
        decode_from(w, i) == w.subrange(i, w.len() as int),
    decreases w.len() - i,
{
    if i < w.len() {
        lemma_decode_plain(w, i + 1);
        assert(w.subrange(i, w.len() as int) =~= seq![w[i]] + w.subrange(i + 1, w.len() as int));
    } else {
        assert(w.subrange(i, w.len() as int) =~= Seq::<char>::empty());
    }
}

proof fn lemma_escape_len(s: Seq<char>, n: int)
    requires
        0 <= n <= s.len(),
    ensures
        crate::json_to_xml::json_model::escape_xml_prefix(s, n).len() >= n,
    decreases n,
{
    if n > 0 {
        lemma_escape_len(s, n - 1);
    }
}

/// The tokens of the XML for `v` as element `label`, without the
/// indentation in front.
pub open spec fn core_tokens(v: JsonValue, label: Seq<char>, depth: nat, indent: Option<nat>) -> Seq<
    TokenView,
>
    decreases v, 1nat,
{
    let tag = sanitize_tag(label);
    if v is Null {
        seq![TokenView::TagOpen(tag), TokenView::TagSelfClose]
    } else {
        seq![TokenView::TagOpen(tag)] + content_tokens(v, depth, indent) + seq![TokenView::TagClose(tag)]
    }
}

/// The tokens between the opening and the closing tag of the XML for `v`.
pub open spec fn content_tokens(v: JsonValue, depth: nat, indent: Option<nat>) -> Seq<TokenView>
    decreases v, 0nat,
{
    match v {
        JsonValue::Object(pairs) => member_tokens(pairs, pairs.len() as int, depth, indent) + text_tokens(
            close_pad(depth, indent),
        ),
        JsonValue::Array(els) => item_tokens(els, els.len() as int, "item"@, depth, indent) + text_tokens(
            close_pad(depth, indent),
        ),
        JsonValue::StringVal(s) => text_tokens(s),
        JsonValue::Number(n) => text_tokens(n),
        JsonValue::BoolVal(b) => text_tokens(
            if b {
                "true"@
            } else {
                "false"@
            },
        ),
        JsonValue::Null => Seq::empty(),
    }
}

/// The tokens of the XML for the first `n` members of an object nested
/// `depth` deep.
pub open spec fn member_tokens(
    pairs: Seq<(Seq<char>, JsonValue)>,
    n: int,
    depth: nat,
    indent: Option<nat>,
) -> Seq<TokenView>
    decreases pairs, n,
{
    if n <= 0 || n > pairs.len() {
        Seq::empty()
    } else {
        member_tokens(pairs, n - 1, depth, indent) + match pairs[n - 1].1 {
            JsonValue::Array(els) => item_tokens(els, els.len() as int, member_tag(pairs, n - 1), depth, indent),
            _ => text_tokens(lead(depth + 1, indent)) + core_tokens(
                pairs[n - 1].1,
                member_tag(pairs, n - 1),
                depth + 1,
                indent,
            ),
        }
    }
}

/// The tokens of the XML for the first `n` items of a sequence, each as
/// element `tag`, one level below `depth`.
pub open spec fn item_tokens(els: Seq<JsonValue>, n: int, tag: Seq<char>, depth: nat, indent: Option<nat>) -> Seq<
    TokenView,
>
    decreases els, n,
{
    if n <= 0 || n > els.len() {
        Seq::empty()
    } else {
        item_tokens(els, n - 1, tag, depth, indent) + text_tokens(lead(depth + 1, indent)) + core_tokens(
            els[n - 1],
            tag,
            depth + 1,
            indent,
        )
    }
}

/// Text without `<` or `&` followed by a piece that starts with a tag.
proof fn lemma_text_then_tag(w: Seq<char>, b: Seq<char>, tb: Seq<TokenView>)
    requires
        forall|k: int| 0 <= k < w.len() ==> #[trigger] w[k] != '<' && w[k] != '&',
        xml_lexes_as(b, tb),
        b.len() > 0,
        b[0] == '<',
    ensures
        xml_lexes_as(w + b, text_tokens(w) + tb),
{
    if w.len() == 0 {
        assert(w + b =~= b);
        assert(text_tokens(w) + tb =~= tb);
    } else {
        lemma_text_lexes(w);
        lemma_decode_plain(w, 0);
        assert(w.subrange(0, w.len() as int) =~= w);
        lemma_xml_text_then_lexes(w, text_tokens(w), b, tb);
    }
}

/// A string written as XML text, followed by a piece that starts with a
/// tag, is read back as the string.
proof fn lemma_escaped_then_tag(x: Seq<char>, b: Seq<char>, tb: Seq<TokenView>)
    requires
        xml_lexes_as(b, tb),
        b.len() > 0,
        b[0] == '<',
    ensures
        xml_lexes_as(escape_xml(x) + b, text_tokens(x) + tb),
{
    let w = escape_xml(x);
    lemma_escape_len(x, x.len() as int);
    if x.len() == 0 {
        assert(w + b =~= b);
        assert(text_tokens(x) + tb =~= tb);
    } else {
        lemma_escaped_text_is_safe(x);
        lemma_text_lexes(w);
        lemma_xml_text_round_trip(x);
        lemma_xml_text_then_lexes(w, text_tokens(x), b, tb);
    }
}

pub(crate) proof fn lemma_white_no_lt(depth: nat, indent: Option<nat>)
    ensures
        forall|k: int|
            0 <= k < lead(depth, indent).len() ==> #[trigger] lead(depth, indent)[k] != '<' && lead(
                depth,
                indent,
            )[k] != '&',
        forall|k: int|
            0 <= k < close_pad(depth, indent).len() ==> #[trigger] close_pad(depth, indent)[k] != '<'
                && close_pad(depth, indent)[k] != '&',
{
    let l = lead(depth, indent);
    let c = close_pad(depth, indent);
    assert forall|k: int| 0 <= k < l.len() implies #[trigger] l[k] != '<' && l[k] != '&' by {
        if indent is Some {
            if k > 0 {
                assert(l[k] == xml_pad(depth, indent)[k - 1]);
            }
        } else {
            assert(l[k] == xml_pad(depth, indent)[k]);
        }
    }
    assert forall|k: int| 0 <= k < c.len() implies #[trigger] c[k] != '<' && c[k] != '&' by {
        if k > 0 {
            assert(c[k] == xml_pad(depth, indent)[k - 1]);
        }
    }
}

/// The XML for a value, without the indentation in front, is read as its
/// tokens.
proof fn lemma_core_lexes(v: JsonValue, label: Seq<char>, depth: nat, indent: Option<nat>)
    requires
        xml_of(v, label, depth, indent) is Some,
        safe_key(label),
        safe_keys(v),
        plain_numbers(v),
    ensures
        xml_lexes_as(core_xml(v, label, depth, indent), core_tokens(v, label, depth, indent)),
    decreases v, 0nat,
{
    lemma_sanitize_clean(label);
    let tag = sanitize_tag(label);
    let open = seq!['<'] + tag + seq!['>'];
    let close = seq!['<', '/'] + tag + seq!['>'];
    let topen = seq![TokenView::TagOpen(tag)];
    let tclose = seq![TokenView::TagClose(tag)];
    lemma_open_tag_lexes(tag);
    lemma_close_tag_lexes(tag);
    lemma_white_no_lt(depth, indent);
    match v {
        JsonValue::Object(pairs) => {
            let n = pairs.len() as int;
            lemma_members_lexes(pairs, n, depth, indent);
            let inner = members_xml(pairs, n, depth, indent)->Some_0;
            let tinner = member_tokens(pairs, n, depth, indent);
            lemma_text_then_tag(close_pad(depth, indent), close, tclose);
            lemma_xml_concat_lexes(open, topen, inner, tinner);
            lemma_xml_concat_lexes(open + inner, topen + tinner, close_pad(depth, indent) + close, text_tokens(close_pad(depth, indent)) + tclose);
            assert(open + inner + (close_pad(depth, indent) + close) =~= core_xml(v, label, depth, indent));
            assert(topen + tinner + (text_tokens(close_pad(depth, indent)) + tclose) =~= core_tokens(v, label, depth, indent));
        },
        JsonValue::Array(els) => {
            let n = els.len() as int;
            reveal_strlit("item");
            lemma_literal_safe("item"@);
            lemma_items_lexes(els, n, "item"@, depth, indent);
            let inner = elements_xml(els, n, "item"@, depth, indent)->Some_0;
            let tinner = item_tokens(els, n, "item"@, depth, indent);
            lemma_text_then_tag(close_pad(depth, indent), close, tclose);
            lemma_xml_concat_lexes(open, topen, inner, tinner);
            lemma_xml_concat_lexes(open + inner, topen + tinner, close_pad(depth, indent) + close, text_tokens(close_pad(depth, indent)) + tclose);
            assert(open + inner + (close_pad(depth, indent) + close) =~= core_xml(v, label, depth, indent));
            assert(topen + tinner + (text_tokens(close_pad(depth, indent)) + tclose) =~= core_tokens(v, label, depth, indent));
        },
        JsonValue::StringVal(x) => {
            let w = escape_xml(x);
            lemma_escaped_then_tag(x, close, tclose);
            lemma_xml_concat_lexes(open, topen, w + close, text_tokens(x) + tclose);
            assert(open + (w + close) =~= core_xml(v, label, depth, indent));
            assert(topen + (text_tokens(x) + tclose) =~= core_tokens(v, label, depth, indent));
        },
        JsonValue::Number(w) => {
            lemma_text_then_tag(w, close, tclose);
            lemma_xml_concat_lexes(open, topen, w + close, text_tokens(w) + tclose);
            assert(open + (w + close) =~= core_xml(v, label, depth, indent));
            assert(topen + (text_tokens(w) + tclose) =~= core_tokens(v, label, depth, indent));
        },
        JsonValue::BoolVal(b) => {
            reveal_strlit("true");
            reveal_strlit("false");
            let w = if b {
                "true"@
            } else {
                "false"@
            };
            lemma_text_then_tag(w, close, tclose);
            lemma_xml_concat_lexes(open, topen, w + close, text_tokens(w) + tclose);
            assert(open + (w + close) =~= core_xml(v, label, depth, indent));
            assert(topen + (text_tokens(w) + tclose) =~= core_tokens(v, label, depth, indent));
        },
        JsonValue::Null => {
            lemma_empty_tag_lexes(tag);
        },
    }
}

proof fn lemma_members_lexes(pairs: Seq<(Seq<char>, JsonValue)>, n: int, depth: nat, indent: Option<nat>)
    requires
        0 <= n <= pairs.len(),
        members_xml(pairs, n, depth, indent) is Some,
        forall|i: int|
            0 <= i < pairs.len() ==> safe_key(#[trigger] pairs[i].0) && safe_keys(pairs[i].1)
                && plain_numbers(pairs[i].1),
    ensures
        xml_lexes_as(members_xml(pairs, n, depth, indent)->Some_0, member_tokens(pairs, n, depth, indent)),
    decreases pairs, n,
{
    if n == 0 {
        lemma_xml_empty_lexes();
    } else {
        lemma_members_lexes(pairs, n - 1, depth, indent);
        let prev = members_xml(pairs, n - 1, depth, indent)->Some_0;
        let tprev = member_tokens(pairs, n - 1, depth, indent);
        let tag = member_tag(pairs, n - 1);
        assert(safe_key(pairs[n - 1].0));
        lemma_member_tag_safe(pairs, n - 1);
        match pairs[n - 1].1 {
            JsonValue::Array(els) => {
                assert(safe_keys(pairs[n - 1].1));
                lemma_items_lexes(els, els.len() as int, tag, depth, indent);
                lemma_xml_concat_lexes(
                    prev,
                    tprev,
                    elements_xml(els, els.len() as int, tag, depth, indent)->Some_0,
                    item_tokens(els, els.len() as int, tag, depth, indent),
                );
            },
            _ => {
                let c = pairs[n - 1].1;
                lemma_core_lexes(c, tag, depth + 1, indent);
                lemma_xml_of_core(c, tag, depth + 1, indent);
                lemma_white_no_lt(depth + 1, indent);
                let core = core_xml(c, tag, depth + 1, indent);
                lemma_text_then_tag(lead(depth + 1, indent), core, core_tokens(c, tag, depth + 1, indent));
                let piece = lead(depth + 1, indent) + core;
                assert(xml_break(indent) + xml_of(c, tag, depth + 1, indent)->Some_0 =~= piece);
                lemma_xml_concat_lexes(
                    prev,
                    tprev,
                    piece,
                    text_tokens(lead(depth + 1, indent)) + core_tokens(c, tag, depth + 1, indent),
                );
            },
        }
    }
}

proof fn lemma_items_lexes(els: Seq<JsonValue>, n: int, tag: Seq<char>, depth: nat, indent: Option<nat>)
    requires
        0 <= n <= els.len(),
        elements_xml(els, n, tag, depth, indent) is Some,
        safe_key(tag),
        forall|i: int| 0 <= i < els.len() ==> safe_keys(#[trigger] els[i]) && plain_numbers(els[i]),
    ensures
        xml_lexes_as(elements_xml(els, n, tag, depth, indent)->Some_0, item_tokens(els, n, tag, depth, indent)),
    decreases els, n,
{
    if n == 0 {
        lemma_xml_empty_lexes();
    } else {
        lemma_items_lexes(els, n - 1, tag, depth, indent);
        let prev = elements_xml(els, n - 1, tag, depth, indent)->Some_0;
        let tprev = item_tokens(els, n - 1, tag, depth, indent);
        let c = els[n - 1];
        assert(safe_keys(c) && plain_numbers(c));
        lemma_core_lexes(c, tag, depth + 1, indent);
        lemma_xml_of_core(c, tag, depth + 1, indent);
        lemma_white_no_lt(depth + 1, indent);
        let core = core_xml(c, tag, depth + 1, indent);
        lemma_text_then_tag(lead(depth + 1, indent), core, core_tokens(c, tag, depth + 1, indent));
        let piece = lead(depth + 1, indent) + core;
        lemma_xml_concat_lexes(prev, tprev, piece, text_tokens(lead(depth + 1, indent)) + core_tokens(c, tag, depth + 1, indent));
        assert(prev + xml_break(indent) + xml_of(c, tag, depth + 1, indent)->Some_0 =~= prev + piece);
        assert(tprev + (text_tokens(lead(depth + 1, indent)) + core_tokens(c, tag, depth + 1, indent)) =~= item_tokens(els, n, tag, depth, indent));
    }
}

// ---------------------------------------------------------------------------
// Building the tree from the tokens
// ---------------------------------------------------------------------------

/// The tokens `w` stand in `ts` at index `i`.
pub open spec fn xml_tokens_at(ts: Seq<TokenView>, i: int, w: Seq<TokenView>) -> bool {
    0 <= i && i + w.len() <= ts.len() && ts.subrange(i, i + w.len()) == w
}

/// `stack` with `nodes` added, in order, to the children of its last element.
pub open spec fn add_children(stack: Seq<XmlValue>, nodes: Seq<XmlValue>) -> Seq<XmlValue>
    decreases nodes.len(),
{
    if nodes.len() == 0 {
        stack
    } else {
        add_child(add_children(stack, nodes.drop_last()), nodes.last())
    }
}

/// The document built from the tokens of `ts` from `i` on.
#[verifier::opaque]
pub open spec fn build(ts: Seq<TokenView>, i: int, stack: Seq<XmlValue>, root: Option<XmlValue>) -> Result<
    XmlValue,
    Seq<char>,
> {
    build_from(ts, i, stack, root)
}

/// Wherever the tokens `w` stand inside an open element, the parser adds the
/// nodes `nodes` to that element and goes on right after them.
#[verifier::opaque]
pub open spec fn builds_as(w: Seq<TokenView>, nodes: Seq<XmlValue>) -> bool {
    forall|ts: Seq<TokenView>, i: int, stack: Seq<XmlValue>, root: Option<XmlValue>|
        xml_tokens_at(ts, i, w) && stack.len() > 0 && stack.last() is Element ==> #[trigger] build(
            ts,
            i,
            stack,
            root,
        ) == build(ts, i + w.len(), add_children(stack, nodes), root)
}

proof fn lemma_xml_tokens_at_index(ts: Seq<TokenView>, i: int, w: Seq<TokenView>, k: int)
    requires
        xml_tokens_at(ts, i, w),
        0 <= k < w.len(),
    ensures
        ts[i + k] == w[k],
{
    assert(ts[i + k] == ts.subrange(i, i + w.len())[k]);
}

proof fn lemma_xml_tokens_at_split(ts: Seq<TokenView>, i: int, a: Seq<TokenView>, b: Seq<TokenView>)
    requires
        xml_tokens_at(ts, i, a + b),
    ensures
        xml_tokens_at(ts, i, a),
        xml_tokens_at(ts, i + a.len(), b),
{
    let w = a + b;
    assert(ts.subrange(i, i + a.len()) =~= a) by {
        assert forall|k: int| 0 <= k < a.len() implies ts.subrange(i, i + a.len())[k] == a[k] by {
            lemma_xml_tokens_at_index(ts, i, w, k);
        }
    }
    assert(ts.subrange(i + a.len(), i + a.len() + b.len()) =~= b) by {
        assert forall|k: int| 0 <= k < b.len() implies ts.subrange(i + a.len(), i + a.len() + b.len())[k]
            == b[k] by {
            lemma_xml_tokens_at_index(ts, i, w, a.len() + k);
        }
    }
}

proof fn lemma_add_children_shape(stack: Seq<XmlValue>, nodes: Seq<XmlValue>)
    requires
        stack.len() > 0,
        stack.last() is Element,
    ensures
        add_children(stack, nodes).len() == stack.len(),
        add_children(stack, nodes).last() is Element,
        add_children(stack, nodes).drop_last() == stack.drop_last(),
        element_name(add_children(stack, nodes).last()) == element_name(stack.last()),
        add_children(stack, nodes).last()->children == stack.last()->children + nodes,
        add_children(stack, nodes).last()->attributes == stack.last()->attributes,
    decreases nodes.len(),
{
    if nodes.len() > 0 {
        lemma_add_children_shape(stack, nodes.drop_last());
        let st = add_children(stack, nodes.drop_last());
        assert(add_child(st, nodes.last()).drop_last() =~= st.drop_last());
        assert(stack.last()->children + nodes =~= (stack.last()->children + nodes.drop_last()).push(nodes.last()));
    } else {
        assert(stack.last()->children + nodes =~= stack.last()->children);
    }
}

proof fn lemma_add_one(stack: Seq<XmlValue>, node: XmlValue)
    ensures
        add_children(stack, seq![node]) == add_child(stack, node),
{
    assert(seq![node].drop_last() =~= Seq::<XmlValue>::empty());
    reveal_with_fuel(add_children, 2);
}

proof fn lemma_add_children_concat(stack: Seq<XmlValue>, a: Seq<XmlValue>, b: Seq<XmlValue>)
    ensures
        add_children(add_children(stack, a), b) == add_children(stack, a + b),
    decreases b.len(),
{
    if b.len() > 0 {
        lemma_add_children_concat(stack, a, b.drop_last());
        assert((a + b).drop_last() =~= a + b.drop_last());
        assert((a + b).last() == b.last());
    } else {
        assert(a + b =~= a);
    }
}

proof fn lemma_builds_concat(a: Seq<TokenView>, na: Seq<XmlValue>, b: Seq<TokenView>, nb: Seq<XmlValue>)
    requires
        builds_as(a, na),
        builds_as(b, nb),
    ensures
        builds_as(a + b, na + nb),
{
    reveal(builds_as);
    let w = a + b;
    assert forall|ts: Seq<TokenView>, i: int, stack: Seq<XmlValue>, root: Option<XmlValue>|
        xml_tokens_at(ts, i, w) && stack.len() > 0 && stack.last() is Element implies #[trigger] build(
        ts,
        i,
        stack,
        root,
    ) == build(ts, i + w.len(), add_children(stack, na + nb), root) by {
        lemma_xml_tokens_at_split(ts, i, a, b);
        lemma_add_children_shape(stack, na);
        let st = add_children(stack, na);
        assert(build(ts, i, stack, root) == build(ts, i + a.len(), st, root));
        assert(build(ts, i + a.len(), st, root) == build(ts, i + a.len() + b.len(), add_children(st, nb), root));
        lemma_add_children_concat(stack, na, nb);
    }
}

proof fn lemma_builds_empty()
    ensures
        builds_as(Seq::empty(), Seq::empty()),
{
    reveal(builds_as);
}

proof fn lemma_text_builds(x: Seq<char>)
    ensures
        builds_as(text_tokens(x), text_nodes(x)),
{
    reveal(builds_as);
    reveal(build);
    if x.len() == 0 {
        lemma_builds_empty();
    } else {
        assert forall|ts: Seq<TokenView>, i: int, stack: Seq<XmlValue>, root: Option<XmlValue>|
            xml_tokens_at(ts, i, text_tokens(x)) && stack.len() > 0 && stack.last() is Element implies #[trigger] build(
            ts,
            i,
            stack,
            root,
        ) == build(ts, i + 1, add_children(stack, text_nodes(x)), root) by {
            lemma_xml_tokens_at_index(ts, i, text_tokens(x), 0);
            lemma_add_one(stack, XmlValue::Text(x));
        }
    }
}

/// The nodes read for a text: none for an empty one, else one text node.
pub open spec fn text_nodes(w: Seq<char>) -> Seq<XmlValue> {
    if w.len() == 0 {
        Seq::empty()
    } else {
        seq![XmlValue::Text(w)]
    }
}

/// An element `<tag>...</tag>` whose content builds `kids` builds one
/// element with those children.
proof fn lemma_element_builds(tag: Seq<char>, inner: Seq<TokenView>, kids: Seq<XmlValue>)
    requires
        clean_tag(tag),
        builds_as(inner, kids),
    ensures
        builds_as(
            seq![TokenView::TagOpen(tag)] + inner + seq![TokenView::TagClose(tag)],
            seq![XmlValue::Element { name: tag, attributes: Seq::empty(), children: kids }],
        ),
{
    reveal(builds_as);
    let w = seq![TokenView::TagOpen(tag)] + inner + seq![TokenView::TagClose(tag)];
    let node = XmlValue::Element { name: tag, attributes: Seq::empty(), children: kids };
    lemma_trim_clean(tag);
    assert forall|ts: Seq<TokenView>, i: int, stack: Seq<XmlValue>, root: Option<XmlValue>|
        xml_tokens_at(ts, i, w) && stack.len() > 0 && stack.last() is Element implies #[trigger] build(
        ts,
        i,
        stack,
        root,
    ) == build(ts, i + w.len(), add_children(stack, seq![node]), root) by {
        reveal(build);
        lemma_xml_tokens_at_split(ts, i, seq![TokenView::TagOpen(tag)] + inner, seq![TokenView::TagClose(tag)]);
        lemma_xml_tokens_at_split(ts, i, seq![TokenView::TagOpen(tag)], inner);
        lemma_xml_tokens_at_index(ts, i, seq![TokenView::TagOpen(tag)], 0);
        lemma_xml_tokens_at_index(ts, i + 1 + inner.len(), seq![TokenView::TagClose(tag)], 0);
        let e0 = XmlValue::Element { name: tag, attributes: Seq::empty(), children: Seq::empty() };
        let st1 = stack.push(e0);
        assert(build(ts, i, stack, root) == build(ts, i + 1, st1, root));
        assert(build(ts, i + 1, st1, root) == build(ts, i + 1 + inner.len(), add_children(st1, kids), root));
        let st2 = add_children(st1, kids);
        lemma_add_children_shape(st1, kids);
        assert(st1.drop_last() =~= stack);
        assert(st2.last() == node) by {
            assert(Seq::<XmlValue>::empty() + kids =~= kids);
        }
        assert(close_element(st2, root) == (add_child(stack, node), root));
        lemma_add_one(stack, node);
    }
}

/// An empty element `<tag />` builds one element without children.
proof fn lemma_empty_element_builds(tag: Seq<char>)
    ensures
        builds_as(
            seq![TokenView::TagOpen(tag), TokenView::TagSelfClose],
            seq![XmlValue::Element { name: tag, attributes: Seq::empty(), children: Seq::empty() }],
        ),
{
    reveal(builds_as);
    let w = seq![TokenView::TagOpen(tag), TokenView::TagSelfClose];
    let node = XmlValue::Element { name: tag, attributes: Seq::empty(), children: Seq::empty() };
    assert forall|ts: Seq<TokenView>, i: int, stack: Seq<XmlValue>, root: Option<XmlValue>|
        xml_tokens_at(ts, i, w) && stack.len() > 0 && stack.last() is Element implies #[trigger] build(
        ts,
        i,
        stack,
        root,
    ) == build(ts, i + w.len(), add_children(stack, seq![node]), root) by {
        reveal(build);
        lemma_xml_tokens_at_index(ts, i, w, 0);
        lemma_xml_tokens_at_index(ts, i, w, 1);
        let st1 = stack.push(node);
        assert(build(ts, i, stack, root) == build(ts, i + 1, st1, root));
        assert(st1.drop_last() =~= stack);
        assert(close_element(st1, root) == (add_child(stack, node), root));
        lemma_add_one(stack, node);
    }
}

// ---------------------------------------------------------------------------
// The tree read back
// ---------------------------------------------------------------------------

/// The element read back from the XML written for `v` as element `label`.
pub open spec fn core_node(v: JsonValue, label: Seq<char>, depth: nat, indent: Option<nat>) -> XmlValue
    decreases v, 1nat,
{
    XmlValue::Element {
        name: sanitize_tag(label),
        attributes: Seq::empty(),
        children: content_nodes(v, depth, indent),
    }
}

/// The children of the element read back for `v`: the text of a scalar, or
/// the elements of the members or items, with the white space between them
/// in pretty mode.
pub open spec fn content_nodes(v: JsonValue, depth: nat, indent: Option<nat>) -> Seq<XmlValue>
    decreases v, 0nat,
{
    match v {
        JsonValue::Object(pairs) => member_nodes(pairs, pairs.len() as int, depth, indent) + text_nodes(
            close_pad(depth, indent),
        ),
        JsonValue::Array(els) => item_nodes(els, els.len() as int, "item"@, depth, indent) + text_nodes(
            close_pad(depth, indent),
        ),
        JsonValue::StringVal(s) => text_nodes(s),
        JsonValue::Number(n) => text_nodes(n),
        JsonValue::BoolVal(b) => text_nodes(
            if b {
                "true"@
            } else {
                "false"@
            },
        ),
        JsonValue::Null => Seq::empty(),
    }
}

/// The nodes read back for the first `n` members of an object nested
/// `depth` deep.
pub open spec fn member_nodes(pairs: Seq<(Seq<char>, JsonValue)>, n: int, depth: nat, indent: Option<nat>) -> Seq<
    XmlValue,
>
    decreases pairs, n,
{
    if n <= 0 || n > pairs.len() {
        Seq::empty()
    } else {
        member_nodes(pairs, n - 1, depth, indent) + match pairs[n - 1].1 {
            JsonValue::Array(els) => item_nodes(els, els.len() as int, member_tag(pairs, n - 1), depth, indent),
            _ => text_nodes(lead(depth + 1, indent)) + seq![
                core_node(pairs[n - 1].1, member_tag(pairs, n - 1), depth + 1, indent),
            ],
        }
    }
}

/// The nodes read back for the first `n` items of a sequence, each as
/// element `tag`, one level below `depth`.
pub open spec fn item_nodes(els: Seq<JsonValue>, n: int, tag: Seq<char>, depth: nat, indent: Option<nat>) -> Seq<
    XmlValue,
>
    decreases els, n,
{
    if n <= 0 || n > els.len() {
        Seq::empty()
    } else {
        item_nodes(els, n - 1, tag, depth, indent) + text_nodes(lead(depth + 1, indent)) + seq![
            core_node(els[n - 1], tag, depth + 1, indent),
        ]
    }
}

proof fn lemma_core_builds(v: JsonValue, label: Seq<char>, depth: nat, indent: Option<nat>)
    requires
        safe_key(label),
        safe_keys(v),
    ensures
        builds_as(content_tokens(v, depth, indent), content_nodes(v, depth, indent)),
        builds_as(core_tokens(v, label, depth, indent), seq![core_node(v, label, depth, indent)]),
    decreases v, 0nat,
{
    lemma_sanitize_clean(label);
    let tag = sanitize_tag(label);
    match v {
        JsonValue::Object(pairs) => {
            let n = pairs.len() as int;
            lemma_members_builds(pairs, n, depth, indent);
            lemma_text_builds(close_pad(depth, indent));
            lemma_builds_concat(
                member_tokens(pairs, n, depth, indent),
                member_nodes(pairs, n, depth, indent),
                text_tokens(close_pad(depth, indent)),
                text_nodes(close_pad(depth, indent)),
            );
        },
        JsonValue::Array(els) => {
            let n = els.len() as int;
            reveal_strlit("item");
            lemma_literal_safe("item"@);
            lemma_items_builds(els, n, "item"@, depth, indent);
            lemma_text_builds(close_pad(depth, indent));
            lemma_builds_concat(
                item_tokens(els, n, "item"@, depth, indent),
                item_nodes(els, n, "item"@, depth, indent),
                text_tokens(close_pad(depth, indent)),
                text_nodes(close_pad(depth, indent)),
            );
        },
        JsonValue::StringVal(x) => {
            lemma_text_builds(x);
        },
        JsonValue::Number(x) => {
            lemma_text_builds(x);
        },
        JsonValue::BoolVal(b) => {
            lemma_text_builds(
                if b {
                    "true"@
                } else {
                    "false"@
                },
            );
        },
        JsonValue::Null => {
            lemma_builds_empty();
        },
    }
    if v is Null {
        lemma_empty_element_builds(tag);
    } else {
        lemma_element_builds(tag, content_tokens(v, depth, indent), content_nodes(v, depth, indent));
    }
}

proof fn lemma_members_builds(pairs: Seq<(Seq<char>, JsonValue)>, n: int, depth: nat, indent: Option<nat>)
    requires
        0 <= n <= pairs.len(),
        forall|i: int| 0 <= i < pairs.len() ==> safe_key(#[trigger] pairs[i].0) && safe_keys(pairs[i].1),
    ensures
        builds_as(member_tokens(pairs, n, depth, indent), member_nodes(pairs, n, depth, indent)),
    decreases pairs, n,
{
    if n == 0 {
        lemma_builds_empty();
    } else {
        lemma_members_builds(pairs, n - 1, depth, indent);
        let tag = member_tag(pairs, n - 1);
        assert(safe_key(pairs[n - 1].0));
        lemma_member_tag_safe(pairs, n - 1);
        match pairs[n - 1].1 {
            JsonValue::Array(els) => {
                assert(safe_keys(pairs[n - 1].1));
                lemma_items_builds(els, els.len() as int, tag, depth, indent);
                lemma_builds_concat(
                    member_tokens(pairs, n - 1, depth, indent),
                    member_nodes(pairs, n - 1, depth, indent),
                    item_tokens(els, els.len() as int, tag, depth, indent),
                    item_nodes(els, els.len() as int, tag, depth, indent),
                );
            },
            _ => {
                let c = pairs[n - 1].1;
                lemma_core_builds(c, tag, depth + 1, indent);
                lemma_text_builds(lead(depth + 1, indent));
                lemma_builds_concat(
                    text_tokens(lead(depth + 1, indent)),
                    text_nodes(lead(depth + 1, indent)),
                    core_tokens(c, tag, depth + 1, indent),
                    seq![core_node(c, tag, depth + 1, indent)],
                );
                lemma_builds_concat(
                    member_tokens(pairs, n - 1, depth, indent),
                    member_nodes(pairs, n - 1, depth, indent),
                    text_tokens(lead(depth + 1, indent)) + core_tokens(c, tag, depth + 1, indent),
                    text_nodes(lead(depth + 1, indent)) + seq![core_node(c, tag, depth + 1, indent)],
                );
            },
        }
    }
}

proof fn lemma_items_builds(els: Seq<JsonValue>, n: int, tag: Seq<char>, depth: nat, indent: Option<nat>)
    requires
        0 <= n <= els.len(),
        safe_key(tag),
        forall|i: int| 0 <= i < els.len() ==> safe_keys(#[trigger] els[i]),
    ensures
        builds_as(item_tokens(els, n, tag, depth, indent), item_nodes(els, n, tag, depth, indent)),
    decreases els, n,
{
    if n == 0 {
        lemma_builds_empty();
    } else {
        lemma_items_builds(els, n - 1, tag, depth, indent);
        let c = els[n - 1];
        assert(safe_keys(c));
        lemma_core_builds(c, tag, depth + 1, indent);
        lemma_text_builds(lead(depth + 1, indent));
        lemma_builds_concat(
            item_tokens(els, n - 1, tag, depth, indent),
            item_nodes(els, n - 1, tag, depth, indent),
            text_tokens(lead(depth + 1, indent)),
            text_nodes(lead(depth + 1, indent)),
        );
        lemma_builds_concat(
            item_tokens(els, n - 1, tag, depth, indent) + text_tokens(lead(depth + 1, indent)),
            item_nodes(els, n - 1, tag, depth, indent) + text_nodes(lead(depth + 1, indent)),
            core_tokens(c, tag, depth + 1, indent),
            seq![core_node(c, tag, depth + 1, indent)],
        );
    }
}

// ---------------------------------------------------------------------------
// The whole document
// ---------------------------------------------------------------------------

/// The line break after the declaration in pretty mode.
pub open spec fn decl_break(pretty: bool) -> Seq<char> {
    if pretty {
        seq!['\n']
    } else {
        Seq::empty()
    }
}

/// The tokens of the XML document written for the value `v`.
pub open spec fn written_tokens(v: JsonValue, pretty: bool) -> Seq<TokenView> {
    seq![TokenView::ProcessingInstruction] + text_tokens(decl_break(pretty)) + core_tokens(
        v,
        "root"@,
        0,
        if pretty {
            Some(4nat)
        } else {
            None
        },
    )
}

#[verifier::spinoff_prover]
#[verifier::rlimit(30)]
proof fn lemma_document_lexes(v: JsonValue, pretty: bool)
    requires
        xml_of(v, "root"@, 0, if pretty { Some(4nat) } else { None }) is Some,
        safe_keys(v),
        plain_numbers(v),
    ensures
        xml_tokens(
            xml_declaration() + decl_break(pretty) + xml_of(
                v,
                "root"@,
                0,
                if pretty {
                    Some(4nat)
                } else {
                    None
                },
            )->Some_0,
        ) == Ok::<Seq<TokenView>, Seq<char>>(written_tokens(v, pretty)),
{
    let ind = if pretty {
        Some(4nat)
    } else {
        None
    };
    reveal_strlit("root");
    lemma_literal_safe("root"@);
    lemma_core_lexes(v, "root"@, 0, ind);
    lemma_xml_of_core(v, "root"@, 0, ind);
    let core = core_xml(v, "root"@, 0, ind);
    assert(xml_pad(0, ind) =~= Seq::<char>::empty());
    assert(xml_of(v, "root"@, 0, ind)->Some_0 =~= core);
    assert forall|k: int| 0 <= k < decl_break(pretty).len() implies #[trigger] decl_break(pretty)[k] != '<'
        && decl_break(pretty)[k] != '&' by {}
    lemma_text_then_tag(decl_break(pretty), core, core_tokens(v, "root"@, 0, ind));
    lemma_declaration_lexes();
    lemma_xml_concat_lexes(
        xml_declaration(),
        seq![TokenView::ProcessingInstruction],
        decl_break(pretty) + core,
        text_tokens(decl_break(pretty)) + core_tokens(v, "root"@, 0, ind),
    );
    let out = xml_declaration() + (decl_break(pretty) + core);
    assert(out =~= xml_declaration() + decl_break(pretty) + xml_of(v, "root"@, 0, ind)->Some_0);
    assert(seq![TokenView::ProcessingInstruction] + (text_tokens(decl_break(pretty)) + core_tokens(v, "root"@, 0, ind))
        =~= written_tokens(v, pretty));
    reveal(xml_lexes_as);
    reveal(lex_outside);
    assert(out.subrange(0, out.len() as int) =~= out);
    assert(occurs_at(out, 0, out));
    assert(lex_outside(out, 0, Seq::empty()) == lex_outside(out, out.len() as int, Seq::<TokenView>::empty() + written_tokens(v, pretty)));
    assert(Seq::<TokenView>::empty() + written_tokens(v, pretty) =~= written_tokens(v, pretty));
}

proof fn lemma_document_builds(v: JsonValue, pretty: bool)
    requires
        safe_keys(v),
    ensures
        xml_document(written_tokens(v, pretty), 0) == Ok::<XmlValue, Seq<char>>(
            core_node(v, "root"@, 0, if pretty { Some(4nat) } else { None }),
        ),
{
    let ind = if pretty {
        Some(4nat)
    } else {
        None
    };
    reveal_strlit("root");
    lemma_literal_safe("root"@);
    lemma_core_builds(v, "root"@, 0, ind);
    lemma_sanitize_clean("root"@);
    let tag = sanitize_tag("root"@);
    lemma_trim_clean(tag);
    let ts = written_tokens(v, pretty);
    let ct = core_tokens(v, "root"@, 0, ind);
    let i0: int = 1 + text_tokens(decl_break(pretty)).len() as int;
    let node = core_node(v, "root"@, 0, ind);
    reveal(build);
    assert(ts[0] == TokenView::ProcessingInstruction);
    assert(build_from(ts, 0, Seq::empty(), None) == build_from(ts, 1, Seq::empty(), None));
    if pretty {
        assert(ts[1] == TokenView::Text(seq!['\n']));
        assert(all_white_space(seq!['\n']));
        assert(build_from(ts, 1, Seq::empty(), None) == build_from(ts, 2, Seq::empty(), None));
    }
    assert(ts.subrange(i0, i0 + ct.len()) =~= ct);
    assert(xml_tokens_at(ts, i0, ct));
    let e0 = XmlValue::Element { name: tag, attributes: Seq::empty(), children: Seq::empty() };
    if v is Null {
        assert(ts[i0] == TokenView::TagOpen(tag));
        assert(ts[i0 + 1] == TokenView::TagSelfClose);
        assert(build_from(ts, i0, Seq::empty(), None) == build_from(ts, i0 + 1, seq![e0], None));
        assert(seq![e0].drop_last() =~= Seq::<XmlValue>::empty());
        assert(content_nodes(v, 0, ind) =~= Seq::<XmlValue>::empty());
        assert(build_from(ts, i0 + 1, seq![e0], None) == build_from(ts, i0 + 2, Seq::empty(), Some(node)));
        assert(ts.len() == i0 + 2);
    } else {
        let inner = content_tokens(v, 0, ind);
        let kids = content_nodes(v, 0, ind);
        lemma_xml_tokens_at_split(ts, i0, seq![TokenView::TagOpen(tag)] + inner, seq![TokenView::TagClose(tag)]);
        lemma_xml_tokens_at_split(ts, i0, seq![TokenView::TagOpen(tag)], inner);
        lemma_xml_tokens_at_index(ts, i0, seq![TokenView::TagOpen(tag)], 0);
        lemma_xml_tokens_at_index(ts, i0 + 1 + inner.len(), seq![TokenView::TagClose(tag)], 0);
        assert(build_from(ts, i0, Seq::empty(), None) == build_from(ts, i0 + 1, seq![e0], None));
        reveal(builds_as);
        let st1 = seq![e0];
        assert(build(ts, i0 + 1, st1, None) == build(ts, i0 + 1 + inner.len(), add_children(st1, kids), None));
        lemma_add_children_shape(st1, kids);
        let st2 = add_children(st1, kids);
        assert(st2.drop_last() =~= Seq::<XmlValue>::empty());
        assert(st2.last() == node) by {
            assert(Seq::<XmlValue>::empty() + kids =~= kids);
        }
        assert(close_element(st2, None) == (Seq::<XmlValue>::empty(), Some(node)));
        assert(build_from(ts, i0 + 1 + inner.len(), st2, None) == build_from(ts, i0 + 2 + inner.len(), Seq::empty(), Some(node)));
        assert(ts.len() == i0 + 2 + inner.len());
    }
}

/// Feeding the XML that the JSON to XML conversion writes to the XML to
/// JSON conversion: the XML reads back as the element tree of the JSON
/// value (see [`core_node`]; in pretty mode with the white space between
/// elements as text), and the result is the JSON written for that tree.
/// This holds when the keys keep no character that the XML reader treats
/// specially in a name (see [`safe_key`]).
pub proof fn lemma_written_xml_converts_back(s: Seq<char>, pretty: bool, indent: nat)
    requires
        crate::json_to_xml::json_to_xml(s, pretty) is Ok,
        safe_keys(json_root(s)->Some_0),
    ensures
        json_root(s) is Some,
        xml_root(crate::json_to_xml::json_to_xml(s, pretty)->Ok_0) == Some(
            core_node(json_root(s)->Some_0, "root"@, 0, if pretty { Some(4nat) } else { None }),
        ),
        xml_to_json(crate::json_to_xml::json_to_xml(s, pretty)->Ok_0, indent) == json_document(
            core_node(json_root(s)->Some_0, "root"@, 0, if pretty { Some(4nat) } else { None }),
            indent,
        ),
{
    let v = json_root(s)->Some_0;
    let out = crate::json_to_xml::json_to_xml(s, pretty)->Ok_0;
    lemma_document_numbers(s);
    lemma_document_lexes(v, pretty);
    lemma_document_builds(v, pretty);
    reveal_strlit("<?xml version=\"1.0\" encoding=\"UTF-8\"?>");
    assert(out[0] == '<');
    assert(strip_bom(out) == out);
}

} // verus!
