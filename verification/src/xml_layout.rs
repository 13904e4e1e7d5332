//! The indented XML of a JSON value differs from its compact XML in layout
//! only.

use vstd::prelude::*;
use crate::json_to_xml::json_model::{
    JsonValue, elements_xml, escape_xml, escape_xml_prefix, member_tag, members_xml,
    sanitize_tag, tag_char_ok, lemma_sanitized_tag_is_valid, xml_of, xml_pad,
    xml_text_piece, xml_wrap,
};
use crate::json_to_xml::json_model::MAX_DEPTH;
use crate::json_to_xml::{xml_declaration, xml_document_of};
use crate::text::spaces;

verus! {

// ---------------------------------------------------------------------------
// Removing the layout
// ---------------------------------------------------------------------------

/// `s` without its leading spaces.
pub open spec fn drop_spaces(s: Seq<char>) -> Seq<char>
    decreases s.len(),
{
    if s.len() > 0 && s[0] == ' ' {
        drop_spaces(s.drop_first())
    } else {
        s
    }
}

/// Dropping leading spaces never lengthens a text.
pub proof fn lemma_drop_spaces_len(s: Seq<char>)
    ensures
        drop_spaces(s).len() <= s.len(),
    decreases s.len(),
{
    if s.len() > 0 && s[0] == ' ' {
        lemma_drop_spaces_len(s.drop_first());
    }
}

/// `s` with every line break deleted together with the spaces right after
/// it.
pub open spec fn strip_layout(s: Seq<char>) -> Seq<char>
    decreases s.len(),
{
    if s.len() == 0 {
        Seq::empty()
    } else if s[0] == '\n' {
        proof {
            lemma_drop_spaces_len(s.drop_first());
        }
        strip_layout(drop_spaces(s.drop_first()))
    } else {
        seq![s[0]] + strip_layout(s.drop_first())
    }
}

/// `s` is not empty and ends with neither a space nor a line break.
pub open spec fn closed_end(s: Seq<char>) -> bool {
    s.len() > 0 && s.last() != ' ' && s.last() != '\n'
}

proof fn lemma_drop_spaces_append(u: Seq<char>, y: Seq<char>)
    requires
        closed_end(u),
    ensures
        drop_spaces(u + y) == drop_spaces(u) + y,
        closed_end(drop_spaces(u)),
        drop_spaces(u).len() <= u.len(),
    decreases u.len(),
{
    if u[0] == ' ' {
        assert((u + y).drop_first() =~= u.drop_first() + y);
        lemma_drop_spaces_append(u.drop_first(), y);
    }
}

proof fn lemma_drop_spaces_spaces(k: nat, z: Seq<char>)
    requires
        z.len() == 0 || z[0] != ' ',
    ensures
        drop_spaces(spaces(k) + z) == z,
    decreases k,
{
    if k > 0 {
        assert((spaces(k) + z).drop_first() =~= spaces((k - 1) as nat) + z);
        lemma_drop_spaces_spaces((k - 1) as nat, z);
    } else {
        assert(spaces(k) + z =~= z);
    }
}

/// Removing the layout of two texts one after the other, where the first
/// does not end inside a layout run, removes it from each.
proof fn lemma_strip_append(x: Seq<char>, y: Seq<char>)
    requires
        x.len() == 0 || closed_end(x),
    ensures
        strip_layout(x + y) == strip_layout(x) + strip_layout(y),
    decreases x.len(),
{
    if x.len() == 0 {
        assert(x + y =~= y);
        assert(strip_layout(x) + strip_layout(y) =~= strip_layout(y));
    } else if x[0] == '\n' {
        let u = x.drop_first();
        assert((x + y).drop_first() =~= u + y);
        lemma_drop_spaces_append(u, y);
        lemma_strip_append(drop_spaces(u), y);
    } else {
        let u = x.drop_first();
        assert((x + y).drop_first() =~= u + y);
        if u.len() == 0 {
            assert(u + y =~= y);
            assert(strip_layout(u) =~= Seq::<char>::empty());
            assert(strip_layout(x) =~= seq![x[0]]);
        } else {
            assert(u.last() == x.last());
            lemma_strip_append(u, y);
        }
        assert(seq![x[0]] + (strip_layout(u) + strip_layout(y)) =~= (seq![x[0]] + strip_layout(u))
            + strip_layout(y));
    }
}

/// A line break and the indentation before a text that does not start with
/// a space disappear.
proof fn lemma_strip_break(k: nat, z: Seq<char>)
    requires
        z.len() == 0 || z[0] != ' ',
    ensures
        strip_layout(seq!['\n'] + spaces(k) + z) == strip_layout(z),
{
    let w = seq!['\n'] + spaces(k) + z;
    assert(w.drop_first() =~= spaces(k) + z);
    lemma_drop_spaces_spaces(k, z);
}

/// `s` holds no line break.
pub open spec fn nl_free(s: Seq<char>) -> bool {
    forall|i: int| 0 <= i < s.len() ==> s[i] != '\n'
}

/// A text without line breaks has no layout to remove.
proof fn lemma_strip_plain(x: Seq<char>)
    requires
        nl_free(x),
    ensures
        strip_layout(x) == x,
    decreases x.len(),
{
    if x.len() > 0 {
        let u = x.drop_first();
        assert(nl_free(u)) by {
            assert forall|j: int| 0 <= j < u.len() implies u[j] != '\n' by {
                assert(u[j] == x[j + 1]);
            }
        }
        lemma_strip_plain(u);
        assert(seq![x[0]] + u =~= x);
    }
}

// ---------------------------------------------------------------------------
// The XML of a value, indented and compact
// ---------------------------------------------------------------------------

/// No string or number anywhere in `v` holds a line break.
pub open spec fn no_line_breaks(v: JsonValue) -> bool
    decreases v,
{
    match v {
        JsonValue::Object(ps) => forall|i: int| 0 <= i < ps.len() ==> no_line_breaks(#[trigger] ps[i].1),
        JsonValue::Array(es) => forall|i: int| 0 <= i < es.len() ==> no_line_breaks(#[trigger] es[i]),
        JsonValue::StringVal(s) => nl_free(s),
        JsonValue::Number(n) => nl_free(n),
        _ => true,
    }
}

proof fn lemma_escape_nl_free(s: Seq<char>, n: int)
    requires
        0 <= n <= s.len(),
        nl_free(s),
    ensures
        nl_free(escape_xml_prefix(s, n)),
    decreases n,
{
    if n > 0 {
        lemma_escape_nl_free(s, n - 1);
        let prev = escape_xml_prefix(s, n - 1);
        let piece = xml_text_piece(s, n - 1);
        assert(nl_free(piece));
        assert(escape_xml_prefix(s, n) == prev + piece);
    }
}

proof fn lemma_tag_nl_free(label: Seq<char>)
    ensures
        nl_free(sanitize_tag(label)),
        sanitize_tag(label).len() > 0,
{
    lemma_sanitized_tag_is_valid(label);
    assert(!tag_char_ok('\n'));
}

/// An element's text on a line of its own, indented by `k` spaces: the
/// break and the indentation before it disappear.
proof fn lemma_line_layout(k: nat, rest: Seq<char>)
    requires
        nl_free(rest),
        rest.len() > 0,
        rest[0] == '<',
        rest.last() == '>',
    ensures
        closed_end(spaces(k) + rest),
        strip_layout(seq!['\n'] + (spaces(k) + rest)) == rest,
        k == 0 ==> strip_layout(spaces(k) + rest) == rest,
{
    lemma_strip_break(k, rest);
    lemma_strip_plain(rest);
    assert(seq!['\n'] + (spaces(k) + rest) =~= seq!['\n'] + spaces(k) + rest);
    if k == 0 {
        assert(spaces(k) + rest =~= rest);
    }
}

/// An element with content `inner`, indented by `k` spaces and closing on
/// its own line: removing the layout leaves the compact element around the
/// content with its layout removed.
proof fn lemma_wrap_layout(
    k: nat,
    tag: Seq<char>,
    inner: Seq<char>,
    inner_c: Seq<char>,
    indent: Option<nat>,
)
    requires
        indent is Some,
        nl_free(tag),
        inner.len() == 0 || closed_end(inner),
        strip_layout(inner) == inner_c,
    ensures
        closed_end(xml_wrap(spaces(k), tag, inner, indent)),
        strip_layout(seq!['\n'] + xml_wrap(spaces(k), tag, inner, indent)) == xml_wrap(
            Seq::empty(),
            tag,
            inner_c,
            None,
        ),
        k == 0 ==> strip_layout(xml_wrap(spaces(k), tag, inner, indent)) == xml_wrap(
            Seq::empty(),
            tag,
            inner_c,
            None,
        ),
{
    reveal_strlit("<");
    reveal_strlit(">");
    reveal_strlit("</");
    let pad = spaces(k);
    let open = seq!['<'] + tag + seq!['>'];
    let close = seq!['<', '/'] + tag + seq!['>'];
    let tail = seq!['\n'] + pad + close;
    let rest = open + (inner + tail);
    let p = xml_wrap(pad, tag, inner, indent);
    assert(p =~= pad + rest);
    assert(nl_free(open));
    assert(nl_free(close));
    lemma_strip_plain(open);
    lemma_strip_plain(close);
    lemma_strip_append(open, inner + tail);
    lemma_strip_break(k, close);
    if inner.len() == 0 {
        assert(inner + tail =~= tail);
        assert(inner_c =~= Seq::<char>::empty());
    } else {
        lemma_strip_append(inner, tail);
    }
    let c = xml_wrap(Seq::empty(), tag, inner_c, None);
    assert(c =~= open + (inner_c + close));
    assert(strip_layout(rest) == c);
    assert(rest[0] == '<');
    lemma_strip_break(k, rest);
    assert(seq!['\n'] + p =~= seq!['\n'] + spaces(k) + rest);
    if k == 0 {
        assert(p =~= rest);
    }
    assert(p.last() == '>');
}

/// The indented XML of `v` as element `label` at level `d` and its compact
/// XML: both exist or neither; the indented one ends with `>`, and removing
/// its layout, together with a line break before it, gives the compact one.
proof fn lemma_value_layout(v: JsonValue, label: Seq<char>, d: nat, sz: nat)
    requires
        no_line_breaks(v),
    ensures
        (xml_of(v, label, d, Some(sz)) is Some) == (xml_of(v, label, d, None) is Some),
        xml_of(v, label, d, Some(sz)) matches Some(p) ==> {
            &&& closed_end(p)
            &&& strip_layout(seq!['\n'] + p) == xml_of(v, label, d, None)->Some_0
            &&& d == 0 ==> strip_layout(p) == xml_of(v, label, d, None)->Some_0
        },
    decreases v, 0nat,
{
    if d < MAX_DEPTH {
        let tag = sanitize_tag(label);
        lemma_tag_nl_free(label);
        let k = d * sz;
        assert(xml_pad(d, Some(sz)) == spaces(k));
        assert(xml_pad(d, None) =~= Seq::<char>::empty());
        match v {
            JsonValue::Object(ps) => {
                lemma_members_layout(ps, ps.len() as int, d, sz);
                if let Some(m) = members_xml(ps, ps.len() as int, d, Some(sz)) {
                    lemma_wrap_layout(k, tag, m, members_xml(ps, ps.len() as int, d, None)->Some_0, Some(sz));
                }
            },
            JsonValue::Array(es) => {
                lemma_elements_layout(es, es.len() as int, "item"@, d, sz);
                if let Some(m) = elements_xml(es, es.len() as int, "item"@, d, Some(sz)) {
                    lemma_wrap_layout(
                        k,
                        tag,
                        m,
                        elements_xml(es, es.len() as int, "item"@, d, None)->Some_0,
                        Some(sz),
                    );
                }
            },
            _ => {
                lemma_scalar_layout(v, label, d, sz);
            },
        }
    }
}

#[verifier::spinoff_prover]
#[verifier::rlimit(40)]
proof fn lemma_scalar_layout(v: JsonValue, label: Seq<char>, d: nat, sz: nat)
    requires
        no_line_breaks(v),
        d < MAX_DEPTH,
        !(v is Object),
        !(v is Array),
    ensures
        xml_of(v, label, d, Some(sz)) is Some,
        xml_of(v, label, d, None) is Some,
        closed_end(xml_of(v, label, d, Some(sz))->Some_0),
        strip_layout(seq!['\n'] + xml_of(v, label, d, Some(sz))->Some_0) == xml_of(v, label, d, None)->Some_0,
        d == 0 ==> strip_layout(xml_of(v, label, d, Some(sz))->Some_0) == xml_of(v, label, d, None)->Some_0,
        nl_free(xml_of(v, label, d, Some(sz))->Some_0),
        xml_of(v, label, d, Some(sz))->Some_0.last() == '>',
{
    reveal_strlit("<");
    reveal_strlit(">");
    reveal_strlit("</");
    reveal_strlit(" />");
    reveal_strlit("true");
    reveal_strlit("false");
    let tag = sanitize_tag(label);
    lemma_tag_nl_free(label);
    let k = d * sz;
    assert(xml_pad(d, Some(sz)) == spaces(k));
    assert(xml_pad(d, None) =~= Seq::<char>::empty());
    let open = seq!['<'] + tag + seq!['>'];
    let close = seq!['<', '/'] + tag + seq!['>'];
    let rest = match v {
        JsonValue::StringVal(t) => open + escape_xml(t) + close,
        JsonValue::Number(t) => open + t + close,
        JsonValue::BoolVal(b) => open + (if b {
            "true"@
        } else {
            "false"@
        }) + close,
        _ => seq!['<'] + tag + seq![' ', '/', '>'],
    };
    if let JsonValue::StringVal(t) = v {
        lemma_escape_nl_free(t, t.len() as int);
    }
    assert(nl_free(rest));
    lemma_line_layout(k, rest);
    assert(xml_of(v, label, d, Some(sz))->Some_0 =~= spaces(k) + rest);
    assert(xml_of(v, label, d, None)->Some_0 =~= rest);
}

proof fn lemma_members_layout(ps: Seq<(Seq<char>, JsonValue)>, n: int, d: nat, sz: nat)
    requires
        forall|i: int| 0 <= i < ps.len() ==> no_line_breaks(#[trigger] ps[i].1),
    ensures
        (members_xml(ps, n, d, Some(sz)) is Some) == (members_xml(ps, n, d, None) is Some),
        members_xml(ps, n, d, Some(sz)) matches Some(m) ==> (m.len() == 0 || closed_end(m))
            && strip_layout(m) == members_xml(ps, n, d, None)->Some_0,
    decreases ps, n,
{
    if 0 < n <= ps.len() {
        lemma_members_layout(ps, n - 1, d, sz);
        let tag = member_tag(ps, n - 1);
        let val = ps[n - 1].1;
        assert(no_line_breaks(val));
        match val {
            JsonValue::Array(es) => {
                lemma_elements_layout(es, es.len() as int, tag, d, sz);
                if let Some(prev) = members_xml(ps, n - 1, d, Some(sz)) {
                    if let Some(e) = elements_xml(es, es.len() as int, tag, d, Some(sz)) {
                        let prev_c = members_xml(ps, n - 1, d, None)->Some_0;
                        let ec = elements_xml(es, es.len() as int, tag, d, None)->Some_0;
                        assert(members_xml(ps, n, d, Some(sz))->Some_0 == prev + e);
                        assert(members_xml(ps, n, d, None)->Some_0 == prev_c + ec);
                        lemma_strip_append(prev, e);
                        if e.len() == 0 {
                            assert(prev + e =~= prev);
                        } else {
                            assert((prev + e).last() == e.last());
                        }
                    }
                }
            },
            _ => {
                lemma_value_layout(val, tag, d + 1, sz);
                if let Some(prev) = members_xml(ps, n - 1, d, Some(sz)) {
                    if let Some(x) = xml_of(val, tag, d + 1, Some(sz)) {
                        let prev_c = members_xml(ps, n - 1, d, None)->Some_0;
                        let xc = xml_of(val, tag, d + 1, None)->Some_0;
                        assert(members_xml(ps, n, d, Some(sz))->Some_0 =~= prev + (seq!['\n'] + x));
                        assert(members_xml(ps, n, d, None)->Some_0 =~= prev_c + xc);
                        lemma_strip_append(prev, seq!['\n'] + x);
                        assert((prev + (seq!['\n'] + x)).last() == x.last());
                    }
                }
            },
        }
    }
}

proof fn lemma_elements_layout(es: Seq<JsonValue>, n: int, tag: Seq<char>, d: nat, sz: nat)
    requires
        forall|i: int| 0 <= i < es.len() ==> no_line_breaks(#[trigger] es[i]),
    ensures
        (elements_xml(es, n, tag, d, Some(sz)) is Some) == (elements_xml(es, n, tag, d, None) is Some),
        elements_xml(es, n, tag, d, Some(sz)) matches Some(m) ==> (m.len() == 0 || closed_end(m))
            && strip_layout(m) == elements_xml(es, n, tag, d, None)->Some_0,
    decreases es, n,
{
    if 0 < n <= es.len() {
        lemma_elements_layout(es, n - 1, tag, d, sz);
        lemma_value_layout(es[n - 1], tag, d + 1, sz);
        if let Some(prev) = elements_xml(es, n - 1, tag, d, Some(sz)) {
            if let Some(x) = xml_of(es[n - 1], tag, d + 1, Some(sz)) {
                let prev_c = elements_xml(es, n - 1, tag, d, None)->Some_0;
                let xc = xml_of(es[n - 1], tag, d + 1, None)->Some_0;
                assert(elements_xml(es, n, tag, d, Some(sz))->Some_0 =~= prev + (seq!['\n'] + x));
                assert(elements_xml(es, n, tag, d, None)->Some_0 =~= prev_c + xc);
                lemma_strip_append(prev, seq!['\n'] + x);
                assert((prev + (seq!['\n'] + x)).last() == x.last());
            }
        }
    }
}

// ---------------------------------------------------------------------------
// Where the line breaks stand
// ---------------------------------------------------------------------------

/// Every line break of `s` after its first character stands right after a
/// `>`.
pub open spec fn breaks_follow_gt(s: Seq<char>) -> bool {
    forall|i: int| 1 <= i < s.len() && #[trigger] s[i] == '\n' ==> s[i - 1] == '>'
}

proof fn lemma_breaks_append(a: Seq<char>, b: Seq<char>)
    requires
        breaks_follow_gt(a),
        breaks_follow_gt(b),
        a.len() > 0 && b.len() > 0 && b[0] == '\n' ==> a.last() == '>',
    ensures
        breaks_follow_gt(a + b),
{
    assert forall|i: int| 1 <= i < (a + b).len() && #[trigger] (a + b)[i] == '\n' implies (a + b)[i - 1]
        == '>' by {
        if i > a.len() {
            assert((a + b)[i] == b[i - a.len()]);
            assert((a + b)[i - 1] == b[i - 1 - a.len()]);
        } else if i == a.len() {
            assert((a + b)[i] == b[0]);
        }
    }
}

/// An element with content `inner`, indented by `k` spaces and closing on
/// its own line: each of its line breaks follows a `>`.
proof fn lemma_wrap_breaks(k: nat, tag: Seq<char>, inner: Seq<char>, indent: Option<nat>)
    requires
        indent is Some,
        nl_free(tag),
        breaks_follow_gt(inner),
        inner.len() == 0 || (inner[0] == '\n' && inner.last() == '>'),
    ensures
        breaks_follow_gt(xml_wrap(spaces(k), tag, inner, indent)),
        xml_wrap(spaces(k), tag, inner, indent)[0] != '\n',
        xml_wrap(spaces(k), tag, inner, indent).last() == '>',
{
    reveal_strlit("<");
    reveal_strlit(">");
    reveal_strlit("</");
    let pad = spaces(k);
    let open = seq!['<'] + tag + seq!['>'];
    let close = seq!['<', '/'] + tag + seq!['>'];
    let tail = seq!['\n'] + pad + close;
    let p = xml_wrap(pad, tag, inner, indent);
    assert(p =~= ((pad + open) + inner) + tail);
    assert(nl_free(pad + open));
    assert(nl_free(pad + close));
    assert(tail =~= seq!['\n'] + (pad + close));
    lemma_breaks_append(seq!['\n'], pad + close);
    lemma_breaks_append(pad + open, inner);
    lemma_breaks_append((pad + open) + inner, tail);
    assert(p[0] == (pad + open)[0]);
}

proof fn lemma_value_breaks(v: JsonValue, label: Seq<char>, d: nat, sz: nat)
    requires
        no_line_breaks(v),
    ensures
        xml_of(v, label, d, Some(sz)) matches Some(p) ==> breaks_follow_gt(p) && p[0] != '\n'
            && p.last() == '>',
    decreases v, 0nat,
{
    if d < MAX_DEPTH {
        let tag = sanitize_tag(label);
        lemma_tag_nl_free(label);
        let k = d * sz;
        assert(xml_pad(d, Some(sz)) == spaces(k));
        match v {
            JsonValue::Object(ps) => {
                lemma_members_breaks(ps, ps.len() as int, d, sz);
                if let Some(m) = members_xml(ps, ps.len() as int, d, Some(sz)) {
                    lemma_wrap_breaks(k, tag, m, Some(sz));
                }
            },
            JsonValue::Array(es) => {
                lemma_elements_breaks(es, es.len() as int, "item"@, d, sz);
                if let Some(m) = elements_xml(es, es.len() as int, "item"@, d, Some(sz)) {
                    lemma_wrap_breaks(k, tag, m, Some(sz));
                }
            },
            _ => {
                lemma_scalar_layout(v, label, d, sz);
            },
        }
    }
}

proof fn lemma_members_breaks(ps: Seq<(Seq<char>, JsonValue)>, n: int, d: nat, sz: nat)
    requires
        forall|i: int| 0 <= i < ps.len() ==> no_line_breaks(#[trigger] ps[i].1),
    ensures
        members_xml(ps, n, d, Some(sz)) matches Some(m) ==> breaks_follow_gt(m) && (m.len() == 0
            || (m[0] == '\n' && m.last() == '>')),
    decreases ps, n,
{
    if 0 < n <= ps.len() {
        lemma_members_breaks(ps, n - 1, d, sz);
        let tag = member_tag(ps, n - 1);
        let val = ps[n - 1].1;
        assert(no_line_breaks(val));
        if let Some(prev) = members_xml(ps, n - 1, d, Some(sz)) {
            match val {
                JsonValue::Array(es) => {
                    lemma_elements_breaks(es, es.len() as int, tag, d, sz);
                    if let Some(e) = elements_xml(es, es.len() as int, tag, d, Some(sz)) {
                        assert(members_xml(ps, n, d, Some(sz))->Some_0 == prev + e);
                        lemma_breaks_append(prev, e);
                        if e.len() == 0 {
                            assert(prev + e =~= prev);
                        } else if prev.len() == 0 {
                            assert(prev + e =~= e);
                        } else {
                            assert((prev + e).last() == e.last());
                            assert((prev + e)[0] == prev[0]);
                        }
                    }
                },
                _ => {
                    lemma_value_breaks(val, tag, d + 1, sz);
                    if let Some(x) = xml_of(val, tag, d + 1, Some(sz)) {
                        let piece = seq!['\n'] + x;
                        assert(members_xml(ps, n, d, Some(sz))->Some_0 =~= prev + piece);
                        lemma_breaks_append(seq!['\n'], x);
                        lemma_breaks_append(prev, piece);
                        assert((prev + piece).last() == x.last());
                        if prev.len() == 0 {
                            assert(prev + piece =~= piece);
                        } else {
                            assert((prev + piece)[0] == prev[0]);
                        }
                    }
                },
            }
        }
    }
}

proof fn lemma_elements_breaks(es: Seq<JsonValue>, n: int, tag: Seq<char>, d: nat, sz: nat)
    requires
        forall|i: int| 0 <= i < es.len() ==> no_line_breaks(#[trigger] es[i]),
    ensures
        elements_xml(es, n, tag, d, Some(sz)) matches Some(m) ==> breaks_follow_gt(m) && (m.len()
            == 0 || (m[0] == '\n' && m.last() == '>')),
    decreases es, n,
{
    if 0 < n <= es.len() {
        lemma_elements_breaks(es, n - 1, tag, d, sz);
        lemma_value_breaks(es[n - 1], tag, d + 1, sz);
        if let Some(prev) = elements_xml(es, n - 1, tag, d, Some(sz)) {
            if let Some(x) = xml_of(es[n - 1], tag, d + 1, Some(sz)) {
                let piece = seq!['\n'] + x;
                assert(elements_xml(es, n, tag, d, Some(sz))->Some_0 =~= prev + piece);
                lemma_breaks_append(seq!['\n'], x);
                lemma_breaks_append(prev, piece);
                assert((prev + piece).last() == x.last());
                if prev.len() == 0 {
                    assert(prev + piece =~= piece);
                } else {
                    assert((prev + piece)[0] == prev[0]);
                }
            }
        }
    }
}

/// Every line break of `s` stands right after a `>`.
pub open spec fn breaks_after_gt(s: Seq<char>) -> bool {
    forall|i: int| 0 <= i < s.len() && #[trigger] s[i] == '\n' ==> i > 0 && s[i - 1] == '>'
}

/// For a value whose strings and numbers hold no line break, the indented
/// XML differs from the compact XML in layout only: both are written or
/// neither; every line break of the indented text stands right after a
/// `>`; and deleting every line break of the indented text together with
/// the spaces after it gives the compact text.
pub proof fn lemma_pretty_xml_layout(v: JsonValue, label: Seq<char>, indent: nat)
    requires
        no_line_breaks(v),
    ensures
        (xml_of(v, label, 0, Some(indent)) is Some) == (xml_of(v, label, 0, None) is Some),
        xml_of(v, label, 0, Some(indent)) matches Some(p) ==> breaks_after_gt(p) && strip_layout(p)
            == xml_of(v, label, 0, None)->Some_0,
{
    lemma_value_layout(v, label, 0, indent);
    lemma_value_breaks(v, label, 0, indent);
    if let Some(p) = xml_of(v, label, 0, Some(indent)) {
        assert(p[0] != '\n');
    }
}

/// The same for the whole document: the indented document and the compact
/// one are both written or neither; every line break of the indented one
/// stands right after a `>`; and removing its layout (the break after the
/// declaration included) gives the compact one.
pub proof fn lemma_pretty_document_layout(v: JsonValue)
    requires
        no_line_breaks(v),
    ensures
        (xml_document_of(v, true) is Ok) == (xml_document_of(v, false) is Ok),
        xml_document_of(v, true) matches Ok(p) ==> breaks_after_gt(p) && strip_layout(p)
            == xml_document_of(v, false)->Ok_0,
{
    lemma_value_layout(v, "root"@, 0, 4);
    lemma_value_breaks(v, "root"@, 0, 4);
    if let Some(x) = xml_of(v, "root"@, 0, Some(4nat)) {
        let decl = xml_declaration();
        reveal_strlit("<?xml version=\"1.0\" encoding=\"UTF-8\"?>");
        assert(nl_free(decl));
        lemma_strip_plain(decl);
        let p = decl + (seq!['\n'] + x);
        assert(xml_document_of(v, true)->Ok_0 =~= p);
        lemma_strip_append(decl, seq!['\n'] + x);
        assert(xml_document_of(v, false)->Ok_0 =~= decl + Seq::<char>::empty() + xml_of(v, "root"@, 0, None)->Some_0);
        lemma_breaks_append(seq!['\n'], x);
        lemma_breaks_append(decl, seq!['\n'] + x);
        assert(decl.last() == '>');
        assert(p[0] == '<');
    }
}

} // verus!
