//! The XML token and tree types, and the printing of a tree as JSON.

use vstd::prelude::*;
use crate::text::{
    all_white_space, chars_all_whitespace, chars_eq, chars_to_string, hex4_upper, push_chars,
    push_hex4, push_spaces, push_str, spaces, str_to_chars,
};

verus! {

/// Nesting limit of elements when printing.
pub const MAX_DEPTH: usize = 512;

/// An XML token.
#[derive(Debug, PartialEq, Eq)]
pub enum Token {
    /// `<name`
    TagOpen(String),
    /// `</name>`
    TagClose(String),
    /// An attribute: its full name and its entity-decoded value.
    Attr(String, String),
    /// `/>`
    TagSelfClose,
    /// `<?...?>`
    ProcessingInstruction,
    /// Text content (entity-decoded) or the content of a CDATA section.
    Text(String),
}

/// The mathematical form of a [`Token`].
pub enum TokenView {
    TagOpen(Seq<char>),
    TagClose(Seq<char>),
    Attr(Seq<char>, Seq<char>),
    TagSelfClose,
    ProcessingInstruction,
    Text(Seq<char>),
}

impl View for Token {
    type V = TokenView;

    open spec fn view(&self) -> TokenView {
        match self {
            Token::TagOpen(n) => TokenView::TagOpen(n@),
            Token::TagClose(n) => TokenView::TagClose(n@),
            Token::Attr(k, v) => TokenView::Attr(k@, v@),
            Token::TagSelfClose => TokenView::TagSelfClose,
            Token::ProcessingInstruction => TokenView::ProcessingInstruction,
            Token::Text(t) => TokenView::Text(t@),
        }
    }
}

/// The views of a sequence of tokens.
pub open spec fn tokens_view(ts: Seq<Token>) -> Seq<TokenView> {
    ts.map_values(|t: Token| t@)
}

/// An XML element or text node.
#[derive(Debug)]
pub enum XmlNode {
    Element { name: String, attributes: Vec<(String, String)>, children: Vec<XmlNode> },
    Text(String),
}

/// The mathematical form of an [`XmlNode`].
pub enum XmlValue {
    Element {
        name: Seq<char>,
        attributes: Seq<(Seq<char>, Seq<char>)>,
        children: Seq<XmlValue>,
    },
    Text(Seq<char>),
}

/// The views of the attributes of an element.
pub open spec fn attributes_view(a: Seq<(String, String)>) -> Seq<(Seq<char>, Seq<char>)> {
    Seq::new(a.len(), |i: int| (a[i].0@, a[i].1@))
}

/// The mathematical form of an [`XmlNode`].
pub open spec fn xml_value(n: XmlNode) -> XmlValue
    decreases n,
{
    match n {
        XmlNode::Element { name, attributes, children } => XmlValue::Element {
            name: name@,
            attributes: attributes_view(attributes@),
            children: Seq::new(
                children@.len(),
                |i: int|
                    if 0 <= i < children@.len() {
                        xml_value(children@[i])
                    } else {
                        XmlValue::Text(Seq::empty())
                    },
            ),
        },
        XmlNode::Text(t) => XmlValue::Text(t@),
    }
}

impl View for XmlNode {
    type V = XmlValue;

    open spec fn view(&self) -> XmlValue {
        xml_value(*self)
    }
}

/// The views of a sequence of nodes.
pub open spec fn nodes_view(c: Seq<XmlNode>) -> Seq<XmlValue> {
    Seq::new(c.len(), |i: int| xml_value(c[i]))
}

pub proof fn lemma_element_view(name: String, attributes: Vec<(String, String)>, children: Vec<XmlNode>)
    ensures
        xml_value(XmlNode::Element { name, attributes, children }) == (XmlValue::Element {
            name: name@,
            attributes: attributes_view(attributes@),
            children: nodes_view(children@),
        }),
{
    assert(xml_value(XmlNode::Element { name, attributes, children })->children =~= nodes_view(children@));
}

// ---------------------------------------------------------------------------
// JSON strings
// ---------------------------------------------------------------------------

/// How the character `c` is written inside a JSON string.
pub open spec fn json_char(c: char) -> Seq<char> {
    if c == '\\' {
        seq!['\\', '\\']
    } else if c == '"' {
        seq!['\\', '"']
    } else if c == '\n' {
        seq!['\\', 'n']
    } else if c == '\r' {
        seq!['\\', 'r']
    } else if c == '\t' {
        seq!['\\', 't']
    } else if (c as u32) < 0x20 {
        seq!['\\', 'u'] + hex4_upper(c as u32 as nat)
    } else {
        seq![c]
    }
}

/// The first `n` characters of `s` written inside a JSON string.
pub open spec fn escape_json_prefix(s: Seq<char>, n: int) -> Seq<char>
    decreases n,
{
    if n <= 0 || n > s.len() {
        Seq::empty()
    } else {
        escape_json_prefix(s, n - 1) + json_char(s[n - 1])
    }
}

/// `s` written inside a JSON string.
pub open spec fn escape_json(s: Seq<char>) -> Seq<char> {
    escape_json_prefix(s, s.len() as int)
}

/// `s` as a JSON string, quotes included.
pub open spec fn json_string(s: Seq<char>) -> Seq<char> {
    seq!['"'] + escape_json(s) + seq!['"']
}

/// Appends `s` written inside a JSON string (see [`escape_json`]).
pub fn escape_json_text(s: &[char], out: &mut Vec<char>)
    ensures
        final(out)@ == old(out)@ + escape_json(s@),
{
    let ghost o0 = out@;
    let mut i: usize = 0;
    while i < s.len()
        invariant
            i <= s.len(),
            out@ == o0 + escape_json_prefix(s@, i as int),
        decreases s.len() - i,
    {
        let c = s[i];
        let ghost before = out@;
        if c == '\\' {
            out.push('\\');
            out.push('\\');
        } else if c == '"' {
            out.push('\\');
            out.push('"');
        } else if c == '\n' {
            out.push('\\');
            out.push('n');
        } else if c == '\r' {
            out.push('\\');
            out.push('r');
        } else if c == '\t' {
            out.push('\\');
            out.push('t');
        } else if (c as u32) < 0x20 {
            out.push('\\');
            out.push('u');
            push_hex4(out, c as u32);
        } else {
            out.push(c);
        }
        assert(out@ =~= before + json_char(s@[i as int]));
        i = i + 1;
    }
}

/// Appends `s` as a JSON string, quotes included.
fn push_json_string(s: &[char], out: &mut Vec<char>)
    ensures
        final(out)@ == old(out)@ + json_string(s@),
{
    let ghost o0 = out@;
    out.push('"');
    escape_json_text(s, out);
    out.push('"');
    assert(out@ =~= o0 + json_string(s@));
}

// ---------------------------------------------------------------------------
// Sequences of strings
// ---------------------------------------------------------------------------

/// The first `n` strings of `parts`, with `sep` between them.
pub open spec fn join(parts: Seq<Seq<char>>, sep: Seq<char>, n: int) -> Seq<char>
    decreases n,
{
    if n <= 0 || n > parts.len() {
        Seq::empty()
    } else if n == 1 {
        parts[0]
    } else {
        join(parts, sep, n - 1) + sep + parts[n - 1]
    }
}

/// All strings of `parts`, with `sep` between them.
pub open spec fn join_all(parts: Seq<Seq<char>>, sep: Seq<char>) -> Seq<char> {
    join(parts, sep, parts.len() as int)
}

/// Appends the strings of `parts` with `sep` between them.
fn push_joined(parts: &Vec<Vec<char>>, sep: &[char], out: &mut Vec<char>)
    ensures
        final(out)@ == old(out)@ + join_all(strings_view(parts@), sep@),
{
    let ghost pv = strings_view(parts@);
    let ghost o0 = out@;
    let mut i: usize = 0;
    while i < parts.len()
        invariant
            i <= parts@.len(),
            pv == strings_view(parts@),
            out@ == o0 + join(pv, sep@, i as int),
        decreases parts@.len() - i,
    {
        if i > 0 {
            push_chars(out, sep);
        }
        push_chars(out, &parts[i]);
        assert(out@ =~= o0 + join(pv, sep@, i + 1));
        i = i + 1;
    }
}

/// The views of a sequence of character vectors.
pub open spec fn strings_view(v: Seq<Vec<char>>) -> Seq<Seq<char>> {
    Seq::new(v.len(), |i: int| v[i]@)
}

// ---------------------------------------------------------------------------
// Grouping children
// ---------------------------------------------------------------------------

/// The distinct names of the element children among the first `n`, in the
/// order of their first appearance.
pub open spec fn group_names(ch: Seq<XmlValue>, n: int) -> Seq<Seq<char>>
    decreases n,
{
    if n <= 0 || n > ch.len() {
        Seq::empty()
    } else {
        let g = group_names(ch, n - 1);
        match ch[n - 1] {
            XmlValue::Element { name, .. } => if g.contains(name) {
                g
            } else {
                g.push(name)
            },
            XmlValue::Text(_) => g,
        }
    }
}

/// The indices of the element children named `name` among the first `n`.
pub open spec fn group_members(ch: Seq<XmlValue>, name: Seq<char>, n: int) -> Seq<int>
    decreases n,
{
    if n <= 0 || n > ch.len() {
        Seq::empty()
    } else {
        let g = group_members(ch, name, n - 1);
        match ch[n - 1] {
            XmlValue::Element { name: m, .. } => if m == name {
                g.push(n - 1)
            } else {
                g
            },
            XmlValue::Text(_) => g,
        }
    }
}

/// The text children among the first `n`, in order.
pub open spec fn text_children(ch: Seq<XmlValue>, n: int) -> Seq<Seq<char>>
    decreases n,
{
    if n <= 0 || n > ch.len() {
        Seq::empty()
    } else {
        let t = text_children(ch, n - 1);
        match ch[n - 1] {
            XmlValue::Text(s) => t.push(s),
            XmlValue::Element { .. } => t,
        }
    }
}

/// The first `n` texts of `texts` that are not white space only.
pub open spec fn non_blank(texts: Seq<Seq<char>>, n: int) -> Seq<Seq<char>>
    decreases n,
{
    if n <= 0 || n > texts.len() {
        Seq::empty()
    } else if all_white_space(texts[n - 1]) {
        non_blank(texts, n - 1)
    } else {
        non_blank(texts, n - 1).push(texts[n - 1])
    }
}

// ---------------------------------------------------------------------------
// Printing an element as JSON
// ---------------------------------------------------------------------------

/// The JSON of the element children among the first `n` of `ch`, one level
/// below `depth` (an empty string stands for a text child); `None` when the
/// nesting limit, counted from level `base`, is reached.
pub open spec fn children_json(ch: Seq<XmlValue>, n: int, base: nat, depth: nat, indent: Option<nat>) -> Option<
    Seq<Seq<char>>,
>
    decreases ch, n,
{
    if n <= 0 || n > ch.len() {
        Some(Seq::empty())
    } else {
        match children_json(ch, n - 1, base, depth, indent) {
            None => None,
            Some(prev) => match ch[n - 1] {
                XmlValue::Element { .. } => match json_of(ch[n - 1], base, depth + 1, indent) {
                    Some(j) => Some(prev.push(j)),
                    None => None,
                },
                XmlValue::Text(_) => Some(prev.push(Seq::empty())),
            },
        }
    }
}

/// The JSON for `v` nested `depth` deep (`indent` is the width of one level
/// in pretty mode): a text node is a string; an element is an object with
/// its attributes as `@name` members, one member per distinct child name (an
/// array when the name repeats), and its text as `#text`, or just a string
/// when it holds text only. `None` when the nesting limit is reached: when
/// `v` stands `MAX_DEPTH` or more levels below `base`, the level of the node
/// printed first. The limit counts nesting only, whatever the layout.
pub open spec fn json_of(v: XmlValue, base: nat, depth: nat, indent: Option<nat>) -> Option<Seq<char>>
    decreases v, 0int,
{
    if depth >= base + MAX_DEPTH {
        None
    } else {
        match v {
            XmlValue::Text(s) => Some(json_string(s)),
            XmlValue::Element { name, attributes, children } => match children_json(
                children,
                children.len() as int,
                base,
                depth,
                indent,
            ) {
                None => None,
                Some(cj) => Some(element_json(attributes, children, cj, depth, indent)),
            },
        }
    }
}

/// The member for attribute `a`: `"@name": "value"`.
pub open spec fn attribute_part(a: (Seq<char>, Seq<char>)) -> Seq<char> {
    seq!['"', '@'] + a.0 + seq!['"', ':', ' '] + json_string(a.1)
}

/// The members for the first `n` attributes.
pub open spec fn attribute_parts(attrs: Seq<(Seq<char>, Seq<char>)>, n: int) -> Seq<Seq<char>>
    decreases n,
{
    if n <= 0 || n > attrs.len() {
        Seq::empty()
    } else {
        attribute_parts(attrs, n - 1).push(attribute_part(attrs[n - 1]))
    }
}

/// The array of the JSON strings `items`, one level below `depth`.
pub open spec fn json_array(items: Seq<Seq<char>>, depth: nat, indent: Option<nat>) -> Seq<char> {
    match indent {
        Some(sz) => {
            let item_pad = spaces((depth + 2) * sz);
            seq!['[', '\n'] + item_pad + join_all(items, seq![',', '\n'] + item_pad) + seq!['\n']
                + spaces((depth + 1) * sz) + seq![']']
        },
        None => seq!['['] + join_all(items, seq![',', ' ']) + seq![']'],
    }
}

/// The member for the children named `name` at indices `idx`, whose JSON is
/// in `cj`.
pub open spec fn group_part(
    name: Seq<char>,
    idx: Seq<int>,
    cj: Seq<Seq<char>>,
    depth: nat,
    indent: Option<nat>,
) -> Seq<char> {
    let key = seq!['"'] + name + seq!['"', ':', ' '];
    if idx.len() > 1 {
        key + json_array(Seq::new(idx.len(), |k: int| cj[idx[k]]), depth, indent)
    } else {
        key + cj[idx[0]]
    }
}

/// The members for the first `n` child names of `ch`.
pub open spec fn group_parts(
    ch: Seq<XmlValue>,
    cj: Seq<Seq<char>>,
    n: int,
    depth: nat,
    indent: Option<nat>,
) -> Seq<Seq<char>>
    decreases n,
{
    let names = group_names(ch, ch.len() as int);
    if n <= 0 || n > names.len() {
        Seq::empty()
    } else {
        group_parts(ch, cj, n - 1, depth, indent).push(
            group_part(
                names[n - 1],
                group_members(ch, names[n - 1], ch.len() as int),
                cj,
                depth,
                indent,
            ),
        )
    }
}

/// The lines of an indented object for the first `n` members `parts`.
pub open spec fn pretty_members(parts: Seq<Seq<char>>, n: int, pad: Seq<char>) -> Seq<char>
    decreases n,
{
    if n <= 0 || n > parts.len() {
        Seq::empty()
    } else {
        pretty_members(parts, n - 1, pad) + pad + parts[n - 1] + (if n < parts.len() {
            seq![',']
        } else {
            Seq::empty()
        }) + seq!['\n']
    }
}

/// An object with the members `parts`, nested `depth` deep.
pub open spec fn json_object(parts: Seq<Seq<char>>, depth: nat, indent: Option<nat>) -> Seq<char> {
    match indent {
        Some(sz) => seq!['{', '\n'] + pretty_members(
            parts,
            parts.len() as int,
            spaces((depth + 1) * sz),
        ) + spaces(depth * sz) + seq!['}'],
        None => if parts.len() == 0 {
            seq!['{', '}']
        } else {
            seq!['{', ' '] + join_all(parts, seq![',', ' ']) + seq![' ', '}']
        },
    }
}

/// The text of an element: all its text children when it has no element
/// child, else those that are not white space only.
pub open spec fn element_texts(ch: Seq<XmlValue>) -> Seq<Seq<char>> {
    let texts = text_children(ch, ch.len() as int);
    if group_names(ch, ch.len() as int).len() == 0 {
        texts
    } else {
        non_blank(texts, texts.len() as int)
    }
}

/// The JSON for an element with `attrs` and children `ch`, whose element
/// children print as `cj`.
pub open spec fn element_json(
    attrs: Seq<(Seq<char>, Seq<char>)>,
    ch: Seq<XmlValue>,
    cj: Seq<Seq<char>>,
    depth: nat,
    indent: Option<nat>,
) -> Seq<char> {
    let parts = attribute_parts(attrs, attrs.len() as int) + group_parts(
        ch,
        cj,
        group_names(ch, ch.len() as int).len() as int,
        depth,
        indent,
    );
    let texts = element_texts(ch);
    let joined = join_all(texts, Seq::empty());
    if parts.len() == 0 && texts.len() > 0 {
        json_string(joined)
    } else if texts.len() > 0 {
        json_object(
            parts.push(seq!['"', '#', 't', 'e', 'x', 't', '"', ':', ' '] + json_string(joined)),
            depth,
            indent,
        )
    } else {
        json_object(parts, depth, indent)
    }
}

// ---------------------------------------------------------------------------
// Facts about grouping
// ---------------------------------------------------------------------------

/// The views of a sequence of indices.
pub open spec fn indices_view(v: Seq<usize>) -> Seq<int> {
    Seq::new(v.len(), |i: int| v[i] as int)
}

proof fn lemma_members_of_absent(ch: Seq<XmlValue>, name: Seq<char>, n: int)
    requires
        0 <= n <= ch.len(),
        !group_names(ch, n).contains(name),
    ensures
        group_members(ch, name, n) == Seq::<int>::empty(),
    decreases n,
{
    if n > 0 {
        let g = group_names(ch, n - 1);
        assert(!g.contains(name)) by {
            if g.contains(name) {
                let k = choose|k: int| 0 <= k < g.len() && g[k] == name;
                assert(group_names(ch, n)[k] == name);
            }
        }
        lemma_members_of_absent(ch, name, n - 1);
        match ch[n - 1] {
            XmlValue::Element { name: m, .. } => {
                if m == name {
                    assert(group_names(ch, n) == g.push(name));
                    assert(group_names(ch, n)[g.len() as int] == name);
                }
            },
            XmlValue::Text(_) => {},
        }
    }
}

/// Groups the element children of `ch` by name (see [`group_names`] and
/// [`group_members`]).
fn group_children(ch: &Vec<XmlNode>) -> (r: (Vec<Vec<char>>, Vec<Vec<usize>>))
    ensures
        strings_view(r.0@) == group_names(nodes_view(ch@), ch@.len() as int),
        r.1@.len() == r.0@.len(),
        forall|g: int| 0 <= g < r.0@.len() ==> indices_view(#[trigger] r.1@[g]@) == group_members(
            nodes_view(ch@),
            r.0@[g]@,
            ch@.len() as int,
        ),
        forall|g: int| 0 <= g < r.1@.len() ==> (#[trigger] r.1@[g])@.len() >= 1,
        forall|g: int, k: int| 0 <= g < r.1@.len() && 0 <= k < r.1@[g]@.len() ==> #[trigger] r.1@[g]@[k] < ch@.len(),
{
    let ghost chv = nodes_view(ch@);
    let mut names: Vec<Vec<char>> = Vec::new();
    let mut idxs: Vec<Vec<usize>> = Vec::new();
    let mut i: usize = 0;
    assert(strings_view(names@) =~= Seq::empty());
    while i < ch.len()
        invariant
            i <= ch@.len(),
            chv == nodes_view(ch@),
            strings_view(names@) == group_names(chv, i as int),
            idxs@.len() == names@.len(),
            forall|g: int| 0 <= g < names@.len() ==> indices_view(#[trigger] idxs@[g]@) == group_members(chv, names@[g]@, i as int),
            forall|g: int| 0 <= g < idxs@.len() ==> (#[trigger] idxs@[g])@.len() >= 1,
            forall|g: int, k: int| 0 <= g < idxs@.len() && 0 <= k < idxs@[g]@.len() ==> #[trigger] idxs@[g]@[k] < i,
            forall|g1: int, g2: int| 0 <= g1 < g2 < names@.len() ==> names@[g1]@ != names@[g2]@,
        decreases ch@.len() - i,
    {
        let ghost names0 = names@;
        let ghost idxs0 = idxs@;
        assert(chv[i as int] == ch@[i as int]@);
        match &ch[i] {
            XmlNode::Element { name, attributes, children } => {
                proof {
                    lemma_element_view(*name, *attributes, *children);
                }
                let nc = str_to_chars(name.as_str());
                match find_name(&names, &nc) {
                    Some(g) => {
                        assert(strings_view(names0)[g as int] == nc@);
                        let mut v = idxs[g].clone();
                        let ghost v0 = v@;
                        v.push(i);
                        idxs.set(g, v);
                        assert forall|h: int| 0 <= h < names@.len() implies indices_view(#[trigger] idxs@[h]@) == group_members(chv, names@[h]@, i + 1) by {
                            if h == g {
                                assert(indices_view(idxs@[h]@) =~= indices_view(v0).push(i as int));
                            } else {
                                assert(idxs@[h] == idxs0[h]);
                            }
                        }
                        assert forall|h: int, k: int| 0 <= h < idxs@.len() && 0 <= k < idxs@[h]@.len() implies #[trigger] idxs@[h]@[k] < i + 1 by {
                            if h != g {
                                assert(idxs@[h] == idxs0[h]);
                            } else if k < v0.len() {
                                assert(idxs@[h]@[k] == v0[k]);
                            }
                        }
                        assert forall|h: int| 0 <= h < idxs@.len() implies (#[trigger] idxs@[h])@.len() >= 1 by {
                            if h != g {
                                assert(idxs@[h] == idxs0[h]);
                            }
                        }
                    },
                    None => {
                        assert(!group_names(chv, i as int).contains(nc@)) by {
                            if group_names(chv, i as int).contains(nc@) {
                                let k = choose|k: int| 0 <= k < group_names(chv, i as int).len() && group_names(chv, i as int)[k] == nc@;
                                assert(strings_view(names0)[k] == names0[k]@);
                            }
                        }
                        proof {
                            lemma_members_of_absent(chv, nc@, i as int);
                        }
                        let ghost ncv = nc@;
                        names.push(nc);
                        let mut v: Vec<usize> = Vec::new();
                        v.push(i);
                        idxs.push(v);
                        assert(strings_view(names@) =~= strings_view(names0).push(ncv));
                        assert forall|h: int| 0 <= h < names@.len() implies indices_view(#[trigger] idxs@[h]@) == group_members(chv, names@[h]@, i + 1) by {
                            if h < names0.len() {
                                assert(idxs@[h] == idxs0[h]);
                                assert(names@[h] == names0[h]);
                            } else {
                                assert(indices_view(idxs@[h]@) =~= seq![i as int]);
                                assert(group_members(chv, ncv, i as int) =~= Seq::<int>::empty());
                            }
                        }
                        assert forall|h: int, k: int| 0 <= h < idxs@.len() && 0 <= k < idxs@[h]@.len() implies #[trigger] idxs@[h]@[k] < i + 1 by {
                            if h < idxs0.len() {
                                assert(idxs@[h] == idxs0[h]);
                            }
                        }
                        assert forall|h: int| 0 <= h < idxs@.len() implies (#[trigger] idxs@[h])@.len() >= 1 by {
                            if h < idxs0.len() {
                                assert(idxs@[h] == idxs0[h]);
                            }
                        }
                        assert forall|g1: int, g2: int| 0 <= g1 < g2 < names@.len() implies names@[g1]@ != names@[g2]@ by {
                            if g2 < names0.len() {
                                assert(names@[g1] == names0[g1]);
                                assert(names@[g2] == names0[g2]);
                            } else {
                                assert(names@[g1] == names0[g1]);
                            }
                        }
                    },
                }
            },
            XmlNode::Text(_) => {},
        }
        i = i + 1;
    }
    (names, idxs)
}

/// The index of `name` in `names`, if it is there.
fn find_name(names: &Vec<Vec<char>>, name: &[char]) -> (r: Option<usize>)
    ensures
        r matches Some(i) ==> i < names@.len() && names@[i as int]@ == name@,
        r is None ==> forall|i: int| 0 <= i < names@.len() ==> names@[i]@ != name@,
{
    let mut i: usize = 0;
    while i < names.len()
        invariant
            i <= names@.len(),
            forall|j: int| 0 <= j < i ==> names@[j]@ != name@,
        decreases names.len() - i,
    {
        if chars_eq(&names[i], name) {
            return Some(i);
        }
        i = i + 1;
    }
    None
}

// ---------------------------------------------------------------------------
// Printing an element as JSON: the pieces
// ---------------------------------------------------------------------------

/// The width of one level, in pretty mode.
pub open spec fn indent_width(indent: Option<usize>) -> Option<nat> {
    match indent {
        Some(sz) => Some(sz as nat),
        None => None,
    }
}

/// Every level that printing from level `base` can reach before the nesting
/// limit, and its padding, fit in a `usize`.
pub open spec fn indent_fits(base: nat, indent: Option<usize>) -> bool {
    &&& base + MAX_DEPTH + 1 <= usize::MAX
    &&& indent matches Some(sz) ==> sz * (base + MAX_DEPTH + 1) <= usize::MAX
}

/// The levels and paddings of an object or array at level `depth` fit in a
/// `usize`.
pub open spec fn pads_fit(depth: nat, indent: Option<usize>) -> bool {
    &&& depth + 2 <= usize::MAX
    &&& indent matches Some(sz) ==> sz * (depth + 2) <= usize::MAX
}

fn pad_len(level: usize, top: usize, sz: usize) -> (r: usize)
    requires
        level <= top,
        sz * top <= usize::MAX,
    ensures
        r == level * sz,
{
    assert(level * sz <= sz * top) by (nonlinear_arith)
        requires
            level <= top,
    ;
    level * sz
}

fn attribute_parts_of(attrs: &Vec<(String, String)>) -> (r: Vec<Vec<char>>)
    ensures
        strings_view(r@) == attribute_parts(attributes_view(attrs@), attrs@.len() as int),
{
    let ghost av = attributes_view(attrs@);
    let mut parts: Vec<Vec<char>> = Vec::new();
    let mut i: usize = 0;
    assert(strings_view(parts@) =~= Seq::empty());
    while i < attrs.len()
        invariant
            i <= attrs@.len(),
            av == attributes_view(attrs@),
            strings_view(parts@) == attribute_parts(av, i as int),
        decreases attrs@.len() - i,
    {
        let mut part: Vec<char> = Vec::new();
        part.push('"');
        part.push('@');
        push_str(&mut part, attrs[i].0.as_str());
        part.push('"');
        part.push(':');
        part.push(' ');
        let v = str_to_chars(attrs[i].1.as_str());
        push_json_string(&v, &mut part);
        assert(part@ =~= attribute_part(av[i as int]));
        let ghost p0 = strings_view(parts@);
        let ghost pv = part@;
        parts.push(part);
        assert(strings_view(parts@) =~= p0.push(pv));
        i = i + 1;
    }
    parts
}

/// The text of the element with children `ch` (see [`element_texts`]);
/// `has_groups` tells whether it has an element child.
fn texts_of(ch: &Vec<XmlNode>, has_groups: bool) -> (r: Vec<Vec<char>>)
    requires
        has_groups == (group_names(nodes_view(ch@), ch@.len() as int).len() > 0),
    ensures
        strings_view(r@) == element_texts(nodes_view(ch@)),
{
    let ghost chv = nodes_view(ch@);
    let mut texts: Vec<Vec<char>> = Vec::new();
    let mut i: usize = 0;
    assert(strings_view(texts@) =~= Seq::empty());
    while i < ch.len()
        invariant
            i <= ch@.len(),
            chv == nodes_view(ch@),
            strings_view(texts@) == text_children(chv, i as int),
        decreases ch@.len() - i,
    {
        assert(chv[i as int] == ch@[i as int]@);
        match &ch[i] {
            XmlNode::Text(t) => {
                let tc = str_to_chars(t.as_str());
                let ghost t0 = strings_view(texts@);
                let ghost tv = tc@;
                texts.push(tc);
                assert(strings_view(texts@) =~= t0.push(tv));
            },
            XmlNode::Element { name, attributes, children } => {
                proof {
                    lemma_element_view(*name, *attributes, *children);
                }
            },
        }
        i = i + 1;
    }
    if !has_groups {
        return texts;
    }
    let ghost all = strings_view(texts@);
    let mut kept: Vec<Vec<char>> = Vec::new();
    let mut j: usize = 0;
    assert(strings_view(kept@) =~= Seq::empty());
    while j < texts.len()
        invariant
            j <= texts@.len(),
            all == strings_view(texts@),
            strings_view(kept@) == non_blank(all, j as int),
        decreases texts@.len() - j,
    {
        if !chars_all_whitespace(&texts[j]) {
            let ghost k0 = strings_view(kept@);
            let t = texts[j].clone();
            let ghost tv = t@;
            kept.push(t);
            assert(strings_view(kept@) =~= k0.push(tv));
        }
        j = j + 1;
    }
    kept
}

/// Appends the array of the JSON strings `items`.
fn push_json_array(items: &Vec<Vec<char>>, depth: usize, indent: Option<usize>, out: &mut Vec<char>)
    requires
        pads_fit(depth as nat, indent),
    ensures
        final(out)@ == old(out)@ + json_array(strings_view(items@), depth as nat, indent_width(indent)),
{
    let ghost o0 = out@;
    match indent {
        Some(sz) => {
            let item_pad = pad_len(depth + 2, depth + 2, sz);
            out.push('[');
            out.push('\n');
            push_spaces(out, item_pad);
            let mut sep: Vec<char> = Vec::new();
            sep.push(',');
            sep.push('\n');
            push_spaces(&mut sep, item_pad);
            push_joined(items, &sep, out);
            out.push('\n');
            push_spaces(out, pad_len(depth + 1, depth + 2, sz));
            out.push(']');
            assert(sep@ =~= seq![',', '\n'] + spaces(((depth + 2) * sz) as nat));
            assert(out@ =~= o0 + json_array(strings_view(items@), depth as nat, indent_width(indent)));
        },
        None => {
            out.push('[');
            let mut sep: Vec<char> = Vec::new();
            sep.push(',');
            sep.push(' ');
            push_joined(items, &sep, out);
            out.push(']');
            assert(sep@ =~= seq![',', ' ']);
            assert(out@ =~= o0 + json_array(strings_view(items@), depth as nat, indent_width(indent)));
        },
    }
}

/// The members for the child groups `names`/`idxs` of `ch`, whose element
/// children print as `cj` (see [`group_parts`]).
fn group_parts_of(
    ch: Ghost<Seq<XmlValue>>,
    names: &Vec<Vec<char>>,
    idxs: &Vec<Vec<usize>>,
    cj: &Vec<Vec<char>>,
    depth: usize,
    indent: Option<usize>,
) -> (r: Vec<Vec<char>>)
    requires
        pads_fit(depth as nat, indent),
        strings_view(names@) == group_names(ch@, ch@.len() as int),
        idxs@.len() == names@.len(),
        forall|g: int| 0 <= g < names@.len() ==> indices_view(#[trigger] idxs@[g]@) == group_members(ch@, names@[g]@, ch@.len() as int),
        forall|g: int| 0 <= g < idxs@.len() ==> (#[trigger] idxs@[g])@.len() >= 1,
        forall|g: int, k: int| 0 <= g < idxs@.len() && 0 <= k < idxs@[g]@.len() ==> #[trigger] idxs@[g]@[k] < cj@.len(),
    ensures
        strings_view(r@) == group_parts(ch@, strings_view(cj@), names@.len() as int, depth as nat, indent_width(indent)),
{
    let ghost cjv = strings_view(cj@);
    let ghost ind = indent_width(indent);
    let mut parts: Vec<Vec<char>> = Vec::new();
    let mut g: usize = 0;
    assert(strings_view(parts@) =~= Seq::empty());
    while g < names.len()
        invariant
            g <= names@.len(),
            pads_fit(depth as nat, indent),
            cjv == strings_view(cj@),
            ind == indent_width(indent),
            strings_view(names@) == group_names(ch@, ch@.len() as int),
            idxs@.len() == names@.len(),
            forall|g: int| 0 <= g < names@.len() ==> indices_view(#[trigger] idxs@[g]@) == group_members(ch@, names@[g]@, ch@.len() as int),
            forall|g: int| 0 <= g < idxs@.len() ==> (#[trigger] idxs@[g])@.len() >= 1,
            forall|g: int, k: int| 0 <= g < idxs@.len() && 0 <= k < idxs@[g]@.len() ==> #[trigger] idxs@[g]@[k] < cj@.len(),
            strings_view(parts@) == group_parts(ch@, cjv, g as int, depth as nat, ind),
        decreases names@.len() - g,
    {
        let ghost name = names@[g as int]@;
        let ghost members = group_members(ch@, name, ch@.len() as int);
        assert(strings_view(names@)[g as int] == name);
        let idx = &idxs[g];
        assert(indices_view(idx@) == members);
        let mut part: Vec<char> = Vec::new();
        part.push('"');
        push_chars(&mut part, &names[g]);
        part.push('"');
        part.push(':');
        part.push(' ');
        if idx.len() > 1 {
            let mut items: Vec<Vec<char>> = Vec::new();
            let mut k: usize = 0;
            while k < idx.len()
                invariant
                    k <= idx@.len(),
                    forall|j: int| 0 <= j < idx@.len() ==> #[trigger] idx@[j] < cj@.len(),
                    cjv == strings_view(cj@),
                    items@.len() == k,
                    forall|j: int| 0 <= j < k ==> (#[trigger] items@[j])@ == cjv[idx@[j] as int],
                decreases idx@.len() - k,
            {
                assert(idx@[k as int] < cj@.len());
                items.push(cj[idx[k]].clone());
                k = k + 1;
            }
            assert(strings_view(items@) =~= Seq::new(members.len(), |k: int| cjv[members[k]]));
            push_json_array(&items, depth, indent, &mut part);
        } else {
            assert(idx@[0] < cj@.len());
            push_chars(&mut part, &cj[idx[0]]);
        }
        assert(part@ =~= group_part(name, members, cjv, depth as nat, ind));
        let ghost p0 = strings_view(parts@);
        let ghost pv = part@;
        parts.push(part);
        assert(strings_view(parts@) =~= p0.push(pv));
        g = g + 1;
    }
    parts
}

/// Appends the object with the members `parts`, nested `depth` deep.
fn push_json_object(parts: &Vec<Vec<char>>, depth: usize, indent: Option<usize>, out: &mut Vec<char>)
    requires
        pads_fit(depth as nat, indent),
    ensures
        final(out)@ == old(out)@ + json_object(strings_view(parts@), depth as nat, indent_width(indent)),
{
    let ghost o0 = out@;
    let ghost pv = strings_view(parts@);
    match indent {
        Some(sz) => {
            let next = pad_len(depth + 1, depth + 2, sz);
            let ghost pad = spaces(next as nat);
            out.push('{');
            out.push('\n');
            let ghost o1 = out@;
            let mut i: usize = 0;
            while i < parts.len()
                invariant
                    i <= parts@.len(),
                    pv == strings_view(parts@),
                    pad == spaces(next as nat),
                    out@ == o1 + pretty_members(pv, i as int, pad),
                decreases parts@.len() - i,
            {
                push_spaces(out, next);
                push_chars(out, &parts[i]);
                if i + 1 < parts.len() {
                    out.push(',');
                }
                out.push('\n');
                assert(out@ =~= o1 + pretty_members(pv, i + 1, pad));
                i = i + 1;
            }
            push_spaces(out, pad_len(depth, depth + 2, sz));
            out.push('}');
            assert(out@ =~= o0 + json_object(pv, depth as nat, indent_width(indent)));
        },
        None => {
            if parts.len() == 0 {
                out.push('{');
                out.push('}');
            } else {
                out.push('{');
                out.push(' ');
                let mut sep: Vec<char> = Vec::new();
                sep.push(',');
                sep.push(' ');
                push_joined(parts, &sep, out);
                out.push(' ');
                out.push('}');
                assert(sep@ =~= seq![',', ' ']);
            }
            assert(out@ =~= o0 + json_object(pv, depth as nat, indent_width(indent)));
        },
    }
}

/// The JSON for an element with `attrs` and children `ch`, whose element
/// children print as `cj` (see [`element_json`]).
fn element_json_of(
    attrs: &Vec<(String, String)>,
    ch: &Vec<XmlNode>,
    cj: &Vec<Vec<char>>,
    depth: usize,
    indent: Option<usize>,
) -> (r: Vec<char>)
    requires
        pads_fit(depth as nat, indent),
        cj@.len() == ch@.len(),
    ensures
        r@ == element_json(attributes_view(attrs@), nodes_view(ch@), strings_view(cj@), depth as nat, indent_width(indent)),
{
    let ghost chv = nodes_view(ch@);
    let ghost ind = indent_width(indent);
    let mut parts = attribute_parts_of(attrs);
    let (names, idxs) = group_children(ch);
    let groups = group_parts_of(Ghost(chv), &names, &idxs, cj, depth, indent);
    let ghost ap = strings_view(parts@);
    let mut g: usize = 0;
    while g < groups.len()
        invariant
            g <= groups@.len(),
            strings_view(parts@) == ap + strings_view(groups@).take(g as int),
        decreases groups@.len() - g,
    {
        let ghost p0 = strings_view(parts@);
        let c = groups[g].clone();
        assert(c@ == groups@[g as int]@);
        parts.push(c);
        assert(strings_view(parts@) =~= p0.push(groups@[g as int]@));
        assert(strings_view(groups@).take(g + 1) =~= strings_view(groups@).take(g as int).push(groups@[g as int]@));
        assert(strings_view(parts@) =~= ap + strings_view(groups@).take(g + 1));
        g = g + 1;
    }
    assert(strings_view(groups@).take(g as int) =~= strings_view(groups@));
    assert(names@.len() == group_names(chv, chv.len() as int).len()) by {
        assert(strings_view(names@).len() == names@.len());
    }
    assert(strings_view(parts@) == attribute_parts(attributes_view(attrs@), attrs@.len() as int)
        + group_parts(chv, strings_view(cj@), group_names(chv, chv.len() as int).len() as int, depth as nat, ind));
    let texts = texts_of(ch, names.len() > 0);
    let mut joined: Vec<char> = Vec::new();
    let empty: Vec<char> = Vec::new();
    push_joined(&texts, &empty, &mut joined);
    assert(joined@ =~= join_all(strings_view(texts@), Seq::empty()));
    let ghost tv = strings_view(texts@);
    assert(tv == element_texts(chv));
    assert(joined@ == join_all(element_texts(chv), Seq::empty()));
    let mut out: Vec<char> = Vec::new();
    if parts.len() == 0 && texts.len() > 0 {
        push_json_string(&joined, &mut out);
        assert(out@ =~= json_string(joined@));
    } else if texts.len() > 0 {
        let mut part: Vec<char> = Vec::new();
        push_str(&mut part, "\"#text\": ");
        proof {
            reveal_strlit("\"#text\": ");
        }
        push_json_string(&joined, &mut part);
        let ghost p0 = strings_view(parts@);
        let ghost pv = part@;
        parts.push(part);
        assert(strings_view(parts@) =~= p0.push(pv));
        assert(pv == seq!['"', '#', 't', 'e', 'x', 't', '"', ':', ' '] + json_string(joined@));
        push_json_object(&parts, depth, indent, &mut out);
    } else {
        push_json_object(&parts, depth, indent, &mut out);
    }
    assert(out@ =~= element_json(attributes_view(attrs@), chv, strings_view(cj@), depth as nat, ind));
    out
}

// ---------------------------------------------------------------------------
// Printing a node as JSON
// ---------------------------------------------------------------------------

proof fn lemma_children_json_none(
    ch: Seq<XmlValue>,
    k: int,
    n: int,
    base: nat,
    depth: nat,
    indent: Option<nat>,
)
    requires
        0 <= k <= n <= ch.len(),
        children_json(ch, k, base, depth, indent) is None,
    ensures
        children_json(ch, n, base, depth, indent) is None,
    decreases n - k,
{
    if k < n {
        lemma_children_json_none(ch, k, n - 1, base, depth, indent);
    }
}

/// The JSON of the element children of `ch`, one level below `depth`; an
/// empty string for each text child (see [`children_json`]).
fn children_json_of(ch: &Vec<XmlNode>, base: usize, depth: usize, indent: Option<usize>) -> (r: Option<
    Vec<Vec<char>>,
>)
    requires
        base <= depth < base + MAX_DEPTH,
        indent_fits(base as nat, indent),
    ensures
        r is Some == children_json(nodes_view(ch@), ch@.len() as int, base as nat, depth as nat, indent_width(indent)) is Some,
        r matches Some(v) ==> strings_view(v@) == children_json(
            nodes_view(ch@),
            ch@.len() as int,
            base as nat,
            depth as nat,
            indent_width(indent),
        )->Some_0,
    decreases ch, 0nat,
{
    let ghost chv = nodes_view(ch@);
    let ghost ind = indent_width(indent);
    let mut cj: Vec<Vec<char>> = Vec::new();
    let mut i: usize = 0;
    assert(strings_view(cj@) =~= Seq::empty());
    while i < ch.len()
        invariant
            i <= ch@.len(),
            base <= depth < base + MAX_DEPTH,
            indent_fits(base as nat, indent),
            chv == nodes_view(ch@),
            ind == indent_width(indent),
            children_json(chv, i as int, base as nat, depth as nat, ind) is Some,
            strings_view(cj@) == children_json(chv, i as int, base as nat, depth as nat, ind)->Some_0,
        decreases ch@.len() - i,
    {
        assert(chv[i as int] == ch@[i as int]@);
        let ghost c0 = strings_view(cj@);
        match &ch[i] {
            XmlNode::Element { .. } => {
                match ch[i].to_json_impl(base, depth + 1, indent) {
                    Some(j) => {
                        let ghost jv = j@;
                        cj.push(j);
                        assert(strings_view(cj@) =~= c0.push(jv));
                    },
                    None => {
                        proof {
                            lemma_children_json_none(chv, i + 1, ch@.len() as int, base as nat, depth as nat, ind);
                        }
                        return None;
                    },
                }
            },
            XmlNode::Text(_) => {
                cj.push(Vec::new());
                assert(strings_view(cj@) =~= c0.push(Seq::empty()));
            },
        }
        i = i + 1;
    }
    Some(cj)
}

impl XmlNode {
    /// The node as compact JSON (see [`json_of`]).
    pub fn to_json(&self) -> (r: Result<String, String>)
        ensures
            match json_of(self@, 0, 0, None) {
                Some(j) => r matches Ok(s) && s@ == j,
                None => r matches Err(e) && e@ == "Nesting depth limit exceeded"@,
            },
    {
        self.to_json_string(0, None)
    }

    /// The node as JSON indented by `indent_size` spaces per level, as if it
    /// stood at level `depth`; the nesting limit counts from the node itself
    /// (see [`json_of`]).
    pub fn to_pretty_json_at(&self, depth: usize, indent_size: usize) -> (r: Result<String, String>)
        requires
            depth + MAX_DEPTH + 1 <= usize::MAX,
            indent_size * (depth + MAX_DEPTH + 1) <= usize::MAX,
        ensures
            match json_of(self@, depth as nat, depth as nat, Some(indent_size as nat)) {
                Some(j) => r matches Ok(s) && s@ == j,
                None => r matches Err(e) && e@ == "Nesting depth limit exceeded"@,
            },
    {
        self.to_json_string(depth, Some(indent_size))
    }

    fn to_json_string(&self, base: usize, indent: Option<usize>) -> (r: Result<String, String>)
        requires
            indent_fits(base as nat, indent),
        ensures
            match json_of(self@, base as nat, base as nat, indent_width(indent)) {
                Some(j) => r matches Ok(s) && s@ == j,
                None => r matches Err(e) && e@ == "Nesting depth limit exceeded"@,
            },
    {
        match self.to_json_impl(base, base, indent) {
            Some(j) => Ok(chars_to_string(&j)),
            None => {
                let m = str_to_chars("Nesting depth limit exceeded");
                Err(chars_to_string(&m))
            },
        }
    }

    /// The JSON of this node at level `depth`, printing having started at
    /// level `base`; `None` when the nesting limit is reached.
    fn to_json_impl(&self, base: usize, depth: usize, indent: Option<usize>) -> (r: Option<Vec<char>>)
        requires
            base <= depth,
            indent_fits(base as nat, indent),
        ensures
            r is Some == json_of(self@, base as nat, depth as nat, indent_width(indent)) is Some,
            r matches Some(j) ==> j@ == json_of(self@, base as nat, depth as nat, indent_width(indent))->Some_0,
        decreases self, 1nat,
    {
        if depth - base >= MAX_DEPTH {
            return None;
        }
        match self {
            XmlNode::Text(t) => {
                let tc = str_to_chars(t.as_str());
                let mut out: Vec<char> = Vec::new();
                push_json_string(&tc, &mut out);
                Some(out)
            },
            XmlNode::Element { name, attributes, children } => {
                proof {
                    lemma_element_view(*name, *attributes, *children);
                }
                let cj = match children_json_of(children, base, depth, indent) {
                    Some(cj) => cj,
                    None => {
                        return None;
                    },
                };
                proof {
                    lemma_children_json_len(
                        nodes_view(children@),
                        children@.len() as int,
                        base as nat,
                        depth as nat,
                        indent_width(indent),
                    );
                    if let Some(sz) = indent {
                        assert(sz * (depth + 2) <= sz * (base + MAX_DEPTH + 1)) by (nonlinear_arith)
                            requires
                                depth + 2 <= base + MAX_DEPTH + 1,
                        ;
                    }
                }
                Some(element_json_of(attributes, children, &cj, depth, indent))
            },
        }
    }
}

proof fn lemma_children_json_len(ch: Seq<XmlValue>, n: int, base: nat, depth: nat, indent: Option<nat>)
    requires
        0 <= n <= ch.len(),
    ensures
        children_json(ch, n, base, depth, indent) matches Some(v) ==> v.len() == n,
    decreases n,
{
    if n > 0 {
        lemma_children_json_len(ch, n - 1, base, depth, indent);
    }
}

/// Whether printing `v` reaches the nesting limit depends only on how many
/// levels below `base` it starts, not on the layout: printing it from
/// `(b1, d1)` and from `(b2, d2)` with `d1 - b1 == d2 - b2` both succeed or
/// both fail.
pub proof fn lemma_json_of_limit(
    v: XmlValue,
    b1: nat,
    d1: nat,
    i1: Option<nat>,
    b2: nat,
    d2: nat,
    i2: Option<nat>,
)
    requires
        d1 + b2 == d2 + b1,
    ensures
        (json_of(v, b1, d1, i1) is Some) == (json_of(v, b2, d2, i2) is Some),
    decreases v, 0int,
{
    if d1 < b1 + MAX_DEPTH {
        if let XmlValue::Element { children, .. } = v {
            lemma_children_json_limit(children, children.len() as int, b1, d1, i1, b2, d2, i2);
        }
    }
}

proof fn lemma_children_json_limit(
    ch: Seq<XmlValue>,
    n: int,
    b1: nat,
    d1: nat,
    i1: Option<nat>,
    b2: nat,
    d2: nat,
    i2: Option<nat>,
)
    requires
        d1 + b2 == d2 + b1,
    ensures
        (children_json(ch, n, b1, d1, i1) is Some) == (children_json(ch, n, b2, d2, i2) is Some),
    decreases ch, n,
{
    if 0 < n <= ch.len() {
        lemma_children_json_limit(ch, n - 1, b1, d1, i1, b2, d2, i2);
        if ch[n - 1] is Element {
            lemma_json_of_limit(ch[n - 1], b1, d1 + 1, i1, b2, d2 + 1, i2);
        }
    }
}

} // verus!
