//! Building an XML element tree from tokens.

use vstd::prelude::*;
use crate::text::{
    all_white_space, chars_all_whitespace, chars_eq, chars_to_string, push_chars, push_str,
    str_to_chars, trim_range, trim_white_space,
};
use crate::xml_to_json::xml_model::{
    Token, TokenView, XmlNode, XmlValue, attributes_view, lemma_element_view, nodes_view,
    tokens_view,
};

verus! {

// ---------------------------------------------------------------------------
// What parsing computes
// ---------------------------------------------------------------------------

/// The name of an element (empty for a text node).
pub open spec fn element_name(v: XmlValue) -> Seq<char> {
    match v {
        XmlValue::Element { name, .. } => name,
        XmlValue::Text(_) => Seq::empty(),
    }
}

/// `stack` with `child` added to the children of its last element.
pub open spec fn add_child(stack: Seq<XmlValue>, child: XmlValue) -> Seq<XmlValue> {
    match stack.last() {
        XmlValue::Element { name, attributes, children } => stack.update(
            stack.len() - 1,
            XmlValue::Element { name, attributes, children: children.push(child) },
        ),
        XmlValue::Text(_) => stack,
    }
}

/// `stack` with the attribute `k = v` added to its last element.
pub open spec fn add_attribute(stack: Seq<XmlValue>, k: Seq<char>, v: Seq<char>) -> Seq<XmlValue> {
    match stack.last() {
        XmlValue::Element { name, attributes, children } => stack.update(
            stack.len() - 1,
            XmlValue::Element { name, attributes: attributes.push((k, v)), children },
        ),
        XmlValue::Text(_) => stack,
    }
}

/// Closes the last open element of `stack`: it becomes the root when no
/// element is left open, else a child of the element below it. Returns the
/// new stack and root.
pub open spec fn close_element(stack: Seq<XmlValue>, root: Option<XmlValue>) -> (
    Seq<XmlValue>,
    Option<XmlValue>,
) {
    let node = stack.last();
    let rest = stack.drop_last();
    if rest.len() == 0 {
        (rest, Some(node))
    } else {
        (add_child(rest, node), root)
    }
}

/// The document built from the tokens from `i` on, with the open elements
/// `stack` (innermost last) and the root element found so far.
pub open spec fn build_from(
    ts: Seq<TokenView>,
    i: int,
    stack: Seq<XmlValue>,
    root: Option<XmlValue>,
) -> Result<XmlValue, Seq<char>>
    decreases ts.len() - i,
{
    if i < 0 || i >= ts.len() {
        if stack.len() > 0 {
            Err("Unclosed element <"@ + element_name(stack.last()) + "> at end of input"@)
        } else {
            match root {
                Some(r) => Ok(r),
                None => Err("Empty XML document"@),
            }
        }
    } else {
        match ts[i] {
            TokenView::TagOpen(n) => if stack.len() == 0 && root is Some {
                Err("Second root element <"@ + n + ">"@)
            } else {
                build_from(
                    ts,
                    i + 1,
                    stack.push(
                        XmlValue::Element {
                            name: n,
                            attributes: Seq::empty(),
                            children: Seq::empty(),
                        },
                    ),
                    root,
                )
            },
            TokenView::ProcessingInstruction => build_from(ts, i + 1, stack, root),
            TokenView::Attr(k, v) => if stack.len() > 0 {
                build_from(ts, i + 1, add_attribute(stack, k, v), root)
            } else {
                build_from(ts, i + 1, stack, root)
            },
            TokenView::Text(t) => if stack.len() > 0 {
                build_from(ts, i + 1, add_child(stack, XmlValue::Text(t)), root)
            } else if all_white_space(t) {
                build_from(ts, i + 1, stack, root)
            } else {
                Err("Text outside of the root element"@)
            },
            TokenView::TagSelfClose => if stack.len() == 0 {
                Err("Unbalanced tags"@)
            } else {
                let (st, rt) = close_element(stack, root);
                build_from(ts, i + 1, st, rt)
            },
            TokenView::TagClose(c) => if stack.len() == 0 {
                Err("Unbalanced tags"@)
            } else if element_name(stack.last()) != trim_white_space(c) {
                Err(
                    "Expected </"@ + element_name(stack.last()) + ">, found </"@
                        + trim_white_space(c) + ">"@,
                )
            } else {
                let (st, rt) = close_element(stack, root);
                build_from(ts, i + 1, st, rt)
            },
        }
    }
}

/// The element tree of the tokens from `i` on: exactly one root element,
/// with only white-space text around it.
pub open spec fn xml_document(ts: Seq<TokenView>, i: int) -> Result<XmlValue, Seq<char>> {
    build_from(ts, i, Seq::empty(), None)
}

/// Every value of `stack` is an element.
pub open spec fn all_elements(stack: Seq<XmlValue>) -> bool {
    forall|j: int| 0 <= j < stack.len() ==> (#[trigger] stack[j]) is Element
}

/// What parsing builds is an element, never a bare text node.
pub proof fn lemma_document_is_element(ts: Seq<TokenView>, i: int)
    ensures
        xml_document(ts, i) matches Ok(v) ==> v is Element,
{
    lemma_build_is_element(ts, i, Seq::empty(), None);
}

proof fn lemma_build_is_element(
    ts: Seq<TokenView>,
    i: int,
    stack: Seq<XmlValue>,
    root: Option<XmlValue>,
)
    requires
        all_elements(stack),
        root matches Some(r) ==> r is Element,
    ensures
        build_from(ts, i, stack, root) matches Ok(v) ==> v is Element,
    decreases ts.len() - i,
{
    if 0 <= i < ts.len() {
        match ts[i] {
            TokenView::TagOpen(n) => {
                let st = stack.push(
                    XmlValue::Element { name: n, attributes: Seq::empty(), children: Seq::empty() },
                );
                assert(all_elements(st)) by {
                    assert forall|j: int| 0 <= j < st.len() implies (#[trigger] st[j]) is Element by {
                        if j < stack.len() {
                            assert(st[j] == stack[j]);
                        }
                    }
                }
                lemma_build_is_element(ts, i + 1, st, root);
            },
            TokenView::ProcessingInstruction => lemma_build_is_element(ts, i + 1, stack, root),
            TokenView::Attr(k, v) => {
                if stack.len() > 0 {
                    let st = add_attribute(stack, k, v);
                    assert(all_elements(st)) by {
                        assert forall|j: int| 0 <= j < st.len() implies (#[trigger] st[j]) is Element by {
                            if j < stack.len() - 1 {
                                assert(st[j] == stack[j]);
                            }
                            assert(stack[stack.len() - 1] is Element);
                        }
                    }
                    lemma_build_is_element(ts, i + 1, st, root);
                } else {
                    lemma_build_is_element(ts, i + 1, stack, root);
                }
            },
            TokenView::Text(t) => {
                if stack.len() > 0 {
                    let st = add_child(stack, XmlValue::Text(t));
                    assert(all_elements(st)) by {
                        assert forall|j: int| 0 <= j < st.len() implies (#[trigger] st[j]) is Element by {
                            if j < stack.len() - 1 {
                                assert(st[j] == stack[j]);
                            }
                            assert(stack[stack.len() - 1] is Element);
                        }
                    }
                    lemma_build_is_element(ts, i + 1, st, root);
                } else {
                    lemma_build_is_element(ts, i + 1, stack, root);
                }
            },
            TokenView::TagSelfClose | TokenView::TagClose(_) => {
                if stack.len() > 0 {
                    let (st, rt) = close_element(stack, root);
                    assert(stack[stack.len() - 1] is Element);
                    assert(all_elements(st)) by {
                        assert forall|j: int| 0 <= j < st.len() implies (#[trigger] st[j]) is Element by {
                            assert(stack[j] is Element);
                            if j < st.len() - 1 {
                                assert(st[j] == stack[j]);
                            }
                            assert(stack[stack.len() - 2] is Element);
                        }
                    }
                    lemma_build_is_element(ts, i + 1, st, rt);
                }
            },
        }
    }
}

// ---------------------------------------------------------------------------
// The parser
// ---------------------------------------------------------------------------

/// Builds the element tree from a token sequence.
pub struct Parser {
    tokens: Vec<Token>,
    pos: usize,
}

/// The view of an optional node.
pub open spec fn optional_value(n: Option<XmlNode>) -> Option<XmlValue> {
    match n {
        Some(x) => Some(x@),
        None => None,
    }
}

fn message(s: &str) -> (r: String)
    ensures
        r@ == s@,
{
    let m = str_to_chars(s);
    chars_to_string(&m)
}

fn node_name(n: &XmlNode) -> (r: Vec<char>)
    ensures
        r@ == element_name(n@),
{
    match n {
        XmlNode::Element { name, .. } => str_to_chars(name.as_str()),
        XmlNode::Text(_) => Vec::new(),
    }
}

/// Adds `child` to the children of the last element of `stack`.
fn push_child(stack: &mut Vec<XmlNode>, child: XmlNode)
    requires
        old(stack)@.len() > 0,
    ensures
        nodes_view(final(stack)@) == add_child(nodes_view(old(stack)@), child@),
        final(stack)@.len() == old(stack)@.len(),
{
    let ghost sv = nodes_view(stack@);
    let ghost cv = child@;
    let top = stack.pop().unwrap();
    assert(nodes_view(stack@) =~= sv.drop_last());
    match top {
        XmlNode::Element { name, attributes, children } => {
            let ghost old_children = children@;
            proof {
                lemma_element_view(name, attributes, children);
            }
            let mut children = children;
            children.push(child);
            assert(nodes_view(children@) =~= nodes_view(old_children).push(cv));
            let node = XmlNode::Element { name, attributes, children };
            proof {
                lemma_element_view(node->name, node->attributes, node->children);
            }
            stack.push(node);
            assert(nodes_view(stack@) =~= add_child(sv, cv));
        },
        XmlNode::Text(t) => {
            stack.push(XmlNode::Text(t));
            assert(nodes_view(stack@) =~= add_child(sv, cv));
        },
    }
}

/// Adds the attribute `k = v` to the last element of `stack`.
fn push_attribute(stack: &mut Vec<XmlNode>, k: String, v: String)
    requires
        old(stack)@.len() > 0,
    ensures
        nodes_view(final(stack)@) == add_attribute(nodes_view(old(stack)@), k@, v@),
        final(stack)@.len() == old(stack)@.len(),
{
    let ghost sv = nodes_view(stack@);
    let ghost kv = k@;
    let ghost vv = v@;
    let top = stack.pop().unwrap();
    assert(nodes_view(stack@) =~= sv.drop_last());
    match top {
        XmlNode::Element { name, attributes, children } => {
            let ghost old_attributes = attributes@;
            proof {
                lemma_element_view(name, attributes, children);
            }
            let mut attributes = attributes;
            attributes.push((k, v));
            assert(attributes_view(attributes@) =~= attributes_view(old_attributes).push((kv, vv)));
            let node = XmlNode::Element { name, attributes, children };
            proof {
                lemma_element_view(node->name, node->attributes, node->children);
            }
            stack.push(node);
            assert(nodes_view(stack@) =~= add_attribute(sv, kv, vv));
        },
        XmlNode::Text(t) => {
            stack.push(XmlNode::Text(t));
            assert(nodes_view(stack@) =~= add_attribute(sv, kv, vv));
        },
    }
}

impl Parser {
    /// The tokens being parsed.
    pub closed spec fn tokens(self) -> Seq<TokenView> {
        tokens_view(self.tokens@)
    }

    /// The index of the next token.
    pub closed spec fn next_index(self) -> nat {
        self.pos as nat
    }

    /// A parser at the first of `tokens`.
    pub fn new(tokens: Vec<Token>) -> (r: Self)
        ensures
            r.tokens() == tokens_view(tokens@),
            r.next_index() == 0,
    {
        Parser { tokens, pos: 0 }
    }

    /// The element tree of the remaining tokens (see [`xml_document`]).
    pub fn parse(&mut self) -> (r: Result<XmlNode, String>)
        ensures
            final(self).tokens() == old(self).tokens(),
            match xml_document(old(self).tokens(), old(self).next_index() as int) {
                Ok(v) => r matches Ok(n) && n@ == v,
                Err(m) => r matches Err(e) && e@ == m,
            },
            r matches Ok(n) ==> n@ is Element,
    {
        proof {
            lemma_document_is_element(self.tokens(), self.pos as int);
        }
        let ghost ts = tokens_view(self.tokens@);
        let ghost p0 = self.pos as int;
        let mut stack: Vec<XmlNode> = Vec::new();
        let mut root: Option<XmlNode> = None;
        assert(nodes_view(stack@) =~= Seq::empty());
        while self.pos < self.tokens.len()
            invariant
                ts == tokens_view(self.tokens@),
                self.tokens == old(self).tokens,
                p0 == old(self).pos as int,
                build_from(ts, self.pos as int, nodes_view(stack@), optional_value(root))
                    == build_from(ts, p0, Seq::empty(), None),
            decreases self.tokens@.len() - self.pos,
        {
            let i = self.pos;
            self.pos = self.pos + 1;
            assert(ts[i as int] == self.tokens@[i as int]@);
            let ghost sv = nodes_view(stack@);
            match &self.tokens[i] {
                Token::TagOpen(name) => {
                    if stack.len() == 0 && root.is_some() {
                        let mut m: Vec<char> = Vec::new();
                        push_str(&mut m, "Second root element <");
                        push_str(&mut m, name.as_str());
                        push_str(&mut m, ">");
                        return Err(chars_to_string(&m));
                    }
                    let node = XmlNode::Element {
                        name: name.clone(),
                        attributes: Vec::new(),
                        children: Vec::new(),
                    };
                    proof {
                        lemma_element_view(node->name, node->attributes, node->children);
                        assert(attributes_view(node->attributes@) =~= Seq::empty());
                        assert(nodes_view(node->children@) =~= Seq::empty());
                    }
                    let ghost nv = node@;
                    stack.push(node);
                    assert(nodes_view(stack@) =~= sv.push(nv));
                },
                Token::ProcessingInstruction => {},
                Token::Attr(k, v) => {
                    if stack.len() > 0 {
                        push_attribute(&mut stack, k.clone(), v.clone());
                    }
                },
                Token::Text(t) => {
                    if stack.len() > 0 {
                        push_child(&mut stack, XmlNode::Text(t.clone()));
                    } else {
                        let tc = str_to_chars(t.as_str());
                        if !chars_all_whitespace(&tc) {
                            return Err(message("Text outside of the root element"));
                        }
                    }
                },
                Token::TagSelfClose => {
                    if stack.len() == 0 {
                        return Err(message("Unbalanced tags"));
                    }
                    let node = stack.pop().unwrap();
                    assert(nodes_view(stack@) =~= sv.drop_last());
                    if stack.len() == 0 {
                        root = Some(node);
                    } else {
                        push_child(&mut stack, node);
                    }
                },
                Token::TagClose(close_name) => {
                    if stack.len() == 0 {
                        return Err(message("Unbalanced tags"));
                    }
                    let n = stack.len();
                    let open_name = node_name(&stack[n - 1]);
                    let cc = str_to_chars(close_name.as_str());
                    let closing = trim_range(&cc, 0, cc.len());
                    assert(cc@.subrange(0, cc@.len() as int) =~= cc@);
                    if !chars_eq(&open_name, &closing) {
                        let mut m: Vec<char> = Vec::new();
                        push_str(&mut m, "Expected </");
                        push_chars(&mut m, &open_name);
                        push_str(&mut m, ">, found </");
                        push_chars(&mut m, &closing);
                        push_str(&mut m, ">");
                        return Err(chars_to_string(&m));
                    }
                    let node = stack.pop().unwrap();
                    assert(nodes_view(stack@) =~= sv.drop_last());
                    if stack.len() == 0 {
                        root = Some(node);
                    } else {
                        push_child(&mut stack, node);
                    }
                },
            }
        }
        if stack.len() > 0 {
            let n = stack.len();
            let open_name = node_name(&stack[n - 1]);
            let mut m: Vec<char> = Vec::new();
            push_str(&mut m, "Unclosed element <");
            push_chars(&mut m, &open_name);
            push_str(&mut m, "> at end of input");
            return Err(chars_to_string(&m));
        }
        match root {
            Some(r) => Ok(r),
            None => Err(message("Empty XML document")),
        }
    }
}

} // verus!
