use vstd::prelude::*;
use crate::cursor::{
    expect_spec, in_class, is_identifier_char, lemma_run, lemma_take_end, peek_spec, take_end,
    ws_end, CharClass, Cursor, ParseError,
};
use crate::dom::{
    self, attrs_insert, keys_unique, lemma_lookup_insert, nodes_model, AttrMap, AttrsModel, Node,
    NodeModel,
};

verus! {

/// `r` lies past `q` and within `s`: each step of a repetition consumes input.
pub open spec fn advanced(s: Seq<char>, q: int, r: int) -> bool {
    q < r <= s.len()
}

/// A quoted attribute value at `p`: its text and the position after the closing quote.
pub open spec fn attr_value_spec(s: Seq<char>, p: int) -> Result<(Seq<char>, int), ParseError> {
    match peek_spec(s, p) {
        Err(e) => Err(e),
        Ok(quote) => if quote != '"' && quote != '\'' {
            Err(ParseError::StructuralViolation)
        } else {
            let e = take_end(s, p + 1, CharClass::Except(quote));
            match expect_spec(s, e, quote) {
                Err(x) => Err(x),
                Ok(r) => Ok((s.subrange(p + 1, e), r)),
            }
        },
    }
}

/// `name=value` at `p`: name, value, and the position after it.
pub open spec fn attr_spec(s: Seq<char>, p: int) -> Result<(Seq<char>, Seq<char>, int), ParseError> {
    let n = take_end(s, p, CharClass::Identifier);
    match expect_spec(s, n, '=') {
        Err(e) => Err(e),
        Ok(q) => match attr_value_spec(s, q) {
            Err(e) => Err(e),
            Ok((v, r)) => Ok((s.subrange(p, n), v, r)),
        },
    }
}

/// Attributes from `p` up to the `>` that ends them, added to `acc` (a repeated name takes
/// the last value); the position of that `>`.
pub open spec fn attributes_spec(s: Seq<char>, p: int, acc: AttrsModel) -> Result<
    (AttrsModel, int),
    ParseError,
>
    decreases s.len() - p,
{
    let q = ws_end(s, p);
    match peek_spec(s, q) {
        Err(e) => Err(e),
        Ok(c) => if c == '>' {
            Ok((acc, q))
        } else {
            match attr_spec(s, q) {
                Err(e) => Err(e),
                Ok((k, v, r)) => if advanced(s, p, r) {
                    attributes_spec(s, r, attrs_insert(acc, k, v))
                } else {
                    Err(ParseError::UnexpectedToken)
                },
            }
        },
    }
}

/// Whether a closing tag `</` begins at `q`.
pub open spec fn at_close_tag(s: Seq<char>, q: int) -> bool {
    q + 2 <= s.len() && s[q] == '<' && s[q + 1] == '/'
}

/// Sibling nodes from `p` up to the end of input or a closing tag, appended to `acc`;
/// the position where they stop.
pub open spec fn nodes_spec(s: Seq<char>, p: int, acc: Seq<NodeModel>) -> Result<
    (Seq<NodeModel>, int),
    ParseError,
>
    decreases s.len() - p, 2int,
    when 0 <= p <= s.len()
{
    let q = ws_end(s, p);
    proof {
        lemma_take_end(s, p, CharClass::Whitespace);
    }
    if q >= s.len() || at_close_tag(s, q) {
        Ok((acc, q))
    } else {
        match node_spec(s, q) {
            Err(e) => Err(e),
            Ok((n, r)) => if advanced(s, q, r) {
                nodes_spec(s, r, acc.push(n))
            } else {
                Err(ParseError::UnexpectedToken)
            },
        }
    }
}

/// One node at `p`: an element where `<` stands there, else the text up to the next `<`.
pub open spec fn node_spec(s: Seq<char>, p: int) -> Result<(NodeModel, int), ParseError>
    decreases s.len() - p, 1int,
    when 0 <= p <= s.len()
{
    match peek_spec(s, p) {
        Err(e) => Err(e),
        Ok(c) => if c == '<' {
            element_spec(s, p)
        } else {
            let e = take_end(s, p, CharClass::Except('<'));
            Ok((NodeModel::Text(s.subrange(p, e)), e))
        },
    }
}

/// `<tag attributes>children</tag>` at `p`, and the position after it.
pub open spec fn element_spec(s: Seq<char>, p: int) -> Result<(NodeModel, int), ParseError>
    decreases s.len() - p, 0int,
    when 0 <= p <= s.len()
{
    match expect_spec(s, p, '<') {
        Err(e) => Err(e),
        Ok(p1) => {
            let t = take_end(s, p1, CharClass::Identifier);
            let tag = s.subrange(p1, t);
            match attributes_spec(s, t, Seq::empty()) {
                Err(e) => Err(e),
                Ok((attrs, a)) => match expect_spec(s, a, '>') {
                    Err(e) => Err(e),
                    Ok(a1) => if !advanced(s, p, a1) {
                        Err(ParseError::UnexpectedToken)
                    } else {
                        match nodes_spec(s, a1, Seq::empty()) {
                            Err(e) => Err(e),
                            Ok((children, b)) => close_tag_spec(s, b, tag, attrs, children),
                        }
                    },
                },
            }
        },
    }
}

/// `</tag>` at `b`, closing the element with the given parts.
pub open spec fn close_tag_spec(
    s: Seq<char>,
    b: int,
    tag: Seq<char>,
    attrs: AttrsModel,
    children: Seq<NodeModel>,
) -> Result<(NodeModel, int), ParseError> {
    match expect_spec(s, b, '<') {
        Err(e) => Err(e),
        Ok(b1) => match expect_spec(s, b1, '/') {
            Err(e) => Err(e),
            Ok(b2) => {
                let c = take_end(s, b2, CharClass::Identifier);
                if s.subrange(b2, c) != tag {
                    Err(ParseError::TagMismatch)
                } else {
                    match expect_spec(s, c, '>') {
                        Err(e) => Err(e),
                        Ok(r) => Ok((NodeModel::Element { tag, attrs, children }, r)),
                    }
                }
            },
        },
    }
}

/// The element that wraps several top-level nodes, or none.
pub open spec fn html_wrapper(ns: Seq<NodeModel>) -> NodeModel {
    NodeModel::Element { tag: seq!['h', 't', 'm', 'l'], attrs: Seq::empty(), children: ns }
}

/// The document that `s` holds: its single top-level node, or the wrapper around all of them.
/// The whole input must be taken in: a closing tag at the top level is an unexpected token.
pub open spec fn parse_spec(s: Seq<char>) -> Result<NodeModel, ParseError> {
    match nodes_spec(s, 0, Seq::empty()) {
        Err(e) => Err(e),
        Ok((_, q)) if q < s.len() => Err(ParseError::UnexpectedToken),
        Ok((ns, _)) => Ok(
            if ns.len() == 1 {
                ns[0]
            } else {
                html_wrapper(ns)
            },
        ),
    }
}

/// The root of a parse that takes in the whole input: where the input holds exactly one
/// top-level node it is that node; otherwise it is an `html` element with no attributes
/// whose children are the top-level nodes in source order.
pub proof fn lemma_parse_root(s: Seq<char>)
    ensures
        match nodes_spec(s, 0, Seq::empty()) {
            Err(e) => parse_spec(s) == Err::<NodeModel, ParseError>(e),
            Ok((_, q)) if q < s.len() => parse_spec(s) == Err::<NodeModel, ParseError>(
                ParseError::UnexpectedToken,
            ),
            Ok((ns, _)) => {
                &&& ns.len() == 1 ==> parse_spec(s) == Ok::<NodeModel, ParseError>(ns[0])
                &&& ns.len() != 1 ==> parse_spec(s) == Ok::<NodeModel, ParseError>(
                    html_wrapper(ns),
                )
            },
        },
{
}

/// An empty input is a document of zero nodes under the wrapper element.
pub proof fn lemma_parse_empty()
    ensures
        parse_spec(Seq::empty()) == Ok::<NodeModel, ParseError>(html_wrapper(Seq::empty())),
{
    let s = Seq::<char>::empty();
    assert(ws_end(s, 0) == 0);
}

/// The attribute list of a parsed tag never holds a name twice.
pub proof fn lemma_attributes_unique(s: Seq<char>, p: int, acc: AttrsModel)
    requires
        keys_unique(acc),
    ensures
        attributes_spec(s, p, acc) matches Ok((m, _)) ==> keys_unique(m),
    decreases s.len() - p,
{
    let q = ws_end(s, p);
    if let Ok(c) = peek_spec(s, q) {
        if c != '>' {
            if let Ok((k, v, r)) = attr_spec(s, q) {
                if advanced(s, p, r) {
                    lemma_lookup_insert(acc, k, v, k);
                    lemma_attributes_unique(s, r, attrs_insert(acc, k, v));
                }
            }
        }
    }
}

/// Every element that parses carries the name written in both its tags: the source holds
/// `<` and the name right at the start, and `</`, the name and `>` right at the end.
/// (Where the closing name differs, `close_tag_spec` fails with a tag mismatch.)
pub proof fn lemma_element_tags(s: Seq<char>, p: int)
    requires
        0 <= p <= s.len(),
    ensures
        element_spec(s, p) matches Ok((n, r)) ==> n matches NodeModel::Element { tag, .. } && ({
            let k = tag.len() as int;
            &&& s[p] == '<'
            &&& s.subrange(p + 1, p + 1 + k) == tag
            &&& p + 1 + k <= r - 3 - k
            &&& s[r - 3 - k] == '<'
            &&& s[r - 2 - k] == '/'
            &&& s.subrange(r - 1 - k, r - 1) == tag
            &&& s[r - 1] == '>'
        }),
{
    if let Ok((n, r)) = element_spec(s, p) {
        let t = take_end(s, p + 1, CharClass::Identifier);
        lemma_take_end(s, p + 1, CharClass::Identifier);
        if let Ok((attrs, a)) = attributes_spec(s, t, Seq::empty()) {
            lemma_attributes_end(s, t, Seq::empty());
            if let Ok((children, b)) = nodes_spec(s, a + 1, Seq::empty()) {
                lemma_nodes_end(s, a + 1, Seq::empty());
                lemma_take_end(s, b + 2, CharClass::Identifier);
            }
        }
    }
}

proof fn lemma_attributes_end(s: Seq<char>, p: int, acc: AttrsModel)
    requires
        0 <= p <= s.len(),
    ensures
        attributes_spec(s, p, acc) matches Ok((_, q)) ==> p <= q < s.len(),
    decreases s.len() - p,
{
    lemma_take_end(s, p, CharClass::Whitespace);
    let q = ws_end(s, p);
    if let Ok(c) = peek_spec(s, q) {
        if c != '>' {
            if let Ok((k, v, r)) = attr_spec(s, q) {
                if advanced(s, p, r) {
                    lemma_attributes_end(s, r, attrs_insert(acc, k, v));
                }
            }
        }
    }
}

proof fn lemma_nodes_end(s: Seq<char>, p: int, acc: Seq<NodeModel>)
    requires
        0 <= p <= s.len(),
    ensures
        nodes_spec(s, p, acc) matches Ok((_, q)) ==> p <= q <= s.len(),
    decreases s.len() - p,
{
    lemma_take_end(s, p, CharClass::Whitespace);
    let q = ws_end(s, p);
    if !(q >= s.len() || at_close_tag(s, q)) {
        if let Ok((n, r)) = node_spec(s, q) {
            if advanced(s, q, r) {
                lemma_nodes_end(s, r, acc.push(n));
            }
        }
    }
}

/// An element with no attributes and no children: `<t></u>`.
pub open spec fn empty_element_text(t: Seq<char>, u: Seq<char>) -> Seq<char> {
    seq!['<'] + t + seq!['>', '<', '/'] + u + seq!['>']
}

/// An element whose closing tag names its opening tag parses; one whose closing tag names
/// another tag fails with a tag mismatch.
pub proof fn lemma_close_tag_must_match(t: Seq<char>, u: Seq<char>)
    requires
        forall|i: int| 0 <= i < t.len() ==> is_identifier_char(#[trigger] t[i]),
        forall|i: int| 0 <= i < u.len() ==> is_identifier_char(#[trigger] u[i]),
    ensures
        t == u ==> parse_spec(empty_element_text(t, u)) == Ok::<NodeModel, ParseError>(
            NodeModel::Element { tag: t, attrs: Seq::empty(), children: Seq::empty() },
        ),
        t != u ==> parse_spec(empty_element_text(t, u)) == Err::<NodeModel, ParseError>(
            ParseError::TagMismatch,
        ),
{
    let s = empty_element_text(t, u);
    let n = t.len() as int;
    let m = u.len() as int;
    assert(s.len() == 5 + n + m);
    assert(s[0] == '<');
    assert forall|i: int| 0 <= i < n implies s[1 + i] == t[i] by {}
    assert(s[1 + n] == '>');
    assert(s[2 + n] == '<');
    assert(s[3 + n] == '/');
    assert forall|i: int| 0 <= i < m implies s[4 + n + i] == u[i] by {}
    assert(s[4 + n + m] == '>');
    lemma_run(s, 0, 0, CharClass::Whitespace);
    assert(!at_close_tag(s, 0)) by {
        if n > 0 {
            assert(s[1] == t[0]);
        }
    }
    assert forall|i: int| 1 <= i < 1 + n implies in_class(CharClass::Identifier, #[trigger] s[i]) by {
        assert(s[i] == t[i - 1]);
    }
    lemma_run(s, 1, n, CharClass::Identifier);
    assert(s.subrange(1, 1 + n) =~= t);
    lemma_run(s, 1 + n, 0, CharClass::Whitespace);
    assert(attributes_spec(s, 1 + n, Seq::empty()) == Ok::<(AttrsModel, int), ParseError>(
        (Seq::empty(), 1 + n),
    ));
    lemma_run(s, 2 + n, 0, CharClass::Whitespace);
    assert(at_close_tag(s, 2 + n));
    assert(nodes_spec(s, 2 + n, Seq::empty()) == Ok::<(Seq<NodeModel>, int), ParseError>(
        (Seq::empty(), 2 + n),
    ));
    assert forall|i: int| 4 + n <= i < 4 + n + m implies in_class(
        CharClass::Identifier,
        #[trigger] s[i],
    ) by {
        assert(s[i] == u[i - 4 - n]);
    }
    lemma_run(s, 4 + n, m, CharClass::Identifier);
    assert(s.subrange(4 + n, 4 + n + m) =~= u);
    let el = NodeModel::Element { tag: t, attrs: Seq::empty(), children: Seq::empty() };
    if t == u {
        assert(element_spec(s, 0) == Ok::<(NodeModel, int), ParseError>((el, s.len() as int)));
        lemma_run(s, s.len() as int, 0, CharClass::Whitespace);
        assert(nodes_spec(s, s.len() as int, seq![el]) == Ok::<(Seq<NodeModel>, int), ParseError>(
            (seq![el], s.len() as int),
        ));
        assert(Seq::<NodeModel>::empty().push(el) =~= seq![el]);
        assert(node_spec(s, 0) == Ok::<(NodeModel, int), ParseError>((el, s.len() as int)));
        assert(nodes_spec(s, 0, Seq::empty()) == Ok::<(Seq<NodeModel>, int), ParseError>(
            (seq![el], s.len() as int),
        ));
    } else {
        assert(element_spec(s, 0) == Err::<(NodeModel, int), ParseError>(ParseError::TagMismatch));
        assert(node_spec(s, 0) == Err::<(NodeModel, int), ParseError>(ParseError::TagMismatch));
        assert(nodes_spec(s, 0, Seq::empty()) == Err::<(Seq<NodeModel>, int), ParseError>(
            ParseError::TagMismatch,
        ));
    }
}

/// Parses `source` as markup: its single top-level node, or an `html` element wrapping all
/// of the top-level nodes in order (none for an empty input).
pub fn parse(source: String) -> (r: Result<Node, ParseError>)
    ensures
        match parse_spec(source@) {
            Ok(m) => r is Ok && r->Ok_0@ == m,
            Err(e) => r is Err && r->Err_0 == e,
        },
{
    let mut cursor = Cursor::new(source);
    let nodes = parse_nodes(&mut cursor);
    match nodes {
        Err(e) => Err(e),
        Ok(_) if !cursor.eof() => Err(ParseError::UnexpectedToken),
        Ok(mut nodes) => {
            if nodes.len() == 1 {
                let n = nodes.swap_remove(0);
                Ok(n)
            } else {
                let mut name = String::new();
                name.append("html");
                proof {
                    reveal_strlit("html");
                    assert(name@ =~= seq!['h', 't', 'm', 'l']);
                }
                Ok(dom::element(name, AttrMap::new(), nodes))
            }
        },
    }
}

fn consume_identifier(c: &mut Cursor) -> (r: String)
    requires
        old(c).wf(),
    ensures
        final(c).wf(),
        final(c).src() == old(c).src(),
        final(c).at() == take_end(old(c).src(), old(c).at(), CharClass::Identifier),
        old(c).pos <= final(c).pos <= final(c).chars.len(),
        r@ == old(c).src().subrange(old(c).at(), final(c).at()),
{
    c.consume_while(CharClass::Identifier)
}

fn parse_tag_name(c: &mut Cursor) -> (r: String)
    requires
        old(c).wf(),
    ensures
        final(c).wf(),
        final(c).src() == old(c).src(),
        final(c).at() == take_end(old(c).src(), old(c).at(), CharClass::Identifier),
        old(c).pos <= final(c).pos <= final(c).chars.len(),
        r@ == old(c).src().subrange(old(c).at(), final(c).at()),
{
    consume_identifier(c)
}

fn parse_attr_name(c: &mut Cursor) -> (r: String)
    requires
        old(c).wf(),
    ensures
        final(c).wf(),
        final(c).src() == old(c).src(),
        final(c).at() == take_end(old(c).src(), old(c).at(), CharClass::Identifier),
        old(c).pos <= final(c).pos <= final(c).chars.len(),
        r@ == old(c).src().subrange(old(c).at(), final(c).at()),
{
    consume_identifier(c)
}

fn parse_attr_value(c: &mut Cursor) -> (r: Result<String, ParseError>)
    requires
        old(c).wf(),
    ensures
        final(c).wf(),
        final(c).src() == old(c).src(),
        match attr_value_spec(old(c).src(), old(c).at()) {
            Ok((v, q)) => r is Ok && r->Ok_0@ == v && final(c).at() == q && old(c).pos
                < final(c).pos,
            Err(e) => r is Err && r->Err_0 == e,
        },
{
    let quote = match c.consume_char() {
        Ok(q) => q,
        Err(e) => return Err(e),
    };
    if quote != '"' && quote != '\'' {
        return Err(ParseError::StructuralViolation);
    }
    let value = c.consume_while(CharClass::Except(quote));
    match c.expect(quote) {
        Ok(()) => Ok(value),
        Err(e) => Err(e),
    }
}

fn parse_attr(c: &mut Cursor) -> (r: Result<(String, String), ParseError>)
    requires
        old(c).wf(),
    ensures
        final(c).wf(),
        final(c).src() == old(c).src(),
        match attr_spec(old(c).src(), old(c).at()) {
            Ok((k, v, q)) => r is Ok && r->Ok_0.0@ == k && r->Ok_0.1@ == v && final(c).at() == q
                && old(c).pos < final(c).pos,
            Err(e) => r is Err && r->Err_0 == e,
        },
{
    let name = parse_attr_name(c);
    match c.expect('=') {
        Ok(()) => {},
        Err(e) => return Err(e),
    }
    match parse_attr_value(c) {
        Ok(value) => Ok((name, value)),
        Err(e) => Err(e),
    }
}

fn parse_attributes(c: &mut Cursor) -> (r: Result<AttrMap, ParseError>)
    requires
        old(c).wf(),
    ensures
        final(c).wf(),
        final(c).src() == old(c).src(),
        match attributes_spec(old(c).src(), old(c).at(), Seq::empty()) {
            Ok((m, q)) => r is Ok && r->Ok_0@ == m && r->Ok_0.wf() && final(c).at() == q
                && old(c).pos <= final(c).pos,
            Err(e) => r is Err && r->Err_0 == e,
        },
{
    let ghost s = c.src();
    let ghost p0 = c.at();
    let mut attributes = AttrMap::new();
    loop
        invariant
            c.wf(),
            c.src() == s,
            s == old(c).src(),
            p0 == old(c).at(),
            p0 <= c.pos,
            attributes.wf(),
            attributes_spec(s, c.at(), attributes@) == attributes_spec(s, p0, Seq::empty()),
        decreases s.len() - c.pos,
    {
        c.consume_whitespace();
        match c.next_char() {
            Err(e) => return Err(e),
            Ok(ch) => {
                if ch == '>' {
                    return Ok(attributes);
                }
            },
        }
        match parse_attr(c) {
            Err(e) => return Err(e),
            Ok((name, value)) => {
                attributes.insert(name, value);
            },
        }
    }
}

fn parse_text(c: &mut Cursor) -> (r: Node)
    requires
        old(c).wf(),
    ensures
        final(c).wf(),
        final(c).src() == old(c).src(),
        final(c).at() == take_end(old(c).src(), old(c).at(), CharClass::Except('<')),
        r@ == NodeModel::Text(old(c).src().subrange(old(c).at(), final(c).at())),
        old(c).pos <= final(c).pos <= final(c).chars.len(),
{
    dom::text(c.consume_while(CharClass::Except('<')))
}

fn parse_node(c: &mut Cursor) -> (r: Result<Node, ParseError>)
    requires
        old(c).wf(),
    ensures
        final(c).wf(),
        final(c).src() == old(c).src(),
        match node_spec(old(c).src(), old(c).at()) {
            Ok((n, q)) => r is Ok && r->Ok_0@ == n && final(c).at() == q && old(c).pos
                < final(c).pos,
            Err(e) => r is Err && r->Err_0 == e,
        },
    decreases old(c).chars.len() - old(c).pos, 1int,
{
    match c.next_char() {
        Err(e) => Err(e),
        Ok(ch) => {
            if ch == '<' {
                parse_element(c)
            } else {
                proof {
                    lemma_take_end(c.src(), c.at(), CharClass::Except('<'));
                }
                Ok(parse_text(c))
            }
        },
    }
}

fn parse_element(c: &mut Cursor) -> (r: Result<Node, ParseError>)
    requires
        old(c).wf(),
    ensures
        final(c).wf(),
        final(c).src() == old(c).src(),
        match element_spec(old(c).src(), old(c).at()) {
            Ok((n, q)) => r is Ok && r->Ok_0@ == n && final(c).at() == q && old(c).pos
                < final(c).pos,
            Err(e) => r is Err && r->Err_0 == e,
        },
    decreases old(c).chars.len() - old(c).pos, 0int,
{
    match c.expect('<') {
        Ok(()) => {},
        Err(e) => return Err(e),
    }
    let tag_name = parse_tag_name(c);
    let attrs = match parse_attributes(c) {
        Ok(a) => a,
        Err(e) => return Err(e),
    };
    match c.expect('>') {
        Ok(()) => {},
        Err(e) => return Err(e),
    }
    let children = match parse_nodes(c) {
        Ok(ns) => ns,
        Err(e) => return Err(e),
    };
    match c.expect('<') {
        Ok(()) => {},
        Err(e) => return Err(e),
    }
    match c.expect('/') {
        Ok(()) => {},
        Err(e) => return Err(e),
    }
    let close_name = parse_tag_name(c);
    if close_name != tag_name {
        return Err(ParseError::TagMismatch);
    }
    match c.expect('>') {
        Ok(()) => {},
        Err(e) => return Err(e),
    }
    Ok(dom::element(tag_name, attrs, children))
}

fn parse_nodes(c: &mut Cursor) -> (r: Result<Vec<Node>, ParseError>)
    requires
        old(c).wf(),
    ensures
        final(c).wf(),
        final(c).src() == old(c).src(),
        match nodes_spec(old(c).src(), old(c).at(), Seq::empty()) {
            Ok((ns, q)) => r is Ok && nodes_model(r->Ok_0@) == ns && final(c).at() == q
                && old(c).pos <= final(c).pos,
            Err(e) => r is Err && r->Err_0 == e,
        },
    decreases old(c).chars.len() - old(c).pos, 2int,
{
    let ghost s = c.src();
    let ghost p0 = c.at();
    let mut nodes: Vec<Node> = Vec::new();
    assert(nodes_model(nodes@) =~= Seq::empty());
    loop
        invariant
            c.wf(),
            c.src() == s,
            s == old(c).src(),
            p0 == old(c).at(),
            p0 <= c.pos,
            nodes_spec(s, c.at(), nodes_model(nodes@)) == nodes_spec(s, p0, Seq::empty()),
        decreases s.len() - c.pos,
    {
        c.consume_whitespace();
        let at_close = c.starts_with("</");
        proof {
            reveal_strlit("</");
            if c.at() + 2 <= s.len() {
                assert(at_close == at_close_tag(s, c.at())) by {
                    if at_close_tag(s, c.at()) {
                        assert(s.subrange(c.at(), c.at() + 2) =~= "</"@);
                    }
                    if at_close {
                        assert(s.subrange(c.at(), c.at() + 2)[0] == '<');
                        assert(s.subrange(c.at(), c.at() + 2)[1] == '/');
                    }
                }
            }
        }
        if c.eof() || at_close {
            return Ok(nodes);
        }
        match parse_node(c) {
            Err(e) => return Err(e),
            Ok(n) => {
                let ghost before = nodes_model(nodes@);
                nodes.push(n);
                assert(nodes_model(nodes@) =~= before.push(n@));
            },
        }
    }
}

} // verus!
