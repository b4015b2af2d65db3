use vstd::prelude::*;
use crate::cursor::{is_whitespace, is_whitespace_spec, lemma_take_end, ws_end, CharClass, Cursor};

verus! {

/// An attribute list as key/value pairs, in order of first insertion.
pub type AttrsModel = Seq<(Seq<char>, Seq<char>)>;

/// The mathematical value of a document node.
pub ghost enum NodeModel {
    Text(Seq<char>),
    Element { tag: Seq<char>, attrs: AttrsModel, children: Seq<NodeModel> },
}

/// Keys are pairwise distinct.
pub open spec fn keys_unique(a: AttrsModel) -> bool {
    forall|i: int, j: int| 0 <= i < j < a.len() ==> a[i].0 != a[j].0
}

/// The value bound to `k`, if any.
pub open spec fn attr_lookup(a: AttrsModel, k: Seq<char>) -> Option<Seq<char>>
    decreases a.len(),
{
    if a.len() == 0 {
        None
    } else if a.last().0 == k {
        Some(a.last().1)
    } else {
        attr_lookup(a.drop_last(), k)
    }
}

/// Binding `k` to `v`: a key already present keeps its place and takes the new value;
/// a new key goes to the end.
pub open spec fn attrs_insert(a: AttrsModel, k: Seq<char>, v: Seq<char>) -> AttrsModel {
    if exists|i: int| 0 <= i < a.len() && a[i].0 == k {
        let i = choose|i: int| 0 <= i < a.len() && a[i].0 == k;
        a.update(i, (k, v))
    } else {
        a.push((k, v))
    }
}

proof fn lemma_lookup_at(a: AttrsModel, i: int)
    requires
        keys_unique(a),
        0 <= i < a.len(),
    ensures
        attr_lookup(a, a[i].0) == Some(a[i].1),
    decreases a.len(),
{
    if i < a.len() - 1 {
        assert(a.last().0 != a[i].0);
        assert(a.drop_last()[i] == a[i]);
        lemma_lookup_at(a.drop_last(), i);
    }
}

proof fn lemma_lookup_absent(a: AttrsModel, k: Seq<char>)
    requires
        forall|i: int| 0 <= i < a.len() ==> a[i].0 != k,
    ensures
        attr_lookup(a, k) is None,
    decreases a.len(),
{
    if a.len() > 0 {
        assert(a.last().0 != k);
        lemma_lookup_absent(a.drop_last(), k);
    }
}

/// Binding a name keeps the names unique; afterwards the name is bound to the value
/// inserted last, and every other name keeps its value.
pub proof fn lemma_lookup_insert(a: AttrsModel, k: Seq<char>, v: Seq<char>, q: Seq<char>)
    requires
        keys_unique(a),
    ensures
        keys_unique(attrs_insert(a, k, v)),
        attr_lookup(attrs_insert(a, k, v), k) == Some(v),
        q != k ==> attr_lookup(attrs_insert(a, k, v), q) == attr_lookup(a, q),
{
    let b = attrs_insert(a, k, v);
    if exists|i: int| 0 <= i < a.len() && a[i].0 == k {
        let i = choose|i: int| 0 <= i < a.len() && a[i].0 == k;
        assert(b == a.update(i, (k, v)));
        assert(forall|j: int| 0 <= j < a.len() ==> #[trigger] b[j].0 == a[j].0);
        lemma_lookup_at(b, i);
        if q != k {
            if exists|j: int| 0 <= j < a.len() && a[j].0 == q {
                let j = choose|j: int| 0 <= j < a.len() && a[j].0 == q;
                assert(b[j] == a[j]);
                lemma_lookup_at(a, j);
                lemma_lookup_at(b, j);
            } else {
                lemma_lookup_absent(a, q);
                lemma_lookup_absent(b, q);
            }
        }
    } else {
        assert(b == a.push((k, v)));
        assert(b.drop_last() =~= a);
    }
}

/// Two successive bindings of one name leave the second value, and the names unique.
pub proof fn lemma_last_attribute_wins(
    a: AttrsModel,
    k: Seq<char>,
    v1: Seq<char>,
    v2: Seq<char>,
)
    requires
        keys_unique(a),
    ensures
        keys_unique(attrs_insert(attrs_insert(a, k, v1), k, v2)),
        attr_lookup(attrs_insert(attrs_insert(a, k, v1), k, v2), k) == Some(v2),
{
    lemma_lookup_insert(a, k, v1, k);
    lemma_lookup_insert(attrs_insert(a, k, v1), k, v2, k);
}

/// The same names bound to the same values, whatever the order of insertion.
pub open spec fn same_bindings(a: AttrsModel, b: AttrsModel) -> bool {
    &&& a.len() == b.len()
    &&& forall|i: int| 0 <= i < a.len() ==> attr_lookup(b, #[trigger] a[i].0) == Some(a[i].1)
}

/// A mapping from attribute names to values with unique keys.
#[derive(Debug, Clone)]
pub struct AttrMap {
    entries: Vec<(String, String)>,
}

impl View for AttrMap {
    type V = AttrsModel;

    closed spec fn view(&self) -> AttrsModel {
        Seq::new(self.entries@.len(), |i: int| (self.entries@[i].0@, self.entries@[i].1@))
    }
}

impl PartialEq for AttrMap {
    fn eq(&self, other: &AttrMap) -> (r: bool) {
        if self.entries.len() != other.entries.len() {
            return false;
        }
        let mut i: usize = 0;
        while i < self.entries.len()
            invariant
                i <= self.entries.len() == other.entries.len(),
                forall|j: int| 0 <= j < i ==> attr_lookup(other@, #[trigger] self@[j].0) == Some(
                    self@[j].1,
                ),
            decreases self.entries.len() - i,
        {
            let ghost k = self@[i as int].0;
            assert(k == self.entries@[i as int].0@);
            match other.get(&self.entries[i].0) {
                Some(v) => {
                    if *v != self.entries[i].1 {
                        assert(attr_lookup(other@, k) != Some(self@[i as int].1));
                        return false;
                    }
                },
                None => {
                    assert(attr_lookup(other@, k) != Some(self@[i as int].1));
                    return false;
                },
            }
            i += 1;
        }
        true
    }
}

impl vstd::std_specs::cmp::PartialEqSpecImpl for AttrMap {
    open spec fn obeys_eq_spec() -> bool {
        true
    }

    open spec fn eq_spec(&self, other: &AttrMap) -> bool {
        same_bindings(self@, other@)
    }
}

impl AttrMap {
    pub closed spec fn wf(&self) -> bool {
        keys_unique(self@)
    }

    pub fn new() -> (r: AttrMap)
        ensures
            r.wf(),
            r@ == Seq::<(Seq<char>, Seq<char>)>::empty(),
    {
        let r = AttrMap { entries: Vec::new() };
        assert(r@ =~= Seq::<(Seq<char>, Seq<char>)>::empty());
        r
    }

    /// Binds `key` to `value`; a repeated key keeps its place and takes the last value.
    pub fn insert(&mut self, key: String, value: String)
        requires
            old(self).wf(),
        ensures
            final(self).wf(),
            final(self)@ == attrs_insert(old(self)@, key@, value@),
    {
        let ghost a = self@;
        let mut i: usize = 0;
        while i < self.entries.len() && self.entries[i].0 != key
            invariant
                self.wf(),
                self@ == a,
                i <= self.entries.len(),
                forall|j: int| 0 <= j < i ==> a[j].0 != key@,
            decreases self.entries.len() - i,
        {
            i += 1;
        }
        if i < self.entries.len() {
            proof {
                assert(a[i as int].0 == key@);
                let w = choose|w: int| 0 <= w < a.len() && a[w].0 == key@;
                assert(w == i) by {
                    if w > i {
                        assert(a[i as int].0 != a[w].0);
                    }
                }
            }
            self.entries.set(i, (key, value));
            assert(self@ =~= a.update(i as int, (key@, value@)));
        } else {
            self.entries.push((key, value));
            assert(self@ =~= a.push((key@, value@)));
        }
    }

    /// The value bound to `key`, if any.
    pub fn get(&self, key: &String) -> (r: Option<&String>)
        ensures
            match attr_lookup(self@, key@) {
                Some(v) => r is Some && r->0@ == v,
                None => r is None,
            },
    {
        let mut i: usize = self.entries.len();
        assert(self@.take(i as int) =~= self@);
        while i > 0
            invariant
                i <= self.entries.len(),
                attr_lookup(self@.take(i as int), key@) == attr_lookup(self@, key@),
            decreases i,
        {
            let ghost t = self@.take(i as int);
            assert(t.drop_last() =~= self@.take(i - 1));
            if self.entries[i - 1].0 == *key {
                return Some(&self.entries[i - 1].1);
            }
            i -= 1;
        }
        None
    }

    pub fn len(&self) -> (r: usize)
        ensures
            r == self@.len(),
    {
        self.entries.len()
    }
}

/// A document node: a text leaf or an element that owns its children.
#[derive(Debug, PartialEq)]
pub struct Node {
    children: Vec<Node>,
    node_type: NodeType,
}

#[derive(Debug, PartialEq)]
pub enum NodeType {
    Text(String),
    Element(ElementData),
}

#[derive(Debug, PartialEq)]
pub struct ElementData {
    tag_name: String,
    attributes: AttrMap,
}

pub closed spec fn node_model(n: Node) -> NodeModel
    decreases n,
{
    match n.node_type {
        NodeType::Text(t) => NodeModel::Text(t@),
        NodeType::Element(d) => NodeModel::Element {
            tag: d.tag_name@,
            attrs: d.attributes@,
            children: Seq::new(
                n.children@.len(),
                |i: int|
                    if 0 <= i < n.children@.len() {
                        node_model(n.children@[i])
                    } else {
                        NodeModel::Text(Seq::empty())
                    },
            ),
        },
    }
}

impl View for Node {
    type V = NodeModel;

    open spec fn view(&self) -> NodeModel {
        node_model(*self)
    }
}

/// The models of a sequence of nodes.
pub open spec fn nodes_model(v: Seq<Node>) -> Seq<NodeModel> {
    v.map_values(|n: Node| n@)
}

/// A text leaf.
pub fn text(data: String) -> (r: Node)
    ensures
        r@ == NodeModel::Text(data@),
{
    let r = Node { children: Vec::new(), node_type: NodeType::Text(data) };
    proof {
        reveal(node_model);
    }
    r
}

/// An element with the given tag name, attributes and children.
pub fn element(name: String, attributes: AttrMap, children: Vec<Node>) -> (r: Node)
    ensures
        r@ == (NodeModel::Element {
            tag: name@,
            attrs: attributes@,
            children: nodes_model(children@),
        }),
{
    let ghost cm = nodes_model(children@);
    let r = Node {
        children,
        node_type: NodeType::Element(ElementData { tag_name: name, attributes }),
    };
    proof {
        let m = node_model(r);
        assert(m->children =~= cm);
    }
    r
}

/// `n` spaces.
pub open spec fn spaces(n: nat) -> Seq<char> {
    Seq::new(n, |i: int| ' ')
}

/// How many white-space characters end `t.subrange(0, e)`.
pub open spec fn trail_len(t: Seq<char>, e: int) -> nat
    decreases e,
{
    if 0 < e <= t.len() && is_whitespace_spec(t[e - 1]) {
        1 + trail_len(t, e - 1)
    } else {
        0
    }
}

proof fn lemma_trail_len(t: Seq<char>, e: int, a: int)
    requires
        0 <= a < e <= t.len(),
        !is_whitespace_spec(t[a]),
    ensures
        trail_len(t, e) <= e - a - 1,
    decreases e,
{
    if is_whitespace_spec(t[e - 1]) {
        lemma_trail_len(t, e - 1, a);
    }
}

/// `t` without leading and trailing white space.
pub open spec fn trimmed(t: Seq<char>) -> Seq<char> {
    let a = ws_end(t, 0);
    if a >= t.len() {
        Seq::empty()
    } else {
        t.subrange(a, t.len() - trail_len(t, t.len() as int))
    }
}

/// `key="value"`.
pub open spec fn pair_text(kv: (Seq<char>, Seq<char>)) -> Seq<char> {
    kv.0 + seq!['=', '"'] + kv.1 + seq!['"']
}

/// The attributes as `key="value"` pairs joined by single spaces.
pub open spec fn attrs_text(a: AttrsModel) -> Seq<char>
    decreases a.len(),
{
    if a.len() == 0 {
        Seq::empty()
    } else if a.len() == 1 {
        pair_text(a[0])
    } else {
        attrs_text(a.drop_last()) + seq![' '] + pair_text(a.last())
    }
}

/// The indented rendering of a node: a text leaf trimmed; an element as its opening tag
/// (with its attributes), a line per child indented two more, and its closing tag.
pub open spec fn rendered(m: NodeModel, ind: nat) -> Seq<char>
    decreases m,
{
    match m {
        NodeModel::Text(t) => spaces(ind) + trimmed(t),
        NodeModel::Element { tag, attrs, children } => spaces(ind) + seq!['<'] + tag + (if attrs.len()
            == 0 {
            Seq::empty()
        } else {
            seq![' '] + attrs_text(attrs)
        }) + seq!['>', '\n'] + children_text(children, ind) + spaces(ind) + seq!['<', '/'] + tag
            + seq!['>'],
    }
}

/// The lines of the children of an element rendered at indentation `ind`.
pub open spec fn children_text(cs: Seq<NodeModel>, ind: nat) -> Seq<char>
    decreases cs,
{
    if cs.len() == 0 {
        Seq::empty()
    } else {
        children_text(cs.drop_last(), ind) + spaces(ind) + rendered(cs.last(), ind + 2) + seq!['\n']
    }
}

/// The nesting depth of elements in a tree.
pub open spec fn depth(m: NodeModel) -> nat
    decreases m,
{
    match m {
        NodeModel::Text(_) => 0,
        NodeModel::Element { children, .. } => 1 + children_depth(children),
    }
}

pub open spec fn children_depth(cs: Seq<NodeModel>) -> nat
    decreases cs,
{
    if cs.len() == 0 {
        0
    } else {
        let a = depth(cs.last());
        let b = children_depth(cs.drop_last());
        if a >= b {
            a
        } else {
            b
        }
    }
}

proof fn lemma_children_depth(cs: Seq<NodeModel>, i: int)
    requires
        0 <= i < cs.len(),
    ensures
        depth(cs[i]) <= children_depth(cs),
    decreases cs.len(),
{
    if i < cs.len() - 1 {
        lemma_children_depth(cs.drop_last(), i);
    }
}

/// How many times `c` occurs in `s`.
pub open spec fn count_char(s: Seq<char>, c: char) -> nat
    decreases s.len(),
{
    if s.len() == 0 {
        0
    } else {
        count_char(s.drop_last(), c) + if s.last() == c {
            1nat
        } else {
            0nat
        }
    }
}

/// `c` occurs nowhere in `s`.
pub open spec fn lacks(s: Seq<char>, c: char) -> bool {
    forall|i: int| 0 <= i < s.len() ==> s[i] != c
}

/// `c` occurs in no text, tag name, attribute name or attribute value of the tree.
pub open spec fn free_of(m: NodeModel, c: char) -> bool
    decreases m,
{
    match m {
        NodeModel::Text(t) => lacks(t, c),
        NodeModel::Element { tag, attrs, children } => {
            &&& lacks(tag, c)
            &&& forall|i: int| 0 <= i < attrs.len() ==> lacks(#[trigger] attrs[i].0, c) && lacks(attrs[i].1, c)
            &&& forall|i: int| 0 <= i < children.len() ==> free_of(#[trigger] children[i], c)
        },
    }
}

/// How many elements the tree holds.
pub open spec fn element_count(m: NodeModel) -> nat
    decreases m,
{
    match m {
        NodeModel::Text(_) => 0,
        NodeModel::Element { children, .. } => 1 + children_count(children),
    }
}

pub open spec fn children_count(cs: Seq<NodeModel>) -> nat
    decreases cs,
{
    if cs.len() == 0 {
        0
    } else {
        children_count(cs.drop_last()) + element_count(cs.last())
    }
}

proof fn lemma_count_add(a: Seq<char>, b: Seq<char>, c: char)
    ensures
        count_char(a + b, c) == count_char(a, c) + count_char(b, c),
    decreases b.len(),
{
    if b.len() == 0 {
        assert(a + b =~= a);
    } else {
        assert((a + b).drop_last() =~= a + b.drop_last());
        lemma_count_add(a, b.drop_last(), c);
    }
}

proof fn lemma_count_none(s: Seq<char>, c: char)
    requires
        lacks(s, c),
    ensures
        count_char(s, c) == 0,
    decreases s.len(),
{
    if s.len() > 0 {
        lemma_count_none(s.drop_last(), c);
    }
}

proof fn lemma_count_single(x: char, c: char)
    ensures
        count_char(seq![x], c) == if x == c {
            1nat
        } else {
            0nat
        },
{
    let s1 = seq![x];
    assert(s1.drop_last() =~= Seq::<char>::empty());
    assert(count_char(Seq::<char>::empty(), c) == 0);
    assert(s1.last() == x);
}

proof fn lemma_count_pair(x: char, y: char, c: char)
    ensures
        count_char(seq![x, y], c) == count_char(seq![x], c) + count_char(seq![y], c),
{
    assert(seq![x, y] =~= seq![x] + seq![y]);
    lemma_count_add(seq![x], seq![y], c);
}

proof fn lemma_attrs_text_none(a: AttrsModel, c: char)
    requires
        c != '=' && c != '"' && c != ' ',
        forall|i: int| 0 <= i < a.len() ==> lacks(#[trigger] a[i].0, c) && lacks(a[i].1, c),
    ensures
        lacks(attrs_text(a), c),
    decreases a.len(),
{
    if a.len() > 1 {
        lemma_attrs_text_none(a.drop_last(), c);
        assert(a.drop_last().len() == a.len() - 1);
    }
}

/// How many times `<` is directly followed by `/` in `s`: the closing tags it holds.
pub open spec fn count_close(s: Seq<char>) -> nat
    decreases s.len(),
{
    if s.len() < 2 {
        0
    } else {
        count_close(s.drop_last()) + if s[s.len() - 2] == '<' && s.last() == '/' {
            1nat
        } else {
            0nat
        }
    }
}

pub open spec fn ends_with_lt(s: Seq<char>) -> bool {
    s.len() > 0 && s.last() == '<'
}

pub open spec fn starts_with_slash(s: Seq<char>) -> bool {
    s.len() > 0 && s[0] == '/'
}

/// No tag name in the tree begins with `/`.
pub open spec fn tags_not_slashed(m: NodeModel) -> bool
    decreases m,
{
    match m {
        NodeModel::Text(_) => true,
        NodeModel::Element { tag, children, .. } => {
            &&& !starts_with_slash(tag)
            &&& forall|i: int| 0 <= i < children.len() ==> tags_not_slashed(#[trigger] children[i])
        },
    }
}

proof fn lemma_close_add(a: Seq<char>, b: Seq<char>)
    ensures
        count_close(a + b) == count_close(a) + count_close(b) + if ends_with_lt(a)
            && starts_with_slash(b) {
            1nat
        } else {
            0nat
        },
    decreases b.len(),
{
    if b.len() == 0 {
        assert(a + b =~= a);
    } else if b.len() == 1 {
        if a.len() == 0 {
            assert(a + b =~= b);
        } else {
            assert((a + b).drop_last() =~= a);
        }
    } else {
        assert((a + b).drop_last() =~= a + b.drop_last());
        lemma_close_add(a, b.drop_last());
    }
}

proof fn lemma_close_none(s: Seq<char>)
    requires
        lacks(s, '<'),
    ensures
        count_close(s) == 0,
    decreases s.len(),
{
    if s.len() >= 2 {
        lemma_close_none(s.drop_last());
    }
}

/// Rendering a tree whose strings hold no `<` and whose tag names do not begin with `/`
/// writes one opening and one closing tag per element: `<` occurs twice per element,
/// `</` once per element, and so `<` not followed by `/` once per element.
pub proof fn lemma_render_tag_counts(m: NodeModel, ind: nat)
    requires
        free_of(m, '<'),
        tags_not_slashed(m),
    ensures
        count_char(rendered(m, ind), '<') == 2 * element_count(m),
        count_close(rendered(m, ind)) == element_count(m),
        count_char(rendered(m, ind), '<') - count_close(rendered(m, ind)) == element_count(m),
    decreases m,
{
    lemma_count_none(spaces(ind), '<');
    lemma_close_none(spaces(ind));
    match m {
        NodeModel::Text(t) => {
            let tr = trimmed(t);
            let a = ws_end(t, 0);
            if a < t.len() {
                lemma_take_end(t, 0, CharClass::Whitespace);
                lemma_trail_len(t, t.len() as int, a);
                assert forall|i: int| 0 <= i < tr.len() implies tr[i] == t[a + i] by {}
            }
            assert(lacks(tr, '<'));
            lemma_count_none(tr, '<');
            lemma_close_none(tr);
            lemma_count_add(spaces(ind), tr, '<');
            lemma_close_add(spaces(ind), tr);
        },
        NodeModel::Element { tag, attrs, children } => {
            let sp = spaces(ind);
            let at = if attrs.len() == 0 {
                Seq::empty()
            } else {
                seq![' '] + attrs_text(attrs)
            };
            let ct = children_text(children, ind);
            lemma_attrs_text_none(attrs, '<');
            assert(lacks(at, '<'));
            lemma_children_tag_counts(children, ind);
            let l1 = seq!['<'];
            let l2 = seq!['>', '\n'];
            let l3 = seq!['<', '/'];
            let l4 = seq!['>'];
            let p1 = sp + l1;
            let p2 = p1 + tag;
            let p3 = p2 + at;
            let p4 = p3 + l2;
            let p5 = p4 + ct;
            let p6 = p5 + sp;
            let p7 = p6 + l3;
            let p8 = p7 + tag;
            let p9 = p8 + l4;
            assert(rendered(m, ind) == p9);
            lemma_count_add(sp, l1, '<');
            lemma_count_add(p1, tag, '<');
            lemma_count_add(p2, at, '<');
            lemma_count_add(p3, l2, '<');
            lemma_count_add(p4, ct, '<');
            lemma_count_add(p5, sp, '<');
            lemma_count_add(p6, l3, '<');
            lemma_count_add(p7, tag, '<');
            lemma_count_add(p8, l4, '<');
            lemma_count_none(tag, '<');
            lemma_count_none(at, '<');
            lemma_count_single('<', '<');
            lemma_count_single('>', '<');
            lemma_count_single('/', '<');
            lemma_count_single('\n', '<');
            lemma_count_pair('>', '\n', '<');
            lemma_count_pair('<', '/', '<');
            lemma_close_none(tag);
            lemma_close_none(at);
            lemma_close_none(l2);
            assert(count_close(l1) == 0);
            assert(count_close(l4) == 0);
            assert(count_close(l3) == 1) by {
                assert(l3.drop_last().len() == 1);
                assert(count_close(l3.drop_last()) == 0);
                assert(l3[0] == '<' && l3.last() == '/');
            }
            assert(!starts_with_slash(l1) && !starts_with_slash(l2) && !starts_with_slash(l3)
                && !starts_with_slash(l4) && !starts_with_slash(at) && !starts_with_slash(sp));
            assert(!ends_with_lt(p4) && !ends_with_lt(p7));
            lemma_close_add(sp, l1);
            lemma_close_add(p1, tag);
            lemma_close_add(p2, at);
            lemma_close_add(p3, l2);
            lemma_close_add(p4, ct);
            lemma_close_add(p5, sp);
            lemma_close_add(p6, l3);
            lemma_close_add(p7, tag);
            lemma_close_add(p8, l4);
        },
    }
}

proof fn lemma_children_tag_counts(cs: Seq<NodeModel>, ind: nat)
    requires
        forall|i: int| 0 <= i < cs.len() ==> free_of(#[trigger] cs[i], '<') && tags_not_slashed(
            cs[i],
        ),
    ensures
        count_char(children_text(cs, ind), '<') == 2 * children_count(cs),
        count_close(children_text(cs, ind)) == children_count(cs),
    decreases cs,
{
    if cs.len() > 0 {
        let init = cs.drop_last();
        assert(forall|i: int| 0 <= i < init.len() ==> init[i] == cs[i]);
        lemma_children_tag_counts(init, ind);
        lemma_render_tag_counts(cs.last(), ind + 2);
        let a = children_text(init, ind);
        let sp = spaces(ind);
        let r = rendered(cs.last(), ind + 2);
        let nl = seq!['\n'];
        lemma_count_none(sp, '<');
        lemma_count_single('\n', '<');
        lemma_count_add(a, sp, '<');
        lemma_count_add(a + sp, r, '<');
        lemma_count_add(a + sp + r, nl, '<');
        lemma_close_none(sp);
        assert(count_close(nl) == 0);
        assert(r[0] == ' ');
        assert(!starts_with_slash(sp) && !starts_with_slash(r) && !starts_with_slash(nl));
        lemma_close_add(a, sp);
        lemma_close_add(a + sp, r);
        lemma_close_add(a + sp + r, nl);
    }
}

fn append_lit(out: &mut String, lit: &str)
    ensures
        final(out)@ == old(out)@ + lit@,
{
    out.append(lit);
}

fn append_attrs(out: &mut String, a: &AttrMap)
    ensures
        final(out)@ == old(out)@ + attrs_text(a@),
{
    let ghost start = out@;
    let mut i: usize = 0;
    while i < a.entries.len()
        invariant
            i <= a.entries.len(),
            out@ == start + attrs_text(a@.take(i as int)),
        decreases a.entries.len() - i,
    {
        proof {
            reveal_strlit(" ");
            reveal_strlit("=\"");
            reveal_strlit("\"");
        }
        let ghost prev = out@;
        if i > 0 {
            append_lit(out, " ");
        }
        out.append(a.entries[i].0.as_str());
        append_lit(out, "=\"");
        out.append(a.entries[i].1.as_str());
        append_lit(out, "\"");
        proof {
            let t = a@.take(i + 1);
            assert(t.drop_last() =~= a@.take(i as int));
            assert(t.last() == a@[i as int]);
            assert(out@ =~= start + attrs_text(t));
        }
        i += 1;
    }
    assert(a@.take(i as int) =~= a@);
}

impl Node {
    fn _indent(out: &mut String, indentation: usize)
        ensures
            final(out)@ == old(out)@ + spaces(indentation as nat),
    {
        let ghost start = out@;
        let mut i: usize = 0;
        while i < indentation
            invariant
                i <= indentation,
                out@ == start + spaces(i as nat),
            decreases indentation - i,
        {
            proof {
                reveal_strlit(" ");
            }
            append_lit(out, " ");
            i += 1;
            assert(out@ =~= start + spaces(i as nat));
        }
    }

    fn display(&self, out: &mut String, indentation: usize)
        requires
            indentation + 2 * depth(self@) <= usize::MAX,
        ensures
            final(out)@ == old(out)@ + rendered(self@, indentation as nat),
        decreases self,
    {
        let ghost start = out@;
        match &self.node_type {
            NodeType::Text(t) => {
                Node::_indent(out, indentation);
                let mut c = Cursor::new(t.clone());
                c.consume_whitespace();
                proof {
                    lemma_take_end(t@, 0, CharClass::Whitespace);
                }
                let a = c.pos;
                let n = c.chars.len();
                if a < n {
                    let mut e = n;
                    while e > a && is_whitespace(c.chars[e - 1])
                        invariant
                            c.wf(),
                            c.src() == t@,
                            a < e <= n == t@.len(),
                            n - e + trail_len(t@, e as int) == trail_len(t@, n as int),
                            a == ws_end(t@, 0),
                            !is_whitespace_spec(t@[a as int]),
                        decreases e,
                    {
                        e -= 1;
                    }
                    out.append(t.as_str().substring_char(a, e));
                }
                assert(out@ =~= start + rendered(self@, indentation as nat));
            },
            NodeType::Element(d) => {
                proof {
                    reveal_strlit("<");
                    reveal_strlit(" ");
                    reveal_strlit(">\n");
                    reveal_strlit("</");
                    reveal_strlit(">");
                }
                Node::_indent(out, indentation);
                append_lit(out, "<");
                out.append(d.tag_name.as_str());
                if d.attributes.len() > 0 {
                    append_lit(out, " ");
                    append_attrs(out, &d.attributes);
                }
                append_lit(out, ">\n");
                let ghost head = out@;
                let ghost cs = self@->children;
                let mut i: usize = 0;
                while i < self.children.len()
                    invariant
                        i <= self.children.len(),
                        cs == self@->children,
                        cs.len() == self.children.len(),
                        indentation + 2 * depth(self@) <= usize::MAX,
                        depth(self@) == 1 + children_depth(cs),
                        forall|j: int| 0 <= j < cs.len() ==> #[trigger] cs[j] == node_model(self.children@[j]),
                        out@ == head + children_text(cs.take(i as int), indentation as nat),
                    decreases self.children.len() - i,
                {
                    let child = &self.children[i];
                    proof {
                        assert(cs[i as int] == child@);
                        lemma_children_depth(cs, i as int);
                    }
                    Node::_indent(out, indentation);
                    child.display(out, indentation + 2);
                    append_lit(out, "\n");
                    proof {
                        reveal_strlit("\n");
                        let t = cs.take(i + 1);
                        assert(t.drop_last() =~= cs.take(i as int));
                        assert(out@ =~= head + children_text(t, indentation as nat));
                    }
                    i += 1;
                }
                assert(cs.take(i as int) =~= cs);
                Node::_indent(out, indentation);
                append_lit(out, "</");
                out.append(d.tag_name.as_str());
                append_lit(out, ">");
                assert(out@ =~= start + rendered(self@, indentation as nat));
            },
        }
    }

    /// The indented rendering of the tree.
    pub fn to_string(&self) -> (r: String)
        requires
            2 * depth(self@) <= usize::MAX,
        ensures
            r@ == rendered(self@, 0),
    {
        let mut out = String::new();
        self.display(&mut out, 0);
        out
    }
}

} // verus!
