use vstd::prelude::*;
use crate::cursor::{
    expect_spec, is_ascii_digit, is_identifier_char, lemma_take_end, peek_spec, take_end,
    ws_end, CharClass, Cursor, ParseError, is_valid_identifier_char,
};
use crate::html::advanced;

verus! {

/// A parsed stylesheet: its rules in source order.
#[derive(Debug, PartialEq)]
pub struct Stylesheet {
    pub rules: Vec<Rule>,
}

#[derive(Debug, PartialEq)]
pub struct Rule {
    pub selectors: Vec<Selector>,
    pub declarations: Vec<Declaration>,
}

#[derive(Debug, PartialEq)]
pub enum Selector {
    Simple(SimpleSelector),
}

#[derive(Debug, PartialEq)]
pub struct SimpleSelector {
    pub tag_name: Option<String>,
    pub id: Option<String>,
    pub class: Vec<String>,
}

#[derive(Debug, PartialEq)]
pub struct Declaration {
    pub name: String,
    pub value: Value,
}

/// A property value. A length holds its magnitude as the decimal numeral of the source
/// (digits with at most one `.`, between digits), which converts to a float without loss of meaning.
#[derive(Debug, PartialEq)]
pub enum Value {
    Keyword(String),
    Length(String, Unit),
    ColorValue(Color),
}

#[derive(Debug, Clone, Copy, PartialEq, Eq, Structural)]
pub enum Unit {
    Px,
}

#[derive(Debug, Clone, Copy, PartialEq, Eq, Structural)]
pub struct Color {
    pub r: u8,
    pub g: u8,
    pub b: u8,
    pub a: u8,
}

pub ghost struct SimpleModel {
    pub tag: Option<Seq<char>>,
    pub id: Option<Seq<char>>,
    pub classes: Seq<Seq<char>>,
}

pub ghost enum ValueModel {
    Keyword(Seq<char>),
    Length(Seq<char>, Unit),
    ColorValue(Color),
}

pub ghost struct DeclModel {
    pub name: Seq<char>,
    pub value: ValueModel,
}

pub ghost struct RuleModel {
    pub selectors: Seq<SimpleModel>,
    pub declarations: Seq<DeclModel>,
}

pub open spec fn opt_view(o: Option<String>) -> Option<Seq<char>> {
    match o {
        Some(t) => Some(t@),
        None => None,
    }
}

pub open spec fn strings_view(v: Seq<String>) -> Seq<Seq<char>> {
    v.map_values(|t: String| t@)
}

impl View for SimpleSelector {
    type V = SimpleModel;

    open spec fn view(&self) -> SimpleModel {
        SimpleModel {
            tag: opt_view(self.tag_name),
            id: opt_view(self.id),
            classes: strings_view(self.class@),
        }
    }
}

impl View for Selector {
    type V = SimpleModel;

    open spec fn view(&self) -> SimpleModel {
        match self {
            Selector::Simple(s) => s@,
        }
    }
}

impl View for Value {
    type V = ValueModel;

    open spec fn view(&self) -> ValueModel {
        match self {
            Value::Keyword(k) => ValueModel::Keyword(k@),
            Value::Length(n, u) => ValueModel::Length(n@, *u),
            Value::ColorValue(c) => ValueModel::ColorValue(*c),
        }
    }
}

impl View for Declaration {
    type V = DeclModel;

    open spec fn view(&self) -> DeclModel {
        DeclModel { name: self.name@, value: self.value@ }
    }
}

impl View for Rule {
    type V = RuleModel;

    open spec fn view(&self) -> RuleModel {
        RuleModel {
            selectors: self.selectors@.map_values(|x: Selector| x@),
            declarations: self.declarations@.map_values(|d: Declaration| d@),
        }
    }
}

impl View for Stylesheet {
    type V = Seq<RuleModel>;

    open spec fn view(&self) -> Seq<RuleModel> {
        self.rules@.map_values(|r: Rule| r@)
    }
}

pub open spec fn empty_simple() -> SimpleModel {
    SimpleModel { tag: None, id: None, classes: Seq::empty() }
}

/// The components of one simple selector from `p` on, added to `acc`: `#id` sets the id,
/// `.class` appends a class, a bare name sets the tag name (the last one wins); white space
/// between components is skipped. Stops before the first other character.
pub open spec fn simple_selector_spec(s: Seq<char>, p: int, acc: SimpleModel) -> (SimpleModel, int)
    decreases s.len() - p,
    when 0 <= p <= s.len()
{
    let q = ws_end(s, p);
    proof {
        lemma_take_end(s, p, CharClass::Whitespace);
    }
    if q >= s.len() {
        (acc, q)
    } else if s[q] == '#' || s[q] == '.' {
        let e = take_end(s, q + 1, CharClass::Identifier);
        proof {
            lemma_take_end(s, q + 1, CharClass::Identifier);
        }
        let name = s.subrange(q + 1, e);
        if s[q] == '#' {
            simple_selector_spec(s, e, SimpleModel { id: Some(name), ..acc })
        } else {
            simple_selector_spec(s, e, SimpleModel { classes: acc.classes.push(name), ..acc })
        }
    } else if is_identifier_char(s[q]) {
        let e = take_end(s, q, CharClass::Identifier);
        proof {
            lemma_take_end(s, q, CharClass::Identifier);
        }
        simple_selector_spec(s, e, SimpleModel { tag: Some(s.subrange(q, e)), ..acc })
    } else {
        (acc, q)
    }
}

/// A comma-separated selector list from `p` up to the `{` that ends it, appended to `acc`;
/// the position of that `{`.
pub open spec fn selectors_spec(s: Seq<char>, p: int, acc: Seq<SimpleModel>) -> Result<
    (Seq<SimpleModel>, int),
    ParseError,
>
    decreases s.len() - p,
{
    let (sel, q) = simple_selector_spec(s, p, empty_simple());
    let r = ws_end(s, q);
    match peek_spec(s, r) {
        Err(e) => Err(e),
        Ok(c) => if c == '{' {
            Ok((acc.push(sel), r))
        } else if c == ',' {
            let t = ws_end(s, r + 1);
            if advanced(s, p, t) {
                selectors_spec(s, t, acc.push(sel))
            } else {
                Err(ParseError::UnexpectedToken)
            }
        } else {
            Err(ParseError::UnexpectedToken)
        },
    }
}

/// The value of a hexadecimal digit.
pub open spec fn hex_value(c: char) -> Option<int> {
    if '0' <= c && c <= '9' {
        Some(c as int - '0' as int)
    } else if 'a' <= c && c <= 'f' {
        Some(c as int - 'a' as int + 10)
    } else if 'A' <= c && c <= 'F' {
        Some(c as int - 'A' as int + 10)
    } else {
        None
    }
}

/// Two hexadecimal digits at `p`, read as one byte.
pub open spec fn hex_pair_spec(s: Seq<char>, p: int) -> Result<(u8, int), ParseError> {
    match peek_spec(s, p) {
        Err(e) => Err(e),
        Ok(hi) => match peek_spec(s, p + 1) {
            Err(e) => Err(e),
            Ok(lo) => match (hex_value(hi), hex_value(lo)) {
                (Some(h), Some(l)) => Ok(((16 * h + l) as u8, p + 2)),
                _ => Err(ParseError::NumericConversionFailure),
            },
        },
    }
}

/// `#rrggbb` at `p`: an opaque color.
pub open spec fn color_spec(s: Seq<char>, p: int) -> Result<(ValueModel, int), ParseError> {
    match expect_spec(s, p, '#') {
        Err(e) => Err(e),
        Ok(p1) => match hex_pair_spec(s, p1) {
            Err(e) => Err(e),
            Ok((r, p2)) => match hex_pair_spec(s, p2) {
                Err(e) => Err(e),
                Ok((g, p3)) => match hex_pair_spec(s, p3) {
                    Err(e) => Err(e),
                    Ok((b, p4)) => Ok((ValueModel::ColorValue(Color { r, g, b, a: 255 }), p4)),
                },
            },
        },
    }
}

/// A decimal numeral: it begins and ends with a digit and holds at most one `.`.
pub open spec fn is_decimal_numeral(t: Seq<char>) -> bool {
    &&& t.len() > 0
    &&& is_ascii_digit(t[0])
    &&& is_ascii_digit(t[t.len() - 1])
    &&& forall|i: int, j: int| 0 <= i < j < t.len() ==> !(t[i] == '.' && t[j] == '.')
}

/// `px` in any case.
pub open spec fn is_px(u: Seq<char>) -> bool {
    u.len() == 2 && (u[0] == 'p' || u[0] == 'P') && (u[1] == 'x' || u[1] == 'X')
}

/// A length at `p`: the run of digits and dots, then a unit name.
pub open spec fn length_spec(s: Seq<char>, p: int) -> Result<(ValueModel, int), ParseError> {
    let e = take_end(s, p, CharClass::Number);
    let numeral = s.subrange(p, e);
    if !is_decimal_numeral(numeral) {
        Err(ParseError::NumericConversionFailure)
    } else {
        let u = take_end(s, e, CharClass::DeclarationName);
        if is_px(s.subrange(e, u)) {
            Ok((ValueModel::Length(numeral, Unit::Px), u))
        } else {
            Err(ParseError::UnknownUnit)
        }
    }
}

/// A value at `p`: a length where a digit stands there, a color where `#` does, else a
/// keyword (a run of letters and `-`, possibly empty).
pub open spec fn value_spec(s: Seq<char>, p: int) -> Result<(ValueModel, int), ParseError> {
    match peek_spec(s, p) {
        Err(e) => Err(e),
        Ok(c) => if is_ascii_digit(c) {
            length_spec(s, p)
        } else if c == '#' {
            color_spec(s, p)
        } else {
            let e = take_end(s, p, CharClass::Keyword);
            Ok((ValueModel::Keyword(s.subrange(p, e)), e))
        },
    }
}

/// `name : value ;` at `p`.
pub open spec fn declaration_spec(s: Seq<char>, p: int) -> Result<(DeclModel, int), ParseError> {
    let n = take_end(s, p, CharClass::DeclarationName);
    match expect_spec(s, ws_end(s, n), ':') {
        Err(e) => Err(e),
        Ok(w) => match value_spec(s, ws_end(s, w)) {
            Err(e) => Err(e),
            Ok((v, r)) => match expect_spec(s, r, ';') {
                Err(e) => Err(e),
                Ok(t) => Ok((DeclModel { name: s.subrange(p, n), value: v }, t)),
            },
        },
    }
}

/// Declarations from `p` up to and including the `}` that closes the block, appended to `acc`.
pub open spec fn declarations_spec(s: Seq<char>, p: int, acc: Seq<DeclModel>) -> Result<
    (Seq<DeclModel>, int),
    ParseError,
>
    decreases s.len() - p,
{
    let q = ws_end(s, p);
    match peek_spec(s, q) {
        Err(e) => Err(e),
        Ok(c) => if c == '}' {
            Ok((acc, q + 1))
        } else {
            match declaration_spec(s, q) {
                Err(e) => Err(e),
                Ok((d, r)) => if advanced(s, p, r) {
                    declarations_spec(s, r, acc.push(d))
                } else {
                    Err(ParseError::UnexpectedToken)
                },
            }
        },
    }
}

/// `selectors { declarations }` at `p`.
pub open spec fn rule_spec(s: Seq<char>, p: int) -> Result<(RuleModel, int), ParseError> {
    match selectors_spec(s, p, Seq::empty()) {
        Err(e) => Err(e),
        Ok((sels, a)) => match expect_spec(s, a, '{') {
            Err(e) => Err(e),
            Ok(a1) => match declarations_spec(s, a1, Seq::empty()) {
                Err(e) => Err(e),
                Ok((decls, r)) => Ok((RuleModel { selectors: sels, declarations: decls }, r)),
            },
        },
    }
}

/// Rules from `p` to the end of input, appended to `acc`.
pub open spec fn rules_spec(s: Seq<char>, p: int, acc: Seq<RuleModel>) -> Result<
    Seq<RuleModel>,
    ParseError,
>
    decreases s.len() - p,
{
    let q = ws_end(s, p);
    if q >= s.len() {
        Ok(acc)
    } else {
        match rule_spec(s, q) {
            Err(e) => Err(e),
            Ok((rule, r)) => if advanced(s, p, r) {
                rules_spec(s, r, acc.push(rule))
            } else {
                Err(ParseError::UnexpectedToken)
            },
        }
    }
}

/// A declaration block that holds only white space yields no declarations.
pub proof fn lemma_empty_block(s: Seq<char>, p: int)
    requires
        0 <= ws_end(s, p) < s.len(),
        s[ws_end(s, p)] == '}',
    ensures
        declarations_spec(s, p, Seq::empty()) == Ok::<(Seq<DeclModel>, int), ParseError>(
            (Seq::empty(), ws_end(s, p) + 1),
        ),
{
}

/// The stylesheet that `s` holds.
pub open spec fn stylesheet_spec(s: Seq<char>) -> Result<Seq<RuleModel>, ParseError> {
    rules_spec(s, 0, Seq::empty())
}

/// Parses `input` as a stylesheet.
pub fn parse_css(input: String) -> (r: Result<Stylesheet, ParseError>)
    ensures
        match stylesheet_spec(input@) {
            Ok(rules) => r is Ok && r->Ok_0@ == rules,
            Err(e) => r is Err && r->Err_0 == e,
        },
{
    let mut cursor = Cursor::new(input);
    match parse_rules(&mut cursor) {
        Ok(rules) => Ok(Stylesheet { rules }),
        Err(e) => Err(e),
    }
}

fn parse_rules(c: &mut Cursor) -> (r: Result<Vec<Rule>, ParseError>)
    requires
        old(c).wf(),
    ensures
        final(c).wf(),
        final(c).src() == old(c).src(),
        old(c).pos <= final(c).pos,
        r is Ok ==> final(c).pos == final(c).chars.len(),
        match rules_spec(old(c).src(), old(c).at(), Seq::empty()) {
            Ok(rules) => r is Ok && r->Ok_0@.map_values(|x: Rule| x@) == rules,
            Err(e) => r is Err && r->Err_0 == e,
        },
{
    let ghost s = c.src();
    let ghost p0 = c.at();
    let mut rules: Vec<Rule> = Vec::new();
    assert(rules@.map_values(|x: Rule| x@) =~= Seq::empty());
    loop
        invariant
            c.wf(),
            c.src() == s,
            s == old(c).src(),
            p0 == old(c).at(),
            p0 <= c.pos,
            rules_spec(s, c.at(), rules@.map_values(|x: Rule| x@)) == rules_spec(s, p0, Seq::empty()),
        decreases s.len() - c.pos,
    {
        c.consume_whitespace();
        if c.eof() {
            return Ok(rules);
        }
        match parse_rule(c) {
            Err(e) => return Err(e),
            Ok(rule) => {
                let ghost before = rules@.map_values(|x: Rule| x@);
                rules.push(rule);
                assert(rules@.map_values(|x: Rule| x@) =~= before.push(rule@));
            },
        }
    }
}

fn parse_rule(c: &mut Cursor) -> (r: Result<Rule, ParseError>)
    requires
        old(c).wf(),
    ensures
        final(c).wf(),
        final(c).src() == old(c).src(),
        old(c).pos <= final(c).pos,
        match rule_spec(old(c).src(), old(c).at()) {
            Ok((m, q)) => r is Ok && r->Ok_0@ == m && final(c).at() == q && old(c).pos < final(c).pos,
            Err(e) => r is Err && r->Err_0 == e,
        },
{
    let selectors = match parse_selectors(c) {
        Ok(v) => v,
        Err(e) => return Err(e),
    };
    let declarations = match parse_declarations(c) {
        Ok(v) => v,
        Err(e) => return Err(e),
    };
    Ok(Rule { selectors, declarations })
}

fn parse_selectors(c: &mut Cursor) -> (r: Result<Vec<Selector>, ParseError>)
    requires
        old(c).wf(),
    ensures
        final(c).wf(),
        final(c).src() == old(c).src(),
        old(c).pos <= final(c).pos,
        match selectors_spec(old(c).src(), old(c).at(), Seq::empty()) {
            Ok((m, q)) => r is Ok && r->Ok_0@.map_values(|x: Selector| x@) == m && final(c).at() == q,
            Err(e) => r is Err && r->Err_0 == e,
        },
{
    let ghost s = c.src();
    let ghost p0 = c.at();
    let mut selectors: Vec<Selector> = Vec::new();
    assert(selectors@.map_values(|x: Selector| x@) =~= Seq::empty());
    loop
        invariant
            c.wf(),
            c.src() == s,
            s == old(c).src(),
            p0 == old(c).at(),
            p0 <= c.pos,
            selectors_spec(s, c.at(), selectors@.map_values(|x: Selector| x@)) == selectors_spec(
                s,
                p0,
                Seq::empty(),
            ),
        decreases s.len() - c.pos,
    {
        let sel = parse_simple_selector(c);
        let ghost before = selectors@.map_values(|x: Selector| x@);
        selectors.push(sel);
        assert(selectors@.map_values(|x: Selector| x@) =~= before.push(sel@));
        c.consume_whitespace();
        match c.next_char() {
            Err(e) => return Err(e),
            Ok(ch) => {
                if ch == '{' {
                    return Ok(selectors);
                } else if ch == ',' {
                    let _ = c.consume_char();
                    c.consume_whitespace();
                } else {
                    return Err(ParseError::UnexpectedToken);
                }
            },
        }
    }
}

fn parse_simple_selector(c: &mut Cursor) -> (r: Selector)
    requires
        old(c).wf(),
    ensures
        final(c).wf(),
        final(c).src() == old(c).src(),
        old(c).pos <= final(c).pos,
        simple_selector_spec(old(c).src(), old(c).at(), empty_simple()) == (r@, final(c).at()),
{
    let ghost s = c.src();
    let ghost p0 = c.at();
    let mut selector = SimpleSelector { tag_name: None, id: None, class: Vec::new() };
    assert(selector@ == empty_simple()) by {
        assert(strings_view(selector.class@) =~= Seq::empty());
    }
    loop
        invariant
            c.wf(),
            c.src() == s,
            s == old(c).src(),
            p0 == old(c).at(),
            p0 <= c.pos,
            simple_selector_spec(s, c.at(), selector@) == simple_selector_spec(s, p0, empty_simple()),
        decreases s.len() - c.pos,
    {
        c.consume_whitespace();
        if c.eof() {
            return Selector::Simple(selector);
        }
        let ch = c.chars[c.pos];
        if ch == '#' {
            let _ = c.consume_char();
            let name = parse_identifier(c);
            selector.id = Some(name);
        } else if ch == '.' {
            let _ = c.consume_char();
            let name = parse_identifier(c);
            let ghost before = strings_view(selector.class@);
            selector.class.push(name);
            assert(strings_view(selector.class@) =~= before.push(name@));
        } else if is_valid_identifier_char(ch) {
            selector.tag_name = Some(parse_identifier(c));
        } else {
            return Selector::Simple(selector);
        }
    }
}

fn parse_declarations(c: &mut Cursor) -> (r: Result<Vec<Declaration>, ParseError>)
    requires
        old(c).wf(),
    ensures
        final(c).wf(),
        final(c).src() == old(c).src(),
        old(c).pos <= final(c).pos,
        match expect_spec(old(c).src(), old(c).at(), '{') {
            Err(e) => r is Err && r->Err_0 == e,
            Ok(p1) => match declarations_spec(old(c).src(), p1, Seq::empty()) {
                Ok((m, q)) => r is Ok && r->Ok_0@.map_values(|x: Declaration| x@) == m
                    && final(c).at() == q && old(c).pos < final(c).pos,
                Err(e) => r is Err && r->Err_0 == e,
            },
        },
{
    match c.expect('{') {
        Ok(()) => {},
        Err(e) => return Err(e),
    }
    let ghost s = c.src();
    let ghost p0 = c.at();
    let mut declarations: Vec<Declaration> = Vec::new();
    assert(declarations@.map_values(|x: Declaration| x@) =~= Seq::empty());
    loop
        invariant
            c.wf(),
            c.src() == s,
            s == old(c).src(),
            p0 == old(c).at() + 1,
            expect_spec(s, old(c).at(), '{') == Ok::<int, ParseError>(p0),
            p0 <= c.pos,
            declarations_spec(s, c.at(), declarations@.map_values(|x: Declaration| x@))
                == declarations_spec(s, p0, Seq::empty()),
        decreases s.len() - c.pos,
    {
        c.consume_whitespace();
        match c.next_char() {
            Err(e) => return Err(e),
            Ok(ch) => {
                if ch == '}' {
                    let _ = c.consume_char();
                    return Ok(declarations);
                }
            },
        }
        match parse_declaration(c) {
            Err(e) => return Err(e),
            Ok(d) => {
                let ghost before = declarations@.map_values(|x: Declaration| x@);
                declarations.push(d);
                assert(declarations@.map_values(|x: Declaration| x@) =~= before.push(d@));
            },
        }
    }
}

fn parse_declaration(c: &mut Cursor) -> (r: Result<Declaration, ParseError>)
    requires
        old(c).wf(),
    ensures
        final(c).wf(),
        final(c).src() == old(c).src(),
        old(c).pos <= final(c).pos,
        match declaration_spec(old(c).src(), old(c).at()) {
            Ok((m, q)) => r is Ok && r->Ok_0@ == m && final(c).at() == q && old(c).pos < final(c).pos,
            Err(e) => r is Err && r->Err_0 == e,
        },
{
    let name = parse_declaration_name(c);
    c.consume_whitespace();
    match c.expect(':') {
        Ok(()) => {},
        Err(e) => return Err(e),
    }
    c.consume_whitespace();
    let value = match parse_value(c) {
        Ok(v) => v,
        Err(e) => return Err(e),
    };
    match c.expect(';') {
        Ok(()) => Ok(Declaration { name, value }),
        Err(e) => Err(e),
    }
}

fn parse_value(c: &mut Cursor) -> (r: Result<Value, ParseError>)
    requires
        old(c).wf(),
    ensures
        final(c).wf(),
        final(c).src() == old(c).src(),
        old(c).pos <= final(c).pos,
        match value_spec(old(c).src(), old(c).at()) {
            Ok((m, q)) => r is Ok && r->Ok_0@ == m && final(c).at() == q && old(c).pos <= final(c).pos,
            Err(e) => r is Err && r->Err_0 == e,
        },
{
    match c.next_char() {
        Err(e) => Err(e),
        Ok(ch) => {
            if '0' <= ch && ch <= '9' {
                parse_length(c)
            } else if ch == '#' {
                parse_color(c)
            } else {
                Ok(parse_keyword(c))
            }
        },
    }
}

fn parse_color(c: &mut Cursor) -> (r: Result<Value, ParseError>)
    requires
        old(c).wf(),
    ensures
        final(c).wf(),
        final(c).src() == old(c).src(),
        old(c).pos <= final(c).pos,
        match color_spec(old(c).src(), old(c).at()) {
            Ok((m, q)) => r is Ok && r->Ok_0@ == m && final(c).at() == q && old(c).pos < final(c).pos,
            Err(e) => r is Err && r->Err_0 == e,
        },
{
    match c.expect('#') {
        Ok(()) => {},
        Err(e) => return Err(e),
    }
    let r = match parse_hex_pair(c) {
        Ok(x) => x,
        Err(e) => return Err(e),
    };
    let g = match parse_hex_pair(c) {
        Ok(x) => x,
        Err(e) => return Err(e),
    };
    let b = match parse_hex_pair(c) {
        Ok(x) => x,
        Err(e) => return Err(e),
    };
    Ok(Value::ColorValue(Color { r, g, b, a: 255 }))
}

/// The value of the hexadecimal digit `ch`, if it is one.
pub fn hex_digit(ch: char) -> (r: Option<u8>)
    ensures
        match hex_value(ch) {
            Some(v) => r == Some(v as u8) && 0 <= v < 16,
            None => r is None,
        },
{
    if '0' <= ch && ch <= '9' {
        Some((ch as u32 - '0' as u32) as u8)
    } else if 'a' <= ch && ch <= 'f' {
        Some((ch as u32 - 'a' as u32 + 10) as u8)
    } else if 'A' <= ch && ch <= 'F' {
        Some((ch as u32 - 'A' as u32 + 10) as u8)
    } else {
        None
    }
}

fn parse_hex_pair(c: &mut Cursor) -> (r: Result<u8, ParseError>)
    requires
        old(c).wf(),
    ensures
        final(c).wf(),
        final(c).src() == old(c).src(),
        old(c).pos <= final(c).pos,
        match hex_pair_spec(old(c).src(), old(c).at()) {
            Ok((m, q)) => r is Ok && r->Ok_0 == m && final(c).at() == q && old(c).pos < final(c).pos,
            Err(e) => r is Err && r->Err_0 == e,
        },
{
    let hi = match c.consume_char() {
        Ok(x) => x,
        Err(e) => return Err(e),
    };
    let lo = match c.consume_char() {
        Ok(x) => x,
        Err(e) => return Err(e),
    };
    match (hex_digit(hi), hex_digit(lo)) {
        (Some(h), Some(l)) => Ok(h * 16 + l),
        _ => Err(ParseError::NumericConversionFailure),
    }
}

fn parse_length(c: &mut Cursor) -> (r: Result<Value, ParseError>)
    requires
        old(c).wf(),
    ensures
        final(c).wf(),
        final(c).src() == old(c).src(),
        old(c).pos <= final(c).pos,
        match length_spec(old(c).src(), old(c).at()) {
            Ok((m, q)) => r is Ok && r->Ok_0@ == m && final(c).at() == q && old(c).pos <= final(c).pos,
            Err(e) => r is Err && r->Err_0 == e,
        },
{
    let numeral = match parse_float(c) {
        Ok(x) => x,
        Err(e) => return Err(e),
    };
    match parse_unit(c) {
        Ok(unit) => Ok(Value::Length(numeral, unit)),
        Err(e) => Err(e),
    }
}

/// Reads the run of digits and dots at the position; it must be a decimal numeral.
fn parse_float(c: &mut Cursor) -> (r: Result<String, ParseError>)
    requires
        old(c).wf(),
    ensures
        final(c).wf(),
        final(c).src() == old(c).src(),
        old(c).pos <= final(c).pos,
        final(c).at() == take_end(old(c).src(), old(c).at(), CharClass::Number),
        r is Ok <==> is_decimal_numeral(old(c).src().subrange(old(c).at(), final(c).at())),
        r is Ok ==> r->Ok_0@ == old(c).src().subrange(old(c).at(), final(c).at()),
        r is Err ==> r->Err_0 == ParseError::NumericConversionFailure,
{
    let start = c.pos;
    let text = c.consume_while(CharClass::Number);
    let end = c.pos;
    let ghost t = c.src().subrange(start as int, end as int);
    if start == end || !('0' <= c.chars[start] && c.chars[start] <= '9') || !('0' <= c.chars[end
        - 1] && c.chars[end - 1] <= '9') {
        return Err(ParseError::NumericConversionFailure);
    }
    let mut seen_dot = false;
    let mut i: usize = start;
    while i < end
        invariant
            c.wf(),
            c.src() == old(c).src(),
            old(c).pos <= c.pos,
            c.pos == end,
            start == old(c).pos,
            end == take_end(old(c).src(), old(c).at(), CharClass::Number),
            start <= i <= end <= c.chars.len(),
            t == c.src().subrange(start as int, end as int),
            seen_dot <==> exists|k: int| start <= k < i && c.chars@[k] == '.',
            forall|a: int, b: int| start <= a < b < i ==> !(c.chars@[a] == '.' && c.chars@[b] == '.'),
        decreases end - i,
    {
        if c.chars[i] == '.' {
            if seen_dot {
                assert(!is_decimal_numeral(t)) by {
                    let k = choose|k: int| start <= k < i && c.chars@[k] == '.';
                    assert(t[k - start] == '.' && t[i - start] == '.');
                }
                return Err(ParseError::NumericConversionFailure);
            }
            seen_dot = true;
        }
        i += 1;
    }
    assert(is_decimal_numeral(t)) by {
        assert forall|a: int, b: int| 0 <= a < b < t.len() implies !(t[a] == '.' && t[b] == '.') by {
            assert(t[a] == c.chars@[start + a] && t[b] == c.chars@[start + b]);
        }
    }
    Ok(text)
}

fn parse_unit(c: &mut Cursor) -> (r: Result<Unit, ParseError>)
    requires
        old(c).wf(),
    ensures
        final(c).wf(),
        final(c).src() == old(c).src(),
        old(c).pos <= final(c).pos,
        final(c).at() == take_end(old(c).src(), old(c).at(), CharClass::DeclarationName),
        is_px(old(c).src().subrange(old(c).at(), final(c).at())) ==> r == Ok::<Unit, ParseError>(Unit::Px),
        !is_px(old(c).src().subrange(old(c).at(), final(c).at())) ==> r == Err::<Unit, ParseError>(ParseError::UnknownUnit),
{
    let start = c.pos;
    let _ = parse_declaration_name(c);
    let end = c.pos;
    if end - start == 2 && (c.chars[start] == 'p' || c.chars[start] == 'P') && (c.chars[start + 1]
        == 'x' || c.chars[start + 1] == 'X') {
        Ok(Unit::Px)
    } else {
        Err(ParseError::UnknownUnit)
    }
}

fn parse_keyword(c: &mut Cursor) -> (r: Value)
    requires
        old(c).wf(),
    ensures
        final(c).wf(),
        final(c).src() == old(c).src(),
        old(c).pos <= final(c).pos,
        final(c).at() == take_end(old(c).src(), old(c).at(), CharClass::Keyword),
        r@ == ValueModel::Keyword(old(c).src().subrange(old(c).at(), final(c).at())),
{
    Value::Keyword(c.consume_while(CharClass::Keyword))
}

fn parse_declaration_name(c: &mut Cursor) -> (r: String)
    requires
        old(c).wf(),
    ensures
        final(c).wf(),
        final(c).src() == old(c).src(),
        old(c).pos <= final(c).pos,
        final(c).at() == take_end(old(c).src(), old(c).at(), CharClass::DeclarationName),
        r@ == old(c).src().subrange(old(c).at(), final(c).at()),
{
    c.consume_while(CharClass::DeclarationName)
}

fn parse_identifier(c: &mut Cursor) -> (r: String)
    requires
        old(c).wf(),
    ensures
        final(c).wf(),
        final(c).src() == old(c).src(),
        old(c).pos <= final(c).pos,
        final(c).at() == take_end(old(c).src(), old(c).at(), CharClass::Identifier),
        r@ == old(c).src().subrange(old(c).at(), final(c).at()),
{
    c.consume_while(CharClass::Identifier)
}

} // verus!
