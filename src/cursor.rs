use vstd::prelude::*;
use vstd::std_specs::iter::IteratorSpec;

verus! {

/// Why a parse was abandoned. Every condition is fatal: no partial result is returned.
#[derive(Debug, Clone, Copy, PartialEq, Eq, Structural)]
pub enum ParseError {
    /// A required literal token (`>`, `{`, `;`, `:`, `=`, a quote) was not where the grammar needs it.
    StructuralViolation,
    /// A character was required but the input was exhausted.
    UnexpectedEndOfInput,
    /// A character matched no alternative at a decision point.
    UnexpectedToken,
    /// A numeric or hexadecimal lexeme could not be converted.
    NumericConversionFailure,
    /// A unit identifier is not one of the known units.
    UnknownUnit,
    /// A closing tag does not name the element that is open.
    TagMismatch,
}

/// The sets of characters that token-shaped constructs are made of.
#[derive(Debug, Clone, Copy, PartialEq, Eq, Structural)]
pub enum CharClass {
    Whitespace,
    /// ASCII letters and digits.
    Identifier,
    /// ASCII letters, digits and `-`.
    DeclarationName,
    /// ASCII letters and `-`.
    Keyword,
    /// ASCII digits and `.`.
    Number,
    /// Every character but the one given.
    Except(char),
}

/// The Unicode `White_Space` property, as `char::is_whitespace` decides it.
pub open spec fn is_whitespace_spec(c: char) -> bool {
    ('\t' <= c && c <= '\r') || c == ' ' || c == '\u{85}' || c == '\u{a0}' || c == '\u{1680}'
        || ('\u{2000}' <= c && c <= '\u{200a}') || c == '\u{2028}' || c == '\u{2029}'
        || c == '\u{202f}' || c == '\u{205f}' || c == '\u{3000}'
}

pub open spec fn is_ascii_letter(c: char) -> bool {
    ('a' <= c && c <= 'z') || ('A' <= c && c <= 'Z')
}

pub open spec fn is_ascii_digit(c: char) -> bool {
    '0' <= c && c <= '9'
}

pub open spec fn is_identifier_char(c: char) -> bool {
    is_ascii_letter(c) || is_ascii_digit(c)
}

pub open spec fn in_class(cls: CharClass, c: char) -> bool {
    match cls {
        CharClass::Whitespace => is_whitespace_spec(c),
        CharClass::Identifier => is_identifier_char(c),
        CharClass::DeclarationName => is_identifier_char(c) || c == '-',
        CharClass::Keyword => is_ascii_letter(c) || c == '-',
        CharClass::Number => is_ascii_digit(c) || c == '.',
        CharClass::Except(x) => c != x,
    }
}

/// Whether `c` is white space in the sense of `char::is_whitespace`.
pub fn is_whitespace(c: char) -> (r: bool)
    ensures
        r == is_whitespace_spec(c),
{
    ('\t' <= c && c <= '\r') || c == ' ' || c == '\u{85}' || c == '\u{a0}' || c == '\u{1680}'
        || ('\u{2000}' <= c && c <= '\u{200a}') || c == '\u{2028}' || c == '\u{2029}'
        || c == '\u{202f}' || c == '\u{205f}' || c == '\u{3000}'
}

/// Whether `c` is an ASCII letter or digit.
pub fn is_valid_identifier_char(c: char) -> (r: bool)
    ensures
        r == is_identifier_char(c),
{
    ('a' <= c && c <= 'z') || ('A' <= c && c <= 'Z') || ('0' <= c && c <= '9')
}

pub fn char_in_class(cls: CharClass, c: char) -> (r: bool)
    ensures
        r == in_class(cls, c),
{
    match cls {
        CharClass::Whitespace => is_whitespace(c),
        CharClass::Identifier => is_valid_identifier_char(c),
        CharClass::DeclarationName => is_valid_identifier_char(c) || c == '-',
        CharClass::Keyword => ('a' <= c && c <= 'z') || ('A' <= c && c <= 'Z') || c == '-',
        CharClass::Number => ('0' <= c && c <= '9') || c == '.',
        CharClass::Except(x) => c != x,
    }
}

/// How many characters of class `cls` follow position `p` of `s` without interruption.
pub open spec fn take_len(s: Seq<char>, p: int, cls: CharClass) -> nat
    decreases s.len() - p,
{
    if 0 <= p < s.len() && in_class(cls, s[p]) {
        1 + take_len(s, p + 1, cls)
    } else {
        0
    }
}

/// The position where the longest run of class `cls` that starts at `p` ends.
pub open spec fn take_end(s: Seq<char>, p: int, cls: CharClass) -> int {
    p + take_len(s, p, cls)
}

pub open spec fn ws_end(s: Seq<char>, p: int) -> int {
    take_end(s, p, CharClass::Whitespace)
}

pub proof fn lemma_take_end(s: Seq<char>, p: int, cls: CharClass)
    requires
        0 <= p <= s.len(),
    ensures
        p <= take_end(s, p, cls) <= s.len(),
        forall|i: int| p <= i < take_end(s, p, cls) ==> in_class(cls, #[trigger] s[i]),
        take_end(s, p, cls) < s.len() ==> !in_class(cls, s[take_end(s, p, cls)]),
    decreases s.len() - p,
{
    if p < s.len() && in_class(cls, s[p]) {
        lemma_take_end(s, p + 1, cls);
    }
}

/// A run of `n` characters of class `cls` from `p`, followed by the end or another
/// character, is what `take_end` finds.
pub proof fn lemma_run(s: Seq<char>, p: int, n: int, cls: CharClass)
    requires
        0 <= p,
        0 <= n,
        p + n <= s.len(),
        forall|i: int| p <= i < p + n ==> in_class(cls, #[trigger] s[i]),
        p + n == s.len() || !in_class(cls, s[p + n]),
    ensures
        take_end(s, p, cls) == p + n,
    decreases n,
{
    if n > 0 {
        lemma_run(s, p + 1, n - 1, cls);
    }
}

/// The character at `p`, or the end-of-input condition.
pub open spec fn peek_spec(s: Seq<char>, p: int) -> Result<char, ParseError> {
    if 0 <= p < s.len() {
        Ok(s[p])
    } else {
        Err(ParseError::UnexpectedEndOfInput)
    }
}

/// Consuming the literal `c` at `p`: the position after it, or why it is not there.
pub open spec fn expect_spec(s: Seq<char>, p: int, c: char) -> Result<int, ParseError> {
    if !(0 <= p < s.len()) {
        Err(ParseError::UnexpectedEndOfInput)
    } else if s[p] != c {
        Err(ParseError::StructuralViolation)
    } else {
        Ok(p + 1)
    }
}

/// The characters of `s`, in order.
pub fn chars_of(s: &str) -> (r: Vec<char>)
    ensures
        r@ == s@,
{
    broadcast use vstd::string::group_string_axioms;

    let mut chars: Vec<char> = Vec::new();
    let mut it = s.chars();
    loop
        invariant
            it.obeys_prophetic_iter_laws(),
            chars@ + it.remaining() == s@,
        ensures
            chars@ == s@,
        decreases s@.len() - chars@.len(),
    {
        let ghost before = it.remaining();
        match it.next() {
            Some(c) => {
                chars.push(c);
                assert(chars@ + it.remaining() =~= s@) by {
                    assert(before == seq![c] + it.remaining());
                }
            },
            None => {
                assert(chars@ =~= chars@ + it.remaining());
                break;
            },
        }
    }
    chars
}

/// A position over a text buffer that only moves forward, one whole character at a time.
pub struct Cursor {
    pub pos: usize,
    pub chars: Vec<char>,
    pub input: String,
}

impl Cursor {
    pub open spec fn src(&self) -> Seq<char> {
        self.chars@
    }

    pub open spec fn at(&self) -> int {
        self.pos as int
    }

    pub open spec fn wf(&self) -> bool {
        &&& self.chars@ == self.input@
        &&& self.pos <= self.chars.len()
    }

    pub fn new(input: String) -> (r: Cursor)
        ensures
            r.wf(),
            r.pos == 0,
            r.src() == input@,
    {
        let chars = chars_of(input.as_str());
        Cursor { pos: 0, chars, input }
    }

    pub fn eof(&self) -> (r: bool)
        ensures
            r == (self.pos >= self.chars.len()),
    {
        self.pos >= self.chars.len()
    }

    pub fn next_char(&self) -> (r: Result<char, ParseError>)
        ensures
            r == peek_spec(self.src(), self.at()),
    {
        if self.pos < self.chars.len() {
            Ok(self.chars[self.pos])
        } else {
            Err(ParseError::UnexpectedEndOfInput)
        }
    }

    /// Whether the characters from the position on begin with `pat`.
    pub fn starts_with(&self, pat: &str) -> (r: bool)
        requires
            self.wf(),
        ensures
            r == (self.at() + pat@.len() <= self.src().len() && self.src().subrange(
                self.at(),
                self.at() + pat@.len(),
            ) == pat@),
    {
        let n = pat.unicode_len();
        if n > self.chars.len() - self.pos {
            return false;
        }
        let mut i: usize = 0;
        while i < n
            invariant
                self.wf(),
                n == pat@.len(),
                self.pos + n <= self.chars.len(),
                i <= n,
                forall|j: int| 0 <= j < i ==> self.src()[self.at() + j] == pat@[j],
            decreases n - i,
        {
            if self.chars[self.pos + i] != pat.get_char(i) {
                assert(self.src().subrange(self.at(), self.at() + n)[i as int] != pat@[i as int]);
                return false;
            }
            i += 1;
        }
        assert(self.src().subrange(self.at(), self.at() + pat@.len()) =~= pat@);
        true
    }

    pub fn consume_char(&mut self) -> (r: Result<char, ParseError>)
        requires
            old(self).wf(),
        ensures
            final(self).wf(),
            final(self).src() == old(self).src(),
            r == peek_spec(old(self).src(), old(self).at()),
            r is Ok ==> final(self).pos == old(self).pos + 1,
            r is Err ==> final(self).pos == old(self).pos,
    {
        if self.pos < self.chars.len() {
            let c = self.chars[self.pos];
            self.pos = self.pos + 1;
            Ok(c)
        } else {
            Err(ParseError::UnexpectedEndOfInput)
        }
    }

    /// Consumes the literal `c`, failing where it is not next.
    pub fn expect(&mut self, c: char) -> (r: Result<(), ParseError>)
        requires
            old(self).wf(),
        ensures
            final(self).wf(),
            final(self).src() == old(self).src(),
            old(self).pos <= final(self).pos,
            match expect_spec(old(self).src(), old(self).at(), c) {
                Ok(q) => r is Ok && final(self).at() == q,
                Err(e) => r == Err::<(), ParseError>(e),
            },
    {
        match self.consume_char() {
            Ok(d) => {
                if d == c {
                    Ok(())
                } else {
                    Err(ParseError::StructuralViolation)
                }
            },
            Err(e) => Err(e),
        }
    }

    /// Consumes the longest run of characters of class `cls` and returns it.
    pub fn consume_while(&mut self, cls: CharClass) -> (r: String)
        requires
            old(self).wf(),
        ensures
            final(self).wf(),
            final(self).src() == old(self).src(),
            final(self).at() == take_end(old(self).src(), old(self).at(), cls),
            old(self).pos <= final(self).pos <= final(self).chars.len(),
            r@ == old(self).src().subrange(old(self).at(), final(self).at()),
    {
        let start = self.pos;
        let ghost s = self.src();
        proof {
            lemma_take_end(s, start as int, cls);
        }
        while self.pos < self.chars.len() && char_in_class(cls, self.chars[self.pos])
            invariant
                self.wf(),
                self.src() == s,
                start <= self.pos <= take_end(s, start as int, cls),
                p_take_bound(s, start as int, self.at(), cls),
            decreases self.chars.len() - self.pos,
        {
            self.pos = self.pos + 1;
        }
        proof {
            if self.at() < take_end(s, start as int, cls) {
                assert(in_class(cls, s[self.at()]));
            }
        }
        self.input.as_str().substring_char(start, self.pos).to_owned()
    }

    pub fn consume_whitespace(&mut self)
        requires
            old(self).wf(),
        ensures
            final(self).wf(),
            final(self).src() == old(self).src(),
            final(self).at() == ws_end(old(self).src(), old(self).at()),
            old(self).pos <= final(self).pos <= final(self).chars.len(),
    {
        self.consume_while(CharClass::Whitespace);
    }
}

/// Within a run of class `cls` from `start`, the rest of the run from `p` ends where the whole does.
pub open spec fn p_take_bound(s: Seq<char>, start: int, p: int, cls: CharClass) -> bool {
    take_end(s, p, cls) == take_end(s, start, cls)
}

} // verus!
