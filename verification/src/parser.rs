//! The recursive-descent parser for the style language.
//!
//! The grammar, and what each construct parses to, is first written down as
//! spec functions over a sequence of characters and a cursor position (the
//! `sp_*` functions). Each executable parser method is then proved to return
//! exactly what the corresponding spec function says, leaving the cursor
//! exactly where it says.
//!
//! Every `sp_*` function returns the parse result together with the cursor
//! position after the attempt. Every parse error is fatal: the caller
//! discards the whole sheet.

use crate::css::{
    Color, Declaration, ParseError, Rule, Selector, SimpleSelector, SpecDeclaration, SpecRule,
    SpecSelector, SpecSimpleSelector, SpecValue, Unit, Value, spec_le, spec_specificity,
    specificity_le,
};
use crate::text::{
    CharClass, char_in_class, class_holds, hex_char_value, hex_val, is_digit_char,
    is_digit_char_exec, is_hex_char, is_hex_char_exec, is_ident_char, valid_identifier_char,
};
use vstd::prelude::*;

verus! {

/// The view of a `Result` of a parser: the deep view of the parsed value.
pub open spec fn res_view<T: DeepView>(r: Result<T, ParseError>) -> Result<T::V, ParseError> {
    match r {
        Ok(v) => Ok(v.deep_view()),
        Err(e) => Err(e),
    }
}

/// The end of the maximal run of characters of class `cls` starting at `p`.
pub open spec fn run_end(s: Seq<char>, p: int, cls: CharClass) -> int
    decreases s.len() - p,
{
    if 0 <= p < s.len() && class_holds(cls, s[p]) {
        run_end(s, p + 1, cls)
    } else {
        p
    }
}

/// A run stays within the input.
proof fn lemma_run_end_bounds(s: Seq<char>, p: int, cls: CharClass)
    requires
        0 <= p <= s.len(),
    ensures
        p <= run_end(s, p, cls) <= s.len(),
    decreases s.len() - p,
{
    if p < s.len() && class_holds(cls, s[p]) {
        lemma_run_end_bounds(s, p + 1, cls);
    }
}

/// Reading the character at the cursor without consuming it.
pub open spec fn sp_peek(s: Seq<char>, p: int) -> Result<char, ParseError> {
    if 0 <= p < s.len() {
        Ok(s[p])
    } else {
        Err(ParseError::OutOfBounds)
    }
}

/// Consuming one character.
pub open spec fn sp_consume_char(s: Seq<char>, p: int) -> (Result<char, ParseError>, int) {
    if 0 <= p < s.len() {
        (Ok(s[p]), p + 1)
    } else {
        (Err(ParseError::OutOfBounds), p)
    }
}

/// Consuming one character that must equal `c`.
pub open spec fn sp_expect_char(s: Seq<char>, p: int, c: char) -> (Result<(), ParseError>, int) {
    if !(0 <= p < s.len()) {
        (Err(ParseError::OutOfBounds), p)
    } else if s[p] == c {
        (Ok(()), p + 1)
    } else {
        (Err(ParseError::UnexpectedInput), p + 1)
    }
}

/// The identifier run starting at `p`: its text and the position after it.
pub open spec fn sp_ident(s: Seq<char>, p: int) -> (Seq<char>, int) {
    let e = run_end(s, p, CharClass::Identifier);
    (s.subrange(p, e), e)
}

/// The position after the whitespace run starting at `p`.
pub open spec fn sp_ws(s: Seq<char>, p: int) -> int {
    run_end(s, p, CharClass::Whitespace)
}

/// The cursor over the source text. The position is a character index.
pub(crate) struct Parser {
    pub(crate) input: String,
    pub(crate) length: usize,
    pub(crate) position: usize,
}

impl Parser {
    /// The source text being parsed.
    pub(crate) open spec fn src(&self) -> Seq<char> {
        self.input@
    }

    /// The cursor position.
    pub(crate) open spec fn pos(&self) -> int {
        self.position as int
    }

    /// The cursor is within the input and the cached length is right.
    pub(crate) open spec fn wf(&self) -> bool {
        self.length == self.input@.len() && self.position <= self.length
    }

    /// True iff all input is consumed.
    pub(crate) fn eof(&self) -> (r: bool)
        requires
            self.wf(),
        ensures
            r == (self.pos() >= self.src().len()),
    {
        self.position >= self.length
    }

    /// Read the character at the cursor without consuming it.
    pub(crate) fn next_char(&self) -> (r: Result<char, ParseError>)
        requires
            self.wf(),
        ensures
            r == sp_peek(self.src(), self.pos()),
    {
        if self.position < self.length {
            Ok(self.input.as_str().get_char(self.position))
        } else {
            Err(ParseError::OutOfBounds)
        }
    }

    /// Return the character at the cursor and advance past it.
    pub(crate) fn consume_char(&mut self) -> (r: Result<char, ParseError>)
        requires
            old(self).wf(),
        ensures
            final(self).wf(),
            final(self).src() == old(self).src(),
            (r, final(self).pos()) == sp_consume_char(old(self).src(), old(self).pos()),
    {
        if self.position < self.length {
            let c = self.input.as_str().get_char(self.position);
            self.position = self.position + 1;
            Ok(c)
        } else {
            Err(ParseError::OutOfBounds)
        }
    }

    /// Consume the character at the cursor, which must equal `c`.
    pub(crate) fn expect_char(&mut self, c: char) -> (r: Result<(), ParseError>)
        requires
            old(self).wf(),
        ensures
            final(self).wf(),
            final(self).src() == old(self).src(),
            (r, final(self).pos()) == sp_expect_char(old(self).src(), old(self).pos(), c),
            old(self).pos() <= final(self).pos(),
    {
        match self.consume_char() {
            Ok(d) => if d == c {
                Ok(())
            } else {
                Err(ParseError::UnexpectedInput)
            },
            Err(e) => Err(e),
        }
    }

    /// Consume the maximal run of characters of class `cls` and return it.
    pub(crate) fn consume_while(&mut self, cls: CharClass) -> (r: String)
        requires
            old(self).wf(),
        ensures
            final(self).wf(),
            final(self).src() == old(self).src(),
            final(self).pos() == run_end(old(self).src(), old(self).pos(), cls),
            r@ == old(self).src().subrange(old(self).pos(), final(self).pos()),
            old(self).pos() <= final(self).pos(),
    {
        let start = self.position;
        loop
            invariant
                self.wf(),
                self.src() == old(self).src(),
                start == old(self).position,
                start <= self.position,
                run_end(self.src(), start as int, cls) == run_end(self.src(), self.pos(), cls),
            ensures
                self.wf(),
                self.src() == old(self).src(),
                start <= self.position,
                self.pos() == run_end(self.src(), start as int, cls),
            decreases self.src().len() - self.pos(),
        {
            if self.position >= self.length {
                proof {
                    assert(run_end(self.src(), self.pos(), cls) == self.pos());
                }
                break ;
            }
            let c = self.input.as_str().get_char(self.position);
            if !char_in_class(cls, c) {
                proof {
                    assert(run_end(self.src(), self.pos(), cls) == self.pos());
                }
                break ;
            }
            self.position = self.position + 1;
        }
        proof {
            lemma_run_end_bounds(self.src(), start as int, cls);
        }
        self.input.as_str().substring_char(start, self.position).to_owned()
    }

    /// Consume and discard zero or more whitespace characters.
    pub(crate) fn consume_whitespace(&mut self)
        requires
            old(self).wf(),
        ensures
            final(self).wf(),
            final(self).src() == old(self).src(),
            final(self).pos() == sp_ws(old(self).src(), old(self).pos()),
            old(self).pos() <= final(self).pos(),
    {
        let _ = self.consume_while(CharClass::Whitespace);
    }

    /// Parse a property name or keyword: a run of identifier characters.
    pub(crate) fn parse_identifier(&mut self) -> (r: String)
        requires
            old(self).wf(),
        ensures
            final(self).wf(),
            final(self).src() == old(self).src(),
            (r@, final(self).pos()) == sp_ident(old(self).src(), old(self).pos()),
            old(self).pos() <= final(self).pos(),
    {
        self.consume_while(CharClass::Identifier)
    }

    /// Parse two hexadecimal digits as one byte.
    pub(crate) fn parse_hex_pair(&mut self) -> (r: Result<u8, ParseError>)
        requires
            old(self).wf(),
        ensures
            final(self).wf(),
            final(self).src() == old(self).src(),
            (r, final(self).pos()) == sp_hex_pair(old(self).src(), old(self).pos()),
            old(self).pos() <= final(self).pos(),
    {
        let c1 = match self.consume_char() {
            Ok(c) => c,
            Err(e) => {
                return Err(e);
            },
        };
        let c2 = match self.consume_char() {
            Ok(c) => c,
            Err(e) => {
                return Err(e);
            },
        };
        if is_hex_char_exec(c1) && is_hex_char_exec(c2) {
            Ok(hex_char_value(c1) * 16 + hex_char_value(c2))
        } else {
            Err(ParseError::InvalidColor)
        }
    }

    /// Parse a color: `#` followed by three hex byte pairs; alpha is opaque.
    pub(crate) fn parse_color(&mut self) -> (r: Result<Value, ParseError>)
        requires
            old(self).wf(),
        ensures
            final(self).wf(),
            final(self).src() == old(self).src(),
            (res_view(r), final(self).pos()) == sp_color(old(self).src(), old(self).pos()),
            old(self).pos() <= final(self).pos(),
    {
        match self.expect_char('#') {
            Ok(_) => {},
            Err(e) => {
                return Err(e);
            },
        }
        let red = match self.parse_hex_pair() {
            Ok(v) => v,
            Err(e) => {
                return Err(e);
            },
        };
        let green = match self.parse_hex_pair() {
            Ok(v) => v,
            Err(e) => {
                return Err(e);
            },
        };
        let blue = match self.parse_hex_pair() {
            Ok(v) => v,
            Err(e) => {
                return Err(e);
            },
        };
        Ok(Value::ColorValue(Color { r: red, g: green, b: blue, a: 255 }))
    }

    /// Parse a unit of length: an identifier naming `px` in any letter case.
    pub(crate) fn parse_unit(&mut self) -> (r: Result<Unit, ParseError>)
        requires
            old(self).wf(),
        ensures
            final(self).wf(),
            final(self).src() == old(self).src(),
            (r, final(self).pos()) == sp_unit(old(self).src(), old(self).pos()),
            old(self).pos() <= final(self).pos(),
    {
        let t = self.parse_identifier();
        let is_px = t.as_str().unicode_len() == 2 && {
            let c0 = t.as_str().get_char(0);
            let c1 = t.as_str().get_char(1);
            (c0 == 'p' || c0 == 'P') && (c1 == 'x' || c1 == 'X')
        };
        if is_px {
            Ok(Unit::Px)
        } else {
            Err(ParseError::UnknownUnit)
        }
    }

    /// Parse the magnitude of a length: a run of digits and dots that must
    /// hold at least one digit and at most one dot.
    pub(crate) fn parse_number(&mut self) -> (r: Result<String, ParseError>)
        requires
            old(self).wf(),
        ensures
            final(self).wf(),
            final(self).src() == old(self).src(),
            (res_view(r), final(self).pos()) == sp_number(old(self).src(), old(self).pos()),
            old(self).pos() <= final(self).pos(),
    {
        let t = self.consume_while(CharClass::Number);
        let n = t.as_str().unicode_len();
        let mut digits: usize = 0;
        let mut dots: usize = 0;
        let mut i: usize = 0;
        while i < n
            invariant
                n == t@.len(),
                i <= n,
                digits <= i,
                dots <= i,
                digits as int == digit_count(t@.subrange(0, i as int)),
                dots as int == dot_count(t@.subrange(0, i as int)),
            decreases n - i,
        {
            let c = t.as_str().get_char(i);
            proof {
                assert(t@.subrange(0, i + 1).drop_last() =~= t@.subrange(0, i as int));
                assert(t@.subrange(0, i + 1).last() == t@[i as int]);
            }
            if is_digit_char_exec(c) {
                digits = digits + 1;
            } else if c == '.' {
                dots = dots + 1;
            }
            i = i + 1;
        }
        proof {
            assert(t@.subrange(0, n as int) =~= t@);
        }
        if digits >= 1 && dots <= 1 {
            Ok(t)
        } else {
            Err(ParseError::MalformedNumber)
        }
    }

    /// Parse a length: a magnitude followed by a unit.
    pub(crate) fn parse_length(&mut self) -> (r: Result<Value, ParseError>)
        requires
            old(self).wf(),
        ensures
            final(self).wf(),
            final(self).src() == old(self).src(),
            (res_view(r), final(self).pos()) == sp_length(old(self).src(), old(self).pos()),
            old(self).pos() <= final(self).pos(),
    {
        let t = match self.parse_number() {
            Ok(v) => v,
            Err(e) => {
                return Err(e);
            },
        };
        let u = match self.parse_unit() {
            Ok(v) => v,
            Err(e) => {
                return Err(e);
            },
        };
        Ok(Value::Length(t, u))
    }

    /// Parse a value, dispatching on the next character: a digit starts a
    /// length, `#` starts a color, an identifier character starts a keyword.
    pub(crate) fn parse_value(&mut self) -> (r: Result<Value, ParseError>)
        requires
            old(self).wf(),
        ensures
            final(self).wf(),
            final(self).src() == old(self).src(),
            (res_view(r), final(self).pos()) == sp_value(old(self).src(), old(self).pos()),
            old(self).pos() <= final(self).pos(),
    {
        let c = match self.next_char() {
            Ok(c) => c,
            Err(e) => {
                return Err(e);
            },
        };
        if is_digit_char_exec(c) {
            self.parse_length()
        } else if c == '#' {
            self.parse_color()
        } else if valid_identifier_char(c) {
            Ok(Value::Keyword(self.parse_identifier()))
        } else {
            Err(ParseError::EmptyValue)
        }
    }
}

/// Consuming two hexadecimal digits as one byte.
pub open spec fn sp_hex_pair(s: Seq<char>, p: int) -> (Result<u8, ParseError>, int) {
    if !(0 <= p < s.len()) {
        (Err(ParseError::OutOfBounds), p)
    } else if p + 1 >= s.len() {
        (Err(ParseError::OutOfBounds), p + 1)
    } else if is_hex_char(s[p]) && is_hex_char(s[p + 1]) {
        (Ok((16 * hex_val(s[p]) + hex_val(s[p + 1])) as u8), p + 2)
    } else {
        (Err(ParseError::InvalidColor), p + 2)
    }
}

/// Parsing a color: `#` and three hex byte pairs; the alpha channel is fixed
/// fully opaque.
pub open spec fn sp_color(s: Seq<char>, p: int) -> (Result<SpecValue, ParseError>, int) {
    let (e0, p0) = sp_expect_char(s, p, '#');
    match e0 {
        Err(er) => (Err(er), p0),
        Ok(_) => {
            let (r1, p1) = sp_hex_pair(s, p0);
            match r1 {
                Err(er) => (Err(er), p1),
                Ok(red) => {
                    let (r2, p2) = sp_hex_pair(s, p1);
                    match r2 {
                        Err(er) => (Err(er), p2),
                        Ok(green) => {
                            let (r3, p3) = sp_hex_pair(s, p2);
                            match r3 {
                                Err(er) => (Err(er), p3),
                                Ok(blue) => (
                                    Ok(
                                        SpecValue::ColorValue(
                                            Color { r: red, g: green, b: blue, a: 255 },
                                        ),
                                    ),
                                    p3,
                                ),
                            }
                        },
                    }
                },
            }
        },
    }
}

/// The unit texts that name the pixel unit: `px` in any letter case.
pub open spec fn unit_text_is_px(t: Seq<char>) -> bool {
    t.len() == 2 && (t[0] == 'p' || t[0] == 'P') && (t[1] == 'x' || t[1] == 'X')
}

/// Parsing a unit: an identifier that must name a known unit.
pub open spec fn sp_unit(s: Seq<char>, p: int) -> (Result<Unit, ParseError>, int) {
    let (t, e) = sp_ident(s, p);
    if unit_text_is_px(t) {
        (Ok(Unit::Px), e)
    } else {
        (Err(ParseError::UnknownUnit), e)
    }
}

/// How many characters of a text are decimal digits.
pub open spec fn digit_count(t: Seq<char>) -> int
    decreases t.len(),
{
    if t.len() == 0 {
        0
    } else {
        digit_count(t.drop_last()) + if is_digit_char(t.last()) {
            1int
        } else {
            0int
        }
    }
}

/// How many characters of a text are dots.
pub open spec fn dot_count(t: Seq<char>) -> int
    decreases t.len(),
{
    if t.len() == 0 {
        0
    } else {
        dot_count(t.drop_last()) + if t.last() == '.' {
            1int
        } else {
            0int
        }
    }
}

/// A numeric text converts to a magnitude iff it holds at least one digit
/// and at most one dot.
pub open spec fn number_text_ok(t: Seq<char>) -> bool {
    digit_count(t) >= 1 && dot_count(t) <= 1
}

/// Parsing a magnitude: the run of digits and dots at `p`, which must
/// convert.
pub open spec fn sp_number(s: Seq<char>, p: int) -> (Result<Seq<char>, ParseError>, int) {
    let e = run_end(s, p, CharClass::Number);
    let t = s.subrange(p, e);
    if number_text_ok(t) {
        (Ok(t), e)
    } else {
        (Err(ParseError::MalformedNumber), e)
    }
}

/// Parsing a length: a magnitude followed by a unit.
pub open spec fn sp_length(s: Seq<char>, p: int) -> (Result<SpecValue, ParseError>, int) {
    let (n, p1) = sp_number(s, p);
    match n {
        Err(er) => (Err(er), p1),
        Ok(t) => {
            let (u, p2) = sp_unit(s, p1);
            match u {
                Err(er) => (Err(er), p2),
                Ok(un) => (Ok(SpecValue::Length(t, un)), p2),
            }
        },
    }
}

/// Parsing a value: a digit starts a length, `#` starts a color, an
/// identifier character starts a keyword; any other character starts no
/// value form.
pub open spec fn sp_value(s: Seq<char>, p: int) -> (Result<SpecValue, ParseError>, int) {
    if !(0 <= p < s.len()) {
        (Err(ParseError::OutOfBounds), p)
    } else if is_digit_char(s[p]) {
        sp_length(s, p)
    } else if s[p] == '#' {
        sp_color(s, p)
    } else if is_ident_char(s[p]) {
        let (t, e) = sp_ident(s, p);
        (Ok(SpecValue::Keyword(t)), e)
    } else {
        (Err(ParseError::EmptyValue), p)
    }
}

/// Parsing one `name: value;` declaration.
pub open spec fn sp_declaration(s: Seq<char>, p: int) -> (Result<SpecDeclaration, ParseError>, int) {
    let (name, p1) = sp_ident(s, p);
    let p2 = sp_ws(s, p1);
    let (e1, p3) = sp_expect_char(s, p2, ':');
    match e1 {
        Err(er) => (Err(er), p3),
        Ok(_) => {
            let p4 = sp_ws(s, p3);
            let (v, p5) = sp_value(s, p4);
            match v {
                Err(er) => (Err(er), p5),
                Ok(val) => {
                    let p6 = sp_ws(s, p5);
                    let (e2, p7) = sp_expect_char(s, p6, ';');
                    match e2 {
                        Err(er) => (Err(er), p7),
                        Ok(_) => (Ok(SpecDeclaration { name, value: val }), p7),
                    }
                },
            }
        },
    }
}

/// Parsing the inside of a declaration block, after its `{`: declarations
/// accumulate until the closing `}`; input that ends first is an
/// unterminated block.
pub open spec fn sp_decls_loop(s: Seq<char>, p: int, acc: Seq<SpecDeclaration>) -> (
    Result<Seq<SpecDeclaration>, ParseError>,
    int,
)
    decreases s.len() - p,
{
    let p1 = sp_ws(s, p);
    if p1 >= s.len() {
        (Err(ParseError::OutOfBounds), p1)
    } else if s[p1] == '}' {
        (Ok(acc), p1 + 1)
    } else {
        let (d, p2) = sp_declaration(s, p1);
        match d {
            Err(er) => (Err(er), p2),
            Ok(dd) => if p < p2 <= s.len() {
                sp_decls_loop(s, p2, acc.push(dd))
            } else {
                // A parsed declaration always moves the cursor forward, so
                // this arm is never the result; it only bounds the recursion.
                (Err(ParseError::OutOfBounds), p2)
            },
        }
    }
}

/// Parsing a declaration block: `{`, declarations, `}`.
pub open spec fn sp_declarations(s: Seq<char>, p: int) -> (
    Result<Seq<SpecDeclaration>, ParseError>,
    int,
) {
    let (e, p1) = sp_expect_char(s, p, '{');
    match e {
        Err(er) => (Err(er), p1),
        Ok(_) => sp_decls_loop(s, p1, Seq::empty()),
    }
}

impl Parser {
    /// Parse one `name: value;` declaration.
    pub(crate) fn parse_declaration(&mut self) -> (r: Result<Declaration, ParseError>)
        requires
            old(self).wf(),
        ensures
            final(self).wf(),
            final(self).src() == old(self).src(),
            (res_view(r), final(self).pos()) == sp_declaration(old(self).src(), old(self).pos()),
            old(self).pos() <= final(self).pos(),
            r is Ok ==> old(self).pos() < final(self).pos(),
    {
        let name = self.parse_identifier();
        self.consume_whitespace();
        match self.expect_char(':') {
            Ok(_) => {},
            Err(e) => {
                return Err(e);
            },
        }
        self.consume_whitespace();
        let value = match self.parse_value() {
            Ok(v) => v,
            Err(e) => {
                return Err(e);
            },
        };
        self.consume_whitespace();
        match self.expect_char(';') {
            Ok(_) => {},
            Err(e) => {
                return Err(e);
            },
        }
        Ok(Declaration { name, value })
    }

    /// Parse a declaration block: `{`, declarations, `}`.
    pub(crate) fn parse_declarations(&mut self) -> (r: Result<Vec<Declaration>, ParseError>)
        requires
            old(self).wf(),
        ensures
            final(self).wf(),
            final(self).src() == old(self).src(),
            (res_view(r), final(self).pos()) == sp_declarations(old(self).src(), old(self).pos()),
            old(self).pos() <= final(self).pos(),
            r is Ok ==> old(self).pos() < final(self).pos(),
    {
        match self.expect_char('{') {
            Ok(_) => {},
            Err(e) => {
                return Err(e);
            },
        }
        let ghost s = self.src();
        let ghost p0 = self.pos();
        let mut declarations: Vec<Declaration> = Vec::new();
        proof {
            assert(declarations.deep_view() =~= Seq::<SpecDeclaration>::empty());
        }
        loop
            invariant_except_break
                sp_decls_loop(s, p0, Seq::empty()) == sp_decls_loop(
                    s,
                    self.pos(),
                    declarations.deep_view(),
                ),
            invariant
                self.wf(),
                self.src() == s,
                old(self).src() == s,
                old(self).pos() < self.pos(),
                p0 <= self.pos() <= s.len(),
                sp_expect_char(s, old(self).pos(), '{') == (Ok::<(), ParseError>(()), p0),
            ensures
                ({
                    let (dr, dp) = sp_decls_loop(s, p0, Seq::empty());
                    dr == Ok::<Seq<SpecDeclaration>, ParseError>(declarations.deep_view()) && dp
                        == self.pos()
                }),
            decreases s.len() - self.pos(),
        {
            let ghost p_iter = self.pos();
            let ghost acc = declarations.deep_view();
            self.consume_whitespace();
            if self.eof() {
                return Err(ParseError::OutOfBounds);
            }
            let c = match self.next_char() {
                Ok(c) => c,
                Err(e) => {
                    return Err(e);
                },
            };
            if c == '}' {
                let _ = self.consume_char();
                break ;
            }
            let d = match self.parse_declaration() {
                Ok(d) => d,
                Err(e) => {
                    return Err(e);
                },
            };
            let ghost dv = d.deep_view();
            proof {
                lemma_vec_push_deep_view(declarations@, d, declarations@.push(d));
            }
            declarations.push(d);
            proof {
                assert(declarations.deep_view() == acc.push(dv));
                assert(sp_decls_loop(s, p_iter, acc) == sp_decls_loop(
                    s,
                    self.pos(),
                    declarations.deep_view(),
                ));
            }
        }
        Ok(declarations)
    }
}

/// The selector with no components, which matches every element.
pub open spec fn sp_empty_selector() -> SpecSimpleSelector {
    SpecSimpleSelector { tag_name: None, id: None, class: Seq::empty() }
}

/// Parsing the components of one simple selector, added onto `sel`: `#`
/// starts an id, `.` starts a class name, `*` is the universal marker, an
/// identifier character starts the tag name; any other character ends the
/// selector. A simple selector never fails.
pub open spec fn sp_simple_selector_loop(s: Seq<char>, p: int, sel: SpecSimpleSelector) -> (
    SpecSimpleSelector,
    int,
)
    decreases s.len() - p,
{
    if !(0 <= p < s.len()) {
        (sel, p)
    } else if s[p] == '#' {
        let e = run_end(s, p + 1, CharClass::Identifier);
        let sel2 = SpecSimpleSelector {
            tag_name: sel.tag_name,
            id: Some(s.subrange(p + 1, e)),
            class: sel.class,
        };
        if p < e <= s.len() {
            sp_simple_selector_loop(s, e, sel2)
        } else {
            // An id run begins past the consumed `#`, so this arm is never
            // the result; it only bounds the recursion.
            (sel2, e)
        }
    } else if s[p] == '.' {
        let e = run_end(s, p + 1, CharClass::Identifier);
        let sel2 = SpecSimpleSelector {
            tag_name: sel.tag_name,
            id: sel.id,
            class: sel.class.push(s.subrange(p + 1, e)),
        };
        if p < e <= s.len() {
            sp_simple_selector_loop(s, e, sel2)
        } else {
            // As above: a class run begins past the consumed `.`.
            (sel2, e)
        }
    } else if s[p] == '*' {
        sp_simple_selector_loop(s, p + 1, sel)
    } else if is_ident_char(s[p]) {
        let e = run_end(s, p, CharClass::Identifier);
        let sel2 = SpecSimpleSelector {
            tag_name: Some(s.subrange(p, e)),
            id: sel.id,
            class: sel.class,
        };
        if p < e <= s.len() {
            sp_simple_selector_loop(s, e, sel2)
        } else {
            // As above: a tag run holds at least the character at `p`.
            (sel2, e)
        }
    } else {
        (sel, p)
    }
}

/// Parsing one simple selector, e.g. `tag#id.class1.class2`.
pub open spec fn sp_simple_selector(s: Seq<char>, p: int) -> (SpecSimpleSelector, int) {
    sp_simple_selector_loop(s, p, sp_empty_selector())
}

/// Inserting a selector into a sorted sequence, after every selector of
/// lower or equal specificity: the stable insertion step.
pub open spec fn insert_sorted(x: SpecSelector, s: Seq<SpecSelector>) -> Seq<SpecSelector>
    decreases s.len(),
{
    if s.len() == 0 {
        seq![x]
    } else if spec_le(spec_specificity(s.last()), spec_specificity(x)) {
        s.push(x)
    } else {
        insert_sorted(x, s.drop_last()).push(s.last())
    }
}

/// Sorting selectors ascending by specificity, keeping the original order
/// of selectors of equal specificity (a stable insertion sort).
pub open spec fn sort_selectors(s: Seq<SpecSelector>) -> Seq<SpecSelector>
    decreases s.len(),
{
    if s.len() == 0 {
        Seq::empty()
    } else {
        insert_sorted(s.last(), sort_selectors(s.drop_last()))
    }
}

/// Ascending by specificity.
pub open spec fn sels_sorted(s: Seq<SpecSelector>) -> bool {
    forall|i: int, j: int|
        0 <= i < j < s.len() ==> spec_le(spec_specificity(s[i]), spec_specificity(s[j]))
}

/// Where the stable insertion step puts the new selector: right before the
/// first selector of strictly higher specificity.
pub proof fn lemma_insert_sorted_at(x: SpecSelector, s: Seq<SpecSelector>, k: int)
    requires
        0 <= k <= s.len(),
        forall|j: int| 0 <= j < k ==> spec_le(spec_specificity(s[j]), spec_specificity(x)),
        forall|j: int| k <= j < s.len() ==> !spec_le(spec_specificity(s[j]), spec_specificity(x)),
    ensures
        insert_sorted(x, s) == s.subrange(0, k) + seq![x] + s.subrange(k, s.len() as int),
    decreases s.len(),
{
    if s.len() == 0 {
        assert(insert_sorted(x, s) =~= s.subrange(0, k) + seq![x] + s.subrange(k, s.len() as int));
    } else if k == s.len() {
        assert(insert_sorted(x, s) == s.push(x));
        assert(s.push(x) =~= s.subrange(0, k) + seq![x] + s.subrange(k, s.len() as int));
    } else {
        let t = s.drop_last();
        assert(!spec_le(spec_specificity(s.last()), spec_specificity(x)));
        assert(forall|j: int| 0 <= j < k ==> t[j] == s[j]);
        assert(forall|j: int| k <= j < t.len() ==> t[j] == s[j]);
        lemma_insert_sorted_at(x, t, k);
        assert(insert_sorted(x, t).push(s.last()) =~= s.subrange(0, k) + seq![x] + s.subrange(
            k,
            s.len() as int,
        ));
    }
}

/// Parsing a comma-separated selector list, accumulated onto `acc`. The list
/// ends at `{`, which is not consumed; any other character after a selector
/// is unexpected.
pub open spec fn sp_selectors_loop(s: Seq<char>, p: int, acc: Seq<SpecSelector>) -> (
    Result<Seq<SpecSelector>, ParseError>,
    int,
)
    decreases s.len() - p,
{
    let (ss, p1) = sp_simple_selector(s, p);
    let acc2 = acc.push(SpecSelector::Simple(ss));
    let p2 = sp_ws(s, p1);
    if p2 >= s.len() {
        (Err(ParseError::OutOfBounds), p2)
    } else if s[p2] == ',' {
        let p3 = sp_ws(s, p2 + 1);
        if p < p3 <= s.len() {
            sp_selectors_loop(s, p3, acc2)
        } else {
            // The separator itself is consumed, so this arm is never the
            // result; it only bounds the recursion.
            (Err(ParseError::OutOfBounds), p3)
        }
    } else if s[p2] == '{' {
        (Ok(acc2), p2)
    } else {
        (Err(ParseError::UnexpectedInput), p2)
    }
}

/// Parsing a selector list: the parsed selectors, sorted ascending by
/// specificity (stably, so selectors of equal specificity keep their
/// source order).
pub open spec fn sp_selectors(s: Seq<char>, p: int) -> (Result<Seq<SpecSelector>, ParseError>, int) {
    let (r, p1) = sp_selectors_loop(s, p, Seq::empty());
    match r {
        Ok(sels) => (Ok(sort_selectors(sels)), p1),
        Err(er) => (Err(er), p1),
    }
}

impl Parser {
    /// Parse one simple selector, e.g. `tag#id.class1.class2`.
    pub(crate) fn parse_simple_selector(&mut self) -> (r: SimpleSelector)
        requires
            old(self).wf(),
        ensures
            final(self).wf(),
            final(self).src() == old(self).src(),
            (r.deep_view(), final(self).pos()) == sp_simple_selector(
                old(self).src(),
                old(self).pos(),
            ),
            old(self).pos() <= final(self).pos(),
    {
        let ghost s = self.src();
        let ghost p0 = self.pos();
        let mut selector = SimpleSelector { tag_name: None, id: None, class: Vec::new() };
        proof {
            assert(selector.deep_view().class =~= Seq::<Seq<char>>::empty());
            assert(selector.deep_view() == sp_empty_selector());
        }
        loop
            invariant
                self.wf(),
                self.src() == s,
                old(self).src() == s,
                old(self).pos() == p0,
                p0 <= self.pos() <= s.len(),
                sp_simple_selector_loop(s, p0, sp_empty_selector()) == sp_simple_selector_loop(
                    s,
                    self.pos(),
                    selector.deep_view(),
                ),
            ensures
                self.wf(),
                self.src() == s,
                p0 <= self.pos() <= s.len(),
                (selector.deep_view(), self.pos()) == sp_simple_selector_loop(
                    s,
                    p0,
                    sp_empty_selector(),
                ),
            decreases s.len() - self.pos(),
        {
            let ghost p_it = self.pos();
            let ghost sel_it = selector.deep_view();
            if self.eof() {
                proof {
                    assert(sp_simple_selector_loop(s, p_it, sel_it) == (sel_it, p_it));
                }
                break ;
            }
            let c = self.input.as_str().get_char(self.position);
            if c == '#' {
                let _ = self.consume_char();
                let id = self.parse_identifier();
                selector.id = Some(id);
                proof {
                    lemma_run_end_bounds(s, p_it + 1, CharClass::Identifier);
                    assert(sp_simple_selector_loop(s, p_it, sel_it) == sp_simple_selector_loop(
                        s,
                        self.pos(),
                        selector.deep_view(),
                    ));
                }
            } else if c == '.' {
                let _ = self.consume_char();
                let cl = self.parse_identifier();
                proof {
                    lemma_vec_push_deep_view(selector.class@, cl, selector.class@.push(cl));
                }
                selector.class.push(cl);
                proof {
                    lemma_run_end_bounds(s, p_it + 1, CharClass::Identifier);
                    assert(sp_simple_selector_loop(s, p_it, sel_it) == sp_simple_selector_loop(
                        s,
                        self.pos(),
                        selector.deep_view(),
                    ));
                }
            } else if c == '*' {
                let _ = self.consume_char();
                proof {
                    assert(sp_simple_selector_loop(s, p_it, sel_it) == sp_simple_selector_loop(
                        s,
                        self.pos(),
                        selector.deep_view(),
                    ));
                }
            } else if valid_identifier_char(c) {
                let t = self.parse_identifier();
                selector.tag_name = Some(t);
                proof {
                    lemma_run_end_bounds(s, p_it + 1, CharClass::Identifier);
                    assert(run_end(s, p_it, CharClass::Identifier) == run_end(
                        s,
                        p_it + 1,
                        CharClass::Identifier,
                    ));
                    assert(sp_simple_selector_loop(s, p_it, sel_it) == sp_simple_selector_loop(
                        s,
                        self.pos(),
                        selector.deep_view(),
                    ));
                }
            } else {
                proof {
                    assert(sp_simple_selector_loop(s, p_it, sel_it) == (sel_it, p_it));
                }
                break ;
            }
        }
        selector
    }

    /// Parse a comma-separated selector list, ending at the `{` of the
    /// declaration block, and sort it ascending by specificity.
    pub(crate) fn parse_selectors(&mut self) -> (r: Result<Vec<Selector>, ParseError>)
        requires
            old(self).wf(),
        ensures
            final(self).wf(),
            final(self).src() == old(self).src(),
            (res_view(r), final(self).pos()) == sp_selectors(old(self).src(), old(self).pos()),
            old(self).pos() <= final(self).pos(),
    {
        let ghost s = self.src();
        let ghost p0 = self.pos();
        let mut selectors: Vec<Selector> = Vec::new();
        proof {
            assert(selectors.deep_view() =~= Seq::<SpecSelector>::empty());
        }
        loop
            invariant_except_break
                sp_selectors_loop(s, p0, Seq::empty()) == sp_selectors_loop(
                    s,
                    self.pos(),
                    selectors.deep_view(),
                ),
            invariant
                self.wf(),
                self.src() == s,
                old(self).src() == s,
                old(self).pos() == p0,
                p0 <= self.pos() <= s.len(),
            ensures
                self.wf(),
                self.src() == s,
                p0 <= self.pos() <= s.len(),
                ({
                    let (sr, sp) = sp_selectors_loop(s, p0, Seq::empty());
                    sr == Ok::<Seq<SpecSelector>, ParseError>(selectors.deep_view()) && sp
                        == self.pos()
                }),
            decreases s.len() - self.pos(),
        {
            let ghost p_it = self.pos();
            let ghost acc = selectors.deep_view();
            let sel = self.parse_simple_selector();
            proof {
                lemma_vec_push_deep_view(
                    selectors@,
                    Selector::Simple(sel),
                    selectors@.push(Selector::Simple(sel)),
                );
            }
            selectors.push(Selector::Simple(sel));
            self.consume_whitespace();
            if self.eof() {
                return Err(ParseError::OutOfBounds);
            }
            let c = match self.next_char() {
                Ok(c) => c,
                Err(e) => {
                    return Err(e);
                },
            };
            if c == ',' {
                let _ = self.consume_char();
                self.consume_whitespace();
                proof {
                    assert(sp_selectors_loop(s, p_it, acc) == sp_selectors_loop(
                        s,
                        self.pos(),
                        selectors.deep_view(),
                    ));
                }
            } else if c == '{' {
                break ;
            } else {
                return Err(ParseError::UnexpectedInput);
            }
        }
        Ok(sort_by_specificity(selectors))
    }
}

/// Sort selectors ascending by specificity with a stable insertion sort:
/// each selector is inserted after all selectors of lower or equal
/// specificity, so selectors of equal specificity keep their order.
fn sort_by_specificity(input: Vec<Selector>) -> (r: Vec<Selector>)
    ensures
        r.deep_view() == sort_selectors(input.deep_view()),
{
    let ghost orig = input.deep_view();
    let mut v = input;
    let mut out: Vec<Selector> = Vec::new();
    let ghost taken: int = 0;
    proof {
        assert(out.deep_view() =~= Seq::<SpecSelector>::empty());
        assert(sort_selectors(orig.subrange(0, 0)) =~= Seq::<SpecSelector>::empty());
        assert(v.deep_view() =~= orig.subrange(0, orig.len() as int));
    }
    while v.len() > 0
        invariant
            0 <= taken <= orig.len(),
            v.deep_view() == orig.subrange(taken, orig.len() as int),
            out.deep_view() == sort_selectors(orig.subrange(0, taken)),
            sels_sorted(out.deep_view()),
        decreases v@.len(),
    {
        let ghost v_before = v.deep_view();
        let ghost out_before = out.deep_view();
        let x = v.remove(0);
        proof {
            assert(v.deep_view() =~= v_before.subrange(1, v_before.len() as int));
            assert(v.deep_view() =~= orig.subrange(taken + 1, orig.len() as int));
            assert(x.deep_view() == v_before[0]);
            assert(v_before[0] == orig[taken]);
        }
        let key_x = x.specificity();
        let mut k: usize = 0;
        while k < out.len() && specificity_le(out[k].specificity(), key_x)
            invariant
                k <= out.deep_view().len(),
                out.deep_view().len() == out@.len(),
                (key_x.0 as int, key_x.1 as int, key_x.2 as int) == spec_specificity(
                    x.deep_view(),
                ),
                forall|j: int|
                    0 <= j < k ==> spec_le(
                        spec_specificity(out.deep_view()[j]),
                        spec_specificity(x.deep_view()),
                    ),
            decreases out@.len() - k,
        {
            proof {
                assert(out@[k as int].deep_view() == out.deep_view()[k as int]);
                assert(spec_le(
                    spec_specificity(out.deep_view()[k as int]),
                    spec_specificity(x.deep_view()),
                ));
            }
            k = k + 1;
        }
        proof {
            let od = out.deep_view();
            let xd = x.deep_view();
            if (k as int) < od.len() {
                assert(out@[k as int].deep_view() == od[k as int]);
                assert(!spec_le(spec_specificity(od[k as int]), spec_specificity(xd)));
            }
            assert forall|j: int| k <= j < od.len() implies !spec_le(
                spec_specificity(od[j]),
                spec_specificity(xd),
            ) by {
                assert(spec_le(spec_specificity(od[k as int]), spec_specificity(od[j])));
            }
            lemma_insert_sorted_at(xd, od, k as int);
        }
        out.insert(k, x);
        proof {
            let od = out_before;
            let xd = x.deep_view();
            assert(out.deep_view() =~= od.subrange(0, k as int) + seq![xd] + od.subrange(
                k as int,
                od.len() as int,
            ));
            assert(out.deep_view() == insert_sorted(xd, od));
            assert(orig.subrange(0, taken + 1).drop_last() =~= orig.subrange(0, taken));
            assert(orig.subrange(0, taken + 1).last() == orig[taken]);
            assert(out.deep_view() == sort_selectors(orig.subrange(0, taken + 1)));
            assert forall|i: int, j: int| 0 <= i < j < out.deep_view().len() implies spec_le(
                spec_specificity(out.deep_view()[i]),
                spec_specificity(out.deep_view()[j]),
            ) by {
                let nd = out.deep_view();
                if j < k {
                    assert(nd[i] == od[i] && nd[j] == od[j]);
                } else if j == k {
                    assert(nd[j] == xd);
                    if i < k {
                        assert(nd[i] == od[i]);
                    }
                } else {
                    assert(nd[j] == od[j - 1]);
                    if i < k {
                        assert(nd[i] == od[i]);
                    } else if i == k {
                        assert(nd[i] == xd);
                        assert(!spec_le(spec_specificity(od[j - 1]), spec_specificity(xd)));
                    } else {
                        assert(nd[i] == od[i - 1]);
                    }
                }
            }
        }
        proof {
            taken = taken + 1;
        }
    }
    proof {
        assert(orig.subrange(0, orig.len() as int) =~= orig);
    }
    out
}

/// Parsing one rule: a selector list followed by a declaration block.
pub open spec fn sp_rule(s: Seq<char>, p: int) -> (Result<SpecRule, ParseError>, int) {
    let (sels, p1) = sp_selectors(s, p);
    match sels {
        Err(er) => (Err(er), p1),
        Ok(ss) => {
            let (ds, p2) = sp_declarations(s, p1);
            match ds {
                Err(er) => (Err(er), p2),
                Ok(dd) => (Ok(SpecRule { selectors: ss, declarations: dd }), p2),
            }
        },
    }
}

/// Parsing a whole sheet, accumulated onto `acc`: rules separated by
/// optional whitespace, until the input is exhausted.
pub open spec fn sp_rules_loop(s: Seq<char>, p: int, acc: Seq<SpecRule>) -> (
    Result<Seq<SpecRule>, ParseError>,
    int,
)
    decreases s.len() - p,
{
    let p1 = sp_ws(s, p);
    if p1 >= s.len() {
        (Ok(acc), p1)
    } else {
        let (r, p2) = sp_rule(s, p1);
        match r {
            Err(er) => (Err(er), p2),
            Ok(rr) => if p < p2 <= s.len() {
                sp_rules_loop(s, p2, acc.push(rr))
            } else {
                // A parsed rule always moves the cursor forward, so this arm
                // is never the result; it only bounds the recursion.
                (Err(ParseError::OutOfBounds), p2)
            },
        }
    }
}

/// What parsing a source text yields: the rules of the sheet in source
/// order, or the error that aborted the parse.
pub open spec fn spec_parse(s: Seq<char>) -> Result<Seq<SpecRule>, ParseError> {
    sp_rules_loop(s, 0, Seq::empty()).0
}

impl Parser {
    /// Parse one rule: a selector list followed by a declaration block.
    pub(crate) fn parse_rule(&mut self) -> (r: Result<Rule, ParseError>)
        requires
            old(self).wf(),
        ensures
            final(self).wf(),
            final(self).src() == old(self).src(),
            (res_view(r), final(self).pos()) == sp_rule(old(self).src(), old(self).pos()),
            old(self).pos() <= final(self).pos(),
            r is Ok ==> old(self).pos() < final(self).pos(),
    {
        let selectors = match self.parse_selectors() {
            Ok(v) => v,
            Err(e) => {
                return Err(e);
            },
        };
        let declarations = match self.parse_declarations() {
            Ok(v) => v,
            Err(e) => {
                return Err(e);
            },
        };
        Ok(Rule { selectors, declarations })
    }

    /// Parse a whole sheet: rules separated by optional whitespace, until
    /// the input is exhausted.
    pub(crate) fn parse_rules(&mut self) -> (r: Result<Vec<Rule>, ParseError>)
        requires
            old(self).wf(),
        ensures
            final(self).wf(),
            final(self).src() == old(self).src(),
            (res_view(r), final(self).pos()) == sp_rules_loop(
                old(self).src(),
                old(self).pos(),
                Seq::empty(),
            ),
    {
        let ghost s = self.src();
        let ghost p0 = self.pos();
        let mut rules: Vec<Rule> = Vec::new();
        proof {
            assert(rules.deep_view() =~= Seq::<SpecRule>::empty());
        }
        loop
            invariant_except_break
                sp_rules_loop(s, p0, Seq::empty()) == sp_rules_loop(
                    s,
                    self.pos(),
                    rules.deep_view(),
                ),
            invariant
                self.wf(),
                self.src() == s,
                old(self).src() == s,
                old(self).pos() == p0,
                p0 <= self.pos() <= s.len(),
            ensures
                self.wf(),
                self.src() == s,
                ({
                    let (rr, rp) = sp_rules_loop(s, p0, Seq::empty());
                    rr == Ok::<Seq<SpecRule>, ParseError>(rules.deep_view()) && rp == self.pos()
                }),
            decreases s.len() - self.pos(),
        {
            let ghost p_it = self.pos();
            let ghost acc = rules.deep_view();
            self.consume_whitespace();
            if self.eof() {
                break ;
            }
            let rule = match self.parse_rule() {
                Ok(v) => v,
                Err(e) => {
                    return Err(e);
                },
            };
            proof {
                lemma_vec_push_deep_view(rules@, rule, rules@.push(rule));
            }
            let ghost rv = rule.deep_view();
            rules.push(rule);
            proof {
                assert(rules.deep_view() == acc.push(rv));
                assert(sp_rules_loop(s, p_it, acc) == sp_rules_loop(
                    s,
                    self.pos(),
                    rules.deep_view(),
                ));
            }
        }
        Ok(rules)
    }
}

/// Pushing onto a vector pushes the element's view onto the deep view.
proof fn lemma_vec_push_deep_view<T: DeepView>(v: Seq<T>, x: T, v2: Seq<T>)
    requires
        v2 == v.push(x),
    ensures
        Seq::new(v2.len(), |i: int| v2[i].deep_view()) == Seq::new(
            v.len(),
            |i: int| v[i].deep_view(),
        ).push(x.deep_view()),
{
    assert(Seq::new(v2.len(), |i: int| v2[i].deep_view()) =~= Seq::new(
        v.len(),
        |i: int| v[i].deep_view(),
    ).push(x.deep_view()));
}

} // verus!
