//! Data model for a tiny subset of a style-sheet language, and the
//! specificity ranking of selectors.
//!
//! A stylesheet is a sequence of rules; a rule is one or more selectors
//! followed by a block of declarations; a declaration is a property
//! name/value pair. Values are keywords, lengths, or colors.

use vstd::prelude::*;

verus! {

/// A parsed stylesheet: a series of rules, kept in source order.
#[derive(Clone, Debug, PartialEq)]
pub struct Stylesheet {
    pub rules: Vec<Rule>,
}

/// One rule: a list of selectors (the rule applies if any of them matches)
/// and the declarations of its block.
///
/// The parser stores the selectors sorted ascending by specificity.
#[derive(Clone, Debug, PartialEq)]
pub struct Rule {
    pub selectors: Vec<Selector>,
    pub declarations: Vec<Declaration>,
}

/// A selector. Only simple selectors are supported.
#[derive(Clone, Debug, PartialEq)]
pub enum Selector {
    Simple(SimpleSelector),
}

/// A simple selector: an optional tag name, an optional id prefixed by `#`,
/// and any number of class names prefixed by `.`.
///
/// An absent, empty, or `*` tag name matches any tag (a universal selector).
#[derive(Clone, Debug, PartialEq)]
pub struct SimpleSelector {
    pub tag_name: Option<String>,
    pub id: Option<String>,
    pub class: Vec<String>,
}

/// One property name/value pair, e.g. `margin: auto`.
#[derive(Clone, Debug, PartialEq)]
pub struct Declaration {
    pub name: String,
    pub value: Value,
}

/// A property value. The magnitude of a length is kept as its exact decimal
/// text (a run of digits with at most one dot, as consumed by the parser);
/// consumers convert it to a numeric type as needed.
#[derive(Clone, Debug, PartialEq)]
pub enum Value {
    Keyword(String),
    Length(String, Unit),
    ColorValue(Color),
}

/// A unit of length.
#[derive(Clone, Copy, PartialEq, Eq, Structural, Debug)]
pub enum Unit {
    Px,
}

/// A color with red, green, blue and alpha channels.
#[derive(Clone, Copy, PartialEq, Eq, Structural, Debug)]
pub struct Color {
    pub r: u8,
    pub g: u8,
    pub b: u8,
    pub a: u8,
}

/// Why a parse failed. Every parse error is fatal to the whole parse:
/// a malformed sheet yields no stylesheet at all.
#[derive(Clone, Copy, PartialEq, Eq, Structural, Debug)]
pub enum ParseError {
    /// An expected literal character was not found at the cursor.
    UnexpectedInput,
    /// A lookahead was requested past the end of the input, typically a
    /// symptom of an unterminated construct.
    OutOfBounds,
    /// A hex color component is not a valid two-digit hex literal.
    InvalidColor,
    /// A length's unit text is not a recognized unit.
    UnknownUnit,
    /// A numeric literal's text does not convert to a valid magnitude.
    MalformedNumber,
    /// A value position holds a character that starts no known value form.
    EmptyValue,
}

/// The priority tuple of a selector: counts of (id, class, tag) components,
/// compared lexicographically; a higher tuple is a higher priority.
pub type Specificity = (usize, usize, usize);

// Mathematical models of the data types: the same shapes over `Seq<char>`.

/// Model of a simple selector.
pub struct SpecSimpleSelector {
    pub tag_name: Option<Seq<char>>,
    pub id: Option<Seq<char>>,
    pub class: Seq<Seq<char>>,
}

/// Model of a selector.
pub enum SpecSelector {
    Simple(SpecSimpleSelector),
}

/// Model of a value.
pub enum SpecValue {
    Keyword(Seq<char>),
    Length(Seq<char>, Unit),
    ColorValue(Color),
}

/// Model of a declaration.
pub struct SpecDeclaration {
    pub name: Seq<char>,
    pub value: SpecValue,
}

/// Model of a rule.
pub struct SpecRule {
    pub selectors: Seq<SpecSelector>,
    pub declarations: Seq<SpecDeclaration>,
}

impl DeepView for SimpleSelector {
    type V = SpecSimpleSelector;

    open spec fn deep_view(&self) -> SpecSimpleSelector {
        SpecSimpleSelector {
            tag_name: self.tag_name.deep_view(),
            id: self.id.deep_view(),
            class: self.class.deep_view(),
        }
    }
}

impl DeepView for Selector {
    type V = SpecSelector;

    open spec fn deep_view(&self) -> SpecSelector {
        match self {
            Selector::Simple(s) => SpecSelector::Simple(s.deep_view()),
        }
    }
}

impl DeepView for Value {
    type V = SpecValue;

    open spec fn deep_view(&self) -> SpecValue {
        match self {
            Value::Keyword(s) => SpecValue::Keyword(s@),
            Value::Length(t, u) => SpecValue::Length(t@, *u),
            Value::ColorValue(c) => SpecValue::ColorValue(*c),
        }
    }
}

impl DeepView for Declaration {
    type V = SpecDeclaration;

    open spec fn deep_view(&self) -> SpecDeclaration {
        SpecDeclaration { name: self.name@, value: self.value.deep_view() }
    }
}

impl DeepView for Rule {
    type V = SpecRule;

    open spec fn deep_view(&self) -> SpecRule {
        SpecRule {
            selectors: self.selectors.deep_view(),
            declarations: self.declarations.deep_view(),
        }
    }
}

impl DeepView for Stylesheet {
    type V = Seq<SpecRule>;

    open spec fn deep_view(&self) -> Seq<SpecRule> {
        self.rules.deep_view()
    }
}

/// A tag name that matches any tag: empty or `*`.
pub open spec fn is_universal_tag(t: Seq<char>) -> bool {
    t.len() == 0 || (t.len() == 1 && t[0] == '*')
}

/// The specificity of a selector: 1 if an id is present, the number of class
/// components, and 1 if a concrete (non-universal) tag name is present.
pub open spec fn spec_specificity(s: SpecSelector) -> (int, int, int) {
    match s {
        SpecSelector::Simple(ss) => (
            if ss.id is Some {
                1int
            } else {
                0int
            },
            ss.class.len() as int,
            match ss.tag_name {
                Some(t) => if is_universal_tag(t) {
                    0int
                } else {
                    1int
                },
                None => 0int,
            },
        ),
    }
}

/// Lexicographic order on specificity tuples.
pub open spec fn spec_lt(a: (int, int, int), b: (int, int, int)) -> bool {
    a.0 < b.0 || (a.0 == b.0 && (a.1 < b.1 || (a.1 == b.1 && a.2 < b.2)))
}

/// Non-strict lexicographic order on specificity tuples.
pub open spec fn spec_le(a: (int, int, int), b: (int, int, int)) -> bool {
    spec_lt(a, b) || a == b
}

/// Compare two specificity tuples lexicographically.
pub fn specificity_le(a: Specificity, b: Specificity) -> (r: bool)
    ensures
        r == spec_le((a.0 as int, a.1 as int, a.2 as int), (b.0 as int, b.1 as int, b.2 as int)),
{
    if a.0 != b.0 {
        a.0 < b.0
    } else if a.1 != b.1 {
        a.1 < b.1
    } else {
        a.2 <= b.2
    }
}

/// True iff the string is empty or the single character `*`.
pub(crate) fn is_universal_tag_text(t: &String) -> (r: bool)
    ensures
        r == is_universal_tag(t@),
{
    let n = t.as_str().unicode_len();
    if n == 0 {
        true
    } else if n == 1 {
        t.as_str().get_char(0) == '*'
    } else {
        false
    }
}

impl Selector {
    /// The priority tuple of this selector: (id count, class count, tag
    /// count). The id count is 1 iff an id component is present; the class
    /// count is the number of class components; the tag count is 1 iff a
    /// concrete tag name is set (a universal or absent tag contributes 0).
    pub fn specificity(&self) -> (r: Specificity)
        ensures
            (r.0 as int, r.1 as int, r.2 as int) == spec_specificity(self.deep_view()),
    {
        let Selector::Simple(simple) = self;
        let id_count: usize = if simple.id.is_some() {
            1
        } else {
            0
        };
        let class_count: usize = simple.class.len();
        let tag_count: usize = match &simple.tag_name {
            Some(t) => if is_universal_tag_text(t) {
                0
            } else {
                1
            },
            None => 0,
        };
        (id_count, class_count, tag_count)
    }
}

/// Parse a whole stylesheet. Returns the parsed rule set, or the error that
/// aborted the parse: a malformed sheet yields no stylesheet at all.
pub fn parse(source: String) -> (r: Result<Stylesheet, ParseError>)
    ensures
        match r {
            Ok(sheet) => crate::parser::spec_parse(source@) == Ok::<Seq<SpecRule>, ParseError>(
                sheet.deep_view(),
            ),
            Err(e) => crate::parser::spec_parse(source@) == Err::<Seq<SpecRule>, ParseError>(e),
        },
{
    let length = source.as_str().unicode_len();
    let mut parser = crate::parser::Parser { input: source, length, position: 0 };
    match parser.parse_rules() {
        Ok(rules) => Ok(Stylesheet { rules }),
        Err(e) => Err(e),
    }
}

} // verus!
