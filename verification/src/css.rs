use vstd::prelude::*;
use crate::strutil::{
    chars_of,
    find_from,
    lemma_find_from,
    lemma_skip_ws,
    skip_ws,
    string_of,
    ws_char,
};

verus! {

/// Upper bound on a parsed pixel length, in subpixel units: values are
/// saturated here while parsing, so that layout arithmetic stays well inside
/// the machine range.
pub const PX_LIMIT: i64 = 1_000_000_000_000_000;

/// Whole pixels in `PX_LIMIT` (the saturation bound on the integer part).
pub const PX_WHOLE_LIMIT: u64 = 1_000_000_000_000;

/// An RGBA colour.
#[derive(Clone, Copy, PartialEq, Eq, Structural, Debug)]
pub struct Color {
    pub r: u8,
    pub g: u8,
    pub b: u8,
    pub a: u8,
}

#[derive(Clone, Copy, PartialEq, Eq, Structural, Debug)]
pub enum Unit {
    Px,
    Em,
    Pr,
}

/// A property value: a keyword, a pixel length in subpixel units, or a
/// colour.
#[derive(Debug)]
pub enum Value {
    Keyword(String),
    Length(i64, Unit),
    Color(Color),
}

pub enum ValueV {
    Keyword(Seq<char>),
    Length(int, Unit),
    Color(Color),
}

impl View for Value {
    type V = ValueV;

    open spec fn view(&self) -> ValueV {
        match self {
            Value::Keyword(s) => ValueV::Keyword(s@),
            Value::Length(v, u) => ValueV::Length(*v as int, *u),
            Value::Color(c) => ValueV::Color(*c),
        }
    }
}

impl Value {
    /// Copy a value.
    pub fn duplicate(&self) -> (r: Value)
        ensures
            r@ == self@,
    {
        match self {
            Value::Keyword(s) => Value::Keyword(s.clone()),
            Value::Length(v, u) => Value::Length(*v, *u),
            Value::Color(c) => Value::Color(*c),
        }
    }
}

#[derive(Debug)]
pub struct Declaration {
    pub name: String,
    pub value: Value,
}

pub struct DeclarationV {
    pub name: Seq<char>,
    pub value: ValueV,
}

impl View for Declaration {
    type V = DeclarationV;

    open spec fn view(&self) -> DeclarationV {
        DeclarationV { name: self.name@, value: self.value@ }
    }
}

/// A simple selector: optional tag name, optional id, and required classes.
#[derive(Debug)]
pub struct SimpleSelector {
    pub tag: Option<String>,
    pub id: Option<String>,
    pub class: Vec<String>,
}

pub struct SimpleSelectorV {
    pub tag: Option<Seq<char>>,
    pub id: Option<Seq<char>>,
    pub class: Seq<Seq<char>>,
}

impl View for SimpleSelector {
    type V = SimpleSelectorV;

    open spec fn view(&self) -> SimpleSelectorV {
        SimpleSelectorV {
            tag: match self.tag {
                Some(t) => Some(t@),
                None => None,
            },
            id: match self.id {
                Some(t) => Some(t@),
                None => None,
            },
            class: self.class@.map_values(|c: String| c@),
        }
    }
}

#[derive(Debug)]
pub enum Selector {
    Simple(SimpleSelector),
}

pub enum SelectorV {
    Simple(SimpleSelectorV),
}

impl View for Selector {
    type V = SelectorV;

    open spec fn view(&self) -> SelectorV {
        match self {
            Selector::Simple(s) => SelectorV::Simple(s@),
        }
    }
}

#[derive(Debug)]
pub struct Rule {
    pub selector: Vec<Selector>,
    pub declaration: Vec<Declaration>,
}

pub struct RuleV {
    pub selector: Seq<SelectorV>,
    pub declaration: Seq<DeclarationV>,
}

impl View for Rule {
    type V = RuleV;

    open spec fn view(&self) -> RuleV {
        RuleV {
            selector: self.selector@.map_values(|s: Selector| s@),
            declaration: self.declaration@.map_values(|d: Declaration| d@),
        }
    }
}

/// An ordered list of rules.
#[derive(Debug)]
pub struct Stylesheet {
    pub rules: Vec<Rule>,
}

pub struct StylesheetV {
    pub rules: Seq<RuleV>,
}

impl View for Stylesheet {
    type V = StylesheetV;

    open spec fn view(&self) -> StylesheetV {
        StylesheetV { rules: self.rules@.map_values(|r: Rule| r@) }
    }
}

/// A selector's priority: id count, class count, tag count, compared
/// lexicographically.
pub type Specificity = (usize, usize, usize);

/// Why stylesheet parsing failed.
#[derive(Clone, Copy, PartialEq, Eq, Structural, Debug)]
pub enum CssErrorKind {
    /// A character in a selector list that is neither `,` nor `{`.
    UnexpectedSelectorChar,
    /// A `:`, `;`, `{` or `}` missing at its place, also where the input
    /// simply ends there.
    MissingDeclarationPunctuation,
    /// A length unit other than `px`.
    UnknownUnit,
    /// A colour that is not `#` followed by six hex digits.
    MalformedColor,
    /// A numeric literal with more than one dot.
    MalformedNumber,
    /// The input ended inside a selector list or where a value was needed.
    UnexpectedEndOfInput,
}

/// A fault in the stylesheet text, at a character position.
#[derive(Clone, Copy, PartialEq, Eq, Structural, Debug)]
pub struct CssError {
    pub pos: usize,
    pub kind: CssErrorKind,
}

pub struct CssErrorV {
    pub pos: int,
    pub kind: CssErrorKind,
}

impl View for CssError {
    type V = CssErrorV;

    open spec fn view(&self) -> CssErrorV {
        CssErrorV { pos: self.pos as int, kind: self.kind }
    }
}

/// Result of a reference parse step: a value with the position after it,
/// or a fault.
pub enum CParsed<T> {
    Done(T, int),
    Fail(CssErrorV),
}

/// Identifier characters: ASCII letters, digits, `-` and `_`.
pub open spec fn is_ident_char(c: char) -> bool {
    ||| ('a' as u32) <= (c as u32) <= ('z' as u32)
    ||| ('A' as u32) <= (c as u32) <= ('Z' as u32)
    ||| ('0' as u32) <= (c as u32) <= ('9' as u32)
    ||| c == '-'
    ||| c == '_'
}

pub fn ident_char(c: char) -> (r: bool)
    ensures
        r == is_ident_char(c),
{
    let u = c as u32;
    (u >= 97 && u <= 122) || (u >= 65 && u <= 90) || (u >= 48 && u <= 57) || c == '-' || c == '_'
}

pub open spec fn is_digit(c: char) -> bool {
    ('0' as u32) <= (c as u32) <= ('9' as u32)
}

pub fn digit_char(c: char) -> (r: bool)
    ensures
        r == is_digit(c),
{
    let u = c as u32;
    u >= 48 && u <= 57
}

pub open spec fn digit_val(c: char) -> int {
    c as u32 - '0' as u32
}

pub open spec fn is_hex_digit(c: char) -> bool {
    ||| is_digit(c)
    ||| ('a' as u32) <= (c as u32) <= ('f' as u32)
    ||| ('A' as u32) <= (c as u32) <= ('F' as u32)
}

pub open spec fn hex_val(c: char) -> int {
    if is_digit(c) {
        c as u32 - '0' as u32
    } else if ('a' as u32) <= (c as u32) <= ('f' as u32) {
        c as u32 - 'a' as u32 + 10
    } else {
        c as u32 - 'A' as u32 + 10
    }
}

/// The identifier read at `pos` and the position after it. Whitespace is
/// skipped both before and between identifier characters, so the scan stops
/// at the first character, whitespace aside, that does not belong to an
/// identifier; the position returned is past any trailing whitespace.
pub open spec fn spec_ident(s: Seq<char>, pos: int) -> (Seq<char>, int)
    decreases s.len() - pos,
    when 0 <= pos <= s.len()
{
    let p = skip_ws(s, pos);
    if p < s.len() && is_ident_char(s[p]) {
        proof {
            lemma_skip_ws(s, pos);
        }
        let rest = spec_ident(s, p + 1);
        (seq![s[p]] + rest.0, rest.1)
    } else {
        (Seq::empty(), p)
    }
}

pub proof fn lemma_spec_ident(s: Seq<char>, pos: int)
    requires
        0 <= pos <= s.len(),
    ensures
        pos <= spec_ident(s, pos).1 <= s.len(),
    decreases s.len() - pos,
{
    lemma_skip_ws(s, pos);
    let p = skip_ws(s, pos);
    if p < s.len() && is_ident_char(s[p]) {
        lemma_spec_ident(s, p + 1);
    }
}

/// The numeric value of a sequence of decimal digits.
pub open spec fn spec_digits_val(ds: Seq<char>) -> int
    decreases ds.len(),
{
    if ds.len() == 0 {
        0
    } else {
        spec_digits_val(ds.drop_last()) * 10 + digit_val(ds.last())
    }
}

/// The value, in subpixel units, of the numeric literal spanning `span`
/// (digits with at most one dot): the integer part in whole pixels plus the
/// first three fractional digits, further digits cut off, the whole
/// saturated at `PX_LIMIT`. A span that is empty or has a second dot is
/// malformed.
pub open spec fn spec_number_of_span(span: Seq<char>) -> Option<int> {
    if span.len() == 0 {
        None
    } else {
        let dot = find_from(span, 0, '.');
        if dot >= span.len() {
            Some(
                if spec_digits_val(span) * 1000 > PX_LIMIT as int {
                    PX_LIMIT as int
                } else {
                    spec_digits_val(span) * 1000
                },
            )
        } else {
            let ipart = span.take(dot);
            let fpart = span.skip(dot + 1);
            if find_from(fpart, 0, '.') < fpart.len() {
                None
            } else {
                let f3 = if fpart.len() >= 3 {
                    spec_digits_val(fpart.take(3))
                } else if fpart.len() == 2 {
                    spec_digits_val(fpart) * 10
                } else if fpart.len() == 1 {
                    spec_digits_val(fpart) * 100
                } else {
                    0
                };
                Some(
                    if spec_digits_val(ipart) * 1000 + f3 > PX_LIMIT as int {
                        PX_LIMIT as int
                    } else {
                        spec_digits_val(ipart) * 1000 + f3
                    },
                )
            }
        }
    }
}

/// Characters a numeric literal is scanned over.
pub open spec fn is_number_char(c: char) -> bool {
    is_digit(c) || c == '.'
}

/// End of the numeric span starting at `pos`.
pub open spec fn spec_number_end(s: Seq<char>, pos: int) -> int
    decreases s.len() - pos,
{
    if 0 <= pos < s.len() && is_number_char(s[pos]) {
        spec_number_end(s, pos + 1)
    } else {
        pos
    }
}

pub proof fn lemma_spec_number_end(s: Seq<char>, pos: int)
    requires
        0 <= pos <= s.len(),
    ensures
        pos <= spec_number_end(s, pos) <= s.len(),
        forall|i: int| pos <= i < spec_number_end(s, pos) ==> is_number_char(s[i]),
        spec_number_end(s, pos) < s.len() ==> !is_number_char(s[spec_number_end(s, pos)]),
    decreases s.len() - pos,
{
    if pos < s.len() && is_number_char(s[pos]) {
        lemma_spec_number_end(s, pos + 1);
    }
}

/// The numeric literal at `pos`: its subpixel value and the position after
/// it, or a fault.
pub open spec fn spec_number(s: Seq<char>, pos: int) -> CParsed<int> {
    let e = spec_number_end(s, pos);
    match spec_number_of_span(s.subrange(pos, e)) {
        Some(v) => CParsed::Done(v, e),
        None => CParsed::Fail(CssErrorV { pos, kind: CssErrorKind::MalformedNumber }),
    }
}

/// A unit identifier equal to `px` regardless of case.
pub open spec fn is_px_ident(id: Seq<char>) -> bool {
    id.len() == 2 && (id[0] == 'p' || id[0] == 'P') && (id[1] == 'x' || id[1] == 'X')
}

/// The length unit at `pos`: only `px` is recognised.
pub open spec fn spec_unit(s: Seq<char>, pos: int) -> CParsed<Unit>
    recommends
        0 <= pos <= s.len(),
{
    let r = spec_ident(s, pos);
    if is_px_ident(r.0) {
        CParsed::Done(Unit::Px, r.1)
    } else {
        CParsed::Fail(CssErrorV { pos, kind: CssErrorKind::UnknownUnit })
    }
}

/// The colour at `pos` (which holds `#`): exactly six hex digits, alpha
/// fixed at 255.
pub open spec fn spec_color(s: Seq<char>, pos: int) -> CParsed<ValueV> {
    if pos + 7 > s.len() {
        CParsed::Fail(CssErrorV { pos, kind: CssErrorKind::MalformedColor })
    } else if !(is_hex_digit(s[pos + 1]) && is_hex_digit(s[pos + 2]) && is_hex_digit(s[pos + 3])
        && is_hex_digit(s[pos + 4]) && is_hex_digit(s[pos + 5]) && is_hex_digit(s[pos + 6])) {
        CParsed::Fail(CssErrorV { pos, kind: CssErrorKind::MalformedColor })
    } else {
        CParsed::Done(
            ValueV::Color(
                Color {
                    r: (hex_val(s[pos + 1]) * 16 + hex_val(s[pos + 2])) as u8,
                    g: (hex_val(s[pos + 3]) * 16 + hex_val(s[pos + 4])) as u8,
                    b: (hex_val(s[pos + 5]) * 16 + hex_val(s[pos + 6])) as u8,
                    a: 255,
                },
            ),
            pos + 7,
        )
    }
}

/// The length at `pos`: a numeric literal followed by its unit.
pub open spec fn spec_length(s: Seq<char>, pos: int) -> CParsed<ValueV>
    recommends
        0 <= pos <= s.len(),
{
    match spec_number(s, pos) {
        CParsed::Done(v, e) => match spec_unit(s, e) {
            CParsed::Done(u, e2) => CParsed::Done(ValueV::Length(v, u), e2),
            CParsed::Fail(err) => CParsed::Fail(err),
        },
        CParsed::Fail(err) => CParsed::Fail(err),
    }
}

/// The value at `pos`: a digit starts a length, `#` a colour, anything
/// else an identifier keyword.
pub open spec fn spec_value(s: Seq<char>, pos: int) -> CParsed<ValueV>
    recommends
        0 <= pos <= s.len(),
{
    if pos >= s.len() {
        CParsed::Fail(CssErrorV { pos, kind: CssErrorKind::UnexpectedEndOfInput })
    } else if is_digit(s[pos]) {
        spec_length(s, pos)
    } else if s[pos] == '#' {
        spec_color(s, pos)
    } else {
        let r = spec_ident(s, pos);
        CParsed::Done(ValueV::Keyword(r.0), r.1)
    }
}

/// The `name: value;` declaration at `pos`.
pub open spec fn spec_declaration(s: Seq<char>, pos: int) -> CParsed<DeclarationV>
    recommends
        0 <= pos <= s.len(),
{
    let r = spec_ident(s, pos);
    let p1 = r.1;
    if p1 >= s.len() {
        CParsed::Fail(CssErrorV { pos: p1, kind: CssErrorKind::MissingDeclarationPunctuation })
    } else if s[p1] != ':' {
        CParsed::Fail(CssErrorV { pos: p1, kind: CssErrorKind::MissingDeclarationPunctuation })
    } else {
        let p2 = skip_ws(s, p1 + 1);
        match spec_value(s, p2) {
            CParsed::Fail(err) => CParsed::Fail(err),
            CParsed::Done(v, p3) => {
                let p4 = skip_ws(s, p3);
                if p4 >= s.len() {
                    CParsed::Fail(
                        CssErrorV { pos: p4, kind: CssErrorKind::MissingDeclarationPunctuation },
                    )
                } else if s[p4] != ';' {
                    CParsed::Fail(
                        CssErrorV { pos: p4, kind: CssErrorKind::MissingDeclarationPunctuation },
                    )
                } else {
                    CParsed::Done(DeclarationV { name: r.0, value: v }, p4 + 1)
                }
            },
        }
    }
}

/// Declarations advance the cursor when they succeed.
pub proof fn lemma_spec_declaration_pos(s: Seq<char>, pos: int)
    requires
        0 <= pos <= s.len(),
    ensures
        match spec_declaration(s, pos) {
            CParsed::Done(d, end) => pos < end <= s.len(),
            CParsed::Fail(_) => true,
        },
{
    lemma_spec_ident(s, pos);
    let r = spec_ident(s, pos);
    let p1 = r.1;
    if p1 < s.len() && s[p1] == ':' {
        lemma_skip_ws(s, p1 + 1);
        let p2 = skip_ws(s, p1 + 1);
        match spec_value(s, p2) {
            CParsed::Done(v, p3) => {
                lemma_spec_value_pos(s, p2);
                lemma_skip_ws(s, p3);
            },
            CParsed::Fail(_) => {},
        }
    }
}

/// Values stay inside the input.
pub proof fn lemma_spec_value_pos(s: Seq<char>, pos: int)
    requires
        0 <= pos <= s.len(),
    ensures
        match spec_value(s, pos) {
            CParsed::Done(v, end) => pos <= end <= s.len(),
            CParsed::Fail(_) => true,
        },
{
    if pos < s.len() {
        if is_digit(s[pos]) {
            lemma_spec_number_end(s, pos);
            let e = spec_number_end(s, pos);
            lemma_spec_ident(s, e);
        } else if s[pos] == '#' {
        } else {
            lemma_spec_ident(s, pos);
        }
    }
}

/// The `{ ... }` declaration block at `pos`: declarations up to and over
/// the closing brace.
pub open spec fn spec_declarations(s: Seq<char>, pos: int) -> CParsed<Seq<DeclarationV>>
    recommends
        0 <= pos <= s.len(),
{
    if pos >= s.len() {
        CParsed::Fail(CssErrorV { pos, kind: CssErrorKind::UnexpectedEndOfInput })
    } else if s[pos] != '{' {
        CParsed::Fail(CssErrorV { pos, kind: CssErrorKind::MissingDeclarationPunctuation })
    } else {
        spec_declarations_body(s, pos + 1)
    }
}

pub open spec fn spec_declarations_body(s: Seq<char>, pos: int) -> CParsed<Seq<DeclarationV>>
    decreases s.len() - pos,
    when 0 <= pos <= s.len()
{
    let p = skip_ws(s, pos);
    if p >= s.len() {
        CParsed::Fail(CssErrorV { pos: p, kind: CssErrorKind::MissingDeclarationPunctuation })
    } else if s[p] == '}' {
        CParsed::Done(Seq::empty(), p + 1)
    } else {
        match spec_declaration(s, p) {
            CParsed::Fail(err) => CParsed::Fail(err),
            CParsed::Done(d, p2) => {
                proof {
                    lemma_skip_ws(s, pos);
                    lemma_spec_declaration_pos(s, p);
                }
                if p < p2 <= s.len() {
                    match spec_declarations_body(s, p2) {
                        CParsed::Done(ds, e) => CParsed::Done(seq![d] + ds, e),
                        CParsed::Fail(err) => CParsed::Fail(err),
                    }
                } else {
                    CParsed::Fail(CssErrorV { pos: p, kind: CssErrorKind::UnexpectedEndOfInput })
                }
            },
        }
    }
}

/// The simple selector at `pos`, folded over `#id`, `.class`, `*` and tag
/// parts; stops at the first other character, whitespace skipped.
pub open spec fn spec_selector_from(s: Seq<char>, pos: int, acc: SimpleSelectorV) -> (
    SimpleSelectorV,
    int,
)
    decreases s.len() - pos,
    when 0 <= pos <= s.len()
{
    let p = skip_ws(s, pos);
    if p >= s.len() {
        (acc, p)
    } else if s[p] == '#' {
        proof {
            lemma_skip_ws(s, pos);
            lemma_spec_ident(s, p + 1);
        }
        let r = spec_ident(s, p + 1);
        spec_selector_from(s, r.1, SimpleSelectorV { id: Some(r.0), ..acc })
    } else if s[p] == '.' {
        proof {
            lemma_skip_ws(s, pos);
            lemma_spec_ident(s, p + 1);
        }
        let r = spec_ident(s, p + 1);
        spec_selector_from(s, r.1, SimpleSelectorV { class: acc.class.push(r.0), ..acc })
    } else if s[p] == '*' {
        proof {
            lemma_skip_ws(s, pos);
        }
        spec_selector_from(s, p + 1, acc)
    } else if is_ident_char(s[p]) {
        proof {
            lemma_skip_ws(s, pos);
            lemma_spec_ident(s, p + 1);
        }
        let r = spec_ident(s, p + 1);
        spec_selector_from(
            s,
            r.1,
            SimpleSelectorV { tag: Some(seq![s[p]] + r.0), ..acc },
        )
    } else {
        (acc, p)
    }
}

pub open spec fn empty_selector() -> SimpleSelectorV {
    SimpleSelectorV { tag: None, id: None, class: Seq::empty() }
}

pub proof fn lemma_spec_selector_from(s: Seq<char>, pos: int, acc: SimpleSelectorV)
    requires
        0 <= pos <= s.len(),
    ensures
        pos <= spec_selector_from(s, pos, acc).1 <= s.len(),
    decreases s.len() - pos,
{
    lemma_skip_ws(s, pos);
    let p = skip_ws(s, pos);
    if p >= s.len() {
    } else if s[p] == '#' {
        lemma_spec_ident(s, p + 1);
        let r = spec_ident(s, p + 1);
        lemma_spec_selector_from(s, r.1, SimpleSelectorV { id: Some(r.0), ..acc });
    } else if s[p] == '.' {
        lemma_spec_ident(s, p + 1);
        let r = spec_ident(s, p + 1);
        lemma_spec_selector_from(s, r.1, SimpleSelectorV { class: acc.class.push(r.0), ..acc });
    } else if s[p] == '*' {
        lemma_spec_selector_from(s, p + 1, acc);
    } else if is_ident_char(s[p]) {
        lemma_spec_ident(s, p + 1);
        let r = spec_ident(s, p + 1);
        lemma_spec_selector_from(s, r.1, SimpleSelectorV { tag: Some(seq![s[p]] + r.0), ..acc });
    }
}

/// A selector's specificity as integers.
pub open spec fn spec_specificity(sel: SelectorV) -> (int, int, int) {
    match sel {
        SelectorV::Simple(ss) => (
            if ss.id is Some {
                1int
            } else {
                0int
            },
            ss.class.len() as int,
            if ss.tag is Some {
                1int
            } else {
                0int
            },
        ),
    }
}

/// Lexicographic order on specificities.
pub open spec fn spec3_lt(a: (int, int, int), b: (int, int, int)) -> bool {
    ||| a.0 < b.0
    ||| (a.0 == b.0 && a.1 < b.1)
    ||| (a.0 == b.0 && a.1 == b.1 && a.2 < b.2)
}

/// Insert `x` behind every element whose specificity is at least `x`'s:
/// one step of a stable descending insertion sort.
pub open spec fn spec_insert_desc(sorted: Seq<SelectorV>, x: SelectorV) -> Seq<SelectorV>
    decreases sorted.len(),
{
    if sorted.len() == 0 {
        seq![x]
    } else if spec3_lt(spec_specificity(sorted[0]), spec_specificity(x)) {
        seq![x] + sorted
    } else {
        seq![sorted[0]] + spec_insert_desc(sorted.drop_first(), x)
    }
}

/// Stable sort of a selector list, descending by specificity: the
/// left-to-right fold of the insertions.
pub open spec fn spec_sort_desc(sels: Seq<SelectorV>, i: int, acc: Seq<SelectorV>) -> Seq<
    SelectorV,
>
    decreases sels.len() - i,
    when 0 <= i <= sels.len()
{
    if i >= sels.len() {
        acc
    } else {
        spec_sort_desc(sels, i + 1, spec_insert_desc(acc, sels[i]))
    }
}

/// The comma-separated selector list at `pos`, in parse order, ending just
/// before `{`.
pub open spec fn spec_selectors_raw(s: Seq<char>, pos: int) -> CParsed<Seq<SelectorV>>
    decreases s.len() - pos,
    when 0 <= pos <= s.len()
{
    let r = spec_selector_from(s, pos, empty_selector());
    let sel = SelectorV::Simple(r.0);
    let p = r.1;
    if p >= s.len() {
        CParsed::Fail(CssErrorV { pos: p, kind: CssErrorKind::UnexpectedEndOfInput })
    } else if s[p] == ',' {
        proof {
            lemma_spec_selector_from(s, pos, empty_selector());
            lemma_skip_ws(s, p + 1);
        }
        let q = skip_ws(s, p + 1);
        match spec_selectors_raw(s, q) {
            CParsed::Done(rest, e) => CParsed::Done(seq![sel] + rest, e),
            CParsed::Fail(err) => CParsed::Fail(err),
        }
    } else if s[p] == '{' {
        CParsed::Done(seq![sel], p)
    } else {
        CParsed::Fail(CssErrorV { pos: p, kind: CssErrorKind::UnexpectedSelectorChar })
    }
}

/// The rule at `pos`: a selector list, sorted stably by descending
/// specificity, then a declaration block.
pub open spec fn spec_rule(s: Seq<char>, pos: int) -> CParsed<RuleV>
    recommends
        0 <= pos <= s.len(),
{
    match spec_selectors_raw(s, pos) {
        CParsed::Fail(err) => CParsed::Fail(err),
        CParsed::Done(sels, p) => match spec_declarations(s, p) {
            CParsed::Fail(err) => CParsed::Fail(err),
            CParsed::Done(ds, e) => CParsed::Done(
                RuleV { selector: spec_sort_desc(sels, 0, Seq::empty()), declaration: ds },
                e,
            ),
        },
    }
}

/// The whole stylesheet from `pos` on: rules separated by whitespace, up
/// to the end of the input.
pub open spec fn spec_rules(s: Seq<char>, pos: int) -> CParsed<Seq<RuleV>>
    decreases s.len() - pos,
    when 0 <= pos <= s.len()
{
    let p = skip_ws(s, pos);
    if p >= s.len() {
        CParsed::Done(Seq::empty(), p)
    } else {
        match spec_rule(s, p) {
            CParsed::Fail(err) => CParsed::Fail(err),
            CParsed::Done(r, p2) => {
                proof {
                    lemma_skip_ws(s, pos);
                }
                if p < p2 <= s.len() {
                    match spec_rules(s, p2) {
                        CParsed::Done(rs, e) => CParsed::Done(seq![r] + rs, e),
                        CParsed::Fail(err) => CParsed::Fail(err),
                    }
                } else {
                    CParsed::Fail(CssErrorV { pos: p, kind: CssErrorKind::UnexpectedEndOfInput })
                }
            },
        }
    }
}

/// The reference parse of a whole stylesheet.
pub open spec fn spec_parse_css(s: Seq<char>) -> CParsed<Seq<RuleV>> {
    spec_rules(s, 0)
}

/// View of an optional string.
pub open spec fn opt_view(o: Option<String>) -> Option<Seq<char>> {
    match o {
        Some(t) => Some(t@),
        None => None,
    }
}

/// Cursor-based stylesheet parser.
pub struct CSS {
    pub pos: usize,
    pub chars: Vec<char>,
}

impl CSS {
    pub fn new(input: String) -> (r: CSS)
        ensures
            r.chars@ == input@,
            r.pos == 0,
    {
        CSS { pos: 0, chars: chars_of(input.as_str()) }
    }

    fn eof(&self) -> (r: bool)
        ensures
            r == (self.pos >= self.chars.len()),
    {
        self.pos >= self.chars.len()
    }

    fn next_char(&self) -> (r: char)
        requires
            self.pos < self.chars.len(),
        ensures
            r == self.chars@[self.pos as int],
    {
        self.chars[self.pos]
    }

    fn advance(&mut self)
        requires
            old(self).pos < old(self).chars.len(),
        ensures
            final(self).chars == old(self).chars,
            final(self).pos == old(self).pos + 1,
    {
        self.pos = self.pos + 1;
    }

    fn consume_whitespace(&mut self)
        requires
            old(self).pos <= old(self).chars.len(),
        ensures
            final(self).chars == old(self).chars,
            final(self).pos as int == skip_ws(old(self).chars@, old(self).pos as int),
    {
        let ghost s = self.chars@;
        let ghost start = self.pos as int;
        let mut p: usize = self.pos;
        while p < self.chars.len() && ws_char(self.chars[p])
            invariant
                0 <= start <= p as int <= s.len(),
                self.chars@ == s,
                skip_ws(s, start) == skip_ws(s, p as int),
            decreases s.len() - p,
        {
            p = p + 1;
        }
        proof {
            assert(skip_ws(s, start) == p as int);
        }
        self.pos = p;
    }

    /// Read an identifier; whitespace between its characters is skipped, as
    /// is whitespace after it.
    pub fn parse_identifier(&mut self) -> (r: String)
        requires
            old(self).pos <= old(self).chars.len(),
        ensures
            final(self).chars == old(self).chars,
            r@ == spec_ident(old(self).chars@, old(self).pos as int).0,
            final(self).pos as int == spec_ident(old(self).chars@, old(self).pos as int).1,
            old(self).pos <= final(self).pos <= final(self).chars.len(),
    {
        let ghost s = self.chars@;
        let ghost start = self.pos as int;
        let mut acc: Vec<char> = Vec::new();
        let mut p: usize = self.pos;
        proof {
            lemma_spec_ident(s, start);
        }
        loop
            invariant_except_break
                0 <= start <= s.len(),
                0 <= p as int <= s.len(),
                self.chars@ == s,
                spec_ident(s, start).0 == acc@ + spec_ident(s, p as int).0,
                spec_ident(s, start).1 == spec_ident(s, p as int).1,
            ensures
                acc@ == spec_ident(s, start).0,
                p as int == spec_ident(s, start).1,
                p as int <= s.len(),
            decreases s.len() - p,
        {
            let ghost pb = p as int;
            while p < self.chars.len() && ws_char(self.chars[p])
                invariant
                    0 <= pb <= p as int <= s.len(),
                    self.chars@ == s,
                    skip_ws(s, pb) == skip_ws(s, p as int),
                decreases s.len() - p,
            {
                p = p + 1;
            }
            proof {
                assert(skip_ws(s, pb) == p as int);
                assert(spec_ident(s, pb) == spec_ident(s, p as int));
            }
            if p >= self.chars.len() {
                proof {
                    assert(spec_ident(s, p as int).0 =~= Seq::<char>::empty());
                    assert(acc@ + Seq::<char>::empty() =~= acc@);
                }
                break ;
            }
            let c = self.chars[p];
            if ident_char(c) {
                acc.push(c);
                p = p + 1;
                proof {
                    lemma_spec_ident(s, p as int);
                    assert(spec_ident(s, p - 1 as int).0 == seq![c] + spec_ident(s, p as int).0);
                    assert(acc@ + spec_ident(s, p as int).0 =~= acc@.drop_last() + (seq![c]
                        + spec_ident(s, p as int).0));
                }
            } else {
                proof {
                    assert(spec_ident(s, p as int).0 =~= Seq::<char>::empty());
                    assert(acc@ + Seq::<char>::empty() =~= acc@);
                }
                break ;
            }
        }
        self.pos = p;
        string_of(&acc)
    }

    /// Read a numeric literal, in subpixel units, saturated at `PX_LIMIT`.
    fn parse_float(&mut self) -> (r: Result<i64, CssError>)
        requires
            old(self).pos <= old(self).chars.len(),
        ensures
            final(self).chars == old(self).chars,
            final(self).pos <= final(self).chars.len(),
            match r {
                Ok(v) => spec_number(old(self).chars@, old(self).pos as int) == CParsed::Done(
                    v as int,
                    final(self).pos as int,
                ) && 0 <= v <= PX_LIMIT && old(self).pos <= final(self).pos,
                Err(e) => spec_number(old(self).chars@, old(self).pos as int) == CParsed::<
                    int,
                >::Fail(e@),
            },
    {
        let ghost s = self.chars@;
        let startu: usize = self.pos;
        let ghost start = self.pos as int;
        let mut p: usize = self.pos;
        while p < self.chars.len() && (digit_char(self.chars[p]) || self.chars[p] == '.')
            invariant
                0 <= start <= p as int <= s.len(),
                self.chars@ == s,
                forall|k: int| start <= k < p as int ==> is_number_char(s[k]),
            decreases s.len() - p,
        {
            p = p + 1;
        }
        proof {
            lemma_spec_number_end(s, start);
            assert(spec_number_end(s, start) == p as int);
        }
        let e: usize = p;
        let ghost span = s.subrange(start, e as int);
        self.pos = e;
        if e == startu {
            proof {
                assert(span.len() == 0);
            }
            return Err(CssError { pos: startu, kind: CssErrorKind::MalformedNumber });
        }
        // Find the dot, if any.
        let mut d: usize = startu;
        while d < e && self.chars[d] != '.'
            invariant
                startu <= d <= e,
                e <= self.chars.len(),
                self.chars@ == s,
                forall|k: int| startu as int <= k < d as int ==> s[k] != '.',
            decreases e - d,
        {
            d = d + 1;
        }
        proof {
            lemma_find_from(span, 0, '.');
            assert(forall|k: int| 0 <= k < span.len() ==> span[k] == s[start + k]);
            assert(forall|k: int| 0 <= k < d as int - start ==> span[k] != '.');
            if (d as int) < e as int {
                assert(span[d as int - start] == '.');
            }
            assert(find_from(span, 0, '.') == d as int - start);
        }
        // The integer part: digits in [startu, d).
        let ghost ipart = span.take(d as int - start);
        let mut acc: u64 = 0;
        let mut k: usize = startu;
        proof {
            assert(s.subrange(start, start) =~= Seq::<char>::empty());
        }
        while k < d
            invariant
                startu <= k <= d <= e <= self.chars.len(),
                self.chars@ == s,
                s == old(self).chars@,
                forall|k2: int| start <= k2 < e as int ==> is_number_char(s[k2]),
                forall|k2: int| start <= k2 < d as int ==> s[k2] != '.',
                start == startu as int,
                acc <= PX_WHOLE_LIMIT + 1,
                spec_digits_val(s.subrange(start, k as int)) <= PX_WHOLE_LIMIT ==> acc as int
                    == spec_digits_val(s.subrange(start, k as int)),
                spec_digits_val(s.subrange(start, k as int)) > PX_WHOLE_LIMIT ==> acc
                    == PX_WHOLE_LIMIT + 1,
            decreases d - k,
        {
            let ghost pref = s.subrange(start, k as int);
            let c = self.chars[k];
            proof {
                assert(is_number_char(s[k as int]) && s[k as int] != '.');
                assert(is_digit(c));
            }
            let dv = (c as u32 - 48) as u64;
            acc = acc * 10 + dv;
            if acc > PX_WHOLE_LIMIT {
                acc = PX_WHOLE_LIMIT + 1;
            }
            proof {
                assert(s.subrange(start, k + 1 as int).drop_last() =~= pref);
                assert(s.subrange(start, k + 1 as int).last() == s[k as int]);
                assert(spec_digits_val(s.subrange(start, k + 1 as int)) == spec_digits_val(pref)
                    * 10 + digit_val(s[k as int]));
            }
            k = k + 1;
        }
        proof {
            assert(ipart =~= s.subrange(start, d as int));
        }
        // The fraction: at most three digits kept, truncated beyond.
        let mut frac: u64 = 0;
        if d < e {
            // A second dot makes the literal malformed.
            let mut m: usize = d + 1;
            while m < e && self.chars[m] != '.'
                invariant
                    d + 1 <= m as int <= e as int,
                    e <= self.chars.len(),
                    self.chars@ == s,
                    forall|k2: int| d + 1 <= k2 < m as int ==> s[k2] != '.',
                decreases e - m,
            {
                m = m + 1;
            }
            let ghost fpart = span.skip(d as int - start + 1);
            proof {
                lemma_find_from(fpart, 0, '.');
                assert(fpart.len() == e as int - (d as int) - 1);
                assert(forall|k2: int| 0 <= k2 < fpart.len() ==> fpart[k2] == s[d + 1 + k2]);
                assert(forall|k2: int| 0 <= k2 < m as int - (d as int) - 1 ==> fpart[k2] != '.');
                if m < e {
                    assert(fpart[m as int - (d as int) - 1] == s[m as int]);
                    assert(fpart[m as int - (d as int) - 1] == '.');
                }
                assert(find_from(fpart, 0, '.') == m as int - (d as int) - 1);
            }
            if m < e {
                return Err(CssError { pos: startu, kind: CssErrorKind::MalformedNumber });
            }
            let count: usize = e - d - 1;
            let taken: usize = if count > 3 {
                3
            } else {
                count
            };
            let mut j: usize = 0;
            proof {
                assert(s.subrange(d + 1 as int, d + 1 as int) =~= Seq::<char>::empty());
            }
            while j < taken
                invariant
                    0 <= j <= taken <= 3,
                    taken <= count,
                    d < e,
                    count == e - d - 1,
                    d + 1 + taken as int <= e as int <= self.chars.len(),
                    self.chars@ == s,
                    forall|k2: int| start <= k2 < e as int ==> is_number_char(s[k2]),
                    forall|k2: int| d + 1 <= k2 < e as int ==> s[k2] != '.',
                    start <= d as int,
                    frac as int == spec_digits_val(s.subrange(d + 1 as int, d + 1 + j as int)),
                    frac < 1000,
                    j == 0 ==> frac == 0,
                    j == 1 ==> frac <= 9,
                    j == 2 ==> frac <= 99,
                decreases taken - j,
            {
                let ghost pref = s.subrange(d + 1 as int, d + 1 + j as int);
                let c = self.chars[d + 1 + j];
                proof {
                    assert(is_number_char(s[d + 1 + j as int]) && s[d + 1 + j as int] != '.');
                    assert(is_digit(c));
                }
                let dv = (c as u32 - 48) as u64;
                frac = frac * 10 + dv;
                proof {
                    assert(s.subrange(d + 1 as int, d + 1 + (j + 1) as int).drop_last()
                        =~= pref);
                    assert(s.subrange(d + 1 as int, d + 1 + (j + 1) as int).last() == s[d + 1
                        + j as int]);
                }
                j = j + 1;
            }
            let scale: u64 = if count >= 3 {
                1
            } else if count == 2 {
                10
            } else if count == 1 {
                100
            } else {
                1
            };
            frac = frac * scale;
            proof {
                if count >= 3 {
                    assert(fpart.take(3) =~= s.subrange(d + 1 as int, d + 4 as int));
                } else {
                    assert(fpart =~= s.subrange(d + 1 as int, e as int));
                    assert(fpart.len() == count);
                }
            }
        }
        // Combine, saturating at the limit.
        let raw: u64 = acc * 1000 + frac;
        let v: i64 = if raw > PX_LIMIT as u64 {
            PX_LIMIT
        } else {
            raw as i64
        };
        proof {
            let dv = spec_digits_val(ipart);
            if d as int - start >= span.len() {
                assert(ipart =~= span);
            }
            if dv > PX_WHOLE_LIMIT {
                assert(dv * 1000 >= (PX_WHOLE_LIMIT + 1) * 1000);
            }
            assert(spec_number_of_span(span) == Some(v as int));
        }
        Ok(v)
    }

    /// Read a length unit; only `px` (in any case) is known.
    fn parse_unit(&mut self) -> (r: Result<Unit, CssError>)
        requires
            old(self).pos <= old(self).chars.len(),
        ensures
            final(self).chars == old(self).chars,
            final(self).pos <= final(self).chars.len(),
            match r {
                Ok(u) => spec_unit(old(self).chars@, old(self).pos as int) == CParsed::Done(
                    u,
                    final(self).pos as int,
                ),
                Err(e) => spec_unit(old(self).chars@, old(self).pos as int) == CParsed::<
                    Unit,
                >::Fail(e@),
            },
    {
        let startu: usize = self.pos;
        let id = self.parse_identifier();
        let idc = chars_of(id.as_str());
        let okpx = idc.len() == 2 && (idc[0] == 'p' || idc[0] == 'P') && (idc[1] == 'x'
            || idc[1] == 'X');
        proof {
            assert(okpx == is_px_ident(id@));
        }
        if okpx {
            Ok(Unit::Px)
        } else {
            Err(CssError { pos: startu, kind: CssErrorKind::UnknownUnit })
        }
    }

    /// The value of one hex digit, if the character is one.
    fn hex_digit(c: char) -> (r: Option<u8>)
        ensures
            match r {
                Some(v) => is_hex_digit(c) && v as int == hex_val(c) && v < 16,
                None => !is_hex_digit(c),
            },
    {
        let u = c as u32;
        if u >= 48 && u <= 57 {
            Some((u - 48) as u8)
        } else if u >= 97 && u <= 102 {
            Some((u - 87) as u8)
        } else if u >= 65 && u <= 70 {
            Some((u - 55) as u8)
        } else {
            None
        }
    }

    /// Read two hexadecimal digits.
    fn parse_hex_pair(&mut self) -> (r: Result<u8, CssError>)
        requires
            old(self).pos <= old(self).chars.len(),
        ensures
            final(self).chars == old(self).chars,
            final(self).pos <= final(self).chars.len(),
            match r {
                Ok(b) => old(self).pos + 2 <= old(self).chars.len() && is_hex_digit(
                    old(self).chars@[old(self).pos as int],
                ) && is_hex_digit(old(self).chars@[old(self).pos + 1]) && b as int == hex_val(
                    old(self).chars@[old(self).pos as int],
                ) * 16 + hex_val(old(self).chars@[old(self).pos + 1])
                    && final(self).pos == old(self).pos + 2,
                Err(e) => (old(self).pos + 2 > old(self).chars.len() || !is_hex_digit(
                    old(self).chars@[old(self).pos as int],
                ) || !is_hex_digit(old(self).chars@[old(self).pos + 1])) && e.kind
                    == CssErrorKind::MalformedColor,
            },
    {
        if self.pos >= self.chars.len() || self.pos + 1 >= self.chars.len() {
            return Err(CssError { pos: self.pos, kind: CssErrorKind::MalformedColor });
        }
        let c1 = self.chars[self.pos];
        let c2 = self.chars[self.pos + 1];
        match (Self::hex_digit(c1), Self::hex_digit(c2)) {
            (Some(h1), Some(h2)) => {
                self.pos = self.pos + 2;
                Ok(h1 * 16 + h2)
            },
            _ => Err(CssError { pos: self.pos, kind: CssErrorKind::MalformedColor }),
        }
    }

    /// Read a `#RRGGBB` colour; the alpha channel is fixed at 255.
    fn parse_color(&mut self) -> (r: Result<Value, CssError>)
        requires
            old(self).pos < old(self).chars.len(),
            old(self).chars@[old(self).pos as int] == '#',
        ensures
            final(self).chars == old(self).chars,
            final(self).pos <= final(self).chars.len(),
            match r {
                Ok(v) => spec_color(old(self).chars@, old(self).pos as int) == CParsed::Done(
                    v@,
                    final(self).pos as int,
                ),
                Err(e) => spec_color(old(self).chars@, old(self).pos as int) == CParsed::<
                    ValueV,
                >::Fail(e@),
            },
    {
        let startu: usize = self.pos;
        self.advance();
        let rr = match self.parse_hex_pair() {
            Ok(b) => b,
            Err(_) => {
                return Err(CssError { pos: startu, kind: CssErrorKind::MalformedColor });
            },
        };
        let gg = match self.parse_hex_pair() {
            Ok(b) => b,
            Err(_) => {
                return Err(CssError { pos: startu, kind: CssErrorKind::MalformedColor });
            },
        };
        let bb = match self.parse_hex_pair() {
            Ok(b) => b,
            Err(_) => {
                return Err(CssError { pos: startu, kind: CssErrorKind::MalformedColor });
            },
        };
        Ok(Value::Color(Color { r: rr, g: gg, b: bb, a: 255 }))
    }

    /// Read one length value: a number and its unit.
    fn parse_length(&mut self) -> (r: Result<Value, CssError>)
        requires
            old(self).pos <= old(self).chars.len(),
        ensures
            final(self).chars == old(self).chars,
            final(self).pos <= final(self).chars.len(),
            match r {
                Ok(v) => spec_length(old(self).chars@, old(self).pos as int) == CParsed::Done(
                    v@,
                    final(self).pos as int,
                ),
                Err(e) => spec_length(old(self).chars@, old(self).pos as int) == CParsed::<
                    ValueV,
                >::Fail(e@),
            },
    {
        let v = match self.parse_float() {
            Ok(v) => v,
            Err(e) => {
                return Err(e);
            },
        };
        let u = match self.parse_unit() {
            Ok(u) => u,
            Err(e) => {
                return Err(e);
            },
        };
        Ok(Value::Length(v, u))
    }

    /// Read one property value.
    fn parse_value(&mut self) -> (r: Result<Value, CssError>)
        requires
            old(self).pos <= old(self).chars.len(),
        ensures
            final(self).chars == old(self).chars,
            final(self).pos <= final(self).chars.len(),
            match r {
                Ok(v) => spec_value(old(self).chars@, old(self).pos as int) == CParsed::Done(
                    v@,
                    final(self).pos as int,
                ),
                Err(e) => spec_value(old(self).chars@, old(self).pos as int) == CParsed::<
                    ValueV,
                >::Fail(e@),
            },
    {
        let ghost s = self.chars@;
        let ghost start = self.pos as int;
        if self.eof() {
            return Err(CssError { pos: self.pos, kind: CssErrorKind::UnexpectedEndOfInput });
        }
        let c = self.next_char();
        if digit_char(c) {
            self.parse_length()
        } else if c == '#' {
            self.parse_color()
        } else {
            let id = self.parse_identifier();
            Ok(Value::Keyword(id))
        }
    }

    /// Read one `name: value;` declaration.
    fn parse_declaration(&mut self) -> (r: Result<Declaration, CssError>)
        requires
            old(self).pos <= old(self).chars.len(),
        ensures
            final(self).chars == old(self).chars,
            final(self).pos <= final(self).chars.len(),
            match r {
                Ok(d) => spec_declaration(old(self).chars@, old(self).pos as int)
                    == CParsed::Done(d@, final(self).pos as int) && old(self).pos
                    < final(self).pos,
                Err(e) => spec_declaration(old(self).chars@, old(self).pos as int) == CParsed::<
                    DeclarationV,
                >::Fail(e@),
            },
    {
        let ghost s = self.chars@;
        let ghost start = self.pos as int;
        proof {
            lemma_spec_ident(s, start);
        }
        let name = self.parse_identifier();
        if self.eof() {
            return Err(
                CssError { pos: self.pos, kind: CssErrorKind::MissingDeclarationPunctuation },
            );
        }
        if self.next_char() != ':' {
            return Err(
                CssError { pos: self.pos, kind: CssErrorKind::MissingDeclarationPunctuation },
            );
        }
        self.advance();
        self.consume_whitespace();
        proof {
            lemma_skip_ws(s, spec_ident(s, start).1 + 1);
        }
        let value = match self.parse_value() {
            Ok(v) => v,
            Err(e) => {
                return Err(e);
            },
        };
        let ghost p3 = self.pos as int;
        proof {
            lemma_spec_value_pos(s, skip_ws(s, spec_ident(s, start).1 + 1));
        }
        self.consume_whitespace();
        proof {
            lemma_skip_ws(s, p3);
        }
        if self.eof() {
            return Err(
                CssError { pos: self.pos, kind: CssErrorKind::MissingDeclarationPunctuation },
            );
        }
        if self.next_char() != ';' {
            return Err(
                CssError { pos: self.pos, kind: CssErrorKind::MissingDeclarationPunctuation },
            );
        }
        self.advance();
        Ok(Declaration { name, value })
    }

    /// Read a `{ ... }` declaration block.
    #[verifier::rlimit(60)]
    fn parse_declarations(&mut self) -> (r: Result<Vec<Declaration>, CssError>)
        requires
            old(self).pos <= old(self).chars.len(),
        ensures
            final(self).chars == old(self).chars,
            final(self).pos <= final(self).chars.len(),
            match r {
                Ok(ds) => spec_declarations(old(self).chars@, old(self).pos as int)
                    == CParsed::Done(
                    ds@.map_values(|d: Declaration| d@),
                    final(self).pos as int,
                ) && old(self).pos < final(self).pos,
                Err(e) => spec_declarations(old(self).chars@, old(self).pos as int) == CParsed::<
                    Seq<DeclarationV>,
                >::Fail(e@),
            },
    {
        let ghost s = self.chars@;
        let ghost start = self.pos as int;
        if self.eof() {
            return Err(CssError { pos: self.pos, kind: CssErrorKind::UnexpectedEndOfInput });
        }
        if self.next_char() != '{' {
            return Err(
                CssError { pos: self.pos, kind: CssErrorKind::MissingDeclarationPunctuation },
            );
        }
        self.advance();
        let mut out: Vec<Declaration> = Vec::new();
        proof {
            assert(out@.map_values(|d: Declaration| d@) =~= Seq::<DeclarationV>::empty());
            match spec_declarations_body(s, start + 1) {
                CParsed::Done(ds, e) => {
                    assert(out@.map_values(|d: Declaration| d@) + ds =~= ds);
                },
                CParsed::Fail(err) => {},
            }
        }
        loop
            invariant
                start + 1 <= self.pos as int <= s.len(),
                self.chars == old(self).chars,
                self.chars@ == s,
                s == old(self).chars@,
                start == old(self).pos as int,
                start < s.len() && s[start] == '{',
                match spec_declarations_body(s, self.pos as int) {
                    CParsed::Done(ds, e) => spec_declarations_body(s, start + 1) == CParsed::Done(
                        out@.map_values(|d: Declaration| d@) + ds,
                        e,
                    ),
                    CParsed::Fail(err) => spec_declarations_body(s, start + 1) == CParsed::<
                        Seq<DeclarationV>,
                    >::Fail(err),
                },
            decreases s.len() - self.pos,
        {
            let ghost itpos = self.pos as int;
            self.consume_whitespace();
            proof {
                lemma_skip_ws(s, itpos);
                assert(spec_declarations_body(s, itpos) == spec_declarations_body(
                    s,
                    self.pos as int,
                ));
            }
            if self.eof() {
                return Err(
                    CssError { pos: self.pos, kind: CssErrorKind::MissingDeclarationPunctuation },
                );
            }
            if self.next_char() == '}' {
                self.advance();
                proof {
                    assert(out@.map_values(|d: Declaration| d@) + Seq::<DeclarationV>::empty()
                        =~= out@.map_values(|d: Declaration| d@));
                }
                return Ok(out);
            }
            let ghost p = self.pos as int;
            let ghost prevmap = out@.map_values(|d: Declaration| d@);
            match self.parse_declaration() {
                Ok(d) => {
                    let ghost dv = d@;
                    out.push(d);
                    proof {
                        assert(out@.map_values(|d2: Declaration| d2@) =~= prevmap.push(dv));
                        match spec_declarations_body(s, self.pos as int) {
                            CParsed::Done(ds, e) => {
                                assert(spec_declarations_body(s, p) == CParsed::Done(
                                    seq![dv] + ds,
                                    e,
                                ));
                                assert(prevmap.push(dv) + ds =~= prevmap + (seq![dv] + ds));
                            },
                            CParsed::Fail(err) => {
                                assert(spec_declarations_body(s, p) == CParsed::<
                                    Seq<DeclarationV>,
                                >::Fail(err));
                            },
                        }
                    }
                },
                Err(e) => {
                    return Err(e);
                },
            }
        }
    }

    /// Read one simple selector, folding `#id`, `.class`, `*` and tag parts.
    pub fn parse_simple_selector(&mut self) -> (r: SimpleSelector)
        requires
            old(self).pos <= old(self).chars.len(),
        ensures
            final(self).chars == old(self).chars,
            final(self).pos <= final(self).chars.len(),
            old(self).pos <= final(self).pos,
            (r@, final(self).pos as int) == spec_selector_from(
                old(self).chars@,
                old(self).pos as int,
                empty_selector(),
            ),
    {
        let ghost s = self.chars@;
        let ghost start = self.pos as int;
        let mut tag: Option<String> = None;
        let mut id: Option<String> = None;
        let mut class: Vec<String> = Vec::new();
        proof {
            assert(class@.map_values(|c: String| c@) =~= Seq::<Seq<char>>::empty());
        }
        loop
            invariant
                self.chars == old(self).chars,
                self.chars@ == s,
                s == old(self).chars@,
                start == old(self).pos as int,
                0 <= start <= self.pos as int <= s.len(),
                spec_selector_from(s, start, empty_selector()) == spec_selector_from(
                    s,
                    self.pos as int,
                    SimpleSelectorV {
                        tag: opt_view(tag),
                        id: opt_view(id),
                        class: class@.map_values(|c: String| c@),
                    },
                ),
            ensures
                self.chars == old(self).chars,
                start <= self.pos as int <= s.len(),
                spec_selector_from(s, start, empty_selector()) == (
                    SimpleSelectorV {
                        tag: opt_view(tag),
                        id: opt_view(id),
                        class: class@.map_values(|c: String| c@),
                    },
                    self.pos as int,
                ),
            decreases s.len() - self.pos,
        {
            let ghost itpos = self.pos as int;
            let ghost accv = SimpleSelectorV {
                tag: opt_view(tag),
                id: opt_view(id),
                class: class@.map_values(|c: String| c@),
            };
            self.consume_whitespace();
            proof {
                lemma_skip_ws(s, itpos);
                assert(spec_selector_from(s, itpos, accv) == spec_selector_from(
                    s,
                    self.pos as int,
                    accv,
                ));
            }
            if self.eof() {
                proof {
                    assert(spec_selector_from(s, self.pos as int, accv) == (
                        accv,
                        self.pos as int,
                    ));
                }
                break ;
            }
            let ghost p = self.pos as int;
            let c = self.next_char();
            if c == '#' {
                self.advance();
                let t = self.parse_identifier();
                id = Some(t);
                proof {
                    lemma_spec_ident(s, p + 1);
                }
            } else if c == '.' {
                self.advance();
                let t = self.parse_identifier();
                let ghost tv = t@;
                let ghost prevclasses = class@.map_values(|c2: String| c2@);
                class.push(t);
                proof {
                    lemma_spec_ident(s, p + 1);
                    assert(class@.map_values(|c2: String| c2@) =~= prevclasses.push(tv));
                }
            } else if c == '*' {
                self.advance();
            } else if ident_char(c) {
                let t = self.parse_identifier();
                tag = Some(t);
                proof {
                    lemma_spec_ident(s, p + 1);
                    assert(spec_ident(s, p).0 == seq![s[p]] + spec_ident(s, p + 1).0);
                    assert(spec_ident(s, p).1 == spec_ident(s, p + 1).1);
                }
            } else {
                proof {
                    assert(spec_selector_from(s, self.pos as int, accv) == (
                        accv,
                        self.pos as int,
                    ));
                }
                break ;
            }
        }
        SimpleSelector { tag, id, class }
    }
}

impl Selector {
    /// The selector's specificity: id count, class count, tag count.
    pub fn specificity(&self) -> (r: Specificity)
        ensures
            (r.0 as int, r.1 as int, r.2 as int) == spec_specificity(self@),
    {
        match self {
            Selector::Simple(simple) => {
                let a: usize = if simple.id.is_some() {
                    1
                } else {
                    0
                };
                let b: usize = simple.class.len();
                let c: usize = if simple.tag.is_some() {
                    1
                } else {
                    0
                };
                (a, b, c)
            },
        }
    }
}

/// Lexicographic comparison of two specificities.
pub fn spec3_less(a: Specificity, b: Specificity) -> (r: bool)
    ensures
        r == spec3_lt(
            (a.0 as int, a.1 as int, a.2 as int),
            (b.0 as int, b.1 as int, b.2 as int),
        ),
{
    a.0 < b.0 || (a.0 == b.0 && a.1 < b.1) || (a.0 == b.0 && a.1 == b.1 && a.2 < b.2)
}

/// Where the exec scan stops is exactly where the stable descending insert
/// puts the element.
proof fn lemma_insert_desc_at(sorted: Seq<SelectorV>, x: SelectorV, k: int)
    requires
        0 <= k <= sorted.len(),
        forall|j: int|
            0 <= j < k ==> !spec3_lt(spec_specificity(sorted[j]), spec_specificity(x)),
        k < sorted.len() ==> spec3_lt(spec_specificity(sorted[k]), spec_specificity(x)),
    ensures
        spec_insert_desc(sorted, x) == sorted.take(k) + seq![x] + sorted.skip(k),
    decreases sorted.len(),
{
    if k == 0 {
        if sorted.len() == 0 {
            assert(spec_insert_desc(sorted, x) =~= sorted.take(0) + seq![x] + sorted.skip(0));
        } else {
            assert(spec_insert_desc(sorted, x) =~= sorted.take(0) + seq![x] + sorted.skip(0));
        }
    } else {
        lemma_insert_desc_at(sorted.drop_first(), x, k - 1);
        assert(spec_insert_desc(sorted, x) == seq![sorted[0]] + spec_insert_desc(
            sorted.drop_first(),
            x,
        ));
        assert(seq![sorted[0]] + (sorted.drop_first().take(k - 1) + seq![x]
            + sorted.drop_first().skip(k - 1)) =~= sorted.take(k) + seq![x] + sorted.skip(k));
    }
}

/// Sorting after appending one element is inserting it into the sorted
/// front.
proof fn lemma_sort_push(sels: Seq<SelectorV>, x: SelectorV, i: int, acc: Seq<SelectorV>)
    requires
        0 <= i <= sels.len(),
    ensures
        spec_sort_desc(sels.push(x), i, acc) == spec_insert_desc(
            spec_sort_desc(sels, i, acc),
            x,
        ),
    decreases sels.len() - i,
{
    assert(sels.push(x).len() == sels.len() + 1);
    if i == sels.len() {
        assert(sels.push(x)[i] == x);
        assert(spec_sort_desc(sels.push(x), i, acc) == spec_sort_desc(
            sels.push(x),
            i + 1,
            spec_insert_desc(acc, x),
        ));
    } else {
        assert(sels.push(x)[i] == sels[i]);
        lemma_sort_push(sels, x, i + 1, spec_insert_desc(acc, sels[i]));
    }
}

impl CSS {
    /// Read a comma-separated selector list, ending just before `{`, and
    /// hand it back stably sorted by descending specificity.
    #[verifier::rlimit(60)]
    fn parse_selectors(&mut self) -> (r: Result<Vec<Selector>, CssError>)
        requires
            old(self).pos <= old(self).chars.len(),
        ensures
            final(self).chars == old(self).chars,
            final(self).pos <= final(self).chars.len(),
            old(self).pos <= final(self).pos,
            match r {
                Ok(sels) => spec_selectors_raw(old(self).chars@, old(self).pos as int)
                    matches CParsed::Done(raw, p) && sels@.map_values(|x: Selector| x@)
                    == spec_sort_desc(raw, 0, Seq::empty()) && final(self).pos as int == p,
                Err(e) => spec_selectors_raw(old(self).chars@, old(self).pos as int) == CParsed::<
                    Seq<SelectorV>,
                >::Fail(e@),
            },
    {
        let ghost s = self.chars@;
        let ghost start = self.pos as int;
        let mut out: Vec<Selector> = Vec::new();
        let ghost mut rawacc: Seq<SelectorV> = Seq::empty();
        proof {
            assert(out@.map_values(|x: Selector| x@) =~= Seq::<SelectorV>::empty());
        }
        loop
            invariant
                self.chars == old(self).chars,
                self.chars@ == s,
                s == old(self).chars@,
                start == old(self).pos as int,
                0 <= start <= self.pos as int <= s.len(),
                out@.map_values(|x: Selector| x@) == spec_sort_desc(rawacc, 0, Seq::empty()),
                match spec_selectors_raw(s, self.pos as int) {
                    CParsed::Done(ns, e) => spec_selectors_raw(s, start) == CParsed::Done(
                        rawacc + ns,
                        e,
                    ),
                    CParsed::Fail(err) => spec_selectors_raw(s, start) == CParsed::<
                        Seq<SelectorV>,
                    >::Fail(err),
                },
            decreases s.len() - self.pos,
        {
            let ghost itpos = self.pos as int;
            let sel = self.parse_simple_selector();
            let selwrap = Selector::Simple(sel);
            let ghost selv = selwrap@;
            let xspec = selwrap.specificity();
            let ghost prevsorted = out@.map_values(|x: Selector| x@);
            let mut k: usize = 0;
            while k < out.len() && !spec3_less(out[k].specificity(), xspec)
                invariant
                    0 <= k <= out.len(),
                    (xspec.0 as int, xspec.1 as int, xspec.2 as int) == spec_specificity(selv),
                    prevsorted == out@.map_values(|x: Selector| x@),
                    prevsorted.len() == out@.len(),
                    forall|j: int|
                        0 <= j < k ==> !spec3_lt(
                            spec_specificity(prevsorted[j]),
                            spec_specificity(selv),
                        ),
                decreases out.len() - k,
            {
                proof {
                    assert(prevsorted[k as int] == out@[k as int]@);
                }
                k = k + 1;
            }
            proof {
                assert(k < out.len() ==> prevsorted[k as int] == out@[k as int]@);
            }
            out.insert(k, selwrap);
            proof {
                lemma_insert_desc_at(prevsorted, selv, k as int);
                lemma_sort_push(rawacc, selv, 0, Seq::empty());
                assert(out@.map_values(|x: Selector| x@) =~= prevsorted.take(k as int)
                    + seq![selv] + prevsorted.skip(k as int));
                assert(out@.map_values(|x: Selector| x@) == spec_sort_desc(
                    rawacc.push(selv),
                    0,
                    Seq::empty(),
                ));
            }
            if self.eof() {
                return Err(CssError { pos: self.pos, kind: CssErrorKind::UnexpectedEndOfInput });
            }
            let c = self.next_char();
            if c == ',' {
                self.advance();
                let ghost q0 = self.pos as int;
                self.consume_whitespace();
                proof {
                    lemma_skip_ws(s, q0);
                    match spec_selectors_raw(s, self.pos as int) {
                        CParsed::Done(ns, e) => {
                            assert(spec_selectors_raw(s, itpos) == CParsed::Done(
                                seq![selv] + ns,
                                e,
                            ));
                            assert(rawacc + (seq![selv] + ns) =~= rawacc.push(selv) + ns);
                        },
                        CParsed::Fail(err) => {
                            assert(spec_selectors_raw(s, itpos) == CParsed::<
                                Seq<SelectorV>,
                            >::Fail(err));
                        },
                    }
                    rawacc = rawacc.push(selv);
                }
            } else if c == '{' {
                proof {
                    assert(spec_selectors_raw(s, itpos) == CParsed::Done(
                        seq![selv],
                        self.pos as int,
                    ));
                    assert(rawacc + seq![selv] =~= rawacc.push(selv));
                }
                return Ok(out);
            } else {
                return Err(CssError { pos: self.pos, kind: CssErrorKind::UnexpectedSelectorChar });
            }
        }
    }

    /// Read one rule: selectors, then the declaration block.
    fn parse_rule(&mut self) -> (r: Result<Rule, CssError>)
        requires
            old(self).pos <= old(self).chars.len(),
        ensures
            final(self).chars == old(self).chars,
            final(self).pos <= final(self).chars.len(),
            match r {
                Ok(rl) => spec_rule(old(self).chars@, old(self).pos as int) == CParsed::Done(
                    rl@,
                    final(self).pos as int,
                ) && old(self).pos < final(self).pos,
                Err(e) => spec_rule(old(self).chars@, old(self).pos as int) == CParsed::<
                    RuleV,
                >::Fail(e@),
            },
    {
        let sels = match self.parse_selectors() {
            Ok(v) => v,
            Err(e) => {
                return Err(e);
            },
        };
        let ds = match self.parse_declarations() {
            Ok(v) => v,
            Err(e) => {
                return Err(e);
            },
        };
        Ok(Rule { selector: sels, declaration: ds })
    }

    /// Read every rule up to the end of the input.
    fn parse_rules(&mut self) -> (r: Result<Vec<Rule>, CssError>)
        requires
            old(self).pos <= old(self).chars.len(),
        ensures
            final(self).chars == old(self).chars,
            final(self).pos <= final(self).chars.len(),
            match r {
                Ok(rs) => spec_rules(old(self).chars@, old(self).pos as int) matches
                    CParsed::Done(rsv, e) && rs@.map_values(|x: Rule| x@) == rsv,
                Err(e) => spec_rules(old(self).chars@, old(self).pos as int) == CParsed::<
                    Seq<RuleV>,
                >::Fail(e@),
            },
    {
        let ghost s = self.chars@;
        let ghost start = self.pos as int;
        let mut out: Vec<Rule> = Vec::new();
        proof {
            assert(out@.map_values(|x: Rule| x@) =~= Seq::<RuleV>::empty());
            match spec_rules(s, start) {
                CParsed::Done(rs, e) => {
                    assert(out@.map_values(|x: Rule| x@) + rs =~= rs);
                },
                CParsed::Fail(err) => {},
            }
        }
        loop
            invariant
                self.chars == old(self).chars,
                self.chars@ == s,
                s == old(self).chars@,
                start == old(self).pos as int,
                0 <= start <= self.pos as int <= s.len(),
                match spec_rules(s, self.pos as int) {
                    CParsed::Done(rs, e) => spec_rules(s, start) == CParsed::Done(
                        out@.map_values(|x: Rule| x@) + rs,
                        e,
                    ),
                    CParsed::Fail(err) => spec_rules(s, start) == CParsed::<
                        Seq<RuleV>,
                    >::Fail(err),
                },
            decreases s.len() - self.pos,
        {
            let ghost itpos = self.pos as int;
            self.consume_whitespace();
            proof {
                lemma_skip_ws(s, itpos);
                assert(spec_rules(s, itpos) == spec_rules(s, self.pos as int));
            }
            if self.eof() {
                proof {
                    assert(spec_rules(s, self.pos as int) == CParsed::Done(
                        Seq::<RuleV>::empty(),
                        self.pos as int,
                    ));
                    assert(out@.map_values(|x: Rule| x@) + Seq::<RuleV>::empty()
                        =~= out@.map_values(|x: Rule| x@));
                }
                return Ok(out);
            }
            let ghost p = self.pos as int;
            let ghost prevmap = out@.map_values(|x: Rule| x@);
            match self.parse_rule() {
                Ok(rl) => {
                    let ghost rv = rl@;
                    out.push(rl);
                    proof {
                        assert(out@.map_values(|x: Rule| x@) =~= prevmap.push(rv));
                        match spec_rules(s, self.pos as int) {
                            CParsed::Done(rs, e) => {
                                assert(spec_rules(s, p) == CParsed::Done(seq![rv] + rs, e));
                                assert(prevmap.push(rv) + rs =~= prevmap + (seq![rv] + rs));
                            },
                            CParsed::Fail(err) => {
                                assert(spec_rules(s, p) == CParsed::<Seq<RuleV>>::Fail(err));
                            },
                        }
                    }
                },
                Err(e) => {
                    return Err(e);
                },
            }
        }
    }
}

/// Parse a stylesheet: exactly the reference parse `spec_parse_css`.
pub fn parse_css(input: String) -> (r: Result<Stylesheet, CssError>)
    ensures
        match r {
            Ok(sheet) => spec_parse_css(input@) matches CParsed::Done(rsv, e) && sheet@.rules
                == rsv,
            Err(e) => spec_parse_css(input@) == CParsed::<Seq<RuleV>>::Fail(e@),
        },
{
    let mut parser = CSS::new(input);
    match parser.parse_rules() {
        Ok(rs) => Ok(Stylesheet { rules: rs }),
        Err(e) => Err(e),
    }
}

} // verus!
