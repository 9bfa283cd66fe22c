//! Stylesheet data model and parser: rules, selectors, declarations and
//! values, selector specificity, and a recursive-descent parser for the
//! small stylesheet grammar (identifier keywords, pixel lengths, and
//! six-digit hex colors).

use vstd::prelude::*;

verus! {

/// The largest pixel length a stylesheet may carry. Keeping declared
/// lengths bounded lets the layout arithmetic stay within machine integers.
pub const MAX_PX: i64 = 0x4000_0000;

/// A whole stylesheet: an ordered list of rules.
#[derive(Debug)]
pub struct StyleSheet {
    pub rules: Vec<Rule>,
}

/// One style rule: selectors (any may match) plus declarations applied in
/// order.
#[derive(Debug)]
pub struct Rule {
    pub selectors: Vec<Selector>,
    pub declarations: Vec<Declaration>,
}

impl StyleSheet {
    /// Well-formed input: every rule carries at least one selector and at
    /// least one declaration.
    pub open spec fn spec_valid(&self) -> bool {
        forall|i: int|
            0 <= i < self.rules@.len() ==> (#[trigger] self.rules@[i]).selectors@.len() >= 1
                && self.rules@[i].declarations@.len() >= 1
    }

    /// Reject a malformed stylesheet before layout begins: a rule with no
    /// selectors or no declarations is reported, never silently ignored.
    pub fn validate(&self) -> (r: Result<(), crate::PipelineError>)
        ensures
            r is Ok <==> self.spec_valid(),
            r is Err ==> r->Err_0 == crate::PipelineError::MalformedStylesheet,
    {
        let n = self.rules.len();
        let mut i: usize = 0;
        while i < n
            invariant
                n == self.rules@.len(),
                i <= n,
                forall|j: int|
                    0 <= j < i ==> (#[trigger] self.rules@[j]).selectors@.len() >= 1
                        && self.rules@[j].declarations@.len() >= 1,
            decreases n - i,
        {
            if self.rules[i].selectors.len() == 0 || self.rules[i].declarations.len() == 0 {
                return Err(crate::PipelineError::MalformedStylesheet);
            }
            i = i + 1;
        }
        Ok(())
    }
}

/// A selector; only simple selectors exist in this engine.
#[derive(Debug)]
pub enum Selector {
    Simple(SimpleSelector),
}

/// A simple selector: optional tag name, optional id, and class names,
/// all of which must hold for a match (classes: at least one present).
#[derive(Debug)]
pub struct SimpleSelector {
    pub tag_name: Option<String>,
    pub id: Option<String>,
    pub class: Vec<String>,
}

/// Cascade ordering key: (id count, class count, tag count), compared
/// lexicographically.
pub type Specificity = (usize, usize, usize);

/// The simple selector inside a selector.
pub open spec fn simple_of(s: Selector) -> SimpleSelector {
    match s {
        Selector::Simple(simple) => simple,
    }
}

/// The specificity of a selector as a mathematical triple.
pub open spec fn spec_specificity(s: Selector) -> (int, int, int) {
    let simple = simple_of(s);
    (
        if simple.id is Some {
            1int
        } else {
            0int
        },
        simple.class@.len() as int,
        if simple.tag_name is Some {
            1int
        } else {
            0int
        },
    )
}

/// Strict lexicographic order on specificity triples.
pub open spec fn spec_lt(a: (int, int, int), b: (int, int, int)) -> bool {
    a.0 < b.0 || (a.0 == b.0 && (a.1 < b.1 || (a.1 == b.1 && a.2 < b.2)))
}

/// Non-strict lexicographic order on specificity triples.
pub open spec fn spec_le(a: (int, int, int), b: (int, int, int)) -> bool {
    a == b || spec_lt(a, b)
}

impl Selector {
    /// Calculate the specificity of a selector.
    pub fn specificity(&self) -> (r: Specificity)
        ensures
            r.0 as int == spec_specificity(*self).0,
            r.1 as int == spec_specificity(*self).1,
            r.2 as int == spec_specificity(*self).2,
    {
        let Selector::Simple(simple) = self;
        let a: usize = if simple.id.is_some() {
            1
        } else {
            0
        };
        let b: usize = simple.class.len();
        let c: usize = if simple.tag_name.is_some() {
            1
        } else {
            0
        };
        (a, b, c)
    }
}

/// Strict lexicographic comparison of two specificity keys.
pub fn specificity_lt(a: &Specificity, b: &Specificity) -> (r: bool)
    ensures
        r == spec_lt(
            (a.0 as int, a.1 as int, a.2 as int),
            (b.0 as int, b.1 as int, b.2 as int),
        ),
{
    a.0 < b.0 || (a.0 == b.0 && (a.1 < b.1 || (a.1 == b.1 && a.2 < b.2)))
}

/// A selector with an id always outranks any selector without one,
/// whatever their class and tag counts.
pub proof fn lemma_id_outranks(with_id: Selector, without_id: Selector)
    requires
        simple_of(with_id).id is Some,
        simple_of(without_id).id is None,
    ensures
        spec_lt(spec_specificity(without_id), spec_specificity(with_id)),
{
}

/// Lexicographic order on specificity triples is total.
pub proof fn lemma_specificity_total(a: (int, int, int), b: (int, int, int))
    ensures
        spec_lt(a, b) || spec_lt(b, a) || a == b,
{
}

/// One property declaration: a name and its value.
#[derive(Debug)]
pub struct Declaration {
    pub name: String,
    pub value: Value,
}

/// A declaration value: a bare keyword, a pixel length, or a color.
#[derive(Debug)]
pub enum Value {
    Keyword(String),
    Length(i64, Unit),
    ColorValue(Color),
}

/// Length units; only pixels are defined.
#[derive(Debug, Clone, Copy, PartialEq, Eq, Structural)]
pub enum Unit {
    Px,
}

/// An RGBA color with 8-bit channels.
#[derive(Debug, Clone, Copy, PartialEq, Eq, Structural)]
pub struct Color {
    pub r: u8,
    pub g: u8,
    pub b: u8,
    pub a: u8,
}

impl Value {
    /// The pixel length a value denotes; non-length values count as zero.
    pub open spec fn spec_to_px(&self) -> i64 {
        match *self {
            Value::Length(px, Unit::Px) => px,
            _ => 0,
        }
    }

    /// Whether a value is the keyword `auto`.
    pub open spec fn spec_is_auto(&self) -> bool {
        match *self {
            Value::Keyword(s) => s@ == "auto"@,
            _ => false,
        }
    }

    /// Convert a length value to pixels.
    pub fn to_px(&self) -> (r: i64)
        ensures
            r == self.spec_to_px(),
    {
        match *self {
            Value::Length(px, Unit::Px) => px,
            _ => 0,
        }
    }

    /// Whether this value is the keyword `auto`.
    pub fn is_auto(&self) -> (r: bool)
        ensures
            r == self.spec_is_auto(),
    {
        match self {
            Value::Keyword(s) => crate::text::str_eq(s.as_str(), "auto"),
            _ => false,
        }
    }
}

impl Clone for Value {
    /// Clones preserve the value exactly.
    fn clone(&self) -> (r: Self)
        ensures
            r == *self,
    {
        match self {
            Value::Keyword(s) => Value::Keyword(s.clone()),
            Value::Length(px, Unit::Px) => Value::Length(*px, Unit::Px),
            Value::ColorValue(c) => Value::ColorValue(*c),
        }
    }
}

/// Every length declared anywhere in a stylesheet lies in `[0, MAX_PX]`.
pub open spec fn sheet_lengths_bounded(sheet: StyleSheet) -> bool {
    forall|i: int, j: int|
        0 <= i < sheet.rules@.len() && 0 <= j < (#[trigger] sheet.rules@[i]).declarations@.len()
            ==> 0 <= (#[trigger] sheet.rules@[i].declarations@[j]).value.spec_to_px() <= MAX_PX as int
}

/// Whether a character may stand in an identifier, a tag name, a class
/// name or a property name.
pub open spec fn spec_identifier_char(c: char) -> bool {
    ('a' <= c && c <= 'z') || ('A' <= c && c <= 'Z') || ('0' <= c && c <= '9') || c == '-' || c
        == '_'
}

/// Check if a character is a valid identifier character.
pub fn valid_identifier_char(c: char) -> (r: bool)
    ensures
        r == spec_identifier_char(c),
{
    ('a' <= c && c <= 'z') || ('A' <= c && c <= 'Z') || ('0' <= c && c <= '9') || c == '-' || c
        == '_'
}

/// The whitespace the stylesheet grammar skips between tokens.
pub open spec fn spec_space_char(c: char) -> bool {
    c == ' ' || c == '\t' || c == '\n' || c == '\r'
}

/// A decimal digit.
pub open spec fn spec_digit(c: char) -> bool {
    '0' <= c && c <= '9'
}

/// The numeric value of a digit sequence, most significant first.
pub open spec fn digits_val(s: Seq<char>) -> int
    decreases s.len(),
{
    if s.len() == 0 {
        0
    } else {
        digits_val(s.drop_last()) * 10 + (s.last() as u32 - '0' as u32)
    }
}

/// For digit strings the value only grows with more digits.
pub proof fn lemma_digits_val_monotone(s: Seq<char>, k: int)
    requires
        0 <= k <= s.len(),
        forall|i: int| 0 <= i < s.len() ==> spec_digit(#[trigger] s[i]),
    ensures
        digits_val(s) >= digits_val(s.subrange(0, k)),
        digits_val(s) >= 0,
    decreases s.len() - k,
{
    if k == s.len() {
        assert(s.subrange(0, k) =~= s);
        lemma_digits_val_nonneg(s);
    } else {
        lemma_digits_val_monotone(s, k + 1);
        lemma_digits_val_nonneg(s.subrange(0, k));
        assert(s.subrange(0, k + 1).drop_last() =~= s.subrange(0, k));
        assert(digits_val(s.subrange(0, k + 1)) == digits_val(s.subrange(0, k)) * 10 + (s[k] as u32
            - '0' as u32));
    }
}

pub proof fn lemma_digits_val_nonneg(s: Seq<char>)
    requires
        forall|i: int| 0 <= i < s.len() ==> spec_digit(#[trigger] s[i]),
    ensures
        digits_val(s) >= 0,
    decreases s.len(),
{
    if s.len() > 0 {
        lemma_digits_val_nonneg(s.drop_last());
    }
}

/// A character that may stand in a numeric literal.
pub open spec fn spec_num_char(c: char) -> bool {
    spec_digit(c) || c == '.'
}

/// Where the maximal run of numeric-literal characters starting at `p`
/// ends.
pub open spec fn num_end(s: Seq<char>, p: int) -> int
    decreases s.len() - p,
{
    if p < 0 || p >= s.len() || !spec_num_char(s[p]) {
        p
    } else {
        num_end(s, p + 1)
    }
}

pub proof fn lemma_num_end_bounds(s: Seq<char>, p: int)
    requires
        0 <= p <= s.len(),
    ensures
        p <= num_end(s, p) <= s.len(),
        forall|j: int| p <= j < num_end(s, p) ==> spec_num_char(#[trigger] s[j]),
        num_end(s, p) == s.len() || !spec_num_char(s[num_end(s, p)]),
    decreases s.len() - p,
{
    if p < s.len() && spec_num_char(s[p]) {
        lemma_num_end_bounds(s, p + 1);
    }
}

/// Inside the numeric run, the run's end does not move.
pub proof fn lemma_num_end_stable(s: Seq<char>, p0: int, p: int)
    requires
        0 <= p0 <= p <= s.len(),
        forall|j: int| p0 <= j < p ==> spec_num_char(#[trigger] s[j]),
    ensures
        num_end(s, p) == num_end(s, p0),
    decreases p - p0,
{
    if p0 < p {
        lemma_num_end_stable(s, p0 + 1, p);
    }
}

/// A position after only numeric characters and before a non-numeric one
/// is exactly the run's end.
pub proof fn lemma_num_end_here(s: Seq<char>, p0: int, p: int)
    requires
        0 <= p0 <= p <= s.len(),
        forall|j: int| p0 <= j < p ==> spec_num_char(#[trigger] s[j]),
        p == s.len() || !spec_num_char(s[p]),
    ensures
        num_end(s, p0) == p,
    decreases p - p0,
{
    if p0 < p {
        lemma_num_end_here(s, p0 + 1, p);
    }
}

/// A digit run's value is at least the value of any of its prefixes.
pub proof fn lemma_digits_seg_monotone(s: Seq<char>, p0: int, p: int, e: int)
    requires
        0 <= p0 <= p <= e <= s.len(),
        forall|j: int| p0 <= j < e ==> spec_digit(#[trigger] s[j]),
    ensures
        digits_val(s.subrange(p0, e)) >= digits_val(s.subrange(p0, p)),
{
    let seg = s.subrange(p0, e);
    assert(forall|i: int| 0 <= i < seg.len() ==> spec_digit(#[trigger] seg[i]));
    assert(seg.subrange(0, p - p0) =~= s.subrange(p0, p));
    lemma_digits_val_monotone(seg, p - p0);
}

/// Where the maximal run of identifier characters starting at `p` ends.
pub open spec fn ident_end(s: Seq<char>, p: int) -> int
    decreases s.len() - p,
{
    if p < 0 || p >= s.len() || !spec_identifier_char(s[p]) {
        p
    } else {
        ident_end(s, p + 1)
    }
}

pub proof fn lemma_ident_end_here(s: Seq<char>, p0: int, p: int)
    requires
        0 <= p0 <= p <= s.len(),
        forall|j: int| p0 <= j < p ==> spec_identifier_char(#[trigger] s[j]),
        p == s.len() || !spec_identifier_char(s[p]),
    ensures
        ident_end(s, p0) == p,
    decreases p - p0,
{
    if p0 < p {
        lemma_ident_end_here(s, p0 + 1, p);
    }
}

/// The two-character unit identifier for pixels, case-insensitively.
pub open spec fn spec_px_ident(t: Seq<char>) -> bool {
    t.len() == 2 && (t[0] == 'p' || t[0] == 'P') && (t[1] == 'x' || t[1] == 'X')
}

/// The numeric value of a hexadecimal digit, or 16 for any other
/// character.
pub open spec fn hex_digit_val(c: char) -> int {
    if '0' <= c && c <= '9' {
        c as u32 - '0' as u32
    } else if 'a' <= c && c <= 'f' {
        c as u32 - 'a' as u32 + 10
    } else if 'A' <= c && c <= 'F' {
        c as u32 - 'A' as u32 + 10
    } else {
        16
    }
}

/// Where the maximal run of whitespace starting at `p` ends.
pub open spec fn ws_end(s: Seq<char>, p: int) -> int
    decreases s.len() - p,
{
    if p < 0 || p >= s.len() || !spec_space_char(s[p]) {
        p
    } else {
        ws_end(s, p + 1)
    }
}

pub proof fn lemma_ws_end_bounds(s: Seq<char>, p: int)
    requires
        0 <= p <= s.len(),
    ensures
        p <= ws_end(s, p) <= s.len(),
        ws_end(s, p) == s.len() || !spec_space_char(s[ws_end(s, p)]),
    decreases s.len() - p,
{
    if p < s.len() && spec_space_char(s[p]) {
        lemma_ws_end_bounds(s, p + 1);
    }
}

pub proof fn lemma_ws_end_here(s: Seq<char>, p0: int, p: int)
    requires
        0 <= p0 <= p <= s.len(),
        forall|j: int| p0 <= j < p ==> spec_space_char(#[trigger] s[j]),
        p == s.len() || !spec_space_char(s[p]),
    ensures
        ws_end(s, p0) == p,
    decreases p - p0,
{
    if p0 < p {
        lemma_ws_end_here(s, p0 + 1, p);
    }
}

pub proof fn lemma_ident_end_bounds(s: Seq<char>, p: int)
    requires
        0 <= p <= s.len(),
    ensures
        p <= ident_end(s, p) <= s.len(),
        ident_end(s, p) == s.len() || !spec_identifier_char(s[ident_end(s, p)]),
    decreases s.len() - p,
{
    if p < s.len() && spec_identifier_char(s[p]) {
        lemma_ident_end_bounds(s, p + 1);
    }
}

/// A guarded successor position: `q` itself where it advances and stays
/// inside the text, one step forward otherwise. The grammar functions
/// below recurse through it, which makes their termination structural;
/// on well-formed positions it equals `q`.
pub open spec fn step_to(p: int, q: int, len: int) -> int {
    if p < q && q <= len {
        q
    } else {
        p + 1
    }
}

/// Ghost mirror of a declaration value: the parsed text of a keyword, the
/// pixel count of a length, or the four channels of a color.
#[verifier::ext_equal]
pub enum GValue {
    Keyword(Seq<char>),
    Length(int),
    Color(int, int, int, int),
}

/// Ghost mirror of a simple selector.
#[verifier::ext_equal]
pub struct GSelector {
    pub tag_name: Option<Seq<char>>,
    pub id: Option<Seq<char>>,
    pub class: Seq<Seq<char>>,
}

/// Ghost mirror of a declaration.
#[verifier::ext_equal]
pub struct GDeclaration {
    pub name: Seq<char>,
    pub value: GValue,
}

/// Ghost mirror of a rule.
#[verifier::ext_equal]
pub struct GRule {
    pub selectors: Seq<GSelector>,
    pub declarations: Seq<GDeclaration>,
}

/// The selector constraining nothing.
pub open spec fn gsel_empty() -> GSelector {
    GSelector { tag_name: None, id: None, class: Seq::empty() }
}

/// The abstract value of a declaration value.
pub open spec fn value_view(v: Value) -> GValue {
    match v {
        Value::Keyword(k) => GValue::Keyword(k@),
        Value::Length(n, Unit::Px) => GValue::Length(n as int),
        Value::ColorValue(c) => GValue::Color(c.r as int, c.g as int, c.b as int, c.a as int),
    }
}

/// The abstract value of a simple selector.
pub open spec fn simple_view(s: SimpleSelector) -> GSelector {
    GSelector {
        tag_name: match s.tag_name {
            Some(t) => Some(t@),
            None => None,
        },
        id: match s.id {
            Some(i) => Some(i@),
            None => None,
        },
        class: s.class@.map_values(|c: String| c@),
    }
}

/// The abstract value of selector fields still being gathered.
pub open spec fn fields_view(tag_name: Option<String>, id: Option<String>, class: Vec<String>) -> GSelector {
    GSelector {
        tag_name: match tag_name {
            Some(t) => Some(t@),
            None => None,
        },
        id: match id {
            Some(i) => Some(i@),
            None => None,
        },
        class: class@.map_values(|c: String| c@),
    }
}

/// The abstract value of a selector.
pub open spec fn selector_view(s: Selector) -> GSelector {
    simple_view(simple_of(s))
}

/// The abstract value of a declaration.
pub open spec fn declaration_view(d: Declaration) -> GDeclaration {
    GDeclaration { name: d.name@, value: value_view(d.value) }
}

/// The abstract value of a rule.
pub open spec fn rule_view(r: Rule) -> GRule {
    GRule {
        selectors: r.selectors@.map_values(|s: Selector| selector_view(s)),
        declarations: r.declarations@.map_values(|d: Declaration| declaration_view(d)),
    }
}

/// The abstract value of a stylesheet: its rules.
pub open spec fn sheet_view(s: StyleSheet) -> Seq<GRule> {
    s.rules@.map_values(|r: Rule| rule_view(r))
}

/// The value at position `p` of the text, with the position just past it:
/// a pixel length when a digit starts it, a color after `#`, a bare
/// keyword otherwise; `None` on a malformed numeral, unit or color.
pub open spec fn ps_value(s: Seq<char>, p: int) -> Option<(GValue, int)> {
    if p >= s.len() {
        None
    } else if spec_digit(s[p]) {
        let e = num_end(s, p);
        let seg = s.subrange(p, e);
        if (forall|j: int| 0 <= j < seg.len() ==> spec_digit(#[trigger] seg[j])) && digits_val(seg)
            <= MAX_PX as int {
            let u = ident_end(s, e);
            if spec_px_ident(s.subrange(e, u)) {
                Some((GValue::Length(digits_val(seg)), u))
            } else {
                None
            }
        } else {
            None
        }
    } else if s[p] == '#' {
        if p + 7 <= s.len() && hex_digit_val(s[p + 1]) < 16 && hex_digit_val(s[p + 2]) < 16
            && hex_digit_val(s[p + 3]) < 16 && hex_digit_val(s[p + 4]) < 16 && hex_digit_val(
            s[p + 5],
        ) < 16 && hex_digit_val(s[p + 6]) < 16 {
            Some(
                (
                    GValue::Color(
                        16 * hex_digit_val(s[p + 1]) + hex_digit_val(s[p + 2]),
                        16 * hex_digit_val(s[p + 3]) + hex_digit_val(s[p + 4]),
                        16 * hex_digit_val(s[p + 5]) + hex_digit_val(s[p + 6]),
                        255,
                    ),
                    p + 7,
                ),
            )
        } else {
            None
        }
    } else {
        Some((GValue::Keyword(s.subrange(p, ident_end(s, p))), ident_end(s, p)))
    }
}

/// The simple selector at position `p`, threading the fields read so far:
/// `#id` and `.class` segments, `*`, and a leading tag name, ending at the
/// first character that belongs to none of them.
pub open spec fn ps_simple_selector(s: Seq<char>, p: int, acc: GSelector) -> (GSelector, int)
    decreases s.len() - p,
{
    if p < 0 || p >= s.len() {
        (acc, p)
    } else if s[p] == '#' {
        ps_simple_selector(
            s,
            step_to(p, ident_end(s, p + 1), s.len() as int),
            GSelector {
                tag_name: acc.tag_name,
                id: Some(s.subrange(p + 1, ident_end(s, p + 1))),
                class: acc.class,
            },
        )
    } else if s[p] == '.' {
        ps_simple_selector(
            s,
            step_to(p, ident_end(s, p + 1), s.len() as int),
            GSelector {
                tag_name: acc.tag_name,
                id: acc.id,
                class: acc.class.push(s.subrange(p + 1, ident_end(s, p + 1))),
            },
        )
    } else if s[p] == '*' {
        ps_simple_selector(s, p + 1, acc)
    } else if spec_identifier_char(s[p]) {
        ps_simple_selector(
            s,
            step_to(p, ident_end(s, p), s.len() as int),
            GSelector {
                tag_name: Some(s.subrange(p, ident_end(s, p))),
                id: acc.id,
                class: acc.class,
            },
        )
    } else {
        (acc, p)
    }
}

/// The comma-separated selector group at position `p`, ending at (not
/// past) the opening brace; `None` on any other separator or the end of
/// the input.
pub open spec fn ps_selectors(s: Seq<char>, p: int, acc: Seq<GSelector>) -> Option<
    (Seq<GSelector>, int),
>
    decreases s.len() - p,
{
    let r = ps_simple_selector(s, p, gsel_empty());
    let q = ws_end(s, r.1);
    if q >= s.len() {
        None
    } else if s[q] == ',' {
        ps_selectors(s, step_to(p, ws_end(s, q + 1), s.len() as int), acc.push(r.0))
    } else if s[q] == '{' {
        Some((acc.push(r.0), q))
    } else {
        None
    }
}

/// The declaration `name : value ;` at position `p`, with the position
/// just past the semicolon.
pub open spec fn ps_declaration(s: Seq<char>, p: int) -> Option<(GDeclaration, int)> {
    let p1 = ident_end(s, p);
    let p2 = ws_end(s, p1);
    if p2 >= s.len() || s[p2] != ':' {
        None
    } else {
        let p3 = ws_end(s, p2 + 1);
        match ps_value(s, p3) {
            None => None,
            Some((v, e)) => {
                let p4 = ws_end(s, e);
                if p4 >= s.len() || s[p4] != ';' {
                    None
                } else {
                    Some((GDeclaration { name: s.subrange(p, p1), value: v }, p4 + 1))
                }
            },
        }
    }
}

/// The declarations between an already-consumed `{` and the matching `}`,
/// in source order, with the position just past the brace; `None` on an
/// unterminated block or a malformed declaration.
pub open spec fn ps_declarations(s: Seq<char>, p: int) -> Option<(Seq<GDeclaration>, int)>
    decreases s.len() - p,
{
    let q = ws_end(s, p);
    if q >= s.len() {
        None
    } else if s[q] == '}' {
        Some((Seq::empty(), q + 1))
    } else {
        match ps_declaration(s, q) {
            None => None,
            Some((d, e)) => match ps_declarations(s, step_to(p, e, s.len() as int)) {
                None => None,
                Some((rest, e2)) => Some((seq![d] + rest, e2)),
            },
        }
    }
}

/// A brace-enclosed declaration block at position `p`.
pub open spec fn ps_block(s: Seq<char>, p: int) -> Option<(Seq<GDeclaration>, int)> {
    if p >= s.len() || s[p] != '{' {
        None
    } else {
        ps_declarations(s, p + 1)
    }
}

/// One rule at position `p`: a selector group, then a declaration block.
pub open spec fn ps_rule(s: Seq<char>, p: int) -> Option<(GRule, int)> {
    match ps_selectors(s, p, Seq::empty()) {
        None => None,
        Some((sels, brace)) => match ps_block(s, brace) {
            None => None,
            Some((ds, e)) => Some((GRule { selectors: sels, declarations: ds }, e)),
        },
    }
}

/// The whole stylesheet grammar: rules separated by whitespace until the
/// end of the input. This is the reference the executable parser is held
/// to: it returns `Ok` exactly when this returns `Some`, with the same
/// rules.
pub open spec fn ps_rules(s: Seq<char>, p: int) -> Option<(Seq<GRule>, int)>
    decreases s.len() - p,
{
    let q = ws_end(s, p);
    if q >= s.len() {
        Some((Seq::empty(), q))
    } else {
        match ps_rule(s, q) {
            None => None,
            Some((r, e)) => match ps_rules(s, step_to(p, e, s.len() as int)) {
                None => None,
                Some((rest, e2)) => Some((seq![r] + rest, e2)),
            },
        }
    }
}

/// The numeric value of a hexadecimal digit, 16 for any other character.
fn hex_value(c: char) -> (r: u8)
    ensures
        r as int == hex_digit_val(c),
{
    if '0' <= c && c <= '9' {
        (c as u32 - 48) as u8
    } else if 'a' <= c && c <= 'f' {
        (c as u32 - 97 + 10) as u8
    } else if 'A' <= c && c <= 'F' {
        (c as u32 - 65 + 10) as u8
    } else {
        16
    }
}

/// A recursive-descent parser over the stylesheet grammar: rules made of
/// comma-separated simple selectors and brace-enclosed declarations, with
/// keyword, pixel-length and hex-color values. Positions count characters.
#[derive(Debug)]
pub struct CSSParser {
    pos: usize,
    input: Vec<char>,
}

impl CSSParser {
    /// The cursor never passes the end of the input.
    pub closed spec fn wf(&self) -> bool {
        self.pos <= self.input@.len()
    }

    /// The characters not yet consumed.
    pub closed spec fn pos_of(&self) -> int {
        self.pos as int
    }

    /// The whole input being parsed.
    pub closed spec fn text(&self) -> Seq<char> {
        self.input@
    }

    /// Start a parser at the beginning of the given text.
    pub fn new(source: &str) -> (r: CSSParser)
        ensures
            r.wf(),
            r.pos_of() == 0,
            r.text() == source@,
    {
        let n = source.unicode_len();
        let mut input: Vec<char> = Vec::new();
        let mut i: usize = 0;
        while i < n
            invariant
                n == source@.len(),
                i <= n,
                input@ =~= source@.subrange(0, i as int),
            decreases n - i,
        {
            input.push(source.get_char(i));
            proof {
                assert(input@ =~= source@.subrange(0, i + 1));
            }
            i = i + 1;
        }
        proof {
            assert(input@ =~= source@);
        }
        CSSParser { pos: 0, input }
    }

    /// Check if the parser is at the end of the input.
    fn is_eof(&self) -> (r: bool)
        requires
            self.wf(),
        ensures
            r == (self.pos_of() == self.text().len()),
    {
        self.pos >= self.input.len()
    }

    /// Read the next character from the input.
    fn next_char(&self) -> (c: char)
        requires
            self.wf(),
            self.pos_of() < self.text().len(),
        ensures
            c == self.text()[self.pos_of()],
    {
        self.input[self.pos]
    }

    /// Consume a character.
    fn consume_char(&mut self) -> (c: char)
        requires
            old(self).wf(),
            old(self).pos_of() < old(self).text().len(),
        ensures
            final(self).wf(),
            final(self).text() == old(self).text(),
            final(self).pos_of() == old(self).pos_of() + 1,
            c == old(self).text()[old(self).pos_of()],
    {
        let n = self.input.len();
        let c = self.input[self.pos];
        proof {
            assert(self.pos < n);
        }
        self.pos = self.pos + 1;
        c
    }

    /// If the exact character is found, consume it; otherwise the
    /// stylesheet is malformed.
    fn expect_char(&mut self, c: char) -> (r: Result<(), crate::PipelineError>)
        requires
            old(self).wf(),
        ensures
            final(self).wf(),
            final(self).text() == old(self).text(),
            match r {
                Ok(_) => {
                    &&& old(self).pos_of() < old(self).text().len()
                    &&& old(self).text()[old(self).pos_of()] == c
                    &&& final(self).pos_of() == old(self).pos_of() + 1
                },
                Err(e) => {
                    &&& e == crate::PipelineError::MalformedStylesheet
                    &&& !(old(self).pos_of() < old(self).text().len() && old(self).text()[old(self).pos_of()] == c)
                    &&& final(self).pos_of() == old(self).pos_of()
                },
            },
    {
        if self.is_eof() {
            return Err(crate::PipelineError::MalformedStylesheet);
        }
        if self.next_char() == c {
            self.consume_char();
            Ok(())
        } else {
            Err(crate::PipelineError::MalformedStylesheet)
        }
    }

    /// Consume whitespace: the cursor moves exactly to the end of the
    /// whitespace run at its position.
    fn consume_whitespace(&mut self)
        requires
            old(self).wf(),
        ensures
            final(self).wf(),
            final(self).text() == old(self).text(),
            old(self).pos_of() <= final(self).pos_of(),
            final(self).pos_of() == ws_end(old(self).text(), old(self).pos_of()),
    {
        loop
            invariant
                self.wf(),
                self.text() == old(self).text(),
                old(self).pos_of() <= self.pos_of(),
                forall|j: int|
                    old(self).pos_of() <= j < self.pos_of() ==> spec_space_char(
                        #[trigger] self.text()[j],
                    ),
            decreases self.text().len() - self.pos_of(),
        {
            if self.is_eof() {
                proof {
                    lemma_ws_end_here(self.text(), old(self).pos_of(), self.pos_of());
                }
                return ;
            }
            let c = self.next_char();
            if c == ' ' || c == '\t' || c == '\n' || c == '\r' {
                self.consume_char();
            } else {
                proof {
                    lemma_ws_end_here(self.text(), old(self).pos_of(), self.pos_of());
                }
                return ;
            }
        }
    }

    /// Parse a nonnegative pixel count: the maximal run of digits and
    /// dots at the cursor must be a nonempty, dot-free digit string whose
    /// value is at most `MAX_PX`; fractional or oversized numerals are
    /// malformed input.
    #[verifier::loop_isolation(false)]
    fn parse_number(&mut self) -> (r: Result<i64, crate::PipelineError>)
        requires
            old(self).wf(),
        ensures
            final(self).wf(),
            final(self).text() == old(self).text(),
            old(self).pos_of() <= final(self).pos_of(),
            ({
                let s = old(self).text();
                let p0 = old(self).pos_of();
                let e = num_end(s, p0);
                let seg = s.subrange(p0, e);
                match r {
                    Ok(v) => {
                        &&& e > p0
                        &&& forall|j: int| 0 <= j < seg.len() ==> spec_digit(#[trigger] seg[j])
                        &&& 0 <= v <= MAX_PX
                        &&& v as int == digits_val(seg)
                        &&& final(self).pos_of() == e
                    },
                    Err(err) => {
                        &&& err == crate::PipelineError::MalformedStylesheet
                        &&& !(e > p0 && (forall|j: int|
                            0 <= j < seg.len() ==> spec_digit(#[trigger] seg[j])) && digits_val(seg)
                            <= MAX_PX as int)
                    },
                }
            }),
    {
        let ghost s = old(self).text();
        let ghost p0 = old(self).pos_of();
        let ghost e = num_end(s, p0);
        let ghost seg = s.subrange(p0, e);
        proof {
            lemma_num_end_bounds(s, p0);
        }
        if self.is_eof() {
            return Err(crate::PipelineError::MalformedStylesheet);
        }
        let first = self.next_char();
        if !(('0' <= first && first <= '9') || first == '.') {
            return Err(crate::PipelineError::MalformedStylesheet);
        }
        let mut val: i64 = 0;
        loop
            invariant
                self.wf(),
                self.text() == s,
                p0 <= self.pos_of() <= e,
                forall|j: int| p0 <= j < self.pos_of() ==> spec_digit(#[trigger] s[j]),
                0 <= val <= MAX_PX,
                val as int == digits_val(s.subrange(p0, self.pos_of())),
            decreases s.len() - self.pos_of(),
        {
            let ghost p = self.pos_of();
            proof {
                assert(forall|j: int| p0 <= j < p ==> spec_num_char(#[trigger] s[j]));
                lemma_num_end_stable(s, p0, p);
            }
            if self.is_eof() {
                proof {
                    lemma_num_end_here(s, p0, p);
                    assert(forall|j: int| 0 <= j < seg.len() ==> spec_digit(#[trigger] seg[j]));
                    assert(e > p0);
                }
                return Ok(val);
            }
            let c = self.next_char();
            if c == '.' {
                // A fractional numeral: this engine's lengths are whole pixels.
                proof {
                    assert(spec_num_char(s[p]));
                    assert(num_end(s, p) == num_end(s, p + 1));
                    lemma_num_end_bounds(s, p + 1);
                    assert(p < e);
                    assert(seg[p - p0] == '.');
                    assert(!spec_digit(seg[p - p0]));
                }
                return Err(crate::PipelineError::MalformedStylesheet);
            }
            if '0' <= c && c <= '9' {
                proof {
                    assert(spec_num_char(s[p]));
                    assert(num_end(s, p) == num_end(s, p + 1));
                    lemma_num_end_bounds(s, p + 1);
                    assert(p < e);
                }
                self.consume_char();
                let d = (c as u32 - 48) as i64;
                proof {
                    assert(s.subrange(p0, p + 1).drop_last() =~= s.subrange(p0, p));
                    assert(digits_val(s.subrange(p0, p + 1)) == val * 10 + d);
                }
                if val > MAX_PX / 10 || val * 10 + d > MAX_PX {
                    // Too large to be a sane pixel length.
                    proof {
                        if forall|j: int| 0 <= j < seg.len() ==> spec_digit(#[trigger] seg[j]) {
                            assert(forall|j: int| p0 <= j < e ==> spec_digit(#[trigger] s[j])) by {
                                assert(forall|j: int|
                                    p0 <= j < e ==> #[trigger] s[j] == seg[j - p0]);
                            }
                            lemma_digits_seg_monotone(s, p0, p + 1, e);
                        }
                    }
                    return Err(crate::PipelineError::MalformedStylesheet);
                }
                val = val * 10 + d;
            } else {
                proof {
                    lemma_num_end_here(s, p0, p);
                    assert(forall|j: int| 0 <= j < seg.len() ==> spec_digit(#[trigger] seg[j]));
                    assert(e > p0);
                }
                return Ok(val);
            }
        }
    }

    /// Parse an identifier: the maximal run of identifier characters at
    /// the cursor.
    fn parse_identifier(&mut self) -> (r: String)
        requires
            old(self).wf(),
        ensures
            final(self).wf(),
            final(self).text() == old(self).text(),
            old(self).pos_of() <= final(self).pos_of(),
            r@ == old(self).text().subrange(old(self).pos_of(), final(self).pos_of()),
            forall|j: int|
                old(self).pos_of() <= j < final(self).pos_of() ==> spec_identifier_char(
                    #[trigger] final(self).text()[j],
                ),
            final(self).pos_of() == final(self).text().len() || !spec_identifier_char(
                final(self).text()[final(self).pos_of()],
            ),
            final(self).pos_of() == ident_end(old(self).text(), old(self).pos_of()),
    {
        let mut result = String::new();
        loop
            invariant
                self.wf(),
                self.text() == old(self).text(),
                old(self).pos_of() <= self.pos_of(),
                result@ == self.text().subrange(old(self).pos_of(), self.pos_of()),
                forall|j: int|
                    old(self).pos_of() <= j < self.pos_of() ==> spec_identifier_char(
                        #[trigger] self.text()[j],
                    ),
            decreases self.text().len() - self.pos_of(),
        {
            if self.is_eof() {
                proof {
                    lemma_ident_end_here(self.text(), old(self).pos_of(), self.pos_of());
                }
                return result;
            }
            let c = self.next_char();
            if valid_identifier_char(c) {
                self.consume_char();
                crate::text::push_char(&mut result, c);
                proof {
                    assert(result@ =~= self.text().subrange(old(self).pos_of(), self.pos_of()));
                }
            } else {
                proof {
                    lemma_ident_end_here(self.text(), old(self).pos_of(), self.pos_of());
                }
                return result;
            }
        }
    }

    /// Parse a unit identifier: only `px` is defined, any other unit is a
    /// parse-time failure.
    fn parse_unit(&mut self) -> (r: Result<Unit, crate::PipelineError>)
        requires
            old(self).wf(),
        ensures
            final(self).wf(),
            final(self).text() == old(self).text(),
            old(self).pos_of() <= final(self).pos_of(),
            r is Ok <==> spec_px_ident(
                old(self).text().subrange(
                    old(self).pos_of(),
                    ident_end(old(self).text(), old(self).pos_of()),
                ),
            ),
            r is Ok ==> r->Ok_0 == Unit::Px,
            r is Err ==> r->Err_0 == crate::PipelineError::MalformedStylesheet,
            final(self).pos_of() == ident_end(old(self).text(), old(self).pos_of()),
    {
        let ghost s = old(self).text();
        let ghost p0 = old(self).pos_of();
        let ident = self.parse_identifier();
        let ghost seg = s.subrange(p0, ident_end(s, p0));
        proof {
            assert(ident@ == seg);
        }
        let n = ident.as_str().unicode_len();
        if n != 2 {
            return Err(crate::PipelineError::MalformedStylesheet);
        }
        let c0 = ident.as_str().get_char(0);
        let c1 = ident.as_str().get_char(1);
        if (c0 == 'p' || c0 == 'P') && (c1 == 'x' || c1 == 'X') {
            Ok(Unit::Px)
        } else {
            Err(crate::PipelineError::MalformedStylesheet)
        }
    }

    /// Parse a pixel-length value: a whole number immediately followed by
    /// the unit `px`, exactly the length case of the value grammar.
    fn parse_length(&mut self) -> (r: Result<Value, crate::PipelineError>)
        requires
            old(self).wf(),
            old(self).pos_of() < old(self).text().len(),
            spec_digit(old(self).text()[old(self).pos_of()]),
        ensures
            final(self).wf(),
            final(self).text() == old(self).text(),
            old(self).pos_of() <= final(self).pos_of(),
            match r {
                Ok(v) => {
                    &&& ps_value(old(self).text(), old(self).pos_of()) == Some(
                        (value_view(v), final(self).pos_of()),
                    )
                    &&& v is Length
                    &&& 0 <= v.spec_to_px() <= MAX_PX
                    &&& old(self).pos_of() < final(self).pos_of()
                },
                Err(e) => {
                    &&& ps_value(old(self).text(), old(self).pos_of()) is None
                    &&& e == crate::PipelineError::MalformedStylesheet
                },
            },
    {
        let ghost s = old(self).text();
        let ghost p0 = old(self).pos_of();
        let ghost e = num_end(s, p0);
        proof {
            assert(spec_num_char(s[p0]));
            assert(num_end(s, p0) == num_end(s, p0 + 1));
            lemma_num_end_bounds(s, p0 + 1);
            assert(e > p0);
        }
        let n = match self.parse_number() {
            Ok(n) => n,
            Err(err) => {
                proof {
                    assert(ps_value(s, p0) is None);
                }
                return Err(err);
            },
        };
        let unit = match self.parse_unit() {
            Ok(u) => u,
            Err(err) => {
                proof {
                    assert(ps_value(s, p0) is None);
                }
                return Err(err);
            },
        };
        let r = Value::Length(n, unit);
        proof {
            assert(value_view(r) == GValue::Length(digits_val(s.subrange(p0, e))));
            assert(ps_value(s, p0) == Some((value_view(r), ident_end(s, e))));
        }
        Ok(r)
    }

    /// Parse two hexadecimal digits into one 8-bit channel.
    fn parse_hex_pair(&mut self) -> (r: Result<u8, crate::PipelineError>)
        requires
            old(self).wf(),
        ensures
            final(self).wf(),
            final(self).text() == old(self).text(),
            old(self).pos_of() <= final(self).pos_of(),
            ({
                let s = old(self).text();
                let p0 = old(self).pos_of();
                match r {
                    Ok(b) => {
                        &&& p0 + 2 <= s.len()
                        &&& hex_digit_val(s[p0]) < 16
                        &&& hex_digit_val(s[p0 + 1]) < 16
                        &&& b as int == 16 * hex_digit_val(s[p0]) + hex_digit_val(s[p0 + 1])
                        &&& final(self).pos_of() == p0 + 2
                    },
                    Err(e) => {
                        &&& e == crate::PipelineError::MalformedStylesheet
                        &&& !(p0 + 2 <= s.len() && hex_digit_val(s[p0]) < 16 && hex_digit_val(
                            s[p0 + 1],
                        ) < 16)
                    },
                }
            }),
    {
        if self.is_eof() {
            return Err(crate::PipelineError::MalformedStylesheet);
        }
        let c0 = self.consume_char();
        let h0 = hex_value(c0);
        if h0 >= 16 {
            return Err(crate::PipelineError::MalformedStylesheet);
        }
        if self.is_eof() {
            return Err(crate::PipelineError::MalformedStylesheet);
        }
        let c1 = self.consume_char();
        let h1 = hex_value(c1);
        if h1 >= 16 {
            return Err(crate::PipelineError::MalformedStylesheet);
        }
        Ok(16 * h0 + h1)
    }

    /// Parse a color value: `#` followed by exactly six hexadecimal
    /// digits, each channel the value of its two digits; the alpha
    /// channel is implicitly opaque. Fails exactly when the `#` or any of
    /// the six digits is missing or not hexadecimal.
    fn parse_color(&mut self) -> (r: Result<Value, crate::PipelineError>)
        requires
            old(self).wf(),
        ensures
            final(self).wf(),
            final(self).text() == old(self).text(),
            old(self).pos_of() <= final(self).pos_of(),
            ({
                let s = old(self).text();
                let p0 = old(self).pos_of();
                match r {
                    Ok(v) => {
                        &&& p0 < s.len() && s[p0] == '#'
                        &&& p0 + 7 <= s.len()
                        &&& v is ColorValue
                        &&& v->ColorValue_0.r as int == 16 * hex_digit_val(s[p0 + 1])
                            + hex_digit_val(s[p0 + 2])
                        &&& v->ColorValue_0.g as int == 16 * hex_digit_val(s[p0 + 3])
                            + hex_digit_val(s[p0 + 4])
                        &&& v->ColorValue_0.b as int == 16 * hex_digit_val(s[p0 + 5])
                            + hex_digit_val(s[p0 + 6])
                        &&& v->ColorValue_0.a == 255
                        &&& hex_digit_val(s[p0 + 1]) < 16 && hex_digit_val(s[p0 + 2]) < 16
                        &&& hex_digit_val(s[p0 + 3]) < 16 && hex_digit_val(s[p0 + 4]) < 16
                        &&& hex_digit_val(s[p0 + 5]) < 16 && hex_digit_val(s[p0 + 6]) < 16
                        &&& final(self).pos_of() == p0 + 7
                    },
                    Err(e) => {
                        &&& e == crate::PipelineError::MalformedStylesheet
                        &&& !(p0 < s.len() && s[p0] == '#' && p0 + 7 <= s.len() && hex_digit_val(
                            s[p0 + 1],
                        ) < 16 && hex_digit_val(s[p0 + 2]) < 16 && hex_digit_val(s[p0 + 3]) < 16
                            && hex_digit_val(s[p0 + 4]) < 16 && hex_digit_val(s[p0 + 5]) < 16
                            && hex_digit_val(s[p0 + 6]) < 16)
                    },
                }
            }),
    {
        match self.expect_char('#') {
            Ok(_) => {},
            Err(e) => {
                return Err(e);
            },
        }
        let red = match self.parse_hex_pair() {
            Ok(b) => b,
            Err(e) => {
                return Err(e);
            },
        };
        let green = match self.parse_hex_pair() {
            Ok(b) => b,
            Err(e) => {
                return Err(e);
            },
        };
        let blue = match self.parse_hex_pair() {
            Ok(b) => b,
            Err(e) => {
                return Err(e);
            },
        };
        Ok(Value::ColorValue(Color { r: red, g: green, b: blue, a: 255 }))
    }

    /// Parse a declaration value: a length when a digit follows, a color
    /// after `#`, and a bare keyword otherwise — exactly the value
    /// grammar `ps_value` at the cursor.
    fn parse_value(&mut self) -> (r: Result<Value, crate::PipelineError>)
        requires
            old(self).wf(),
        ensures
            final(self).wf(),
            final(self).text() == old(self).text(),
            old(self).pos_of() <= final(self).pos_of(),
            match r {
                Ok(v) => {
                    &&& ps_value(old(self).text(), old(self).pos_of()) == Some(
                        (value_view(v), final(self).pos_of()),
                    )
                    &&& 0 <= v.spec_to_px() <= MAX_PX
                },
                Err(e) => {
                    &&& ps_value(old(self).text(), old(self).pos_of()) is None
                    &&& e == crate::PipelineError::MalformedStylesheet
                },
            },
    {
        let ghost s = old(self).text();
        let ghost p0 = old(self).pos_of();
        if self.is_eof() {
            return Err(crate::PipelineError::MalformedStylesheet);
        }
        let c = self.next_char();
        if '0' <= c && c <= '9' {
            self.parse_length()
        } else if c == '#' {
            let r = self.parse_color();
            match &r {
                Ok(v) => {
                    proof {
                        assert(ps_value(s, p0) == Some((value_view(*v), p0 + 7)));
                    }
                },
                Err(_) => {
                    proof {
                        assert(ps_value(s, p0) is None);
                    }
                },
            }
            r
        } else {
            let kw = self.parse_identifier();
            let r = Value::Keyword(kw);
            proof {
                assert(ps_value(s, p0) == Some((value_view(r), ident_end(s, p0))));
            }
            Ok(r)
        }
    }

    /// Parse one declaration, `name : value ;`: the name is the
    /// identifier at the cursor and the value the one the value grammar
    /// reads after the colon — exactly `ps_declaration` at the cursor.
    fn parse_declaration(&mut self) -> (r: Result<Declaration, crate::PipelineError>)
        requires
            old(self).wf(),
        ensures
            final(self).wf(),
            final(self).text() == old(self).text(),
            old(self).pos_of() <= final(self).pos_of(),
            match r {
                Ok(d) => {
                    &&& ps_declaration(old(self).text(), old(self).pos_of()) == Some(
                        (declaration_view(d), final(self).pos_of()),
                    )
                    &&& 0 <= d.value.spec_to_px() <= MAX_PX
                    &&& old(self).pos_of() < final(self).pos_of()
                },
                Err(e) => {
                    &&& ps_declaration(old(self).text(), old(self).pos_of()) is None
                    &&& e == crate::PipelineError::MalformedStylesheet
                },
            },
    {
        let ghost s = old(self).text();
        let ghost p0 = old(self).pos_of();
        let name = self.parse_identifier();
        self.consume_whitespace();
        match self.expect_char(':') {
            Ok(_) => {},
            Err(e) => {
                proof {
                    assert(ps_declaration(s, p0) is None);
                }
                return Err(e);
            },
        }
        self.consume_whitespace();
        let value = match self.parse_value() {
            Ok(v) => v,
            Err(e) => {
                proof {
                    assert(ps_declaration(s, p0) is None);
                }
                return Err(e);
            },
        };
        self.consume_whitespace();
        match self.expect_char(';') {
            Ok(_) => {},
            Err(e) => {
                proof {
                    assert(ps_declaration(s, p0) is None);
                }
                return Err(e);
            },
        }
        let d = Declaration { name, value };
        proof {
            assert(declaration_view(d).name == s.subrange(p0, ident_end(s, p0)));
            assert(ps_declaration(s, p0) matches Some(g) && g.0 == declaration_view(d) && g.1
                == final(self).pos_of());
        }
        Ok(d)
    }

    /// Parse a brace-enclosed declaration list: exactly the declarations
    /// of the block at the cursor, in source order (`ps_block`).
    #[verifier::loop_isolation(false)]
    fn parse_declarations(&mut self) -> (r: Result<Vec<Declaration>, crate::PipelineError>)
        requires
            old(self).wf(),
        ensures
            final(self).wf(),
            final(self).text() == old(self).text(),
            old(self).pos_of() <= final(self).pos_of(),
            match r {
                Ok(ds) => {
                    &&& ps_block(old(self).text(), old(self).pos_of()) == Some(
                        (
                            ds@.map_values(|d: Declaration| declaration_view(d)),
                            final(self).pos_of(),
                        ),
                    )
                    &&& forall|j: int|
                        0 <= j < ds@.len() ==> 0 <= (#[trigger] ds@[j]).value.spec_to_px()
                            <= MAX_PX
                    &&& old(self).pos_of() < final(self).pos_of()
                },
                Err(e) => {
                    &&& ps_block(old(self).text(), old(self).pos_of()) is None
                    &&& e == crate::PipelineError::MalformedStylesheet
                },
            },
    {
        let ghost s = old(self).text();
        let ghost p0 = old(self).pos_of();
        match self.expect_char('{') {
            Ok(_) => {},
            Err(e) => {
                return Err(e);
            },
        }
        let ghost pin = p0 + 1;
        let mut declarations: Vec<Declaration> = Vec::new();
        proof {
            assert(Seq::<GDeclaration>::empty() + ps_declarations(s, pin)->Some_0.0
                =~= ps_declarations(s, pin)->Some_0.0);
        }
        loop
            invariant
                self.wf(),
                self.text() == s,
                pin <= self.pos_of(),
                forall|j: int|
                    0 <= j < declarations@.len() ==> 0 <= (
                    #[trigger] declarations@[j]).value.spec_to_px() <= MAX_PX,
                ps_declarations(s, self.pos_of()) is None ==> ps_declarations(s, pin) is None,
                ps_declarations(s, self.pos_of()) matches Some(t) ==> ps_declarations(s, pin)
                    == Some(
                    (
                        declarations@.map_values(|d: Declaration| declaration_view(d)) + t.0,
                        t.1,
                    ),
                ),
            decreases self.text().len() - self.pos_of(),
        {
            let ghost cur = self.pos_of();
            let ghost done = declarations@.map_values(|d: Declaration| declaration_view(d));
            self.consume_whitespace();
            let ghost q = self.pos_of();
            if self.is_eof() {
                // An unterminated declaration block.
                proof {
                    assert(ps_declarations(s, cur) is None);
                }
                return Err(crate::PipelineError::MalformedStylesheet);
            }
            if self.next_char() == '}' {
                self.consume_char();
                proof {
                    assert(ps_declarations(s, cur) == Some((Seq::<GDeclaration>::empty(), q + 1)));
                    assert(done + Seq::<GDeclaration>::empty() =~= done);
                }
                return Ok(declarations);
            }
            let d = match self.parse_declaration() {
                Ok(d) => d,
                Err(e) => {
                    proof {
                        assert(ps_declarations(s, cur) is None);
                    }
                    return Err(e);
                },
            };
            let ghost e = self.pos_of();
            declarations.push(d);
            proof {
                assert(step_to(cur, e, s.len() as int) == e);
                assert(ps_declarations(s, cur) == (match ps_declarations(s, e) {
                    Option::None => Option::<(Seq<GDeclaration>, int)>::None,
                    Option::Some((rest, e2)) => Option::Some(
                        (seq![declaration_view(d)] + rest, e2),
                    ),
                }));
                assert(declarations@.map_values(|dd: Declaration| declaration_view(dd)) =~= done.push(
                    declaration_view(d),
                ));
                match ps_declarations(s, e) {
                    Option::None => {},
                    Option::Some(t2) => {
                        assert(done + (seq![declaration_view(d)] + t2.0) =~= done.push(
                            declaration_view(d),
                        ) + t2.0);
                    },
                }
            }
        }
    }

    /// Parse a simple selector: an optional tag name with `#id` and
    /// `.class` constraints, `*` standing for no constraint at all —
    /// exactly the selector the grammar `ps_simple_selector` reads at the
    /// cursor, ending where it ends.
    #[verifier::loop_isolation(false)]
    fn parse_simple_selector(&mut self) -> (r: SimpleSelector)
        requires
            old(self).wf(),
        ensures
            final(self).wf(),
            final(self).text() == old(self).text(),
            old(self).pos_of() <= final(self).pos_of(),
            simple_view(r) == ps_simple_selector(
                old(self).text(),
                old(self).pos_of(),
                gsel_empty(),
            ).0,
            final(self).pos_of() == ps_simple_selector(
                old(self).text(),
                old(self).pos_of(),
                gsel_empty(),
            ).1,
    {
        let ghost s = old(self).text();
        let ghost p0 = old(self).pos_of();
        let mut tag_name: Option<String> = None;
        let mut id: Option<String> = None;
        let mut class: Vec<String> = Vec::new();
        proof {
            assert((fields_view(tag_name, id, class)) =~= gsel_empty());
        }
        loop
            invariant
                self.wf(),
                self.text() == s,
                p0 <= self.pos_of(),
                ps_simple_selector(s, p0, gsel_empty()) == ps_simple_selector(
                    s,
                    self.pos_of(),
                    fields_view(tag_name, id, class),
                ),
            decreases self.text().len() - self.pos_of(),
        {
            let ghost cur = self.pos_of();
            let ghost acc = fields_view(tag_name, id, class);
            if self.is_eof() {
                proof {
                    assert(ps_simple_selector(s, cur, acc) == (acc, cur));
                }
                return SimpleSelector { tag_name, id, class };
            }
            let c = self.next_char();
            if c == '#' {
                self.consume_char();
                proof {
                    lemma_ident_end_bounds(s, cur + 1);
                    assert(step_to(cur, ident_end(s, cur + 1), s.len() as int) == ident_end(
                        s,
                        cur + 1,
                    ));
                }
                id = Some(self.parse_identifier());
                proof {
                    assert((fields_view(tag_name, id, class)) =~= (GSelector {
                        tag_name: acc.tag_name,
                        id: Some(s.subrange(cur + 1, ident_end(s, cur + 1))),
                        class: acc.class,
                    }));
                }
            } else if c == '.' {
                self.consume_char();
                proof {
                    lemma_ident_end_bounds(s, cur + 1);
                    assert(step_to(cur, ident_end(s, cur + 1), s.len() as int) == ident_end(
                        s,
                        cur + 1,
                    ));
                }
                let ghost old_class = class@.map_values(|c: String| c@);
                class.push(self.parse_identifier());
                proof {
                    assert(class@.map_values(|c: String| c@) =~= old_class.push(
                        s.subrange(cur + 1, ident_end(s, cur + 1)),
                    ));
                    assert((fields_view(tag_name, id, class)) =~= (GSelector {
                        tag_name: acc.tag_name,
                        id: acc.id,
                        class: acc.class.push(s.subrange(cur + 1, ident_end(s, cur + 1))),
                    }));
                }
            } else if c == '*' {
                // The universal selector constrains nothing.
                self.consume_char();
            } else if valid_identifier_char(c) {
                proof {
                    assert(ident_end(s, cur) == ident_end(s, cur + 1));
                    lemma_ident_end_bounds(s, cur + 1);
                    assert(step_to(cur, ident_end(s, cur), s.len() as int) == ident_end(s, cur));
                }
                tag_name = Some(self.parse_identifier());
                proof {
                    assert((fields_view(tag_name, id, class)) =~= (GSelector {
                        tag_name: Some(s.subrange(cur, ident_end(s, cur))),
                        id: acc.id,
                        class: acc.class,
                    }));
                }
            } else {
                proof {
                    assert(ps_simple_selector(s, cur, acc) == (acc, cur));
                }
                return SimpleSelector { tag_name, id, class };
            }
        }
    }

    /// Parse the comma-separated selectors of a rule, up to (and not
    /// consuming) the opening brace: exactly the selector group the
    /// grammar `ps_selectors` reads at the cursor.
    #[verifier::loop_isolation(false)]
    fn parse_selectors(&mut self) -> (r: Result<Vec<Selector>, crate::PipelineError>)
        requires
            old(self).wf(),
        ensures
            final(self).wf(),
            final(self).text() == old(self).text(),
            old(self).pos_of() <= final(self).pos_of(),
            match r {
                Ok(sels) => {
                    &&& ps_selectors(old(self).text(), old(self).pos_of(), Seq::empty()) == Some(
                        (
                            sels@.map_values(|sel: Selector| selector_view(sel)),
                            final(self).pos_of(),
                        ),
                    )
                    &&& sels@.len() >= 1
                    &&& final(self).pos_of() < final(self).text().len()
                    &&& final(self).text()[final(self).pos_of()] == '{'
                },
                Err(e) => {
                    &&& ps_selectors(old(self).text(), old(self).pos_of(), Seq::empty()) is None
                    &&& e == crate::PipelineError::MalformedStylesheet
                },
            },
    {
        let ghost s = old(self).text();
        let ghost p0 = old(self).pos_of();
        let mut selectors: Vec<Selector> = Vec::new();
        proof {
            assert(selectors@.map_values(|sel: Selector| selector_view(sel))
                =~= Seq::<GSelector>::empty());
        }
        loop
            invariant
                self.wf(),
                self.text() == s,
                p0 <= self.pos_of(),
                ps_selectors(s, p0, Seq::empty()) == ps_selectors(
                    s,
                    self.pos_of(),
                    selectors@.map_values(|sel: Selector| selector_view(sel)),
                ),
            decreases self.text().len() - self.pos_of(),
        {
            let ghost cur = self.pos_of();
            let ghost accv = selectors@.map_values(|sel: Selector| selector_view(sel));
            let simple = self.parse_simple_selector();
            let ghost rv = simple_view(simple);
            selectors.push(Selector::Simple(simple));
            proof {
                assert(selectors@.map_values(|sel: Selector| selector_view(sel)) =~= accv.push(
                    rv,
                ));
            }
            self.consume_whitespace();
            let ghost q = self.pos_of();
            if self.is_eof() {
                proof {
                    assert(ps_selectors(s, cur, accv) is None);
                }
                return Err(crate::PipelineError::MalformedStylesheet);
            }
            let c = self.next_char();
            if c == ',' {
                self.consume_char();
                self.consume_whitespace();
                proof {
                    lemma_ws_end_bounds(s, q + 1);
                    assert(step_to(cur, ws_end(s, q + 1), s.len() as int) == ws_end(s, q + 1));
                    assert(ps_selectors(s, cur, accv) == ps_selectors(
                        s,
                        self.pos_of(),
                        accv.push(rv),
                    ));
                }
            } else if c == '{' {
                proof {
                    assert(ps_selectors(s, cur, accv) == Some((accv.push(rv), q)));
                }
                return Ok(selectors);
            } else {
                // An unexpected character between selectors.
                proof {
                    assert(ps_selectors(s, cur, accv) is None);
                }
                return Err(crate::PipelineError::MalformedStylesheet);
            }
        }
    }

    /// Parse one rule: selectors, then a declaration block — exactly the
    /// rule the grammar `ps_rule` reads at the cursor.
    fn parse_rule(&mut self) -> (r: Result<Rule, crate::PipelineError>)
        requires
            old(self).wf(),
        ensures
            final(self).wf(),
            final(self).text() == old(self).text(),
            old(self).pos_of() <= final(self).pos_of(),
            match r {
                Ok(rl) => {
                    &&& ps_rule(old(self).text(), old(self).pos_of()) == Some(
                        (rule_view(rl), final(self).pos_of()),
                    )
                    &&& rl.selectors@.len() >= 1
                    &&& forall|j: int|
                        0 <= j < rl.declarations@.len() ==> 0 <= (
                        #[trigger] rl.declarations@[j]).value.spec_to_px() <= MAX_PX
                    &&& old(self).pos_of() < final(self).pos_of()
                },
                Err(e) => {
                    &&& ps_rule(old(self).text(), old(self).pos_of()) is None
                    &&& e == crate::PipelineError::MalformedStylesheet
                },
            },
    {
        let ghost s = old(self).text();
        let ghost p0 = old(self).pos_of();
        let selectors = match self.parse_selectors() {
            Ok(sels) => sels,
            Err(e) => {
                return Err(e);
            },
        };
        let declarations = match self.parse_declarations() {
            Ok(ds) => ds,
            Err(e) => {
                return Err(e);
            },
        };
        let rl = Rule { selectors, declarations };
        proof {
            assert(rule_view(rl).selectors == rl.selectors@.map_values(
                |sel: Selector| selector_view(sel),
            ));
            assert(ps_rule(s, p0) matches Some(g) && g.0 =~= rule_view(rl));
        }
        Ok(rl)
    }

    /// Parse a whole stylesheet: rules separated by whitespace until the
    /// end of the input. Succeeds exactly when the input is a well-formed
    /// stylesheet under the grammar `ps_rules`, and then returns exactly
    /// its rules; every rule then carries at least one selector and every
    /// declared length lies in `[0, MAX_PX]`.
    #[verifier::loop_isolation(false)]
    pub fn parse(source: &str) -> (r: Result<StyleSheet, crate::PipelineError>)
        ensures
            r is Ok <==> ps_rules(source@, 0) is Some,
            match r {
                Ok(sheet) => {
                    &&& sheet_view(sheet) == ps_rules(source@, 0)->Some_0.0
                    &&& forall|i: int|
                        0 <= i < sheet.rules@.len() ==> (
                        #[trigger] sheet.rules@[i]).selectors@.len() >= 1
                    &&& sheet_lengths_bounded(sheet)
                },
                Err(e) => e == crate::PipelineError::MalformedStylesheet,
            },
    {
        let ghost s = source@;
        let mut parser = CSSParser::new(source);
        let mut rules: Vec<Rule> = Vec::new();
        proof {
            assert(Seq::<GRule>::empty() + ps_rules(s, 0)->Some_0.0 =~= ps_rules(
                s,
                0,
            )->Some_0.0);
        }
        loop
            invariant
                parser.wf(),
                parser.text() == s,
                0 <= parser.pos_of(),
                forall|i: int| 0 <= i < rules@.len() ==> (#[trigger] rules@[i]).selectors@.len() >= 1,
                forall|i: int, j: int|
                    0 <= i < rules@.len() && 0 <= j < (#[trigger] rules@[i]).declarations@.len()
                        ==> 0 <= (#[trigger] rules@[i].declarations@[j]).value.spec_to_px()
                        <= MAX_PX,
                ps_rules(s, parser.pos_of()) is None ==> ps_rules(s, 0) is None,
                ps_rules(s, parser.pos_of()) matches Some(t) ==> ps_rules(s, 0) == Some(
                    (rules@.map_values(|rl: Rule| rule_view(rl)) + t.0, t.1),
                ),
            decreases parser.text().len() - parser.pos_of(),
        {
            let ghost cur = parser.pos_of();
            let ghost done = rules@.map_values(|rl: Rule| rule_view(rl));
            parser.consume_whitespace();
            let ghost q = parser.pos_of();
            if parser.is_eof() {
                let sheet = StyleSheet { rules };
                proof {
                    assert(ps_rules(s, cur) == Some((Seq::<GRule>::empty(), q)));
                    assert(done + Seq::<GRule>::empty() =~= done);
                    assert(sheet_view(sheet) =~= done);
                    assert(sheet_lengths_bounded(sheet));
                }
                return Ok(sheet);
            }
            let rule = match parser.parse_rule() {
                Ok(rl) => rl,
                Err(e) => {
                    proof {
                        assert(ps_rules(s, cur) is None);
                    }
                    return Err(e);
                },
            };
            let ghost e = parser.pos_of();
            rules.push(rule);
            proof {
                assert(step_to(cur, e, s.len() as int) == e);
                assert(ps_rules(s, cur) == (match ps_rules(s, e) {
                    Option::None => Option::<(Seq<GRule>, int)>::None,
                    Option::Some((rest, e2)) => Option::Some((seq![rule_view(rule)] + rest, e2)),
                }));
                assert(rules@.map_values(|rl: Rule| rule_view(rl)) =~= done.push(
                    rule_view(rule),
                ));
                match ps_rules(s, e) {
                    Option::None => {},
                    Option::Some(t2) => {
                        assert(done + (seq![rule_view(rule)] + t2.0) =~= done.push(
                            rule_view(rule),
                        ) + t2.0);
                    },
                }
            }
        }
    }
}

} // verus!
