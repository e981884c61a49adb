//! Factors and their levels.
//!
//! Levels that are floating-point numbers come from outside the library: it
//! says which numbers a spec asks for (`Factor::request`) and takes them, as bit
//! patterns and displayed texts, when it builds the factor.
use vstd::prelude::*;

use crate::error::Error;
use crate::text::{
    chars_of, decimal, decimal_text, is_text, parse_i64, part, pieces, push_decimal, signed_decimal,
    signed_text, signed_value, split, string_of, texts, trim, trimmed,
};

verus! {

/// A floating-point level: the bit pattern of the number and its displayed text.
#[derive(Debug)]
pub struct FloatLevel {
    pub bits: u64,
    pub text: String,
}

/// One level of a factor.
#[derive(Debug)]
pub enum FactorValue {
    Int(i64),
    Float(FloatLevel),
    Text(String),
}

/// What a level holds.
#[verifier::ext_equal]
pub enum ValueView {
    Int(int),
    Float { bits: u64, text: Seq<char> },
    Text(Seq<char>),
}

impl View for FloatLevel {
    type V = (u64, Seq<char>);

    open spec fn view(&self) -> (u64, Seq<char>) {
        (self.bits, self.text@)
    }
}

impl View for FactorValue {
    type V = ValueView;

    open spec fn view(&self) -> ValueView {
        match self {
            FactorValue::Int(n) => ValueView::Int(*n as int),
            FactorValue::Float(x) => ValueView::Float { bits: x.bits, text: x.text@ },
            FactorValue::Text(s) => ValueView::Text(s@),
        }
    }
}

/// The levels of a factor.
pub open spec fn value_views(values: Seq<FactorValue>) -> Seq<ValueView> {
    values.map_values(|v: FactorValue| v@)
}

/// The scale that a factor's levels were taken from; the parameters are bit
/// patterns of floating-point numbers.
#[derive(Debug, Clone, Copy, PartialEq, Eq, Structural)]
pub enum FactorKind {
    Discrete,
    Uniform { low: u64, high: u64 },
    Normal { low: u64, high: u64, mean: u64, std: u64 },
    LogLow { low: u64, high: u64 },
    LogHigh { low: u64, high: u64 },
}

/// A named factor with its levels.
#[derive(Debug)]
pub struct Factor {
    pub name: String,
    pub spec: String,
    pub kind: FactorKind,
    pub values: Vec<FactorValue>,
}

/// What a factor holds.
#[verifier::ext_equal]
pub struct FactorView {
    pub name: Seq<char>,
    pub spec: Seq<char>,
    pub kind: FactorKind,
    pub values: Seq<ValueView>,
}

impl View for Factor {
    type V = FactorView;

    open spec fn view(&self) -> FactorView {
        FactorView {
            name: self.name@,
            spec: self.spec@,
            kind: self.kind,
            values: value_views(self.values@),
        }
    }
}

/// The views of a list of factors.
pub open spec fn factor_views(factors: Seq<Factor>) -> Seq<FactorView> {
    factors.map_values(|f: Factor| f@)
}

// ===== Levels =====

/// The displayed text of a level.
pub open spec fn value_text(v: ValueView) -> Seq<char> {
    match v {
        ValueView::Int(n) => signed_decimal(n),
        ValueView::Float { bits, text } => text,
        ValueView::Text(s) => s,
    }
}

/// The bit pattern stands for no number.
pub open spec fn not_a_number(bits: u64) -> bool {
    bits & 0x7fff_ffff_ffff_ffff > 0x7ff0_0000_0000_0000
}

/// Equality of floating-point numbers by their bit patterns: a pattern that is
/// no number equals none, both zeros are equal.
pub open spec fn float_equal(a: u64, b: u64) -> bool {
    !not_a_number(a) && !not_a_number(b) && (a == b || (a & 0x7fff_ffff_ffff_ffff == 0 && b
        & 0x7fff_ffff_ffff_ffff == 0))
}

/// Two levels are the same.
pub open spec fn value_equal(a: ValueView, b: ValueView) -> bool {
    match (a, b) {
        (ValueView::Int(m), ValueView::Int(n)) => m == n,
        (ValueView::Float { bits: x, text: _ }, ValueView::Float { bits: y, text: _ }) => float_equal(
            x,
            y,
        ),
        (ValueView::Text(s), ValueView::Text(t)) => s == t,
        _ => false,
    }
}

impl FactorValue {
    /// The displayed text.
    pub fn to_text(&self) -> (s: String)
        ensures
            s@ == value_text(self@),
    {
        match self {
            FactorValue::Int(n) => signed_text(*n),
            FactorValue::Float(x) => x.text.clone(),
            FactorValue::Text(s) => s.clone(),
        }
    }

    /// Whether two levels are the same.
    pub fn same(&self, other: &FactorValue) -> (r: bool)
        ensures
            r == value_equal(self@, other@),
    {
        match (self, other) {
            (FactorValue::Int(m), FactorValue::Int(n)) => *m == *n,
            (FactorValue::Float(x), FactorValue::Float(y)) => {
                let (a, b): (u64, u64) = (x.bits, y.bits);
                let (u, v): (u64, u64) = (a & 0x7fff_ffff_ffff_ffff, b & 0x7fff_ffff_ffff_ffff);
                u <= 0x7ff0_0000_0000_0000 && v <= 0x7ff0_0000_0000_0000 && (a == b || (u == 0 && v
                    == 0))
            },
            (FactorValue::Text(s), FactorValue::Text(t)) => crate::text::equal(
                s.as_str(),
                t.as_str(),
            ),
            _ => false,
        }
    }

    /// A copy of the level.
    pub fn copy(&self) -> (v: FactorValue)
        ensures
            v@ == self@,
    {
        match self {
            FactorValue::Int(n) => FactorValue::Int(*n),
            FactorValue::Float(x) => FactorValue::Float(
                FloatLevel { bits: x.bits, text: x.text.clone() },
            ),
            FactorValue::Text(s) => FactorValue::Text(s.clone()),
        }
    }
}

impl PartialEq for FactorValue {
    fn eq(&self, other: &Self) -> (r: bool) {
        self.same(other)
    }
}

impl vstd::std_specs::cmp::PartialEqSpecImpl for FactorValue {
    open spec fn obeys_eq_spec() -> bool {
        true
    }

    open spec fn eq_spec(&self, other: &Self) -> bool {
        value_equal(self@, other@)
    }
}

// ===== Specs =====

/// The scales whose levels are computed floating-point numbers.
#[derive(Debug, Clone, Copy, PartialEq, Eq, Structural)]
pub enum Scale {
    Uniform,
    Normal,
    LogLow,
    LogHigh,
}

/// The numbers that a spec asks for.
#[derive(Debug)]
pub enum Request {
    /// No number.
    Nothing,
    /// The numbers that the texts stand for.
    Floats(Vec<String>),
    /// The levels of a scale with the given arguments.
    Levels { scale: Scale, args: Vec<String> },
}

/// The levels of a scale: the scale with its parameters, and the numbers.
#[derive(Debug)]
pub struct ScaleNumbers {
    pub kind: FactorKind,
    pub levels: Vec<FloatLevel>,
}

/// The answer to a request.
#[derive(Debug)]
pub enum Numbers {
    /// No answer.
    Absent,
    /// A number for each text, where it stands for one.
    Floats(Vec<Option<FloatLevel>>),
    /// The levels of a scale, or why there are none.
    Levels(Result<ScaleNumbers, Error>),
}

/// What a request asks for.
#[verifier::ext_equal]
pub enum RequestView {
    Nothing,
    Floats(Seq<Seq<char>>),
    Levels { scale: Scale, args: Seq<Seq<char>> },
}

impl View for Request {
    type V = RequestView;

    open spec fn view(&self) -> RequestView {
        match self {
            Request::Nothing => RequestView::Nothing,
            Request::Floats(t) => RequestView::Floats(crate::text::views(t@)),
            Request::Levels { scale, args } => RequestView::Levels {
                scale: *scale,
                args: crate::text::views(args@),
            },
        }
    }
}

/// What an answer holds.
#[verifier::ext_equal]
pub enum NumbersView {
    Absent,
    Floats(Seq<Option<(u64, Seq<char>)>>),
    Levels(Result<(FactorKind, Seq<ValueView>), Seq<char>>),
}

/// The view of an optional floating-point level.
pub open spec fn float_view(f: Option<FloatLevel>) -> Option<(u64, Seq<char>)> {
    match f {
        Some(x) => Some(x@),
        None => None,
    }
}

/// Floating-point levels as levels of a factor.
pub open spec fn float_values(levels: Seq<FloatLevel>) -> Seq<ValueView> {
    levels.map_values(|x: FloatLevel| ValueView::Float { bits: x.bits, text: x.text@ })
}

impl View for Numbers {
    type V = NumbersView;

    open spec fn view(&self) -> NumbersView {
        match self {
            Numbers::Absent => NumbersView::Absent,
            Numbers::Floats(f) => NumbersView::Floats(
                f@.map_values(|x: Option<FloatLevel>| float_view(x)),
            ),
            Numbers::Levels(Ok(n)) => NumbersView::Levels(Ok((n.kind, float_values(n.levels@)))),
            Numbers::Levels(Err(e)) => NumbersView::Levels(Err(e@)),
        }
    }
}

/// The message where the numbers that a spec asks for were not given.
pub open spec fn missing_numbers(spec: Seq<char>) -> Seq<char> {
    "factor spec '"@ + spec + "': its numbers were not given"@
}

/// One item of a discrete list.
#[verifier::ext_equal]
pub enum Item {
    Skip,
    Text(Seq<char>),
    Range(int, int),
    Float(Seq<char>),
    Int(int),
    Bad(Seq<char>),
}

/// The first dash, from `i` on, that parts two integers.
pub open spec fn range_dash(s: Seq<char>, i: nat) -> Option<nat>
    decreases s.len() - i,
{
    if i >= s.len() {
        None
    } else if s[i as int] == '-' && signed_value(s.take(i as int)) is Some && signed_value(
        s.skip(i as int + 1),
    ) is Some {
        Some(i)
    } else {
        range_dash(s, i + 1)
    }
}

/// The text has a character of a floating-point number.
pub open spec fn looks_float(s: Seq<char>) -> bool {
    exists|i: int| 0 <= i < s.len() && (#[trigger] s[i] == '.' || s[i] == 'e' || s[i] == 'E')
}

/// What an item of a discrete list stands for: a quoted text, a range of
/// integers, a floating-point number or an integer.
pub open spec fn item(raw: Seq<char>) -> Item {
    let p = trimmed(raw);
    if p.len() == 0 {
        Item::Skip
    } else if p.len() >= 2 && p[0] == '"' && p.last() == '"' {
        Item::Text(p.subrange(1, p.len() - 1))
    } else if range_dash(p, 1) is Some {
        let i = range_dash(p, 1)->0;
        Item::Range(signed_value(p.take(i as int))->0, signed_value(p.skip(i as int + 1))->0)
    } else if looks_float(p) {
        Item::Float(p)
    } else {
        match signed_value(p) {
            Some(n) => Item::Int(n),
            None => Item::Bad(p),
        }
    }
}

/// The integers from `lo` up to `hi`.
pub open spec fn range_values(lo: int, hi: int) -> Seq<ValueView> {
    Seq::new((hi - lo + 1) as nat, |i: int| ValueView::Int(lo + i))
}

/// The levels of a discrete list from item `i` on, after `values`; `used` of the
/// given numbers are used up.
pub open spec fn discrete_values(
    spec: Seq<char>,
    parts: Seq<Seq<char>>,
    i: nat,
    values: Seq<ValueView>,
    used: nat,
    floats: Seq<Option<(u64, Seq<char>)>>,
) -> Result<Seq<ValueView>, Seq<char>>
    decreases parts.len() - i,
{
    if i >= parts.len() {
        Ok(values)
    } else {
        match item(parts[i as int]) {
            Item::Skip => discrete_values(spec, parts, i + 1, values, used, floats),
            Item::Text(t) => discrete_values(
                spec,
                parts,
                i + 1,
                values.push(ValueView::Text(t)),
                used,
                floats,
            ),
            Item::Range(lo, hi) => if lo > hi {
                Err("invalid range "@ + signed_decimal(lo) + ".."@ + signed_decimal(hi) + ""@)
            } else {
                discrete_values(spec, parts, i + 1, values + range_values(lo, hi), used, floats)
            },
            Item::Int(n) => discrete_values(
                spec,
                parts,
                i + 1,
                values.push(ValueView::Int(n)),
                used,
                floats,
            ),
            Item::Bad(p) => Err("integer '"@ + p + "'"@),
            Item::Float(p) => if used >= floats.len() {
                Err(missing_numbers(spec))
            } else {
                match floats[used as int] {
                    None => Err("float '"@ + p + "'"@),
                    Some((bits, text)) => discrete_values(
                        spec,
                        parts,
                        i + 1,
                        values.push(ValueView::Float { bits, text }),
                        used + 1,
                        floats,
                    ),
                }
            },
        }
    }
}

/// The texts of the floating-point items before item `i`.
pub open spec fn float_texts(parts: Seq<Seq<char>>, i: nat) -> Seq<Seq<char>>
    decreases i,
{
    if i == 0 {
        Seq::empty()
    } else {
        match item(parts[i - 1]) {
            Item::Float(p) => float_texts(parts, (i - 1) as nat).push(p),
            _ => float_texts(parts, (i - 1) as nat),
        }
    }
}

/// The arguments of a scale: the items before item `i` that are not empty.
pub open spec fn scale_args(parts: Seq<Seq<char>>, i: nat) -> Seq<Seq<char>>
    decreases i,
{
    if i == 0 {
        Seq::empty()
    } else if trimmed(parts[i - 1]).len() == 0 {
        scale_args(parts, (i - 1) as nat)
    } else {
        scale_args(parts, (i - 1) as nat).push(trimmed(parts[i - 1]))
    }
}

/// The scale that a word names.
pub open spec fn scale_named(kind: Seq<char>) -> Option<Scale> {
    if kind == "uniform"@ {
        Some(Scale::Uniform)
    } else if kind == "normal"@ {
        Some(Scale::Normal)
    } else if kind == "logLow"@ || kind == "log_low"@ {
        Some(Scale::LogLow)
    } else if kind == "logHigh"@ || kind == "log_high"@ {
        Some(Scale::LogHigh)
    } else {
        None
    }
}

/// The name of a scale in messages.
pub open spec fn scale_text(scale: Scale) -> Seq<char> {
    match scale {
        Scale::Uniform => "uniform"@,
        Scale::Normal => "normal"@,
        Scale::LogLow => "logLow"@,
        Scale::LogHigh => "logHigh"@,
    }
}

/// The least number of arguments of a scale.
pub open spec fn scale_min(scale: Scale) -> nat {
    match scale {
        Scale::Normal => 4,
        _ => 3,
    }
}

/// The largest number of arguments of a scale.
pub open spec fn scale_max(scale: Scale) -> nat {
    match scale {
        Scale::Uniform => 3,
        Scale::Normal => 5,
        _ => 4,
    }
}

/// The kind belongs to the scale.
pub open spec fn kind_fits(kind: FactorKind, scale: Scale) -> bool {
    match scale {
        Scale::Uniform => kind is Uniform,
        Scale::Normal => kind is Normal,
        Scale::LogLow => kind is LogLow,
        Scale::LogHigh => kind is LogHigh,
    }
}

/// The first position of `c` in `s`, from `i` on.
pub open spec fn position(s: Seq<char>, c: char, i: nat) -> Option<nat>
    decreases s.len() - i,
{
    if i >= s.len() {
        None
    } else if s[i as int] == c {
        Some(i)
    } else {
        position(s, c, i + 1)
    }
}

/// The word before the bracket and the items inside it, or the message where a
/// spec has no such form.
pub open spec fn spec_parts(spec: Seq<char>) -> Result<(Seq<char>, Seq<Seq<char>>), Seq<char>> {
    let t = trimmed(spec);
    match position(t, '[', 0) {
        None => Err("factor spec '"@ + t + "': missing '['"@),
        Some(open) => if t.last() != ']' {
            Err("factor spec '"@ + t + "': must end with ']'"@)
        } else {
            Ok((trimmed(t.take(open as int)), pieces(t.subrange(open as int + 1, t.len() - 1), ',')))
        },
    }
}

/// The message where a scale has a wrong number of arguments.
pub open spec fn wrong_args(scale: Scale, got: nat) -> Seq<char> {
    scale_text(scale) + " expects "@ + decimal(scale_min(scale)) + ".."@ + (decimal(
        scale_max(scale),
    ) + " args, got "@ + decimal(got))
}

/// The word names a discrete list.
pub open spec fn names_discrete(kind: Seq<char>) -> bool {
    kind == "d"@ || kind == "discrete"@
}

/// Kind and levels of a factor spec, or the message where it has none.
pub open spec fn spec_levels(spec: Seq<char>, numbers: NumbersView) -> Result<
    (FactorKind, Seq<ValueView>),
    Seq<char>,
> {
    let t = trimmed(spec);
    match spec_parts(spec) {
        Err(m) => Err(m),
        Ok((kind, parts)) => if names_discrete(kind) {
            let floats = match numbers {
                NumbersView::Floats(f) => f,
                _ => Seq::empty(),
            };
            match discrete_values(t, parts, 0, Seq::empty(), 0, floats) {
                Ok(values) => Ok((FactorKind::Discrete, values)),
                Err(m) => Err(m),
            }
        } else {
            match scale_named(kind) {
                None => Err(
                    "unknown factor kind '"@ + kind
                        + "'. expected one of: d, uniform, normal, logLow, logHigh"@,
                ),
                Some(scale) => {
                    let args = scale_args(parts, parts.len());
                    if args.len() < scale_min(scale) || args.len() > scale_max(scale) {
                        Err(wrong_args(scale, args.len()))
                    } else {
                        match numbers {
                            NumbersView::Levels(Ok((k, values))) => if kind_fits(k, scale) {
                                Ok((k, values))
                            } else {
                                Err(missing_numbers(t))
                            },
                            NumbersView::Levels(Err(m)) => Err(m),
                            _ => Err(missing_numbers(t)),
                        }
                    }
                },
            }
        },
    }
}

/// The factor of a name and a spec, or the message where there is none.
pub open spec fn factor_of(name: Seq<char>, spec: Seq<char>, numbers: NumbersView) -> Result<
    FactorView,
    Seq<char>,
> {
    match spec_levels(spec, numbers) {
        Err(m) => Err(m),
        Ok((kind, values)) => if values.len() < 2 {
            Err(
                "factor '"@ + name + "': must have ≥ 2 levels (got "@ + decimal(values.len()) + ")"@,
            )
        } else {
            Ok(FactorView { name, spec: trimmed(spec), kind, values })
        },
    }
}

/// The numbers that a spec asks for.
pub open spec fn request_of(spec: Seq<char>) -> RequestView {
    match spec_parts(spec) {
        Err(_) => RequestView::Nothing,
        Ok((kind, parts)) => if names_discrete(kind) {
            let t = float_texts(parts, parts.len());
            if t.len() == 0 {
                RequestView::Nothing
            } else {
                RequestView::Floats(t)
            }
        } else {
            match scale_named(kind) {
                None => RequestView::Nothing,
                Some(scale) => {
                    let args = scale_args(parts, parts.len());
                    if args.len() < scale_min(scale) || args.len() > scale_max(scale) {
                        RequestView::Nothing
                    } else {
                        RequestView::Levels { scale, args }
                    }
                },
            }
        },
    }
}

proof fn lemma_float_texts(parts: Seq<Seq<char>>, n: nat, i: int)
    requires
        n <= parts.len(),
        float_texts(parts, n).len() == 0,
        0 <= i < n,
    ensures
        !(item(parts[i]) is Float),
    decreases n,
{
    if i < n - 1 {
        lemma_float_texts(parts, (n - 1) as nat, i);
    }
}

proof fn lemma_discrete_values(
    spec: Seq<char>,
    parts: Seq<Seq<char>>,
    i: nat,
    values: Seq<ValueView>,
    used: nat,
    a: Seq<Option<(u64, Seq<char>)>>,
    b: Seq<Option<(u64, Seq<char>)>>,
)
    requires
        float_texts(parts, parts.len()).len() == 0,
    ensures
        discrete_values(spec, parts, i, values, used, a) == discrete_values(
            spec,
            parts,
            i,
            values,
            used,
            b,
        ),
    decreases parts.len() - i,
{
    if i < parts.len() {
        lemma_float_texts(parts, parts.len(), i as int);
        match item(parts[i as int]) {
            Item::Skip => lemma_discrete_values(spec, parts, i + 1, values, used, a, b),
            Item::Text(t) => lemma_discrete_values(
                spec,
                parts,
                i + 1,
                values.push(ValueView::Text(t)),
                used,
                a,
                b,
            ),
            Item::Range(lo, hi) => lemma_discrete_values(
                spec,
                parts,
                i + 1,
                values + range_values(lo, hi),
                used,
                a,
                b,
            ),
            Item::Int(n) => lemma_discrete_values(
                spec,
                parts,
                i + 1,
                values.push(ValueView::Int(n)),
                used,
                a,
                b,
            ),
            _ => {},
        }
    }
}

/// A spec that asks for no numbers is read without regard to any.
pub proof fn numbers_matter_where_asked_for(
    name: Seq<char>,
    spec: Seq<char>,
    a: NumbersView,
    b: NumbersView,
)
    requires
        request_of(spec) is Nothing,
    ensures
        factor_of(name, spec, a) == factor_of(name, spec, b),
{
    if let Ok((kind, parts)) = spec_parts(spec) {
        if names_discrete(kind) {
            let fa = match a {
                NumbersView::Floats(f) => f,
                _ => Seq::empty(),
            };
            let fb = match b {
                NumbersView::Floats(f) => f,
                _ => Seq::empty(),
            };
            lemma_discrete_values(trimmed(spec), parts, 0, Seq::empty(), 0, fa, fb);
        }
    }
}

/// A spec that asks for the levels of a scale becomes the factor with those
/// levels, or fails with the message that comes in their place.
pub proof fn scales_take_their_levels(name: Seq<char>, spec: Seq<char>, numbers: NumbersView)
    requires
        request_of(spec) is Levels,
    ensures
        numbers matches NumbersView::Levels(Ok((kind, values))) ==> kind_fits(
            kind,
            request_of(spec)->Levels_scale,
        ) && values.len() >= 2 ==> factor_of(name, spec, numbers) == Ok::<FactorView, Seq<char>>(
            (FactorView { name, spec: trimmed(spec), kind, values }),
        ),
        numbers matches NumbersView::Levels(Err(m)) ==> factor_of(name, spec, numbers) == Err::<
            FactorView,
            Seq<char>,
        >(m),
{
}

// ===== Reading specs =====

enum ItemExec {
    Skip,
    Text(Vec<char>),
    Range(i64, i64),
    Float(Vec<char>),
    Int(i64),
    Bad(Vec<char>),
}

impl View for ItemExec {
    type V = Item;

    closed spec fn view(&self) -> Item {
        match self {
            ItemExec::Skip => Item::Skip,
            ItemExec::Text(t) => Item::Text(t@),
            ItemExec::Range(lo, hi) => Item::Range(*lo as int, *hi as int),
            ItemExec::Float(p) => Item::Float(p@),
            ItemExec::Int(n) => Item::Int(*n as int),
            ItemExec::Bad(p) => Item::Bad(p@),
        }
    }
}

/// Parts a range into its bounds.
fn split_range(s: &[char]) -> (r: Option<(i64, i64)>)
    ensures
        match r {
            Some((lo, hi)) => range_dash(s@, 1) is Some && signed_value(
                s@.take(range_dash(s@, 1)->0 as int),
            ) == Some(lo as int) && signed_value(s@.skip(range_dash(s@, 1)->0 as int + 1)) == Some(
                hi as int,
            ),
            None => range_dash(s@, 1) is None,
        },
{
    let mut i: usize = 1;
    while i < s.len()
        invariant
            1 <= i,
            i <= s@.len() || i == 1,
            range_dash(s@, 1) == range_dash(s@, i as nat),
        decreases s@.len() - i,
    {
        if s[i] == '-' {
            let left: Vec<char> = part(s, 0, i);
            let right: Vec<char> = part(s, i + 1, s.len());
            assert(left@ =~= s@.take(i as int));
            assert(right@ =~= s@.skip(i + 1));
            match (parse_i64(&left), parse_i64(&right)) {
                (Some(lo), Some(hi)) => {
                    return Some((lo, hi));
                },
                _ => {},
            }
        }
        i = i + 1;
    }
    None
}

fn is_float_like(s: &[char]) -> (r: bool)
    ensures
        r == looks_float(s@),
{
    let mut i: usize = 0;
    while i < s.len()
        invariant
            i <= s@.len(),
            forall|j: int| 0 <= j < i ==> #[trigger] s@[j] != '.' && s@[j] != 'e' && s@[j] != 'E',
        decreases s@.len() - i,
    {
        if s[i] == '.' || s[i] == 'e' || s[i] == 'E' {
            assert(s@[i as int] == s@[i as int]);
            return true;
        }
        i = i + 1;
    }
    false
}

fn read_item(raw: &[char]) -> (r: ItemExec)
    ensures
        r@ == item(raw@),
{
    let p: Vec<char> = trim(raw);
    let n: usize = p.len();
    if n == 0 {
        return ItemExec::Skip;
    }
    if n >= 2 && p[0] == '"' && p[n - 1] == '"' {
        return ItemExec::Text(part(&p, 1, n - 1));
    }
    match split_range(&p) {
        Some((lo, hi)) => {
            return ItemExec::Range(lo, hi);
        },
        None => {},
    }
    if is_float_like(&p) {
        ItemExec::Float(p)
    } else {
        match parse_i64(&p) {
            Some(k) => ItemExec::Int(k),
            None => ItemExec::Bad(p),
        }
    }
}

/// Appends the integers from `lo` up to `hi`.
fn push_range(values: &mut Vec<FactorValue>, lo: i64, hi: i64)
    requires
        lo <= hi,
    ensures
        value_views(final(values)@) == value_views(old(values)@) + range_values(
            lo as int,
            hi as int,
        ),
{
    let ghost before = value_views(values@);
    let mut n: i64 = lo;
    loop
        invariant
            lo <= n <= hi,
            before == value_views(old(values)@),
            value_views(values@) =~= before + range_values(lo as int, n - 1),
        decreases hi - n,
    {
        let ghost v = value_views(values@);
        values.push(FactorValue::Int(n));
        assert(value_views(values@) =~= v.push(ValueView::Int(n as int)));
        assert(value_views(values@) =~= before + range_values(lo as int, n as int));
        if n == hi {
            return ;
        }
        n = n + 1;
    }
}

fn push_value(values: &mut Vec<FactorValue>, v: FactorValue)
    ensures
        value_views(final(values)@) == value_views(old(values)@).push(v@),
{
    let ghost before = value_views(values@);
    let ghost view = v@;
    values.push(v);
    assert(value_views(values@) =~= before.push(view));
}

fn missing(t: &[char]) -> (e: Error)
    ensures
        e@ == missing_numbers(t@),
{
    let s: String = string_of(t);
    Error::of3("factor spec '", s.as_str(), "': its numbers were not given")
}

fn parse_discrete(spec: &[char], parts: &Vec<Vec<char>>, numbers: &Numbers) -> (r: Result<
    Vec<FactorValue>,
    Error,
>)
    ensures
        ({
            let floats = match numbers@ {
                NumbersView::Floats(f) => f,
                _ => Seq::empty(),
            };
            match r {
                Ok(values) => discrete_values(
                    spec@,
                    texts(parts@),
                    0,
                    Seq::empty(),
                    0,
                    floats,
                ) == Ok::<Seq<ValueView>, Seq<char>>(value_views(values@)),
                Err(e) => discrete_values(spec@, texts(parts@), 0, Seq::empty(), 0, floats)
                    == Err::<Seq<ValueView>, Seq<char>>(e@),
            }
        }),
{
    let ghost floats = match numbers@ {
        NumbersView::Floats(f) => f,
        _ => Seq::empty(),
    };
    let ghost all = texts(parts@);
    let mut values: Vec<FactorValue> = Vec::new();
    let mut used: usize = 0;
    let mut i: usize = 0;
    assert(value_views(values@) =~= Seq::empty());
    while i < parts.len()
        invariant
            i <= parts@.len(),
            all == texts(parts@),
            used <= i,
            floats == (match numbers@ {
                NumbersView::Floats(f) => f,
                _ => Seq::empty(),
            }),
            discrete_values(spec@, all, 0, Seq::empty(), 0, floats) == discrete_values(
                spec@,
                all,
                i as nat,
                value_views(values@),
                used as nat,
                floats,
            ),
        decreases parts@.len() - i,
    {
        assert(all[i as int] == parts@[i as int]@);
        match read_item(&parts[i]) {
            ItemExec::Skip => {},
            ItemExec::Text(t) => {
                push_value(&mut values, FactorValue::Text(string_of(&t)));
            },
            ItemExec::Range(lo, hi) => {
                if lo > hi {
                    let (a, b): (String, String) = (signed_text(lo), signed_text(hi));
                    return Err(Error::of5("invalid range ", a.as_str(), "..", b.as_str(), ""));
                }
                push_range(&mut values, lo, hi);
            },
            ItemExec::Int(n) => {
                push_value(&mut values, FactorValue::Int(n));
            },
            ItemExec::Bad(p) => {
                let s: String = string_of(&p);
                return Err(Error::of3("integer '", s.as_str(), "'"));
            },
            ItemExec::Float(p) => match numbers {
                Numbers::Floats(f) => {
                    if used >= f.len() {
                        return Err(missing(spec));
                    }
                    assert(floats[used as int] == float_view(f@[used as int]));
                    match &f[used] {
                        None => {
                            let s: String = string_of(&p);
                            return Err(Error::of3("float '", s.as_str(), "'"));
                        },
                        Some(x) => {
                            push_value(
                                &mut values,
                                FactorValue::Float(
                                    FloatLevel { bits: x.bits, text: x.text.clone() },
                                ),
                            );
                            used = used + 1;
                        },
                    }
                },
                _ => {
                    return Err(missing(spec));
                },
            },
        }
        i = i + 1;
    }
    Ok(values)
}

/// The position of the first `c`.
pub fn find_char(s: &[char], c: char) -> (r: Option<usize>)
    ensures
        match r {
            Some(i) => position(s@, c, 0) == Some(i as nat) && i < s@.len() && s@[i as int] == c,
            None => position(s@, c, 0) is None,
        },
{
    let mut i: usize = 0;
    while i < s.len()
        invariant
            i <= s@.len(),
            position(s@, c, 0) == position(s@, c, i as nat),
        decreases s@.len() - i,
    {
        if s[i] == c {
            return Some(i);
        }
        i = i + 1;
    }
    None
}

/// Reads the word before the bracket and the items inside it.
fn read_spec(t: &Vec<char>) -> (r: Result<(Vec<char>, Vec<Vec<char>>), Error>)
    requires
        exists|spec: Seq<char>| t@ == #[trigger] trimmed(spec),
    ensures
        forall|spec: Seq<char>|
            t@ == #[trigger] trimmed(spec) ==> match r {
                Ok((kind, parts)) => spec_parts(spec) == Ok::<
                    (Seq<char>, Seq<Seq<char>>),
                    Seq<char>,
                >((kind@, texts(parts@))),
                Err(e) => spec_parts(spec) == Err::<(Seq<char>, Seq<Seq<char>>), Seq<char>>(e@),
            },
{
    match find_char(t, '[') {
        None => {
            let s: String = string_of(t);
            Err(Error::of3("factor spec '", s.as_str(), "': missing '['"))
        },
        Some(open) => {
            let n: usize = t.len();
            if t[n - 1] != ']' {
                let s: String = string_of(t);
                return Err(Error::of3("factor spec '", s.as_str(), "': must end with ']'"));
            }
            let head: Vec<char> = part(t, 0, open);
            assert(head@ =~= t@.take(open as int));
            let inner: Vec<char> = part(t, open + 1, n - 1);
            Ok((trim(&head), split(&inner, ',')))
        },
    }
}

fn read_scale(kind: &[char]) -> (r: Option<Scale>)
    ensures
        r == scale_named(kind@),
{
    if is_text(kind, "uniform") {
        Some(Scale::Uniform)
    } else if is_text(kind, "normal") {
        Some(Scale::Normal)
    } else if is_text(kind, "logLow") || is_text(kind, "log_low") {
        Some(Scale::LogLow)
    } else if is_text(kind, "logHigh") || is_text(kind, "log_high") {
        Some(Scale::LogHigh)
    } else {
        None
    }
}

fn read_args(parts: &Vec<Vec<char>>) -> (args: Vec<String>)
    ensures
        crate::text::views(args@) == scale_args(texts(parts@), parts@.len()),
{
    let ghost all = texts(parts@);
    let mut args: Vec<String> = Vec::new();
    let mut i: usize = 0;
    while i < parts.len()
        invariant
            i <= parts@.len(),
            all == texts(parts@),
            crate::text::views(args@) =~= scale_args(all, i as nat),
        decreases parts@.len() - i,
    {
        assert(all[i as int] == parts@[i as int]@);
        let a: Vec<char> = trim(&parts[i]);
        if a.len() > 0 {
            let ghost before = crate::text::views(args@);
            let s: String = string_of(&a);
            args.push(s);
            assert(crate::text::views(args@) =~= before.push(a@));
        }
        i = i + 1;
    }
    args
}

fn min_args(scale: Scale) -> (n: usize)
    ensures
        n == scale_min(scale),
{
    match scale {
        Scale::Normal => 4,
        _ => 3,
    }
}

fn max_args(scale: Scale) -> (n: usize)
    ensures
        n == scale_max(scale),
{
    match scale {
        Scale::Uniform => 3,
        Scale::Normal => 5,
        _ => 4,
    }
}

fn wrong_arg_count(scale: Scale, got: usize) -> (e: Error)
    ensures
        e@ == wrong_args(scale, got as nat),
{
    let name: &str = match scale {
        Scale::Uniform => "uniform",
        Scale::Normal => "normal",
        Scale::LogLow => "logLow",
        Scale::LogHigh => "logHigh",
    };
    let lo: String = decimal_text(min_args(scale));
    let mut rest: String = decimal_text(max_args(scale));
    rest.append(" args, got ");
    push_decimal(&mut rest, got as u64);
    assert(rest@ =~= decimal(scale_max(scale)) + " args, got "@ + decimal(got as nat));
    Error::of5(name, " expects ", lo.as_str(), "..", rest.as_str())
}

fn does_fit(kind: FactorKind, scale: Scale) -> (r: bool)
    ensures
        r == kind_fits(kind, scale),
{
    match (kind, scale) {
        (FactorKind::Uniform { .. }, Scale::Uniform) => true,
        (FactorKind::Normal { .. }, Scale::Normal) => true,
        (FactorKind::LogLow { .. }, Scale::LogLow) => true,
        (FactorKind::LogHigh { .. }, Scale::LogHigh) => true,
        _ => false,
    }
}

fn copy_levels(levels: &Vec<FloatLevel>) -> (values: Vec<FactorValue>)
    ensures
        value_views(values@) == float_values(levels@),
{
    let mut values: Vec<FactorValue> = Vec::new();
    let mut i: usize = 0;
    while i < levels.len()
        invariant
            i <= levels@.len(),
            value_views(values@) =~= float_values(levels@).take(i as int),
        decreases levels@.len() - i,
    {
        let x: &FloatLevel = &levels[i];
        push_value(
            &mut values,
            FactorValue::Float(FloatLevel { bits: x.bits, text: x.text.clone() }),
        );
        assert(float_values(levels@).take(i + 1) =~= float_values(levels@).take(i as int).push(
            float_values(levels@)[i as int],
        ));
        i = i + 1;
    }
    assert(float_values(levels@).take(i as int) =~= float_values(levels@));
    values
}

/// Kind and levels of a spec, given the numbers that it asks for.
fn read_levels(spec: &str, t: &Vec<char>, numbers: &Numbers) -> (r: Result<
    (FactorKind, Vec<FactorValue>),
    Error,
>)
    requires
        t@ == trimmed(spec@),
    ensures
        match r {
            Ok((kind, values)) => spec_levels(spec@, numbers@) == Ok::<
                (FactorKind, Seq<ValueView>),
                Seq<char>,
            >((kind, value_views(values@))),
            Err(e) => spec_levels(spec@, numbers@) == Err::<
                (FactorKind, Seq<ValueView>),
                Seq<char>,
            >(e@),
        },
{
    let (kind, parts): (Vec<char>, Vec<Vec<char>>) = match read_spec(t) {
        Err(e) => {
            return Err(e);
        },
        Ok(found) => found,
    };
    if is_text(&kind, "d") || is_text(&kind, "discrete") {
        return match parse_discrete(t, &parts, numbers) {
            Ok(values) => Ok((FactorKind::Discrete, values)),
            Err(e) => Err(e),
        };
    }
    match read_scale(&kind) {
        None => {
            let s: String = string_of(&kind);
            Err(
                Error::of3(
                    "unknown factor kind '",
                    s.as_str(),
                    "'. expected one of: d, uniform, normal, logLow, logHigh",
                ),
            )
        },
        Some(scale) => {
            let args: Vec<String> = read_args(&parts);
            assert(crate::text::views(args@).len() == args@.len());
            if args.len() < min_args(scale) || args.len() > max_args(scale) {
                return Err(wrong_arg_count(scale, args.len()));
            }
            match numbers {
                Numbers::Levels(Ok(n)) => {
                    if does_fit(n.kind, scale) {
                        Ok((n.kind, copy_levels(&n.levels)))
                    } else {
                        Err(missing(t))
                    }
                },
                Numbers::Levels(Err(e)) => Err(Error { message: e.message.clone() }),
                _ => Err(missing(t)),
            }
        },
    }
}

impl Factor {
    /// Number of levels.
    pub fn level_count(&self) -> (n: usize)
        ensures
            n == self@.values.len(),
            n == self.values@.len(),
    {
        self.values.len()
    }

    /// Reads a factor, given the numbers that its spec asks for (see `request`).
    pub fn parse(name: &str, spec: &str, numbers: &Numbers) -> (r: Result<Factor, Error>)
        ensures
            match r {
                Ok(f) => factor_of(name@, spec@, numbers@) == Ok::<FactorView, Seq<char>>(f@),
                Err(e) => factor_of(name@, spec@, numbers@) == Err::<FactorView, Seq<char>>(e@),
            },
    {
        let raw: Vec<char> = chars_of(spec);
        let t: Vec<char> = trim(&raw);
        match read_levels(spec, &t, numbers) {
            Err(e) => Err(e),
            Ok((kind, values)) => {
                assert(value_views(values@).len() == values@.len());
                if values.len() < 2 {
                    let n: String = decimal_text(values.len());
                    return Err(
                        Error::of5(
                            "factor '",
                            name,
                            "': must have ≥ 2 levels (got ",
                            n.as_str(),
                            ")",
                        ),
                    );
                }
                Ok(Factor { name: name.to_owned(), spec: string_of(&t), kind, values })
            },
        }
    }

    /// The numbers that a spec asks for.
    pub fn request(spec: &str) -> (r: Request)
        ensures
            r@ == request_of(spec@),
    {
        let raw: Vec<char> = chars_of(spec);
        let t: Vec<char> = trim(&raw);
        let (kind, parts): (Vec<char>, Vec<Vec<char>>) = match read_spec(&t) {
            Err(_) => {
                return Request::Nothing;
            },
            Ok(found) => found,
        };
        let ghost all = texts(parts@);
        if is_text(&kind, "d") || is_text(&kind, "discrete") {
            let mut out: Vec<String> = Vec::new();
            let mut i: usize = 0;
            while i < parts.len()
                invariant
                    i <= parts@.len(),
                    all == texts(parts@),
                    crate::text::views(out@) =~= float_texts(all, i as nat),
                decreases parts@.len() - i,
            {
                assert(all[i as int] == parts@[i as int]@);
                match read_item(&parts[i]) {
                    ItemExec::Float(p) => {
                        let ghost before = crate::text::views(out@);
                        let s: String = string_of(&p);
                        out.push(s);
                        assert(crate::text::views(out@) =~= before.push(p@));
                    },
                    _ => {},
                }
                i = i + 1;
            }
            assert(crate::text::views(out@).len() == out@.len());
            if out.len() == 0 {
                return Request::Nothing;
            }
            return Request::Floats(out);
        }
        match read_scale(&kind) {
            None => Request::Nothing,
            Some(scale) => {
                let args: Vec<String> = read_args(&parts);
                assert(crate::text::views(args@).len() == args@.len());
                if args.len() < min_args(scale) || args.len() > max_args(scale) {
                    Request::Nothing
                } else {
                    Request::Levels { scale, args }
                }
            },
        }
    }

    /// A copy of the factor.
    pub fn copy(&self) -> (f: Factor)
        ensures
            f@ == self@,
    {
        Factor {
            name: self.name.clone(),
            spec: self.spec.clone(),
            kind: self.kind,
            values: copy_values(&self.values),
        }
    }
}

/// A copy of a list of levels.
pub fn copy_values(values: &Vec<FactorValue>) -> (out: Vec<FactorValue>)
    ensures
        value_views(out@) == value_views(values@),
{
    let mut out: Vec<FactorValue> = Vec::new();
    let mut i: usize = 0;
    while i < values.len()
        invariant
            i <= values@.len(),
            value_views(out@) =~= value_views(values@).take(i as int),
        decreases values@.len() - i,
    {
        push_value(&mut out, values[i].copy());
        assert(value_views(values@).take(i + 1) =~= value_views(values@).take(i as int).push(
            value_views(values@)[i as int],
        ));
        i = i + 1;
    }
    assert(value_views(values@).take(i as int) =~= value_views(values@));
    out
}

} // verus!
