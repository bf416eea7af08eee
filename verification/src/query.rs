//! The query language: conjunctive comparisons over the calendar components
//! of an entry's timestamp and over its price.
//!
//! A request is a sequence of whitespace-split tokens. Unless some token is
//! a filtering trigger word (`where` or `if`, case-insensitive), the result
//! is the empty predicate set, which accepts everything. Otherwise every
//! standalone comparator token forms a clause with the token before it as
//! field name and the token after it as operand; a clause whose field is
//! unknown or whose operand does not read as the field's type is dropped,
//! and a later clause for a field replaces an earlier one.

use vstd::prelude::*;

use crate::price::{parse_price_span, parse_price_spec};
use crate::text::{
    all_digits, digits_val, eq_ignore_case, lemma_digits_val_nonneg, lower, span_value, str_chars,
    str_eq,
};
use crate::timestamp::Timestamp;

verus! {

/// A comparison operator.
#[derive(Clone, Copy, PartialEq, Eq, Structural, Debug)]
pub enum Comp {
    Lesser,
    LesserEqual,
    Equal,
    GreaterEqual,
    Greater,
}

/// A field an entry can be filtered on.
#[derive(Clone, Copy, PartialEq, Eq, Structural, Debug)]
pub enum Field {
    Year,
    Month,
    Day,
    Hour,
    Price,
}

/// One comparison clause: a comparator and its right-hand operand.
///
/// Calendar operands hold the component value; price operands hold
/// micro-units.
#[derive(Clone, Copy, PartialEq, Eq, Structural, Debug)]
pub struct Clause {
    pub comp: Comp,
    pub rhs: i64,
}

/// At most one clause per field, combined by logical AND; an absent clause
/// rejects nothing.
#[derive(Clone, Copy, PartialEq, Eq, Structural, Debug)]
pub struct PredicateSet {
    pub year: Option<Clause>,
    pub month: Option<Clause>,
    pub day: Option<Clause>,
    pub hour: Option<Clause>,
    pub price: Option<Clause>,
}

/// The predicate set with no clauses.
pub open spec fn empty_set() -> PredicateSet {
    PredicateSet { year: None, month: None, day: None, hour: None, price: None }
}

/// `a < b`.
pub fn lesser(a: i64, b: i64) -> (r: bool)
    ensures
        r == (a < b),
{
    a < b
}

/// `a <= b`.
pub fn lesser_equal(a: i64, b: i64) -> (r: bool)
    ensures
        r == (a <= b),
{
    a <= b
}

/// `a == b`.
pub fn equal(a: i64, b: i64) -> (r: bool)
    ensures
        r == (a == b),
{
    a == b
}

/// `a >= b`.
pub fn greater_equal(a: i64, b: i64) -> (r: bool)
    ensures
        r == (a >= b),
{
    a >= b
}

/// `a > b`.
pub fn greater(a: i64, b: i64) -> (r: bool)
    ensures
        r == (a > b),
{
    a > b
}

/// What a comparator says of `a` against `b`.
pub open spec fn comp_eval(c: Comp, a: int, b: int) -> bool {
    match c {
        Comp::Lesser => a < b,
        Comp::LesserEqual => a <= b,
        Comp::Equal => a == b,
        Comp::GreaterEqual => a >= b,
        Comp::Greater => a > b,
    }
}

/// The comparator a standalone token denotes, if any.
pub open spec fn comp_of_token(s: Seq<char>) -> Option<Comp> {
    if s == "<"@ {
        Some(Comp::Lesser)
    } else if s == "<="@ {
        Some(Comp::LesserEqual)
    } else if s == "=="@ {
        Some(Comp::Equal)
    } else if s == ">="@ {
        Some(Comp::GreaterEqual)
    } else if s == ">"@ {
        Some(Comp::Greater)
    } else {
        None
    }
}

impl Comp {
    /// The comparator a token denotes, if any.
    pub fn from_str(s: &str) -> (r: Option<Comp>)
        ensures
            r == comp_of_token(s@),
    {
        if str_eq(s, "<") {
            Some(Comp::Lesser)
        } else if str_eq(s, "<=") {
            Some(Comp::LesserEqual)
        } else if str_eq(s, "==") {
            Some(Comp::Equal)
        } else if str_eq(s, ">=") {
            Some(Comp::GreaterEqual)
        } else if str_eq(s, ">") {
            Some(Comp::Greater)
        } else {
            None
        }
    }
}

/// The field a token names, case-insensitively, if any.
pub open spec fn field_of(s: Seq<char>) -> Option<Field> {
    if lower(s) == "year"@ {
        Some(Field::Year)
    } else if lower(s) == "month"@ {
        Some(Field::Month)
    } else if lower(s) == "day"@ {
        Some(Field::Day)
    } else if lower(s) == "hour"@ {
        Some(Field::Hour)
    } else if lower(s) == "price"@ {
        Some(Field::Price)
    } else {
        None
    }
}

/// The largest value a calendar field can hold.
pub open spec fn field_max(f: Field) -> int {
    match f {
        Field::Year => 9999,
        Field::Month => 12,
        Field::Day => 31,
        Field::Hour => 23,
        Field::Price => 0,
    }
}

/// The smallest value a calendar field can hold.
pub open spec fn field_min(f: Field) -> int {
    match f {
        Field::Month => 1,
        Field::Day => 1,
        _ => 0,
    }
}

/// The operand a token denotes for a field: a plain integer in the calendar
/// field's domain, or a decimal price. A token outside the field's grammar
/// or domain denotes nothing, and its clause is dropped.
pub open spec fn operand_of(f: Field, s: Seq<char>) -> Option<i64> {
    match f {
        Field::Price => parse_price_spec(s),
        _ => {
            if s.len() >= 1 && all_digits(s) && field_min(f) <= digits_val(s) <= field_max(f) {
                Some(digits_val(s) as i64)
            } else {
                None
            }
        },
    }
}

/// Whether a token is a filtering trigger word.
pub open spec fn is_trigger(s: Seq<char>) -> bool {
    lower(s) == "where"@ || lower(s) == "if"@
}

/// Whether any token is a filtering trigger word.
pub open spec fn has_trigger(toks: Seq<Seq<char>>) -> bool {
    exists|i: int| 0 <= i < toks.len() && is_trigger(#[trigger] toks[i])
}

/// The clause formed at token position `i`, where a comparator stands there
/// with a known field name before it and a well-formed operand after it.
pub open spec fn clause_at(toks: Seq<Seq<char>>, i: int) -> Option<(Field, Clause)> {
    match comp_of_token(toks[i]) {
        None => None,
        Some(c) => {
            if i < 1 || i + 1 >= toks.len() {
                None
            } else {
                match field_of(toks[i - 1]) {
                    None => None,
                    Some(f) => match operand_of(f, toks[i + 1]) {
                        None => None,
                        Some(rhs) => Some((f, Clause { comp: c, rhs })),
                    },
                }
            }
        },
    }
}

/// A predicate set with one field's clause replaced.
pub open spec fn apply_clause(ps: PredicateSet, fc: Option<(Field, Clause)>) -> PredicateSet {
    match fc {
        None => ps,
        Some((f, cl)) => match f {
            Field::Year => PredicateSet { year: Some(cl), ..ps },
            Field::Month => PredicateSet { month: Some(cl), ..ps },
            Field::Day => PredicateSet { day: Some(cl), ..ps },
            Field::Hour => PredicateSet { hour: Some(cl), ..ps },
            Field::Price => PredicateSet { price: Some(cl), ..ps },
        },
    }
}

/// The predicate set accumulated over the first `n` token positions,
/// later clauses replacing earlier ones for the same field.
pub open spec fn parse_from(toks: Seq<Seq<char>>, n: int) -> PredicateSet
    decreases n,
{
    if n <= 0 {
        empty_set()
    } else {
        apply_clause(parse_from(toks, n - 1), clause_at(toks, n - 1))
    }
}

/// The predicate set a token sequence denotes: empty without a trigger
/// word, otherwise the accumulation over every position.
pub open spec fn parse_tokens(toks: Seq<Seq<char>>) -> PredicateSet {
    if has_trigger(toks) {
        parse_from(toks, toks.len() as int)
    } else {
        empty_set()
    }
}

/// The views of a token list.
pub open spec fn token_views(toks: Seq<String>) -> Seq<Seq<char>> {
    toks.map_values(|t: String| t@)
}

/// What an optional clause says of a component value.
pub open spec fn clause_eval(cl: Option<Clause>, a: int) -> bool {
    match cl {
        None => true,
        Some(c) => comp_eval(c.comp, a, c.rhs as int),
    }
}

/// Whether an entry passes a predicate set: the conjunction of its present
/// clauses over the decomposed timestamp and the price.
pub open spec fn eval_spec(ps: PredicateSet, ts: Timestamp, price: i64) -> bool {
    &&& clause_eval(ps.year, ts.year as int)
    &&& clause_eval(ps.month, ts.month as int)
    &&& clause_eval(ps.day, ts.day as int)
    &&& clause_eval(ps.hour, ts.hour as int)
    &&& clause_eval(ps.price, price as int)
}

impl PredicateSet {
    /// The predicate set with no clauses.
    pub fn empty() -> (r: PredicateSet)
        ensures
            r == empty_set(),
    {
        PredicateSet { year: None, month: None, day: None, hour: None, price: None }
    }

    /// Whether the entry with this decomposed timestamp and price passes.
    pub fn evaluate(&self, ts: Timestamp, price: i64) -> (r: bool)
        ensures
            r == eval_spec(*self, ts, price),
    {
        let ok = eval_clause(&self.year, ts.year as i64) && eval_clause(
            &self.month,
            ts.month as i64,
        ) && eval_clause(&self.day, ts.day as i64) && eval_clause(&self.hour, ts.hour as i64)
            && eval_clause(&self.price, price);
        ok
    }
}

/// Whether a component value passes one optional clause.
fn eval_clause(cl: &Option<Clause>, a: i64) -> (r: bool)
    ensures
        r == clause_eval(*cl, a as int),
{
    match cl {
        None => true,
        Some(c) => match c.comp {
            Comp::Lesser => lesser(a, c.rhs),
            Comp::LesserEqual => lesser_equal(a, c.rhs),
            Comp::Equal => equal(a, c.rhs),
            Comp::GreaterEqual => greater_equal(a, c.rhs),
            Comp::Greater => greater(a, c.rhs),
        },
    }
}

/// Whether a token is a trigger word.
fn is_trigger_token(s: &str) -> (r: bool)
    ensures
        r == is_trigger(s@),
{
    eq_ignore_case(s, "where") || eq_ignore_case(s, "if")
}

/// The field a token names, if any.
fn field_token(s: &str) -> (r: Option<Field>)
    ensures
        r == field_of(s@),
{
    if eq_ignore_case(s, "year") {
        Some(Field::Year)
    } else if eq_ignore_case(s, "month") {
        Some(Field::Month)
    } else if eq_ignore_case(s, "day") {
        Some(Field::Day)
    } else if eq_ignore_case(s, "hour") {
        Some(Field::Hour)
    } else if eq_ignore_case(s, "price") {
        Some(Field::Price)
    } else {
        None
    }
}

/// Reads a field's operand from a token.
fn operand_token(f: Field, s: &str) -> (r: Option<i64>)
    ensures
        r == operand_of(f, s@),
{
    match f {
        Field::Price => {
            let v = str_chars(s);
            let n = v.len();
            let r = parse_price_span(v.as_slice(), 0, n);
            proof {
                assert(v@.subrange(0, n as int) =~= s@);
            }
            r
        },
        _ => {
            let max: u64 = match f {
                Field::Year => 9999,
                Field::Month => 12,
                Field::Day => 31,
                Field::Hour => 23,
                Field::Price => 0,
            };
            let min: u64 = match f {
                Field::Month => 1,
                Field::Day => 1,
                _ => 0,
            };
            let v = str_chars(s);
            let n = v.len();
            match span_value(v.as_slice(), 0, n) {
                Some(u) => {
                    proof {
                        assert(v@.subrange(0, n as int) =~= s@);
                    }
                    if min <= u && u <= max {
                        Some(u as i64)
                    } else {
                        None
                    }
                },
                None => {
                    proof {
                        assert(v@.subrange(0, n as int) =~= s@);
                        if n > 0 && all_digits(s@) && digits_val(s@) > u64::MAX {
                            lemma_digits_val_nonneg(s@);
                        }
                    }
                    None
                },
            }
        },
    }
}

/// Parses a token sequence into its predicate set.
pub fn parse_query(tokens: &[String]) -> (r: PredicateSet)
    ensures
        r == parse_tokens(token_views(tokens@)),
{
    let ghost toks = token_views(tokens@);
    let n = tokens.len();
    let mut triggered = false;
    let mut i: usize = 0;
    while i < n
        invariant
            n == tokens@.len(),
            toks == token_views(tokens@),
            i <= n,
            triggered == exists|j: int| 0 <= j < i && is_trigger(#[trigger] toks[j]),
        decreases n - i,
    {
        let t = is_trigger_token(tokens[i].as_str());
        proof {
            assert(toks[i as int] == tokens@[i as int]@);
        }
        if t {
            triggered = true;
            proof {
                assert(is_trigger(toks[i as int]));
            }
        } else {
            proof {
                assert(!is_trigger(toks[i as int]));
            }
        }
        i = i + 1;
    }
    if !triggered {
        return PredicateSet::empty();
    }
    let mut ps = PredicateSet::empty();
    let mut i: usize = 0;
    while i < n
        invariant
            n == tokens@.len(),
            toks == token_views(tokens@),
            i <= n,
            ps == parse_from(toks, i as int),
        decreases n - i,
    {
        match Comp::from_str(tokens[i].as_str()) {
            None => {},
            Some(c) => {
                if i >= 1 && i + 1 < n {
                    match field_token(tokens[i - 1].as_str()) {
                        None => {},
                        Some(f) => {
                            match operand_token(f, tokens[i + 1].as_str()) {
                                None => {},
                                Some(rhs) => {
                                    let cl = Clause { comp: c, rhs };
                                    ps = match f {
                                        Field::Year => PredicateSet { year: Some(cl), ..ps },
                                        Field::Month => PredicateSet { month: Some(cl), ..ps },
                                        Field::Day => PredicateSet { day: Some(cl), ..ps },
                                        Field::Hour => PredicateSet { hour: Some(cl), ..ps },
                                        Field::Price => PredicateSet { price: Some(cl), ..ps },
                                    };
                                },
                            }
                        },
                    }
                }
            },
        }
        i = i + 1;
    }
    ps
}

/// A predicate set with no clauses accepts every entry.
pub proof fn lemma_empty_accepts(ts: Timestamp, price: i64)
    ensures
        eval_spec(empty_set(), ts, price),
{
}

/// A token position that yields no clause — a comparator at the edge, an
/// unknown field name, or a malformed operand — leaves the clauses gathered
/// from the other positions untouched.
pub proof fn lemma_bad_clause_ignored(toks: Seq<Seq<char>>, i: int)
    requires
        0 <= i < toks.len(),
        clause_at(toks, i) is None,
    ensures
        parse_from(toks, i + 1) == parse_from(toks, i),
{
}

} // verus!
