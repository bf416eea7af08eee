//! The calendar timestamp at hour granularity and its canonical key codec.
//!
//! The canonical key is the fixed-width string `YYYY-MM-DD Hhh`: a four digit
//! year, zero-padded month and day, a space, a literal `H`, and a zero-padded
//! two digit hour. The fixed width makes lexicographic order on keys agree
//! with chronological order on the timestamps they encode.

use vstd::prelude::*;

use crate::text::{
    all_digits, chars_to_string, digit_of, digits_val, lemma_digits_val_bound, lemma_lex_digits,
    lemma_lex_concat, lemma_padded2, lemma_padded4, lemma_padded_inverse, lemma_padded_props,
    lemma_pow10_small, lex_lt, padded, span_value, str_chars,
};

verus! {

/// A malformed canonical key, or a malformed numeric operand.
#[derive(Clone, Copy, PartialEq, Eq, Structural, Debug)]
pub struct ParseError;

/// A timestamp decomposed into calendar components, at hour granularity.
#[derive(Clone, Copy, PartialEq, Eq, Structural, Debug)]
pub struct Timestamp {
    /// Four-digit year, `0..=9999`.
    pub year: u16,
    /// Month of the year, `1..=12`.
    pub month: u8,
    /// Day of the month, `1..=31`.
    pub day: u8,
    /// Hour of the day, `0..=23`.
    pub hour: u8,
}

/// The canonical key encoding a timestamp.
pub open spec fn key_of(ts: Timestamp) -> Seq<char> {
    padded(ts.year as int, 4) + seq!['-'] + padded(ts.month as int, 2) + seq!['-'] + padded(
        ts.day as int,
        2,
    ) + seq![' ', 'H'] + padded(ts.hour as int, 2)
}

/// The year a canonical key carries.
pub open spec fn key_year(s: Seq<char>) -> int {
    digits_val(s.subrange(0, 4))
}

/// The month a canonical key carries.
pub open spec fn key_month(s: Seq<char>) -> int {
    digits_val(s.subrange(5, 7))
}

/// The day a canonical key carries.
pub open spec fn key_day(s: Seq<char>) -> int {
    digits_val(s.subrange(8, 10))
}

/// The hour a canonical key carries.
pub open spec fn key_hour(s: Seq<char>) -> int {
    digits_val(s.subrange(12, 14))
}

/// Whether a string is a well-formed canonical key.
pub open spec fn canonical_key(s: Seq<char>) -> bool {
    &&& s.len() == 14
    &&& all_digits(s.subrange(0, 4))
    &&& s[4] == '-'
    &&& all_digits(s.subrange(5, 7))
    &&& s[7] == '-'
    &&& all_digits(s.subrange(8, 10))
    &&& s[10] == ' '
    &&& s[11] == 'H'
    &&& all_digits(s.subrange(12, 14))
    &&& 1 <= key_month(s) <= 12
    &&& 1 <= key_day(s) <= 31
    &&& key_hour(s) <= 23
}

/// The timestamp a canonical key decodes to.
pub open spec fn decoded(s: Seq<char>) -> Timestamp {
    Timestamp {
        year: key_year(s) as u16,
        month: key_month(s) as u8,
        day: key_day(s) as u8,
        hour: key_hour(s) as u8,
    }
}

/// Strict chronological order at hour granularity.
pub open spec fn ts_lt(a: Timestamp, b: Timestamp) -> bool {
    ||| a.year < b.year
    ||| (a.year == b.year && a.month < b.month)
    ||| (a.year == b.year && a.month == b.month && a.day < b.day)
    ||| (a.year == b.year && a.month == b.month && a.day == b.day && a.hour < b.hour)
}

/// Whether a year has a February 29th.
pub open spec fn is_leap_year(y: int) -> bool {
    y % 4 == 0 && (y % 100 != 0 || y % 400 == 0)
}

/// The number of days in a month.
pub open spec fn days_in_month(year: int, month: int) -> int
    recommends
        1 <= month <= 12,
{
    if month == 2 {
        if is_leap_year(year) {
            29
        } else {
            28
        }
    } else if month == 4 || month == 6 || month == 9 || month == 11 {
        30
    } else {
        31
    }
}

/// The timestamp exactly one hour earlier.
pub open spec fn prev_hour(ts: Timestamp) -> Timestamp
    recommends
        ts.wf(),
        ts != (Timestamp { year: 0, month: 1, day: 1, hour: 0 }),
{
    if ts.hour > 0 {
        Timestamp { hour: (ts.hour - 1) as u8, ..ts }
    } else if ts.day > 1 {
        Timestamp { day: (ts.day - 1) as u8, hour: 23, ..ts }
    } else if ts.month > 1 {
        Timestamp {
            month: (ts.month - 1) as u8,
            day: days_in_month(ts.year as int, ts.month - 1) as u8,
            hour: 23,
            ..ts
        }
    } else {
        Timestamp { year: (ts.year - 1) as u16, month: 12, day: 31, hour: 23 }
    }
}

impl Timestamp {
    /// The component ranges that a canonical key can carry.
    pub open spec fn wf(self) -> bool {
        &&& self.year <= 9999
        &&& 1 <= self.month <= 12
        &&& 1 <= self.day <= 31
        &&& self.hour <= 23
    }

    /// A timestamp from its components, or `None` where one is out of range.
    pub fn new(year: u16, month: u8, day: u8, hour: u8) -> (r: Option<Timestamp>)
        ensures
            match r {
                Some(ts) => ts == (Timestamp { year, month, day, hour }) && ts.wf(),
                None => !(Timestamp { year, month, day, hour }).wf(),
            },
    {
        if year <= 9999 && 1 <= month && month <= 12 && 1 <= day && day <= 31 && hour <= 23 {
            Some(Timestamp { year, month, day, hour })
        } else {
            None
        }
    }

    /// Renders the canonical key for this timestamp.
    pub fn encode(&self) -> (r: String)
        requires
            self.wf(),
        ensures
            r@ == key_of(*self),
    {
        let mut v: Vec<char> = Vec::new();
        v.push(digit_of((self.year / 1000) as u8));
        v.push(digit_of(((self.year / 100) % 10) as u8));
        v.push(digit_of(((self.year / 10) % 10) as u8));
        v.push(digit_of((self.year % 10) as u8));
        v.push('-');
        v.push(digit_of(self.month / 10));
        v.push(digit_of(self.month % 10));
        v.push('-');
        v.push(digit_of(self.day / 10));
        v.push(digit_of(self.day % 10));
        v.push(' ');
        v.push('H');
        v.push(digit_of(self.hour / 10));
        v.push(digit_of(self.hour % 10));
        proof {
            lemma_padded4(self.year as int);
            lemma_padded2(self.month as int);
            lemma_padded2(self.day as int);
            lemma_padded2(self.hour as int);
            assert(v@ =~= key_of(*self));
        }
        chars_to_string(&v)
    }

    /// Parses a canonical key; a string in any other shape is a `ParseError`.
    pub fn decode(s: &str) -> (r: Result<Timestamp, ParseError>)
        ensures
            match r {
                Ok(ts) => canonical_key(s@) && ts == decoded(s@) && ts.wf(),
                Err(_) => !canonical_key(s@),
            },
    {
        let v = str_chars(s);
        if v.len() != 14 {
            return Err(ParseError);
        }
        if !(v[4] == '-' && v[7] == '-' && v[10] == ' ' && v[11] == 'H') {
            return Err(ParseError);
        }
        proof {
            lemma_pow10_small();
        }
        let year = match span_value(v.as_slice(), 0, 4) {
            Some(n) => n,
            None => {
                proof {
                    if all_digits(s@.subrange(0, 4)) {
                        lemma_digits_val_small(s@, 0, 4);
                    }
                }
                return Err(ParseError);
            },
        };
        let month = match span_value(v.as_slice(), 5, 7) {
            Some(n) => n,
            None => {
                proof {
                    if all_digits(s@.subrange(5, 7)) {
                        lemma_digits_val_small(s@, 5, 7);
                    }
                }
                return Err(ParseError);
            },
        };
        let day = match span_value(v.as_slice(), 8, 10) {
            Some(n) => n,
            None => {
                proof {
                    if all_digits(s@.subrange(8, 10)) {
                        lemma_digits_val_small(s@, 8, 10);
                    }
                }
                return Err(ParseError);
            },
        };
        let hour = match span_value(v.as_slice(), 12, 14) {
            Some(n) => n,
            None => {
                proof {
                    if all_digits(s@.subrange(12, 14)) {
                        lemma_digits_val_small(s@, 12, 14);
                    }
                }
                return Err(ParseError);
            },
        };
        proof {
            lemma_digits_val_bound(s@.subrange(0, 4));
            lemma_digits_val_bound(s@.subrange(5, 7));
            lemma_digits_val_bound(s@.subrange(8, 10));
            lemma_digits_val_bound(s@.subrange(12, 14));
        }
        if month < 1 || month > 12 {
            return Err(ParseError);
        }
        if day < 1 || day > 31 {
            return Err(ParseError);
        }
        if hour > 23 {
            return Err(ParseError);
        }
        Ok(
            Timestamp {
                year: year as u16,
                month: month as u8,
                day: day as u8,
                hour: hour as u8,
            },
        )
    }

    /// The timestamp exactly one hour earlier, calendar-aware.
    pub fn previous_hour(&self) -> (r: Timestamp)
        requires
            self.wf(),
            *self != (Timestamp { year: 0, month: 1, day: 1, hour: 0 }),
        ensures
            r == prev_hour(*self),
            r.wf(),
    {
        if self.hour > 0 {
            Timestamp { hour: self.hour - 1, ..*self }
        } else if self.day > 1 {
            Timestamp { day: self.day - 1, hour: 23, ..*self }
        } else if self.month > 1 {
            let m = self.month - 1;
            let d = if m == 2 {
                if (self.year % 4 == 0) && (self.year % 100 != 0 || self.year % 400 == 0) {
                    29
                } else {
                    28
                }
            } else if m == 4 || m == 6 || m == 9 || m == 11 {
                30
            } else {
                31
            };
            Timestamp { month: m, day: d, hour: 23, ..*self }
        } else {
            Timestamp { year: self.year - 1, month: 12, day: 31, hour: 23 }
        }
    }
}

/// A two- or four-digit span reads as a small value, so the span reader can
/// never have failed on it for overflow.
proof fn lemma_digits_val_small(s: Seq<char>, from: int, to: int)
    requires
        0 <= from < to <= s.len(),
        to - from == 2 || to - from == 4,
        all_digits(s.subrange(from, to)),
    ensures
        0 <= digits_val(s.subrange(from, to)) <= 9999,
{
    lemma_digits_val_bound(s.subrange(from, to));
    lemma_pow10_small();
    assert(s.subrange(from, to).len() == to - from);
}

/// Decoding a well-formed canonical key and re-encoding it reproduces the
/// key, character for character.
pub proof fn lemma_key_roundtrip(s: Seq<char>)
    requires
        canonical_key(s),
    ensures
        decoded(s).wf(),
        key_of(decoded(s)) == s,
{
    lemma_digits_val_bound(s.subrange(0, 4));
    lemma_digits_val_bound(s.subrange(5, 7));
    lemma_digits_val_bound(s.subrange(8, 10));
    lemma_digits_val_bound(s.subrange(12, 14));
    lemma_pow10_small();
    let ts = decoded(s);
    lemma_padded_inverse(s.subrange(0, 4));
    lemma_padded_inverse(s.subrange(5, 7));
    lemma_padded_inverse(s.subrange(8, 10));
    lemma_padded_inverse(s.subrange(12, 14));
    assert(padded(ts.year as int, 4) == s.subrange(0, 4));
    assert(padded(ts.month as int, 2) == s.subrange(5, 7));
    assert(padded(ts.day as int, 2) == s.subrange(8, 10));
    assert(padded(ts.hour as int, 2) == s.subrange(12, 14));
    assert(key_of(ts) =~= s);
}

/// Every well-formed timestamp's key is canonical and decodes back to it.
pub proof fn lemma_key_of_canonical(ts: Timestamp)
    requires
        ts.wf(),
    ensures
        canonical_key(key_of(ts)),
        key_of(ts).len() == 14,
        decoded(key_of(ts)) == ts,
{
    lemma_pow10_small();
    lemma_padded_props(ts.year as int, 4);
    lemma_padded_props(ts.month as int, 2);
    lemma_padded_props(ts.day as int, 2);
    lemma_padded_props(ts.hour as int, 2);
    let s = key_of(ts);
    assert(s.subrange(0, 4) =~= padded(ts.year as int, 4));
    assert(s.subrange(5, 7) =~= padded(ts.month as int, 2));
    assert(s.subrange(8, 10) =~= padded(ts.day as int, 2));
    assert(s.subrange(12, 14) =~= padded(ts.hour as int, 2));
}

/// Lexicographic order of two canonical keys is chronological order of the
/// timestamps they decode to.
pub proof fn lemma_key_order(s: Seq<char>, t: Seq<char>)
    requires
        canonical_key(s),
        canonical_key(t),
    ensures
        lex_lt(s, t) <==> ts_lt(decoded(s), decoded(t)),
{
    lemma_key_roundtrip(s);
    lemma_key_roundtrip(t);
    let a = decoded(s);
    let b = decoded(t);
    let ya = padded(a.year as int, 4);
    let yb = padded(b.year as int, 4);
    let ma = padded(a.month as int, 2);
    let mb = padded(b.month as int, 2);
    let da = padded(a.day as int, 2);
    let db = padded(b.day as int, 2);
    let ha = padded(a.hour as int, 2);
    let hb = padded(b.hour as int, 2);
    lemma_pow10_small();
    lemma_padded_props(a.year as int, 4);
    lemma_padded_props(b.year as int, 4);
    lemma_padded_props(a.month as int, 2);
    lemma_padded_props(b.month as int, 2);
    lemma_padded_props(a.day as int, 2);
    lemma_padded_props(b.day as int, 2);
    lemma_padded_props(a.hour as int, 2);
    lemma_padded_props(b.hour as int, 2);
    let ra = seq!['-'] + (ma + (seq!['-'] + (da + (seq![' ', 'H'] + ha))));
    let rb = seq!['-'] + (mb + (seq!['-'] + (db + (seq![' ', 'H'] + hb))));
    assert(s =~= ya + ra);
    assert(t =~= yb + rb);
    lemma_lex_concat(ya, yb, ra, rb);
    lemma_lex_digits(ya, yb);
    assert((ya == yb) <==> a.year == b.year) by {
        if ya == yb {
            assert(digits_val(ya) == digits_val(yb));
        }
    }
    lemma_lex_concat(seq!['-'], seq!['-'], ma + (seq!['-'] + (da + (seq![' ', 'H'] + ha))), mb + (
    seq!['-'] + (db + (seq![' ', 'H'] + hb))));
    assert(!lex_lt(seq!['-'], seq!['-'])) by {
        reveal_with_fuel(lex_lt, 3);
        assert(seq!['-'].drop_first() =~= Seq::<char>::empty());
    }
    lemma_lex_concat(ma, mb, seq!['-'] + (da + (seq![' ', 'H'] + ha)), seq!['-'] + (db + (seq![
        ' ',
        'H',
    ] + hb)));
    lemma_lex_digits(ma, mb);
    assert((ma == mb) <==> a.month == b.month) by {
        if ma == mb {
            assert(digits_val(ma) == digits_val(mb));
        }
    }
    lemma_lex_concat(seq!['-'], seq!['-'], da + (seq![' ', 'H'] + ha), db + (seq![' ', 'H'] + hb));
    lemma_lex_concat(da, db, seq![' ', 'H'] + ha, seq![' ', 'H'] + hb);
    lemma_lex_digits(da, db);
    assert((da == db) <==> a.day == b.day) by {
        if da == db {
            assert(digits_val(da) == digits_val(db));
        }
    }
    lemma_lex_concat(seq![' ', 'H'], seq![' ', 'H'], ha, hb);
    assert(!lex_lt(seq![' ', 'H'], seq![' ', 'H'])) by {
        reveal_with_fuel(lex_lt, 4);
        assert(seq![' ', 'H'].drop_first() =~= seq!['H']);
        assert(seq!['H'].drop_first() =~= Seq::<char>::empty());
    }
    lemma_lex_digits(ha, hb);
    assert((ha == hb) <==> a.hour == b.hour) by {
        if ha == hb {
            assert(digits_val(ha) == digits_val(hb));
        }
    }
}

} // verus!
