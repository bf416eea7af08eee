//! Prices as fixed-point decimals.
//!
//! A price is held as a signed count of micro-units: one millionth of the
//! feed's unit. The decimal text form is an optional minus sign, the units,
//! and, where the fraction is not zero, a dot and one to six fraction digits
//! with trailing zeros trimmed. Every price renders to such a string and
//! every such string reads back to the price it came from.

use vstd::prelude::*;

use crate::text::{
    all_digits, chars_to_string, dec_digits, digits_val, lemma_dec_digits, lemma_digits_val_bound,
    lemma_digits_val_nonneg, lemma_padded_props, lemma_pow10_small, padded, pow10, push_dec,
    push_padded, span_value, str_chars,
};

verus! {

/// Micro-units in one whole price unit.
pub const PRICE_SCALE: u64 = 1000000;

/// A digit string with its trailing zero digits removed.
pub open spec fn trim_zeros(s: Seq<char>) -> Seq<char>
    decreases s.len(),
{
    if s.len() > 0 && s.last() == '0' {
        trim_zeros(s.drop_last())
    } else {
        s
    }
}

/// The magnitude of a price, as a mathematical integer of micro-units.
pub open spec fn price_mag(v: i64) -> int {
    if v < 0 {
        -(v as int)
    } else {
        v as int
    }
}

/// The canonical decimal rendering of a price in micro-units.
pub open spec fn price_text(v: i64) -> Seq<char> {
    let mag = price_mag(v);
    let sign: Seq<char> = if v < 0 {
        seq!['-']
    } else {
        Seq::empty()
    };
    let frac = mag % 1000000;
    sign + dec_digits((mag / 1000000) as nat) + if frac == 0 {
        Seq::<char>::empty()
    } else {
        seq!['.'] + trim_zeros(padded(frac, 6))
    }
}

/// The position of the first dot in `s`, or `-1` where there is none.
pub open spec fn dot_pos(s: Seq<char>) -> int
    decreases s.len(),
{
    if s.len() == 0 {
        -1
    } else if s[0] == '.' {
        0
    } else if dot_pos(s.drop_first()) < 0 {
        -1
    } else {
        dot_pos(s.drop_first()) + 1
    }
}

/// The micro-unit magnitude an unsigned decimal string denotes: digits, or
/// digits, a dot, and one to six fraction digits.
pub open spec fn micro_of(s: Seq<char>) -> Option<int> {
    let d = dot_pos(s);
    if d < 0 {
        if s.len() >= 1 && all_digits(s) {
            Some(digits_val(s) * 1000000)
        } else {
            None
        }
    } else {
        let units = s.take(d);
        let frac = s.skip(d + 1);
        if d >= 1 && all_digits(units) && 1 <= frac.len() <= 6 && all_digits(frac) {
            Some(digits_val(units) * 1000000 + digits_val(frac) * pow10((6 - frac.len()) as nat))
        } else {
            None
        }
    }
}

/// The price a decimal string denotes, in micro-units, or `None` where the
/// string is not in the decimal grammar or the value does not fit.
pub open spec fn parse_price_spec(s: Seq<char>) -> Option<i64> {
    if s.len() > 0 && s[0] == '-' {
        match micro_of(s.drop_first()) {
            Some(m) => if -m >= i64::MIN {
                Some((-m) as i64)
            } else {
                None
            },
            None => None,
        }
    } else {
        match micro_of(s) {
            Some(m) => if m <= i64::MAX {
                Some(m as i64)
            } else {
                None
            },
            None => None,
        }
    }
}

/// Where a dot stands at `i` with none before it, it is the first.
proof fn lemma_dot_pos_found(s: Seq<char>, i: int)
    requires
        0 <= i < s.len(),
        s[i] == '.',
        forall|j: int| 0 <= j < i ==> s[j] != '.',
    ensures
        dot_pos(s) == i,
    decreases i,
{
    if i > 0 {
        lemma_dot_pos_found(s.drop_first(), i - 1);
    }
}

/// A string without a dot has no dot position.
proof fn lemma_dot_pos_none(s: Seq<char>)
    requires
        forall|j: int| 0 <= j < s.len() ==> s[j] != '.',
    ensures
        dot_pos(s) == -1,
    decreases s.len(),
{
    if s.len() > 0 {
        lemma_dot_pos_none(s.drop_first());
    }
}

/// Trimming trailing zeros keeps the digits and divides out the trimmed
/// power of ten exactly.
proof fn lemma_trim_zeros(t: Seq<char>)
    requires
        all_digits(t),
    ensures
        all_digits(trim_zeros(t)),
        trim_zeros(t).len() <= t.len(),
        trim_zeros(t).len() > 0 ==> trim_zeros(t).last() != '0',
        digits_val(t) == digits_val(trim_zeros(t)) * pow10((t.len() - trim_zeros(t).len()) as nat),
    decreases t.len(),
{
    if t.len() > 0 && t.last() == '0' {
        lemma_trim_zeros(t.drop_last());
        let k = (t.len() - 1 - trim_zeros(t).len()) as nat;
        assert(digits_val(t) == digits_val(t.drop_last()) * 10);
        assert((digits_val(trim_zeros(t)) * pow10(k)) * 10 == digits_val(trim_zeros(t)) * (pow10(k)
            * 10)) by {
            vstd::arithmetic::mul::lemma_mul_is_associative(
                digits_val(trim_zeros(t)),
                pow10(k),
                10,
            );
        }
        assert(pow10(k) * 10 == pow10((k + 1) as nat));
    } else {
        assert(pow10(0) == 1);
    }
}

/// Reads a price from the characters `s[from..to]`.
pub fn parse_price_span(s: &[char], from: usize, to: usize) -> (r: Option<i64>)
    requires
        from <= to <= s@.len(),
    ensures
        r == parse_price_spec(s@.subrange(from as int, to as int)),
{
    let ghost t = s@.subrange(from as int, to as int);
    proof {
        lemma_pow10_small();
    }
    if from == to {
        return None;
    }
    let neg = s[from] == '-';
    let start = if neg {
        from + 1
    } else {
        from
    };
    let ghost m = s@.subrange(start as int, to as int);
    proof {
        if neg {
            assert(t.drop_first() =~= m);
        } else {
            assert(t =~= m);
        }
    }
    let mut i: usize = start;
    while i < to
        invariant
            start <= i <= to <= s@.len(),
            forall|j: int| start <= j < i ==> s@[j] != '.',
        ensures
            start <= i <= to <= s@.len(),
            forall|j: int| start <= j < i ==> s@[j] != '.',
            i < to ==> s@[i as int] == '.',
        decreases to - i,
    {
        if s[i] == '.' {
            break ;
        }
        i = i + 1;
    }
    let dot = i;
    let mag: u64;
    if dot == to {
        // no dot: plain digits
        proof {
            lemma_dot_pos_none(m);
        }
        match span_value(s, start, to) {
            Some(u) => {
                proof {
                    assert(m =~= s@.subrange(start as int, to as int));
                }
                match u.checked_mul(1000000) {
                    Some(w) => {
                        mag = w;
                    },
                    None => {
                        proof {
                            lemma_micro_too_big(u as int, 0, 0);
                        }
                        return None;
                    },
                }
            },
            None => {
                proof {
                    if all_digits(m) && m.len() >= 1 {
                        lemma_digits_val_nonneg(m);
                        lemma_micro_too_big(digits_val(m), 0, 0);
                    }
                }
                return None;
            },
        }
    } else {
        proof {
            assert(m[dot - start] == '.');
            lemma_dot_pos_found(m, dot - start);
            assert(m.take(dot - start) =~= s@.subrange(start as int, dot as int));
            assert(m.skip(dot - start + 1) =~= s@.subrange(dot + 1, to as int));
        }
        if dot == start {
            return None;
        }
        let flen = to - dot - 1;
        if flen < 1 || flen > 6 {
            return None;
        }
        let units = match span_value(s, start, dot) {
            Some(u) => u,
            None => {
                proof {
                    let us = s@.subrange(start as int, dot as int);
                    if all_digits(us) {
                        lemma_digits_val_nonneg(us);
                        if all_digits(m.skip(dot - start + 1)) {
                            lemma_digits_val_nonneg(m.skip(dot - start + 1));
                            vstd::arithmetic::mul::lemma_mul_nonnegative(
                                digits_val(m.skip(dot - start + 1)),
                                pow10((6 - flen) as nat),
                            );
                            lemma_micro_too_big(
                                digits_val(us),
                                digits_val(m.skip(dot - start + 1)),
                                pow10((6 - flen) as nat),
                            );
                        }
                    }
                }
                return None;
            },
        };
        let frac = match span_value(s, dot + 1, to) {
            Some(f) => f,
            None => {
                proof {
                    let fs = s@.subrange(dot + 1, to as int);
                    if all_digits(fs) {
                        lemma_digits_val_bound_len(fs, flen as int);
                    }
                }
                return None;
            },
        };
        let scale: u64 = if flen == 1 {
            100000
        } else if flen == 2 {
            10000
        } else if flen == 3 {
            1000
        } else if flen == 4 {
            100
        } else if flen == 5 {
            10
        } else {
            1
        };
        proof {
            let fs = s@.subrange(dot + 1, to as int);
            lemma_digits_val_bound(fs);
            assert(fs.len() == flen);
            assert(scale == pow10((6 - flen) as nat));
            assert(digits_val(fs) * (scale as int) < pow10(flen as nat) * pow10(
                (6 - flen) as nat,
            )) by {
                crate::text::lemma_pow10_pos((6 - flen) as nat);
                vstd::arithmetic::mul::lemma_mul_strict_inequality(
                    digits_val(fs),
                    pow10(flen as nat),
                    pow10((6 - flen) as nat),
                );
            }
            assert(pow10(flen as nat) * pow10((6 - flen) as nat) == 1000000) by {
                lemma_pow10_adds_small(flen as nat);
            }
        }
        let fscaled = frac * scale;
        let um = match units.checked_mul(1000000) {
            Some(w) => w,
            None => {
                proof {
                    lemma_micro_too_big(units as int, frac as int, scale as int);
                }
                return None;
            },
        };
        match um.checked_add(fscaled) {
            Some(w) => {
                mag = w;
            },
            None => {
                proof {
                    lemma_micro_too_big(units as int, frac as int, scale as int);
                }
                return None;
            },
        }
    }
    if neg {
        if mag <= 0x7fffffffffffffff {
            Some(-(mag as i64))
        } else if mag == 0x8000000000000000 {
            Some(i64::MIN)
        } else {
            None
        }
    } else {
        if mag <= 0x7fffffffffffffff {
            Some(mag as i64)
        } else {
            None
        }
    }
}

/// A magnitude past `u64` range does not fit a price of either sign.
proof fn lemma_micro_too_big(u: int, f: int, scale: int)
    requires
        u >= 0,
        f >= 0,
        scale >= 0,
        u * 1000000 + f * scale > u64::MAX || u > u64::MAX,
    ensures
        u * 1000000 + f * scale > u64::MAX,
{
    vstd::arithmetic::mul::lemma_mul_nonnegative(f, scale);
    if u > u64::MAX {
        assert(u * 1000000 >= u) by {
            vstd::arithmetic::mul::lemma_mul_inequality(1, 1000000, u);
        }
    }
}

/// A digit span of width `w` cannot read past `u64` when `w <= 6`.
proof fn lemma_digits_val_bound_len(s: Seq<char>, w: int)
    requires
        all_digits(s),
        s.len() == w,
        1 <= w <= 6,
    ensures
        0 <= digits_val(s) < 1000000,
{
    lemma_digits_val_bound(s);
    lemma_pow10_small();
    lemma_pow10_mono(s.len(), 6);
}

/// Powers of ten grow with the exponent.
proof fn lemma_pow10_mono(a: nat, b: nat)
    requires
        a <= b,
    ensures
        pow10(a) <= pow10(b),
    decreases b,
{
    if a < b {
        lemma_pow10_mono(a, (b - 1) as nat);
        crate::text::lemma_pow10_pos((b - 1) as nat);
    }
}

/// Adjacent powers of ten multiply to one million when the exponents sum
/// to six.
proof fn lemma_pow10_adds_small(a: nat)
    requires
        a <= 6,
    ensures
        pow10(a) * pow10((6 - a) as nat) == 1000000,
{
    lemma_pow10_small();
}

/// Reads a price from a whole string.
pub fn parse_price(s: &str) -> (r: Option<i64>)
    ensures
        r == parse_price_spec(s@),
{
    let v = str_chars(s);
    let n = v.len();
    let r = parse_price_span(v.as_slice(), 0, n);
    proof {
        assert(v@.subrange(0, n as int) =~= s@);
    }
    r
}

/// Appends the canonical decimal rendering of a price.
pub fn push_price(out: &mut Vec<char>, v: i64)
    ensures
        final(out)@ == old(out)@ + price_text(v),
{
    let mag: u64;
    if v < 0 {
        out.push('-');
        if v == i64::MIN {
            mag = 0x8000000000000000;
        } else {
            mag = (-v) as u64;
        }
    } else {
        mag = v as u64;
    }
    proof {
        assert(mag == price_mag(v));
    }
    let units = mag / 1000000;
    let frac = mag % 1000000;
    push_dec(out, units);
    if frac > 0 {
        out.push('.');
        let mut fd: Vec<char> = Vec::new();
        push_padded(&mut fd, frac, 6);
        proof {
            lemma_pow10_small();
            lemma_padded_props(frac as int, 6);
        }
        while fd.len() > 0 && fd[fd.len() - 1] == '0'
            invariant
                trim_zeros(padded(frac as int, 6)) == trim_zeros(fd@),
            decreases fd@.len(),
        {
            let ghost before = fd@;
            fd.pop();
            proof {
                assert(fd@ =~= before.drop_last());
            }
        }
        proof {
            assert(trim_zeros(fd@) == fd@);
        }
        let ghost base = out@;
        let m = fd.len();
        let mut j: usize = 0;
        while j < m
            invariant
                m == fd@.len(),
                j <= m,
                out@ == base + fd@.take(j as int),
            decreases m - j,
        {
            out.push(fd[j]);
            proof {
                assert(out@ =~= base + fd@.take(j + 1));
            }
            j = j + 1;
        }
        proof {
            assert(fd@.take(m as int) =~= fd@);
            assert(out@ =~= old(out)@ + price_text(v));
        }
    } else {
        proof {
            assert(out@ =~= old(out)@ + price_text(v));
        }
    }
}

/// Renders a price as its canonical decimal string.
pub fn format_price(v: i64) -> (r: String)
    ensures
        r@ == price_text(v),
{
    let mut out: Vec<char> = Vec::new();
    push_price(&mut out, v);
    proof {
        assert(out@ =~= price_text(v));
    }
    chars_to_string(&out)
}

/// Every character of a rendered price is a digit, a minus sign or a dot.
pub proof fn lemma_price_text_chars(v: i64)
    ensures
        forall|j: int|
            0 <= j < price_text(v).len() ==> (crate::text::is_digit(#[trigger] price_text(v)[j])
                || price_text(v)[j] == '-' || price_text(v)[j] == '.'),
{
    let mag = price_mag(v);
    let units = mag / 1000000;
    let frac = mag % 1000000;
    lemma_dec_digits(units as nat);
    let ds = dec_digits(units as nat);
    let t = price_text(v);
    if frac != 0 {
        lemma_pow10_small();
        lemma_padded_props(frac, 6);
        lemma_trim_zeros(padded(frac, 6));
        let tz = trim_zeros(padded(frac, 6));
        assert forall|j: int| 0 <= j < t.len() implies (crate::text::is_digit(#[trigger] t[j])
            || t[j] == '-' || t[j] == '.') by {
            let off: int = if v < 0 {
                1
            } else {
                0
            };
            if off <= j < off + ds.len() {
                assert(t[j] == ds[j - off]);
            } else if j > off + ds.len() {
                assert(t[j] == tz[j - off - ds.len() - 1]);
            }
        }
    } else {
        assert forall|j: int| 0 <= j < t.len() implies (crate::text::is_digit(#[trigger] t[j])
            || t[j] == '-' || t[j] == '.') by {
            let off: int = if v < 0 {
                1
            } else {
                0
            };
            if off <= j < off + ds.len() {
                assert(t[j] == ds[j - off]);
            }
        }
    }
}

/// Rendering a price and reading it back yields the same price, for every
/// price the store can hold.
pub proof fn lemma_price_roundtrip(v: i64)
    ensures
        parse_price_spec(price_text(v)) == Some(v),
{
    lemma_pow10_small();
    let mag = price_mag(v);
    let units = mag / 1000000;
    let frac = mag % 1000000;
    lemma_dec_digits(units as nat);
    let ds = dec_digits(units as nat);
    assert(forall|j: int| 0 <= j < ds.len() ==> ds[j] != '.');
    vstd::arithmetic::div_mod::lemma_fundamental_div_mod(mag, 1000000);
    if frac == 0 {
        let body = ds;
        lemma_dot_pos_none(body);
        if v < 0 {
            let t = price_text(v);
            assert(t =~= seq!['-'] + body);
            assert(t.drop_first() =~= body);
            assert(micro_of(body) == Some(units * 1000000));
        } else {
            let t = price_text(v);
            assert(t =~= body);
            assert(t.len() > 0 && t[0] == ds[0]);
            assert(t[0] != '-');
            assert(micro_of(body) == Some(units * 1000000));
        }
    } else {
        lemma_padded_props(frac, 6);
        lemma_trim_zeros(padded(frac, 6));
        let tz = trim_zeros(padded(frac, 6));
        assert(digits_val(tz) * pow10((6 - tz.len()) as nat) == frac);
        assert(tz.len() >= 1) by {
            if tz.len() == 0 {
                assert(digits_val(tz) == 0);
            }
        }
        let body = ds + seq!['.'] + tz;
        assert(body[ds.len() as int] == '.');
        assert(forall|j: int| 0 <= j < ds.len() ==> body[j] == ds[j] && body[j] != '.');
        lemma_dot_pos_found(body, ds.len() as int);
        assert(body.take(ds.len() as int) =~= ds);
        assert(body.skip(ds.len() as int + 1) =~= tz);
        assert(micro_of(body) == Some(units * 1000000 + frac));
        if v < 0 {
            let t = price_text(v);
            assert(t =~= seq!['-'] + body);
            assert(t.drop_first() =~= body);
        } else {
            let t = price_text(v);
            assert(t =~= body);
            assert(t[0] != '-');
        }
    }
}

} // verus!
