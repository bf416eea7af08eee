//! Character-level helpers shared by the key codec, the operand parsers and
//! the snapshot codec: decimal digits, digit strings and their values, and
//! conversion between `String` and `Vec<char>`.

use vstd::prelude::*;

verus! {

use vstd::std_specs::iter::IteratorSpec;

/// The character for one decimal digit value.
pub open spec fn digit_char(d: int) -> char
    recommends
        0 <= d <= 9,
{
    (48 + d) as char
}

/// Whether `c` is a decimal digit.
pub open spec fn is_digit(c: char) -> bool {
    48 <= c as int <= 57
}

/// The value of a decimal digit character.
pub open spec fn digit_val(c: char) -> int
    recommends
        is_digit(c),
{
    c as int - 48
}

/// Whether every character of `s` is a decimal digit.
pub open spec fn all_digits(s: Seq<char>) -> bool {
    forall|i: int| 0 <= i < s.len() ==> is_digit(#[trigger] s[i])
}

/// The numeric value of a digit string, most significant digit first.
pub open spec fn digits_val(s: Seq<char>) -> int
    recommends
        all_digits(s),
    decreases s.len(),
{
    if s.len() == 0 {
        0
    } else {
        digits_val(s.drop_last()) * 10 + digit_val(s.last())
    }
}

/// The decimal rendering of `n`, most significant digit first, without
/// leading zeros.
pub open spec fn dec_digits(n: nat) -> Seq<char>
    decreases n,
{
    if n < 10 {
        seq![digit_char(n as int)]
    } else {
        dec_digits(n / 10) + seq![digit_char((n % 10) as int)]
    }
}

/// The decimal rendering is made of digits, is never empty, and reads back
/// to the number it was made from.
pub proof fn lemma_dec_digits(n: nat)
    ensures
        dec_digits(n).len() >= 1,
        all_digits(dec_digits(n)),
        digits_val(dec_digits(n)) == n,
    decreases n,
{
    if n < 10 {
        let c = digit_char(n as int);
        assert(dec_digits(n) =~= seq![c]);
        assert(seq![c].drop_last() =~= Seq::<char>::empty());
        assert(digits_val(seq![c]) == digits_val(seq![c].drop_last()) * 10 + digit_val(c));
        assert(digit_val(c) == n);
    } else {
        lemma_dec_digits(n / 10);
        let d = dec_digits(n);
        assert(d.drop_last() =~= dec_digits(n / 10));
        assert(d.last() == digit_char((n % 10) as int));
        assert(digits_val(d) == (n / 10) * 10 + (n % 10));
        assert((n / 10) * 10 + (n % 10) == n) by {
            vstd::arithmetic::div_mod::lemma_fundamental_div_mod(n as int, 10);
        }
    }
}

/// A digit string's value never shrinks when more digits are appended.
pub proof fn lemma_digits_val_prefix(s: Seq<char>, i: int)
    requires
        all_digits(s),
        0 <= i <= s.len(),
    ensures
        0 <= digits_val(s.take(i)) <= digits_val(s),
    decreases s.len() - i,
{
    if i == s.len() {
        assert(s.take(i) =~= s);
        lemma_digits_val_nonneg(s);
    } else {
        lemma_digits_val_prefix(s, i + 1);
        let t = s.take(i + 1);
        assert(t.drop_last() =~= s.take(i));
        lemma_digits_val_nonneg(s.take(i));
        assert(digits_val(t) == digits_val(s.take(i)) * 10 + digit_val(s[i]));
    }
}

/// A digit string's value is never negative.
pub proof fn lemma_digits_val_nonneg(s: Seq<char>)
    requires
        all_digits(s),
    ensures
        digits_val(s) >= 0,
    decreases s.len(),
{
    if s.len() > 0 {
        lemma_digits_val_nonneg(s.drop_last());
    }
}

/// Ten to the `n`th power.
pub open spec fn pow10(n: nat) -> int
    decreases n,
{
    if n == 0 {
        1
    } else {
        10 * pow10((n - 1) as nat)
    }
}

/// The zero-padded `w`-digit rendering of `n`, most significant digit first.
pub open spec fn padded(n: int, w: nat) -> Seq<char>
    recommends
        0 <= n < pow10(w),
    decreases w,
{
    if w == 0 {
        Seq::empty()
    } else {
        padded(n / 10, (w - 1) as nat) + seq![digit_char(n % 10)]
    }
}

/// Strict lexicographic order on character strings, by character value.
pub open spec fn lex_lt(a: Seq<char>, b: Seq<char>) -> bool
    decreases a.len(),
{
    if b.len() == 0 {
        false
    } else if a.len() == 0 {
        true
    } else if (a[0] as int) < (b[0] as int) {
        true
    } else if a[0] == b[0] {
        lex_lt(a.drop_first(), b.drop_first())
    } else {
        false
    }
}

pub proof fn lemma_pow10_pos(n: nat)
    ensures
        pow10(n) >= 1,
    decreases n,
{
    if n > 0 {
        lemma_pow10_pos((n - 1) as nat);
    }
}

/// The powers of ten the fixed-width renderings use.
pub proof fn lemma_pow10_small()
    ensures
        pow10(0) == 1,
        pow10(1) == 10,
        pow10(2) == 100,
        pow10(3) == 1000,
        pow10(4) == 10000,
        pow10(5) == 100000,
        pow10(6) == 1000000,
{
    reveal_with_fuel(pow10, 7);
}

/// The two-digit rendering, written out.
pub proof fn lemma_padded2(n: int)
    requires
        0 <= n < 100,
    ensures
        padded(n, 2) =~= seq![digit_char(n / 10), digit_char(n % 10)],
{
    reveal_with_fuel(padded, 3);
    assert((n / 10) % 10 == n / 10);
}

/// The four-digit rendering, written out.
pub proof fn lemma_padded4(n: int)
    requires
        0 <= n < 10000,
    ensures
        padded(n, 4) =~= seq![
            digit_char(n / 1000),
            digit_char((n / 100) % 10),
            digit_char((n / 10) % 10),
            digit_char(n % 10),
        ],
{
    reveal_with_fuel(padded, 5);
    assert((n / 10) / 10 == n / 100) by {
        vstd::arithmetic::div_mod::lemma_div_denominator(n, 10, 10);
    }
    assert((n / 100) / 10 == n / 1000) by {
        vstd::arithmetic::div_mod::lemma_div_denominator(n, 100, 10);
    }
    assert((n / 1000) % 10 == n / 1000);
}

/// A string of `w` digits reads as a value below ten to the `w`.
pub proof fn lemma_digits_val_bound(s: Seq<char>)
    requires
        all_digits(s),
    ensures
        0 <= digits_val(s) < pow10(s.len()),
    decreases s.len(),
{
    if s.len() == 0 {
    } else {
        lemma_digits_val_bound(s.drop_last());
        assert(digit_val(s.last()) <= 9);
        assert(digits_val(s.drop_last()) * 10 + 9 < pow10(s.len())) by {
            assert(pow10(s.len()) == 10 * pow10((s.len() - 1) as nat));
        }
    }
}

/// The padded rendering of an in-range value is `w` digits reading back to
/// that value.
pub proof fn lemma_padded_props(n: int, w: nat)
    requires
        0 <= n < pow10(w),
    ensures
        padded(n, w).len() == w,
        all_digits(padded(n, w)),
        digits_val(padded(n, w)) == n,
    decreases w,
{
    if w == 0 {
    } else {
        assert(pow10(w) == 10 * pow10((w - 1) as nat));
        lemma_pow10_pos((w - 1) as nat);
        assert(0 <= n / 10 < pow10((w - 1) as nat)) by {
            vstd::arithmetic::div_mod::lemma_fundamental_div_mod(n, 10);
        }
        lemma_padded_props(n / 10, (w - 1) as nat);
        let p = padded(n, w);
        assert(p.drop_last() =~= padded(n / 10, (w - 1) as nat));
        assert(p.last() == digit_char(n % 10));
        assert(digits_val(p) == (n / 10) * 10 + (n % 10));
        vstd::arithmetic::div_mod::lemma_fundamental_div_mod(n, 10);
    }
}

/// Padding the value of a digit string back to its own width reproduces it.
pub proof fn lemma_padded_inverse(t: Seq<char>)
    requires
        all_digits(t),
    ensures
        padded(digits_val(t), t.len()) == t,
    decreases t.len(),
{
    if t.len() == 0 {
        assert(padded(digits_val(t), t.len()) =~= t);
    } else {
        let dl = t.drop_last();
        let d = digit_val(t.last());
        lemma_padded_inverse(dl);
        lemma_digits_val_nonneg(dl);
        let n = digits_val(t);
        assert(n == digits_val(dl) * 10 + d);
        assert(n / 10 == digits_val(dl) && n % 10 == d) by {
            vstd::arithmetic::div_mod::lemma_fundamental_div_mod_converse(
                n,
                10,
                digits_val(dl),
                d,
            );
        }
        assert(digit_char(digit_val(t.last())) == t.last());
        assert(padded(n, t.len()) =~= t);
    }
}

/// The value of a digit string, decomposed at its first digit.
proof fn lemma_digits_val_first(s: Seq<char>)
    requires
        all_digits(s),
        s.len() >= 1,
    ensures
        digits_val(s) == digit_val(s[0]) * pow10((s.len() - 1) as nat) + digits_val(
            s.drop_first(),
        ),
    decreases s.len(),
{
    if s.len() == 1 {
        assert(s.drop_first() =~= Seq::<char>::empty());
        assert(s.drop_last() =~= Seq::<char>::empty());
        assert(digits_val(Seq::<char>::empty()) == 0);
        assert(s.last() == s[0]);
        assert(pow10(0) == 1);
        assert(digits_val(s) == 0 * 10 + digit_val(s[0]));
    } else {
        let dl = s.drop_last();
        lemma_digits_val_first(dl);
        let w = (s.len() - 2) as nat;
        assert(digits_val(dl) == digit_val(s[0]) * pow10(w) + digits_val(dl.drop_first()));
        assert(dl.drop_first() =~= s.drop_first().drop_last());
        assert(s.drop_first().last() == s.last());
        assert(digits_val(s.drop_first()) == digits_val(s.drop_first().drop_last()) * 10
            + digit_val(s.last()));
        assert(digits_val(s) == digits_val(dl) * 10 + digit_val(s.last()));
        assert((digit_val(s[0]) * pow10(w)) * 10 == digit_val(s[0]) * (pow10(w) * 10)) by {
            vstd::arithmetic::mul::lemma_mul_is_associative(
                digit_val(s[0]),
                pow10(w),
                10,
            );
        }
        assert(pow10(w) * 10 == pow10((s.len() - 1) as nat));
        assert((digit_val(s[0]) * pow10(w) + digits_val(dl.drop_first())) * 10 == (digit_val(s[0])
            * pow10(w)) * 10 + digits_val(dl.drop_first()) * 10);
    }
}

/// On equal-length digit strings, lexicographic order is numeric order of
/// their values.
pub proof fn lemma_lex_digits(s: Seq<char>, t: Seq<char>)
    requires
        all_digits(s),
        all_digits(t),
        s.len() == t.len(),
    ensures
        lex_lt(s, t) <==> digits_val(s) < digits_val(t),
    decreases s.len(),
{
    if s.len() == 0 {
    } else {
        lemma_digits_val_first(s);
        lemma_digits_val_first(t);
        lemma_digits_val_bound(s.drop_first());
        lemma_digits_val_bound(t.drop_first());
        let p = pow10((s.len() - 1) as nat);
        lemma_pow10_pos((s.len() - 1) as nat);
        let a = digit_val(s[0]);
        let b = digit_val(t[0]);
        if a < b {
            assert(a * p + p <= b * p) by {
                vstd::arithmetic::mul::lemma_mul_inequality(a + 1, b, p);
                vstd::arithmetic::mul::lemma_mul_is_distributive_add_other_way(p, a, 1);
            }
            assert((s[0] as int) < (t[0] as int));
        } else if a == b {
            assert(s[0] == t[0]);
            lemma_lex_digits(s.drop_first(), t.drop_first());
        } else {
            assert(b * p + p <= a * p) by {
                vstd::arithmetic::mul::lemma_mul_inequality(b + 1, a, p);
                vstd::arithmetic::mul::lemma_mul_is_distributive_add_other_way(p, b, 1);
            }
            assert((t[0] as int) < (s[0] as int));
        }
    }
}

/// Splitting a lexicographic comparison at equal-length leading blocks.
pub proof fn lemma_lex_concat(a: Seq<char>, b: Seq<char>, x: Seq<char>, y: Seq<char>)
    requires
        a.len() == b.len(),
    ensures
        lex_lt(a + x, b + y) <==> (lex_lt(a, b) || (a == b && lex_lt(x, y))),
    decreases a.len(),
{
    if a.len() == 0 {
        assert(a + x =~= x);
        assert(b + y =~= y);
        assert(a =~= b);
    } else {
        let ax = a + x;
        let by_ = b + y;
        assert(ax[0] == a[0] && by_[0] == b[0]);
        assert(ax.drop_first() =~= a.drop_first() + x);
        assert(by_.drop_first() =~= b.drop_first() + y);
        lemma_lex_concat(a.drop_first(), b.drop_first(), x, y);
        if a[0] == b[0] {
            assert((a == b) <==> (a.drop_first() == b.drop_first())) by {
                if a.drop_first() == b.drop_first() {
                    assert forall|i: int| 0 <= i < a.len() implies a[i] == b[i] by {
                        if i > 0 {
                            assert(a[i] == a.drop_first()[i - 1]);
                            assert(b[i] == b.drop_first()[i - 1]);
                        }
                    }
                    assert(a =~= b);
                }
            }
        }
    }
}

/// The digit character for a digit value.
pub fn digit_of(d: u8) -> (c: char)
    requires
        d <= 9,
    ensures
        c == digit_char(d as int),
{
    (48 + d) as char
}

/// The characters of a string, in order.
pub fn str_chars(s: &str) -> (v: Vec<char>)
    ensures
        v@ == s@,
{
    broadcast use vstd::string::group_string_axioms;

    let mut it = s.chars();
    let mut v: Vec<char> = Vec::new();
    loop
        invariant
            it.obeys_prophetic_iter_laws(),
            it.decrease() is Some,
            v@ + it.remaining() == s@,
        ensures
            v@ == s@,
        decreases it.decrease()->0,
    {
        match it.next() {
            Some(c) => {
                v.push(c);
                assert(v@ + it.remaining() =~= s@);
            },
            None => {
                assert(v@ =~= s@);
                break ;
            },
        }
    }
    v
}

/// An upper-case ASCII letter folded to lower case; any other character
/// unchanged.
pub open spec fn lower_char(c: char) -> char {
    if 65 <= c as int <= 90 {
        ((c as int) + 32) as char
    } else {
        c
    }
}

/// A string with its ASCII letters folded to lower case.
pub open spec fn lower(s: Seq<char>) -> Seq<char> {
    s.map_values(|c: char| lower_char(c))
}

/// The lower-case fold of one character.
pub fn lower_of_char(c: char) -> (r: char)
    ensures
        r == lower_char(c),
{
    if c >= 'A' && c <= 'Z' {
        ((c as u8) + 32) as char
    } else {
        c
    }
}

/// Whether two strings hold the same characters.
pub fn str_eq(a: &str, b: &str) -> (r: bool)
    ensures
        r == (a@ == b@),
{
    let va = str_chars(a);
    let vb = str_chars(b);
    if va.len() != vb.len() {
        proof {
            assert(a@.len() != b@.len());
        }
        return false;
    }
    let n = va.len();
    let mut i: usize = 0;
    while i < n
        invariant
            n == va.len() == vb.len(),
            va@ == a@,
            vb@ == b@,
            i <= n,
            forall|j: int| 0 <= j < i ==> a@[j] == b@[j],
        decreases n - i,
    {
        if va[i] != vb[i] {
            return false;
        }
        i = i + 1;
    }
    proof {
        assert(a@ =~= b@);
    }
    true
}

/// Whether `a`, folded to lower case, equals `b` (given in lower case).
pub fn eq_ignore_case(a: &str, b: &str) -> (r: bool)
    ensures
        r == (lower(a@) == b@),
{
    let va = str_chars(a);
    let vb = str_chars(b);
    if va.len() != vb.len() {
        proof {
            assert(lower(a@).len() == a@.len());
            assert(lower(a@).len() != b@.len());
        }
        return false;
    }
    let n = va.len();
    let mut i: usize = 0;
    while i < n
        invariant
            n == va.len() == vb.len(),
            va@ == a@,
            vb@ == b@,
            i <= n,
            forall|j: int| 0 <= j < i ==> lower(a@)[j] == b@[j],
        decreases n - i,
    {
        if lower_of_char(va[i]) != vb[i] {
            proof {
                assert(lower(a@)[i as int] == lower_char(a@[i as int]));
            }
            return false;
        }
        i = i + 1;
    }
    proof {
        assert(lower(a@) =~= b@);
    }
    true
}

/// Relies on `String`'s `FromIterator<char>` impl: collecting characters
/// yields the string holding exactly those characters in order.
#[verifier::external_body]
pub(crate) fn chars_to_string(v: &Vec<char>) -> (r: String)
    ensures
        r@ == v@,
{
    v.iter().collect()
}

/// Appends the decimal rendering of `n`.
pub fn push_dec(v: &mut Vec<char>, n: u64)
    ensures
        final(v)@ == old(v)@ + dec_digits(n as nat),
    decreases n,
{
    if n >= 10 {
        push_dec(v, n / 10);
    }
    v.push(digit_of((n % 10) as u8));
    assert(v@ =~= old(v)@ + dec_digits(n as nat));
}

/// Appends the zero-padded `w`-digit rendering of `n`.
pub fn push_padded(v: &mut Vec<char>, n: u64, w: usize)
    ensures
        final(v)@ == old(v)@ + padded(n as int, w as nat),
    decreases w,
{
    if w > 0 {
        push_padded(v, n / 10, w - 1);
        v.push(digit_of((n % 10) as u8));
        assert(v@ =~= old(v)@ + padded(n as int, w as nat));
    } else {
        assert(v@ =~= old(v)@ + padded(n as int, 0));
    }
}

/// The value of the digit span `s[from..to]`, or `None` where the span is
/// empty, holds a non-digit, or does not fit in `u64`.
pub fn span_value(s: &[char], from: usize, to: usize) -> (r: Option<u64>)
    requires
        from <= to <= s@.len(),
    ensures
        match r {
            Some(v) => {
                &&& to > from
                &&& all_digits(s@.subrange(from as int, to as int))
                &&& v == digits_val(s@.subrange(from as int, to as int))
            },
            None => {
                ||| to == from
                ||| !all_digits(s@.subrange(from as int, to as int))
                ||| digits_val(s@.subrange(from as int, to as int)) > u64::MAX
            },
        },
{
    if from == to {
        return None;
    }
    let ghost span = s@.subrange(from as int, to as int);
    proof {
        assert(span.len() == to - from);
    }
    let mut acc: u64 = 0;
    let mut i: usize = from;
    while i < to
        invariant
            from <= i <= to <= s@.len(),
            span == s@.subrange(from as int, to as int),
            all_digits(span.take(i - from)),
            acc == digits_val(span.take(i - from)),
        decreases to - i,
    {
        let c = s[i];
        proof {
            assert(span.len() == to - from);
            assert(span[i - from] == c);
        }
        if c < '0' || c > '9' {
            assert(!is_digit(span[i - from]));
            return None;
        }
        let d: u8 = (c as u8) - 48;
        let step = match acc.checked_mul(10) {
            Some(t) => t.checked_add(d as u64),
            None => None,
        };
        proof {
            let t = span.take(i - from + 1);
            assert(t.drop_last() =~= span.take(i - from));
            assert(t.last() == c);
        }
        match step {
            Some(next) => {
                acc = next;
            },
            None => {
                proof {
                    assert(digits_val(span.take(i - from + 1)) > u64::MAX);
                    assert(all_digits(span.take(i - from + 1)));
                    if all_digits(span) {
                        lemma_digits_val_prefix(span, i - from + 1);
                    }
                }
                return None;
            },
        }
        i = i + 1;
    }
    proof {
        assert(span.take(to - from) =~= span);
    }
    Some(acc)
}

} // verus!
