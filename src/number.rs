//! Reading a run of number characters as an integer or as a decimal
//! floating-point literal.

use vstd::prelude::*;
use crate::ascii::{DIGIT_NINE, DIGIT_ZERO, LOWER_E, MINUS, PLUS, POINT, UPPER_E};

verus! {

pub open spec fn is_digit(c: u8) -> bool {
    DIGIT_ZERO <= c <= DIGIT_NINE
}

pub open spec fn is_sign(c: u8) -> bool {
    c == MINUS || c == PLUS
}

pub open spec fn all_digits(t: Seq<u8>) -> bool {
    forall|i: int| 0 <= i < t.len() ==> is_digit(#[trigger] t[i])
}

/// The value of a sequence of decimal digits.
pub open spec fn digits_value(t: Seq<u8>) -> nat
    decreases t.len(),
{
    if t.len() == 0 {
        0
    } else {
        digits_value(t.drop_last()) * 10 + (t.last() - DIGIT_ZERO) as nat
    }
}

pub open spec fn fits_i64(v: int) -> bool {
    i64::MIN <= v <= i64::MAX
}

/// The integer that a text denotes, as std reads an `i64`: an optional sign,
/// then one or more decimal digits, the value within range.
pub open spec fn int_literal(t: Seq<u8>) -> Option<int> {
    let signed = t.len() > 0 && is_sign(t[0]);
    let d = if signed { t.skip(1) } else { t };
    let v = if signed && t[0] == MINUS { -digits_value(d) } else { digits_value(d) as int };
    if d.len() > 0 && all_digits(d) && fits_i64(v) {
        Some(v)
    } else {
        None
    }
}

/// The decimal digits of `n`, without leading zeros.
pub open spec fn dec_text(n: nat) -> Seq<u8>
    decreases n,
{
    if n < 10 {
        seq![(DIGIT_ZERO + n) as u8]
    } else {
        dec_text(n / 10).push((DIGIT_ZERO + n % 10) as u8)
    }
}

/// An integer in decimal, with a minus sign when negative.
pub open spec fn int_text(v: int) -> Seq<u8> {
    if v < 0 {
        seq![MINUS] + dec_text((-v) as nat)
    } else {
        dec_text(v as nat)
    }
}

/// The index of the first byte at or after `i` that is not a digit.
pub open spec fn digit_run(t: Seq<u8>, i: int) -> int
    decreases t.len() - i,
{
    if 0 <= i < t.len() && is_digit(t[i]) {
        digit_run(t, i + 1)
    } else {
        i
    }
}

/// Whether a text is a decimal floating-point literal, as std reads an
/// `f64`: an optional sign, digits with at most one decimal point and at
/// least one digit, then optionally `e` or `E`, an optional sign and one or
/// more digits.
pub open spec fn float_literal(t: Seq<u8>) -> bool {
    let i0: int = if t.len() > 0 && is_sign(t[0]) { 1 } else { 0 };
    let i1 = digit_run(t, i0);
    let point = i1 < t.len() && t[i1] == POINT;
    let i2 = if point { digit_run(t, i1 + 1) } else { i1 };
    let n_digits = if point { (i1 - i0) + (i2 - i1 - 1) } else { i1 - i0 };
    &&& n_digits > 0
    &&& (i2 == t.len() || {
        &&& t[i2] == LOWER_E || t[i2] == UPPER_E
        &&& {
            let i3 = if i2 + 1 < t.len() && is_sign(t[i2 + 1]) { i2 + 2 } else { i2 + 1 };
            i3 < t.len() && digit_run(t, i3) == t.len()
        }
    })
}

proof fn lemma_digit_run_bounds(t: Seq<u8>, i: int)
    requires
        0 <= i <= t.len(),
    ensures
        i <= digit_run(t, i) <= t.len(),
        forall|j: int| i <= j < digit_run(t, i) ==> is_digit(#[trigger] t[j]),
        digit_run(t, i) < t.len() ==> !is_digit(t[digit_run(t, i)]),
    decreases t.len() - i,
{
    if i < t.len() && is_digit(t[i]) {
        lemma_digit_run_bounds(t, i + 1);
    }
}

proof fn lemma_digits_value_prefix(t: Seq<u8>, j: int, k: int)
    requires
        0 <= j <= k <= t.len(),
        all_digits(t),
    ensures
        digits_value(t.subrange(0, j)) <= digits_value(t.subrange(0, k)),
    decreases k - j,
{
    if j < k {
        lemma_digits_value_prefix(t, j, k - 1);
        assert(t.subrange(0, k).drop_last() =~= t.subrange(0, k - 1));
    }
}

fn digit_run_from(t: &[u8], i: usize) -> (r: usize)
    requires
        i <= t@.len(),
    ensures
        r == digit_run(t@, i as int),
{
    let mut j = i;
    while j < t.len() && DIGIT_ZERO <= t[j] && t[j] <= DIGIT_NINE
        invariant
            i <= j <= t@.len(),
            digit_run(t@, i as int) == digit_run(t@, j as int),
        decreases t@.len() - j,
    {
        j = j + 1;
    }
    j
}

/// Reads `t` as an `i64`, as std's parse does.
pub fn parse_integer(t: &[u8]) -> (r: Option<i64>)
    ensures
        match int_literal(t@) {
            Some(v) => r == Some(v as i64),
            None => r.is_none(),
        },
{
    let signed = t.len() > 0 && (t[0] == MINUS || t[0] == PLUS);
    let negative = signed && t[0] == MINUS;
    let start: usize = if signed { 1 } else { 0 };
    let ghost d = if signed { t@.skip(1) } else { t@ };
    if start >= t.len() {
        return None;
    }
    let mut mag: u128 = 0;
    let mut i: usize = start;
    while i < t.len()
        invariant
            signed == (t@.len() > 0 && is_sign(t@[0])),
            negative == (signed && t@[0] == MINUS),
            start == (if signed { 1usize } else { 0usize }),
            d == (if signed { t@.skip(1) } else { t@ }),
            start <= i <= t@.len(),
            d =~= t@.subrange(start as int, t@.len() as int),
            d.len() > 0,
            all_digits(d.subrange(0, i - start)),
            mag == digits_value(d.subrange(0, i - start)),
            mag <= 0x8000_0000_0000_0000,
        decreases t@.len() - i,
    {
        let c = t[i];
        if c < DIGIT_ZERO || c > DIGIT_NINE {
            assert(!is_digit(d[i - start]));
            assert(!all_digits(d));
            return None;
        }
        assert(d.subrange(0, i + 1 - start).drop_last() =~= d.subrange(0, i - start));
        mag = mag * 10 + (c - DIGIT_ZERO) as u128;
        i = i + 1;
        if mag > 0x8000_0000_0000_0000 {
            proof {
                if all_digits(d) {
                    lemma_digits_value_prefix(d, i - start, d.len() as int);
                    assert(d.subrange(0, d.len() as int) =~= d);
                }
            }
            return None;
        }
        assert(all_digits(d.subrange(0, i - start))) by {
            assert forall|k: int| 0 <= k < i - start implies is_digit(
                #[trigger] d.subrange(0, i - start)[k],
            ) by {
                if k < i - 1 - start {
                    assert(d.subrange(0, i - start)[k] == d.subrange(0, i - 1 - start)[k]);
                }
            }
        }
    }
    assert(d.subrange(0, d.len() as int) =~= d);
    if negative {
        Some((0 - (mag as i128)) as i64)
    } else if mag <= 0x7fff_ffff_ffff_ffff {
        Some(mag as i64)
    } else {
        None
    }
}

/// Whether `t` is a decimal floating-point literal, as std's parse of an
/// `f64` reads one.
pub fn is_float_literal(t: &[u8]) -> (r: bool)
    ensures
        r == float_literal(t@),
{
    let i0: usize = if t.len() > 0 && (t[0] == MINUS || t[0] == PLUS) { 1 } else { 0 };
    let i1 = digit_run_from(t, i0);
    proof { lemma_digit_run_bounds(t@, i0 as int); }
    let point = i1 < t.len() && t[i1] == POINT;
    let i2 = if point { digit_run_from(t, i1 + 1) } else { i1 };
    proof {
        if point {
            lemma_digit_run_bounds(t@, i1 + 1);
        }
    }
    let n_digits = if point { (i1 - i0) + (i2 - i1 - 1) } else { i1 - i0 };
    if n_digits == 0 {
        return false;
    }
    if i2 == t.len() {
        return true;
    }
    if t[i2] != LOWER_E && t[i2] != UPPER_E {
        return false;
    }
    let i3 = if i2 + 1 < t.len() && (t[i2 + 1] == MINUS || t[i2 + 1] == PLUS) { i2 + 2 } else { i2 + 1 };
    if i3 >= t.len() {
        return false;
    }
    let end = digit_run_from(t, i3);
    end == t.len()
}

/// The characters of `int_text(v)`.
pub open spec fn int_chars(v: int) -> Seq<char> {
    int_text(v).map_values(|c: u8| c as char)
}

/// Relies on `i64`'s `Display`, through `ToString`: an integer is written in
/// decimal, without leading zeros, with a minus sign when negative.
#[verifier::external_body]
pub(crate) fn i64_text(i: i64) -> (r: String)
    ensures
        r@ == int_chars(i as int),
{
    i.to_string()
}

} // verus!
