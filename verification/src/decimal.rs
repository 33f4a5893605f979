//! Signed decimal numbers as ASCII bytes: what a digit run is worth, how a
//! number is written, and that reading undoes writing.

use vstd::prelude::*;
use crate::token::{is_digit, MINUS, NINE, ZERO};

verus! {

/// The largest magnitude a negative `i64` can have, `2^63`.
pub const MAX_MAGNITUDE: u64 = 9223372036854775808;

/// Whether every byte of `s` is a decimal digit.
pub open spec fn all_digits(s: Seq<u8>) -> bool {
    forall|i: int| 0 <= i < s.len() ==> is_digit(#[trigger] s[i])
}

/// The base-10 value of a run of digits, most significant digit first.
/// The empty run is worth zero.
pub open spec fn digits_value(s: Seq<u8>) -> nat
    decreases s.len(),
{
    if s.len() == 0 {
        0
    } else {
        digits_value(s.drop_last()) * 10 + (s.last() - ZERO) as nat
    }
}

/// What a numeric token stands for: an optional `-`, then one or more
/// digits, read in base 10; `None` where the token has another shape or its
/// value does not fit in an `i64`. Leading zeros are accepted, a `+` is not.
pub open spec fn parse_decimal(s: Seq<u8>) -> Option<int> {
    if s.len() > 0 && s[0] == MINUS {
        let digits = s.skip(1);
        if digits.len() > 0 && all_digits(digits) && digits_value(digits) <= MAX_MAGNITUDE {
            Some(-(digits_value(digits) as int))
        } else {
            None
        }
    } else if s.len() > 0 && all_digits(s) && digits_value(s) <= i64::MAX {
        Some(digits_value(s) as int)
    } else {
        None
    }
}

/// The digits of `n` in base 10, without leading zeros; `0` is written `0`.
pub open spec fn decimal_digits(n: nat) -> Seq<u8>
    decreases n,
{
    if n < 10 {
        seq![(ZERO + n) as u8]
    } else {
        decimal_digits(n / 10).push((ZERO + n % 10) as u8)
    }
}

/// The minimal decimal form of `i`: a `-` for a negative number, no plus
/// sign, no leading zeros.
pub open spec fn format_decimal(i: int) -> Seq<u8> {
    if i < 0 {
        seq![MINUS] + decimal_digits((-i) as nat)
    } else {
        decimal_digits(i as nat)
    }
}

/// A longer run of digits is worth at least as much as any of its prefixes.
pub proof fn lemma_digits_value_prefix(s: Seq<u8>, k: int)
    requires
        0 <= k <= s.len(),
    ensures
        digits_value(s.take(k)) <= digits_value(s),
    decreases s.len() - k,
{
    if k == s.len() {
        assert(s.take(k) == s);
    } else {
        lemma_digits_value_prefix(s, k + 1);
        assert(s.take(k + 1).drop_last() == s.take(k));
    }
}

/// The digits written for `n` are digits, at least one of them, and are
/// worth `n`.
pub proof fn lemma_decimal_digits(n: nat)
    ensures
        decimal_digits(n).len() >= 1,
        all_digits(decimal_digits(n)),
        digits_value(decimal_digits(n)) == n,
    decreases n,
{
    if n < 10 {
        let s = decimal_digits(n);
        assert(s.drop_last() == Seq::<u8>::empty());
        assert(digits_value(s.drop_last()) == 0);
    } else {
        lemma_decimal_digits(n / 10);
        let s = decimal_digits(n);
        assert(s.drop_last() == decimal_digits(n / 10));
    }
}

/// Every byte of a written number is a digit or the sign, the sign stands
/// only in front of a negative number, and the form is never empty.
pub proof fn lemma_format_decimal_bytes(i: int)
    ensures
        format_decimal(i).len() >= 1,
        forall|k: int|
            0 <= k < format_decimal(i).len() ==> is_digit(#[trigger] format_decimal(i)[k])
                || format_decimal(i)[k] == MINUS,
        i >= 0 ==> all_digits(format_decimal(i)),
{
    if i < 0 {
        lemma_decimal_digits((-i) as nat);
    } else {
        lemma_decimal_digits(i as nat);
    }
}

/// Reading a written `i64` gives the number back.
pub proof fn lemma_parse_format_decimal(i: int)
    requires
        i64::MIN <= i <= i64::MAX,
    ensures
        parse_decimal(format_decimal(i)) == Some(i),
{
    let s = format_decimal(i);
    if i < 0 {
        lemma_decimal_digits((-i) as nat);
        assert(s.skip(1) == decimal_digits((-i) as nat));
    } else {
        lemma_decimal_digits(i as nat);
        assert(is_digit(s[0]));
    }
}

/// Appends the digits of `n` to `out`.
pub fn push_digits(out: &mut Vec<u8>, n: u64)
    ensures
        final(out)@ == old(out)@ + decimal_digits(n as nat),
    decreases n,
{
    if n >= 10 {
        push_digits(out, n / 10);
    }
    let digit: u8 = (n % 10) as u8;
    out.push(ZERO + digit);
    assert(final(out)@ == old(out)@ + decimal_digits(n as nat));
}

/// Appends the minimal decimal form of `value` to `out`.
pub fn push_decimal(out: &mut Vec<u8>, value: i64)
    ensures
        final(out)@ == old(out)@ + format_decimal(value as int),
{
    if value < 0 {
        out.push(MINUS);
        let magnitude: u64 = if value == i64::MIN {
            MAX_MAGNITUDE
        } else {
            (-value) as u64
        };
        push_digits(out, magnitude);
        assert(final(out)@ == old(out)@ + format_decimal(value as int));
    } else {
        push_digits(out, value as u64);
    }
}

/// Reads a numeric token: `Some` with its value where [`parse_decimal`]
/// gives one, `None` where it gives none.
pub fn parse_i64(bytes: &[u8]) -> (r: Option<i64>)
    ensures
        match r {
            Some(v) => parse_decimal(bytes@) == Some(v as int),
            None => parse_decimal(bytes@) is None,
        },
{
    let n = bytes.len();
    if n == 0 {
        return None;
    }
    let negative = bytes[0] == MINUS;
    let start: usize = if negative { 1 } else { 0 };
    if start == n {
        return None;
    }
    let limit: u64 = if negative { MAX_MAGNITUDE } else { MAX_MAGNITUDE - 1 };
    let ghost digits = bytes@.skip(start as int);
    let mut acc: u64 = 0;
    let mut i: usize = start;
    assert(digits.take(0) == Seq::<u8>::empty());
    assert(!negative ==> digits == bytes@);
    while i < n
        invariant
            start <= i <= n,
            n == bytes@.len(),
            negative == (bytes@[0] == MINUS),
            start == if negative { 1usize } else { 0usize },
            digits == bytes@.skip(start as int),
            !negative ==> digits == bytes@,
            limit == if negative { MAX_MAGNITUDE } else { (MAX_MAGNITUDE - 1) as u64 },
            acc <= limit,
            all_digits(digits.take(i - start)),
            acc == digits_value(digits.take(i - start)),
        decreases n - i,
    {
        let b = bytes[i];
        let ghost k = i - start;
        assert(digits[k] == b);
        if b < ZERO || b > NINE {
            assert(!all_digits(digits));
            return None;
        }
        let d: u64 = (b - ZERO) as u64;
        assert(digits.take(k + 1).drop_last() == digits.take(k));
        assert(digits.take(k + 1).last() == b);
        if acc > (limit - d) / 10 {
            proof {
                assert(digits_value(digits.take(k + 1)) > limit);
                lemma_digits_value_prefix(digits, k + 1);
            }
            return None;
        }
        acc = acc * 10 + d;
        i += 1;
        assert forall|j: int| 0 <= j < digits.take(i - start).len() implies is_digit(
            #[trigger] digits.take(i - start)[j],
        ) by {
            if j < k {
                assert(digits.take(k)[j] == digits.take(i - start)[j]);
            }
        }
    }
    assert(digits.take(n - start) == digits);
    if negative {
        if acc == MAX_MAGNITUDE {
            Some(i64::MIN)
        } else {
            Some(-(acc as i64))
        }
    } else {
        assert(is_digit(bytes@[0])) by {
            assert(digits[0] == bytes@[0]);
        }
        Some(acc as i64)
    }
}

} // verus!
