//! Double-precision rounding, stated and computed in whole numbers.
//!
//! A double keeps 53 significant binary digits. Every quantity here is a
//! non-negative fraction far from the ends of the exponent range, so a double
//! is a whole number below 2^53 scaled by a power of two, and rounding to the
//! nearest double is rounding that whole number, a tie going to the even one.

use vstd::prelude::*;
use vstd::arithmetic::div_mod::{lemma_div_is_ordered, lemma_fundamental_div_mod};
use vstd::arithmetic::power2::{lemma_pow2_unfold, pow2};

verus! {

/// 2^52: the least 53-digit significand.
pub const SIGNIFICAND_MIN: u128 = 0x10_0000_0000_0000;

/// 2^53: the first whole number with more digits than a significand holds.
pub const SIGNIFICAND_END: u128 = 0x20_0000_0000_0000;

/// 2^120: the numerators that `round_to_double` takes end here, so that no
/// doubling leaves 128 bits.
pub const NUMERATOR_END: u128 = 0x100_0000_0000_0000_0000_0000_0000_0000;

/// The whole number nearest to `num / den`; midway between two, the even one.
pub open spec fn nearest(num: nat, den: nat) -> nat
    recommends
        den > 0,
{
    let q = num / den;
    let r = num % den;
    if 2 * r < den || (2 * r == den && q % 2 == 0) {
        q
    } else {
        q + 1
    }
}

/// The double nearest to `num / den`, as a fraction: the quotient is scaled by
/// two, up or down, until its whole part has 53 digits, rounded there, and
/// scaled back. Zero, and anything over zero, is zero.
pub open spec fn rounded(num: nat, den: nat) -> (nat, nat)
    decreases
        (if num >= SIGNIFICAND_END * den { num + 1 - SIGNIFICAND_END * den } else { 0 }),
        (if num < SIGNIFICAND_MIN * den { SIGNIFICAND_MIN * den - num } else { 0 }),
{
    if num == 0 || den == 0 {
        (0, 1)
    } else if num >= SIGNIFICAND_END * den {
        let r = rounded(num, 2 * den);
        (2 * r.0, r.1)
    } else if num < SIGNIFICAND_MIN * den {
        let r = rounded(2 * num, den);
        (r.0, 2 * r.1)
    } else {
        (nearest(num, den), 1)
    }
}

/// A whole number as a double: itself while 53 digits hold it, else the
/// nearest whole number that they hold.
pub open spec fn widened(value: nat) -> nat {
    if value < SIGNIFICAND_END {
        value
    } else {
        rounded(value, 1).0
    }
}

/// The quotient of a count and a divisor in double precision, as a fraction:
/// the count is widened and the quotient of the two doubles rounded.
pub open spec fn ratio(value: nat, divisor: nat) -> (nat, nat) {
    rounded(widened(value), divisor)
}

/// The hundredths in `value / divisor` as two-place notation shows a double:
/// a hundred times the double-precision quotient, rounded to a whole number.
pub open spec fn hundredths(value: nat, divisor: nat) -> nat {
    let ratio = ratio(value, divisor);
    nearest(100 * ratio.0, ratio.1)
}

/// `nearest` lies within a half of the quotient it rounds, and is the
/// quotient where that is whole.
pub proof fn lemma_nearest_bounds(num: nat, den: nat)
    requires
        den > 0,
    ensures
        2 * (nearest(num, den) * den) <= 2 * num + den,
        2 * num <= 2 * (nearest(num, den) * den) + den,
        nearest(num, den) * den <= num + den,
        num < nearest(num, den) * den + den,
        num / den <= nearest(num, den) <= num / den + 1,
        num % den == 0 ==> nearest(num, den) == num / den,
{
    lemma_fundamental_div_mod(num as int, den as int);
    let q = num / den;
    let r = num % den;
    assert(den * (q + 1) == den * q + den) by (nonlinear_arith);
    assert(den * q == q * den) by (nonlinear_arith);
    assert((q + 1) * den == den * (q + 1)) by (nonlinear_arith);
}

/// `nearest` never goes down when the numerator goes up.
pub proof fn lemma_nearest_monotone(a: nat, b: nat, den: nat)
    requires
        den > 0,
        a <= b,
    ensures
        nearest(a, den) <= nearest(b, den),
{
    lemma_div_is_ordered(a as int, b as int, den as int);
    lemma_fundamental_div_mod(a as int, den as int);
    lemma_fundamental_div_mod(b as int, den as int);
    if a / den == b / den {
        assert(a % den <= b % den);
    }
}

/// What holds of every rounded quotient `n / d` of `num / den`: it is at most
/// twice the quotient; `n` is at most 2^53 where the quotient lies below 2^53,
/// and is then `d` times the quotient, rounded; `n` is at least 2^53 where the
/// quotient is; `d` is one unless the quotient lies below 2^52; and `n` is at
/// least 2^52 unless the quotient is zero.
pub proof fn lemma_rounded_bounds(num: nat, den: nat)
    requires
        den > 0,
    ensures
        rounded(num, den).1 > 0,
        rounded(num, den).0 * den <= 2 * num * rounded(num, den).1,
        num < SIGNIFICAND_END * den ==> rounded(num, den).0 <= SIGNIFICAND_END,
        0 < num < SIGNIFICAND_END * den ==> rounded(num, den).0 == nearest(
            rounded(num, den).1 * num,
            den,
        ),
        num >= SIGNIFICAND_END * den ==> rounded(num, den).0 >= SIGNIFICAND_END,
        rounded(num, den).1 == 1 || rounded(num, den).1 * num < SIGNIFICAND_END * den,
        num > 0 ==> rounded(num, den).1 * num >= SIGNIFICAND_MIN * den,
        num >= SIGNIFICAND_MIN * den ==> rounded(num, den).1 == 1,
        num > 0 ==> rounded(num, den).0 >= SIGNIFICAND_MIN,
    decreases
        (if num >= SIGNIFICAND_END * den { num + 1 - SIGNIFICAND_END * den } else { 0 }),
        (if num < SIGNIFICAND_MIN * den { SIGNIFICAND_MIN * den - num } else { 0 }),
{
    let n = rounded(num, den).0;
    let d = rounded(num, den).1;
    if num == 0 {
    } else if num >= SIGNIFICAND_END * den {
        lemma_rounded_bounds(num, 2 * den);
        let r = rounded(num, 2 * den);
        assert(r.1 == 1);
        assert(n == 2 * r.0 && d == 1);
        assert(r.0 * (2 * den) == (2 * r.0) * den) by (nonlinear_arith);
    } else if num < SIGNIFICAND_MIN * den {
        lemma_rounded_bounds(2 * num, den);
        let r = rounded(2 * num, den);
        assert(n == r.0 && d == 2 * r.1);
        assert(2 * (2 * num) * r.1 == 2 * num * (2 * r.1)) by (nonlinear_arith);
        assert(r.1 * (2 * num) == (2 * r.1) * num) by (nonlinear_arith);
    } else {
        lemma_nearest_bounds(num, den);
        lemma_div_is_ordered((SIGNIFICAND_MIN * den) as int, num as int, den as int);
        vstd::arithmetic::div_mod::lemma_div_multiples_vanish(SIGNIFICAND_MIN as int, den as int);
        assert(SIGNIFICAND_MIN * den == den * SIGNIFICAND_MIN) by (nonlinear_arith);
        assert(num / den >= SIGNIFICAND_MIN);
        assert(n == nearest(num, den) && d == 1);
        assert(den <= num);
        assert(n < SIGNIFICAND_END + 1) by (nonlinear_arith)
            requires
                n * den <= num + den,
                num < SIGNIFICAND_END * den,
                den > 0,
        ;
        assert(2 * num * d == 2 * num) by (nonlinear_arith)
            requires
                d == 1,
        ;
    }
}

/// A rounded quotient `n / d` is within one part in 2^53 of `num / den`.
pub proof fn lemma_rounded_error(num: nat, den: nat)
    requires
        den > 0,
    ensures
        SIGNIFICAND_END * (rounded(num, den).0 * den) <= SIGNIFICAND_END * (num * rounded(
            num,
            den,
        ).1) + num * rounded(num, den).1,
        SIGNIFICAND_END * (num * rounded(num, den).1) <= SIGNIFICAND_END * (rounded(num, den).0
            * den) + num * rounded(num, den).1,
    decreases
        (if num >= SIGNIFICAND_END * den { num + 1 - SIGNIFICAND_END * den } else { 0 }),
        (if num < SIGNIFICAND_MIN * den { SIGNIFICAND_MIN * den - num } else { 0 }),
{
    let n = rounded(num, den).0;
    let d = rounded(num, den).1;
    if num == 0 {
        assert(n * den == 0 && num * d == 0) by (nonlinear_arith)
            requires
                n == 0,
                num == 0,
        ;
    } else if num >= SIGNIFICAND_END * den {
        lemma_rounded_error(num, 2 * den);
        let r = rounded(num, 2 * den);
        assert(r.0 * (2 * den) == (2 * r.0) * den) by (nonlinear_arith);
    } else if num < SIGNIFICAND_MIN * den {
        lemma_rounded_error(2 * num, den);
        let r = rounded(2 * num, den);
        assert((2 * num) * r.1 == num * (2 * r.1)) by (nonlinear_arith);
    } else {
        lemma_nearest_bounds(num, den);
        assert(num * d == num) by (nonlinear_arith)
            requires
                d == 1,
        ;
    }
}

/// A quotient below 2^53 is rounded at the power of two that scales it to 53
/// digits.
pub proof fn lemma_rounded_fine(num: nat, den: nat, exponent: nat)
    requires
        den > 0,
        SIGNIFICAND_MIN * den <= pow2(exponent) * num < SIGNIFICAND_END * den,
    ensures
        rounded(num, den) == (nearest(pow2(exponent) * num, den), pow2(exponent)),
    decreases exponent,
{
    if exponent == 0 {
        assert(pow2(0) == 1) by {
            vstd::arithmetic::power2::lemma2_to64();
        }
        assert(pow2(0) * num == num) by (nonlinear_arith)
            requires
                pow2(0) == 1,
        ;
    } else {
        lemma_pow2_unfold(exponent);
        let half = pow2((exponent - 1) as nat);
        assert(pow2(exponent) * num == half * (2 * num)) by (nonlinear_arith)
            requires
                pow2(exponent) == 2 * half,
        ;
        assert(num < SIGNIFICAND_MIN * den && num > 0) by (nonlinear_arith)
            requires
                half * (2 * num) < SIGNIFICAND_END * den,
                SIGNIFICAND_MIN * den <= half * (2 * num),
                half >= 1,
                den > 0,
        ;
        lemma_rounded_fine(2 * num, den, (exponent - 1) as nat);
    }
}

/// A quotient of 2^52 or more is rounded at the power of two that scales it
/// to 53 digits, and is a whole number.
pub proof fn lemma_rounded_coarse(num: nat, den: nat, exponent: nat)
    requires
        den > 0,
        SIGNIFICAND_MIN * (pow2(exponent) * den) <= num < SIGNIFICAND_END * (pow2(exponent) * den),
    ensures
        rounded(num, den) == (pow2(exponent) * nearest(num, pow2(exponent) * den), 1nat),
    decreases exponent,
{
    if exponent == 0 {
        assert(pow2(0) == 1) by {
            vstd::arithmetic::power2::lemma2_to64();
        }
        assert(pow2(0) * den == den) by (nonlinear_arith)
            requires
                pow2(0) == 1,
        ;
        assert(pow2(0) * nearest(num, den) == nearest(num, den)) by (nonlinear_arith)
            requires
                pow2(0) == 1,
        ;
    } else {
        lemma_pow2_unfold(exponent);
        let half = pow2((exponent - 1) as nat);
        assert(pow2(exponent) * den == half * (2 * den)) by (nonlinear_arith)
            requires
                pow2(exponent) == 2 * half,
        ;
        assert(num >= SIGNIFICAND_END * den) by (nonlinear_arith)
            requires
                SIGNIFICAND_MIN * (half * (2 * den)) <= num,
                half >= 1,
                den > 0,
        ;
        lemma_rounded_coarse(num, 2 * den, (exponent - 1) as nat);
        let inner = nearest(num, half * (2 * den));
        assert(2 * (half * inner) == pow2(exponent) * inner) by (nonlinear_arith)
            requires
                pow2(exponent) == 2 * half,
        ;
    }
}

/// Rounding to a double never turns the order of two quotients of 53 digits
/// or more over one denominator.
pub proof fn lemma_rounded_monotone(low: nat, high: nat, den: nat)
    requires
        den > 0,
        SIGNIFICAND_MIN * den <= low <= high,
    ensures
        rounded(low, den).1 == 1,
        rounded(high, den).1 == 1,
        rounded(low, den).0 <= rounded(high, den).0,
    decreases
        (if high >= SIGNIFICAND_END * den { high + 1 - SIGNIFICAND_END * den } else { 0 }),
{
    lemma_rounded_bounds(low, den);
    lemma_rounded_bounds(high, den);
    if high < SIGNIFICAND_END * den {
        lemma_nearest_monotone(low, high, den);
    } else if low >= SIGNIFICAND_END * den {
        lemma_rounded_monotone(low, high, 2 * den);
    }
}

/// Widening never turns the order of two counts.
pub proof fn lemma_widened_monotone(low: nat, high: nat)
    requires
        low <= high,
    ensures
        widened(low) <= widened(high),
{
    if high >= SIGNIFICAND_END {
        lemma_rounded_bounds(high, 1);
        if low >= SIGNIFICAND_END {
            lemma_rounded_monotone(low, high, 1);
        }
    }
}

/// The double nearest to a whole number of at most 53 digits is that number.
pub proof fn lemma_rounded_whole(num: nat)
    requires
        num < SIGNIFICAND_END,
    ensures
        rounded(num, 1).0 == num * rounded(num, 1).1,
    decreases
        (if num < SIGNIFICAND_MIN { SIGNIFICAND_MIN - num } else { 0 }),
{
    if num == 0 {
    } else if num < SIGNIFICAND_MIN {
        lemma_rounded_whole(2 * num);
        let r = rounded(2 * num, 1);
        assert((2 * num) * r.1 == num * (2 * r.1)) by (nonlinear_arith);
    } else {
        lemma_nearest_bounds(num, 1);
    }
}

/// From 2^59 on, the doubles are 128 apart.
pub proof fn lemma_widened_coarse(value: nat)
    requires
        value >= 0x800_0000_0000_0000,
    ensures
        widened(value) % 128 == 0,
        value == 0x800_0000_0000_0000 ==> widened(value) == value,
{
    assert(rounded(value, 1).0 == 2 * rounded(value, 2).0);
    assert(rounded(value, 2).0 == 2 * rounded(value, 4).0);
    assert(rounded(value, 4).0 == 2 * rounded(value, 8).0);
    assert(rounded(value, 8).0 == 2 * rounded(value, 16).0);
    assert(rounded(value, 16).0 == 2 * rounded(value, 32).0);
    assert(rounded(value, 32).0 == 2 * rounded(value, 64).0);
    assert(rounded(value, 64).0 == 2 * rounded(value, 128).0);
    if value == 0x800_0000_0000_0000 {
        lemma_nearest_bounds(value, 128);
        assert(rounded(value, 128).0 == nearest(value, 128));
    }
}

/// A quotient of one or more is, as a double, one or more.
pub proof fn lemma_rounded_at_least_one(num: nat, den: nat)
    requires
        0 < den <= num,
    ensures
        rounded(num, den).0 >= rounded(num, den).1,
{
    lemma_rounded_bounds(num, den);
    let d = rounded(num, den).1;
    if num < SIGNIFICAND_MIN * den {
        lemma_nearest_bounds(d * num, den);
        assert(d * den <= d * num) by (nonlinear_arith)
            requires
                den <= num,
                d > 0,
        ;
        lemma_div_is_ordered((d * den) as int, (d * num) as int, den as int);
        vstd::arithmetic::div_mod::lemma_div_multiples_vanish(d as int, den as int);
        assert(d * den == den * d) by (nonlinear_arith);
    }
}

/// A quotient below one stays below one as a double, where the numerator
/// keeps a 2^53rd of the denominator away from it.
pub proof fn lemma_rounded_below_one(num: nat, den: nat)
    requires
        num < den,
        SIGNIFICAND_END * (den - num) >= den,
    ensures
        rounded(num, den).0 < rounded(num, den).1,
{
    if num > 0 {
        lemma_rounded_bounds(num, den);
        let d = rounded(num, den).1;
        let scaled = d * num;
        let q = scaled / den;
        let r = scaled % den;
        lemma_fundamental_div_mod(scaled as int, den as int);
        assert(d > SIGNIFICAND_MIN) by (nonlinear_arith)
            requires
                d * num >= SIGNIFICAND_MIN * den,
                0 < num < den,
        ;
        assert(q < d) by (nonlinear_arith)
            requires
                scaled == den * q + r,
                scaled == d * num,
                0 <= r,
                num < den,
                d > 0,
        ;
        if q == d - 1 {
            assert(2 * r < den) by (nonlinear_arith)
                requires
                    d * num == den * (d - 1) + r,
                    d >= SIGNIFICAND_MIN + 1,
                    SIGNIFICAND_END * (den - num) >= den,
                    num < den,
            ;
        }
    }
}

/// For a divisor that is itself a double, the double-precision quotient is
/// below one exactly when the widened count is below the divisor.
pub proof fn lemma_ratio_below_one(value: nat, divisor: nat)
    requires
        0 < divisor,
        divisor <= SIGNIFICAND_END || (0x800_0000_0000_0000 < divisor <= 0x1000_0000_0000_0000
            && divisor % 128 == 0),
    ensures
        (ratio(value, divisor).0 < ratio(value, divisor).1) == (widened(value) < divisor),
{
    let wide = widened(value);
    if wide >= divisor {
        lemma_rounded_at_least_one(wide, divisor);
    } else {
        if divisor > SIGNIFICAND_END {
            if value >= 0x800_0000_0000_0000 {
                lemma_widened_coarse(value);
            } else {
                lemma_widened_monotone(value, 0x800_0000_0000_0000);
                lemma_widened_coarse(0x800_0000_0000_0000);
            }
            assert(divisor == 128 * (divisor / 128));
            assert(divisor - wide >= 128);
        }
        lemma_rounded_below_one(wide, divisor);
    }
}

/// The whole number nearest to `num / den`; midway between two, the even one.
pub fn nearest_of(num: u128, den: u128) -> (out: u128)
    requires
        den > 0,
    ensures
        out == nearest(num as nat, den as nat),
{
    let q: u128 = num / den;
    let r: u128 = num % den;
    proof {
        lemma_fundamental_div_mod(num as int, den as int);
    }
    if r < den - r || (r == den - r && q % 2 == 0) {
        q
    } else {
        assert(q < u128::MAX) by (nonlinear_arith)
            requires
                num == den * q + r,
                r >= 1,
                den >= 1,
                num <= u128::MAX,
        ;
        q + 1
    }
}

/// The double nearest to `num / den`, as numerator and denominator.
pub fn round_to_double(num: u128, den: u128) -> (out: (u128, u128))
    requires
        den > 0,
        num <= NUMERATOR_END,
        den <= u64::MAX || SIGNIFICAND_MIN * den <= num,
    ensures
        (out.0 as nat, out.1 as nat) == rounded(num as nat, den as nat),
    decreases
        (if num >= SIGNIFICAND_END * den { num + 1 - SIGNIFICAND_END * den } else { 0 }),
        (if num < SIGNIFICAND_MIN * den { SIGNIFICAND_MIN * den - num } else { 0 }),
{
    if num == 0 {
        (0, 1)
    } else if num >= SIGNIFICAND_END * den {
        let r = round_to_double(num, 2 * den);
        proof {
            lemma_rounded_bounds(num as nat, 2 * den as nat);
            assert(r.1 == 1);
            assert(r.0 <= num) by (nonlinear_arith)
                requires
                    r.0 * (2 * den) <= 2 * num * 1,
                    den >= 1,
            ;
        }
        (2 * r.0, r.1)
    } else if num < SIGNIFICAND_MIN * den {
        let r = round_to_double(2 * num, den);
        proof {
            lemma_rounded_bounds(2 * num as nat, den as nat);
            if r.1 != 1 {
                assert(r.1 < SIGNIFICAND_END * den) by (nonlinear_arith)
                    requires
                        r.1 * (2 * num) < SIGNIFICAND_END * den,
                        num >= 1,
                ;
            }
        }
        (r.0, 2 * r.1)
    } else {
        (nearest_of(num, den), 1)
    }
}

/// A count as a double holds it.
pub fn widen(value: u64) -> (out: u128)
    ensures
        out == widened(value as nat),
        out <= 2 * value,
{
    if (value as u128) < SIGNIFICAND_END {
        value as u128
    } else {
        let r = round_to_double(value as u128, 1);
        proof {
            lemma_rounded_bounds(value as nat, 1);
        }
        r.0
    }
}

/// The hundredths in `value / divisor`, in double precision.
pub fn hundredths_of(value: u64, divisor: u64) -> (out: u128)
    requires
        divisor > 0,
    ensures
        out == hundredths(value as nat, divisor as nat),
{
    let wide = widen(value);
    let ratio = round_to_double(wide, divisor as u128);
    proof {
        lemma_rounded_bounds(wide as nat, divisor as nat);
        if wide >= SIGNIFICAND_END * divisor {
            assert(ratio.1 == 1);
            assert(ratio.0 <= 2 * wide) by (nonlinear_arith)
                requires
                    ratio.0 * divisor <= 2 * wide * 1,
                    divisor >= 1,
            ;
        }
    }
    nearest_of(100 * ratio.0, ratio.1)
}

} // verus!
