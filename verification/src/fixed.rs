//! Deterministic fixed-point arithmetic for the pricing engine.
//!
//! A fixed-point number is an integer mantissa over the decimal scale [`ONE`]:
//! the mantissa `m` stands for the real number `m / 10^18`. Every operation
//! rounds toward zero after each multiplication or division, so a result is a
//! function of the operands alone and identical on every machine.

use vstd::arithmetic::div_mod::{
    lemma_div_is_ordered, lemma_div_is_ordered_by_denominator, lemma_fundamental_div_mod,
    lemma_fundamental_div_mod_converse,
};
use vstd::prelude::*;

verus! {

/// The mantissa of the number one.
pub const ONE: u128 = 1_000_000_000_000_000_000;

/// Arguments from here on have a negative exponential below one unit of the scale.
pub const EXP_LIMIT: u128 = 48_000_000_000_000_000_000;

/// The series is summed at the argument divided by this power of two.
pub const EXP_REDUCTION: u128 = 256;

/// The base-two logarithm of [`EXP_REDUCTION`]: how often the reduced result is squared.
pub const EXP_SQUARINGS: u32 = 8;

/// The highest power of the argument in the exponential series.
pub const EXP_TERMS: u32 = 12;

/// The term `r^k / k!` of the exponential series at `r = x / 256`, each
/// factor rounded down.
pub open spec fn series_term(x: int, k: nat) -> int
    decreases k,
{
    if k == 0 {
        ONE as int
    } else {
        series_term(x, (k - 1) as nat) * x / (k * (EXP_REDUCTION * ONE))
    }
}

/// The sum of the terms of the exponential series up to the power `n`.
pub open spec fn series_sum(x: int, n: nat) -> int
    decreases n,
{
    if n == 0 {
        series_term(x, 0)
    } else {
        series_sum(x, (n - 1) as nat) + series_term(x, n)
    }
}

/// `y` squared `n` times in fixed point.
pub open spec fn squared(y: int, n: nat) -> int
    decreases n,
{
    if n == 0 {
        y
    } else {
        squared(y, (n - 1) as nat) * squared(y, (n - 1) as nat) / (ONE as int)
    }
}

/// The fixed-point value of `e^(-x)` for a fixed-point `x >= 0`.
///
/// The series of `e^r` is summed at `r = x / 256`, its reciprocal is taken
/// and squared eight times. From [`EXP_LIMIT`] on the value is zero.
pub open spec fn exp_neg(x: int) -> int {
    if x >= EXP_LIMIT {
        0
    } else {
        squared(ONE * ONE / series_sum(x, EXP_TERMS as nat), EXP_SQUARINGS as nat)
    }
}

/// Every term of the series lies between zero and one for an argument below the limit.
pub proof fn lemma_series_term_bounds(x: int, k: nat)
    requires
        0 <= x <= EXP_LIMIT,
    ensures
        0 <= series_term(x, k) <= ONE,
    decreases k,
{
    if k > 0 {
        lemma_series_term_bounds(x, (k - 1) as nat);
        let t = series_term(x, (k - 1) as nat);
        let d = k * (EXP_REDUCTION * ONE);
        assert(0 < d) by (nonlinear_arith)
            requires
                k >= 1,
                d == k * (256 * ONE),
        ;
        assert(0 <= t * x <= ONE * d) by {
            assert(t * x <= ONE * (48 * ONE)) by (nonlinear_arith)
                requires
                    0 <= t <= ONE,
                    0 <= x <= 48 * ONE,
            ;
            assert(ONE * (48 * ONE) <= ONE * d) by (nonlinear_arith)
                requires
                    k >= 1,
                    d == k * (256 * ONE),
            ;
            assert(0 <= t * x) by (nonlinear_arith)
                requires
                    0 <= t,
                    0 <= x,
            ;
        }
        lemma_div_is_ordered(0, t * x, d);
        lemma_div_is_ordered(t * x, ONE * d, d);
        assert(ONE * d / d == ONE) by (nonlinear_arith)
            requires
                d > 0,
        ;
        assert(0int / d == 0) by (nonlinear_arith)
            requires
                d > 0,
        ;
    }
}

/// The sum of the series is at least one and at most one per term.
pub proof fn lemma_series_sum_bounds(x: int, n: nat)
    requires
        0 <= x <= EXP_LIMIT,
    ensures
        ONE <= series_sum(x, n) <= (n + 1) * ONE,
    decreases n,
{
    lemma_series_term_bounds(x, n);
    if n > 0 {
        lemma_series_sum_bounds(x, (n - 1) as nat);
        assert((n + 1) * ONE == n * ONE + ONE) by (nonlinear_arith);
    } else {
        assert((0 + 1) * ONE == ONE) by (nonlinear_arith);
    }
}

/// A larger argument gives a term that is no smaller.
pub proof fn lemma_series_term_monotone(a: int, b: int, k: nat)
    requires
        0 <= a <= b,
    ensures
        0 <= series_term(a, k) <= series_term(b, k),
    decreases k,
{
    if k > 0 {
        lemma_series_term_monotone(a, b, (k - 1) as nat);
        let ta = series_term(a, (k - 1) as nat);
        let tb = series_term(b, (k - 1) as nat);
        let d = k * (EXP_REDUCTION * ONE);
        assert(0 <= ta * a <= tb * b) by (nonlinear_arith)
            requires
                0 <= ta <= tb,
                0 <= a <= b,
        ;
        assert(0 < d) by (nonlinear_arith)
            requires
                k >= 1,
                d == k * (256 * ONE),
        ;
        lemma_div_is_ordered(0, ta * a, d);
        lemma_div_is_ordered(ta * a, tb * b, d);
        assert(0int / d == 0) by (nonlinear_arith)
            requires
                d > 0,
        ;
    }
}

/// A larger argument gives a sum that is no smaller.
pub proof fn lemma_series_sum_monotone(a: int, b: int, n: nat)
    requires
        0 <= a <= b,
    ensures
        ONE <= series_sum(a, n) <= series_sum(b, n),
    decreases n,
{
    lemma_series_term_monotone(a, b, n);
    if n > 0 {
        lemma_series_sum_monotone(a, b, (n - 1) as nat);
    }
}

/// Squaring keeps a value between zero and one, and keeps the order of two such values.
pub proof fn lemma_squared_monotone(y: int, z: int, n: nat)
    requires
        0 <= y <= z <= ONE,
    ensures
        0 <= squared(y, n) <= squared(z, n) <= ONE,
    decreases n,
{
    if n > 0 {
        lemma_squared_monotone(y, z, (n - 1) as nat);
        let sy = squared(y, (n - 1) as nat);
        let sz = squared(z, (n - 1) as nat);
        assert(0 <= sy * sy <= sz * sz <= ONE * ONE) by (nonlinear_arith)
            requires
                0 <= sy <= sz <= ONE,
        ;
        lemma_div_is_ordered(0, sy * sy, ONE as int);
        lemma_div_is_ordered(sy * sy, sz * sz, ONE as int);
        lemma_div_is_ordered(sz * sz, ONE * ONE, ONE as int);
        assert(ONE * ONE / (ONE as int) == ONE) by (nonlinear_arith);
    }
}

/// One squared any number of times is one.
pub proof fn lemma_squared_one(n: nat)
    ensures
        squared(ONE as int, n) == ONE,
    decreases n,
{
    if n > 0 {
        lemma_squared_one((n - 1) as nat);
        assert(ONE * ONE / (ONE as int) == ONE) by (nonlinear_arith);
    }
}

/// The exponential of zero is one.
pub proof fn lemma_exp_neg_zero()
    ensures
        exp_neg(0) == ONE,
{
    assert(series_sum(0, EXP_TERMS as nat) == ONE) by {
        reveal_with_fuel(series_sum, 13);
        reveal_with_fuel(series_term, 13);
    }
    assert(ONE * ONE / (ONE as int) == ONE) by (nonlinear_arith);
    lemma_squared_one(EXP_SQUARINGS as nat);
}

/// The negative exponential lies between zero and one.
pub proof fn lemma_exp_neg_bounds(x: int)
    requires
        0 <= x,
    ensures
        0 <= exp_neg(x) <= ONE,
{
    lemma_exp_neg_monotone(x, x);
}

/// The negative exponential does not increase with its argument.
pub proof fn lemma_exp_neg_monotone(x: int, y: int)
    requires
        0 <= x <= y,
    ensures
        0 <= exp_neg(y) <= exp_neg(x) <= ONE,
{
    let n = EXP_TERMS as nat;
    if x < EXP_LIMIT {
        let sx = series_sum(x, n);
        lemma_series_sum_monotone(x, x, n);
        lemma_div_is_ordered_by_denominator(ONE * ONE, ONE as int, sx);
        lemma_div_is_ordered(0, ONE * ONE, sx);
        assert(ONE * ONE / (ONE as int) == ONE) by (nonlinear_arith);
        assert(0int / sx == 0) by (nonlinear_arith)
            requires
                sx > 0,
        ;
        let px = ONE * ONE / sx;
        if y < EXP_LIMIT {
            let sy = series_sum(y, n);
            lemma_series_sum_monotone(x, y, n);
            lemma_div_is_ordered_by_denominator(ONE * ONE, sx, sy);
            lemma_div_is_ordered(0, ONE * ONE, sy);
            assert(0int / sy == 0) by (nonlinear_arith)
                requires
                    sy > 0,
            ;
            lemma_squared_monotone(ONE * ONE / sy, px, EXP_SQUARINGS as nat);
        } else {
            lemma_squared_monotone(px, px, EXP_SQUARINGS as nat);
        }
    }
}

/// Two to the power `n`.
pub open spec fn pow2(n: nat) -> int
    decreases n,
{
    if n == 0 {
        1
    } else {
        2 * pow2((n - 1) as nat)
    }
}

/// A power of two is at least one.
pub proof fn lemma_pow2_positive(n: nat)
    ensures
        pow2(n) >= 1,
    decreases n,
{
    if n > 0 {
        lemma_pow2_positive((n - 1) as nat);
    }
}

/// A power of two with a sum for its exponent is the product of the powers.
pub proof fn lemma_pow2_adds(a: nat, b: nat)
    ensures
        pow2(a + b) == pow2(a) * pow2(b),
    decreases b,
{
    if b == 0 {
        assert(pow2(a) * 1 == pow2(a)) by (nonlinear_arith);
    } else {
        lemma_pow2_adds(a, (b - 1) as nat);
        assert(pow2(a) * (2 * pow2((b - 1) as nat)) == 2 * (pow2(a) * pow2((b - 1) as nat)))
            by (nonlinear_arith);
    }
}

/// A value that is at most `1 / (1 + a)` is, squared `n` times, at most
/// `1 / (1 + 2^n * a)`.
pub proof fn lemma_squared_decay(y: int, a: int, n: nat)
    requires
        0 <= y <= ONE,
        0 <= a,
        y * (ONE + a) <= ONE * ONE,
    ensures
        squared(y, n) * (ONE + pow2(n) * a) <= ONE * ONE,
    decreases n,
{
    if n == 0 {
        assert(1 * a == a);
    } else {
        lemma_squared_decay(y, a, (n - 1) as nat);
        lemma_pow2_positive((n - 1) as nat);
        lemma_squared_monotone(y, y, (n - 1) as nat);
        lemma_squared_monotone(y, y, n);
        let z = squared(y, (n - 1) as nat);
        let w = squared(y, n);
        let half = pow2((n - 1) as nat);
        let c = half * a;
        assert(0 <= c) by (nonlinear_arith)
            requires
                c == half * a,
                half >= 1,
                a >= 0,
        ;
        lemma_fundamental_div_mod(z * z, ONE as int);
        assert(w * (ONE + 2 * c) <= ONE * ONE) by (nonlinear_arith)
            requires
                0 <= w,
                0 <= z <= ONE,
                0 <= c,
                w * ONE <= z * z,
                z * (ONE + c) <= ONE * ONE,
        {
            assert((z * (ONE + c)) * (z * (ONE + c)) <= (ONE * ONE) * (ONE * ONE));
            assert(ONE * (ONE + 2 * c) <= (ONE + c) * (ONE + c));
            assert((w * ONE) * (ONE * (ONE + 2 * c)) <= (z * z) * ((ONE + c) * (ONE + c)));
            assert((z * z) * ((ONE + c) * (ONE + c)) == (z * (ONE + c)) * (z * (ONE + c)));
            assert((w * (ONE + 2 * c)) * (ONE * ONE) <= (ONE * ONE) * (ONE * ONE));
        }
        assert((2 * half) * a == 2 * c) by (nonlinear_arith)
            requires
                c == half * a,
        ;
    }
}

/// The negative exponential is at most `1 / (1 + x)`, but for what the
/// reduction of the argument rounds away.
pub proof fn lemma_exp_neg_decay(x: int)
    requires
        0 <= x,
    ensures
        exp_neg(x) * (ONE + x - (EXP_REDUCTION - 1)) <= ONE * ONE,
{
    if x < EXP_LIMIT {
        let n = EXP_TERMS as nat;
        let r = x / (EXP_REDUCTION as int);
        let p = series_sum(x, n);
        assert(p >= ONE + r) by {
            reveal_with_fuel(series_sum, 13);
            lemma_series_term_monotone(0, x, 2);
            lemma_series_term_monotone(0, x, 3);
            lemma_series_term_monotone(0, x, 4);
            lemma_series_term_monotone(0, x, 5);
            lemma_series_term_monotone(0, x, 6);
            lemma_series_term_monotone(0, x, 7);
            lemma_series_term_monotone(0, x, 8);
            lemma_series_term_monotone(0, x, 9);
            lemma_series_term_monotone(0, x, 10);
            lemma_series_term_monotone(0, x, 11);
            lemma_series_term_monotone(0, x, 12);
            assert(series_term(x, 1) == series_term(x, 0) * x / (1 * (EXP_REDUCTION * ONE)));
            assert(ONE * x / (1 * (256 * ONE)) == x / 256) by (nonlinear_arith)
                requires
                    0 <= x,
            ;
        }
        let y = ONE * ONE / p;
        lemma_fundamental_div_mod(ONE * ONE, p);
        lemma_series_sum_monotone(x, x, n);
        lemma_div_is_ordered_by_denominator(ONE * ONE, ONE as int, p);
        lemma_div_is_ordered(0, ONE * ONE, p);
        assert(ONE * ONE / (ONE as int) == ONE) by (nonlinear_arith);
        assert(0int / p == 0) by (nonlinear_arith)
            requires
                p > 0,
        ;
        assert(y * (ONE + r) <= ONE * ONE) by (nonlinear_arith)
            requires
                0 <= y,
                p * y <= ONE * ONE,
                p >= ONE + r,
        ;
        lemma_squared_decay(y, r, EXP_SQUARINGS as nat);
        assert(pow2(EXP_SQUARINGS as nat) == EXP_REDUCTION) by {
            reveal_with_fuel(pow2, 9);
        }
        lemma_squared_monotone(y, y, EXP_SQUARINGS as nat);
        let e = exp_neg(x);
        lemma_fundamental_div_mod(x, 256);
        assert(e * (ONE + x - 255) <= e * (ONE + 256 * r)) by (nonlinear_arith)
            requires
                0 <= e,
                x - 255 <= 256 * r,
        ;
    } else {
        assert(0 * (ONE + x - (EXP_REDUCTION - 1)) == 0) by (nonlinear_arith);
    }
}

/// Computes the fixed-point value of `e^(-x)`.
pub fn exp_neg_fixed(x: u128) -> (y: u128)
    ensures
        y == exp_neg(x as int),
        y <= ONE,
{
    if x >= EXP_LIMIT {
        return 0;
    }
    let mut term: u128 = ONE;
    let mut sum: u128 = ONE;
    let mut k: u32 = 0;
    while k < EXP_TERMS
        invariant
            k <= EXP_TERMS,
            x < EXP_LIMIT,
            term == series_term(x as int, k as nat),
            sum == series_sum(x as int, k as nat),
            term <= ONE,
            ONE <= sum <= (k + 1) * ONE,
        decreases EXP_TERMS - k,
    {
        k = k + 1;
        proof {
            lemma_series_term_bounds(x as int, k as nat);
            lemma_series_sum_bounds(x as int, k as nat);
            assert(term * x <= ONE * EXP_LIMIT) by (nonlinear_arith)
                requires
                    term <= ONE,
                    x <= EXP_LIMIT,
            ;
            assert(k * (EXP_REDUCTION * ONE) <= 12 * (EXP_REDUCTION * ONE)) by (nonlinear_arith)
                requires
                    k <= 12,
            ;
            assert((k + 1) * ONE <= 13 * ONE) by (nonlinear_arith)
                requires
                    k <= 12,
            ;
        }
        let divisor: u128 = (k as u128) * (EXP_REDUCTION * ONE);
        term = term * x / divisor;
        sum = sum + term;
    }
    let mut y: u128 = ONE * ONE / sum;
    proof {
        lemma_div_is_ordered_by_denominator(ONE * ONE, ONE as int, sum as int);
        assert(ONE * ONE / (ONE as int) == ONE) by (nonlinear_arith);
    }
    let ghost start = y as int;
    let mut i: u32 = 0;
    while i < EXP_SQUARINGS
        invariant
            i <= EXP_SQUARINGS,
            0 <= start <= ONE,
            y == squared(start, i as nat),
            y <= ONE,
        decreases EXP_SQUARINGS - i,
    {
        proof {
            lemma_squared_monotone(start, start, (i + 1) as nat);
            assert(y * y <= ONE * ONE) by (nonlinear_arith)
                requires
                    y <= ONE,
            ;
        }
        y = y * y / ONE;
        i = i + 1;
    }
    y
}

/// Ten to the power `d`.
pub open spec fn pow10(d: nat) -> nat
    decreases d,
{
    if d == 0 {
        1
    } else {
        10 * pow10((d - 1) as nat)
    }
}

/// A power of ten is positive and grows with its exponent.
pub proof fn lemma_pow10_monotone(d: nat, e: nat)
    requires
        d <= e,
    ensures
        1 <= pow10(d) <= pow10(e),
    decreases e,
{
    if e > 0 {
        if d < e {
            lemma_pow10_monotone(d, (e - 1) as nat);
        } else {
            lemma_pow10_monotone((d - 1) as nat, (e - 1) as nat);
        }
    }
}

/// The scale is ten to the power eighteen.
pub proof fn lemma_pow10_scale()
    ensures
        pow10(18) == ONE,
{
    reveal_with_fuel(pow10, 19);
}

/// The largest divisor of [`ratio`].
pub const MAX_DIVISOR: u128 = 1_000_000_000_000_000_000_000_000_000_000_000_000;

/// Computes the fixed-point value of `a / b` for `a < b`, rounded down, digit by digit.
pub fn ratio(a: u128, b: u128) -> (r: u128)
    requires
        a < b <= MAX_DIVISOR,
    ensures
        r == a * ONE / (b as int),
        r < ONE,
{
    let mut digits: u128 = 0;
    let mut rest: u128 = a;
    let mut i: u32 = 0;
    while i < 18
        invariant
            i <= 18,
            rest < b <= MAX_DIVISOR,
            digits < pow10(i as nat),
            digits * b + rest == a * pow10(i as nat),
        decreases 18 - i,
    {
        let scaled: u128 = rest * 10;
        let digit: u128 = scaled / b;
        proof {
            lemma_pow10_monotone((i + 1) as nat, 18);
            lemma_pow10_scale();
            lemma_fundamental_div_mod(scaled as int, b as int);
            assert(digit <= 9) by (nonlinear_arith)
                requires
                    b * digit <= scaled,
                    scaled < 10 * b,
                    0 < b,
            ;
            assert((digits * 10 + digit) * b + (scaled % b) == (digits * b + rest) * 10)
                by (nonlinear_arith)
                requires
                    scaled == rest * 10,
                    scaled == b * digit + scaled % b,
            ;
            assert(a * pow10((i + 1) as nat) == (a * pow10(i as nat)) * 10) by (nonlinear_arith)
                requires
                    pow10((i + 1) as nat) == 10 * pow10(i as nat),
            ;
        }
        digits = digits * 10 + digit;
        rest = scaled % b;
        i = i + 1;
    }
    proof {
        lemma_pow10_scale();
        assert(a * ONE == b * digits + rest) by (nonlinear_arith)
            requires
                digits * b + rest == a * ONE,
        ;
        lemma_fundamental_div_mod_converse(a * ONE, b as int, digits as int, rest as int);
    }
    digits
}

} // verus!
