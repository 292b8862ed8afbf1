//! How fast the negative exponential falls.
//!
//! Over any step `h` the exponential `e^(-x)` falls by a factor between
//! `1 - h` and `1 / (1 + h)`. This module shows that the fixed-point
//! exponential does so too, but for a loss of a few thousand units of its
//! scale, and concludes that every line that touches its graph lies below
//! the graph. The proof follows the computation: the terms of the series,
//! their sum, the reciprocal of the sum and its squares.

use crate::fixed::{
    exp_neg, lemma_exp_neg_monotone, lemma_exp_neg_zero, lemma_pow2_adds, lemma_pow2_positive,
    lemma_series_sum_bounds, lemma_series_term_bounds, lemma_series_term_monotone,
    lemma_squared_monotone, pow2, series_sum, series_term, squared, EXP_LIMIT, EXP_REDUCTION,
    EXP_SQUARINGS, EXP_TERMS, ONE,
};
use vstd::arithmetic::div_mod::{lemma_div_is_ordered, lemma_fundamental_div_mod};
use vstd::prelude::*;

verus! {

/// The scale of the argument of the series: the scale times the reduction.
pub open spec fn series_scale() -> int {
    EXP_REDUCTION * ONE
}

/// The last term of the series is a few units of the scale at most.
pub proof fn lemma_last_term_is_small(x: int)
    requires
        0 <= x <= EXP_LIMIT,
    ensures
        0 <= series_term(x, EXP_TERMS as nat) <= 3,
{
    let l = EXP_LIMIT as int;
    lemma_series_term_monotone(x, l, EXP_TERMS as nat);
    assert(series_term(l, 0) == ONE);
    assert(series_term(l, 1) == 187_500_000_000_000_000) by {
        assert(series_term(l, 1) == series_term(l, 0) * l / (1 * (EXP_REDUCTION * ONE)));
    }
    assert(series_term(l, 2) == 17_578_125_000_000_000) by {
        assert(series_term(l, 2) == series_term(l, 1) * l / (2 * (EXP_REDUCTION * ONE)));
    }
    assert(series_term(l, 3) == 1_098_632_812_500_000) by {
        assert(series_term(l, 3) == series_term(l, 2) * l / (3 * (EXP_REDUCTION * ONE)));
    }
    assert(series_term(l, 4) == 51_498_413_085_937) by {
        assert(series_term(l, 4) == series_term(l, 3) * l / (4 * (EXP_REDUCTION * ONE)));
    }
    assert(series_term(l, 5) == 1_931_190_490_722) by {
        assert(series_term(l, 5) == series_term(l, 4) * l / (5 * (EXP_REDUCTION * ONE)));
    }
    assert(series_term(l, 6) == 60_349_702_835) by {
        assert(series_term(l, 6) == series_term(l, 5) * l / (6 * (EXP_REDUCTION * ONE)));
    }
    assert(series_term(l, 7) == 1_616_509_897) by {
        assert(series_term(l, 7) == series_term(l, 6) * l / (7 * (EXP_REDUCTION * ONE)));
    }
    assert(series_term(l, 8) == 37_886_950) by {
        assert(series_term(l, 8) == series_term(l, 7) * l / (8 * (EXP_REDUCTION * ONE)));
    }
    assert(series_term(l, 9) == 789_311) by {
        assert(series_term(l, 9) == series_term(l, 8) * l / (9 * (EXP_REDUCTION * ONE)));
    }
    assert(series_term(l, 10) == 14_799) by {
        assert(series_term(l, 10) == series_term(l, 9) * l / (10 * (EXP_REDUCTION * ONE)));
    }
    assert(series_term(l, 11) == 252) by {
        assert(series_term(l, 11) == series_term(l, 10) * l / (11 * (EXP_REDUCTION * ONE)));
    }
    assert(series_term(l, 12) == 3) by {
        assert(series_term(l, 12) == series_term(l, 11) * l / (12 * (EXP_REDUCTION * ONE)));
    }
}

/// What a term of the series is by its definition: the term before it times
/// the argument, divided by the index and the scale and rounded down.
proof fn lemma_term_unfolds(x: int, k: nat)
    requires
        0 <= x <= EXP_LIMIT,
        k >= 1,
    ensures
        k * series_scale() > 0,
        0 <= series_term(x, (k - 1) as nat) * x - series_term(x, k) * (k * series_scale()) < k
            * series_scale(),
        0 <= series_term(x, k) <= ONE,
        0 <= series_term(x, (k - 1) as nat) <= ONE,
{
    let kd = k * series_scale();
    assert(kd > 0) by (nonlinear_arith)
        requires
            k >= 1,
            kd == k * (256 * ONE),
    ;
    lemma_series_term_bounds(x, k);
    lemma_series_term_bounds(x, (k - 1) as nat);
    lemma_fundamental_div_mod(series_term(x, (k - 1) as nat) * x, kd);
    assert(kd * series_term(x, k) == series_term(x, k) * kd) by (nonlinear_arith);
}

/// From one argument to a larger one a term of the series rises by at least
/// the step times the term before it, but for two units.
pub proof fn lemma_term_rises(x: int, h: int, k: nat)
    requires
        0 <= x,
        0 <= h,
        x + h <= EXP_LIMIT,
        k >= 1,
    ensures
        series_term(x + h, k) * series_scale() >= series_term(x, k) * series_scale() + h
            * series_term(x, (k - 1) as nat) - 2 * series_scale(),
    decreases k,
{
    let d = series_scale();
    let y = x + h;
    let tk = series_term(x, k);
    let tp = series_term(x, (k - 1) as nat);
    let sk = series_term(y, k);
    let sp = series_term(y, (k - 1) as nat);
    lemma_term_unfolds(x, k);
    lemma_term_unfolds(y, k);
    if k == 1 {
        assert(sp * y == tp * x + h * tp) by (nonlinear_arith)
            requires
                sp == ONE,
                tp == ONE,
                y == x + h,
        ;
        assert(sk * (1 * d) == sk * d && tk * (1 * d) == tk * d && 1 * d == d)
            by (nonlinear_arith);
    } else {
        lemma_term_rises(x, h, (k - 1) as nat);
        lemma_term_unfolds(x, (k - 1) as nat);
        let tpp = series_term(x, (k - 2) as nat);
        // sp * d >= tp * d + h * tpp - 2 * d, and tpp * x >= tp * ((k - 1) * d)
        let ht = h * tp;
        let htpp = h * tpp;
        assert(0 <= ht && 0 <= htpp) by (nonlinear_arith)
            requires
                0 <= h,
                0 <= tp,
                0 <= tpp,
                ht == h * tp,
                htpp == h * tpp,
        ;
        assert(htpp * y >= (k - 1) * (ht * d)) by (nonlinear_arith)
            requires
                htpp == h * tpp,
                ht == h * tp,
                0 <= h,
                0 <= tpp,
                y >= x,
                x >= 0,
                tpp * x >= tp * ((k - 1) * d),
        {
            assert(htpp * y >= htpp * x);
            assert(htpp * x == h * (tpp * x));
            assert(h * (tpp * x) >= h * (tp * ((k - 1) * d)));
            assert(h * (tp * ((k - 1) * d)) == (k - 1) * ((h * tp) * d));
        }
        assert((sp * y) * d >= (tp * x) * d + ht * d + htpp * y - (2 * y) * d) by (nonlinear_arith)
            requires
                sp * d >= tp * d + htpp - 2 * d,
                y == x + h,
                0 <= y,
                ht == h * tp,
        {
            assert((sp * d) * y >= (tp * d + htpp - 2 * d) * y);
            assert((tp * d + htpp - 2 * d) * y == (tp * x) * d + (h * tp) * d + htpp * y - (2 * y)
                * d);
        }
        assert(sp * y >= tp * x + k * ht - 2 * y) by (nonlinear_arith)
            requires
                (sp * y) * d >= (tp * x) * d + ht * d + htpp * y - (2 * y) * d,
                htpp * y >= (k - 1) * (ht * d),
                d > 0,
        {
            assert((sp * y) * d >= (tp * x + k * ht - 2 * y) * d);
        }
        assert(sk * d >= tk * d + ht - 2 * d) by (nonlinear_arith)
            requires
                sp * y >= tp * x + k * ht - 2 * y,
                sp * y - sk * (k * d) < k * d,
                0 <= tp * x - tk * (k * d),
                k >= 2,
                0 <= y <= 48 * ONE,
                d == 256 * ONE,
        {
            assert(sk * (k * d) + k * d + 2 * y > tk * (k * d) + k * ht);
            assert(k * (sk * d + d) + 2 * y > k * (tk * d + ht));
            assert(2 * y < d);
        }
    }
}

/// From one argument to a larger one a term of the series rises by at most
/// the step times the term before it at the larger argument, and two units.
pub proof fn lemma_term_rises_at_most(x: int, h: int, k: nat)
    requires
        0 <= x,
        0 <= h,
        x + h <= EXP_LIMIT,
        k >= 1,
    ensures
        series_term(x + h, k) * series_scale() <= series_term(x, k) * series_scale() + h
            * series_term(x + h, (k - 1) as nat) + 2 * series_scale(),
    decreases k,
{
    let d = series_scale();
    let y = x + h;
    let tk = series_term(x, k);
    let tp = series_term(x, (k - 1) as nat);
    let sk = series_term(y, k);
    let sp = series_term(y, (k - 1) as nat);
    lemma_term_unfolds(x, k);
    lemma_term_unfolds(y, k);
    if k == 1 {
        assert(sp * y == tp * x + h * sp) by (nonlinear_arith)
            requires
                sp == ONE,
                tp == ONE,
                y == x + h,
        ;
        assert(sk * (1 * d) == sk * d && tk * (1 * d) == tk * d && 1 * d == d)
            by (nonlinear_arith);
    } else {
        lemma_term_rises_at_most(x, h, (k - 1) as nat);
        lemma_term_unfolds(y, (k - 1) as nat);
        let spp = series_term(y, (k - 2) as nat);
        let hs = h * sp;
        let hspp = h * spp;
        assert(0 <= hs && 0 <= hspp) by (nonlinear_arith)
            requires
                0 <= h,
                0 <= sp,
                0 <= spp,
                hs == h * sp,
                hspp == h * spp,
        ;
        assert(hspp * x <= (k - 1) * ((hs + h) * d)) by (nonlinear_arith)
            requires
                hspp == h * spp,
                hs == h * sp,
                0 <= h,
                0 <= spp,
                y >= x,
                x >= 0,
                spp * y - sp * ((k - 1) * d) < (k - 1) * d,
        {
            assert(hspp * x <= hspp * y);
            assert(hspp * y == h * (spp * y));
            assert(h * (spp * y) <= h * (sp * ((k - 1) * d) + (k - 1) * d));
            assert(h * (sp * ((k - 1) * d) + (k - 1) * d) == (k - 1) * ((h * sp + h) * d));
        }
        assert((sp * x) * d <= (tp * x) * d + hspp * x + (2 * x) * d) by (nonlinear_arith)
            requires
                sp * d <= tp * d + hspp + 2 * d,
                0 <= x,
        {
            assert((sp * d) * x <= (tp * d + hspp + 2 * d) * x);
            assert((tp * d + hspp + 2 * d) * x == (tp * x) * d + hspp * x + (2 * x) * d);
        }
        assert(sp * x <= tp * x + (k - 1) * (hs + h) + 2 * x) by (nonlinear_arith)
            requires
                (sp * x) * d <= (tp * x) * d + hspp * x + (2 * x) * d,
                hspp * x <= (k - 1) * ((hs + h) * d),
                d > 0,
        {
            assert((sp * x) * d <= (tp * x + (k - 1) * (hs + h) + 2 * x) * d);
        }
        assert(sp * y == sp * x + hs) by (nonlinear_arith)
            requires
                y == x + h,
                hs == h * sp,
        ;
        assert(sk * d <= tk * d + hs + 2 * d) by (nonlinear_arith)
            requires
                sp * y <= tp * x + (k - 1) * (hs + h) + 2 * x + hs,
                0 <= sp * y - sk * (k * d),
                tp * x - tk * (k * d) < k * d,
                k >= 2,
                0 <= x,
                0 <= h,
                x + h <= 48 * ONE,
                d == 256 * ONE,
                0 <= hs,
        {
            assert(sk * (k * d) < tk * (k * d) + k * d + k * hs + (k - 1) * h + 2 * x);
            assert((k - 1) * h + 2 * x <= k * d);
            assert(k * (sk * d) < k * (tk * d + hs + 2 * d));
        }
    }
}

/// The sum of the first terms of the series, none of them for `n` zero.
pub open spec fn series_sum_before(x: int, n: nat) -> int {
    if n == 0 {
        0
    } else {
        series_sum(x, (n - 1) as nat)
    }
}

/// From one argument to a larger one the sum of the series rises by at
/// least the step times the sum without its last term, but for two units
/// for each term.
pub proof fn lemma_sum_rises(x: int, h: int, n: nat)
    requires
        0 <= x,
        0 <= h,
        x + h <= EXP_LIMIT,
    ensures
        series_sum(x + h, n) * series_scale() >= series_sum(x, n) * series_scale() + h
            * series_sum_before(x, n) - (2 * n) * series_scale(),
    decreases n,
{
    let d = series_scale();
    if n > 0 {
        lemma_sum_rises(x, h, (n - 1) as nat);
        lemma_term_rises(x, h, n);
        let a = series_sum(x + h, (n - 1) as nat);
        let b = series_sum(x, (n - 1) as nat);
        let c = series_sum_before(x, (n - 1) as nat);
        let t = series_term(x, (n - 1) as nat);
        assert(series_sum_before(x, n) == c + t);
        assert((a + series_term(x + h, n)) * d == a * d + series_term(x + h, n) * d)
            by (nonlinear_arith);
        assert((b + series_term(x, n)) * d == b * d + series_term(x, n) * d) by (nonlinear_arith);
        assert(h * (c + t) == h * c + h * t) by (nonlinear_arith);
        assert((2 * n) * d == (2 * (n - 1)) * d + 2 * d) by (nonlinear_arith);
    } else {
        assert(h * 0 == 0 && (2 * 0) * d == 0) by (nonlinear_arith);
    }
}

/// From one argument to a larger one the sum of the series rises by at most
/// the step times the sum at the larger argument, and two units for each term.
pub proof fn lemma_sum_rises_at_most(x: int, h: int, n: nat)
    requires
        0 <= x,
        0 <= h,
        x + h <= EXP_LIMIT,
    ensures
        series_sum(x + h, n) * series_scale() <= series_sum(x, n) * series_scale() + h
            * series_sum_before(x + h, n) + (2 * n) * series_scale(),
    decreases n,
{
    let d = series_scale();
    if n > 0 {
        lemma_sum_rises_at_most(x, h, (n - 1) as nat);
        lemma_term_rises_at_most(x, h, n);
        let a = series_sum(x + h, (n - 1) as nat);
        let b = series_sum(x, (n - 1) as nat);
        let c = series_sum_before(x + h, (n - 1) as nat);
        let t = series_term(x + h, (n - 1) as nat);
        assert(series_sum_before(x + h, n) == c + t);
        assert((a + series_term(x + h, n)) * d == a * d + series_term(x + h, n) * d)
            by (nonlinear_arith);
        assert((b + series_term(x, n)) * d == b * d + series_term(x, n) * d) by (nonlinear_arith);
        assert(h * (c + t) == h * c + h * t) by (nonlinear_arith);
        assert((2 * n) * d == (2 * (n - 1)) * d + 2 * d) by (nonlinear_arith);
    } else {
        assert(h * 0 == 0 && (2 * 0) * d == 0) by (nonlinear_arith);
    }
}

/// The reciprocal of the sum of the series: the value that is squared to
/// give the negative exponential.
pub open spec fn base(x: int) -> int {
    ONE * ONE / series_sum(x, EXP_TERMS as nat)
}

/// What the reciprocal is by its definition.
proof fn lemma_base_unfolds(x: int)
    requires
        0 <= x <= EXP_LIMIT,
    ensures
        ONE <= series_sum(x, EXP_TERMS as nat) <= 13 * ONE,
        0 <= base(x) <= ONE,
        base(x) * series_sum(x, EXP_TERMS as nat) <= ONE * ONE,
        ONE * ONE < (base(x) + 1) * series_sum(x, EXP_TERMS as nat),
{
    let p = series_sum(x, EXP_TERMS as nat);
    lemma_series_sum_bounds(x, EXP_TERMS as nat);
    assert((12 + 1) * ONE == 13 * ONE) by (nonlinear_arith);
    lemma_fundamental_div_mod(ONE * ONE, p);
    lemma_div_is_ordered(0, ONE * ONE, p);
    assert(0int / p == 0) by (nonlinear_arith)
        requires
            p > 0,
    ;
    assert(base(x) <= ONE) by (nonlinear_arith)
        requires
            p * base(x) <= ONE * ONE,
            p >= ONE,
            base(x) >= 0,
    ;
    assert(p * base(x) == base(x) * p && (base(x) + 1) * p == base(x) * p + p)
        by (nonlinear_arith);
}

/// What the rounding of the series and of its reciprocal can cost.
pub open spec fn base_loss() -> int {
    26
}

/// Over a step `h` the reciprocal falls by the factor `1 / (1 + h)` at least.
pub proof fn lemma_base_falls(x: int, h: int)
    requires
        0 <= x,
        0 <= h,
        x + h <= EXP_LIMIT,
    ensures
        base(x + h) * (series_scale() + h) <= (base(x) + base_loss()) * series_scale(),
{
    let d = series_scale();
    let n = EXP_TERMS as nat;
    let y = x + h;
    let p = series_sum(x, n);
    let r = series_sum(y, n);
    let t = base(x);
    let u = base(y);
    lemma_base_unfolds(x);
    lemma_base_unfolds(y);
    lemma_sum_rises(x, h, n);
    lemma_last_term_is_small(x);
    assert(series_sum_before(x, n) == p - series_term(x, n));
    lemma_series_sum_bounds(x, 11);
    // r * d >= p * (d + h) - 25 * d
    assert(r * d >= p * (d + h) - 25 * d) by (nonlinear_arith)
        requires
            r * d >= p * d + h * (p - series_term(x, 12)) - (2 * 12) * d,
            0 <= series_term(x, 12) <= 3,
            0 <= h <= 48 * ONE,
            d == 256 * ONE,
    {
        assert(h * (p - series_term(x, 12)) >= h * p - 3 * h);
        assert(p * (d + h) == p * d + h * p);
    }
    assert(u * (p * (d + h)) <= (t + 26) * (p * d)) by (nonlinear_arith)
        requires
            r * d >= p * (d + h) - 25 * d,
            u * r <= ONE * ONE,
            ONE * ONE < (t + 1) * p,
            0 <= u <= ONE,
            p >= ONE,
            d > 0,
    {
        assert(u * (p * (d + h) - 25 * d) <= u * (r * d));
        assert(u * (r * d) == (u * r) * d);
        assert((u * r) * d <= (ONE * ONE) * d);
        assert((ONE * ONE) * d <= ((t + 1) * p) * d);
        assert(u * (25 * d) <= ONE * (25 * d));
        assert(ONE * (25 * d) <= p * (25 * d));
        assert(u * (p * (d + h)) <= ((t + 1) * p) * d + p * (25 * d));
        assert(((t + 1) * p) * d + p * (25 * d) == (t + 26) * (p * d));
    }
    assert(u * (d + h) <= (t + 26) * d) by (nonlinear_arith)
        requires
            u * (p * (d + h)) <= (t + 26) * (p * d),
            p > 0,
    {
        assert(p * (u * (d + h)) <= p * ((t + 26) * d));
    }
}

/// Over a step `h` the reciprocal falls by the factor `1 - h` at most.
pub proof fn lemma_base_falls_at_most(x: int, h: int)
    requires
        0 <= x,
        0 <= h,
        x + h <= EXP_LIMIT,
    ensures
        (base(x + h) + base_loss()) * series_scale() >= base(x) * (series_scale() - h),
{
    let d = series_scale();
    let n = EXP_TERMS as nat;
    let y = x + h;
    let p = series_sum(x, n);
    let r = series_sum(y, n);
    let t = base(x);
    let u = base(y);
    lemma_base_unfolds(x);
    lemma_base_unfolds(y);
    lemma_sum_rises_at_most(x, h, n);
    lemma_last_term_is_small(y);
    assert(series_sum_before(y, n) == r - series_term(y, n));
    // r * (d - h) <= (p + 24) * d
    assert(r * (d - h) <= (p + 24) * d) by (nonlinear_arith)
        requires
            r * d <= p * d + h * (r - series_term(y, 12)) + (2 * 12) * d,
            0 <= series_term(y, 12),
            0 <= h,
    {
        assert(h * (r - series_term(y, 12)) <= h * r);
        assert(r * (d - h) == r * d - h * r);
        assert((p + 24) * d == p * d + 24 * d);
    }
    assert(t * (p * (d - h)) <= (u + 26) * (p * d)) by (nonlinear_arith)
        requires
            r * (d - h) <= (p + 24) * d,
            t * p <= ONE * ONE,
            ONE * ONE < (u + 1) * r,
            0 <= u <= ONE,
            0 <= t,
            p >= ONE,
            d > 0,
            0 <= h <= 48 * ONE,
            d == 256 * ONE,
    {
        assert((t * p) * (d - h) <= (ONE * ONE) * (d - h));
        assert((ONE * ONE) * (d - h) <= ((u + 1) * r) * (d - h));
        assert(((u + 1) * r) * (d - h) == (u + 1) * (r * (d - h)));
        assert((u + 1) * (r * (d - h)) <= (u + 1) * ((p + 24) * d));
        assert((u + 1) * ((p + 24) * d) == (u + 1) * (p * d) + (u + 1) * (24 * d));
        assert((u + 1) * (24 * d) <= (ONE + 1) * (24 * d));
        assert((ONE + 1) * (24 * d) <= p * (25 * d));
        assert(t * (p * (d - h)) == (t * p) * (d - h));
        assert((u + 1) * (p * d) + p * (25 * d) == (u + 26) * (p * d));
    }
    assert(t * (d - h) <= (u + 26) * d) by (nonlinear_arith)
        requires
            t * (p * (d - h)) <= (u + 26) * (p * d),
            p > 0,
    {
        assert(p * (t * (d - h)) <= p * ((u + 26) * d));
    }
}

/// What the loss `delta` of a value has grown to when the value was squared `n` times.
pub open spec fn squared_loss(delta: int, n: nat) -> int
    decreases n,
{
    if n == 0 {
        delta
    } else {
        2 * squared_loss(delta, (n - 1) as nat) + 2
    }
}

/// The loss grows with the number of squarings and stays below a small bound.
pub proof fn lemma_squared_loss_bounds(delta: int, n: nat)
    requires
        0 <= delta <= 26,
        n <= 8,
    ensures
        0 <= squared_loss(delta, n) <= 7_166,
    decreases 8 - n,
{
    reveal_with_fuel(squared_loss, 9);
}

/// Squaring keeps the factor of a fall: a value that is at most another
/// one divided by `1 + s` is, squared `n` times, at most the other one
/// squared `n` times and divided by `1 + 2^n * s`.
pub proof fn lemma_squares_fall(u: int, v: int, s: int, delta: int, n: nat)
    requires
        0 <= u <= ONE,
        0 <= v <= ONE,
        0 <= s,
        0 <= delta <= 26,
        n <= 8,
        u * (series_scale() + s) <= (v + delta) * series_scale(),
    ensures
        squared(u, n) * (series_scale() + pow2(n) * s) <= (squared(v, n) + squared_loss(delta, n))
            * series_scale(),
    decreases n,
{
    let d = series_scale();
    if n == 0 {
        assert(pow2(0) * s == s) by (nonlinear_arith)
            requires
                pow2(0) == 1,
        ;
    } else {
        let m = (n - 1) as nat;
        lemma_squares_fall(u, v, s, delta, m);
        lemma_squared_loss_bounds(delta, m);
        lemma_squared_monotone(u, u, m);
        lemma_squared_monotone(v, v, m);
        lemma_squared_monotone(u, u, n);
        lemma_squared_monotone(v, v, n);
        let a = squared(u, m);
        let b = squared(v, m);
        let a2 = squared(u, n);
        let b2 = squared(v, n);
        let e = squared_loss(delta, m);
        let w = pow2(m) * s;
        lemma_pow2_positive(m);
        assert(0 <= w) by (nonlinear_arith)
            requires
                w == pow2(m) * s,
                pow2(m) >= 1,
                s >= 0,
        ;
        assert(pow2(n) * s == 2 * w) by (nonlinear_arith)
            requires
                pow2(n) == 2 * pow2(m),
                w == pow2(m) * s,
        ;
        lemma_fundamental_div_mod(a * a, ONE as int);
        lemma_fundamental_div_mod(b * b, ONE as int);
        // a2 * ONE <= a * a, b * b < (b2 + 1) * ONE
        let lhs = a * (d + w);
        let rhs = (b + e) * d;
        assert(0 <= lhs <= rhs) by (nonlinear_arith)
            requires
                lhs == a * (d + w),
                rhs == (b + e) * d,
                a * (d + w) <= (b + e) * d,
                0 <= a,
                0 <= w,
                d > 0,
        ;
        assert(lhs * lhs <= rhs * rhs) by (nonlinear_arith)
            requires
                0 <= lhs <= rhs,
        ;
        assert((b + e) * (b + e) <= ONE * (b2 + 2 * e + 2)) by (nonlinear_arith)
            requires
                b * b < (b2 + 1) * ONE,
                0 <= b <= ONE,
                0 <= e <= 7_166,
        {
            assert((b + e) * (b + e) == b * b + 2 * (b * e) + e * e);
            assert(b * e <= ONE * e);
            assert(e * e <= ONE);
        }
        assert((a2 * ONE) * (d * (d + 2 * w)) <= (a * a) * ((d + w) * (d + w))) by (nonlinear_arith)
            requires
                0 <= a2 * ONE <= a * a,
                0 <= w,
                d > 0,
        {
            assert(0 <= d * (d + 2 * w) <= (d + w) * (d + w));
        }
        assert((a * a) * ((d + w) * (d + w)) == lhs * lhs) by (nonlinear_arith)
            requires
                lhs == a * (d + w),
        ;
        assert(rhs * rhs == ((b + e) * (b + e)) * (d * d)) by (nonlinear_arith)
            requires
                rhs == (b + e) * d,
        ;
        assert(((b + e) * (b + e)) * (d * d) <= (ONE * (b2 + 2 * e + 2)) * (d * d))
            by (nonlinear_arith)
            requires
                (b + e) * (b + e) <= ONE * (b2 + 2 * e + 2),
                d > 0,
        ;
        assert(a2 * (d + 2 * w) <= (b2 + 2 * e + 2) * d) by (nonlinear_arith)
            requires
                (a2 * ONE) * (d * (d + 2 * w)) <= (ONE * (b2 + 2 * e + 2)) * (d * d),
                d > 0,
        {
            assert((ONE * d) * (a2 * (d + 2 * w)) <= (ONE * d) * ((b2 + 2 * e + 2) * d));
        }
    }
}

/// Squaring keeps the factor of a fall from below: a value that is at least
/// another one times `1 - s` is, squared `n` times, at least the other one
/// squared `n` times and multiplied by `1 - 2^n * s`.
pub proof fn lemma_squares_fall_at_most(u: int, v: int, s: int, delta: int, n: nat)
    requires
        0 <= u <= ONE,
        0 <= v <= ONE,
        0 <= s,
        0 <= delta <= 26,
        n <= 8,
        (u + delta) * series_scale() >= v * (series_scale() - s),
    ensures
        (squared(u, n) + squared_loss(delta, n)) * series_scale() >= squared(v, n) * (
        series_scale() - pow2(n) * s),
    decreases n,
{
    let d = series_scale();
    if n == 0 {
        assert(pow2(0) * s == s) by (nonlinear_arith)
            requires
                pow2(0) == 1,
        ;
    } else {
        let m = (n - 1) as nat;
        lemma_squares_fall_at_most(u, v, s, delta, m);
        lemma_squared_loss_bounds(delta, m);
        lemma_squared_loss_bounds(delta, n);
        lemma_squared_monotone(u, u, m);
        lemma_squared_monotone(v, v, m);
        lemma_squared_monotone(u, u, n);
        lemma_squared_monotone(v, v, n);
        let a = squared(u, m);
        let b = squared(v, m);
        let a2 = squared(u, n);
        let b2 = squared(v, n);
        let e = squared_loss(delta, m);
        let w = pow2(m) * s;
        lemma_pow2_positive(m);
        assert(0 <= w) by (nonlinear_arith)
            requires
                w == pow2(m) * s,
                pow2(m) >= 1,
                s >= 0,
        ;
        assert(pow2(n) * s == 2 * w) by (nonlinear_arith)
            requires
                pow2(n) == 2 * pow2(m),
                w == pow2(m) * s,
        ;
        lemma_fundamental_div_mod(a * a, ONE as int);
        lemma_fundamental_div_mod(b * b, ONE as int);
        if d - 2 * w <= 0 {
            assert(b2 * (d - 2 * w) <= 0 <= (a2 + (2 * e + 2)) * d) by (nonlinear_arith)
                requires
                    0 <= b2,
                    d - 2 * w <= 0,
                    0 <= a2,
                    0 <= e,
                    d > 0,
            ;
        } else {
            let lhs = b * (d - w);
            let rhs = (a + e) * d;
            assert(0 <= lhs <= rhs) by (nonlinear_arith)
                requires
                    lhs == b * (d - w),
                    rhs == (a + e) * d,
                    (a + e) * d >= b * (d - w),
                    0 <= b,
                    d - 2 * w > 0,
                    0 <= w,
            ;
            assert(lhs * lhs <= rhs * rhs) by (nonlinear_arith)
                requires
                    0 <= lhs <= rhs,
            ;
            assert((a + e) * (a + e) <= ONE * (a2 + 2 * e + 2)) by (nonlinear_arith)
                requires
                    a * a < (a2 + 1) * ONE,
                    0 <= a <= ONE,
                    0 <= e <= 7_166,
            {
                assert((a + e) * (a + e) == a * a + 2 * (a * e) + e * e);
                assert(a * e <= ONE * e);
                assert(e * e <= ONE);
            }
            assert((b2 * ONE) * (d * (d - 2 * w)) <= (b * b) * ((d - w) * (d - w)))
                by (nonlinear_arith)
                requires
                    0 <= b2 * ONE <= b * b,
                    0 <= w,
                    d - 2 * w > 0,
            {
                assert(0 <= d * (d - 2 * w) <= (d - w) * (d - w));
            }
            assert((b * b) * ((d - w) * (d - w)) == lhs * lhs) by (nonlinear_arith)
                requires
                    lhs == b * (d - w),
            ;
            assert(rhs * rhs == ((a + e) * (a + e)) * (d * d)) by (nonlinear_arith)
                requires
                    rhs == (a + e) * d,
            ;
            assert(((a + e) * (a + e)) * (d * d) <= (ONE * (a2 + 2 * e + 2)) * (d * d))
                by (nonlinear_arith)
                requires
                    (a + e) * (a + e) <= ONE * (a2 + 2 * e + 2),
                    d > 0,
            ;
            assert(b2 * (d - 2 * w) <= (a2 + 2 * e + 2) * d) by (nonlinear_arith)
                requires
                    (b2 * ONE) * (d * (d - 2 * w)) <= (ONE * (a2 + 2 * e + 2)) * (d * d),
                    d > 0,
            {
                assert((ONE * d) * (b2 * (d - 2 * w)) <= (ONE * d) * ((a2 + 2 * e + 2) * d));
            }
        }
    }
}

/// What the rounding of the negative exponential can cost over a step that
/// stays below the limit.
pub const FALL_LOSS: u128 = 7_166;

/// What the rounding of the negative exponential can cost over any step.
pub const EXP_TOLERANCE: u128 = 14_272;

/// Over a step `h` the negative exponential falls by the factor
/// `1 / (1 + h)` at least, but for the loss.
pub proof fn lemma_exp_neg_falls(x: int, h: int)
    requires
        0 <= x,
        0 <= h,
    ensures
        exp_neg(x + h) * (ONE + h) <= (exp_neg(x) + FALL_LOSS) * ONE,
{
    lemma_exp_neg_monotone(x, x + h);
    if x + h < EXP_LIMIT {
        let d = series_scale();
        lemma_base_unfolds(x);
        lemma_base_unfolds(x + h);
        lemma_base_falls(x, h);
        lemma_squares_fall(base(x + h), base(x), h, base_loss(), EXP_SQUARINGS as nat);
        assert(pow2(8) == 256 && squared_loss(26, 8) == 7_166) by {
            reveal_with_fuel(pow2, 9);
            reveal_with_fuel(squared_loss, 9);
        }
        let e = exp_neg(x + h);
        let f = exp_neg(x);
        assert(e * (ONE + h) <= (f + 7_166) * ONE) by (nonlinear_arith)
            requires
                e * (256 * ONE + 256 * h) <= (f + 7_166) * (256 * ONE),
        {
            assert(256 * (e * (ONE + h)) <= 256 * ((f + 7_166) * ONE));
        }
    } else {
        assert(0 * (ONE + h) == 0 && (exp_neg(x) + FALL_LOSS) * ONE >= 0) by (nonlinear_arith)
            requires
                exp_neg(x) >= 0,
        ;
    }
}

/// The negative exponential of a whole number `k` is at most `2^(-k)`, but
/// for the loss.
pub proof fn lemma_exp_neg_halves(k: nat)
    ensures
        exp_neg(k * ONE) * pow2(k) <= ONE + FALL_LOSS * (pow2(k) - 1),
    decreases k,
{
    if k == 0 {
        lemma_exp_neg_zero();
        assert(0 * ONE == 0 && ONE * 1 == ONE) by (nonlinear_arith);
    } else {
        let m = (k - 1) as nat;
        lemma_exp_neg_halves(m);
        assert(m * ONE >= 0 && m * ONE + ONE == k * ONE) by (nonlinear_arith)
            requires
                m + 1 == k,
        ;
        lemma_exp_neg_falls(m * ONE, ONE as int);
        lemma_pow2_positive(m);
        let e = exp_neg(k * ONE);
        let f = exp_neg(m * ONE);
        let p = pow2(m);
        assert(e * (2 * p) <= ONE + 7_166 * (2 * p - 1)) by (nonlinear_arith)
            requires
                e * (ONE + ONE) <= (f + 7_166) * ONE,
                f * p <= ONE + 7_166 * (p - 1),
                p >= 1,
        {
            assert(2 * e <= f + 7_166);
            assert((2 * e) * p <= (f + 7_166) * p);
        }
    }
}

/// Near the limit the negative exponential is within the tolerance of zero.
pub proof fn lemma_exp_neg_is_small_near_limit(x: int)
    requires
        x >= EXP_LIMIT - ONE,
    ensures
        0 <= exp_neg(x) < EXP_TOLERANCE,
{
    lemma_exp_neg_halves(47);
    assert(47 * ONE == EXP_LIMIT - ONE);
    lemma_exp_neg_monotone(47 * ONE, x);
    assert(pow2(47) == 140_737_488_355_328) by {
        lemma_pow2_adds(8, 8);
        lemma_pow2_adds(16, 16);
        lemma_pow2_adds(32, 8);
        lemma_pow2_adds(40, 7);
        assert(pow2(8) == 256 && pow2(7) == 128) by {
            reveal_with_fuel(pow2, 9);
        }
        let p8 = pow2(8);
        let p16 = pow2(16);
        let p32 = pow2(32);
        let p40 = pow2(40);
        assert(p16 == 65_536) by (nonlinear_arith)
            requires
                p16 == p8 * p8,
                p8 == 256,
        ;
        assert(p32 == 4_294_967_296) by (nonlinear_arith)
            requires
                p32 == p16 * p16,
                p16 == 65_536,
        ;
        assert(p40 == 1_099_511_627_776) by (nonlinear_arith)
            requires
                p40 == p32 * p8,
                p32 == 4_294_967_296,
                p8 == 256,
        ;
        assert(pow2(47) == 140_737_488_355_328) by (nonlinear_arith)
            requires
                pow2(47) == p40 * pow2(7),
                p40 == 1_099_511_627_776,
                pow2(7) == 128,
        ;
    }
}

/// Over a step `h` the negative exponential falls by the factor `1 - h` at
/// most, but for the tolerance.
pub proof fn lemma_exp_neg_falls_at_most(x: int, h: int)
    requires
        0 <= x,
        0 <= h,
    ensures
        (exp_neg(x + h) + EXP_TOLERANCE) * ONE >= exp_neg(x) * (ONE - h),
{
    lemma_exp_neg_monotone(x, x + h);
    let e = exp_neg(x + h);
    let f = exp_neg(x);
    if x + h < EXP_LIMIT {
        let d = series_scale();
        lemma_base_unfolds(x);
        lemma_base_unfolds(x + h);
        lemma_base_falls_at_most(x, h);
        lemma_squares_fall_at_most(base(x + h), base(x), h, base_loss(), EXP_SQUARINGS as nat);
        assert(pow2(8) == 256 && squared_loss(26, 8) == 7_166) by {
            reveal_with_fuel(pow2, 9);
            reveal_with_fuel(squared_loss, 9);
        }
        assert((e + 14_272) * ONE >= f * (ONE - h)) by (nonlinear_arith)
            requires
                (e + 7_166) * (256 * ONE) >= f * (256 * ONE - 256 * h),
        {
            assert(256 * ((e + 7_166) * ONE) >= 256 * (f * (ONE - h)));
        }
    } else if h >= ONE {
        assert(f * (ONE - h) <= 0 <= (e + 14_272) * ONE) by (nonlinear_arith)
            requires
                0 <= f,
                h >= ONE,
                0 <= e,
        ;
    } else {
        lemma_exp_neg_is_small_near_limit(x);
        assert(f * (ONE - h) <= (e + 14_272) * ONE) by (nonlinear_arith)
            requires
                0 <= f < 14_272,
                0 <= h,
                0 <= e,
        {
            assert(f * (ONE - h) <= f * ONE);
        }
    }
}

/// Every line that touches the graph of the negative exponential lies below
/// it, but for the tolerance: at any `x` the value is at least what the line
/// through the value at `z` with the slope of the exponential there gives.
pub proof fn lemma_exp_neg_lies_above_its_tangents(x: int, z: int)
    requires
        0 <= x,
        0 <= z,
    ensures
        (exp_neg(x) + EXP_TOLERANCE) * ONE >= exp_neg(z) * (ONE - (x - z)),
{
    if x >= z {
        lemma_exp_neg_falls_at_most(z, x - z);
    } else {
        lemma_exp_neg_falls(x, z - x);
        lemma_exp_neg_monotone(x, z);
        assert((exp_neg(x) + 14_272) * ONE >= (exp_neg(x) + 7_166) * ONE) by (nonlinear_arith);
    }
}

} // verus!
