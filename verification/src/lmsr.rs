//! The pricing engine: the logarithmic market scoring rule in fixed point.
//!
//! Quantities, the liquidity parameter and all costs are mantissas at the
//! scale of the collateral: `q` shares of a market whose collateral has `d`
//! decimals are the quantity `q * 10^d`. The engine is stateless.
//!
//! The cost function is `C(q) = b * ln(sum_i exp(q_i / b))`, a log-sum-exp.
//! It is evaluated from the largest quantity `m`: every exponent is taken of
//! `(q_i - m) / b` or less, so no exponential exceeds one, and `m` is part of
//! the result. The logarithm of a sum `S` is the shift `t` at which
//! `exp(-t) * S` is one. Here the factor `exp(-t)` is taken into each term of
//! the sum, which is the same in exact arithmetic and keeps the result in step
//! with the quantities in fixed point: the weight of outcome `i` at the level
//! `c` is `exp((q_i - c) / b)`, the mass at `c` is the sum of the weights,
//! and the cost is the largest level, counted from `m` upwards, at which the
//! mass still reaches one. The mass falls as the level rises and rises with
//! every quantity, so the cost rises with every quantity, whatever was
//! rounded on the way.

use crate::fixed::{
    exp_neg, exp_neg_fixed, lemma_exp_neg_decay, lemma_exp_neg_monotone, ratio, EXP_LIMIT,
    EXP_REDUCTION, ONE,
};
use vstd::arithmetic::div_mod::{
    lemma_div_is_ordered, lemma_fundamental_div_mod, lemma_fundamental_div_mod_converse,
};
use vstd::prelude::*;

verus! {

/// The largest liquidity parameter that the engine accepts.
pub const MAX_LIQUIDITY: u128 = 1_000_000_000_000_000_000_000_000_000;

/// The largest magnitude of a quantity that the engine accepts.
pub const MAX_QUANTITY: i128 = 10_000_000_000_000_000_000_000_000_000_000_000_000;

/// The largest price scale that the engine accepts.
pub const MAX_UNIT: u128 = 1_000_000_000_000_000_000;

/// A weight is zero once the cost level is this many liquidity parameters above the quantity.
pub const WEIGHT_SPAN: u128 = 48;

/// The weight `exp(-d / b)` of an outcome whose quantity lies `d` below the level.
/// An outcome at or above the level has weight one.
pub open spec fn weight(d: int, b: int) -> int {
    if d <= 0 {
        ONE as int
    } else {
        exp_neg(d * ONE / b)
    }
}

/// The sum of the weights of the first `n` outcomes at the level `c`.
pub open spec fn mass_upto(q: Seq<int>, b: int, c: int, n: nat) -> int
    decreases n,
{
    if n == 0 {
        0
    } else {
        mass_upto(q, b, c, (n - 1) as nat) + weight(c - q[n - 1], b)
    }
}

/// The sum of the weights of all outcomes at the level `c`.
pub open spec fn mass(q: Seq<int>, b: int, c: int) -> int {
    mass_upto(q, b, c, q.len())
}

/// The largest of the first `n` quantities.
pub open spec fn top_upto(q: Seq<int>, n: nat) -> int
    decreases n,
{
    if n <= 1 {
        q[0]
    } else if q[n - 1] > top_upto(q, (n - 1) as nat) {
        q[n - 1]
    } else {
        top_upto(q, (n - 1) as nat)
    }
}

/// The largest quantity.
pub open spec fn top(q: Seq<int>) -> int {
    top_upto(q, q.len())
}

/// `c` is the cost of `q`: the mass reaches one at `c` and no longer at `c + 1`.
pub open spec fn is_cost(q: Seq<int>, b: int, c: int) -> bool {
    mass(q, b, c) >= ONE && mass(q, b, c + 1) < ONE
}

/// The cost function of the market maker.
pub open spec fn lmsr_cost(q: Seq<int>, b: int) -> int {
    choose|c: int| is_cost(q, b, c)
}

/// The marginal price of outcome `i`, as a mantissa at the scale `unit`.
pub open spec fn lmsr_price(q: Seq<int>, b: int, unit: int, i: int) -> int {
    weight(top(q) - q[i], b) * unit / mass(q, b, top(q))
}

/// The sum of the marginal prices of the first `n` outcomes.
pub open spec fn price_sum(q: Seq<int>, b: int, unit: int, n: nat) -> int
    decreases n,
{
    if n == 0 {
        0
    } else {
        price_sum(q, b, unit, (n - 1) as nat) + lmsr_price(q, b, unit, n - 1)
    }
}

/// What it costs to raise the quantity of outcome `i` by `k`.
pub open spec fn lmsr_buy_cost(q: Seq<int>, b: int, i: int, k: int) -> int {
    lmsr_cost(q.update(i, q[i] + k), b) - lmsr_cost(q, b)
}

/// What the market pays to lower the quantity of outcome `i` by `k`.
pub open spec fn lmsr_sell_proceeds(q: Seq<int>, b: int, i: int, k: int) -> int {
    lmsr_cost(q, b) - lmsr_cost(q.update(i, q[i] - k), b)
}

/// The fee on a trade of the given value: the rate in basis points, rounded up.
pub open spec fn trade_fee(value: int, bps: int) -> int {
    (value * bps + 9_999) / 10_000
}

/// Every quantity of `q` is at most the quantity of `r` at the same place.
pub open spec fn pointwise_le(q: Seq<int>, r: Seq<int>) -> bool {
    q.len() == r.len() && forall|j: int| 0 <= j < q.len() ==> q[j] <= r[j]
}

/// Every quantity of `q` raised by `t`.
pub open spec fn shifted(q: Seq<int>, t: int) -> Seq<int> {
    Seq::new(q.len(), |j: int| q[j] + t)
}

/// A weight lies between zero and one.
pub proof fn lemma_weight_bounds(d: int, b: int)
    requires
        b > 0,
    ensures
        0 <= weight(d, b) <= ONE,
{
    lemma_weight_antitone(d, d, b);
}

/// The weight does not increase with the distance below the level.
pub proof fn lemma_weight_antitone(d: int, e: int, b: int)
    requires
        d <= e,
        b > 0,
    ensures
        0 <= weight(e, b) <= weight(d, b) <= ONE,
{
    if e > 0 {
        let xe = e * ONE / b;
        assert(0 <= e * ONE) by (nonlinear_arith)
            requires
                e > 0,
        ;
        lemma_div_is_ordered(0, e * ONE, b);
        assert(0int / b == 0) by (nonlinear_arith)
            requires
                b > 0,
        ;
        if d > 0 {
            assert(0 <= d * ONE <= e * ONE) by (nonlinear_arith)
                requires
                    0 < d <= e,
            ;
            lemma_div_is_ordered(0, d * ONE, b);
            lemma_div_is_ordered(d * ONE, e * ONE, b);
            lemma_exp_neg_monotone(d * ONE / b, xe);
        } else {
            lemma_exp_neg_monotone(xe, xe);
        }
    }
}

/// The weight is zero from [`WEIGHT_SPAN`] liquidity parameters below the level on.
pub proof fn lemma_weight_vanishes(d: int, b: int)
    requires
        b > 0,
        d >= WEIGHT_SPAN * b,
    ensures
        weight(d, b) == 0,
{
    assert(d * ONE >= EXP_LIMIT * b) by (nonlinear_arith)
        requires
            d >= 48 * b,
            b > 0,
    ;
    lemma_div_is_ordered(EXP_LIMIT * b, d * ONE, b);
    assert(EXP_LIMIT * b / b == EXP_LIMIT) by (nonlinear_arith)
        requires
            b > 0,
    ;
}

/// The mass of a prefix lies between zero and one per outcome.
pub proof fn lemma_mass_bounds(q: Seq<int>, b: int, c: int, n: nat)
    requires
        b > 0,
    ensures
        0 <= mass_upto(q, b, c, n) <= n * ONE,
    decreases n,
{
    if n > 0 {
        lemma_mass_bounds(q, b, c, (n - 1) as nat);
        lemma_weight_bounds(c - q[n - 1], b);
        assert(n * ONE == (n - 1) * ONE + ONE) by (nonlinear_arith);
    } else {
        assert(0 * ONE == 0) by (nonlinear_arith);
    }
}

/// The mass does not increase with the level.
pub proof fn lemma_mass_antitone(q: Seq<int>, b: int, c: int, d: int, n: nat)
    requires
        b > 0,
        c <= d,
    ensures
        mass_upto(q, b, d, n) <= mass_upto(q, b, c, n),
    decreases n,
{
    if n > 0 {
        lemma_mass_antitone(q, b, c, d, (n - 1) as nat);
        lemma_weight_antitone(c - q[n - 1], d - q[n - 1], b);
    }
}

/// The mass does not decrease when quantities rise.
pub proof fn lemma_mass_monotone(q: Seq<int>, r: Seq<int>, b: int, c: int, n: nat)
    requires
        b > 0,
        pointwise_le(q, r),
        n <= q.len(),
    ensures
        mass_upto(q, b, c, n) <= mass_upto(r, b, c, n),
    decreases n,
{
    if n > 0 {
        lemma_mass_monotone(q, r, b, c, (n - 1) as nat);
        lemma_weight_antitone(c - r[n - 1], c - q[n - 1], b);
    }
}

/// Raising every quantity and the level by the same amount leaves the mass as it was.
pub proof fn lemma_mass_shifted(q: Seq<int>, b: int, c: int, t: int, n: nat)
    requires
        n <= q.len(),
    ensures
        mass_upto(shifted(q, t), b, c + t, n) == mass_upto(q, b, c, n),
    decreases n,
{
    if n > 0 {
        lemma_mass_shifted(q, b, c, t, (n - 1) as nat);
    }
}

/// The mass of a prefix is at least the weight of each outcome in it.
pub proof fn lemma_mass_includes(q: Seq<int>, b: int, c: int, n: nat, j: int)
    requires
        b > 0,
        0 <= j < n,
    ensures
        weight(c - q[j], b) <= mass_upto(q, b, c, n),
    decreases n,
{
    lemma_mass_bounds(q, b, c, (n - 1) as nat);
    lemma_weight_bounds(c - q[n - 1], b);
    if j < n - 1 {
        lemma_mass_includes(q, b, c, (n - 1) as nat, j);
    }
}

/// The largest quantity of a prefix is one of its quantities and bounds them all.
pub proof fn lemma_top_upto(q: Seq<int>, n: nat)
    requires
        0 < n <= q.len(),
    ensures
        forall|j: int| 0 <= j < n ==> q[j] <= top_upto(q, n),
        exists|j: int| 0 <= j < n && q[j] == top_upto(q, n),
    decreases n,
{
    if n > 1 {
        lemma_top_upto(q, (n - 1) as nat);
        let j = choose|j: int| 0 <= j < n - 1 && q[j] == top_upto(q, (n - 1) as nat);
        if q[n - 1] > top_upto(q, (n - 1) as nat) {
            assert(q[n - 1] == top_upto(q, n));
        } else {
            assert(q[j] == top_upto(q, n));
        }
    } else {
        assert(q[0] == top_upto(q, n));
    }
}

/// The mass is zero once the level lies [`WEIGHT_SPAN`] liquidity parameters above every quantity.
pub proof fn lemma_mass_vanishes(q: Seq<int>, b: int, c: int, n: nat)
    requires
        b > 0,
        n <= q.len(),
        forall|j: int| 0 <= j < n ==> c - q[j] >= WEIGHT_SPAN * b,
    ensures
        mass_upto(q, b, c, n) == 0,
    decreases n,
{
    if n > 0 {
        lemma_mass_vanishes(q, b, c, (n - 1) as nat);
        lemma_weight_vanishes(c - q[n - 1], b);
    }
}

/// The mass reaches one at the largest quantity and is zero
/// [`WEIGHT_SPAN`] liquidity parameters above it.
pub proof fn lemma_mass_at_top(q: Seq<int>, b: int)
    requires
        b > 0,
        q.len() > 0,
    ensures
        mass(q, b, top(q)) >= ONE,
        mass(q, b, top(q) + WEIGHT_SPAN * b) == 0,
{
    lemma_top_upto(q, q.len());
    let j = choose|j: int| 0 <= j < q.len() && q[j] == top(q);
    lemma_mass_includes(q, b, top(q), q.len(), j);
    lemma_mass_vanishes(q, b, top(q) + WEIGHT_SPAN * b, q.len());
}

/// Between a level at which the mass reaches one and a higher one at which it
/// does not lies a cost.
pub proof fn lemma_cost_between(q: Seq<int>, b: int, lo: int, hi: int) -> (c: int)
    requires
        lo < hi,
        mass(q, b, lo) >= ONE,
        mass(q, b, hi) < ONE,
    ensures
        lo <= c < hi,
        is_cost(q, b, c),
    decreases hi - lo,
{
    if mass(q, b, lo + 1) < ONE {
        lo
    } else {
        lemma_cost_between(q, b, lo + 1, hi)
    }
}

/// No two levels are the cost of the same quantities.
pub proof fn lemma_cost_unique(q: Seq<int>, b: int, c: int, d: int)
    requires
        b > 0,
        is_cost(q, b, c),
        is_cost(q, b, d),
    ensures
        c == d,
{
    if c < d {
        lemma_mass_antitone(q, b, c + 1, d, q.len());
    }
    if d < c {
        lemma_mass_antitone(q, b, d + 1, c, q.len());
    }
}

/// The cost function names the one cost of the quantities. It lies between the
/// largest quantity and [`WEIGHT_SPAN`] liquidity parameters above it.
pub proof fn lemma_cost_exists(q: Seq<int>, b: int)
    requires
        b > 0,
        q.len() > 0,
    ensures
        is_cost(q, b, lmsr_cost(q, b)),
        top(q) <= lmsr_cost(q, b) < top(q) + WEIGHT_SPAN * b,
{
    lemma_mass_at_top(q, b);
    assert(WEIGHT_SPAN * b > 0) by (nonlinear_arith)
        requires
            b > 0,
    ;
    let c = lemma_cost_between(q, b, top(q), top(q) + WEIGHT_SPAN * b);
    lemma_cost_unique(q, b, c, lmsr_cost(q, b));
}

/// A level that is a cost is the value of the cost function.
pub proof fn lemma_cost_is(q: Seq<int>, b: int, c: int)
    requires
        b > 0,
        is_cost(q, b, c),
    ensures
        lmsr_cost(q, b) == c,
{
    lemma_cost_unique(q, b, c, lmsr_cost(q, b));
}

/// The cost is at least every quantity: it covers what the market maker
/// owes whichever outcome wins.
pub proof fn lemma_cost_covers_quantities(q: Seq<int>, b: int, i: int)
    requires
        b > 0,
        0 <= i < q.len(),
    ensures
        q[i] <= lmsr_cost(q, b),
{
    lemma_cost_exists(q, b);
    lemma_top_upto(q, q.len());
}

/// What the rounding of the weights can add to the bound of the cost: the
/// part of a liquidity parameter that the exponential does not resolve.
pub open spec fn cost_slack(b: int) -> int {
    EXP_REDUCTION * b / (ONE as int)
}

/// The mass is at most the weight at the distance `d` for each outcome,
/// once the level lies `d` above every quantity.
proof fn lemma_mass_below(q: Seq<int>, b: int, c: int, d: int, n: nat)
    requires
        b > 0,
        n <= q.len(),
        forall|j: int| 0 <= j < n ==> c - q[j] >= d,
    ensures
        mass_upto(q, b, c, n) <= n * weight(d, b),
    decreases n,
{
    if n > 0 {
        lemma_mass_below(q, b, c, d, (n - 1) as nat);
        lemma_weight_antitone(d, c - q[n - 1], b);
        assert(n * weight(d, b) == (n - 1) * weight(d, b) + weight(d, b)) by (nonlinear_arith);
    } else {
        assert(0 * weight(d, b) == 0) by (nonlinear_arith);
    }
}

/// The loss of the market maker is bounded. The cost exceeds the largest
/// quantity by no more than one liquidity parameter for each outcome but
/// one, and the slack.
///
/// With no shares issued the cost is what the market maker can lose at most,
/// so a market that starts with this much collateral is solvent.
pub proof fn lemma_cost_is_bounded(q: Seq<int>, b: int)
    requires
        b > 0,
        q.len() > 0,
    ensures
        top(q) <= lmsr_cost(q, b) <= top(q) + (q.len() - 1) * b + cost_slack(b),
{
    let n = q.len() as int;
    let d = (n - 1) * b + cost_slack(b) + 1;
    let c = top(q) + d;
    lemma_cost_exists(q, b);
    lemma_top_upto(q, q.len());
    assert(0 <= (n - 1) * b) by (nonlinear_arith)
        requires
            n >= 1,
            b > 0,
    ;
    lemma_fundamental_div_mod(EXP_REDUCTION * b, ONE as int);
    assert(0 <= cost_slack(b)) by {
        lemma_div_is_ordered(0, EXP_REDUCTION * b, ONE as int);
    }
    let x = d * ONE / b;
    assert(d * ONE >= ((n - 1) * ONE + EXP_REDUCTION) * b) by (nonlinear_arith)
        requires
            d == (n - 1) * b + cost_slack(b) + 1,
            256 * b == ONE * cost_slack(b) + (256 * b) % (ONE as int),
            (256 * b) % (ONE as int) < ONE,
    ;
    lemma_div_is_ordered(((n - 1) * ONE + EXP_REDUCTION) * b, d * ONE, b);
    assert(((n - 1) * ONE + EXP_REDUCTION) * b / b == (n - 1) * ONE + EXP_REDUCTION)
        by (nonlinear_arith)
        requires
            b > 0,
    ;
    lemma_exp_neg_decay(x);
    let w = weight(d, b);
    lemma_weight_bounds(d, b);
    assert(n * w < ONE) by (nonlinear_arith)
        requires
            0 <= w,
            n >= 1,
            w * (ONE + x - 255) <= ONE * ONE,
            x >= (n - 1) * ONE + 256,
    {
        assert(w * (n * ONE + 1) <= w * (ONE + x - 255));
    }
    lemma_mass_below(q, b, c, d, q.len());
    if lmsr_cost(q, b) >= c {
        lemma_mass_antitone(q, b, c, lmsr_cost(q, b), q.len());
    }
}

/// The cost does not decrease when quantities rise.
pub proof fn lemma_cost_monotone(q: Seq<int>, r: Seq<int>, b: int)
    requires
        b > 0,
        q.len() > 0,
        pointwise_le(q, r),
    ensures
        lmsr_cost(q, b) <= lmsr_cost(r, b),
{
    lemma_cost_exists(q, b);
    lemma_cost_exists(r, b);
    let c = lmsr_cost(q, b);
    let d = lmsr_cost(r, b);
    lemma_mass_monotone(q, r, b, c, q.len());
    if d < c {
        lemma_mass_antitone(r, b, d + 1, c, r.len());
    }
}

/// Raising every quantity by `t` raises the cost by `t`.
pub proof fn lemma_cost_shifted(q: Seq<int>, b: int, t: int)
    requires
        b > 0,
        q.len() > 0,
    ensures
        lmsr_cost(shifted(q, t), b) == lmsr_cost(q, b) + t,
{
    lemma_cost_exists(q, b);
    let c = lmsr_cost(q, b);
    lemma_mass_shifted(q, b, c, t, q.len());
    lemma_mass_shifted(q, b, c + 1, t, q.len());
    lemma_cost_is(shifted(q, t), b, c + t);
}

/// Raising one quantity costs nothing negative, and at most the amount it is raised by.
pub proof fn lemma_buy_cost_bounds(q: Seq<int>, b: int, i: int, k: int)
    requires
        b > 0,
        0 <= i < q.len(),
        k >= 0,
    ensures
        0 <= lmsr_buy_cost(q, b, i, k) <= k,
{
    let r = q.update(i, q[i] + k);
    lemma_cost_monotone(q, r, b);
    lemma_cost_monotone(r, shifted(q, k), b);
    lemma_cost_shifted(q, b, k);
}

/// Raising one quantity by more does not cost less.
pub proof fn lemma_buy_cost_monotone(q: Seq<int>, b: int, i: int, k1: int, k2: int)
    requires
        b > 0,
        0 <= i < q.len(),
        k1 <= k2,
    ensures
        lmsr_buy_cost(q, b, i, k1) <= lmsr_buy_cost(q, b, i, k2),
{
    lemma_cost_monotone(q.update(i, q[i] + k1), q.update(i, q[i] + k2), b);
}

/// Selling is buying in reverse: the proceeds of lowering a quantity by `k`
/// are the cost of raising it by `k` again.
pub proof fn lemma_sell_mirrors_buy(q: Seq<int>, b: int, i: int, k: int)
    requires
        0 <= i < q.len(),
    ensures
        lmsr_sell_proceeds(q, b, i, k) == lmsr_buy_cost(q.update(i, q[i] - k), b, i, k),
{
    let r = q.update(i, q[i] - k);
    assert(r.update(i, r[i] + k) =~= q);
}

/// Lowering one quantity pays nothing negative, and at most the amount it is lowered by.
pub proof fn lemma_sell_proceeds_bounds(q: Seq<int>, b: int, i: int, k: int)
    requires
        b > 0,
        0 <= i < q.len(),
        k >= 0,
    ensures
        0 <= lmsr_sell_proceeds(q, b, i, k) <= k,
{
    lemma_sell_mirrors_buy(q, b, i, k);
    lemma_buy_cost_bounds(q.update(i, q[i] - k), b, i, k);
}

/// Lowering one quantity by more does not pay less.
pub proof fn lemma_sell_proceeds_monotone(q: Seq<int>, b: int, i: int, k1: int, k2: int)
    requires
        b > 0,
        0 <= i < q.len(),
        k1 <= k2,
    ensures
        lmsr_sell_proceeds(q, b, i, k1) <= lmsr_sell_proceeds(q, b, i, k2),
{
    lemma_cost_monotone(q.update(i, q[i] - k2), q.update(i, q[i] - k1), b);
}

/// The cost of shares bought in two lots is the cost of the first lot and
/// the cost of the second at the quantities that the first has left.
pub proof fn lemma_buy_cost_additive(q: Seq<int>, b: int, i: int, k1: int, k2: int)
    requires
        0 <= i < q.len(),
    ensures
        lmsr_buy_cost(q, b, i, k1 + k2) == lmsr_buy_cost(q, b, i, k1) + lmsr_buy_cost(
            q.update(i, q[i] + k1),
            b,
            i,
            k2,
        ),
{
    let r = q.update(i, q[i] + k1);
    assert(r.update(i, r[i] + k2) =~= q.update(i, q[i] + (k1 + k2)));
}

/// The largest quantity does not fall when quantities rise.
pub proof fn lemma_top_monotone(q: Seq<int>, r: Seq<int>)
    requires
        q.len() > 0,
        pointwise_le(q, r),
    ensures
        top(q) <= top(r),
{
    lemma_top_upto(q, q.len());
    lemma_top_upto(r, r.len());
}

/// A quotient that is larger as a fraction is no smaller rounded down.
proof fn lemma_div_cross(a: int, b: int, c: int, d: int)
    requires
        0 <= c,
        0 < b,
        0 < d,
        c * b <= a * d,
    ensures
        c / d <= a / b,
{
    let m = c / d;
    lemma_fundamental_div_mod(c, d);
    lemma_fundamental_div_mod(a, b);
    assert(m * b <= a) by (nonlinear_arith)
        requires
            d * m <= c,
            c * b <= a * d,
            0 < d,
            0 < b,
            0 <= m,
    {
        assert(d * m * b <= c * b);
        assert(d * (m * b) <= d * a);
    }
    assert(m <= a / b) by (nonlinear_arith)
        requires
            m * b <= a,
            a == b * (a / b) + a % b,
            0 <= a % b < b,
    ;
}

/// The mass of the outcomes other than `i` at the level `c`: the mass less the weight of `i`.
pub open spec fn mass_of_others(q: Seq<int>, b: int, c: int, i: int) -> int {
    mass(q, b, c) - weight(c - q[i], b)
}

/// Quantities that differ in outcome `i` alone have the same mass apart from the weight of `i`.
proof fn lemma_mass_apart(q: Seq<int>, r: Seq<int>, b: int, c: int, i: int, n: nat)
    requires
        q.len() == r.len(),
        0 <= i < q.len(),
        n <= q.len(),
        forall|j: int| 0 <= j < q.len() && j != i ==> q[j] == r[j],
    ensures
        mass_upto(q, b, c, n) - (if i < n {
            weight(c - q[i], b)
        } else {
            0
        }) == mass_upto(r, b, c, n) - (if i < n {
            weight(c - r[i], b)
        } else {
            0
        }),
    decreases n,
{
    if n > 0 {
        lemma_mass_apart(q, r, b, c, i, (n - 1) as nat);
    }
}

/// The mass of the outcomes other than `i` is not negative and does not
/// increase with the level.
pub proof fn lemma_mass_of_others_antitone(q: Seq<int>, b: int, c: int, d: int, i: int)
    requires
        b > 0,
        0 <= i < q.len(),
        c <= d,
    ensures
        0 <= mass_of_others(q, b, d, i) <= mass_of_others(q, b, c, i),
{
    let r = q.update(i, d);
    lemma_mass_apart(q, r, b, c, i, q.len());
    lemma_mass_apart(q, r, b, d, i, q.len());
    lemma_mass_antitone(r, b, c, d, r.len());
    lemma_mass_includes(r, b, d, r.len(), i);
}

/// Buying does not lower the price of what is bought: the marginal price of
/// an outcome does not fall when its quantity rises.
pub proof fn lemma_price_rises_with_quantity(q: Seq<int>, b: int, unit: int, i: int, k: int)
    requires
        b > 0,
        unit >= 0,
        0 <= i < q.len(),
        k >= 0,
    ensures
        lmsr_price(q, b, unit, i) <= lmsr_price(q.update(i, q[i] + k), b, unit, i),
{
    let r = q.update(i, q[i] + k);
    let t = top(q);
    let u = top(r);
    lemma_top_monotone(q, r);
    lemma_top_monotone(r, shifted(q, k));
    lemma_top_upto(q, q.len());
    lemma_top_upto(shifted(q, k), q.len());
    assert(top(shifted(q, k)) == t + k) by {
        let j = choose|j: int| 0 <= j < q.len() && q[j] == top_upto(q, q.len());
        let l = choose|l: int|
            0 <= l < q.len() && shifted(q, k)[l] == top_upto(shifted(q, k), q.len());
        assert(shifted(q, k)[j] <= top(shifted(q, k)));
        assert(q[l] <= t);
    }
    let w = weight(t - q[i], b);
    let v = weight(u - r[i], b);
    lemma_weight_antitone(u - r[i], t - q[i], b);
    let others_q = mass_of_others(q, b, t, i);
    let others_r = mass_of_others(r, b, u, i);
    lemma_mass_apart(q, r, b, u, i, q.len());
    lemma_mass_of_others_antitone(q, b, t, u, i);
    lemma_mass_at_top(q, b);
    lemma_mass_at_top(r, b);
    assert((w * unit) * (v + others_r) <= (v * unit) * (w + others_q)) by (nonlinear_arith)
        requires
            0 <= w <= v,
            0 <= others_r <= others_q,
            0 <= unit,
    {
        assert(w * others_r <= v * others_q);
        assert(unit * (w * v + w * others_r) <= unit * (v * w + v * others_q));
    }
    assert(0 <= w * unit) by (nonlinear_arith)
        requires
            0 <= w,
            0 <= unit,
    ;
    lemma_div_cross(v * unit, v + others_r, w * unit, w + others_q);
}

/// The outcome with the larger quantity has the price that is no smaller.
pub proof fn lemma_price_order(q: Seq<int>, b: int, unit: int, i: int, j: int)
    requires
        b > 0,
        unit >= 0,
        0 <= i < q.len(),
        0 <= j < q.len(),
        q[i] <= q[j],
    ensures
        lmsr_price(q, b, unit, i) <= lmsr_price(q, b, unit, j),
{
    let t = mass(q, b, top(q));
    lemma_mass_at_top(q, b);
    lemma_weight_antitone(top(q) - q[j], top(q) - q[i], b);
    let wi = weight(top(q) - q[i], b);
    let wj = weight(top(q) - q[j], b);
    assert(wi * unit <= wj * unit) by (nonlinear_arith)
        requires
            wi <= wj,
            0 <= unit,
    ;
    lemma_div_is_ordered(wi * unit, wj * unit, t);
}

/// The outcome with the largest quantity has at least its even share of the whole.
pub proof fn lemma_price_of_top(q: Seq<int>, b: int, unit: int, i: int)
    requires
        b > 0,
        unit >= 0,
        0 <= i < q.len(),
        q[i] == top(q),
    ensures
        unit / (q.len() as int) <= lmsr_price(q, b, unit, i),
{
    let t = mass(q, b, top(q));
    let n = q.len() as int;
    lemma_mass_at_top(q, b);
    lemma_mass_bounds(q, b, top(q), q.len());
    assert(unit * t <= (ONE * unit) * n) by (nonlinear_arith)
        requires
            t <= n * ONE,
            0 <= unit,
    ;
    lemma_div_cross(ONE * unit, t, unit, n);
}

/// A marginal price lies between zero and the whole.
pub proof fn lemma_price_bounds(q: Seq<int>, b: int, unit: int, i: int)
    requires
        b > 0,
        unit >= 0,
        0 <= i < q.len(),
    ensures
        0 <= lmsr_price(q, b, unit, i) <= unit,
{
    let t = mass(q, b, top(q));
    let w = weight(top(q) - q[i], b);
    lemma_mass_at_top(q, b);
    lemma_mass_includes(q, b, top(q), q.len(), i);
    lemma_weight_bounds(top(q) - q[i], b);
    assert(0 <= w * unit <= t * unit) by (nonlinear_arith)
        requires
            0 <= w <= t,
            unit >= 0,
    ;
    lemma_div_is_ordered(0, w * unit, t);
    lemma_div_is_ordered(w * unit, t * unit, t);
    assert(0int / t == 0 && t * unit / t == unit) by (nonlinear_arith)
        requires
            t > 0,
    ;
}

/// A marginal price is positive where the weight of the outcome is not
/// negligible: where the weight times the scale of the price is at least one
/// for each outcome.
pub proof fn lemma_price_is_positive(q: Seq<int>, b: int, unit: int, i: int)
    requires
        b > 0,
        0 <= i < q.len(),
        q.len() * ONE <= weight(top(q) - q[i], b) * unit,
    ensures
        0 < lmsr_price(q, b, unit, i),
{
    let t = mass(q, b, top(q));
    let w = weight(top(q) - q[i], b);
    lemma_mass_at_top(q, b);
    lemma_mass_bounds(q, b, top(q), q.len());
    lemma_div_is_ordered(t, w * unit, t);
    assert(t / t == 1) by (nonlinear_arith)
        requires
            t > 0,
    ;
}

/// A marginal price is below the whole where another outcome has any weight.
pub proof fn lemma_price_is_below_one(q: Seq<int>, b: int, unit: int, i: int, j: int)
    requires
        b > 0,
        unit > 0,
        0 <= i < q.len(),
        0 <= j < q.len(),
        i != j,
        0 < weight(top(q) - q[j], b),
    ensures
        lmsr_price(q, b, unit, i) < unit,
{
    let t = mass(q, b, top(q));
    let w = weight(top(q) - q[i], b);
    lemma_mass_at_top(q, b);
    lemma_weight_bounds(top(q) - q[i], b);
    lemma_mass_includes_two(q, b, top(q), i, j, q.len());
    lemma_fundamental_div_mod(w * unit, t);
    assert(lmsr_price(q, b, unit, i) < unit) by (nonlinear_arith)
        requires
            w * unit == t * lmsr_price(q, b, unit, i) + (w * unit) % t,
            0 <= (w * unit) % t,
            0 <= w < t,
            unit > 0,
    {
        assert(w * unit < t * unit);
    }
}

/// The mass of a prefix that holds the outcomes `i` and `j` is at least
/// the weights of the two.
proof fn lemma_mass_includes_two(q: Seq<int>, b: int, c: int, i: int, j: int, n: nat)
    requires
        b > 0,
        0 <= i < n,
        0 <= j < n,
        i != j,
        n <= q.len(),
    ensures
        weight(c - q[i], b) + weight(c - q[j], b) <= mass_upto(q, b, c, n),
    decreases n,
{
    if i < n - 1 && j < n - 1 {
        lemma_mass_includes_two(q, b, c, i, j, (n - 1) as nat);
        lemma_weight_bounds(c - q[n - 1], b);
    } else if i == n - 1 {
        lemma_mass_includes(q, b, c, (n - 1) as nat, j);
    } else {
        lemma_mass_includes(q, b, c, (n - 1) as nat, i);
    }
}

/// The prices of a prefix of the outcomes, times the whole mass, miss the
/// prefix's share of the whole by less than the whole mass per outcome.
proof fn lemma_price_sum_upto(q: Seq<int>, b: int, unit: int, n: nat)
    requires
        b > 0,
        unit >= 0,
        0 < q.len(),
        n <= q.len(),
    ensures
        ({
            let t = mass(q, b, top(q));
            let part = mass_upto(q, b, top(q), n) * unit;
            part - n * (t - 1) <= t * price_sum(q, b, unit, n) <= part
        }),
    decreases n,
{
    let t = mass(q, b, top(q));
    lemma_mass_at_top(q, b);
    if n > 0 {
        let m = (n - 1) as nat;
        lemma_price_sum_upto(q, b, unit, m);
        let w = weight(top(q) - q[n - 1], b);
        let p = lmsr_price(q, b, unit, n - 1);
        let s = price_sum(q, b, unit, m);
        let part = mass_upto(q, b, top(q), m) * unit;
        lemma_fundamental_div_mod(w * unit, t);
        assert(w * unit - (t - 1) <= t * p <= w * unit);
        assert(t * (s + p) == t * s + t * p) by (nonlinear_arith);
        assert((mass_upto(q, b, top(q), m) + w) * unit == part + w * unit) by (nonlinear_arith)
            requires
                part == mass_upto(q, b, top(q), m) * unit,
        ;
        assert(n * (t - 1) == m * (t - 1) + (t - 1)) by (nonlinear_arith)
            requires
                n == m + 1,
        ;
    } else {
        assert(0 * unit == 0 && 0 * (t - 1) == 0 && t * 0 == 0) by (nonlinear_arith);
    }
}

/// The marginal prices of all outcomes sum to the whole, short of it by less
/// than one unit of the scale per outcome.
pub proof fn lemma_prices_sum_to_one(q: Seq<int>, b: int, unit: int)
    requires
        b > 0,
        unit >= 0,
        q.len() > 0,
    ensures
        unit - q.len() < price_sum(q, b, unit, q.len()) <= unit,
{
    let t = mass(q, b, top(q));
    let s = price_sum(q, b, unit, q.len());
    let n = q.len() as int;
    lemma_mass_at_top(q, b);
    lemma_price_sum_upto(q, b, unit, q.len());
    assert(s <= unit) by (nonlinear_arith)
        requires
            t * s <= t * unit,
            t > 0,
    ;
    assert(unit - n < s) by (nonlinear_arith)
        requires
            t * unit - n * (t - 1) <= t * s,
            t > 0,
            n > 0,
    ;
}

/// The fee is the least amount that is no less than the rate applied to the value.
pub proof fn lemma_trade_fee_rounds_up(value: int, bps: int)
    requires
        value >= 0,
        0 <= bps <= 10_000,
    ensures
        value * bps <= trade_fee(value, bps) * 10_000 < value * bps + 10_000,
        0 <= trade_fee(value, bps) <= value,
{
    let x = value * bps + 9_999;
    assert(0 <= value * bps <= value * 10_000) by (nonlinear_arith)
        requires
            value >= 0,
            0 <= bps <= 10_000,
    ;
    lemma_fundamental_div_mod(x, 10_000);
}

/// The quantities as mathematical integers.
pub open spec fn ints(q: Seq<i128>) -> Seq<int> {
    Seq::new(q.len(), |j: int| q[j] as int)
}

/// Every quantity is within the range of the engine.
pub open spec fn quantities_in_range(q: Seq<i128>) -> bool {
    forall|j: int| 0 <= j < q.len() ==> -MAX_QUANTITY <= #[trigger] q[j] <= MAX_QUANTITY
}

/// Computes the weight of an outcome whose quantity lies `d` below the level.
fn weight_at(d: i128, b: u128) -> (w: u128)
    requires
        0 < b <= MAX_LIQUIDITY,
    ensures
        w == weight(d as int, b as int),
        w <= ONE,
{
    if d <= 0 {
        return ONE;
    }
    let span: u128 = WEIGHT_SPAN * b;
    let distance: u128 = d as u128;
    if distance >= span {
        proof {
            lemma_weight_vanishes(d as int, b as int);
        }
        return 0;
    }
    let whole: u128 = distance / b;
    let part: u128 = distance % b;
    let fraction: u128 = ratio(part, b);
    proof {
        lemma_fundamental_div_mod(distance as int, b as int);
        lemma_fundamental_div_mod(part * ONE, b as int);
        assert(whole < WEIGHT_SPAN) by (nonlinear_arith)
            requires
                b * whole <= distance,
                distance < 48 * b,
                0 < b,
        ;
        let rest = (part * ONE) % (b as int);
        assert(distance * ONE == b * (whole * ONE + fraction) + rest) by (nonlinear_arith)
            requires
                distance == b * whole + part,
                part * ONE == b * fraction + rest,
        ;
        lemma_fundamental_div_mod_converse(
            distance * ONE,
            b as int,
            whole * ONE + fraction,
            rest,
        );
    }
    exp_neg_fixed(whole * ONE + fraction)
}

/// Computes the sum of the weights of all outcomes at the level `c`.
fn mass_at(q: &Vec<i128>, b: u128, c: i128) -> (m: u128)
    requires
        quantities_in_range(q@),
        0 < b <= MAX_LIQUIDITY,
        -2 * MAX_QUANTITY <= c <= 2 * MAX_QUANTITY,
    ensures
        m == mass(ints(q@), b as int, c as int),
{
    let mut m: u128 = 0;
    let mut j: usize = 0;
    while j < q.len()
        invariant
            j <= q.len(),
            quantities_in_range(q@),
            0 < b <= MAX_LIQUIDITY,
            -2 * MAX_QUANTITY <= c <= 2 * MAX_QUANTITY,
            m == mass_upto(ints(q@), b as int, c as int, j as nat),
            m <= j * ONE,
        decreases q.len() - j,
    {
        let w: u128 = weight_at(c - q[j], b);
        assert((j + 1) * ONE == j * ONE + ONE) by (nonlinear_arith);
        assert((j + 1) * ONE <= 0x1_0000_0000_0000_0000 * ONE) by (nonlinear_arith)
            requires
                j + 1 <= 0x1_0000_0000_0000_0000,
        ;
        m = m + w;
        j = j + 1;
    }
    m
}

/// Finds the largest quantity.
fn top_of(q: &Vec<i128>) -> (t: i128)
    requires
        q.len() > 0,
    ensures
        t == top(ints(q@)),
{
    let mut t: i128 = q[0];
    let mut j: usize = 1;
    while j < q.len()
        invariant
            1 <= j <= q.len(),
            t == top_upto(ints(q@), j as nat),
        decreases q.len() - j,
    {
        if q[j] > t {
            t = q[j];
        }
        j = j + 1;
    }
    t
}

/// Computes the cost function `C(q) = b * ln(sum_i exp(q_i / b))`.
///
/// The search starts at the largest quantity, where the mass reaches one, and
/// ends [`WEIGHT_SPAN`] liquidity parameters above it, where the mass is zero.
pub fn cost(q: &Vec<i128>, b: u128) -> (c: i128)
    requires
        q.len() > 0,
        quantities_in_range(q@),
        0 < b <= MAX_LIQUIDITY,
    ensures
        c == lmsr_cost(ints(q@), b as int),
        top(ints(q@)) <= c < top(ints(q@)) + WEIGHT_SPAN * b,
{
    let t: i128 = top_of(q);
    proof {
        lemma_top_upto(ints(q@), q@.len());
        lemma_mass_at_top(ints(q@), b as int);
        lemma_cost_exists(ints(q@), b as int);
    }
    let span: u128 = WEIGHT_SPAN * b;
    let mut lo: i128 = t;
    let mut hi: i128 = t + (span as i128);
    while hi - lo > 1
        invariant
            quantities_in_range(q@),
            0 < b <= MAX_LIQUIDITY,
            t <= lo < hi <= t + WEIGHT_SPAN * b,
            -MAX_QUANTITY <= t <= MAX_QUANTITY,
            mass(ints(q@), b as int, lo as int) >= ONE,
            mass(ints(q@), b as int, hi as int) < ONE,
        decreases hi - lo,
    {
        let mid: i128 = lo + (hi - lo) / 2;
        if mass_at(q, b, mid) >= ONE {
            lo = mid;
        } else {
            hi = mid;
        }
    }
    proof {
        lemma_cost_is(ints(q@), b as int, lo as int);
    }
    lo
}

/// Computes the marginal price `exp(q_i / b) / sum_j exp(q_j / b)` of outcome
/// `i`, as a mantissa at the scale `unit`.
pub fn price(q: &Vec<i128>, b: u128, unit: u128, i: usize) -> (p: u128)
    requires
        i < q.len(),
        quantities_in_range(q@),
        0 < b <= MAX_LIQUIDITY,
        unit <= MAX_UNIT,
    ensures
        p == lmsr_price(ints(q@), b as int, unit as int, i as int),
        p <= unit,
{
    let t: i128 = top_of(q);
    proof {
        lemma_top_upto(ints(q@), q@.len());
        lemma_mass_at_top(ints(q@), b as int);
        lemma_price_bounds(ints(q@), b as int, unit as int, i as int);
    }
    let total: u128 = mass_at(q, b, t);
    let w: u128 = weight_at(t - q[i], b);
    assert(w * unit <= ONE * MAX_UNIT) by (nonlinear_arith)
        requires
            w <= ONE,
            unit <= MAX_UNIT,
    ;
    w * unit / total
}

/// Copies the quantities with the one of outcome `i` replaced.
fn with_quantity(q: &Vec<i128>, i: usize, value: i128) -> (r: Vec<i128>)
    requires
        i < q.len(),
    ensures
        r@ == q@.update(i as int, value),
{
    let mut r: Vec<i128> = Vec::new();
    let mut j: usize = 0;
    while j < q.len()
        invariant
            j <= q.len(),
            i < q.len(),
            r.len() == j,
            forall|l: int| 0 <= l < j ==> r[l] == (if l == i { value } else { q[l] }),
        decreases q.len() - j,
    {
        r.push(if j == i { value } else { q[j] });
        j = j + 1;
    }
    assert(r@ =~= q@.update(i as int, value));
    r
}

/// Computes `buy_cost(q, i, k) = C(q with q_i += k) - C(q)`.
pub fn buy_cost(q: &Vec<i128>, b: u128, i: usize, k: u128) -> (v: u128)
    requires
        i < q.len(),
        quantities_in_range(q@),
        0 < b <= MAX_LIQUIDITY,
        0 < k,
        q[i as int] + k <= MAX_QUANTITY,
    ensures
        v == lmsr_buy_cost(ints(q@), b as int, i as int, k as int),
        v <= k,
{
    let raised: Vec<i128> = with_quantity(q, i, q[i] + (k as i128));
    proof {
        assert(ints(raised@) =~= ints(q@).update(i as int, ints(q@)[i as int] + k));
        lemma_buy_cost_bounds(ints(q@), b as int, i as int, k as int);
    }
    let before: i128 = cost(q, b);
    let after: i128 = cost(&raised, b);
    (after - before) as u128
}

/// Computes `sell_proceeds(q, i, k) = C(q) - C(q with q_i -= k)`.
pub fn sell_proceeds(q: &Vec<i128>, b: u128, i: usize, k: u128) -> (v: u128)
    requires
        i < q.len(),
        quantities_in_range(q@),
        0 < b <= MAX_LIQUIDITY,
        0 < k,
        q[i as int] - k >= -MAX_QUANTITY,
    ensures
        v == lmsr_sell_proceeds(ints(q@), b as int, i as int, k as int),
        v <= k,
{
    let lowered: Vec<i128> = with_quantity(q, i, q[i] - (k as i128));
    proof {
        assert(ints(lowered@) =~= ints(q@).update(i as int, ints(q@)[i as int] - k));
        lemma_sell_proceeds_bounds(ints(q@), b as int, i as int, k as int);
    }
    let before: i128 = cost(q, b);
    let after: i128 = cost(&lowered, b);
    (before - after) as u128
}

/// Computes the fee on a trade of the given value, rounded up in favour of the market.
pub fn fee(value: u128, bps: u32) -> (f: u128)
    requires
        bps <= 10_000,
    ensures
        f == trade_fee(value as int, bps as int),
        f <= value,
{
    let whole: u128 = value / 10_000;
    let rest: u128 = value % 10_000;
    let rate: u128 = bps as u128;
    proof {
        lemma_trade_fee_rounds_up(value as int, bps as int);
        assert(whole * rate <= whole * 10_000) by (nonlinear_arith)
            requires
                rate <= 10_000,
        ;
        assert(rest * rate <= 10_000 * 10_000) by (nonlinear_arith)
            requires
                rest < 10_000,
                rate <= 10_000,
        ;
        assert((value * bps + 9_999) == 10_000 * (whole * rate) + (rest * rate + 9_999))
            by (nonlinear_arith)
            requires
                value == 10_000 * whole + rest,
                rate == bps,
        ;
        assert((10_000 * (whole * rate) + (rest * rate + 9_999)) / 10_000 == whole * rate + (rest
            * rate + 9_999) / 10_000) by (nonlinear_arith)
            requires
                rest * rate + 9_999 >= 0,
        ;
    }
    whole * rate + (rest * rate + 9_999) / 10_000
}

} // verus!
