//! The convexity of the cost function.
//!
//! In exact arithmetic the cost function is convex: each further share of an
//! outcome costs more than the one before. In fixed point it is convex up to
//! a slack that this module makes explicit. The chain of the argument: every
//! line that touches the graph of the exponential lies below it; so does
//! every line that touches the graph of a weight; so the mass at a point
//! between two others is at most what their masses give in proportion; so
//! the cost at a point between two others is at most what their costs give
//! in proportion.

use crate::decay::lemma_exp_neg_lies_above_its_tangents;
use crate::fixed::{exp_neg, lemma_exp_neg_monotone, lemma_exp_neg_zero, ONE};
use crate::lmsr::{
    lemma_buy_cost_additive, lemma_cost_covers_quantities, lemma_cost_exists,
    lemma_mass_antitone, lemma_top_upto, lmsr_buy_cost, lmsr_cost, lmsr_sell_proceeds, mass,
    mass_upto, weight,
};
use vstd::arithmetic::div_mod::{lemma_div_is_ordered, lemma_fundamental_div_mod};
use vstd::prelude::*;

verus! {

/// What the rounding of a weight can cost.
pub const WEIGHT_TOLERANCE: u128 = 14_273;

/// Every line that touches the graph of the weights lies below it, but for
/// the tolerance: at any distance `d` the weight is at least what the line
/// through the weight at `z` with the slope of that weight over the
/// liquidity parameter gives.
pub proof fn lemma_weight_lies_above_its_tangents(d: int, z: int, b: int)
    requires
        b > 0,
        0 <= d,
        0 <= z,
    ensures
        b * (weight(d, b) + WEIGHT_TOLERANCE) >= weight(z, b) * (b - (d - z)),
{
    let x = d * ONE / b;
    let y = z * ONE / b;
    assert(0 <= d * ONE && 0 <= z * ONE) by (nonlinear_arith)
        requires
            0 <= d,
            0 <= z,
    ;
    lemma_fundamental_div_mod(d * ONE, b);
    lemma_fundamental_div_mod(z * ONE, b);
    lemma_div_is_ordered(0, d * ONE, b);
    lemma_div_is_ordered(0, z * ONE, b);
    assert(0int / b == 0) by (nonlinear_arith)
        requires
            b > 0,
    ;
    lemma_exp_neg_zero();
    assert(weight(d, b) == exp_neg(x)) by {
        if d == 0 {
            assert(0 * ONE == 0) by (nonlinear_arith);
        }
    }
    assert(weight(z, b) == exp_neg(y)) by {
        if z == 0 {
            assert(0 * ONE == 0) by (nonlinear_arith);
        }
    }
    lemma_exp_neg_lies_above_its_tangents(x, y);
    lemma_exp_neg_monotone(x, x);
    lemma_exp_neg_monotone(y, y);
    let e = exp_neg(x);
    let f = exp_neg(y);
    // b * x <= d * ONE and z * ONE < b * y + b
    assert(b * (ONE - (x - y)) >= ONE * (b - (d - z)) - b) by (nonlinear_arith)
        requires
            d * ONE == b * x + (d * ONE) % b,
            z * ONE == b * y + (z * ONE) % b,
            0 <= (d * ONE) % b,
            (z * ONE) % b < b,
    ;
    assert(ONE * (b * (e + 14_273)) >= ONE * (f * (b - (d - z)))) by (nonlinear_arith)
        requires
            (e + 14_272) * ONE >= f * (ONE - (x - y)),
            b * (ONE - (x - y)) >= ONE * (b - (d - z)) - b,
            0 <= f <= ONE,
            b > 0,
    {
        assert(b * ((e + 14_272) * ONE) >= b * (f * (ONE - (x - y))));
        assert(f * (b * (ONE - (x - y))) >= f * (ONE * (b - (d - z)) - b));
        assert(f * b <= ONE * b);
    }
    assert(b * (e + 14_273) >= f * (b - (d - z))) by (nonlinear_arith)
        requires
            ONE * (b * (e + 14_273)) >= ONE * (f * (b - (d - z))),
    ;
}

/// The line through a weight, taken `a` times.
proof fn lemma_tangent_scales(a: int, b: int, wp: int, wr: int, k: int, t: int)
    requires
        0 <= a,
        b * (wp + k) >= wr * (b - t),
    ensures
        b * (a * wp) + a * (k * b) >= wr * (a * b - a * t),
{
    let lhs = b * (wp + k);
    let rhs = wr * (b - t);
    assert(a * lhs >= a * rhs) by (nonlinear_arith)
        requires
            lhs >= rhs,
            0 <= a,
    ;
    let bwp = b * wp;
    let bk = b * k;
    assert(lhs == bwp + bk) by (nonlinear_arith)
        requires
            lhs == b * (wp + k),
            bwp == b * wp,
            bk == b * k,
    ;
    assert(a * (bwp + bk) == a * bwp + a * bk) by (nonlinear_arith);
    assert(a * bwp == b * (a * wp)) by (nonlinear_arith)
        requires
            bwp == b * wp,
    ;
    assert(a * bk == a * (k * b)) by (nonlinear_arith)
        requires
            bk == b * k,
    ;
    let bt = b - t;
    assert(a * rhs == wr * (a * bt)) by (nonlinear_arith)
        requires
            rhs == wr * bt,
    ;
    assert(a * bt == a * b - a * t) by (nonlinear_arith)
        requires
            bt == b - t,
    ;
}

/// The mass between two points is at most what their masses give in
/// proportion, but for the tolerance.
///
/// The quantities `r` lie between the quantities `p` and `q` in the
/// proportion of `e` to `a`, and the levels `u`, `w` and `v` are above the
/// quantities `p`, `r` and `q`.
pub proof fn lemma_mass_is_convex(
    p: Seq<int>,
    q: Seq<int>,
    r: Seq<int>,
    b: int,
    u: int,
    v: int,
    w: int,
    a: int,
    e: int,
    n: nat,
)
    requires
        b > 0,
        0 <= a,
        0 <= e,
        n <= p.len(),
        p.len() == q.len(),
        p.len() == r.len(),
        forall|j: int| 0 <= j < n ==> a * p[j] + e * q[j] == (a + e) * r[j],
        forall|j: int| 0 <= j < n ==> p[j] <= u && q[j] <= v && r[j] <= w,
    ensures
        b * (a * mass_upto(p, b, u, n) + e * mass_upto(q, b, v, n)) + n * ((a + e) * (
        WEIGHT_TOLERANCE * b)) >= mass_upto(r, b, w, n) * ((a + e) * b - (a * u + e * v - (a + e)
            * w)),
    decreases n,
{
    if n == 0 {
        assert(b * (a * 0 + e * 0) + 0 * ((a + e) * (WEIGHT_TOLERANCE * b)) == 0) by (nonlinear_arith);
        assert(0 * ((a + e) * b - (a * u + e * v - (a + e) * w)) == 0) by (nonlinear_arith);
    } else {
        let m = (n - 1) as nat;
        lemma_mass_is_convex(p, q, r, b, u, v, w, a, e, m);
        let dp = u - p[n - 1];
        let dq = v - q[n - 1];
        let dr = w - r[n - 1];
        lemma_weight_lies_above_its_tangents(dp, dr, b);
        lemma_weight_lies_above_its_tangents(dq, dr, b);
        let wp = weight(dp, b);
        let wq = weight(dq, b);
        let wr = weight(dr, b);
        let k = WEIGHT_TOLERANCE as int;
        let gap = a * u + e * v - (a + e) * w;
        assert(a * dp + e * dq - (a + e) * dr == gap) by (nonlinear_arith)
            requires
                a * p[n - 1] + e * q[n - 1] == (a + e) * r[n - 1],
                dp == u - p[n - 1],
                dq == v - q[n - 1],
                dr == w - r[n - 1],
                gap == a * u + e * v - (a + e) * w,
        ;
        let tp = dp - dr;
        let tq = dq - dr;
        lemma_tangent_scales(a, b, wp, wr, k, tp);
        lemma_tangent_scales(e, b, wq, wr, k, tq);
        let awp = a * wp;
        let ewq = e * wq;
        let kb = k * b;
        let ab = a * b;
        let eb = e * b;
        let atp = a * tp;
        let etq = e * tq;
        assert(b * awp + b * ewq == b * (awp + ewq)) by (nonlinear_arith);
        assert(a * kb + e * kb == (a + e) * kb) by (nonlinear_arith);
        assert(wr * (ab - atp) + wr * (eb - etq) == wr * ((ab + eb) - (atp + etq)))
            by (nonlinear_arith);
        assert(ab + eb == (a + e) * b) by (nonlinear_arith)
            requires
                ab == a * b,
                eb == e * b,
        ;
        assert(atp + etq == gap) by (nonlinear_arith)
            requires
                atp == a * tp,
                etq == e * tq,
                tp == dp - dr,
                tq == dq - dr,
                a * dp + e * dq - (a + e) * dr == gap,
        ;
        assert(b * (a * wp + e * wq) + (a + e) * (k * b) >= wr * ((a + e) * b - gap));
        let mp = mass_upto(p, b, u, m);
        let mq = mass_upto(q, b, v, m);
        let mr = mass_upto(r, b, w, m);
        let c = (a + e) * b - gap;
        let t = (a + e) * (k * b);
        assert(b * (a * (mp + wp) + e * (mq + wq)) + n * t >= (mr + wr) * c) by (nonlinear_arith)
            requires
                b * (a * mp + e * mq) + m * t >= mr * c,
                b * (a * wp + e * wq) + t >= wr * c,
                n == m + 1,
        {
            assert(b * (a * (mp + wp) + e * (mq + wq)) == b * (a * mp + e * mq) + b * (a * wp + e
                * wq));
            assert(n * t == m * t + t);
            assert((mr + wr) * c == mr * c + wr * c);
        }
    }
}

/// How far the cost can lie above what convexity asks for: the tolerance of
/// the weights for each outcome, over the resolution of the liquidity
/// parameter, and two units.
pub open spec fn convexity_slack(n: nat, b: int) -> int {
    n * WEIGHT_TOLERANCE * b / (ONE as int) + 2
}

/// The cost function is convex in each quantity, but for the slack: the cost
/// at a quantity between two others is at most what the costs at those give
/// in proportion.
///
/// The quantity `y` of outcome `i` lies between `x` and `z` in the
/// proportion of `e` to `a`.
pub proof fn lemma_cost_is_convex(
    q: Seq<int>,
    b: int,
    i: int,
    x: int,
    y: int,
    z: int,
    a: int,
    e: int,
)
    requires
        b > 0,
        0 <= i < q.len(),
        0 <= a,
        0 <= e,
        a * x + e * z == (a + e) * y,
    ensures
        (a + e) * lmsr_cost(q.update(i, y), b) <= a * lmsr_cost(q.update(i, x), b) + e * lmsr_cost(
            q.update(i, z),
            b,
        ) + (a + e) * convexity_slack(q.len(), b),
{
    let n = q.len();
    let l = a + e;
    let p = q.update(i, x);
    let r = q.update(i, y);
    let s = q.update(i, z);
    let cp = lmsr_cost(p, b);
    let cr = lmsr_cost(r, b);
    let cs = lmsr_cost(s, b);
    let k = WEIGHT_TOLERANCE as int;
    let slack = convexity_slack(n, b);
    lemma_cost_exists(p, b);
    lemma_cost_exists(r, b);
    lemma_cost_exists(s, b);
    lemma_top_upto(p, n);
    lemma_top_upto(r, n);
    lemma_top_upto(s, n);
    let nkb = n * k * b;
    assert(0 <= nkb) by (nonlinear_arith)
        requires
            nkb == n * k * b,
            0 <= n,
            k == 14_273,
            b > 0,
    ;
    lemma_fundamental_div_mod(nkb, ONE as int);
    lemma_div_is_ordered(0, nkb, ONE as int);
    assert(slack >= 2);
    if l * cr > a * cp + e * cs + l * slack {
        assert forall|j: int| 0 <= j < n implies a * p[j] + e * s[j] == (a + e) * r[j] by {
            if j != i {
                assert((a + e) * q[j] == a * q[j] + e * q[j]) by (nonlinear_arith);
            }
        }
        lemma_mass_is_convex(p, s, r, b, cp + 1, cs + 1, cr, a, e, n);
        let fp = mass(p, b, cp + 1);
        let fs = mass(s, b, cs + 1);
        let fr = mass(r, b, cr);
        let gap = a * (cp + 1) + e * (cs + 1) - l * cr;
        // fp < ONE, fs < ONE, fr >= ONE
        assert(false) by (nonlinear_arith)
            requires
                b * (a * fp + e * fs) + n * (l * (k * b)) >= fr * (l * b - gap),
                fp < ONE,
                fs < ONE,
                fr >= ONE,
                gap == a * (cp + 1) + e * (cs + 1) - l * cr,
                l * cr > a * cp + e * cs + l * slack,
                l == a + e,
                0 <= a,
                0 <= e,
                b > 0,
                nkb == n * k * b,
                nkb == ONE * (slack - 2) + nkb % (ONE as int),
                nkb % (ONE as int) < ONE,
                k == 14_273,
                0 <= n,
        {
            assert(l > 0);
            assert(-gap > l * (slack - 1));
            assert(l * b - gap > l * b + l * (slack - 1));
            assert(fr * (l * b - gap) >= ONE * (l * b - gap));
            assert(ONE * (l * b - gap) > ONE * (l * b) + l * (ONE * (slack - 1)));
            assert(ONE * (slack - 1) > nkb);
            assert(l * (ONE * (slack - 1)) >= l * nkb);
            assert(a * fp <= a * ONE);
            assert(e * fs <= e * ONE);
            assert(b * (a * fp + e * fs) <= b * (l * ONE));
            assert(n * (l * (k * b)) == l * nkb);
            assert(b * (l * ONE) == ONE * (l * b));
        }
    }
}

/// Convexity of the cost of buying: the cost of each share does not fall
/// with the number of shares bought, but for the slack.
pub proof fn lemma_buy_cost_is_convex(q: Seq<int>, b: int, i: int, k1: int, k2: int)
    requires
        b > 0,
        0 <= i < q.len(),
        0 <= k1 <= k2,
    ensures
        k2 * lmsr_buy_cost(q, b, i, k1) <= k1 * lmsr_buy_cost(q, b, i, k2) + k2 * convexity_slack(
            q.len(),
            b,
        ),
{
    assert(q.update(i, q[i]) =~= q);
    assert((k2 - k1) * q[i] + k1 * (q[i] + k2) == ((k2 - k1) + k1) * (q[i] + k1))
        by (nonlinear_arith);
    lemma_cost_is_convex(q, b, i, q[i], q[i] + k1, q[i] + k2, k2 - k1, k1);
    let c0 = lmsr_cost(q, b);
    let c1 = lmsr_cost(q.update(i, q[i] + k1), b);
    let c2 = lmsr_cost(q.update(i, q[i] + k2), b);
    let slack = convexity_slack(q.len(), b);
    assert(k2 * (c1 - c0) <= k1 * (c2 - c0) + k2 * slack) by (nonlinear_arith)
        requires
            ((k2 - k1) + k1) * c1 <= (k2 - k1) * c0 + k1 * c2 + ((k2 - k1) + k1) * slack,
    ;
}

/// Concavity of the proceeds of selling: what each share brings does not
/// rise with the number of shares sold, but for the slack.
pub proof fn lemma_sell_proceeds_are_concave(q: Seq<int>, b: int, i: int, k1: int, k2: int)
    requires
        b > 0,
        0 <= i < q.len(),
        0 <= k1 <= k2,
    ensures
        k1 * lmsr_sell_proceeds(q, b, i, k2) <= k2 * lmsr_sell_proceeds(q, b, i, k1) + k2
            * convexity_slack(q.len(), b),
{
    assert(q.update(i, q[i]) =~= q);
    assert(k1 * (q[i] - k2) + (k2 - k1) * q[i] == (k1 + (k2 - k1)) * (q[i] - k1))
        by (nonlinear_arith);
    lemma_cost_is_convex(q, b, i, q[i] - k2, q[i] - k1, q[i], k1, k2 - k1);
    let c0 = lmsr_cost(q, b);
    let c1 = lmsr_cost(q.update(i, q[i] - k1), b);
    let c2 = lmsr_cost(q.update(i, q[i] - k2), b);
    let slack = convexity_slack(q.len(), b);
    assert(k1 * (c0 - c2) <= k2 * (c0 - c1) + k2 * slack) by (nonlinear_arith)
        requires
            (k1 + (k2 - k1)) * c1 <= k1 * c2 + (k2 - k1) * c0 + (k1 + (k2 - k1)) * slack,
    ;
}

/// The weight of an outcome at the level of the cost: its price as a part
/// of the whole mass, which is one at that level.
pub open spec fn weight_at_cost(q: Seq<int>, b: int, i: int) -> int {
    weight(lmsr_cost(q, b) - q[i], b)
}

/// The mass after a purchase of `k` of outcome `i`, at a level `m` above the
/// level `c`, is at least the mass before the purchase at `c` less its
/// fall over `m`, and the weight of the outcome times `k`, but for the
/// tolerance.
proof fn lemma_mass_after_purchase(q: Seq<int>, b: int, i: int, k: int, c: int, m: int, n: nat)
    requires
        b > 0,
        0 <= i < q.len(),
        n <= q.len(),
        0 <= k,
        0 <= m,
        q[i] + k <= c + m,
        forall|j: int| 0 <= j < q.len() ==> q[j] <= c,
    ensures
        b * (mass_upto(q.update(i, q[i] + k), b, c + m, n) + n * WEIGHT_TOLERANCE) >= mass_upto(
            q,
            b,
            c,
            n,
        ) * (b - m) + (if i < n {
            weight(c - q[i], b) * k
        } else {
            0
        }),
    decreases n,
{
    let r = q.update(i, q[i] + k);
    let t = WEIGHT_TOLERANCE as int;
    if n == 0 {
        assert(b * (0 + 0 * t) == 0 && 0 * (b - m) == 0) by (nonlinear_arith);
    } else {
        let l = (n - 1) as nat;
        lemma_mass_after_purchase(q, b, i, k, c, m, l);
        let j = n - 1;
        let z = c - q[j];
        let d = c + m - r[j];
        lemma_weight_lies_above_its_tangents(d, z, b);
        let wd = weight(d, b);
        let wz = weight(z, b);
        let before = mass_upto(q, b, c, l);
        let after = mass_upto(r, b, c + m, l);
        let gain = if i < l {
            weight(c - q[i], b) * k
        } else {
            0
        };
        let step = d - z;
        assert(b * (wd + t) >= wz * (b - m) + (if j == i {
            wz * k
        } else {
            0
        })) by (nonlinear_arith)
            requires
                b * (wd + t) >= wz * (b - step),
                j == i ==> step == m - k,
                j != i ==> step == m,
        ;
        assert(b * ((after + wd) + n * t) == b * (after + l * t) + b * (wd + t))
            by (nonlinear_arith)
            requires
                n == l + 1,
        ;
        assert((before + wz) * (b - m) == before * (b - m) + wz * (b - m)) by (nonlinear_arith);
    }
}

/// What a purchase costs at least: the weight of the outcome at the level
/// of the cost times the quantity bought, but for the tolerance. No level
/// `m` that this product reaches is more than the purchase costs.
pub proof fn lemma_buy_cost_is_at_least(q: Seq<int>, b: int, i: int, k: int, m: int)
    requires
        b > 0,
        0 <= i < q.len(),
        0 <= k,
        0 <= m <= b,
        ONE * m + q.len() * WEIGHT_TOLERANCE * b <= weight_at_cost(q, b, i) * k,
    ensures
        m <= lmsr_buy_cost(q, b, i, k),
{
    let n = q.len();
    let r = q.update(i, q[i] + k);
    let c = lmsr_cost(q, b);
    let t = WEIGHT_TOLERANCE as int;
    lemma_cost_exists(q, b);
    lemma_cost_exists(r, b);
    lemma_top_upto(q, n);
    if q[i] + k > c + m {
        lemma_cost_covers_quantities(r, b, i);
    } else {
        lemma_mass_after_purchase(q, b, i, k, c, m, n);
        let after = mass(r, b, c + m);
        let before = mass(q, b, c);
        let w = weight_at_cost(q, b, i);
        let nt = n * t;
        assert(after >= ONE) by (nonlinear_arith)
            requires
                b * (after + nt) >= before * (b - m) + w * k,
                before >= ONE,
                0 <= m <= b,
                ONE * m + nt * b <= w * k,
                b > 0,
        {
            assert(before * (b - m) >= ONE * (b - m));
            assert(b * (after + nt) >= ONE * b + nt * b);
            assert(b * after >= b * ONE);
        }
        if lmsr_cost(r, b) < c + m {
            lemma_mass_antitone(r, b, lmsr_cost(r, b) + 1, c + m, n);
        }
    }
}

/// Buying more costs more, strictly, wherever the price is not negligible:
/// where the weight that the outcome has after the smaller purchase, times
/// the quantity that the larger one adds, is one unit and the tolerance.
pub proof fn lemma_buy_cost_is_strictly_monotone(q: Seq<int>, b: int, i: int, k1: int, k2: int)
    requires
        b > 0,
        0 <= i < q.len(),
        0 <= k1 < k2,
        ONE + q.len() * WEIGHT_TOLERANCE * b <= weight_at_cost(q.update(i, q[i] + k1), b, i) * (k2
            - k1),
    ensures
        lmsr_buy_cost(q, b, i, k1) < lmsr_buy_cost(q, b, i, k2),
{
    let r = q.update(i, q[i] + k1);
    lemma_buy_cost_additive(q, b, i, k1, k2 - k1);
    lemma_buy_cost_is_at_least(r, b, i, k2 - k1, 1);
}

} // verus!
