use prediction_market::fixed::{exp_neg_fixed, ratio, EXP_LIMIT, MAX_DIVISOR, ONE};
use prediction_market::lmsr::{buy_cost, cost, fee, price, sell_proceeds};

const UNIT: u128 = 1_000_000_000;
const B: u128 = 50 * UNIT;

fn shares(counts: &[i128]) -> Vec<i128> {
    counts.iter().map(|count| count * UNIT as i128).collect()
}

#[test]
fn exponential_of_zero_is_one() {
    assert_eq!(exp_neg_fixed(0), ONE);
    assert_eq!(exp_neg_fixed(1), ONE);
}

#[test]
fn exponential_matches_known_values() {
    assert_eq!(exp_neg_fixed(ONE), 367_879_441_171_442_423);
    assert_eq!(exp_neg_fixed(ONE / 2), 606_530_659_712_633_667);
    assert_eq!(exp_neg_fixed(20 * ONE), 2_061_153_622);
}

#[test]
fn exponential_is_close_to_the_real_one() {
    for tenths in 0..400u128 {
        let x = tenths * ONE / 10;
        let real = (-(tenths as f64) / 10.0).exp();
        let fixed = exp_neg_fixed(x) as f64 / ONE as f64;
        assert!((fixed - real).abs() < 1e-14);
    }
}

#[test]
fn exponential_vanishes_at_the_limit() {
    assert_eq!(exp_neg_fixed(EXP_LIMIT), 0);
    assert_eq!(exp_neg_fixed(EXP_LIMIT - 1), 0);
    assert_eq!(exp_neg_fixed(u128::MAX), 0);
}

#[test]
fn exponential_does_not_increase() {
    let mut last = ONE;
    for step in 0..5000u128 {
        let y = exp_neg_fixed(step * ONE / 100);
        assert!(y <= last);
        last = y;
    }
    assert_eq!(last, 0);
}

#[test]
fn cost_of_an_even_market_is_liquidity_times_log_of_outcomes() {
    assert_eq!(cost(&shares(&[0, 0]), B), 34_657_359_027);
    assert_eq!(cost(&shares(&[0, 0, 0]), B), 54_930_614_433);
}

#[test]
fn cost_is_close_to_the_real_one() {
    let q = [3.0f64, -2.0, 7.0];
    let real = 50.0 * q.iter().map(|x| (x / 50.0).exp()).sum::<f64>().ln();
    let fixed = cost(&shares(&[3, -2, 7]), B);
    assert_eq!(fixed, 57_732_296_414);
    assert!((fixed as f64 / 1e9 - real).abs() < 1e-8);
}

#[test]
fn cost_of_a_single_outcome_is_its_quantity() {
    assert_eq!(cost(&shares(&[12]), B), 12 * UNIT as i128);
    assert_eq!(cost(&shares(&[-12]), B), -12 * UNIT as i128);
}

#[test]
fn cost_rises_with_every_quantity_alike() {
    let low = cost(&shares(&[3, -2, 7]), B);
    let high = cost(&shares(&[14, 9, 18]), B);
    assert_eq!(high, low + 11 * UNIT as i128);
    assert_eq!(high, 68_732_296_414);
}

#[test]
fn cost_at_the_ends_of_the_range() {
    let unit: i128 = 1_000_000_000_000_000_000;
    let q = vec![i64::MAX as i128 * unit, i64::MIN as i128 * unit];
    let c = cost(&q, 1_000_000_000_000_000_000);
    assert!(c >= q[0]);
    assert!(c < q[0] + 256);
}

#[test]
fn buy_cost_matches_known_values() {
    let q = shares(&[0, 0]);
    assert_eq!(buy_cost(&q, B, 0, 10 * UNIT), 5_249_584_442);
    assert_eq!(buy_cost(&q, B, 0, 5 * UNIT), 2_562_473_976);
    assert_eq!(buy_cost(&q, B, 1, 5 * UNIT), 2_562_473_976);
}

#[test]
fn buy_cost_is_the_difference_of_costs() {
    let q = shares(&[3, -2, 7]);
    let raised = shares(&[3, 8, 7]);
    assert_eq!(buy_cost(&q, B, 1, 10 * UNIT) as i128, cost(&raised, B) - cost(&q, B));
}

#[test]
fn buy_cost_grows_with_the_number_of_shares() {
    let q = shares(&[3, -2, 7]);
    let mut last = 0;
    for k in 1..60u128 {
        let value = buy_cost(&q, B, 1, k * UNIT);
        assert!(value > last);
        assert!(value <= k * UNIT);
        last = value;
    }
}

#[test]
fn average_buy_price_grows_with_the_number_of_shares() {
    let q = shares(&[0, 0]);
    let small = buy_cost(&q, B, 0, 10 * UNIT) / 10;
    let medium = buy_cost(&q, B, 0, 50 * UNIT) / 50;
    let large = buy_cost(&q, B, 0, 100 * UNIT) / 100;
    assert!(small < medium);
    assert!(medium < large);
}

#[test]
fn buy_cost_of_a_hopeless_outcome_is_below_one_unit() {
    let q = shares(&[0, 1000]);
    assert_eq!(buy_cost(&q, UNIT, 0, UNIT), 0);
    assert_eq!(buy_cost(&q, UNIT, 0, 2 * UNIT), 0);
}

#[test]
fn sell_proceeds_match_known_values() {
    let q = shares(&[0, 0]);
    assert_eq!(sell_proceeds(&q, B, 1, 10 * UNIT), 4_750_415_558);
    assert_eq!(sell_proceeds(&q, B, 1, 50 * UNIT), 18_994_274_652);
    assert_eq!(sell_proceeds(&q, B, 1, 100 * UNIT), 28_310_958_475);
}

#[test]
fn selling_returns_what_buying_cost() {
    let q = shares(&[3, -2, 7]);
    let raised = shares(&[3, -2, 19]);
    assert_eq!(buy_cost(&q, B, 2, 12 * UNIT), sell_proceeds(&raised, B, 2, 12 * UNIT));
}

#[test]
fn sell_proceeds_grow_with_the_number_of_shares() {
    let q = shares(&[3, -2, 7]);
    let mut last = 0;
    for k in 1..60u128 {
        let value = sell_proceeds(&q, B, 2, k * UNIT);
        assert!(value > last);
        assert!(value <= k * UNIT);
        last = value;
    }
}

#[test]
fn price_at_parity_is_one_over_the_number_of_outcomes() {
    assert_eq!(price(&shares(&[0, 0]), B, UNIT, 0), 500_000_000);
    assert_eq!(price(&shares(&[0, 0]), B, UNIT, 1), 500_000_000);
    assert_eq!(price(&shares(&[0, 0, 0]), B, UNIT, 2), 333_333_333);
}

#[test]
fn price_matches_known_values() {
    let q = shares(&[10, 0]);
    assert_eq!(price(&q, B, UNIT, 0), 549_833_997);
    assert_eq!(price(&q, B, UNIT, 1), 450_166_002);
}

#[test]
fn price_rises_when_shares_are_bought() {
    let before = price(&shares(&[0, 0]), B, UNIT, 0);
    let after = price(&shares(&[10, 0]), B, UNIT, 0);
    assert!(after > before);
}

#[test]
fn prices_sum_to_one_within_one_unit_per_outcome() {
    let q = shares(&[3, -2, 7]);
    let prices: Vec<u128> = (0..3).map(|i| price(&q, B, UNIT, i)).collect();
    assert_eq!(prices, vec![334_658_078, 302_811_152, 362_530_769]);
    let sum: u128 = prices.iter().sum();
    assert!(sum <= UNIT);
    assert!(sum + 3 > UNIT);
}

#[test]
fn fee_is_rounded_up() {
    assert_eq!(fee(2_562_473_976, 1), 256_248);
    assert_eq!(fee(10_000, 1), 1);
    assert_eq!(fee(10_001, 1), 2);
    assert_eq!(fee(1, 1), 1);
    assert_eq!(fee(0, 1), 0);
}

#[test]
fn fee_at_the_ends_of_the_rate() {
    assert_eq!(fee(2_562_473_976, 0), 0);
    assert_eq!(fee(2_562_473_976, 10_000), 2_562_473_976);
    assert_eq!(fee(u128::MAX, 10_000), u128::MAX);
    assert_eq!(fee(u128::MAX, 5_000), u128::MAX / 2 + 1);
}

#[test]
fn ratio_is_the_quotient_at_eighteen_digits() {
    assert_eq!(ratio(0, 1), 0);
    assert_eq!(ratio(1, 2), 500_000_000_000_000_000);
    assert_eq!(ratio(1, 3), 333_333_333_333_333_333);
    assert_eq!(ratio(2, 3), 666_666_666_666_666_666);
    assert_eq!(ratio(1, 1_000_000_000_000_000_000), 1);
    assert_eq!(ratio(1, 1_000_000_000_000_000_001), 0);
    assert_eq!(ratio(MAX_DIVISOR - 1, MAX_DIVISOR), 999_999_999_999_999_999);
    assert_eq!(ratio(123_456_789, 1_000_000_000), 123_456_789_000_000_000);
}

#[test]
fn cost_with_a_large_liquidity_parameter() {
    let unit: u128 = 1_000_000_000_000_000_000;
    let b = 50 * unit;
    let q = vec![0, 0];
    assert_eq!(cost(&q, b), 34_657_359_027_997_286_399);
    let value = buy_cost(&q, b, 0, 10 * unit);
    assert_eq!(value, 5_249_584_441_082_316_800);
    let largest = 1_000_000_000_000_000_000_000_000_000;
    let c = cost(&q, largest) as f64 / 1e27;
    assert!((c - 2.0f64.ln()).abs() < 1e-12);
}

/// How far a quote can lie from what convexity asks for.
fn convexity_slack(outcomes: u128, b: u128) -> u128 {
    outcomes * 14_273 * b / ONE + 2
}

#[test]
fn average_buy_price_rises_within_the_slack() {
    let q = shares(&[3, -2, 7]);
    let slack = convexity_slack(3, B);
    assert_eq!(slack, 2);
    for k1 in 1..30u128 {
        for k2 in k1..30u128 {
            let small = buy_cost(&q, B, 1, k1 * UNIT);
            let large = buy_cost(&q, B, 1, k2 * UNIT);
            assert!(k2 * small <= k1 * large + k2 * slack);
        }
    }
}

#[test]
fn average_sell_price_falls_within_the_slack() {
    let q = shares(&[3, -2, 7]);
    let slack = convexity_slack(3, B);
    for k1 in 1..30u128 {
        for k2 in k1..30u128 {
            let small = sell_proceeds(&q, B, 2, k1 * UNIT);
            let large = sell_proceeds(&q, B, 2, k2 * UNIT);
            assert!(k1 * large <= k2 * small + k2 * slack);
        }
    }
}

#[test]
fn rounding_shows_where_the_liquidity_parameter_is_large() {
    let b = ONE;
    let slack = convexity_slack(2, b);
    assert_eq!(slack, 28_548);
    let q = shares(&[3, -15]);
    let one = buy_cost(&q, b, 0, UNIT);
    let two = buy_cost(&q, b, 0, 2 * UNIT);
    assert_eq!(one, 500_000_000);
    assert_eq!(two, 999_999_744);
    assert!(2 * one > two);
    assert!(2 * one <= two + 2 * slack);
    let q = shares(&[9, 9]);
    let one = sell_proceeds(&q, b, 1, UNIT);
    let four = sell_proceeds(&q, b, 1, 4 * UNIT);
    assert_eq!(one, 499_999_744);
    assert_eq!(four, 1_999_999_744);
    assert!(four > 4 * one);
    assert!(four <= 4 * one + 4 * slack);
}

#[test]
fn cost_stays_below_one_liquidity_parameter_for_each_outcome_but_one() {
    for outcomes in 1..8usize {
        let q = vec![0i128; outcomes];
        let c = cost(&q, B) as u128;
        assert!(c <= (outcomes as u128 - 1) * B + 256 * B / ONE);
    }
    let q = shares(&[300, -20, 7]);
    assert!(cost(&q, B) <= 300 * UNIT as i128 + 2 * B as i128);
    assert!(cost(&q, B) >= 300 * UNIT as i128);
}

#[test]
fn exponential_falls_by_the_right_factor() {
    for step in 0..480u128 {
        let x = step * ONE / 10;
        let h = ONE / 7;
        let here = exp_neg_fixed(x);
        let there = exp_neg_fixed(x + h);
        assert!(there * (ONE + h) <= (here + 7_166) * ONE);
        assert!((there + 14_272) * ONE >= here * (ONE - h));
    }
}
