use prediction_market::error::MarketError;
use prediction_market::ledger::Ledger;
use prediction_market::lifecycle::unit_of;
use prediction_market::market::{
    CreateMarketArgs, Finalization, Market, OrderDirection, Outcome, Stage, UserBalance,
};

const UNIT: u128 = 1_000_000_000;

fn creator() -> String {
    "alice.testnet".to_string()
}

fn bob() -> String {
    "bob.testnet".to_string()
}

fn config(num_outcomes: u32) -> CreateMarketArgs {
    CreateMarketArgs {
        title: "Rain tomorrow?".into(),
        description: "Settled by the weather service.".into(),
        collateral_token: "test.near".into(),
        collateral_decimals: 9,
        trade_fee_bps: 1,
        resolution_time: 3_600_000_000_000,
        end_time: 3_600_000_000_000,
        fee_owner: None,
        oracle: None,
        operator: None,
        outcomes: (0..num_outcomes)
            .map(|i| Outcome { id: i, short_name: "Test".into(), long_name: "Test".into() })
            .collect(),
        liquidity: Some(50 * UNIT),
    }
}

fn proposed(num_outcomes: u32) -> Market {
    Market::new(0, &creator(), config(num_outcomes)).unwrap()
}

fn seeded(num_outcomes: u32) -> Market {
    let mut market = proposed(num_outcomes);
    market.deposit_collateral(100 * UNIT).unwrap();
    market.open().unwrap();
    market
}

fn rejected(args: CreateMarketArgs) -> bool {
    matches!(Market::new(0, &creator(), args), Err(MarketError::InvalidConfiguration))
}

#[test]
fn unit_is_a_power_of_ten() {
    assert_eq!(unit_of(0), 1);
    assert_eq!(unit_of(9), 1_000_000_000);
    assert_eq!(unit_of(18), 1_000_000_000_000_000_000);
}

#[test]
fn new_market_is_proposed_and_empty() {
    let market = Market::new(7, &creator(), config(3)).unwrap();
    assert_eq!(market.id, 7);
    assert_eq!(market.stage, Stage::Proposed);
    assert_eq!(market.outcome_shares, vec![0, 0, 0]);
    assert_eq!(market.collateral_balance, 0);
    assert_eq!(market.fees_accrued, 0);
    assert_eq!(market.payouts, None);
    assert_eq!(market.liquidity, 50 * UNIT);
    assert_eq!(market.outcomes.len(), 3);
    assert_eq!(market.outcomes[2].id, 2);
    assert_eq!(market.operator, "alice.testnet");
    assert_eq!(market.oracle, "alice.testnet");
    assert_eq!(market.fee_owner, "alice.testnet");
    assert_eq!(market.collateral_token, "test.near");
    assert_eq!(market.outcome_balance(&creator(), 0), None);
}

#[test]
fn named_roles_are_kept() {
    let mut args = config(2);
    args.oracle = Some("oracle.testnet".into());
    args.fee_owner = Some("treasury.testnet".into());
    let market = Market::new(0, &creator(), args).unwrap();
    assert_eq!(market.operator, "alice.testnet");
    assert_eq!(market.oracle, "oracle.testnet");
    assert_eq!(market.fee_owner, "treasury.testnet");
    assert!(market.is_operator(&creator()));
    assert!(!market.is_operator(&bob()));
    assert!(market.is_oracle(&"oracle.testnet".to_string()));
    assert!(!market.is_oracle(&creator()));
    assert!(market.accepts(&"test.near".to_string()));
    assert!(!market.accepts(&"other.near".to_string()));
}

#[test]
fn default_liquidity_is_fifty_shares() {
    let mut args = config(2);
    args.liquidity = None;
    let market = Market::new(0, &creator(), args).unwrap();
    assert_eq!(market.liquidity, 50 * UNIT);
    assert!(market.calc_price_without_fee(0, 10, OrderDirection::Buy) > 5_200_000_000);
}

#[test]
fn too_few_outcomes_are_rejected() {
    assert!(rejected(config(0)));
    assert!(rejected(config(1)));
    assert!(!rejected(config(2)));
}

#[test]
fn fee_above_the_whole_is_rejected() {
    let mut args = config(2);
    args.trade_fee_bps = 10_001;
    assert!(rejected(args));
    let mut args = config(2);
    args.trade_fee_bps = 10_000;
    assert!(!rejected(args));
    let mut args = config(2);
    args.trade_fee_bps = 0;
    assert!(!rejected(args));
}

#[test]
fn bad_liquidity_is_rejected() {
    let mut args = config(2);
    args.liquidity = Some(0);
    assert!(rejected(args));
    let mut args = config(2);
    args.liquidity = Some(1_000_000_000_000_000_000_000_000_001);
    assert!(rejected(args));
    let mut args = config(2);
    args.liquidity = Some(u128::MAX);
    assert!(rejected(args));
    let mut args = config(2);
    args.liquidity = Some(1_000_000_000_000_000_000_000_000_000);
    assert!(!rejected(args));
    let mut args = config(2);
    args.liquidity = Some(1);
    assert!(!rejected(args));
}

#[test]
fn default_liquidity_fits_every_scale() {
    for decimals in 0..=18u32 {
        let mut args = config(2);
        args.liquidity = None;
        args.collateral_decimals = decimals;
        let market = Market::new(0, &creator(), args).unwrap();
        assert_eq!(market.liquidity, 50 * unit_of(decimals));
    }
}

#[test]
fn quotes_at_eighteen_decimals() {
    let mut args = config(2);
    args.liquidity = None;
    args.collateral_decimals = 18;
    let market = Market::new(0, &creator(), args).unwrap();
    let value = market.calc_price_without_fee(0, 10, OrderDirection::Buy);
    assert_eq!(value, 5_249_584_441_082_316_800);
    let real = 50.0 * ((0.2f64.exp() + 1.0).ln() - 2.0f64.ln());
    assert!((value as f64 / 1e18 - real).abs() < 1e-12);
    assert_eq!(market.price(0), 500_000_000_000_000_000);
}

#[test]
fn stored_market_is_checked() {
    let mut market = seeded(2);
    market.internal_buy(&bob(), 3 * UNIT, 5, 0).unwrap();
    assert!(market.validate());
    let mut broken = market.clone();
    broken.outcome_shares.push(0);
    assert!(!broken.validate());
    let mut broken = market.clone();
    broken.trade_fee_bps = 10_001;
    assert!(!broken.validate());
    let mut broken = market.clone();
    broken.liquidity = 0;
    assert!(!broken.validate());
    let mut broken = market.clone();
    broken.collateral_decimals = 19;
    assert!(!broken.validate());
    let mut broken = market.clone();
    broken.outcomes[1].id = 5;
    assert!(!broken.validate());
    let mut broken = market.clone();
    broken.outcomes.pop();
    assert!(!broken.validate());
    let mut broken = market.clone();
    broken.payouts = Some(vec![UNIT, 0]);
    assert!(!broken.validate());
    let mut broken = market.clone();
    broken.stage = Stage::Finalized(Finalization::Resolved { outcome_id: 1 });
    assert!(!broken.validate());
    broken.payouts = Some(vec![0, UNIT]);
    assert!(broken.validate());
    broken.stage = Stage::Finalized(Finalization::Resolved { outcome_id: 2 });
    assert!(!broken.validate());
    let mut broken = market.clone();
    broken.ledger = Ledger::new(3);
    assert!(!broken.validate());
}

#[test]
fn market_survives_storage() {
    let mut market = seeded(2);
    market.internal_buy(&bob(), 3 * UNIT, 5, 0).unwrap();
    market.internal_buy(&creator(), 3 * UNIT, 2, 1).unwrap();
    let positions = market.ledger.positions();
    assert_eq!(positions.len(), 2);
    assert_eq!(positions[0].account, "bob.testnet");
    assert_eq!(positions[0].balances, vec![5, 0]);
    assert_eq!(positions[1].account, "alice.testnet");
    assert_eq!(positions[1].balances, vec![0, 2]);
    let mut restored = market.clone();
    restored.ledger = Ledger::from_positions(2, positions).unwrap();
    assert!(restored.validate());
    assert_eq!(restored.outcome_balance(&bob(), 0), Some(5));
    assert_eq!(restored.outcome_balance(&creator(), 1), Some(2));
    assert_eq!(restored.internal_sell(&bob(), 1, 0), market.internal_sell(&bob(), 1, 0));
}

#[test]
fn gated_transitions_check_the_caller() {
    let mut args = config(2);
    args.oracle = Some("oracle.testnet".into());
    let mut market = Market::new(0, &creator(), args).unwrap();
    let oracle = "oracle.testnet".to_string();
    assert_eq!(market.open_by(&bob()), Err(MarketError::Unauthorized));
    assert_eq!(market.open_by(&oracle), Err(MarketError::Unauthorized));
    assert_eq!(market.stage, Stage::Proposed);
    assert_eq!(market.pause_by(&creator()), Err(MarketError::InvalidStageTransition));
    assert_eq!(market.open_by(&creator()), Ok(()));
    assert_eq!(market.pause_by(&bob()), Err(MarketError::Unauthorized));
    assert_eq!(market.stage, Stage::Open);
    assert_eq!(market.pause_by(&creator()), Ok(()));
    assert_eq!(market.stage, Stage::Paused);
    assert_eq!(market.resolve_by(&creator(), vec![UNIT, 0]), Err(MarketError::Unauthorized));
    assert_eq!(market.resolve_by(&bob(), vec![UNIT, 0]), Err(MarketError::Unauthorized));
    assert_eq!(market.stage, Stage::Paused);
    assert_eq!(market.resolve_by(&oracle, vec![UNIT, 1]), Err(MarketError::InvalidPayoutVector));
    assert_eq!(market.resolve_by(&oracle, vec![UNIT, 0]), Ok(()));
    assert_eq!(market.stage, Stage::Finalized(Finalization::Resolved { outcome_id: 0 }));
}

#[test]
fn user_balances_of_one_market() {
    let mut market = Market::new(4, &creator(), config(3)).unwrap();
    assert_eq!(market.user_balances(&bob()), vec![]);
    market.credit(&bob(), 2, 9).unwrap();
    assert_eq!(
        market.user_balances(&bob()),
        vec![
            UserBalance { market_id: 4, outcome_id: 0, shares: 0 },
            UserBalance { market_id: 4, outcome_id: 1, shares: 0 },
            UserBalance { market_id: 4, outcome_id: 2, shares: 9 },
        ]
    );
    assert_eq!(market.user_balances(&creator()), vec![]);
}

#[test]
fn too_many_decimals_are_rejected() {
    let mut args = config(2);
    args.collateral_decimals = 19;
    assert!(rejected(args));
    let mut args = config(2);
    args.collateral_decimals = 18;
    assert!(!rejected(args));
}

#[test]
fn outcomes_out_of_order_are_rejected() {
    let mut args = config(3);
    args.outcomes[1].id = 2;
    args.outcomes[2].id = 1;
    assert!(rejected(args));
    let mut args = config(2);
    args.outcomes[0].id = 1;
    args.outcomes[1].id = 2;
    assert!(rejected(args));
}

#[test]
fn stages_follow_one_another() {
    let mut market = proposed(2);
    assert_eq!(market.pause(), Err(MarketError::InvalidStageTransition));
    assert_eq!(market.stage, Stage::Proposed);
    assert_eq!(market.open(), Ok(()));
    assert_eq!(market.stage, Stage::Open);
    assert_eq!(market.open(), Err(MarketError::InvalidStageTransition));
    assert_eq!(market.stage, Stage::Open);
    assert_eq!(market.pause(), Ok(()));
    assert_eq!(market.stage, Stage::Paused);
    assert_eq!(market.pause(), Err(MarketError::InvalidStageTransition));
    assert_eq!(market.open(), Ok(()));
    assert_eq!(market.stage, Stage::Open);
}

#[test]
fn finalized_market_stays_finalized() {
    let mut market = seeded(2);
    market.resolve(vec![UNIT, 0]).unwrap();
    let end = Stage::Finalized(Finalization::Resolved { outcome_id: 0 });
    assert_eq!(market.open(), Err(MarketError::InvalidStageTransition));
    assert_eq!(market.pause(), Err(MarketError::InvalidStageTransition));
    assert_eq!(market.resolve(vec![0, UNIT]), Err(MarketError::InvalidStageTransition));
    assert_eq!(market.resolve(vec![0, 0]), Err(MarketError::InvalidStageTransition));
    assert_eq!(market.stage, end);
    assert_eq!(market.payouts, Some(vec![UNIT, 0]));
}

#[test]
fn resolve_picks_the_largest_payout() {
    let mut market = seeded(3);
    assert_eq!(market.resolve(vec![200_000_000, 700_000_000, 100_000_000]), Ok(()));
    assert_eq!(market.stage, Stage::Finalized(Finalization::Resolved { outcome_id: 1 }));
    assert_eq!(market.payouts, Some(vec![200_000_000, 700_000_000, 100_000_000]));
}

#[test]
fn resolve_breaks_ties_by_the_lowest_index() {
    let mut market = seeded(3);
    assert_eq!(market.resolve(vec![200_000_000, 400_000_000, 400_000_000]), Ok(()));
    assert_eq!(market.stage, Stage::Finalized(Finalization::Resolved { outcome_id: 1 }));
    let mut market = seeded(2);
    assert_eq!(market.resolve(vec![500_000_000, 500_000_000]), Ok(()));
    assert_eq!(market.stage, Stage::Finalized(Finalization::Resolved { outcome_id: 0 }));
}

#[test]
fn resolve_of_a_paused_market() {
    let mut market = seeded(2);
    market.pause().unwrap();
    assert_eq!(market.resolve(vec![0, UNIT]), Ok(()));
    assert_eq!(market.stage, Stage::Finalized(Finalization::Resolved { outcome_id: 1 }));
}

#[test]
fn resolve_with_no_payouts_makes_the_market_invalid() {
    let mut market = seeded(3);
    assert_eq!(market.resolve(vec![0, 0, 0]), Ok(()));
    assert_eq!(market.stage, Stage::Finalized(Finalization::Invalid));
    assert_eq!(market.payouts, None);
}

#[test]
fn resolve_with_another_sum_is_refused() {
    let mut market = seeded(2);
    assert_eq!(market.resolve(vec![UNIT, 1]), Err(MarketError::InvalidPayoutVector));
    assert_eq!(market.resolve(vec![UNIT - 1, 0]), Err(MarketError::InvalidPayoutVector));
    assert_eq!(market.resolve(vec![9, 0]), Err(MarketError::InvalidPayoutVector));
    assert_eq!(market.resolve(vec![u128::MAX, 1]), Err(MarketError::InvalidPayoutVector));
    assert_eq!(market.resolve(vec![u128::MAX, u128::MAX]), Err(MarketError::InvalidPayoutVector));
    assert_eq!(market.stage, Stage::Open);
    assert_eq!(market.payouts, None);
}

#[test]
fn resolve_with_the_wrong_number_of_payouts_is_refused() {
    let mut market = seeded(2);
    assert_eq!(market.resolve(vec![UNIT]), Err(MarketError::InvalidPayoutVector));
    assert_eq!(market.resolve(vec![UNIT, 0, 0]), Err(MarketError::InvalidPayoutVector));
    assert_eq!(market.resolve(vec![]), Err(MarketError::InvalidPayoutVector));
    assert_eq!(market.stage, Stage::Open);
}

#[test]
fn resolve_of_a_proposed_market_is_refused() {
    let mut market = proposed(2);
    assert_eq!(market.resolve(vec![UNIT, 0]), Err(MarketError::InvalidStageTransition));
    assert_eq!(market.stage, Stage::Proposed);
}

#[test]
fn deposit_adds_collateral_until_the_market_is_finalized() {
    let mut market = proposed(2);
    assert_eq!(market.deposit_collateral(5), Ok(()));
    market.open().unwrap();
    assert_eq!(market.deposit_collateral(6), Ok(()));
    market.pause().unwrap();
    assert_eq!(market.deposit_collateral(7), Ok(()));
    assert_eq!(market.collateral_balance, 18);
    market.resolve(vec![0, 0]).unwrap();
    assert_eq!(market.deposit_collateral(8), Err(MarketError::InvalidStageTransition));
    assert_eq!(market.collateral_balance, 18);
}

#[test]
fn deposit_beyond_the_range_is_refused() {
    let mut market = proposed(2);
    market.deposit_collateral(u128::MAX).unwrap();
    assert_eq!(market.deposit_collateral(1), Err(MarketError::ArithmeticOverflow));
    assert_eq!(market.collateral_balance, u128::MAX);
}

#[test]
fn withdraw_fees_hands_out_the_fees_once() {
    let mut market = seeded(2);
    market.internal_buy(&bob(), 3 * UNIT, 5, 0).unwrap();
    let transfer = market.withdraw_fees();
    assert_eq!(transfer.receiver, "alice.testnet");
    assert_eq!(transfer.token, "test.near");
    assert_eq!(transfer.amount, 256_248);
    assert_eq!(market.fees_accrued, 0);
    assert_eq!(market.collateral_balance, 100 * UNIT + 2_562_473_976);
    market.resolve(vec![0, 0]).unwrap();
    assert_eq!(market.withdraw_fees().amount, 0);
}

#[test]
fn quotes_match_known_values() {
    let market = seeded(2);
    assert_eq!(market.calc_price_without_fee(0, 10, OrderDirection::Buy), 5_249_584_442);
    assert_eq!(market.calc_price_without_fee(1, 10, OrderDirection::Sell), 4_750_415_558);
    assert_eq!(market.calc_buy_price(0, 5), 2_562_473_976 + 256_248);
    assert_eq!(market.calc_sell_price(1, 10), 4_749_940_516);
    assert_eq!(market.calc_sell_price(1, 50), 18_992_375_224);
    assert_eq!(market.calc_sell_price(1, 100), 28_308_127_379);
    assert_eq!(market.price(0), 500_000_000);
    assert_eq!(market.cost(), 34_657_359_027);
}

#[test]
fn buying_raises_the_price() {
    let mut market = seeded(2);
    let before = market.price(0);
    market.internal_buy(&bob(), 6 * UNIT, 10, 0).unwrap();
    assert_eq!(before, 500_000_000);
    assert_eq!(market.price(0), 549_833_997);
    assert_eq!(market.price(1), 450_166_002);
}

#[test]
fn buy_commits_shares_collateral_and_fee() {
    let mut market = seeded(2);
    assert_eq!(market.internal_buy(&bob(), 3 * UNIT, 5, 0), Ok(437_269_776));
    assert_eq!(market.outcome_shares, vec![5, 0]);
    assert_eq!(market.collateral_balance, 100 * UNIT + 2_562_473_976);
    assert_eq!(market.fees_accrued, 256_248);
    assert_eq!(market.outcome_balance(&bob(), 0), Some(5));
    assert_eq!(market.outcome_balance(&bob(), 1), Some(0));
}

#[test]
fn buy_for_the_exact_price_refunds_nothing() {
    let mut market = seeded(2);
    let price = market.calc_buy_price(0, 5);
    assert_eq!(market.internal_buy(&bob(), price, 5, 0), Ok(0));
}

#[test]
fn underfunded_buy_changes_nothing() {
    let mut market = seeded(2);
    let price = market.calc_buy_price(0, 5);
    assert_eq!(
        market.internal_buy(&bob(), price - 1, 5, 0),
        Err(MarketError::InsufficientPayment)
    );
    assert_eq!(market.outcome_shares, vec![0, 0]);
    assert_eq!(market.collateral_balance, 100 * UNIT);
    assert_eq!(market.fees_accrued, 0);
    assert_eq!(market.outcome_balance(&bob(), 0), None);
}

#[test]
fn buy_needs_an_open_market() {
    let mut market = proposed(2);
    market.deposit_collateral(100 * UNIT).unwrap();
    assert_eq!(
        market.internal_buy(&bob(), 3 * UNIT, 5, 0),
        Err(MarketError::InvalidStageTransition)
    );
    market.open().unwrap();
    market.pause().unwrap();
    assert_eq!(
        market.internal_buy(&bob(), 3 * UNIT, 5, 0),
        Err(MarketError::InvalidStageTransition)
    );
    assert_eq!(market.outcome_balance(&bob(), 0), None);
}

#[test]
fn buy_beyond_the_range_of_shares_is_refused() {
    let mut market = seeded(2);
    assert_eq!(
        market.internal_buy(&bob(), u128::MAX, u64::MAX, 0),
        Err(MarketError::ArithmeticOverflow)
    );
    assert_eq!(market.outcome_shares, vec![0, 0]);
}

#[test]
fn buy_beyond_the_range_of_collateral_is_refused() {
    let mut market = proposed(2);
    market.deposit_collateral(u128::MAX).unwrap();
    market.open().unwrap();
    assert_eq!(
        market.internal_buy(&bob(), 3 * UNIT, 5, 0),
        Err(MarketError::ArithmeticOverflow)
    );
    assert_eq!(market.outcome_shares, vec![0, 0]);
    assert_eq!(market.outcome_balance(&bob(), 0), None);
}

#[test]
fn sell_commits_shares_collateral_and_fee() {
    let mut market = seeded(2);
    market.internal_buy(&bob(), 3 * UNIT, 5, 0).unwrap();
    assert_eq!(market.internal_sell(&bob(), 1, 0), Ok(522_432_389));
    assert_eq!(market.outcome_shares, vec![4, 0]);
    assert_eq!(market.collateral_balance, 100 * UNIT + 2_562_473_976 - 522_484_638);
    assert_eq!(market.fees_accrued, 256_248 + 52_249);
    assert_eq!(market.outcome_balance(&bob(), 0), Some(4));
}

#[test]
fn sell_of_shares_not_held_is_refused() {
    let mut market = seeded(2);
    assert_eq!(market.internal_sell(&bob(), 1, 0), Err(MarketError::InsufficientShares));
    market.internal_buy(&bob(), 3 * UNIT, 5, 0).unwrap();
    assert_eq!(market.internal_sell(&bob(), 6, 0), Err(MarketError::InsufficientShares));
    assert_eq!(market.internal_sell(&bob(), 1, 1), Err(MarketError::InsufficientShares));
    assert_eq!(market.outcome_shares, vec![5, 0]);
    assert_eq!(market.outcome_balance(&bob(), 0), Some(5));
}

#[test]
fn sell_needs_an_open_market() {
    let mut market = seeded(2);
    market.internal_buy(&bob(), 3 * UNIT, 5, 0).unwrap();
    market.pause().unwrap();
    assert_eq!(market.internal_sell(&bob(), 1, 0), Err(MarketError::InvalidStageTransition));
    assert_eq!(market.outcome_balance(&bob(), 0), Some(5));
    market.open().unwrap();
    market.resolve(vec![UNIT, 0]).unwrap();
    assert_eq!(market.internal_sell(&bob(), 1, 0), Err(MarketError::InvalidStageTransition));
}

#[test]
fn sell_beyond_the_collateral_is_refused() {
    let mut market = proposed(2);
    market.open().unwrap();
    market.credit(&bob(), 0, 5).unwrap();
    assert_eq!(market.internal_sell(&bob(), 1, 0), Err(MarketError::ArithmeticOverflow));
    assert_eq!(market.outcome_balance(&bob(), 0), Some(5));
    assert_eq!(market.outcome_shares, vec![0, 0]);
}

#[test]
fn credit_and_debit_reach_the_ledger() {
    let mut market = proposed(2);
    assert_eq!(market.credit(&bob(), 1, 5), Ok(()));
    assert_eq!(market.debit(&bob(), 1, 2), Ok(()));
    assert_eq!(market.outcome_balance(&bob(), 1), Some(3));
    assert_eq!(market.debit(&bob(), 1, 4), Err(MarketError::InsufficientShares));
    assert_eq!(market.debit(&creator(), 1, 1), Err(MarketError::InsufficientShares));
    assert_eq!(market.credit(&bob(), 1, u128::MAX), Err(MarketError::ArithmeticOverflow));
    assert_eq!(market.outcome_balance(&bob(), 1), Some(3));
    assert_eq!(market.outcome_shares, vec![0, 0]);
}

#[test]
fn market_without_collateral_is_not_solvent() {
    let mut market = proposed(2);
    assert!(!market.is_solvent());
    market.deposit_collateral(34_657_359_026).unwrap();
    assert!(!market.is_solvent());
    market.deposit_collateral(1).unwrap();
    assert!(market.is_solvent());
}

#[test]
fn one_liquidity_parameter_for_each_outcome_but_one_makes_solvent() {
    for outcomes in 2..6u32 {
        let mut market = proposed(outcomes);
        let seed = (outcomes as u128 - 1) * market.liquidity;
        assert!(market.cost() as u128 <= seed);
        market.deposit_collateral(seed).unwrap();
        assert!(market.is_solvent());
    }
}

#[test]
fn solvent_market_covers_the_shares_of_every_outcome() {
    let mut market = seeded(3);
    for (outcome, shares) in [(0, 90), (1, 20), (0, 40), (2, 75)] {
        market.internal_buy(&bob(), 1_000 * UNIT, shares, outcome).unwrap();
        assert!(market.is_solvent());
        for issued in &market.outcome_shares {
            assert!(*issued as u128 * UNIT <= market.collateral_balance);
        }
    }
}

#[test]
fn solvent_market_covers_its_payouts() {
    let mut market = seeded(3);
    for (outcome, shares) in [(0, 90), (1, 20), (2, 75)] {
        market.internal_buy(&bob(), 1_000 * UNIT, shares, outcome).unwrap();
    }
    assert!(market.is_solvent());
    for payouts in [[UNIT, 0, 0], [300_000_000, 700_000_000, 0], [1, UNIT - 2, 1]] {
        let owed: u128 = market
            .outcome_shares
            .iter()
            .zip(payouts.iter())
            .map(|(issued, payout)| *issued as u128 * UNIT * payout)
            .sum();
        assert!(owed <= market.collateral_balance * UNIT);
    }
}

#[test]
fn trading_keeps_the_market_solvent() {
    let mut market = seeded(3);
    let traders = [creator(), bob()];
    let surplus = market.collateral_balance as i128 - market.cost();
    let mut seed: u64 = 12345;
    let mut trades = 0;
    for _ in 0..200 {
        seed = seed.wrapping_mul(6364136223846793005).wrapping_add(1442695040888963407);
        let trader = &traders[(seed >> 60) as usize % 2];
        let outcome = ((seed >> 40) % 3) as u32;
        let shares = (seed >> 20) % 40 + 1;
        let result = if (seed >> 33) % 2 == 0 {
            market.internal_buy(trader, 1_000 * UNIT, shares, outcome)
        } else {
            market.internal_sell(trader, shares, outcome)
        };
        if result.is_ok() {
            trades += 1;
        }
        assert!(market.is_solvent());
        assert_eq!(market.collateral_balance as i128 - market.cost(), surplus);
    }
    assert!(trades > 50);
}
