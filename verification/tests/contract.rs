use prediction_market::contract::Contract;
use prediction_market::error::MarketError;
use prediction_market::instructions::{Buy, InitialDeposit, Instruction};
use prediction_market::market::{
    CreateMarketArgs, Finalization, OrderDirection, Outcome, Stage, UserBalance,
};

const SIGNER_ACCOUNT_ID: &'static str = "alice.testnet";
const ONE_HOUR_NS: u64 = 60 * 60 * 1_000_000_000;
const UNIT: u128 = 1_000_000_000;

/// A liquidity parameter given in shares, as a mantissa at nine decimals.
fn liquidity(shares: f64) -> u128 {
    (shares * 1e9) as u128
}

fn create_test_market(num_outcomes: u32) -> CreateMarketArgs {
    CreateMarketArgs {
        title: "Will Donald Trump win the 2024 US Election?".into(),
        description: "This question will be settled based on Associated Press (AP) election calls."
            .into(),
        collateral_token: "test.near".into(),
        collateral_decimals: 9,
        trade_fee_bps: 1,
        resolution_time: 0 + ONE_HOUR_NS,
        end_time: 0 + ONE_HOUR_NS,
        fee_owner: None,
        oracle: None,
        operator: None,
        outcomes: (0..num_outcomes)
            .map(|i| Outcome {
                id: i,
                short_name: "Test".into(),
                long_name: "Test".into(),
            })
            .collect(),
        liquidity: Some(liquidity(50.0)),
    }
}

fn signer() -> String {
    SIGNER_ACCOUNT_ID.to_string()
}

#[test]
fn add_market() {
    let mut contract = Contract::new();
    assert_eq!(0, contract.get_markets());
    let args = create_test_market(2);
    contract.create_market(&signer(), args).unwrap();
    assert_eq!(1, contract.get_markets());
}

#[test]
fn buy_shares() {
    let mut contract = Contract::new();
    let args = create_test_market(2);
    let market_id = contract.create_market(&signer(), args).unwrap();
    let account_id: String = SIGNER_ACCOUNT_ID.into();
    let mut market = contract.get_market(market_id).clone();
    market.deposit_collateral(100_000_000_000).unwrap();
    market.open().unwrap();
    assert_eq!(None, market.outcome_balance(&account_id, 0));
    assert_eq!(None, market.outcome_balance(&account_id, 1));
    market.credit(&account_id, 0, 5).unwrap();
    assert_eq!(Some(5), market.outcome_balance(&account_id, 0));
    assert_eq!(Some(0), market.outcome_balance(&account_id, 1));
}

#[test]
fn buy_price_increase() {
    let mut contract = Contract::new();
    let args = create_test_market(2);
    let market_id = contract.create_market(&signer(), args).unwrap();
    let market = contract.get_market(market_id).clone();
    let buy_price = market.calc_price_without_fee(0, 10, OrderDirection::Buy);
    assert!(buy_price > 5_200_000_000);
}

#[test]
fn sell_price_decrease() {
    let mut contract = Contract::new();
    let args = create_test_market(2);
    let market_id = contract.create_market(&signer(), args).unwrap();
    let mut market = contract.get_market(market_id).clone();
    let account_id: String = "test_account".into();
    market.deposit_collateral(100_000_000_000).unwrap();
    market.open().unwrap();
    market.credit(&account_id, 1, 100).unwrap();
    // Selling more shares will reduce the average price
    let max_sell_price = market.calc_sell_price(1, 10) / 10;
    let mid_sell_price = market.calc_sell_price(1, 50) / 50;
    let min_sell_price = market.calc_sell_price(1, 100) / 100;
    assert!(min_sell_price < mid_sell_price);
    assert!(mid_sell_price < max_sell_price);
}

#[test]
fn test_ft_on_transfer_buy() {
    let mut contract = Contract::new();
    let args = create_test_market(2);
    let market_id = contract.create_market(&signer(), args).unwrap();
    let account_id: String = "alice.testnet".into();
    let token_id: String = "test.near".into();
    contract
        .deposit(
            &account_id,
            &token_id,
            100 * 1_000_000_000,
            InitialDeposit { market_id },
        )
        .unwrap();
    contract.open_market(&signer(), market_id).unwrap();
    contract
        .buy(
            &account_id,
            &token_id,
            3 * 1_000_000_000,
            Buy {
                market_id: market_id,
                outcome_id: 0,
                num_shares: 5,
            },
        )
        .unwrap();
    let balances = contract.get_user_balances(&account_id);
    assert!(balances.len() > 0);
    assert_eq!(balances[0].shares, 5);
    assert_eq!(balances[0].market_id, market_id);
    assert_eq!(balances[0].outcome_id, 0);

    contract.sell(&account_id, &token_id, 1, market_id, 0, 1).unwrap();
    let new_balances = contract.get_user_balances(&account_id);
    assert_eq!(new_balances[0].shares, 4);
}

#[test]
fn default_contract_has_no_markets() {
    let contract = Contract::default();
    assert_eq!(contract.get_markets(), 0);
}

#[test]
fn market_identifiers_count_up_from_zero() {
    let mut contract = Contract::new();
    assert_eq!(contract.create_market(&signer(), create_test_market(2)), Ok(0));
    assert_eq!(contract.create_market(&signer(), create_test_market(3)), Ok(1));
    assert_eq!(contract.get_market(0).id, 0);
    assert_eq!(contract.get_market(1).id, 1);
    assert_eq!(contract.get_market(1).outcomes.len(), 3);
}

#[test]
fn rejected_configuration_adds_no_market() {
    let mut contract = Contract::new();
    let result = contract.create_market(&signer(), create_test_market(1));
    assert_eq!(result, Err(MarketError::InvalidConfiguration));
    assert_eq!(contract.get_markets(), 0);
}

#[test]
fn only_the_operator_opens_and_pauses() {
    let mut contract = Contract::new();
    let market_id = contract.create_market(&signer(), create_test_market(2)).unwrap();
    let stranger: String = "bob.testnet".into();
    assert_eq!(contract.open_market(&stranger, market_id), Err(MarketError::Unauthorized));
    assert_eq!(contract.get_market(market_id).stage, Stage::Proposed);
    assert_eq!(contract.open_market(&signer(), market_id), Ok(()));
    assert_eq!(contract.get_market(market_id).stage, Stage::Open);
    assert_eq!(contract.pause_market(&stranger, market_id), Err(MarketError::Unauthorized));
    assert_eq!(contract.get_market(market_id).stage, Stage::Open);
    assert_eq!(contract.pause_market(&signer(), market_id), Ok(()));
    assert_eq!(contract.get_market(market_id).stage, Stage::Paused);
    assert_eq!(
        contract.pause_market(&signer(), market_id),
        Err(MarketError::InvalidStageTransition)
    );
    assert_eq!(contract.open_market(&signer(), market_id), Ok(()));
    assert_eq!(
        contract.open_market(&signer(), market_id),
        Err(MarketError::InvalidStageTransition)
    );
}

#[test]
fn named_operator_replaces_the_creator() {
    let mut contract = Contract::new();
    let mut args = create_test_market(2);
    args.operator = Some("carol.testnet".into());
    let market_id = contract.create_market(&signer(), args).unwrap();
    assert_eq!(contract.open_market(&signer(), market_id), Err(MarketError::Unauthorized));
    assert_eq!(contract.open_market(&"carol.testnet".to_string(), market_id), Ok(()));
    let market = contract.get_market(market_id);
    assert_eq!(market.operator, "carol.testnet");
    assert_eq!(market.oracle, "carol.testnet");
    assert_eq!(market.fee_owner, "carol.testnet");
}

#[test]
fn contract_buy_refunds_the_excess() {
    let mut contract = Contract::new();
    let market_id = contract.create_market(&signer(), create_test_market(2)).unwrap();
    let token_id: String = "test.near".into();
    contract.deposit(&signer(), &token_id, 100 * UNIT, InitialDeposit { market_id }).unwrap();
    contract.open_market(&signer(), market_id).unwrap();
    let refund = contract.buy(
        &signer(),
        &token_id,
        3 * UNIT,
        Buy { market_id, outcome_id: 0, num_shares: 5 },
    );
    assert_eq!(refund, Ok(437_269_776));
    let market = contract.get_market(market_id);
    assert_eq!(market.collateral_balance, 100 * UNIT + 2_562_473_976);
    assert_eq!(market.fees_accrued, 256_248);
    assert_eq!(market.outcome_shares, vec![5, 0]);
}

#[test]
fn contract_sell_pays_the_proceeds_less_the_fee() {
    let mut contract = Contract::new();
    let market_id = contract.create_market(&signer(), create_test_market(2)).unwrap();
    let token_id: String = "test.near".into();
    contract.deposit(&signer(), &token_id, 100 * UNIT, InitialDeposit { market_id }).unwrap();
    contract.open_market(&signer(), market_id).unwrap();
    contract
        .buy(&signer(), &token_id, 3 * UNIT, Buy { market_id, outcome_id: 0, num_shares: 5 })
        .unwrap();
    let paid = contract.sell(&signer(), &token_id, 1, market_id, 0, 1);
    assert_eq!(paid, Ok(522_432_389));
    let market = contract.get_market(market_id);
    assert_eq!(market.collateral_balance, 100 * UNIT + 2_562_473_976 - 522_484_638);
    assert_eq!(market.fees_accrued, 256_248 + 52_249);
    assert_eq!(market.outcome_shares, vec![4, 0]);
}

#[test]
fn contract_deposit_refunds_nothing() {
    let mut contract = Contract::new();
    let market_id = contract.create_market(&signer(), create_test_market(2)).unwrap();
    let token_id: String = "test.near".into();
    let refund = contract.deposit(&signer(), &token_id, 7, InitialDeposit { market_id });
    assert_eq!(refund, Ok(0));
    assert_eq!(contract.get_market(market_id).collateral_balance, 7);
}

#[test]
fn transfer_instructions_are_carried_out() {
    let mut contract = Contract::new();
    let market_id = contract.create_market(&signer(), create_test_market(2)).unwrap();
    let token_id: String = "test.near".into();
    let deposit = Instruction::InitialDeposit(InitialDeposit { market_id });
    assert_eq!(contract.on_transfer(&signer(), &token_id, 100 * UNIT, deposit), Ok(0));
    contract.open_market(&signer(), market_id).unwrap();
    let buy = Instruction::Buy(Buy { market_id, outcome_id: 1, num_shares: 5 });
    assert_eq!(contract.on_transfer(&signer(), &token_id, 3 * UNIT, buy), Ok(437_269_776));
    assert_eq!(contract.get_market(market_id).outcome_shares, vec![0, 5]);
}

#[test]
fn contract_resolves_one_market_and_leaves_the_other() {
    let mut contract = Contract::new();
    let first = contract.create_market(&signer(), create_test_market(2)).unwrap();
    let second = contract.create_market(&signer(), create_test_market(2)).unwrap();
    contract.open_market(&signer(), first).unwrap();
    contract.open_market(&signer(), second).unwrap();
    assert_eq!(contract.resolve_market(second, vec![0, UNIT]), Ok(()));
    assert_eq!(contract.get_market(first).stage, Stage::Open);
    assert_eq!(
        contract.get_market(second).stage,
        Stage::Finalized(Finalization::Resolved { outcome_id: 1 })
    );
    assert_eq!(contract.get_market(second).payouts, Some(vec![0, UNIT]));
}

#[test]
fn contract_withdraws_fees_to_the_fee_owner() {
    let mut contract = Contract::new();
    let mut args = create_test_market(2);
    args.fee_owner = Some("treasury.testnet".into());
    let market_id = contract.create_market(&signer(), args).unwrap();
    let token_id: String = "test.near".into();
    contract.deposit(&signer(), &token_id, 100 * UNIT, InitialDeposit { market_id }).unwrap();
    contract.open_market(&signer(), market_id).unwrap();
    contract
        .buy(&signer(), &token_id, 3 * UNIT, Buy { market_id, outcome_id: 0, num_shares: 5 })
        .unwrap();
    let transfer = contract.withdraw_fees(market_id);
    assert_eq!(transfer.receiver, "treasury.testnet");
    assert_eq!(transfer.token, "test.near");
    assert_eq!(transfer.amount, 256_248);
    assert_eq!(contract.get_market(market_id).fees_accrued, 0);
    assert_eq!(contract.withdraw_fees(market_id).amount, 0);
}

#[test]
fn user_balances_list_every_outcome_of_every_market_traded() {
    let mut contract = Contract::new();
    let token_id: String = "test.near".into();
    let bob: String = "bob.testnet".into();
    for outcomes in [2, 3, 2] {
        let market_id = contract.create_market(&signer(), create_test_market(outcomes)).unwrap();
        contract.deposit(&signer(), &token_id, 100 * UNIT, InitialDeposit { market_id }).unwrap();
        contract.open_market(&signer(), market_id).unwrap();
    }
    assert_eq!(contract.get_user_balances(&bob), vec![]);
    contract
        .buy(&bob, &token_id, 3 * UNIT, Buy { market_id: 2, outcome_id: 1, num_shares: 2 })
        .unwrap();
    contract
        .buy(&bob, &token_id, 3 * UNIT, Buy { market_id: 1, outcome_id: 2, num_shares: 3 })
        .unwrap();
    assert_eq!(
        contract.get_user_balances(&bob),
        vec![
            UserBalance { market_id: 1, outcome_id: 0, shares: 0 },
            UserBalance { market_id: 1, outcome_id: 1, shares: 0 },
            UserBalance { market_id: 1, outcome_id: 2, shares: 3 },
            UserBalance { market_id: 2, outcome_id: 0, shares: 0 },
            UserBalance { market_id: 2, outcome_id: 1, shares: 2 },
        ]
    );
    assert_eq!(contract.get_user_balances(&signer()), vec![]);
}

#[test]
fn queries_read_one_market() {
    let mut contract = Contract::new();
    let first = contract.create_market(&signer(), create_test_market(2)).unwrap();
    let second = contract.create_market(&signer(), create_test_market(3)).unwrap();
    let token_id: String = "test.near".into();
    contract.deposit(&signer(), &token_id, 100 * UNIT, InitialDeposit { market_id: first }).unwrap();
    contract.open_market(&signer(), first).unwrap();
    contract
        .buy(&signer(), &token_id, 6 * UNIT, Buy { market_id: first, outcome_id: 0, num_shares: 10 })
        .unwrap();
    assert_eq!(contract.stage(first), Stage::Open);
    assert_eq!(contract.stage(second), Stage::Proposed);
    assert_eq!(contract.price(first, 0), 549_833_997);
    assert_eq!(contract.price(first, 1), 450_166_002);
    assert_eq!(contract.price(second, 2), 333_333_333);
    assert_eq!(contract.balance(first, &signer(), 0), Some(10));
    assert_eq!(contract.balance(first, &signer(), 1), Some(0));
    assert_eq!(contract.balance(first, &signer(), 2), None);
    assert_eq!(contract.balance(second, &signer(), 0), None);
}
