use prediction_market::error::MarketError;
use prediction_market::ledger::{Ledger, Position};

fn alice() -> String {
    "alice.testnet".to_string()
}

fn bob() -> String {
    "bob.testnet".to_string()
}

#[test]
fn new_ledger_has_no_record_of_anyone() {
    let ledger = Ledger::new(2);
    assert_eq!(ledger.balance_of(&alice(), 0), None);
    assert_eq!(ledger.balance_of(&alice(), 1), None);
    assert_eq!(ledger.balances_of(&alice()), None);
}

#[test]
fn credit_then_balance_round_trips() {
    let mut ledger = Ledger::new(2);
    assert_eq!(ledger.credit(&alice(), 0, 5), Ok(()));
    assert_eq!(ledger.balance_of(&alice(), 0), Some(5));
    assert_eq!(ledger.balance_of(&alice(), 1), Some(0));
    assert_eq!(ledger.balance_of(&bob(), 0), None);
    assert_eq!(ledger.balances_of(&alice()), Some(vec![5, 0]));
}

#[test]
fn credits_add_up() {
    let mut ledger = Ledger::new(3);
    ledger.credit(&alice(), 2, 5).unwrap();
    ledger.credit(&bob(), 1, 7).unwrap();
    ledger.credit(&alice(), 2, 6).unwrap();
    ledger.credit(&alice(), 0, 1).unwrap();
    assert_eq!(ledger.balances_of(&alice()), Some(vec![1, 0, 11]));
    assert_eq!(ledger.balances_of(&bob()), Some(vec![0, 7, 0]));
}

#[test]
fn credit_of_nothing_makes_a_row_of_zeros() {
    let mut ledger = Ledger::new(2);
    assert_eq!(ledger.credit(&alice(), 1, 0), Ok(()));
    assert_eq!(ledger.balance_of(&alice(), 0), Some(0));
    assert_eq!(ledger.balance_of(&alice(), 1), Some(0));
}

#[test]
fn credit_beyond_the_range_changes_nothing() {
    let mut ledger = Ledger::new(2);
    ledger.credit(&alice(), 0, u128::MAX).unwrap();
    assert_eq!(ledger.credit(&alice(), 0, 1), Err(MarketError::ArithmeticOverflow));
    assert_eq!(ledger.balance_of(&alice(), 0), Some(u128::MAX));
    assert_eq!(ledger.credit(&alice(), 1, 1), Ok(()));
}

#[test]
fn debit_takes_shares() {
    let mut ledger = Ledger::new(2);
    ledger.credit(&alice(), 0, 5).unwrap();
    assert_eq!(ledger.debit(&alice(), 0, 2), Ok(()));
    assert_eq!(ledger.balance_of(&alice(), 0), Some(3));
    assert_eq!(ledger.debit(&alice(), 0, 3), Ok(()));
    assert_eq!(ledger.balance_of(&alice(), 0), Some(0));
}

#[test]
fn debit_of_more_than_the_balance_fails() {
    let mut ledger = Ledger::new(2);
    ledger.credit(&alice(), 0, 5).unwrap();
    assert_eq!(ledger.debit(&alice(), 0, 6), Err(MarketError::InsufficientShares));
    assert_eq!(ledger.debit(&alice(), 1, 1), Err(MarketError::InsufficientShares));
    assert_eq!(ledger.balances_of(&alice()), Some(vec![5, 0]));
}

#[test]
fn debit_without_a_row_fails() {
    let mut ledger = Ledger::new(2);
    assert_eq!(ledger.debit(&alice(), 0, 1), Err(MarketError::InsufficientShares));
    assert_eq!(ledger.debit(&alice(), 0, 0), Err(MarketError::InsufficientShares));
    assert_eq!(ledger.balance_of(&alice(), 0), None);
}

#[test]
fn balance_of_an_unknown_outcome_is_no_record() {
    let mut ledger = Ledger::new(2);
    ledger.credit(&alice(), 0, 5).unwrap();
    assert_eq!(ledger.balance_of(&alice(), 2), None);
    assert_eq!(ledger.debit(&alice(), 2, 1), Err(MarketError::InsufficientShares));
}

#[test]
fn error_messages() {
    assert_eq!(MarketError::InvalidConfiguration.message(), "Invalid market configuration");
    assert_eq!(MarketError::Unauthorized.message(), "Caller is not authorized");
    assert_eq!(MarketError::InvalidStageTransition.message(), "Invalid stage transition");
    assert_eq!(MarketError::InsufficientPayment.message(), "Insufficient payment");
    assert_eq!(MarketError::InsufficientShares.message(), "Insufficient shares");
    assert_eq!(MarketError::InvalidPayoutVector.message(), "Invalid payout vector");
    assert_eq!(MarketError::ArithmeticOverflow.message(), "Arithmetic overflow");
}

fn position(account: &str, balances: &[u128]) -> Position {
    Position { account: account.to_string(), balances: balances.to_vec() }
}

#[test]
fn ledger_of_positions() {
    let positions = vec![position("alice.testnet", &[1, 2]), position("bob.testnet", &[3, 4])];
    let mut ledger = Ledger::from_positions(2, positions).unwrap();
    assert!(ledger.is_well_formed());
    assert_eq!(ledger.outcomes_count(), 2);
    assert_eq!(ledger.balance_of(&alice(), 1), Some(2));
    assert_eq!(ledger.balance_of(&bob(), 0), Some(3));
    assert_eq!(ledger.debit(&bob(), 1, 4), Ok(()));
    assert_eq!(ledger.balances_of(&bob()), Some(vec![3, 0]));
}

#[test]
fn ledger_of_no_positions_is_empty() {
    let ledger = Ledger::from_positions(3, vec![]).unwrap();
    assert_eq!(ledger.balance_of(&alice(), 0), None);
    assert_eq!(ledger.positions().len(), 0);
}

#[test]
fn positions_of_one_account_twice_are_refused() {
    let positions = vec![
        position("alice.testnet", &[1, 2]),
        position("bob.testnet", &[3, 4]),
        position("alice.testnet", &[5, 6]),
    ];
    assert!(Ledger::from_positions(2, positions).is_none());
}

#[test]
fn positions_with_missing_balances_are_refused() {
    assert!(Ledger::from_positions(2, vec![position("alice.testnet", &[1])]).is_none());
    assert!(Ledger::from_positions(2, vec![position("alice.testnet", &[1, 2, 3])]).is_none());
    assert!(Ledger::from_positions(0, vec![position("alice.testnet", &[])]).is_some());
}

#[test]
fn positions_come_back_as_they_went_in() {
    let mut ledger = Ledger::new(2);
    ledger.credit(&bob(), 1, 7).unwrap();
    ledger.credit(&alice(), 0, 5).unwrap();
    ledger.debit(&bob(), 1, 3).unwrap();
    let positions = ledger.positions();
    assert_eq!(positions.len(), 2);
    assert_eq!(positions[0].account, "bob.testnet");
    assert_eq!(positions[0].balances, vec![0, 4]);
    assert_eq!(positions[1].account, "alice.testnet");
    assert_eq!(positions[1].balances, vec![5, 0]);
    let restored = Ledger::from_positions(2, positions).unwrap();
    assert_eq!(restored.balances_of(&alice()), ledger.balances_of(&alice()));
    assert_eq!(restored.balances_of(&bob()), ledger.balances_of(&bob()));
}
