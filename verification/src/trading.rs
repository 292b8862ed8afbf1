//! Trading: quotes, purchases and sales of shares, and the ledger entries
//! that go with them.
//!
//! A purchase or a sale commits the ledger, the issued shares, the collateral
//! and the accrued fees before it returns what is owed to the trader. Paying
//! that out is up to the caller.

use crate::error::MarketError;
use crate::ledger::balance;
use crate::lifecycle::unit_of;
use crate::lmsr::{
    buy_cost, cost, fee, ints, price, quantities_in_range, sell_proceeds, MAX_QUANTITY, MAX_UNIT,
};
use crate::market::{
    lemma_unit_in_range, market_balances, Market, OrderDirection, Stage, UserBalance,
};
use vstd::prelude::*;

verus! {

impl Market {
    /// The issued shares as quantities of the pricing engine.
    fn quantities(&self) -> (q: Vec<i128>)
        requires
            self.wf(),
        ensures
            ints(q@) == self@.quantities(),
            q.len() == self@.count(),
            quantities_in_range(q@),
            forall|j: int|
                0 <= j < q.len() ==> #[trigger] q[j] == self.outcome_shares[j] * self@.unit(),
    {
        let unit: u128 = unit_of(self.collateral_decimals);
        let mut q: Vec<i128> = Vec::new();
        let mut j: usize = 0;
        while j < self.outcome_shares.len()
            invariant
                j <= self.outcome_shares.len(),
                1 <= unit <= MAX_UNIT,
                unit == self@.unit(),
                q.len() == j,
                forall|l: int|
                    0 <= l < j ==> #[trigger] q[l] == self.outcome_shares[l] * unit
                        && -MAX_QUANTITY <= q[l] <= MAX_QUANTITY,
            decreases self.outcome_shares.len() - j,
        {
            let held: i64 = self.outcome_shares[j];
            assert(-MAX_QUANTITY <= held * unit <= MAX_QUANTITY) by (nonlinear_arith)
                requires
                    -0x8000_0000_0000_0000 <= held < 0x8000_0000_0000_0000,
                    1 <= unit <= MAX_UNIT,
            ;
            q.push((held as i128) * (unit as i128));
            j = j + 1;
        }
        assert(ints(q@) =~= self@.quantities());
        q
    }

    /// Returns the value of the cost function at the issued shares.
    pub fn cost(&self) -> (c: i128)
        requires
            self.wf(),
        ensures
            c == self@.cost(),
    {
        let q: Vec<i128> = self.quantities();
        cost(&q, self.liquidity)
    }

    /// Whether the collateral covers the cost function.
    pub fn is_solvent(&self) -> (yes: bool)
        requires
            self.wf(),
        ensures
            yes == self@.solvent(),
    {
        let c: i128 = self.cost();
        c <= 0 || (c as u128) <= self.collateral_balance
    }

    /// Returns the marginal price of an outcome, as a mantissa at the scale
    /// of the collateral.
    pub fn price(&self, outcome_id: u32) -> (p: u128)
        requires
            self.wf(),
            (outcome_id as int) < self@.count(),
        ensures
            p == self@.price(outcome_id as int),
            p <= self@.unit(),
    {
        let q: Vec<i128> = self.quantities();
        let unit: u128 = unit_of(self.collateral_decimals);
        price(&q, self.liquidity, unit, outcome_id as usize)
    }

    /// Returns the value of a trade of `num_shares` shares of an outcome,
    /// before the fee: the cost of a purchase, or the proceeds of a sale.
    pub fn calc_price_without_fee(
        &self,
        outcome_id: u32,
        num_shares: u64,
        direction: OrderDirection,
    ) -> (value: u128)
        requires
            self.wf(),
            (outcome_id as int) < self@.count(),
            0 < num_shares,
            direction == OrderDirection::Buy ==> self@.outcome_shares[outcome_id as int]
                + num_shares <= i64::MAX,
            direction == OrderDirection::Sell ==> self@.outcome_shares[outcome_id as int]
                - num_shares >= i64::MIN,
        ensures
            value == match direction {
                OrderDirection::Buy => self@.buy_value(outcome_id as int, num_shares as int),
                OrderDirection::Sell => self@.sell_value(outcome_id as int, num_shares as int),
            },
            value <= num_shares * self@.unit(),
    {
        let q: Vec<i128> = self.quantities();
        let unit: u128 = unit_of(self.collateral_decimals);
        let o: usize = outcome_id as usize;
        let held: i64 = self.outcome_shares[o];
        assert(num_shares * unit <= 0xffff_ffff_ffff_ffff * MAX_UNIT) by (nonlinear_arith)
            requires
                num_shares <= 0xffff_ffff_ffff_ffff,
                unit <= MAX_UNIT,
        ;
        let k: u128 = (num_shares as u128) * unit;
        assert(0 < k) by (nonlinear_arith)
            requires
                k == num_shares * unit,
                0 < num_shares,
                1 <= unit,
        ;
        match direction {
            OrderDirection::Buy => {
                assert(held * unit + num_shares * unit <= MAX_QUANTITY) by (nonlinear_arith)
                    requires
                        held + num_shares < 0x8000_0000_0000_0000,
                        1 <= unit <= MAX_UNIT,
                ;
                buy_cost(&q, self.liquidity, o, k)
            },
            OrderDirection::Sell => {
                assert(held * unit - num_shares * unit >= -MAX_QUANTITY) by (nonlinear_arith)
                    requires
                        held - num_shares >= -0x8000_0000_0000_0000,
                        1 <= unit <= MAX_UNIT,
                ;
                sell_proceeds(&q, self.liquidity, o, k)
            },
        }
    }

    /// Returns what a buyer pays for `num_shares` shares of an outcome: the
    /// cost and the fee.
    pub fn calc_buy_price(&self, outcome_id: u32, num_shares: u64) -> (total: u128)
        requires
            self.wf(),
            (outcome_id as int) < self@.count(),
            0 < num_shares,
            self@.outcome_shares[outcome_id as int] + num_shares <= i64::MAX,
        ensures
            total == self@.buy_value(outcome_id as int, num_shares as int) + self@.fee(
                self@.buy_value(outcome_id as int, num_shares as int),
            ),
    {
        let value: u128 = self.calc_price_without_fee(outcome_id, num_shares, OrderDirection::Buy);
        proof {
            lemma_unit_in_range(self.collateral_decimals);
            assert(num_shares * self@.unit() <= 0xffff_ffff_ffff_ffff * MAX_UNIT)
                by (nonlinear_arith)
                requires
                    num_shares <= 0xffff_ffff_ffff_ffff,
                    0 <= self@.unit() <= MAX_UNIT,
            ;
        }
        value + fee(value, self.trade_fee_bps)
    }

    /// Returns what a seller receives for `num_shares` shares of an outcome:
    /// the proceeds less the fee.
    pub fn calc_sell_price(&self, outcome_id: u32, num_shares: u64) -> (net: u128)
        requires
            self.wf(),
            (outcome_id as int) < self@.count(),
            0 < num_shares,
            self@.outcome_shares[outcome_id as int] - num_shares >= i64::MIN,
        ensures
            net == self@.sell_value(outcome_id as int, num_shares as int) - self@.fee(
                self@.sell_value(outcome_id as int, num_shares as int),
            ),
    {
        let value: u128 = self.calc_price_without_fee(
            outcome_id,
            num_shares,
            OrderDirection::Sell,
        );
        value - fee(value, self.trade_fee_bps)
    }

    /// Returns the shares of an outcome that an account holds, or `None` if
    /// the account never traded in this market.
    pub fn outcome_balance(&self, account_id: &String, outcome_id: u32) -> (shares: Option<u128>)
        requires
            self.wf(),
        ensures
            shares == balance(self@.ledger, account_id@, self@.count(), outcome_id as int),
    {
        self.ledger.balance_of(account_id, outcome_id)
    }

    /// Returns the balances of an account for every outcome, in their order,
    /// or nothing if the account never traded in this market.
    pub fn user_balances(&self, account_id: &String) -> (balances: Vec<UserBalance>)
        requires
            self.wf(),
        ensures
            balances@ == market_balances(self@, account_id@),
    {
        let mut balances: Vec<UserBalance> = Vec::new();
        match self.ledger.balances_of(account_id) {
            Some(row) => {
                proof {
                    self.ledger.lemma_rows_complete();
                }
                let mut o: usize = 0;
                while o < row.len()
                    invariant
                        self.wf(),
                        o <= row.len(),
                        row.len() == self@.count(),
                        self@.ledger.contains_key(account_id@),
                        row@ == self@.ledger[account_id@],
                        balances@ == market_balances(self@, account_id@).take(o as int),
                    decreases row.len() - o,
                {
                    assert(self.outcomes[o as int].id == o);
                    balances.push(
                        UserBalance { market_id: self.id, outcome_id: o as u32, shares: row[o] },
                    );
                    assert(balances@ =~= market_balances(self@, account_id@).take(o + 1));
                    o = o + 1;
                }
                assert(balances@ =~= market_balances(self@, account_id@));
            },
            None => {
                assert(balances@ =~= market_balances(self@, account_id@));
            },
        }
        balances
    }

    /// Adds shares of an outcome to the balance of an account. The first
    /// credit to an account gives it a balance of zero for every other outcome.
    pub fn credit(&mut self, account_id: &String, outcome_id: u32, num_shares: u128) -> (result:
        Result<(), MarketError>)
        requires
            old(self).wf(),
            (outcome_id as int) < old(self)@.count(),
        ensures
            final(self).wf(),
            result == old(self)@.credit_result(account_id@, outcome_id as int, num_shares as int),
            final(self)@ == old(self)@.after_credit(
                account_id@,
                outcome_id as int,
                num_shares as int,
            ),
    {
        let result = self.ledger.credit(account_id, outcome_id, num_shares);
        proof {
            self.ledger.lemma_rows_complete();
        }
        result
    }

    /// Takes shares of an outcome from the balance of an account.
    pub fn debit(&mut self, account_id: &String, outcome_id: u32, num_shares: u128) -> (result:
        Result<(), MarketError>)
        requires
            old(self).wf(),
        ensures
            final(self).wf(),
            result == old(self)@.debit_result(account_id@, outcome_id as int, num_shares as int),
            final(self)@ == old(self)@.after_debit(
                account_id@,
                outcome_id as int,
                num_shares as int,
            ),
    {
        let result = self.ledger.debit(account_id, outcome_id, num_shares);
        proof {
            self.ledger.lemma_rows_complete();
        }
        result
    }

    /// Buys `num_shares` shares of an outcome for `sender_id`, who has paid
    /// `amount`. Returns the part of the amount to refund.
    ///
    /// The market must be open and the amount must cover the cost and the fee.
    pub fn internal_buy(
        &mut self,
        sender_id: &String,
        amount: u128,
        num_shares: u64,
        outcome_id: u32,
    ) -> (result: Result<u128, MarketError>)
        requires
            old(self).wf(),
            (outcome_id as int) < old(self)@.count(),
            0 < num_shares,
        ensures
            final(self).wf(),
            result == old(self)@.buy_result(
                sender_id@,
                amount as int,
                num_shares as int,
                outcome_id as int,
            ),
            final(self)@ == old(self)@.after_buy(
                sender_id@,
                amount as int,
                num_shares as int,
                outcome_id as int,
            ),
    {
        match self.stage {
            Stage::Open => {},
            _ => {
                return Err(MarketError::InvalidStageTransition);
            },
        }
        let o: usize = outcome_id as usize;
        let issued: i128 = (self.outcome_shares[o] as i128) + (num_shares as i128);
        if issued > i64::MAX as i128 {
            return Err(MarketError::ArithmeticOverflow);
        }
        let value: u128 = self.calc_price_without_fee(outcome_id, num_shares, OrderDirection::Buy);
        let charge: u128 = fee(value, self.trade_fee_bps);
        proof {
            lemma_unit_in_range(self.collateral_decimals);
            assert(num_shares * self@.unit() <= 0xffff_ffff_ffff_ffff * MAX_UNIT)
                by (nonlinear_arith)
                requires
                    num_shares <= 0xffff_ffff_ffff_ffff,
                    0 <= self@.unit() <= MAX_UNIT,
            ;
        }
        if amount < value + charge {
            return Err(MarketError::InsufficientPayment);
        }
        if value > u128::MAX - self.collateral_balance || charge > u128::MAX - self.fees_accrued {
            return Err(MarketError::ArithmeticOverflow);
        }
        match self.ledger.credit(sender_id, outcome_id, num_shares as u128) {
            Ok(()) => {},
            Err(error) => {
                return Err(error);
            },
        }
        self.outcome_shares[o] = issued as i64;
        self.collateral_balance = self.collateral_balance + value;
        self.fees_accrued = self.fees_accrued + charge;
        proof {
            old(self)@.lemma_buy_keeps_surplus(
                sender_id@,
                amount as int,
                num_shares as int,
                outcome_id as int,
            );
            self.ledger.lemma_rows_complete();
        }
        Ok(amount - value - charge)
    }

    /// Sells `num_shares` shares of an outcome for `seller_id`. Returns what
    /// the seller is to be paid: the proceeds less the fee.
    ///
    /// The market must be open and the seller must hold the shares.
    pub fn internal_sell(&mut self, seller_id: &String, num_shares: u64, outcome_id: u32) -> (result:
        Result<u128, MarketError>)
        requires
            old(self).wf(),
            (outcome_id as int) < old(self)@.count(),
            0 < num_shares,
        ensures
            final(self).wf(),
            result == old(self)@.sell_result(seller_id@, num_shares as int, outcome_id as int),
            final(self)@ == old(self)@.after_sell(
                seller_id@,
                num_shares as int,
                outcome_id as int,
            ),
    {
        match self.stage {
            Stage::Open => {},
            _ => {
                return Err(MarketError::InvalidStageTransition);
            },
        }
        let o: usize = outcome_id as usize;
        match self.ledger.balance_of(seller_id, outcome_id) {
            Some(held) => {
                if held < num_shares as u128 {
                    return Err(MarketError::InsufficientShares);
                }
            },
            None => {
                return Err(MarketError::InsufficientShares);
            },
        }
        let issued: i128 = (self.outcome_shares[o] as i128) - (num_shares as i128);
        if issued < i64::MIN as i128 {
            return Err(MarketError::ArithmeticOverflow);
        }
        let value: u128 = self.calc_price_without_fee(
            outcome_id,
            num_shares,
            OrderDirection::Sell,
        );
        let charge: u128 = fee(value, self.trade_fee_bps);
        if value > self.collateral_balance || charge > u128::MAX - self.fees_accrued {
            return Err(MarketError::ArithmeticOverflow);
        }
        match self.ledger.debit(seller_id, outcome_id, num_shares as u128) {
            Ok(()) => {},
            Err(error) => {
                return Err(error);
            },
        }
        self.outcome_shares[o] = issued as i64;
        self.collateral_balance = self.collateral_balance - value;
        self.fees_accrued = self.fees_accrued + charge;
        proof {
            old(self)@.lemma_sell_keeps_surplus(
                seller_id@,
                num_shares as int,
                outcome_id as int,
            );
            self.ledger.lemma_rows_complete();
        }
        Ok(value - charge)
    }
}

} // verus!
