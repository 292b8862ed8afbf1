//! What the rules of a market imply: the invariants that every operation
//! keeps.
//!
//! An [`Operation`] is an operation as data. The laws speak of the state that
//! one operation, or a sequence of them, leaves.

use crate::convexity::{
    convexity_slack, lemma_buy_cost_is_convex, lemma_buy_cost_is_strictly_monotone,
    lemma_sell_proceeds_are_concave, weight_at_cost, WEIGHT_TOLERANCE,
};
use crate::error::MarketError;
use crate::fixed::ONE;
use crate::ledger::{lemma_credited_complete, lemma_debited_complete};
use crate::lmsr::{
    cost_slack, lemma_buy_cost_monotone, lemma_cost_covers_quantities, lemma_cost_is_bounded,
    lemma_price_rises_with_quantity, lemma_prices_sum_to_one, lemma_sell_proceeds_monotone,
    lemma_top_upto, price_sum, top,
};
use crate::market::{
    full_scale, is_first_max, lemma_first_max_exists, lemma_first_max_is, lemma_total_zero,
    lemma_unit_in_range, total, total_upto, Finalization, MarketView, Stage,
};
use vstd::prelude::*;

verus! {

/// An operation on a market.
pub enum Operation {
    Open,
    Pause,
    Resolve { payouts: Seq<u128> },
    Deposit { amount: int },
    WithdrawFees,
    Credit { account: Seq<char>, outcome: int, shares: int },
    Debit { account: Seq<char>, outcome: int, shares: int },
    Buy { account: Seq<char>, amount: int, shares: int, outcome: int },
    Sell { account: Seq<char>, shares: int, outcome: int },
}

impl Operation {
    /// The operation is one that a market with `count` outcomes can be asked
    /// for: amounts are not negative, a credit or a trade names one of the
    /// outcomes, and a trade is of at least one share.
    pub open spec fn valid(self, count: nat) -> bool {
        match self {
            Operation::Deposit { amount } => 0 <= amount,
            Operation::Credit { outcome, shares, .. } => 0 <= outcome < count && 0 <= shares,
            Operation::Debit { shares, .. } => 0 <= shares,
            Operation::Buy { amount, shares, outcome, .. } => 0 <= outcome < count && 0 < shares
                && 0 <= amount,
            Operation::Sell { shares, outcome, .. } => 0 <= outcome < count && 0 < shares,
            _ => true,
        }
    }

    /// The operation is a purchase or a sale.
    pub open spec fn is_trade(self) -> bool {
        self is Buy || self is Sell
    }
}

impl MarketView {
    /// The state after an operation. An operation that fails leaves the state as it was.
    pub open spec fn after(self, operation: Operation) -> MarketView {
        match operation {
            Operation::Open => self.after_open(),
            Operation::Pause => self.after_pause(),
            Operation::Resolve { payouts } => self.after_resolve(payouts),
            Operation::Deposit { amount } => self.after_deposit(amount),
            Operation::WithdrawFees => self.after_withdraw_fees(),
            Operation::Credit { account, outcome, shares } => self.after_credit(
                account,
                outcome,
                shares,
            ),
            Operation::Debit { account, outcome, shares } => self.after_debit(
                account,
                outcome,
                shares,
            ),
            Operation::Buy { account, amount, shares, outcome } => self.after_buy(
                account,
                amount,
                shares,
                outcome,
            ),
            Operation::Sell { account, shares, outcome } => self.after_sell(
                account,
                shares,
                outcome,
            ),
        }
    }

    /// The state after the first `n` of the operations, made one after the other.
    pub open spec fn after_all(self, operations: Seq<Operation>, n: nat) -> MarketView
        decreases n,
    {
        if n == 0 {
            self
        } else {
            self.after_all(operations, (n - 1) as nat).after(operations[n - 1])
        }
    }

    /// The collateral that the market holds beyond the value of the cost function.
    pub open spec fn surplus(self) -> int {
        self.collateral_balance - self.cost()
    }

    /// The part of the state that is fixed when the market is created is the same in both states.
    pub open spec fn same_configuration(self, other: MarketView) -> bool {
        &&& self.id == other.id
        &&& self.title == other.title
        &&& self.description == other.description
        &&& self.operator == other.operator
        &&& self.oracle == other.oracle
        &&& self.fee_owner == other.fee_owner
        &&& self.outcomes == other.outcomes
        &&& self.collateral_token == other.collateral_token
        &&& self.collateral_decimals == other.collateral_decimals
        &&& self.trade_fee_bps == other.trade_fee_bps
        &&& self.resolution_time == other.resolution_time
        &&& self.end_time == other.end_time
        &&& self.liquidity == other.liquidity
    }

    /// Every operation keeps the invariant of the market.
    pub proof fn lemma_operation_keeps_invariant(self, operation: Operation)
        requires
            self.wf(),
            operation.valid(self.count()),
        ensures
            self.after(operation).wf(),
    {
        match operation {
            Operation::Resolve { payouts } => {
                if self.resolve_result(payouts) is Ok {
                    let i = lemma_first_max_exists(payouts, payouts.len());
                    lemma_first_max_is(payouts, i);
                    assert(self.outcomes[i].id == i);
                }
            },
            Operation::Credit { account, outcome, shares } => {
                lemma_credited_complete(self.ledger, account, self.count(), outcome, shares);
            },
            Operation::Debit { account, outcome, shares } => {
                if self.debit_result(account, outcome, shares) is Ok {
                    lemma_debited_complete(self.ledger, account, self.count(), outcome, shares);
                }
            },
            Operation::Buy { account, amount, shares, outcome } => {
                self.lemma_buy_keeps_surplus(account, amount, shares, outcome);
            },
            Operation::Sell { account, shares, outcome } => {
                self.lemma_sell_keeps_surplus(account, shares, outcome);
            },
            _ => {},
        }
    }

    /// No operation changes what was fixed when the market was created.
    pub proof fn lemma_configuration_is_immutable(self, operation: Operation)
        ensures
            self.same_configuration(self.after(operation)),
    {
    }

    /// The stages follow one another in one direction: no operation brings a
    /// market back to the proposed stage, and a finalized market keeps its
    /// stage, its payouts, its issued shares and its collateral whatever is
    /// asked of it.
    pub proof fn lemma_stages_are_irreversible(self, operation: Operation)
        ensures
            self.stage != Stage::Proposed ==> self.after(operation).stage != Stage::Proposed,
            self.stage is Finalized ==> self.after(operation).stage == self.stage && self.after(
                operation,
            ).payouts == self.payouts && self.after(operation).outcome_shares
                == self.outcome_shares && self.after(operation).collateral_balance
                == self.collateral_balance,
    {
    }

    /// Trading needs an open market: in any other stage a purchase or a
    /// sale fails and changes nothing.
    pub proof fn lemma_trading_needs_an_open_market(self, operation: Operation)
        requires
            operation.is_trade(),
            self.stage != Stage::Open,
        ensures
            self.after(operation) == self,
    {
    }

    /// Resolution has three ways to end. Payouts that sum to the full scale
    /// finalize the market with the first largest payout as the winner and
    /// are kept; payouts that are all zero finalize it as invalid, without
    /// payouts; all others are refused and leave the market as it was.
    pub proof fn lemma_resolution(self, payouts: Seq<u128>)
        requires
            self.wf(),
            self.stage == Stage::Open || self.stage == Stage::Paused,
            payouts.len() == self.count(),
        ensures
            total(payouts) == full_scale(self.collateral_decimals) ==> self.resolve_result(payouts)
                is Ok && self.after_resolve(payouts).payouts == Some(payouts) && exists|i: int|
                is_first_max(payouts, payouts.len() as int, i) && self.after_resolve(
                    payouts,
                ).stage == Stage::Finalized(Finalization::Resolved { outcome_id: i as u32 }),
            (forall|j: int| 0 <= j < payouts.len() ==> payouts[j] == 0) ==> self.resolve_result(
                payouts,
            ) is Ok && self.after_resolve(payouts).payouts is None && self.after_resolve(
                payouts,
            ).stage == Stage::Finalized(Finalization::Invalid),
            total(payouts) != full_scale(self.collateral_decimals) && total(payouts) != 0
                ==> self.resolve_result(payouts) == Err::<(), MarketError>(
                MarketError::InvalidPayoutVector,
            ) && self.after_resolve(payouts) == self,
    {
        lemma_total_zero(payouts, payouts.len());
        lemma_unit_in_range(self.collateral_decimals);
        let i = lemma_first_max_exists(payouts, payouts.len());
        lemma_first_max_is(payouts, i);
    }

    /// No operation lowers the surplus of collateral over the cost function.
    /// A purchase or a sale leaves it exactly as it was.
    pub proof fn lemma_operation_keeps_surplus(self, operation: Operation)
        requires
            self.wf(),
            operation.valid(self.count()),
        ensures
            self.surplus() <= self.after(operation).surplus(),
            operation.is_trade() ==> self.after(operation).surplus() == self.surplus(),
    {
        match operation {
            Operation::Buy { account, amount, shares, outcome } => {
                self.lemma_buy_keeps_surplus(account, amount, shares, outcome);
            },
            Operation::Sell { account, shares, outcome } => {
                self.lemma_sell_keeps_surplus(account, shares, outcome);
            },
            _ => {},
        }
    }

    /// The solvency invariant. After any sequence of operations, whether
    /// they succeed or fail, the market satisfies its invariant and its
    /// surplus is no lower than at the start, so a market that was solvent is
    /// solvent after each of them.
    pub proof fn lemma_operations_keep_solvency(self, operations: Seq<Operation>, n: nat)
        requires
            self.wf(),
            n <= operations.len(),
            forall|i: int|
                0 <= i < operations.len() ==> (#[trigger] operations[i]).valid(self.count()),
        ensures
            self.after_all(operations, n).wf(),
            self.after_all(operations, n).same_configuration(self),
            self.surplus() <= self.after_all(operations, n).surplus(),
            self.solvent() ==> self.after_all(operations, n).solvent(),
        decreases n,
    {
        if n > 0 {
            self.lemma_operations_keep_solvency(operations, (n - 1) as nat);
            let before = self.after_all(operations, (n - 1) as nat);
            assert(operations[n - 1].valid(self.count()));
            before.lemma_operation_keeps_invariant(operations[n - 1]);
            before.lemma_configuration_is_immutable(operations[n - 1]);
            before.lemma_operation_keeps_surplus(operations[n - 1]);
        }
    }

    /// After any sequence of purchases and sales the surplus of collateral
    /// over the cost function is what it was before them.
    pub proof fn lemma_trades_keep_surplus(self, trades: Seq<Operation>, n: nat)
        requires
            self.wf(),
            n <= trades.len(),
            forall|i: int|
                0 <= i < trades.len() ==> (#[trigger] trades[i]).valid(self.count())
                    && trades[i].is_trade(),
        ensures
            self.after_all(trades, n).surplus() == self.surplus(),
        decreases n,
    {
        if n > 0 {
            self.lemma_trades_keep_surplus(trades, (n - 1) as nat);
            self.lemma_operations_keep_solvency(trades, (n - 1) as nat);
            assert(trades[n - 1].valid(self.count()) && trades[n - 1].is_trade());
            self.after_all(trades, (n - 1) as nat).lemma_operation_keeps_surplus(trades[n - 1]);
        }
    }

    /// How much collateral makes a market solvent: the face value of the
    /// shares issued of the outcome that has most, one liquidity parameter
    /// for each outcome but one, and the slack of the cost function. A market
    /// without shares is solvent from one liquidity parameter for each
    /// outcome but one, and the slack, on.
    pub proof fn lemma_seeded_market_is_solvent(self, most: int)
        requires
            self.wf(),
            forall|j: int| 0 <= j < self.count() ==> self.outcome_shares[j] * self.unit() <= most,
            self.collateral_balance >= most + (self.count() - 1) * self.liquidity + cost_slack(
                self.liquidity as int,
            ),
        ensures
            self.solvent(),
    {
        let q = self.quantities();
        lemma_cost_is_bounded(q, self.liquidity as int);
        lemma_top_upto(q, q.len());
        let j = choose|j: int| 0 <= j < q.len() && q[j] == top(q);
        assert(self.outcome_shares[j] * self.unit() <= most);
    }

    /// What solvency is for: a solvent market holds at least the face value
    /// of the shares issued of each outcome, so it can pay one unit of
    /// collateral for every share of the outcome that wins.
    pub proof fn lemma_solvent_market_covers_every_outcome(self, outcome: int)
        requires
            self.wf(),
            self.solvent(),
            0 <= outcome < self.count(),
        ensures
            self.outcome_shares[outcome] * self.unit() <= self.collateral_balance,
    {
        lemma_cost_covers_quantities(self.quantities(), self.liquidity as int, outcome);
    }

    /// What the shares of the first `n` outcomes are owed under the given
    /// payouts, times the full scale: for each outcome the face value of its
    /// shares times its payout.
    pub open spec fn owed_upto(self, payouts: Seq<u128>, n: nat) -> int
        decreases n,
    {
        if n == 0 {
            0
        } else {
            self.owed_upto(payouts, (n - 1) as nat) + self.outcome_shares[n - 1] * self.unit()
                * payouts[n - 1]
        }
    }

    /// What is owed on the first `n` outcomes is at most what the payouts
    /// of those sum to, times a bound of the face values.
    proof fn lemma_owed_is_bounded(self, payouts: Seq<u128>, most: int, n: nat)
        requires
            n <= self.outcome_shares.len(),
            forall|j: int| 0 <= j < n ==> self.outcome_shares[j] * self.unit() <= most,
        ensures
            self.owed_upto(payouts, n) <= most * total_upto(payouts, n),
        decreases n,
    {
        if n > 0 {
            self.lemma_owed_is_bounded(payouts, most, (n - 1) as nat);
            let face = self.outcome_shares[n - 1] * self.unit();
            let payout = payouts[n - 1] as int;
            assert(face * payout <= most * payout) by (nonlinear_arith)
                requires
                    face <= most,
                    0 <= payout,
            ;
            assert(most * (total_upto(payouts, (n - 1) as nat) + payout) == most * total_upto(
                payouts,
                (n - 1) as nat,
            ) + most * payout) by (nonlinear_arith);
        } else {
            assert(most * 0 == 0) by (nonlinear_arith);
        }
    }

    /// A solvent market covers its resolution: whatever payouts that sum to
    /// the full scale resolve it, the collateral is at least what the
    /// holders of all shares are owed in proportion to the payouts.
    pub proof fn lemma_solvent_market_covers_its_payouts(self, payouts: Seq<u128>)
        requires
            self.wf(),
            self.solvent(),
            payouts.len() == self.count(),
            total(payouts) == full_scale(self.collateral_decimals),
        ensures
            self.owed_upto(payouts, self.count()) <= self.collateral_balance * full_scale(
                self.collateral_decimals,
            ),
    {
        let q = self.quantities();
        let most = top(q);
        lemma_top_upto(q, q.len());
        lemma_cost_is_bounded(q, self.liquidity as int);
        assert forall|j: int| 0 <= j < self.count() implies self.outcome_shares[j] * self.unit()
            <= most by {
            assert(q[j] <= most);
        }
        self.lemma_owed_is_bounded(payouts, most, self.count());
        let scale = full_scale(self.collateral_decimals) as int;
        assert(most * scale <= self.collateral_balance * scale) by (nonlinear_arith)
            requires
                most <= self.collateral_balance,
                0 <= scale,
        ;
    }

    /// The marginal prices of the outcomes of a market sum to one whole unit
    /// of collateral, short of it by less than one unit of the scale per outcome.
    pub proof fn lemma_prices_sum_to_one(self)
        requires
            self.wf(),
        ensures
            self.unit() - self.count() < price_sum(
                self.quantities(),
                self.liquidity as int,
                self.unit(),
                self.count(),
            ) <= self.unit(),
    {
        lemma_unit_in_range(self.collateral_decimals);
        lemma_prices_sum_to_one(self.quantities(), self.liquidity as int, self.unit());
    }

    /// A purchase does not lower the marginal price of the outcome bought.
    pub proof fn lemma_buying_raises_the_price(
        self,
        buyer: Seq<char>,
        amount: int,
        k: int,
        outcome: int,
    )
        requires
            self.wf(),
            0 <= outcome < self.count(),
            0 < k,
        ensures
            self.price(outcome) <= self.after_buy(buyer, amount, k, outcome).price(outcome),
    {
        if self.buy_result(buyer, amount, k, outcome) is Ok {
            lemma_unit_in_range(self.collateral_decimals);
            self.lemma_quantities_updated(outcome, k);
            assert(0 <= k * self.unit()) by (nonlinear_arith)
                requires
                    0 < k,
                    0 <= self.unit(),
            ;
            lemma_price_rises_with_quantity(
                self.quantities(),
                self.liquidity as int,
                self.unit(),
                outcome,
                k * self.unit(),
            );
        }
    }

    /// How far a quote of this market can lie from what convexity asks for.
    pub open spec fn slack(self) -> int {
        convexity_slack(self.count(), self.liquidity as int)
    }

    /// More shares cost no less, and bring no less when sold.
    pub proof fn lemma_larger_trades_have_larger_values(self, outcome: int, k1: int, k2: int)
        requires
            self.wf(),
            0 <= outcome < self.count(),
            k1 <= k2,
        ensures
            self.buy_value(outcome, k1) <= self.buy_value(outcome, k2),
            self.sell_value(outcome, k1) <= self.sell_value(outcome, k2),
    {
        lemma_unit_in_range(self.collateral_decimals);
        assert(k1 * self.unit() <= k2 * self.unit()) by (nonlinear_arith)
            requires
                k1 <= k2,
                0 <= self.unit(),
        ;
        lemma_buy_cost_monotone(
            self.quantities(),
            self.liquidity as int,
            outcome,
            k1 * self.unit(),
            k2 * self.unit(),
        );
        lemma_sell_proceeds_monotone(
            self.quantities(),
            self.liquidity as int,
            outcome,
            k1 * self.unit(),
            k2 * self.unit(),
        );
    }

    /// More shares cost strictly more wherever the price is not negligible:
    /// where the weight that the outcome has after the smaller purchase,
    /// times the face value of the shares that the larger one adds, is one
    /// unit of the scale and the tolerance.
    pub proof fn lemma_more_shares_cost_more(self, outcome: int, k1: int, k2: int)
        requires
            self.wf(),
            0 <= outcome < self.count(),
            0 <= k1 < k2,
            ONE + self.count() * WEIGHT_TOLERANCE * self.liquidity <= weight_at_cost(
                self.quantities().update(outcome, self.quantities()[outcome] + k1 * self.unit()),
                self.liquidity as int,
                outcome,
            ) * ((k2 - k1) * self.unit()),
        ensures
            self.buy_value(outcome, k1) < self.buy_value(outcome, k2),
    {
        lemma_unit_in_range(self.collateral_decimals);
        let unit = self.unit();
        assert(0 <= k1 * unit < k2 * unit && k2 * unit - k1 * unit == (k2 - k1) * unit)
            by (nonlinear_arith)
            requires
                0 <= k1 < k2,
                0 < unit,
        ;
        lemma_buy_cost_is_strictly_monotone(
            self.quantities(),
            self.liquidity as int,
            outcome,
            k1 * unit,
            k2 * unit,
        );
    }

    /// The average price of buying does not fall with the size of the
    /// purchase, but for the slack: `k1` shares cost no more each than `k2`
    /// shares do, and the slack for each of the `k1`.
    pub proof fn lemma_average_buy_price_rises(self, outcome: int, k1: int, k2: int)
        requires
            self.wf(),
            0 <= outcome < self.count(),
            0 <= k1 <= k2,
        ensures
            k2 * self.buy_value(outcome, k1) <= k1 * self.buy_value(outcome, k2) + k2
                * self.slack(),
    {
        lemma_unit_in_range(self.collateral_decimals);
        let unit = self.unit();
        let v1 = self.buy_value(outcome, k1);
        let v2 = self.buy_value(outcome, k2);
        let slack = self.slack();
        assert(0 <= k1 * unit <= k2 * unit) by (nonlinear_arith)
            requires
                0 <= k1 <= k2,
                0 < unit,
        ;
        lemma_buy_cost_is_convex(
            self.quantities(),
            self.liquidity as int,
            outcome,
            k1 * unit,
            k2 * unit,
        );
        assert(k2 * v1 <= k1 * v2 + k2 * slack) by (nonlinear_arith)
            requires
                (k2 * unit) * v1 <= (k1 * unit) * v2 + (k2 * unit) * slack,
                0 < unit,
        {
            assert(unit * (k2 * v1) <= unit * (k1 * v2 + k2 * slack));
        }
    }

    /// The average price of selling does not rise with the size of the
    /// sale, but for the slack: `k2` shares bring no more each than `k1`
    /// shares do, and the slack for each of the `k1`.
    pub proof fn lemma_average_sell_price_falls(self, outcome: int, k1: int, k2: int)
        requires
            self.wf(),
            0 <= outcome < self.count(),
            0 <= k1 <= k2,
        ensures
            k1 * self.sell_value(outcome, k2) <= k2 * self.sell_value(outcome, k1) + k2
                * self.slack(),
    {
        lemma_unit_in_range(self.collateral_decimals);
        let unit = self.unit();
        let v1 = self.sell_value(outcome, k1);
        let v2 = self.sell_value(outcome, k2);
        let slack = self.slack();
        assert(0 <= k1 * unit <= k2 * unit) by (nonlinear_arith)
            requires
                0 <= k1 <= k2,
                0 < unit,
        ;
        lemma_sell_proceeds_are_concave(
            self.quantities(),
            self.liquidity as int,
            outcome,
            k1 * unit,
            k2 * unit,
        );
        assert(k1 * v2 <= k2 * v1 + k2 * slack) by (nonlinear_arith)
            requires
                (k1 * unit) * v2 <= (k2 * unit) * v1 + (k2 * unit) * slack,
                0 < unit,
        {
            assert(unit * (k1 * v2) <= unit * (k2 * v1 + k2 * slack));
        }
    }
}

} // verus!
