//! A market: its configuration, its balances, its stage, and the rules by
//! which each operation moves it from one state to the next.
//!
//! The rules are spec functions on [`MarketView`], the mathematical value of a
//! market. Each operation has a function that gives its result and one that
//! gives the state it leaves, which is the old state if the result is an
//! error. The executable operations are in the modules `lifecycle` and
//! `trading`, what the rules imply in the module `laws`.

use crate::error::MarketError;
use crate::fixed::{lemma_pow10_monotone, lemma_pow10_scale, pow10};
use crate::ledger::{can_debit, credit_overflows, credited, debited, rows_complete, Ledger};
use crate::ledger::{lemma_credited_complete, lemma_debited_complete};
use crate::lmsr::{
    lemma_buy_cost_bounds, lemma_sell_proceeds_bounds, lemma_trade_fee_rounds_up, lmsr_buy_cost,
    lmsr_cost, lmsr_price, lmsr_sell_proceeds, trade_fee, MAX_LIQUIDITY, MAX_UNIT,
};
use vstd::prelude::*;

verus! {

/// The largest number of decimals of a collateral token.
pub const MAX_DECIMALS: u32 = 18;

/// The highest trade fee, in basis points: the whole value of the trade.
pub const MAX_FEE_BPS: u32 = 10_000;

/// The liquidity parameter of a market created without one, in shares.
pub const DEFAULT_LIQUIDITY: u128 = 50;

/// One of the mutually exclusive results that a market trades on.
#[derive(Clone, Debug)]
pub struct Outcome {
    /// The position of the outcome among the outcomes of its market.
    pub id: u32,
    pub short_name: String,
    pub long_name: String,
}

/// How a market ended.
#[derive(Clone, Copy, Debug, PartialEq, Eq, Structural)]
pub enum Finalization {
    /// The market was resolved, and this outcome has the largest payout.
    Resolved { outcome_id: u32 },
    /// The market had no valid resolution.
    Invalid,
}

/// The phase of a market's life.
#[derive(Clone, Copy, Debug, PartialEq, Eq, Structural)]
pub enum Stage {
    /// Created: collateral can be deposited, shares cannot be traded yet.
    Proposed,
    /// Shares can be traded.
    Open,
    /// Trading is suspended until the operator opens the market again.
    Paused,
    /// The market has ended. No stage follows this one.
    Finalized(Finalization),
}

/// The side of a trade.
#[derive(Clone, Copy, Debug, PartialEq, Eq, Structural)]
pub enum OrderDirection {
    Buy,
    Sell,
}

/// The configuration of a new market.
#[derive(Clone, Debug)]
pub struct CreateMarketArgs {
    pub title: String,
    pub description: String,
    /// The token in which the market is settled.
    pub collateral_token: String,
    /// The number of decimals of the collateral token. All amounts of
    /// collateral, the liquidity parameter and the payouts are mantissas at the
    /// scale `10^collateral_decimals`.
    pub collateral_decimals: u32,
    /// The fee on each trade, in basis points of its value.
    pub trade_fee_bps: u32,
    pub resolution_time: u64,
    pub end_time: u64,
    /// Who receives the fees. The operator, if `None`.
    pub fee_owner: Option<String>,
    /// Who resolves the market. The operator, if `None`.
    pub oracle: Option<String>,
    /// Who opens and pauses the market. The creator, if `None`.
    pub operator: Option<String>,
    pub outcomes: Vec<Outcome>,
    /// The liquidity parameter of the scoring rule, as a mantissa at the scale
    /// of the collateral. [`DEFAULT_LIQUIDITY`] shares, if `None`.
    pub liquidity: Option<u128>,
}

/// A request to move collateral out of the market. The market has committed
/// its own state when it hands out the request; carrying it out is up to the
/// caller.
#[derive(Clone, Debug)]
pub struct Transfer {
    pub receiver: String,
    pub token: String,
    pub amount: u128,
}

/// The shares of one outcome of one market that an account holds.
#[derive(Clone, Copy, Debug, PartialEq, Eq, Structural)]
pub struct UserBalance {
    pub market_id: u64,
    pub outcome_id: u32,
    pub shares: u128,
}

/// A prediction market.
#[derive(Clone, Debug)]
pub struct Market {
    pub id: u64,
    pub title: String,
    pub description: String,
    pub operator: String,
    pub oracle: String,
    pub fee_owner: String,
    pub outcomes: Vec<Outcome>,
    pub collateral_token: String,
    pub collateral_decimals: u32,
    pub trade_fee_bps: u32,
    pub resolution_time: u64,
    pub end_time: u64,
    /// The liquidity parameter, as a mantissa at the scale of the collateral.
    pub liquidity: u128,
    /// The net number of shares of each outcome that the market maker has issued.
    pub outcome_shares: Vec<i64>,
    /// The collateral that backs the issued shares.
    pub collateral_balance: u128,
    /// The fees collected and not yet withdrawn. They are no part of the
    /// collateral balance.
    pub fees_accrued: u128,
    pub stage: Stage,
    /// The payout of each outcome, once the market is resolved.
    pub payouts: Option<Vec<u128>>,
    pub ledger: Ledger,
}

/// The mathematical value of a market.
pub struct MarketView {
    pub id: u64,
    pub title: Seq<char>,
    pub description: Seq<char>,
    pub operator: Seq<char>,
    pub oracle: Seq<char>,
    pub fee_owner: Seq<char>,
    pub outcomes: Seq<Outcome>,
    pub collateral_token: Seq<char>,
    pub collateral_decimals: u32,
    pub trade_fee_bps: u32,
    pub resolution_time: u64,
    pub end_time: u64,
    pub liquidity: u128,
    pub outcome_shares: Seq<i64>,
    pub collateral_balance: u128,
    pub fees_accrued: u128,
    pub stage: Stage,
    pub payouts: Option<Seq<u128>>,
    pub ledger: Map<Seq<char>, Seq<u128>>,
}

/// The balances of an account in one market: one entry for each outcome, in
/// their order, if the account has traded in the market, and none if not.
pub open spec fn market_balances(market: MarketView, account: Seq<char>) -> Seq<UserBalance> {
    if market.ledger.contains_key(account) {
        Seq::new(
            market.count(),
            |o: int|
                UserBalance {
                    market_id: market.id,
                    outcome_id: o as u32,
                    shares: market.ledger[account][o],
                },
        )
    } else {
        Seq::empty()
    }
}

/// The value that stands for 100% in a payout vector: one whole unit of the
/// collateral at its number of decimals.
pub open spec fn full_scale(decimals: u32) -> nat {
    pow10(decimals as nat)
}

/// The sum of the first `n` payouts.
pub open spec fn total_upto(payouts: Seq<u128>, n: nat) -> int
    decreases n,
{
    if n == 0 {
        0
    } else {
        total_upto(payouts, (n - 1) as nat) + payouts[n - 1]
    }
}

/// The sum of the payouts.
pub open spec fn total(payouts: Seq<u128>) -> int {
    total_upto(payouts, payouts.len())
}

/// `i` is the lowest index among the first `n` payouts at which they are largest.
pub open spec fn is_first_max(payouts: Seq<u128>, n: int, i: int) -> bool {
    &&& 0 <= i < n
    &&& forall|j: int| 0 <= j < n ==> payouts[j] <= payouts[i]
    &&& forall|j: int| 0 <= j < i ==> payouts[j] < payouts[i]
}

/// The lowest index at which the payouts are largest.
pub open spec fn first_max(payouts: Seq<u128>) -> int {
    choose|i: int| is_first_max(payouts, payouts.len() as int, i)
}

/// The configuration is acceptable: at least two outcomes, numbered from
/// zero in their order, a fee of at most 100%, a collateral scale and a
/// liquidity parameter within the range of the pricing engine.
pub open spec fn config_ok(args: CreateMarketArgs) -> bool {
    &&& args.outcomes.len() >= 2
    &&& forall|i: int| 0 <= i < args.outcomes.len() ==> (#[trigger] args.outcomes[i]).id == i
    &&& args.trade_fee_bps <= MAX_FEE_BPS
    &&& args.collateral_decimals <= MAX_DECIMALS
    &&& 0 < config_liquidity(args) <= MAX_LIQUIDITY
}

/// The liquidity parameter of the configuration.
pub open spec fn config_liquidity(args: CreateMarketArgs) -> int {
    match args.liquidity {
        Some(b) => b as int,
        None => DEFAULT_LIQUIDITY * pow10(args.collateral_decimals as nat),
    }
}

/// The operator of the configuration.
pub open spec fn config_operator(creator: Seq<char>, args: CreateMarketArgs) -> Seq<char> {
    match args.operator {
        Some(account) => account@,
        None => creator,
    }
}

/// The state of a market made from an acceptable configuration: proposed,
/// with no shares issued, no collateral, no fees and an empty ledger.
pub open spec fn created(id: u64, creator: Seq<char>, args: CreateMarketArgs) -> MarketView {
    MarketView {
        id,
        title: args.title@,
        description: args.description@,
        operator: config_operator(creator, args),
        oracle: match args.oracle {
            Some(account) => account@,
            None => config_operator(creator, args),
        },
        fee_owner: match args.fee_owner {
            Some(account) => account@,
            None => config_operator(creator, args),
        },
        outcomes: args.outcomes@,
        collateral_token: args.collateral_token@,
        collateral_decimals: args.collateral_decimals,
        trade_fee_bps: args.trade_fee_bps,
        resolution_time: args.resolution_time,
        end_time: args.end_time,
        liquidity: config_liquidity(args) as u128,
        outcome_shares: Seq::new(args.outcomes.len() as nat, |j: int| 0i64),
        collateral_balance: 0,
        fees_accrued: 0,
        stage: Stage::Proposed,
        payouts: None,
        ledger: Map::empty(),
    }
}

impl MarketView {
    /// The number of outcomes.
    pub open spec fn count(self) -> nat {
        self.outcomes.len()
    }

    /// The mantissa of one whole unit of collateral, and of one share.
    pub open spec fn unit(self) -> int {
        pow10(self.collateral_decimals as nat) as int
    }

    /// The issued shares as quantities of the pricing engine.
    pub open spec fn quantities(self) -> Seq<int> {
        Seq::new(self.outcome_shares.len(), |j: int| self.outcome_shares[j] * self.unit())
    }

    /// The value of the cost function at the issued shares: what the market
    /// maker can come to owe.
    pub open spec fn cost(self) -> int {
        lmsr_cost(self.quantities(), self.liquidity as int)
    }

    /// The collateral covers the cost function.
    pub open spec fn solvent(self) -> bool {
        self.collateral_balance >= self.cost()
    }

    /// The invariant of a market.
    pub open spec fn wf(self) -> bool {
        &&& 2 <= self.count()
        &&& forall|i: int| 0 <= i < self.count() ==> (#[trigger] self.outcomes[i]).id == i
        &&& self.outcome_shares.len() == self.count()
        &&& self.trade_fee_bps <= MAX_FEE_BPS
        &&& self.collateral_decimals <= MAX_DECIMALS
        &&& 0 < self.liquidity <= MAX_LIQUIDITY
        &&& rows_complete(self.ledger, self.count())
        &&& match self.stage {
            Stage::Finalized(Finalization::Resolved { outcome_id }) => outcome_id < self.count()
                && self.payouts is Some && self.payouts->0.len() == self.count(),
            _ => self.payouts is None,
        }
    }

    /// The marginal price of an outcome, as a mantissa at the scale of the collateral.
    pub open spec fn price(self, outcome: int) -> int {
        lmsr_price(self.quantities(), self.liquidity as int, self.unit(), outcome)
    }

    /// What `k` more shares of `outcome` cost, before the fee.
    pub open spec fn buy_value(self, outcome: int, k: int) -> int {
        lmsr_buy_cost(self.quantities(), self.liquidity as int, outcome, k * self.unit())
    }

    /// What the market pays for `k` shares of `outcome`, before the fee.
    pub open spec fn sell_value(self, outcome: int, k: int) -> int {
        lmsr_sell_proceeds(self.quantities(), self.liquidity as int, outcome, k * self.unit())
    }

    /// The fee on a trade of the given value.
    pub open spec fn fee(self, value: int) -> int {
        trade_fee(value, self.trade_fee_bps as int)
    }

    /// The result of opening the market.
    pub open spec fn open_result(self) -> Result<(), MarketError> {
        if self.stage == Stage::Proposed || self.stage == Stage::Paused {
            Ok(())
        } else {
            Err(MarketError::InvalidStageTransition)
        }
    }

    /// The state after opening the market.
    pub open spec fn after_open(self) -> MarketView {
        if self.open_result() is Ok {
            MarketView { stage: Stage::Open, ..self }
        } else {
            self
        }
    }

    /// The result of an operation that only the operator may ask for.
    pub open spec fn by_operator(self, caller: Seq<char>, result: Result<(), MarketError>)
        -> Result<(), MarketError> {
        if caller == self.operator {
            result
        } else {
            Err(MarketError::Unauthorized)
        }
    }

    /// The result of an operation that only the oracle may ask for.
    pub open spec fn by_oracle(self, caller: Seq<char>, result: Result<(), MarketError>) -> Result<
        (),
        MarketError,
    > {
        if caller == self.oracle {
            result
        } else {
            Err(MarketError::Unauthorized)
        }
    }

    /// The result of pausing the market.
    pub open spec fn pause_result(self) -> Result<(), MarketError> {
        if self.stage == Stage::Open {
            Ok(())
        } else {
            Err(MarketError::InvalidStageTransition)
        }
    }

    /// The state after pausing the market.
    pub open spec fn after_pause(self) -> MarketView {
        if self.pause_result() is Ok {
            MarketView { stage: Stage::Paused, ..self }
        } else {
            self
        }
    }

    /// The result of resolving the market with the given payouts.
    pub open spec fn resolve_result(self, payouts: Seq<u128>) -> Result<(), MarketError> {
        if self.stage != Stage::Open && self.stage != Stage::Paused {
            Err(MarketError::InvalidStageTransition)
        } else if payouts.len() != self.count() {
            Err(MarketError::InvalidPayoutVector)
        } else if total(payouts) == full_scale(self.collateral_decimals) || total(payouts) == 0 {
            Ok(())
        } else {
            Err(MarketError::InvalidPayoutVector)
        }
    }

    /// The state after resolving the market with the given payouts. Payouts
    /// that sum to the full scale make the outcome with the largest payout the
    /// winner, the first of them if there are several, and are kept. Payouts
    /// that sum to zero make the market invalid.
    pub open spec fn after_resolve(self, payouts: Seq<u128>) -> MarketView {
        if self.resolve_result(payouts) is Err {
            self
        } else if total(payouts) == full_scale(self.collateral_decimals) {
            MarketView {
                stage: Stage::Finalized(
                    Finalization::Resolved { outcome_id: first_max(payouts) as u32 },
                ),
                payouts: Some(payouts),
                ..self
            }
        } else {
            MarketView { stage: Stage::Finalized(Finalization::Invalid), payouts: None, ..self }
        }
    }

    /// The result of depositing collateral.
    pub open spec fn deposit_result(self, amount: int) -> Result<(), MarketError> {
        if self.stage is Finalized {
            Err(MarketError::InvalidStageTransition)
        } else if self.collateral_balance + amount > u128::MAX {
            Err(MarketError::ArithmeticOverflow)
        } else {
            Ok(())
        }
    }

    /// The state after depositing collateral.
    pub open spec fn after_deposit(self, amount: int) -> MarketView {
        if self.deposit_result(amount) is Ok {
            MarketView { collateral_balance: (self.collateral_balance + amount) as u128, ..self }
        } else {
            self
        }
    }

    /// The state after the fees were withdrawn.
    pub open spec fn after_withdraw_fees(self) -> MarketView {
        MarketView { fees_accrued: 0, ..self }
    }

    /// The result of crediting shares to an account.
    pub open spec fn credit_result(self, account: Seq<char>, outcome: int, k: int) -> Result<
        (),
        MarketError,
    > {
        if credit_overflows(self.ledger, account, self.count(), outcome, k) {
            Err(MarketError::ArithmeticOverflow)
        } else {
            Ok(())
        }
    }

    /// The state after crediting shares to an account.
    pub open spec fn after_credit(self, account: Seq<char>, outcome: int, k: int) -> MarketView {
        if self.credit_result(account, outcome, k) is Ok {
            MarketView { ledger: credited(self.ledger, account, self.count(), outcome, k), ..self }
        } else {
            self
        }
    }

    /// The result of debiting shares from an account.
    pub open spec fn debit_result(self, account: Seq<char>, outcome: int, k: int) -> Result<
        (),
        MarketError,
    > {
        if can_debit(self.ledger, account, self.count(), outcome, k) {
            Ok(())
        } else {
            Err(MarketError::InsufficientShares)
        }
    }

    /// The state after debiting shares from an account.
    pub open spec fn after_debit(self, account: Seq<char>, outcome: int, k: int) -> MarketView {
        if self.debit_result(account, outcome, k) is Ok {
            MarketView { ledger: debited(self.ledger, account, outcome, k), ..self }
        } else {
            self
        }
    }

    /// The result of buying `k` shares of `outcome` for at most `amount`: the
    /// part of the amount that the purchase did not need.
    ///
    /// The market must be open, the payment must cover the cost and the fee,
    /// and the new balances must fit their integers.
    pub open spec fn buy_result(self, buyer: Seq<char>, amount: int, k: int, outcome: int) -> Result<
        u128,
        MarketError,
    > {
        let value = self.buy_value(outcome, k);
        let fee = self.fee(value);
        if self.stage != Stage::Open {
            Err(MarketError::InvalidStageTransition)
        } else if self.outcome_shares[outcome] + k > i64::MAX {
            Err(MarketError::ArithmeticOverflow)
        } else if amount < value + fee {
            Err(MarketError::InsufficientPayment)
        } else if self.collateral_balance + value > u128::MAX || self.fees_accrued + fee
            > u128::MAX || credit_overflows(self.ledger, buyer, self.count(), outcome, k) {
            Err(MarketError::ArithmeticOverflow)
        } else {
            Ok((amount - value - fee) as u128)
        }
    }

    /// The state after buying: the shares are issued and credited to the
    /// buyer, the cost joins the collateral and the fee the accrued fees.
    pub open spec fn after_buy(self, buyer: Seq<char>, amount: int, k: int, outcome: int)
        -> MarketView {
        let value = self.buy_value(outcome, k);
        if self.buy_result(buyer, amount, k, outcome) is Ok {
            MarketView {
                outcome_shares: self.outcome_shares.update(
                    outcome,
                    (self.outcome_shares[outcome] + k) as i64,
                ),
                collateral_balance: (self.collateral_balance + value) as u128,
                fees_accrued: (self.fees_accrued + self.fee(value)) as u128,
                ledger: credited(self.ledger, buyer, self.count(), outcome, k),
                ..self
            }
        } else {
            self
        }
    }

    /// The result of selling `k` shares of `outcome`: what the seller
    /// receives, the proceeds less the fee.
    ///
    /// The market must be open, the seller must hold the shares, the
    /// collateral must cover the proceeds, and the new balances must fit their
    /// integers.
    pub open spec fn sell_result(self, seller: Seq<char>, k: int, outcome: int) -> Result<
        u128,
        MarketError,
    > {
        let value = self.sell_value(outcome, k);
        let fee = self.fee(value);
        if self.stage != Stage::Open {
            Err(MarketError::InvalidStageTransition)
        } else if !can_debit(self.ledger, seller, self.count(), outcome, k) {
            Err(MarketError::InsufficientShares)
        } else if self.outcome_shares[outcome] - k < i64::MIN || value > self.collateral_balance
            || self.fees_accrued + fee > u128::MAX {
            Err(MarketError::ArithmeticOverflow)
        } else {
            Ok((value - fee) as u128)
        }
    }

    /// The state after selling: the shares are taken from the seller and from
    /// the issue, the proceeds leave the collateral and the fee joins the
    /// accrued fees.
    pub open spec fn after_sell(self, seller: Seq<char>, k: int, outcome: int) -> MarketView {
        let value = self.sell_value(outcome, k);
        if self.sell_result(seller, k, outcome) is Ok {
            MarketView {
                outcome_shares: self.outcome_shares.update(
                    outcome,
                    (self.outcome_shares[outcome] - k) as i64,
                ),
                collateral_balance: (self.collateral_balance - value) as u128,
                fees_accrued: (self.fees_accrued + self.fee(value)) as u128,
                ledger: debited(self.ledger, seller, outcome, k),
                ..self
            }
        } else {
            self
        }
    }
}

impl View for Market {
    type V = MarketView;

    open spec fn view(&self) -> MarketView {
        MarketView {
            id: self.id,
            title: self.title@,
            description: self.description@,
            operator: self.operator@,
            oracle: self.oracle@,
            fee_owner: self.fee_owner@,
            outcomes: self.outcomes@,
            collateral_token: self.collateral_token@,
            collateral_decimals: self.collateral_decimals,
            trade_fee_bps: self.trade_fee_bps,
            resolution_time: self.resolution_time,
            end_time: self.end_time,
            liquidity: self.liquidity,
            outcome_shares: self.outcome_shares@,
            collateral_balance: self.collateral_balance,
            fees_accrued: self.fees_accrued,
            stage: self.stage,
            payouts: match self.payouts {
                Some(payouts) => Some(payouts@),
                None => None,
            },
            ledger: self.ledger@,
        }
    }
}

impl Market {
    /// The invariant of a market: that of its value and that of its ledger.
    pub open spec fn wf(&self) -> bool {
        &&& self@.wf()
        &&& self.ledger.wf()
        &&& self.ledger.outcomes() == self.outcomes.len()
    }
}

/// The scale of a collateral with at most [`MAX_DECIMALS`] decimals is within
/// the range of the pricing engine.
pub proof fn lemma_unit_in_range(decimals: u32)
    requires
        decimals <= MAX_DECIMALS,
    ensures
        1 <= pow10(decimals as nat) <= MAX_UNIT,
{
    lemma_pow10_monotone(decimals as nat, 18);
    lemma_pow10_scale();
}

/// The sum of a prefix of the payouts is not negative and does not
/// decrease with the length of the prefix.
pub proof fn lemma_total_monotone(payouts: Seq<u128>, m: nat, n: nat)
    requires
        m <= n,
    ensures
        0 <= total_upto(payouts, m) <= total_upto(payouts, n),
    decreases n,
{
    if n > 0 {
        if m < n {
            lemma_total_monotone(payouts, m, (n - 1) as nat);
        } else {
            lemma_total_monotone(payouts, (m - 1) as nat, (n - 1) as nat);
        }
    }
}

/// Payouts sum to zero if and only if each of them is zero.
pub proof fn lemma_total_zero(payouts: Seq<u128>, n: nat)
    ensures
        total_upto(payouts, n) == 0 <==> forall|j: int| 0 <= j < n ==> payouts[j] == 0,
    decreases n,
{
    if n > 0 {
        lemma_total_monotone(payouts, (n - 1) as nat, (n - 1) as nat);
        lemma_total_zero(payouts, (n - 1) as nat);
        if total_upto(payouts, n) != 0 && payouts[n - 1] == 0 {
            let j = choose|j: int| 0 <= j < n - 1 && payouts[j] != 0;
            assert(payouts[j] != 0);
        }
    }
}

/// Payouts that are not empty have a first largest one.
pub proof fn lemma_first_max_exists(payouts: Seq<u128>, n: nat) -> (i: int)
    requires
        0 < n <= payouts.len(),
    ensures
        is_first_max(payouts, n as int, i),
    decreases n,
{
    if n == 1 {
        0
    } else {
        let i = lemma_first_max_exists(payouts, (n - 1) as nat);
        if payouts[n - 1] > payouts[i] {
            n - 1
        } else {
            i
        }
    }
}

/// An index that is the first largest is the one that [`first_max`] names.
pub proof fn lemma_first_max_is(payouts: Seq<u128>, i: int)
    requires
        is_first_max(payouts, payouts.len() as int, i),
    ensures
        first_max(payouts) == i,
{
    let j = first_max(payouts);
    assert(is_first_max(payouts, payouts.len() as int, j));
    if i < j {
        assert(payouts[i] < payouts[j]);
    }
    if j < i {
        assert(payouts[j] < payouts[i]);
    }
}

impl MarketView {
    /// The quantities after the shares of one outcome changed by `k`.
    pub proof fn lemma_quantities_updated(self, outcome: int, k: int)
        requires
            0 <= outcome < self.outcome_shares.len(),
            i64::MIN <= self.outcome_shares[outcome] + k <= i64::MAX,
        ensures
            (MarketView {
                outcome_shares: self.outcome_shares.update(
                    outcome,
                    (self.outcome_shares[outcome] + k) as i64,
                ),
                ..self
            }).quantities() == self.quantities().update(
                outcome,
                self.quantities()[outcome] + k * self.unit(),
            ),
    {
        let after = MarketView {
            outcome_shares: self.outcome_shares.update(
                outcome,
                (self.outcome_shares[outcome] + k) as i64,
            ),
            ..self
        };
        let held = self.outcome_shares[outcome] as int;
        let unit = self.unit();
        assert((held + k) * unit == held * unit + k * unit) by (nonlinear_arith);
        assert(after.quantities() =~= self.quantities().update(
            outcome,
            self.quantities()[outcome] + k * self.unit(),
        ));
    }

    /// The value of a purchase and its fee are not negative, and neither is
    /// more than the face value of the shares.
    pub proof fn lemma_buy_value_bounds(self, outcome: int, k: int)
        requires
            self.wf(),
            0 <= outcome < self.count(),
            0 <= k,
        ensures
            0 <= self.fee(self.buy_value(outcome, k)) <= self.buy_value(outcome, k) <= k
                * self.unit(),
    {
        lemma_unit_in_range(self.collateral_decimals);
        assert(0 <= k * self.unit()) by (nonlinear_arith)
            requires
                0 <= k,
                0 <= self.unit(),
        ;
        lemma_buy_cost_bounds(self.quantities(), self.liquidity as int, outcome, k * self.unit());
        lemma_trade_fee_rounds_up(self.buy_value(outcome, k), self.trade_fee_bps as int);
    }

    /// The proceeds of a sale and its fee are not negative, and neither is
    /// more than the face value of the shares.
    pub proof fn lemma_sell_value_bounds(self, outcome: int, k: int)
        requires
            self.wf(),
            0 <= outcome < self.count(),
            0 <= k,
        ensures
            0 <= self.fee(self.sell_value(outcome, k)) <= self.sell_value(outcome, k) <= k
                * self.unit(),
    {
        lemma_unit_in_range(self.collateral_decimals);
        assert(0 <= k * self.unit()) by (nonlinear_arith)
            requires
                0 <= k,
                0 <= self.unit(),
        ;
        lemma_sell_proceeds_bounds(
            self.quantities(),
            self.liquidity as int,
            outcome,
            k * self.unit(),
        );
        lemma_trade_fee_rounds_up(self.sell_value(outcome, k), self.trade_fee_bps as int);
    }

    /// A purchase keeps the invariant, and raises the collateral by exactly
    /// as much as it raises the cost function.
    pub proof fn lemma_buy_keeps_surplus(self, buyer: Seq<char>, amount: int, k: int, outcome: int)
        requires
            self.wf(),
            0 <= outcome < self.count(),
            0 < k,
        ensures
            self.after_buy(buyer, amount, k, outcome).wf(),
            self.after_buy(buyer, amount, k, outcome).collateral_balance - self.after_buy(
                buyer,
                amount,
                k,
                outcome,
            ).cost() == self.collateral_balance - self.cost(),
    {
        if self.buy_result(buyer, amount, k, outcome) is Ok {
            self.lemma_quantities_updated(outcome, k);
            self.lemma_buy_value_bounds(outcome, k);
            lemma_credited_complete(self.ledger, buyer, self.count(), outcome, k);
        }
    }

    /// A sale keeps the invariant, and lowers the collateral by exactly as
    /// much as it lowers the cost function.
    pub proof fn lemma_sell_keeps_surplus(self, seller: Seq<char>, k: int, outcome: int)
        requires
            self.wf(),
            0 <= outcome < self.count(),
            0 < k,
        ensures
            self.after_sell(seller, k, outcome).wf(),
            self.after_sell(seller, k, outcome).collateral_balance - self.after_sell(
                seller,
                k,
                outcome,
            ).cost() == self.collateral_balance - self.cost(),
    {
        if self.sell_result(seller, k, outcome) is Ok {
            self.lemma_quantities_updated(outcome, -k);
            self.lemma_sell_value_bounds(outcome, k);
            lemma_debited_complete(self.ledger, seller, self.count(), outcome, k);
            assert((-k) * self.unit() == -(k * self.unit())) by (nonlinear_arith);
        }
    }
}

} // verus!
