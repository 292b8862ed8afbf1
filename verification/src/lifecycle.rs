//! The lifecycle of a market: creation, the transitions between its stages,
//! resolution, and the movements of collateral that are no trades.
//!
//! Every operation checks all it has to check before it writes a field, so an
//! operation that fails leaves the market as it was.

use crate::error::MarketError;
use crate::fixed::pow10;
use crate::ledger::Ledger;
use crate::lmsr::{MAX_LIQUIDITY, MAX_UNIT};
use crate::market::{
    config_ok, created, first_max, is_first_max, lemma_first_max_is, lemma_total_monotone,
    lemma_unit_in_range, total, total_upto, CreateMarketArgs, Finalization, Market, Stage,
    Transfer, DEFAULT_LIQUIDITY, MAX_DECIMALS, MAX_FEE_BPS,
};
use vstd::prelude::*;

verus! {

/// Computes the mantissa of one whole unit of a collateral with the given
/// number of decimals.
pub fn unit_of(decimals: u32) -> (unit: u128)
    requires
        decimals <= MAX_DECIMALS,
    ensures
        unit == pow10(decimals as nat),
        1 <= unit <= MAX_UNIT,
{
    let mut unit: u128 = 1;
    let mut d: u32 = 0;
    while d < decimals
        invariant
            d <= decimals <= MAX_DECIMALS,
            unit == pow10(d as nat),
        decreases decimals - d,
    {
        proof {
            lemma_unit_in_range((d + 1) as u32);
        }
        unit = unit * 10;
        d = d + 1;
    }
    proof {
        lemma_unit_in_range(decimals);
    }
    unit
}

/// Sums the payouts. `None` stands for a sum beyond the integer range.
fn total_of(payouts: &Vec<u128>) -> (sum: Option<u128>)
    ensures
        match sum {
            Some(s) => s == total(payouts@),
            None => total(payouts@) > u128::MAX,
        },
{
    let mut sum: u128 = 0;
    let mut j: usize = 0;
    while j < payouts.len()
        invariant
            j <= payouts.len(),
            sum == total_upto(payouts@, j as nat),
        decreases payouts.len() - j,
    {
        if payouts[j] > u128::MAX - sum {
            proof {
                lemma_total_monotone(payouts@, (j + 1) as nat, payouts@.len());
            }
            return None;
        }
        sum = sum + payouts[j];
        j = j + 1;
    }
    Some(sum)
}

/// Finds the lowest index at which the payouts are largest.
fn first_max_of(payouts: &Vec<u128>) -> (best: usize)
    requires
        payouts.len() > 0,
    ensures
        best == first_max(payouts@),
        best < payouts.len(),
{
    let mut best: usize = 0;
    let mut j: usize = 1;
    while j < payouts.len()
        invariant
            1 <= j <= payouts.len(),
            is_first_max(payouts@, j as int, best as int),
        decreases payouts.len() - j,
    {
        if payouts[j] > payouts[best] {
            best = j;
        }
        j = j + 1;
    }
    proof {
        lemma_first_max_is(payouts@, best as int);
    }
    best
}

impl Market {
    /// Makes a market from its configuration. The market is proposed: it
    /// takes collateral, and trades once it is opened.
    ///
    /// `creator` stands in for the operator where the configuration names none.
    pub fn new(id: u64, creator: &String, args: CreateMarketArgs) -> (result: Result<
        Market,
        MarketError,
    >)
        ensures
            match result {
                Ok(market) => config_ok(args) && market.wf() && market@ == created(
                    id,
                    creator@,
                    args,
                ),
                Err(error) => !config_ok(args) && error == MarketError::InvalidConfiguration,
            },
    {
        let count: usize = args.outcomes.len();
        if count < 2 || args.trade_fee_bps > MAX_FEE_BPS || args.collateral_decimals
            > MAX_DECIMALS {
            return Err(MarketError::InvalidConfiguration);
        }
        let mut i: usize = 0;
        while i < count
            invariant
                i <= count,
                count == args.outcomes.len(),
                forall|j: int| 0 <= j < i ==> (#[trigger] args.outcomes[j]).id == j,
            decreases count - i,
        {
            if args.outcomes[i].id as usize != i {
                return Err(MarketError::InvalidConfiguration);
            }
            i = i + 1;
        }
        let CreateMarketArgs {
            title,
            description,
            collateral_token,
            collateral_decimals,
            trade_fee_bps,
            resolution_time,
            end_time,
            fee_owner,
            oracle,
            operator,
            outcomes,
            liquidity,
        } = args;
        let unit: u128 = unit_of(collateral_decimals);
        let b: u128 = match liquidity {
            Some(b) => b,
            None => {
                assert(DEFAULT_LIQUIDITY * unit <= DEFAULT_LIQUIDITY * MAX_UNIT) by (nonlinear_arith)
                    requires
                        unit <= MAX_UNIT,
                ;
                DEFAULT_LIQUIDITY * unit
            },
        };
        if b == 0 || b > MAX_LIQUIDITY {
            return Err(MarketError::InvalidConfiguration);
        }
        let operator: String = match operator {
            Some(account) => account,
            None => creator.clone(),
        };
        let oracle: String = match oracle {
            Some(account) => account,
            None => operator.clone(),
        };
        let fee_owner: String = match fee_owner {
            Some(account) => account,
            None => operator.clone(),
        };
        let mut outcome_shares: Vec<i64> = Vec::new();
        let mut j: usize = 0;
        while j < count
            invariant
                j <= count,
                outcome_shares@ == Seq::new(j as nat, |l: int| 0i64),
            decreases count - j,
        {
            outcome_shares.push(0);
            assert(outcome_shares@ =~= Seq::new((j + 1) as nat, |l: int| 0i64));
            j = j + 1;
        }
        let market = Market {
            id,
            title,
            description,
            operator,
            oracle,
            fee_owner,
            outcomes,
            collateral_token,
            collateral_decimals,
            trade_fee_bps,
            resolution_time,
            end_time,
            liquidity: b,
            outcome_shares,
            collateral_balance: 0,
            fees_accrued: 0,
            stage: Stage::Proposed,
            payouts: None,
            ledger: Ledger::new(count),
        };
        Ok(market)
    }

    /// Opens the market for trading. Only a proposed or a paused market can be opened.
    pub fn open(&mut self) -> (result: Result<(), MarketError>)
        requires
            old(self).wf(),
        ensures
            final(self).wf(),
            result == old(self)@.open_result(),
            final(self)@ == old(self)@.after_open(),
    {
        match self.stage {
            Stage::Proposed | Stage::Paused => {
                self.stage = Stage::Open;
                Ok(())
            },
            _ => Err(MarketError::InvalidStageTransition),
        }
    }

    /// Opens the market for trading on behalf of `caller`, who must be the operator.
    pub fn open_by(&mut self, caller: &String) -> (result: Result<(), MarketError>)
        requires
            old(self).wf(),
        ensures
            final(self).wf(),
            result == old(self)@.by_operator(caller@, old(self)@.open_result()),
            final(self)@ == if caller@ == old(self)@.operator {
                old(self)@.after_open()
            } else {
                old(self)@
            },
    {
        if !self.is_operator(caller) {
            return Err(MarketError::Unauthorized);
        }
        self.open()
    }

    /// Suspends trading on behalf of `caller`, who must be the operator.
    pub fn pause_by(&mut self, caller: &String) -> (result: Result<(), MarketError>)
        requires
            old(self).wf(),
        ensures
            final(self).wf(),
            result == old(self)@.by_operator(caller@, old(self)@.pause_result()),
            final(self)@ == if caller@ == old(self)@.operator {
                old(self)@.after_pause()
            } else {
                old(self)@
            },
    {
        if !self.is_operator(caller) {
            return Err(MarketError::Unauthorized);
        }
        self.pause()
    }

    /// Suspends trading. Only an open market can be paused.
    pub fn pause(&mut self) -> (result: Result<(), MarketError>)
        requires
            old(self).wf(),
        ensures
            final(self).wf(),
            result == old(self)@.pause_result(),
            final(self)@ == old(self)@.after_pause(),
    {
        match self.stage {
            Stage::Open => {
                self.stage = Stage::Paused;
                Ok(())
            },
            _ => Err(MarketError::InvalidStageTransition),
        }
    }

    /// Ends the market with the given payouts, one for each outcome.
    ///
    /// Payouts that sum to the full scale resolve the market: the outcome with
    /// the largest payout wins, the first of them if several are largest, and
    /// the payouts are kept as they are. Payouts that sum to zero make the
    /// market invalid. Any other sum is refused.
    pub fn resolve(&mut self, payouts: Vec<u128>) -> (result: Result<(), MarketError>)
        requires
            old(self).wf(),
        ensures
            final(self).wf(),
            result == old(self)@.resolve_result(payouts@),
            final(self)@ == old(self)@.after_resolve(payouts@),
    {
        match self.stage {
            Stage::Open | Stage::Paused => {},
            _ => {
                return Err(MarketError::InvalidStageTransition);
            },
        }
        if payouts.len() != self.outcomes.len() {
            return Err(MarketError::InvalidPayoutVector);
        }
        let whole: u128 = unit_of(self.collateral_decimals);
        match total_of(&payouts) {
            Some(sum) => {
                if sum == whole {
                    let winner: usize = first_max_of(&payouts);
                    self.payouts = Some(payouts);
                    self.stage = Stage::Finalized(
                        Finalization::Resolved { outcome_id: winner as u32 },
                    );
                    Ok(())
                } else if sum == 0 {
                    self.payouts = None;
                    self.stage = Stage::Finalized(Finalization::Invalid);
                    Ok(())
                } else {
                    Err(MarketError::InvalidPayoutVector)
                }
            },
            None => Err(MarketError::InvalidPayoutVector),
        }
    }

    /// Ends the market with the given payouts on behalf of `caller`, who must
    /// be the oracle.
    pub fn resolve_by(&mut self, caller: &String, payouts: Vec<u128>) -> (result: Result<
        (),
        MarketError,
    >)
        requires
            old(self).wf(),
        ensures
            final(self).wf(),
            result == old(self)@.by_oracle(caller@, old(self)@.resolve_result(payouts@)),
            final(self)@ == if caller@ == old(self)@.oracle {
                old(self)@.after_resolve(payouts@)
            } else {
                old(self)@
            },
    {
        if !self.is_oracle(caller) {
            return Err(MarketError::Unauthorized);
        }
        self.resolve(payouts)
    }

    /// Adds collateral to the market. A market takes collateral until it is finalized.
    pub fn deposit_collateral(&mut self, amount: u128) -> (result: Result<(), MarketError>)
        requires
            old(self).wf(),
        ensures
            final(self).wf(),
            result == old(self)@.deposit_result(amount as int),
            final(self)@ == old(self)@.after_deposit(amount as int),
    {
        match self.stage {
            Stage::Finalized(_) => {
                return Err(MarketError::InvalidStageTransition);
            },
            _ => {},
        }
        if amount > u128::MAX - self.collateral_balance {
            return Err(MarketError::ArithmeticOverflow);
        }
        self.collateral_balance = self.collateral_balance + amount;
        Ok(())
    }

    /// Takes the accrued fees out of the market, in any stage, and returns
    /// the request to transfer them to the fee owner.
    pub fn withdraw_fees(&mut self) -> (transfer: Transfer)
        requires
            old(self).wf(),
        ensures
            final(self).wf(),
            final(self)@ == old(self)@.after_withdraw_fees(),
            transfer.receiver@ == old(self)@.fee_owner,
            transfer.token@ == old(self)@.collateral_token,
            transfer.amount == old(self)@.fees_accrued,
    {
        let amount: u128 = self.fees_accrued;
        self.fees_accrued = 0;
        Transfer {
            receiver: self.fee_owner.clone(),
            token: self.collateral_token.clone(),
            amount,
        }
    }

    /// Whether the market satisfies its invariant. A market that was put
    /// together from stored fields is to be checked before it is used.
    pub fn validate(&self) -> (ok: bool)
        ensures
            ok == self.wf(),
    {
        let count: usize = self.outcomes.len();
        if count < 2 || self.outcome_shares.len() != count || self.trade_fee_bps > MAX_FEE_BPS
            || self.collateral_decimals > MAX_DECIMALS || self.liquidity == 0 || self.liquidity
            > MAX_LIQUIDITY {
            return false;
        }
        let mut i: usize = 0;
        while i < count
            invariant
                i <= count,
                count == self.outcomes.len(),
                forall|j: int| 0 <= j < i ==> (#[trigger] self.outcomes[j]).id == j,
            decreases count - i,
        {
            if self.outcomes[i].id as usize != i {
                assert(self@.outcomes[i as int].id != i);
                return false;
            }
            i = i + 1;
        }
        let settled: bool = match self.stage {
            Stage::Finalized(Finalization::Resolved { outcome_id }) => {
                match &self.payouts {
                    Some(payouts) => (outcome_id as usize) < count && payouts.len() == count,
                    None => false,
                }
            },
            _ => self.payouts.is_none(),
        };
        if !settled || self.ledger.outcomes_count() != count || !self.ledger.is_well_formed() {
            return false;
        }
        proof {
            self.ledger.lemma_rows_complete();
        }
        true
    }

    /// Whether `caller` is the operator, who may open and pause the market.
    pub fn is_operator(&self, caller: &String) -> (yes: bool)
        ensures
            yes == (caller@ == self@.operator),
    {
        self.operator == *caller
    }

    /// Whether `caller` is the oracle, who may resolve the market.
    pub fn is_oracle(&self, caller: &String) -> (yes: bool)
        ensures
            yes == (caller@ == self@.oracle),
    {
        self.oracle == *caller
    }

    /// Whether the market settles in the given token.
    pub fn accepts(&self, token_id: &String) -> (yes: bool)
        ensures
            yes == (token_id@ == self@.collateral_token),
    {
        self.collateral_token == *token_id
    }
}

} // verus!
