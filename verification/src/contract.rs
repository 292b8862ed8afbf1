//! The contract: the markets, each under its identifier, and the operations
//! that callers reach them by.
//!
//! Markets are kept in the order of their creation and never removed; the
//! identifier of a market is its position. An operation works on one market
//! and leaves all others as they were.

use crate::error::MarketError;
use crate::instructions::{Buy, InitialDeposit, Instruction};
use crate::ledger::balance;
use crate::market::{
    config_ok, created, market_balances, CreateMarketArgs, Market, MarketView, Stage, Transfer,
    UserBalance,
};
use vstd::prelude::*;

verus! {

/// The identifier of a market.
pub type MarketId = u64;

/// The balances of an account in the first `n` markets, market by market.
pub open spec fn user_balances(markets: Seq<MarketView>, account: Seq<char>, n: nat) -> Seq<
    UserBalance,
>
    decreases n,
{
    if n == 0 {
        Seq::empty()
    } else {
        user_balances(markets, account, (n - 1) as nat) + market_balances(markets[n - 1], account)
    }
}

/// All markets.
pub struct Contract {
    markets: Vec<Market>,
}

impl View for Contract {
    type V = Seq<MarketView>;

    /// The values of the markets, by identifier.
    closed spec fn view(&self) -> Seq<MarketView> {
        Seq::new(self.markets.len() as nat, |i: int| self.markets[i]@)
    }
}

impl Default for Contract {
    fn default() -> (contract: Contract)
        ensures
            contract.wf(),
            contract@.len() == 0,
    {
        Contract::new()
    }
}

impl Contract {
    /// Every market satisfies its invariant and is kept under its identifier.
    pub closed spec fn wf(&self) -> bool {
        forall|i: int|
            0 <= i < self.markets.len() ==> (#[trigger] self.markets[i]).wf() && self.markets[i].id
                == i
    }

    /// The value of every market of a well-formed contract satisfies the
    /// invariant of a market and carries its identifier.
    pub proof fn lemma_markets_wf(&self)
        requires
            self.wf(),
        ensures
            forall|i: int| 0 <= i < self@.len() ==> (#[trigger] self@[i]).wf() && self@[i].id == i,
    {
        assert forall|i: int| 0 <= i < self@.len() implies (#[trigger] self@[i]).wf() && self@[i].id
            == i by {
            assert(self.markets[i].wf());
        }
    }

    /// Makes a contract without markets.
    pub fn new() -> (contract: Contract)
        ensures
            contract.wf(),
            contract@.len() == 0,
    {
        Contract { markets: Vec::new() }
    }

    /// Creates a market and returns its identifier: the number of markets
    /// created before it.
    pub fn create_market(&mut self, creator: &String, args: CreateMarketArgs) -> (result: Result<
        MarketId,
        MarketError,
    >)
        requires
            old(self).wf(),
        ensures
            final(self).wf(),
            config_ok(args) ==> result == Ok::<MarketId, MarketError>(old(self)@.len() as u64)
                && final(self)@ == old(self)@.push(
                created(old(self)@.len() as u64, creator@, args),
            ),
            !config_ok(args) ==> result == Err::<MarketId, MarketError>(
                MarketError::InvalidConfiguration,
            ) && final(self)@ == old(self)@,
    {
        let market_id: u64 = self.markets.len() as u64;
        match Market::new(market_id, creator, args) {
            Ok(market) => {
                self.markets.push(market);
                assert(self@ =~= old(self)@.push(created(market_id, creator@, args)));
                Ok(market_id)
            },
            Err(error) => Err(error),
        }
    }

    /// Returns the number of markets.
    pub fn get_markets(&self) -> (count: u64)
        ensures
            count == self@.len(),
    {
        self.markets.len() as u64
    }

    /// Returns the market with the given identifier.
    pub fn get_market(&self, market_id: MarketId) -> (market: &Market)
        requires
            self.wf(),
            market_id < self@.len(),
        ensures
            market.wf(),
            market@ == self@[market_id as int],
    {
        &self.markets[market_id as usize]
    }

    /// Opens a market for trading, on behalf of `caller`, who must be its operator.
    pub fn open_market(&mut self, caller: &String, market_id: MarketId) -> (result: Result<
        (),
        MarketError,
    >)
        requires
            old(self).wf(),
            market_id < old(self)@.len(),
        ensures
            final(self).wf(),
            result == old(self)@[market_id as int].by_operator(
                caller@,
                old(self)@[market_id as int].open_result(),
            ),
            final(self)@ == old(self)@.update(
                market_id as int,
                if caller@ == old(self)@[market_id as int].operator {
                    old(self)@[market_id as int].after_open()
                } else {
                    old(self)@[market_id as int]
                },
            ),
    {
        let result = self.markets[market_id as usize].open_by(caller);
        proof {
            self.lemma_replaced(*old(self), market_id as int);
        }
        result
    }

    /// Suspends trading in a market, on behalf of `caller`, who must be its operator.
    pub fn pause_market(&mut self, caller: &String, market_id: MarketId) -> (result: Result<
        (),
        MarketError,
    >)
        requires
            old(self).wf(),
            market_id < old(self)@.len(),
        ensures
            final(self).wf(),
            result == old(self)@[market_id as int].by_operator(
                caller@,
                old(self)@[market_id as int].pause_result(),
            ),
            final(self)@ == old(self)@.update(
                market_id as int,
                if caller@ == old(self)@[market_id as int].operator {
                    old(self)@[market_id as int].after_pause()
                } else {
                    old(self)@[market_id as int]
                },
            ),
    {
        let result = self.markets[market_id as usize].pause_by(caller);
        proof {
            self.lemma_replaced(*old(self), market_id as int);
        }
        result
    }

    /// Ends a market with the given payouts, one for each of its outcomes.
    /// Who asks is not looked at here: `Market::resolve_by` does that.
    pub fn resolve_market(&mut self, market_id: MarketId, payouts: Vec<u128>) -> (result: Result<
        (),
        MarketError,
    >)
        requires
            old(self).wf(),
            market_id < old(self)@.len(),
        ensures
            final(self).wf(),
            result == old(self)@[market_id as int].resolve_result(payouts@),
            final(self)@ == old(self)@.update(
                market_id as int,
                old(self)@[market_id as int].after_resolve(payouts@),
            ),
    {
        let result = self.markets[market_id as usize].resolve(payouts);
        proof {
            self.lemma_replaced(*old(self), market_id as int);
        }
        result
    }

    /// Buys shares for `sender_id`, who has transferred `amount` of the token
    /// `token_id`. Returns the part of the amount to refund.
    pub fn buy(&mut self, sender_id: &String, token_id: &String, amount: u128, ix: Buy) -> (result:
        Result<u128, MarketError>)
        requires
            old(self).wf(),
            ix.market_id < old(self)@.len(),
            token_id@ == old(self)@[ix.market_id as int].collateral_token,
            (ix.outcome_id as int) < old(self)@[ix.market_id as int].count(),
            0 < ix.num_shares,
        ensures
            final(self).wf(),
            result == old(self)@[ix.market_id as int].buy_result(
                sender_id@,
                amount as int,
                ix.num_shares as int,
                ix.outcome_id as int,
            ),
            final(self)@ == old(self)@.update(
                ix.market_id as int,
                old(self)@[ix.market_id as int].after_buy(
                    sender_id@,
                    amount as int,
                    ix.num_shares as int,
                    ix.outcome_id as int,
                ),
            ),
    {
        let result = self.markets[ix.market_id as usize].internal_buy(
            sender_id,
            amount,
            ix.num_shares,
            ix.outcome_id,
        );
        proof {
            self.lemma_replaced(*old(self), ix.market_id as int);
        }
        result
    }

    /// Sells shares of `seller_id` in a market that settles in the token
    /// `token_id`. Returns what the seller is to be paid. A sale takes no
    /// payment: the amount that comes with the call plays no part.
    pub fn sell(
        &mut self,
        seller_id: &String,
        token_id: &String,
        _amount: u128,
        market_id: MarketId,
        outcome_id: u32,
        num_shares: u64,
    ) -> (result: Result<u128, MarketError>)
        requires
            old(self).wf(),
            market_id < old(self)@.len(),
            token_id@ == old(self)@[market_id as int].collateral_token,
            (outcome_id as int) < old(self)@[market_id as int].count(),
            0 < num_shares,
        ensures
            final(self).wf(),
            result == old(self)@[market_id as int].sell_result(
                seller_id@,
                num_shares as int,
                outcome_id as int,
            ),
            final(self)@ == old(self)@.update(
                market_id as int,
                old(self)@[market_id as int].after_sell(
                    seller_id@,
                    num_shares as int,
                    outcome_id as int,
                ),
            ),
    {
        let result = self.markets[market_id as usize].internal_sell(
            seller_id,
            num_shares,
            outcome_id,
        );
        proof {
            self.lemma_replaced(*old(self), market_id as int);
        }
        result
    }

    /// Adds `amount` of the token `token_id` to the collateral of a market.
    /// Returns the part of the amount to refund, which is nothing.
    pub fn deposit(
        &mut self,
        _sender_id: &String,
        token_id: &String,
        amount: u128,
        ix: InitialDeposit,
    ) -> (result: Result<u128, MarketError>)
        requires
            old(self).wf(),
            ix.market_id < old(self)@.len(),
            token_id@ == old(self)@[ix.market_id as int].collateral_token,
        ensures
            final(self).wf(),
            result == match old(self)@[ix.market_id as int].deposit_result(amount as int) {
                Ok(_) => Ok::<u128, MarketError>(0),
                Err(error) => Err::<u128, MarketError>(error),
            },
            final(self)@ == old(self)@.update(
                ix.market_id as int,
                old(self)@[ix.market_id as int].after_deposit(amount as int),
            ),
    {
        let result = self.markets[ix.market_id as usize].deposit_collateral(amount);
        proof {
            self.lemma_replaced(*old(self), ix.market_id as int);
        }
        match result {
            Ok(()) => Ok(0),
            Err(error) => Err(error),
        }
    }

    /// Carries out the instruction that came with a transfer of `amount` of
    /// the token `token_id` from `sender_id`. Returns the part of the amount
    /// to refund.
    pub fn on_transfer(
        &mut self,
        sender_id: &String,
        token_id: &String,
        amount: u128,
        instruction: Instruction,
    ) -> (result: Result<u128, MarketError>)
        requires
            old(self).wf(),
            match instruction {
                Instruction::Buy(ix) => ix.market_id < old(self)@.len() && token_id@ == old(
                    self,
                )@[ix.market_id as int].collateral_token && (ix.outcome_id as int) < old(
                    self,
                )@[ix.market_id as int].count() && 0 < ix.num_shares,
                Instruction::InitialDeposit(ix) => ix.market_id < old(self)@.len() && token_id@
                    == old(self)@[ix.market_id as int].collateral_token,
            },
        ensures
            final(self).wf(),
            match instruction {
                Instruction::Buy(ix) => result == old(self)@[ix.market_id as int].buy_result(
                    sender_id@,
                    amount as int,
                    ix.num_shares as int,
                    ix.outcome_id as int,
                ) && final(self)@ == old(self)@.update(
                    ix.market_id as int,
                    old(self)@[ix.market_id as int].after_buy(
                        sender_id@,
                        amount as int,
                        ix.num_shares as int,
                        ix.outcome_id as int,
                    ),
                ),
                Instruction::InitialDeposit(ix) => result == match old(
                    self,
                )@[ix.market_id as int].deposit_result(amount as int) {
                    Ok(_) => Ok::<u128, MarketError>(0),
                    Err(error) => Err::<u128, MarketError>(error),
                } && final(self)@ == old(self)@.update(
                    ix.market_id as int,
                    old(self)@[ix.market_id as int].after_deposit(amount as int),
                ),
            },
    {
        match instruction {
            Instruction::Buy(ix) => self.buy(sender_id, token_id, amount, ix),
            Instruction::InitialDeposit(ix) => self.deposit(sender_id, token_id, amount, ix),
        }
    }

    /// Takes the accrued fees out of a market and returns the request to
    /// transfer them to its fee owner.
    pub fn withdraw_fees(&mut self, market_id: MarketId) -> (transfer: Transfer)
        requires
            old(self).wf(),
            market_id < old(self)@.len(),
        ensures
            final(self).wf(),
            final(self)@ == old(self)@.update(
                market_id as int,
                old(self)@[market_id as int].after_withdraw_fees(),
            ),
            transfer.receiver@ == old(self)@[market_id as int].fee_owner,
            transfer.token@ == old(self)@[market_id as int].collateral_token,
            transfer.amount == old(self)@[market_id as int].fees_accrued,
    {
        let transfer = self.markets[market_id as usize].withdraw_fees();
        proof {
            self.lemma_replaced(*old(self), market_id as int);
        }
        transfer
    }

    /// Returns the marginal price of an outcome of a market, as a mantissa at
    /// the scale of its collateral.
    pub fn price(&self, market_id: MarketId, outcome_id: u32) -> (p: u128)
        requires
            self.wf(),
            market_id < self@.len(),
            (outcome_id as int) < self@[market_id as int].count(),
        ensures
            p == self@[market_id as int].price(outcome_id as int),
            p <= self@[market_id as int].unit(),
    {
        self.markets[market_id as usize].price(outcome_id)
    }

    /// Returns the shares of an outcome of a market that an account holds,
    /// or `None` if the account never traded in that market.
    pub fn balance(&self, market_id: MarketId, account_id: &String, outcome_id: u32) -> (shares:
        Option<u128>)
        requires
            self.wf(),
            market_id < self@.len(),
        ensures
            shares == balance(
                self@[market_id as int].ledger,
                account_id@,
                self@[market_id as int].count(),
                outcome_id as int,
            ),
    {
        self.markets[market_id as usize].outcome_balance(account_id, outcome_id)
    }

    /// Returns the stage of a market.
    pub fn stage(&self, market_id: MarketId) -> (stage: Stage)
        requires
            self.wf(),
            market_id < self@.len(),
        ensures
            stage == self@[market_id as int].stage,
    {
        self.markets[market_id as usize].stage
    }

    /// Returns the balances of an account in every market in which it has
    /// traded: market by market, one entry for each outcome.
    pub fn get_user_balances(&self, account_id: &String) -> (balances: Vec<UserBalance>)
        requires
            self.wf(),
        ensures
            balances@ == user_balances(self@, account_id@, self@.len()),
    {
        let mut balances: Vec<UserBalance> = Vec::new();
        let mut i: usize = 0;
        while i < self.markets.len()
            invariant
                self.wf(),
                i <= self.markets.len(),
                balances@ == user_balances(self@, account_id@, i as nat),
            decreases self.markets.len() - i,
        {
            let mut held: Vec<UserBalance> = self.markets[i].user_balances(account_id);
            balances.append(&mut held);
            i = i + 1;
        }
        balances
    }

    /// A contract that differs from a well-formed one in one market, which
    /// satisfies its invariant and has kept its identifier, is well formed,
    /// and its value differs in that market alone.
    proof fn lemma_replaced(&self, before: Contract, i: int)
        requires
            before.wf(),
            0 <= i < before.markets.len(),
            self.markets.len() == before.markets.len(),
            forall|j: int| 0 <= j < self.markets.len() && j != i ==> self.markets[j] == before.markets[j],
            self.markets[i].wf(),
            self.markets[i].id == before.markets[i].id,
        ensures
            self.wf(),
            self@ == before@.update(i, self.markets[i]@),
    {
        assert forall|j: int| 0 <= j < self.markets.len() implies (#[trigger] self.markets[j]).wf()
            && self.markets[j].id == j by {
            assert(before.markets[j].wf());
        }
        assert(self@ =~= before@.update(i, self.markets[i]@));
    }
}

} // verus!
