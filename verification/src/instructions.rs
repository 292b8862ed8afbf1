//! The instructions that accompany a transfer of collateral to the contract.

use vstd::prelude::*;

verus! {

/// Buy shares of one outcome of a market with the collateral transferred.
#[derive(Clone, Copy, Debug, PartialEq, Eq, Structural)]
pub struct Buy {
    pub market_id: u64,
    pub outcome_id: u32,
    pub num_shares: u64,
}

/// Add the collateral transferred to the balance of a market.
#[derive(Clone, Copy, Debug, PartialEq, Eq, Structural)]
pub struct InitialDeposit {
    pub market_id: u64,
}

/// What to do with a transfer of collateral.
#[derive(Clone, Copy, Debug, PartialEq, Eq, Structural)]
pub enum Instruction {
    Buy(Buy),
    InitialDeposit(InitialDeposit),
}

} // verus!
