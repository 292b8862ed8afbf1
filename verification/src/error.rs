//! The ways in which an operation on a market fails.

use vstd::prelude::*;

verus! {

/// Why an operation was aborted. An aborted operation changes nothing.
#[derive(Clone, Copy, Debug, PartialEq, Eq, Structural)]
pub enum MarketError {
    /// The configuration of a new market is not acceptable.
    InvalidConfiguration,
    /// The caller may not make this transition.
    Unauthorized,
    /// The market is in a stage that does not permit the operation.
    InvalidStageTransition,
    /// The payment does not cover the cost of the shares and the fee.
    InsufficientPayment,
    /// The account holds fewer shares than are to be taken from it.
    InsufficientShares,
    /// The payouts sum neither to the full scale nor to zero.
    InvalidPayoutVector,
    /// A result does not fit the fixed-point range.
    ArithmeticOverflow,
}

impl MarketError {
    /// A short description of the error.
    pub fn message(&self) -> (text: &'static str)
        ensures
            text@ == match *self {
                MarketError::InvalidConfiguration => "Invalid market configuration"@,
                MarketError::Unauthorized => "Caller is not authorized"@,
                MarketError::InvalidStageTransition => "Invalid stage transition"@,
                MarketError::InsufficientPayment => "Insufficient payment"@,
                MarketError::InsufficientShares => "Insufficient shares"@,
                MarketError::InvalidPayoutVector => "Invalid payout vector"@,
                MarketError::ArithmeticOverflow => "Arithmetic overflow"@,
            },
    {
        match self {
            MarketError::InvalidConfiguration => "Invalid market configuration",
            MarketError::Unauthorized => "Caller is not authorized",
            MarketError::InvalidStageTransition => "Invalid stage transition",
            MarketError::InsufficientPayment => "Insufficient payment",
            MarketError::InsufficientShares => "Insufficient shares",
            MarketError::InvalidPayoutVector => "Invalid payout vector",
            MarketError::ArithmeticOverflow => "Arithmetic overflow",
        }
    }
}

} // verus!
