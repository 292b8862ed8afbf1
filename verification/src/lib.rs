//! An automated market maker for prediction markets.
//!
//! The library prices shares of mutually exclusive outcomes with the
//! logarithmic market scoring rule, keeps the ledger of who owns which shares,
//! and moves a market through its lifecycle from proposal to resolution.
//!
//! - `fixed`: the fixed-point exponential that the prices are made of.
//! - `lmsr`: the pricing engine: cost, prices, the cost of buying, the
//!   proceeds of selling, the fee.
//! - `decay`, `convexity`: what the engine guarantees in spite of rounding.
//! - `ledger`: the shares of each account.
//! - `market`: a market and the rules of its operations.
//! - `lifecycle`, `trading`: the operations.
//! - `laws`: the invariants that the operations keep.
//! - `contract`, `instructions`: all markets, and the calls that reach them.
//! - `error`: why an operation fails.
//!
//! All amounts are unsigned integers: mantissas at the scale of the
//! collateral, `10^decimals` to one whole unit. A share is worth one whole
//! unit of collateral at most.

pub mod contract;
pub mod convexity;
pub mod decay;
pub mod error;
pub mod fixed;
pub mod instructions;
pub mod laws;
pub mod ledger;
pub mod lifecycle;
pub mod lmsr;
pub mod market;
pub mod trading;
