//! Reorg-feasibility calculator for a Testnet4-style proof-of-work chain.
//!
//! The crate converts compact proof-of-work target encodings into exact
//! difficulty ratios, accumulates chain work over a block-height range,
//! derives the block count, time and hashrate a chain reorganization
//! would need, and searches a fixed list of candidate fork depths for
//! heights that fit a time budget.  All quantities are exact non-negative
//! rationals; an operation whose reduced result does not fit the 64-bit
//! representation reports that instead of rounding.

pub mod chain;
pub mod rational;
pub mod reorg;
pub mod target;
