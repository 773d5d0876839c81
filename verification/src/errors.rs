//! The error taxonomy of the market core.

use vstd::prelude::*;

verus! {

/// Why an operation on the market was refused.
///
/// Every fallible operation of the crate reports one of these; no
/// precondition failure is swallowed.
#[derive(Debug, Clone, Copy, PartialEq, Eq, Structural)]
pub enum MarketError {
    /// The bet specification is malformed or unsatisfiable: an event index
    /// beyond the market's events, an outcome index outside `[0, 2^N)`, or
    /// slice conditions that contradict each other and so cover no outcome.
    InvalidBet,
    /// The monetary amount is unusable (for the integer core: a scaled
    /// budget too large to bound the share search).
    InvalidAmount,
    /// Shared market state could not be locked; transient, safe to retry.
    StateUnavailable,
    /// A computation would overflow the fixed-point representation; the
    /// trade is rejected rather than committed with corrupted numbers.
    NumericInstability,
}

impl MarketError {
    /// A short human-readable name for the error.
    pub fn describe(&self) -> (r: &'static str)
        ensures
            r@ == match self {
                MarketError::InvalidBet => "invalid bet"@,
                MarketError::InvalidAmount => "invalid amount"@,
                MarketError::StateUnavailable => "state unavailable"@,
                MarketError::NumericInstability => "numeric instability"@,
            },
    {
        match self {
            MarketError::InvalidBet => "invalid bet",
            MarketError::InvalidAmount => "invalid amount",
            MarketError::StateUnavailable => "state unavailable",
            MarketError::NumericInstability => "numeric instability",
        }
    }
}

} // verus!
