//! A verified core for a combinatorial prediction market priced by
//! Hanson's logarithmic market scoring rule (LMSR).
//!
//! The market tracks `N` independent binary events; an outcome (a "world")
//! is one complete assignment of truth values, indexed by an integer in
//! `[0, 2^N)`. This crate holds the discrete parts of the engine and proves
//! them correct: translating bet specifications into outcome-index sets,
//! recording positions and trade commitments, sizing orders by bisection,
//! and settling pools. The continuous cost-function evaluation runs in the
//! surrounding service on floating point and feeds this core plain
//! fixed-point integers.

pub mod commitments;
pub mod errors;
pub mod ledger;
pub mod outcomes;
pub mod positions;
pub mod responses;
pub mod settle;
pub mod sizer;
