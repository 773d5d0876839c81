//! Plain request and response shapes of the market's interface.
//!
//! These carry only fixed-point integers, strings and lists, so that the
//! surrounding service can serialize them for transport and on-chain
//! verification without the core knowing how.

use vstd::prelude::*;

verus! {

/// The intent under which a signed response is issued; the byte value
/// must match what the on-chain verifier expects.
#[derive(Debug, Clone, Copy, PartialEq, Eq, Structural)]
pub enum IntentScope {
    /// A bet was placed.
    PlaceBet,
    /// A pool was resolved and payouts computed.
    Resolve,
    /// A single user's claim against a resolved outcome; carried under
    /// the same scope byte as resolution.
    ClaimProof,
}

impl IntentScope {
    /// The scope's wire byte.
    pub fn scope_byte(&self) -> (r: u8)
        ensures
            r == match self {
                IntentScope::PlaceBet => 0u8,
                IntentScope::Resolve => 1u8,
                IntentScope::ClaimProof => 1u8,
            },
    {
        match self {
            IntentScope::PlaceBet => 0,
            IntentScope::Resolve => 1,
            IntentScope::ClaimProof => 1,
        }
    }
}

/// What a trade returns to the bettor.
#[derive(Debug, Clone)]
pub struct PlaceBetResponse {
    /// Shares bought, in the caller's share scale.
    pub shares: u64,
    /// The full updated price vector, in the caller's probability scale.
    pub new_prices: Vec<u64>,
    /// Hex-encoded commitment digest binding the trade.
    pub commitment: String,
    /// The world indices the bet covers.
    pub worlds: Vec<u8>,
}

/// A request to resolve one pool to a winning outcome.
#[derive(Debug, Clone)]
pub struct ResolveRequest {
    /// The pool being settled.
    pub pool_id: u64,
    /// The outcome that came true.
    pub winning_outcome: u8,
}

/// One winner's payout.
#[derive(Debug, Clone)]
pub struct Payout {
    /// The winner's wallet address.
    pub user: String,
    /// The amount owed, in the caller's money scale.
    pub amount: u64,
}

impl View for Payout {
    type V = (Seq<char>, u64);

    open spec fn view(&self) -> (Seq<char>, u64) {
        (self.user@, self.amount)
    }
}

/// What resolving a pool returns.
#[derive(Debug, Clone)]
pub struct ResolveResponse {
    /// Whether the resolution was carried out.
    pub success: bool,
    /// The pool that was settled.
    pub pool_id: u64,
    /// The outcome that came true.
    pub winning_outcome: u8,
    /// One entry per winning position, in store order.
    pub payouts: Vec<Payout>,
    /// The sum of all payout amounts.
    pub total_payout: u64,
}

/// A request for one user's open positions.
#[derive(Debug, Clone)]
pub struct GetPositionRequest {
    /// The wallet asked about.
    pub user: String,
}

/// One user's open positions.
#[derive(Debug, Clone)]
pub struct PositionResponse {
    /// The wallet asked about.
    pub user: String,
    /// `(world, shares)` pairs, in first-trade order.
    pub positions: Vec<(u8, u64)>,
}

/// A request for a claim proof after resolution.
#[derive(Debug, Clone)]
pub struct ClaimProofRequest {
    /// The claiming wallet.
    pub user: String,
    /// The world that came true.
    pub winning_world: usize,
}

/// A signed statement of what one user may claim.
#[derive(Debug, Clone)]
pub struct ClaimProofResponse {
    /// The claiming wallet.
    pub user: String,
    /// The world that came true.
    pub winning_world: u8,
    /// The user's winning shares, in the caller's share scale.
    pub shares: u64,
    /// The amount owed, in the caller's money scale.
    pub payout: u64,
    /// A commitment digest of the user's, for audit.
    pub commitment: String,
}

} // verus!
