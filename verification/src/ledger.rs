//! The market ledger: the stateful core that applies trades.
//!
//! One ledger holds, for every pool it serves, the open positions, the
//! commitment log and the commitment nonce. Applying a trade is a single
//! read-compute-write step on `&mut self`: resolve the bet to its world
//! set, credit the bettor's position on every covered world, advance the
//! nonce and issue the commitment. The caller that shares a ledger
//! between threads wraps it in one exclusive lock and holds that lock
//! for the whole call, so no trade can observe another's intermediate
//! state.
//!
//! Prices are not computed here: the continuous cost function runs
//! outside the core and its fixed-point results only pass through.

use vstd::arithmetic::power2::{lemma2_to64, lemma_pow2_strictly_increases, pow2};
use vstd::prelude::*;

use crate::commitments::{commitment_digest, compute_commitment, world_models, CommitmentLog};
use crate::errors::MarketError;
use crate::outcomes::{bet_worlds, lists_world_set, BetType};
use crate::positions::{
    keys_distinct, pool_entries, shares_at, Position, PositionModel, PositionStore,
};
use crate::responses::{PositionResponse, ResolveRequest, ResolveResponse};

verus! {

/// The most events one ledger can track: a world index must fit the
/// 8-bit outcome field of a position entry.
pub const MAX_LEDGER_EVENTS: usize = 8;

/// What a successfully applied trade hands back: the worlds the bet
/// covered, in increasing order, and the hex commitment digest issued
/// for it.
#[derive(Debug, Clone)]
pub struct TradeReceipt {
    /// The world indices the bet covered.
    pub worlds: Vec<usize>,
    /// The hex digest binding the trade's parameters.
    pub commitment: String,
}

/// The stateful core of one market: positions, commitments and the
/// commitment nonce.
#[derive(Debug)]
pub struct MarketLedger {
    positions: PositionStore,
    commitments: CommitmentLog,
    nonce: u64,
    num_events: usize,
}

impl MarketLedger {
    /// The open positions, as `(wallet, pool, outcome, shares)` models.
    pub closed spec fn positions_model(self) -> Seq<PositionModel> {
        self.positions@
    }

    /// The issued commitments, as `(wallet, digest)` models, in issue
    /// order.
    pub closed spec fn commitments_model(self) -> Seq<(Seq<char>, Seq<char>)> {
        self.commitments@
    }

    /// The commitment nonce: the number of commitments issued so far.
    pub closed spec fn nonce_model(self) -> u64 {
        self.nonce
    }

    /// The number of binary events the ledger's markets track.
    pub closed spec fn events_model(self) -> nat {
        self.num_events as nat
    }

    /// The ledger's invariant: positions keyed uniquely, and few enough
    /// events that a world index fits an outcome byte.
    pub open spec fn wf(self) -> bool {
        &&& keys_distinct(self.positions_model())
        &&& self.events_model() <= MAX_LEDGER_EVENTS as nat
    }

    /// A fresh ledger for markets of `num_events` binary events, with no
    /// positions and no commitments.
    pub fn new(num_events: usize) -> (ledger: Self)
        requires
            num_events <= MAX_LEDGER_EVENTS,
        ensures
            ledger.wf(),
            ledger.positions_model() == Seq::<PositionModel>::empty(),
            ledger.commitments_model() == Seq::<(Seq<char>, Seq<char>)>::empty(),
            ledger.nonce_model() == 0,
            ledger.events_model() == num_events as nat,
    {
        MarketLedger {
            positions: PositionStore::new(),
            commitments: CommitmentLog::new(),
            nonce: 0,
            num_events,
        }
    }

    /// The number of binary events the ledger's markets track.
    pub fn num_events(&self) -> (r: usize)
        ensures
            r as nat == self.events_model(),
    {
        self.num_events
    }

    /// The commitment nonce: how many commitments were issued so far,
    /// and what a caller may check before asking for one more.
    pub fn current_nonce(&self) -> (r: u64)
        ensures
            r == self.nonce_model(),
    {
        self.nonce
    }

    /// The shares `user` holds on `world` in `pool_id`: what the user
    /// wins per redemption unit if `world` comes true.
    pub fn get_winning_shares(&self, user: &String, pool_id: u64, world: u8) -> (r: u64)
        requires
            self.wf(),
        ensures
            r == shares_at(self.positions_model(), user@, pool_id, world),
    {
        self.positions.get_shares(user, pool_id, world)
    }

    /// Every position of `pool_id`, in first-trade order.
    pub fn get_positions_for_pool(&self, pool_id: u64) -> (r: Vec<Position>)
        ensures
            crate::positions::position_models(r@) == pool_entries(self.positions_model(), pool_id),
    {
        self.positions.get_positions_for_pool(pool_id)
    }

    /// Every open position, in first-trade order.
    pub fn get_all_positions(&self) -> (r: Vec<Position>)
        ensures
            crate::positions::position_models(r@) == self.positions_model(),
    {
        self.positions.get_all_positions()
    }

    /// One user's open positions in a pool, as a transportable response:
    /// `(world, shares)` pairs in first-trade order.
    pub fn position_response(&self, user: &String, pool_id: u64) -> (r: PositionResponse)
        ensures
            r.user@ == user@,
            r.positions@ == crate::positions::user_pool_pairs(
                self.positions_model(),
                user@,
                pool_id,
            ),
    {
        PositionResponse {
            user: user.clone(),
            positions: self.positions.get_user_pool_pairs(user, pool_id),
        }
    }

    /// Settles one pool as a single atomic step: pays every winning
    /// position at `rate` per share and purges the pool, positions on
    /// losing outcomes included. Fails — changing nothing — exactly
    /// when the true total would overflow the fixed-point range; a pool
    /// already settled resolves again to an empty payout list and a
    /// zero total, never an error.
    pub fn resolve_market(&mut self, request: &ResolveRequest, rate: u64) -> (r: Result<
        ResolveResponse,
        MarketError,
    >)
        requires
            old(self).wf(),
        ensures
            final(self).wf(),
            final(self).events_model() == old(self).events_model(),
            final(self).nonce_model() == old(self).nonce_model(),
            final(self).commitments_model() == old(self).commitments_model(),
            r is Ok <==> crate::settle::total_payout_of(
                crate::positions::winning_entries(
                    old(self).positions_model(),
                    request.pool_id,
                    request.winning_outcome,
                ),
                rate,
            ) <= u64::MAX,
            r matches Ok(resp) ==> ({
                &&& resp.success == true
                &&& resp.pool_id == request.pool_id
                &&& resp.winning_outcome == request.winning_outcome
                &&& resp.payouts@.map_values(|p: crate::responses::Payout| p@)
                    == crate::settle::payout_models(
                    crate::positions::winning_entries(
                        old(self).positions_model(),
                        request.pool_id,
                        request.winning_outcome,
                    ),
                    rate,
                )
                &&& resp.total_payout as int == crate::settle::total_payout_of(
                    crate::positions::winning_entries(
                        old(self).positions_model(),
                        request.pool_id,
                        request.winning_outcome,
                    ),
                    rate,
                )
                &&& final(self).positions_model() == crate::positions::purged_entries(
                    old(self).positions_model(),
                    request.pool_id,
                )
            }),
            r matches Err(e) ==> e == MarketError::NumericInstability
                && final(self).positions_model() == old(self).positions_model(),
    {
        crate::settle::resolve_market(&mut self.positions, request, rate)
    }

    /// Whether `commitment` was ever issued to `user`.
    pub fn verify_commitment(&self, user: &str, commitment: &str) -> (r: bool)
        ensures
            r == self.commitments_model().contains((user@, commitment@)),
    {
        self.commitments.contains_commitment(user, commitment)
    }

    /// Advances the nonce and issues the commitment digest for a trade's
    /// parameters, appending it to the log. The strictly increasing
    /// nonce makes the digest unique even across bit-identical repeated
    /// trades.
    pub fn generate_commitment(&mut self, user: &str, worlds: &Vec<usize>, shares: u64) -> (r:
        String)
        requires
            old(self).nonce_model() < u64::MAX,
        ensures
            r@ == commitment_digest(
                user@,
                world_models(worlds@),
                shares,
                (old(self).nonce_model() + 1) as u64,
            ),
            final(self).nonce_model() == old(self).nonce_model() + 1,
            final(self).commitments_model() == old(self).commitments_model().push((user@, r@)),
            final(self).positions_model() == old(self).positions_model(),
            final(self).events_model() == old(self).events_model(),
    {
        self.nonce = self.nonce + 1;
        let commitment = compute_commitment(user, worlds, shares, self.nonce);
        let receipt = commitment.clone();
        self.commitments.record(user, commitment);
        receipt
    }

    /// Applies one trade atomically: resolves `bet` to its covered
    /// worlds, credits `shares` to the bettor's position on every one of
    /// them, advances the nonce and issues a commitment.
    ///
    /// Returns `InvalidBet` when the bet is malformed or covers no world
    /// (contradictory slice conditions), and `NumericInstability` when a
    /// credited position or the nonce would leave the fixed-point range;
    /// in both cases the ledger is left exactly as it was.
    #[verifier::loop_isolation(false)]
    pub fn apply_trade(&mut self, user: &String, pool_id: u64, bet: &BetType, shares: u64) -> (r:
        Result<TradeReceipt, MarketError>)
        requires
            old(self).wf(),
        ensures
            final(self).wf(),
            final(self).events_model() == old(self).events_model(),
            r is Ok <==> trade_accepted(*old(self), user@, pool_id, *bet, shares),
            r matches Ok(receipt) ==> ({
                let n = old(self).events_model();
                let covered = bet.covered_worlds(n);
                let nonce = (old(self).nonce_model() + 1) as u64;
                &&& lists_world_set(receipt.worlds@, covered)
                &&& forall|w: Seq<char>, p: u64, o: u8|
                    #[trigger] shares_at(final(self).positions_model(), w, p, o) == if w == user@
                        && p == pool_id && covered.contains(o as int) {
                        (shares_at(old(self).positions_model(), user@, pool_id, o) + shares) as u64
                    } else {
                        shares_at(old(self).positions_model(), w, p, o)
                    }
                &&& receipt.commitment@ == commitment_digest(
                    user@,
                    world_models(receipt.worlds@),
                    shares,
                    nonce,
                )
                &&& final(self).nonce_model() == nonce
                &&& final(self).commitments_model() == old(self).commitments_model().push(
                    (user@, receipt.commitment@),
                )
            }),
            r matches Err(e) ==> ({
                &&& final(self).positions_model() == old(self).positions_model()
                &&& final(self).commitments_model() == old(self).commitments_model()
                &&& final(self).nonce_model() == old(self).nonce_model()
                &&& (e == MarketError::InvalidBet <==> (!bet.wf(old(self).events_model())
                    || bet.covered_worlds(old(self).events_model()).is_empty()))
                &&& (e == MarketError::InvalidBet || e == MarketError::NumericInstability)
            }),
    {
        let ghost n = self.events_model();
        let ghost covered = bet.covered_worlds(n);
        let ghost pos0 = self.positions_model();
        let worlds = match bet_worlds(bet, self.num_events) {
            Ok(w) => w,
            Err(e) => {
                return Err(e);
            },
        };
        if worlds.is_empty() {
            proof {
                assert forall|w: int| !covered.contains(w) by {
                    if covered.contains(w) {
                        lemma_covered_bounded(*bet, n, w);
                        lemma2_to64();
                        if n < 8 {
                            lemma_pow2_strictly_increases(n, 8);
                        }
                        assert(0 <= w < 256);
                        assert(((w as usize) as int) == w);
                        assert(worlds@.contains(w as usize));
                    }
                }
                assert(covered =~= Set::<int>::empty());
            }
            return Err(MarketError::InvalidBet);
        }
        proof {
            assert(covered.contains(worlds@[0] as int));
            assert(!covered.is_empty());
        }
        if self.nonce == u64::MAX {
            return Err(MarketError::NumericInstability);
        }
        // Pre-check every credited position against the fixed-point
        // range, so that the mutation below cannot fail half-way.
        let count = worlds.len();
        let mut i: usize = 0;
        while i < count
            invariant
                i <= count,
                forall|k: int|
                    0 <= k < i ==> shares_at(pos0, user@, pool_id, #[trigger] worlds@[k] as u8)
                        + shares <= u64::MAX,
            decreases count - i,
        {
            proof {
                lemma_covered_bounded(*bet, n, worlds@[i as int] as int);
                lemma_worlds_fit_u8(n, worlds@[i as int]);
            }
            let current = self.positions.get_shares(user, pool_id, (worlds[i] as u8));
            if current > u64::MAX - shares {
                return Err(MarketError::NumericInstability);
            }
            i += 1;
        }
        // Commit: credit every covered world, then issue the commitment.
        proof {
            assert forall|j: int| 0 <= j < worlds@.len() implies (#[trigger] worlds@[j] as nat)
                < pow2(n) by {
                assert(covered.contains(worlds@[j] as int));
                lemma_covered_bounded(*bet, n, worlds@[j] as int);
            }
        }
        let mut k: usize = 0;
        while k < count
            invariant
                self.wf(),
                k <= count,
                self.events_model() == old(self).events_model(),
                self.nonce_model() == old(self).nonce_model(),
                self.commitments_model() == old(self).commitments_model(),
                forall|w: Seq<char>, p: u64, o: u8|
                    #[trigger] shares_at(self.positions_model(), w, p, o) == if w == user@ && p
                        == pool_id && world_processed(worlds@, k as int, o) {
                        (shares_at(pos0, user@, pool_id, o) + shares) as u64
                    } else {
                        shares_at(pos0, w, p, o)
                    },
            decreases count - k,
        {
            proof {
                lemma_worlds_fit_u8(n, worlds@[k as int]);
                assert(!world_processed(worlds@, k as int, worlds@[k as int] as u8)) by {
                    if world_processed(worlds@, k as int, worlds@[k as int] as u8) {
                        let j = choose|j: int|
                            0 <= j < k && (#[trigger] worlds@[j] as u8) == worlds@[k as int] as u8;
                        assert(worlds@[j] < worlds@[k as int]);
                        assert((worlds@[j] as nat) < pow2(n));
                        lemma_worlds_fit_u8(n, worlds@[j]);
                    }
                }
            }
            let ghost before = self.positions_model();
            self.positions.add_position(user.clone(), pool_id, (worlds[k] as u8), shares);
            proof {
                assert forall|w: Seq<char>, p: u64, o: u8|
                    #[trigger] shares_at(self.positions_model(), w, p, o) == if w == user@ && p
                        == pool_id && world_processed(worlds@, k + 1, o) {
                        (shares_at(pos0, user@, pool_id, o) + shares) as u64
                    } else {
                        shares_at(pos0, w, p, o)
                    } by {
                    if w == user@ && p == pool_id {
                        if o == worlds@[k as int] as u8 {
                            assert(world_processed(worlds@, k + 1, o));
                        } else {
                            if world_processed(worlds@, k + 1, o) {
                                let j = choose|j: int|
                                    0 <= j < k + 1 && (#[trigger] worlds@[j] as u8) == o;
                                assert(j < k);
                                assert(world_processed(worlds@, k as int, o));
                            }
                            if world_processed(worlds@, k as int, o) {
                                let j = choose|j: int|
                                    0 <= j < k && (#[trigger] worlds@[j] as u8) == o;
                                assert(0 <= j < k + 1 && (worlds@[j] as u8) == o);
                                assert(world_processed(worlds@, k + 1, o));
                            }
                        }
                    }
                }
            }
            k += 1;
        }
        let commitment = self.generate_commitment(user.as_str(), &worlds, shares);
        proof {
            assert forall|w: Seq<char>, p: u64, o: u8|
                #[trigger] shares_at(self.positions_model(), w, p, o) == if w == user@ && p
                    == pool_id && covered.contains(o as int) {
                    (shares_at(pos0, user@, pool_id, o) + shares) as u64
                } else {
                    shares_at(pos0, w, p, o)
                } by {
                lemma_processed_is_covered(*bet, n, worlds@, o);
            }
            assert(trade_accepted(*old(self), user@, pool_id, *bet, shares)) by {
                assert forall|o: u8| covered.contains(o as int) implies shares_at(
                    pos0,
                    user@,
                    pool_id,
                    o,
                ) + shares <= u64::MAX by {
                    assert(covered.contains(((o as int) as usize) as int));
                    assert(worlds@.contains((o as int) as usize));
                    let j = choose|j: int|
                        0 <= j < worlds@.len() && worlds@[j] == (o as int) as usize;
                    assert(shares_at(pos0, user@, pool_id, worlds@[j] as u8) + shares
                        <= u64::MAX);
                    lemma_worlds_fit_u8(n, worlds@[j]);
                }
            }
        }
        Ok(TradeReceipt { worlds, commitment })
    }
}

/// A trade is accepted exactly when the bet is well-formed, covers at
/// least one world, and neither a credited position nor the nonce would
/// leave the fixed-point range.
pub open spec fn trade_accepted(
    ledger: MarketLedger,
    user: Seq<char>,
    pool_id: u64,
    bet: BetType,
    shares: u64,
) -> bool {
    let n = ledger.events_model();
    let covered = bet.covered_worlds(n);
    &&& bet.wf(n)
    &&& !covered.is_empty()
    &&& ledger.nonce_model() < u64::MAX
    &&& forall|o: u8|
        covered.contains(o as int) ==> shares_at(
            ledger.positions_model(),
            user,
            pool_id,
            o,
        ) + shares <= u64::MAX
}

/// Whether outcome byte `o` is among the first `k` listed worlds.
pub open spec fn world_processed(worlds: Seq<usize>, k: int, o: u8) -> bool {
    exists|j: int| 0 <= j < k && (#[trigger] worlds[j] as u8) == o
}

/// Every covered world lies in the outcome space.
proof fn lemma_covered_bounded(bet: BetType, n: nat, w: int)
    requires
        bet.wf(n),
        bet.covered_worlds(n).contains(w),
    ensures
        0 <= w < pow2(n),
{
    match bet {
        BetType::Marginal { event, yes } => {},
        BetType::Slice { conditions } => {},
        BetType::Corner { world } => {
            assert(w == world as int);
        },
    }
}

/// With at most [`MAX_LEDGER_EVENTS`] events, a world index fits the
/// 8-bit outcome field: casting it to a byte and back loses nothing.
proof fn lemma_worlds_fit_u8(n: nat, w: usize)
    requires
        n <= MAX_LEDGER_EVENTS as nat,
        (w as nat) < pow2(n),
    ensures
        w < 256,
        (w as u8) as usize == w,
        (w as u8) as int == w as int,
{
    lemma2_to64();
    if n < 8 {
        lemma_pow2_strictly_increases(n, 8);
    }
    assert(pow2(8) == 256);
}

/// After every listed world is processed, the processed outcome bytes
/// are exactly the covered worlds.
proof fn lemma_processed_is_covered(bet: BetType, n: nat, worlds: Seq<usize>, o: u8)
    requires
        bet.wf(n),
        n <= MAX_LEDGER_EVENTS as nat,
        lists_world_set(worlds, bet.covered_worlds(n)),
    ensures
        world_processed(worlds, worlds.len() as int, o) <==> bet.covered_worlds(n).contains(
            o as int,
        ),
{
    let covered = bet.covered_worlds(n);
    if world_processed(worlds, worlds.len() as int, o) {
        let j = choose|j: int| 0 <= j < worlds.len() && (#[trigger] worlds[j] as u8) == o;
        assert(covered.contains(worlds[j] as int));
        lemma_covered_bounded(bet, n, worlds[j] as int);
        lemma_worlds_fit_u8(n, worlds[j]);
        assert(worlds[j] as int == o as int);
    }
    if covered.contains(o as int) {
        assert(worlds.contains((o as int) as usize)) by {
            assert(covered.contains(((o as int) as usize) as int));
        }
        let j = choose|j: int| 0 <= j < worlds.len() && worlds[j] == (o as int) as usize;
        assert((worlds[j] as u8) == o);
        assert(world_processed(worlds, worlds.len() as int, o));
    }
}

} // verus!
