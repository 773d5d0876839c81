//! Settlement: paying winners and purging the settled pool.
//!
//! Every position on the winning outcome of the pool is owed
//! `shares × rate`, where `rate` is the caller's redemption rate per
//! share. Resolution is a single atomic step on the store: compute the
//! payouts, then purge every position of the pool — winning or not.
//! Resolving a pool that was already settled finds no positions, pays
//! nothing, and never errs.
//!
//! The flat per-share redemption rate deliberately mirrors the market's
//! simplified settlement rule; it does not discount by the resolved
//! outcome's price.

use vstd::prelude::*;

use crate::errors::MarketError;
use crate::positions::{
    pool_entries, position_models, purged_entries, winning_entries, PositionModel, PositionStore,
};
use crate::responses::{Payout, ResolveRequest, ResolveResponse};

verus! {

/// The payouts owed to a list of winning entries: one
/// `(wallet, shares × rate)` pair per entry, in order. Exact whenever
/// the amounts fit in the fixed-point range (see [`total_payout_of`]).
pub open spec fn payout_models(winners: Seq<PositionModel>, rate: u64) -> Seq<(Seq<char>, u64)>
    decreases winners.len(),
{
    if winners.len() == 0 {
        Seq::empty()
    } else {
        payout_models(winners.drop_last(), rate).push(
            (winners.last().0, (winners.last().3 * rate) as u64),
        )
    }
}

/// The exact total owed, as an unbounded integer.
pub open spec fn total_payout_of(winners: Seq<PositionModel>, rate: u64) -> int
    decreases winners.len(),
{
    if winners.len() == 0 {
        0
    } else {
        total_payout_of(winners.drop_last(), rate) + winners.last().3 * rate
    }
}

/// Pays every winning position of `pool_id` at `rate` per share and
/// purges all of the pool's positions. Fails — leaving the store
/// untouched — exactly when the true total would overflow the
/// fixed-point range.
pub fn resolve_pool(
    store: &mut PositionStore,
    pool_id: u64,
    winning_outcome: u8,
    rate: u64,
) -> (r: Result<(Vec<Payout>, u64), MarketError>)
    requires
        old(store).wf(),
    ensures
        final(store).wf(),
        r is Ok <==> total_payout_of(
            winning_entries(old(store)@, pool_id, winning_outcome),
            rate,
        ) <= u64::MAX,
        r matches Ok(pt) ==> ({
            &&& pt.0@.map_values(|p: Payout| p@) == payout_models(
                winning_entries(old(store)@, pool_id, winning_outcome),
                rate,
            )
            &&& pt.1 as int == total_payout_of(
                winning_entries(old(store)@, pool_id, winning_outcome),
                rate,
            )
            &&& final(store)@ == purged_entries(old(store)@, pool_id)
        }),
        r matches Err(e) ==> e == MarketError::NumericInstability && final(store)@ == old(
            store,
        )@,
{
    let ghost wm = winning_entries(old(store)@, pool_id, winning_outcome);
    let winners = store.get_winning_positions(pool_id, winning_outcome);
    let n = winners.len();
    let mut payouts: Vec<Payout> = Vec::new();
    let mut total: u64 = 0;
    let mut i: usize = 0;
    proof {
        assert(wm.take(0) =~= Seq::<PositionModel>::empty());
        assert(payouts@.map_values(|p: Payout| p@) =~= payout_models(wm.take(0), rate));
    }
    while i < n
        invariant
            store.wf(),
            store@ == old(store)@,
            wm == winning_entries(old(store)@, pool_id, winning_outcome),
            position_models(winners@) == wm,
            n == winners@.len(),
            i <= n,
            payouts@.map_values(|p: Payout| p@) == payout_models(wm.take(i as int), rate),
            total as int == total_payout_of(wm.take(i as int), rate),
        decreases n - i,
    {
        proof {
            assert(wm.take(i + 1).drop_last() =~= wm.take(i as int));
            assert(wm.take(i + 1).last() == wm[i as int]);
            assert(winners@[i as int]@ == wm[i as int]);
        }
        let winner = &winners[i];
        let amount_opt = winner.shares.checked_mul(rate);
        let amount = match amount_opt {
            Some(a) => a,
            None => {
                proof {
                    lemma_total_nonneg(wm.take(i as int), rate);
                    assert(total_payout_of(wm.take(i + 1), rate) > u64::MAX);
                    lemma_total_prefix_le(wm, rate, i + 1);
                }
                return Err(MarketError::NumericInstability);
            },
        };
        let new_total_opt = total.checked_add(amount);
        let new_total = match new_total_opt {
            Some(t) => t,
            None => {
                proof {
                    assert(total_payout_of(wm.take(i + 1), rate) > u64::MAX);
                    lemma_total_prefix_le(wm, rate, i + 1);
                }
                return Err(MarketError::NumericInstability);
            },
        };
        let ghost prev = payouts@;
        payouts.push(Payout { user: winner.wallet.clone(), amount });
        total = new_total;
        proof {
            assert(payouts@.map_values(|p: Payout| p@) =~= prev.map_values(
                |p: Payout| p@,
            ).push((wm[i as int].0, (wm[i as int].3 * rate) as u64)));
        }
        i += 1;
    }
    proof {
        assert(wm.take(n as int) =~= wm);
    }
    store.clear_pool(pool_id);
    Ok((payouts, total))
}

/// Resolves a pool as one atomic settlement step and reports the
/// payouts; the response echoes the request and carries one payout per
/// winning position, in store order, with their exact total.
pub fn resolve_market(
    store: &mut PositionStore,
    request: &ResolveRequest,
    rate: u64,
) -> (r: Result<ResolveResponse, MarketError>)
    requires
        old(store).wf(),
    ensures
        final(store).wf(),
        r is Ok <==> total_payout_of(
            winning_entries(old(store)@, request.pool_id, request.winning_outcome),
            rate,
        ) <= u64::MAX,
        r matches Ok(resp) ==> ({
            &&& resp.success == true
            &&& resp.pool_id == request.pool_id
            &&& resp.winning_outcome == request.winning_outcome
            &&& resp.payouts@.map_values(|p: Payout| p@) == payout_models(
                winning_entries(old(store)@, request.pool_id, request.winning_outcome),
                rate,
            )
            &&& resp.total_payout as int == total_payout_of(
                winning_entries(old(store)@, request.pool_id, request.winning_outcome),
                rate,
            )
            &&& final(store)@ == purged_entries(old(store)@, request.pool_id)
        }),
        r matches Err(e) ==> e == MarketError::NumericInstability && final(store)@ == old(
            store,
        )@,
{
    match resolve_pool(store, request.pool_id, request.winning_outcome, rate) {
        Ok((payouts, total_payout)) => Ok(
            ResolveResponse {
                success: true,
                pool_id: request.pool_id,
                winning_outcome: request.winning_outcome,
                payouts,
                total_payout,
            },
        ),
        Err(e) => Err(e),
    }
}

/// Settling is idempotent: once a pool is purged, a second resolution
/// finds no winning positions, owes an empty payout list with total `0`,
/// and position queries on the pool come back empty.
pub proof fn lemma_settled_pool_stays_settled(
    s: Seq<PositionModel>,
    pool_id: u64,
    winning_outcome: u8,
    rate: u64,
)
    ensures
        winning_entries(purged_entries(s, pool_id), pool_id, winning_outcome) == Seq::<
            PositionModel,
        >::empty(),
        pool_entries(purged_entries(s, pool_id), pool_id) == Seq::<PositionModel>::empty(),
        payout_models(
            winning_entries(purged_entries(s, pool_id), pool_id, winning_outcome),
            rate,
        ) == Seq::<(Seq<char>, u64)>::empty(),
        total_payout_of(
            winning_entries(purged_entries(s, pool_id), pool_id, winning_outcome),
            rate,
        ) == 0,
    decreases s.len(),
{
    if s.len() == 0 {
        assert(purged_entries(s, pool_id) =~= Seq::<PositionModel>::empty());
    } else {
        lemma_settled_pool_stays_settled(s.drop_last(), pool_id, winning_outcome, rate);
        let p = purged_entries(s, pool_id);
        let pd = purged_entries(s.drop_last(), pool_id);
        if s.last().1 != pool_id {
            assert(p == pd.push(s.last()));
            assert(p.drop_last() =~= pd);
            assert(winning_entries(p, pool_id, winning_outcome) == winning_entries(
                pd,
                pool_id,
                winning_outcome,
            ));
            assert(pool_entries(p, pool_id) == pool_entries(pd, pool_id));
        } else {
            assert(p == pd);
        }
    }
}

/// The total owed is never negative.
proof fn lemma_total_nonneg(winners: Seq<PositionModel>, rate: u64)
    ensures
        total_payout_of(winners, rate) >= 0,
    decreases winners.len(),
{
    if winners.len() > 0 {
        lemma_total_nonneg(winners.drop_last(), rate);
        vstd::arithmetic::mul::lemma_mul_nonnegative(winners.last().3 as int, rate as int);
    }
}

/// A prefix of the winners is owed no more than all of them.
proof fn lemma_total_prefix_le(winners: Seq<PositionModel>, rate: u64, i: int)
    requires
        0 <= i <= winners.len(),
    ensures
        total_payout_of(winners.take(i), rate) <= total_payout_of(winners, rate),
    decreases winners.len(),
{
    if i == winners.len() {
        assert(winners.take(i) =~= winners);
    } else {
        assert(winners.take(i) =~= winners.drop_last().take(i));
        lemma_total_prefix_le(winners.drop_last(), rate, i);
        vstd::arithmetic::mul::lemma_mul_nonnegative(winners.last().3 as int, rate as int);
    }
}

} // verus!
