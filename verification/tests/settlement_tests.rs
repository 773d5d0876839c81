use lmsr_market::errors::MarketError;
use lmsr_market::positions::PositionStore;
use lmsr_market::responses::ResolveRequest;
use lmsr_market::settle::{resolve_market, resolve_pool};
use lmsr_market::sizer::OrderSizer;

#[test]
fn two_winners_paid_at_unit_rate() {
    // Two users hold winning positions of 1000 and 2000 scaled shares;
    // at one unit per share the pool owes 3000 in total.
    let mut store = PositionStore::new();
    store.add_position("alice".to_string(), 7, 2, 1000);
    store.add_position("bob".to_string(), 7, 2, 2000);
    store.add_position("carol".to_string(), 7, 5, 400);

    let (payouts, total) = resolve_pool(&mut store, 7, 2, 1).unwrap();
    assert_eq!(total, 3000);
    assert_eq!(payouts.len(), 2);
    assert_eq!(payouts[0].user, "alice");
    assert_eq!(payouts[0].amount, 1000);
    assert_eq!(payouts[1].user, "bob");
    assert_eq!(payouts[1].amount, 2000);

    // The whole pool is purged, losing positions included.
    assert!(store.get_positions_for_pool(7).is_empty());
}

#[test]
fn resolving_twice_pays_nothing_the_second_time() {
    let mut store = PositionStore::new();
    store.add_position("alice".to_string(), 3, 1, 500);
    store.add_position("bob".to_string(), 3, 0, 800);
    store.add_position("carol".to_string(), 4, 1, 900);

    let (payouts, total) = resolve_pool(&mut store, 3, 1, 1000).unwrap();
    assert_eq!(total, 500_000);
    assert_eq!(payouts.len(), 1);
    assert!(store.get_positions_for_pool(3).is_empty());

    // Second resolution of the same pool: empty payout list, zero total,
    // no error; the other pool is untouched.
    let (payouts, total) = resolve_pool(&mut store, 3, 1, 1000).unwrap();
    assert!(payouts.is_empty());
    assert_eq!(total, 0);
    assert_eq!(store.get_positions_for_pool(4).len(), 1);
}

#[test]
fn per_share_rate_scales_the_payout() {
    // A winning position of 5 shares at 1000 units per share: the
    // redemption convention of one USDC-scaled unit per whole share.
    let mut store = PositionStore::new();
    store.add_position("alice".to_string(), 1, 0, 5);
    let (payouts, total) = resolve_pool(&mut store, 1, 0, 1000).unwrap();
    assert_eq!(total, 5000);
    assert_eq!(payouts[0].amount, 5000);
}

#[test]
fn overflowing_settlement_is_rejected_and_keeps_the_pool() {
    let mut store = PositionStore::new();
    store.add_position("whale".to_string(), 1, 0, u64::MAX);
    let err = resolve_pool(&mut store, 1, 0, 2).unwrap_err();
    assert_eq!(err, MarketError::NumericInstability);
    // Nothing was purged: the pool can still be settled at a sane rate.
    assert_eq!(store.get_positions_for_pool(1).len(), 1);
    let (_, total) = resolve_pool(&mut store, 1, 0, 1).unwrap();
    assert_eq!(total, u64::MAX);
}

#[test]
fn resolve_market_echoes_the_request() {
    let mut store = PositionStore::new();
    store.add_position("alice".to_string(), 11, 6, 42);
    let request = ResolveRequest { pool_id: 11, winning_outcome: 6 };
    let response = resolve_market(&mut store, &request, 3).unwrap();
    assert!(response.success);
    assert_eq!(response.pool_id, 11);
    assert_eq!(response.winning_outcome, 6);
    assert_eq!(response.total_payout, 126);
    assert_eq!(response.payouts.len(), 1);
    assert_eq!(response.payouts[0].user, "alice");
    assert_eq!(response.payouts[0].amount, 126);
}

#[test]
fn zero_budget_sizes_to_zero_shares() {
    let sizer = OrderSizer::new(0, 100).unwrap();
    assert_eq!(sizer.result(), 0);
}

#[test]
fn oversized_budget_is_an_invalid_amount() {
    let err = OrderSizer::new(u64::MAX, 2).unwrap_err();
    assert_eq!(err, MarketError::InvalidAmount);
}

#[test]
fn halving_steps_converge_from_any_starting_bracket() {
    // The bracket at least halves per step, so sixty-four steps bring
    // even the widest possible bracket below any positive tolerance.
    let mut sizer = OrderSizer::new(u64::MAX / 100, 100).unwrap();
    for step in 0..64 {
        if step == 20 {
            assert!(!sizer.converged(1));
        }
        let candidate = sizer.candidate();
        sizer.step(candidate < 123_456_789);
    }
    assert!(sizer.converged(1));
}

#[test]
fn same_bracket_larger_budget_never_fewer_shares() {
    // Both searches open the bracket [0, 1200]; against the same linear
    // cost, the larger budget settles on at least as many shares.
    let mut small = OrderSizer::new(40, 30).unwrap();
    let mut large = OrderSizer::new(60, 20).unwrap();
    for _ in 0..64 {
        let candidate = small.candidate();
        small.step(candidate < 40);
        let candidate = large.candidate();
        large.step(candidate < 60);
    }
    assert!(small.result() <= large.result());
    assert!(small.result() >= 39 && small.result() <= 40);
    assert!(large.result() >= 59 && large.result() <= 60);
}

#[test]
fn bisection_brackets_the_budget_against_a_linear_cost() {
    // With cost(x) = x and a budget of 10, fifty steps must land the
    // bracket on the root.
    let mut sizer = OrderSizer::new(10, 10).unwrap();
    for _ in 0..50 {
        let candidate = sizer.candidate();
        sizer.step(candidate < 10);
    }
    let shares = sizer.result();
    assert!(shares >= 9 && shares <= 10, "shares = {shares}");
}
