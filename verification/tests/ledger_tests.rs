use sha2::Digest;

use lmsr_market::errors::MarketError;
use lmsr_market::ledger::MarketLedger;
use lmsr_market::outcomes::BetType;
use lmsr_market::positions::PositionStore;

#[test]
fn new_store_is_empty() {
    let store = PositionStore::new();
    assert!(store.get_all_positions().is_empty());
    let defaulted = PositionStore::default();
    assert!(defaulted.get_all_positions().is_empty());
}

#[test]
fn positions_accumulate_per_key() {
    let mut store = PositionStore::new();
    store.add_position("alice".to_string(), 1, 3, 100);
    store.add_position("alice".to_string(), 1, 3, 50);
    store.add_position("alice".to_string(), 2, 3, 7);
    store.add_position("bob".to_string(), 1, 3, 9);

    assert_eq!(store.get_shares(&"alice".to_string(), 1, 3), 150);
    assert_eq!(store.get_shares(&"alice".to_string(), 2, 3), 7);
    assert_eq!(store.get_shares(&"bob".to_string(), 1, 3), 9);
    assert_eq!(store.get_shares(&"bob".to_string(), 2, 3), 0);
    assert_eq!(store.get_all_positions().len(), 3);
}

#[test]
fn winning_positions_filter_by_pool_and_outcome() {
    let mut store = PositionStore::new();
    store.add_position("alice".to_string(), 1, 3, 100);
    store.add_position("bob".to_string(), 1, 4, 200);
    store.add_position("carol".to_string(), 2, 3, 300);
    store.add_position("dan".to_string(), 1, 3, 400);

    let winners = store.get_winning_positions(1, 3);
    assert_eq!(winners.len(), 2);
    assert_eq!(winners[0].wallet, "alice");
    assert_eq!(winners[0].shares, 100);
    assert_eq!(winners[1].wallet, "dan");
    assert_eq!(winners[1].shares, 400);

    let pool = store.get_positions_for_pool(1);
    assert_eq!(pool.len(), 3);
}

#[test]
fn clear_pool_purges_only_that_pool() {
    let mut store = PositionStore::new();
    store.add_position("alice".to_string(), 1, 3, 100);
    store.add_position("bob".to_string(), 2, 3, 200);
    store.clear_pool(1);
    assert!(store.get_positions_for_pool(1).is_empty());
    let rest = store.get_all_positions();
    assert_eq!(rest.len(), 1);
    assert_eq!(rest[0].wallet, "bob");
    assert_eq!(rest[0].pool_id, 2);
}

#[test]
fn corner_trade_credits_one_world() {
    let mut ledger = MarketLedger::new(3);
    let user = "alice".to_string();
    let receipt = ledger
        .apply_trade(&user, 1, &BetType::Corner { world: 3 }, 500)
        .unwrap();
    assert_eq!(receipt.worlds, vec![3]);
    assert_eq!(ledger.get_winning_shares(&user, 1, 3), 500);
    assert_eq!(ledger.get_winning_shares(&user, 1, 2), 0);
    assert!(ledger.verify_commitment("alice", &receipt.commitment));
    assert!(!ledger.verify_commitment("bob", &receipt.commitment));
    assert!(!ledger.verify_commitment("alice", "deadbeef"));
}

#[test]
fn marginal_trade_credits_every_covered_world() {
    let mut ledger = MarketLedger::new(3);
    let user = "bettor".to_string();
    let receipt = ledger
        .apply_trade(&user, 9, &BetType::Marginal { event: 1, yes: false }, 25)
        .unwrap();
    assert_eq!(receipt.worlds, vec![0, 1, 4, 5]);
    for world in [0u8, 1, 4, 5] {
        assert_eq!(ledger.get_winning_shares(&user, 9, world), 25);
    }
    for world in [2u8, 3, 6, 7] {
        assert_eq!(ledger.get_winning_shares(&user, 9, world), 0);
    }
}

#[test]
fn unsatisfiable_or_malformed_trades_change_nothing() {
    let mut ledger = MarketLedger::new(3);
    let user = "alice".to_string();

    let contradictory = BetType::Slice { conditions: vec![(0, true), (0, false)] };
    assert_eq!(
        ledger.apply_trade(&user, 1, &contradictory, 10).unwrap_err(),
        MarketError::InvalidBet
    );

    let out_of_range = BetType::Corner { world: 8 };
    assert_eq!(
        ledger.apply_trade(&user, 1, &out_of_range, 10).unwrap_err(),
        MarketError::InvalidBet
    );

    assert!(ledger.get_all_positions().is_empty());
    assert!(!ledger.verify_commitment("alice", ""));
}

#[test]
fn overflowing_position_is_rejected_atomically() {
    let mut ledger = MarketLedger::new(3);
    let user = "whale".to_string();
    ledger
        .apply_trade(&user, 1, &BetType::Corner { world: 0 }, u64::MAX - 10)
        .unwrap();
    let err = ledger
        .apply_trade(&user, 1, &BetType::Corner { world: 0 }, 11)
        .unwrap_err();
    assert_eq!(err, MarketError::NumericInstability);
    // The failed trade left everything untouched.
    assert_eq!(ledger.get_winning_shares(&user, 1, 0), u64::MAX - 10);
    assert_eq!(ledger.get_all_positions().len(), 1);
}

#[test]
fn commitment_digest_matches_the_documented_message() {
    let mut ledger = MarketLedger::new(3);
    let user = "alice".to_string();
    let receipt = ledger
        .apply_trade(&user, 1, &BetType::Corner { world: 6 }, 777)
        .unwrap();

    // First trade, so the nonce is 1. The message is: user bytes, world
    // count, each world, shares, nonce, all numbers little-endian u64.
    let mut message: Vec<u8> = Vec::new();
    message.extend_from_slice("alice".as_bytes());
    message.extend_from_slice(&1u64.to_le_bytes());
    message.extend_from_slice(&6u64.to_le_bytes());
    message.extend_from_slice(&777u64.to_le_bytes());
    message.extend_from_slice(&1u64.to_le_bytes());
    let expected = hex::encode(sha2::Sha256::digest(&message));
    assert_eq!(receipt.commitment, expected);
    assert_eq!(receipt.commitment.len(), 64);
}

#[test]
fn repeated_identical_trades_commit_differently() {
    let mut ledger = MarketLedger::new(3);
    let user = "alice".to_string();
    let first = ledger
        .apply_trade(&user, 1, &BetType::Corner { world: 2 }, 10)
        .unwrap();
    let second = ledger
        .apply_trade(&user, 1, &BetType::Corner { world: 2 }, 10)
        .unwrap();
    // The strictly increasing nonce separates bit-identical trades.
    assert_ne!(first.commitment, second.commitment);
    assert!(ledger.verify_commitment("alice", &first.commitment));
    assert!(ledger.verify_commitment("alice", &second.commitment));
    assert_eq!(ledger.get_winning_shares(&user, 1, 2), 20);
}

#[test]
fn generate_commitment_appends_to_the_log() {
    let mut ledger = MarketLedger::new(3);
    let digest = ledger.generate_commitment("carol", &vec![1, 2], 5);
    assert_eq!(digest.len(), 64);
    assert!(ledger.verify_commitment("carol", &digest));
    assert!(!ledger.verify_commitment("carl", &digest));
    assert_eq!(ledger.num_events(), 3);
}
