use lmsr_market::errors::MarketError;
use lmsr_market::outcomes::{
    bet_worlds, marginal_worlds, parse_bet, slice_worlds, BetType, NUM_EVENTS, NUM_WORLDS,
};

#[test]
fn test_marginal_worlds() {
    // For 3 events, A=Yes should be worlds {4,5,6,7} (100,101,110,111 in binary)
    let worlds = marginal_worlds(0, true, 3);
    assert_eq!(worlds, vec![4, 5, 6, 7]);

    // A=No should be worlds {0,1,2,3}
    let worlds = marginal_worlds(0, false, 3);
    assert_eq!(worlds, vec![0, 1, 2, 3]);
}

#[test]
fn test_slice_worlds() {
    // A=Yes AND B=Yes should be worlds {6,7} (110, 111)
    let worlds = slice_worlds(&[(0, true), (1, true)], 3);
    assert_eq!(worlds, vec![6, 7]);
}

#[test]
fn test_bet_type_worlds() {
    // A=Yes should be worlds 4,5,6,7
    let bet = BetType::Marginal { event: 0, yes: true };
    assert_eq!(bet.get_worlds(), vec![4, 5, 6, 7]);

    // Corner world 6 (110)
    let bet = BetType::Corner { world: 6 };
    assert_eq!(bet.get_worlds(), vec![6]);
}

#[test]
fn marginal_partition_covers_every_world() {
    // Both halves of any event's marginal partition have 2^(N-1) worlds,
    // share none, and together cover all 2^N worlds.
    for num_events in 1..=6usize {
        let num_worlds = 1usize << num_events;
        for event in 0..num_events {
            let yes = marginal_worlds(event, true, num_events);
            let no = marginal_worlds(event, false, num_events);
            assert_eq!(yes.len(), num_worlds / 2);
            assert_eq!(no.len(), num_worlds / 2);
            let mut merged: Vec<usize> = yes.clone();
            merged.extend(no.iter().copied());
            merged.sort();
            let all: Vec<usize> = (0..num_worlds).collect();
            assert_eq!(merged, all);
            for w in &yes {
                assert!(!no.contains(w));
            }
        }
    }
}

#[test]
fn empty_slice_covers_full_outcome_space() {
    let worlds = slice_worlds(&[], 3);
    let all: Vec<usize> = (0..8).collect();
    assert_eq!(worlds, all);
    assert_eq!(NUM_WORLDS, 8);
    assert_eq!(NUM_EVENTS, 3);
}

#[test]
fn fully_constrained_slice_is_the_implied_corner() {
    // A=Yes, B=No, C=Yes pins world 101 in binary: index 5.
    let worlds = slice_worlds(&[(0, true), (1, false), (2, true)], 3);
    assert_eq!(worlds, vec![5]);

    // All three No pins world 0; all three Yes pins world 7.
    assert_eq!(slice_worlds(&[(0, false), (1, false), (2, false)], 3), vec![0]);
    assert_eq!(slice_worlds(&[(0, true), (1, true), (2, true)], 3), vec![7]);
}

#[test]
fn a_market_of_no_events_has_one_world() {
    // N = 0 is degenerate but well defined: a single world, index 0.
    assert_eq!(slice_worlds(&[], 0), vec![0]);
    assert_eq!(bet_worlds(&BetType::Corner { world: 0 }, 0).unwrap(), vec![0]);
    assert_eq!(bet_worlds(&BetType::Corner { world: 1 }, 0), Err(MarketError::InvalidBet));
}

#[test]
fn contradictory_slice_covers_nothing() {
    let worlds = slice_worlds(&[(0, true), (0, false)], 3);
    assert!(worlds.is_empty());
}

#[test]
fn malformed_bets_are_invalid() {
    let bad_event = BetType::Marginal { event: 3, yes: true };
    assert_eq!(bet_worlds(&bad_event, 3), Err(MarketError::InvalidBet));

    let bad_corner = BetType::Corner { world: 8 };
    assert_eq!(bet_worlds(&bad_corner, 3), Err(MarketError::InvalidBet));

    let bad_slice = BetType::Slice { conditions: vec![(5, true)] };
    assert_eq!(bet_worlds(&bad_slice, 3), Err(MarketError::InvalidBet));
}

#[test]
fn well_formed_bets_resolve() {
    let marginal = BetType::Marginal { event: 2, yes: false };
    assert_eq!(bet_worlds(&marginal, 3).unwrap(), vec![0, 2, 4, 6]);

    let corner = BetType::Corner { world: 7 };
    assert_eq!(bet_worlds(&corner, 3).unwrap(), vec![7]);

    // A contradictory slice is well formed; it just covers nothing.
    let contradictory = BetType::Slice { conditions: vec![(1, true), (1, false)] };
    assert_eq!(bet_worlds(&contradictory, 3).unwrap(), Vec::<usize>::new());
}

#[test]
fn parse_bet_reads_the_tagged_fields() {
    let bet = parse_bet(&"marginal".to_string(), Some(1), Some(true), None, None).unwrap();
    assert_eq!(bet.get_worlds(), vec![2, 3, 6, 7]);

    let bet = parse_bet(&"corner".to_string(), None, None, None, Some(5)).unwrap();
    assert_eq!(bet.get_worlds(), vec![5]);

    let bet = parse_bet(&"slice".to_string(), None, None, Some(vec![(0, true)]), None).unwrap();
    assert_eq!(bet.get_worlds(), vec![4, 5, 6, 7]);

    let err = parse_bet(&"martingale".to_string(), Some(0), Some(true), None, Some(1)).unwrap_err();
    assert_eq!(err, MarketError::InvalidBet);

    let err = parse_bet(&"marginal".to_string(), Some(1), None, None, None).unwrap_err();
    assert_eq!(err, MarketError::InvalidBet);
}

#[test]
fn error_descriptions_are_stable() {
    assert_eq!(MarketError::InvalidBet.describe(), "invalid bet");
    assert_eq!(MarketError::InvalidAmount.describe(), "invalid amount");
    assert_eq!(MarketError::StateUnavailable.describe(), "state unavailable");
    assert_eq!(MarketError::NumericInstability.describe(), "numeric instability");
}
