use lmsr_market::responses::{
    ClaimProofRequest, ClaimProofResponse, GetPositionRequest, IntentScope, PlaceBetResponse,
    PositionResponse,
};

#[test]
fn scope_bytes_match_the_contract() {
    assert_eq!(IntentScope::PlaceBet.scope_byte(), 0);
    assert_eq!(IntentScope::Resolve.scope_byte(), 1);
    assert_eq!(IntentScope::ClaimProof.scope_byte(), 1);
}

#[test]
fn response_shapes_round_plain_values() {
    let bet = PlaceBetResponse {
        shares: 1500,
        new_prices: vec![125_000; 8],
        commitment: "00".repeat(32),
        worlds: vec![6, 7],
    };
    assert_eq!(bet.shares, 1500);
    assert_eq!(bet.new_prices.len(), 8);
    assert_eq!(bet.commitment.len(), 64);
    assert_eq!(bet.worlds, vec![6, 7]);

    let ask = GetPositionRequest { user: "alice".to_string() };
    let position = PositionResponse { user: ask.user.clone(), positions: vec![(6, 1000)] };
    assert_eq!(position.user, "alice");
    assert_eq!(position.positions[0], (6, 1000));

    let claim_ask = ClaimProofRequest { user: "bob".to_string(), winning_world: 6 };
    let claim = ClaimProofResponse {
        user: claim_ask.user.clone(),
        winning_world: claim_ask.winning_world as u8,
        shares: 1000,
        payout: 1000,
        commitment: "ab".repeat(32),
    };
    assert_eq!(claim.winning_world, 6);
    assert_eq!(claim.payout, 1000);
}
