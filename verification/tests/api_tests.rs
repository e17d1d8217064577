use nice_hand_core::api::cache::StateSignature;
use nice_hand_core::api::web_api::WebGameState;
use nice_hand_core::ev_calculator::EVConfig;

#[test]
fn test_state_signature() {
    let web_state = WebGameState {
        hole_cards: [0, 1],
        board: vec![],
        street: 0,
        pot: 150,
        stacks: vec![1000, 1000],
        alive_players: vec![0, 1],
        street_investments: vec![50, 100],
        to_call: 100,
        player_to_act: 0,
        hero_position: 0,
        betting_history: vec![],
    };
    let sig1 = StateSignature::from_web_state(&web_state);
    let sig2 = StateSignature::from_web_state(&web_state);
    assert_eq!(sig1, sig2);
}

#[test]
fn test_ev_config_creation() {
    let config = EVConfig::default();
    assert_eq!(config.sample_count, 10000);
    assert_eq!(config.max_depth, 10);
    assert!(config.use_opponent_model);
}
