use nice_hand_core::holdem::{Act, State};
use nice_hand_core::GameState;
use nice_hand_core::game::tournament_holdem::{
    is_action_allowed_in_tournament, tournament_current_player, tournament_legal_actions,
};

#[test]
fn test_game_state_creation() {
    let state = State::new_hand([25, 50], [1000; 6], 2);
    assert_eq!(state.pot, 75);
    assert_eq!(state.stack[0], 975);
    assert_eq!(state.stack[1], 950);
    assert!(state.alive[0] && state.alive[1]);
    assert!(!state.alive[2]);
}

#[test]
fn test_legal_actions() {
    let state = State::new_hand([25, 50], [1000; 6], 2);
    let actions = State::legal_actions(&state);
    assert!(actions.contains(&Act::Fold));
    assert!(actions.contains(&Act::Call));
    assert!(actions.len() >= 2);
}

#[test]
fn test_state_transitions() {
    let mut state = State::new_hand([25, 50], [1000; 6], 2);
    state = State::next_state(&state, Act::Call);
    assert_eq!(state.invested[0], 50);
    state = State::next_state(&state, Act::Fold);
    assert!(!state.alive[1]);
    assert!(state.is_terminal());
}

#[test]
fn test_info_key_generation() {
    let state = State::new_hand([25, 50], [1000; 6], 2);
    let key1 = State::info_key(&state, 0);
    let key2 = State::info_key(&state, 1);
    assert_ne!(key1, key2);
}

#[test]
fn test_basic_game_logic() {
    let state = State::new();
    assert!(State::current_player(&state).is_some());
    assert!(!State::legal_actions(&state).is_empty());
    let legal_actions = State::legal_actions(&state);
    assert!(legal_actions.contains(&Act::Fold));
    let fold_state = State::next_state(&state, Act::Fold);
    assert_ne!(State::current_player(&state), State::current_player(&fold_state));
}

#[test]
fn tournament_actions_filter_big_raises_on_the_bubble() {
    assert!(is_action_allowed_in_tournament(&Act::Fold, true));
    assert!(is_action_allowed_in_tournament(&Act::Call, true));
    assert!(is_action_allowed_in_tournament(&Act::Raise(1), true));
    assert!(!is_action_allowed_in_tournament(&Act::Raise(2), true));
    assert!(is_action_allowed_in_tournament(&Act::Raise(2), false));

    let state = State::new_hand([25, 50], [1000; 6], 2);
    assert_eq!(tournament_current_player(&state), Some(state.to_act));
    let actions = tournament_legal_actions(&state, true);
    assert_eq!(actions, State::legal_actions(&state));

    let folded = State::next_state(&state, Act::Fold);
    assert!(folded.is_terminal());
    assert_eq!(tournament_current_player(&folded), None);
    assert_eq!(tournament_legal_actions(&folded, false), vec![Act::Fold]);
}

fn flop_ready_state() -> State {
    State {
        hole: [[0, 1], [2, 3], [4, 5], [0, 0], [0, 0], [0, 0]],
        board: vec![],
        to_act: 6,
        street: 0,
        pot: 200,
        stack: [900, 900, 0, 0, 0, 0],
        alive: [true, true, false, false, false, false],
        invested: [100, 100, 0, 0, 0, 0],
        to_call: 0,
        actions_taken: 2,
    }
}

#[test]
fn chance_deals_unused_distinct_cards() {
    let mut rng = rand::thread_rng();
    for _ in 0..200 {
        let s = flop_ready_state();
        let next = State::apply_chance(&s, &mut rng);
        assert_eq!(next.street, 1);
        assert_eq!(next.board.len(), 3);
        for (i, &c) in next.board.iter().enumerate() {
            assert!(c < 52);
            // Cards held by the two live players are never dealt.
            assert!(c != 0 && c != 1 && c != 2 && c != 3);
            for &d in &next.board[i + 1..] {
                assert_ne!(c, d);
            }
        }
        let turn_state = State { board: next.board.clone(), street: 1, ..flop_ready_state() };
        let turn = State::apply_chance(&turn_state, &mut rng);
        assert_eq!(turn.board.len(), 4);
        assert_eq!(&turn.board[..3], &next.board[..]);
        assert!(!next.board.contains(&turn.board[3]));
        assert!(turn.board[3] > 3);
    }
}
