use nice_hand_core::api::analysis::{AnalysisError, HoldemStateBuilder, ValidationError};
use nice_hand_core::api::text::{decimal_string, signed_string};
use nice_hand_core::api::web_api::{web_to_internal_state, OfflineTrainer, WebGameState};
use nice_hand_core::{card_to_string, cards_to_string};

fn web_state(stacks: Vec<u32>, board: Vec<u8>, player_to_act: usize) -> WebGameState {
    WebGameState {
        hole_cards: [12, 25],
        board,
        street: 0,
        pot: 150,
        stacks,
        alive_players: vec![0, 1],
        street_investments: vec![50, 100],
        to_call: 100,
        player_to_act,
        hero_position: 0,
        betting_history: vec![],
    }
}

#[test]
fn player_count_is_checked_first() {
    let r = HoldemStateBuilder::from_web_state(&web_state(vec![1000], vec![0, 52], 5));
    match r {
        Err(e) => {
            assert!(matches!(e, ValidationError::InvalidPlayerCount(1)));
            assert_eq!(e.to_message(), "유효하지 않은 플레이어 수: 1");
        }
        Ok(_) => panic!("one player must be refused"),
    }
    let r = HoldemStateBuilder::from_web_state(&web_state(vec![100; 7], vec![], 0));
    assert!(matches!(r, Err(ValidationError::InvalidPlayerCount(7))));
}

#[test]
fn oversized_stack_is_refused() {
    let r = HoldemStateBuilder::from_web_state(&web_state(vec![1000, 3_000_000_000], vec![], 0));
    match r {
        Err(e) => {
            assert!(matches!(e, ValidationError::InvalidStack(-1_294_967_296)));
            assert_eq!(e.to_message(), "유효하지 않은 스택 크기: -1294967296");
        }
        Ok(_) => panic!("stack must be refused"),
    }
}

#[test]
fn board_errors_come_in_order() {
    let r = HoldemStateBuilder::from_web_state(&web_state(vec![1000, 1000], vec![0, 1, 2, 3, 4, 5], 0));
    match r {
        Err(ValidationError::InconsistentState(msg)) => assert_eq!(msg, "보드 카드는 최대 5장입니다"),
        _ => panic!("six board cards must be refused"),
    }
    let r = HoldemStateBuilder::from_web_state(&web_state(vec![1000, 1000], vec![0, 52, 60], 0));
    match r {
        Err(e) => {
            assert!(matches!(e, ValidationError::InvalidCard(52)));
            assert_eq!(e.to_message(), "유효하지 않은 카드: 52");
        }
        Ok(_) => panic!("card 52 must be refused"),
    }
    let r = HoldemStateBuilder::from_web_state(&web_state(vec![1000, 1000], vec![], 2));
    assert!(matches!(r, Err(ValidationError::InvalidPosition(2))));
    let r = HoldemStateBuilder::from_web_state(&web_state(vec![1000, 1000], vec![0, 1], 0));
    match r {
        Err(ValidationError::InconsistentState(msg)) => {
            assert_eq!(msg, "유효하지 않은 보드 카드 수");
            let e = ValidationError::InconsistentState(msg);
            assert_eq!(e.to_message(), "일관성 없는 게임 상태: 유효하지 않은 보드 카드 수");
        }
        _ => panic!("two board cards must be refused"),
    }
}

#[test]
fn valid_state_is_built() {
    let w = web_state(vec![1000, 900, 800], vec![0, 1, 2], 1);
    let s = HoldemStateBuilder::from_web_state(&w).ok().expect("valid state");
    assert_eq!(s.pot, 150);
    assert_eq!(s.board, vec![0, 1, 2]);
    assert_eq!(s.street, 1);
    assert_eq!(s.to_act, 1);
    assert_eq!(s.hole[0], [12, 25]);
    assert_eq!(s.hole[1], [2, 3]);
    assert_eq!(s.hole[2], [4, 5]);
    assert_eq!(s.hole[3], [0, 0]);
    assert!(s.alive[0] && s.alive[1] && s.alive[2] && !s.alive[3]);
}

#[test]
fn messages_of_the_other_errors() {
    assert_eq!(ValidationError::InvalidBettingSequence.to_message(), "유효하지 않은 베팅 시퀀스");
    assert_eq!(ValidationError::InvalidPosition(7).to_message(), "유효하지 않은 포지션: 7");
    assert_eq!(ValidationError::InvalidPot(-5).to_message(), "유효하지 않은 팟 크기: -5");
    assert_eq!(AnalysisError::CalculationTimeout.to_message(), "계산 시간이 초과되었습니다");
    assert_eq!(AnalysisError::InsufficientData.to_message(), "분석에 필요한 데이터가 부족합니다");
    let e = AnalysisError::InvalidGameState { reason: "x".to_string() };
    assert_eq!(e.to_message(), "게임 상태가 유효하지 않습니다: x");
    let e = AnalysisError::InternalError { message: "y".to_string() };
    assert_eq!(e.to_message(), "내부 오류: y");
}

#[test]
fn numbers_are_written_in_decimal() {
    assert_eq!(decimal_string(0), "0");
    assert_eq!(decimal_string(1234567890), "1234567890");
    assert_eq!(signed_string(-42), "-42");
    assert_eq!(signed_string(7), "7");
}

#[test]
fn web_state_maps_onto_seats() {
    let mut w = web_state(vec![1000, 900], vec![5, 6, 7], 1);
    w.alive_players = vec![0, 3];
    let s = web_to_internal_state(&w);
    assert_eq!(s.stack, [1000, 0, 0, 900, 0, 0]);
    assert_eq!(s.alive, [true, false, false, true, false, false]);
    assert_eq!(s.invested, [50, 100, 0, 0, 0, 0]);
    assert_eq!(s.hole[0], [12, 25]);
    assert_eq!(s.hole[3], [0, 0]);
    assert_eq!(s.board, vec![5, 6, 7]);
    assert_eq!(s.to_call, 100);
    assert_eq!(s.pot, 150);
}

#[test]
fn training_scenarios_in_order() {
    let scenarios = OfflineTrainer::generate_training_scenarios();
    assert_eq!(scenarios.len(), 3);
    assert_eq!(scenarios[0].hole[0], [0, 13]);
    assert_eq!(scenarios[0].pot, 75);
    assert_eq!(scenarios[1].board, vec![48, 21, 6]);
    assert_eq!(scenarios[2].stack[0], 800);
}

#[test]
fn cards_are_named_with_ten_as_t() {
    assert_eq!(card_to_string(0), "As");
    assert_eq!(card_to_string(9), "Ts");
    assert_eq!(card_to_string(13), "Ah");
    assert_eq!(card_to_string(51), "Kc");
    assert_eq!(cards_to_string(&[0, 22, 51]), "As Th Kc");
    assert_eq!(cards_to_string(&[]), "");
}

#[test]
fn uncovered_blinds_are_refused() {
    // Heads-up: seat 0 posts the small blind of 10, seat 1 the big blind of 20.
    let r = HoldemStateBuilder::from_web_state(&web_state(vec![5, 1000], vec![], 0));
    assert!(matches!(r, Err(ValidationError::InvalidStack(5))));
    let r = HoldemStateBuilder::from_web_state(&web_state(vec![1000, 15], vec![], 0));
    assert!(matches!(r, Err(ValidationError::InvalidStack(15))));
    // The small blind seat is reported first.
    let r = HoldemStateBuilder::from_web_state(&web_state(vec![3, 4], vec![], 0));
    assert!(matches!(r, Err(ValidationError::InvalidStack(3))));
    // A board of one or two cards is reported before the blinds.
    let r = HoldemStateBuilder::from_web_state(&web_state(vec![3, 4], vec![7], 0));
    assert!(matches!(r, Err(ValidationError::InconsistentState(_))));
    // Exactly enough for the blinds builds.
    let r = HoldemStateBuilder::from_web_state(&web_state(vec![10, 20], vec![], 0));
    assert!(r.is_ok());
}

#[test]
fn empty_builder_reports_missing_player_count() {
    match HoldemStateBuilder::new().build() {
        Err(ValidationError::InconsistentState(msg)) => assert_eq!(msg, "플레이어 수가 설정되지 않았습니다"),
        _ => panic!("an empty builder must be refused"),
    }
}
