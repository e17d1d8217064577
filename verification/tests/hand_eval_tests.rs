use nice_hand_core::hand_eval::{best_hand_rank, card_to_string, evaluate_7cards, rank_to_string, v7};

#[test]
fn hand_eval_test_hand_evaluation() {
    let royal_flush = [9, 10, 11, 12, 0, 13, 14];
    let rank = v7(royal_flush);
    println!("로얄 플러시 랭크: {}, 타입: {}", rank, rank_to_string(rank));
    assert!(rank >= 1 && rank <= 1599, "로얄 플러시는 스트레이트 플러시여야 함");

    let four_aces = [0, 13, 26, 39, 1, 2, 3];
    let rank = v7(four_aces);
    assert!(rank >= 1600 && rank <= 2499, "포카드여야 함");

    let full_house = [0, 13, 26, 12, 25, 1, 2];
    let rank = v7(full_house);
    assert!(rank >= 2500 && rank <= 3824, "풀하우스여야 함");

    let flush = [0, 2, 4, 6, 8, 13, 14];
    let rank = v7(flush);
    assert!(rank >= 3825 && rank <= 5108, "플러시여야 함");

    let straight = [5, 6 + 13, 7 + 26, 8, 9 + 13, 13, 14];
    let rank = v7(straight);
    assert!(rank >= 5109 && rank <= 5863, "스트레이트여야 함");

    let two_pair = [0, 13, 12, 25, 1 + 13, 2 + 26, 3 + 39];
    let rank = v7(two_pair);
    assert!(rank >= 8920 && rank <= 21293, "투페어여야 함");

    let one_pair = [0, 13, 1 + 13, 3 + 26, 5 + 39, 7 + 13, 9 + 26];
    println!("One pair test cards: {:?}", one_pair.iter().map(|&c| card_to_string(c)).collect::<Vec<_>>());
    let rank = v7(one_pair);
    assert!(rank >= 21294 && rank <= 32487, "원페어여야 함");

    let high_card = [0, 2 + 13, 4 + 26, 7 + 39, 9 + 13, 11 + 26, 12 + 39];
    let rank = v7(high_card);
    assert!(rank >= 32488, "하이카드여야 함");
}

#[test]
fn test_card_conversion() {
    assert_eq!(card_to_string(0), "As");
    assert_eq!(card_to_string(12), "Ks");
    assert_eq!(card_to_string(13), "Ah");
    assert_eq!(card_to_string(51), "Kc");
}

#[test]
fn lib_test_hand_evaluation() {
    let royal_flush = evaluate_7cards([0, 1, 2, 3, 12, 26, 39]);
    let high_card = evaluate_7cards([0, 14, 28, 42, 5, 19, 33]);
    assert!(royal_flush < high_card);
}

#[test]
fn royal_flush_ranks_first() {
    // 10s Js Qs Ks As with two other cards.
    assert_eq!(v7([9, 10, 11, 12, 0, 14, 28]), 1);
    // King-high straight flush 9s..Ks is next.
    assert_eq!(v7([8, 9, 10, 11, 12, 14, 28]), 2);
    // Ace-to-five straight flush is the weakest one.
    assert_eq!(v7([0, 1, 2, 3, 4, 19, 33]), 10);
}

#[test]
fn aces_rank_high() {
    // Four aces with a king beat four kings with an ace.
    let aces = v7([0, 13, 26, 39, 12, 1, 2]);
    let kings = v7([12, 25, 38, 51, 0, 1, 2]);
    assert_eq!(aces, 1601);
    assert_eq!(kings, 1613);
    assert!(aces < kings);
    // Ace-high flush beats king-high flush.
    let ace_flush = v7([0, 2, 4, 6, 8, 14, 28]);
    let king_flush = v7([12, 2, 4, 6, 8, 14, 28]);
    assert!(ace_flush < king_flush);
    // Ace-high straight beats a six-high straight, which beats the wheel.
    let broadway = v7([9, 23, 37, 51, 13, 2, 4]);
    let six_high = v7([1, 15, 29, 43, 5, 20, 24]);
    let wheel = v7([0, 14, 28, 42, 4, 20, 24]);
    assert_eq!(broadway, 5109);
    assert!(broadway < six_high && six_high < wheel);
    assert_eq!(wheel, 5118);
    // A pair of aces beats a pair of kings.
    let pair_aces = v7([0, 13, 2, 17, 32, 47, 10]);
    let pair_kings = v7([12, 25, 2, 17, 32, 47, 10]);
    assert!(pair_aces < pair_kings);
}

#[test]
fn best_hand_rank_reads_five_to_seven_cards() {
    // Five cards: the royal flush itself.
    assert_eq!(best_hand_rank(&[9, 10, 11, 12, 0]), 1);
    // Six cards: the best five leave out the deuce of hearts.
    assert_eq!(best_hand_rank(&[9, 10, 11, 12, 0, 14]), 1);
    // Seven cards agree with v7.
    assert_eq!(best_hand_rank(&[0, 13, 26, 39, 12, 1, 2]), v7([0, 13, 26, 39, 12, 1, 2]));
}
