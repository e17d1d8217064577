use nice_hand_core::api::web_api_simple::{has_straight, quick_counts_allowed, quick_hand_class, QuickHandClass};

#[test]
fn straights_are_found() {
    assert!(has_straight(&[0, 1, 2, 3, 4]));
    assert!(has_straight(&[9, 10, 11, 12, 0]));
    assert!(has_straight(&[4, 5, 6, 7, 8]));
    assert!(has_straight(&[3, 3, 4, 5, 6, 7]));
    assert!(has_straight(&[12, 8, 11, 9, 10]));
}

#[test]
fn broken_runs_are_not_straights() {
    assert!(!has_straight(&[]));
    assert!(!has_straight(&[4, 5, 6, 7, 9]));
    assert!(!has_straight(&[0, 1, 2, 3, 11]));
    assert!(!has_straight(&[0, 1, 2, 12, 11]));
    // King, ace, deuce, trey, four is no straight.
    assert!(!has_straight(&[0, 1, 2, 3, 12]));
}

#[test]
fn postflop_hands_are_classed_from_the_top() {
    assert_eq!(quick_hand_class([0, 13], &[26, 39, 5]), QuickHandClass::FourOfAKind);
    assert_eq!(quick_hand_class([0, 13], &[26, 1, 14]), QuickHandClass::FullHouse);
    assert_eq!(quick_hand_class([0, 2], &[4, 6, 9, 20]), QuickHandClass::Flush { top_rank: 9 });
    assert_eq!(quick_hand_class([0, 14], &[2, 16, 30]), QuickHandClass::Straight { max_rank: 4 });
    assert_eq!(quick_hand_class([9, 23], &[37, 51, 13]), QuickHandClass::Straight { max_rank: 12 });
    assert_eq!(quick_hand_class([5, 18], &[31, 0, 14]), QuickHandClass::ThreeOfAKind);
    assert_eq!(quick_hand_class([5, 18], &[7, 20, 0]), QuickHandClass::TwoPair);
}

#[test]
fn pairs_and_high_cards_carry_their_grading() {
    assert_eq!(
        quick_hand_class([5, 18], &[0, 14, 28]),
        QuickHandClass::OnePair { paired_rank: 5, pocket_pair: true, top_pair: false }
    );
    assert_eq!(
        quick_hand_class([5, 9], &[18, 0, 14]),
        QuickHandClass::OnePair { paired_rank: 5, pocket_pair: false, top_pair: true }
    );
    assert_eq!(
        quick_hand_class([12, 3], &[14, 30, 45]),
        QuickHandClass::HighCard { hole_has_top: true, max_rank: 12, max_hole_rank: 12 }
    );
    assert_eq!(
        quick_hand_class([1, 3], &[11, 30, 45]),
        QuickHandClass::HighCard { hole_has_top: false, max_rank: 11, max_hole_rank: 3 }
    );
}

#[test]
fn counts_past_255_are_refused() {
    assert!(quick_counts_allowed([0, 0], &[0; 253]));
    assert!(!quick_counts_allowed([0, 0], &[0; 254]));
    assert!(quick_counts_allowed([0, 14], &[2, 16, 30]));
}
