use nice_hand_core::card_abstraction::{count_straight_draws, hand_cards, postflop_bucket, preflop_bucket};

#[test]
fn test_preflop_buckets() {
    assert_eq!(preflop_bucket([0, 13]), 0);
    assert_eq!(preflop_bucket([0, 12]), 1);
    let bucket_72o = preflop_bucket([5, 14]);
    assert!(bucket_72o > 40);
}

#[test]
fn test_postflop_buckets() {
    let hole = [0, 13];
    let board = [2, 15, 28];
    let bucket = postflop_bucket(hole, &board, 1);
    println!("포스트플랍 버킷: {}", bucket);
    assert!(bucket < 150);
}

#[test]
fn test_card_abstraction() {
    let aa_bucket = preflop_bucket([0, 13]);
    let trash_bucket = preflop_bucket([5, 14]);
    assert!(aa_bucket < trash_bucket);
}

fn rank_bits(ranks: &[u8]) -> u16 {
    ranks.iter().fold(0u16, |bits, &r| bits | (1 << r))
}

#[test]
fn straight_draws_count_each_straight_once() {
    // Bit `card % 13`: ace 0, deuce 1, ..., king 12.
    assert_eq!(count_straight_draws(0), 0);
    // A-2-3: the ace-to-five window; ten-to-ace holds only the ace.
    assert_eq!(count_straight_draws(rank_bits(&[0, 1, 2])), 1);
    // 9-T-J-Q-K: the windows from 7-to-J up to 9-to-K, and ten-to-ace.
    assert_eq!(count_straight_draws(rank_bits(&[8, 9, 10, 11, 12])), 4);
    // Two ranks never make a draw.
    assert_eq!(count_straight_draws(rank_bits(&[4, 5])), 0);
    // A, 2 and K share no straight with three of them.
    assert_eq!(count_straight_draws(0x1003), 0);
    // T-J-Q-K-A: ten-to-ace, 7-to-J and 8-to-K.
    assert_eq!(count_straight_draws(rank_bits(&[9, 10, 11, 12, 0])), 3);
}

#[test]
fn ace_counts_high_in_preflop_buckets() {
    // Ace-nine offsuit.
    assert_eq!(preflop_bucket([0, 21]), 12);
    assert_eq!(preflop_bucket([21, 0]), 12);
    // Ace-seven and ace-trey.
    assert_eq!(preflop_bucket([0, 19]), 20);
    assert_eq!(preflop_bucket([0, 15]), 25);
    // Ace-queen suited and offsuit.
    assert_eq!(preflop_bucket([11, 0]), 2);
    assert_eq!(preflop_bucket([0, 24]), 7);
    // King-queen suited, king-jack offsuit, king-five.
    assert_eq!(preflop_bucket([12, 11]), 4);
    assert_eq!(preflop_bucket([12, 23]), 18);
    assert_eq!(preflop_bucket([12, 17]), 30);
    // Eight-seven suited.
    assert_eq!(preflop_bucket([7, 6]), 10);
    // Sixes are a middle pair, fives a low one.
    assert_eq!(preflop_bucket([5, 18]), 5);
    assert_eq!(preflop_bucket([4, 17]), 15);
}

#[test]
fn hand_strength_uses_only_real_cards() {
    // 7s 2h on Ks Qh Qd: a pair of queens, not two pair with phantom aces.
    let cards = hand_cards([6, 14], &[12, 24, 37]);
    assert_eq!(cards, vec![6, 14, 12, 24, 37]);
    assert_eq!(postflop_bucket([6, 14], &[12, 24, 37], 1), 110);
    // A sixth board card is left out.
    assert_eq!(hand_cards([0, 1], &[2, 3, 4, 5, 6, 7]).len(), 7);
}
