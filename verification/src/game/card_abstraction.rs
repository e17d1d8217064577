//! Card abstraction: hands grouped into buckets of similar strength so that
//! similar hands share one strategy.

use vstd::prelude::*;
use crate::game::hand_eval::{best_hand_rank, best_hand_rank_of, lemma_best_hand_rank_unique, card_rank, card_suit};

verus! {

/// Number of preflop hand groups.
pub const PREFLOP_BUCKETS: usize = 50;

/// Number of flop hand groups.
pub const FLOP_BUCKETS: usize = 200;

/// Number of turn hand groups.
pub const TURN_BUCKETS: usize = 200;

/// Number of river hand groups.
pub const RIVER_BUCKETS: usize = 200;

/// Preflop bucket of two hole cards given as (higher rank, lower rank,
/// suited), where a rank is `card % 13` (ace = 0, deuce = 1, ..., king =
/// 12) and the ace is the higher card of any two: AA to JJ 0, AKs 1, AQs 2,
/// AJs 3, KQs 4, TT to 66 5, AKo 6, AQo 7, suited connectors from 76s 10,
/// other A9 and better 12, 55 to 22 15, KT and better 18, A8 to A6 20,
/// A5 to A2 25, other king-high 30, the rest 35 (suited) or 40 plus
/// `13 - high`, at most 49.
pub open spec fn preflop_bucket_of(high: int, low: int, suited: bool) -> int {
    if high == 0 && low == 0 {
        0
    } else if high == low && high >= 10 {
        0
    } else if high == low && high >= 5 {
        5
    } else if high == low {
        15
    } else if high == 0 && low == 12 && suited {
        1
    } else if high == 0 && low == 11 && suited {
        2
    } else if high == 0 && low == 10 && suited {
        3
    } else if high == 12 && low == 11 && suited {
        4
    } else if high == 0 && low == 12 && !suited {
        6
    } else if high == 0 && low == 11 && !suited {
        7
    } else if suited && high >= 6 && high - low == 1 {
        10
    } else if high == 0 && low >= 8 {
        12
    } else if high == 0 && low >= 5 {
        20
    } else if high == 0 {
        25
    } else if high == 12 && low >= 9 {
        18
    } else if high == 12 {
        30
    } else {
        let base: int = if suited {
            35
        } else {
            40
        };
        if base + (13 - high) < 49 {
            base + (13 - high)
        } else {
            49
        }
    }
}

/// Place of a rank in the order of strength, the ace highest (deuce 0, ...,
/// king 11, ace 12).
pub open spec fn strength_place(r: int) -> int {
    (r + 12) % 13
}

/// Preflop bucket of a pair of hole cards (0 is the strongest group).
pub open spec fn preflop_bucket_spec(hole: [u8; 2]) -> int {
    let r1 = card_rank(hole[0]);
    let r2 = card_rank(hole[1]);
    let first_high = strength_place(r1) >= strength_place(r2);
    let high = if first_high {
        r1
    } else {
        r2
    };
    let low = if first_high {
        r2
    } else {
        r1
    };
    preflop_bucket_of(high, low, card_suit(hole[0]) == card_suit(hole[1]))
}

/// Groups the 169 kinds of starting hands into 50 buckets (0-49, lower is
/// stronger).
pub fn preflop_bucket(hole: [u8; 2]) -> (bucket: u8)
    ensures
        bucket == preflop_bucket_spec(hole),
        bucket < 50,
{
    let c1 = hole[0];
    let c2 = hole[1];
    let rank1 = c1 % 13;
    let rank2 = c2 % 13;
    let suited = c1 / 13 == c2 / 13;
    let first_high = (rank1 + 12) % 13 >= (rank2 + 12) % 13;
    let (high, low) = if first_high {
        (rank1, rank2)
    } else {
        (rank2, rank1)
    };
    if high == 0 && low == 0 {
        0
    } else if high == low && high >= 10 {
        0
    } else if high == low && high >= 5 {
        5
    } else if high == low {
        15
    } else if high == 0 && low == 12 && suited {
        1
    } else if high == 0 && low == 11 && suited {
        2
    } else if high == 0 && low == 10 && suited {
        3
    } else if high == 12 && low == 11 && suited {
        4
    } else if high == 0 && low == 12 && !suited {
        6
    } else if high == 0 && low == 11 && !suited {
        7
    } else if suited && high >= 6 && high - low == 1 {
        10
    } else if high == 0 && low >= 8 {
        12
    } else if high == 0 && low >= 5 {
        20
    } else if high == 0 {
        25
    } else if high == 12 && low >= 9 {
        18
    } else if high == 12 {
        30
    } else {
        let base: u8 = if suited {
            35
        } else {
            40
        };
        if base + (13 - high) < 49 {
            base + (13 - high)
        } else {
            49
        }
    }
}


/// The cards a hand is judged on: the two hole cards, then the board's
/// first five cards (all of them when there are fewer).
pub open spec fn hand_cards_spec(hole: [u8; 2], board: Seq<u8>) -> Seq<u8> {
    seq![hole[0], hole[1]] + board.take(
        if board.len() < 5 {
            board.len() as int
        } else {
            5
        },
    )
}

/// Lays out the hole cards and up to five board cards, nothing more.
pub fn hand_cards(hole: [u8; 2], board: &[u8]) -> (cards: Vec<u8>)
    ensures
        cards@ == hand_cards_spec(hole, board@),
{
    let mut cards: Vec<u8> = Vec::new();
    cards.push(hole[0]);
    cards.push(hole[1]);
    let mut i: usize = 0;
    while i < board.len() && i < 5
        invariant
            0 <= i <= 5,
            i <= board@.len(),
            cards@ == seq![hole[0], hole[1]] + board@.take(i as int),
        decreases 5 - i,
    {
        cards.push(board[i]);
        i = i + 1;
        assert(cards@ =~= seq![hole[0], hole[1]] + board@.take(i as int));
    }
    assert(cards@ =~= hand_cards_spec(hole, board@));
    cards
}

/// Postflop bucket (out of 200) of a preflop bucket `b`: where the hand
/// strength `1 - b / 50` lands when `(1 - strength) * 200` is truncated,
/// computed in double precision.
pub open spec fn preflop_strength_bucket(b: int) -> int {
    preflop_strength_table()[b] as int
}

/// The buckets of [`preflop_strength_bucket`] for b in 0..50.
pub open spec fn preflop_strength_table() -> Seq<u8> {
    seq![
        0u8, 4, 8, 12, 15, 19, 24, 28, 32, 35, 39, 43, 48, 52, 56, 60, 64, 68, 72, 76, 80, 83, 87, 92,
        96, 100, 104, 108, 112, 115, 120, 124, 128, 132, 136, 140, 144, 148, 152, 156, 160, 164,
        168, 172, 176, 180, 184, 188, 192, 196,
    ]
}

/// Postflop bucket (out of 200) of a hand rank: strength 0.95 for
/// ranks up to 2000, 0.80 up to 5000, 0.65 up to 10000, 0.45 up to 25000,
/// 0.25 up to 35000 and 0.10 above, each mapped by truncating
/// `(1 - strength) * 200` in double precision.
pub open spec fn rank_strength_bucket(rank: int) -> int {
    if 1 <= rank <= 2000 {
        10
    } else if 2001 <= rank <= 5000 {
        39
    } else if 5001 <= rank <= 10000 {
        70
    } else if 10001 <= rank <= 25000 {
        110
    } else if 25001 <= rank <= 35000 {
        150
    } else {
        180
    }
}

/// Postflop bucket of hole cards on a board: from the preflop bucket when
/// fewer than three board cards are out, else from the best five-card
/// rank of the hole and board cards; capped at the street's bucket count less one.
pub open spec fn postflop_bucket_spec(hole: [u8; 2], board: Seq<u8>) -> int {
    let b = if board.len() < 3 {
        preflop_strength_bucket(preflop_bucket_spec(hole))
    } else {
        rank_strength_bucket(best_hand_rank_of(hand_cards_spec(hole, board)))
    };
    if b < 199 {
        b
    } else {
        199
    }
}

/// Postflop bucket (0-199, lower is stronger) of hole cards on a board.
/// Every street uses 200 buckets.
pub fn postflop_bucket(hole: [u8; 2], board: &[u8], street: u8) -> (bucket: u8)
    ensures
        bucket == postflop_bucket_spec(hole, board@),
        bucket < 200,
{
    let bucket_count: u8 = match street {
        1 => 200,
        2 => 200,
        3 => 200,
        _ => 200,
    };
    let bucket: u8 = if board.len() < 3 {
        let table: [u8; 50] = [
            0, 4, 8, 12, 15, 19, 24, 28, 32, 35, 39, 43, 48, 52, 56, 60, 64, 68, 72, 76, 80, 83, 87,
            92, 96, 100, 104, 108, 112, 115, 120, 124, 128, 132, 136, 140, 144, 148, 152, 156, 160,
            164, 168, 172, 176, 180, 184, 188, 192, 196,
        ];
        assert(table@ =~= preflop_strength_table());
        table[preflop_bucket(hole) as usize]
    } else {
        let cards = hand_cards(hole, board);
        let rank = best_hand_rank(cards.as_slice());
        proof {
            lemma_best_hand_rank_unique(hand_cards_spec(hole, board@), rank as int);
        }
        if 1 <= rank && rank <= 2000 {
            10
        } else if 2001 <= rank && rank <= 5000 {
            39
        } else if 5001 <= rank && rank <= 10000 {
            70
        } else if 10001 <= rank && rank <= 25000 {
            110
        } else if 25001 <= rank && rank <= 35000 {
            150
        } else {
            180
        }
    };
    if bucket < bucket_count - 1 {
        bucket
    } else {
        bucket_count - 1
    }
}

/// A preflop bucket does not depend on the order of the two hole cards.
pub proof fn lemma_preflop_bucket_order_free(a: u8, b: u8)
    ensures
        preflop_bucket_spec([a, b]) == preflop_bucket_spec([b, a]),
{
}


/// Pocket aces, kings, queens and jacks share the strongest bucket, 0.
pub proof fn lemma_premium_pairs_bucket(a: u8, b: u8)
    requires
        a % 13 == b % 13,
        a % 13 == 0 || a % 13 >= 10,
    ensures
        preflop_bucket_spec([a, b]) == 0,
{
}

/// Pocket sixes to tens fall in bucket 5, pocket deuces to fives in bucket
/// 15.
pub proof fn lemma_other_pairs_bucket(a: u8, b: u8)
    requires
        a % 13 == b % 13,
        1 <= a % 13 <= 9,
    ensures
        a % 13 >= 5 ==> preflop_bucket_spec([a, b]) == 5,
        a % 13 <= 4 ==> preflop_bucket_spec([a, b]) == 15,
{
}

/// Ace-king: bucket 1 suited and 6 offsuit, in either order; king-queen
/// suited: bucket 4.
pub proof fn lemma_big_cards_bucket(a: u8, b: u8)
    requires
        (a % 13 == 0 && b % 13 == 12) || (a % 13 == 12 && b % 13 == 0),
    ensures
        a / 13 == b / 13 ==> preflop_bucket_spec([a, b]) == 1,
        a / 13 != b / 13 ==> preflop_bucket_spec([a, b]) == 6,
{
}

/// Rank `r` is marked in the rank bit set.
pub open spec fn rank_bit(bits: u16, r: int) -> bool {
    (bits >> (r as u16)) & 1u16 == 1u16
}

/// Marked ranks among `start`, `start + 1`, ..., `start + k - 1`.
pub open spec fn window_count(bits: u16, start: int, k: int) -> int
    decreases k,
{
    if k <= 0 {
        0
    } else {
        window_count(bits, start, k - 1) + if rank_bit(bits, start + k - 1) {
            1int
        } else {
            0int
        }
    }
}

/// Marked ranks among ten, jack, queen, king and ace (bits 9 to 12 and 0).
pub open spec fn broadway_count(bits: u16) -> int {
    window_count(bits, 9, 4) + if rank_bit(bits, 0) {
        1int
    } else {
        0int
    }
}

/// Five-rank windows starting below `n` that hold at least three marked
/// ranks.
pub open spec fn draw_windows_upto(bits: u16, n: int) -> int
    decreases n,
{
    if n <= 0 {
        0
    } else {
        draw_windows_upto(bits, n - 1) + if window_count(bits, n - 1, 5) >= 3 {
            1int
        } else {
            0int
        }
    }
}

/// Straight draws in a rank bit set: the straights, each counted once,
/// that hold at least three of its five ranks. They are the windows of five
/// consecutive bits starting at bits 0 to 8 (ace-to-five up to nine-to-king)
/// and ten-to-ace, whose ace is bit 0.
pub open spec fn straight_draws(bits: u16) -> int {
    draw_windows_upto(bits, 9) + if broadway_count(bits) >= 3 {
        1int
    } else {
        0int
    }
}

fn ranks_in_window(rank_bits: u16, start: u16, k: u16) -> (n: u8)
    requires
        start + k <= 16,
        k <= 5,
    ensures
        n == window_count(rank_bits, start as int, k as int),
        n <= k,
{
    let mut n: u8 = 0;
    let mut j: u16 = 0;
    while j < k
        invariant
            j <= k,
            k <= 5,
            start + k <= 16,
            n == window_count(rank_bits, start as int, j as int),
            n <= j,
        decreases k - j,
    {
        let r: u16 = start + j;
        if (rank_bits >> r) & 1 == 1 {
            n = n + 1;
        }
        j = j + 1;
    }
    n
}

/// Number of straight draws in a set of ranks, one bit per rank: bit
/// `card % 13`, so the ace is bit 0, the deuce bit 1 and the king bit 12.
pub fn count_straight_draws(rank_bits: u16) -> (draws: u8)
    ensures
        draws == straight_draws(rank_bits),
{
    let mut draws: u8 = 0;
    let mut start: u16 = 0;
    while start <= 8
        invariant
            start <= 9,
            draws == draw_windows_upto(rank_bits, start as int),
            draws <= start,
        decreases 9 - start,
    {
        let count = ranks_in_window(rank_bits, start, 5);
        if count >= 3 {
            draws = draws + 1;
        }
        start = start + 1;
    }
    let high = ranks_in_window(rank_bits, 9, 4);
    let ace: u8 = if (rank_bits >> 0u16) & 1 == 1 {
        1
    } else {
        0
    };
    if high + ace >= 3 {
        draws = draws + 1;
    }
    draws
}

} // verus!
