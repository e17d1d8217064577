//! Game state for the stateless heads-up strategy service.

use vstd::prelude::*;
use crate::game::hand_eval::{card_rank, card_suit, count_rank};

verus! {

/// Heads-up game state sent to the stateless strategy service.
#[derive(Clone, Debug)]
pub struct WebGameState {
    /// The hero's hole cards (0-51).
    pub hole_cards: [u8; 2],
    /// Board cards (at most 5).
    pub board: Vec<u8>,
    /// Street: 0 preflop, 1 flop, 2 turn, 3 river.
    pub street: u8,
    /// Chips in the pot.
    pub pot: u32,
    /// Chips to call.
    pub to_call: u32,
    /// The hero's stack.
    pub my_stack: u32,
    /// The opponent's stack.
    pub opponent_stack: u32,
}


/// Ranks `r` to `r + 4` all occur.
pub open spec fn run_of_five(ranks: Seq<u8>, r: int) -> bool {
    &&& ranks.contains(r as u8)
    &&& ranks.contains((r + 1) as u8)
    &&& ranks.contains((r + 2) as u8)
    &&& ranks.contains((r + 3) as u8)
    &&& ranks.contains((r + 4) as u8)
}

/// The ranks (`card % 13`: ace 0, deuce 1, ..., king 12) hold a straight:
/// five consecutive ranks, ace-to-five up to nine-to-king, or ten-to-ace.
pub open spec fn straight_in(ranks: Seq<u8>) -> bool {
    ||| (ranks.contains(9u8) && ranks.contains(10u8) && ranks.contains(11u8) && ranks.contains(12u8)
        && ranks.contains(0u8))
    ||| exists|r: int| 0 <= r <= 251 && #[trigger] run_of_five(ranks, r)
}

fn holds_rank(ranks: &[u8], rank: u8) -> (b: bool)
    ensures
        b == ranks@.contains(rank),
{
    let mut i: usize = 0;
    while i < ranks.len()
        invariant
            i <= ranks@.len(),
            forall|j: int| 0 <= j < i ==> ranks@[j] != rank,
        decreases ranks@.len() - i,
    {
        if ranks[i] == rank {
            assert(ranks@[i as int] == rank);
            return true;
        }
        i = i + 1;
    }
    false
}

/// Whether the ranks (`card % 13`: ace 0, king 12) hold a straight, the
/// ace playing low in ace-to-five and high in ten-to-ace.
pub fn has_straight(ranks: &[u8]) -> (b: bool)
    ensures
        b == straight_in(ranks@),
{
    if holds_rank(ranks, 9) && holds_rank(ranks, 10) && holds_rank(ranks, 11) && holds_rank(ranks, 12)
        && holds_rank(ranks, 0) {
        return true;
    }
    let mut r: u8 = 0;
    while r <= 251
        invariant
            r <= 252,
            !(ranks@.contains(9u8) && ranks@.contains(10u8) && ranks@.contains(11u8) && ranks@.contains(
                12u8,
            ) && ranks@.contains(0u8)),
            forall|q: int| 0 <= q < r ==> !#[trigger] run_of_five(ranks@, q),
        decreases 252 - r,
    {
        let all = holds_rank(ranks, r) && holds_rank(ranks, r + 1) && holds_rank(ranks, r + 2)
            && holds_rank(ranks, r + 3) && holds_rank(ranks, r + 4);
        if all {
            assert(run_of_five(ranks@, r as int));
            return true;
        }
        r = r + 1;
    }
    false
}


/// What a hole-card-and-board combination makes, with what grading it
/// needs: the top rank of the flush suit, the highest rank for a straight,
/// the paired rank and how it was made for one pair, the high cards for
/// nothing.
#[derive(Clone, Copy, Debug, PartialEq, Eq, Structural)]
pub enum QuickHandClass {
    FourOfAKind,
    FullHouse,
    Flush { top_rank: u8 },
    Straight { max_rank: u8 },
    ThreeOfAKind,
    TwoPair,
    OnePair { paired_rank: u8, pocket_pair: bool, top_pair: bool },
    HighCard { hole_has_top: bool, max_rank: u8, max_hole_rank: u8 },
}

/// The hole cards followed by the board.
pub open spec fn quick_cards(hole: [u8; 2], board: Seq<u8>) -> Seq<u8> {
    seq![hole[0], hole[1]] + board
}

/// The ranks of the cards, in order.
pub open spec fn ranks_of(cards: Seq<u8>) -> Seq<u8> {
    cards.map_values(|c: u8| (c % 13) as u8)
}

/// Number of cards of suit `s`.
pub open spec fn count_suit(cards: Seq<u8>, s: int) -> int
    decreases cards.len(),
{
    if cards.len() == 0 {
        0
    } else {
        count_suit(cards.drop_last(), s) + if card_suit(cards.last()) == s {
            1int
        } else {
            0int
        }
    }
}

/// Ranks below `n` held at least `k` times.
pub open spec fn ranks_reaching(cards: Seq<u8>, k: int, n: int) -> int
    decreases n,
{
    if n <= 0 {
        0
    } else {
        ranks_reaching(cards, k, n - 1) + if count_rank(cards, n - 1) >= k {
            1int
        } else {
            0int
        }
    }
}

/// First suit at `s` or later with five cards or more.
pub open spec fn flush_suit_from(cards: Seq<u8>, s: int) -> Option<int>
    decreases 4 - s,
{
    if s < 0 || s >= 4 {
        None
    } else if count_suit(cards, s) >= 5 {
        Some(s)
    } else {
        flush_suit_from(cards, s + 1)
    }
}

/// Highest rank among the first `n` cards of suit `s` (0 when none).
pub open spec fn top_rank_in_suit(cards: Seq<u8>, s: int, n: int) -> int
    decreases n,
{
    if n <= 0 {
        0
    } else {
        let prev = top_rank_in_suit(cards, s, n - 1);
        if card_suit(cards[n - 1]) == s && card_rank(cards[n - 1]) > prev {
            card_rank(cards[n - 1])
        } else {
            prev
        }
    }
}

/// Highest rank among the first `n` cards (0 when none).
pub open spec fn top_rank_upto(cards: Seq<u8>, n: int) -> int
    decreases n,
{
    if n <= 0 {
        0
    } else {
        let prev = top_rank_upto(cards, n - 1);
        if card_rank(cards[n - 1]) > prev {
            card_rank(cards[n - 1])
        } else {
            prev
        }
    }
}

/// First rank at `r` or later held twice or more.
pub open spec fn paired_rank_from(cards: Seq<u8>, r: int) -> Option<int>
    decreases 13 - r,
{
    if r < 0 || r >= 13 {
        None
    } else if count_rank(cards, r) >= 2 {
        Some(r)
    } else {
        paired_rank_from(cards, r + 1)
    }
}

/// Some board card has rank `r`.
pub open spec fn board_has_rank(board: Seq<u8>, r: int) -> bool {
    exists|i: int| 0 <= i < board.len() && #[trigger] card_rank(board[i]) == r
}

/// The class of the hole cards with the board, checked from the strongest:
/// four of a kind, a full house (three of a rank and another rank at least
/// paired), a flush (five of a suit), a straight, three of a kind, two
/// pair, one pair, else high cards.
pub open spec fn quick_hand_class_spec(hole: [u8; 2], board: Seq<u8>) -> QuickHandClass {
    let cards = quick_cards(hole, board);
    let pairs = ranks_reaching(cards, 2, 13);
    let trips = ranks_reaching(cards, 3, 13);
    let quads = ranks_reaching(cards, 4, 13);
    let h0 = card_rank(hole[0]);
    let h1 = card_rank(hole[1]);
    if quads > 0 {
        QuickHandClass::FourOfAKind
    } else if trips > 0 && pairs > 1 {
        QuickHandClass::FullHouse
    } else if flush_suit_from(cards, 0) is Some {
        QuickHandClass::Flush {
            top_rank: top_rank_in_suit(cards, flush_suit_from(cards, 0)->0, cards.len() as int) as u8,
        }
    } else if straight_in(ranks_of(cards)) {
        QuickHandClass::Straight { max_rank: top_rank_upto(cards, cards.len() as int) as u8 }
    } else if trips > 0 {
        QuickHandClass::ThreeOfAKind
    } else if pairs >= 2 {
        QuickHandClass::TwoPair
    } else if pairs == 1 {
        let p = match paired_rank_from(cards, 0) {
            Some(r) => r,
            None => 0,
        };
        QuickHandClass::OnePair {
            paired_rank: p as u8,
            pocket_pair: h0 == h1,
            top_pair: (h0 == p || h1 == p) && board_has_rank(board, p),
        }
    } else {
        let top = top_rank_upto(cards, cards.len() as int);
        QuickHandClass::HighCard {
            hole_has_top: h0 == top || h1 == top,
            max_rank: top as u8,
            max_hole_rank: (if h0 >= h1 {
                h0
            } else {
                h1
            }) as u8,
        }
    }
}

proof fn lemma_top_rank_bounds(cards: Seq<u8>, n: int)
    requires
        0 <= n <= cards.len(),
    ensures
        0 <= top_rank_upto(cards, n) < 13,
    decreases n,
{
    if n > 0 {
        lemma_top_rank_bounds(cards, n - 1);
    }
}

proof fn lemma_top_rank_in_suit_bounds(cards: Seq<u8>, s: int, n: int)
    requires
        0 <= n <= cards.len(),
    ensures
        0 <= top_rank_in_suit(cards, s, n) < 13,
    decreases n,
{
    if n > 0 {
        lemma_top_rank_in_suit_bounds(cards, s, n - 1);
    }
}

/// Every rank and every suit occurs at most 255 times among the cards.
pub open spec fn quick_counts_fit(cards: Seq<u8>) -> bool {
    &&& forall|r: int| 0 <= r < 13 ==> #[trigger] count_rank(cards, r) <= 255
    &&& forall|q: int| 0 <= q < 4 ==> #[trigger] count_suit(cards, q) <= 255
}

proof fn lemma_count_rank_prefix(cards: Seq<u8>, k: int, r: int)
    requires
        0 <= k <= cards.len(),
    ensures
        count_rank(cards.take(k), r) <= count_rank(cards, r),
    decreases cards.len(),
{
    if k < cards.len() {
        lemma_count_rank_prefix(cards.drop_last(), k, r);
        assert(cards.drop_last().take(k) =~= cards.take(k));
    } else {
        assert(cards.take(k) =~= cards);
    }
}

proof fn lemma_count_suit_prefix(cards: Seq<u8>, k: int, q: int)
    requires
        0 <= k <= cards.len(),
    ensures
        count_suit(cards.take(k), q) <= count_suit(cards, q),
    decreases cards.len(),
{
    if k < cards.len() {
        lemma_count_suit_prefix(cards.drop_last(), k, q);
        assert(cards.drop_last().take(k) =~= cards.take(k));
    } else {
        assert(cards.take(k) =~= cards);
    }
}

/// Whether every rank and every suit occurs at most 255 times among the
/// hole cards and the board, as [`quick_hand_class`] needs.
pub fn quick_counts_allowed(hole: [u8; 2], board: &[u8]) -> (b: bool)
    requires
        hole[0] < 52,
        hole[1] < 52,
        forall|i: int| 0 <= i < board@.len() ==> #[trigger] board@[i] < 52,
    ensures
        b == quick_counts_fit(quick_cards(hole, board@)),
{
    let all_cards = card_list(hole, board);
    let ghost cards = all_cards@;
    proof {
        assert forall|i: int| 0 <= i < cards.len() implies #[trigger] cards[i] < 52 by {
            if i >= 2 {
                assert(cards[i] == board@[i - 2]);
            }
        }
    }
    let n = all_cards.len();
    let mut rank_counts: [u64; 13] = [0; 13];
    let mut suit_counts: [u64; 4] = [0; 4];
    let mut i: usize = 0;
    while i < n
        invariant
            n == cards.len(),
            all_cards@ == cards,
            cards == quick_cards(hole, board@),
            forall|k: int| 0 <= k < n ==> #[trigger] cards[k] < 52,
            i <= n,
            forall|r: int| 0 <= r < 13 ==> #[trigger] rank_counts[r] == count_rank(cards.take(i as int), r),
            forall|q: int| 0 <= q < 4 ==> #[trigger] suit_counts[q] == count_suit(cards.take(i as int), q),
            forall|r: int| 0 <= r < 13 ==> #[trigger] rank_counts[r] <= 255,
            forall|q: int| 0 <= q < 4 ==> #[trigger] suit_counts[q] <= 255,
        decreases n - i,
    {
        let c = all_cards[i];
        proof {
            assert(cards.take(i + 1).drop_last() =~= cards.take(i as int));
            assert(cards.take(i + 1).last() == c);
        }
        let r = (c % 13) as usize;
        let q = (c / 13) as usize;
        proof {
            assert(count_rank(cards.take(i + 1), r as int) == count_rank(cards.take(i as int), r as int) + 1);
            assert(count_suit(cards.take(i + 1), q as int) == count_suit(cards.take(i as int), q as int) + 1);
        }
        rank_counts[r] = rank_counts[r] + 1;
        suit_counts[q] = suit_counts[q] + 1;
        if rank_counts[r] > 255 {
            proof {
                lemma_count_rank_prefix(cards, i + 1, r as int);
                assert(count_rank(cards, r as int) > 255);
            }
            return false;
        }
        if suit_counts[q] > 255 {
            proof {
                lemma_count_suit_prefix(cards, i + 1, q as int);
                assert(count_suit(cards, q as int) > 255);
            }
            return false;
        }
        i = i + 1;
    }
    assert(cards.take(n as int) =~= cards);
    assert forall|r: int| 0 <= r < 13 implies #[trigger] count_rank(cards, r) <= 255 by {
        assert(rank_counts[r] == count_rank(cards.take(n as int), r));
    }
    assert forall|q: int| 0 <= q < 4 implies #[trigger] count_suit(cards, q) <= 255 by {
        assert(suit_counts[q] == count_suit(cards.take(n as int), q));
    }
    true
}

fn card_list(hole: [u8; 2], board: &[u8]) -> (cards: Vec<u8>)
    ensures
        cards@ == quick_cards(hole, board@),
{
    let mut all_cards: Vec<u8> = Vec::new();
    all_cards.push(hole[0]);
    all_cards.push(hole[1]);
    let mut b: usize = 0;
    while b < board.len()
        invariant
            b <= board@.len(),
            all_cards@ == quick_cards(hole, board@.take(b as int)),
        decreases board@.len() - b,
    {
        all_cards.push(board[b]);
        proof {
            assert(quick_cards(hole, board@.take(b + 1)) =~= quick_cards(hole, board@.take(b as int)).push(board@[b as int]));
        }
        b = b + 1;
    }
    assert(board@.take(board@.len() as int) =~= board@);
    all_cards
}

/// What the hole cards make with the board (see
/// [`quick_hand_class_spec`]).
pub fn quick_hand_class(hole: [u8; 2], board: &[u8]) -> (class: QuickHandClass)
    requires
        hole[0] < 52,
        hole[1] < 52,
        forall|i: int| 0 <= i < board@.len() ==> #[trigger] board@[i] < 52,
        quick_counts_fit(quick_cards(hole, board@)),
    ensures
        class == quick_hand_class_spec(hole, board@),
{
    let all_cards = card_list(hole, board);
    let ghost cards = all_cards@;
    let n = all_cards.len();
    assert(forall|i: int| 0 <= i < n ==> #[trigger] cards[i] < 52) by {
        assert forall|i: int| 0 <= i < n implies #[trigger] cards[i] < 52 by {
            if i >= 2 {
                assert(cards[i] == board@[i - 2]);
            }
        }
    }
    let mut rank_counts: [u8; 13] = [0; 13];
    let mut suit_counts: [u8; 4] = [0; 4];
    let mut top: u8 = 0;
    let mut i: usize = 0;
    while i < n
        invariant
            n == cards.len(),
            quick_counts_fit(cards),
            all_cards@ == cards,
            forall|k: int| 0 <= k < n ==> #[trigger] cards[k] < 52,
            i <= n,
            forall|r: int| 0 <= r < 13 ==> #[trigger] rank_counts[r] == count_rank(cards.take(i as int), r),
            forall|q: int| 0 <= q < 4 ==> #[trigger] suit_counts[q] == count_suit(cards.take(i as int), q),
            forall|r: int| 0 <= r < 13 ==> #[trigger] count_rank(cards, r) <= 255,
            forall|q: int| 0 <= q < 4 ==> #[trigger] count_suit(cards, q) <= 255,
            top == top_rank_upto(cards, i as int),
        decreases n - i,
    {
        let c = all_cards[i];
        proof {
            assert(cards.take(i + 1).drop_last() =~= cards.take(i as int));
            assert(cards.take(i + 1).last() == c);
            assert forall|r: int| 0 <= r < 13 implies #[trigger] count_rank(cards.take(i + 1), r) <= 255 by {
                lemma_count_rank_prefix(cards, i + 1, r);
            }
            assert forall|q: int| 0 <= q < 4 implies #[trigger] count_suit(cards.take(i + 1), q) <= 255 by {
                lemma_count_suit_prefix(cards, i + 1, q);
            }
        }
        let r = (c % 13) as usize;
        let q = (c / 13) as usize;
        proof {
            lemma_count_rank_prefix(cards, i + 1, r as int);
            lemma_count_suit_prefix(cards, i + 1, q as int);
            assert(count_rank(cards.take(i + 1), r as int) == count_rank(cards.take(i as int), r as int) + 1);
            assert(count_suit(cards.take(i + 1), q as int) == count_suit(cards.take(i as int), q as int) + 1);
        }
        rank_counts[r] = rank_counts[r] + 1;
        suit_counts[q] = suit_counts[q] + 1;
        if c % 13 > top {
            top = c % 13;
        }
        i = i + 1;
    }
    assert(cards.take(n as int) =~= cards);
    proof {
        lemma_top_rank_bounds(cards, n as int);
    }
    let ghost rc = rank_counts;
    let mut pairs: u8 = 0;
    let mut trips: u8 = 0;
    let mut quads: u8 = 0;
    let mut first_pair: Option<u8> = None;
    let mut r: usize = 0;
    while r < 13
        invariant
            r <= 13,
            rank_counts == rc,
            forall|k: int| 0 <= k < 13 ==> #[trigger] rank_counts[k] == count_rank(cards, k),
            pairs == ranks_reaching(cards, 2, r as int),
            trips == ranks_reaching(cards, 3, r as int),
            quads == ranks_reaching(cards, 4, r as int),
            pairs <= r && trips <= r && quads <= r,
            first_pair is None ==> paired_rank_from(cards, 0) == paired_rank_from(cards, r as int),
            first_pair matches Some(p) ==> paired_rank_from(cards, 0) == Some(p as int),
        decreases 13 - r,
    {
        let count = rank_counts[r];
        if count >= 2 {
            pairs = pairs + 1;
            if first_pair.is_none() {
                first_pair = Some(r as u8);
            }
        }
        if count >= 3 {
            trips = trips + 1;
        }
        if count >= 4 {
            quads = quads + 1;
        }
        r = r + 1;
    }
    let h0 = hole[0] % 13;
    let h1 = hole[1] % 13;
    if quads > 0 {
        return QuickHandClass::FourOfAKind;
    }
    if trips > 0 && pairs > 1 {
        return QuickHandClass::FullHouse;
    }
    let mut s: usize = 0;
    while s < 4
        invariant
            n == cards.len(),
            all_cards@ == cards,
            forall|k: int| 0 <= k < n ==> #[trigger] cards[k] < 52,
            s <= 4,
            cards == quick_cards(hole, board@),
            pairs == ranks_reaching(cards, 2, 13),
            trips == ranks_reaching(cards, 3, 13),
            quads == ranks_reaching(cards, 4, 13),
            quads == 0,
            !(trips > 0 && pairs > 1),
            forall|q: int| 0 <= q < 4 ==> #[trigger] suit_counts[q] == count_suit(cards, q),
            flush_suit_from(cards, 0) == flush_suit_from(cards, s as int),
        decreases 4 - s,
    {
        if suit_counts[s] >= 5 {
            let mut t: u8 = 0;
            let mut j: usize = 0;
            while j < n
                invariant
                    n == cards.len(),
                    all_cards@ == cards,
                    forall|k: int| 0 <= k < n ==> #[trigger] cards[k] < 52,
                    s < 4,
                    j <= n,
                    t == top_rank_in_suit(cards, s as int, j as int),
                decreases n - j,
            {
                proof {
                    lemma_top_rank_in_suit_bounds(cards, s as int, j as int);
                }
                let c = all_cards[j];
                if (c / 13) as usize == s && c % 13 > t {
                    t = c % 13;
                }
                j = j + 1;
            }
            proof {
                lemma_top_rank_in_suit_bounds(cards, s as int, n as int);
            }
            return QuickHandClass::Flush { top_rank: t };
        }
        s = s + 1;
    }
    let ranks_vec = rank_list(&all_cards);
    if has_straight(ranks_vec.as_slice()) {
        return QuickHandClass::Straight { max_rank: top };
    }
    if trips > 0 {
        return QuickHandClass::ThreeOfAKind;
    }
    if pairs >= 2 {
        return QuickHandClass::TwoPair;
    }
    if pairs == 1 {
        let p: u8 = match first_pair {
            Some(x) => x,
            None => 0,
        };
        let on_board = board_holds_rank(board, p);
        return QuickHandClass::OnePair {
            paired_rank: p,
            pocket_pair: h0 == h1,
            top_pair: (h0 == p || h1 == p) && on_board,
        };
    }
    QuickHandClass::HighCard {
        hole_has_top: h0 == top || h1 == top,
        max_rank: top,
        max_hole_rank: if h0 >= h1 {
            h0
        } else {
            h1
        },
    }
}

fn rank_list(cards: &Vec<u8>) -> (ranks: Vec<u8>)
    ensures
        ranks@ == ranks_of(cards@),
{
    let mut ranks: Vec<u8> = Vec::new();
    let mut i: usize = 0;
    while i < cards.len()
        invariant
            i <= cards@.len(),
            ranks@ =~= cards@.take(i as int).map_values(|c: u8| (c % 13) as u8),
        decreases cards@.len() - i,
    {
        ranks.push(cards[i] % 13);
        proof {
            assert(cards@.take(i + 1) =~= cards@.take(i as int).push(cards@[i as int]));
        }
        i = i + 1;
    }
    assert(cards@.take(cards@.len() as int) =~= cards@);
    ranks
}

fn board_holds_rank(board: &[u8], rank: u8) -> (b: bool)
    ensures
        b == board_has_rank(board@, rank as int),
{
    let mut i: usize = 0;
    while i < board.len()
        invariant
            i <= board@.len(),
            forall|j: int| 0 <= j < i ==> #[trigger] card_rank(board@[j]) != rank,
        decreases board@.len() - i,
    {
        if board[i] % 13 == rank {
            assert(card_rank(board@[i as int]) == rank);
            return true;
        }
        i = i + 1;
    }
    false
}

} // verus!
