//! Texas Hold'em poker engine: hand evaluation, card abstraction, the
//! betting state machine, tournament table management, and the validation
//! of game states that clients send.

pub mod api;
pub mod game;
pub mod solver;

pub use api::analysis::{AnalysisError, HoldemStateBuilder, RiskLevel, ValidationError};
pub use api::cache::{CacheConfig, StateSignature};
pub use api::web_api::{Action, OfflineTrainer, WebGameState};
pub use game::card_abstraction;
pub use game::hand_eval;
pub use game::holdem;
pub use game::holdem::{Act, Act as HoldemAction, State, State as HoldemState};
pub use game::tournament;
pub use game::tournament::ICMCalculator;
pub use solver::cfr_core;
pub use solver::cfr_core::GameState;
pub use solver::ev_calculator;

use vstd::prelude::*;

verus! {

/// Rank letter of a rank index: A, 2-9, T, J, Q, K.
pub open spec fn rank_letter(rank: int) -> Seq<char> {
    if rank == 0 {
        "A"@
    } else if rank == 1 {
        "2"@
    } else if rank == 2 {
        "3"@
    } else if rank == 3 {
        "4"@
    } else if rank == 4 {
        "5"@
    } else if rank == 5 {
        "6"@
    } else if rank == 6 {
        "7"@
    } else if rank == 7 {
        "8"@
    } else if rank == 8 {
        "9"@
    } else if rank == 9 {
        "T"@
    } else if rank == 10 {
        "J"@
    } else if rank == 11 {
        "Q"@
    } else {
        "K"@
    }
}

/// Suit letter of a suit index: s, h, d, c.
pub open spec fn suit_letter(suit: int) -> Seq<char> {
    if suit == 0 {
        "s"@
    } else if suit == 1 {
        "h"@
    } else if suit == 2 {
        "d"@
    } else {
        "c"@
    }
}

/// Two-letter name of a card below 52.
pub open spec fn card_name(card: u8) -> Seq<char> {
    rank_letter((card % 13) as int) + suit_letter((card / 13) as int)
}

/// Names of the cards, separated by single spaces.
pub open spec fn cards_names(cards: Seq<u8>) -> Seq<char>
    decreases cards.len(),
{
    if cards.len() == 0 {
        Seq::empty()
    } else if cards.len() == 1 {
        card_name(cards[0])
    } else {
        cards_names(cards.drop_last()) + " "@ + card_name(cards.last())
    }
}

fn rank_letter_str(rank: u8) -> (s: &'static str)
    requires
        rank < 13,
    ensures
        s@ == rank_letter(rank as int),
{
    match rank {
        0 => "A",
        1 => "2",
        2 => "3",
        3 => "4",
        4 => "5",
        5 => "6",
        6 => "7",
        7 => "8",
        8 => "9",
        9 => "T",
        10 => "J",
        11 => "Q",
        _ => "K",
    }
}

fn suit_letter_str(suit: u8) -> (s: &'static str)
    requires
        suit < 4,
    ensures
        s@ == suit_letter(suit as int),
{
    match suit {
        0 => "s",
        1 => "h",
        2 => "d",
        _ => "c",
    }
}

/// Two-letter card name such as "As", "Th" or "Kc".
pub fn card_to_string(card: u8) -> (s: String)
    requires
        card < 52,
    ensures
        s@ == card_name(card),
{
    let mut s = String::from_str(rank_letter_str(card % 13));
    s.append(suit_letter_str(card / 13));
    s
}

/// Card names separated by single spaces, e.g. "As Ah".
pub fn cards_to_string(cards: &[u8]) -> (s: String)
    requires
        forall|i: int| 0 <= i < cards@.len() ==> #[trigger] cards@[i] < 52,
    ensures
        s@ == cards_names(cards@),
{
    let mut s = String::new();
    let mut i: usize = 0;
    while i < cards.len()
        invariant
            0 <= i <= cards@.len(),
            forall|k: int| 0 <= k < cards@.len() ==> #[trigger] cards@[k] < 52,
            s@ == cards_names(cards@.subrange(0, i as int)),
        decreases cards@.len() - i,
    {
        let name = card_to_string(cards[i]);
        let ghost prev = cards@.subrange(0, i as int);
        assert(cards@.subrange(0, i + 1).drop_last() =~= prev);
        if i > 0 {
            s.append(" ");
        }
        s.append(name.as_str());
        i = i + 1;
        proof {
            if i == 1 {
                assert(prev.len() == 0);
                assert(s@ =~= cards_names(cards@.subrange(0, i as int)));
            }
        }
    }
    assert(cards@.subrange(0, cards@.len() as int) =~= cards@);
    s
}

} // verus!
