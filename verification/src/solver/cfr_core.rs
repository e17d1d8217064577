//! The state classification that counterfactual regret minimisation walks
//! a game tree by.

use vstd::prelude::*;

verus! {

/// Classification of a game state: finished, or waiting for cards to be
/// dealt.
pub trait GameState {
    /// The hand is over (everyone folded, showdown reached, or the tree is
    /// cut off).
    fn is_terminal(&self) -> bool;

    /// Betting is complete and the next cards must be dealt.
    fn is_chance_node(&self) -> bool;
}

} // verus!
