//! Game logic: hand evaluation, card abstraction, table state and
//! tournament bookkeeping.

pub mod card_abstraction;
pub mod hand_eval;
pub mod holdem;
pub mod tournament;
pub mod tournament_holdem;
