//! Solver-side interfaces: the terminal/chance classification of game states
//! and the expected-value calculator's configuration and action choices.

pub mod cfr_core;
pub mod ev_calculator;
