//! Hold'em inside a tournament: the seat to act and the actions that the
//! tournament context allows.

use vstd::prelude::*;
use crate::game::holdem::{chance_node, legal_actions_spec, terminal, Act, State};
use crate::solver::cfr_core::GameState;

verus! {

/// The tournament allows the action: every fold and call, and raises of at
/// most one unit while the bubble pressure is high.
pub open spec fn action_allowed(action: Act, high_bubble_pressure: bool) -> bool {
    match action {
        Act::Raise(size) => !(high_bubble_pressure && size > 1),
        _ => true,
    }
}

/// Whether the tournament allows `action`. `high_bubble_pressure` says
/// whether the bubble pressure is above 0.7.
pub fn is_action_allowed_in_tournament(action: &Act, high_bubble_pressure: bool) -> (allowed: bool)
    ensures
        allowed == action_allowed(*action, high_bubble_pressure),
{
    match action {
        Act::Fold => true,
        Act::Call => true,
        Act::Raise(size) => !(high_bubble_pressure && *size > 1),
    }
}

/// The allowed actions among the first `n` of `base`, in order.
pub open spec fn allowed_upto(base: Seq<Act>, high_bubble_pressure: bool, n: int) -> Seq<Act>
    decreases n,
{
    if n <= 0 {
        Seq::empty()
    } else if action_allowed(base[n - 1], high_bubble_pressure) {
        allowed_upto(base, high_bubble_pressure, n - 1).push(base[n - 1])
    } else {
        allowed_upto(base, high_bubble_pressure, n - 1)
    }
}

/// The Hold'em actions that the tournament allows, in order, or a lone fold
/// when none is left.
pub open spec fn tournament_actions(base: Seq<Act>, high_bubble_pressure: bool) -> Seq<Act> {
    let allowed = allowed_upto(base, high_bubble_pressure, base.len() as int);
    if allowed.len() == 0 {
        seq![Act::Fold]
    } else {
        allowed
    }
}

/// Seat to act in a tournament hand: none at a terminal or chance state,
/// else the seat whose turn it is.
pub fn tournament_current_player(s: &State) -> (p: Option<usize>)
    ensures
        p == (if terminal(s@) || chance_node(s@) {
            None
        } else {
            Some(s.to_act)
        }),
{
    if s.is_terminal() || s.is_chance_node() {
        None
    } else {
        Some(s.to_act)
    }
}

/// Actions open in a tournament hand: the Hold'em actions that the
/// tournament allows, or a lone fold when none is left.
pub fn tournament_legal_actions(s: &State, high_bubble_pressure: bool) -> (actions: Vec<Act>)
    requires
        s.to_act < 6 || terminal(s@) || chance_node(s@),
    ensures
        actions@ == tournament_actions(legal_actions_spec(s@), high_bubble_pressure),
{
    let base = State::legal_actions(s);
    let mut allowed: Vec<Act> = Vec::new();
    let mut i: usize = 0;
    while i < base.len()
        invariant
            i <= base@.len(),
            allowed@ == allowed_upto(base@, high_bubble_pressure, i as int),
        decreases base@.len() - i,
    {
        let action = base[i];
        if is_action_allowed_in_tournament(&action, high_bubble_pressure) {
            allowed.push(action);
        }
        i = i + 1;
    }
    if allowed.len() == 0 {
        let mut fold_only: Vec<Act> = Vec::new();
        fold_only.push(Act::Fold);
        assert(fold_only@ =~= seq![Act::Fold]);
        fold_only
    } else {
        allowed
    }
}

} // verus!
