//! Game state as web clients send it, its conversion to a hand state, and
//! the scenarios offline training starts from.

use vstd::prelude::*;
use crate::game::holdem::{State, StateModel};

verus! {

/// Game state as a web client describes it.
#[derive(Clone, Debug)]
pub struct WebGameState {
    /// The requesting player's hole cards.
    pub hole_cards: [u8; 2],
    /// Board cards (0, 3, 4 or 5).
    pub board: Vec<u8>,
    /// Street: 0 preflop, 1 flop, 2 turn, 3 river.
    pub street: u8,
    /// Chips in the pot.
    pub pot: u32,
    /// Stacks of the players listed in `alive_players`, in that order.
    pub stacks: Vec<u32>,
    /// Seats of the players still in the hand.
    pub alive_players: Vec<usize>,
    /// Chips each seat put in on this street.
    pub street_investments: Vec<u32>,
    /// Amount to call.
    pub to_call: u32,
    /// Seat to act.
    pub player_to_act: usize,
    /// Seat of the requesting player.
    pub hero_position: usize,
    /// Actions taken on each street.
    pub betting_history: Vec<Vec<Action>>,
}

/// An action in a web client's betting history.
#[derive(Clone, Debug)]
pub enum Action {
    Fold,
    Call,
    /// Raise by the given number of chips.
    Raise(u32),
}

/// Stacks after copying the listed players' stacks onto their seats, for
/// the first `n` listed players (a later listing of a seat wins).
pub open spec fn seat_stacks(alive_players: Seq<usize>, stacks: Seq<u32>, n: int) -> Seq<int>
    decreases n,
{
    if n <= 0 {
        Seq::new(6, |i: int| 0int)
    } else {
        let prev = seat_stacks(alive_players, stacks, n - 1);
        let p = alive_players[n - 1];
        if p < 6 && n - 1 < stacks.len() {
            prev.update(p as int, stacks[n - 1] as int)
        } else {
            prev
        }
    }
}

/// Seats marked live by the first `n` listed players that have a stack.
pub open spec fn seat_alive(alive_players: Seq<usize>, stacks: Seq<u32>, n: int) -> Seq<bool>
    decreases n,
{
    if n <= 0 {
        Seq::new(6, |i: int| false)
    } else {
        let prev = seat_alive(alive_players, stacks, n - 1);
        let p = alive_players[n - 1];
        if p < 6 && n - 1 < stacks.len() {
            prev.update(p as int, true)
        } else {
            prev
        }
    }
}

/// The hand state a web game state describes: the hero's hole cards (other
/// seats get no cards), the board, street, pot and call as given, each
/// listed player's stack on that player's seat and the seat live, the first
/// six street investments, no actions taken yet.
pub open spec fn web_state_model(w: WebGameState) -> StateModel {
    StateModel {
        hole: Seq::new(6, |i: int| [0u8, 0u8]).update(w.hero_position as int, w.hole_cards),
        board: w.board@,
        to_act: w.player_to_act as int,
        street: w.street as int,
        pot: w.pot as int,
        stack: seat_stacks(w.alive_players@, w.stacks@, w.alive_players@.len() as int),
        alive: seat_alive(w.alive_players@, w.stacks@, w.alive_players@.len() as int),
        invested: Seq::new(
            6,
            |i: int|
                if i < w.street_investments@.len() {
                    w.street_investments@[i] as int
                } else {
                    0
                },
        ),
        to_call: w.to_call as int,
        actions_taken: 0,
    }
}

/// Copies a list of cards.
fn copy_cards(v: &Vec<u8>) -> (r: Vec<u8>)
    ensures
        r@ == v@,
{
    let mut r: Vec<u8> = Vec::new();
    let mut i: usize = 0;
    while i < v.len()
        invariant
            0 <= i <= v@.len(),
            r@ == v@.subrange(0, i as int),
        decreases v@.len() - i,
    {
        r.push(v[i]);
        i = i + 1;
    }
    assert(r@ =~= v@);
    r
}

/// Hand state for a web game state (see [`web_state_model`]).
pub fn web_to_internal_state(web_state: &WebGameState) -> (state: State)
    requires
        web_state.hero_position < 6,
    ensures
        state@ == web_state_model(*web_state),
{
    let mut state = State {
        hole: [[0, 0], [0, 0], [0, 0], [0, 0], [0, 0], [0, 0]],
        board: copy_cards(&web_state.board),
        to_act: web_state.player_to_act,
        street: web_state.street,
        pot: web_state.pot,
        stack: [0; 6],
        alive: [false; 6],
        invested: [0; 6],
        to_call: web_state.to_call,
        actions_taken: 0,
    };
    state.hole[web_state.hero_position] = web_state.hole_cards;
    let ghost w = *web_state;
    let ghost hole = state@.hole;
    assert(hole =~= Seq::new(6, |i: int| [0u8, 0u8]).update(w.hero_position as int, w.hole_cards));
    let mut i: usize = 0;
    while i < web_state.alive_players.len()
        invariant
            w == *web_state,
            0 <= i <= w.alive_players@.len(),
            state@.hole == hole,
            state@.board == w.board@,
            state.to_act == w.player_to_act,
            state.street == w.street,
            state.pot == w.pot,
            state.to_call == w.to_call,
            state.actions_taken == 0,
            forall|j: int| 0 <= j < 6 ==> #[trigger] state.invested@[j] == 0,
            state@.stack =~= seat_stacks(w.alive_players@, w.stacks@, i as int),
            state@.alive =~= seat_alive(w.alive_players@, w.stacks@, i as int),
        decreases w.alive_players@.len() - i,
    {
        let player_idx = web_state.alive_players[i];
        if player_idx < 6 && i < web_state.stacks.len() {
            state.stack[player_idx] = web_state.stacks[i];
            state.alive[player_idx] = true;
        }
        i = i + 1;
    }
    let mut k: usize = 0;
    while k < web_state.street_investments.len()
        invariant
            w == *web_state,
            0 <= k <= w.street_investments@.len(),
            state@.hole == hole,
            state@.board == w.board@,
            state.to_act == w.player_to_act,
            state.street == w.street,
            state.pot == w.pot,
            state.to_call == w.to_call,
            state.actions_taken == 0,
            forall|j: int| 0 <= j < 6 ==> #[trigger] state.invested@[j] == if j < k && j < w.street_investments@.len() {
                w.street_investments@[j]
            } else {
                0u32
            },
            state@.stack =~= seat_stacks(w.alive_players@, w.stacks@, w.alive_players@.len() as int),
            state@.alive =~= seat_alive(w.alive_players@, w.stacks@, w.alive_players@.len() as int),
        decreases w.street_investments@.len() - k,
    {
        if k < 6 {
            state.invested[k] = web_state.street_investments[k];
        }
        k = k + 1;
    }
    assert(state@ =~= web_state_model(w));
    state
}

/// Source of the game states that offline strategy training starts from.
pub struct OfflineTrainer;

/// Preflop scenario: pocket aces for seat 0 at a six-handed table with
/// 2,000 chips each, blinds 25/50 in from seats 4 and 5.
pub open spec fn preflop_scenario() -> StateModel {
    StateModel {
        hole: seq![[0u8, 13u8], [26u8, 39u8], [0u8, 0u8], [0u8, 0u8], [0u8, 0u8], [0u8, 0u8]],
        board: seq![],
        to_act: 0,
        street: 0,
        pot: 75,
        stack: seq![2000int, 2000, 2000, 2000, 2000, 2000],
        alive: seq![true, true, true, true, true, true],
        invested: seq![0int, 0, 0, 0, 25, 50],
        to_call: 50,
        actions_taken: 0,
    }
}

/// Flop scenario: heads-up on a dry A-9-3 board, 1,000 chips each, 200 in
/// the pot.
pub open spec fn postflop_scenario() -> StateModel {
    StateModel {
        hole: seq![[0u8, 1u8], [26u8, 39u8], [0u8, 0u8], [0u8, 0u8], [0u8, 0u8], [0u8, 0u8]],
        board: seq![48u8, 21u8, 6u8],
        to_act: 0,
        street: 1,
        pot: 200,
        stack: seq![1000int, 1000, 0, 0, 0, 0],
        alive: seq![true, true, false, false, false, false],
        invested: seq![0int, 0, 0, 0, 0, 0],
        to_call: 0,
        actions_taken: 0,
    }
}

/// Bubble scenario: a short stack of 800 against 3,000, blinds 25/50 in.
pub open spec fn special_scenario() -> StateModel {
    StateModel {
        hole: seq![[40u8, 41u8], [26u8, 39u8], [0u8, 0u8], [0u8, 0u8], [0u8, 0u8], [0u8, 0u8]],
        board: seq![],
        to_act: 0,
        street: 0,
        pot: 150,
        stack: seq![800int, 3000, 0, 0, 0, 0],
        alive: seq![true, true, false, false, false, false],
        invested: seq![25int, 50, 0, 0, 0, 0],
        to_call: 50,
        actions_taken: 0,
    }
}

impl OfflineTrainer {
    /// All training scenarios: preflop, then postflop, then special.
    pub fn generate_training_scenarios() -> (scenarios: Vec<State>)
        ensures
            scenarios@.len() == 3,
            scenarios@[0]@ == preflop_scenario(),
            scenarios@[1]@ == postflop_scenario(),
            scenarios@[2]@ == special_scenario(),
    {
        let mut scenarios: Vec<State> = Vec::new();
        let mut pre = Self::generate_preflop_scenarios();
        let mut post = Self::generate_postflop_scenarios();
        let mut special = Self::generate_special_scenarios();
        scenarios.append(&mut pre);
        scenarios.append(&mut post);
        scenarios.append(&mut special);
        scenarios
    }

    /// Preflop scenarios (see [`preflop_scenario`]).
    pub fn generate_preflop_scenarios() -> (scenarios: Vec<State>)
        ensures
            scenarios@.len() == 1,
            scenarios@[0]@ == preflop_scenario(),
    {
        let s = State {
            hole: [[0, 13], [26, 39], [0, 0], [0, 0], [0, 0], [0, 0]],
            board: Vec::new(),
            to_act: 0,
            street: 0,
            pot: 75,
            stack: [2000; 6],
            alive: [true; 6],
            invested: [0, 0, 0, 0, 25, 50],
            to_call: 50,
            actions_taken: 0,
        };
        assert(s@ =~= preflop_scenario());
        let mut v: Vec<State> = Vec::new();
        v.push(s);
        v
    }

    /// Postflop scenarios (see [`postflop_scenario`]).
    pub fn generate_postflop_scenarios() -> (scenarios: Vec<State>)
        ensures
            scenarios@.len() == 1,
            scenarios@[0]@ == postflop_scenario(),
    {
        let mut board: Vec<u8> = Vec::new();
        board.push(48);
        board.push(21);
        board.push(6);
        let s = State {
            hole: [[0, 1], [26, 39], [0, 0], [0, 0], [0, 0], [0, 0]],
            board,
            to_act: 0,
            street: 1,
            pot: 200,
            stack: [1000, 1000, 0, 0, 0, 0],
            alive: [true, true, false, false, false, false],
            invested: [0, 0, 0, 0, 0, 0],
            to_call: 0,
            actions_taken: 0,
        };
        assert(s@ =~= postflop_scenario());
        let mut v: Vec<State> = Vec::new();
        v.push(s);
        v
    }

    /// Special-situation scenarios (see [`special_scenario`]).
    pub fn generate_special_scenarios() -> (scenarios: Vec<State>)
        ensures
            scenarios@.len() == 1,
            scenarios@[0]@ == special_scenario(),
    {
        let s = State {
            hole: [[40, 41], [26, 39], [0, 0], [0, 0], [0, 0], [0, 0]],
            board: Vec::new(),
            to_act: 0,
            street: 0,
            pot: 150,
            stack: [800, 3000, 0, 0, 0, 0],
            alive: [true, true, false, false, false, false],
            invested: [25, 50, 0, 0, 0, 0],
            to_call: 50,
            actions_taken: 0,
        };
        assert(s@ =~= special_scenario());
        let mut v: Vec<State> = Vec::new();
        v.push(s);
        v
    }
}

} // verus!
