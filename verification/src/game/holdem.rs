//! No-limit Texas Hold'em hand state for up to six players, and the betting
//! rules that move it forward.

use vstd::prelude::*;
use rand::Rng;
use rand::seq::SliceRandom;
use rand::rngs::ThreadRng;
use crate::solver::cfr_core::GameState;
use crate::game::card_abstraction::{preflop_bucket, postflop_bucket, preflop_bucket_spec, postflop_bucket_spec};

verus! {

/// One hand of No-Limit Hold'em: hole cards, board, stacks and the betting
/// of the current street.
#[derive(Clone, Debug)]
pub struct State {
    /// Each player's two hole cards.
    pub hole: [[u8; 2]; 6],
    /// Board cards dealt so far.
    pub board: Vec<u8>,
    /// Seat to act (6 marks a finished betting round).
    pub to_act: usize,
    /// Street: 0 preflop, 1 flop, 2 turn, 3 river.
    pub street: u8,
    /// Chips in the pot.
    pub pot: u32,
    /// Each player's remaining chips.
    pub stack: [u32; 6],
    /// Players still in the hand.
    pub alive: [bool; 6],
    /// Chips each player put in on this street.
    pub invested: [u32; 6],
    /// Amount to call on this street.
    pub to_call: u32,
    /// Actions taken on this street.
    pub actions_taken: usize,
}

/// A betting action.
#[derive(Copy, Clone, Eq, Hash, PartialEq, Debug, Structural)]
pub enum Act {
    /// Give up the hand.
    Fold,
    /// Match the current bet.
    Call,
    /// Raise: size 0 bets the pot (capped by the stack), any other size goes
    /// all in.
    Raise(u8),
}

/// Mathematical model of a [`State`].
#[verifier::ext_equal]
pub struct StateModel {
    pub hole: Seq<[u8; 2]>,
    pub board: Seq<u8>,
    pub to_act: int,
    pub street: int,
    pub pot: int,
    pub stack: Seq<int>,
    pub alive: Seq<bool>,
    pub invested: Seq<int>,
    pub to_call: int,
    pub actions_taken: int,
}

impl View for State {
    type V = StateModel;

    open spec fn view(&self) -> StateModel {
        StateModel {
            hole: self.hole@,
            board: self.board@,
            to_act: self.to_act as int,
            street: self.street as int,
            pot: self.pot as int,
            stack: self.stack@.map_values(|x: u32| x as int),
            alive: self.alive@,
            invested: self.invested@.map_values(|x: u32| x as int),
            to_call: self.to_call as int,
            actions_taken: self.actions_taken as int,
        }
    }
}

/// Number of seats among the first `n` whose player is still in the hand.
pub open spec fn alive_count_upto(alive: Seq<bool>, n: int) -> int
    decreases n,
{
    if n <= 0 {
        0
    } else {
        alive_count_upto(alive, n - 1) + if alive[n - 1] {
            1int
        } else {
            0int
        }
    }
}

/// Number of players still in the hand.
pub open spec fn alive_count(m: StateModel) -> int {
    alive_count_upto(m.alive, 6)
}

/// The player in seat `p` has no chips behind.
pub open spec fn all_in(m: StateModel, p: int) -> bool {
    m.stack[p] == 0
}

/// The betting round is over: at most one player is left, or every live
/// player has acted and every live player who is not all in has put in as
/// much as any live player.
pub open spec fn betting_complete(m: StateModel) -> bool {
    let n = alive_count(m);
    if n <= 1 {
        true
    } else if m.actions_taken < n {
        false
    } else {
        forall|p: int, q: int|
            0 <= p < 6 && 0 <= q < 6 && #[trigger] m.alive[p] && #[trigger] m.alive[q] ==> all_in(m, p)
                || m.invested[p] >= m.invested[q]
    }
}

/// Seat `k` places after `current` going round the six-seat table.
pub open spec fn seat_after(current: int, k: int) -> int {
    (current + k) % 6
}

/// First live seat found going round the table from `current + i` to
/// `current + 6`.
pub open spec fn next_alive_from(alive: Seq<bool>, current: int, i: int) -> Option<int>
    decreases 7 - i,
{
    if i > 6 {
        None
    } else if alive[seat_after(current, i)] {
        Some(seat_after(current, i))
    } else {
        next_alive_from(alive, current, i + 1)
    }
}

/// The next live seat after `current`, or none when at most one player is
/// left.
pub open spec fn next_player(m: StateModel, current: int) -> Option<int> {
    if alive_count(m) <= 1 {
        None
    } else {
        next_alive_from(m.alive, current, 1)
    }
}

/// First live seat at or after `i`, or 0 when none is live.
pub open spec fn first_alive_from(alive: Seq<bool>, i: int) -> int
    decreases 6 - i,
{
    if i >= 6 {
        0
    } else if alive[i] {
        i
    } else {
        first_alive_from(alive, i + 1)
    }
}

/// The state after moving to the next street: betting is reset and the
/// first live seat acts.
pub open spec fn advance_street_model(m: StateModel) -> StateModel {
    StateModel {
        street: m.street + 1,
        invested: Seq::new(6, |i: int| 0int),
        to_call: 0,
        actions_taken: 0,
        to_act: first_alive_from(m.alive, 0),
        ..m
    }
}

impl State {
    /// Counts the players still in the hand.
    fn count_alive(&self) -> (n: usize)
        ensures
            n == alive_count(self@),
            n <= 6,
    {
        let mut n: usize = 0;
        let mut i: usize = 0;
        while i < 6
            invariant
                0 <= i <= 6,
                n == alive_count_upto(self.alive@, i as int),
                n <= i,
            decreases 6 - i,
        {
            if self.alive[i] {
                n = n + 1;
            }
            i = i + 1;
        }
        n
    }

    /// The next live seat after `current`.
    fn find_next_player(&self, current: usize) -> (next: Option<usize>)
        requires
            current <= usize::MAX - 6,
        ensures
            match next {
                Some(p) => next_player(self@, current as int) == Some(p as int),
                None => next_player(self@, current as int) == None::<int>,
            },
            next matches Some(p) ==> p < 6 && self.alive@[p as int],
    {
        let n_alive = self.count_alive();
        if n_alive <= 1 {
            return None;
        }
        let mut i: usize = 1;
        while i <= 6
            invariant
                1 <= i <= 7,
                current <= usize::MAX - 6,
                n_alive == alive_count(self@),
                n_alive > 1,
                next_alive_from(self.alive@, current as int, 1) == next_alive_from(
                    self.alive@,
                    current as int,
                    i as int,
                ),
            decreases 7 - i,
        {
            let next = (current + i) % 6;
            if self.alive[next] {
                return Some(next);
            }
            i = i + 1;
        }
        None
    }

    /// Whether the betting round is over.
    fn is_betting_complete(&self) -> (done: bool)
        ensures
            done == betting_complete(self@),
    {
        let n = self.count_alive();
        if n <= 1 {
            return true;
        }
        if self.actions_taken < n {
            return false;
        }
        let ghost m = self@;
        let mut max_investment: u32 = 0;
        let mut i: usize = 0;
        while i < 6
            invariant
                m == self@,
                0 <= i <= 6,
                forall|j: int| 0 <= j < i && #[trigger] self.alive@[j] ==> self.invested@[j] <= max_investment,
                max_investment == 0 || exists|j: int| 0 <= j < i && #[trigger] self.alive@[j] && self.invested@[j] == max_investment,
            decreases 6 - i,
        {
            if self.alive[i] && self.invested[i] > max_investment {
                max_investment = self.invested[i];
            }
            i = i + 1;
        }
        let mut k: usize = 0;
        while k < 6
            invariant
                m == self@,
                0 <= k <= 6,
                n == alive_count(m),
                n > 1,
                self.actions_taken >= n,
                forall|j: int| 0 <= j < 6 && #[trigger] self.alive@[j] ==> self.invested@[j] <= max_investment,
                max_investment == 0 || exists|j: int| 0 <= j < 6 && #[trigger] self.alive@[j] && self.invested@[j] == max_investment,
                forall|p: int| 0 <= p < k && #[trigger] self.alive@[p] ==> self.stack@[p] == 0 || self.invested@[p] >= max_investment,
            decreases 6 - k,
        {
            if self.alive[k] && !self.is_all_in(k) && self.invested[k] < max_investment {
                assert(!betting_complete(m)) by {
                    if max_investment > 0 {
                        let j = choose|j: int| 0 <= j < 6 && #[trigger] self.alive@[j] && self.invested@[j] == max_investment;
                        assert(m.alive[k as int] && m.alive[j]);
                    }
                }
                return false;
            }
            k = k + 1;
        }
        assert(betting_complete(m)) by {
            assert forall|p: int, q: int|
                0 <= p < 6 && 0 <= q < 6 && #[trigger] m.alive[p] && #[trigger] m.alive[q] implies all_in(m, p)
                || m.invested[p] >= m.invested[q] by {
                assert(self.alive@[p] && self.alive@[q]);
            }
        }
        true
    }

    /// Moves to the next street: resets this street's betting and hands the
    /// action to the first live seat.
    fn advance_street(&mut self)
        requires
            old(self).street < 255,
        ensures
            final(self)@ == advance_street_model(old(self)@),
    {
        let first = self.first_alive();
        self.street = self.street + 1;
        self.invested = [0; 6];
        self.to_call = 0;
        self.actions_taken = 0;
        self.to_act = first;
        assert(self@ =~= advance_street_model(old(self)@));
    }

    /// First live seat, or 0 when none is live.
    fn first_alive(&self) -> (i: usize)
        ensures
            i == first_alive_from(self.alive@, 0),
            i < 6,
    {
        let mut i: usize = 0;
        while i < 6
            invariant
                0 <= i <= 6,
                first_alive_from(self.alive@, 0) == first_alive_from(self.alive@, i as int),
            decreases 6 - i,
        {
            if self.alive[i] {
                return i;
            }
            i = i + 1;
        }
        0
    }

    /// Whether the player in seat `player` has no chips behind.
    pub fn is_all_in(&self, player: usize) -> (res: bool)
        requires
            player < 6,
        ensures
            res == all_in(self@, player as int),
    {
        self.stack[player] == 0
    }

    /// Minimum raise: twice the amount to call, and at least the default
    /// big blind of 100.
    pub fn min_raise_size(&self) -> (size: u32)
        requires
            self.to_call * 2 <= u32::MAX,
        ensures
            size == if self.to_call * 2 >= 100 {
                self.to_call * 2
            } else {
                100
            },
    {
        let doubled = self.to_call * 2;
        if doubled >= 100 {
            doubled
        } else {
            100
        }
    }
}

/// Every live player is all in.
pub open spec fn all_alive_all_in(m: StateModel) -> bool {
    forall|p: int| 0 <= p < 6 && #[trigger] m.alive[p] ==> m.stack[p] == 0
}

/// The hand is over: at most one player left, the action cap reached
/// (more than 12 actions on a street, or more than 6 after the flop),
/// betting complete on the river, or every live player all in.
pub open spec fn terminal(m: StateModel) -> bool {
    ||| alive_count(m) <= 1
    ||| m.actions_taken > 12
    ||| (m.street >= 1 && m.actions_taken > 6)
    ||| (m.street >= 3 && betting_complete(m))
    ||| all_alive_all_in(m)
}

/// Betting is complete before the river and the hand goes on: the next
/// cards must be dealt.
pub open spec fn chance_node(m: StateModel) -> bool {
    !terminal(m) && betting_complete(m) && m.street < 3
}

/// Seat to act: none at a terminal or chance state or when betting is
/// complete; else the seat to act when that player is live and not all in,
/// otherwise the next live seat.
pub open spec fn current_player_spec(m: StateModel) -> Option<int> {
    if terminal(m) || chance_node(m) || betting_complete(m) {
        None
    } else if m.alive[m.to_act] && !all_in(m, m.to_act) {
        Some(m.to_act)
    } else {
        next_player(m, m.to_act)
    }
}

/// Amount the seat to act still has to put in to call (never negative).
pub open spec fn call_amount(m: StateModel, p: int) -> int {
    if m.to_call >= m.invested[p] {
        m.to_call - m.invested[p]
    } else {
        0
    }
}

/// Legal actions: none at a terminal or chance state or for a folded or
/// all-in seat; else fold, call when the stack covers the call, and one
/// raise size when chips remain after calling.
pub open spec fn legal_actions_spec(m: StateModel) -> Seq<Act> {
    if terminal(m) || chance_node(m) {
        seq![]
    } else {
        let p = m.to_act;
        if !m.alive[p] || all_in(m, p) {
            seq![]
        } else {
            let call = call_amount(m, p);
            seq![Act::Fold] + (if call <= m.stack[p] {
                seq![Act::Call]
            } else {
                seq![]
            }) + (if m.stack[p] > call && m.stack[p] - call > 0 {
                seq![Act::Raise(0)]
            } else {
                seq![]
            })
        }
    }
}

/// Chips the seat to act puts in with a call or a raise.
pub open spec fn chips_put_in(m: StateModel, a: Act) -> int {
    let p = m.to_act;
    let call = call_amount(m, p);
    match a {
        Act::Fold => 0,
        Act::Call => if call <= m.stack[p] {
            call
        } else {
            m.stack[p]
        },
        Act::Raise(size) => {
            let raise = if size == 0 {
                if m.pot <= m.stack[p] - call {
                    m.pot
                } else {
                    m.stack[p] - call
                }
            } else {
                m.stack[p] - call
            };
            call + raise
        },
    }
}

/// The action can be applied without leaving the machine integers: a seat
/// below 6 acts, a raise is covered by the stack, and the pot, the seat's
/// investment and the action count stay in range.
pub open spec fn next_state_ok(m: StateModel, a: Act) -> bool {
    let p = m.to_act;
    &&& 0 <= p < 6
    &&& m.actions_taken < usize::MAX
    &&& (a is Raise ==> m.stack[p] >= call_amount(m, p))
    &&& m.pot + chips_put_in(m, a) <= u32::MAX
    &&& m.invested[p] + chips_put_in(m, a) <= u32::MAX
}

/// The state after the action and the count, before the turn passes.
pub open spec fn apply_action(m: StateModel, a: Act) -> StateModel {
    let p = m.to_act;
    let put = chips_put_in(m, a);
    let acted = match a {
        Act::Fold => StateModel { alive: m.alive.update(p, false), ..m },
        Act::Call => StateModel {
            invested: m.invested.update(p, m.invested[p] + put),
            stack: m.stack.update(p, m.stack[p] - put),
            pot: m.pot + put,
            ..m
        },
        Act::Raise(_) => StateModel {
            invested: m.invested.update(p, m.invested[p] + put),
            stack: m.stack.update(p, m.stack[p] - put),
            pot: m.pot + put,
            to_call: m.invested[p] + put,
            ..m
        },
    };
    StateModel { actions_taken: acted.actions_taken + 1, ..acted }
}

/// The state after the seat to act takes action `a`: the action applied and
/// counted, then seat 6 to act if the round is complete, else the next live
/// seat.
pub open spec fn next_state_spec(m: StateModel, a: Act) -> StateModel {
    let acted = apply_action(m, a);
    if betting_complete(acted) {
        StateModel { to_act: 6, ..acted }
    } else {
        match next_player(acted, m.to_act) {
            Some(q) => StateModel { to_act: q, ..acted },
            None => acted,
        }
    }
}

impl State {
    /// An exact copy of the state.
    fn copy_state(&self) -> (r: State)
        ensures
            r@ == self@,
    {
        let mut board: Vec<u8> = Vec::new();
        let mut i: usize = 0;
        while i < self.board.len()
            invariant
                0 <= i <= self.board@.len(),
                board@ == self.board@.subrange(0, i as int),
            decreases self.board@.len() - i,
        {
            board.push(self.board[i]);
            i = i + 1;
        }
        assert(board@ =~= self.board@);
        let r = State {
            hole: self.hole,
            board,
            to_act: self.to_act,
            street: self.street,
            pot: self.pot,
            stack: self.stack,
            alive: self.alive,
            invested: self.invested,
            to_call: self.to_call,
            actions_taken: self.actions_taken,
        };
        assert(r@ =~= self@);
        r
    }

    /// Seat to act, or none at a terminal or chance state or when the
    /// betting round is complete.
    pub fn current_player(s: &State) -> (p: Option<usize>)
        requires
            s.to_act < 6 || terminal(s@) || chance_node(s@) || betting_complete(s@),
        ensures
            match p {
                Some(q) => current_player_spec(s@) == Some(q as int),
                None => current_player_spec(s@) == None::<int>,
            },
    {
        if s.is_terminal() || s.is_chance_node() {
            return None;
        }
        if s.is_betting_complete() {
            return None;
        }
        if s.alive[s.to_act] && !s.is_all_in(s.to_act) {
            Some(s.to_act)
        } else {
            s.find_next_player(s.to_act)
        }
    }

    /// Actions open to the seat to act: fold, call if the stack covers the
    /// call, and a pot-sized raise (capped at the stack) while chips remain
    /// after calling.
    pub fn legal_actions(s: &State) -> (actions: Vec<Act>)
        requires
            s.to_act < 6 || terminal(s@) || chance_node(s@),
        ensures
            actions@ == legal_actions_spec(s@),
    {
        if s.is_terminal() || s.is_chance_node() {
            let v: Vec<Act> = Vec::new();
            assert(v@ =~= legal_actions_spec(s@));
            return v;
        }
        let player = s.to_act;
        if !s.alive[player] || s.is_all_in(player) {
            let v: Vec<Act> = Vec::new();
            assert(v@ =~= legal_actions_spec(s@));
            return v;
        }
        let mut actions: Vec<Act> = Vec::new();
        actions.push(Act::Fold);
        let call_amount = if s.to_call >= s.invested[player] {
            s.to_call - s.invested[player]
        } else {
            0
        };
        if call_amount <= s.stack[player] {
            actions.push(Act::Call);
        }
        if s.stack[player] > call_amount {
            let remaining_after_call = s.stack[player] - call_amount;
            if remaining_after_call > 0 {
                actions.push(Act::Raise(0));
            }
        }
        assert(actions@ =~= legal_actions_spec(s@));
        actions
    }

    /// The state after the seat to act takes `a`. A call puts in what is
    /// owed (at most the stack); raise size 0 adds the pot on top of the
    /// call (capped at the stack), any other size goes all in; the action is
    /// counted, then the turn passes to the next live seat, or to seat 6
    /// when the betting round is complete.
    pub fn next_state(s: &State, a: Act) -> (next: State)
        requires
            next_state_ok(s@, a),
        ensures
            next@ == next_state_spec(s@, a),
    {
        let mut next = s.copy_state();
        let player = s.to_act;
        let ghost m = s@;
        match a {
            Act::Fold => {
                next.alive[player] = false;
            },
            Act::Call => {
                let call_amount = if s.to_call >= s.invested[player] {
                    s.to_call - s.invested[player]
                } else {
                    0
                };
                let actual_call = if call_amount <= s.stack[player] {
                    call_amount
                } else {
                    s.stack[player]
                };
                next.invested[player] = next.invested[player] + actual_call;
                next.stack[player] = next.stack[player] - actual_call;
                next.pot = next.pot + actual_call;
            },
            Act::Raise(size) => {
                let call_amount = if s.to_call >= s.invested[player] {
                    s.to_call - s.invested[player]
                } else {
                    0
                };
                let raise_amount = if size == 0 {
                    if s.pot <= s.stack[player] - call_amount {
                        s.pot
                    } else {
                        s.stack[player] - call_amount
                    }
                } else {
                    s.stack[player] - call_amount
                };
                let total_investment = call_amount + raise_amount;
                next.invested[player] = next.invested[player] + total_investment;
                next.stack[player] = next.stack[player] - total_investment;
                next.pot = next.pot + total_investment;
                next.to_call = next.invested[player];
            },
        }
        next.actions_taken = next.actions_taken + 1;
        assert(next@ =~= apply_action(m, a));
        if next.is_betting_complete() {
            next.to_act = 6;
            assert(next@ =~= next_state_spec(m, a));
        } else {
            let np = next.find_next_player(player);
            match np {
                Some(next_player) => {
                    next.to_act = next_player;
                    assert(next@ =~= next_state_spec(m, a));
                },
                None => {
                    assert(next@ =~= next_state_spec(m, a));
                },
            }
        }
        next
    }
}

impl GameState for State {
    /// The hand is over: at most one player left, more than 12 actions on a
    /// street (more than 6 after the flop), the river's betting complete, or
    /// every live player all in.
    fn is_terminal(&self) -> (res: bool)
        ensures
            res == terminal(self@),
    {
        let n_alive = self.count_alive();
        if n_alive <= 1 {
            return true;
        }
        if self.actions_taken > 12 {
            return true;
        }
        if self.street >= 1 && self.actions_taken > 6 {
            return true;
        }
        if self.street >= 3 && self.is_betting_complete() {
            return true;
        }
        let mut i: usize = 0;
        while i < 6
            invariant
                0 <= i <= 6,
                !(alive_count(self@) <= 1 || self@.actions_taken > 12 || (self@.street >= 1
                    && self@.actions_taken > 6) || (self@.street >= 3 && betting_complete(self@))),
                forall|p: int| 0 <= p < i && #[trigger] self.alive@[p] ==> self.stack@[p] == 0,
            decreases 6 - i,
        {
            if self.alive[i] && !self.is_all_in(i) {
                assert(!all_alive_all_in(self@)) by {
                    assert(self@.alive[i as int]);
                }
                return false;
            }
            i = i + 1;
        }
        assert(all_alive_all_in(self@)) by {
            assert forall|p: int| 0 <= p < 6 && #[trigger] self@.alive[p] implies self@.stack[p] == 0 by {
                assert(self.alive@[p]);
            }
        }
        true
    }

    /// Betting is complete before the river and the hand is not over.
    fn is_chance_node(&self) -> (res: bool)
        ensures
            res == chance_node(self@),
    {
        if self.is_terminal() {
            return false;
        }
        if self.is_betting_complete() && self.street < 3 {
            return true;
        }
        false
    }
}

#[verifier::external_type_specification]
#[verifier::external_body]
pub struct ExThreadRng(ThreadRng);

/// rand's `thread_rng()`: a handle on the thread's random number generator.
/// Nothing is stated of the numbers it will produce.
#[verifier::external_body]
pub(crate) fn thread_rng_handle() -> ThreadRng {
    rand::thread_rng()
}

/// rand's `Rng::gen_range(0..len)`: an index drawn from the half-open range
/// 0..len, so below `len`; rand panics on an empty range, which `requires`
/// rules out. Which index comes out is left to chance and not stated.
#[verifier::external_body]
pub(crate) fn random_index(rng: &mut ThreadRng, len: usize) -> (i: usize)
    requires
        len > 0,
    ensures
        i < len,
{
    rng.gen_range(0..len)
}

/// rand's `SliceRandom::shuffle`: permutes the cards in place (a run of
/// swaps), so the deck holds the same cards as before, each as often. The
/// order that results is left to chance and not stated.
#[verifier::external_body]
fn shuffle_cards(deck: &mut Vec<u8>, rng: &mut ThreadRng)
    ensures
        final(deck)@.to_multiset() == old(deck)@.to_multiset(),
{
    deck.shuffle(rng);
}

/// The cards 0..52 in order.
pub open spec fn ordered_deck() -> Seq<u8> {
    Seq::new(52, |i: int| i as u8)
}

/// The player in seat `i` is still in and holds card `c`.
pub open spec fn live_hand_holds(m: StateModel, i: int, c: u8) -> bool {
    m.alive[i] && (m.hole[i][0] == c || m.hole[i][1] == c)
}

/// Card `c` is on the board or in the hand of a player still in.
pub open spec fn card_in_use(m: StateModel, c: u8) -> bool {
    ||| m.board.contains(c)
    ||| exists|i: int| 0 <= i < 6 && #[trigger] live_hand_holds(m, i, c)
}

/// Number of cards below `k` that are not in use.
pub open spec fn unused_below(m: StateModel, k: int) -> int
    decreases k,
{
    if k <= 0 {
        0
    } else {
        unused_below(m, k - 1) + if card_in_use(m, (k - 1) as u8) {
            0int
        } else {
            1int
        }
    }
}

/// Number of cards of the deck not in use.
pub open spec fn unused_count(m: StateModel) -> int {
    unused_below(m, 52)
}

proof fn lemma_unused_below_bounds(m: StateModel, k: int)
    requires
        0 <= k,
    ensures
        0 <= unused_below(m, k) <= k,
    decreases k,
{
    if k > 0 {
        lemma_unused_below_bounds(m, k - 1);
    }
}

/// The board followed by the two cards of each of the six seats.
pub open spec fn cards_on_table(m: StateModel) -> Seq<u8> {
    m.board + Seq::new(12, |j: int| m.hole[j / 2][j % 2])
}

/// Number of cards below `k` that occur in `u`.
pub open spec fn present_below(u: Seq<u8>, k: int) -> int
    decreases k,
{
    if k <= 0 {
        0
    } else {
        present_below(u, k - 1) + if u.contains((k - 1) as u8) {
            1int
        } else {
            0int
        }
    }
}

proof fn lemma_present_below_push(u: Seq<u8>, x: u8, k: int)
    requires
        0 <= k <= 256,
    ensures
        present_below(u.push(x), k) <= present_below(u, k) + if x < k {
            1int
        } else {
            0int
        },
    decreases k,
{
    if k > 0 {
        lemma_present_below_push(u, x, k - 1);
        let c = (k - 1) as u8;
        if u.push(x).contains(c) && !u.contains(c) {
            let i = choose|i: int| 0 <= i < u.push(x).len() && u.push(x)[i] == c;
            if i < u.len() {
                assert(u[i] == c);
            }
        }
    }
}

proof fn lemma_present_below_len(u: Seq<u8>, k: int)
    requires
        0 <= k <= 256,
    ensures
        present_below(u, k) <= u.len(),
    decreases u.len(), k,
{
    if u.len() == 0 {
        lemma_present_below_empty(u, k);
    } else {
        lemma_present_below_len(u.drop_last(), k);
        assert(u.drop_last().push(u.last()) =~= u);
        lemma_present_below_push(u.drop_last(), u.last(), k);
    }
}

proof fn lemma_present_below_empty(u: Seq<u8>, k: int)
    requires
        u.len() == 0,
    ensures
        present_below(u, k) == 0,
    decreases k,
{
    if k > 0 {
        lemma_present_below_empty(u, k - 1);
    }
}

proof fn lemma_unused_covers(m: StateModel, k: int)
    requires
        0 <= k <= 52,
        m.hole.len() == 6,
    ensures
        unused_below(m, k) + present_below(cards_on_table(m), k) >= k,
    decreases k,
{
    if k > 0 {
        lemma_unused_covers(m, k - 1);
        let c = (k - 1) as u8;
        let u = cards_on_table(m);
        if card_in_use(m, c) {
            if m.board.contains(c) {
                let i = choose|i: int| 0 <= i < m.board.len() && m.board[i] == c;
                assert(u[i] == c);
            } else {
                let i = choose|i: int| 0 <= i < 6 && #[trigger] live_hand_holds(m, i, c);
                if m.hole[i][0] == c {
                    assert(u[m.board.len() + 2 * i] == c);
                } else {
                    assert(u[m.board.len() + 2 * i + 1] == c);
                }
            }
        }
    }
}

/// At most the board and twelve hole cards are in use, so at least
/// `40 - board.len()` cards of the deck are left to deal.
pub proof fn lemma_cards_left(m: StateModel)
    requires
        m.hole.len() == 6,
    ensures
        unused_count(m) >= 40 - m.board.len(),
{
    lemma_unused_covers(m, 52);
    lemma_present_below_len(cards_on_table(m), 52);
}

/// Cards dealt on a street: three on the flop, one on the turn and river.
pub open spec fn cards_for_street(street: int) -> int {
    if street == 1 {
        3
    } else if street == 2 || street == 3 {
        1
    } else {
        0
    }
}

/// XOR of `start` with each of the first `n` board cards shifted left by 16.
pub open spec fn xor_board(start: u64, board: Seq<u8>, n: int) -> u64
    decreases n,
{
    if n <= 0 {
        start
    } else {
        xor_board(start, board, n - 1) ^ ((board[n - 1] as u64) << 16u64)
    }
}

/// Bucket of a player's hole cards: the preflop bucket before the flop,
/// else the postflop bucket on the board.
pub open spec fn hole_bucket_spec(m: StateModel, player: int) -> int {
    if m.street == 0 {
        preflop_bucket_spec(m.hole[player])
    } else {
        postflop_bucket_spec(m.hole[player], m.board)
    }
}

/// Information-set key of a player: the hole-card bucket, the board cards,
/// pot, amount to call, street, action count, stack-to-pot ratio and the
/// number of legal actions, folded together by shifts and XOR.
pub open spec fn info_key_spec(m: StateModel, player: int) -> u64 {
    let k0 = xor_board(hole_bucket_spec(m, player) as u64, m.board, m.board.len() as int);
    let k1 = k0 ^ ((m.pot as u64) << 32u64);
    let k2 = k1 ^ ((m.to_call as u64) << 24u64);
    let k3 = k2 ^ ((m.street as u64) << 20u64);
    let k4 = k3 ^ ((m.actions_taken as u64) << 8u64);
    let ratio: u64 = if m.pot > 0 {
        (m.stack[player] / m.pot) as u64
    } else {
        0
    };
    let k5 = k4 ^ (ratio << 4u64);
    k5 ^ ((legal_actions_spec(m).len() as u64) << 60u64)
}

impl State {
    /// Whether `next_state` can apply the action: a seat below 6 acts, a
    /// raise is covered by the stack, and the pot, the seat's investment and
    /// the action count stay within their integer types.
    pub fn next_state_allowed(s: &State, a: Act) -> (b: bool)
        ensures
            b == next_state_ok(s@, a),
    {
        let player = s.to_act;
        if player >= 6 || s.actions_taken == usize::MAX {
            return false;
        }
        let stack = s.stack[player] as u64;
        let call: u64 = if s.to_call >= s.invested[player] {
            (s.to_call - s.invested[player]) as u64
        } else {
            0
        };
        let put: u64 = match a {
            Act::Fold => 0,
            Act::Call => if call <= stack {
                call
            } else {
                stack
            },
            Act::Raise(size) => {
                if stack < call {
                    return false;
                }
                let raise = if size == 0 {
                    if (s.pot as u64) <= stack - call {
                        s.pot as u64
                    } else {
                        stack - call
                    }
                } else {
                    stack - call
                };
                call + raise
            },
        };
        s.pot as u64 + put <= u32::MAX as u64 && s.invested[player] as u64 + put <= u32::MAX as u64
    }

    /// Whether card `c` is on the board or in a live player's hand.
    fn card_in_use_exec(&self, c: u8) -> (b: bool)
        ensures
            b == card_in_use(self@, c),
    {
        let mut i: usize = 0;
        while i < self.board.len()
            invariant
                0 <= i <= self.board@.len(),
                forall|j: int| 0 <= j < i ==> self.board@[j] != c,
            decreases self.board@.len() - i,
        {
            if self.board[i] == c {
                assert(self@.board.contains(c)) by {
                    assert(self@.board[i as int] == c);
                }
                return true;
            }
            i = i + 1;
        }
        assert(!self@.board.contains(c));
        let mut p: usize = 0;
        while p < 6
            invariant
                0 <= p <= 6,
                !self@.board.contains(c),
                forall|j: int| 0 <= j < p ==> !#[trigger] live_hand_holds(self@, j, c),
            decreases 6 - p,
        {
            if self.alive[p] && (self.hole[p][0] == c || self.hole[p][1] == c) {
                assert(live_hand_holds(self@, p as int, c));
                return true;
            }
            assert(!live_hand_holds(self@, p as int, c));
            p = p + 1;
        }
        false
    }

    /// The cards of the deck not in use, in ascending order.
    fn unused_deck(&self) -> (v: Vec<u8>)
        ensures
            v@.len() == unused_count(self@),
            forall|i: int| 0 <= i < v@.len() ==> #[trigger] v@[i] < 52 && !card_in_use(self@, v@[i]),
            forall|i: int, j: int| 0 <= i < j < v@.len() ==> #[trigger] v@[i] < #[trigger] v@[j],
    {
        let mut v: Vec<u8> = Vec::new();
        let mut c: u8 = 0;
        while c < 52
            invariant
                0 <= c <= 52,
                v@.len() == unused_below(self@, c as int),
                forall|i: int| 0 <= i < v@.len() ==> #[trigger] v@[i] < c && !card_in_use(self@, v@[i]),
                forall|i: int, j: int| 0 <= i < j < v@.len() ==> #[trigger] v@[i] < #[trigger] v@[j],
            decreases 52 - c,
        {
            if !self.card_in_use_exec(c) {
                v.push(c);
            }
            c = c + 1;
        }
        v
    }

    /// Deals the next street's cards when betting is complete before the
    /// river: the street advances, its betting resets, the first live seat
    /// acts, and three cards (flop) or one card (turn, river) are dealt from
    /// the rest of the deck: cards below 52, different from each other, from
    /// the board and from every live player's hole cards. Should fewer such
    /// cards be left (a board of more than 37 cards), all of them are dealt.
    /// Any other state is returned unchanged.
    pub fn apply_chance(s: &State, rng: &mut ThreadRng) -> (next: State)
        ensures
            if betting_complete(s@) && s@.street < 3 {
                let adv = advance_street_model(s@);
                let n = cards_for_street(adv.street);
                let dealt = next@.board.subrange(s@.board.len() as int, next@.board.len() as int);
                &&& next@.board.len() == s@.board.len() + if unused_count(s@) < n {
                    unused_count(s@)
                } else {
                    n
                }
                &&& s@.board.len() <= 37 ==> next@.board.len() == s@.board.len() + n
                &&& next@.board.subrange(0, s@.board.len() as int) == s@.board
                &&& forall|i: int| 0 <= i < dealt.len() ==> #[trigger] dealt[i] < 52 && !card_in_use(s@, dealt[i])
                &&& forall|i: int, j: int| 0 <= i < j < dealt.len() ==> #[trigger] dealt[i] != #[trigger] dealt[j]
                &&& next@ == (StateModel { board: next@.board, ..adv })
            } else {
                next@ == s@
            },
    {
        let mut next = s.copy_state();
        if next.is_betting_complete() && next.street < 3 {
            let mut deck = s.unused_deck();
            next.advance_street();
            let ghost adv = next@;
            let ghost b0 = s@.board.len() as int;
            let n: usize = if next.street == 1 {
                3
            } else {
                1
            };
            let mut k: usize = 0;
            while k < n && deck.len() > 0
                invariant
                    0 <= k <= n,
                    n == cards_for_street(adv.street),
                    b0 == s@.board.len(),
                    next@ == (StateModel { board: next@.board, ..adv }),
                    next@.board.len() == b0 + k,
                    next@.board.subrange(0, b0) == s@.board,
                    deck@.len() + k == unused_count(s@),
                    forall|i: int| 0 <= i < deck@.len() ==> #[trigger] deck@[i] < 52 && !card_in_use(s@, deck@[i]),
                    forall|i: int, j: int| 0 <= i < j < deck@.len() ==> #[trigger] deck@[i] < #[trigger] deck@[j],
                    forall|i: int| b0 <= i < next@.board.len() ==> #[trigger] next@.board[i] < 52 && !card_in_use(s@, next@.board[i]),
                    forall|i: int, j: int| b0 <= i < j < next@.board.len() ==> #[trigger] next@.board[i] != #[trigger] next@.board[j],
                    forall|i: int, j: int| 0 <= i < deck@.len() && b0 <= j < next@.board.len() ==> #[trigger] deck@[i] != #[trigger] next@.board[j],
                decreases n - k,
            {
                let idx = random_index(rng, deck.len());
                let ghost d = deck@;
                let ghost before = next@.board;
                let card = deck.remove(idx);
                assert(card == d[idx as int]);
                assert forall|i: int| 0 <= i < deck@.len() implies #[trigger] deck@[i] == d[if i < idx { i } else { i + 1 }] by {}
                next.board.push(card);
                assert(next@.board.subrange(0, b0) =~= before.subrange(0, b0));
                assert forall|i: int, j: int| 0 <= i < j < deck@.len() implies #[trigger] deck@[i] < #[trigger] deck@[j] by {
                    let ii = if i < idx { i } else { i + 1 };
                    let jj = if j < idx { j } else { j + 1 };
                    assert(d[ii] < d[jj]);
                }
                assert forall|i: int, j: int| 0 <= i < deck@.len() && b0 <= j < next@.board.len() implies #[trigger] deck@[i] != #[trigger] next@.board[j] by {
                    let ii = if i < idx { i } else { i + 1 };
                    if j < next@.board.len() - 1 {
                        assert(next@.board[j] == before[j]);
                    } else {
                        assert(ii != idx);
                        if ii < idx {
                            assert(d[ii] < d[idx as int]);
                        } else {
                            assert(d[idx as int] < d[ii]);
                        }
                    }
                }
                assert forall|i: int, j: int| b0 <= i < j < next@.board.len() implies #[trigger] next@.board[i] != #[trigger] next@.board[j] by {
                    if j == next@.board.len() - 1 {
                        assert(next@.board[i] == before[i]);
                        assert(d[idx as int] != before[i]);
                    } else {
                        assert(next@.board[i] == before[i] && next@.board[j] == before[j]);
                    }
                }
                assert forall|i: int| b0 <= i < next@.board.len() implies #[trigger] next@.board[i] < 52 && !card_in_use(s@, next@.board[i]) by {
                    if i < next@.board.len() - 1 {
                        assert(next@.board[i] == before[i]);
                    }
                }
                k = k + 1;
            }
            proof {
                lemma_unused_below_bounds(s@, 52);
                lemma_cards_left(s@);
                let dealt = next@.board.subrange(b0, next@.board.len() as int);
                assert forall|i: int| 0 <= i < dealt.len() implies #[trigger] dealt[i] < 52 && !card_in_use(s@, dealt[i]) by {
                    assert(dealt[i] == next@.board[b0 + i]);
                }
                assert forall|i: int, j: int| 0 <= i < j < dealt.len() implies #[trigger] dealt[i] != #[trigger] dealt[j] by {
                    assert(dealt[i] == next@.board[b0 + i] && dealt[j] == next@.board[b0 + j]);
                }
            }
        }
        next
    }

    /// Information-set key of `player`: what that player can see (own hole
    /// bucket, board, pot, amount to call, street, action count, stack
    /// ratio, number of legal actions) folded into 64 bits.
    pub fn info_key(s: &State, player: usize) -> (key: u64)
        requires
            player < 6,
            s.to_act < 6 || terminal(s@) || chance_node(s@),
        ensures
            key == info_key_spec(s@, player as int),
    {
        let mut key: u64 = 0;
        let hole_bucket: u64 = if s.street == 0 {
            preflop_bucket(s.hole[player]) as u64
        } else {
            postflop_bucket(s.hole[player], s.board.as_slice(), s.street) as u64
        };
        key = key ^ hole_bucket;
        assert(key == hole_bucket) by (bit_vector)
            requires
                key == 0u64 ^ hole_bucket,
        ;
        let mut i: usize = 0;
        while i < s.board.len()
            invariant
                0 <= i <= s.board@.len(),
                key == xor_board(hole_bucket, s.board@, i as int),
            decreases s.board@.len() - i,
        {
            key = key ^ ((s.board[i] as u64) << 16u64);
            i = i + 1;
        }
        key = key ^ ((s.pot as u64) << 32u64);
        key = key ^ ((s.to_call as u64) << 24u64);
        key = key ^ ((s.street as u64) << 20u64);
        key = key ^ ((s.actions_taken as u64) << 8u64);
        let stack_ratio: u64 = if s.pot > 0 {
            let divisor = if s.pot >= 1 {
                s.pot
            } else {
                1
            };
            (s.stack[player] / divisor) as u64
        } else {
            0
        };
        key = key ^ (stack_ratio << 4u64);
        let legal_actions = State::legal_actions(s);
        key = key ^ ((legal_actions.len() as u64) << 60u64);
        key
    }

    /// Deals a new hand: the players in seats below `player_count` are in,
    /// the small and big blinds (seats 0 and 1 heads-up, else the last two
    /// seats) are posted, the pot holds both blinds, the call is the big
    /// blind, and each player gets two cards from a shuffled deck. Seat 0
    /// acts first heads-up, else seat 3.
    pub fn new_hand(blinds: [u32; 2], stacks: [u32; 6], player_count: usize) -> (s: State)
        requires
            2 <= player_count <= 6,
            blinds[0] + blinds[1] <= u32::MAX,
            stacks[sb_seat(player_count as int)] >= blinds[0],
            stacks[bb_seat(player_count as int)] >= blinds[1],
        ensures
            new_hand_table(s@, blinds@, stacks@, player_count as int),
            exists|deck: Seq<u8>|
                deck.to_multiset() == ordered_deck().to_multiset() && deck.len() == 52 && forall|i: int|
                    0 <= i < 6 ==> #[trigger] s@.hole[i] == if i < player_count {
                        [deck[2 * i], deck[2 * i + 1]]
                    } else {
                        [0u8, 0u8]
                    },
    {
        let mut state = State {
            hole: [[0;2];6],
            board: Vec::new(),
            to_act: if player_count == 2 {
                0
            } else {
                3
            },
            street: 0,
            pot: blinds[0] + blinds[1],
            stack: stacks,
            alive: [false; 6],
            invested: [0; 6],
            to_call: blinds[1],
            actions_taken: 0,
        };
        let mut i: usize = 0;
        while i < player_count
            invariant
                2 <= player_count <= 6,
                0 <= i <= player_count,
                forall|j: int| 0 <= j < 6 ==> #[trigger] state.alive@[j] == (j < i),
                state.stack@ == stacks@,
                forall|j: int| 0 <= j < 6 ==> #[trigger] state.invested@[j] == 0,
                state.pot == blinds[0] + blinds[1],
                state.to_call == blinds[1],
                state.street == 0,
                state.actions_taken == 0,
                state.board@ == Seq::<u8>::empty(),
                state.to_act == if player_count == 2 {
                    0usize
                } else {
                    3usize
                },
                forall|j: int| 0 <= j < 6 ==> #[trigger] state.hole@[j] == [0u8, 0u8],
            decreases player_count - i,
        {
            state.alive[i] = true;
            i = i + 1;
        }
        let sb_pos: usize = if player_count == 2 {
            0
        } else {
            player_count - 2
        };
        let bb_pos: usize = if player_count == 2 {
            1
        } else {
            player_count - 1
        };
        state.invested[sb_pos] = blinds[0];
        state.invested[bb_pos] = blinds[1];
        state.stack[sb_pos] = state.stack[sb_pos] - blinds[0];
        state.stack[bb_pos] = state.stack[bb_pos] - blinds[1];
        let mut deck: Vec<u8> = Vec::new();
        let mut c: u8 = 0;
        while c < 52
            invariant
                0 <= c <= 52,
                deck@ == ordered_deck().subrange(0, c as int),
            decreases 52 - c,
        {
            deck.push(c);
            c = c + 1;
        }
        assert(deck@ =~= ordered_deck());
        let mut rng = thread_rng_handle();
        shuffle_cards(&mut deck, &mut rng);
        proof {
            deck@.to_multiset_ensures();
            ordered_deck().to_multiset_ensures();
        }
        let ghost table = state@;
        let mut i: usize = 0;
        while i < player_count
            invariant
                2 <= player_count <= 6,
                0 <= i <= player_count,
                deck@.len() == 52,
                state@ == (StateModel { hole: state@.hole, ..table }),
                forall|j: int| 0 <= j < 6 ==> #[trigger] state@.hole[j] == if j < i {
                    [deck@[2 * j], deck@[2 * j + 1]]
                } else {
                    [0u8, 0u8]
                },
            decreases player_count - i,
        {
            state.hole[i] = [deck[i * 2], deck[i * 2 + 1]];
            assert(state@ =~= StateModel { hole: state@.hole, ..table });
            i = i + 1;
        }
        assert(new_hand_table(state@, blinds@, stacks@, player_count as int));
        state
    }

    /// Heads-up hand with blinds 50/100 and 1,000 chips for every seat.
    pub fn new() -> (s: State)
        ensures
            new_hand_table(s@, seq![50u32, 100u32], seq![1000u32, 1000u32, 1000u32, 1000u32, 1000u32, 1000u32], 2),
            exists|deck: Seq<u8>|
                deck.to_multiset() == ordered_deck().to_multiset() && deck.len() == 52 && forall|i: int|
                    0 <= i < 6 ==> #[trigger] s@.hole[i] == if i < 2 {
                        [deck[2 * i], deck[2 * i + 1]]
                    } else {
                        [0u8, 0u8]
                    },
    {
        let blinds: [u32; 2] = [50, 100];
        let stacks: [u32; 6] = [1000; 6];
        assert(blinds@ =~= seq![50u32, 100u32]);
        assert(stacks@ =~= seq![1000u32, 1000u32, 1000u32, 1000u32, 1000u32, 1000u32]);
        State::new_hand(blinds, stacks, 2)
    }
}

/// Small blind seat: 0 heads-up, else the second-to-last player.
pub open spec fn sb_seat(player_count: int) -> int {
    if player_count == 2 {
        0
    } else {
        player_count - 2
    }
}

/// Big blind seat: 1 heads-up, else the last player.
pub open spec fn bb_seat(player_count: int) -> int {
    if player_count == 2 {
        1
    } else {
        player_count - 1
    }
}

/// Everything a new hand fixes besides the hole cards: no board, preflop,
/// seat 0 (heads-up) or 3 to act, blinds posted into the pot and taken from
/// the blinds' stacks, the big blind to call, the first `player_count`
/// seats in.
pub open spec fn new_hand_table(m: StateModel, blinds: Seq<u32>, stacks: Seq<u32>, player_count: int) -> bool {
    let sb = sb_seat(player_count);
    let bb = bb_seat(player_count);
    &&& m.board == Seq::<u8>::empty()
    &&& m.to_act == if player_count == 2 {
        0int
    } else {
        3int
    }
    &&& m.street == 0
    &&& m.pot == blinds[0] + blinds[1]
    &&& m.to_call == blinds[1]
    &&& m.actions_taken == 0
    &&& m.hole.len() == 6
    &&& m.alive.len() == 6
    &&& forall|i: int| 0 <= i < 6 ==> #[trigger] m.alive[i] == (i < player_count)
    &&& m.stack.len() == 6
    &&& forall|i: int| 0 <= i < 6 ==> #[trigger] m.stack[i] == if i == sb {
        stacks[i] - blinds[0]
    } else if i == bb {
        stacks[i] - blinds[1]
    } else {
        stacks[i] as int
    }
    &&& m.invested.len() == 6
    &&& forall|i: int| 0 <= i < 6 ==> #[trigger] m.invested[i] == if i == sb {
        blinds[0] as int
    } else if i == bb {
        blinds[1] as int
    } else {
        0
    }
}

/// Sum of the first `n` entries of `s`.
pub open spec fn sum_upto(s: Seq<int>, n: int) -> int
    decreases n,
{
    if n <= 0 {
        0
    } else {
        sum_upto(s, n - 1) + s[n - 1]
    }
}

/// Chips on the table: the pot plus every seat's stack.
pub open spec fn chips_in_play(m: StateModel) -> int {
    m.pot + sum_upto(m.stack, 6)
}

proof fn lemma_sum_update(s: Seq<int>, n: int, p: int, v: int)
    requires
        0 <= p < n <= s.len(),
    ensures
        sum_upto(s.update(p, v), n) == sum_upto(s, n) - s[p] + v,
    decreases n,
{
    if n - 1 > p {
        lemma_sum_update(s, n - 1, p, v);
    } else {
        assert forall|k: int| 0 <= k < n - 1 implies s.update(p, v)[k] == s[k] by {}
        lemma_sum_prefix_eq(s.update(p, v), s, n - 1);
    }
}

proof fn lemma_sum_prefix_eq(a: Seq<int>, b: Seq<int>, n: int)
    requires
        n <= a.len(),
        n <= b.len(),
        forall|k: int| 0 <= k < n ==> a[k] == b[k],
    ensures
        sum_upto(a, n) == sum_upto(b, n),
    decreases n,
{
    if n > 0 {
        lemma_sum_prefix_eq(a, b, n - 1);
    }
}

/// Betting moves chips from the acting seat's stack into the pot and
/// nowhere else: the pot plus all stacks is the same after any action.
pub proof fn lemma_next_state_conserves_chips(m: StateModel, a: Act)
    requires
        m.stack.len() == 6,
        m.invested.len() == 6,
        m.alive.len() == 6,
        next_state_ok(m, a),
    ensures
        chips_in_play(next_state_spec(m, a)) == chips_in_play(m),
{
    let p = m.to_act;
    let put = chips_put_in(m, a);
    lemma_sum_update(m.stack, 6, p, m.stack[p] - put);
}

/// After any action the seat to act is 6 (the round is over) or a seat
/// still in the hand.
pub proof fn lemma_next_state_turn_passes_to_live_seat(m: StateModel, a: Act)
    requires
        m.alive.len() == 6,
        next_state_ok(m, a),
    ensures
        next_state_spec(m, a).to_act == 6 || (0 <= next_state_spec(m, a).to_act < 6
            && next_state_spec(m, a).alive[next_state_spec(m, a).to_act]),
{
    let acted = apply_action(m, a);
    assert(acted.alive.len() == 6);
    if !betting_complete(acted) {
        lemma_next_alive_is_alive(acted.alive, m.to_act, 1);
        assert(alive_count(acted) > 1);
        let j = lemma_some_alive(acted.alive, 6);
        lemma_next_alive_found(acted.alive, m.to_act, 1, j);
    }
}

/// Some seat below `n` is live when the live count below `n` is positive.
proof fn lemma_some_alive(alive: Seq<bool>, n: int) -> (j: int)
    requires
        0 <= n <= alive.len(),
        alive_count_upto(alive, n) > 0,
    ensures
        0 <= j < n,
        alive[j],
    decreases n,
{
    if alive[n - 1] {
        n - 1
    } else {
        lemma_some_alive(alive, n - 1)
    }
}

/// Going round the table from `current` finds a live seat when seat `j`
/// is live.
proof fn lemma_next_alive_found(alive: Seq<bool>, current: int, i: int, j: int)
    requires
        current >= 0,
        alive.len() == 6,
        1 <= i <= 7,
        0 <= j < 6,
        alive[j],
        forall|k: int| 1 <= k < i ==> !alive[#[trigger] seat_after(current, k)],
    ensures
        next_alive_from(alive, current, i) is Some,
    decreases 7 - i,
{
    if i > 6 {
        let k = if (j - current % 6) > 0 {
            j - current % 6
        } else {
            j - current % 6 + 6
        };
        assert(1 <= k <= 6);
        assert(seat_after(current, k) == j) by (nonlinear_arith)
            requires
                current >= 0,
                0 <= j < 6,
                k == if (j - current % 6) > 0 {
                    j - current % 6
                } else {
                    j - current % 6 + 6
                },
        ;
    } else if !alive[seat_after(current, i)] {
        lemma_next_alive_found(alive, current, i + 1, j);
    }
}

proof fn lemma_next_alive_is_alive(alive: Seq<bool>, current: int, i: int)
    requires
        current >= 0,
        alive.len() == 6,
    ensures
        next_alive_from(alive, current, i) matches Some(q) ==> 0 <= q < 6 && alive[q],
    decreases 7 - i,
{
    if i <= 6 && !alive[seat_after(current, i)] {
        lemma_next_alive_is_alive(alive, current, i + 1);
    }
}

/// The seat to act is always a player still in the hand.
pub proof fn lemma_current_player_is_live(m: StateModel)
    requires
        m.alive.len() == 6,
        0 <= m.to_act,
        m.to_act < 6 || terminal(m) || chance_node(m) || betting_complete(m),
    ensures
        current_player_spec(m) matches Some(p) ==> 0 <= p < 6 && m.alive[p],
{
    lemma_next_alive_is_alive(m.alive, m.to_act, 1);
}

/// A state waiting for cards is never a finished hand.
pub proof fn lemma_chance_node_not_terminal(m: StateModel)
    ensures
        chance_node(m) ==> !terminal(m),
{
}

/// When a player may act, folding is always the first choice offered, and
/// calling is offered exactly when the stack covers the call.
pub proof fn lemma_legal_actions_shape(m: StateModel)
    ensures
        legal_actions_spec(m).len() > 0 ==> legal_actions_spec(m)[0] == Act::Fold,
        legal_actions_spec(m).len() > 0 ==> (legal_actions_spec(m).contains(Act::Call) <==> call_amount(
            m,
            m.to_act,
        ) <= m.stack[m.to_act]),
{
    let l = legal_actions_spec(m);
    if l.len() > 0 {
        let call = call_amount(m, m.to_act);
        if call <= m.stack[m.to_act] {
            assert(l[1] == Act::Call);
        } else {
            assert forall|i: int| 0 <= i < l.len() implies l[i] != Act::Call by {}
        }
    }
}

/// Dealing a new hand takes only the blinds out of the stacks and puts
/// them in the pot: the pot plus all stacks equals the starting stacks.
pub proof fn lemma_new_hand_conserves_chips(m: StateModel, blinds: Seq<u32>, stacks: Seq<u32>, player_count: int)
    requires
        2 <= player_count <= 6,
        blinds.len() == 2,
        stacks.len() == 6,
        new_hand_table(m, blinds, stacks, player_count),
    ensures
        chips_in_play(m) == sum_upto(stacks.map_values(|x: u32| x as int), 6),
{
    let sb = sb_seat(player_count);
    let bb = bb_seat(player_count);
    let st = stacks.map_values(|x: u32| x as int);
    let s1 = st.update(sb, st[sb] - blinds[0]);
    let s2 = s1.update(bb, s1[bb] - blinds[1]);
    lemma_sum_update(st, 6, sb, st[sb] - blinds[0]);
    lemma_sum_update(s1, 6, bb, s1[bb] - blinds[1]);
    assert(m.stack =~= s2);
}


/// After a raise, the amount to call is the raiser's whole investment on
/// this street, and the raiser's investment grows by exactly the chips the
/// pot gains: every other live seat must match the raiser's street total.
pub proof fn lemma_raise_sets_call_to_raiser_total(s: State, a: Act)
    requires
        a is Raise,
        next_state_ok(s@, a),
    ensures
        next_state_spec(s@, a).to_call == next_state_spec(s@, a).invested[s@.to_act],
        next_state_spec(s@, a).invested[s@.to_act] - s@.invested[s@.to_act] == next_state_spec(s@, a).pot
            - s@.pot,
        next_state_spec(s@, a).stack[s@.to_act] == s@.stack[s@.to_act] - (next_state_spec(s@, a).pot
            - s@.pot),
{
}

/// A call leaves the amount to call as it was and moves the same chips from
/// the caller's stack into the pot and the caller's investment.
pub proof fn lemma_call_keeps_amount_to_call(s: State)
    requires
        next_state_ok(s@, Act::Call),
    ensures
        next_state_spec(s@, Act::Call).to_call == s@.to_call,
        next_state_spec(s@, Act::Call).invested[s@.to_act] - s@.invested[s@.to_act] == next_state_spec(
            s@,
            Act::Call,
        ).pot - s@.pot,
{
}

/// A betting round is only complete with two or more players in when no
/// live player who still has chips is behind another live player's
/// investment.
pub proof fn lemma_complete_round_is_settled(m: StateModel)
    requires
        betting_complete(m),
        alive_count(m) > 1,
    ensures
        forall|p: int, q: int|
            0 <= p < 6 && 0 <= q < 6 && #[trigger] m.alive[p] && #[trigger] m.alive[q] ==> m.stack[p] == 0
                || m.invested[p] >= m.invested[q],
{
    assert forall|p: int, q: int|
        0 <= p < 6 && 0 <= q < 6 && #[trigger] m.alive[p] && #[trigger] m.alive[q] implies m.stack[p] == 0
        || m.invested[p] >= m.invested[q] by {
        assert(all_in(m, p) || m.invested[p] >= m.invested[q]);
    }
}

/// At a chance node (the next cards are dealt), every live player who
/// still has chips has matched every other live player's investment.
pub proof fn lemma_chance_node_is_settled(m: StateModel)
    requires
        chance_node(m),
    ensures
        forall|p: int, q: int|
            0 <= p < 6 && 0 <= q < 6 && #[trigger] m.alive[p] && #[trigger] m.alive[q] ==> m.stack[p] == 0
                || m.invested[p] >= m.invested[q],
{
    lemma_complete_round_is_settled(m);
}

/// When an action closes the round (seat 6 to act) with two or more players
/// still in, no live player who still has chips is behind another live
/// player's investment: an unanswered raise keeps the round open.
pub proof fn lemma_round_closes_only_when_settled(s: State, a: Act)
    requires
        next_state_ok(s@, a),
        next_state_spec(s@, a).to_act == 6,
        alive_count(next_state_spec(s@, a)) > 1,
    ensures
        forall|p: int, q: int|
            0 <= p < 6 && 0 <= q < 6 && #[trigger] next_state_spec(s@, a).alive[p]
                && #[trigger] next_state_spec(s@, a).alive[q] ==> next_state_spec(s@, a).stack[p] == 0
                || next_state_spec(s@, a).invested[p] >= next_state_spec(s@, a).invested[q],
{
    let m = s@;
    let acted = apply_action(m, a);
    assert(acted.alive.len() == 6);
    assert(next_state_spec(m, a).alive == acted.alive);
    if !betting_complete(acted) {
        lemma_next_alive_is_alive(acted.alive, m.to_act, 1);
        assert(next_player(acted, m.to_act) == next_alive_from(acted.alive, m.to_act, 1));
        assert(false);
    }
    assert(next_state_spec(m, a).stack == acted.stack);
    assert(next_state_spec(m, a).invested == acted.invested);
    lemma_complete_round_is_settled(acted);
}


/// A fold takes the folding seat out of the hand and moves no chips.
pub proof fn lemma_fold_moves_no_chips(s: State)
    requires
        next_state_ok(s@, Act::Fold),
    ensures
        !next_state_spec(s@, Act::Fold).alive[s@.to_act],
        next_state_spec(s@, Act::Fold).pot == s@.pot,
        next_state_spec(s@, Act::Fold).stack == s@.stack,
        next_state_spec(s@, Act::Fold).invested == s@.invested,
        next_state_spec(s@, Act::Fold).to_call == s@.to_call,
{
}

/// A pot-sized raise puts in what the seat owes plus the pot as it stood,
/// capped by the seat's stack; a raise of any other size puts in the whole
/// stack (all in). Either way the raiser ends at least level with the
/// previous amount to call.
pub proof fn lemma_raise_amounts(s: State, size: u8)
    requires
        next_state_ok(s@, Act::Raise(size)),
    ensures
        ({
            let p = s@.to_act;
            let owed = if s@.to_call >= s@.invested[p] {
                s@.to_call - s@.invested[p]
            } else {
                0
            };
            let r = next_state_spec(s@, Act::Raise(size));
            &&& size == 0 ==> r.pot - s@.pot == owed + if s@.pot <= s@.stack[p] - owed {
                s@.pot
            } else {
                s@.stack[p] - owed
            }
            &&& size != 0 ==> r.stack[p] == 0
            &&& r.invested[p] >= s@.to_call
        }),
{
}

} // verus!
