//! Validation of web game states into hand states, and the errors and risk
//! levels that analysis reports.

use vstd::prelude::*;
use crate::api::text::{decimal_string, signed_string, decimal_text, signed_text};
use crate::api::web_api::WebGameState;
use crate::game::holdem::{State, StateModel, new_hand_table, sb_seat, bb_seat, ordered_deck};

verus! {

/// Risk of playing a hand.
#[derive(Debug, Clone)]
pub enum RiskLevel {
    Low,
    Medium,
    High,
    Extreme,
}

/// Why a web game state was rejected.
#[derive(Debug)]
pub enum ValidationError {
    InvalidPlayerCount(usize),
    InvalidStack(i32),
    InvalidCard(u8),
    InvalidBettingSequence,
    InconsistentState(String),
    InvalidPosition(usize),
    InvalidPot(i32),
}

/// Why an analysis failed.
#[derive(Debug)]
pub enum AnalysisError {
    InvalidGameState { reason: String },
    CalculationTimeout,
    InsufficientData,
    InternalError { message: String },
}

impl ValidationError {
    /// Human-readable message.
    pub fn to_message(&self) -> (s: String)
        ensures
            s@ == match *self {
                ValidationError::InvalidPlayerCount(c) => "유효하지 않은 플레이어 수: "@ + decimal_text(c as nat),
                ValidationError::InvalidStack(v) => "유효하지 않은 스택 크기: "@ + signed_text(v as int),
                ValidationError::InvalidCard(c) => "유효하지 않은 카드: "@ + decimal_text(c as nat),
                ValidationError::InvalidBettingSequence => "유효하지 않은 베팅 시퀀스"@,
                ValidationError::InconsistentState(m) => "일관성 없는 게임 상태: "@ + m@,
                ValidationError::InvalidPosition(p) => "유효하지 않은 포지션: "@ + decimal_text(p as nat),
                ValidationError::InvalidPot(v) => "유효하지 않은 팟 크기: "@ + signed_text(v as int),
            },
    {
        match self {
            ValidationError::InvalidPlayerCount(c) => {
                let mut s = String::from_str("유효하지 않은 플레이어 수: ");
                let d = decimal_string(*c as u64);
                s.append(d.as_str());
                s
            },
            ValidationError::InvalidStack(v) => {
                let mut s = String::from_str("유효하지 않은 스택 크기: ");
                let d = signed_string(*v as i64);
                s.append(d.as_str());
                s
            },
            ValidationError::InvalidCard(c) => {
                let mut s = String::from_str("유효하지 않은 카드: ");
                let d = decimal_string(*c as u64);
                s.append(d.as_str());
                s
            },
            ValidationError::InvalidBettingSequence => String::from_str("유효하지 않은 베팅 시퀀스"),
            ValidationError::InconsistentState(m) => {
                let mut s = String::from_str("일관성 없는 게임 상태: ");
                s.append(m.as_str());
                s
            },
            ValidationError::InvalidPosition(p) => {
                let mut s = String::from_str("유효하지 않은 포지션: ");
                let d = decimal_string(*p as u64);
                s.append(d.as_str());
                s
            },
            ValidationError::InvalidPot(v) => {
                let mut s = String::from_str("유효하지 않은 팟 크기: ");
                let d = signed_string(*v as i64);
                s.append(d.as_str());
                s
            },
        }
    }
}

impl AnalysisError {
    /// Human-readable message.
    pub fn to_message(&self) -> (s: String)
        ensures
            s@ == match *self {
                AnalysisError::InvalidGameState { reason } => "게임 상태가 유효하지 않습니다: "@ + reason@,
                AnalysisError::CalculationTimeout => "계산 시간이 초과되었습니다"@,
                AnalysisError::InsufficientData => "분석에 필요한 데이터가 부족합니다"@,
                AnalysisError::InternalError { message } => "내부 오류: "@ + message@,
            },
    {
        match self {
            AnalysisError::InvalidGameState { reason } => {
                let mut s = String::from_str("게임 상태가 유효하지 않습니다: ");
                s.append(reason.as_str());
                s
            },
            AnalysisError::CalculationTimeout => String::from_str("계산 시간이 초과되었습니다"),
            AnalysisError::InsufficientData => String::from_str("분석에 필요한 데이터가 부족합니다"),
            AnalysisError::InternalError { message } => {
                let mut s = String::from_str("내부 오류: ");
                s.append(message.as_str());
                s
            },
        }
    }
}

/// Builder that validates a web game state step by step and then builds the
/// hand state.
pub struct HoldemStateBuilder {
    num_players: Option<usize>,
    stacks: Option<Vec<i32>>,
    board: Option<Vec<u8>>,
    pot: Option<i32>,
    to_act: Option<usize>,
    hole_cards: Option<Vec<[u8; 2]>>,
}

/// Index of the first stack too large to be read as a non-negative i32.
pub open spec fn first_oversized_stack(stacks: Seq<u32>, i: int) -> Option<int>
    decreases stacks.len() - i,
{
    if i < 0 || i >= stacks.len() {
        None
    } else if stacks[i] > i32::MAX {
        Some(i)
    } else {
        first_oversized_stack(stacks, i + 1)
    }
}

/// Index of the first card that is not one of the 52.
pub open spec fn first_bad_card(board: Seq<u8>, i: int) -> Option<int>
    decreases board.len() - i,
{
    if i < 0 || i >= board.len() {
        None
    } else if board[i] >= 52 {
        Some(i)
    } else {
        first_bad_card(board, i + 1)
    }
}

/// Every check that comes before building the hand state passes: two to six
/// stacks, each a non-negative i32, at most five board cards, all below 52,
/// and a seat to act among the players.
pub open spec fn web_state_checks_pass(w: WebGameState) -> bool {
    let n = w.stacks@.len();
    &&& 2 <= n <= 6
    &&& first_oversized_stack(w.stacks@, 0) is None
    &&& w.board@.len() <= 5
    &&& first_bad_card(w.board@, 0) is None
    &&& w.player_to_act < n
}

/// Street that a board of `len` cards belongs to.
pub open spec fn street_of_board(len: int) -> int {
    if len == 0 {
        0
    } else if len == 3 {
        1
    } else if len == 4 {
        2
    } else {
        3
    }
}

/// Hole cards that a validated web state gives seat `i` of `n`: the hero's
/// own cards, cards `2i` and `2i + 1` for the other players, none past the
/// last player.
pub open spec fn web_hole(w: WebGameState, n: int, i: int) -> [u8; 2] {
    if i < n {
        if i == w.hero_position {
            w.hole_cards
        } else {
            [(2 * i) as u8, (2 * i + 1) as u8]
        }
    } else {
        [0u8, 0u8]
    }
}

/// The hand state built from a validated web state: a new hand with blinds
/// 10/20 over the web stacks, then the web pot, board, seat to act and the
/// street of the board, with the hole cards of [`web_hole`].
pub open spec fn built_state(m: StateModel, w: WebGameState) -> bool {
    let n = w.stacks@.len() as int;
    let stacks = Seq::new(6, |i: int| if i < n { w.stacks@[i] } else { 0u32 });
    let table = StateModel {
        pot: 30,
        board: Seq::empty(),
        to_act: if n == 2 { 0int } else { 3int },
        street: 0,
        hole: m.hole,
        ..m
    };
    &&& new_hand_table(table, seq![10u32, 20u32], stacks, n)
    &&& m.pot == w.pot
    &&& m.board == w.board@
    &&& m.to_act == w.player_to_act
    &&& m.street == street_of_board(w.board@.len() as int)
    &&& m.hole.len() == 6
    &&& forall|i: int| 0 <= i < 6 ==> #[trigger] m.hole[i] == web_hole(w, n, i)
}

/// The blinds of 10 and 20 that building posts are covered by the small
/// and big blind seats' stacks.
pub open spec fn blinds_covered(w: WebGameState) -> bool {
    let n = w.stacks@.len() as int;
    &&& w.stacks@[sb_seat(n)] >= 10
    &&& w.stacks@[bb_seat(n)] >= 20
}

/// What [`HoldemStateBuilder::from_web_state`] returns: the first failed
/// check's error, in the order player count, stacks, board size, cards,
/// seat to act, board size again (1 or 2 cards), blinds the blind seats
/// cannot post, else the built state.
pub open spec fn from_web_state_result(w: WebGameState, r: Result<State, ValidationError>) -> bool {
    let n = w.stacks@.len();
    if n < 2 || n > 6 {
        r == Err::<State, ValidationError>(ValidationError::InvalidPlayerCount(n as usize))
    } else if first_oversized_stack(w.stacks@, 0) is Some {
        let i = first_oversized_stack(w.stacks@, 0)->0;
        r == Err::<State, ValidationError>(ValidationError::InvalidStack(w.stacks@[i] as i32))
    } else if w.board@.len() > 5 {
        r matches Err(ValidationError::InconsistentState(msg)) && msg@ == "보드 카드는 최대 5장입니다"@
    } else if first_bad_card(w.board@, 0) is Some {
        let i = first_bad_card(w.board@, 0)->0;
        r == Err::<State, ValidationError>(ValidationError::InvalidCard(w.board@[i]))
    } else if w.player_to_act >= n {
        r == Err::<State, ValidationError>(ValidationError::InvalidPosition(w.player_to_act))
    } else if w.board@.len() == 1 || w.board@.len() == 2 {
        r matches Err(ValidationError::InconsistentState(msg)) && msg@ == "유효하지 않은 보드 카드 수"@
    } else if !blinds_covered(w) {
        r == Err::<State, ValidationError>(ValidationError::InvalidStack(uncovered_blind_stack(w) as i32))
    } else {
        r matches Ok(s) && built_state(s@, w)
    }
}

/// Stack of the first blind seat, small blind first, that cannot post its
/// blind of 10 or 20.
pub open spec fn uncovered_blind_stack(w: WebGameState) -> u32 {
    let n = w.stacks@.len() as int;
    if w.stacks@[sb_seat(n)] < 10 {
        w.stacks@[sb_seat(n)]
    } else {
        w.stacks@[bb_seat(n)]
    }
}

proof fn lemma_i32_reading(x: u32)
    ensures
        ((x as i32) < 0) == (x > 0x7fff_ffffu32),
        (x as i32) as u32 == x,
{
    assert(((x as i32) < 0) == (x > 0x7fff_ffffu32)) by (bit_vector);
    assert((x as i32) as u32 == x) by (bit_vector);
}

impl HoldemStateBuilder {
    /// Nothing has been validated or set yet: every field is empty.
    pub closed spec fn nothing_validated(&self) -> bool {
        &&& self.num_players is None
        &&& self.stacks is None
        &&& self.board is None
        &&& self.pot is None
        &&& self.to_act is None
        &&& self.hole_cards is None
    }

    /// Builder with nothing validated yet.
    pub fn new() -> (b: Self)
        ensures
            b.nothing_validated(),
            !b.has_players(),
            !b.has_stacks(),
            b.buildable(),
    {
        Self { num_players: None, stacks: None, board: None, pot: None, to_act: None, hole_cards: None }
    }

    /// Validates a web game state and builds the hand state it describes
    /// (see [`from_web_state_result`]).
    pub fn from_web_state(web_state: &WebGameState) -> (r: Result<State, ValidationError>)
        ensures
            from_web_state_result(*web_state, r),
    {
        let builder = Self::new();
        let builder = match builder.validate_player_count(web_state.stacks.len()) {
            Ok(b) => b,
            Err(e) => return Err(e),
        };
        let builder = match builder.validate_stacks(web_state.stacks.as_slice()) {
            Ok(b) => b,
            Err(e) => return Err(e),
        };
        let builder = match builder.validate_board(web_state.board.as_slice()) {
            Ok(b) => b,
            Err(e) => return Err(e),
        };
        let builder = match builder.validate_pot(web_state.pot) {
            Ok(b) => b,
            Err(e) => return Err(e),
        };
        let builder = match builder.validate_position(web_state.player_to_act, web_state.stacks.len()) {
            Ok(b) => b,
            Err(e) => return Err(e),
        };
        let builder = builder.set_hole_cards_from_web(web_state);
        let ghost w = *web_state;
        assert(web_state_checks_pass(w));
        let n = web_state.stacks.len();
        let board_len = web_state.board.len();
        if board_len != 1 && board_len != 2 {
            let sb: usize = if n == 2 {
                0
            } else {
                n - 2
            };
            let bb: usize = if n == 2 {
                1
            } else {
                n - 1
            };
            if web_state.stacks[sb] < 10 {
                proof {
                    lemma_i32_reading(w.stacks@[sb as int]);
                }
                return Err(ValidationError::InvalidStack(web_state.stacks[sb] as i32));
            }
            if web_state.stacks[bb] < 20 {
                proof {
                    lemma_i32_reading(w.stacks@[bb as int]);
                }
                return Err(ValidationError::InvalidStack(web_state.stacks[bb] as i32));
            }
        }
        proof {
            lemma_i32_reading(w.stacks@[sb_seat(n as int)]);
            lemma_i32_reading(w.stacks@[bb_seat(n as int)]);
        }
        let r = builder.build();
        proof {
            if r is Ok {
                builder.lemma_built_from_web(r->Ok_0@, w);
            }
        }
        r
    }

    fn validate_player_count(self, player_count: usize) -> (r: Result<Self, ValidationError>)
        ensures
            player_count < 2 || player_count > 6 ==> r == Err::<Self, ValidationError>(ValidationError::InvalidPlayerCount(player_count)),
            2 <= player_count <= 6 ==> (r matches Ok(b) && b.num_players == Some(player_count)
                && b.stacks == self.stacks && b.board == self.board && b.pot == self.pot
                && b.to_act == self.to_act && b.hole_cards == self.hole_cards),
    {
        if player_count < 2 || player_count > 6 {
            return Err(ValidationError::InvalidPlayerCount(player_count));
        }
        let mut b = self;
        b.num_players = Some(player_count);
        Ok(b)
    }

    fn validate_stacks(self, stacks: &[u32]) -> (r: Result<Self, ValidationError>)
        ensures
            first_oversized_stack(stacks@, 0) is Some ==> r == Err::<Self, ValidationError>(ValidationError::InvalidStack(
                stacks@[first_oversized_stack(stacks@, 0)->0] as i32,
            )),
            first_oversized_stack(stacks@, 0) is None ==> (r matches Ok(b) && b.num_players
                == self.num_players && (b.stacks matches Some(v) && v@ == stacks@.map_values(|x: u32| x as i32))
                && b.board == self.board && b.pot == self.pot && b.to_act == self.to_act
                && b.hole_cards == self.hole_cards),
    {
        let mut stacks_i32: Vec<i32> = Vec::new();
        let mut i: usize = 0;
        while i < stacks.len()
            invariant
                0 <= i <= stacks@.len(),
                stacks_i32@ == stacks@.subrange(0, i as int).map_values(|x: u32| x as i32),
            decreases stacks@.len() - i,
        {
            stacks_i32.push(stacks[i] as i32);
            i = i + 1;
            assert(stacks_i32@ =~= stacks@.subrange(0, i as int).map_values(|x: u32| x as i32));
        }
        assert(stacks_i32@ =~= stacks@.map_values(|x: u32| x as i32));
        let mut k: usize = 0;
        while k < stacks_i32.len()
            invariant
                stacks_i32@ == stacks@.map_values(|x: u32| x as i32),
                0 <= k <= stacks@.len(),
                first_oversized_stack(stacks@, 0) == first_oversized_stack(stacks@, k as int),
            decreases stacks@.len() - k,
        {
            let stack = stacks_i32[k];
            proof {
                lemma_i32_reading(stacks@[k as int]);
            }
            if stack < 0 {
                assert(stacks@[k as int] > i32::MAX);
                return Err(ValidationError::InvalidStack(stack));
            }
            assert(stacks@[k as int] <= i32::MAX);
            k = k + 1;
        }
        let mut b = self;
        b.stacks = Some(stacks_i32);
        Ok(b)
    }

    fn validate_board(self, board: &[u8]) -> (r: Result<Self, ValidationError>)
        ensures
            board@.len() > 5 ==> (r matches Err(ValidationError::InconsistentState(msg)) && msg@
                == "보드 카드는 최대 5장입니다"@),
            board@.len() <= 5 && first_bad_card(board@, 0) is Some ==> r == Err::<Self, ValidationError>(ValidationError::InvalidCard(
                board@[first_bad_card(board@, 0)->0],
            )),
            board@.len() <= 5 && first_bad_card(board@, 0) is None ==> (r matches Ok(b) && b.num_players
                == self.num_players && b.stacks == self.stacks && (b.board matches Some(v)
                && v@ == board@) && b.pot == self.pot && b.to_act == self.to_act && b.hole_cards
                == self.hole_cards),
    {
        if board.len() > 5 {
            return Err(ValidationError::InconsistentState(String::from_str("보드 카드는 최대 5장입니다")));
        }
        let mut i: usize = 0;
        while i < board.len()
            invariant
                0 <= i <= board@.len(),
                board@.len() <= 5,
                first_bad_card(board@, 0) == first_bad_card(board@, i as int),
            decreases board@.len() - i,
        {
            if board[i] >= 52 {
                return Err(ValidationError::InvalidCard(board[i]));
            }
            i = i + 1;
        }
        let mut v: Vec<u8> = Vec::new();
        let mut k: usize = 0;
        while k < board.len()
            invariant
                0 <= k <= board@.len(),
                v@ == board@.subrange(0, k as int),
            decreases board@.len() - k,
        {
            v.push(board[k]);
            k = k + 1;
        }
        assert(v@ =~= board@);
        let mut b = self;
        b.board = Some(v);
        Ok(b)
    }

    fn validate_pot(self, pot: u32) -> (r: Result<Self, ValidationError>)
        ensures
            r matches Ok(b) && b.num_players == self.num_players && b.stacks == self.stacks && b.board
                == self.board && b.pot == Some(pot as i32) && b.to_act == self.to_act && b.hole_cards
                == self.hole_cards,
    {
        let mut b = self;
        b.pot = Some(pot as i32);
        Ok(b)
    }

    fn validate_position(self, position: usize, player_count: usize) -> (r: Result<Self, ValidationError>)
        ensures
            position >= player_count ==> r == Err::<Self, ValidationError>(ValidationError::InvalidPosition(position)),
            position < player_count ==> (r matches Ok(b) && b.num_players == self.num_players
                && b.stacks == self.stacks && b.board == self.board && b.pot == self.pot && b.to_act
                == Some(position) && b.hole_cards == self.hole_cards),
    {
        if position >= player_count {
            return Err(ValidationError::InvalidPosition(position));
        }
        let mut b = self;
        b.to_act = Some(position);
        Ok(b)
    }

    fn set_hole_cards_from_web(self, web_state: &WebGameState) -> (b: Self)
        requires
            web_state.stacks@.len() <= 6,
        ensures
            b.num_players == self.num_players && b.stacks == self.stacks && b.board == self.board
                && b.pot == self.pot && b.to_act == self.to_act,
            b.hole_cards matches Some(v) && v@.len() == web_state.stacks@.len() && forall|i: int|
                0 <= i < v@.len() ==> #[trigger] v@[i] == web_hole(*web_state, web_state.stacks@.len() as int, i),
    {
        let mut hole_cards: Vec<[u8; 2]> = Vec::new();
        let player_count = web_state.stacks.len();
        let mut i: usize = 0;
        while i < player_count
            invariant
                player_count == web_state.stacks@.len(),
                player_count <= 6,
                0 <= i <= player_count,
                hole_cards@.len() == i,
                forall|j: int| 0 <= j < i ==> #[trigger] hole_cards@[j] == web_hole(*web_state, player_count as int, j),
            decreases player_count - i,
        {
            if i == web_state.hero_position {
                hole_cards.push(web_state.hole_cards);
            } else {
                hole_cards.push([i as u8 * 2, i as u8 * 2 + 1]);
            }
            i = i + 1;
        }
        let mut b = self;
        b.hole_cards = Some(hole_cards);
        b
    }

    /// The player count is set.
    pub closed spec fn has_players(&self) -> bool {
        self.num_players is Some
    }

    /// The stacks are set.
    pub closed spec fn has_stacks(&self) -> bool {
        self.stacks is Some
    }

    /// The board is unset (read as empty) or holds 0, 3, 4 or 5 cards.
    pub closed spec fn board_len_ok(&self) -> bool {
        match self.board {
            Some(b) => b@.len() == 0 || b@.len() == 3 || b@.len() == 4 || b@.len() == 5,
            None => true,
        }
    }

    /// The set player count, 0 when unset.
    pub closed spec fn players(&self) -> int {
        match self.num_players {
            Some(n) => n as int,
            None => 0,
        }
    }

    /// Chips of seat `i` as building reads them: the set stack as u32 for
    /// the first six seats that have one, else 0.
    pub closed spec fn stack_at(&self, i: int) -> u32 {
        match self.stacks {
            Some(v) => if 0 <= i < v@.len() && i < 6 {
                v@[i] as u32
            } else {
                0u32
            },
            None => 0u32,
        }
    }

    /// Building runs to its end without failing on the table it deals: when
    /// the player count and stacks are set and the board size is allowed,
    /// there are two to six players and the small and big blind seats hold
    /// at least 10 and 20 chips.
    pub closed spec fn buildable(&self) -> bool {
        self.has_players() && self.has_stacks() && self.board_len_ok() ==> {
            let n = self.players();
            &&& 2 <= n <= 6
            &&& self.stack_at(sb_seat(n)) >= 10
            &&& self.stack_at(bb_seat(n)) >= 20
        }
    }

    /// `m` is the state that building makes: a new hand with blinds 10/20
    /// over [`HoldemStateBuilder::stack_at`], then the set pot (0 unset),
    /// board (empty unset), seat to act (0 unset), the board's street, and
    /// the set hole cards over the first seats; seats past the players and
    /// the set hole cards have none, and the players' other seats keep the
    /// cards that the new hand dealt from a shuffled deck.
    pub closed spec fn built_from(&self, m: StateModel) -> bool {
        let n = self.players();
        let board = match self.board {
            Some(b) => b@,
            None => Seq::empty(),
        };
        let hole = match self.hole_cards {
            Some(h) => h@,
            None => Seq::empty(),
        };
        let pot = match self.pot {
            Some(p) => p as u32,
            None => 0u32,
        };
        let to_act = match self.to_act {
            Some(t) => t as int,
            None => 0,
        };
        let table = StateModel {
            pot: 30,
            board: Seq::empty(),
            to_act: if n == 2 { 0int } else { 3int },
            street: 0,
            hole: m.hole,
            ..m
        };
        &&& new_hand_table(table, seq![10u32, 20u32], Seq::new(6, |i: int| self.stack_at(i)), n)
        &&& m.pot == pot
        &&& m.board == board
        &&& m.to_act == to_act
        &&& m.street == street_of_board(board.len() as int)
        &&& m.hole.len() == 6
        &&& forall|i: int| 0 <= i < 6 && i < hole.len() ==> #[trigger] m.hole[i] == hole[i]
        &&& forall|i: int| n <= i < 6 && i >= hole.len() ==> #[trigger] m.hole[i] == [0u8, 0u8]
        &&& exists|deck: Seq<u8>|
            deck.to_multiset() == ordered_deck().to_multiset() && deck.len() == 52 && forall|i: int|
                hole.len() <= i < n ==> #[trigger] m.hole[i] == [deck[2 * i], deck[2 * i + 1]]
    }

    /// A builder that the web checks filled builds the state that
    /// [`built_state`] describes.
    proof fn lemma_built_from_web(&self, m: StateModel, w: WebGameState)
        requires
            web_state_checks_pass(w),
            self.num_players == Some(w.stacks.len()),
            self.stacks matches Some(v) && v@ == w.stacks@.map_values(|x: u32| x as i32),
            self.board matches Some(v) && v@ == w.board@,
            self.pot == Some(w.pot as i32),
            self.to_act == Some(w.player_to_act),
            self.hole_cards matches Some(v) && v@.len() == w.stacks@.len() && forall|i: int|
                0 <= i < v@.len() ==> #[trigger] v@[i] == web_hole(w, w.stacks@.len() as int, i),
            self.built_from(m),
        ensures
            built_state(m, w),
    {
        let n = w.stacks@.len() as int;
        let a = Seq::new(6, |i: int| self.stack_at(i));
        let b = Seq::new(6, |i: int| if i < n { w.stacks@[i] } else { 0u32 });
        assert forall|i: int| 0 <= i < 6 implies #[trigger] a[i] == b[i] by {
            if i < n {
                lemma_i32_reading(w.stacks@[i]);
            }
        }
        assert(a =~= b);
        lemma_i32_reading(w.pot);
        assert(m.hole =~= Seq::new(6, |j: int| web_hole(w, n, j)));
    }

    /// Builds the hand state from the fields set so far: an error when the
    /// player count or the stacks are unset or the board does not hold 0, 3,
    /// 4 or 5 cards, else the state of [`HoldemStateBuilder::built_from`].
    pub fn build(self) -> (r: Result<State, ValidationError>)
        requires
            self.buildable(),
        ensures
            !self.has_players() ==> (r matches Err(ValidationError::InconsistentState(msg)) && msg@
                == "플레이어 수가 설정되지 않았습니다"@),
            self.has_players() && !self.has_stacks() ==> (r matches Err(
                ValidationError::InconsistentState(msg),
            ) && msg@ == "스택이 설정되지 않았습니다"@),
            self.has_players() && self.has_stacks() && !self.board_len_ok() ==> (r matches Err(
                ValidationError::InconsistentState(msg),
            ) && msg@ == "유효하지 않은 보드 카드 수"@),
            self.has_players() && self.has_stacks() && self.board_len_ok() ==> (r matches Ok(s)
                && self.built_from(s@)),
    {
        let ghost this = self;
        let num_players = match self.num_players {
            Some(n) => n,
            None => return Err(ValidationError::InconsistentState(String::from_str("플레이어 수가 설정되지 않았습니다"))),
        };
        let stacks = match self.stacks {
            Some(s) => s,
            None => return Err(ValidationError::InconsistentState(String::from_str("스택이 설정되지 않았습니다"))),
        };
        let board = match self.board {
            Some(b) => b,
            None => Vec::new(),
        };
        let pot = match self.pot {
            Some(p) => p,
            None => 0,
        };
        let to_act = match self.to_act {
            Some(t) => t,
            None => 0,
        };
        let hole_cards = match self.hole_cards {
            Some(h) => h,
            None => Vec::new(),
        };
        let street: u8 = if board.len() == 0 {
            0
        } else if board.len() == 3 {
            1
        } else if board.len() == 4 {
            2
        } else if board.len() == 5 {
            3
        } else {
            return Err(ValidationError::InconsistentState(String::from_str("유효하지 않은 보드 카드 수")));
        };
        let mut stacks_array = [0u32; 6];
        let mut i: usize = 0;
        while i < stacks.len()
            invariant
                this.stacks == Some(stacks),
                0 <= i <= stacks@.len(),
                forall|j: int| 0 <= j < 6 ==> #[trigger] stacks_array@[j] == if j < i {
                    this.stack_at(j)
                } else {
                    0u32
                },
            decreases stacks@.len() - i,
        {
            if i < 6 {
                stacks_array[i] = stacks[i] as u32;
            }
            i = i + 1;
        }
        let ghost n = num_players as int;
        assert(stacks_array@ =~= Seq::new(6, |i: int| this.stack_at(i)));
        let blinds: [u32; 2] = [10, 20];
        assert(blinds@ =~= seq![10u32, 20u32]);
        let mut state = State::new_hand(blinds, stacks_array, num_players);
        let ghost s0 = state@;
        state.pot = pot as u32;
        state.board = board;
        state.to_act = to_act;
        state.street = street;
        let ghost table = state@;
        let mut k: usize = 0;
        while k < hole_cards.len()
            invariant
                hole_cards@ == match this.hole_cards {
                    Some(h) => h@,
                    None => Seq::empty(),
                },
                2 <= n <= 6,
                0 <= k <= hole_cards@.len(),
                state@ == (StateModel { hole: state@.hole, ..table }),
                table.hole.len() == 6,
                forall|j: int| 0 <= j < 6 ==> #[trigger] state@.hole[j] == if j < k {
                    hole_cards@[j]
                } else {
                    table.hole[j]
                },
            decreases hole_cards@.len() - k,
        {
            if k < 6 {
                state.hole[k] = hole_cards[k];
            }
            assert(state@ =~= (StateModel { hole: state@.hole, ..table }));
            k = k + 1;
        }
        assert(this.built_from(state@)) by {
            let tb = StateModel {
                pot: 30,
                board: Seq::empty(),
                to_act: if n == 2 { 0int } else { 3int },
                street: 0,
                hole: state@.hole,
                ..state@
            };
            assert(tb.stack == s0.stack);
            assert(tb.alive == s0.alive);
            assert(tb.invested == s0.invested);
            let deck = choose|deck: Seq<u8>|
                deck.to_multiset() == ordered_deck().to_multiset() && deck.len() == 52 && forall|i: int|
                    0 <= i < 6 ==> #[trigger] s0.hole[i] == if i < n {
                        [deck[2 * i], deck[2 * i + 1]]
                    } else {
                        [0u8, 0u8]
                    };
            assert forall|i: int| hole_cards@.len() <= i < n implies #[trigger] state@.hole[i] == [
                deck[2 * i],
                deck[2 * i + 1],
            ] by {
                assert(s0.hole[i] == [deck[2 * i], deck[2 * i + 1]]);
            }
        }
        Ok(state)
    }
}

/// A state built from a web state holds the web board, which has no cards
/// or three to five, and counts the streets that board has reached:
/// preflop with no cards, then flop, turn and river with three, four and
/// five.
pub proof fn lemma_web_state_street(w: WebGameState, r: Result<State, ValidationError>)
    requires
        from_web_state_result(w, r),
        r is Ok,
    ensures
        w.board@.len() == 0 || 3 <= w.board@.len() <= 5,
        r->Ok_0@.board == w.board@,
        w.board@.len() == 0 ==> r->Ok_0@.street == 0,
        w.board@.len() >= 3 ==> r->Ok_0@.street == w.board@.len() - 2,
{
}

impl HoldemStateBuilder {
    /// What building makes counts the streets its board has reached: no
    /// cards preflop (street 0), three on the flop (1), four on the turn (2)
    /// and five on the river (3).
    pub proof fn lemma_built_street(&self, m: StateModel)
        requires
            self.built_from(m),
        ensures
            m.board.len() == 0 ==> m.street == 0,
            m.board.len() == 3 ==> m.street == 1,
            m.board.len() == 4 ==> m.street == 2,
            m.board.len() == 5 ==> m.street == 3,
    {
    }
}

} // verus!
