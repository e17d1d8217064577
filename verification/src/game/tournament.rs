//! Tournament structures (blind schedule, payout input, tables and seats)
//! and the multi-table bookkeeping that runs on them.

use vstd::prelude::*;

verus! {

/// Blind schedule and starting stacks of a tournament.
#[derive(Debug, Clone)]
pub struct TournamentStructure {
    pub levels: Vec<BlindLevel>,
    pub level_duration_minutes: u32,
    pub starting_stack: u32,
    pub ante_schedule: Vec<AnteLevel>,
}

/// One blind level: small blind, big blind and ante.
#[derive(Debug, Clone)]
pub struct BlindLevel {
    pub level: u32,
    pub small_blind: u32,
    pub big_blind: u32,
    pub ante: u32,
}

/// An ante that starts at a given level.
#[derive(Debug, Clone)]
pub struct AnteLevel {
    pub level: u32,
    pub ante: u32,
}

impl TournamentStructure {
    /// (small blind, big blind, ante) of 1-based blind level `level`, or
    /// 10/20 with no ante past the end of the schedule.
    pub fn blinds_at_level(&self, level: u32) -> (blinds: (u32, u32, u32))
        requires
            level >= 1,
        ensures
            level - 1 < self.levels@.len() ==> blinds == (
                self.levels@[level - 1].small_blind,
                self.levels@[level - 1].big_blind,
                self.levels@[level - 1].ante,
            ),
            level - 1 >= self.levels@.len() ==> blinds == (10u32, 20u32, 0u32),
    {
        let idx = (level - 1) as usize;
        if idx < self.levels.len() {
            let l = &self.levels[idx];
            (l.small_blind, l.big_blind, l.ante)
        } else {
            (10, 20, 0)
        }
    }

    /// Chips in play: every entrant's starting stack.
    pub fn total_chips(&self, total_players: u32) -> (chips: u32)
        requires
            total_players * self.starting_stack <= u32::MAX,
        ensures
            chips == total_players * self.starting_stack,
    {
        total_players * self.starting_stack
    }
}

/// Stacks and payouts that Independent Chip Model equities are computed
/// from.
#[derive(Debug, Clone)]
pub struct ICMCalculator {
    pub stacks: Vec<u32>,
    pub payouts: Vec<u64>,
}

impl ICMCalculator {
    /// Calculator over the given stacks and payouts (first place first).
    pub fn new(stacks: Vec<u32>, payouts: Vec<u64>) -> (c: Self)
        ensures
            c.stacks@ == stacks@,
            c.payouts@ == payouts@,
    {
        Self { stacks, payouts }
    }
}

/// A tournament action.
#[derive(Debug, Clone, PartialEq, Eq, Structural)]
pub enum TournamentAction {
    Fold,
    Call,
    Raise(u32),
    AllIn,
}

/// Table position.
#[derive(Debug, Clone, PartialEq, Eq, Structural)]
pub enum Position {
    SmallBlind,
    BigBlind,
    EarlyPosition,
    MiddlePosition,
    LatePosition,
    Button,
}

/// One table of a multi-table tournament.
#[derive(Debug, Clone)]
pub struct MTTTable {
    pub table_id: u32,
    pub seats: Vec<Option<MTTPlayer>>,
    pub max_seats: u32,
    pub current_hand: u32,
    pub button_position: u32,
}

/// A seated tournament player.
#[derive(Debug, Clone, Copy)]
pub struct MTTPlayer {
    pub player_id: u32,
    pub stack_size: u32,
    pub position: u32,
    pub is_sitting_out: bool,
    pub has_been_dealt_in: bool,
}

/// How tables are rebalanced.
#[derive(Debug, Clone, Copy, PartialEq, Eq, Structural)]
pub enum BalancingAlgorithm {
    StandardBalancing,
    ChipRaceProtocol,
    FinalTableConsolidation,
}

/// The seat holds a player who is playing: not sitting out, chips left.
pub open spec fn seat_active(seat: Option<MTTPlayer>) -> bool {
    match seat {
        Some(p) => !p.is_sitting_out && p.stack_size > 0,
        None => false,
    }
}

/// Number of active seats among the first `n`.
pub open spec fn active_upto(seats: Seq<Option<MTTPlayer>>, n: int) -> int
    decreases n,
{
    if n <= 0 {
        0
    } else {
        active_upto(seats, n - 1) + if seat_active(seats[n - 1]) {
            1int
        } else {
            0int
        }
    }
}

/// Number of active seats.
pub open spec fn active_seats(seats: Seq<Option<MTTPlayer>>) -> int {
    active_upto(seats, seats.len() as int)
}

proof fn lemma_active_upto_bounds(seats: Seq<Option<MTTPlayer>>, n: int)
    requires
        0 <= n,
    ensures
        0 <= active_upto(seats, n) <= n,
    decreases n,
{
    if n > 0 {
        lemma_active_upto_bounds(seats, n - 1);
    }
}

impl MTTTable {
    /// Players at the table who are not sitting out and have chips.
    pub fn count_active_players(&self) -> (n: u32)
        requires
            self.seats@.len() <= u32::MAX,
        ensures
            n == active_seats(self.seats@),
    {
        let mut n: u32 = 0;
        let mut i: usize = 0;
        while i < self.seats.len()
            invariant
                0 <= i <= self.seats@.len(),
                self.seats@.len() <= u32::MAX,
                n == active_upto(self.seats@, i as int),
            decreases self.seats@.len() - i,
        {
            proof {
                lemma_active_upto_bounds(self.seats@, i as int);
            }
            match &self.seats[i] {
                Some(player) => {
                    if !player.is_sitting_out && player.stack_size > 0 {
                        n = n + 1;
                    }
                },
                None => {},
            }
            i = i + 1;
        }
        n
    }
}


/// What a table holds, as plain values.
#[verifier::ext_equal]
pub struct TableModel {
    pub table_id: u32,
    pub seats: Seq<Option<MTTPlayer>>,
    pub max_seats: u32,
    pub current_hand: u32,
    pub button_position: u32,
}

impl View for MTTTable {
    type V = TableModel;

    open spec fn view(&self) -> TableModel {
        TableModel {
            table_id: self.table_id,
            seats: self.seats@,
            max_seats: self.max_seats,
            current_hand: self.current_hand,
            button_position: self.button_position,
        }
    }
}

/// The tables, each by its model.
pub open spec fn tables_view(tables: Seq<MTTTable>) -> Seq<TableModel> {
    tables.map_values(|t: MTTTable| t@)
}

/// Number of tables that seat `total` players at `max` per table.
pub open spec fn table_count(total: int, max: int) -> int {
    (total + max - 1) / max
}

/// The seat that the `k`-th entrant (from 0) takes at the start: seat `s` of
/// its table, with a fresh stack; empty once every entrant is seated.
pub open spec fn initial_seat(k: int, total: int, s: int, stack: u32) -> Option<MTTPlayer> {
    if k < total {
        Some(
            MTTPlayer {
                player_id: (k + 1) as u32,
                stack_size: stack,
                position: s as u32,
                is_sitting_out: false,
                has_been_dealt_in: false,
            },
        )
    } else {
        None
    }
}

/// Table `t` at the start: entrants are seated in order, filling each table
/// before the next.
pub open spec fn initial_table(t: int, total: int, max: int, stack: u32) -> TableModel {
    TableModel {
        table_id: t as u32,
        seats: Seq::new(max as nat, |s: int| initial_seat(t * max + s, total, s, stack)),
        max_seats: max as u32,
        current_hand: 1,
        button_position: 1,
    }
}

proof fn lemma_table_bounds(t: int, total: int, max: int)
    requires
        max > 0,
        total >= 0,
        0 <= t < table_count(total, max),
    ensures
        t * max < total,
        t < table_count(total, max) - 1 ==> (t + 1) * max <= total,
        t == table_count(total, max) - 1 ==> total - t * max <= max,
        t * max + max == (t + 1) * max,
{
    let n = table_count(total, max);
    assert(n * max <= total + max - 1) by (nonlinear_arith)
        requires
            n == (total + max - 1) / max,
            max > 0,
            total >= 0,
    ;
    assert(n * max > total - 1) by (nonlinear_arith)
        requires
            n == (total + max - 1) / max,
            max > 0,
            total >= 0,
    ;
    assert(t * max <= (n - 1) * max) by (nonlinear_arith)
        requires
            t <= n - 1,
            max > 0,
    ;
    assert((n - 1) * max == n * max - max) by (nonlinear_arith);
    assert(t < n - 1 ==> (t + 1) * max <= (n - 1) * max) by (nonlinear_arith)
        requires
            max > 0,
    ;
    assert(t * max + max == (t + 1) * max) by (nonlinear_arith);
}

proof fn lemma_initial_table_active(t: int, total: int, max: int, stack: u32, k: int)
    requires
        max > 0,
        stack > 0,
        0 <= t,
        0 <= k <= max,
    ensures
        active_upto(initial_table(t, total, max, stack).seats, k) == if total - t * max <= 0 {
            0
        } else if total - t * max < k {
            total - t * max
        } else {
            k
        },
    decreases k,
{
    if k > 0 {
        lemma_initial_table_active(t, total, max, stack, k - 1);
    }
}

proof fn lemma_initial_tables_active(
    tables: Seq<TableModel>,
    total: int,
    max: int,
    stack: u32,
    m: int,
)
    requires
        max > 0,
        stack > 0,
        total >= 0,
        0 <= m <= tables.len(),
        forall|t: int| 0 <= t < tables.len() ==> #[trigger] tables[t] == initial_table(t, total, max, stack),
    ensures
        total_active_upto(tables, m) == if total < m * max {
            total
        } else {
            m * max
        },
    decreases m,
{
    if m > 0 {
        lemma_initial_tables_active(tables, total, max, stack, m - 1);
        lemma_initial_table_active(m - 1, total, max, stack, max);
        assert((m - 1) * max + max == m * max) by (nonlinear_arith);
        assert(tables[m - 1] == initial_table(m - 1, total, max, stack));
        assert(tables[m - 1].seats.len() == max);
        assert(active_seats(tables[m - 1].seats) == active_upto(
            initial_table(m - 1, total, max, stack).seats,
            max,
        ));
        assert(0 <= (m - 1) * max) by (nonlinear_arith)
            requires
                m >= 1,
                max > 0,
        ;
    } else {
        assert(m * max == 0) by (nonlinear_arith)
            requires
                m == 0,
        ;
    }
}

/// Seats `total_players` entrants at tables of `max_seats`, in order: table
/// `t` holds entrants `t * max_seats + 1` onwards, each at the seat matching
/// its place, with `starting_stack` chips.
pub fn seat_players(total_players: u32, max_seats: u32, starting_stack: u32) -> (tables: Vec<MTTTable>)
    requires
        max_seats > 0,
        total_players + max_seats <= u32::MAX,
    ensures
        tables@.len() == table_count(total_players as int, max_seats as int),
        forall|t: int|
            0 <= t < tables@.len() ==> #[trigger] tables@[t]@ == initial_table(
                t,
                total_players as int,
                max_seats as int,
                starting_stack,
            ),
        starting_stack > 0 ==> total_active(tables_view(tables@)) == total_players,
{
    let num_tables = (total_players + max_seats - 1) / max_seats;
    let mut tables: Vec<MTTTable> = Vec::new();
    let mut player_id: u32 = 1;
    let mut table_id: u32 = 0;
    while table_id < num_tables
        invariant
            max_seats > 0,
            total_players + max_seats <= u32::MAX,
            num_tables == table_count(total_players as int, max_seats as int),
            table_id <= num_tables,
            tables@.len() == table_id,
            player_id == table_id * max_seats + 1 || (table_id == num_tables && player_id
                == total_players + 1),
            table_id < num_tables ==> player_id == table_id * max_seats + 1,
            forall|t: int|
                0 <= t < table_id ==> #[trigger] tables@[t]@ == initial_table(
                    t,
                    total_players as int,
                    max_seats as int,
                    starting_stack,
                ),
        decreases num_tables - table_id,
    {
        proof {
            lemma_table_bounds(table_id as int, total_players as int, max_seats as int);
        }
        let players_for_this_table = if table_id == num_tables - 1 {
            total_players - table_id * max_seats
        } else {
            max_seats
        };
        let ghost base: int = table_id * max_seats;
        let mut seats: Vec<Option<MTTPlayer>> = Vec::new();
        let mut seat: u32 = 0;
        while seat < max_seats
            invariant
                max_seats > 0,
                total_players + max_seats <= u32::MAX,
                base == table_id * max_seats,
                base < total_players,
                base + max_seats == (table_id + 1) * max_seats,
                players_for_this_table <= max_seats,
                players_for_this_table == (if base + max_seats <= total_players {
                    max_seats as int
                } else {
                    total_players - base
                }),
                seat <= max_seats,
                seats@.len() == seat,
                player_id == base + (if seat <= players_for_this_table {
                    seat as int
                } else {
                    players_for_this_table as int
                }) + 1,
                forall|s: int|
                    0 <= s < seat ==> #[trigger] seats@[s] == initial_seat(
                        base + s,
                        total_players as int,
                        s,
                        starting_stack,
                    ),
            decreases max_seats - seat,
        {
            if seat < players_for_this_table {
                seats.push(
                    Some(
                        MTTPlayer {
                            player_id,
                            stack_size: starting_stack,
                            position: seat,
                            is_sitting_out: false,
                            has_been_dealt_in: false,
                        },
                    ),
                );
                player_id = player_id + 1;
            } else {
                seats.push(None);
            }
            seat = seat + 1;
        }
        let table = MTTTable {
            table_id,
            seats,
            max_seats,
            current_hand: 1,
            button_position: 1,
        };
        assert(table@ =~= initial_table(
            table_id as int,
            total_players as int,
            max_seats as int,
            starting_stack,
        ));
        tables.push(table);
        table_id = table_id + 1;
    }
    proof {
        if starting_stack > 0 {
            let tv = tables_view(tables@);
            lemma_initial_tables_active(
                tv,
                total_players as int,
                max_seats as int,
                starting_stack,
                tv.len() as int,
            );
            let n = num_tables as int;
            assert(n * max_seats >= total_players) by (nonlinear_arith)
                requires
                    n == (total_players + max_seats - 1) / (max_seats as int),
                    max_seats > 0,
            ;
        }
    }
    tables
}


/// Active players over the first `n` tables.
pub open spec fn total_active_upto(tables: Seq<TableModel>, n: int) -> int
    decreases n,
{
    if n <= 0 {
        0
    } else {
        total_active_upto(tables, n - 1) + active_seats(tables[n - 1].seats)
    }
}

/// Active players over all tables.
pub open spec fn total_active(tables: Seq<TableModel>) -> int {
    total_active_upto(tables, tables.len() as int)
}

/// Every table's seat count fits in a `u32`.
pub open spec fn seat_counts_fit(tables: Seq<TableModel>) -> bool {
    forall|t: int| 0 <= t < tables.len() ==> #[trigger] tables[t].seats.len() <= u32::MAX
}

proof fn lemma_total_active_upto_mono(tables: Seq<TableModel>, m: int, n: int)
    requires
        0 <= m <= n <= tables.len(),
    ensures
        0 <= total_active_upto(tables, m) <= total_active_upto(tables, n),
    decreases n,
{
    if n > m {
        lemma_total_active_upto_mono(tables, m, n - 1);
        lemma_active_upto_bounds(tables[n - 1].seats, tables[n - 1].seats.len() as int);
    } else if m > 0 {
        lemma_total_active_upto_mono(tables, m - 1, m - 1);
        lemma_active_upto_bounds(tables[m - 1].seats, tables[m - 1].seats.len() as int);
    }
}

/// Players still playing over all tables.
pub fn count_active_players(tables: &Vec<MTTTable>) -> (n: u32)
    requires
        seat_counts_fit(tables_view(tables@)),
        total_active(tables_view(tables@)) <= u32::MAX,
    ensures
        n == total_active(tables_view(tables@)),
{
    let ghost tv = tables_view(tables@);
    let mut n: u32 = 0;
    let mut i: usize = 0;
    while i < tables.len()
        invariant
            tv == tables_view(tables@),
            i <= tables@.len(),
            seat_counts_fit(tv),
            total_active(tv) <= u32::MAX,
            n == total_active_upto(tv, i as int),
        decreases tables@.len() - i,
    {
        proof {
            lemma_total_active_upto_mono(tv, i + 1, tv.len() as int);
            assert(tv[i as int].seats.len() <= u32::MAX);
        }
        let c = tables[i].count_active_players();
        n = n + c;
        i = i + 1;
    }
    n
}

/// `t` with its seats replaced.
pub open spec fn with_seats(t: TableModel, seats: Seq<Option<MTTPlayer>>) -> TableModel {
    TableModel {
        table_id: t.table_id,
        seats: seats,
        max_seats: t.max_seats,
        current_hand: t.current_hand,
        button_position: t.button_position,
    }
}

/// Seat `s` of table `t` set to `seat`.
pub open spec fn set_seat_spec(
    tables: Seq<TableModel>,
    t: int,
    s: int,
    seat: Option<MTTPlayer>,
) -> Seq<TableModel> {
    tables.update(t, with_seats(tables[t], tables[t].seats.update(s, seat)))
}

/// Same number of tables, each with the same number of seats.
pub open spec fn same_shape(a: Seq<TableModel>, b: Seq<TableModel>) -> bool {
    &&& a.len() == b.len()
    &&& forall|t: int| 0 <= t < a.len() ==> #[trigger] a[t].seats.len() == b[t].seats.len()
}

fn set_seat(tables: &mut Vec<MTTTable>, t: usize, s: usize, seat: Option<MTTPlayer>)
    requires
        t < old(tables)@.len(),
        s < old(tables)@[t as int].seats@.len(),
    ensures
        tables_view(final(tables)@) == set_seat_spec(
            tables_view(old(tables)@),
            t as int,
            s as int,
            seat,
        ),
        same_shape(tables_view(final(tables)@), tables_view(old(tables)@)),
{
    let ghost before = tables@;
    let mut table = tables.remove(t);
    table.seats.set(s, seat);
    tables.insert(t, table);
    proof {
        let lhs = tables_view(tables@);
        let rhs = set_seat_spec(tables_view(before), t as int, s as int, seat);
        assert forall|i: int| 0 <= i < lhs.len() implies #[trigger] lhs[i] == rhs[i] by {
            if i != t {
                assert(tables@[i] == before[i]);
            } else {
                assert(lhs[i] =~= rhs[i]);
            }
        }
        assert(lhs =~= rhs);
    }
}


/// A seat whose player may be moved to another table: someone who is not
/// sitting out, away from the button.
pub open spec fn seat_movable(seat: Option<MTTPlayer>, pos: int, button: u32) -> bool {
    match seat {
        Some(p) => !p.is_sitting_out && pos != button,
        None => false,
    }
}

/// First movable seat at index `i` or later.
pub open spec fn first_movable_from(seats: Seq<Option<MTTPlayer>>, button: u32, i: int) -> Option<
    int,
>
    decreases seats.len() - i,
{
    if i < 0 || i >= seats.len() {
        None
    } else if seat_movable(seats[i], i, button) {
        Some(i)
    } else {
        first_movable_from(seats, button, i + 1)
    }
}

/// The seat whose player a crowded table gives up.
pub open spec fn seat_to_move(t: TableModel) -> Option<int> {
    first_movable_from(t.seats, t.button_position, 0)
}

/// First table at index `i` or later with fewer than `target` active players.
pub open spec fn first_short_from(tables: Seq<TableModel>, target: int, i: int) -> Option<int>
    decreases tables.len() - i,
{
    if i < 0 || i >= tables.len() {
        None
    } else if active_seats(tables[i].seats) < target {
        Some(i)
    } else {
        first_short_from(tables, target, i + 1)
    }
}

/// The table that receives moved players.
pub open spec fn destination_table(tables: Seq<TableModel>, target: int) -> Option<int> {
    first_short_from(tables, target, 0)
}

/// Players per table when the active players are spread evenly (rounded up).
pub open spec fn balance_target(tables: Seq<TableModel>) -> int {
    (total_active(tables) + tables.len() - 1) / (tables.len() as int)
}

/// The table is crowded (more than one over `target`) and has a player to
/// move.
pub open spec fn gives_player(t: TableModel, target: int) -> bool {
    active_seats(t.seats) > target + 1 && seat_to_move(t) is Some
}

/// Moves (table, seat) out of the first `n` crowded tables, in table order.
pub open spec fn moves_upto(tables: Seq<TableModel>, target: int, n: int) -> Seq<(int, int)>
    decreases n,
{
    if n <= 0 {
        Seq::empty()
    } else if gives_player(tables[n - 1], target) {
        moves_upto(tables, target, n - 1).push((n - 1, seat_to_move(tables[n - 1])->0))
    } else {
        moves_upto(tables, target, n - 1)
    }
}

/// First empty seat at index `i` or later.
pub open spec fn first_empty_from(seats: Seq<Option<MTTPlayer>>, i: int) -> Option<int>
    decreases seats.len() - i,
{
    if i < 0 || i >= seats.len() {
        None
    } else if seats[i] is None {
        Some(i)
    } else {
        first_empty_from(seats, i + 1)
    }
}

/// Moving the player at `mv` to the first empty seat of table `dest`; the
/// seat is emptied, and the player is gone when `dest` has no empty seat.
pub open spec fn move_step(tables: Seq<TableModel>, mv: (int, int), dest: int) -> Seq<TableModel> {
    let seat = tables[mv.0].seats[mv.1];
    let emptied = set_seat_spec(tables, mv.0, mv.1, None);
    match seat {
        Some(p) => match first_empty_from(emptied[dest].seats, 0) {
            Some(e) => set_seat_spec(emptied, dest, e, Some(p)),
            None => emptied,
        },
        None => emptied,
    }
}

/// The first `n` moves applied in order.
pub open spec fn apply_moves_upto(
    tables: Seq<TableModel>,
    moves: Seq<(int, int)>,
    dest: int,
    n: int,
) -> Seq<TableModel>
    decreases n,
{
    if n <= 0 {
        tables
    } else {
        move_step(apply_moves_upto(tables, moves, dest, n - 1), moves[n - 1], dest)
    }
}

/// Standard balancing: every crowded table gives its first movable player
/// to the first table below the target, all moves chosen on the tables as
/// they were.
pub open spec fn standard_balance(tables: Seq<TableModel>) -> Seq<TableModel> {
    let target = balance_target(tables);
    let moves = moves_upto(tables, target, tables.len() as int);
    match destination_table(tables, target) {
        Some(d) => apply_moves_upto(tables, moves, d, moves.len() as int),
        None => tables,
    }
}

proof fn lemma_first_movable(seats: Seq<Option<MTTPlayer>>, button: u32, i: int)
    requires
        0 <= i,
    ensures
        first_movable_from(seats, button, i) matches Some(k) ==> i <= k < seats.len()
            && seat_movable(seats[k], k, button),
    decreases seats.len() - i,
{
    if i < seats.len() && !seat_movable(seats[i], i, button) {
        lemma_first_movable(seats, button, i + 1);
    }
}

proof fn lemma_first_empty(seats: Seq<Option<MTTPlayer>>, i: int)
    requires
        0 <= i,
    ensures
        first_empty_from(seats, i) matches Some(k) ==> i <= k < seats.len() && seats[k] is None,
    decreases seats.len() - i,
{
    if i < seats.len() && seats[i] is Some {
        lemma_first_empty(seats, i + 1);
    }
}

proof fn lemma_first_short(tables: Seq<TableModel>, target: int, i: int)
    requires
        0 <= i,
    ensures
        first_short_from(tables, target, i) matches Some(k) ==> i <= k < tables.len(),
    decreases tables.len() - i,
{
    if i < tables.len() && active_seats(tables[i].seats) >= target {
        lemma_first_short(tables, target, i + 1);
    }
}

/// Occupied seats among the first `n`.
pub open spec fn occupied_upto(seats: Seq<Option<MTTPlayer>>, n: int) -> int
    decreases n,
{
    if n <= 0 {
        0
    } else {
        occupied_upto(seats, n - 1) + if seats[n - 1] is Some {
            1int
        } else {
            0int
        }
    }
}

/// Occupied seats of a table.
pub open spec fn occupied(seats: Seq<Option<MTTPlayer>>) -> int {
    occupied_upto(seats, seats.len() as int)
}

/// Occupied seats over the first `n` tables.
pub open spec fn total_occupied_upto(tables: Seq<TableModel>, n: int) -> int
    decreases n,
{
    if n <= 0 {
        0
    } else {
        total_occupied_upto(tables, n - 1) + occupied(tables[n - 1].seats)
    }
}

/// Players seated over all tables.
pub open spec fn total_occupied(tables: Seq<TableModel>) -> int {
    total_occupied_upto(tables, tables.len() as int)
}

proof fn lemma_occupied_update(seats: Seq<Option<MTTPlayer>>, s: int, v: Option<MTTPlayer>, n: int)
    requires
        0 <= s < seats.len(),
        0 <= n <= seats.len(),
    ensures
        occupied_upto(seats.update(s, v), n) == occupied_upto(seats, n) + if s < n {
            (if v is Some {
                1int
            } else {
                0int
            }) - (if seats[s] is Some {
                1int
            } else {
                0int
            })
        } else {
            0int
        },
    decreases n,
{
    if n > 0 {
        lemma_occupied_update(seats, s, v, n - 1);
    }
}

proof fn lemma_total_occupied_update(tables: Seq<TableModel>, t: int, x: TableModel, n: int)
    requires
        0 <= t < tables.len(),
        0 <= n <= tables.len(),
    ensures
        total_occupied_upto(tables.update(t, x), n) == total_occupied_upto(tables, n) + if t < n {
            occupied(x.seats) - occupied(tables[t].seats)
        } else {
            0int
        },
    decreases n,
{
    if n > 0 {
        lemma_total_occupied_update(tables, t, x, n - 1);
    }
}

proof fn lemma_set_seat_occupied(tables: Seq<TableModel>, t: int, s: int, v: Option<MTTPlayer>)
    requires
        0 <= t < tables.len(),
        0 <= s < tables[t].seats.len(),
    ensures
        total_occupied(set_seat_spec(tables, t, s, v)) == total_occupied(tables) + (if v is Some {
            1int
        } else {
            0int
        }) - (if tables[t].seats[s] is Some {
            1int
        } else {
            0int
        }),
        occupied(set_seat_spec(tables, t, s, v)[t].seats) == occupied(tables[t].seats) + (if v is Some {
            1int
        } else {
            0int
        }) - (if tables[t].seats[s] is Some {
            1int
        } else {
            0int
        }),
{
    let seats = tables[t].seats;
    lemma_occupied_update(seats, s, v, seats.len() as int);
    lemma_total_occupied_update(
        tables,
        t,
        with_seats(tables[t], seats.update(s, v)),
        tables.len() as int,
    );
}

proof fn lemma_full_when_no_empty(seats: Seq<Option<MTTPlayer>>, i: int)
    requires
        0 <= i <= seats.len(),
        first_empty_from(seats, i) is None,
    ensures
        forall|k: int| i <= k < seats.len() ==> #[trigger] seats[k] is Some,
    decreases seats.len() - i,
{
    if i < seats.len() {
        lemma_full_when_no_empty(seats, i + 1);
    }
}

proof fn lemma_occupied_all(seats: Seq<Option<MTTPlayer>>, n: int)
    requires
        0 <= n <= seats.len(),
        forall|k: int| 0 <= k < seats.len() ==> #[trigger] seats[k] is Some,
    ensures
        occupied_upto(seats, n) == n,
    decreases n,
{
    if n > 0 {
        lemma_occupied_all(seats, n - 1);
    }
}

proof fn lemma_room_means_empty_seat(seats: Seq<Option<MTTPlayer>>)
    requires
        occupied(seats) < seats.len(),
    ensures
        first_empty_from(seats, 0) is Some,
{
    if first_empty_from(seats, 0) is None {
        lemma_full_when_no_empty(seats, 0);
        lemma_occupied_all(seats, seats.len() as int);
    }
}

proof fn lemma_moves_shape(tables: Seq<TableModel>, target: int, n: int)
    requires
        0 <= n <= tables.len(),
    ensures
        forall|j: int|
            0 <= j < moves_upto(tables, target, n).len() ==> {
                let mv = #[trigger] moves_upto(tables, target, n)[j];
                &&& 0 <= mv.0 < n
                &&& 0 <= mv.1 < tables[mv.0].seats.len()
                &&& tables[mv.0].seats[mv.1] is Some
            },
        forall|i: int, j: int|
            0 <= i < j < moves_upto(tables, target, n).len() ==> (#[trigger] moves_upto(
                tables,
                target,
                n,
            )[i]).0 < (#[trigger] moves_upto(tables, target, n)[j]).0,
    decreases n,
{
    if n > 0 {
        lemma_moves_shape(tables, target, n - 1);
        lemma_first_movable(tables[n - 1].seats, tables[n - 1].button_position, 0);
    }
}

/// Standard balancing keeps every seated player when the receiving table
/// has an empty seat for each player moved to it.
pub proof fn lemma_standard_balance_keeps_players(tables: Seq<TableModel>)
    requires
        destination_table(tables, balance_target(tables)) matches Some(d) ==> tables[d].seats.len()
            - occupied(tables[d].seats) >= moves_upto(
            tables,
            balance_target(tables),
            tables.len() as int,
        ).len(),
    ensures
        total_occupied(standard_balance(tables)) == total_occupied(tables),
{
    let target = balance_target(tables);
    let moves = moves_upto(tables, target, tables.len() as int);
    lemma_first_short(tables, target, 0);
    lemma_moves_shape(tables, target, tables.len() as int);
    match destination_table(tables, target) {
        None => {},
        Some(d) => {
            lemma_apply_moves_keeps_players(tables, moves, d, moves.len() as int);
        },
    }
}

proof fn lemma_apply_moves_keeps_players(
    tables: Seq<TableModel>,
    moves: Seq<(int, int)>,
    d: int,
    k: int,
)
    requires
        0 <= d < tables.len(),
        0 <= k <= moves.len(),
        forall|j: int|
            0 <= j < moves.len() ==> {
                let mv = #[trigger] moves[j];
                &&& 0 <= mv.0 < tables.len()
                &&& 0 <= mv.1 < tables[mv.0].seats.len()
                &&& tables[mv.0].seats[mv.1] is Some
            },
        forall|i: int, j: int| 0 <= i < j < moves.len() ==> (#[trigger] moves[i]).0 < (#[trigger] moves[j]).0,
        tables[d].seats.len() - occupied(tables[d].seats) >= moves.len(),
    ensures
        total_occupied(apply_moves_upto(tables, moves, d, k)) == total_occupied(tables),
        same_shape(apply_moves_upto(tables, moves, d, k), tables),
        apply_moves_upto(tables, moves, d, k)[d].seats.len() - occupied(
            apply_moves_upto(tables, moves, d, k)[d].seats,
        ) >= moves.len() - k,
        forall|j: int|
            k <= j < moves.len() ==> (#[trigger] moves[j]).0 != d ==> apply_moves_upto(
                tables,
                moves,
                d,
                k,
            )[moves[j].0] == tables[moves[j].0],
        forall|j: int|
            k <= j < moves.len() ==> apply_moves_upto(tables, moves, d, k)[(#[trigger] moves[j]).0].seats[moves[j].1] is Some,
    decreases k,
{
    if k > 0 {
        lemma_apply_moves_keeps_players(tables, moves, d, k - 1);
        let prev = apply_moves_upto(tables, moves, d, k - 1);
        let mv = moves[k - 1];
        let seat = prev[mv.0].seats[mv.1];
        assert(seat is Some);
        assert(prev[mv.0].seats.len() == tables[mv.0].seats.len());
        let emptied = set_seat_spec(prev, mv.0, mv.1, None);
        lemma_set_seat_occupied(prev, mv.0, mv.1, None);
        assert(emptied[d].seats.len() == prev[d].seats.len());
        if mv.0 == d {
            assert(occupied(emptied[d].seats) == occupied(prev[d].seats) - 1);
        } else {
            assert(emptied[d] == prev[d]);
        }
        assert(occupied(emptied[d].seats) < emptied[d].seats.len());
        lemma_room_means_empty_seat(emptied[d].seats);
        let e = first_empty_from(emptied[d].seats, 0)->0;
        lemma_first_empty(emptied[d].seats, 0);
        lemma_set_seat_occupied(emptied, d, e, seat);
        let next = set_seat_spec(emptied, d, e, seat);
        assert(next == apply_moves_upto(tables, moves, d, k));
        assert forall|t: int| 0 <= t < next.len() implies #[trigger] next[t].seats.len() == tables[t].seats.len() by {
            assert(prev[t].seats.len() == tables[t].seats.len());
        }
        assert forall|j: int| k <= j < moves.len() implies (#[trigger] moves[j]).0 != d ==> next[moves[j].0]
            == tables[moves[j].0] by {
            assert(moves[k - 1].0 < moves[j].0);
        }
        assert forall|j: int| k <= j < moves.len() implies next[(#[trigger] moves[j]).0].seats[moves[j].1] is Some by {
            assert(moves[k - 1].0 < moves[j].0);
            let mj = moves[j];
            if mj.0 == d {
                assert(emptied[d] == prev[d]);
                assert(prev[d].seats[mj.1] is Some);
                assert(emptied[d].seats[e] is None);
                assert(e != mj.1);
            }
        }
    }
}

/// The first seat whose player may be moved, by its index.
fn find_player_to_move(table: &MTTTable) -> (pos: Option<u32>)
    requires
        table.seats@.len() <= u32::MAX,
    ensures
        pos matches Some(p) ==> seat_to_move(table@) == Some(p as int),
        pos is None ==> seat_to_move(table@) is None,
{
    let button_pos = table.button_position;
    let mut i: usize = 0;
    while i < table.seats.len()
        invariant
            table.seats@.len() <= u32::MAX,
            button_pos == table.button_position,
            i <= table.seats@.len(),
            seat_to_move(table@) == first_movable_from(table.seats@, button_pos, i as int),
        decreases table.seats@.len() - i,
    {
        match &table.seats[i] {
            Some(player) => {
                if !player.is_sitting_out && i as u32 != button_pos {
                    return Some(i as u32);
                }
            },
            None => {},
        }
        i = i + 1;
    }
    None
}

/// The first table with fewer than `target` active players.
fn find_destination_table(tables: &Vec<MTTTable>, target: u32) -> (d: Option<usize>)
    requires
        seat_counts_fit(tables_view(tables@)),
    ensures
        d matches Some(i) ==> destination_table(tables_view(tables@), target as int) == Some(
            i as int,
        ),
        d is None ==> destination_table(tables_view(tables@), target as int) is None,
{
    let ghost tv = tables_view(tables@);
    let mut i: usize = 0;
    while i < tables.len()
        invariant
            tv == tables_view(tables@),
            seat_counts_fit(tv),
            i <= tables@.len(),
            destination_table(tv, target as int) == first_short_from(tv, target as int, i as int),
        decreases tables@.len() - i,
    {
        proof {
            assert(tv[i as int].seats.len() <= u32::MAX);
        }
        if tables[i].count_active_players() < target {
            return Some(i);
        }
        i = i + 1;
    }
    None
}

/// The first empty seat of a table.
fn find_empty_seat(table: &MTTTable) -> (e: Option<usize>)
    ensures
        e matches Some(k) ==> first_empty_from(table.seats@, 0) == Some(k as int),
        e is None ==> first_empty_from(table.seats@, 0) is None,
{
    let mut i: usize = 0;
    while i < table.seats.len()
        invariant
            i <= table.seats@.len(),
            first_empty_from(table.seats@, 0) == first_empty_from(table.seats@, i as int),
        decreases table.seats@.len() - i,
    {
        if table.seats[i].is_none() {
            return Some(i);
        }
        i = i + 1;
    }
    None
}

/// Moves the player at seat `pos` of table `source` to the first empty seat
/// of table `dest`.
fn move_player(tables: &mut Vec<MTTTable>, source: usize, pos: usize, dest: usize)
    requires
        source < old(tables)@.len(),
        dest < old(tables)@.len(),
        pos < old(tables)@[source as int].seats@.len(),
    ensures
        tables_view(final(tables)@) == move_step(
            tables_view(old(tables)@),
            (source as int, pos as int),
            dest as int,
        ),
        same_shape(tables_view(final(tables)@), tables_view(old(tables)@)),
{
    let ghost tv = tables_view(tables@);
    let seat = tables[source].seats[pos];
    assert(seat == tv[source as int].seats[pos as int]);
    set_seat(tables, source, pos, None);
    match seat {
        Some(player) => {
            let e = find_empty_seat(&tables[dest]);
            assert(tables@[dest as int].seats@ == tables_view(tables@)[dest as int].seats);
            match e {
                Some(k) => {
                    proof {
                        lemma_first_empty(tables@[dest as int].seats@, 0);
                    }
                    let ghost mid = tables_view(tables@);
                    set_seat(tables, dest, k, Some(player));
                    assert(same_shape(tables_view(tables@), tv));
                },
                None => {},
            }
        },
        None => {},
    }
}

/// The standard balancing pass.
fn standard_table_balancing(tables: &mut Vec<MTTTable>)
    requires
        0 < old(tables)@.len() <= u32::MAX,
        seat_counts_fit(tables_view(old(tables)@)),
        total_active(tables_view(old(tables)@)) + old(tables)@.len() <= u32::MAX,
    ensures
        tables_view(final(tables)@) == standard_balance(tables_view(old(tables)@)),
{
    let ghost tv = tables_view(tables@);
    let total_active_players = count_active_players(tables);
    let table_count = tables.len() as u32;
    let target_players_per_table = (total_active_players + table_count - 1) / table_count;
    let ghost target = target_players_per_table as int;
    assert(target == balance_target(tv));
    assert(target_players_per_table <= total_active_players + table_count - 1) by (nonlinear_arith)
        requires
            target_players_per_table as int == (total_active_players + table_count - 1) / (
            table_count as int),
            table_count >= 1,
    ;
    let destination = find_destination_table(tables, target_players_per_table);
    match destination {
        None => {},
        Some(dest) => {
            proof {
                lemma_first_short(tv, target, 0);
            }
            let mut moves: Vec<(usize, u32)> = Vec::new();
            let mut i: usize = 0;
            while i < tables.len()
                invariant
                    tv == tables_view(tables@),
                    seat_counts_fit(tv),
                    target_players_per_table < u32::MAX,
                    target == target_players_per_table,
                    i <= tables@.len(),
                    moves@.len() == moves_upto(tv, target, i as int).len(),
                    forall|k: int|
                        0 <= k < moves@.len() ==> (#[trigger] moves@[k]).0 as int == moves_upto(
                            tv,
                            target,
                            i as int,
                        )[k].0 && moves@[k].1 as int == moves_upto(tv, target, i as int)[k].1,
                    forall|k: int|
                        0 <= k < moves@.len() ==> (#[trigger] moves@[k]).0 < i && (
                        moves@[k].1 as int) < tv[moves@[k].0 as int].seats.len(),
                decreases tables@.len() - i,
            {
                proof {
                    assert(tv[i as int].seats.len() <= u32::MAX);
                }
                let active_players = tables[i].count_active_players();
                if active_players > target_players_per_table + 1 {
                    let mover = find_player_to_move(&tables[i]);
                    match mover {
                        Some(pos) => {
                            proof {
                                lemma_first_movable(tv[i as int].seats, tv[i as int].button_position, 0);
                            }
                            moves.push((i, pos));
                        },
                        None => {},
                    }
                }
                i = i + 1;
            }
            let ghost mv = moves_upto(tv, target, tv.len() as int);
            let mut k: usize = 0;
            while k < moves.len()
                invariant
                    k <= moves@.len(),
                    moves@.len() == mv.len(),
                    dest < tv.len(),
                    forall|j: int|
                        0 <= j < moves@.len() ==> (#[trigger] moves@[j]).0 as int == mv[j].0
                            && moves@[j].1 as int == mv[j].1,
                    forall|j: int|
                        0 <= j < moves@.len() ==> ((#[trigger] moves@[j]).0 as int) < tv.len() && (
                        moves@[j].1 as int) < tv[moves@[j].0 as int].seats.len(),
                    tables_view(tables@) == apply_moves_upto(tv, mv, dest as int, k as int),
                    same_shape(tables_view(tables@), tv),
                decreases moves@.len() - k,
            {
                let (source, pos) = moves[k];
                proof {
                    assert(moves@[k as int].0 == source);
                    assert(tables_view(tables@)[source as int].seats.len() == tv[source as int].seats.len());
                    assert(tables_view(tables@)[source as int].seats == tables@[source as int].seats@);
                }
                move_player(tables, source, pos as usize, dest);
                k = k + 1;
            }
        },
    }
}


/// The seat after a chip race: a player's stack rounded down to a multiple
/// of 100.
pub open spec fn chip_race_seat(seat: Option<MTTPlayer>) -> Option<MTTPlayer> {
    match seat {
        Some(p) => Some(
            MTTPlayer {
                player_id: p.player_id,
                stack_size: (p.stack_size / 100 * 100) as u32,
                position: p.position,
                is_sitting_out: p.is_sitting_out,
                has_been_dealt_in: p.has_been_dealt_in,
            },
        ),
        None => None,
    }
}

/// A table after a chip race.
pub open spec fn chip_race_table(t: TableModel) -> TableModel {
    with_seats(t, t.seats.map_values(|seat: Option<MTTPlayer>| chip_race_seat(seat)))
}

/// Every table after a chip race.
pub open spec fn chip_race(tables: Seq<TableModel>) -> Seq<TableModel> {
    tables.map_values(|t: TableModel| chip_race_table(t))
}

fn chip_race_seats(table: &MTTTable) -> (t: MTTTable)
    ensures
        t@ == chip_race_table(table@),
{
    let mut seats: Vec<Option<MTTPlayer>> = Vec::new();
    let mut i: usize = 0;
    while i < table.seats.len()
        invariant
            i <= table.seats@.len(),
            seats@ =~= table.seats@.take(i as int).map_values(
                |seat: Option<MTTPlayer>| chip_race_seat(seat),
            ),
        decreases table.seats@.len() - i,
    {
        let seat = table.seats[i];
        match seat {
            Some(player) => {
                let old_stack = player.stack_size;
                seats.push(
                    Some(
                        MTTPlayer {
                            player_id: player.player_id,
                            stack_size: (old_stack / 100) * 100,
                            position: player.position,
                            is_sitting_out: player.is_sitting_out,
                            has_been_dealt_in: player.has_been_dealt_in,
                        },
                    ),
                );
            },
            None => {
                seats.push(None);
            },
        }
        proof {
            assert(table.seats@.take(i + 1) =~= table.seats@.take(i as int).push(table.seats@[i as int]));
        }
        i = i + 1;
    }
    assert(table.seats@.take(table.seats@.len() as int) =~= table.seats@);
    let t = MTTTable {
        table_id: table.table_id,
        seats,
        max_seats: table.max_seats,
        current_hand: table.current_hand,
        button_position: table.button_position,
    };
    assert(t@ =~= chip_race_table(table@));
    t
}

/// The chip race pass.
fn handle_chip_race(tables: &mut Vec<MTTTable>)
    ensures
        tables_view(final(tables)@) == chip_race(tables_view(old(tables)@)),
{
    let ghost tv = tables_view(tables@);
    let mut i: usize = 0;
    while i < tables.len()
        invariant
            tv.len() == tables@.len(),
            i <= tables@.len(),
            forall|k: int|
                0 <= k < tables@.len() ==> #[trigger] tables@[k]@ == (if k < i {
                    chip_race_table(tv[k])
                } else {
                    tv[k]
                }),
        decreases tables@.len() - i,
    {
        let t = chip_race_seats(&tables[i]);
        tables.set(i, t);
        i = i + 1;
    }
    assert(tables_view(tables@) =~= chip_race(tv));
}

/// Key-value pairs sorted by key, largest first: the first index at `i` or
/// later whose key is below `key`, or the length.
pub open spec fn first_below_key<T>(s: Seq<(u32, T)>, key: u32, i: int) -> int
    decreases s.len() - i,
{
    if i < 0 || i >= s.len() {
        s.len() as int
    } else if s[i].0 < key {
        i
    } else {
        first_below_key(s, key, i + 1)
    }
}

/// `x` inserted after every entry whose key is at least its own.
pub open spec fn insert_by_key<T>(s: Seq<(u32, T)>, x: (u32, T)) -> Seq<(u32, T)> {
    s.insert(first_below_key(s, x.0, 0), x)
}

/// Stable sort by key, largest key first: entries with equal keys keep
/// their order.
pub open spec fn sorted_by_key_desc<T>(s: Seq<(u32, T)>) -> Seq<(u32, T)>
    decreases s.len(),
{
    if s.len() == 0 {
        s
    } else {
        insert_by_key(sorted_by_key_desc(s.drop_last()), s.last())
    }
}

/// Keys never increase along the sequence.
pub open spec fn keys_descending<T>(s: Seq<(u32, T)>) -> bool {
    forall|i: int, j: int| 0 <= i < j < s.len() ==> #[trigger] s[i].0 >= #[trigger] s[j].0
}

proof fn lemma_first_below_key<T>(s: Seq<(u32, T)>, key: u32, i: int)
    requires
        0 <= i <= s.len(),
    ensures
        i <= first_below_key(s, key, i) <= s.len(),
        forall|k: int| i <= k < first_below_key(s, key, i) ==> #[trigger] s[k].0 >= key,
        first_below_key(s, key, i) < s.len() ==> s[first_below_key(s, key, i)].0 < key,
    decreases s.len() - i,
{
    if i < s.len() && s[i].0 >= key {
        lemma_first_below_key(s, key, i + 1);
    }
}

/// Sorting by key leaves the keys in descending order.
pub proof fn lemma_sorted_by_key_desc_is_sorted<T>(s: Seq<(u32, T)>)
    ensures
        keys_descending(sorted_by_key_desc(s)),
        sorted_by_key_desc(s).len() == s.len(),
    decreases s.len(),
{
    if s.len() > 0 {
        let r = sorted_by_key_desc(s.drop_last());
        lemma_sorted_by_key_desc_is_sorted(s.drop_last());
        let x = s.last();
        let j = first_below_key(r, x.0, 0);
        lemma_first_below_key(r, x.0, 0);
        let out = r.insert(j, x);
        assert forall|a: int, b: int| 0 <= a < b < out.len() implies #[trigger] out[a].0
            >= #[trigger] out[b].0 by {
            if b < j {
                assert(out[a] == r[a] && out[b] == r[b]);
            } else if b == j {
                assert(out[a] == r[a]);
            } else if a < j {
                assert(out[a] == r[a] && out[b] == r[b - 1]);
                if j < r.len() {
                    assert(r[j].0 < x.0);
                    assert(r[b - 1].0 <= r[j].0);
                }
            } else if a == j {
                assert(out[b] == r[b - 1]);
                assert(r[j].0 < x.0);
                assert(r[b - 1].0 <= r[j].0);
            } else {
                assert(out[a] == r[a - 1] && out[b] == r[b - 1]);
            }
        }
    }
}

/// Sorting by key keeps every entry, as many times as it occurs.
pub proof fn lemma_sorted_by_key_desc_permutes<T>(s: Seq<(u32, T)>)
    ensures
        sorted_by_key_desc(s).to_multiset() == s.to_multiset(),
    decreases s.len(),
{
    broadcast use vstd::seq_lib::group_to_multiset_ensures;

    if s.len() > 0 {
        let r = sorted_by_key_desc(s.drop_last());
        lemma_sorted_by_key_desc_permutes(s.drop_last());
        let x = s.last();
        lemma_first_below_key(r, x.0, 0);
        vstd::seq_lib::to_multiset_insert(r, first_below_key(r, x.0, 0), x);
        assert(s =~= s.drop_last().push(x));
    }
}

fn first_below<T: Copy>(r: &Vec<(u32, T)>, key: u32) -> (j: usize)
    ensures
        j == first_below_key(r@, key, 0),
{
    let mut i: usize = 0;
    while i < r.len()
        invariant
            i <= r@.len(),
            first_below_key(r@, key, 0) == first_below_key(r@, key, i as int),
        decreases r@.len() - i,
    {
        if r[i].0 < key {
            return i;
        }
        i = i + 1;
    }
    i
}

/// Stable sort by key, largest first.
fn sort_by_key_desc<T: Copy>(items: &Vec<(u32, T)>) -> (r: Vec<(u32, T)>)
    ensures
        r@ == sorted_by_key_desc(items@),
{
    let mut r: Vec<(u32, T)> = Vec::new();
    let mut i: usize = 0;
    while i < items.len()
        invariant
            i <= items@.len(),
            r@ == sorted_by_key_desc(items@.take(i as int)),
        decreases items@.len() - i,
    {
        let x = items[i];
        proof {
            lemma_sorted_by_key_desc_is_sorted(items@.take(i as int));
            assert(items@.take(i + 1).drop_last() =~= items@.take(i as int));
        }
        let j = first_below(&r, x.0);
        proof {
            lemma_first_below_key(r@, x.0, 0);
        }
        r.insert(j, x);
        i = i + 1;
    }
    assert(items@.take(items@.len() as int) =~= items@);
    r
}


/// (stack, player) for each active player among the first `n` seats.
pub open spec fn seat_entries(seats: Seq<Option<MTTPlayer>>, n: int) -> Seq<(u32, MTTPlayer)>
    decreases n,
{
    if n <= 0 {
        Seq::empty()
    } else if seat_active(seats[n - 1]) {
        seat_entries(seats, n - 1).push((seats[n - 1]->0.stack_size, seats[n - 1]->0))
    } else {
        seat_entries(seats, n - 1)
    }
}

/// (stack, player) for each active player of the first `n` tables, table by
/// table, seat by seat.
pub open spec fn table_entries(tables: Seq<TableModel>, n: int) -> Seq<(u32, MTTPlayer)>
    decreases n,
{
    if n <= 0 {
        Seq::empty()
    } else {
        table_entries(tables, n - 1) + seat_entries(
            tables[n - 1].seats,
            tables[n - 1].seats.len() as int,
        )
    }
}

/// `p` moved to seat `i`.
pub open spec fn seated_at(p: MTTPlayer, i: int) -> MTTPlayer {
    MTTPlayer {
        player_id: p.player_id,
        stack_size: p.stack_size,
        position: i as u32,
        is_sitting_out: p.is_sitting_out,
        has_been_dealt_in: p.has_been_dealt_in,
    }
}

/// The final table (id 999, nine seats) with the given players seated in
/// order, at most nine.
pub open spec fn final_table(sorted: Seq<(u32, MTTPlayer)>) -> TableModel {
    TableModel {
        table_id: 999,
        seats: Seq::new(
            9,
            |i: int|
                if i < sorted.len() {
                    Some(seated_at(sorted[i].1, i))
                } else {
                    None
                },
        ),
        max_seats: 9,
        current_hand: 1,
        button_position: 1,
    }
}

/// Final-table consolidation: with nine active players or fewer, they all
/// move to one final table, the biggest stack in seat 0 (ties keep their
/// order); else nothing changes.
pub open spec fn consolidate(tables: Seq<TableModel>) -> Seq<TableModel> {
    if total_active(tables) <= 9 {
        seq![final_table(sorted_by_key_desc(table_entries(tables, tables.len() as int)))]
    } else {
        tables
    }
}

proof fn lemma_seat_entries_len(seats: Seq<Option<MTTPlayer>>, n: int)
    requires
        0 <= n <= seats.len(),
    ensures
        seat_entries(seats, n).len() == active_upto(seats, n),
    decreases n,
{
    if n > 0 {
        lemma_seat_entries_len(seats, n - 1);
    }
}

proof fn lemma_table_entries_len(tables: Seq<TableModel>, n: int)
    requires
        0 <= n <= tables.len(),
    ensures
        table_entries(tables, n).len() == total_active_upto(tables, n),
    decreases n,
{
    if n > 0 {
        lemma_table_entries_len(tables, n - 1);
        lemma_seat_entries_len(tables[n - 1].seats, tables[n - 1].seats.len() as int);
    }
}

proof fn lemma_final_table_occupied(sorted: Seq<(u32, MTTPlayer)>, n: int)
    requires
        0 <= n <= 9,
        sorted.len() <= 9,
    ensures
        occupied_upto(final_table(sorted).seats, n) == if n < sorted.len() {
            n
        } else {
            sorted.len() as int
        },
    decreases n,
{
    if n > 0 {
        lemma_final_table_occupied(sorted, n - 1);
    }
}

/// Final-table consolidation seats every player still playing: with nine
/// or fewer of them, the final table's occupied seats number exactly the
/// active players before.
pub proof fn lemma_consolidation_keeps_players(tables: Seq<TableModel>)
    requires
        total_active(tables) <= 9,
    ensures
        consolidate(tables).len() == 1,
        occupied(consolidate(tables)[0].seats) == total_active(tables),
{
    let entries = table_entries(tables, tables.len() as int);
    lemma_table_entries_len(tables, tables.len() as int);
    lemma_sorted_by_key_desc_is_sorted(entries);
    let sorted = sorted_by_key_desc(entries);
    lemma_final_table_occupied(sorted, 9);
}

/// The consolidation pass.
fn consolidate_to_final_table(tables: &mut Vec<MTTTable>)
    requires
        seat_counts_fit(tables_view(old(tables)@)),
        total_active(tables_view(old(tables)@)) <= u32::MAX,
    ensures
        tables_view(final(tables)@) == consolidate(tables_view(old(tables)@)),
{
    let ghost tv = tables_view(tables@);
    if count_active_players(tables) <= 9 {
        let mut final_table_players: Vec<(u32, MTTPlayer)> = Vec::new();
        let mut i: usize = 0;
        while i < tables.len()
            invariant
                tv == tables_view(tables@),
                i <= tables@.len(),
                final_table_players@ == table_entries(tv, i as int),
            decreases tables@.len() - i,
        {
            let mut j: usize = 0;
            while j < tables[i].seats.len()
                invariant
                    tv == tables_view(tables@),
                    i < tables@.len(),
                    j <= tables@[i as int].seats@.len(),
                    final_table_players@ == table_entries(tv, i as int) + seat_entries(
                        tv[i as int].seats,
                        j as int,
                    ),
                decreases tables@[i as int].seats@.len() - j,
            {
                let seat = tables[i].seats[j];
                let ghost before = final_table_players@;
                match seat {
                    Some(player) => {
                        if !player.is_sitting_out && player.stack_size > 0 {
                            final_table_players.push((player.stack_size, player));
                            assert(final_table_players@ =~= table_entries(tv, i as int)
                                + seat_entries(tv[i as int].seats, j + 1));
                        }
                    },
                    None => {},
                }
                j = j + 1;
            }
            i = i + 1;
        }
        let sorted = sort_by_key_desc(&final_table_players);
        let mut seats: Vec<Option<MTTPlayer>> = Vec::new();
        let mut k: usize = 0;
        while k < 9
            invariant
                k <= 9,
                sorted@ == sorted_by_key_desc(table_entries(tv, tv.len() as int)),
                seats@.len() == k,
                forall|m: int| 0 <= m < k ==> #[trigger] seats@[m] == final_table(sorted@).seats[m],
            decreases 9 - k,
        {
            if k < sorted.len() {
                let (_, player) = sorted[k];
                seats.push(
                    Some(
                        MTTPlayer {
                            player_id: player.player_id,
                            stack_size: player.stack_size,
                            position: k as u32,
                            is_sitting_out: player.is_sitting_out,
                            has_been_dealt_in: player.has_been_dealt_in,
                        },
                    ),
                );
            } else {
                seats.push(None);
            }
            k = k + 1;
        }
        tables.clear();
        let table = MTTTable {
            table_id: 999,
            seats,
            max_seats: 9,
            current_hand: 1,
            button_position: 1,
        };
        assert(table@ =~= final_table(sorted@));
        tables.push(table);
        assert(tables_view(tables@) =~= consolidate(tv));
    }
}

/// What a rebalancing pass does to the tables, by algorithm.
pub open spec fn balance_spec(tables: Seq<TableModel>, algorithm: BalancingAlgorithm) -> Seq<
    TableModel,
> {
    match algorithm {
        BalancingAlgorithm::StandardBalancing => standard_balance(tables),
        BalancingAlgorithm::ChipRaceProtocol => chip_race(tables),
        BalancingAlgorithm::FinalTableConsolidation => consolidate(tables),
    }
}

/// The inputs on which a rebalancing pass runs: counts fit in a `u32`, and
/// standard balancing needs at least one table.
pub open spec fn balance_ok(tables: Seq<TableModel>, algorithm: BalancingAlgorithm) -> bool {
    match algorithm {
        BalancingAlgorithm::StandardBalancing => {
            &&& 0 < tables.len() <= u32::MAX
            &&& seat_counts_fit(tables)
            &&& total_active(tables) + tables.len() <= u32::MAX
        },
        BalancingAlgorithm::ChipRaceProtocol => true,
        BalancingAlgorithm::FinalTableConsolidation => {
            &&& seat_counts_fit(tables)
            &&& total_active(tables) <= u32::MAX
        },
    }
}

/// Rebalances the tables with the given algorithm.
pub fn balance_tables(tables: &mut Vec<MTTTable>, algorithm: BalancingAlgorithm)
    requires
        balance_ok(tables_view(old(tables)@), algorithm),
    ensures
        tables_view(final(tables)@) == balance_spec(tables_view(old(tables)@), algorithm),
{
    match algorithm {
        BalancingAlgorithm::StandardBalancing => standard_table_balancing(tables),
        BalancingAlgorithm::ChipRaceProtocol => handle_chip_race(tables),
        BalancingAlgorithm::FinalTableConsolidation => consolidate_to_final_table(tables),
    }
}


/// (stack, (player id, stack, table id)) for each player among the first
/// `n` seats who is not sitting out.
pub open spec fn standing_entries(seats: Seq<Option<MTTPlayer>>, table_id: u32, n: int) -> Seq<
    (u32, (u32, u32, u32)),
>
    decreases n,
{
    if n <= 0 {
        Seq::empty()
    } else {
        let prev = standing_entries(seats, table_id, n - 1);
        match seats[n - 1] {
            Some(p) => if !p.is_sitting_out {
                prev.push((p.stack_size, (p.player_id, p.stack_size, table_id)))
            } else {
                prev
            },
            None => prev,
        }
    }
}

/// Standing entries of the first `n` tables, table by table.
pub open spec fn tables_standing_entries(tables: Seq<TableModel>, n: int) -> Seq<
    (u32, (u32, u32, u32)),
>
    decreases n,
{
    if n <= 0 {
        Seq::empty()
    } else {
        tables_standing_entries(tables, n - 1) + standing_entries(
            tables[n - 1].seats,
            tables[n - 1].table_id,
            tables[n - 1].seats.len() as int,
        )
    }
}

/// (player id, stack, table id) of every player not sitting out, biggest
/// stack first; equal stacks keep table and seat order.
pub open spec fn standings(tables: Seq<TableModel>) -> Seq<(u32, u32, u32)> {
    sorted_by_key_desc(tables_standing_entries(tables, tables.len() as int)).map_values(
        |e: (u32, (u32, u32, u32))| e.1,
    )
}

/// Current standings: (player id, stack, table id) of every player not
/// sitting out, sorted by stack, biggest first.
pub fn get_tournament_standings(tables: &Vec<MTTTable>) -> (standings_out: Vec<(u32, u32, u32)>)
    ensures
        standings_out@ == standings(tables_view(tables@)),
        forall|i: int, j: int|
            0 <= i < j < standings_out@.len() ==> (#[trigger] standings_out@[i]).1
                >= (#[trigger] standings_out@[j]).1,
{
    let ghost tv = tables_view(tables@);
    let mut entries: Vec<(u32, (u32, u32, u32))> = Vec::new();
    let mut i: usize = 0;
    while i < tables.len()
        invariant
            tv == tables_view(tables@),
            i <= tables@.len(),
            entries@ == tables_standing_entries(tv, i as int),
            forall|m: int| 0 <= m < entries@.len() ==> (#[trigger] entries@[m]).0 == entries@[m].1.1,
        decreases tables@.len() - i,
    {
        let table_id = tables[i].table_id;
        let mut j: usize = 0;
        while j < tables[i].seats.len()
            invariant
                tv == tables_view(tables@),
                i < tables@.len(),
                table_id == tv[i as int].table_id,
                j <= tables@[i as int].seats@.len(),
                entries@ == tables_standing_entries(tv, i as int) + standing_entries(
                    tv[i as int].seats,
                    table_id,
                    j as int,
                ),
                forall|m: int| 0 <= m < entries@.len() ==> (#[trigger] entries@[m]).0 == entries@[m].1.1,
            decreases tables@[i as int].seats@.len() - j,
        {
            let seat = tables[i].seats[j];
            match seat {
                Some(player) => {
                    if !player.is_sitting_out {
                        entries.push((player.stack_size, (player.player_id, player.stack_size, table_id)));
                        assert(entries@ =~= tables_standing_entries(tv, i as int) + standing_entries(
                            tv[i as int].seats,
                            table_id,
                            j + 1,
                        ));
                    }
                },
                None => {},
            }
            j = j + 1;
        }
        i = i + 1;
    }
    let sorted = sort_by_key_desc(&entries);
    proof {
        broadcast use vstd::seq_lib::group_to_multiset_ensures;

        lemma_sorted_by_key_desc_is_sorted(entries@);
        lemma_sorted_by_key_desc_permutes(entries@);
        assert forall|m: int| 0 <= m < sorted@.len() implies (#[trigger] sorted@[m]).0
            == sorted@[m].1.1 by {
            assert(sorted@.to_multiset().count(sorted@[m]) > 0);
            assert(entries@.contains(sorted@[m]));
        }
    }
    let mut standings_out: Vec<(u32, u32, u32)> = Vec::new();
    let mut k: usize = 0;
    while k < sorted.len()
        invariant
            k <= sorted@.len(),
            keys_descending(sorted@),
            standings_out@ =~= sorted@.take(k as int).map_values(|e: (u32, (u32, u32, u32))| e.1),
            forall|m: int| 0 <= m < sorted@.len() ==> (#[trigger] sorted@[m]).0 == sorted@[m].1.1,
        decreases sorted@.len() - k,
    {
        let (_, entry) = sorted[k];
        standings_out.push(entry);
        proof {
            assert(sorted@.take(k + 1) =~= sorted@.take(k as int).push(sorted@[k as int]));
        }
        k = k + 1;
    }
    assert(sorted@.take(sorted@.len() as int) =~= sorted@);
    standings_out
}


/// The seat holds player `player_id`.
pub open spec fn holds_player(seat: Option<MTTPlayer>, player_id: u32) -> bool {
    match seat {
        Some(p) => p.player_id == player_id,
        None => false,
    }
}

/// First seat at index `i` or later that holds player `player_id`.
pub open spec fn find_player_from(seats: Seq<Option<MTTPlayer>>, player_id: u32, i: int) -> Option<
    int,
>
    decreases seats.len() - i,
{
    if i < 0 || i >= seats.len() {
        None
    } else if holds_player(seats[i], player_id) {
        Some(i)
    } else {
        find_player_from(seats, player_id, i + 1)
    }
}

/// First (table, seat) at table index `t` or later whose table has id
/// `table_id` and whose seat holds player `player_id`.
pub open spec fn locate_from(tables: Seq<TableModel>, table_id: u32, player_id: u32, t: int) -> Option<
    (int, int),
>
    decreases tables.len() - t,
{
    if t < 0 || t >= tables.len() {
        None
    } else if tables[t].table_id == table_id && find_player_from(tables[t].seats, player_id, 0) is Some {
        Some((t, find_player_from(tables[t].seats, player_id, 0)->0))
    } else {
        locate_from(tables, table_id, player_id, t + 1)
    }
}

/// Where player `player_id` sits at a table with id `table_id`.
pub open spec fn locate_player(tables: Seq<TableModel>, table_id: u32, player_id: u32) -> Option<
    (int, int),
> {
    locate_from(tables, table_id, player_id, 0)
}

/// A player knocked out: no chips, sitting out.
pub open spec fn knocked_out(p: MTTPlayer) -> MTTPlayer {
    MTTPlayer {
        player_id: p.player_id,
        stack_size: 0,
        position: p.position,
        is_sitting_out: true,
        has_been_dealt_in: p.has_been_dealt_in,
    }
}

/// The tables once the player at `loc` is knocked out.
pub open spec fn after_knockout(tables: Seq<TableModel>, loc: (int, int)) -> Seq<TableModel> {
    set_seat_spec(tables, loc.0, loc.1, Some(knocked_out(tables[loc.0].seats[loc.1]->0)))
}

/// A table at half its seats or fewer calls for rebalancing.
pub open spec fn needs_balancing(t: TableModel) -> bool {
    active_seats(t.seats) <= t.max_seats / 2
}

proof fn lemma_find_player(seats: Seq<Option<MTTPlayer>>, player_id: u32, i: int)
    requires
        0 <= i,
    ensures
        find_player_from(seats, player_id, i) matches Some(k) ==> i <= k < seats.len()
            && holds_player(seats[k], player_id),
    decreases seats.len() - i,
{
    if i < seats.len() && !holds_player(seats[i], player_id) {
        lemma_find_player(seats, player_id, i + 1);
    }
}

proof fn lemma_locate(tables: Seq<TableModel>, table_id: u32, player_id: u32, t: int)
    requires
        0 <= t,
    ensures
        locate_from(tables, table_id, player_id, t) matches Some(loc) ==> t <= loc.0 < tables.len()
            && 0 <= loc.1 < tables[loc.0].seats.len() && tables[loc.0].table_id == table_id
            && holds_player(tables[loc.0].seats[loc.1], player_id),
    decreases tables.len() - t,
{
    if 0 <= t < tables.len() {
        lemma_find_player(tables[t].seats, player_id, 0);
        lemma_locate(tables, table_id, player_id, t + 1);
    }
}

/// Knocks player `player_id` out at the table with id `table_id` (the first
/// such seat), counts one player fewer, and rebalances with `algorithm` when
/// that table is left at half its seats or fewer. Nothing changes when the
/// player is not found there.
pub fn eliminate_player(
    tables: &mut Vec<MTTTable>,
    algorithm: BalancingAlgorithm,
    players_remaining: &mut u32,
    table_id: u32,
    player_id: u32,
)
    requires
        seat_counts_fit(tables_view(old(tables)@)),
        locate_player(tables_view(old(tables)@), table_id, player_id) matches Some(loc) ==> {
            let after = after_knockout(tables_view(old(tables)@), loc);
            &&& *old(players_remaining) > 0
            &&& needs_balancing(after[loc.0]) ==> balance_ok(after, algorithm)
        },
    ensures
        match locate_player(tables_view(old(tables)@), table_id, player_id) {
            None => {
                &&& tables_view(final(tables)@) == tables_view(old(tables)@)
                &&& *final(players_remaining) == *old(players_remaining)
            },
            Some(loc) => {
                let after = after_knockout(tables_view(old(tables)@), loc);
                &&& *final(players_remaining) == *old(players_remaining) - 1
                &&& tables_view(final(tables)@) == if needs_balancing(after[loc.0]) {
                    balance_spec(after, algorithm)
                } else {
                    after
                }
            },
        },
{
    let ghost tv = tables_view(tables@);
    proof {
        lemma_locate(tv, table_id, player_id, 0);
    }
    let mut t: usize = 0;
    while t < tables.len()
        invariant
            tv == tables_view(old(tables)@),
            seat_counts_fit(tv),
            *players_remaining == *old(players_remaining),
            locate_player(tv, table_id, player_id) matches Some(loc) ==> {
                let after = after_knockout(tv, loc);
                &&& *old(players_remaining) > 0
                &&& needs_balancing(after[loc.0]) ==> balance_ok(after, algorithm)
            },
            tv == tables_view(tables@),
            t <= tables@.len(),
            locate_player(tv, table_id, player_id) == locate_from(tv, table_id, player_id, t as int),
        decreases tables@.len() - t,
    {
        if tables[t].table_id == table_id {
            let mut s: usize = 0;
            while s < tables[t].seats.len()
                invariant
                    tv == tables_view(old(tables)@),
                    seat_counts_fit(tv),
                    *players_remaining == *old(players_remaining),
                    locate_player(tv, table_id, player_id) matches Some(loc) ==> {
                        let after = after_knockout(tv, loc);
                        &&& *old(players_remaining) > 0
                        &&& needs_balancing(after[loc.0]) ==> balance_ok(after, algorithm)
                    },
                    locate_player(tv, table_id, player_id) == locate_from(tv, table_id, player_id, t as int),
                    tv == tables_view(tables@),
                    t < tables@.len(),
                    tv[t as int].table_id == table_id,
                    s <= tables@[t as int].seats@.len(),
                    find_player_from(tv[t as int].seats, player_id, 0) == find_player_from(
                        tv[t as int].seats,
                        player_id,
                        s as int,
                    ),
                decreases tables@[t as int].seats@.len() - s,
            {
                let seat = tables[t].seats[s];
                match seat {
                    Some(player) => {
                        if player.player_id == player_id {
                            let knocked = MTTPlayer {
                                player_id: player.player_id,
                                stack_size: 0,
                                position: player.position,
                                is_sitting_out: true,
                                has_been_dealt_in: player.has_been_dealt_in,
                            };
                            set_seat(tables, t, s, Some(knocked));
                            *players_remaining = *players_remaining - 1;
                            let ghost after = tables_view(tables@);
                            proof {
                                assert(seat_counts_fit(after));
                                assert(after[t as int].seats.len() <= u32::MAX);
                                assert(after[t as int].seats == tables@[t as int].seats@);
                            }
                            if tables[t].count_active_players() <= tables[t].max_seats / 2 {
                                balance_tables(tables, algorithm);
                            }
                            return;
                        }
                    },
                    None => {},
                }
                s = s + 1;
            }
            proof {
                lemma_find_player(tv[t as int].seats, player_id, s as int);
            }
        }
        t = t + 1;
    }
}


/// Where player `player_id` sits at a table with id `table_id`: the first
/// such (table, seat) in table and seat order.
pub fn find_player(tables: &Vec<MTTTable>, table_id: u32, player_id: u32) -> (loc: Option<(usize, usize)>)
    ensures
        loc matches Some(l) ==> locate_player(tables_view(tables@), table_id, player_id) == Some(
            (l.0 as int, l.1 as int),
        ),
        loc is None ==> locate_player(tables_view(tables@), table_id, player_id) is None,
{
    let ghost tv = tables_view(tables@);
    let mut t: usize = 0;
    while t < tables.len()
        invariant
            tv == tables_view(tables@),
            t <= tables@.len(),
            locate_player(tv, table_id, player_id) == locate_from(tv, table_id, player_id, t as int),
        decreases tables@.len() - t,
    {
        if tables[t].table_id == table_id {
            let mut s: usize = 0;
            while s < tables[t].seats.len()
                invariant
                    tv == tables_view(tables@),
                    t < tables@.len(),
                    tv[t as int].table_id == table_id,
                    s <= tables@[t as int].seats@.len(),
                    locate_player(tv, table_id, player_id) == locate_from(tv, table_id, player_id, t as int),
                    find_player_from(tv[t as int].seats, player_id, 0) == find_player_from(
                        tv[t as int].seats,
                        player_id,
                        s as int,
                    ),
                decreases tables@[t as int].seats@.len() - s,
            {
                match tables[t].seats[s] {
                    Some(player) => {
                        if player.player_id == player_id {
                            return Some((t, s));
                        }
                    },
                    None => {},
                }
                s = s + 1;
            }
        }
        t = t + 1;
    }
    None
}

/// Whether [`balance_tables`] can run with the algorithm on the tables.
pub fn balance_allowed(tables: &Vec<MTTTable>, algorithm: BalancingAlgorithm) -> (b: bool)
    ensures
        b == balance_ok(tables_view(tables@), algorithm),
{
    let ghost tv = tables_view(tables@);
    if algorithm == BalancingAlgorithm::ChipRaceProtocol {
        return true;
    }
    let mut total: u64 = 0;
    let mut i: usize = 0;
    while i < tables.len()
        invariant
            algorithm != BalancingAlgorithm::ChipRaceProtocol,
            tv == tables_view(tables@),
            i <= tables@.len(),
            forall|k: int| 0 <= k < i ==> #[trigger] tv[k].seats.len() <= u32::MAX,
            total == total_active_upto(tv, i as int),
            total <= u32::MAX,
        decreases tables@.len() - i,
    {
        if tables[i].seats.len() > 0xffff_ffff {
            assert(!seat_counts_fit(tv)) by {
                assert(tv[i as int].seats.len() > u32::MAX);
            }
            return false;
        }
        let c = tables[i].count_active_players();
        proof {
            lemma_total_active_upto_mono(tv, i + 1, tv.len() as int);
        }
        total = total + c as u64;
        if total > 0xffff_ffff {
            proof {
                lemma_total_active_upto_mono(tv, i + 1, tv.len() as int);
            }
            return false;
        }
        i = i + 1;
    }
    assert(seat_counts_fit(tv));
    if algorithm == BalancingAlgorithm::FinalTableConsolidation {
        true
    } else {
        0 < tables.len() && tables.len() <= 0xffff_ffff && total + (tables.len() as u64) <= 0xffff_ffff
    }
}

/// The stacks among the first `n` that rank before `stacks[player]`.
pub open spec fn ahead_upto(stacks: Seq<u32>, player: int, n: int) -> int
    decreases n,
{
    if n <= 0 {
        0
    } else {
        ahead_upto(stacks, player, n - 1) + if stacks[n - 1] > stacks[player] || (stacks[n - 1]
            == stacks[player] && n - 1 < player) {
            1int
        } else {
            0int
        }
    }
}

/// Place of `player`'s stack when the stacks are sorted biggest first
/// (equal stacks keep their order): the number of stacks bigger than it plus
/// the equal ones before it; none when `player` is not one of the stacks.
pub fn stack_rank(stacks: &[u32], player: usize) -> (rank: Option<usize>)
    ensures
        player >= stacks@.len() ==> rank is None,
        player < stacks@.len() ==> rank == Some(ahead_upto(stacks@, player as int, stacks@.len() as int) as usize),
{
    if player >= stacks.len() {
        return None;
    }
    let mut rank: usize = 0;
    let mut j: usize = 0;
    while j < stacks.len()
        invariant
            player < stacks@.len(),
            j <= stacks@.len(),
            rank == ahead_upto(stacks@, player as int, j as int),
            rank <= j,
        decreases stacks@.len() - j,
    {
        if stacks[j] > stacks[player] || (stacks[j] == stacks[player] && j < player) {
            rank = rank + 1;
        }
        j = j + 1;
    }
    Some(rank)
}

proof fn lemma_short_from(tables: Seq<TableModel>, target: int, i: int)
    requires
        0 <= i,
    ensures
        first_short_from(tables, target, i) matches Some(d) ==> {
            &&& i <= d < tables.len()
            &&& active_seats(tables[d].seats) < target
            &&& forall|k: int| i <= k < d ==> active_seats(#[trigger] tables[k].seats) >= target
        },
        first_short_from(tables, target, i) is None ==> forall|k: int|
            i <= k < tables.len() ==> active_seats(#[trigger] tables[k].seats) >= target,
    decreases tables.len() - i,
{
    if i < tables.len() {
        lemma_short_from(tables, target, i + 1);
    }
}

/// The table that receives moved players is the first one with strictly
/// fewer active players than the target; when every table is at or above
/// the target, none receives any.
pub proof fn lemma_destination_is_first_short(tables: Seq<TableModel>, target: int)
    ensures
        destination_table(tables, target) matches Some(d) ==> {
            &&& 0 <= d < tables.len()
            &&& active_seats(tables[d].seats) < target
            &&& forall|k: int| 0 <= k < d ==> active_seats(#[trigger] tables[k].seats) >= target
        },
        destination_table(tables, target) is None ==> forall|k: int|
            0 <= k < tables.len() ==> active_seats(#[trigger] tables[k].seats) >= target,
{
    lemma_short_from(tables, target, 0);
}

} // verus!
