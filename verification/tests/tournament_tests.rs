use nice_hand_core::tournament::{
    balance_tables, count_active_players, eliminate_player, get_tournament_standings,
    seat_players, BalancingAlgorithm, BlindLevel, MTTTable, TournamentStructure,
};

fn player_at(tables: &[MTTTable], table: usize, seat: usize) -> Option<(u32, u32, u32, bool)> {
    tables[table].seats[seat].map(|p| (p.player_id, p.stack_size, p.position, p.is_sitting_out))
}

#[test]
fn test_mtt_manager_creation() {
    let structure = TournamentStructure {
        levels: vec![BlindLevel {
            level: 1,
            small_blind: 25,
            big_blind: 50,
            ante: 0,
        }],
        level_duration_minutes: 15,
        starting_stack: 1500,
        ante_schedule: vec![],
    };

    let tables = seat_players(27, 9, structure.starting_stack);

    // Should create 3 tables for 27 players with max 9 per table
    assert_eq!(tables.len(), 3);

    // Check player distribution
    let total_players: u32 = tables.iter().map(|table| table.count_active_players()).sum();
    assert_eq!(total_players, 27);

    // Last table might have fewer players
    assert!(tables[2].count_active_players() <= 9);
}

#[test]
fn seating_fills_tables_in_order() {
    let tables = seat_players(20, 9, 1000);
    assert_eq!(tables.len(), 3);
    assert_eq!(tables[0].count_active_players(), 9);
    assert_eq!(tables[1].count_active_players(), 9);
    assert_eq!(tables[2].count_active_players(), 2);
    assert_eq!(count_active_players(&tables), 20);
    assert_eq!(player_at(&tables, 0, 0), Some((1, 1000, 0, false)));
    assert_eq!(player_at(&tables, 1, 4), Some((14, 1000, 4, false)));
    assert_eq!(player_at(&tables, 2, 1), Some((20, 1000, 1, false)));
    assert_eq!(player_at(&tables, 2, 2), None);
    assert_eq!(tables[2].table_id, 2);
    assert_eq!(tables[2].seats.len(), 9);
    assert_eq!(tables[2].button_position, 1);
    assert_eq!(tables[2].current_hand, 1);
}

#[test]
fn seating_nobody_gives_no_tables() {
    let tables = seat_players(0, 9, 1000);
    assert!(tables.is_empty());
    assert_eq!(count_active_players(&tables), 0);
}

#[test]
fn standard_balancing_moves_one_player_per_crowded_table() {
    let mut tables = seat_players(20, 9, 1000);
    balance_tables(&mut tables, BalancingAlgorithm::StandardBalancing);
    assert_eq!(tables[0].count_active_players(), 8);
    assert_eq!(tables[1].count_active_players(), 8);
    assert_eq!(tables[2].count_active_players(), 4);
    assert_eq!(player_at(&tables, 0, 0), None);
    assert_eq!(player_at(&tables, 1, 0), None);
    assert_eq!(player_at(&tables, 2, 2), Some((1, 1000, 0, false)));
    assert_eq!(player_at(&tables, 2, 3), Some((10, 1000, 0, false)));
    assert_eq!(count_active_players(&tables), 20);
}

#[test]
fn standard_balancing_leaves_even_tables() {
    let mut tables = seat_players(18, 9, 1000);
    balance_tables(&mut tables, BalancingAlgorithm::StandardBalancing);
    assert_eq!(tables[0].count_active_players(), 9);
    assert_eq!(tables[1].count_active_players(), 9);
    assert_eq!(player_at(&tables, 0, 0), Some((1, 1000, 0, false)));
}

#[test]
fn chip_race_rounds_stacks_down_to_hundreds() {
    let mut tables = seat_players(3, 3, 1000);
    tables[0].seats[0].as_mut().unwrap().stack_size = 1550;
    tables[0].seats[1].as_mut().unwrap().stack_size = 99;
    balance_tables(&mut tables, BalancingAlgorithm::ChipRaceProtocol);
    assert_eq!(player_at(&tables, 0, 0), Some((1, 1500, 0, false)));
    assert_eq!(player_at(&tables, 0, 1), Some((2, 0, 1, false)));
    assert_eq!(player_at(&tables, 0, 2), Some((3, 1000, 2, false)));
}

fn nine_left() -> Vec<MTTTable> {
    let mut tables = seat_players(12, 6, 1000);
    for seat in 1..4 {
        tables[0].seats[seat].as_mut().unwrap().is_sitting_out = true;
    }
    tables[0].seats[0].as_mut().unwrap().stack_size = 500;
    tables[0].seats[4].as_mut().unwrap().stack_size = 3000;
    tables[1].seats[0].as_mut().unwrap().stack_size = 3000;
    tables
}

#[test]
fn consolidation_seats_biggest_stacks_first() {
    let mut tables = nine_left();
    assert_eq!(count_active_players(&tables), 9);
    balance_tables(&mut tables, BalancingAlgorithm::FinalTableConsolidation);
    assert_eq!(tables.len(), 1);
    assert_eq!(tables[0].table_id, 999);
    assert_eq!(tables[0].max_seats, 9);
    let order: Vec<u32> = tables[0].seats.iter().map(|s| s.unwrap().player_id).collect();
    assert_eq!(order, vec![5, 7, 6, 8, 9, 10, 11, 12, 1]);
    assert_eq!(player_at(&tables, 0, 1), Some((7, 3000, 1, false)));
    assert_eq!(player_at(&tables, 0, 8), Some((1, 500, 8, false)));
}

#[test]
fn consolidation_waits_for_nine_players() {
    let mut tables = seat_players(12, 6, 1000);
    balance_tables(&mut tables, BalancingAlgorithm::FinalTableConsolidation);
    assert_eq!(tables.len(), 2);
    assert_eq!(count_active_players(&tables), 12);
}

#[test]
fn standings_are_sorted_by_stack() {
    let tables = nine_left();
    let standings = get_tournament_standings(&tables);
    assert_eq!(
        standings,
        vec![
            (5, 3000, 0),
            (7, 3000, 1),
            (6, 1000, 0),
            (8, 1000, 1),
            (9, 1000, 1),
            (10, 1000, 1),
            (11, 1000, 1),
            (12, 1000, 1),
            (1, 500, 0),
        ]
    );
}

#[test]
fn elimination_marks_player_out() {
    let mut tables = seat_players(18, 9, 1000);
    let mut remaining = 18;
    eliminate_player(&mut tables, BalancingAlgorithm::StandardBalancing, &mut remaining, 0, 3);
    assert_eq!(remaining, 17);
    assert_eq!(player_at(&tables, 0, 2), Some((3, 0, 2, true)));
    assert_eq!(count_active_players(&tables), 17);

    // A player who is not at that table changes nothing.
    eliminate_player(&mut tables, BalancingAlgorithm::StandardBalancing, &mut remaining, 1, 3);
    assert_eq!(remaining, 17);
    eliminate_player(&mut tables, BalancingAlgorithm::StandardBalancing, &mut remaining, 0, 99);
    assert_eq!(remaining, 17);
    assert_eq!(count_active_players(&tables), 17);
}

#[test]
fn elimination_at_a_short_table_rebalances() {
    let mut tables = seat_players(10, 6, 1000);
    let mut remaining = 10;
    eliminate_player(
        &mut tables,
        BalancingAlgorithm::FinalTableConsolidation,
        &mut remaining,
        1,
        7,
    );
    assert_eq!(remaining, 9);
    assert_eq!(tables.len(), 1);
    assert_eq!(tables[0].table_id, 999);
    let order: Vec<u32> = tables[0].seats.iter().map(|s| s.unwrap().player_id).collect();
    assert_eq!(order, vec![1, 2, 3, 4, 5, 6, 8, 9, 10]);
    assert_eq!(player_at(&tables, 0, 6), Some((8, 1000, 6, false)));
}

#[test]
fn balancing_into_a_table_without_room_drops_the_player() {
    let mut tables = seat_players(5, 5, 1000);
    tables.push(MTTTable {
        table_id: 1,
        seats: vec![],
        max_seats: 0,
        current_hand: 1,
        button_position: 1,
    });
    balance_tables(&mut tables, BalancingAlgorithm::StandardBalancing);
    assert_eq!(player_at(&tables, 0, 0), None);
    assert_eq!(count_active_players(&tables), 4);
}
