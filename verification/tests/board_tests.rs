use minesweeper_core::board::{Board, RevealOutcome};
use minesweeper_core::coordinates::Coordinates;
use minesweeper_core::tile_map::{ConfigError, TileMap};

fn c(x: u16, y: u16) -> Coordinates {
    Coordinates { x, y }
}

/// A board over an explicit bomb layout, fully covered, no flags.
fn board_with(width: u16, height: u16, bombs: Vec<Coordinates>) -> Board {
    let m = TileMap::from_bomb_coordinates(width, height, &bombs).unwrap();
    Board::new(m, None)
}

fn unwrap_uncovered(r: RevealOutcome) -> (Vec<Coordinates>, bool) {
    match r {
        RevealOutcome::Uncovered { cells, completed } => (cells, completed),
        other => panic!("expected an uncovering, got {:?}", other),
    }
}

#[test]
fn revealing_on_empty_grid_uncovers_everything() {
    // A 5x5 grid with zero mines: revealing any cell floods all 25.
    for y in 0..5 {
        for x in 0..5 {
            let mut b = board_with(5, 5, vec![]);
            let (cells, completed) = unwrap_uncovered(b.reveal_at(c(x, y)));
            assert_eq!(cells.len(), 25);
            assert!(completed);
            assert_eq!(b.covered_cells_count(), 0);
            assert!(b.is_completed());
        }
    }
}

#[test]
fn corner_mine_far_reveal_uncovers_all_safe_cells() {
    let mut b = board_with(4, 4, vec![c(0, 0)]);
    let (cells, completed) = unwrap_uncovered(b.reveal_at(c(3, 3)));
    assert_eq!(cells.len(), 15);
    assert!(completed);
    assert!(b.is_covered(c(0, 0)));
    for y in 0..4 {
        for x in 0..4 {
            if !(x == 0 && y == 0) {
                assert!(!b.is_covered(c(x, y)));
            }
        }
    }
}

#[test]
fn thin_grid_flood_can_leave_a_numbered_cell_covered() {
    // On a 4x2 grid with the mine at (0,0), cell (0,1) has count 1
    // and no zero-count neighbor, so the far-corner flood cannot
    // reach it.
    let mut b = board_with(4, 2, vec![c(0, 0)]);
    let (cells, completed) = unwrap_uncovered(b.reveal_at(c(3, 1)));
    assert_eq!(cells.len(), 6);
    assert!(b.is_covered(c(0, 1)));
    assert!(!completed);
}

#[test]
fn empty_thin_grid_floods_fully() {
    let mut b = board_with(7, 2, vec![]);
    let (cells, completed) = unwrap_uncovered(b.reveal_at(c(6, 1)));
    assert_eq!(cells.len(), 14);
    assert!(completed);
}

#[test]
fn revealing_the_mine_detonates_and_uncovers_it_alone() {
    let mut b = board_with(4, 4, vec![c(0, 0)]);
    match b.reveal_at(c(0, 0)) {
        RevealOutcome::Detonated => {}
        other => panic!("expected a detonation, got {:?}", other),
    }
    assert!(!b.is_covered(c(0, 0)));
    assert_eq!(b.covered_cells_count(), 15);
    for y in 0..4 {
        for x in 0..4 {
            if !(x == 0 && y == 0) {
                assert!(b.is_covered(c(x, y)));
            }
        }
    }
}

#[test]
fn positive_count_reveal_uncovers_one_cell() {
    let mut b = board_with(3, 3, vec![c(0, 0)]);
    let (cells, completed) = unwrap_uncovered(b.reveal_at(c(1, 1)));
    assert_eq!(cells, vec![c(1, 1)]);
    assert!(!completed);
    assert_eq!(b.covered_cells_count(), 8);
}

#[test]
fn marked_cell_cannot_be_revealed_until_unmarked() {
    let mut b = board_with(3, 3, vec![c(0, 0)]);
    let target = c(2, 2);
    assert_eq!(b.try_toggle_mark(&target), Some(true));
    match b.reveal_at(target) {
        RevealOutcome::Rejected => {}
        other => panic!("expected a rejection, got {:?}", other),
    }
    assert_eq!(b.covered_cells_count(), 9);
    assert_eq!(b.try_toggle_mark(&target), Some(false));
    let (cells, _) = unwrap_uncovered(b.reveal_at(target));
    assert!(cells.contains(&target));
    assert!(!b.is_covered(target));
}

#[test]
fn chord_uncovers_remaining_neighbors() {
    // One mine at a corner, center already uncovered with count 1;
    // flagging the mine makes the chord fire on the center.
    let mut b = board_with(3, 3, vec![c(0, 0)]);
    let (cells, _) = unwrap_uncovered(b.reveal_at(c(1, 1)));
    assert_eq!(cells, vec![c(1, 1)]);
    assert_eq!(b.try_toggle_mark(&c(0, 0)), Some(true));
    let (cells, completed) = unwrap_uncovered(b.reveal_at(c(1, 1)));
    assert_eq!(cells.len(), 7);
    assert!(completed);
    assert!(b.is_covered(c(0, 0)));
    assert!(b.is_marked(c(0, 0)));
    for y in 0..3 {
        for x in 0..3 {
            if !(x == 0 && y == 0) {
                assert!(!b.is_covered(c(x, y)));
            }
        }
    }
}

#[test]
fn chord_with_wrong_mark_detonates() {
    // The player flags a safe neighbor instead of the mine: the chord
    // trusts the flag and uncovers the real mine.
    let mut b = board_with(3, 3, vec![c(0, 0)]);
    unwrap_uncovered(b.reveal_at(c(1, 1)));
    assert_eq!(b.try_toggle_mark(&c(1, 0)), Some(true));
    match b.reveal_at(c(1, 1)) {
        RevealOutcome::Detonated => {}
        other => panic!("expected a detonation, got {:?}", other),
    }
    assert!(!b.is_covered(c(0, 0)));
}

#[test]
fn unmet_chord_is_a_no_op() {
    let mut b = board_with(3, 3, vec![c(0, 0)]);
    unwrap_uncovered(b.reveal_at(c(1, 1)));
    let before = b.covered_cells_count();
    match b.reveal_at(c(1, 1)) {
        RevealOutcome::Rejected => {}
        other => panic!("expected a rejection, got {:?}", other),
    }
    assert_eq!(b.covered_cells_count(), before);
}

#[test]
fn propagation_never_uncovers_marked_cells() {
    // A flag in the middle of an empty grid survives the flood.
    let mut b = board_with(5, 5, vec![]);
    b.try_toggle_mark(&c(2, 2));
    let (cells, completed) = unwrap_uncovered(b.reveal_at(c(0, 0)));
    assert_eq!(cells.len(), 24);
    assert!(!cells.contains(&c(2, 2)));
    assert!(b.is_covered(c(2, 2)));
    assert!(b.is_marked(c(2, 2)));
    // One covered cell remains against zero bombs: not complete.
    assert!(!completed);
}

#[test]
fn chord_with_no_covered_neighbors_uncovers_nothing() {
    let mut b = board_with(3, 3, vec![c(0, 0)]);
    unwrap_uncovered(b.reveal_at(c(1, 1)));
    // The far corner has count zero: its flood uncovers every other
    // safe cell.
    unwrap_uncovered(b.reveal_at(c(2, 2)));
    assert_eq!(b.covered_cells_count(), 1);
    b.try_toggle_mark(&c(0, 0));
    let (cells, _) = unwrap_uncovered(b.reveal_at(c(1, 1)));
    assert_eq!(cells.len(), 0);
}

#[test]
fn completion_tracks_covered_count_against_mine_total() {
    let mut b = board_with(2, 2, vec![c(0, 0)]);
    assert!(!b.is_completed());
    unwrap_uncovered(b.reveal_at(c(1, 0)));
    assert!(!b.is_completed());
    unwrap_uncovered(b.reveal_at(c(0, 1)));
    assert!(!b.is_completed());
    let (_, completed) = unwrap_uncovered(b.reveal_at(c(1, 1)));
    assert!(completed);
    assert!(b.is_completed());
    assert_eq!(b.covered_cells_count() as u16, b.tile_map.bomb_count());
}

#[test]
fn out_of_grid_operations_are_rejected() {
    let mut b = board_with(3, 3, vec![c(0, 0)]);
    match b.reveal_at(c(5, 5)) {
        RevealOutcome::Rejected => {}
        other => panic!("expected a rejection, got {:?}", other),
    }
    assert_eq!(b.try_toggle_mark(&c(5, 5)), None);
    assert_eq!(b.try_uncover_tile(&c(5, 5)), None);
    assert_eq!(b.covered_cells_count(), 9);
}

#[test]
fn toggling_a_mark_on_an_uncovered_cell_fails() {
    let mut b = board_with(3, 3, vec![c(0, 0)]);
    unwrap_uncovered(b.reveal_at(c(1, 1)));
    assert_eq!(b.try_toggle_mark(&c(1, 1)), None);
    assert_eq!(b.marked_count(), 0);
}

#[test]
fn mark_toggle_roundtrip() {
    let mut b = board_with(3, 3, vec![c(0, 0)]);
    assert!(!b.is_marked(c(1, 2)));
    assert_eq!(b.try_toggle_mark(&c(1, 2)), Some(true));
    assert!(b.is_marked(c(1, 2)));
    assert_eq!(b.marked_count(), 1);
    assert_eq!(b.try_toggle_mark(&c(1, 2)), Some(false));
    assert!(!b.is_marked(c(1, 2)));
    assert_eq!(b.marked_count(), 0);
}

#[test]
fn force_uncover_removes_the_flag_first() {
    let mut b = board_with(3, 3, vec![c(0, 0)]);
    assert_eq!(b.try_toggle_mark(&c(2, 2)), Some(true));
    assert_eq!(b.try_uncover_tile(&c(2, 2)), Some(c(2, 2)));
    assert!(!b.is_covered(c(2, 2)));
    assert!(!b.is_marked(c(2, 2)));
    // An already uncovered cell yields nothing.
    assert_eq!(b.try_uncover_tile(&c(2, 2)), None);
}

#[test]
fn tile_to_uncover_lists_the_affected_cells() {
    let mut b = board_with(3, 3, vec![c(0, 0)]);
    // Covered, unflagged: the cell itself.
    assert_eq!(b.tile_to_uncover(&c(1, 1)), vec![c(1, 1)]);
    // Flagged: nothing.
    b.try_toggle_mark(&c(1, 1));
    assert_eq!(b.tile_to_uncover(&c(1, 1)), Vec::<Coordinates>::new());
    b.try_toggle_mark(&c(1, 1));
    // Uncovered with the chord unmet: nothing.
    unwrap_uncovered(b.reveal_at(c(1, 1)));
    assert_eq!(b.tile_to_uncover(&c(1, 1)), Vec::<Coordinates>::new());
    // Uncovered with the chord met: the covered, unflagged neighbors.
    b.try_toggle_mark(&c(0, 0));
    let seeds = b.tile_to_uncover(&c(1, 1));
    assert_eq!(seeds.len(), 7);
    assert!(!seeds.contains(&c(0, 0)));
    assert!(!seeds.contains(&c(1, 1)));
    // Out of the grid: nothing.
    assert_eq!(b.tile_to_uncover(&c(7, 7)), Vec::<Coordinates>::new());
}

#[test]
fn surrounding_covered_tiles_skips_marks_and_uncovered() {
    // Two corner bombs keep the flood from spreading.
    let mut b = board_with(3, 3, vec![c(0, 0), c(2, 2)]);
    unwrap_uncovered(b.reveal_at(c(2, 1)));
    b.try_toggle_mark(&c(0, 1));
    let around = b.surrounding_covered_tiles(&c(1, 1));
    assert!(around.contains(&c(0, 0)));
    assert!(around.contains(&c(1, 0)));
    assert!(around.contains(&c(2, 0)));
    assert!(around.contains(&c(0, 2)));
    assert!(around.contains(&c(1, 2)));
    assert!(around.contains(&c(2, 2)));
    assert!(!around.contains(&c(0, 1)));
    assert!(!around.contains(&c(2, 1)));
    assert_eq!(around.len(), 6);
}

#[test]
fn adjacent_covered_tiles_skips_marks_and_uncovered() {
    // Propagation expands through this enumeration, so a flagged
    // neighbor must not appear in it.
    let mut b = board_with(3, 3, vec![c(0, 0), c(2, 2)]);
    unwrap_uncovered(b.reveal_at(c(2, 1)));
    b.try_toggle_mark(&c(0, 1));
    let around = b.adjacent_covered_tiles(c(1, 1));
    assert!(!around.contains(&c(0, 1)));
    assert!(!around.contains(&c(2, 1)));
    assert!(around.contains(&c(0, 0)));
    assert_eq!(around.len(), 6);
}

#[test]
fn marked_neighbor_counting_feeds_the_chord_condition() {
    let mut b = board_with(3, 3, vec![c(0, 0)]);
    unwrap_uncovered(b.reveal_at(c(1, 1)));
    assert_eq!(b.marked_safe_count_at(&c(1, 1)), 0);
    assert!(!b.marked_tile_is_safe(&c(1, 1)));
    b.try_toggle_mark(&c(0, 0));
    assert_eq!(b.marked_safe_count_at(&c(1, 1)), 1);
    assert!(b.marked_tile_is_safe(&c(1, 1)));
    b.try_toggle_mark(&c(2, 0));
    assert_eq!(b.marked_safe_count_at(&c(1, 1)), 2);
    assert!(!b.marked_tile_is_safe(&c(1, 1)));
}

#[test]
fn find_safe_covered_coord_returns_a_safe_covered_cell() {
    let b = board_with(3, 3, vec![c(0, 0)]);
    let d = b.find_safe_covered_coord().unwrap();
    assert!(b.is_covered(d));
    assert!(!b.tile_map.is_bomb_at(d));
}

#[test]
fn find_safe_covered_coord_fails_only_when_none_is_left() {
    // Every cell a bomb: no safe cell exists.
    let all = vec![c(0, 0), c(1, 0), c(0, 1), c(1, 1)];
    let b = board_with(2, 2, all);
    assert_eq!(b.find_safe_covered_coord(), None);
    // After the only safe cell is uncovered, none is left either.
    let mut b2 = board_with(2, 2, vec![c(0, 0), c(1, 0), c(0, 1)]);
    unwrap_uncovered(b2.reveal_at(c(1, 1)));
    assert_eq!(b2.find_safe_covered_coord(), None);
}

#[test]
fn new_game_generates_a_fully_covered_round() {
    let b = Board::new_game(30, 16, 99, true).unwrap();
    assert_eq!(b.tile_map.bomb_count(), 99);
    assert_eq!(b.covered_cells_count(), 30 * 16);
    assert_eq!(b.marked_count(), 0);
    assert!(!b.is_completed());
    let o = b.safe_start.unwrap();
    assert!(b.tile_map.contains(o));
    for dy in -1i32..=1 {
        for dx in -1i32..=1 {
            let x = o.x as i32 + dx;
            let y = o.y as i32 + dy;
            if x >= 0 && y >= 0 {
                assert!(!b.tile_map.is_bomb_at(c(x as u16, y as u16)));
            }
        }
    }
}

#[test]
fn new_game_reports_configuration_errors() {
    assert_eq!(
        Board::new_game(0, 8, 1, false).unwrap_err(),
        ConfigError::InvalidDimensions
    );
    assert_eq!(
        Board::new_game(2, 2, 9, false).unwrap_err(),
        ConfigError::TooManyBombs
    );
    assert!(Board::new_game(2, 2, 4, false).is_ok());
}

#[test]
fn safe_start_always_fits_when_nine_cells_are_spare() {
    // A safe zone can exclude at most 9 cells, so these must succeed.
    assert!(Board::new_game(3, 3, 0, true).is_ok());
    let b = Board::new_game(5, 5, 16, true).unwrap();
    assert_eq!(b.tile_map.bomb_count(), 16);
}

#[test]
fn end_of_round_bulk_reveal_reaches_every_bomb() {
    let mut b = board_with(3, 3, vec![c(0, 0), c(2, 2)]);
    let bombs = b.get_all_bomb_coordinates();
    assert_eq!(bombs.len(), 2);
    for bomb in &bombs {
        assert_eq!(b.try_uncover_tile(bomb), Some(*bomb));
    }
    assert!(!b.is_covered(c(0, 0)));
    assert!(!b.is_covered(c(2, 2)));
}

#[test]
fn reveal_all_bombs_uncovers_and_unflags_exactly_the_bombs() {
    let mut b = board_with(3, 3, vec![c(0, 0), c(2, 2)]);
    unwrap_uncovered(b.reveal_at(c(2, 0)));
    b.try_toggle_mark(&c(0, 0));
    b.try_toggle_mark(&c(0, 2));
    b.reveal_all_bombs();
    // Both bombs are uncovered, the flag on one of them is gone.
    assert!(!b.is_covered(c(0, 0)));
    assert!(!b.is_covered(c(2, 2)));
    assert!(!b.is_marked(c(0, 0)));
    // Other cells keep their covered and flagged state.
    assert!(b.is_covered(c(0, 2)));
    assert!(b.is_marked(c(0, 2)));
    assert!(!b.is_covered(c(2, 0)));
    assert!(b.is_covered(c(0, 1)));
}

#[test]
fn bomb_neighbor_component_carries_the_count() {
    let b = board_with(2, 2, vec![c(0, 0)]);
    let n = b.tile_map.bomb_neighbor_at(c(1, 1)).unwrap();
    assert_eq!(n.count, 1);
}
