use minesweeper_core::coordinates::Coordinates;
use minesweeper_core::tile_map::{ConfigError, TileMap};

fn c(x: u16, y: u16) -> Coordinates {
    Coordinates { x, y }
}

/// Counts bombs by scanning every cell through the public accessor.
fn count_bombs(m: &TileMap, width: u16, height: u16) -> usize {
    let mut n = 0;
    for y in 0..height {
        for x in 0..width {
            if m.is_bomb_at(c(x, y)) {
                n += 1;
            }
        }
    }
    n
}

/// Recomputes a cell's neighbor-bomb count independently of the map's
/// stored tiles.
fn recount_neighbors(m: &TileMap, x: u16, y: u16) -> u8 {
    let mut n = 0;
    for dy in -1i32..=1 {
        for dx in -1i32..=1 {
            if dx == 0 && dy == 0 {
                continue;
            }
            let nx = x as i32 + dx;
            let ny = y as i32 + dy;
            if nx >= 0 && ny >= 0 && m.is_bomb_at(c(nx as u16, ny as u16)) {
                n += 1;
            }
        }
    }
    n
}

#[test]
fn generated_map_has_exact_mine_count() {
    let m = TileMap::generate(8, 8, 10, None).unwrap();
    assert_eq!(m.bomb_count(), 10);
    assert_eq!(count_bombs(&m, 8, 8), 10);
    assert_eq!(m.get_all_bomb_coordinates().len(), 10);
}

#[test]
fn generated_map_with_zero_mines() {
    let m = TileMap::generate(4, 3, 0, None).unwrap();
    assert_eq!(m.bomb_count(), 0);
    assert_eq!(count_bombs(&m, 4, 3), 0);
}

#[test]
fn generated_map_full_of_mines() {
    let m = TileMap::generate(3, 3, 9, None).unwrap();
    assert_eq!(count_bombs(&m, 3, 3), 9);
}

#[test]
fn stored_counts_match_independent_recount() {
    let m = TileMap::generate(6, 6, 8, None).unwrap();
    for y in 0..6 {
        for x in 0..6 {
            if !m.is_bomb_at(c(x, y)) {
                assert_eq!(m.bomb_count_at(c(x, y)), recount_neighbors(&m, x, y));
            }
        }
    }
}

#[test]
fn explicit_layout_counts_are_exact() {
    // One bomb in the middle of a 3x3 grid: every other cell sees it.
    let m = TileMap::from_bomb_coordinates(3, 3, &vec![c(1, 1)]).unwrap();
    assert!(m.is_bomb_at(c(1, 1)));
    for y in 0..3 {
        for x in 0..3 {
            if !(x == 1 && y == 1) {
                assert!(!m.is_bomb_at(c(x, y)));
                assert_eq!(m.bomb_count_at(c(x, y)), 1);
            }
        }
    }
}

#[test]
fn corner_bomb_counts() {
    let m = TileMap::from_bomb_coordinates(4, 4, &vec![c(0, 0)]).unwrap();
    assert_eq!(m.bomb_count_at(c(1, 0)), 1);
    assert_eq!(m.bomb_count_at(c(0, 1)), 1);
    assert_eq!(m.bomb_count_at(c(1, 1)), 1);
    assert_eq!(m.bomb_count_at(c(2, 0)), 0);
    assert_eq!(m.bomb_count_at(c(2, 2)), 0);
    assert_eq!(m.bomb_count_at(c(3, 3)), 0);
}

#[test]
fn safe_zone_holds_no_mine() {
    let origin = c(4, 4);
    let m = TileMap::generate(9, 9, 20, Some(origin)).unwrap();
    for dy in -1i32..=1 {
        for dx in -1i32..=1 {
            let x = (4 + dx) as u16;
            let y = (4 + dy) as u16;
            assert!(!m.is_bomb_at(c(x, y)));
        }
    }
    assert_eq!(count_bombs(&m, 9, 9), 20);
}

#[test]
fn safe_zone_at_corner_still_fits() {
    // A corner origin excludes only 4 cells of a 3x3 grid.
    let m = TileMap::generate(3, 3, 5, Some(c(0, 0))).unwrap();
    assert!(!m.is_bomb_at(c(0, 0)));
    assert!(!m.is_bomb_at(c(1, 0)));
    assert!(!m.is_bomb_at(c(0, 1)));
    assert!(!m.is_bomb_at(c(1, 1)));
    assert_eq!(count_bombs(&m, 3, 3), 5);
}

#[test]
fn zero_dimension_is_a_configuration_error() {
    assert_eq!(
        TileMap::generate(0, 5, 1, None).unwrap_err(),
        ConfigError::InvalidDimensions
    );
    assert_eq!(
        TileMap::generate(5, 0, 1, None).unwrap_err(),
        ConfigError::InvalidDimensions
    );
}

#[test]
fn too_many_mines_is_a_configuration_error() {
    assert_eq!(
        TileMap::generate(2, 2, 5, None).unwrap_err(),
        ConfigError::TooManyBombs
    );
    // The safe zone shrinks the eligible area: 9 cells minus the full
    // 3x3 neighborhood leaves none.
    assert_eq!(
        TileMap::generate(3, 3, 1, Some(c(1, 1))).unwrap_err(),
        ConfigError::TooManyBombs
    );
}

#[test]
fn explicit_layout_rejects_bad_positions() {
    assert_eq!(
        TileMap::from_bomb_coordinates(3, 3, &vec![c(3, 0)]).unwrap_err(),
        ConfigError::BombOutOfBounds
    );
    assert_eq!(
        TileMap::from_bomb_coordinates(3, 3, &vec![c(1, 1), c(1, 1)]).unwrap_err(),
        ConfigError::DuplicateBomb
    );
    assert_eq!(
        TileMap::from_bomb_coordinates(0, 3, &vec![]).unwrap_err(),
        ConfigError::InvalidDimensions
    );
}

#[test]
fn neighbor_enumeration_is_bounds_clipped() {
    let m = TileMap::from_bomb_coordinates(3, 3, &vec![]).unwrap();
    assert_eq!(m.safe_square_at(c(0, 0)).len(), 3);
    assert_eq!(m.safe_square_at(c(1, 0)).len(), 5);
    assert_eq!(m.safe_square_at(c(1, 1)).len(), 8);
    assert_eq!(m.safe_square_at(c(2, 2)).len(), 3);
}

#[test]
fn neighbor_enumeration_order_is_fixed() {
    let m = TileMap::from_bomb_coordinates(3, 3, &vec![]).unwrap();
    let n = m.safe_square_at(c(1, 1));
    let expected = vec![
        c(0, 0),
        c(1, 0),
        c(2, 0),
        c(0, 1),
        c(2, 1),
        c(0, 2),
        c(1, 2),
        c(2, 2),
    ];
    assert_eq!(n, expected);
}

#[test]
fn bomb_neighbor_component_reports_safe_cells_only() {
    let m = TileMap::from_bomb_coordinates(2, 2, &vec![c(0, 0)]).unwrap();
    assert!(m.bomb_neighbor_at(c(0, 0)).is_none());
    let b = m.bomb_neighbor_at(c(1, 1)).unwrap();
    assert_eq!(b.count, 1);
    assert!(m.bomb_neighbor_at(c(2, 0)).is_none());
}

#[test]
fn out_of_grid_queries_are_no_ops() {
    let m = TileMap::from_bomb_coordinates(2, 2, &vec![c(0, 0)]).unwrap();
    assert!(!m.is_bomb_at(c(2, 2)));
    assert_eq!(m.bomb_count_at(c(9, 9)), 0);
    assert!(!m.contains(c(2, 0)));
    assert!(m.contains(c(1, 1)));
}

#[test]
fn checked_offset_never_wraps() {
    let p = c(0, 0);
    assert!(p.checked_offset(-1, 0, 5, 5).is_none());
    assert!(p.checked_offset(0, -1, 5, 5).is_none());
    assert_eq!(p.checked_offset(1, 1, 5, 5), Some(c(1, 1)));
    let q = c(4, 4);
    assert!(q.checked_offset(1, 0, 5, 5).is_none());
    assert!(q.checked_offset(0, 1, 5, 5).is_none());
    assert_eq!(q.checked_offset(-1, -1, 5, 5), Some(c(3, 3)));
}
