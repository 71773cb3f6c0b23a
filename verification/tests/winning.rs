use minesweeper::flood::uncover;
use minesweeper::generate::{gen_board, place_bomb};
use minesweeper::grid::{Cell, Grid};
use minesweeper::visibility::{Visibility, VisibilityState};
use minesweeper::win::check_flag_win_condition;

fn laid(width: usize, height: usize, bombs: &[(usize, usize)]) -> Grid {
    let mut grid = Grid::new(width, height);
    for &(x, y) in bombs {
        place_bomb(&mut grid, x, y);
    }
    grid
}

#[test]
fn no_bombs_and_no_flags_is_a_win() {
    let (grid, seen) = gen_board(2, 2, 0).unwrap();
    assert!(check_flag_win_condition(&grid, &seen));
}

#[test]
fn flagging_the_one_bomb_wins() {
    let grid = laid(3, 3, &[(1, 1)]);
    for x in 0..3 {
        for y in 0..3 {
            if (x, y) != (1, 1) {
                assert_eq!(grid.get(x, y), Cell::Count(1));
            }
        }
    }
    let mut seen = VisibilityState::new(3, 3);
    assert!(!check_flag_win_condition(&grid, &seen));
    seen.set(1, 1, Visibility::Flagged);
    assert!(check_flag_win_condition(&grid, &seen));
}

#[test]
fn an_unflagged_bomb_is_no_win() {
    let grid = laid(2, 2, &[(0, 0), (1, 1)]);
    let mut seen = VisibilityState::new(2, 2);
    seen.set(0, 0, Visibility::Flagged);
    assert!(!check_flag_win_condition(&grid, &seen));
    seen.set(1, 1, Visibility::Flagged);
    assert!(check_flag_win_condition(&grid, &seen));
}

#[test]
fn a_flag_without_a_bomb_is_no_win() {
    let grid = laid(2, 2, &[(0, 0)]);
    let mut seen = VisibilityState::new(2, 2);
    seen.set(0, 0, Visibility::Flagged);
    seen.set(1, 1, Visibility::Flagged);
    assert!(!check_flag_win_condition(&grid, &seen));
    let mut seen = VisibilityState::new(2, 2);
    seen.set(0, 1, Visibility::Flagged);
    assert!(!check_flag_win_condition(&grid, &seen));
}

#[test]
fn a_revealed_bomb_is_no_win() {
    let grid = laid(2, 2, &[(0, 0)]);
    let mut seen = VisibilityState::new(2, 2);
    seen.set(0, 0, Visibility::Revealed);
    assert!(!check_flag_win_condition(&grid, &seen));
}

#[test]
fn revealing_a_bomb_loses() {
    let grid = laid(3, 3, &[(1, 1)]);
    let mut seen = VisibilityState::new(3, 3);
    uncover(&grid, &mut seen, 1, 1);
    assert_eq!(seen.get(1, 1), Visibility::Revealed);
    assert_eq!(grid.get(1, 1), Cell::Bomb);
    assert!(!check_flag_win_condition(&grid, &seen));
}

#[test]
fn revealed_counts_do_not_matter_for_a_win() {
    let grid = laid(3, 3, &[(0, 0)]);
    let mut seen = VisibilityState::new(3, 3);
    seen.set(0, 0, Visibility::Flagged);
    uncover(&grid, &mut seen, 2, 2);
    assert!(check_flag_win_condition(&grid, &seen));
}

#[test]
fn the_last_position_decides() {
    let grid = laid(2, 3, &[(1, 2)]);
    let mut seen = VisibilityState::new(2, 3);
    assert!(!check_flag_win_condition(&grid, &seen));
    seen.set(1, 2, Visibility::Flagged);
    assert!(check_flag_win_condition(&grid, &seen));
    seen.set(1, 1, Visibility::Flagged);
    assert!(!check_flag_win_condition(&grid, &seen));
}

#[test]
fn flags_on_every_bomb_of_a_generated_board_win() {
    for _ in 0..20 {
        let (grid, mut seen) = gen_board(8, 8, 8).unwrap();
        assert!(!check_flag_win_condition(&grid, &seen));
        for x in 0..8 {
            for y in 0..8 {
                if grid.get(x, y) == Cell::Bomb {
                    seen.set(x, y, Visibility::Flagged);
                }
            }
        }
        assert!(check_flag_win_condition(&grid, &seen));
    }
}

#[test]
fn a_board_without_positions_is_won() {
    assert!(check_flag_win_condition(&Grid::new(0, 0), &VisibilityState::new(0, 0)));
    assert!(check_flag_win_condition(&Grid::new(3, 0), &VisibilityState::new(3, 0)));
}
