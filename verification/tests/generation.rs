use minesweeper::generate::{first_free, gen_board, place_bomb, try_place_bomb, GenError};
use minesweeper::grid::{Cell, Grid};
use minesweeper::visibility::Visibility;

fn board_with(width: usize, height: usize, bombs: &[(usize, usize)]) -> Grid {
    let mut grid = Grid::new(width, height);
    for &(x, y) in bombs {
        assert!(grid.contains(x, y));
        assert_ne!(grid.get(x, y), Cell::Bomb);
        place_bomb(&mut grid, x, y);
    }
    grid
}

fn count_bombs(grid: &Grid) -> usize {
    let mut n = 0;
    for x in 0..grid.width() {
        for y in 0..grid.height() {
            if grid.get(x, y) == Cell::Bomb {
                n += 1;
            }
        }
    }
    n
}

fn bombs_around(grid: &Grid, x: usize, y: usize) -> u8 {
    let mut n = 0;
    for dx in -1i64..=1 {
        for dy in -1i64..=1 {
            if dx == 0 && dy == 0 {
                continue;
            }
            let nx = x as i64 + dx;
            let ny = y as i64 + dy;
            if nx < 0 || ny < 0 {
                continue;
            }
            if grid.contains(nx as usize, ny as usize)
                && grid.get(nx as usize, ny as usize) == Cell::Bomb
            {
                n += 1;
            }
        }
    }
    n
}

fn assert_counts_exact(grid: &Grid) {
    for x in 0..grid.width() {
        for y in 0..grid.height() {
            if let Cell::Count(n) = grid.get(x, y) {
                assert_eq!(n, bombs_around(grid, x, y), "count at ({}, {})", x, y);
            }
        }
    }
}

#[test]
fn new_board_is_empty() {
    let grid = Grid::new(3, 4);
    assert_eq!(grid.width(), 3);
    assert_eq!(grid.height(), 4);
    for x in 0..3 {
        for y in 0..4 {
            assert_eq!(grid.get(x, y), Cell::Count(0));
        }
    }
    assert!(grid.contains(2, 3));
    assert!(!grid.contains(3, 0));
    assert!(!grid.contains(0, 4));
}

#[test]
fn board_without_rows_has_no_height() {
    let grid = Grid::new(0, 5);
    assert_eq!(grid.width(), 0);
    assert_eq!(grid.height(), 0);
    assert!(!grid.contains(0, 0));
}

#[test]
fn generated_board_has_the_bombs_asked_for() {
    for _ in 0..50 {
        let (grid, seen) = gen_board(8, 8, 8).unwrap();
        assert_eq!(grid.width(), 8);
        assert_eq!(grid.height(), 8);
        assert_eq!(seen.width(), 8);
        assert_eq!(seen.height(), 8);
        assert_eq!(count_bombs(&grid), 8);
    }
}

#[test]
fn generated_counts_match_the_bombs_around() {
    for nbombs in [0usize, 1, 5, 17, 29, 30] {
        let (grid, _) = gen_board(5, 6, nbombs).unwrap();
        assert_eq!(count_bombs(&grid), nbombs);
        assert_counts_exact(&grid);
    }
}

#[test]
fn generated_board_starts_hidden() {
    let (_, seen) = gen_board(4, 7, 9).unwrap();
    for x in 0..4 {
        for y in 0..7 {
            assert_eq!(seen.get(x, y), Visibility::Hidden);
        }
    }
}

#[test]
fn generated_board_can_be_full() {
    let (grid, _) = gen_board(4, 5, 20).unwrap();
    for x in 0..4 {
        for y in 0..5 {
            assert_eq!(grid.get(x, y), Cell::Bomb);
        }
    }
}

#[test]
fn generated_board_is_not_square() {
    let (grid, seen) = gen_board(2, 9, 3).unwrap();
    assert_eq!((grid.width(), grid.height()), (2, 9));
    assert_eq!((seen.width(), seen.height()), (2, 9));
    assert_eq!(count_bombs(&grid), 3);
    assert_counts_exact(&grid);
}

#[test]
fn generated_single_position() {
    let (grid, _) = gen_board(1, 1, 1).unwrap();
    assert_eq!(grid.get(0, 0), Cell::Bomb);
    let (grid, _) = gen_board(1, 1, 0).unwrap();
    assert_eq!(grid.get(0, 0), Cell::Count(0));
}

#[test]
fn generated_board_without_positions() {
    let (grid, seen) = gen_board(0, 0, 0).unwrap();
    assert_eq!(grid.width(), 0);
    assert_eq!(seen.width(), 0);
    let (grid, _) = gen_board(3, 0, 0).unwrap();
    assert_eq!(grid.width(), 3);
    assert_eq!(grid.height(), 0);
    let (grid, _) = gen_board(0, 5, 0).unwrap();
    assert_eq!(grid.width(), 0);
}

#[test]
fn too_many_bombs_are_refused() {
    assert_eq!(gen_board(2, 2, 5).err(), Some(GenError::TooManyBombs));
    assert_eq!(gen_board(0, 5, 1).err(), Some(GenError::TooManyBombs));
    assert_eq!(gen_board(3, 0, 1).err(), Some(GenError::TooManyBombs));
    assert_eq!(gen_board(8, 8, 65).err(), Some(GenError::TooManyBombs));
    assert!(gen_board(8, 8, 64).is_ok());
}

#[test]
fn bomb_in_the_middle_raises_all_around() {
    let grid = board_with(3, 3, &[(1, 1)]);
    for x in 0..3 {
        for y in 0..3 {
            let expected = if (x, y) == (1, 1) { Cell::Bomb } else { Cell::Count(1) };
            assert_eq!(grid.get(x, y), expected);
        }
    }
}

#[test]
fn bomb_in_a_corner_raises_three() {
    let grid = board_with(3, 3, &[(0, 0)]);
    let expected = [
        [Cell::Bomb, Cell::Count(1), Cell::Count(0)],
        [Cell::Count(1), Cell::Count(1), Cell::Count(0)],
        [Cell::Count(0), Cell::Count(0), Cell::Count(0)],
    ];
    for x in 0..3 {
        for y in 0..3 {
            assert_eq!(grid.get(x, y), expected[x][y]);
        }
    }
    let grid = board_with(3, 3, &[(2, 2)]);
    let expected = [
        [Cell::Count(0), Cell::Count(0), Cell::Count(0)],
        [Cell::Count(0), Cell::Count(1), Cell::Count(1)],
        [Cell::Count(0), Cell::Count(1), Cell::Bomb],
    ];
    for x in 0..3 {
        for y in 0..3 {
            assert_eq!(grid.get(x, y), expected[x][y]);
        }
    }
}

#[test]
fn bomb_on_an_edge_raises_five() {
    let grid = board_with(3, 4, &[(0, 2)]);
    let expected = [
        [Cell::Count(0), Cell::Count(1), Cell::Bomb, Cell::Count(1)],
        [Cell::Count(0), Cell::Count(1), Cell::Count(1), Cell::Count(1)],
        [Cell::Count(0), Cell::Count(0), Cell::Count(0), Cell::Count(0)],
    ];
    for x in 0..3 {
        for y in 0..4 {
            assert_eq!(grid.get(x, y), expected[x][y]);
        }
    }
}

#[test]
fn bombs_side_by_side_leave_each_other_alone() {
    let grid = board_with(2, 3, &[(0, 0), (0, 1)]);
    let expected = [
        [Cell::Bomb, Cell::Bomb, Cell::Count(1)],
        [Cell::Count(2), Cell::Count(2), Cell::Count(1)],
    ];
    for x in 0..2 {
        for y in 0..3 {
            assert_eq!(grid.get(x, y), expected[x][y]);
        }
    }
}

#[test]
fn eight_bombs_around_one_position() {
    let ring = [(0, 0), (0, 1), (0, 2), (1, 0), (1, 2), (2, 0), (2, 1), (2, 2)];
    let grid = board_with(3, 3, &ring);
    assert_eq!(grid.get(1, 1), Cell::Count(8));
    assert_eq!(count_bombs(&grid), 8);
}

#[test]
fn bomb_on_the_only_position() {
    let grid = board_with(1, 1, &[(0, 0)]);
    assert_eq!(grid.get(0, 0), Cell::Bomb);
}

#[test]
fn bombs_keep_counts_exact_in_any_order() {
    let one = board_with(4, 4, &[(0, 0), (3, 3), (1, 2), (2, 1), (0, 3)]);
    let other = board_with(4, 4, &[(0, 3), (2, 1), (1, 2), (3, 3), (0, 0)]);
    assert_eq!(one, other);
    assert_counts_exact(&one);
    assert_eq!(count_bombs(&one), 5);
}

#[test]
fn first_free_reads_row_by_row() {
    assert_eq!(first_free(&Grid::new(2, 2)), Some((0, 0)));
    assert_eq!(first_free(&board_with(2, 2, &[(0, 0)])), Some((0, 1)));
    assert_eq!(first_free(&board_with(2, 2, &[(0, 0), (0, 1)])), Some((1, 0)));
    assert_eq!(first_free(&board_with(2, 2, &[(0, 1), (0, 0), (1, 0)])), Some((1, 1)));
    assert_eq!(first_free(&board_with(2, 2, &[(1, 1)])), Some((0, 0)));
}

#[test]
fn first_free_finds_none_on_a_full_board() {
    assert_eq!(first_free(&board_with(2, 2, &[(0, 0), (0, 1), (1, 0), (1, 1)])), None);
    assert_eq!(first_free(&Grid::new(0, 0)), None);
    assert_eq!(first_free(&Grid::new(3, 0)), None);
}

#[test]
fn try_place_bomb_takes_a_free_position() {
    let mut grid = Grid::new(2, 2);
    assert!(try_place_bomb(&mut grid, 1, 0));
    assert_eq!(grid, board_with(2, 2, &[(1, 0)]));
    assert_eq!(grid.get(1, 0), Cell::Bomb);
    assert_eq!(grid.get(0, 0), Cell::Count(1));
    assert_eq!(grid.get(0, 1), Cell::Count(1));
    assert_eq!(grid.get(1, 1), Cell::Count(1));
}

#[test]
fn try_place_bomb_turns_down_a_bomb() {
    let mut grid = board_with(2, 2, &[(1, 0)]);
    assert!(!try_place_bomb(&mut grid, 1, 0));
    assert_eq!(grid, board_with(2, 2, &[(1, 0)]));
    assert_eq!(count_bombs(&grid), 1);
    assert_counts_exact(&grid);
}

#[test]
fn try_place_bomb_turns_down_what_is_off_the_board() {
    let mut grid = Grid::new(2, 3);
    assert!(!try_place_bomb(&mut grid, 2, 0));
    assert!(!try_place_bomb(&mut grid, 0, 3));
    assert!(!try_place_bomb(&mut grid, usize::MAX, usize::MAX));
    assert_eq!(grid, Grid::new(2, 3));
}

#[test]
fn try_place_bomb_fills_a_board() {
    let mut grid = Grid::new(3, 3);
    let mut placed = 0;
    for round in 0..2 {
        for x in 0..3 {
            for y in 0..3 {
                if try_place_bomb(&mut grid, x, y) {
                    placed += 1;
                    assert_eq!(round, 0);
                }
                assert_counts_exact(&grid);
            }
        }
    }
    assert_eq!(placed, 9);
    assert_eq!(count_bombs(&grid), 9);
}
