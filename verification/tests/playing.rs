use minesweeper::generate::place_bomb;
use minesweeper::grid::Grid;
use minesweeper::play::{
    decode_command, flag, play, reveals_all, Action, Command, MoveError, Outcome,
};
use minesweeper::visibility::{Visibility, VisibilityState};

fn small() -> Grid {
    // X 1 0
    // 1 1 0
    // 0 0 0
    let mut grid = Grid::new(3, 3);
    place_bomb(&mut grid, 0, 0);
    grid
}

#[test]
fn command_codes() {
    assert_eq!(decode_command(0), Command::Skip);
    assert_eq!(decode_command(1), Command::Move(Action::Flag));
    assert_eq!(decode_command(2), Command::Move(Action::Uncover));
    assert_eq!(decode_command(3), Command::Quit);
    assert_eq!(decode_command(4), Command::Quit);
    assert_eq!(decode_command(usize::MAX), Command::Quit);
}

#[test]
fn board_is_shown_when_the_game_is_over() {
    assert!(!reveals_all(Outcome::Continue));
    assert!(reveals_all(Outcome::Won));
    assert!(reveals_all(Outcome::Lost));
}

#[test]
fn flag_marks_any_position() {
    let mut seen = VisibilityState::new(2, 2);
    flag(&mut seen, 0, 1);
    assert_eq!(seen.get(0, 1), Visibility::Flagged);
    assert_eq!(seen.get(0, 0), Visibility::Hidden);
    seen.set(1, 1, Visibility::Revealed);
    flag(&mut seen, 1, 1);
    assert_eq!(seen.get(1, 1), Visibility::Flagged);
}

#[test]
fn move_off_the_board_is_turned_down() {
    let grid = small();
    let mut seen = VisibilityState::new(3, 3);
    assert_eq!(play(&grid, &mut seen, Action::Uncover, 3, 0), Err(MoveError::OutOfBounds));
    assert_eq!(play(&grid, &mut seen, Action::Flag, 0, 3), Err(MoveError::OutOfBounds));
    assert_eq!(
        play(&grid, &mut seen, Action::Uncover, usize::MAX, usize::MAX),
        Err(MoveError::OutOfBounds)
    );
    assert_eq!(seen, VisibilityState::new(3, 3));
}

#[test]
fn flagging_the_bomb_wins_the_game() {
    let grid = small();
    let mut seen = VisibilityState::new(3, 3);
    assert_eq!(play(&grid, &mut seen, Action::Flag, 1, 1), Ok(Outcome::Continue));
    assert_eq!(play(&grid, &mut seen, Action::Uncover, 1, 1), Ok(Outcome::Continue));
    assert_eq!(seen.get(1, 1), Visibility::Revealed);
    assert_eq!(play(&grid, &mut seen, Action::Flag, 0, 0), Ok(Outcome::Won));
    assert_eq!(seen.get(0, 0), Visibility::Flagged);
}

#[test]
fn revealing_the_bomb_loses_the_game() {
    let grid = small();
    let mut seen = VisibilityState::new(3, 3);
    assert_eq!(play(&grid, &mut seen, Action::Uncover, 2, 2), Ok(Outcome::Continue));
    assert_eq!(seen.get(0, 1), Visibility::Revealed);
    assert_eq!(seen.get(0, 0), Visibility::Hidden);
    assert_eq!(play(&grid, &mut seen, Action::Uncover, 0, 0), Ok(Outcome::Lost));
    assert_eq!(seen.get(0, 0), Visibility::Revealed);
}

#[test]
fn revealing_a_flagged_bomb_loses_the_game() {
    let grid = small();
    let mut seen = VisibilityState::new(3, 3);
    assert_eq!(play(&grid, &mut seen, Action::Flag, 0, 0), Ok(Outcome::Won));
    assert_eq!(play(&grid, &mut seen, Action::Uncover, 0, 0), Ok(Outcome::Lost));
}

#[test]
fn first_uncover_wins_a_board_without_bombs() {
    let grid = Grid::new(2, 2);
    let mut seen = VisibilityState::new(2, 2);
    assert_eq!(play(&grid, &mut seen, Action::Uncover, 0, 0), Ok(Outcome::Won));
}

#[test]
fn visibility_covers_a_board_of_its_size() {
    assert!(VisibilityState::new(2, 3).covers(&Grid::new(2, 3)));
    assert!(!VisibilityState::new(2, 3).covers(&Grid::new(3, 2)));
    assert!(!VisibilityState::new(2, 3).covers(&Grid::new(2, 2)));
    assert!(!VisibilityState::new(1, 3).covers(&Grid::new(2, 3)));
    assert!(VisibilityState::new(0, 5).covers(&Grid::new(0, 0)));
    assert!(VisibilityState::new(4, 0).covers(&Grid::new(4, 0)));
}

#[test]
fn a_whole_game_to_the_win() {
    // 0 0 0
    // 1 1 0
    // X 1 0
    let mut grid = Grid::new(3, 3);
    place_bomb(&mut grid, 2, 0);
    let mut seen = VisibilityState::new(3, 3);
    let mut outcomes = Vec::new();
    for (code, x, y) in [(2, 0, 0), (1, 1, 1), (2, 1, 1), (1, 2, 0)] {
        match decode_command(code) {
            Command::Move(action) => outcomes.push(play(&grid, &mut seen, action, x, y)),
            other => panic!("no move: {:?}", other),
        }
    }
    assert_eq!(
        outcomes,
        vec![
            Ok(Outcome::Continue),
            Ok(Outcome::Continue),
            Ok(Outcome::Continue),
            Ok(Outcome::Won),
        ]
    );
    for x in 0..3 {
        for y in 0..3 {
            let expected = if (x, y) == (2, 0) { Visibility::Flagged } else { Visibility::Revealed };
            assert_eq!(seen.get(x, y), expected);
        }
    }
}
