//! The rules of a turn: what a command code means, what a move does to the
//! board, and how the game stands after it.

use vstd::prelude::*;
use crate::flood::{lemma_reaches_start, uncover, uncovered};
use crate::geometry::{in_bounds, replaced, same_shape};
use crate::grid::{Cell, Grid};
use crate::visibility::{Visibility, VisibilityState};
use crate::win::{check_flag_win_condition, is_win};

verus! {

/// What the player does to a position.
#[derive(Clone, Copy, Debug, PartialEq, Eq, Structural)]
pub enum Action {
    /// Put a flag on it.
    Flag,
    /// Reveal it.
    Uncover,
}

/// What the player asks for.
#[derive(Clone, Copy, Debug, PartialEq, Eq, Structural)]
pub enum Command {
    /// Nothing: ask again.
    Skip,
    /// A move, for which a position is still to be named.
    Move(Action),
    /// End the game.
    Quit,
}

/// How the game stands after a move.
#[derive(Clone, Copy, Debug, PartialEq, Eq, Structural)]
pub enum Outcome {
    /// The game goes on.
    Continue,
    /// Every bomb is flagged and nothing else.
    Won,
    /// A bomb was revealed.
    Lost,
}

/// Why a move was turned down.
#[derive(Clone, Copy, Debug, PartialEq, Eq, Structural)]
pub enum MoveError {
    /// The position is not on the board.
    OutOfBounds,
}

/// The command that a code stands for: 1 flags, 2 reveals, anything above
/// ends the game, anything below does nothing.
pub open spec fn command_for(code: usize) -> Command {
    if code >= 3 {
        Command::Quit
    } else if code < 1 {
        Command::Skip
    } else if code == 2 {
        Command::Move(Action::Uncover)
    } else {
        Command::Move(Action::Flag)
    }
}

/// The visibility after `action` on `(x, y)`.
pub open spec fn after_move(
    g: Seq<Seq<Cell>>,
    s: Seq<Seq<Visibility>>,
    action: Action,
    x: int,
    y: int,
) -> Seq<Seq<Visibility>> {
    match action {
        Action::Flag => replaced(s, x, y, Visibility::Flagged),
        Action::Uncover => uncovered(g, s, x, y),
    }
}

/// How the game stands once `action` on `(x, y)` has led to `s`: won where
/// the flags mark the bombs, lost where a bomb was revealed.
pub open spec fn outcome_of(
    g: Seq<Seq<Cell>>,
    s: Seq<Seq<Visibility>>,
    action: Action,
    x: int,
    y: int,
) -> Outcome {
    if is_win(g, s) {
        Outcome::Won
    } else if action == Action::Uncover && g[x][y] == Cell::Bomb {
        Outcome::Lost
    } else {
        Outcome::Continue
    }
}

/// Whether the whole board is to be shown: when the game is over.
pub open spec fn shows_all(outcome: Outcome) -> bool {
    outcome != Outcome::Continue
}

/// Revealing a bomb never wins: the bomb ends up revealed, not flagged.
pub proof fn lemma_uncovered_bomb_is_no_win(
    g: Seq<Seq<Cell>>,
    s: Seq<Seq<Visibility>>,
    x: int,
    y: int,
)
    requires
        same_shape(g, s),
        in_bounds(g, x, y),
        g[x][y] == Cell::Bomb,
    ensures
        uncovered(g, s, x, y)[x][y] == Visibility::Revealed,
        !is_win(g, uncovered(g, s, x, y)),
{
    lemma_reaches_start(g, s, x, y);
}

/// Reads a command code.
pub fn decode_command(code: usize) -> (command: Command)
    ensures
        command == command_for(code),
{
    if code >= 3 {
        Command::Quit
    } else if code < 1 {
        Command::Skip
    } else if code == 2 {
        Command::Move(Action::Uncover)
    } else {
        Command::Move(Action::Flag)
    }
}

/// Whether the whole board is to be shown after a move with this outcome.
pub fn reveals_all(outcome: Outcome) -> (all: bool)
    ensures
        all == shows_all(outcome),
{
    match outcome {
        Outcome::Continue => false,
        Outcome::Won => true,
        Outcome::Lost => true,
    }
}

/// Puts a flag on `(xc, yc)`, whatever was there.
pub fn flag(seen: &mut VisibilityState, xc: usize, yc: usize)
    requires
        in_bounds(old(seen)@, xc as int, yc as int),
    ensures
        final(seen)@ == replaced(old(seen)@, xc as int, yc as int, Visibility::Flagged),
{
    seen.set(xc, yc, Visibility::Flagged);
}

/// Makes the move `action` on `(xc, yc)` and says how the game stands. A
/// position off the board is turned down, and nothing changes.
pub fn play(
    grid: &Grid,
    seen: &mut VisibilityState,
    action: Action,
    xc: usize,
    yc: usize,
) -> (result: Result<Outcome, MoveError>)
    requires
        grid.wf(),
        same_shape(grid@, old(seen)@),
    ensures
        same_shape(grid@, final(seen)@),
        result is Ok <==> in_bounds(grid@, xc as int, yc as int),
        result matches Ok(outcome) ==> {
            &&& final(seen)@ == after_move(grid@, old(seen)@, action, xc as int, yc as int)
            &&& outcome == outcome_of(grid@, final(seen)@, action, xc as int, yc as int)
        },
        result matches Err(e) ==> e == MoveError::OutOfBounds && final(seen)@ == old(seen)@,
{
    if !grid.contains(xc, yc) {
        return Err(MoveError::OutOfBounds);
    }
    match action {
        Action::Flag => {
            flag(seen, xc, yc);
        },
        Action::Uncover => {
            uncover(grid, seen, xc, yc);
        },
    }
    let victory = check_flag_win_condition(grid, seen);
    let loss = action == Action::Uncover && grid.get(xc, yc) == Cell::Bomb;
    if victory {
        Ok(Outcome::Won)
    } else if loss {
        Ok(Outcome::Lost)
    } else {
        Ok(Outcome::Continue)
    }
}

} // verus!
