//! The board as text, one line for each row.

use vstd::prelude::*;
use crate::geometry::{height_of, in_bounds, same_shape};
use crate::grid::{bomb_neighbors, Cell, Grid};
use crate::visibility::{Visibility, VisibilityState};

verus! {

/// The character for the number `n`, which is a digit up to nine.
pub open spec fn digit(n: u8) -> char {
    (n + 48) as char
}

/// How one position shows: `?` while hidden and `!` while flagged, unless all
/// is to be shown; else `X` for a bomb and the count for any other cell.
pub open spec fn glyph(cell: Cell, state: Visibility, reveal_all: bool) -> char {
    if state == Visibility::Hidden && !reveal_all {
        '?'
    } else if state == Visibility::Flagged && !reveal_all {
        '!'
    } else {
        match cell {
            Cell::Bomb => 'X',
            Cell::Count(n) => digit(n),
        }
    }
}

/// The text of the first `n` positions of a row, each followed by a blank.
pub open spec fn cells_text(
    cells: Seq<Cell>,
    states: Seq<Visibility>,
    reveal_all: bool,
    n: nat,
) -> Seq<char>
    decreases n,
{
    if n == 0 {
        Seq::empty()
    } else {
        cells_text(cells, states, reveal_all, (n - 1) as nat).push(
            glyph(cells[n - 1], states[n - 1], reveal_all),
        ).push(' ')
    }
}

/// The line for one row: its positions between two bars.
pub open spec fn row_text(cells: Seq<Cell>, states: Seq<Visibility>, reveal_all: bool) -> Seq<
    char,
> {
    seq!['|', ' '] + cells_text(cells, states, reveal_all, cells.len()).push('|')
}

/// The character for a count.
fn digit_of(n: u8) -> (c: char)
    requires
        n <= 9,
    ensures
        c == digit(n),
{
    match n {
        0 => '0',
        1 => '1',
        2 => '2',
        3 => '3',
        4 => '4',
        5 => '5',
        6 => '6',
        7 => '7',
        8 => '8',
        _ => '9',
    }
}

/// The character for one position.
fn glyph_of(cell: Cell, state: Visibility, reveal_all: bool) -> (c: char)
    requires
        cell matches Cell::Count(n) ==> n <= 9,
    ensures
        c == glyph(cell, state, reveal_all),
{
    if state == Visibility::Hidden && !reveal_all {
        '?'
    } else if state == Visibility::Flagged && !reveal_all {
        '!'
    } else {
        match cell {
            Cell::Bomb => 'X',
            Cell::Count(n) => digit_of(n),
        }
    }
}

/// The board as the player is to see it, a line for each row. With
/// `reveal_all` nothing stays hidden.
pub fn render_board(grid: &Grid, seen: &VisibilityState, reveal_all: bool) -> (lines: Vec<
    Vec<char>,
>)
    requires
        grid.wf(),
        same_shape(grid@, seen@),
    ensures
        lines@.len() == grid@.len(),
        forall|x: int|
            0 <= x < grid@.len() ==> (#[trigger] lines@[x])@ == row_text(
                grid@[x],
                seen@[x],
                reveal_all,
            ),
{
    let width = grid.width();
    let height = grid.height();
    let mut lines: Vec<Vec<char>> = Vec::new();
    let mut x: usize = 0;
    while x < width
        invariant
            x <= width,
            width == grid@.len(),
            height == height_of(grid@),
            grid.wf(),
            same_shape(grid@, seen@),
            lines@.len() == x,
            forall|i: int|
                0 <= i < x ==> (#[trigger] lines@[i])@ == row_text(grid@[i], seen@[i], reveal_all),
        decreases width - x,
    {
        let mut line: Vec<char> = Vec::new();
        line.push('|');
        line.push(' ');
        let mut y: usize = 0;
        while y < height
            invariant
                x < width,
                y <= height,
                width == grid@.len(),
                height == grid@[x as int].len(),
                grid.wf(),
                same_shape(grid@, seen@),
                line@ == seq!['|', ' '] + cells_text(
                    grid@[x as int],
                    seen@[x as int],
                    reveal_all,
                    y as nat,
                ),
            decreases height - y,
        {
            let cell = grid.get(x, y);
            assert(cell is Count ==> cell->0 == bomb_neighbors(grid@, x as int, y as int));
            line.push(glyph_of(cell, seen.get(x, y), reveal_all));
            line.push(' ');
            y += 1;
            assert(line@ =~= seq!['|', ' '] + cells_text(
                grid@[x as int],
                seen@[x as int],
                reveal_all,
                y as nat,
            ));
        }
        line.push('|');
        lines.push(line);
        x += 1;
    }
    lines
}

} // verus!
