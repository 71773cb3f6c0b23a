//! The win condition: the flags mark the bombs, all of them and nothing else.

use vstd::prelude::*;
use crate::geometry::{height_of, in_bounds, same_shape};
use crate::grid::{bombs, Cell, Grid};
use crate::visibility::{Visibility, VisibilityState};

verus! {

/// The game is won: a position is flagged just when it holds a bomb.
pub open spec fn is_win(g: Seq<Seq<Cell>>, s: Seq<Seq<Visibility>>) -> bool {
    forall|x: int, y: int|
        in_bounds(g, x, y) ==> ((#[trigger] s[x][y] == Visibility::Flagged) <==> g[x][y]
            == Cell::Bomb)
}

/// The positions that carry a flag.
pub open spec fn flagged(s: Seq<Seq<Visibility>>) -> Set<(int, int)> {
    Set::new(|p: (int, int)| in_bounds(s, p.0, p.1) && s[p.0][p.1] == Visibility::Flagged)
}

/// The game is won just when the flagged positions are the positions of the
/// bombs.
pub proof fn lemma_win_flags_are_bombs(g: Seq<Seq<Cell>>, s: Seq<Seq<Visibility>>)
    requires
        same_shape(g, s),
    ensures
        is_win(g, s) <==> flagged(s) == bombs(g),
{
    if is_win(g, s) {
        assert forall|p: (int, int)| flagged(s).contains(p) == bombs(g).contains(p) by {
            if in_bounds(g, p.0, p.1) {
                assert((s[p.0][p.1] == Visibility::Flagged) <==> g[p.0][p.1] == Cell::Bomb);
            }
        }
        assert(flagged(s) =~= bombs(g));
    }
    if flagged(s) == bombs(g) {
        assert forall|x: int, y: int| in_bounds(g, x, y) implies ((#[trigger] s[x][y]
            == Visibility::Flagged) <==> g[x][y] == Cell::Bomb) by {
            assert(flagged(s).contains((x, y)) == bombs(g).contains((x, y)));
        }
    }
}

/// One bomb without a flag, be it hidden or revealed, or one flag where no
/// bomb lies, and the game is not won.
pub proof fn lemma_mismatch_is_no_win(g: Seq<Seq<Cell>>, s: Seq<Seq<Visibility>>, x: int, y: int)
    requires
        in_bounds(g, x, y),
        (s[x][y] == Visibility::Flagged) != (g[x][y] == Cell::Bomb),
    ensures
        !is_win(g, s),
{
}

/// Whether the game is won.
pub fn check_flag_win_condition(grid: &Grid, seen: &VisibilityState) -> (won: bool)
    requires
        grid.wf(),
        same_shape(grid@, seen@),
    ensures
        won == is_win(grid@, seen@),
{
    let width = grid.width();
    let height = grid.height();
    let mut x: usize = 0;
    while x < width
        invariant
            x <= width,
            width == grid@.len(),
            height == height_of(grid@),
            grid.wf(),
            same_shape(grid@, seen@),
            forall|i: int, j: int|
                in_bounds(grid@, i, j) && i < x ==> ((#[trigger] seen@[i][j] == Visibility::Flagged)
                    <==> grid@[i][j] == Cell::Bomb),
        decreases width - x,
    {
        let mut y: usize = 0;
        while y < height
            invariant
                x < width,
                y <= height,
                width == grid@.len(),
                height == grid@[x as int].len(),
                same_shape(grid@, seen@),
                forall|i: int, j: int|
                    in_bounds(grid@, i, j) && (i < x || (i == x && j < y)) ==> ((
                    #[trigger] seen@[i][j] == Visibility::Flagged) <==> grid@[i][j] == Cell::Bomb),
            decreases height - y,
        {
            let flag = seen.get(x, y) == Visibility::Flagged;
            let bomb = grid.get(x, y) == Cell::Bomb;
            // A flag without a bomb
            if flag && !bomb {
                return false;
            }
            // A bomb without a flag
            if !flag && bomb {
                return false;
            }
            y += 1;
        }
        x += 1;
    }
    true
}

} // verus!
