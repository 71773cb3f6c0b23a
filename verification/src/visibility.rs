//! What the player sees of each board position.

use vstd::prelude::*;
use crate::geometry::{height_of, in_bounds, rectangular, replaced, same_shape, shaped};
use crate::grid::Grid;

verus! {

/// How a position shows to the player.
#[derive(Clone, Copy, Debug, PartialEq, Eq, Structural)]
pub enum Visibility {
    /// Untouched.
    Hidden,
    /// Marked by the player as a suspected bomb.
    Flagged,
    /// Uncovered.
    Revealed,
}

/// Every position of `s` is hidden.
pub open spec fn all_hidden(s: Seq<Seq<Visibility>>) -> bool {
    forall|x: int, y: int| in_bounds(s, x, y) ==> (#[trigger] s[x][y]) == Visibility::Hidden
}

/// The visibility of every position. `seen@[x][y]` belongs to `(x, y)`.
#[derive(Debug, PartialEq, Eq)]
pub struct VisibilityState {
    rows: Vec<Vec<Visibility>>,
}

impl View for VisibilityState {
    type V = Seq<Seq<Visibility>>;

    closed spec fn view(&self) -> Seq<Seq<Visibility>> {
        Seq::new(self.rows@.len(), |x: int| self.rows@[x]@)
    }
}

impl VisibilityState {
    /// The representation invariant: the board is a rectangle.
    pub open spec fn wf(&self) -> bool {
        rectangular(self@)
    }

    /// A board of `width` rows of `height` positions, all hidden.
    pub fn new(width: usize, height: usize) -> (seen: VisibilityState)
        ensures
            seen.wf(),
            shaped(seen@, width as int, height as int),
            all_hidden(seen@),
    {
        let mut rows: Vec<Vec<Visibility>> = Vec::new();
        let mut x: usize = 0;
        while x < width
            invariant
                x <= width,
                rows@.len() == x,
                forall|i: int| 0 <= i < x ==> (#[trigger] rows@[i])@.len() == height,
                forall|i: int, j: int|
                    0 <= i < x && 0 <= j < height ==> (#[trigger] rows@[i]@[j])
                        == Visibility::Hidden,
            decreases width - x,
        {
            let mut row: Vec<Visibility> = Vec::new();
            let mut y: usize = 0;
            while y < height
                invariant
                    y <= height,
                    row@.len() == y,
                    forall|j: int| 0 <= j < y ==> (#[trigger] row@[j]) == Visibility::Hidden,
                decreases height - y,
            {
                row.push(Visibility::Hidden);
                y += 1;
            }
            rows.push(row);
            x += 1;
        }
        VisibilityState { rows }
    }

    /// The number of rows.
    pub fn width(&self) -> (w: usize)
        ensures
            w == self@.len(),
    {
        self.rows.len()
    }

    /// The length of the first row, which on a rectangle is that of each
    /// row; zero for a board without rows.
    pub fn height(&self) -> (h: usize)
        ensures
            h == height_of(self@),
    {
        if self.rows.len() == 0 {
            0
        } else {
            self.rows[0].len()
        }
    }

    /// Whether this is the visibility of a board of the size of `grid`.
    pub fn covers(&self, grid: &Grid) -> (same: bool)
        requires
            self.wf(),
            grid.wf(),
        ensures
            same == same_shape(grid@, self@),
    {
        if self.width() != grid.width() {
            return false;
        }
        if self.width() == 0 {
            return true;
        }
        let same = self.height() == grid.height();
        proof {
            if same {
                assert forall|x: int| 0 <= x < grid@.len() implies (#[trigger] grid@[x]).len()
                    == self@[x].len() by {
                    assert(self@[x].len() == height_of(self@));
                }
            }
        }
        same
    }

    /// Whether `(x, y)` names a position of the board.
    pub fn contains(&self, x: usize, y: usize) -> (inside: bool)
        ensures
            inside == in_bounds(self@, x as int, y as int),
    {
        x < self.rows.len() && y < self.rows[x].len()
    }

    /// The visibility of `(x, y)`.
    pub fn get(&self, x: usize, y: usize) -> (state: Visibility)
        requires
            in_bounds(self@, x as int, y as int),
        ensures
            state == self@[x as int][y as int],
    {
        self.rows[x][y]
    }

    /// Overwrites the visibility of `(x, y)`.
    pub fn set(&mut self, x: usize, y: usize, state: Visibility)
        requires
            in_bounds(old(self)@, x as int, y as int),
        ensures
            final(self)@ == replaced(old(self)@, x as int, y as int, state),
    {
        self.rows[x][y] = state;
    }
}

} // verus!
