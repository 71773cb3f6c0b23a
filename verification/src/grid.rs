//! The grid model: a rectangular board of cells, each either a bomb or the
//! number of bombs among its up to eight neighbours.

use vstd::prelude::*;
use vstd::set_lib::lemma_len_subset;
use crate::geometry::{
    height_of, in_bounds, lemma_positions_len, positions, rectangular, replaced, shaped,
};

verus! {

/// What a board position holds.
#[derive(Clone, Copy, Debug, PartialEq, Eq, Structural)]
pub enum Cell {
    /// A bomb.
    Bomb,
    /// No bomb; the number counts the bombs on the neighbouring positions.
    Count(u8),
}

/// A bomb lies at `(x, y)`. Off the board there is none.
pub open spec fn bomb_at(g: Seq<Seq<Cell>>, x: int, y: int) -> bool {
    in_bounds(g, x, y) && g[x][y] == Cell::Bomb
}

/// What `(x, y)` adds to the count of a position next to it.
pub open spec fn bomb_weight(g: Seq<Seq<Cell>>, x: int, y: int) -> int {
    if bomb_at(g, x, y) {
        1
    } else {
        0
    }
}

/// The number of bombs on the up to eight positions around `(x, y)`.
pub open spec fn bomb_neighbors(g: Seq<Seq<Cell>>, x: int, y: int) -> int {
    bomb_weight(g, x - 1, y - 1) + bomb_weight(g, x - 1, y) + bomb_weight(g, x - 1, y + 1)
        + bomb_weight(g, x, y - 1) + bomb_weight(g, x, y + 1) + bomb_weight(g, x + 1, y - 1)
        + bomb_weight(g, x + 1, y) + bomb_weight(g, x + 1, y + 1)
}

/// Every position without a bomb holds the number of bombs around it.
pub open spec fn counts_exact(g: Seq<Seq<Cell>>) -> bool {
    forall|x: int, y: int|
        in_bounds(g, x, y) ==> (g[x][y] matches Cell::Count(n) ==> n == #[trigger] bomb_neighbors(
            g,
            x,
            y,
        ))
}

/// The positions that hold a bomb.
pub open spec fn bombs(g: Seq<Seq<Cell>>) -> Set<(int, int)> {
    Set::new(|p: (int, int)| bomb_at(g, p.0, p.1))
}

/// A rectangular board holds finitely many bombs, no more than it has
/// positions.
pub proof fn lemma_bombs_finite(g: Seq<Seq<Cell>>)
    requires
        rectangular(g),
    ensures
        bombs(g).finite(),
        bombs(g).len() <= g.len() * height_of(g),
{
    let all = positions(g.len() as int, height_of(g) as int);
    lemma_positions_len(g.len(), height_of(g));
    assert forall|p: (int, int)| bombs(g).contains(p) implies all.contains(p) by {
        assert(g[p.0].len() == height_of(g));
    }
    lemma_len_subset(bombs(g), all);
}

/// A rectangular board with fewer bombs than positions has a position
/// without a bomb.
pub proof fn lemma_free_position(g: Seq<Seq<Cell>>)
    requires
        rectangular(g),
        bombs(g).len() < g.len() * height_of(g),
    ensures
        exists|x: int, y: int| in_bounds(g, x, y) && #[trigger] g[x][y] != Cell::Bomb,
{
    let all = positions(g.len() as int, height_of(g) as int);
    lemma_positions_len(g.len(), height_of(g));
    if forall|x: int, y: int| in_bounds(g, x, y) ==> #[trigger] g[x][y] == Cell::Bomb {
        assert forall|p: (int, int)| all.contains(p) implies bombs(g).contains(p) by {
            assert(g[p.0][p.1] == Cell::Bomb);
        }
        assert forall|p: (int, int)| bombs(g).contains(p) implies all.contains(p) by {
            assert(g[p.0].len() == height_of(g));
        }
        assert(bombs(g) =~= all);
    }
}

/// The board's cells. `grid@[x][y]` is the cell at `(x, y)`.
#[derive(Debug, PartialEq, Eq)]
pub struct Grid {
    rows: Vec<Vec<Cell>>,
}

impl View for Grid {
    type V = Seq<Seq<Cell>>;

    closed spec fn view(&self) -> Seq<Seq<Cell>> {
        Seq::new(self.rows@.len(), |x: int| self.rows@[x]@)
    }
}

impl Grid {
    /// The invariant of a board: it is a rectangle, and every position
    /// without a bomb holds the number of bombs around it.
    pub open spec fn wf(&self) -> bool {
        rectangular(self@) && counts_exact(self@)
    }

    /// The board fits the machine: no side is longer than `usize::MAX`.
    pub proof fn lemma_fits(&self)
        ensures
            self@.len() <= usize::MAX,
            forall|x: int| 0 <= x < self@.len() ==> (#[trigger] self@[x]).len() <= usize::MAX,
    {
        assert(self.rows.len() == self.rows@.len());
        assert forall|x: int| 0 <= x < self@.len() implies (#[trigger] self@[x]).len()
            <= usize::MAX by {
            assert(self.rows@[x].len() == self.rows@[x]@.len());
        }
    }

    /// A board of `width` rows of `height` cells, without any bomb.
    pub fn new(width: usize, height: usize) -> (grid: Grid)
        ensures
            grid.wf(),
            shaped(grid@, width as int, height as int),
            forall|x: int, y: int|
                0 <= x < width && 0 <= y < height ==> (#[trigger] grid@[x][y]) == Cell::Count(0),
            bombs(grid@) == Set::<(int, int)>::empty(),
    {
        let mut rows: Vec<Vec<Cell>> = Vec::new();
        let mut x: usize = 0;
        while x < width
            invariant
                x <= width,
                rows@.len() == x,
                forall|i: int| 0 <= i < x ==> (#[trigger] rows@[i])@.len() == height,
                forall|i: int, j: int|
                    0 <= i < x && 0 <= j < height ==> (#[trigger] rows@[i]@[j]) == Cell::Count(0),
            decreases width - x,
        {
            let mut row: Vec<Cell> = Vec::new();
            let mut y: usize = 0;
            while y < height
                invariant
                    y <= height,
                    row@.len() == y,
                    forall|j: int| 0 <= j < y ==> (#[trigger] row@[j]) == Cell::Count(0),
                decreases height - y,
            {
                row.push(Cell::Count(0));
                y += 1;
            }
            rows.push(row);
            x += 1;
        }
        let grid = Grid { rows };
        grid
    }

    /// The number of rows.
    pub fn width(&self) -> (w: usize)
        ensures
            w == self@.len(),
    {
        self.rows.len()
    }

    /// The length of the first row, which on a rectangle is that of each
    /// row; zero for a board without rows.
    pub fn height(&self) -> (h: usize)
        ensures
            h == height_of(self@),
    {
        if self.rows.len() == 0 {
            0
        } else {
            self.rows[0].len()
        }
    }

    /// Whether `(x, y)` names a position of the board.
    pub fn contains(&self, x: usize, y: usize) -> (inside: bool)
        ensures
            inside == in_bounds(self@, x as int, y as int),
    {
        x < self.rows.len() && y < self.rows[x].len()
    }

    /// The cell at `(x, y)`.
    pub fn get(&self, x: usize, y: usize) -> (cell: Cell)
        requires
            in_bounds(self@, x as int, y as int),
        ensures
            cell == self@[x as int][y as int],
    {
        self.rows[x][y]
    }

    /// Overwrites the cell at `(x, y)`.
    pub(crate) fn set(&mut self, x: usize, y: usize, cell: Cell)
        requires
            in_bounds(old(self)@, x as int, y as int),
        ensures
            final(self)@ == replaced(old(self)@, x as int, y as int, cell),
    {
        self.rows[x][y] = cell;
    }
}

} // verus!
