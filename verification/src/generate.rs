//! The board generator: bombs dropped on random free positions, each one
//! raising the counts around it.

use vstd::prelude::*;
use crate::geometry::{
    adjacent, height_of, in_bounds, rectangular, replaced, same_shape, shaped,
};
use crate::grid::{
    bomb_at, bomb_neighbors, bombs, counts_exact, lemma_bombs_finite, lemma_free_position, Cell,
    Grid,
};
use crate::random::gen_range;
use crate::visibility::{all_hidden, VisibilityState};

verus! {

/// How many positions `gen_board` draws at random for one bomb before it
/// gives up drawing and takes the first free position. The limit is there for
/// the loop to have an end; no game comes near it.
pub const DRAW_LIMIT: u64 = 0xffff_ffff_ffff_ffff;

/// Why no board was generated.
#[derive(Clone, Copy, Debug, PartialEq, Eq, Structural)]
pub enum GenError {
    /// The board has fewer positions than bombs were asked for.
    TooManyBombs,
}

/// `g` with the count at `(x, y)` raised by one. A bomb stays a bomb, and off
/// the board nothing changes.
pub open spec fn bumped(g: Seq<Seq<Cell>>, x: int, y: int) -> Seq<Seq<Cell>> {
    if in_bounds(g, x, y) {
        match g[x][y] {
            Cell::Bomb => g,
            Cell::Count(n) => replaced(g, x, y, Cell::Count((n + 1) as u8)),
        }
    } else {
        g
    }
}

/// `g` with a bomb dropped on `(x, y)`: the counts on the positions around it
/// are raised by one.
pub open spec fn with_bomb(g: Seq<Seq<Cell>>, x: int, y: int) -> Seq<Seq<Cell>> {
    Seq::new(
        g.len(),
        |i: int|
            Seq::new(
                g[i].len(),
                |j: int|
                    if i == x && j == y {
                        Cell::Bomb
                    } else if adjacent(x, y, i, j) {
                        match g[i][j] {
                            Cell::Bomb => Cell::Bomb,
                            Cell::Count(n) => Cell::Count((n + 1) as u8),
                        }
                    } else {
                        g[i][j]
                    },
            ),
    )
}

/// `(x1, y1)` comes before `(x2, y2)` when the board is read row by row.
pub open spec fn scans_before(x1: int, y1: int, x2: int, y2: int) -> bool {
    x1 < x2 || (x1 == x2 && y1 < y2)
}

/// After a bomb is dropped on `(x, y)`, the bombs are those from before and
/// the one on `(x, y)`.
proof fn lemma_bomb_at_after(g: Seq<Seq<Cell>>, x: int, y: int, i: int, j: int)
    requires
        in_bounds(g, x, y),
    ensures
        bomb_at(with_bomb(g, x, y), i, j) == (bomb_at(g, i, j) || (i == x && j == y)),
{
}

/// A bomb dropped on a free position of a board whose counts are right leaves
/// the counts right, and is the one bomb that the board gains.
pub proof fn lemma_with_bomb(g: Seq<Seq<Cell>>, x: int, y: int)
    requires
        counts_exact(g),
        in_bounds(g, x, y),
        g[x][y] != Cell::Bomb,
    ensures
        counts_exact(with_bomb(g, x, y)),
        bombs(with_bomb(g, x, y)) == bombs(g).insert((x, y)),
        same_shape(g, with_bomb(g, x, y)),
        rectangular(g) ==> rectangular(with_bomb(g, x, y)),
{
    let after = with_bomb(g, x, y);
    if rectangular(g) {
        assert forall|i: int| 0 <= i < after.len() implies (#[trigger] after[i]).len()
            == height_of(after) by {
            assert(g[0].len() == height_of(g));
        }
    }
    assert forall|i: int, j: int|
        in_bounds(after, i, j) && (#[trigger] after[i][j]) is Count implies after[i][j]->0
        == bomb_neighbors(after, i, j) by {
        lemma_bomb_at_after(g, x, y, i - 1, j - 1);
        lemma_bomb_at_after(g, x, y, i - 1, j);
        lemma_bomb_at_after(g, x, y, i - 1, j + 1);
        lemma_bomb_at_after(g, x, y, i, j - 1);
        lemma_bomb_at_after(g, x, y, i, j + 1);
        lemma_bomb_at_after(g, x, y, i + 1, j - 1);
        lemma_bomb_at_after(g, x, y, i + 1, j);
        lemma_bomb_at_after(g, x, y, i + 1, j + 1);
        if adjacent(x, y, i, j) {
            assert(bomb_neighbors(after, i, j) == bomb_neighbors(g, i, j) + 1);
        } else {
            assert(bomb_neighbors(after, i, j) == bomb_neighbors(g, i, j));
        }
    }
}

/// Raises the count at `(xc, yc)` by one. Nothing happens where `(xc, yc)` is
/// off the board or holds a bomb.
pub(crate) fn incr_counter(grid: &mut Grid, xc: usize, yc: usize)
    requires
        in_bounds(old(grid)@, xc as int, yc as int) ==> (old(grid)@[xc as int][yc as int] matches
        Cell::Count(n) ==> n < u8::MAX),
    ensures
        final(grid)@ == bumped(old(grid)@, xc as int, yc as int),
{
    if !grid.contains(xc, yc) {
        return ;
    }
    match grid.get(xc, yc) {
        Cell::Bomb => {},
        Cell::Count(n) => {
            grid.set(xc, yc, Cell::Count(n + 1));
        },
    }
}

/// Where the `k`-th position around a bomb lies, seen from the bomb, in the
/// order in which `place_bomb` raises the counts.
spec fn around(k: int) -> (int, int) {
    if k == 0 {
        (-1, 0)
    } else if k == 1 {
        (-1, 1)
    } else if k == 2 {
        (-1, -1)
    } else if k == 3 {
        (1, -1)
    } else if k == 4 {
        (0, -1)
    } else if k == 5 {
        (1, 0)
    } else if k == 6 {
        (1, 1)
    } else {
        (0, 1)
    }
}

/// The place in that order of the position at `(dx, dy)` from the bomb.
spec fn turn(dx: int, dy: int) -> int {
    if dx == -1 {
        if dy == 0 {
            0
        } else if dy == 1 {
            1
        } else {
            2
        }
    } else if dx == 0 {
        if dy == -1 {
            4
        } else {
            7
        }
    } else {
        if dy == -1 {
            3
        } else if dy == 0 {
            5
        } else {
            6
        }
    }
}

/// The board while a bomb is dropped on `(x, y)`: the bomb lies, and the
/// first `k` positions around it have their counts raised.
spec fn dropping(g: Seq<Seq<Cell>>, x: int, y: int, k: int) -> Seq<Seq<Cell>> {
    Seq::new(
        g.len(),
        |i: int|
            Seq::new(
                g[i].len(),
                |j: int|
                    if i == x && j == y {
                        Cell::Bomb
                    } else if adjacent(x, y, i, j) && turn(i - x, j - y) < k {
                        match g[i][j] {
                            Cell::Bomb => Cell::Bomb,
                            Cell::Count(n) => Cell::Count((n + 1) as u8),
                        }
                    } else {
                        g[i][j]
                    },
            ),
    )
}

/// Raising the count of the `k`-th position around the bomb takes the drop
/// one step on, and the count has room for it.
proof fn lemma_dropping_step(g: Seq<Seq<Cell>>, x: int, y: int, k: int)
    requires
        in_bounds(g, x, y),
        0 <= k < 8,
        counts_exact(g),
    ensures
        ({
            let now = dropping(g, x, y, k);
            let nx = x + around(k).0;
            let ny = y + around(k).1;
            &&& bumped(now, nx, ny) == dropping(g, x, y, k + 1)
            &&& in_bounds(now, nx, ny) == in_bounds(g, nx, ny)
            &&& in_bounds(now, nx, ny) ==> (now[nx][ny] matches Cell::Count(n) ==> n < u8::MAX)
        }),
{
    let now = dropping(g, x, y, k);
    let next = dropping(g, x, y, k + 1);
    let nx = x + around(k).0;
    let ny = y + around(k).1;
    let raised = bumped(now, nx, ny);
    assert(in_bounds(g, nx, ny) && g[nx][ny] is Count ==> g[nx][ny]->0 == bomb_neighbors(
        g,
        nx,
        ny,
    ));
    assert forall|i: int| 0 <= i < next.len() implies #[trigger] raised[i] =~= next[i] by {
        assert forall|j: int| 0 <= j < next[i].len() implies raised[i][j] == next[i][j] by {
            if i == nx && j == ny {
                assert(adjacent(x, y, i, j));
            } else if adjacent(x, y, i, j) {
                assert(turn(i - x, j - y) != k);
            }
        }
    }
}

/// A drop begins with the bomb laid down and ends with all counts around it
/// raised.
proof fn lemma_dropping_ends(g: Seq<Seq<Cell>>, x: int, y: int)
    requires
        in_bounds(g, x, y),
    ensures
        dropping(g, x, y, 0) == replaced(g, x, y, Cell::Bomb),
        dropping(g, x, y, 8) == with_bomb(g, x, y),
{
    assert(dropping(g, x, y, 0) =~~= replaced(g, x, y, Cell::Bomb));
    assert(dropping(g, x, y, 8) =~~= with_bomb(g, x, y));
}

/// Drops a bomb on the free position `(xc, yc)` and raises the counts around
/// it.
pub fn place_bomb(grid: &mut Grid, xc: usize, yc: usize)
    requires
        old(grid).wf(),
        in_bounds(old(grid)@, xc as int, yc as int),
        old(grid)@[xc as int][yc as int] != Cell::Bomb,
    ensures
        final(grid).wf(),
        final(grid)@ == with_bomb(old(grid)@, xc as int, yc as int),
        bombs(final(grid)@) == bombs(old(grid)@).insert((xc as int, yc as int)),
        same_shape(old(grid)@, final(grid)@),
{
    let ghost g = grid@;
    let ghost x = xc as int;
    let ghost y = yc as int;
    proof {
        grid.lemma_fits();
        lemma_with_bomb(g, x, y);
        lemma_dropping_ends(g, x, y);
        lemma_dropping_step(g, x, y, 0);
        lemma_dropping_step(g, x, y, 1);
        lemma_dropping_step(g, x, y, 2);
        lemma_dropping_step(g, x, y, 3);
        lemma_dropping_step(g, x, y, 4);
        lemma_dropping_step(g, x, y, 5);
        lemma_dropping_step(g, x, y, 6);
        lemma_dropping_step(g, x, y, 7);
    }
    grid.set(xc, yc, Cell::Bomb);
    if xc > 0 {
        incr_counter(grid, xc - 1, yc);
        incr_counter(grid, xc - 1, yc + 1);
    }
    if xc > 0 && yc > 0 {
        incr_counter(grid, xc - 1, yc - 1);
    }
    if yc > 0 {
        incr_counter(grid, xc + 1, yc - 1);
        incr_counter(grid, xc, yc - 1);
    }
    incr_counter(grid, xc + 1, yc);
    incr_counter(grid, xc + 1, yc + 1);
    incr_counter(grid, xc, yc + 1);
}

/// Drops a bomb on `(xc, yc)` if that is a free position of the board, and
/// says whether it did. A position that holds a bomb already, or lies off the
/// board, is turned down, and nothing changes.
pub fn try_place_bomb(grid: &mut Grid, xc: usize, yc: usize) -> (placed: bool)
    requires
        old(grid).wf(),
    ensures
        final(grid).wf(),
        placed == (in_bounds(old(grid)@, xc as int, yc as int) && old(grid)@[xc as int][yc as int]
            != Cell::Bomb),
        final(grid)@ == if placed {
            with_bomb(old(grid)@, xc as int, yc as int)
        } else {
            old(grid)@
        },
        bombs(final(grid)@) == if placed {
            bombs(old(grid)@).insert((xc as int, yc as int))
        } else {
            bombs(old(grid)@)
        },
        same_shape(old(grid)@, final(grid)@),
{
    if !grid.contains(xc, yc) {
        return false;
    }
    // If there is already a bomb, the caller is to try again
    if grid.get(xc, yc) == Cell::Bomb {
        return false;
    }
    place_bomb(grid, xc, yc);
    true
}

/// The first position without a bomb, reading the board row by row; `None`
/// where every position holds a bomb.
pub fn first_free(grid: &Grid) -> (found: Option<(usize, usize)>)
    requires
        grid.wf(),
    ensures
        match found {
            Some((x, y)) => {
                &&& in_bounds(grid@, x as int, y as int)
                &&& grid@[x as int][y as int] != Cell::Bomb
                &&& forall|i: int, j: int|
                    in_bounds(grid@, i, j) && scans_before(i, j, x as int, y as int)
                        ==> #[trigger] grid@[i][j] == Cell::Bomb
            },
            None => forall|i: int, j: int|
                in_bounds(grid@, i, j) ==> #[trigger] grid@[i][j] == Cell::Bomb,
        },
{
    let width = grid.width();
    let height = grid.height();
    let mut x: usize = 0;
    while x < width
        invariant
            x <= width,
            width == grid@.len(),
            height == height_of(grid@),
            rectangular(grid@),
            forall|i: int, j: int|
                in_bounds(grid@, i, j) && i < x ==> #[trigger] grid@[i][j] == Cell::Bomb,
        decreases width - x,
    {
        let mut y: usize = 0;
        while y < height
            invariant
                x < width,
                y <= height,
                width == grid@.len(),
                height == grid@[x as int].len(),
                forall|i: int, j: int|
                    in_bounds(grid@, i, j) && scans_before(i, j, x as int, y as int)
                        ==> #[trigger] grid@[i][j] == Cell::Bomb,
            decreases height - y,
        {
            if grid.get(x, y) != Cell::Bomb {
                return Some((x, y));
            }
            y += 1;
        }
        x += 1;
    }
    None
}

/// A board of `x` rows of `y` positions with `nbombs` bombs on positions
/// picked at random, and the visibility to go with it, all hidden.
///
/// For each bomb a position is drawn until one without a bomb comes up. After
/// `DRAW_LIMIT` draws for one bomb, the first free position is taken.
pub fn gen_board(x: usize, y: usize, nbombs: usize) -> (board: Result<
    (Grid, VisibilityState),
    GenError,
>)
    ensures
        board is Ok <==> nbombs <= x * y,
        board matches Ok((grid, seen)) ==> {
            &&& grid.wf()
            &&& shaped(grid@, x as int, y as int)
            &&& counts_exact(grid@)
            &&& bombs(grid@).finite()
            &&& bombs(grid@).len() == nbombs
            &&& seen.wf()
            &&& shaped(seen@, x as int, y as int)
            &&& all_hidden(seen@)
        },
        board matches Err(e) ==> e == GenError::TooManyBombs,
{
    let fits = match x.checked_mul(y) {
        Some(cells) => nbombs <= cells,
        None => true,
    };
    if !fits {
        return Err(GenError::TooManyBombs);
    }
    let mut grid = Grid::new(x, y);
    let seen = VisibilityState::new(x, y);
    let mut rng = rand::thread_rng();
    let mut placed: usize = 0;
    while placed < nbombs
        invariant
            placed <= nbombs <= x * y,
            grid.wf(),
            shaped(grid@, x as int, y as int),
            bombs(grid@).len() == placed,
        decreases nbombs - placed,
    {
        assert(x > 0 && y > 0) by (nonlinear_arith)
            requires
                placed < x * y,
        ;
        let mut dropped = false;
        let mut draws: u64 = 0;
        while !dropped && draws < DRAW_LIMIT
            invariant
                x > 0 && y > 0,
                grid.wf(),
                shaped(grid@, x as int, y as int),
                bombs(grid@).len() == if dropped {
                    placed + 1
                } else {
                    placed as int
                },
            decreases DRAW_LIMIT - draws,
        {
            let xc = gen_range(&mut rng, 0, x);
            let yc = gen_range(&mut rng, 0, y);
            proof {
                lemma_bombs_finite(grid@);
            }
            dropped = try_place_bomb(&mut grid, xc, yc);
            draws += 1;
        }
        if !dropped {
            // The board holds fewer bombs than positions, so one is free
            proof {
                lemma_bombs_finite(grid@);
                lemma_free_position(grid@);
            }
            if let Some((xc, yc)) = first_free(&grid) {
                place_bomb(&mut grid, xc, yc);
            }
        }
        placed += 1;
    }
    proof {
        lemma_bombs_finite(grid@);
    }
    Ok((grid, seen))
}

} // verus!
