//! The reveal engine: uncovering a position and, where no bomb touches it,
//! everything around it, and so on outwards.

use vstd::prelude::*;
use vstd::set_lib::lemma_len_subset;
use crate::geometry::{
    adjacent, height_of, in_bounds, lemma_positions_len, positions, rectangular, replaced,
    same_shape,
};
use crate::grid::{bomb_at, bomb_neighbors, counts_exact, Cell, Grid};
use crate::visibility::{Visibility, VisibilityState};

verus! {

/// A reveal of `(x, y)` goes on to the positions around it: no bomb touches
/// `(x, y)`, and it has not been revealed before.
pub open spec fn spreads(g: Seq<Seq<Cell>>, s: Seq<Seq<Visibility>>, x: int, y: int) -> bool {
    &&& in_bounds(g, x, y)
    &&& g[x][y] == Cell::Count(0)
    &&& s[x][y] != Visibility::Revealed
}

/// The reveal moves on from `path[k]` to `path[k + 1]`.
pub open spec fn cascade_step(
    g: Seq<Seq<Cell>>,
    s: Seq<Seq<Visibility>>,
    path: Seq<(int, int)>,
    k: int,
) -> bool {
    &&& spreads(g, s, path[k].0, path[k].1)
    &&& adjacent(path[k].0, path[k].1, path[k + 1].0, path[k + 1].1)
}

/// `path` is a way that a reveal takes over the board: it stays on the board,
/// each position touches the next, and the reveal spreads from every position
/// but the last.
pub open spec fn cascade_path(
    g: Seq<Seq<Cell>>,
    s: Seq<Seq<Visibility>>,
    path: Seq<(int, int)>,
) -> bool {
    &&& path.len() > 0
    &&& forall|k: int| 0 <= k < path.len() ==> in_bounds(g, (#[trigger] path[k]).0, path[k].1)
    &&& forall|k: int| 0 <= k < path.len() - 1 ==> #[trigger] cascade_step(g, s, path, k)
}

/// A reveal of `(x0, y0)` gets as far as `(x, y)`.
pub open spec fn reaches(
    g: Seq<Seq<Cell>>,
    s: Seq<Seq<Visibility>>,
    x0: int,
    y0: int,
    x: int,
    y: int,
) -> bool {
    exists|path: Seq<(int, int)>|
        #[trigger] cascade_path(g, s, path) && path.first() == (x0, y0) && path.last() == (x, y)
}

/// The visibility after a reveal of `(x0, y0)`: untouched where `(x0, y0)` was
/// revealed before; else every position that the reveal reaches is revealed,
/// and the others are as they were.
pub open spec fn uncovered(
    g: Seq<Seq<Cell>>,
    s: Seq<Seq<Visibility>>,
    x0: int,
    y0: int,
) -> Seq<Seq<Visibility>> {
    if s[x0][y0] == Visibility::Revealed {
        s
    } else {
        Seq::new(
            s.len(),
            |x: int|
                Seq::new(
                    s[x].len(),
                    |y: int|
                        if reaches(g, s, x0, y0, x, y) {
                            Visibility::Revealed
                        } else {
                            s[x][y]
                        },
                ),
        )
    }
}

/// `s` with `(x, y)` revealed.
spec fn marked(s: Seq<Seq<Visibility>>, x: int, y: int) -> Seq<Seq<Visibility>> {
    replaced(s, x, y, Visibility::Revealed)
}

/// The positions of `s` that are not revealed.
spec fn unrevealed(s: Seq<Seq<Visibility>>) -> Set<(int, int)> {
    Set::new(|p: (int, int)| in_bounds(s, p.0, p.1) && s[p.0][p.1] != Visibility::Revealed)
}

/// Every position around `(x, y)` is revealed.
pub open spec fn surrounded(g: Seq<Seq<Cell>>, s: Seq<Seq<Visibility>>, x: int, y: int) -> bool {
    forall|nx: int, ny: int|
        #[trigger] adjacent(x, y, nx, ny) && in_bounds(g, nx, ny) ==> s[nx][ny]
            == Visibility::Revealed
}

/// `(x, y)` still waits for its surroundings to be revealed: it is in the
/// worklist, or it is the position in hand.
spec fn waiting(pending: Seq<(usize, usize)>, cur: Option<(int, int)>, x: int, y: int) -> bool {
    ||| cur == Some((x, y))
    ||| exists|k: int|
        0 <= k < pending.len() && (#[trigger] pending[k]).0 == x && pending[k].1 == y
}

/// What holds while a reveal of `(x0, y0)` is under way, from `s0` to `s`.
spec fn filling(
    g: Seq<Seq<Cell>>,
    s0: Seq<Seq<Visibility>>,
    s: Seq<Seq<Visibility>>,
    pending: Seq<(usize, usize)>,
    cur: Option<(int, int)>,
    x0: int,
    y0: int,
) -> bool {
    &&& rectangular(g)
    &&& same_shape(g, s0)
    &&& same_shape(g, s)
    &&& in_bounds(g, x0, y0)
    &&& s0[x0][y0] != Visibility::Revealed
    &&& s[x0][y0] == Visibility::Revealed
    &&& forall|x: int, y: int|
        in_bounds(g, x, y) ==> #[trigger] s[x][y] == s0[x][y] || (s[x][y] == Visibility::Revealed
            && reaches(g, s0, x0, y0, x, y))
    &&& forall|x: int, y: int|
        #[trigger] spreads(g, s0, x, y) && s[x][y] == Visibility::Revealed ==> waiting(
            pending,
            cur,
            x,
            y,
        ) || surrounded(g, s, x, y)
    &&& forall|x: int, y: int| #[trigger]
        waiting(pending, cur, x, y) ==> spreads(g, s0, x, y) && s[x][y] == Visibility::Revealed
}

/// Only finitely many positions are left to reveal.
proof fn lemma_unrevealed_finite(s: Seq<Seq<Visibility>>)
    requires
        rectangular(s),
    ensures
        unrevealed(s).finite(),
{
    let all = positions(s.len() as int, height_of(s) as int);
    lemma_positions_len(s.len(), height_of(s));
    assert forall|p: (int, int)| unrevealed(s).contains(p) implies all.contains(p) by {
        assert(s[p.0].len() == height_of(s));
    }
    lemma_len_subset(unrevealed(s), all);
}

/// A reveal reaches the position that it starts from.
pub proof fn lemma_reaches_start(g: Seq<Seq<Cell>>, s: Seq<Seq<Visibility>>, x0: int, y0: int)
    requires
        in_bounds(g, x0, y0),
    ensures
        reaches(g, s, x0, y0, x0, y0),
{
    let path = seq![(x0, y0)];
    assert(cascade_path(g, s, path));
}

/// From a position that it reaches and spreads from, a reveal reaches every
/// position around.
pub proof fn lemma_reaches_next(
    g: Seq<Seq<Cell>>,
    s: Seq<Seq<Visibility>>,
    x0: int,
    y0: int,
    x: int,
    y: int,
    nx: int,
    ny: int,
)
    requires
        reaches(g, s, x0, y0, x, y),
        spreads(g, s, x, y),
        adjacent(x, y, nx, ny),
        in_bounds(g, nx, ny),
    ensures
        reaches(g, s, x0, y0, nx, ny),
{
    let path = choose|path: Seq<(int, int)>|
        #[trigger] cascade_path(g, s, path) && path.first() == (x0, y0) && path.last() == (x, y);
    let longer = path.push((nx, ny));
    assert forall|k: int| 0 <= k < longer.len() - 1 implies #[trigger] cascade_step(
        g,
        s,
        longer,
        k,
    ) by {
        if k < path.len() - 1 {
            assert(cascade_step(g, s, path, k));
        }
    }
    assert(cascade_path(g, s, longer));
}

/// Revealing one more position around the one in hand keeps the reveal in
/// order, and uses up what the worklist gains.
proof fn lemma_visit(
    g: Seq<Seq<Cell>>,
    s0: Seq<Seq<Visibility>>,
    s: Seq<Seq<Visibility>>,
    pending: Seq<(usize, usize)>,
    cur: (int, int),
    x0: int,
    y0: int,
    nx: usize,
    ny: usize,
)
    requires
        filling(g, s0, s, pending, Some(cur), x0, y0),
        adjacent(cur.0, cur.1, nx as int, ny as int),
        in_bounds(g, nx as int, ny as int),
    ensures
        ({
            let after = marked(s, nx as int, ny as int);
            let queue = if spreads(g, s, nx as int, ny as int) {
                pending.push((nx, ny))
            } else {
                pending
            };
            &&& filling(g, s0, after, queue, Some(cur), x0, y0)
            &&& unrevealed(s).finite()
            &&& unrevealed(after).finite()
            &&& unrevealed(after).len() + queue.len() <= unrevealed(s).len() + pending.len()
        }),
{
    let after = marked(s, nx as int, ny as int);
    let fresh = spreads(g, s, nx as int, ny as int);
    let queue = if fresh {
        pending.push((nx, ny))
    } else {
        pending
    };
    assert(waiting(pending, Some(cur), cur.0, cur.1));
    lemma_reaches_next(g, s0, x0, y0, cur.0, cur.1, nx as int, ny as int);
    assert(rectangular(s)) by {
        assert forall|x: int| 0 <= x < s.len() implies (#[trigger] s[x]).len() == height_of(s) by {
            assert(g[x].len() == height_of(g));
        }
    }
    assert(rectangular(after)) by {
        assert forall|x: int| 0 <= x < after.len() implies (#[trigger] after[x]).len()
            == height_of(after) by {
            assert(s[0].len() == height_of(s));
        }
    }
    assert forall|x: int, y: int| #[trigger] waiting(pending, Some(cur), x, y) implies waiting(
        queue,
        Some(cur),
        x,
        y,
    ) by {
        if Some(cur) != Some((x, y)) {
            let k = choose|k: int|
                0 <= k < pending.len() && (#[trigger] pending[k]).0 == x && pending[k].1 == y;
            assert(queue[k] == pending[k]);
        }
    }
    assert forall|x: int, y: int| #[trigger]
        waiting(queue, Some(cur), x, y) implies spreads(g, s0, x, y) && after[x][y]
        == Visibility::Revealed by {
        if !waiting(pending, Some(cur), x, y) {
            let k = choose|k: int|
                0 <= k < queue.len() && (#[trigger] queue[k]).0 == x && queue[k].1 == y;
            if k < pending.len() {
                assert(pending[k] == queue[k]);
            }
        }
    }
    assert forall|x: int, y: int|
        #[trigger] spreads(g, s0, x, y) && after[x][y] == Visibility::Revealed implies waiting(
        queue,
        Some(cur),
        x,
        y,
    ) || surrounded(g, after, x, y) by {
        if s[x][y] == Visibility::Revealed {
            if !waiting(pending, Some(cur), x, y) {
                assert forall|ax: int, ay: int|
                    #[trigger] adjacent(x, y, ax, ay) && in_bounds(g, ax, ay) implies after[ax][ay]
                    == Visibility::Revealed by {
                    assert(s[ax][ay] == Visibility::Revealed);
                }
            }
        } else {
            assert(queue[pending.len() as int] == (nx, ny));
        }
    }
    lemma_unrevealed_finite(s);
    lemma_unrevealed_finite(after);
    if s[nx as int][ny as int] == Visibility::Revealed {
        assert(after =~~= s);
    } else {
        assert(unrevealed(after) =~= unrevealed(s).remove((nx as int, ny as int)));
    }
}

/// Taking a position out of the worklist into the hand changes nothing.
proof fn lemma_take(
    g: Seq<Seq<Cell>>,
    s0: Seq<Seq<Visibility>>,
    s: Seq<Seq<Visibility>>,
    pending: Seq<(usize, usize)>,
    x0: int,
    y0: int,
)
    requires
        filling(g, s0, s, pending, None, x0, y0),
        pending.len() > 0,
    ensures
        filling(
            g,
            s0,
            s,
            pending.drop_last(),
            Some((pending.last().0 as int, pending.last().1 as int)),
            x0,
            y0,
        ),
{
    let rest = pending.drop_last();
    let cur = Some((pending.last().0 as int, pending.last().1 as int));
    assert forall|x: int, y: int| #[trigger] waiting(pending, None, x, y) implies waiting(
        rest,
        cur,
        x,
        y,
    ) by {
        let k = choose|k: int|
            0 <= k < pending.len() && (#[trigger] pending[k]).0 == x && pending[k].1 == y;
        if k < rest.len() {
            assert(rest[k] == pending[k]);
        }
    }
    assert forall|x: int, y: int| #[trigger] waiting(rest, cur, x, y) implies waiting(
        pending,
        None,
        x,
        y,
    ) by {
        if cur == Some((x, y)) {
            assert(pending[pending.len() - 1] == pending.last());
        } else {
            let k = choose|k: int|
                0 <= k < rest.len() && (#[trigger] rest[k]).0 == x && rest[k].1 == y;
            assert(pending[k] == rest[k]);
        }
    }
}

/// Once everything around the position in hand is revealed, it can be put
/// down.
proof fn lemma_done(
    g: Seq<Seq<Cell>>,
    s0: Seq<Seq<Visibility>>,
    s: Seq<Seq<Visibility>>,
    pending: Seq<(usize, usize)>,
    cur: (int, int),
    x0: int,
    y0: int,
)
    requires
        filling(g, s0, s, pending, Some(cur), x0, y0),
        surrounded(g, s, cur.0, cur.1),
    ensures
        filling(g, s0, s, pending, None, x0, y0),
{
    assert forall|x: int, y: int| #[trigger] waiting(pending, None, x, y) implies waiting(
        pending,
        Some(cur),
        x,
        y,
    ) by {}
    assert forall|x: int, y: int|
        #[trigger] spreads(g, s0, x, y) && s[x][y] == Visibility::Revealed implies waiting(
        pending,
        None,
        x,
        y,
    ) || surrounded(g, s, x, y) by {
        if waiting(pending, Some(cur), x, y) && !waiting(pending, None, x, y) {
            assert(cur == (x, y));
        }
    }
}

/// With nothing left waiting, every position on a way of the reveal is
/// revealed.
proof fn lemma_path_revealed(
    g: Seq<Seq<Cell>>,
    s0: Seq<Seq<Visibility>>,
    s: Seq<Seq<Visibility>>,
    x0: int,
    y0: int,
    path: Seq<(int, int)>,
)
    requires
        filling(g, s0, s, Seq::empty(), None, x0, y0),
        cascade_path(g, s0, path),
        path.first() == (x0, y0),
    ensures
        s[path.last().0][path.last().1] == Visibility::Revealed,
    decreases path.len(),
{
    if path.len() > 1 {
        let shorter = path.drop_last();
        assert forall|k: int| 0 <= k < shorter.len() - 1 implies #[trigger] cascade_step(
            g,
            s0,
            shorter,
            k,
        ) by {
            assert(cascade_step(g, s0, path, k));
        }
        lemma_path_revealed(g, s0, s, x0, y0, shorter);
        assert(cascade_step(g, s0, path, path.len() - 2));
    }
}

/// With nothing left waiting, the reveal is complete.
proof fn lemma_filled(
    g: Seq<Seq<Cell>>,
    s0: Seq<Seq<Visibility>>,
    s: Seq<Seq<Visibility>>,
    x0: int,
    y0: int,
)
    requires
        filling(g, s0, s, Seq::empty(), None, x0, y0),
    ensures
        s == uncovered(g, s0, x0, y0),
{
    let goal = uncovered(g, s0, x0, y0);
    assert forall|x: int, y: int| in_bounds(g, x, y) implies #[trigger] s[x][y] == goal[x][y] by {
        if reaches(g, s0, x0, y0, x, y) {
            let path = choose|path: Seq<(int, int)>|
                #[trigger] cascade_path(g, s0, path) && path.first() == (x0, y0) && path.last()
                    == (x, y);
            lemma_path_revealed(g, s0, s, x0, y0, path);
        }
    }
    assert forall|x: int| 0 <= x < s.len() implies #[trigger] s[x] =~= goal[x] by {
        assert(g[x].len() == s0[x].len());
        assert forall|y: int| 0 <= y < s[x].len() implies s[x][y] == goal[x][y] by {
            assert(in_bounds(g, x, y));
        }
    }
}

/// Revealing a position a second time changes nothing.
pub proof fn lemma_uncover_twice(g: Seq<Seq<Cell>>, s: Seq<Seq<Visibility>>, x0: int, y0: int)
    requires
        same_shape(g, s),
        in_bounds(g, x0, y0),
    ensures
        uncovered(g, uncovered(g, s, x0, y0), x0, y0) == uncovered(g, s, x0, y0),
{
    lemma_reaches_start(g, s, x0, y0);
}

/// `path` runs over positions that no bomb touches, each next to the one
/// before.
pub open spec fn clear_path(g: Seq<Seq<Cell>>, path: Seq<(int, int)>) -> bool {
    &&& path.len() > 0
    &&& forall|k: int|
        0 <= k < path.len() ==> in_bounds(g, (#[trigger] path[k]).0, path[k].1)
            && g[path[k].0][path[k].1] == Cell::Count(0)
    &&& forall|k: int|
        0 <= k < path.len() - 1 ==> #[trigger] adjacent(
            path[k].0,
            path[k].1,
            path[k + 1].0,
            path[k + 1].1,
        )
}

/// `(x, y)` lies in the connected region around `(x0, y0)` of positions that
/// no bomb touches.
pub open spec fn in_clear_region(g: Seq<Seq<Cell>>, x0: int, y0: int, x: int, y: int) -> bool {
    exists|path: Seq<(int, int)>|
        #[trigger] clear_path(g, path) && path.first() == (x0, y0) && path.last() == (x, y)
}

/// `(x, y)` lies in the clear region around `(x0, y0)` or on its border.
pub open spec fn in_opened_area(g: Seq<Seq<Cell>>, x0: int, y0: int, x: int, y: int) -> bool {
    ||| in_clear_region(g, x0, y0, x, y)
    ||| in_bounds(g, x, y) && exists|a: int, b: int|
        in_clear_region(g, x0, y0, a, b) && #[trigger] adjacent(a, b, x, y)
}

/// The start of a clear path is a clear path.
proof fn lemma_clear_prefix(g: Seq<Seq<Cell>>, path: Seq<(int, int)>, n: int)
    requires
        clear_path(g, path),
        0 < n <= path.len(),
    ensures
        clear_path(g, path.take(n)),
        path.take(n).first() == path.first(),
        path.take(n).last() == path[n - 1],
{
    let head = path.take(n);
    assert forall|k: int| 0 <= k < head.len() - 1 implies #[trigger] adjacent(
        head[k].0,
        head[k].1,
        head[k + 1].0,
        head[k + 1].1,
    ) by {
        assert(adjacent(path[k].0, path[k].1, path[k + 1].0, path[k + 1].1));
    }
}

/// A reveal of `(x0, y0)` reaches nothing beyond the clear region around it
/// and the border of that region.
proof fn lemma_reaches_within_area(
    g: Seq<Seq<Cell>>,
    s: Seq<Seq<Visibility>>,
    x0: int,
    y0: int,
    x: int,
    y: int,
)
    requires
        g[x0][y0] == Cell::Count(0),
        reaches(g, s, x0, y0, x, y),
    ensures
        in_opened_area(g, x0, y0, x, y),
{
    let path = choose|path: Seq<(int, int)>|
        #[trigger] cascade_path(g, s, path) && path.first() == (x0, y0) && path.last() == (x, y);
    if path.len() == 1 {
        assert(clear_path(g, path));
    } else {
        let head = path.drop_last();
        assert forall|k: int| 0 <= k < head.len() implies in_bounds(
            g,
            (#[trigger] head[k]).0,
            head[k].1,
        ) && g[head[k].0][head[k].1] == Cell::Count(0) by {
            assert(cascade_step(g, s, path, k));
        }
        assert forall|k: int| 0 <= k < head.len() - 1 implies #[trigger] adjacent(
            head[k].0,
            head[k].1,
            head[k + 1].0,
            head[k + 1].1,
        ) by {
            assert(cascade_step(g, s, path, k));
        }
        assert(clear_path(g, head));
        assert(cascade_step(g, s, path, path.len() - 2));
    }
}

/// Around a position of the clear region that is revealed after the reveal
/// of `(x0, y0)`, everything is revealed after it.
proof fn lemma_revealed_around(
    g: Seq<Seq<Cell>>,
    s: Seq<Seq<Visibility>>,
    x0: int,
    y0: int,
    a: int,
    b: int,
    x: int,
    y: int,
)
    requires
        same_shape(g, s),
        in_bounds(g, x0, y0),
        in_clear_region(g, x0, y0, a, b),
        s[a][b] == Visibility::Revealed ==> surrounded(g, s, a, b),
        uncovered(g, s, x0, y0)[a][b] == Visibility::Revealed,
        in_bounds(g, a, b),
        g[a][b] == Cell::Count(0),
        adjacent(a, b, x, y),
        in_bounds(g, x, y),
    ensures
        uncovered(g, s, x0, y0)[x][y] == Visibility::Revealed,
{
    if s[a][b] != Visibility::Revealed {
        lemma_reaches_next(g, s, x0, y0, a, b, x, y);
    }
}

/// After the reveal of `(x0, y0)`, the end of every clear path from there is
/// revealed.
proof fn lemma_clear_path_revealed(
    g: Seq<Seq<Cell>>,
    s: Seq<Seq<Visibility>>,
    x0: int,
    y0: int,
    path: Seq<(int, int)>,
)
    requires
        same_shape(g, s),
        forall|a: int, b: int|
            #[trigger] in_clear_region(g, x0, y0, a, b) && s[a][b] == Visibility::Revealed
                ==> surrounded(g, s, a, b),
        clear_path(g, path),
        path.first() == (x0, y0),
    ensures
        uncovered(g, s, x0, y0)[path.last().0][path.last().1] == Visibility::Revealed,
    decreases path.len(),
{
    if path.len() == 1 {
        lemma_reaches_start(g, s, x0, y0);
    } else {
        let n = path.len() - 1;
        lemma_clear_prefix(g, path, n);
        let head = path.take(n);
        lemma_clear_path_revealed(g, s, x0, y0, head);
        let k = n - 1;
        let (a, b) = path[k];
        let (x, y) = path[k + 1];
        lemma_revealed_around(g, s, x0, y0, a, b, x, y);
    }
}

/// Flood fill: revealing a position that no bomb touches reveals the whole
/// clear region around it and the border of that region, and leaves every
/// other position as it was. This holds where each position of the region
/// that is revealed beforehand has everything around it revealed as well, as
/// earlier reveals leave it.
pub proof fn lemma_uncover_floods(
    g: Seq<Seq<Cell>>,
    s: Seq<Seq<Visibility>>,
    x0: int,
    y0: int,
    x: int,
    y: int,
)
    requires
        same_shape(g, s),
        in_bounds(g, x0, y0),
        g[x0][y0] == Cell::Count(0),
        forall|a: int, b: int|
            #[trigger] in_clear_region(g, x0, y0, a, b) && s[a][b] == Visibility::Revealed
                ==> surrounded(g, s, a, b),
        in_bounds(g, x, y),
    ensures
        uncovered(g, s, x0, y0)[x][y] == if in_opened_area(g, x0, y0, x, y) {
            Visibility::Revealed
        } else {
            s[x][y]
        },
{
    if in_clear_region(g, x0, y0, x, y) {
        let path = choose|path: Seq<(int, int)>|
            #[trigger] clear_path(g, path) && path.first() == (x0, y0) && path.last() == (x, y);
        lemma_clear_path_revealed(g, s, x0, y0, path);
    } else if in_opened_area(g, x0, y0, x, y) {
        let (a, b) = choose|a: int, b: int|
            in_clear_region(g, x0, y0, a, b) && #[trigger] adjacent(a, b, x, y);
        let path = choose|path: Seq<(int, int)>|
            #[trigger] clear_path(g, path) && path.first() == (x0, y0) && path.last() == (a, b);
        lemma_clear_path_revealed(g, s, x0, y0, path);
        lemma_revealed_around(g, s, x0, y0, a, b, x, y);
    } else if reaches(g, s, x0, y0, x, y) {
        lemma_reaches_within_area(g, s, x0, y0, x, y);
    }
}

/// On a board whose counts are right, a reveal that starts off a bomb never
/// reveals one: the flood ends on the counts around the bombs.
pub proof fn lemma_uncover_spares_bombs(
    g: Seq<Seq<Cell>>,
    s: Seq<Seq<Visibility>>,
    x0: int,
    y0: int,
    x: int,
    y: int,
)
    requires
        counts_exact(g),
        same_shape(g, s),
        in_bounds(g, x0, y0),
        g[x0][y0] != Cell::Bomb,
        in_bounds(g, x, y),
        g[x][y] == Cell::Bomb,
    ensures
        uncovered(g, s, x0, y0)[x][y] == s[x][y],
{
    if reaches(g, s, x0, y0, x, y) {
        let path = choose|path: Seq<(int, int)>|
            #[trigger] cascade_path(g, s, path) && path.first() == (x0, y0) && path.last() == (
                x,
                y,
            );
        let k = path.len() - 2;
        assert(cascade_step(g, s, path, k));
        let (a, b) = path[k];
        assert(bomb_neighbors(g, a, b) == 0);
    }
}

/// Reveals `(x, y)` unless it is revealed already, and puts it on the
/// worklist where the reveal spreads from it.
fn visit(
    grid: &Grid,
    seen: &mut VisibilityState,
    pending: &mut Vec<(usize, usize)>,
    x: usize,
    y: usize,
)
    requires
        same_shape(grid@, old(seen)@),
        in_bounds(grid@, x as int, y as int),
    ensures
        final(seen)@ == marked(old(seen)@, x as int, y as int),
        final(pending)@ == if spreads(grid@, old(seen)@, x as int, y as int) {
            old(pending)@.push((x, y))
        } else {
            old(pending)@
        },
{
    if seen.get(x, y) == Visibility::Revealed {
        assert(seen@ =~~= marked(seen@, x as int, y as int));
    } else {
        seen.set(x, y, Visibility::Revealed);
        if grid.get(x, y) == Cell::Count(0) {
            pending.push((x, y));
        }
    }
}

/// One step of a reveal under way: `visit` for a position around the one in
/// hand.
fn visit_around(
    grid: &Grid,
    seen: &mut VisibilityState,
    pending: &mut Vec<(usize, usize)>,
    x: usize,
    y: usize,
    Ghost(s0): Ghost<Seq<Seq<Visibility>>>,
    Ghost(cur): Ghost<(int, int)>,
    Ghost(start): Ghost<(int, int)>,
)
    requires
        filling(grid@, s0, old(seen)@, old(pending)@, Some(cur), start.0, start.1),
        adjacent(cur.0, cur.1, x as int, y as int),
        in_bounds(grid@, x as int, y as int),
    ensures
        filling(grid@, s0, final(seen)@, final(pending)@, Some(cur), start.0, start.1),
        final(seen)@ == marked(old(seen)@, x as int, y as int),
        unrevealed(old(seen)@).finite(),
        unrevealed(final(seen)@).finite(),
        unrevealed(final(seen)@).len() + final(pending)@.len() <= unrevealed(old(seen)@).len()
            + old(pending)@.len(),
{
    proof {
        lemma_visit(grid@, s0, seen@, pending@, cur, start.0, start.1, x, y);
    }
    visit(grid, seen, pending, x, y);
}

/// Reveals `(xc, yc)`. Where no bomb touches it, the positions around it are
/// revealed too, and so on from each of them that no bomb touches. A position
/// that was revealed before stops the reveal; a flag does not.
pub fn uncover(grid: &Grid, seen: &mut VisibilityState, xc: usize, yc: usize)
    requires
        grid.wf(),
        same_shape(grid@, old(seen)@),
        in_bounds(grid@, xc as int, yc as int),
    ensures
        final(seen)@ == uncovered(grid@, old(seen)@, xc as int, yc as int),
        same_shape(grid@, final(seen)@),
        final(seen).wf(),
{
    let ghost s0 = seen@;
    let ghost start = (xc as int, yc as int);
    proof {
        assert(seen.wf()) by {
            assert forall|x: int| 0 <= x < s0.len() implies (#[trigger] s0[x]).len() == height_of(
                s0,
            ) by {
                assert(grid@[x].len() == height_of(grid@));
            }
        }
    }
    if seen.get(xc, yc) == Visibility::Revealed {
        return ;
    }
    let width = grid.width();
    let height = grid.height();
    let mut pending: Vec<(usize, usize)> = Vec::new();
    visit(grid, seen, &mut pending, xc, yc);
    proof {
        lemma_reaches_start(grid@, s0, start.0, start.1);
        let s = seen@;
        assert forall|x: int, y: int| #[trigger]
            waiting(pending@, None, x, y) implies spreads(grid@, s0, x, y) && s[x][y]
            == Visibility::Revealed by {
            let k = choose|k: int|
                0 <= k < pending@.len() && (#[trigger] pending@[k]).0 == x && pending@[k].1 == y;
            assert(pending@[k] == (xc, yc));
        }
        assert forall|x: int, y: int|
            #[trigger] spreads(grid@, s0, x, y) && s[x][y] == Visibility::Revealed implies waiting(
            pending@,
            None,
            x,
            y,
        ) by {
            assert(pending@[0] == (xc, yc));
        }
        lemma_unrevealed_finite(s);
    }
    while pending.len() > 0
        invariant
            width == grid@.len(),
            height == height_of(grid@),
            filling(grid@, s0, seen@, pending@, None, start.0, start.1),
            unrevealed(seen@).finite(),
        decreases unrevealed(seen@).len() + pending@.len(),
    {
        proof {
            lemma_take(grid@, s0, seen@, pending@, start.0, start.1);
        }
        let (x, y) = pending.pop().unwrap();
        let ghost cur = (x as int, y as int);
        assert(waiting(pending@, Some(cur), cur.0, cur.1));
        if x > 0 {
            visit_around(grid, seen, &mut pending, x - 1, y, Ghost(s0), Ghost(cur), Ghost(start));
        }
        if x > 0 && y + 1 < height {
            visit_around(
                grid,
                seen,
                &mut pending,
                x - 1,
                y + 1,
                Ghost(s0),
                Ghost(cur),
                Ghost(start),
            );
        }
        if y > 0 {
            visit_around(grid, seen, &mut pending, x, y - 1, Ghost(s0), Ghost(cur), Ghost(start));
        }
        if x > 0 && y > 0 {
            visit_around(
                grid,
                seen,
                &mut pending,
                x - 1,
                y - 1,
                Ghost(s0),
                Ghost(cur),
                Ghost(start),
            );
        }
        if y > 0 && x + 1 < width {
            visit_around(
                grid,
                seen,
                &mut pending,
                x + 1,
                y - 1,
                Ghost(s0),
                Ghost(cur),
                Ghost(start),
            );
        }
        if x + 1 < width {
            visit_around(grid, seen, &mut pending, x + 1, y, Ghost(s0), Ghost(cur), Ghost(start));
        }
        if x + 1 < width && y + 1 < height {
            visit_around(
                grid,
                seen,
                &mut pending,
                x + 1,
                y + 1,
                Ghost(s0),
                Ghost(cur),
                Ghost(start),
            );
        }
        if y + 1 < height {
            visit_around(grid, seen, &mut pending, x, y + 1, Ghost(s0), Ghost(cur), Ghost(start));
        }
        proof {
            let s = seen@;
            assert forall|nx: int, ny: int|
                #[trigger] adjacent(cur.0, cur.1, nx, ny) && in_bounds(
                    grid@,
                    nx,
                    ny,
                ) implies s[nx][ny] == Visibility::Revealed by {
                assert(grid@[nx].len() == height);
            }
            lemma_done(grid@, s0, s, pending@, cur, start.0, start.1);
        }
    }
    proof {
        lemma_filled(grid@, s0, seen@, start.0, start.1);
        let s = seen@;
        assert(seen.wf()) by {
            assert forall|x: int| 0 <= x < s.len() implies (#[trigger] s[x]).len() == height_of(
                s,
            ) by {
                assert(grid@[0].len() == s[0].len());
            }
        }
    }
}

} // verus!
