//! Shapes and positions: what it means for a board to be a rectangle, for a
//! coordinate to lie on it, and for two positions to touch.

use vstd::prelude::*;
use vstd::set_lib::lemma_set_disjoint_lens;

verus! {

/// The common row length of `m`; zero for a board without rows.
pub open spec fn height_of<T>(m: Seq<Seq<T>>) -> nat {
    if m.len() == 0 {
        0
    } else {
        m[0].len()
    }
}

/// Every row of `m` has the same length.
pub open spec fn rectangular<T>(m: Seq<Seq<T>>) -> bool {
    forall|x: int| 0 <= x < m.len() ==> (#[trigger] m[x]).len() == height_of(m)
}

/// `m` has `width` rows of `height` places each.
pub open spec fn shaped<T>(m: Seq<Seq<T>>, width: int, height: int) -> bool {
    &&& m.len() == width
    &&& forall|x: int| 0 <= x < width ==> (#[trigger] m[x]).len() == height
}

/// `(x, y)` names a position of `m`: row `x`, place `y` in that row.
pub open spec fn in_bounds<T>(m: Seq<Seq<T>>, x: int, y: int) -> bool {
    0 <= x < m.len() && 0 <= y < m[x].len()
}

/// Two boards have the same number of rows and, row by row, the same length.
pub open spec fn same_shape<A, B>(a: Seq<Seq<A>>, b: Seq<Seq<B>>) -> bool {
    &&& a.len() == b.len()
    &&& forall|x: int| 0 <= x < a.len() ==> (#[trigger] a[x]).len() == b[x].len()
}

/// `m` with `value` at `(x, y)`.
pub open spec fn replaced<T>(m: Seq<Seq<T>>, x: int, y: int, value: T) -> Seq<Seq<T>> {
    m.update(x, m[x].update(y, value))
}

/// `(x2, y2)` is one of the eight positions around `(x1, y1)`.
pub open spec fn adjacent(x1: int, y1: int, x2: int, y2: int) -> bool {
    &&& x1 - 1 <= x2 <= x1 + 1
    &&& y1 - 1 <= y2 <= y1 + 1
    &&& (x1 != x2 || y1 != y2)
}

/// All positions of a board of `width` rows of `height` places.
pub open spec fn positions(width: int, height: int) -> Set<(int, int)> {
    Set::new(|p: (int, int)| 0 <= p.0 < width && 0 <= p.1 < height)
}

/// The positions of row `x` in a board whose rows hold `height` places.
pub open spec fn row_positions(x: int, height: int) -> Set<(int, int)> {
    Set::new(|p: (int, int)| p.0 == x && 0 <= p.1 < height)
}

/// A row of `height` places has `height` positions.
pub proof fn lemma_row_positions_len(x: int, height: nat)
    ensures
        row_positions(x, height as int).finite(),
        row_positions(x, height as int).len() == height,
    decreases height,
{
    if height == 0 {
        assert(row_positions(x, 0) =~= Set::empty());
    } else {
        lemma_row_positions_len(x, (height - 1) as nat);
        assert(row_positions(x, height as int) =~= row_positions(x, height - 1).insert(
            (x, height - 1),
        ));
    }
}

/// A board of `width` rows of `height` places has `width * height` positions.
pub proof fn lemma_positions_len(width: nat, height: nat)
    ensures
        positions(width as int, height as int).finite(),
        positions(width as int, height as int).len() == width * height,
    decreases width,
{
    if width == 0 {
        assert(positions(0, height as int) =~= Set::empty());
    } else {
        let above = positions(width - 1, height as int);
        let last = row_positions(width - 1, height as int);
        lemma_positions_len((width - 1) as nat, height);
        lemma_row_positions_len(width - 1, height);
        assert(positions(width as int, height as int) =~= above + last);
        lemma_set_disjoint_lens(above, last);
        assert((width - 1) * height + height == width * height) by (nonlinear_arith);
    }
}

} // verus!
