//! Grid coordinates and the geometric relations between sudoku squares.

use vstd::prelude::*;

verus! {

/// A coordinate on the 9x9 grid: `x` is the column, `y` is the row.
#[derive(Debug, Clone, Copy, PartialEq, Eq, Hash, Structural)]
pub struct Point {
    pub x: usize,
    pub y: usize,
}

impl Point {
    pub fn new(x: usize, y: usize) -> (p: Point)
        ensures
            p.x == x,
            p.y == y,
    {
        Point { x, y }
    }

    /// Component-wise multiplication, used for region-origin arithmetic.
    pub fn scale(self, factor: usize) -> (p: Point)
        requires
            self.x * factor <= usize::MAX,
            self.y * factor <= usize::MAX,
        ensures
            p.x == self.x * factor,
            p.y == self.y * factor,
    {
        Point { x: self.x * factor, y: self.y * factor }
    }
}

/// Both coordinates lie on the 9x9 grid.
pub open spec fn valid_point(x: int, y: int) -> bool {
    0 <= x < 9 && 0 <= y < 9
}

/// Row-major index of a coordinate into a flat sequence of 81 squares.
pub open spec fn grid_index(x: int, y: int) -> int {
    y * 9 + x
}

/// The two squares lie in the same 3x3 region.
pub open spec fn same_region(x1: int, y1: int, x2: int, y2: int) -> bool {
    x1 / 3 == x2 / 3 && y1 / 3 == y2 / 3
}

/// The two squares are distinct and share a row, a column, or a region:
/// each is a "relative" of the other, so they may not hold the same digit.
pub open spec fn sees(x1: int, y1: int, x2: int, y2: int) -> bool {
    &&& valid_point(x1, y1)
    &&& valid_point(x2, y2)
    &&& !(x1 == x2 && y1 == y2)
    &&& (y1 == y2 || x1 == x2 || same_region(x1, y1, x2, y2))
}

/// Two columns (or rows) fall in the same band of three exactly when the
/// second lies within the three-wide band that starts at `(a / 3) * 3`.
pub proof fn lemma_same_band(a: int, b: int)
    requires
        0 <= a < 9,
        0 <= b < 9,
    ensures
        (a / 3 == b / 3) <==> ((a / 3) * 3 <= b < (a / 3) * 3 + 3),
{
    assert((a / 3 == b / 3) <==> ((a / 3) * 3 <= b < (a / 3) * 3 + 3)) by (nonlinear_arith)
        requires
            0 <= a < 9,
            0 <= b < 9,
    ;
}

/// Splitting an offset into a multiple of three plus a remainder is
/// undone by division and remainder.
pub proof fn lemma_div3_decompose(a: int, b: int)
    requires
        0 <= b < 3,
    ensures
        (3 * a + b) / 3 == a,
        (3 * a + b) % 3 == b,
{
    assert((3 * a + b) / 3 == a && (3 * a + b) % 3 == b) by (nonlinear_arith)
        requires
            0 <= b < 3,
    ;
}

} // verus!
