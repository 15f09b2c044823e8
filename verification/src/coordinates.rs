//! Grid positions and bounds-aware neighbor arithmetic.

use vstd::prelude::*;

verus! {

/// A grid position: column `x` and row `y`.  A coordinate is valid for
/// a board of `width` by `height` cells when `x < width` and
/// `y < height`.
#[derive(Clone, Copy, PartialEq, Eq, Structural, Hash, Debug)]
pub struct Coordinates {
    pub x: u16,
    pub y: u16,
}

/// `(x, y)` lies inside a `width` by `height` grid.
pub open spec fn in_grid(width: u16, height: u16, x: int, y: int) -> bool {
    0 <= x < width as int && 0 <= y < height as int
}

/// The coordinate `c` lies inside a `width` by `height` grid.
pub open spec fn in_grid_c(width: u16, height: u16, c: Coordinates) -> bool {
    c.x < width && c.y < height
}

/// The cells `(x1, y1)` and `(x2, y2)` are distinct and touch
/// orthogonally or diagonally.
pub open spec fn adjacent(x1: int, y1: int, x2: int, y2: int) -> bool {
    &&& !(x1 == x2 && y1 == y2)
    &&& -1 <= x1 - x2 <= 1
    &&& -1 <= y1 - y2 <= 1
}

/// The coordinates `c` and `d` are distinct and touch orthogonally or
/// diagonally.
pub open spec fn adjacent_c(c: Coordinates, d: Coordinates) -> bool {
    adjacent(c.x as int, c.y as int, d.x as int, d.y as int)
}

/// The closed neighborhood of `origin`: the origin itself plus its
/// up-to-8 neighbors.
pub open spec fn in_safe_zone(origin: Coordinates, x: int, y: int) -> bool {
    -1 <= x - origin.x as int <= 1 && -1 <= y - origin.y as int <= 1
}

/// The coordinate with the given components; meaningful only when both
/// fit in `u16`, as every in-grid position does.
pub open spec fn coord(x: int, y: int) -> Coordinates {
    Coordinates { x: x as u16, y: y as u16 }
}

/// Total number of cells of a `width` by `height` grid.
pub open spec fn grid_area(width: u16, height: u16) -> int {
    width as int * height as int
}

/// Row-major index of the cell `(x, y)` in a grid of the given width.
pub open spec fn idx_of(width: u16, x: int, y: int) -> int {
    y * width as int + x
}

/// Row-major indexing is injective on in-grid positions.
pub proof fn lemma_idx_of_injective(width: u16, height: u16, x1: int, y1: int, x2: int, y2: int)
    requires
        in_grid(width, height, x1, y1),
        in_grid(width, height, x2, y2),
        idx_of(width, x1, y1) == idx_of(width, x2, y2),
    ensures
        x1 == x2 && y1 == y2,
{
    assert(y1 == y2 && x1 == x2) by (nonlinear_arith)
        requires
            0 <= x1 < width as int,
            0 <= x2 < width as int,
            y1 * width as int + x1 == y2 * width as int + x2,
    {}
}

/// Every in-grid position has its row-major index inside the grid area.
pub proof fn lemma_idx_of_in_range(width: u16, height: u16, x: int, y: int)
    requires
        in_grid(width, height, x, y),
    ensures
        0 <= idx_of(width, x, y) < grid_area(width, height),
{
    assert(0 <= y * width as int + x < width as int * height as int) by (nonlinear_arith)
        requires
            0 <= x < width as int,
            0 <= y < height as int,
    {}
}

impl Coordinates {
    /// Builds the coordinate `(x, y)`.
    pub fn new(x: u16, y: u16) -> (c: Coordinates)
        ensures
            c.x == x && c.y == y,
    {
        Coordinates { x, y }
    }

    /// Bounds-checked move by a signed offset: `None` when the target
    /// would leave the grid.  Never wraps.
    pub fn checked_offset(self, dx: i8, dy: i8, width: u16, height: u16) -> (r: Option<
        Coordinates,
    >)
        ensures
            r is Some <==> in_grid(width, height, self.x as int + dx as int, self.y as int + dy as int),
            r matches Some(c) ==> c.x as int == self.x as int + dx as int && c.y as int == self.y as int + dy as int,
    {
        let nx: i32 = self.x as i32 + dx as i32;
        let ny: i32 = self.y as i32 + dy as i32;
        if 0 <= nx && nx < width as i32 && 0 <= ny && ny < height as i32 {
            Some(Coordinates { x: nx as u16, y: ny as u16 })
        } else {
            None
        }
    }
}

} // verus!
