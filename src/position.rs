//! Grid positions and their place in the output document.
use vstd::prelude::*;

verus! {

/// Grid x of the document's origin; the document's y origin is grid y 0.
pub const ORIGIN_X: isize = 160;

/// A point of the drawing grid. Equality is exact.
#[derive(Debug, Clone, Copy, PartialEq, Eq, Hash, Structural)]
pub struct Position {
    pub x: isize,
    pub y: isize,
}

impl Default for Position {
    fn default() -> (r: Self)
        ensures
            r.x == 0 && r.y == 0,
    {
        Position { x: 0, y: 0 }
    }
}

/// How far from grid zero a placed component may be, in grid units.
pub const GRID_LIMIT: isize = 1073741824;

pub open spec fn in_grid(p: Position) -> bool {
    -GRID_LIMIT <= p.x <= GRID_LIMIT && -GRID_LIMIT <= p.y <= GRID_LIMIT
}

/// The document coordinates of `p`, counted in `1 / DOC_SCALE` of a
/// document unit.
pub open spec fn doc_x(p: Position) -> int {
    p.x - ORIGIN_X
}

pub open spec fn doc_y(p: Position) -> int {
    p.y as int
}

impl Position {
    pub fn in_grid(&self) -> (r: bool)
        ensures
            r == in_grid(*self),
    {
        -GRID_LIMIT <= self.x && self.x <= GRID_LIMIT && -GRID_LIMIT <= self.y && self.y
            <= GRID_LIMIT
    }

    /// The point in document coordinates, as numerators over `DOC_SCALE`:
    /// the document shows `x / DOC_SCALE` and `y / DOC_SCALE`.
    pub fn tikz_coords(&self) -> (r: (i128, i128))
        ensures
            r.0 == doc_x(*self),
            r.1 == doc_y(*self),
    {
        (self.x as i128 - ORIGIN_X as i128, self.y as i128)
    }
}

} // verus!
