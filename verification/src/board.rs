//! Cells, constraint kinds and the row-major layout of the grid.

use vstd::prelude::*;

verus! {

/// What a board cell holds: nothing yet, or a symbol fixed in advance.
#[derive(Debug, Clone, Copy, PartialEq, Eq, Structural)]
pub enum Square {
    Empty,
    Sun,
    Moon,
}

impl Square {
    /// The value that follows `self` when a cell is cycled:
    /// `Empty`, `Sun`, `Moon`, and back to `Empty`.
    pub fn next(self) -> (r: Square)
        ensures
            r == match self {
                Square::Empty => Square::Sun,
                Square::Sun => Square::Moon,
                Square::Moon => Square::Empty,
            },
    {
        match self {
            Square::Empty => Square::Sun,
            Square::Sun => Square::Moon,
            Square::Moon => Square::Empty,
        }
    }

    /// The numeric code of a cell value.
    pub open spec fn code(self) -> u8 {
        match self {
            Square::Empty => 0,
            Square::Sun => 1,
            Square::Moon => 2,
        }
    }

    /// Encodes the cell as `0`, `1` or `2`.
    pub fn to_u8(self) -> (r: u8)
        ensures
            r == self.code(),
    {
        match self {
            Square::Empty => 0,
            Square::Sun => 1,
            Square::Moon => 2,
        }
    }

    /// Decodes a cell from its numeric code; the inverse of [`Square::to_u8`].
    pub fn from_u8(value: u8) -> (r: Square)
        requires
            value <= 2,
        ensures
            r.code() == value,
    {
        if value == 0 {
            Square::Empty
        } else if value == 1 {
            Square::Sun
        } else {
            Square::Moon
        }
    }
}

/// The relation a constraint demands of two neighbouring cells.
#[derive(Debug, Clone, Copy, PartialEq, Eq, Structural)]
pub enum Edge {
    /// The two cells must hold different symbols.
    X,
    /// The two cells must hold the same symbol.
    Equals,
}

impl Edge {
    /// The mark drawn between the two cells.
    pub fn to_text(self) -> (r: &'static str)
        ensures
            r@ == match self {
                Edge::X => "X"@,
                Edge::Equals => "="@,
            },
    {
        match self {
            Edge::X => "X",
            Edge::Equals => "=",
        }
    }
}

/// Index of the cell in column `x` of row `y`, rows stored one after another.
pub fn xy_to_index(x: u32, y: u32, width: u32) -> (index: usize)
    requires
        y * width + x <= u32::MAX,
    ensures
        index == y * width + x,
{
    (y * width + x) as usize
}

/// Column and row of the cell at `index`. The index is taken as a `u32`,
/// so it is reduced modulo 2^32 first.
pub fn index_to_xy(index: usize, width: u32) -> (xy: (u32, u32))
    requires
        width > 0,
    ensures
        xy.0 == (index as u32) % width,
        xy.1 == (index as u32) / width,
{
    let x = index as u32 % width;
    let y = index as u32 / width;
    (x, y)
}

/// The distance between two numbers.
pub open spec fn distance(a: int, b: int) -> int {
    if a <= b {
        b - a
    } else {
        a - b
    }
}

/// Cells `a` and `b` lie on a grid of `width` columns and `width` rows and
/// are neighbours there: one step apart along a row or along a column.
pub open spec fn adjacent(a: int, b: int, width: int) -> bool {
    &&& width > 0
    &&& 0 <= a < width * width
    &&& 0 <= b < width * width
    &&& distance(a % width, b % width) + distance(a / width, b / width) == 1
}

/// Tells whether two cell indices name neighbouring cells of the grid.
pub fn are_adjacent(a: usize, b: usize, width: u32) -> (r: bool)
    ensures
        r == adjacent(a as int, b as int, width as int),
{
    if width == 0 {
        return false;
    }
    let w = width as u64;
    assert(w * w <= 0xffff_ffff * 0xffff_ffff) by (nonlinear_arith)
        requires
            0 <= w <= 0xffff_ffff,
    ;
    let cells = w * w;
    if a as u64 >= cells || b as u64 >= cells {
        return false;
    }
    let xa = a as u64 % w;
    let ya = a as u64 / w;
    let xb = b as u64 % w;
    let yb = b as u64 / w;
    let dx = if xa <= xb {
        xb - xa
    } else {
        xa - xb
    };
    let dy = if ya <= yb {
        yb - ya
    } else {
        ya - yb
    };
    dx + dy == 1
}

} // verus!
