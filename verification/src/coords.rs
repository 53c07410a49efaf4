use vstd::prelude::*;

verus! {

/// A position on the board: `x` is the column and `y` the row, both counted from 0.
#[derive(Debug, Clone, Copy, PartialEq, Eq, Structural)]
pub struct Coords {
    pub x: u8,
    pub y: u8,
}

/// The position whose flat index is `f` (nine squares to a row).
pub open spec fn coords_of(f: int) -> Coords {
    Coords { x: (f % 9) as u8, y: (f / 9) as u8 }
}

/// Whether `c` is one of the other squares that a digit at `pos` rules out:
/// the same column (within the nine rows), the same row (within the nine
/// columns), or the same three-by-three box.
pub open spec fn sees(pos: Coords, c: Coords) -> bool {
    &&& c != pos
    &&& {
        ||| (c.x == pos.x && c.y < 9)
        ||| (c.y == pos.y && c.x < 9)
        ||| (c.x / 3 == pos.x / 3 && c.y / 3 == pos.y / 3)
    }
}

impl Coords {
    /// Whether the position lies on the nine-by-nine board.
    pub open spec fn on_board(self) -> bool {
        self.x <= 8 && self.y <= 8
    }

    /// The flat index of the position, reading the board row by row.
    pub open spec fn flat_index(self) -> int {
        self.x + 9 * self.y
    }

    /// The position of column `x` and row `y`.
    pub fn new(x: u8, y: u8) -> (c: Self)
        ensures
            c.x == x,
            c.y == y,
    {
        Self { x: x, y: y }
    }

    /// Whether the position lies on the board.
    pub fn is_valid(&self) -> (r: bool)
        ensures
            r == self.on_board(),
    {
        if self.x > 8 || self.y > 8 {
            return false;
        }
        true
    }

    /// The flat index of the position.
    pub fn flat(&self) -> (f: u8)
        requires
            self.flat_index() <= u8::MAX,
        ensures
            f == self.flat_index(),
    {
        self.x + 9 * self.y
    }

    /// The position of a flat index.
    pub fn from_flat(flat_repr: u8) -> (c: Self)
        ensures
            c == coords_of(flat_repr as int),
            c.x == flat_repr % 9,
            c.y == flat_repr / 9,
    {
        Self { x: flat_repr % 9, y: flat_repr / 9 }
    }
}

/// Reading a position back from its flat index gives the position again.
pub proof fn lemma_flat_round_trip(c: Coords)
    requires
        c.on_board(),
    ensures
        0 <= c.flat_index() < 81,
        coords_of(c.flat_index()) == c,
{
}

/// Every flat index has a position, and that position's flat index is the index itself;
/// the position is on the board exactly when the index is below 81.
pub proof fn lemma_from_flat_round_trip(f: u8)
    ensures
        coords_of(f as int).flat_index() == f,
        coords_of(f as int).on_board() <==> f < 81,
{
}

/// Seeing is symmetric: a square sees another exactly when it is seen by it,
/// for squares on the board.
pub proof fn lemma_sees_symmetric(a: Coords, b: Coords)
    requires
        a.on_board(),
        b.on_board(),
    ensures
        sees(a, b) == sees(b, a),
{
}

} // verus!
