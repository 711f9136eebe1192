//! Cell positions on the 9×9 board and their row-major indices.

use vstd::prelude::*;

verus! {

/// Number of digits, and so the side of the board.
pub const DIGIT_BASE: usize = 9;

/// Number of cells on the board.
pub const CELL_COUNT: usize = 81;

/// Side of a box.
pub const BOX_SIDE: u8 = 3;

/// A cell position: row and column, each in `0..9` on a well-formed location.
#[derive(Clone, Copy, PartialEq, Eq, Hash, Debug, Structural)]
pub struct Location {
    pub row: u8,
    pub column: u8,
}

/// A displacement in rows and columns.
#[derive(Clone, Copy, PartialEq, Eq, Debug, Structural)]
pub struct Vec2 {
    pub rows: i8,
    pub columns: i8,
}

impl Location {
    pub open spec fn is_valid(self) -> bool {
        self.row < 9 && self.column < 9
    }

    /// Row-major linear index.
    pub open spec fn index(self) -> int {
        self.column + self.row * 9
    }

    pub open spec fn at_index(i: int) -> Location {
        Location { row: (i / 9) as u8, column: (i % 9) as u8 }
    }

    /// The location `v` away from `self`, when it lies on the board.
    pub open spec fn shifted(self, v: Vec2) -> Option<Location> {
        let row = self.row + v.rows;
        let column = self.column + v.columns;
        if 0 <= row < 9 && 0 <= column < 9 {
            Some(Location { row: row as u8, column: column as u8 })
        } else {
            None
        }
    }

    pub fn from_index(i: usize) -> (r: Location)
        requires
            i < CELL_COUNT,
        ensures
            r == Location::at_index(i as int),
            r.is_valid(),
            r.index() == i,
    {
        Location { row: (i / DIGIT_BASE) as u8, column: (i % DIGIT_BASE) as u8 }
    }

    pub fn into_index(self) -> (r: usize)
        requires
            self.is_valid(),
        ensures
            r == self.index(),
            r < CELL_COUNT,
    {
        self.column as usize + self.row as usize * DIGIT_BASE
    }

    pub fn add(self, v: Vec2) -> (r: Option<Location>)
        ensures
            r == self.shifted(v),
    {
        let row: i16 = self.row as i16 + v.rows as i16;
        let column: i16 = self.column as i16 + v.columns as i16;
        if row < 0 || row >= 9 || column < 0 || column >= 9 {
            None
        } else {
            Some(Location { row: row as u8, column: column as u8 })
        }
    }

    pub fn below(self) -> (r: Option<Location>)
        ensures
            r == self.shifted(Vec2 { rows: 1, columns: 0 }),
    {
        self.add(Vec2 { rows: 1, columns: 0 })
    }

    pub fn right(self) -> (r: Option<Location>)
        ensures
            r == self.shifted(Vec2 { rows: 0, columns: 1 }),
    {
        self.add(Vec2 { rows: 0, columns: 1 })
    }
}

/// Index and location agree both ways on the board.
pub proof fn lemma_index_bijection(l: Location, i: int)
    ensures
        l.is_valid() ==> Location::at_index(l.index()) == l,
        0 <= i < 81 ==> Location::at_index(i).is_valid() && Location::at_index(i).index() == i,
{
}

} // verus!
