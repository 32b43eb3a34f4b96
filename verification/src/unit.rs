//! The groups of nine squares that must each hold every symbol once: rows,
//! columns and 3×3 boxes.

use vstd::prelude::*;

verus! {

/// A row or a column, by its index.
#[derive(Clone, Copy)]
pub enum Line {
    Row(usize),
    Column(usize),
}

/// A row, a column, or the 3×3 box whose top left square is at the given
/// row and column.
#[derive(Clone, Copy)]
pub enum Unit {
    Row(usize),
    Column(usize),
    Square(usize, usize),
}

impl Line {
    /// Whether the index is on the grid.
    pub open spec fn valid(self) -> bool {
        match self {
            Line::Row(index) => index < 9,
            Line::Column(index) => index < 9,
        }
    }

    /// The line as a unit.
    pub open spec fn as_unit(self) -> Unit {
        match self {
            Line::Row(index) => Unit::Row(index),
            Line::Column(index) => Unit::Column(index),
        }
    }

    /// The line as a unit.
    pub fn unit(self) -> (unit: Unit)
        ensures
            unit == self.as_unit(),
    {
        match self {
            Line::Row(index) => Unit::Row(index),
            Line::Column(index) => Unit::Column(index),
        }
    }
}

impl Unit {
    /// Whether all nine squares of the unit are on the grid.
    pub open spec fn valid(self) -> bool {
        match self {
            Unit::Row(index) => index < 9,
            Unit::Column(index) => index < 9,
            Unit::Square(x, y) => x <= 6 && y <= 6,
        }
    }

    /// Row and column of the unit's `i`-th square. A box is walked row by row.
    pub open spec fn cell(self, i: int) -> (int, int) {
        match self {
            Unit::Row(index) => (index as int, i),
            Unit::Column(index) => (i, index as int),
            Unit::Square(x, y) => (x + i / 3, y + i % 3),
        }
    }

    /// Whether the square at (`row`, `column`) belongs to the unit.
    pub open spec fn contains(self, row: int, column: int) -> bool {
        match self {
            Unit::Row(index) => row == index && 0 <= column < 9,
            Unit::Column(index) => column == index && 0 <= row < 9,
            Unit::Square(x, y) => x <= row < x + 3 && y <= column < y + 3,
        }
    }

    /// The place within the unit of the square at (`row`, `column`).
    pub open spec fn slot(self, row: int, column: int) -> int {
        match self {
            Unit::Row(_) => column,
            Unit::Column(_) => row,
            Unit::Square(x, y) => 3 * (row - x) + (column - y),
        }
    }

    /// The box with the given number, counted row by row from the top left.
    pub open spec fn nth_box(number: int) -> Unit {
        Unit::Square((3 * (number / 3)) as usize, (3 * (number % 3)) as usize)
    }

    /// The unit with the given number: rows are numbered 0 to 8, columns 9
    /// to 17 and boxes 18 to 26.
    pub open spec fn nth(number: int) -> Unit {
        if number < 9 {
            Unit::Row(number as usize)
        } else if number < 18 {
            Unit::Column((number - 9) as usize)
        } else {
            Self::nth_box(number - 18)
        }
    }

    /// The number of the box that the square at (`row`, `column`) lies in.
    pub open spec fn box_number(row: int, column: int) -> int {
        3 * (row / 3) + column / 3
    }

    /// The box that the square at (`row`, `column`) lies in.
    pub open spec fn box_of(row: int, column: int) -> Unit {
        Unit::Square((3 * (row / 3)) as usize, (3 * (column / 3)) as usize)
    }

    /// Row and column of the unit's `i`-th square.
    pub fn position(self, i: usize) -> (at: (usize, usize))
        requires
            self.valid(),
            i < 9,
        ensures
            (at.0 as int, at.1 as int) == self.cell(i as int),
            at.0 < 9,
            at.1 < 9,
    {
        match self {
            Unit::Row(index) => (index, i),
            Unit::Column(index) => (i, index),
            Unit::Square(x, y) => (x + i / 3, y + i % 3),
        }
    }
}

/// The squares of a unit are on the grid, belong to it, and sit at the place
/// they are counted at; every square of the unit is counted once.
pub proof fn lemma_unit_cells(unit: Unit)
    requires
        unit.valid(),
    ensures
        forall|i: int|
            0 <= i < 9 ==> {
                let (row, column) = #[trigger] unit.cell(i);
                &&& 0 <= row < 9
                &&& 0 <= column < 9
                &&& unit.contains(row, column)
                &&& unit.slot(row, column) == i
            },
        forall|row: int, column: int| #[trigger]
            unit.contains(row, column) ==> {
                &&& 0 <= row < 9
                &&& 0 <= column < 9
                &&& 0 <= unit.slot(row, column) < 9
                &&& unit.cell(unit.slot(row, column)) == (row, column)
            },
{
}

} // verus!
