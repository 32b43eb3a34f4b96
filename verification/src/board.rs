//! The board: 81 squares in nine rows.

use crate::grid::{
    lemma_grid_equal, member, on_grid, solved, well_formed, well_shaped, with_square, Grid,
};
use crate::position::{symbols_only, Position};
use crate::unit::{Line, Unit};
use vstd::prelude::*;

verus! {

/// The grid of squares that the solver works on. Its view is the grid as a
/// mathematical value.
#[derive(Clone, Copy)]
pub struct Board([[Position; 9]; 9]);

impl View for Board {
    type V = Grid;

    closed spec fn view(&self) -> Grid {
        Seq::new(9, |row: int| Seq::new(9, |column: int| self.0[row][column]))
    }
}

/// The grid of blank squares with nothing excluded.
pub open spec fn blank_grid() -> Grid {
    Seq::new(9, |row: int| Seq::new(9, |column: int| Position::holding(0)))
}

/// The grid that holds the symbols of `array`, 0 standing for a blank: a
/// square with a symbol is closed to every symbol, a blank square excludes
/// nothing.
pub open spec fn initial_grid(array: [[u8; 9]; 9]) -> Grid {
    Seq::new(9, |row: int| Seq::new(9, |column: int| Position::holding(array[row][column])))
}

impl Board {
    /// Every square keeps its invariant.
    pub open spec fn wf(&self) -> bool {
        well_formed(self@)
    }

    /// A board has nine rows of nine squares.
    pub proof fn lemma_shape(&self)
        ensures
            well_shaped(self@),
    {
    }

    /// A board of blank squares with nothing excluded.
    pub fn new() -> (board: Board)
        ensures
            board@ == blank_grid(),
            board.wf(),
    {
        let position = Position::new();
        let board = Board([[position; 9]; 9]);
        proof {
            lemma_grid_equal(board@, blank_grid());
        }
        board
    }

    /// The board that holds the symbols of `array`, 0 standing for a blank.
    /// Nothing is asked of the symbols but that they are symbols: equal
    /// clues in one unit are taken as they come.
    pub fn from(array: [[u8; 9]; 9]) -> (board: Board)
        requires
            forall|row: int, column: int|
                on_grid(row, column) ==> #[trigger] array[row][column] <= 9,
        ensures
            board@ == initial_grid(array),
            board.wf(),
    {
        let mut board = Self::new();
        let mut i: usize = 0;
        while i < 9
            invariant
                i <= 9,
                board.wf(),
                forall|row: int, column: int|
                    on_grid(row, column) ==> #[trigger] array[row][column] <= 9,
                forall|row: int, column: int|
                    on_grid(row, column) ==> #[trigger] board@[row][column] == if row < i {
                        Position::holding(array[row][column])
                    } else {
                        Position::holding(0)
                    },
            decreases 9 - i,
        {
            let mut ii: usize = 0;
            while ii < 9
                invariant
                    ii <= 9,
                    i < 9,
                    board.wf(),
                    forall|row: int, column: int|
                        on_grid(row, column) ==> #[trigger] array[row][column] <= 9,
                    forall|row: int, column: int|
                        on_grid(row, column) ==> #[trigger] board@[row][column] == if row < i || (row
                            == i && column < ii) {
                            Position::holding(array[row][column])
                        } else {
                            Position::holding(0)
                        },
                decreases 9 - ii,
            {
                let value: u8 = array[i][ii];
                assert(on_grid(i as int, ii as int) && array[i as int][ii as int] <= 9);
                if value != 0 {
                    board.set_final_value(value, i, ii);
                }
                ii += 1;
            }
            i += 1;
        }
        proof {
            lemma_grid_equal(board@, initial_grid(array));
        }
        board
    }

    /// Places `final_value` in the square at row `x`, column `y`, and closes
    /// the square to every symbol.
    pub fn set_final_value(&mut self, final_value: u8, x: usize, y: usize)
        requires
            1 <= final_value <= 9,
            x < 9,
            y < 9,
        ensures
            final(self)@ == with_square(
                old(self)@,
                x as int,
                y as int,
                Position::assigned(final_value),
            ),
            old(self).wf() ==> final(self).wf(),
    {
        self.0[x][y].set_final_value(final_value);
        proof {
            let target = with_square(
                old(self)@,
                x as int,
                y as int,
                Position::assigned(final_value),
            );
            assert forall|row: int| 0 <= row < 9 implies #[trigger] self@[row] =~= target[row] by {
            }
            assert(self@ =~= target);
        }
    }

    /// Excludes the symbols of `impossibilities` from the square at row `x`,
    /// column `y`.
    pub fn add_impossibilities(&mut self, impossibilities: u16, x: usize, y: usize)
        requires
            symbols_only(impossibilities),
            x < 9,
            y < 9,
        ensures
            final(self)@ == with_square(
                old(self)@,
                x as int,
                y as int,
                old(self)@[x as int][y as int].excluding(impossibilities),
            ),
            old(self).wf() ==> final(self).wf(),
    {
        self.0[x][y].add_impossibilities(impossibilities);
        proof {
            let target = with_square(
                old(self)@,
                x as int,
                y as int,
                old(self)@[x as int][y as int].excluding(impossibilities),
            );
            assert forall|row: int| 0 <= row < 9 implies #[trigger] self@[row] =~= target[row] by {
            }
            assert(self@ =~= target);
        }
    }

    /// Resolves the square at row `x`, column `y` if it is a naked single,
    /// and says whether it did.
    pub fn check_square(&mut self, x: usize, y: usize) -> (changed: bool)
        requires
            x < 9,
            y < 9,
        ensures
            final(self)@ == with_square(
                old(self)@,
                x as int,
                y as int,
                old(self)@[x as int][y as int].resolved(),
            ),
            changed == old(self)@[x as int][y as int].is_naked_single(),
            old(self).wf() ==> final(self).wf(),
    {
        let changed = self.0[x][y].check_for_final_value();
        proof {
            let target = with_square(
                old(self)@,
                x as int,
                y as int,
                old(self)@[x as int][y as int].resolved(),
            );
            assert forall|row: int| 0 <= row < 9 implies #[trigger] self@[row] =~= target[row] by {
            }
            assert(self@ =~= target);
        }
        changed
    }

    /// The square at row `x`, column `y`.
    pub fn get_position_xy(&self, x: usize, y: usize) -> (position: Position)
        requires
            x < 9,
            y < 9,
        ensures
            position == self@[x as int][y as int],
    {
        self.0[x][y]
    }

    /// The `i`-th square of `line`.
    pub fn get_position_line(&self, line: Line, i: usize) -> (position: Position)
        requires
            line.valid(),
            i < 9,
        ensures
            position == member(self@, line.as_unit(), i as int),
    {
        match line {
            Line::Row(index) => self.get_position_xy(index, i),
            Line::Column(index) => self.get_position_xy(i, index),
        }
    }

    /// The `i`-th square of `unit`.
    pub fn unit_position(&self, unit: Unit, i: usize) -> (position: Position)
        requires
            unit.valid(),
            i < 9,
        ensures
            position == member(self@, unit, i as int),
    {
        let at = unit.position(i);
        self.get_position_xy(at.0, at.1)
    }

    /// Whether every square holds a symbol.
    pub fn is_solved(&self) -> (full: bool)
        ensures
            full == solved(self@),
    {
        let mut i: usize = 0;
        while i < 9
            invariant
                i <= 9,
                forall|row: int, column: int|
                    on_grid(row, column) && row < i ==> (
                    #[trigger] self@[row][column]).final_value != 0,
            decreases 9 - i,
        {
            let mut ii: usize = 0;
            while ii < 9
                invariant
                    ii <= 9,
                    i < 9,
                    forall|row: int, column: int|
                        on_grid(row, column) && (row < i || (row == i && column < ii)) ==> (
                        #[trigger] self@[row][column]).final_value != 0,
                decreases 9 - ii,
            {
                if self.get_position_xy(i, ii).final_value == 0 {
                    assert(on_grid(i as int, ii as int));
                    return false;
                }
                ii += 1;
            }
            i += 1;
        }
        true
    }
}

} // verus!
