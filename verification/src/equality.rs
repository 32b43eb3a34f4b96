//! When two boards are equal.

use crate::board::Board;
use crate::grid::{lemma_grid_equal, on_grid};
use vstd::prelude::*;

verus! {

impl PartialEq for Board {
    /// Two boards are equal when every square holds the same symbol and
    /// excludes the same symbols in both.
    fn eq(&self, other: &Board) -> (equal: bool) {
        let mut i: usize = 0;
        while i < 9
            invariant
                i <= 9,
                forall|row: int, column: int|
                    on_grid(row, column) && row < i ==> #[trigger] self@[row][column]
                        == other@[row][column],
            decreases 9 - i,
        {
            let mut ii: usize = 0;
            while ii < 9
                invariant
                    ii <= 9,
                    i < 9,
                    forall|row: int, column: int|
                        on_grid(row, column) && (row < i || (row == i && column < ii))
                            ==> #[trigger] self@[row][column] == other@[row][column],
                decreases 9 - ii,
            {
                let mine = self.get_position_xy(i, ii);
                let theirs = other.get_position_xy(i, ii);
                if mine != theirs {
                    assert(self@[i as int][ii as int] != other@[i as int][ii as int]);
                    return false;
                }
                ii += 1;
            }
            i += 1;
        }
        proof {
            self.lemma_shape();
            other.lemma_shape();
            lemma_grid_equal(self@, other@);
        }
        true
    }
}

impl vstd::std_specs::cmp::PartialEqSpecImpl for Board {
    open spec fn obeys_eq_spec() -> bool {
        true
    }

    open spec fn eq_spec(&self, other: &Board) -> bool {
        self@ == other@
    }
}

} // verus!
