//! The grid as a mathematical value: nine rows of nine squares, and the
//! relations between two grids that the propagation is described by.

use crate::position::Position;
use crate::unit::Unit;
use vstd::prelude::*;

verus! {

/// Nine rows of nine squares.
pub type Grid = Seq<Seq<Position>>;

/// Whether (`row`, `column`) is a square of the grid.
pub open spec fn on_grid(row: int, column: int) -> bool {
    0 <= row < 9 && 0 <= column < 9
}

/// Whether `g` has nine rows of nine squares.
pub open spec fn well_shaped(g: Grid) -> bool {
    &&& g.len() == 9
    &&& forall|row: int| 0 <= row < 9 ==> (#[trigger] g[row]).len() == 9
}

/// Whether `g` has the right shape and every square keeps its invariant.
pub open spec fn well_formed(g: Grid) -> bool {
    &&& well_shaped(g)
    &&& forall|row: int, column: int| on_grid(row, column) ==> (#[trigger] g[row][column]).wf()
}

/// The `i`-th square of `unit` in `g`.
pub open spec fn member(g: Grid, unit: Unit, i: int) -> Position {
    g[unit.cell(i).0][unit.cell(i).1]
}

/// The `k`-th square of `g`, counted row by row.
pub open spec fn nth_square(g: Grid, k: int) -> Position {
    g[k / 9][k % 9]
}

/// The grid `g` with the square at (`row`, `column`) replaced by `p`.
pub open spec fn with_square(g: Grid, row: int, column: int, p: Position) -> Grid {
    g.update(row, g[row].update(column, p))
}

/// Whether every square holds a symbol.
pub open spec fn solved(g: Grid) -> bool {
    forall|row: int, column: int|
        on_grid(row, column) ==> (#[trigger] g[row][column]).final_value != 0
}

/// How many of the first `n` squares, counted row by row, are blank.
pub open spec fn blanks_among(g: Grid, n: int) -> nat
    decreases n,
{
    if n <= 0 {
        0
    } else if nth_square(g, n - 1).final_value == 0 {
        blanks_among(g, n - 1) + 1
    } else {
        blanks_among(g, n - 1)
    }
}

/// How many squares are blank.
pub open spec fn unassigned(g: Grid) -> nat {
    blanks_among(g, 81)
}

/// Whether `h` has the symbols of `g` in the same squares, and no others.
pub open spec fn same_symbols(g: Grid, h: Grid) -> bool {
    forall|row: int, column: int|
        on_grid(row, column) ==> (#[trigger] h[row][column]).final_value
            == g[row][column].final_value
}

/// Whether every symbol of `g` is still in its square in `h`.
pub open spec fn keeps_symbols(g: Grid, h: Grid) -> bool {
    forall|row: int, column: int|
        on_grid(row, column) && g[row][column].final_value != 0 ==> (
        #[trigger] h[row][column]).final_value == g[row][column].final_value
}

/// Whether `h` comes from `g` by placing symbols in blank squares: every
/// square is as it was, or was blank and now holds a symbol.
pub open spec fn settles(g: Grid, h: Grid) -> bool {
    forall|row: int, column: int|
        on_grid(row, column) ==> {
            ||| (#[trigger] h[row][column]) == g[row][column]
            ||| (g[row][column].final_value == 0 && h[row][column].final_value != 0)
        }
}

/// Two grids that agree square by square are equal.
pub proof fn lemma_grid_equal(g: Grid, h: Grid)
    requires
        well_shaped(g),
        well_shaped(h),
        forall|row: int, column: int|
            on_grid(row, column) ==> #[trigger] g[row][column] == h[row][column],
    ensures
        g == h,
{
    assert forall|row: int| 0 <= row < 9 implies #[trigger] g[row] =~= h[row] by {
        assert forall|column: int| 0 <= column < 9 implies g[row][column] == h[row][column] by {
            assert(on_grid(row, column));
        }
    }
    assert(g =~= h);
}

/// Among the first `n` squares there are at most `n` blanks, and none
/// exactly when each of them holds a symbol.
proof fn lemma_blanks_count(g: Grid, n: int)
    requires
        0 <= n <= 81,
    ensures
        blanks_among(g, n) <= n,
        blanks_among(g, n) == 0 <==> forall|k: int|
            0 <= k < n ==> (#[trigger] nth_square(g, k)).final_value != 0,
    decreases n,
{
    if n > 0 {
        lemma_blanks_count(g, n - 1);
        if blanks_among(g, n) == 0 {
            assert forall|k: int| 0 <= k < n implies (#[trigger] nth_square(g, k)).final_value
                != 0 by {
                if k == n - 1 {
                    assert(nth_square(g, n - 1).final_value != 0);
                }
            }
        }
    }
}

/// There are at most 81 blanks, and none exactly when the grid is solved.
pub proof fn lemma_unassigned(g: Grid)
    ensures
        unassigned(g) <= 81,
        solved(g) <==> unassigned(g) == 0,
{
    lemma_blanks_count(g, 81);
    if unassigned(g) == 0 {
        assert forall|row: int, column: int| on_grid(row, column) implies (
        #[trigger] g[row][column]).final_value != 0 by {
            let k = 9 * row + column;
            assert(k / 9 == row && k % 9 == column);
            assert(nth_square(g, k).final_value != 0);
        }
    } else {
        let k = choose|k: int| 0 <= k < 81 && (#[trigger] nth_square(g, k)).final_value == 0;
        assert(on_grid(k / 9, k % 9));
        assert(g[k / 9][k % 9].final_value == 0);
    }
}

/// A grid that keeps every symbol of another has no more blanks among its
/// first `n` squares.
proof fn lemma_blanks_monotone(g: Grid, h: Grid, n: int)
    requires
        0 <= n <= 81,
        forall|row: int, column: int|
            on_grid(row, column) && g[row][column].final_value != 0 ==> (
            #[trigger] h[row][column]).final_value != 0,
    ensures
        blanks_among(h, n) <= blanks_among(g, n),
    decreases n,
{
    if n > 0 {
        lemma_blanks_monotone(g, h, n - 1);
        let row = (n - 1) / 9;
        let column = (n - 1) % 9;
        assert(on_grid(row, column));
        if g[row][column].final_value != 0 {
            assert(h[row][column].final_value != 0);
        }
    }
}

/// A grid that keeps every symbol of another and holds one more, among its
/// first `n` squares, has fewer blanks among them.
proof fn lemma_blanks_decrease(g: Grid, h: Grid, n: int, row: int, column: int)
    requires
        0 <= n <= 81,
        forall|row: int, column: int|
            on_grid(row, column) && g[row][column].final_value != 0 ==> (
            #[trigger] h[row][column]).final_value != 0,
        on_grid(row, column),
        9 * row + column < n,
        g[row][column].final_value == 0,
        h[row][column].final_value != 0,
    ensures
        blanks_among(h, n) < blanks_among(g, n),
    decreases n,
{
    lemma_blanks_monotone(g, h, n - 1);
    if 9 * row + column < n - 1 {
        lemma_blanks_decrease(g, h, n - 1, row, column);
        let r = (n - 1) / 9;
        let c = (n - 1) % 9;
        assert(on_grid(r, c));
        if g[r][c].final_value != 0 {
            assert(h[r][c].final_value != 0);
        }
    } else {
        assert((n - 1) / 9 == row && (n - 1) % 9 == column);
    }
}

/// Two grids with the same symbols have as many blanks.
pub proof fn lemma_same_symbols_unassigned(g: Grid, h: Grid)
    requires
        same_symbols(g, h),
    ensures
        unassigned(h) == unassigned(g),
        solved(h) == solved(g),
{
    assert forall|row: int, column: int|
        on_grid(row, column) && g[row][column].final_value != 0 implies (
    #[trigger] h[row][column]).final_value != 0 by {
    }
    assert forall|row: int, column: int|
        on_grid(row, column) && h[row][column].final_value != 0 implies (
    #[trigger] g[row][column]).final_value != 0 by {
        assert(h[row][column].final_value == g[row][column].final_value);
    }
    lemma_blanks_monotone(g, h, 81);
    lemma_blanks_monotone(h, g, 81);
    lemma_unassigned(g);
    lemma_unassigned(h);
}

/// Placing symbols in blank squares, unless it changes nothing, leaves fewer
/// blanks than there were.
pub proof fn lemma_settles_unassigned(g: Grid, h: Grid)
    requires
        well_shaped(g),
        well_shaped(h),
        settles(g, h),
    ensures
        unassigned(h) <= unassigned(g),
        h != g ==> unassigned(h) < unassigned(g),
{
    assert forall|row: int, column: int|
        on_grid(row, column) && g[row][column].final_value != 0 implies (
    #[trigger] h[row][column]).final_value != 0 by {
    }
    lemma_blanks_monotone(g, h, 81);
    if h != g {
        if forall|row: int, column: int|
            on_grid(row, column) ==> #[trigger] h[row][column] == g[row][column] {
            lemma_grid_equal(h, g);
        }
        let (row, column) = choose|row: int, column: int|
            on_grid(row, column) && #[trigger] h[row][column] != g[row][column];
        lemma_blanks_decrease(g, h, 81, row, column);
    }
}

} // verus!
