//! Propagation is sound: on a grid that agrees with a solution, it places
//! only the symbols of that solution.

use crate::board::initial_grid;
use crate::elimination::{
    boxes_annotated, fixed_symbols, lemma_fixed_among_bits, lemma_fixed_same_symbols,
    lemma_peers_same_symbols, lines_annotated, peers_eliminated,
};
use crate::grid::{member, on_grid, same_symbols, solved, well_formed, well_shaped, Grid};
use crate::position::{
    excludes, last_candidate, lemma_all_excluded, lemma_union_bits, sole_candidate, Position,
};
use crate::propagation::{lemma_round, productive, propagated, round};
use crate::singles::{
    lemma_placement, naked_singles_resolved, only_candidate, placement_upto, unit_placed_from,
    units_placed_from,
};
use crate::unit::{lemma_unit_cells, Unit};
use vstd::prelude::*;

verus! {

/// Whether exactly one square of `unit` holds `symbol` in `s`.
pub open spec fn holds_once(s: Grid, unit: Unit, symbol: int) -> bool {
    exists|i: int| holds_only_at(s, unit, symbol, i)
}

/// Whether the `i`-th square of `unit` holds `symbol` in `s` and no other
/// square of the unit does.
pub open spec fn holds_only_at(s: Grid, unit: Unit, symbol: int, i: int) -> bool {
    &&& 0 <= i < 9
    &&& member(s, unit, i).final_value == symbol
    &&& forall|j: int| 0 <= j < 9 && j != i ==> (#[trigger] member(s, unit, j)).final_value != symbol
}

/// Whether `s` is a solution: every square holds a symbol, and every row,
/// column and box holds each symbol exactly once.
pub open spec fn is_solution(s: Grid) -> bool {
    &&& well_shaped(s)
    &&& forall|row: int, column: int|
        on_grid(row, column) ==> 1 <= (#[trigger] s[row][column]).final_value <= 9
    &&& forall|number: int, symbol: int|
        0 <= number < 27 && 1 <= symbol <= 9 ==> #[trigger] holds_once(
            s,
            Unit::nth(number),
            symbol,
        )
}

/// Whether `g` agrees with `s`: a symbol placed in `g` is the symbol that
/// `s` has in that square, and a blank square of `g` has the symbol of `s`
/// still open.
pub open spec fn agrees(g: Grid, s: Grid) -> bool {
    forall|row: int, column: int|
        on_grid(row, column) ==> if (#[trigger] g[row][column]).final_value != 0 {
            g[row][column].final_value == s[row][column].final_value
        } else {
            !excludes(g[row][column].impossibilities, s[row][column].final_value as int)
        }
}

/// Whether peer elimination has nothing left to do on `g`: a blank square
/// excludes every symbol that is placed in one of its units.
pub open spec fn annotated(g: Grid) -> bool {
    forall|number: int, i: int, j: int|
        #![trigger member(g, Unit::nth(number), i), member(g, Unit::nth(number), j)]
        0 <= number < 27 && 0 <= i < 9 && 0 <= j < 9 && member(
            g,
            Unit::nth(number),
            i,
        ).final_value != 0 && member(g, Unit::nth(number), j).final_value == 0 ==> excludes(
            member(g, Unit::nth(number), j).impossibilities,
            member(g, Unit::nth(number), i).final_value as int,
        )
}

/// The three units of a square are its row, its column and its box.
proof fn lemma_units_of(row: int, column: int)
    requires
        on_grid(row, column),
    ensures
        Unit::nth(row) == Unit::Row(row as usize),
        Unit::nth(9 + column) == Unit::Column(column as usize),
        Unit::nth(18 + Unit::box_number(row, column)) == Unit::box_of(row, column),
        0 <= Unit::box_number(row, column) < 9,
        forall|number: int|
            0 <= number < 27 && #[trigger] Unit::nth(number).contains(row, column) ==> {
                ||| number == row
                ||| number == 9 + column
                ||| number == 18 + Unit::box_number(row, column)
            },
        forall|number: int| 0 <= number < 27 ==> (#[trigger] Unit::nth(number)).valid(),
{
}

/// A symbol placed in a unit of a grid that agrees with a solution is not
/// the solution's symbol for any other square of the unit.
proof fn lemma_placed_elsewhere(g: Grid, s: Grid, number: int, row: int, column: int)
    requires
        is_solution(s),
        agrees(g, s),
        0 <= number < 27,
        Unit::nth(number).contains(row, column),
        g[row][column].final_value == 0,
    ensures
        !excludes(fixed_symbols(g, Unit::nth(number)), s[row][column].final_value as int),
{
    let unit = Unit::nth(number);
    let symbol = s[row][column].final_value as int;
    lemma_units_of(row, column);
    lemma_unit_cells(unit);
    assert(on_grid(row, column));
    lemma_fixed_among_bits(g, unit, 9, symbol);
    if excludes(fixed_symbols(g, unit), symbol) {
        let i = choose|i: int| 0 <= i < 9 && #[trigger] member(g, unit, i).final_value == symbol;
        let j = unit.slot(row, column);
        let (r, c) = unit.cell(i);
        assert(on_grid(r, c));
        assert(g[r][c].final_value == s[r][c].final_value);
        assert(holds_once(s, unit, symbol));
        let only = choose|only: int| holds_only_at(s, unit, symbol, only);
        assert(member(s, unit, i).final_value == symbol);
        assert(member(s, unit, j).final_value == symbol);
        assert(i == only && j == only);
    }
}

/// Peer elimination is sound: it excludes from a blank square no symbol
/// that a solution has there.
pub proof fn lemma_elimination_sound(g: Grid, s: Grid)
    requires
        is_solution(s),
        agrees(g, s),
    ensures
        agrees(lines_annotated(g), s),
        agrees(boxes_annotated(g), s),
        agrees(peers_eliminated(g), s),
{
    let a = lines_annotated(g);
    assert forall|row: int, column: int| on_grid(row, column) implies if (
    #[trigger] a[row][column]).final_value != 0 {
        a[row][column].final_value == s[row][column].final_value
    } else {
        !excludes(a[row][column].impossibilities, s[row][column].final_value as int)
    } by {
        assert(g[row][column].final_value == a[row][column].final_value);
        if g[row][column].final_value == 0 {
            let in_row = fixed_symbols(g, Unit::Row(row as usize));
            let in_column = fixed_symbols(g, Unit::Column(column as usize));
            lemma_units_of(row, column);
            lemma_placed_elsewhere(g, s, row, row, column);
            lemma_placed_elsewhere(g, s, 9 + column, row, column);
            lemma_union_bits(in_row, in_column);
            lemma_union_bits(g[row][column].impossibilities, in_row | in_column);
        }
    }
    lemma_boxes_sound(g, s);
    lemma_boxes_sound(a, s);
}

proof fn lemma_boxes_sound(g: Grid, s: Grid)
    requires
        is_solution(s),
        agrees(g, s),
    ensures
        agrees(boxes_annotated(g), s),
{
    let b = boxes_annotated(g);
    assert forall|row: int, column: int| on_grid(row, column) implies if (
    #[trigger] b[row][column]).final_value != 0 {
        b[row][column].final_value == s[row][column].final_value
    } else {
        !excludes(b[row][column].impossibilities, s[row][column].final_value as int)
    } by {
        assert(g[row][column].final_value == b[row][column].final_value);
        if g[row][column].final_value == 0 {
            let in_box = fixed_symbols(g, Unit::box_of(row, column));
            lemma_units_of(row, column);
            lemma_placed_elsewhere(g, s, 18 + Unit::box_number(row, column), row, column);
            lemma_union_bits(g[row][column].impossibilities, in_box);
        }
    }
}

/// After peer elimination a blank square excludes every symbol that is
/// placed in one of its units.
pub proof fn lemma_peers_annotated(g: Grid)
    requires
        well_formed(g),
    ensures
        annotated(peers_eliminated(g)),
{
    let a = lines_annotated(g);
    let e = peers_eliminated(g);
    lemma_peers_same_symbols(g);
    assert forall|number: int, i: int, j: int|
        #![trigger member(e, Unit::nth(number), i), member(e, Unit::nth(number), j)]
        0 <= number < 27 && 0 <= i < 9 && 0 <= j < 9 && member(
            e,
            Unit::nth(number),
            i,
        ).final_value != 0 && member(e, Unit::nth(number), j).final_value == 0 implies excludes(
        member(e, Unit::nth(number), j).impossibilities,
        member(e, Unit::nth(number), i).final_value as int,
    ) by {
        let unit = Unit::nth(number);
        let (row, column) = unit.cell(j);
        let (r, c) = unit.cell(i);
        let symbol = member(e, unit, i).final_value as int;
        lemma_units_of(0, 0);
        lemma_unit_cells(unit);
        assert(on_grid(row, column) && on_grid(r, c));
        lemma_units_of(row, column);
        assert(e[r][c].final_value == g[r][c].final_value);
        assert(g[r][c].wf());
        assert(member(g, unit, i).final_value == symbol);
        lemma_fixed_among_bits(g, unit, 9, symbol);
        assert(excludes(fixed_symbols(g, unit), symbol));
        let in_row = fixed_symbols(g, Unit::Row(row as usize));
        let in_column = fixed_symbols(g, Unit::Column(column as usize));
        let in_box = fixed_symbols(a, Unit::box_of(row, column));
        lemma_fixed_same_symbols(g, a, Unit::box_of(row, column), 9);
        lemma_union_bits(in_row, in_column);
        lemma_union_bits(g[row][column].impossibilities, in_row | in_column);
        lemma_union_bits(a[row][column].impossibilities, in_box);
        assert(a[row][column].impossibilities == g[row][column].impossibilities | (in_row
            | in_column));
        assert(e[row][column].impossibilities == a[row][column].impossibilities | in_box);
        if number == row {
            assert(excludes(in_row, symbol));
        } else if number == 9 + column {
            assert(excludes(in_column, symbol));
        } else {
            assert(number == 18 + Unit::box_number(row, column));
            assert(excludes(in_box, symbol));
        }
        assert(member(e, unit, j) == e[row][column]);
    }
}

/// Resolving the naked singles is sound: the one symbol left open in a
/// square is the solution's.
pub proof fn lemma_naked_singles_sound(g: Grid, s: Grid)
    requires
        is_solution(s),
        agrees(g, s),
    ensures
        agrees(naked_singles_resolved(g), s),
{
    let h = naked_singles_resolved(g);
    assert forall|row: int, column: int| on_grid(row, column) implies if (
    #[trigger] h[row][column]).final_value != 0 {
        h[row][column].final_value == s[row][column].final_value
    } else {
        !excludes(h[row][column].impossibilities, s[row][column].final_value as int)
    } by {
        let p = g[row][column];
        let symbol = s[row][column].final_value as int;
        if p.is_naked_single() {
            let chosen = choose|k: int| sole_candidate(p.impossibilities, k);
            assert(sole_candidate(p.impossibilities, chosen));
            assert(last_candidate(p.impossibilities) == chosen);
            assert(!excludes(p.impossibilities, symbol));
            assert(chosen == symbol);
        }
    }
}

/// Placing the hidden singles of a unit is sound where peer elimination has
/// been done: the one square of a unit that can take a symbol is the square
/// where the solution has it.
pub proof fn lemma_unit_placed_sound(g: Grid, h: Grid, s: Grid, number: int)
    requires
        is_solution(s),
        agrees(g, s),
        agrees(h, s),
        annotated(g),
        0 <= number < 27,
    ensures
        agrees(unit_placed_from(g, h, Unit::nth(number)), s),
{
    let unit = Unit::nth(number);
    let k = unit_placed_from(g, h, unit);
    lemma_units_of(0, 0);
    lemma_unit_cells(unit);
    assert forall|row: int, column: int| on_grid(row, column) implies if (
    #[trigger] k[row][column]).final_value != 0 {
        k[row][column].final_value == s[row][column].final_value
    } else {
        !excludes(k[row][column].impossibilities, s[row][column].final_value as int)
    } by {
        assert(h[row][column].final_value != 0 ==> h[row][column].final_value
            == s[row][column].final_value);
        if unit.contains(row, column) {
            let j = unit.slot(row, column);
            let placed = placement_upto(g, unit, j, 9);
            lemma_placement(g, unit, j, 9);
            assert(member(h, unit, j) == h[row][column]);
            if placed != 0 {
                assert(only_candidate(g, unit, placed, 9, j));
                assert(holds_once(s, unit, placed));
                let i = choose|i: int| holds_only_at(s, unit, placed, i);
                let (r, c) = unit.cell(i);
                assert(on_grid(r, c));
                assert(member(g, unit, i) == g[r][c]);
                assert(member(s, unit, i) == s[r][c]);
                if g[r][c].final_value == 0 {
                    assert(member(g, unit, i).admits(placed));
                    assert(i == j);
                } else {
                    assert(member(g, unit, i).final_value == placed);
                    assert(member(g, unit, j).final_value == 0);
                    assert(excludes(member(g, unit, j).impossibilities, placed));
                }
                assert(member(s, unit, j) == s[row][column]);
                assert(k[row][column] == Position::assigned(placed as u8));
            }
        }
    }
}

/// Placing the hidden singles of a run of units is sound where peer
/// elimination has been done.
pub proof fn lemma_units_placed_sound(g: Grid, h: Grid, s: Grid, from: int, to: int)
    requires
        is_solution(s),
        agrees(g, s),
        agrees(h, s),
        annotated(g),
        0 <= from <= to <= 27,
    ensures
        agrees(units_placed_from(g, h, from, to), s),
    decreases to - from,
{
    if from < to {
        lemma_units_placed_sound(g, h, s, from, to - 1);
        lemma_unit_placed_sound(g, units_placed_from(g, h, from, to - 1), s, to - 1);
    }
}

/// A round is sound: on a grid that agrees with a solution it places only
/// the solution's symbols and excludes none of them.
pub proof fn lemma_round_sound(g: Grid, s: Grid)
    requires
        well_formed(g),
        is_solution(s),
        agrees(g, s),
    ensures
        agrees(peers_eliminated(g), s),
        agrees(round(g), s),
{
    let e = peers_eliminated(g);
    lemma_elimination_sound(g, s);
    lemma_peers_annotated(g);
    lemma_naked_singles_sound(e, s);
    lemma_units_placed_sound(e, e, s, 0, 27);
}

/// Propagation is sound: started on a grid that agrees with a solution, it
/// ends on one that agrees with it, and if it ends with every square
/// filled, the grid holds the solution.
pub proof fn lemma_propagation_sound(g: Grid, s: Grid, rounds: nat)
    requires
        well_formed(g),
        is_solution(s),
        agrees(g, s),
    ensures
        agrees(propagated(g, rounds), s),
        solved(propagated(g, rounds)) ==> same_symbols(s, propagated(g, rounds)),
    decreases rounds,
{
    lemma_round(g);
    lemma_round_sound(g, s);
    if rounds != 0 && !solved(g) && productive(g) {
        lemma_propagation_sound(round(g), s, (rounds - 1) as nat);
    }
    let end = propagated(g, rounds);
    if solved(end) {
        assert forall|row: int, column: int| on_grid(row, column) implies (
        #[trigger] end[row][column]).final_value == s[row][column].final_value by {
        }
    }
}

/// The grid made from clues agrees with every solution that has the clues.
pub proof fn lemma_clues_agree(array: [[u8; 9]; 9], s: Grid)
    requires
        forall|row: int, column: int|
            on_grid(row, column) && array[row][column] != 0 ==> #[trigger] s[row][column].final_value
                == array[row][column],
    ensures
        agrees(initial_grid(array), s),
{
    let g = initial_grid(array);
    assert(forall|k: u16| k < 16 ==> (0u16 >> k) & 1 == 0) by (bit_vector);
    assert forall|row: int, column: int| on_grid(row, column) implies if (
    #[trigger] g[row][column]).final_value != 0 {
        g[row][column].final_value == s[row][column].final_value
    } else {
        !excludes(g[row][column].impossibilities, s[row][column].final_value as int)
    } by {
        assert(g[row][column] == Position::holding(array[row][column]));
        if array[row][column] == 0 {
            let symbol = s[row][column].final_value as int;
            if 1 <= symbol <= 9 {
                assert((0u16 >> (symbol as u16)) & 1 == 0);
            }
        } else {
            assert(s[row][column].final_value == array[row][column]);
        }
    }
}

/// Solving is sound: on a board made from the clues of a solution, what
/// propagation leaves agrees with the solution, and if every square is
/// filled, the board holds the solution.
pub proof fn lemma_solving_sound(array: [[u8; 9]; 9], s: Grid)
    requires
        is_solution(s),
        forall|row: int, column: int|
            on_grid(row, column) && array[row][column] != 0 ==> #[trigger] s[row][column].final_value
                == array[row][column],
    ensures
        agrees(propagated(initial_grid(array), 81), s),
        solved(propagated(initial_grid(array), 81)) ==> same_symbols(
            s,
            propagated(initial_grid(array), 81),
        ),
{
    let g = initial_grid(array);
    lemma_clues_agree(array, s);
    lemma_all_excluded();
    assert(0u16 & 0x3feu16 == 0u16) by (bit_vector);
    assert forall|row: int, column: int| on_grid(row, column) implies (
    #[trigger] g[row][column]).wf() by {
        assert(1 <= s[row][column].final_value <= 9);
    }
    lemma_propagation_sound(g, s, 81);
}

} // verus!
