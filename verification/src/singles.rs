//! Placing symbols: a naked single is a blank square with one symbol left
//! open; a hidden single is a symbol with one square left to go to in a unit.

use crate::board::Board;
use crate::grid::{
    lemma_grid_equal, member, on_grid, settles, well_formed, well_shaped, Grid,
};
use crate::position::{excludes, last_candidate, lemma_all_excluded, sole_candidate, Position};
use crate::unit::{lemma_unit_cells, Line, Unit};
use vstd::prelude::*;

verus! {

/// The grid after every blank square with one open symbol has taken it.
pub open spec fn naked_singles_resolved(g: Grid) -> Grid {
    Seq::new(9, |row: int| Seq::new(9, |column: int| g[row][column].resolved()))
}

/// How many of the first `n` squares of `unit` could still take `symbol`.
pub open spec fn candidates_among(g: Grid, unit: Unit, symbol: int, n: int) -> nat
    decreases n,
{
    if n <= 0 {
        0
    } else if member(g, unit, n - 1).admits(symbol) {
        candidates_among(g, unit, symbol, n - 1) + 1
    } else {
        candidates_among(g, unit, symbol, n - 1)
    }
}

/// Whether exactly one square of `unit` could still take `symbol`.
pub open spec fn is_hidden_single(g: Grid, unit: Unit, symbol: int) -> bool {
    candidates_among(g, unit, symbol, 9) == 1
}

/// The greatest symbol, no greater than `limit`, that is a hidden single of
/// `unit` and that the unit's `i`-th square could take; 0 if there is none.
pub open spec fn placement_upto(g: Grid, unit: Unit, i: int, limit: int) -> int
    decreases limit,
{
    if limit <= 0 {
        0
    } else if is_hidden_single(g, unit, limit) && member(g, unit, i).admits(limit) {
        limit
    } else {
        placement_upto(g, unit, i, limit - 1)
    }
}

/// Whether `unit` has a hidden single among the symbols up to `limit`.
pub open spec fn has_hidden_single(g: Grid, unit: Unit, limit: int) -> bool {
    exists|symbol: int| 1 <= symbol <= limit && is_hidden_single(g, unit, symbol)
}

/// The `i`-th square of `unit` in `h` once the hidden singles up to `limit`
/// that `unit` has on `g` are placed.
pub open spec fn member_placed(g: Grid, h: Grid, unit: Unit, i: int, limit: int) -> Position {
    if placement_upto(g, unit, i, limit) != 0 {
        Position::assigned(placement_upto(g, unit, i, limit) as u8)
    } else {
        member(h, unit, i)
    }
}

/// The grid `h` after the hidden singles that `unit` has on `g` are placed
/// in it. Which symbol goes where is settled on `g`, and the symbols are
/// placed in increasing order: a square that is the only candidate for two
/// symbols ends with the greater, the later placement replacing the earlier.
pub open spec fn unit_placed_from(g: Grid, h: Grid, unit: Unit) -> Grid {
    Seq::new(
        9,
        |row: int|
            Seq::new(
                9,
                |column: int|
                    if unit.contains(row, column) {
                        member_placed(g, h, unit, unit.slot(row, column), 9)
                    } else {
                        h[row][column]
                    },
            ),
    )
}

/// The grid after the hidden-single pass over `unit` alone.
pub open spec fn unit_placed(g: Grid, unit: Unit) -> Grid {
    unit_placed_from(g, g, unit)
}

/// The grid `h` after the hidden singles that the units numbered from
/// `from` up to, not including, `to` have on `g` are placed in it, one unit
/// after the other: rows are numbered 0 to 8, columns 9 to 17 and boxes 18
/// to 26.
pub open spec fn units_placed_from(g: Grid, h: Grid, from: int, to: int) -> Grid
    decreases to - from,
{
    if to <= from {
        h
    } else {
        unit_placed_from(g, units_placed_from(g, h, from, to - 1), Unit::nth(to - 1))
    }
}

/// The grid after the hidden-single pass over all rows, then all columns.
pub open spec fn lines_placed(g: Grid) -> Grid {
    units_placed_from(g, g, 0, 18)
}

/// The grid after the hidden-single pass over all boxes.
pub open spec fn boxes_placed(g: Grid) -> Grid {
    units_placed_from(g, g, 18, 27)
}

/// The grid after the hidden-single pass over every unit: rows, then
/// columns, then boxes. Every hidden single is one of `g`, the grid as the
/// pass finds it: what the pass places on the way changes no count.
pub open spec fn hidden_singles_placed(g: Grid) -> Grid {
    units_placed_from(g, g, 0, 27)
}

/// Resolving the naked singles keeps every square's invariant and changes a
/// square only by placing a symbol in a blank one.
pub proof fn lemma_naked_singles(g: Grid)
    requires
        well_formed(g),
    ensures
        well_formed(naked_singles_resolved(g)),
        settles(g, naked_singles_resolved(g)),
{
    let h = naked_singles_resolved(g);
    lemma_all_excluded();
    assert forall|row: int, column: int| on_grid(row, column) implies {
        &&& (#[trigger] h[row][column]).wf()
        &&& (h[row][column] == g[row][column] || (g[row][column].final_value == 0
            && h[row][column].final_value != 0))
    } by {
        let p = g[row][column];
        if p.is_naked_single() {
            let chosen = choose|symbol: int| sole_candidate(p.impossibilities, symbol);
            assert(sole_candidate(p.impossibilities, chosen));
            assert(last_candidate(p.impossibilities) == chosen);
        }
    }
}

/// A unit has at most as many candidates as squares.
pub proof fn lemma_candidates_bound(g: Grid, unit: Unit, symbol: int, n: int)
    requires
        0 <= n,
    ensures
        candidates_among(g, unit, symbol, n) <= n,
    decreases n,
{
    if n > 0 {
        lemma_candidates_bound(g, unit, symbol, n - 1);
    }
}

/// Whether the `i`-th of the first `n` squares of `unit` is the only one
/// among them that could still take `symbol`.
pub open spec fn only_candidate(g: Grid, unit: Unit, symbol: int, n: int, i: int) -> bool {
    &&& 0 <= i < n
    &&& member(g, unit, i).admits(symbol)
    &&& forall|j: int| 0 <= j < n && j != i ==> !(#[trigger] member(g, unit, j)).admits(symbol)
}

/// Among the first `n` squares of a unit, none is a candidate for a symbol
/// when the count is 0, and exactly one is when the count is 1.
pub proof fn lemma_candidates_count(g: Grid, unit: Unit, symbol: int, n: int)
    requires
        0 <= n,
    ensures
        candidates_among(g, unit, symbol, n) == 0 <==> forall|i: int|
            0 <= i < n ==> !(#[trigger] member(g, unit, i)).admits(symbol),
        candidates_among(g, unit, symbol, n) == 1 <==> exists|i: int|
            only_candidate(g, unit, symbol, n, i),
    decreases n,
{
    if n > 0 {
        let m = n - 1;
        lemma_candidates_count(g, unit, symbol, m);
        let before = candidates_among(g, unit, symbol, m);
        if candidates_among(g, unit, symbol, n) == 1 {
            if member(g, unit, m).admits(symbol) {
                assert(before == 0);
                assert(only_candidate(g, unit, symbol, n, m));
            } else {
                let i = choose|i: int| #[trigger] only_candidate(g, unit, symbol, m, i);
                assert(only_candidate(g, unit, symbol, n, i));
            }
        }
        if exists|i: int| only_candidate(g, unit, symbol, n, i) {
            let i = choose|i: int| only_candidate(g, unit, symbol, n, i);
            if i == m {
                assert(forall|j: int|
                    0 <= j < m ==> !(#[trigger] member(g, unit, j)).admits(symbol));
            } else {
                assert(!member(g, unit, m).admits(symbol));
                assert(only_candidate(g, unit, symbol, m, i));
            }
        }
        if candidates_among(g, unit, symbol, n) == 0 {
            assert(before == 0);
        }
        if forall|i: int| 0 <= i < n ==> !(#[trigger] member(g, unit, i)).admits(symbol) {
            assert(!member(g, unit, n - 1).admits(symbol));
        }
    }
}

/// A hidden single has one square to go to: exactly one square of the unit
/// is blank and has the symbol open.
pub proof fn lemma_hidden_single(g: Grid, unit: Unit, symbol: int)
    ensures
        is_hidden_single(g, unit, symbol) <==> exists|i: int|
            only_candidate(g, unit, symbol, 9, i),
{
    lemma_candidates_count(g, unit, symbol, 9);
}

/// What the hidden-single pass places in a square is a symbol that the
/// square could take and that no other square of the unit could.
pub proof fn lemma_placement(g: Grid, unit: Unit, i: int, limit: int)
    requires
        0 <= limit <= 9,
        0 <= i < 9,
    ensures
        0 <= placement_upto(g, unit, i, limit) <= limit,
        placement_upto(g, unit, i, limit) != 0 ==> only_candidate(
            g,
            unit,
            placement_upto(g, unit, i, limit),
            9,
            i,
        ),
    decreases limit,
{
    if limit > 0 {
        lemma_placement(g, unit, i, limit - 1);
        if placement_upto(g, unit, i, limit) == limit {
            lemma_hidden_single(g, unit, limit);
            let only = choose|only: int| only_candidate(g, unit, limit, 9, only);
            assert(only == i);
        }
    }
}

/// A hidden single is placed: the square that is its only candidate gets a
/// symbol, that one or a greater one.
pub proof fn lemma_hidden_single_placed(g: Grid, unit: Unit, symbol: int, limit: int)
    requires
        1 <= symbol <= limit <= 9,
        is_hidden_single(g, unit, symbol),
    ensures
        exists|i: int|
            0 <= i < 9 && member(g, unit, i).final_value == 0 && #[trigger] placement_upto(
                g,
                unit,
                i,
                limit,
            ) >= symbol,
{
    lemma_hidden_single(g, unit, symbol);
    let i = choose|i: int| only_candidate(g, unit, symbol, 9, i);
    lemma_placement_reaches(g, unit, i, symbol, limit);
}

proof fn lemma_placement_reaches(g: Grid, unit: Unit, i: int, symbol: int, limit: int)
    requires
        1 <= symbol <= limit,
        is_hidden_single(g, unit, symbol),
        member(g, unit, i).admits(symbol),
    ensures
        placement_upto(g, unit, i, limit) >= symbol,
    decreases limit,
{
    if symbol < limit {
        lemma_placement_reaches(g, unit, i, symbol, limit - 1);
    }
}

/// Placing the hidden singles that a unit has on `g` in a grid that comes
/// from `g` by placing symbols in blank squares gives such a grid again, and
/// keeps every square's invariant. The grid changes unless the unit has no
/// hidden single, and then it stays as it is.
pub proof fn lemma_unit_placed_from(g: Grid, h: Grid, unit: Unit)
    requires
        well_formed(g),
        well_formed(h),
        settles(g, h),
        unit.valid(),
    ensures
        well_formed(unit_placed_from(g, h, unit)),
        settles(g, unit_placed_from(g, h, unit)),
        has_hidden_single(g, unit, 9) ==> unit_placed_from(g, h, unit) != g,
        !has_hidden_single(g, unit, 9) ==> unit_placed_from(g, h, unit) == h,
{
    let k = unit_placed_from(g, h, unit);
    lemma_unit_cells(unit);
    lemma_all_excluded();
    assert forall|row: int, column: int| on_grid(row, column) implies {
        &&& (#[trigger] k[row][column]).wf()
        &&& (k[row][column] == g[row][column] || (g[row][column].final_value == 0
            && k[row][column].final_value != 0))
    } by {
        assert(h[row][column] == g[row][column] || (g[row][column].final_value == 0
            && h[row][column].final_value != 0));
        if unit.contains(row, column) {
            let i = unit.slot(row, column);
            lemma_placement(g, unit, i, 9);
            assert(member(g, unit, i) == g[row][column]);
        }
    }
    if has_hidden_single(g, unit, 9) {
        let symbol = choose|symbol: int| 1 <= symbol <= 9 && is_hidden_single(g, unit, symbol);
        lemma_hidden_single_placed(g, unit, symbol, 9);
        let i = choose|i: int|
            0 <= i < 9 && member(g, unit, i).final_value == 0 && #[trigger] placement_upto(
                g,
                unit,
                i,
                9,
            ) >= symbol;
        let (row, column) = unit.cell(i);
        lemma_placement(g, unit, i, 9);
        assert(on_grid(row, column) && unit.contains(row, column) && unit.slot(row, column) == i);
        assert(k[row][column] == Position::assigned(placement_upto(g, unit, i, 9) as u8));
        assert(g[row][column].final_value == 0);
    } else {
        assert forall|row: int, column: int| on_grid(row, column) implies (
        #[trigger] k[row][column]) == h[row][column] by {
            if unit.contains(row, column) {
                let i = unit.slot(row, column);
                let placed = placement_upto(g, unit, i, 9);
                lemma_placement(g, unit, i, 9);
                if placed != 0 {
                    lemma_hidden_single(g, unit, placed);
                    assert(is_hidden_single(g, unit, placed));
                }
                assert(member(h, unit, i) == h[row][column]);
            }
        }
        lemma_grid_equal(k, h);
    }
}

/// Placing the hidden singles that a run of units has on `g` in a grid that
/// comes from `g` by placing symbols in blank squares gives such a grid
/// again, and keeps every square's invariant.
pub proof fn lemma_units_placed_from(g: Grid, h: Grid, from: int, to: int)
    requires
        well_formed(g),
        well_formed(h),
        settles(g, h),
        0 <= from <= to <= 27,
    ensures
        well_formed(units_placed_from(g, h, from, to)),
        settles(g, units_placed_from(g, h, from, to)),
    decreases to - from,
{
    if to > from {
        lemma_units_placed_from(g, h, from, to - 1);
        lemma_unit_placed_from(g, units_placed_from(g, h, from, to - 1), Unit::nth(to - 1));
    }
}

/// A run of units can be taken in two parts.
pub proof fn lemma_units_placed_split(g: Grid, h: Grid, from: int, mid: int, to: int)
    requires
        from <= mid <= to,
    ensures
        units_placed_from(g, units_placed_from(g, h, from, mid), mid, to) == units_placed_from(
            g,
            h,
            from,
            to,
        ),
    decreases to - mid,
{
    if mid < to {
        lemma_units_placed_split(g, h, from, mid, to - 1);
    }
}

/// The hidden-single pass over every unit keeps every square's invariant
/// and changes a square only by placing a symbol in a blank one.
pub proof fn lemma_hidden_singles_placed(g: Grid)
    requires
        well_formed(g),
    ensures
        well_formed(hidden_singles_placed(g)),
        settles(g, hidden_singles_placed(g)),
{
    lemma_units_placed_from(g, g, 0, 27);
}

impl Board {
    /// For each symbol, how many squares of `unit` could still take it; the
    /// count for symbol `s` is at index `s - 1`.
    pub fn count_in_unit(&self, unit: Unit) -> (counts: [u8; 9])
        requires
            unit.valid(),
        ensures
            forall|s: int|
                0 <= s < 9 ==> #[trigger] counts[s] == candidates_among(self@, unit, s + 1, 9),
    {
        let mut array: [u8; 9] = [0; 9];
        let mut i: usize = 0;
        while i < 9
            invariant
                i <= 9,
                unit.valid(),
                forall|s: int|
                    0 <= s < 9 ==> #[trigger] array[s] == candidates_among(
                        self@,
                        unit,
                        s + 1,
                        i as int,
                    ),
            decreases 9 - i,
        {
            let position = self.unit_position(unit, i);
            if position.final_value == 0 {
                let bits: u16 = position.impossibilities;
                let mut ii: usize = 0;
                while ii < 9
                    invariant
                        ii <= 9,
                        i < 9,
                        position == member(self@, unit, i as int),
                        position.final_value == 0,
                        bits == position.impossibilities,
                        forall|s: int|
                            0 <= s < ii ==> #[trigger] array[s] == candidates_among(
                                self@,
                                unit,
                                s + 1,
                                i + 1,
                            ),
                        forall|s: int|
                            ii <= s < 9 ==> #[trigger] array[s] == candidates_among(
                                self@,
                                unit,
                                s + 1,
                                i as int,
                            ),
                    decreases 9 - ii,
                {
                    let shift: u16 = (ii + 1) as u16;
                    assert((bits >> shift) & 1 == 0 || (bits >> shift) & 1 == 1) by (bit_vector);
                    if (bits >> shift) & 1 == 0 {
                        proof {
                            lemma_candidates_bound(self@, unit, ii + 1, i as int);
                        }
                        let count: u8 = array[ii];
                        array[ii] = count + 1;
                    }
                    ii += 1;
                }
            }
            i += 1;
        }
        array
    }

    /// For each symbol, how many squares of `line` could still take it.
    pub fn get_count_in_line(&self, line: Line) -> (counts: [u8; 9])
        requires
            line.valid(),
        ensures
            forall|s: int|
                0 <= s < 9 ==> #[trigger] counts[s] == candidates_among(
                    self@,
                    line.as_unit(),
                    s + 1,
                    9,
                ),
    {
        self.count_in_unit(line.unit())
    }

    /// For each symbol, how many squares of the box whose top left square is
    /// at row `x`, column `y` could still take it.
    pub fn get_count_in_box(&self, x: usize, y: usize) -> (counts: [u8; 9])
        requires
            x <= 6,
            y <= 6,
        ensures
            forall|s: int|
                0 <= s < 9 ==> #[trigger] counts[s] == candidates_among(
                    self@,
                    Unit::Square(x, y),
                    s + 1,
                    9,
                ),
    {
        self.count_in_unit(Unit::Square(x, y))
    }

    /// Places in this board the hidden singles that `unit` has on `found`:
    /// each symbol that exactly one square of the unit could take there is
    /// placed in that square, whatever else the square has open, symbols in
    /// increasing order; a later placement replaces an earlier one in the
    /// same square. Says whether the unit has a hidden single.
    pub fn place_hidden_singles(&mut self, found: &Board, unit: Unit) -> (changed: bool)
        requires
            old(self).wf(),
            found.wf(),
            settles(found@, old(self)@),
            unit.valid(),
        ensures
            final(self)@ == unit_placed_from(found@, old(self)@, unit),
            changed == has_hidden_single(found@, unit, 9),
            changed ==> final(self)@ != found@,
            !changed ==> final(self)@ == old(self)@,
            final(self).wf(),
            settles(found@, final(self)@),
    {
        let mut change_happened = false;
        let counts = found.count_in_unit(unit);
        let mut i: u8 = 0;
        proof {
            self.lemma_shape();
        }
        while i < 9
            invariant
                i <= 9,
                unit.valid(),
                found.wf(),
                well_shaped(self@),
                forall|s: int|
                    0 <= s < 9 ==> #[trigger] counts[s] == candidates_among(
                        found@,
                        unit,
                        s + 1,
                        9,
                    ),
                forall|row: int, column: int|
                    on_grid(row, column) ==> #[trigger] self@[row][column] == if unit.contains(
                        row,
                        column,
                    ) {
                        member_placed(found@, old(self)@, unit, unit.slot(row, column), i as int)
                    } else {
                        old(self)@[row][column]
                    },
                change_happened == has_hidden_single(found@, unit, i as int),
            decreases 9 - i,
        {
            if counts[i as usize] == 1 {
                let mut ii: usize = 0;
                while ii < 9
                    invariant
                        ii <= 9,
                        i < 9,
                        unit.valid(),
                        found.wf(),
                        well_shaped(self@),
                        is_hidden_single(found@, unit, i + 1),
                        forall|row: int, column: int|
                            on_grid(row, column) ==> #[trigger] self@[row][column]
                                == if unit.contains(row, column) {
                                member_placed(
                                    found@,
                                    old(self)@,
                                    unit,
                                    unit.slot(row, column),
                                    if unit.slot(row, column) < ii {
                                        i + 1
                                    } else {
                                        i as int
                                    },
                                )
                            } else {
                                old(self)@[row][column]
                            },
                    decreases 9 - ii,
                {
                    let at = unit.position(ii);
                    let bits: u16 = found.get_position_xy(at.0, at.1).impossibilities;
                    let shift: u16 = (i + 1) as u16;
                    proof {
                        let start = found@[at.0 as int][at.1 as int];
                        lemma_unit_cells(unit);
                        lemma_all_excluded();
                        assert((bits >> shift) & 1 == 0 || (bits >> shift) & 1 == 1)
                            by (bit_vector);
                        assert(on_grid(at.0 as int, at.1 as int));
                        assert(member(found@, unit, ii as int) == start);
                        assert(start.wf());
                        assert(start.admits(i + 1) <==> !excludes(bits, i + 1));
                    }
                    if (bits >> shift) & 1 == 0 {
                        self.set_final_value(i + 1, at.0, at.1);
                    }
                    ii += 1;
                }
                change_happened = true;
            }
            i += 1;
        }
        proof {
            lemma_unit_cells(unit);
            lemma_grid_equal(self@, unit_placed_from(found@, old(self)@, unit));
            lemma_unit_placed_from(found@, old(self)@, unit);
        }
        change_happened
    }

    /// The hidden-single pass over `unit`: each symbol that exactly one
    /// square of the unit could take is placed in that square. Says whether
    /// anything was placed.
    pub fn check_unit_possibilities(&mut self, unit: Unit) -> (changed: bool)
        requires
            old(self).wf(),
            unit.valid(),
        ensures
            final(self)@ == unit_placed(old(self)@, unit),
            changed == has_hidden_single(old(self)@, unit, 9),
            changed == (final(self)@ != old(self)@),
            final(self).wf(),
            settles(old(self)@, final(self)@),
    {
        let found: Board = *self;
        self.place_hidden_singles(&found, unit)
    }

    /// The hidden-single pass over `line`.
    pub fn check_line_possibilities(&mut self, line: Line) -> (changed: bool)
        requires
            old(self).wf(),
            line.valid(),
        ensures
            final(self)@ == unit_placed(old(self)@, line.as_unit()),
            changed == has_hidden_single(old(self)@, line.as_unit(), 9),
            changed == (final(self)@ != old(self)@),
            final(self).wf(),
            settles(old(self)@, final(self)@),
    {
        self.check_unit_possibilities(line.unit())
    }

    /// The hidden-single pass over the box whose top left square is at row
    /// `x`, column `y`.
    pub fn check_box_possibilities(&mut self, x: usize, y: usize) -> (changed: bool)
        requires
            old(self).wf(),
            x <= 6,
            y <= 6,
        ensures
            final(self)@ == unit_placed(old(self)@, Unit::Square(x, y)),
            changed == has_hidden_single(old(self)@, Unit::Square(x, y), 9),
            changed == (final(self)@ != old(self)@),
            final(self).wf(),
            settles(old(self)@, final(self)@),
    {
        self.check_unit_possibilities(Unit::Square(x, y))
    }

    /// Places in this board the hidden singles that the rows, then the
    /// columns, have on `found`, and says whether there is any.
    fn place_in_lines(&mut self, found: &Board) -> (changed: bool)
        requires
            old(self).wf(),
            found.wf(),
            settles(found@, old(self)@),
        ensures
            final(self)@ == units_placed_from(found@, old(self)@, 0, 18),
            changed ==> final(self)@ != found@,
            !changed ==> final(self)@ == old(self)@,
            final(self).wf(),
            settles(found@, final(self)@),
    {
        let mut change_happened = false;
        let mut i: usize = 0;
        while i < 9
            invariant
                i <= 9,
                self.wf(),
                found.wf(),
                self@ == units_placed_from(found@, old(self)@, 0, i as int),
                settles(found@, self@),
                change_happened ==> self@ != found@,
                !change_happened ==> self@ == old(self)@,
            decreases 9 - i,
        {
            assert(Unit::nth(i as int) == Unit::Row(i));
            let placed = self.place_hidden_singles(found, Unit::Row(i));
            change_happened = change_happened || placed;
            i += 1;
        }
        i = 0;
        while i < 9
            invariant
                i <= 9,
                self.wf(),
                found.wf(),
                self@ == units_placed_from(found@, old(self)@, 0, 9 + i),
                settles(found@, self@),
                change_happened ==> self@ != found@,
                !change_happened ==> self@ == old(self)@,
            decreases 9 - i,
        {
            assert(Unit::nth(9 + i) == Unit::Column(i));
            let placed = self.place_hidden_singles(found, Unit::Column(i));
            change_happened = change_happened || placed;
            i += 1;
        }
        change_happened
    }

    /// Places in this board the hidden singles that the boxes have on
    /// `found`, and says whether there is any.
    fn place_in_boxes(&mut self, found: &Board) -> (changed: bool)
        requires
            old(self).wf(),
            found.wf(),
            settles(found@, old(self)@),
        ensures
            final(self)@ == units_placed_from(found@, old(self)@, 18, 27),
            changed ==> final(self)@ != found@,
            !changed ==> final(self)@ == old(self)@,
            final(self).wf(),
            settles(found@, final(self)@),
    {
        let mut change_happened = false;
        let mut number: usize = 0;
        while number < 9
            invariant
                number <= 9,
                self.wf(),
                found.wf(),
                self@ == units_placed_from(found@, old(self)@, 18, 18 + number),
                settles(found@, self@),
                change_happened ==> self@ != found@,
                !change_happened ==> self@ == old(self)@,
            decreases 9 - number,
        {
            let x: usize = 3 * (number / 3);
            let y: usize = 3 * (number % 3);
            assert(Unit::nth(18 + number) == Unit::Square(x, y));
            let placed = self.place_hidden_singles(found, Unit::Square(x, y));
            change_happened = change_happened || placed;
            number += 1;
        }
        change_happened
    }

    /// The hidden-single pass over every row, then every column. The hidden
    /// singles are those of the board as the pass finds it. Says whether
    /// anything was placed.
    pub fn check_all_lines_possibilities(&mut self) -> (changed: bool)
        requires
            old(self).wf(),
        ensures
            final(self)@ == lines_placed(old(self)@),
            changed == (final(self)@ != old(self)@),
            final(self).wf(),
            settles(old(self)@, final(self)@),
    {
        let found: Board = *self;
        self.place_in_lines(&found)
    }

    /// The hidden-single pass over every box. The hidden singles are those
    /// of the board as the pass finds it. Says whether anything was placed.
    pub fn check_all_box_possibilities(&mut self) -> (changed: bool)
        requires
            old(self).wf(),
        ensures
            final(self)@ == boxes_placed(old(self)@),
            changed == (final(self)@ != old(self)@),
            final(self).wf(),
            settles(old(self)@, final(self)@),
    {
        let found: Board = *self;
        self.place_in_boxes(&found)
    }

    /// The hidden-single pass over every unit: rows, then columns, then
    /// boxes. The hidden singles are those of the board as the pass finds
    /// it, so that what the pass places in one unit does not make a hidden
    /// single of a symbol in another. Says whether anything was placed.
    pub fn check_all_units_possibilities(&mut self) -> (changed: bool)
        requires
            old(self).wf(),
        ensures
            final(self)@ == hidden_singles_placed(old(self)@),
            changed == (final(self)@ != old(self)@),
            final(self).wf(),
            settles(old(self)@, final(self)@),
    {
        let found: Board = *self;
        let in_lines = self.place_in_lines(&found);
        let in_boxes = self.place_in_boxes(&found);
        proof {
            lemma_units_placed_split(found@, found@, 0, 18, 27);
        }
        in_lines || in_boxes
    }

    /// The naked-single pass: every blank square with exactly one open
    /// symbol takes it. Says whether anything was placed.
    pub fn check_possibilities(&mut self) -> (changed: bool)
        requires
            old(self).wf(),
        ensures
            final(self)@ == naked_singles_resolved(old(self)@),
            changed == (final(self)@ != old(self)@),
            final(self).wf(),
            settles(old(self)@, final(self)@),
    {
        let mut change_happened = false;
        let mut i: usize = 0;
        proof {
            self.lemma_shape();
        }
        while i < 9
            invariant
                i <= 9,
                well_shaped(self@),
                forall|row: int, column: int|
                    on_grid(row, column) ==> #[trigger] self@[row][column] == if row < i {
                        old(self)@[row][column].resolved()
                    } else {
                        old(self)@[row][column]
                    },
                change_happened <==> self@ != old(self)@,
            decreases 9 - i,
        {
            let mut ii: usize = 0;
            while ii < 9
                invariant
                    ii <= 9,
                    i < 9,
                    well_shaped(self@),
                    forall|row: int, column: int|
                        on_grid(row, column) ==> #[trigger] self@[row][column] == if row < i || (row
                            == i && column < ii) {
                            old(self)@[row][column].resolved()
                        } else {
                            old(self)@[row][column]
                        },
                    change_happened <==> self@ != old(self)@,
                decreases 9 - ii,
            {
                let ghost before = self@;
                let placed = self.check_square(i, ii);
                proof {
                    assert(on_grid(i as int, ii as int));
                    if placed {
                        let bits = old(self)@[i as int][ii as int].impossibilities;
                        let chosen = choose|symbol: int| sole_candidate(bits, symbol);
                        assert(sole_candidate(bits, chosen));
                        assert(old(self)@[i as int][ii as int].final_value == 0);
                        assert(self@[i as int][ii as int].final_value != 0);
                    } else {
                        lemma_grid_equal(self@, before);
                    }
                }
                change_happened = change_happened || placed;
                ii += 1;
            }
            i += 1;
        }
        proof {
            lemma_grid_equal(self@, naked_singles_resolved(old(self)@));
            lemma_naked_singles(old(self)@);
        }
        change_happened
    }
}

} // verus!
