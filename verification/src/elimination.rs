//! Peer elimination: a symbol placed in a unit is excluded from every
//! square of that unit.

use crate::board::Board;
use crate::grid::{
    lemma_grid_equal, member, on_grid, same_symbols, well_formed, well_shaped, Grid,
};
use crate::position::{
    excludes, lemma_union_bits, lemma_union_symbols_only, symbol_bit, symbols_only, Position,
};
use crate::unit::{lemma_unit_cells, Line, Unit};
use vstd::prelude::*;

verus! {

/// The symbols placed in the first `n` squares of `unit`, as an exclusion set.
pub open spec fn fixed_among(g: Grid, unit: Unit, n: int) -> u16
    decreases n,
{
    if n <= 0 {
        0
    } else {
        fixed_among(g, unit, n - 1) | symbol_bit(member(g, unit, n - 1).final_value)
    }
}

/// The symbols placed in `unit`, as an exclusion set.
pub open spec fn fixed_symbols(g: Grid, unit: Unit) -> u16 {
    fixed_among(g, unit, 9)
}

/// The grid after peer elimination over `unit`: the symbols placed in the
/// unit are excluded from each of its squares.
pub open spec fn unit_annotated(g: Grid, unit: Unit) -> Grid {
    Seq::new(
        9,
        |row: int|
            Seq::new(
                9,
                |column: int|
                    if unit.contains(row, column) {
                        g[row][column].excluding(fixed_symbols(g, unit))
                    } else {
                        g[row][column]
                    },
            ),
    )
}

/// What the rows and columns numbered below `done` exclude from the square
/// at (`row`, `column`).
pub open spec fn lines_mask(g: Grid, row: int, column: int, done: int) -> u16 {
    (if row < done {
        fixed_symbols(g, Unit::Row(row as usize))
    } else {
        0u16
    }) | (if column < done {
        fixed_symbols(g, Unit::Column(column as usize))
    } else {
        0u16
    })
}

/// The grid after peer elimination over every row and every column: each
/// square also excludes the symbols placed in its row and in its column.
pub open spec fn lines_annotated(g: Grid) -> Grid {
    Seq::new(
        9,
        |row: int|
            Seq::new(9, |column: int| g[row][column].excluding(lines_mask(g, row, column, 9))),
    )
}

/// The grid after peer elimination over every box: each square also excludes
/// the symbols placed in its box.
pub open spec fn boxes_annotated(g: Grid) -> Grid {
    Seq::new(
        9,
        |row: int|
            Seq::new(
                9,
                |column: int|
                    g[row][column].excluding(fixed_symbols(g, Unit::box_of(row, column))),
            ),
    )
}

/// The grid after one full pass of peer elimination: lines, then boxes.
pub open spec fn peers_eliminated(g: Grid) -> Grid {
    boxes_annotated(lines_annotated(g))
}

proof fn lemma_union_steps(x: u16, a: u16, b: u16, m: u16)
    by (bit_vector)
    ensures
        x | (0u16 | 0u16) == x,
        (x | (0u16 | b)) | m == x | (m | b),
        (x | (a | 0u16)) | m == x | (a | m),
        x | 0u16 == x,
{
}

proof fn lemma_union_twice(x: u16, lines: u16, boxes: u16)
    by (bit_vector)
    ensures
        ((((x | lines) | boxes) | lines) | boxes) == ((x | lines) | boxes),
{
}

/// The exclusion set of one symbol holds that symbol and nothing else.
pub proof fn lemma_symbol_bit(value: u8)
    ensures
        symbols_only(symbol_bit(value)),
        forall|symbol: int|
            excludes(symbol_bit(value), symbol) <==> 1 <= symbol <= 9 && symbol == value,
{
    assert(0u16 & 0x3feu16 == 0u16) by (bit_vector);
    assert(forall|v: u16| 1 <= v <= 9 ==> (1u16 << v) & 0x3feu16 == (1u16 << v)) by (bit_vector);
    assert(forall|k: u16| k < 16 ==> (0u16 >> k) & 1 == 0) by (bit_vector);
    assert(forall|v: u16, k: u16|
        1 <= v <= 9 && 1 <= k <= 9 ==> ((((1u16 << v) >> k) & 1 == 1) <==> v == k))
        by (bit_vector);
    assert forall|symbol: int|
        excludes(symbol_bit(value), symbol) <==> 1 <= symbol <= 9 && symbol == value by {
        if 1 <= symbol <= 9 {
            let k = symbol as u16;
            if 1 <= value <= 9 {
                let v = value as u16;
                assert((((1u16 << v) >> k) & 1 == 1) <==> v == k);
            } else {
                assert((0u16 >> k) & 1 == 0);
            }
        }
    }
}

/// Excluding symbols from a square keeps its invariant, and changes nothing
/// in a square that holds a symbol.
pub proof fn lemma_excluding_wf(p: Position, mask: u16)
    requires
        p.wf(),
        symbols_only(mask),
    ensures
        p.excluding(mask).wf(),
        p.final_value != 0 ==> p.excluding(mask) == p,
{
    lemma_union_symbols_only(p.impossibilities, mask);
}

/// The symbols placed in a unit form a set over the nine symbols.
pub proof fn lemma_fixed_symbols_only(g: Grid, unit: Unit, n: int)
    ensures
        symbols_only(fixed_among(g, unit, n)),
    decreases n,
{
    if n <= 0 {
        assert(0u16 & 0x3feu16 == 0u16) by (bit_vector);
    } else {
        let last = symbol_bit(member(g, unit, n - 1).final_value);
        lemma_fixed_symbols_only(g, unit, n - 1);
        lemma_symbol_bit(member(g, unit, n - 1).final_value);
        lemma_union_symbols_only(fixed_among(g, unit, n - 1), last);
    }
}

/// The symbols placed in a unit depend on the squares' symbols alone, not
/// on what the squares exclude.
pub proof fn lemma_fixed_same_symbols(g: Grid, h: Grid, unit: Unit, n: int)
    requires
        unit.valid(),
        same_symbols(g, h),
        n <= 9,
    ensures
        fixed_among(g, unit, n) == fixed_among(h, unit, n),
    decreases n,
{
    if n > 0 {
        lemma_fixed_same_symbols(g, h, unit, n - 1);
        lemma_unit_cells(unit);
        let (row, column) = unit.cell(n - 1);
        assert(on_grid(row, column));
        assert(h[row][column].final_value == g[row][column].final_value);
    }
}

/// Among the first `n` squares of a unit, the set of placed symbols holds a
/// symbol exactly when one of those squares holds it.
pub proof fn lemma_fixed_among_bits(g: Grid, unit: Unit, n: int, symbol: int)
    requires
        1 <= symbol <= 9,
    ensures
        excludes(fixed_among(g, unit, n), symbol) <==> exists|i: int|
            0 <= i < n && #[trigger] member(g, unit, i).final_value == symbol,
    decreases n,
{
    if n <= 0 {
        lemma_symbol_bit(0);
        assert(symbol_bit(0) == 0);
    } else {
        lemma_fixed_among_bits(g, unit, n - 1, symbol);
        let last = member(g, unit, n - 1).final_value;
        lemma_symbol_bit(last);
        lemma_union_bits(fixed_among(g, unit, n - 1), symbol_bit(last));
        if excludes(fixed_among(g, unit, n), symbol) {
            if excludes(fixed_among(g, unit, n - 1), symbol) {
                let i = choose|i: int|
                    0 <= i < n - 1 && #[trigger] member(g, unit, i).final_value == symbol;
                assert(0 <= i < n && member(g, unit, i).final_value == symbol);
            } else {
                assert(member(g, unit, n - 1).final_value == symbol);
            }
        }
        if exists|i: int| 0 <= i < n && #[trigger] member(g, unit, i).final_value == symbol {
            let i = choose|i: int|
                0 <= i < n && #[trigger] member(g, unit, i).final_value == symbol;
            if i < n - 1 {
                assert(excludes(fixed_among(g, unit, n - 1), symbol));
            }
        }
    }
}

/// Peer elimination over one unit excludes, from every square of the unit,
/// exactly the symbols that the unit's squares already hold: a square of the
/// unit excludes a symbol afterwards if and only if it did before or a square
/// of the unit holds the symbol. This holds of the squares with a symbol
/// too. No symbol is placed or removed, and the squares outside the unit
/// stay as they are.
pub proof fn lemma_unit_annotated(g: Grid, unit: Unit)
    requires
        well_formed(g),
        unit.valid(),
    ensures
        well_formed(unit_annotated(g, unit)),
        same_symbols(g, unit_annotated(g, unit)),
        forall|row: int, column: int|
            on_grid(row, column) && !unit.contains(row, column) ==> #[trigger] unit_annotated(
                g,
                unit,
            )[row][column] == g[row][column],
        forall|row: int, column: int, symbol: int|
            #![trigger excludes(unit_annotated(g, unit)[row][column].impossibilities, symbol)]
            unit.contains(row, column) && 1 <= symbol <= 9 ==> (excludes(
                unit_annotated(g, unit)[row][column].impossibilities,
                symbol,
            ) <==> excludes(g[row][column].impossibilities, symbol) || exists|i: int|
                0 <= i < 9 && #[trigger] member(g, unit, i).final_value == symbol),
{
    let h = unit_annotated(g, unit);
    let mask = fixed_symbols(g, unit);
    lemma_unit_cells(unit);
    lemma_fixed_symbols_only(g, unit, 9);
    assert forall|row: int, column: int| on_grid(row, column) implies (
    #[trigger] h[row][column]).wf() by {
        lemma_excluding_wf(g[row][column], mask);
    }
    assert forall|row: int, column: int, symbol: int|
        #![trigger excludes(h[row][column].impossibilities, symbol)]
        unit.contains(row, column) && 1 <= symbol <= 9 implies (excludes(
        h[row][column].impossibilities,
        symbol,
    ) <==> excludes(g[row][column].impossibilities, symbol) || exists|i: int|
        0 <= i < 9 && #[trigger] member(g, unit, i).final_value == symbol) by {
        lemma_union_bits(g[row][column].impossibilities, mask);
        lemma_fixed_among_bits(g, unit, 9, symbol);
    }
}

/// Peer elimination over the lines, over the boxes, and over both, places
/// and removes no symbol.
pub proof fn lemma_peers_same_symbols(g: Grid)
    ensures
        well_shaped(peers_eliminated(g)),
        same_symbols(g, lines_annotated(g)),
        same_symbols(g, boxes_annotated(g)),
        same_symbols(g, peers_eliminated(g)),
{
    let a = lines_annotated(g);
    let b = boxes_annotated(a);
    assert forall|row: int, column: int| on_grid(row, column) implies (
    #[trigger] b[row][column]).final_value == g[row][column].final_value by {
        assert(a[row][column].final_value == g[row][column].final_value);
    }
}

/// Peer elimination keeps every square's invariant.
pub proof fn lemma_peers_well_formed(g: Grid)
    requires
        well_formed(g),
    ensures
        well_formed(lines_annotated(g)),
        well_formed(boxes_annotated(g)),
        well_formed(peers_eliminated(g)),
{
    let a = lines_annotated(g);
    assert forall|row: int, column: int| on_grid(row, column) implies (
    #[trigger] a[row][column]).wf() by {
        let r = fixed_symbols(g, Unit::Row(row as usize));
        let c = fixed_symbols(g, Unit::Column(column as usize));
        lemma_fixed_symbols_only(g, Unit::Row(row as usize), 9);
        lemma_fixed_symbols_only(g, Unit::Column(column as usize), 9);
        lemma_union_symbols_only(r, c);
        lemma_excluding_wf(g[row][column], r | c);
    }
    let b = boxes_annotated(g);
    assert forall|row: int, column: int| on_grid(row, column) implies (
    #[trigger] b[row][column]).wf() by {
        lemma_fixed_symbols_only(g, Unit::box_of(row, column), 9);
        lemma_excluding_wf(g[row][column], fixed_symbols(g, Unit::box_of(row, column)));
    }
    let e = boxes_annotated(a);
    assert forall|row: int, column: int| on_grid(row, column) implies (
    #[trigger] e[row][column]).wf() by {
        lemma_fixed_symbols_only(a, Unit::box_of(row, column), 9);
        lemma_excluding_wf(a[row][column], fixed_symbols(a, Unit::box_of(row, column)));
    }
}

/// Peer elimination is idempotent: a second full pass right after the first,
/// with no symbol placed in between, leaves every exclusion set as the first
/// pass made it.
pub proof fn lemma_peer_elimination_idempotent(g: Grid)
    ensures
        peers_eliminated(peers_eliminated(g)) == peers_eliminated(g),
{
    let once = peers_eliminated(g);
    let a = lines_annotated(g);
    let twice = peers_eliminated(once);
    let a2 = lines_annotated(once);
    lemma_peers_same_symbols(g);
    lemma_peers_same_symbols(once);
    assert forall|row: int, column: int| on_grid(row, column) implies (
    #[trigger] twice[row][column]) == once[row][column] by {
        let r = Unit::Row(row as usize);
        let c = Unit::Column(column as usize);
        let q = Unit::box_of(row, column);
        lemma_fixed_same_symbols(g, once, r, 9);
        lemma_fixed_same_symbols(g, once, c, 9);
        lemma_fixed_same_symbols(g, a, q, 9);
        lemma_fixed_same_symbols(g, once, q, 9);
        lemma_fixed_same_symbols(once, a2, q, 9);
        let lines = fixed_symbols(g, r) | fixed_symbols(g, c);
        let boxes = fixed_symbols(g, q);
        lemma_union_twice(g[row][column].impossibilities, lines, boxes);
        assert(a[row][column].impossibilities == g[row][column].impossibilities | lines);
        assert(once[row][column].impossibilities == a[row][column].impossibilities | boxes);
        assert(a2[row][column].impossibilities == once[row][column].impossibilities | lines);
        assert(twice[row][column].impossibilities == a2[row][column].impossibilities | boxes);
    }
    lemma_grid_equal(twice, once);
}

impl Board {
    /// The symbols placed in `unit`, as an exclusion set.
    pub fn unit_final_values(&self, unit: Unit) -> (mask: u16)
        requires
            self.wf(),
            unit.valid(),
        ensures
            mask == fixed_symbols(self@, unit),
            symbols_only(mask),
    {
        let mut impossibilities: u16 = 0;
        let mut i: usize = 0;
        while i < 9
            invariant
                i <= 9,
                self.wf(),
                unit.valid(),
                impossibilities == fixed_among(self@, unit, i as int),
            decreases 9 - i,
        {
            let value: u8 = self.unit_position(unit, i).final_value;
            proof {
                lemma_unit_cells(unit);
                assert(on_grid(unit.cell(i as int).0, unit.cell(i as int).1));
                assert(member(self@, unit, i as int).wf());
            }
            if value != 0 {
                impossibilities |= 1u16 << (value as u16);
            } else {
                assert(impossibilities | 0u16 == impossibilities) by (bit_vector);
            }
            i += 1;
        }
        proof {
            lemma_fixed_symbols_only(self@, unit, 9);
        }
        impossibilities
    }

    /// The symbols placed in `line`, as an exclusion set.
    pub fn get_line_final_values(&self, line: Line) -> (mask: u16)
        requires
            self.wf(),
            line.valid(),
        ensures
            mask == fixed_symbols(self@, line.as_unit()),
            symbols_only(mask),
    {
        self.unit_final_values(line.unit())
    }

    /// The symbols placed in the box whose top left square is at row `x`,
    /// column `y`, as an exclusion set.
    pub fn get_box_final_values(&self, x: usize, y: usize) -> (mask: u16)
        requires
            self.wf(),
            x <= 6,
            y <= 6,
        ensures
            mask == fixed_symbols(self@, Unit::Square(x, y)),
            symbols_only(mask),
    {
        self.unit_final_values(Unit::Square(x, y))
    }

    /// Peer elimination over `unit`: excludes the symbols placed in the unit
    /// from each of its squares, those that hold a symbol included.
    pub fn annotate_unit(&mut self, unit: Unit)
        requires
            old(self).wf(),
            unit.valid(),
        ensures
            final(self)@ == unit_annotated(old(self)@, unit),
            final(self).wf(),
            same_symbols(old(self)@, final(self)@),
    {
        let impossibilities = self.unit_final_values(unit);
        let mut i: usize = 0;
        proof {
            self.lemma_shape();
        }
        while i < 9
            invariant
                i <= 9,
                unit.valid(),
                symbols_only(impossibilities),
                well_shaped(self@),
                forall|row: int, column: int|
                    on_grid(row, column) ==> #[trigger] self@[row][column] == if unit.contains(
                        row,
                        column,
                    ) && unit.slot(row, column) < i {
                        old(self)@[row][column].excluding(impossibilities)
                    } else {
                        old(self)@[row][column]
                    },
            decreases 9 - i,
        {
            let at = unit.position(i);
            proof {
                lemma_unit_cells(unit);
            }
            self.add_impossibilities(impossibilities, at.0, at.1);
            i += 1;
        }
        proof {
            lemma_unit_cells(unit);
            lemma_grid_equal(self@, unit_annotated(old(self)@, unit));
            lemma_unit_annotated(old(self)@, unit);
        }
    }

    /// Peer elimination over `line`.
    pub fn annotate_line(&mut self, line: Line)
        requires
            old(self).wf(),
            line.valid(),
        ensures
            final(self)@ == unit_annotated(old(self)@, line.as_unit()),
            final(self).wf(),
            same_symbols(old(self)@, final(self)@),
    {
        self.annotate_unit(line.unit())
    }

    /// Peer elimination over the box whose top left square is at row `x`,
    /// column `y`.
    pub fn annotate_box(&mut self, x: usize, y: usize)
        requires
            old(self).wf(),
            x <= 6,
            y <= 6,
        ensures
            final(self)@ == unit_annotated(old(self)@, Unit::Square(x, y)),
            final(self).wf(),
            same_symbols(old(self)@, final(self)@),
    {
        self.annotate_unit(Unit::Square(x, y))
    }

    /// Peer elimination over every row and every column.
    pub fn annotate_all_lines(&mut self)
        requires
            old(self).wf(),
        ensures
            final(self)@ == lines_annotated(old(self)@),
            final(self).wf(),
            same_symbols(old(self)@, final(self)@),
    {
        let mut index: usize = 0;
        proof {
            assert forall|row: int, column: int| on_grid(row, column) implies (
            #[trigger] self@[row][column]) == self@[row][column].excluding(
                lines_mask(self@, row, column, 0),
            ) by {
                lemma_union_steps(self@[row][column].impossibilities, 0, 0, 0);
            }
        }
        while index < 9
            invariant
                index <= 9,
                self.wf(),
                same_symbols(old(self)@, self@),
                forall|row: int, column: int|
                    on_grid(row, column) ==> #[trigger] self@[row][column]
                        == old(self)@[row][column].excluding(
                        lines_mask(old(self)@, row, column, index as int),
                    ),
            decreases 9 - index,
        {
            let ghost before = self@;
            self.annotate_line(Line::Row(index));
            let ghost between = self@;
            self.annotate_line(Line::Column(index));
            proof {
                let start = old(self)@;
                let k = index as int;
                lemma_fixed_same_symbols(start, before, Unit::Row(index), 9);
                lemma_fixed_same_symbols(start, between, Unit::Column(index), 9);
                assert forall|row: int, column: int| on_grid(row, column) implies (
                #[trigger] self@[row][column]) == start[row][column].excluding(
                    lines_mask(start, row, column, k + 1),
                ) by {
                    let x = start[row][column].impossibilities;
                    let a = fixed_symbols(start, Unit::Row(row as usize));
                    let b = fixed_symbols(start, Unit::Column(column as usize));
                    lemma_union_steps(x, a, b, a);
                    lemma_union_steps(x, a, b, b);
                    lemma_union_steps(x | (0u16 | 0u16), a, b, a);
                    lemma_union_steps(x | (a | 0u16), a, b, b);
                    lemma_union_steps(x, a, 0u16, b);
                    lemma_union_steps(x, 0u16, b, a);
                    lemma_union_steps(x, 0u16, 0u16, a);
                    lemma_union_steps(x, 0u16, 0u16, b);
                    assert(before[row][column] == start[row][column].excluding(
                        lines_mask(start, row, column, k),
                    ));
                    assert(between[row][column] == if row == k {
                        before[row][column].excluding(a)
                    } else {
                        before[row][column]
                    });
                    assert(self@[row][column] == if column == k {
                        between[row][column].excluding(b)
                    } else {
                        between[row][column]
                    });
                }
            }
            index += 1;
        }
        proof {
            lemma_grid_equal(self@, lines_annotated(old(self)@));
        }
    }

    /// Peer elimination over every box.
    pub fn annotate_all_box(&mut self)
        requires
            old(self).wf(),
        ensures
            final(self)@ == boxes_annotated(old(self)@),
            final(self).wf(),
            same_symbols(old(self)@, final(self)@),
    {
        let mut number: usize = 0;
        while number < 9
            invariant
                number <= 9,
                self.wf(),
                same_symbols(old(self)@, self@),
                forall|row: int, column: int|
                    on_grid(row, column) ==> #[trigger] self@[row][column] == if Unit::box_number(
                        row,
                        column,
                    ) < number {
                        old(self)@[row][column].excluding(
                            fixed_symbols(old(self)@, Unit::box_of(row, column)),
                        )
                    } else {
                        old(self)@[row][column]
                    },
            decreases 9 - number,
        {
            let ghost before = self@;
            let x: usize = 3 * (number / 3);
            let y: usize = 3 * (number % 3);
            self.annotate_box(x, y);
            proof {
                let start = old(self)@;
                lemma_fixed_same_symbols(start, before, Unit::Square(x, y), 9);
                assert forall|row: int, column: int| on_grid(row, column) implies (
                #[trigger] self@[row][column]) == if Unit::box_number(row, column) < number + 1 {
                    start[row][column].excluding(fixed_symbols(start, Unit::box_of(row, column)))
                } else {
                    start[row][column]
                } by {
                    assert(Unit::Square(x, y).contains(row, column) <==> Unit::box_number(
                        row,
                        column,
                    ) == number);
                    if Unit::box_number(row, column) == number {
                        assert(Unit::box_of(row, column) == Unit::Square(x, y));
                    }
                }
            }
            number += 1;
        }
        proof {
            lemma_grid_equal(self@, boxes_annotated(old(self)@));
        }
    }
}

} // verus!
