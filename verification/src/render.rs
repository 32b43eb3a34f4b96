//! The board and its squares as text.

use crate::board::Board;
use crate::grid::Grid;
use crate::position::{excluded_symbols, Position};
use vstd::prelude::*;

verus! {

/// The character of the decimal digit `d`.
pub open spec fn digit_char(d: int) -> char {
    ((48 + d) as u8) as char
}

/// The decimal numeral of `n`, without leading zeros.
pub open spec fn decimal(n: int) -> Seq<char>
    decreases n,
{
    if n < 10 {
        seq![digit_char(n)]
    } else {
        decimal(n / 10).push(digit_char(n % 10))
    }
}

/// The numerals of the first `n` of `symbols`, separated by a comma and a
/// space.
pub open spec fn joined(symbols: Seq<u8>, n: int) -> Seq<char>
    decreases n,
{
    if n <= 0 {
        Seq::empty()
    } else if n == 1 {
        decimal(symbols[0] as int)
    } else {
        joined(symbols, n - 1) + seq![',', ' '] + decimal(symbols[n - 1] as int)
    }
}

/// The numerals of `symbols` as a list in square brackets.
pub open spec fn list_text(symbols: Seq<u8>) -> Seq<char> {
    seq!['['] + joined(symbols, symbols.len() as int) + seq![']']
}

/// A square in full: its symbol, a colon, and the list of what it excludes.
pub open spec fn position_debug_text(p: Position) -> Seq<char> {
    decimal(p.final_value as int) + seq![':'] + list_text(excluded_symbols(p.impossibilities))
}

/// The symbols of the first `n` squares of row `row`.
pub open spec fn row_text(g: Grid, row: int, n: int) -> Seq<char>
    decreases n,
{
    if n <= 0 {
        Seq::empty()
    } else {
        row_text(g, row, n - 1) + decimal(g[row][n - 1].final_value as int)
    }
}

/// The first `n` rows, one per line.
pub open spec fn board_text(g: Grid, n: int) -> Seq<char>
    decreases n,
{
    if n <= 0 {
        Seq::empty()
    } else if n == 1 {
        row_text(g, 0, 9)
    } else {
        board_text(g, n - 1) + seq!['\n'] + row_text(g, n - 1, 9)
    }
}

/// The first `n` squares of row `row` in full, one per line.
pub open spec fn row_debug_text(g: Grid, row: int, n: int) -> Seq<char>
    decreases n,
{
    if n <= 0 {
        Seq::empty()
    } else if n == 1 {
        position_debug_text(g[row][0])
    } else {
        row_debug_text(g, row, n - 1) + seq!['\n'] + position_debug_text(g[row][n - 1])
    }
}

/// The first `n` rows in full, with an empty line between two rows.
pub open spec fn board_debug_text(g: Grid, n: int) -> Seq<char>
    decreases n,
{
    if n <= 0 {
        Seq::empty()
    } else if n == 1 {
        row_debug_text(g, 0, 9)
    } else {
        board_debug_text(g, n - 1) + seq!['\n', '\n'] + row_debug_text(g, n - 1, 9)
    }
}

/// Formats nine numbers with `disp_array::DispArray`, whose `Display` writes
/// an opening bracket, each element as its own `Display` writes it (a `u8`
/// as its decimal numeral), a comma and a space between two elements, and a
/// closing bracket.
#[verifier::external_body]
fn display_list(symbols: [u8; 9]) -> (text: String)
    ensures
        text@ == list_text(symbols@),
{
    disp_array::DispArray(symbols).to_string()
}

/// The text of one decimal digit.
fn digit_text(d: u8) -> (text: &'static str)
    requires
        d < 10,
    ensures
        text@ == seq![digit_char(d as int)],
{
    proof {
        reveal_strlit("0");
        reveal_strlit("1");
        reveal_strlit("2");
        reveal_strlit("3");
        reveal_strlit("4");
        reveal_strlit("5");
        reveal_strlit("6");
        reveal_strlit("7");
        reveal_strlit("8");
        reveal_strlit("9");
    }
    let text = match d {
        0 => "0",
        1 => "1",
        2 => "2",
        3 => "3",
        4 => "4",
        5 => "5",
        6 => "6",
        7 => "7",
        8 => "8",
        _ => "9",
    };
    assert(text@ =~= seq![digit_char(d as int)]);
    text
}

/// Appends the decimal numeral of `n` to `text`.
fn append_decimal(text: &mut String, n: u8)
    ensures
        final(text)@ == old(text)@ + decimal(n as int),
{
    proof {
        reveal_with_fuel(decimal, 3);
    }
    if n >= 100 {
        text.append(digit_text(n / 100));
    }
    if n >= 10 {
        text.append(digit_text((n / 10) % 10));
    }
    text.append(digit_text(n % 10));
    assert(text@ =~= old(text)@ + decimal(n as int));
}

impl Position {
    /// The square's symbol as a decimal numeral; "0" for a blank.
    pub fn to_text(&self) -> (text: String)
        ensures
            text@ == decimal(self.final_value as int),
    {
        let mut text = String::new();
        append_decimal(&mut text, self.final_value);
        assert(text@ =~= decimal(self.final_value as int));
        text
    }

    /// The square in full: its symbol, a colon, and the list of the symbols
    /// it excludes, with 0 in the place of each symbol still open.
    pub fn to_debug_text(&self) -> (text: String)
        ensures
            text@ == position_debug_text(*self),
    {
        let mut text = String::new();
        append_decimal(&mut text, self.final_value);
        proof {
            reveal_strlit(":");
        }
        text.append(":");
        let list = display_list(Position::bits_to_array(self.impossibilities));
        text.append(list.as_str());
        assert(text@ =~= position_debug_text(*self));
        text
    }
}

impl Board {
    /// The board as nine lines of nine symbols, "0" for a blank, with no
    /// line break after the last line.
    pub fn to_text(&self) -> (text: String)
        ensures
            text@ == board_text(self@, 9),
    {
        let mut text = String::new();
        let mut i: usize = 0;
        while i < 9
            invariant
                i <= 9,
                text@ == board_text(self@, i as int),
            decreases 9 - i,
        {
            let ghost start = text@;
            if i != 0 {
                proof {
                    reveal_strlit("\n");
                }
                text.append("\n");
            }
            let ghost head = text@;
            let mut ii: usize = 0;
            while ii < 9
                invariant
                    ii <= 9,
                    i < 9,
                    text@ == head + row_text(self@, i as int, ii as int),
                decreases 9 - ii,
            {
                let position = self.get_position_xy(i, ii);
                append_decimal(&mut text, position.final_value);
                assert(text@ =~= head + row_text(self@, i as int, ii + 1));
                ii += 1;
            }
            assert(text@ =~= board_text(self@, i + 1));
            i += 1;
        }
        text
    }

    /// The board in full: each square as its symbol, a colon and the list of
    /// what it excludes, one square per line, with an empty line between two
    /// rows.
    pub fn to_debug_text(&self) -> (text: String)
        ensures
            text@ == board_debug_text(self@, 9),
    {
        let mut text = String::new();
        let mut i: usize = 0;
        while i < 9
            invariant
                i <= 9,
                text@ == board_debug_text(self@, i as int),
            decreases 9 - i,
        {
            if i != 0 {
                proof {
                    reveal_strlit("\n\n");
                }
                text.append("\n\n");
            }
            let ghost head = text@;
            let mut ii: usize = 0;
            while ii < 9
                invariant
                    ii <= 9,
                    i < 9,
                    text@ == head + row_debug_text(self@, i as int, ii as int),
                decreases 9 - ii,
            {
                if ii != 0 {
                    proof {
                        reveal_strlit("\n");
                    }
                    text.append("\n");
                }
                let square = self.get_position_xy(i, ii).to_debug_text();
                text.append(square.as_str());
                assert(text@ =~= head + row_debug_text(self@, i as int, ii + 1));
                ii += 1;
            }
            assert(text@ =~= board_debug_text(self@, i + 1));
            i += 1;
        }
        text
    }
}

} // verus!
