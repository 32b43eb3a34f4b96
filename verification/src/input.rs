//! Reading a grid from text: the first 81 characters that are not white
//! space, row by row.

use vstd::prelude::*;

verus! {

/// Whether `char::is_whitespace` holds of `c`.
pub uninterp spec fn is_whitespace(c: char) -> bool;

/// Asks `char::is_whitespace`, which tells whether Unicode counts a
/// character as white space. The answer depends on the character alone.
#[verifier::external_body]
fn whitespace(c: char) -> (answer: bool)
    ensures
        answer == is_whitespace(c),
{
    c.is_whitespace()
}

/// The symbol that a character stands for: a digit's value, and 0, the
/// blank, for any other character.
pub open spec fn symbol_of(c: char) -> u8 {
    if '0' <= c && c <= '9' {
        (c as u8 - 48) as u8
    } else {
        0
    }
}

/// Among the first `n` characters of `text`, those that are not white space.
pub open spec fn meaningful(text: Seq<char>, n: int) -> Seq<char>
    decreases n,
{
    if n <= 0 {
        Seq::empty()
    } else if is_whitespace(text[n - 1]) {
        meaningful(text, n - 1)
    } else {
        meaningful(text, n - 1).push(text[n - 1])
    }
}

/// The characters of `text` that are not white space.
pub open spec fn all_meaningful(text: Seq<char>) -> Seq<char> {
    meaningful(text, text.len() as int)
}

/// What is meaningful in a shorter stretch of the text starts what is
/// meaningful in a longer one.
pub proof fn lemma_meaningful_prefix(text: Seq<char>, i: int, j: int)
    requires
        0 <= i <= j,
    ensures
        meaningful(text, i).len() <= meaningful(text, j).len(),
        forall|k: int|
            0 <= k < meaningful(text, i).len() ==> meaningful(text, j)[k] == meaningful(text, i)[k],
    decreases j - i,
{
    if i < j {
        lemma_meaningful_prefix(text, i, j - 1);
    }
}

/// The symbol that `c` stands for.
pub fn to_symbol(c: char) -> (symbol: u8)
    ensures
        symbol == symbol_of(c),
        symbol <= 9,
{
    if '0' <= c && c <= '9' {
        (c as u8) - 48
    } else {
        0
    }
}

/// Reads a grid from `text`: white space is skipped, and the first 81
/// characters that remain fill the grid row by row, a digit as the symbol it
/// names and any other character as a blank. What follows them is ignored.
/// There is no grid if fewer than 81 such characters are there.
pub fn parse_grid(text: &Vec<char>) -> (grid: Option<[[u8; 9]; 9]>)
    ensures
        grid is Some <==> all_meaningful(text@).len() >= 81,
        grid matches Some(array) ==> forall|row: int, column: int|
            0 <= row < 9 && 0 <= column < 9 ==> #[trigger] array[row][column] == symbol_of(
                all_meaningful(text@)[9 * row + column],
            ),
{
    let mut array: [[u8; 9]; 9] = [[0; 9]; 9];
    let mut taken: usize = 0;
    let mut i: usize = 0;
    while i < text.len() && taken < 81
        invariant
            i <= text.len(),
            taken <= 81,
            taken == meaningful(text@, i as int).len(),
            forall|row: int, column: int|
                0 <= row < 9 && 0 <= column < 9 && 9 * row + column < taken
                    ==> #[trigger] array[row][column] == symbol_of(
                    meaningful(text@, i as int)[9 * row + column],
                ),
        decreases text.len() - i,
    {
        let c: char = text[i];
        if !whitespace(c) {
            let symbol: u8 = to_symbol(c);
            let row: usize = taken / 9;
            let column: usize = taken % 9;
            array[row][column] = symbol;
            taken += 1;
        }
        i += 1;
    }
    proof {
        lemma_meaningful_prefix(text@, i as int, text@.len() as int);
    }
    if taken < 81 {
        None
    } else {
        Some(array)
    }
}

} // verus!
