use sudoku_solver::board::Board;
use sudoku_solver::input::{parse_grid, to_symbol};
use sudoku_solver::position::Position;

const CLUES: [[u8; 9]; 9] = [
    [5, 3, 0, 0, 7, 0, 0, 0, 0],
    [6, 0, 0, 1, 9, 5, 0, 0, 0],
    [0, 9, 8, 0, 0, 0, 0, 6, 0],
    [8, 0, 0, 0, 6, 0, 0, 0, 3],
    [4, 0, 0, 8, 0, 3, 0, 0, 1],
    [7, 0, 0, 0, 2, 0, 0, 0, 6],
    [0, 6, 0, 0, 0, 0, 2, 8, 0],
    [0, 0, 0, 4, 1, 9, 0, 0, 5],
    [0, 0, 0, 0, 8, 0, 0, 7, 9],
];

const CLUES_TEXT: &str = "530070000\n600195000\n098000060\n800060003\n400803001\n700020006\n060000280\n000419005\n000080079";

fn chars(text: &str) -> Vec<char> {
    text.chars().collect()
}

#[test]
fn a_square_is_written_as_its_symbol() {
    let mut position = Position::new();
    assert_eq!(position.to_text(), "0");
    position.set_final_value(7);
    assert_eq!(position.to_text(), "7");
    let odd = Position { final_value: 205, impossibilities: 0 };
    assert_eq!(odd.to_text(), "205");
    let two = Position { final_value: 40, impossibilities: 0 };
    assert_eq!(two.to_text(), "40");
}

#[test]
fn a_square_in_full_lists_what_it_excludes() {
    let mut position = Position::new();
    assert_eq!(position.to_debug_text(), "0:[0, 0, 0, 0, 0, 0, 0, 0, 0]");
    position.add_impossibilities(0b0000001000010010);
    assert_eq!(position.to_debug_text(), "0:[1, 0, 0, 4, 0, 0, 0, 0, 9]");
    position.set_final_value(5);
    assert_eq!(position.to_debug_text(), "5:[1, 2, 3, 4, 5, 6, 7, 8, 9]");
}

#[test]
fn a_board_is_written_as_nine_lines() {
    assert_eq!(Board::from(CLUES).to_text(), CLUES_TEXT);
    let blank = Board::new().to_text();
    assert_eq!(blank.len(), 89);
    assert!(!blank.ends_with('\n'));
    assert_eq!(blank.lines().count(), 9);
}

#[test]
fn a_board_in_full_has_a_line_per_square_and_a_gap_between_rows() {
    let text = Board::from(CLUES).to_debug_text();
    let rows: Vec<&str> = text.split("\n\n").collect();
    assert_eq!(rows.len(), 9);
    for (row, block) in rows.iter().enumerate() {
        let lines: Vec<&str> = block.split('\n').collect();
        assert_eq!(lines.len(), 9);
        for (column, line) in lines.iter().enumerate() {
            let expected = if CLUES[row][column] != 0 {
                format!("{}:[1, 2, 3, 4, 5, 6, 7, 8, 9]", CLUES[row][column])
            } else {
                String::from("0:[0, 0, 0, 0, 0, 0, 0, 0, 0]")
            };
            assert_eq!(*line, expected);
        }
    }
    assert!(text.starts_with("5:[1, 2, 3, 4, 5, 6, 7, 8, 9]\n3:[1, 2, 3, 4, 5, 6, 7, 8, 9]\n0:["));
    assert!(text.ends_with("\n9:[1, 2, 3, 4, 5, 6, 7, 8, 9]"));
}

#[test]
fn a_character_stands_for_its_digit_or_for_a_blank() {
    assert_eq!(to_symbol('0'), 0);
    assert_eq!(to_symbol('1'), 1);
    assert_eq!(to_symbol('9'), 9);
    assert_eq!(to_symbol('.'), 0);
    assert_eq!(to_symbol('x'), 0);
    assert_eq!(to_symbol('/'), 0);
    assert_eq!(to_symbol(':'), 0);
    assert_eq!(to_symbol('٣'), 0);
}

#[test]
fn a_grid_is_read_row_by_row() {
    assert_eq!(parse_grid(&chars(CLUES_TEXT)), Some(CLUES));
    let crowded: String = CLUES_TEXT.chars().filter(|c| *c != '\n').collect();
    assert_eq!(parse_grid(&chars(&crowded)), Some(CLUES));
}

#[test]
fn white_space_is_skipped_and_does_not_count() {
    let mut spaced = String::from(" \t\n");
    for c in CLUES_TEXT.chars() {
        spaced.push(c);
        spaced.push(' ');
        spaced.push('\u{a0}');
    }
    assert_eq!(parse_grid(&chars(&spaced)), Some(CLUES));
}

#[test]
fn other_characters_are_blanks() {
    let dotted: String = CLUES_TEXT.chars().map(|c| if c == '0' { '.' } else { c }).collect();
    assert_eq!(parse_grid(&chars(&dotted)), Some(CLUES));
    let lettered: String = CLUES_TEXT.chars().map(|c| if c == '0' { 'x' } else { c }).collect();
    assert_eq!(parse_grid(&chars(&lettered)), Some(CLUES));
}

#[test]
fn what_follows_the_grid_is_ignored() {
    let mut long = String::from(CLUES_TEXT);
    long.push_str("\n123456789");
    assert_eq!(parse_grid(&chars(&long)), Some(CLUES));
}

#[test]
fn too_few_characters_give_no_grid() {
    assert_eq!(parse_grid(&chars("")), None);
    assert_eq!(parse_grid(&chars("   \n  ")), None);
    let short: String = CLUES_TEXT.chars().take(88).collect();
    assert_eq!(parse_grid(&chars(&short)), None);
    let mut padded = short.clone();
    padded.push_str("      ");
    assert_eq!(parse_grid(&chars(&padded)), None);
    padded.push('4');
    let mut expected = CLUES;
    expected[8][8] = 4;
    assert_eq!(parse_grid(&chars(&padded)), Some(expected));
}

#[test]
fn a_grid_read_from_text_is_solved_and_written_back() {
    let text = "000000000\n010205090\n006807100\n800123007\n400000003\n050704060\n094010720\n100090006\n530000019\n";
    let array = parse_grid(&chars(text)).unwrap();
    let mut board = Board::from(array);
    assert!(board.solve());
    assert_eq!(
        board.to_text(),
        "325941678\n718265394\n946837152\n869123547\n471659283\n253784961\n694318725\n187592436\n532476819"
    );
}
