use sudoku_solver::board::Board;
use sudoku_solver::position::ALL_EXCLUDED;
use sudoku_solver::unit::{Line, Unit};

const CLUES: [[u8; 9]; 9] = [
    [5, 3, 0, 0, 7, 0, 0, 0, 0],
    [6, 0, 0, 1, 9, 5, 0, 0, 0],
    [0, 9, 8, 0, 0, 0, 0, 6, 0],
    [8, 0, 0, 0, 6, 0, 0, 0, 3],
    [4, 0, 0, 8, 0, 3, 0, 0, 1],
    [7, 0, 0, 0, 2, 0, 0, 0, 6],
    [0, 6, 0, 0, 0, 0, 2, 8, 0],
    [0, 0, 0, 4, 1, 9, 0, 0, 5],
    [0, 0, 0, 0, 8, 0, 0, 7, 9],
];

fn exclusions(board: &Board) -> [[u16; 9]; 9] {
    let mut sets = [[0u16; 9]; 9];
    for row in 0..9 {
        for column in 0..9 {
            sets[row][column] = board.get_position_xy(row, column).impossibilities;
        }
    }
    sets
}

fn symbols(board: &Board) -> [[u8; 9]; 9] {
    let mut values = [[0u8; 9]; 9];
    for row in 0..9 {
        for column in 0..9 {
            values[row][column] = board.get_position_xy(row, column).final_value;
        }
    }
    values
}

#[test]
fn test_new_board() {
    let board = Board::new();
    for row in 0..9 {
        for column in 0..9 {
            let position = board.get_position_xy(row, column);
            assert_eq!(position.final_value, 0);
            assert_eq!(position.impossibilities, 0);
        }
    }
}

#[test]
fn test_board_from_array() {
    let array = [
        [5, 3, 0, 0, 7, 0, 0, 0, 0],
        [6, 0, 0, 1, 9, 5, 0, 0, 0],
        [0, 9, 8, 0, 0, 0, 0, 6, 0],
        [8, 0, 0, 0, 6, 0, 0, 0, 3],
        [4, 0, 0, 8, 0, 3, 0, 0, 1],
        [7, 0, 0, 0, 2, 0, 0, 0, 6],
        [0, 6, 0, 0, 0, 0, 2, 8, 0],
        [0, 0, 0, 4, 1, 9, 0, 0, 5],
        [0, 0, 0, 0, 8, 0, 0, 7, 9],
    ];
    let board = Board::from(array);
    for i in 0..9 {
        for j in 0..9 {
            let position = board.get_position_xy(i, j);
            if array[i][j] != 0 {
                assert_eq!(position.final_value, array[i][j]);
            }
        }
    }
}

#[test]
fn test_is_solved() {
    let unsolved_array = [
        [4, 5, 8, 6, 0, 0, 0, 0, 7],
        [0, 0, 0, 1, 0, 0, 0, 0, 4],
        [0, 0, 2, 4, 0, 8, 6, 0, 3],
        [0, 0, 4, 0, 1, 0, 3, 6, 2],
        [0, 0, 0, 2, 0, 5, 0, 0, 0],
        [7, 2, 9, 0, 8, 0, 5, 0, 0],
        [8, 0, 3, 7, 0, 4, 1, 0, 0],
        [2, 0, 0, 0, 0, 1, 0, 0, 0],
        [6, 0, 0, 0, 0, 2, 4, 3, 8],
    ];
    let unsolved_board = Board::from(unsolved_array);
    assert!(!unsolved_board.is_solved());

    let solved_array = [
        [5, 4, 3, 1, 2, 8, 7, 9, 6],
        [7, 8, 2, 6, 4, 9, 1, 3, 5],
        [1, 6, 9, 3, 5, 7, 2, 8, 4],
        [9, 2, 1, 5, 6, 3, 8, 4, 7],
        [3, 7, 4, 2, 8, 1, 6, 5, 9],
        [6, 5, 8, 9, 7, 4, 3, 2, 1],
        [8, 3, 5, 7, 9, 6, 4, 1, 2],
        [2, 1, 7, 4, 3, 5, 9, 6, 8],
        [4, 9, 6, 8, 1, 2, 5, 7, 3],
    ];
    let solved_board = Board::from(solved_array);
    assert!(solved_board.is_solved());
}

#[test]
fn a_board_from_clues_closes_the_clues_and_leaves_the_blanks_open() {
    let board = Board::from(CLUES);
    for row in 0..9 {
        for column in 0..9 {
            let position = board.get_position_xy(row, column);
            assert_eq!(position.final_value, CLUES[row][column]);
            if CLUES[row][column] != 0 {
                assert_eq!(position.impossibilities, ALL_EXCLUDED);
            } else {
                assert_eq!(position.impossibilities, 0);
            }
        }
    }
}

#[test]
fn a_single_missing_symbol_leaves_the_board_unsolved() {
    let mut array = [[1u8; 9]; 9];
    assert!(Board::from(array).is_solved());
    array[8][8] = 0;
    assert!(!Board::from(array).is_solved());
    array[8][8] = 1;
    array[0][0] = 0;
    assert!(!Board::from(array).is_solved());
}

#[test]
fn squares_are_read_by_row_and_by_column() {
    let board = Board::from(CLUES);
    for index in 0..9 {
        for i in 0..9 {
            assert_eq!(
                board.get_position_line(Line::Row(index), i).final_value,
                CLUES[index][i]
            );
            assert_eq!(
                board.get_position_line(Line::Column(index), i).final_value,
                CLUES[i][index]
            );
            assert_eq!(board.unit_position(Unit::Row(index), i).final_value, CLUES[index][i]);
            assert_eq!(board.unit_position(Unit::Column(index), i).final_value, CLUES[i][index]);
        }
    }
    for i in 0..9 {
        assert_eq!(
            board.unit_position(Unit::Square(3, 6), i).final_value,
            CLUES[3 + i / 3][6 + i % 3]
        );
        assert_eq!(Unit::Square(3, 6).position(i), (3 + i / 3, 6 + i % 3));
        assert_eq!(Unit::Row(4).position(i), (4, i));
        assert_eq!(Unit::Column(4).position(i), (i, 4));
    }
}

#[test]
fn the_symbols_of_a_unit_are_gathered_as_a_set() {
    let board = Board::from(CLUES);
    assert_eq!(board.get_line_final_values(Line::Row(0)), 0b0000000010101000);
    assert_eq!(board.get_line_final_values(Line::Column(4)), 0b0000001111000110);
    assert_eq!(board.get_box_final_values(3, 3), 0b0000000101001100);
    assert_eq!(board.unit_final_values(Unit::Square(6, 6)), 0b0000001110100100);
    assert_eq!(Board::new().get_line_final_values(Line::Row(3)), 0);
}

#[test]
fn setting_and_excluding_touch_one_square() {
    let mut board = Board::new();
    board.set_final_value(7, 2, 5);
    board.add_impossibilities(0b0000000000000110, 4, 4);
    board.add_impossibilities(0b0000000000001100, 4, 4);
    for row in 0..9 {
        for column in 0..9 {
            let position = board.get_position_xy(row, column);
            if (row, column) == (2, 5) {
                assert_eq!(position.final_value, 7);
                assert_eq!(position.impossibilities, ALL_EXCLUDED);
            } else if (row, column) == (4, 4) {
                assert_eq!(position.final_value, 0);
                assert_eq!(position.impossibilities, 0b0000000000001110);
            } else {
                assert_eq!(position.final_value, 0);
                assert_eq!(position.impossibilities, 0);
            }
        }
    }
}

#[test]
fn peer_elimination_over_a_row_excludes_the_rows_symbols_from_its_squares() {
    let mut board = Board::from(CLUES);
    board.annotate_line(Line::Row(0));
    let sets = exclusions(&board);
    assert_eq!(
        sets[0],
        [0x3fe, 0x3fe, 0xa8, 0xa8, 0x3fe, 0xa8, 0xa8, 0xa8, 0xa8]
    );
    assert_eq!(sets[1], [0x3fe, 0, 0, 0x3fe, 0x3fe, 0x3fe, 0, 0, 0]);
    assert_eq!(symbols(&board), CLUES);
}

#[test]
fn peer_elimination_over_a_column_and_a_box() {
    let mut board = Board::from(CLUES);
    board.annotate_line(Line::Column(4));
    let sets = exclusions(&board);
    for row in 0..9 {
        let expected = if CLUES[row][4] != 0 { 0x3fe } else { 0x3c6 };
        assert_eq!(sets[row][4], expected);
        assert_eq!(sets[row][3], if CLUES[row][3] != 0 { 0x3fe } else { 0 });
    }

    let mut board = Board::from(CLUES);
    board.annotate_box(3, 3);
    let sets = exclusions(&board);
    for row in 0..9 {
        for column in 0..9 {
            let inside = (3..6).contains(&row) && (3..6).contains(&column);
            let expected = if CLUES[row][column] != 0 {
                0x3fe
            } else if inside {
                0x14c
            } else {
                0
            };
            assert_eq!(sets[row][column], expected);
        }
    }
    assert_eq!(symbols(&board), CLUES);
}

#[test]
fn a_second_pass_of_peer_elimination_changes_nothing() {
    let mut board = Board::from(CLUES);
    board.annotate_all_lines();
    board.annotate_all_box();
    let once = exclusions(&board);
    board.annotate_all_lines();
    board.annotate_all_box();
    assert_eq!(exclusions(&board), once);
    assert_eq!(symbols(&board), CLUES);
    assert_ne!(once, exclusions(&Board::from(CLUES)));
}

#[test]
fn peer_elimination_over_all_units_unites_row_column_and_box() {
    let mut board = Board::from(CLUES);
    board.annotate_all_lines();
    let lines = exclusions(&board);
    // Row 0 holds 5, 3, 7; column 2 holds 8.
    assert_eq!(lines[0][2], 0b0000000110101000);
    board.annotate_all_box();
    let all = exclusions(&board);
    // The top left box adds 6 and 9.
    assert_eq!(all[0][2], 0b0000001111101000);
    for row in 0..9 {
        for column in 0..9 {
            assert_eq!(all[row][column] & lines[row][column], lines[row][column]);
        }
    }
}

#[test]
fn candidates_are_counted_per_symbol() {
    let mut board = Board::from(CLUES);
    assert_eq!(board.get_count_in_line(Line::Row(0)), [6, 6, 6, 6, 6, 6, 6, 6, 6]);
    board.annotate_all_lines();
    board.annotate_all_box();
    // Row 0 after elimination: the open squares are columns 2, 3, 5, 6, 7, 8.
    let mut expected = [0u8; 9];
    for column in [2usize, 3, 5, 6, 7, 8] {
        let set = board.get_position_xy(0, column).impossibilities;
        for symbol in 1..=9usize {
            if (set >> symbol) & 1 == 0 {
                expected[symbol - 1] += 1;
            }
        }
    }
    assert_eq!(board.get_count_in_line(Line::Row(0)), expected);
    assert_eq!(board.count_in_unit(Unit::Row(0)), expected);
    assert_eq!(expected[4], 0);
    assert_eq!(board.get_count_in_box(0, 0), [2, 4, 0, 3, 0, 0, 2, 0, 0]);
    assert_eq!(Board::new().get_count_in_box(6, 6), [9, 9, 9, 9, 9, 9, 9, 9, 9]);
    assert_eq!(Board::new().get_count_in_line(Line::Column(8)), [9, 9, 9, 9, 9, 9, 9, 9, 9]);
}

#[test]
fn a_hidden_single_is_placed_where_the_square_has_other_candidates() {
    // Only the last square of row 0 can take 4; it still admits any symbol.
    let mut board = Board::new();
    for column in 0..8 {
        board.add_impossibilities(1 << 4, 0, column);
    }
    let changed = board.check_line_possibilities(Line::Row(0));
    assert!(changed);
    let placed = board.get_position_xy(0, 8);
    assert_eq!(placed.final_value, 4);
    assert_eq!(placed.impossibilities, ALL_EXCLUDED);
    for column in 0..8 {
        let other = board.get_position_xy(0, column);
        assert_eq!(other.final_value, 0);
        assert_eq!(other.impossibilities, 1 << 4);
    }
    assert!(!board.check_line_possibilities(Line::Row(0)));
}

#[test]
fn a_square_that_is_the_only_candidate_for_two_symbols_ends_with_the_greater() {
    let mut board = Board::new();
    for row in 0..9 {
        if row != 6 {
            board.add_impossibilities((1 << 3) | (1 << 8), row, 2);
        }
    }
    assert!(board.check_line_possibilities(Line::Column(2)));
    assert_eq!(board.get_position_xy(6, 2).final_value, 8);
    for row in 0..9 {
        if row != 6 {
            assert_eq!(board.get_position_xy(row, 2).final_value, 0);
        }
    }
}

#[test]
fn hidden_singles_in_a_box() {
    let mut board = Board::new();
    for i in 0..9 {
        let (row, column) = (3 + i / 3, 6 + i % 3);
        if (row, column) != (4, 7) {
            board.add_impossibilities(1 << 9, row, column);
        }
        if (row, column) != (5, 8) {
            board.add_impossibilities(1 << 1, row, column);
        }
    }
    assert_eq!(board.get_count_in_box(3, 6), [1, 9, 9, 9, 9, 9, 9, 9, 1]);
    assert!(board.check_box_possibilities(3, 6));
    assert_eq!(board.get_position_xy(4, 7).final_value, 9);
    assert_eq!(board.get_position_xy(5, 8).final_value, 1);
    let mut placed = 0;
    for row in 0..9 {
        for column in 0..9 {
            if board.get_position_xy(row, column).final_value != 0 {
                placed += 1;
            }
        }
    }
    assert_eq!(placed, 2);
    assert!(!board.check_unit_possibilities(Unit::Square(3, 6)));
}

#[test]
fn the_passes_report_no_change_on_a_blank_board() {
    let mut board = Board::new();
    assert!(!board.check_possibilities());
    assert!(!board.check_all_lines_possibilities());
    assert!(!board.check_all_box_possibilities());
    assert_eq!(symbols(&board), [[0u8; 9]; 9]);
    assert_eq!(exclusions(&board), [[0u16; 9]; 9]);
}

#[test]
fn the_naked_single_pass_resolves_every_square_with_one_candidate() {
    let mut board = Board::new();
    board.add_impossibilities(ALL_EXCLUDED & !(1 << 2), 1, 1);
    board.add_impossibilities(ALL_EXCLUDED & !(1 << 9), 8, 0);
    board.add_impossibilities(ALL_EXCLUDED & !((1 << 2) | (1 << 3)), 5, 5);
    assert!(board.check_possibilities());
    assert_eq!(board.get_position_xy(1, 1).final_value, 2);
    assert_eq!(board.get_position_xy(1, 1).impossibilities, ALL_EXCLUDED);
    assert_eq!(board.get_position_xy(8, 0).final_value, 9);
    assert_eq!(board.get_position_xy(5, 5).final_value, 0);
    assert!(!board.check_possibilities());
}

#[test]
fn the_line_pass_takes_rows_before_columns() {
    // Row 0 and column 0 both have a hidden single in the corner: 1 by the
    // row, 2 by the column. The rows come first, and what the column places
    // replaces it.
    let mut board = Board::new();
    for i in 1..9 {
        board.add_impossibilities(1 << 1, 0, i);
        board.add_impossibilities(1 << 2, i, 0);
    }
    assert!(board.check_all_lines_possibilities());
    assert_eq!(board.get_position_xy(0, 0).final_value, 2);
    assert!(!board.check_all_lines_possibilities());

    let mut rows_only = Board::new();
    for i in 1..9 {
        rows_only.add_impossibilities(1 << 1, 0, i);
        rows_only.add_impossibilities(1 << 2, i, 0);
    }
    assert!(rows_only.check_line_possibilities(Line::Row(0)));
    assert_eq!(rows_only.get_position_xy(0, 0).final_value, 1);
}

#[test]
fn what_one_unit_places_makes_no_hidden_single_in_another() {
    // 4 has one square left in row 0, the last, and two in column 8: that
    // one and the square at row 5.
    let mut board = Board::new();
    for column in 0..8 {
        board.add_impossibilities(1 << 4, 0, column);
    }
    for row in 1..9 {
        if row != 5 {
            board.add_impossibilities(1 << 4, row, 8);
        }
    }
    let mut lines = board;
    let mut one_by_one = board;
    assert!(board.check_all_units_possibilities());
    assert_eq!(board.get_position_xy(0, 8).final_value, 4);
    assert_eq!(board.get_position_xy(5, 8).final_value, 0);
    assert_eq!(symbols(&board).iter().flatten().filter(|symbol| **symbol != 0).count(), 1);

    assert!(lines.check_all_lines_possibilities());
    assert!(lines == board);

    // Taken one after the other, each on the board as it then is, the
    // column finds the square at row 5 alone.
    assert!(one_by_one.check_line_possibilities(Line::Row(0)));
    assert!(one_by_one.check_line_possibilities(Line::Column(8)));
    assert_eq!(one_by_one.get_position_xy(5, 8).final_value, 4);
}

#[test]
fn hidden_singles_found_on_one_board_are_placed_in_another() {
    let mut found = Board::new();
    for column in 1..9 {
        found.add_impossibilities(1 << 6, 2, column);
    }
    let mut board = found;
    board.set_final_value(9, 7, 7);
    assert!(board.place_hidden_singles(&found, Unit::Row(2)));
    assert_eq!(board.get_position_xy(2, 0).final_value, 6);
    assert_eq!(board.get_position_xy(7, 7).final_value, 9);
    assert!(!board.place_hidden_singles(&found, Unit::Row(3)));
    assert!(board.place_hidden_singles(&found, Unit::Column(0)) == false);
}

#[test]
fn boards_are_equal_when_every_square_is() {
    let board = Board::from(CLUES);
    let mut other = Board::from(CLUES);
    assert!(board == other);
    other.add_impossibilities(1 << 1, 0, 2);
    assert!(board != other);
    let mut third = Board::from(CLUES);
    third.set_final_value(4, 8, 0);
    assert!(board != third);
    let copy = board;
    assert!(copy == board);
    assert!(Board::new() == Board::from([[0u8; 9]; 9]));
}
