use sudoku_solver::position::{Position, ALL_EXCLUDED};

#[test]
fn test_new_position() {
    let position = Position::new();
    assert_eq!(position.final_value, 0);
    assert_eq!(position.impossibilities, 0);
}

#[test]
fn test_set_final_value() {
    let mut position = Position::new();
    position.set_final_value(5);
    assert_eq!(position.final_value, 5);
    assert_eq!(position.impossibilities, 0b0000001111111110);
}

#[test]
fn test_add_impossibilities() {
    let mut position = Position::new();
    position.add_impossibilities(0b0000000010000000);
    assert_eq!(position.impossibilities, 0b0000000010000000);

    position.add_impossibilities(0b0000000000010000);
    assert_eq!(position.impossibilities, 0b0000000010010000);
}

#[test]
fn test_check_for_final_value() {
    let mut position = Position::new();
    position.add_impossibilities(0b0000000010000000);
    assert_eq!(position.check_for_final_value(), false);

    position.add_impossibilities(0b0000001110111110);
    assert_eq!(position.check_for_final_value(), true);
    assert_eq!(position.final_value, 6);
}

#[test]
fn assigning_any_symbol_closes_the_square() {
    for symbol in 1..=9u8 {
        let mut position = Position::new();
        position.add_impossibilities(1 << symbol);
        position.set_final_value(symbol);
        assert_eq!(position.final_value, symbol);
        assert_eq!(position.impossibilities, ALL_EXCLUDED);
        for k in 1..=9u16 {
            assert_eq!((position.impossibilities >> k) & 1, 1);
        }
    }
}

#[test]
fn excluding_never_reopens_a_symbol() {
    let masks: [u16; 6] = [0, 0b10, 0b1000000000, 0b0101010100, 0b1010101010, ALL_EXCLUDED];
    for before in masks {
        for mask in masks {
            let mut position = Position::new();
            position.add_impossibilities(before);
            position.add_impossibilities(mask);
            assert_eq!(position.impossibilities & before, before);
            assert_eq!(position.impossibilities, before | mask);
            assert_eq!(position.final_value, 0);
        }
    }
}

#[test]
fn excluding_from_a_closed_square_changes_nothing() {
    let mut position = Position::new();
    position.set_final_value(3);
    position.add_impossibilities(0b0000000000001010);
    assert_eq!(position.final_value, 3);
    assert_eq!(position.impossibilities, ALL_EXCLUDED);
}

#[test]
fn resolving_places_the_only_open_symbol_whichever_it_is() {
    for symbol in 1..=9u8 {
        let mut position = Position::new();
        position.add_impossibilities(ALL_EXCLUDED & !(1 << symbol));
        assert!(position.check_for_final_value());
        assert_eq!(position.final_value, symbol);
        assert_eq!(position.impossibilities, ALL_EXCLUDED);
    }
}

#[test]
fn resolving_leaves_an_ambiguous_square_alone() {
    let mut position = Position::new();
    position.add_impossibilities(0b0000001111100110);
    assert!(!position.check_for_final_value());
    assert_eq!(position.final_value, 0);
    assert_eq!(position.impossibilities, 0b0000001111100110);

    let mut untouched = Position::new();
    assert!(!untouched.check_for_final_value());
    assert_eq!(untouched.final_value, 0);
    assert_eq!(untouched.impossibilities, 0);
}

#[test]
fn resolving_leaves_a_square_with_nothing_open_alone() {
    let mut position = Position::new();
    position.add_impossibilities(ALL_EXCLUDED);
    assert!(!position.check_for_final_value());
    assert_eq!(position.final_value, 0);
    assert_eq!(position.impossibilities, ALL_EXCLUDED);
}

#[test]
fn resolving_leaves_a_placed_symbol_alone() {
    let mut position = Position::new();
    position.set_final_value(4);
    assert!(!position.check_for_final_value());
    assert_eq!(position.final_value, 4);
    assert_eq!(position.impossibilities, ALL_EXCLUDED);
}

#[test]
fn excluded_symbols_are_listed_in_their_places() {
    let mut position = Position::new();
    assert_eq!(position.get_impossibilities(), [0, 0, 0, 0, 0, 0, 0, 0, 0]);
    position.add_impossibilities(0b0000001000010010);
    assert_eq!(position.get_impossibilities(), [1, 0, 0, 4, 0, 0, 0, 0, 9]);
    position.set_final_value(2);
    assert_eq!(position.get_impossibilities(), [1, 2, 3, 4, 5, 6, 7, 8, 9]);
    assert_eq!(Position::bits_to_array(0b0000000101010100), [0, 2, 0, 4, 0, 6, 0, 8, 0]);
}
