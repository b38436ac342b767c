use battleship_odds::inputs::{parse_fleet, parse_number, Inputs, DEFAULT_GRID_SIZE};

#[test]
fn numbers_are_read_as_decimal() {
    assert_eq!(parse_number("0"), Some(0));
    assert_eq!(parse_number("7"), Some(7));
    assert_eq!(parse_number("10"), Some(10));
    assert_eq!(parse_number("007"), Some(7));
    assert_eq!(parse_number("+12"), Some(12));
    assert_eq!(parse_number("1234567890"), Some(1234567890));
}

#[test]
fn text_that_writes_no_number_is_refused() {
    assert_eq!(parse_number(""), None);
    assert_eq!(parse_number("+"), None);
    assert_eq!(parse_number("++1"), None);
    assert_eq!(parse_number("-1"), None);
    assert_eq!(parse_number("1 "), None);
    assert_eq!(parse_number(" 1"), None);
    assert_eq!(parse_number("1x"), None);
    assert_eq!(parse_number("x1"), None);
    assert_eq!(parse_number("1.5"), None);
    assert_eq!(parse_number("٣"), None);
}

#[test]
fn numbers_up_to_the_largest_are_read() {
    let largest = format!("{}", usize::MAX);
    assert_eq!(parse_number(&largest), Some(usize::MAX));
    let too_large = format!("{}0", usize::MAX);
    assert_eq!(parse_number(&too_large), None);
    let next = format!("{}", usize::MAX as u128 + 1);
    assert_eq!(parse_number(&next), None);
}

#[test]
fn numbers_are_read_as_the_standard_library_reads_them() {
    let samples = [
        "", "0", "00", "42", "+42", "-42", "+", "4 2", "4\t", "99999999999999999999999",
        "18446744073709551615", "18446744073709551616", "a", "1e3", "0x10", "+-1", "١٢",
    ];
    for text in samples {
        assert_eq!(parse_number(text), text.parse::<usize>().ok());
    }
}

#[test]
fn fleet_is_read_word_by_word() {
    assert_eq!(parse_fleet("4 3 3 2"), Some(vec![4, 3, 3, 2]));
    assert_eq!(parse_fleet("  4\t3\n\n3\r2 \x0C"), Some(vec![4, 3, 3, 2]));
    assert_eq!(parse_fleet("5"), Some(vec![5]));
    assert_eq!(parse_fleet("+5 0"), Some(vec![5, 0]));
    assert_eq!(parse_fleet(""), Some(vec![]));
    assert_eq!(parse_fleet(" \t "), Some(vec![]));
}

#[test]
fn fleet_with_a_bad_word_is_refused() {
    assert_eq!(parse_fleet("4 x 3"), None);
    assert_eq!(parse_fleet("4,3"), None);
    assert_eq!(parse_fleet("4 3 -2"), None);
    assert_eq!(parse_fleet("x"), None);
    assert_eq!(parse_fleet("4 3 2x"), None);
    assert_eq!(parse_fleet("4 99999999999999999999999 2"), None);
    assert_eq!(parse_fleet("4\u{b}3"), None);
}

#[test]
fn fleet_is_read_as_the_standard_library_splits_it() {
    let samples = [
        "", " ", "1", "1 2", " 1  2 ", "1\t2\n3", "1 a", "a 1", "1\u{b}2", "1\u{a0}2", "+1 +2",
        "3 3 3 ", "\r\n7\r\n",
    ];
    for text in samples {
        let expected = text
            .split_ascii_whitespace()
            .map(|word| word.parse::<usize>())
            .collect::<Result<Vec<usize>, _>>()
            .ok();
        assert_eq!(parse_fleet(text), expected);
    }
}

#[test]
fn inputs_take_what_the_text_gives() {
    let inputs = Inputs::from_text(Some("8"), Some("5 4 3"));
    assert_eq!(inputs.grid_size, 8);
    assert_eq!(inputs.ships, vec![5, 4, 3]);
}

#[test]
fn inputs_fall_back_on_the_defaults() {
    assert_eq!(DEFAULT_GRID_SIZE, 10);
    let inputs = Inputs::from_text(None, None);
    assert_eq!(inputs.grid_size, 10);
    assert_eq!(inputs.ships, vec![4, 3, 3, 2, 2, 2]);
    let inputs = Inputs::from_text(Some("0"), Some(""));
    assert_eq!(inputs.grid_size, 10);
    assert_eq!(inputs.ships, vec![4, 3, 3, 2, 2, 2]);
    let inputs = Inputs::from_text(Some("ten"), Some("4 three"));
    assert_eq!(inputs.grid_size, 10);
    assert_eq!(inputs.ships, vec![4, 3, 3, 2, 2, 2]);
    let inputs = Inputs::from_text(Some(" 7"), Some("   "));
    assert_eq!(inputs.grid_size, 10);
    assert_eq!(inputs.ships, vec![4, 3, 3, 2, 2, 2]);
}

#[test]
fn inputs_keep_what_is_usable_of_either_text() {
    let inputs = Inputs::from_text(Some("12"), Some("oops"));
    assert_eq!(inputs.grid_size, 12);
    assert_eq!(inputs.ships, vec![4, 3, 3, 2, 2, 2]);
    let inputs = Inputs::from_text(None, Some("1"));
    assert_eq!(inputs.grid_size, 10);
    assert_eq!(inputs.ships, vec![1]);
}
