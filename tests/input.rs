use minesweeper::input::{parse_input, UserInput};

fn bad(msg: &str) -> UserInput {
    UserInput::BadInput(String::from(msg))
}

#[test]
fn parses_column_then_row() {
    assert_eq!(parse_input(&String::from("3 2\n"), 10), UserInput::Coords(1, 2));
    assert_eq!(parse_input(&String::from("1 1\n"), 1), UserInput::Coords(0, 0));
    assert_eq!(parse_input(&String::from("10 10"), 10), UserInput::Coords(9, 9));
    assert_eq!(parse_input(&String::from("+4 +5\n"), 10), UserInput::Coords(4, 3));
}

#[test]
fn refuses_empty_input() {
    assert_eq!(parse_input(&String::new(), 10), bad("No input"));
}

#[test]
fn refuses_wrong_number_count() {
    assert_eq!(parse_input(&String::from("3\n"), 10), bad("Not enough co-ords"));
    assert_eq!(parse_input(&String::from("1 2 3\n"), 10), bad("Too many co-ords"));
    assert_eq!(parse_input(&String::from("1  2\n"), 10), bad("Too many co-ords"));
}

#[test]
fn refuses_text_that_is_no_number() {
    assert_eq!(parse_input(&String::from("3 b\n"), 10), bad("x value was not a valid number"));
    assert_eq!(parse_input(&String::from("a 3\n"), 10), bad("y value was not a valid number"));
    assert_eq!(parse_input(&String::from("3 \n"), 10), bad("x value was not a valid number"));
    assert_eq!(parse_input(&String::from(" 3\n"), 10), bad("y value was not a valid number"));
    assert_eq!(
        parse_input(&String::from("1 99999999999999999999999\n"), 10),
        bad("x value was not a valid number")
    );
}

#[test]
fn refuses_values_off_the_board() {
    let msg = "co-ord values must be within the size of the grid!";
    assert_eq!(parse_input(&String::from("0 3\n"), 10), bad(msg));
    assert_eq!(parse_input(&String::from("3 0\n"), 10), bad(msg));
    assert_eq!(parse_input(&String::from("11 3\n"), 10), bad(msg));
    assert_eq!(parse_input(&String::from("3 11\n"), 10), bad(msg));
}
