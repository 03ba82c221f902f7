use sudoku_sat::Grid;
use sudoku_sat::ParseError;

const EMPTY: &str =
    "                                                                                 ";

#[test]
fn parse_empty_grid() {
    assert_eq!(EMPTY.len(), 81);
    let g = Grid::from_str(EMPTY).unwrap();
    for y in 0..9 {
        for x in 0..9 {
            assert_eq!(g.get(x, y), None);
        }
    }
}

#[test]
fn parse_digits_zero_based() {
    let mut text = String::from("19");
    text.push_str(&" ".repeat(79));
    let g = Grid::from_str(&text).unwrap();
    assert_eq!(g.get(0, 0), Some(0));
    assert_eq!(g.get(1, 0), Some(8));
    assert_eq!(g.get(2, 0), None);
}

#[test]
fn parse_rejects_short_input() {
    assert!(matches!(Grid::from_str("123"), Err(ParseError::WrongLength)));
}

#[test]
fn parse_rejects_long_input() {
    let text = " ".repeat(82);
    assert!(matches!(Grid::from_str(&text), Err(ParseError::WrongLength)));
}

#[test]
fn parse_rejects_invalid_character() {
    let mut text = " ".repeat(40);
    text.push('x');
    text.push_str(&" ".repeat(40));
    assert!(matches!(Grid::from_str(&text), Err(ParseError::InvalidChar('x'))));
}

#[test]
fn parse_reports_character_before_length() {
    assert!(matches!(Grid::from_str("12x4"), Err(ParseError::InvalidChar('x'))));
    assert!(matches!(Grid::from_str("0"), Err(ParseError::InvalidChar('0'))));
}

#[test]
fn display_empty_grid() {
    let g = Grid::from_str(EMPTY).unwrap();
    let row = "   |    |    \n";
    let divider = "---------------------\n";
    let expected = format!(
        "{r}{r}{r}{d}{r}{r}{r}{d}{r}{r}{r}",
        r = row,
        d = divider
    );
    assert_eq!(g.to_display_string(), expected);
}

#[test]
fn display_given_digits() {
    let mut text = String::from("12");
    text.push_str(&" ".repeat(79));
    let g = Grid::from_str(&text).unwrap();
    let display = g.to_display_string();
    assert!(display.starts_with("1 2  |    |    \n"));
}
