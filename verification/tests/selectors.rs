//! Tests of the boundary selector parsing.

use pixelsort::pixel::{Direction, Mode};

#[test]
fn mode_tokens_parse_case_insensitively() {
    assert_eq!(Mode::parse("white"), Some(Mode::White));
    assert_eq!(Mode::parse("WhItE"), Some(Mode::White));
    assert_eq!(Mode::parse("BLACK"), Some(Mode::Black));
    assert_eq!(Mode::parse("bright"), Some(Mode::Bright));
    assert_eq!(Mode::parse("Dark"), Some(Mode::Dark));
}

#[test]
fn unknown_mode_tokens_are_refused() {
    assert_eq!(Mode::parse(""), None);
    assert_eq!(Mode::parse("grey"), None);
    assert_eq!(Mode::parse("whiteish"), None);
    assert_eq!(Mode::parse(" white"), None);
}

#[test]
fn direction_tokens_parse_exactly() {
    assert_eq!(Direction::parse("h"), Some(Direction::ColumnsFirst));
    assert_eq!(Direction::parse("v"), Some(Direction::RowsFirst));
    assert_eq!(Direction::parse("H"), None);
    assert_eq!(Direction::parse("x"), None);
    assert_eq!(Direction::parse(""), None);
}
