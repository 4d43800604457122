//! Parsing of the boundary's selector tokens: a case-insensitive mode name
//! and an exact one-letter direction token.

use vstd::prelude::*;
use crate::pixel::{Direction, Mode};

verus! {

/// What lowercasing returns for a given character sequence.
pub uninterp spec fn lower_of(s: Seq<char>) -> Seq<char>;

/// Relies on str::to_lowercase: the returned string is a function of the
/// input's characters alone (the Unicode lowercase mapping, without any
/// locale dependence).
#[verifier::external_body]
fn lowercase(s: &str) -> (r: String)
    ensures
        r@ == lower_of(s@),
{
    s.to_lowercase()
}

/// The mode a lowercased token names.
pub open spec fn mode_of_lowered(t: Seq<char>) -> Option<Mode> {
    if t == "white"@ {
        Some(Mode::White)
    } else if t == "black"@ {
        Some(Mode::Black)
    } else if t == "bright"@ {
        Some(Mode::Bright)
    } else if t == "dark"@ {
        Some(Mode::Dark)
    } else {
        None
    }
}

/// The direction a token selects: "h" runs the columns first, "v" the rows.
pub open spec fn direction_of_token(t: Seq<char>) -> Option<Direction> {
    if t == "h"@ {
        Some(Direction::ColumnsFirst)
    } else if t == "v"@ {
        Some(Direction::RowsFirst)
    } else {
        None
    }
}

impl Mode {
    /// Parses a mode token, ignoring letter case: white, black, bright or
    /// dark. Every other token is refused.
    pub fn parse(s: &str) -> (r: Option<Mode>)
        ensures
            r == mode_of_lowered(lower_of(s@)),
    {
        let low: String = lowercase(s);
        if low == "white".to_owned() {
            Some(Mode::White)
        } else if low == "black".to_owned() {
            Some(Mode::Black)
        } else if low == "bright".to_owned() {
            Some(Mode::Bright)
        } else if low == "dark".to_owned() {
            Some(Mode::Dark)
        } else {
            None
        }
    }
}

impl Direction {
    /// Parses the direction token: exactly "h" selects columns first,
    /// exactly "v" rows first. Every other token is refused.
    pub fn parse(s: &str) -> (r: Option<Direction>)
        ensures
            r == direction_of_token(s@),
    {
        if s.to_owned() == "h".to_owned() {
            Some(Direction::ColumnsFirst)
        } else if s.to_owned() == "v".to_owned() {
            Some(Direction::RowsFirst)
        } else {
            None
        }
    }
}

} // verus!
