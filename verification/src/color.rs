//! The two sides.

use vstd::prelude::*;

verus! {

/// A side of the game.
#[derive(Clone, Copy, Debug, PartialEq, Eq, Hash, Structural)]
pub enum Color {
    Black,
    White,
}

impl Color {
    /// Black is 0, White is 1.
    pub open spec fn code(self) -> u8 {
        match self {
            Color::Black => 0,
            Color::White => 1,
        }
    }

    /// The other side.
    pub open spec fn other(self) -> Color {
        match self {
            Color::Black => Color::White,
            Color::White => Color::Black,
        }
    }

    /// Black is 0, White is 1.
    pub fn index(self) -> (i: u8)
        ensures
            i == self.code(),
    {
        match self {
            Color::Black => 0,
            Color::White => 1,
        }
    }

    /// The other side.
    pub fn opponent(self) -> (c: Color)
        ensures
            c == self.other(),
    {
        match self {
            Color::Black => Color::White,
            Color::White => Color::Black,
        }
    }
}

} // verus!
