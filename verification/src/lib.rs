//! Rules engine for an Othello/Reversi game: an 8x8 disc grid with a sentinel
//! border, a legality scanner over the eight compass directions, a per-turn
//! cache of legal moves, and a reversible move/pass/undo state machine.

use vstd::prelude::*;

pub mod point;
pub mod storage;
pub mod grid;
pub mod bits;
pub mod rules;
pub mod board;

pub use point::{Disc, Point};
pub use storage::ColorStorage;

verus! {

/// The tag held by one cell of the bordered grid.
#[derive(Clone, Copy, PartialEq, Eq, Structural, Debug)]
pub enum Color {
    Empty,
    Black,
    White,
    Wall,
}

impl Color {
    /// The opposing player's color. Only meaningful for Black and White.
    pub open spec fn spec_opponent(self) -> Color {
        match self {
            Color::Black => Color::White,
            Color::White => Color::Black,
            _ => self,
        }
    }

    /// Swaps Black and White; Empty and Wall are their own opponent.
    #[verifier::when_used_as_spec(spec_opponent)]
    pub fn opponent(self) -> (r: Color)
        ensures
            r == self.spec_opponent(),
    {
        match self {
            Color::Black => Color::White,
            Color::White => Color::Black,
            c => c,
        }
    }

    /// True for the two player colors.
    pub open spec fn is_player(self) -> bool {
        self == Color::Black || self == Color::White
    }
}

} // verus!
