//! A move chooser for one snake in a duel of two on an 11×11 board.
//!
//! The position lives on a bit-board (`bitboard`, `board`) that is changed in
//! place and put back (`step`). `movegen` lists the half-moves of a side, and
//! two searches work on the position: alpha-beta minimax with iterative
//! deepening (`minimax`) and a Monte-Carlo tree search (`treesearch`). Both
//! read an evaluator (`eval`) at their leaves; `area_eval` computes the
//! features that one such evaluator rates. `incoming_board` turns a request
//! into a position, and `combat_adapter` chooses recorded games to learn
//! from.
//!
//! Scores are integers: chances to win in millionths.

use vstd::prelude::*;

pub mod area_eval;
pub mod bitboard;
pub mod board;
pub mod combat_adapter;
pub mod eval;
pub mod incoming_board;
pub mod minimax;
pub mod movegen;
pub mod step;
pub mod treesearch;

verus! {

/// A square of the board by column and row.
#[derive(Clone, Copy, Debug, PartialEq, Eq, Hash, Structural)]
pub struct Coordinate {
    pub x: i8,
    pub y: i8,
}

impl Coordinate {
    /// The square in column `x` and row `y`.
    pub fn new(x: i8, y: i8) -> (c: Self)
        ensures
            c.x == x,
            c.y == y,
    {
        Self { x, y }
    }

    /// The sum of the two, column by column and row by row.
    pub fn add(self, rhs: Self) -> (c: Self)
        requires
            i8::MIN <= self.x + rhs.x <= i8::MAX,
            i8::MIN <= self.y + rhs.y <= i8::MAX,
        ensures
            c.x == self.x + rhs.x,
            c.y == self.y + rhs.y,
    {
        Coordinate { x: self.x + rhs.x, y: self.y + rhs.y }
    }

    /// The square lies on the 11×11 board.
    pub open spec fn on_board(self) -> bool {
        0 <= self.x < 11 && 0 <= self.y < 11
    }

    /// Whether the square lies on the 11×11 board.
    pub fn is_on_board(&self) -> (r: bool)
        ensures
            r == self.on_board(),
    {
        0 <= self.x && self.x < 11 && 0 <= self.y && self.y < 11
    }

    /// The bit index of the square: `x + 11 * y`.
    pub open spec fn index(self) -> u32 {
        (self.x + 11 * self.y) as u32
    }

    /// The mask of the square.
    pub fn mask(&self) -> (m: u128)
        requires
            self.on_board(),
        ensures
            m == bitboard::square_at(self.index()),
            bitboard::is_square(m),
    {
        bitboard::square_mask(self.x as u32, self.y as u32)
    }
}

} // verus!
