//! Moves, and the attack tables that move generation reads.

pub mod magic;
pub mod moveboards;

use crate::boardstructs::Square;
use vstd::prelude::*;

verus! {

/// A piece going from one square to another.
#[derive(PartialEq, Eq, Structural, Debug, Clone, Copy)]
pub struct Move {
    /// The square the piece leaves.
    pub from: Square,
    /// The square the piece arrives on.
    pub to: Square,
    /// Whether a pawn is promoted by the move.
    pub promotion: bool,
    /// Whether a piece is taken by the move.
    pub capture: bool,
}

impl Move {
    /// The square the piece leaves.
    pub fn from(&self) -> (sqr: Square)
        ensures
            sqr == self.from,
    {
        self.from
    }

    /// The square the piece arrives on.
    pub fn to(&self) -> (sqr: Square)
        ensures
            sqr == self.to,
    {
        self.to
    }
}

/// A move that follows the way its piece moves, and may yet leave the
/// mover's king in check.
#[derive(PartialEq, Eq, Structural, Debug, Clone, Copy)]
pub struct PseudolegalMove(pub Move);

/// Why a move was refused.
#[derive(Debug)]
pub enum MoveError {
    /// The move is not allowed in its position.
    IllegalMove(PseudolegalMove),
}

} // verus!
