//! Plain chess vocabulary shared by the encoder and the search tree.

use vstd::prelude::*;

verus! {

/// A piece kind; used for promotions and for the encoder's plane schema.
#[derive(Clone, Copy, Debug, PartialEq, Eq, Structural)]
pub enum PieceKind {
    Pawn,
    Knight,
    Bishop,
    Rook,
    Queen,
    King,
}

/// Outcome classification of a position.
#[derive(Clone, Copy, Debug, PartialEq, Eq, Structural)]
pub enum GameStatus {
    Ongoing,
    Checkmate,
    Stalemate,
}

/// A chess move: source and destination square indices (rank-major, `0..64`)
/// and an optional promotion piece.
#[derive(Clone, Copy, Debug, PartialEq, Eq, Structural)]
pub struct Move {
    pub from: u8,
    pub to: u8,
    pub promotion: Option<PieceKind>,
}

impl Move {
    /// Both squares lie on the board.
    pub open spec fn wf(self) -> bool {
        self.from < 64 && self.to < 64
    }

    pub fn new(from: u8, to: u8, promotion: Option<PieceKind>) -> (r: Move)
        ensures
            r == (Move { from, to, promotion }),
    {
        Move { from, to, promotion }
    }
}

} // verus!
