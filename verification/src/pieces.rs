//! Piece colours, piece kinds, pieces, squares, and the engine's
//! error taxonomy.

use vstd::prelude::*;

verus! {

/// The side a piece belongs to.  Total, closed enumeration.
#[derive(Clone, Copy, Debug, PartialEq, Eq, Structural)]
pub enum PieceColour {
    White,
    Black,
}

/// The kind of a piece; it determines the move-generation strategy.
#[derive(Clone, Copy, Debug, PartialEq, Eq, Structural)]
pub enum PieceType {
    Pawn,
    King,
    Queen,
    Rook,
    Bishop,
    Knight,
}

/// A piece: a (colour, kind) pair.  A board square holds at most one.
#[derive(Clone, Copy, Debug, PartialEq, Eq, Structural)]
pub struct Piece {
    pub colour: PieceColour,
    pub piece_type: PieceType,
}

/// A board coordinate pair.  `x` is the file and `y` the rank, both
/// 0-indexed; a square is on the board exactly when both lie in [0, 8).
#[derive(Clone, Copy, Debug, PartialEq, Eq, Structural)]
pub struct Square {
    pub x: usize,
    pub y: usize,
}

/// Contract violations the engine reports instead of panicking.
#[derive(Clone, Copy, Debug, PartialEq, Eq, Structural)]
pub enum ErrorKind {
    /// A move or move generation was requested against an empty square.
    EmptySource,
    /// A supplied coordinate lies outside [0, 8) x [0, 8).
    OutOfBounds,
    /// The check filter was invoked on a board with no king of the
    /// relevant side.
    KingNotFound,
}

impl PieceColour {
    /// The opposite of a colour, as a spec-level function.
    pub open spec fn opposite_spec(self) -> PieceColour {
        match self {
            PieceColour::White => PieceColour::Black,
            PieceColour::Black => PieceColour::White,
        }
    }

    /// Whether this colour is White.
    pub fn is_white(&self) -> (r: bool)
        ensures
            r == (*self == PieceColour::White),
    {
        match self {
            PieceColour::White => true,
            PieceColour::Black => false,
        }
    }

    /// Whether two colours differ; used to distinguish a capture from a
    /// self-block.
    pub fn is_different(&self, other: &PieceColour) -> (r: bool)
        ensures
            r == (*self != *other),
    {
        match (self, other) {
            (PieceColour::White, PieceColour::Black) => true,
            (PieceColour::Black, PieceColour::White) => true,
            _ => false,
        }
    }

    /// The opposite colour.
    pub fn opposite(&self) -> (r: PieceColour)
        ensures
            r == self.opposite_spec(),
    {
        match self {
            PieceColour::White => PieceColour::Black,
            PieceColour::Black => PieceColour::White,
        }
    }
}

impl PieceType {
    /// Whether this kind is the King.
    pub fn is_king(&self) -> (r: bool)
        ensures
            r == (*self == PieceType::King),
    {
        match self {
            PieceType::King => true,
            _ => false,
        }
    }
}

impl Piece {
    /// A piece of the given colour and kind.
    pub fn new(colour: PieceColour, piece_type: PieceType) -> (r: Piece)
        ensures
            r == (Piece { colour, piece_type }),
    {
        Piece { colour, piece_type }
    }
}

impl Square {
    /// The square at file `x`, rank `y`.
    pub fn new(x: usize, y: usize) -> (r: Square)
        ensures
            r == (Square { x, y }),
    {
        Square { x, y }
    }
}

/// Whether the integer coordinates name a square on the 8x8 board.
pub open spec fn in_bounds(x: int, y: int) -> bool {
    0 <= x < 8 && 0 <= y < 8
}

} // verus!
