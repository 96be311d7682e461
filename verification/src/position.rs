use vstd::prelude::*;

verus! {

/// Side color.
#[derive(Clone, Copy, PartialEq, Eq, Debug, Hash, Structural)]
pub enum Color {
    White,
    Black,
}

/// Piece type.
#[derive(Clone, Copy, PartialEq, Eq, Debug, Hash, Structural)]
pub enum Role {
    Pawn,
    Knight,
    Bishop,
    Rook,
    Queen,
    King,
}

/// A colored piece.
#[derive(Clone, Copy, PartialEq, Eq, Debug, Hash, Structural)]
pub struct Piece {
    pub color: Color,
    pub role: Role,
}

/// Asserted castling rights, a subset of {W-kingside, W-queenside,
/// B-kingside, B-queenside}.
#[derive(Clone, Copy, PartialEq, Eq, Debug, Hash, Structural)]
pub struct CastlingRights {
    pub white_kingside: bool,
    pub white_queenside: bool,
    pub black_kingside: bool,
    pub black_queenside: bool,
}

/// A chess position as the family layer reads it.
///
/// `board` has 64 entries indexed by square, `a1 = 0`, `b1 = 1`, ..., `h8 = 63`
/// (file = square % 8, rank = square / 8). `ep_square` is the en-passant
/// target square when an en-passant capture is recorded as available.
#[derive(Clone, Debug)]
pub struct Position {
    pub board: Vec<Option<Piece>>,
    pub turn: Color,
    pub castling: CastlingRights,
    pub ep_square: Option<u8>,
}

impl Position {
    pub open spec fn well_formed(&self) -> bool {
        self.board@.len() == 64
    }
}

pub open spec fn other(c: Color) -> Color {
    match c {
        Color::White => Color::Black,
        Color::Black => Color::White,
    }
}

pub fn other_color(c: Color) -> (o: Color)
    ensures
        o == other(c),
{
    match c {
        Color::White => Color::Black,
        Color::Black => Color::White,
    }
}

} // verus!
