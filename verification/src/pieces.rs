//! Piece types, colours and the eight directions of the board.
use vstd::prelude::*;

verus! {

pub const UP: i8 = 8;

pub const DOWN: i8 = -8;

pub const LEFT: i8 = -1;

pub const RIGHT: i8 = 1;

pub const UP_LEFT: i8 = 7;

pub const DOWN_LEFT: i8 = -9;

pub const UP_RIGHT: i8 = 9;

pub const DOWN_RIGHT: i8 = -7;

#[derive(Eq, PartialEq, Debug, Clone, Copy, Structural)]
pub enum Piece {
    PAWN,
    KNIGHT,
    BISHOP,
    ROOK,
    QUEEN,
    KING,
}

impl Piece {
    /// The position of the piece type in the order pawn, knight, bishop,
    /// rook, queen, king.
    pub open spec fn idx(self) -> int {
        match self {
            Piece::PAWN => 0,
            Piece::KNIGHT => 1,
            Piece::BISHOP => 2,
            Piece::ROOK => 3,
            Piece::QUEEN => 4,
            Piece::KING => 5,
        }
    }

    /// The piece type at position `value` of that order.
    pub fn from(value: u8) -> (res: Piece)
        requires
            value <= 5,
        ensures
            res.idx() == value,
    {
        match value {
            0 => Piece::PAWN,
            1 => Piece::KNIGHT,
            2 => Piece::BISHOP,
            3 => Piece::ROOK,
            4 => Piece::QUEEN,
            _ => Piece::KING,
        }
    }

    pub fn index(self) -> (res: usize)
        ensures
            res == self.idx(),
    {
        match self {
            Piece::PAWN => 0,
            Piece::KNIGHT => 1,
            Piece::BISHOP => 2,
            Piece::ROOK => 3,
            Piece::QUEEN => 4,
            Piece::KING => 5,
        }
    }

    /// The lower-case letter of the piece type.
    pub fn letter(self) -> (res: char)
        ensures
            res == self.spec_letter(),
    {
        match self {
            Piece::PAWN => 'p',
            Piece::KNIGHT => 'n',
            Piece::BISHOP => 'b',
            Piece::ROOK => 'r',
            Piece::QUEEN => 'q',
            Piece::KING => 'k',
        }
    }

    pub open spec fn spec_letter(self) -> char {
        match self {
            Piece::PAWN => 'p',
            Piece::KNIGHT => 'n',
            Piece::BISHOP => 'b',
            Piece::ROOK => 'r',
            Piece::QUEEN => 'q',
            Piece::KING => 'k',
        }
    }
}

#[derive(Eq, PartialEq, Debug, Clone, Copy, Structural)]
pub enum Color {
    WHITE,
    BLACK,
}

impl Color {
    /// 0 for white, 1 for black.
    pub open spec fn idx(self) -> int {
        match self {
            Color::WHITE => 0,
            Color::BLACK => 1,
        }
    }

    pub open spec fn spec_opposite(self) -> Color {
        match self {
            Color::WHITE => Color::BLACK,
            Color::BLACK => Color::WHITE,
        }
    }

    /// The other colour.
    #[verifier::when_used_as_spec(spec_opposite)]
    pub fn opposite(self) -> (res: Color)
        ensures
            res == self.spec_opposite(),
            res != self,
    {
        match self {
            Color::WHITE => Color::BLACK,
            Color::BLACK => Color::WHITE,
        }
    }

    pub fn index(self) -> (res: i8)
        ensures
            res == self.idx(),
    {
        match self {
            Color::WHITE => 0,
            Color::BLACK => 1,
        }
    }

    /// The index as a position in a two-element table.
    pub fn slot(self) -> (res: usize)
        ensures
            res == self.idx(),
    {
        match self {
            Color::WHITE => 0,
            Color::BLACK => 1,
        }
    }

    pub open spec fn spec_fwd_dir(self) -> i8 {
        match self {
            Color::WHITE => UP,
            Color::BLACK => DOWN,
        }
    }

    /// The direction in which the pawns of this colour advance.
    #[verifier::when_used_as_spec(spec_fwd_dir)]
    pub fn fwd_dir(self) -> (res: i8)
        ensures
            res == self.spec_fwd_dir(),
    {
        match self {
            Color::WHITE => UP,
            Color::BLACK => DOWN,
        }
    }
}

} // verus!
