//! The moves of the game.
use vstd::prelude::*;
use crate::pieces::Piece;
use crate::square::Square;
use crate::text::push_char;

verus! {

/// One ply: a move of a piece, a promotion, an en-passant capture, one of
/// the four castlings, or a pass.
#[derive(Clone, Copy, Debug, PartialEq, Eq, Structural)]
pub enum Move {
    NormalMove { origin: Square, dest: Square, piece: Piece },
    CastleKingSideWhite,
    CastleQueenSideWhite,
    CastleKingSideBlack,
    CastleQueenSideBlack,
    Promotion { origin: Square, dest: Square, piece: Piece },
    EnPassant { origin: Square, dest: Square, capture: Square },
    NullMove,
}

impl Move {
    /// The move of `piece` from `origin` to `dest`.
    pub fn new(piece: Piece, origin: Square, dest: Square) -> (res: Move)
        ensures
            res == (Move::NormalMove { origin, dest, piece }),
    {
        Move::NormalMove { origin, dest, piece }
    }

    /// The move of a pawn from `origin` to `dest` on the last rank, where
    /// it becomes `piece`.
    pub fn promote(origin: Square, dest: Square, piece: Piece) -> (res: Move)
        ensures
            res == (Move::Promotion { origin, dest, piece }),
    {
        Move::Promotion { origin, dest, piece }
    }

    /// The capture by a pawn that moves from `origin` to `dest` of the
    /// pawn on `capture`.
    pub fn en_passant(origin: Square, dest: Square, capture: Square) -> (res: Move)
        ensures
            res == (Move::EnPassant { origin, dest, capture }),
    {
        Move::EnPassant { origin, dest, capture }
    }

    /// The move in the notation of origin and destination: the names of
    /// the two squares, then the letter of the piece of a promotion. The
    /// castlings are written as the moves of their kings, and a pass as
    /// `(none)`.
    pub open spec fn notation(self) -> Seq<char> {
        match self {
            Move::NormalMove { origin, dest, piece } => origin.name() + dest.name(),
            Move::EnPassant { origin, dest, capture } => origin.name() + dest.name(),
            Move::CastleKingSideWhite => seq!['e', '1', 'g', '1'],
            Move::CastleQueenSideWhite => seq!['e', '1', 'c', '1'],
            Move::CastleKingSideBlack => seq!['e', '8', 'g', '8'],
            Move::CastleQueenSideBlack => seq!['e', '8', 'c', '8'],
            Move::Promotion { origin, dest, piece } => (origin.name() + dest.name()).push(
                piece.spec_letter(),
            ),
            Move::NullMove => seq!['(', 'n', 'o', 'n', 'e', ')'],
        }
    }

    /// The move in the notation of origin and destination.
    pub fn to_string(&self) -> (res: String)
        ensures
            res@ == self.notation(),
    {
        let mut s = String::new();
        match *self {
            Move::NormalMove { origin, dest, piece } => {
                s = origin.to_string();
                push_char(&mut s, (97 + dest.file()) as char);
                push_char(&mut s, (49 + dest.rank()) as char);
            },
            Move::EnPassant { origin, dest, capture } => {
                s = origin.to_string();
                push_char(&mut s, (97 + dest.file()) as char);
                push_char(&mut s, (49 + dest.rank()) as char);
            },
            Move::CastleKingSideWhite => {
                push_char(&mut s, 'e');
                push_char(&mut s, '1');
                push_char(&mut s, 'g');
                push_char(&mut s, '1');
            },
            Move::CastleQueenSideWhite => {
                push_char(&mut s, 'e');
                push_char(&mut s, '1');
                push_char(&mut s, 'c');
                push_char(&mut s, '1');
            },
            Move::CastleKingSideBlack => {
                push_char(&mut s, 'e');
                push_char(&mut s, '8');
                push_char(&mut s, 'g');
                push_char(&mut s, '8');
            },
            Move::CastleQueenSideBlack => {
                push_char(&mut s, 'e');
                push_char(&mut s, '8');
                push_char(&mut s, 'c');
                push_char(&mut s, '8');
            },
            Move::Promotion { origin, dest, piece } => {
                s = origin.to_string();
                push_char(&mut s, (97 + dest.file()) as char);
                push_char(&mut s, (49 + dest.rank()) as char);
                push_char(&mut s, piece.letter());
            },
            Move::NullMove => {
                push_char(&mut s, '(');
                push_char(&mut s, 'n');
                push_char(&mut s, 'o');
                push_char(&mut s, 'n');
                push_char(&mut s, 'e');
                push_char(&mut s, ')');
            },
        }
        proof {
            assert(s@ =~= self.notation());
        }
        s
    }

    /// Whether the squares that the move names are on the board, and the
    /// piece of a promotion is one that a pawn can become.
    pub open spec fn wf(self) -> bool {
        match self {
            Move::NormalMove { origin, dest, piece } => origin.valid() && dest.valid(),
            Move::Promotion { origin, dest, piece } => origin.valid() && dest.valid() && piece
                != Piece::KING,
            Move::EnPassant { origin, dest, capture } => origin.valid() && dest.valid()
                && capture.valid(),
            _ => true,
        }
    }
}

} // verus!
