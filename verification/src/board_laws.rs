//! What the moves of the game make of a consistent position.
use vstd::prelude::*;
use crate::bits::bit;
use crate::bits::lemma_bit_ops;
use crate::bits::lemma_castle_bits;
use crate::bits::lemma_castle_words;
use crate::bits::lemma_corner_bits;
use crate::bits::lemma_rank_file_masks;
use crate::bits::lemma_single_bit;
use crate::board::square_bit;
use crate::board::Board;
use crate::moves::Move;
use crate::pieces::Color;
use crate::pieces::Piece;
use crate::square::Square;

verus! {

/// The squares that castling touches: where the king and the rook of
/// colour `c` stand before it and after it.
pub struct Castling {
    pub color: Color,
    pub king_from: Square,
    pub king_to: Square,
    pub rook_to: Square,
    pub rook_from: Square,
}

/// The squares of the castling `m`, if it is one.
pub open spec fn castling_of(m: Move) -> Option<Castling> {
    match m {
        Move::CastleKingSideWhite => Some(
            Castling {
                color: Color::WHITE,
                king_from: Square(4),
                king_to: Square(6),
                rook_to: Square(5),
                rook_from: Square(7),
            },
        ),
        Move::CastleQueenSideWhite => Some(
            Castling {
                color: Color::WHITE,
                king_from: Square(4),
                king_to: Square(2),
                rook_to: Square(3),
                rook_from: Square(0),
            },
        ),
        Move::CastleKingSideBlack => Some(
            Castling {
                color: Color::BLACK,
                king_from: Square(60),
                king_to: Square(62),
                rook_to: Square(61),
                rook_from: Square(63),
            },
        ),
        Move::CastleQueenSideBlack => Some(
            Castling {
                color: Color::BLACK,
                king_from: Square(60),
                king_to: Square(58),
                rook_to: Square(59),
                rook_from: Square(56),
            },
        ),
        _ => None,
    }
}

/// The piece on square `s` after the move `m` from the position `b`.
pub open spec fn piece_after(b: Board, m: Move, s: Square) -> Option<Piece> {
    match m {
        Move::NormalMove { origin, dest, piece } => if s == origin {
            None
        } else if s == dest {
            Some(piece)
        } else {
            b.piece_on(s)
        },
        Move::Promotion { origin, dest, piece } => if s == origin {
            None
        } else if s == dest {
            Some(piece)
        } else {
            b.piece_on(s)
        },
        Move::EnPassant { origin, dest, capture } => if s == origin || s == capture {
            None
        } else if s == dest {
            Some(Piece::PAWN)
        } else {
            b.piece_on(s)
        },
        Move::NullMove => b.piece_on(s),
        _ => {
            let c = castling_of(m).unwrap();
            if s == c.king_from || s == c.rook_from {
                None
            } else if s == c.king_to {
                Some(Piece::KING)
            } else if s == c.rook_to {
                Some(Piece::ROOK)
            } else {
                b.piece_on(s)
            }
        },
    }
}

/// The colour on square `s` after the move `m` from the position `b`.
pub open spec fn color_after(b: Board, m: Move, s: Square) -> Option<Color> {
    let us = b.side_to_play;
    match m {
        Move::NormalMove { origin, dest, piece } => if s == origin {
            None
        } else if s == dest {
            Some(us)
        } else {
            b.color_on(s)
        },
        Move::Promotion { origin, dest, piece } => if s == origin {
            None
        } else if s == dest {
            Some(us)
        } else {
            b.color_on(s)
        },
        Move::EnPassant { origin, dest, capture } => if s == origin || s == capture {
            None
        } else if s == dest {
            Some(us)
        } else {
            b.color_on(s)
        },
        Move::NullMove => b.color_on(s),
        _ => {
            let c = castling_of(m).unwrap();
            if s == c.king_from || s == c.rook_from {
                None
            } else if s == c.king_to || s == c.rook_to {
                Some(us)
            } else {
                b.color_on(s)
            }
        },
    }
}

/// Whether the move `m` moves a piece from or to the square `s`, or takes
/// one there.
pub open spec fn touches(m: Move, s: Square) -> bool {
    match m {
        Move::NormalMove { origin, dest, piece } => s == origin || s == dest,
        Move::Promotion { origin, dest, piece } => s == origin || s == dest,
        Move::EnPassant { origin, dest, capture } => false,
        Move::NullMove => false,
        _ => {
            let c = castling_of(m).unwrap();
            s == c.king_from || s == c.rook_from
        },
    }
}

/// Whether the move `m` moves the king of colour `c`.
pub open spec fn moves_king(b: Board, m: Move, c: Color) -> bool {
    b.side_to_play == c && match m {
        Move::NormalMove { origin, dest, piece } => piece == Piece::KING,
        Move::Promotion { origin, dest, piece } => false,
        Move::EnPassant { origin, dest, capture } => false,
        Move::NullMove => false,
        _ => true,
    }
}

/// The en-passant square after the move `m`: the square that a pawn
/// passes in a double step.
pub open spec fn en_passant_after(b: Board, m: Move) -> Option<Square> {
    match m {
        Move::NormalMove { origin, dest, piece } => if piece == Piece::PAWN && dest.spec_rank()
            == origin.spec_rank() + 2 {
            Some(Square((origin.0 + 8) as u8))
        } else if piece == Piece::PAWN && dest.spec_rank() + 2 == origin.spec_rank() {
            Some(Square((origin.0 - 8) as u8))
        } else {
            None
        },
        _ => None,
    }
}

/// Whether `b2` is the position that the move `m` makes of `b`, said
/// square by square: each square holds what `piece_after` and
/// `color_after` give, the kings stand where they moved to, the turn has
/// passed, a castling right is kept unless its king moved or the corner
/// of its rook was touched, and the en-passant square is as
/// `en_passant_after` gives it. The position is consistent as `b` was.
pub open spec fn follows(b: Board, b2: Board, m: Move) -> bool {
    &&& b2.consistent()
    &&& b2.castling_consistent()
    &&& b2.side_to_play == b.side_to_play.opposite()
    &&& b2.en_passant == en_passant_after(b, m)
    &&& forall|s: Square| s.valid() ==> #[trigger] b2.piece_on(s) == piece_after(b, m, s)
    &&& forall|s: Square| s.valid() ==> #[trigger] b2.color_on(s) == color_after(b, m, s)
    &&& b2.can_castle_king_side[0] == (b.can_castle_king_side[0] && !touches(m, Square(7))
        && !moves_king(b, m, Color::WHITE))
    &&& b2.can_castle_king_side[1] == (b.can_castle_king_side[1] && !touches(m, Square(63))
        && !moves_king(b, m, Color::BLACK))
    &&& b2.can_castle_queen_side[0] == (b.can_castle_queen_side[0] && !touches(m, Square(0))
        && !moves_king(b, m, Color::WHITE))
    &&& b2.can_castle_queen_side[1] == (b.can_castle_queen_side[1] && !touches(m, Square(56))
        && !moves_king(b, m, Color::BLACK))
}

/// What a fitting move of a piece makes of a consistent position: the
/// piece leaves its origin and stands on its destination, every other
/// square keeps what it has, and the position stays consistent.
#[verifier::spinoff_prover]
#[verifier::rlimit(80)]
pub proof fn lemma_normal_move(b: Board, origin: Square, dest: Square, piece: Piece)
    requires
        b.consistent(),
        b.castling_consistent(),
        b.fits(Move::NormalMove { origin, dest, piece }),
    ensures
        follows(
            b,
            b.apply(Move::NormalMove { origin, dest, piece }),
            Move::NormalMove { origin, dest, piece },
        ),
{
    let m = Move::NormalMove { origin, dest, piece };
    let b2 = b.apply(m);
    let b0 = Board { en_passant: None, ..b };
    let us = b.side_to_play;
    let them = us.opposite();
    lemma_bit_ops();
    lemma_single_bit();
    b0.lemma_piece_at_square(dest);
    assert(b0.piece_on(dest) == b.piece_on(dest));
    assert forall|s: Square| s.valid() implies b2.has_color(us, s) == (if s == origin {
        false
    } else if s == dest {
        true
    } else {
        b.has_color(us, s)
    }) by {
    }
    assert(b.has_any_type(dest) == b.piece_on(dest).is_some());
    assert(b.has_any_type(dest) == (b.has_color(Color::WHITE, dest) || b.has_color(
        Color::BLACK,
        dest,
    )));
    assert(b.has_color(them, dest) == b.piece_on(dest).is_some());
    assert(b.piece_on(dest) != Some(Piece::KING));
    assert forall|s: Square| s.valid() implies b2.has_color(them, s) == (if s == dest {
        false
    } else {
        b.has_color(them, s)
    }) by {
        match b.piece_on(dest) {
            None => {},
            Some(taken) => {},
        }
    }
    let o = square_bit(origin);
    let d = square_bit(dest);
    let both = o | d;
    let taken = b.piece_on(dest);
    let s1 = b0.with_color(us, b0.color_bits(us) ^ both);
    b0.lemma_with_color(us, b0.color_bits(us) ^ both);
    let s2 = match taken {
        None => s1.with_count(crate::board::next_count(b0.half_move_counter)),
        Some(t) => s1.with_color(them, s1.color_bits(them) ^ d).with_type(
            t,
            s1.type_bits(t) ^ d,
        ).with_count(0),
    };
    match taken {
        None => {},
        Some(t) => {
            s1.lemma_with_color(them, s1.color_bits(them) ^ d);
            s1.with_color(them, s1.color_bits(them) ^ d).lemma_with_type(t, s1.type_bits(t) ^ d);
        },
    }
    let s3 = s2.spec_update_castling_rights(both);
    assert forall|q: Piece| q != Piece::KING implies #[trigger] s3.type_bits(q) == (if Some(q)
        == taken {
        b.type_bits(q) ^ d
    } else {
        b.type_bits(q)
    }) by {
    }
    if piece != Piece::KING {
        s3.lemma_with_type(piece, s3.type_bits(piece) ^ both);
    }
    assert forall|q: Piece| q != Piece::KING implies #[trigger] b2.type_bits(q) == (if q == piece {
        s3.type_bits(q) ^ both
    } else {
        s3.type_bits(q)
    }) by {
    }
    assert forall|s: Square, q: Piece| s.valid() && q != Piece::KING implies #[trigger] b2.has_type(
        q,
        s,
    ) == (if s == origin {
        false
    } else if s == dest {
        q == piece
    } else {
        b.has_type(q, s)
    }) by {
        assert(b.has_any_type(origin) == b.has_any_type(origin));
        assert(b.has_type(q, s) == bit(b.type_bits(q), s.0 as u64));
        if b.has_type(q, origin) {
            assert(b.has_any_type(origin));
            assert(piece != Piece::KING);
            assert(b.has_type(piece, origin));
            assert(q == piece);
        }
        if s == dest && Some(q) != taken {
            if b.has_type(q, dest) {
                assert(b.has_any_type(dest));
                assert(taken is Some);
                assert(b.has_type(taken.unwrap(), dest));
            }
        }
    }
    assert forall|s: Square| s.valid() implies #[trigger] b2.has_any_type(s) == (if s == origin {
        false
    } else if s == dest {
        piece != Piece::KING
    } else {
        b.has_any_type(s)
    }) by {
        assert(b2.has_type(Piece::PAWN, s) == b2.has_type(Piece::PAWN, s));
        assert(b2.has_type(Piece::KNIGHT, s) == b2.has_type(Piece::KNIGHT, s));
        assert(b2.has_type(Piece::BISHOP, s) == b2.has_type(Piece::BISHOP, s));
        assert(b2.has_type(Piece::ROOK, s) == b2.has_type(Piece::ROOK, s));
        assert(b2.has_type(Piece::QUEEN, s) == b2.has_type(Piece::QUEEN, s));
    }
    assert(b2.king_pos[us.idx()] == (if piece == Piece::KING {
        dest
    } else {
        b.king_pos[us.idx()]
    }));
    assert(b2.king_pos[them.idx()] == b.king_pos[them.idx()]);
    assert(piece == Piece::KING ==> origin == b.king_pos[us.idx()]);
    lemma_rank_file_masks();
    assert(b2.wf());
    lemma_corner_bits();
    assert(b2.consistent());
    assert forall|s: Square| s.valid() implies #[trigger] b2.piece_on(s) == piece_after(b, m, s) by {
        assert(b2.has_any_type(s) == b2.has_any_type(s));
    }
    assert forall|s: Square| s.valid() implies #[trigger] b2.color_on(s) == color_after(b, m, s) by {
    }
    assert(b2.en_passant == en_passant_after(b, m));
    assert(b2.piece_on(Square(7)) == piece_after(b, m, Square(7)));
    assert(b2.piece_on(Square(0)) == piece_after(b, m, Square(0)));
    assert(b2.piece_on(Square(63)) == piece_after(b, m, Square(63)));
    assert(b2.piece_on(Square(56)) == piece_after(b, m, Square(56)));
    assert(b2.color_on(Square(7)) == color_after(b, m, Square(7)));
    assert(b2.color_on(Square(0)) == color_after(b, m, Square(0)));
    assert(b2.color_on(Square(63)) == color_after(b, m, Square(63)));
    assert(b2.color_on(Square(56)) == color_after(b, m, Square(56)));
}

/// What a fitting promotion makes of a consistent position.
#[verifier::spinoff_prover]
#[verifier::rlimit(80)]
pub proof fn lemma_promotion(b: Board, origin: Square, dest: Square, piece: Piece)
    requires
        b.consistent(),
        b.castling_consistent(),
        b.fits(Move::Promotion { origin, dest, piece }),
    ensures
        follows(
            b,
            b.apply(Move::Promotion { origin, dest, piece }),
            Move::Promotion { origin, dest, piece },
        ),
{
    let m = Move::Promotion { origin, dest, piece };
    let b2 = b.apply(m);
    let b0 = Board { en_passant: None, ..b };
    let us = b.side_to_play;
    let them = us.opposite();
    lemma_bit_ops();
    lemma_single_bit();
    lemma_corner_bits();
    let o = square_bit(origin);
    let d = square_bit(dest);
    let s1 = b0.with_color(us, b0.color_bits(us) ^ (o | d));
    b0.lemma_with_color(us, b0.color_bits(us) ^ (o | d));
    let s2 = s1.with_color(them, s1.color_bits(them) & !d);
    s1.lemma_with_color(them, s1.color_bits(them) & !d);
    let t = b0.piece_of_type;
    let s3 = Board {
        piece_of_type: [
            crate::bitboard::BitBoard(t[0].0 ^ o),
            crate::bitboard::BitBoard(t[1].0 & !d),
            crate::bitboard::BitBoard(t[2].0 & !d),
            crate::bitboard::BitBoard(t[3].0 & !d),
            crate::bitboard::BitBoard(t[4].0 & !d),
        ],
        ..s2
    };
    s3.lemma_with_type(piece, s3.type_bits(piece) | d);
    assert(origin != dest);
    assert(b.has_any_type(origin));
    assert forall|s: Square| s.valid() implies b2.has_color(us, s) == (if s == origin {
        false
    } else if s == dest {
        true
    } else {
        b.has_color(us, s)
    }) by {
    }
    assert forall|s: Square| s.valid() implies b2.has_color(them, s) == (if s == dest {
        false
    } else {
        b.has_color(them, s)
    }) by {
    }
    assert forall|s: Square, q: Piece| s.valid() && q != Piece::KING implies #[trigger] b2.has_type(
        q,
        s,
    ) == (if s == origin {
        false
    } else if s == dest {
        q == piece
    } else {
        b.has_type(q, s)
    }) by {
        assert(b.has_type(q, s) == bit(b.type_bits(q), s.0 as u64));
        if b.has_type(q, origin) {
            assert(b.has_type(Piece::PAWN, origin));
            assert(q == Piece::PAWN);
        }
    }
    assert forall|s: Square| s.valid() implies #[trigger] b2.has_any_type(s) == (if s == origin {
        false
    } else if s == dest {
        true
    } else {
        b.has_any_type(s)
    }) by {
        assert(b2.has_type(Piece::PAWN, s) == b2.has_type(Piece::PAWN, s));
        assert(b2.has_type(Piece::KNIGHT, s) == b2.has_type(Piece::KNIGHT, s));
        assert(b2.has_type(Piece::BISHOP, s) == b2.has_type(Piece::BISHOP, s));
        assert(b2.has_type(Piece::ROOK, s) == b2.has_type(Piece::ROOK, s));
        assert(b2.has_type(Piece::QUEEN, s) == b2.has_type(Piece::QUEEN, s));
    }
    assert(b2.king_pos == b.king_pos);
    assert(b2.consistent());
    assert forall|s: Square| s.valid() implies #[trigger] b2.piece_on(s) == piece_after(b, m, s) by {
        assert(b2.has_any_type(s) == b2.has_any_type(s));
    }
    assert forall|s: Square| s.valid() implies #[trigger] b2.color_on(s) == color_after(b, m, s) by {
    }
    assert(b2.piece_on(Square(7)) == piece_after(b, m, Square(7)));
    assert(b2.piece_on(Square(0)) == piece_after(b, m, Square(0)));
    assert(b2.piece_on(Square(63)) == piece_after(b, m, Square(63)));
    assert(b2.piece_on(Square(56)) == piece_after(b, m, Square(56)));
    assert(b2.color_on(Square(7)) == color_after(b, m, Square(7)));
    assert(b2.color_on(Square(0)) == color_after(b, m, Square(0)));
    assert(b2.color_on(Square(63)) == color_after(b, m, Square(63)));
    assert(b2.color_on(Square(56)) == color_after(b, m, Square(56)));
}

/// What a fitting en-passant capture makes of a consistent position.
#[verifier::spinoff_prover]
#[verifier::rlimit(80)]
pub proof fn lemma_en_passant(b: Board, origin: Square, dest: Square, capture: Square)
    requires
        b.consistent(),
        b.castling_consistent(),
        b.fits(Move::EnPassant { origin, dest, capture }),
    ensures
        follows(
            b,
            b.apply(Move::EnPassant { origin, dest, capture }),
            Move::EnPassant { origin, dest, capture },
        ),
{
    let m = Move::EnPassant { origin, dest, capture };
    let b2 = b.apply(m);
    let b0 = Board { en_passant: None, ..b };
    let us = b.side_to_play;
    let them = us.opposite();
    lemma_bit_ops();
    lemma_single_bit();
    let both = square_bit(origin) | square_bit(dest);
    let cap = square_bit(capture);
    let s1 = b0.with_color(us, b0.color_bits(us) ^ both);
    b0.lemma_with_color(us, b0.color_bits(us) ^ both);
    let s2 = s1.with_type(Piece::PAWN, s1.type_bits(Piece::PAWN) ^ (both | cap));
    s1.lemma_with_type(Piece::PAWN, s1.type_bits(Piece::PAWN) ^ (both | cap));
    s2.lemma_with_color(them, s2.color_bits(them) ^ cap);
    assert(b.has_any_type(origin) && b.has_any_type(capture));
    assert(b.has_any_type(dest) == b.has_any_type(dest));
    assert forall|s: Square| s.valid() implies b2.has_color(us, s) == (if s == origin {
        false
    } else if s == dest {
        true
    } else {
        b.has_color(us, s)
    }) by {
    }
    assert forall|s: Square| s.valid() implies b2.has_color(them, s) == (if s == capture {
        false
    } else {
        b.has_color(them, s)
    }) by {
    }
    assert forall|s: Square, q: Piece| s.valid() && q != Piece::KING implies #[trigger] b2.has_type(
        q,
        s,
    ) == (if s == origin || s == capture {
        false
    } else if s == dest {
        q == Piece::PAWN
    } else {
        b.has_type(q, s)
    }) by {
        assert(b.has_type(q, s) == bit(b.type_bits(q), s.0 as u64));
        if b.has_type(q, origin) {
            assert(b.has_type(Piece::PAWN, origin));
        }
        if b.has_type(q, capture) {
            assert(b.has_type(Piece::PAWN, capture));
        }
        if b.has_type(q, dest) {
            assert(b.has_any_type(dest));
        }
    }
    assert forall|s: Square| s.valid() implies #[trigger] b2.has_any_type(s) == (if s == origin || s
        == capture {
        false
    } else if s == dest {
        true
    } else {
        b.has_any_type(s)
    }) by {
        assert(b2.has_type(Piece::PAWN, s) == b2.has_type(Piece::PAWN, s));
        assert(b2.has_type(Piece::KNIGHT, s) == b2.has_type(Piece::KNIGHT, s));
        assert(b2.has_type(Piece::BISHOP, s) == b2.has_type(Piece::BISHOP, s));
        assert(b2.has_type(Piece::ROOK, s) == b2.has_type(Piece::ROOK, s));
        assert(b2.has_type(Piece::QUEEN, s) == b2.has_type(Piece::QUEEN, s));
    }
    assert(b2.king_pos == b.king_pos);
    assert(b2.consistent());
    assert forall|s: Square| s.valid() implies #[trigger] b2.piece_on(s) == piece_after(b, m, s) by {
        assert(b2.has_any_type(s) == b2.has_any_type(s));
    }
    assert forall|s: Square| s.valid() implies #[trigger] b2.color_on(s) == color_after(b, m, s) by {
    }
    assert(b2.piece_on(Square(7)) == piece_after(b, m, Square(7)));
    assert(b2.piece_on(Square(0)) == piece_after(b, m, Square(0)));
    assert(b2.piece_on(Square(63)) == piece_after(b, m, Square(63)));
    assert(b2.piece_on(Square(56)) == piece_after(b, m, Square(56)));
    assert(b2.color_on(Square(7)) == color_after(b, m, Square(7)));
    assert(b2.color_on(Square(0)) == color_after(b, m, Square(0)));
    assert(b2.color_on(Square(63)) == color_after(b, m, Square(63)));
    assert(b2.color_on(Square(56)) == color_after(b, m, Square(56)));
}

/// The sets of squares that change in castling hold the squares of the
/// king and the rook.
proof fn lemma_castle_sets(m: Move)
    requires
        castling_of(m) is Some,
    ensures
        ({
            let c = castling_of(m).unwrap();
            let (king_and_rook, rook) = castle_sets(m);
            &&& forall|i: u64|
                i < 64 ==> #[trigger] bit(king_and_rook, i) == (i == c.king_from.0 || i
                    == c.king_to.0 || i == c.rook_from.0 || i == c.rook_to.0)
            &&& forall|i: u64|
                i < 64 ==> #[trigger] bit(rook, i) == (i == c.rook_from.0 || i == c.rook_to.0)
        }),
{
    lemma_castle_bits();
}

/// The two sets of squares that `make_move` changes in castling: in the
/// set of the colour, and in the set of the rooks.
pub open spec fn castle_sets(m: Move) -> (u64, u64) {
    match m {
        Move::CastleKingSideWhite => (0xF0, 0xA0),
        Move::CastleQueenSideWhite => (0x1D, 0x09),
        Move::CastleKingSideBlack => (0xF000_0000_0000_0000, 0xA000_0000_0000_0000),
        _ => (0x1D00_0000_0000_0000, 0x0900_0000_0000_0000),
    }
}

/// What a fitting castling makes of a consistent position.
#[verifier::spinoff_prover]
#[verifier::rlimit(80)]
pub proof fn lemma_castling(b: Board, m: Move)
    requires
        b.consistent(),
        b.castling_consistent(),
        castling_of(m) is Some,
        b.fits(m),
    ensures
        follows(b, b.apply(m), m),
{
    let b2 = b.apply(m);
    let b0 = Board { en_passant: None, ..b };
    let c = castling_of(m).unwrap();
    let us = b.side_to_play;
    let them = us.opposite();
    let (king_and_rook, rook) = castle_sets(m);
    lemma_bit_ops();
    lemma_castle_sets(m);
    lemma_castle_words();
    assert(b2 == b0.spec_castle(c.color, c.king_to, king_and_rook, rook).flipped());
    let s1 = b0.with_king(c.color, c.king_to).with_color(
        c.color,
        b0.color_bits(c.color) ^ king_and_rook,
    );
    b0.with_king(c.color, c.king_to).lemma_with_color(
        c.color,
        b0.color_bits(c.color) ^ king_and_rook,
    );
    s1.lemma_with_type(Piece::ROOK, s1.type_bits(Piece::ROOK) ^ rook);
    assert(b.has_any_type(c.rook_from));
    assert(b.has_any_type(c.rook_to) == b.has_any_type(c.rook_to));
    assert(b.has_any_type(c.king_to) == b.has_any_type(c.king_to));
    assert forall|s: Square| s.valid() implies b2.has_color(us, s) == (if s == c.king_from || s
        == c.rook_from {
        false
    } else if s == c.king_to || s == c.rook_to {
        true
    } else {
        b.has_color(us, s)
    }) by {
    }
    assert forall|s: Square| s.valid() implies b2.has_color(them, s) == b.has_color(them, s) by {
    }
    assert forall|s: Square, q: Piece| s.valid() && q != Piece::KING implies #[trigger] b2.has_type(
        q,
        s,
    ) == (if s == c.rook_from {
        false
    } else if s == c.rook_to {
        q == Piece::ROOK
    } else {
        b.has_type(q, s)
    }) by {
        assert(b.has_type(q, s) == bit(b.type_bits(q), s.0 as u64));
        if b.has_type(q, c.rook_from) {
            assert(b.has_type(Piece::ROOK, c.rook_from));
        }
        if b.has_type(q, c.rook_to) {
            assert(b.has_any_type(c.rook_to));
        }
    }
    assert forall|s: Square| s.valid() implies #[trigger] b2.has_any_type(s) == (if s
        == c.rook_from {
        false
    } else if s == c.rook_to {
        true
    } else {
        b.has_any_type(s)
    }) by {
        assert(b2.has_type(Piece::PAWN, s) == b2.has_type(Piece::PAWN, s));
        assert(b2.has_type(Piece::KNIGHT, s) == b2.has_type(Piece::KNIGHT, s));
        assert(b2.has_type(Piece::BISHOP, s) == b2.has_type(Piece::BISHOP, s));
        assert(b2.has_type(Piece::ROOK, s) == b2.has_type(Piece::ROOK, s));
        assert(b2.has_type(Piece::QUEEN, s) == b2.has_type(Piece::QUEEN, s));
    }
    assert(b2.king_pos[us.idx()] == c.king_to);
    assert(b2.king_pos[them.idx()] == b.king_pos[them.idx()]);
    assert(b2.consistent());
    assert(b.has_color(them, b.king_pos[them.idx()]));
    assert(b.king_pos[them.idx()] != c.king_to && b.king_pos[them.idx()] != c.rook_to);
    assert(b.king_pos[them.idx()] != c.king_from && b.king_pos[them.idx()] != c.rook_from);
    assert forall|s: Square| s.valid() implies #[trigger] b2.piece_on(s) == piece_after(b, m, s) by {
        assert(b2.has_any_type(s) == b2.has_any_type(s));
        assert(b.has_any_type(s) == b.has_any_type(s));
        if s == c.king_from {
            assert(!b.has_any_type(s));
            assert(b2.piece_on(s) is None);
        } else if s == c.rook_from {
            assert(b2.piece_on(s) is None);
        } else if s == c.king_to {
            assert(b2.piece_on(s) == Some(Piece::KING));
        } else if s == c.rook_to {
            assert(b2.has_type(Piece::ROOK, s));
            assert(!b2.has_type(Piece::PAWN, s));
            assert(!b2.has_type(Piece::KNIGHT, s));
            assert(!b2.has_type(Piece::BISHOP, s));
            assert(b2.piece_on(s) == Some(Piece::ROOK));
        } else {
            assert(b2.has_type(Piece::PAWN, s) == b.has_type(Piece::PAWN, s));
            assert(b2.has_type(Piece::KNIGHT, s) == b.has_type(Piece::KNIGHT, s));
            assert(b2.has_type(Piece::BISHOP, s) == b.has_type(Piece::BISHOP, s));
            assert(b2.has_type(Piece::ROOK, s) == b.has_type(Piece::ROOK, s));
            assert(b2.has_type(Piece::QUEEN, s) == b.has_type(Piece::QUEEN, s));
            assert(b2.piece_on(s) == b.piece_on(s));
        }
    }
    assert forall|s: Square| s.valid() implies #[trigger] b2.color_on(s) == color_after(b, m, s) by {
    }
    assert(b2.piece_on(Square(7)) == piece_after(b, m, Square(7)));
    assert(b2.piece_on(Square(0)) == piece_after(b, m, Square(0)));
    assert(b2.piece_on(Square(63)) == piece_after(b, m, Square(63)));
    assert(b2.piece_on(Square(56)) == piece_after(b, m, Square(56)));
    assert(b2.color_on(Square(7)) == color_after(b, m, Square(7)));
    assert(b2.color_on(Square(0)) == color_after(b, m, Square(0)));
    assert(b2.color_on(Square(63)) == color_after(b, m, Square(63)));
    assert(b2.color_on(Square(56)) == color_after(b, m, Square(56)));
}

/// What any fitting move makes of a consistent position.
pub proof fn lemma_apply_follows(b: Board, m: Move)
    requires
        b.consistent(),
        b.castling_consistent(),
        b.fits(m),
    ensures
        follows(b, b.apply(m), m),
{
    match m {
        Move::NormalMove { origin, dest, piece } => lemma_normal_move(b, origin, dest, piece),
        Move::Promotion { origin, dest, piece } => lemma_promotion(b, origin, dest, piece),
        Move::EnPassant { origin, dest, capture } => lemma_en_passant(b, origin, dest, capture),
        Move::NullMove => {},
        _ => lemma_castling(b, m),
    }
}

} // verus!
