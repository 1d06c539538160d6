//! What putting, taking and moving a piece does to each square, and that
//! the sets of a position fit together afterwards.
use vstd::prelude::*;
use crate::bitboard::BitBoard;
use crate::bits::lemma_bit_ops;
use crate::bits::lemma_single_bit;
use crate::board::square_bit;
use crate::board::Board;
use crate::pieces::Color;
use crate::pieces::Piece;
use crate::square::Square;

verus! {

/// Taking everything off the square `sq` but a king empties the sets there
/// and leaves the other squares as they are.
pub proof fn lemma_taken_off(b: Board, sq: Square)
    requires
        sq.valid(),
    ensures
        ({
            let c = b.spec_remove_piece_fast(BitBoard(!square_bit(sq)));
            &&& c.king_pos == b.king_pos
            &&& c.en_passant == b.en_passant
            &&& forall|s: Square, x: Color|
                s.valid() ==> #[trigger] c.has_color(x, s) == (b.has_color(x, s) && s != sq)
            &&& forall|s: Square, q: Piece|
                s.valid() && q != Piece::KING ==> #[trigger] c.has_type(q, s) == (b.has_type(q, s)
                    && s != sq)
            &&& forall|s: Square|
                s.valid() ==> #[trigger] c.has_any_type(s) == (b.has_any_type(s) && s != sq)
        }),
{
    lemma_bit_ops();
    lemma_single_bit();
    let c = b.spec_remove_piece_fast(BitBoard(!square_bit(sq)));
    assert forall|s: Square, x: Color| s.valid() implies #[trigger] c.has_color(x, s) == (
    b.has_color(x, s) && s != sq) by {}
    assert forall|s: Square, q: Piece| s.valid() && q != Piece::KING implies #[trigger] c.has_type(
        q,
        s,
    ) == (b.has_type(q, s) && s != sq) by {}
    assert forall|s: Square| s.valid() implies #[trigger] c.has_any_type(s) == (b.has_any_type(s)
        && s != sq) by {
        assert(c.has_type(Piece::PAWN, s) == (b.has_type(Piece::PAWN, s) && s != sq));
        assert(c.has_type(Piece::KNIGHT, s) == (b.has_type(Piece::KNIGHT, s) && s != sq));
        assert(c.has_type(Piece::BISHOP, s) == (b.has_type(Piece::BISHOP, s) && s != sq));
        assert(c.has_type(Piece::ROOK, s) == (b.has_type(Piece::ROOK, s) && s != sq));
        assert(c.has_type(Piece::QUEEN, s) == (b.has_type(Piece::QUEEN, s) && s != sq));
    }
}

/// Putting a piece that is not a king on the square `sq` adds the square
/// to the sets of its colour and its type and leaves the rest as it is.
pub proof fn lemma_put_on(b: Board, piece: Piece, color: Color, sq: Square)
    requires
        sq.valid(),
        piece != Piece::KING,
    ensures
        ({
            let p = b.spec_put_piece_fast(piece, color, BitBoard(square_bit(sq)));
            &&& p.king_pos == b.king_pos
            &&& p.en_passant == b.en_passant
            &&& p.can_castle_king_side == b.can_castle_king_side
            &&& p.can_castle_queen_side == b.can_castle_queen_side
            &&& p.side_to_play == b.side_to_play
            &&& p.half_move_counter == b.half_move_counter
            &&& forall|s: Square, x: Color|
                s.valid() ==> #[trigger] p.has_color(x, s) == (b.has_color(x, s) || (x == color
                    && s == sq))
            &&& forall|s: Square, q: Piece|
                s.valid() && q != Piece::KING ==> #[trigger] p.has_type(q, s) == (b.has_type(q, s)
                    || (q == piece && s == sq))
            &&& forall|s: Square|
                s.valid() ==> #[trigger] p.has_any_type(s) == (b.has_any_type(s) || s == sq)
        }),
{
    lemma_bit_ops();
    lemma_single_bit();
    let colored = b.with_color(color, b.color_bits(color) | square_bit(sq));
    b.lemma_with_color(color, b.color_bits(color) | square_bit(sq));
    colored.lemma_with_type(piece, colored.type_bits(piece) | square_bit(sq));
    let p = b.spec_put_piece_fast(piece, color, BitBoard(square_bit(sq)));
    assert forall|s: Square, x: Color| s.valid() implies #[trigger] p.has_color(x, s) == (
    b.has_color(x, s) || (x == color && s == sq)) by {}
    assert forall|s: Square, q: Piece| s.valid() && q != Piece::KING implies #[trigger] p.has_type(
        q,
        s,
    ) == (b.has_type(q, s) || (q == piece && s == sq)) by {}
    assert forall|s: Square| s.valid() implies #[trigger] p.has_any_type(s) == (b.has_any_type(s)
        || s == sq) by {
        assert(p.has_type(Piece::PAWN, s) == (b.has_type(Piece::PAWN, s) || (Piece::PAWN == piece
            && s == sq)));
        assert(p.has_type(Piece::KNIGHT, s) == (b.has_type(Piece::KNIGHT, s) || (Piece::KNIGHT
            == piece && s == sq)));
        assert(p.has_type(Piece::BISHOP, s) == (b.has_type(Piece::BISHOP, s) || (Piece::BISHOP
            == piece && s == sq)));
        assert(p.has_type(Piece::ROOK, s) == (b.has_type(Piece::ROOK, s) || (Piece::ROOK == piece
            && s == sq)));
        assert(p.has_type(Piece::QUEEN, s) == (b.has_type(Piece::QUEEN, s) || (Piece::QUEEN
            == piece && s == sq)));
    }
}

/// Moving the king of a colour to the square `sq` takes the square that
/// it leaves out of the set of its colour, puts `sq` into it, and leaves
/// the rest as it is.
pub proof fn lemma_king_goes(b: Board, color: Color, sq: Square)
    requires
        sq.valid(),
        b.king_sq(color).valid(),
    ensures
        ({
            let k = b.spec_set_king_pos_fast(color, sq, BitBoard(square_bit(sq)));
            &&& k.king_sq(color) == sq
            &&& k.king_sq(color.opposite()) == b.king_sq(color.opposite())
            &&& k.en_passant == b.en_passant
            &&& forall|s: Square|
                s.valid() ==> #[trigger] k.has_color(color, s) == ((b.has_color(color, s) && s
                    != b.king_sq(color)) || s == sq)
            &&& forall|s: Square|
                s.valid() ==> #[trigger] k.has_color(color.opposite(), s) == b.has_color(
                    color.opposite(),
                    s,
                )
            &&& forall|s: Square, q: Piece|
                s.valid() && q != Piece::KING ==> #[trigger] k.has_type(q, s) == b.has_type(q, s)
            &&& forall|s: Square| s.valid() ==> #[trigger] k.has_any_type(s) == b.has_any_type(s)
        }),
{
    lemma_bit_ops();
    lemma_single_bit();
    let word = (b.color_bits(color) & !square_bit(b.king_sq(color))) | square_bit(sq);
    b.lemma_with_color(color, word);
    let k = b.spec_set_king_pos_fast(color, sq, BitBoard(square_bit(sq)));
    assert(k.piece_of_type == b.piece_of_type);
    assert forall|s: Square| s.valid() implies #[trigger] k.has_color(color, s) == ((b.has_color(
        color,
        s,
    ) && s != b.king_sq(color)) || s == sq) by {}
    assert forall|s: Square| s.valid() implies #[trigger] k.has_color(color.opposite(), s)
        == b.has_color(color.opposite(), s) by {}
    assert forall|s: Square, q: Piece| s.valid() && q != Piece::KING implies #[trigger] k.has_type(
        q,
        s,
    ) == b.has_type(q, s) by {}
    assert forall|s: Square| s.valid() implies #[trigger] k.has_any_type(s) == b.has_any_type(
        s,
    ) by {}
}

/// What holds of one square in a position whose sets fit together.
pub open spec fn square_fits(b: Board, s: Square) -> bool {
    &&& !(b.has_color(Color::WHITE, s) && b.has_color(Color::BLACK, s))
    &&& forall|p: Piece, q: Piece|
        p != q && p != Piece::KING && q != Piece::KING ==> !(#[trigger] b.has_type(p, s)
            && #[trigger] b.has_type(q, s))
    &&& b.has_any_type(s) ==> s != b.king_pos[0] && s != b.king_pos[1]
    &&& (b.has_color(Color::WHITE, s) || b.has_color(Color::BLACK, s)) == (b.has_any_type(s) || s
        == b.king_pos[0] || s == b.king_pos[1])
}

/// The sets of a position fit together exactly when its kings stand on
/// different squares of the board, each in the set of its colour, and
/// every square is in order.
pub proof fn lemma_square_by_square(b: Board)
    ensures
        b.consistent() == (b.wf() && b.king_pos[0] != b.king_pos[1] && b.has_color(
            Color::WHITE,
            b.king_pos[0],
        ) && b.has_color(Color::BLACK, b.king_pos[1]) && forall|s: Square|
            s.valid() ==> #[trigger] square_fits(b, s)),
{
    if b.consistent() {
        assert forall|s: Square| s.valid() implies #[trigger] square_fits(b, s) by {
            assert(!(b.has_color(Color::WHITE, s) && b.has_color(Color::BLACK, s)));
            assert(b.has_any_type(s) ==> s != b.king_pos[0] && s != b.king_pos[1]);
        }
    }
    if b.wf() && b.king_pos[0] != b.king_pos[1] && b.has_color(Color::WHITE, b.king_pos[0])
        && b.has_color(Color::BLACK, b.king_pos[1]) && (forall|s: Square|
        s.valid() ==> #[trigger] square_fits(b, s)) {
        assert forall|s: Square| s.valid() implies !(#[trigger] b.has_color(Color::WHITE, s)
            && b.has_color(Color::BLACK, s)) by {
            assert(square_fits(b, s));
        }
        assert forall|s: Square, p: Piece, q: Piece|
            s.valid() && p != q && p != Piece::KING && q != Piece::KING implies !(
        #[trigger] b.has_type(p, s) && #[trigger] b.has_type(q, s)) by {
            assert(square_fits(b, s));
        }
        assert forall|s: Square| s.valid() implies (#[trigger] b.has_any_type(s) ==> s
            != b.king_pos[0] && s != b.king_pos[1]) by {
            assert(square_fits(b, s));
        }
        assert forall|s: Square| s.valid() implies (b.has_color(Color::WHITE, s) || b.has_color(
            Color::BLACK,
            s,
        )) == (#[trigger] b.has_any_type(s) || s == b.king_pos[0] || s == b.king_pos[1]) by {
            assert(square_fits(b, s));
        }
    }
}

/// Putting a piece in place of what stands on a square on which no king
/// stands keeps the sets together.
pub proof fn lemma_put_keeps(b: Board, piece: Piece, color: Color, sq: Square)
    requires
        b.consistent(),
        sq.valid(),
        sq != b.king_pos[0],
        sq != b.king_pos[1],
    ensures
        b.spec_put_piece_safe(piece, color, sq).consistent(),
{
    let cleared = b.spec_remove_piece_fast(BitBoard(!square_bit(sq)));
    let b2 = b.spec_put_piece_safe(piece, color, sq);
    lemma_taken_off(b, sq);
    lemma_square_by_square(b);
    lemma_square_by_square(b2);
    assert(b.king_sq(Color::WHITE) == b.king_pos[0] && b.king_sq(Color::BLACK) == b.king_pos[1]);
    assert(cleared.king_sq(Color::WHITE) == b.king_pos[0]);
    assert(cleared.king_sq(Color::BLACK) == b.king_pos[1]);
    if piece == Piece::KING {
        lemma_king_goes(cleared, color, sq);
        assert(b2.king_sq(Color::WHITE) == b2.king_pos[0] && b2.king_sq(Color::BLACK)
            == b2.king_pos[1]);
        assert forall|s: Square| s.valid() implies #[trigger] square_fits(b2, s) by {
            assert(square_fits(b, s));
            assert(b2.has_color(color, s) == ((cleared.has_color(color, s) && s
                != cleared.king_sq(color)) || s == sq));
            assert(b2.has_color(color.opposite(), s) == cleared.has_color(color.opposite(), s));
            assert(b2.has_any_type(s) == cleared.has_any_type(s));
            assert forall|p: Piece, q: Piece|
                p != q && p != Piece::KING && q != Piece::KING implies !(#[trigger] b2.has_type(
                p,
                s,
            ) && #[trigger] b2.has_type(q, s)) by {
                assert(b2.has_type(p, s) == cleared.has_type(p, s));
                assert(b2.has_type(q, s) == cleared.has_type(q, s));
            }
        }
        assert(b2.has_color(color, sq));
        assert(b2.has_color(color.opposite(), b2.king_sq(color.opposite())));
    } else {
        lemma_put_on(cleared, piece, color, sq);
        assert forall|s: Square| s.valid() implies #[trigger] square_fits(b2, s) by {
            assert(square_fits(b, s));
            assert(b2.has_color(Color::WHITE, s) == (cleared.has_color(Color::WHITE, s) || (
            Color::WHITE == color && s == sq)));
            assert(b2.has_color(Color::BLACK, s) == (cleared.has_color(Color::BLACK, s) || (
            Color::BLACK == color && s == sq)));
            assert(b2.has_any_type(s) == (cleared.has_any_type(s) || s == sq));
            assert forall|p: Piece, q: Piece|
                p != q && p != Piece::KING && q != Piece::KING implies !(#[trigger] b2.has_type(
                p,
                s,
            ) && #[trigger] b2.has_type(q, s)) by {
                assert(b2.has_type(p, s) == (cleared.has_type(p, s) || (p == piece && s == sq)));
                assert(b2.has_type(q, s) == (cleared.has_type(q, s) || (q == piece && s == sq)));
            }
        }
        assert(b2.has_color(Color::WHITE, b2.king_pos[0]));
        assert(b2.has_color(Color::BLACK, b2.king_pos[1]));
    }
}

/// Moving a king to a square on which neither the other king nor another
/// piece stands keeps the sets together.
pub proof fn lemma_king_keeps(b: Board, color: Color, sq: Square)
    requires
        b.consistent(),
        sq.valid(),
        sq != b.king_sq(color.opposite()),
        !b.has_any_type(sq),
    ensures
        b.spec_set_king_pos_fast(color, sq, BitBoard(square_bit(sq))).consistent(),
{
    let b2 = b.spec_set_king_pos_fast(color, sq, BitBoard(square_bit(sq)));
    lemma_square_by_square(b);
    lemma_square_by_square(b2);
    assert(b.king_sq(Color::WHITE) == b.king_pos[0] && b.king_sq(Color::BLACK) == b.king_pos[1]);
    lemma_king_goes(b, color, sq);
    assert(b2.king_sq(Color::WHITE) == b2.king_pos[0] && b2.king_sq(Color::BLACK)
        == b2.king_pos[1]);
    assert(square_fits(b, sq));
    assert forall|s: Square| s.valid() implies #[trigger] square_fits(b2, s) by {
        assert(square_fits(b, s));
        assert(b2.has_color(color, s) == ((b.has_color(color, s) && s != b.king_sq(color)) || s
            == sq));
        assert(b2.has_color(color.opposite(), s) == b.has_color(color.opposite(), s));
        assert(b2.has_any_type(s) == b.has_any_type(s));
        assert forall|p: Piece, q: Piece|
            p != q && p != Piece::KING && q != Piece::KING implies !(#[trigger] b2.has_type(p, s)
            && #[trigger] b2.has_type(q, s)) by {
            assert(b2.has_type(p, s) == b.has_type(p, s));
            assert(b2.has_type(q, s) == b.has_type(q, s));
        }
    }
    assert(b2.has_color(color, sq));
    assert(b2.has_color(color.opposite(), b2.king_sq(color.opposite())));
}

/// Moving a piece of a colour to a square on which no piece of that
/// colour and no king stands, and taking what stood there off the board,
/// keeps the sets together.
pub proof fn lemma_move_keeps(b: Board, origin: Square, dest: Square, piece: Piece, color: Color)
    requires
        b.consistent(),
        origin.valid(),
        dest.valid(),
        piece == Piece::KING ==> b.king_sq(color) == origin,
        b.has_color(color, origin),
        !b.has_color(color, dest),
        dest != b.king_sq(color.opposite()),
    ensures
        b.spec_move_piece(origin, dest, piece, color).consistent(),
{
    let b2 = b.spec_move_piece(origin, dest, piece, color);
    lemma_square_by_square(b);
    lemma_square_by_square(b2);
    assert(b.king_sq(Color::WHITE) == b.king_pos[0] && b.king_sq(Color::BLACK) == b.king_pos[1]);
    assert(square_fits(b, origin));
    assert(square_fits(b, dest));
    assert(dest != b.king_sq(color));
    if b.king_sq(color) == origin {
        let cleared = b.spec_remove_piece_fast(BitBoard(!square_bit(dest)));
        lemma_taken_off(b, dest);
        assert(cleared.king_sq(color) == origin && cleared.king_sq(color.opposite()) == b.king_sq(
            color.opposite(),
        ));
        lemma_king_goes(cleared, color, dest);
        assert(b2.king_sq(Color::WHITE) == b2.king_pos[0] && b2.king_sq(Color::BLACK)
            == b2.king_pos[1]);
        assert forall|s: Square| s.valid() implies #[trigger] square_fits(b2, s) by {
            assert(square_fits(b, s));
            assert(b2.has_color(color, s) == ((cleared.has_color(color, s) && s != origin) || s
                == dest));
            assert(b2.has_color(color.opposite(), s) == cleared.has_color(color.opposite(), s));
            assert(b2.has_any_type(s) == cleared.has_any_type(s));
            assert forall|p: Piece, q: Piece|
                p != q && p != Piece::KING && q != Piece::KING implies !(#[trigger] b2.has_type(
                p,
                s,
            ) && #[trigger] b2.has_type(q, s)) by {
                assert(b2.has_type(p, s) == cleared.has_type(p, s));
                assert(b2.has_type(q, s) == cleared.has_type(q, s));
            }
        }
        assert(b2.has_color(color, dest));
        assert(b2.has_color(color.opposite(), b2.king_sq(color.opposite())));
    } else {
        let first = b.spec_remove_piece_fast(BitBoard(!square_bit(origin)));
        let cleared = first.spec_remove_piece_fast(BitBoard(!square_bit(dest)));
        lemma_taken_off(b, origin);
        lemma_taken_off(first, dest);
        lemma_put_on(cleared, piece, color, dest);
        assert(origin != b.king_sq(color.opposite()));
        assert forall|s: Square| s.valid() implies #[trigger] square_fits(b2, s) by {
            assert(square_fits(b, s));
            assert(first.has_color(Color::WHITE, s) == (b.has_color(Color::WHITE, s) && s
                != origin));
            assert(first.has_color(Color::BLACK, s) == (b.has_color(Color::BLACK, s) && s
                != origin));
            assert(cleared.has_color(Color::WHITE, s) == (first.has_color(Color::WHITE, s) && s
                != dest));
            assert(cleared.has_color(Color::BLACK, s) == (first.has_color(Color::BLACK, s) && s
                != dest));
            assert(b2.has_color(Color::WHITE, s) == (cleared.has_color(Color::WHITE, s) || (
            Color::WHITE == color && s == dest)));
            assert(b2.has_color(Color::BLACK, s) == (cleared.has_color(Color::BLACK, s) || (
            Color::BLACK == color && s == dest)));
            assert(first.has_any_type(s) == (b.has_any_type(s) && s != origin));
            assert(cleared.has_any_type(s) == (first.has_any_type(s) && s != dest));
            assert(b2.has_any_type(s) == (cleared.has_any_type(s) || s == dest));
            assert forall|p: Piece, q: Piece|
                p != q && p != Piece::KING && q != Piece::KING implies !(#[trigger] b2.has_type(
                p,
                s,
            ) && #[trigger] b2.has_type(q, s)) by {
                assert(first.has_type(p, s) == (b.has_type(p, s) && s != origin));
                assert(first.has_type(q, s) == (b.has_type(q, s) && s != origin));
                assert(cleared.has_type(p, s) == (first.has_type(p, s) && s != dest));
                assert(cleared.has_type(q, s) == (first.has_type(q, s) && s != dest));
                assert(b2.has_type(p, s) == (cleared.has_type(p, s) || (p == piece && s == dest)));
                assert(b2.has_type(q, s) == (cleared.has_type(q, s) || (q == piece && s == dest)));
            }
        }
        assert(b2.king_pos == b.king_pos);
        assert(b2.has_color(Color::WHITE, b2.king_pos[0]));
        assert(b2.has_color(Color::BLACK, b2.king_pos[1]));
    }
}

/// What moving a piece does, square by square: the square that it
/// leaves is empty, the square that it reaches holds the piece alone, and
/// every other square holds what it held.
pub proof fn lemma_move_squares(b: Board, origin: Square, dest: Square, piece: Piece, color: Color)
    requires
        b.consistent(),
        origin.valid(),
        dest.valid(),
        b.piece_on(origin) == Some(piece),
        b.has_color(color, origin),
        !b.has_color(color, dest),
        dest != b.king_sq(color.opposite()),
    ensures
        ({
            let b2 = b.spec_move_piece(origin, dest, piece, color);
            &&& b2.piece_on(origin) is None && b2.color_on(origin) is None
            &&& b2.piece_on(dest) == Some(piece) && b2.color_on(dest) == Some(color)
            &&& forall|s: Square|
                s.valid() && s != origin && s != dest ==> #[trigger] b2.piece_on(s) == b.piece_on(s)
                    && b2.color_on(s) == b.color_on(s)
        }),
{
    let b2 = b.spec_move_piece(origin, dest, piece, color);
    lemma_square_by_square(b);
    assert(b.king_sq(Color::WHITE) == b.king_pos[0] && b.king_sq(Color::BLACK) == b.king_pos[1]);
    assert(square_fits(b, origin));
    assert(square_fits(b, dest));
    assert(dest != b.king_sq(color));
    assert(origin != b.king_sq(color.opposite()));
    if b.king_sq(color) == origin {
        let cleared = b.spec_remove_piece_fast(BitBoard(!square_bit(dest)));
        lemma_taken_off(b, dest);
        assert(cleared.king_sq(color) == origin && cleared.king_sq(color.opposite()) == b.king_sq(
            color.opposite(),
        ));
        lemma_king_goes(cleared, color, dest);
        assert(b2.king_sq(Color::WHITE) == b2.king_pos[0] && b2.king_sq(Color::BLACK)
            == b2.king_pos[1]);
        assert forall|s: Square| s.valid() implies b2.has_color(color, s) == ((b.has_color(
            color,
            s,
        ) && s != origin) || s == dest) && b2.has_color(color.opposite(), s) == (b.has_color(
            color.opposite(),
            s,
        ) && s != dest) && (forall|q: Piece|
            q != Piece::KING ==> #[trigger] b2.has_type(q, s) == (b.has_type(q, s) && s != dest)) by {
            assert(b2.has_color(color, s) == ((cleared.has_color(color, s) && s != origin) || s
                == dest));
            assert(b2.has_color(color.opposite(), s) == cleared.has_color(color.opposite(), s));
            assert forall|q: Piece| q != Piece::KING implies #[trigger] b2.has_type(q, s) == (
            b.has_type(q, s) && s != dest) by {
                assert(b2.has_type(q, s) == cleared.has_type(q, s));
            }
        }
        assert forall|s: Square| s.valid() && s != origin && s != dest implies #[trigger] b2.piece_on(
            s,
        ) == b.piece_on(s) && b2.color_on(s) == b.color_on(s) by {
            assert(b2.has_color(Color::WHITE, s) == b.has_color(Color::WHITE, s));
            assert(b2.has_color(Color::BLACK, s) == b.has_color(Color::BLACK, s));
        }
        assert(b2.has_color(color, dest) && !b2.has_color(color.opposite(), dest));
        assert(!b2.has_color(color, origin) && !b2.has_color(color.opposite(), origin)) by {
            assert(!b.has_color(color.opposite(), origin));
        }
        assert(!b.has_any_type(origin));
    } else {
        let first = b.spec_remove_piece_fast(BitBoard(!square_bit(origin)));
        let cleared = first.spec_remove_piece_fast(BitBoard(!square_bit(dest)));
        lemma_taken_off(b, origin);
        lemma_taken_off(first, dest);
        lemma_put_on(cleared, piece, color, dest);
        assert(b2.king_pos == b.king_pos);
        assert forall|s: Square| s.valid() implies (forall|x: Color|
            #[trigger] b2.has_color(x, s) == ((b.has_color(x, s) && s != origin && s != dest) || (x
                == color && s == dest))) && (forall|q: Piece|
            q != Piece::KING ==> #[trigger] b2.has_type(q, s) == ((b.has_type(q, s) && s != origin
                && s != dest) || (q == piece && s == dest))) by {
            assert forall|x: Color| #[trigger] b2.has_color(x, s) == ((b.has_color(x, s) && s
                != origin && s != dest) || (x == color && s == dest)) by {
                assert(first.has_color(x, s) == (b.has_color(x, s) && s != origin));
                assert(cleared.has_color(x, s) == (first.has_color(x, s) && s != dest));
                assert(b2.has_color(x, s) == (cleared.has_color(x, s) || (x == color && s == dest)));
            }
            assert forall|q: Piece| q != Piece::KING implies #[trigger] b2.has_type(q, s) == ((
            b.has_type(q, s) && s != origin && s != dest) || (q == piece && s == dest)) by {
                assert(first.has_type(q, s) == (b.has_type(q, s) && s != origin));
                assert(cleared.has_type(q, s) == (first.has_type(q, s) && s != dest));
                assert(b2.has_type(q, s) == (cleared.has_type(q, s) || (q == piece && s == dest)));
            }
        }
        assert forall|s: Square| s.valid() && s != origin && s != dest implies #[trigger] b2.piece_on(
            s,
        ) == b.piece_on(s) && b2.color_on(s) == b.color_on(s) by {
            assert(b2.has_color(Color::WHITE, s) == b.has_color(Color::WHITE, s));
            assert(b2.has_color(Color::BLACK, s) == b.has_color(Color::BLACK, s));
            assert(b2.has_type(Piece::PAWN, s) == b.has_type(Piece::PAWN, s));
            assert(b2.has_type(Piece::KNIGHT, s) == b.has_type(Piece::KNIGHT, s));
            assert(b2.has_type(Piece::BISHOP, s) == b.has_type(Piece::BISHOP, s));
            assert(b2.has_type(Piece::ROOK, s) == b.has_type(Piece::ROOK, s));
            assert(b2.has_type(Piece::QUEEN, s) == b.has_type(Piece::QUEEN, s));
        }
        assert(b2.has_color(color, dest) && !b2.has_color(color.opposite(), dest));
        assert(!b2.has_color(Color::WHITE, origin) && !b2.has_color(Color::BLACK, origin));
        assert(!b2.has_type(Piece::PAWN, origin) && !b2.has_type(Piece::KNIGHT, origin)
            && !b2.has_type(Piece::BISHOP, origin) && !b2.has_type(Piece::ROOK, origin)
            && !b2.has_type(Piece::QUEEN, origin));
        assert(b2.has_type(Piece::PAWN, dest) == (piece == Piece::PAWN));
        assert(b2.has_type(Piece::KNIGHT, dest) == (piece == Piece::KNIGHT));
        assert(b2.has_type(Piece::BISHOP, dest) == (piece == Piece::BISHOP));
        assert(b2.has_type(Piece::ROOK, dest) == (piece == Piece::ROOK));
        assert(b2.has_type(Piece::QUEEN, dest) == (piece == Piece::QUEEN));
    }
}

/// What putting a piece on a square does, square by square: the square
/// holds the piece alone, the square that a king has come from is empty,
/// and every other square holds what it held.
pub proof fn lemma_put_squares(b: Board, piece: Piece, color: Color, sq: Square)
    requires
        b.consistent(),
        sq.valid(),
        sq != b.king_pos[0],
        sq != b.king_pos[1],
    ensures
        ({
            let b2 = b.spec_put_piece_safe(piece, color, sq);
            &&& b2.piece_on(sq) == Some(piece) && b2.color_on(sq) == Some(color)
            &&& piece == Piece::KING ==> b2.piece_on(b.king_sq(color)) is None && b2.color_on(
                b.king_sq(color),
            ) is None && b2.king_sq(color) == sq
            &&& forall|s: Square|
                s.valid() && s != sq && !(piece == Piece::KING && s == b.king_sq(color))
                    ==> #[trigger] b2.piece_on(s) == b.piece_on(s) && b2.color_on(s) == b.color_on(
                    s,
                )
        }),
{
    let b2 = b.spec_put_piece_safe(piece, color, sq);
    let cleared = b.spec_remove_piece_fast(BitBoard(!square_bit(sq)));
    lemma_taken_off(b, sq);
    lemma_square_by_square(b);
    assert(b.king_sq(Color::WHITE) == b.king_pos[0] && b.king_sq(Color::BLACK) == b.king_pos[1]);
    assert(cleared.king_sq(Color::WHITE) == b.king_pos[0]);
    assert(cleared.king_sq(Color::BLACK) == b.king_pos[1]);
    let home = b.king_sq(color);
    assert(square_fits(b, home));
    assert(square_fits(b, b.king_sq(color.opposite())));
    if piece == Piece::KING {
        lemma_king_goes(cleared, color, sq);
        assert(b2.king_sq(Color::WHITE) == b2.king_pos[0] && b2.king_sq(Color::BLACK)
            == b2.king_pos[1]);
        assert forall|s: Square| s.valid() implies b2.has_color(color, s) == ((b.has_color(
            color,
            s,
        ) && s != home && s != sq) || s == sq) && b2.has_color(color.opposite(), s) == (
        b.has_color(color.opposite(), s) && s != sq) && (forall|q: Piece|
            q != Piece::KING ==> #[trigger] b2.has_type(q, s) == (b.has_type(q, s) && s != sq)) by {
            assert(b2.has_color(color, s) == ((cleared.has_color(color, s) && s != home) || s
                == sq));
            assert(b2.has_color(color.opposite(), s) == cleared.has_color(color.opposite(), s));
            assert forall|q: Piece| q != Piece::KING implies #[trigger] b2.has_type(q, s) == (
            b.has_type(q, s) && s != sq) by {
                assert(b2.has_type(q, s) == cleared.has_type(q, s));
            }
        }
        assert forall|s: Square| s.valid() && s != sq && s != home implies #[trigger] b2.piece_on(
            s,
        ) == b.piece_on(s) && b2.color_on(s) == b.color_on(s) by {
            assert(b2.has_color(Color::WHITE, s) == b.has_color(Color::WHITE, s));
            assert(b2.has_color(Color::BLACK, s) == b.has_color(Color::BLACK, s));
        }
        assert(b2.has_color(color, sq) && !b2.has_color(color.opposite(), sq));
        assert(!b.has_any_type(home));
        assert(!b.has_color(color.opposite(), home));
        assert(!b2.has_color(color, home) && !b2.has_color(color.opposite(), home));
    } else {
        lemma_put_on(cleared, piece, color, sq);
        assert(b2.king_pos == b.king_pos);
        assert forall|s: Square| s.valid() implies (forall|x: Color|
            #[trigger] b2.has_color(x, s) == ((b.has_color(x, s) && s != sq) || (x == color && s
                == sq))) && (forall|q: Piece|
            q != Piece::KING ==> #[trigger] b2.has_type(q, s) == ((b.has_type(q, s) && s != sq)
                || (q == piece && s == sq))) by {
            assert forall|x: Color| #[trigger] b2.has_color(x, s) == ((b.has_color(x, s) && s
                != sq) || (x == color && s == sq)) by {
                assert(cleared.has_color(x, s) == (b.has_color(x, s) && s != sq));
                assert(b2.has_color(x, s) == (cleared.has_color(x, s) || (x == color && s == sq)));
            }
            assert forall|q: Piece| q != Piece::KING implies #[trigger] b2.has_type(q, s) == ((
            b.has_type(q, s) && s != sq) || (q == piece && s == sq)) by {
                assert(cleared.has_type(q, s) == (b.has_type(q, s) && s != sq));
                assert(b2.has_type(q, s) == (cleared.has_type(q, s) || (q == piece && s == sq)));
            }
        }
        assert forall|s: Square| s.valid() && s != sq implies #[trigger] b2.piece_on(s)
            == b.piece_on(s) && b2.color_on(s) == b.color_on(s) by {
            assert(b2.has_color(Color::WHITE, s) == b.has_color(Color::WHITE, s));
            assert(b2.has_color(Color::BLACK, s) == b.has_color(Color::BLACK, s));
            assert(b2.has_type(Piece::PAWN, s) == b.has_type(Piece::PAWN, s));
            assert(b2.has_type(Piece::KNIGHT, s) == b.has_type(Piece::KNIGHT, s));
            assert(b2.has_type(Piece::BISHOP, s) == b.has_type(Piece::BISHOP, s));
            assert(b2.has_type(Piece::ROOK, s) == b.has_type(Piece::ROOK, s));
            assert(b2.has_type(Piece::QUEEN, s) == b.has_type(Piece::QUEEN, s));
        }
        assert(b2.has_color(color, sq) && !b2.has_color(color.opposite(), sq));
        assert(b2.has_type(Piece::PAWN, sq) == (piece == Piece::PAWN));
        assert(b2.has_type(Piece::KNIGHT, sq) == (piece == Piece::KNIGHT));
        assert(b2.has_type(Piece::BISHOP, sq) == (piece == Piece::BISHOP));
        assert(b2.has_type(Piece::ROOK, sq) == (piece == Piece::ROOK));
        assert(b2.has_type(Piece::QUEEN, sq) == (piece == Piece::QUEEN));
    }
}

} // verus!
