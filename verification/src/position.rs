//! Whether a position is one on which the moves can be generated, found
//! out by looking at it.
use vstd::prelude::*;
use crate::bitboard::BitBoard;
use crate::bitboard_attacks::king_attacks;
use crate::bitboard_attacks::knight_attacks;
use crate::bitboard_attacks::pawn_attacks;
use crate::bits::lemma_bit_ops;
use crate::bits::lemma_single_bit;
use crate::board::square_bit;
use crate::board::Board;
use crate::legality::attacks_from;
use crate::legality::at_most_two_checks;
use crate::legality::double_step_from;
use crate::legality::double_step_to;
use crate::legality::double_step_was_legal;
use crate::legality::gives_check;
use crate::legality::legal_position;
use crate::legality::our_king;
use crate::legality::slider_on;
use crate::magic_bitboard::bishop_attacks;
use crate::magic_bitboard::rook_attacks;
use crate::magic_bitboard::MagicTables;
use crate::completeness::legal;
use crate::move_generator::MoveGenerator;
use crate::moves::Move;
use crate::pieces::Color;
use crate::pieces::Piece;
use crate::square::Square;

verus! {

/// Whether what the sets say of the square `s` fits together: it has one
/// colour and one type at most, a colour exactly when it has a type or a
/// king, no type where a king stands, and no pawn on the first or the last
/// rank.
pub open spec fn square_in_order(b: Board, s: Square) -> bool {
    &&& !(b.has_color(Color::WHITE, s) && b.has_color(Color::BLACK, s))
    &&& forall|p: Piece, q: Piece|
        p != q && p != Piece::KING && q != Piece::KING ==> !(#[trigger] b.has_type(p, s)
            && #[trigger] b.has_type(q, s))
    &&& b.has_any_type(s) ==> s != b.king_pos[0] && s != b.king_pos[1]
    &&& (b.has_color(Color::WHITE, s) || b.has_color(Color::BLACK, s)) == (b.has_any_type(s) || s
        == b.king_pos[0] || s == b.king_pos[1])
    &&& b.has_type(Piece::PAWN, s) ==> 1 <= s.spec_rank() <= 6
}

/// Looks at the sets of one square.
fn check_square(board: &Board, s: u8) -> (res: bool)
    requires
        s < 64,
    ensures
        res == square_in_order(*board, Square(s)),
{
    let m: u64 = 1u64 << s;
    proof {
        lemma_single_bit();
    }
    let white = board.piece_of_color[0].0 & m != 0;
    let black = board.piece_of_color[1].0 & m != 0;
    let pawn = board.piece_of_type[0].0 & m != 0;
    let knight = board.piece_of_type[1].0 & m != 0;
    let bishop = board.piece_of_type[2].0 & m != 0;
    let rook = board.piece_of_type[3].0 & m != 0;
    let queen = board.piece_of_type[4].0 & m != 0;
    let ghost b = *board;
    let ghost sq = Square(s);
    assert(white == b.has_color(Color::WHITE, sq) && black == b.has_color(Color::BLACK, sq));
    assert(pawn == b.has_type(Piece::PAWN, sq) && knight == b.has_type(Piece::KNIGHT, sq));
    assert(bishop == b.has_type(Piece::BISHOP, sq) && rook == b.has_type(Piece::ROOK, sq));
    assert(queen == b.has_type(Piece::QUEEN, sq));
    let any = pawn || knight || bishop || rook || queen;
    let two = (pawn && (knight || bishop || rook || queen)) || (knight && (bishop || rook || queen))
        || (bishop && (rook || queen)) || (rook && queen);
    let king = board.king_pos[0].0 == s || board.king_pos[1].0 == s;
    let rank: u8 = s / 8;
    let res = !(white && black) && !two && !(any && king) && ((white || black) == (any || king))
        && (!pawn || (1 <= rank && rank <= 6));
    assert(king == (sq == b.king_pos[0] || sq == b.king_pos[1]));
    assert(any == b.has_any_type(sq));
    assert(!two == (forall|p: Piece, q: Piece|
        p != q && p != Piece::KING && q != Piece::KING ==> !(#[trigger] b.has_type(p, sq)
            && #[trigger] b.has_type(q, sq)))) by {
        if two {
            if pawn && knight {
                assert(b.has_type(Piece::PAWN, sq) && b.has_type(Piece::KNIGHT, sq));
            }
        }
    }
    res
}

/// Whether the sets of every square fit together.
fn check_squares(board: &Board) -> (res: bool)
    ensures
        res == (forall|s: Square| s.valid() ==> #[trigger] square_in_order(*board, s)),
{
    let mut i: u8 = 0;
    while i < 64
        invariant
            i <= 64,
            forall|s: Square| s.0 < i ==> #[trigger] square_in_order(*board, s),
        decreases 64 - i,
    {
        if !check_square(board, i) {
            assert(Square(i).valid());
            return false;
        }
        i += 1;
    }
    true
}

/// Whether a rook of colour `color` stands on square `s`.
fn rook_on(board: &Board, color: Color, s: u8) -> (res: bool)
    requires
        s < 64,
    ensures
        res == board.has_rook(color, Square(s)),
{
    let m: u64 = 1u64 << s;
    proof {
        lemma_single_bit();
    }
    board.piece_of_color[color.slot()].0 & m != 0 && board.piece_of_type[3].0 & m != 0
}

/// Whether each castling right that is held has its king and its rook on
/// their squares.
fn check_castling(board: &Board) -> (res: bool)
    ensures
        res == board.castling_consistent(),
{
    let white = board.king_pos[0].0 == 4;
    let black = board.king_pos[1].0 == 60;
    (!board.can_castle_king_side[0] || (white && rook_on(board, Color::WHITE, 7))) && (
    !board.can_castle_queen_side[0] || (white && rook_on(board, Color::WHITE, 0))) && (
    !board.can_castle_king_side[1] || (black && rook_on(board, Color::BLACK, 63))) && (
    !board.can_castle_queen_side[1] || (black && rook_on(board, Color::BLACK, 56)))
}

/// Whether the en-passant square, if there is one, lies behind a pawn that
/// has just made its double step.
fn check_en_passant(board: &Board) -> (res: bool)
    requires
        board.wf(),
    ensures
        res == board.en_passant_consistent(),
{
    match board.en_passant {
        None => true,
        Some(e) => {
            proof {
                lemma_single_bit();
            }
            let rank: u8 = e.0 / 8;
            let white = match board.side_to_play {
                Color::WHITE => true,
                Color::BLACK => false,
            };
            if rank != (if white {
                5
            } else {
                2
            }) {
                return false;
            }
            let taken: u8 = if white {
                e.0 - 8
            } else {
                e.0 + 8
            };
            let here: u64 = 1u64 << e.0;
            let there: u64 = 1u64 << taken;
            let them = board.side_to_play.opposite();
            board.piece_of_color[0].0 & here == 0 && board.piece_of_color[1].0 & here == 0
                && board.piece_of_color[them.slot()].0 & there != 0 && board.piece_of_type[0].0
                & there != 0
        },
    }
}

/// Whether the position is playable: its sets, its castling rights and
/// its en-passant square are consistent, no pawn stands on the first or
/// the last rank, and the side that has just moved has not left its king
/// attacked.
pub fn is_playable(board: &Board) -> (res: bool)
    ensures
        res == board.playable(),
{
    if board.king_pos[0].0 >= 64 || board.king_pos[1].0 >= 64 {
        return false;
    }
    match board.en_passant {
        None => {},
        Some(e) => {
            if e.0 >= 64 {
                return false;
            }
        },
    }
    if board.king_pos[0].0 == board.king_pos[1].0 {
        return false;
    }
    proof {
        lemma_single_bit();
    }
    if board.piece_of_color[0].0 & (1u64 << board.king_pos[0].0) == 0 {
        return false;
    }
    if board.piece_of_color[1].0 & (1u64 << board.king_pos[1].0) == 0 {
        return false;
    }
    if !check_squares(board) {
        return false;
    }
    assert(board.consistent() && board.pawns_in_place()) by {
        assert forall|s: Square| s.valid() implies !(#[trigger] board.has_color(Color::WHITE, s)
            && board.has_color(Color::BLACK, s)) by {
            assert(square_in_order(*board, s));
        }
        assert forall|s: Square, p: Piece, q: Piece|
            s.valid() && p != q && p != Piece::KING && q != Piece::KING implies !(
        #[trigger] board.has_type(p, s) && #[trigger] board.has_type(q, s)) by {
            assert(square_in_order(*board, s));
        }
        assert forall|s: Square| s.valid() implies (#[trigger] board.has_any_type(s) ==> s
            != board.king_pos[0] && s != board.king_pos[1]) by {
            assert(square_in_order(*board, s));
        }
        assert forall|s: Square| s.valid() implies (board.has_color(Color::WHITE, s)
            || board.has_color(Color::BLACK, s)) == (#[trigger] board.has_any_type(s) || s
            == board.king_pos[0] || s == board.king_pos[1]) by {
            assert(square_in_order(*board, s));
        }
        assert forall|s: Square| s.valid() && #[trigger] board.has_type(Piece::PAWN, s) implies 1
            <= s.spec_rank() <= 6 by {
            assert(square_in_order(*board, s));
        }
    }
    check_castling(board) && check_en_passant(board) && !board.under_check(
        board.side_to_play.opposite(),
    )
}

/// Whether the piece of colour `by` on `s`, if there is one, attacks
/// `target` when the squares of `occ` are occupied.
pub fn attacks(board: &Board, by: Color, s: Square, target: Square, occ: BitBoard) -> (res: bool)
    requires
        board.wf(),
        s.valid(),
        target.valid(),
    ensures
        res == attacks_from(*board, by, s, target, occ.0),
{
    let here = BitBoard(1u64 << s.0);
    let goal: u64 = 1u64 << target.0;
    proof {
        board.lemma_piece_at_square(s);
        board.lemma_color_at_square(s);
        lemma_single_bit();
    }
    match board.color_at(here) {
        None => false,
        Some(c) => {
            if c != by {
                return false;
            }
            let reach = match board.piece_at(here) {
                None => BitBoard(0),
                Some(Piece::KNIGHT) => knight_attacks(s),
                Some(Piece::PAWN) => pawn_attacks(by, s),
                Some(Piece::ROOK) => rook_attacks(s, occ),
                Some(Piece::BISHOP) => bishop_attacks(s, occ),
                Some(Piece::QUEEN) => BitBoard(rook_attacks(s, occ).0 | bishop_attacks(s, occ).0),
                Some(Piece::KING) => king_attacks(s),
            };
            proof {
                lemma_bit_ops();
            }
            reach.0 & goal != 0
        },
    }
}

/// Whether at most two pieces give check to the side to move.
fn check_count(board: &Board) -> (res: bool)
    requires
        board.wf(),
    ensures
        res == at_most_two_checks(*board),
{
    let them = board.side_to_play.opposite();
    let king = board.king_pos[board.side_to_play.slot()];
    let occ = BitBoard(board.piece_of_color[0].0 | board.piece_of_color[1].0);
    let mut first: Option<Square> = None;
    let mut second: Option<Square> = None;
    let mut i: u8 = 0;
    while i < 64
        invariant
            i <= 64,
            board.wf(),
            them == board.side_to_play.opposite(),
            king == our_king(*board),
            occ.0 == board.occupancy(),
            second is Some ==> first is Some,
            first matches Some(x) ==> x.0 < i && gives_check(*board, x),
            second matches Some(y) ==> y.0 < i && gives_check(*board, y) && Some(y) != first,
            forall|s: Square|
                s.0 < i && #[trigger] gives_check(*board, s) ==> Some(s) == first || Some(s)
                    == second,
        decreases 64 - i,
    {
        if attacks(board, them, Square(i), king, occ) {
            if first.is_none() {
                first = Some(Square(i));
            } else if second.is_none() {
                second = Some(Square(i));
            } else {
                proof {
                    let x = first.unwrap();
                    let y = second.unwrap();
                    let z = Square(i);
                    assert(x.valid() && y.valid() && z.valid());
                    assert(x != y && y != z && x != z);
                    assert(gives_check(*board, x) && gives_check(*board, y) && gives_check(
                        *board,
                        z,
                    ));
                }
                return false;
            }
        }
        i += 1;
    }
    true
}

/// Whether no rook, bishop or queen attacked the king of the side to move
/// before the pawn that can be taken in passing made its double step.
fn check_double_step(board: &Board) -> (res: bool)
    requires
        board.wf(),
        board.en_passant_consistent(),
    ensures
        res == double_step_was_legal(*board),
{
    match board.en_passant {
        None => true,
        Some(e) => {
            let white = match board.side_to_play {
                Color::WHITE => true,
                Color::BLACK => false,
            };
            let from: u8 = if white {
                e.0 + 8
            } else {
                e.0 - 8
            };
            let to: u8 = if white {
                e.0 - 8
            } else {
                e.0 + 8
            };
            let them = board.side_to_play.opposite();
            let king = board.king_pos[board.side_to_play.slot()];
            let now: u64 = board.piece_of_color[0].0 | board.piece_of_color[1].0;
            let before = BitBoard((now ^ (1u64 << to)) | (1u64 << from));
            assert(Square(from) == double_step_from(*board) && Square(to) == double_step_to(
                *board,
            ));
            let mut i: u8 = 0;
            while i < 64
                invariant
                    i <= 64,
                    board.wf(),
                    board.en_passant is Some,
                    them == board.side_to_play.opposite(),
                    king == our_king(*board),
                    before.0 == (board.occupancy() ^ square_bit(double_step_to(*board)))
                        | square_bit(double_step_from(*board)),
                    forall|s: Square|
                        s.0 < i && slider_on(*board, s) ==> !#[trigger] attacks_from(
                            *board,
                            them,
                            s,
                            king,
                            before.0,
                        ),
                decreases 64 - i,
            {
                let here = BitBoard(1u64 << i);
                proof {
                    board.lemma_piece_at_square(Square(i));
                }
                let slider = match board.piece_at(here) {
                    Some(Piece::ROOK) => true,
                    Some(Piece::BISHOP) => true,
                    Some(Piece::QUEEN) => true,
                    _ => false,
                };
                if slider && attacks(board, them, Square(i), king, before) {
                    assert(Square(i).valid());
                    return false;
                }
                i += 1;
            }
            true
        },
    }
}

/// Whether the position is one that a game can reach, as far as the
/// generation of the legal moves relies on it.
pub fn is_legal_position(board: &Board) -> (res: bool)
    ensures
        res == legal_position(*board),
{
    is_playable(board) && check_count(board) && check_double_step(board)
}

/// The legal moves of the side to move, each once and in no particular
/// order, or `None` for a position that no game can reach. `tables` are tables that
/// give the true attacks of the sliders.
pub fn generate_legal_moves(board: &Board, tables: &MagicTables) -> (res: Option<Vec<Move>>)
    requires
        tables.wf(),
        tables.faithful(),
    ensures
        res is Some <==> legal_position(*board),
        res matches Some(moves) ==> forall|m: Move|
            legal(*board, m) <==> #[trigger] moves@.contains(m),
        res matches Some(moves) ==> moves@.no_duplicates(),
{
    if !is_legal_position(board) {
        return None;
    }
    let mut generator = MoveGenerator::new(board, tables);
    generator.generate();
    Some(generator.moves)
}

} // verus!
