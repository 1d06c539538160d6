//! Attacks of the pieces that do not slide: knight, king and pawn.
use vstd::prelude::*;
use crate::bitboard::BitBoard;
use crate::bitboard_constants::FILE_A;
use crate::bitboard_constants::FILE_A_I;
use crate::bitboard_constants::FILE_B;
use crate::bitboard_constants::FILE_G;
use crate::bitboard_constants::FILE_H;
use crate::bitboard_constants::FILE_H_I;
use crate::bits::bit;
use crate::bits::lemma_bit_ops;
use crate::bits::lemma_edge_masks;
use crate::bits::lemma_rank_file_masks;
use crate::pieces::Color;
use crate::square::Square;
use crate::square::abs_diff;

verus! {

/// Whether a knight on square `o` attacks square `s`.
pub open spec fn knight_has(o: int, s: int) -> bool {
    let df = abs_diff(s % 8, o % 8);
    let dr = abs_diff(s / 8, o / 8);
    (df == 1 && dr == 2) || (df == 2 && dr == 1)
}

/// Whether a king on square `o` attacks square `s`.
pub open spec fn king_has(o: int, s: int) -> bool {
    let df = abs_diff(s % 8, o % 8);
    let dr = abs_diff(s / 8, o / 8);
    df <= 1 && dr <= 1 && (df == 1 || dr == 1)
}

/// Whether a pawn of `color` on square `o` attacks square `s`: one rank
/// ahead, one file to either side.
pub open spec fn pawn_has(color: Color, o: int, s: int) -> bool {
    abs_diff(s % 8, o % 8) == 1 && s / 8 - o / 8 == (if color == Color::WHITE {
        1int
    } else {
        -1int
    })
}

/// The squares that a knight on `sq` attacks.
pub fn knight_attacks(sq: Square) -> (res: BitBoard)
    requires
        sq.valid(),
    ensures
        forall|s: u64| s < 64 ==> #[trigger] bit(res.0, s) == knight_has(sq.idx(), s as int),
{
    let b: u64 = 1u64 << sq.0;
    let not_ab: u64 = !(FILE_A | FILE_B);
    let not_gh: u64 = !(FILE_G | FILE_H);
    proof {
        lemma_bit_ops();
        lemma_edge_masks();
        lemma_rank_file_masks();
    }
    let up = ((b << 17) & FILE_A_I) | ((b << 15) & FILE_H_I) | ((b << 10) & not_ab) | ((b << 6)
        & not_gh);
    let down = ((b >> 17) & FILE_H_I) | ((b >> 15) & FILE_A_I) | ((b >> 10) & not_gh) | ((b >> 6)
        & not_ab);
    BitBoard(up | down)
}

/// The squares that a king on `sq` attacks.
pub fn king_attacks(sq: Square) -> (res: BitBoard)
    requires
        sq.valid(),
    ensures
        forall|s: u64| s < 64 ==> #[trigger] bit(res.0, s) == king_has(sq.idx(), s as int),
{
    let b: u64 = 1u64 << sq.0;
    proof {
        lemma_bit_ops();
        lemma_edge_masks();
    }
    let side = ((b << 1) & FILE_A_I) | ((b >> 1) & FILE_H_I);
    let row = b | side;
    BitBoard(side | (row << 8) | (row >> 8))
}

/// The squares that a pawn of `color` on `sq` attacks. A pawn of the other
/// colour standing on one of them attacks `sq`.
pub fn pawn_attacks(color: Color, sq: Square) -> (res: BitBoard)
    requires
        sq.valid(),
    ensures
        forall|s: u64| s < 64 ==> #[trigger] bit(res.0, s) == pawn_has(color, sq.idx(), s as int),
{
    let b: u64 = 1u64 << sq.0;
    proof {
        lemma_bit_ops();
        lemma_edge_masks();
    }
    match color {
        Color::WHITE => BitBoard(((b << 9) & FILE_A_I) | ((b << 7) & FILE_H_I)),
        Color::BLACK => BitBoard(((b >> 7) & FILE_A_I) | ((b >> 9) & FILE_H_I)),
    }
}

} // verus!
