//! Masks of single squares, files and ranks, and the lines and segments
//! between pairs of squares.
use vstd::prelude::*;
use crate::bitboard::BitBoard;
use crate::bits::bit;
use crate::bits::lemma_bit_ops;
use crate::bits::lemma_bits_equal;
use crate::bits::lemma_single_bit;
use crate::bits::lemma_single_lowest;
use crate::bits::lemma_rank_file_masks;
use crate::magic_bitboard::ray_has;
use crate::magic_bitboard::ray_steps;
use crate::magic_bitboard::shift_attacks_down_left;
use crate::magic_bitboard::shift_attacks_down_right;
use crate::magic_bitboard::shift_attacks_right;
use crate::magic_bitboard::shift_attacks_up;
use crate::magic_bitboard::shift_attacks_up_left;
use crate::magic_bitboard::shift_attacks_up_right;
use crate::square::Square;
use crate::square::abs_diff;
use crate::square::same_diag;
use crate::square::spec_same_diag;

verus! {

pub const BB_A1: u64 = 0x0000000000000001;

pub const BB_B1: u64 = 0x0000000000000002;

pub const BB_C1: u64 = 0x0000000000000004;

pub const BB_D1: u64 = 0x0000000000000008;

pub const BB_E1: u64 = 0x0000000000000010;

pub const BB_F1: u64 = 0x0000000000000020;

pub const BB_G1: u64 = 0x0000000000000040;

pub const BB_H1: u64 = 0x0000000000000080;

pub const BB_A2: u64 = 0x0000000000000100;

pub const BB_B2: u64 = 0x0000000000000200;

pub const BB_C2: u64 = 0x0000000000000400;

pub const BB_D2: u64 = 0x0000000000000800;

pub const BB_E2: u64 = 0x0000000000001000;

pub const BB_F2: u64 = 0x0000000000002000;

pub const BB_G2: u64 = 0x0000000000004000;

pub const BB_H2: u64 = 0x0000000000008000;

pub const BB_A3: u64 = 0x0000000000010000;

pub const BB_B3: u64 = 0x0000000000020000;

pub const BB_C3: u64 = 0x0000000000040000;

pub const BB_D3: u64 = 0x0000000000080000;

pub const BB_E3: u64 = 0x0000000000100000;

pub const BB_F3: u64 = 0x0000000000200000;

pub const BB_G3: u64 = 0x0000000000400000;

pub const BB_H3: u64 = 0x0000000000800000;

pub const BB_A4: u64 = 0x0000000001000000;

pub const BB_B4: u64 = 0x0000000002000000;

pub const BB_C4: u64 = 0x0000000004000000;

pub const BB_D4: u64 = 0x0000000008000000;

pub const BB_E4: u64 = 0x0000000010000000;

pub const BB_F4: u64 = 0x0000000020000000;

pub const BB_G4: u64 = 0x0000000040000000;

pub const BB_H4: u64 = 0x0000000080000000;

pub const BB_A5: u64 = 0x0000000100000000;

pub const BB_B5: u64 = 0x0000000200000000;

pub const BB_C5: u64 = 0x0000000400000000;

pub const BB_D5: u64 = 0x0000000800000000;

pub const BB_E5: u64 = 0x0000001000000000;

pub const BB_F5: u64 = 0x0000002000000000;

pub const BB_G5: u64 = 0x0000004000000000;

pub const BB_H5: u64 = 0x0000008000000000;

pub const BB_A6: u64 = 0x0000010000000000;

pub const BB_B6: u64 = 0x0000020000000000;

pub const BB_C6: u64 = 0x0000040000000000;

pub const BB_D6: u64 = 0x0000080000000000;

pub const BB_E6: u64 = 0x0000100000000000;

pub const BB_F6: u64 = 0x0000200000000000;

pub const BB_G6: u64 = 0x0000400000000000;

pub const BB_H6: u64 = 0x0000800000000000;

pub const BB_A7: u64 = 0x0001000000000000;

pub const BB_B7: u64 = 0x0002000000000000;

pub const BB_C7: u64 = 0x0004000000000000;

pub const BB_D7: u64 = 0x0008000000000000;

pub const BB_E7: u64 = 0x0010000000000000;

pub const BB_F7: u64 = 0x0020000000000000;

pub const BB_G7: u64 = 0x0040000000000000;

pub const BB_H7: u64 = 0x0080000000000000;

pub const BB_A8: u64 = 0x0100000000000000;

pub const BB_B8: u64 = 0x0200000000000000;

pub const BB_C8: u64 = 0x0400000000000000;

pub const BB_D8: u64 = 0x0800000000000000;

pub const BB_E8: u64 = 0x1000000000000000;

pub const BB_F8: u64 = 0x2000000000000000;

pub const BB_G8: u64 = 0x4000000000000000;

pub const BB_H8: u64 = 0x8000000000000000;

pub const BB_A1_I: u64 = 0xFFFFFFFFFFFFFFFE;

pub const BB_B1_I: u64 = 0xFFFFFFFFFFFFFFFD;

pub const BB_C1_I: u64 = 0xFFFFFFFFFFFFFFFB;

pub const BB_D1_I: u64 = 0xFFFFFFFFFFFFFFF7;

pub const BB_E1_I: u64 = 0xFFFFFFFFFFFFFFEF;

pub const BB_F1_I: u64 = 0xFFFFFFFFFFFFFFDF;

pub const BB_G1_I: u64 = 0xFFFFFFFFFFFFFFBF;

pub const BB_H1_I: u64 = 0xFFFFFFFFFFFFFF7F;

pub const BB_A2_I: u64 = 0xFFFFFFFFFFFFFEFF;

pub const BB_B2_I: u64 = 0xFFFFFFFFFFFFFDFF;

pub const BB_C2_I: u64 = 0xFFFFFFFFFFFFFBFF;

pub const BB_D2_I: u64 = 0xFFFFFFFFFFFFF7FF;

pub const BB_E2_I: u64 = 0xFFFFFFFFFFFFEFFF;

pub const BB_F2_I: u64 = 0xFFFFFFFFFFFFDFFF;

pub const BB_G2_I: u64 = 0xFFFFFFFFFFFFBFFF;

pub const BB_H2_I: u64 = 0xFFFFFFFFFFFF7FFF;

pub const BB_A3_I: u64 = 0xFFFFFFFFFFFEFFFF;

pub const BB_B3_I: u64 = 0xFFFFFFFFFFFDFFFF;

pub const BB_C3_I: u64 = 0xFFFFFFFFFFFBFFFF;

pub const BB_D3_I: u64 = 0xFFFFFFFFFFF7FFFF;

pub const BB_E3_I: u64 = 0xFFFFFFFFFFEFFFFF;

pub const BB_F3_I: u64 = 0xFFFFFFFFFFDFFFFF;

pub const BB_G3_I: u64 = 0xFFFFFFFFFFBFFFFF;

pub const BB_H3_I: u64 = 0xFFFFFFFFFF7FFFFF;

pub const BB_A4_I: u64 = 0xFFFFFFFFFEFFFFFF;

pub const BB_B4_I: u64 = 0xFFFFFFFFFDFFFFFF;

pub const BB_C4_I: u64 = 0xFFFFFFFFFBFFFFFF;

pub const BB_D4_I: u64 = 0xFFFFFFFFF7FFFFFF;

pub const BB_E4_I: u64 = 0xFFFFFFFFEFFFFFFF;

pub const BB_F4_I: u64 = 0xFFFFFFFFDFFFFFFF;

pub const BB_G4_I: u64 = 0xFFFFFFFFBFFFFFFF;

pub const BB_H4_I: u64 = 0xFFFFFFFF7FFFFFFF;

pub const BB_A5_I: u64 = 0xFFFFFFFEFFFFFFFF;

pub const BB_B5_I: u64 = 0xFFFFFFFDFFFFFFFF;

pub const BB_C5_I: u64 = 0xFFFFFFFBFFFFFFFF;

pub const BB_D5_I: u64 = 0xFFFFFFF7FFFFFFFF;

pub const BB_E5_I: u64 = 0xFFFFFFEFFFFFFFFF;

pub const BB_F5_I: u64 = 0xFFFFFFDFFFFFFFFF;

pub const BB_G5_I: u64 = 0xFFFFFFBFFFFFFFFF;

pub const BB_H5_I: u64 = 0xFFFFFF7FFFFFFFFF;

pub const BB_A6_I: u64 = 0xFFFFFEFFFFFFFFFF;

pub const BB_B6_I: u64 = 0xFFFFFDFFFFFFFFFF;

pub const BB_C6_I: u64 = 0xFFFFFBFFFFFFFFFF;

pub const BB_D6_I: u64 = 0xFFFFF7FFFFFFFFFF;

pub const BB_E6_I: u64 = 0xFFFFEFFFFFFFFFFF;

pub const BB_F6_I: u64 = 0xFFFFDFFFFFFFFFFF;

pub const BB_G6_I: u64 = 0xFFFFBFFFFFFFFFFF;

pub const BB_H6_I: u64 = 0xFFFF7FFFFFFFFFFF;

pub const BB_A7_I: u64 = 0xFFFEFFFFFFFFFFFF;

pub const BB_B7_I: u64 = 0xFFFDFFFFFFFFFFFF;

pub const BB_C7_I: u64 = 0xFFFBFFFFFFFFFFFF;

pub const BB_D7_I: u64 = 0xFFF7FFFFFFFFFFFF;

pub const BB_E7_I: u64 = 0xFFEFFFFFFFFFFFFF;

pub const BB_F7_I: u64 = 0xFFDFFFFFFFFFFFFF;

pub const BB_G7_I: u64 = 0xFFBFFFFFFFFFFFFF;

pub const BB_H7_I: u64 = 0xFF7FFFFFFFFFFFFF;

pub const BB_A8_I: u64 = 0xFEFFFFFFFFFFFFFF;

pub const BB_B8_I: u64 = 0xFDFFFFFFFFFFFFFF;

pub const BB_C8_I: u64 = 0xFBFFFFFFFFFFFFFF;

pub const BB_D8_I: u64 = 0xF7FFFFFFFFFFFFFF;

pub const BB_E8_I: u64 = 0xEFFFFFFFFFFFFFFF;

pub const BB_F8_I: u64 = 0xDFFFFFFFFFFFFFFF;

pub const BB_G8_I: u64 = 0xBFFFFFFFFFFFFFFF;

pub const BB_H8_I: u64 = 0x7FFFFFFFFFFFFFFF;

pub const FILE_A: u64 = 0x0101010101010101;

pub const FILE_B: u64 = 0x0202020202020202;

pub const FILE_C: u64 = 0x0404040404040404;

pub const FILE_D: u64 = 0x0808080808080808;

pub const FILE_E: u64 = 0x1010101010101010;

pub const FILE_F: u64 = 0x2020202020202020;

pub const FILE_G: u64 = 0x4040404040404040;

pub const FILE_H: u64 = 0x8080808080808080;

pub const RANK_1: u64 = 0x00000000000000FF;

pub const RANK_2: u64 = 0x000000000000FF00;

pub const RANK_3: u64 = 0x0000000000FF0000;

pub const RANK_4: u64 = 0x00000000FF000000;

pub const RANK_5: u64 = 0x000000FF00000000;

pub const RANK_6: u64 = 0x0000FF0000000000;

pub const RANK_7: u64 = 0x00FF000000000000;

pub const RANK_8: u64 = 0xFF00000000000000;

pub const FILE_A_I: u64 = 0xFEFEFEFEFEFEFEFE;

pub const FILE_B_I: u64 = 0xFDFDFDFDFDFDFDFD;

pub const FILE_C_I: u64 = 0xFBFBFBFBFBFBFBFB;

pub const FILE_D_I: u64 = 0xF7F7F7F7F7F7F7F7;

pub const FILE_E_I: u64 = 0xEFEFEFEFEFEFEFEF;

pub const FILE_F_I: u64 = 0xDFDFDFDFDFDFDFDF;

pub const FILE_G_I: u64 = 0xBFBFBFBFBFBFBFBF;

pub const FILE_H_I: u64 = 0x7F7F7F7F7F7F7F7F;

pub const RANK_1_I: u64 = 0xFFFFFFFFFFFFFF00;

pub const RANK_2_I: u64 = 0xFFFFFFFFFFFF00FF;

pub const RANK_3_I: u64 = 0xFFFFFFFFFF00FFFF;

pub const RANK_4_I: u64 = 0xFFFFFFFF00FFFFFF;

pub const RANK_5_I: u64 = 0xFFFFFF00FFFFFFFF;

pub const RANK_6_I: u64 = 0xFFFF00FFFFFFFFFF;

pub const RANK_7_I: u64 = 0xFF00FFFFFFFFFFFF;

pub const RANK_8_I: u64 = 0x00FFFFFFFFFFFFFF;

pub const FILE_A_I_RANK_1_I: u64 = 0xFEFEFEFEFEFEFE00;

pub const FILE_A_I_RANK_8_I: u64 = 0x00FEFEFEFEFEFEFE;

pub const FILE_H_I_RANK_1_I: u64 = 0x7F7F7F7F7F7F7F00;

pub const FILE_H_I_RANK_8_I: u64 = 0x007F7F7F7F7F7F7F;

pub const FILE_A_I_RANK_8_I_RANK_7_I: u64 = 0x0000FEFEFEFEFEFE;

pub const FILE_A_I_RANK_1_I_RANK_2_I: u64 = 0xFEFEFEFEFEFE0000;

pub const FILE_H_I_RANK_8_I_RANK_7_I: u64 = 0x00007F7F7F7F7F7F;

pub const FILE_H_I_RANK_1_I_RANK_2_I: u64 = 0x7F7F7F7F7F7F0000;

pub const FILE_A_I_RANK_8_I_FILE_B_I: u64 = 0x00FCFCFCFCFCFCFC;

pub const FILE_A_I_RANK_1_I_FILE_B_I: u64 = 0xFCFCFCFCFCFCFC00;

pub const FILE_H_I_RANK_8_I_FILE_G_I: u64 = 0x003F3F3F3F3F3F3F;

pub const FILE_H_I_RANK_1_I_FILE_G_I: u64 = 0x3F3F3F3F3F3F3F00;

pub const FILE: [u64; 8] = [FILE_A, FILE_B, FILE_C, FILE_D, FILE_E, FILE_F, FILE_G, FILE_H];

pub const RANK: [u64; 8] = [RANK_1, RANK_2, RANK_3, RANK_4, RANK_5, RANK_6, RANK_7, RANK_8];

pub const BOARD_INTERIOR: u64 = 0x007E7E7E7E7E7E00;

pub const DARK_SQUARES: u64 = 0xAA55AA55AA55AA55;

pub const LIGHT_SQUARES: u64 = 0x55AA55AA55AA55AA;

/// Whether `s` lies on the diagonal through `p` that rises to the right
/// (`rising`) or on the one that falls to the right.
pub open spec fn on_diagonal(p: Square, rising: bool, s: Square) -> bool {
    if rising {
        s.spec_file() - s.spec_rank() == p.spec_file() - p.spec_rank()
    } else {
        s.spec_file() + s.spec_rank() == p.spec_file() + p.spec_rank()
    }
}

/// Of two squares, the one on the lower file; the first where the files are
/// equal.
pub open spec fn left_of(sq1: Square, sq2: Square) -> Square {
    if sq1.spec_file() > sq2.spec_file() {
        sq2
    } else {
        sq1
    }
}

/// The other one of the two.
pub open spec fn right_of(sq1: Square, sq2: Square) -> Square {
    if sq1.spec_file() > sq2.spec_file() {
        sq1
    } else {
        sq2
    }
}

/// Whether `s` is on the diagonal that `diagonal(sq1, sq2)` returns: the
/// one through the left square of the two that rises to the right when the
/// right square is on a higher rank, and the one that falls otherwise.
pub open spec fn diagonal_has(sq1: Square, sq2: Square, s: Square) -> bool {
    let p = left_of(sq1, sq2);
    let q = right_of(sq1, sq2);
    on_diagonal(p, q.spec_rank() > p.spec_rank(), s)
}

/// The whole diagonal through the left one of two squares, in the
/// direction in which the right one lies.
pub fn diagonal(sq1: Square, sq2: Square) -> (res: BitBoard)
    requires
        sq1.valid(),
        sq2.valid(),
    ensures
        forall|s: Square| s.valid() ==> #[trigger] res.has(s) == diagonal_has(sq1, sq2, s),
{
    let swap = sq1.file() > sq2.file();
    let p = if swap { sq2 } else { sq1 };
    let q = if swap { sq1 } else { sq2 };
    let p_bb = BitBoard::from_square(p);
    let none = BitBoard(0);
    proof {
        lemma_single_lowest(p.0 as u64);
        lemma_bit_ops();
    }
    let ans = if q.rank() > p.rank() {
        BitBoard(
            p_bb.0 | shift_attacks_up_right(p_bb, none).0 | shift_attacks_down_left(p_bb, none).0,
        )
    } else {
        BitBoard(
            p_bb.0 | shift_attacks_down_right(p_bb, none).0 | shift_attacks_up_left(p_bb, none).0,
        )
    };
    proof {
        assert forall|s: Square| s.valid() implies #[trigger] ans.has(s) == diagonal_has(
            sq1,
            sq2,
            s,
        ) by {
            let i = s.0 as u64;
            assert(bit(ans.0, i) == bit(ans.0, i));
        }
    }
    ans
}

/// 1, 0 or -1 as `x` is positive, zero or negative.
pub open spec fn sign(x: int) -> int {
    if x > 0 {
        1
    } else if x < 0 {
        -1
    } else {
        0
    }
}

/// The direction of the straight way from square `a` to square `b` along a
/// rank, a file or a diagonal, or 0 where the two are the same square or
/// share no such line.
pub open spec fn direction_to(a: int, b: int) -> int {
    let df = b % 8 - a % 8;
    let dr = b / 8 - a / 8;
    if df == 0 && dr == 0 {
        0
    } else if df == 0 || dr == 0 || abs_diff(b % 8, a % 8) == abs_diff(b / 8, a / 8) {
        8 * sign(dr) + sign(df)
    } else {
        0
    }
}

/// Whether `s` lies strictly between `a` and `b` on a common rank, file or
/// diagonal.
pub open spec fn between(a: Square, b: Square, s: Square) -> bool {
    let d = direction_to(a.idx(), b.idx());
    d != 0 && 1 <= ray_steps(a.idx(), s.idx(), d) < ray_steps(a.idx(), b.idx(), d)
}

/// Whether `s` lies on the rank, file or diagonal that `a` and `b` share,
/// the two being different squares.
pub open spec fn line_has(a: Square, b: Square, s: Square) -> bool {
    let d = direction_to(a.idx(), b.idx());
    d != 0 && (s == a || ray_steps(a.idx(), s.idx(), d) >= 1 || ray_steps(a.idx(), s.idx(), -d)
        >= 1)
}

/// The line through two squares is the same in both orders.
pub proof fn lemma_line_symmetric(a: Square, b: Square, s: Square)
    requires
        a.valid(),
        b.valid(),
        s.valid(),
    ensures
        line_has(a, b, s) == line_has(b, a, s),
{
}

/// The squares between two squares are the same in both orders.
pub proof fn lemma_between_symmetric(a: Square, b: Square, s: Square)
    requires
        a.valid(),
        b.valid(),
        s.valid(),
    ensures
        between(a, b, s) == between(b, a, s),
{
}

/// Whatever sets hold the line through `a` and `b` and the line through
/// `b` and `a` are one and the same set.
pub proof fn lemma_line_sets_equal(a: Square, b: Square, ab: BitBoard, ba: BitBoard)
    requires
        a.valid(),
        b.valid(),
        forall|s: Square| s.valid() ==> #[trigger] ab.has(s) == line_has(a, b, s),
        forall|s: Square| s.valid() ==> #[trigger] ba.has(s) == line_has(b, a, s),
    ensures
        ab == ba,
{
    assert forall|i: u64| i < 64 implies bit(ab.0, i) == bit(ba.0, i) by {
        let s = Square(i as u8);
        lemma_line_symmetric(a, b, s);
        assert(ab.has(s) == ba.has(s));
    }
    lemma_bits_equal(ab.0, ba.0);
}

/// The segment between two squares holds neither of them, and is empty
/// where the two are the same, are neighbours, or share no rank, file or
/// diagonal.
pub proof fn lemma_segment_open(a: Square, b: Square, s: Square)
    requires
        a.valid(),
        b.valid(),
        s.valid(),
    ensures
        !between(a, b, a),
        !between(a, b, b),
        abs_diff(a.spec_file(), b.spec_file()) <= 1 && abs_diff(a.spec_rank(), b.spec_rank()) <= 1
            ==> !between(a, b, s),
        direction_to(a.idx(), b.idx()) == 0 ==> !between(a, b, s),
        between(a, b, s) ==> line_has(a, b, s),
{
}

/// Walks from `a` towards `b`, which lies in direction `d` from it, and
/// keeps the squares passed before `b`.
proof fn lemma_walk_to(a: Square, b: Square, d: int, ray: u64, res: u64)
    requires
        a.valid(),
        b.valid(),
        d != 0,
        d == direction_to(a.idx(), b.idx()),
        forall|i: u64| i < 64 ==> #[trigger] bit(ray, i) == ray_has(a.idx(), d, 1u64 << b.0, i as int),
        forall|i: u64| i < 64 ==> #[trigger] bit(res, i) == (bit(ray, i) && i != b.0),
    ensures
        forall|s: Square| s.valid() ==> #[trigger] BitBoard(res).has(s) == between(a, b, s),
{
    lemma_single_bit();
    lemma_bit_ops();
    let n = ray_steps(a.idx(), b.idx(), d);
    assert(n >= 1);
    assert forall|s: Square| s.valid() implies #[trigger] BitBoard(res).has(s) == between(
        a,
        b,
        s,
    ) by {
        let i = s.0 as u64;
        let m = ray_steps(a.idx(), s.idx(), d);
        if m > n {
            assert(bit(1u64 << b.0, b.0 as u64));
            assert(!ray_has(a.idx(), d, 1u64 << b.0, i as int));
        }
        if 1 <= m <= n {
            assert(ray_has(a.idx(), d, 1u64 << b.0, i as int));
        }
        if m == n {
            assert(s.0 == b.0);
        }
    }
}

/// The squares strictly between two different squares of one diagonal.
pub fn diagonal_segment(sq1: Square, sq2: Square) -> (res: BitBoard)
    requires
        sq1.valid(),
        sq2.valid(),
        sq1 != sq2,
        spec_same_diag(sq1, sq2),
    ensures
        forall|s: Square| s.valid() ==> #[trigger] res.has(s) == between(sq1, sq2, s),
{
    let swap = sq1.file() > sq2.file();
    let p = if swap { sq2 } else { sq1 };
    let q = if swap { sq1 } else { sq2 };
    let p_bb = BitBoard::from_square(p);
    let q_bb = BitBoard::from_square(q);
    proof {
        lemma_single_lowest(p.0 as u64);
        lemma_bit_ops();
    }
    let ray = if q.rank() > p.rank() {
        shift_attacks_up_right(p_bb, q_bb)
    } else {
        shift_attacks_down_right(p_bb, q_bb)
    };
    let ans = BitBoard(ray.0 & !q_bb.0);
    proof {
        lemma_walk_to(p, q, direction_to(p.idx(), q.idx()), ray.0, ans.0);
        assert forall|s: Square| s.valid() implies #[trigger] ans.has(s) == between(sq1, sq2, s) by {
            lemma_between_symmetric(sq1, sq2, s);
        }
    }
    ans
}

/// The rank, file or diagonal through two different squares that share
/// one, and the empty set for other pairs.
pub fn line(sq1: Square, sq2: Square) -> (res: BitBoard)
    requires
        sq1.valid(),
        sq2.valid(),
    ensures
        forall|s: Square| s.valid() ==> #[trigger] res.has(s) == line_has(sq1, sq2, s),
{
    proof {
        lemma_rank_file_masks();
        lemma_bit_ops();
    }
    if sq1.0 == sq2.0 {
        BitBoard(0)
    } else if sq1.rank() == sq2.rank() {
        BitBoard(RANK[sq1.rank() as usize])
    } else if sq1.file() == sq2.file() {
        BitBoard(FILE[sq1.file() as usize])
    } else if same_diag(sq1, sq2) {
        diagonal(sq1, sq2)
    } else {
        BitBoard(0)
    }
}

/// The squares strictly between two squares of one rank, file or diagonal,
/// and the empty set for other pairs.
pub fn line_segment(sq1: Square, sq2: Square) -> (res: BitBoard)
    requires
        sq1.valid(),
        sq2.valid(),
    ensures
        forall|s: Square| s.valid() ==> #[trigger] res.has(s) == between(sq1, sq2, s),
{
    proof {
        lemma_bit_ops();
    }
    if sq1.0 == sq2.0 {
        return BitBoard(0);
    }
    let straight = sq1.rank() == sq2.rank() || sq1.file() == sq2.file();
    if straight {
        let p = if sq1.0 < sq2.0 { sq1 } else { sq2 };
        let q = if sq1.0 < sq2.0 { sq2 } else { sq1 };
        let p_bb = BitBoard::from_square(p);
        let q_bb = BitBoard::from_square(q);
        proof {
            lemma_single_lowest(p.0 as u64);
        }
        let ray = if p.rank() == q.rank() {
            shift_attacks_right(p_bb, q_bb)
        } else {
            shift_attacks_up(p_bb, q_bb)
        };
        let ans = BitBoard(ray.0 & !q_bb.0);
        proof {
            lemma_walk_to(p, q, direction_to(p.idx(), q.idx()), ray.0, ans.0);
            assert forall|s: Square| s.valid() implies #[trigger] ans.has(s) == between(
                sq1,
                sq2,
                s,
            ) by {
                lemma_between_symmetric(sq1, sq2, s);
            }
        }
        ans
    } else if same_diag(sq1, sq2) {
        diagonal_segment(sq1, sq2)
    } else {
        BitBoard(0)
    }
}

/// A table that holds at `[a][b]` the diagonal through `a` and `b` where the two share one, and the empty set elsewhere.
pub open spec fn is_diagonal_table(t: Seq<Vec<BitBoard>>) -> bool {
    &&& t.len() == 64
    &&& forall|a: int| 0 <= a < 64 ==> (#[trigger] t[a]).len() == 64
    &&& forall|a: int, b: int, s: Square|
        0 <= a < 64 && 0 <= b < 64 && s.valid() ==> #[trigger] t[a][b].has(s) == (spec_same_diag(Square(a as u8), Square(b as u8)) && diagonal_has(Square(a as u8), Square(b as u8), s))
}

/// The diagonal through each pair of squares that share one.
pub fn calc_diagonals() -> (res: Vec<Vec<BitBoard>>)
    ensures
        is_diagonal_table(res@),
{
    let mut ans: Vec<Vec<BitBoard>> = Vec::new();
    let mut sq1i: u8 = 0;
    while sq1i < 64
        invariant
            sq1i <= 64,
            ans@.len() == sq1i,
            forall|a: int| 0 <= a < sq1i ==> (#[trigger] ans@[a]).len() == 64,
            forall|a: int, b: int, s: Square|
                0 <= a < sq1i && 0 <= b < 64 && s.valid() ==> #[trigger] ans@[a][b].has(s) == (spec_same_diag(Square(a as u8), Square(b as u8)) && diagonal_has(Square(a as u8), Square(b as u8), s)),
        decreases 64 - sq1i,
    {
        let sq1 = Square(sq1i);
        let mut row: Vec<BitBoard> = Vec::new();
        let mut sq2i: u8 = 0;
        while sq2i < 64
            invariant
                sq2i <= 64,
                sq1i < 64,
                sq1 == Square(sq1i),
                row@.len() == sq2i,
                forall|b: int, s: Square|
                    0 <= b < sq2i && s.valid() ==> #[trigger] row@[b].has(s) == (spec_same_diag(sq1, Square(b as u8)) && diagonal_has(sq1, Square(b as u8), s)),
            decreases 64 - sq2i,
        {
            let sq2 = Square(sq2i);
            proof {
                lemma_bit_ops();
            }
            let entry = if same_diag(sq1, sq2) { diagonal(sq1, sq2) } else { BitBoard(0) };
            row.push(entry);
            sq2i += 1;
        }
        ans.push(row);
        sq1i += 1;
    }
    ans
}

/// A table that holds at `[a][b]` the squares strictly between `a` and `b` where the two share a diagonal, and the empty set elsewhere.
pub open spec fn is_diagonal_segment_table(t: Seq<Vec<BitBoard>>) -> bool {
    &&& t.len() == 64
    &&& forall|a: int| 0 <= a < 64 ==> (#[trigger] t[a]).len() == 64
    &&& forall|a: int, b: int, s: Square|
        0 <= a < 64 && 0 <= b < 64 && s.valid() ==> #[trigger] t[a][b].has(s) == (spec_same_diag(Square(a as u8), Square(b as u8)) && between(Square(a as u8), Square(b as u8), s))
}

/// The squares between each pair of squares of one diagonal.
pub fn calc_diagonal_segments() -> (res: Vec<Vec<BitBoard>>)
    ensures
        is_diagonal_segment_table(res@),
{
    let mut ans: Vec<Vec<BitBoard>> = Vec::new();
    let mut sq1i: u8 = 0;
    while sq1i < 64
        invariant
            sq1i <= 64,
            ans@.len() == sq1i,
            forall|a: int| 0 <= a < sq1i ==> (#[trigger] ans@[a]).len() == 64,
            forall|a: int, b: int, s: Square|
                0 <= a < sq1i && 0 <= b < 64 && s.valid() ==> #[trigger] ans@[a][b].has(s) == (spec_same_diag(Square(a as u8), Square(b as u8)) && between(Square(a as u8), Square(b as u8), s)),
        decreases 64 - sq1i,
    {
        let sq1 = Square(sq1i);
        let mut row: Vec<BitBoard> = Vec::new();
        let mut sq2i: u8 = 0;
        while sq2i < 64
            invariant
                sq2i <= 64,
                sq1i < 64,
                sq1 == Square(sq1i),
                row@.len() == sq2i,
                forall|b: int, s: Square|
                    0 <= b < sq2i && s.valid() ==> #[trigger] row@[b].has(s) == (spec_same_diag(sq1, Square(b as u8)) && between(sq1, Square(b as u8), s)),
            decreases 64 - sq2i,
        {
            let sq2 = Square(sq2i);
            proof {
                lemma_bit_ops();
            }
            let entry = if sq1i != sq2i && same_diag(sq1, sq2) { diagonal_segment(sq1, sq2) } else { BitBoard(0) };
            row.push(entry);
            sq2i += 1;
        }
        ans.push(row);
        sq1i += 1;
    }
    ans
}

/// A table that holds at `[a][b]` the rank, file or diagonal through `a` and `b`.
pub open spec fn is_line_table(t: Seq<Vec<BitBoard>>) -> bool {
    &&& t.len() == 64
    &&& forall|a: int| 0 <= a < 64 ==> (#[trigger] t[a]).len() == 64
    &&& forall|a: int, b: int, s: Square|
        0 <= a < 64 && 0 <= b < 64 && s.valid() ==> #[trigger] t[a][b].has(s) == (line_has(Square(a as u8), Square(b as u8), s))
}

/// The line through each pair of squares.
pub fn calc_lines() -> (res: Vec<Vec<BitBoard>>)
    ensures
        is_line_table(res@),
{
    let mut ans: Vec<Vec<BitBoard>> = Vec::new();
    let mut sq1i: u8 = 0;
    while sq1i < 64
        invariant
            sq1i <= 64,
            ans@.len() == sq1i,
            forall|a: int| 0 <= a < sq1i ==> (#[trigger] ans@[a]).len() == 64,
            forall|a: int, b: int, s: Square|
                0 <= a < sq1i && 0 <= b < 64 && s.valid() ==> #[trigger] ans@[a][b].has(s) == (line_has(Square(a as u8), Square(b as u8), s)),
        decreases 64 - sq1i,
    {
        let sq1 = Square(sq1i);
        let mut row: Vec<BitBoard> = Vec::new();
        let mut sq2i: u8 = 0;
        while sq2i < 64
            invariant
                sq2i <= 64,
                sq1i < 64,
                sq1 == Square(sq1i),
                row@.len() == sq2i,
                forall|b: int, s: Square|
                    0 <= b < sq2i && s.valid() ==> #[trigger] row@[b].has(s) == (line_has(sq1, Square(b as u8), s)),
            decreases 64 - sq2i,
        {
            let sq2 = Square(sq2i);
            proof {
                lemma_bit_ops();
            }
            let entry = line(sq1, sq2);
            row.push(entry);
            sq2i += 1;
        }
        ans.push(row);
        sq1i += 1;
    }
    ans
}

/// A table that holds at `[a][b]` the squares strictly between `a` and `b`.
pub open spec fn is_segment_table(t: Seq<Vec<BitBoard>>) -> bool {
    &&& t.len() == 64
    &&& forall|a: int| 0 <= a < 64 ==> (#[trigger] t[a]).len() == 64
    &&& forall|a: int, b: int, s: Square|
        0 <= a < 64 && 0 <= b < 64 && s.valid() ==> #[trigger] t[a][b].has(s) == (between(Square(a as u8), Square(b as u8), s))
}

/// The squares between each pair of squares.
pub fn calc_line_segments() -> (res: Vec<Vec<BitBoard>>)
    ensures
        is_segment_table(res@),
{
    let mut ans: Vec<Vec<BitBoard>> = Vec::new();
    let mut sq1i: u8 = 0;
    while sq1i < 64
        invariant
            sq1i <= 64,
            ans@.len() == sq1i,
            forall|a: int| 0 <= a < sq1i ==> (#[trigger] ans@[a]).len() == 64,
            forall|a: int, b: int, s: Square|
                0 <= a < sq1i && 0 <= b < 64 && s.valid() ==> #[trigger] ans@[a][b].has(s) == (between(Square(a as u8), Square(b as u8), s)),
        decreases 64 - sq1i,
    {
        let sq1 = Square(sq1i);
        let mut row: Vec<BitBoard> = Vec::new();
        let mut sq2i: u8 = 0;
        while sq2i < 64
            invariant
                sq2i <= 64,
                sq1i < 64,
                sq1 == Square(sq1i),
                row@.len() == sq2i,
                forall|b: int, s: Square|
                    0 <= b < sq2i && s.valid() ==> #[trigger] row@[b].has(s) == (between(sq1, Square(b as u8), s)),
            decreases 64 - sq2i,
        {
            let sq2 = Square(sq2i);
            proof {
                lemma_bit_ops();
            }
            let entry = line_segment(sq1, sq2);
            row.push(entry);
            sq2i += 1;
        }
        ans.push(row);
        sq1i += 1;
    }
    ans
}

} // verus!
