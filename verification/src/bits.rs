//! Facts about single bits of 64-bit words, on which the occupancy sets rest.
use vstd::prelude::*;
use crate::bitboard_constants::BB_B1;
use crate::bitboard_constants::BB_B8;
use crate::bitboard_constants::BB_C1;
use crate::bitboard_constants::BB_D1;
use crate::bitboard_constants::BB_E1;
use crate::bitboard_constants::BB_F1;
use crate::bitboard_constants::BB_G1;
use crate::bitboard_constants::BB_C8;
use crate::bitboard_constants::BB_D8;
use crate::bitboard_constants::BB_E8;
use crate::bitboard_constants::BB_F8;
use crate::bitboard_constants::BB_G8;
use crate::bitboard_constants::BB_A1;
use crate::bitboard_constants::BB_A8;
use crate::bitboard_constants::BB_H1;
use crate::bitboard_constants::BB_H8;
use crate::bitboard_constants::FILE_A;
use crate::bitboard_constants::FILE_B;
use crate::bitboard_constants::FILE_C;
use crate::bitboard_constants::FILE_D;
use crate::bitboard_constants::FILE_E;
use crate::bitboard_constants::FILE_F;
use crate::bitboard_constants::FILE_G;
use crate::bitboard_constants::FILE_H;
use crate::bitboard_constants::RANK_1;
use crate::bitboard_constants::RANK_2;
use crate::bitboard_constants::RANK_3;
use crate::bitboard_constants::RANK_4;
use crate::bitboard_constants::RANK_5;
use crate::bitboard_constants::RANK_6;
use crate::bitboard_constants::RANK_7;
use crate::bitboard_constants::RANK_8;
use vstd::std_specs::bits::u64_trailing_zeros;
use vstd::std_specs::bits::axiom_u64_trailing_zeros;
use crate::bitboard_constants::FILE_A_I;
use crate::bitboard_constants::FILE_H_I;
use crate::bitboard_constants::RANK_1_I;
use crate::bitboard_constants::RANK_8_I;
use crate::bitboard_constants::FILE_A_I_RANK_1_I;
use crate::bitboard_constants::FILE_A_I_RANK_8_I;
use crate::bitboard_constants::FILE_H_I_RANK_1_I;
use crate::bitboard_constants::FILE_H_I_RANK_8_I;

verus! {

/// Whether bit `i` of `x` is set. Bits at positions 64 and above are never
/// set. Other modules reason about bits through the lemmas below.
pub closed spec fn bit(x: u64, i: u64) -> bool {
    i < 64 && (x >> i) & 1 == 1
}

/// How the bitwise operators act on each bit.
pub proof fn lemma_bit_ops()
    by (bit_vector)
    ensures
        forall|a: u64, b: u64, i: u64| #[trigger] bit(a & b, i) == (bit(a, i) && bit(b, i)),
        forall|a: u64, b: u64, i: u64| #[trigger] bit(a | b, i) == (bit(a, i) || bit(b, i)),
        forall|a: u64, b: u64, i: u64| #[trigger] bit(a ^ b, i) == (bit(a, i) != bit(b, i)),
        forall|a: u64, i: u64| i < 64 ==> #[trigger] bit(!a, i) == !bit(a, i),
        forall|s: u64, i: u64| s < 64 ==> #[trigger] bit(1u64 << s, i) == (i == s),
        forall|i: u64| !#[trigger] bit(0, i),
        forall|a: u64, k: u64, i: u64| k < 64 ==> #[trigger] bit(a << k, i) == (k <= i && i < 64 && bit(a, (i - k) as u64)),
        forall|a: u64, k: u64, i: u64| k < 64 && i < 64 ==> #[trigger] bit(a >> k, i) == (i + k < 64 && bit(a, (i + k) as u64)),
{
}

/// A word with a single set bit meets a mask exactly when the mask has that
/// bit; shifting it moves the bit.
pub proof fn lemma_single_bit()
    by (bit_vector)
    ensures
        forall|m: u64, c: u64| c < 64 ==> (#[trigger] ((1u64 << c) & m) != 0) == bit(m, c),
        forall|m: u64, c: u64| c < 64 ==> (#[trigger] (m & (1u64 << c)) != 0) == bit(m, c),
        forall|c: u64, k: u64| c + k < 64 ==> #[trigger] ((1u64 << c) << k) == 1u64 << ((c + k) as u64),
        forall|c: u64, k: u64| k <= c < 64 ==> #[trigger] ((1u64 << c) >> k) == 1u64 << ((c - k) as u64),
        forall|c: u64| c < 64 ==> #[trigger] (1u64 << c) != 0,
{
}

/// Which squares the masks of the board's edges hold, by file and rank.
pub proof fn lemma_edge_masks()
    by (bit_vector)
    ensures
        forall|i: u64| i < 64 ==> #[trigger] bit(FILE_A_I, i) == (i % 8 != 0),
        forall|i: u64| i < 64 ==> #[trigger] bit(FILE_H_I, i) == (i % 8 != 7),
        forall|i: u64| i < 64 ==> #[trigger] bit(RANK_1_I, i) == (i / 8 != 0),
        forall|i: u64| i < 64 ==> #[trigger] bit(RANK_8_I, i) == (i / 8 != 7),
        forall|i: u64| i < 64 ==> #[trigger] bit(FILE_A_I_RANK_1_I, i) == (i % 8 != 0 && i / 8 != 0),
        forall|i: u64| i < 64 ==> #[trigger] bit(FILE_A_I_RANK_8_I, i) == (i % 8 != 0 && i / 8 != 7),
        forall|i: u64| i < 64 ==> #[trigger] bit(FILE_H_I_RANK_1_I, i) == (i % 8 != 7 && i / 8 != 0),
        forall|i: u64| i < 64 ==> #[trigger] bit(FILE_H_I_RANK_8_I, i) == (i % 8 != 7 && i / 8 != 7),
{
}

/// Which squares the masks of the files and ranks hold.
pub proof fn lemma_rank_file_masks()
    by (bit_vector)
    ensures
        forall|i: u64| i < 64 ==> #[trigger] bit(FILE_A, i) == (i % 8 == 0),
        forall|i: u64| i < 64 ==> #[trigger] bit(FILE_B, i) == (i % 8 == 1),
        forall|i: u64| i < 64 ==> #[trigger] bit(FILE_C, i) == (i % 8 == 2),
        forall|i: u64| i < 64 ==> #[trigger] bit(FILE_D, i) == (i % 8 == 3),
        forall|i: u64| i < 64 ==> #[trigger] bit(FILE_E, i) == (i % 8 == 4),
        forall|i: u64| i < 64 ==> #[trigger] bit(FILE_F, i) == (i % 8 == 5),
        forall|i: u64| i < 64 ==> #[trigger] bit(FILE_G, i) == (i % 8 == 6),
        forall|i: u64| i < 64 ==> #[trigger] bit(FILE_H, i) == (i % 8 == 7),
        forall|i: u64| i < 64 ==> #[trigger] bit(RANK_1, i) == (i / 8 == 0),
        forall|i: u64| i < 64 ==> #[trigger] bit(RANK_2, i) == (i / 8 == 1),
        forall|i: u64| i < 64 ==> #[trigger] bit(RANK_3, i) == (i / 8 == 2),
        forall|i: u64| i < 64 ==> #[trigger] bit(RANK_4, i) == (i / 8 == 3),
        forall|i: u64| i < 64 ==> #[trigger] bit(RANK_5, i) == (i / 8 == 4),
        forall|i: u64| i < 64 ==> #[trigger] bit(RANK_6, i) == (i / 8 == 5),
        forall|i: u64| i < 64 ==> #[trigger] bit(RANK_7, i) == (i / 8 == 6),
        forall|i: u64| i < 64 ==> #[trigger] bit(RANK_8, i) == (i / 8 == 7),
{
}

/// The number of set bits among the lowest `n` bits of `x`.
pub open spec fn count_bits(x: u64, n: u64) -> u64
    decreases n,
{
    if n == 0 {
        0
    } else {
        (count_bits(x, (n - 1) as u64) + if bit(x, (n - 1) as u64) {
            1u64
        } else {
            0u64
        }) as u64
    }
}

/// Whether square `i` can block a slider on square `sq`: it shares a line
/// with `sq` (a diagonal if `diagonal`, else a rank or file), is not `sq`,
/// and is not on an edge of the board unless `sq` is on that edge too.
pub open spec fn relevant(i: u64, sq: u64, diagonal: bool) -> bool {
    &&& i != sq
    &&& if diagonal {
        i % 8 + sq / 8 == sq % 8 + i / 8 || i % 8 + i / 8 == sq % 8 + sq / 8
    } else {
        i % 8 == sq % 8 || i / 8 == sq / 8
    }
    &&& (i / 8 != 0 && i / 8 != 7) || i / 8 == sq / 8
    &&& (i % 8 != 0 && i % 8 != 7) || i % 8 == sq % 8
}

/// Whether each set bit of `x` among the lowest `n` is relevant to `sq`.
pub open spec fn all_relevant(x: u64, sq: u64, diagonal: bool, n: u64) -> bool
    decreases n,
{
    if n == 0 {
        true
    } else {
        all_relevant(x, sq, diagonal, (n - 1) as u64) && (bit(x, (n - 1) as u64) ==> relevant(
            (n - 1) as u64,
            sq,
            diagonal,
        ))
    }
}

/// At most twelve squares are relevant to any square.
pub proof fn lemma_relevant_count(x: u64, sq: u64, diagonal: bool)
    by (bit_vector)
    requires
        sq < 64,
        all_relevant(x, sq, diagonal, 64),
    ensures
        count_bits(x, 64) <= 12,
{
}

/// A word all of whose bits are relevant, said bit by bit.
pub proof fn lemma_all_relevant(x: u64, sq: u64, diagonal: bool, n: u64)
    requires
        n <= 64,
        forall|i: u64| i < 64 && bit(x, i) ==> relevant(i, sq, diagonal),
    ensures
        all_relevant(x, sq, diagonal, n),
    decreases n,
{
    if n > 0 {
        lemma_all_relevant(x, sq, diagonal, (n - 1) as u64);
    }
}

/// The top `k` bits of a word, shifted down, are a number below `2^k`.
pub proof fn lemma_top_bits()
    by (bit_vector)
    ensures
        forall|h: u64, s: u64| 52 <= s < 64 ==> #[trigger] (h >> s) < (1u64 << ((64 - s) as u64)),
        forall|k: u64| k <= 12 ==> 1 <= #[trigger] (1u64 << k) <= 4096,
{
}

/// The empty occupancy hashes to slot 0.
pub proof fn lemma_zero_slot(mask: u64, magic: u64, shift: u64)
    requires
        shift < 64,
    ensures
        (0u64 & mask).wrapping_mul(magic) >> shift == 0,
{
    assert(0u64 & mask == 0) by (bit_vector);
    assert(0u64 >> shift == 0) by (bit_vector);
}

/// Which squares the sets of the starting position hold.
pub proof fn lemma_initial_bits()
    by (bit_vector)
    ensures
        forall|i: u64| i < 64 ==> #[trigger] bit(0x0000_0000_0000_FFFF, i) == (i / 8 <= 1),
        forall|i: u64| i < 64 ==> #[trigger] bit(0xFFFF_0000_0000_0000, i) == (i / 8 >= 6),
        forall|i: u64| i < 64 ==> #[trigger] bit(0x00FF_0000_0000_FF00, i) == (i / 8 == 1 || i / 8 == 6),
        forall|i: u64|
            i < 64 ==> #[trigger] bit(0x4200_0000_0000_0042, i) == ((i / 8 == 0 || i / 8 == 7) && (i
                % 8 == 1 || i % 8 == 6)),
        forall|i: u64|
            i < 64 ==> #[trigger] bit(0x2400_0000_0000_0024, i) == ((i / 8 == 0 || i / 8 == 7) && (i
                % 8 == 2 || i % 8 == 5)),
        forall|i: u64|
            i < 64 ==> #[trigger] bit(0x8100_0000_0000_0081, i) == ((i / 8 == 0 || i / 8 == 7) && (i
                % 8 == 0 || i % 8 == 7)),
        forall|i: u64|
            i < 64 ==> #[trigger] bit(0x0800_0000_0000_0008, i) == ((i / 8 == 0 || i / 8 == 7) && i
                % 8 == 3),
{
}

/// A word is other than 0 exactly when it has a set bit.
pub proof fn lemma_nonzero_bit(x: u64)
    ensures
        x != 0 <==> exists|i: u64| i < 64 && bit(x, i),
{
    lemma_bit_ops();
    if x != 0 {
        lemma_pop_lowest(x);
        assert(bit(x, u64_trailing_zeros(x) as u64));
    }
}

/// The laws of exclusive or.
pub proof fn lemma_xor_laws()
    by (bit_vector)
    ensures
        forall|a: u64, b: u64, c: u64| #[trigger] ((a ^ b) ^ c) == a ^ (b ^ c),
        forall|a: u64, b: u64| #[trigger] (a ^ b) == b ^ a,
        forall|a: u64| #[trigger] (a ^ a) == 0,
        forall|a: u64| #[trigger] (a ^ 0) == a,
        forall|a: u64| #[trigger] (0 ^ a) == a,
{
}

/// The exclusive or of twelve pairs is that of their first members with
/// that of their second members.
pub proof fn lemma_xor_pairs(a: Seq<u64>, b: Seq<u64>)
    requires
        a.len() == 12,
        b.len() == 12,
    ensures
        (a[0] ^ b[0]) ^ (a[1] ^ b[1]) ^ (a[2] ^ b[2]) ^ (a[3] ^ b[3]) ^ (a[4] ^ b[4]) ^ (a[5] ^ b[5])
            ^ (a[6] ^ b[6]) ^ (a[7] ^ b[7]) ^ (a[8] ^ b[8]) ^ (a[9] ^ b[9]) ^ (a[10] ^ b[10]) ^ (a[11]
            ^ b[11]) == (a[0] ^ a[1] ^ a[2] ^ a[3] ^ a[4] ^ a[5] ^ a[6] ^ a[7] ^ a[8] ^ a[9] ^ a[10]
            ^ a[11]) ^ (b[0] ^ b[1] ^ b[2] ^ b[3] ^ b[4] ^ b[5] ^ b[6] ^ b[7] ^ b[8] ^ b[9] ^ b[10]
            ^ b[11]),
{
    let (a0, a1, a2, a3, a4, a5) = (a[0], a[1], a[2], a[3], a[4], a[5]);
    let (a6, a7, a8, a9, a10, a11) = (a[6], a[7], a[8], a[9], a[10], a[11]);
    let (b0, b1, b2, b3, b4, b5) = (b[0], b[1], b[2], b[3], b[4], b[5]);
    let (b6, b7, b8, b9, b10, b11) = (b[6], b[7], b[8], b[9], b[10], b[11]);
    assert((a0 ^ b0) ^ (a1 ^ b1) ^ (a2 ^ b2) ^ (a3 ^ b3) ^ (a4 ^ b4) ^ (a5 ^ b5) ^ (a6 ^ b6) ^ (a7
        ^ b7) ^ (a8 ^ b8) ^ (a9 ^ b9) ^ (a10 ^ b10) ^ (a11 ^ b11) == (a0 ^ a1 ^ a2 ^ a3 ^ a4 ^ a5
        ^ a6 ^ a7 ^ a8 ^ a9 ^ a10 ^ a11) ^ (b0 ^ b1 ^ b2 ^ b3 ^ b4 ^ b5 ^ b6 ^ b7 ^ b8 ^ b9 ^ b10
        ^ b11)) by (bit_vector);
}

/// The sets of the four corners hold those squares.
pub proof fn lemma_corner_bits()
    by (bit_vector)
    ensures
        forall|i: u64| i < 64 ==> #[trigger] bit(BB_A1, i) == (i == 0),
        forall|i: u64| i < 64 ==> #[trigger] bit(BB_H1, i) == (i == 7),
        forall|i: u64| i < 64 ==> #[trigger] bit(BB_A8, i) == (i == 56),
        forall|i: u64| i < 64 ==> #[trigger] bit(BB_H8, i) == (i == 63),
        forall|x: u64| #[trigger] (x & BB_A1) != 0 <==> bit(x, 0),
        forall|x: u64| #[trigger] (x & BB_H1) != 0 <==> bit(x, 7),
        forall|x: u64| #[trigger] (x & BB_A8) != 0 <==> bit(x, 56),
        forall|x: u64| #[trigger] (x & BB_H8) != 0 <==> bit(x, 63),
{
}

/// Which squares the sets that change in castling hold.
pub proof fn lemma_castle_bits()
    by (bit_vector)
    ensures
        forall|i: u64| i < 64 ==> #[trigger] bit(0xF0, i) == (4 <= i <= 7),
        forall|i: u64| i < 64 ==> #[trigger] bit(0xA0, i) == (i == 5 || i == 7),
        forall|i: u64| i < 64 ==> #[trigger] bit(0x1D, i) == (i == 0 || i == 2 || i == 3 || i == 4),
        forall|i: u64| i < 64 ==> #[trigger] bit(0x09, i) == (i == 0 || i == 3),
        forall|i: u64| i < 64 ==> #[trigger] bit(0xF000_0000_0000_0000, i) == (60 <= i <= 63),
        forall|i: u64| i < 64 ==> #[trigger] bit(0xA000_0000_0000_0000, i) == (i == 61 || i == 63),
        forall|i: u64|
            i < 64 ==> #[trigger] bit(0x1D00_0000_0000_0000, i) == (i == 56 || i == 58 || i == 59 || i
                == 60),
        forall|i: u64| i < 64 ==> #[trigger] bit(0x0900_0000_0000_0000, i) == (i == 56 || i == 59),
{
}

/// The sets that change in castling, put together from the sets of their
/// squares.
pub proof fn lemma_castle_words()
    by (bit_vector)
    ensures
        BB_E1 | BB_F1 | BB_G1 | BB_H1 == 0xF0,
        BB_F1 | BB_H1 == 0xA0,
        BB_A1 | BB_C1 | BB_D1 | BB_E1 == 0x1D,
        BB_D1 | BB_A1 == 0x09,
        BB_E8 | BB_F8 | BB_G8 | BB_H8 == 0xF000_0000_0000_0000,
        BB_F8 | BB_H8 == 0xA000_0000_0000_0000,
        BB_A8 | BB_C8 | BB_D8 | BB_E8 == 0x1D00_0000_0000_0000,
        BB_D8 | BB_A8 == 0x0900_0000_0000_0000,
{
}

/// A set that loses its lowest member becomes a smaller number.
pub proof fn lemma_pop_smaller(x: u64)
    by (bit_vector)
    requires
        x != 0,
    ensures
        x & ((x - 1) as u64) < x,
{
}

/// Which squares the sets that must be empty for castling hold.
pub proof fn lemma_castle_path_bits()
    by (bit_vector)
    ensures
        forall|i: u64| i < 64 ==> #[trigger] bit(BB_F1 | BB_G1, i) == (i == 5 || i == 6),
        forall|i: u64| i < 64 ==> #[trigger] bit(BB_D1 | BB_C1 | BB_B1, i) == (1 <= i <= 3),
        forall|i: u64| i < 64 ==> #[trigger] bit(BB_F8 | BB_G8, i) == (i == 61 || i == 62),
        forall|i: u64| i < 64 ==> #[trigger] bit(BB_D8 | BB_C8 | BB_B8, i) == (57 <= i <= 59),
{
}

/// What the number of members says of a set: none for the empty set, one
/// for a set that its lowest member exhausts, and three or more only if
/// members are left after the two lowest.
pub proof fn lemma_count_small(x: u64)
    by (bit_vector)
    ensures
        count_bits(x, 64) == 0 <==> x == 0,
        count_bits(x, 64) == 1 <==> x != 0 && x & ((x - 1) as u64) == 0,
        count_bits(x, 64) >= 3 ==> x != 0 && x & ((x - 1) as u64) != 0 && (x & ((x - 1) as u64)) & (((
        x & ((x - 1) as u64)) - 1) as u64) != 0,
{
}

/// A set of one square has one member.
pub proof fn lemma_single_count(s: u64)
    requires
        s < 64,
    ensures
        count_bits(1u64 << s, 64) == 1,
{
    let x = 1u64 << s;
    lemma_count_small(x);
    assert(x != 0 && x & ((x - 1) as u64) == 0) by (bit_vector)
        requires
            s < 64,
            x == 1u64 << s,
    ;
}

/// The step from one subset of a mask to the next: `(b - m) & m`, computed
/// with wrap-around, is the least subset of `m` above `b`, and is 0 when
/// `b` is `m` itself.
pub proof fn lemma_next_subset(b: u64, m: u64, diff: u64, next: u64)
    by (bit_vector)
    requires
        b & !m == 0,
        b >= m ==> diff == b - m,
        b < m ==> diff == b + (0xFFFF_FFFF_FFFF_FFFFu64 - m) + 1,
        next == diff & m,
    ensures
        next & !m == 0,
        b == m ==> next == 0,
        b != m ==> next > b,
        forall|c: u64| c & !m == 0 && c > b ==> b != m && c >= next,
{
}

/// Clearing the lowest set bit: for `x` other than 0, `x & (x - 1)` differs
/// from `x` in bit `t` alone, where `t` is the index of the lowest set bit.
pub proof fn lemma_lowest_bit(x: u64, t: u64)
    by (bit_vector)
    requires
        x != 0,
        t < 64,
        (x >> t) & 1 == 1,
        x << ((64 - t) as u64) == 0,
    ensures
        x & ((x - 1) as u64) == x ^ (1u64 << t),
{
}

/// The lowest set bit of a word other than 0 is at the index that
/// `trailing_zeros` gives, and `x & (x - 1)` is `x` without that bit.
pub proof fn lemma_pop_lowest(x: u64)
    requires
        x != 0,
    ensures
        u64_trailing_zeros(x) < 64,
        bit(x, u64_trailing_zeros(x) as u64),
        forall|i: u64| i < u64_trailing_zeros(x) ==> !#[trigger] bit(x, i),
        forall|i: u64|
            #[trigger] bit(x & ((x - 1) as u64), i) == (bit(x, i) && i != u64_trailing_zeros(x)),
{
    let t = u64_trailing_zeros(x) as u64;
    axiom_u64_trailing_zeros(x);
    lemma_lowest_bit(x, t);
    lemma_bit_ops();
}

/// In a word with the single bit `s`, that bit is the lowest.
pub proof fn lemma_single_lowest(s: u64)
    requires
        s < 64,
    ensures
        u64_trailing_zeros(1u64 << s) == s,
        1u64 << s != 0,
{
    let x = 1u64 << s;
    lemma_single_bit();
    lemma_bit_ops();
    lemma_pop_lowest(x);
}

/// File and rank arithmetic on a byte, as shifts and masks.
pub proof fn lemma_byte_ops()
    by (bit_vector)
    ensures
        forall|x: u8| #[trigger] (x >> 3) == x / 8,
        forall|x: u8| #[trigger] (x & 7) == x % 8,
        forall|x: u8| x < 32 ==> #[trigger] (x << 3) == x * 8,
        forall|f: u8, x: u8| f < 8 ==> #[trigger] (f | (x & 0xF8)) == f + x / 8 * 8,
{
}

/// Two words that agree on each of the 64 bits are the same word.
proof fn lemma_bits_equal_each(a: u64, b: u64)
    by (bit_vector)
    requires
        bit(a, 0) == bit(b, 0),
        bit(a, 1) == bit(b, 1),
        bit(a, 2) == bit(b, 2),
        bit(a, 3) == bit(b, 3),
        bit(a, 4) == bit(b, 4),
        bit(a, 5) == bit(b, 5),
        bit(a, 6) == bit(b, 6),
        bit(a, 7) == bit(b, 7),
        bit(a, 8) == bit(b, 8),
        bit(a, 9) == bit(b, 9),
        bit(a, 10) == bit(b, 10),
        bit(a, 11) == bit(b, 11),
        bit(a, 12) == bit(b, 12),
        bit(a, 13) == bit(b, 13),
        bit(a, 14) == bit(b, 14),
        bit(a, 15) == bit(b, 15),
        bit(a, 16) == bit(b, 16),
        bit(a, 17) == bit(b, 17),
        bit(a, 18) == bit(b, 18),
        bit(a, 19) == bit(b, 19),
        bit(a, 20) == bit(b, 20),
        bit(a, 21) == bit(b, 21),
        bit(a, 22) == bit(b, 22),
        bit(a, 23) == bit(b, 23),
        bit(a, 24) == bit(b, 24),
        bit(a, 25) == bit(b, 25),
        bit(a, 26) == bit(b, 26),
        bit(a, 27) == bit(b, 27),
        bit(a, 28) == bit(b, 28),
        bit(a, 29) == bit(b, 29),
        bit(a, 30) == bit(b, 30),
        bit(a, 31) == bit(b, 31),
        bit(a, 32) == bit(b, 32),
        bit(a, 33) == bit(b, 33),
        bit(a, 34) == bit(b, 34),
        bit(a, 35) == bit(b, 35),
        bit(a, 36) == bit(b, 36),
        bit(a, 37) == bit(b, 37),
        bit(a, 38) == bit(b, 38),
        bit(a, 39) == bit(b, 39),
        bit(a, 40) == bit(b, 40),
        bit(a, 41) == bit(b, 41),
        bit(a, 42) == bit(b, 42),
        bit(a, 43) == bit(b, 43),
        bit(a, 44) == bit(b, 44),
        bit(a, 45) == bit(b, 45),
        bit(a, 46) == bit(b, 46),
        bit(a, 47) == bit(b, 47),
        bit(a, 48) == bit(b, 48),
        bit(a, 49) == bit(b, 49),
        bit(a, 50) == bit(b, 50),
        bit(a, 51) == bit(b, 51),
        bit(a, 52) == bit(b, 52),
        bit(a, 53) == bit(b, 53),
        bit(a, 54) == bit(b, 54),
        bit(a, 55) == bit(b, 55),
        bit(a, 56) == bit(b, 56),
        bit(a, 57) == bit(b, 57),
        bit(a, 58) == bit(b, 58),
        bit(a, 59) == bit(b, 59),
        bit(a, 60) == bit(b, 60),
        bit(a, 61) == bit(b, 61),
        bit(a, 62) == bit(b, 62),
        bit(a, 63) == bit(b, 63),
    ensures
        a == b,
{
}

/// Two words with the same bits are the same word.
pub proof fn lemma_bits_equal(a: u64, b: u64)
    requires
        forall|i: u64| i < 64 ==> bit(a, i) == bit(b, i),
    ensures
        a == b,
{
    lemma_bits_equal_each(a, b);
}

} // verus!
