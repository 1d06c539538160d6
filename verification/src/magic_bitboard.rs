//! Attacks of the sliding pieces: by walking the rays square by square, and
//! by lookup in tables built from those walks and indexed by a
//! multiplicative hash of the blocking pieces.
use vstd::prelude::*;
use vstd::std_specs::bits::u64_trailing_zeros;
use crate::bitboard::BitBoard;
use crate::bitboard_constants::calc_line_segments;
use crate::bitboard_constants::calc_lines;
use crate::bitboard_constants::is_line_table;
use crate::bitboard_constants::is_segment_table;
use crate::bitboard_constants::FILE_A_I;
use crate::bitboard_constants::FILE_A_I_RANK_1_I;
use crate::bitboard_constants::FILE_A_I_RANK_8_I;
use crate::bitboard_constants::FILE_H_I;
use crate::bitboard_constants::FILE_H_I_RANK_1_I;
use crate::bitboard_constants::FILE_H_I_RANK_8_I;
use crate::bitboard_constants::RANK_1_I;
use crate::bitboard_constants::RANK_8_I;
use crate::bitboard_constants::FILE;
use crate::bitboard_constants::RANK;
use crate::bits::bit;
use crate::bits::count_bits;
use crate::bits::relevant;
use crate::bits::lemma_all_relevant;
use crate::bits::lemma_bits_equal;
use crate::bits::lemma_next_subset;
use crate::bits::lemma_rank_file_masks;
use crate::bits::lemma_relevant_count;
use crate::bits::lemma_top_bits;
use crate::bits::lemma_zero_slot;
use crate::magic_bitboard_magic_numbers::BISHOP_MAGIC_NUMBERS;
use crate::magic_bitboard_magic_numbers::ROOK_MAGIC_NUMBERS;
use crate::bits::lemma_bit_ops;
use crate::bits::lemma_edge_masks;
use crate::bits::lemma_single_bit;
use crate::bits::lemma_single_lowest;
use crate::pieces::DOWN;
use crate::pieces::DOWN_LEFT;
use crate::pieces::DOWN_RIGHT;
use crate::pieces::LEFT;
use crate::pieces::RIGHT;
use crate::pieces::UP;
use crate::pieces::UP_LEFT;
use crate::pieces::UP_RIGHT;
use crate::square::Square;
use crate::square::abs_diff;

verus! {

/// The one-square steps along files, ranks and diagonals, as differences of
/// square indices.
pub open spec fn is_direction(d: int) -> bool {
    d == 1 || d == -1 || d == 8 || d == -8 || d == 9 || d == 7 || d == -7 || d == -9
}

/// By how many files one step in direction `d` moves.
pub open spec fn dir_file(d: int) -> int {
    if d == 1 || d == 9 || d == -7 {
        1
    } else if d == -1 || d == 7 || d == -9 {
        -1
    } else {
        0
    }
}

/// By how many ranks one step in direction `d` moves.
pub open spec fn dir_rank(d: int) -> int {
    if d == 8 || d == 9 || d == 7 {
        1
    } else if d == -8 || d == -9 || d == -7 {
        -1
    } else {
        0
    }
}

/// `n` times a unit that is 1, 0 or -1.
pub open spec fn scale(unit: int, n: int) -> int {
    if unit == 1 {
        n
    } else if unit == -1 {
        -n
    } else {
        0
    }
}

/// Whether a step in direction `d` from square `c` stays on the board.
pub open spec fn can_step(c: int, d: int) -> bool {
    0 <= c % 8 + dir_file(d) < 8 && 0 <= c / 8 + dir_rank(d) < 8
}

/// The number of steps in direction `d` that lead from square `o` to square
/// `s`, or 0 where no number of steps does.
pub open spec fn ray_steps(o: int, s: int, d: int) -> int {
    let df = s % 8 - o % 8;
    let dr = s / 8 - o / 8;
    let n = if abs_diff(s % 8, o % 8) > abs_diff(s / 8, o / 8) {
        abs_diff(s % 8, o % 8)
    } else {
        abs_diff(s / 8, o / 8)
    };
    if n >= 1 && df == scale(dir_file(d), n) && dr == scale(dir_rank(d), n) {
        n
    } else {
        0
    }
}

/// Whether a slider on square `o` attacks square `s` along direction `d`
/// when the squares of `occ` are occupied: `s` lies in that direction and no
/// square strictly between the two is occupied. The first occupied square
/// is itself attacked.
pub open spec fn ray_has(o: int, d: int, occ: u64, s: int) -> bool {
    let n = ray_steps(o, s, d);
    n >= 1 && forall|t: u64| t < 64 && 1 <= #[trigger] ray_steps(o, t as int, d) < n ==> !bit(occ, t)
}

impl BitBoard {
    /// Whether the set has exactly one member.
    pub open spec fn is_single(self) -> bool {
        self.0 != 0 && self.0 == 1u64 << (u64_trailing_zeros(self.0) as u64)
    }

    /// The index of the lowest member.
    pub open spec fn lowest(self) -> int {
        u64_trailing_zeros(self.0) as int
    }
}

/// The state of a walk along a ray after `k` steps: the walk stands on
/// `cur`, has collected the squares at 1 to `k` steps in `ans`, and has met
/// no occupied square before `cur`.
spec fn walked(o: int, d: int, occ: u64, ans: u64, k: int, cur: int) -> bool {
    &&& 0 <= o < 64
    &&& 0 <= cur < 64
    &&& is_direction(d)
    &&& k >= 0
    &&& cur % 8 == o % 8 + scale(dir_file(d), k)
    &&& cur / 8 == o / 8 + scale(dir_rank(d), k)
    &&& forall|i: u64| i < 64 ==> #[trigger] bit(ans, i) == (1 <= ray_steps(o, i as int, d) <= k)
    &&& forall|t: u64| t < 64 && 1 <= #[trigger] ray_steps(o, t as int, d) < k ==> !bit(occ, t)
}

/// One more step of a walk that can go on.
#[verifier::spinoff_prover]
#[verifier::rlimit(60)]
proof fn lemma_walk_step(o: int, d: int, occ: u64, ans: u64, k: int, cur: int, next: u64)
    requires
        walked(o, d, occ, ans, k, cur),
        can_step(cur, d),
        k >= 1 ==> !bit(occ, cur as u64),
        forall|i: u64| i < 64 ==> #[trigger] bit(next, i) == (bit(ans, i) || i == cur + d),
    ensures
        0 <= cur + d < 64,
        walked(o, d, occ, next, k + 1, cur + d),
{
    assert forall|i: u64| i < 64 implies #[trigger] bit(next, i) == (1 <= ray_steps(
        o,
        i as int,
        d,
    ) <= k + 1) by {
        if ray_steps(o, i as int, d) == k + 1 {
            assert(i == cur + d);
        }
    }
    assert forall|t: u64| t < 64 && 1 <= #[trigger] ray_steps(o, t as int, d) < k + 1 implies !bit(
        occ,
        t,
    ) by {
        if ray_steps(o, t as int, d) == k {
            assert(t == cur);
        }
    }
}

/// A walk that has stopped, at the edge of the board or on an occupied
/// square, has collected exactly the squares attacked along the ray.
#[verifier::spinoff_prover]
#[verifier::rlimit(60)]
proof fn lemma_walk_done(o: int, d: int, occ: u64, ans: u64, k: int, cur: int)
    requires
        walked(o, d, occ, ans, k, cur),
        !can_step(cur, d) || (k >= 1 && bit(occ, cur as u64)),
    ensures
        forall|i: u64| i < 64 ==> #[trigger] bit(ans, i) == ray_has(o, d, occ, i as int),
{
    assert forall|i: u64| i < 64 implies #[trigger] bit(ans, i) == ray_has(o, d, occ, i as int) by {
        let n = ray_steps(o, i as int, d);
        if n > k {
            if can_step(cur, d) {
                assert(ray_steps(o, cur, d) == k);
                assert(bit(occ, cur as u64));
            }
        }
    }
}

/// Walks from `origin` in steps of `direction` while the square stood on is
/// in `range`, collecting each square stepped on, and stops after the first
/// one that is occupied.
pub fn shift_attacks(origin: BitBoard, range: BitBoard, occupancy: BitBoard, direction: i8) -> (res:
    BitBoard)
    requires
        origin.is_single(),
        is_direction(direction as int),
        forall|c: u64| c < 64 ==> #[trigger] bit(range.0, c) == can_step(c as int, direction as int),
    ensures
        forall|i: u64|
            i < 64 ==> #[trigger] bit(res.0, i) == ray_has(
                origin.lowest(),
                direction as int,
                occupancy.0,
                i as int,
            ),
{
    let ghost o = origin.lowest();
    let ghost d = direction as int;
    let ghost mut cur = o;
    let ghost mut k = 0int;
    let mut bb = origin;
    let mut ans: u64 = 0;
    proof {
        vstd::std_specs::bits::axiom_u64_trailing_zeros(origin.0);
        lemma_bit_ops();
        lemma_single_bit();
    }
    while range.intersects(bb)
        invariant_except_break
            walked(o, d, occupancy.0, ans, k, cur),
            k >= 1 ==> !bit(occupancy.0, cur as u64),
            bb.0 == 1u64 << (cur as u64),
            (range.0 & bb.0 != 0) == bit(range.0, cur as u64),
        invariant
            d == direction,
            o == origin.lowest(),
            forall|c: u64| c < 64 ==> #[trigger] bit(range.0, c) == can_step(c as int, d),
        ensures
            forall|i: u64| i < 64 ==> #[trigger] bit(ans, i) == ray_has(o, d, occupancy.0, i as int),
        decreases 8 - k,
    {
        let ghost prev = ans;
        bb = bb.shift(direction);
        ans = ans | bb.0;
        proof {
            lemma_single_bit();
            lemma_bit_ops();
            assert(can_step(cur, d));
            assert(bb.0 == 1u64 << ((cur + d) as u64));
            lemma_walk_step(o, d, occupancy.0, prev, k, cur, ans);
            cur = cur + d;
            k = k + 1;
        }
        if occupancy.intersects(bb) {
            proof {
                lemma_walk_done(o, d, occupancy.0, ans, k, cur);
            }
            break ;
        }
    }
    proof {
        if !(forall|i: u64|
            i < 64 ==> #[trigger] bit(ans, i) == ray_has(o, d, occupancy.0, i as int)) {
            lemma_walk_done(o, d, occupancy.0, ans, k, cur);
        }
    }
    BitBoard(ans)
}

/// The squares attacked from `origin` towards the a-file.
pub fn shift_attacks_left(origin: BitBoard, occupancy: BitBoard) -> (res: BitBoard)
    requires
        origin.is_single(),
    ensures
        forall|i: u64|
            i < 64 ==> #[trigger] bit(res.0, i) == ray_has(
                origin.lowest(),
                LEFT as int,
                occupancy.0,
                i as int,
            ),
{
    proof {
        lemma_edge_masks();
    }
    shift_attacks(origin, BitBoard(FILE_A_I), occupancy, LEFT)
}

/// The squares attacked from `origin` towards the h-file.
pub fn shift_attacks_right(origin: BitBoard, occupancy: BitBoard) -> (res: BitBoard)
    requires
        origin.is_single(),
    ensures
        forall|i: u64|
            i < 64 ==> #[trigger] bit(res.0, i) == ray_has(
                origin.lowest(),
                RIGHT as int,
                occupancy.0,
                i as int,
            ),
{
    proof {
        lemma_edge_masks();
    }
    shift_attacks(origin, BitBoard(FILE_H_I), occupancy, RIGHT)
}

/// The squares attacked from `origin` towards the eighth rank.
pub fn shift_attacks_up(origin: BitBoard, occupancy: BitBoard) -> (res: BitBoard)
    requires
        origin.is_single(),
    ensures
        forall|i: u64|
            i < 64 ==> #[trigger] bit(res.0, i) == ray_has(
                origin.lowest(),
                UP as int,
                occupancy.0,
                i as int,
            ),
{
    proof {
        lemma_edge_masks();
    }
    shift_attacks(origin, BitBoard(RANK_8_I), occupancy, UP)
}

/// The squares attacked from `origin` towards the first rank.
pub fn shift_attacks_down(origin: BitBoard, occupancy: BitBoard) -> (res: BitBoard)
    requires
        origin.is_single(),
    ensures
        forall|i: u64|
            i < 64 ==> #[trigger] bit(res.0, i) == ray_has(
                origin.lowest(),
                DOWN as int,
                occupancy.0,
                i as int,
            ),
{
    proof {
        lemma_edge_masks();
    }
    shift_attacks(origin, BitBoard(RANK_1_I), occupancy, DOWN)
}

/// The squares attacked from `origin` up and to the left.
pub fn shift_attacks_up_left(origin: BitBoard, occupancy: BitBoard) -> (res: BitBoard)
    requires
        origin.is_single(),
    ensures
        forall|i: u64|
            i < 64 ==> #[trigger] bit(res.0, i) == ray_has(
                origin.lowest(),
                UP_LEFT as int,
                occupancy.0,
                i as int,
            ),
{
    proof {
        lemma_edge_masks();
    }
    shift_attacks(origin, BitBoard(FILE_A_I_RANK_8_I), occupancy, UP_LEFT)
}

/// The squares attacked from `origin` up and to the right.
pub fn shift_attacks_up_right(origin: BitBoard, occupancy: BitBoard) -> (res: BitBoard)
    requires
        origin.is_single(),
    ensures
        forall|i: u64|
            i < 64 ==> #[trigger] bit(res.0, i) == ray_has(
                origin.lowest(),
                UP_RIGHT as int,
                occupancy.0,
                i as int,
            ),
{
    proof {
        lemma_edge_masks();
    }
    shift_attacks(origin, BitBoard(FILE_H_I_RANK_8_I), occupancy, UP_RIGHT)
}

/// The squares attacked from `origin` down and to the left.
pub fn shift_attacks_down_left(origin: BitBoard, occupancy: BitBoard) -> (res: BitBoard)
    requires
        origin.is_single(),
    ensures
        forall|i: u64|
            i < 64 ==> #[trigger] bit(res.0, i) == ray_has(
                origin.lowest(),
                DOWN_LEFT as int,
                occupancy.0,
                i as int,
            ),
{
    proof {
        lemma_edge_masks();
    }
    shift_attacks(origin, BitBoard(FILE_A_I_RANK_1_I), occupancy, DOWN_LEFT)
}

/// The squares attacked from `origin` down and to the right.
pub fn shift_attacks_down_right(origin: BitBoard, occupancy: BitBoard) -> (res: BitBoard)
    requires
        origin.is_single(),
    ensures
        forall|i: u64|
            i < 64 ==> #[trigger] bit(res.0, i) == ray_has(
                origin.lowest(),
                DOWN_RIGHT as int,
                occupancy.0,
                i as int,
            ),
{
    proof {
        lemma_edge_masks();
    }
    shift_attacks(origin, BitBoard(FILE_H_I_RANK_1_I), occupancy, DOWN_RIGHT)
}

/// Whether a rook on `o` attacks `s` when the squares of `occ` are
/// occupied: along a rank or a file, up to and including the first occupied
/// square.
pub open spec fn rook_ray_has(o: int, occ: u64, s: int) -> bool {
    ray_has(o, 8, occ, s) || ray_has(o, -8, occ, s) || ray_has(o, -1, occ, s) || ray_has(
        o,
        1,
        occ,
        s,
    )
}

/// Whether a bishop on `o` attacks `s` when the squares of `occ` are
/// occupied: along a diagonal, up to and including the first occupied
/// square.
pub open spec fn bishop_ray_has(o: int, occ: u64, s: int) -> bool {
    ray_has(o, 7, occ, s) || ray_has(o, 9, occ, s) || ray_has(o, -9, occ, s) || ray_has(
        o,
        -7,
        occ,
        s,
    )
}

/// The rook attacks from `origin`, found by walking the four rays.
pub fn calc_rook_attacks(origin: BitBoard, occupancy: BitBoard) -> (res: BitBoard)
    requires
        origin.is_single(),
    ensures
        forall|i: u64|
            i < 64 ==> #[trigger] bit(res.0, i) == rook_ray_has(
                origin.lowest(),
                occupancy.0,
                i as int,
            ),
{
    proof {
        lemma_bit_ops();
    }
    BitBoard(
        shift_attacks_up(origin, occupancy).0 | shift_attacks_down(origin, occupancy).0
            | shift_attacks_left(origin, occupancy).0 | shift_attacks_right(origin, occupancy).0,
    )
}

/// The bishop attacks from `origin`, found by walking the four rays.
pub fn calc_bishop_attacks(origin: BitBoard, occupancy: BitBoard) -> (res: BitBoard)
    requires
        origin.is_single(),
    ensures
        forall|i: u64|
            i < 64 ==> #[trigger] bit(res.0, i) == bishop_ray_has(
                origin.lowest(),
                occupancy.0,
                i as int,
            ),
{
    proof {
        lemma_bit_ops();
    }
    BitBoard(
        shift_attacks_up_left(origin, occupancy).0 | shift_attacks_up_right(origin, occupancy).0
            | shift_attacks_down_left(origin, occupancy).0 | shift_attacks_down_right(
            origin,
            occupancy,
        ).0,
    )
}

/// Whether a slider on `o`, a bishop if `diagonal` and a rook otherwise,
/// attacks `s` when the squares of `occ` are occupied.
pub open spec fn slider_has(diagonal: bool, o: int, occ: u64, s: int) -> bool {
    if diagonal {
        bishop_ray_has(o, occ, s)
    } else {
        rook_ray_has(o, occ, s)
    }
}

/// Whether `c` is a subset of `m`.
pub open spec fn is_subset(c: u64, m: u64) -> bool {
    c & !m == 0
}

/// Whether `m` is the set of the squares that are relevant to a slider on
/// `sq`: those whose occupancy can change what it attacks.
pub open spec fn is_relevant_mask(m: u64, sq: int, diagonal: bool) -> bool {
    forall|i: u64| i < 64 ==> #[trigger] bit(m, i) == relevant(i, sq as u64, diagonal)
}

/// Whether `v` lists every subset of `m` once, in ascending order.
pub open spec fn enumerates(v: Seq<BitBoard>, m: u64) -> bool {
    &&& v.len() >= 1
    &&& v[0].0 == 0
    &&& forall|j: int| 0 <= j < v.len() ==> is_subset(#[trigger] v[j].0, m)
    &&& forall|j: int, k: int| 0 <= j < k < v.len() ==> #[trigger] v[j].0 < #[trigger] v[k].0
    &&& forall|c: u64| is_subset(c, m) ==> exists|j: int| 0 <= j < v.len() && #[trigger] v[j].0 == c
}

/// All subsets of `attack_mask`, from the empty set upwards: each is found
/// from the one before as `(b - m) & m`.
pub fn partitions(attack_mask: BitBoard) -> (res: Vec<BitBoard>)
    ensures
        enumerates(res@, attack_mask.0),
{
    let m = attack_mask.0;
    let mut ans: Vec<BitBoard> = Vec::new();
    let mut bb: u64 = 0;
    proof {
        lemma_bit_ops();
        assert(0u64 & !m == 0) by (bit_vector);
    }
    loop
        invariant_except_break
            is_subset(bb, m),
            forall|j: int| 0 <= j < ans@.len() ==> is_subset(#[trigger] ans@[j].0, m),
            forall|j: int| 0 <= j < ans@.len() ==> (#[trigger] ans@[j]).0 < bb,
            forall|j: int, k: int|
                0 <= j < k < ans@.len() ==> #[trigger] ans@[j].0 < #[trigger] ans@[k].0,
            forall|c: u64|
                is_subset(c, m) && c < bb ==> exists|j: int|
                    0 <= j < ans@.len() && #[trigger] ans@[j].0 == c,
            ans@.len() == 0 ==> bb == 0,
            ans@.len() > 0 ==> ans@[0].0 == 0,
        ensures
            enumerates(ans@, m),
        decreases 0xFFFF_FFFF_FFFF_FFFFu64 - bb,
    {
        let ghost before = ans@;
        ans.push(BitBoard(bb));
        let diff = bb.wrapping_sub(m);
        let next = diff & m;
        proof {
            lemma_next_subset(bb, m, diff, next);
        }
        if next == 0 {
            proof {
                assert forall|c: u64| is_subset(c, m) implies exists|j: int|
                    0 <= j < ans@.len() && #[trigger] ans@[j].0 == c by {
                    if c < bb {
                        let j = choose|j: int| 0 <= j < before.len() && #[trigger] before[j].0 == c;
                        assert(ans@[j].0 == c);
                    } else if c == bb {
                        assert(ans@[ans@.len() - 1].0 == c);
                    } else {
                        assert(bb != m && c >= next);
                        assert(next > bb);
                    }
                }
            }
            break ;
        }
        proof {
            assert forall|c: u64| is_subset(c, m) && c < next implies exists|j: int|
                0 <= j < ans@.len() && #[trigger] ans@[j].0 == c by {
                if c < bb {
                    let j = choose|j: int| 0 <= j < before.len() && #[trigger] before[j].0 == c;
                    assert(ans@[j].0 == c);
                } else if c == bb {
                    assert(ans@[ans@.len() - 1].0 == c);
                }
            }
        }
        bb = next;
    }
    ans
}

/// The squares that lie off the outer ranks and files, or on the rank or
/// file of `sq`.
pub open spec fn range_of(sq: Square) -> u64 {
    ((RANK_8_I & RANK_1_I) | RANK[sq.spec_rank()]) & ((FILE_A_I & FILE_H_I) | FILE[sq.spec_file()])
}

/// The set of `range_of`.
pub fn relevant_range(sq: Square) -> (res: BitBoard)
    requires
        sq.valid(),
    ensures
        res.0 == range_of(sq),
        forall|i: u64|
            i < 64 ==> #[trigger] bit(res.0, i) == (((i / 8 != 0 && i / 8 != 7) || i / 8 == sq.0 / 8)
                && ((i % 8 != 0 && i % 8 != 7) || i % 8 == sq.0 % 8)),
{
    proof {
        lemma_bit_ops();
        lemma_edge_masks();
        lemma_rank_file_masks();
    }
    let rank = RANK[sq.rank() as usize];
    let file = FILE[sq.file() as usize];
    BitBoard(((RANK_8_I & RANK_1_I) | rank) & ((FILE_A_I & FILE_H_I) | file))
}

/// Whether `row` lists every subset of the squares relevant to a slider on
/// `sq`.
pub open spec fn is_occupancy_row(row: Seq<BitBoard>, sq: int, diagonal: bool) -> bool {
    exists|m: u64| is_relevant_mask(m, sq, diagonal) && #[trigger] enumerates(row, m)
}

/// Whether `t` holds such a list for each square.
pub open spec fn is_occupancy_table(t: Seq<Vec<BitBoard>>, diagonal: bool) -> bool {
    &&& t.len() == 64
    &&& forall|sq: int| 0 <= sq < 64 ==> #[trigger] is_occupancy_row(t[sq]@, sq, diagonal)
}

/// For each square, every set of blockers that matters to a rook on it.
pub fn rook_occupancies() -> (res: Vec<Vec<BitBoard>>)
    ensures
        is_occupancy_table(res@, false),
{
    let mut ans: Vec<Vec<BitBoard>> = Vec::new();
    let mut i: u8 = 0;
    while i < 64
        invariant
            i <= 64,
            ans@.len() == i,
            forall|sq: int| 0 <= sq < i ==> #[trigger] is_occupancy_row(ans@[sq]@, sq, false),
        decreases 64 - i,
    {
        let sq = Square(i);
        let rank = RANK[sq.rank() as usize];
        let file = FILE[sq.file() as usize];
        let range = relevant_range(sq);
        let attack_mask = BitBoard((file | rank) & (range.0 & !(1u64 << i)));
        proof {
            lemma_bit_ops();
            lemma_rank_file_masks();
            assert(is_relevant_mask(attack_mask.0, i as int, false));
        }
        let subsets = partitions(attack_mask);
        assert(enumerates(subsets@, attack_mask.0));
        ans.push(subsets);
        i += 1;
    }
    ans
}

/// For each square, every set of blockers that matters to a bishop on it.
pub fn bishop_occupancies() -> (res: Vec<Vec<BitBoard>>)
    ensures
        is_occupancy_table(res@, true),
{
    let mut ans: Vec<Vec<BitBoard>> = Vec::new();
    let mut i: u8 = 0;
    while i < 64
        invariant
            i <= 64,
            ans@.len() == i,
            forall|sq: int| 0 <= sq < i ==> #[trigger] is_occupancy_row(ans@[sq]@, sq, true),
        decreases 64 - i,
    {
        let sq = Square(i);
        let origin = BitBoard::from_square(sq);
        let range = relevant_range(sq);
        proof {
            lemma_single_lowest(i as u64);
        }
        let reach = calc_bishop_attacks(origin, BitBoard(0));
        let attack_mask = BitBoard(reach.0 & (range.0 & !(1u64 << i)));
        proof {
            lemma_bit_ops();
            assert forall|t: u64| t < 64 implies #[trigger] bit(attack_mask.0, t) == relevant(
                t,
                i as u64,
                true,
            ) by {
                assert(bit(reach.0, t) == bishop_ray_has(i as int, 0, t as int));
            }
            assert(is_relevant_mask(attack_mask.0, i as int, true));
        }
        let subsets = partitions(attack_mask);
        assert(enumerates(subsets@, attack_mask.0));
        ans.push(subsets);
        i += 1;
    }
    ans
}

/// Whether `attacks` holds, for each square and each set of blockers in
/// `occupancies`, what a slider on that square then attacks.
pub open spec fn is_attack_table(
    attacks: Seq<Vec<BitBoard>>,
    occupancies: Seq<Vec<BitBoard>>,
    diagonal: bool,
) -> bool {
    &&& attacks.len() == 64
    &&& occupancies.len() == 64
    &&& forall|sq: int| 0 <= sq < 64 ==> (#[trigger] attacks[sq]).len() == occupancies[sq].len()
    &&& forall|sq: int, j: int, s: u64|
        0 <= sq < 64 && 0 <= j < occupancies[sq].len() && s < 64 ==> #[trigger] bit(
            attacks[sq][j].0,
            s,
        ) == slider_has(diagonal, sq, occupancies[sq][j].0, s as int)
}

/// The attacks of a slider from each square under each set of blockers of
/// `occupancies`, found by walking the rays.
fn calc_all_attacks(occupancies: &Vec<Vec<BitBoard>>, diagonal: bool) -> (res: Vec<Vec<BitBoard>>)
    requires
        occupancies@.len() == 64,
    ensures
        is_attack_table(res@, occupancies@, diagonal),
{
    let mut ans: Vec<Vec<BitBoard>> = Vec::new();
    let mut i: u8 = 0;
    while i < 64
        invariant
            i <= 64,
            occupancies@.len() == 64,
            ans@.len() == i,
            forall|sq: int| 0 <= sq < i ==> (#[trigger] ans@[sq]).len() == occupancies@[sq].len(),
            forall|sq: int, j: int, s: u64|
                0 <= sq < i && 0 <= j < occupancies@[sq].len() && s < 64 ==> #[trigger] bit(
                    ans@[sq][j].0,
                    s,
                ) == slider_has(diagonal, sq, occupancies@[sq][j].0, s as int),
        decreases 64 - i,
    {
        let origin = BitBoard::from_square(Square(i));
        proof {
            lemma_single_lowest(i as u64);
        }
        let row_in = &occupancies[i as usize];
        let mut row: Vec<BitBoard> = Vec::new();
        let mut j: usize = 0;
        while j < row_in.len()
            invariant
                j <= row_in@.len(),
                row@.len() == j,
                origin.is_single(),
                origin.lowest() == i,
                forall|k: int, s: u64|
                    0 <= k < j && s < 64 ==> #[trigger] bit(row@[k].0, s) == slider_has(
                        diagonal,
                        i as int,
                        row_in@[k].0,
                        s as int,
                    ),
            decreases row_in@.len() - j,
        {
            let occupancy = row_in[j];
            let attacks = if diagonal {
                calc_bishop_attacks(origin, occupancy)
            } else {
                calc_rook_attacks(origin, occupancy)
            };
            row.push(attacks);
            j += 1;
        }
        ans.push(row);
        i += 1;
    }
    ans
}

/// The rook attacks from each square under each set of blockers of
/// `occupancies`.
pub fn calc_all_rook_attacks(occupancies: &Vec<Vec<BitBoard>>) -> (res: Vec<Vec<BitBoard>>)
    requires
        occupancies@.len() == 64,
    ensures
        is_attack_table(res@, occupancies@, false),
{
    calc_all_attacks(occupancies, false)
}

/// The bishop attacks from each square under each set of blockers of
/// `occupancies`.
pub fn calc_all_bishop_attacks(occupancies: &Vec<Vec<BitBoard>>) -> (res: Vec<Vec<BitBoard>>)
    requires
        occupancies@.len() == 64,
    ensures
        is_attack_table(res@, occupancies@, true),
{
    calc_all_attacks(occupancies, true)
}

/// The largest number of squares relevant to one square.
pub const MAX_RELEVANT: u32 = 12;

/// The size of a table with the largest part for each of the 64 squares.
pub const ATTACK_TABLE_SIZE: usize = 262144;

/// How the part of the attack table that belongs to one square is found
/// and indexed.
#[derive(Copy, Clone, Debug)]
pub struct SquareMagic {
    /// Where the part begins in the table.
    pub attack_table_start: usize,
    /// The squares whose occupancy matters.
    pub attack_mask: BitBoard,
    /// The multiplier of the hash.
    pub magic_number: u64,
    /// By how much the product is shifted down: 64 less the number of
    /// squares in the mask.
    pub shift: i32,
}

impl SquareMagic {
    pub fn new() -> (res: SquareMagic)
        ensures
            res.attack_table_start == 0,
            res.attack_mask.0 == 0,
            res.magic_number == 0,
            res.shift == 0,
    {
        SquareMagic { attack_table_start: 0, attack_mask: BitBoard(0), magic_number: 0, shift: 0 }
    }

    pub fn with(attack_table_start: usize, attack_mask: u64, magic_number: u64, shift: i32) -> (res:
        SquareMagic)
        ensures
            res.attack_table_start == attack_table_start,
            res.attack_mask.0 == attack_mask,
            res.magic_number == magic_number,
            res.shift == shift,
    {
        SquareMagic { attack_table_start, attack_mask: BitBoard(attack_mask), magic_number, shift }
    }

    /// The slot of the occupancy `occ` within the square's part: the
    /// relevant squares of `occ`, multiplied by the magic number with
    /// wrap-around, and the product shifted down. With a shift of 64 there
    /// is one slot, slot 0.
    pub open spec fn slot(self, occ: u64) -> int {
        if 0 <= self.shift < 64 {
            ((occ & self.attack_mask.0).wrapping_mul(self.magic_number) >> (self.shift as u64)) as int
        } else {
            0
        }
    }

    /// The place in the table for the occupancy `occ`.
    pub open spec fn index(self, occ: u64) -> int {
        self.attack_table_start + self.slot(occ)
    }

    /// The number of slots of the square's part.
    pub open spec fn slots(self) -> int {
        (1u64 << ((64 - self.shift) as u64)) as int
    }
}

/// The attacks of one kind of slider from every square under every
/// occupancy, as a table with one part per square.
#[derive(Debug)]
pub struct MagicTable {
    pub attack_table: Vec<BitBoard>,
    pub square_magics: Vec<SquareMagic>,
}

impl MagicTable {
    /// There is a record for each square, and every occupancy leads to a
    /// place inside the table.
    pub open spec fn wf(&self) -> bool {
        &&& self.square_magics@.len() == 64
        &&& forall|sq: int|
            0 <= sq < 64 ==> 52 <= (#[trigger] self.square_magics@[sq]).shift <= 64
        &&& forall|sq: int, occ: u64|
            0 <= sq < 64 ==> 0 <= #[trigger] self.square_magics@[sq].index(occ)
                < self.attack_table@.len()
    }

    /// What the table holds for a slider on `sq` under the occupancy `occ`.
    pub open spec fn lookup(&self, sq: int, occ: u64) -> BitBoard {
        self.attack_table@[self.square_magics@[sq].index(occ)]
    }

    /// A table of `size` empty sets with a blank record for each square.
    pub fn with_size(size: usize) -> (res: MagicTable)
        ensures
            res.attack_table@.len() == size,
            forall|i: int| 0 <= i < size ==> (#[trigger] res.attack_table@[i]).0 == 0,
            res.square_magics@.len() == 64,
    {
        let mut attack_table: Vec<BitBoard> = Vec::new();
        let mut i: usize = 0;
        while i < size
            invariant
                i <= size,
                attack_table@.len() == i,
                forall|k: int| 0 <= k < i ==> (#[trigger] attack_table@[k]).0 == 0,
            decreases size - i,
        {
            attack_table.push(BitBoard(0));
            i += 1;
        }
        let mut square_magics: Vec<SquareMagic> = Vec::new();
        let mut sq: usize = 0;
        while sq < 64
            invariant
                sq <= 64,
                square_magics@.len() == sq,
            decreases 64 - sq,
        {
            square_magics.push(SquareMagic::new());
            sq += 1;
        }
        MagicTable { attack_table, square_magics }
    }

    /// The place in the table for a slider on `origin` under `occupancy`.
    pub fn get_table_index(&self, origin: Square, occupancy: BitBoard) -> (res: usize)
        requires
            self.wf(),
            origin.valid(),
        ensures
            res == self.square_magics@[origin.idx()].index(occupancy.0),
            res < self.attack_table@.len(),
    {
        let magic = &self.square_magics[origin.0 as usize];
        let product = (occupancy.0 & magic.attack_mask.0).wrapping_mul(magic.magic_number);
        proof {
            assert(0 <= magic.index(occupancy.0) < self.attack_table@.len());
            lemma_top_bits();
        }
        if magic.shift < 64 {
            let slot = product >> (magic.shift as u64);
            assert(magic.attack_table_start + slot < self.attack_table.len());
            magic.attack_table_start + slot as usize
        } else {
            magic.attack_table_start
        }
    }

    /// The attacks of a slider on `origin` when the squares of `occupancy`
    /// are occupied, by lookup.
    pub fn attacks(&self, origin: Square, occupancy: BitBoard) -> (res: BitBoard)
        requires
            self.wf(),
            origin.valid(),
        ensures
            res == self.lookup(origin.idx(), occupancy.0),
    {
        self.attack_table[self.get_table_index(origin, occupancy)]
    }

    /// The attacks of a slider on `origin` on an otherwise empty board.
    pub fn attacks_empty(&self, origin: Square) -> (res: BitBoard)
        requires
            self.wf(),
            origin.valid(),
        ensures
            res == self.lookup(origin.idx(), 0),
    {
        let magic = &self.square_magics[origin.0 as usize];
        proof {
            assert(0 <= magic.index(0) < self.attack_table@.len());
            if magic.shift < 64 {
                lemma_zero_slot(magic.attack_mask.0, magic.magic_number, magic.shift as u64);
            }
        }
        self.attack_table[magic.attack_table_start]
    }
}

/// The mask that the table's construction derives for `sq`: what the
/// slider attacks on the empty board, the first entry of its row, within
/// `range_of(sq)`.
pub open spec fn mask_from(all_attacks: Seq<Vec<BitBoard>>, sq: int) -> u64 {
    all_attacks[sq][0].0 & range_of(Square(sq as u8))
}

/// The number of slots of the parts of the squares before `sq`.
pub open spec fn slots_before(all_attacks: Seq<Vec<BitBoard>>, sq: int) -> int
    decreases sq,
{
    if sq <= 0 {
        0
    } else {
        slots_before(all_attacks, sq - 1) + (1u64 << count_bits(
            mask_from(all_attacks, sq - 1),
            64,
        )) as int
    }
}

/// The record of `sq` in the table built from `all_attacks` and
/// `magic_numbers`.
pub open spec fn magic_for(all_attacks: Seq<Vec<BitBoard>>, magic_numbers: Seq<u64>, sq: int)
    -> SquareMagic {
    SquareMagic {
        attack_table_start: slots_before(all_attacks, sq) as usize,
        attack_mask: BitBoard(mask_from(all_attacks, sq)),
        magic_number: magic_numbers[sq],
        shift: (64 - count_bits(mask_from(all_attacks, sq), 64)) as i32,
    }
}

/// Whether the place of `occupancies[j]` in `table` holds `attacks[k]` for
/// some `k` from `j` to below `upto` whose occupancy has the same place:
/// the last one written there.
pub open spec fn row_filled(
    table: Seq<BitBoard>,
    magic: SquareMagic,
    occupancies: Seq<BitBoard>,
    attacks: Seq<BitBoard>,
    j: int,
    upto: int,
) -> bool {
    exists|k: int|
        j <= k < upto && magic.index(#[trigger] occupancies[k].0) == magic.index(occupancies[j].0)
            && table[magic.index(occupancies[j].0)] == attacks[k]
}

/// The parts of the table grow with the squares, each by 1 to 4096 slots.
proof fn lemma_slots_grow(all_attacks: Seq<Vec<BitBoard>>, a: int, b: int)
    requires
        0 <= a <= b <= 64,
        forall|sq: int|
            0 <= sq < 64 ==> count_bits(#[trigger] mask_from(all_attacks, sq), 64) <= 12,
    ensures
        0 <= slots_before(all_attacks, a) <= slots_before(all_attacks, b) <= 4096 * b,
        slots_before(all_attacks, b) - slots_before(all_attacks, a) >= b - a,
    decreases b,
{
    lemma_top_bits();
    if b > 0 {
        assert(count_bits(mask_from(all_attacks, b - 1), 64) <= 12);
        if a < b {
            lemma_slots_grow(all_attacks, a, b - 1);
        } else {
            lemma_slots_grow(all_attacks, a - 1, b - 1);
        }
    }
}

/// Writes the attacks of one square into its part of the table, each at the
/// place of its occupancy.
fn fill_part(
    table: &mut Vec<BitBoard>,
    magic: &SquareMagic,
    occupancies: &Vec<BitBoard>,
    attacks: &Vec<BitBoard>,
)
    requires
        52 <= magic.shift <= 64,
        magic.attack_table_start + magic.slots() <= old(table)@.len(),
        occupancies@.len() == attacks@.len(),
    ensures
        final(table)@.len() == old(table)@.len(),
        forall|i: int|
            0 <= i < old(table)@.len() && !(magic.attack_table_start <= i < magic.attack_table_start
                + magic.slots()) ==> #[trigger] final(table)@[i] == old(table)@[i],
        forall|j: int|
            0 <= j < occupancies@.len() ==> #[trigger] row_filled(
                final(table)@,
                *magic,
                occupancies@,
                attacks@,
                j,
                occupancies@.len() as int,
            ),
{
    let n = occupancies.len();
    let mut j: usize = 0;
    proof {
        lemma_top_bits();
    }
    while j < n
        invariant
            j <= n,
            n == occupancies@.len(),
            n == attacks@.len(),
            52 <= magic.shift <= 64,
            magic.attack_table_start + magic.slots() <= table@.len(),
            table@.len() == old(table)@.len(),
            forall|i: int|
                0 <= i < table@.len() && !(magic.attack_table_start <= i < magic.attack_table_start
                    + magic.slots()) ==> #[trigger] table@[i] == old(table)@[i],
            forall|k: int|
                0 <= k < j ==> #[trigger] row_filled(
                    table@,
                    *magic,
                    occupancies@,
                    attacks@,
                    k,
                    j as int,
                ),
        decreases n - j,
    {
        let occupancy = occupancies[j];
        let product = (occupancy.0 & magic.attack_mask.0).wrapping_mul(magic.magic_number);
        proof {
            lemma_top_bits();
        }
        let slot = if magic.shift < 64 {
            (product >> (magic.shift as u64)) as usize
        } else {
            0
        };
        assert(slot == magic.slot(occupancy.0));
        assert(magic.attack_table_start + slot < table.len());
        let table_index = magic.attack_table_start + slot;
        let ghost before = table@;
        table.set(table_index, attacks[j]);
        proof {
            assert forall|k: int| 0 <= k < j + 1 implies #[trigger] row_filled(
                table@,
                *magic,
                occupancies@,
                attacks@,
                k,
                j + 1,
            ) by {
                if k < j && magic.index(occupancies@[k].0) != table_index {
                    assert(row_filled(before, *magic, occupancies@, attacks@, k, j as int));
                    let w = choose|w: int|
                        k <= w < j && magic.index(#[trigger] occupancies@[w].0) == magic.index(
                            occupancies@[k].0,
                        ) && before[magic.index(occupancies@[k].0)] == attacks@[w];
                    assert(magic.index(occupancies@[w].0) == magic.index(occupancies@[k].0)
                        && table@[magic.index(occupancies@[k].0)] == attacks@[w]);
                } else {
                    assert(magic.index(occupancies@[j as int].0) == magic.index(occupancies@[k].0)
                        && table@[magic.index(occupancies@[k].0)] == attacks@[j as int]);
                }
            }
        }
        j += 1;
    }
}

/// What the construction of a table needs of its inputs: a row of
/// occupancies and a row of attacks of the same length for each square,
/// neither empty, and at most twelve squares in each derived mask.
pub open spec fn table_inputs_fit(
    occupancies: Seq<Vec<BitBoard>>,
    all_attacks: Seq<Vec<BitBoard>>,
) -> bool {
    &&& occupancies.len() == 64
    &&& all_attacks.len() == 64
    &&& forall|sq: int|
        0 <= sq < 64 ==> (#[trigger] all_attacks[sq]).len() == occupancies[sq].len()
            && all_attacks[sq].len() >= 1
    &&& forall|sq: int|
        0 <= sq < 64 ==> count_bits(#[trigger] mask_from(all_attacks, sq), 64) <= 12
}

/// Whether `table` is what the construction makes of its inputs: the
/// record of each square as `magic_for` gives it, and at the place of each
/// occupancy the attacks that were written there last.
pub open spec fn is_magic_table(
    table: MagicTable,
    occupancies: Seq<Vec<BitBoard>>,
    all_attacks: Seq<Vec<BitBoard>>,
    magic_numbers: Seq<u64>,
) -> bool {
    &&& table.wf()
    &&& table.attack_table@.len() == slots_before(all_attacks, 64)
    &&& forall|sq: int|
        0 <= sq < 64 ==> #[trigger] table.square_magics@[sq] == magic_for(
            all_attacks,
            magic_numbers,
            sq,
        )
    &&& forall|sq: int, j: int|
        0 <= sq < 64 && 0 <= j < occupancies[sq].len() ==> #[trigger] row_filled(
            table.attack_table@,
            table.square_magics@[sq],
            occupancies[sq]@,
            all_attacks[sq]@,
            j,
            occupancies[sq].len() as int,
        )
}

/// Builds the table of a slider: the part of each square has one slot for
/// each subset of its mask, and the attacks under each given occupancy are
/// stored at the slot to which the occupancy hashes.
pub fn create_magic_table(
    occupancies: &Vec<Vec<BitBoard>>,
    all_attacks: &Vec<Vec<BitBoard>>,
    magic_numbers: &[u64; 64],
) -> (res: MagicTable)
    requires
        table_inputs_fit(occupancies@, all_attacks@),
    ensures
        is_magic_table(res, occupancies@, all_attacks@, magic_numbers@),
{
    let mut table_size: usize = 0;
    let mut sq: usize = 0;
    while sq < 64
        invariant
            sq <= 64,
            table_inputs_fit(occupancies@, all_attacks@),
            table_size == slots_before(all_attacks@, sq as int),
        decreases 64 - sq,
    {
        proof {
            lemma_slots_grow(all_attacks@, sq as int, sq + 1);
            lemma_top_bits();
        }
        let mask = all_attacks[sq][0].intersection(relevant_range(Square(sq as u8)));
        assert(mask.0 == mask_from(all_attacks@, sq as int));
        let bits = mask.num_squares();
        table_size += (1u64 << bits) as usize;
        sq += 1;
    }
    let mut ans = MagicTable::with_size(table_size);
    let mut last_size: usize = 0;
    let mut square_index: usize = 0;
    while square_index < 64
        invariant
            square_index <= 64,
            table_inputs_fit(occupancies@, all_attacks@),
            ans.attack_table@.len() == slots_before(all_attacks@, 64),
            ans.square_magics@.len() == 64,
            last_size == slots_before(all_attacks@, square_index as int),
            forall|s2: int|
                0 <= s2 < square_index ==> #[trigger] ans.square_magics@[s2] == magic_for(
                    all_attacks@,
                    magic_numbers@,
                    s2,
                ),
            forall|s2: int, j: int|
                0 <= s2 < square_index && 0 <= j < occupancies@[s2].len() ==> #[trigger] row_filled(
                    ans.attack_table@,
                    magic_for(all_attacks@, magic_numbers@, s2),
                    occupancies@[s2]@,
                    all_attacks@[s2]@,
                    j,
                    occupancies@[s2].len() as int,
                ),
        decreases 64 - square_index,
    {
        let square = Square(square_index as u8);
        let attack_mask = all_attacks[square_index][0].intersection(relevant_range(square));
        assert(attack_mask.0 == mask_from(all_attacks@, square_index as int));
        let bits = attack_mask.num_squares();
        proof {
            lemma_slots_grow(all_attacks@, square_index as int, square_index + 1);
            lemma_slots_grow(all_attacks@, square_index + 1, 64);
            lemma_top_bits();
        }
        let magic = SquareMagic {
            attack_table_start: last_size,
            attack_mask,
            magic_number: magic_numbers[square_index],
            shift: 64 - bits as i32,
        };
        assert(magic == magic_for(all_attacks@, magic_numbers@, square_index as int));
        ans.square_magics.set(square_index, magic);
        last_size += (1u64 << bits) as usize;
        let ghost before = ans.attack_table@;
        fill_part(
            &mut ans.attack_table,
            &magic,
            &occupancies[square_index],
            &all_attacks[square_index],
        );
        proof {
            assert forall|s2: int, j: int|
                0 <= s2 < square_index && 0 <= j < occupancies@[s2].len() implies #[trigger] row_filled(
                ans.attack_table@,
                magic_for(all_attacks@, magic_numbers@, s2),
                occupancies@[s2]@,
                all_attacks@[s2]@,
                j,
                occupancies@[s2].len() as int,
            ) by {
                let m2 = magic_for(all_attacks@, magic_numbers@, s2);
                let occ = occupancies@[s2]@;
                let att = all_attacks@[s2]@;
                lemma_slots_grow(all_attacks@, s2, s2 + 1);
                lemma_slots_grow(all_attacks@, s2 + 1, square_index as int);
                assert(row_filled(before, m2, occ, att, j, occ.len() as int));
                let w = choose|w: int|
                    j <= w < occ.len() && m2.index(#[trigger] occ[w].0) == m2.index(occ[j].0)
                        && before[m2.index(occ[j].0)] == att[w];
                lemma_slot_in_part(m2, occ[j].0);
                assert(m2.index(occ[w].0) == m2.index(occ[j].0) && ans.attack_table@[m2.index(
                    occ[j].0,
                )] == att[w]);
            }
        }
        square_index += 1;
    }
    proof {
        assert forall|sq: int, occ: u64| 0 <= sq < 64 implies 0 <= #[trigger] ans.square_magics@[sq].index(
            occ,
        ) < ans.attack_table@.len() by {
            lemma_slots_grow(all_attacks@, sq, sq + 1);
            lemma_slots_grow(all_attacks@, sq + 1, 64);
            lemma_top_bits();
            lemma_slot_in_part(ans.square_magics@[sq], occ);
        }
        assert forall|sq: int| 0 <= sq < 64 implies 52 <= (#[trigger] ans.square_magics@[sq]).shift
            <= 64 by {
            assert(count_bits(mask_from(all_attacks@, sq), 64) <= 12);
        }
    }
    ans
}

/// Every occupancy has its slot within the part of its square.
pub proof fn lemma_slot_in_part(magic: SquareMagic, occ: u64)
    requires
        52 <= magic.shift <= 64,
    ensures
        0 <= magic.slot(occ) < magic.slots(),
        magic.slots() <= 4096,
{
    lemma_top_bits();
}

/// Whether no two occupancies of a row that share a place in the table
/// differ in their attacks.
pub open spec fn no_harmful_collision(
    magic: SquareMagic,
    occupancies: Seq<BitBoard>,
    attacks: Seq<BitBoard>,
) -> bool {
    forall|j: int, k: int|
        0 <= j < occupancies.len() && 0 <= k < occupancies.len() && magic.index(
            #[trigger] occupancies[j].0,
        ) == magic.index(#[trigger] occupancies[k].0) ==> attacks[j] == attacks[k]
}

/// Where no two occupancies of a square collide harmfully, the table built
/// from the rows gives back, for each occupancy of the row, the attacks
/// stored for it.
pub proof fn lemma_lookup_enumerated(
    table: MagicTable,
    occupancies: Seq<Vec<BitBoard>>,
    all_attacks: Seq<Vec<BitBoard>>,
    magic_numbers: Seq<u64>,
    sq: int,
    j: int,
)
    requires
        table_inputs_fit(occupancies, all_attacks),
        is_magic_table(table, occupancies, all_attacks, magic_numbers),
        0 <= sq < 64,
        0 <= j < occupancies[sq].len(),
        no_harmful_collision(table.square_magics@[sq], occupancies[sq]@, all_attacks[sq]@),
    ensures
        table.lookup(sq, occupancies[sq][j].0) == all_attacks[sq][j],
{
    let magic = table.square_magics@[sq];
    let occ = occupancies[sq]@;
    let att = all_attacks[sq]@;
    assert(row_filled(table.attack_table@, magic, occ, att, j, occ.len() as int));
    let k = choose|k: int|
        j <= k < occ.len() && magic.index(#[trigger] occ[k].0) == magic.index(occ[j].0)
            && table.attack_table@[magic.index(occ[j].0)] == att[k];
    assert(att[j] == att[k]);
}

/// The squares outside the relevant mask do not matter: a slider attacks
/// the same squares whether or not they are occupied.
pub proof fn lemma_relevant_occupancy(diagonal: bool, sq: int, m: u64, occ: u64, s: u64)
    requires
        0 <= sq < 64,
        s < 64,
        is_relevant_mask(m, sq, diagonal),
    ensures
        slider_has(diagonal, sq, occ & m, s as int) == slider_has(diagonal, sq, occ, s as int),
{
    lemma_bit_ops();
    assert forall|d: int| is_direction(d) && (if diagonal {
        d == 7 || d == 9 || d == -7 || d == -9
    } else {
        d == 1 || d == -1 || d == 8 || d == -8
    }) implies ray_has(sq, d, occ & m, s as int) == ray_has(sq, d, occ, s as int) by {
        let n = ray_steps(sq, s as int, d);
        assert forall|t: u64| t < 64 && 1 <= #[trigger] ray_steps(sq, t as int, d) < n implies bit(
            occ & m,
            t,
        ) == bit(occ, t) by {
            assert(relevant(t, sq as u64, diagonal));
            assert(bit(m, t));
        }
    }
}

impl MagicTable {
    /// Whether the table gives, for every square and every occupancy of the
    /// board, exactly the squares that the slider attacks.
    pub open spec fn faithful(&self, diagonal: bool) -> bool {
        forall|sq: int, occ: u64, s: u64|
            0 <= sq < 64 && s < 64 ==> #[trigger] bit(self.lookup(sq, occ).0, s) == slider_has(
                diagonal,
                sq,
                occ,
                s as int,
            )
    }

    /// Whether the mask of each square holds the squares relevant to it.
    pub open spec fn masks_relevant(&self, diagonal: bool) -> bool {
        forall|sq: int|
            0 <= sq < 64 ==> is_relevant_mask(
                (#[trigger] self.square_magics@[sq]).attack_mask.0,
                sq,
                diagonal,
            )
    }

    /// Whether the table gives, for every square and every subset of its
    /// mask, exactly the squares that the slider attacks.
    pub open spec fn faithful_on_subsets(&self, diagonal: bool) -> bool {
        forall|sq: int, c: u64, s: u64|
            0 <= sq < 64 && s < 64 && is_subset(c, self.square_magics@[sq].attack_mask.0)
                ==> #[trigger] bit(self.lookup(sq, c).0, s) == slider_has(diagonal, sq, c, s as int)
    }

    /// A table that is right on the subsets of its masks is right on every
    /// occupancy, since the table looks at the relevant squares alone and
    /// so does the slider.
    pub proof fn lemma_subsets_suffice(&self, diagonal: bool)
        requires
            self.square_magics@.len() == 64,
            self.masks_relevant(diagonal),
            self.faithful_on_subsets(diagonal),
        ensures
            self.faithful(diagonal),
    {
        assert forall|sq: int, occ: u64, s: u64| 0 <= sq < 64 && s < 64 implies #[trigger] bit(
            self.lookup(sq, occ).0,
            s,
        ) == slider_has(diagonal, sq, occ, s as int) by {
            let magic = self.square_magics@[sq];
            let m = magic.attack_mask.0;
            let c = occ & m;
            assert(is_subset(c, m) && c & m == occ & m) by (bit_vector)
                requires
                    c == occ & m,
            ;
            assert(magic.index(c) == magic.index(occ));
            assert(bit(self.lookup(sq, c).0, s) == slider_has(diagonal, sq, c, s as int));
            lemma_relevant_occupancy(diagonal, sq, m, occ, s);
        }
    }
}

/// Whether `table` is a table built from every subset of the relevant
/// squares of every square, the attacks found by walking the rays, and the
/// multipliers `magic_numbers`.
pub open spec fn is_slider_table(table: MagicTable, diagonal: bool, magic_numbers: Seq<u64>)
    -> bool {
    exists|occupancies: Seq<Vec<BitBoard>>, all_attacks: Seq<Vec<BitBoard>>|
        #![trigger is_magic_table(table, occupancies, all_attacks, magic_numbers)]
        is_occupancy_table(occupancies, diagonal) && is_attack_table(
            all_attacks,
            occupancies,
            diagonal,
        ) && table_inputs_fit(occupancies, all_attacks) && is_magic_table(
            table,
            occupancies,
            all_attacks,
            magic_numbers,
        )
}

impl SquareMagic {
    /// Whether the hash is perfect for a slider on `sq`: no two subsets of
    /// the mask that differ in the attacks they leave share a slot.
    pub open spec fn is_perfect(self, sq: int, diagonal: bool) -> bool {
        forall|c1: u64, c2: u64|
            is_subset(c1, self.attack_mask.0) && is_subset(c2, self.attack_mask.0)
                && #[trigger] self.slot(c1) == #[trigger] self.slot(c2) ==> forall|s: u64|
                s < 64 ==> slider_has(diagonal, sq, c1, s as int) == slider_has(
                    diagonal,
                    sq,
                    c2,
                    s as int,
                )
    }
}

/// In a table built from the rays, the mask of each square holds the
/// squares relevant to it.
proof fn lemma_built_masks(
    table: MagicTable,
    occupancies: Seq<Vec<BitBoard>>,
    all_attacks: Seq<Vec<BitBoard>>,
    magic_numbers: Seq<u64>,
    diagonal: bool,
    sq: int,
)
    requires
        0 <= sq < 64,
        is_occupancy_table(occupancies, diagonal),
        is_attack_table(all_attacks, occupancies, diagonal),
        table_inputs_fit(occupancies, all_attacks),
        is_magic_table(table, occupancies, all_attacks, magic_numbers),
    ensures
        is_relevant_mask(table.square_magics@[sq].attack_mask.0, sq, diagonal),
        enumerates(occupancies[sq]@, table.square_magics@[sq].attack_mask.0),
{
    let mask = table.square_magics@[sq].attack_mask.0;
    assert(table.square_magics@[sq] == magic_for(all_attacks, magic_numbers, sq));
    assert(is_occupancy_row(occupancies[sq]@, sq, diagonal));
    let m = choose|m: u64|
        is_relevant_mask(m, sq, diagonal) && #[trigger] enumerates(occupancies[sq]@, m);
    lemma_empty_board_mask(all_attacks[sq][0].0, occupancies[sq][0].0, diagonal, sq);
    assert forall|i: u64| i < 64 implies bit(mask, i) == bit(m, i) by {
    }
    lemma_bits_equal(mask, m);
}

/// The attacks of a slider on the empty board, within the range of its
/// square, are the squares relevant to the square.
proof fn lemma_empty_board_mask(attacks: u64, occ: u64, diagonal: bool, sq: int)
    requires
        0 <= sq < 64,
        occ == 0,
        forall|s: u64| s < 64 ==> #[trigger] bit(attacks, s) == slider_has(diagonal, sq, occ, s as int),
    ensures
        is_relevant_mask(attacks & range_of(Square(sq as u8)), sq, diagonal),
{
    lemma_bit_ops();
    lemma_edge_masks();
    lemma_rank_file_masks();
    let range = range_of(Square(sq as u8));
    assert forall|i: u64| i < 64 implies #[trigger] bit(attacks & range, i) == relevant(
        i,
        sq as u64,
        diagonal,
    ) by {
        assert(bit(attacks, i) == slider_has(diagonal, sq, 0, i as int));
        assert(bit(range, i) == (((i / 8 != 0 && i / 8 != 7) || i / 8 == sq as u64 / 8) && ((i % 8
            != 0 && i % 8 != 7) || i % 8 == sq as u64 % 8)));
    }
}

/// In a table built from its inputs the part of each square lies inside
/// the table.
proof fn lemma_built_well_sized(
    table: MagicTable,
    occupancies: Seq<Vec<BitBoard>>,
    all_attacks: Seq<Vec<BitBoard>>,
    magic_numbers: Seq<u64>,
)
    requires
        table_inputs_fit(occupancies, all_attacks),
        is_magic_table(table, occupancies, all_attacks, magic_numbers),
    ensures
        table.well_sized(),
{
    assert forall|sq: int| 0 <= sq < 64 implies 52 <= (#[trigger] table.square_magics@[sq]).shift
        <= 64 && table.square_magics@[sq].attack_table_start + table.square_magics@[sq].slots()
        <= table.attack_table@.len() by {
        let magic = table.square_magics@[sq];
        assert(magic == magic_for(all_attacks, magic_numbers, sq));
        let count = count_bits(mask_from(all_attacks, sq), 64);
        assert(count <= 12);
        lemma_slots_grow(all_attacks, 0, sq);
        lemma_slots_grow(all_attacks, sq + 1, 64);
        assert(slots_before(all_attacks, sq + 1) == slots_before(all_attacks, sq) + (1u64
            << count) as int);
        assert(magic.slots() == (1u64 << count) as int);
    }
}

/// A table built from the rays with multipliers that make each square's
/// hash perfect gives the attacks of the slider for every square and every
/// occupancy of the board, and stands the comparison with the rays.
pub proof fn lemma_slider_table_faithful(table: MagicTable, diagonal: bool, magic_numbers: Seq<u64>)
    requires
        is_slider_table(table, diagonal, magic_numbers),
        forall|sq: int|
            0 <= sq < 64 ==> (#[trigger] table.square_magics@[sq]).is_perfect(sq, diagonal),
    ensures
        table.faithful(diagonal),
        table.well_sized(),
        table.masks_relevant(diagonal),
        table.faithful_on_subsets(diagonal),
{
    let (occupancies, all_attacks) = choose|
        occupancies: Seq<Vec<BitBoard>>,
        all_attacks: Seq<Vec<BitBoard>>,
    |
        #![trigger is_magic_table(table, occupancies, all_attacks, magic_numbers)]
        is_occupancy_table(occupancies, diagonal) && is_attack_table(
            all_attacks,
            occupancies,
            diagonal,
        ) && table_inputs_fit(occupancies, all_attacks) && is_magic_table(
            table,
            occupancies,
            all_attacks,
            magic_numbers,
        );
    lemma_built_well_sized(table, occupancies, all_attacks, magic_numbers);
    assert forall|sq: int| 0 <= sq < 64 implies is_relevant_mask(
        (#[trigger] table.square_magics@[sq]).attack_mask.0,
        sq,
        diagonal,
    ) by {
        lemma_built_masks(table, occupancies, all_attacks, magic_numbers, diagonal, sq);
    }
    assert forall|sq: int, c: u64, s: u64|
        0 <= sq < 64 && s < 64 && is_subset(
            c,
            table.square_magics@[sq].attack_mask.0,
        ) implies #[trigger] bit(table.lookup(sq, c).0, s) == slider_has(
        diagonal,
        sq,
        c,
        s as int,
    ) by {
        let magic = table.square_magics@[sq];
        let occ = occupancies[sq]@;
        let att = all_attacks[sq]@;
        lemma_built_masks(table, occupancies, all_attacks, magic_numbers, diagonal, sq);
        let j = choose|j: int| 0 <= j < occ.len() && #[trigger] occ[j].0 == c;
        assert(row_filled(table.attack_table@, magic, occ, att, j, occ.len() as int));
        let k = choose|k: int|
            j <= k < occ.len() && magic.index(#[trigger] occ[k].0) == magic.index(occ[j].0)
                && table.attack_table@[magic.index(occ[j].0)] == att[k];
        assert(is_subset(occ[k].0, magic.attack_mask.0));
        assert(magic.slot(occ[k].0) == magic.slot(c));
        assert(bit(att[k].0, s) == slider_has(diagonal, sq, occ[k].0, s as int));
    }
    table.lemma_subsets_suffice(diagonal);
}

/// The squares relevant to a slider on `sq`, found from its rays on the
/// empty board.
pub fn relevant_mask(sq: Square, diagonal: bool) -> (res: BitBoard)
    requires
        sq.valid(),
    ensures
        is_relevant_mask(res.0, sq.idx(), diagonal),
        count_bits(res.0, 64) <= 12,
{
    let origin = BitBoard::from_square(sq);
    proof {
        lemma_single_lowest(sq.0 as u64);
    }
    let reach = if diagonal {
        calc_bishop_attacks(origin, BitBoard(0))
    } else {
        calc_rook_attacks(origin, BitBoard(0))
    };
    let mask = reach.intersection(relevant_range(sq));
    proof {
        lemma_empty_board_mask(reach.0, 0, diagonal, sq.idx());
        lemma_all_relevant(mask.0, sq.0 as u64, diagonal, 64);
        lemma_relevant_count(mask.0, sq.0 as u64, diagonal);
    }
    mask
}

/// The table of one kind of slider, built from the rays and the given
/// multipliers.
fn build_slider_table(diagonal: bool, magic_numbers: &[u64; 64]) -> (res: MagicTable)
    ensures
        res.wf(),
        is_slider_table(res, diagonal, magic_numbers@),
{
    let occupancies = if diagonal {
        bishop_occupancies()
    } else {
        rook_occupancies()
    };
    let attacks = calc_all_attacks(&occupancies, diagonal);
    proof {
        assert forall|sq: int| 0 <= sq < 64 implies (#[trigger] attacks@[sq]).len()
            == occupancies@[sq].len() && attacks@[sq].len() >= 1 by {
            assert(is_occupancy_row(occupancies@[sq]@, sq, diagonal));
        }
        assert forall|sq: int| 0 <= sq < 64 implies count_bits(
            #[trigger] mask_from(attacks@, sq),
            64,
        ) <= 12 by {
            assert(is_occupancy_row(occupancies@[sq]@, sq, diagonal));
            lemma_empty_board_mask(attacks@[sq][0].0, occupancies@[sq][0].0, diagonal, sq);
            lemma_all_relevant(mask_from(attacks@, sq), sq as u64, diagonal, 64);
            lemma_relevant_count(mask_from(attacks@, sq), sq as u64, diagonal);
        }
    }
    let table = create_magic_table(&occupancies, &attacks, magic_numbers);
    assert(is_magic_table(table, occupancies@, attacks@, magic_numbers@));
    table
}

/// The table of the bishop.
pub fn bishop_magic_table() -> (res: MagicTable)
    ensures
        res.wf(),
        is_slider_table(res, true, BISHOP_MAGIC_NUMBERS@),
{
    build_slider_table(true, &BISHOP_MAGIC_NUMBERS)
}

/// The table of the rook.
pub fn rook_magic_table() -> (res: MagicTable)
    ensures
        res.wf(),
        is_slider_table(res, false, ROOK_MAGIC_NUMBERS@),
{
    build_slider_table(false, &ROOK_MAGIC_NUMBERS)
}

/// The tables that move generation reads: the attacks of the rook and of
/// the bishop, the line through each pair of squares, and the squares
/// between them.
pub struct MagicTables {
    pub rook_table: MagicTable,
    pub bishop_table: MagicTable,
    pub lines: Vec<Vec<BitBoard>>,
    pub line_segments: Vec<Vec<BitBoard>>,
}

impl MagicTables {
    /// Every lookup stays inside its table, and the tables of lines and
    /// segments hold what their names say.
    pub open spec fn wf(&self) -> bool {
        &&& self.rook_table.wf()
        &&& self.bishop_table.wf()
        &&& is_line_table(self.lines@)
        &&& is_segment_table(self.line_segments@)
    }

    /// Both slider tables give the true attacks for every occupancy.
    pub open spec fn faithful(&self) -> bool {
        self.rook_table.faithful(false) && self.bishop_table.faithful(true)
    }
}

/// Builds all tables.
pub fn magic_tables() -> (res: MagicTables)
    ensures
        res.wf(),
        is_slider_table(res.rook_table, false, ROOK_MAGIC_NUMBERS@),
        is_slider_table(res.bishop_table, true, BISHOP_MAGIC_NUMBERS@),
{
    MagicTables {
        rook_table: rook_magic_table(),
        bishop_table: bishop_magic_table(),
        lines: calc_lines(),
        line_segments: calc_line_segments(),
    }
}

/// The squares that a rook on `origin` attacks on an otherwise empty board.
pub fn rook_attacks_empty(origin: Square) -> (res: BitBoard)
    requires
        origin.valid(),
    ensures
        forall|s: u64| s < 64 ==> #[trigger] bit(res.0, s) == rook_ray_has(origin.idx(), 0, s as int),
{
    rook_attacks(origin, BitBoard(0))
}

/// The squares that a rook on `origin` attacks when the squares of
/// `occupancy` are occupied.
pub fn rook_attacks(origin: Square, occupancy: BitBoard) -> (res: BitBoard)
    requires
        origin.valid(),
    ensures
        forall|s: u64|
            s < 64 ==> #[trigger] bit(res.0, s) == rook_ray_has(
                origin.idx(),
                occupancy.0,
                s as int,
            ),
{
    proof {
        lemma_single_lowest(origin.0 as u64);
    }
    calc_rook_attacks(BitBoard::from_square(origin), occupancy)
}

/// The squares that a bishop on `origin` attacks on an otherwise empty
/// board.
pub fn bishop_attacks_empty(origin: Square) -> (res: BitBoard)
    requires
        origin.valid(),
    ensures
        forall|s: u64|
            s < 64 ==> #[trigger] bit(res.0, s) == bishop_ray_has(origin.idx(), 0, s as int),
{
    bishop_attacks(origin, BitBoard(0))
}

/// The squares that a bishop on `origin` attacks when the squares of
/// `occupancy` are occupied.
pub fn bishop_attacks(origin: Square, occupancy: BitBoard) -> (res: BitBoard)
    requires
        origin.valid(),
    ensures
        forall|s: u64|
            s < 64 ==> #[trigger] bit(res.0, s) == bishop_ray_has(
                origin.idx(),
                occupancy.0,
                s as int,
            ),
{
    proof {
        lemma_single_lowest(origin.0 as u64);
    }
    calc_bishop_attacks(BitBoard::from_square(origin), occupancy)
}

impl MagicTable {
    /// There is a record for each square, with a shift from 52 to 64, and
    /// the part of each square lies inside the table.
    pub open spec fn well_sized(&self) -> bool {
        &&& self.square_magics@.len() == 64
        &&& forall|sq: int|
            0 <= sq < 64 ==> 52 <= (#[trigger] self.square_magics@[sq]).shift <= 64
                && self.square_magics@[sq].attack_table_start + self.square_magics@[sq].slots()
                <= self.attack_table@.len()
    }

    /// In a table whose parts lie inside it, every lookup does.
    pub proof fn lemma_well_sized(&self)
        requires
            self.well_sized(),
        ensures
            self.wf(),
    {
        assert forall|sq: int, occ: u64| 0 <= sq < 64 implies 0 <= #[trigger] self.square_magics@[sq].index(
            occ,
        ) < self.attack_table@.len() by {
            lemma_slot_in_part(self.square_magics@[sq], occ);
        }
    }

    /// Whether the parts lie inside the table.
    fn is_well_sized(&self) -> (res: bool)
        ensures
            res == self.well_sized(),
    {
        if self.square_magics.len() != 64 {
            return false;
        }
        let n = self.attack_table.len();
        let mut sq: usize = 0;
        while sq < 64
            invariant
                sq <= 64,
                n == self.attack_table@.len(),
                self.square_magics@.len() == 64,
                forall|s2: int|
                    0 <= s2 < sq ==> 52 <= (#[trigger] self.square_magics@[s2]).shift <= 64
                        && self.square_magics@[s2].attack_table_start
                        + self.square_magics@[s2].slots() <= self.attack_table@.len(),
            decreases 64 - sq,
        {
            let magic = &self.square_magics[sq];
            if magic.shift < 52 || magic.shift > 64 {
                return false;
            }
            proof {
                lemma_top_bits();
            }
            let slots = (1u64 << ((64 - magic.shift) as u64)) as usize;
            if magic.attack_table_start > n || slots > n - magic.attack_table_start {
                return false;
            }
            sq += 1;
        }
        true
    }

    /// Compares the table, for every square and every subset of the
    /// squares relevant to it, with the attacks found by walking the rays.
    pub fn is_faithful(&self, diagonal: bool) -> (res: bool)
        ensures
            res == (self.well_sized() && self.masks_relevant(diagonal) && self.faithful_on_subsets(
                diagonal,
            )),
            res ==> self.wf() && self.faithful(diagonal),
    {
        if !self.is_well_sized() {
            return false;
        }
        proof {
            self.lemma_well_sized();
        }
        let mut i: u8 = 0;
        while i < 64
            invariant
                i <= 64,
                self.wf(),
                self.well_sized(),
                forall|sq: int|
                    0 <= sq < i ==> is_relevant_mask(
                        (#[trigger] self.square_magics@[sq]).attack_mask.0,
                        sq,
                        diagonal,
                    ),
                forall|sq: int, c: u64, s: u64|
                    0 <= sq < i && s < 64 && is_subset(c, self.square_magics@[sq].attack_mask.0)
                        ==> #[trigger] bit(self.lookup(sq, c).0, s) == slider_has(
                        diagonal,
                        sq,
                        c,
                        s as int,
                    ),
            decreases 64 - i,
        {
            let square = Square(i);
            let mask = relevant_mask(square, diagonal);
            let stored = self.square_magics[i as usize].attack_mask;
            if stored.0 != mask.0 {
                proof {
                    if is_relevant_mask(stored.0, i as int, diagonal) {
                        lemma_bits_equal(stored.0, mask.0);
                    }
                }
                return false;
            }
            let subsets = partitions(mask);
            let origin = BitBoard::from_square(square);
            proof {
                lemma_single_lowest(i as u64);
            }
            let mut j: usize = 0;
            while j < subsets.len()
                invariant
                    j <= subsets@.len(),
                    i < 64,
                    square == Square(i),
                    self.wf(),
                    origin.is_single(),
                    origin.lowest() == i,
                    enumerates(subsets@, mask.0),
                    mask.0 == self.square_magics@[i as int].attack_mask.0,
                    forall|k: int, s: u64|
                        0 <= k < j && s < 64 ==> #[trigger] bit(
                            self.lookup(i as int, subsets@[k].0).0,
                            s,
                        ) == slider_has(diagonal, i as int, subsets@[k].0, s as int),
                decreases subsets@.len() - j,
            {
                let c = subsets[j];
                let expected = if diagonal {
                    calc_bishop_attacks(origin, c)
                } else {
                    calc_rook_attacks(origin, c)
                };
                let found = self.attacks(square, c);
                if found.0 != expected.0 {
                    proof {
                        if self.faithful_on_subsets(diagonal) {
                            assert forall|s: u64| s < 64 implies bit(found.0, s) == bit(
                                expected.0,
                                s,
                            ) by {
                                assert(bit(self.lookup(i as int, c.0).0, s) == slider_has(
                                    diagonal,
                                    i as int,
                                    c.0,
                                    s as int,
                                ));
                            }
                            lemma_bits_equal(found.0, expected.0);
                        }
                    }
                    return false;
                }
                j += 1;
            }
            proof {
                assert forall|c: u64, s: u64|
                    s < 64 && is_subset(c, self.square_magics@[i as int].attack_mask.0)
                        implies #[trigger] bit(self.lookup(i as int, c).0, s) == slider_has(
                    diagonal,
                    i as int,
                    c,
                    s as int,
                ) by {
                    let k = choose|k: int| 0 <= k < subsets@.len() && #[trigger] subsets@[k].0 == c;
                    assert(bit(self.lookup(i as int, subsets@[k].0).0, s) == slider_has(
                        diagonal,
                        i as int,
                        subsets@[k].0,
                        s as int,
                    ));
                }
            }
            i += 1;
        }
        proof {
            self.lemma_subsets_suffice(diagonal);
        }
        true
    }
}

impl MagicTables {
    /// Compares both slider tables with the rays.
    pub fn is_faithful(&self) -> (res: bool)
        ensures
            res == (self.rook_table.well_sized() && self.rook_table.masks_relevant(false)
                && self.rook_table.faithful_on_subsets(false) && self.bishop_table.well_sized()
                && self.bishop_table.masks_relevant(true) && self.bishop_table.faithful_on_subsets(
                true,
            )),
            res ==> self.rook_table.wf() && self.bishop_table.wf() && self.faithful(),
    {
        self.rook_table.is_faithful(false) && self.bishop_table.is_faithful(true)
    }
}

/// Whether the multipliers `magic_numbers` make the hash of each square
/// perfect in every table that is built with them.
pub open spec fn are_perfect(diagonal: bool, magic_numbers: Seq<u64>) -> bool {
    forall|table: MagicTable, sq: int|
        #![trigger is_slider_table(table, diagonal, magic_numbers), table.square_magics@[sq]]
        is_slider_table(table, diagonal, magic_numbers) && 0 <= sq < 64
            ==> table.square_magics@[sq].is_perfect(sq, diagonal)
}

/// Builds all tables and compares the slider tables with the rays: the
/// tables, or `None` when a multiplier is found not to do its work. With
/// perfect multipliers the tables are returned.
pub fn checked_magic_tables() -> (res: Option<MagicTables>)
    ensures
        res matches Some(tables) ==> tables.wf() && tables.faithful() && is_slider_table(
            tables.rook_table,
            false,
            ROOK_MAGIC_NUMBERS@,
        ) && is_slider_table(tables.bishop_table, true, BISHOP_MAGIC_NUMBERS@),
        are_perfect(false, ROOK_MAGIC_NUMBERS@) && are_perfect(true, BISHOP_MAGIC_NUMBERS@)
            ==> res is Some,
{
    let tables = magic_tables();
    proof {
        if are_perfect(false, ROOK_MAGIC_NUMBERS@) && are_perfect(true, BISHOP_MAGIC_NUMBERS@) {
            assert forall|sq: int| 0 <= sq < 64 implies (
            #[trigger] tables.rook_table.square_magics@[sq]).is_perfect(sq, false) by {}
            assert forall|sq: int| 0 <= sq < 64 implies (
            #[trigger] tables.bishop_table.square_magics@[sq]).is_perfect(sq, true) by {}
            lemma_slider_table_faithful(tables.rook_table, false, ROOK_MAGIC_NUMBERS@);
            lemma_slider_table_faithful(tables.bishop_table, true, BISHOP_MAGIC_NUMBERS@);
        }
    }
    if tables.is_faithful() {
        Some(tables)
    } else {
        None
    }
}

/// A slider attacks along a ray exactly when it is attacked back along
/// the opposite ray: the squares between are the same.
pub proof fn lemma_ray_symmetric(o: int, s: int, d: int, occ: u64)
    requires
        0 <= o < 64,
        0 <= s < 64,
        is_direction(d),
    ensures
        ray_has(o, d, occ, s) == ray_has(s, -d, occ, o),
{
    let n = ray_steps(o, s, d);
    assert(ray_steps(s, o, -d) == n);
    if n >= 1 {
        assert forall|t: u64| t < 64 implies (1 <= #[trigger] ray_steps(o, t as int, d) < n) == (1
            <= ray_steps(s, t as int, -d) < n) by {
            if 1 <= ray_steps(o, t as int, d) < n {
                assert(ray_steps(s, t as int, -d) == n - ray_steps(o, t as int, d));
            }
            if 1 <= ray_steps(s, t as int, -d) < n {
                assert(ray_steps(o, t as int, d) == n - ray_steps(s, t as int, -d));
            }
        }
        if ray_has(o, d, occ, s) {
            assert forall|t: u64| t < 64 && 1 <= #[trigger] ray_steps(s, t as int, -d) < n implies !bit(
                occ,
                t,
            ) by {
                assert(1 <= ray_steps(o, t as int, d) < n);
            }
        }
        if ray_has(s, -d, occ, o) {
            assert forall|t: u64| t < 64 && 1 <= #[trigger] ray_steps(o, t as int, d) < n implies !bit(
                occ,
                t,
            ) by {
                assert(1 <= ray_steps(s, t as int, -d) < n);
            }
        }
    }
}

/// A rook attacks a square exactly when a rook there attacks back, and
/// so does a bishop.
pub proof fn lemma_slider_symmetric(diagonal: bool, o: int, s: int, occ: u64)
    requires
        0 <= o < 64,
        0 <= s < 64,
    ensures
        slider_has(diagonal, o, occ, s) == slider_has(diagonal, s, occ, o),
{
    lemma_ray_symmetric(o, s, 1, occ);
    lemma_ray_symmetric(o, s, -1, occ);
    lemma_ray_symmetric(o, s, 8, occ);
    lemma_ray_symmetric(o, s, -8, occ);
    lemma_ray_symmetric(o, s, 7, occ);
    lemma_ray_symmetric(o, s, -7, occ);
    lemma_ray_symmetric(o, s, 9, occ);
    lemma_ray_symmetric(o, s, -9, occ);
}

} // verus!
