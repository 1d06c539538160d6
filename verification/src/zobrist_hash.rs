//! A 64-bit fingerprint of a position: the exclusive or of one random key
//! for each piece on its square, each castling right held, the file of the
//! en-passant square, and the side to move. It can be computed from the
//! position or carried along from move to move.
use vstd::prelude::*;
use crate::bitboard::BitBoard;
use crate::bitboard_constants::BB_A1;
use crate::bitboard_constants::BB_A8;
use crate::bitboard_constants::BB_H1;
use crate::bitboard_constants::BB_H8;
use crate::board::square_bit;
use crate::square_constants::SQ_A1;
use crate::square_constants::SQ_A8;
use crate::square_constants::SQ_C1;
use crate::square_constants::SQ_C8;
use crate::square_constants::SQ_D1;
use crate::square_constants::SQ_D8;
use crate::square_constants::SQ_E1;
use crate::square_constants::SQ_E8;
use crate::square_constants::SQ_F1;
use crate::square_constants::SQ_F8;
use crate::square_constants::SQ_G1;
use crate::square_constants::SQ_G8;
use crate::square_constants::SQ_H1;
use crate::square_constants::SQ_H8;
use crate::bits::bit;
use crate::bits::lemma_bit_ops;
use crate::bits::lemma_xor_pairs;
use crate::bits::lemma_xor_laws;
use crate::board::Board;
use crate::moves::Move;
use crate::pieces::Color;
use crate::pieces::Piece;
use crate::square::Square;

verus! {

/// The generator of random numbers of the crate `rand`.
#[verifier::external_type_specification]
#[verifier::external_body]
pub struct ExStdRng(rand::rngs::StdRng);

/// `SeedableRng::seed_from_u64` of the crate `rand`, for its `StdRng`: a
/// generator started from `seed`. Nothing is claimed of the generator.
#[verifier::external_body]
fn seeded_rng(seed: u64) -> rand::rngs::StdRng {
    rand::SeedableRng::seed_from_u64(seed)
}

/// `RngCore::next_u64` of the crate `rand`, for its `StdRng`: the next
/// number of the generator. Nothing is claimed of the number.
#[verifier::external_body]
fn next_key(rng: &mut rand::rngs::StdRng) -> u64 {
    rand::RngCore::next_u64(rng)
}

/// The keys of the fingerprint.
pub struct ZobristTable {
    /// The key of each piece of each colour on each square, at
    /// `(square * 6 + piece) * 2 + colour`.
    pub pieces: Vec<u64>,
    /// The key of black to move.
    pub side: u64,
    /// The keys of the castling rights: king side white and black, then
    /// queen side white and black.
    pub castling: [u64; 4],
    /// The key of each file of the en-passant square.
    pub en_passant: [u64; 8],
}

impl ZobristTable {
    /// There is a key for each piece, colour and square.
    pub open spec fn wf(&self) -> bool {
        self.pieces@.len() == 768
    }

    /// The key of piece `p` of colour `c` on square `sq`.
    pub open spec fn key(&self, sq: int, p: Piece, c: Color) -> u64 {
        self.pieces@[(sq * 6 + p.idx()) * 2 + c.idx()]
    }

    /// The key of piece `p` of colour `c` on `sq`.
    pub fn piece_key(&self, sq: Square, p: Piece, c: Color) -> (res: u64)
        requires
            self.wf(),
            sq.valid(),
        ensures
            res == self.key(sq.idx(), p, c),
    {
        self.pieces[(sq.0 as usize * 6 + p.index()) * 2 + c.slot()]
    }
}

/// A table of keys drawn from the generator started from `seed`.
pub fn zobrist_init(seed: u64) -> (res: ZobristTable)
    ensures
        res.wf(),
{
    let mut rng = seeded_rng(seed);
    let mut pieces: Vec<u64> = Vec::new();
    let mut i: usize = 0;
    while i < 768
        invariant
            i <= 768,
            pieces@.len() == i,
        decreases 768 - i,
    {
        pieces.push(next_key(&mut rng));
        i += 1;
    }
    let side = next_key(&mut rng);
    let king_white = next_key(&mut rng);
    let king_black = next_key(&mut rng);
    let queen_white = next_key(&mut rng);
    let queen_black = next_key(&mut rng);
    let mut en_passant: [u64; 8] = [0; 8];
    let mut f: usize = 0;
    while f < 8
        invariant
            f <= 8,
        decreases 8 - f,
    {
        en_passant[f] = next_key(&mut rng);
        f += 1;
    }
    ZobristTable { pieces, side, castling: [king_white, king_black, queen_white, queen_black], en_passant }
}

/// `key` where `present`, else 0: what a feature of the position adds to
/// the fingerprint.
pub open spec fn term(present: bool, key: u64) -> u64 {
    if present {
        key
    } else {
        0
    }
}

/// What the pieces of type `p` and colour `c` on the squares of `bits`
/// below `n` add to the fingerprint.
pub open spec fn set_hash(t: ZobristTable, bits: u64, p: Piece, c: Color, n: nat) -> u64
    decreases n,
{
    if n == 0 {
        0
    } else {
        set_hash(t, bits, p, c, (n - 1) as nat) ^ term(bit(bits, (n - 1) as u64), t.key(n - 1, p, c))
    }
}

/// What square `s` adds to the fingerprint: the key of each piece type and
/// colour whose sets both hold it, and the key of a king that stands on it.
pub open spec fn cell(t: ZobristTable, b: Board, s: int) -> u64 {
    let w = b.piece_of_color[0].0;
    let k = b.piece_of_color[1].0;
    let ty = b.piece_of_type;
    let i = s as u64;
    term(bit(w & ty[0].0, i), t.key(s, Piece::PAWN, Color::WHITE)) ^ term(
        bit(w & ty[1].0, i),
        t.key(s, Piece::KNIGHT, Color::WHITE),
    ) ^ term(bit(w & ty[2].0, i), t.key(s, Piece::BISHOP, Color::WHITE)) ^ term(
        bit(w & ty[3].0, i),
        t.key(s, Piece::ROOK, Color::WHITE),
    ) ^ term(bit(w & ty[4].0, i), t.key(s, Piece::QUEEN, Color::WHITE)) ^ term(
        bit(k & ty[0].0, i),
        t.key(s, Piece::PAWN, Color::BLACK),
    ) ^ term(bit(k & ty[1].0, i), t.key(s, Piece::KNIGHT, Color::BLACK)) ^ term(
        bit(k & ty[2].0, i),
        t.key(s, Piece::BISHOP, Color::BLACK),
    ) ^ term(bit(k & ty[3].0, i), t.key(s, Piece::ROOK, Color::BLACK)) ^ term(
        bit(k & ty[4].0, i),
        t.key(s, Piece::QUEEN, Color::BLACK),
    ) ^ term(b.king_pos[0].0 == s, t.key(s, Piece::KING, Color::WHITE)) ^ term(
        b.king_pos[1].0 == s,
        t.key(s, Piece::KING, Color::BLACK),
    )
}

/// What the squares below `n` add to the fingerprint.
pub open spec fn cells_hash(t: ZobristTable, b: Board, n: nat) -> u64
    decreases n,
{
    if n == 0 {
        0
    } else {
        cells_hash(t, b, (n - 1) as nat) ^ cell(t, b, n - 1)
    }
}

/// What the castling rights, the en-passant square and the side to move
/// add to the fingerprint.
pub open spec fn flags_hash(t: ZobristTable, b: Board) -> u64 {
    term(b.can_castle_king_side[0], t.castling[0]) ^ term(b.can_castle_king_side[1], t.castling[1])
        ^ term(b.can_castle_queen_side[0], t.castling[2]) ^ term(
        b.can_castle_queen_side[1],
        t.castling[3],
    ) ^ ep_term(t, b) ^ term(b.side_to_play == Color::BLACK, t.side)
}

/// What the en-passant square adds to the fingerprint.
pub open spec fn ep_term(t: ZobristTable, b: Board) -> u64 {
    match b.en_passant {
        Some(sq) => t.en_passant[sq.spec_file()],
        None => 0,
    }
}

/// The fingerprint of the position `b`.
pub open spec fn spec_hash(t: ZobristTable, b: Board) -> u64 {
    flags_hash(t, b) ^ cells_hash(t, b, 64)
}

/// What the king of colour `c` adds to the squares below `n`.
pub open spec fn king_hash(t: ZobristTable, b: Board, c: Color, n: nat) -> u64
    decreases n,
{
    if n == 0 {
        0
    } else {
        king_hash(t, b, c, (n - 1) as nat) ^ term(
            b.king_pos[c.idx()].0 == n - 1,
            t.key(n - 1, Piece::KING, c),
        )
    }
}

/// The king adds its key on its own square and nothing elsewhere.
proof fn lemma_king_hash(t: ZobristTable, b: Board, c: Color, n: nat)
    ensures
        king_hash(t, b, c, n) == term(
            b.king_pos[c.idx()].0 < n,
            t.key(b.king_pos[c.idx()].0 as int, Piece::KING, c),
        ),
    decreases n,
{
    lemma_xor_laws();
    if n > 0 {
        lemma_king_hash(t, b, c, (n - 1) as nat);
    }
}

/// The sets of the ten pairs of a colour and a piece type, white first and
/// in the order of the types.
pub open spec fn pair_bits(b: Board, i: int) -> u64 {
    b.piece_of_color[i / 5].0 & b.piece_of_type[i % 5].0
}

/// The piece type of the pair `i`.
pub open spec fn pair_piece(i: int) -> Piece {
    if i % 5 == 0 {
        Piece::PAWN
    } else if i % 5 == 1 {
        Piece::KNIGHT
    } else if i % 5 == 2 {
        Piece::BISHOP
    } else if i % 5 == 3 {
        Piece::ROOK
    } else {
        Piece::QUEEN
    }
}

/// The colour of the pair `i`.
pub open spec fn pair_color(i: int) -> Color {
    if i < 5 {
        Color::WHITE
    } else {
        Color::BLACK
    }
}

/// What the pieces of the pair `i` on the squares below `n` add.
pub open spec fn pair_hash(t: ZobristTable, b: Board, i: int, n: nat) -> u64 {
    set_hash(t, pair_bits(b, i), pair_piece(i), pair_color(i), n)
}

/// What the pieces and the kings on the squares below `n` add, set by
/// set.
pub open spec fn sets_hash(t: ZobristTable, b: Board, n: nat) -> u64 {
    pair_hash(t, b, 0, n) ^ pair_hash(t, b, 1, n) ^ pair_hash(t, b, 2, n) ^ pair_hash(t, b, 3, n)
        ^ pair_hash(t, b, 4, n) ^ pair_hash(t, b, 5, n) ^ pair_hash(t, b, 6, n) ^ pair_hash(
        t,
        b,
        7,
        n,
    ) ^ pair_hash(t, b, 8, n) ^ pair_hash(t, b, 9, n) ^ king_hash(t, b, Color::WHITE, n)
        ^ king_hash(t, b, Color::BLACK, n)
}

/// Whether the keys are taken set by set or square by square, they add up
/// to the same.
pub proof fn lemma_sets_are_cells(t: ZobristTable, b: Board, n: nat)
    ensures
        sets_hash(t, b, n) == cells_hash(t, b, n),
    decreases n,
{
    if n == 0 {
        assert(0u64 ^ 0 ^ 0 ^ 0 ^ 0 ^ 0 ^ 0 ^ 0 ^ 0 ^ 0 ^ 0 ^ 0 == 0) by (bit_vector);
    } else {
        let m = (n - 1) as nat;
        lemma_sets_are_cells(t, b, m);
        let i = m as u64;
        let before = seq![
            pair_hash(t, b, 0, m),
            pair_hash(t, b, 1, m),
            pair_hash(t, b, 2, m),
            pair_hash(t, b, 3, m),
            pair_hash(t, b, 4, m),
            pair_hash(t, b, 5, m),
            pair_hash(t, b, 6, m),
            pair_hash(t, b, 7, m),
            pair_hash(t, b, 8, m),
            pair_hash(t, b, 9, m),
            king_hash(t, b, Color::WHITE, m),
            king_hash(t, b, Color::BLACK, m),
        ];
        let here = seq![
            term(bit(pair_bits(b, 0), i), t.key(m as int, Piece::PAWN, Color::WHITE)),
            term(bit(pair_bits(b, 1), i), t.key(m as int, Piece::KNIGHT, Color::WHITE)),
            term(bit(pair_bits(b, 2), i), t.key(m as int, Piece::BISHOP, Color::WHITE)),
            term(bit(pair_bits(b, 3), i), t.key(m as int, Piece::ROOK, Color::WHITE)),
            term(bit(pair_bits(b, 4), i), t.key(m as int, Piece::QUEEN, Color::WHITE)),
            term(bit(pair_bits(b, 5), i), t.key(m as int, Piece::PAWN, Color::BLACK)),
            term(bit(pair_bits(b, 6), i), t.key(m as int, Piece::KNIGHT, Color::BLACK)),
            term(bit(pair_bits(b, 7), i), t.key(m as int, Piece::BISHOP, Color::BLACK)),
            term(bit(pair_bits(b, 8), i), t.key(m as int, Piece::ROOK, Color::BLACK)),
            term(bit(pair_bits(b, 9), i), t.key(m as int, Piece::QUEEN, Color::BLACK)),
            term(b.king_pos[0].0 == m, t.key(m as int, Piece::KING, Color::WHITE)),
            term(b.king_pos[1].0 == m, t.key(m as int, Piece::KING, Color::BLACK)),
        ];
        lemma_xor_pairs(before, here);
    }
}

/// The keys of the pieces of type `p` and colour `c` on the squares of
/// `bits`.
fn set_keys(table: &ZobristTable, bits: BitBoard, p: Piece, c: Color) -> (res: u64)
    requires
        table.wf(),
    ensures
        res == set_hash(*table, bits.0, p, c, 64),
{
    let mut remaining = bits;
    let mut h: u64 = 0;
    let ghost mut done: nat = 0;
    while !remaining.empty()
        invariant
            table.wf(),
            done <= 64,
            h == set_hash(*table, bits.0, p, c, done),
            forall|i: u64| #[trigger] bit(remaining.0, i) == (bit(bits.0, i) && i >= done),
        decreases 64 - done,
    {
        let ghost before = remaining;
        let sq = remaining.pop_lsb();
        proof {
            assert forall|i: u64| done <= i < sq.0 implies !#[trigger] bit(bits.0, i) by {
                assert(!bit(before.0, i));
            }
            lemma_set_hash_skip(*table, bits.0, p, c, done, sq.0 as nat);
            assert(bit(bits.0, sq.0 as u64));
        }
        h = h ^ table.piece_key(sq, p, c);
        proof {
            done = (sq.0 + 1) as nat;
        }
    }
    proof {
        lemma_bit_ops();
        assert forall|i: u64| done <= i < 64 implies !#[trigger] bit(bits.0, i) by {
            assert(!bit(remaining.0, i));
        }
        lemma_set_hash_skip(*table, bits.0, p, c, done, 64);
    }
    h
}

/// A feature that is present adds its key, and one that is absent adds
/// nothing.
proof fn lemma_term_step(h: u64, present: bool, key: u64, h2: u64)
    requires
        h2 == (if present {
            h ^ key
        } else {
            h
        }),
    ensures
        h2 == h ^ term(present, key),
{
    lemma_xor_laws();
}

/// Squares that are not in the set add nothing.
proof fn lemma_set_hash_skip(t: ZobristTable, bits: u64, p: Piece, c: Color, from: nat, to: nat)
    requires
        from <= to <= 64,
        forall|i: u64| from <= i < to ==> !#[trigger] bit(bits, i),
    ensures
        set_hash(t, bits, p, c, to) == set_hash(t, bits, p, c, from),
    decreases to,
{
    lemma_xor_laws();
    if to > from {
        lemma_set_hash_skip(t, bits, p, c, from, (to - 1) as nat);
        assert(!bit(bits, (to - 1) as u64));
    }
}

/// The fingerprint of `board`.
pub fn hash(table: &ZobristTable, board: &Board) -> (h: u64)
    requires
        table.wf(),
        board.wf(),
    ensures
        h == spec_hash(*table, *board),
{
    let h0: u64 = 0;
    let h1 = if board.can_castle_king_side[0] { h0 ^ table.castling[0] } else { h0 };
    let h2 = if board.can_castle_king_side[1] { h1 ^ table.castling[1] } else { h1 };
    let h3 = if board.can_castle_queen_side[0] { h2 ^ table.castling[2] } else { h2 };
    let h4 = if board.can_castle_queen_side[1] { h3 ^ table.castling[3] } else { h3 };
    let h5 = match board.en_passant {
        Some(en_passant) => h4 ^ table.en_passant[en_passant.file() as usize],
        None => h4,
    };
    let w = board.piece_of_color[0].0;
    let k = board.piece_of_color[1].0;
    let s0 = set_keys(table, BitBoard(w & board.piece_of_type[0].0), Piece::PAWN, Color::WHITE);
    let s1 = set_keys(table, BitBoard(w & board.piece_of_type[1].0), Piece::KNIGHT, Color::WHITE);
    let s2 = set_keys(table, BitBoard(w & board.piece_of_type[2].0), Piece::BISHOP, Color::WHITE);
    let s3 = set_keys(table, BitBoard(w & board.piece_of_type[3].0), Piece::ROOK, Color::WHITE);
    let s4 = set_keys(table, BitBoard(w & board.piece_of_type[4].0), Piece::QUEEN, Color::WHITE);
    let s5 = set_keys(table, BitBoard(k & board.piece_of_type[0].0), Piece::PAWN, Color::BLACK);
    let s6 = set_keys(table, BitBoard(k & board.piece_of_type[1].0), Piece::KNIGHT, Color::BLACK);
    let s7 = set_keys(table, BitBoard(k & board.piece_of_type[2].0), Piece::BISHOP, Color::BLACK);
    let s8 = set_keys(table, BitBoard(k & board.piece_of_type[3].0), Piece::ROOK, Color::BLACK);
    let s9 = set_keys(table, BitBoard(k & board.piece_of_type[4].0), Piece::QUEEN, Color::BLACK);
    let kw = table.piece_key(board.king_pos[0], Piece::KING, Color::WHITE);
    let kb = table.piece_key(board.king_pos[1], Piece::KING, Color::BLACK);
    let h6 = h5 ^ s0 ^ s1 ^ s2 ^ s3 ^ s4 ^ s5 ^ s6 ^ s7 ^ s8 ^ s9 ^ kw ^ kb;
    let h = if board.side_to_play == Color::BLACK { h6 ^ table.side } else { h6 };
    proof {
        let t = *table;
        let b = *board;
        lemma_king_hash(t, b, Color::WHITE, 64);
        lemma_king_hash(t, b, Color::BLACK, 64);
        lemma_sets_are_cells(t, b, 64);
        let c0 = term(b.can_castle_king_side[0], t.castling[0]);
        let c1 = term(b.can_castle_king_side[1], t.castling[1]);
        let c2 = term(b.can_castle_queen_side[0], t.castling[2]);
        let c3 = term(b.can_castle_queen_side[1], t.castling[3]);
        let e = ep_term(t, b);
        let sd = term(b.side_to_play == Color::BLACK, t.side);
        lemma_term_step(h0, b.can_castle_king_side[0], t.castling[0], h1);
        lemma_term_step(h1, b.can_castle_king_side[1], t.castling[1], h2);
        lemma_term_step(h2, b.can_castle_queen_side[0], t.castling[2], h3);
        lemma_term_step(h3, b.can_castle_queen_side[1], t.castling[3], h4);
        lemma_term_step(h4, b.en_passant is Some, e, h5);
        lemma_term_step(h6, b.side_to_play == Color::BLACK, t.side, h);
        let cells = cells_hash(t, b, 64);
        assert(cells == s0 ^ s1 ^ s2 ^ s3 ^ s4 ^ s5 ^ s6 ^ s7 ^ s8 ^ s9 ^ kw ^ kb);
        assert(h == (c0 ^ c1 ^ c2 ^ c3 ^ e ^ sd) ^ cells) by (bit_vector)
            requires
                h0 == 0,
                h1 == h0 ^ c0,
                h2 == h1 ^ c1,
                h3 == h2 ^ c2,
                h4 == h3 ^ c3,
                h5 == h4 ^ e,
                h6 == h5 ^ s0 ^ s1 ^ s2 ^ s3 ^ s4 ^ s5 ^ s6 ^ s7 ^ s8 ^ s9 ^ kw ^ kb,
                h == h6 ^ sd,
                cells == s0 ^ s1 ^ s2 ^ s3 ^ s4 ^ s5 ^ s6 ^ s7 ^ s8 ^ s9 ^ kw ^ kb,
        ;
    }
    h
}

/// The castling rights that a move takes, as the update of the
/// fingerprint reckons them: king side white and black, then queen side
/// white and black.
pub struct RightsLost {
    pub king_side: [bool; 2],
    pub queen_side: [bool; 2],
}

/// No right is lost.
pub open spec fn no_loss() -> RightsLost {
    RightsLost { king_side: [false, false], queen_side: [false, false] }
}

/// The keys of the king and the rook of `color` on the squares that they
/// leave and reach in castling.
pub open spec fn castle_keys(
    t: ZobristTable,
    color: Color,
    king_from: u8,
    king_to: u8,
    rook_to: u8,
    rook_from: u8,
) -> u64 {
    t.key(king_from as int, Piece::KING, color) ^ t.key(king_to as int, Piece::KING, color) ^ t.key(
        rook_to as int,
        Piece::ROOK,
        color,
    ) ^ t.key(rook_from as int, Piece::ROOK, color)
}

/// Both rights of `color`.
pub open spec fn castle_loss(color: Color) -> RightsLost {
    RightsLost {
        king_side: [color == Color::WHITE, color == Color::BLACK],
        queen_side: [color == Color::WHITE, color == Color::BLACK],
    }
}

/// The keys of the pieces that the move `m` takes from or puts on a
/// square, and of the en-passant file that it opens.
pub open spec fn move_keys(t: ZobristTable, b: Board, m: Move) -> u64 {
    let us = b.side_to_play;
    let them = us.opposite();
    match m {
        Move::NormalMove { origin, dest, piece } => t.key(origin.idx(), piece, us) ^ t.key(
            dest.idx(),
            piece,
            us,
        ) ^ (match b.spec_piece_at(square_bit(dest)) {
            Some(taken) => t.key(dest.idx(), taken, them),
            None => 0,
        }) ^ term(
            piece == Piece::PAWN && (dest.spec_rank() == origin.spec_rank() + 2 || dest.spec_rank()
                + 2 == origin.spec_rank()),
            t.en_passant[origin.spec_file()],
        ),
        Move::Promotion { origin, dest, piece } => t.key(origin.idx(), Piece::PAWN, us) ^ t.key(
            dest.idx(),
            piece,
            us,
        ) ^ (if b.color_bits(them) & square_bit(dest) != 0 {
            match b.spec_piece_at(square_bit(dest)) {
                Some(taken) => t.key(dest.idx(), taken, them),
                None => 0,
            }
        } else {
            0
        }),
        Move::EnPassant { origin, dest, capture } => t.key(origin.idx(), Piece::PAWN, us) ^ t.key(
            dest.idx(),
            Piece::PAWN,
            us,
        ) ^ t.key(capture.idx(), Piece::PAWN, them),
        Move::CastleKingSideWhite => castle_keys(t, Color::WHITE, SQ_E1, SQ_G1, SQ_F1, SQ_H1),
        Move::CastleQueenSideWhite => castle_keys(t, Color::WHITE, SQ_E1, SQ_C1, SQ_D1, SQ_A1),
        Move::CastleKingSideBlack => castle_keys(t, Color::BLACK, SQ_E8, SQ_G8, SQ_F8, SQ_H8),
        Move::CastleQueenSideBlack => castle_keys(t, Color::BLACK, SQ_E8, SQ_C8, SQ_D8, SQ_A8),
        Move::NullMove => 0,
    }
}

/// The rights that the update takes to be lost by the move `m`: those of
/// a corner moved from or to, and those of a king's square moved from.
pub open spec fn rights_lost(b: Board, m: Move) -> RightsLost {
    match m {
        Move::NormalMove { origin, dest, piece } => {
            let both = square_bit(origin) | square_bit(dest);
            RightsLost {
                king_side: [
                    both & BB_H1 != 0 || origin.0 == SQ_E1,
                    both & BB_H8 != 0 || origin.0 == SQ_E8,
                ],
                queen_side: [
                    both & BB_A1 != 0 || origin.0 == SQ_E1,
                    both & BB_A8 != 0 || origin.0 == SQ_E8,
                ],
            }
        },
        Move::Promotion { origin, dest, piece } => {
            let d = square_bit(dest);
            if b.color_bits(b.side_to_play.opposite()) & d != 0 && b.spec_piece_at(d) is Some {
                RightsLost {
                    king_side: [d & BB_H1 != 0, d & BB_H8 != 0],
                    queen_side: [d & BB_A1 != 0, d & BB_A8 != 0],
                }
            } else {
                no_loss()
            }
        },
        Move::CastleKingSideWhite | Move::CastleQueenSideWhite => castle_loss(Color::WHITE),
        Move::CastleKingSideBlack | Move::CastleQueenSideBlack => castle_loss(Color::BLACK),
        _ => no_loss(),
    }
}

/// The keys of the rights that the position holds and the move takes.
pub open spec fn lost_keys(t: ZobristTable, b: Board, m: Move) -> u64 {
    let lost = rights_lost(b, m);
    term(b.can_castle_king_side[0] && lost.king_side[0], t.castling[0]) ^ term(
        b.can_castle_king_side[1] && lost.king_side[1],
        t.castling[1],
    ) ^ term(b.can_castle_queen_side[0] && lost.queen_side[0], t.castling[2]) ^ term(
        b.can_castle_queen_side[1] && lost.queen_side[1],
        t.castling[3],
    )
}

/// The fingerprint `prev` of the position `b` carried over the move `m`:
/// the side to move changes, the en-passant file closes, the pieces moved
/// or taken change their keys, and the rights lost give up theirs.
pub open spec fn spec_hash_update(t: ZobristTable, b: Board, prev: u64, m: Move) -> u64 {
    prev ^ t.side ^ ep_term(t, b) ^ move_keys(t, b, m) ^ lost_keys(t, b, m)
}

fn hash_update_en_passant(
    table: &ZobristTable,
    hash: u64,
    origin: Square,
    dest: Square,
    capture: Square,
    side_to_play: Color,
) -> (res: (u64, RightsLost))
    requires
        table.wf(),
        origin.valid(),
        dest.valid(),
        capture.valid(),
    ensures
        res.0 == hash ^ (table.key(origin.idx(), Piece::PAWN, side_to_play) ^ table.key(
            dest.idx(),
            Piece::PAWN,
            side_to_play,
        ) ^ table.key(capture.idx(), Piece::PAWN, side_to_play.opposite())),
        res.1 == no_loss(),
{
    let a = table.piece_key(origin, Piece::PAWN, side_to_play);
    let b = table.piece_key(dest, Piece::PAWN, side_to_play);
    let c = table.piece_key(capture, Piece::PAWN, side_to_play.opposite());
    let h = hash ^ a ^ b ^ c;
    assert(h == hash ^ (a ^ b ^ c)) by (bit_vector)
        requires
            h == hash ^ a ^ b ^ c,
    ;
    (h, RightsLost { king_side: [false, false], queen_side: [false, false] })
}

fn hash_update_promotion(
    table: &ZobristTable,
    hash: u64,
    origin: Square,
    dest: Square,
    piece: Piece,
    board: &Board,
) -> (res: (u64, RightsLost))
    requires
        table.wf(),
        board.wf(),
        origin.valid(),
        dest.valid(),
    ensures
        res.0 == hash ^ move_keys(*table, *board, Move::Promotion { origin, dest, piece }),
        res.1 == rights_lost(*board, Move::Promotion { origin, dest, piece }),
{
    let dest_bb = BitBoard::from_square(dest);
    let us = board.side_to_play;
    let opposite = us.opposite();
    let a = table.piece_key(origin, Piece::PAWN, us);
    let b = table.piece_key(dest, piece, us);
    if board.piece_of_color[opposite.slot()].0 & dest_bb.0 != 0 {
        if let Some(capture) = board.piece_at(dest_bb) {
            let c = table.piece_key(dest, capture, opposite);
            let h = hash ^ a ^ b ^ c;
            assert(h == hash ^ (a ^ b ^ c)) by (bit_vector)
                requires
                    h == hash ^ a ^ b ^ c,
            ;
            return (
                h,
                RightsLost {
                    king_side: [dest_bb.0 & BB_H1 != 0, dest_bb.0 & BB_H8 != 0],
                    queen_side: [dest_bb.0 & BB_A1 != 0, dest_bb.0 & BB_A8 != 0],
                },
            );
        }
    }
    let h = hash ^ a ^ b;
    assert(h == hash ^ (a ^ b ^ 0)) by (bit_vector)
        requires
            h == hash ^ a ^ b,
    ;
    (h, RightsLost { king_side: [false, false], queen_side: [false, false] })
}

fn hash_update_castle(
    table: &ZobristTable,
    hash: u64,
    color: Color,
    king_from: u8,
    king_to: u8,
    rook_to: u8,
    rook_from: u8,
) -> (res: (u64, RightsLost))
    requires
        table.wf(),
        king_from < 64,
        king_to < 64,
        rook_to < 64,
        rook_from < 64,
    ensures
        res.0 == hash ^ castle_keys(*table, color, king_from, king_to, rook_to, rook_from),
        res.1 == castle_loss(color),
{
    let a = table.piece_key(Square(king_from), Piece::KING, color);
    let b = table.piece_key(Square(king_to), Piece::KING, color);
    let c = table.piece_key(Square(rook_to), Piece::ROOK, color);
    let d = table.piece_key(Square(rook_from), Piece::ROOK, color);
    let h = hash ^ a ^ b ^ c ^ d;
    assert(h == hash ^ (a ^ b ^ c ^ d)) by (bit_vector)
        requires
            h == hash ^ a ^ b ^ c ^ d,
    ;
    let white = match color {
        Color::WHITE => true,
        Color::BLACK => false,
    };
    (h, RightsLost { king_side: [white, !white], queen_side: [white, !white] })
}

fn hash_update_castle_king_side_white(table: &ZobristTable, hash: u64) -> (res: (u64, RightsLost))
    requires
        table.wf(),
    ensures
        res.0 == hash ^ castle_keys(*table, Color::WHITE, SQ_E1, SQ_G1, SQ_F1, SQ_H1),
        res.1 == castle_loss(Color::WHITE),
{
    hash_update_castle(table, hash, Color::WHITE, SQ_E1, SQ_G1, SQ_F1, SQ_H1)
}

fn hash_update_castle_king_side_black(table: &ZobristTable, hash: u64) -> (res: (u64, RightsLost))
    requires
        table.wf(),
    ensures
        res.0 == hash ^ castle_keys(*table, Color::BLACK, SQ_E8, SQ_G8, SQ_F8, SQ_H8),
        res.1 == castle_loss(Color::BLACK),
{
    hash_update_castle(table, hash, Color::BLACK, SQ_E8, SQ_G8, SQ_F8, SQ_H8)
}

fn hash_update_castle_queen_side_white(table: &ZobristTable, hash: u64) -> (res: (u64, RightsLost))
    requires
        table.wf(),
    ensures
        res.0 == hash ^ castle_keys(*table, Color::WHITE, SQ_E1, SQ_C1, SQ_D1, SQ_A1),
        res.1 == castle_loss(Color::WHITE),
{
    hash_update_castle(table, hash, Color::WHITE, SQ_E1, SQ_C1, SQ_D1, SQ_A1)
}

fn hash_update_castle_queen_side_black(table: &ZobristTable, hash: u64) -> (res: (u64, RightsLost))
    requires
        table.wf(),
    ensures
        res.0 == hash ^ castle_keys(*table, Color::BLACK, SQ_E8, SQ_C8, SQ_D8, SQ_A8),
        res.1 == castle_loss(Color::BLACK),
{
    hash_update_castle(table, hash, Color::BLACK, SQ_E8, SQ_C8, SQ_D8, SQ_A8)
}

fn hash_update_normal(
    table: &ZobristTable,
    board: &Board,
    prev: u64,
    piece: Piece,
    origin: Square,
    dest: Square,
) -> (res: (u64, RightsLost))
    requires
        table.wf(),
        board.wf(),
        origin.valid(),
        dest.valid(),
    ensures
        res.0 == prev ^ move_keys(*table, *board, Move::NormalMove { origin, dest, piece }),
        res.1 == rights_lost(*board, Move::NormalMove { origin, dest, piece }),
{
    let us = board.side_to_play;
    let origin_bb = BitBoard::from_square(origin);
    let dest_bb = BitBoard::from_square(dest);
    let a = table.piece_key(origin, piece, us);
    let b = table.piece_key(dest, piece, us);
    let c = match board.piece_at(dest_bb) {
        Some(capture) => table.piece_key(dest, capture, us.opposite()),
        None => 0,
    };
    let double_step = piece == Piece::PAWN && (dest.rank() == origin.rank() + 2 || dest.rank() + 2
        == origin.rank());
    let e = if double_step {
        table.en_passant[origin.file() as usize]
    } else {
        0
    };
    let hash = prev ^ a ^ b ^ c ^ e;
    assert(hash == prev ^ (a ^ b ^ c ^ e)) by (bit_vector)
        requires
            hash == prev ^ a ^ b ^ c ^ e,
    ;
    let both = origin_bb.0 | dest_bb.0;
    (
        hash,
        RightsLost {
            king_side: [both & BB_H1 != 0 || origin.0 == SQ_E1, both & BB_H8 != 0 || origin.0 == SQ_E8],
            queen_side: [
                both & BB_A1 != 0 || origin.0 == SQ_E1,
                both & BB_A8 != 0 || origin.0 == SQ_E8,
            ],
        },
    )
}

/// The fingerprint of the position after the move `m`, from the fingerprint
/// `prev` of the position `board` before it.
pub fn hash_update(table: &ZobristTable, board: &Board, prev: u64, m: Move) -> (res: u64)
    requires
        table.wf(),
        board.wf(),
        m.wf(),
    ensures
        res == spec_hash_update(*table, *board, prev, m),
{
    let h1 = prev ^ table.side;
    let h2 = match board.en_passant {
        Some(en_passant) => h1 ^ table.en_passant[en_passant.file() as usize],
        None => h1,
    };
    let (h3, lost) = match m {
        Move::NormalMove { piece, origin, dest } => hash_update_normal(
            table,
            board,
            h2,
            piece,
            origin,
            dest,
        ),
        Move::CastleKingSideWhite => hash_update_castle_king_side_white(table, h2),
        Move::CastleQueenSideWhite => hash_update_castle_queen_side_white(table, h2),
        Move::CastleKingSideBlack => hash_update_castle_king_side_black(table, h2),
        Move::CastleQueenSideBlack => hash_update_castle_queen_side_black(table, h2),
        Move::Promotion { origin, dest, piece } => hash_update_promotion(
            table,
            h2,
            origin,
            dest,
            piece,
            board,
        ),
        Move::EnPassant { origin, dest, capture } => hash_update_en_passant(
            table,
            h2,
            origin,
            dest,
            capture,
            board.side_to_play,
        ),
        Move::NullMove => {
            proof {
                lemma_xor_laws();
            }
            (h2, RightsLost { king_side: [false, false], queen_side: [false, false] })
        },
    };
    assert(lost.king_side =~= rights_lost(*board, m).king_side);
    assert(lost.queen_side =~= rights_lost(*board, m).queen_side);
    let h4 = if board.can_castle_king_side[0] && lost.king_side[0] {
        h3 ^ table.castling[0]
    } else {
        h3
    };
    let h5 = if board.can_castle_king_side[1] && lost.king_side[1] {
        h4 ^ table.castling[1]
    } else {
        h4
    };
    let h6 = if board.can_castle_queen_side[0] && lost.queen_side[0] {
        h5 ^ table.castling[2]
    } else {
        h5
    };
    let h7 = if board.can_castle_queen_side[1] && lost.queen_side[1] {
        h6 ^ table.castling[3]
    } else {
        h6
    };
    proof {
        let t = *table;
        let b = *board;
        let e = ep_term(t, b);
        let mk = move_keys(t, b, m);
        let l0 = term(b.can_castle_king_side[0] && lost.king_side[0], t.castling[0]);
        let l1 = term(b.can_castle_king_side[1] && lost.king_side[1], t.castling[1]);
        let l2 = term(b.can_castle_queen_side[0] && lost.queen_side[0], t.castling[2]);
        let l3 = term(b.can_castle_queen_side[1] && lost.queen_side[1], t.castling[3]);
        lemma_term_step(h1, b.en_passant is Some, e, h2);
        lemma_term_step(h3, b.can_castle_king_side[0] && lost.king_side[0], t.castling[0], h4);
        lemma_term_step(h4, b.can_castle_king_side[1] && lost.king_side[1], t.castling[1], h5);
        lemma_term_step(h5, b.can_castle_queen_side[0] && lost.queen_side[0], t.castling[2], h6);
        lemma_term_step(h6, b.can_castle_queen_side[1] && lost.queen_side[1], t.castling[3], h7);
        assert(h3 == h2 ^ mk);
        let side = t.side;
        assert(h7 == prev ^ side ^ e ^ mk ^ (l0 ^ l1 ^ l2 ^ l3)) by (bit_vector)
            requires
                h1 == prev ^ side,
                h2 == h1 ^ e,
                h3 == h2 ^ mk,
                h4 == h3 ^ l0,
                h5 == h4 ^ l1,
                h6 == h5 ^ l2,
                h7 == h6 ^ l3,
        ;
    }
    h7
}

} // verus!
