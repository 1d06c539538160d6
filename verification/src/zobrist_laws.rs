//! Why the fingerprint carried along from move to move is the fingerprint
//! of the position reached.
use vstd::prelude::*;
use crate::bits::bit;
use crate::bits::lemma_bit_ops;
use crate::bits::lemma_single_bit;
use crate::bits::lemma_xor_laws;
use crate::bits::lemma_corner_bits;
use crate::board_laws::castling_of;
use crate::board_laws::follows;
use crate::board_laws::lemma_apply_follows;
use crate::board_laws::piece_after;
use crate::board_laws::color_after;
use crate::board::square_bit;
use crate::board::Board;
use crate::moves::Move;
use crate::pieces::Color;
use crate::pieces::Piece;
use crate::square::Square;
use crate::zobrist_hash::cell;
use crate::zobrist_hash::ep_term;
use crate::zobrist_hash::lost_keys;
use crate::zobrist_hash::move_keys;
use crate::zobrist_hash::rights_lost;
use crate::zobrist_hash::spec_hash;
use crate::zobrist_hash::spec_hash_update;
use crate::zobrist_hash::cells_hash;
use crate::zobrist_hash::term;
use crate::zobrist_hash::ZobristTable;

verus! {

/// The key of the piece that stands on `s`, or 0 for an empty square.
pub open spec fn occupant_key(t: ZobristTable, b: Board, s: Square) -> u64 {
    match (b.piece_on(s), b.color_on(s)) {
        (Some(p), Some(c)) => t.key(s.idx(), p, c),
        _ => 0,
    }
}

/// The exclusive or of twelve words of which all but the one at `j` are 0
/// is that word, and 0 if all are.
proof fn lemma_only(v: Seq<u64>, j: int)
    requires
        v.len() == 12,
        forall|i: int| 0 <= i < 12 && i != j ==> v[i] == 0,
    ensures
        v[0] ^ v[1] ^ v[2] ^ v[3] ^ v[4] ^ v[5] ^ v[6] ^ v[7] ^ v[8] ^ v[9] ^ v[10] ^ v[11] == (if 0
            <= j < 12 {
            v[j]
        } else {
            0
        }),
{
    lemma_xor_laws();
}

/// The position of a piece type and a colour among the twelve terms of a
/// square: white before black, and the types in their order.
pub open spec fn slot_of(p: Piece, c: Color) -> int {
    if p == Piece::KING {
        10 + c.idx()
    } else {
        c.idx() * 5 + p.idx()
    }
}

/// In a consistent position each square adds the key of the piece on it.
pub proof fn lemma_cell_is_occupant(t: ZobristTable, b: Board, s: Square)
    requires
        b.consistent(),
        s.valid(),
    ensures
        cell(t, b, s.idx()) == occupant_key(t, b, s),
{
    lemma_bit_ops();
    let w = b.piece_of_color[0].0;
    let k = b.piece_of_color[1].0;
    let ty = b.piece_of_type;
    let i = s.0 as u64;
    let n = s.idx();
    let v = seq![
        term(bit(w & ty[0].0, i), t.key(n, Piece::PAWN, Color::WHITE)),
        term(bit(w & ty[1].0, i), t.key(n, Piece::KNIGHT, Color::WHITE)),
        term(bit(w & ty[2].0, i), t.key(n, Piece::BISHOP, Color::WHITE)),
        term(bit(w & ty[3].0, i), t.key(n, Piece::ROOK, Color::WHITE)),
        term(bit(w & ty[4].0, i), t.key(n, Piece::QUEEN, Color::WHITE)),
        term(bit(k & ty[0].0, i), t.key(n, Piece::PAWN, Color::BLACK)),
        term(bit(k & ty[1].0, i), t.key(n, Piece::KNIGHT, Color::BLACK)),
        term(bit(k & ty[2].0, i), t.key(n, Piece::BISHOP, Color::BLACK)),
        term(bit(k & ty[3].0, i), t.key(n, Piece::ROOK, Color::BLACK)),
        term(bit(k & ty[4].0, i), t.key(n, Piece::QUEEN, Color::BLACK)),
        term(b.king_pos[0].0 == n, t.key(n, Piece::KING, Color::WHITE)),
        term(b.king_pos[1].0 == n, t.key(n, Piece::KING, Color::BLACK)),
    ];
    assert(b.has_type(Piece::PAWN, s) == bit(ty[0].0, i));
    assert(b.has_type(Piece::KNIGHT, s) == bit(ty[1].0, i));
    assert(b.has_type(Piece::BISHOP, s) == bit(ty[2].0, i));
    assert(b.has_type(Piece::ROOK, s) == bit(ty[3].0, i));
    assert(b.has_type(Piece::QUEEN, s) == bit(ty[4].0, i));
    assert(b.has_color(Color::WHITE, s) == bit(w, i));
    assert(b.has_color(Color::BLACK, s) == bit(k, i));
    assert(b.has_any_type(s) ==> s != b.king_pos[0] && s != b.king_pos[1]);
    assert((b.has_color(Color::WHITE, s) || b.has_color(Color::BLACK, s)) == (b.has_any_type(s)
        || s == b.king_pos[0] || s == b.king_pos[1]));
    let j = match (b.piece_on(s), b.color_on(s)) {
        (Some(p), Some(c)) => slot_of(p, c),
        _ => -1,
    };
    assert forall|x: int| 0 <= x < 12 && x != j implies v[x] == 0 by {
    }
    lemma_only(v, j);
}

/// The change that square `x` makes between two positions, counted once
/// the squares below `n` are reached.
pub open spec fn cell_change(t: ZobristTable, b: Board, b2: Board, x: int, n: nat) -> u64 {
    if 0 <= x < n {
        cell(t, b, x) ^ cell(t, b2, x)
    } else {
        0
    }
}

/// Two positions that differ on at most four squares `x0` to `x3`; a
/// negative number stands for no square.
pub open spec fn differ_on(t: ZobristTable, b: Board, b2: Board, x0: int, x1: int, x2: int, x3: int)
    -> bool {
    &&& (x0 < 0 || (x0 != x1 && x0 != x2 && x0 != x3))
    &&& (x1 < 0 || (x1 != x2 && x1 != x3))
    &&& (x2 < 0 || x2 != x3)
    &&& forall|s: int|
        0 <= s < 64 && s != x0 && s != x1 && s != x2 && s != x3 ==> #[trigger] cell(t, b, s)
            == cell(t, b2, s)
}

proof fn lemma_xor_step(f: u64, g: u64, c: u64, c2: u64, d0: u64, d1: u64, d2: u64, d3: u64, e: u64)
    by (bit_vector)
    requires
        g == f ^ d0 ^ d1 ^ d2 ^ d3,
        e == c ^ c2,
    ensures
        e == 0 ==> g ^ c2 == (f ^ c) ^ d0 ^ d1 ^ d2 ^ d3,
        d0 == 0 ==> g ^ c2 == (f ^ c) ^ e ^ d1 ^ d2 ^ d3,
        d1 == 0 ==> g ^ c2 == (f ^ c) ^ d0 ^ e ^ d2 ^ d3,
        d2 == 0 ==> g ^ c2 == (f ^ c) ^ d0 ^ d1 ^ e ^ d3,
        d3 == 0 ==> g ^ c2 == (f ^ c) ^ d0 ^ d1 ^ d2 ^ e,
{
}

/// The fingerprints of the squares of two positions that differ on at most
/// four squares differ by the changes on those squares.
pub proof fn lemma_cells_change(
    t: ZobristTable,
    b: Board,
    b2: Board,
    x0: int,
    x1: int,
    x2: int,
    x3: int,
    n: nat,
)
    requires
        n <= 64,
        differ_on(t, b, b2, x0, x1, x2, x3),
    ensures
        cells_hash(t, b2, n) == cells_hash(t, b, n) ^ cell_change(t, b, b2, x0, n) ^ cell_change(
            t,
            b,
            b2,
            x1,
            n,
        ) ^ cell_change(t, b, b2, x2, n) ^ cell_change(t, b, b2, x3, n),
    decreases n,
{
    if n == 0 {
        assert(0u64 == 0u64 ^ 0 ^ 0 ^ 0 ^ 0) by (bit_vector);
    } else {
        let m = (n - 1) as nat;
        lemma_cells_change(t, b, b2, x0, x1, x2, x3, m);
        let c = cell(t, b, m as int);
        let c2 = cell(t, b2, m as int);
        lemma_xor_step(
            cells_hash(t, b, m),
            cells_hash(t, b2, m),
            c,
            c2,
            cell_change(t, b, b2, x0, m),
            cell_change(t, b, b2, x1, m),
            cell_change(t, b, b2, x2, m),
            cell_change(t, b, b2, x3, m),
            c ^ c2,
        );
        if m != x0 && m != x1 && m != x2 && m != x3 {
            assert(c == c2);
            assert(c ^ c2 == 0) by (bit_vector)
                requires
                    c == c2,
            ;
        }
    }
}

/// What a right that is kept or lost adds after the move.
proof fn lemma_right_term(held: bool, lost: bool, held2: bool, key: u64)
    requires
        held2 == (held && !lost),
    ensures
        term(held2, key) == term(held, key) ^ term(held && lost, key),
{
    lemma_xor_laws();
}

/// What the side to move adds after the turn has passed.
proof fn lemma_side_term(black: bool, key: u64)
    ensures
        term(!black, key) == term(black, key) ^ key,
{
    lemma_xor_laws();
}

/// The last step of every case: from what the move changes in the terms
/// of the position to the equality of the two fingerprints.
proof fn lemma_assemble(
    t: ZobristTable,
    b: Board,
    b2: Board,
    m: Move,
    x0: int,
    x1: int,
    x2: int,
    x3: int,
)
    requires
        b2.side_to_play == b.side_to_play.opposite(),
        rights_follow(b, b2, m),
        differ_on(t, b, b2, x0, x1, x2, x3),
        move_keys(t, b, m) == cell_change(t, b, b2, x0, 64) ^ cell_change(t, b, b2, x1, 64)
            ^ cell_change(t, b, b2, x2, 64) ^ cell_change(t, b, b2, x3, 64) ^ ep_term(t, b2),
    ensures
        spec_hash_update(t, b, spec_hash(t, b), m) == spec_hash(t, b2),
{
    lemma_cells_change(t, b, b2, x0, x1, x2, x3, 64);
    let lost = rights_lost(b, m);
    let r0 = term(b.can_castle_king_side[0], t.castling[0]);
    let r1 = term(b.can_castle_king_side[1], t.castling[1]);
    let ra = term(b.can_castle_queen_side[0], t.castling[2]);
    let rb = term(b.can_castle_queen_side[1], t.castling[3]);
    let q0 = term(b2.can_castle_king_side[0], t.castling[0]);
    let q1 = term(b2.can_castle_king_side[1], t.castling[1]);
    let qa = term(b2.can_castle_queen_side[0], t.castling[2]);
    let qb = term(b2.can_castle_queen_side[1], t.castling[3]);
    let l0 = term(b.can_castle_king_side[0] && lost.king_side[0], t.castling[0]);
    let l1 = term(b.can_castle_king_side[1] && lost.king_side[1], t.castling[1]);
    let la = term(b.can_castle_queen_side[0] && lost.queen_side[0], t.castling[2]);
    let lb = term(b.can_castle_queen_side[1] && lost.queen_side[1], t.castling[3]);
    let side = t.side;
    let sd = term(b.side_to_play == Color::BLACK, side);
    let sd2 = term(b2.side_to_play == Color::BLACK, side);
    let e = ep_term(t, b);
    let e2 = ep_term(t, b2);
    let cells = cells_hash(t, b, 64);
    let cells2 = cells_hash(t, b2, 64);
    let d0 = cell_change(t, b, b2, x0, 64);
    let d1 = cell_change(t, b, b2, x1, 64);
    let d2 = cell_change(t, b, b2, x2, 64);
    let d3 = cell_change(t, b, b2, x3, 64);
    let mk = move_keys(t, b, m);
    let h = spec_hash(t, b);
    let h2 = spec_hash(t, b2);
    let u = spec_hash_update(t, b, h, m);
    let lk = lost_keys(t, b, m);
    lemma_right_term(b.can_castle_king_side[0], lost.king_side[0], b2.can_castle_king_side[0], t.castling[0]);
    lemma_right_term(b.can_castle_king_side[1], lost.king_side[1], b2.can_castle_king_side[1], t.castling[1]);
    lemma_right_term(b.can_castle_queen_side[0], lost.queen_side[0], b2.can_castle_queen_side[0], t.castling[2]);
    lemma_right_term(b.can_castle_queen_side[1], lost.queen_side[1], b2.can_castle_queen_side[1], t.castling[3]);
    lemma_side_term(b.side_to_play == Color::BLACK, side);
    assert(sd2 == sd ^ side);
    assert(u == h2) by (bit_vector)
        requires
            h == (r0 ^ r1 ^ ra ^ rb ^ e ^ sd) ^ cells,
            h2 == (q0 ^ q1 ^ qa ^ qb ^ e2 ^ sd2) ^ cells2,
            u == h ^ side ^ e ^ mk ^ lk,
            lk == l0 ^ l1 ^ la ^ lb,
            q0 == r0 ^ l0,
            q1 == r1 ^ l1,
            qa == ra ^ la,
            qb == rb ^ lb,
            sd2 == sd ^ side,
            cells2 == cells ^ d0 ^ d1 ^ d2 ^ d3,
            mk == d0 ^ d1 ^ d2 ^ d3 ^ e2,
    ;
}

/// Whether the rights of `b2` are those of `b` less the rights that the
/// update takes to be lost by `m`.
pub open spec fn rights_follow(b: Board, b2: Board, m: Move) -> bool {
    let lost = rights_lost(b, m);
    &&& b2.can_castle_king_side[0] == (b.can_castle_king_side[0] && !lost.king_side[0])
    &&& b2.can_castle_king_side[1] == (b.can_castle_king_side[1] && !lost.king_side[1])
    &&& b2.can_castle_queen_side[0] == (b.can_castle_queen_side[0] && !lost.queen_side[0])
    &&& b2.can_castle_queen_side[1] == (b.can_castle_queen_side[1] && !lost.queen_side[1])
}

/// The squares outside those that the move touches add the same before
/// and after.
proof fn lemma_untouched(t: ZobristTable, b: Board, b2: Board, m: Move, s: int)
    requires
        b.consistent(),
        follows(b, b2, m),
        0 <= s < 64,
        piece_after(b, m, Square(s as u8)) == b.piece_on(Square(s as u8)),
        color_after(b, m, Square(s as u8)) == b.color_on(Square(s as u8)),
    ensures
        cell(t, b, s) == cell(t, b2, s),
{
    let sq = Square(s as u8);
    lemma_cell_is_occupant(t, b, sq);
    lemma_cell_is_occupant(t, b2, sq);
    assert(b2.piece_on(sq) == piece_after(b, m, sq));
    assert(b2.color_on(sq) == color_after(b, m, sq));
}

/// What a touched square adds before and after.
proof fn lemma_touched(t: ZobristTable, b: Board, b2: Board, m: Move, sq: Square)
    requires
        b.consistent(),
        follows(b, b2, m),
        sq.valid(),
    ensures
        cell(t, b, sq.idx()) == occupant_key(t, b, sq),
        cell(t, b2, sq.idx()) == (match (piece_after(b, m, sq), color_after(b, m, sq)) {
            (Some(p), Some(c)) => t.key(sq.idx(), p, c),
            _ => 0,
        }),
{
    lemma_cell_is_occupant(t, b, sq);
    lemma_cell_is_occupant(t, b2, sq);
    assert(b2.piece_on(sq) == piece_after(b, m, sq));
    assert(b2.color_on(sq) == color_after(b, m, sq));
}

/// The fingerprint carried over a fitting move of a piece.
#[verifier::spinoff_prover]
#[verifier::rlimit(80)]
proof fn lemma_hash_normal(t: ZobristTable, b: Board, b2: Board, origin: Square, dest: Square, piece: Piece)
    requires
        t.wf(),
        b.consistent(),
        b.castling_consistent(),
        b.fits(Move::NormalMove { origin, dest, piece }),
        follows(b, b2, Move::NormalMove { origin, dest, piece }),
    ensures
        spec_hash_update(t, b, spec_hash(t, b), Move::NormalMove { origin, dest, piece })
            == spec_hash(t, b2),
{
    let m = Move::NormalMove { origin, dest, piece };
    let us = b.side_to_play;
    let them = us.opposite();
    assert forall|s: int|
        0 <= s < 64 && s != origin.idx() && s != dest.idx() && s != -1 && s != -2 implies #[trigger] cell(
        t,
        b,
        s,
    ) == cell(t, b2, s) by {
        lemma_untouched(t, b, b2, m, s);
    }
    lemma_touched(t, b, b2, m, origin);
    lemma_touched(t, b, b2, m, dest);
    b.lemma_piece_at_square(dest);
    assert(b.has_any_type(dest) == b.has_any_type(dest));
    let ko = t.key(origin.idx(), piece, us);
    let kd = t.key(dest.idx(), piece, us);
    let tk = occupant_key(t, b, dest);
    let e2 = ep_term(t, b2);
    assert(b.piece_on(dest).is_some() == b.has_any_type(dest));
    assert(b.has_any_type(dest) == (b.has_color(Color::WHITE, dest) || b.has_color(
        Color::BLACK,
        dest,
    )));
    assert(b.piece_on(dest) is Some ==> b.color_on(dest) == Some(them));
    assert(b.piece_on(dest) is None ==> b.color_on(dest) is None);
    assert(tk == (match b.spec_piece_at(square_bit(dest)) {
        Some(taken) => t.key(dest.idx(), taken, them),
        None => 0,
    }));
    let double = piece == Piece::PAWN && (dest.spec_rank() == origin.spec_rank() + 2
        || dest.spec_rank() + 2 == origin.spec_rank());
    assert(e2 == term(double, t.en_passant[origin.spec_file()]));
    let d0 = cell_change(t, b, b2, origin.idx(), 64);
    let d1 = cell_change(t, b, b2, dest.idx(), 64);
    let d2 = cell_change(t, b, b2, -1, 64);
    let d3 = cell_change(t, b, b2, -2, 64);
    let mk = move_keys(t, b, m);
    assert(mk == ko ^ kd ^ tk ^ e2);
    assert(mk == d0 ^ d1 ^ d2 ^ d3 ^ e2) by (bit_vector)
        requires
            mk == ko ^ kd ^ tk ^ e2,
            d0 == ko ^ 0,
            d1 == tk ^ kd,
            d2 == 0,
            d3 == 0,
    ;
    lemma_bit_ops();
    lemma_single_bit();
    lemma_corner_bits();
    assert(rights_follow(b, b2, m));
    lemma_assemble(t, b, b2, m, origin.idx(), dest.idx(), -1, -2);
}

/// The fingerprint carried over a fitting promotion.
#[verifier::spinoff_prover]
#[verifier::rlimit(80)]
proof fn lemma_hash_promotion(
    t: ZobristTable,
    b: Board,
    b2: Board,
    origin: Square,
    dest: Square,
    piece: Piece,
)
    requires
        t.wf(),
        b.consistent(),
        b.castling_consistent(),
        b.fits(Move::Promotion { origin, dest, piece }),
        follows(b, b2, Move::Promotion { origin, dest, piece }),
    ensures
        spec_hash_update(t, b, spec_hash(t, b), Move::Promotion { origin, dest, piece })
            == spec_hash(t, b2),
{
    let m = Move::Promotion { origin, dest, piece };
    let us = b.side_to_play;
    let them = us.opposite();
    assert forall|s: int|
        0 <= s < 64 && s != origin.idx() && s != dest.idx() && s != -1 && s != -2 implies #[trigger] cell(
        t,
        b,
        s,
    ) == cell(t, b2, s) by {
        lemma_untouched(t, b, b2, m, s);
    }
    lemma_touched(t, b, b2, m, origin);
    lemma_touched(t, b, b2, m, dest);
    b.lemma_piece_at_square(dest);
    lemma_bit_ops();
    lemma_single_bit();
    lemma_corner_bits();
    assert(b.has_any_type(dest) == b.has_any_type(dest));
    assert(b.has_any_type(origin));
    assert(b.piece_on(origin) == Some(Piece::PAWN));
    assert(b.color_on(origin) == Some(us));
    assert(b.piece_on(dest).is_some() == b.has_any_type(dest));
    assert(b.has_any_type(dest) == (b.has_color(Color::WHITE, dest) || b.has_color(
        Color::BLACK,
        dest,
    )));
    assert(b.piece_on(dest) is Some ==> b.color_on(dest) == Some(them));
    assert(b.piece_on(dest) is None ==> b.color_on(dest) is None);
    assert((b.color_bits(them) & square_bit(dest) != 0) == b.has_color(them, dest));
    let ko = t.key(origin.idx(), Piece::PAWN, us);
    let kd = t.key(dest.idx(), piece, us);
    let tk = occupant_key(t, b, dest);
    let e2 = ep_term(t, b2);
    let d0 = cell_change(t, b, b2, origin.idx(), 64);
    let d1 = cell_change(t, b, b2, dest.idx(), 64);
    let d2 = cell_change(t, b, b2, -1, 64);
    let d3 = cell_change(t, b, b2, -2, 64);
    let mk = move_keys(t, b, m);
    assert(mk == ko ^ kd ^ tk);
    assert(mk == d0 ^ d1 ^ d2 ^ d3 ^ e2) by (bit_vector)
        requires
            mk == ko ^ kd ^ tk,
            d0 == ko ^ 0,
            d1 == tk ^ kd,
            d2 == 0,
            d3 == 0,
            e2 == 0,
    ;
    assert(rights_follow(b, b2, m));
    lemma_assemble(t, b, b2, m, origin.idx(), dest.idx(), -1, -2);
}

/// The fingerprint carried over a fitting en-passant capture.
#[verifier::spinoff_prover]
#[verifier::rlimit(80)]
proof fn lemma_hash_en_passant(
    t: ZobristTable,
    b: Board,
    b2: Board,
    origin: Square,
    dest: Square,
    capture: Square,
)
    requires
        t.wf(),
        b.consistent(),
        b.castling_consistent(),
        b.fits(Move::EnPassant { origin, dest, capture }),
        follows(b, b2, Move::EnPassant { origin, dest, capture }),
    ensures
        spec_hash_update(t, b, spec_hash(t, b), Move::EnPassant { origin, dest, capture })
            == spec_hash(t, b2),
{
    let m = Move::EnPassant { origin, dest, capture };
    let us = b.side_to_play;
    let them = us.opposite();
    assert forall|s: int|
        0 <= s < 64 && s != origin.idx() && s != dest.idx() && s != capture.idx() && s
            != -1 implies #[trigger] cell(t, b, s) == cell(t, b2, s) by {
        lemma_untouched(t, b, b2, m, s);
    }
    lemma_touched(t, b, b2, m, origin);
    lemma_touched(t, b, b2, m, dest);
    lemma_touched(t, b, b2, m, capture);
    assert(b.has_any_type(origin) && b.has_any_type(capture));
    assert(b.has_any_type(dest) == b.has_any_type(dest));
    assert(b.piece_on(origin) == Some(Piece::PAWN));
    assert(b.piece_on(capture) == Some(Piece::PAWN));
    assert(b.color_on(origin) == Some(us));
    assert(b.color_on(capture) == Some(them));
    assert(b.color_on(dest) is None);
    let ko = t.key(origin.idx(), Piece::PAWN, us);
    let kd = t.key(dest.idx(), Piece::PAWN, us);
    let kc = t.key(capture.idx(), Piece::PAWN, them);
    let e2 = ep_term(t, b2);
    let d0 = cell_change(t, b, b2, origin.idx(), 64);
    let d1 = cell_change(t, b, b2, dest.idx(), 64);
    let d2 = cell_change(t, b, b2, capture.idx(), 64);
    let d3 = cell_change(t, b, b2, -1, 64);
    let mk = move_keys(t, b, m);
    assert(mk == ko ^ kd ^ kc);
    assert(mk == d0 ^ d1 ^ d2 ^ d3 ^ e2) by (bit_vector)
        requires
            mk == ko ^ kd ^ kc,
            d0 == ko ^ 0,
            d1 == 0 ^ kd,
            d2 == kc ^ 0,
            d3 == 0,
            e2 == 0,
    ;
    assert(rights_follow(b, b2, m));
    lemma_assemble(t, b, b2, m, origin.idx(), dest.idx(), capture.idx(), -1);
}

/// The fingerprint carried over a fitting castling.
#[verifier::spinoff_prover]
#[verifier::rlimit(80)]
proof fn lemma_hash_castling(t: ZobristTable, b: Board, b2: Board, m: Move)
    requires
        t.wf(),
        b.consistent(),
        b.castling_consistent(),
        castling_of(m) is Some,
        b.fits(m),
        follows(b, b2, m),
    ensures
        spec_hash_update(t, b, spec_hash(t, b), m) == spec_hash(t, b2),
{
    let c = castling_of(m).unwrap();
    let us = b.side_to_play;
    assert forall|s: int|
        0 <= s < 64 && s != c.king_from.idx() && s != c.king_to.idx() && s != c.rook_to.idx() && s
            != c.rook_from.idx() implies #[trigger] cell(t, b, s) == cell(t, b2, s) by {
        lemma_untouched(t, b, b2, m, s);
    }
    lemma_touched(t, b, b2, m, c.king_from);
    lemma_touched(t, b, b2, m, c.king_to);
    lemma_touched(t, b, b2, m, c.rook_to);
    lemma_touched(t, b, b2, m, c.rook_from);
    assert(b.has_any_type(c.rook_from));
    assert(b.has_any_type(c.rook_to) == b.has_any_type(c.rook_to));
    assert(b.has_any_type(c.king_to) == b.has_any_type(c.king_to));
    assert(b.has_color(us, c.king_from));
    assert(b.piece_on(c.king_from) == Some(Piece::KING));
    assert(b.color_on(c.king_from) == Some(us));
    assert(b.piece_on(c.rook_from) == Some(Piece::ROOK));
    assert(b.color_on(c.rook_from) == Some(us));
    assert(b.color_on(c.king_to) is None);
    assert(b.color_on(c.rook_to) is None);
    let k0 = t.key(c.king_from.idx(), Piece::KING, us);
    let k1 = t.key(c.king_to.idx(), Piece::KING, us);
    let k2 = t.key(c.rook_to.idx(), Piece::ROOK, us);
    let k3 = t.key(c.rook_from.idx(), Piece::ROOK, us);
    let e2 = ep_term(t, b2);
    let d0 = cell_change(t, b, b2, c.king_from.idx(), 64);
    let d1 = cell_change(t, b, b2, c.king_to.idx(), 64);
    let d2 = cell_change(t, b, b2, c.rook_to.idx(), 64);
    let d3 = cell_change(t, b, b2, c.rook_from.idx(), 64);
    let mk = move_keys(t, b, m);
    assert(mk == k0 ^ k1 ^ k2 ^ k3);
    assert(mk == d0 ^ d1 ^ d2 ^ d3 ^ e2) by (bit_vector)
        requires
            mk == k0 ^ k1 ^ k2 ^ k3,
            d0 == k0 ^ 0,
            d1 == 0 ^ k1,
            d2 == 0 ^ k2,
            d3 == k3 ^ 0,
            e2 == 0,
    ;
    assert(rights_follow(b, b2, m));
    lemma_assemble(
        t,
        b,
        b2,
        m,
        c.king_from.idx(),
        c.king_to.idx(),
        c.rook_to.idx(),
        c.rook_from.idx(),
    );
}

/// The fingerprint of a position, carried over a move that fits it, is
/// the fingerprint of the position that the move leads to; and that
/// position is consistent again. So the fingerprint can be carried along
/// a whole game from its first position.
pub proof fn lemma_hash_update(t: ZobristTable, b: Board, m: Move)
    requires
        t.wf(),
        b.consistent(),
        b.castling_consistent(),
        b.fits(m),
    ensures
        spec_hash_update(t, b, spec_hash(t, b), m) == spec_hash(t, b.apply(m)),
        b.apply(m).consistent(),
        b.apply(m).castling_consistent(),
{
    lemma_apply_follows(b, m);
    let b2 = b.apply(m);
    match m {
        Move::NormalMove { origin, dest, piece } => lemma_hash_normal(t, b, b2, origin, dest, piece),
        Move::Promotion { origin, dest, piece } => lemma_hash_promotion(
            t,
            b,
            b2,
            origin,
            dest,
            piece,
        ),
        Move::EnPassant { origin, dest, capture } => lemma_hash_en_passant(
            t,
            b,
            b2,
            origin,
            dest,
            capture,
        ),
        Move::NullMove => {},
        _ => lemma_hash_castling(t, b, b2, m),
    }
}

} // verus!
