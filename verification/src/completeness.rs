//! Why every legal move is among the moves that are generated.
use vstd::prelude::*;
use crate::bitboard_attacks::king_has;
use crate::bitboard_attacks::knight_has;
use crate::bitboard_attacks::pawn_has;
use crate::bitboard_constants::between;
use crate::bitboard_constants::direction_to;
use crate::bitboard_constants::lemma_between_symmetric;
use crate::bitboard_constants::line_has;
use crate::bits::bit;
use crate::board::square_bit;
use crate::board::Board;
use crate::board_laws::castling_of;
use crate::board_laws::color_after;
use crate::board_laws::follows;
use crate::board_laws::lemma_apply_follows;
use crate::board_laws::piece_after;
use crate::legality::attack_by;
use crate::legality::attacked_without_king;
use crate::legality::attacks_from;
use crate::legality::clear_between;
use crate::legality::double_step_to;
use crate::legality::double_step_was_legal;
use crate::legality::gives_check;
use crate::legality::leaves_king_safe;
use crate::legality::lemma_attack_is_clear_way;
use crate::legality::lemma_check_after;
use crate::legality::lemma_occupant;
use crate::legality::our_king;
use crate::legality::shape;
use crate::legality::slider_on;
use crate::legality::sole_blocker_of;
use crate::moves::Move;
use crate::pieces::Color;
use crate::pieces::Piece;
use crate::square::Square;

verus! {

/// Whether the move `m` is one that the rules of the pieces allow on the
/// position, whatever becomes of the king: a piece moves as its kind
/// moves, a pawn to an empty square ahead or to take a piece to the side
/// ahead, onto the last rank only to be promoted; a pawn takes in passing
/// the pawn that has just made its double step; and the king castles with
/// the right to it, over empty squares, out of no check and across no
/// attacked square.
pub open spec fn pseudo_legal(b: Board, m: Move) -> bool {
    let us = b.side_to_play;
    let them = us.opposite();
    let occ = b.occupancy();
    b.fits(m) && match m {
        Move::NormalMove { origin, dest, piece } => match piece {
            Piece::KING => king_has(origin.idx(), dest.idx()),
            Piece::PAWN => 1 <= dest.spec_rank() <= 6 && pawn_way(b, origin, dest),
            _ => shape(piece, origin, dest, occ),
        },
        Move::Promotion { origin, dest, piece } => pawn_way(b, origin, dest),
        Move::EnPassant { origin, dest, capture } => b.en_passant == Some(dest) && pawn_has(
            us,
            origin.idx(),
            dest.idx(),
        ) && capture == double_step_to(b),
        Move::NullMove => false,
        _ => {
            let c = castling_of(m).unwrap();
            &&& if c.king_to.0 > c.king_from.0 {
                b.can_castle_king_side[us.idx()]
            } else {
                b.can_castle_queen_side[us.idx()] && b.is_empty(
                    Square((c.rook_from.0 + 1) as u8),
                )
            }
            &&& !b.spec_under_check(us)
            &&& !b.attacked(them, c.rook_to, occ)
        },
    }
}

/// Whether a pawn on `origin` can go to `dest`: one step ahead to an empty
/// square, two steps from its first rank over empty squares, or one step
/// to the side ahead onto a piece of the other side.
pub open spec fn pawn_way(b: Board, origin: Square, dest: Square) -> bool {
    let us = b.side_to_play;
    let ahead = if us == Color::WHITE {
        1int
    } else {
        -1int
    };
    let df = dest.spec_file() - origin.spec_file();
    let dr = dest.spec_rank() - origin.spec_rank();
    ||| df == 0 && dr == ahead && b.is_empty(dest)
    ||| df == 0 && dr == 2 * ahead && b.is_empty(dest) && b.is_empty(
        Square(((origin.0 + dest.0) / 2) as u8),
    ) && origin.spec_rank() == (if us == Color::WHITE {
        1int
    } else {
        6int
    })
    ||| (df == 1 || df == -1) && dr == ahead && b.has_color(us.opposite(), dest)
}

/// Whether the move `m` is legal: the rules of the pieces allow it and it
/// leaves the king of the side that makes it out of check.
pub open spec fn legal(b: Board, m: Move) -> bool {
    pseudo_legal(b, m) && leaves_king_safe(b, m)
}

/// Whether `block` holds every square between the king and a slider that
/// gives check.
pub open spec fn blocks_all(b: Board, block: u64) -> bool {
    forall|c: Square, d: Square|
        c.valid() && d.valid() && slider_on(b, c) && gives_check(b, c) && #[trigger] between(
            our_king(b),
            c,
            d,
        ) ==> bit(block, d.0 as u64)
}

/// Whether each square of `pinned` alone shields the king from a slider.
pub open spec fn pins_only(b: Board, pinned: u64) -> bool {
    forall|t: Square|
        t.valid() && #[trigger] bit(pinned, t.0 as u64) ==> exists|x: Square, diagonal: bool|
            x.valid() && #[trigger] sole_blocker_of(b, x, t, diagonal)
}

/// No piece attacks the square on which it stands.
pub proof fn lemma_no_self_attack(p: Option<Piece>, c: Option<Color>, by: Color, s: Square, occ: u64)
    requires
        s.valid(),
    ensures
        !attack_by(p, c, by, s, s, occ),
{
}

/// An attack that holds on one occupancy holds on another that has the
/// same squares between the two.
pub proof fn lemma_attack_same(
    p: Option<Piece>,
    c: Option<Color>,
    by: Color,
    s: Square,
    target: Square,
    occ: u64,
    occ2: u64,
)
    requires
        s.valid(),
        target.valid(),
        forall|t: Square|
            t.valid() && #[trigger] between(s, target, t) ==> bit(occ, t.0 as u64) == bit(
                occ2,
                t.0 as u64,
            ),
    ensures
        attack_by(p, c, by, s, target, occ) == attack_by(p, c, by, s, target, occ2),
{
    lemma_attack_is_clear_way(s, target, occ);
    lemma_attack_is_clear_way(s, target, occ2);
}

/// An attack holds on every occupancy with fewer squares than one on which
/// it holds.
pub proof fn lemma_attack_fewer(
    p: Option<Piece>,
    c: Option<Color>,
    by: Color,
    s: Square,
    target: Square,
    fewer: u64,
    occ: u64,
)
    requires
        s.valid(),
        target.valid(),
        attack_by(p, c, by, s, target, occ),
        forall|t: Square| t.valid() && bit(fewer, t.0 as u64) ==> #[trigger] bit(occ, t.0 as u64),
    ensures
        attack_by(p, c, by, s, target, fewer),
{
    lemma_attack_is_clear_way(s, target, occ);
    lemma_attack_is_clear_way(s, target, fewer);
    assert forall|t: Square| t.valid() && #[trigger] between(s, target, t) implies !bit(
        fewer,
        t.0 as u64,
    ) by {
        assert(!bit(occ, t.0 as u64));
    }
}

/// A move of the king that leaves it out of check goes to a square that no
/// piece would attack with the king off the board.
#[verifier::spinoff_prover]
#[verifier::rlimit(100)]
pub proof fn lemma_safe_king_move(b: Board, dest: Square)
    requires
        b.playable(),
        b.fits(Move::NormalMove { origin: our_king(b), dest, piece: Piece::KING }),
        leaves_king_safe(b, Move::NormalMove { origin: our_king(b), dest, piece: Piece::KING }),
    ensures
        !attacked_without_king(b, dest),
{
    let us = b.side_to_play;
    let them = us.opposite();
    let k = our_king(b);
    let m = Move::NormalMove { origin: k, dest, piece: Piece::KING };
    let b2 = b.apply(m);
    let occ1 = b.occupancy() ^ square_bit(k);
    let occ2 = b2.occupancy();
    lemma_apply_follows(b, m);
    lemma_check_after(b, b2, m, dest);
    if attacked_without_king(b, dest) {
        let s = choose|s: Square| s.valid() && #[trigger] attacks_from(b, them, s, dest, occ1);
        lemma_no_self_attack(b.piece_on(s), b.color_on(s), them, s, occ1);
        lemma_occupant(b, k);
        lemma_occupant(b, s);
        assert(s != dest && s != k);
        assert forall|t: Square| t.valid() && #[trigger] between(s, dest, t) implies bit(
            occ1,
            t.0 as u64,
        ) == bit(occ2, t.0 as u64) by {
            crate::bits::lemma_bit_ops();
            lemma_occupant(b, t);
            assert(t != dest);
        }
        lemma_attack_same(b.piece_on(s), b.color_on(s), them, s, dest, occ1, occ2);
        assert(attack_by(piece_after(b, m, s), color_after(b, m, s), them, s, dest, occ2));
    }
}

/// Whether the move `m` moves a piece other than the king from `origin`
/// to `dest`: a move of such a piece, a promotion, or a capture in passing.
pub open spec fn relocates(m: Move, origin: Square, dest: Square) -> bool {
    match m {
        Move::NormalMove { origin: o, dest: d, piece } => o == origin && d == dest && piece
            != Piece::KING,
        Move::Promotion { origin: o, dest: d, piece } => o == origin && d == dest,
        Move::EnPassant { origin: o, dest: d, capture } => o == origin && d == dest,
        _ => false,
    }
}

/// The square of the pawn that the move takes in passing, if it does.
pub open spec fn taken_in_passing(m: Move) -> Option<Square> {
    match m {
        Move::EnPassant { origin, dest, capture } => Some(capture),
        _ => None,
    }
}

/// The occupancy after a move of a piece other than the king, square by
/// square, and the pieces that stay where they are.
proof fn lemma_relocated(b: Board, m: Move, origin: Square, dest: Square)
    requires
        b.playable(),
        b.fits(m),
        relocates(m, origin, dest),
    ensures
        follows(b, b.apply(m), m),
        piece_after(b, m, our_king(b)) == Some(Piece::KING),
        color_after(b, m, our_king(b)) == Some(b.side_to_play),
        forall|t: Square|
            t.valid() ==> #[trigger] bit(b.apply(m).occupancy(), t.0 as u64) == (if t == origin
                || Some(t) == taken_in_passing(m) {
                false
            } else if t == dest {
                true
            } else {
                bit(b.occupancy(), t.0 as u64)
            }),
        forall|s: Square|
            s.valid() && b.color_on(s) == Some(b.side_to_play.opposite()) && s != dest && Some(s)
                != taken_in_passing(m) ==> #[trigger] piece_after(b, m, s) == b.piece_on(s)
                && color_after(b, m, s) == b.color_on(s),
        origin != dest,
        b.color_on(origin) == Some(b.side_to_play),
{
    let k = our_king(b);
    lemma_apply_follows(b, m);
    lemma_occupant(b, k);
    lemma_occupant(b, origin);
    lemma_occupant(b, dest);
    lemma_check_after(b, b.apply(m), m, k);
    assert forall|t: Square| t.valid() implies #[trigger] bit(
        b.apply(m).occupancy(),
        t.0 as u64,
    ) == (if t == origin || Some(t) == taken_in_passing(m) {
        false
    } else if t == dest {
        true
    } else {
        bit(b.occupancy(), t.0 as u64)
    }) by {
        lemma_occupant(b, t);
    }
    assert forall|s: Square|
        s.valid() && b.color_on(s) == Some(b.side_to_play.opposite()) && s != dest && Some(s)
            != taken_in_passing(m) implies #[trigger] piece_after(b, m, s) == b.piece_on(s)
        && color_after(b, m, s) == b.color_on(s) by {
        lemma_occupant(b, s);
    }
}

/// A piece that gives check and is neither taken nor blocked by a move of
/// a piece other than the king gives check after the move.
#[verifier::spinoff_prover]
#[verifier::rlimit(100)]
pub proof fn lemma_check_remains(b: Board, m: Move, origin: Square, dest: Square, c: Square)
    requires
        b.playable(),
        b.fits(m),
        relocates(m, origin, dest),
        c.valid(),
        gives_check(b, c),
        c != dest,
        Some(c) != taken_in_passing(m),
        !(slider_on(b, c) && between(our_king(b), c, dest)),
    ensures
        !leaves_king_safe(b, m),
{
    let us = b.side_to_play;
    let them = us.opposite();
    let k = our_king(b);
    let b2 = b.apply(m);
    let occ = b.occupancy();
    let occ2 = b2.occupancy();
    lemma_relocated(b, m, origin, dest);
    lemma_check_after(b, b2, m, k);
    lemma_occupant(b, c);
    lemma_between_symmetric(k, c, dest);
    assert(piece_after(b, m, c) == b.piece_on(c) && color_after(b, m, c) == b.color_on(c));
    lemma_attack_is_clear_way(c, k, occ);
    lemma_attack_is_clear_way(c, k, occ2);
    if slider_on(b, c) {
        assert forall|t: Square| t.valid() && #[trigger] between(c, k, t) implies !bit(
            occ2,
            t.0 as u64,
        ) by {
            assert(!bit(occ, t.0 as u64));
            assert(t != dest);
        }
    }
    assert(attack_by(piece_after(b, m, c), color_after(b, m, c), them, c, k, occ2));
}

/// A slider that a piece alone keeps from the king gives check once that
/// piece has moved off the line between them.
#[verifier::spinoff_prover]
#[verifier::rlimit(100)]
pub proof fn lemma_pin_holds(
    b: Board,
    m: Move,
    origin: Square,
    dest: Square,
    x: Square,
    diagonal: bool,
)
    requires
        b.playable(),
        b.fits(m),
        relocates(m, origin, dest),
        x.valid(),
        sole_blocker_of(b, x, origin, diagonal),
        leaves_king_safe(b, m),
    ensures
        line_has(origin, our_king(b), dest),
{
    let us = b.side_to_play;
    let them = us.opposite();
    let k = our_king(b);
    let b2 = b.apply(m);
    let occ = b.occupancy();
    let occ2 = b2.occupancy();
    lemma_relocated(b, m, origin, dest);
    lemma_check_after(b, b2, m, k);
    lemma_occupant(b, x);
    lemma_occupant(b, dest);
    crate::legality::lemma_on_the_way(k, x, origin, dest);
    if !line_has(origin, k, dest) {
        assert(x != dest);
        assert(!between(k, x, dest));
        if let Some(capture) = taken_in_passing(m) {
            lemma_occupant(b, capture);
            assert(x != capture);
        }
        assert(piece_after(b, m, x) == b.piece_on(x) && color_after(b, m, x) == b.color_on(x));
        lemma_attack_is_clear_way(x, k, occ2);
        lemma_attack_is_clear_way(k, x, occ2);
        assert forall|t: Square| t.valid() && #[trigger] between(x, k, t) implies !bit(
            occ2,
            t.0 as u64,
        ) by {
            lemma_between_symmetric(k, x, t);
            assert(between(k, x, t));
        }
        assert(crate::legality::rook_aligned(x, k) == crate::legality::rook_aligned(k, x));
        assert(crate::legality::bishop_aligned(x, k) == crate::legality::bishop_aligned(k, x));
        assert(attack_by(piece_after(b, m, x), color_after(b, m, x), them, x, k, occ2));
    }
}

/// A knight never lands on a line through the square that it leaves.
pub proof fn lemma_knight_leaves_line(origin: Square, k: Square, dest: Square)
    requires
        origin.valid(),
        k.valid(),
        dest.valid(),
        knight_has(origin.idx(), dest.idx()),
    ensures
        !line_has(origin, k, dest),
{
}

/// Of two squares that both have a third square between them and a
/// fourth, one lies between the fourth and the other.
proof fn lemma_same_ray(k: Square, c1: Square, c2: Square, d: Square)
    requires
        k.valid(),
        c1.valid(),
        c2.valid(),
        d.valid(),
        between(k, c1, d),
        between(k, c2, d),
        c1 != c2,
    ensures
        between(k, c1, c2) || between(k, c2, c1),
{
}

/// Two squares on one file, one above the other, that both lie between
/// two squares put these two on that file.
proof fn lemma_file_line(k: Square, c: Square, p: Square, q: Square)
    requires
        k.valid(),
        c.valid(),
        p.valid(),
        q.valid(),
        between(k, c, p),
        between(k, c, q),
        p.spec_file() == q.spec_file(),
        p != q,
    ensures
        k.spec_file() == p.spec_file(),
{
}

/// In check from two pieces no move of a piece other than the king leaves
/// the king out of check.
#[verifier::spinoff_prover]
#[verifier::rlimit(100)]
pub proof fn lemma_double_check(
    b: Board,
    m: Move,
    origin: Square,
    dest: Square,
    c1: Square,
    c2: Square,
)
    requires
        b.playable(),
        double_step_was_legal(b),
        b.fits(m),
        relocates(m, origin, dest),
        m is EnPassant ==> pseudo_legal(b, m),
        c1.valid(),
        c2.valid(),
        c1 != c2,
        gives_check(b, c1),
        gives_check(b, c2),
    ensures
        !leaves_king_safe(b, m),
{
    let k = our_king(b);
    let occ = b.occupancy();
    let them = b.side_to_play.opposite();
    lemma_occupant(b, c1);
    lemma_occupant(b, c2);
    lemma_occupant(b, dest);
    lemma_occupant(b, k);
    lemma_attack_is_clear_way(c1, k, occ);
    lemma_attack_is_clear_way(c2, k, occ);
    lemma_between_symmetric(k, c1, dest);
    lemma_between_symmetric(k, c2, dest);
    lemma_between_symmetric(k, c1, c2);
    lemma_between_symmetric(k, c2, c1);
    let held1 = c1 == dest || Some(c1) == taken_in_passing(m) || (slider_on(b, c1) && between(
        k,
        c1,
        dest,
    ));
    let held2 = c2 == dest || Some(c2) == taken_in_passing(m) || (slider_on(b, c2) && between(
        k,
        c2,
        dest,
    ));
    if !held1 {
        lemma_check_remains(b, m, origin, dest, c1);
    } else if !held2 {
        lemma_check_remains(b, m, origin, dest, c2);
    } else {
        let blocked1 = slider_on(b, c1) && between(k, c1, dest);
        let blocked2 = slider_on(b, c2) && between(k, c2, dest);
        if blocked1 && blocked2 {
            lemma_same_ray(k, c1, c2, dest);
        } else if blocked1 || blocked2 {
            let (c, other) = if blocked1 {
                (c1, c2)
            } else {
                (c2, c1)
            };
            // `c` is a slider that `dest` would block; `other` is taken
            if other == dest {
                assert(between(k, c, other));
            } else {
                lemma_passing_blocks(b, origin, dest, other, c);
            }
        }
    }
}

/// A pawn that can be taken in passing and gives check leaves no slider to
/// give check whose way the square behind the pawn would block.
#[verifier::spinoff_prover]
#[verifier::rlimit(100)]
proof fn lemma_passing_blocks(b: Board, origin: Square, dest: Square, capture: Square, c: Square)
    requires
        b.playable(),
        double_step_was_legal(b),
        pseudo_legal(b, Move::EnPassant { origin, dest, capture }),
        gives_check(b, capture),
        c.valid(),
        c != capture,
        slider_on(b, c),
        gives_check(b, c),
    ensures
        !between(our_king(b), c, dest),
{
    let k = our_king(b);
    let occ = b.occupancy();
    let them = b.side_to_play.opposite();
    let home = crate::legality::double_step_from(b);
    let before = (occ ^ square_bit(capture)) | square_bit(home);
    lemma_occupant(b, capture);
    lemma_occupant(b, c);
    lemma_occupant(b, k);
    lemma_occupant(b, dest);
    crate::legality::lemma_double_step_squares(b, origin, dest);
    crate::legality::lemma_before_double_step(occ, capture, home);
    lemma_attack_is_clear_way(c, k, occ);
    lemma_attack_is_clear_way(c, k, before);
    lemma_between_symmetric(k, c, dest);
    lemma_between_symmetric(k, c, home);
    if between(k, c, dest) {
        assert(!attacks_from(b, them, c, k, before));
        assert(!clear_between(c, k, before));
        let t = choose|t: Square| t.valid() && #[trigger] between(c, k, t) && bit(before, t.0 as u64);
        assert(t == home);
        lemma_file_line(k, c, dest, home);
        assert(b.piece_on(capture) == Some(Piece::PAWN));
        assert(pawn_has(them, capture.idx(), k.idx()));
    }
}

/// A square beside the king on its rank that no piece attacks while the
/// king is not in check is attacked by no piece with the king off the
/// board either.
#[verifier::spinoff_prover]
#[verifier::rlimit(100)]
proof fn lemma_beside_king(b: Board, sq: Square)
    requires
        b.playable(),
        sq.valid(),
        !b.spec_under_check(b.side_to_play),
        !b.attacked(b.side_to_play.opposite(), sq, b.occupancy()),
        king_has(our_king(b).idx(), sq.idx()),
    ensures
        !attacked_without_king(b, sq),
{
    let us = b.side_to_play;
    let them = us.opposite();
    let k = our_king(b);
    let occ = b.occupancy();
    let occ1 = occ ^ square_bit(k);
    crate::legality::lemma_attacked_view(b, them, sq, occ);
    crate::legality::lemma_attacked_view(b, them, k, occ);
    if attacked_without_king(b, sq) {
        let s = choose|s: Square| s.valid() && #[trigger] attacks_from(b, them, s, sq, occ1);
        assert(!attacks_from(b, them, s, sq, occ));
        assert(!attacks_from(b, them, s, k, occ));
        lemma_occupant(b, s);
        lemma_occupant(b, k);
        lemma_attack_is_clear_way(s, sq, occ);
        lemma_attack_is_clear_way(s, sq, occ1);
        lemma_attack_is_clear_way(s, k, occ);
        assert(slider_on(b, s));
        let t = choose|t: Square| t.valid() && #[trigger] between(s, sq, t) && bit(occ, t.0 as u64);
        assert(t == k) by {
            crate::bits::lemma_bit_ops();
            crate::bits::lemma_single_bit();
            if t != k {
                assert(bit(occ1, t.0 as u64));
            }
        }
        lemma_way_through(s, sq, k);
        assert forall|u: Square| u.valid() && #[trigger] between(s, k, u) implies !bit(
            occ,
            u.0 as u64,
        ) by {
            assert(between(s, sq, u));
            crate::bits::lemma_bit_ops();
            crate::bits::lemma_single_bit();
            assert(bit(occ1, u.0 as u64) == bit(occ, u.0 as u64));
        }
    }
}

/// The way to a square next to another square through which it passes is
/// the way to that other square and beyond, in the same direction.
proof fn lemma_way_through(s: Square, sq: Square, k: Square)
    requires
        s.valid(),
        sq.valid(),
        k.valid(),
        between(s, sq, k),
    ensures
        direction_to(s.idx(), k.idx()) == direction_to(s.idx(), sq.idx()),
        forall|u: Square| u.valid() && #[trigger] between(s, k, u) ==> between(s, sq, u),
{
}

/// What move generation asks of a castling holds of every legal one: the
/// squares that the king crosses and reaches are attacked by no piece
/// with the king off the board.
#[verifier::spinoff_prover]
#[verifier::rlimit(100)]
pub proof fn lemma_legal_castling(b: Board, m: Move)
    requires
        b.playable(),
        castling_of(m) is Some,
        legal(b, m),
    ensures
        !attacked_without_king(b, castling_of(m).unwrap().rook_to),
        !attacked_without_king(b, castling_of(m).unwrap().king_to),
{
    let us = b.side_to_play;
    let them = us.opposite();
    let c = castling_of(m).unwrap();
    let k = our_king(b);
    let b2 = b.apply(m);
    let occ = b.occupancy();
    let occ1 = occ ^ square_bit(k);
    let occ2 = b2.occupancy();
    lemma_beside_king(b, c.rook_to);
    lemma_apply_follows(b, m);
    lemma_check_after(b, b2, m, c.king_to);
    if attacked_without_king(b, c.king_to) {
        let s = choose|s: Square| s.valid() && #[trigger] attacks_from(b, them, s, c.king_to, occ1);
        lemma_occupant(b, s);
        lemma_occupant(b, k);
        lemma_occupant(b, c.rook_from);
        lemma_occupant(b, c.rook_to);
        lemma_occupant(b, c.king_to);
        assert(s != c.king_from && s != c.rook_from && s != c.king_to && s != c.rook_to);
        lemma_attack_is_clear_way(s, c.king_to, occ1);
        lemma_attack_is_clear_way(s, c.king_to, occ2);
        lemma_attack_is_clear_way(s, c.rook_to, occ1);
        if between(s, c.king_to, c.rook_to) {
            lemma_way_through(s, c.king_to, c.rook_to);
            assert(attacks_from(b, them, s, c.rook_to, occ1));
        } else {
            assert forall|t: Square| t.valid() && #[trigger] between(
                s,
                c.king_to,
                t,
            ) && bit(occ2, t.0 as u64) implies bit(occ1, t.0 as u64) by {
                crate::bits::lemma_bit_ops();
                crate::bits::lemma_single_bit();
                lemma_occupant(b, t);
                assert(t != c.king_to);
            }
            assert(attack_by(
                piece_after(b, m, s),
                color_after(b, m, s),
                them,
                s,
                c.king_to,
                occ2,
            ));
        }
    }
}

} // verus!
