//! Why the moves that are generated leave the king of the side that moves
//! out of check.
use vstd::prelude::*;
use crate::bitboard_attacks::king_has;
use crate::bitboard_attacks::knight_has;
use crate::bitboard_attacks::pawn_has;
use crate::bitboard_constants::between;
use crate::bitboard_constants::direction_to;
use crate::bitboard_constants::line_has;
use crate::bits::bit;
use crate::board::square_bit;
use crate::board::Board;
use crate::board_laws::castling_of;
use crate::board_laws::color_after;
use crate::board_laws::follows;
use crate::board_laws::lemma_apply_follows;
use crate::board_laws::piece_after;
use crate::magic_bitboard::bishop_ray_has;
use crate::magic_bitboard::ray_has;
use crate::magic_bitboard::ray_steps;
use crate::magic_bitboard::rook_ray_has;
use crate::moves::Move;
use crate::pieces::Color;
use crate::pieces::Piece;
use crate::square::Square;

verus! {

/// Whether no square strictly between `a` and `b` is in `occ`.
pub open spec fn clear_between(a: Square, b: Square, occ: u64) -> bool {
    forall|t: Square| t.valid() && #[trigger] between(a, b, t) ==> !bit(occ, t.0 as u64)
}

/// Whether two different squares share a rank or a file.
pub open spec fn rook_aligned(a: Square, b: Square) -> bool {
    let d = direction_to(a.idx(), b.idx());
    d == 1 || d == -1 || d == 8 || d == -8
}

/// Whether two different squares share a diagonal.
pub open spec fn bishop_aligned(a: Square, b: Square) -> bool {
    let d = direction_to(a.idx(), b.idx());
    d == 7 || d == -7 || d == 9 || d == -9
}

/// A rook attacks the squares of its rank and file up to which the way is
/// clear, and a bishop those of its diagonals.
pub proof fn lemma_attack_is_clear_way(o: Square, s: Square, occ: u64)
    requires
        o.valid(),
        s.valid(),
    ensures
        rook_ray_has(o.idx(), occ, s.idx()) == (rook_aligned(o, s) && clear_between(o, s, occ)),
        bishop_ray_has(o.idx(), occ, s.idx()) == (bishop_aligned(o, s) && clear_between(o, s, occ)),
{
    let d = direction_to(o.idx(), s.idx());
    assert forall|e: int| crate::magic_bitboard::is_direction(e) implies #[trigger] ray_has(
        o.idx(),
        e,
        occ,
        s.idx(),
    ) == (e == d && clear_between(o, s, occ)) by {
        let n = ray_steps(o.idx(), s.idx(), e);
        if n >= 1 {
            assert(e == d);
            if ray_has(o.idx(), e, occ, s.idx()) {
                assert forall|t: Square| t.valid() && #[trigger] between(o, s, t) implies !bit(
                    occ,
                    t.0 as u64,
                ) by {
                    assert(1 <= ray_steps(o.idx(), t.0 as u64 as int, e) < n);
                }
            }
            if clear_between(o, s, occ) {
                assert forall|t: u64| t < 64 && 1 <= #[trigger] ray_steps(o.idx(), t as int, e)
                    < n implies !bit(occ, t) by {
                    assert(between(o, s, Square(t as u8)));
                }
            }
        } else {
            if e == d {
                assert(d != 0);
                assert(ray_steps(o.idx(), s.idx(), d) >= 1);
            }
        }
    }
}

/// Whether a piece of type `p` and colour `c`, if such there is, standing
/// on `s` attacks `target` for the side `by` when the squares of `occ` are
/// occupied.
pub open spec fn attack_by(
    p: Option<Piece>,
    c: Option<Color>,
    by: Color,
    s: Square,
    target: Square,
    occ: u64,
) -> bool {
    c == Some(by) && match p {
        Some(Piece::KNIGHT) => knight_has(s.idx(), target.idx()),
        Some(Piece::PAWN) => pawn_has(by, s.idx(), target.idx()),
        Some(Piece::ROOK) => rook_ray_has(s.idx(), occ, target.idx()),
        Some(Piece::BISHOP) => bishop_ray_has(s.idx(), occ, target.idx()),
        Some(Piece::QUEEN) => rook_ray_has(s.idx(), occ, target.idx()) || bishop_ray_has(
            s.idx(),
            occ,
            target.idx(),
        ),
        Some(Piece::KING) => king_has(s.idx(), target.idx()),
        None => false,
    }
}

/// Whether the piece of colour `by` on `s`, if there is one, attacks
/// `target` on the board `b`.
pub open spec fn attacks_from(b: Board, by: Color, s: Square, target: Square, occ: u64) -> bool {
    attack_by(b.piece_on(s), b.color_on(s), by, s, target, occ)
}

/// In a consistent position a square is attacked exactly when a piece on
/// some square attacks it.
pub proof fn lemma_attacked_view(b: Board, by: Color, target: Square, occ: u64)
    requires
        b.consistent(),
        target.valid(),
    ensures
        b.attacked(by, target, occ) == exists|s: Square|
            s.valid() && #[trigger] attacks_from(b, by, s, target, occ),
{
    assert forall|s: Square| s.valid() implies #[trigger] attacks_from(b, by, s, target, occ) == (
    b.piece_attacks(by, s, target, occ) || (s == b.king_sq(by) && king_has(
        s.idx(),
        target.idx(),
    ))) by {
        lemma_occupant(b, s);
    }
    if b.attacked(by, target, occ) {
        if king_has(b.king_sq(by).idx(), target.idx()) {
            assert(attacks_from(b, by, b.king_sq(by), target, occ));
        } else {
            let s = choose|s: Square| s.valid() && #[trigger] b.piece_attacks(by, s, target, occ);
            assert(attacks_from(b, by, s, target, occ));
        }
    }
    if exists|s: Square| s.valid() && #[trigger] attacks_from(b, by, s, target, occ) {
        let s = choose|s: Square| s.valid() && #[trigger] attacks_from(b, by, s, target, occ);
        if !(s == b.king_sq(by) && king_has(s.idx(), target.idx())) {
            assert(b.piece_attacks(by, s, target, occ));
        }
    }
}

/// In a consistent position the sets of a square agree with the piece and
/// the colour on it.
pub proof fn lemma_occupant(b: Board, s: Square)
    requires
        b.consistent(),
        s.valid(),
    ensures
        forall|p: Piece| p != Piece::KING ==> #[trigger] b.has_type(p, s) == (b.piece_on(s) == Some(p)),
        forall|c: Color| #[trigger] b.has_color(c, s) == (b.color_on(s) == Some(c)),
        forall|c: Color|
            (s == #[trigger] b.king_sq(c)) == (b.piece_on(s) == Some(Piece::KING) && b.color_on(s)
                == Some(c)),
        bit(b.occupancy(), s.0 as u64) == b.color_on(s).is_some(),
        b.piece_on(s).is_some() == b.color_on(s).is_some(),
{
    crate::bits::lemma_bit_ops();
    assert(b.has_any_type(s) == b.has_any_type(s));
    assert(b.has_color(Color::WHITE, s) == b.has_color(Color::WHITE, s));
    assert(b.piece_on(s).is_some() == (b.has_any_type(s) || s == b.king_pos[0] || s
        == b.king_pos[1]));
    assert(b.color_on(s).is_some() == (b.has_color(Color::WHITE, s) || b.has_color(
        Color::BLACK,
        s,
    )));
    assert forall|p: Piece| p != Piece::KING implies #[trigger] b.has_type(p, s) == (b.piece_on(s)
        == Some(p)) by {
        if b.has_type(p, s) {
            assert(b.has_any_type(s));
        }
    }
}

/// The king of the side to move.
pub open spec fn our_king(b: Board) -> Square {
    b.king_sq(b.side_to_play)
}

/// Whether `checkers` holds exactly the squares from which a piece of the
/// other side attacks the king of the side to move.
pub open spec fn checkers_exact(b: Board, checkers: u64) -> bool {
    forall|s: Square|
        s.valid() ==> #[trigger] bit(checkers, s.0 as u64) == attacks_from(
            b,
            b.side_to_play.opposite(),
            s,
            our_king(b),
            b.occupancy(),
        )
}

/// Whether a rook, bishop or queen stands on `s`.
pub open spec fn slider_on(b: Board, s: Square) -> bool {
    b.piece_on(s) == Some(Piece::ROOK) || b.piece_on(s) == Some(Piece::BISHOP) || b.piece_on(s)
        == Some(Piece::QUEEN)
}

/// Whether each square of `block` lies between the king and a slider that
/// gives check.
pub open spec fn blocks_only(b: Board, block: u64) -> bool {
    forall|d: Square|
        d.valid() && #[trigger] bit(block, d.0 as u64) ==> exists|c: Square|
            c.valid() && slider_on(b, c) && attacks_from(
                b,
                b.side_to_play.opposite(),
                c,
                our_king(b),
                b.occupancy(),
            ) && #[trigger] between(our_king(b), c, d)
}

/// Whether a piece of the other side that moves along ranks and files, or
/// along diagonals if `diagonal`, stands on `x` on such a line with the
/// king of the side to move.
pub open spec fn aims_at_king(b: Board, x: Square, diagonal: bool) -> bool {
    let k = our_king(b);
    &&& b.color_on(x) == Some(b.side_to_play.opposite())
    &&& if diagonal {
        bishop_aligned(k, x) && (b.piece_on(x) == Some(Piece::BISHOP) || b.piece_on(x) == Some(
            Piece::QUEEN,
        ))
    } else {
        rook_aligned(k, x) && (b.piece_on(x) == Some(Piece::ROOK) || b.piece_on(x) == Some(
            Piece::QUEEN,
        ))
    }
}

/// Whether `t` is the one occupied square between the king of the side to
/// move and a slider of the other side on `x` that would attack the king
/// along that line.
pub open spec fn sole_blocker_of(b: Board, x: Square, t: Square, diagonal: bool) -> bool {
    let k = our_king(b);
    &&& aims_at_king(b, x, diagonal)
    &&& between(k, x, t)
    &&& bit(b.occupancy(), t.0 as u64)
    &&& forall|u: Square|
        u.valid() && u != t && #[trigger] between(k, x, u) ==> !bit(b.occupancy(), u.0 as u64)
}

/// Whether `pinned` holds every square that alone shields the king from a
/// slider of the kind that `diagonal` names.
pub open spec fn pins_found_of(b: Board, pinned: u64, diagonal: bool) -> bool {
    forall|x: Square, t: Square|
        x.valid() && t.valid() && #[trigger] sole_blocker_of(b, x, t, diagonal) ==> bit(
            pinned,
            t.0 as u64,
        )
}

/// Whether `pinned` holds every square that alone shields the king from a
/// slider.
pub open spec fn pins_found(b: Board, pinned: u64) -> bool {
    pins_found_of(b, pinned, false) && pins_found_of(b, pinned, true)
}

/// Whether at most two pieces give check.
pub open spec fn at_most_two_checks(b: Board) -> bool {
    forall|x: Square, y: Square, z: Square|
        x.valid() && y.valid() && z.valid() && x != y && y != z && x != z ==> !(
        #[trigger] gives_check(b, x) && #[trigger] gives_check(b, y) && #[trigger] gives_check(b, z))
}

/// Whether the piece on `s` attacks the king of the side to move.
pub open spec fn gives_check(b: Board, s: Square) -> bool {
    attacks_from(b, b.side_to_play.opposite(), s, our_king(b), b.occupancy())
}

/// Whether the position is one that a game can reach, as far as the
/// legality of the moves generated relies on it: it is playable, at most
/// two pieces give check, and the double step of a pawn that can be taken
/// in passing was legal.
pub open spec fn legal_position(b: Board) -> bool {
    b.playable() && at_most_two_checks(b) && double_step_was_legal(b)
}

/// Whether the move `m` leaves the king of the side that makes it out of
/// check.
pub open spec fn leaves_king_safe(b: Board, m: Move) -> bool {
    !b.apply(m).spec_under_check(b.side_to_play)
}

/// Whether a move from `origin` to `dest` is one that a piece of type
/// `piece` other than the king can make on the occupancy `occ`: a slider
/// along a clear rank, file or diagonal, a knight by its leap, a pawn one
/// step ahead or to the side ahead, or two steps ahead over an empty
/// square.
pub open spec fn shape(piece: Piece, origin: Square, dest: Square, occ: u64) -> bool {
    match piece {
        Piece::KNIGHT => knight_has(origin.idx(), dest.idx()),
        Piece::ROOK => rook_aligned(origin, dest) && clear_between(origin, dest, occ),
        Piece::BISHOP => bishop_aligned(origin, dest) && clear_between(origin, dest, occ),
        Piece::QUEEN => (rook_aligned(origin, dest) || bishop_aligned(origin, dest))
            && clear_between(origin, dest, occ),
        Piece::PAWN => {
            let df = dest.spec_file() - origin.spec_file();
            let dr = dest.spec_rank() - origin.spec_rank();
            (-1 <= df <= 1 && (dr == 1 || dr == -1)) || (df == 0 && (dr == 2 || dr == -2)
                && !bit(occ, ((origin.0 + dest.0) / 2) as u64))
        },
        Piece::KING => false,
    }
}

/// The conditions under which move generation takes a move of a piece
/// other than the king that fits the position: at most one piece gives
/// check, and if one does the move takes it or blocks it; and a piece
/// found pinned stays on the line through the king, a knight not moving at
/// all.
pub open spec fn taken_up(
    b: Board,
    checkers: u64,
    block: u64,
    pinned: u64,
    origin: Square,
    dest: Square,
    piece: Piece,
) -> bool {
    &&& forall|c1: Square, c2: Square|
        c1.valid() && c2.valid() && #[trigger] bit(checkers, c1.0 as u64) && #[trigger] bit(
            checkers,
            c2.0 as u64,
        ) ==> c1 == c2
    &&& checkers != 0 ==> bit(checkers, dest.0 as u64) || bit(block, dest.0 as u64)
    &&& bit(pinned, origin.0 as u64) ==> piece != Piece::KNIGHT && line_has(
        origin,
        our_king(b),
        dest,
    )
    &&& shape(piece, origin, dest, b.occupancy())
}

/// A move of a piece other than the king, a promotion among them, that
/// move generation takes up leaves the king out of check. `b2` is the
/// position after the move.
#[verifier::spinoff_prover]
#[verifier::rlimit(100)]
pub proof fn lemma_relocation_safe(
    b: Board,
    b2: Board,
    m: Move,
    checkers: u64,
    block: u64,
    pinned: u64,
    origin: Square,
    dest: Square,
    piece: Piece,
)
    requires
        b.playable(),
        checkers_exact(b, checkers),
        blocks_only(b, block),
        pins_found(b, pinned),
        b.fits(m),
        follows(b, b2, m),
        m == (Move::NormalMove { origin, dest, piece }) && piece != Piece::KING || (m == (
        Move::Promotion { origin, dest, piece }) && b.piece_on(origin) == Some(Piece::PAWN)),
        taken_up(b, checkers, block, pinned, origin, dest, b.piece_on(origin).unwrap()),
    ensures
        !b2.spec_under_check(b.side_to_play),
{
    let us = b.side_to_play;
    let them = us.opposite();
    let k = our_king(b);
    let occ = b.occupancy();
    let occ2 = b2.occupancy();
    let moved = b.piece_on(origin).unwrap();
    lemma_occupant(b, k);
    lemma_occupant(b, origin);
    lemma_occupant(b, dest);
    lemma_occupant(b2, k);
    assert(b2.piece_on(k) == piece_after(b, m, k));
    assert(b2.color_on(k) == color_after(b, m, k));
    assert(k == b2.king_sq(us));
    lemma_attacked_view(b2, them, k, occ2);
    if b2.spec_under_check(us) {
        let s = choose|s: Square| s.valid() && #[trigger] attacks_from(b2, them, s, k, occ2);
        assert(b2.piece_on(s) == piece_after(b, m, s));
        assert(b2.color_on(s) == color_after(b, m, s));
        assert(s != origin && s != dest);
        assert(b.piece_on(s) == b2.piece_on(s) && b.color_on(s) == Some(them));
        lemma_attack_is_clear_way(s, k, occ);
        lemma_attack_is_clear_way(s, k, occ2);
        assert forall|t: Square| t.valid() implies #[trigger] bit(occ2, t.0 as u64) == (if t
            == origin {
            false
        } else if t == dest {
            true
        } else {
            bit(occ, t.0 as u64)
        }) by {
            lemma_occupant(b, t);
            lemma_occupant(b2, t);
            assert(b2.color_on(t) == color_after(b, m, t));
        }
        if attacks_from(b, them, s, k, occ) {
            // the piece gave check before the move
            assert(bit(checkers, s.0 as u64));
            assert(checkers != 0) by {
                crate::bits::lemma_bit_ops();
            }
            if bit(checkers, dest.0 as u64) {
                assert(s == dest);
            } else {
                let c = choose|c: Square|
                    c.valid() && slider_on(b, c) && attacks_from(b, them, c, k, occ)
                        && #[trigger] between(k, c, dest);
                assert(bit(checkers, c.0 as u64));
                assert(c == s);
                crate::bitboard_constants::lemma_between_symmetric(k, s, dest);
                assert(between(s, k, dest));
                assert(false);
            }
        } else {
            // a slider whose way the move has cleared
            assert(slider_on(b, s));
            assert(!clear_between(s, k, occ));
            let t = choose|t: Square| t.valid() && #[trigger] between(s, k, t) && bit(occ, t.0 as u64);
            assert(t == origin);
            crate::bitboard_constants::lemma_between_symmetric(k, s, origin);
            assert forall|u: Square| u.valid() && u != origin && #[trigger] between(
                k,
                s,
                u,
            ) implies !bit(occ, u.0 as u64) by {
                crate::bitboard_constants::lemma_between_symmetric(k, s, u);
                assert(between(s, k, u));
            }
            assert(sole_blocker_of(b, s, origin, false) || sole_blocker_of(b, s, origin, true));
            assert(bit(pinned, origin.0 as u64));
            assert(line_has(origin, k, dest));
            crate::bitboard_constants::lemma_between_symmetric(k, s, dest);
            assert(!between(s, k, dest));
            lemma_occupant(b, s);
            lemma_stays_on_line(k, s, origin, dest, moved, occ);
        }
    }
}

/// Where a square lies on the line from `k` in direction `d`: the number
/// of steps from `k`, negative against the direction; `None` off the line.
pub open spec fn place_on_line(k: Square, d: int, s: Square) -> Option<int> {
    let df = s.spec_file() - k.spec_file();
    let dr = s.spec_rank() - k.spec_rank();
    let uf = crate::magic_bitboard::dir_file(d);
    let ur = crate::magic_bitboard::dir_rank(d);
    let n = if uf != 0 {
        crate::magic_bitboard::scale(uf, df)
    } else {
        crate::magic_bitboard::scale(ur, dr)
    };
    if df == crate::magic_bitboard::scale(uf, n) && dr == crate::magic_bitboard::scale(ur, n) {
        Some(n)
    } else {
        None
    }
}

/// The places on a line of the squares between two of its squares, and of
/// the squares on the line through them.
proof fn lemma_places(k: Square, x: Square, s: Square)
    requires
        k.valid(),
        x.valid(),
        s.valid(),
        direction_to(k.idx(), x.idx()) != 0,
    ensures
        ({
            let d = direction_to(k.idx(), x.idx());
            &&& crate::magic_bitboard::is_direction(d)
            &&& place_on_line(k, d, x) matches Some(n) && n >= 1
            &&& between(k, x, s) == (place_on_line(k, d, s) matches Some(j) && 0 < j
                < place_on_line(k, d, x).unwrap())
            &&& line_has(k, x, s) == (place_on_line(k, d, s) is Some)
            &&& place_on_line(k, d, s) == Some(0int) <==> s == k
            &&& place_on_line(k, d, s) == place_on_line(k, d, x) <==> s == x
        }),
{
    let d = direction_to(k.idx(), x.idx());
    assert(d == 1 || d == -1 || d == 8 || d == -8 || d == 7 || d == -7 || d == 9 || d == -9);
    if d == 1 {
    } else if d == -1 {
    } else if d == 8 {
    } else if d == -8 {
    } else if d == 7 {
    } else if d == -7 {
    } else if d == 9 {
    } else {
    }
}

/// A piece that stands between two squares `k` and `x`, with nothing else
/// between them, and moves along the line through them stops between them
/// or on one of them.
#[verifier::spinoff_prover]
#[verifier::rlimit(100)]
proof fn lemma_stays_on_line(k: Square, x: Square, origin: Square, dest: Square, piece: Piece, occ: u64)
    requires
        k.valid(),
        x.valid(),
        origin.valid(),
        dest.valid(),
        between(k, x, origin),
        bit(occ, k.0 as u64),
        bit(occ, x.0 as u64),
        line_has(origin, k, dest),
        piece != Piece::KNIGHT,
        shape(piece, origin, dest, occ),
    ensures
        between(k, x, dest) || dest == k || dest == x,
{
    let d = direction_to(k.idx(), x.idx());
    lemma_places(k, x, origin);
    lemma_places(k, x, dest);
    let n = place_on_line(k, d, x).unwrap();
    let jo = place_on_line(k, d, origin).unwrap();
    // the destination is on the line through the king and the slider
    assert(direction_to(origin.idx(), k.idx()) == -d);
    lemma_places(origin, k, dest);
    assert(place_on_line(k, d, dest) is Some);
    let jd = place_on_line(k, d, dest).unwrap();
    if jd < 0 {
        lemma_between_far(origin, dest, k, piece, occ);
    } else if jd > n {
        lemma_between_far(origin, dest, x, piece, occ);
    }
}

/// A square between two squares, and the squares between those two or
/// equal to one of them, lie on one line.
pub proof fn lemma_on_the_way(k: Square, x: Square, origin: Square, dest: Square)
    requires
        k.valid(),
        x.valid(),
        origin.valid(),
        dest.valid(),
        between(k, x, origin),
        dest != origin,
    ensures
        between(k, x, dest) || dest == x ==> line_has(origin, k, dest),
{
    let d = direction_to(k.idx(), x.idx());
    lemma_places(k, x, origin);
    lemma_places(k, x, dest);
    assert(direction_to(origin.idx(), k.idx()) == -d);
    lemma_places(origin, k, dest);
}

/// A move that passes over an occupied square of its line is not a move
/// that a piece can make.
proof fn lemma_between_far(origin: Square, dest: Square, over: Square, piece: Piece, occ: u64)
    requires
        origin.valid(),
        dest.valid(),
        over.valid(),
        piece != Piece::KNIGHT,
        bit(occ, over.0 as u64),
        ({
            let d = direction_to(origin.idx(), over.idx());
            &&& d != 0
            &&& place_on_line(origin, d, dest) matches Some(j) && j > place_on_line(
                origin,
                d,
                over,
            ).unwrap()
        }),
    ensures
        !shape(piece, origin, dest, occ),
{
    let d = direction_to(origin.idx(), over.idx());
    lemma_places(origin, over, dest);
    lemma_places(origin, over, over);
    assert(direction_to(origin.idx(), dest.idx()) == d);
    lemma_places(origin, dest, over);
    assert(between(origin, dest, over));
    if piece == Piece::PAWN && shape(piece, origin, dest, occ) {
        assert(over.0 == (origin.0 + dest.0) / 2);
    }
}

/// Whether a piece of the other side would attack `sq` with the king of
/// the side to move taken off the board: whether the king would stand in
/// check there.
pub open spec fn attacked_without_king(b: Board, sq: Square) -> bool {
    exists|s: Square|
        s.valid() && #[trigger] attacks_from(
            b,
            b.side_to_play.opposite(),
            s,
            sq,
            b.occupancy() ^ square_bit(our_king(b)),
        )
}

/// A piece that attacks a square on one occupancy attacks it on every
/// occupancy that has no more squares between the two.
proof fn lemma_attack_carries(
    p: Option<Piece>,
    c: Option<Color>,
    by: Color,
    s: Square,
    target: Square,
    occ: u64,
    occ2: u64,
)
    requires
        s.valid(),
        target.valid(),
        attack_by(p, c, by, s, target, occ2),
        forall|t: Square|
            t.valid() && #[trigger] between(s, target, t) && bit(occ, t.0 as u64) ==> bit(
                occ2,
                t.0 as u64,
            ),
    ensures
        attack_by(p, c, by, s, target, occ),
{
    lemma_attack_is_clear_way(s, target, occ);
    lemma_attack_is_clear_way(s, target, occ2);
}

/// What it means for the king of the side that moved to be in check after
/// a move, said of the position before the move: a piece that stands on
/// some square after the move attacks the square `k2` of the king on the
/// occupancy after the move, which has the squares that have a colour
/// after the move.
pub proof fn lemma_check_after(b: Board, b2: Board, m: Move, k2: Square)
    requires
        b.consistent(),
        follows(b, b2, m),
        k2.valid(),
        piece_after(b, m, k2) == Some(Piece::KING),
        color_after(b, m, k2) == Some(b.side_to_play),
    ensures
        forall|t: Square|
            t.valid() ==> #[trigger] bit(b2.occupancy(), t.0 as u64) == color_after(
                b,
                m,
                t,
            ).is_some(),
        b2.spec_under_check(b.side_to_play) == exists|s: Square|
            s.valid() && #[trigger] attack_by(
                piece_after(b, m, s),
                color_after(b, m, s),
                b.side_to_play.opposite(),
                s,
                k2,
                b2.occupancy(),
            ),
{
    let us = b.side_to_play;
    let them = us.opposite();
    let occ2 = b2.occupancy();
    lemma_occupant(b2, k2);
    assert(b2.piece_on(k2) == piece_after(b, m, k2));
    assert(b2.color_on(k2) == color_after(b, m, k2));
    assert(k2 == b2.king_sq(us));
    assert forall|t: Square| t.valid() implies #[trigger] bit(occ2, t.0 as u64) == color_after(
        b,
        m,
        t,
    ).is_some() by {
        lemma_occupant(b2, t);
        assert(b2.color_on(t) == color_after(b, m, t));
    }
    lemma_attacked_view(b2, them, k2, occ2);
    if b2.spec_under_check(us) {
        let s = choose|s: Square| s.valid() && #[trigger] attacks_from(b2, them, s, k2, occ2);
        assert(b2.piece_on(s) == piece_after(b, m, s));
        assert(b2.color_on(s) == color_after(b, m, s));
        assert(attack_by(piece_after(b, m, s), color_after(b, m, s), them, s, k2, occ2));
    }
    if exists|s: Square|
        s.valid() && #[trigger] attack_by(
            piece_after(b, m, s),
            color_after(b, m, s),
            them,
            s,
            k2,
            occ2,
        ) {
        let s = choose|s: Square|
            s.valid() && #[trigger] attack_by(
                piece_after(b, m, s),
                color_after(b, m, s),
                them,
                s,
                k2,
                occ2,
            );
        assert(b2.piece_on(s) == piece_after(b, m, s));
        assert(b2.color_on(s) == color_after(b, m, s));
        assert(attacks_from(b2, them, s, k2, occ2));
    }
}

/// A move of the king to a square that no piece would attack with the
/// king off the board leaves the king out of check. `b2` is the position
/// after the move.
#[verifier::spinoff_prover]
#[verifier::rlimit(100)]
pub proof fn lemma_king_move_safe(b: Board, b2: Board, dest: Square)
    requires
        b.playable(),
        b.fits(Move::NormalMove { origin: our_king(b), dest, piece: Piece::KING }),
        follows(b, b2, Move::NormalMove { origin: our_king(b), dest, piece: Piece::KING }),
        !attacked_without_king(b, dest),
    ensures
        !b2.spec_under_check(b.side_to_play),
{
    let us = b.side_to_play;
    let them = us.opposite();
    let k = our_king(b);
    let m = Move::NormalMove { origin: k, dest, piece: Piece::KING };
    let occ = b.occupancy();
    let occ1 = occ ^ square_bit(k);
    let occ2 = b2.occupancy();
    crate::bits::lemma_bit_ops();
    lemma_occupant(b2, dest);
    assert(b2.piece_on(dest) == piece_after(b, m, dest));
    assert(b2.color_on(dest) == color_after(b, m, dest));
    assert(dest == b2.king_sq(us));
    lemma_attacked_view(b2, them, dest, occ2);
    if b2.spec_under_check(us) {
        let s = choose|s: Square| s.valid() && #[trigger] attacks_from(b2, them, s, dest, occ2);
        assert(b2.piece_on(s) == piece_after(b, m, s));
        assert(b2.color_on(s) == color_after(b, m, s));
        assert(s != k && s != dest);
        assert forall|t: Square|
            t.valid() && #[trigger] between(s, dest, t) && bit(occ1, t.0 as u64) implies bit(
            occ2,
            t.0 as u64,
        ) by {
            lemma_occupant(b, t);
            lemma_occupant(b2, t);
            assert(b2.color_on(t) == color_after(b, m, t));
            assert(t != dest);
        }
        lemma_attack_carries(b.piece_on(s), b.color_on(s), them, s, dest, occ1, occ2);
        assert(attacks_from(b, them, s, dest, occ1));
    }
}

/// A castling over squares that no piece would attack with the king off
/// the board leaves the king out of check. `b2` is the position after it.
#[verifier::spinoff_prover]
#[verifier::rlimit(100)]
pub proof fn lemma_castling_safe(b: Board, b2: Board, m: Move)
    requires
        b.playable(),
        castling_of(m) is Some,
        b.fits(m),
        follows(b, b2, m),
        !attacked_without_king(b, castling_of(m).unwrap().king_to),
    ensures
        !b2.spec_under_check(b.side_to_play),
{
    let us = b.side_to_play;
    let them = us.opposite();
    let c = castling_of(m).unwrap();
    let k = our_king(b);
    let dest = c.king_to;
    let occ = b.occupancy();
    let occ1 = occ ^ square_bit(k);
    let occ2 = b2.occupancy();
    crate::bits::lemma_bit_ops();
    lemma_occupant(b2, dest);
    assert(b2.piece_on(dest) == piece_after(b, m, dest));
    assert(b2.color_on(dest) == color_after(b, m, dest));
    assert(dest == b2.king_sq(us));
    lemma_attacked_view(b2, them, dest, occ2);
    if b2.spec_under_check(us) {
        let s = choose|s: Square| s.valid() && #[trigger] attacks_from(b2, them, s, dest, occ2);
        assert(b2.piece_on(s) == piece_after(b, m, s));
        assert(b2.color_on(s) == color_after(b, m, s));
        assert(s != c.king_from && s != c.king_to && s != c.rook_from && s != c.rook_to);
        assert forall|t: Square|
            t.valid() && #[trigger] between(s, dest, t) && bit(occ1, t.0 as u64) implies bit(
            occ2,
            t.0 as u64,
        ) by {
            lemma_occupant(b, t);
            lemma_occupant(b2, t);
            assert(b2.color_on(t) == color_after(b, m, t));
            assert(t != c.rook_from);
        }
        lemma_attack_carries(b.piece_on(s), b.color_on(s), them, s, dest, occ1, occ2);
        assert(attacks_from(b, them, s, dest, occ1));
    }
}

/// The square on which the pawn that can be taken in passing stood before
/// its double step.
pub open spec fn double_step_from(b: Board) -> Square {
    let e = b.en_passant.unwrap();
    if b.side_to_play == Color::WHITE {
        Square((e.0 + 8) as u8)
    } else {
        Square((e.0 - 8) as u8)
    }
}

/// The square of the pawn that can be taken in passing.
pub open spec fn double_step_to(b: Board) -> Square {
    let e = b.en_passant.unwrap();
    if b.side_to_play == Color::WHITE {
        Square((e.0 - 8) as u8)
    } else {
        Square((e.0 + 8) as u8)
    }
}

/// Whether the double step that opened the en-passant square was made
/// from a position in which the king of the side now to move was not
/// attacked by a rook, bishop or queen: the side now to move had not left
/// its king in check.
pub open spec fn double_step_was_legal(b: Board) -> bool {
    b.en_passant is Some ==> {
        let before = (b.occupancy() ^ square_bit(double_step_to(b))) | square_bit(
            double_step_from(b),
        );
        forall|s: Square|
            s.valid() && slider_on(b, s) ==> !#[trigger] attacks_from(
                b,
                b.side_to_play.opposite(),
                s,
                our_king(b),
                before,
            )
    }
}

/// Two squares side by side on a rank that both lie between two squares
/// lie on their rank with them.
proof fn lemma_line_of_neighbours(a: Square, b: Square, p: Square, q: Square)
    requires
        a.valid(),
        b.valid(),
        p.valid(),
        q.valid(),
        between(a, b, p),
        between(a, b, q),
        p.spec_rank() == q.spec_rank(),
        p != q,
    ensures
        b.spec_rank() == p.spec_rank(),
{
}

/// Of three squares one above the other on a file, the lower, the middle
/// and the upper: a line between two squares that passes through the
/// lower or the upper one and does not run along their rank passes
/// through the middle one too if it runs along the file, and else not
/// through the other one.
proof fn lemma_file_of_double_step(a: Square, b: Square, far: Square, mid: Square, near: Square)
    requires
        a.valid(),
        b.valid(),
        far.valid(),
        mid.valid(),
        near.valid(),
        between(a, b, near),
        mid.spec_file() == near.spec_file(),
        far.spec_file() == near.spec_file(),
        (mid.spec_rank() == near.spec_rank() + 1 && far.spec_rank() == near.spec_rank() + 2) || (
        mid.spec_rank() == near.spec_rank() - 1 && far.spec_rank() == near.spec_rank() - 2),
        a != mid,
        b != mid,
        b.spec_rank() != near.spec_rank(),
    ensures
        between(a, b, mid) || !between(a, b, far),
{
}

/// A capture in passing that move generation takes up without trying it
/// leaves the king out of check: the king is not in check and not on the
/// rank of the pawns, and the pawn is not pinned or stays on the line of
/// its pin. `b2` is the position after the capture.
#[verifier::spinoff_prover]
#[verifier::rlimit(100)]
pub proof fn lemma_en_passant_safe(
    b: Board,
    b2: Board,
    checkers: u64,
    pinned: u64,
    origin: Square,
    dest: Square,
    capture: Square,
)
    requires
        b.playable(),
        double_step_was_legal(b),
        checkers_exact(b, checkers),
        pins_found(b, pinned),
        checkers == 0,
        b.fits(Move::EnPassant { origin, dest, capture }),
        follows(b, b2, Move::EnPassant { origin, dest, capture }),
        b.en_passant == Some(dest),
        capture == double_step_to(b),
        pawn_has(b.side_to_play, origin.idx(), dest.idx()),
        our_king(b).spec_rank() != origin.spec_rank(),
        bit(pinned, origin.0 as u64) ==> line_has(origin, our_king(b), dest),
    ensures
        !b2.spec_under_check(b.side_to_play),
{
    let us = b.side_to_play;
    let them = us.opposite();
    let k = our_king(b);
    let m = Move::EnPassant { origin, dest, capture };
    let occ = b.occupancy();
    let occ2 = b2.occupancy();
    let home = double_step_from(b);
    let before = (occ ^ square_bit(capture)) | square_bit(home);
    lemma_occupant(b, k);
    lemma_occupant(b, origin);
    lemma_occupant(b, dest);
    lemma_occupant(b, capture);
    lemma_check_after(b, b2, m, k);
    if b2.spec_under_check(us) {
        let s = choose|s: Square|
            s.valid() && #[trigger] attack_by(
                piece_after(b, m, s),
                color_after(b, m, s),
                them,
                s,
                k,
                occ2,
            );
        assert(s != origin && s != dest && s != capture);
        assert(attacks_from(b, them, s, k, occ2));
        lemma_en_passant_attacker(b, checkers, pinned, origin, dest, capture, s, occ2);
    }
}

/// Where the squares of a capture in passing lie: the pawn taken on the
/// file of the en-passant square and the rank of the pawn that takes, and
/// the square of its double step beyond the en-passant square.
pub proof fn lemma_double_step_squares(b: Board, origin: Square, dest: Square)
    requires
        b.wf(),
        b.en_passant_consistent(),
        b.en_passant == Some(dest),
        origin.valid(),
        pawn_has(b.side_to_play, origin.idx(), dest.idx()),
    ensures
        double_step_to(b).valid() && double_step_from(b).valid(),
        double_step_to(b).spec_file() == dest.spec_file(),
        double_step_from(b).spec_file() == dest.spec_file(),
        double_step_to(b).spec_rank() == origin.spec_rank(),
        double_step_from(b).spec_rank() - dest.spec_rank() == dest.spec_rank() - double_step_to(
            b,
        ).spec_rank(),
        double_step_from(b) != double_step_to(b),
{
}

/// The occupancy before the double step, square by square.
pub proof fn lemma_before_double_step(occ: u64, capture: Square, home: Square)
    requires
        capture.valid(),
        home.valid(),
        capture != home,
    ensures
        forall|t: Square|
            t.valid() ==> #[trigger] bit(
                (occ ^ square_bit(capture)) | square_bit(home),
                t.0 as u64,
            ) == (if t == home {
                true
            } else if t == capture {
                !bit(occ, t.0 as u64)
            } else {
                bit(occ, t.0 as u64)
            }),
{
    crate::bits::lemma_bit_ops();
}

/// The second half of the proof for the capture in passing: no piece of
/// the position before the capture attacks the king on the occupancy after
/// it.
#[verifier::spinoff_prover]
#[verifier::rlimit(100)]
proof fn lemma_en_passant_attacker(
    b: Board,
    checkers: u64,
    pinned: u64,
    origin: Square,
    dest: Square,
    capture: Square,
    s: Square,
    occ2: u64,
)
    requires
        b.playable(),
        double_step_was_legal(b),
        checkers_exact(b, checkers),
        pins_found(b, pinned),
        checkers == 0,
        b.fits(Move::EnPassant { origin, dest, capture }),
        b.en_passant == Some(dest),
        capture == double_step_to(b),
        pawn_has(b.side_to_play, origin.idx(), dest.idx()),
        our_king(b).spec_rank() != origin.spec_rank(),
        bit(pinned, origin.0 as u64) ==> line_has(origin, our_king(b), dest),
        s.valid(),
        s != origin && s != dest && s != capture,
        forall|t: Square|
            t.valid() ==> #[trigger] bit(occ2, t.0 as u64) == color_after(
                b,
                Move::EnPassant { origin, dest, capture },
                t,
            ).is_some(),
    ensures
        !attacks_from(b, b.side_to_play.opposite(), s, our_king(b), occ2),
{
    let us = b.side_to_play;
    let them = us.opposite();
    let k = our_king(b);
    let m = Move::EnPassant { origin, dest, capture };
    let occ = b.occupancy();
    let home = double_step_from(b);
    let before = (occ ^ square_bit(capture)) | square_bit(home);
    if attacks_from(b, them, s, k, occ2) {
        lemma_occupant(b, k);
        lemma_occupant(b, origin);
        lemma_occupant(b, dest);
        lemma_occupant(b, capture);
        lemma_occupant(b, s);
        lemma_double_step_squares(b, origin, dest);
        lemma_before_double_step(occ, capture, home);
        lemma_attack_is_clear_way(s, k, occ);
        lemma_attack_is_clear_way(s, k, occ2);
        lemma_attack_is_clear_way(s, k, before);
        assert(bit(occ, capture.0 as u64));
        assert forall|t: Square| t.valid() implies #[trigger] bit(occ2, t.0 as u64) == (if t
            == origin || t == capture {
            false
        } else if t == dest {
            true
        } else {
            bit(occ, t.0 as u64)
        }) by {
            lemma_occupant(b, t);
        }
        assert(!bit(checkers, s.0 as u64)) by {
            crate::bits::lemma_bit_ops();
        }
        assert(!attacks_from(b, them, s, k, occ));
        assert(slider_on(b, s));
        assert(!attacks_from(b, them, s, k, before));
        assert(clear_between(s, k, occ2));
        assert(!clear_between(s, k, occ));
        assert(!clear_between(s, k, before));
        if between(k, s, origin) && (forall|u: Square|
            u.valid() && u != origin && #[trigger] between(k, s, u) ==> !bit(occ, u.0 as u64)) {
            assert(sole_blocker_of(b, s, origin, false) || sole_blocker_of(b, s, origin, true));
            assert(bit(pinned, origin.0 as u64));
        }
        lemma_en_passant_way(us, k, s, origin, dest, capture, home, occ, occ2, before);
    }
}

/// A way to the king that is clear once a pawn has taken another in
/// passing was clear before, or clear before that other pawn made its
/// double step, unless the king stands on the rank of the two pawns or
/// the pawn that takes was the one piece in the way and leaves the line.
#[verifier::spinoff_prover]
#[verifier::rlimit(100)]
proof fn lemma_en_passant_way(
    us: Color,
    k: Square,
    s: Square,
    origin: Square,
    dest: Square,
    capture: Square,
    home: Square,
    occ: u64,
    occ2: u64,
    before: u64,
)
    requires
        k.valid() && s.valid() && origin.valid() && dest.valid() && capture.valid() && home.valid(),
        pawn_has(us, origin.idx(), dest.idx()),
        capture.spec_file() == dest.spec_file() && home.spec_file() == dest.spec_file(),
        capture.spec_rank() == origin.spec_rank(),
        home.spec_rank() - dest.spec_rank() == dest.spec_rank() - capture.spec_rank(),
        k.spec_rank() != origin.spec_rank(),
        k != dest && s != dest && k != origin && s != origin && k != capture && s != capture,
        bit(occ, k.0 as u64) && bit(occ, s.0 as u64),
        forall|t: Square|
            t.valid() ==> #[trigger] bit(occ2, t.0 as u64) == (if t == origin || t == capture {
                false
            } else if t == dest {
                true
            } else {
                bit(occ, t.0 as u64)
            }),
        forall|t: Square|
            t.valid() ==> #[trigger] bit(before, t.0 as u64) == (if t == capture {
                false
            } else if t == home {
                true
            } else {
                bit(occ, t.0 as u64)
            }),
        clear_between(s, k, occ2),
        (between(k, s, origin) && (forall|u: Square|
            u.valid() && u != origin && #[trigger] between(k, s, u) ==> !bit(occ, u.0 as u64)))
            ==> line_has(origin, k, dest),
    ensures
        clear_between(s, k, occ) || clear_between(s, k, before),
{
    crate::bitboard_constants::lemma_between_symmetric(k, s, origin);
    crate::bitboard_constants::lemma_between_symmetric(k, s, capture);
    crate::bitboard_constants::lemma_between_symmetric(k, s, dest);
    crate::bitboard_constants::lemma_between_symmetric(k, s, home);
    assert(!between(s, k, dest));
    if !clear_between(s, k, occ) {
        let t = choose|t: Square| t.valid() && #[trigger] between(s, k, t) && bit(occ, t.0 as u64);
        assert(t == origin || t == capture);
        if between(s, k, origin) && between(s, k, capture) {
            lemma_line_of_neighbours(s, k, origin, capture);
        } else if between(s, k, origin) {
            assert forall|u: Square| u.valid() && u != origin && #[trigger] between(
                k,
                s,
                u,
            ) implies !bit(occ, u.0 as u64) by {
                crate::bitboard_constants::lemma_between_symmetric(k, s, u);
                assert(between(s, k, u));
            }
            assert(line_has(origin, k, dest));
            lemma_stays_on_line(k, s, origin, dest, Piece::PAWN, occ);
        } else {
            assert(between(s, k, capture));
            lemma_file_of_double_step(s, k, home, dest, capture);
            assert(!between(s, k, home));
            assert forall|u: Square| u.valid() && #[trigger] between(s, k, u) implies !bit(
                before,
                u.0 as u64,
            ) by {
                assert(u != home);
                if u != capture {
                    assert(!bit(occ2, u.0 as u64));
                }
            }
        }
    }
}

/// A move of a piece other than the king, a promotion among them, that
/// move generation takes up leaves the king out of check.
pub proof fn lemma_relocation_legal(
    b: Board,
    m: Move,
    checkers: u64,
    block: u64,
    pinned: u64,
    origin: Square,
    dest: Square,
    piece: Piece,
)
    requires
        b.playable(),
        checkers_exact(b, checkers),
        blocks_only(b, block),
        pins_found(b, pinned),
        b.fits(m),
        m == (Move::NormalMove { origin, dest, piece }) && piece != Piece::KING || (m == (
        Move::Promotion { origin, dest, piece }) && b.piece_on(origin) == Some(Piece::PAWN)),
        taken_up(b, checkers, block, pinned, origin, dest, b.piece_on(origin).unwrap()),
    ensures
        leaves_king_safe(b, m),
{
    lemma_apply_follows(b, m);
    lemma_relocation_safe(b, b.apply(m), m, checkers, block, pinned, origin, dest, piece);
}

/// A move of the king to a square that no piece would attack with the
/// king off the board leaves the king out of check.
pub proof fn lemma_king_move_legal(b: Board, dest: Square)
    requires
        b.playable(),
        b.fits(Move::NormalMove { origin: our_king(b), dest, piece: Piece::KING }),
        !attacked_without_king(b, dest),
    ensures
        leaves_king_safe(b, Move::NormalMove { origin: our_king(b), dest, piece: Piece::KING }),
{
    let m = Move::NormalMove { origin: our_king(b), dest, piece: Piece::KING };
    lemma_apply_follows(b, m);
    lemma_king_move_safe(b, b.apply(m), dest);
}

/// A castling to a square that no piece would attack with the king off
/// the board leaves the king out of check.
pub proof fn lemma_castling_legal(b: Board, m: Move)
    requires
        b.playable(),
        castling_of(m) is Some,
        b.fits(m),
        !attacked_without_king(b, castling_of(m).unwrap().king_to),
    ensures
        leaves_king_safe(b, m),
{
    lemma_apply_follows(b, m);
    lemma_castling_safe(b, b.apply(m), m);
}

/// A capture in passing that move generation takes up without trying it
/// leaves the king out of check.
pub proof fn lemma_en_passant_legal(
    b: Board,
    checkers: u64,
    pinned: u64,
    origin: Square,
    dest: Square,
    capture: Square,
)
    requires
        b.playable(),
        double_step_was_legal(b),
        checkers_exact(b, checkers),
        pins_found(b, pinned),
        checkers == 0,
        b.fits(Move::EnPassant { origin, dest, capture }),
        b.en_passant == Some(dest),
        capture == double_step_to(b),
        pawn_has(b.side_to_play, origin.idx(), dest.idx()),
        our_king(b).spec_rank() != origin.spec_rank(),
        bit(pinned, origin.0 as u64) ==> line_has(origin, our_king(b), dest),
    ensures
        leaves_king_safe(b, Move::EnPassant { origin, dest, capture }),
{
    let m = Move::EnPassant { origin, dest, capture };
    lemma_apply_follows(b, m);
    lemma_en_passant_safe(b, b.apply(m), checkers, pinned, origin, dest, capture);
}

/// Of three different squares on one line, each lies on the line through
/// the other two.
pub proof fn lemma_line_of_three(a: Square, b: Square, c: Square)
    requires
        a.valid(),
        b.valid(),
        c.valid(),
        line_has(a, b, c),
        c != a,
    ensures
        line_has(a, c, b),
{
}

} // verus!
