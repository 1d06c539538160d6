//! Positions of a game: what a legal move makes of one is one again.
use vstd::prelude::*;
use crate::bits::bit;
use crate::bits::lemma_bit_ops;
use crate::bits::lemma_initial_bits;
use crate::bits::lemma_single_bit;
use crate::board::square_bit;
use crate::board::Board;
use crate::bitboard_constants::between;
use crate::bitboard_constants::lemma_between_symmetric;
use crate::board_laws::castling_of;
use crate::board_laws::color_after;
use crate::board_laws::follows;
use crate::board_laws::piece_after;
use crate::board_laws::lemma_apply_follows;
use crate::completeness::legal;
use crate::completeness::lemma_attack_same;
use crate::legality::at_most_two_checks;
use crate::legality::attacks_from;
use crate::legality::clear_between;
use crate::legality::gives_check;
use crate::legality::legal_position;
use crate::legality::lemma_attack_is_clear_way;
use crate::legality::double_step_from;
use crate::legality::double_step_to;
use crate::legality::double_step_was_legal;
use crate::legality::lemma_attacked_view;
use crate::legality::lemma_occupant;
use crate::legality::our_king;
use crate::legality::slider_on;
use crate::moves::Move;
use crate::pieces::Color;
use crate::pieces::Piece;
use crate::square::Square;
use crate::zobrist_hash::spec_hash;
use crate::zobrist_hash::spec_hash_update;
use crate::zobrist_hash::ZobristTable;
use crate::zobrist_laws::lemma_hash_update;

verus! {

/// A legal move from a playable position leads to a playable position.
pub proof fn lemma_playable_after(b: Board, m: Move)
    requires
        b.playable(),
        legal(b, m),
    ensures
        b.apply(m).playable(),
        follows(b, b.apply(m), m),
{
    let b2 = b.apply(m);
    lemma_apply_follows(b, m);
    assert(b2.side_to_play.opposite() == b.side_to_play);
    assert(b2.pawns_in_place()) by {
        assert forall|s: Square| s.valid() && #[trigger] b2.has_type(Piece::PAWN, s) implies 1
            <= s.spec_rank() <= 6 by {
            lemma_occupant(b2, s);
            lemma_occupant(b, s);
            assert(b2.piece_on(s) == Some(Piece::PAWN));
            if b.piece_on(s) == Some(Piece::PAWN) {
                assert(b.has_type(Piece::PAWN, s));
            }
        }
    }
    assert(b2.en_passant_consistent()) by {
        match m {
            Move::NormalMove { origin, dest, piece } => {
                if b2.en_passant is Some {
                    let e = b2.en_passant.unwrap();
                    lemma_occupant(b, e);
                    lemma_occupant(b2, e);
                    lemma_occupant(b2, dest);
                    lemma_occupant(b, origin);
                    assert(e.valid() && e != origin && e != dest);
                    assert(e == Square(((origin.0 + dest.0) / 2) as u8));
                    assert(b.is_empty(e));
                    assert(b2.color_on(e) == b.color_on(e));
                    assert(b2.piece_on(dest) == Some(Piece::PAWN));
                    assert(b2.color_on(dest) == Some(b.side_to_play));
                }
            },
            _ => {},
        }
    }
}

/// After a legal move from a playable position, the double step of a pawn
/// that can be taken in passing was legal: the side that made it had not
/// the king of the other side in check.
pub proof fn lemma_double_step_after(b: Board, m: Move)
    requires
        b.playable(),
        legal(b, m),
    ensures
        double_step_was_legal(b.apply(m)),
{
    let b2 = b.apply(m);
    lemma_playable_after(b, m);
    if b2.en_passant is Some {
        let us = b.side_to_play;
        let them = us.opposite();
        let k = our_king(b2);
        match m {
            Move::NormalMove { origin, dest, piece } => {
                let e = b2.en_passant.unwrap();
                let before = (b2.occupancy() ^ square_bit(double_step_to(b2))) | square_bit(
                    double_step_from(b2),
                );
                assert(double_step_to(b2) == dest && double_step_from(b2) == origin);
                lemma_bit_ops();
                lemma_single_bit();
                lemma_occupant(b, dest);
                lemma_occupant(b, origin);
                assert forall|t: Square| t.valid() implies bit(before, t.0 as u64) == bit(
                    b.occupancy(),
                    t.0 as u64,
                ) by {
                    lemma_occupant(b, t);
                    lemma_occupant(b2, t);
                    assert(b2.color_on(t) == crate::board_laws::color_after(b, m, t));
                }
                lemma_occupant(b, k);
                lemma_occupant(b2, k);
                assert(b2.piece_on(k) == crate::board_laws::piece_after(b, m, k));
                assert(b2.color_on(k) == crate::board_laws::color_after(b, m, k));
                assert(k == b.king_sq(them));
                lemma_attacked_view(b, us, k, b.occupancy());
                assert forall|s: Square| s.valid() && slider_on(b2, s) implies !#[trigger] attacks_from(
                    b2,
                    b2.side_to_play.opposite(),
                    s,
                    k,
                    before,
                ) by {
                    lemma_occupant(b, s);
                    lemma_occupant(b2, s);
                    assert(b2.piece_on(s) == crate::board_laws::piece_after(b, m, s));
                    assert(b2.color_on(s) == crate::board_laws::color_after(b, m, s));
                    lemma_attack_same(
                        b.piece_on(s),
                        b.color_on(s),
                        us,
                        s,
                        k,
                        before,
                        b.occupancy(),
                    );
                    assert(!attacks_from(b, us, s, k, b.occupancy()));
                }
            },
            _ => {},
        }
    }
}

/// Whether the move `m` puts a piece on the square `s`.
pub open spec fn arrives(m: Move, s: Square) -> bool {
    match m {
        Move::NormalMove { origin, dest, piece } => s == dest,
        Move::Promotion { origin, dest, piece } => s == dest,
        Move::EnPassant { origin, dest, capture } => s == dest,
        Move::NullMove => false,
        _ => s == castling_of(m).unwrap().king_to || s == castling_of(m).unwrap().rook_to,
    }
}

/// Whether the move `m` takes a piece off the square `s` and leaves the
/// square empty.
pub open spec fn leaves(m: Move, s: Square) -> bool {
    match m {
        Move::NormalMove { origin, dest, piece } => s == origin,
        Move::Promotion { origin, dest, piece } => s == origin,
        Move::EnPassant { origin, dest, capture } => s == origin || s == capture,
        Move::NullMove => false,
        _ => s == castling_of(m).unwrap().king_from || s == castling_of(m).unwrap().rook_from,
    }
}

/// Whether the piece on `c` gives check in the position `b2` along a line
/// that passes over the square `v`.
pub open spec fn checks_over(b2: Board, c: Square, v: Square) -> bool {
    gives_check(b2, c) && slider_on(b2, c) && between(c, our_king(b2), v)
}

/// The square of the king that is not to move stays what it is.
proof fn lemma_king_stays(b: Board, m: Move)
    requires
        b.playable(),
        legal(b, m),
    ensures
        our_king(b.apply(m)) == b.king_sq(b.side_to_play.opposite()),
        !arrives(m, our_king(b.apply(m))),
        !leaves(m, our_king(b.apply(m))),
{
    let b2 = b.apply(m);
    lemma_playable_after(b, m);
    let k = our_king(b2);
    lemma_occupant(b, k);
    lemma_occupant(b2, k);
    assert(b2.piece_on(k) == piece_after(b, m, k));
    assert(b2.color_on(k) == color_after(b, m, k));
}

/// A piece that gives check after a legal move has arrived with the
/// move, or is a slider over whose way to the king the move has left a
/// square empty.
proof fn lemma_check_has_cause(b: Board, m: Move, c: Square)
    requires
        b.playable(),
        legal(b, m),
        c.valid(),
        gives_check(b.apply(m), c),
    ensures
        arrives(m, c) || exists|v: Square|
            v.valid() && leaves(m, v) && #[trigger] checks_over(b.apply(m), c, v),
{
    let b2 = b.apply(m);
    let us = b.side_to_play;
    let them = us.opposite();
    let k = our_king(b2);
    let occ = b.occupancy();
    let occ2 = b2.occupancy();
    lemma_playable_after(b, m);
    lemma_king_stays(b, m);
    lemma_occupant(b, c);
    lemma_occupant(b2, c);
    assert(b2.piece_on(c) == piece_after(b, m, c));
    assert(b2.color_on(c) == color_after(b, m, c));
    lemma_attacked_view(b, us, k, occ);
    if !arrives(m, c) {
        assert(!leaves(m, c));
        assert(b2.piece_on(c) == b.piece_on(c) && b2.color_on(c) == b.color_on(c));
        assert(!attacks_from(b, us, c, k, occ));
        assert(attacks_from(b2, us, c, k, occ2));
        lemma_attack_is_clear_way(c, k, occ2);
        lemma_attack_is_clear_way(c, k, occ);
        assert(slider_on(b2, c));
        assert(clear_between(c, k, occ2));
        assert(!clear_between(c, k, occ));
        let v = choose|v: Square| v.valid() && #[trigger] between(c, k, v) && bit(occ, v.0 as u64);
        lemma_occupant(b, v);
        lemma_occupant(b2, v);
        assert(b2.color_on(v) == color_after(b, m, v));
        assert(!bit(occ2, v.0 as u64));
        assert(leaves(m, v));
        assert(checks_over(b2, c, v));
    }
}

/// Over one square at most one slider gives check.
proof fn lemma_one_over(b2: Board, c1: Square, c2: Square, v: Square)
    requires
        b2.consistent(),
        c1.valid(),
        c2.valid(),
        v.valid(),
        checks_over(b2, c1, v),
        checks_over(b2, c2, v),
    ensures
        c1 == c2,
{
    let k = our_king(b2);
    let occ2 = b2.occupancy();
    if c1 != c2 {
        lemma_attack_is_clear_way(c1, k, occ2);
        lemma_attack_is_clear_way(c2, k, occ2);
        lemma_occupant(b2, c1);
        lemma_occupant(b2, c2);
        lemma_between_symmetric(k, c1, v);
        lemma_between_symmetric(k, c2, v);
        lemma_between_symmetric(k, c1, c2);
        lemma_between_symmetric(k, c2, c1);
        lemma_ray_order(k, c1, c2, v);
        if between(k, c1, c2) {
            assert(between(c1, k, c2));
            assert(bit(occ2, c2.0 as u64));
        } else {
            assert(between(c2, k, c1));
            assert(bit(occ2, c1.0 as u64));
        }
    }
}

/// Of two squares that both have a third square between them and a
/// fourth, one lies between the fourth and the other.
proof fn lemma_ray_order(k: Square, c1: Square, c2: Square, v: Square)
    requires
        k.valid(),
        c1.valid(),
        c2.valid(),
        v.valid(),
        between(k, c1, v),
        between(k, c2, v),
        c1 != c2,
    ensures
        between(k, c1, c2) || between(k, c2, c1),
{
}

/// No corner of the board lies between two squares.
proof fn lemma_corner_is_an_end(a: Square, b: Square, v: Square)
    requires
        a.valid(),
        b.valid(),
        v == Square(0) || v == Square(7) || v == Square(56) || v == Square(63),
    ensures
        !between(a, b, v),
{
}

/// A pawn that gives check stands on no line with the square behind it
/// and the king.
proof fn lemma_pawn_check_hides_nothing(us: Color, dest: Square, k: Square, c: Square, capture: Square)
    requires
        dest.valid(),
        k.valid(),
        c.valid(),
        capture.valid(),
        crate::bitboard_attacks::pawn_has(us, dest.idx(), k.idx()),
        capture.spec_file() == dest.spec_file(),
        capture.spec_rank() == dest.spec_rank() + 1 || capture.spec_rank() + 1 == dest.spec_rank(),
        capture.spec_rank() != k.spec_rank(),
    ensures
        !between(c, k, capture),
{
}

/// Of three things of which each is a given one or belongs to one of two
/// kinds, two are the same if each kind has one member at most and the
/// given one, where it is among them, leaves the second kind empty.
proof fn lemma_two_coincide(
    x: Square,
    y: Square,
    z: Square,
    d: Square,
    first: (bool, bool, bool),
    second: (bool, bool, bool),
)
    requires
        x == d || first.0 || second.0,
        y == d || first.1 || second.1,
        z == d || first.2 || second.2,
        first.0 && first.1 ==> x == y,
        first.0 && first.2 ==> x == z,
        first.1 && first.2 ==> y == z,
        second.0 && second.1 ==> x == y,
        second.0 && second.2 ==> x == z,
        second.1 && second.2 ==> y == z,
        x == d || y == d || z == d ==> !second.0 && !second.1 && !second.2,
    ensures
        x == y || y == z || x == z,
{
}

/// The two squares that a move leaves empty; for a move that leaves one
/// square empty, that square twice.
pub open spec fn squares_left(m: Move) -> (Square, Square) {
    match m {
        Move::NormalMove { origin, dest, piece } => (origin, origin),
        Move::Promotion { origin, dest, piece } => (origin, origin),
        Move::EnPassant { origin, dest, capture } => (origin, capture),
        Move::NullMove => (Square(64), Square(64)),
        _ => (castling_of(m).unwrap().king_from, castling_of(m).unwrap().rook_from),
    }
}

/// The square on which a move puts a piece that can give check: not the
/// king that castles.
pub open spec fn square_reached(m: Move) -> Square {
    match m {
        Move::NormalMove { origin, dest, piece } => dest,
        Move::Promotion { origin, dest, piece } => dest,
        Move::EnPassant { origin, dest, capture } => dest,
        Move::NullMove => Square(64),
        _ => castling_of(m).unwrap().rook_to,
    }
}

/// A piece that gives check after a legal move stands on the square that
/// the move has reached, or gives check over one of the squares that the
/// move has left.
proof fn lemma_cause_of_check(b: Board, m: Move, c: Square)
    requires
        b.playable(),
        legal(b, m),
        c.valid(),
        gives_check(b.apply(m), c),
    ensures
        c == square_reached(m) || checks_over(b.apply(m), c, squares_left(m).0) || checks_over(
            b.apply(m),
            c,
            squares_left(m).1,
        ),
{
    let b2 = b.apply(m);
    let us = b.side_to_play;
    let k = our_king(b2);
    lemma_check_has_cause(b, m, c);
    if castling_of(m) is Some && c == castling_of(m).unwrap().king_to {
        // the king that has castled gives no check
        lemma_playable_after(b, m);
        lemma_king_stays(b, m);
        lemma_occupant(b2, c);
        assert(b2.piece_on(c) == piece_after(b, m, c));
        assert(b2.color_on(c) == color_after(b, m, c));
        assert(b2.king_sq(us) == c);
        assert(crate::bitboard_attacks::king_has(k.idx(), c.idx()));
        assert(b2.attacked(b2.side_to_play, c, b2.occupancy()));
    }
}

/// Where the pawn that has taken in passing gives check, no slider gives
/// check over the square of the pawn taken, and no corner of the board
/// lies on the way of a check.
proof fn lemma_nothing_over(b: Board, m: Move, c: Square)
    requires
        b.playable(),
        legal(b, m),
        c.valid(),
        m is EnPassant ==> gives_check(b.apply(m), square_reached(m)),
        m is EnPassant || castling_of(m) is Some,
    ensures
        !checks_over(b.apply(m), c, squares_left(m).1),
{
    let b2 = b.apply(m);
    let us = b.side_to_play;
    let k = our_king(b2);
    lemma_playable_after(b, m);
    lemma_king_stays(b, m);
    match m {
        Move::EnPassant { origin, dest, capture } => {
            lemma_occupant(b2, dest);
            assert(b2.piece_on(dest) == piece_after(b, m, dest));
            assert(b2.color_on(dest) == color_after(b, m, dest));
            assert(crate::bitboard_attacks::pawn_has(us, dest.idx(), k.idx()));
            lemma_pawn_check_hides_nothing(us, dest, k, c, capture);
        },
        _ => {
            lemma_corner_is_an_end(c, k, castling_of(m).unwrap().rook_from);
        },
    }
}

/// After a legal move from a playable position at most two pieces give
/// check: the piece that has moved, and one slider whose way the move has
/// opened.
pub proof fn lemma_two_checks_after(b: Board, m: Move)
    requires
        b.playable(),
        legal(b, m),
    ensures
        at_most_two_checks(b.apply(m)),
{
    let b2 = b.apply(m);
    assert forall|x: Square, y: Square, z: Square|
        x.valid() && y.valid() && z.valid() && x != y && y != z && x != z implies !(
    #[trigger] gives_check(b2, x) && #[trigger] gives_check(b2, y) && #[trigger] gives_check(
        b2,
        z,
    )) by {
        if gives_check(b2, x) && gives_check(b2, y) && gives_check(b2, z) {
            lemma_three_checks(b, m, x, y, z);
        }
    }
}

/// Of three pieces that give check after a legal move two are the same.
proof fn lemma_three_checks(b: Board, m: Move, x: Square, y: Square, z: Square)
    requires
        b.playable(),
        legal(b, m),
        x.valid() && y.valid() && z.valid(),
        gives_check(b.apply(m), x),
        gives_check(b.apply(m), y),
        gives_check(b.apply(m), z),
    ensures
        x == y || y == z || x == z,
{
    let b2 = b.apply(m);
    let d = square_reached(m);
    let v = squares_left(m).0;
    let w = squares_left(m).1;
    lemma_cause_of_check(b, m, x);
    lemma_cause_of_check(b, m, y);
    lemma_cause_of_check(b, m, z);
    lemma_overs(b, m, x, y);
    lemma_overs(b, m, x, z);
    lemma_overs(b, m, y, z);
    if m is EnPassant && (x == d || y == d || z == d) {
        lemma_nothing_over(b, m, x);
        lemma_nothing_over(b, m, y);
        lemma_nothing_over(b, m, z);
    }
    if castling_of(m) is Some {
        lemma_nothing_over(b, m, x);
        lemma_nothing_over(b, m, y);
        lemma_nothing_over(b, m, z);
    }
    let first = (checks_over(b2, x, v), checks_over(b2, y, v), checks_over(b2, z, v));
    let second = if v == w {
        (false, false, false)
    } else {
        (checks_over(b2, x, w), checks_over(b2, y, w), checks_over(b2, z, w))
    };
    lemma_two_coincide(x, y, z, d, first, second);
}

/// Two sliders that give check after a legal move over the same square
/// that the move has left are one.
proof fn lemma_overs(b: Board, m: Move, c1: Square, c2: Square)
    requires
        b.playable(),
        legal(b, m),
        c1.valid(),
        c2.valid(),
    ensures
        checks_over(b.apply(m), c1, squares_left(m).0) && checks_over(
            b.apply(m),
            c2,
            squares_left(m).0,
        ) ==> c1 == c2,
        checks_over(b.apply(m), c1, squares_left(m).1) && checks_over(
            b.apply(m),
            c2,
            squares_left(m).1,
        ) ==> c1 == c2,
{
    let b2 = b.apply(m);
    let v = squares_left(m).0;
    let w = squares_left(m).1;
    lemma_playable_after(b, m);
    if checks_over(b2, c1, v) && checks_over(b2, c2, v) {
        lemma_one_over(b2, c1, c2, v);
    }
    if checks_over(b2, c1, w) && checks_over(b2, c2, w) {
        lemma_one_over(b2, c1, c2, w);
    }
}

/// A legal move leads from a position of a game to a position of a game:
/// the moves can be generated again.
pub proof fn lemma_legal_position_after(b: Board, m: Move)
    requires
        legal_position(b),
        legal(b, m),
    ensures
        legal_position(b.apply(m)),
{
    lemma_playable_after(b, m);
    lemma_double_step_after(b, m);
    lemma_two_checks_after(b, m);
}

/// Whether `b` is the position at the start of a game, as
/// `Board::from_initial_position` gives it.
pub open spec fn starts_game(b: Board) -> bool {
    &&& b.piece_of_color[0].0 == 0x0000_0000_0000_FFFF
    &&& b.piece_of_color[1].0 == 0xFFFF_0000_0000_0000
    &&& b.piece_of_type[0].0 == 0x00FF_0000_0000_FF00
    &&& b.piece_of_type[1].0 == 0x4200_0000_0000_0042
    &&& b.piece_of_type[2].0 == 0x2400_0000_0000_0024
    &&& b.piece_of_type[3].0 == 0x8100_0000_0000_0081
    &&& b.piece_of_type[4].0 == 0x0800_0000_0000_0008
    &&& b.king_pos[0] == Square(4)
    &&& b.king_pos[1] == Square(60)
    &&& b.en_passant is None
    &&& b.can_castle_king_side == [true, true]
    &&& b.can_castle_queen_side == [true, true]
    &&& b.side_to_play == Color::WHITE
    &&& b.consistent()
}

/// At the start of a game no piece of the side `by` attacks the king of
/// the other side.
proof fn lemma_start_is_quiet(b: Board, by: Color)
    requires
        starts_game(b),
    ensures
        !b.attacked(by, b.king_sq(by.opposite()), b.occupancy()),
{
    lemma_initial_bits();
    let k = b.king_sq(by.opposite());
    let occ = b.occupancy();
    assert forall|s: Square| s.valid() implies !#[trigger] b.piece_attacks(by, s, k, occ) by {
        lemma_attack_is_clear_way(s, k, occ);
    }
}

/// The position at the start of a game is a position of a game.
pub proof fn lemma_start_is_legal(b: Board)
    requires
        starts_game(b),
    ensures
        legal_position(b),
{
    lemma_initial_bits();
    lemma_start_is_quiet(b, Color::WHITE);
    lemma_start_is_quiet(b, Color::BLACK);
    lemma_attacked_view(b, Color::BLACK, our_king(b), b.occupancy());
    assert(b.pawns_in_place());
    assert(b.castling_consistent());
}

/// The position to which the moves of `moves`, played in turn, lead from
/// the position `start`.
pub open spec fn played(start: Board, moves: Seq<Move>) -> Board
    decreases moves.len(),
{
    if moves.len() == 0 {
        start
    } else {
        played(start, moves.drop_last()).apply(moves.last())
    }
}

/// Whether each of the moves of `moves`, played in turn from `start`, is
/// legal in the position in which it is played.
pub open spec fn is_game(start: Board, moves: Seq<Move>) -> bool
    decreases moves.len(),
{
    moves.len() == 0 || (is_game(start, moves.drop_last()) && legal(
        played(start, moves.drop_last()),
        moves.last(),
    ))
}

/// Every position of a game that starts from a position of a game is a
/// position of a game: its moves can be generated, and they are its legal
/// moves.
pub proof fn lemma_game_stays_legal(start: Board, moves: Seq<Move>)
    requires
        legal_position(start),
        is_game(start, moves),
    ensures
        legal_position(played(start, moves)),
    decreases moves.len(),
{
    if moves.len() > 0 {
        lemma_game_stays_legal(start, moves.drop_last());
        lemma_legal_position_after(played(start, moves.drop_last()), moves.last());
    }
}

/// The fingerprint of `start` carried along the moves of `moves`: each
/// move makes the next fingerprint of the one before and the position in
/// which it is played.
pub open spec fn carried(t: ZobristTable, start: Board, moves: Seq<Move>) -> u64
    decreases moves.len(),
{
    if moves.len() == 0 {
        spec_hash(t, start)
    } else {
        spec_hash_update(
            t,
            played(start, moves.drop_last()),
            carried(t, start, moves.drop_last()),
            moves.last(),
        )
    }
}

/// The fingerprint carried over a legal move from a position of a game is
/// the fingerprint of the position that the move leads to.
pub proof fn lemma_fingerprint_of_legal_move(t: ZobristTable, b: Board, m: Move)
    requires
        t.wf(),
        legal_position(b),
        legal(b, m),
    ensures
        spec_hash_update(t, b, spec_hash(t, b), m) == spec_hash(t, b.apply(m)),
{
    lemma_hash_update(t, b, m);
}

/// The fingerprint carried along a game from its first position is the
/// fingerprint of the position that the game has come to.
pub proof fn lemma_fingerprint_of_game(t: ZobristTable, start: Board, moves: Seq<Move>)
    requires
        t.wf(),
        legal_position(start),
        is_game(start, moves),
    ensures
        carried(t, start, moves) == spec_hash(t, played(start, moves)),
    decreases moves.len(),
{
    if moves.len() > 0 {
        let before = moves.drop_last();
        lemma_fingerprint_of_game(t, start, before);
        lemma_game_stays_legal(start, before);
        lemma_fingerprint_of_legal_move(t, played(start, before), moves.last());
    }
}

} // verus!
