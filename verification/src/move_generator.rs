//! The legal moves of a position. One pass finds the pieces that give
//! check and the pieces that are pinned to the king; then the moves of
//! the king are generated, and, unless two pieces give check, the moves of
//! the other pieces, held to the line of a pin and, in check, to the
//! squares that end the check.
use vstd::prelude::*;
use crate::bitboard::BitBoard;
use crate::bitboard_attacks::king_attacks;
use crate::bitboard_attacks::king_has;
use crate::bitboard_attacks::knight_attacks;
use crate::bitboard_attacks::knight_has;
use crate::bitboard_attacks::pawn_attacks;
use crate::bitboard_attacks::pawn_has;
use crate::bitboard_constants::BB_B1;
use crate::bitboard_constants::BB_B8;
use crate::bitboard_constants::BB_C1;
use crate::bitboard_constants::BB_C8;
use crate::bitboard_constants::BB_D1;
use crate::bitboard_constants::BB_D8;
use crate::bitboard_constants::BB_F1;
use crate::bitboard_constants::BB_F8;
use crate::bitboard_constants::BB_G1;
use crate::bitboard_constants::BB_G8;
use crate::bitboard_constants::FILE_A_I;
use crate::bitboard_constants::FILE_H_I;
use crate::bitboard_constants::RANK_1;
use crate::bitboard_constants::RANK_2;
use crate::bitboard_constants::RANK_7;
use crate::bitboard_constants::RANK_8;
use crate::bits::bit;
use crate::bits::lemma_bit_ops;
use crate::bits::lemma_single_bit;
use crate::board::square_bit;
use crate::board::Board;
use crate::bits::lemma_byte_ops;
use crate::bits::lemma_edge_masks;
use crate::bits::lemma_nonzero_bit;
use crate::bits::lemma_pop_smaller;
use crate::bits::lemma_rank_file_masks;
use crate::bits::lemma_castle_path_bits;
use crate::bitboard_constants::between;
use crate::bitboard_constants::line_has;
use crate::bits::count_bits;
use crate::bits::lemma_bits_equal;
use crate::bits::lemma_count_small;
use crate::bits::lemma_pop_lowest;
use crate::board_laws::castling_of;
use crate::completeness::blocks_all;
use crate::completeness::legal;
use crate::completeness::lemma_check_remains;
use crate::completeness::lemma_double_check;
use crate::completeness::lemma_knight_leaves_line;
use crate::completeness::lemma_legal_castling;
use crate::completeness::lemma_pin_holds;
use crate::completeness::lemma_safe_king_move;
use crate::completeness::pawn_way;
use crate::completeness::pseudo_legal;
use crate::completeness::relocates;
use crate::completeness::pins_only;
use crate::legality::aims_at_king;
use crate::legality::attacked_without_king;
use crate::legality::attacks_from;
use crate::legality::bishop_aligned;
use crate::legality::blocks_only;
use crate::legality::checkers_exact;
use crate::legality::double_step_to;
use crate::legality::gives_check;
use crate::legality::leaves_king_safe;
use crate::legality::legal_position;
use crate::legality::lemma_attack_is_clear_way;
use crate::legality::lemma_castling_legal;
use crate::legality::lemma_en_passant_legal;
use crate::legality::lemma_king_move_legal;
use crate::legality::lemma_line_of_three;
use crate::legality::lemma_occupant;
use crate::legality::lemma_relocation_legal;
use crate::legality::our_king;
use crate::legality::pins_found;
use crate::legality::pins_found_of;
use crate::legality::shape;
use crate::legality::slider_on;
use crate::legality::sole_blocker_of;
use crate::magic_bitboard::bishop_ray_has;
use crate::magic_bitboard::lemma_slider_symmetric;
use crate::magic_bitboard::slider_has;
use crate::magic_bitboard::rook_ray_has;
use crate::magic_bitboard::MagicTables;
use crate::move_list::distinct_from;
use crate::move_list::lemma_distinct_all;
use crate::move_list::lemma_distinct_join;
use crate::move_list::lemma_distinct_none;
use crate::move_list::lemma_distinct_push;
use crate::moves::Move;
use crate::pieces::Color;
use crate::pieces::Piece;
use crate::pieces::LEFT;
use crate::pieces::RIGHT;
use crate::square::Square;
use crate::square_constants::SQ_C1;
use crate::square_constants::SQ_C8;
use crate::square_constants::SQ_D1;
use crate::square_constants::SQ_D8;
use crate::square_constants::SQ_F1;
use crate::square_constants::SQ_F8;
use crate::square_constants::SQ_G1;
use crate::square_constants::SQ_G8;

verus! {

/// The state of one generation of moves.
pub struct MoveGenerator<'a> {
    pub board: &'a Board,
    pub tables: &'a MagicTables,
    /// The moves found so far.
    pub moves: Vec<Move>,
    /// The pieces that give check.
    pub checkers: BitBoard,
    /// The squares on which no piece of the side to move stands.
    pub our_piece_i: BitBoard,
    pub enemy_piece: BitBoard,
    pub any_piece: BitBoard,
    /// The squares between the king and the sliders that give check.
    pub block_mask: BitBoard,
    pub king: BitBoard,
    pub king_sq: Square,
    pub other_king: BitBoard,
    /// The pieces that alone stand between the king and a slider of the
    /// other side.
    pub pinned: BitBoard,
    /// The rooks and queens of the other side.
    pub rook_queen: BitBoard,
    /// The bishops and queens of the other side.
    pub bishop_queen: BitBoard,
    pub us: Color,
    /// Whether the king is in check from one piece.
    pub evasive: bool,
}

impl<'a> MoveGenerator<'a> {
    /// Whether the generator is set up for its board: the sets and squares
    /// that it keeps are those of the board, and the tables are in order.
    pub open spec fn set_up(&self) -> bool {
        let b = *self.board;
        let us = b.side_to_play;
        let them = us.opposite();
        &&& b.wf()
        &&& b.pawns_in_place()
        &&& self.tables.wf()
        &&& self.us == us
        &&& self.king_sq == b.king_sq(us)
        &&& self.king.0 == square_bit(b.king_sq(us))
        &&& self.other_king.0 == square_bit(b.king_sq(them))
        &&& self.our_piece_i.0 == !b.color_bits(us)
        &&& self.enemy_piece.0 == b.color_bits(them)
        &&& self.any_piece.0 == b.occupancy()
        &&& self.rook_queen.0 == b.color_bits(them) & (b.type_bits(Piece::ROOK) | b.type_bits(
            Piece::QUEEN,
        ))
        &&& self.bishop_queen.0 == b.color_bits(them) & (b.type_bits(Piece::BISHOP) | b.type_bits(
            Piece::QUEEN,
        ))
    }

    /// Whether two states of a generator differ at most in the moves found
    /// and in what the scan of the board fills in.
    pub open spec fn same_setup(&self, other: &MoveGenerator<'a>) -> bool {
        &&& self.board == other.board
        &&& self.tables == other.tables
        &&& self.our_piece_i == other.our_piece_i
        &&& self.enemy_piece == other.enemy_piece
        &&& self.any_piece == other.any_piece
        &&& self.king == other.king
        &&& self.king_sq == other.king_sq
        &&& self.other_king == other.other_king
        &&& self.rook_queen == other.rook_queen
        &&& self.bishop_queen == other.bishop_queen
        &&& self.us == other.us
    }

    /// A generator for the side to move on `board`.
    pub fn new(board: &'a Board, tables: &'a MagicTables) -> (res: MoveGenerator<'a>)
        requires
            board.wf(),
            board.pawns_in_place(),
            tables.wf(),
        ensures
            res.set_up(),
            res.board == board,
            res.tables == tables,
            res.moves@.len() == 0,
            res.checkers.0 == 0,
            res.block_mask.0 == 0,
            res.pinned.0 == 0,
            !res.evasive,
    {
        let us = board.side_to_play;
        let them = us.opposite();
        let our_piece = board.piece_of_color(us);
        let enemy_piece = board.piece_of_color(them);
        let rooks = board.piece_of_type(Piece::ROOK).0;
        let bishops = board.piece_of_type(Piece::BISHOP).0;
        let queens = board.piece_of_type(Piece::QUEEN).0;
        MoveGenerator {
            board,
            tables,
            moves: Vec::with_capacity(220),
            checkers: BitBoard(0),
            our_piece_i: BitBoard(!our_piece.0),
            enemy_piece,
            any_piece: BitBoard(board.piece_of_color[0].0 | board.piece_of_color[1].0),
            block_mask: BitBoard(0),
            king: BitBoard::from_square(board.king_pos[us.slot()]),
            king_sq: board.king_pos[us.slot()],
            other_king: BitBoard::from_square(board.king_pos[them.slot()]),
            pinned: BitBoard(0),
            rook_queen: BitBoard(enemy_piece.0 & (rooks | queens)),
            bishop_queen: BitBoard(enemy_piece.0 & (bishops | queens)),
            us,
            evasive: false,
        }
    }

    /// The line through two squares, from the table.
    fn line(&self, a: Square, b: Square) -> (res: BitBoard)
        requires
            self.tables.wf(),
            a.valid(),
            b.valid(),
        ensures
            res == self.tables.lines@[a.idx()]@[b.idx()],
            forall|s: Square| s.valid() ==> #[trigger] res.has(s) == line_has(a, b, s),
    {
        self.tables.lines[a.0 as usize][b.0 as usize]
    }

    /// The squares between two squares, from the table.
    fn segment(&self, a: Square, b: Square) -> (res: BitBoard)
        requires
            self.tables.wf(),
            a.valid(),
            b.valid(),
        ensures
            res == self.tables.line_segments@[a.idx()]@[b.idx()],
            forall|s: Square| s.valid() ==> #[trigger] res.has(s) == between(a, b, s),
    {
        self.tables.line_segments[a.0 as usize][b.0 as usize]
    }

    /// Whether the generator stands on a position that a game can reach,
    /// with tables that give the true attacks.
    pub open spec fn grounded(&self) -> bool {
        &&& self.set_up()
        &&& legal_position(*self.board)
        &&& self.tables.faithful()
    }

    /// Whether `word` holds the squares of the sliders of the other side, of
    /// the kind that `diagonal` names, that give check.
    pub open spec fn line_checkers(&self, word: u64, diagonal: bool) -> bool {
        let b = *self.board;
        forall|s: Square|
            s.valid() ==> #[trigger] bit(word, s.0 as u64) == (aims_at_king(b, s, diagonal)
                && gives_check(b, s))
    }

    /// What each square adds to the checkers: a knight or a pawn that
    /// attacks the king, or a slider with a clear way to it.
    proof fn lemma_checkers(&self, s: Square, by_knight: u64, by_pawn: u64, by_king: u64, by_rook: u64, by_bishop: u64)
        requires
            self.grounded(),
            s.valid(),
            forall|i: u64| i < 64 ==> #[trigger] bit(by_knight, i) == (knight_has(self.king_sq.idx(), i as int) && bit(self.enemy_piece.0, i) && bit(self.board.piece_of_type[1].0, i)),
            forall|i: u64| i < 64 ==> #[trigger] bit(by_pawn, i) == (pawn_has(self.us, self.king_sq.idx(), i as int) && bit(self.enemy_piece.0, i) && bit(self.board.piece_of_type[0].0, i)),
            forall|i: u64| i < 64 ==> #[trigger] bit(by_king, i) == (king_has(self.king_sq.idx(), i as int) && i == self.board.king_sq(self.us.opposite()).0),
            forall|i: u64| i < 64 ==> #[trigger] bit(by_rook, i) == (rook_ray_has(self.king_sq.idx(), self.any_piece.0, i as int) && bit(self.rook_queen.0, i)),
            forall|i: u64| i < 64 ==> #[trigger] bit(by_bishop, i) == (bishop_ray_has(self.king_sq.idx(), self.any_piece.0, i as int) && bit(self.bishop_queen.0, i)),
        ensures
            (bit(by_knight, s.0 as u64) || bit(by_pawn, s.0 as u64) || bit(by_king, s.0 as u64) || bit(by_rook, s.0 as u64) || bit(by_bishop, s.0 as u64)) == gives_check(*self.board, s),
            bit(by_rook, s.0 as u64) == (aims_at_king(*self.board, s, false) && gives_check(*self.board, s)),
            bit(by_bishop, s.0 as u64) == (aims_at_king(*self.board, s, true) && gives_check(*self.board, s)),
    {
        let b = *self.board;
        let k = self.king_sq;
        let them = self.us.opposite();
        lemma_bit_ops();
        lemma_occupant(b, s);
        lemma_occupant(b, k);
        lemma_occupant(b, b.king_sq(them));
        lemma_slider_symmetric(false, k.idx(), s.idx(), self.any_piece.0);
        lemma_slider_symmetric(true, k.idx(), s.idx(), self.any_piece.0);
        lemma_attack_is_clear_way(s, k, self.any_piece.0);
        lemma_attack_is_clear_way(k, s, self.any_piece.0);
        assert(!king_has(k.idx(), b.king_sq(them).idx())) by {
            if king_has(k.idx(), b.king_sq(them).idx()) {
                assert(b.attacked(self.us, b.king_sq(them), b.occupancy()));
            }
        }
        assert(b.has_type(Piece::KNIGHT, s) == bit(b.piece_of_type[1].0, s.0 as u64));
        assert(b.has_type(Piece::PAWN, s) == bit(b.piece_of_type[0].0, s.0 as u64));
        assert(b.has_type(Piece::BISHOP, s) == bit(b.piece_of_type[2].0, s.0 as u64));
        assert(b.has_type(Piece::ROOK, s) == bit(b.piece_of_type[3].0, s.0 as u64));
        assert(b.has_type(Piece::QUEEN, s) == bit(b.piece_of_type[4].0, s.0 as u64));
        assert(b.has_color(them, s) == bit(self.enemy_piece.0, s.0 as u64));
    }

    /// Finds the pieces that give check; returns the rooks and queens and
    /// the bishops and queens among them.
    fn update_checkers(&mut self) -> (res: (BitBoard, BitBoard))
        requires
            old(self).grounded(),
            old(self).checkers.0 == 0,
        ensures
            final(self).grounded(),
            final(self).same_setup(old(self)),
            final(self).moves == old(self).moves,
            final(self).evasive == old(self).evasive,
            final(self).block_mask == old(self).block_mask,
            final(self).pinned == old(self).pinned,
            checkers_exact(*final(self).board, final(self).checkers.0),
            final(self).line_checkers(res.0.0, false),
            final(self).line_checkers(res.1.0, true),
    {
        let b = self.board;
        let us = b.side_to_play;
        let enemy_piece = self.enemy_piece.0;
        let king_sq = self.king_sq;
        let by_knight = knight_attacks(king_sq).0 & enemy_piece & b.piece_of_type[1].0;
        let by_pawn = pawn_attacks(us, king_sq).0 & enemy_piece & b.piece_of_type[0].0;
        let by_king = king_attacks(king_sq).0 & self.other_king.0;
        let rook_checkers = self.tables.rook_table.attacks(king_sq, self.any_piece).0
            & self.rook_queen.0;
        let bishop_checkers = self.tables.bishop_table.attacks(king_sq, self.any_piece).0
            & self.bishop_queen.0;
        let checkers = self.checkers.0 | by_knight | by_pawn | by_king | rook_checkers
            | bishop_checkers;
        proof {
            lemma_bit_ops();
            assert forall|s: Square| s.valid() implies #[trigger] bit(checkers, s.0 as u64)
                == gives_check(*self.board, s) by {
                self.lemma_checkers(s, by_knight, by_pawn, by_king, rook_checkers, bishop_checkers);
            }
            assert forall|s: Square| s.valid() implies #[trigger] bit(rook_checkers, s.0 as u64) == (
            aims_at_king(*self.board, s, false) && gives_check(*self.board, s)) by {
                self.lemma_checkers(s, by_knight, by_pawn, by_king, rook_checkers, bishop_checkers);
            }
            assert forall|s: Square| s.valid() implies #[trigger] bit(bishop_checkers, s.0 as u64)
                == (aims_at_king(*self.board, s, true) && gives_check(*self.board, s)) by {
                self.lemma_checkers(s, by_knight, by_pawn, by_king, rook_checkers, bishop_checkers);
            }
        }
        self.checkers = BitBoard(checkers);
        (BitBoard(rook_checkers), BitBoard(bishop_checkers))
    }

    /// Whether `block` holds every square between the king and a slider
    /// of the kind that `diagonal` names that gives check.
    pub open spec fn blocks_all_of(&self, block: u64, diagonal: bool) -> bool {
        let b = *self.board;
        forall|c: Square, d: Square|
            c.valid() && d.valid() && aims_at_king(b, c, diagonal) && gives_check(b, c)
                && #[trigger] between(our_king(b), c, d) ==> bit(block, d.0 as u64)
    }

    /// Adds to the block mask the squares between the king and each of
    /// `checkers`.
    fn update_block_mask(&mut self, checkers: BitBoard, diagonal: Ghost<bool>)
        requires
            old(self).grounded(),
            old(self).line_checkers(checkers.0, diagonal@),
            blocks_only(*old(self).board, old(self).block_mask.0),
        ensures
            final(self).grounded(),
            final(self).same_setup(old(self)),
            final(self).moves == old(self).moves,
            final(self).evasive == old(self).evasive,
            final(self).checkers == old(self).checkers,
            final(self).pinned == old(self).pinned,
            blocks_only(*final(self).board, final(self).block_mask.0),
            final(self).blocks_all_of(final(self).block_mask.0, diagonal@),
            forall|i: u64|
                i < 64 && bit(old(self).block_mask.0, i) ==> #[trigger] bit(
                    final(self).block_mask.0,
                    i,
                ),
    {
        let mut remaining = checkers;
        while !remaining.empty()
            invariant
                self.grounded(),
                self.same_setup(old(self)),
                self.moves == old(self).moves,
                self.evasive == old(self).evasive,
                self.checkers == old(self).checkers,
                self.pinned == old(self).pinned,
                self.line_checkers(checkers.0, diagonal@),
                forall|i: u64| i < 64 && #[trigger] bit(remaining.0, i) ==> bit(checkers.0, i),
                blocks_only(*self.board, self.block_mask.0),
                forall|c: Square, d: Square|
                    c.valid() && d.valid() && bit(checkers.0, c.0 as u64) && !bit(
                        remaining.0,
                        c.0 as u64,
                    ) && #[trigger] between(our_king(*self.board), c, d) ==> bit(
                        self.block_mask.0,
                        d.0 as u64,
                    ),
                forall|i: u64|
                    i < 64 && bit(old(self).block_mask.0, i) ==> #[trigger] bit(
                        self.block_mask.0,
                        i,
                    ),
            decreases remaining.0,
        {
            let ghost before = remaining.0;
            let ghost block = self.block_mask.0;
            let sq = remaining.pop_lsb();
            proof {
                lemma_pop_smaller(before);
                assert(bit(before, sq.0 as u64));
            }
            let between_them = self.segment(self.king_sq, sq);
            self.block_mask = BitBoard(self.block_mask.0 | between_them.0);
            proof {
                lemma_bit_ops();
                let b = *self.board;
                lemma_occupant(b, sq);
                assert forall|d: Square| d.valid() && #[trigger] bit(
                    self.block_mask.0,
                    d.0 as u64,
                ) implies exists|c: Square|
                    c.valid() && slider_on(b, c) && attacks_from(
                        b,
                        b.side_to_play.opposite(),
                        c,
                        our_king(b),
                        b.occupancy(),
                    ) && #[trigger] between(our_king(b), c, d) by {
                    if bit(block, d.0 as u64) {
                        let c = choose|c: Square|
                            c.valid() && slider_on(b, c) && attacks_from(
                                b,
                                b.side_to_play.opposite(),
                                c,
                                our_king(b),
                                b.occupancy(),
                            ) && #[trigger] between(our_king(b), c, d);
                        assert(between(our_king(b), c, d));
                    } else {
                        assert(between_them.has(d));
                        assert(between(our_king(b), sq, d));
                        assert(aims_at_king(b, sq, diagonal@) && gives_check(b, sq));
                    }
                }
                assert forall|c: Square, d: Square|
                    c.valid() && d.valid() && bit(checkers.0, c.0 as u64) && !bit(
                        remaining.0,
                        c.0 as u64,
                    ) && #[trigger] between(our_king(b), c, d) implies bit(
                    self.block_mask.0,
                    d.0 as u64,
                ) by {
                    if c == sq {
                        assert(between_them.has(d));
                    } else {
                        assert(bit(before, c.0 as u64) == bit(remaining.0, c.0 as u64));
                        assert(bit(block, d.0 as u64));
                    }
                }
            }
        }
        proof {
            lemma_bit_ops();
        }
    }

    /// A path of one square between the king and a slider that is aimed at
    /// it holds a square that alone shields the king.
    proof fn lemma_pin_is_real(&self, x: Square, ray: u64, way: BitBoard, path: u64, diagonal: bool)
        requires
            self.grounded(),
            x.valid(),
            forall|i: u64|
                i < 64 ==> #[trigger] bit(ray, i) == slider_has(
                    diagonal,
                    self.king_sq.idx(),
                    0,
                    i as int,
                ),
            bit(
                self.enemy_piece.0 & (if diagonal {
                    self.bishop_queen
                } else {
                    self.rook_queen
                }).0 & ray,
                x.0 as u64,
            ),
            forall|s: Square| s.valid() ==> #[trigger] way.has(s) == between(self.king_sq, x, s),
            path == ray & way.0 & self.any_piece.0,
            count_bits(path, 64) == 1,
        ensures
            forall|t: Square|
                t.valid() && #[trigger] bit(path, t.0 as u64) ==> sole_blocker_of(
                    *self.board,
                    x,
                    t,
                    diagonal,
                ),
    {
        let b = *self.board;
        let k = self.king_sq;
        lemma_bit_ops();
        lemma_count_small(path);
        lemma_pop_lowest(path);
        lemma_occupant(b, x);
        lemma_attack_is_clear_way(k, x, 0);
        assert(b.has_type(Piece::BISHOP, x) == bit(b.piece_of_type[2].0, x.0 as u64));
        assert(b.has_type(Piece::ROOK, x) == bit(b.piece_of_type[3].0, x.0 as u64));
        assert(b.has_type(Piece::QUEEN, x) == bit(b.piece_of_type[4].0, x.0 as u64));
        assert(aims_at_king(b, x, diagonal));
        assert forall|t: Square| t.valid() && #[trigger] bit(path, t.0 as u64) implies sole_blocker_of(
            b,
            x,
            t,
            diagonal,
        ) by {
            assert(way.has(t));
            assert forall|u: Square| u.valid() && u != t && #[trigger] between(
                k,
                x,
                u,
            ) implies !bit(b.occupancy(), u.0 as u64) by {
                lemma_attack_is_clear_way(k, u, 0);
                assert(way.has(u));
                assert(bit(ray, u.0 as u64));
                if bit(b.occupancy(), u.0 as u64) {
                    assert(bit(path, u.0 as u64));
                    assert(!bit(path & ((path - 1) as u64), u.0 as u64));
                    assert(!bit(path & ((path - 1) as u64), t.0 as u64));
                }
            }
        }
    }

    /// Marks as pinned each piece that alone stands between the king and
    /// one of `attackers` on `ray`, the squares that a slider on the
    /// king's square attacks on an empty board.
    fn update_pins(&mut self, ray: BitBoard, attackers: BitBoard, diagonal: Ghost<bool>)
        requires
            old(self).grounded(),
            forall|i: u64|
                i < 64 ==> #[trigger] bit(ray.0, i) == slider_has(
                    diagonal@,
                    old(self).king_sq.idx(),
                    0,
                    i as int,
                ),
            attackers == (if diagonal@ {
                old(self).bishop_queen
            } else {
                old(self).rook_queen
            }),
            pins_only(*old(self).board, old(self).pinned.0),
        ensures
            final(self).grounded(),
            final(self).same_setup(old(self)),
            final(self).moves == old(self).moves,
            final(self).evasive == old(self).evasive,
            final(self).checkers == old(self).checkers,
            final(self).block_mask == old(self).block_mask,
            pins_found_of(*final(self).board, final(self).pinned.0, diagonal@),
            pins_only(*final(self).board, final(self).pinned.0),
            forall|i: u64|
                i < 64 && bit(old(self).pinned.0, i) ==> #[trigger] bit(final(self).pinned.0, i),
    {
        let start = BitBoard(self.enemy_piece.0 & attackers.0 & ray.0);
        let mut remaining = start;
        proof {
            lemma_bit_ops();
        }
        while !remaining.empty()
            invariant
                self.grounded(),
                self.same_setup(old(self)),
                self.moves == old(self).moves,
                self.evasive == old(self).evasive,
                self.checkers == old(self).checkers,
                self.block_mask == old(self).block_mask,
                start.0 == self.enemy_piece.0 & attackers.0 & ray.0,
                forall|i: u64|
                    i < 64 ==> #[trigger] bit(ray.0, i) == slider_has(
                        diagonal@,
                        self.king_sq.idx(),
                        0,
                        i as int,
                    ),
                forall|i: u64| i < 64 && #[trigger] bit(remaining.0, i) ==> bit(start.0, i),
                forall|x: Square, t: Square|
                    x.valid() && t.valid() && bit(start.0, x.0 as u64) && !bit(
                        remaining.0,
                        x.0 as u64,
                    ) && #[trigger] sole_blocker_of(*self.board, x, t, diagonal@) ==> bit(
                        self.pinned.0,
                        t.0 as u64,
                    ),
                forall|i: u64|
                    i < 64 && bit(old(self).pinned.0, i) ==> #[trigger] bit(self.pinned.0, i),
                pins_only(*self.board, self.pinned.0),
                attackers == (if diagonal@ {
                    self.bishop_queen
                } else {
                    self.rook_queen
                }),
            decreases remaining.0,
        {
            let ghost before = remaining.0;
            let ghost pinned_before = self.pinned.0;
            let square = remaining.pop_lsb();
            proof {
                lemma_pop_smaller(before);
                assert(bit(before, square.0 as u64));
            }
            let way = self.segment(self.king_sq, square);
            let path = BitBoard(ray.0 & way.0 & self.any_piece.0);
            let found = path.num_squares() == 1;
            if found {
                self.pinned = BitBoard(self.pinned.0 | path.0);
            }
            proof {
                lemma_bit_ops();
                let b = *self.board;
                let k = self.king_sq;
                assert forall|t: Square| t.valid() && #[trigger] sole_blocker_of(
                    b,
                    square,
                    t,
                    diagonal@,
                ) implies bit(self.pinned.0, t.0 as u64) by {
                    assert forall|i: u64| i < 64 implies bit(path.0, i) == bit(1u64 << t.0, i) by {
                        let u = Square(i as u8);
                        lemma_attack_is_clear_way(k, u, 0);
                        assert(way.has(u) == between(k, square, u));
                        if between(k, square, u) {
                            assert(bit(ray.0, i));
                        }
                    }
                    lemma_bits_equal(path.0, 1u64 << t.0);
                    crate::bits::lemma_single_count(t.0 as u64);
                    assert(found);
                }
                if found {
                    self.lemma_pin_is_real(square, ray.0, way, path.0, diagonal@);
                    assert forall|t: Square| t.valid() && #[trigger] bit(
                        self.pinned.0,
                        t.0 as u64,
                    ) implies exists|x: Square, kind: bool|
                        x.valid() && #[trigger] sole_blocker_of(b, x, t, kind) by {
                        if bit(pinned_before, t.0 as u64) {
                            let (x, kind) = choose|x: Square, kind: bool|
                                x.valid() && #[trigger] sole_blocker_of(b, x, t, kind);
                            assert(sole_blocker_of(b, x, t, kind));
                        } else {
                            assert(bit(path.0, t.0 as u64));
                            assert(sole_blocker_of(b, square, t, diagonal@));
                        }
                    }
                }
            }
        }
        proof {
            lemma_bit_ops();
            let b = *self.board;
            assert forall|x: Square, t: Square|
                x.valid() && t.valid() && #[trigger] sole_blocker_of(b, x, t, diagonal@) implies bit(
                self.pinned.0,
                t.0 as u64,
            ) by {
                lemma_occupant(b, x);
                lemma_attack_is_clear_way(self.king_sq, x, 0);
                assert(b.has_type(Piece::BISHOP, x) == bit(b.piece_of_type[2].0, x.0 as u64));
                assert(b.has_type(Piece::ROOK, x) == bit(b.piece_of_type[3].0, x.0 as u64));
                assert(b.has_type(Piece::QUEEN, x) == bit(b.piece_of_type[4].0, x.0 as u64));
                assert(bit(start.0, x.0 as u64));
            }
        }
    }

    /// Whether the scan of the board has found the checkers, the squares
    /// that block them, and the pins.
    pub open spec fn scanned(&self) -> bool {
        let b = *self.board;
        &&& checkers_exact(b, self.checkers.0)
        &&& blocks_only(b, self.block_mask.0)
        &&& blocks_all(b, self.block_mask.0)
        &&& pins_found(b, self.pinned.0)
        &&& pins_only(b, self.pinned.0)
    }

    /// Finds the checkers, the squares that block them, and the pins.
    fn scan_board(&mut self)
        requires
            old(self).grounded(),
            old(self).checkers.0 == 0,
            old(self).block_mask.0 == 0,
            old(self).pinned.0 == 0,
        ensures
            final(self).grounded(),
            final(self).scanned(),
            final(self).same_setup(old(self)),
            final(self).moves == old(self).moves,
            final(self).evasive == old(self).evasive,
    {
        proof {
            lemma_bit_ops();
        }
        let (rook_checkers, bishop_checkers) = self.update_checkers();
        self.update_block_mask(rook_checkers, Ghost(false));
        let ghost rook_blocks = self.block_mask.0;
        self.update_block_mask(bishop_checkers, Ghost(true));
        proof {
            let b = *self.board;
            assert forall|c: Square, d: Square|
                c.valid() && d.valid() && slider_on(b, c) && gives_check(b, c)
                    && #[trigger] between(our_king(b), c, d) implies bit(
                self.block_mask.0,
                d.0 as u64,
            ) by {
                lemma_attack_is_clear_way(c, our_king(b), b.occupancy());
                lemma_attack_is_clear_way(our_king(b), c, b.occupancy());
                assert(crate::legality::rook_aligned(c, our_king(b))
                    == crate::legality::rook_aligned(our_king(b), c));
                assert(crate::legality::bishop_aligned(c, our_king(b))
                    == crate::legality::bishop_aligned(our_king(b), c));
                if aims_at_king(b, c, false) {
                    assert(bit(rook_blocks, d.0 as u64));
                } else {
                    assert(aims_at_king(b, c, true));
                }
            }
        }
        let rook_ray = self.tables.rook_table.attacks_empty(self.king_sq);
        let rook_queen = self.rook_queen;
        self.update_pins(rook_ray, rook_queen, Ghost(false));
        let bishop_ray = self.tables.bishop_table.attacks_empty(self.king_sq);
        let bishop_queen = self.bishop_queen;
        proof {
            assert(pins_found_of(*self.board, self.pinned.0, false));
        }
        let ghost rook_pins = self.pinned.0;
        self.update_pins(bishop_ray, bishop_queen, Ghost(true));
        proof {
            assert forall|x: Square, t: Square|
                x.valid() && t.valid() && #[trigger] sole_blocker_of(
                    *self.board,
                    x,
                    t,
                    false,
                ) implies bit(self.pinned.0, t.0 as u64) by {
                assert(bit(rook_pins, t.0 as u64));
            }
        }
    }

    /// Whether a piece of the other side attacks `sq` once the king has
    /// left its square.
    fn square_attacked(&self, sq: Square) -> (res: bool)
        requires
            self.grounded(),
            sq.valid(),
        ensures
            res == attacked_without_king(*self.board, sq),
    {
        let enemy = self.enemy_piece.0;
        let occupancy = BitBoard(self.any_piece.0 ^ self.king.0);
        let by_knight = knight_attacks(sq).0 & (enemy & self.board.piece_of_type[1].0);
        let by_pawn = pawn_attacks(self.us, sq).0 & (enemy & self.board.piece_of_type[0].0);
        let by_king = king_attacks(sq).0 & self.other_king.0;
        proof {
            let b = *self.board;
            let them = self.us.opposite();
            let occ = occupancy.0;
            let by_rook = self.tables.rook_table.lookup(sq.idx(), occ).0 & self.rook_queen.0;
            let by_bishop = self.tables.bishop_table.lookup(sq.idx(), occ).0 & self.bishop_queen.0;
            lemma_bit_ops();
            lemma_single_bit();
            lemma_nonzero_bit(by_knight);
            lemma_nonzero_bit(by_pawn);
            lemma_nonzero_bit(by_king);
            lemma_nonzero_bit(by_rook);
            lemma_nonzero_bit(by_bishop);
            assert(occ == b.occupancy() ^ square_bit(our_king(b)));
            assert forall|s: Square| s.valid() implies #[trigger] attacks_from(b, them, s, sq, occ)
                == (bit(by_knight, s.0 as u64) || bit(by_pawn, s.0 as u64) || bit(
                by_king,
                s.0 as u64,
            ) || bit(by_rook, s.0 as u64) || bit(by_bishop, s.0 as u64)) by {
                lemma_occupant(b, s);
                assert(bit(self.tables.rook_table.lookup(sq.idx(), occ).0, s.0 as u64)
                    == rook_ray_has(sq.idx(), occ, s.idx()));
                assert(bit(self.tables.bishop_table.lookup(sq.idx(), occ).0, s.0 as u64)
                    == bishop_ray_has(sq.idx(), occ, s.idx()));
                assert(b.has_color(them, s) == bit(self.enemy_piece.0, s.0 as u64));
                lemma_slider_symmetric(false, sq.idx(), s.idx(), occ);
                lemma_slider_symmetric(true, sq.idx(), s.idx(), occ);
                assert(b.has_type(Piece::KNIGHT, s) == bit(b.piece_of_type[1].0, s.0 as u64));
                assert(b.has_type(Piece::PAWN, s) == bit(b.piece_of_type[0].0, s.0 as u64));
                assert(b.has_type(Piece::BISHOP, s) == bit(b.piece_of_type[2].0, s.0 as u64));
                assert(b.has_type(Piece::ROOK, s) == bit(b.piece_of_type[3].0, s.0 as u64));
                assert(b.has_type(Piece::QUEEN, s) == bit(b.piece_of_type[4].0, s.0 as u64));
            }
            if by_knight != 0 || by_pawn != 0 || by_king != 0 || by_rook != 0 || by_bishop != 0 {
                let i = choose|i: u64|
                    i < 64 && (bit(by_knight, i) || bit(by_pawn, i) || bit(by_king, i) || bit(
                        by_rook,
                        i,
                    ) || bit(by_bishop, i));
                assert(attacks_from(b, them, Square(i as u8), sq, occ));
            } else {
                assert forall|s: Square| s.valid() implies !#[trigger] attacks_from(
                    b,
                    them,
                    s,
                    sq,
                    occ,
                ) by {
                    assert(!bit(by_knight, s.0 as u64));
                }
            }
        }
        by_knight != 0 || by_pawn != 0 || by_king != 0 || self.tables.rook_table.attacks(
            sq,
            occupancy,
        ).0 & self.rook_queen.0 != 0 || self.tables.bishop_table.attacks(sq, occupancy).0
            & self.bishop_queen.0 != 0
    }
}

impl<'a> MoveGenerator<'a> {
    /// Whether the generator stands on firm ground and every move found so
    /// far is legal.
    pub open spec fn sound(&self) -> bool {
        &&& self.grounded()
        &&& forall|i: int| 0 <= i < self.moves@.len() ==> legal(*self.board, #[trigger] self.moves@[i])
    }

    /// Whether the way in which the moves of the pieces are held back
    /// agrees with the checks found: if in check, by one piece only, and
    /// if not, by none.
    pub open spec fn mode_set(&self) -> bool {
        if self.evasive {
            &&& self.checkers.0 != 0
            &&& forall|c1: Square, c2: Square|
                c1.valid() && c2.valid() && #[trigger] bit(self.checkers.0, c1.0 as u64)
                    && #[trigger] bit(self.checkers.0, c2.0 as u64) ==> c1 == c2
        } else {
            self.checkers.0 == 0
        }
    }

    /// Whether `later` is this state with more moves found and nothing
    /// else changed.
    pub open spec fn grown_to(&self, later: &MoveGenerator<'a>) -> bool {
        &&& later.same_setup(self)
        &&& later.checkers == self.checkers
        &&& later.block_mask == self.block_mask
        &&& later.pinned == self.pinned
        &&& later.evasive == self.evasive
        &&& later.moves@.len() >= self.moves@.len()
        &&& forall|i: int|
            0 <= i < self.moves@.len() ==> #[trigger] later.moves@[i] == self.moves@[i]
    }

    /// Whether the move `m` has been found if it is legal.
    pub open spec fn finds(&self, m: Move) -> bool {
        legal(*self.board, m) ==> self.moves@.contains(m)
    }

    /// What has been found stays found.
    proof fn lemma_stays_found(&self, later: &MoveGenerator<'a>, m: Move)
        requires
            self.grown_to(later),
            self.finds(m),
        ensures
            later.finds(m),
    {
        if self.moves@.contains(m) {
            let i = choose|i: int| 0 <= i < self.moves@.len() && self.moves@[i] == m;
            assert(later.moves@[i] == m);
        }
    }

    /// A piece of the side to move that attacks a square does not find the
    /// other king there, for that king is not in check.
    proof fn lemma_not_their_king(&self, origin: Square, dest: Square)
        requires
            self.grounded(),
            origin.valid(),
            dest.valid(),
            self.board.piece_attacks(self.us, origin, dest, self.any_piece.0) || (origin
                == self.king_sq && king_has(origin.idx(), dest.idx())),
        ensures
            dest != self.board.king_sq(self.us.opposite()),
    {
        let b = *self.board;
        let them = self.us.opposite();
        if dest == b.king_sq(them) {
            assert(b.attacked(self.us, dest, b.occupancy()));
            assert(b.spec_under_check(them));
        }
    }

    /// A move of a piece that is not a pawn fits when the piece stands on
    /// its origin and attacks its destination, and no piece of its side
    /// stands there.
    proof fn lemma_piece_move_fits(&self, origin: Square, dest: Square, piece: Piece)
        requires
            self.grounded(),
            origin.valid(),
            dest.valid(),
            piece != Piece::PAWN,
            self.board.has_color(self.us, origin),
            if piece == Piece::KING {
                origin == self.king_sq
            } else {
                self.board.has_type(piece, origin)
            },
            self.board.piece_attacks(self.us, origin, dest, self.any_piece.0) || (origin
                == self.king_sq && king_has(origin.idx(), dest.idx())),
            !self.board.has_color(self.us, dest),
        ensures
            self.board.fits(Move::NormalMove { origin, dest, piece }),
            self.board.piece_on(origin) == Some(piece),
    {
        let b = *self.board;
        self.lemma_not_their_king(origin, dest);
        assert(b.has_any_type(origin) == b.has_any_type(origin));
        assert(b.has_color(self.us, b.king_sq(self.us)));
        assert(origin != dest);
        if piece != Piece::KING {
            assert(b.has_any_type(origin));
            assert(b.piece_on(origin) == Some(piece));
        }
    }

    /// Whether move generation takes up a move from `origin` to `dest`:
    /// in check it must end the check, and a pinned piece must stay on the
    /// line through the king.
    pub open spec fn admits(&self, origin: Square, dest: Square) -> bool {
        &&& self.evasive ==> bit(self.checkers.0, dest.0 as u64) || bit(
            self.block_mask.0,
            dest.0 as u64,
        )
        &&& bit(self.pinned.0, origin.0 as u64) ==> line_has(origin, self.king_sq, dest)
    }

    /// A move of a piece other than the king that fits, has the shape of a
    /// move of its piece and is admitted leaves the king out of check.
    proof fn lemma_admitted_is_safe(&self, m: Move, origin: Square, dest: Square, piece: Piece)
        requires
            self.grounded(),
            self.scanned(),
            self.mode_set(),
            self.board.fits(m),
            m == (Move::NormalMove { origin, dest, piece }) && piece != Piece::KING || (m == (
            Move::Promotion { origin, dest, piece }) && self.board.piece_on(origin) == Some(
                Piece::PAWN,
            )),
            self.admits(origin, dest),
            shape(self.board.piece_on(origin).unwrap(), origin, dest, self.any_piece.0),
            self.board.piece_on(origin) == Some(Piece::KNIGHT) ==> !bit(
                self.pinned.0,
                origin.0 as u64,
            ),
        ensures
            leaves_king_safe(*self.board, m),
            !(self.board.piece_on(origin) == Some(Piece::PAWN)) ==> legal(*self.board, m),
            pawn_way(*self.board, origin, dest) && (m is NormalMove ==> 1 <= dest.spec_rank() <= 6)
                ==> legal(*self.board, m),
    {
        let b = *self.board;
        lemma_bit_ops();
        if self.checkers.0 != 0 {
            assert(self.evasive);
        }
        lemma_relocation_legal(
            b,
            m,
            self.checkers.0,
            self.block_mask.0,
            self.pinned.0,
            origin,
            dest,
            piece,
        );
    }

    /// A legal move of a piece other than the king is admitted: a pinned
    /// piece stays on the line through the king, and, unless the move
    /// takes a pawn in passing, it ends the check if there is one.
    proof fn lemma_legal_is_admitted(&self, m: Move, origin: Square, dest: Square)
        requires
            self.grounded(),
            self.scanned(),
            self.mode_set(),
            self.board.fits(m),
            leaves_king_safe(*self.board, m),
            relocates(m, origin, dest),
        ensures
            bit(self.pinned.0, origin.0 as u64) ==> line_has(origin, self.king_sq, dest),
            !(m is EnPassant) ==> self.admits(origin, dest),
            origin.valid() && dest.valid(),
    {
        let b = *self.board;
        if bit(self.pinned.0, origin.0 as u64) {
            let (x, kind) = choose|x: Square, kind: bool|
                x.valid() && #[trigger] sole_blocker_of(b, x, origin, kind);
            lemma_pin_holds(b, m, origin, dest, x, kind);
        }
        if self.evasive && !(m is EnPassant) {
            lemma_nonzero_bit(self.checkers.0);
            let i = choose|i: u64| i < 64 && bit(self.checkers.0, i);
            let c = Square(i as u8);
            assert(bit(self.checkers.0, c.0 as u64));
            assert(gives_check(b, c));
            if c != dest {
                if !(slider_on(b, c) && between(our_king(b), c, dest)) {
                    lemma_check_remains(b, m, origin, dest, c);
                }
                assert(bit(self.block_mask.0, dest.0 as u64));
            }
        }
    }

    /// Takes a legal move into the list.
    fn push_move(&mut self, m: Move)
        requires
            old(self).sound(),
            legal(*old(self).board, m),
        ensures
            final(self).sound(),
            old(self).grown_to(final(self)),
            final(self).moves@ == old(self).moves@.push(m),
            final(self).moves@.contains(m),
    {
        self.moves.push(m);
        proof {
            assert(self.moves@[self.moves@.len() - 1] == m);
        }
    }

    /// The moves of the king to squares that no piece of its side holds
    /// and no piece of the other side attacks.
    fn generate_king_moves(&mut self)
        requires
            old(self).sound(),
        ensures
            final(self).sound(),
            old(self).grown_to(final(self)),
            forall|dest: Square|
                #[trigger] final(self).finds(
                    Move::NormalMove { origin: final(self).king_sq, dest, piece: Piece::KING },
                ),
            distinct_from(final(self).moves@, old(self).moves@.len() as int),
            forall|i: int|
                old(self).moves@.len() <= i < final(self).moves@.len() ==> kind_of(
                    #[trigger] final(self).moves@[i],
                ) == 5,
    {
        let mut attacks = BitBoard(king_attacks(self.king_sq).0 & self.our_piece_i.0);
        let ghost reach = attacks.0;
        let ghost from = self.moves@.len() as int;
        proof {
            lemma_distinct_none(self.moves@, from);
            lemma_bit_ops();
        }
        while !attacks.empty()
            invariant
                self.sound(),
                old(self).grown_to(self),
                forall|i: u64|
                    i < 64 ==> #[trigger] bit(reach, i) == (king_has(self.king_sq.idx(), i as int)
                        && !self.board.has_color(self.us, Square(i as u8))),
                forall|i: u64|
                    i < 64 && #[trigger] bit(attacks.0, i) ==> king_has(
                        self.king_sq.idx(),
                        i as int,
                    ) && !self.board.has_color(self.us, Square(i as u8)),
                forall|i: u64| i < 64 && #[trigger] bit(attacks.0, i) ==> bit(reach, i),
                forall|dest: Square|
                    dest.valid() && bit(reach, dest.0 as u64) && !bit(attacks.0, dest.0 as u64)
                        ==> #[trigger] self.finds(
                        Move::NormalMove { origin: self.king_sq, dest, piece: Piece::KING },
                    ),
                from == old(self).moves@.len(),
                distinct_from(self.moves@, from),
                forall|i: int|
                    from <= i < self.moves@.len() ==> kind_of(#[trigger] self.moves@[i]) == 5
                        && !bit(attacks.0, dest_of(self.moves@[i]).0 as u64),
            decreases attacks.0,
        {
            let ghost before = attacks.0;
            let ghost was = *self;
            let sq = attacks.pop_lsb();
            proof {
                lemma_pop_smaller(before);
                assert(bit(before, sq.0 as u64));
            }
            if !self.square_attacked(sq) {
                proof {
                    self.lemma_piece_move_fits(self.king_sq, sq, Piece::KING);
                    lemma_king_move_legal(*self.board, sq);
                    assert(legal(
                        *self.board,
                        Move::NormalMove { origin: self.king_sq, dest: sq, piece: Piece::KING },
                    ));
                    lemma_distinct_push(
                        self.moves@,
                        from,
                        Move::NormalMove { origin: self.king_sq, dest: sq, piece: Piece::KING },
                    );
                }
                self.push_move(Move::new(Piece::KING, self.king_sq, sq));
            } else {
                proof {
                    let m = Move::NormalMove { origin: self.king_sq, dest: sq, piece: Piece::KING };
                    if legal(*self.board, m) {
                        lemma_safe_king_move(*self.board, sq);
                    }
                }
            }
            proof {
                assert forall|dest: Square|
                    dest.valid() && bit(reach, dest.0 as u64) && !bit(
                        attacks.0,
                        dest.0 as u64,
                    ) implies #[trigger] self.finds(
                    Move::NormalMove { origin: self.king_sq, dest, piece: Piece::KING },
                ) by {
                    let m = Move::NormalMove { origin: self.king_sq, dest, piece: Piece::KING };
                    if dest != sq {
                        assert(bit(before, dest.0 as u64) == bit(attacks.0, dest.0 as u64));
                        was.lemma_stays_found(self, m);
                    }
                }
            }
        }
        proof {
            lemma_bit_ops();
            assert forall|dest: Square|
                #[trigger] self.finds(
                    Move::NormalMove { origin: self.king_sq, dest, piece: Piece::KING },
                ) by {
                let m = Move::NormalMove { origin: self.king_sq, dest, piece: Piece::KING };
                if legal(*self.board, m) {
                    assert(bit(reach, dest.0 as u64));
                }
            }
        }
    }

    /// The moves of a rook, bishop or queen on `origin` to the squares of
    /// `attacks`, less those that its own side holds, those that do not
    /// end a check, and those that leave the line of a pin.
    fn generate_slider_moves(&mut self, origin: Square, piece: Piece, attacks: BitBoard)
        requires
            old(self).sound(),
            old(self).scanned(),
            old(self).mode_set(),
            origin.valid(),
            piece == Piece::ROOK || piece == Piece::BISHOP || piece == Piece::QUEEN,
            old(self).board.has_color(old(self).us, origin),
            old(self).board.has_type(piece, origin),
            forall|i: u64|
                i < 64 && #[trigger] bit(attacks.0, i) ==> old(self).board.piece_attacks(
                    old(self).us,
                    origin,
                    Square(i as u8),
                    old(self).any_piece.0,
                ),
        ensures
            final(self).sound(),
            old(self).grown_to(final(self)),
            forall|dest: Square|
                dest.valid() && bit(attacks.0, dest.0 as u64) ==> #[trigger] final(self).finds(
                    Move::NormalMove { origin, dest, piece },
                ),
            distinct_from(final(self).moves@, old(self).moves@.len() as int),
            forall|i: int|
                old(self).moves@.len() <= i < final(self).moves@.len() ==> goes(
                    #[trigger] final(self).moves@[i],
                    piece,
                    origin,
                ) && bit(attacks.0, dest_of(final(self).moves@[i]).0 as u64),
    {
        let reach = attacks;
        let ghost from = self.moves@.len() as int;
        proof {
            lemma_distinct_none(self.moves@, from);
        }
        let mut attacks = BitBoard(attacks.0 & self.our_piece_i.0);
        if self.evasive {
            attacks = BitBoard(attacks.0 & (self.checkers.0 | self.block_mask.0));
        }
        let ghost pin_line = self.tables.lines@[origin.idx()]@[self.king_sq.idx()];
        if self.pinned.0 & (1u64 << origin.0) != 0 {
            attacks = BitBoard(attacks.0 & self.line(origin, self.king_sq).0);
        }
        proof {
            lemma_bit_ops();
            lemma_single_bit();
            assert forall|i: u64| i < 64 && #[trigger] bit(attacks.0, i) implies self.admits(
                origin,
                Square(i as u8),
            ) by {
                if bit(self.pinned.0, origin.0 as u64) {
                    assert(pin_line.has(Square(i as u8)));
                }
            }
            assert forall|dest: Square|
                dest.valid() && bit(reach.0, dest.0 as u64) && !bit(
                    attacks.0,
                    dest.0 as u64,
                ) implies #[trigger] self.finds(Move::NormalMove { origin, dest, piece }) by {
                let m = Move::NormalMove { origin, dest, piece };
                if legal(*self.board, m) {
                    self.lemma_legal_is_admitted(m, origin, dest);
                    if bit(self.pinned.0, origin.0 as u64) {
                        assert(pin_line.has(dest));
                    }
                    assert(bit(self.our_piece_i.0, dest.0 as u64));
                }
            }
        }
        while !attacks.empty()
            invariant
                self.sound(),
                self.scanned(),
                self.mode_set(),
                old(self).grown_to(self),
                origin.valid(),
                piece == Piece::ROOK || piece == Piece::BISHOP || piece == Piece::QUEEN,
                self.board.has_color(self.us, origin),
                self.board.has_type(piece, origin),
                forall|i: u64|
                    i < 64 && #[trigger] bit(attacks.0, i) ==> self.board.piece_attacks(
                        self.us,
                        origin,
                        Square(i as u8),
                        self.any_piece.0,
                    ) && !self.board.has_color(self.us, Square(i as u8)) && self.admits(
                        origin,
                        Square(i as u8),
                    ),
                forall|dest: Square|
                    dest.valid() && bit(reach.0, dest.0 as u64) && !bit(attacks.0, dest.0 as u64)
                        ==> #[trigger] self.finds(Move::NormalMove { origin, dest, piece }),
                from == old(self).moves@.len(),
                distinct_from(self.moves@, from),
                forall|i: u64| i < 64 && #[trigger] bit(attacks.0, i) ==> bit(reach.0, i),
                forall|i: int|
                    from <= i < self.moves@.len() ==> goes(#[trigger] self.moves@[i], piece, origin)
                        && bit(reach.0, dest_of(self.moves@[i]).0 as u64) && !bit(
                        attacks.0,
                        dest_of(self.moves@[i]).0 as u64,
                    ),
            decreases attacks.0,
        {
            let ghost before = attacks.0;
            let ghost was = *self;
            let dest = attacks.pop_lsb();
            proof {
                lemma_pop_smaller(before);
                assert(bit(before, dest.0 as u64));
                lemma_distinct_push(self.moves@, from, Move::NormalMove { origin, dest, piece });
                self.lemma_piece_move_fits(origin, dest, piece);
                let b = *self.board;
                lemma_occupant(b, origin);
                lemma_attack_is_clear_way(origin, dest, self.any_piece.0);
                assert(shape(piece, origin, dest, self.any_piece.0));
                self.lemma_admitted_is_safe(
                    Move::NormalMove { origin, dest, piece },
                    origin,
                    dest,
                    piece,
                );
            }
            self.push_move(Move::new(piece, origin, dest));
            proof {
                assert forall|d: Square|
                    d.valid() && bit(reach.0, d.0 as u64) && !bit(
                        attacks.0,
                        d.0 as u64,
                    ) implies #[trigger] self.finds(Move::NormalMove { origin, dest: d, piece }) by {
                    if d != dest {
                        assert(bit(before, d.0 as u64) == bit(attacks.0, d.0 as u64));
                        was.lemma_stays_found(self, Move::NormalMove { origin, dest: d, piece });
                    }
                }
            }
        }
        proof {
            lemma_bit_ops();
        }
    }

    /// The moves of a knight on `origin` that is not pinned.
    fn generate_knight_moves(&mut self, origin: Square)
        requires
            old(self).sound(),
            old(self).scanned(),
            old(self).mode_set(),
            origin.valid(),
            old(self).board.has_color(old(self).us, origin),
            old(self).board.has_type(Piece::KNIGHT, origin),
            !bit(old(self).pinned.0, origin.0 as u64),
        ensures
            final(self).sound(),
            old(self).grown_to(final(self)),
            forall|dest: Square|
                #[trigger] final(self).finds(
                    Move::NormalMove { origin, dest, piece: Piece::KNIGHT },
                ),
            distinct_from(final(self).moves@, old(self).moves@.len() as int),
            forall|i: int|
                old(self).moves@.len() <= i < final(self).moves@.len() ==> goes(
                    #[trigger] final(self).moves@[i],
                    Piece::KNIGHT,
                    origin,
                ),
    {
        let jumps = knight_attacks(origin);
        let ghost reach = jumps.0;
        let ghost from = self.moves@.len() as int;
        proof {
            lemma_distinct_none(self.moves@, from);
        }
        let mut attacks = BitBoard(jumps.0 & self.our_piece_i.0);
        if self.evasive {
            attacks = BitBoard(attacks.0 & (self.checkers.0 | self.block_mask.0));
        }
        proof {
            lemma_bit_ops();
            assert forall|dest: Square|
                dest.valid() && bit(reach, dest.0 as u64) && !bit(
                    attacks.0,
                    dest.0 as u64,
                ) implies #[trigger] self.finds(
                Move::NormalMove { origin, dest, piece: Piece::KNIGHT },
            ) by {
                let m = Move::NormalMove { origin, dest, piece: Piece::KNIGHT };
                if legal(*self.board, m) {
                    self.lemma_legal_is_admitted(m, origin, dest);
                    assert(bit(self.our_piece_i.0, dest.0 as u64));
                }
            }
        }
        while !attacks.empty()
            invariant
                self.sound(),
                self.scanned(),
                self.mode_set(),
                old(self).grown_to(self),
                origin.valid(),
                forall|i: u64| i < 64 ==> #[trigger] bit(reach, i) == knight_has(origin.idx(), i as int),
                self.board.has_color(self.us, origin),
                self.board.has_type(Piece::KNIGHT, origin),
                !bit(self.pinned.0, origin.0 as u64),
                forall|i: u64|
                    i < 64 && #[trigger] bit(attacks.0, i) ==> knight_has(origin.idx(), i as int)
                        && !self.board.has_color(self.us, Square(i as u8)) && self.admits(
                        origin,
                        Square(i as u8),
                    ),
                forall|dest: Square|
                    dest.valid() && bit(reach, dest.0 as u64) && !bit(attacks.0, dest.0 as u64)
                        ==> #[trigger] self.finds(
                        Move::NormalMove { origin, dest, piece: Piece::KNIGHT },
                    ),
                from == old(self).moves@.len(),
                distinct_from(self.moves@, from),
                forall|i: int|
                    from <= i < self.moves@.len() ==> goes(
                        #[trigger] self.moves@[i],
                        Piece::KNIGHT,
                        origin,
                    ) && !bit(attacks.0, dest_of(self.moves@[i]).0 as u64),
            decreases attacks.0,
        {
            let ghost before = attacks.0;
            let ghost was = *self;
            let dest = attacks.pop_lsb();
            proof {
                lemma_pop_smaller(before);
                assert(bit(before, dest.0 as u64));
                lemma_distinct_push(
                    self.moves@,
                    from,
                    Move::NormalMove { origin, dest, piece: Piece::KNIGHT },
                );
                self.lemma_piece_move_fits(origin, dest, Piece::KNIGHT);
                self.lemma_admitted_is_safe(
                    Move::NormalMove { origin, dest, piece: Piece::KNIGHT },
                    origin,
                    dest,
                    Piece::KNIGHT,
                );
            }
            self.push_move(Move::new(Piece::KNIGHT, origin, dest));
            proof {
                assert forall|d: Square|
                    d.valid() && bit(reach, d.0 as u64) && !bit(
                        attacks.0,
                        d.0 as u64,
                    ) implies #[trigger] self.finds(
                    Move::NormalMove { origin, dest: d, piece: Piece::KNIGHT },
                ) by {
                    if d != dest {
                        assert(bit(before, d.0 as u64) == bit(attacks.0, d.0 as u64));
                        was.lemma_stays_found(
                            self,
                            Move::NormalMove { origin, dest: d, piece: Piece::KNIGHT },
                        );
                    }
                }
            }
        }
        proof {
            lemma_bit_ops();
            assert forall|dest: Square|
                #[trigger] self.finds(
                    Move::NormalMove { origin, dest, piece: Piece::KNIGHT },
                ) by {
                let m = Move::NormalMove { origin, dest, piece: Piece::KNIGHT };
                if legal(*self.board, m) {
                    assert(bit(reach, dest.0 as u64));
                }
            }
        }
    }

    /// Whether a pawn of the side to move stands on `origin` and `dest` is
    /// a square one rank ahead of it, on its file or a file beside it, that
    /// it can move to: no piece of its side and no king is there.
    pub open spec fn pawn_step(&self, origin: Square, dest: Square) -> bool {
        let b = *self.board;
        &&& origin.valid() && dest.valid()
        &&& b.has_color(self.us, origin) && b.has_type(Piece::PAWN, origin)
        &&& !b.has_color(self.us, dest)
        &&& dest != b.king_pos[0] && dest != b.king_pos[1]
        &&& dest.spec_rank() - origin.spec_rank() == (if self.us == Color::WHITE {
            1int
        } else {
            -1int
        })
        &&& -1 <= dest.spec_file() - origin.spec_file() <= 1
    }

    /// Whether every legal move of a pawn from `origin` to `dest`, as a
    /// pawn or promoted, has been found.
    pub open spec fn finds_pawn(&self, origin: Square, dest: Square) -> bool {
        &&& self.finds(Move::NormalMove { origin, dest, piece: Piece::PAWN })
        &&& forall|piece: Piece| #[trigger] self.finds(Move::Promotion { origin, dest, piece })
    }

    /// What has been found of the moves of a pawn stays found.
    proof fn lemma_pawn_stays_found(&self, later: &MoveGenerator<'a>, origin: Square, dest: Square)
        requires
            self.grown_to(later),
            self.finds_pawn(origin, dest),
        ensures
            later.finds_pawn(origin, dest),
    {
        self.lemma_stays_found(later, Move::NormalMove { origin, dest, piece: Piece::PAWN });
        assert forall|piece: Piece| #[trigger] later.finds(
            Move::Promotion { origin, dest, piece },
        ) by {
            assert(self.finds(Move::Promotion { origin, dest, piece }));
            self.lemma_stays_found(later, Move::Promotion { origin, dest, piece });
        }
    }

    /// The move of a pawn from `origin` to `dest`, or its four promotions
    /// if `dest` is on the last rank.
    fn add_pawn_moves(&mut self, origin: Square, dest: Square, is_promotion: bool)
        requires
            old(self).sound(),
            old(self).scanned(),
            old(self).mode_set(),
            old(self).pawn_step(origin, dest),
            pawn_way(*old(self).board, origin, dest),
            old(self).admits(origin, dest),
            is_promotion == (dest.spec_rank() == 0 || dest.spec_rank() == 7),
        ensures
            final(self).sound(),
            old(self).grown_to(final(self)),
            final(self).finds_pawn(origin, dest),
            pawn_run(final(self).moves@, old(self).moves@.len() as int, origin, set![dest.idx()]),
    {
        let ghost from = self.moves@.len() as int;
        proof {
            let b = *self.board;
            assert(b.has_any_type(origin));
            assert(b.piece_on(origin) == Some(Piece::PAWN));
            assert(1 <= origin.spec_rank() <= 6);
            if b.has_type(Piece::PAWN, dest) {
                assert(1 <= dest.spec_rank() <= 6);
            }
            assert(shape(Piece::PAWN, origin, dest, self.any_piece.0));
            if is_promotion {
                self.lemma_admitted_is_safe(
                    Move::Promotion { origin, dest, piece: Piece::QUEEN },
                    origin,
                    dest,
                    Piece::QUEEN,
                );
                self.lemma_admitted_is_safe(
                    Move::Promotion { origin, dest, piece: Piece::ROOK },
                    origin,
                    dest,
                    Piece::ROOK,
                );
                self.lemma_admitted_is_safe(
                    Move::Promotion { origin, dest, piece: Piece::BISHOP },
                    origin,
                    dest,
                    Piece::BISHOP,
                );
                self.lemma_admitted_is_safe(
                    Move::Promotion { origin, dest, piece: Piece::KNIGHT },
                    origin,
                    dest,
                    Piece::KNIGHT,
                );
            } else {
                self.lemma_admitted_is_safe(
                    Move::NormalMove { origin, dest, piece: Piece::PAWN },
                    origin,
                    dest,
                    Piece::PAWN,
                );
            }
        }
        if is_promotion {
            self.push_move(Move::promote(origin, dest, Piece::QUEEN));
            self.push_move(Move::promote(origin, dest, Piece::ROOK));
            self.push_move(Move::promote(origin, dest, Piece::BISHOP));
            self.push_move(Move::promote(origin, dest, Piece::KNIGHT));
            proof {
                let n = self.moves@.len() as int;
                assert(self.moves@[n - 4] == Move::Promotion { origin, dest, piece: Piece::QUEEN });
                assert(self.moves@[n - 3] == Move::Promotion { origin, dest, piece: Piece::ROOK });
                assert(self.moves@[n - 2] == Move::Promotion { origin, dest, piece: Piece::BISHOP });
                assert(self.moves@[n - 1] == Move::Promotion { origin, dest, piece: Piece::KNIGHT });
                assert(n == from + 4);
                reveal(pawn_run);
                reveal(distinct_from);
            }
        } else {
            self.push_move(Move::new(Piece::PAWN, origin, dest));
            proof {
                assert(self.moves@[from] == Move::NormalMove { origin, dest, piece: Piece::PAWN });
                reveal(pawn_run);
                reveal(distinct_from);
            }
        }
    }

    /// Whether every legal capture by the pawn on `origin` on `dest`, by a
    /// pawn's move, a promotion or in passing, has been found.
    pub open spec fn finds_capture(&self, origin: Square, dest: Square) -> bool {
        &&& self.finds_pawn(origin, dest)
        &&& forall|capture: Square| #[trigger] self.finds(Move::EnPassant { origin, dest, capture })
    }

    /// What has been found of the captures of a pawn stays found.
    proof fn lemma_capture_stays_found(
        &self,
        later: &MoveGenerator<'a>,
        origin: Square,
        dest: Square,
    )
        requires
            self.grown_to(later),
            self.finds_capture(origin, dest),
        ensures
            later.finds_capture(origin, dest),
    {
        self.lemma_pawn_stays_found(later, origin, dest);
        assert forall|capture: Square| #[trigger] later.finds(
            Move::EnPassant { origin, dest, capture },
        ) by {
            assert(self.finds(Move::EnPassant { origin, dest, capture }));
            self.lemma_stays_found(later, Move::EnPassant { origin, dest, capture });
        }
    }

    /// No move of a pawn that leaves the line of its pin is legal.
    proof fn lemma_pinned_pawn(&self, origin: Square, dest: Square)
        requires
            self.grounded(),
            self.scanned(),
            self.mode_set(),
            origin.valid(),
            dest.valid(),
            bit(self.pinned.0, origin.0 as u64),
            !line_has(origin, self.king_sq, dest),
        ensures
            self.finds_capture(origin, dest),
    {
        let m = Move::NormalMove { origin, dest, piece: Piece::PAWN };
        if legal(*self.board, m) {
            self.lemma_legal_is_admitted(m, origin, dest);
        }
        assert forall|piece: Piece| #[trigger] self.finds(
            Move::Promotion { origin, dest, piece },
        ) by {
            let m = Move::Promotion { origin, dest, piece };
            if legal(*self.board, m) {
                self.lemma_legal_is_admitted(m, origin, dest);
            }
        }
        assert forall|capture: Square| #[trigger] self.finds(
            Move::EnPassant { origin, dest, capture },
        ) by {
            let m = Move::EnPassant { origin, dest, capture };
            if legal(*self.board, m) {
                self.lemma_legal_is_admitted(m, origin, dest);
            }
        }
    }

    /// In check, no move of a pawn as a pawn or promoted that neither takes
    /// the piece that gives check nor blocks it is legal.
    proof fn lemma_pawn_held_back(&self, origin: Square, dest: Square)
        requires
            self.grounded(),
            self.scanned(),
            self.mode_set(),
            self.evasive,
            !bit(self.checkers.0, dest.0 as u64),
            !bit(self.block_mask.0, dest.0 as u64) || !self.board.is_empty(dest),
        ensures
            self.finds_pawn(origin, dest),
    {
        let b = *self.board;
        let m = Move::NormalMove { origin, dest, piece: Piece::PAWN };
        if legal(b, m) {
            self.lemma_legal_is_admitted(m, origin, dest);
            self.lemma_block_is_empty(dest);
        }
        assert forall|piece: Piece| #[trigger] self.finds(
            Move::Promotion { origin, dest, piece },
        ) by {
            let m = Move::Promotion { origin, dest, piece };
            if legal(b, m) {
                self.lemma_legal_is_admitted(m, origin, dest);
                self.lemma_block_is_empty(dest);
            }
        }
    }

    /// The squares that block a check are empty.
    proof fn lemma_block_is_empty(&self, dest: Square)
        requires
            self.grounded(),
            self.scanned(),
            dest.valid(),
            bit(self.block_mask.0, dest.0 as u64),
        ensures
            self.board.is_empty(dest),
    {
        let b = *self.board;
        let k = our_king(b);
        let c = choose|c: Square|
            c.valid() && slider_on(b, c) && attacks_from(
                b,
                b.side_to_play.opposite(),
                c,
                k,
                b.occupancy(),
            ) && #[trigger] between(k, c, dest);
        lemma_attack_is_clear_way(c, k, b.occupancy());
        crate::bitboard_constants::lemma_between_symmetric(k, c, dest);
        assert(between(c, k, dest));
        lemma_occupant(b, c);
        lemma_occupant(b, dest);
    }

    /// The capture by the pawn on `origin` of what stands on `dest`, a
    /// square that it attacks: of a piece of the other side, or of a pawn
    /// in passing if `dest` is the en-passant square. A capture in passing
    /// that could uncover the king is tried on a copy of the board first.
    #[verifier::spinoff_prover]
    #[verifier::rlimit(100)]
    fn generate_pawn_captures(&mut self, is_promotion: bool, origin: Square, dest: Square)
        requires
            old(self).sound(),
            old(self).scanned(),
            old(self).mode_set(),
            origin.valid(),
            dest.valid(),
            old(self).board.has_color(old(self).us, origin),
            old(self).board.has_type(Piece::PAWN, origin),
            pawn_has(old(self).us, origin.idx(), dest.idx()),
            is_promotion == (dest.spec_rank() == 0 || dest.spec_rank() == 7),
            bit(old(self).pinned.0, origin.0 as u64) ==> line_has(
                origin,
                old(self).king_sq,
                dest,
            ),
        ensures
            final(self).sound(),
            old(self).grown_to(final(self)),
            final(self).finds_capture(origin, dest),
            pawn_run(final(self).moves@, old(self).moves@.len() as int, origin, set![dest.idx()]),
    {
        let ghost from = self.moves@.len() as int;
        let dest_bb = BitBoard::from_square(dest);
        proof {
            lemma_single_bit();
            lemma_bit_ops();
            lemma_byte_ops();
            lemma_occupant(*self.board, dest);
        }
        if self.enemy_piece.0 & dest_bb.0 != 0 {
            proof {
                // a square on which a piece stands is no en-passant square
                assert forall|capture: Square| #[trigger] self.finds(
                    Move::EnPassant { origin, dest, capture },
                ) by {
                }
            }
            if !self.evasive || self.checkers.0 & dest_bb.0 != 0 {
                proof {
                    let b = *self.board;
                    assert(self.board.piece_attacks(self.us, origin, dest, self.any_piece.0));
                    self.lemma_not_their_king(origin, dest);
                    assert(b.has_color(self.us, b.king_sq(self.us)));
                    assert(!(b.has_color(Color::WHITE, dest) && b.has_color(Color::BLACK, dest)));
                    assert(b.has_color(self.us.opposite(), dest));
                    assert(pawn_way(b, origin, dest));
                }
                let ghost was = *self;
                self.add_pawn_moves(origin, dest, is_promotion);
                proof {
                    assert forall|capture: Square| #[trigger] self.finds(
                        Move::EnPassant { origin, dest, capture },
                    ) by {
                        was.lemma_stays_found(self, Move::EnPassant { origin, dest, capture });
                    }
                }
            } else {
                proof {
                    self.lemma_pawn_held_back(origin, dest);
                    lemma_run_none(self.moves@, from, origin, set![dest.idx()]);
                }
            }
        } else {
            proof {
                // nothing to take but in passing
                let b = *self.board;
                assert(!b.has_color(self.us.opposite(), dest));
                assert(self.finds_pawn(origin, dest)) by {
                    assert(!pawn_way(b, origin, dest));
                }
            }
            if let Some(en_passant) = self.board.en_passant {
                if en_passant == dest {
                    let capture = Square(dest.file() | (origin.0 & 0xF8));
                    let m = Move::en_passant(origin, dest, capture);
                    proof {
                        let b = *self.board;
                        assert(capture.0 == origin.0 / 8 * 8 + dest.0 % 8);
                        assert(b.fits(m));
                        assert(capture == double_step_to(b));
                        assert(pseudo_legal(b, m));
                    }
                    let ghost was = *self;
                    if self.evasive || self.king_sq.rank() == origin.rank() {
                        let mut board = *self.board;
                        board.make_move(m);
                        if !board.under_check(self.us) {
                            self.push_move(m);
                        }
                    } else {
                        proof {
                            lemma_en_passant_legal(
                                *self.board,
                                self.checkers.0,
                                self.pinned.0,
                                origin,
                                dest,
                                capture,
                            );
                        }
                        self.push_move(m);
                    }
                    proof {
                        was.lemma_pawn_stays_found(self, origin, dest);
                        assert forall|other: Square| #[trigger] self.finds(
                            Move::EnPassant { origin, dest, capture: other },
                        ) by {
                        }
                        if self.moves@.len() == from {
                            lemma_run_none(self.moves@, from, origin, set![dest.idx()]);
                        } else {
                            lemma_run_none(was.moves@, from, origin, Set::empty());
                            lemma_run_push(was.moves@, from, origin, Set::empty(), m);
                        }
                    }
                } else {
                    proof {
                        assert forall|capture: Square| #[trigger] self.finds(
                            Move::EnPassant { origin, dest, capture },
                        ) by {
                        }
                        lemma_run_none(self.moves@, from, origin, set![dest.idx()]);
                    }
                }
            } else {
                proof {
                    assert forall|capture: Square| #[trigger] self.finds(
                        Move::EnPassant { origin, dest, capture },
                    ) by {
                    }
                    lemma_run_none(self.moves@, from, origin, set![dest.idx()]);
                }
            }
        }
    }

    /// The moves of the pawn on `origin` straight ahead: to `dest`, the
    /// square before it, of which `fwd` is the set, and two squares ahead
    /// from its first rank.
    #[verifier::spinoff_prover]
    #[verifier::rlimit(100)]
    fn generate_pawn_pushes(
        &mut self,
        origin: Square,
        dest: Square,
        fwd: BitBoard,
        is_promotion: bool,
        first_move: bool,
        is_not_pinned: bool,
    )
        requires
            old(self).sound(),
            old(self).scanned(),
            old(self).mode_set(),
            origin.valid(),
            dest.valid(),
            old(self).board.has_color(old(self).us, origin),
            old(self).board.has_type(Piece::PAWN, origin),
            dest.0 == origin.0 + old(self).us.spec_fwd_dir(),
            fwd.0 == square_bit(dest),
            is_promotion == (dest.spec_rank() == 0 || dest.spec_rank() == 7),
            first_move == (!is_promotion && (origin.spec_rank() == 1 || origin.spec_rank() == 6)),
            is_not_pinned == !bit(old(self).pinned.0, origin.0 as u64),
        ensures
            final(self).sound(),
            old(self).grown_to(final(self)),
            forall|d: Square|
                d.valid() && d.spec_file() == origin.spec_file() ==> #[trigger] final(self).finds_pawn(
                    origin,
                    d,
                ),
            pawn_run(
                final(self).moves@,
                old(self).moves@.len() as int,
                origin,
                set![dest.idx(), 2 * dest.idx() - origin.idx()],
            ),
    {
        let ghost from = self.moves@.len() as int;
        let ghost ahead = set![dest.idx(), 2 * dest.idx() - origin.idx()];
        let fwd_dir = self.us.fwd_dir();
        let ghost dest2 = Square((dest.0 + fwd_dir) as u8);
        proof {
            lemma_single_bit();
            lemma_bit_ops();
            assert(1 <= origin.spec_rank() <= 6);
            assert(self.board.has_color(self.us, self.king_sq));
            lemma_occupant(*self.board, origin);
            lemma_occupant(*self.board, dest);
            lemma_occupant(*self.board, self.king_sq);
            // straight ahead a pawn reaches two squares at most
            assert forall|d: Square|
                d.valid() && d.spec_file() == origin.spec_file() && d != dest && !(first_move && d
                    == dest2) implies #[trigger] self.finds_pawn(origin, d) by {
                assert(!pawn_way(*self.board, origin, d));
            }
        }
        if (!self.any_piece.0) & fwd.0 != 0 && (is_not_pinned || self.line(origin, dest).0
            & self.king.0 != 0) {
            proof {
                let b = *self.board;
                assert(!bit(self.any_piece.0, dest.0 as u64));
                assert(b.is_empty(dest));
                assert(b.has_color(Color::WHITE, b.king_pos[0]));
                assert(b.has_color(Color::BLACK, b.king_pos[1]));
                if !is_not_pinned {
                    assert(self.tables.lines@[origin.idx()]@[dest.idx()].has(self.king_sq));
                    lemma_line_of_three(origin, dest, self.king_sq);
                }
                assert(pawn_way(b, origin, dest));
            }
            let ghost was = *self;
            if !self.evasive || self.block_mask.0 & fwd.0 != 0 {
                self.add_pawn_moves(origin, dest, is_promotion);
            } else {
                proof {
                    self.lemma_pawn_held_back(origin, dest);
                    lemma_run_none(self.moves@, from, origin, set![dest.idx()]);
                }
            }
            let ghost mid = *self;
            if first_move {
                let fwd2 = fwd.shift(fwd_dir);
                let dest2 = dest.shift(fwd_dir);
                assert(fwd2.0 == square_bit(dest2));
                if fwd2.0 & self.any_piece.0 == 0 && (!self.evasive || self.block_mask.0 & fwd2.0
                    != 0) {
                    proof {
                        let b = *self.board;
                        let m = Move::NormalMove { origin, dest: dest2, piece: Piece::PAWN };
                        assert(!bit(self.any_piece.0, dest2.0 as u64));
                        assert(b.is_empty(dest2));
                        assert(b.has_any_type(origin));
                        assert(b.piece_on(origin) == Some(Piece::PAWN));
                        assert(b.fits(m));
                        assert(((origin.0 + dest2.0) / 2) as u64 == dest.0);
                        assert(shape(Piece::PAWN, origin, dest2, self.any_piece.0));
                        if !is_not_pinned {
                            assert(line_has(origin, self.king_sq, dest2));
                        }
                        self.lemma_admitted_is_safe(m, origin, dest2, Piece::PAWN);
                        assert(Square(((origin.0 + dest2.0) / 2) as u8) == dest);
                        assert(pawn_way(b, origin, dest2));
                        assert(pseudo_legal(b, m));
                    }
                    self.push_move(Move::new(Piece::PAWN, origin, dest2));
                    proof {
                        lemma_run_push(
                            mid.moves@,
                            from,
                            origin,
                            set![dest.idx()],
                            Move::NormalMove { origin, dest: dest2, piece: Piece::PAWN },
                        );
                        assert(set![dest.idx()].insert(dest2.idx()) =~= ahead);
                    }
                } else {
                    proof {
                        let b = *self.board;
                        lemma_occupant(b, dest2);
                        if fwd2.0 & self.any_piece.0 == 0 {
                            self.lemma_pawn_held_back(origin, dest2);
                        } else {
                            assert(!b.is_empty(dest2));
                        }
                    }
                }
                proof {
                    assert(self.finds_pawn(origin, dest2)) by {
                        assert forall|piece: Piece| #[trigger] self.finds(
                            Move::Promotion { origin, dest: dest2, piece },
                        ) by {
                        }
                    }
                    mid.lemma_pawn_stays_found(self, origin, dest);
                }
            }
            proof {
                assert forall|d: Square|
                    d.valid() && d.spec_file() == origin.spec_file() implies #[trigger] self.finds_pawn(
                    origin,
                    d,
                ) by {
                    if d != dest && !(first_move && d == dest2) {
                        assert(was.finds_pawn(origin, d));
                        was.lemma_pawn_stays_found(self, origin, d);
                    }
                }
                if self.moves@.len() == mid.moves@.len() {
                    lemma_run_wider(self.moves@, from, origin, set![dest.idx()], ahead);
                }
            }
        } else {
            proof {
                lemma_run_none(self.moves@, from, origin, ahead);
                let b = *self.board;
                // the square ahead is taken or the pawn would leave its pin
                assert forall|d: Square|
                    d.valid() && d.spec_file() == origin.spec_file() implies #[trigger] self.finds_pawn(
                    origin,
                    d,
                ) by {
                    if d == dest || (first_move && d == dest2) {
                        if (!self.any_piece.0) & fwd.0 != 0 {
                            assert(self.tables.lines@[origin.idx()]@[dest.idx()].has(self.king_sq)
                                == line_has(origin, dest, self.king_sq));
                            if line_has(origin, self.king_sq, d) {
                                lemma_line_of_three(origin, self.king_sq, d);
                                assert(line_has(origin, dest, self.king_sq));
                            }
                            self.lemma_pinned_pawn(origin, d);
                        } else {
                            assert(!b.is_empty(dest));
                            assert(!pawn_way(b, origin, d));
                        }
                    }
                }
            }
        }
    }

    /// The moves of the pawn on `origin`: one square ahead, two from its
    /// first square, and the captures to either side.
    #[verifier::spinoff_prover]
    #[verifier::rlimit(100)]
    fn generate_pawn_moves(&mut self, origin: Square, origin_bb: BitBoard)
        requires
            old(self).sound(),
            old(self).scanned(),
            old(self).mode_set(),
            origin.valid(),
            origin_bb.0 == square_bit(origin),
            old(self).board.has_color(old(self).us, origin),
            old(self).board.has_type(Piece::PAWN, origin),
        ensures
            final(self).sound(),
            old(self).grown_to(final(self)),
            forall|dest: Square| dest.valid() ==> #[trigger] final(self).finds_capture(origin, dest),
            pawn_run(final(self).moves@, old(self).moves@.len() as int, origin, Set::full()),
    {
        let ghost from = self.moves@.len() as int;
        let fwd_dir = self.us.fwd_dir();
        proof {
            lemma_single_bit();
            lemma_bit_ops();
            lemma_rank_file_masks();
            lemma_edge_masks();
            assert(1 <= origin.spec_rank() <= 6);
        }
        let dest = origin.shift(fwd_dir);
        let fwd = origin_bb.shift(fwd_dir);
        assert(fwd.0 == square_bit(dest));
        let is_promotion = (RANK_1 | RANK_8) & fwd.0 != 0;
        let first_move = !is_promotion && (RANK_2 | RANK_7) & origin_bb.0 != 0;
        let is_not_pinned = self.pinned.0 & origin_bb.0 == 0;
        let ghost start = *self;
        self.generate_pawn_pushes(origin, dest, fwd, is_promotion, first_move, is_not_pinned);
        let ghost pushed = *self;
        let ghost left = Square((dest.0 - 1) as u8);
        let ghost right = Square((dest.0 + 1) as u8);
        if origin_bb.0 & FILE_A_I != 0 {
            let capture = dest.shift(LEFT);
            if is_not_pinned || self.line(origin, capture).0 & self.king.0 != 0 {
                proof {
                    if !is_not_pinned {
                        assert(self.tables.lines@[origin.idx()]@[capture.idx()].has(self.king_sq));
                        lemma_line_of_three(origin, capture, self.king_sq);
                    }
                }
                self.generate_pawn_captures(is_promotion, origin, capture);
            } else {
                proof {
                    assert(self.tables.lines@[origin.idx()]@[capture.idx()].has(self.king_sq)
                        == line_has(origin, capture, self.king_sq));
                    if line_has(origin, self.king_sq, capture) {
                        lemma_line_of_three(origin, self.king_sq, capture);
                    }
                    self.lemma_pinned_pawn(origin, capture);
                }
            }
        }
        let ghost took_left = *self;
        if origin_bb.0 & FILE_H_I != 0 {
            let capture = dest.shift(RIGHT);
            if is_not_pinned || self.line(origin, capture).0 & self.king.0 != 0 {
                proof {
                    if !is_not_pinned {
                        assert(self.tables.lines@[origin.idx()]@[capture.idx()].has(self.king_sq));
                        lemma_line_of_three(origin, capture, self.king_sq);
                    }
                }
                self.generate_pawn_captures(is_promotion, origin, capture);
            } else {
                proof {
                    assert(self.tables.lines@[origin.idx()]@[capture.idx()].has(self.king_sq)
                        == line_has(origin, capture, self.king_sq));
                    if line_has(origin, self.king_sq, capture) {
                        lemma_line_of_three(origin, self.king_sq, capture);
                    }
                    self.lemma_pinned_pawn(origin, capture);
                }
            }
        }
        proof {
            let ahead = set![dest.idx(), 2 * dest.idx() - origin.idx()];
            let beside = set![dest.idx() - 1];
            let other = set![dest.idx() + 1];
            if took_left.moves@.len() == pushed.moves@.len() {
                assert(took_left.moves@ =~= pushed.moves@);
                lemma_run_wider(took_left.moves@, from, origin, ahead, ahead.union(beside));
            } else {
                lemma_run_join(pushed.moves@, took_left.moves@, from, origin, ahead, beside);
            }
            if self.moves@.len() == took_left.moves@.len() {
                assert(self.moves@ =~= took_left.moves@);
                lemma_run_wider(self.moves@, from, origin, ahead.union(beside), Set::full());
            } else {
                assert(dest.idx() == origin.idx() + 8 || dest.idx() == origin.idx() - 8);
                assert(!ahead.union(beside).contains(dest.idx() + 1));
                assert(ahead.union(beside).disjoint(other));
                lemma_run_join(
                    took_left.moves@,
                    self.moves@,
                    from,
                    origin,
                    ahead.union(beside),
                    other,
                );
                lemma_run_wider(
                    self.moves@,
                    from,
                    origin,
                    ahead.union(beside).union(other),
                    Set::full(),
                );
            }
        }
        proof {
            let b = *self.board;
            assert forall|d: Square| d.valid() implies #[trigger] self.finds_capture(origin, d) by {
                if d.spec_file() == origin.spec_file() {
                    assert(pushed.finds_pawn(origin, d));
                    pushed.lemma_pawn_stays_found(self, origin, d);
                    assert forall|capture: Square| #[trigger] self.finds(
                        Move::EnPassant { origin, dest: d, capture },
                    ) by {
                    }
                } else if d == left && origin.spec_file() != 0 {
                    assert(took_left.finds_capture(origin, d));
                    took_left.lemma_capture_stays_found(self, origin, d);
                } else if d == right && origin.spec_file() != 7 {
                    assert(self.finds_capture(origin, d));
                } else {
                    // no square that a pawn reaches
                    assert(!pawn_way(b, origin, d));
                    assert(!pawn_has(self.us, origin.idx(), d.idx()));
                    assert(self.finds_pawn(origin, d)) by {
                        assert forall|piece: Piece| #[trigger] self.finds(
                            Move::Promotion { origin, dest: d, piece },
                        ) by {
                        }
                    }
                    assert forall|capture: Square| #[trigger] self.finds(
                        Move::EnPassant { origin, dest: d, capture },
                    ) by {
                    }
                }
            }
        }
    }

    /// The castling `m`, if the squares of `path` are empty and neither
    /// `sq1` nor `sq2`, the squares that the king crosses and reaches, is
    /// attacked.
    fn generate_castles_move(&mut self, path: BitBoard, sq1: Square, sq2: Square, m: Move)
        requires
            old(self).sound(),
            sq1.valid(),
            sq2.valid(),
            castling_of(m) is Some,
            castling_of(m).unwrap().king_to == sq2,
            castling_of(m).unwrap().rook_to == sq1,
            old(self).scanned(),
            old(self).checkers.0 == 0,
            old(self).any_piece.0 & path.0 == 0 ==> old(self).castle_open(m),
            legal(*old(self).board, m) ==> old(self).any_piece.0 & path.0 == 0,
        ensures
            final(self).sound(),
            old(self).grown_to(final(self)),
            final(self).finds(m),
            final(self).moves@ == old(self).moves@ || final(self).moves@ == old(self).moves@.push(m),
    {
        if !self.any_piece.intersects(path) {
            if !self.square_attacked(sq1) && !self.square_attacked(sq2) {
                proof {
                    lemma_castling_legal(*self.board, m);
                    self.lemma_castle_allowed(m);
                }
                self.push_move(m);
            } else {
                proof {
                    if legal(*self.board, m) {
                        lemma_legal_castling(*self.board, m);
                    }
                }
            }
        }
    }

    /// Whether the castling `m` fits the position and the side to move has
    /// the right to it, with the squares between king and rook empty.
    pub open spec fn castle_open(&self, m: Move) -> bool {
        let b = *self.board;
        let c = castling_of(m).unwrap();
        &&& b.fits(m)
        &&& if c.king_to.0 > c.king_from.0 {
            b.can_castle_king_side[self.us.idx()]
        } else {
            b.can_castle_queen_side[self.us.idx()] && b.is_empty(Square((c.rook_from.0 + 1) as u8))
        }
    }

    /// A castling that is open, out of no check and across a square that
    /// no piece would attack with the king off the board is one that the
    /// rules of the pieces allow.
    proof fn lemma_castle_allowed(&self, m: Move)
        requires
            self.grounded(),
            self.scanned(),
            self.checkers.0 == 0,
            castling_of(m) is Some,
            self.castle_open(m),
            !attacked_without_king(*self.board, castling_of(m).unwrap().rook_to),
        ensures
            pseudo_legal(*self.board, m),
    {
        let b = *self.board;
        let them = b.side_to_play.opposite();
        let k = our_king(b);
        let sq = castling_of(m).unwrap().rook_to;
        let occ = b.occupancy();
        let occ1 = occ ^ square_bit(k);
        lemma_bit_ops();
        crate::legality::lemma_attacked_view(b, them, k, occ);
        crate::legality::lemma_attacked_view(b, them, sq, occ);
        if b.spec_under_check(b.side_to_play) {
            let s = choose|s: Square| s.valid() && #[trigger] attacks_from(b, them, s, k, occ);
            assert(bit(self.checkers.0, s.0 as u64));
        }
        if b.attacked(them, sq, occ) {
            let s = choose|s: Square| s.valid() && #[trigger] attacks_from(b, them, s, sq, occ);
            crate::completeness::lemma_attack_fewer(
                b.piece_on(s),
                b.color_on(s),
                them,
                s,
                sq,
                occ1,
                occ,
            );
            assert(attacks_from(b, them, s, sq, occ1));
        }
    }

    /// With the right to a castling held and the squares between king and
    /// rook empty, the castling is open; and the squares are empty if the
    /// castling is legal.
    proof fn lemma_castle_fits(&self, path: u64, m: Move)
        requires
            self.grounded(),
            match m {
                Move::CastleKingSideWhite => self.us == Color::WHITE
                    && self.board.can_castle_king_side[0] && path == BB_F1 | BB_G1,
                Move::CastleQueenSideWhite => self.us == Color::WHITE
                    && self.board.can_castle_queen_side[0] && path == BB_D1 | BB_C1 | BB_B1,
                Move::CastleKingSideBlack => self.us == Color::BLACK
                    && self.board.can_castle_king_side[1] && path == BB_F8 | BB_G8,
                Move::CastleQueenSideBlack => self.us == Color::BLACK
                    && self.board.can_castle_queen_side[1] && path == BB_D8 | BB_C8 | BB_B8,
                _ => false,
            },
        ensures
            self.any_piece.0 & path == 0 ==> self.castle_open(m),
            legal(*self.board, m) ==> self.any_piece.0 & path == 0,
    {
        lemma_bit_ops();
        lemma_castle_path_bits();
        lemma_nonzero_bit(self.any_piece.0 & path);
        if self.any_piece.0 & path == 0 {
            assert forall|i: u64| i < 64 && bit(path, i) implies self.board.is_empty(
                Square(i as u8),
            ) by {
                assert(!bit(self.any_piece.0 & path, i));
            }
            assert(bit(path, 5) || bit(path, 3) || bit(path, 61) || bit(path, 59));
            assert(bit(path, 6) || bit(path, 2) || bit(path, 62) || bit(path, 58));
            assert(bit(path, 5) || bit(path, 1) || bit(path, 61) || bit(path, 57));
        }
        if legal(*self.board, m) && self.any_piece.0 & path != 0 {
            let i = choose|i: u64| i < 64 && bit(self.any_piece.0 & path, i);
            let c = castling_of(m).unwrap();
            assert(self.board.is_empty(c.king_to) && self.board.is_empty(c.rook_to));
            assert(c.king_to.0 > c.king_from.0 || self.board.is_empty(
                Square((c.rook_from.0 + 1) as u8),
            ));
            assert(bit(self.any_piece.0, i) && bit(path, i));
            assert(!self.board.is_empty(Square(i as u8)));
        }
    }

    /// The castlings to which the side to move has the right.
    fn generate_castles(&mut self)
        requires
            old(self).sound(),
            old(self).scanned(),
            old(self).checkers.0 == 0,
        ensures
            final(self).sound(),
            old(self).grown_to(final(self)),
            forall|m: Move| castling_of(m) is Some ==> #[trigger] final(self).finds(m),
            distinct_from(final(self).moves@, old(self).moves@.len() as int),
            forall|i: int|
                old(self).moves@.len() <= i < final(self).moves@.len() ==> kind_of(
                    #[trigger] final(self).moves@[i],
                ) == 6,
    {
        proof {
            if self.us == Color::WHITE {
                if self.board.can_castle_king_side[0] {
                    self.lemma_castle_fits(BB_F1 | BB_G1, Move::CastleKingSideWhite);
                }
                if self.board.can_castle_queen_side[0] {
                    self.lemma_castle_fits(BB_D1 | BB_C1 | BB_B1, Move::CastleQueenSideWhite);
                }
            } else {
                if self.board.can_castle_king_side[1] {
                    self.lemma_castle_fits(BB_F8 | BB_G8, Move::CastleKingSideBlack);
                }
                if self.board.can_castle_queen_side[1] {
                    self.lemma_castle_fits(BB_D8 | BB_C8 | BB_B8, Move::CastleQueenSideBlack);
                }
            }
        }
        let ghost start = *self;
        match self.us {
            Color::WHITE => {
                if self.board.can_castle_king_side[0] {
                    self.generate_castles_move(
                        BitBoard(BB_F1 | BB_G1),
                        Square(SQ_F1),
                        Square(SQ_G1),
                        Move::CastleKingSideWhite,
                    );
                }
                let ghost mid = *self;
                if self.board.can_castle_queen_side[0] {
                    self.generate_castles_move(
                        BitBoard(BB_D1 | BB_C1 | BB_B1),
                        Square(SQ_D1),
                        Square(SQ_C1),
                        Move::CastleQueenSideWhite,
                    );
                }
                proof {
                    mid.lemma_stays_found(self, Move::CastleKingSideWhite);
                    reveal(distinct_from);
                    assert(mid.moves@ == start.moves@ || mid.moves@ == start.moves@.push(
                        Move::CastleKingSideWhite,
                    ));
                    assert(self.moves@ == mid.moves@ || self.moves@ == mid.moves@.push(
                        Move::CastleQueenSideWhite,
                    ));
                }
            },
            Color::BLACK => {
                if self.board.can_castle_king_side[1] {
                    self.generate_castles_move(
                        BitBoard(BB_F8 | BB_G8),
                        Square(SQ_F8),
                        Square(SQ_G8),
                        Move::CastleKingSideBlack,
                    );
                }
                let ghost mid = *self;
                if self.board.can_castle_queen_side[1] {
                    self.generate_castles_move(
                        BitBoard(BB_D8 | BB_C8 | BB_B8),
                        Square(SQ_D8),
                        Square(SQ_C8),
                        Move::CastleQueenSideBlack,
                    );
                }
                proof {
                    mid.lemma_stays_found(self, Move::CastleKingSideBlack);
                    reveal(distinct_from);
                    assert(mid.moves@ == start.moves@ || mid.moves@ == start.moves@.push(
                        Move::CastleKingSideBlack,
                    ));
                    assert(self.moves@ == mid.moves@ || self.moves@ == mid.moves@.push(
                        Move::CastleQueenSideBlack,
                    ));
                }
            },
        }
        proof {
            assert forall|m: Move| castling_of(m) is Some implies #[trigger] self.finds(m) by {
            }
        }
    }
}

/// The kinds of moves by which move generation goes: the moves of the
/// rooks, of the bishops, of the queens, of the pawns, of the knights and
/// of the king, the castlings, and the pass.
pub open spec fn kind_of(m: Move) -> int {
    match m {
        Move::NormalMove { origin, dest, piece } => match piece {
            Piece::ROOK => 0,
            Piece::BISHOP => 1,
            Piece::QUEEN => 2,
            Piece::PAWN => 3,
            Piece::KNIGHT => 4,
            Piece::KING => 5,
        },
        Move::Promotion { origin, dest, piece } => 3,
        Move::EnPassant { origin, dest, capture } => 3,
        Move::NullMove => 7,
        _ => 6,
    }
}

/// The square from which a move of a piece starts.
pub open spec fn origin_of(m: Move) -> Square {
    match m {
        Move::NormalMove { origin, dest, piece } => origin,
        Move::Promotion { origin, dest, piece } => origin,
        Move::EnPassant { origin, dest, capture } => origin,
        _ => Square(64),
    }
}

/// The square on which a move of a piece ends.
pub open spec fn dest_of(m: Move) -> Square {
    match m {
        Move::NormalMove { origin, dest, piece } => dest,
        Move::Promotion { origin, dest, piece } => dest,
        Move::EnPassant { origin, dest, capture } => dest,
        _ => Square(64),
    }
}

/// Whether `m` is a move of the piece `piece` from `origin`.
pub open spec fn goes(m: Move, piece: Piece, origin: Square) -> bool {
    m == Move::NormalMove { origin, dest: dest_of(m), piece }
}

/// The moves found from one square join those of the same kind found from
/// other squares: `was` is the list before them, `now` the list with
/// them, and `before` holds the squares yet to be looked at, `origin`
/// among them.
proof fn lemma_origin_joins(
    was: Seq<Move>,
    now: Seq<Move>,
    from: int,
    kind: int,
    before: u64,
    origin: Square,
)
    requires
        0 <= from <= was.len() <= now.len(),
        forall|i: int| 0 <= i < was.len() ==> now[i] == was[i],
        distinct_from(was, from),
        distinct_from(now, was.len() as int),
        forall|i: int|
            from <= i < was.len() ==> kind_of(#[trigger] was[i]) == kind && !bit(
                before,
                origin_of(was[i]).0 as u64,
            ),
        bit(before, origin.0 as u64),
        forall|j: int|
            was.len() <= j < now.len() ==> kind_of(#[trigger] now[j]) == kind && origin_of(now[j])
                == origin,
    ensures
        distinct_from(now, from),
        forall|i: int|
            from <= i < now.len() ==> kind_of(#[trigger] now[i]) == kind && (origin_of(now[i])
                == origin || !bit(before, origin_of(now[i]).0 as u64)),
{
    assert forall|i: int, j: int| from <= i < was.len() && was.len() <= j < now.len() implies now[i]
        != now[j] by {
        assert(now[i] == was[i]);
        assert(origin_of(was[i]) != origin);
    }
    lemma_distinct_join(was, now, from);
    assert forall|i: int| from <= i < now.len() implies kind_of(#[trigger] now[i]) == kind && (
    origin_of(now[i]) == origin || !bit(before, origin_of(now[i]).0 as u64)) by {
        if i < was.len() {
            assert(now[i] == was[i]);
        }
    }
}

/// Whether the moves of the list from place `from` on are different moves
/// of the pawn on `origin` to squares of `dests`.
#[verifier::opaque]
pub open spec fn pawn_run(moves: Seq<Move>, from: int, origin: Square, dests: Set<int>) -> bool {
    &&& distinct_from(moves, from)
    &&& forall|i: int|
        from <= i < moves.len() ==> kind_of(#[trigger] moves[i]) == 3 && origin_of(moves[i])
            == origin && dests.contains(dest_of(moves[i]).idx())
}

/// A list with nothing from `from` on holds a run of moves of any pawn.
proof fn lemma_run_none(moves: Seq<Move>, from: int, origin: Square, dests: Set<int>)
    requires
        from >= moves.len(),
    ensures
        pawn_run(moves, from, origin, dests),
{
    reveal(pawn_run);
    lemma_distinct_none(moves, from);
}

/// A move of the pawn to a square that the run has not reached can follow
/// the run.
proof fn lemma_run_push(moves: Seq<Move>, from: int, origin: Square, dests: Set<int>, m: Move)
    requires
        0 <= from <= moves.len(),
        pawn_run(moves, from, origin, dests),
        kind_of(m) == 3,
        origin_of(m) == origin,
        !dests.contains(dest_of(m).idx()),
    ensures
        pawn_run(moves.push(m), from, origin, dests.insert(dest_of(m).idx())),
{
    reveal(pawn_run);
    lemma_distinct_push(moves, from, m);
}

/// Two runs of moves of a pawn to different squares make one run. `was`
/// is the list as it was at the end of the first.
proof fn lemma_run_join(
    was: Seq<Move>,
    now: Seq<Move>,
    from: int,
    origin: Square,
    first: Set<int>,
    second: Set<int>,
)
    requires
        0 <= from <= was.len() <= now.len(),
        forall|i: int| 0 <= i < was.len() ==> now[i] == was[i],
        pawn_run(was, from, origin, first),
        pawn_run(now, was.len() as int, origin, second),
        first.disjoint(second),
    ensures
        pawn_run(now, from, origin, first.union(second)),
{
    reveal(pawn_run);
    assert forall|i: int, j: int| from <= i < was.len() && was.len() <= j < now.len() implies now[i]
        != now[j] by {
        assert(now[i] == was[i]);
        assert(first.contains(dest_of(was[i]).idx()));
        assert(second.contains(dest_of(now[j]).idx()));
    }
    lemma_distinct_join(was, now, from);
    assert forall|i: int| from <= i < now.len() implies kind_of(#[trigger] now[i]) == 3
        && origin_of(now[i]) == origin && first.union(second).contains(dest_of(now[i]).idx()) by {
        if i < was.len() {
            assert(now[i] == was[i]);
        }
    }
}

/// A run of moves of a pawn to some squares is one to more squares.
proof fn lemma_run_wider(
    moves: Seq<Move>,
    from: int,
    origin: Square,
    dests: Set<int>,
    more: Set<int>,
)
    requires
        pawn_run(moves, from, origin, dests),
        dests.subset_of(more),
    ensures
        pawn_run(moves, from, origin, more),
{
    reveal(pawn_run);
}

/// A run of moves of a pawn holds different moves of the pawns from its
/// square.
proof fn lemma_run_facts(moves: Seq<Move>, from: int, origin: Square, dests: Set<int>)
    requires
        pawn_run(moves, from, origin, dests),
    ensures
        distinct_from(moves, from),
        forall|i: int|
            from <= i < moves.len() ==> kind_of(#[trigger] moves[i]) == 3 && origin_of(moves[i])
                == origin,
{
    reveal(pawn_run);
}

/// The moves found of some kinds join those found of other kinds.
proof fn lemma_kinds_join(
    was: Seq<Move>,
    now: Seq<Move>,
    from: int,
    lo: int,
    hi: int,
    lo2: int,
    hi2: int,
)
    requires
        0 <= from <= was.len() <= now.len(),
        forall|i: int| 0 <= i < was.len() ==> now[i] == was[i],
        distinct_from(was, from),
        distinct_from(now, was.len() as int),
        forall|i: int| from <= i < was.len() ==> lo <= kind_of(#[trigger] was[i]) <= hi,
        forall|j: int| was.len() <= j < now.len() ==> lo2 <= kind_of(#[trigger] now[j]) <= hi2,
        hi2 < lo || hi < lo2,
    ensures
        distinct_from(now, from),
        forall|i: int|
            from <= i < now.len() ==> (lo <= kind_of(#[trigger] now[i]) <= hi || lo2 <= kind_of(
                now[i],
            ) <= hi2),
{
    assert forall|i: int, j: int| from <= i < was.len() && was.len() <= j < now.len() implies now[i]
        != now[j] by {
        assert(now[i] == was[i]);
    }
    lemma_distinct_join(was, now, from);
    assert forall|i: int| from <= i < now.len() implies (lo <= kind_of(#[trigger] now[i]) <= hi
        || lo2 <= kind_of(now[i]) <= hi2) by {
        if i < was.len() {
            assert(now[i] == was[i]);
        }
    }
}

impl<'a> MoveGenerator<'a> {
    /// Whether every legal move of the kind `kind` has been found.
    pub open spec fn covers(&self, kind: int) -> bool {
        forall|m: Move| kind_of(m) == kind ==> #[trigger] self.finds(m)
    }

    /// Whether every legal move of the kind `kind` of a piece that does not
    /// stand on a square of `remaining` has been found.
    pub open spec fn covers_but(&self, kind: int, remaining: u64) -> bool {
        forall|m: Move|
            kind_of(m) == kind && !bit(remaining, origin_of(m).0 as u64) ==> #[trigger] self.finds(
                m,
            )
    }

    /// What has been found of a kind of moves stays found.
    proof fn lemma_kind_stays(&self, later: &MoveGenerator<'a>, kind: int)
        requires
            self.grown_to(later),
            self.covers(kind),
        ensures
            later.covers(kind),
    {
        assert forall|m: Move| kind_of(m) == kind implies #[trigger] later.finds(m) by {
            assert(self.finds(m));
            self.lemma_stays_found(later, m);
        }
    }

    /// What has been found of a kind of moves stays found, piece by piece.
    proof fn lemma_kind_grows(
        &self,
        later: &MoveGenerator<'a>,
        kind: int,
        before: u64,
        after: u64,
        origin: Square,
    )
        requires
            self.grown_to(later),
            self.covers_but(kind, before),
            origin.valid(),
            forall|i: u64| i != origin.0 ==> #[trigger] bit(after, i) == bit(before, i),
            forall|m: Move| kind_of(m) == kind && origin_of(m) == origin ==> #[trigger] later.finds(m),
        ensures
            later.covers_but(kind, after),
    {
        assert forall|m: Move|
            kind_of(m) == kind && !bit(after, origin_of(m).0 as u64) implies #[trigger] later.finds(
            m,
        ) by {
            if origin_of(m) != origin {
                assert(self.finds(m));
                self.lemma_stays_found(later, m);
            }
        }
    }

    /// A legal move of a rook, bishop or queen goes to a square that the
    /// tables give as attacked.
    proof fn lemma_slider_reach(&self, origin: Square, dest: Square, piece: Piece, straight: u64, diagonal: u64)
        requires
            self.grounded(),
            piece == Piece::ROOK || piece == Piece::BISHOP || piece == Piece::QUEEN,
            legal(*self.board, Move::NormalMove { origin, dest, piece }),
            piece != Piece::BISHOP ==> straight == self.tables.rook_table.lookup(
                origin.idx(),
                self.any_piece.0,
            ).0,
            piece != Piece::ROOK ==> diagonal == self.tables.bishop_table.lookup(
                origin.idx(),
                self.any_piece.0,
            ).0,
        ensures
            dest.valid(),
            piece == Piece::ROOK ==> bit(straight, dest.0 as u64),
            piece == Piece::BISHOP ==> bit(diagonal, dest.0 as u64),
            piece == Piece::QUEEN ==> bit(straight, dest.0 as u64) || bit(diagonal, dest.0 as u64),
    {
        lemma_attack_is_clear_way(origin, dest, self.any_piece.0);
        if piece != Piece::BISHOP {
            assert(bit(
                self.tables.rook_table.lookup(origin.idx(), self.any_piece.0).0,
                dest.0 as u64,
            ) == rook_ray_has(origin.idx(), self.any_piece.0, dest.idx()));
        }
        if piece != Piece::ROOK {
            assert(bit(
                self.tables.bishop_table.lookup(origin.idx(), self.any_piece.0).0,
                dest.0 as u64,
            ) == bishop_ray_has(origin.idx(), self.any_piece.0, dest.idx()));
        }
    }

    /// What the tables give as attacked by a slider, the piece on the
    /// square attacks.
    proof fn lemma_slider_attacks(&self, origin: Square, piece: Piece, diagonal: bool, attacks: u64)
        requires
            self.grounded(),
            origin.valid(),
            self.board.has_type(piece, origin),
            self.board.has_color(self.us, origin),
            if diagonal {
                (piece == Piece::BISHOP || piece == Piece::QUEEN)
                    && attacks == self.tables.bishop_table.lookup(origin.idx(), self.any_piece.0).0
            } else {
                (piece == Piece::ROOK || piece == Piece::QUEEN)
                    && attacks == self.tables.rook_table.lookup(origin.idx(), self.any_piece.0).0
            },
        ensures
            forall|i: u64|
                i < 64 && #[trigger] bit(attacks, i) ==> self.board.piece_attacks(
                    self.us,
                    origin,
                    Square(i as u8),
                    self.any_piece.0,
                ) && bishop_aligned(origin, Square(i as u8)) == diagonal,
    {
        assert forall|i: u64| i < 64 && #[trigger] bit(attacks, i) implies self.board.piece_attacks(
            self.us,
            origin,
            Square(i as u8),
            self.any_piece.0,
        ) && bishop_aligned(origin, Square(i as u8)) == diagonal by {
            lemma_attack_is_clear_way(origin, Square(i as u8), self.any_piece.0);
            if diagonal {
                assert(bit(
                    self.tables.bishop_table.lookup(origin.idx(), self.any_piece.0).0,
                    i,
                ) == bishop_ray_has(origin.idx(), self.any_piece.0, i as int));
            } else {
                assert(bit(self.tables.rook_table.lookup(origin.idx(), self.any_piece.0).0, i)
                    == rook_ray_has(origin.idx(), self.any_piece.0, i as int));
            }
        }
    }

    /// The moves of the pieces of one kind of slider.
    fn generate_moves_of_sliders(&mut self, piece: Piece)
        requires
            old(self).sound(),
            old(self).scanned(),
            old(self).mode_set(),
            piece == Piece::ROOK || piece == Piece::BISHOP || piece == Piece::QUEEN,
        ensures
            final(self).sound(),
            old(self).grown_to(final(self)),
            final(self).covers(kind_of(Move::NormalMove { origin: Square(0), dest: Square(0), piece })),
            distinct_from(final(self).moves@, old(self).moves@.len() as int),
            forall|i: int|
                old(self).moves@.len() <= i < final(self).moves@.len() ==> kind_of(
                    #[trigger] final(self).moves@[i],
                ) == kind_of(Move::NormalMove { origin: Square(0), dest: Square(0), piece }),
    {
        let ghost kind = kind_of(Move::NormalMove { origin: Square(0), dest: Square(0), piece });
        let our_pieces = self.board.piece_of_color[self.us.slot()].0;
        let occupancy = self.any_piece;
        let start = BitBoard(self.board.piece_of_type[piece.index()].0 & our_pieces);
        let mut remaining = start;
        let ghost from = self.moves@.len() as int;
        proof {
            lemma_distinct_none(self.moves@, from);
            lemma_bit_ops();
            assert forall|m: Move|
                kind_of(m) == kind && !bit(start.0, origin_of(m).0 as u64) implies #[trigger] self.finds(
                m,
            ) by {
                if legal(*self.board, m) {
                    lemma_occupant(*self.board, origin_of(m));
                    assert(self.board.has_type(piece, origin_of(m)));
                }
            }
        }
        while !remaining.empty()
            invariant
                self.sound(),
                self.scanned(),
                self.mode_set(),
                old(self).grown_to(self),
                occupancy == self.any_piece,
                piece == Piece::ROOK || piece == Piece::BISHOP || piece == Piece::QUEEN,
                kind == kind_of(Move::NormalMove { origin: Square(0), dest: Square(0), piece }),
                forall|i: u64|
                    i < 64 && #[trigger] bit(remaining.0, i) ==> self.board.has_color(
                        self.us,
                        Square(i as u8),
                    ) && self.board.has_type(piece, Square(i as u8)),
                self.covers_but(kind, remaining.0),
                from == old(self).moves@.len(),
                distinct_from(self.moves@, from),
                forall|i: int|
                    from <= i < self.moves@.len() ==> kind_of(#[trigger] self.moves@[i]) == kind
                        && !bit(remaining.0, origin_of(self.moves@[i]).0 as u64),
            decreases remaining.0,
        {
            let ghost before = remaining.0;
            let ghost was = *self;
            let origin = remaining.pop_lsb();
            proof {
                lemma_pop_smaller(before);
                assert(bit(before, origin.0 as u64));
            }
            let mut straight = BitBoard(0);
            let mut diagonal = BitBoard(0);
            if piece != Piece::BISHOP {
                straight = self.tables.rook_table.attacks(origin, occupancy);
                proof {
                    self.lemma_slider_attacks(origin, piece, false, straight.0);
                }
                self.generate_slider_moves(origin, piece, straight);
            }
            let ghost mid = *self;
            if piece != Piece::ROOK {
                diagonal = self.tables.bishop_table.attacks(origin, occupancy);
                proof {
                    self.lemma_slider_attacks(origin, piece, true, diagonal.0);
                }
                self.generate_slider_moves(origin, piece, diagonal);
            }
            proof {
                assert forall|m: Move|
                    kind_of(m) == kind && origin_of(m) == origin implies #[trigger] self.finds(m) by {
                    if legal(*self.board, m) {
                        let dest = dest_of(m);
                        assert(m == Move::NormalMove { origin, dest, piece });
                        self.lemma_slider_reach(origin, dest, piece, straight.0, diagonal.0);
                        if piece != Piece::BISHOP && bit(straight.0, dest.0 as u64) {
                            assert(mid.finds(m));
                            mid.lemma_stays_found(self, m);
                        }
                    }
                }
                was.lemma_kind_grows(self, kind, before, remaining.0, origin);
                assert forall|i: int, j: int|
                    was.moves@.len() <= i < mid.moves@.len() && mid.moves@.len() <= j
                        < self.moves@.len() implies self.moves@[i] != self.moves@[j] by {
                    assert(self.moves@[i] == mid.moves@[i]);
                    assert(bit(straight.0, dest_of(mid.moves@[i]).0 as u64));
                    assert(bit(diagonal.0, dest_of(self.moves@[j]).0 as u64));
                }
                if piece == Piece::BISHOP {
                    lemma_distinct_none(mid.moves@, was.moves@.len() as int);
                }
                if piece == Piece::ROOK {
                    lemma_distinct_none(self.moves@, mid.moves@.len() as int);
                }
                lemma_distinct_join(mid.moves@, self.moves@, was.moves@.len() as int);
                assert forall|j: int| was.moves@.len() <= j < self.moves@.len() implies kind_of(
                    #[trigger] self.moves@[j],
                ) == kind && origin_of(self.moves@[j]) == origin by {
                    if j < mid.moves@.len() {
                        assert(self.moves@[j] == mid.moves@[j]);
                    }
                }
                lemma_origin_joins(was.moves@, self.moves@, from, kind, before, origin);
            }
        }
        proof {
            lemma_bit_ops();
            assert forall|m: Move| kind_of(m) == kind implies #[trigger] self.finds(m) by {
            }
        }
    }

    /// The moves of the pawns.
    fn generate_moves_of_pawns(&mut self)
        requires
            old(self).sound(),
            old(self).scanned(),
            old(self).mode_set(),
        ensures
            final(self).sound(),
            old(self).grown_to(final(self)),
            final(self).covers(3),
            distinct_from(final(self).moves@, old(self).moves@.len() as int),
            forall|i: int|
                old(self).moves@.len() <= i < final(self).moves@.len() ==> kind_of(
                    #[trigger] final(self).moves@[i],
                ) == 3,
    {
        let our_pieces = self.board.piece_of_color[self.us.slot()].0;
        let start = BitBoard(self.board.piece_of_type[0].0 & our_pieces);
        let mut remaining = start;
        let ghost from = self.moves@.len() as int;
        proof {
            lemma_distinct_none(self.moves@, from);
            lemma_bit_ops();
            assert forall|m: Move|
                kind_of(m) == 3 && !bit(start.0, origin_of(m).0 as u64) implies #[trigger] self.finds(
                m,
            ) by {
                if legal(*self.board, m) {
                    lemma_occupant(*self.board, origin_of(m));
                    assert(self.board.has_type(Piece::PAWN, origin_of(m)));
                }
            }
        }
        while !remaining.empty()
            invariant
                self.sound(),
                self.scanned(),
                self.mode_set(),
                old(self).grown_to(self),
                forall|i: u64|
                    i < 64 && #[trigger] bit(remaining.0, i) ==> self.board.has_color(
                        self.us,
                        Square(i as u8),
                    ) && self.board.has_type(Piece::PAWN, Square(i as u8)),
                self.covers_but(3, remaining.0),
                from == old(self).moves@.len(),
                distinct_from(self.moves@, from),
                forall|i: int|
                    from <= i < self.moves@.len() ==> kind_of(#[trigger] self.moves@[i]) == 3
                        && !bit(remaining.0, origin_of(self.moves@[i]).0 as u64),
            decreases remaining.0,
        {
            let ghost before = remaining.0;
            let ghost was = *self;
            let sq = remaining.pop_lsb();
            proof {
                lemma_pop_smaller(before);
                assert(bit(before, sq.0 as u64));
            }
            let bb = BitBoard::from_square(sq);
            self.generate_pawn_moves(sq, bb);
            proof {
                assert forall|m: Move|
                    kind_of(m) == 3 && origin_of(m) == sq implies #[trigger] self.finds(m) by {
                    if legal(*self.board, m) {
                        let dest = dest_of(m);
                        assert(dest.valid());
                        assert(self.finds_capture(sq, dest));
                        match m {
                            Move::Promotion { origin, dest, piece } => {
                                assert(self.finds(Move::Promotion { origin: sq, dest, piece }));
                            },
                            Move::EnPassant { origin, dest, capture } => {
                                assert(self.finds(Move::EnPassant { origin: sq, dest, capture }));
                            },
                            _ => {},
                        }
                    }
                }
                was.lemma_kind_grows(self, 3, before, remaining.0, sq);
                lemma_run_facts(self.moves@, was.moves@.len() as int, sq, Set::full());
                lemma_origin_joins(was.moves@, self.moves@, from, 3, before, sq);
            }
        }
        proof {
            lemma_bit_ops();
            assert forall|m: Move| kind_of(m) == 3 implies #[trigger] self.finds(m) by {
            }
        }
    }

    /// The moves of the knights that are not pinned.
    fn generate_moves_of_knights(&mut self)
        requires
            old(self).sound(),
            old(self).scanned(),
            old(self).mode_set(),
        ensures
            final(self).sound(),
            old(self).grown_to(final(self)),
            final(self).covers(4),
            distinct_from(final(self).moves@, old(self).moves@.len() as int),
            forall|i: int|
                old(self).moves@.len() <= i < final(self).moves@.len() ==> kind_of(
                    #[trigger] final(self).moves@[i],
                ) == 4,
    {
        let our_pieces = self.board.piece_of_color[self.us.slot()].0;
        let start = BitBoard(self.board.piece_of_type[1].0 & our_pieces & !self.pinned.0);
        let mut remaining = start;
        let ghost from = self.moves@.len() as int;
        proof {
            lemma_distinct_none(self.moves@, from);
            lemma_bit_ops();
            assert forall|m: Move|
                kind_of(m) == 4 && !bit(start.0, origin_of(m).0 as u64) implies #[trigger] self.finds(
                m,
            ) by {
                if legal(*self.board, m) {
                    let origin = origin_of(m);
                    let dest = dest_of(m);
                    lemma_occupant(*self.board, origin);
                    assert(self.board.has_type(Piece::KNIGHT, origin));
                    self.lemma_legal_is_admitted(m, origin, dest);
                    lemma_knight_leaves_line(origin, self.king_sq, dest);
                }
            }
        }
        while !remaining.empty()
            invariant
                self.sound(),
                self.scanned(),
                self.mode_set(),
                old(self).grown_to(self),
                forall|i: u64|
                    i < 64 && #[trigger] bit(remaining.0, i) ==> self.board.has_color(
                        self.us,
                        Square(i as u8),
                    ) && self.board.has_type(Piece::KNIGHT, Square(i as u8)) && !bit(
                        self.pinned.0,
                        i,
                    ),
                self.covers_but(4, remaining.0),
                from == old(self).moves@.len(),
                distinct_from(self.moves@, from),
                forall|i: int|
                    from <= i < self.moves@.len() ==> kind_of(#[trigger] self.moves@[i]) == 4
                        && !bit(remaining.0, origin_of(self.moves@[i]).0 as u64),
            decreases remaining.0,
        {
            let ghost before = remaining.0;
            let ghost was = *self;
            let origin = remaining.pop_lsb();
            proof {
                lemma_pop_smaller(before);
                assert(bit(before, origin.0 as u64));
            }
            self.generate_knight_moves(origin);
            proof {
                assert forall|m: Move|
                    kind_of(m) == 4 && origin_of(m) == origin implies #[trigger] self.finds(m) by {
                    let dest = dest_of(m);
                    assert(m == Move::NormalMove { origin, dest, piece: Piece::KNIGHT });
                }
                was.lemma_kind_grows(self, 4, before, remaining.0, origin);
                lemma_origin_joins(was.moves@, self.moves@, from, 4, before, origin);
            }
        }
        proof {
            lemma_bit_ops();
            assert forall|m: Move| kind_of(m) == 4 implies #[trigger] self.finds(m) by {
            }
        }
    }

    /// The moves of the rooks, bishops, queens, pawns and knights.
    fn generate_non_king_moves(&mut self)
        requires
            old(self).sound(),
            old(self).scanned(),
            old(self).mode_set(),
        ensures
            final(self).sound(),
            old(self).grown_to(final(self)),
            forall|kind: int| 0 <= kind <= 4 ==> #[trigger] final(self).covers(kind),
            distinct_from(final(self).moves@, old(self).moves@.len() as int),
            forall|i: int|
                old(self).moves@.len() <= i < final(self).moves@.len() ==> 0 <= kind_of(
                    #[trigger] final(self).moves@[i],
                ) <= 4,
    {
        let ghost from = self.moves@.len() as int;
        self.generate_moves_of_sliders(Piece::ROOK);
        let ghost rooks = *self;
        self.generate_moves_of_sliders(Piece::BISHOP);
        let ghost bishops = *self;
        proof {
            lemma_kinds_join(rooks.moves@, bishops.moves@, from, 0, 0, 1, 1);
        }
        self.generate_moves_of_sliders(Piece::QUEEN);
        let ghost queens = *self;
        proof {
            lemma_kinds_join(bishops.moves@, queens.moves@, from, 0, 1, 2, 2);
        }
        self.generate_moves_of_pawns();
        let ghost pawns = *self;
        proof {
            lemma_kinds_join(queens.moves@, pawns.moves@, from, 0, 2, 3, 3);
        }
        self.generate_moves_of_knights();
        proof {
            lemma_kinds_join(pawns.moves@, self.moves@, from, 0, 3, 4, 4);
        }
        proof {
            rooks.lemma_kind_stays(self, 0);
            bishops.lemma_kind_stays(self, 1);
            queens.lemma_kind_stays(self, 2);
            pawns.lemma_kind_stays(self, 3);
        }
    }

    /// One piece alone gives check if the checkers have one member, none
    /// if they have none, two different ones if they have two, and they do
    /// not have three.
    proof fn lemma_mode(&self, count: u32) -> (pair: (Square, Square))
        requires
            self.grounded(),
            self.scanned(),
            count == count_bits(self.checkers.0, 64),
        ensures
            count == 0 <==> self.checkers.0 == 0,
            count == 1 ==> forall|c1: Square, c2: Square|
                c1.valid() && c2.valid() && #[trigger] bit(self.checkers.0, c1.0 as u64)
                    && #[trigger] bit(self.checkers.0, c2.0 as u64) ==> c1 == c2,
            count <= 2,
            count == 2 ==> pair.0.valid() && pair.1.valid() && pair.0 != pair.1 && gives_check(
                *self.board,
                pair.0,
            ) && gives_check(*self.board, pair.1),
    {
        let x = self.checkers.0;
        let b = *self.board;
        lemma_count_small(x);
        if x != 0 {
            lemma_pop_lowest(x);
            let y = x & ((x - 1) as u64);
            let i = vstd::std_specs::bits::u64_trailing_zeros(x) as u64;
            if count == 1 {
                lemma_bit_ops();
                assert forall|c1: Square, c2: Square|
                    c1.valid() && c2.valid() && #[trigger] bit(x, c1.0 as u64) && #[trigger] bit(
                        x,
                        c2.0 as u64,
                    ) implies c1 == c2 by {
                    assert(!bit(y, c1.0 as u64));
                    assert(!bit(y, c2.0 as u64));
                }
            }
            if count >= 2 {
                lemma_pop_lowest(y);
                let j = vstd::std_specs::bits::u64_trailing_zeros(y) as u64;
                assert(bit(x, i) && bit(x, j) && i != j);
                assert(gives_check(b, Square(i as u8)));
                assert(gives_check(b, Square(j as u8)));
                if count >= 3 {
                    let z = y & ((y - 1) as u64);
                    lemma_nonzero_bit(z);
                    let k = choose|k: u64| k < 64 && bit(z, k);
                    assert(bit(x, k));
                    assert(j != k && i != k);
                    assert(gives_check(b, Square(k as u8)));
                }
                return (Square(i as u8), Square(j as u8));
            }
        }
        (Square(0), Square(0))
    }

    /// A position in which a piece gives check is one in which the king is
    /// in check, in which no castling is legal.
    proof fn lemma_no_castling_in_check(&self, m: Move)
        requires
            self.grounded(),
            self.scanned(),
            self.checkers.0 != 0,
            castling_of(m) is Some,
        ensures
            !legal(*self.board, m),
    {
        let b = *self.board;
        lemma_nonzero_bit(self.checkers.0);
        let i = choose|i: u64| i < 64 && bit(self.checkers.0, i);
        assert(bit(self.checkers.0, Square(i as u8).0 as u64));
        assert(gives_check(b, Square(i as u8)));
        crate::legality::lemma_attacked_view(
            b,
            b.side_to_play.opposite(),
            our_king(b),
            b.occupancy(),
        );
    }

    /// Finds the legal moves of the side to move and returns them; they
    /// are also in `moves`. Each of them fits the position, so that
    /// `make_move` takes it, and leaves the king of the side that moves
    /// out of check; and every legal move is among them. No move is found
    /// twice: on a generator that has found nothing yet, the list holds
    /// each legal move once.
    pub fn generate(&mut self) -> (res: &Vec<Move>)
        requires
            old(self).sound(),
            old(self).checkers.0 == 0,
            old(self).block_mask.0 == 0,
            old(self).pinned.0 == 0,
            !old(self).evasive,
        ensures
            final(self).sound(),
            final(self).same_setup(old(self)),
            res == final(self).moves,
            forall|m: Move| legal(*final(self).board, m) <==> #[trigger] res@.contains(m),
            forall|i: int, j: int|
                old(self).moves@.len() <= i < j < res@.len() ==> res@[i] != res@[j],
            old(self).moves@.len() == 0 ==> res@.no_duplicates(),
    {
        let ghost from = self.moves@.len() as int;
        self.scan_board();
        self.generate_king_moves();
        let ghost kings = *self;
        let num_checkers = self.checkers.num_squares();
        let ghost pair = (Square(0), Square(0));
        proof {
            pair = self.lemma_mode(num_checkers);
        }
        if num_checkers == 2 {
            proof {
                self.lemma_covers_all_in_double_check(pair.0, pair.1);
                reveal(distinct_from);
                if from == 0 {
                    lemma_distinct_all(self.moves@);
                }
            }
            return &self.moves;
        } else if num_checkers == 1 {
            self.evasive = true;
            self.generate_non_king_moves();
            proof {
                lemma_kinds_join(kings.moves@, self.moves@, from, 5, 5, 0, 4);
            }
        } else {
            self.generate_non_king_moves();
            let ghost pieces = *self;
            proof {
                lemma_kinds_join(kings.moves@, pieces.moves@, from, 5, 5, 0, 4);
            }
            self.generate_castles();
            proof {
                lemma_kinds_join(pieces.moves@, self.moves@, from, 0, 5, 6, 6);
                assert(pieces.covers(0) && pieces.covers(1) && pieces.covers(2) && pieces.covers(3)
                    && pieces.covers(4));
                pieces.lemma_kind_stays(self, 0);
                pieces.lemma_kind_stays(self, 1);
                pieces.lemma_kind_stays(self, 2);
                pieces.lemma_kind_stays(self, 3);
                pieces.lemma_kind_stays(self, 4);
            }
        }
        proof {
            let b = *self.board;
            assert forall|m: Move| legal(b, m) implies #[trigger] self.moves@.contains(m) by {
                let kind = kind_of(m);
                if kind == 5 {
                    lemma_occupant(b, origin_of(m));
                    assert(m == Move::NormalMove {
                        origin: self.king_sq,
                        dest: dest_of(m),
                        piece: Piece::KING,
                    });
                    assert(kings.finds(m));
                    if num_checkers == 1 {
                        let armed = MoveGenerator { evasive: true, ..kings };
                        assert(armed.finds(m));
                        armed.lemma_stays_found(self, m);
                    } else {
                        kings.lemma_stays_found(self, m);
                    }
                } else if kind == 6 {
                    if num_checkers == 1 {
                        self.lemma_no_castling_in_check(m);
                    } else {
                        assert(self.finds(m));
                    }
                } else if kind != 7 {
                    assert(self.covers(kind));
                    assert(self.finds(m));
                }
            }
            if from == 0 {
                lemma_distinct_all(self.moves@);
            }
            reveal(distinct_from);
        }
        &self.moves
    }

    /// In check from two pieces every legal move is a move of the king.
    proof fn lemma_covers_all_in_double_check(&self, c1: Square, c2: Square)
        requires
            self.grounded(),
            self.scanned(),
            c1.valid(),
            c2.valid(),
            c1 != c2,
            gives_check(*self.board, c1),
            gives_check(*self.board, c2),
            forall|dest: Square|
                #[trigger] self.finds(
                    Move::NormalMove { origin: self.king_sq, dest, piece: Piece::KING },
                ),
        ensures
            forall|m: Move| legal(*self.board, m) ==> #[trigger] self.moves@.contains(m),
    {
        let b = *self.board;
        assert forall|m: Move| legal(b, m) implies #[trigger] self.moves@.contains(m) by {
            let kind = kind_of(m);
            if kind == 5 {
                lemma_occupant(b, origin_of(m));
                assert(m == Move::NormalMove {
                    origin: self.king_sq,
                    dest: dest_of(m),
                    piece: Piece::KING,
                });
                assert(self.finds(m));
            } else if kind == 6 {
                assert(bit(self.checkers.0, c1.0 as u64));
                lemma_bit_ops();
                self.lemma_no_castling_in_check(m);
            } else if kind != 7 {
                lemma_double_check(b, m, origin_of(m), dest_of(m), c1, c2);
            }
        }
    }
}

} // verus!
