//! The position: where the pieces stand, whose turn it is, and what
//! castling and en-passant capture are still open.
use vstd::prelude::*;
use crate::placing::lemma_king_keeps;
use crate::placing::lemma_move_keeps;
use crate::placing::lemma_move_squares;
use crate::placing::lemma_put_squares;
use crate::placing::lemma_put_keeps;
use crate::bitboard::BitBoard;
use crate::bitboard_attacks::king_attacks;
use crate::bitboard_attacks::king_has;
use crate::bitboard_attacks::knight_attacks;
use crate::bitboard_attacks::knight_has;
use crate::bitboard_attacks::pawn_attacks;
use crate::bitboard_attacks::pawn_has;
use crate::bitboard_constants::BB_A1;
use crate::bitboard_constants::BB_A8;
use crate::bitboard_constants::BB_C1;
use crate::bitboard_constants::BB_C8;
use crate::bitboard_constants::BB_D1;
use crate::bitboard_constants::BB_D8;
use crate::bitboard_constants::BB_E1;
use crate::bitboard_constants::BB_E8;
use crate::bitboard_constants::BB_F1;
use crate::bitboard_constants::BB_F8;
use crate::bitboard_constants::BB_G1;
use crate::bitboard_constants::BB_G8;
use crate::bitboard_constants::BB_H1;
use crate::bitboard_constants::BB_H8;
use crate::bitboard_constants::FILE_A;
use crate::bitboard_constants::FILE_B;
use crate::bitboard_constants::FILE_C;
use crate::bitboard_constants::FILE_D;
use crate::bitboard_constants::FILE_F;
use crate::bitboard_constants::FILE_G;
use crate::bitboard_constants::FILE_H;
use crate::bitboard_constants::RANK_1;
use crate::bitboard_constants::RANK_2;
use crate::bitboard_constants::RANK_4;
use crate::bitboard_constants::RANK_5;
use crate::bitboard_constants::RANK_7;
use crate::bitboard_constants::RANK_8;
use crate::bits::bit;
use crate::bits::lemma_bit_ops;
use crate::bits::lemma_nonzero_bit;
use crate::bits::lemma_single_bit;
use crate::bits::lemma_initial_bits;
use crate::magic_bitboard::bishop_attacks;
use crate::magic_bitboard::bishop_ray_has;
use crate::magic_bitboard::lemma_slider_symmetric;
use crate::magic_bitboard::rook_attacks;
use crate::magic_bitboard::rook_ray_has;
use crate::moves::Move;
use crate::pieces::Color;
use crate::pieces::Piece;
use crate::pieces::DOWN;
use crate::pieces::UP;
use crate::square::Square;
use crate::text::digit;
use crate::text::digit_char;
use crate::text::push_char;
use crate::square_constants::SQ_C1;
use crate::square_constants::SQ_C8;
use crate::square_constants::SQ_E1;
use crate::square_constants::SQ_E8;
use crate::square_constants::SQ_G1;
use crate::square_constants::SQ_G8;

verus! {

/// A position. The sets of the pawns, knights, bishops, rooks and queens
/// hold the pieces of both colours; the kings are kept by their squares
/// alone and are in no such set, but each is in the set of its colour.
#[verifier::ext_equal]
#[derive(Eq, PartialEq, Debug, Copy, Clone)]
pub struct Board {
    pub piece_of_color: [BitBoard; 2],
    pub piece_of_type: [BitBoard; 5],
    pub king_pos: [Square; 2],
    pub en_passant: Option<Square>,
    pub can_castle_king_side: [bool; 2],
    pub can_castle_queen_side: [bool; 2],
    pub side_to_play: Color,
    pub half_move_counter: u8,
}

/// The set with the single member `sq`, as a word.
pub open spec fn square_bit(sq: Square) -> u64 {
    1u64 << (sq.0 as u64)
}

/// The four corners of the board.
pub const CORNERS: u64 = 0x8100000000000081;

impl Board {
    /// The squares of the pieces of colour `c`, as a word.
    pub open spec fn color_bits(self, c: Color) -> u64 {
        self.piece_of_color[c.idx()].0
    }

    /// The squares of the pieces of type `p`, which is not the king, as a
    /// word.
    pub open spec fn type_bits(self, p: Piece) -> u64 {
        self.piece_of_type[p.idx()].0
    }

    /// The square of the king of colour `c`.
    pub open spec fn king_sq(self, c: Color) -> Square {
        self.king_pos[c.idx()]
    }

    /// The squares that the position names are on the board.
    pub open spec fn wf(self) -> bool {
        &&& self.king_pos[0].valid()
        &&& self.king_pos[1].valid()
        &&& self.en_passant matches Some(sq) ==> sq.valid()
    }

    /// Whether a piece of type `p`, which is not the king, stands on `s`.
    pub open spec fn has_type(self, p: Piece, s: Square) -> bool {
        bit(self.type_bits(p), s.0 as u64)
    }

    /// Whether a piece of colour `c` stands on `s`.
    pub open spec fn has_color(self, c: Color, s: Square) -> bool {
        bit(self.color_bits(c), s.0 as u64)
    }

    /// Whether any of the five sets of piece types holds `s`.
    pub open spec fn has_any_type(self, s: Square) -> bool {
        self.has_type(Piece::PAWN, s) || self.has_type(Piece::KNIGHT, s) || self.has_type(
            Piece::BISHOP,
            s,
        ) || self.has_type(Piece::ROOK, s) || self.has_type(Piece::QUEEN, s)
    }

    /// The sets fit together: no square holds pieces of both colours or of
    /// two types, the kings stand on different squares, each in the set of
    /// its colour and in no set of a type, and a square has a colour
    /// exactly when it has a type or a king.
    pub open spec fn consistent(self) -> bool {
        &&& self.wf()
        &&& self.king_pos[0] != self.king_pos[1]
        &&& self.has_color(Color::WHITE, self.king_pos[0])
        &&& self.has_color(Color::BLACK, self.king_pos[1])
        &&& forall|s: Square|
            s.valid() ==> !(#[trigger] self.has_color(Color::WHITE, s) && self.has_color(
                Color::BLACK,
                s,
            ))
        &&& forall|s: Square, p: Piece, q: Piece|
            s.valid() && p != q && p != Piece::KING && q != Piece::KING ==> !(
            #[trigger] self.has_type(p, s) && #[trigger] self.has_type(q, s))
        &&& forall|s: Square|
            s.valid() ==> (#[trigger] self.has_any_type(s) ==> s != self.king_pos[0] && s
                != self.king_pos[1])
        &&& forall|s: Square|
            s.valid() ==> (self.has_color(Color::WHITE, s) || self.has_color(Color::BLACK, s)) == (
            #[trigger] self.has_any_type(s) || s == self.king_pos[0] || s == self.king_pos[1])
    }

    /// The piece on `s`, if any.
    pub open spec fn piece_on(self, s: Square) -> Option<Piece> {
        if s == self.king_pos[0] || s == self.king_pos[1] {
            Some(Piece::KING)
        } else if self.has_type(Piece::PAWN, s) {
            Some(Piece::PAWN)
        } else if self.has_type(Piece::KNIGHT, s) {
            Some(Piece::KNIGHT)
        } else if self.has_type(Piece::BISHOP, s) {
            Some(Piece::BISHOP)
        } else if self.has_type(Piece::ROOK, s) {
            Some(Piece::ROOK)
        } else if self.has_type(Piece::QUEEN, s) {
            Some(Piece::QUEEN)
        } else {
            None
        }
    }

    /// The colour of the piece on `s`, if any.
    pub open spec fn color_on(self, s: Square) -> Option<Color> {
        if self.has_color(Color::WHITE, s) {
            Some(Color::WHITE)
        } else if self.has_color(Color::BLACK, s) {
            Some(Color::BLACK)
        } else {
            None
        }
    }

    pub fn en_passant(&self) -> (res: Option<Square>)
        ensures
            res == self.en_passant,
    {
        self.en_passant
    }

    /// The board with the two kings and nothing else, white to move.
    pub fn empty(white_king: Square, black_king: Square) -> (res: Board)
        requires
            white_king.valid(),
            black_king.valid(),
        ensures
            res.wf(),
            res.king_pos[0] == white_king,
            res.king_pos[1] == black_king,
            res.piece_of_color[0].0 == square_bit(white_king),
            res.piece_of_color[1].0 == square_bit(black_king),
            forall|p: Piece| p != Piece::KING ==> #[trigger] res.type_bits(p) == 0,
            res.en_passant is None,
            res.can_castle_king_side == [false, false],
            res.can_castle_queen_side == [false, false],
            res.side_to_play == Color::WHITE,
            res.half_move_counter == 0,
            white_king != black_king ==> res.consistent(),
    {
        proof {
            lemma_bit_ops();
        }
        Board {
            piece_of_color: [BitBoard::from_square(white_king), BitBoard::from_square(black_king)],
            piece_of_type: [BitBoard(0); 5],
            king_pos: [white_king, black_king],
            en_passant: None,
            can_castle_king_side: [false, false],
            can_castle_queen_side: [false, false],
            side_to_play: Color::WHITE,
            half_move_counter: 0,
        }
    }

    /// The position at the start of a game.
    pub fn from_initial_position() -> (res: Board)
        ensures
            res.wf(),
            res.piece_of_color[0].0 == 0x0000_0000_0000_FFFF,
            res.piece_of_color[1].0 == 0xFFFF_0000_0000_0000,
            res.piece_of_type[0].0 == 0x00FF_0000_0000_FF00,
            res.piece_of_type[1].0 == 0x4200_0000_0000_0042,
            res.piece_of_type[2].0 == 0x2400_0000_0000_0024,
            res.piece_of_type[3].0 == 0x8100_0000_0000_0081,
            res.piece_of_type[4].0 == 0x0800_0000_0000_0008,
            res.king_pos[0] == Square(SQ_E1),
            res.king_pos[1] == Square(SQ_E8),
            res.en_passant is None,
            res.can_castle_king_side == [true, true],
            res.can_castle_queen_side == [true, true],
            res.side_to_play == Color::WHITE,
            res.half_move_counter == 0,
            res.consistent(),
    {
        let rank_1_8: u64 = RANK_1 | RANK_8;
        let res = Board {
            side_to_play: Color::WHITE,
            can_castle_king_side: [true, true],
            can_castle_queen_side: [true, true],
            en_passant: None,
            piece_of_color: [BitBoard(RANK_1 | RANK_2), BitBoard(RANK_7 | RANK_8)],
            piece_of_type: [
                BitBoard(RANK_2 | RANK_7),
                BitBoard((FILE_B | FILE_G) & rank_1_8),
                BitBoard((FILE_C | FILE_F) & rank_1_8),
                BitBoard((FILE_A | FILE_H) & rank_1_8),
                BitBoard(FILE_D & rank_1_8),
            ],
            king_pos: [Square(SQ_E1), Square(SQ_E8)],
            half_move_counter: 0,
        };
        proof {
            lemma_initial_sets(
                res.piece_of_color[0].0,
                res.piece_of_color[1].0,
                res.piece_of_type[0].0,
                res.piece_of_type[1].0,
                res.piece_of_type[2].0,
                res.piece_of_type[3].0,
                res.piece_of_type[4].0,
            );
            lemma_initial_bits();
            assert(res.consistent());
        }
        res
    }
}

impl Board {
    /// The position with the set of colour `c` replaced.
    pub open spec fn with_color(self, c: Color, bits: u64) -> Board {
        Board {
            piece_of_color: if c == Color::WHITE {
                [BitBoard(bits), self.piece_of_color[1]]
            } else {
                [self.piece_of_color[0], BitBoard(bits)]
            },
            ..self
        }
    }

    /// The position with the set of type `p` replaced; unchanged for the
    /// king, which has no set.
    pub open spec fn with_type(self, p: Piece, bits: u64) -> Board {
        let t = self.piece_of_type;
        Board {
            piece_of_type: match p {
                Piece::PAWN => [BitBoard(bits), t[1], t[2], t[3], t[4]],
                Piece::KNIGHT => [t[0], BitBoard(bits), t[2], t[3], t[4]],
                Piece::BISHOP => [t[0], t[1], BitBoard(bits), t[3], t[4]],
                Piece::ROOK => [t[0], t[1], t[2], BitBoard(bits), t[4]],
                Piece::QUEEN => [t[0], t[1], t[2], t[3], BitBoard(bits)],
                Piece::KING => t,
            },
            ..self
        }
    }

    /// The position with the square of the king of colour `c` replaced.
    pub open spec fn with_king(self, c: Color, sq: Square) -> Board {
        Board {
            king_pos: if c == Color::WHITE {
                [sq, self.king_pos[1]]
            } else {
                [self.king_pos[0], sq]
            },
            ..self
        }
    }

    /// The position in which colour `c` may no longer castle.
    pub open spec fn without_castling(self, c: Color) -> Board {
        Board {
            can_castle_king_side: if c == Color::WHITE {
                [false, self.can_castle_king_side[1]]
            } else {
                [self.can_castle_king_side[0], false]
            },
            can_castle_queen_side: if c == Color::WHITE {
                [false, self.can_castle_queen_side[1]]
            } else {
                [self.can_castle_queen_side[0], false]
            },
            ..self
        }
    }

    /// What `set_king_pos_fast` makes of the position.
    pub open spec fn spec_set_king_pos_fast(self, c: Color, sq: Square, bb: BitBoard) -> Board {
        self.with_color(c, (self.color_bits(c) & !square_bit(self.king_sq(c))) | bb.0).with_king(
            c,
            sq,
        )
    }

    /// Moves the king of `color` to `square`, of which `square_bb` is the
    /// set, without a look at what stands there.
    pub fn set_king_pos_fast(&mut self, color: Color, square: Square, square_bb: BitBoard)
        requires
            old(self).king_sq(color).valid(),
        ensures
            *final(self) == old(self).spec_set_king_pos_fast(color, square, square_bb),
    {
        let c = color.slot();
        let without = self.piece_of_color[c].0 & !(1u64 << self.king_pos[c].0);
        self.king_pos[c] = square;
        self.piece_of_color[c] = BitBoard(without | square_bb.0);
        assert(self.piece_of_color =~= old(self).spec_set_king_pos_fast(
            color,
            square,
            square_bb,
        ).piece_of_color);
        assert(self.king_pos =~= old(self).spec_set_king_pos_fast(
            color,
            square,
            square_bb,
        ).king_pos);
    }
}

impl Board {
    /// What `remove_piece_fast` makes of the position: every set of a
    /// colour or a type intersected with `keep`.
    pub open spec fn spec_remove_piece_fast(self, keep: BitBoard) -> Board {
        let c = self.piece_of_color;
        let t = self.piece_of_type;
        Board {
            piece_of_color: [BitBoard(c[0].0 & keep.0), BitBoard(c[1].0 & keep.0)],
            piece_of_type: [
                BitBoard(t[0].0 & keep.0),
                BitBoard(t[1].0 & keep.0),
                BitBoard(t[2].0 & keep.0),
                BitBoard(t[3].0 & keep.0),
                BitBoard(t[4].0 & keep.0),
            ],
            ..self
        }
    }

    /// Takes every piece but the kings off the squares outside
    /// `square_bb_inv`.
    pub fn remove_piece_fast(&mut self, square_bb_inv: BitBoard)
        ensures
            *final(self) == old(self).spec_remove_piece_fast(square_bb_inv),
    {
        let keep = square_bb_inv.0;
        self.piece_of_color[0] = BitBoard(self.piece_of_color[0].0 & keep);
        self.piece_of_color[1] = BitBoard(self.piece_of_color[1].0 & keep);
        self.piece_of_type[0] = BitBoard(self.piece_of_type[0].0 & keep);
        self.piece_of_type[1] = BitBoard(self.piece_of_type[1].0 & keep);
        self.piece_of_type[2] = BitBoard(self.piece_of_type[2].0 & keep);
        self.piece_of_type[3] = BitBoard(self.piece_of_type[3].0 & keep);
        self.piece_of_type[4] = BitBoard(self.piece_of_type[4].0 & keep);
        assert(self.piece_of_color =~= old(self).spec_remove_piece_fast(
            square_bb_inv,
        ).piece_of_color);
        assert(self.piece_of_type =~= old(self).spec_remove_piece_fast(
            square_bb_inv,
        ).piece_of_type);
    }

    /// What `put_piece_fast` makes of the position: the squares of
    /// `square_bb` joined to the set of the colour and to that of the type.
    pub open spec fn spec_put_piece_fast(self, piece: Piece, color: Color, square_bb: BitBoard)
        -> Board {
        self.with_color(color, self.color_bits(color) | square_bb.0).with_type(
            piece,
            self.type_bits(piece) | square_bb.0,
        )
    }

    /// Puts a piece that is not a king on the squares of `square_bb`,
    /// without a look at what stands there.
    pub fn put_piece_fast(&mut self, piece: Piece, color: Color, square_bb: BitBoard)
        requires
            piece != Piece::KING,
        ensures
            *final(self) == old(self).spec_put_piece_fast(piece, color, square_bb),
    {
        let c = color.slot();
        let p = piece.index();
        self.piece_of_color[c] = BitBoard(self.piece_of_color[c].0 | square_bb.0);
        self.piece_of_type[p] = BitBoard(self.piece_of_type[p].0 | square_bb.0);
        assert(self.piece_of_color =~= old(self).spec_put_piece_fast(
            piece,
            color,
            square_bb,
        ).piece_of_color);
        assert(self.piece_of_type =~= old(self).spec_put_piece_fast(
            piece,
            color,
            square_bb,
        ).piece_of_type);
    }

    /// Whether any set of a piece type meets `bb`.
    fn any_type_meets(&self, bb: BitBoard) -> (res: bool)
        ensures
            res == (self.piece_of_type[0].0 & bb.0 != 0 || self.piece_of_type[1].0 & bb.0 != 0
                || self.piece_of_type[2].0 & bb.0 != 0 || self.piece_of_type[3].0 & bb.0 != 0
                || self.piece_of_type[4].0 & bb.0 != 0),
    {
        let mut i: usize = 0;
        while i < 5
            invariant
                i <= 5,
                forall|k: int| 0 <= k < i ==> (#[trigger] self.piece_of_type[k]).0 & bb.0 == 0,
            decreases 5 - i,
        {
            if self.piece_of_type[i].intersects(bb) {
                return true;
            }
            i += 1;
        }
        assert(self.piece_of_type[0].0 & bb.0 == 0);
        assert(self.piece_of_type[1].0 & bb.0 == 0);
        assert(self.piece_of_type[2].0 & bb.0 == 0);
        assert(self.piece_of_type[3].0 & bb.0 == 0);
        assert(self.piece_of_type[4].0 & bb.0 == 0);
        false
    }

    /// Moves the king of `color` to `square`, unless the other king or
    /// another piece stands there.
    pub fn set_king_pos(&mut self, color: Color, square: Square) -> (res: Result<(), ()>)
        requires
            old(self).wf(),
            square.valid(),
        ensures
            res is Err <==> (old(self).king_sq(color.opposite()) == square || old(
                self,
            ).has_any_type(square)),
            res is Err ==> *final(self) == *old(self),
            res is Ok ==> *final(self) == old(self).spec_set_king_pos_fast(
                color,
                square,
                BitBoard(square_bit(square)),
            ),
            res is Ok && old(self).consistent() ==> final(self).consistent(),
    {
        if self.king_pos[color.opposite().slot()] == square {
            return Err(());
        }
        let square_bb = BitBoard::from_square(square);
        proof {
            lemma_single_bit();
            if self.consistent() && !self.has_any_type(square) {
                lemma_king_keeps(*self, color, square);
            }
        }
        if self.any_type_meets(square_bb) {
            return Err(());
        }
        self.set_king_pos_fast(color, square, square_bb);
        Ok(())
    }

    /// What `move_piece` makes of a position in which it moves the piece.
    pub open spec fn spec_move_piece(self, origin: Square, dest: Square, piece: Piece, color: Color)
        -> Board {
        if self.king_sq(color) == origin {
            self.spec_remove_piece_fast(BitBoard(!square_bit(dest))).spec_set_king_pos_fast(
                color,
                dest,
                BitBoard(square_bit(dest)),
            )
        } else {
            self.spec_remove_piece_fast(BitBoard(!square_bit(origin))).spec_remove_piece_fast(
                BitBoard(!square_bit(dest)),
            ).spec_put_piece_fast(piece, color, BitBoard(square_bit(dest)))
        }
    }

    /// Moves a piece of `color` from `origin` to `dest` and takes what
    /// stood there off the board, if a piece of that colour stands on
    /// `origin`, none on `dest`, and `dest` is not the square of the other
    /// king; says whether it did. The sets of a position that fit together
    /// do so afterwards.
    pub fn move_piece(&mut self, origin: Square, dest: Square, piece: Piece, color: Color) -> (res:
        bool)
        requires
            old(self).wf(),
            origin.valid(),
            dest.valid(),
            piece == Piece::KING ==> old(self).king_sq(color) == origin,
        ensures
            res == (old(self).has_color(color, origin) && !old(self).has_color(color, dest)
                && dest != old(self).king_sq(color.opposite())),
            !res ==> *final(self) == *old(self),
            res ==> *final(self) == old(self).spec_move_piece(origin, dest, piece, color),
            res && old(self).consistent() ==> final(self).consistent(),
            res && old(self).consistent() && old(self).piece_on(origin) == Some(piece) ==> {
                &&& final(self).piece_on(origin) is None && final(self).color_on(origin) is None
                &&& final(self).piece_on(dest) == Some(piece) && final(self).color_on(dest) == Some(
                    color,
                )
                &&& forall|s: Square|
                    s.valid() && s != origin && s != dest ==> #[trigger] final(self).piece_on(s)
                        == old(self).piece_on(s) && final(self).color_on(s) == old(self).color_on(s)
            },
    {
        let piece_of_color = self.piece_of_color[color.slot()];
        let origin_bb = BitBoard::from_square(origin);
        proof {
            lemma_single_bit();
        }
        if !piece_of_color.intersects(origin_bb) {
            return false;
        }
        let dest_bb = BitBoard::from_square(dest);
        if piece_of_color.intersects(dest_bb) {
            return false;
        }
        if self.king_pos[color.opposite().slot()] == dest {
            return false;
        }
        proof {
            if self.consistent() {
                lemma_move_keeps(*self, origin, dest, piece, color);
                if self.piece_on(origin) == Some(piece) {
                    lemma_move_squares(*self, origin, dest, piece, color);
                }
            }
        }
        if self.king_pos[color.slot()] == origin {
            self.remove_piece_fast(BitBoard(!dest_bb.0));
            self.set_king_pos_fast(color, dest, dest_bb);
        } else {
            self.remove_piece_fast(BitBoard(!origin_bb.0));
            self.remove_piece_fast(BitBoard(!dest_bb.0));
            self.put_piece_fast(piece, color, dest_bb);
        }
        true
    }

    /// What `put_piece_safe` makes of a position in which it puts the
    /// piece.
    pub open spec fn spec_put_piece_safe(self, piece: Piece, color: Color, square: Square)
        -> Board {
        if piece == Piece::KING {
            self.spec_remove_piece_fast(BitBoard(!square_bit(square))).spec_set_king_pos_fast(
                color,
                square,
                BitBoard(square_bit(square)),
            )
        } else {
            self.spec_remove_piece_fast(BitBoard(!square_bit(square))).spec_put_piece_fast(
                piece,
                color,
                BitBoard(square_bit(square)),
            )
        }
    }

    /// Puts a piece on `square` in place of what stands there, unless a
    /// king does; a king of `color` comes from where it stood. The sets
    /// of a position that fit together do so afterwards.
    pub fn put_piece_safe(&mut self, piece: Piece, color: Color, square: Square) -> (res: Result<
        (),
        (),
    >)
        requires
            old(self).wf(),
            square.valid(),
        ensures
            res is Err <==> (old(self).king_pos[0] == square || old(self).king_pos[1] == square),
            res is Err ==> *final(self) == *old(self),
            res is Ok ==> *final(self) == old(self).spec_put_piece_safe(piece, color, square),
            res is Ok && old(self).consistent() ==> {
                &&& final(self).consistent()
                &&& final(self).piece_on(square) == Some(piece) && final(self).color_on(square)
                    == Some(color)
                &&& piece == Piece::KING ==> final(self).piece_on(old(self).king_sq(color)) is None
                    && final(self).color_on(old(self).king_sq(color)) is None
                &&& forall|s: Square|
                    s.valid() && s != square && !(piece == Piece::KING && s == old(self).king_sq(
                        color,
                    )) ==> #[trigger] final(self).piece_on(s) == old(self).piece_on(s)
                        && final(self).color_on(s) == old(self).color_on(s)
            },
    {
        if self.king_pos[0] == square || self.king_pos[1] == square {
            return Err(());
        }
        let square_bb = BitBoard::from_square(square);
        proof {
            if self.consistent() {
                lemma_put_keeps(*self, piece, color, square);
                lemma_put_squares(*self, piece, color, square);
            }
        }
        if piece == Piece::KING {
            self.remove_piece_fast(BitBoard(!square_bb.0));
            self.set_king_pos_fast(color, square, square_bb);
            return Ok(());
        }
        self.remove_piece_fast(BitBoard(!square_bb.0));
        self.put_piece_fast(piece, color, square_bb);
        Ok(())
    }

    /// The piece that `piece_at` finds on the squares of `bb`: the king if
    /// one stands there, else the first type in the order pawn, knight,
    /// bishop, rook, queen of which a piece does.
    pub open spec fn spec_piece_at(self, bb: u64) -> Option<Piece> {
        if bb & square_bit(self.king_pos[0]) != 0 || bb & square_bit(self.king_pos[1]) != 0 {
            Some(Piece::KING)
        } else if self.piece_of_type[0].0 & bb != 0 {
            Some(Piece::PAWN)
        } else if self.piece_of_type[1].0 & bb != 0 {
            Some(Piece::KNIGHT)
        } else if self.piece_of_type[2].0 & bb != 0 {
            Some(Piece::BISHOP)
        } else if self.piece_of_type[3].0 & bb != 0 {
            Some(Piece::ROOK)
        } else if self.piece_of_type[4].0 & bb != 0 {
            Some(Piece::QUEEN)
        } else {
            None
        }
    }

    /// On the set of a single square, `spec_piece_at` is the piece on it.
    pub proof fn lemma_piece_at_square(self, s: Square)
        requires
            self.wf(),
            s.valid(),
        ensures
            self.spec_piece_at(square_bit(s)) == self.piece_on(s),
    {
        lemma_single_bit();
        lemma_bit_ops();
    }

    /// The type of a piece that stands on a square of `square_bb`.
    pub fn piece_at(&self, square_bb: BitBoard) -> (res: Option<Piece>)
        requires
            self.wf(),
        ensures
            res == self.spec_piece_at(square_bb.0),
    {
        let bb = square_bb.0;
        if bb & (1u64 << self.king_pos[0].0) != 0 || bb & (1u64 << self.king_pos[1].0) != 0 {
            Some(Piece::KING)
        } else if self.piece_of_type[0].0 & bb != 0 {
            Some(Piece::PAWN)
        } else if self.piece_of_type[1].0 & bb != 0 {
            Some(Piece::KNIGHT)
        } else if self.piece_of_type[2].0 & bb != 0 {
            Some(Piece::BISHOP)
        } else if self.piece_of_type[3].0 & bb != 0 {
            Some(Piece::ROOK)
        } else if self.piece_of_type[4].0 & bb != 0 {
            Some(Piece::QUEEN)
        } else {
            None
        }
    }

    /// The colour that `color_at` finds on the squares of `bb`.
    pub open spec fn spec_color_at(self, bb: u64) -> Option<Color> {
        if self.piece_of_color[0].0 & bb != 0 {
            Some(Color::WHITE)
        } else if self.piece_of_color[1].0 & bb != 0 {
            Some(Color::BLACK)
        } else {
            None
        }
    }

    /// On the set of a single square, `spec_color_at` is the colour on it.
    pub proof fn lemma_color_at_square(self, s: Square)
        requires
            s.valid(),
        ensures
            self.spec_color_at(square_bit(s)) == self.color_on(s),
    {
        lemma_single_bit();
    }

    /// The colour of a piece that stands on a square of `square_bb`, white
    /// first.
    pub fn color_at(&self, square_bb: BitBoard) -> (res: Option<Color>)
        ensures
            res == self.spec_color_at(square_bb.0),
    {
        if self.piece_of_color[0].0 & square_bb.0 != 0 {
            Some(Color::WHITE)
        } else if self.piece_of_color[1].0 & square_bb.0 != 0 {
            Some(Color::BLACK)
        } else {
            None
        }
    }

    pub fn piece_of_color(&self, color: Color) -> (res: BitBoard)
        ensures
            res.0 == self.color_bits(color),
    {
        self.piece_of_color[color.slot()]
    }

    pub fn piece_of_opposite_color(&self, color: Color) -> (res: BitBoard)
        ensures
            res.0 == self.color_bits(color.opposite()),
    {
        self.piece_of_color[color.opposite().slot()]
    }

    /// The squares of the pieces of a type other than the king.
    pub fn piece_of_type(&self, piece: Piece) -> (res: BitBoard)
        requires
            piece != Piece::KING,
        ensures
            res.0 == self.type_bits(piece),
    {
        self.piece_of_type[piece.index()]
    }

    /// Whether no square is in the sets of both colours or in the sets of
    /// two piece types.
    pub open spec fn sets_disjoint(self) -> bool {
        &&& self.piece_of_color[0].0 & self.piece_of_color[1].0 == 0
        &&& forall|i: int, j: int|
            0 <= i < j < 5 ==> (#[trigger] self.piece_of_type[i]).0 & (
            #[trigger] self.piece_of_type[j]).0 == 0
    }

    /// Whether the sets of the colours are disjoint and those of the piece
    /// types are.
    pub fn check_consistency(&self) -> (res: bool)
        ensures
            res == self.sets_disjoint(),
    {
        if self.piece_of_color[0].0 & self.piece_of_color[1].0 != 0 {
            return false;
        }
        self.first_clash().is_none()
    }

    /// The first set of a piece type, in the order pawn, knight, bishop,
    /// rook, queen, that shares a square with a set before it, by its
    /// number from 1 to 4; `None` if no two of the sets share a square.
    pub fn first_clash(&self) -> (res: Option<usize>)
        ensures
            res is None <==> (forall|i: int, j: int|
                0 <= i < j < 5 ==> (#[trigger] self.piece_of_type[i]).0 & (
                #[trigger] self.piece_of_type[j]).0 == 0),
            res matches Some(k) ==> 1 <= k < 5 && (exists|a: int|
                0 <= a < k && (#[trigger] self.piece_of_type[a]).0 & self.piece_of_type[k as int].0
                    != 0) && (forall|a: int, b: int|
                0 <= a < b < k ==> (#[trigger] self.piece_of_type[a]).0 & (
                #[trigger] self.piece_of_type[b]).0 == 0),
    {
        let mut accum: u64 = self.piece_of_type[0].0;
        let mut i: usize = 1;
        while i < 5
            invariant
                1 <= i <= 5,
                forall|a: int, b: int|
                    0 <= a < b < i ==> (#[trigger] self.piece_of_type[a]).0 & (
                    #[trigger] self.piece_of_type[b]).0 == 0,
                forall|s: u64|
                    s < 64 ==> #[trigger] bit(accum, s) == (exists|a: int|
                        0 <= a < i && bit((#[trigger] self.piece_of_type[a]).0, s)),
            decreases 5 - i,
        {
            proof {
                lemma_bit_ops();
            }
            let next = self.piece_of_type[i].0;
            if accum & next != 0 {
                proof {
                    lemma_nonzero_bit(accum & next);
                    let s = choose|s: u64| s < 64 && bit(accum & next, s);
                    let a = choose|a: int| 0 <= a < i && bit((#[trigger] self.piece_of_type[a]).0, s);
                    assert(bit(self.piece_of_type[a].0 & next, s));
                    lemma_nonzero_bit(self.piece_of_type[a].0 & next);
                    assert(self.piece_of_type[a].0 & self.piece_of_type[i as int].0 != 0);
                }
                return Some(i);
            }
            proof {
                assert forall|a: int, b: int| 0 <= a < b < i + 1 implies (
                #[trigger] self.piece_of_type[a]).0 & (#[trigger] self.piece_of_type[b]).0 == 0 by {
                    if b == i {
                        if self.piece_of_type[a].0 & next != 0 {
                            lemma_nonzero_bit(self.piece_of_type[a].0 & next);
                            let s = choose|s: u64| s < 64 && bit(self.piece_of_type[a].0 & next, s);
                            assert(bit(accum & next, s));
                            lemma_nonzero_bit(accum & next);
                        }
                    }
                }
            }
            let ghost before = accum;
            accum = accum | next;
            proof {
                assert forall|s: u64| s < 64 implies #[trigger] bit(accum, s) == (exists|a: int|
                    0 <= a < i + 1 && bit((#[trigger] self.piece_of_type[a]).0, s)) by {
                    if bit(before, s) {
                        let a = choose|a: int|
                            0 <= a < i && bit((#[trigger] self.piece_of_type[a]).0, s);
                        assert(0 <= a < i + 1 && bit(self.piece_of_type[a].0, s));
                    }
                    if bit(next, s) {
                        assert(bit(self.piece_of_type[i as int].0, s));
                    }
                }
            }
            i += 1;
        }
        None
    }
}

/// The counter of plies one further, starting again from 0 after 255.
pub open spec fn next_count(c: u8) -> u8 {
    if c == 255 {
        0
    } else {
        (c + 1) as u8
    }
}

impl Board {
    /// The position with the counter of reversible plies replaced.
    pub open spec fn with_count(self, c: u8) -> Board {
        Board { half_move_counter: c, ..self }
    }

    /// The position with the other side to move.
    pub open spec fn flipped(self) -> Board {
        Board { side_to_play: self.side_to_play.opposite(), ..self }
    }

    /// What becomes of the castling rights when the squares of `both` are
    /// moved from or to: a right is lost with the corner of its rook.
    pub open spec fn spec_update_castling_rights(self, both: u64) -> Board {
        Board {
            can_castle_king_side: [
                self.can_castle_king_side[0] && both & BB_H1 == 0,
                self.can_castle_king_side[1] && both & BB_H8 == 0,
            ],
            can_castle_queen_side: [
                self.can_castle_queen_side[0] && both & BB_A1 == 0,
                self.can_castle_queen_side[1] && both & BB_A8 == 0,
            ],
            ..self
        }
    }

    fn update_castling_rights(&mut self, both_squares: BitBoard)
        ensures
            *final(self) == old(self).spec_update_castling_rights(both_squares.0),
    {
        let both = both_squares.0;
        proof {
            lemma_corners(both);
        }
        if both & CORNERS != 0 {
            if both & BB_A1 != 0 {
                self.can_castle_queen_side[0] = false;
            }
            if both & BB_H1 != 0 {
                self.can_castle_king_side[0] = false;
            }
            if both & BB_A8 != 0 {
                self.can_castle_queen_side[1] = false;
            }
            if both & BB_H8 != 0 {
                self.can_castle_king_side[1] = false;
            }
        }
        assert(self.can_castle_king_side =~= old(self).spec_update_castling_rights(
            both,
        ).can_castle_king_side);
        assert(self.can_castle_queen_side =~= old(self).spec_update_castling_rights(
            both,
        ).can_castle_queen_side);
    }

    /// What a move of `piece` from `origin` to `dest` by the side to move
    /// makes of the position: the two squares change in the set of the
    /// mover's colour and, unless the king moves, in the set of the type;
    /// what stood on `dest` leaves the sets of the other colour and of its
    /// type; castling rights go with the corners touched and with a move of
    /// the king; a pawn's double step opens the en-passant square behind
    /// it; the counter starts again after a capture or a pawn's move.
    pub open spec fn spec_normal_move(self, origin: Square, dest: Square, piece: Piece) -> Board {
        let us = self.side_to_play;
        let them = us.opposite();
        let o = square_bit(origin);
        let d = square_bit(dest);
        let both = o | d;
        let b1 = self.with_color(us, self.color_bits(us) ^ both);
        let b2 = match self.spec_piece_at(d) {
            None => b1.with_count(next_count(self.half_move_counter)),
            Some(taken) => b1.with_color(them, b1.color_bits(them) ^ d).with_type(
                taken,
                b1.type_bits(taken) ^ d,
            ).with_count(0),
        };
        let b3 = b2.spec_update_castling_rights(both);
        if piece == Piece::KING {
            b3.without_castling(us).with_king(us, dest)
        } else {
            let b4 = b3.with_type(piece, b3.type_bits(piece) ^ both);
            if piece == Piece::PAWN {
                let b5 = b4.with_count(0);
                if o & RANK_2 != 0 && d & RANK_4 != 0 {
                    Board { en_passant: Some(Square(((origin.0 + 8) % 256) as u8)), ..b5 }
                } else if o & RANK_7 != 0 && d & RANK_5 != 0 {
                    Board { en_passant: Some(Square(((origin.0 - 8) % 256) as u8)), ..b5 }
                } else {
                    b5
                }
            } else {
                b4
            }
        }
    }

    fn make_normal_move(&mut self, origin: Square, dest: Square, piece: Piece)
        requires
            old(self).wf(),
            origin.valid(),
            dest.valid(),
            dest != old(self).king_pos[0],
            dest != old(self).king_pos[1],
        ensures
            *final(self) == old(self).spec_normal_move(origin, dest, piece),
    {
        let origin_bb = BitBoard::from_square(origin);
        let dest_bb = BitBoard::from_square(dest);
        let both_squares = BitBoard(origin_bb.0 | dest_bb.0);
        let us = self.side_to_play.slot();
        let them = self.side_to_play.opposite().slot();
        let ghost b0 = *self;
        self.piece_of_color[us] = BitBoard(self.piece_of_color[us].0 ^ both_squares.0);
        let ghost b1 = *self;
        assert(b1 =~= b0.with_color(b0.side_to_play, b0.color_bits(b0.side_to_play) ^ both_squares.0));
        proof {
            lemma_single_bit();
        }
        match self.piece_at(dest_bb) {
            None => {
                self.half_move_counter = if self.half_move_counter == 255 {
                    0
                } else {
                    self.half_move_counter + 1
                };
            },
            Some(taken) => {
                self.piece_of_color[them] = BitBoard(self.piece_of_color[them].0 ^ dest_bb.0);
                let t = taken.index();
                self.piece_of_type[t] = BitBoard(self.piece_of_type[t].0 ^ dest_bb.0);
                self.half_move_counter = 0;
            },
        }
        let ghost b2 = *self;
        assert(b2 =~= match b0.spec_piece_at(dest_bb.0) {
            None => b1.with_count(next_count(b0.half_move_counter)),
            Some(taken) => b1.with_color(
                b0.side_to_play.opposite(),
                b1.color_bits(b0.side_to_play.opposite()) ^ dest_bb.0,
            ).with_type(taken, b1.type_bits(taken) ^ dest_bb.0).with_count(0),
        });
        self.update_castling_rights(both_squares);
        let ghost b3 = *self;
        if piece == Piece::KING {
            self.can_castle_king_side[us] = false;
            self.can_castle_queen_side[us] = false;
            self.king_pos[us] = dest;
            assert(*self =~= b3.without_castling(b0.side_to_play).with_king(b0.side_to_play, dest));
        } else {
            let p = piece.index();
            self.piece_of_type[p] = BitBoard(self.piece_of_type[p].0 ^ both_squares.0);
            let ghost b4 = *self;
            assert(b4 =~= b3.with_type(piece, b3.type_bits(piece) ^ both_squares.0));
            if piece == Piece::PAWN {
                if origin_bb.0 & RANK_2 != 0 && dest_bb.0 & RANK_4 != 0 {
                    self.en_passant = Some(origin.shift(UP));
                } else if origin_bb.0 & RANK_7 != 0 && dest_bb.0 & RANK_5 != 0 {
                    self.en_passant = Some(origin.shift(DOWN));
                }
                self.half_move_counter = 0;
            }
        }
    }

    /// What an en-passant capture makes of the position: the pawn goes from
    /// `origin` to `dest`, and the pawn on `capture` leaves the board.
    pub open spec fn spec_en_passant_move(self, origin: Square, dest: Square, capture: Square)
        -> Board {
        let us = self.side_to_play;
        let them = us.opposite();
        let both = square_bit(origin) | square_bit(dest);
        let cap = square_bit(capture);
        let b1 = self.with_color(us, self.color_bits(us) ^ both);
        let b2 = b1.with_type(Piece::PAWN, b1.type_bits(Piece::PAWN) ^ (both | cap));
        b2.with_color(them, b2.color_bits(them) ^ cap).with_count(0)
    }

    fn make_en_passant_move(&mut self, origin: Square, dest: Square, capture: Square)
        requires
            origin.valid(),
            dest.valid(),
            capture.valid(),
        ensures
            *final(self) == old(self).spec_en_passant_move(origin, dest, capture),
    {
        let origin_bb = BitBoard::from_square(origin);
        let dest_bb = BitBoard::from_square(dest);
        let both_squares = origin_bb.0 | dest_bb.0;
        let capture_bb = BitBoard::from_square(capture);
        let us = self.side_to_play.slot();
        let them = self.side_to_play.opposite().slot();
        self.piece_of_color[us] = BitBoard(self.piece_of_color[us].0 ^ both_squares);
        self.piece_of_type[0] = BitBoard(self.piece_of_type[0].0 ^ (both_squares | capture_bb.0));
        self.piece_of_color[them] = BitBoard(self.piece_of_color[them].0 ^ capture_bb.0);
        self.half_move_counter = 0;
        assert(*self =~= old(self).spec_en_passant_move(origin, dest, capture));
    }

    /// What castling makes of the position: the king of colour `c` goes to
    /// `king_to`, the squares of `king_and_rook` change in the set of the
    /// colour and those of `rook` in the set of the rooks, and the colour
    /// may no longer castle.
    pub open spec fn spec_castle(self, c: Color, king_to: Square, king_and_rook: u64, rook: u64)
        -> Board {
        let b1 = self.with_king(c, king_to).with_color(c, self.color_bits(c) ^ king_and_rook);
        b1.with_type(Piece::ROOK, b1.type_bits(Piece::ROOK) ^ rook).without_castling(c).with_count(
            next_count(self.half_move_counter),
        )
    }

    fn castle(&mut self, c: Color, king_to: Square, king_and_rook: u64, rook: u64)
        ensures
            *final(self) == old(self).spec_castle(c, king_to, king_and_rook, rook),
    {
        let i = c.slot();
        self.king_pos[i] = king_to;
        self.piece_of_color[i] = BitBoard(self.piece_of_color[i].0 ^ king_and_rook);
        self.piece_of_type[3] = BitBoard(self.piece_of_type[3].0 ^ rook);
        self.can_castle_king_side[i] = false;
        self.can_castle_queen_side[i] = false;
        self.half_move_counter = if self.half_move_counter == 255 {
            0
        } else {
            self.half_move_counter + 1
        };
        assert(*self =~= old(self).spec_castle(c, king_to, king_and_rook, rook));
    }

    fn castle_king_side_white_fast(&mut self)
        ensures
            *final(self) == old(self).spec_castle(
                Color::WHITE,
                Square(SQ_G1),
                BB_E1 | BB_F1 | BB_G1 | BB_H1,
                BB_F1 | BB_H1,
            ),
    {
        self.castle(Color::WHITE, Square(SQ_G1), BB_E1 | BB_F1 | BB_G1 | BB_H1, BB_F1 | BB_H1);
    }

    fn castle_queen_side_white_fast(&mut self)
        ensures
            *final(self) == old(self).spec_castle(
                Color::WHITE,
                Square(SQ_C1),
                BB_A1 | BB_C1 | BB_D1 | BB_E1,
                BB_D1 | BB_A1,
            ),
    {
        self.castle(Color::WHITE, Square(SQ_C1), BB_A1 | BB_C1 | BB_D1 | BB_E1, BB_D1 | BB_A1);
    }

    fn castle_king_side_black_fast(&mut self)
        ensures
            *final(self) == old(self).spec_castle(
                Color::BLACK,
                Square(SQ_G8),
                BB_E8 | BB_F8 | BB_G8 | BB_H8,
                BB_F8 | BB_H8,
            ),
    {
        self.castle(Color::BLACK, Square(SQ_G8), BB_E8 | BB_F8 | BB_G8 | BB_H8, BB_F8 | BB_H8);
    }

    fn castle_queen_side_black_fast(&mut self)
        ensures
            *final(self) == old(self).spec_castle(
                Color::BLACK,
                Square(SQ_C8),
                BB_A8 | BB_C8 | BB_D8 | BB_E8,
                BB_D8 | BB_A8,
            ),
    {
        self.castle(Color::BLACK, Square(SQ_C8), BB_A8 | BB_C8 | BB_D8 | BB_E8, BB_D8 | BB_A8);
    }

    /// What a promotion makes of the position: the pawn leaves `origin`,
    /// what stood on `dest` leaves the board, and `piece` stands on `dest`;
    /// a castling right goes with a corner touched.
    pub open spec fn spec_promote(self, origin: Square, dest: Square, piece: Piece) -> Board {
        let us = self.side_to_play;
        let them = us.opposite();
        let o = square_bit(origin);
        let d = square_bit(dest);
        let t = self.piece_of_type;
        let b1 = self.with_color(us, self.color_bits(us) ^ (o | d));
        let b2 = b1.with_color(them, b1.color_bits(them) & !d);
        let b3 = Board {
            piece_of_type: [
                BitBoard(t[0].0 ^ o),
                BitBoard(t[1].0 & !d),
                BitBoard(t[2].0 & !d),
                BitBoard(t[3].0 & !d),
                BitBoard(t[4].0 & !d),
            ],
            ..b2
        };
        b3.with_type(piece, b3.type_bits(piece) | d).spec_update_castling_rights(o | d).with_count(
            0,
        )
    }

    fn promote(&mut self, origin: Square, dest: Square, piece: Piece)
        requires
            origin.valid(),
            dest.valid(),
            piece != Piece::KING,
        ensures
            *final(self) == old(self).spec_promote(origin, dest, piece),
    {
        let origin_bb = BitBoard::from_square(origin);
        let dest_bb = BitBoard::from_square(dest);
        let dest_bbi = !dest_bb.0;
        let both_squares = BitBoard(origin_bb.0 | dest_bb.0);
        let us = self.side_to_play.slot();
        let them = self.side_to_play.opposite().slot();
        self.piece_of_color[us] = BitBoard(self.piece_of_color[us].0 ^ both_squares.0);
        self.piece_of_type[0] = BitBoard(self.piece_of_type[0].0 ^ origin_bb.0);
        self.piece_of_color[them] = BitBoard(self.piece_of_color[them].0 & dest_bbi);
        self.piece_of_type[1] = BitBoard(self.piece_of_type[1].0 & dest_bbi);
        self.piece_of_type[2] = BitBoard(self.piece_of_type[2].0 & dest_bbi);
        self.piece_of_type[3] = BitBoard(self.piece_of_type[3].0 & dest_bbi);
        self.piece_of_type[4] = BitBoard(self.piece_of_type[4].0 & dest_bbi);
        let p = piece.index();
        self.piece_of_type[p] = BitBoard(self.piece_of_type[p].0 | dest_bb.0);
        self.update_castling_rights(both_squares);
        self.half_move_counter = 0;
        assert(*self =~= old(self).spec_promote(origin, dest, piece));
    }

    /// Whether `make_move` takes the move: its squares are on the board, a
    /// pawn is not promoted to a king, and a piece does not move onto the
    /// square of a king.
    pub open spec fn accepts(self, m: Move) -> bool {
        &&& m.wf()
        &&& m matches Move::NormalMove { origin, dest, piece } ==> dest != self.king_pos[0] && dest
            != self.king_pos[1]
    }

    /// The position after the move `m`. Every move but the pass hands the
    /// turn to the other side, and every move closes the en-passant square
    /// unless it is a pawn's double step.
    pub open spec fn apply(self, m: Move) -> Board {
        let b = Board { en_passant: None, ..self };
        match m {
            Move::CastleKingSideWhite => b.spec_castle(
                Color::WHITE,
                Square(SQ_G1),
                BB_E1 | BB_F1 | BB_G1 | BB_H1,
                BB_F1 | BB_H1,
            ).flipped(),
            Move::CastleQueenSideWhite => b.spec_castle(
                Color::WHITE,
                Square(SQ_C1),
                BB_A1 | BB_C1 | BB_D1 | BB_E1,
                BB_D1 | BB_A1,
            ).flipped(),
            Move::CastleKingSideBlack => b.spec_castle(
                Color::BLACK,
                Square(SQ_G8),
                BB_E8 | BB_F8 | BB_G8 | BB_H8,
                BB_F8 | BB_H8,
            ).flipped(),
            Move::CastleQueenSideBlack => b.spec_castle(
                Color::BLACK,
                Square(SQ_C8),
                BB_A8 | BB_C8 | BB_D8 | BB_E8,
                BB_D8 | BB_A8,
            ).flipped(),
            Move::Promotion { origin, dest, piece } => b.spec_promote(origin, dest, piece).flipped(),
            Move::NormalMove { origin, dest, piece } => b.spec_normal_move(
                origin,
                dest,
                piece,
            ).flipped(),
            Move::EnPassant { origin, dest, capture } => b.spec_en_passant_move(
                origin,
                dest,
                capture,
            ).flipped(),
            Move::NullMove => b,
        }
    }

    /// Plays the move `m`.
    pub fn make_move(&mut self, m: Move)
        requires
            old(self).wf(),
            old(self).accepts(m),
        ensures
            *final(self) == old(self).apply(m),
    {
        self.en_passant = None;
        match m {
            Move::CastleKingSideWhite => self.castle_king_side_white_fast(),
            Move::CastleQueenSideWhite => self.castle_queen_side_white_fast(),
            Move::CastleKingSideBlack => self.castle_king_side_black_fast(),
            Move::CastleQueenSideBlack => self.castle_queen_side_black_fast(),
            Move::Promotion { origin, dest, piece } => self.promote(origin, dest, piece),
            Move::NormalMove { origin, dest, piece } => self.make_normal_move(origin, dest, piece),
            Move::EnPassant { origin, dest, capture } => self.make_en_passant_move(
                origin,
                dest,
                capture,
            ),
            Move::NullMove => {
                return ;
            },
        }
        self.side_to_play = self.side_to_play.opposite();
    }
}

impl Board {
    /// The squares on which any piece stands, as a word.
    pub open spec fn occupancy(self) -> u64 {
        self.piece_of_color[0].0 | self.piece_of_color[1].0
    }

    /// Whether the piece of colour `by` that the sets of the types show on
    /// `s` attacks `target` when the squares of `occ` are occupied. Kings
    /// are in no such set.
    pub open spec fn piece_attacks(self, by: Color, s: Square, target: Square, occ: u64) -> bool {
        &&& self.has_color(by, s)
        &&& {
            ||| self.has_type(Piece::KNIGHT, s) && knight_has(s.idx(), target.idx())
            ||| self.has_type(Piece::PAWN, s) && pawn_has(by, s.idx(), target.idx())
            ||| (self.has_type(Piece::ROOK, s) || self.has_type(Piece::QUEEN, s)) && rook_ray_has(
                s.idx(),
                occ,
                target.idx(),
            )
            ||| (self.has_type(Piece::BISHOP, s) || self.has_type(Piece::QUEEN, s))
                && bishop_ray_has(s.idx(), occ, target.idx())
        }
    }

    /// Whether a piece of colour `by`, the king among them, attacks
    /// `target` when the squares of `occ` are occupied.
    pub open spec fn attacked(self, by: Color, target: Square, occ: u64) -> bool {
        ||| king_has(self.king_sq(by).idx(), target.idx())
        ||| exists|s: Square| s.valid() && #[trigger] self.piece_attacks(by, s, target, occ)
    }

    /// Whether the king of `color` is attacked.
    pub open spec fn spec_under_check(self, color: Color) -> bool {
        self.attacked(color.opposite(), self.king_sq(color), self.occupancy())
    }

    /// Whether the king of `color` is attacked by a piece of the other
    /// colour.
    pub fn under_check(&self, color: Color) -> (res: bool)
        requires
            self.wf(),
        ensures
            res == self.spec_under_check(color),
    {
        let them = color.opposite();
        let enemy_piece = self.piece_of_color[them.slot()].0;
        let king = self.king_pos[color.slot()];
        let enemy_king = self.king_pos[them.slot()];
        let any_piece = BitBoard(self.piece_of_color[0].0 | self.piece_of_color[1].0);
        let rook_or_queen = self.piece_of_type[3].0 | self.piece_of_type[4].0;
        let bishop_or_queen = self.piece_of_type[2].0 | self.piece_of_type[4].0;
        let by_knight = knight_attacks(king).0 & enemy_piece & self.piece_of_type[1].0;
        let by_pawn = pawn_attacks(color, king).0 & enemy_piece & self.piece_of_type[0].0;
        let by_king = king_attacks(king).0 & (1u64 << enemy_king.0);
        let by_rook = rook_attacks(king, any_piece).0 & enemy_piece & rook_or_queen;
        let by_bishop = bishop_attacks(king, any_piece).0 & enemy_piece & bishop_or_queen;
        proof {
            let occ = any_piece.0;
            lemma_bit_ops();
            lemma_single_bit();
            lemma_nonzero_bit(by_knight);
            lemma_nonzero_bit(by_pawn);
            lemma_nonzero_bit(by_rook);
            lemma_nonzero_bit(by_bishop);
            assert((by_king != 0) == king_has(enemy_king.idx(), king.idx()));
            assert forall|s: Square| s.valid() implies #[trigger] self.piece_attacks(
                them,
                s,
                king,
                occ,
            ) == (bit(by_knight, s.0 as u64) || bit(by_pawn, s.0 as u64) || bit(by_rook, s.0 as u64)
                || bit(by_bishop, s.0 as u64)) by {
                lemma_slider_symmetric(false, king.idx(), s.idx(), occ);
                lemma_slider_symmetric(true, king.idx(), s.idx(), occ);
            }
            if by_knight != 0 || by_pawn != 0 || by_rook != 0 || by_bishop != 0 {
                let i = choose|i: u64|
                    i < 64 && (bit(by_knight, i) || bit(by_pawn, i) || bit(by_rook, i) || bit(
                        by_bishop,
                        i,
                    ));
                assert(self.piece_attacks(them, Square(i as u8), king, occ));
            } else {
                assert forall|s: Square| s.valid() implies !#[trigger] self.piece_attacks(
                    them,
                    s,
                    king,
                    occ,
                ) by {
                    assert(!bit(by_knight, s.0 as u64));
                }
            }
        }
        if by_knight != 0 {
            return true;
        }
        if by_pawn != 0 {
            return true;
        }
        if by_king != 0 {
            return true;
        }
        if by_rook != 0 {
            return true;
        }
        if by_bishop != 0 {
            return true;
        }
        false
    }
}

impl Board {
    /// A castling right is held only while the king and the rook stand on
    /// the squares from which they castle.
    pub open spec fn castling_consistent(self) -> bool {
        &&& self.can_castle_king_side[0] ==> self.king_pos[0] == Square(SQ_E1) && self.has_rook(
            Color::WHITE,
            Square(7),
        )
        &&& self.can_castle_queen_side[0] ==> self.king_pos[0] == Square(SQ_E1) && self.has_rook(
            Color::WHITE,
            Square(0),
        )
        &&& self.can_castle_king_side[1] ==> self.king_pos[1] == Square(SQ_E8) && self.has_rook(
            Color::BLACK,
            Square(63),
        )
        &&& self.can_castle_queen_side[1] ==> self.king_pos[1] == Square(SQ_E8) && self.has_rook(
            Color::BLACK,
            Square(56),
        )
    }

    /// Whether a rook of colour `c` stands on `s`.
    pub open spec fn has_rook(self, c: Color, s: Square) -> bool {
        self.has_color(c, s) && self.has_type(Piece::ROOK, s)
    }

    /// Whether no piece stands on `s`.
    pub open spec fn is_empty(self, s: Square) -> bool {
        !self.has_color(Color::WHITE, s) && !self.has_color(Color::BLACK, s)
    }

    /// Whether the move `m` fits the position: the piece that it moves
    /// stands on its origin and belongs to the side to move, no piece of
    /// that side and no king stands on its destination, and a pawn steps
    /// forwards, two ranks only from its first square. Every move of the
    /// game fits; a pass does not.
    pub open spec fn fits(self, m: Move) -> bool {
        let us = self.side_to_play;
        let them = us.opposite();
        match m {
            Move::NormalMove { origin, dest, piece } => {
                &&& origin.valid() && dest.valid() && origin != dest
                &&& self.has_color(us, origin)
                &&& self.piece_on(origin) == Some(piece)
                &&& !self.has_color(us, dest)
                &&& dest != self.king_pos[0] && dest != self.king_pos[1]
                &&& piece == Piece::PAWN ==> {
                    let step = dest.spec_rank() - origin.spec_rank();
                    if us == Color::WHITE {
                        step == 1 || (step == 2 && origin.spec_rank() == 1)
                    } else {
                        step == -1 || (step == -2 && origin.spec_rank() == 6)
                    }
                }
            },
            Move::Promotion { origin, dest, piece } => {
                &&& origin.valid() && dest.valid()
                &&& piece != Piece::KING && piece != Piece::PAWN
                &&& self.has_color(us, origin) && self.has_type(Piece::PAWN, origin)
                &&& !self.has_color(us, dest) && !self.has_type(Piece::PAWN, dest)
                &&& dest != self.king_pos[0] && dest != self.king_pos[1]
                &&& if us == Color::WHITE {
                    origin.spec_rank() == 6 && dest.spec_rank() == 7
                } else {
                    origin.spec_rank() == 1 && dest.spec_rank() == 0
                }
            },
            Move::EnPassant { origin, dest, capture } => {
                &&& origin.valid() && dest.valid() && capture.valid()
                &&& origin != dest && origin != capture && dest != capture
                &&& self.has_color(us, origin) && self.has_type(Piece::PAWN, origin)
                &&& self.is_empty(dest)
                &&& self.has_color(them, capture) && self.has_type(Piece::PAWN, capture)
            },
            Move::CastleKingSideWhite => self.fits_castle(Color::WHITE, 4, 6, 5, 7),
            Move::CastleQueenSideWhite => self.fits_castle(Color::WHITE, 4, 2, 3, 0),
            Move::CastleKingSideBlack => self.fits_castle(Color::BLACK, 60, 62, 61, 63),
            Move::CastleQueenSideBlack => self.fits_castle(Color::BLACK, 60, 58, 59, 56),
            Move::NullMove => false,
        }
    }

    /// Whether castling fits the position: it is the turn of `c`, its king
    /// and rook stand on their squares, and the squares that they reach
    /// are empty.
    pub open spec fn fits_castle(self, c: Color, king_from: u8, king_to: u8, rook_to: u8, rook_from: u8)
        -> bool {
        &&& self.side_to_play == c
        &&& self.king_sq(c) == Square(king_from)
        &&& self.has_rook(c, Square(rook_from))
        &&& self.is_empty(Square(king_to))
        &&& self.is_empty(Square(rook_to))
    }
}

impl Board {
    /// What `with_type` changes and what it leaves.
    pub proof fn lemma_with_type(self, p: Piece, bits: u64)
        ensures
            forall|q: Piece|
                q != Piece::KING ==> #[trigger] self.with_type(p, bits).type_bits(q) == (if q == p {
                    bits
                } else {
                    self.type_bits(q)
                }),
            self.with_type(p, bits).piece_of_color == self.piece_of_color,
            self.with_type(p, bits).king_pos == self.king_pos,
            self.with_type(p, bits).en_passant == self.en_passant,
            self.with_type(p, bits).can_castle_king_side == self.can_castle_king_side,
            self.with_type(p, bits).can_castle_queen_side == self.can_castle_queen_side,
            self.with_type(p, bits).side_to_play == self.side_to_play,
            self.with_type(p, bits).half_move_counter == self.half_move_counter,
    {
    }

    /// What `with_color` changes and what it leaves.
    pub proof fn lemma_with_color(self, c: Color, bits: u64)
        ensures
            forall|k: Color|
                #[trigger] self.with_color(c, bits).color_bits(k) == (if k == c {
                    bits
                } else {
                    self.color_bits(k)
                }),
            self.with_color(c, bits).piece_of_type == self.piece_of_type,
            self.with_color(c, bits).king_pos == self.king_pos,
            self.with_color(c, bits).en_passant == self.en_passant,
            self.with_color(c, bits).can_castle_king_side == self.can_castle_king_side,
            self.with_color(c, bits).can_castle_queen_side == self.can_castle_queen_side,
            self.with_color(c, bits).side_to_play == self.side_to_play,
            self.with_color(c, bits).half_move_counter == self.half_move_counter,
    {
    }
}

impl Board {
    /// Whether the en-passant square, if there is one, lies behind a pawn
    /// of the side that has just moved: it is empty, on the sixth rank of
    /// the side to move, and that pawn stands on the square before it.
    pub open spec fn en_passant_consistent(self) -> bool {
        self.en_passant matches Some(e) ==> {
            let us = self.side_to_play;
            let taken = if us == Color::WHITE {
                Square((e.0 - 8) as u8)
            } else {
                Square((e.0 + 8) as u8)
            };
            &&& e.spec_rank() == (if us == Color::WHITE {
                5int
            } else {
                2int
            })
            &&& self.is_empty(e)
            &&& self.has_color(us.opposite(), taken)
            &&& self.has_type(Piece::PAWN, taken)
        }
    }

    /// Whether no pawn stands on the first or the last rank.
    pub open spec fn pawns_in_place(self) -> bool {
        forall|s: Square|
            s.valid() && #[trigger] self.has_type(Piece::PAWN, s) ==> 1 <= s.spec_rank() <= 6
    }

    /// Whether the position is one that a game can reach, as far as move
    /// generation relies on it: it is consistent in its sets, its castling
    /// rights and its en-passant square, no pawn stands on the first or
    /// the last rank, and the side that has just moved has not left its
    /// king attacked.
    pub open spec fn playable(self) -> bool {
        &&& self.consistent()
        &&& self.castling_consistent()
        &&& self.en_passant_consistent()
        &&& self.pawns_in_place()
        &&& !self.spec_under_check(self.side_to_play.opposite())
    }
}

impl Board {
    /// The sign that stands for square `i` in the picture of a position:
    /// the figure of the piece whose colour and type the sets show there,
    /// `X` or `x` for a white or black piece of no type and not a king, and
    /// a small ring for an empty square.
    pub open spec fn sign(self, i: u64) -> char {
        let ty = self.piece_of_type;
        if bit(self.piece_of_color[0].0, i) {
            if bit(ty[2].0, i) {
                '\u{2657}'
            } else if bit(ty[3].0, i) {
                '\u{2656}'
            } else if bit(ty[1].0, i) {
                '\u{2658}'
            } else if bit(ty[4].0, i) {
                '\u{2655}'
            } else if bit(ty[0].0, i) {
                '\u{2659}'
            } else if self.king_pos[0].0 == i {
                '\u{2654}'
            } else {
                'X'
            }
        } else if bit(self.piece_of_color[1].0, i) {
            if bit(ty[2].0, i) {
                '\u{265D}'
            } else if bit(ty[3].0, i) {
                '\u{265C}'
            } else if bit(ty[1].0, i) {
                '\u{265E}'
            } else if bit(ty[4].0, i) {
                '\u{265B}'
            } else if bit(ty[0].0, i) {
                '\u{265F}'
            } else if self.king_pos[1].0 == i {
                '\u{265A}'
            } else {
                'x'
            }
        } else {
            '\u{25E6}'
        }
    }

    /// The picture of the squares of rank `y` from file `x` on.
    pub open spec fn picture_cells(self, y: int, x: int) -> Seq<char>
        decreases 8 - x,
    {
        if x >= 8 {
            Seq::empty()
        } else {
            seq![' ', self.sign((8 * y + x) as u64)] + self.picture_cells(y, x + 1)
        }
    }

    /// The picture of the ranks from `y` down to the first, each on a line
    /// that begins with its number.
    pub open spec fn picture_rows(self, y: int) -> Seq<char>
        decreases y + 1,
    {
        if y < 0 {
            Seq::empty()
        } else {
            seq!['\n', ' ', digit_char(y + 1), ' ', ' '] + self.picture_cells(y, 0)
                + self.picture_rows(y - 1)
        }
    }

    /// The sign for the square of the set `bb`, which holds the one square
    /// `i`.
    fn sign_at(&self, bb: u64, i: Ghost<u64>) -> (res: char)
        requires
            self.wf(),
            i@ < 64,
            bb == 1u64 << i@,
        ensures
            res == self.sign(i@),
    {
        proof {
            lemma_single_bit();
            lemma_bit_ops();
        }
        let ty = &self.piece_of_type;
        if bb & self.piece_of_color[0].0 != 0 {
            if bb & ty[2].0 != 0 {
                '\u{2657}'
            } else if bb & ty[3].0 != 0 {
                '\u{2656}'
            } else if bb & ty[1].0 != 0 {
                '\u{2658}'
            } else if bb & ty[4].0 != 0 {
                '\u{2655}'
            } else if bb & ty[0].0 != 0 {
                '\u{2659}'
            } else if bb & (1u64 << self.king_pos[0].0) != 0 {
                '\u{2654}'
            } else {
                'X'
            }
        } else if bb & self.piece_of_color[1].0 != 0 {
            if bb & ty[2].0 != 0 {
                '\u{265D}'
            } else if bb & ty[3].0 != 0 {
                '\u{265C}'
            } else if bb & ty[1].0 != 0 {
                '\u{265E}'
            } else if bb & ty[4].0 != 0 {
                '\u{265B}'
            } else if bb & ty[0].0 != 0 {
                '\u{265F}'
            } else if bb & (1u64 << self.king_pos[1].0) != 0 {
                '\u{265A}'
            } else {
                'x'
            }
        } else {
            '\u{25E6}'
        }
    }

    /// A picture of the position: the board seen from white's side, with
    /// the figures of the pieces.
    pub fn to_string(&self) -> (res: String)
        requires
            self.wf(),
        ensures
            res@ == self.picture_rows(7).push('\n'),
    {
        let mut s = String::new();
        let mut r: u8 = 8;
        while r > 0
            invariant
                r <= 8,
                self.wf(),
                s@ + self.picture_rows(r - 1) == self.picture_rows(7),
            decreases r,
        {
            let y = r - 1;
            let ghost at_row = s@;
            push_char(&mut s, '\n');
            push_char(&mut s, ' ');
            push_char(&mut s, digit(y + 1));
            push_char(&mut s, ' ');
            push_char(&mut s, ' ');
            let mut x: u8 = 0;
            while x < 8
                invariant
                    x <= 8,
                    y < 8,
                    self.wf(),
                    s@ + self.picture_cells(y as int, x as int) == at_row + seq![
                        '\n',
                        ' ',
                        digit_char(y + 1),
                        ' ',
                        ' ',
                    ] + self.picture_cells(y as int, 0),
                decreases 8 - x,
            {
                let bb = BitBoard::from_coords(x, y);
                let ghost before = s@;
                push_char(&mut s, ' ');
                push_char(&mut s, self.sign_at(bb.0, Ghost((8 * y + x) as u64)));
                proof {
                    assert(s@ + self.picture_cells(y as int, x + 1) =~= before
                        + self.picture_cells(y as int, x as int));
                }
                x += 1;
            }
            proof {
                assert(s@ + self.picture_rows(y - 1) =~= at_row + self.picture_rows(y as int));
            }
            r -= 1;
        }
        push_char(&mut s, '\n');
        proof {
            assert(s@ =~= self.picture_rows(7).push('\n'));
        }
        s
    }
}

/// A set that misses the four corners misses each of them.
proof fn lemma_corners(both: u64)
    by (bit_vector)
    ensures
        both & CORNERS == 0 ==> both & BB_A1 == 0 && both & BB_H1 == 0 && both & BB_A8 == 0 && both
            & BB_H8 == 0,
{
}

/// The sets of the starting position, computed from the masks of the
/// files and ranks.
proof fn lemma_initial_sets(w: u64, b: u64, p: u64, n: u64, bi: u64, r: u64, q: u64)
    by (bit_vector)
    requires
        w == RANK_1 | RANK_2,
        b == RANK_7 | RANK_8,
        p == RANK_2 | RANK_7,
        n == (FILE_B | FILE_G) & (RANK_1 | RANK_8),
        bi == (FILE_C | FILE_F) & (RANK_1 | RANK_8),
        r == (FILE_A | FILE_H) & (RANK_1 | RANK_8),
        q == FILE_D & (RANK_1 | RANK_8),
    ensures
        w == 0x0000_0000_0000_FFFF,
        b == 0xFFFF_0000_0000_0000,
        p == 0x00FF_0000_0000_FF00,
        n == 0x4200_0000_0000_0042,
        bi == 0x2400_0000_0000_0024,
        r == 0x8100_0000_0000_0081,
        q == 0x0800_0000_0000_0008,
{
}

} // verus!
