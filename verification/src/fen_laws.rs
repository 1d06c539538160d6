//! Why a record that is written from a position is read back as that
//! position.
use vstd::prelude::*;
use crate::bitboard::BitBoard;
use crate::bits::bit;
use crate::bits::lemma_bit_ops;
use crate::bits::lemma_bits_equal;
use crate::board::square_bit;
use crate::board::Board;
use crate::fen::are_fields;
use crate::fen::board_of;
use crate::fen::castling_text;
use crate::fen::fen_text;
use crate::fen::join;
use crate::fen::lemma_fields_unique;
use crate::fen::place;
use crate::fen::put_next;
use crate::fen::placement_text;
use crate::fen::rank_text;
use crate::fen::rights_of;
use crate::fen::signed_decimal;
use crate::fen::spaceless;
use crate::fen::spaces;
use crate::fen::spec_castling_rights;
use crate::fen::spec_char_to_color;
use crate::fen::spec_char_to_piece;
use crate::fen::spec_clock;
use crate::fen::spec_en_passant_square;
use crate::fen::spec_fen;
use crate::fen::spec_fen_char;
use crate::fen::spec_side_to_play;
use crate::fen::start_board;
use crate::fen::value_of;
use crate::fen::Fields;
use crate::legality::lemma_occupant;
use crate::placing::lemma_put_on;
use crate::placing::lemma_square_by_square;
use crate::placing::square_fits;
use crate::pieces::Color;
use crate::pieces::Piece;
use crate::square::Square;
use crate::text::decimal;
use crate::text::digit_char;

verus! {

/// Whether every character is a decimal digit.
pub open spec fn all_digits(s: Seq<char>) -> bool {
    forall|i: int| 0 <= i < s.len() ==> '0' <= #[trigger] s[i] <= '9'
}

/// The number that a text writes does not depend on what follows it.
proof fn lemma_value_prefix(s: Seq<char>, t: Seq<char>, n: int)
    requires
        0 <= n <= s.len(),
        s.len() <= t.len(),
        forall|i: int| 0 <= i < s.len() ==> s[i] == t[i],
    ensures
        value_of(t, n) == value_of(s, n),
    decreases n,
{
    if n > 0 {
        lemma_value_prefix(s, t, n - 1);
    }
}

/// The decimal digits of a number write that number.
pub proof fn lemma_decimal_value(n: nat)
    ensures
        decimal(n).len() >= 1,
        all_digits(decimal(n)),
        value_of(decimal(n), decimal(n).len() as int) == Some(n),
    decreases n,
{
    if n >= 10 {
        lemma_decimal_value(n / 10);
        let s = decimal(n / 10);
        let t = decimal(n);
        let d = (n % 10) as int;
        assert(t == s.push(digit_char(d)));
        lemma_value_prefix(s, t, s.len() as int);
        assert(t[s.len() as int] == digit_char(d));
        assert(digit_char(d) as u8 == 48 + d);
        assert('0' <= digit_char(d) <= '9');
        assert(value_of(t, t.len() as int) == Some((n / 10) * 10 + d as nat));
        assert forall|i: int| 0 <= i < t.len() implies '0' <= #[trigger] t[i] <= '9' by {
            if i < s.len() {
                assert(t[i] == s[i]);
            }
        }
    } else {
        let t = decimal(n);
        let d = n as int;
        assert(t[0] == digit_char(d));
        assert(digit_char(d) as u8 == 48 + d);
        assert('0' <= digit_char(d) <= '9');
        assert(value_of(t, 0) == Some(0nat));
        assert(value_of(t, 1) == Some(n));
    }
}

/// The counter of reversible plies is read as it is written.
pub proof fn lemma_clock_round_trip(h: u8)
    ensures
        spec_clock(decimal(h as nat)) == Some(h),
        spaceless(decimal(h as nat)),
{
    lemma_decimal_value(h as nat);
    let s = decimal(h as nat);
    assert(s[0] != '+');
}

/// The numbers of a record have no spaces.
pub proof fn lemma_numbers_spaceless(n: int)
    ensures
        spaceless(signed_decimal(n)),
{
    if n < 0 {
        lemma_decimal_value((-n) as nat);
        let d = decimal((-n) as nat);
        assert forall|i: int| 0 <= i < signed_decimal(n).len() implies signed_decimal(n)[i]
            != ' ' by {
            if i > 0 {
                assert(signed_decimal(n)[i] == d[i - 1]);
            }
        }
    } else {
        lemma_decimal_value(n as nat);
    }
}

/// The rights that a text grants do not depend on what follows it.
proof fn lemma_rights_prefix(s: Seq<char>, t: Seq<char>, n: int)
    requires
        0 <= n <= s.len(),
        s.len() <= t.len(),
        forall|i: int| 0 <= i < s.len() ==> s[i] == t[i],
    ensures
        rights_of(t, n) == rights_of(s, n),
    decreases n,
{
    if n > 0 {
        lemma_rights_prefix(s, t, n - 1);
    }
}

/// The rights that a text with one more letter grants.
proof fn lemma_rights_push(s: Seq<char>, ch: char)
    ensures
        rights_of(s.push(ch), s.len() as int + 1) == (match rights_of(s, s.len() as int) {
            None => None,
            Some((ks, qs)) => if ch == 'K' {
                Some(([true, ks[1]], qs))
            } else if ch == 'k' {
                Some(([ks[0], true], qs))
            } else if ch == 'Q' {
                Some((ks, [true, qs[1]]))
            } else if ch == 'q' {
                Some((ks, [qs[0], true]))
            } else {
                None
            },
        }),
{
    lemma_rights_prefix(s, s.push(ch), s.len() as int);
    assert(s.push(ch)[s.len() as int] == ch);
}

/// The text with `ch` after it if `present`.
spec fn with_letter(s: Seq<char>, present: bool, ch: char) -> Seq<char> {
    if present {
        s.push(ch)
    } else {
        s
    }
}

/// The castling rights are read as they are written.
pub proof fn lemma_castling_round_trip(b: Board)
    ensures
        spec_castling_rights(castling_text(b)) == Some(
            (b.can_castle_king_side, b.can_castle_queen_side),
        ),
        spaceless(castling_text(b)),
{
    let wk = b.can_castle_king_side[0];
    let wq = b.can_castle_queen_side[0];
    let bk = b.can_castle_king_side[1];
    let bq = b.can_castle_queen_side[1];
    let t = castling_text(b);
    if !wk && !wq && !bk && !bq {
        assert(b.can_castle_king_side =~= [false, false]);
        assert(b.can_castle_queen_side =~= [false, false]);
    } else {
        let s0 = Seq::<char>::empty();
        let s1 = with_letter(s0, wk, 'K');
        let s2 = with_letter(s1, wq, 'Q');
        let s3 = with_letter(s2, bk, 'k');
        let s4 = with_letter(s3, bq, 'q');
        assert(t =~= s4);
        lemma_rights_push(s0, 'K');
        lemma_rights_push(s1, 'Q');
        lemma_rights_push(s2, 'k');
        lemma_rights_push(s3, 'q');
        assert(rights_of(s0, 0) == Some(([false, false], [false, false])));
        let r1 = rights_of(s1, s1.len() as int);
        assert(r1 == Some(([wk, false], [false, false])));
        let r2 = rights_of(s2, s2.len() as int);
        assert(r2 == Some(([wk, false], [wq, false])));
        let r3 = rights_of(s3, s3.len() as int);
        assert(r3 == Some(([wk, bk], [wq, false])));
        let r4 = rights_of(s4, s4.len() as int);
        assert(r4 == Some(([wk, bk], [wq, bq])));
        assert(b.can_castle_king_side =~= [wk, bk]);
        assert(b.can_castle_queen_side =~= [wq, bq]);
        assert(t.len() <= 4 && t.len() >= 1);
        assert(t[0] != '-');
        assert(!(t =~= seq!['-']));
    }
}

/// The en-passant square is read as it is written.
pub proof fn lemma_en_passant_round_trip(ep: Option<Square>)
    requires
        ep matches Some(sq) ==> sq.valid(),
    ensures
        spec_en_passant_square(
            match ep {
                None => seq!['-'],
                Some(sq) => sq.name(),
            },
        ) == Some(ep),
        spaceless(
            match ep {
                None => seq!['-'],
                Some(sq) => sq.name(),
            },
        ),
{
    match ep {
        None => {},
        Some(sq) => {
            let s = sq.name();
            assert(s.len() == 2);
            assert(!(s =~= seq!['-']));
            let f = (97 + sq.0 % 8) as u8;
            let r = (49 + sq.0 / 8) as u8;
            assert(s[0] == f as char && s[1] == r as char);
            assert(s[0] as u8 == f && s[1] as u8 == r);
            assert('a' <= s[0] <= 'h');
            assert('1' <= s[1] <= '8');
        },
    }
}

/// Whether the square `s` comes before the square on rank `rank` and file
/// `file` in a record, which lists the ranks from the eighth down and each
/// from the a-file on.
pub open spec fn before(s: Square, rank: int, file: int) -> bool {
    s.spec_rank() > rank || (s.spec_rank() == rank && s.spec_file() < file)
}

/// The position of the record with its flags taken off and the side to
/// move, the rights, the en-passant square and the counter as they are
/// before a record is read.
pub open spec fn bare(b: Board) -> Board {
    Board {
        en_passant: None,
        can_castle_king_side: [false, false],
        can_castle_queen_side: [false, false],
        side_to_play: Color::WHITE,
        half_move_counter: 0,
        ..b
    }
}

/// The kings of `b` that reading has seen when it comes to the square on
/// rank `rank` and file `file`.
pub open spec fn seen_before(b: Board, rank: int, file: int) -> (bool, bool) {
    (before(b.king_pos[0], rank, file), before(b.king_pos[1], rank, file))
}

/// Whether `p` is what reading has made of the record of `b` when it
/// comes to the square on rank `rank` and file `file`: the pieces of `b`
/// on the squares before, and each king that stands on one of them.
pub open spec fn is_partial(p: Board, b: Board, rank: int, file: int) -> bool {
    &&& forall|c: Color|
        before(b.king_sq(c), rank, file) ==> #[trigger] p.king_sq(c) == b.king_sq(c)
    &&& forall|s: Square, q: Piece|
        s.valid() && q != Piece::KING ==> #[trigger] p.has_type(q, s) == (b.has_type(q, s)
            && before(s, rank, file))
    &&& forall|s: Square, c: Color|
        s.valid() ==> #[trigger] p.has_color(c, s) == (b.has_color(c, s) && before(s, rank, file))
    &&& forall|c: Color|
        !before(b.king_sq(c), rank, file) ==> #[trigger] p.king_sq(c) == start_board().king_sq(c)
    &&& p == bare(p)
}

/// The letter of a piece in a record names the piece and its colour, and
/// is neither a digit nor the sign between ranks.
proof fn lemma_letters(piece: Piece, color: Color)
    ensures
        spec_char_to_piece(spec_fen_char(piece, color)) == Some(piece),
        spec_char_to_color(spec_fen_char(piece, color)) == color,
        spec_fen_char(piece, color) != '/',
        spec_fen_char(piece, color) != ' ',
        !('1' <= spec_fen_char(piece, color) <= '8'),
{
}

/// The digit of a run of empty squares.
proof fn lemma_gap_digit(gap: int)
    requires
        1 <= gap <= 8,
    ensures
        decimal(gap as nat) == seq![digit_char(gap)],
        '1' <= digit_char(gap) <= '8',
        digit_char(gap) as u8 - 48 == gap,
        digit_char(gap) != '/',
        digit_char(gap) != ' ',
{
    assert(digit_char(gap) as u8 == 48 + gap);
}

/// What putting a king on a square does to each square.
proof fn lemma_crowned(p: Board, color: Color, sq: Square)
    requires
        sq.valid(),
    ensures
        ({
            let k = p.spec_crowned(color, sq);
            &&& k.king_sq(color) == sq
            &&& k.king_sq(color.opposite()) == p.king_sq(color.opposite())
            &&& k.piece_of_type == p.piece_of_type
            &&& bare(k) == bare(p).spec_crowned(color, sq)
            &&& k.en_passant == p.en_passant
            &&& forall|s: Square, x: Color|
                s.valid() ==> #[trigger] k.has_color(x, s) == (p.has_color(x, s) || (x == color
                    && s == sq))
            &&& forall|s: Square, q: Piece|
                s.valid() && q != Piece::KING ==> #[trigger] k.has_type(q, s) == p.has_type(q, s)
            &&& forall|s: Square| s.valid() ==> #[trigger] k.has_any_type(s) == p.has_any_type(s)
        }),
{
    lemma_bit_ops();
    crate::bits::lemma_single_bit();
    let word = p.color_bits(color) | square_bit(sq);
    p.lemma_with_color(color, word);
    bare(p).lemma_with_color(color, word);
    let k = p.spec_crowned(color, sq);
    assert(bare(k) =~= bare(p).spec_crowned(color, sq));
    assert forall|s: Square, x: Color| s.valid() implies #[trigger] k.has_color(x, s) == (
    p.has_color(x, s) || (x == color && s == sq)) by {}
    assert forall|s: Square, q: Piece| s.valid() && q != Piece::KING implies #[trigger] k.has_type(
        q,
        s,
    ) == p.has_type(q, s) by {}
    assert forall|s: Square| s.valid() implies #[trigger] k.has_any_type(s) == p.has_any_type(
        s,
    ) by {}
}

/// Reading passes over an empty square.
proof fn lemma_skip(p: Board, b: Board, rank: int, file: int)
    requires
        b.consistent(),
        0 <= rank < 8,
        0 <= file < 8,
        is_partial(p, b, rank, file),
        b.piece_on(Square((rank * 8 + file) as u8)) is None,
    ensures
        is_partial(p, b, rank, file + 1),
        seen_before(b, rank, file + 1) == seen_before(b, rank, file),
{
    let sq = Square((rank * 8 + file) as u8);
    lemma_occupant(b, sq);
    assert(b.king_sq(Color::WHITE) == b.king_pos[0] && b.king_sq(Color::BLACK) == b.king_pos[1]);
    assert(b.king_pos[0] != sq && b.king_pos[1] != sq);
    assert forall|c: Color| before(b.king_sq(c), rank, file + 1) implies #[trigger] p.king_sq(c)
        == b.king_sq(c) by {
        assert(b.king_sq(c) != sq);
    }
    assert forall|c: Color| !before(b.king_sq(c), rank, file + 1) implies #[trigger] p.king_sq(c)
        == start_board().king_sq(c) by {
        assert(b.king_sq(c) != sq);
    }
    assert forall|s: Square, q: Piece| s.valid() && q != Piece::KING implies #[trigger] p.has_type(
        q,
        s,
    ) == (b.has_type(q, s) && before(s, rank, file + 1)) by {
        if s == sq {
            assert(!b.has_type(q, s));
        }
    }
    assert forall|s: Square, c: Color| s.valid() implies #[trigger] p.has_color(c, s) == (
    b.has_color(c, s) && before(s, rank, file + 1)) by {
        if s == sq {
            assert(!b.has_color(c, s));
        }
    }
}

/// Reading puts the piece of a square on the board.
#[verifier::spinoff_prover]
proof fn lemma_put(p: Board, b: Board, rank: int, file: int) -> (p2: Board)
    requires
        b.consistent(),
        0 <= rank < 8,
        0 <= file < 8,
        is_partial(p, b, rank, file),
        b.piece_on(Square((rank * 8 + file) as u8)) is Some,
    ensures
        is_partial(p2, b, rank, file + 1),
        b.color_on(Square((rank * 8 + file) as u8)) is Some,
        put_next(
            p,
            seen_before(b, rank, file),
            b.piece_on(Square((rank * 8 + file) as u8)).unwrap(),
            b.color_on(Square((rank * 8 + file) as u8)).unwrap(),
            Square((rank * 8 + file) as u8),
        ) == Some((p2, seen_before(b, rank, file + 1))),
{
    let sq = Square((rank * 8 + file) as u8);
    let piece = b.piece_on(sq).unwrap();
    lemma_occupant(b, sq);
    let color = b.color_on(sq).unwrap();
    let other = color.opposite();
    lemma_occupant(b, b.king_sq(Color::WHITE));
    lemma_occupant(b, b.king_sq(Color::BLACK));
    assert(b.king_sq(Color::WHITE) == b.king_pos[0] && b.king_sq(Color::BLACK) == b.king_pos[1]);
    assert(b.king_pos[0] != b.king_pos[1]);
    assert(!before(sq, rank, file) && before(sq, rank, file + 1));
    if piece == Piece::KING {
        assert(sq == b.king_sq(color));
        assert(b.king_sq(other) != sq);
        let p2 = p.spec_crowned(color, sq);
        lemma_crowned(p, color, sq);
        assert(before(b.king_sq(other), rank, file + 1) == before(b.king_sq(other), rank, file));
        assert forall|c: Color| before(b.king_sq(c), rank, file + 1) implies #[trigger] p2.king_sq(
            c,
        ) == b.king_sq(c) by {
            if c != color {
                assert(c == other);
                assert(p.king_sq(c) == b.king_sq(c));
            }
        }
        assert forall|c: Color| !before(b.king_sq(c), rank, file + 1) implies #[trigger] p2.king_sq(
            c,
        ) == start_board().king_sq(c) by {
            assert(c == other);
            assert(p.king_sq(c) == start_board().king_sq(c));
        }
        assert forall|s: Square, q: Piece|
            s.valid() && q != Piece::KING implies #[trigger] p2.has_type(q, s) == (b.has_type(q, s)
            && before(s, rank, file + 1)) by {
            assert(p2.has_type(q, s) == p.has_type(q, s));
            if s == sq {
                assert(!b.has_type(q, s));
            }
        }
        assert forall|s: Square, c: Color| s.valid() implies #[trigger] p2.has_color(c, s) == (
        b.has_color(c, s) && before(s, rank, file + 1)) by {
            assert(p2.has_color(c, s) == (p.has_color(c, s) || (c == color && s == sq)));
            if s == sq {
                assert(b.has_color(c, s) == (c == color));
            }
        }
        assert(p2 =~= bare(p2));
        p2
    } else {
        assert(b.king_pos[0] != sq && b.king_pos[1] != sq);
        let p2 = p.spec_put_piece_fast(piece, color, BitBoard(square_bit(sq)));
        lemma_put_on(p, piece, color, sq);
        assert forall|c: Color| before(b.king_sq(c), rank, file + 1) implies #[trigger] p2.king_sq(
            c,
        ) == b.king_sq(c) by {
            assert(b.king_sq(c) != sq);
            assert(p2.king_sq(c) == p.king_sq(c));
        }
        assert forall|c: Color| !before(b.king_sq(c), rank, file + 1) implies #[trigger] p2.king_sq(
            c,
        ) == start_board().king_sq(c) by {
            assert(b.king_sq(c) != sq);
            assert(p2.king_sq(c) == p.king_sq(c));
        }
        assert forall|s: Square, q: Piece|
            s.valid() && q != Piece::KING implies #[trigger] p2.has_type(q, s) == (b.has_type(q, s)
            && before(s, rank, file + 1)) by {
            assert(p2.has_type(q, s) == (p.has_type(q, s) || (q == piece && s == sq)));
            if s == sq {
                assert(b.has_type(q, s) == (q == piece));
            }
        }
        assert forall|s: Square, c: Color| s.valid() implies #[trigger] p2.has_color(c, s) == (
        b.has_color(c, s) && before(s, rank, file + 1)) by {
            assert(p2.has_color(c, s) == (p.has_color(c, s) || (c == color && s == sq)));
            if s == sq {
                assert(b.has_color(c, s) == (c == color));
            }
        }
        assert(p2 =~= bare(p2));
        p2
    }
}

/// What is left of a text from its character `i` on.
pub open spec fn tail(text: Seq<char>, i: int) -> Seq<char> {
    text.subrange(i, text.len() as int)
}

/// Where what is left of a text begins with `head`, the text holds the
/// characters of `head` there, and after them what followed `head`.
proof fn lemma_tail_head(text: Seq<char>, i: int, head: Seq<char>, rest: Seq<char>)
    requires
        0 <= i <= text.len(),
        tail(text, i) == head + rest,
    ensures
        i + head.len() <= text.len(),
        forall|k: int| 0 <= k < head.len() ==> text[i + k] == head[k],
        tail(text, i + head.len()) == rest,
{
    let t = tail(text, i);
    assert(t.len() == head.len() + rest.len());
    assert forall|k: int| 0 <= k < head.len() implies text[i + k] == head[k] by {
        assert(t[k] == head[k]);
    }
    assert(tail(text, i + head.len()) =~= rest) by {
        assert forall|k: int| 0 <= k < rest.len() implies tail(text, i + head.len())[k]
            == rest[k] by {
            assert(t[head.len() + k] == rest[k]);
        }
    }
}

/// Reading the text of a rank from a file on puts its pieces on the board
/// and comes to the end of the rank. `p` is what reading has made so far,
/// `gap` the number of empty squares that it has yet to pass over. The
/// result is the board and the place in the text after the rank.
proof fn lemma_place_rank(
    p: Board,
    b: Board,
    text: Seq<char>,
    i: int,
    rank: int,
    file: int,
    gap: int,
    rest: Seq<char>,
) -> (end: (Board, int))
    requires
        b.consistent(),
        0 <= rank < 8,
        0 <= gap <= file <= 8,
        0 <= i <= text.len(),
        is_partial(p, b, rank, file),
        tail(text, i) == rank_text(b, rank, file, gap) + rest,
    ensures
        i <= end.1 <= text.len(),
        is_partial(end.0, b, rank, 8),
        tail(text, end.1) == rest,
        place(p, seen_before(b, rank, file), text, i, rank, file - gap) == place(
            end.0,
            seen_before(b, rank, 8),
            text,
            end.1,
            rank,
            8,
        ),
    decreases 8 - file,
{
    let here = rank_text(b, rank, file, gap);
    let seen = seen_before(b, rank, file);
    if gap > 0 {
        lemma_gap_digit(gap);
    }
    if file >= 8 {
        if gap > 0 {
            assert(here == seq![digit_char(gap)]);
            lemma_tail_head(text, i, here, rest);
            assert(text[i + 0] == here[0]);
            (p, i + 1)
        } else {
            assert(here =~= Seq::<char>::empty());
            assert(tail(text, i) =~= rest);
            (p, i)
        }
    } else {
        let sq = Square((rank * 8 + file) as u8);
        match b.piece_on(sq) {
            None => {
                lemma_skip(p, b, rank, file);
                lemma_place_rank(p, b, text, i, rank, file + 1, gap + 1, rest)
            },
            Some(piece) => {
                let p2 = lemma_put(p, b, rank, file);
                let color = b.color_on(sq).unwrap();
                let letter = spec_fen_char(piece, color);
                lemma_letters(piece, color);
                let after = rank_text(b, rank, file + 1, 0);
                if gap > 0 {
                    let head = seq![digit_char(gap), letter];
                    assert(here =~= head + after);
                    assert(tail(text, i) =~= head + (after + rest));
                    lemma_tail_head(text, i, head, after + rest);
                    assert(text[i + 0] == head[0]);
                    assert(text[i + 1] == head[1]);
                    assert(place(p, seen, text, i, rank, file - gap) == place(
                        p,
                        seen,
                        text,
                        i + 1,
                        rank,
                        file,
                    ));
                    assert(place(p, seen, text, i + 1, rank, file) == place(
                        p2,
                        seen_before(b, rank, file + 1),
                        text,
                        i + 2,
                        rank,
                        file + 1,
                    ));
                    lemma_place_rank(p2, b, text, i + 2, rank, file + 1, 0, rest)
                } else {
                    let head = seq![letter];
                    assert(here =~= head + after);
                    assert(tail(text, i) =~= head + (after + rest));
                    lemma_tail_head(text, i, head, after + rest);
                    assert(text[i + 0] == head[0]);
                    assert(place(p, seen, text, i, rank, file) == place(
                        p2,
                        seen_before(b, rank, file + 1),
                        text,
                        i + 1,
                        rank,
                        file + 1,
                    ));
                    lemma_place_rank(p2, b, text, i + 1, rank, file + 1, 0, rest)
                }
            },
        }
    }
}

/// What reading has made at the end of a rank it has made at the start of
/// the rank below.
proof fn lemma_next_rank(p: Board, b: Board, rank: int)
    requires
        b.consistent(),
        0 < rank < 8,
        is_partial(p, b, rank, 8),
    ensures
        is_partial(p, b, rank - 1, 0),
        seen_before(b, rank - 1, 0) == seen_before(b, rank, 8),
{
    assert forall|s: Square| s.valid() implies before(s, rank, 8) == before(s, rank - 1, 0) by {}
    assert(b.king_sq(Color::WHITE) == b.king_pos[0] && b.king_sq(Color::BLACK) == b.king_pos[1]);
    assert(b.king_pos[0].valid() && b.king_pos[1].valid());
    assert forall|c: Color| before(b.king_sq(c), rank - 1, 0) implies #[trigger] p.king_sq(c)
        == b.king_sq(c) by {
        assert(b.king_sq(c).valid());
    }
    assert forall|c: Color| !before(b.king_sq(c), rank - 1, 0) implies #[trigger] p.king_sq(c)
        == start_board().king_sq(c) by {
        assert(b.king_sq(c).valid());
    }
}

/// What reading has made at the end of the first rank is the position
/// without its flags, with both kings seen.
proof fn lemma_all_read(p: Board, b: Board)
    requires
        b.consistent(),
        is_partial(p, b, 0, 8),
    ensures
        p == bare(b),
        seen_before(b, 0, 8) == (true, true),
{
    assert forall|s: Square| s.valid() implies before(s, 0, 8) by {}
    assert(b.king_sq(Color::WHITE) == b.king_pos[0] && b.king_sq(Color::BLACK) == b.king_pos[1]);
    assert(b.king_pos[0].valid() && b.king_pos[1].valid());
    assert forall|c: Color| p.king_sq(c) == b.king_sq(c) by {
        assert(b.king_sq(c).valid());
    }
    assert(p.king_sq(Color::WHITE) == p.king_pos[0] && p.king_sq(Color::BLACK) == p.king_pos[1]);
    assert(p.king_pos =~= b.king_pos);
    assert forall|c: Color| p.color_bits(c) == b.color_bits(c) by {
        assert forall|i: u64| i < 64 implies bit(p.color_bits(c), i) == bit(b.color_bits(c), i) by {
            let s = Square(i as u8);
            assert(s.valid());
            assert(p.has_color(c, s) == b.has_color(c, s));
        }
        lemma_bits_equal(p.color_bits(c), b.color_bits(c));
    }
    assert forall|q: Piece| q != Piece::KING implies p.type_bits(q) == b.type_bits(q) by {
        assert forall|i: u64| i < 64 implies bit(p.type_bits(q), i) == bit(b.type_bits(q), i) by {
            let s = Square(i as u8);
            assert(s.valid());
            assert(p.has_type(q, s) == b.has_type(q, s));
        }
        lemma_bits_equal(p.type_bits(q), b.type_bits(q));
    }
    assert(p.color_bits(Color::WHITE) == b.color_bits(Color::WHITE));
    assert(p.color_bits(Color::BLACK) == b.color_bits(Color::BLACK));
    assert(p.type_bits(Piece::PAWN) == b.type_bits(Piece::PAWN));
    assert(p.type_bits(Piece::KNIGHT) == b.type_bits(Piece::KNIGHT));
    assert(p.type_bits(Piece::BISHOP) == b.type_bits(Piece::BISHOP));
    assert(p.type_bits(Piece::ROOK) == b.type_bits(Piece::ROOK));
    assert(p.type_bits(Piece::QUEEN) == b.type_bits(Piece::QUEEN));
    assert(p.piece_of_color =~= b.piece_of_color);
    assert(p.piece_of_type =~= b.piece_of_type);
    assert(p =~= bare(b));
}

/// Reading the text of the ranks from `rank` down gives the position
/// without its flags.
proof fn lemma_place_all(p: Board, b: Board, text: Seq<char>, i: int, rank: int)
    requires
        b.consistent(),
        0 <= rank < 8,
        0 <= i <= text.len(),
        is_partial(p, b, rank, 0),
        tail(text, i) == placement_text(b, rank),
    ensures
        place(p, seen_before(b, rank, 0), text, i, rank, 0) == Some(bare(b)),
    decreases rank,
{
    assert(placement_text(b, -1) =~= Seq::<char>::empty());
    if rank == 0 {
        assert(placement_text(b, 0) =~= rank_text(b, 0, 0, 0) + Seq::<char>::empty());
        let end = lemma_place_rank(p, b, text, i, 0, 0, 0, Seq::<char>::empty());
        assert(tail(text, end.1).len() == 0);
        assert(end.1 == text.len());
        lemma_all_read(end.0, b);
    } else {
        let rest = seq!['/'] + placement_text(b, rank - 1);
        assert(placement_text(b, rank) =~= rank_text(b, rank, 0, 0) + rest);
        let end = lemma_place_rank(p, b, text, i, rank, 0, 0, rest);
        lemma_tail_head(text, end.1, seq!['/'], placement_text(b, rank - 1));
        assert(text[end.1 + 0] == seq!['/'][0]);
        lemma_next_rank(end.0, b, rank);
        lemma_place_all(end.0, b, text, end.1 + 1, rank - 1);
    }
}

/// Before anything is read nothing is on the board and no king is seen.
proof fn lemma_start_partial(b: Board)
    requires
        b.consistent(),
    ensures
        is_partial(start_board(), b, 7, 0),
        seen_before(b, 7, 0) == (false, false),
{
    let p = start_board();
    lemma_bit_ops();
    assert forall|s: Square| s.valid() implies !before(s, 7, 0) by {}
    assert(b.king_sq(Color::WHITE) == b.king_pos[0] && b.king_sq(Color::BLACK) == b.king_pos[1]);
    assert(b.king_pos[0].valid() && b.king_pos[1].valid());
    assert forall|s: Square, q: Piece| s.valid() && q != Piece::KING implies !#[trigger] p.has_type(
        q,
        s,
    ) by {
        assert(p.type_bits(q) == 0);
    }
    assert forall|s: Square, c: Color| s.valid() implies !#[trigger] p.has_color(c, s) by {
        assert(p.color_bits(c) == 0);
    }
    assert(p =~= bare(p));
}

/// Reading the list of pieces of a record gives the pieces of the
/// position.
pub proof fn lemma_pieces_round_trip(b: Board)
    requires
        b.consistent(),
    ensures
        place(start_board(), (false, false), placement_text(b, 7), 0, 7, 0) == Some(bare(b)),
{
    let text = placement_text(b, 7);
    lemma_start_partial(b);
    assert(tail(text, 0) =~= text);
    lemma_place_all(start_board(), b, text, 0, 7);
}

/// The text of a rank from a file on has no space in it.
proof fn lemma_rank_spaceless(b: Board, rank: int, file: int, gap: int)
    requires
        0 <= gap <= file <= 8,
    ensures
        spaceless(rank_text(b, rank, file, gap)),
    decreases 8 - file,
{
    if gap > 0 {
        lemma_gap_digit(gap);
    }
    if file < 8 {
        let sq = Square((rank * 8 + file) as u8);
        match b.piece_on(sq) {
            None => {
                lemma_rank_spaceless(b, rank, file + 1, gap + 1);
            },
            Some(piece) => {
                lemma_letters(piece, b.color_on(sq).unwrap());
                lemma_rank_spaceless(b, rank, file + 1, 0);
            },
        }
    }
}

/// The list of pieces of a record has no space in it.
proof fn lemma_placement_spaceless(b: Board, rank: int)
    requires
        rank < 8,
    ensures
        spaceless(placement_text(b, rank)),
    decreases rank + 1,
{
    if rank >= 0 {
        lemma_rank_spaceless(b, rank, 0, 0);
        lemma_placement_spaceless(b, rank - 1);
    }
}

/// The spaces of a field and what follows it are those of the two and the
/// one between them.
proof fn lemma_spaces_join(field: Seq<char>, rest: Seq<char>)
    ensures
        spaces(join(field, rest), join(field, rest).len() as int) == spaces(
            field,
            field.len() as int,
        ) + 1 + spaces(rest, rest.len() as int),
    decreases rest.len(),
{
    let t = join(field, rest);
    if rest.len() == 0 {
        lemma_spaces_prefix(field, t, field.len() as int);
    } else {
        let short = rest.drop_last();
        lemma_spaces_join(field, short);
        lemma_spaces_prefix(join(field, short), t, t.len() - 1);
        lemma_spaces_prefix(short, rest, rest.len() - 1);
        assert(t[t.len() - 1] == rest[rest.len() - 1]);
    }
}

/// The number of spaces at the start of a text does not depend on what
/// follows.
proof fn lemma_spaces_prefix(s: Seq<char>, t: Seq<char>, n: int)
    requires
        0 <= n <= s.len(),
        s.len() <= t.len(),
        forall|i: int| 0 <= i < s.len() ==> s[i] == t[i],
    ensures
        spaces(t, n) == spaces(s, n),
    decreases n,
{
    if n > 0 {
        lemma_spaces_prefix(s, t, n - 1);
    }
}

/// A text without a space has none to count.
proof fn lemma_spaceless_none(s: Seq<char>, n: int)
    requires
        spaceless(s),
        0 <= n <= s.len(),
    ensures
        spaces(s, n) == 0,
    decreases n,
{
    if n > 0 {
        lemma_spaceless_none(s, n - 1);
    }
}

/// The fields of the record of a position.
pub open spec fn fields_of(b: Board) -> Fields {
    Fields {
        pieces: placement_text(b, 7),
        side_to_move: if b.side_to_play == Color::WHITE {
            seq!['w']
        } else {
            seq!['b']
        },
        castling: castling_text(b),
        en_passant: match b.en_passant {
            None => seq!['-'],
            Some(sq) => sq.name(),
        },
        half_move_clock: decimal(b.half_move_counter as nat),
    }
}

/// A record has six fields, and its first five are those of the position.
pub proof fn lemma_record_fields(b: Board, full_move_counter: int)
    requires
        b.wf(),
    ensures
        spaces(fen_text(b, full_move_counter), fen_text(b, full_move_counter).len() as int) == 5,
        are_fields(fields_of(b), fen_text(b, full_move_counter)),
{
    let f = fields_of(b);
    let rest = signed_decimal(full_move_counter);
    let t4 = join(f.half_move_clock, rest);
    let t3 = join(f.en_passant, t4);
    let t2 = join(f.castling, t3);
    let t1 = join(f.side_to_move, t2);
    let t0 = join(f.pieces, t1);
    assert(fen_text(b, full_move_counter) =~= t0);
    lemma_placement_spaceless(b, 7);
    lemma_castling_round_trip(b);
    lemma_en_passant_round_trip(b.en_passant);
    lemma_clock_round_trip(b.half_move_counter);
    lemma_numbers_spaceless(full_move_counter);
    lemma_spaceless_none(f.pieces, f.pieces.len() as int);
    lemma_spaceless_none(f.side_to_move, f.side_to_move.len() as int);
    lemma_spaceless_none(f.castling, f.castling.len() as int);
    lemma_spaceless_none(f.en_passant, f.en_passant.len() as int);
    lemma_spaceless_none(f.half_move_clock, f.half_move_clock.len() as int);
    lemma_spaceless_none(rest, rest.len() as int);
    lemma_spaces_join(f.half_move_clock, rest);
    lemma_spaces_join(f.en_passant, t4);
    lemma_spaces_join(f.castling, t3);
    lemma_spaces_join(f.side_to_move, t2);
    lemma_spaces_join(f.pieces, t1);
    assert(spaceless(rest) && t0 == join(
        f.pieces,
        join(f.side_to_move, join(f.castling, join(f.en_passant, join(f.half_move_clock, rest)))),
    ));
}

/// Reading the record of a position gives the position back, whatever the
/// number of the move: for every position whose sets fit together. So
/// writing what was read gives the record again.
pub proof fn lemma_record_round_trip(b: Board, full_move_counter: int)
    requires
        b.consistent(),
    ensures
        spec_fen(fen_text(b, full_move_counter)) == Some(b),
        fen_text(spec_fen(fen_text(b, full_move_counter)).unwrap(), full_move_counter) == fen_text(
            b,
            full_move_counter,
        ),
{
    let text = fen_text(b, full_move_counter);
    let f = fields_of(b);
    lemma_record_fields(b, full_move_counter);
    let g = choose|g: Fields| are_fields(g, text);
    lemma_fields_unique(f, g, text);
    lemma_pieces_round_trip(b);
    lemma_castling_round_trip(b);
    lemma_en_passant_round_trip(b.en_passant);
    lemma_clock_round_trip(b.half_move_counter);
    assert(spec_side_to_play(f.side_to_move) == Some(b.side_to_play));
    let read = Board {
        side_to_play: b.side_to_play,
        can_castle_king_side: b.can_castle_king_side,
        can_castle_queen_side: b.can_castle_queen_side,
        en_passant: b.en_passant,
        half_move_counter: b.half_move_counter,
        ..bare(b)
    };
    assert(read =~= b);
    assert(board_of(f) == Ok::<Board, crate::fen::FenError>(read));
}

/// Whether what reading has made so far fits together: the squares that
/// it has yet to come to are empty, each square before has one colour and
/// one type at most, a colour exactly when it has a type or a king seen,
/// and the kings seen stand on different squares, each in the set of its
/// colour.
pub open spec fn reading_fits(p: Board, seen: (bool, bool), rank: int, file: int) -> bool {
    &&& p.en_passant is None
    &&& seen.0 ==> p.king_pos[0].valid() && before(p.king_pos[0], rank, file) && p.has_color(
        Color::WHITE,
        p.king_pos[0],
    )
    &&& seen.1 ==> p.king_pos[1].valid() && before(p.king_pos[1], rank, file) && p.has_color(
        Color::BLACK,
        p.king_pos[1],
    )
    &&& seen.0 && seen.1 ==> p.king_pos[0] != p.king_pos[1]
    &&& forall|s: Square| s.valid() ==> #[trigger] cell_fits(p, seen, rank, file, s)
}

/// What `reading_fits` asks of one square.
pub open spec fn cell_fits(p: Board, seen: (bool, bool), rank: int, file: int, s: Square) -> bool {
    let king = (seen.0 && s == p.king_pos[0]) || (seen.1 && s == p.king_pos[1]);
    &&& !(p.has_color(Color::WHITE, s) && p.has_color(Color::BLACK, s))
    &&& forall|x: Piece, y: Piece|
        x != y && x != Piece::KING && y != Piece::KING ==> !(#[trigger] p.has_type(x, s)
            && #[trigger] p.has_type(y, s))
    &&& p.has_any_type(s) ==> !king
    &&& (p.has_color(Color::WHITE, s) || p.has_color(Color::BLACK, s)) == (p.has_any_type(s)
        || king)
    &&& p.has_color(Color::WHITE, s) || p.has_color(Color::BLACK, s) ==> before(s, rank, file)
}

/// What fits together when reading comes to a square fits together when
/// it comes to a later one.
proof fn lemma_fits_later(p: Board, seen: (bool, bool), rank: int, file: int, rank2: int, file2: int)
    requires
        reading_fits(p, seen, rank, file),
        rank2 < rank || (rank2 == rank && file <= file2),
        0 <= file2,
        0 <= file <= 8,
    ensures
        reading_fits(p, seen, rank2, file2),
{
    assert forall|s: Square| s.valid() implies #[trigger] cell_fits(p, seen, rank2, file2, s) by {
        assert(cell_fits(p, seen, rank, file, s));
    }
}

/// Putting the next piece of a list on its square keeps together what
/// reading has made.
#[verifier::spinoff_prover]
proof fn lemma_next_fits(
    p: Board,
    seen: (bool, bool),
    piece: Piece,
    color: Color,
    rank: int,
    file: int,
)
    requires
        reading_fits(p, seen, rank, file),
        0 <= rank < 8,
        0 <= file < 8,
        put_next(p, seen, piece, color, Square((rank * 8 + file) as u8)) is Some,
    ensures
        ({
            let next = put_next(p, seen, piece, color, Square((rank * 8 + file) as u8)).unwrap();
            reading_fits(next.0, next.1, rank, file + 1)
        }),
{
    let sq = Square((rank * 8 + file) as u8);
    let next = put_next(p, seen, piece, color, sq).unwrap();
    let p2 = next.0;
    let seen2 = next.1;
    assert(sq.valid() && !before(sq, rank, file) && before(sq, rank, file + 1));
    assert(cell_fits(p, seen, rank, file, sq));
    assert(!p.has_color(Color::WHITE, sq) && !p.has_color(Color::BLACK, sq));
    assert(!p.has_any_type(sq));
    if piece == Piece::KING {
        lemma_crowned(p, color, sq);
        assert(p2.king_sq(Color::WHITE) == p2.king_pos[0] && p2.king_sq(Color::BLACK)
            == p2.king_pos[1]);
        assert(p.king_sq(Color::WHITE) == p.king_pos[0] && p.king_sq(Color::BLACK) == p.king_pos[1]);
        assert(p2.has_color(color, sq));
        assert forall|s: Square| s.valid() implies #[trigger] cell_fits(
            p2,
            seen2,
            rank,
            file + 1,
            s,
        ) by {
            assert(cell_fits(p, seen, rank, file, s));
            assert(p2.has_color(Color::WHITE, s) == (p.has_color(Color::WHITE, s) || (Color::WHITE
                == color && s == sq)));
            assert(p2.has_color(Color::BLACK, s) == (p.has_color(Color::BLACK, s) || (Color::BLACK
                == color && s == sq)));
            assert(p2.has_any_type(s) == p.has_any_type(s));
            assert forall|x: Piece, y: Piece|
                x != y && x != Piece::KING && y != Piece::KING implies !(#[trigger] p2.has_type(
                x,
                s,
            ) && #[trigger] p2.has_type(y, s)) by {
                assert(p2.has_type(x, s) == p.has_type(x, s));
                assert(p2.has_type(y, s) == p.has_type(y, s));
            }
        }
        if seen.0 {
            assert(p2.has_color(Color::WHITE, p.king_pos[0]) == (p.has_color(
                Color::WHITE,
                p.king_pos[0],
            ) || (Color::WHITE == color && p.king_pos[0] == sq)));
        }
        if seen.1 {
            assert(p2.has_color(Color::BLACK, p.king_pos[1]) == (p.has_color(
                Color::BLACK,
                p.king_pos[1],
            ) || (Color::BLACK == color && p.king_pos[1] == sq)));
        }
    } else {
        lemma_put_on(p, piece, color, sq);
        assert forall|s: Square| s.valid() implies #[trigger] cell_fits(
            p2,
            seen2,
            rank,
            file + 1,
            s,
        ) by {
            assert(cell_fits(p, seen, rank, file, s));
            assert(p2.has_color(Color::WHITE, s) == (p.has_color(Color::WHITE, s) || (Color::WHITE
                == color && s == sq)));
            assert(p2.has_color(Color::BLACK, s) == (p.has_color(Color::BLACK, s) || (Color::BLACK
                == color && s == sq)));
            assert(p2.has_any_type(s) == (p.has_any_type(s) || s == sq));
            assert forall|x: Piece, y: Piece|
                x != y && x != Piece::KING && y != Piece::KING implies !(#[trigger] p2.has_type(
                x,
                s,
            ) && #[trigger] p2.has_type(y, s)) by {
                assert(p2.has_type(x, s) == (p.has_type(x, s) || (x == piece && s == sq)));
                assert(p2.has_type(y, s) == (p.has_type(y, s) || (y == piece && s == sq)));
                if s == sq {
                    assert(!p.has_type(x, s) && !p.has_type(y, s)) by {
                        assert(!p.has_any_type(sq));
                    }
                }
            }
        }
        if seen.0 {
            assert(p2.has_color(Color::WHITE, p.king_pos[0]) == (p.has_color(
                Color::WHITE,
                p.king_pos[0],
            ) || (Color::WHITE == color && p.king_pos[0] == sq)));
        }
        if seen.1 {
            assert(p2.has_color(Color::BLACK, p.king_pos[1]) == (p.has_color(
                Color::BLACK,
                p.king_pos[1],
            ) || (Color::BLACK == color && p.king_pos[1] == sq)));
        }
    }
}

/// Reading a list of pieces, where it can be read, gives a position whose
/// sets fit together.
proof fn lemma_place_is_consistent(
    p: Board,
    seen: (bool, bool),
    text: Seq<char>,
    i: int,
    rank: int,
    file: int,
)
    requires
        reading_fits(p, seen, rank, file),
        0 <= rank < 8,
        0 <= file <= 8,
        0 <= i,
        place(p, seen, text, i, rank, file) is Some,
    ensures
        place(p, seen, text, i, rank, file).unwrap().consistent(),
    decreases text.len() - i,
{
    if i < text.len() {
        let ch = text[i];
        if ch == '/' {
            lemma_fits_later(p, seen, rank, file, rank - 1, 0);
            lemma_place_is_consistent(p, seen, text, i + 1, rank - 1, 0);
        } else if '1' <= ch <= '8' {
            lemma_fits_later(p, seen, rank, file, rank, file + (ch as u8 - 48));
            lemma_place_is_consistent(p, seen, text, i + 1, rank, file + (ch as u8 - 48));
        } else {
            let piece = spec_char_to_piece(ch).unwrap();
            let color = spec_char_to_color(ch);
            let sq = Square((rank * 8 + file) as u8);
            lemma_next_fits(p, seen, piece, color, rank, file);
            let next = put_next(p, seen, piece, color, sq).unwrap();
            lemma_place_is_consistent(next.0, next.1, text, i + 1, rank, file + 1);
        }
    } else {
        lemma_square_by_square(p);
        assert forall|s: Square| s.valid() implies #[trigger] square_fits(p, s) by {
            assert(cell_fits(p, seen, rank, file, s));
        }
    }
}

/// The position that the fields of a record give has sets that fit
/// together: one colour and one type at most on a square, and one king of
/// each colour.
pub proof fn lemma_fields_give_consistent(f: Fields)
    requires
        board_of(f) is Ok,
    ensures
        board_of(f).unwrap().consistent(),
{
    let start = start_board();
    lemma_bit_ops();
    assert(reading_fits(start, (false, false), 7, 0)) by {
        assert forall|s: Square| s.valid() implies #[trigger] cell_fits(
            start,
            (false, false),
            7,
            0,
            s,
        ) by {
            assert(start.color_bits(Color::WHITE) == 0 && start.color_bits(Color::BLACK) == 0);
            assert forall|q: Piece| q != Piece::KING implies !#[trigger] start.has_type(q, s) by {
                assert(start.type_bits(q) == 0);
            }
        }
    }
    lemma_place_is_consistent(start, (false, false), f.pieces, 0, 7, 0);
    let placed = place(start, (false, false), f.pieces, 0, 7, 0).unwrap();
    let b = board_of(f).unwrap();
    assert(b.piece_of_color == placed.piece_of_color && b.piece_of_type == placed.piece_of_type
        && b.king_pos == placed.king_pos);
    assert(b.en_passant matches Some(sq) ==> sq.valid());
    assert forall|s: Square, c: Color| #[trigger] b.has_color(c, s) == placed.has_color(c, s) by {}
    assert forall|s: Square, q: Piece| #[trigger] b.has_type(q, s) == placed.has_type(q, s) by {}
    assert forall|s: Square| #[trigger] b.has_any_type(s) == placed.has_any_type(s) by {}
}

/// The position that a record gives has sets that fit together.
pub proof fn lemma_record_gives_consistent(text: Seq<char>)
    requires
        spec_fen(text) is Some,
    ensures
        spec_fen(text).unwrap().consistent(),
{
    lemma_fields_give_consistent(choose|f: Fields| are_fields(f, text));
}

} // verus!
