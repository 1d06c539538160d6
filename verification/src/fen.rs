//! Positions as text: the record of one line that lists the pieces rank by
//! rank, the side to move, the castling rights, the en-passant square and
//! the two counters of moves.
use vstd::prelude::*;
use crate::fen_laws::lemma_fields_give_consistent;
use crate::bitboard::BitBoard;
use crate::board::square_bit;
use crate::board::Board;
use crate::pieces::Color;
use crate::pieces::Piece;
use crate::square::Square;
use crate::square_constants::SQ_E1;
use crate::square_constants::SQ_E8;
use crate::text::decimal;
use crate::text::push_char;
use crate::text::push_number;
use crate::text::substring;

verus! {

/// The part of a record that cannot be read.
#[derive(Clone, Copy, Debug, PartialEq, Eq, Structural)]
pub enum FenError {
    /// The record does not have six fields.
    Fields,
    /// The list of the pieces.
    Pieces,
    /// The side to move.
    SideToMove,
    /// The castling rights.
    Castling,
    /// The en-passant square.
    EnPassant,
    /// The counter of reversible plies.
    HalfMoveClock,
}

/// The colour that the letter of a piece stands for: black for a small
/// letter, else white.
pub open spec fn spec_char_to_color(c: char) -> Color {
    if 'a' <= c <= 'z' {
        Color::BLACK
    } else {
        Color::WHITE
    }
}

pub fn char_to_color(c: char) -> (res: Color)
    ensures
        res == spec_char_to_color(c),
{
    if 'a' <= c && c <= 'z' {
        Color::BLACK
    } else {
        Color::WHITE
    }
}

/// The piece type that a letter stands for, whether small or capital.
pub open spec fn spec_char_to_piece(ch: char) -> Option<Piece> {
    if ch == 'p' || ch == 'P' {
        Some(Piece::PAWN)
    } else if ch == 'n' || ch == 'N' {
        Some(Piece::KNIGHT)
    } else if ch == 'b' || ch == 'B' {
        Some(Piece::BISHOP)
    } else if ch == 'r' || ch == 'R' {
        Some(Piece::ROOK)
    } else if ch == 'q' || ch == 'Q' {
        Some(Piece::QUEEN)
    } else if ch == 'k' || ch == 'K' {
        Some(Piece::KING)
    } else {
        None
    }
}

pub fn char_to_piece(ch: char) -> (res: Result<Piece, ()>)
    ensures
        res is Ok <==> spec_char_to_piece(ch) is Some,
        res matches Ok(p) ==> spec_char_to_piece(ch) == Some(p),
{
    match ch {
        'p' | 'P' => Ok(Piece::PAWN),
        'n' | 'N' => Ok(Piece::KNIGHT),
        'b' | 'B' => Ok(Piece::BISHOP),
        'r' | 'R' => Ok(Piece::ROOK),
        'q' | 'Q' => Ok(Piece::QUEEN),
        'k' | 'K' => Ok(Piece::KING),
        _ => Err(()),
    }
}

/// The side that a field of one letter names: `w` or `b`, small or
/// capital.
pub open spec fn spec_side_to_play(s: Seq<char>) -> Option<Color> {
    if s.len() != 1 {
        None
    } else if s[0] == 'b' || s[0] == 'B' {
        Some(Color::BLACK)
    } else if s[0] == 'w' || s[0] == 'W' {
        Some(Color::WHITE)
    } else {
        None
    }
}

pub fn side_to_play(ch: &str) -> (res: Result<Color, ()>)
    ensures
        res is Ok <==> spec_side_to_play(ch@) is Some,
        res matches Ok(c) ==> spec_side_to_play(ch@) == Some(c),
{
    if ch.unicode_len() != 1 {
        return Err(());
    }
    match ch.get_char(0) {
        'b' | 'B' => Ok(Color::BLACK),
        'w' | 'W' => Ok(Color::WHITE),
        _ => Err(()),
    }
}

/// The castling rights that the first `n` letters of a field grant: on the
/// king's side for white and black, then on the queen's side for white and
/// black. `None` if a letter is none of `K`, `Q`, `k` and `q`.
pub open spec fn rights_of(s: Seq<char>, n: int) -> Option<([bool; 2], [bool; 2])>
    decreases n,
{
    if n <= 0 {
        Some(([false, false], [false, false]))
    } else {
        match rights_of(s, n - 1) {
            None => None,
            Some((ks, qs)) => {
                let ch = s[n - 1];
                if ch == 'K' {
                    Some(([true, ks[1]], qs))
                } else if ch == 'k' {
                    Some(([ks[0], true], qs))
                } else if ch == 'Q' {
                    Some((ks, [true, qs[1]]))
                } else if ch == 'q' {
                    Some((ks, [qs[0], true]))
                } else {
                    None
                }
            },
        }
    }
}

/// The castling rights that a field grants: none for `-`, else those of
/// its letters, of which there are at most four.
pub open spec fn spec_castling_rights(s: Seq<char>) -> Option<([bool; 2], [bool; 2])> {
    if s =~= seq!['-'] {
        Some(([false, false], [false, false]))
    } else if s.len() > 4 {
        None
    } else {
        rights_of(s, s.len() as int)
    }
}

/// The castling rights of a field: on the king's side for white and
/// black, then on the queen's side for white and black.
pub fn castling_rights(s: &str) -> (res: Result<[[bool; 2]; 2], ()>)
    ensures
        res is Ok <==> spec_castling_rights(s@) is Some,
        res matches Ok(r) ==> spec_castling_rights(s@) == Some((r[0], r[1])),
{
    let n = s.unicode_len();
    let mut king_side = [false, false];
    let mut queen_side = [false, false];
    if n == 1 && s.get_char(0) == '-' {
        assert(s@ =~= seq!['-']);
        return Ok([king_side, queen_side]);
    }
    if n > 4 {
        return Err(());
    }
    let mut i: usize = 0;
    while i < n
        invariant
            i <= n,
            n == s@.len(),
            n <= 4,
            n != 1 || s@[0] != '-',
            rights_of(s@, i as int) == Some((king_side, queen_side)),
        decreases n - i,
    {
        let ch = s.get_char(i);
        if ch == 'K' {
            king_side = [true, king_side[1]];
        } else if ch == 'k' {
            king_side = [king_side[0], true];
        } else if ch == 'Q' {
            queen_side = [true, queen_side[1]];
        } else if ch == 'q' {
            queen_side = [queen_side[0], true];
        } else {
            proof {
                assert(rights_of(s@, i + 1) is None);
                lemma_rights_stay_none(s@, i + 1, n as int);
                assert(!(s@ =~= seq!['-']));
            }
            return Err(());
        }
        i += 1;
    }
    assert(!(s@ =~= seq!['-']));
    Ok([king_side, queen_side])
}

/// Once a letter is refused, the field is.
proof fn lemma_rights_stay_none(s: Seq<char>, from: int, to: int)
    requires
        0 <= from <= to,
        rights_of(s, from) is None,
    ensures
        rights_of(s, to) is None,
    decreases to - from,
{
    if from < to {
        lemma_rights_stay_none(s, from, to - 1);
    }
}

/// The en-passant square that a field names: none for `-`, else the
/// square of a name of two letters.
pub open spec fn spec_en_passant_square(s: Seq<char>) -> Option<Option<Square>> {
    if s =~= seq!['-'] {
        Some(None)
    } else if s.len() != 2 || s[0] < 'a' || s[0] > 'h' || s[1] < '1' || s[1] > '8' {
        None
    } else {
        Some(Some(Square(((s[1] as u8 - 49) * 8 + (s[0] as u8 - 97)) as u8)))
    }
}

pub fn en_passant_square(s: &String) -> (res: Result<Option<Square>, ()>)
    ensures
        res is Ok <==> spec_en_passant_square(s@) is Some,
        res matches Ok(e) ==> spec_en_passant_square(s@) == Some(e) && (e matches Some(sq)
            ==> sq.valid()),
{
    let text = s.as_str();
    let n = text.unicode_len();
    if n == 1 && text.get_char(0) == '-' {
        assert(s@ =~= seq!['-']);
        return Ok(None);
    }
    if n != 2 {
        return Err(());
    }
    let file_char = text.get_char(0);
    let rank_char = text.get_char(1);
    if file_char < 'a' || file_char > 'h' || rank_char < '1' || rank_char > '8' {
        return Err(());
    }
    let file = file_char as u8 - 97;
    let rank = rank_char as u8 - 49;
    Ok(Some(Square::from_coords(file, rank)))
}

/// The number that a field of decimal digits writes, after a `+` if there
/// is one, if it is at most 255.
pub open spec fn spec_clock(s: Seq<char>) -> Option<u8> {
    let digits = if s.len() > 0 && s[0] == '+' {
        s.subrange(1, s.len() as int)
    } else {
        s
    };
    if digits.len() == 0 {
        None
    } else {
        match value_of(digits, digits.len() as int) {
            Some(v) => if v <= 255 {
                Some(v as u8)
            } else {
                None
            },
            None => None,
        }
    }
}

/// The number that the first `n` characters write, if all are decimal
/// digits.
pub open spec fn value_of(s: Seq<char>, n: int) -> Option<nat>
    decreases n,
{
    if n <= 0 {
        Some(0)
    } else {
        match value_of(s, n - 1) {
            None => None,
            Some(v) => if '0' <= s[n - 1] <= '9' {
                Some(v * 10 + (s[n - 1] as u8 - 48) as nat)
            } else {
                None
            },
        }
    }
}

/// A character that is no digit, or a number that has grown beyond 255,
/// spoils the number for good.
proof fn lemma_value_stays(s: Seq<char>, from: int, to: int)
    requires
        0 <= from <= to,
    ensures
        value_of(s, from) is None ==> value_of(s, to) is None,
        value_of(s, from) is Some && value_of(s, to) is Some ==> value_of(s, to).unwrap()
            >= value_of(s, from).unwrap(),
    decreases to - from,
{
    if from < to {
        lemma_value_stays(s, from, to - 1);
    }
}

/// Reads the counter of reversible plies.
fn parse_clock(text: &str) -> (res: Result<u8, ()>)
    ensures
        res is Ok <==> spec_clock(text@) is Some,
        res matches Ok(v) ==> spec_clock(text@) == Some(v),
{
    let n = text.unicode_len();
    let start: usize = if n > 0 && text.get_char(0) == '+' {
        1
    } else {
        0
    };
    if start == n {
        return Err(());
    }
    let ghost digits = text@.subrange(start as int, n as int);
    assert(start == 0 ==> digits =~= text@);
    let mut value: u32 = 0;
    let mut i: usize = start;
    while i < n
        invariant
            start <= i <= n,
            n == text@.len(),
            start < n,
            start == (if text@.len() > 0 && text@[0] == '+' {
                1int
            } else {
                0int
            }),
            digits == text@.subrange(start as int, n as int),
            start == 0 ==> digits == text@,
            value <= 255,
            value_of(digits, i - start) == Some(value as nat),
        decreases n - i,
    {
        let ch = text.get_char(i);
        assert(digits[i - start] == ch);
        if ch < '0' || ch > '9' {
            proof {
                assert(value_of(digits, i - start + 1) is None);
                lemma_value_stays(digits, i - start + 1, n - start);
            }
            return Err(());
        }
        value = value * 10 + (ch as u8 - 48) as u32;
        assert(value_of(digits, i - start + 1) == Some(value as nat));
        if value > 255 {
            proof {
                lemma_value_stays(digits, i - start + 1, n - start);
            }
            return Err(());
        }
        i += 1;
    }
    Ok(value as u8)
}

/// The letter of a piece in a record: capital for white, small for black.
pub open spec fn spec_fen_char(piece: Piece, color: Color) -> char {
    match color {
        Color::WHITE => match piece {
            Piece::PAWN => 'P',
            Piece::BISHOP => 'B',
            Piece::KNIGHT => 'N',
            Piece::ROOK => 'R',
            Piece::QUEEN => 'Q',
            Piece::KING => 'K',
        },
        Color::BLACK => match piece {
            Piece::PAWN => 'p',
            Piece::BISHOP => 'b',
            Piece::KNIGHT => 'n',
            Piece::ROOK => 'r',
            Piece::QUEEN => 'q',
            Piece::KING => 'k',
        },
    }
}

pub fn fen_char(piece: Piece, color: Color) -> (res: char)
    ensures
        res == spec_fen_char(piece, color),
{
    match color {
        Color::WHITE => match piece {
            Piece::PAWN => 'P',
            Piece::BISHOP => 'B',
            Piece::KNIGHT => 'N',
            Piece::ROOK => 'R',
            Piece::QUEEN => 'Q',
            Piece::KING => 'K',
        },
        Color::BLACK => match piece {
            Piece::PAWN => 'p',
            Piece::BISHOP => 'b',
            Piece::KNIGHT => 'n',
            Piece::ROOK => 'r',
            Piece::QUEEN => 'q',
            Piece::KING => 'k',
        },
    }
}

/// `yes` if `present`, else nothing.
pub open spec fn maybe(present: bool, yes: Seq<char>) -> Seq<char> {
    if present {
        yes
    } else {
        Seq::empty()
    }
}

/// The castling rights of a position as a field: the letters of the
/// rights held in the order `KQkq`, or `-` if none is.
pub open spec fn castling_text(b: Board) -> Seq<char> {
    if !b.can_castle_king_side[0] && !b.can_castle_queen_side[0] && !b.can_castle_king_side[1]
        && !b.can_castle_queen_side[1] {
        seq!['-']
    } else {
        maybe(b.can_castle_king_side[0], seq!['K']) + maybe(b.can_castle_queen_side[0], seq!['Q'])
            + maybe(b.can_castle_king_side[1], seq!['k']) + maybe(
            b.can_castle_queen_side[1],
            seq!['q'],
        )
    }
}

pub fn castling_rights_to_string(board: &Board) -> (res: String)
    ensures
        res@ == castling_text(*board),
{
    let mut s = String::new();
    let mut can_castle = false;
    if board.can_castle_king_side[0] {
        push_char(&mut s, 'K');
        can_castle = true;
    }
    if board.can_castle_queen_side[0] {
        push_char(&mut s, 'Q');
        can_castle = true;
    }
    if board.can_castle_king_side[1] {
        push_char(&mut s, 'k');
        can_castle = true;
    }
    if board.can_castle_queen_side[1] {
        push_char(&mut s, 'q');
        can_castle = true;
    }
    if !can_castle {
        push_char(&mut s, '-');
    }
    proof {
        assert(s@ =~= castling_text(*board));
    }
    s
}

/// What stands in a record for the squares of rank `rank` from file
/// `file` on, after `gap` empty squares not yet written: the letter of
/// each piece, and the number of each run of empty squares.
pub open spec fn rank_text(b: Board, rank: int, file: int, gap: int) -> Seq<char>
    decreases 8 - file,
{
    if file >= 8 {
        maybe(gap > 0, decimal(gap as nat))
    } else {
        let sq = Square((rank * 8 + file) as u8);
        match b.piece_on(sq) {
            None => rank_text(b, rank, file + 1, gap + 1),
            Some(piece) => maybe(gap > 0, decimal(gap as nat)).push(
                spec_fen_char(piece, b.color_on(sq).unwrap()),
            ) + rank_text(b, rank, file + 1, 0),
        }
    }
}

/// What stands in a record for the ranks from `rank` down to the first,
/// with `/` between them.
pub open spec fn placement_text(b: Board, rank: int) -> Seq<char>
    decreases rank + 1,
{
    if rank < 0 {
        Seq::empty()
    } else {
        rank_text(b, rank, 0, 0) + maybe(rank > 0, seq!['/']) + placement_text(b, rank - 1)
    }
}

/// A whole number in decimal digits, with `-` before it if it is
/// negative.
pub open spec fn signed_decimal(n: int) -> Seq<char> {
    if n < 0 {
        seq!['-'] + decimal((-n) as nat)
    } else {
        decimal(n as nat)
    }
}

/// The record of a position and the number of the move.
pub open spec fn fen_text(b: Board, full_move_counter: int) -> Seq<char> {
    placement_text(b, 7) + seq![' ', if b.side_to_play == Color::WHITE {
        'w'
    } else {
        'b'
    }, ' '] + castling_text(b) + seq![' '] + (match b.en_passant {
        None => seq!['-'],
        Some(sq) => sq.name(),
    }) + seq![' '] + decimal(b.half_move_counter as nat) + seq![' '] + signed_decimal(
        full_move_counter,
    )
}

impl Board {
    /// Whether every square on which a piece stands has a colour.
    pub open spec fn colored(self) -> bool {
        forall|s: Square| s.valid() && #[trigger] self.piece_on(s) is Some ==> self.color_on(s) is Some
    }
}

/// The record of the position `board` at move `full_move_counter`.
pub fn to_string(board: &Board, full_move_counter: i32) -> (res: String)
    requires
        board.wf(),
        board.colored(),
    ensures
        res@ == fen_text(*board, full_move_counter as int),
{
    let mut s = String::new();
    let mut r: u8 = 8;
    while r > 0
        invariant
            r <= 8,
            board.wf(),
            board.colored(),
            s@ + placement_text(*board, r - 1) == placement_text(*board, 7),
        decreases r,
    {
        let rank = r - 1;
        let ghost at_rank = s@;
        let mut counter: u32 = 0;
        let mut file: u8 = 0;
        while file < 8
            invariant
                file <= 8,
                rank < 8,
                counter <= file,
                board.wf(),
                board.colored(),
                s@ + rank_text(*board, rank as int, file as int, counter as int) == at_rank
                    + rank_text(*board, rank as int, 0, 0),
            decreases 8 - file,
        {
            let sq = Square::from_coords(file, rank);
            let bb = BitBoard::from_square(sq);
            proof {
                board.lemma_piece_at_square(sq);
                board.lemma_color_at_square(sq);
            }
            match board.piece_at(bb) {
                None => {
                    counter += 1;
                },
                Some(piece) => {
                    if counter > 0 {
                        push_number(&mut s, counter);
                        counter = 0;
                    }
                    let color = match board.color_at(bb) {
                        Some(c) => c,
                        None => Color::WHITE,
                    };
                    push_char(&mut s, fen_char(piece, color));
                },
            }
            proof {
                assert(s@ + rank_text(*board, rank as int, file + 1, counter as int) =~= at_rank
                    + rank_text(*board, rank as int, 0, 0));
            }
            file += 1;
        }
        if counter > 0 {
            push_number(&mut s, counter);
        }
        if rank > 0 {
            push_char(&mut s, '/');
        }
        proof {
            assert(s@ =~= at_rank + rank_text(*board, rank as int, 0, 0) + maybe(
                rank > 0,
                seq!['/'],
            ));
            assert(s@ + placement_text(*board, rank - 1) =~= at_rank + placement_text(
                *board,
                rank as int,
            ));
        }
        r -= 1;
    }
    proof {
        assert(s@ =~= placement_text(*board, 7));
    }
    push_char(&mut s, ' ');
    push_char(
        &mut s,
        match board.side_to_play {
            Color::WHITE => 'w',
            Color::BLACK => 'b',
        },
    );
    push_char(&mut s, ' ');
    let rights = castling_rights_to_string(board);
    s.append(rights.as_str());
    push_char(&mut s, ' ');
    match board.en_passant {
        None => {
            push_char(&mut s, '-');
        },
        Some(square) => {
            push_char(&mut s, (97 + square.file()) as char);
            push_char(&mut s, (49 + square.rank()) as char);
        },
    }
    push_char(&mut s, ' ');
    push_number(&mut s, board.half_move_counter as u32);
    push_char(&mut s, ' ');
    if full_move_counter < 0 {
        push_char(&mut s, '-');
        push_number(&mut s, (-(full_move_counter as i64)) as u32);
    } else {
        push_number(&mut s, full_move_counter as u32);
    }
    proof {
        assert(s@ =~= fen_text(*board, full_move_counter as int));
    }
    s
}

/// The first five fields of a record.
pub struct FenComponents {
    pub pieces: String,
    pub side_to_move: String,
    pub castling: String,
    pub en_passant: String,
    pub half_move_clock: String,
}

/// The number of spaces among the first `n` characters.
pub open spec fn spaces(s: Seq<char>, n: int) -> int
    decreases n,
{
    if n <= 0 {
        0
    } else {
        spaces(s, n - 1) + if s[n - 1] == ' ' {
            1int
        } else {
            0int
        }
    }
}

/// Whether a text has no space in it.
pub open spec fn spaceless(s: Seq<char>) -> bool {
    forall|i: int| 0 <= i < s.len() ==> s[i] != ' '
}

/// The texts of the first five fields of a record.
#[verifier::ext_equal]
pub struct Fields {
    pub pieces: Seq<char>,
    pub side_to_move: Seq<char>,
    pub castling: Seq<char>,
    pub en_passant: Seq<char>,
    pub half_move_clock: Seq<char>,
}

impl View for FenComponents {
    type V = Fields;

    open spec fn view(&self) -> Fields {
        Fields {
            pieces: self.pieces@,
            side_to_move: self.side_to_move@,
            castling: self.castling@,
            en_passant: self.en_passant@,
            half_move_clock: self.half_move_clock@,
        }
    }
}

/// A field and what follows it, with the space between them.
pub open spec fn join(field: Seq<char>, rest: Seq<char>) -> Seq<char> {
    field + seq![' '] + rest
}

/// Whether `f` holds the first five of the six fields of `text`, which
/// single spaces divide.
pub open spec fn are_fields(f: Fields, text: Seq<char>) -> bool {
    &&& spaceless(f.pieces) && spaceless(f.side_to_move) && spaceless(f.castling) && spaceless(
        f.en_passant,
    ) && spaceless(f.half_move_clock)
    &&& exists|rest: Seq<char>|
        spaceless(rest) && text == #[trigger] join(
            f.pieces,
            join(f.side_to_move, join(f.castling, join(f.en_passant, join(f.half_move_clock, rest)))),
        )
}

impl FenComponents {

    /// Divides a record into its fields; they must be six.
    pub fn parse(string: &str) -> (res: Result<FenComponents, FenError>)
        ensures
            res is Ok <==> spaces(string@, string@.len() as int) == 5,
            res matches Ok(c) ==> are_fields(c@, string@),
            res matches Err(e) ==> e == FenError::Fields,
    {
        let n = string.unicode_len();
        let mut cuts: Vec<usize> = Vec::new();
        let mut i: usize = 0;
        while i < n
            invariant
                i <= n,
                n == string@.len(),
                cuts@.len() == spaces(string@, i as int),
                forall|k: int| 0 <= k < cuts@.len() ==> cuts@[k] < i && string@[cuts@[k] as int] == ' ',
                forall|k: int, l: int| 0 <= k < l < cuts@.len() ==> cuts@[k] < cuts@[l],
                forall|j: int|
                    0 <= j < i && string@[j] == ' ' ==> exists|k: int|
                        0 <= k < cuts@.len() && #[trigger] cuts@[k] == j,
            decreases n - i,
        {
            if string.get_char(i) == ' ' {
                let ghost before = cuts@;
                cuts.push(i);
                proof {
                    assert forall|j: int| 0 <= j < i + 1 && string@[j] == ' ' implies exists|k: int|
                        0 <= k < cuts@.len() && #[trigger] cuts@[k] == j by {
                        if j < i {
                            let k = choose|k: int| 0 <= k < before.len() && #[trigger] before[k] == j;
                            assert(cuts@[k] == j);
                        } else {
                            assert(cuts@[cuts@.len() - 1] == j);
                        }
                    }
                }
            } else {
                proof {
                    assert forall|j: int| 0 <= j < i + 1 && string@[j] == ' ' implies exists|k: int|
                        0 <= k < cuts@.len() && #[trigger] cuts@[k] == j by {
                        let k = choose|k: int| 0 <= k < cuts@.len() && #[trigger] cuts@[k] == j;
                    }
                }
            }
            i += 1;
        }
        if cuts.len() != 5 {
            return Err(FenError::Fields);
        }
        let c = FenComponents {
            pieces: substring(string, 0, cuts[0]),
            side_to_move: substring(string, cuts[0] + 1, cuts[1]),
            castling: substring(string, cuts[1] + 1, cuts[2]),
            en_passant: substring(string, cuts[2] + 1, cuts[3]),
            half_move_clock: substring(string, cuts[3] + 1, cuts[4]),
        };
        proof {
            let t = string@;
            let rest = t.subrange(cuts@[4] + 1, n as int);
            assert forall|j: int| 0 <= j < n && t[j] == ' ' implies j == cuts@[0] || j == cuts@[1]
                || j == cuts@[2] || j == cuts@[3] || j == cuts@[4] by {
                let k = choose|k: int| 0 <= k < cuts@.len() && #[trigger] cuts@[k] == j;
            }
            assert(spaceless(rest));
            assert(spaceless(c.pieces@));
            assert(spaceless(c.side_to_move@));
            assert(spaceless(c.castling@));
            assert(spaceless(c.en_passant@));
            assert(spaceless(c.half_move_clock@));
            let whole = join(
                c.pieces@,
                join(
                    c.side_to_move@,
                    join(c.castling@, join(c.en_passant@, join(c.half_move_clock@, rest))),
                ),
            );
            assert(t =~= whole);
            assert(t == join(
                c@.pieces,
                join(
                    c@.side_to_move,
                    join(c@.castling, join(c@.en_passant, join(c@.half_move_clock, rest))),
                ),
            ));
            assert(are_fields(c@, t));
        }
        Ok(c)
    }
}

impl Board {
    /// The position with the king of `color` on `square`: the square
    /// joins the set of the colour.
    pub open spec fn spec_crowned(self, color: Color, square: Square) -> Board {
        self.with_color(color, self.color_bits(color) | square_bit(square)).with_king(
            color,
            square,
        )
    }
}

/// Whether the king of `color` is among the kings `seen`, white and
/// black.
pub open spec fn has_seen(seen: (bool, bool), color: Color) -> bool {
    if color == Color::WHITE {
        seen.0
    } else {
        seen.1
    }
}

/// The kings seen once that of `color` has been.
pub open spec fn with_seen(seen: (bool, bool), color: Color) -> (bool, bool) {
    if color == Color::WHITE {
        (true, seen.1)
    } else {
        (seen.0, true)
    }
}

/// What the next piece of a list makes of the position `b` and of the
/// kings seen: the piece stands on `sq`, and a king is seen. `None` for
/// the second king of a colour.
pub open spec fn put_next(b: Board, seen: (bool, bool), piece: Piece, color: Color, sq: Square)
    -> Option<(Board, (bool, bool))> {
    if piece == Piece::KING {
        if has_seen(seen, color) {
            None
        } else {
            Some((b.spec_crowned(color, sq), with_seen(seen, color)))
        }
    } else {
        Some((b.spec_put_piece_fast(piece, color, BitBoard(square_bit(sq))), seen))
    }
}

/// The position that the list of pieces `text`, read from its character
/// `i` on, makes of `b` when the next piece goes on rank `rank` and file
/// `file` and the kings of `seen` have been read: `/` leads to the rank
/// below, a digit passes over as many files, and a letter puts its piece
/// on the square. `None` if the list leaves the board, names no piece, or
/// does not name one king of each colour.
pub open spec fn place(
    b: Board,
    seen: (bool, bool),
    text: Seq<char>,
    i: int,
    rank: int,
    file: int,
) -> Option<Board>
    decreases text.len() - i,
{
    if i >= text.len() || i < 0 {
        if seen.0 && seen.1 {
            Some(b)
        } else {
            None
        }
    } else {
        let ch = text[i];
        if ch == '/' {
            if rank <= 0 {
                None
            } else {
                place(b, seen, text, i + 1, rank - 1, 0)
            }
        } else if '1' <= ch <= '8' {
            if file + (ch as u8 - 48) > 8 {
                None
            } else {
                place(b, seen, text, i + 1, rank, file + (ch as u8 - 48))
            }
        } else {
            match spec_char_to_piece(ch) {
                None => None,
                Some(piece) => if file >= 8 {
                    None
                } else {
                    let sq = Square((rank * 8 + file) as u8);
                    match put_next(b, seen, piece, spec_char_to_color(ch), sq) {
                        None => None,
                        Some(next) => place(next.0, next.1, text, i + 1, rank, file + 1),
                    }
                },
            }
        }
    }
}

/// The board with nothing on it, from which a record is read. The squares
/// of its kings stand for nothing until the list of pieces names the
/// kings.
pub open spec fn start_board() -> Board {
    Board {
        piece_of_color: [BitBoard(0), BitBoard(0)],
        piece_of_type: [BitBoard(0), BitBoard(0), BitBoard(0), BitBoard(0), BitBoard(0)],
        king_pos: [Square(SQ_E1), Square(SQ_E8)],
        en_passant: None,
        can_castle_king_side: [false, false],
        can_castle_queen_side: [false, false],
        side_to_play: Color::WHITE,
        half_move_counter: 0,
    }
}

/// The position that the fields `f` of a record give, or the field that
/// cannot be read: the first of the list of pieces, the side to move, the
/// castling rights, the en-passant square and the counter of reversible
/// plies.
pub open spec fn board_of(f: Fields) -> Result<Board, FenError> {
    match place(start_board(), (false, false), f.pieces, 0, 7, 0) {
        None => Err(FenError::Pieces),
        Some(b) => match spec_side_to_play(f.side_to_move) {
            None => Err(FenError::SideToMove),
            Some(side) => match spec_castling_rights(f.castling) {
                None => Err(FenError::Castling),
                Some((ks, qs)) => match spec_en_passant_square(f.en_passant) {
                    None => Err(FenError::EnPassant),
                    Some(ep) => match spec_clock(f.half_move_clock) {
                        None => Err(FenError::HalfMoveClock),
                        Some(clock) => Ok(
                            Board {
                                side_to_play: side,
                                can_castle_king_side: ks,
                                can_castle_queen_side: qs,
                                en_passant: ep,
                                half_move_counter: clock,
                                ..b
                            },
                        ),
                    },
                },
            },
        },
    }
}

/// The position that the record `text` gives, if it has six fields and
/// they can be read.
pub open spec fn spec_fen(text: Seq<char>) -> Option<Board> {
    if spaces(text, text.len() as int) != 5 {
        None
    } else {
        match board_of(choose|f: Fields| are_fields(f, text)) {
            Ok(b) => Some(b),
            Err(_) => None,
        }
    }
}

/// A text begins with one field only: the same text divided in two ways at
/// a space after a text without spaces is divided in one way.
pub proof fn lemma_join_unique(a: Seq<char>, r: Seq<char>, a2: Seq<char>, r2: Seq<char>)
    requires
        spaceless(a),
        spaceless(a2),
        join(a, r) == join(a2, r2),
    ensures
        a == a2,
        r == r2,
{
    let t = join(a, r);
    let t2 = join(a2, r2);
    assert(t[a.len() as int] == ' ');
    assert(t2[a2.len() as int] == ' ');
    if a.len() < a2.len() {
        assert(t2[a.len() as int] == a2[a.len() as int]);
    }
    if a2.len() < a.len() {
        assert(t[a2.len() as int] == a[a2.len() as int]);
    }
    assert(a =~= a2) by {
        assert forall|i: int| 0 <= i < a.len() implies a[i] == a2[i] by {
            assert(t[i] == a[i]);
            assert(t2[i] == a2[i]);
        }
    }
    assert(r =~= r2) by {
        assert(t.len() == a.len() + 1 + r.len());
        assert(t2.len() == a2.len() + 1 + r2.len());
        assert(r.len() == r2.len());
        assert forall|i: int| 0 <= i < r.len() implies r[i] == r2[i] by {
            assert(t[a.len() + 1 + i] == r[i]);
            assert(t2[a.len() + 1 + i] == r2[i]);
        }
    }
}

/// A record has its fields in one way only.
pub proof fn lemma_fields_unique(f: Fields, g: Fields, text: Seq<char>)
    requires
        are_fields(f, text),
        are_fields(g, text),
    ensures
        f == g,
{
    let rf = choose|rest: Seq<char>|
        spaceless(rest) && text == #[trigger] join(
            f.pieces,
            join(f.side_to_move, join(f.castling, join(f.en_passant, join(f.half_move_clock, rest)))),
        );
    let rg = choose|rest: Seq<char>|
        spaceless(rest) && text == #[trigger] join(
            g.pieces,
            join(g.side_to_move, join(g.castling, join(g.en_passant, join(g.half_move_clock, rest)))),
        );
    let f4 = join(f.half_move_clock, rf);
    let g4 = join(g.half_move_clock, rg);
    let f3 = join(f.en_passant, f4);
    let g3 = join(g.en_passant, g4);
    let f2 = join(f.castling, f3);
    let g2 = join(g.castling, g3);
    let f1 = join(f.side_to_move, f2);
    let g1 = join(g.side_to_move, g2);
    lemma_join_unique(f.pieces, f1, g.pieces, g1);
    lemma_join_unique(f.side_to_move, f2, g.side_to_move, g2);
    lemma_join_unique(f.castling, f3, g.castling, g3);
    lemma_join_unique(f.en_passant, f4, g.en_passant, g4);
    lemma_join_unique(f.half_move_clock, rf, g.half_move_clock, rg);
    assert(f =~= g);
}

/// Puts the king of `color` on `square`.
fn crown(board: &mut Board, color: Color, square: Square)
    requires
        square.valid(),
        old(board).wf(),
    ensures
        *final(board) == old(board).spec_crowned(color, square),
        final(board).wf(),
{
    let c = color.slot();
    board.piece_of_color[c] = BitBoard(board.piece_of_color[c].0 | (1u64 << square.0));
    board.king_pos[c] = square;
    assert(board.piece_of_color =~= old(board).spec_crowned(color, square).piece_of_color);
    assert(board.king_pos =~= old(board).spec_crowned(color, square).king_pos);
}

impl FenComponents {
    /// Puts the pieces of the record on `board`, on which no king has
    /// been put yet: each piece on its square, and one king of each
    /// colour.
    fn set_pieces(&self, board: &mut Board) -> (res: Result<(), FenError>)
        requires
            old(board).wf(),
        ensures
            res is Ok <==> place(*old(board), (false, false), self.pieces@, 0, 7, 0) is Some,
            res is Ok ==> Some(*final(board)) == place(
                *old(board),
                (false, false),
                self.pieces@,
                0,
                7,
                0,
            ),
            res matches Err(e) ==> e == FenError::Pieces,
            final(board).wf(),
    {
        let text = self.pieces.as_str();
        let n = text.unicode_len();
        let mut rank: u8 = 7;
        let mut file: u8 = 0;
        let mut white_king = false;
        let mut black_king = false;
        let mut i: usize = 0;
        while i < n
            invariant
                i <= n,
                n == self.pieces@.len(),
                text@ == self.pieces@,
                rank <= 7,
                file <= 8,
                board.wf(),
                place(
                    *board,
                    (white_king, black_king),
                    self.pieces@,
                    i as int,
                    rank as int,
                    file as int,
                ) == place(*old(board), (false, false), self.pieces@, 0, 7, 0),
            decreases n - i,
        {
            let ch = text.get_char(i);
            if ch == '/' {
                if rank == 0 {
                    return Err(FenError::Pieces);
                }
                rank -= 1;
                file = 0;
            } else if ch >= '1' && ch <= '8' {
                let step = ch as u8 - 48;
                if file + step > 8 {
                    return Err(FenError::Pieces);
                }
                file += step;
            } else {
                let piece = match char_to_piece(ch) {
                    Ok(p) => p,
                    Err(_) => {
                        return Err(FenError::Pieces);
                    },
                };
                if file >= 8 {
                    return Err(FenError::Pieces);
                }
                let sq = Square::from_coords(file, rank);
                let color = char_to_color(ch);
                if piece == Piece::KING {
                    let seen = match color {
                        Color::WHITE => white_king,
                        Color::BLACK => black_king,
                    };
                    if seen {
                        return Err(FenError::Pieces);
                    }
                    crown(board, color, sq);
                    match color {
                        Color::WHITE => {
                            white_king = true;
                        },
                        Color::BLACK => {
                            black_king = true;
                        },
                    }
                } else {
                    board.put_piece_fast(piece, color, BitBoard::from_square(sq));
                }
                file += 1;
            }
            i += 1;
        }
        if white_king && black_king {
            Ok(())
        } else {
            Err(FenError::Pieces)
        }
    }

    /// The position of the record, or the field that cannot be read.
    pub open spec fn spec_board(&self) -> Result<Board, FenError> {
        board_of(self@)
    }

    /// The position of the record, whose sets fit together, or the field
    /// that cannot be read.
    pub fn board(&self) -> (res: Result<Board, FenError>)
        ensures
            res == self.spec_board(),
            res matches Ok(b) ==> b.consistent(),
    {
        let mut board = Board {
            piece_of_color: [BitBoard(0), BitBoard(0)],
            piece_of_type: [BitBoard(0), BitBoard(0), BitBoard(0), BitBoard(0), BitBoard(0)],
            king_pos: [Square(SQ_E1), Square(SQ_E8)],
            en_passant: None,
            can_castle_king_side: [false, false],
            can_castle_queen_side: [false, false],
            side_to_play: Color::WHITE,
            half_move_counter: 0,
        };
        proof {
            if board_of(self@) is Ok {
                lemma_fields_give_consistent(self@);
            }
            assert(board =~= start_board());
        }
        match self.set_pieces(&mut board) {
            Err(e) => {
                return Err(e);
            },
            Ok(_) => {},
        }
        let side = match side_to_play(self.side_to_move.as_str()) {
            Ok(side) => side,
            Err(_) => {
                return Err(FenError::SideToMove);
            },
        };
        let (king_side, queen_side) = match castling_rights(self.castling.as_str()) {
            Ok(rights) => (rights[0], rights[1]),
            Err(_) => {
                return Err(FenError::Castling);
            },
        };
        let en_passant = match en_passant_square(&self.en_passant) {
            Ok(ep) => ep,
            Err(_) => {
                return Err(FenError::EnPassant);
            },
        };
        let clock = match parse_clock(self.half_move_clock.as_str()) {
            Ok(clock) => clock,
            Err(_) => {
                return Err(FenError::HalfMoveClock);
            },
        };
        board.side_to_play = side;
        board.can_castle_king_side = king_side;
        board.can_castle_queen_side = queen_side;
        board.en_passant = en_passant;
        board.half_move_counter = clock;
        Ok(board)
    }
}

/// The position of the record `string`, whose sets fit together, if the
/// record can be read.
pub fn board_from_fen(string: &str) -> (res: Option<Board>)
    ensures
        res == spec_fen(string@),
        res matches Some(b) ==> b.consistent(),
{
    match FenComponents::parse(string) {
        Err(_) => None,
        Ok(c) => {
            proof {
                let f = choose|f: Fields| are_fields(f, string@);
                lemma_fields_unique(f, c@, string@);
            }
            match c.board() {
                Err(_) => None,
                Ok(b) => Some(b),
            }
        },
    }
}

} // verus!
