use chess_core::bitboard::BitBoard;
use chess_core::bitboard_attacks::{king_attacks, knight_attacks, pawn_attacks};
use chess_core::bitboard_constants::{calc_line_segments, calc_lines, line_segment};
use chess_core::board::Board;
use chess_core::fen::{board_from_fen, to_string};
use chess_core::magic_bitboard::{
    bishop_attacks, checked_magic_tables, magic_tables, rook_attacks, MagicTables,
};
use chess_core::move_generator::MoveGenerator;
use chess_core::moves::Move;
use chess_core::pieces::{Color, Piece};
use chess_core::square::{file_dist, rank_dist, Square};
use chess_core::zobrist_hash::{hash, hash_update, zobrist_init};

const POSITIONS: [&str; 8] = [
    "rnbqkbnr/pppppppp/8/8/8/8/PPPPPPPP/RNBQKBNR w KQkq - 0 1",
    "r3k2r/p1ppqpb1/bn2pnp1/3PN3/1p2P3/2N2Q1p/PPPBBPPP/R3K2R w KQkq - 0 1",
    "8/2p5/3p4/KP5r/1R3p1k/8/4P1P1/8 w - - 0 1",
    "r3k2r/Pppp1ppp/1b3nbN/nP6/BBP1P3/q4N2/Pp1P2PP/R2Q1RK1 w kq - 0 1",
    "rnbq1k1r/pp1Pbppp/2p5/8/2B5/8/PPP1NnPP/RNBQK2R w KQ - 1 8",
    "8/8/8/2k5/3Pp3/8/8/4K2R b K d3 0 1",
    "4k3/8/8/8/8/8/4r3/R3K2R w KQ - 0 1",
    "4k3/8/4r3/8/8/4n3/8/3BK3 w - - 0 1",
];

fn line_of(a: Square, b: Square) -> BitBoard {
    chess_core::bitboard_constants::line(a, b)
}

#[test]
fn line_is_the_same_in_both_orders() {
    for a in 0..64u8 {
        for b in 0..64u8 {
            assert_eq!(line_of(Square(a), Square(b)), line_of(Square(b), Square(a)));
            assert_eq!(
                line_segment(Square(a), Square(b)),
                line_segment(Square(b), Square(a))
            );
        }
    }
}

#[test]
fn segment_is_open_and_empty_for_neighbours_and_strangers() {
    for a in 0..64u8 {
        for b in 0..64u8 {
            let (sa, sb) = (Square(a), Square(b));
            let segment = line_segment(sa, sb);
            assert_eq!(segment.0 & (1u64 << a), 0);
            assert_eq!(segment.0 & (1u64 << b), 0);
            if file_dist(sa, sb) <= 1 && rank_dist(sa, sb) <= 1 {
                assert_eq!(segment, BitBoard(0));
            }
            if line_of(sa, sb) == BitBoard(0) {
                assert_eq!(segment, BitBoard(0));
            }
            assert_eq!(segment.0 & !line_of(sa, sb).0, 0);
        }
    }
}

#[test]
fn tables_of_lines_hold_the_lines() {
    let lines = calc_lines();
    let segments = calc_line_segments();
    assert_eq!(lines.len(), 64);
    assert_eq!(segments.len(), 64);
    for a in 0..64u8 {
        assert_eq!(lines[a as usize].len(), 64);
        for b in 0..64u8 {
            assert_eq!(lines[a as usize][b as usize], line_of(Square(a), Square(b)));
            assert_eq!(
                segments[a as usize][b as usize],
                line_segment(Square(a), Square(b))
            );
        }
    }
}

#[test]
fn magic_tables_are_faithful() {
    let tables = magic_tables();
    assert!(tables.rook_table.is_faithful(false));
    assert!(tables.bishop_table.is_faithful(true));
    assert!(!tables.rook_table.is_faithful(true));
    assert!(checked_magic_tables().is_some());
}

#[test]
fn lookup_agrees_with_rays_on_full_occupancies() {
    let tables = magic_tables();
    let mut occ: u64 = 0x9E37_79B9_7F4A_7C15;
    for _ in 0..2000 {
        occ ^= occ << 13;
        occ ^= occ >> 7;
        occ ^= occ << 17;
        for sq in 0..64u8 {
            let s = Square(sq);
            assert_eq!(
                tables.rook_table.attacks(s, BitBoard(occ)),
                rook_attacks(s, BitBoard(occ))
            );
            assert_eq!(
                tables.bishop_table.attacks(s, BitBoard(occ)),
                bishop_attacks(s, BitBoard(occ))
            );
        }
    }
}

#[test]
fn a_wrong_magic_number_is_found_out() {
    let mut tables = magic_tables();
    let magic = &mut tables.rook_table.square_magics[0];
    magic.magic_number = 1;
    let occupancies = chess_core::magic_bitboard::rook_occupancies();
    let attacks = chess_core::magic_bitboard::calc_all_rook_attacks(&occupancies);
    let mut numbers = chess_core::magic_bitboard_magic_numbers::ROOK_MAGIC_NUMBERS;
    numbers[0] = 1;
    let broken = chess_core::magic_bitboard::create_magic_table(&occupancies, &attacks, &numbers);
    assert!(!broken.is_faithful(false));
    assert!(!tables.rook_table.is_faithful(false) || tables.rook_table.is_faithful(false));
}

fn play(board: &Board, m: Move) -> Board {
    let mut next = *board;
    next.make_move(m);
    next
}

fn legal_moves(board: &Board, tables: &MagicTables) -> Vec<Move> {
    let mut generator = MoveGenerator::new(board, tables);
    generator.generate();
    generator.moves
}

#[test]
fn no_generated_move_leaves_the_king_in_check() {
    let tables = magic_tables();
    for fen in POSITIONS {
        let board = board_from_fen(fen).unwrap();
        for m in legal_moves(&board, &tables) {
            let next = play(&board, m);
            assert!(!next.under_check(board.side_to_play), "{} in {}", m.to_string(), fen);
            for reply in legal_moves(&next, &tables) {
                let after = play(&next, reply);
                assert!(!after.under_check(next.side_to_play));
            }
        }
    }
}

fn candidate_moves(board: &Board) -> Vec<Move> {
    let us = board.side_to_play;
    let them = us.opposite();
    let ours = board.piece_of_color(us).0;
    let theirs = board.piece_of_color(them).0;
    let all = BitBoard(ours | theirs);
    let mut moves = Vec::new();
    for o in 0..64u8 {
        if ours & (1u64 << o) == 0 {
            continue;
        }
        let origin = Square(o);
        let piece = board.piece_at(BitBoard(1u64 << o)).unwrap();
        let reach = match piece {
            Piece::KNIGHT => knight_attacks(origin).0,
            Piece::KING => king_attacks(origin).0,
            Piece::ROOK => rook_attacks(origin, all).0,
            Piece::BISHOP => bishop_attacks(origin, all).0,
            Piece::QUEEN => rook_attacks(origin, all).0 | bishop_attacks(origin, all).0,
            Piece::PAWN => 0,
        };
        for d in 0..64u8 {
            if reach & !ours & (1u64 << d) != 0 {
                moves.push(Move::new(piece, origin, Square(d)));
            }
        }
        if piece == Piece::PAWN {
            let step: i8 = if us == Color::WHITE { 8 } else { -8 };
            let home = if us == Color::WHITE { 1 } else { 6 };
            let mut targets = Vec::new();
            let ahead = (o as i8 + step) as u8;
            if all.0 & (1u64 << ahead) == 0 {
                targets.push(ahead);
                let two = (ahead as i8 + step) as u8;
                if origin.rank() == home && all.0 & (1u64 << two) == 0 {
                    moves.push(Move::new(Piece::PAWN, origin, Square(two)));
                }
            }
            for d in 0..64u8 {
                if pawn_attacks(us, origin).0 & (1u64 << d) != 0 {
                    if theirs & (1u64 << d) != 0 {
                        targets.push(d);
                    } else if board.en_passant() == Some(Square(d)) {
                        let capture = Square((d as i8 - step) as u8);
                        moves.push(Move::en_passant(origin, Square(d), capture));
                    }
                }
            }
            for d in targets {
                if d / 8 == 0 || d / 8 == 7 {
                    for p in [Piece::QUEEN, Piece::ROOK, Piece::BISHOP, Piece::KNIGHT] {
                        moves.push(Move::promote(origin, Square(d), p));
                    }
                } else {
                    moves.push(Move::new(Piece::PAWN, origin, Square(d)));
                }
            }
        }
    }
    moves
}

fn attacked(board: &Board, sq: Square) -> bool {
    let us = board.side_to_play;
    let mut probe = Board::empty(sq, board.king_pos[us.opposite().slot()]);
    probe.piece_of_color = board.piece_of_color;
    probe.piece_of_type = board.piece_of_type;
    probe.side_to_play = us;
    probe.king_pos[us.slot()] = sq;
    probe.under_check(us)
}

fn castlings(board: &Board) -> Vec<Move> {
    let us = board.side_to_play;
    let all = board.piece_of_color[0].0 | board.piece_of_color[1].0;
    let mut moves = Vec::new();
    if board.under_check(us) {
        return moves;
    }
    let (row, king_side, queen_side) = match us {
        Color::WHITE => (0u8, Move::CastleKingSideWhite, Move::CastleQueenSideWhite),
        Color::BLACK => (56u8, Move::CastleKingSideBlack, Move::CastleQueenSideBlack),
    };
    let free = |squares: &[u8]| squares.iter().all(|s| all & (1u64 << (row + s)) == 0);
    let safe = |squares: &[u8]| squares.iter().all(|s| !attacked(board, Square(row + s)));
    if board.can_castle_king_side[us.slot()] && free(&[5, 6]) && safe(&[5, 6]) {
        moves.push(king_side);
    }
    if board.can_castle_queen_side[us.slot()] && free(&[1, 2, 3]) && safe(&[2, 3]) {
        moves.push(queen_side);
    }
    moves
}

fn slow_legal_moves(board: &Board) -> Vec<String> {
    let mut names: Vec<String> = candidate_moves(board)
        .into_iter()
        .filter(|m| !play(board, *m).under_check(board.side_to_play))
        .chain(castlings(board))
        .map(|m| format!("{:?}", m))
        .collect();
    names.sort();
    names
}

fn compare_with_slow_filter(board: &Board, tables: &MagicTables, depth: u32) {
    let moves = legal_moves(board, tables);
    let mut names: Vec<String> = moves.iter().map(|m| format!("{:?}", m)).collect();
    names.sort();
    assert_eq!(names, slow_legal_moves(board), "{}", to_string(board, 1));
    if depth > 0 {
        for m in moves {
            compare_with_slow_filter(&play(board, m), tables, depth - 1);
        }
    }
}

#[test]
fn no_move_is_generated_twice() {
    let tables = magic_tables();
    for fen in POSITIONS {
        let board = board_from_fen(fen).unwrap();
        let moves = legal_moves(&board, &tables);
        for i in 0..moves.len() {
            for j in i + 1..moves.len() {
                assert!(moves[i] != moves[j], "{} in {}", moves[i].to_string(), fen);
            }
        }
        for m in moves {
            let next = play(&board, m);
            let replies = legal_moves(&next, &tables);
            for i in 0..replies.len() {
                for j in i + 1..replies.len() {
                    assert!(replies[i] != replies[j]);
                }
            }
        }
    }
}

#[test]
fn generated_moves_are_those_of_the_slow_filter() {
    let tables = magic_tables();
    for fen in POSITIONS {
        let board = board_from_fen(fen).unwrap();
        compare_with_slow_filter(&board, &tables, 2);
    }
}

#[test]
fn record_survives_reading_and_writing() {
    let tables = magic_tables();
    for fen in POSITIONS {
        let board = board_from_fen(fen).unwrap();
        let text = to_string(&board, 7);
        let again = board_from_fen(&text).unwrap();
        assert_eq!(again, board);
        assert_eq!(to_string(&again, 7), text);
        for m in legal_moves(&board, &tables) {
            let next = play(&board, m);
            let text = to_string(&next, 12);
            assert_eq!(to_string(&board_from_fen(&text).unwrap(), 12), text);
            assert_eq!(board_from_fen(&text).unwrap(), next);
        }
    }
}

#[test]
fn fingerprint_carried_along_is_fingerprint_of_position() {
    let tables = magic_tables();
    let keys = zobrist_init(7);
    for fen in POSITIONS {
        let board = board_from_fen(fen).unwrap();
        let h = hash(&keys, &board);
        for m in legal_moves(&board, &tables) {
            let next = play(&board, m);
            let h1 = hash_update(&keys, &board, h, m);
            assert_eq!(h1, hash(&keys, &next), "{} in {}", m.to_string(), fen);
            for reply in legal_moves(&next, &tables) {
                let after = play(&next, reply);
                assert_eq!(hash_update(&keys, &next, h1, reply), hash(&keys, &after));
            }
        }
    }
}

#[test]
fn keys_differ_and_depend_on_the_seed() {
    let a = zobrist_init(1);
    let b = zobrist_init(1);
    let c = zobrist_init(2);
    assert_eq!(a.pieces.len(), 768);
    assert_eq!(a.pieces, b.pieces);
    assert_eq!(a.side, b.side);
    assert_ne!(a.pieces, c.pieces);
    assert_ne!(a.pieces[0], a.pieces[1]);
    let board = Board::from_initial_position();
    assert_ne!(hash(&a, &board), hash(&c, &board));
}
