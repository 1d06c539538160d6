use chess_core::bitboard::BitBoard;
use chess_core::board::Board;
use chess_core::fen::board_from_fen;
use chess_core::magic_bitboard::checked_magic_tables;
use chess_core::move_generator::MoveGenerator;
use chess_core::pieces::Color;
use chess_core::position::{attacks, generate_legal_moves, is_legal_position, is_playable};
use chess_core::square::Square;
use chess_core::square_constants::{SQ_A1, SQ_A8, SQ_B8, SQ_E1, SQ_E2, SQ_E8, SQ_G1, SQ_H2};

fn sorted(mut names: Vec<String>) -> Vec<String> {
    names.sort();
    names
}

#[test]
fn positions_of_a_game_are_taken() {
    let tables = checked_magic_tables().unwrap();
    for fen in [
        "rnbqkbnr/pppppppp/8/8/8/8/PPPPPPPP/RNBQKBNR w KQkq - 0 1",
        "r3k2r/p1ppqpb1/bn2pnp1/3PN3/1p2P3/2N2Q1p/PPPBBPPP/R3K2R w KQkq - 0 1",
        "8/2p5/3p4/KP5r/1R3p1k/8/4P1P1/8 w - - 0 1",
        "8/8/8/2k5/3Pp3/8/8/4K2R b K d3 0 1",
        "4k3/8/4r3/8/8/4n3/8/3BK3 w - - 0 1",
    ] {
        let board = board_from_fen(fen).unwrap();
        assert!(is_playable(&board), "{}", fen);
        assert!(is_legal_position(&board), "{}", fen);
        let moves = generate_legal_moves(&board, &tables).unwrap();
        let mut generator = MoveGenerator::new(&board, &tables);
        let expected: Vec<String> = generator.generate().iter().map(|m| m.to_string()).collect();
        let found: Vec<String> = moves.iter().map(|m| m.to_string()).collect();
        assert_eq!(sorted(found), sorted(expected));
    }
    let start = Board::from_initial_position();
    assert_eq!(generate_legal_moves(&start, &tables).unwrap().len(), 20);
}

#[test]
fn the_side_that_has_moved_may_not_stand_in_check() {
    let tables = checked_magic_tables().unwrap();
    let board = board_from_fen("4k3/8/8/8/8/8/4R3/4K3 w - - 0 1").unwrap();
    assert!(!is_playable(&board));
    assert!(!is_legal_position(&board));
    assert!(generate_legal_moves(&board, &tables).is_none());
    let turned = board_from_fen("4k3/8/8/8/8/8/4R3/4K3 b - - 0 1").unwrap();
    assert!(is_legal_position(&turned));
    assert_eq!(generate_legal_moves(&turned, &tables).unwrap().len(), 4);
}

#[test]
fn rights_and_en_passant_square_must_fit_the_pieces() {
    let no_rook = board_from_fen("4k3/8/8/8/8/8/8/4K3 w K - 0 1").unwrap();
    assert!(!is_playable(&no_rook));
    let rook = board_from_fen("4k3/8/8/8/8/8/8/4K2R w K - 0 1").unwrap();
    assert!(is_playable(&rook));
    let king_away = board_from_fen("4k3/8/8/8/8/8/8/3K3R w K - 0 1").unwrap();
    assert!(!is_playable(&king_away));
    let no_pawn = board_from_fen("4k3/8/8/8/8/8/8/4K3 w - e6 0 1").unwrap();
    assert!(!is_playable(&no_pawn));
    let pawn = board_from_fen("4k3/8/8/4p3/8/8/8/4K3 w - e6 0 1").unwrap();
    assert!(is_playable(&pawn));
    let wrong_rank = board_from_fen("4k3/8/8/8/4p3/8/8/4K3 w - e5 0 1").unwrap();
    assert!(!is_playable(&wrong_rank));
    let pawn_on_last = board_from_fen("P3k3/8/8/8/8/8/8/4K3 w - - 0 1").unwrap();
    assert!(!is_playable(&pawn_on_last));
}

#[test]
fn sets_that_do_not_fit_are_found() {
    let mut board = Board::from_initial_position();
    assert!(is_playable(&board));
    board.piece_of_type[1] = BitBoard(board.piece_of_type[1].0 | 1);
    assert!(!is_playable(&board));
    let mut both = Board::from_initial_position();
    both.piece_of_color[1] = BitBoard(both.piece_of_color[1].0 | 1);
    assert!(!is_playable(&both));
    let mut bare = Board::from_initial_position();
    bare.piece_of_color[0] = BitBoard(bare.piece_of_color[0].0 & !1);
    assert!(!is_playable(&bare));
    let mut off = Board::from_initial_position();
    off.king_pos[0] = Square(64);
    assert!(!is_playable(&off));
    let mut same = Board::empty(Square(SQ_E1), Square(SQ_E8));
    assert!(is_playable(&same));
    same.king_pos[1] = Square(SQ_E1);
    assert!(!is_playable(&same));
}

#[test]
fn three_checks_are_one_too_many() {
    let two = board_from_fen("4k3/8/8/8/8/3n4/4r3/4K3 w - - 0 1").unwrap();
    assert!(is_legal_position(&two));
    let three = board_from_fen("4k3/8/8/8/1b6/3n4/4r3/4K3 w - - 0 1").unwrap();
    assert!(is_playable(&three));
    assert!(!is_legal_position(&three));
}

#[test]
fn a_double_step_out_of_a_check_given_is_refused() {
    let tables = checked_magic_tables().unwrap();
    let shielded = board_from_fen("kb6/8/8/4p3/8/8/7K/8 w - e6 0 1").unwrap();
    assert!(is_playable(&shielded));
    assert!(!is_legal_position(&shielded));
    assert!(generate_legal_moves(&shielded, &tables).is_none());
    let plain = board_from_fen("kb6/8/8/4p3/8/8/7K/8 w - - 0 1").unwrap();
    assert!(is_legal_position(&plain));
    let aside = board_from_fen("kb6/8/8/3p4/8/8/7K/8 w - d6 0 1").unwrap();
    assert!(!is_legal_position(&aside));
    let elsewhere = board_from_fen("k7/8/8/3p4/8/8/7K/1b6 w - d6 0 1").unwrap();
    assert!(is_legal_position(&elsewhere));
    let uncovered = board_from_fen("k1b5/8/8/3p4/8/7K/8/8 w - d6 0 1").unwrap();
    assert!(uncovered.under_check(Color::WHITE));
    assert!(is_legal_position(&uncovered));
    assert_eq!(generate_legal_moves(&uncovered, &tables).unwrap().len(), 4);
}

#[test]
fn attack_of_a_single_piece() {
    let board = board_from_fen("rb2k3/8/8/8/8/8/4R2K/R7 w - - 0 1").unwrap();
    let occ = BitBoard(board.piece_of_color[0].0 | board.piece_of_color[1].0);
    let (white, black) = (Color::WHITE, Color::BLACK);
    assert!(attacks(&board, white, Square(SQ_E2), Square(SQ_E8), occ));
    assert!(!attacks(&board, black, Square(SQ_E2), Square(SQ_E8), occ));
    assert!(!attacks(&board, white, Square(SQ_E1), Square(SQ_E8), occ));
    assert!(attacks(&board, white, Square(SQ_A1), Square(SQ_A8), occ));
    assert!(!attacks(&board, white, Square(SQ_A1), Square(SQ_B8), occ));
    assert!(attacks(&board, black, Square(SQ_B8), Square(SQ_H2), occ));
    assert!(!attacks(&board, black, Square(SQ_B8), Square(SQ_H2), BitBoard(occ.0 | 1 << 36)));
    assert!(attacks(&board, white, Square(SQ_H2), Square(SQ_G1), occ));
    assert!(!attacks(&board, white, Square(SQ_H2), Square(SQ_E2), occ));
    assert!(attacks(&board, black, Square(SQ_A8), Square(SQ_A1), occ));
}

fn follow(board: &Board, depth: u32, tables: &chess_core::magic_bitboard::MagicTables) -> u64 {
    assert!(is_legal_position(board));
    if depth == 0 {
        return 1;
    }
    let mut count = 0;
    for m in generate_legal_moves(board, tables).unwrap() {
        let mut next = *board;
        next.make_move(m);
        count += follow(&next, depth - 1, tables);
    }
    count
}

#[test]
fn a_legal_move_leads_to_a_position_of_a_game() {
    let tables = checked_magic_tables().unwrap();
    assert_eq!(follow(&Board::from_initial_position(), 3, &tables), 8902);
    for (fen, leaves) in [
        ("r3k2r/p1ppqpb1/bn2pnp1/3PN3/1p2P3/2N2Q1p/PPPBBPPP/R3K2R w KQkq - 0 1", 2039),
        ("8/2p5/3p4/KP5r/1R3p1k/8/4P1P1/8 w - - 0 1", 2812),
        ("8/8/8/2k5/3Pp3/8/8/4K2R b K d3 0 1", 0),
    ] {
        let board = board_from_fen(fen).unwrap();
        let found = follow(&board, if leaves == 2812 { 3 } else { 2 }, &tables);
        if leaves != 0 {
            assert_eq!(found, leaves, "{}", fen);
        }
    }
}

#[test]
fn what_is_read_fits_together() {
    for fen in [
        "rnbqkbnr/pppppppp/8/8/8/8/PPPPPPPP/RNBQKBNR w KQkq - 0 1",
        "K7/8/8/8/8/8/8/7k w - - 0 1",
        "4k3/8/8/8/8/8/8/2K1R3 w - - 0 1",
        "QQQQkQQQ/QQQQQQQQ/8/8/8/8/8/K7 b - - 0 1",
    ] {
        let board = board_from_fen(fen).unwrap();
        assert!(board.check_consistency(), "{}", fen);
        let all = board.piece_of_color[0].0 | board.piece_of_color[1].0;
        let mut typed = 0;
        for t in board.piece_of_type {
            typed |= t.0;
        }
        let kings = (1u64 << board.king_pos[0].0) | (1u64 << board.king_pos[1].0);
        assert_eq!(all, typed | kings, "{}", fen);
        assert_eq!(typed & kings, 0, "{}", fen);
        assert!(board.king_pos[0] != board.king_pos[1]);
    }
}
