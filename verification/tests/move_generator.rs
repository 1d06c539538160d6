use chess_core::board::Board;
use chess_core::fen::board_from_fen;
use chess_core::magic_bitboard::{magic_tables, MagicTables};
use chess_core::move_generator::MoveGenerator;
use chess_core::moves::Move;
use chess_core::pieces::Piece::{BISHOP, KNIGHT, PAWN, ROOK};
use chess_core::square::Square;
use chess_core::square_constants::{
    SQ_A1, SQ_A2, SQ_A3, SQ_A4, SQ_A5, SQ_A6, SQ_A7, SQ_B1, SQ_B5, SQ_B7, SQ_C3, SQ_G2, SQ_H1,
    SQ_H3,
};

fn performance_test(board: &Board, tables: &MagicTables, depth: i32, log: bool) -> usize {
    performance_test_rec(board, tables, depth, log)
}

fn performance_test_rec(board: &Board, tables: &MagicTables, depth: i32, log: bool) -> usize {
    let mut generator = MoveGenerator::new(board, tables);
    generator.generate();
    let moves = generator.moves;
    if depth == 1 && !log {
        return moves.len();
    }
    if depth == 0 {
        return 1;
    }
    let mut n = 0;
    for m in moves {
        let mut new_board = board.clone();
        new_board.make_move(m);
        let p = performance_test_rec(&new_board, tables, depth - 1, false);
        if log {
            println!("{}: {}", m.to_string(), p);
        }
        n += p;
    }
    n
}

#[test]
pub fn perft_1() {
    let tables = magic_tables();
    let board = Board::from_initial_position();
    assert_eq!(performance_test(&board, &tables, 1, true), 20);
    assert_eq!(performance_test(&board, &tables, 2, true), 400);
    assert_eq!(performance_test(&board, &tables, 3, true), 8902);
    assert_eq!(performance_test(&board, &tables, 4, true), 197281);
    assert_eq!(performance_test(&board, &tables, 5, true), 4865609);
    assert_eq!(performance_test(&board, &tables, 6, true), 119060324);
}

#[test]
pub fn perft_2() {
    let tables = magic_tables();
    let fen = "r3k2r/p1ppqpb1/bn2pnp1/3PN3/1p2P3/2N2Q1p/PPPBBPPP/R3K2R w KQkq - 0 1";
    let board = board_from_fen(fen).unwrap();
    assert_eq!(performance_test(&board, &tables, 1, true), 48);
    assert_eq!(performance_test(&board, &tables, 2, true), 2039);
    assert_eq!(performance_test(&board, &tables, 3, true), 97862);
    assert_eq!(performance_test(&board, &tables, 4, true), 4085603);
    assert_eq!(performance_test(&board, &tables, 5, true), 193690690);
}

#[test]
pub fn perft_3() {
    let tables = magic_tables();
    let fen = "8/2p5/3p4/KP5r/1R3p1k/8/4P1P1/8 w - - 0 1";
    let board = board_from_fen(fen).unwrap();

    assert_eq!(performance_test(&board, &tables, 1, true), 14);
    assert_eq!(performance_test(&board, &tables, 2, true), 191);
    assert_eq!(performance_test(&board, &tables, 3, true), 2812);
    assert_eq!(performance_test(&board, &tables, 4, true), 43238);
    assert_eq!(performance_test(&board, &tables, 5, true), 674624);
}

#[test]
pub fn perft_4() {
    let tables = magic_tables();
    let fen = "r3k2r/Pppp1ppp/1b3nbN/nP6/BBP1P3/q4N2/Pp1P2PP/R2Q1RK1 w kq - 0 1";
    let b = board_from_fen(fen).unwrap();

    assert_eq!(performance_test(&b, &tables, 1, true), 6);
    assert_eq!(performance_test(&b, &tables, 2, true), 264);
    assert_eq!(performance_test(&b, &tables, 3, true), 9467);
    assert_eq!(performance_test(&b, &tables, 4, true), 422333);
    assert_eq!(performance_test(&b, &tables, 5, true), 15833292);
}

#[test]
pub fn perft_5() {
    let tables = magic_tables();
    let fen = "rnbq1k1r/pp1Pbppp/2p5/8/2B5/8/PPP1NnPP/RNBQK2R w KQ - 1 8";
    let b = board_from_fen(fen).unwrap();
    assert_eq!(performance_test(&b, &tables, 1, true), 44);
    assert_eq!(performance_test(&b, &tables, 2, true), 1486);
    assert_eq!(performance_test(&b, &tables, 3, true), 62379);
    assert_eq!(performance_test(&b, &tables, 4, true), 2103487);
    assert_eq!(performance_test(&b, &tables, 5, true), 89941194);
}

#[test]
pub fn perft_2_c3b1() {
    let tables = magic_tables();
    let fen = "r3k2r/p1ppqpb1/bn2pnp1/3PN3/1p2P3/2N2Q1p/PPPBBPPP/R3K2R w KQkq - 0 1";
    let mut board = board_from_fen(fen).unwrap();
    board.make_move(Move::new(KNIGHT, Square(SQ_C3), Square(SQ_B1)));

    println!("{}", board.to_string());
    assert_eq!(performance_test(&board, &tables, 2, true), 2038);
}

#[test]
pub fn perft_2_c3b1_a6b5() {
    let tables = magic_tables();
    let fen = "r3k2r/p1ppqpb1/bn2pnp1/3PN3/1p2P3/2N2Q1p/PPPBBPPP/R3K2R w KQkq - 0 1";
    let mut board = board_from_fen(fen).unwrap();
    board.make_move(Move::new(KNIGHT, Square(SQ_C3), Square(SQ_B1)));
    board.make_move(Move::new(BISHOP, Square(SQ_A6), Square(SQ_B5)));
    println!("{}", board.to_string());
    assert_eq!(performance_test(&board, &tables, 1, true), 48);
}

#[test]
pub fn perft_2_a1b1() {
    let tables = magic_tables();
    let fen = "r3k2r/p1ppqpb1/bn2pnp1/3PN3/1p2P3/2N2Q1p/PPPBBPPP/R3K2R w KQkq - 0 1";
    let mut board = board_from_fen(fen).unwrap();
    board.make_move(Move::new(ROOK, Square(SQ_A1), Square(SQ_B1)));
    println!("{}", board.to_string());
    assert_eq!(performance_test(&board, &tables, 4, true), 3827454);
}

#[test]
pub fn perft_2_a1b1_h3g2() {
    let tables = magic_tables();
    let fen = "r3k2r/p1ppqpb1/bn2pnp1/3PN3/1p2P3/2N2Q1p/PPPBBPPP/R3K2R w KQkq - 0 1";
    let mut board = board_from_fen(fen).unwrap();
    board.make_move(Move::new(ROOK, Square(SQ_A1), Square(SQ_B1)));
    board.make_move(Move::new(PAWN, Square(SQ_H3), Square(SQ_G2)));
    println!("{}", board.to_string());
    assert_eq!(performance_test(&board, &tables, 3, true), 94098);
}

#[test]
pub fn perft_2_a1b1_h3g2_a2a3() {
    let tables = magic_tables();
    let fen = "r3k2r/p1ppqpb1/bn2pnp1/3PN3/1p2P3/2N2Q1p/PPPBBPPP/R3K2R w KQkq - 0 1";
    let mut board = board_from_fen(fen).unwrap();
    board.make_move(Move::new(ROOK, Square(SQ_A1), Square(SQ_B1)));
    board.make_move(Move::new(PAWN, Square(SQ_H3), Square(SQ_G2)));
    board.make_move(Move::new(PAWN, Square(SQ_A2), Square(SQ_A3)));
    println!("{}", board.to_string());
    assert_eq!(performance_test(&board, &tables, 2, true), 2201);
}

#[test]
pub fn perft_2_a1b1_h3g2_a2a3_() {
    let tables = magic_tables();
    let fen = "r3k2r/p1ppqpb1/bn2pnp1/3PN3/1p2P3/2N2Q1p/PPPBBPPP/R3K2R w KQkq - 0 1";
    let mut board = board_from_fen(fen).unwrap();
    board.make_move(Move::new(ROOK, Square(SQ_A1), Square(SQ_B1)));
    board.make_move(Move::new(PAWN, Square(SQ_H3), Square(SQ_G2)));
    board.make_move(Move::new(PAWN, Square(SQ_A2), Square(SQ_A3)));
    board.make_move(Move::promote(Square(SQ_G2), Square(SQ_H1), BISHOP));
    println!("{}", board.to_string());
    assert_eq!(performance_test(&board, &tables, 1, true), 45);
}

#[test]
pub fn test_en_passant_1() {
    let tables = magic_tables();
    let mut board = Board::from_initial_position();
    board.make_move(Move::new(PAWN, Square(SQ_A2), Square(SQ_A4)));
    board.make_move(Move::new(PAWN, Square(SQ_A7), Square(SQ_A3)));
    board.make_move(Move::new(PAWN, Square(SQ_A4), Square(SQ_A5)));
    board.make_move(Move::new(PAWN, Square(SQ_B7), Square(SQ_B5)));
    let mut mg = MoveGenerator::new(&board, &tables);
    let moves = mg.generate();
    for m in moves {
        match *m {
            Move::EnPassant {
                origin: _,
                dest,
                capture,
            } => assert_ne!(dest, capture),
            _ => {}
        }
    }
}
