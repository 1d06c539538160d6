use chess_core::board::Board;
use chess_core::fen::{board_from_fen, to_string, FenComponents};
use chess_core::moves::Move;
use chess_core::pieces::Piece::{KNIGHT, PAWN};
use chess_core::square::Square;
use chess_core::square_constants::{SQ_C5, SQ_C7, SQ_E2, SQ_E4, SQ_F3, SQ_G1};

#[test]
pub fn fen_test() {
    let expected = "7k/3n4/p1p2p1Q/P7/2BP4/2P4P/4p1P1/6K1 b - - 0 1";
    let board = FenComponents::parse(expected).unwrap().board().unwrap();
    let actual = to_string(&board, 1);
    println!("{}", board.to_string());
    assert_eq!(actual, expected)
}

#[test]
pub fn test_initial_position() {
    let board = Board::from_initial_position();
    let actual = to_string(&board, 1);
    let expected = "rnbqkbnr/pppppppp/8/8/8/8/PPPPPPPP/RNBQKBNR w KQkq - 0 1";
    assert_eq!(actual, expected);
    let actual_board = board_from_fen(expected).unwrap();
    assert_eq!(board, actual_board);
}

#[test]
pub fn test_initial_position_plus_one_move() {
    let mut board = Board::from_initial_position();
    board.make_move(Move::new(PAWN, Square(SQ_E2), Square(SQ_E4)));
    let actual = to_string(&board, 1);
    let expected = "rnbqkbnr/pppppppp/8/8/4P3/8/PPPP1PPP/RNBQKBNR b KQkq e3 0 1";
    assert_eq!(actual, expected);
    let actual_board = board_from_fen(expected).unwrap();
    assert_eq!(board, actual_board);
}

#[test]
pub fn test_initial_position_plus_2_moves() {
    let mut board = Board::from_initial_position();
    board.make_move(Move::new(PAWN, Square(SQ_E2), Square(SQ_E4)));
    board.make_move(Move::new(PAWN, Square(SQ_C7), Square(SQ_C5)));
    assert_eq!(
        to_string(&board, 2),
        "rnbqkbnr/pp1ppppp/8/2p5/4P3/8/PPPP1PPP/RNBQKBNR w KQkq c6 0 2"
    );
    assert_eq!(
        board,
        board_from_fen("rnbqkbnr/pp1ppppp/8/2p5/4P3/8/PPPP1PPP/RNBQKBNR w KQkq c6 0 2").unwrap()
    );
}

#[test]
pub fn test_initial_position_plus_3_moves() {
    let mut board = Board::from_initial_position();
    board.make_move(Move::new(PAWN, Square(SQ_E2), Square(SQ_E4)));
    board.make_move(Move::new(PAWN, Square(SQ_C7), Square(SQ_C5)));
    board.make_move(Move::new(KNIGHT, Square(SQ_G1), Square(SQ_F3)));

    let fen = "rnbqkbnr/pp1ppppp/8/2p5/4P3/5N2/PPPP1PPP/RNBQKB1R b KQkq - 1 2";
    assert_eq!(to_string(&board, 2), fen);
    assert_eq!(board, board_from_fen(fen).unwrap());
}
