use chess_core::board::Board;
use chess_core::pieces::Color::{BLACK, WHITE};
use chess_core::pieces::Piece::{BISHOP, KNIGHT, PAWN, ROOK};
use chess_core::square::Square;
use chess_core::square_constants::{
    SQ_B5, SQ_C5, SQ_C6, SQ_D2, SQ_E2, SQ_E6, SQ_E7, SQ_F2, SQ_F3, SQ_F5, SQ_F7, SQ_G3, SQ_H2,
    SQ_H7,
};

#[test]
pub fn test_display() {
    println!("{}\n", Board::from_initial_position().to_string());
}

#[test]
pub fn under_check_test_1() {
    let board = Board::from_initial_position();
    assert_eq!(board.under_check(WHITE), false);
    assert_eq!(board.under_check(BLACK), false);
}

#[test]
pub fn under_check_test_2() {
    let mut board = Board::empty(Square(SQ_F2), Square(SQ_E7));

    board.put_piece_safe(ROOK, WHITE, Square(SQ_D2)).unwrap();
    board.put_piece_safe(KNIGHT, WHITE, Square(SQ_E2)).unwrap();
    board.put_piece_safe(PAWN, WHITE, Square(SQ_H2)).unwrap();
    board.put_piece_safe(PAWN, WHITE, Square(SQ_G3)).unwrap();
    board.put_piece_safe(BISHOP, WHITE, Square(SQ_F3)).unwrap();
    board.put_piece_safe(KNIGHT, BLACK, Square(SQ_B5)).unwrap();
    board.put_piece_safe(ROOK, BLACK, Square(SQ_C5)).unwrap();
    board.put_piece_safe(PAWN, BLACK, Square(SQ_F5)).unwrap();
    board.put_piece_safe(PAWN, WHITE, Square(SQ_C6)).unwrap();
    board.put_piece_safe(BISHOP, BLACK, Square(SQ_E6)).unwrap();
    board.put_piece_safe(PAWN, BLACK, Square(SQ_F7)).unwrap();
    board.put_piece_safe(PAWN, BLACK, Square(SQ_H7)).unwrap();

    println!("{}", board.to_string());
    assert_eq!(board.under_check(WHITE), false);
    assert_eq!(board.under_check(BLACK), false);
}
