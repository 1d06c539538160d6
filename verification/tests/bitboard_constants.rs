use chess_core::bitboard::BitBoard;
use chess_core::bitboard_constants::{
    diagonal_segment, line_segment, BB_A5, BB_B2, BB_B3, BB_B4, BB_B5, BB_C2, BB_C3, BB_C4,
    BB_C6, BB_D2, BB_D5, BB_D7, BB_E1, BB_F3, BB_F4, BB_F5,
};
use chess_core::square::Square;
use chess_core::square_constants::{
    SQ_A1, SQ_A2, SQ_A4, SQ_A5, SQ_B4, SQ_D1, SQ_D4, SQ_E6, SQ_E8, SQ_F2, SQ_F6,
};

#[test]
pub fn test_diagonal_segment_1() {
    let segment = diagonal_segment(Square(SQ_A1), Square(SQ_D4));
    assert_eq!(segment, BitBoard(BB_B2 | BB_C3))
}

#[test]
pub fn test_diagonal_segment_2() {
    let segment = diagonal_segment(Square(SQ_A4), Square(SQ_D1));
    assert_eq!(segment, BitBoard(BB_B3 | BB_C2))
}

#[test]
pub fn test_diagonal_segment_3() {
    let segment = diagonal_segment(Square(SQ_D4), Square(SQ_A1));
    assert_eq!(segment, BitBoard(BB_B2 | BB_C3))
}

#[test]
pub fn test_diagonal_segment_4() {
    let segment = diagonal_segment(Square(SQ_A2), Square(SQ_E6));
    assert_eq!(segment, BitBoard(BB_B3 | BB_C4 | BB_D5))
}

#[test]
pub fn test_diagonal_segment_5() {
    assert_eq!(
        line_segment(Square(SQ_A4), Square(SQ_E8)),
        BitBoard(BB_B5 | BB_C6 | BB_D7)
    );
    assert_eq!(
        line_segment(Square(SQ_E8), Square(SQ_A4)),
        BitBoard(BB_B5 | BB_C6 | BB_D7)
    );
}

#[test]
pub fn test_line_1() {
    let expected = BitBoard(BB_A5 | BB_B4 | BB_C3 | BB_D2 | BB_E1);
    assert_eq!(
        chess_core::bitboard_constants::line(Square(SQ_B4), Square(SQ_A5)),
        expected
    );
}

#[test]
pub fn test_line_segment() {
    let board = line_segment(Square(SQ_F2), Square(SQ_F6));
    println!("{}", board.to_string());
    assert_eq!(board, BitBoard(BB_F3 | BB_F4 | BB_F5));
}
