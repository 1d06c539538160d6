use chess_core::bitboard::BitBoard;
use chess_core::bitboard_constants::{
    BB_A4, BB_B2, BB_B4, BB_C1, BB_C4, BB_D1, BB_D2, BB_D4, BB_D7, BB_D8, BB_F4, BB_G4, BB_H4,
    FILE_D, RANK_2, RANK_4,
};
use chess_core::magic_bitboard::{
    bishop_magic_table, bishop_occupancies, calc_all_bishop_attacks, calc_all_rook_attacks,
    calc_bishop_attacks, calc_rook_attacks, create_magic_table, rook_occupancies,
    shift_attacks_left,
};
use chess_core::magic_bitboard_magic_numbers::{BISHOP_MAGIC_NUMBERS, ROOK_MAGIC_NUMBERS};
use chess_core::square::Square;
use chess_core::square_constants::SQ_C1;

#[test]
pub fn shift_attacks_test() {
    let origin = BitBoard(BB_D4);
    let occupancy = BitBoard(BB_D7 | BB_F4);
    assert_eq!(
        shift_attacks_left(origin, occupancy),
        BitBoard(BB_A4 | BB_B4 | BB_C4)
    );
}

#[test]
pub fn rook_attacks_test1() {
    let origin = BitBoard(BB_D4);
    let occupancy = BitBoard(BB_D7 | BB_F4);
    let attacks = calc_rook_attacks(origin, occupancy);
    let expected = BitBoard(FILE_D | RANK_4)
        - BitBoard(BB_D4)
        - BitBoard(BB_D8)
        - BitBoard(BB_G4)
        - BitBoard(BB_H4);
    assert_eq!(attacks, expected);
}

#[test]
pub fn rook_attacks_test2() {
    let origin = BitBoard(BB_D4);
    let occupancy = BitBoard(BB_B4 | BB_D2);
    let attacks = calc_rook_attacks(origin, occupancy);
    let expected = BitBoard(FILE_D | RANK_4) - BitBoard(BB_D4) - BitBoard(BB_D1) - BitBoard(BB_A4);
    assert_eq!(attacks, expected);
}

#[test]
pub fn bishop_attaks_test() {
    let origin = BitBoard(BB_C1);
    let occupancy = BitBoard(RANK_2);
    assert_eq!(
        calc_bishop_attacks(origin, occupancy),
        BitBoard(BB_B2 | BB_D2)
    );
    let bishop_magic = bishop_magic_table();
    assert_eq!(
        bishop_magic.attacks(Square(SQ_C1), occupancy),
        BitBoard(BB_B2 | BB_D2)
    );
}

#[test]
pub fn rook_magic_works() {
    let rook_occupancies = rook_occupancies();
    let all_rook_attacks = calc_all_rook_attacks(&rook_occupancies);
    let rook_magic = create_magic_table(&rook_occupancies, &all_rook_attacks, &ROOK_MAGIC_NUMBERS);

    for origin in 0..64 {
        let origin_sq = Square(origin);
        let origin_bb = BitBoard::from_square(origin_sq);
        for occupancy in rook_occupancies[origin as usize].iter() {
            let actual = rook_magic.attacks(origin_sq, *occupancy);
            let expected = calc_rook_attacks(origin_bb, *occupancy);
            assert_eq!(actual, expected);
        }
    }
}

#[test]
pub fn bishop_magic_works() {
    let occupancies = bishop_occupancies();
    let all_attacks = calc_all_bishop_attacks(&occupancies);
    let bishop_magic = create_magic_table(&occupancies, &all_attacks, &BISHOP_MAGIC_NUMBERS);

    for origin in 0..64 {
        let origin_sq = Square(origin);
        let origin_bb = BitBoard::from_square(origin_sq);
        for occupancy in occupancies[origin as usize].iter() {
            let actual = bishop_magic.attacks(origin_sq, *occupancy);
            let expected = calc_bishop_attacks(origin_bb, *occupancy);
            assert_eq!(actual, expected);
        }
    }
}
