use chess_core::bitboard::BitBoard;
use chess_core::bitboard_constants::{FILE, RANK};
use chess_core::square::Square;
use rand::{RngCore, SeedableRng};

#[test]
pub fn test_struct_size() {
    assert_eq!(std::mem::size_of_val(&BitBoard(0)), 8);
}

#[test]
pub fn test_bitboard_consistency() {
    for file in 0..8 {
        for rank in 0..8 {
            let bitboard = BitBoard::from_coords(file, rank);
            let bitboard_sq = BitBoard::from(Square::from_coords(file, rank));
            assert_eq!(bitboard, bitboard_sq);
            assert_ne!(
                bitboard & BitBoard(FILE[file as usize]) & BitBoard(RANK[rank as usize]),
                BitBoard(0)
            );
            for k in 0..8 {
                if k != file {
                    assert_eq!(bitboard & BitBoard(FILE[k as usize]), BitBoard(0));
                }
                if k != rank {
                    assert_eq!(bitboard & BitBoard(RANK[k as usize]), BitBoard(0));
                }
            }
        }
    }
}

#[test]
pub fn perf_test_mul() {
    let mut rng = rand::rngs::StdRng::seed_from_u64(42);
    for _i in 0..3000000 {
        let bb1 = BitBoard(rng.next_u64());
        let bb2 = BitBoard(rng.next_u64());
        assert_eq!(bb1 * bb2, bb1.0 & bb2.0 != 0);
    }
}

#[test]
pub fn perf_test_intersects() {
    let mut rng = rand::rngs::StdRng::seed_from_u64(42);
    for _i in 0..3000000 {
        let bb1 = BitBoard(rng.next_u64());
        let bb2 = BitBoard(rng.next_u64());
        assert_eq!(bb1.intersects(bb2), bb1.0 & bb2.0 != 0);
    }
}
