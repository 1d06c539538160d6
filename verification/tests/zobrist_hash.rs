use chess_core::board::Board;
use chess_core::magic_bitboard::magic_tables;
use chess_core::move_generator::MoveGenerator;
use chess_core::zobrist_hash::{hash, hash_update, zobrist_init};
use rand::{RngCore, SeedableRng};

#[test]
pub fn zobrist_hash_test() {
    let tables = magic_tables();
    let keys = zobrist_init(1);
    let mut rng = rand::rngs::StdRng::seed_from_u64(42);
    for _i in 0..20000 {
        let mut board = Board::from_initial_position();
        let mut h = hash(&keys, &board);
        for _j in 0..300 {
            let mut mg = MoveGenerator::new(&board, &tables);
            mg.generate();
            if mg.moves.len() == 0 {
                break;
            }
            let m = mg.moves[rng.next_u64() as usize % mg.moves.len()];
            let updated_hash = hash_update(&keys, &board, h, m);
            let mut new_board = board;
            new_board.make_move(m);

            let new_hash = hash(&keys, &new_board);

            if updated_hash != new_hash {
                new_board = board;
                new_board.make_move(m);
            }
            assert_eq!(
                updated_hash,
                new_hash,
                "{}\n{}\n{}\n{:?}\n{:?}",
                board.to_string(),
                new_board.to_string(),
                m.to_string(),
                board,
                new_board
            );
            h = updated_hash;
            board = new_board;
        }
    }
}
