//! Rules and move generation for chess on 64-bit occupancy sets.
pub mod bits;
pub mod text;
pub mod square;
pub mod square_constants;
pub mod bitboard;
pub mod bitboard_constants;
pub mod pieces;
pub mod magic_bitboard;
pub mod magic_bitboard_magic_numbers;
pub mod bitboard_attacks;
pub mod moves;
pub mod board;
pub mod placing;
pub mod zobrist_hash;
pub mod board_laws;
pub mod zobrist_laws;
pub mod move_list;
pub mod move_generator;
pub mod fen;
pub mod legality;
pub mod completeness;
pub mod position;
pub mod game;
pub mod fen_laws;
