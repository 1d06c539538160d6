use chess_core::moves::Move;
use std::mem::size_of;

#[test]
pub fn test_move() {
    println!("Size of NormalMove {} ", size_of::<Move>())
}
