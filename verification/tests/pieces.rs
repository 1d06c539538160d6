use chess_core::pieces::Color::{BLACK, WHITE};

#[test]
fn opposite_color() {
    assert_eq!(BLACK.opposite(), WHITE);
}
