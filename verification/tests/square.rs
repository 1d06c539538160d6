use chess_core::square::Square;

#[test]
fn display_square() {
    assert_eq!(Square::from("a1").file(), 0);
    assert_eq!(Square::from("b1").file(), 1);
    assert_eq!(Square::from("c1").file(), 2);
    assert_eq!(Square::from("d1").file(), 3);
    assert_eq!(Square::from("e1").file(), 4);
    assert_eq!(Square::from("f1").file(), 5);
    assert_eq!(Square::from("g1").file(), 6);
    assert_eq!(Square::from("h1").file(), 7);
}

#[test]
fn square_test() {
    let size: u8 = 8;
    for file in 0..size {
        for rank in 0..size {
            let sq = Square::from_coords(file, rank);
            assert_eq!(sq.file(), file);
            assert_eq!(sq.rank(), rank);
            let descr = String::from(('a' as u8 + file) as char)
                + String::from(('1' as u8 + rank) as char).as_str();
            assert_eq!(format!("{}", sq.to_string()), descr)
        }
    }
}
