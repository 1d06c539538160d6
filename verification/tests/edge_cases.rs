use chess_core::bitboard::BitBoard;
use chess_core::bitboard_attacks::{king_attacks, knight_attacks, pawn_attacks};
use chess_core::bitboard_constants::{
    calc_diagonal_segments, calc_diagonals, diagonal, BB_A1, BB_B2, BB_C3, BB_D4, BB_E5, BB_F6,
    BB_G7, BB_H8, FILE_A, RANK_1,
};
use chess_core::board::Board;
use chess_core::fen::{
    board_from_fen, castling_rights, char_to_color, char_to_piece, en_passant_square, fen_char,
    side_to_play, to_string, FenComponents, FenError,
};
use chess_core::magic_bitboard::{magic_tables, partitions, MagicTable, SquareMagic};
use chess_core::move_generator::MoveGenerator;
use chess_core::moves::Move;
use chess_core::pieces::{Color, Piece, DOWN, UP, UP_RIGHT};
use chess_core::square::{file_dist, rank_dist, same_diag, Square};
use chess_core::square_constants::{
    SQ_A1, SQ_A8, SQ_B1, SQ_C1, SQ_D4, SQ_D5, SQ_E1, SQ_E2, SQ_E3, SQ_E4, SQ_E5, SQ_E8, SQ_F1,
    SQ_G1, SQ_G8, SQ_H1, SQ_H8,
};

fn names(board: &Board) -> Vec<String> {
    let tables = magic_tables();
    let mut generator = MoveGenerator::new(board, &tables);
    generator.generate();
    let mut names: Vec<String> = generator.moves.iter().map(|m| m.to_string()).collect();
    names.sort();
    names
}

#[test]
fn square_arithmetic() {
    let e4 = Square(SQ_E4);
    assert_eq!(e4.0, 28);
    assert_eq!(e4.rank(), 3);
    assert_eq!(e4.file(), 4);
    assert_eq!(e4.as_byte(), 28);
    assert_eq!(Square::from_coords(4, 3), e4);
    assert_eq!(e4.shift(UP), Square(36));
    assert_eq!(e4.shift(DOWN), Square(20));
    assert_eq!(e4.shift(UP_RIGHT), Square(37));
    assert_eq!(Square(0).shift(DOWN), Square(248));
    assert_eq!(rank_dist(Square(SQ_A1), Square(SQ_H8)), 7);
    assert_eq!(file_dist(Square(SQ_E4), Square(SQ_D5)), 1);
    assert!(same_diag(Square(SQ_A1), Square(SQ_H8)));
    assert!(!same_diag(Square(SQ_A1), Square(SQ_E4)));
    assert_eq!(e4.to_string(), "e4");
    assert_eq!(Square::from("h8"), Square(63));
}

#[test]
fn set_algebra() {
    let a = BitBoard(0b1100);
    let b = BitBoard(0b1010);
    assert_eq!(a | b, BitBoard(0b1110));
    assert_eq!(a + b, BitBoard(0b1110));
    assert_eq!(a & b, BitBoard(0b1000));
    assert_eq!(a - b, BitBoard(0b0100));
    assert_eq!(a ^ b, BitBoard(0b0110));
    assert_eq!(!a, BitBoard(!0b1100u64));
    assert_eq!(a | Square(0), BitBoard(0b1101));
    assert_eq!(a + Square(0), BitBoard(0b1101));
    assert_eq!(a - Square(2), BitBoard(0b1000));
    assert!(a * b);
    assert!(a * Square(3));
    assert!(!(Square(0) * a));
    assert!(!a.intersects(BitBoard(0b0011)));
    assert!(a.intersects2(b, BitBoard(0b1000)));
    assert!(!a.intersects2(b, BitBoard(0b0100)));
    assert_eq!(a.intersection(b), BitBoard(0b1000));
    assert!(BitBoard(0).empty());
    assert!(!a.empty());
    assert_eq!(a.num_squares(), 2);
    assert_eq!(BitBoard(u64::MAX).num_squares(), 64);
    assert_eq!(BitBoard(0).num_squares(), 0);
    assert_eq!(a.shift(8), BitBoard(0b1100 << 8));
    assert_eq!(a.shift(-2), BitBoard(0b11));
    assert_eq!(a.shift(0), a);
    assert_eq!(BitBoard(1u64 << 63).shift(1), BitBoard(0));
    assert_eq!(BitBoard::from(Square(64)), BitBoard(0));
    assert_eq!(BitBoard::from_square(Square(9)), BitBoard(1 << 9));
    assert_eq!(BitBoard::from_coords(1, 1), BitBoard(1 << 9));
}

#[test]
fn members_come_out_in_ascending_order() {
    let mut set = BitBoard((1 << 5) | (1 << 17) | (1 << 63));
    assert_eq!(set.pop_lsb(), Square(5));
    assert_eq!(set, BitBoard((1 << 17) | (1 << 63)));
    assert_eq!(set.pop_lsb(), Square(17));
    assert_eq!(set.pop_lsb(), Square(63));
    assert!(set.empty());
    assert_eq!(set.pop_lsb(), Square(64));
    assert!(set.empty());
    let mut walk = BitBoard((1 << 3) | (1 << 40)).iter();
    assert_eq!(walk.next(), Some(BitBoard(1 << 3)));
    assert_eq!(walk.next(), Some(BitBoard(1 << 40)));
    assert_eq!(walk.next(), None);
    assert_eq!(walk.next(), None);
}

#[test]
fn picture_of_a_set() {
    let text = BitBoard(RANK_1 & FILE_A).to_string();
    assert!(text.starts_with(" 8  . . . . . . . .\n"));
    assert!(text.contains(" 1  x . . . . . . .\n"));
    assert!(text.ends_with("\n    a b c d e f g h\n"));
}

#[test]
fn diagonals() {
    let long = BitBoard(BB_A1 | BB_B2 | BB_C3 | BB_D4 | BB_E5 | BB_F6 | BB_G7 | BB_H8);
    assert_eq!(diagonal(Square(SQ_A1), Square(SQ_H8)), long);
    assert_eq!(diagonal(Square(SQ_H8), Square(SQ_D4)), long);
    let table = calc_diagonals();
    assert_eq!(table[SQ_D4 as usize][SQ_E5 as usize], long);
    assert_eq!(table[SQ_D4 as usize][SQ_E4 as usize], BitBoard(0));
    let segments = calc_diagonal_segments();
    assert_eq!(
        segments[SQ_A1 as usize][SQ_D4 as usize],
        BitBoard(BB_B2 | BB_C3)
    );
    assert_eq!(segments[SQ_A1 as usize][SQ_A8 as usize], BitBoard(0));
}

#[test]
fn attacks_of_knight_king_and_pawn() {
    assert_eq!(knight_attacks(Square(SQ_A1)), BitBoard((1 << 10) | (1 << 17)));
    assert_eq!(knight_attacks(Square(SQ_D4)).num_squares(), 8);
    assert_eq!(
        king_attacks(Square(SQ_A1)),
        BitBoard((1 << 1) | (1 << 8) | (1 << 9))
    );
    assert_eq!(king_attacks(Square(SQ_D4)).num_squares(), 8);
    assert_eq!(
        pawn_attacks(Color::WHITE, Square(SQ_E4)),
        BitBoard((1 << 35) | (1 << 37))
    );
    assert_eq!(
        pawn_attacks(Color::BLACK, Square(SQ_E4)),
        BitBoard((1 << 19) | (1 << 21))
    );
    assert_eq!(pawn_attacks(Color::WHITE, Square(SQ_A1)), BitBoard(1 << 9));
}

#[test]
fn subsets_of_a_mask() {
    let subsets = partitions(BitBoard(0b1010));
    assert_eq!(
        subsets,
        vec![
            BitBoard(0),
            BitBoard(0b0010),
            BitBoard(0b1000),
            BitBoard(0b1010)
        ]
    );
    assert_eq!(partitions(BitBoard(0)), vec![BitBoard(0)]);
    assert_eq!(partitions(BitBoard(0xFFF)).len(), 4096);
}

#[test]
fn records_of_the_magic_table() {
    let blank = SquareMagic::new();
    assert_eq!(
        (blank.attack_table_start, blank.attack_mask, blank.magic_number, blank.shift),
        (0, BitBoard(0), 0, 0)
    );
    let made = SquareMagic::with(5, 6, 7, 8);
    assert_eq!(
        (made.attack_table_start, made.attack_mask, made.magic_number, made.shift),
        (5, BitBoard(6), 7, 8)
    );
    let table = MagicTable::with_size(3);
    assert_eq!(table.attack_table, vec![BitBoard(0); 3]);
    assert_eq!(table.square_magics.len(), 64);
    let tables = magic_tables();
    assert_eq!(tables.rook_table.attack_table.len(), 102400);
    assert_eq!(tables.bishop_table.attack_table.len(), 5248);
    assert_eq!(tables.rook_table.square_magics[0].shift, 52);
    assert_eq!(tables.bishop_table.square_magics[0].shift, 58);
    assert_eq!(
        tables.rook_table.attacks_empty(Square(SQ_A1)),
        BitBoard((FILE_A | RANK_1) & !1)
    );
    assert_eq!(
        tables.rook_table.get_table_index(Square(SQ_A1), BitBoard(0)),
        0
    );
}

#[test]
fn pieces_and_colours() {
    assert_eq!(Piece::from(0), Piece::PAWN);
    assert_eq!(Piece::from(5), Piece::KING);
    assert_eq!(Piece::QUEEN.index(), 4);
    assert_eq!(Piece::KNIGHT.letter(), 'n');
    assert_eq!(Color::WHITE.opposite(), Color::BLACK);
    assert_eq!(Color::WHITE.index(), 0);
    assert_eq!(Color::BLACK.index(), 1);
    assert_eq!(Color::BLACK.slot(), 1);
    assert_eq!(Color::WHITE.fwd_dir(), 8);
    assert_eq!(Color::BLACK.fwd_dir(), -8);
}

#[test]
fn notation_of_moves() {
    assert_eq!(
        Move::new(Piece::PAWN, Square(SQ_E2), Square(SQ_E4)).to_string(),
        "e2e4"
    );
    assert_eq!(
        Move::promote(Square(48), Square(56), Piece::QUEEN).to_string(),
        "a7a8q"
    );
    assert_eq!(
        Move::en_passant(Square(SQ_E5), Square(43), Square(SQ_D5)).to_string(),
        "e5d6"
    );
    assert_eq!(Move::CastleKingSideWhite.to_string(), "e1g1");
    assert_eq!(Move::CastleQueenSideWhite.to_string(), "e1c1");
    assert_eq!(Move::CastleKingSideBlack.to_string(), "e8g8");
    assert_eq!(Move::CastleQueenSideBlack.to_string(), "e8c8");
    assert_eq!(Move::NullMove.to_string(), "(none)");
}

#[test]
fn placing_pieces() {
    let mut board = Board::empty(Square(SQ_E1), Square(SQ_E8));
    assert_eq!(board.en_passant(), None);
    assert_eq!(board.put_piece_safe(Piece::ROOK, Color::WHITE, Square(SQ_E1)), Err(()));
    assert_eq!(board.put_piece_safe(Piece::ROOK, Color::WHITE, Square(SQ_E8)), Err(()));
    assert_eq!(board.put_piece_safe(Piece::ROOK, Color::WHITE, Square(SQ_A1)), Ok(()));
    assert_eq!(board.piece_at(BitBoard(BB_A1)), Some(Piece::ROOK));
    assert_eq!(board.color_at(BitBoard(BB_A1)), Some(Color::WHITE));
    assert_eq!(board.piece_at(BitBoard(1 << 4)), Some(Piece::KING));
    assert_eq!(board.piece_at(BitBoard(1 << 20)), None);
    assert_eq!(board.color_at(BitBoard(1 << 20)), None);
    assert_eq!(board.put_piece_safe(Piece::QUEEN, Color::BLACK, Square(SQ_A1)), Ok(()));
    assert_eq!(board.piece_at(BitBoard(BB_A1)), Some(Piece::QUEEN));
    assert_eq!(board.color_at(BitBoard(BB_A1)), Some(Color::BLACK));
    assert_eq!(board.piece_of_type(Piece::ROOK), BitBoard(0));
    assert_eq!(board.piece_of_color(Color::BLACK), BitBoard(BB_A1 | (1 << 60)));
    assert_eq!(board.piece_of_opposite_color(Color::BLACK), BitBoard(1 << 4));
    assert_eq!(board.set_king_pos(Color::WHITE, Square(SQ_E8)), Err(()));
    assert_eq!(board.set_king_pos(Color::WHITE, Square(SQ_A1)), Err(()));
    assert_eq!(board.set_king_pos(Color::WHITE, Square(SQ_G1)), Ok(()));
    assert_eq!(board.king_pos[0], Square(SQ_G1));
    assert_eq!(board.piece_of_color(Color::WHITE), BitBoard(1 << 6));
    assert_eq!(board.put_piece_safe(Piece::KING, Color::BLACK, Square(SQ_G8)), Ok(()));
    assert_eq!(board.king_pos[1], Square(SQ_G8));
    assert!(board.check_consistency());
    assert!(!board.move_piece(Square(SQ_D4), Square(SQ_D5), Piece::PAWN, Color::WHITE));
    assert!(board.move_piece(Square(SQ_A1), Square(SQ_A8), Piece::QUEEN, Color::BLACK));
    assert_eq!(board.piece_at(BitBoard(1 << 56)), Some(Piece::QUEEN));
    assert!(!board.move_piece(Square(SQ_A8), Square(SQ_G8), Piece::QUEEN, Color::BLACK));
    assert!(board.move_piece(Square(SQ_G1), Square(SQ_H1), Piece::KING, Color::WHITE));
    assert_eq!(board.king_pos[0], Square(SQ_H1));
    board.put_piece_fast(Piece::PAWN, Color::WHITE, BitBoard(1 << 56));
    assert!(!board.check_consistency());
    board.remove_piece_fast(BitBoard(!(1u64 << 56)));
    assert!(board.check_consistency());
    assert_eq!(board.piece_at(BitBoard(1 << 56)), None);
    board.set_king_pos_fast(Color::WHITE, Square(SQ_F1), BitBoard(1 << 5));
    assert_eq!(board.piece_of_color(Color::WHITE), BitBoard(1 << 5));
}

#[test]
fn a_pass_closes_the_en_passant_square_and_keeps_the_turn() {
    let mut board = Board::from_initial_position();
    board.make_move(Move::new(Piece::PAWN, Square(SQ_E2), Square(SQ_E4)));
    assert_eq!(board.en_passant(), Some(Square(SQ_E3)));
    assert_eq!(board.side_to_play, Color::BLACK);
    board.make_move(Move::NullMove);
    assert_eq!(board.en_passant(), None);
    assert_eq!(board.side_to_play, Color::BLACK);
}

#[test]
fn counter_and_rights_follow_the_moves() {
    let mut board = board_from_fen("r3k2r/8/8/8/8/8/8/R3K2R w KQkq - 7 1").unwrap();
    board.make_move(Move::new(Piece::ROOK, Square(SQ_H1), Square(SQ_G1)));
    assert_eq!(to_string(&board, 1), "r3k2r/8/8/8/8/8/8/R3K1R1 b Qkq - 8 1");
    board.make_move(Move::CastleQueenSideBlack);
    assert_eq!(to_string(&board, 2), "2kr3r/8/8/8/8/8/8/R3K1R1 w Q - 9 2");
    board.make_move(Move::new(Piece::ROOK, Square(SQ_A1), Square(SQ_A8)));
    assert_eq!(to_string(&board, 2), "R1kr3r/8/8/8/8/8/8/4K1R1 b - - 10 2");
    board.make_move(Move::new(Piece::ROOK, Square(59), Square(58 - 2)));
    assert_eq!(to_string(&board, 3), "r1k4r/8/8/8/8/8/8/4K1R1 w - - 0 3");
    let mut board = board_from_fen("4k2r/6P1/8/8/8/8/8/4K3 w k - 3 1").unwrap();
    board.make_move(Move::promote(Square(54), Square(SQ_H8), Piece::KNIGHT));
    assert_eq!(to_string(&board, 1), "4k2N/8/8/8/8/8/8/4K3 b - - 0 1");
    let mut board = board_from_fen("4k3/8/8/3pP3/8/8/8/4K3 w - d6 0 1").unwrap();
    board.make_move(Move::en_passant(Square(SQ_E5), Square(43), Square(SQ_D5)));
    assert_eq!(to_string(&board, 1), "4k3/8/3P4/8/8/8/8/4K3 b - - 0 1");
    let mut board = board_from_fen("4k3/8/8/8/8/8/8/4K2R w K - 255 1").unwrap();
    board.make_move(Move::CastleKingSideWhite);
    assert_eq!(to_string(&board, -3), "4k3/8/8/8/8/8/8/5RK1 b - - 0 -3");
}

#[test]
fn check_is_seen_from_every_piece() {
    for (fen, white, black) in [
        ("4k3/8/8/8/8/8/4r3/4K3 w - - 0 1", true, false),
        ("4k3/8/8/8/8/8/4p3/4KB2 w - - 0 1", false, false),
        ("4k3/8/8/8/8/8/3p4/4K3 w - - 0 1", true, false),
        ("4k3/8/8/8/8/3n4/8/4K3 w - - 0 1", true, false),
        ("4k3/8/8/8/1b6/8/8/4K3 w - - 0 1", true, false),
        ("4k3/8/8/8/1b6/2P5/8/4K3 w - - 0 1", false, false),
        ("4k3/3P4/8/8/8/8/8/q3K3 b - - 0 1", true, true),
    ] {
        let board = board_from_fen(fen).unwrap();
        assert_eq!(board.under_check(Color::WHITE), white, "{}", fen);
        assert_eq!(board.under_check(Color::BLACK), black, "{}", fen);
    }
}

#[test]
fn in_double_check_only_the_king_moves() {
    let board = board_from_fen("4k3/8/8/8/8/5n2/4r3/R3K2R w KQ - 0 1").unwrap();
    assert_eq!(names(&board), vec!["e1d1", "e1e2", "e1f1"]);
}

#[test]
fn a_check_is_taken_blocked_or_fled() {
    let board = board_from_fen("4k3/8/8/8/4r3/8/3N4/R3K3 w Q - 0 1").unwrap();
    assert_eq!(
        names(&board),
        vec!["d2e4", "e1d1", "e1f1", "e1f2"]
    );
}

#[test]
fn a_pinned_piece_stays_on_its_line() {
    let board = board_from_fen("4k3/8/8/8/4r3/8/4R3/4K3 w - - 0 1").unwrap();
    let moves = names(&board);
    assert!(moves.contains(&"e2e3".to_string()));
    assert!(moves.contains(&"e2e4".to_string()));
    assert!(!moves.contains(&"e2d2".to_string()));
    let board = board_from_fen("4k3/8/8/8/4r3/8/4N3/4K3 w - - 0 1").unwrap();
    assert_eq!(names(&board), vec!["e1d1", "e1d2", "e1f1", "e1f2"]);
}

#[test]
fn taking_in_passing_must_not_uncover_the_king() {
    let board = board_from_fen("8/8/8/8/k2Pp2Q/8/8/4K3 b - d3 0 1").unwrap();
    assert!(!names(&board).contains(&"e4d3".to_string()));
    let board = board_from_fen("8/8/8/8/k2Pp3/8/8/4K3 b - d3 0 1").unwrap();
    assert!(names(&board).contains(&"e4d3".to_string()));
    let board = board_from_fen("4k3/8/8/3pP3/8/8/8/4K3 w - d6 0 1").unwrap();
    assert!(names(&board).contains(&"e5d6".to_string()));
}

#[test]
fn castling_needs_right_room_and_safety() {
    let both = board_from_fen("4k3/8/8/8/8/8/8/R3K2R w KQ - 0 1").unwrap();
    assert!(names(&both).contains(&"e1g1".to_string()));
    assert!(names(&both).contains(&"e1c1".to_string()));
    let king_side_only = board_from_fen("4k3/8/8/8/8/8/8/R3K2R w K - 0 1").unwrap();
    assert!(names(&king_side_only).contains(&"e1g1".to_string()));
    assert!(!names(&king_side_only).contains(&"e1c1".to_string()));
    let queen_side_only = board_from_fen("4k3/8/8/8/8/8/8/R3K2R w Q - 0 1").unwrap();
    assert!(!names(&queen_side_only).contains(&"e1g1".to_string()));
    assert!(names(&queen_side_only).contains(&"e1c1".to_string()));
    let blocked = board_from_fen("4k3/8/8/8/8/8/8/RN2K1NR w KQ - 0 1").unwrap();
    assert!(!names(&blocked).contains(&"e1g1".to_string()));
    assert!(!names(&blocked).contains(&"e1c1".to_string()));
    let crossed = board_from_fen("4k3/8/8/8/8/8/5r2/R3K2R w KQ - 0 1").unwrap();
    assert!(!names(&crossed).contains(&"e1g1".to_string()));
    assert!(names(&crossed).contains(&"e1c1".to_string()));
    let black = board_from_fen("r3k2r/8/8/8/8/8/8/4K3 b kq - 0 1").unwrap();
    assert!(names(&black).contains(&"e8g8".to_string()));
    assert!(names(&black).contains(&"e8c8".to_string()));
}

#[test]
fn a_pawn_on_the_seventh_becomes_one_of_four_pieces() {
    let board = board_from_fen("2n1k3/1P6/8/8/8/8/8/4K3 w - - 0 1").unwrap();
    let moves = names(&board);
    for m in ["b7b8q", "b7b8r", "b7b8b", "b7b8n", "b7c8q", "b7c8r", "b7c8b", "b7c8n"] {
        assert!(moves.contains(&m.to_string()), "{}", m);
    }
    assert_eq!(moves.len(), 8 + 5);
}

#[test]
fn letters_of_the_record() {
    assert_eq!(char_to_color('p'), Color::BLACK);
    assert_eq!(char_to_color('P'), Color::WHITE);
    assert_eq!(char_to_piece('n'), Ok(Piece::KNIGHT));
    assert_eq!(char_to_piece('Q'), Ok(Piece::QUEEN));
    assert_eq!(char_to_piece('x'), Err(()));
    assert_eq!(fen_char(Piece::KING, Color::WHITE), 'K');
    assert_eq!(fen_char(Piece::BISHOP, Color::BLACK), 'b');
    assert_eq!(side_to_play("w"), Ok(Color::WHITE));
    assert_eq!(side_to_play("B"), Ok(Color::BLACK));
    assert_eq!(side_to_play("x"), Err(()));
    assert_eq!(side_to_play("wb"), Err(()));
    assert_eq!(side_to_play(""), Err(()));
    assert_eq!(castling_rights("-"), Ok([[false, false], [false, false]]));
    assert_eq!(castling_rights("Kq"), Ok([[true, false], [false, true]]));
    assert_eq!(castling_rights("KQkq"), Ok([[true, true], [true, true]]));
    assert_eq!(castling_rights(""), Ok([[false, false], [false, false]]));
    assert_eq!(castling_rights("KQkqK"), Err(()));
    assert_eq!(castling_rights("Kx"), Err(()));
    assert_eq!(en_passant_square(&"-".to_string()), Ok(None));
    assert_eq!(en_passant_square(&"e3".to_string()), Ok(Some(Square(SQ_E3))));
    assert_eq!(en_passant_square(&"e9".to_string()), Err(()));
    assert_eq!(en_passant_square(&"i3".to_string()), Err(()));
    assert_eq!(en_passant_square(&"e".to_string()), Err(()));
}

#[test]
fn every_malformed_field_is_named() {
    let read = |text: &str| FenComponents::parse(text).and_then(|c| c.board());
    assert_eq!(read("8/8 w - - 0").err(), Some(FenError::Fields));
    assert_eq!(read("8/8 w - - 0 1 1").err(), Some(FenError::Fields));
    assert_eq!(read("").err(), Some(FenError::Fields));
    assert_eq!(read("4k3/8/8/8/8/8/8/4K2x w - - 0 1").err(), Some(FenError::Pieces));
    assert_eq!(read("4k3/8/8/8/8/8/8/4K4 w - - 0 1").err(), Some(FenError::Pieces));
    assert_eq!(read("4k3/8/8/8/8/8/8/4KPPPP w - - 0 1").err(), Some(FenError::Pieces));
    assert_eq!(read("4k3/8/8/8/8/8/8/4K3/8 w - - 0 1").err(), Some(FenError::Pieces));
    assert_eq!(read("4k3/8/8/8/8/8/8/4K2k w - - 0 1").err(), Some(FenError::Pieces));
    assert_eq!(read("4k3/8/8/8/8/8/8/K3K3 w - - 0 1").err(), Some(FenError::Pieces));
    assert_eq!(read("8/8/8/8/8/8/8/8 w - - 0 1").err(), Some(FenError::Pieces));
    assert_eq!(read("8/8/8/8/8/8/8/4K3 w - - 0 1").err(), Some(FenError::Pieces));
    assert_eq!(read("4k3/8/8/8/8/8/8/4R3 w - - 0 1").err(), Some(FenError::Pieces));
    assert_eq!(read("4k3/8/8/8/8/8/8/4k3 w - - 0 1").err(), Some(FenError::Pieces));
    assert_eq!(read("4k3/8/8/8/8/8/8/4K3 x - - 0 1").err(), Some(FenError::SideToMove));
    assert_eq!(read("4k3/8/8/8/8/8/8/4K3 w x - 0 1").err(), Some(FenError::Castling));
    assert_eq!(read("4k3/8/8/8/8/8/8/4K3 w - z9 0 1").err(), Some(FenError::EnPassant));
    assert_eq!(read("4k3/8/8/8/8/8/8/4K3 w - - x 1").err(), Some(FenError::HalfMoveClock));
    assert_eq!(read("4k3/8/8/8/8/8/8/4K3 w - - 256 1").err(), Some(FenError::HalfMoveClock));
    assert_eq!(read("4k3/8/8/8/8/8/8/4K3 w - -  1").err(), Some(FenError::HalfMoveClock));
    assert_eq!(read("4k3/8/8/8/8/8/8/4K3 w - - +255 1").ok().map(|b| b.half_move_counter), Some(255));
    assert_eq!(read("4k3/8/8/8/8/8/8/4K3 w - - 007 x").ok().map(|b| b.half_move_counter), Some(7));
    assert_eq!(board_from_fen("nonsense"), None);
    let parsed = FenComponents::parse("a b c d e f").unwrap();
    assert_eq!(
        (
            parsed.pieces.as_str(),
            parsed.side_to_move.as_str(),
            parsed.castling.as_str(),
            parsed.en_passant.as_str(),
            parsed.half_move_clock.as_str()
        ),
        ("a", "b", "c", "d", "e")
    );
}

#[test]
fn picture_of_a_position() {
    let text = Board::from_initial_position().to_string();
    assert!(text.starts_with("\n 8   \u{265C} \u{265E} \u{265D} \u{265B} \u{265A} \u{265D} \u{265E} \u{265C}\n 7   "));
    assert!(text.ends_with("\n 1   \u{2656} \u{2658} \u{2657} \u{2655} \u{2654} \u{2657} \u{2658} \u{2656}\n"));
    assert!(text.contains("\n 4   \u{25E6} \u{25E6} \u{25E6} \u{25E6} \u{25E6} \u{25E6} \u{25E6} \u{25E6}"));
}

#[test]
fn pieces_on_the_first_squares_of_the_kings_are_read() {
    for record in [
        "4k3/8/8/8/8/8/8/2K1R3 w - - 0 1",
        "4k3/8/8/8/8/8/8/4R1K1 w - - 0 1",
        "2k1r3/8/8/8/8/8/8/4K3 w - - 0 1",
        "4r1k1/8/8/8/8/8/8/4K3 w - - 0 1",
        "4K3/8/8/8/8/8/8/4k3 b - - 3 9",
        "4R2K/8/8/8/8/8/8/k3r3 b - - 0 1",
    ] {
        let board = board_from_fen(record).unwrap();
        assert!(board.check_consistency(), "{}", record);
        let number = if record.ends_with('9') { 9 } else { 1 };
        assert_eq!(to_string(&board, number), record);
    }
    let castled = board_from_fen("4k3/8/8/8/8/8/8/4R1K1 w - - 0 1").unwrap();
    assert_eq!(castled.king_pos[0], Square(SQ_G1));
    assert_eq!(castled.king_pos[1], Square(SQ_E8));
    assert_eq!(castled.piece_at(BitBoard(1 << 4)), Some(Piece::ROOK));
    assert_eq!(castled.color_at(BitBoard(1 << 4)), Some(Color::WHITE));
    assert_eq!(castled.piece_of_color(Color::WHITE), BitBoard((1 << 4) | (1 << 6)));
    let mut written = Board::empty(Square(SQ_E1), Square(SQ_H8));
    written.put_piece_safe(Piece::ROOK, Color::BLACK, Square(SQ_E8)).unwrap();
    let record = to_string(&written, 1);
    assert_eq!(record, "4r2k/8/8/8/8/8/8/4K3 w - - 0 1");
    assert_eq!(board_from_fen(&record), Some(written));
}

#[test]
fn a_king_takes_what_stands_where_it_goes() {
    let mut board = Board::empty(Square(SQ_E1), Square(SQ_E8));
    board.put_piece_safe(Piece::ROOK, Color::BLACK, Square(SQ_E2)).unwrap();
    board.put_piece_safe(Piece::PAWN, Color::WHITE, Square(SQ_D4)).unwrap();
    assert!(!board.move_piece(Square(SQ_E1), Square(SQ_E8), Piece::KING, Color::WHITE));
    assert!(!board.move_piece(Square(SQ_D4), Square(SQ_E8), Piece::PAWN, Color::WHITE));
    assert!(!board.move_piece(Square(SQ_E1), Square(SQ_D4), Piece::KING, Color::WHITE));
    assert_eq!(board.king_pos, [Square(SQ_E1), Square(SQ_E8)]);
    assert!(board.move_piece(Square(SQ_E1), Square(SQ_E2), Piece::KING, Color::WHITE));
    assert_eq!(board.king_pos[0], Square(SQ_E2));
    assert_eq!(board.piece_at(BitBoard(1 << 12)), Some(Piece::KING));
    assert_eq!(board.color_at(BitBoard(1 << 12)), Some(Color::WHITE));
    assert_eq!(board.piece_of_type(Piece::ROOK), BitBoard(0));
    assert_eq!(board.piece_of_color(Color::BLACK), BitBoard(1 << 60));
    assert_eq!(board.piece_of_color(Color::WHITE), BitBoard((1 << 12) | (1 << 27)));
    assert!(board.check_consistency());
    board.put_piece_safe(Piece::QUEEN, Color::WHITE, Square(SQ_D5)).unwrap();
    assert_eq!(board.put_piece_safe(Piece::KING, Color::BLACK, Square(SQ_E2)), Err(()));
    assert_eq!(board.put_piece_safe(Piece::KING, Color::BLACK, Square(SQ_D5)), Ok(()));
    assert_eq!(board.king_pos[1], Square(SQ_D5));
    assert_eq!(board.piece_of_type(Piece::QUEEN), BitBoard(0));
    assert_eq!(board.piece_of_color(Color::BLACK), BitBoard(1 << 35));
    assert_eq!(board.piece_of_color(Color::WHITE), BitBoard((1 << 12) | (1 << 27)));
    assert_eq!(board.color_at(BitBoard(1 << 35)), Some(Color::BLACK));
    assert!(board.check_consistency());
    assert!(board.move_piece(Square(SQ_D5), Square(SQ_D4), Piece::KING, Color::BLACK));
    assert_eq!(board.piece_of_type(Piece::PAWN), BitBoard(0));
    assert_eq!(board.piece_of_color(Color::WHITE), BitBoard(1 << 12));
    assert_eq!(board.piece_of_color(Color::BLACK), BitBoard(1 << 27));
}

#[test]
fn the_first_set_that_clashes_is_named() {
    let mut board = Board::from_initial_position();
    assert_eq!(board.first_clash(), None);
    board.piece_of_type[4] = BitBoard(board.piece_of_type[4].0 | 1);
    assert_eq!(board.first_clash(), Some(4));
    assert!(!board.check_consistency());
    board.piece_of_type[2] = BitBoard(board.piece_of_type[2].0 | (1 << 8));
    assert_eq!(board.first_clash(), Some(2));
    board.piece_of_type[1] = BitBoard(board.piece_of_type[1].0 | (1 << 9));
    assert_eq!(board.first_clash(), Some(1));
}
