use magic_bitboards::bitboard::Bitboard;
use magic_bitboards::boardstructs::{Piece, Square};
use magic_bitboards::moves::Move;
use magic_bitboards::position::{Bitboards, PieceBoard, Position};

fn starting_board() -> PieceBoard {
    let position = Position::starting_position();
    let mut board = [Piece::Empty; 64];
    for index in 0..64u8 {
        board[index as usize] = position.piece_on(Square::new(index));
    }
    board
}

#[test]
fn size_of_types() {
    assert_eq!(std::mem::size_of::<Square>(), 1);
    assert_eq!(std::mem::size_of::<Piece>(), 1);
}

#[test]
fn piece_on() {
    let board = Position::starting_position();
    assert_eq!(
        board.piece_on(Square::try_from_str("a1").unwrap()),
        Piece::WhiteRook
    );
    assert_eq!(
        board.piece_on(Square::try_from_str("b1").unwrap()),
        Piece::WhiteKnight
    );
    assert_eq!(
        board.piece_on(Square::try_from_str("c1").unwrap()),
        Piece::WhiteBishop
    );
    assert_eq!(
        board.piece_on(Square::try_from_str("d1").unwrap()),
        Piece::WhiteQueen
    );
    assert_eq!(
        board.piece_on(Square::try_from_str("e1").unwrap()),
        Piece::WhiteKing
    );
    assert_eq!(
        board.piece_on(Square::try_from_str("f1").unwrap()),
        Piece::WhiteBishop
    );
    assert_eq!(
        board.piece_on(Square::try_from_str("g1").unwrap()),
        Piece::WhiteKnight
    );
    assert_eq!(
        board.piece_on(Square::try_from_str("h1").unwrap()),
        Piece::WhiteRook
    );

    assert_eq!(
        board.piece_on(Square::try_from_str("a8").unwrap()),
        Piece::BlackRook
    );
    assert_eq!(
        board.piece_on(Square::try_from_str("b8").unwrap()),
        Piece::BlackKnight
    );
    assert_eq!(
        board.piece_on(Square::try_from_str("c8").unwrap()),
        Piece::BlackBishop
    );
    assert_eq!(
        board.piece_on(Square::try_from_str("d8").unwrap()),
        Piece::BlackQueen
    );
    assert_eq!(
        board.piece_on(Square::try_from_str("e8").unwrap()),
        Piece::BlackKing
    );
    assert_eq!(
        board.piece_on(Square::try_from_str("f8").unwrap()),
        Piece::BlackBishop
    );
    assert_eq!(
        board.piece_on(Square::try_from_str("g8").unwrap()),
        Piece::BlackKnight
    );
    assert_eq!(
        board.piece_on(Square::try_from_str("h8").unwrap()),
        Piece::BlackRook
    );
}

#[test]
fn make_move() {
    let mut board = Position::starting_position();
    let sqr_e2 = Square::try_from_str("e2").unwrap();
    let sqr_e4 = Square::try_from_str("e4").unwrap();
    let sqr_d7 = Square::try_from_str("d7").unwrap();
    let sqr_d5 = Square::try_from_str("d5").unwrap();
    board.make_move(Move {
        from: sqr_e2,
        to: sqr_e4,
        promotion: false,
        capture: false,
    });
    assert_eq!(board.piece_on(sqr_e2), Piece::Empty);
    assert_eq!(board.piece_on(sqr_e4), Piece::WhitePawn);

    board.make_move(Move {
        from: sqr_d7,
        to: sqr_d5,
        promotion: false,
        capture: false,
    });
    assert_eq!(board.piece_on(sqr_e2), Piece::Empty);
    assert_eq!(board.piece_on(sqr_e4), Piece::WhitePawn);
    assert_eq!(board.piece_on(sqr_d7), Piece::Empty);
    assert_eq!(board.piece_on(sqr_d5), Piece::BlackPawn);
}

#[test]
fn starting_position_by_rank() {
    let board = Position::starting_position();
    for file in 0..8u8 {
        assert_eq!(board.piece_on(Square::new(8 + file)), Piece::WhitePawn);
        assert_eq!(board.piece_on(Square::new(48 + file)), Piece::BlackPawn);
        for rank in 2..6u8 {
            assert_eq!(board.piece_on(Square::new(rank * 8 + file)), Piece::Empty);
        }
    }
}

#[test]
fn set_piece_on_changes_one_square() {
    let mut board = Position::starting_position();
    let before: Vec<Piece> = (0..64u8).map(|i| board.piece_on(Square::new(i))).collect();
    board.set_piece_on(Piece::BlackQueen, Square::new(35));
    for index in 0..64u8 {
        let expected = if index == 35 {
            Piece::BlackQueen
        } else {
            before[index as usize]
        };
        assert_eq!(board.piece_on(Square::new(index)), expected);
    }
    board.set_piece_on(Piece::Empty, Square::new(35));
    for index in 0..64u8 {
        assert_eq!(board.piece_on(Square::new(index)), before[index as usize]);
    }
}

#[test]
fn make_move_takes_what_stands_on_the_target() {
    let mut board = Position::starting_position();
    board.make_move(Move {
        from: Square::new(3),
        to: Square::new(59),
        promotion: false,
        capture: true,
    });
    assert_eq!(board.piece_on(Square::new(3)), Piece::Empty);
    assert_eq!(board.piece_on(Square::new(59)), Piece::WhiteQueen);
}

#[test]
fn make_move_from_an_empty_square_empties_the_target() {
    let mut board = Position::starting_position();
    board.make_move(Move {
        from: Square::new(30),
        to: Square::new(8),
        promotion: false,
        capture: false,
    });
    assert_eq!(board.piece_on(Square::new(30)), Piece::Empty);
    assert_eq!(board.piece_on(Square::new(8)), Piece::Empty);
}

#[test]
fn bitboards_of_the_starting_board() {
    let bitboards = Bitboards::from(&starting_board());
    let expected = [
        (Piece::WhitePawn, 0x0000_0000_0000_ff00u64),
        (Piece::WhiteKnight, 0x0000_0000_0000_0042),
        (Piece::WhiteBishop, 0x0000_0000_0000_0024),
        (Piece::WhiteRook, 0x0000_0000_0000_0081),
        (Piece::WhiteQueen, 0x0000_0000_0000_0008),
        (Piece::WhiteKing, 0x0000_0000_0000_0010),
        (Piece::BlackPawn, 0x00ff_0000_0000_0000),
        (Piece::BlackKnight, 0x4200_0000_0000_0000),
        (Piece::BlackBishop, 0x2400_0000_0000_0000),
        (Piece::BlackRook, 0x8100_0000_0000_0000),
        (Piece::BlackQueen, 0x0800_0000_0000_0000),
        (Piece::BlackKing, 0x1000_0000_0000_0000),
        (Piece::Empty, 0x0000_ffff_ffff_0000),
    ];
    for (piece, squares) in expected {
        assert_eq!(bitboards.piece_bb(piece), Bitboard::from(squares));
    }
}

#[test]
fn bitboards_of_an_empty_board() {
    let bitboards = Bitboards::from(&[Piece::Empty; 64]);
    assert_eq!(bitboards.piece_bb(Piece::Empty), Bitboard::from(u64::MAX));
    assert!(bitboards.piece_bb(Piece::WhiteKing).is_empty());
    assert!(bitboards.piece_bb(Piece::BlackPawn).is_empty());
}

#[test]
fn bitboards_hold_each_square_once() {
    let mut board = starting_board();
    board[27] = Piece::BlackQueen;
    board[0] = Piece::Empty;
    board[63] = Piece::WhiteKnight;
    let bitboards = Bitboards::from(&board);
    let pieces = [
        Piece::WhitePawn,
        Piece::WhiteKnight,
        Piece::WhiteBishop,
        Piece::WhiteRook,
        Piece::WhiteQueen,
        Piece::WhiteKing,
        Piece::BlackPawn,
        Piece::BlackKnight,
        Piece::BlackBishop,
        Piece::BlackRook,
        Piece::BlackQueen,
        Piece::BlackKing,
        Piece::Empty,
    ];
    for index in 0..64u8 {
        for piece in pieces {
            assert_eq!(
                bitboards.piece_bb(piece).contains(Square::new(index)),
                board[index as usize] == piece
            );
        }
    }
}
