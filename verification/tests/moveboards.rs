use magic_bitboards::bitboard::Bitboard;
use magic_bitboards::boardstructs::{Direction, Piece, Square};
use magic_bitboards::moves::magic::bitboard_combinations;
use magic_bitboards::moves::moveboards::{
    bishop_move_board_slow, rook_move_board_slow, slide, slider_move_board_slow, MoveBoards,
    Slider,
};

const INNER: u64 = 0x007e_7e7e_7e7e_7e00;

fn bb(bits: u64) -> Bitboard {
    Bitboard::from(bits)
}

fn king_by_hand(index: u8) -> Bitboard {
    let (rank, file) = ((index / 8) as i32, (index % 8) as i32);
    let mut board = Bitboard::new();
    for up in -1..=1 {
        for right in -1..=1 {
            let (r, f) = (rank + up, file + right);
            if (up != 0 || right != 0) && (0..8).contains(&r) && (0..8).contains(&f) {
                board.insert(Square::new((r * 8 + f) as u8));
            }
        }
    }
    board
}

fn knight_by_hand(index: u8) -> Bitboard {
    let (rank, file) = ((index / 8) as i32, (index % 8) as i32);
    let jumps = [(1, 2), (2, 1), (-1, 2), (-2, 1), (1, -2), (2, -1), (-1, -2), (-2, -1)];
    let mut board = Bitboard::new();
    for (up, right) in jumps {
        let (r, f) = (rank + up, file + right);
        if (0..8).contains(&r) && (0..8).contains(&f) {
            board.insert(Square::new((r * 8 + f) as u8));
        }
    }
    board
}

#[test]
fn rook_on_an_empty_board() {
    assert_eq!(
        rook_move_board_slow(Square::new(0), Bitboard::new()),
        bb(0x0101_0101_0101_01fe)
    );
    assert_eq!(
        rook_move_board_slow(Square::new(27), Bitboard::new()),
        bb(0x0808_0808_f708_0808)
    );
    assert_eq!(
        rook_move_board_slow(Square::new(63), Bitboard::new()),
        bb(0x7f80_8080_8080_8080)
    );
}

#[test]
fn rook_stops_on_the_first_blocker_and_takes_it() {
    let blockers = bb((1 << 43) | (1 << 29) | (1 << 25));
    assert_eq!(
        rook_move_board_slow(Square::new(27), blockers),
        bb(0x0000_0808_3608_0808)
    );
}

#[test]
fn bishop_on_an_empty_board() {
    assert_eq!(
        bishop_move_board_slow(Square::new(0), Bitboard::new()),
        bb(0x8040_2010_0804_0200)
    );
    assert_eq!(
        bishop_move_board_slow(Square::new(27), Bitboard::new()),
        bb(0x8041_2214_0014_2241)
    );
}

#[test]
fn bishop_stops_on_the_first_blocker_and_takes_it() {
    let blockers = bb((1 << 45) | (1 << 9));
    assert_eq!(
        bishop_move_board_slow(Square::new(27), blockers),
        bb(0x0001_2214_0014_2240)
    );
}

#[test]
fn blockers_behind_a_blocker_change_nothing() {
    let near = bb(1 << 35);
    let both = bb((1 << 35) | (1 << 43) | (1 << 59));
    assert_eq!(
        rook_move_board_slow(Square::new(27), near),
        rook_move_board_slow(Square::new(27), both)
    );
}

#[test]
fn a_blocker_on_the_origin_changes_nothing() {
    for index in [0u8, 27, 63] {
        let sqr = Square::new(index);
        assert_eq!(
            rook_move_board_slow(sqr, Bitboard::from(sqr)),
            rook_move_board_slow(sqr, Bitboard::new())
        );
        assert_eq!(
            bishop_move_board_slow(sqr, Bitboard::from(sqr)),
            bishop_move_board_slow(sqr, Bitboard::new())
        );
    }
}

#[test]
fn a_full_board_leaves_the_neighbours() {
    let full = bb(u64::MAX);
    assert_eq!(
        rook_move_board_slow(Square::new(27), full),
        bb((1 << 35) | (1 << 19) | (1 << 28) | (1 << 26))
    );
    assert_eq!(
        bishop_move_board_slow(Square::new(27), full),
        bb((1 << 36) | (1 << 34) | (1 << 20) | (1 << 18))
    );
    assert_eq!(rook_move_board_slow(Square::new(0), full), bb((1 << 8) | (1 << 1)));
    assert_eq!(bishop_move_board_slow(Square::new(0), full), bb(1 << 9));
}

#[test]
fn slide_walks_one_ray() {
    let d4 = Square::new(27);
    assert_eq!(
        slide(d4, Direction::Up, Bitboard::new()),
        bb((1 << 35) | (1 << 43) | (1 << 51) | (1 << 59))
    );
    assert_eq!(slide(d4, Direction::Up, bb(1 << 43)), bb((1 << 35) | (1 << 43)));
    assert_eq!(
        slide(d4, Direction::DownLeft, Bitboard::new()),
        bb((1 << 18) | (1 << 9) | 1)
    );
    assert_eq!(slide(d4, Direction::Left, bb(1 << 26)), bb(1 << 26));
    assert_eq!(slide(Square::new(7), Direction::Right, Bitboard::new()), Bitboard::new());
    assert_eq!(slide(Square::new(7), Direction::UpRight, Bitboard::new()), Bitboard::new());
}

#[test]
fn sliders_by_kind() {
    let blockers = bb(0x0012_3400_0056_7800);
    for index in 0..64u8 {
        let sqr = Square::new(index);
        assert_eq!(
            slider_move_board_slow(Slider::Bishop, sqr, blockers),
            bishop_move_board_slow(sqr, blockers)
        );
        assert_eq!(
            slider_move_board_slow(Slider::Rook, sqr, blockers),
            rook_move_board_slow(sqr, blockers)
        );
    }
}

#[test]
fn king_in_a_corner_reaches_three_squares() {
    let boards = MoveBoards::gen_king_moves();
    assert_eq!(boards[0], bb(0x302));
    assert_eq!(boards[7], bb(0xc040));
    assert_eq!(boards[56], bb(0x0203_0000_0000_0000));
    assert_eq!(boards[63], bb(0x40c0_0000_0000_0000));
    for corner in [0usize, 7, 56, 63] {
        assert_eq!(boards[corner].len(), 3);
    }
}

#[test]
fn knight_in_a_corner_reaches_two_squares() {
    let boards = MoveBoards::gen_knight_moves();
    assert_eq!(boards[0], bb(0x0002_0400));
    assert_eq!(boards[7], bb(0x0040_2000));
    assert_eq!(boards[56], bb(0x0004_0200_0000_0000));
    assert_eq!(boards[63], bb(0x0020_4000_0000_0000));
    for corner in [0usize, 7, 56, 63] {
        assert_eq!(boards[corner].len(), 2);
    }
}

#[test]
fn king_and_knight_in_the_middle() {
    assert_eq!(MoveBoards::gen_king_moves()[28], bb(0x0000_0038_2838_0000));
    assert_eq!(MoveBoards::gen_knight_moves()[28], bb(0x0000_2844_0044_2800));
}

#[test]
fn king_table_for_every_square() {
    let boards = MoveBoards::gen_king_moves();
    for index in 0..64u8 {
        assert_eq!(boards[index as usize], king_by_hand(index));
    }
}

#[test]
fn knight_table_for_every_square() {
    let boards = MoveBoards::gen_knight_moves();
    for index in 0..64u8 {
        assert_eq!(boards[index as usize], knight_by_hand(index));
    }
}

#[test]
fn move_boards_are_built() {
    assert!(MoveBoards::new().is_ok());
}

#[test]
fn lookups_agree_with_ray_casting() {
    let boards = MoveBoards::new().unwrap();
    let mut tables = 0;
    for index in 0..64u8 {
        let sqr = Square::new(index);
        let empty = Bitboard::new();
        let bishop_mask = bishop_move_board_slow(sqr, empty) & bb(INNER);
        let patterns = bitboard_combinations(bishop_mask);
        assert!(patterns.len() <= 4096);
        for blockers in patterns {
            assert_eq!(
                boards.move_board(sqr, Piece::WhiteBishop, blockers),
                bishop_move_board_slow(sqr, blockers)
            );
        }
        tables += 1;
        let rook_mask = rook_move_board_slow(sqr, empty) & bb(INNER);
        let patterns = bitboard_combinations(rook_mask);
        assert!(patterns.len() <= 4096);
        for blockers in patterns {
            assert_eq!(
                boards.move_board(sqr, Piece::BlackRook, blockers),
                rook_move_board_slow(sqr, blockers)
            );
        }
        tables += 1;
    }
    assert_eq!(tables, 128);
}

#[test]
fn move_board_by_piece() {
    let boards = MoveBoards::new().unwrap();
    let kings = MoveBoards::gen_king_moves();
    let knights = MoveBoards::gen_knight_moves();
    let samples = [0u64, u64::MAX, 0x0012_3400_0056_7800, 0xdead_beef_cafe_f00d];
    for index in 0..64u8 {
        let sqr = Square::new(index);
        for sample in samples {
            let blockers = bb(sample);
            let relevant = blockers & bb(INNER);
            assert_eq!(boards.move_board(sqr, Piece::WhiteKing, blockers), kings[index as usize]);
            assert_eq!(boards.move_board(sqr, Piece::BlackKing, blockers), kings[index as usize]);
            assert_eq!(
                boards.move_board(sqr, Piece::WhiteKnight, blockers),
                knights[index as usize]
            );
            assert_eq!(
                boards.move_board(sqr, Piece::BlackKnight, blockers),
                knights[index as usize]
            );
            let bishop = bishop_move_board_slow(
                sqr,
                relevant & bishop_move_board_slow(sqr, Bitboard::new()),
            );
            let rook =
                rook_move_board_slow(sqr, relevant & rook_move_board_slow(sqr, Bitboard::new()));
            assert_eq!(boards.move_board(sqr, Piece::WhiteBishop, blockers), bishop);
            assert_eq!(boards.move_board(sqr, Piece::BlackBishop, blockers), bishop);
            assert_eq!(boards.move_board(sqr, Piece::WhiteRook, blockers), rook);
            assert_eq!(boards.move_board(sqr, Piece::BlackRook, blockers), rook);
            assert_eq!(boards.move_board(sqr, Piece::WhiteQueen, blockers), bishop | rook);
            assert_eq!(boards.move_board(sqr, Piece::BlackQueen, blockers), bishop | rook);
        }
    }
}

#[test]
fn blockers_on_the_outer_ring_are_not_read() {
    let boards = MoveBoards::new().unwrap();
    let d4 = Square::new(27);
    let ring = bb(!INNER);
    assert_eq!(
        boards.move_board(d4, Piece::WhiteRook, ring),
        rook_move_board_slow(d4, Bitboard::new())
    );
    assert_eq!(
        boards.move_board(d4, Piece::WhiteQueen, ring),
        rook_move_board_slow(d4, Bitboard::new()) | bishop_move_board_slow(d4, Bitboard::new())
    );
    let a1 = Square::new(0);
    assert_eq!(
        boards.move_board(a1, Piece::WhiteRook, bb(1 << 24)),
        bb(0x0101_0101_0101_01fe)
    );
}
