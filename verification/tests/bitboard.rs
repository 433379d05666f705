use magic_bitboards::bitboard::Bitboard;
use magic_bitboards::boardstructs::{Direction, File, Rank, Shiftable, Square};

fn bb(bits: u64) -> Bitboard {
    Bitboard::from(bits)
}

fn bits(board: Bitboard) -> u64 {
    u64::from(board)
}

const SAMPLES: [u64; 8] = [
    0,
    u64::MAX,
    0x0000_0000_0000_00ff,
    0x8000_0000_0000_0001,
    0x0101_0101_0101_0101,
    0x00ff_00ff_1234_5678,
    0xdead_beef_cafe_f00d,
    0x0000_0010_0800_0000,
];

#[test]
fn new_is_empty() {
    assert_eq!(bits(Bitboard::new()), 0);
    assert!(Bitboard::new().is_empty());
    assert_eq!(Bitboard::new().len(), 0);
}

#[test]
fn len_counts_the_members() {
    assert_eq!(bb(0xf0).len(), 4);
    assert_eq!(bb(1).len(), 1);
    assert_eq!(bb(0x8000_0000_0000_0000).len(), 1);
    assert_eq!(bb(u64::MAX).len(), 64);
    assert_eq!(bb(0x0101_0101_0101_0101).len(), 8);
    assert_eq!(bb(0xff00_0000_0000_00ff).len(), 16);
}

#[test]
fn is_empty_only_for_the_empty_set() {
    assert!(bb(0).is_empty());
    assert!(!bb(1).is_empty());
    assert!(!bb(0x8000_0000_0000_0000).is_empty());
}

#[test]
fn invert_gives_the_other_squares() {
    assert_eq!(bits(bb(0).invert()), u64::MAX);
    assert_eq!(bits(bb(0xff).invert()), 0xffff_ffff_ffff_ff00);
    for sample in SAMPLES {
        assert_eq!(bb(sample).invert().invert(), bb(sample));
        assert!(bb(sample).invert().is_disjoint(bb(sample)));
        assert_eq!(bb(sample).invert().len() + bb(sample).len(), 64);
    }
}

#[test]
fn union_and_intersection_values() {
    assert_eq!(bb(0b1100).union(bb(0b1010)), bb(0b1110));
    assert_eq!(bb(0b1100).intersection(bb(0b1010)), bb(0b1000));
    assert_eq!(bb(0b1100).difference(bb(0b1010)), bb(0b0100));
    assert_eq!(bb(0b1100).symmetric_difference(bb(0b1010)), bb(0b0110));
}

#[test]
fn union_and_intersection_are_commutative() {
    for a in SAMPLES {
        for b in SAMPLES {
            assert_eq!(bb(a).union(bb(b)), bb(b).union(bb(a)));
            assert_eq!(bb(a).intersection(bb(b)), bb(b).intersection(bb(a)));
        }
    }
}

#[test]
fn union_and_intersection_are_associative() {
    for a in SAMPLES {
        for b in SAMPLES {
            for c in SAMPLES {
                assert_eq!(bb(a).union(bb(b)).union(bb(c)), bb(a).union(bb(b).union(bb(c))));
                assert_eq!(
                    bb(a).intersection(bb(b)).intersection(bb(c)),
                    bb(a).intersection(bb(b).intersection(bb(c)))
                );
            }
        }
    }
}

#[test]
fn union_and_intersection_are_idempotent() {
    for a in SAMPLES {
        assert_eq!(bb(a).union(bb(a)), bb(a));
        assert_eq!(bb(a).intersection(bb(a)), bb(a));
    }
}

#[test]
fn difference_is_intersection_with_the_inverse() {
    for a in SAMPLES {
        for b in SAMPLES {
            assert_eq!(bb(a).difference(bb(b)), bb(a).intersection(bb(b).invert()));
        }
    }
}

#[test]
fn mutual_subsets_are_equal() {
    for a in SAMPLES {
        for b in SAMPLES {
            if bb(a).is_subset(bb(b)) && bb(b).is_subset(bb(a)) {
                assert_eq!(a, b);
            }
        }
    }
}

#[test]
fn subset_superset_disjoint() {
    assert!(bb(0b0100).is_subset(bb(0b1100)));
    assert!(!bb(0b0110).is_subset(bb(0b1100)));
    assert!(bb(0b1100).is_supset(bb(0b0100)));
    assert!(!bb(0b1100).is_supset(bb(0b0110)));
    assert!(bb(0b0011).is_disjoint(bb(0b1100)));
    assert!(!bb(0b0111).is_disjoint(bb(0b1100)));
    assert!(bb(0).is_subset(bb(0)));
    assert!(bb(0).is_disjoint(bb(0)));
    assert!(bb(0).is_subset(bb(0b1)));
    assert!(bb(0b1).is_supset(bb(0)));
}

#[test]
fn contains_reads_the_bit_of_the_square() {
    let board = bb(0x8000_0000_0000_0101);
    for index in 0..64u8 {
        let expected = index == 0 || index == 8 || index == 63;
        assert_eq!(board.contains(Square::new(index)), expected);
    }
}

#[test]
fn insert_returns_prior_membership() {
    let mut board = Bitboard::new();
    assert!(!board.insert(Square::new(12)));
    assert_eq!(bits(board), 1 << 12);
    assert!(board.insert(Square::new(12)));
    assert_eq!(bits(board), 1 << 12);
    assert!(!board.insert(Square::new(63)));
    assert_eq!(bits(board), (1 << 12) | (1 << 63));
}

#[test]
fn remove_returns_prior_membership() {
    let mut board = bb((1 << 12) | (1 << 63));
    assert!(board.remove(Square::new(12)));
    assert_eq!(bits(board), 1 << 63);
    assert!(!board.remove(Square::new(12)));
    assert_eq!(bits(board), 1 << 63);
    assert!(board.remove(Square::new(63)));
    assert!(board.is_empty());
}

#[test]
fn remove_then_insert_keeps_the_other_squares() {
    for sample in SAMPLES {
        for index in 0..64u8 {
            let sqr = Square::new(index);
            let mut board = bb(sample);
            board.remove(sqr);
            board.insert(sqr);
            assert_eq!(bits(board) & !(1u64 << index), sample & !(1u64 << index));
            assert!(board.contains(sqr));
            let mut board = bb(sample);
            board.insert(sqr);
            board.remove(sqr);
            assert_eq!(bits(board) & !(1u64 << index), sample & !(1u64 << index));
            assert!(!board.contains(sqr));
        }
    }
}

#[test]
fn undoing_an_insert_or_a_remove_restores_the_set() {
    let mut board = bb(0xff00);
    assert!(!board.insert(Square::new(3)));
    assert!(board.remove(Square::new(3)));
    assert_eq!(bits(board), 0xff00);
    assert!(board.remove(Square::new(9)));
    assert!(!board.insert(Square::new(9)));
    assert_eq!(bits(board), 0xff00);
}

#[test]
fn conversions_to_and_from_words() {
    for sample in SAMPLES {
        assert_eq!(u64::from(Bitboard::from(sample)), sample);
    }
}

#[test]
fn a_square_as_a_bitboard() {
    assert_eq!(bits(Bitboard::from(Square::new(0))), 1);
    assert_eq!(bits(Bitboard::from(Square::new(28))), 1 << 28);
    assert_eq!(bits(Bitboard::from(Square::new(63))), 1 << 63);
}

#[test]
fn a_rank_as_a_bitboard() {
    assert_eq!(bits(Bitboard::from(Rank::new(0))), 0x0000_0000_0000_00ff);
    assert_eq!(bits(Bitboard::from(Rank::new(3))), 0x0000_0000_ff00_0000);
    assert_eq!(bits(Bitboard::from(Rank::new(7))), 0xff00_0000_0000_0000);
    for rank in 0..8u8 {
        assert_eq!(Bitboard::from(Rank::new(rank)).len(), 8);
    }
}

#[test]
fn a_file_as_a_bitboard() {
    assert_eq!(bits(Bitboard::from(File::new(0))), 0x0101_0101_0101_0101);
    assert_eq!(bits(Bitboard::from(File::new(4))), 0x1010_1010_1010_1010);
    assert_eq!(bits(Bitboard::from(File::new(7))), 0x8080_8080_8080_8080);
    for file in 0..8u8 {
        assert_eq!(Bitboard::from(File::new(file)).len(), 8);
    }
}

#[test]
fn operators_are_the_set_operations() {
    for a in SAMPLES {
        for b in SAMPLES {
            assert_eq!(bits(bb(a) & bb(b)), a & b);
            assert_eq!(bits(bb(a) | bb(b)), a | b);
            assert_eq!(bits(bb(a) ^ bb(b)), a ^ b);
            let mut c = bb(a);
            c &= bb(b);
            assert_eq!(bits(c), a & b);
            let mut c = bb(a);
            c |= bb(b);
            assert_eq!(bits(c), a | b);
            let mut c = bb(a);
            c ^= bb(b);
            assert_eq!(bits(c), a ^ b);
        }
    }
}

#[test]
fn iteration_is_ascending() {
    let board = bb((1 << 3) | (1 << 17) | (1 << 40) | (1 << 63) | 1);
    let mut iter = board.into_iter();
    assert_eq!(iter.next(), Some(Square::new(0)));
    assert_eq!(iter.next(), Some(Square::new(3)));
    assert_eq!(iter.next(), Some(Square::new(17)));
    assert_eq!(iter.next(), Some(Square::new(40)));
    assert_eq!(iter.next(), Some(Square::new(63)));
    assert_eq!(iter.next(), None);
    assert_eq!(iter.next(), None);
}

#[test]
fn iteration_leaves_the_bitboard_as_it_was() {
    let board = bb(0xf0f0);
    let mut iter = board.into_iter();
    while iter.next().is_some() {}
    assert_eq!(bits(board), 0xf0f0);
    let mut again = board.into_iter();
    assert_eq!(again.next(), Some(Square::new(4)));
}

#[test]
fn iteration_of_the_empty_and_the_full_board() {
    assert_eq!(Bitboard::new().into_iter().next(), None);
    let mut iter = bb(u64::MAX).into_iter();
    for index in 0..64u8 {
        assert_eq!(iter.next(), Some(Square::new(index)));
    }
    assert_eq!(iter.next(), None);
}

#[test]
fn squares_lists_the_members_in_order() {
    let board = bb((1 << 3) | (1 << 17) | (1 << 40));
    assert_eq!(
        board.squares(),
        vec![Square::new(3), Square::new(17), Square::new(40)]
    );
    assert!(Bitboard::new().squares().is_empty());
    for sample in SAMPLES {
        let mut listed = Vec::new();
        let mut iter = bb(sample).into_iter();
        while let Some(sqr) = iter.next() {
            listed.push(sqr);
        }
        assert_eq!(bb(sample).squares(), listed);
        assert_eq!(listed.len(), bb(sample).len() as usize);
    }
}

#[test]
fn shift_moves_every_member() {
    let e4 = bb(1 << 28);
    assert_eq!(bits(e4.shift(Direction::Up)), 1 << 36);
    assert_eq!(bits(e4.shift(Direction::UpRight)), 1 << 37);
    assert_eq!(bits(e4.shift(Direction::Right)), 1 << 29);
    assert_eq!(bits(e4.shift(Direction::DownRight)), 1 << 21);
    assert_eq!(bits(e4.shift(Direction::Down)), 1 << 20);
    assert_eq!(bits(e4.shift(Direction::DownLeft)), 1 << 19);
    assert_eq!(bits(e4.shift(Direction::Left)), 1 << 27);
    assert_eq!(bits(e4.shift(Direction::UpLeft)), 1 << 35);
}

#[test]
fn first_file_shifted_left_is_empty() {
    assert!(bb(0x0101_0101_0101_0101).shift(Direction::Left).is_empty());
    assert!(bb(0x0001_0000_0100_0001).shift(Direction::Left).is_empty());
    assert!(bb(0x0101_0101_0101_0101).shift(Direction::UpLeft).is_empty());
    assert!(bb(0x0101_0101_0101_0101).shift(Direction::DownLeft).is_empty());
}

#[test]
fn last_file_shifted_right_is_empty() {
    assert!(bb(0x8080_8080_8080_8080).shift(Direction::Right).is_empty());
    assert!(bb(0x8080_8080_8080_8080).shift(Direction::UpRight).is_empty());
    assert!(bb(0x8080_8080_8080_8080).shift(Direction::DownRight).is_empty());
}

#[test]
fn edge_ranks_shifted_outwards_are_empty() {
    assert!(bb(0xff00_0000_0000_0000).shift(Direction::Up).is_empty());
    assert!(bb(0x0000_0000_0000_00ff).shift(Direction::Down).is_empty());
}

#[test]
fn full_board_up_then_down_loses_the_top_rank() {
    let full = bb(u64::MAX);
    let up = full.shift(Direction::Up);
    assert_eq!(bits(up), 0xffff_ffff_ffff_ff00);
    let back = up.shift(Direction::Down);
    assert_eq!(bits(back), 0x00ff_ffff_ffff_ffff);
    assert_ne!(back, full);
}

#[test]
fn full_board_shifts() {
    let full = bb(u64::MAX);
    assert_eq!(bits(full.shift(Direction::Down)), 0x00ff_ffff_ffff_ffff);
    assert_eq!(bits(full.shift(Direction::Right)), 0xfefe_fefe_fefe_fefe);
    assert_eq!(bits(full.shift(Direction::Left)), 0x7f7f_7f7f_7f7f_7f7f);
    assert_eq!(bits(full.shift(Direction::UpRight)), 0xfefe_fefe_fefe_fe00);
    assert_eq!(bits(full.shift(Direction::UpLeft)), 0x7f7f_7f7f_7f7f_7f00);
    assert_eq!(bits(full.shift(Direction::DownRight)), 0x00fe_fefe_fefe_fefe);
    assert_eq!(bits(full.shift(Direction::DownLeft)), 0x007f_7f7f_7f7f_7f7f);
}

#[test]
fn down_left_goes_down_and_left() {
    assert_eq!(bits(bb(1 << 9).shift(Direction::DownLeft)), 1);
    assert_eq!(bits(bb(1 << 63).shift(Direction::DownLeft)), 1 << 54);
    assert!(bb(1 << 8).shift(Direction::DownLeft).is_empty());
    assert!(bb(1 << 1).shift(Direction::DownLeft).is_empty());
}

#[test]
fn bitboard_shift_agrees_with_square_shift() {
    let directions = [
        Direction::Up,
        Direction::UpRight,
        Direction::Right,
        Direction::DownRight,
        Direction::Down,
        Direction::DownLeft,
        Direction::Left,
        Direction::UpLeft,
    ];
    for direction in directions {
        for sample in SAMPLES {
            let mut expected = Bitboard::new();
            for sqr in bb(sample).squares() {
                if let Some(moved) = sqr.shift(direction) {
                    expected.insert(moved);
                }
            }
            assert_eq!(bb(sample).shift(direction), expected);
        }
    }
}
