use magic_bitboards::boardstructs::Square;
use magic_bitboards::moves::{Move, MoveError, PseudolegalMove};

#[test]
fn move_ends() {
    let mv = Move {
        from: Square::new(12),
        to: Square::new(28),
        promotion: false,
        capture: true,
    };
    assert_eq!(mv.from(), Square::new(12));
    assert_eq!(mv.to(), Square::new(28));
    assert!(!mv.promotion);
    assert!(mv.capture);
}

#[test]
fn illegal_move_carries_the_move() {
    let mv = Move {
        from: Square::new(0),
        to: Square::new(63),
        promotion: true,
        capture: false,
    };
    let MoveError::IllegalMove(PseudolegalMove(carried)) =
        MoveError::IllegalMove(PseudolegalMove(mv));
    assert_eq!(carried, mv);
}
