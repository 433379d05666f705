//! Attack sets: the squares a piece on a given square attacks.
//!
//! The sliding pieces are answered twice: by walking the rays one step at a
//! time, which is slow and plainly right, and by the tables of
//! [`MoveBoards`], which are built from the slow answers once and then
//! looked up.

use crate::bitboard::Bitboard;
use crate::boardstructs::{
    lemma_square_at, lemma_step_offsets, on_board, square_at, step, Direction, Piece, Shiftable,
    Square,
};
use crate::moves::magic::{
    gen_bishop_magics, gen_rook_magics, relevant_mask, MagicError, SquareMagic,
};
use vstd::pervasive::unreached;
use vstd::prelude::*;

verus! {

/// True when a slider leaving `origin` in `direction` gets as far as
/// `distance` steps: the square there is on the board, and no square
/// nearer to the origin holds a blocker.
pub open spec fn ray_reaches(
    origin: int,
    direction: Direction,
    blockers: Set<int>,
    distance: int,
) -> bool {
    &&& 1 <= distance
    &&& square_at(origin, direction, distance) is Some
    &&& forall|nearer: int|
        1 <= nearer < distance ==> !blocked_at(origin, direction, blockers, nearer)
}

/// True when the square `distance` steps from `origin` holds a blocker.
pub open spec fn blocked_at(
    origin: int,
    direction: Direction,
    blockers: Set<int>,
    distance: int,
) -> bool {
    match square_at(origin, direction, distance) {
        Some(square) => blockers.contains(square),
        None => false,
    }
}

/// The squares attacked along one ray: every square from the origin's
/// neighbour up to and including the first blocker, or up to the edge of
/// the board where no blocker stands in the way.
pub open spec fn ray(origin: int, direction: Direction, blockers: Set<int>) -> Set<int> {
    Set::new(
        |target: int|
            exists|distance: int|
                #[trigger] ray_reaches(origin, direction, blockers, distance) && square_at(
                    origin,
                    direction,
                    distance,
                ) == Some(target),
    )
}

/// The squares a bishop on `origin` attacks, given the occupied squares
/// `blockers`.
pub open spec fn bishop_attacks(origin: int, blockers: Set<int>) -> Set<int> {
    ray(origin, Direction::UpRight, blockers) + ray(origin, Direction::DownRight, blockers) + ray(
        origin,
        Direction::DownLeft,
        blockers,
    ) + ray(origin, Direction::UpLeft, blockers)
}

/// The squares a rook on `origin` attacks, given the occupied squares
/// `blockers`.
pub open spec fn rook_attacks(origin: int, blockers: Set<int>) -> Set<int> {
    ray(origin, Direction::Up, blockers) + ray(origin, Direction::Right, blockers) + ray(
        origin,
        Direction::Down,
        blockers,
    ) + ray(origin, Direction::Left, blockers)
}

/// The squares of the ray that lie fewer than `limit` steps from the
/// origin, given that nothing blocks the way to them.
spec fn walked(origin: int, direction: Direction, limit: int) -> Set<int> {
    Set::new(
        |target: int|
            exists|distance: int|
                1 <= distance < limit && #[trigger] square_at(origin, direction, distance) == Some(
                    target,
                ),
    )
}

/// Walks one ray from `sqr`, collecting every square up to and including
/// the first blocker.
pub fn slide(sqr: Square, direction: Direction, blockers: Bitboard) -> (moves: Bitboard)
    ensures
        moves@ == ray(sqr@, direction, blockers@),
{
    proof {
        use_type_invariant(sqr);
        lemma_square_at(sqr@, direction, 0);
    }
    let mut moves = Bitboard::new();
    let mut destination = sqr.shift(direction);
    let ghost mut distance: int = 1;
    let mut stopped = false;
    proof {
        assert(moves@ =~= walked(sqr@, direction, 1));
    }
    while destination.is_some() && !stopped
        invariant
            0 <= sqr@ < 64,
            1 <= distance <= 8,
            match destination {
                Some(s) => square_at(sqr@, direction, distance) == Some(s@),
                None => square_at(sqr@, direction, distance) is None,
            },
            moves@ == walked(sqr@, direction, distance),
            stopped ==> distance >= 2 && blocked_at(sqr@, direction, blockers@, distance - 1),
            forall|nearer: int|
                1 <= nearer < distance - 1 ==> !blocked_at(sqr@, direction, blockers@, nearer),
            !stopped && distance >= 2 ==> !blocked_at(sqr@, direction, blockers@, distance - 1),
        decreases 8 - distance, if stopped { 0int } else { 1int },
    {
        let s = destination.unwrap();
        proof {
            use_type_invariant(s);
            lemma_square_at(sqr@, direction, distance);
        }
        moves.insert(s);
        proof {
            lemma_walked_grows(sqr@, direction, distance, s@);
        }
        if blockers.contains(s) {
            stopped = true;
        }
        destination = s.shift(direction);
        proof {
            distance = distance + 1;
        }
    }
    proof {
        lemma_walked_is_ray(sqr@, direction, blockers@, distance, stopped);
    }
    moves
}

/// One more step adds one more square to what has been walked.
proof fn lemma_walked_grows(origin: int, direction: Direction, distance: int, here: int)
    requires
        1 <= distance,
        square_at(origin, direction, distance) == Some(here),
    ensures
        walked(origin, direction, distance).insert(here) == walked(origin, direction, distance + 1),
{
    let before = walked(origin, direction, distance);
    let after = walked(origin, direction, distance + 1);
    assert forall|target: int| after.contains(target) implies before.insert(here).contains(
        target,
    ) by {
        let d = choose|d: int|
            1 <= d < distance + 1 && #[trigger] square_at(origin, direction, d) == Some(target);
        if d < distance {
            assert(before.contains(target));
        }
    }
    assert forall|target: int| before.insert(here).contains(target) implies after.contains(
        target,
    ) by {
        if target == here {
            assert(square_at(origin, direction, distance) == Some(target));
        } else {
            let d = choose|d: int|
                1 <= d < distance && #[trigger] square_at(origin, direction, d) == Some(target);
            assert(square_at(origin, direction, d) == Some(target));
        }
    }
    assert(before.insert(here) =~= after);
}

/// What has been walked when the walk ends is the whole ray: the walk
/// ends behind the first blocker, or where the board ends.
proof fn lemma_walked_is_ray(
    origin: int,
    direction: Direction,
    blockers: Set<int>,
    distance: int,
    stopped: bool,
)
    requires
        0 <= origin < 64,
        1 <= distance,
        stopped ==> distance >= 2 && blocked_at(origin, direction, blockers, distance - 1),
        !stopped ==> square_at(origin, direction, distance) is None,
        forall|nearer: int|
            1 <= nearer < distance - 1 ==> !blocked_at(origin, direction, blockers, nearer),
        !stopped && distance >= 2 ==> !blocked_at(origin, direction, blockers, distance - 1),
    ensures
        walked(origin, direction, distance) == ray(origin, direction, blockers),
{
    let seen = walked(origin, direction, distance);
    let whole = ray(origin, direction, blockers);
    assert forall|target: int| whole.contains(target) implies seen.contains(target) by {
        let d = choose|d: int|
            #[trigger] ray_reaches(origin, direction, blockers, d) && square_at(
                origin,
                direction,
                d,
            ) == Some(target);
        if d >= distance {
            if stopped {
                assert(blocked_at(origin, direction, blockers, distance - 1));
            } else {
                lemma_square_at(origin, direction, distance);
            }
        }
        assert(square_at(origin, direction, d) == Some(target));
    }
    assert forall|target: int| seen.contains(target) implies whole.contains(target) by {
        let d = choose|d: int|
            1 <= d < distance && #[trigger] square_at(origin, direction, d) == Some(target);
        assert forall|nearer: int| 1 <= nearer < d implies !blocked_at(
            origin,
            direction,
            blockers,
            nearer,
        ) by {}
        assert(ray_reaches(origin, direction, blockers, d));
    }
    assert(seen =~= whole);
}

/// The squares a bishop on `sqr` attacks, found by walking its four
/// diagonals. A blocker ends a ray and is itself attacked.
pub fn bishop_move_board_slow(sqr: Square, blockers: Bitboard) -> (moves: Bitboard)
    ensures
        moves@ == bishop_attacks(sqr@, blockers@),
{
    let mut moves = Bitboard::new();
    moves = moves.union(slide(sqr, Direction::UpRight, blockers));
    moves = moves.union(slide(sqr, Direction::DownRight, blockers));
    moves = moves.union(slide(sqr, Direction::DownLeft, blockers));
    moves = moves.union(slide(sqr, Direction::UpLeft, blockers));
    proof {
        assert(moves@ =~= bishop_attacks(sqr@, blockers@));
    }
    moves
}

/// The squares a rook on `sqr` attacks, found by walking its rank and
/// file in both directions. A blocker ends a ray and is itself attacked.
pub fn rook_move_board_slow(sqr: Square, blockers: Bitboard) -> (moves: Bitboard)
    ensures
        moves@ == rook_attacks(sqr@, blockers@),
{
    let mut moves = Bitboard::new();
    moves = moves.union(slide(sqr, Direction::Up, blockers));
    moves = moves.union(slide(sqr, Direction::Right, blockers));
    moves = moves.union(slide(sqr, Direction::Down, blockers));
    moves = moves.union(slide(sqr, Direction::Left, blockers));
    proof {
        assert(moves@ =~= rook_attacks(sqr@, blockers@));
    }
    moves
}

/// A square on a ray lies on the board, some steps from the origin in the
/// ray's direction.
pub proof fn lemma_ray_squares(origin: int, direction: Direction, blockers: Set<int>, target: int)
    requires
        0 <= origin < 64,
        ray(origin, direction, blockers).contains(target),
    ensures
        0 <= target < 64,
        exists|distance: int|
            1 <= distance <= 7 && target / 8 == origin / 8 + #[trigger] direction.rank_offset(
                distance,
            ) && target % 8 == origin % 8 + direction.file_offset(distance),
{
    let distance = choose|distance: int|
        #[trigger] ray_reaches(origin, direction, blockers, distance) && square_at(
            origin,
            direction,
            distance,
        ) == Some(target);
    lemma_square_at(origin, direction, distance);
    reveal(square_at);
    assert(target / 8 == origin / 8 + direction.rank_offset(distance));
}

/// The two kinds of ray that sliding pieces move along. A queen moves
/// along both.
#[derive(PartialEq, Eq, Structural, Debug, Clone, Copy)]
pub enum Slider {
    /// The four diagonals.
    Bishop,
    /// The rank and the file.
    Rook,
}

/// The squares a slider of the given kind on `origin` attacks, given the
/// occupied squares `blockers`.
pub open spec fn slider_attacks(slider: Slider, origin: int, blockers: Set<int>) -> Set<int> {
    match slider {
        Slider::Bishop => bishop_attacks(origin, blockers),
        Slider::Rook => rook_attacks(origin, blockers),
    }
}

/// The squares a slider of the given kind on `sqr` attacks, found by
/// walking its rays.
pub fn slider_move_board_slow(slider: Slider, sqr: Square, blockers: Bitboard) -> (moves: Bitboard)
    ensures
        moves@ == slider_attacks(slider, sqr@, blockers@),
{
    match slider {
        Slider::Bishop => bishop_move_board_slow(sqr, blockers),
        Slider::Rook => rook_move_board_slow(sqr, blockers),
    }
}

/// The squares next to `origin`: what a king on `origin` attacks.
pub open spec fn king_attacks(origin: int) -> Set<int> {
    Set::new(
        |target: int|
            {
                let up = target / 8 - origin / 8;
                let right = target % 8 - origin % 8;
                &&& 0 <= target < 64
                &&& target != origin
                &&& -1 <= up <= 1
                &&& -1 <= right <= 1
            },
    )
}

/// The squares a knight's jump from `origin`: two steps along a rank or
/// file and one step to the side.
pub open spec fn knight_attacks(origin: int) -> Set<int> {
    Set::new(
        |target: int|
            {
                let up = target / 8 - origin / 8;
                let right = target % 8 - origin % 8;
                &&& 0 <= target < 64
                &&& {
                    ||| (up == 2 || up == -2) && (right == 1 || right == -1)
                    ||| (up == 1 || up == -1) && (right == 2 || right == -2)
                }
            },
    )
}

/// Where three steps in a row lead, if none of them leaves the board.
pub open spec fn follow(origin: int, first: Direction, second: Direction, third: Direction) -> Option<
    int,
> {
    match step(origin, first) {
        Some(one) => match step(one, second) {
            Some(two) => step(two, third),
            None => None,
        },
        None => None,
    }
}

/// Adds the neighbour of `sqr` in `direction` to `board`, if there is one.
fn insert_step(board: &mut Bitboard, sqr: Square, direction: Direction)
    ensures
        final(board)@ == match step(sqr@, direction) {
            Some(target) => old(board)@.insert(target),
            None => old(board)@,
        },
{
    if let Some(s) = sqr.shift(direction) {
        board.insert(s);
    }
}

/// Adds the square three steps from `sqr` to `board`, unless one of the
/// steps leaves the board.
fn insert_path(
    board: &mut Bitboard,
    sqr: Square,
    first: Direction,
    second: Direction,
    third: Direction,
)
    ensures
        final(board)@ == match follow(sqr@, first, second, third) {
            Some(target) => old(board)@.insert(target),
            None => old(board)@,
        },
{
    let mut destination = sqr.shift(first);
    if let Some(s) = destination {
        destination = s.shift(second);
    }
    if let Some(s) = destination {
        destination = s.shift(third);
    }
    if let Some(s) = destination {
        board.insert(s);
    }
}

/// The square `up` ranks above and `right` files to the right of
/// `origin`, if it is on the board.
pub open spec fn jump(origin: int, up: int, right: int) -> Option<int> {
    if on_board(origin / 8 + up, origin % 8 + right) {
        Some((origin / 8 + up) * 8 + origin % 8 + right)
    } else {
        None
    }
}

/// A step changes the rank and the file by the direction's amounts, and
/// fails exactly when that leaves the board.
proof fn lemma_step_coordinates(origin: int, direction: Direction)
    requires
        0 <= origin < 64,
    ensures
        step(origin, direction) == jump(origin, direction.rank_step(), direction.file_step()),
        match step(origin, direction) {
            Some(target) => {
                &&& 0 <= target < 64
                &&& target / 8 == origin / 8 + direction.rank_step()
                &&& target % 8 == origin % 8 + direction.file_step()
            },
            None => true,
        },
{
}

/// Two steps along a line and one step to the side end where the jump as
/// a whole ends, and leave the board on the way only if the jump does.
proof fn lemma_knight_path(origin: int, along: Direction, aside: Direction)
    requires
        0 <= origin < 64,
        along.rank_step() == 0 || along.file_step() == 0,
        along.rank_step() == 0 ==> aside.file_step() == 0,
        along.file_step() == 0 ==> aside.rank_step() == 0,
    ensures
        follow(origin, along, along, aside) == jump(
            origin,
            2 * along.rank_step() + aside.rank_step(),
            2 * along.file_step() + aside.file_step(),
        ),
{
    lemma_step_coordinates(origin, along);
    if let Some(one) = step(origin, along) {
        lemma_step_coordinates(one, along);
        if let Some(two) = step(one, along) {
            lemma_step_coordinates(two, aside);
        }
    }
}

/// The eight jumps of the knight's paths, where they stay on the board,
/// are the squares a knight's jump away.
proof fn lemma_jumps_are_knight_attacks(origin: int, board: Set<int>)
    requires
        0 <= origin < 64,
        board == add_jump(
            add_jump(
                add_jump(
                    add_jump(
                        add_jump(
                            add_jump(
                                add_jump(
                                    add_jump(Set::<int>::empty(), jump(origin, 2, 1)),
                                    jump(origin, 1, 2),
                                ),
                                jump(origin, -1, 2),
                            ),
                            jump(origin, -2, 1),
                        ),
                        jump(origin, -2, -1),
                    ),
                    jump(origin, -1, -2),
                ),
                jump(origin, 1, -2),
            ),
            jump(origin, 2, -1),
        ),
    ensures
        board == knight_attacks(origin),
{
    assert(board =~= knight_attacks(origin));
}

/// `board` with the target of a jump added, where the jump has one.
spec fn add_jump(board: Set<int>, target: Option<int>) -> Set<int> {
    match target {
        Some(square) => board.insert(square),
        None => board,
    }
}

/// The attack tables of all pieces but the pawns, for every square.
///
/// Built once by [`MoveBoards::new`] and read-only from then on: a value
/// may be shared freely between readers.
pub struct MoveBoards {
    /// The king's attack set for each square.
    king_moves: [Bitboard; 64],
    /// The knight's attack set for each square.
    knight_moves: [Bitboard; 64],
    /// The bishop's lookup table for each square.
    bishop_magics: [SquareMagic; 64],
    /// The rook's lookup table for each square.
    rook_magics: [SquareMagic; 64],
}

/// True for the pieces that [`MoveBoards::move_board`] answers for: all
/// but the pawns and the empty square.
pub open spec fn has_move_board(piece: Piece) -> bool {
    match piece {
        Piece::Empty | Piece::WhitePawn | Piece::BlackPawn => false,
        _ => true,
    }
}

/// The squares that `piece` on `origin` attacks, as the tables give them.
///
/// For a slider only the blockers inside its relevant mask are taken into
/// account: a blocker on the outer ring of the board, or off the
/// slider's rays, changes nothing.
pub open spec fn attack_set(piece: Piece, origin: int, blockers: Set<int>) -> Set<int> {
    match piece {
        Piece::WhiteKing | Piece::BlackKing => king_attacks(origin),
        Piece::WhiteKnight | Piece::BlackKnight => knight_attacks(origin),
        Piece::WhiteBishop | Piece::BlackBishop => table_attacks(Slider::Bishop, origin, blockers),
        Piece::WhiteRook | Piece::BlackRook => table_attacks(Slider::Rook, origin, blockers),
        Piece::WhiteQueen | Piece::BlackQueen => table_attacks(Slider::Bishop, origin, blockers)
            + table_attacks(Slider::Rook, origin, blockers),
        Piece::Empty | Piece::WhitePawn | Piece::BlackPawn => Set::empty(),
    }
}

/// The squares a slider on `origin` attacks when only the blockers inside
/// its relevant mask are taken into account.
pub open spec fn table_attacks(slider: Slider, origin: int, blockers: Set<int>) -> Set<int> {
    slider_attacks(slider, origin, blockers * relevant_mask(slider, origin))
}

/// For blockers that all lie inside the relevant mask, the tables give
/// exactly what walking the rays gives.
pub proof fn lemma_table_attacks_are_ray_cast(slider: Slider, origin: int, blockers: Set<int>)
    requires
        blockers.subset_of(relevant_mask(slider, origin)),
    ensures
        table_attacks(slider, origin, blockers) == slider_attacks(slider, origin, blockers),
{
    assert(blockers * relevant_mask(slider, origin) =~= blockers);
}

/// Blockers outside the relevant mask never change what the tables give.
pub proof fn lemma_table_attacks_read_mask(
    slider: Slider,
    origin: int,
    first: Set<int>,
    second: Set<int>,
)
    requires
        first * relevant_mask(slider, origin) == second * relevant_mask(slider, origin),
    ensures
        table_attacks(slider, origin, first) == table_attacks(slider, origin, second),
{
}

impl MoveBoards {
    /// Every table holds, for every square, what its piece attacks from
    /// there.
    #[verifier::type_invariant]
    pub closed spec fn wf(self) -> bool {
        &&& forall|origin: int|
            0 <= origin < 64 ==> (#[trigger] self.king_moves[origin])@ == king_attacks(origin)
        &&& forall|origin: int|
            0 <= origin < 64 ==> (#[trigger] self.knight_moves[origin])@ == knight_attacks(origin)
        &&& forall|origin: int|
            0 <= origin < 64 ==> (#[trigger] self.bishop_magics[origin]).serves(
                Slider::Bishop,
                origin,
            )
        &&& forall|origin: int|
            0 <= origin < 64 ==> (#[trigger] self.rook_magics[origin]).serves(Slider::Rook, origin)
    }

    /// The king's attack set for every square.
    pub fn gen_king_moves() -> (boards: [Bitboard; 64])
        ensures
            forall|origin: int| 0 <= origin < 64 ==> boards[origin]@ == king_attacks(origin),
    {
        let mut boards = [Bitboard::new();64];
        let mut sqr_idx: u8 = 0;
        while sqr_idx < 64
            invariant
                sqr_idx <= 64,
                forall|origin: int| 0 <= origin < sqr_idx ==> boards[origin]@ == king_attacks(origin),
            decreases 64 - sqr_idx,
        {
            let sqr = Square::new(sqr_idx);
            let mut board = Bitboard::new();
            insert_step(&mut board, sqr, Direction::Up);
            insert_step(&mut board, sqr, Direction::UpLeft);
            insert_step(&mut board, sqr, Direction::Left);
            insert_step(&mut board, sqr, Direction::DownLeft);
            insert_step(&mut board, sqr, Direction::Down);
            insert_step(&mut board, sqr, Direction::DownRight);
            insert_step(&mut board, sqr, Direction::Right);
            insert_step(&mut board, sqr, Direction::UpRight);
            proof {
                lemma_step_offsets(sqr@);
                assert(board@ =~= king_attacks(sqr@));
            }
            boards[sqr_idx as usize] = board;
            sqr_idx = sqr_idx + 1;
        }
        boards
    }

    /// The knight's attack set for every square.
    pub fn gen_knight_moves() -> (boards: [Bitboard; 64])
        ensures
            forall|origin: int| 0 <= origin < 64 ==> boards[origin]@ == knight_attacks(origin),
    {
        let mut boards = [Bitboard::new();64];
        let mut sqr_idx: u8 = 0;
        while sqr_idx < 64
            invariant
                sqr_idx <= 64,
                forall|origin: int|
                    0 <= origin < sqr_idx ==> boards[origin]@ == knight_attacks(origin),
            decreases 64 - sqr_idx,
        {
            let sqr = Square::new(sqr_idx);
            let mut board = Bitboard::new();
            insert_path(&mut board, sqr, Direction::Up, Direction::Up, Direction::Right);
            insert_path(&mut board, sqr, Direction::Right, Direction::Right, Direction::Up);
            insert_path(&mut board, sqr, Direction::Right, Direction::Right, Direction::Down);
            insert_path(&mut board, sqr, Direction::Down, Direction::Down, Direction::Right);
            insert_path(&mut board, sqr, Direction::Down, Direction::Down, Direction::Left);
            insert_path(&mut board, sqr, Direction::Left, Direction::Left, Direction::Down);
            insert_path(&mut board, sqr, Direction::Left, Direction::Left, Direction::Up);
            insert_path(&mut board, sqr, Direction::Up, Direction::Up, Direction::Left);
            proof {
                lemma_knight_path(sqr@, Direction::Up, Direction::Right);
                lemma_knight_path(sqr@, Direction::Right, Direction::Up);
                lemma_knight_path(sqr@, Direction::Right, Direction::Down);
                lemma_knight_path(sqr@, Direction::Down, Direction::Right);
                lemma_knight_path(sqr@, Direction::Down, Direction::Left);
                lemma_knight_path(sqr@, Direction::Left, Direction::Down);
                lemma_knight_path(sqr@, Direction::Left, Direction::Up);
                lemma_knight_path(sqr@, Direction::Up, Direction::Left);
                lemma_jumps_are_knight_attacks(sqr@, board@);
            }
            boards[sqr_idx as usize] = board;
            sqr_idx = sqr_idx + 1;
        }
        boards
    }

    /// Builds all the tables. This takes a while, and one value serves a
    /// whole program.
    ///
    /// The magics are found by a random search; the error tells that the
    /// search for one of them ran out of attempts.
    pub fn new() -> (result: Result<MoveBoards, MagicError>)
        ensures
            match result {
                Ok(boards) => boards.wf(),
                Err(error) => error == MagicError::Exhausted,
            },
    {
        let king_moves = MoveBoards::gen_king_moves();
        let knight_moves = MoveBoards::gen_knight_moves();
        let bishop_magics = match gen_bishop_magics() {
            Ok(magics) => magics,
            Err(error) => {
                return Err(error);
            },
        };
        let rook_magics = match gen_rook_magics() {
            Ok(magics) => magics,
            Err(error) => {
                return Err(error);
            },
        };
        Ok(MoveBoards { king_moves, knight_moves, bishop_magics, rook_magics })
    }

    /// The squares that `piece` on `sqr` attacks, given the occupied
    /// squares `blockers`. The king and the knight do not look at the
    /// blockers.
    ///
    /// Pawns and the empty square have no table: a caller must not ask
    /// for them.
    pub fn move_board(&self, sqr: Square, piece: Piece, blockers: Bitboard) -> (moves: Bitboard)
        requires
            has_move_board(piece),
        ensures
            moves@ == attack_set(piece, sqr@, blockers@),
    {
        proof {
            use_type_invariant(self);
            use_type_invariant(sqr);
        }
        let index = u8::from(sqr) as usize;
        match piece {
            Piece::Empty => unreached(),
            Piece::WhitePawn | Piece::BlackPawn => unreached(),
            Piece::WhiteKing | Piece::BlackKing => self.king_moves[index],
            Piece::WhiteKnight | Piece::BlackKnight => self.knight_moves[index],
            Piece::WhiteBishop | Piece::BlackBishop => self.bishop_magics[index].lookup(blockers),
            Piece::WhiteRook | Piece::BlackRook => self.rook_magics[index].lookup(blockers),
            Piece::WhiteQueen | Piece::BlackQueen => self.bishop_magics[index].lookup(blockers)
                | self.rook_magics[index].lookup(blockers),
        }
    }
}

} // verus!
