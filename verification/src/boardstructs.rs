//! Coordinates of the board: ranks, files, squares and the eight directions.
//!
//! A square is numbered `rank * 8 + file`, so square 0 is a1, square 7 is h1
//! and square 63 is h8. Every coordinate type keeps its index in range as a
//! type invariant; in contracts each is viewed as that index.

use vstd::pervasive::unreached;
use vstd::prelude::*;
use vstd::std_specs::convert::FromSpecImpl;
use vstd::string::StrSliceExecFns;

verus! {

/// A row of the board, counted from 0 (White's back rank) to 7.
#[derive(PartialEq, Eq, Structural, Debug, Clone, Copy)]
pub struct Rank(u8);

impl View for Rank {
    type V = int;

    closed spec fn view(&self) -> int {
        self.0 as int
    }
}

impl Rank {
    /// A rank is valid when its index lies in `0..8`.
    #[verifier::type_invariant]
    pub open spec fn wf(self) -> bool {
        0 <= self@ < 8
    }

    /// The rank with index `value`.
    ///
    /// An index out of range is a mistake of the caller. A caller that
    /// Verus has checked never makes it; any other is stopped here.
    pub fn new(value: u8) -> (rank: Rank)
        requires
            value < 8,
        ensures
            rank@ == value,
    {
        if value >= 8 {
            unreached()
        } else {
            Rank(value)
        }
    }
}

impl From<Rank> for u8 {
    fn from(rank: Rank) -> (value: u8) {
        rank.0
    }
}

impl FromSpecImpl<Rank> for u8 {
    open spec fn obeys_from_spec() -> bool {
        true
    }

    open spec fn from_spec(rank: Rank) -> u8 {
        rank@ as u8
    }
}

/// A column of the board, counted from 0 (the a-file) to 7.
#[derive(PartialEq, Eq, Structural, Debug, Clone, Copy)]
pub struct File(u8);

impl View for File {
    type V = int;

    closed spec fn view(&self) -> int {
        self.0 as int
    }
}

impl File {
    /// A file is valid when its index lies in `0..8`.
    #[verifier::type_invariant]
    pub open spec fn wf(self) -> bool {
        0 <= self@ < 8
    }

    /// The file with index `value`.
    ///
    /// An index out of range is a mistake of the caller. A caller that
    /// Verus has checked never makes it; any other is stopped here.
    pub fn new(value: u8) -> (file: File)
        requires
            value < 8,
        ensures
            file@ == value,
    {
        if value >= 8 {
            unreached()
        } else {
            File(value)
        }
    }
}

impl From<File> for u8 {
    fn from(file: File) -> (value: u8) {
        file.0
    }
}

impl FromSpecImpl<File> for u8 {
    open spec fn obeys_from_spec() -> bool {
        true
    }

    open spec fn from_spec(file: File) -> u8 {
        file@ as u8
    }
}

/// One of the 64 squares.
#[derive(PartialEq, Eq, Structural, Debug, Clone, Copy)]
pub struct Square(u8);

impl View for Square {
    type V = int;

    closed spec fn view(&self) -> int {
        self.0 as int
    }
}

/// Why a string was not accepted as a square.
#[derive(Debug)]
pub enum SquareError {
    /// The string is not a file letter followed by a rank digit; it is
    /// carried along unchanged.
    InvalidString(String),
}

/// True when `text` is a file letter `a`..`h` followed by a rank digit
/// `1`..`8`, and nothing else.
pub open spec fn is_algebraic(text: Seq<char>) -> bool {
    &&& text.len() == 2
    &&& 'a' <= text[0] <= 'h'
    &&& '1' <= text[1] <= '8'
}

/// The index of the square that algebraic `text` names.
pub open spec fn algebraic_index(text: Seq<char>) -> int {
    (text[1] as int - '1' as int) * 8 + (text[0] as int - 'a' as int)
}

impl From<Square> for u8 {
    fn from(sqr: Square) -> (value: u8) {
        sqr.0
    }
}

impl FromSpecImpl<Square> for u8 {
    open spec fn obeys_from_spec() -> bool {
        true
    }

    open spec fn from_spec(sqr: Square) -> u8 {
        sqr@ as u8
    }
}

impl Square {
    /// A square is valid when its index lies in `0..64`.
    #[verifier::type_invariant]
    pub open spec fn wf(self) -> bool {
        0 <= self@ < 64
    }

    /// The square with index `value`.
    ///
    /// An index out of range is a mistake of the caller. A caller that
    /// Verus has checked never makes it; any other is stopped here.
    pub fn new(value: u8) -> (sqr: Square)
        requires
            value <= 63,
        ensures
            sqr@ == value,
    {
        if value > 63 {
            unreached()
        } else {
            Square(value)
        }
    }

    /// The square where `rank` and `file` cross.
    pub fn from_coords(rank: Rank, file: File) -> (sqr: Square)
        ensures
            sqr@ == rank@ * 8 + file@,
    {
        proof {
            use_type_invariant(rank);
            use_type_invariant(file);
        }
        Square(rank.0 * 8 + file.0)
    }

    /// Reads a square in algebraic notation, such as `e4`.
    ///
    /// Any other string is handed back inside the error.
    pub fn try_from_str(s: &str) -> (result: Result<Square, SquareError>)
        ensures
            match result {
                Ok(sqr) => is_algebraic(s@) && sqr@ == algebraic_index(s@),
                Err(SquareError::InvalidString(text)) => !is_algebraic(s@) && text@ == s@,
            },
    {
        if s.unicode_len() == 2 {
            let filechar = s.get_char(0);
            let rankchar = s.get_char(1);
            if 'a' <= filechar && filechar <= 'h' && '1' <= rankchar && rankchar <= '8' {
                let rank = Rank(rankchar as u8 - 49);
                let file = File(filechar as u8 - 97);
                return Ok(Square::from_coords(rank, file));
            }
        }
        Err(SquareError::InvalidString(s.to_owned()))
    }

    /// The rank this square lies on.
    pub fn rank(self) -> (rank: Rank)
        ensures
            rank@ == self@ / 8,
    {
        proof {
            use_type_invariant(self);
        }
        Rank(self.0 / 8)
    }

    /// The file this square lies on.
    pub fn file(self) -> (file: File)
        ensures
            file@ == self@ % 8,
    {
        File(self.0 % 8)
    }
}

/// The eight compass directions, as seen from White's side of the board.
#[derive(PartialEq, Eq, Structural, Debug, Clone, Copy)]
pub enum Direction {
    Up,
    UpRight,
    Right,
    DownRight,
    Down,
    DownLeft,
    Left,
    UpLeft,
}

impl Direction {
    /// How far one step in this direction moves along the ranks.
    pub open spec fn rank_step(self) -> int {
        match self {
            Direction::Up | Direction::UpRight | Direction::UpLeft => 1,
            Direction::Down | Direction::DownRight | Direction::DownLeft => -1,
            Direction::Right | Direction::Left => 0,
        }
    }

    /// How far `distance` steps in this direction move along the ranks.
    pub open spec fn rank_offset(self, distance: int) -> int {
        match self {
            Direction::Up | Direction::UpRight | Direction::UpLeft => distance,
            Direction::Down | Direction::DownRight | Direction::DownLeft => -distance,
            Direction::Right | Direction::Left => 0,
        }
    }

    /// How far `distance` steps in this direction move along the files.
    pub open spec fn file_offset(self, distance: int) -> int {
        match self {
            Direction::Right | Direction::UpRight | Direction::DownRight => distance,
            Direction::Left | Direction::UpLeft | Direction::DownLeft => -distance,
            Direction::Up | Direction::Down => 0,
        }
    }

    /// How far one step in this direction moves along the files.
    pub open spec fn file_step(self) -> int {
        match self {
            Direction::Right | Direction::UpRight | Direction::DownRight => 1,
            Direction::Left | Direction::UpLeft | Direction::DownLeft => -1,
            Direction::Up | Direction::Down => 0,
        }
    }
}

/// True when `rank` and `file` name a square of the board.
pub open spec fn on_board(rank: int, file: int) -> bool {
    0 <= rank < 8 && 0 <= file < 8
}

/// The square one step from `index` in `direction`, if that step stays on
/// the board.
pub open spec fn step(index: int, direction: Direction) -> Option<int> {
    let rank = index / 8 + direction.rank_step();
    let file = index % 8 + direction.file_step();
    if on_board(rank, file) {
        Some(rank * 8 + file)
    } else {
        None
    }
}

/// The square `distance` steps from `index` in `direction`, if that square
/// is on the board.
#[verifier::opaque]
pub open spec fn square_at(index: int, direction: Direction, distance: int) -> Option<int> {
    let rank = index / 8 + direction.rank_offset(distance);
    let file = index % 8 + direction.file_offset(distance);
    if on_board(rank, file) {
        Some(rank * 8 + file)
    } else {
        None
    }
}

/// A walk along a direction goes one step at a time, stays on the board
/// until it leaves it for good, and leaves it within eight steps.
pub proof fn lemma_square_at(origin: int, direction: Direction, distance: int)
    requires
        0 <= origin < 64,
        0 <= distance,
    ensures
        square_at(origin, direction, 0) == Some(origin),
        square_at(origin, direction, 1) == step(origin, direction),
        match square_at(origin, direction, distance) {
            Some(here) => {
                &&& 0 <= here < 64
                &&& distance <= 7
                &&& step(here, direction) == square_at(origin, direction, distance + 1)
                &&& forall|nearer: int|
                    0 <= nearer <= distance ==> (#[trigger] square_at(origin, direction, nearer))
                        is Some
            },
            None => forall|farther: int|
                distance <= farther ==> (#[trigger] square_at(origin, direction, farther)) is None,
        },
{
    reveal(square_at);
}

/// One step in terms of square indices: where it leads, and when it
/// leaves the board.
pub proof fn lemma_step_offsets(origin: int)
    requires
        0 <= origin < 64,
    ensures
        step(origin, Direction::Up) == if origin / 8 < 7 {
            Some(origin + 8)
        } else {
            None
        },
        step(origin, Direction::Down) == if origin / 8 > 0 {
            Some(origin - 8)
        } else {
            None
        },
        step(origin, Direction::Right) == if origin % 8 < 7 {
            Some(origin + 1)
        } else {
            None
        },
        step(origin, Direction::Left) == if origin % 8 > 0 {
            Some(origin - 1)
        } else {
            None
        },
        step(origin, Direction::UpRight) == if origin / 8 < 7 && origin % 8 < 7 {
            Some(origin + 9)
        } else {
            None
        },
        step(origin, Direction::UpLeft) == if origin / 8 < 7 && origin % 8 > 0 {
            Some(origin + 7)
        } else {
            None
        },
        step(origin, Direction::DownRight) == if origin / 8 > 0 && origin % 8 < 7 {
            Some(origin - 7)
        } else {
            None
        },
        step(origin, Direction::DownLeft) == if origin / 8 > 0 && origin % 8 > 0 {
            Some(origin - 9)
        } else {
            None
        },
        forall|direction: Direction, target: int|
            step(origin, direction) == Some(target) ==> 0 <= target < 64,
{
}

/// Values that can be moved one step in a direction.
pub trait Shiftable {
    /// What a shift yields.
    type ShiftType;

    /// Moves `self` one step in `direction`.
    fn shift(&self, direction: Direction) -> Self::ShiftType;
}

impl Shiftable for Rank {
    type ShiftType = Option<Rank>;

    /// The neighbouring rank in `direction`, or `None` past the edge. Steps
    /// to the left or right stay on the same rank.
    fn shift(&self, direction: Direction) -> (shifted: Option<Rank>)
        ensures
            match shifted {
                Some(rank) => on_board(rank@, 0) && rank@ == self@ + direction.rank_step(),
                None => !on_board(self@ + direction.rank_step(), 0),
            },
    {
        proof {
            use_type_invariant(self);
        }
        let r = self.0;
        match direction {
            Direction::Up | Direction::UpRight | Direction::UpLeft => {
                if r < 7 {
                    Some(Rank(r + 1))
                } else {
                    None
                }
            },
            Direction::Down | Direction::DownRight | Direction::DownLeft => {
                if r > 0 {
                    Some(Rank(r - 1))
                } else {
                    None
                }
            },
            Direction::Right | Direction::Left => Some(*self),
        }
    }
}

impl Shiftable for File {
    type ShiftType = Option<File>;

    /// The neighbouring file in `direction`, or `None` past the edge. Steps
    /// up or down stay on the same file.
    fn shift(&self, direction: Direction) -> (shifted: Option<File>)
        ensures
            match shifted {
                Some(file) => on_board(0, file@) && file@ == self@ + direction.file_step(),
                None => !on_board(0, self@ + direction.file_step()),
            },
    {
        proof {
            use_type_invariant(self);
        }
        let f = self.0;
        match direction {
            Direction::Right | Direction::UpRight | Direction::DownRight => {
                if f < 7 {
                    Some(File(f + 1))
                } else {
                    None
                }
            },
            Direction::Left | Direction::UpLeft | Direction::DownLeft => {
                if f > 0 {
                    Some(File(f - 1))
                } else {
                    None
                }
            },
            Direction::Up | Direction::Down => Some(*self),
        }
    }
}

impl Shiftable for Square {
    type ShiftType = Option<Square>;

    /// The neighbouring square in `direction`, or `None` where the step
    /// would leave the board.
    fn shift(&self, direction: Direction) -> (shifted: Option<Square>)
        ensures
            match shifted {
                Some(sqr) => step(self@, direction) == Some(sqr@),
                None => step(self@, direction) is None,
            },
    {
        proof {
            use_type_invariant(self);
        }
        match (self.rank().shift(direction), self.file().shift(direction)) {
            (Some(rank), Some(file)) => {
                proof {
                    use_type_invariant(rank);
                    use_type_invariant(file);
                }
                Some(Square::from_coords(rank, file))
            },
            _ => None,
        }
    }
}

/// What stands on a square: one of the twelve pieces, or nothing.
#[derive(PartialEq, Eq, Structural, Debug, Clone, Copy)]
pub enum Piece {
    WhitePawn,
    WhiteKnight,
    WhiteBishop,
    WhiteRook,
    WhiteQueen,
    WhiteKing,
    BlackPawn,
    BlackKnight,
    BlackBishop,
    BlackRook,
    BlackQueen,
    BlackKing,
    /// No piece at all.
    Empty,
}

} // verus!
