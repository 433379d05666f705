//! A position: which piece stands on which square, and who is to move.

use crate::bitboard::Bitboard;
use crate::words::{all_squares, lemma_word_where, word_where};
use crate::boardstructs::{Piece, Square};
use crate::moves::Move;
use vstd::prelude::*;
use vstd::std_specs::convert::FromSpecImpl;

verus! {

/// The two sides.
#[derive(PartialEq, Eq, Structural, Debug, Clone, Copy)]
pub enum Player {
    White,
    Black,
}

/// The piece on each of the 64 squares, in the order of the squares.
pub type PieceBoard = [Piece; 64];

/// True for the six white pieces.
pub open spec fn is_white(piece: Piece) -> bool {
    match piece {
        Piece::WhitePawn
        | Piece::WhiteKnight
        | Piece::WhiteBishop
        | Piece::WhiteRook
        | Piece::WhiteQueen
        | Piece::WhiteKing => true,
        _ => false,
    }
}

/// True for the six black pieces.
pub open spec fn is_black(piece: Piece) -> bool {
    piece != Piece::Empty && !is_white(piece)
}

/// The six kinds of piece.
#[derive(PartialEq, Eq, Structural, Debug, Clone, Copy)]
pub enum Kind {
    Pawn,
    Knight,
    Bishop,
    Rook,
    Queen,
    King,
}

/// The kind of a piece, if it is one.
pub open spec fn kind_of(piece: Piece) -> Option<Kind> {
    match piece {
        Piece::WhitePawn | Piece::BlackPawn => Some(Kind::Pawn),
        Piece::WhiteKnight | Piece::BlackKnight => Some(Kind::Knight),
        Piece::WhiteBishop | Piece::BlackBishop => Some(Kind::Bishop),
        Piece::WhiteRook | Piece::BlackRook => Some(Kind::Rook),
        Piece::WhiteQueen | Piece::BlackQueen => Some(Kind::Queen),
        Piece::WhiteKing | Piece::BlackKing => Some(Kind::King),
        Piece::Empty => None,
    }
}

/// A placement of pieces as eight sets of squares: one for each colour
/// and one for each kind of piece.
pub struct Bitboards {
    white: Bitboard,
    black: Bitboard,
    pawns: Bitboard,
    knights: Bitboard,
    bishops: Bitboard,
    rooks: Bitboard,
    queens: Bitboard,
    kings: Bitboard,
}

impl Bitboards {
    /// The squares that hold a piece of the given colour.
    pub closed spec fn colour(self, player: Player) -> Bitboard {
        match player {
            Player::White => self.white,
            Player::Black => self.black,
        }
    }

    /// The squares that hold a piece of the given kind.
    pub closed spec fn kind(self, kind: Kind) -> Bitboard {
        match kind {
            Kind::Pawn => self.pawns,
            Kind::Knight => self.knights,
            Kind::Bishop => self.bishops,
            Kind::Rook => self.rooks,
            Kind::Queen => self.queens,
            Kind::King => self.kings,
        }
    }

    /// The squares on which `piece` stands: those of its colour and of
    /// its kind. For the empty piece, the squares of neither colour.
    pub open spec fn occupancy(self, piece: Piece) -> Set<int> {
        match kind_of(piece) {
            Some(kind) => self.colour(
                if is_white(piece) {
                    Player::White
                } else {
                    Player::Black
                },
            )@ * self.kind(kind)@,
            None => all_squares() - (self.colour(Player::White)@ + self.colour(
                Player::Black,
            )@),
        }
    }

    /// The squares on which `piece` stands.
    pub fn piece_bb(&self, piece: Piece) -> (squares: Bitboard)
        ensures
            squares@ == self.occupancy(piece),
    {
        match piece {
            Piece::WhitePawn => self.white & self.pawns,
            Piece::WhiteKnight => self.white & self.knights,
            Piece::WhiteBishop => self.white & self.bishops,
            Piece::WhiteRook => self.white & self.rooks,
            Piece::WhiteQueen => self.white & self.queens,
            Piece::WhiteKing => self.white & self.kings,
            Piece::BlackPawn => self.black & self.pawns,
            Piece::BlackKnight => self.black & self.knights,
            Piece::BlackBishop => self.black & self.bishops,
            Piece::BlackRook => self.black & self.rooks,
            Piece::BlackQueen => self.black & self.queens,
            Piece::BlackKing => self.black & self.kings,
            Piece::Empty => (self.white | self.black).invert(),
        }
    }

    /// The placement that `pieces` describes.
    pub closed spec fn of_board(pieces: Seq<Piece>) -> Bitboards {
        Bitboards {
            white: Bitboard::of_bits(word_where(|i: int| is_white(pieces[i]), 64)),
            black: Bitboard::of_bits(word_where(|i: int| is_black(pieces[i]), 64)),
            pawns: Bitboard::of_bits(
                word_where(|i: int| kind_of(pieces[i]) == Some(Kind::Pawn), 64),
            ),
            knights: Bitboard::of_bits(
                word_where(|i: int| kind_of(pieces[i]) == Some(Kind::Knight), 64),
            ),
            bishops: Bitboard::of_bits(
                word_where(|i: int| kind_of(pieces[i]) == Some(Kind::Bishop), 64),
            ),
            rooks: Bitboard::of_bits(
                word_where(|i: int| kind_of(pieces[i]) == Some(Kind::Rook), 64),
            ),
            queens: Bitboard::of_bits(
                word_where(|i: int| kind_of(pieces[i]) == Some(Kind::Queen), 64),
            ),
            kings: Bitboard::of_bits(
                word_where(|i: int| kind_of(pieces[i]) == Some(Kind::King), 64),
            ),
        }
    }

    /// In the placement that a board describes, a piece occupies exactly
    /// the squares on which the board has it.
    pub proof fn lemma_of_board(pieces: Seq<Piece>, piece: Piece, index: int)
        requires
            pieces.len() == 64,
        ensures
            Bitboards::of_board(pieces).occupancy(piece).contains(index) <==> 0 <= index < 64
                && pieces[index] == piece,
    {
        broadcast use Bitboard::lemma_bits_of_bits;

        lemma_word_where(|i: int| is_white(pieces[i]), 64);
        lemma_word_where(|i: int| is_black(pieces[i]), 64);
        lemma_word_where(|i: int| kind_of(pieces[i]) == Some(Kind::Pawn), 64);
        lemma_word_where(|i: int| kind_of(pieces[i]) == Some(Kind::Knight), 64);
        lemma_word_where(|i: int| kind_of(pieces[i]) == Some(Kind::Bishop), 64);
        lemma_word_where(|i: int| kind_of(pieces[i]) == Some(Kind::Rook), 64);
        lemma_word_where(|i: int| kind_of(pieces[i]) == Some(Kind::Queen), 64);
        lemma_word_where(|i: int| kind_of(pieces[i]) == Some(Kind::King), 64);
    }
}

/// `board` with the squares of `sqr_bb` added where `wanted` holds, and
/// `board` as it is where not.
fn mark(board: Bitboard, sqr_bb: Bitboard, wanted: bool) -> (marked: Bitboard)
    ensures
        marked.bits() == if wanted {
            board.bits() | sqr_bb.bits()
        } else {
            board.bits()
        },
{
    if wanted {
        board.union(sqr_bb)
    } else {
        board
    }
}

impl From<&PieceBoard> for Bitboards {
    /// Sorts the squares of `pieces` by colour and by kind.
    fn from(pieces: &PieceBoard) -> (bitboards: Bitboards)
        ensures
            forall|piece: Piece, index: int|
                #[trigger] bitboards.occupancy(piece).contains(index) <==> 0 <= index < 64
                    && pieces[index] == piece,
    {
        let mut white = Bitboard::new();
        let mut black = Bitboard::new();
        let mut pawns = Bitboard::new();
        let mut knights = Bitboard::new();
        let mut bishops = Bitboard::new();
        let mut rooks = Bitboard::new();
        let mut queens = Bitboard::new();
        let mut kings = Bitboard::new();
        let ghost board = pieces@;
        let mut idx: u8 = 0;
        while idx < 64
            invariant
                idx <= 64,
                board == pieces@,
                white.bits() == word_where(|i: int| is_white(board[i]), idx as int),
                black.bits() == word_where(|i: int| is_black(board[i]), idx as int),
                pawns.bits() == word_where(|i: int| kind_of(board[i]) == Some(Kind::Pawn), idx as int),
                knights.bits() == word_where(
                    |i: int| kind_of(board[i]) == Some(Kind::Knight),
                    idx as int,
                ),
                bishops.bits() == word_where(
                    |i: int| kind_of(board[i]) == Some(Kind::Bishop),
                    idx as int,
                ),
                rooks.bits() == word_where(|i: int| kind_of(board[i]) == Some(Kind::Rook), idx as int),
                queens.bits() == word_where(
                    |i: int| kind_of(board[i]) == Some(Kind::Queen),
                    idx as int,
                ),
                kings.bits() == word_where(|i: int| kind_of(board[i]) == Some(Kind::King), idx as int),
            decreases 64 - idx,
        {
            let piece = pieces[idx as usize];
            let sqr_bb = Bitboard::from(Square::new(idx));
            let (is_white_piece, is_black_piece) = match piece {
                Piece::WhitePawn
                | Piece::WhiteKnight
                | Piece::WhiteBishop
                | Piece::WhiteRook
                | Piece::WhiteQueen
                | Piece::WhiteKing => (true, false),
                Piece::Empty => (false, false),
                _ => (false, true),
            };
            white = mark(white, sqr_bb, is_white_piece);
            black = mark(black, sqr_bb, is_black_piece);
            pawns = mark(pawns, sqr_bb, piece == Piece::WhitePawn || piece == Piece::BlackPawn);
            knights = mark(
                knights,
                sqr_bb,
                piece == Piece::WhiteKnight || piece == Piece::BlackKnight,
            );
            bishops = mark(
                bishops,
                sqr_bb,
                piece == Piece::WhiteBishop || piece == Piece::BlackBishop,
            );
            rooks = mark(rooks, sqr_bb, piece == Piece::WhiteRook || piece == Piece::BlackRook);
            queens = mark(queens, sqr_bb, piece == Piece::WhiteQueen || piece == Piece::BlackQueen);
            kings = mark(kings, sqr_bb, piece == Piece::WhiteKing || piece == Piece::BlackKing);
            idx = idx + 1;
        }
        let bitboards = Bitboards { white, black, pawns, knights, bishops, rooks, queens, kings };
        proof {
            broadcast use Bitboard::lemma_of_bits;

            assert(bitboards == Bitboards::of_board(board));
            assert forall|piece: Piece, index: int|
                #[trigger] bitboards.occupancy(piece).contains(index) <==> 0 <= index < 64
                    && pieces[index] == piece by {
                Bitboards::lemma_of_board(board, piece, index);
            }
        }
        bitboards
    }
}

impl FromSpecImpl<&PieceBoard> for Bitboards {
    open spec fn obeys_from_spec() -> bool {
        true
    }

    open spec fn from_spec(pieces: &PieceBoard) -> Bitboards {
        Bitboards::of_board(pieces@)
    }
}

/// The piece of the given colour that starts the game on the given file
/// of its back rank.
pub open spec fn back_rank_piece(file: int, white: bool) -> Piece {
    if file == 0 || file == 7 {
        if white {
            Piece::WhiteRook
        } else {
            Piece::BlackRook
        }
    } else if file == 1 || file == 6 {
        if white {
            Piece::WhiteKnight
        } else {
            Piece::BlackKnight
        }
    } else if file == 2 || file == 5 {
        if white {
            Piece::WhiteBishop
        } else {
            Piece::BlackBishop
        }
    } else if file == 3 {
        if white {
            Piece::WhiteQueen
        } else {
            Piece::BlackQueen
        }
    } else {
        if white {
            Piece::WhiteKing
        } else {
            Piece::BlackKing
        }
    }
}

/// The piece that starts the game on the square `index`.
pub open spec fn starting_piece(index: int) -> Piece {
    let rank = index / 8;
    if rank == 0 {
        back_rank_piece(index % 8, true)
    } else if rank == 1 {
        Piece::WhitePawn
    } else if rank == 6 {
        Piece::BlackPawn
    } else if rank == 7 {
        back_rank_piece(index % 8, false)
    } else {
        Piece::Empty
    }
}

/// A position of the game.
pub struct Position {
    board: PieceBoard,
    bitboards: Bitboards,
    current_player: Player,
}

impl Position {
    /// The piece on each square, in the order of the squares.
    pub closed spec fn board(self) -> Seq<Piece> {
        self.board@
    }

    /// The same placement, sorted by colour and kind.
    pub closed spec fn bitboards(self) -> Bitboards {
        self.bitboards
    }

    /// The side to move.
    pub closed spec fn current_player(self) -> Player {
        self.current_player
    }

    /// The sets of squares agree with the board.
    #[verifier::type_invariant]
    pub open spec fn wf(self) -> bool {
        &&& self.board().len() == 64
        &&& self.bitboards() == Bitboards::of_board(self.board())
    }

    /// The position at the start of a game: White to move.
    pub fn starting_position() -> (position: Position)
        ensures
            position.current_player() == Player::White,
            forall|index: int|
                0 <= index < 64 ==> #[trigger] position.board()[index] == starting_piece(index),
    {
        let board = [
            Piece::WhiteRook,
            Piece::WhiteKnight,
            Piece::WhiteBishop,
            Piece::WhiteQueen,
            Piece::WhiteKing,
            Piece::WhiteBishop,
            Piece::WhiteKnight,
            Piece::WhiteRook,
            Piece::WhitePawn,
            Piece::WhitePawn,
            Piece::WhitePawn,
            Piece::WhitePawn,
            Piece::WhitePawn,
            Piece::WhitePawn,
            Piece::WhitePawn,
            Piece::WhitePawn,
            Piece::Empty,
            Piece::Empty,
            Piece::Empty,
            Piece::Empty,
            Piece::Empty,
            Piece::Empty,
            Piece::Empty,
            Piece::Empty,
            Piece::Empty,
            Piece::Empty,
            Piece::Empty,
            Piece::Empty,
            Piece::Empty,
            Piece::Empty,
            Piece::Empty,
            Piece::Empty,
            Piece::Empty,
            Piece::Empty,
            Piece::Empty,
            Piece::Empty,
            Piece::Empty,
            Piece::Empty,
            Piece::Empty,
            Piece::Empty,
            Piece::Empty,
            Piece::Empty,
            Piece::Empty,
            Piece::Empty,
            Piece::Empty,
            Piece::Empty,
            Piece::Empty,
            Piece::Empty,
            Piece::BlackPawn,
            Piece::BlackPawn,
            Piece::BlackPawn,
            Piece::BlackPawn,
            Piece::BlackPawn,
            Piece::BlackPawn,
            Piece::BlackPawn,
            Piece::BlackPawn,
            Piece::BlackRook,
            Piece::BlackKnight,
            Piece::BlackBishop,
            Piece::BlackQueen,
            Piece::BlackKing,
            Piece::BlackBishop,
            Piece::BlackKnight,
            Piece::BlackRook,
        ];
        Position { board, bitboards: Bitboards::from(&board), current_player: Player::White }
    }

    /// The piece on `sqr`.
    pub fn piece_on(&self, sqr: Square) -> (piece: Piece)
        ensures
            piece == self.board()[sqr@],
    {
        proof {
            use_type_invariant(self);
            use_type_invariant(sqr);
        }
        self.board[u8::from(sqr) as usize]
    }

    /// Puts `piece` on `sqr`, in place of what stood there.
    pub fn set_piece_on(&mut self, piece: Piece, sqr: Square)
        ensures
            final(self).board() == old(self).board().update(sqr@, piece),
            final(self).current_player() == old(self).current_player(),
    {
        proof {
            use_type_invariant(&*self);
            use_type_invariant(sqr);
        }
        let mut board = self.board;
        board[u8::from(sqr) as usize] = piece;
        *self = Position {
            board,
            bitboards: Bitboards::from(&board),
            current_player: self.current_player,
        };
    }

    /// Carries the piece on the move's first square over to its second
    /// square, and leaves the first square empty.
    pub fn make_move(&mut self, mv: Move)
        ensures
            final(self).board() == old(self).board().update(mv.from@, Piece::Empty).update(
                mv.to@,
                old(self).board()[mv.from@],
            ),
            final(self).current_player() == old(self).current_player(),
    {
        let piece = self.piece_on(mv.from());
        self.set_piece_on(Piece::Empty, mv.from());
        self.set_piece_on(piece, mv.to());
    }
}

} // verus!
