use vstd::prelude::*;

verus! {

/// The two sides.
#[derive(Clone, Copy, Debug, PartialEq, Eq, Structural)]
pub enum Color {
    White,
    Black,
}

impl Color {
    /// Index of the side in per-colour arrays: white 0, black 1.
    pub open spec fn index(self) -> int {
        match self {
            Color::White => 0,
            Color::Black => 1,
        }
    }

    /// The other side.
    pub open spec fn other(self) -> Color {
        match self {
            Color::White => Color::Black,
            Color::Black => Color::White,
        }
    }

    /// The other side.
    pub fn opposite(&self) -> (r: Color)
        ensures
            r == self.other(),
    {
        match self {
            Color::White => Color::Black,
            Color::Black => Color::White,
        }
    }

    /// White 0, black 1.
    pub fn to_index(&self) -> (r: usize)
        ensures
            r == self.index(),
    {
        match self {
            Color::White => 0,
            Color::Black => 1,
        }
    }

    /// The side named by a FEN side-to-move letter: `w` or `b`.
    pub fn from_fen(c: char) -> (r: Option<Color>)
        ensures
            r == (if c == 'w' {
                Some(Color::White)
            } else if c == 'b' {
                Some(Color::Black)
            } else {
                None::<Color>
            }),
    {
        if c == 'w' {
            Some(Color::White)
        } else if c == 'b' {
            Some(Color::Black)
        } else {
            None
        }
    }
}

/// The twelve (colour, kind) combinations, white pawn..king then black pawn..king;
/// the order is the layout of `Board::bbs`.
#[derive(Clone, Copy, Debug, PartialEq, Eq, Structural)]
pub enum Piece {
    WhitePawn,
    WhiteKnight,
    WhiteBishop,
    WhiteRook,
    WhiteQueen,
    WhiteKing,
    BlackPawn,
    BlackKnight,
    BlackBishop,
    BlackRook,
    BlackQueen,
    BlackKing,
}

/// The piece stored at bitboard slot `i` (`0..12`).
pub open spec fn piece_at_index(i: int) -> Piece {
    if i == 0 {
        Piece::WhitePawn
    } else if i == 1 {
        Piece::WhiteKnight
    } else if i == 2 {
        Piece::WhiteBishop
    } else if i == 3 {
        Piece::WhiteRook
    } else if i == 4 {
        Piece::WhiteQueen
    } else if i == 5 {
        Piece::WhiteKing
    } else if i == 6 {
        Piece::BlackPawn
    } else if i == 7 {
        Piece::BlackKnight
    } else if i == 8 {
        Piece::BlackBishop
    } else if i == 9 {
        Piece::BlackRook
    } else if i == 10 {
        Piece::BlackQueen
    } else {
        Piece::BlackKing
    }
}

/// The piece named by a FEN letter: upper case white, lower case black, `PNBRQK`.
pub open spec fn fen_piece(c: char) -> Option<Piece> {
    if c == 'P' {
        Some(Piece::WhitePawn)
    } else if c == 'N' {
        Some(Piece::WhiteKnight)
    } else if c == 'B' {
        Some(Piece::WhiteBishop)
    } else if c == 'R' {
        Some(Piece::WhiteRook)
    } else if c == 'Q' {
        Some(Piece::WhiteQueen)
    } else if c == 'K' {
        Some(Piece::WhiteKing)
    } else if c == 'p' {
        Some(Piece::BlackPawn)
    } else if c == 'n' {
        Some(Piece::BlackKnight)
    } else if c == 'b' {
        Some(Piece::BlackBishop)
    } else if c == 'r' {
        Some(Piece::BlackRook)
    } else if c == 'q' {
        Some(Piece::BlackQueen)
    } else if c == 'k' {
        Some(Piece::BlackKing)
    } else {
        None
    }
}

impl Piece {
    /// Slot of the piece in `Board::bbs`.
    pub open spec fn index(self) -> int {
        match self {
            Piece::WhitePawn => 0,
            Piece::WhiteKnight => 1,
            Piece::WhiteBishop => 2,
            Piece::WhiteRook => 3,
            Piece::WhiteQueen => 4,
            Piece::WhiteKing => 5,
            Piece::BlackPawn => 6,
            Piece::BlackKnight => 7,
            Piece::BlackBishop => 8,
            Piece::BlackRook => 9,
            Piece::BlackQueen => 10,
            Piece::BlackKing => 11,
        }
    }

    /// Kind of the piece: pawn 0, knight 1, bishop 2, rook 3, queen 4, king 5.
    pub open spec fn kind(self) -> int {
        self.index() % 6
    }

    /// Owner of the piece.
    pub open spec fn side(self) -> Color {
        if self.index() < 6 {
            Color::White
        } else {
            Color::Black
        }
    }

    /// Owner of the piece.
    pub fn color(&self) -> (r: Color)
        ensures
            r == self.side(),
    {
        match self {
            Piece::WhitePawn | Piece::WhiteKnight | Piece::WhiteBishop | Piece::WhiteRook
            | Piece::WhiteQueen | Piece::WhiteKing => Color::White,
            Piece::BlackPawn | Piece::BlackKnight | Piece::BlackBishop | Piece::BlackRook
            | Piece::BlackQueen | Piece::BlackKing => Color::Black,
        }
    }

    /// The piece at bitboard slot `index`.
    pub fn from_index(index: usize) -> (r: Piece)
        requires
            index < 12,
        ensures
            r == piece_at_index(index as int),
            r.index() == index,
    {
        match index {
            0 => Piece::WhitePawn,
            1 => Piece::WhiteKnight,
            2 => Piece::WhiteBishop,
            3 => Piece::WhiteRook,
            4 => Piece::WhiteQueen,
            5 => Piece::WhiteKing,
            6 => Piece::BlackPawn,
            7 => Piece::BlackKnight,
            8 => Piece::BlackBishop,
            9 => Piece::BlackRook,
            10 => Piece::BlackQueen,
            _ => Piece::BlackKing,
        }
    }

    /// Bitboard slot of the piece.
    pub fn to_index(&self) -> (r: usize)
        ensures
            r == self.index(),
            r < 12,
            piece_at_index(r as int) == *self,
    {
        match self {
            Piece::WhitePawn => 0,
            Piece::WhiteKnight => 1,
            Piece::WhiteBishop => 2,
            Piece::WhiteRook => 3,
            Piece::WhiteQueen => 4,
            Piece::WhiteKing => 5,
            Piece::BlackPawn => 6,
            Piece::BlackKnight => 7,
            Piece::BlackBishop => 8,
            Piece::BlackRook => 9,
            Piece::BlackQueen => 10,
            Piece::BlackKing => 11,
        }
    }

    /// The piece named by a FEN letter.
    pub fn from_fen(fen: char) -> (r: Option<Piece>)
        ensures
            r == fen_piece(fen),
    {
        match fen {
            'P' => Some(Piece::WhitePawn),
            'N' => Some(Piece::WhiteKnight),
            'B' => Some(Piece::WhiteBishop),
            'R' => Some(Piece::WhiteRook),
            'Q' => Some(Piece::WhiteQueen),
            'K' => Some(Piece::WhiteKing),
            'p' => Some(Piece::BlackPawn),
            'n' => Some(Piece::BlackKnight),
            'b' => Some(Piece::BlackBishop),
            'r' => Some(Piece::BlackRook),
            'q' => Some(Piece::BlackQueen),
            'k' => Some(Piece::BlackKing),
            _ => None,
        }
    }

    /// The chess glyph of the piece, as shown by the board printer.
    pub fn glyph(&self) -> (r: char)
        ensures
            r == piece_glyph(*self),
    {
        match self {
            Piece::WhitePawn => '♙',
            Piece::WhiteKnight => '♘',
            Piece::WhiteBishop => '♗',
            Piece::WhiteRook => '♖',
            Piece::WhiteQueen => '♕',
            Piece::WhiteKing => '♔',
            Piece::BlackPawn => '♟',
            Piece::BlackKnight => '♞',
            Piece::BlackBishop => '♝',
            Piece::BlackRook => '♜',
            Piece::BlackQueen => '♛',
            Piece::BlackKing => '♚',
        }
    }
}

/// The chess glyph of a piece.
pub open spec fn piece_glyph(p: Piece) -> char {
    match p {
        Piece::WhitePawn => '♙',
        Piece::WhiteKnight => '♘',
        Piece::WhiteBishop => '♗',
        Piece::WhiteRook => '♖',
        Piece::WhiteQueen => '♕',
        Piece::WhiteKing => '♔',
        Piece::BlackPawn => '♟',
        Piece::BlackKnight => '♞',
        Piece::BlackBishop => '♝',
        Piece::BlackRook => '♜',
        Piece::BlackQueen => '♛',
        Piece::BlackKing => '♚',
    }
}

/// `from_index` and `to_index` are inverse on the twelve slots.
pub proof fn lemma_piece_index_round_trip(i: int, p: Piece)
    requires
        0 <= i < 12,
    ensures
        piece_at_index(i).index() == i,
        piece_at_index(p.index()) == p,
        0 <= p.index() < 12,
{
}

} // verus!
