use vstd::prelude::*;
use vstd::string::StringSliceAdditionalSpecFns;
use crate::pieces::{Color, Piece};
use crate::sq::SQ;

verus! {

/// The piece a pawn may promote to.
#[derive(Clone, Copy, Debug, PartialEq, Eq, Structural)]
pub enum PromotionPiece {
    Knight,
    Bishop,
    Rook,
    Queen,
}

impl PromotionPiece {
    /// Kind of the promoted piece: knight 1, bishop 2, rook 3, queen 4.
    pub open spec fn kind(self) -> int {
        match self {
            PromotionPiece::Knight => 1,
            PromotionPiece::Bishop => 2,
            PromotionPiece::Rook => 3,
            PromotionPiece::Queen => 4,
        }
    }

    /// The piece of colour `color` and this kind.
    pub fn to_piece(&self, color: Color) -> (r: Piece)
        ensures
            r.index() == color.index() * 6 + self.kind(),
            r.side() == color,
            r.kind() == self.kind(),
    {
        match (color, self) {
            (Color::White, PromotionPiece::Knight) => Piece::WhiteKnight,
            (Color::White, PromotionPiece::Bishop) => Piece::WhiteBishop,
            (Color::White, PromotionPiece::Rook) => Piece::WhiteRook,
            (Color::White, PromotionPiece::Queen) => Piece::WhiteQueen,
            (Color::Black, PromotionPiece::Knight) => Piece::BlackKnight,
            (Color::Black, PromotionPiece::Bishop) => Piece::BlackBishop,
            (Color::Black, PromotionPiece::Rook) => Piece::BlackRook,
            (Color::Black, PromotionPiece::Queen) => Piece::BlackQueen,
        }
    }
}

/// A move: source square, destination square and, for a promotion, the new piece.
/// Castling, en passant and double pushes are not flagged; they follow from the
/// position the move is played in.
#[derive(Clone, Copy, Debug, PartialEq, Eq, Structural)]
pub struct Move {
    pub src: SQ,
    pub dest: SQ,
    pub promotion: Option<PromotionPiece>,
}

/// The promotion piece named by a UCI suffix byte: `n`, `b`, `r` or `q`.
pub open spec fn promotion_of_byte(c: u8) -> Option<PromotionPiece> {
    if c == 110 {
        Some(PromotionPiece::Knight)
    } else if c == 98 {
        Some(PromotionPiece::Bishop)
    } else if c == 114 {
        Some(PromotionPiece::Rook)
    } else if c == 113 {
        Some(PromotionPiece::Queen)
    } else {
        None
    }
}

/// The UCI suffix letter of a promotion piece.
pub open spec fn promotion_char(p: PromotionPiece) -> char {
    match p {
        PromotionPiece::Queen => 'q',
        PromotionPiece::Rook => 'r',
        PromotionPiece::Bishop => 'b',
        PromotionPiece::Knight => 'n',
    }
}

/// The square index written by a file byte and a rank byte.
pub open spec fn coordinate(file: u8, rank: u8) -> int {
    (rank - 49) * 8 + (file - 97)
}

/// The byte strings `Move::from_uci` reads: four bytes `<file><rank><file><rank>`,
/// optionally followed by a promotion letter, where each coordinate lies at or
/// above `a1` and its index fits in a byte.
pub open spec fn uci_move_ok(b: Seq<u8>) -> bool {
    &&& b.len() == 4 || b.len() == 5
    &&& b[0] >= 97 && b[1] >= 49 && b[2] >= 97 && b[3] >= 49
    &&& coordinate(b[0], b[1]) <= 255
    &&& coordinate(b[2], b[3]) <= 255
    &&& b.len() == 5 ==> promotion_of_byte(b[4]) is Some
}

/// The move a well-formed UCI string stands for.
pub open spec fn uci_move(b: Seq<u8>) -> Move {
    Move {
        src: SQ(coordinate(b[0], b[1]) as u8),
        dest: SQ(coordinate(b[2], b[3]) as u8),
        promotion: if b.len() == 5 {
            promotion_of_byte(b[4])
        } else {
            None
        },
    }
}

/// File letter of a square.
pub open spec fn file_char(s: SQ) -> char {
    ((97 + s.0 % 8) as u8) as char
}

/// Rank digit of a square.
pub open spec fn rank_char(s: SQ) -> char {
    ((49 + s.0 / 8) as u8) as char
}

/// The UCI text of a move.
pub open spec fn uci_text(m: Move) -> Seq<char> {
    seq![file_char(m.src), rank_char(m.src), file_char(m.dest), rank_char(m.dest)] + match m.promotion {
        Some(p) => seq![promotion_char(p)],
        None => Seq::<char>::empty(),
    }
}

impl Move {
    /// A move without promotion.
    pub fn new(src: SQ, dest: SQ) -> (r: Move)
        ensures
            r == (Move { src, dest, promotion: None }),
    {
        Move { src, dest, promotion: None }
    }

    /// A promoting move.
    pub fn with_promotion(src: SQ, dest: SQ, promotion: PromotionPiece) -> (r: Move)
        ensures
            r == (Move { src, dest, promotion: Some(promotion) }),
    {
        Move { src, dest, promotion: Some(promotion) }
    }

    /// Source square.
    pub fn get_src(&self) -> (r: SQ)
        ensures
            r == self.src,
    {
        self.src
    }

    /// Destination square.
    pub fn get_dest(&self) -> (r: SQ)
        ensures
            r == self.dest,
    {
        self.dest
    }

    /// Promotion piece, if any.
    pub fn get_promotion(&self) -> (r: Option<PromotionPiece>)
        ensures
            r == self.promotion,
    {
        self.promotion
    }

    /// The UCI text of the move, such as `e2e4` or `e7e8q`.
    pub fn to_uci(&self) -> (r: String)
        ensures
            r@ == uci_text(*self),
    {
        let mut s = String::new();
        s.push((97 + self.src.0 % 8) as u8 as char);
        s.push((49 + self.src.0 / 8) as u8 as char);
        s.push((97 + self.dest.0 % 8) as u8 as char);
        s.push((49 + self.dest.0 / 8) as u8 as char);
        if let Some(prom) = self.promotion {
            s.push(
                match prom {
                    PromotionPiece::Queen => 'q',
                    PromotionPiece::Rook => 'r',
                    PromotionPiece::Bishop => 'b',
                    PromotionPiece::Knight => 'n',
                },
            );
        }
        proof {
            assert(s@ =~= uci_text(*self));
        }
        s
    }

    /// Whether `s` is a string `from_uci` accepts.
    pub fn uci_well_formed(s: &str) -> (r: bool)
        ensures
            r == uci_move_ok(s.spec_bytes()),
    {
        let b = s.as_bytes();
        if b.len() != 4 && b.len() != 5 {
            return false;
        }
        if b[0] < 97 || b[1] < 49 || b[2] < 97 || b[3] < 49 {
            return false;
        }
        let src = (b[1] as u32 - 49) * 8 + (b[0] as u32 - 97);
        let dest = (b[3] as u32 - 49) * 8 + (b[2] as u32 - 97);
        if src > 255 || dest > 255 {
            return false;
        }
        if b.len() == 5 {
            let c = b[4];
            c == 110 || c == 98 || c == 114 || c == 113
        } else {
            true
        }
    }

    /// Parses a UCI move (`e2e4`, `e7e8q`). Only the strings of `uci_move_ok` are
    /// accepted; the squares are taken as written, without a range check.
    pub fn from_uci(uci: &str) -> (r: Move)
        requires
            uci_move_ok(uci.spec_bytes()),
        ensures
            r == uci_move(uci.spec_bytes()),
    {
        let bytes = uci.as_bytes();
        let src = SQ::make(bytes[1] - 49, bytes[0] - 97);
        let dest = SQ::make(bytes[3] - 49, bytes[2] - 97);
        let promotion = if bytes.len() == 5 {
            let c = bytes[4];
            Some(
                if c == 110 {
                    PromotionPiece::Knight
                } else if c == 98 {
                    PromotionPiece::Bishop
                } else if c == 114 {
                    PromotionPiece::Rook
                } else {
                    PromotionPiece::Queen
                },
            )
        } else {
            None
        };
        Move { src, dest, promotion }
    }
}

} // verus!
