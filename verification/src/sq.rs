use vstd::prelude::*;
use crate::bitboard::{Bitboard, lemma_bit_ops};
use vstd::string::StringSliceAdditionalSpecFns;

verus! {

/// A square index: `0..64` on the board (a1 = 0, h1 = 7, a8 = 56, h8 = 63);
/// `64` stands for "no square".
#[derive(Clone, Copy, Debug, PartialEq, Eq, Structural)]
pub struct SQ(pub u8);

/// The square named by a two-byte UCI coordinate such as `e4`.
pub open spec fn square_from_uci(b: Seq<u8>) -> Option<SQ> {
    if b.len() == 2 && 97 <= b[0] <= 104 && 49 <= b[1] <= 56 {
        Some(SQ(((b[1] - 49) * 8 + (b[0] - 97)) as u8))
    } else {
        None
    }
}

impl SQ {
    /// Rank (0..8) of an on-board square.
    pub open spec fn rank(self) -> int {
        self.0 as int / 8
    }

    /// File (0..8, a..h) of an on-board square.
    pub open spec fn file(self) -> int {
        self.0 as int % 8
    }

    /// The square on `rank` and `file`.
    pub fn make(rank: u8, file: u8) -> (r: SQ)
        requires
            rank * 8 + file <= 255,
        ensures
            r.0 == rank * 8 + file,
    {
        SQ(rank * 8 + file)
    }

    /// Whether the square is on the board.
    pub fn is_ok(&self) -> (r: bool)
        ensures
            r == (self.0 < 64),
    {
        self.0 < 64
    }

    /// Whether the square is the "no square" marker.
    pub fn is_none(&self) -> (r: bool)
        ensures
            r == (self.0 == 64),
    {
        self.0 == 64
    }

    /// The index as a `usize`.
    pub fn to_usize(&self) -> (r: usize)
        ensures
            r == self.0,
    {
        self.0 as usize
    }

    /// The one-square set holding this square.
    pub fn to_bb(&self) -> (r: Bitboard)
        requires
            self.0 < 64,
        ensures
            r@ == set![self.0 as int],
            r.board == 1u64 << self.0 as u64,
    {
        proof {
            lemma_bit_ops();
            let b = 1u64 << self.0 as u64;
            assert(Bitboard { board: b }@ =~= set![self.0 as int]);
        }
        Bitboard::from_u64(1u64 << self.0 as u64)
    }

    /// Parses a UCI coordinate such as `e4`; anything else gives `None`.
    pub fn from_uci(s: &str) -> (r: Option<SQ>)
        ensures
            r == square_from_uci(s.spec_bytes()),
    {
        let bytes = s.as_bytes();
        if bytes.len() != 2 {
            return None;
        }
        if bytes[0] < 97 || bytes[1] < 49 {
            return None;
        }
        let file = bytes[0] - 97;
        let rank = bytes[1] - 49;
        if file > 7 || rank > 7 {
            return None;
        }
        Some(SQ::make(rank, file))
    }
}

} // verus!
