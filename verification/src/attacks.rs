use vstd::prelude::*;
use crate::bitboard::{Bitboard, lemma_bit_ops, squares_of};
use crate::pieces::Color;
use crate::sq::SQ;

verus! {

/// Whether `(rank, file)` lies on the board.
pub open spec fn on_board(rank: int, file: int) -> bool {
    0 <= rank < 8 && 0 <= file < 8
}

/// Absolute value.
pub open spec fn abs(x: int) -> int {
    if x < 0 {
        -x
    } else {
        x
    }
}

/// A knight on square `s` attacks square `t`.
pub open spec fn knight_step(s: int, t: int) -> bool {
    let dr = abs(t / 8 - s / 8);
    let df = abs(t % 8 - s % 8);
    (dr == 1 && df == 2) || (dr == 2 && df == 1)
}

/// A king on square `s` attacks square `t`.
pub open spec fn king_step(s: int, t: int) -> bool {
    let dr = abs(t / 8 - s / 8);
    let df = abs(t % 8 - s % 8);
    dr <= 1 && df <= 1 && !(dr == 0 && df == 0)
}

/// A pawn of colour `c` on square `s` attacks square `t`: one rank forward
/// (up for white, down for black) on an adjacent file.
pub open spec fn pawn_step(c: Color, s: int, t: int) -> bool {
    let forward = if c == Color::White {
        1int
    } else {
        -1int
    };
    t / 8 - s / 8 == forward && abs(t % 8 - s % 8) == 1
}

/// Squares a knight on `s` attacks.
pub open spec fn knight_targets(s: int) -> Set<int> {
    Set::new(|t: int| 0 <= t < 64 && knight_step(s, t))
}

/// Squares a king on `s` attacks.
pub open spec fn king_targets(s: int) -> Set<int> {
    Set::new(|t: int| 0 <= t < 64 && king_step(s, t))
}

/// Squares a pawn of colour `c` on `s` attacks.
pub open spec fn pawn_targets(c: Color, s: int) -> Set<int> {
    Set::new(|t: int| 0 <= t < 64 && pawn_step(c, s, t))
}

/// Adds square `(rank, file)` to `bb` when it is on the board.
fn add_if_on_board(bb: u64, rank: i32, file: i32) -> (r: u64)
    requires
        -8 <= rank < 16,
        -8 <= file < 16,
    ensures
        squares_of(r) == (if on_board(rank as int, file as int) {
            squares_of(bb).insert(rank * 8 + file)
        } else {
            squares_of(bb)
        }),
{
    if rank >= 0 && rank < 8 && file >= 0 && file < 8 {
        let idx = (rank * 8 + file) as u64;
        let r = bb | (1u64 << idx);
        proof {
            lemma_bit_ops();
            assert(squares_of(r) =~= squares_of(bb).insert(rank * 8 + file));
        }
        r
    } else {
        bb
    }
}

/// Squares a knight on `sq` attacks.
pub fn knight_attacks(sq: SQ) -> (r: Bitboard)
    requires
        sq.0 < 64,
    ensures
        r@ == knight_targets(sq.0 as int),
{
    let rank = (sq.0 / 8) as i32;
    let file = (sq.0 % 8) as i32;
    let mut bb: u64 = 0;
    proof {
        lemma_bit_ops();
        assert(squares_of(0) =~= Set::<int>::empty());
    }
    bb = add_if_on_board(bb, rank - 2, file - 1);
    bb = add_if_on_board(bb, rank - 2, file + 1);
    bb = add_if_on_board(bb, rank - 1, file - 2);
    bb = add_if_on_board(bb, rank - 1, file + 2);
    bb = add_if_on_board(bb, rank + 1, file - 2);
    bb = add_if_on_board(bb, rank + 1, file + 2);
    bb = add_if_on_board(bb, rank + 2, file - 1);
    bb = add_if_on_board(bb, rank + 2, file + 1);
    proof {
        assert(squares_of(bb) =~= knight_targets(sq.0 as int));
    }
    Bitboard::from_u64(bb)
}

/// Squares a king on `sq` attacks.
pub fn king_attacks(sq: SQ) -> (r: Bitboard)
    requires
        sq.0 < 64,
    ensures
        r@ == king_targets(sq.0 as int),
{
    let rank = (sq.0 / 8) as i32;
    let file = (sq.0 % 8) as i32;
    let mut bb: u64 = 0;
    proof {
        lemma_bit_ops();
        assert(squares_of(0) =~= Set::<int>::empty());
    }
    bb = add_if_on_board(bb, rank - 1, file - 1);
    bb = add_if_on_board(bb, rank - 1, file);
    bb = add_if_on_board(bb, rank - 1, file + 1);
    bb = add_if_on_board(bb, rank, file - 1);
    bb = add_if_on_board(bb, rank, file + 1);
    bb = add_if_on_board(bb, rank + 1, file - 1);
    bb = add_if_on_board(bb, rank + 1, file);
    bb = add_if_on_board(bb, rank + 1, file + 1);
    proof {
        assert(squares_of(bb) =~= king_targets(sq.0 as int));
    }
    Bitboard::from_u64(bb)
}

/// Squares a pawn of colour `color` on `sq` attacks (captures only; pushes are
/// generated elsewhere).
pub fn pawn_attacks(sq: SQ, color: Color) -> (r: Bitboard)
    requires
        sq.0 < 64,
    ensures
        r@ == pawn_targets(color, sq.0 as int),
{
    let rank = (sq.0 / 8) as i32;
    let file = (sq.0 % 8) as i32;
    let dr: i32 = match color {
        Color::White => 1,
        Color::Black => -1,
    };
    let mut bb: u64 = 0;
    proof {
        lemma_bit_ops();
        assert(squares_of(0) =~= Set::<int>::empty());
    }
    bb = add_if_on_board(bb, rank + dr, file - 1);
    bb = add_if_on_board(bb, rank + dr, file + 1);
    proof {
        assert(squares_of(bb) =~= pawn_targets(color, sq.0 as int));
    }
    Bitboard::from_u64(bb)
}

} // verus!
