use vstd::prelude::*;
use vstd::std_specs::bits::u64_trailing_zeros;
use crate::bitboard::{bit, lemma_bit_ops, lemma_squares_injective, lemma_squares_ops, lemma_trailing_zeros_least, lemma_zero_iff_empty, squares_of};
use crate::board::Board;
use crate::generator::{king_safe, king_square, is_attacked};
use crate::pieces::Color;
use crate::position::{wf, side_pieces, ep_consistent, castling_consistent, one_king};

verus! {

/// Whether two words share no square.
fn apart(a: u64, b: u64) -> (r: bool)
    ensures
        r == squares_of(a).disjoint(squares_of(b)),
{
    proof {
        lemma_squares_ops();
        lemma_zero_iff_empty(a & b);
        if a & b != 0 {
            lemma_trailing_zeros_least(a & b);
            let t = u64_trailing_zeros(a & b) as int;
            assert(squares_of(a & b).contains(t));
            assert(squares_of(a).contains(t) && squares_of(b).contains(t));
        } else {
            assert forall|x: int| !(squares_of(a).contains(x) && squares_of(b).contains(x)) by {
                if squares_of(a).contains(x) && squares_of(b).contains(x) {
                    assert(squares_of(a & b).contains(x));
                }
            }
        }
    }
    a & b == 0
}

/// Whether the twelve piece sets are pairwise disjoint.
fn slots_apart(b: &Board) -> (r: bool)
    ensures
        r == forall|i: int, j: int|
            0 <= i < 12 && 0 <= j < 12 && i != j ==> (#[trigger] b.bbs[i]@).disjoint(#[trigger] b.bbs[j]@),
{
    let mut i: usize = 0;
    while i < 12
        invariant
            i <= 12,
            forall|p: int, q: int| 0 <= p < i && p < q < 12 ==> (#[trigger] b.bbs[p]@).disjoint(#[trigger] b.bbs[q]@),
        decreases 12 - i,
    {
        let mut j: usize = i + 1;
        while j < 12
            invariant
                i < 12,
                i + 1 <= j <= 12,
                forall|p: int, q: int| 0 <= p < i && p < q < 12 ==> (#[trigger] b.bbs[p]@).disjoint(#[trigger] b.bbs[q]@),
                forall|q: int| i < q < j ==> b.bbs[i as int]@.disjoint(#[trigger] b.bbs[q]@),
            decreases 12 - j,
        {
            if !apart(b.bbs[i].board, b.bbs[j].board) {
                proof {
                    assert(!b.bbs[i as int]@.disjoint(b.bbs[j as int]@));
                }
                return false;
            }
            j = j + 1;
        }
        i = i + 1;
    }
    assert forall|p: int, q: int| 0 <= p < 12 && 0 <= q < 12 && p != q implies (#[trigger] b.bbs[p]@).disjoint(
        #[trigger] b.bbs[q]@,
    ) by {
        if p < q {
            assert(b.bbs[p]@.disjoint(b.bbs[q]@));
        } else {
            assert(b.bbs[q]@.disjoint(b.bbs[p]@));
        }
    }
    true
}

/// Whether colour set `c` is the union of that side's six piece sets.
fn colour_matches(b: &Board, c: usize) -> (r: bool)
    requires
        c < 2,
    ensures
        r == (b.player_bbs[c as int]@ == side_pieces(*b, c as int)),
{
    let o = 6 * c;
    let union = b.bbs[o].board | b.bbs[o + 1].board | b.bbs[o + 2].board | b.bbs[o + 3].board | b.bbs[o
        + 4].board | b.bbs[o + 5].board;
    proof {
        lemma_squares_ops();
        assert(squares_of(union) == side_pieces(*b, c as int));
        if b.player_bbs[c as int]@ =~= side_pieces(*b, c as int) {
            lemma_squares_injective(b.player_bbs[c as int].board, union);
        }
    }
    b.player_bbs[c].board == union
}

/// Whether no pawn of a set stands on the first or last rank.
fn pawns_inside(p: u64) -> (r: bool)
    ensures
        r == forall|s: int| #[trigger] squares_of(p).contains(s) ==> 8 <= s < 56,
{
    let edge: u64 = 0xFF00_0000_0000_00FF;
    proof {
        assert(forall|j: u64| j < 64 ==> #[trigger] bit(0xFF00_0000_0000_00FFu64, j) == (j < 8 || j >= 56))
            by (bit_vector);
        lemma_bit_ops();
        if p & edge != 0 {
            lemma_trailing_zeros_least(p & edge);
            let t = u64_trailing_zeros(p & edge);
            assert(squares_of(p & edge).contains(t as int));
            assert(bit(p & edge, t as u64));
            assert(bit(p, t as u64) && bit(edge, t as u64));
            assert(squares_of(p).contains(t as int));
            assert(!(8 <= t < 56));
        } else {
            assert forall|s: int| #[trigger] squares_of(p).contains(s) implies 8 <= s < 56 by {
                let j = s as u64;
                assert(bit(p, j));
                assert(bit(p & edge, j) == (bit(p, j) && bit(edge, j)));
                assert(!bit(0u64, j));
                assert(!bit(edge, j));
                assert(bit(0xFF00_0000_0000_00FFu64, j) == (j < 8 || j >= 56));
            }
        }
    }
    p & edge == 0
}

/// Whether a king set holds at most one square.
fn single_king(k: u64) -> (r: bool)
    ensures
        r == forall|s1: int, s2: int| #[trigger] squares_of(k).contains(s1) && #[trigger] squares_of(k).contains(s2) ==> s1
            == s2,
{
    if k == 0 {
        proof {
            lemma_zero_iff_empty(k);
        }
        return true;
    }
    proof {
        lemma_trailing_zeros_least(k);
        lemma_bit_ops();
    }
    let t = k.trailing_zeros();
    let alone = 1u64 << t;
    proof {
        assert(squares_of(alone) =~= set![t as int]) by {
            assert forall|j: int| squares_of(alone).contains(j) == (j == t as int) by {
                if 0 <= j < 64 {
                    assert(bit(1u64 << (t as u64), j as u64) == (j as u64 == t as u64));
                }
            }
        }
        if k == alone {
            assert(squares_of(k) =~= set![t as int]);
        } else {
            if forall|s1: int, s2: int| #[trigger] squares_of(k).contains(s1) && #[trigger] squares_of(k).contains(s2)
                ==> s1 == s2 {
                assert(squares_of(k) =~= set![t as int]) by {
                    assert forall|j: int| squares_of(k).contains(j) == (j == t as int) by {
                        if squares_of(k).contains(j) {
                            assert(squares_of(k).contains(t as int));
                        }
                    }
                }
                lemma_squares_injective(k, alone);
            }
        }
    }
    k == alone
}

/// Whether the en-passant square agrees with the pieces.
fn ep_agrees(b: &Board) -> (r: bool)
    ensures
        r == ep_consistent(*b),
{
    match b.en_passant {
        None => true,
        Some(e) => {
            let s = e.0;
            let black_square = 16 <= s && s < 24 && b.side_to_move == Color::Black;
            let white_square = 40 <= s && s < 48 && b.side_to_move == Color::White;
            if !black_square && !white_square {
                return false;
            }
            let occupied_here = b.player_bbs[0].get(s as usize) || b.player_bbs[1].get(s as usize);
            if occupied_here {
                return false;
            }
            if black_square {
                b.bbs[0].get((s + 8) as usize)
            } else {
                b.bbs[6].get((s - 8) as usize)
            }
        },
    }
}

/// Whether each castling right is backed by its king and rook.
fn castling_agrees(b: &Board) -> (r: bool)
    ensures
        r == castling_consistent(*b),
{
    let c = b.castling.0;
    (c & 1 == 0 || (b.bbs[5].get(4) && b.bbs[3].get(7))) && (c & 2 == 0 || (b.bbs[5].get(4) && b.bbs[3].get(0))) && (
    c & 4 == 0 || (b.bbs[11].get(60) && b.bbs[9].get(63))) && (c & 8 == 0 || (b.bbs[11].get(60) && b.bbs[9].get(
        56,
    )))
}

/// Whether the side that just moved left its king unattacked.
fn mover_safe(b: &Board) -> (r: bool)
    ensures
        r == king_safe(*b, b.side_to_move.other()),
{
    let c = b.side_to_move.opposite();
    match king_square(b, c) {
        Some(k) => !is_attacked(b, k, b.side_to_move),
        None => true,
    }
}

impl Board {
    /// Whether the position is well formed: no square holds two pieces, the
    /// colour sets are the unions of their piece sets, no pawn stands on the
    /// first or last rank, the en-passant square and castling rights agree with
    /// the pieces, each side has at most one king, and the side that just moved
    /// is not in check.
    pub fn is_well_formed(&self) -> (r: bool)
        ensures
            r == wf(*self),
    {
        let a = slots_apart(self);
        let w = colour_matches(self, 0);
        let k = colour_matches(self, 1);
        let p = pawns_inside(self.bbs[0].board) && pawns_inside(self.bbs[6].board);
        let e = ep_agrees(self);
        let c = castling_agrees(self);
        let o = single_king(self.bbs[5].board) && single_king(self.bbs[11].board);
        let s = mover_safe(self);
        proof {
            assert((w && k) == (forall|cc: int| 0 <= cc < 2 ==> #[trigger] self.player_bbs[cc]@ == side_pieces(*self, cc)))
                by {
                if w && k {
                    assert forall|cc: int| 0 <= cc < 2 implies #[trigger] self.player_bbs[cc]@ == side_pieces(*self, cc) by {
                        if cc == 0 {
                        } else {
                        }
                    }
                }
            }
            assert(one_king(*self, 0) == single_king_spec(self.bbs[5].board));
            assert(one_king(*self, 1) == single_king_spec(self.bbs[11].board));
        }
        a && w && k && p && e && c && o && s
    }
}

/// A word holds at most one square.
pub open spec fn single_king_spec(k: u64) -> bool {
    forall|s1: int, s2: int| #[trigger] squares_of(k).contains(s1) && #[trigger] squares_of(k).contains(s2) ==> s1 == s2
}

} // verus!
