use vstd::prelude::*;
use crate::attacks::{king_attacks, king_targets, knight_attacks, knight_targets, pawn_attacks, pawn_targets};
use crate::bitboard::{Bitboard, bit, is_least, lemma_squares_ops, lemma_squares_shift, lemma_zero_iff_empty, squares_of};
use crate::piece_move::{Move, PromotionPiece};
use crate::sliding::queen_attacks;
use crate::board::Board;
use crate::pieces::Color;
use crate::sliding::{bishop_attacks, bishop_targets, queen_targets, rook_attacks, rook_targets};
use crate::sq::SQ;

verus! {

/// All occupied squares.
pub open spec fn occupied(b: Board) -> Set<int> {
    b.player_bbs[0]@ + b.player_bbs[1]@
}

/// First slot of side `c` in `Board::bbs`.
pub open spec fn base(c: Color) -> int {
    c.index() * 6
}

/// Two sets share a square.
pub open spec fn meets(a: Set<int>, b: Set<int>) -> bool {
    a.intersect(b) != Set::<int>::empty()
}

/// Side `by` attacks square `s`: one of its pawns, knights or king reaches it,
/// or a bishop/queen or rook/queen sees it along an unblocked line.
pub open spec fn attacked(b: Board, s: int, by: Color) -> bool {
    let o = base(by);
    ||| meets(pawn_targets(by.other(), s), b.bbs[o]@)
    ||| meets(knight_targets(s), b.bbs[o + 1]@)
    ||| meets(king_targets(s), b.bbs[o + 5]@)
    ||| meets(bishop_targets(s, occupied(b)), b.bbs[o + 2]@ + b.bbs[o + 4]@)
    ||| meets(rook_targets(s, occupied(b)), b.bbs[o + 3]@ + b.bbs[o + 4]@)
}

/// Whether side `by` attacks `sq`.
pub fn is_attacked(board: &Board, sq: SQ, by: Color) -> (r: bool)
    requires
        sq.0 < 64,
    ensures
        r == attacked(*board, sq.0 as int, by),
{
    proof {
        lemma_squares_ops();
    }
    let occ = Bitboard::from_u64(board.player_bbs[0].board | board.player_bbs[1].board);
    let off: usize = match by {
        Color::White => 0,
        Color::Black => 6,
    };
    let by_pawns = board.bbs[off].board;
    let pawn_atk = pawn_attacks(sq, by.opposite()).board;
    proof {
        lemma_zero_iff_empty(pawn_atk & by_pawns);
    }
    if pawn_atk & by_pawns != 0 {
        return true;
    }
    let knights = board.bbs[off + 1].board;
    let kn = knight_attacks(sq).board;
    proof {
        lemma_zero_iff_empty(kn & knights);
    }
    if kn & knights != 0 {
        return true;
    }
    let kings = board.bbs[off + 5].board;
    let ka = king_attacks(sq).board;
    proof {
        lemma_zero_iff_empty(ka & kings);
    }
    if ka & kings != 0 {
        return true;
    }
    let diag = board.bbs[off + 2].board | board.bbs[off + 4].board;
    let ba = bishop_attacks(sq, occ).board;
    proof {
        lemma_zero_iff_empty(ba & diag);
    }
    if ba & diag != 0 {
        return true;
    }
    let line = board.bbs[off + 3].board | board.bbs[off + 4].board;
    let ra = rook_attacks(sq, occ).board;
    proof {
        lemma_zero_iff_empty(ra & line);
    }
    if ra & line != 0 {
        return true;
    }
    false
}

/// The square of side `c`'s king: the least square of its king set.
pub open spec fn king_sq(b: Board, c: Color) -> Option<int> {
    let k = b.bbs[base(c) + 5]@;
    if k == Set::<int>::empty() {
        None
    } else {
        Some(choose|s: int| is_least(k, s))
    }
}

/// Where side `c`'s king stands (the least square of its king set), if anywhere.
pub fn king_square(board: &Board, c: Color) -> (r: Option<SQ>)
    ensures
        r is None <==> board.bbs[base(c) + 5]@ == Set::<int>::empty(),
        r matches Some(s) ==> s.0 < 64 && is_least(board.bbs[base(c) + 5]@, s.0 as int),
        r matches Some(s) ==> king_sq(*board, c) == Some(s.0 as int),
        r is None ==> king_sq(*board, c) is None,
{
    let idx: usize = match c {
        Color::White => 5,
        Color::Black => 11,
    };
    let bb = board.bbs[idx];
    if bb.is_empty() {
        None
    } else {
        let l = bb.get_lsb();
        proof {
            let s = choose|s: int| is_least(bb@, s);
            assert(is_least(bb@, l as int));
            assert(is_least(bb@, s));
            assert(s == l);
        }
        Some(SQ(l as u8))
    }
}

/// Side `c` is not in check: it has no king, or its king is not attacked.
pub open spec fn king_safe(b: Board, c: Color) -> bool {
    match king_sq(b, c) {
        Some(k) => !attacked(b, k, c.other()),
        None => true,
    }
}

/// Squares of the a-file.
pub const FILE_A: u64 = 0x0101_0101_0101_0101;
/// Squares of the h-file.
pub const FILE_H: u64 = 0x8080_8080_8080_8080;
/// Squares of the first rank.
pub const RANK_1: u64 = 0x0000_0000_0000_00FF;
/// Squares of the second rank.
pub const RANK_2: u64 = 0x0000_0000_0000_FF00;
/// Squares of the seventh rank.
pub const RANK_7: u64 = 0x00FF_0000_0000_0000;
/// Squares of the eighth rank.
pub const RANK_8: u64 = 0xFF00_0000_0000_0000;

/// Which squares the file and rank masks hold.
pub proof fn lemma_masks()
    by (bit_vector)
    ensures
        forall|j: u64| j < 64 ==> #[trigger] bit(0x0101_0101_0101_0101u64, j) == (j % 8 == 0),
        forall|j: u64| j < 64 ==> #[trigger] bit(0x8080_8080_8080_8080u64, j) == (j % 8 == 7),
        forall|j: u64| j < 64 ==> #[trigger] bit(0x0000_0000_0000_00FFu64, j) == (j < 8),
        forall|j: u64| j < 64 ==> #[trigger] bit(0x0000_0000_0000_FF00u64, j) == (8 <= j && j < 16),
        forall|j: u64| j < 64 ==> #[trigger] bit(0x00FF_0000_0000_0000u64, j) == (48 <= j && j < 56),
        forall|j: u64| j < 64 ==> #[trigger] bit(0xFF00_0000_0000_0000u64, j) == (56 <= j),
{
}

/// Square `t` is on the last rank for side `c`'s pawns.
pub open spec fn last_rank_square(c: Color, t: int) -> bool {
    if c == Color::White {
        t >= 56
    } else {
        t < 8
    }
}

/// A pawn move to `t` carries a promotion exactly when `t` is on the last rank.
pub open spec fn promotion_matches(c: Color, m: Move) -> bool {
    if last_rank_square(c, m.dest.0 as int) {
        m.promotion is Some
    } else {
        m.promotion is None
    }
}

/// One square forward for side `c`.
pub open spec fn forward(c: Color) -> int {
    if c == Color::White {
        8
    } else {
        -8
    }
}

/// A single pawn push onto an empty square.
pub open spec fn pawn_push(b: Board, c: Color, m: Move) -> bool {
    let f = m.src.0 as int;
    let t = m.dest.0 as int;
    &&& b.bbs[base(c)]@.contains(f)
    &&& t == f + forward(c)
    &&& 0 <= t < 64
    &&& !occupied(b).contains(t)
    &&& promotion_matches(c, m)
}

/// A double pawn push from the starting rank over an empty square onto an empty square.
pub open spec fn pawn_double_push(b: Board, c: Color, m: Move) -> bool {
    let f = m.src.0 as int;
    let t = m.dest.0 as int;
    &&& b.bbs[base(c)]@.contains(f)
    &&& (if c == Color::White {
        8 <= f < 16
    } else {
        48 <= f < 56
    })
    &&& t == f + 2 * forward(c)
    &&& !occupied(b).contains(f + forward(c))
    &&& !occupied(b).contains(t)
    &&& m.promotion is None
}

/// A pawn capture of an enemy piece.
pub open spec fn pawn_capture(b: Board, c: Color, m: Move) -> bool {
    let f = m.src.0 as int;
    let t = m.dest.0 as int;
    &&& b.bbs[base(c)]@.contains(f)
    &&& pawn_targets(c, f).contains(t)
    &&& b.player_bbs[c.other().index()]@.contains(t)
    &&& promotion_matches(c, m)
}

/// An en-passant capture onto the en-passant square.
pub open spec fn pawn_ep(b: Board, c: Color, m: Move) -> bool {
    &&& b.en_passant == Some(m.dest)
    &&& m.dest.0 < 64
    &&& b.bbs[base(c)]@.contains(m.src.0 as int)
    &&& pawn_targets(c.other(), m.dest.0 as int).contains(m.src.0 as int)
    &&& m.promotion is None
}

/// Squares the piece of kind `kind` (1..6) standing on `f` attacks.
pub open spec fn piece_targets(b: Board, kind: int, f: int) -> Set<int> {
    if kind == 1 {
        knight_targets(f)
    } else if kind == 2 {
        bishop_targets(f, occupied(b))
    } else if kind == 3 {
        rook_targets(f, occupied(b))
    } else if kind == 4 {
        queen_targets(f, occupied(b))
    } else {
        king_targets(f)
    }
}

/// A knight, bishop, rook, queen or king move to a square not held by its own side.
pub open spec fn piece_move(b: Board, c: Color, m: Move) -> bool {
    let f = m.src.0 as int;
    let t = m.dest.0 as int;
    &&& m.promotion is None
    &&& exists|kind: int|
        1 <= kind <= 5 && #[trigger] b.bbs[base(c) + kind]@.contains(f) && piece_targets(b, kind, f).contains(t)
    &&& !b.player_bbs[c.index()]@.contains(t)
}

/// A castling move: the king's home square is not attacked, the right is held,
/// the squares between king and rook are empty and those the king crosses or
/// lands on are not attacked.
pub open spec fn castle_move(b: Board, c: Color, m: Move) -> bool {
    let home = if c == Color::White {
        4int
    } else {
        60int
    };
    let occ = occupied(b);
    let opp = c.other();
    &&& !attacked(b, home, opp)
    &&& m.src.0 == home
    &&& m.promotion is None
    &&& {
        ||| {
            &&& b.castling.0 & (if c == Color::White {
                1u8
            } else {
                4u8
            }) != 0
            &&& m.dest.0 == home + 2
            &&& !occ.contains(home + 1) && !occ.contains(home + 2)
            &&& !attacked(b, home + 1, opp) && !attacked(b, home + 2, opp)
        }
        ||| {
            &&& b.castling.0 & (if c == Color::White {
                2u8
            } else {
                8u8
            }) != 0
            &&& m.dest.0 == home - 2
            &&& !occ.contains(home - 3) && !occ.contains(home - 2) && !occ.contains(home - 1)
            &&& !attacked(b, home - 1, opp) && !attacked(b, home - 2, opp)
        }
    }
}

/// The moves the generator produces before checking king safety.
pub open spec fn pseudo_legal(b: Board, m: Move) -> bool {
    let c = b.side_to_move;
    ||| pawn_push(b, c, m)
    ||| pawn_double_push(b, c, m)
    ||| pawn_capture(b, c, m)
    ||| pawn_ep(b, c, m)
    ||| piece_move(b, c, m)
    ||| castle_move(b, c, m)
}

/// A legal move: pseudo-legal, accepted by `apply_move`, and not leaving the
/// mover's king attacked.
pub open spec fn legal(b: Board, m: Move) -> bool {
    &&& pseudo_legal(b, m)
    &&& b.move_outcome(m) is Ok
    &&& forall|a: Board| b.played(m, a) ==> king_safe(a, b.side_to_move)
}

/// Castling needs the squares between king and rook empty, the right held, and
/// the king neither in check nor crossing or landing on an attacked square. A
/// legal move of the side to move from its king's home square two files
/// towards the a-file, with no piece of that side but a king on the home
/// square, leaves the b-, c- and d-squares of the home rank empty; two files
/// towards the h-file, the f- and g-squares.
pub proof fn law_castling_path_is_empty(b: Board, m: Move)
    requires
        legal(b, m),
        m.src.0 == (if b.side_to_move == Color::White {
            4int
        } else {
            60int
        }),
        forall|k: int| 0 <= k < 5 ==> !(#[trigger] b.bbs[base(b.side_to_move) + k]@).contains(m.src.0 as int),
    ensures
        m.dest.0 == m.src.0 - 2 ==> {
            &&& !occupied(b).contains(m.src.0 - 1)
            &&& !occupied(b).contains(m.src.0 - 2)
            &&& !occupied(b).contains(m.src.0 - 3)
        },
        m.dest.0 == m.src.0 + 2 ==> !occupied(b).contains(m.src.0 + 1) && !occupied(b).contains(m.src.0 + 2),
        m.dest.0 == m.src.0 - 2 || m.dest.0 == m.src.0 + 2 ==> {
            &&& !attacked(b, m.src.0 as int, b.side_to_move.other())
            &&& !attacked(b, (m.src.0 + m.dest.0) / 2, b.side_to_move.other())
            &&& !attacked(b, m.dest.0 as int, b.side_to_move.other())
            &&& b.castling.0 & (if b.side_to_move == Color::White {
                if m.dest.0 == m.src.0 + 2 {
                    1u8
                } else {
                    2u8
                }
            } else {
                if m.dest.0 == m.src.0 + 2 {
                    4u8
                } else {
                    8u8
                }
            }) != 0
        },
{
    let c = b.side_to_move;
    let f = m.src.0 as int;
    assert(!b.bbs[base(c) + 0]@.contains(f));
    if m.dest.0 == f - 2 || m.dest.0 == f + 2 {
        if piece_move(b, c, m) {
            let kind = choose|kind: int|
                1 <= kind <= 5 && #[trigger] b.bbs[base(c) + kind]@.contains(f) && piece_targets(b, kind, f).contains(
                    m.dest.0 as int,
                );
            assert(!b.bbs[base(c) + 1]@.contains(f));
            assert(!b.bbs[base(c) + 2]@.contains(f));
            assert(!b.bbs[base(c) + 3]@.contains(f));
            assert(!b.bbs[base(c) + 4]@.contains(f));
            assert(kind == 5);
            assert(!king_targets(f).contains(m.dest.0 as int));
        }
        assert(castle_move(b, c, m));
    }
}

/// Boards the generator runs on without failing: the en-passant square, if
/// any, is on the board, and `apply_move` accepts every pseudo-legal move.
pub open spec fn gen_ok(b: Board) -> bool {
    &&& b.en_passant matches Some(e) ==> e.0 < 64
    &&& forall|m: Move| pseudo_legal(b, m) ==> b.move_applicable(m)
}

/// A move to a square of `targets` from `delta` squares behind it, promoting
/// (to any piece) exactly when `promo` is set.
pub open spec fn target_move(targets: Set<int>, delta: int, promo: bool, m: Move) -> bool {
    &&& targets.contains(m.dest.0 as int)
    &&& m.src.0 == m.dest.0 - delta
    &&& (if promo {
        m.promotion is Some
    } else {
        m.promotion is None
    })
}

/// What a sequence holds after a push.
pub proof fn lemma_push_contains(s: Seq<Move>, x: Move)
    ensures
        forall|m: Move| #[trigger] s.push(x).contains(m) <==> s.contains(m) || m == x,
{
    assert forall|m: Move| #[trigger] s.push(x).contains(m) <==> s.contains(m) || m == x by {
        if s.push(x).contains(m) {
            let j = choose|j: int| 0 <= j < s.push(x).len() && s.push(x)[j] == m;
            if j < s.len() {
                assert(s[j] == m);
            }
        }
        if s.contains(m) {
            let j = choose|j: int| 0 <= j < s.len() && s[j] == m;
            assert(s.push(x)[j] == m);
        }
        if m == x {
            assert(s.push(x)[s.len() as int] == m);
        }
    }
}

/// No square holds two pieces.
pub open spec fn slots_apart(b: Board) -> bool {
    forall|i: int, j: int| 0 <= i < 12 && 0 <= j < 12 && i != j ==> (#[trigger] b.bbs[i]@).disjoint(#[trigger] b.bbs[j]@)
}

/// The moves of `s` from index `k` on are pairwise different.
pub open spec fn distinct_from(s: Seq<Move>, k: int) -> bool {
    forall|i: int, j: int| k <= i < j < s.len() ==> #[trigger] s[i] != #[trigger] s[j]
}

/// `t` starts with the moves of `s`.
pub open spec fn extends(t: Seq<Move>, s: Seq<Move>) -> bool {
    s.len() <= t.len() && forall|i: int| 0 <= i < s.len() ==> #[trigger] t[i] == s[i]
}

/// Two runs of pairwise different moves, where the moves of the first run have
/// a property that no move of the second run has, join into one such run.
pub proof fn lemma_distinct_join(
    s: Seq<Move>,
    t: Seq<Move>,
    k: int,
    p: spec_fn(Move) -> bool,
    q: spec_fn(Move) -> bool,
)
    requires
        0 <= k <= s.len(),
        extends(t, s),
        distinct_from(s, k),
        distinct_from(t, s.len() as int),
        forall|i: int| k <= i < s.len() ==> p(#[trigger] s[i]),
        forall|j: int| s.len() <= j < t.len() ==> q(#[trigger] t[j]),
        forall|m: Move| #[trigger] p(m) ==> !q(m),
    ensures
        distinct_from(t, k),
        forall|i: int| k <= i < t.len() ==> p(#[trigger] t[i]) || q(t[i]),
{
    assert forall|i: int, j: int| k <= i < j < t.len() implies #[trigger] t[i] != #[trigger] t[j] by {
        if i < s.len() {
            assert(t[i] == s[i]);
            assert(p(s[i]));
            if j < s.len() {
                assert(t[j] == s[j]);
            } else {
                assert(q(t[j]));
            }
        }
    }
    assert forall|i: int| k <= i < t.len() implies p(#[trigger] t[i]) || q(t[i]) by {
        if i < s.len() {
            assert(t[i] == s[i]);
            assert(p(s[i]));
        }
    }
}

/// Pushes the four promotions of the pawn move `from`-`to`.
fn push_promotions(moves: &mut Vec<Move>, from: SQ, to: SQ)
    ensures
        forall|m: Move| #[trigger] final(moves)@.contains(m) <==> old(moves)@.contains(m) || (m.src == from
            && m.dest == to && m.promotion is Some),
        extends(final(moves)@, old(moves)@),
        distinct_from(final(moves)@, old(moves)@.len() as int),
        forall|i: int| old(moves)@.len() <= i < final(moves)@.len() ==> (#[trigger] final(moves)@[i]).src == from
            && final(moves)@[i].dest == to && final(moves)@[i].promotion is Some,
{
    let ghost start = moves@;
    let q = Move::with_promotion(from, to, PromotionPiece::Queen);
    let r = Move::with_promotion(from, to, PromotionPiece::Rook);
    let b = Move::with_promotion(from, to, PromotionPiece::Bishop);
    let n = Move::with_promotion(from, to, PromotionPiece::Knight);
    proof {
        lemma_push_contains(start, q);
        lemma_push_contains(start.push(q), r);
        lemma_push_contains(start.push(q).push(r), b);
        lemma_push_contains(start.push(q).push(r).push(b), n);
    }
    moves.push(q);
    moves.push(r);
    moves.push(b);
    moves.push(n);
    proof {
        assert forall|m: Move| #[trigger] moves@.contains(m) <==> start.contains(m) || (m.src == from
            && m.dest == to && m.promotion is Some) by {
            if m.src == from && m.dest == to && m.promotion is Some {
                match m.promotion.unwrap() {
                    PromotionPiece::Queen => assert(m == q),
                    PromotionPiece::Rook => assert(m == r),
                    PromotionPiece::Bishop => assert(m == b),
                    PromotionPiece::Knight => assert(m == n),
                }
            }
        }
    }
}

/// Pushes, for every square `to` of `targets`, the pawn move from `to - delta`
/// (all four promotions when `promo`).
fn push_pawn_targets(moves: &mut Vec<Move>, targets: u64, delta: i32, promo: bool)
    requires
        -16 <= delta <= 16,
        forall|t: int| squares_of(targets).contains(t) ==> 0 <= t - delta < 64,
    ensures
        forall|m: Move| #[trigger] final(moves)@.contains(m) <==> old(moves)@.contains(m) || target_move(
            squares_of(targets),
            delta as int,
            promo,
            m,
        ),
        extends(final(moves)@, old(moves)@),
        distinct_from(final(moves)@, old(moves)@.len() as int),
        forall|i: int| old(moves)@.len() <= i < final(moves)@.len() ==> target_move(
            squares_of(targets),
            delta as int,
            promo,
            #[trigger] final(moves)@[i],
        ),
{
    let ghost start = moves@;
    let ghost all = squares_of(targets);
    let mut rest = Bitboard::from_u64(targets);
    loop
        invariant
            rest@.subset_of(all),
            all == squares_of(targets),
            -16 <= delta <= 16,
            forall|t: int| all.contains(t) ==> 0 <= t - delta < 64,
            forall|m: Move| #[trigger] moves@.contains(m) <==> start.contains(m) || target_move(
                all.difference(rest@),
                delta as int,
                promo,
                m,
            ),
            extends(moves@, start),
            distinct_from(moves@, start.len() as int),
            forall|i: int| start.len() <= i < moves@.len() ==> target_move(
                all.difference(rest@),
                delta as int,
                promo,
                #[trigger] moves@[i],
            ),
        ensures
            forall|m: Move| #[trigger] moves@.contains(m) <==> start.contains(m) || target_move(
                all,
                delta as int,
                promo,
                m,
            ),
            extends(moves@, start),
            distinct_from(moves@, start.len() as int),
            forall|i: int| start.len() <= i < moves@.len() ==> target_move(
                all,
                delta as int,
                promo,
                #[trigger] moves@[i],
            ),
        decreases rest.board,
    {
        let ghost before = rest@;
        let ghost moves_before = moves@;
        match rest.pop() {
            Some(to) => {
                let from = SQ((to as i32 - delta) as u8);
                let dest = SQ(to as u8);
                if promo {
                    push_promotions(moves, from, dest);
                } else {
                    proof {
                        lemma_push_contains(moves@, Move { src: from, dest, promotion: None });
                    }
                    moves.push(Move::new(from, dest));
                }
                proof {
                    assert(all.difference(rest@) =~= all.difference(before).insert(to as int));
                    let done = all.difference(before);
                    lemma_distinct_join(
                        moves_before,
                        moves@,
                        start.len() as int,
                        |m: Move| target_move(done, delta as int, promo, m),
                        |m: Move| m.dest == dest && m.src == from && (if promo {
                            m.promotion is Some
                        } else {
                            m.promotion is None
                        }),
                    );
                    assert forall|i: int| start.len() <= i < moves@.len() implies target_move(
                        all.difference(rest@),
                        delta as int,
                        promo,
                        #[trigger] moves@[i],
                    ) by {
                        if i < moves_before.len() {
                            assert(moves@[i] == moves_before[i]);
                        }
                    }
                }
            },
            None => {
                proof {
                    lemma_squares_ops();
                    assert(all.difference(rest@) =~= all);
                }
                break;
            },
        }
    }
}

/// Pushes a move from `from` to every square of `targets`.
fn push_piece_targets(moves: &mut Vec<Move>, from: SQ, targets: u64)
    ensures
        forall|m: Move| #[trigger] final(moves)@.contains(m) <==> old(moves)@.contains(m) || (m.src == from
            && m.promotion is None && squares_of(targets).contains(m.dest.0 as int)),
        extends(final(moves)@, old(moves)@),
        distinct_from(final(moves)@, old(moves)@.len() as int),
        forall|i: int| old(moves)@.len() <= i < final(moves)@.len() ==> (#[trigger] final(moves)@[i]).src == from
            && final(moves)@[i].promotion is None && squares_of(targets).contains(final(moves)@[i].dest.0 as int),
{
    let ghost start = moves@;
    let ghost all = squares_of(targets);
    let mut rest = Bitboard::from_u64(targets);
    loop
        invariant
            rest@.subset_of(all),
            all == squares_of(targets),
            forall|m: Move| #[trigger] moves@.contains(m) <==> start.contains(m) || (m.src == from
                && m.promotion is None && all.difference(rest@).contains(m.dest.0 as int)),
            extends(moves@, start),
            distinct_from(moves@, start.len() as int),
            forall|i: int| start.len() <= i < moves@.len() ==> (#[trigger] moves@[i]).src == from
                && moves@[i].promotion is None && all.difference(rest@).contains(moves@[i].dest.0 as int),
        ensures
            forall|m: Move| #[trigger] moves@.contains(m) <==> start.contains(m) || (m.src == from
                && m.promotion is None && all.contains(m.dest.0 as int)),
            extends(moves@, start),
            distinct_from(moves@, start.len() as int),
            forall|i: int| start.len() <= i < moves@.len() ==> (#[trigger] moves@[i]).src == from
                && moves@[i].promotion is None && all.contains(moves@[i].dest.0 as int),
        decreases rest.board,
    {
        let ghost before = rest@;
        let ghost moves_before = moves@;
        match rest.pop() {
            Some(to) => {
                proof {
                    lemma_push_contains(moves@, Move { src: from, dest: SQ(to as u8), promotion: None });
                }
                moves.push(Move::new(from, SQ(to as u8)));
                proof {
                    assert(all.difference(rest@) =~= all.difference(before).insert(to as int));
                    let done = all.difference(before);
                    lemma_distinct_join(
                        moves_before,
                        moves@,
                        start.len() as int,
                        |m: Move| done.contains(m.dest.0 as int),
                        |m: Move| m.dest.0 == to,
                    );
                    assert forall|i: int| start.len() <= i < moves@.len() implies (#[trigger] moves@[i]).src == from
                        && moves@[i].promotion is None && all.difference(rest@).contains(moves@[i].dest.0 as int) by {
                        if i < moves_before.len() {
                            assert(moves@[i] == moves_before[i]);
                        }
                    }
                }
            },
            None => {
                proof {
                    lemma_squares_ops();
                    assert(all.difference(rest@) =~= all);
                }
                break;
            },
        }
    }
}

/// Pushes a move to `to` from every square of `sources`.
fn push_source_moves(moves: &mut Vec<Move>, to: SQ, sources: u64)
    ensures
        forall|m: Move| #[trigger] final(moves)@.contains(m) <==> old(moves)@.contains(m) || (m.dest == to
            && m.promotion is None && squares_of(sources).contains(m.src.0 as int)),
        extends(final(moves)@, old(moves)@),
        distinct_from(final(moves)@, old(moves)@.len() as int),
        forall|i: int| old(moves)@.len() <= i < final(moves)@.len() ==> (#[trigger] final(moves)@[i]).dest == to
            && final(moves)@[i].promotion is None && squares_of(sources).contains(final(moves)@[i].src.0 as int),
{
    let ghost start = moves@;
    let ghost all = squares_of(sources);
    let mut rest = Bitboard::from_u64(sources);
    loop
        invariant
            rest@.subset_of(all),
            all == squares_of(sources),
            forall|m: Move| #[trigger] moves@.contains(m) <==> start.contains(m) || (m.dest == to
                && m.promotion is None && all.difference(rest@).contains(m.src.0 as int)),
            extends(moves@, start),
            distinct_from(moves@, start.len() as int),
            forall|i: int| start.len() <= i < moves@.len() ==> (#[trigger] moves@[i]).dest == to
                && moves@[i].promotion is None && all.difference(rest@).contains(moves@[i].src.0 as int),
        ensures
            forall|m: Move| #[trigger] moves@.contains(m) <==> start.contains(m) || (m.dest == to
                && m.promotion is None && all.contains(m.src.0 as int)),
            extends(moves@, start),
            distinct_from(moves@, start.len() as int),
            forall|i: int| start.len() <= i < moves@.len() ==> (#[trigger] moves@[i]).dest == to
                && moves@[i].promotion is None && all.contains(moves@[i].src.0 as int),
        decreases rest.board,
    {
        let ghost before = rest@;
        let ghost moves_before = moves@;
        match rest.pop() {
            Some(from) => {
                proof {
                    lemma_push_contains(moves@, Move { src: SQ(from as u8), dest: to, promotion: None });
                }
                moves.push(Move::new(SQ(from as u8), to));
                proof {
                    assert(all.difference(rest@) =~= all.difference(before).insert(from as int));
                    let done = all.difference(before);
                    lemma_distinct_join(
                        moves_before,
                        moves@,
                        start.len() as int,
                        |m: Move| done.contains(m.src.0 as int),
                        |m: Move| m.src.0 == from,
                    );
                    assert forall|i: int| start.len() <= i < moves@.len() implies (#[trigger] moves@[i]).dest == to
                        && moves@[i].promotion is None && all.difference(rest@).contains(moves@[i].src.0 as int) by {
                        if i < moves_before.len() {
                            assert(moves@[i] == moves_before[i]);
                        }
                    }
                }
            },
            None => {
                proof {
                    lemma_squares_ops();
                    assert(all.difference(rest@) =~= all);
                }
                break;
            },
        }
    }
}

/// The pawn moves of side `c`.
pub open spec fn pawn_moves(b: Board, c: Color, m: Move) -> bool {
    ||| pawn_push(b, c, m)
    ||| pawn_double_push(b, c, m)
    ||| pawn_capture(b, c, m)
    ||| pawn_ep(b, c, m)
}

/// What keeps the generator from producing a move twice: no square holds two
/// pieces, the en-passant square is empty, and each castling right of the side
/// to move has its king on the home square.
pub open spec fn gen_distinct(b: Board) -> bool {
    let c = b.side_to_move;
    let home = if c == Color::White {
        4int
    } else {
        60int
    };
    &&& slots_apart(b)
    &&& ep_clear(b)
    &&& b.castling.0 & (if c == Color::White {
        1u8
    } else {
        4u8
    }) != 0 ==> b.bbs[base(c) + 5]@.contains(home)
    &&& b.castling.0 & (if c == Color::White {
        2u8
    } else {
        8u8
    }) != 0 ==> b.bbs[base(c) + 5]@.contains(home)
}

/// The en-passant square, if any, is empty.
pub open spec fn ep_clear(b: Board) -> bool {
    b.en_passant matches Some(e) ==> !occupied(b).contains(e.0 as int)
}

/// Pushes white's pawn moves: pushes, double pushes, captures (with the four
/// promotions on the last rank) and en passant.
fn generate_white_pawn_moves(board: &Board, moves: &mut Vec<Move>)
    requires
        board.en_passant matches Some(e) ==> e.0 < 64,
    ensures
        forall|m: Move| #[trigger] final(moves)@.contains(m) <==> old(moves)@.contains(m) || pawn_moves(
            *board,
            Color::White,
            m,
        ),
        extends(final(moves)@, old(moves)@),
        ep_clear(*board) ==> distinct_from(final(moves)@, old(moves)@.len() as int),
        forall|i: int| old(moves)@.len() <= i < final(moves)@.len() ==> pawn_moves(
            *board,
            Color::White,
            #[trigger] final(moves)@[i],
        ),
{
    let ghost start = moves@;
    let pawns = board.bbs[0].board;
    let our = board.player_bbs[0].board;
    let enemy = board.player_bbs[1].board;
    let occ = our | enemy;
    let empty = !occ;
    let ghost b = *board;
    let ghost pset = b.bbs[0]@;
    proof {
        lemma_squares_ops();
        lemma_masks();
        lemma_squares_shift(pawns, 8);
        lemma_squares_shift(occ, 8);
        assert(squares_of(occ) == occupied(b));
    }

    let single = (pawns << 8) & empty;
    let single_quiet = single & !RANK_8;
    let single_promo = single & RANK_8;
    proof {
        lemma_squares_shift(RANK_8, 8);
        assert forall|t: int| #[trigger] squares_of(single).contains(t) <==> (0 <= t < 64 && t >= 8
            && pset.contains(t - 8) && !occupied(b).contains(t)) by {}
        assert forall|t: int| #[trigger] squares_of(single_quiet).contains(t) <==> (squares_of(single).contains(t) && t < 56) by {
            if 0 <= t < 64 {
                assert(bit(0xFF00_0000_0000_0000u64, t as u64) == (56 <= t as u64));
            }
        }
        assert forall|t: int| #[trigger] squares_of(single_promo).contains(t) <==> (squares_of(single).contains(t) && t >= 56) by {
            if 0 <= t < 64 {
                assert(bit(0xFF00_0000_0000_0000u64, t as u64) == (56 <= t as u64));
            }
        }
    }
    push_pawn_targets(moves, single_quiet, 8, false);
    push_pawn_targets(moves, single_promo, 8, true);
    let ghost after_single = moves@;
    proof {
        assert forall|m: Move| #[trigger] after_single.contains(m) <==> start.contains(m) || pawn_push(b, Color::White, m) by {
            if pawn_push(b, Color::White, m) {
                if m.dest.0 >= 56 {
                    assert(target_move(squares_of(single_promo), 8, true, m));
                } else {
                    assert(target_move(squares_of(single_quiet), 8, false, m));
                }
            }
        }
    }

    let lifted = ((pawns & RANK_2) << 8) & empty;
    let dp = (lifted << 8) & empty;
    proof {
        lemma_squares_shift(pawns & RANK_2, 8);
        lemma_squares_shift(lifted, 8);
        assert forall|t: int| #[trigger] squares_of(pawns & RANK_2).contains(t) <==> (pset.contains(t) && 8 <= t < 16) by {
            if 0 <= t < 64 {
                assert(bit(0x0000_0000_0000_FF00u64, t as u64) == (8 <= (t as u64) && (t as u64) < 16));
            }
        }
        assert forall|t: int| #[trigger] squares_of(dp).contains(t) <==> (16 <= t < 64 && pset.contains(t - 16)
            && 8 <= t - 16 < 16 && !occupied(b).contains(t - 8) && !occupied(b).contains(t)) by {}
    }
    push_pawn_targets(moves, dp, 16, false);
    let ghost after_double = moves@;
    proof {
        assert forall|m: Move| #[trigger] after_double.contains(m) <==> after_single.contains(m) || pawn_double_push(b, Color::White, m) by {
            if pawn_double_push(b, Color::White, m) {
                assert(target_move(squares_of(dp), 16, false, m));
            }
        }
    }

    let cap_nw = ((pawns & !FILE_A) << 7) & enemy;
    let cap_ne = ((pawns & !FILE_H) << 9) & enemy;
    proof {
        lemma_squares_shift(FILE_A, 0);
        lemma_squares_shift(FILE_H, 0);
        lemma_squares_shift(RANK_8, 0);
        lemma_squares_shift(pawns & !FILE_A, 7);
        lemma_squares_shift(pawns & !FILE_H, 9);
        assert forall|t: int| #[trigger] squares_of(pawns & !FILE_A).contains(t) <==> (pset.contains(t) && t % 8 != 0) by {
            if 0 <= t < 64 {
                assert(bit(0x0101_0101_0101_0101u64, t as u64) == ((t as u64) % 8 == 0));
            }
        }
        assert forall|t: int| #[trigger] squares_of(pawns & !FILE_H).contains(t) <==> (pset.contains(t) && t % 8 != 7) by {
            if 0 <= t < 64 {
                assert(bit(0x8080_8080_8080_8080u64, t as u64) == ((t as u64) % 8 == 7));
            }
        }
        assert forall|t: int| #[trigger] squares_of(RANK_8).contains(t) <==> (56 <= t < 64) by {
            if 0 <= t < 64 {
                assert(bit(0xFF00_0000_0000_0000u64, t as u64) == (56 <= t as u64));
            }
        }
    }
    push_pawn_targets(moves, cap_nw & !RANK_8, 7, false);
    push_pawn_targets(moves, cap_nw & RANK_8, 7, true);
    push_pawn_targets(moves, cap_ne & !RANK_8, 9, false);
    push_pawn_targets(moves, cap_ne & RANK_8, 9, true);
    let ghost after_captures = moves@;
    proof {
        assert forall|m: Move| #[trigger] after_captures.contains(m) <==> after_double.contains(m) || pawn_capture(b, Color::White, m) by {
            let f = m.src.0 as int;
            let t = m.dest.0 as int;
            if pawn_capture(b, Color::White, m) {
                if t % 8 < f % 8 {
                    assert(t == f + 7);
                    if t >= 56 {
                        assert(target_move(squares_of(cap_nw & RANK_8), 7, true, m));
                    } else {
                        assert(target_move(squares_of(cap_nw & !RANK_8), 7, false, m));
                    }
                } else {
                    assert(t == f + 9);
                    if t >= 56 {
                        assert(target_move(squares_of(cap_ne & RANK_8), 9, true, m));
                    } else {
                        assert(target_move(squares_of(cap_ne & !RANK_8), 9, false, m));
                    }
                }
            }
            if target_move(squares_of(cap_nw & RANK_8), 7, true, m) || target_move(squares_of(cap_nw & !RANK_8), 7, false, m) {
                assert(pawn_targets(Color::White, f).contains(t));
            }
            if target_move(squares_of(cap_ne & RANK_8), 9, true, m) || target_move(squares_of(cap_ne & !RANK_8), 9, false, m) {
                assert(pawn_targets(Color::White, f).contains(t));
            }
        }
    }

    if let Some(ep) = board.en_passant {
        let attackers = pawn_attacks(ep, Color::Black).board & pawns;
        push_source_moves(moves, ep, attackers);
        proof {
            assert forall|m: Move| #[trigger] moves@.contains(m) <==> after_captures.contains(m) || pawn_ep(b, Color::White, m) by {}
        }
    }
}

/// Pushes black's pawn moves: pushes, double pushes, captures (with the four
/// promotions on the last rank) and en passant.
fn generate_black_pawn_moves(board: &Board, moves: &mut Vec<Move>)
    requires
        board.en_passant matches Some(e) ==> e.0 < 64,
    ensures
        forall|m: Move| #[trigger] final(moves)@.contains(m) <==> old(moves)@.contains(m) || pawn_moves(
            *board,
            Color::Black,
            m,
        ),
        extends(final(moves)@, old(moves)@),
        ep_clear(*board) ==> distinct_from(final(moves)@, old(moves)@.len() as int),
        forall|i: int| old(moves)@.len() <= i < final(moves)@.len() ==> pawn_moves(
            *board,
            Color::Black,
            #[trigger] final(moves)@[i],
        ),
{
    let ghost start = moves@;
    let pawns = board.bbs[6].board;
    let our = board.player_bbs[1].board;
    let enemy = board.player_bbs[0].board;
    let occ = our | enemy;
    let empty = !occ;
    let ghost b = *board;
    let ghost pset = b.bbs[6]@;
    proof {
        lemma_squares_ops();
        lemma_masks();
        lemma_squares_shift(pawns, 8);
        lemma_squares_shift(occ, 8);
        assert(squares_of(occ) =~= occupied(b));
    }

    let single = (pawns >> 8) & empty;
    let single_quiet = single & !RANK_1;
    let single_promo = single & RANK_1;
    proof {
        lemma_squares_shift(RANK_1, 8);
        assert forall|t: int| #[trigger] squares_of(single).contains(t) <==> (0 <= t < 56
            && pset.contains(t + 8) && !occupied(b).contains(t)) by {}
        assert forall|t: int| #[trigger] squares_of(single_quiet).contains(t) <==> (squares_of(single).contains(t) && t >= 8) by {
            if 0 <= t < 64 {
                assert(bit(0x0000_0000_0000_00FFu64, t as u64) == ((t as u64) < 8));
            }
        }
        assert forall|t: int| #[trigger] squares_of(single_promo).contains(t) <==> (squares_of(single).contains(t) && t < 8) by {
            if 0 <= t < 64 {
                assert(bit(0x0000_0000_0000_00FFu64, t as u64) == ((t as u64) < 8));
            }
        }
    }
    push_pawn_targets(moves, single_quiet, -8, false);
    push_pawn_targets(moves, single_promo, -8, true);
    let ghost after_single = moves@;
    proof {
        assert forall|m: Move| #[trigger] after_single.contains(m) <==> start.contains(m) || pawn_push(b, Color::Black, m) by {
            if pawn_push(b, Color::Black, m) {
                if m.dest.0 < 8 {
                    assert(target_move(squares_of(single_promo), -8, true, m));
                } else {
                    assert(target_move(squares_of(single_quiet), -8, false, m));
                }
            }
        }
    }

    let lowered = ((pawns & RANK_7) >> 8) & empty;
    let dp = (lowered >> 8) & empty;
    proof {
        lemma_squares_shift(pawns & RANK_7, 8);
        lemma_squares_shift(lowered, 8);
        assert forall|t: int| #[trigger] squares_of(pawns & RANK_7).contains(t) <==> (pset.contains(t) && 48 <= t < 56) by {
            if 0 <= t < 64 {
                assert(bit(0x00FF_0000_0000_0000u64, t as u64) == (48 <= (t as u64) && (t as u64) < 56));
            }
        }
        assert forall|t: int| #[trigger] squares_of(dp).contains(t) <==> (0 <= t < 48 && pset.contains(t + 16)
            && 48 <= t + 16 < 56 && !occupied(b).contains(t + 8) && !occupied(b).contains(t)) by {}
    }
    push_pawn_targets(moves, dp, -16, false);
    let ghost after_double = moves@;
    proof {
        assert forall|m: Move| #[trigger] after_double.contains(m) <==> after_single.contains(m) || pawn_double_push(b, Color::Black, m) by {
            if pawn_double_push(b, Color::Black, m) {
                assert(target_move(squares_of(dp), -16, false, m));
            }
        }
    }

    let cap_se = ((pawns & !FILE_H) >> 7) & enemy;
    let cap_sw = ((pawns & !FILE_A) >> 9) & enemy;
    proof {
        lemma_squares_shift(FILE_A, 0);
        lemma_squares_shift(FILE_H, 0);
        lemma_squares_shift(RANK_1, 0);
        lemma_squares_shift(pawns & !FILE_H, 7);
        lemma_squares_shift(pawns & !FILE_A, 9);
        assert forall|t: int| #[trigger] squares_of(pawns & !FILE_A).contains(t) <==> (pset.contains(t) && t % 8 != 0) by {
            if 0 <= t < 64 {
                assert(bit(0x0101_0101_0101_0101u64, t as u64) == ((t as u64) % 8 == 0));
            }
        }
        assert forall|t: int| #[trigger] squares_of(pawns & !FILE_H).contains(t) <==> (pset.contains(t) && t % 8 != 7) by {
            if 0 <= t < 64 {
                assert(bit(0x8080_8080_8080_8080u64, t as u64) == ((t as u64) % 8 == 7));
            }
        }
        assert forall|t: int| #[trigger] squares_of(RANK_1).contains(t) <==> (0 <= t < 8) by {
            if 0 <= t < 64 {
                assert(bit(0x0000_0000_0000_00FFu64, t as u64) == ((t as u64) < 8));
            }
        }
    }
    push_pawn_targets(moves, cap_se & !RANK_1, -7, false);
    push_pawn_targets(moves, cap_se & RANK_1, -7, true);
    push_pawn_targets(moves, cap_sw & !RANK_1, -9, false);
    push_pawn_targets(moves, cap_sw & RANK_1, -9, true);
    let ghost after_captures = moves@;
    proof {
        assert forall|m: Move| #[trigger] after_captures.contains(m) <==> after_double.contains(m) || pawn_capture(b, Color::Black, m) by {
            let f = m.src.0 as int;
            let t = m.dest.0 as int;
            if pawn_capture(b, Color::Black, m) {
                if t % 8 > f % 8 {
                    assert(t == f - 7);
                    if t < 8 {
                        assert(target_move(squares_of(cap_se & RANK_1), -7, true, m));
                    } else {
                        assert(target_move(squares_of(cap_se & !RANK_1), -7, false, m));
                    }
                } else {
                    assert(t == f - 9);
                    if t < 8 {
                        assert(target_move(squares_of(cap_sw & RANK_1), -9, true, m));
                    } else {
                        assert(target_move(squares_of(cap_sw & !RANK_1), -9, false, m));
                    }
                }
            }
            if target_move(squares_of(cap_se & RANK_1), -7, true, m) || target_move(squares_of(cap_se & !RANK_1), -7, false, m) {
                assert(pawn_targets(Color::Black, f).contains(t));
            }
            if target_move(squares_of(cap_sw & RANK_1), -9, true, m) || target_move(squares_of(cap_sw & !RANK_1), -9, false, m) {
                assert(pawn_targets(Color::Black, f).contains(t));
            }
        }
    }

    if let Some(ep) = board.en_passant {
        let attackers = pawn_attacks(ep, Color::White).board & pawns;
        push_source_moves(moves, ep, attackers);
        proof {
            assert forall|m: Move| #[trigger] moves@.contains(m) <==> after_captures.contains(m) || pawn_ep(b, Color::Black, m) by {}
        }
    }
}

/// A move of side `c`'s piece of kind `kind` to a square its side does not hold.
pub open spec fn kind_move(b: Board, c: Color, kind: int, m: Move) -> bool {
    &&& m.promotion is None
    &&& b.bbs[base(c) + kind]@.contains(m.src.0 as int)
    &&& piece_targets(b, kind, m.src.0 as int).contains(m.dest.0 as int)
    &&& !b.player_bbs[c.index()]@.contains(m.dest.0 as int)
}

/// Pushes the moves of the side to move's pieces of kind `kind` (1..6).
fn push_kind_moves(board: &Board, moves: &mut Vec<Move>, kind: usize)
    requires
        1 <= kind <= 5,
    ensures
        forall|m: Move| #[trigger] final(moves)@.contains(m) <==> old(moves)@.contains(m) || kind_move(
            *board,
            board.side_to_move,
            kind as int,
            m,
        ),
        extends(final(moves)@, old(moves)@),
        distinct_from(final(moves)@, old(moves)@.len() as int),
        forall|i: int| old(moves)@.len() <= i < final(moves)@.len() ==> kind_move(
            *board,
            board.side_to_move,
            kind as int,
            #[trigger] final(moves)@[i],
        ),
{
    let ghost start = moves@;
    let ghost b = *board;
    let us = board.side_to_move;
    let off: usize = match us {
        Color::White => 0,
        Color::Black => 6,
    };
    let own = board.player_bbs[us.to_index()].board;
    let not_us = !own;
    let occ = Bitboard::from_u64(board.player_bbs[0].board | board.player_bbs[1].board);
    proof {
        lemma_squares_ops();
        lemma_squares_shift(own, 0);
        assert(occ@ =~= occupied(b));
    }
    let ghost all = board.bbs[off + kind]@;
    let mut rest = board.bbs[off + kind];
    loop
        invariant
            rest@.subset_of(all),
            all == b.bbs[base(us) + kind]@,
            b == *board,
            us == b.side_to_move,
            off == base(us),
            1 <= kind <= 5,
            occ@ == occupied(b),
            own == b.player_bbs[us.index()].board,
            not_us == !own,
            forall|t: int| #[trigger] squares_of(not_us).contains(t) <==> (0 <= t < 64 && !squares_of(own).contains(t)),
            forall|m: Move| #[trigger] moves@.contains(m) <==> start.contains(m) || (kind_move(b, us, kind as int, m)
                && !rest@.contains(m.src.0 as int)),
            extends(moves@, start),
            distinct_from(moves@, start.len() as int),
            forall|i: int| start.len() <= i < moves@.len() ==> kind_move(b, us, kind as int, #[trigger] moves@[i])
                && !rest@.contains(moves@[i].src.0 as int),
        ensures
            forall|m: Move| #[trigger] moves@.contains(m) <==> start.contains(m) || kind_move(b, us, kind as int, m),
            extends(moves@, start),
            distinct_from(moves@, start.len() as int),
            forall|i: int| start.len() <= i < moves@.len() ==> kind_move(b, us, kind as int, #[trigger] moves@[i]),
        decreases rest.board,
    {
        let ghost before = rest@;
        let ghost moves_before = moves@;
        match rest.pop() {
            Some(from) => {
                let sq = SQ(from as u8);
                let atk = if kind == 1 {
                    knight_attacks(sq)
                } else if kind == 2 {
                    bishop_attacks(sq, occ)
                } else if kind == 3 {
                    rook_attacks(sq, occ)
                } else if kind == 4 {
                    queen_attacks(sq, occ)
                } else {
                    king_attacks(sq)
                };
                let targets = atk.board & not_us;
                proof {
                    lemma_squares_ops();
                    assert(atk@ == piece_targets(b, kind as int, from as int));
                }
                push_piece_targets(moves, sq, targets);
                proof {
                    assert forall|m: Move| #[trigger] moves@.contains(m) <==> start.contains(m) || (kind_move(b, us, kind as int, m)
                        && !rest@.contains(m.src.0 as int)) by {
                        if kind_move(b, us, kind as int, m) && m.src.0 == from {
                            assert(squares_of(targets).contains(m.dest.0 as int));
                        }
                    }
                    lemma_distinct_join(
                        moves_before,
                        moves@,
                        start.len() as int,
                        |m: Move| !before.contains(m.src.0 as int),
                        |m: Move| m.src.0 == from,
                    );
                    assert forall|i: int| start.len() <= i < moves@.len() implies kind_move(
                        b,
                        us,
                        kind as int,
                        #[trigger] moves@[i],
                    ) && !rest@.contains(moves@[i].src.0 as int) by {
                        if i < moves_before.len() {
                            assert(moves@[i] == moves_before[i]);
                        } else {
                            assert(moves@.contains(moves@[i]));
                        }
                    }
                }
            },
            None => {
                proof {
                    lemma_squares_ops();
                    assert(rest@ =~= Set::<int>::empty());
                }
                break;
            },
        }
    }
}

/// Pushes the moves of the side to move's knights, bishops, rooks, queens and king.
fn generate_piece_moves(board: &Board, moves: &mut Vec<Move>)
    ensures
        forall|m: Move| #[trigger] final(moves)@.contains(m) <==> old(moves)@.contains(m) || piece_move(
            *board,
            board.side_to_move,
            m,
        ),
        extends(final(moves)@, old(moves)@),
        slots_apart(*board) ==> distinct_from(final(moves)@, old(moves)@.len() as int),
        forall|i: int| old(moves)@.len() <= i < final(moves)@.len() ==> piece_move(
            *board,
            board.side_to_move,
            #[trigger] final(moves)@[i],
        ),
{
    let ghost start = moves@;
    push_kind_moves(board, moves, 1);
    let ghost s1 = moves@;
    push_kind_moves(board, moves, 2);
    let ghost s2 = moves@;
    push_kind_moves(board, moves, 3);
    let ghost s3 = moves@;
    push_kind_moves(board, moves, 4);
    let ghost s4 = moves@;
    push_kind_moves(board, moves, 5);
    proof {
        let b = *board;
        let c = b.side_to_move;
        let k0 = start.len() as int;
        assert forall|i: int| k0 <= i < moves@.len() implies piece_move(b, c, #[trigger] moves@[i]) by {
            let m = moves@[i];
            let kind = if i < s1.len() {
                1int
            } else if i < s2.len() {
                2int
            } else if i < s3.len() {
                3int
            } else if i < s4.len() {
                4int
            } else {
                5int
            };
            if i < s1.len() {
                assert(m == s4[i] && s4[i] == s3[i] && s3[i] == s2[i] && s2[i] == s1[i]);
            } else if i < s2.len() {
                assert(m == s4[i] && s4[i] == s3[i] && s3[i] == s2[i]);
            } else if i < s3.len() {
                assert(m == s4[i] && s4[i] == s3[i]);
            } else if i < s4.len() {
                assert(m == s4[i]);
            }
            assert(kind_move(b, c, kind, m));
            assert(b.bbs[base(c) + kind]@.contains(m.src.0 as int));
        }
        if slots_apart(b) {
            let lower = |k: int, m: Move| exists|j: int| 1 <= j < k && #[trigger] b.bbs[base(c) + j]@.contains(m.src.0 as int);
            assert forall|i: int| k0 <= i < s1.len() implies #[trigger] lower(2, s1[i]) by {
                assert(kind_move(b, c, 1, s1[i]));
                assert(b.bbs[base(c) + 1]@.contains(s1[i].src.0 as int));
            }
            lemma_distinct_join(s1, s2, k0, |m: Move| lower(2, m), |m: Move| kind_move(b, c, 2, m));
            assert forall|i: int| k0 <= i < s2.len() implies #[trigger] lower(3, s2[i]) by {
                if kind_move(b, c, 2, s2[i]) {
                    assert(b.bbs[base(c) + 2]@.contains(s2[i].src.0 as int));
                }
            }
            lemma_distinct_join(s2, s3, k0, |m: Move| lower(3, m), |m: Move| kind_move(b, c, 3, m));
            assert forall|i: int| k0 <= i < s3.len() implies #[trigger] lower(4, s3[i]) by {
                if kind_move(b, c, 3, s3[i]) {
                    assert(b.bbs[base(c) + 3]@.contains(s3[i].src.0 as int));
                }
            }
            lemma_distinct_join(s3, s4, k0, |m: Move| lower(4, m), |m: Move| kind_move(b, c, 4, m));
            assert forall|i: int| k0 <= i < s4.len() implies #[trigger] lower(5, s4[i]) by {
                if kind_move(b, c, 4, s4[i]) {
                    assert(b.bbs[base(c) + 4]@.contains(s4[i].src.0 as int));
                }
            }
            lemma_distinct_join(s4, moves@, k0, |m: Move| lower(5, m), |m: Move| kind_move(b, c, 5, m));
        }
        assert forall|m: Move| #[trigger] moves@.contains(m) <==> start.contains(m) || piece_move(b, c, m) by {
            if piece_move(b, c, m) {
                let k = choose|kind: int|
                    1 <= kind <= 5 && #[trigger] b.bbs[base(c) + kind]@.contains(m.src.0 as int) && piece_targets(b, kind, m.src.0 as int).contains(m.dest.0 as int);
                assert(kind_move(b, c, k, m));
            }
            if kind_move(b, c, 1, m) {
                assert(b.bbs[base(c) + 1]@.contains(m.src.0 as int));
            }
            if kind_move(b, c, 2, m) {
                assert(b.bbs[base(c) + 2]@.contains(m.src.0 as int));
            }
            if kind_move(b, c, 3, m) {
                assert(b.bbs[base(c) + 3]@.contains(m.src.0 as int));
            }
            if kind_move(b, c, 4, m) {
                assert(b.bbs[base(c) + 4]@.contains(m.src.0 as int));
            }
            if kind_move(b, c, 5, m) {
                assert(b.bbs[base(c) + 5]@.contains(m.src.0 as int));
            }
        }
    }
}

/// Pushes the castling moves of the side to move.
fn generate_castling(board: &Board, moves: &mut Vec<Move>)
    ensures
        forall|m: Move| #[trigger] final(moves)@.contains(m) <==> old(moves)@.contains(m) || castle_move(
            *board,
            board.side_to_move,
            m,
        ),
        extends(final(moves)@, old(moves)@),
        distinct_from(final(moves)@, old(moves)@.len() as int),
        forall|i: int| old(moves)@.len() <= i < final(moves)@.len() ==> castle_move(
            *board,
            board.side_to_move,
            #[trigger] final(moves)@[i],
        ),
{
    let ghost start = moves@;
    let ghost b = *board;
    let us = board.side_to_move;
    let opp = us.opposite();
    let occ = Bitboard::from_u64(board.player_bbs[0].board | board.player_bbs[1].board);
    proof {
        lemma_squares_ops();
        assert(occ@ =~= occupied(b));
    }
    let home: u8 = match us {
        Color::White => 4,
        Color::Black => 60,
    };
    let ks_right: u8 = match us {
        Color::White => 1,
        Color::Black => 4,
    };
    let qs_right: u8 = match us {
        Color::White => 2,
        Color::Black => 8,
    };
    if is_attacked(board, SQ(home), opp) {
        return;
    }
    let h = home as usize;
    if board.castling.has(ks_right) && !occ.get(h + 1) && !occ.get(h + 2) && !is_attacked(board, SQ(home + 1), opp)
        && !is_attacked(board, SQ(home + 2), opp) {
        let mv = Move::new(SQ(home), SQ(home + 2));
        proof {
            lemma_push_contains(moves@, mv);
        }
        moves.push(mv);
    }
    let ghost mid = moves@;
    if board.castling.has(qs_right) && !occ.get(h - 3) && !occ.get(h - 2) && !occ.get(h - 1) && !is_attacked(
        board,
        SQ(home - 1),
        opp,
    ) && !is_attacked(board, SQ(home - 2), opp) {
        let mv = Move::new(SQ(home), SQ(home - 2));
        proof {
            lemma_push_contains(moves@, mv);
        }
        moves.push(mv);
    }
}

/// The part of the generator's list a move belongs to: pawn moves 0, piece
/// moves 1, castling 2.
pub open spec fn gen_band(b: Board, m: Move) -> int {
    let c = b.side_to_move;
    if pawn_moves(b, c, m) {
        0
    } else if piece_move(b, c, m) {
        1
    } else {
        2
    }
}

/// Pushes every pseudo-legal move of the side to move: pawn moves, piece moves,
/// then castling.
fn generate_pseudo_legal(board: &Board, moves: &mut Vec<Move>)
    requires
        board.en_passant matches Some(e) ==> e.0 < 64,
    ensures
        forall|m: Move| #[trigger] final(moves)@.contains(m) <==> old(moves)@.contains(m) || pseudo_legal(*board, m),
        extends(final(moves)@, old(moves)@),
        gen_distinct(*board) ==> distinct_from(final(moves)@, old(moves)@.len() as int),
        gen_distinct(*board) ==> forall|i: int, j: int|
            old(moves)@.len() <= i < j < final(moves)@.len() ==> gen_band(*board, #[trigger] final(moves)@[i])
                <= gen_band(*board, #[trigger] final(moves)@[j]),
{
    let ghost start = moves@;
    match board.side_to_move {
        Color::White => generate_white_pawn_moves(board, moves),
        Color::Black => generate_black_pawn_moves(board, moves),
    }
    let ghost after_pawns = moves@;
    generate_piece_moves(board, moves);
    let ghost after_pieces = moves@;
    generate_castling(board, moves);
    proof {
        let b = *board;
        assert forall|m: Move| #[trigger] moves@.contains(m) <==> start.contains(m) || pseudo_legal(b, m) by {
            assert(after_pawns.contains(m) <==> start.contains(m) || pawn_moves(b, b.side_to_move, m));
            assert(after_pieces.contains(m) <==> after_pawns.contains(m) || piece_move(b, b.side_to_move, m));
        }
        if gen_distinct(b) {
            let c = b.side_to_move;
            let k0 = start.len() as int;
            assert forall|m: Move| #[trigger] pawn_moves(b, c, m) implies !piece_move(b, c, m) by {
                if piece_move(b, c, m) {
                    let k = choose|kind: int|
                        1 <= kind <= 5 && #[trigger] b.bbs[base(c) + kind]@.contains(m.src.0 as int) && piece_targets(
                            b,
                            kind,
                            m.src.0 as int,
                        ).contains(m.dest.0 as int);
                    assert(b.bbs[base(c)]@.disjoint(b.bbs[base(c) + k]@));
                }
            }
            lemma_distinct_join(after_pawns, after_pieces, k0, |m: Move| pawn_moves(b, c, m), |m: Move| piece_move(b, c, m));
            assert forall|m: Move| #[trigger] castle_move(b, c, m) implies !pawn_moves(b, c, m) && !piece_move(b, c, m) by {
                let home = m.src.0 as int;
                assert(b.bbs[base(c) + 5]@.contains(home));
                assert(b.bbs[base(c)]@.disjoint(b.bbs[base(c) + 5]@));
                if piece_move(b, c, m) {
                    let k = choose|kind: int|
                        1 <= kind <= 5 && #[trigger] b.bbs[base(c) + kind]@.contains(m.src.0 as int) && piece_targets(
                            b,
                            kind,
                            m.src.0 as int,
                        ).contains(m.dest.0 as int);
                    if k != 5 {
                        assert(b.bbs[base(c) + k]@.disjoint(b.bbs[base(c) + 5]@));
                    } else {
                        assert(king_targets(home).contains(m.dest.0 as int));
                        assert(false);
                    }
                }
            }
            lemma_distinct_join(
                after_pieces,
                moves@,
                k0,
                |m: Move| pawn_moves(b, c, m) || piece_move(b, c, m),
                |m: Move| castle_move(b, c, m),
            );
            let ap = after_pawns.len() as int;
            let pp = after_pieces.len() as int;
            assert forall|i: int| k0 <= i < moves@.len() implies #[trigger] gen_band(b, moves@[i]) == (if i < ap {
                0int
            } else if i < pp {
                1int
            } else {
                2int
            }) by {
                if i < ap {
                    assert(moves@[i] == after_pieces[i] && after_pieces[i] == after_pawns[i]);
                    assert(pawn_moves(b, c, after_pawns[i]));
                } else if i < pp {
                    assert(moves@[i] == after_pieces[i]);
                    assert(piece_move(b, c, after_pieces[i]));
                } else {
                    assert(castle_move(b, c, moves@[i]));
                }
            }
            assert forall|i: int, j: int| k0 <= i < j < moves@.len() implies gen_band(b, #[trigger] moves@[i])
                <= gen_band(b, #[trigger] moves@[j]) by {
                assert(gen_band(b, moves@[i]) == (if i < ap {
                    0int
                } else if i < pp {
                    1int
                } else {
                    2int
                }));
                assert(gen_band(b, moves@[j]) == (if j < ap {
                    0int
                } else if j < pp {
                    1int
                } else {
                    2int
                }));
            }
        }
    }
}

/// Two boards with the same piece and colour sets agree on king safety.
pub proof fn lemma_king_safe_views(a: Board, n: Board, c: Color)
    requires
        forall|i: int| 0 <= i < 12 ==> #[trigger] a.bbs[i]@ == n.bbs[i]@,
        forall|i: int| 0 <= i < 2 ==> #[trigger] a.player_bbs[i]@ == n.player_bbs[i]@,
    ensures
        king_safe(a, c) == king_safe(n, c),
{
    let o = base(c.other());
    assert(a.bbs[base(c) + 5]@ == n.bbs[base(c) + 5]@);
    assert(a.bbs[o]@ == n.bbs[o]@);
    assert(a.bbs[o + 1]@ == n.bbs[o + 1]@);
    assert(a.bbs[o + 2]@ == n.bbs[o + 2]@);
    assert(a.bbs[o + 3]@ == n.bbs[o + 3]@);
    assert(a.bbs[o + 4]@ == n.bbs[o + 4]@);
    assert(a.bbs[o + 5]@ == n.bbs[o + 5]@);
    assert(a.player_bbs[0]@ == n.player_bbs[0]@);
    assert(a.player_bbs[1]@ == n.player_bbs[1]@);
    assert(occupied(a) == occupied(n));
}

/// The legal moves of the side to move, in generation order: pawn moves, piece
/// moves, castling, each kept only if `apply_move` accepts it and the mover's
/// king is not left attacked.
pub fn generate_legal_moves(board: &Board) -> (r: Vec<Move>)
    requires
        gen_ok(*board),
    ensures
        forall|m: Move| #[trigger] r@.contains(m) <==> legal(*board, m),
        gen_distinct(*board) ==> r@.no_duplicates(),
        gen_distinct(*board) ==> forall|i: int, j: int|
            0 <= i < j < r@.len() ==> gen_band(*board, #[trigger] r@[i]) <= gen_band(*board, #[trigger] r@[j]),
{
    let ghost b = *board;
    let mut moves: Vec<Move> = Vec::with_capacity(64);
    assert(moves@.len() == 0);
    generate_pseudo_legal(board, &mut moves);
    assert(gen_distinct(b) ==> forall|x: int, y: int|
        0 <= x < y < moves@.len() ==> gen_band(b, #[trigger] moves@[x]) <= gen_band(b, #[trigger] moves@[y]));
    let us = board.side_to_move;
    let opp = us.opposite();
    let mut out: Vec<Move> = Vec::new();
    let ghost mut picked: Seq<int> = Seq::empty();
    let mut i: usize = 0;
    while i < moves.len()
        invariant
            i <= moves.len(),
            b == *board,
            us == b.side_to_move,
            opp == us.other(),
            gen_ok(b),
            forall|m: Move| #[trigger] moves@.contains(m) <==> pseudo_legal(b, m),
            forall|m: Move| #[trigger] out@.contains(m) <==> (moves@.take(i as int).contains(m) && legal(b, m)),
            gen_distinct(b) ==> distinct_from(moves@, 0),
            gen_distinct(b) ==> out@.no_duplicates(),
            gen_distinct(b) ==> forall|x: int, y: int|
                0 <= x < y < moves@.len() ==> gen_band(b, #[trigger] moves@[x]) <= gen_band(b, #[trigger] moves@[y]),
            picked.len() == out@.len(),
            forall|k: int| 0 <= k < out@.len() ==> 0 <= #[trigger] picked[k] < i && out@[k] == moves@[picked[k]],
            forall|k: int, l: int| 0 <= k < l < out@.len() ==> #[trigger] picked[k] < #[trigger] picked[l],
        decreases moves.len() - i,
    {
        let m = moves[i];
        assert(moves@.contains(m));
        let mut next = *board;
        let res = next.apply_move(m);
        let keep = match res {
            Err(_) => false,
            Ok(()) => match king_square(&next, us) {
                Some(k) => !is_attacked(&next, k, opp),
                None => true,
            },
        };
        proof {
            assert(moves@.take(i + 1) =~= moves@.take(i as int).push(m));
            lemma_push_contains(moves@.take(i as int), m);
            if res is Ok {
                assert(keep == king_safe(next, us));
                assert forall|a: Board| b.played(m, a) implies king_safe(a, us) == king_safe(next, us) by {
                    assert forall|j: int| 0 <= j < 12 implies #[trigger] a.bbs[j]@ == next.bbs[j]@ by {}
                    assert forall|j: int| 0 <= j < 2 implies #[trigger] a.player_bbs[j]@ == next.player_bbs[j]@ by {}
                    lemma_king_safe_views(a, next, us);
                }
                assert(keep == legal(b, m));
            } else {
                assert(!legal(b, m));
            }
        }
        if keep {
            proof {
                lemma_push_contains(out@, m);
                if gen_distinct(b) {
                    if out@.contains(m) {
                        let j = choose|j: int| 0 <= j < i && moves@.take(i as int)[j] == m;
                        assert(moves@[j] == moves@[i as int]);
                    }
                    assert forall|x: int, y: int| 0 <= x < y < out@.push(m).len() implies out@.push(m)[x] != out@.push(m)[y] by {
                        if y == out@.len() {
                            assert(out@.contains(out@[x]));
                        }
                    }
                }
            }
            out.push(m);
            proof {
                picked = picked.push(i as int);
            }
        }
        i = i + 1;
    }
    proof {
        assert(moves@.take(moves@.len() as int) =~= moves@);
        if gen_distinct(b) {
            assert forall|x: int, y: int| 0 <= x < y < out@.len() implies gen_band(b, #[trigger] out@[x]) <= gen_band(
                b,
                #[trigger] out@[y],
            ) by {
                assert(picked[x] < picked[y]);
                assert(gen_band(b, moves@[picked[x]]) <= gen_band(b, moves@[picked[y]]));
            }
        }
    }
    out
}

} // verus!
