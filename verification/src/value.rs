use vstd::prelude::*;
use crate::board::{Board, after};
use crate::eval::{EvalConfig, evaluation};
use crate::generator::legal;
use crate::piece_move::{Move, PromotionPiece};
use crate::sq::SQ;
use crate::search::{MATE_SCORE, checked, no_moves, terminal};

verus! {

/// The number of moves with both squares on the board: source, destination
/// and no promotion or one of four pieces.
pub open spec fn move_count() -> int {
    20480int
}

/// The promotion numbered `i`: none for 0, then knight, bishop, rook, queen.
pub open spec fn promotion_numbered(i: int) -> Option<PromotionPiece> {
    if i == 1 {
        Some(PromotionPiece::Knight)
    } else if i == 2 {
        Some(PromotionPiece::Bishop)
    } else if i == 3 {
        Some(PromotionPiece::Rook)
    } else if i == 4 {
        Some(PromotionPiece::Queen)
    } else {
        None
    }
}

/// The number of a promotion.
pub open spec fn promotion_number(p: Option<PromotionPiece>) -> int {
    match p {
        None => 0,
        Some(PromotionPiece::Knight) => 1,
        Some(PromotionPiece::Bishop) => 2,
        Some(PromotionPiece::Rook) => 3,
        Some(PromotionPiece::Queen) => 4,
    }
}

/// The `k`th move of the board, counting by source, destination, promotion.
pub open spec fn nth_move(k: int) -> Move {
    Move { src: SQ((k / 320) as u8), dest: SQ(((k / 5) % 64) as u8), promotion: promotion_numbered(k % 5) }
}

/// Where a move with both squares on the board stands in that count.
pub open spec fn move_number(m: Move) -> int {
    m.src.0 * 320 + m.dest.0 * 5 + promotion_number(m.promotion)
}

/// Every move with both squares on the board is counted, at its number.
pub proof fn lemma_move_number(m: Move)
    requires
        m.src.0 < 64,
        m.dest.0 < 64,
    ensures
        0 <= move_number(m) < move_count(),
        nth_move(move_number(m)) == m,
{
    let s = m.src.0 as int;
    let d = m.dest.0 as int;
    let p = promotion_number(m.promotion);
    let k = move_number(m);
    assert(0 <= d * 5 + p < 320);
    assert(k == s * 320 + (d * 5 + p));
    vstd::arithmetic::div_mod::lemma_fundamental_div_mod_converse(k, 320, s, d * 5 + p);
    assert(k == (s * 64 + d) * 5 + p) by (nonlinear_arith)
        requires
            k == s * 320 + (d * 5 + p),
    ;
    vstd::arithmetic::div_mod::lemma_fundamental_div_mod_converse(k, 5, s * 64 + d, p);
    assert(s * 64 + d == s * 64 + d);
    vstd::arithmetic::div_mod::lemma_fundamental_div_mod_converse(s * 64 + d, 64, s, d);
    assert(k <= 63 * 320 + 63 * 5 + 4);
    assert(promotion_numbered(p) == m.promotion);
}

/// The value of `b` searched to `depth` from `ply` plies below the root,
/// for the side to move: the evaluation at depth 0, the mate or stalemate
/// score without a legal move, else the best of the legal moves, each worth
/// the negated value of the position it leads to.
pub closed spec fn minimax(b: Board, depth: nat, ply: int, cfg: EvalConfig) -> int
    decreases depth, move_count() + 1,
{
    if depth == 0 {
        evaluation(b, cfg)
    } else if no_moves(b) {
        terminal(b, ply)
    } else {
        best_from(b, depth, ply, cfg, 0).unwrap()
    }
}

/// At depth 0 a position is worth its evaluation; above it, without a legal
/// move, its mate or stalemate score.
pub proof fn lemma_minimax_leaf(b: Board, depth: nat, ply: int, cfg: EvalConfig)
    ensures
        depth == 0 ==> minimax(b, depth, ply, cfg) == evaluation(b, cfg),
        depth >= 1 && no_moves(b) ==> minimax(b, depth, ply, cfg) == terminal(b, ply),
{
}

/// A position without a legal move, searched to any depth above 0, is worth 0
/// when its side to move is not in check (stalemate) and `-MATE_SCORE + ply`
/// when it is (checkmate).
pub proof fn law_no_move_values(b: Board, depth: nat, ply: int, cfg: EvalConfig)
    requires
        depth >= 1,
        no_moves(b),
    ensures
        !checked(b) ==> minimax(b, depth, ply, cfg) == 0,
        checked(b) ==> minimax(b, depth, ply, cfg) == -MATE_SCORE + ply,
{
}

/// What the move `m` of `b` is worth: the negated value of where it leads.
pub open spec fn move_value(b: Board, m: Move, depth: nat, ply: int, cfg: EvalConfig) -> int
    decreases depth, 0int,
{
    if depth >= 1 {
        -minimax(after(b, m), (depth - 1) as nat, ply + 1, cfg)
    } else {
        0
    }
}

/// The best value of the legal moves numbered `k` and on, if there is one.
pub closed spec fn best_from(b: Board, depth: nat, ply: int, cfg: EvalConfig, k: int) -> Option<int>
    decreases depth, move_count() - k,
{
    if k < 0 || k >= move_count() {
        None
    } else {
        let rest = best_from(b, depth, ply, cfg, k + 1);
        let m = nth_move(k);
        if depth >= 1 && legal(b, m) {
            let v = -minimax(after(b, m), (depth - 1) as nat, ply + 1, cfg);
            match rest {
                Some(x) => Some(if v > x {
                    v
                } else {
                    x
                }),
                None => Some(v),
            }
        } else {
            rest
        }
    }
}

/// `best_from` is the largest value of a legal move from `k` on, and some
/// legal move has it.
proof fn lemma_best_from(b: Board, depth: nat, ply: int, cfg: EvalConfig, k: int)
    requires
        0 <= k <= move_count(),
        depth >= 1,
    ensures
        best_from(b, depth, ply, cfg, k) matches Some(x) ==> {
            &&& forall|i: int|
                k <= i < move_count() && legal(b, nth_move(i)) ==> move_value(b, #[trigger] nth_move(i), depth, ply, cfg)
                    <= x
            &&& exists|i: int|
                k <= i < move_count() && legal(b, nth_move(i)) && move_value(b, #[trigger] nth_move(i), depth, ply, cfg)
                    == x
        },
        best_from(b, depth, ply, cfg, k) is None ==> forall|i: int|
            k <= i < move_count() ==> !legal(b, #[trigger] nth_move(i)),
    decreases move_count() - k,
{
    if k < move_count() {
        lemma_best_from(b, depth, ply, cfg, k + 1);
        let m = nth_move(k);
        if legal(b, m) {
            let v = move_value(b, m, depth, ply, cfg);
            assert(v == -minimax(after(b, m), (depth - 1) as nat, ply + 1, cfg));
            match best_from(b, depth, ply, cfg, k + 1) {
                Some(x) => {
                    if v > x {
                        assert(move_value(b, nth_move(k), depth, ply, cfg) == v);
                    } else {
                        let i = choose|i: int|
                            k + 1 <= i < move_count() && legal(b, nth_move(i)) && move_value(
                                b,
                                #[trigger] nth_move(i),
                                depth,
                                ply,
                                cfg,
                            ) == x;
                        assert(move_value(b, nth_move(i), depth, ply, cfg) == x);
                    }
                },
                None => {
                    assert(move_value(b, nth_move(k), depth, ply, cfg) == v);
                },
            }
        }
    }
}

/// Above depth 0, a position with a legal move is worth the most any legal
/// move is worth, and some legal move is worth that much.
pub proof fn lemma_minimax_is_best(b: Board, depth: nat, ply: int, cfg: EvalConfig)
    requires
        depth >= 1,
        !no_moves(b),
        forall|m: Move| legal(b, m) ==> m.src.0 < 64 && m.dest.0 < 64,
    ensures
        forall|m: Move| legal(b, m) ==> #[trigger] move_value(b, m, depth, ply, cfg) <= minimax(b, depth, ply, cfg),
        exists|m: Move| legal(b, m) && #[trigger] move_value(b, m, depth, ply, cfg) == minimax(b, depth, ply, cfg),
{
    lemma_best_from(b, depth, ply, cfg, 0);
    let w = choose|m: Move| legal(b, m);
    lemma_move_number(w);
    assert(legal(b, nth_move(move_number(w))));
    let x = best_from(b, depth, ply, cfg, 0).unwrap();
    assert(minimax(b, depth, ply, cfg) == x);
    assert forall|m: Move| legal(b, m) implies #[trigger] move_value(b, m, depth, ply, cfg) <= x by {
        lemma_move_number(m);
        assert(move_value(b, nth_move(move_number(m)), depth, ply, cfg) <= x);
    }
    let i = choose|i: int|
        0 <= i < move_count() && legal(b, nth_move(i)) && move_value(b, #[trigger] nth_move(i), depth, ply, cfg) == x;
    assert(legal(b, nth_move(i)) && move_value(b, nth_move(i), depth, ply, cfg) == x);
}

/// What an alpha-beta search in the window `alpha..beta` owes for a position
/// worth `v`: `v` itself inside the window, at most `alpha` for a value at or
/// below it, at least `beta` for one at or above it.
pub open spec fn window_result(r: int, v: int, alpha: int, beta: int) -> bool {
    &&& alpha < v < beta ==> r == v
    &&& v <= alpha ==> r <= alpha
    &&& v >= beta ==> r >= beta
}

/// What a fail-hard search over the moves `ms` of `b` owes in the window
/// `alpha..beta`: at least `beta` once some move is worth that much; else
/// the largest of `alpha` and the moves' values.
#[verifier::opaque]
pub open spec fn moves_result(
    r: int,
    b: Board,
    ms: Seq<Move>,
    depth: nat,
    ply: int,
    cfg: EvalConfig,
    alpha: int,
    beta: int,
) -> bool {
    &&& (exists|j: int| 0 <= j < ms.len() && move_value(b, #[trigger] ms[j], depth, ply, cfg) >= beta) ==> r >= beta
    &&& (forall|j: int| 0 <= j < ms.len() ==> move_value(b, #[trigger] ms[j], depth, ply, cfg) < beta) ==> {
        &&& r >= alpha
        &&& forall|j: int| 0 <= j < ms.len() ==> move_value(b, #[trigger] ms[j], depth, ply, cfg) <= r
        &&& (r == alpha || exists|j: int| 0 <= j < ms.len() && move_value(b, #[trigger] ms[j], depth, ply, cfg) == r)
    }
}

/// Searching every legal move of `b`, and nothing else, in that way meets
/// the window owed for the value of `b`.
pub proof fn lemma_window_from_moves(
    r: int,
    b: Board,
    ms: Seq<Move>,
    depth: nat,
    ply: int,
    cfg: EvalConfig,
    alpha: int,
    beta: int,
)
    requires
        depth >= 1,
        !no_moves(b),
        alpha < beta,
        forall|j: int| 0 <= j < ms.len() ==> legal(b, #[trigger] ms[j]),
        forall|m: Move| legal(b, m) ==> ms.contains(m),
        forall|m: Move| legal(b, m) ==> m.src.0 < 64 && m.dest.0 < 64,
        moves_result(r, b, ms, depth, ply, cfg, alpha, beta),
    ensures
        window_result(r, minimax(b, depth, ply, cfg), alpha, beta),
{
    reveal(moves_result);
    let v = minimax(b, depth, ply, cfg);
    lemma_minimax_is_best(b, depth, ply, cfg);
    let w = choose|m: Move| legal(b, m) && #[trigger] move_value(b, m, depth, ply, cfg) == v;
    assert(ms.contains(w));
    let jw = choose|j: int| 0 <= j < ms.len() && ms[j] == w;
    assert(move_value(b, ms[jw], depth, ply, cfg) == v);
    if v >= beta {
        assert(r >= beta);
    } else {
        assert forall|j: int| 0 <= j < ms.len() implies move_value(b, #[trigger] ms[j], depth, ply, cfg) < beta by {
            assert(legal(b, ms[j]));
            assert(move_value(b, ms[j], depth, ply, cfg) <= v);
        }
        assert(r >= v);
        if r != alpha {
            let j = choose|j: int| 0 <= j < ms.len() && move_value(b, #[trigger] ms[j], depth, ply, cfg) == r;
            assert(legal(b, ms[j]));
            assert(move_value(b, ms[j], depth, ply, cfg) <= v);
        }
    }
}

} // verus!
