use vstd::prelude::*;
use crate::board::{Board, holder_in};
use crate::eval::PIECE_VALUES;
use crate::generator::base;
use crate::piece_move::Move;
use crate::search::{HISTORY_MAX, HistoryTable, history_ok, mvv_lva, mvv_lva_score, on_board, value_at};

verus! {

/// The ordering key of a move: the hinted move first, then captures by
/// MVV-LVA, then killers, then quiet moves by history score.
pub open spec fn order_key(b: Board, m: Move, hint: Option<Move>, killers: [Option<Move>; 2], h: HistoryTable) -> int {
    if hint == Some(m) {
        i32::MIN as int
    } else if mvv_lva(b, m) > 0 {
        -0x1000_0000 - mvv_lva(b, m)
    } else if killers[0] == Some(m) || killers[1] == Some(m) {
        -0x100_0000
    } else {
        let v = h[b.side_to_move.index()][m.src.0 as int][m.dest.0 as int];
        -(if v < HISTORY_MAX { v } else { HISTORY_MAX })
    }
}

fn move_key(board: &Board, m: Move, hint: Option<Move>, killers: [Option<Move>; 2], history: &HistoryTable) -> (r: i32)
    requires
        on_board(m),
        history_ok(*history),
    ensures
        r == order_key(*board, m, hint, killers, *history),
{
    if hint == Some(m) {
        return i32::MIN;
    }
    let mvv = mvv_lva_score(board, m);
    if mvv > 0 {
        return -0x1000_0000 - mvv;
    }
    if killers[0] == Some(m) || killers[1] == Some(m) {
        return -0x100_0000;
    }
    let side = board.side_to_move.to_index();
    proof {
        reveal(history_ok);
    }
    let v = history[side][m.src.to_usize()][m.dest.to_usize()];
    -(if v < HISTORY_MAX { v } else { HISTORY_MAX })
}

/// A slot found in a range lies in it.
proof fn lemma_holder_in_range(b: Board, s: int, lo: int, hi: int)
    ensures
        holder_in(b, s, lo, hi) matches Some(i) ==> lo <= i < hi,
    decreases hi - lo,
{
    if 0 <= lo < hi <= 12 && !b.bbs[lo]@.contains(s) {
        lemma_holder_in_range(b, s, lo + 1, hi);
    }
}

/// A piece is worth between nothing and a queen.
proof fn lemma_value_at_bounds(b: Board, s: int, off: int)
    ensures
        0 <= value_at(b, s, off) <= 900,
{
    lemma_holder_in_range(b, s, off, off + 6);
    assert(PIECE_VALUES[0] == 100 && PIECE_VALUES[1] == 320 && PIECE_VALUES[2] == 330);
    assert(PIECE_VALUES[3] == 500 && PIECE_VALUES[4] == 900 && PIECE_VALUES[5] == 0);
}

/// The ordering bands never interleave: the hinted move sorts before any other
/// move, a capture before any move that takes nothing, and among the moves
/// that take nothing a killer before any other, however high its history.
pub proof fn lemma_order_bands(
    b: Board,
    hint: Option<Move>,
    killers: [Option<Move>; 2],
    h: HistoryTable,
    x: Move,
    y: Move,
)
    ensures
        hint == Some(x) && hint != Some(y) ==> order_key(b, x, hint, killers, h) < order_key(b, y, hint, killers, h),
        hint != Some(x) && hint != Some(y) && mvv_lva(b, x) > 0 && mvv_lva(b, y) <= 0 ==> order_key(
            b,
            x,
            hint,
            killers,
            h,
        ) < order_key(b, y, hint, killers, h),
        hint != Some(x) && hint != Some(y) && mvv_lva(b, x) <= 0 && mvv_lva(b, y) <= 0 && (killers[0] == Some(x)
            || killers[1] == Some(x)) && killers[0] != Some(y) && killers[1] != Some(y) ==> order_key(
            b,
            x,
            hint,
            killers,
            h,
        ) < order_key(b, y, hint, killers, h),
{
    let us = b.side_to_move;
    lemma_value_at_bounds(b, y.dest.0 as int, base(us.other()));
    lemma_value_at_bounds(b, y.src.0 as int, base(us));
    lemma_value_at_bounds(b, x.dest.0 as int, base(us.other()));
    lemma_value_at_bounds(b, x.src.0 as int, base(us));
}

/// Swapping two entries keeps what a sequence contains.
proof fn lemma_swap_contains<A>(s: Seq<A>, i: int, j: int)
    requires
        0 <= i < s.len(),
        0 <= j < s.len(),
    ensures
        forall|x: A| #[trigger] s.update(i, s[j]).update(j, s[i]).contains(x) == s.contains(x),
        s.update(i, s[j]).update(j, s[i]).len() == s.len(),
{
    let t = s.update(i, s[j]).update(j, s[i]);
    assert forall|x: A| #[trigger] t.contains(x) == s.contains(x) by {
        if t.contains(x) {
            let k = choose|k: int| 0 <= k < t.len() && t[k] == x;
            if k == i {
                assert(s[j] == x || s[i] == x);
            } else if k == j {
                assert(s[i] == x);
            } else {
                assert(s[k] == x);
            }
        }
        if s.contains(x) {
            let k = choose|k: int| 0 <= k < s.len() && s[k] == x;
            if k == i {
                assert(t[j] == x);
            } else if k == j {
                if i == j {
                    assert(t[j] == x);
                } else {
                    assert(t[i] == x);
                }
            } else {
                assert(t[k] == x);
            }
        }
    }
}

/// `p` lists every index below `n` once.
pub open spec fn is_permutation(p: Seq<int>, n: int) -> bool {
    &&& p.len() == n
    &&& forall|k: int| 0 <= k < n ==> 0 <= #[trigger] p[k] < n
    &&& forall|k: int, l: int| 0 <= k < l < n ==> #[trigger] p[k] != #[trigger] p[l]
}

/// `after` holds the moves of `before` in the order `p` picks them, sorted by
/// ordering key, moves of equal key in their order in `before`.
#[verifier::opaque]
pub open spec fn stably_sorted(
    b: Board,
    before: Seq<Move>,
    after: Seq<Move>,
    p: Seq<int>,
    hint: Option<Move>,
    killers: [Option<Move>; 2],
    h: HistoryTable,
) -> bool {
    &&& after.len() == before.len()
    &&& is_permutation(p, before.len() as int)
    &&& forall|k: int| 0 <= k < after.len() ==> #[trigger] after[k] == before[p[k]]
    &&& forall|k: int, l: int|
        0 <= k < l < after.len() ==> {
            let a = order_key(b, #[trigger] after[k], hint, killers, h);
            let c = order_key(b, #[trigger] after[l], hint, killers, h);
            a < c || (a == c && p[k] < p[l])
        }
}

/// Sorts moves by ordering key, keeping equal keys in their order: the
/// hinted move, captures by MVV-LVA, killers, then quiet moves by history.
pub fn order_moves(
    board: &Board,
    moves: &mut Vec<Move>,
    hint: Option<Move>,
    killers: [Option<Move>; 2],
    history: &HistoryTable,
)
    requires
        forall|i: int| 0 <= i < old(moves)@.len() ==> on_board(#[trigger] old(moves)@[i]),
        history_ok(*history),
    ensures
        exists|p: Seq<int>| stably_sorted(*board, old(moves)@, final(moves)@, p, hint, killers, *history),
        final(moves)@.len() == old(moves)@.len(),
        forall|m: Move| #[trigger] final(moves)@.contains(m) == old(moves)@.contains(m),
        forall|i: int, j: int|
            0 <= i < j < final(moves)@.len() ==> order_key(*board, #[trigger] final(moves)@[i], hint, killers, *history)
                <= order_key(*board, #[trigger] final(moves)@[j], hint, killers, *history),
{
    let n = moves.len();
    let ghost start = moves@;
    let mut keys: Vec<i32> = Vec::new();
    let mut k: usize = 0;
    while k < n
        invariant
            n == moves@.len(),
            moves@ == old(moves)@,
            k <= n,
            keys@.len() == k,
            history_ok(*history),
            forall|i: int| 0 <= i < n ==> on_board(#[trigger] moves@[i]),
            forall|i: int| 0 <= i < k ==> #[trigger] keys@[i] == order_key(*board, moves@[i], hint, killers, *history),
        decreases n - k,
    {
        let key = move_key(board, moves[k], hint, killers, history);
        keys.push(key);
        k = k + 1;
    }
    let ghost mut perm: Seq<int> = Seq::new(n as nat, |q: int| q);
    let mut i: usize = 1;
    while i < n
        invariant
            n == moves@.len(),
            n == start.len(),
            keys@.len() == n,
            1 <= i || n == 0,
            i <= n || n == 0,
            forall|x: Move| #[trigger] moves@.contains(x) == start.contains(x),
            forall|q: int| 0 <= q < n ==> #[trigger] keys@[q] == order_key(*board, moves@[q], hint, killers, *history),
            is_permutation(perm, n as int),
            forall|q: int| 0 <= q < n ==> #[trigger] moves@[q] == start[perm[q]],
            forall|q: int| i <= q < n ==> #[trigger] perm[q] == q,
            forall|q: int| 0 <= q < i && q < n ==> #[trigger] perm[q] < i,
            forall|q: int, r: int|
                0 <= q < r < i && r < n ==> #[trigger] keys@[q] < #[trigger] keys@[r] || (keys@[q] == keys@[r]
                    && perm[q] < perm[r]),
        decreases n - i,
    {
        let mut j = i;
        while j > 0 && keys[j - 1] > keys[j]
            invariant
                n == moves@.len(),
                n == start.len(),
                keys@.len() == n,
                0 <= j <= i < n,
                forall|x: Move| #[trigger] moves@.contains(x) == start.contains(x),
                forall|q: int| 0 <= q < n ==> #[trigger] keys@[q] == order_key(*board, moves@[q], hint, killers, *history),
                is_permutation(perm, n as int),
                forall|q: int| 0 <= q < n ==> #[trigger] moves@[q] == start[perm[q]],
                forall|q: int| i < q < n ==> #[trigger] perm[q] == q,
                perm[j as int] == i,
                forall|q: int| 0 <= q <= i && q != j ==> #[trigger] perm[q] < i,
                forall|q: int, r: int|
                    0 <= q < r <= i && q != j && r != j ==> #[trigger] keys@[q] < #[trigger] keys@[r] || (keys@[q]
                        == keys@[r] && perm[q] < perm[r]),
                forall|q: int| j < q <= i ==> keys@[j as int] < #[trigger] keys@[q],
            decreases j,
        {
            let kj = keys[j];
            let kp = keys[j - 1];
            keys.set(j, kp);
            keys.set(j - 1, kj);
            let mj = moves[j];
            let mp = moves[j - 1];
            proof {
                lemma_swap_contains(moves@, (j - 1) as int, j as int);
                perm = perm.update(j - 1, perm[j as int]).update(j as int, perm[j - 1]);
            }
            moves.set(j - 1, mj);
            moves.set(j, mp);
            j = j - 1;
        }
        proof {
            assert forall|q: int, r: int| 0 <= q < r <= i implies #[trigger] keys@[q] < #[trigger] keys@[r] || (
            keys@[q] == keys@[r] && perm[q] < perm[r]) by {
                if r == j && q < j {
                    assert(keys@[q] <= keys@[j - 1] || q == j - 1) by {
                        if q < j - 1 {
                            assert(keys@[q] < keys@[j - 1] || keys@[q] == keys@[j - 1]);
                        }
                    }
                    assert(perm[q] < i);
                }
            }
        }
        i = i + 1;
    }
    proof {
        assert forall|p: int, q: int| 0 <= p < q < moves@.len() implies order_key(
            *board,
            #[trigger] moves@[p],
            hint,
            killers,
            *history,
        ) <= order_key(*board, #[trigger] moves@[q], hint, killers, *history) by {
            assert(keys@[p] < keys@[q] || keys@[p] == keys@[q]);
        }
        reveal(stably_sorted);
        assert forall|p: int, q: int| 0 <= p < q < moves@.len() implies {
            let a = order_key(*board, #[trigger] moves@[p], hint, killers, *history);
            let c = order_key(*board, #[trigger] moves@[q], hint, killers, *history);
            a < c || (a == c && perm[p] < perm[q])
        } by {
            assert(keys@[p] < keys@[q] || (keys@[p] == keys@[q] && perm[p] < perm[q]));
        }
        assert(stably_sorted(*board, start, moves@, perm, hint, killers, *history));
    }
}

} // verus!
