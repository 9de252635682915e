use vstd::prelude::*;
use crate::board::{Board, after, lemma_played_unique};
use crate::generator::{gen_band, generate_legal_moves, legal};
use crate::piece_move::Move;
use crate::position::{wf, clocks_ok, lemma_wf_gen_distinct, lemma_wf_gen_ok, lemma_wf_preserved, lemma_pseudo_facts};

verus! {

/// Counting positions `depth` moves ahead is possible: the position is well
/// formed with room on its clocks for every move of the count.
pub open spec fn countable(b: Board, depth: int) -> bool {
    wf(b) && clocks_ok(b, depth + 1)
}

/// The legal moves of `b`, each once, in some order.
pub open spec fn legal_list(b: Board) -> Seq<Move> {
    choose|s: Seq<Move>| s.no_duplicates() && forall|m: Move| #[trigger] s.contains(m) <==> legal(b, m)
}

/// The number of move sequences of length `d` from `b`: the leaves of its
/// legal-move tree.
pub open spec fn leaves(b: Board, d: nat) -> nat
    decreases d, 1nat, 0nat,
{
    if d == 0 {
        1
    } else {
        leaves_under(b, legal_list(b), (d - 1) as nat)
    }
}

/// The leaves `d` moves below each move of `s` played on `b`, added up.
pub open spec fn leaves_under(b: Board, s: Seq<Move>, d: nat) -> nat
    decreases d + 1, 0nat, s.len(),
{
    if s.len() == 0 {
        0
    } else {
        leaves_under(b, s.drop_last(), d) + leaves(after(b, s.last()), d)
    }
}

/// Taking out the move at `k` takes out its leaves.
proof fn lemma_leaves_under_remove(b: Board, s: Seq<Move>, k: int, d: nat)
    requires
        0 <= k < s.len(),
    ensures
        leaves_under(b, s, d) == leaves_under(b, s.remove(k), d) + leaves(after(b, s[k]), d),
    decreases s.len(),
{
    if k == s.len() - 1 {
        assert(s.remove(k) =~= s.drop_last());
    } else {
        lemma_leaves_under_remove(b, s.drop_last(), k, d);
        assert(s.remove(k).drop_last() =~= s.drop_last().remove(k));
        assert(s.remove(k).last() == s.last());
    }
}

/// Two lists of the same moves, each move once, hold the same leaves and have
/// the same length.
proof fn lemma_leaves_under_same_moves(b: Board, s: Seq<Move>, t: Seq<Move>, d: nat)
    requires
        s.no_duplicates(),
        t.no_duplicates(),
        forall|m: Move| #[trigger] s.contains(m) <==> t.contains(m),
    ensures
        leaves_under(b, s, d) == leaves_under(b, t, d),
        s.len() == t.len(),
    decreases s.len(),
{
    if s.len() == 0 {
        if t.len() > 0 {
            assert(t.contains(t[0]));
            assert(s.contains(t[0]));
        }
        assert(t.len() == 0);
    } else {
        let x = s.last();
        assert(s.contains(x));
        let k = choose|k: int| 0 <= k < t.len() && t[k] == x;
        let s1 = s.drop_last();
        let t1 = t.remove(k);
        assert forall|m: Move| #[trigger] s1.contains(m) <==> t1.contains(m) by {
            if s1.contains(m) {
                let i = choose|i: int| 0 <= i < s1.len() && s1[i] == m;
                assert(s.contains(m));
                let j = choose|j: int| 0 <= j < t.len() && t[j] == m;
                assert(s[i] == m && s[s.len() - 1] == x && i != s.len() - 1);
                assert(j != k);
                if j < k {
                    assert(t1[j] == m);
                } else {
                    assert(t1[j - 1] == m);
                }
            }
            if t1.contains(m) {
                let j = choose|j: int| 0 <= j < t1.len() && t1[j] == m;
                let jj = if j < k { j } else { j + 1 };
                assert(t[jj] == m && jj != k);
                assert(t[jj] != t[k]);
                assert(t.contains(m));
                assert(s.contains(m));
                let i = choose|i: int| 0 <= i < s.len() && s[i] == m;
                assert(i != s.len() - 1);
                assert(s1[i] == m);
            }
        }
        assert(t1.no_duplicates()) by {
            assert forall|i: int, j: int| 0 <= i < t1.len() && 0 <= j < t1.len() && i != j implies t1[i] != t1[j] by {
                let ii = if i < k { i } else { i + 1 };
                let jj = if j < k { j } else { j + 1 };
                assert(t1[i] == t[ii] && t1[j] == t[jj]);
            }
        }
        lemma_leaves_under_same_moves(b, s1, t1, d);
        lemma_leaves_under_remove(b, t, k, d);
        assert(leaves_under(b, s, d) == leaves_under(b, s1, d) + leaves(after(b, x), d));
        assert(t1.len() == t.len() - 1);
    }
}

/// One level down every move has exactly one leaf.
proof fn lemma_leaves_under_one(b: Board, s: Seq<Move>)
    ensures
        leaves_under(b, s, 0) == s.len(),
    decreases s.len(),
{
    if s.len() > 0 {
        lemma_leaves_under_one(b, s.drop_last());
        assert(leaves(after(b, s.last()), 0) == 1);
    }
}

/// No move holds more leaves than all of them together.
proof fn lemma_leaves_under_part(b: Board, s: Seq<Move>, i: int, d: nat)
    requires
        0 <= i < s.len(),
    ensures
        leaves(after(b, s[i]), d) <= leaves_under(b, s, d),
        leaves_under(b, s.take(i), d) + leaves(after(b, s[i]), d) <= leaves_under(b, s, d),
    decreases s.len(),
{
    if i < s.len() - 1 {
        lemma_leaves_under_part(b, s.drop_last(), i, d);
        assert(s.drop_last().take(i) =~= s.take(i));
    } else {
        assert(s.drop_last() =~= s.take(i));
    }
}

/// The generator's list of a countable position is a list of its legal moves,
/// each once, and the leaves below it are those of the position.
proof fn lemma_generated_list(b: Board, moves: Seq<Move>, d: nat)
    requires
        d >= 1,
        moves.no_duplicates(),
        forall|m: Move| #[trigger] moves.contains(m) <==> legal(b, m),
    ensures
        leaves(b, d) == leaves_under(b, moves, (d - 1) as nat),
        legal_list(b).len() == moves.len(),
{
    assert(moves.no_duplicates() && forall|m: Move| #[trigger] moves.contains(m) <==> legal(b, m));
    let l = legal_list(b);
    assert(l.no_duplicates() && forall|m: Move| #[trigger] l.contains(m) <==> legal(b, m));
    lemma_leaves_under_same_moves(b, l, moves, (d - 1) as nat);
}

/// Plays a legal move of a countable position on a copy of it.
fn play_legal(board: &Board, m: Move, depth: u32) -> (r: Board)
    requires
        countable(*board, depth as int),
        depth >= 1,
        legal(*board, m),
    ensures
        board.played(m, r),
        r == after(*board, m),
        countable(r, depth - 1),
{
    proof {
        lemma_wf_gen_ok(*board);
        lemma_pseudo_facts(*board, m);
    }
    let mut next = *board;
    let res = next.apply_move(m);
    proof {
        assert(res is Ok);
        lemma_wf_preserved(*board, m, next);
        lemma_played_unique(*board, m, next, after(*board, m));
    }
    next
}

/// The legal moves of a countable position, each once.
fn legal_moves_once(board: &Board) -> (r: Vec<Move>)
    requires
        countable(*board, 0),
    ensures
        r@.no_duplicates(),
        forall|m: Move| #[trigger] r@.contains(m) <==> legal(*board, m),
        forall|i: int, j: int| 0 <= i < j < r@.len() ==> gen_band(*board, #[trigger] r@[i]) <= gen_band(
            *board,
            #[trigger] r@[j],
        ),
{
    proof {
        lemma_wf_gen_ok(*board);
        lemma_wf_gen_distinct(*board);
    }
    generate_legal_moves(board)
}

/// The number of move sequences of length `depth` from `board` (leaf nodes
/// of the legal-move tree).
pub fn perft(board: &Board, depth: u32) -> (r: u64)
    requires
        depth >= 1 ==> countable(*board, depth as int),
        leaves(*board, depth as nat) <= u64::MAX,
    ensures
        r == leaves(*board, depth as nat),
    decreases depth,
{
    if depth == 0 {
        return 1;
    }
    let moves = legal_moves_once(board);
    proof {
        lemma_generated_list(*board, moves@, depth as nat);
    }
    if depth == 1 {
        proof {
            lemma_leaves_under_one(*board, moves@);
        }
        return moves.len() as u64;
    }
    let ghost d1 = (depth - 1) as nat;
    let mut count: u64 = 0;
    let mut i: usize = 0;
    while i < moves.len()
        invariant
            countable(*board, depth as int),
            depth >= 2,
            d1 == depth - 1,
            i <= moves@.len(),
            forall|m: Move| #[trigger] moves@.contains(m) <==> legal(*board, m),
            leaves(*board, depth as nat) == leaves_under(*board, moves@, d1),
            leaves(*board, depth as nat) <= u64::MAX,
            count == leaves_under(*board, moves@.take(i as int), d1),
        decreases moves.len() - i,
    {
        let m = moves[i];
        proof {
            assert(moves@.contains(m));
            lemma_leaves_under_part(*board, moves@, i as int, d1);
            assert(moves@.take(i + 1).drop_last() =~= moves@.take(i as int));
        }
        let next = play_legal(board, m, depth);
        let sub = perft(&next, depth - 1);
        count = count + sub;
        i = i + 1;
    }
    proof {
        assert(moves@.take(moves@.len() as int) =~= moves@);
    }
    count
}

/// The counts of a divide list, added up.
pub open spec fn divide_total(r: Seq<(Move, u64)>) -> nat
    decreases r.len(),
{
    if r.len() == 0 {
        0
    } else {
        divide_total(r.drop_last()) + r.last().1 as nat
    }
}

/// For each legal move, once, the move and the number of move sequences of
/// length `depth` that start with it (1 at depth 1 or less); from depth 1 on
/// the counts add up to `perft`'s.
pub fn perft_divide(board: &Board, depth: u32) -> (r: Vec<(Move, u64)>)
    requires
        countable(*board, if depth < 1 { 1 } else { depth as int }),
        leaves(*board, depth as nat) <= u64::MAX,
    ensures
        forall|m: Move| legal(*board, m) <==> exists|i: int| 0 <= i < r@.len() && #[trigger] r@[i].0 == m,
        forall|i: int, j: int| 0 <= i < j < r@.len() ==> #[trigger] r@[i].0 != #[trigger] r@[j].0,
        depth <= 1 ==> forall|i: int| 0 <= i < r@.len() ==> #[trigger] r@[i].1 == 1,
        depth >= 1 ==> forall|i: int| 0 <= i < r@.len() ==> #[trigger] r@[i].1 == leaves(after(*board, r@[i].0), (depth - 1) as nat),
        depth >= 1 ==> divide_total(r@) == leaves(*board, depth as nat),
        forall|i: int, j: int| 0 <= i < j < r@.len() ==> gen_band(*board, #[trigger] r@[i].0) <= gen_band(
            *board,
            #[trigger] r@[j].0,
        ),
{
    let d: u32 = if depth < 1 { 1 } else { depth };
    let moves = legal_moves_once(board);
    proof {
        if depth >= 1 {
            lemma_generated_list(*board, moves@, depth as nat);
        }
    }
    let mut result: Vec<(Move, u64)> = Vec::new();
    let mut i: usize = 0;
    while i < moves.len()
        invariant
            countable(*board, d as int),
            d >= 1,
            d == (if depth < 1 { 1 } else { depth }),
            i <= moves@.len(),
            result@.len() == i,
            moves@.no_duplicates(),
            forall|m: Move| #[trigger] moves@.contains(m) <==> legal(*board, m),
            depth >= 1 ==> leaves(*board, depth as nat) == leaves_under(*board, moves@, (depth - 1) as nat),
            depth >= 1 ==> divide_total(result@) == leaves_under(*board, moves@.take(i as int), (depth - 1) as nat),
            leaves(*board, depth as nat) <= u64::MAX,
            forall|k: int| 0 <= k < i ==> #[trigger] result@[k].0 == moves@[k],
            depth <= 1 ==> forall|k: int| 0 <= k < i ==> #[trigger] result@[k].1 == 1,
            depth >= 1 ==> forall|k: int| 0 <= k < i ==> #[trigger] result@[k].1 == leaves(
                after(*board, moves@[k]),
                (depth - 1) as nat,
            ),
        decreases moves.len() - i,
    {
        let m = moves[i];
        proof {
            assert(moves@.contains(m));
            if depth >= 1 {
                lemma_leaves_under_part(*board, moves@, i as int, (depth - 1) as nat);
                assert(moves@.take(i + 1).drop_last() =~= moves@.take(i as int));
            }
        }
        let next = play_legal(board, m, d);
        let count = if depth <= 1 {
            1
        } else {
            perft(&next, depth - 1)
        };
        let ghost before = result@;
        result.push((m, count));
        proof {
            assert(result@.drop_last() =~= before);
            if depth == 1 {
                assert(leaves(after(*board, m), 0) == 1);
            }
        }
        i = i + 1;
    }
    proof {
        assert(moves@.take(moves@.len() as int) =~= moves@);
    }
    proof {
        assert forall|m: Move| legal(*board, m) <==> exists|k: int| 0 <= k < result@.len() && #[trigger] result@[k].0 == m by {
            if legal(*board, m) {
                assert(moves@.contains(m));
                let k = choose|k: int| 0 <= k < moves@.len() && moves@[k] == m;
                assert(result@[k].0 == m);
            }
            if exists|k: int| 0 <= k < result@.len() && #[trigger] result@[k].0 == m {
                let k = choose|k: int| 0 <= k < result@.len() && #[trigger] result@[k].0 == m;
                assert(moves@[k] == m);
                assert(moves@.contains(m));
            }
        }
        assert forall|x: int, y: int| 0 <= x < y < result@.len() implies #[trigger] result@[x].0 != #[trigger] result@[y].0 by {
            assert(result@[x].0 == moves@[x] && result@[y].0 == moves@[y]);
        }
        assert forall|x: int, y: int| 0 <= x < y < result@.len() implies gen_band(*board, #[trigger] result@[x].0)
            <= gen_band(*board, #[trigger] result@[y].0) by {
            assert(result@[x].0 == moves@[x] && result@[y].0 == moves@[y]);
        }
    }
    result
}

} // verus!
