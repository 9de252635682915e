use vstd::prelude::*;
use crate::attacks::on_board;
use crate::bitboard::{Bitboard, lemma_bit_ops, squares_of};
use crate::sq::SQ;

verus! {

/// Squares met walking from `(rank, file)` in steps of `(dr, df)` for at most
/// `fuel` steps: every square up to and including the first occupied one, and
/// none past the board's edge.
pub open spec fn ray_walk(rank: int, file: int, dr: int, df: int, occ: Set<int>, fuel: nat) -> Set<int>
    decreases fuel,
{
    if fuel == 0 {
        Set::empty()
    } else {
        let r = rank + dr;
        let f = file + df;
        if !on_board(r, f) {
            Set::empty()
        } else if occ.contains(r * 8 + f) {
            set![r * 8 + f]
        } else {
            ray_walk(r, f, dr, df, occ, (fuel - 1) as nat).insert(r * 8 + f)
        }
    }
}

/// The ray from square `s` in direction `(dr, df)` given the occupied squares:
/// a ray is at most seven squares long.
pub open spec fn ray(s: int, dr: int, df: int, occ: Set<int>) -> Set<int> {
    ray_walk(s / 8, s % 8, dr, df, occ, 7)
}

/// Squares a rook on `s` attacks.
pub open spec fn rook_targets(s: int, occ: Set<int>) -> Set<int> {
    ray(s, 1, 0, occ) + ray(s, -1, 0, occ) + ray(s, 0, 1, occ) + ray(s, 0, -1, occ)
}

/// Squares a bishop on `s` attacks.
pub open spec fn bishop_targets(s: int, occ: Set<int>) -> Set<int> {
    ray(s, 1, 1, occ) + ray(s, 1, -1, occ) + ray(s, -1, 1, occ) + ray(s, -1, -1, occ)
}

/// Squares a queen on `s` attacks.
pub open spec fn queen_targets(s: int, occ: Set<int>) -> Set<int> {
    rook_targets(s, occ) + bishop_targets(s, occ)
}

/// Every square of a walk lies on the board.
pub proof fn lemma_ray_walk_on_board(rank: int, file: int, dr: int, df: int, occ: Set<int>, fuel: nat)
    ensures
        forall|t: int| #[trigger] ray_walk(rank, file, dr, df, occ, fuel).contains(t) ==> 0 <= t < 64,
    decreases fuel,
{
    if fuel > 0 {
        let r = rank + dr;
        let f = file + df;
        lemma_ray_walk_on_board(r, f, dr, df, occ, (fuel - 1) as nat);
        if on_board(r, f) {
            assert(0 <= r * 8 + f < 64);
            assert forall|t: int| #[trigger] ray_walk(rank, file, dr, df, occ, fuel).contains(t) implies 0 <= t < 64 by {
                if occ.contains(r * 8 + f) {
                    assert(ray_walk(rank, file, dr, df, occ, fuel) == set![r * 8 + f]);
                } else {
                    assert(ray_walk(rank, file, dr, df, occ, fuel) == ray_walk(r, f, dr, df, occ, (fuel - 1) as nat).insert(r * 8 + f));
                }
            }
        }
    }
}

/// A walk never comes back to its starting square.
pub proof fn lemma_walk_excludes(rank: int, file: int, dr: int, df: int, occ: Set<int>, fuel: nat, s: int)
    requires
        dr != 0 || df != 0,
        -1 <= dr <= 1,
        -1 <= df <= 1,
        0 <= file < 8,
        s / 8 == rank - 0 || true,
    ensures
        forall|t: int| #[trigger] ray_walk(rank, file, dr, df, occ, fuel).contains(t) ==> (t / 8 - rank) * dr
            + (t % 8 - file) * df > 0,
    decreases fuel,
{
    if fuel > 0 {
        let r = rank + dr;
        let f = file + df;
        if on_board(r, f) {
            lemma_walk_excludes(r, f, dr, df, occ, (fuel - 1) as nat, s);
            assert forall|t: int| #[trigger] ray_walk(rank, file, dr, df, occ, fuel).contains(t) implies (t / 8 - rank) * dr
                + (t % 8 - file) * df > 0 by {
                if t == r * 8 + f {
                    assert(t / 8 == r && t % 8 == f);
                    assert(dr * dr + df * df > 0) by (nonlinear_arith)
                        requires
                            dr != 0 || df != 0,
                    ;
                    assert((t / 8 - rank) * dr + (t % 8 - file) * df == dr * dr + df * df) by (nonlinear_arith)
                        requires
                            t / 8 - rank == dr,
                            t % 8 - file == df,
                    ;
                } else {
                    assert(ray_walk(r, f, dr, df, occ, (fuel - 1) as nat).contains(t));
                    assert((t / 8 - r) * dr + (t % 8 - f) * df > 0);
                    assert((t / 8 - rank) * dr + (t % 8 - file) * df == (t / 8 - r) * dr + (t % 8 - f) * df + dr * dr + df * df) by (nonlinear_arith)
                        requires
                            r == rank + dr,
                            f == file + df,
                    ;
                    assert(dr * dr + df * df >= 0) by (nonlinear_arith);
                }
            }
        }
    }
}

/// A sliding piece never targets its own square.
pub proof fn lemma_ray_excludes_origin(s: int, occ: Set<int>)
    requires
        0 <= s < 64,
    ensures
        !rook_targets(s, occ).contains(s),
        !bishop_targets(s, occ).contains(s),
        !queen_targets(s, occ).contains(s),
{
    let r = s / 8;
    let f = s % 8;
    lemma_walk_excludes(r, f, 1, 0, occ, 7, s);
    lemma_walk_excludes(r, f, -1, 0, occ, 7, s);
    lemma_walk_excludes(r, f, 0, 1, occ, 7, s);
    lemma_walk_excludes(r, f, 0, -1, occ, 7, s);
    lemma_walk_excludes(r, f, 1, 1, occ, 7, s);
    lemma_walk_excludes(r, f, 1, -1, occ, 7, s);
    lemma_walk_excludes(r, f, -1, 1, occ, 7, s);
    lemma_walk_excludes(r, f, -1, -1, occ, 7, s);
}

/// Coordinate `x` moved `n` steps in direction `d` (-1, 0 or 1).
pub open spec fn step(x: int, d: int, n: int) -> int {
    if d == 1 {
        x + n
    } else if d == -1 {
        x - n
    } else {
        x
    }
}

/// The `n`-th square of the walk from `(rank, file)`.
pub open spec fn walk_point(rank: int, file: int, dr: int, df: int, n: int) -> int {
    step(rank, dr, n) * 8 + step(file, df, n)
}

/// The squares strictly before the `n`-th of the walk are on the board and empty.
pub open spec fn walk_clear(rank: int, file: int, dr: int, df: int, occ: Set<int>, n: int) -> bool {
    forall|j: int|
        1 <= j < n ==> on_board(step(rank, dr, j), step(file, df, j)) && !occ.contains(
            #[trigger] walk_point(rank, file, dr, df, j),
        )
}

/// A walk holds exactly the squares `n` steps away (`1 <= n <= fuel`) that are on
/// the board with every square before them empty.
pub proof fn lemma_walk_char(rank: int, file: int, dr: int, df: int, occ: Set<int>, fuel: nat, t: int)
    requires
        -1 <= dr <= 1,
        -1 <= df <= 1,
    ensures
        ray_walk(rank, file, dr, df, occ, fuel).contains(t) <==> exists|n: int|
            1 <= n <= fuel && on_board(step(rank, dr, n), step(file, df, n)) && t == #[trigger] walk_point(
                rank,
                file,
                dr,
                df,
                n,
            ) && walk_clear(rank, file, dr, df, occ, n),
    decreases fuel,
{
    if fuel > 0 {
        let r = rank + dr;
        let f = file + df;
        assert(step(rank, dr, 1) == r && step(file, df, 1) == f);
        lemma_walk_char(r, f, dr, df, occ, (fuel - 1) as nat, t);
        assert forall|n: int| #[trigger] walk_point(r, f, dr, df, n) == walk_point(rank, file, dr, df, n + 1) by {}
        if ray_walk(rank, file, dr, df, occ, fuel).contains(t) {
            if t == r * 8 + f {
                assert(walk_point(rank, file, dr, df, 1) == t);
                assert(walk_clear(rank, file, dr, df, occ, 1));
            } else {
                let n = choose|n: int|
                    1 <= n <= fuel - 1 && on_board(step(r, dr, n), step(f, df, n)) && t == #[trigger] walk_point(r, f, dr, df, n)
                        && walk_clear(r, f, dr, df, occ, n);
                assert(walk_point(rank, file, dr, df, n + 1) == t);
                assert(on_board(step(rank, dr, n + 1), step(file, df, n + 1)));
                assert forall|j: int| 1 <= j < n + 1 implies on_board(step(rank, dr, j), step(file, df, j)) && !occ.contains(
                    #[trigger] walk_point(rank, file, dr, df, j)) by {
                    if j > 1 {
                        assert(walk_point(r, f, dr, df, j - 1) == walk_point(rank, file, dr, df, j));
                    }
                }
            }
        }
        if exists|n: int|
            1 <= n <= fuel && on_board(step(rank, dr, n), step(file, df, n)) && t == #[trigger] walk_point(rank, file, dr, df, n)
                && walk_clear(rank, file, dr, df, occ, n) {
            let n = choose|n: int|
                1 <= n <= fuel && on_board(step(rank, dr, n), step(file, df, n)) && t == #[trigger] walk_point(rank, file, dr, df, n)
                    && walk_clear(rank, file, dr, df, occ, n);
            if n == 1 {
                assert(on_board(r, f));
                assert(t == r * 8 + f);
            } else {
                assert(walk_point(rank, file, dr, df, 1) == r * 8 + f);
                assert(on_board(r, f));
                assert(!occ.contains(r * 8 + f));
                assert(walk_point(r, f, dr, df, n - 1) == t);
                assert forall|j: int| 1 <= j < n - 1 implies on_board(step(r, dr, j), step(f, df, j)) && !occ.contains(
                    #[trigger] walk_point(r, f, dr, df, j)) by {
                    assert(walk_point(rank, file, dr, df, j + 1) == walk_point(r, f, dr, df, j));
                }
                assert(on_board(step(r, dr, n - 1), step(f, df, n - 1)));
                assert(ray_walk(r, f, dr, df, occ, (fuel - 1) as nat).contains(t));
            }
        }
    }
}

/// If `t` is on the ray from `s` then `s` is on the opposite ray from `t`.
pub proof fn lemma_ray_symmetric(s: int, t: int, dr: int, df: int, occ: Set<int>)
    requires
        0 <= s < 64,
        -1 <= dr <= 1,
        -1 <= df <= 1,
        ray(s, dr, df, occ).contains(t),
    ensures
        ray(t, -dr, -df, occ).contains(s),
{
    let r0 = s / 8;
    let f0 = s % 8;
    lemma_walk_char(r0, f0, dr, df, occ, 7, t);
    let n = choose|n: int|
        1 <= n <= 7 && on_board(step(r0, dr, n), step(f0, df, n)) && t == #[trigger] walk_point(r0, f0, dr, df, n)
            && walk_clear(r0, f0, dr, df, occ, n);
    let rt = step(r0, dr, n);
    let ft = step(f0, df, n);
    assert(t / 8 == rt && t % 8 == ft);
    lemma_walk_char(rt, ft, -dr, -df, occ, 7, s);
    assert(walk_point(rt, ft, -dr, -df, n) == s);
    assert forall|j: int| 1 <= j < n implies on_board(step(rt, -dr, j), step(ft, -df, j)) && !occ.contains(
        #[trigger] walk_point(rt, ft, -dr, -df, j)) by {
        assert(walk_point(rt, ft, -dr, -df, j) == walk_point(r0, f0, dr, df, n - j));
        assert(step(rt, -dr, j) == step(r0, dr, n - j));
        assert(step(ft, -df, j) == step(f0, df, n - j));
    }
}

/// Rook, bishop and queen attacks are symmetric.
pub proof fn lemma_targets_symmetric(s: int, t: int, occ: Set<int>)
    requires
        0 <= s < 64,
    ensures
        rook_targets(s, occ).contains(t) ==> rook_targets(t, occ).contains(s),
        bishop_targets(s, occ).contains(t) ==> bishop_targets(t, occ).contains(s),
{
    if ray(s, 1, 0, occ).contains(t) {
        lemma_ray_symmetric(s, t, 1, 0, occ);
    }
    if ray(s, -1, 0, occ).contains(t) {
        lemma_ray_symmetric(s, t, -1, 0, occ);
    }
    if ray(s, 0, 1, occ).contains(t) {
        lemma_ray_symmetric(s, t, 0, 1, occ);
    }
    if ray(s, 0, -1, occ).contains(t) {
        lemma_ray_symmetric(s, t, 0, -1, occ);
    }
    if ray(s, 1, 1, occ).contains(t) {
        lemma_ray_symmetric(s, t, 1, 1, occ);
    }
    if ray(s, 1, -1, occ).contains(t) {
        lemma_ray_symmetric(s, t, 1, -1, occ);
    }
    if ray(s, -1, 1, occ).contains(t) {
        lemma_ray_symmetric(s, t, -1, 1, occ);
    }
    if ray(s, -1, -1, occ).contains(t) {
        lemma_ray_symmetric(s, t, -1, -1, occ);
    }
}

/// Sliding targets lie on the board.
pub proof fn lemma_slider_targets_on_board(s: int, occ: Set<int>)
    ensures
        forall|t: int| #[trigger] rook_targets(s, occ).contains(t) ==> 0 <= t < 64,
        forall|t: int| #[trigger] bishop_targets(s, occ).contains(t) ==> 0 <= t < 64,
        forall|t: int| #[trigger] queen_targets(s, occ).contains(t) ==> 0 <= t < 64,
{
    let r = s / 8;
    let f = s % 8;
    lemma_ray_walk_on_board(r, f, 1, 0, occ, 7);
    lemma_ray_walk_on_board(r, f, -1, 0, occ, 7);
    lemma_ray_walk_on_board(r, f, 0, 1, occ, 7);
    lemma_ray_walk_on_board(r, f, 0, -1, occ, 7);
    lemma_ray_walk_on_board(r, f, 1, 1, occ, 7);
    lemma_ray_walk_on_board(r, f, 1, -1, occ, 7);
    lemma_ray_walk_on_board(r, f, -1, 1, occ, 7);
    lemma_ray_walk_on_board(r, f, -1, -1, occ, 7);
}

/// The ray from `sq` in direction `(dr, df)`, as bits.
fn ray_attacks(sq: u8, occ: u64, dr: i32, df: i32) -> (r: u64)
    requires
        sq < 64,
        -1 <= dr <= 1,
        -1 <= df <= 1,
    ensures
        squares_of(r) == ray(sq as int, dr as int, df as int, squares_of(occ)),
{
    let ghost o = squares_of(occ);
    let mut rank = (sq / 8) as i32;
    let mut file = (sq % 8) as i32;
    let mut attacks: u64 = 0;
    let mut fuel: u32 = 7;
    proof {
        lemma_bit_ops();
        assert(squares_of(0) =~= Set::<int>::empty());
    }
    while fuel > 0
        invariant_except_break
            0 <= rank < 8,
            0 <= file < 8,
            fuel <= 7,
            -1 <= dr <= 1,
            -1 <= df <= 1,
            o == squares_of(occ),
            squares_of(attacks) + ray_walk(rank as int, file as int, dr as int, df as int, o, fuel as nat)
                == ray(sq as int, dr as int, df as int, o),
        ensures
            squares_of(attacks) == ray(sq as int, dr as int, df as int, o),
        decreases fuel,
    {
        let r = rank + dr;
        let f = file + df;
        if r < 0 || r >= 8 || f < 0 || f >= 8 {
            proof {
                assert(squares_of(attacks) + Set::<int>::empty() =~= squares_of(attacks));
            }
            break;
        }
        let idx = (r * 8 + f) as u64;
        let b = 1u64 << idx;
        let ghost before = attacks;
        attacks = attacks | b;
        proof {
            lemma_bit_ops();
            assert(squares_of(attacks) =~= squares_of(before).insert(r * 8 + f));
        }
        if occ & b != 0 {
            proof {
                assert(o.contains(r * 8 + f));
                assert(squares_of(before) + set![r * 8 + f] =~= squares_of(attacks));
            }
            break;
        }
        proof {
            assert(!o.contains(r * 8 + f));
            let rest = ray_walk(r as int, f as int, dr as int, df as int, o, (fuel - 1) as nat);
            assert(squares_of(before) + rest.insert(r * 8 + f) =~= squares_of(attacks) + rest);
        }
        rank = r;
        file = f;
        fuel = fuel - 1;
    }
    attacks
}

/// Squares a rook on `sq` attacks, given the occupied squares `occ`; the first
/// occupied square on each ray is included.
pub fn rook_attacks(sq: SQ, occ: Bitboard) -> (r: Bitboard)
    requires
        sq.0 < 64,
    ensures
        r@ == rook_targets(sq.0 as int, occ@),
{
    let a = ray_attacks(sq.0, occ.board, 1, 0);
    let b = ray_attacks(sq.0, occ.board, -1, 0);
    let c = ray_attacks(sq.0, occ.board, 0, 1);
    let d = ray_attacks(sq.0, occ.board, 0, -1);
    let r = a | b | c | d;
    proof {
        lemma_bit_ops();
        assert(squares_of(r) =~= rook_targets(sq.0 as int, occ@));
    }
    Bitboard::from_u64(r)
}

/// Squares a bishop on `sq` attacks, given the occupied squares `occ`.
pub fn bishop_attacks(sq: SQ, occ: Bitboard) -> (r: Bitboard)
    requires
        sq.0 < 64,
    ensures
        r@ == bishop_targets(sq.0 as int, occ@),
{
    let a = ray_attacks(sq.0, occ.board, 1, 1);
    let b = ray_attacks(sq.0, occ.board, 1, -1);
    let c = ray_attacks(sq.0, occ.board, -1, 1);
    let d = ray_attacks(sq.0, occ.board, -1, -1);
    let r = a | b | c | d;
    proof {
        lemma_bit_ops();
        assert(squares_of(r) =~= bishop_targets(sq.0 as int, occ@));
    }
    Bitboard::from_u64(r)
}

/// Squares a queen on `sq` attacks: the rook's and the bishop's together.
pub fn queen_attacks(sq: SQ, occ: Bitboard) -> (r: Bitboard)
    requires
        sq.0 < 64,
    ensures
        r@ == queen_targets(sq.0 as int, occ@),
{
    let rook = rook_attacks(sq, occ);
    let bishop = bishop_attacks(sq, occ);
    proof {
        lemma_bit_ops();
        assert(squares_of(rook.board | bishop.board) =~= queen_targets(sq.0 as int, occ@));
    }
    Bitboard::from_u64(rook.board | bishop.board)
}

/// Nothing needs preparing: sliding attacks are computed on demand.
pub fn init() {
}

} // verus!
