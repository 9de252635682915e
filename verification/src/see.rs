use vstd::prelude::*;
use crate::attacks::{king_attacks, king_targets, knight_attacks, knight_targets, pawn_attacks, pawn_targets};
use crate::bitboard::{Bitboard, is_least, lemma_bit_ops, lemma_squares_ops, lemma_trailing_zeros_least, lemma_zero_iff_empty, squares_of};
use crate::board::{Board, holder_in};
use crate::eval::PIECE_VALUES;
use crate::generator::{base, slots_apart};
use crate::piece_move::Move;
use crate::pieces::Color;
use crate::search::on_board;
use crate::sliding::{bishop_attacks, bishop_targets, lemma_ray_excludes_origin, ray, rook_attacks, rook_targets};
use crate::sq::SQ;

verus! {

/// Every piece of either colour bearing on square `s` when the squares of `o`
/// are occupied: pawns, knights and kings by their steps, bishops, rooks and
/// queens along lines `o` leaves open, sliders counted only while still in `o`.
pub open spec fn attackers_of(b: Board, s: int, o: Set<int>) -> Set<int> {
    let bishops = b.bbs[2]@ + b.bbs[8]@ + b.bbs[4]@ + b.bbs[10]@;
    let rooks = b.bbs[3]@ + b.bbs[9]@ + b.bbs[4]@ + b.bbs[10]@;
    pawn_targets(Color::Black, s).intersect(b.bbs[0]@) + pawn_targets(Color::White, s).intersect(b.bbs[6]@)
        + knight_targets(s).intersect(b.bbs[1]@ + b.bbs[7]@) + king_targets(s).intersect(b.bbs[5]@ + b.bbs[11]@)
        + bishop_targets(s, o).intersect(bishops).intersect(o) + rook_targets(s, o).intersect(rooks).intersect(o)
}

/// A knight of either colour standing a knight's move away from `s` (one rank
/// and two files, or two ranks and one file) bears on `s`, whatever squares
/// are occupied: a recapture by a knight is always seen.
pub proof fn law_knights_bear_on_their_targets(b: Board, s: int, t: int, o: Set<int>)
    requires
        0 <= s < 64,
        0 <= t < 64,
        ({
            let dr = if t / 8 >= s / 8 { t / 8 - s / 8 } else { s / 8 - t / 8 };
            let df = if t % 8 >= s % 8 { t % 8 - s % 8 } else { s % 8 - t % 8 };
            (dr == 1 && df == 2) || (dr == 2 && df == 1)
        }),
        b.bbs[1]@.contains(t) || b.bbs[7]@.contains(t),
    ensures
        attackers_of(b, s, o).contains(t),
{
    assert(knight_targets(s).contains(t));
}

/// A pawn bears on the squares diagonally ahead of it, a king on the eight
/// squares around it: a white pawn one rank below `s` on a file beside it, a
/// black pawn one rank above, and a king of either colour one step away all
/// count among the pieces bearing on `s`.
pub proof fn law_pawns_and_kings_bear_on_their_targets(b: Board, s: int, t: int, o: Set<int>)
    requires
        0 <= s < 64,
        0 <= t < 64,
    ensures
        b.bbs[0]@.contains(t) && t / 8 + 1 == s / 8 && (t % 8 + 1 == s % 8 || t % 8 == s % 8 + 1) ==> attackers_of(
            b,
            s,
            o,
        ).contains(t),
        b.bbs[6]@.contains(t) && t / 8 == s / 8 + 1 && (t % 8 + 1 == s % 8 || t % 8 == s % 8 + 1) ==> attackers_of(
            b,
            s,
            o,
        ).contains(t),
        (b.bbs[5]@.contains(t) || b.bbs[11]@.contains(t)) && t != s && -1 <= t / 8 - s / 8 <= 1 && -1 <= t % 8 - s
            % 8 <= 1 ==> attackers_of(b, s, o).contains(t),
{
    if b.bbs[0]@.contains(t) && t / 8 + 1 == s / 8 && (t % 8 + 1 == s % 8 || t % 8 == s % 8 + 1) {
        assert(pawn_targets(Color::Black, s).contains(t));
    }
    if b.bbs[6]@.contains(t) && t / 8 == s / 8 + 1 && (t % 8 + 1 == s % 8 || t % 8 == s % 8 + 1) {
        assert(pawn_targets(Color::White, s).contains(t));
    }
    if t != s && -1 <= t / 8 - s / 8 <= 1 && -1 <= t % 8 - s % 8 <= 1 {
        assert(king_targets(s).contains(t));
    }
}

/// A rook or queen next to `s` on its rank or file, and a bishop or queen next
/// to it on a diagonal, bear on `s` while their square is occupied.
pub proof fn law_adjacent_sliders_bear(b: Board, s: int, t: int, o: Set<int>)
    requires
        0 <= s < 64,
        0 <= t < 64,
        o.contains(t),
    ensures
        (b.bbs[3]@.contains(t) || b.bbs[9]@.contains(t) || b.bbs[4]@.contains(t) || b.bbs[10]@.contains(t)) && ((t
            / 8 == s / 8 && (t % 8 == s % 8 + 1 || t % 8 + 1 == s % 8)) || (t % 8 == s % 8 && (t / 8 == s / 8 + 1 || t
            / 8 + 1 == s / 8))) ==> attackers_of(b, s, o).contains(t),
        (b.bbs[2]@.contains(t) || b.bbs[8]@.contains(t) || b.bbs[4]@.contains(t) || b.bbs[10]@.contains(t)) && (t
            / 8 == s / 8 + 1 || t / 8 + 1 == s / 8) && (t % 8 == s % 8 + 1 || t % 8 + 1 == s % 8) ==> attackers_of(
            b,
            s,
            o,
        ).contains(t),
{
    let r = s / 8;
    let f = s % 8;
    let dr = t / 8 - r;
    let df = t % 8 - f;
    if -1 <= dr <= 1 && -1 <= df <= 1 && !(dr == 0 && df == 0) {
        assert(t == (r + dr) * 8 + (f + df));
        assert(ray(s, dr, df, o).contains(t));
        if dr == 0 || df == 0 {
            assert(rook_targets(s, o).contains(t));
        } else {
            assert(bishop_targets(s, o).contains(t));
        }
    }
}

/// The pieces bearing on `sq` given the occupancy `occ`.
fn attackers_to(board: &Board, sq: SQ, occ: u64) -> (r: u64)
    requires
        sq.0 < 64,
    ensures
        squares_of(r) == attackers_of(*board, sq.0 as int, squares_of(occ)),
{
    proof {
        lemma_squares_ops();
    }
    let bishops = board.bbs[2].board | board.bbs[8].board | board.bbs[4].board | board.bbs[10].board;
    let rooks = board.bbs[3].board | board.bbs[9].board | board.bbs[4].board | board.bbs[10].board;
    let o = Bitboard::from_u64(occ);
    let r = (pawn_attacks(sq, Color::Black).board & board.bbs[0].board) | (pawn_attacks(sq, Color::White).board
        & board.bbs[6].board) | (knight_attacks(sq).board & (board.bbs[1].board | board.bbs[7].board)) | (
    king_attacks(sq).board & (board.bbs[5].board | board.bbs[11].board)) | (bishop_attacks(sq, o).board & bishops
        & occ) | (rook_attacks(sq, o).board & rooks & occ);
    proof {
        assert(squares_of(r) =~= attackers_of(*board, sq.0 as int, squares_of(occ)));
    }
    r
}

/// The kind (`0 .. 6`) of `color`'s piece on `sq`, if any.
pub open spec fn kind_on(b: Board, s: int, color: Color) -> Option<int> {
    match holder_in(b, s, base(color), base(color) + 6) {
        Some(i) => Some(i - base(color)),
        None => None,
    }
}

fn piece_on(board: &Board, sq: usize, color: Color) -> (r: Option<usize>)
    requires
        sq < 64,
    ensures
        r matches Some(k) ==> k < 6,
        r is Some <==> kind_on(*board, sq as int, color) is Some,
        r matches Some(k) ==> kind_on(*board, sq as int, color) == Some(k as int),
{
    let off: usize = if color == Color::White { 0 } else { 6 };
    let mut i: usize = 0;
    while i < 6
        invariant
            sq < 64,
            off == base(color),
            i <= 6,
            holder_in(*board, sq as int, off as int, off + 6) == holder_in(*board, sq as int, off + i, off + 6),
        decreases 6 - i,
    {
        if board.bbs[off + i].get(sq) {
            return Some(i);
        }
        i = i + 1;
    }
    None
}

/// The capture is an en-passant one: nothing stands on the target, which is
/// the en-passant square, and a pawn of the side to move makes it.
pub open spec fn see_en_passant(b: Board, m: Move) -> bool {
    &&& kind_on(b, m.dest.0 as int, b.side_to_move.other()) is None
    &&& b.en_passant == Some(m.dest)
    &&& b.bbs[base(b.side_to_move)]@.contains(m.src.0 as int)
}

/// What the first capture takes.
pub open spec fn see_victim(b: Board, m: Move) -> int {
    match kind_on(b, m.dest.0 as int, b.side_to_move.other()) {
        Some(k) => PIECE_VALUES[k] as int,
        None => if see_en_passant(b, m) {
            PIECE_VALUES[0] as int
        } else {
            0
        },
    }
}


/// The square of the pawn an en-passant capture takes: behind the target, seen
/// from the side to move.
pub open spec fn ep_victim_square(b: Board, m: Move) -> int {
    if b.side_to_move == Color::White {
        m.dest.0 - 8
    } else {
        m.dest.0 + 8
    }
}

/// The squares still occupied once the first capture is made: every piece but
/// the mover and, en passant, the pawn taken.
pub open spec fn see_occ(b: Board, m: Move) -> Set<int> {
    let all = b.player_bbs[0]@ + b.player_bbs[1]@;
    let rest = if see_en_passant(b, m) {
        all.remove(ep_victim_square(b, m))
    } else {
        all
    };
    rest.remove(m.src.0 as int)
}

/// The least square of a non-empty set of squares.
pub open spec fn least_square(s: Set<int>) -> int {
    choose|i: int| is_least(s, i)
}

/// The first kind from `k` on (pawn 0 to king 5) of which `side` has a piece
/// among the squares `att`.
pub open spec fn least_kind(b: Board, side: Color, att: Set<int>, k: int) -> Option<int>
    decreases 6 - k,
{
    if k < 0 || k >= 6 {
        None
    } else if b.bbs[base(side) + k]@.intersect(att) != Set::<int>::empty() {
        Some(k)
    } else {
        least_kind(b, side, att, k + 1)
    }
}

/// The recapture `side` makes on `dest` with the squares of `o` occupied: the
/// kind of its least valuable attacker and that piece's square (the lowest of
/// its kind). None when `side` has no attacker left, or when the only one is
/// its king and the other side still bears on the square.
pub open spec fn next_capture(b: Board, dest: int, o: Set<int>, side: Color) -> Option<(int, int)> {
    let att = attackers_of(b, dest, o).intersect(o);
    match least_kind(b, side, att, 0) {
        None => None,
        Some(k) => {
            let from = least_square(b.bbs[base(side) + k]@.intersect(att));
            if k == 5 && att.intersect(b.player_bbs[side.other().index()]@).remove(from) != Set::<int>::empty() {
                None
            } else {
                Some((k, from))
            }
        },
    }
}

/// A state of the exchange: the occupied squares, the side to capture next,
/// and the value of the piece on the target square. One step plays the next
/// recapture, if there is one.
pub open spec fn exchange_step(b: Board, dest: int, st: (Set<int>, Color, int)) -> Option<(Set<int>, Color, int)> {
    match next_capture(b, dest, st.0, st.1) {
        None => None,
        Some((k, from)) => Some((st.0.remove(from), st.1.other(), PIECE_VALUES[k] as int)),
    }
}

/// What the side to capture gains from the exchange in state `st`, with at
/// most `n` more captures: it recaptures only when taking the piece on the
/// square and facing the rest of the exchange beats standing pat.
pub open spec fn exchange(b: Board, dest: int, st: (Set<int>, Color, int), n: nat) -> int
    decreases n,
{
    if n == 0 {
        0
    } else {
        match exchange_step(b, dest, st) {
            None => 0,
            Some(next) => {
                let e = st.2 - exchange(b, dest, next, (n - 1) as nat);
                if e > 0 {
                    e
                } else {
                    0
                }
            },
        }
    }
}

/// Standing pat is always allowed, and no recapture wins more than the piece on
/// the square.
pub proof fn lemma_exchange_bounds(b: Board, dest: int, st: (Set<int>, Color, int), n: nat)
    ensures
        0 <= exchange(b, dest, st, n),
        st.2 >= 0 ==> exchange(b, dest, st, n) <= st.2,
    decreases n,
{
    if n > 0 {
        if let Some(next) = exchange_step(b, dest, st) {
            lemma_exchange_bounds(b, dest, next, (n - 1) as nat);
        }
    }
}

/// The value of every kind of piece lies between zero and a queen's.
proof fn lemma_piece_values()
    ensures
        forall|k: int| 0 <= k < 6 ==> 0 <= #[trigger] PIECE_VALUES[k] <= 900,
{
    assert(PIECE_VALUES[0] == 100 && PIECE_VALUES[1] == 320 && PIECE_VALUES[2] == 330);
    assert(PIECE_VALUES[3] == 500 && PIECE_VALUES[4] == 900 && PIECE_VALUES[5] == 0);
}

/// A least element is the least square.
proof fn lemma_least_square(s: Set<int>, t: int)
    requires
        is_least(s, t),
    ensures
        least_square(s) == t,
{
    let l = least_square(s);
    assert(is_least(s, l));
    assert(l <= t && t <= l);
}

/// The next recapture: the least valuable attacker `side` has among
/// `attackers` (the lowest square of its kind), unless it is the king and the
/// other side still bears on the square.
fn recapture(board: &Board, dest: SQ, side: Color, attackers: u64, occ: u64) -> (r: Option<(usize, u64)>)
    requires
        dest.0 < 64,
        squares_of(attackers) == attackers_of(*board, dest.0 as int, squares_of(occ)).intersect(squares_of(occ)),
    ensures
        r is None ==> next_capture(*board, dest.0 as int, squares_of(occ), side) is None,
        r matches Some((k, t)) ==> {
            &&& k < 6
            &&& t < 64
            &&& next_capture(*board, dest.0 as int, squares_of(occ), side) == Some((k as int, t as int))
        },
{
    proof {
        lemma_squares_ops();
        lemma_bit_ops();
    }
    let ghost att = squares_of(attackers);
    let off: usize = if side == Color::White { 0 } else { 6 };
    let mut kind: usize = 0;
    while kind < 6
        invariant
            kind <= 6,
            dest.0 < 64,
            off == base(side),
            att == squares_of(attackers),
            att == attackers_of(*board, dest.0 as int, squares_of(occ)).intersect(squares_of(occ)),
            att.subset_of(squares_of(occ)),
            least_kind(*board, side, att, 0) == least_kind(*board, side, att, kind as int),
        decreases 6 - kind,
    {
        let bb = board.bbs[off + kind].board & attackers & occ;
        proof {
            lemma_squares_ops();
            lemma_bit_ops();
            let pieces = board.bbs[off + kind].board;
            assert(squares_of(pieces & attackers) == squares_of(pieces).intersect(att));
            assert(squares_of(bb) == squares_of(pieces & attackers).intersect(squares_of(occ)));
            assert(squares_of(bb) =~= board.bbs[off + kind]@.intersect(att));
            lemma_zero_iff_empty(bb);
        }
        if bb != 0 {
            let t = bb.trailing_zeros() as u64;
            proof {
                lemma_trailing_zeros_least(bb);
                lemma_least_square(board.bbs[off + kind]@.intersect(att), t as int);
                assert(least_kind(*board, side, att, kind as int) == Some(kind as int));
            }
            if kind == 5 {
                let enemy = board.player_bbs[side.opposite().to_index()].board;
                let rest = attackers & occ & enemy & !(1u64 << t);
                proof {
                    assert(squares_of(1u64 << t) =~= Set::<int>::empty().insert(t as int));
                    assert(squares_of(rest) =~= att.intersect(board.player_bbs[side.other().index()]@).remove(
                        t as int,
                    ));
                    lemma_zero_iff_empty(rest);
                }
                if rest != 0 {
                    return None;
                }
            }
            return Some((kind, t));
        }
        kind = kind + 1;
    }
    None
}

/// Static exchange evaluation: the material the capture `mv` wins once both
/// sides have traded on its target square with their least valuable attacker
/// each time, x-rays included, each side stopping when going on would lose.
/// A king only takes last. At most 31 recaptures are played out. Zero when the
/// side to move has no piece on the source square.
#[verifier::spinoff_prover]
#[verifier::rlimit(40)]
pub fn see(board: &Board, mv: Move) -> (r: i32)
    requires
        on_board(mv),
        see_en_passant(*board, mv) ==> 0 <= ep_victim_square(*board, mv) < 64,
    ensures
        kind_on(*board, mv.src.0 as int, board.side_to_move) is None ==> r == 0,
        kind_on(*board, mv.src.0 as int, board.side_to_move) matches Some(k) ==> r == see_victim(*board, mv)
            - exchange(
            *board,
            mv.dest.0 as int,
            (see_occ(*board, mv), board.side_to_move.other(), PIECE_VALUES[k] as int),
            31,
        ),
{
    proof {
        lemma_squares_ops();
        lemma_bit_ops();
        lemma_piece_values();
    }
    let dest = mv.get_dest();
    let src = mv.get_src();
    let us = board.side_to_move;
    let ghost d = dest.0 as int;
    let mut occ = board.player_bbs[0].board | board.player_bbs[1].board;
    let captured = piece_on(board, dest.to_usize(), us.opposite());
    let our_pawns: usize = if us == Color::White { 0 } else { 6 };
    let ep = captured.is_none() && board.en_passant == Some(dest) && board.bbs[our_pawns].get(src.to_usize());
    assert(ep == see_en_passant(*board, mv));
    let mut gain = [0i32; 32];
    let first = match captured {
        Some(kind) => PIECE_VALUES[kind],
        None => if ep {
            PIECE_VALUES[0]
        } else {
            0
        },
    };
    assert(first == see_victim(*board, mv));
    gain[0] = first;
    let ghost all = squares_of(occ);
    if ep {
        let cap_sq = if us == Color::White {
            dest.to_usize() - 8
        } else {
            dest.to_usize() + 8
        };
        occ = occ & !(1u64 << cap_sq);
        proof {
            assert(squares_of(occ) =~= all.remove(ep_victim_square(*board, mv)));
        }
    }
    let mut on_square = match piece_on(board, src.to_usize(), us) {
        Some(kind) => kind,
        None => {
            return 0;
        },
    };
    let ghost mover = on_square;
    occ = occ & !(1u64 << src.to_usize());
    proof {
        assert(squares_of(occ) =~= see_occ(*board, mv));
    }
    let mut side = us.opposite();
    let mut depth: usize = 0;
    let mut attackers = attackers_to(board, dest, occ) & occ;
    let ghost mut states: Seq<(Set<int>, Color, int)> = seq![(squares_of(occ), side, PIECE_VALUES[mover as int] as int)];
    loop
        invariant_except_break
            dest.0 < 64,
            d == dest.0,
            depth < 32,
            on_square < 6,
            mover < 6,
            gain@.len() == 32,
            gain@[0] == first,
            0 <= first <= 900,
            states.len() == depth + 1,
            states[0] == (see_occ(*board, mv), us.other(), PIECE_VALUES[mover as int] as int),
            states[depth as int] == (squares_of(occ), side, PIECE_VALUES[on_square as int] as int),
            squares_of(attackers) == attackers_of(*board, d, squares_of(occ)).intersect(squares_of(occ)),
            forall|i: int| 0 <= i < depth ==> exchange_step(*board, d, #[trigger] states[i]) == Some(states[i + 1]),
            forall|i: int| 0 <= i <= depth ==> 0 <= (#[trigger] states[i]).2 <= 900,
            forall|i: int| 1 <= i <= depth ==> #[trigger] gain@[i] == states[i - 1].2 - gain@[i - 1],
            forall|k: int| 0 <= k <= depth ==> -900 * (k + 1) <= #[trigger] gain@[k] <= 900 * (k + 1),
        ensures
            depth < 32,
            gain@.len() == 32,
            gain@[0] == first,
            states.len() == depth + 1,
            states[0] == (see_occ(*board, mv), us.other(), PIECE_VALUES[mover as int] as int),
            forall|i: int| 0 <= i < depth ==> exchange_step(*board, d, #[trigger] states[i]) == Some(states[i + 1]),
            forall|i: int| 0 <= i <= depth ==> 0 <= (#[trigger] states[i]).2 <= 900,
            forall|i: int| 1 <= i <= depth ==> #[trigger] gain@[i] == states[i - 1].2 - gain@[i - 1],
            forall|k: int| 0 <= k <= depth ==> -900 * (k + 1) <= #[trigger] gain@[k] <= 900 * (k + 1),
            exchange(*board, d, states[depth as int], (31 - depth) as nat) == 0,
        decreases 32 - depth,
    {
        let ghost o = squares_of(occ);
        let ghost cur = states[depth as int];
        let (kind, t) = match recapture(board, dest, side, attackers, occ) {
            Some(v) => v,
            None => {
                break;
            },
        };
        let ghost next = (o.remove(t as int), side.other(), PIECE_VALUES[kind as int] as int);
        assert(exchange_step(*board, d, cur) == Some(next));
        if depth + 1 >= 32 {
            break;
        }
        depth = depth + 1;
        let prev = gain[depth - 1];
        gain[depth] = PIECE_VALUES[on_square] - prev;
        on_square = kind;
        let gone: u64 = 1u64 << t;
        proof {
            lemma_squares_ops();
            lemma_bit_ops();
            assert(squares_of(gone) =~= Set::<int>::empty().insert(t as int));
            assert(squares_of(occ & !gone) == o.difference(squares_of(gone)));
        }
        occ = occ & !gone;
        proof {
            assert(squares_of(occ) =~= o.remove(t as int));
        }
        let near = attackers_to(board, dest, occ);
        attackers = near & occ;
        proof {
            assert(squares_of(attackers) == squares_of(near).intersect(squares_of(occ)));
        }
        side = side.opposite();
        proof {
            states = states.push(next);
            assert(states[depth - 1] == cur);
        }
    }
    let ghost dd = depth;
    let ghost fwd = gain@;
    proof {
        lemma_exchange_bounds(*board, d, states[depth as int], (31 - depth) as nat);
    }
    while depth > 0
        invariant
            depth <= dd < 32,
            gain@.len() == 32,
            fwd.len() == 32,
            states.len() == dd + 1,
            forall|i: int| 0 <= i < dd ==> exchange_step(*board, d, #[trigger] states[i]) == Some(states[i + 1]),
            forall|i: int| 0 <= i <= dd ==> 0 <= (#[trigger] states[i]).2 <= 900,
            forall|i: int| 1 <= i <= dd ==> #[trigger] fwd[i] == states[i - 1].2 - fwd[i - 1],
            forall|k: int| 0 <= k <= dd ==> -900 * (k + 1) <= #[trigger] fwd[k] <= 900 * (k + 1),
            forall|k: int| 0 <= k < depth ==> #[trigger] gain@[k] == fwd[k],
            gain@[depth as int] == fwd[depth as int] - exchange(*board, d, states[depth as int], (31 - depth) as nat),
            0 <= exchange(*board, d, states[depth as int], (31 - depth) as nat) <= 900,
        decreases depth,
    {
        let ghost e = exchange(*board, d, states[depth as int], (31 - depth) as nat);
        let ghost pv = states[depth - 1].2;
        assert(fwd[depth as int] == pv - fwd[depth - 1]);
        assert(-900 * (depth as int) <= fwd[depth - 1] <= 900 * (depth as int));
        assert(-900 * (depth + 1) <= fwd[depth as int] <= 900 * (depth + 1));
        let a = gain[depth - 1];
        let b = gain[depth];
        let v = if -a > b {
            a
        } else {
            -b
        };
        gain[depth - 1] = v;
        proof {
            let n = (31 - depth) as nat;
            assert(exchange_step(*board, d, states[depth - 1]) == Some(states[depth as int]));
            assert((31 - (depth - 1)) as nat == n + 1);
            assert(exchange(*board, d, states[depth - 1], n + 1) == if pv - e > 0 { pv - e } else { 0 });
            lemma_exchange_bounds(*board, d, states[depth - 1], n + 1);
        }
        depth = depth - 1;
    }
    gain[0]
}

/// No kind has a piece among no squares.
proof fn lemma_least_kind_none(b: Board, side: Color, k: int)
    requires
        0 <= k <= 6,
    ensures
        least_kind(b, side, Set::<int>::empty(), k) is None,
    decreases 6 - k,
{
    if k < 6 {
        assert(b.bbs[base(side) + k]@.intersect(Set::<int>::empty()) =~= Set::<int>::empty());
        lemma_least_kind_none(b, side, k + 1);
    }
}

/// A capture whose target is defended only by a knight: with the two kings
/// out of reach of the target and no other piece on the board, the knight
/// takes back and the exchange ends there, so the capture gains the victim's
/// value less the mover's.
pub proof fn law_see_capture_defended_by_a_knight(b: Board, m: Move, t: int, kk: int, kg: int)
    requires
        on_board(m),
        slots_apart(b),
        b.player_bbs[b.side_to_move.index()]@ == set![m.src.0 as int, kg],
        b.player_bbs[b.side_to_move.other().index()]@ == set![m.dest.0 as int, t, kk],
        forall|i: int|
            0 <= i < 12 ==> (#[trigger] b.bbs[i]@).subset_of(b.player_bbs[0]@ + b.player_bbs[1]@),
        kind_on(b, m.src.0 as int, b.side_to_move) is Some,
        kind_on(b, m.dest.0 as int, b.side_to_move.other()) is Some,
        b.bbs[base(b.side_to_move.other()) + 1]@.contains(t),
        b.bbs[base(b.side_to_move.other()) + 5]@.contains(kk),
        b.bbs[base(b.side_to_move) + 5]@.contains(kg),
        0 <= t < 64,
        0 <= kk < 64,
        0 <= kg < 64,
        ({
            let s = m.dest.0 as int;
            let dr = if t / 8 >= s / 8 { t / 8 - s / 8 } else { s / 8 - t / 8 };
            let df = if t % 8 >= s % 8 { t % 8 - s % 8 } else { s % 8 - t % 8 };
            (dr == 1 && df == 2) || (dr == 2 && df == 1)
        }),
        !(-1 <= kk / 8 - m.dest.0 / 8 <= 1 && -1 <= kk % 8 - m.dest.0 % 8 <= 1),
        !(-1 <= kg / 8 - m.dest.0 / 8 <= 1 && -1 <= kg % 8 - m.dest.0 % 8 <= 1),
        m.src.0 != m.dest.0,
        m.src.0 != t && m.src.0 != kk && m.src.0 != kg,
        m.dest.0 != t && m.dest.0 != kk && m.dest.0 != kg,
        t != kk && t != kg && kk != kg,
    ensures
        see_victim(b, m) - exchange(
            b,
            m.dest.0 as int,
            (see_occ(b, m), b.side_to_move.other(), PIECE_VALUES[kind_on(b, m.src.0 as int, b.side_to_move).unwrap()] as int),
            31,
        ) == PIECE_VALUES[kind_on(b, m.dest.0 as int, b.side_to_move.other()).unwrap()] - PIECE_VALUES[kind_on(
            b,
            m.src.0 as int,
            b.side_to_move,
        ).unwrap()],
{
    let c = b.side_to_move;
    let o = c.other();
    let s = m.src.0 as int;
    let d = m.dest.0 as int;
    let k = kind_on(b, s, c).unwrap();
    crate::board::lemma_holder_in_range(b, s, base(c), base(c) + 6);
    assert(0 <= k < 6);
    lemma_piece_values();
    assert(c.index() + o.index() == 1);
    assert(b.player_bbs[0]@ + b.player_bbs[1]@ =~= set![s, kg, d, t, kk]);
    assert(!see_en_passant(b, m));
    let occ = see_occ(b, m);
    assert(occ =~= set![kg, d, t, kk]);
    assert forall|j: int| 0 <= j < 12 && j != base(o) + 5 implies !(#[trigger] b.bbs[j]@).contains(kk) by {
        assert(b.bbs[j]@.disjoint(b.bbs[base(o) + 5]@));
    }
    assert forall|j: int| 0 <= j < 12 && j != base(c) + 5 implies !(#[trigger] b.bbs[j]@).contains(kg) by {
        assert(b.bbs[j]@.disjoint(b.bbs[base(c) + 5]@));
    }
    assert forall|j: int| 0 <= j < 12 && j != base(o) + 1 implies !(#[trigger] b.bbs[j]@).contains(t) by {
        assert(b.bbs[j]@.disjoint(b.bbs[base(o) + 1]@));
    }
    assert(knight_targets(d).contains(t));
    assert(!king_targets(d).contains(kk));
    assert(!king_targets(d).contains(kg));
    lemma_ray_excludes_origin(d, occ);
    assert(!knight_targets(d).contains(d));
    assert(!king_targets(d).contains(d));
    assert(!pawn_targets(Color::White, d).contains(d));
    assert(!pawn_targets(Color::Black, d).contains(d));
    let att = attackers_of(b, d, occ).intersect(occ);
    assert(att =~= set![t]);
    assert(b.bbs[base(o) + 1]@.intersect(att) =~= set![t]);
    assert(b.bbs[base(o) + 0]@.intersect(att) =~= Set::<int>::empty());
    assert(b.bbs[base(o) + 1]@.intersect(att).contains(t));
    assert(b.bbs[base(o) + 1]@.intersect(att) != Set::<int>::empty());
    assert(least_kind(b, o, att, 1) == Some(1int));
    assert(least_kind(b, o, att, 0) == Some(1int));
    lemma_least_square(set![t], t);
    assert(next_capture(b, d, occ, o) == Some((1int, t)));
    let occ2 = occ.remove(t);
    lemma_ray_excludes_origin(d, occ2);
    let att2 = attackers_of(b, d, occ2).intersect(occ2);
    assert(att2 =~= Set::<int>::empty());
    lemma_least_kind_none(b, c, 0);
    assert(o.other() == c);
    assert(next_capture(b, d, occ2, c) is None);
    let st = (occ, o, PIECE_VALUES[k] as int);
    assert(exchange_step(b, d, st) == Some((occ2, c, PIECE_VALUES[1] as int)));
    assert(exchange(b, d, (occ2, c, PIECE_VALUES[1] as int), 30) == 0);
    assert(exchange(b, d, st, 31) == PIECE_VALUES[k]);
}

} // verus!
