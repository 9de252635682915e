use vstd::prelude::*;
use vstd::std_specs::bits::u64_trailing_zeros;
use vstd::arithmetic::power2::{pow2, lemma2_to64, lemma_pow2_unfold};
use crate::attacks::{abs, knight_attacks, knight_targets};
use crate::bitboard::{
    Bitboard, bit, popcount, squares_of, bit_count, is_least, lemma_bit_ops, lemma_clear_decreases,
    lemma_squares_ops, lemma_trailing_zeros_least, lemma_squares_injective, lemma_zero_iff_empty,
};
use crate::board::Board;
use crate::params::{W, lemma_weights_bounded};
use crate::pieces::Color;
use crate::sliding::{bishop_attacks, bishop_targets, queen_attacks, queen_targets, rook_attacks, rook_targets};
use crate::sq::SQ;

verus! {

// Nominal piece values used by the search (move ordering, pruning margins).
// The evaluation's own material weights live in `params::W`.
pub const PAWN: i32 = 100;
pub const KNIGHT: i32 = 320;
pub const BISHOP: i32 = 330;
pub const ROOK: i32 = 500;
pub const QUEEN: i32 = 900;

pub const PIECE_VALUES: [i32; 6] = [PAWN, KNIGHT, BISHOP, ROOK, QUEEN, 0];

// Offsets of the weight groups in `params::W`. Every term reports
// "weight i, counted n times, white minus black" to a `Trace`.
pub const MATERIAL: usize = 0;
pub const PST: usize = 6;
pub const MOBILITY: usize = 390;
pub const DOUBLED_PAWN: usize = 394;
pub const ISOLATED_PAWN: usize = 395;
pub const PASSED_PAWN: usize = 396;
pub const BISHOP_PAIR: usize = 404;
pub const SHIELD_PAWN_HOME: usize = 405;
pub const SHIELD_PAWN_ADVANCED: usize = 406;
pub const UNDEVELOPED_MINOR: usize = 407;
pub const EARLY_QUEEN: usize = 408;
pub const TEMPO: usize = 409;
pub const NUM_PARAMS: usize = 410;

pub const PHASE_KNIGHT: i32 = 1;
pub const PHASE_BISHOP: i32 = 1;
pub const PHASE_ROOK: i32 = 2;
pub const PHASE_QUEEN: i32 = 4;
pub const PHASE_MAX: i32 = 24;

/// Receives evaluation terms as (weight index, white-minus-black count).
///
/// `absorb` is the tracer after one more term; `fits` says the term can be
/// taken without overflow.
pub trait Trace: Sized {
    spec fn absorb(self, param: int, n: int) -> Self;

    spec fn fits(self, param: int, n: int) -> bool;

    fn add(&mut self, param: usize, n: i32)
        requires
            param < NUM_PARAMS,
            old(self).fits(param as int, n as int),
        ensures
            *final(self) == old(self).absorb(param as int, n as int),
    ;
}

/// The tracer after a whole list of terms, taken in order.
pub open spec fn replay<T: Trace>(t: T, log: Seq<(int, int)>) -> T
    decreases log.len(),
{
    if log.len() == 0 {
        t
    } else {
        replay(t, log.drop_last()).absorb(log.last().0, log.last().1)
    }
}

/// Every term of `log` fits when taken in order from `t`.
pub open spec fn fits_all<T: Trace>(t: T, log: Seq<(int, int)>) -> bool
    decreases log.len(),
{
    log.len() == 0 || (fits_all(t, log.drop_last()) && replay(t, log.drop_last()).fits(
        log.last().0,
        log.last().1,
    ))
}

/// Taking two lists of terms one after the other.
pub proof fn lemma_replay_concat<T: Trace>(t: T, a: Seq<(int, int)>, b: Seq<(int, int)>)
    ensures
        replay(t, a + b) == replay(replay(t, a), b),
        fits_all(t, a + b) == (fits_all(t, a) && fits_all(replay(t, a), b)),
    decreases b.len(),
{
    if b.len() == 0 {
        assert(a + b =~= a);
    } else {
        lemma_replay_concat(t, a, b.drop_last());
        assert((a + b).drop_last() =~= a + b.drop_last());
        assert((a + b).last() == b.last());
    }
}

/// A middle stretch of a fitting list fits from where it starts.
pub proof fn lemma_split<T: Trace>(
    t: T,
    done: Seq<(int, int)>,
    x: Seq<(int, int)>,
    rest: Seq<(int, int)>,
)
    requires
        fits_all(t, done + x + rest),
    ensures
        fits_all(replay(t, done), x),
        replay(replay(t, done), x) == replay(t, done + x),
{
    lemma_replay_concat(t, done + x, rest);
    lemma_replay_concat(t, done, x);
}

/// Takes one term, the next of a list known to fit.
fn emit<T: Trace>(
    t: &mut T,
    param: usize,
    n: i32,
    Ghost(t0): Ghost<T>,
    Ghost(done): Ghost<Seq<(int, int)>>,
    Ghost(rest): Ghost<Seq<(int, int)>>,
)
    requires
        param < NUM_PARAMS,
        *old(t) == replay(t0, done),
        fits_all(t0, done + seq![(param as int, n as int)] + rest),
    ensures
        *final(t) == replay(t0, done.push((param as int, n as int))),
{
    proof {
        let e = (param as int, n as int);
        lemma_replay_concat(t0, done + seq![e], rest);
        assert(done.push(e) =~= done + seq![e]);
        assert(done.push(e).drop_last() =~= done);
    }
    t.add(param, n);
}

/// The evaluation accumulator: middlegame and endgame sums of weight × count.
#[derive(Clone, Copy, Debug)]
pub struct Score {
    pub mg: i32,
    pub eg: i32,
}

/// Rust's `/` on integers: the quotient rounded toward zero.
pub open spec fn trunc_div(a: int, d: int) -> int {
    if a >= 0 {
        a / d
    } else {
        -((-a) / d)
    }
}

/// The phase-weighted blend of a middlegame and an endgame score.
pub open spec fn tapered(mg: int, eg: int, phase: int) -> int {
    trunc_div(mg * phase + eg * (PHASE_MAX - phase), PHASE_MAX as int)
}

impl Default for Score {
    fn default() -> (r: Score)
        ensures
            r.mg == 0 && r.eg == 0,
    {
        Score { mg: 0, eg: 0 }
    }
}

impl Score {
    /// Blends the two sums by game phase: all middlegame at `PHASE_MAX`, all
    /// endgame at 0.
    pub fn taper(&self, phase: i32) -> (r: i32)
        requires
            (0 <= phase <= PHASE_MAX) || {
                &&& i32::MIN <= self.mg * phase <= i32::MAX
                &&& i32::MIN <= PHASE_MAX - phase <= i32::MAX
                &&& i32::MIN <= self.eg * (PHASE_MAX - phase) <= i32::MAX
                &&& i32::MIN <= self.mg * phase + self.eg * (PHASE_MAX - phase) <= i32::MAX
            },
        ensures
            r == tapered(self.mg as int, self.eg as int, phase as int),
    {
        let mg: i128 = self.mg as i128;
        let eg: i128 = self.eg as i128;
        let p: i128 = phase as i128;
        let rest: i128 = 24 - p;
        proof {
            assert(-0x8000_0000 * 0x8000_0000 <= mg * p <= 0x8000_0000 * 0x8000_0000) by (nonlinear_arith)
                requires
                    -0x8000_0000 <= p <= 0x7fff_ffff,
                    -0x8000_0000 <= mg <= 0x7fff_ffff,
            ;
            assert(-0x8000_0000 * 0x8000_0020 <= eg * rest <= 0x8000_0000 * 0x8000_0020) by (nonlinear_arith)
                requires
                    -0x7fff_ffff + 24 <= rest <= 0x8000_0000 + 24,
                    -0x8000_0000 <= eg <= 0x7fff_ffff,
            ;
            if 0 <= phase <= PHASE_MAX {
                assert(-24 * 0x8000_0000 <= mg * p + eg * rest <= 24 * 0x7fff_ffff) by (nonlinear_arith)
                    requires
                        0 <= p <= 24,
                        rest == 24 - p,
                        -0x8000_0000 <= mg <= 0x7fff_ffff,
                        -0x8000_0000 <= eg <= 0x7fff_ffff,
                ;
            }
        }
        let blended: i128 = mg * p + eg * rest;
        let q: i128 = blended / 24;
        proof {
            if blended >= 0 {
                assert(q == blended as int / 24);
            } else {
                assert(q == -((-blended as int) / 24));
            }
            assert(blended == self.mg * phase + self.eg * (PHASE_MAX - phase));
            assert(-0x8000_0000 <= q <= 0x7fff_ffff);
        }
        q as i32
    }
}

impl Trace for Score {
    open spec fn absorb(self, param: int, n: int) -> Self {
        Score { mg: (self.mg + W[param][0] * n) as i32, eg: (self.eg + W[param][1] * n) as i32 }
    }

    open spec fn fits(self, param: int, n: int) -> bool {
        &&& 0 <= param < NUM_PARAMS
        &&& i32::MIN <= W[param][0] * n <= i32::MAX
        &&& i32::MIN <= W[param][1] * n <= i32::MAX
        &&& i32::MIN <= self.mg + W[param][0] * n <= i32::MAX
        &&& i32::MIN <= self.eg + W[param][1] * n <= i32::MAX
    }

    fn add(&mut self, param: usize, n: i32) {
        self.mg = self.mg + W[param][0] * n;
        self.eg = self.eg + W[param][1] * n;
    }
}

/// How often each weight was taken, white minus black: the tracer that the
/// tuner reads.
pub struct Coeffs {
    pub counts: [i32; 410],
}

impl Coeffs {
    /// No weight taken yet.
    pub fn new() -> (r: Coeffs)
        ensures
            forall|i: int| 0 <= i < NUM_PARAMS ==> #[trigger] r.counts[i] == 0,
    {
        Coeffs { counts: [0i32; 410] }
    }
}

impl Trace for Coeffs {
    open spec fn absorb(self, param: int, n: int) -> Self {
        Coeffs { counts: vstd::array::spec_array_update(self.counts, param, (self.counts[param] + n) as i32) }
    }

    open spec fn fits(self, param: int, n: int) -> bool {
        &&& 0 <= param < NUM_PARAMS
        &&& i32::MIN <= self.counts[param] + n <= i32::MAX
    }

    fn add(&mut self, param: usize, n: i32) {
        let v = self.counts[param] + n;
        self.counts[param] = v;
        proof {
            let want = vstd::array::spec_array_update(old(self).counts, param as int, v);
            assert(self.counts =~= want);
        }
    }
}

/// The squares of `b` in ascending order.
pub open spec fn ascending(b: u64) -> Seq<int>
    decreases b,
{
    if b == 0 {
        Seq::empty()
    } else {
        let i = u64_trailing_zeros(b);
        proof {
            lemma_trailing_zeros_least(b);
            lemma_clear_decreases(b, i as u64);
        }
        seq![i as int] + ascending(b & !(1u64 << i))
    }
}

/// One step of `ascending`: the least square comes first, then the others.
pub proof fn lemma_ascending_step(b: u64)
    requires
        b != 0,
    ensures
        u64_trailing_zeros(b) < 64,
        is_least(squares_of(b), u64_trailing_zeros(b) as int),
        squares_of(b & !(1u64 << u64_trailing_zeros(b))) == squares_of(b).remove(
            u64_trailing_zeros(b) as int,
        ),
        ascending(b) == seq![u64_trailing_zeros(b) as int] + ascending(
            b & !(1u64 << u64_trailing_zeros(b)),
        ),
{
    let i = u64_trailing_zeros(b);
    lemma_trailing_zeros_least(b);
    lemma_bit_ops();
    let c = b & !(1u64 << i);
    assert(squares_of(c) =~= squares_of(b).remove(i as int)) by {
        assert forall|j: int| squares_of(c).contains(j) == squares_of(b).remove(i as int).contains(j) by {
            if 0 <= j < 64 {
                assert(bit(1u64 << i, j as u64) == (j == i));
            }
        }
    }
}

/// A bitboard lists at most `64 - s` squares from its least square `s` on.
pub proof fn lemma_ascending_len(b: u64)
    ensures
        ascending(b).len() <= 64,
        b != 0 ==> ascending(b).len() <= 64 - u64_trailing_zeros(b),
        forall|k: int| 0 <= k < ascending(b).len() ==> 0 <= #[trigger] ascending(b)[k] < 64,
    decreases b,
{
    if b != 0 {
        lemma_ascending_step(b);
        let i = u64_trailing_zeros(b);
        let c = b & !(1u64 << i);
        lemma_clear_decreases(b, i as u64);
        lemma_ascending_len(c);
        if c != 0 {
            lemma_trailing_zeros_least(c);
            assert(squares_of(c).contains(u64_trailing_zeros(c) as int));
        }
        assert forall|k: int| 0 <= k < ascending(b).len() implies 0 <= #[trigger] ascending(b)[k] < 64 by {
            if k > 0 {
                assert(ascending(b)[k] == ascending(c)[k - 1]);
            }
        }
    }
}

/// Counting bits: a word below `2^k` has at most `k` of them.
proof fn lemma_popcount_below(b: u64, k: nat)
    requires
        b < pow2(k),
    ensures
        popcount(b) <= k,
    decreases k,
{
    if k == 0 {
        lemma2_to64();
    } else if b != 0 {
        lemma_pow2_unfold(k);
        lemma_popcount_below(b / 2, (k - 1) as nat);
    }
}

/// A word has at most 64 set bits.
pub proof fn lemma_popcount_max(b: u64)
    ensures
        popcount(b) <= 64,
{
    lemma2_to64();
    lemma_popcount_below(b, 64);
}

/// Square `s` seen from its own side: black's squares mirror across the middle.
pub open spec fn own_view(s: int, black: bool) -> int {
    if black {
        (7 - s / 8) * 8 + s % 8
    } else {
        s
    }
}

/// Material terms, and with `pst` piece-square terms, of pieces of one kind
/// standing on `sqs`.
pub open spec fn piece_terms(sqs: Seq<int>, kind: int, sign: int, black: bool, pst: bool) -> Seq<(int, int)>
    decreases sqs.len(),
{
    if sqs.len() == 0 {
        Seq::empty()
    } else {
        let here = if pst {
            seq![(MATERIAL + kind, sign), (PST + kind * 64 + own_view(sqs[0], black), sign)]
        } else {
            seq![(MATERIAL + kind, sign)]
        };
        here + piece_terms(sqs.drop_first(), kind, sign, black, pst)
    }
}

/// Material and piece-square terms of every kind from `kind` on, white before
/// black within a kind.
pub open spec fn material_terms(bbs: [Bitboard; 12], pst: bool, kind: int) -> Seq<(int, int)>
    decreases 6 - kind,
{
    if kind < 0 || kind >= 6 {
        Seq::empty()
    } else {
        piece_terms(ascending(bbs[kind].board), kind, 1, false, pst) + piece_terms(
            ascending(bbs[kind + 6].board),
            kind,
            -1,
            true,
            pst,
        ) + material_terms(bbs, pst, kind + 1)
    }
}

/// Takes the terms of `ascending(pieces)`, one square at a time.
fn trace_pieces<T: Trace>(t: &mut T, pieces: u64, kind: usize, white: bool, pst: bool)
    requires
        kind < 6,
        fits_all(*old(t), piece_terms(ascending(pieces), kind as int, if white { 1 } else { -1 }, !white, pst)),
    ensures
        *final(t) == replay(*old(t), piece_terms(ascending(pieces), kind as int, if white { 1 } else { -1 }, !white, pst)),
{
    let ghost t0 = *t;
    let ghost sg: int = if white { 1 } else { -1 };
    let ghost full = piece_terms(ascending(pieces), kind as int, sg, !white, pst);
    let ghost mut done: Seq<(int, int)> = Seq::empty();
    let sign: i32 = if white { 1 } else { -1 };
    let mirror: u32 = if white { 0 } else { 56 };
    let mut bb = pieces;
    assert(done + full =~= full);
    while bb != 0
        invariant
            kind < 6,
            sign == sg,
            mirror == (if white { 0u32 } else { 56u32 }),
            *t == replay(t0, done),
            done + piece_terms(ascending(bb), kind as int, sg, !white, pst) == full,
            fits_all(t0, full),
        decreases bb,
    {
        proof {
            lemma_ascending_step(bb);
        }
        let sq = bb.trailing_zeros();
        let next = bb & !(1u64 << sq);
        let ghost rest = piece_terms(ascending(next), kind as int, sg, !white, pst);
        let ghost e1 = (MATERIAL + kind as int, sg);
        let ghost e2 = (PST + kind * 64 + own_view(sq as int, !white), sg);
        proof {
            assert(ascending(bb).drop_first() =~= ascending(next));
            assert(ascending(bb)[0] == sq as int);
            lemma_clear_decreases(bb, sq as u64);
        }
        if pst {
            proof {
                assert(done + seq![e1] + (seq![e2] + rest) =~= full);
            }
            emit(t, MATERIAL + kind, sign, Ghost(t0), Ghost(done), Ghost(seq![e2] + rest));
            proof {
                done = done.push(e1);
                assert(sq ^ mirror == own_view(sq as int, !white)) by (bit_vector)
                    requires
                        sq < 64,
                        mirror == (if white { 0u32 } else { 56u32 }),
                ;
            }
            let idx = PST + kind * 64 + (sq ^ mirror) as usize;
            proof {
                assert(done + seq![e2] + rest =~= full);
            }
            emit(t, idx, sign, Ghost(t0), Ghost(done), Ghost(rest));
            proof {
                done = done.push(e2);
            }
        } else {
            proof {
                assert(done + seq![e1] + rest =~= full);
            }
            emit(t, MATERIAL + kind, sign, Ghost(t0), Ghost(done), Ghost(rest));
            proof {
                done = done.push(e1);
            }
        }
        bb = next;
        proof {
            assert(done + piece_terms(ascending(bb), kind as int, sg, !white, pst) =~= full);
        }
    }
    proof {
        assert(done =~= full);
    }
}

/// Material and piece-square terms of the whole board.
fn trace_material<T: Trace>(board: &Board, pst: bool, t: &mut T)
    requires
        fits_all(*old(t), material_terms(board.bbs, pst, 0)),
    ensures
        *final(t) == replay(*old(t), material_terms(board.bbs, pst, 0)),
{
    let ghost t0 = *t;
    let ghost full = material_terms(board.bbs, pst, 0);
    let ghost mut done: Seq<(int, int)> = Seq::empty();
    let mut kind: usize = 0;
    assert(done + full =~= full);
    while kind < 6
        invariant
            kind <= 6,
            *t == replay(t0, done),
            done + material_terms(board.bbs, pst, kind as int) == full,
            fits_all(t0, full),
        decreases 6 - kind,
    {
        let ghost x = piece_terms(ascending(board.bbs[kind as int].board), kind as int, 1, false, pst);
        let ghost y = piece_terms(ascending(board.bbs[kind + 6].board), kind as int, -1, true, pst);
        let ghost later = material_terms(board.bbs, pst, kind + 1);
        proof {
            assert(done + x + (y + later) =~= full);
            lemma_split(t0, done, x, y + later);
        }
        trace_pieces(t, board.bbs[kind].board, kind, true, pst);
        proof {
            done = done + x;
            assert(done + y + later =~= full);
            lemma_split(t0, done, y, later);
        }
        trace_pieces(t, board.bbs[kind + 6].board, kind, false, pst);
        proof {
            done = done + y;
        }
        kind = kind + 1;
    }
    proof {
        assert(done =~= full);
    }
}

/// Squares reached from `s` by a knight (0), bishop (1), rook (2) or queen (3)
/// when `occ` is occupied.
pub open spec fn reach(piece: int, s: int, occ: Set<int>) -> Set<int> {
    if piece == 0 {
        knight_targets(s)
    } else if piece == 1 {
        bishop_targets(s, occ)
    } else if piece == 2 {
        rook_targets(s, occ)
    } else {
        queen_targets(s, occ)
    }
}

/// The word whose bits are the squares of `s`.
pub open spec fn word_of(s: Set<int>) -> u64 {
    choose|w: u64| squares_of(w) == s
}

/// Mobility terms of pieces of one kind on `sqs`: the reached squares not
/// holding one of `own`.
pub open spec fn reach_terms(sqs: Seq<int>, piece: int, sign: int, occ: u64, own: u64) -> Seq<(int, int)>
    decreases sqs.len(),
{
    if sqs.len() == 0 {
        Seq::empty()
    } else {
        seq![
            (MOBILITY + piece, sign * popcount(word_of(reach(piece, sqs[0], squares_of(occ))) & !own)),
        ] + reach_terms(sqs.drop_first(), piece, sign, occ, own)
    }
}

/// Mobility terms of one side's knights, bishops, rooks and queens (slots
/// `first .. first + 4`), from kind `piece` on.
pub open spec fn side_mobility(bbs: [Bitboard; 12], first: int, piece: int, sign: int, occ: u64, own: u64) -> Seq<(int, int)>
    decreases 4 - piece,
{
    if piece < 0 || piece >= 4 {
        Seq::empty()
    } else {
        reach_terms(ascending(bbs[first + piece].board), piece, sign, occ, own) + side_mobility(
            bbs,
            first,
            piece + 1,
            sign,
            occ,
            own,
        )
    }
}

/// Mobility terms of the whole board, white first.
pub open spec fn mobility_terms(bbs: [Bitboard; 12], players: [Bitboard; 2]) -> Seq<(int, int)> {
    let occ = players[0].board | players[1].board;
    side_mobility(bbs, 1, 0, 1, occ, players[0].board) + side_mobility(bbs, 7, 0, -1, occ, players[1].board)
}

/// Takes the mobility terms of one piece set.
fn trace_reach<T: Trace>(t: &mut T, pieces: u64, piece: usize, sign: i32, occ: Bitboard, own: u64)
    requires
        piece < 4,
        sign == 1 || sign == -1,
        fits_all(*old(t), reach_terms(ascending(pieces), piece as int, sign as int, occ.board, own)),
    ensures
        *final(t) == replay(*old(t), reach_terms(ascending(pieces), piece as int, sign as int, occ.board, own)),
{
    let ghost t0 = *t;
    let ghost full = reach_terms(ascending(pieces), piece as int, sign as int, occ.board, own);
    let ghost mut done: Seq<(int, int)> = Seq::empty();
    let mut bb = pieces;
    assert(done + full =~= full);
    while bb != 0
        invariant
            piece < 4,
            sign == 1 || sign == -1,
            *t == replay(t0, done),
            done + reach_terms(ascending(bb), piece as int, sign as int, occ.board, own) == full,
            fits_all(t0, full),
        decreases bb,
    {
        proof {
            lemma_ascending_step(bb);
        }
        let sq = bb.trailing_zeros();
        let next = bb & !(1u64 << sq);
        proof {
            assert(ascending(bb).drop_first() =~= ascending(next));
            assert(ascending(bb)[0] == sq as int);
            lemma_clear_decreases(bb, sq as u64);
        }
        let from = SQ(sq as u8);
        let attacks = if piece == 0 {
            knight_attacks(from)
        } else if piece == 1 {
            bishop_attacks(from, occ)
        } else if piece == 2 {
            rook_attacks(from, occ)
        } else {
            queen_attacks(from, occ)
        };
        let ghost reached = reach(piece as int, sq as int, squares_of(occ.board));
        proof {
            assert(squares_of(attacks.board) == reached);
            let w = word_of(reached);
            assert(squares_of(w) == reached);
            lemma_squares_injective(w, attacks.board);
            lemma_popcount_max(attacks.board & !own);
        }
        let count = bit_count(attacks.board & !own) as i32;
        let ghost rest = reach_terms(ascending(next), piece as int, sign as int, occ.board, own);
        let ghost e = (MOBILITY + piece as int, sign * count);
        proof {
            assert(done + seq![e] + rest =~= full);
        }
        emit(t, MOBILITY + piece, sign * count, Ghost(t0), Ghost(done), Ghost(rest));
        proof {
            done = done.push(e);
        }
        bb = next;
        proof {
            assert(done + reach_terms(ascending(bb), piece as int, sign as int, occ.board, own) =~= full);
        }
    }
    proof {
        assert(done =~= full);
    }
}

/// Takes one side's mobility terms: slots `first .. first + 4`.
fn trace_side_mobility<T: Trace>(board: &Board, t: &mut T, first: usize, sign: i32, occ: Bitboard, own: u64)
    requires
        first == 1 || first == 7,
        sign == 1 || sign == -1,
        fits_all(*old(t), side_mobility(board.bbs, first as int, 0, sign as int, occ.board, own)),
    ensures
        *final(t) == replay(*old(t), side_mobility(board.bbs, first as int, 0, sign as int, occ.board, own)),
{
    let ghost t0 = *t;
    let ghost full = side_mobility(board.bbs, first as int, 0, sign as int, occ.board, own);
    let ghost mut done: Seq<(int, int)> = Seq::empty();
    let mut piece: usize = 0;
    assert(done + full =~= full);
    while piece < 4
        invariant
            piece <= 4,
            first == 1 || first == 7,
            sign == 1 || sign == -1,
            *t == replay(t0, done),
            done + side_mobility(board.bbs, first as int, piece as int, sign as int, occ.board, own) == full,
            fits_all(t0, full),
        decreases 4 - piece,
    {
        let ghost x = reach_terms(
            ascending(board.bbs[first + piece].board),
            piece as int,
            sign as int,
            occ.board,
            own,
        );
        let ghost later = side_mobility(board.bbs, first as int, piece + 1, sign as int, occ.board, own);
        proof {
            assert(done + x + later =~= full);
            lemma_split(t0, done, x, later);
        }
        trace_reach(t, board.bbs[first + piece].board, piece, sign, occ, own);
        proof {
            done = done + x;
        }
        piece = piece + 1;
    }
    proof {
        assert(done =~= full);
    }
}

/// Mobility: for each knight, bishop, rook and queen, the squares it attacks
/// that do not hold a piece of its own side.
pub fn mobility<T: Trace>(board: &Board, t: &mut T)
    requires
        fits_all(*old(t), mobility_terms(board.bbs, board.player_bbs)),
    ensures
        *final(t) == replay(*old(t), mobility_terms(board.bbs, board.player_bbs)),
{
    let occ = Bitboard::from_u64(board.player_bbs[0].board | board.player_bbs[1].board);
    let ghost t0 = *t;
    let ghost x = side_mobility(board.bbs, 1, 0, 1, occ.board, board.player_bbs[0].board);
    let ghost y = side_mobility(board.bbs, 7, 0, -1, occ.board, board.player_bbs[1].board);
    proof {
        assert(Seq::<(int, int)>::empty() + x + y =~= x + y);
        lemma_split(t0, Seq::empty(), x, y);
        assert(Seq::<(int, int)>::empty() + x =~= x);
        assert(x + y + Seq::<(int, int)>::empty() =~= x + y);
        lemma_split(t0, x, y, Seq::empty());
    }
    trace_side_mobility(board, t, 1, 1, occ, board.player_bbs[0].board);
    trace_side_mobility(board, t, 7, -1, occ, board.player_bbs[1].board);
}

/// The squares of file `f`.
pub open spec fn file_set(f: int) -> Set<int> {
    Set::new(|j: int| 0 <= j < 64 && j % 8 == f)
}

/// The squares of the files beside file `f`.
pub open spec fn near_files(f: int) -> Set<int> {
    Set::new(|j: int| 0 <= j < 64 && abs(j % 8 - f) == 1)
}

/// The squares on ranks beyond rank `r`, seen from white or from black.
pub open spec fn beyond(white: bool, r: int) -> Set<int> {
    Set::new(|j: int| 0 <= j < 64 && if white { j / 8 > r } else { j / 8 < r })
}

/// The word of file `f`.
pub open spec fn file_word(f: int) -> u64 {
    0x0101_0101_0101_0101u64 << (f as u64)
}

/// The squares of file `file`.
fn file_bb(file: u32) -> (r: u64)
    requires
        file < 8,
    ensures
        r == file_word(file as int),
        squares_of(r) == file_set(file as int),
{
    let r = 0x0101_0101_0101_0101u64 << file;
    proof {
        let f = file as u64;
        assert(forall|j: u64| j < 64 ==> #[trigger] bit(r, j) == (j % 8 == f)) by (bit_vector)
            requires
                f < 8,
                r == 0x0101_0101_0101_0101u64 << f,
        ;
        assert forall|j: int| squares_of(r).contains(j) == file_set(file as int).contains(j) by {
            if 0 <= j < 64 {
                assert(bit(r, j as u64) == ((j as u64) % 8 == f));
            }
        }
        assert(squares_of(r) =~= file_set(file as int));
    }
    r
}

/// The squares of the files beside `file`.
fn adjacent_files_bb(file: u32) -> (r: u64)
    requires
        file < 8,
    ensures
        squares_of(r) == near_files(file as int),
{
    let mut mask = 0u64;
    proof {
        lemma_squares_ops();
    }
    if file > 0 {
        mask = mask | file_bb(file - 1);
    }
    if file < 7 {
        mask = mask | file_bb(file + 1);
    }
    proof {
        assert(squares_of(mask) =~= near_files(file as int));
    }
    mask
}

/// The squares ahead of a pawn on `rank`: higher ranks for white, lower for black.
fn ahead_bb(white: bool, rank: u32) -> (r: u64)
    requires
        rank < 8,
    ensures
        squares_of(r) == beyond(white, rank as int),
{
    let r = if white {
        if rank == 7 {
            0u64
        } else {
            0xffff_ffff_ffff_ffffu64 << ((rank + 1) * 8)
        }
    } else if rank == 0 {
        0u64
    } else {
        let sh: u64 = (rank * 8) as u64;
        assert(1u64 << sh >= 1u64) by (bit_vector)
            requires
                sh < 64,
        ;
        (1u64 << sh) - 1
    };
    proof {
        lemma_bit_ops();
        let k = rank as u64;
        if white && rank < 7 {
            assert(forall|j: u64| j < 64 ==> #[trigger] bit(r, j) == (j / 8 > k)) by (bit_vector)
                requires
                    k < 7,
                    r == 0xffff_ffff_ffff_ffffu64 << ((k + 1) * 8),
            ;
        }
        if !white && rank > 0 {
            assert(forall|j: u64| j < 64 ==> #[trigger] bit(r, j) == (j / 8 < k)) by (bit_vector)
                requires
                    0 < k < 8,
                    r + 1 == 1u64 << ((k * 8) as u64),
            ;
        }
        assert forall|j: int| squares_of(r).contains(j) == beyond(white, rank as int).contains(j) by {
            if 0 <= j < 64 {
                assert(bit(r, j as u64) == bit(r, j as u64));
            }
        }
        assert(squares_of(r) =~= beyond(white, rank as int));
    }
    r
}

/// Doubled-pawn terms of files `f ..`: one count per extra pawn on a file.
pub open spec fn doubled_terms(pawns: u64, sign: int, f: int) -> Seq<(int, int)>
    decreases 8 - f,
{
    if f < 0 || f >= 8 {
        Seq::empty()
    } else {
        let c = popcount(pawns & file_word(f));
        (if c > 1 {
            seq![(DOUBLED_PAWN as int, sign * (c - 1))]
        } else {
            Seq::empty()
        }) + doubled_terms(pawns, sign, f + 1)
    }
}

/// No friendly pawn stands on a file beside that of `s`.
pub open spec fn isolated(pawns: Set<int>, s: int) -> bool {
    forall|t: int| #[trigger] pawns.contains(t) ==> abs(t % 8 - s % 8) != 1
}

/// No enemy pawn stands ahead of `s` on its file or a file beside it.
pub open spec fn passed(enemy: Set<int>, s: int, white: bool) -> bool {
    forall|t: int|
        #[trigger] enemy.contains(t) && abs(t % 8 - s % 8) <= 1 ==> !beyond(white, s / 8).contains(t)
}

/// An enemy pawn ahead of `s` (on a higher rank for white, a lower one for
/// black) on its file or a file beside it stops the pawn on `s` being passed.
pub proof fn law_pawn_ahead_beside_is_not_passed(enemy: Set<int>, s: int, t: int, white: bool)
    requires
        0 <= s < 64,
        0 <= t < 64,
        enemy.contains(t),
        t % 8 == s % 8 || t % 8 == s % 8 + 1 || t % 8 == s % 8 - 1,
        white ==> t / 8 > s / 8,
        !white ==> t / 8 < s / 8,
    ensures
        !passed(enemy, s, white),
{
    assert(beyond(white, s / 8).contains(t));
}

/// With no enemy pawn ahead on its file or a file beside it, a pawn is passed.
pub proof fn law_pawn_with_clear_lanes_is_passed(enemy: Set<int>, s: int, white: bool)
    requires
        0 <= s < 64,
        forall|t: int|
            #![trigger enemy.contains(t)]
            0 <= t < 64 && enemy.contains(t) && (t % 8 == s % 8 || t % 8 == s % 8 + 1 || t % 8 == s % 8 - 1) ==> (
            if white {
                t / 8 <= s / 8
            } else {
                t / 8 >= s / 8
            }),
    ensures
        passed(enemy, s, white),
{
}

/// Pawns each facing an enemy pawn ahead on their file or a file beside it
/// earn no passed-pawn term: every structure term they give is the isolated
/// pawn's.
pub proof fn law_blocked_pawns_earn_no_passed_term(
    sqs: Seq<int>,
    pawns: u64,
    enemy: u64,
    white: bool,
    sign: int,
)
    requires
        forall|i: int|
            0 <= i < sqs.len() ==> exists|t: int|
                0 <= t < 64 && 0 <= #[trigger] sqs[i] < 64 && squares_of(enemy).contains(t) && (t % 8 == sqs[i] % 8
                    || t % 8 == sqs[i] % 8 + 1 || t % 8 == sqs[i] % 8 - 1) && (if white {
                    t / 8 > sqs[i] / 8
                } else {
                    t / 8 < sqs[i] / 8
                }),
    ensures
        forall|k: int|
            0 <= k < pawn_terms(sqs, pawns, enemy, white, sign).len() ==> (#[trigger] pawn_terms(
                sqs,
                pawns,
                enemy,
                white,
                sign,
            )[k]).0 == ISOLATED_PAWN as int,
    decreases sqs.len(),
{
    if sqs.len() > 0 {
        let s = sqs[0];
        let t = choose|t: int|
            0 <= t < 64 && 0 <= s < 64 && squares_of(enemy).contains(t) && (t % 8 == s % 8 || t % 8 == s % 8 + 1
                || t % 8 == s % 8 - 1) && (if white {
                t / 8 > s / 8
            } else {
                t / 8 < s / 8
            });
        law_pawn_ahead_beside_is_not_passed(squares_of(enemy), s, t, white);
        assert forall|i: int| 0 <= i < sqs.drop_first().len() implies exists|u: int|
            0 <= u < 64 && 0 <= #[trigger] sqs.drop_first()[i] < 64 && squares_of(enemy).contains(u) && (u % 8
                == sqs.drop_first()[i] % 8 || u % 8 == sqs.drop_first()[i] % 8 + 1 || u % 8 == sqs.drop_first()[i] % 8
                - 1) && (if white {
                u / 8 > sqs.drop_first()[i] / 8
            } else {
                u / 8 < sqs.drop_first()[i] / 8
            }) by {
            assert(sqs.drop_first()[i] == sqs[i + 1]);
        }
        law_blocked_pawns_earn_no_passed_term(sqs.drop_first(), pawns, enemy, white, sign);
        let head = if isolated(squares_of(pawns), s) {
            seq![(ISOLATED_PAWN as int, sign)]
        } else {
            Seq::empty()
        };
        let tail = pawn_terms(sqs.drop_first(), pawns, enemy, white, sign);
        assert(pawn_terms(sqs, pawns, enemy, white, sign) == head + Seq::<(int, int)>::empty() + tail);
        assert forall|k: int| 0 <= k < (head + Seq::<(int, int)>::empty() + tail).len() implies (#[trigger] (head
            + Seq::<(int, int)>::empty() + tail)[k]).0 == ISOLATED_PAWN as int by {
            if k >= head.len() {
                assert((head + Seq::<(int, int)>::empty() + tail)[k] == tail[k - head.len()]);
            }
        }
    }
}

/// A pawn is isolated exactly when no pawn of its own side stands on a file
/// beside it.
pub proof fn law_isolated_means_no_neighbour(pawns: Set<int>, s: int)
    requires
        0 <= s < 64,
        forall|t: int| #[trigger] pawns.contains(t) ==> 0 <= t < 64,
    ensures
        isolated(pawns, s) <==> !exists|t: int|
            0 <= t < 64 && #[trigger] pawns.contains(t) && (t % 8 == s % 8 + 1 || t % 8 + 1 == s % 8),
{
    if !isolated(pawns, s) {
        let t = choose|t: int| #[trigger] pawns.contains(t) && abs(t % 8 - s % 8) == 1;
        assert(t % 8 == s % 8 + 1 || t % 8 + 1 == s % 8);
    }
}

/// The rank of `s` counted from its own side.
pub open spec fn own_rank(s: int, white: bool) -> int {
    if white {
        s / 8
    } else {
        7 - s / 8
    }
}

/// Isolated- and passed-pawn terms of the pawns on `sqs`.
pub open spec fn pawn_terms(sqs: Seq<int>, pawns: u64, enemy: u64, white: bool, sign: int) -> Seq<(int, int)>
    decreases sqs.len(),
{
    if sqs.len() == 0 {
        Seq::empty()
    } else {
        let s = sqs[0];
        (if isolated(squares_of(pawns), s) {
            seq![(ISOLATED_PAWN as int, sign)]
        } else {
            Seq::empty()
        }) + (if passed(squares_of(enemy), s, white) {
            seq![(PASSED_PAWN + own_rank(s, white), sign)]
        } else {
            Seq::empty()
        }) + pawn_terms(sqs.drop_first(), pawns, enemy, white, sign)
    }
}

/// One side's pawn-structure terms.
pub open spec fn side_structure(pawns: u64, enemy: u64, white: bool, sign: int) -> Seq<(int, int)> {
    doubled_terms(pawns, sign, 0) + pawn_terms(ascending(pawns), pawns, enemy, white, sign)
}

/// Pawn-structure terms of the whole board, white first.
pub open spec fn structure_terms(bbs: [Bitboard; 12]) -> Seq<(int, int)> {
    side_structure(bbs[0].board, bbs[6].board, true, 1) + side_structure(bbs[6].board, bbs[0].board, false, -1)
}

/// Whether `x` is zero, read as a set: it has no square.
proof fn lemma_empty_word(x: u64)
    ensures
        (x == 0) == (forall|t: int| !#[trigger] squares_of(x).contains(t)),
{
    lemma_zero_iff_empty(x);
    if x != 0 {
        lemma_trailing_zeros_least(x);
    } else {
        assert(squares_of(x) =~= Set::<int>::empty());
    }
}

/// Takes one side's pawn-structure terms.
fn trace_pawn_side<T: Trace>(t: &mut T, pawns: u64, enemy: u64, white: bool, sign: i32)
    requires
        sign == (if white { 1i32 } else { -1i32 }),
        fits_all(*old(t), side_structure(pawns, enemy, white, sign as int)),
    ensures
        *final(t) == replay(*old(t), side_structure(pawns, enemy, white, sign as int)),
{
    let ghost t0 = *t;
    let ghost full = side_structure(pawns, enemy, white, sign as int);
    let ghost mut done: Seq<(int, int)> = Seq::empty();
    proof {
        lemma_squares_ops();
    }
    let mut f: u32 = 0;
    assert(done + doubled_terms(pawns, sign as int, 0) + pawn_terms(ascending(pawns), pawns, enemy, white, sign as int) =~= full);
    while f < 8
        invariant
            f <= 8,
            sign == 1 || sign == -1,
            *t == replay(t0, done),
            done + doubled_terms(pawns, sign as int, f as int) + pawn_terms(ascending(pawns), pawns, enemy, white, sign as int) == full,
            fits_all(t0, full),
        decreases 8 - f,
    {
        let mask = file_bb(f);
        proof {
            lemma_popcount_max(pawns & mask);
        }
        let count = bit_count(pawns & mask) as i32;
        let ghost later = doubled_terms(pawns, sign as int, f + 1) + pawn_terms(ascending(pawns), pawns, enemy, white, sign as int);
        if count > 1 {
            let n = if sign == 1 { count - 1 } else { 1 - count };
            let ghost e = (DOUBLED_PAWN as int, sign * (count - 1));
            proof {
                assert(n == sign * (count - 1)) by (nonlinear_arith)
                    requires
                        sign == 1 || sign == -1,
                        n == (if sign == 1 { count - 1 } else { 1 - count }),
                ;
                assert(done + seq![e] + later =~= full);
            }
            emit(t, DOUBLED_PAWN, n, Ghost(t0), Ghost(done), Ghost(later));
            proof {
                done = done.push(e);
            }
        }
        f = f + 1;
        proof {
            assert(done + doubled_terms(pawns, sign as int, f as int) + pawn_terms(ascending(pawns), pawns, enemy, white, sign as int) =~= full);
        }
    }
    let mut bb = pawns;
    assert(done + pawn_terms(ascending(bb), pawns, enemy, white, sign as int) =~= full);
    while bb != 0
        invariant
            sign == (if white { 1i32 } else { -1i32 }),
            *t == replay(t0, done),
            done + pawn_terms(ascending(bb), pawns, enemy, white, sign as int) == full,
            fits_all(t0, full),
        decreases bb,
    {
        proof {
            lemma_ascending_step(bb);
        }
        let sq = bb.trailing_zeros();
        let next = bb & !(1u64 << sq);
        proof {
            assert(ascending(bb).drop_first() =~= ascending(next));
            assert(ascending(bb)[0] == sq as int);
            lemma_clear_decreases(bb, sq as u64);
        }
        let file = sq % 8;
        let rank = sq / 8;
        let ghost s = sq as int;
        let ghost rest = pawn_terms(ascending(next), pawns, enemy, white, sign as int);
        let ghost passed_part = if passed(squares_of(enemy), s, white) {
            seq![(PASSED_PAWN + own_rank(s, white), sign as int)]
        } else {
            Seq::empty()
        };
        let near = adjacent_files_bb(file);
        let lonely = pawns & near == 0;
        proof {
            lemma_squares_ops();
            lemma_empty_word(pawns & near);
            if lonely {
                assert forall|u: int| #[trigger] squares_of(pawns).contains(u) implies abs(u % 8 - s % 8) != 1 by {
                    if abs(u % 8 - s % 8) == 1 {
                        assert(near_files(file as int).contains(u));
                        assert(squares_of(pawns & near).contains(u));
                    }
                }
            } else {
                let u = choose|u: int| squares_of(pawns & near).contains(u);
                assert(squares_of(pawns).contains(u) && near_files(file as int).contains(u));
            }
            assert(lonely == isolated(squares_of(pawns), s));
        }
        if lonely {
            let ghost e = (ISOLATED_PAWN as int, sign as int);
            proof {
                assert(done + seq![e] + (passed_part + rest) =~= full);
            }
            emit(t, ISOLATED_PAWN, sign, Ghost(t0), Ghost(done), Ghost(passed_part + rest));
            proof {
                done = done.push(e);
            }
        }
        proof {
            assert(done + passed_part + rest =~= full);
        }
        let front = ahead_bb(white, rank);
        let lane = file_bb(file) | near;
        let blockers = lane & front & enemy;
        proof {
            lemma_empty_word(blockers);
            assert(squares_of(lane) == file_set(file as int).union(near_files(file as int)));
            if blockers == 0 {
                assert forall|u: int|
                    #[trigger] squares_of(enemy).contains(u) && abs(u % 8 - s % 8) <= 1 implies !beyond(white, s / 8).contains(u) by {
                    if beyond(white, s / 8).contains(u) {
                        if u % 8 == s % 8 {
                            assert(file_set(file as int).contains(u));
                        } else {
                            assert(near_files(file as int).contains(u));
                        }
                        assert(squares_of(blockers).contains(u));
                    }
                }
            } else {
                let u = choose|u: int| squares_of(blockers).contains(u);
                assert(squares_of(enemy).contains(u));
                assert(squares_of(lane).contains(u));
                assert(beyond(white, s / 8).contains(u));
            }
            assert((blockers == 0) == passed(squares_of(enemy), s, white));
        }
        if blockers == 0 {
            let own: u32 = if white { rank } else { 7 - rank };
            let ghost e = (PASSED_PAWN + own_rank(s, white), sign as int);
            proof {
                assert(done + seq![e] + rest =~= full);
            }
            emit(t, PASSED_PAWN + own as usize, sign, Ghost(t0), Ghost(done), Ghost(rest));
            proof {
                done = done.push(e);
            }
        }
        bb = next;
        proof {
            assert(done + pawn_terms(ascending(bb), pawns, enemy, white, sign as int) =~= full);
        }
    }
    proof {
        assert(done =~= full);
    }
}

/// Pawn structure: doubled pawns (one count per extra pawn on a file),
/// isolated pawns (no friendly pawn on a file beside) and passed pawns (no
/// enemy pawn ahead on the same or a file beside), the last by rank from the
/// pawn's own side.
pub fn pawn_structure<T: Trace>(board: &Board, t: &mut T)
    requires
        fits_all(*old(t), structure_terms(board.bbs)),
    ensures
        *final(t) == replay(*old(t), structure_terms(board.bbs)),
{
    let white_pawns = board.bbs[0].board;
    let black_pawns = board.bbs[6].board;
    let ghost t0 = *t;
    let ghost x = side_structure(white_pawns, black_pawns, true, 1);
    let ghost y = side_structure(black_pawns, white_pawns, false, -1);
    proof {
        assert(Seq::<(int, int)>::empty() + x + y =~= x + y);
        lemma_split(t0, Seq::empty(), x, y);
        assert(Seq::<(int, int)>::empty() + x =~= x);
        assert(x + y + Seq::<(int, int)>::empty() =~= x + y);
        lemma_split(t0, x, y, Seq::empty());
    }
    trace_pawn_side(t, white_pawns, black_pawns, true, 1);
    trace_pawn_side(t, black_pawns, white_pawns, false, -1);
}

/// Bishop-pair term: one count per side holding two or more bishops.
pub open spec fn pair_terms(bbs: [Bitboard; 12]) -> Seq<(int, int)> {
    seq![
        (
            BISHOP_PAIR as int,
            (if popcount(bbs[2].board) >= 2 { 1int } else { 0 }) - (if popcount(bbs[8].board) >= 2 {
                1int
            } else {
                0
            }),
        ),
    ]
}

/// Bishop pair: one count per side holding two or more bishops.
pub fn bishop_pair<T: Trace>(board: &Board, t: &mut T)
    requires
        fits_all(*old(t), pair_terms(board.bbs)),
    ensures
        *final(t) == replay(*old(t), pair_terms(board.bbs)),
{
    let white: i32 = if bit_count(board.bbs[2].board) >= 2 { 1 } else { 0 };
    let black: i32 = if bit_count(board.bbs[8].board) >= 2 { 1 } else { 0 };
    let ghost t0 = *t;
    proof {
        let e = (BISHOP_PAIR as int, white - black);
        assert(Seq::<(int, int)>::empty() + seq![e] + Seq::<(int, int)>::empty() =~= pair_terms(board.bbs));
    }
    emit(t, BISHOP_PAIR, white - black, Ghost(t0), Ghost(Seq::empty()), Ghost(Seq::empty()));
    proof {
        assert(Seq::<(int, int)>::empty().push((BISHOP_PAIR as int, white - black)) =~= pair_terms(board.bbs));
    }
}

/// Shield terms of files `f ..= hi`: a friendly pawn still on its home rank,
/// or else one advanced a square.
pub open spec fn shield_terms(pawns: Set<int>, home: int, advanced: int, sign: int, f: int, hi: int) -> Seq<(int, int)>
    decreases hi + 1 - f,
{
    if f > hi {
        Seq::empty()
    } else {
        (if pawns.contains(home * 8 + f) {
            seq![(SHIELD_PAWN_HOME as int, sign)]
        } else if pawns.contains(advanced * 8 + f) {
            seq![(SHIELD_PAWN_ADVANCED as int, sign)]
        } else {
            Seq::empty()
        }) + shield_terms(pawns, home, advanced, sign, f + 1, hi)
    }
}

/// One side's king-shield terms: counted only for a king on its home rank,
/// over the files around it.
pub open spec fn king_side_terms(king: u64, pawns: u64, white: bool, sign: int) -> Seq<(int, int)> {
    if king == 0 {
        Seq::empty()
    } else {
        let k = u64_trailing_zeros(king) as int;
        if k / 8 != (if white { 0int } else { 7 }) {
            Seq::empty()
        } else {
            let f = k % 8;
            shield_terms(
                squares_of(pawns),
                if white { 1 } else { 6 },
                if white { 2 } else { 5 },
                sign,
                if f > 0 { f - 1 } else { 0 },
                if f < 7 { f + 1 } else { 7 },
            )
        }
    }
}

/// King-shield terms of the whole board, white first.
pub open spec fn king_terms(bbs: [Bitboard; 12]) -> Seq<(int, int)> {
    king_side_terms(bbs[5].board, bbs[0].board, true, 1) + king_side_terms(bbs[11].board, bbs[6].board, false, -1)
}

/// Takes one side's king-shield terms.
fn trace_king_side<T: Trace>(t: &mut T, king: u64, pawns: u64, white: bool, sign: i32)
    requires
        sign == 1 || sign == -1,
        fits_all(*old(t), king_side_terms(king, pawns, white, sign as int)),
    ensures
        *final(t) == replay(*old(t), king_side_terms(king, pawns, white, sign as int)),
{
    if king == 0 {
        return;
    }
    proof {
        lemma_trailing_zeros_least(king);
    }
    let ksq = king.trailing_zeros();
    let home_rank: u32 = if white { 0 } else { 7 };
    if ksq / 8 != home_rank {
        return;
    }
    let kfile = ksq % 8;
    let home: u32 = if white { 1 } else { 6 };
    let advanced: u32 = if white { 2 } else { 5 };
    let mut f: u32 = if kfile > 0 { kfile - 1 } else { 0 };
    let hi: u32 = if kfile < 7 { kfile + 1 } else { 7 };
    let ghost t0 = *t;
    let ghost ps = squares_of(pawns);
    let ghost full = shield_terms(ps, home as int, advanced as int, sign as int, f as int, hi as int);
    let ghost mut done: Seq<(int, int)> = Seq::empty();
    assert(done + full =~= full);
    while f <= hi
        invariant
            hi <= 7,
            home < 8,
            advanced < 8,
            f <= hi + 1,
            sign == 1 || sign == -1,
            ps == squares_of(pawns),
            *t == replay(t0, done),
            done + shield_terms(ps, home as int, advanced as int, sign as int, f as int, hi as int) == full,
            fits_all(t0, full),
        decreases hi + 1 - f,
    {
        let ghost rest = shield_terms(ps, home as int, advanced as int, sign as int, f + 1, hi as int);
        proof {
            lemma_bit_ops();
        }
        let at_home = pawns & (1u64 << (home * 8 + f)) != 0;
        let at_advanced = pawns & (1u64 << (advanced * 8 + f)) != 0;
        proof {
            assert(at_home == ps.contains(home * 8 + f));
            assert(at_advanced == ps.contains(advanced * 8 + f));
        }
        if at_home {
            let ghost e = (SHIELD_PAWN_HOME as int, sign as int);
            proof {
                assert(done + seq![e] + rest =~= full);
            }
            emit(t, SHIELD_PAWN_HOME, sign, Ghost(t0), Ghost(done), Ghost(rest));
            proof {
                done = done.push(e);
            }
        } else if at_advanced {
            let ghost e = (SHIELD_PAWN_ADVANCED as int, sign as int);
            proof {
                assert(done + seq![e] + rest =~= full);
            }
            emit(t, SHIELD_PAWN_ADVANCED, sign, Ghost(t0), Ghost(done), Ghost(rest));
            proof {
                done = done.push(e);
            }
        } else {
            proof {
                assert(done + rest =~= full);
            }
        }
        f = f + 1;
    }
    proof {
        assert(done =~= full);
    }
}

/// King safety: the pawn shield of a king still on its home rank, split into
/// pawns on their home rank and pawns advanced one square.
pub fn king_safety<T: Trace>(board: &Board, t: &mut T)
    requires
        fits_all(*old(t), king_terms(board.bbs)),
    ensures
        *final(t) == replay(*old(t), king_terms(board.bbs)),
{
    let ghost t0 = *t;
    let ghost x = king_side_terms(board.bbs[5].board, board.bbs[0].board, true, 1);
    let ghost y = king_side_terms(board.bbs[11].board, board.bbs[6].board, false, -1);
    proof {
        assert(Seq::<(int, int)>::empty() + x + y =~= x + y);
        lemma_split(t0, Seq::empty(), x, y);
        assert(Seq::<(int, int)>::empty() + x =~= x);
        assert(x + y + Seq::<(int, int)>::empty() =~= x + y);
        lemma_split(t0, x, y, Seq::empty());
    }
    trace_king_side(t, board.bbs[5].board, board.bbs[0].board, true, 1);
    trace_king_side(t, board.bbs[11].board, board.bbs[6].board, false, -1);
}

/// Home squares of the knights, as seen by each side.
pub open spec fn knight_home(black: bool) -> u64 {
    if black {
        0x4200_0000_0000_0000u64
    } else {
        0x42u64
    }
}

/// Home squares of the bishops, as seen by each side.
pub open spec fn bishop_home(black: bool) -> u64 {
    if black {
        0x2400_0000_0000_0000u64
    } else {
        0x24u64
    }
}

/// Home square of the queen, as seen by each side.
pub open spec fn queen_home(black: bool) -> u64 {
    if black {
        0x0800_0000_0000_0000u64
    } else {
        0x08u64
    }
}

/// Minor pieces still on their home squares.
pub open spec fn undeveloped(knights: u64, bishops: u64, black: bool) -> int {
    (popcount(knights & knight_home(black)) + popcount(bishops & bishop_home(black))) as int
}

/// One side's development terms: undeveloped minors, and the same count again
/// when the queen has left home while two or more minors sleep.
pub open spec fn dev_side_terms(knights: u64, bishops: u64, queens: u64, black: bool, sign: int) -> Seq<(int, int)> {
    let u = undeveloped(knights, bishops, black);
    seq![(UNDEVELOPED_MINOR as int, sign * u)] + (if queens != 0 && queens & queen_home(black) == 0 && u
        >= 2 {
        seq![(EARLY_QUEEN as int, sign * u)]
    } else {
        Seq::empty()
    })
}

/// Development terms of the whole board, white first.
pub open spec fn development_terms(bbs: [Bitboard; 12]) -> Seq<(int, int)> {
    dev_side_terms(bbs[1].board, bbs[2].board, bbs[4].board, false, 1) + dev_side_terms(
        bbs[7].board,
        bbs[8].board,
        bbs[10].board,
        true,
        -1,
    )
}

/// Takes one side's development terms.
fn trace_dev_side<T: Trace>(t: &mut T, knights: u64, bishops: u64, queens: u64, black: bool, sign: i32)
    requires
        sign == 1 || sign == -1,
        fits_all(*old(t), dev_side_terms(knights, bishops, queens, black, sign as int)),
    ensures
        *final(t) == replay(*old(t), dev_side_terms(knights, bishops, queens, black, sign as int)),
{
    let knight_mask: u64 = if black { 0x4200_0000_0000_0000 } else { 0x42 };
    let bishop_mask: u64 = if black { 0x2400_0000_0000_0000 } else { 0x24 };
    let queen_mask: u64 = if black { 0x0800_0000_0000_0000 } else { 0x08 };
    proof {
        lemma_popcount_max(knights & knight_mask);
        lemma_popcount_max(bishops & bishop_mask);
    }
    let undeveloped = bit_count(knights & knight_mask) as i32 + bit_count(bishops & bishop_mask) as i32;
    let n = if sign == 1 { undeveloped } else { -undeveloped };
    let ghost t0 = *t;
    let ghost u = undeveloped as int;
    let ghost tail = if queens != 0 && queens & queen_home(black) == 0 && u >= 2 {
        seq![(EARLY_QUEEN as int, sign * u)]
    } else {
        Seq::empty()
    };
    proof {
        assert(n == sign * undeveloped) by (nonlinear_arith)
            requires
                sign == 1 || sign == -1,
                n == (if sign == 1 { undeveloped as int } else { -undeveloped }),
        ;
        assert(Seq::<(int, int)>::empty() + seq![(UNDEVELOPED_MINOR as int, n as int)] + tail
            =~= dev_side_terms(knights, bishops, queens, black, sign as int));
    }
    emit(t, UNDEVELOPED_MINOR, n, Ghost(t0), Ghost(Seq::empty()), Ghost(tail));
    let ghost done = Seq::<(int, int)>::empty().push((UNDEVELOPED_MINOR as int, n as int));
    let queen_out = queens != 0 && (queens & queen_mask) == 0;
    if queen_out && undeveloped >= 2 {
        proof {
            assert(done + seq![(EARLY_QUEEN as int, n as int)] + Seq::<(int, int)>::empty()
                =~= dev_side_terms(knights, bishops, queens, black, sign as int));
        }
        emit(t, EARLY_QUEEN, n, Ghost(t0), Ghost(done), Ghost(Seq::empty()));
        proof {
            assert(done.push((EARLY_QUEEN as int, n as int)) =~= dev_side_terms(knights, bishops, queens, black, sign as int));
        }
    } else {
        proof {
            assert(done =~= dev_side_terms(knights, bishops, queens, black, sign as int));
        }
    }
}

/// Development: minors still on their home squares, plus an extra charge per
/// undeveloped minor once the queen has left home early.
pub fn development<T: Trace>(board: &Board, t: &mut T)
    requires
        fits_all(*old(t), development_terms(board.bbs)),
    ensures
        *final(t) == replay(*old(t), development_terms(board.bbs)),
{
    let ghost t0 = *t;
    let ghost x = dev_side_terms(board.bbs[1].board, board.bbs[2].board, board.bbs[4].board, false, 1);
    let ghost y = dev_side_terms(board.bbs[7].board, board.bbs[8].board, board.bbs[10].board, true, -1);
    proof {
        assert(Seq::<(int, int)>::empty() + x + y =~= x + y);
        lemma_split(t0, Seq::empty(), x, y);
        assert(Seq::<(int, int)>::empty() + x =~= x);
        assert(x + y + Seq::<(int, int)>::empty() =~= x + y);
        lemma_split(t0, x, y, Seq::empty());
    }
    trace_dev_side(t, board.bbs[1].board, board.bbs[2].board, board.bbs[4].board, false, 1);
    trace_dev_side(t, board.bbs[7].board, board.bbs[8].board, board.bbs[10].board, true, -1);
}

/// Which evaluation terms are active. All off is a pure material count.
#[derive(Clone, Copy, Debug)]
pub struct EvalConfig {
    /// Tapered piece-square tables and mobility.
    pub piece_square_tables: bool,
    /// Doubled, isolated and passed pawns.
    pub pawn_structure: bool,
    /// Bonus for holding both bishops.
    pub bishop_pair: bool,
    /// Pawn shield of a king on its home rank.
    pub king_safety: bool,
    /// Undeveloped-minor and early-queen charges, plus the tempo bonus.
    pub development: bool,
}

impl EvalConfig {
    /// Material only: every positional term off.
    pub fn material_only() -> (r: Self)
        ensures
            !r.piece_square_tables && !r.pawn_structure && !r.bishop_pair && !r.king_safety
                && !r.development,
    {
        EvalConfig {
            piece_square_tables: false,
            pawn_structure: false,
            bishop_pair: false,
            king_safety: false,
            development: false,
        }
    }

    /// Every positional term on.
    pub fn all() -> (r: Self)
        ensures
            r.piece_square_tables && r.pawn_structure && r.bishop_pair && r.king_safety && r.development,
    {
        EvalConfig {
            development: true,
            piece_square_tables: true,
            pawn_structure: true,
            bishop_pair: true,
            king_safety: true,
        }
    }
}

/// The tempo term: one count for the side to move.
pub open spec fn tempo_terms(b: Board) -> Seq<(int, int)> {
    seq![(TEMPO as int, if b.side_to_move == Color::White { 1int } else { -1 })]
}

/// Every active term of the evaluation, in the order they are taken.
pub open spec fn eval_terms(b: Board, cfg: EvalConfig) -> Seq<(int, int)> {
    material_terms(b.bbs, cfg.piece_square_tables, 0) + (if cfg.piece_square_tables {
        mobility_terms(b.bbs, b.player_bbs)
    } else {
        Seq::empty()
    }) + (if cfg.pawn_structure {
        structure_terms(b.bbs)
    } else {
        Seq::empty()
    }) + (if cfg.bishop_pair {
        pair_terms(b.bbs)
    } else {
        Seq::empty()
    }) + (if cfg.king_safety {
        king_terms(b.bbs)
    } else {
        Seq::empty()
    }) + (if cfg.development {
        development_terms(b.bbs) + tempo_terms(b)
    } else {
        Seq::empty()
    })
}

/// Feeds every active term to `t`, white minus black.
pub fn trace<T: Trace>(board: &Board, cfg: EvalConfig, t: &mut T)
    requires
        fits_all(*old(t), eval_terms(*board, cfg)),
    ensures
        *final(t) == replay(*old(t), eval_terms(*board, cfg)),
{
    let ghost t0 = *t;
    let ghost e = Seq::<(int, int)>::empty();
    let ghost m = material_terms(board.bbs, cfg.piece_square_tables, 0);
    let ghost mo = if cfg.piece_square_tables { mobility_terms(board.bbs, board.player_bbs) } else { e };
    let ghost ps = if cfg.pawn_structure { structure_terms(board.bbs) } else { e };
    let ghost bp = if cfg.bishop_pair { pair_terms(board.bbs) } else { e };
    let ghost ks = if cfg.king_safety { king_terms(board.bbs) } else { e };
    let ghost dv = if cfg.development { development_terms(board.bbs) + tempo_terms(*board) } else { e };
    let ghost p1 = m + mo;
    let ghost p2 = p1 + ps;
    let ghost p3 = p2 + bp;
    let ghost p4 = p3 + ks;
    proof {
        assert(p4 + dv == eval_terms(*board, cfg));
        lemma_replay_concat(t0, p4, dv);
        lemma_replay_concat(t0, p3, ks);
        lemma_replay_concat(t0, p2, bp);
        lemma_replay_concat(t0, p1, ps);
        lemma_replay_concat(t0, m, mo);
    }
    trace_material(board, cfg.piece_square_tables, t);
    if cfg.piece_square_tables {
        mobility(board, t);
    } else {
        assert(p1 =~= m);
    }
    if cfg.pawn_structure {
        pawn_structure(board, t);
    } else {
        assert(p2 =~= p1);
    }
    if cfg.bishop_pair {
        bishop_pair(board, t);
    } else {
        assert(p3 =~= p2);
    }
    if cfg.king_safety {
        king_safety(board, t);
    } else {
        assert(p4 =~= p3);
    }
    if cfg.development {
        let ghost d = development_terms(board.bbs);
        proof {
            lemma_replay_concat(replay(t0, p4), d, tempo_terms(*board));
        }
        development(board, t);
        let side: i32 = if board.side_to_move == Color::White { 1 } else { -1 };
        let ghost t1 = replay(t0, p4);
        proof {
            assert(e + d =~= d);
            assert(e + d + seq![(TEMPO as int, side as int)] + e =~= d + tempo_terms(*board));
            lemma_replay_concat(t1, e, d);
        }
        emit(t, TEMPO, side, Ghost(t1), Ghost(d), Ghost(e));
        proof {
            assert(d.push((TEMPO as int, side as int)) =~= dv);
        }
    } else {
        assert(p4 + dv =~= p4);
    }
}

/// Game phase: 24 with all minor and major pieces on the board, 0 with none.
pub open spec fn phase_of(b: Board) -> int {
    let raw = (popcount(b.bbs[1].board) + popcount(b.bbs[7].board)) * PHASE_KNIGHT + (popcount(b.bbs[2].board)
        + popcount(b.bbs[8].board)) * PHASE_BISHOP + (popcount(b.bbs[3].board) + popcount(b.bbs[9].board))
        * PHASE_ROOK + (popcount(b.bbs[4].board) + popcount(b.bbs[10].board)) * PHASE_QUEEN;
    if raw < PHASE_MAX {
        raw
    } else {
        PHASE_MAX as int
    }
}

/// Game phase from the minor and major pieces left: knights and bishops count
/// one, rooks two, queens four, capped at `PHASE_MAX`.
pub fn game_phase(board: &Board) -> (r: i32)
    ensures
        r == phase_of(*board),
        0 <= r <= PHASE_MAX,
{
    proof {
        lemma_popcount_max(board.bbs[1].board);
        lemma_popcount_max(board.bbs[7].board);
        lemma_popcount_max(board.bbs[2].board);
        lemma_popcount_max(board.bbs[8].board);
        lemma_popcount_max(board.bbs[3].board);
        lemma_popcount_max(board.bbs[9].board);
        lemma_popcount_max(board.bbs[4].board);
        lemma_popcount_max(board.bbs[10].board);
    }
    let mut phase: i32 = 0;
    phase = phase + (bit_count(board.bbs[1].board) + bit_count(board.bbs[7].board)) as i32 * PHASE_KNIGHT;
    phase = phase + (bit_count(board.bbs[2].board) + bit_count(board.bbs[8].board)) as i32 * PHASE_BISHOP;
    phase = phase + (bit_count(board.bbs[3].board) + bit_count(board.bbs[9].board)) as i32 * PHASE_ROOK;
    phase = phase + (bit_count(board.bbs[4].board) + bit_count(board.bbs[10].board)) as i32 * PHASE_QUEEN;
    if phase < PHASE_MAX {
        phase
    } else {
        PHASE_MAX
    }
}

/// Middlegame sum of weight × count over a list of terms.
pub open spec fn mg_total(log: Seq<(int, int)>) -> int
    decreases log.len(),
{
    if log.len() == 0 {
        0
    } else {
        mg_total(log.drop_last()) + W[log.last().0][0] * log.last().1
    }
}

/// Endgame sum of weight × count over a list of terms.
pub open spec fn eg_total(log: Seq<(int, int)>) -> int
    decreases log.len(),
{
    if log.len() == 0 {
        0
    } else {
        eg_total(log.drop_last()) + W[log.last().0][1] * log.last().1
    }
}

/// The static evaluation, from the side to move's point of view.
pub open spec fn evaluation(b: Board, cfg: EvalConfig) -> int {
    let log = eval_terms(b, cfg);
    let white = tapered(mg_total(log), eg_total(log), phase_of(b));
    if b.side_to_move == Color::White {
        white
    } else {
        -white
    }
}

/// Every term names a weight and counts at most 128 times.
pub open spec fn terms_ok(log: Seq<(int, int)>) -> bool {
    forall|i: int|
        0 <= i < log.len() ==> 0 <= #[trigger] log[i].0 < NUM_PARAMS && -128 <= log[i].1 <= 128
}

proof fn lemma_ok_concat(a: Seq<(int, int)>, b: Seq<(int, int)>)
    requires
        terms_ok(a),
        terms_ok(b),
    ensures
        terms_ok(a + b),
{
    assert forall|i: int| 0 <= i < (a + b).len() implies 0 <= #[trigger] (a + b)[i].0 < NUM_PARAMS && -128
        <= (a + b)[i].1 <= 128 by {
        if i >= a.len() {
            assert((a + b)[i] == b[i - a.len()]);
        }
    }
}

/// Squares of the board, all of them.
pub open spec fn on_board_squares(sqs: Seq<int>) -> bool {
    forall|k: int| 0 <= k < sqs.len() ==> 0 <= #[trigger] sqs[k] < 64
}

proof fn lemma_piece_terms_ok(sqs: Seq<int>, kind: int, sign: int, black: bool, pst: bool)
    requires
        on_board_squares(sqs),
        0 <= kind < 6,
        sign == 1 || sign == -1,
    ensures
        terms_ok(piece_terms(sqs, kind, sign, black, pst)),
        piece_terms(sqs, kind, sign, black, pst).len() <= 2 * sqs.len(),
    decreases sqs.len(),
{
    if sqs.len() > 0 {
        let rest = sqs.drop_first();
        assert(on_board_squares(rest)) by {
            assert forall|k: int| 0 <= k < rest.len() implies 0 <= #[trigger] rest[k] < 64 by {
                assert(rest[k] == sqs[k + 1]);
            }
        }
        lemma_piece_terms_ok(rest, kind, sign, black, pst);
        let s = sqs[0];
        assert(0 <= own_view(s, black) < 64);
        let here = if pst {
            seq![(MATERIAL + kind, sign), (PST + kind * 64 + own_view(s, black), sign)]
        } else {
            seq![(MATERIAL + kind, sign)]
        };
        assert(terms_ok(here));
        lemma_ok_concat(here, piece_terms(rest, kind, sign, black, pst));
    }
}

proof fn lemma_ascending_on_board(b: u64)
    ensures
        on_board_squares(ascending(b)),
        ascending(b).len() <= 64,
{
    lemma_ascending_len(b);
}

proof fn lemma_material_ok(bbs: [Bitboard; 12], pst: bool, kind: int)
    requires
        0 <= kind <= 6,
    ensures
        terms_ok(material_terms(bbs, pst, kind)),
        material_terms(bbs, pst, kind).len() <= 256 * (6 - kind),
    decreases 6 - kind,
{
    if kind < 6 {
        lemma_ascending_on_board(bbs[kind].board);
        lemma_ascending_on_board(bbs[kind + 6].board);
        lemma_piece_terms_ok(ascending(bbs[kind].board), kind, 1, false, pst);
        lemma_piece_terms_ok(ascending(bbs[kind + 6].board), kind, -1, true, pst);
        lemma_material_ok(bbs, pst, kind + 1);
        let x = piece_terms(ascending(bbs[kind].board), kind, 1, false, pst);
        let y = piece_terms(ascending(bbs[kind + 6].board), kind, -1, true, pst);
        lemma_ok_concat(x, y);
        lemma_ok_concat(x + y, material_terms(bbs, pst, kind + 1));
    } else {
        assert(material_terms(bbs, pst, kind) =~= Seq::<(int, int)>::empty());
    }
}

proof fn lemma_reach_ok(sqs: Seq<int>, piece: int, sign: int, occ: u64, own: u64)
    requires
        0 <= piece < 4,
        sign == 1 || sign == -1,
    ensures
        terms_ok(reach_terms(sqs, piece, sign, occ, own)),
        reach_terms(sqs, piece, sign, occ, own).len() == sqs.len(),
    decreases sqs.len(),
{
    if sqs.len() > 0 {
        lemma_reach_ok(sqs.drop_first(), piece, sign, occ, own);
        let c = popcount(word_of(reach(piece, sqs[0], squares_of(occ))) & !own);
        lemma_popcount_max(word_of(reach(piece, sqs[0], squares_of(occ))) & !own);
        assert(-64 <= sign * c <= 64) by (nonlinear_arith)
            requires
                sign == 1 || sign == -1,
                0 <= c <= 64,
        ;
        let here = seq![(MOBILITY + piece, sign * c)];
        assert(terms_ok(here));
        lemma_ok_concat(here, reach_terms(sqs.drop_first(), piece, sign, occ, own));
    }
}

proof fn lemma_side_mobility_ok(bbs: [Bitboard; 12], first: int, piece: int, sign: int, occ: u64, own: u64)
    requires
        first == 1 || first == 7,
        0 <= piece <= 4,
        sign == 1 || sign == -1,
    ensures
        terms_ok(side_mobility(bbs, first, piece, sign, occ, own)),
        side_mobility(bbs, first, piece, sign, occ, own).len() <= 64 * (4 - piece),
    decreases 4 - piece,
{
    if piece < 4 {
        lemma_ascending_on_board(bbs[first + piece].board);
        lemma_reach_ok(ascending(bbs[first + piece].board), piece, sign, occ, own);
        lemma_side_mobility_ok(bbs, first, piece + 1, sign, occ, own);
        lemma_ok_concat(
            reach_terms(ascending(bbs[first + piece].board), piece, sign, occ, own),
            side_mobility(bbs, first, piece + 1, sign, occ, own),
        );
    } else {
        assert(side_mobility(bbs, first, piece, sign, occ, own) =~= Seq::<(int, int)>::empty());
    }
}

proof fn lemma_doubled_ok(pawns: u64, sign: int, f: int)
    requires
        0 <= f <= 8,
        sign == 1 || sign == -1,
    ensures
        terms_ok(doubled_terms(pawns, sign, f)),
        doubled_terms(pawns, sign, f).len() <= 8 - f,
    decreases 8 - f,
{
    if f < 8 {
        lemma_doubled_ok(pawns, sign, f + 1);
        let c = popcount(pawns & file_word(f));
        lemma_popcount_max(pawns & file_word(f));
        assert(-64 <= sign * (c - 1) <= 64) by (nonlinear_arith)
            requires
                sign == 1 || sign == -1,
                0 <= c <= 64,
        ;
        let here = if c > 1 {
            seq![(DOUBLED_PAWN as int, sign * (c - 1))]
        } else {
            Seq::empty()
        };
        assert(terms_ok(here));
        lemma_ok_concat(here, doubled_terms(pawns, sign, f + 1));
    } else {
        assert(doubled_terms(pawns, sign, f) =~= Seq::<(int, int)>::empty());
    }
}

proof fn lemma_pawn_terms_ok(sqs: Seq<int>, pawns: u64, enemy: u64, white: bool, sign: int)
    requires
        on_board_squares(sqs),
        sign == 1 || sign == -1,
    ensures
        terms_ok(pawn_terms(sqs, pawns, enemy, white, sign)),
        pawn_terms(sqs, pawns, enemy, white, sign).len() <= 2 * sqs.len(),
    decreases sqs.len(),
{
    if sqs.len() > 0 {
        let rest = sqs.drop_first();
        assert(on_board_squares(rest)) by {
            assert forall|k: int| 0 <= k < rest.len() implies 0 <= #[trigger] rest[k] < 64 by {
                assert(rest[k] == sqs[k + 1]);
            }
        }
        lemma_pawn_terms_ok(rest, pawns, enemy, white, sign);
        let s = sqs[0];
        let a = if isolated(squares_of(pawns), s) {
            seq![(ISOLATED_PAWN as int, sign)]
        } else {
            Seq::empty()
        };
        let b = if passed(squares_of(enemy), s, white) {
            seq![(PASSED_PAWN + own_rank(s, white), sign)]
        } else {
            Seq::empty()
        };
        assert(terms_ok(a));
        assert(terms_ok(b));
        lemma_ok_concat(a, b);
        lemma_ok_concat(a + b, pawn_terms(rest, pawns, enemy, white, sign));
    }
}

proof fn lemma_structure_ok(bbs: [Bitboard; 12])
    ensures
        terms_ok(structure_terms(bbs)),
        structure_terms(bbs).len() <= 272,
{
    let w = bbs[0].board;
    let b = bbs[6].board;
    lemma_doubled_ok(w, 1, 0);
    lemma_doubled_ok(b, -1, 0);
    lemma_ascending_on_board(w);
    lemma_ascending_on_board(b);
    lemma_pawn_terms_ok(ascending(w), w, b, true, 1);
    lemma_pawn_terms_ok(ascending(b), b, w, false, -1);
    lemma_ok_concat(doubled_terms(w, 1, 0), pawn_terms(ascending(w), w, b, true, 1));
    lemma_ok_concat(doubled_terms(b, -1, 0), pawn_terms(ascending(b), b, w, false, -1));
    lemma_ok_concat(side_structure(w, b, true, 1), side_structure(b, w, false, -1));
}

proof fn lemma_shield_ok(pawns: Set<int>, home: int, advanced: int, sign: int, f: int, hi: int)
    requires
        sign == 1 || sign == -1,
        f <= hi + 1,
    ensures
        terms_ok(shield_terms(pawns, home, advanced, sign, f, hi)),
        shield_terms(pawns, home, advanced, sign, f, hi).len() <= hi + 1 - f,
    decreases hi + 1 - f,
{
    if f <= hi {
        lemma_shield_ok(pawns, home, advanced, sign, f + 1, hi);
        let here = if pawns.contains(home * 8 + f) {
            seq![(SHIELD_PAWN_HOME as int, sign)]
        } else if pawns.contains(advanced * 8 + f) {
            seq![(SHIELD_PAWN_ADVANCED as int, sign)]
        } else {
            Seq::empty()
        };
        assert(terms_ok(here));
        lemma_ok_concat(here, shield_terms(pawns, home, advanced, sign, f + 1, hi));
    } else {
        assert(shield_terms(pawns, home, advanced, sign, f, hi) =~= Seq::<(int, int)>::empty());
    }
}

proof fn lemma_king_ok(bbs: [Bitboard; 12])
    ensures
        terms_ok(king_terms(bbs)),
        king_terms(bbs).len() <= 16,
{
    assert forall|king: u64, pawns: u64, white: bool, sign: int|
        sign == 1 || sign == -1 implies terms_ok(#[trigger] king_side_terms(king, pawns, white, sign))
        && king_side_terms(king, pawns, white, sign).len() <= 8 by {
        if king != 0 {
            let k = u64_trailing_zeros(king) as int;
            lemma_trailing_zeros_least(king);
            let f = k % 8;
            lemma_shield_ok(
                squares_of(pawns),
                if white { 1 } else { 6 },
                if white { 2 } else { 5 },
                sign,
                if f > 0 { f - 1 } else { 0 },
                if f < 7 { f + 1 } else { 7 },
            );
        }
    }
    lemma_ok_concat(
        king_side_terms(bbs[5].board, bbs[0].board, true, 1),
        king_side_terms(bbs[11].board, bbs[6].board, false, -1),
    );
}

proof fn lemma_development_ok(bbs: [Bitboard; 12])
    ensures
        terms_ok(development_terms(bbs)),
        development_terms(bbs).len() <= 4,
{
    assert forall|knights: u64, bishops: u64, queens: u64, black: bool, sign: int|
        sign == 1 || sign == -1 implies terms_ok(#[trigger] dev_side_terms(knights, bishops, queens, black, sign))
        && dev_side_terms(knights, bishops, queens, black, sign).len() <= 2 by {
        lemma_popcount_max(knights & knight_home(black));
        lemma_popcount_max(bishops & bishop_home(black));
        let u = undeveloped(knights, bishops, black);
        assert(-128 <= sign * u <= 128) by (nonlinear_arith)
            requires
                sign == 1 || sign == -1,
                0 <= u <= 128,
        ;
        let a = seq![(UNDEVELOPED_MINOR as int, sign * u)];
        let b = if queens != 0 && queens & queen_home(black) == 0 && u >= 2 {
            seq![(EARLY_QUEEN as int, sign * u)]
        } else {
            Seq::empty()
        };
        assert(terms_ok(a));
        assert(terms_ok(b));
        lemma_ok_concat(a, b);
    }
    lemma_ok_concat(
        dev_side_terms(bbs[1].board, bbs[2].board, bbs[4].board, false, 1),
        dev_side_terms(bbs[7].board, bbs[8].board, bbs[10].board, true, -1),
    );
}

/// Every evaluation term names a weight and counts at most 128 times, and
/// there are at most 3000 of them.
pub proof fn lemma_eval_terms_ok(b: Board, cfg: EvalConfig)
    ensures
        terms_ok(eval_terms(b, cfg)),
        eval_terms(b, cfg).len() <= 3000,
{
    let e = Seq::<(int, int)>::empty();
    let m = material_terms(b.bbs, cfg.piece_square_tables, 0);
    let mo = if cfg.piece_square_tables { mobility_terms(b.bbs, b.player_bbs) } else { e };
    let ps = if cfg.pawn_structure { structure_terms(b.bbs) } else { e };
    let bp = if cfg.bishop_pair { pair_terms(b.bbs) } else { e };
    let ks = if cfg.king_safety { king_terms(b.bbs) } else { e };
    let dv = if cfg.development { development_terms(b.bbs) + tempo_terms(b) } else { e };
    lemma_material_ok(b.bbs, cfg.piece_square_tables, 0);
    let occ = b.player_bbs[0].board | b.player_bbs[1].board;
    lemma_side_mobility_ok(b.bbs, 1, 0, 1, occ, b.player_bbs[0].board);
    lemma_side_mobility_ok(b.bbs, 7, 0, -1, occ, b.player_bbs[1].board);
    lemma_ok_concat(
        side_mobility(b.bbs, 1, 0, 1, occ, b.player_bbs[0].board),
        side_mobility(b.bbs, 7, 0, -1, occ, b.player_bbs[1].board),
    );
    lemma_structure_ok(b.bbs);
    lemma_king_ok(b.bbs);
    lemma_development_ok(b.bbs);
    assert(terms_ok(pair_terms(b.bbs)));
    assert(terms_ok(tempo_terms(b)));
    lemma_ok_concat(development_terms(b.bbs), tempo_terms(b));
    assert(terms_ok(e));
    lemma_ok_concat(m, mo);
    lemma_ok_concat(m + mo, ps);
    lemma_ok_concat(m + mo + ps, bp);
    lemma_ok_concat(m + mo + ps + bp, ks);
    lemma_ok_concat(m + mo + ps + bp + ks, dv);
}

/// A weight times a term's count stays within 128000.
proof fn lemma_term_product(w: int, n: int)
    requires
        -1000 <= w <= 1000,
        -128 <= n <= 128,
    ensures
        -128000 <= w * n <= 128000,
{
    assert(-128000 <= w * n <= 128000) by (nonlinear_arith)
        requires
            -1000 <= w <= 1000,
            -128 <= n <= 128,
    ;
}

/// A score starting at zero takes up to 3000 terms without overflow, and ends
/// at the two weighted sums.
pub proof fn lemma_score_replay(log: Seq<(int, int)>)
    requires
        terms_ok(log),
        log.len() <= 3000,
    ensures
        fits_all(Score { mg: 0, eg: 0 }, log),
        replay(Score { mg: 0, eg: 0 }, log) == (Score { mg: mg_total(log) as i32, eg: eg_total(log) as i32 }),
        -128000 * log.len() <= mg_total(log) <= 128000 * log.len(),
        -128000 * log.len() <= eg_total(log) <= 128000 * log.len(),
    decreases log.len(),
{
    if log.len() > 0 {
        let p = log.drop_last();
        let e = log.last();
        assert(terms_ok(p)) by {
            assert forall|i: int| 0 <= i < p.len() implies 0 <= #[trigger] p[i].0 < NUM_PARAMS && -128 <= p[i].1
                <= 128 by {
                assert(p[i] == log[i]);
            }
        }
        lemma_score_replay(p);
        assert(e == log[log.len() - 1]);
        lemma_weights_bounded();
        lemma_term_product(W[e.0][0] as int, e.1);
        lemma_term_product(W[e.0][1] as int, e.1);
    }
}

/// The static evaluation from the side to move's point of view: the weighted
/// sums of every active term, blended by game phase.
pub fn eval(board: &Board, cfg: EvalConfig) -> (r: i32)
    ensures
        r == evaluation(*board, cfg),
        -400_000_000 <= r <= 400_000_000,
{
    let mut score = Score::default();
    proof {
        lemma_eval_terms_ok(*board, cfg);
        lemma_score_replay(eval_terms(*board, cfg));
    }
    trace(board, cfg, &mut score);
    let phase = game_phase(board);
    let white = score.taper(phase);
    proof {
        let mg = score.mg as int;
        let eg = score.eg as int;
        let p = phase as int;
        assert(-384_000_000 * 24 <= mg * p + eg * (24 - p) <= 384_000_000 * 24) by (nonlinear_arith)
            requires
                0 <= p <= 24,
                -384_000_000 <= mg <= 384_000_000,
                -384_000_000 <= eg <= 384_000_000,
        ;
    }
    if board.side_to_move == Color::White {
        white
    } else {
        -white
    }
}

/// How often weight `param` is counted over a list of terms.
pub open spec fn count_of(log: Seq<(int, int)>, param: int) -> int
    decreases log.len(),
{
    if log.len() == 0 {
        0
    } else {
        count_of(log.drop_last(), param) + if log.last().0 == param {
            log.last().1
        } else {
            0
        }
    }
}

/// Weights `0 .. k` of column `col` (0 middlegame, 1 endgame), each times how
/// often it is counted in `log`.
pub open spec fn weighted(log: Seq<(int, int)>, col: int, k: int) -> int
    decreases k,
{
    if k <= 0 {
        0
    } else {
        weighted(log, col, k - 1) + W[k - 1][col] * count_of(log, k - 1)
    }
}

proof fn lemma_weighted_step(log: Seq<(int, int)>, col: int, k: int)
    requires
        log.len() > 0,
        0 <= k,
    ensures
        weighted(log, col, k) == weighted(log.drop_last(), col, k) + if 0 <= log.last().0 < k {
            W[log.last().0][col] * log.last().1
        } else {
            0
        },
    decreases k,
{
    if k > 0 {
        lemma_weighted_step(log, col, k - 1);
        let e = log.last();
        if e.0 == k - 1 {
            assert(W[k - 1][col] * count_of(log, k - 1) == W[k - 1][col] * count_of(log.drop_last(), k - 1)
                + W[k - 1][col] * e.1) by (nonlinear_arith)
                requires
                    count_of(log, k - 1) == count_of(log.drop_last(), k - 1) + e.1,
            ;
        }
    }
}

/// Both weighted sums of a list of terms, regrouped by weight.
pub proof fn lemma_totals_by_weight(log: Seq<(int, int)>)
    requires
        terms_ok(log),
    ensures
        mg_total(log) == weighted(log, 0, NUM_PARAMS as int),
        eg_total(log) == weighted(log, 1, NUM_PARAMS as int),
    decreases log.len(),
{
    if log.len() > 0 {
        let p = log.drop_last();
        assert(terms_ok(p)) by {
            assert forall|i: int| 0 <= i < p.len() implies 0 <= #[trigger] p[i].0 < NUM_PARAMS && -128 <= p[i].1
                <= 128 by {
                assert(p[i] == log[i]);
            }
        }
        assert(log.last() == log[log.len() - 1]);
        lemma_totals_by_weight(p);
        lemma_weighted_step(log, 0, NUM_PARAMS as int);
        lemma_weighted_step(log, 1, NUM_PARAMS as int);
    } else {
        assert forall|col: int, k: int| 0 <= k implies #[trigger] weighted(log, col, k) == 0 by {
            lemma_weighted_empty(log, col, k);
        }
    }
}

proof fn lemma_weighted_empty(log: Seq<(int, int)>, col: int, k: int)
    requires
        log.len() == 0,
        0 <= k,
    ensures
        weighted(log, col, k) == 0,
    decreases k,
{
    if k > 0 {
        lemma_weighted_empty(log, col, k - 1);
    }
}

/// The evaluation is linear in its weights: weighing how often each weight is
/// counted on a board gives back the evaluation.
pub proof fn lemma_eval_linear(b: Board, cfg: EvalConfig)
    ensures
        evaluation(b, cfg) == if b.side_to_move == Color::White {
            tapered(
                weighted(eval_terms(b, cfg), 0, NUM_PARAMS as int),
                weighted(eval_terms(b, cfg), 1, NUM_PARAMS as int),
                phase_of(b),
            )
        } else {
            -tapered(
                weighted(eval_terms(b, cfg), 0, NUM_PARAMS as int),
                weighted(eval_terms(b, cfg), 1, NUM_PARAMS as int),
                phase_of(b),
            )
        },
{
    lemma_eval_terms_ok(b, cfg);
    lemma_totals_by_weight(eval_terms(b, cfg));
}

/// Counting from all zeros takes up to 3000 terms without overflow, and ends
/// at each weight's count.
pub proof fn lemma_coeffs_replay(c: Coeffs, log: Seq<(int, int)>)
    requires
        forall|i: int| 0 <= i < NUM_PARAMS ==> #[trigger] c.counts[i] == 0,
        terms_ok(log),
        log.len() <= 3000,
    ensures
        fits_all(c, log),
        forall|i: int| 0 <= i < NUM_PARAMS ==> #[trigger] replay(c, log).counts[i] == count_of(log, i),
        forall|i: int| 0 <= i < NUM_PARAMS ==> -128 * log.len() <= #[trigger] count_of(log, i) <= 128 * log.len(),
    decreases log.len(),
{
    if log.len() > 0 {
        let p = log.drop_last();
        let e = log.last();
        assert(terms_ok(p)) by {
            assert forall|i: int| 0 <= i < p.len() implies 0 <= #[trigger] p[i].0 < NUM_PARAMS && -128 <= p[i].1
                <= 128 by {
                assert(p[i] == log[i]);
            }
        }
        assert(e == log[log.len() - 1]);
        assert(0 <= log[log.len() - 1].0 < NUM_PARAMS && -128 <= log[log.len() - 1].1 <= 128);
        lemma_coeffs_replay(c, p);
        let before = replay(c, p);
        let after = replay(c, log);
        assert(after == before.absorb(e.0, e.1));
        assert(after.counts@ == before.counts@.update(e.0, (before.counts[e.0] + e.1) as i32));
        assert forall|i: int| 0 <= i < NUM_PARAMS implies #[trigger] after.counts[i] == count_of(log, i) by {
            assert(after.counts[i] == after.counts@[i]);
            assert(before.counts[i] == before.counts@[i]);
        }
        assert forall|i: int| 0 <= i < NUM_PARAMS implies -128 * log.len() <= #[trigger] count_of(log, i) <= 128
            * log.len() by {
            assert(-128 * p.len() <= count_of(p, i) <= 128 * p.len());
            assert(count_of(log, i) == count_of(p, i) + if e.0 == i {
                e.1
            } else {
                0
            });
        }
    } else {
        assert forall|i: int| 0 <= i < NUM_PARAMS implies #[trigger] count_of(log, i) == 0 by {}
    }
}

impl Coeffs {
    /// The per-weight counts of every active evaluation term of `board`.
    pub fn traced(board: &Board, cfg: EvalConfig) -> (r: Coeffs)
        ensures
            forall|i: int| 0 <= i < NUM_PARAMS ==> #[trigger] r.counts[i] == count_of(eval_terms(*board, cfg), i),
    {
        let mut c = Coeffs::new();
        proof {
            lemma_eval_terms_ok(*board, cfg);
            lemma_coeffs_replay(c, eval_terms(*board, cfg));
        }
        trace(board, cfg, &mut c);
        c
    }
}

/// Without the development term, who is to move only sets the point of view:
/// the same pieces with the other side to move evaluate to the exact negative.
pub proof fn lemma_eval_side_flip(a: Board, b: Board, cfg: EvalConfig)
    requires
        a.bbs == b.bbs,
        a.player_bbs == b.player_bbs,
        a.side_to_move != b.side_to_move,
        !cfg.development,
    ensures
        evaluation(a, cfg) == -evaluation(b, cfg),
{
    assert(eval_terms(a, cfg) == eval_terms(b, cfg));
    assert(phase_of(a) == phase_of(b));
}

} // verus!
