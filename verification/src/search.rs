use vstd::prelude::*;
use std::sync::Arc;
use std::sync::atomic::AtomicBool;
use std::time::{Duration, Instant};
use crate::board::{Board, after, holder_in, lemma_played_unique};
use crate::eval::{EvalConfig, PIECE_VALUES, eval, evaluation};
use crate::generator::{king_sq, attacked, base, king_square, is_attacked, legal, generate_legal_moves, king_safe};
use crate::position::{wf, clocks_ok, lemma_wf_gen_ok, lemma_wf_preserved, lemma_pseudo_facts};
use crate::transposition::{Bound, TTEntry, TranspositionTable, zobrist_hash};
use crate::piece_move::Move;
use crate::value::{minimax, move_value, moves_result, window_result, lemma_window_from_moves, lemma_minimax_leaf};
pub use crate::ordering::order_moves;
use crate::pieces::Color;

verus! {

pub const INFINITY: i32 = 30_000;
pub const MATE_SCORE: i32 = 29_000;

/// Plies with killer-move slots. The search can go deeper; past this bound
/// the killer slots are neither read nor written.
pub const MAX_PLY: usize = 64;

/// Cap on one history slot.
pub const HISTORY_MAX: i32 = 1048576;

/// Every `NODE_CHECK_INTERVAL` nodes the abort signal is consulted.
pub const NODE_CHECK_INTERVAL: u64 = 2048;

/// Half-width of the aspiration window around the previous iteration's score.
pub const ASPIRATION_DELTA: i32 = 100;

/// Iterations shallower than this search the full window.
pub const ASPIRATION_MIN_DEPTH: u32 = 5;

/// Null-move search depth reduction.
pub const NULL_MOVE_REDUCTION: u32 = 2;

/// Null-move pruning is tried from this depth on.
pub const NULL_MOVE_MIN_DEPTH: u32 = 3;

/// Late-move reduction.
pub const LMR_REDUCTION: u32 = 1;

/// Late-move reductions apply from this depth on.
pub const LMR_MIN_DEPTH: u32 = 3;

/// Late-move reductions apply from this move index on.
pub const LMR_MIN_MOVE_IDX: usize = 3;

/// Futility pruning applies up to this depth.
pub const FUTILITY_MAX_DEPTH: u32 = 2;

/// Razoring applies up to this depth.
pub const RAZOR_MAX_DEPTH: u32 = 3;

/// Plies a line of captures may take in quiescence search: every capture
/// removes a piece, so no line of captures outlasts the 64 squares.
pub const QUIESCENCE_PLIES: u32 = 64;

/// Per-ply killer moves: two slots, most recent first.
pub type KillerTable = [[Option<Move>; 2]; 64];

/// History scores of quiet moves that caused cutoffs, indexed
/// `[side][from][to]`.
pub type HistoryTable = [[[i32; 64]; 64]; 2];

/// Killer slots, all empty.
pub fn new_killers() -> (r: KillerTable)
    ensures
        forall|p: int, k: int| 0 <= p < 64 && 0 <= k < 2 ==> #[trigger] r[p][k] is None,
{
    [[None; 2]; 64]
}

/// History scores, all zero.
pub fn new_history() -> (r: Box<HistoryTable>)
    ensures
        forall|s: int, f: int, t: int| 0 <= s < 2 && 0 <= f < 64 && 0 <= t < 64 ==> #[trigger] r[s][f][t] == 0,
{
    Box::new([[[0i32; 64]; 64]; 2])
}

/// `std::time::Instant`, a point in time, carried through unopened.
#[verifier::external_type_specification]
#[verifier::external_body]
pub struct ExInstant(Instant);

/// `Instant::now`: reads the clock; nothing is known of the result.
#[verifier::external_body]
pub(crate) fn clock_now() -> (r: Instant) {
    Instant::now()
}

/// `Instant >= Instant` (`PartialOrd::ge`): whether `a` is no earlier than
/// `b`; nothing is claimed of the answer.
#[verifier::external_body]
fn not_before(a: &Instant, b: &Instant) -> (r: bool) {
    a >= b
}

/// `Instant::elapsed`: the time since `start`; nothing is known of it.
#[verifier::external_body]
pub(crate) fn elapsed_since(start: &Instant) -> (r: Duration) {
    start.elapsed()
}

/// When to stop searching: a wall-clock deadline, a shared flag (set by a
/// UCI `stop`), both, or neither.
#[derive(Clone)]
pub struct AbortSignal {
    pub deadline: Option<Instant>,
    pub stop: Option<Arc<AtomicBool>>,
}

impl AbortSignal {
    /// A signal that never fires.
    pub fn never() -> (r: Self)
        ensures
            r.deadline is None && r.stop is None,
    {
        AbortSignal { deadline: None, stop: None }
    }

    /// A signal that fires once `deadline` has passed, if there is one.
    pub fn with_deadline(deadline: Option<Instant>) -> (r: Self)
        ensures
            r.deadline == deadline && r.stop is None,
    {
        AbortSignal { deadline, stop: None }
    }

    /// Whether to stop: the flag is set, or the deadline has passed. A signal
    /// with neither never fires.
    pub fn fire(&self) -> (r: bool)
        ensures
            self.deadline is None && self.stop is None ==> !r,
    {
        match &self.stop {
            Some(s) => {
                if s.load(std::sync::atomic::Ordering::Relaxed) {
                    return true;
                }
            },
            None => {},
        }
        match &self.deadline {
            Some(dl) => {
                let now = clock_now();
                if not_before(&now, dl) {
                    return true;
                }
            },
            None => {},
        }
        false
    }
}

/// Search features that can be switched on and off one by one.
#[derive(Clone, Copy, Debug)]
pub struct SearchConfig {
    pub move_ordering: bool,
    pub quiescence: bool,
    pub iterative_deepening: bool,
    pub transposition_table: bool,
    pub piece_square_tables: bool,
    pub pawn_structure: bool,
    pub bishop_pair: bool,
    pub king_safety: bool,
    pub killer_moves: bool,
    pub history_heuristic: bool,
    pub mid_search_abort: bool,
    pub null_move_pruning: bool,
    pub aspiration_windows: bool,
    pub late_move_reductions: bool,
    pub futility_pruning: bool,
    pub razoring: bool,
}

impl Default for SearchConfig {
    /// Every feature on but razoring.
    fn default() -> (r: SearchConfig)
        ensures
            r.move_ordering && r.quiescence && r.iterative_deepening && r.transposition_table,
            r.piece_square_tables && r.pawn_structure && r.bishop_pair && r.king_safety,
            r.killer_moves && r.history_heuristic && r.mid_search_abort && r.null_move_pruning,
            r.aspiration_windows && r.late_move_reductions && r.futility_pruning && !r.razoring,
    {
        SearchConfig {
            move_ordering: true,
            quiescence: true,
            iterative_deepening: true,
            transposition_table: true,
            piece_square_tables: true,
            pawn_structure: true,
            bishop_pair: true,
            king_safety: true,
            killer_moves: true,
            history_heuristic: true,
            mid_search_abort: true,
            null_move_pruning: true,
            aspiration_windows: true,
            late_move_reductions: true,
            futility_pruning: true,
            razoring: false,
        }
    }
}

/// The evaluation terms a search configuration switches on.
pub open spec fn eval_terms_of(c: SearchConfig) -> EvalConfig {
    EvalConfig {
        piece_square_tables: c.piece_square_tables,
        pawn_structure: c.pawn_structure,
        bishop_pair: c.bishop_pair,
        king_safety: c.king_safety,
        development: false,
    }
}

impl SearchConfig {
    /// The evaluation toggles of this configuration.
    pub fn eval_config(&self) -> (r: EvalConfig)
        ensures
            r == eval_terms_of(*self),
    {
        EvalConfig {
            piece_square_tables: self.piece_square_tables,
            pawn_structure: self.pawn_structure,
            bishop_pair: self.bishop_pair,
            king_safety: self.king_safety,
            development: false,
        }
    }
}

/// Futility margin at `depth`: 150 per ply.
fn futility_margin(depth: u32) -> (r: i32)
    requires
        depth <= FUTILITY_MAX_DEPTH,
    ensures
        r == 150 * depth,
{
    depth as i32 * 150
}

/// Razoring margin at `depth`.
fn razor_margin(depth: u32) -> (r: i32)
    ensures
        r == (if depth == 1 {
            500i32
        } else if depth == 2 {
            800
        } else if depth == 3 {
            1300
        } else {
            0
        }),
{
    match depth {
        1 => 500,
        2 => 800,
        3 => 1300,
        _ => 0,
    }
}

/// Scores reachable by the search: every `i32` but the one without a negation.
pub open spec fn in_range(x: int) -> bool {
    -0x7fff_ffff <= x <= 0x7fff_ffff
}

/// `x` clamped to the scores the search deals in.
pub open spec fn clamp_score(x: int) -> int {
    if x > 0x7fff_ffff {
        0x7fff_ffff
    } else if x < -0x7fff_ffff {
        -0x7fff_ffff
    } else {
        x
    }
}

/// A score as stored in the table: mate scores are counted from the node, not
/// from the root.
pub open spec fn stored_score(score: int, ply: int) -> int {
    if score >= MATE_SCORE - 1000 {
        clamp_score(score + ply)
    } else if score <= -MATE_SCORE + 1000 {
        clamp_score(score - ply)
    } else {
        score
    }
}

/// A stored score read back at `ply`: mate scores counted from the root again.
pub open spec fn retrieved_score(score: int, ply: int) -> int {
    if score >= MATE_SCORE - 1000 {
        score - ply
    } else if score <= -MATE_SCORE + 1000 {
        score + ply
    } else {
        score
    }
}

/// Mate scores are stored counted from the node. A score past the `i32`
/// range stops at its end.
pub fn store_mate_score(score: i32, ply: u32) -> (r: i32)
    requires
        in_range(score as int),
    ensures
        r == stored_score(score as int, ply as int),
        in_range(r as int),
{
    let p: i64 = ply as i64;
    if score >= MATE_SCORE - 1000 {
        let v: i64 = score as i64 + p;
        if v > 0x7fff_ffff {
            0x7fff_ffff
        } else {
            v as i32
        }
    } else if score <= -MATE_SCORE + 1000 {
        let v: i64 = score as i64 - p;
        if v < -0x7fff_ffff {
            -0x7fff_ffff
        } else {
            v as i32
        }
    } else {
        score
    }
}

/// Mate scores are read back counted from the root.
pub fn retrieve_mate_score(score: i32, ply: u32) -> (r: i32)
    requires
        score >= MATE_SCORE - 1000 ==> score - ply >= i32::MIN,
        score <= -MATE_SCORE + 1000 ==> score + ply <= i32::MAX,
    ensures
        r == retrieved_score(score as int, ply as int),
        ply <= 0x4000_0000 && (1 <= ply || in_range(score as int)) ==> in_range(r as int),
{
    if score >= MATE_SCORE - 1000 {
        (score as i64 - ply as i64) as i32
    } else if score <= -MATE_SCORE + 1000 {
        (score as i64 + ply as i64) as i32
    } else {
        score
    }
}

/// Reading back a score stored at the same ply gives the score again, when
/// storing it did not run past the `i32` range.
pub proof fn lemma_mate_score_round_trip(score: int, ply: int)
    requires
        0 <= ply,
        -0x7fff_ffff <= score - ply,
        score + ply <= 0x7fff_ffff,
    ensures
        retrieved_score(stored_score(score, ply), ply) == score,
{
}

/// The score of a position without legal moves: mated, counted from the root,
/// when the side to move is in check; else stalemate.
pub open spec fn terminal(b: Board, ply: int) -> int {
    match king_sq(b, b.side_to_move) {
        Some(k) => if attacked(b, k, b.side_to_move.other()) {
            -MATE_SCORE + ply
        } else {
            0
        },
        None => 0,
    }
}

fn terminal_score(board: &Board, ply: u32) -> (r: i32)
    requires
        ply <= 0x4000_0000,
    ensures
        r == terminal(*board, ply as int),
{
    let king = match king_square(board, board.side_to_move) {
        Some(k) => k,
        None => return 0,
    };
    if is_attacked(board, king, board.side_to_move.opposite()) {
        -MATE_SCORE + ply as i32
    } else {
        0
    }
}

/// The side to move has a king, and it is attacked.
pub open spec fn checked(b: Board) -> bool {
    match king_sq(b, b.side_to_move) {
        Some(k) => attacked(b, k, b.side_to_move.other()),
        None => false,
    }
}

fn in_check(board: &Board) -> (r: bool)
    ensures
        r == checked(*board),
{
    match king_square(board, board.side_to_move) {
        Some(k) => is_attacked(board, k, board.side_to_move.opposite()),
        None => false,
    }
}

/// `side` has a knight, bishop, rook or queen.
pub open spec fn has_pieces(b: Board, side: Color) -> bool {
    let off = base(side);
    b.bbs[off + 1].board | b.bbs[off + 2].board | b.bbs[off + 3].board | b.bbs[off + 4].board != 0
}

fn has_non_pawn_material(board: &Board, side: Color) -> (r: bool)
    ensures
        r == has_pieces(*board, side),
{
    let off: usize = if side == Color::White { 0 } else { 6 };
    (board.bbs[off + 1].board | board.bbs[off + 2].board | board.bbs[off + 3].board | board.bbs[off + 4].board) != 0
}

/// The value of the piece of slot `i` of `base`'s side.
pub open spec fn value_at(b: Board, s: int, off: int) -> int {
    match holder_in(b, s, off, off + 6) {
        Some(i) => PIECE_VALUES[i - off] as int,
        None => 0,
    }
}

/// MVV-LVA: ten times the value of the piece taken, less the value of the
/// piece taking; 0 for a move that takes nothing. An en-passant capture takes
/// a pawn.
pub open spec fn mvv_lva(b: Board, m: Move) -> int {
    let us = b.side_to_move;
    let opp = us.other();
    let dest = m.dest.0 as int;
    let src = m.src.0 as int;
    if b.player_bbs[opp.index()]@.contains(dest) {
        value_at(b, dest, base(opp)) * 10 - value_at(b, src, base(us))
    } else if b.en_passant == Some(m.dest) && b.bbs[base(us)]@.contains(src) {
        PIECE_VALUES[0] * 10 - value_at(b, src, base(us))
    } else {
        0
    }
}

/// The value of the first piece set of `off .. off + 6` holding `s`.
fn value_on(board: &Board, s: usize, off: usize) -> (r: i32)
    requires
        s < 64,
        off == 0 || off == 6,
    ensures
        r == value_at(*board, s as int, off as int),
        0 <= r <= 900,
{
    let mut i: usize = 0;
    while i < 6
        invariant
            s < 64,
            off == 0 || off == 6,
            i <= 6,
            holder_in(*board, s as int, off as int, off + 6) == holder_in(*board, s as int, off + i, off + 6),
        decreases 6 - i,
    {
        if board.bbs[off + i].get(s) {
            return PIECE_VALUES[i];
        }
        i = i + 1;
    }
    0
}

/// MVV-LVA score of a move: captures of valuable pieces by cheap ones first;
/// a move that takes nothing scores 0.
pub fn mvv_lva_score(board: &Board, mv: Move) -> (r: i32)
    requires
        mv.src.0 < 64,
        mv.dest.0 < 64,
    ensures
        r == mvv_lva(*board, mv),
        -900 <= r <= 9000,
{
    let dest_sq = mv.get_dest();
    let src_sq = mv.get_src();
    let dest = dest_sq.to_usize();
    let src = src_sq.to_usize();
    let us = board.side_to_move;
    let opp = us.opposite();
    let opp_off: usize = if opp == Color::White { 0 } else { 6 };
    let our_off: usize = if us == Color::White { 0 } else { 6 };
    let victim = if board.player_bbs[opp.to_index()].get(dest) {
        value_on(board, dest, opp_off)
    } else if board.en_passant == Some(dest_sq) && board.bbs[our_off].get(src) {
        PIECE_VALUES[0]
    } else {
        return 0;
    };
    let attacker = value_on(board, src, our_off);
    victim * 10 - attacker
}

/// Whether a move takes something.
pub fn is_capture(board: &Board, mv: Move) -> (r: bool)
    requires
        mv.src.0 < 64,
        mv.dest.0 < 64,
    ensures
        r == (mvv_lva(*board, mv) > 0),
{
    mvv_lva_score(board, mv) > 0
}

/// The killer moves to try at `ply`: none when killers are off or the ply has
/// no slots.
pub open spec fn killers_at(killers: KillerTable, ply: int, config: SearchConfig) -> [Option<Move>; 2] {
    if !config.killer_moves || ply >= MAX_PLY {
        [None, None]
    } else {
        killers[ply]
    }
}

fn killer_slice(killers: &KillerTable, ply: u32, config: SearchConfig) -> (r: [Option<Move>; 2])
    ensures
        r == killers_at(*killers, ply as int, config),
{
    if !config.killer_moves || (ply as usize) >= MAX_PLY {
        return [None, None];
    }
    killers[ply as usize]
}

/// Every history score lies in `0 ..= HISTORY_MAX`.
#[verifier::opaque]
pub open spec fn history_ok(h: HistoryTable) -> bool {
    forall|s: int, f: int, t: int|
        0 <= s < 2 && 0 <= f < 64 && 0 <= t < 64 ==> 0 <= #[trigger] h[s][f][t] <= HISTORY_MAX
}

/// Each ply's killer slots are well kept: a second killer only behind a first,
/// and never the first one again.
pub open spec fn killers_ok(k: KillerTable) -> bool {
    forall|p: int|
        0 <= p < 64 ==> ((#[trigger] k[p])[0] is None ==> k[p][1] is None) && (k[p][0] is Some ==> k[p][0]
            != k[p][1])
}

/// No history score fell.
pub open spec fn history_grew(h0: HistoryTable, h1: HistoryTable) -> bool {
    forall|s: int, f: int, t: int|
        0 <= s < 2 && 0 <= f < 64 && 0 <= t < 64 ==> #[trigger] h0[s][f][t] <= #[trigger] h1[s][f][t]
}

/// What a search may do to its table, killers and history: each is written
/// only when its feature is on, history scores only rise, and well-kept killer
/// slots stay well kept.
pub open spec fn search_writes(
    config: SearchConfig,
    t0: TranspositionTable,
    t1: TranspositionTable,
    k0: KillerTable,
    k1: KillerTable,
    h0: HistoryTable,
    h1: HistoryTable,
) -> bool {
    &&& !config.transposition_table ==> t1 == t0
    &&& !config.killer_moves ==> k1 == k0
    &&& !config.history_heuristic ==> h1 == h0
    &&& killers_ok(k0) ==> killers_ok(k1)
    &&& history_grew(h0, h1)
}

/// Two searches one after the other write no more than one may.
proof fn lemma_writes_chain(
    config: SearchConfig,
    t0: TranspositionTable,
    t1: TranspositionTable,
    t2: TranspositionTable,
    k0: KillerTable,
    k1: KillerTable,
    k2: KillerTable,
    h0: HistoryTable,
    h1: HistoryTable,
    h2: HistoryTable,
)
    requires
        search_writes(config, t0, t1, k0, k1, h0, h1),
        search_writes(config, t1, t2, k1, k2, h1, h2),
    ensures
        search_writes(config, t0, t2, k0, k2, h0, h2),
{
    assert forall|s: int, f: int, t: int| 0 <= s < 2 && 0 <= f < 64 && 0 <= t < 64 implies #[trigger] h0[s][f][t]
        <= #[trigger] h2[s][f][t] by {
        assert(h0[s][f][t] <= h1[s][f][t]);
        assert(h1[s][f][t] <= h2[s][f][t]);
    }
}

/// Nothing written at all.
proof fn lemma_writes_none(config: SearchConfig, t: TranspositionTable, k: KillerTable, h: HistoryTable)
    ensures
        search_writes(config, t, t, k, k, h, h),
{
}

/// A search that can stop early only through a signal that never fires.
pub open spec fn never_aborts(config: SearchConfig, abort: AbortSignal) -> bool {
    !config.mid_search_abort || (abort.deadline is None && abort.stop is None)
}

/// The search as plain alpha-beta: no table, no pruning heuristic, no
/// quiescence, and nothing that can stop it.
pub open spec fn plain_search(config: SearchConfig, abort: AbortSignal) -> bool {
    plain_config(config) && never_aborts(config, abort)
}

/// A configuration without table, pruning heuristics or quiescence.
pub open spec fn plain_config(config: SearchConfig) -> bool {
    &&& !config.transposition_table
    &&& !config.quiescence
    &&& !config.null_move_pruning
    &&& !config.razoring
    &&& !config.futility_pruning
    &&& !config.late_move_reductions
}

/// Both squares of the move are on the board.
pub open spec fn on_board(m: Move) -> bool {
    m.src.0 < 64 && m.dest.0 < 64
}

/// A position the search can work on for `plies` more moves: well formed,
/// with room on its move clocks.
#[verifier::opaque]
pub open spec fn searchable(b: Board, plies: int) -> bool {
    wf(b) && clocks_ok(b, plies)
}

/// `m` is a legal move of `b`.
#[verifier::opaque]
pub open spec fn legal_in(b: Board, m: Move) -> bool {
    legal(b, m)
}

/// Room for more moves means room for fewer.
proof fn lemma_searchable_fewer(b: Board, n: int, k: int)
    requires
        searchable(b, n),
        0 <= k <= n,
    ensures
        searchable(b, k),
{
    reveal(searchable);
}

/// A legal move of a searchable position leads to a searchable position with
/// one ply less of room.
proof fn lemma_child(b: Board, m: Move, a: Board, n: int)
    requires
        searchable(b, n),
        n >= 1,
        legal_in(b, m),
        b.played(m, a),
    ensures
        searchable(a, n - 1),
        on_board(m),
{
    reveal(searchable);
    reveal(legal_in);
    lemma_wf_preserved(b, m, a);
    lemma_pseudo_facts(b, m);
}

/// Plays a legal move on a copy of `board`.
fn play(board: &Board, m: Move) -> (r: Board)
    requires
        searchable(*board, 1),
        legal_in(*board, m),
    ensures
        board.played(m, r),
{
    proof {
        reveal(searchable);
        reveal(legal_in);
        lemma_wf_gen_ok(*board);
        lemma_pseudo_facts(*board, m);
    }
    let mut next = *board;
    let res = next.apply_move(m);
    proof {
        assert(res is Ok);
    }
    next
}

/// The legal moves of a searchable position.
fn legal_moves(board: &Board) -> (r: Vec<Move>)
    requires
        searchable(*board, 1),
    ensures
        forall|m: Move| #[trigger] r@.contains(m) <==> legal_in(*board, m),
        forall|i: int| 0 <= i < r@.len() ==> on_board(#[trigger] r@[i]) && legal_in(*board, r@[i]),
{
    proof {
        reveal(searchable);
        lemma_wf_gen_ok(*board);
    }
    let moves = generate_legal_moves(board);
    proof {
        reveal(legal_in);
        assert forall|i: int| 0 <= i < moves@.len() implies on_board(#[trigger] moves@[i]) && legal_in(*board, moves@[i]) by {
            reveal(searchable);
            assert(moves@.contains(moves@[i]));
            lemma_pseudo_facts(*board, moves@[i]);
        }
    }
    moves
}

/// Counts a node; the count wraps after `u64::MAX` nodes.
fn count_node(nodes: &mut u64) -> (r: bool)
    ensures
        *final(nodes) == old(nodes).wrapping_add(1),
        r == (final(nodes) & 2047u64 == 0),
{
    *nodes = nodes.wrapping_add(1);
    *nodes & (NODE_CHECK_INTERVAL - 1) == 0
}

/// Quiescence search: below the main search, only captures are followed, with
/// the static evaluation as the floor the side to move can stand on.
/// `budget` is the most captures a line can still hold.
fn qsearch(
    board: &Board,
    alpha: i32,
    beta: i32,
    ply: u32,
    config: SearchConfig,
    history: &HistoryTable,
    abort: &AbortSignal,
    nodes: &mut u64,
    budget: u32,
) -> (r: i32)
    requires
        searchable(*board, budget as int + 1),
        in_range(alpha as int),
        in_range(beta as int),
        history_ok(*history),
    ensures
        in_range(r as int),
        never_aborts(config, *abort) && alpha <= beta ==> alpha <= r <= beta,
    decreases budget,
{
    let ghost a0 = alpha;
    let check = count_node(nodes);
    if config.mid_search_abort && check && abort.fire() {
        return 0;
    }
    let stand_pat = eval(board, config.eval_config());
    if stand_pat >= beta {
        return beta;
    }
    let mut alpha = alpha;
    if stand_pat > alpha {
        alpha = stand_pat;
    }
    if budget == 0 {
        return alpha;
    }
    proof {
        lemma_searchable_fewer(*board, budget as int + 1, 1);
    }
    let all = legal_moves(board);
    let mut moves: Vec<Move> = Vec::new();
    let mut k: usize = 0;
    while k < all.len()
        invariant
            k <= all@.len(),
            forall|i: int| 0 <= i < all@.len() ==> on_board(#[trigger] all@[i]) && legal_in(*board, all@[i]),
            forall|i: int| 0 <= i < moves@.len() ==> on_board(#[trigger] moves@[i]) && legal_in(*board, moves@[i]),
        decreases all.len() - k,
    {
        if is_capture(board, all[k]) {
            moves.push(all[k]);
        }
        k = k + 1;
    }
    if config.move_ordering {
        let ghost before = moves@;
        order_moves(board, &mut moves, None, [None, None], history);
        proof {
            assert forall|i: int| 0 <= i < moves@.len() implies on_board(#[trigger] moves@[i]) && legal_in(*board, moves@[i]) by {
                assert(moves@.contains(moves@[i]));
                assert(before.contains(moves@[i]));
            }
        }
    }
    let mut i: usize = 0;
    while i < moves.len()
        invariant
            searchable(*board, budget as int + 1),
            budget >= 1,
            in_range(alpha as int),
            in_range(beta as int),
            a0 <= alpha,
            a0 <= beta ==> alpha <= beta,
            history_ok(*history),
            forall|j: int| 0 <= j < moves@.len() ==> on_board(#[trigger] moves@[j]) && legal_in(*board, moves@[j]),
        decreases moves.len() - i,
    {
        let m = moves[i];
        proof {
            lemma_searchable_fewer(*board, budget as int + 1, 1);
        }
        let next = play(board, m);
        proof {
            lemma_child(*board, m, next, budget as int + 1);
        }
        let score = -qsearch(&next, -beta, -alpha, ply, config, history, abort, nodes, budget - 1);
        if config.mid_search_abort && abort.fire() {
            return alpha;
        }
        if score >= beta {
            return beta;
        }
        if score > alpha {
            alpha = score;
        }
        i = i + 1;
    }
    alpha
}

/// Depths the search can take: the history bonus `depth²` fits beside the cap.
pub open spec fn depth_ok(depth: int) -> bool {
    depth * depth + HISTORY_MAX <= i32::MAX
}

/// A null move: the same pieces, the other side to move, no en-passant square.
pub open spec fn null_of(b: Board) -> Board {
    Board { en_passant: None, side_to_move: b.side_to_move.other(), ..b }
}

/// Passing the move keeps a position well formed when the side to move is
/// not in check.
proof fn lemma_null_move(b: Board, n: int)
    requires
        searchable(b, n),
        !checked(b),
    ensures
        searchable(null_of(b), n),
{
    reveal(searchable);
    let z = null_of(b);
    assert(z.bbs == b.bbs);
    assert(z.player_bbs == b.player_bbs);
    assert(king_sq(z, b.side_to_move) == king_sq(b, b.side_to_move));
    assert(king_safe(z, z.side_to_move.other()) == !checked(b));
    assert(wf(z));
}

/// Adds `depth²` to the history score of a quiet move, up to the cap.
fn reward_history(history: &mut HistoryTable, side: usize, m: Move, depth: u32)
    requires
        side < 2,
        on_board(m),
        depth_ok(depth as int),
        history_ok(*old(history)),
    ensures
        history_ok(*final(history)),
        history_grew(*old(history), *final(history)),
{
    let f = m.src.to_usize();
    let t = m.dest.to_usize();
    proof {
        reveal(history_ok);
    }
    let bonus = (depth * depth) as i32;
    let v = history[side][f][t] + bonus;
    let capped = if v < HISTORY_MAX { v } else { HISTORY_MAX };
    let mut row = history[side][f];
    row[t] = capped;
    let mut plane = history[side];
    plane[f] = row;
    history[side] = plane;
    proof {
        reveal(history_ok);
        assert forall|a: int, b: int, c: int| 0 <= a < 2 && 0 <= b < 64 && 0 <= c < 64 implies #[trigger] old(
            history,
        )[a][b][c] <= #[trigger] history[a][b][c] by {
            assert(0 <= old(history)[a][b][c] <= HISTORY_MAX);
        }
    }
}

/// Records a quiet cutoff move as the first killer at `ply`, the old first
/// sliding to second.
fn record_killer(killers: &mut KillerTable, ply: usize, m: Move)
    requires
        ply < MAX_PLY,
    ensures
        killers_ok(*old(killers)) ==> killers_ok(*final(killers)),
        final(killers)[ply as int][0] == Some(m),
        forall|p: int| 0 <= p < 64 && p != ply ==> #[trigger] final(killers)[p] == old(killers)[p],
{
    let cur = killers[ply];
    if cur[0] != Some(m) {
        killers[ply] = [Some(m), cur[0]];
    }
}

/// The static evaluation, computed on first need.
fn static_eval_of(board: &Board, config: SearchConfig, cache: &mut Option<i32>) -> (r: i32)
    requires
        *old(cache) matches Some(v) ==> -400_000_000 <= v <= 400_000_000,
    ensures
        -400_000_000 <= r <= 400_000_000,
        *final(cache) == Some(r),
{
    match *cache {
        Some(v) => v,
        None => {
            let v = eval(board, config.eval_config());
            *cache = Some(v);
            v
        },
    }
}

/// Depths below an allowed depth are allowed.
proof fn lemma_depth_ok_below(a: int, b: int)
    requires
        0 <= a <= b,
        depth_ok(b),
    ensures
        depth_ok(a),
{
    assert(a * a <= b * b) by (nonlinear_arith)
        requires
            0 <= a <= b,
    ;
}

/// What the table says of a node: a score to return at once, and the move to
/// try first.
fn probe_node(
    tt: &TranspositionTable,
    key: u64,
    depth: u32,
    alpha: i32,
    beta: i32,
    ply: u32,
    config: SearchConfig,
) -> (r: (Option<i32>, Option<Move>))
    requires
        tt.wf(),
        1 <= ply <= 0x4000_0000,
    ensures
        r.0 matches Some(v) ==> in_range(v as int),
        !config.transposition_table ==> r.0 is None,
        tt.is_empty() ==> r.0 is None,
{
    proof {
        tt.lemma_slot_in_range(key);
    }
    if !config.transposition_table {
        return (None, None);
    }
    match tt.probe(key) {
        Some(entry) => {
            if entry.depth as u32 >= depth {
                let score = retrieve_mate_score(entry.score, ply);
                let cut = match entry.bound {
                    Bound::Exact => true,
                    Bound::LowerBound => score >= beta,
                    Bound::UpperBound => score <= alpha,
                };
                if cut {
                    return (Some(score), entry.best_move);
                }
            }
            (None, entry.best_move)
        },
        None => (None, None),
    }
}

/// Neither razoring nor null-move pruning can cut a node searched at `depth`
/// in the window `alpha..beta`: each is off, out of its depths, or the window
/// is too close to a mate score for it.
pub open spec fn no_early_cut(config: SearchConfig, depth: int, alpha: int, beta: int) -> bool {
    &&& (!config.razoring || depth > RAZOR_MAX_DEPTH || !(-28000 < alpha < 28000 && -28000 < beta < 28000))
    &&& (!config.null_move_pruning || depth < NULL_MOVE_MIN_DEPTH || beta <= -28000 || beta >= 28000)
}

/// Razoring and null-move pruning: a score to return before any move is
/// searched, if either cuts the node off.
fn prune_early(
    board: &Board,
    depth: u32,
    alpha: i32,
    beta: i32,
    ply: u32,
    config: SearchConfig,
    node_in_check: bool,
    in_safe_window: bool,
    static_eval: &mut Option<i32>,
    tt: &mut TranspositionTable,
    killers: &mut KillerTable,
    history: &mut HistoryTable,
    abort: &AbortSignal,
    nodes: &mut u64,
) -> (r: Option<i32>)
    requires
        searchable(*board, depth + QUIESCENCE_PLIES + 1),
        depth_ok(depth as int),
        1 <= depth,
        1 <= ply,
        ply + depth + QUIESCENCE_PLIES <= 0x4000_0000,
        in_range(alpha as int),
        in_range(beta as int),
        node_in_check == checked(*board),
        in_safe_window <==> (-28000 < alpha < 28000 && -28000 < beta < 28000),
        *old(static_eval) matches Some(v) ==> -400_000_000 <= v <= 400_000_000,
        old(tt).wf(),
        history_ok(*old(history)),
    ensures
        r matches Some(v) ==> in_range(v as int),
        node_in_check ==> r is None,
        no_early_cut(config, depth as int, alpha as int, beta as int) ==> r is None,
        search_writes(config, *old(tt), *final(tt), *old(killers), *final(killers), *old(history), *final(history)),
        *final(static_eval) matches Some(v) ==> -400_000_000 <= v <= 400_000_000,
        final(tt).wf(),
        history_ok(*final(history)),
    decreases depth, 0int,
{
    if config.razoring && depth <= RAZOR_MAX_DEPTH && !node_in_check && in_safe_window {
        let se = static_eval_of(board, config, static_eval);
        if se + razor_margin(depth) < alpha {
            proof {
                lemma_searchable_fewer(*board, depth + QUIESCENCE_PLIES + 1, QUIESCENCE_PLIES + 1);
            }
            let score = qsearch(board, alpha, beta, ply, config, history, abort, nodes, QUIESCENCE_PLIES);
            if config.mid_search_abort && abort.fire() {
                return Some(alpha);
            }
            if score < alpha {
                return Some(score);
            }
        }
    }
    if config.null_move_pruning && depth >= NULL_MOVE_MIN_DEPTH && -(MATE_SCORE - 1000) < beta && beta < MATE_SCORE
        - 1000 && !node_in_check && has_non_pawn_material(board, board.side_to_move) {
        let mut null = *board;
        null.en_passant = None;
        null.side_to_move = board.side_to_move.opposite();
        proof {
            assert(null == null_of(*board));
            lemma_null_move(*board, depth + QUIESCENCE_PLIES + 1);
            lemma_searchable_fewer(null, depth + QUIESCENCE_PLIES + 1, depth - 3 + QUIESCENCE_PLIES + 1);
            lemma_depth_ok_below(depth - 3, depth as int);
        }
        let reduced = depth - 1 - NULL_MOVE_REDUCTION;
        let score = -negamax(&null, reduced, -beta, -beta + 1, ply + 1, config, tt, killers, history, abort, nodes);
        if config.mid_search_abort && abort.fire() {
            return Some(alpha);
        }
        if score >= beta {
            return Some(beta);
        }
    }
    None
}

/// Searches the moves of a node in order, with futility pruning and late-move
/// reductions; records killers, history and the table entry.
#[verifier::rlimit(40)]
#[verifier::loop_isolation(false)]
fn search_moves(
    board: &Board,
    moves: &Vec<Move>,
    depth: u32,
    alpha: i32,
    beta: i32,
    ply: u32,
    key: u64,
    config: SearchConfig,
    node_in_check: bool,
    futility_prune: bool,
    tt: &mut TranspositionTable,
    killers: &mut KillerTable,
    history: &mut HistoryTable,
    abort: &AbortSignal,
    nodes: &mut u64,
) -> (r: i32)
    requires
        searchable(*board, depth + QUIESCENCE_PLIES + 1),
        depth_ok(depth as int),
        1 <= depth,
        1 <= ply,
        ply + depth + QUIESCENCE_PLIES <= 0x4000_0000,
        in_range(alpha as int),
        in_range(beta as int),
        moves@.len() > 0,
        forall|j: int| 0 <= j < moves@.len() ==> on_board(#[trigger] moves@[j]) && legal_in(*board, moves@[j]),
        old(tt).wf(),
        history_ok(*old(history)),
    ensures
        in_range(r as int),
        final(tt).wf(),
        history_ok(*final(history)),
        search_writes(config, *old(tt), *final(tt), *old(killers), *final(killers), *old(history), *final(history)),
        plain_search(config, *abort) && !futility_prune && alpha < beta ==> moves_result(
            r as int,
            *board,
            moves@,
            depth as nat,
            ply as int,
            eval_terms_of(config),
            alpha as int,
            beta as int,
        ),
    decreases depth, 0int,
{
    proof {
        reveal(moves_result);
    }
    let mut alpha = alpha;
    let entry_alpha = alpha;
    let mut best_move = moves[0];
    proof {
        lemma_depth_ok_below(depth - 1, depth as int);
        if depth >= 2 {
            lemma_depth_ok_below(depth - 2, depth as int);
        }
    }
    let mut move_index: usize = 0;
    while move_index < moves.len()
        invariant
            searchable(*board, depth + QUIESCENCE_PLIES + 1),
            depth_ok(depth as int),
            depth >= 2 ==> depth_ok(depth - 2),
            depth_ok(depth - 1),
            1 <= depth,
            1 <= ply,
            ply + depth + QUIESCENCE_PLIES <= 0x4000_0000,
            in_range(alpha as int),
            in_range(beta as int),
            in_range(entry_alpha as int),
            tt.wf(),
            history_ok(*history),
            forall|j: int| 0 <= j < moves@.len() ==> on_board(#[trigger] moves@[j]) && legal_in(*board, moves@[j]),
            on_board(best_move),
            search_writes(config, *old(tt), *tt, *old(killers), *killers, *old(history), *history),
            move_index <= moves@.len(),
            plain_search(config, *abort) && !futility_prune && entry_alpha < beta ==> {
                &&& entry_alpha <= alpha < beta
                &&& forall|j: int|
                    0 <= j < move_index ==> move_value(
                        *board,
                        #[trigger] moves@[j],
                        depth as nat,
                        ply as int,
                        eval_terms_of(config),
                    ) <= alpha
                &&& (alpha == entry_alpha || exists|j: int|
                    0 <= j < move_index && move_value(
                        *board,
                        #[trigger] moves@[j],
                        depth as nat,
                        ply as int,
                        eval_terms_of(config),
                    ) == alpha)
            },
        decreases moves.len() - move_index,
    {
        let m = moves[move_index];
        let quiet = !is_capture(board, m) && m.get_promotion().is_none();
        if futility_prune && move_index > 0 && quiet {
            move_index = move_index + 1;
            continue;
        }
        proof {
            lemma_searchable_fewer(*board, depth + QUIESCENCE_PLIES + 1, 1);
        }
        let next = play(board, m);
        proof {
            lemma_child(*board, m, next, depth + QUIESCENCE_PLIES + 1);
            if depth >= 2 {
                lemma_searchable_fewer(next, depth + QUIESCENCE_PLIES, depth - 2 + QUIESCENCE_PLIES + 1);
            }
        }
        let do_lmr = config.late_move_reductions && depth >= LMR_MIN_DEPTH && move_index >= LMR_MIN_MOVE_IDX
            && !node_in_check && quiet;
        let ghost (t0, k0, h0) = (*tt, *killers, *history);
        let ghost alpha_before = alpha;
        let mut score = if do_lmr {
            -negamax(&next, depth - 1 - LMR_REDUCTION, -beta, -alpha, ply + 1, config, tt, killers, history, abort, nodes)
        } else {
            -negamax(&next, depth - 1, -beta, -alpha, ply + 1, config, tt, killers, history, abort, nodes)
        };
        let ghost cfg = eval_terms_of(config);
        proof {
            if plain_search(config, *abort) && !futility_prune && entry_alpha < beta {
                lemma_played_unique(*board, m, next, after(*board, m));
                assert(move_value(*board, m, depth as nat, ply as int, cfg) == -minimax(
                    next,
                    (depth - 1) as nat,
                    ply + 1,
                    cfg,
                ));
            }
        }
        proof {
            lemma_writes_chain(config, *old(tt), t0, *tt, *old(killers), k0, *killers, *old(history), h0, *history);
        }
        if do_lmr && score > alpha && !(config.mid_search_abort && abort.fire()) {
            let ghost (t1, k1, h1) = (*tt, *killers, *history);
            score = -negamax(&next, depth - 1, -beta, -alpha, ply + 1, config, tt, killers, history, abort, nodes);
            proof {
                lemma_writes_chain(config, *old(tt), t1, *tt, *old(killers), k1, *killers, *old(history), h1, *history);
            }
        }
        if config.mid_search_abort && abort.fire() {
            return alpha;
        }
        if score >= beta {
            if !is_capture(board, m) {
                if config.killer_moves && (ply as usize) < MAX_PLY {
                    let ghost k2 = *killers;
                    record_killer(killers, ply as usize, m);
                    proof {
                        lemma_writes_chain(config, *old(tt), *tt, *tt, *old(killers), k2, *killers, *old(history), *history, *history);
                    }
                }
                if config.history_heuristic {
                    let side = board.side_to_move.to_index();
                    let ghost h2 = *history;
                    reward_history(history, side, m, depth);
                    proof {
                        lemma_writes_chain(config, *old(tt), *tt, *tt, *old(killers), *killers, *killers, *old(history), h2, *history);
                    }
                }
            }
            if config.transposition_table {
                tt.store(
                    TTEntry {
                        key,
                        score: store_mate_score(beta, ply),
                        best_move: Some(m),
                        depth: if depth < 255 { depth as u8 } else { 255 },
                        bound: Bound::LowerBound,
                    },
                );
            }
            proof {
                reveal(moves_result);
                if plain_search(config, *abort) && !futility_prune && entry_alpha < beta {
                    assert(move_value(*board, moves@[move_index as int], depth as nat, ply as int, cfg) >= beta);
                    assert(exists|j: int|
                        0 <= j < moves@.len() && move_value(*board, #[trigger] moves@[j], depth as nat, ply as int, cfg)
                            >= beta);
                    assert(!(forall|j: int|
                        0 <= j < moves@.len() ==> move_value(*board, #[trigger] moves@[j], depth as nat, ply as int, cfg)
                            < beta));
                }
            }
            return beta;
        }
        if score > alpha {
            alpha = score;
            best_move = m;
        }
        proof {
            if plain_search(config, *abort) && !futility_prune && entry_alpha < beta {
                let v = move_value(*board, m, depth as nat, ply as int, cfg);
                assert(moves@[move_index as int] == m);
                if alpha != alpha_before {
                    assert(v == alpha);
                } else {
                    assert(v <= alpha);
                }
                assert forall|j: int| 0 <= j < move_index + 1 implies move_value(
                    *board,
                    #[trigger] moves@[j],
                    depth as nat,
                    ply as int,
                    cfg,
                ) <= alpha by {
                    if j < move_index {
                        assert(move_value(*board, moves@[j], depth as nat, ply as int, cfg) <= alpha_before);
                    }
                }
                if alpha != entry_alpha {
                    if alpha == alpha_before {
                        let j = choose|j: int|
                            0 <= j < move_index && move_value(*board, #[trigger] moves@[j], depth as nat, ply as int, cfg)
                                == alpha;
                        assert(0 <= j < move_index + 1);
                    } else {
                        assert(move_value(*board, moves@[move_index as int], depth as nat, ply as int, cfg) == alpha);
                    }
                }
            }
        }
        move_index = move_index + 1;
    }
    if config.transposition_table {
        let bound = if alpha > entry_alpha {
            Bound::Exact
        } else {
            Bound::UpperBound
        };
        tt.store(
            TTEntry {
                key,
                score: store_mate_score(alpha, ply),
                best_move: Some(best_move),
                depth: if depth < 255 { depth as u8 } else { 255 },
                bound,
            },
        );
    }
    alpha
}

/// Alpha-beta search of `board` to `depth` plies, with the pruning and
/// ordering features `config` switches on; the score is from the side to
/// move's point of view.
#[verifier::spinoff_prover]
#[verifier::rlimit(50)]
fn negamax(
    board: &Board,
    depth: u32,
    alpha: i32,
    beta: i32,
    ply: u32,
    config: SearchConfig,
    tt: &mut TranspositionTable,
    killers: &mut KillerTable,
    history: &mut HistoryTable,
    abort: &AbortSignal,
    nodes: &mut u64,
) -> (r: i32)
    requires
        searchable(*board, depth + QUIESCENCE_PLIES + 1),
        depth_ok(depth as int),
        1 <= ply,
        ply + depth + QUIESCENCE_PLIES <= 0x4000_0000,
        in_range(alpha as int),
        in_range(beta as int),
        old(tt).wf(),
        history_ok(*old(history)),
    ensures
        in_range(r as int),
        final(tt).wf(),
        history_ok(*final(history)),
        search_writes(config, *old(tt), *final(tt), *old(killers), *final(killers), *old(history), *final(history)),
        never_aborts(config, *abort) && (!config.transposition_table || old(tt).is_empty()) && depth >= 1 && no_moves(
            *board,
        ) && (checked(*board) || no_early_cut(config, depth as int, alpha as int, beta as int)) ==> r == terminal(
            *board,
            ply as int,
        ),
        never_aborts(config, *abort) && (!config.transposition_table || old(tt).is_empty()) && depth == 0
            && !config.quiescence ==> r == evaluation(*board, eval_terms_of(config)),
        never_aborts(config, *abort) && (!config.transposition_table || old(tt).is_empty()) && depth == 0
            && config.quiescence && alpha <= beta ==> alpha <= r <= beta,
        plain_search(config, *abort) && alpha < beta ==> window_result(
            r as int,
            minimax(*board, depth as nat, ply as int, eval_terms_of(config)),
            alpha as int,
            beta as int,
        ),
    decreases depth, 1int,
{
    proof {
        lemma_minimax_leaf(*board, depth as nat, ply as int, eval_terms_of(config));
    }
    let check = count_node(nodes);
    if config.mid_search_abort && check && abort.fire() {
        return 0;
    }
    let key = zobrist_hash(board);
    let (hit, tt_move) = probe_node(tt, key, depth, alpha, beta, ply, config);
    if let Some(score) = hit {
        return score;
    }
    if depth == 0 {
        return if config.quiescence {
            qsearch(board, alpha, beta, ply, config, history, abort, nodes, QUIESCENCE_PLIES)
        } else {
            eval(board, config.eval_config())
        };
    }
    let node_in_check = in_check(board);
    let mut static_eval: Option<i32> = None;
    let in_safe_window = -(MATE_SCORE - 1000) < alpha && alpha < MATE_SCORE - 1000 && -(MATE_SCORE - 1000) < beta
        && beta < MATE_SCORE - 1000;
    let early = prune_early(
        board,
        depth,
        alpha,
        beta,
        ply,
        config,
        node_in_check,
        in_safe_window,
        &mut static_eval,
        tt,
        killers,
        history,
        abort,
        nodes,
    );
    if let Some(score) = early {
        return score;
    }
    proof {
        lemma_searchable_fewer(*board, depth + QUIESCENCE_PLIES + 1, 1);
    }
    let mut moves = legal_moves(board);
    if moves.len() == 0 {
        proof {
            reveal(legal_in);
            assert forall|mv: Move| !legal(*board, mv) by {
                if legal(*board, mv) {
                    assert(legal_in(*board, mv));
                    assert(moves@.contains(mv));
                }
            }
        }
        return terminal_score(board, ply);
    }
    proof {
        assert(moves@.contains(moves@[0]));
        reveal(legal_in);
        assert(!no_moves(*board));
    }
    if config.move_ordering {
        let ghost before = moves@;
        let ks = killer_slice(killers, ply, config);
        order_moves(board, &mut moves, tt_move, ks, history);
        proof {
            assert forall|i: int| 0 <= i < moves@.len() implies on_board(#[trigger] moves@[i]) && legal_in(*board, moves@[i]) by {
                assert(moves@.contains(moves@[i]));
                assert(before.contains(moves@[i]));
            }
        }
    }
    proof {
        reveal(legal_in);
        assert forall|mv: Move| legal(*board, mv) implies moves@.contains(mv) && mv.src.0 < 64 && mv.dest.0 < 64 by {
            assert(legal_in(*board, mv));
            assert(moves@.contains(mv));
            let j = choose|j: int| 0 <= j < moves@.len() && moves@[j] == mv;
            assert(on_board(moves@[j]));
        }
    }
    let futility_prune = if config.futility_pruning && depth <= FUTILITY_MAX_DEPTH && !node_in_check && in_safe_window {
        let se = static_eval_of(board, config, &mut static_eval);
        se + futility_margin(depth) <= alpha
    } else {
        false
    };
    let ghost (t1, k1, h1) = (*tt, *killers, *history);
    let r = search_moves(
        board,
        &moves,
        depth,
        alpha,
        beta,
        ply,
        key,
        config,
        node_in_check,
        futility_prune,
        tt,
        killers,
        history,
        abort,
        nodes,
    )
;
    proof {
        lemma_writes_chain(config, *old(tt), t1, *tt, *old(killers), k1, *killers, *old(history), h1, *history);
        if plain_search(config, *abort) && alpha < beta {
            assert forall|j: int| 0 <= j < moves@.len() implies legal(*board, #[trigger] moves@[j]) by {
                assert(legal_in(*board, moves@[j]));
            }
            lemma_window_from_moves(
                r as int,
                *board,
                moves@,
                depth as nat,
                ply as int,
                eval_terms_of(config),
                alpha as int,
                beta as int,
            );
        }
    }
    r
}

/// Without a legal move, the side to move is mated when in check, worth
/// `-MATE_SCORE + ply`, and stalemated otherwise, worth 0 at every ply.
pub proof fn law_terminal_scores(b: Board, ply: int)
    ensures
        !checked(b) ==> terminal(b, ply) == 0,
        checked(b) ==> terminal(b, ply) == -MATE_SCORE + ply,
{
}

/// A search that neither reads the table nor can be aborted.
pub open spec fn quiet_search(config: SearchConfig, abort: AbortSignal) -> bool {
    !config.transposition_table && abort.deadline is None && abort.stop is None
}

/// Playing `m` on `b` checkmates: the other side is in check with no legal move.
pub open spec fn mates(b: Board, m: Move) -> bool {
    checked(after(b, m)) && no_moves(after(b, m))
}

/// The positions and depths the search accepts: a well-formed position with
/// room on its clocks for the deepest line, and a depth whose history bonus
/// fits.
#[verifier::opaque]
pub open spec fn search_ok(b: Board, depth: int) -> bool {
    &&& wf(b)
    &&& clocks_ok(b, depth + QUIESCENCE_PLIES + 2)
    &&& depth_ok(if depth < 1 { 1 } else { depth })
}

/// `board` has no legal move.
pub open spec fn no_moves(b: Board) -> bool {
    forall|m: Move| !legal(b, m)
}

/// Root search with a caller's `[alpha, beta]` window: the best move and its
/// score, which may fall outside the window; `None` when there is no legal
/// move. Scores start from `alpha` and only rise. With the table off and
/// nothing to abort it, a search two plies deep or more scores a mate in one
/// at `MATE_SCORE - 1` or above.
#[verifier::spinoff_prover]
#[verifier::rlimit(50)]
pub fn find_best_move_with_window(
    board: &Board,
    depth: u32,
    alpha: i32,
    beta: i32,
    config: SearchConfig,
    tt: &mut TranspositionTable,
    killers: &mut KillerTable,
    history: &mut HistoryTable,
    abort: &AbortSignal,
) -> (r: Option<(Move, i32)>)
    requires
        search_ok(*board, depth as int),
        in_range(alpha as int),
        in_range(beta as int),
        old(tt).wf(),
        history_ok(*old(history)),
    ensures
        r is None <==> no_moves(*board),
        r matches Some((m, s)) ==> legal(*board, m) && in_range(s as int) && alpha <= s,
        quiet_search(config, *abort) && depth >= 2 && (exists|m: Move| legal(*board, m) && #[trigger] mates(
            *board,
            m,
        )) ==> (r matches Some((_, s)) && s >= MATE_SCORE - 1),
        final(tt).wf(),
        history_ok(*final(history)),
        search_writes(config, *old(tt), *final(tt), *old(killers), *final(killers), *old(history), *final(history)),
        quiet_search(config, *abort) && !config.quiescence && depth <= 1 ==> (r matches Some((m, s)) ==> one_ply_best(
            *board,
            eval_terms_of(config),
            m,
            s as int,
            alpha as int,
        )),
        plain_search(config, *abort) && alpha < beta ==> (r matches Some((m, s)) ==> root_value_ok(
            *board,
            eval_terms_of(config),
            if depth < 1 {
                1
            } else {
                depth as nat
            },
            m,
            s as int,
            alpha as int,
            beta as int,
        )),
{
    let (r, log) = find_best_move_logged(board, depth, alpha, beta, config, tt, killers, history, abort);
    proof {
        if quiet_search(config, *abort) && !config.quiescence && depth <= 1 && r is Some {
            let cfg = eval_terms_of(config);
            let (m, s) = r.unwrap();
            assert(never_aborts(config, *abort));
            assert(log@.len() > 0);
            let first = log@[0].0;
            lemma_pick(log@, first, alpha as int);
            assert forall|mv: Move| legal(*board, mv) implies -evaluation(#[trigger] after(*board, mv), cfg) <= s by {
                let i = choose|i: int| 0 <= i < log@.len() && (#[trigger] log@[i]).0 == mv;
                assert(log@[i].1 <= s);
            }
            if s > alpha {
                let k = choose|k: int| 0 <= k < log@.len() && pick(log@, first, alpha as int) == #[trigger] log@[k]
                    && log@[k].1 > alpha;
                assert(log@[k] == (m, s));
            }
        }
    }
    r
}

/// The best of the scored moves `log` against a start of `first` at `alpha`:
/// a move replaces the best so far only with a higher score.
pub open spec fn pick(log: Seq<(Move, i32)>, first: Move, alpha: int) -> (Move, i32)
    decreases log.len(),
{
    if log.len() == 0 {
        (first, alpha as i32)
    } else {
        let p = pick(log.drop_last(), first, alpha);
        if log.last().1 > p.1 {
            log.last()
        } else {
            p
        }
    }
}

/// A one-ply search's answer for `b`: `s` is at least every negated
/// evaluation of a position a legal move leads to, and a score above `alpha`
/// is the one `m` leads to.
pub open spec fn one_ply_best(b: Board, cfg: EvalConfig, m: Move, s: int, alpha: int) -> bool {
    &&& forall|mv: Move| legal(b, mv) ==> -evaluation(#[trigger] after(b, mv), cfg) <= s
    &&& s > alpha ==> s == -evaluation(after(b, m), cfg)
}

/// `pick` keeps the highest score, starting from `alpha`, and what it picks
/// is the start or a scored move above `alpha`.
#[verifier::spinoff_prover]
proof fn lemma_pick(log: Seq<(Move, i32)>, first: Move, alpha: int)
    requires
        in_range(alpha),
    ensures
        pick(log, first, alpha).1 >= alpha,
        forall|k: int| 0 <= k < log.len() ==> (#[trigger] log[k]).1 <= pick(log, first, alpha).1,
        pick(log, first, alpha) == (first, alpha as i32) || exists|k: int|
            0 <= k < log.len() && pick(log, first, alpha) == #[trigger] log[k] && log[k].1 > alpha,
    decreases log.len(),
{
    if log.len() > 0 {
        let init = log.drop_last();
        lemma_pick(init, first, alpha);
        assert forall|k: int| 0 <= k < init.len() implies #[trigger] log[k] == init[k] by {}
        if pick(init, first, alpha) != (first, alpha as i32) {
            let k = choose|k: int| 0 <= k < init.len() && pick(init, first, alpha) == #[trigger] init[k] && init[k].1
                > alpha;
            assert(log[k] == init[k]);
        }
        assert(log[log.len() - 1] == log.last());
    }
}

/// What a root search of `b` to `depth` in the window `alpha..beta` owes:
/// the window owed for the value of `b`, and a score strictly inside the
/// window is the value of the move `m` returned.
pub open spec fn root_value_ok(
    b: Board,
    cfg: EvalConfig,
    depth: nat,
    m: Move,
    s: int,
    alpha: int,
    beta: int,
) -> bool {
    &&& window_result(s, minimax(b, depth, 0, cfg), alpha, beta)
    &&& alpha < s < beta ==> move_value(b, m, depth, 0, cfg) == s
}

/// A root search of `b` to `depth` that found its exact value: where the
/// value lies strictly between `-INFINITY` and `INFINITY`, the score is that
/// value and the move is worth it.
pub open spec fn exact_value(b: Board, cfg: EvalConfig, depth: nat, m: Move, s: int) -> bool {
    -INFINITY < minimax(b, depth, 0, cfg) < INFINITY ==> s == minimax(b, depth, 0, cfg) && move_value(
        b,
        m,
        depth,
        0,
        cfg,
    ) == s
}

/// The root search, with the scores it found: each root move searched, in
/// the order searched, with the score its search gave. The best move is the
/// first to raise the score above `alpha` and every score before it; with
/// none, the first move ordered, at `alpha`.
#[verifier::spinoff_prover]
#[verifier::rlimit(50)]
pub fn find_best_move_logged(
    board: &Board,
    depth: u32,
    alpha: i32,
    beta: i32,
    config: SearchConfig,
    tt: &mut TranspositionTable,
    killers: &mut KillerTable,
    history: &mut HistoryTable,
    abort: &AbortSignal,
) -> (r: (Option<(Move, i32)>, Vec<(Move, i32)>))
    requires
        search_ok(*board, depth as int),
        in_range(alpha as int),
        in_range(beta as int),
        old(tt).wf(),
        history_ok(*old(history)),
    ensures
        r.0 is None <==> no_moves(*board),
        r.0 matches Some((m, s)) ==> legal(*board, m) && in_range(s as int) && alpha <= s,
        quiet_search(config, *abort) && depth >= 2 && (exists|m: Move| legal(*board, m) && #[trigger] mates(
            *board,
            m,
        )) ==> (r.0 matches Some((_, s)) && s >= MATE_SCORE - 1),
        forall|i: int| 0 <= i < r.1@.len() ==> legal(*board, (#[trigger] r.1@[i]).0) && in_range(r.1@[i].1 as int),
        r.1@.len() > 0 ==> r.0 == Some(pick(r.1@, r.1@[0].0, alpha as int)),
        r.1@.len() == 0 && !no_moves(*board) ==> !never_aborts(config, *abort) && (r.0 matches Some((_, s)) && s
            == alpha),
        no_moves(*board) ==> r.1@.len() == 0,
        never_aborts(config, *abort) ==> forall|m: Move| legal(*board, m) ==> exists|i: int|
            0 <= i < r.1@.len() && (#[trigger] r.1@[i]).0 == m,
        quiet_search(config, *abort) && !config.quiescence && depth <= 1 ==> forall|i: int|
            0 <= i < r.1@.len() ==> (#[trigger] r.1@[i]).1 == -evaluation(after(*board, r.1@[i].0), eval_terms_of(config)),
        plain_search(config, *abort) && alpha < beta ==> (r.0 matches Some((m, s)) ==> root_value_ok(
            *board,
            eval_terms_of(config),
            if depth < 1 {
                1
            } else {
                depth as nat
            },
            m,
            s as int,
            alpha as int,
            beta as int,
        )),
        final(tt).wf(),
        history_ok(*final(history)),
        search_writes(config, *old(tt), *final(tt), *old(killers), *final(killers), *old(history), *final(history)),
{
    let ghost d0 = depth;
    let depth = if depth < 1 { 1 } else { depth };
    proof {
        reveal(search_ok);
        reveal(searchable);
        assert(searchable(*board, depth + QUIESCENCE_PLIES + 1));
        lemma_searchable_fewer(*board, depth + QUIESCENCE_PLIES + 1, 1);
    }
    let mut moves = legal_moves(board);
    if moves.len() == 0 {
        proof {
            reveal(legal_in);
            assert forall|m: Move| !legal(*board, m) by {
                if legal(*board, m) {
                    assert(legal_in(*board, m));
                    assert(moves@.contains(m));
                }
            }
        }
        return (None, Vec::new());
    }
    let key = zobrist_hash(board);
    let tt_move = if config.transposition_table {
        match tt.probe(key) {
            Some(e) => e.best_move,
            None => None,
        }
    } else {
        None
    };
    if config.move_ordering {
        let ghost before = moves@;
        let ks = killer_slice(killers, 0, config);
        order_moves(board, &mut moves, tt_move, ks, history);
        proof {
            assert forall|i: int| 0 <= i < moves@.len() implies on_board(#[trigger] moves@[i]) && legal_in(*board, moves@[i]) by {
                assert(moves@.contains(moves@[i]));
                assert(before.contains(moves@[i]));
            }
        }
    }
    let mut best_move = moves[0];
    let mut best_score = alpha;
    let mut log: Vec<(Move, i32)> = Vec::new();
    let mut nodes: u64 = 0;
    proof {
        lemma_depth_ok_below(depth - 1, depth as int);
    }
    let mut i: usize = 0;
    while i < moves.len()
        invariant
            searchable(*board, depth + QUIESCENCE_PLIES + 1),
            1 <= depth,
            depth_ok(depth - 1),
            depth + QUIESCENCE_PLIES <= 0x4000_0000,
            in_range(best_score as int),
            in_range(beta as int),
            alpha <= best_score,
            tt.wf(),
            history_ok(*history),
            forall|j: int| 0 <= j < moves@.len() ==> on_board(#[trigger] moves@[j]) && legal_in(*board, moves@[j]),
            legal_in(*board, best_move),
            i <= moves@.len(),
            depth == (if d0 < 1 { 1 } else { d0 }),
            quiet_search(config, *abort) && d0 >= 2 && (exists|j: int| 0 <= j < i && #[trigger] mates(
                *board,
                moves@[j],
            )) ==> best_score >= MATE_SCORE - 1,
            search_writes(config, *old(tt), *tt, *old(killers), *killers, *old(history), *history),
            log@.len() == i,
            forall|k: int| 0 <= k < i ==> (#[trigger] log@[k]).0 == moves@[k] && in_range(log@[k].1 as int),
            (best_move, best_score) == pick(log@, moves@[0], alpha as int),
            moves@.len() > 0,
            quiet_search(config, *abort) && !config.quiescence && d0 <= 1 ==> forall|k: int|
                0 <= k < i ==> (#[trigger] log@[k]).1 == -evaluation(after(*board, log@[k].0), eval_terms_of(config)),
            plain_search(config, *abort) && alpha < beta ==> {
                &&& best_score < beta ==> forall|j: int|
                    0 <= j < i ==> move_value(*board, #[trigger] moves@[j], depth as nat, 0, eval_terms_of(config))
                        <= best_score
                &&& best_score >= beta ==> exists|j: int|
                    0 <= j < i && move_value(*board, #[trigger] moves@[j], depth as nat, 0, eval_terms_of(config))
                        >= beta
                &&& alpha < best_score < beta ==> move_value(*board, best_move, depth as nat, 0, eval_terms_of(config))
                    == best_score
            },
        decreases moves.len() - i,
    {
        let m = moves[i];
        proof {
            lemma_searchable_fewer(*board, depth + QUIESCENCE_PLIES + 1, 1);
        }
        let next = play(board, m);
        proof {
            lemma_child(*board, m, next, depth + QUIESCENCE_PLIES + 1);
            lemma_played_unique(*board, m, next, after(*board, m));
        }
        let ghost (t0, k0, h0) = (*tt, *killers, *history);
        let child = negamax(&next, depth - 1, -beta, -best_score, 1, config, tt, killers, history, abort, &mut nodes);
        let score = -child;
        proof {
            if quiet_search(config, *abort) && !config.quiescence && d0 <= 1 {
                assert(next == after(*board, m));
                assert(child == evaluation(next, eval_terms_of(config)));
            }
        }
        proof {
            lemma_writes_chain(config, *old(tt), t0, *tt, *old(killers), k0, *killers, *old(history), h0, *history);
        }
        if config.mid_search_abort && abort.fire() {
            proof {
                reveal(legal_in);
            }
            proof {
                if i > 0 {
                    assert(log@[0].0 == moves@[0]);
                }
            }
            return (Some((best_move, best_score)), log);
        }
        let ghost prev_best = best_score;
        let ghost prev_log = log@;
        log.push((m, score));
        if score > best_score {
            best_score = score;
            best_move = m;
        }
        proof {
            assert(log@.drop_last() =~= prev_log);
            if plain_search(config, *abort) && alpha < beta {
                let cfg = eval_terms_of(config);
                let v = move_value(*board, m, depth as nat, 0, cfg);
                assert(v == -minimax(next, (depth - 1) as nat, 1, cfg));
                assert(moves@[i as int] == m);
                if prev_best < beta {
                    assert forall|j: int| 0 <= j < i + 1 && best_score < beta implies move_value(
                        *board,
                        #[trigger] moves@[j],
                        depth as nat,
                        0,
                        cfg,
                    ) <= best_score by {
                        if j < i {
                            assert(move_value(*board, moves@[j], depth as nat, 0, cfg) <= prev_best);
                        }
                    }
                    if best_score >= beta {
                        assert(move_value(*board, moves@[i as int], depth as nat, 0, cfg) >= beta);
                    }
                } else {
                    let j = choose|j: int|
                        0 <= j < i && move_value(*board, #[trigger] moves@[j], depth as nat, 0, cfg) >= beta;
                    assert(0 <= j < i + 1);
                }
            }
        }
        proof {
            if quiet_search(config, *abort) && d0 >= 2 && (exists|j: int| 0 <= j < i + 1 && #[trigger] mates(
                *board,
                moves@[j],
            )) {
                let j = choose|j: int| 0 <= j < i + 1 && #[trigger] mates(*board, moves@[j]);
                if j == i {
                    assert(mates(*board, m));
                    assert(score == MATE_SCORE - 1);
                } else {
                    assert(prev_best >= MATE_SCORE - 1);
                }
            }
        }
        i = i + 1;
    }
    proof {
        if plain_search(config, *abort) && alpha < beta {
            let cfg = eval_terms_of(config);
            reveal(legal_in);
            reveal(moves_result);
            assert forall|j: int| 0 <= j < moves@.len() implies legal(*board, #[trigger] moves@[j]) by {
                assert(legal_in(*board, moves@[j]));
            }
            assert forall|mv: Move| legal(*board, mv) implies moves@.contains(mv) && mv.src.0 < 64 && mv.dest.0
                < 64 by {
                assert(legal_in(*board, mv));
                assert(moves@.contains(mv));
                let j = choose|j: int| 0 <= j < moves@.len() && moves@[j] == mv;
                assert(on_board(moves@[j]));
            }
            if best_score < beta && best_score != alpha {
                assert(alpha < best_score);
                let k = choose|k: int| 0 <= k < moves@.len() && moves@[k] == best_move;
                assert(move_value(*board, moves@[k], depth as nat, 0, cfg) == best_score);
            }
            assert(moves_result(best_score as int, *board, moves@, depth as nat, 0, cfg, alpha as int, beta as int));
            lemma_window_from_moves(best_score as int, *board, moves@, depth as nat, 0, cfg, alpha as int, beta as int);
        }
    }
    proof {
        if quiet_search(config, *abort) && d0 >= 2 && (exists|m: Move| legal(*board, m) && #[trigger] mates(
            *board,
            m,
        )) {
            let m = choose|m: Move| legal(*board, m) && #[trigger] mates(*board, m);
            reveal(legal_in);
            assert(legal_in(*board, m));
            assert(moves@.contains(m)) by {
                assert(legal_in(*board, m));
            }
            let j = choose|j: int| 0 <= j < moves@.len() && moves@[j] == m;
            assert(mates(*board, moves@[j]));
        }
    }
    if config.transposition_table {
        tt.store(
            TTEntry {
                key,
                score: store_mate_score(best_score, 0),
                best_move: Some(best_move),
                depth: if depth < 255 { depth as u8 } else { 255 },
                bound: Bound::Exact,
            },
        );
    }
    proof {
        reveal(legal_in);
        assert(log@[0].0 == moves@[0]);
        assert forall|mv: Move| legal(*board, mv) implies exists|k: int|
            0 <= k < log@.len() && (#[trigger] log@[k]).0 == mv by {
            assert(legal_in(*board, mv));
            assert(moves@.contains(mv));
            let k = choose|k: int| 0 <= k < moves@.len() && moves@[k] == mv;
            assert(log@[k].0 == mv);
        }
    }
    (Some((best_move, best_score)), log)
}

/// Root search over the full window.
#[verifier::spinoff_prover]
#[verifier::rlimit(50)]
pub fn find_best_move_with_tt(
    board: &Board,
    depth: u32,
    config: SearchConfig,
    tt: &mut TranspositionTable,
    killers: &mut KillerTable,
    history: &mut HistoryTable,
    abort: &AbortSignal,
) -> (r: Option<(Move, i32)>)
    requires
        search_ok(*board, depth as int),
        old(tt).wf(),
        history_ok(*old(history)),
    ensures
        r is None <==> no_moves(*board),
        r matches Some((m, s)) ==> legal(*board, m) && in_range(s as int) && -INFINITY <= s,
        quiet_search(config, *abort) && depth >= 2 && (exists|m: Move| legal(*board, m) && #[trigger] mates(
            *board,
            m,
        )) ==> (r matches Some((_, s)) && s >= MATE_SCORE - 1),
        quiet_search(config, *abort) && !config.quiescence && depth <= 1 ==> (r matches Some((m, s)) ==> one_ply_best(
            *board,
            eval_terms_of(config),
            m,
            s as int,
            -INFINITY,
        )),
        plain_search(config, *abort) ==> (r matches Some((m, s)) ==> root_value_ok(
            *board,
            eval_terms_of(config),
            if depth < 1 {
                1
            } else {
                depth as nat
            },
            m,
            s as int,
            -INFINITY,
            INFINITY as int,
        )),
        final(tt).wf(),
        history_ok(*final(history)),
{
    find_best_move_with_window(board, depth, -INFINITY, INFINITY, config, tt, killers, history, abort)
}

/// Root search with a fresh table, killers and history, never aborted. With
/// the table switched off, a search two plies deep or more finds a mate in
/// one.
#[verifier::spinoff_prover]
#[verifier::rlimit(50)]
pub fn find_best_move_with(board: &Board, depth: u32, config: SearchConfig) -> (r: Option<(Move, i32)>)
    requires
        search_ok(*board, depth as int),
    ensures
        r is None <==> no_moves(*board),
        r matches Some((m, s)) ==> legal(*board, m) && in_range(s as int) && -INFINITY <= s,
        !config.transposition_table && depth >= 2 && (exists|m: Move| legal(*board, m) && #[trigger] mates(*board, m))
            ==> (r matches Some((_, s)) && s >= MATE_SCORE - 1),
        !config.transposition_table && !config.quiescence && depth <= 1 ==> (r matches Some((m, s)) ==> one_ply_best(
            *board,
            eval_terms_of(config),
            m,
            s as int,
            -INFINITY,
        )),
        plain_config(config) ==> (r matches Some((m, s)) ==> root_value_ok(
            *board,
            eval_terms_of(config),
            if depth < 1 {
                1
            } else {
                depth as nat
            },
            m,
            s as int,
            -INFINITY,
            INFINITY as int,
        )),
{
    let mut tt = TranspositionTable::default_size();
    let mut killers = new_killers();
    let mut history = new_history();
    proof {
        reveal(history_ok);
    }
    find_best_move_with_tt(board, depth, config, &mut tt, &mut killers, &mut history, &AbortSignal::never())
}

/// Root search with the default configuration.
pub fn find_best_move(board: &Board, depth: u32) -> (r: Option<(Move, i32)>)
    requires
        search_ok(*board, depth as int),
    ensures
        r is None <==> no_moves(*board),
        r matches Some((m, s)) ==> legal(*board, m) && in_range(s as int) && -INFINITY <= s,
{
    find_best_move_with(board, depth, SearchConfig::default())
}

/// One iteration of iterative deepening: around the previous score with an
/// aspiration window when that is on and the previous score is not a mate,
/// full width again when the result falls outside it.
fn search_one_iteration(
    board: &Board,
    depth: u32,
    last_best: &Option<(Move, i32)>,
    config: SearchConfig,
    tt: &mut TranspositionTable,
    killers: &mut KillerTable,
    history: &mut HistoryTable,
    abort: &AbortSignal,
) -> (r: Option<(Move, i32)>)
    requires
        search_ok(*board, depth as int),
        1 <= depth,
        old(tt).wf(),
        history_ok(*old(history)),
    ensures
        r is None <==> no_moves(*board),
        r matches Some((m, s)) ==> legal(*board, m) && in_range(s as int),
        final(tt).wf(),
        history_ok(*final(history)),
        plain_search(config, *abort) ==> (r matches Some((m, s)) ==> exact_value(
            *board,
            eval_terms_of(config),
            depth as nat,
            m,
            s as int,
        )),
{
    if !config.aspiration_windows || depth < ASPIRATION_MIN_DEPTH {
        return find_best_move_with_tt(board, depth, config, tt, killers, history, abort);
    }
    let prev_score = match *last_best {
        Some((_, s)) => {
            if -(MATE_SCORE - 1000) < s && s < MATE_SCORE - 1000 {
                s
            } else {
                return find_best_move_with_tt(board, depth, config, tt, killers, history, abort);
            }
        },
        None => {
            return find_best_move_with_tt(board, depth, config, tt, killers, history, abort);
        },
    };
    let alpha = prev_score - ASPIRATION_DELTA;
    let beta = prev_score + ASPIRATION_DELTA;
    let result = find_best_move_with_window(board, depth, alpha, beta, config, tt, killers, history, abort);
    match result {
        None => None,
        Some((mv, score)) => {
            if score <= alpha || score >= beta {
                find_best_move_with_tt(board, depth, config, tt, killers, history, abort)
            } else {
                Some((mv, score))
            }
        },
    }
}

/// One completed iteration of a deepening search: its depth, best move and
/// score.
#[derive(Clone, Copy, Debug)]
pub struct Iteration {
    pub depth: u32,
    pub best: Move,
    pub score: i32,
}

/// A score that ends a deepening search: a mate found, for either side.
pub open spec fn mate_range(s: int) -> bool {
    s <= -(MATE_SCORE - 1000) || s >= MATE_SCORE - 1000
}

/// What an iteration log says of a deepening search to `max_depth`: the
/// iterations ran at depths `1, 2, ...` in order, each found a legal move and
/// a score in range, only the last may carry a mate score, and the log stops
/// short of `max_depth` only on a mate score, a position without legal moves
/// or a stop signal that can fire (`can_stop`).
pub open spec fn deepening_log(b: Board, max_depth: int, can_stop: bool, log: Seq<Iteration>) -> bool {
    &&& log.len() <= max_depth
    &&& forall|i: int|
        0 <= i < log.len() ==> {
            &&& (#[trigger] log[i]).depth == i + 1
            &&& legal(b, log[i].best)
            &&& in_range(log[i].score as int)
            &&& i + 1 < log.len() ==> !mate_range(log[i].score as int)
        }
    &&& log.len() < max_depth ==> {
        ||| no_moves(b)
        ||| (log.len() > 0 && mate_range(log.last().score as int))
        ||| can_stop
    }
    &&& no_moves(b) ==> log.len() == 0
}

/// Each iteration of a deepening search of `b` found the exact value of its
/// depth, where that value lies strictly between `-INFINITY` and `INFINITY`.
pub open spec fn iterations_exact(b: Board, cfg: EvalConfig, log: Seq<Iteration>) -> bool {
    forall|i: int|
        0 <= i < log.len() ==> exact_value(b, cfg, (i + 1) as nat, (#[trigger] log[i]).best, log[i].score as int)
}

/// The result a deepening search gives from its log: the last iteration's
/// move and score.
pub open spec fn last_iteration(log: Seq<Iteration>) -> Option<(Move, i32)> {
    if log.len() == 0 {
        None
    } else {
        Some((log.last().best, log.last().score))
    }
}

/// Searches at depths `1 ..= max_depth` with one table, killers and history,
/// reporting each completed iteration to `on_iteration` (depth, move, score,
/// time since the start) and keeping it in the log returned beside the
/// result. An iteration the abort signal interrupts is dropped; a mate score
/// ends the deepening. The result is the last completed iteration's.
#[verifier::spinoff_prover]
#[verifier::rlimit(50)]
pub fn iterative_deepening_logged<F>(
    board: &Board,
    max_depth: u32,
    config: SearchConfig,
    abort: AbortSignal,
    tt: &mut TranspositionTable,
    on_iteration: &mut F,
) -> (r: (Option<(Move, i32)>, Vec<Iteration>))
    where
        F: FnMut(u32, Move, i32, Duration),
    requires
        search_ok(*board, max_depth as int),
        old(tt).wf(),
        forall|g: F, d: u32, m: Move, s: i32, t: Duration| #[trigger] call_requires(g, (d, m, s, t)),
    ensures
        deepening_log(*board, max_depth as int, abort.deadline is Some || abort.stop is Some, r.1@),
        r.0 == last_iteration(r.1@),
        plain_search(config, abort) ==> iterations_exact(*board, eval_terms_of(config), r.1@),
        final(tt).wf(),
{
    let start = clock_now();
    let mut log: Vec<Iteration> = Vec::new();
    let mut killers = new_killers();
    let mut history = new_history();
    proof {
        reveal(history_ok);
    }
    let mut d: u32 = 1;
    while d <= max_depth
        invariant_except_break
            log@.len() == d - 1,
            forall|i: int|
                0 <= i < log@.len() ==> {
                    &&& (#[trigger] log@[i]).depth == i + 1
                    &&& legal(*board, log@[i].best)
                    &&& in_range(log@[i].score as int)
                    &&& !mate_range(log@[i].score as int)
                },
            no_moves(*board) ==> log@.len() == 0,
        invariant
            plain_search(config, abort) ==> iterations_exact(*board, eval_terms_of(config), log@),
            search_ok(*board, max_depth as int),
            1 <= d,
            d <= max_depth + 1,
            tt.wf(),
            history_ok(*history),
            forall|g: F, d: u32, m: Move, s: i32, t: Duration| #[trigger] call_requires(g, (d, m, s, t)),
        ensures
            tt.wf(),
            plain_search(config, abort) ==> iterations_exact(*board, eval_terms_of(config), log@),
            deepening_log(*board, max_depth as int, abort.deadline is Some || abort.stop is Some, log@),
        decreases max_depth + 1 - d,
    {
        if abort.fire() {
            break;
        }
        proof {
            reveal(search_ok);
            lemma_depth_ok_below(d as int, max_depth as int);
            assert(search_ok(*board, d as int));
        }
        let last_best = if log.len() == 0 {
            None
        } else {
            let it = log[log.len() - 1];
            Some((it.best, it.score))
        };
        let result = search_one_iteration(board, d, &last_best, config, tt, &mut killers, &mut history, &abort);
        if abort.fire() {
            break;
        }
        match result {
            Some((mv, score)) => {
                let el = elapsed_since(&start);
                on_iteration(d, mv, score, el);
                let ghost prev = log@;
                log.push(Iteration { depth: d, best: mv, score });
                proof {
                    if plain_search(config, abort) {
                        assert forall|i: int| 0 <= i < log@.len() implies exact_value(
                            *board,
                            eval_terms_of(config),
                            (i + 1) as nat,
                            (#[trigger] log@[i]).best,
                            log@[i].score as int,
                        ) by {
                            if i < prev.len() {
                                assert(log@[i] == prev[i]);
                            }
                        }
                    }
                }
                if score <= -(MATE_SCORE - 1000) || score >= MATE_SCORE - 1000 {
                    break;
                }
            },
            None => {
                break;
            },
        }
        d = d + 1;
    }
    let best = if log.len() == 0 {
        None
    } else {
        let it = log[log.len() - 1];
        Some((it.best, it.score))
    };
    (best, log)
}

/// Searches at depths `1 ..= max_depth` with one table, killers and history,
/// reporting each completed iteration to `on_iteration` (depth, move, score,
/// time since the start). An iteration the abort signal interrupts is
/// dropped; a mate score ends the deepening. The result is the last completed
/// iteration's: that of `iterative_deepening_logged`, whose log is dropped.
pub fn iterative_deepening_with_abort<F>(
    board: &Board,
    max_depth: u32,
    config: SearchConfig,
    abort: AbortSignal,
    tt: &mut TranspositionTable,
    on_iteration: &mut F,
) -> (r: Option<(Move, i32)>)
    where
        F: FnMut(u32, Move, i32, Duration),
    requires
        search_ok(*board, max_depth as int),
        old(tt).wf(),
        forall|g: F, d: u32, m: Move, s: i32, t: Duration| #[trigger] call_requires(g, (d, m, s, t)),
    ensures
        r matches Some((m, s)) ==> legal(*board, m) && in_range(s as int),
        no_moves(*board) ==> r is None,
        abort.deadline is None && abort.stop is None && max_depth >= 1 && !no_moves(*board) ==> r is Some,
        exists|log: Seq<Iteration>|
            deepening_log(*board, max_depth as int, abort.deadline is Some || abort.stop is Some, log) && r
                == last_iteration(log) && (plain_search(config, abort) ==> iterations_exact(
                *board,
                eval_terms_of(config),
                log,
            )),
        final(tt).wf(),
{
    let (best, log) = iterative_deepening_logged(board, max_depth, config, abort, tt, on_iteration);
    proof {
        if log@.len() > 0 {
            let k = log@.len() - 1;
            assert(log@[k].depth == k + 1);
        }
        assert(deepening_log(*board, max_depth as int, abort.deadline is Some || abort.stop is Some, log@));
        assert(plain_search(config, abort) ==> iterations_exact(*board, eval_terms_of(config), log@));
    }
    best
}

/// Iterative deepening with a table kept by the caller, stopping at
/// `deadline` if there is one.
pub fn iterative_deepening_with_tt<F>(
    board: &Board,
    max_depth: u32,
    config: SearchConfig,
    deadline: Option<Instant>,
    tt: &mut TranspositionTable,
    on_iteration: F,
) -> (r: Option<(Move, i32)>)
    where
        F: FnMut(u32, Move, i32, Duration),
    requires
        search_ok(*board, max_depth as int),
        old(tt).wf(),
        forall|g: F, d: u32, m: Move, s: i32, t: Duration| #[trigger] call_requires(g, (d, m, s, t)),
    ensures
        r matches Some((m, s)) ==> legal(*board, m) && in_range(s as int),
        no_moves(*board) ==> r is None,
        deadline is None && max_depth >= 1 && !no_moves(*board) ==> r is Some,
        exists|log: Seq<Iteration>| deepening_log(*board, max_depth as int, deadline is Some, log) && r
            == last_iteration(log) && (plain_config(config) && deadline is None ==> iterations_exact(
            *board,
            eval_terms_of(config),
            log,
        )),
        final(tt).wf(),
{
    let mut on_iteration = on_iteration;
    iterative_deepening_with_abort(board, max_depth, config, AbortSignal::with_deadline(deadline), tt, &mut on_iteration)
}

/// Iterative deepening with a fresh table of the default size.
pub fn iterative_deepening<F>(
    board: &Board,
    max_depth: u32,
    config: SearchConfig,
    deadline: Option<Instant>,
    on_iteration: F,
) -> (r: Option<(Move, i32)>)
    where
        F: FnMut(u32, Move, i32, Duration),
    requires
        search_ok(*board, max_depth as int),
        forall|g: F, d: u32, m: Move, s: i32, t: Duration| #[trigger] call_requires(g, (d, m, s, t)),
    ensures
        r matches Some((m, s)) ==> legal(*board, m) && in_range(s as int),
        no_moves(*board) ==> r is None,
        deadline is None && max_depth >= 1 && !no_moves(*board) ==> r is Some,
        exists|log: Seq<Iteration>| deepening_log(*board, max_depth as int, deadline is Some, log) && r
            == last_iteration(log) && (plain_config(config) && deadline is None ==> iterations_exact(
            *board,
            eval_terms_of(config),
            log,
        )),
{
    let mut tt = TranspositionTable::default_size();
    iterative_deepening_with_tt(board, max_depth, config, deadline, &mut tt, on_iteration)
}

/// Whether `search_ok` holds: the position is well formed, its clocks have
/// room for `depth` plies and the deepest capture line, and the depth's history
/// bonus fits.
pub fn search_ready(board: &Board, depth: u32) -> (r: bool)
    ensures
        r == search_ok(*board, depth as int),
{
    proof {
        reveal(search_ok);
    }
    let d: u64 = if depth < 1 { 1 } else { depth as u64 };
    proof {
        assert(d * d <= 0xffff_ffff * 0xffff_ffffu64) by (nonlinear_arith)
            requires
                d <= 0xffff_ffff,
        ;
    }
    let room = depth as u64 + QUIESCENCE_PLIES as u64 + 2;
    board.is_well_formed() && (board.halfmove_clock as u64) + room < 65535 && (board.fullmove_number as u64) + room
        < 65535 && d <= 0xffff && d * d + HISTORY_MAX as u64 <= 0x7fff_ffff
}

} // verus!
