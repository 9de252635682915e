use torte::board::Board;
use torte::eval::{eval, EvalConfig};
use torte::generator::{generate_legal_moves, is_attacked, king_square};
use torte::piece_move::Move;
use torte::search::{find_best_move_with, SearchConfig, INFINITY, MATE_SCORE};
use torte::uci::parse_position;

fn plain() -> SearchConfig {
    let mut c = SearchConfig::default();
    c.transposition_table = false;
    c.quiescence = false;
    c.null_move_pruning = false;
    c.razoring = false;
    c.futility_pruning = false;
    c.late_move_reductions = false;
    c
}

fn child(b: &Board, m: Move) -> Board {
    let mut c = *b;
    c.apply_move(m).unwrap();
    c
}

/// Plain minimax over the legal moves, scored as the search scores leaves.
fn value(b: &Board, depth: u32, ply: i32, cfg: EvalConfig) -> i64 {
    if depth == 0 {
        return eval(b, cfg) as i64;
    }
    let moves = generate_legal_moves(b);
    if moves.is_empty() {
        let side = b.side_to_move;
        let other = if side == torte::pieces::Color::White { torte::pieces::Color::Black } else { torte::pieces::Color::White };
        return match king_square(b, side) {
            Some(k) if is_attacked(b, k, other) => (-MATE_SCORE + ply) as i64,
            _ => 0,
        };
    }
    moves.iter().map(|m| -value(&child(b, *m), depth - 1, ply + 1, cfg)).max().unwrap()
}

fn check_root(fen: &str, depth: u32) {
    let b = Board::parse(fen);
    let cfg = plain();
    let (m, s) = find_best_move_with(&b, depth, cfg).unwrap();
    let v = value(&b, depth, 0, cfg.eval_config());
    assert!(-(INFINITY as i64) < v && v < INFINITY as i64);
    assert_eq!(s as i64, v);
    assert_eq!(-value(&child(&b, m), depth - 1, 1, cfg.eval_config()), v);
}

#[test]
fn plain_search_finds_the_minimax_value_at_depth_two() {
    check_root("r3k2r/p1ppqpb1/bn2pnp1/3PN3/1p2P3/2N2Q1p/PPPBBPPP/R3K2R w KQkq - 0 1", 2);
}

#[test]
fn plain_search_finds_the_minimax_value_at_depth_three() {
    check_root("4k3/8/8/1q6/8/2N5/8/4K3 w - - 0 1", 3);
    check_root("8/2k5/1q6/8/2N5/8/8/4K3 w - - 0 1", 3);
}

#[test]
fn plain_search_scores_a_mate_in_two_plies() {
    let b = Board::parse("k7/8/1K6/8/8/8/8/3Q4 w - - 0 1");
    let (_, s) = find_best_move_with(&b, 2, plain()).unwrap();
    assert_eq!(s, MATE_SCORE - 1);
}

#[test]
fn a_pawn_move_is_played_with_the_halfmove_clock_full() {
    let b = parse_position("fen rnbqkbnr/pppppppp/8/8/8/8/PPPPPPPP/RNBQKBNR w KQkq - 65535 1 moves e2e4").unwrap();
    assert_eq!(b.halfmove_clock, 0);
    assert_eq!(b.side_to_move, torte::pieces::Color::Black);
}

#[test]
fn a_knight_move_with_the_halfmove_clock_full_is_refused() {
    assert!(parse_position("fen rnbqkbnr/pppppppp/8/8/8/8/PPPPPPPP/RNBQKBNR w KQkq - 65535 1 moves g1f3").is_none());
}
