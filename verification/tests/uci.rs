use torte::board::Board;
use torte::pieces::Color;
use torte::search::{SearchConfig, MATE_SCORE};
use torte::transposition::TranspositionTable;
use torte::uci::{apply_setoption, format_score, parse_go, parse_position, DEFAULT_DEPTH, MAX_DEPTH_TIMED, STARTPOS};
#[test]
fn position_startpos() {
    let b = parse_position("startpos").unwrap();
    let start = Board::parse(STARTPOS);
    for i in 0..12 {
        assert_eq!(b.bbs[i].board, start.bbs[i].board);
    }
}

#[test]
fn position_startpos_with_moves() {
    let b = parse_position("startpos moves e2e4 e7e5").unwrap();
    // After 1.e4 e5 it's white to move again.
    assert_eq!(b.side_to_move, Color::White);
    assert_eq!(b.fullmove_number, 2);
}

#[test]
fn position_fen_with_moves() {
    let b = parse_position(
        "fen rnbqkbnr/pppppppp/8/8/8/8/PPPPPPPP/RNBQKBNR w KQkq - 0 1 moves e2e4",
    )
    .unwrap();
    assert_eq!(b.side_to_move, Color::Black);
    assert_eq!(b.en_passant.unwrap().0, 20); // e3
}

#[test]
fn go_depth_uci() {
    let g = parse_go("depth 5", Color::White);
    assert_eq!(g.max_depth, 5);
    assert_eq!(g.time_budget_ms, None);
}

#[test]
fn go_depth_overrides_time() {
    // Explicit `depth N` wins over time arguments.
    let g = parse_go("wtime 30000 btime 30000 depth 7", Color::White);
    assert_eq!(g.max_depth, 7);
}

#[test]
fn go_repl_fallback_integer_is_depth() {
    let g = parse_go("3", Color::White);
    assert_eq!(g.max_depth, 3);
    assert_eq!(g.time_budget_ms, None);
}

#[test]
fn go_default_with_no_args() {
    let g = parse_go("", Color::White);
    assert_eq!(g.max_depth, DEFAULT_DEPTH);
    assert_eq!(g.time_budget_ms, None);
}

#[test]
fn go_movetime_sets_budget_and_high_depth() {
    let g = parse_go("movetime 1500", Color::White);
    assert_eq!(g.max_depth, MAX_DEPTH_TIMED);
    assert_eq!(g.time_budget_ms, Some(1500));
}

#[test]
fn go_wtime_btime_picks_side() {
    // White to move with 60s on each clock -> 60000/30 = 2000ms.
    let gw = parse_go("wtime 60000 btime 30000", Color::White);
    assert_eq!(gw.time_budget_ms, Some(2000));
    // Black to move with same args -> 30000/30 = 1000ms.
    let gb = parse_go("wtime 60000 btime 30000", Color::Black);
    assert_eq!(gb.time_budget_ms, Some(1000));
}

#[test]
fn go_wtime_btime_includes_half_increment() {
    // 60000ms + 2000ms increment -> 60000/30 + 2000/2 = 2000 + 1000 = 3000.
    let g = parse_go("wtime 60000 btime 60000 winc 2000 binc 2000", Color::White);
    assert_eq!(g.time_budget_ms, Some(3000));
}

#[test]
fn format_cp_score() {
    assert_eq!(format_score(123), "cp 123");
    assert_eq!(format_score(-456), "cp -456");
}

fn setopt(args: &str, config: &mut SearchConfig) {
    let mut tt = TranspositionTable::new(1);
    apply_setoption(args, config, &mut tt);
}

#[test]
fn setoption_toggles_move_ordering() {
    let mut config = SearchConfig::default();
    assert!(config.move_ordering);
    setopt("name MoveOrdering value false", &mut config);
    assert!(!config.move_ordering);
    setopt("name MoveOrdering value true", &mut config);
    assert!(config.move_ordering);
}

#[test]
fn setoption_accepts_alternate_bools() {
    let mut config = SearchConfig::default();
    setopt("name MoveOrdering value off", &mut config);
    assert!(!config.move_ordering);
    setopt("name MoveOrdering value on", &mut config);
    assert!(config.move_ordering);
    setopt("name MoveOrdering value 0", &mut config);
    assert!(!config.move_ordering);
}

#[test]
fn setoption_toggles_quiescence() {
    let mut config = SearchConfig::default();
    assert!(config.quiescence);
    setopt("name Quiescence value false", &mut config);
    assert!(!config.quiescence);
    setopt("name Quiescence value true", &mut config);
    assert!(config.quiescence);
}

#[test]
fn setoption_toggles_iterative_deepening() {
    let mut config = SearchConfig::default();
    assert!(config.iterative_deepening);
    setopt("name IterativeDeepening value false", &mut config);
    assert!(!config.iterative_deepening);
    setopt("name IterativeDeepening value true", &mut config);
    assert!(config.iterative_deepening);
}

#[test]
fn setoption_toggles_transposition_table() {
    let mut config = SearchConfig::default();
    assert!(config.transposition_table);
    setopt("name TranspositionTable value false", &mut config);
    assert!(!config.transposition_table);
    setopt("name TranspositionTable value true", &mut config);
    assert!(config.transposition_table);
}

#[test]
fn setoption_toggles_piece_square_tables() {
    let mut config = SearchConfig::default();
    assert!(config.piece_square_tables);
    setopt("name PieceSquareTables value false", &mut config);
    assert!(!config.piece_square_tables);
    setopt("name PieceSquareTables value true", &mut config);
    assert!(config.piece_square_tables);
}

#[test]
fn setoption_toggles_pawn_structure() {
    let mut config = SearchConfig::default();
    assert!(config.pawn_structure);
    setopt("name PawnStructure value false", &mut config);
    assert!(!config.pawn_structure);
    setopt("name PawnStructure value true", &mut config);
    assert!(config.pawn_structure);
}

#[test]
fn setoption_toggles_bishop_pair() {
    let mut config = SearchConfig::default();
    assert!(config.bishop_pair);
    setopt("name BishopPair value false", &mut config);
    assert!(!config.bishop_pair);
    setopt("name BishopPair value true", &mut config);
    assert!(config.bishop_pair);
}

#[test]
fn setoption_toggles_king_safety() {
    let mut config = SearchConfig::default();
    assert!(config.king_safety);
    setopt("name KingSafety value false", &mut config);
    assert!(!config.king_safety);
    setopt("name KingSafety value true", &mut config);
    assert!(config.king_safety);
}

#[test]
fn setoption_toggles_killer_moves() {
    let mut config = SearchConfig::default();
    assert!(config.killer_moves);
    setopt("name KillerMoves value false", &mut config);
    assert!(!config.killer_moves);
    setopt("name KillerMoves value true", &mut config);
    assert!(config.killer_moves);
}

#[test]
fn setoption_toggles_history_heuristic() {
    let mut config = SearchConfig::default();
    assert!(config.history_heuristic);
    setopt("name HistoryHeuristic value false", &mut config);
    assert!(!config.history_heuristic);
    setopt("name HistoryHeuristic value true", &mut config);
    assert!(config.history_heuristic);
}

#[test]
fn setoption_toggles_mid_search_abort() {
    let mut config = SearchConfig::default();
    assert!(config.mid_search_abort);
    setopt("name MidSearchAbort value false", &mut config);
    assert!(!config.mid_search_abort);
    setopt("name MidSearchAbort value true", &mut config);
    assert!(config.mid_search_abort);
}

#[test]
fn setoption_toggles_null_move_pruning() {
    let mut config = SearchConfig::default();
    assert!(config.null_move_pruning);
    setopt("name NullMovePruning value false", &mut config);
    assert!(!config.null_move_pruning);
    setopt("name NullMovePruning value true", &mut config);
    assert!(config.null_move_pruning);
}

#[test]
fn setoption_toggles_aspiration_windows() {
    let mut config = SearchConfig::default();
    assert!(config.aspiration_windows);
    setopt("name AspirationWindows value false", &mut config);
    assert!(!config.aspiration_windows);
    setopt("name AspirationWindows value true", &mut config);
    assert!(config.aspiration_windows);
}

#[test]
fn setoption_toggles_razoring() {
    let mut config = SearchConfig::default();
    // Razoring is experimental and defaults off — see SearchConfig::default.
    assert!(!config.razoring);
    setopt("name Razoring value true", &mut config);
    assert!(config.razoring);
    setopt("name Razoring value false", &mut config);
    assert!(!config.razoring);
}

#[test]
fn setoption_toggles_futility_pruning() {
    let mut config = SearchConfig::default();
    assert!(config.futility_pruning);
    setopt("name FutilityPruning value false", &mut config);
    assert!(!config.futility_pruning);
    setopt("name FutilityPruning value true", &mut config);
    assert!(config.futility_pruning);
}

#[test]
fn setoption_toggles_late_move_reductions() {
    let mut config = SearchConfig::default();
    assert!(config.late_move_reductions);
    setopt("name LateMoveReductions value false", &mut config);
    assert!(!config.late_move_reductions);
    setopt("name LateMoveReductions value true", &mut config);
    assert!(config.late_move_reductions);
}

#[test]
fn setoption_unknown_is_noop() {
    let mut config = SearchConfig::default();
    setopt("name SomethingElse value true", &mut config);
    // No panic, default unchanged.
    assert!(config.move_ordering);
}

#[test]
fn setoption_hash_resizes_tt() {
    let mut config = SearchConfig::default();
    let mut tt = TranspositionTable::new(1);
    let small_cap = tt.capacity();
    apply_setoption("name Hash value 64", &mut config, &mut tt);
    assert!(tt.capacity() > small_cap);
}

#[test]
fn setoption_hash_clamps_to_range() {
    let mut config = SearchConfig::default();
    let mut tt = TranspositionTable::new(16);
    let baseline = tt.capacity();
    // Value above max should still produce a valid resize at max.
    apply_setoption("name Hash value 99999", &mut config, &mut tt);
    assert!(tt.capacity() >= baseline);
}

#[test]
fn format_mate_score() {
    // MATE_SCORE - 1 = mate in 1 ply -> mate 1
    assert_eq!(format_score(MATE_SCORE - 1), "mate 1");
    // MATE_SCORE - 3 = mate in 3 ply -> mate 2 (rounded up)
    assert_eq!(format_score(MATE_SCORE - 3), "mate 2");
    // Negative: being mated.
    assert_eq!(format_score(-(MATE_SCORE - 1)), "mate -1");
}
