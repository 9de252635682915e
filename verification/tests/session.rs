use std::time::Duration;

use torte::board::Board;
use torte::piece_move::Move;
use torte::pieces::Color;
use torte::search::{
    find_best_move_logged, iterative_deepening_logged, new_history, new_killers, AbortSignal, SearchConfig, INFINITY,
    MATE_SCORE,
};
use torte::session::{bestmove_line, go, info_line, uci_command, GoOutcome, UciAction};
use torte::transposition::{Bound, TTEntry, TranspositionTable};
use torte::uci::{parse_go, STARTPOS};

fn said(actions: &[UciAction]) -> Vec<String> {
    actions
        .iter()
        .map(|a| match a {
            UciAction::Say(s) => s.clone(),
            UciAction::ShowBoard => "<board>".to_string(),
            UciAction::Go(_) => "<go>".to_string(),
            UciAction::Quit => "<quit>".to_string(),
            UciAction::Abort(m) => format!("<abort> {}", m),
        })
        .collect()
}

struct Engine {
    board: Board,
    config: SearchConfig,
    tt: TranspositionTable,
}

impl Engine {
    fn new() -> Engine {
        Engine { board: Board::parse(STARTPOS), config: SearchConfig::default(), tt: TranspositionTable::new(1) }
    }

    fn send(&mut self, line: &str) -> Vec<UciAction> {
        uci_command(&mut self.board, &mut self.config, &mut self.tt, line)
    }
}

#[test]
fn isready_answers_readyok() {
    let mut e = Engine::new();
    assert_eq!(said(&e.send("isready")), vec!["readyok".to_string()]);
}

#[test]
fn uci_names_the_engine_and_ends_with_uciok() {
    let mut e = Engine::new();
    let lines = said(&e.send("uci"));
    assert_eq!(lines[0], "id name torte");
    assert_eq!(lines[1], "id author Sean Leishman");
    assert_eq!(lines.last().unwrap(), "uciok");
    assert!(lines.iter().any(|l| l.starts_with("option name Hash type spin")));
}

#[test]
fn position_command_sets_the_board() {
    let mut e = Engine::new();
    assert!(e.send("position startpos moves e2e4").is_empty());
    assert_eq!(e.board.side_to_move, Color::Black);
}

#[test]
fn bad_position_is_reported_and_board_kept() {
    let mut e = Engine::new();
    let lines = said(&e.send("position nonsense"));
    assert_eq!(lines, vec!["info string failed to parse position".to_string()]);
    assert_eq!(e.board.side_to_move, Color::White);
}

#[test]
fn unknown_option_is_reported() {
    let mut e = Engine::new();
    let lines = said(&e.send("setoption name Contempt value 10"));
    assert_eq!(lines, vec!["info string unknown option: Contempt".to_string()]);
}

#[test]
fn known_option_changes_the_configuration() {
    let mut e = Engine::new();
    assert!(e.send("setoption name NullMovePruning value false").is_empty());
    assert!(!e.config.null_move_pruning);
}

#[test]
fn go_hands_back_its_arguments() {
    let mut e = Engine::new();
    let actions = e.send("go depth 3");
    assert_eq!(actions.len(), 1);
    match &actions[0] {
        UciAction::Go(args) => assert_eq!(*args, parse_go("depth 3", Color::White)),
        _ => panic!("expected a search"),
    }
}

#[test]
fn quit_and_exit_end_the_loop() {
    let mut e = Engine::new();
    assert!(matches!(e.send("quit").as_slice(), [UciAction::Quit]));
    assert!(matches!(e.send("exit").as_slice(), [UciAction::Quit]));
}

#[test]
fn board_command_shows_the_board() {
    let mut e = Engine::new();
    assert!(matches!(e.send("d").as_slice(), [UciAction::ShowBoard]));
    assert!(matches!(e.send("board").as_slice(), [UciAction::ShowBoard]));
    assert!(e.send("stop").is_empty());
}

#[test]
fn bare_move_is_played() {
    let mut e = Engine::new();
    assert!(e.send("e2e4").is_empty());
    assert_eq!(e.board.side_to_move, Color::Black);
}

#[test]
fn move_from_empty_square_is_reported() {
    let mut e = Engine::new();
    let lines = said(&e.send("a3a4"));
    assert_eq!(lines, vec!["info string unknown command or illegal move: a3a4".to_string()]);
    assert_eq!(e.board.side_to_move, Color::White);
}

#[test]
fn unreadable_words_stop_the_engine() {
    let mut e = Engine::new();
    assert_eq!(said(&e.send("xyz")), vec!["<abort> Invalid UCI move: xyz".to_string()]);
    assert_eq!(
        said(&e.send("hello")),
        vec!["<abort> Invalid promotion piece in UCI move: hello".to_string()]
    );
}

#[test]
fn new_game_resets_the_board_and_empties_the_table() {
    let mut e = Engine::new();
    e.send("position startpos moves e2e4 e7e5");
    e.tt.store(TTEntry { key: 42, depth: 1, score: 10, bound: Bound::Exact, best_move: None });
    assert!(e.send("ucinewgame").is_empty());
    assert_eq!(e.board.side_to_move, Color::White);
    assert_eq!(e.board.fullmove_number, 1);
    assert!(e.tt.probe(42).is_none());
}

#[test]
fn empty_line_does_nothing() {
    let mut e = Engine::new();
    assert!(e.send("   ").is_empty());
}

#[test]
fn bestmove_lines() {
    assert_eq!(bestmove_line(None), "bestmove 0000");
    assert_eq!(bestmove_line(Some((Move::from_uci("e7e8q"), 12))), "bestmove e7e8q");
}

#[test]
fn info_lines() {
    let m = Move::from_uci("e2e4");
    assert_eq!(info_line(3, 25, 10, m), "info depth 3 score cp 25 time 10 pv e2e4");
    assert_eq!(info_line(2, MATE_SCORE - 1, 0, m), "info depth 2 score mate 1 time 0 pv e2e4");
    assert_eq!(info_line(4, -MATE_SCORE + 2, 7, m), "info depth 4 score mate -1 time 7 pv e2e4");
}

#[test]
fn go_searches_and_reports_each_depth() {
    let board = Board::parse("k7/8/1K6/8/8/8/8/3Q4 w - - 0 1");
    let mut tt = TranspositionTable::new(1);
    let mut depths = Vec::new();
    let mut report = |d: u32, _m: Move, _s: i32, _t: Duration| depths.push(d);
    let args = parse_go("depth 2", Color::White);
    let outcome = go(&board, args, SearchConfig::default(), &mut tt, &mut report);
    match outcome {
        GoOutcome::Best(Some((_, score))) => assert_eq!(score, MATE_SCORE - 1),
        GoOutcome::Best(None) => panic!("no move found"),
        GoOutcome::OutOfRange => panic!("position refused"),
    }
    assert_eq!(depths[0], 1);
    assert!(depths.windows(2).all(|w| w[1] == w[0] + 1));
    assert!(*depths.last().unwrap() <= 2);
}

#[test]
fn go_on_stalemate_finds_no_move() {
    let board = Board::parse("7k/5Q2/6K1/8/8/8/8/8 b - - 0 1");
    let mut tt = TranspositionTable::new(1);
    let mut report = |_d: u32, _m: Move, _s: i32, _t: Duration| {};
    let outcome = go(&board, parse_go("depth 2", Color::Black), SearchConfig::default(), &mut tt, &mut report);
    assert!(matches!(outcome, GoOutcome::Best(None)));
    assert_eq!(bestmove_line(None), "bestmove 0000");
}

#[test]
fn go_refuses_a_position_with_the_side_not_to_move_in_check() {
    let board = Board::parse("k7/8/1K6/3Q4/8/8/8/8 w - - 0 1");
    let mut tt = TranspositionTable::new(1);
    let mut report = |_d: u32, _m: Move, _s: i32, _t: Duration| {};
    let outcome = go(&board, parse_go("depth 2", Color::White), SearchConfig::default(), &mut tt, &mut report);
    assert!(matches!(outcome, GoOutcome::OutOfRange));
}

#[test]
fn deepening_log_runs_the_depths_in_order() {
    let b = Board::parse(STARTPOS);
    let mut tt = TranspositionTable::new(1);
    let mut seen = Vec::new();
    let mut f = |d: u32, _m: Move, _s: i32, _t: Duration| seen.push(d);
    let (best, log) =
        iterative_deepening_logged(&b, 3, SearchConfig::default(), AbortSignal::never(), &mut tt, &mut f);
    assert_eq!(log.iter().map(|i| i.depth).collect::<Vec<u32>>(), vec![1, 2, 3]);
    assert_eq!(seen, vec![1, 2, 3]);
    let last = log.last().unwrap();
    assert_eq!(best, Some((last.best, last.score)));
}

#[test]
fn deepening_log_stops_at_a_mate() {
    let b = Board::parse("k7/8/1K6/8/8/8/8/3Q4 w - - 0 1");
    let mut tt = TranspositionTable::new(1);
    let mut f = |_d: u32, _m: Move, _s: i32, _t: Duration| {};
    let (best, log) =
        iterative_deepening_logged(&b, 6, SearchConfig::default(), AbortSignal::never(), &mut tt, &mut f);
    assert!(log.len() < 6);
    assert_eq!(log.last().unwrap().score, MATE_SCORE - 1);
    assert_eq!(best.unwrap().1, MATE_SCORE - 1);
}

#[test]
fn root_log_scores_every_move_and_the_best_is_the_first_highest() {
    let b = Board::parse(STARTPOS);
    let mut tt = TranspositionTable::new(1);
    let mut killers = new_killers();
    let mut history = new_history();
    let (best, log) = find_best_move_logged(
        &b,
        2,
        -INFINITY,
        INFINITY,
        SearchConfig::default(),
        &mut tt,
        &mut killers,
        &mut history,
        &AbortSignal::never(),
    );
    assert_eq!(log.len(), 20);
    let (m, s) = best.unwrap();
    let top = log.iter().map(|e| e.1).max().unwrap();
    assert_eq!(s, top);
    let first = log.iter().position(|e| e.1 == top).unwrap();
    assert_eq!(log[first].0, m);
}

#[test]
fn root_fail_low_gives_alpha_and_the_first_move() {
    let b = Board::parse(STARTPOS);
    let mut tt = TranspositionTable::new(1);
    let mut killers = new_killers();
    let mut history = new_history();
    let (best, log) = find_best_move_logged(
        &b,
        1,
        5000,
        5001,
        SearchConfig::default(),
        &mut tt,
        &mut killers,
        &mut history,
        &AbortSignal::never(),
    );
    assert!(log.iter().all(|e| e.1 <= 5000));
    assert_eq!(best, Some((log[0].0, 5000)));
}

#[test]
fn keys_equal_modulo_the_slot_count_share_a_slot() {
    let mut tt = TranspositionTable::new(1);
    tt.store(TTEntry { key: 3, depth: 1, score: 10, bound: Bound::Exact, best_move: None });
    tt.store(TTEntry { key: 3 + (1u64 << 40), depth: 1, score: 20, bound: Bound::Exact, best_move: None });
    assert!(tt.probe(3).is_none());
    assert_eq!(tt.probe(3 + (1u64 << 40)).unwrap().score, 20);
    tt.store(TTEntry { key: 4, depth: 1, score: 30, bound: Bound::Exact, best_move: None });
    assert_eq!(tt.probe(3 + (1u64 << 40)).unwrap().score, 20);
}

#[test]
fn one_ply_search_picks_the_best_evaluated_reply() {
    let b = Board::parse("r3k2r/p1ppqpb1/bn2pnp1/3PN3/1p2P3/2N2Q1p/PPPBBPPP/R3K2R w KQkq - 0 1");
    let mut config = SearchConfig::default();
    config.transposition_table = false;
    config.quiescence = false;
    let (m, s) = torte::search::find_best_move_with(&b, 1, config).unwrap();
    let cfg = config.eval_config();
    let mut top = i32::MIN;
    for mv in torte::generator::generate_legal_moves(&b) {
        let mut c = b;
        c.apply_move(mv).unwrap();
        let v = -torte::eval::eval(&c, cfg);
        top = top.max(v);
    }
    assert_eq!(s, top.max(-torte::search::INFINITY));
    let mut c = b;
    c.apply_move(m).unwrap();
    assert_eq!(-torte::eval::eval(&c, cfg), s);
}
