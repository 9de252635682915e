use torte::board::{Board, MoveError};
use torte::eval::{eval, game_phase, Coeffs, EvalConfig, NUM_PARAMS, PHASE_MAX};
use torte::fen::fen_valid;
use torte::generator::generate_legal_moves;
use torte::params::W;
use torte::perft::{perft, perft_divide};
use torte::piece_move::Move;
use torte::pieces::Color;
use torte::search::{retrieve_mate_score, search_ready, store_mate_score, AbortSignal, SearchConfig, MATE_SCORE};
use torte::see::see;
use torte::sliding;
use torte::transposition::{zobrist_hash, TranspositionTable};
use torte::uci::{option_lines, parse_bool, parse_go, parse_position, parse_setoption, STARTPOS};

fn pos(fen: &str) -> Board {
    sliding::init();
    Board::parse(fen)
}

const SAMPLES: [&str; 5] = [
    "rnbqkbnr/pppppppp/8/8/8/8/PPPPPPPP/RNBQKBNR w KQkq - 0 1",
    "r3k2r/p1ppqpb1/bn2pnp1/3PN3/1p2P3/2N2Q1p/PPPBBPPP/R3K2R w KQkq - 0 1",
    "8/2p5/3p4/KP5r/1R3p1k/8/4P1P1/8 b - - 0 1",
    "r4rk1/1pp1qppp/p1np1n2/2b1p1B1/2B1P1b1/P1NP1N2/1PP1QPPP/R4RK1 b - - 0 10",
    "8/5k2/3p4/1p1Pp2p/pP2Pp1P/P4P1K/8/8 b - - 0 1",
];

fn trunc_div(a: i64, d: i64) -> i64 {
    if a >= 0 {
        a / d
    } else {
        -((-a) / d)
    }
}

#[test]
fn eval_is_the_weighted_trace() {
    for fen in SAMPLES {
        let b = pos(fen);
        let cfg = EvalConfig::all();
        let c = Coeffs::traced(&b, cfg);
        let (mut mg, mut eg) = (0i64, 0i64);
        for i in 0..NUM_PARAMS {
            mg += W[i][0] as i64 * c.counts[i] as i64;
            eg += W[i][1] as i64 * c.counts[i] as i64;
        }
        let phase = game_phase(&b) as i64;
        let white = trunc_div(mg * phase + eg * (PHASE_MAX as i64 - phase), PHASE_MAX as i64);
        let expected = if b.side_to_move == Color::White { white } else { -white };
        assert_eq!(eval(&b, cfg) as i64, expected, "{fen}");
    }
}

#[test]
fn flipping_the_side_to_move_negates_the_eval_without_development() {
    let cfg = EvalConfig { development: false, ..EvalConfig::all() };
    for fen in SAMPLES {
        let a = pos(fen);
        let mut b = a;
        b.side_to_move = a.side_to_move.opposite();
        assert_eq!(eval(&a, cfg), -eval(&b, cfg), "{fen}");
    }
}

#[test]
fn development_breaks_the_side_flip() {
    // The tempo bonus goes to the side to move, so the exact negation fails
    // with development on.
    let a = pos(STARTPOS);
    let mut b = a;
    b.side_to_move = Color::Black;
    assert_ne!(eval(&a, EvalConfig::all()), -eval(&b, EvalConfig::all()));
}

#[test]
fn mate_scores_survive_storing_at_every_ply() {
    for ply in [1u32, 2, 7, 40, 63] {
        for score in [MATE_SCORE - 1, MATE_SCORE - 30, -(MATE_SCORE - 2), 0, 250, -999, 28_000, -28_000] {
            assert_eq!(retrieve_mate_score(store_mate_score(score, ply), ply), score);
        }
    }
    assert_eq!(store_mate_score(MATE_SCORE - 3, 2), MATE_SCORE - 1);
    assert_eq!(store_mate_score(-(MATE_SCORE - 3), 2), -(MATE_SCORE - 1));
    assert_eq!(store_mate_score(500, 9), 500);
}

#[test]
fn start_position_is_well_formed() {
    assert!(pos(STARTPOS).is_well_formed());
    assert!(fen_valid(STARTPOS));
}

#[test]
fn two_white_kings_are_not_well_formed() {
    assert!(!pos("4k3/8/8/8/8/8/8/3KK3 w - - 0 1").is_well_formed());
}

#[test]
fn pawn_on_the_first_rank_is_not_well_formed() {
    assert!(!pos("4k3/8/8/8/8/8/8/P3K3 w - - 0 1").is_well_formed());
}

#[test]
fn side_not_to_move_in_check_is_not_well_formed() {
    // White to move while the black king stands attacked by the white rook.
    assert!(!pos("4k3/8/8/8/8/8/8/4R1K1 w - - 0 1").is_well_formed());
    assert!(pos("4k3/8/8/8/8/8/8/4R1K1 b - - 0 1").is_well_formed());
}

#[test]
fn legal_moves_keep_the_position_well_formed() {
    for fen in SAMPLES {
        let b = pos(fen);
        for m in generate_legal_moves(&b) {
            let mut after = b;
            after.apply_move(m).unwrap();
            assert!(after.is_well_formed(), "{fen} {}", m.to_uci());
        }
    }
}

#[test]
fn fen_that_would_place_off_the_board_does_not_read() {
    // A ninth piece on the eighth rank falls off the board; an unknown letter
    // names no piece; a wide gap with nothing after it places nothing wrong.
    assert!(!fen_valid("rnbqkbnrr/pppppppp/8/8/8/8/PPPPPPPP/RNBQKBNR w KQkq - 0 1"));
    assert!(!fen_valid("rnbqkbnx/pppppppp/8/8/8/8/PPPPPPPP/RNBQKBNR w KQkq - 0 1"));
    assert!(fen_valid("rnbqkbnr/pppppppp/9/8/8/8/PPPPPPPP/RNBQKBNR w KQkq - 0 1"));
    assert!(!fen_valid("rnbqkbnr/pppppppp/8/8/8/PPPPPPPP/RNBQKBNR w KQkq - 0 1"));
    assert!(!fen_valid(""));
    assert!(fen_valid("8/8/8/8/8/8/8/8 w - - 0 1"));
}

#[test]
fn render_draws_the_board_and_status() {
    let b = pos("4k3/8/8/8/8/8/8/4K3 w - - 3 17");
    let border = "  +-------------------------------+\n";
    let mut want = String::from(border);
    for rank in (1..=8).rev() {
        want += &format!("{} ", rank);
        for file in 0..8 {
            let cell = match (rank, file) {
                (8, 4) => '\u{265A}',
                (1, 4) => '\u{2654}',
                _ => ' ',
            };
            want += &format!("| {} ", cell);
        }
        want += "|\n";
    }
    want += "    A   B   C   D   E   F   G   H\n";
    want += border;
    want += "  stm=w castling=- ep=- halfmove=3 fullmove=17\n";
    assert_eq!(b.render(), want);
}

#[test]
fn render_shows_rights_and_en_passant() {
    let b = pos("rnbqkbnr/pppp1ppp/8/4p3/4P3/8/PPPP1PPP/RNBQKBNR w Kq e6 0 2");
    assert!(b.render().ends_with("  stm=w castling=Kq ep=e6 halfmove=0 fullmove=2\n"));
}

#[test]
fn each_move_error_has_its_input() {
    let mut b = pos(STARTPOS);
    assert_eq!(b.apply_uci_move("a3a4"), Err(MoveError::NoPieceAtSource));
    assert_eq!(b.apply_uci_move("e2e4q"), Err(MoveError::PromotionNotAllowed));
    let mut p = pos("k7/4P3/8/8/8/8/8/4K3 w - - 0 1");
    assert_eq!(p.apply_uci_move("e7e8"), Err(MoveError::PromotionRequired));
    assert_eq!(p.apply_uci_move("e7e8n"), Ok(()));
    let mut k = pos("7k/8/8/8/8/8/8/3K4 w - - 0 1");
    assert_eq!(k.apply_uci_move("d1f1"), Err(MoveError::InvalidCastlingDestination));
}

#[test]
fn refused_move_leaves_the_board_alone() {
    let mut b = pos(STARTPOS);
    let before = zobrist_hash(&b);
    assert!(b.apply_uci_move("a3a4").is_err());
    assert_eq!(zobrist_hash(&b), before);
    assert_eq!(b.render(), pos(STARTPOS).render());
}

#[test]
fn can_apply_refuses_off_board_squares() {
    let b = pos(STARTPOS);
    assert!(b.can_apply(Move::from_uci("e2e4")));
    assert!(b.can_apply(Move::from_uci("g1f3")));
    assert!(b.can_apply(Move::from_uci("b1c3")));
    // A black pawn on the first rank would step off the board going two ranks.
    let odd = pos("4k3/8/8/8/8/8/8/p3K3 b - - 0 1");
    assert!(!odd.can_apply(Move::from_uci("a1a3")));
    assert!(!b.can_apply(Move::new(torte::sq::SQ(12), torte::sq::SQ(64))));
    assert!(!Move::uci_well_formed("e2e9x"));
    assert!(!Move::uci_well_formed("e2"));
    assert!(Move::uci_well_formed("e7e8q"));
}

#[test]
fn search_ready_checks_depth_and_position() {
    let b = pos(STARTPOS);
    assert!(search_ready(&b, 4));
    assert!(!search_ready(&b, 70_000));
    assert!(!search_ready(&pos("4k3/8/8/8/8/8/8/3KK3 w - - 0 1"), 2));
}

#[test]
fn divide_lists_each_legal_move_once_at_depth_one() {
    let b = pos(STARTPOS);
    let d = perft_divide(&b, 1);
    assert_eq!(d.len(), 20);
    assert!(d.iter().all(|&(_, n)| n == 1));
    let d2 = perft_divide(&b, 2);
    assert_eq!(d2.iter().map(|&(_, n)| n).sum::<u64>(), perft(&b, 2));
}

#[test]
fn perft_of_depth_zero_is_one_and_of_a_mate_is_zero() {
    assert_eq!(perft(&pos(STARTPOS), 0), 1);
    assert_eq!(perft(&pos("7k/5Q2/6K1/8/8/8/8/8 b - - 0 1"), 3), 0);
}

#[test]
fn a_signal_without_deadline_or_flag_never_fires() {
    assert!(!AbortSignal::never().fire());
    assert!(!AbortSignal::with_deadline(None).fire());
}

#[test]
fn one_megabyte_table_has_the_largest_fitting_power_of_two() {
    let tt = TranspositionTable::new(1);
    assert_eq!(tt.capacity(), 1024 * 1024 / 32);
    let t0 = TranspositionTable::new(0);
    assert_eq!(t0.capacity(), 1024 * 1024 / 32);
}

#[test]
fn parse_bool_words() {
    assert_eq!(parse_bool(" YES "), Some(true));
    assert_eq!(parse_bool("On"), Some(true));
    assert_eq!(parse_bool("0"), Some(false));
    assert_eq!(parse_bool("No"), Some(false));
    assert_eq!(parse_bool("maybe"), None);
    assert_eq!(parse_bool(""), None);
}

#[test]
fn parse_setoption_splits_name_and_value() {
    assert_eq!(
        parse_setoption("name Clear Hash value x y"),
        Some((String::from("Clear Hash"), String::from("x y")))
    );
    assert_eq!(parse_setoption("name Hash"), Some((String::from("Hash"), String::new())));
    assert_eq!(parse_setoption("name value 3"), None);
    assert_eq!(parse_setoption("value 3"), None);
    assert_eq!(parse_setoption(""), None);
}

#[test]
fn option_lines_list_every_option() {
    let lines = option_lines(&SearchConfig::default());
    assert_eq!(lines.len(), 17);
    assert_eq!(lines[0], "option name MoveOrdering type check default true");
    assert_eq!(lines[15], "option name Razoring type check default false");
    assert_eq!(lines[16], "option name Hash type spin default 16 min 1 max 1024");
}

#[test]
fn go_ignores_a_missing_or_bad_number() {
    let g = parse_go("depth", Color::White);
    assert_eq!(g.max_depth, 6);
    assert_eq!(g.time_budget_ms, None);
    let g = parse_go("depth x movetime 20", Color::Black);
    assert_eq!(g.max_depth, 64);
    assert_eq!(g.time_budget_ms, Some(20));
    let g = parse_go("wtime 3000", Color::White);
    assert_eq!(g.time_budget_ms, None);
}

#[test]
fn position_plays_knight_moves_from_the_back_rank() {
    let b = parse_position("startpos moves g1f3 b8c6 b1c3").unwrap();
    assert_eq!(b.side_to_move, Color::Black);
    assert_eq!(b.fullmove_number, 2);
    let mut c = pos(STARTPOS);
    for m in ["g1f3", "b8c6", "b1c3"] {
        c.apply_uci_move(m).unwrap();
    }
    assert_eq!(zobrist_hash(&b), zobrist_hash(&c));
}

#[test]
fn position_refuses_unknown_words_and_bad_moves() {
    assert!(parse_position("").is_none());
    assert!(parse_position("start").is_none());
    assert!(parse_position("fen").is_none());
    assert!(parse_position("startpos e2e4").is_none());
    assert!(parse_position("startpos moves e2e9").is_none());
    assert!(parse_position("fen 8/8/8 w - - 0 1").is_none());
}

#[test]
fn see_of_a_free_capture_is_the_victim() {
    let b = pos("4k3/8/8/3p4/8/8/8/3RK3 w - - 0 1");
    assert_eq!(see(&b, Move::from_uci("d1d5")), 100);
}

#[test]
fn hash_matches_for_transposed_move_orders() {
    let mut a = pos(STARTPOS);
    for m in ["g1f3", "g8f6", "b1c3"] {
        a.apply_uci_move(m).unwrap();
    }
    let mut b = pos(STARTPOS);
    for m in ["b1c3", "g8f6", "g1f3"] {
        b.apply_uci_move(m).unwrap();
    }
    assert_eq!(zobrist_hash(&a), zobrist_hash(&b));
}

#[test]
fn ordering_keeps_equal_keys_in_their_order() {
    // At the start every move is quiet with no history: one key for all.
    let b = pos(STARTPOS);
    let mut moves = generate_legal_moves(&b);
    let before = moves.clone();
    let history = torte::search::new_history();
    torte::search::order_moves(&b, &mut moves, None, [None, None], &history);
    assert_eq!(moves, before);
    // A hinted move goes first; the rest keep their order.
    let hint = before[7];
    torte::search::order_moves(&b, &mut moves, Some(hint), [None, None], &history);
    assert_eq!(moves[0], hint);
    let rest: Vec<Move> = before.iter().copied().filter(|m| *m != hint).collect();
    assert_eq!(&moves[1..], &rest[..]);
}

#[test]
fn hash_ignores_the_clocks() {
    let a = pos("r3k2r/p1ppqpb1/bn2pnp1/3PN3/1p2P3/2N2Q1p/PPPBBPPP/R3K2R w KQkq - 0 1");
    let b = pos("r3k2r/p1ppqpb1/bn2pnp1/3PN3/1p2P3/2N2Q1p/PPPBBPPP/R3K2R w KQkq - 17 40");
    assert_eq!(zobrist_hash(&a), zobrist_hash(&b));
}

#[test]
fn side_to_move_changes_the_hash_by_the_side_key() {
    for fen in SAMPLES {
        let a = pos(fen);
        let mut b = a;
        b.side_to_move = a.side_to_move.opposite();
        assert_eq!(zobrist_hash(&a) ^ zobrist_hash(&b), torte::zobrist_keys::SIDE_KEY);
    }
}

#[test]
fn every_castling_right_set_has_its_own_hash() {
    let base = pos("r3k2r/8/8/8/8/8/8/R3K2R w - - 0 1");
    let mut seen = Vec::new();
    for c in 0u8..16 {
        let mut b = base;
        b.castling = torte::board::CastlingRights(c);
        let h = zobrist_hash(&b);
        assert!(!seen.contains(&h));
        seen.push(h);
    }
}

#[test]
fn search_without_the_table_finds_mate_in_one() {
    let board = pos("k7/8/1K6/3Q4/8/8/8/8 w - - 0 1");
    let config = SearchConfig { transposition_table: false, ..SearchConfig::default() };
    for depth in 2..5 {
        let (mv, score) = torte::search::find_best_move_with(&board, depth, config).unwrap();
        assert!(score >= MATE_SCORE - 1);
        let mut after = board;
        after.apply_move(mv).unwrap();
        assert!(generate_legal_moves(&after).is_empty());
    }
}

#[test]
fn generated_moves_list_pawns_then_pieces_then_castling() {
    let b = pos("r3k2r/p1ppqpb1/bn2pnp1/3PN3/1p2P3/2N2Q1p/PPPBBPPP/R3K2R w KQkq - 0 1");
    let moves = generate_legal_moves(&b);
    let band = |m: &Move| -> u8 {
        let s = m.src.0 as usize;
        if b.bbs[0].get(s) {
            0
        } else if b.bbs[5].get(s) && (m.dest.0 as i32 - m.src.0 as i32).abs() == 2 {
            2
        } else {
            1
        }
    };
    let bands: Vec<u8> = moves.iter().map(band).collect();
    let mut sorted = bands.clone();
    sorted.sort();
    assert_eq!(bands, sorted);
    assert_eq!(bands.iter().filter(|&&x| x == 2).count(), 2);
    let mut seen = moves.clone();
    seen.dedup();
    assert_eq!(seen.len(), moves.len());
}

#[test]
fn bitboard_renders_as_an_eight_by_eight_grid() {
    let bb = torte::bitboard::Bitboard::from_u64(1 | (1 << 9) | (1 << 63));
    let want = "10000000\n01000000\n00000000\n00000000\n00000000\n00000000\n00000000\n00000001\n";
    assert_eq!(bb.render(), want);
}

#[test]
fn board_text_lists_the_twelve_sets_in_binary() {
    let b = pos(STARTPOS);
    let want: String = (0..12).map(|i| format!("{:064b}\n", b.bbs[i].board)).collect();
    assert_eq!(b.to_string(), want);
    assert!(b.to_string().starts_with("0000000000000000000000000000000000000000000000001111111100000000\n"));
}
