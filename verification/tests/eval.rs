use torte::board::Board;
use torte::eval::{
    bishop_pair, eval, game_phase, king_safety, mobility, pawn_structure, Coeffs, EvalConfig, Score,
    BISHOP_PAIR, EARLY_QUEEN, MATERIAL, PHASE_MAX, PHASE_QUEEN, SHIELD_PAWN_HOME, TEMPO, UNDEVELOPED_MINOR,
};
use torte::params::W;
/// Everything except development — for tests asserting an exact symmetry
/// that the side-to-move tempo bonus deliberately breaks.
fn no_development() -> EvalConfig {
    EvalConfig { development: false, ..EvalConfig::all() }
}

/// Material eval plus only the pawn-structure term.
fn pawn_only() -> EvalConfig {
    EvalConfig { pawn_structure: true, ..EvalConfig::material_only() }
}

/// Material eval plus only the king-safety term.
fn king_safety_only() -> EvalConfig {
    EvalConfig { king_safety: true, ..EvalConfig::material_only() }
}

/// Material eval plus only the development term.
fn development_only() -> EvalConfig {
    EvalConfig { development: true, ..EvalConfig::material_only() }
}

/// How many times `param` is counted (white-minus-black) — tests the
/// terms' logic without pinning the tuned weights' signs.
fn count(param: usize, board: &Board, cfg: EvalConfig) -> i32 {
    Coeffs::traced(board, cfg).counts[param]
}

/// One term's white-minus-black contribution, tapered at `phase`.
fn term(f: impl FnOnce(&mut Score), phase: i32) -> i32 {
    let mut s = Score::default();
    f(&mut s);
    s.taper(phase)
}

#[test]
fn startpos_is_balanced_material_only() {
    let board = Board::parse("rnbqkbnr/pppppppp/8/8/8/8/PPPPPPPP/RNBQKBNR w KQkq - 0 1");
    assert_eq!(eval(&board, EvalConfig::material_only()), 0);
}

#[test]
fn startpos_is_balanced_with_pst() {
    // White and black are mirror-symmetric in the start position, so PST
    // contributions must cancel exactly. Development off: its tempo bonus
    // deliberately isn't symmetric.
    let board = Board::parse("rnbqkbnr/pppppppp/8/8/8/8/PPPPPPPP/RNBQKBNR w KQkq - 0 1");
    assert_eq!(eval(&board, no_development()), 0);
}

#[test]
fn extra_white_queen() {
    let board = Board::parse("4k3/8/8/8/8/8/8/3QK3 w - - 0 1");
    let queen = Score { mg: W[MATERIAL + 4][0], eg: W[MATERIAL + 4][1] }.taper(PHASE_QUEEN);
    assert_eq!(eval(&board, EvalConfig::material_only()), queen);
}

#[test]
fn extra_white_queen_black_to_move() {
    let white = Board::parse("4k3/8/8/8/8/8/8/3QK3 w - - 0 1");
    let black = Board::parse("4k3/8/8/8/8/8/8/3QK3 b - - 0 1");
    assert_eq!(
        eval(&black, EvalConfig::material_only()),
        -eval(&white, EvalConfig::material_only())
    );
}

#[test]
fn pst_prefers_central_knight_over_corner() {
    let center = Board::parse("4k3/8/8/8/4N3/8/8/4K3 w - - 0 1");
    let corner = Board::parse("4k3/8/8/8/8/8/8/N3K3 w - - 0 1");
    assert!(eval(&center, EvalConfig::all()) > eval(&corner, EvalConfig::all()));
    assert_eq!(
        eval(&center, EvalConfig::material_only()),
        eval(&corner, EvalConfig::material_only())
    );
}

#[test]
fn game_phase_at_startpos_is_max() {
    let board = Board::parse("rnbqkbnr/pppppppp/8/8/8/8/PPPPPPPP/RNBQKBNR w KQkq - 0 1");
    assert_eq!(game_phase(&board), PHASE_MAX);
}

#[test]
fn game_phase_at_pure_king_pawn_is_zero() {
    let board = Board::parse("4k3/pppppppp/8/8/8/8/PPPPPPPP/4K3 w - - 0 1");
    assert_eq!(game_phase(&board), 0);
}

#[test]
fn endgame_king_prefers_center_over_corner() {
    let center = Board::parse("8/8/4k3/8/4K3/8/4P3/8 w - - 0 1");
    let corner = Board::parse("8/8/4k3/8/8/8/4P3/K7 w - - 0 1");
    assert!(eval(&center, EvalConfig::all()) > eval(&corner, EvalConfig::all()));
    assert_eq!(
        eval(&center, EvalConfig::material_only()),
        eval(&corner, EvalConfig::material_only())
    );
}

#[test]
fn tapered_pawn_prefers_advanced_pawn_in_endgame() {
    let advanced = Board::parse("4k3/P7/8/8/8/8/8/4K3 w - - 0 1");
    let starting = Board::parse("4k3/8/8/8/8/8/P7/4K3 w - - 0 1");
    assert!(eval(&advanced, EvalConfig::all()) > eval(&starting, EvalConfig::all()));
}

#[test]
fn tapered_rook_prefers_seventh_rank_in_endgame() {
    let seventh = Board::parse("4k3/R7/8/8/8/8/8/4K3 w - - 0 1");
    let first = Board::parse("4k3/8/8/8/8/8/8/R3K3 w - - 0 1");
    assert!(eval(&seventh, EvalConfig::all()) > eval(&first, EvalConfig::all()));
}

#[test]
fn mobility_prefers_open_bishop_over_blocked_bishop() {
    let open = Board::parse("4k3/8/8/8/2B5/8/8/4K3 w - - 0 1");
    let blocked = Board::parse("4k3/8/8/8/8/8/1P1P4/2B1K3 w - - 0 1");
    let m_open = term(|t| mobility(&open, t), PHASE_MAX);
    let m_blocked = term(|t| mobility(&blocked, t), PHASE_MAX);
    assert!(m_open > m_blocked, "open bishop mobility {} should exceed blocked {}", m_open, m_blocked);
}

#[test]
fn mobility_is_zero_at_startpos() {
    let board = Board::parse("rnbqkbnr/pppppppp/8/8/8/8/PPPPPPPP/RNBQKBNR w KQkq - 0 1");
    assert_eq!(term(|t| mobility(&board, t), PHASE_MAX), 0);
}

#[test]
fn pst_mirrors_for_black_pieces() {
    // White knight on d1 vs black knight on d8: exact negatives.
    let board = Board::parse("4k3/8/8/8/8/8/8/3NK3 w - - 0 1");
    let mirrored = Board::parse("3nk3/8/8/8/8/8/8/4K3 w - - 0 1");
    assert_eq!(eval(&board, no_development()), -eval(&mirrored, no_development()));
}

#[test]
fn development_counts_minors_at_home() {
    let developed = Board::parse(
        "rnbqkbnr/pppppppp/8/8/8/2N2N2/PPPPPPPP/R1BQKB1R w KQkq - 0 1",
    );
    let undeveloped =
        Board::parse("rnbqkbnr/pppppppp/8/8/8/8/PPPPPPPP/RNBQKBNR w KQkq - 0 1");
    // White-minus-black: white has two fewer minors at home.
    assert_eq!(count(UNDEVELOPED_MINOR, &developed, development_only()), -2);
    assert_eq!(count(UNDEVELOPED_MINOR, &undeveloped, development_only()), 0);
}

#[test]
fn development_flags_the_early_queen() {
    // White's queen is on b3 with every minor still at home.
    let queen_out =
        Board::parse("rnbqkbnr/pppppppp/8/8/8/1Q6/PPPPPPPP/RNB1KBNR w KQkq - 0 1");
    let queen_home =
        Board::parse("rnbqkbnr/pppppppp/8/8/8/8/PPPPPPPP/RNBQKBNR w KQkq - 0 1");
    assert_eq!(count(EARLY_QUEEN, &queen_out, development_only()), 4);
    assert_eq!(count(EARLY_QUEEN, &queen_home, development_only()), 0);
}

#[test]
fn tempo_belongs_to_the_side_to_move() {
    // Identical position, opposite side to move: each side sees +tempo.
    let white = Board::parse("4k3/8/8/8/8/8/8/4K3 w - - 0 1");
    let black = Board::parse("4k3/8/8/8/8/8/8/4K3 b - - 0 1");
    assert_eq!(eval(&white, development_only()), W[TEMPO][1]);
    assert_eq!(eval(&black, development_only()), W[TEMPO][1]);
}

#[test]
fn pawn_structure_penalizes_doubled_pawns() {
    let doubled = Board::parse("4k3/4p3/8/8/8/3P4/3P4/4K3 w - - 0 1");
    let spread = Board::parse("4k3/4p3/8/8/8/3P4/4P3/4K3 w - - 0 1");
    assert!(eval(&spread, pawn_only()) > eval(&doubled, pawn_only()));
}

#[test]
fn pawn_structure_penalizes_isolated_pawns() {
    let isolated = Board::parse("4k3/8/8/8/8/8/3P1P2/4K3 w - - 0 1");
    let connected = Board::parse("4k3/8/8/8/8/8/3PP3/4K3 w - - 0 1");
    assert!(eval(&connected, pawn_only()) > eval(&isolated, pawn_only()));
}

#[test]
fn pawn_structure_rewards_passed_pawn() {
    let blocked = Board::parse("4k3/3p4/8/3P4/8/8/8/4K3 w - - 0 1");
    let passer = Board::parse("4k3/p7/8/3P4/8/8/8/4K3 w - - 0 1");
    assert!(eval(&passer, pawn_only()) > eval(&blocked, pawn_only()));
}

#[test]
fn passed_pawn_bonus_amplified_in_endgame() {
    let board = Board::parse("4k3/8/8/3P4/8/8/8/4K3 w - - 0 1");
    let eg = term(|t| pawn_structure(&board, t), 0);
    let mg = term(|t| pawn_structure(&board, t), PHASE_MAX);
    assert!(eg > mg, "passer in EG ({}) should beat MG ({})", eg, mg);
}

#[test]
fn pawn_structure_toggle_changes_score() {
    let doubled = Board::parse("4k3/4p3/8/8/8/3P4/3P4/4K3 w - - 0 1");
    assert_ne!(
        eval(&doubled, pawn_only()),
        eval(&doubled, EvalConfig::material_only())
    );
}

#[test]
fn bishop_pair_detects_two_bishops() {
    let pair = W[BISHOP_PAIR][0];
    let white_pair = Board::parse("4k3/8/8/8/8/8/8/2B1KB2 w - - 0 1");
    assert_eq!(term(|t| bishop_pair(&white_pair, t), PHASE_MAX), pair);
    let black_pair = Board::parse("2b1kb2/8/8/8/8/8/8/4K3 w - - 0 1");
    assert_eq!(term(|t| bishop_pair(&black_pair, t), PHASE_MAX), -pair);
    let one_each = Board::parse("4kb2/8/8/8/8/8/8/2B1K3 w - - 0 1");
    assert_eq!(term(|t| bishop_pair(&one_each, t), PHASE_MAX), 0);
}

#[test]
fn king_safety_rewards_intact_pawn_shield() {
    let sheltered = Board::parse("4k3/8/8/8/8/8/5PPP/6K1 w - - 0 1");
    let exposed = Board::parse("4k3/8/8/8/8/8/8/6K1 w - - 0 1");
    assert!(
        term(|t| king_safety(&sheltered, t), PHASE_MAX)
            > term(|t| king_safety(&exposed, t), PHASE_MAX)
    );
}

#[test]
fn king_safety_ignores_king_off_home_rank() {
    let marched = Board::parse("4k3/8/8/8/8/5PPP/6K1/8 w - - 0 1");
    assert_eq!(term(|t| king_safety(&marched, t), PHASE_MAX), 0);
}

#[test]
fn king_safety_counts_the_shield() {
    let board = Board::parse("r3k3/8/8/8/8/8/5PPP/R5K1 w - - 0 1");
    assert_eq!(count(SHIELD_PAWN_HOME, &board, king_safety_only()), 3);
    assert_eq!(count(SHIELD_PAWN_HOME, &board, EvalConfig::material_only()), 0);
}
