use torte::board::Board;
use torte::transposition::{zobrist_hash, Bound, TTEntry, TranspositionTable};
fn b(fen: &str) -> Board {
    Board::parse(fen)
}

#[test]
fn hash_is_deterministic() {
    let board = b("rnbqkbnr/pppppppp/8/8/8/8/PPPPPPPP/RNBQKBNR w KQkq - 0 1");
    assert_eq!(zobrist_hash(&board), zobrist_hash(&board));
}

#[test]
fn hash_changes_with_side_to_move() {
    let w = b("rnbqkbnr/pppppppp/8/8/8/8/PPPPPPPP/RNBQKBNR w KQkq - 0 1");
    let bl = b("rnbqkbnr/pppppppp/8/8/8/8/PPPPPPPP/RNBQKBNR b KQkq - 0 1");
    assert_ne!(zobrist_hash(&w), zobrist_hash(&bl));
}

#[test]
fn hash_changes_after_move() {
    let mut board = b("rnbqkbnr/pppppppp/8/8/8/8/PPPPPPPP/RNBQKBNR w KQkq - 0 1");
    let h1 = zobrist_hash(&board);
    board.apply_uci_move("e2e4").unwrap();
    let h2 = zobrist_hash(&board);
    assert_ne!(h1, h2);
}

#[test]
fn hash_changes_with_castling_rights() {
    let full = b("r3k2r/8/8/8/8/8/8/R3K2R w KQkq - 0 1");
    let none = b("r3k2r/8/8/8/8/8/8/R3K2R w - - 0 1");
    assert_ne!(zobrist_hash(&full), zobrist_hash(&none));
}

#[test]
fn tt_capacity_is_power_of_two() {
    let tt = TranspositionTable::new(1);
    assert!(tt.capacity().is_power_of_two());
}

#[test]
fn tt_probe_miss_returns_none() {
    let tt = TranspositionTable::new(1);
    assert!(tt.probe(0xDEAD_BEEF).is_none());
}

#[test]
fn tt_store_then_probe_hit() {
    let mut tt = TranspositionTable::new(1);
    tt.store(TTEntry {
        key: 0x1234_5678,
        score: 42,
        best_move: None,
        depth: 5,
        bound: Bound::Exact,
    });
    let entry = tt.probe(0x1234_5678).unwrap();
    assert_eq!(entry.score, 42);
    assert_eq!(entry.depth, 5);
    assert_eq!(entry.bound, Bound::Exact);
}

#[test]
fn tt_clear_evicts_entries() {
    let mut tt = TranspositionTable::new(1);
    tt.store(TTEntry {
        key: 0x1234,
        score: 7,
        best_move: None,
        depth: 1,
        bound: Bound::Exact,
    });
    assert!(tt.probe(0x1234).is_some());
    tt.clear();
    assert!(tt.probe(0x1234).is_none());
}
