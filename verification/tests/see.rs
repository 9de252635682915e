use torte::board::Board;
use torte::eval::PIECE_VALUES;
use torte::piece_move::Move;
use torte::see::see;
use torte::sliding;
fn pos(fen: &str) -> Board {
    sliding::init();
    Board::parse(fen)
}

#[test]
fn free_pawn_is_worth_a_pawn() {
    // Rook takes an undefended pawn.
    let board = pos("4k3/8/8/3p4/8/8/8/3RK3 w - - 0 1");
    assert_eq!(see(&board, Move::from_uci("d1d5")), PIECE_VALUES[0]);
}

#[test]
fn defended_pawn_loses_the_rook() {
    // Rxd5 is met by cxd5: we win a pawn and lose a rook. The defending
    // pawn has to be on c6 — a c7 pawn attacks b6/d6, not d5.
    let board = pos("4k3/8/2p5/3p4/8/8/8/3RK3 w - - 0 1");
    assert_eq!(see(&board, Move::from_uci("d1d5")), PIECE_VALUES[0] - PIECE_VALUES[3]);
}

#[test]
fn equal_trade_is_zero() {
    // Rooks trade on d5, each side recapturing once.
    let board = pos("3rk3/8/8/3r4/8/8/8/3RK2R w - - 0 1");
    assert_eq!(see(&board, Move::from_uci("d1d5")), 0);
}

#[test]
fn defending_king_cannot_recapture_into_a_defended_square() {
    // Rxd5 and the black king is the only defender — but the c4 pawn
    // covers d5, so Kxd5 is illegal and white simply wins the pawn.
    // Without that rule the exchange reads as rook-for-pawn.
    let board = pos("8/8/4k3/3p4/2P5/8/8/3RK3 w - - 0 1");
    assert_eq!(see(&board, Move::from_uci("d1d5")), PIECE_VALUES[0]);
}

#[test]
fn xray_behind_the_first_rook_joins_the_exchange() {
    // White rooks doubled on the d-file: the second one is why RxR works.
    let board = pos("3rk3/8/8/3r4/8/8/3R4/3RK3 w - - 0 1");
    assert_eq!(see(&board, Move::from_uci("d2d5")), PIECE_VALUES[3]);
}
