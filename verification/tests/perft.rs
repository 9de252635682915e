use torte::board::Board;
use torte::perft::perft;
use torte::sliding;
const STARTPOS: &str = "rnbqkbnr/pppppppp/8/8/8/8/PPPPPPPP/RNBQKBNR w KQkq - 0 1";
const KIWIPETE: &str =
    "r3k2r/p1ppqpb1/bn2pnp1/3PN3/1p2P3/2N2Q1p/PPPBBPPP/R3K2R w KQkq - 0 1";

fn pos(fen: &str) -> Board {
    sliding::init();
    Board::parse(fen)
}

#[test]
fn perft_startpos_d1() {
    assert_eq!(perft(&pos(STARTPOS), 1), 20);
}

#[test]
fn perft_startpos_d2() {
    assert_eq!(perft(&pos(STARTPOS), 2), 400);
}

#[test]
fn perft_startpos_d3() {
    assert_eq!(perft(&pos(STARTPOS), 3), 8902);
}

#[test]
fn perft_startpos_d4() {
    assert_eq!(perft(&pos(STARTPOS), 4), 197281);
}


#[test]
fn perft_kiwipete_d1() {
    assert_eq!(perft(&pos(KIWIPETE), 1), 48);
}

#[test]
fn perft_kiwipete_d2() {
    assert_eq!(perft(&pos(KIWIPETE), 2), 2039);
}

