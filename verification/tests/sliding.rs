use torte::bitboard::Bitboard;
use torte::sliding::{bishop_attacks, queen_attacks, rook_attacks};
use torte::sq::SQ;
fn bit_at(rank: u8, file: u8) -> u64 {
    1u64 << (rank * 8 + file)
}

fn squares_bb(squares: &[(u8, u8)]) -> Bitboard {
    let mut bb: u64 = 0;
    for &(r, f) in squares {
        bb |= bit_at(r, f);
    }
    Bitboard::from_u64(bb)
}

#[test]
fn rook_a1_empty_board() {
    // Rook on a1, empty board: full a-file (above) + full first rank (right of a1).
    let empty = Bitboard::from_u64(0);
    let attacks = rook_attacks(SQ::make(0, 0), empty);
    let expected = squares_bb(&[
        (0, 1), (0, 2), (0, 3), (0, 4), (0, 5), (0, 6), (0, 7),
        (1, 0), (2, 0), (3, 0), (4, 0), (5, 0), (6, 0), (7, 0),
    ]);
    assert_eq!(attacks, expected);
}

#[test]
fn rook_d4_with_blockers() {
    // Rook on d4 (rank 3, file 3). Blocker on d6 (rank 5) and on b4 (file 1).
    // Expected attacks: d3, d2, d1, d5, d6 (incl), c4, b4 (incl), e4, f4, g4, h4.
    let occ = Bitboard::from_u64(bit_at(5, 3) | bit_at(3, 1));
    let attacks = rook_attacks(SQ::make(3, 3), occ);
    let expected = squares_bb(&[
        (2, 3), (1, 3), (0, 3),
        (4, 3), (5, 3),
        (3, 2), (3, 1),
        (3, 4), (3, 5), (3, 6), (3, 7),
    ]);
    assert_eq!(attacks, expected);
}

#[test]
fn bishop_d4_empty() {
    // d4 = (3, 3). Diagonals: a1-h8 and a7-g1.
    let empty = Bitboard::from_u64(0);
    let attacks = bishop_attacks(SQ::make(3, 3), empty);
    let expected = squares_bb(&[
        (0, 0), (1, 1), (2, 2), (4, 4), (5, 5), (6, 6), (7, 7),
        (4, 2), (5, 1), (6, 0),
        (2, 4), (1, 5), (0, 6),
        (0, 6), // dup ok
        (2, 4),
        (4, 2),
        (4, 4),
    ]);
    assert_eq!(attacks, expected);
}

#[test]
fn bishop_with_blocker() {
    // Bishop on c1 (rank 0, file 2). Blocker on f4 (rank 3, file 5).
    // NE ray: d2, e3, f4 (incl, blocked). NW ray: b2, a3. SE/SW: empty.
    let occ = Bitboard::from_u64(bit_at(3, 5));
    let attacks = bishop_attacks(SQ::make(0, 2), occ);
    let expected = squares_bb(&[(1, 3), (2, 4), (3, 5), (1, 1), (2, 0)]);
    assert_eq!(attacks, expected);
}

#[test]
fn queen_combines_rook_and_bishop() {
    // Sanity: queen attacks = rook | bishop.
    let occ = Bitboard::from_u64(bit_at(2, 2) | bit_at(5, 5));
    let sq = SQ::make(3, 3);
    let q = queen_attacks(sq, occ);
    let r = rook_attacks(sq, occ);
    let b = bishop_attacks(sq, occ);
    assert_eq!(q, Bitboard::from_u64(r.board | b.board));
}

#[test]
fn rook_corner_h8() {
    // Rook on h8, blocker on h5 and on c8. Attacks: h7, h6, h5 (incl), g8, f8, e8, d8, c8 (incl).
    let occ = Bitboard::from_u64(bit_at(4, 7) | bit_at(7, 2));
    let attacks = rook_attacks(SQ::make(7, 7), occ);
    let expected = squares_bb(&[
        (6, 7), (5, 7), (4, 7),
        (7, 6), (7, 5), (7, 4), (7, 3), (7, 2),
    ]);
    assert_eq!(attacks, expected);
}
