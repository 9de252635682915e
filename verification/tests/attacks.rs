use torte::attacks::{king_attacks, knight_attacks, pawn_attacks};
use torte::bitboard::Bitboard;
use torte::pieces::Color;
use torte::sq::SQ;
fn bb_of(squares: &[(u8, u8)]) -> Bitboard {
    let mut bb: u64 = 0;
    for (rank, file) in squares {
        bb |= 1u64 << (rank * 8 + file);
    }
    Bitboard::from_u64(bb)
}

#[test]
fn knight_corner_a1() {
    // Knight on a1 attacks b3 and c2.
    assert_eq!(
        knight_attacks(SQ::make(0, 0)),
        bb_of(&[(2, 1), (1, 2)])
    );
}

#[test]
fn knight_center_d4() {
    // d4 = (rank 3, file 3). Knight has 8 attacks: b3, b5, c2, c6, e2, e6, f3, f5.
    let expected = bb_of(&[
        (2, 1),
        (4, 1),
        (1, 2),
        (5, 2),
        (1, 4),
        (5, 4),
        (2, 5),
        (4, 5),
    ]);
    assert_eq!(knight_attacks(SQ::make(3, 3)), expected);
}

#[test]
fn king_corner_h8() {
    // King on h8 attacks g7, g8, h7.
    assert_eq!(
        king_attacks(SQ::make(7, 7)),
        bb_of(&[(6, 6), (7, 6), (6, 7)])
    );
}

#[test]
fn king_center_e4() {
    // 8 surrounding squares.
    let e4 = SQ::make(3, 4);
    assert_eq!(king_attacks(e4).count(), 8);
}

#[test]
fn white_pawn_attacks_e2() {
    // White pawn on e2 attacks d3 and f3.
    assert_eq!(
        pawn_attacks(SQ::make(1, 4), Color::White),
        bb_of(&[(2, 3), (2, 5)])
    );
}

#[test]
fn black_pawn_attacks_e7() {
    // Black pawn on e7 attacks d6 and f6.
    assert_eq!(
        pawn_attacks(SQ::make(6, 4), Color::Black),
        bb_of(&[(5, 3), (5, 5)])
    );
}

#[test]
fn pawn_attacks_a_file_no_wrap() {
    // White pawn on a4 attacks only b5, never h5.
    assert_eq!(
        pawn_attacks(SQ::make(3, 0), Color::White),
        bb_of(&[(4, 1)])
    );
}
