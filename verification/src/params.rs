use vstd::prelude::*;

verus! {

/// Evaluation weights as `[middlegame, endgame]` centipawn pairs, indexed by the
/// term offsets of `eval`.
pub const W: [[i32; 2]; 410] = [
    // material: P N B R Q K
    [100, 100], [320, 320], [330, 330], [500, 500], [900, 900], [0, 0],
    // pawn piece-square table, a1..h8
    [0, 0], [0, 0], [0, 0], [0, 0], [0, 0], [0, 0], [0, 0], [0, 0],
    [5, 0], [10, 0], [10, 0], [-20, 0], [-20, 0], [10, 0], [10, 0], [5, 0],
    [5, 10], [-5, 10], [-10, 10], [0, 10], [0, 10], [-10, 10], [-5, 10], [5, 10],
    [0, 20], [0, 20], [0, 20], [20, 20], [20, 20], [0, 20], [0, 20], [0, 20],
    [5, 30], [5, 30], [10, 30], [25, 30], [25, 30], [10, 30], [5, 30], [5, 30],
    [10, 50], [10, 50], [20, 50], [30, 50], [30, 50], [20, 50], [10, 50], [10, 50],
    [50, 80], [50, 80], [50, 80], [50, 80], [50, 80], [50, 80], [50, 80], [50, 80],
    [0, 0], [0, 0], [0, 0], [0, 0], [0, 0], [0, 0], [0, 0], [0, 0],
    // knight piece-square table, a1..h8
    [-50, -50], [-40, -40], [-30, -30], [-30, -30], [-30, -30], [-30, -30], [-40, -40], [-50, -50],
    [-40, -40], [-20, -20], [0, 0], [5, 5], [5, 5], [0, 0], [-20, -20], [-40, -40],
    [-30, -30], [5, 5], [10, 10], [15, 15], [15, 15], [10, 10], [5, 5], [-30, -30],
    [-30, -30], [0, 0], [15, 15], [20, 20], [20, 20], [15, 15], [0, 0], [-30, -30],
    [-30, -30], [5, 5], [15, 15], [20, 20], [20, 20], [15, 15], [5, 5], [-30, -30],
    [-30, -30], [0, 0], [10, 10], [15, 15], [15, 15], [10, 10], [0, 0], [-30, -30],
    [-40, -40], [-20, -20], [0, 0], [0, 0], [0, 0], [0, 0], [-20, -20], [-40, -40],
    [-50, -50], [-40, -40], [-30, -30], [-30, -30], [-30, -30], [-30, -30], [-40, -40], [-50, -50],
    // bishop piece-square table, a1..h8
    [-20, -20], [-10, -10], [-10, -10], [-10, -10], [-10, -10], [-10, -10], [-10, -10], [-20, -20],
    [-10, -10], [5, 5], [0, 0], [0, 0], [0, 0], [0, 0], [5, 5], [-10, -10],
    [-10, -10], [10, 10], [10, 10], [10, 10], [10, 10], [10, 10], [10, 10], [-10, -10],
    [-10, -10], [0, 0], [10, 10], [10, 10], [10, 10], [10, 10], [0, 0], [-10, -10],
    [-10, -10], [5, 5], [5, 5], [10, 10], [10, 10], [5, 5], [5, 5], [-10, -10],
    [-10, -10], [0, 0], [5, 5], [10, 10], [10, 10], [5, 5], [0, 0], [-10, -10],
    [-10, -10], [0, 0], [0, 0], [0, 0], [0, 0], [0, 0], [0, 0], [-10, -10],
    [-20, -20], [-10, -10], [-10, -10], [-10, -10], [-10, -10], [-10, -10], [-10, -10], [-20, -20],
    // rook piece-square table, a1..h8
    [0, 0], [0, 0], [0, 0], [5, 0], [5, 0], [0, 0], [0, 0], [0, 0],
    [-5, 0], [0, 0], [0, 0], [0, 0], [0, 0], [0, 0], [0, 0], [-5, 0],
    [-5, 0], [0, 0], [0, 0], [0, 0], [0, 0], [0, 0], [0, 0], [-5, 0],
    [-5, 0], [0, 0], [0, 0], [0, 0], [0, 0], [0, 0], [0, 0], [-5, 0],
    [-5, 0], [0, 0], [0, 0], [0, 0], [0, 0], [0, 0], [0, 0], [-5, 0],
    [-5, 5], [0, 5], [0, 5], [0, 5], [0, 5], [0, 5], [0, 5], [-5, 5],
    [5, 20], [10, 20], [10, 20], [10, 20], [10, 20], [10, 20], [10, 20], [5, 20],
    [0, 10], [0, 10], [0, 10], [0, 10], [0, 10], [0, 10], [0, 10], [0, 10],
    // queen piece-square table, a1..h8
    [-20, -20], [-10, -10], [-10, -10], [-5, -5], [-5, -5], [-10, -10], [-10, -10], [-20, -20],
    [-10, -10], [0, 0], [5, 5], [0, 0], [0, 0], [0, 0], [0, 0], [-10, -10],
    [-10, -10], [5, 5], [5, 5], [5, 5], [5, 5], [5, 5], [0, 0], [-10, -10],
    [0, 0], [0, 0], [5, 5], [5, 5], [5, 5], [5, 5], [0, 0], [-5, -5],
    [-5, -5], [0, 0], [5, 5], [5, 5], [5, 5], [5, 5], [0, 0], [-5, -5],
    [-10, -10], [0, 0], [5, 5], [5, 5], [5, 5], [5, 5], [0, 0], [-10, -10],
    [-10, -10], [0, 0], [0, 0], [0, 0], [0, 0], [0, 0], [0, 0], [-10, -10],
    [-20, -20], [-10, -10], [-10, -10], [-5, -5], [-5, -5], [-10, -10], [-10, -10], [-20, -20],
    // king piece-square table, a1..h8
    [20, -50], [30, -30], [10, -30], [0, -30], [0, -30], [10, -30], [30, -30], [20, -50],
    [20, -30], [20, -30], [0, 0], [0, 0], [0, 0], [0, 0], [20, -30], [20, -30],
    [-10, -30], [-20, -10], [-20, 20], [-20, 30], [-20, 30], [-20, 20], [-20, -10], [-10, -30],
    [-20, -30], [-30, -10], [-30, 30], [-40, 40], [-40, 40], [-30, 30], [-30, -10], [-20, -30],
    [-30, -30], [-40, -10], [-40, 30], [-50, 40], [-50, 40], [-40, 30], [-40, -10], [-30, -30],
    [-30, -30], [-40, -10], [-40, 20], [-50, 30], [-50, 30], [-40, 20], [-40, -10], [-30, -30],
    [-30, -30], [-40, -20], [-40, -10], [-50, 0], [-50, 0], [-40, -10], [-40, -20], [-30, -30],
    [-30, -50], [-40, -40], [-40, -30], [-50, -20], [-50, -20], [-40, -30], [-40, -40], [-30, -50],
    // mobility per attacked square: N B R Q
    [4, 4], [3, 3], [2, 4], [1, 2],
    // doubled pawn (per extra pawn on a file)
    [-15, -15],
    // isolated pawn
    [-15, -15],
    // passed pawn by rank from its own side
    [0, 0], [5, 10], [10, 20], [15, 30], [25, 50], [40, 80], [60, 120], [0, 0],
    // bishop pair
    [30, 50],
    // king shield pawn: on its home rank, advanced one
    [10, 0], [5, 0],
    // undeveloped minor
    [-10, 0],
    // early queen (per undeveloped minor)
    [-8, 0],
    // tempo
    [10, 10],
];

/// Every weight lies within a thousand centipawns.
pub proof fn lemma_weights_bounded()
    ensures
        forall|i: int| 0 <= i < 410 ==> -1000 <= #[trigger] W[i][0] <= 1000 && -1000 <= W[i][1] <= 1000,
{
}

} // verus!
