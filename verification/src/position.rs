use vstd::prelude::*;
use crate::attacks::pawn_targets;
use crate::board::{Board, holder, holder_in, lemma_holder_from, lemma_holder_in, rook_jump, king_rights, rook_right};
use crate::generator::{
    attacked, king_safe, king_sq,
    base, castle_move, gen_distinct, gen_ok, kind_move, legal, occupied, pawn_capture, pawn_double_push, pawn_ep,
    pawn_push, piece_move, piece_targets, pseudo_legal,
};
use crate::piece_move::Move;
use crate::pieces::Color;
use crate::sq::SQ;

verus! {

/// The squares of side `c`'s six piece sets.
pub open spec fn side_pieces(b: Board, c: int) -> Set<int> {
    b.bbs[6 * c]@ + b.bbs[6 * c + 1]@ + b.bbs[6 * c + 2]@ + b.bbs[6 * c + 3]@ + b.bbs[6 * c + 4]@ + b.bbs[6
        * c + 5]@
}

/// The en-passant square, if any, is the empty square a pawn of the side not
/// to move has just passed over.
pub open spec fn ep_consistent(b: Board) -> bool {
    match b.en_passant {
        None => true,
        Some(e) => {
            &&& !occupied(b).contains(e.0 as int)
            &&& {
                ||| (16 <= e.0 < 24 && b.side_to_move == Color::Black && b.bbs[0]@.contains(e.0 + 8))
                ||| (40 <= e.0 < 48 && b.side_to_move == Color::White && b.bbs[6]@.contains(e.0 - 8))
            }
        },
    }
}

/// Each castling right is backed by the king on its home square and the rook on
/// its corner.
pub open spec fn castling_consistent(b: Board) -> bool {
    let c = b.castling.0;
    &&& c & 1 != 0 ==> b.bbs[5]@.contains(4) && b.bbs[3]@.contains(7)
    &&& c & 2 != 0 ==> b.bbs[5]@.contains(4) && b.bbs[3]@.contains(0)
    &&& c & 4 != 0 ==> b.bbs[11]@.contains(60) && b.bbs[9]@.contains(63)
    &&& c & 8 != 0 ==> b.bbs[11]@.contains(60) && b.bbs[9]@.contains(56)
}

/// Side `c` has at most one king.
pub open spec fn one_king(b: Board, c: int) -> bool {
    forall|s1: int, s2: int| #[trigger] b.bbs[6 * c + 5]@.contains(s1) && #[trigger] b.bbs[6 * c + 5]@.contains(s2) ==> s1 == s2
}

/// A well-formed position: no square holds two pieces, the colour sets are the
/// unions of their piece sets, no pawn stands on the first or last rank, the
/// en-passant square and the castling rights agree with the pieces, each side
/// has at most one king, and the side that just moved is not in check.
pub open spec fn wf(b: Board) -> bool {
    &&& forall|i: int, j: int|
        0 <= i < 12 && 0 <= j < 12 && i != j ==> (#[trigger] b.bbs[i]@).disjoint(#[trigger] b.bbs[j]@)
    &&& forall|c: int| 0 <= c < 2 ==> #[trigger] b.player_bbs[c]@ == side_pieces(b, c)
    &&& forall|s: int| #[trigger] b.bbs[0]@.contains(s) ==> 8 <= s < 56
    &&& forall|s: int| #[trigger] b.bbs[6]@.contains(s) ==> 8 <= s < 56
    &&& ep_consistent(b)
    &&& castling_consistent(b)
    &&& one_king(b, 0)
    &&& one_king(b, 1)
    &&& king_safe(b, b.side_to_move.other())
}

/// The clocks have room for `n` more moves.
pub open spec fn clocks_ok(b: Board, n: int) -> bool {
    b.halfmove_clock + n < 65535 && b.fullmove_number + n < 65535
}

/// In a well-formed position the piece on a square is the one whose set holds it.
pub proof fn lemma_wf_holder(b: Board, k: int, s: int)
    requires
        wf(b),
        0 <= k < 12,
        b.bbs[k]@.contains(s),
    ensures
        holder(b, s) == Some(k),
{
    assert forall|j: int| 0 <= j < k implies !(#[trigger] b.bbs[j]@).contains(s) by {
        assert(b.bbs[j]@.disjoint(b.bbs[k]@));
    }
    lemma_holder_from(b, s, 0, k);
}

/// In a well-formed position an empty square has no holder, and a square of a
/// colour set is held by a piece of that colour.
pub proof fn lemma_wf_occupancy(b: Board, s: int)
    requires
        wf(b),
    ensures
        !occupied(b).contains(s) ==> holder(b, s) is None,
        forall|c: int| 0 <= c < 2 ==> (#[trigger] b.player_bbs[c]@.contains(s) <==> exists|k: int|
            6 * c <= k < 6 * c + 6 && #[trigger] b.bbs[k]@.contains(s)),
{
    assert(b.player_bbs[0]@ == side_pieces(b, 0));
    assert(b.player_bbs[1]@ == side_pieces(b, 1));
    if !occupied(b).contains(s) {
        assert forall|j: int| 0 <= j < 12 implies !(#[trigger] b.bbs[j]@).contains(s) by {}
        lemma_holder_from(b, s, 0, 12);
    }
    assert forall|c: int| 0 <= c < 2 implies (#[trigger] b.player_bbs[c]@.contains(s) <==> exists|k: int|
        6 * c <= k < 6 * c + 6 && #[trigger] b.bbs[k]@.contains(s)) by {
        if b.player_bbs[c]@.contains(s) {
            if b.bbs[6 * c]@.contains(s) {
                assert(b.bbs[6 * c]@.contains(s));
            } else if b.bbs[6 * c + 1]@.contains(s) {
                assert(b.bbs[6 * c + 1]@.contains(s));
            } else if b.bbs[6 * c + 2]@.contains(s) {
                assert(b.bbs[6 * c + 2]@.contains(s));
            } else if b.bbs[6 * c + 3]@.contains(s) {
                assert(b.bbs[6 * c + 3]@.contains(s));
            } else if b.bbs[6 * c + 4]@.contains(s) {
                assert(b.bbs[6 * c + 4]@.contains(s));
            } else {
                assert(b.bbs[6 * c + 5]@.contains(s));
            }
        }
    }
}

/// Targets of every piece kind lie on the board.
pub proof fn lemma_piece_targets_on_board(b: Board, kind: int, f: int)
    ensures
        forall|t: int| #[trigger] piece_targets(b, kind, f).contains(t) ==> 0 <= t < 64,
{
    crate::sliding::lemma_slider_targets_on_board(f, occupied(b));
}

/// Facts about a pseudo-legal move in a well-formed position: its piece is the
/// one of the side to move whose set holds the source square (castling from an
/// empty home square aside), and it lands on the board.
pub proof fn lemma_pseudo_facts(b: Board, m: Move)
    requires
        wf(b),
        pseudo_legal(b, m),
    ensures
        m.src.0 < 64,
        m.dest.0 < 64,
        holder(b, m.src.0 as int) matches Some(k) ==> b.piece_of(m).side() == b.side_to_move,
        castle_move(b, b.side_to_move, m) ==> (holder(b, m.src.0 as int) matches Some(k) ==> k % 6 != 0),
        pawn_push(b, b.side_to_move, m) || pawn_double_push(b, b.side_to_move, m) || pawn_capture(b, b.side_to_move, m) || pawn_ep(b, b.side_to_move, m)
            ==> holder(b, m.src.0 as int) == Some(base(b.side_to_move)),
        piece_move(b, b.side_to_move, m) ==> exists|k: int| 1 <= k <= 5 && holder(b, m.src.0 as int) == Some(base(b.side_to_move) + k) && #[trigger] kind_move(b, b.side_to_move, k, m),
{
    let c = b.side_to_move;
    let f = m.src.0 as int;
    let t = m.dest.0 as int;
    if pawn_push(b, c, m) || pawn_double_push(b, c, m) || pawn_capture(b, c, m) || pawn_ep(b, c, m) {
        lemma_wf_holder(b, base(c), f);
    }
    if piece_move(b, c, m) {
        let k = choose|kind: int|
            1 <= kind <= 5 && #[trigger] b.bbs[base(c) + kind]@.contains(f) && piece_targets(b, kind, f).contains(t);
        lemma_wf_holder(b, base(c) + k, f);
        lemma_piece_targets_on_board(b, k, f);
        assert(kind_move(b, c, k, m));
    }
    if castle_move(b, c, m) {
        if let Some(k) = holder(b, f) {
            crate::board::lemma_holder_some(b, f, 0);
            if k % 6 == 0 {
                assert(b.bbs[k]@.contains(f));
            }
        }
    }
    if let Some(k) = holder(b, f) {
        crate::board::lemma_holder_some(b, f, 0);
    }
}

/// In a well-formed position the generator lists every legal move once:
/// nothing it needs to keep its moves apart can fail.
pub proof fn lemma_wf_gen_distinct(b: Board)
    requires
        wf(b),
    ensures
        gen_distinct(b),
{
}

/// A well-formed position with room on its clocks can be handed to the generator.
pub proof fn lemma_wf_gen_ok(b: Board)
    requires
        wf(b),
        clocks_ok(b, 1),
    ensures
        gen_ok(b),
{
    assert forall|m: Move| pseudo_legal(b, m) implies b.move_applicable(m) by {
        lemma_pseudo_facts(b, m);
        let c = b.side_to_move;
        let f = m.src.0 as int;
        let t = m.dest.0 as int;
        if holder(b, f) is Some {
            if b.is_ep_capture(m) || b.is_double_push(m) {
                assert(b.moves_pawn(m));
                if piece_move(b, c, m) {
                    let k = choose|k: int| 1 <= k <= 5 && holder(b, f) == Some(base(c) + k) && #[trigger] kind_move(b, c, k, m);
                    assert(b.slot_of(m) == base(c) + k);
                    assert(false);
                }
                if castle_move(b, c, m) && !(pawn_push(b, c, m) || pawn_double_push(b, c, m) || pawn_capture(b, c, m) || pawn_ep(b, c, m)) {
                    assert(b.slot_of(m) % 6 != 0);
                    assert(false);
                }
            }
        }
    }
}

/// Home square of side `c`'s king.
pub open spec fn home(c: Color) -> int {
    if c == Color::White {
        4
    } else {
        60
    }
}

/// What a legal move in a well-formed position does, in terms of squares.
pub proof fn lemma_legal_facts(b: Board, m: Move)
    requires
        wf(b),
        legal(b, m),
    ensures
        ({
            let c = b.side_to_move;
            let f = m.src.0 as int;
            let t = m.dest.0 as int;
            let k = b.slot_of(m);
            &&& holder(b, f) is Some
            &&& 6 * c.index() <= k < 6 * c.index() + 6
            &&& b.bbs[k]@.contains(f)
            &&& b.mover(m) == c
            &&& 0 <= f < 64 && 0 <= t < 64 && f != t
            &&& !side_pieces(b, c.index()).contains(t)
            &&& 6 * c.index() <= b.landing_slot(m) < 6 * c.index() + 6
            &&& b.is_ep_capture(m) ==> {
                &&& !occupied(b).contains(t)
                &&& b.bbs[6 * c.other().index()]@.contains(b.ep_victim(m))
            }
            &&& b.is_castle(m) ==> {
                let (rf, rt) = rook_jump(c, m.dest.file());
                &&& f == home(c)
                &&& (t == home(c) + 2 && rf == home(c) + 3 && rt == home(c) + 1) || (t == home(c) - 2
                    && rf == home(c) - 4 && rt == home(c) - 1)
                &&& b.bbs[6 * c.index() + 3]@.contains(rf)
                &&& !occupied(b).contains(rt)
                &&& !occupied(b).contains(t)
            }
            &&& (b.moves_pawn(m) && m.promotion is None) ==> 8 <= t < 56
            &&& b.is_double_push(m) ==> pawn_double_push(b, c, m)
        }),
{
    let c = b.side_to_move;
    let f = m.src.0 as int;
    let t = m.dest.0 as int;
    lemma_pseudo_facts(b, m);
    crate::board::lemma_holder_some(b, f, 0);
    let k = b.slot_of(m);
    assert(b.player_bbs[0]@ == side_pieces(b, 0));
    assert(b.player_bbs[1]@ == side_pieces(b, 1));
    lemma_wf_occupancy(b, t);
    let pawnish = pawn_push(b, c, m) || pawn_double_push(b, c, m) || pawn_capture(b, c, m) || pawn_ep(b, c, m);
    if pawnish {
        assert(k == base(c));
    }
    if piece_move(b, c, m) && !pawnish {
        let kk = choose|kk: int| 1 <= kk <= 5 && holder(b, f) == Some(base(c) + kk) && #[trigger] kind_move(b, c, kk, m);
        assert(k == base(c) + kk);
        crate::position::lemma_piece_targets_on_board(b, kk, f);
        if kk == 1 || kk == 5 {
            assert(f != t);
        } else {
            crate::sliding::lemma_ray_excludes_origin(f, occupied(b));
        }
    }
    if pawn_capture(b, c, m) {
        assert(b.player_bbs[c.other().index()]@.contains(t));
        if side_pieces(b, c.index()).contains(t) {
            let j = choose|j: int| 6 * c.other().index() <= j < 6 * c.other().index() + 6 && #[trigger] b.bbs[j]@.contains(t);
            let i = choose|i: int| 6 * c.index() <= i < 6 * c.index() + 6 && #[trigger] b.bbs[i]@.contains(t);
            assert(b.bbs[i]@.disjoint(b.bbs[j]@));
        }
    }
    if b.is_ep_capture(m) {
        assert(b.moves_pawn(m));
        assert(pawnish);
        assert(b.en_passant == Some(m.dest));
    }
    if b.is_castle(m) {
        assert(b.moves_king(m));
        assert(k == base(c) + 5);
        assert(castle_move(b, c, m));
    }
}

/// A pseudo-legal move onto an enemy piece is an attack on that square.
pub proof fn lemma_capture_attacks(b: Board, m: Move)
    requires
        wf(b),
        pseudo_legal(b, m),
        side_pieces(b, b.side_to_move.other().index()).contains(m.dest.0 as int),
    ensures
        attacked(b, m.dest.0 as int, b.side_to_move),
{
    let c = b.side_to_move;
    let f = m.src.0 as int;
    let t = m.dest.0 as int;
    let o = base(c);
    lemma_pseudo_facts(b, m);
    assert(b.player_bbs[0]@ == side_pieces(b, 0));
    assert(b.player_bbs[1]@ == side_pieces(b, 1));
    assert(occupied(b).contains(t));
    if pawn_capture(b, c, m) {
        assert(crate::attacks::pawn_targets(c.other(), t).contains(f));
        assert(crate::attacks::pawn_targets(c.other(), t).intersect(b.bbs[o]@).contains(f));
    } else if piece_move(b, c, m) {
        let k = choose|k: int| 1 <= k <= 5 && holder(b, f) == Some(base(c) + k) && #[trigger] kind_move(b, c, k, m);
        crate::board::lemma_holder_some(b, f, 0);
        crate::sliding::lemma_targets_symmetric(f, t, occupied(b));
        if k == 1 {
            assert(crate::attacks::knight_targets(t).intersect(b.bbs[o + 1]@).contains(f));
        } else if k == 2 {
            assert(crate::sliding::bishop_targets(t, occupied(b)).intersect(b.bbs[o + 2]@ + b.bbs[o + 4]@).contains(f));
        } else if k == 3 {
            assert(crate::sliding::rook_targets(t, occupied(b)).intersect(b.bbs[o + 3]@ + b.bbs[o + 4]@).contains(f));
        } else if k == 4 {
            if crate::sliding::rook_targets(f, occupied(b)).contains(t) {
                assert(crate::sliding::rook_targets(t, occupied(b)).intersect(b.bbs[o + 3]@ + b.bbs[o + 4]@).contains(f));
            } else {
                assert(crate::sliding::bishop_targets(t, occupied(b)).intersect(b.bbs[o + 2]@ + b.bbs[o + 4]@).contains(f));
            }
        } else {
            assert(crate::attacks::king_targets(t).intersect(b.bbs[o + 5]@).contains(f));
        }
    } else {
        lemma_wf_occupancy(b, t);
        assert(!pawn_push(b, c, m));
        assert(!pawn_double_push(b, c, m));
        if pawn_ep(b, c, m) {
            assert(!occupied(b).contains(t));
        }
        if castle_move(b, c, m) {
            assert(!occupied(b).contains(t));
        }
    }
}

/// How clearing bits of the castling byte acts on each right.
pub proof fn lemma_castling_bits()
    by (bit_vector)
    ensures
        forall|x: u8, y: u8| #[trigger] ((x & !y) & 1u8) != 0 <==> ((x & 1u8) != 0 && (y & 1u8) == 0),
        forall|x: u8, y: u8| #[trigger] ((x & !y) & 2u8) != 0 <==> ((x & 2u8) != 0 && (y & 2u8) == 0),
        forall|x: u8, y: u8| #[trigger] ((x & !y) & 4u8) != 0 <==> ((x & 4u8) != 0 && (y & 4u8) == 0),
        forall|x: u8, y: u8| #[trigger] ((x & !y) & 8u8) != 0 <==> ((x & 8u8) != 0 && (y & 8u8) == 0),
        (3u8 & 1u8) != 0 && (3u8 & 2u8) != 0 && (3u8 & 4u8) == 0 && (3u8 & 8u8) == 0,
        (12u8 & 1u8) == 0 && (12u8 & 2u8) == 0 && (12u8 & 4u8) != 0 && (12u8 & 8u8) != 0,
        (1u8 & 1u8) != 0 && (1u8 & 2u8) == 0 && (1u8 & 4u8) == 0 && (1u8 & 8u8) == 0,
        (2u8 & 1u8) == 0 && (2u8 & 2u8) != 0 && (2u8 & 4u8) == 0 && (2u8 & 8u8) == 0,
        (4u8 & 1u8) == 0 && (4u8 & 2u8) == 0 && (4u8 & 4u8) != 0 && (4u8 & 8u8) == 0,
        (8u8 & 1u8) == 0 && (8u8 & 2u8) == 0 && (8u8 & 4u8) == 0 && (8u8 & 8u8) != 0,
        (0u8 & 1u8) == 0 && (0u8 & 2u8) == 0 && (0u8 & 4u8) == 0 && (0u8 & 8u8) == 0,
{
}

/// A legal move never lands on the enemy king.
pub proof fn lemma_no_king_capture(b: Board, m: Move)
    requires
        wf(b),
        legal(b, m),
    ensures
        !b.bbs[6 * b.side_to_move.other().index() + 5]@.contains(m.dest.0 as int),
{
    let c = b.side_to_move;
    let o = c.other();
    let t = m.dest.0 as int;
    if b.bbs[6 * o.index() + 5]@.contains(t) {
        assert(side_pieces(b, o.index()).contains(t));
        lemma_capture_attacks(b, m);
        let kset = b.bbs[6 * o.index() + 5]@;
        assert(crate::bitboard::is_least(kset, t));
        assert(kset != Set::<int>::empty());
        let ks = king_sq(b, o).unwrap();
        assert(crate::bitboard::is_least(kset, ks));
        assert(ks == t);
    }
}

/// The capture slot of a move onto an enemy piece is the slot holding that piece.
pub proof fn lemma_capture_slot(b: Board, t: int, oi: int, j: int)
    requires
        wf(b),
        0 <= oi < 2,
        6 * oi <= j < 6 * oi + 6,
        b.bbs[j]@.contains(t),
    ensures
        holder_in(b, t, 6 * oi, 6 * oi + 6) == Some(j),
{
    assert forall|i: int| 6 * oi <= i < j implies !(#[trigger] b.bbs[i]@).contains(t) by {
        assert(b.bbs[i]@.disjoint(b.bbs[j]@));
    }
    lemma_holder_in(b, t, 6 * oi, 6 * oi + 6, j);
}

/// After a legal move of a well-formed position the piece sets are still
/// pairwise disjoint, and what changed is: the source square left, the
/// destination (and a castling rook's square) taken, a captured piece gone.
pub proof fn lemma_sets_after(b: Board, m: Move, a: Board)
    requires
        wf(b),
        legal(b, m),
        b.played(m, a),
    ensures
        forall|i: int, j: int|
            0 <= i < 12 && 0 <= j < 12 && i != j ==> (#[trigger] a.bbs[i]@).disjoint(#[trigger] a.bbs[j]@),
        forall|cc: int| 0 <= cc < 2 ==> #[trigger] a.player_bbs[cc]@ == side_pieces(a, cc),
        forall|s: int| #[trigger] a.bbs[0]@.contains(s) ==> 8 <= s < 56,
        forall|s: int| #[trigger] a.bbs[6]@.contains(s) ==> 8 <= s < 56,
{
    let c = b.side_to_move;
    let o = c.other();
    let ci = c.index();
    let oi = o.index();
    let f = m.src.0 as int;
    let t = m.dest.0 as int;
    let k = b.slot_of(m);
    let l = b.landing_slot(m);
    let rk = 6 * ci + 3;
    let (rf, rt) = rook_jump(c, m.dest.file());
    let castle = b.is_castle(m);
    let ep = b.is_ep_capture(m);
    let normal = b.is_normal_capture(m);
    let v = b.ep_victim(m);
    lemma_legal_facts(b, m);
    lemma_no_king_capture(b, m);
    assert(b.player_bbs[0]@ == side_pieces(b, 0));
    assert(b.player_bbs[1]@ == side_pieces(b, 1));
    lemma_wf_occupancy(b, t);
    lemma_wf_occupancy(b, f);
    if castle {
        lemma_wf_occupancy(b, rt);
        lemma_wf_occupancy(b, rf);
    }
    if ep {
        lemma_wf_occupancy(b, v);
    }
    // Where the moved square came from and went to.
    assert forall|j: int| 0 <= j < 12 && j != k implies !(#[trigger] b.bbs[j]@).contains(f) by {
        assert(b.bbs[j]@.disjoint(b.bbs[k]@));
    }
    assert forall|j: int| 6 * ci <= j < 6 * ci + 6 implies !(#[trigger] b.bbs[j]@).contains(t) by {}
    assert forall|j: int| 6 * oi <= j < 6 * oi + 6 && #[trigger] b.bbs[j]@.contains(t) implies (normal && !ep
        && holder_in(b, t, 6 * oi, 6 * oi + 6) == Some(j)) by {
        lemma_capture_slot(b, t, oi, j);
    }
    if ep {
        assert forall|j: int| 0 <= j < 12 && j != 6 * oi implies !(#[trigger] b.bbs[j]@).contains(v) by {
            assert(b.bbs[j]@.disjoint(b.bbs[6 * oi]@));
        }
    }
    if castle {
        assert forall|j: int| 0 <= j < 12 && j != rk implies !(#[trigger] b.bbs[j]@).contains(rf) by {
            assert(b.bbs[j]@.disjoint(b.bbs[rk]@));
        }
    }
    // Each new set: what it keeps from before, plus what it gains.
    assert forall|i: int, x: int| 0 <= i < 12 && #[trigger] a.bbs[i]@.contains(x) implies ((b.bbs[i]@.contains(x)
        && x != f) || (i == l && x == t) || (castle && i == rk && x == rt)) by {
        assert(a.bbs[i]@ == b.set_after_move(m, i));
    }
    assert forall|i: int, j: int|
        0 <= i < 12 && 0 <= j < 12 && i != j implies (#[trigger] a.bbs[i]@).disjoint(#[trigger] a.bbs[j]@) by {
        assert forall|x: int| !(a.bbs[i]@.contains(x) && a.bbs[j]@.contains(x)) by {
            if a.bbs[i]@.contains(x) && a.bbs[j]@.contains(x) {
                assert(a.bbs[i]@ == b.set_after_move(m, i));
                assert(a.bbs[j]@ == b.set_after_move(m, j));
                assert(b.bbs[i]@.disjoint(b.bbs[j]@));
            }
        }
    }
    // Exact membership of the new sets.
    assert forall|i: int, x: int| 6 * ci <= i < 6 * ci + 6 implies (#[trigger] a.bbs[i]@.contains(x) <==> ((
    b.bbs[i]@.contains(x) && x != f && !(castle && i == rk && x == rf)) || (i == l && x == t) || (castle && i
        == rk && x == rt))) by {
        assert(a.bbs[i]@ == b.set_after_move(m, i));
    }
    assert forall|i: int, x: int| 6 * oi <= i < 6 * oi + 6 implies (#[trigger] a.bbs[i]@.contains(x) <==> (
    b.bbs[i]@.contains(x) && !(normal && !ep && x == t) && !(ep && x == v))) by {
        assert(a.bbs[i]@ == b.set_after_move(m, i));
        if normal && !ep && b.bbs[i]@.contains(t) {
            lemma_capture_slot(b, t, oi, i);
        }
    }
    assert(a.player_bbs[ci]@ == b.colour_after_move(m, ci));
    assert(a.player_bbs[oi]@ == b.colour_after_move(m, oi));
    assert(a.player_bbs[ci]@ =~= side_pieces(a, ci)) by {
        assert forall|x: int| a.player_bbs[ci]@.contains(x) <==> side_pieces(a, ci).contains(x) by {
            if side_pieces(a, ci).contains(x) {
                let i = choose|i: int| 6 * ci <= i < 6 * ci + 6 && #[trigger] a.bbs[i]@.contains(x);
                assert(6 * ci <= i < 6 * ci + 6 && a.bbs[i]@.contains(x)) by {
                    if a.bbs[6 * ci]@.contains(x) {} else if a.bbs[6 * ci + 1]@.contains(x) {} else if a.bbs[6 * ci + 2]@.contains(x) {}
                    else if a.bbs[6 * ci + 3]@.contains(x) {} else if a.bbs[6 * ci + 4]@.contains(x) {} else {}
                }
            }
            if a.player_bbs[ci]@.contains(x) {
                if x == t {
                    assert(a.bbs[l]@.contains(x));
                } else if castle && x == rt {
                    assert(a.bbs[rk]@.contains(x));
                } else {
                    assert(b.player_bbs[ci]@.contains(x));
                    let i = choose|i: int| 6 * ci <= i < 6 * ci + 6 && #[trigger] b.bbs[i]@.contains(x);
                    assert(a.bbs[i]@.contains(x));
                }
            }
        }
    }
    assert(a.player_bbs[oi]@ =~= side_pieces(a, oi)) by {
        assert forall|x: int| a.player_bbs[oi]@.contains(x) <==> side_pieces(a, oi).contains(x) by {
            if side_pieces(a, oi).contains(x) {
                let i = choose|i: int| 6 * oi <= i < 6 * oi + 6 && #[trigger] a.bbs[i]@.contains(x);
                assert(6 * oi <= i < 6 * oi + 6 && a.bbs[i]@.contains(x)) by {
                    if a.bbs[6 * oi]@.contains(x) {} else if a.bbs[6 * oi + 1]@.contains(x) {} else if a.bbs[6 * oi + 2]@.contains(x) {}
                    else if a.bbs[6 * oi + 3]@.contains(x) {} else if a.bbs[6 * oi + 4]@.contains(x) {} else {}
                }
            }
            if a.player_bbs[oi]@.contains(x) {
                assert(b.player_bbs[oi]@.contains(x));
                let i = choose|i: int| 6 * oi <= i < 6 * oi + 6 && #[trigger] b.bbs[i]@.contains(x);
                assert(a.bbs[i]@.contains(x));
            }
        }
    }
    assert forall|cc: int| 0 <= cc < 2 implies #[trigger] a.player_bbs[cc]@ == side_pieces(a, cc) by {
        if cc == ci {
        } else {
            assert(cc == oi);
        }
    }
    assert forall|s: int| #[trigger] a.bbs[0]@.contains(s) implies 8 <= s < 56 by {
        if !b.bbs[0]@.contains(s) {
            assert(s == t);
            assert(l == 0);
        }
    }
    assert forall|s: int| #[trigger] a.bbs[6]@.contains(s) implies 8 <= s < 56 by {
        if !b.bbs[6]@.contains(s) {
            assert(s == t);
            assert(l == 6);
        }
    }
}

/// A legal move of a well-formed position gives a well-formed position: the
/// invariant every move keeps.
pub proof fn lemma_wf_preserved(b: Board, m: Move, a: Board)
    requires
        wf(b),
        legal(b, m),
        b.played(m, a),
    ensures
        wf(a),
{
    let c = b.side_to_move;
    let o = c.other();
    let ci = c.index();
    let oi = o.index();
    let f = m.src.0 as int;
    let t = m.dest.0 as int;
    let k = b.slot_of(m);
    let l = b.landing_slot(m);
    let castle = b.is_castle(m);
    let ep = b.is_ep_capture(m);
    let normal = b.is_normal_capture(m);
    let v = b.ep_victim(m);
    lemma_legal_facts(b, m);
    lemma_no_king_capture(b, m);
    lemma_sets_after(b, m, a);
    assert(b.player_bbs[0]@ == side_pieces(b, 0));
    assert(b.player_bbs[1]@ == side_pieces(b, 1));
    lemma_wf_occupancy(b, t);
    lemma_wf_occupancy(b, f);
    assert forall|j: int| 0 <= j < 12 && j != k implies !(#[trigger] b.bbs[j]@).contains(f) by {
        assert(b.bbs[j]@.disjoint(b.bbs[k]@));
    }
    assert forall|i: int, x: int| 0 <= i < 12 && #[trigger] a.bbs[i]@.contains(x) implies ((b.bbs[i]@.contains(x)
        && x != f) || (i == l && x == t) || (castle && i == 6 * ci + 3 && x == rook_jump(c, m.dest.file()).1)) by {
        assert(a.bbs[i]@ == b.set_after_move(m, i));
    }
    // The side that moved is not in check afterwards.
    assert(a.side_to_move == o);
    assert(king_safe(a, a.side_to_move.other()));
    // Kings: the mover's king set only moves its square; the other is untouched.
    assert(l != 6 * ci + 5 || k == 6 * ci + 5);
    assert(a.bbs[6 * oi + 5]@ =~= b.bbs[6 * oi + 5]@) by {
        assert(a.bbs[6 * oi + 5]@ == b.set_after_move(m, 6 * oi + 5));
        if ep {
            assert(b.bbs[6 * oi]@.contains(v));
            assert(b.bbs[6 * oi]@.disjoint(b.bbs[6 * oi + 5]@));
        }
    }
    assert(one_king(a, oi));
    assert(one_king(a, ci)) by {
        let ks = a.bbs[6 * ci + 5]@;
        assert(ks == b.set_after_move(m, 6 * ci + 5));
        assert forall|s1: int, s2: int| #[trigger] ks.contains(s1) && #[trigger] ks.contains(s2) implies s1 == s2 by {
            if k == 6 * ci + 5 {
                assert(s1 == t && s2 == t);
            } else {
                assert(b.bbs[6 * ci + 5]@.contains(s1) && b.bbs[6 * ci + 5]@.contains(s2));
            }
        }
    }
    assert(one_king(a, 0) && one_king(a, 1)) by {
        if ci == 0 {
        } else {
        }
    }
    // En passant: only a double push leaves a square behind.
    assert(ep_consistent(a)) by {
        if b.is_double_push(m) {
            let e = if c == Color::White {
                f + 8
            } else {
                f - 8
            };
            assert(a.en_passant == Some(SQ(e as u8)));
            assert(!occupied(b).contains(e));
            assert(k == 6 * ci);
            assert(l == 6 * ci);
            assert(a.bbs[6 * ci]@.contains(t)) by {
                assert(a.bbs[6 * ci]@ == b.set_after_move(m, 6 * ci));
            }
            assert(a.player_bbs[0]@ == side_pieces(a, 0));
            assert(a.player_bbs[1]@ == side_pieces(a, 1));
            assert(!occupied(a).contains(e)) by {
                if occupied(a).contains(e) {
                    let i = choose|i: int| 0 <= i < 12 && #[trigger] a.bbs[i]@.contains(e);
                    assert(a.bbs[i]@.contains(e)) by {
                        if a.bbs[0]@.contains(e) {} else if a.bbs[1]@.contains(e) {} else if a.bbs[2]@.contains(e) {}
                        else if a.bbs[3]@.contains(e) {} else if a.bbs[4]@.contains(e) {} else if a.bbs[5]@.contains(e) {}
                        else if a.bbs[6]@.contains(e) {} else if a.bbs[7]@.contains(e) {} else if a.bbs[8]@.contains(e) {}
                        else if a.bbs[9]@.contains(e) {} else if a.bbs[10]@.contains(e) {} else {}
                    }
                }
            }
        } else {
            assert(a.en_passant is None);
        }
    }
    // Castling: a right that survives keeps its king and rook in place.
    lemma_castling_bits();
    let c0 = b.castling.0;
    let c1 = if b.moves_king(m) {
        c0 & !king_rights(c)
    } else {
        c0
    };
    let c2 = c1 & !rook_right(f);
    assert(a.castling.0 == c2 & !rook_right(t));
    assert(castling_consistent(a)) by {
        assert forall|i: int, x: int| 0 <= i < 12 && b.bbs[i]@.contains(x) && x != f && x != t && !(castle && i == 6 * ci + 3
            && x == rook_jump(c, m.dest.file()).0) && !(ep && x == v) implies #[trigger] a.bbs[i]@.contains(x) by {
            assert(a.bbs[i]@ == b.set_after_move(m, i));
        }
        if ep {
            assert(b.bbs[6 * oi]@.contains(v));
            assert forall|j: int| 0 <= j < 12 && j != 6 * oi implies !(#[trigger] b.bbs[j]@).contains(v) by {
                assert(b.bbs[j]@.disjoint(b.bbs[6 * oi]@));
            }
        }
        if castle {
            assert(b.moves_king(m));
        }
    }
}

} // verus!
