use vstd::prelude::*;
use crate::attacks::abs;
use crate::bitboard::{Bitboard, lemma_squares_injective};
use crate::piece_move::{Move, PromotionPiece, uci_move, uci_move_ok};
use vstd::string::StringSliceAdditionalSpecFns;
use crate::pieces::{Color, Piece, piece_at_index};
use crate::sq::SQ;

verus! {

/// Castling rights as four flag bits: white king side 1, white queen side 2,
/// black king side 4, black queen side 8.
#[derive(Clone, Copy, Debug, PartialEq, Eq, Structural)]
pub struct CastlingRights(pub u8);

/// The flag a FEN castling letter stands for (`K`, `Q`, `k`, `q`), or 0.
pub open spec fn castling_flag(c: char) -> u8 {
    if c == 'K' {
        1
    } else if c == 'Q' {
        2
    } else if c == 'k' {
        4
    } else if c == 'q' {
        8
    } else {
        0
    }
}

/// The union of the flags of the letters `b`.
pub open spec fn castling_bits(b: Seq<char>) -> u8
    decreases b.len(),
{
    if b.len() == 0 {
        0
    } else {
        castling_bits(b.drop_last()) | castling_flag(b.last())
    }
}

/// The castling field of a FEN: `-` for none, else letters from `KQkq`.
pub open spec fn castling_from_fen(b: Seq<char>) -> Option<CastlingRights> {
    if b =~= seq!['-'] {
        Some(CastlingRights(0))
    } else if forall|i: int| 0 <= i < b.len() ==> castling_flag(#[trigger] b[i]) != 0 {
        Some(CastlingRights(castling_bits(b)))
    } else {
        None
    }
}

impl CastlingRights {
    pub const WHITE_KING: u8 = 1;
    pub const WHITE_QUEEN: u8 = 2;
    pub const BLACK_KING: u8 = 4;
    pub const BLACK_QUEEN: u8 = 8;

    /// No rights.
    pub fn empty() -> (r: Self)
        ensures
            r.0 == 0,
    {
        CastlingRights(0)
    }

    /// Whether any bit of `flag` is held.
    pub fn has(&self, flag: u8) -> (r: bool)
        ensures
            r == (self.0 & flag != 0),
    {
        (self.0 & flag) != 0
    }

    /// Parses the castling field of a FEN.
    pub fn from_fen(s: &str) -> (r: Option<Self>)
        ensures
            r == castling_from_fen(s@),
    {
        let cs = crate::fen::str_chars(s);
        CastlingRights::from_fen_chars(&cs)
    }

    /// Parses the castling field of a FEN, given as characters.
    pub fn from_fen_chars(b: &Vec<char>) -> (r: Option<Self>)
        ensures
            r == castling_from_fen(b@),
    {
        if b.len() == 1 && b[0] == '-' {
            proof {
                assert(b@ =~= seq!['-']);
            }
            return Some(CastlingRights(0));
        }
        proof {
            assert(!(b@ =~= seq!['-']) ==> !(b@ == seq!['-']));
        }
        let mut bits: u8 = 0;
        let mut i: usize = 0;
        while i < b.len()
            invariant
                i <= b.len(),
                !(b@ =~= seq!['-']),
                bits == castling_bits(b@.subrange(0, i as int)),
                forall|j: int| 0 <= j < i ==> castling_flag(#[trigger] b@[j]) != 0,
            decreases b.len() - i,
        {
            let c = b[i];
            let flag: u8 = if c == 'K' {
                1
            } else if c == 'Q' {
                2
            } else if c == 'k' {
                4
            } else if c == 'q' {
                8
            } else {
                return None;
            };
            proof {
                assert(b@.subrange(0, i + 1).drop_last() =~= b@.subrange(0, i as int));
            }
            bits = bits | flag;
            i = i + 1;
        }
        proof {
            assert(b@.subrange(0, b@.len() as int) =~= b@);
        }
        Some(CastlingRights(bits))
    }
}

/// Why `Board::apply_move` refused a move.
#[derive(Clone, Copy, Debug, PartialEq, Eq, Structural)]
pub enum MoveError {
    /// No piece stands on the source square.
    NoPieceAtSource,
    /// A promotion suffix on a move that is not a pawn reaching the last rank.
    PromotionNotAllowed,
    /// A pawn reaching the last rank without a promotion suffix.
    PromotionRequired,
    /// A king move of two files that does not end on the c- or g-file.
    InvalidCastlingDestination,
}

/// A position: one set of squares per (colour, kind), one per colour, the side to
/// move, castling rights, the en-passant target square and the two move clocks.
#[derive(Clone, Copy)]
pub struct Board {
    pub bbs: [Bitboard; 12],
    pub player_bbs: [Bitboard; 2],
    pub side_to_move: Color,
    pub castling: CastlingRights,
    pub en_passant: Option<SQ>,
    pub halfmove_clock: u16,
    pub fullmove_number: u16,
}

/// The first slot at or after `i` whose piece set holds square `s`.
pub open spec fn holder_from(b: Board, s: int, i: int) -> Option<int>
    decreases 12 - i,
{
    if i >= 12 || i < 0 {
        None
    } else if b.bbs[i]@.contains(s) {
        Some(i)
    } else {
        holder_from(b, s, i + 1)
    }
}

/// The slot of the piece standing on `s` (the first one, should sets overlap).
pub open spec fn holder(b: Board, s: int) -> Option<int> {
    holder_from(b, s, 0)
}

/// The first slot in `lo..hi` whose piece set holds square `s`.
pub open spec fn holder_in(b: Board, s: int, lo: int, hi: int) -> Option<int>
    decreases hi - lo,
{
    if lo >= hi || lo < 0 || hi > 12 {
        None
    } else if b.bbs[lo]@.contains(s) {
        Some(lo)
    } else {
        holder_in(b, s, lo + 1, hi)
    }
}

/// The squares a castling rook jumps between for a king landing on `file`:
/// `(from, to)`.
pub open spec fn rook_jump(mover: Color, file: int) -> (int, int) {
    if mover == Color::White {
        if file == 6 {
            (7, 5)
        } else {
            (0, 3)
        }
    } else {
        if file == 6 {
            (63, 61)
        } else {
            (56, 59)
        }
    }
}

/// The right lost when a rook leaves or is taken on square `s`.
pub open spec fn rook_right(s: int) -> u8 {
    if s == 0 {
        2
    } else if s == 7 {
        1
    } else if s == 56 {
        8
    } else if s == 63 {
        4
    } else {
        0
    }
}

/// Both rights of one side.
pub open spec fn king_rights(c: Color) -> u8 {
    if c == Color::White {
        3
    } else {
        12
    }
}

impl Board {
    /// Slot of the moving piece.
    pub open spec fn slot_of(self, m: Move) -> int {
        holder(self, m.src.0 as int).unwrap()
    }

    /// The moving piece.
    pub open spec fn piece_of(self, m: Move) -> Piece {
        piece_at_index(self.slot_of(m))
    }

    /// The side of the moving piece.
    pub open spec fn mover(self, m: Move) -> Color {
        self.piece_of(m).side()
    }

    pub open spec fn moves_pawn(self, m: Move) -> bool {
        self.piece_of(m).kind() == 0
    }

    pub open spec fn moves_king(self, m: Move) -> bool {
        self.piece_of(m).kind() == 5
    }

    /// A king move of two files.
    pub open spec fn is_castle(self, m: Move) -> bool {
        self.moves_king(m) && abs(m.dest.file() - m.src.file()) == 2
    }

    /// A pawn changing file onto the en-passant square.
    pub open spec fn is_ep_capture(self, m: Move) -> bool {
        self.moves_pawn(m) && m.src.file() != m.dest.file() && self.en_passant == Some(m.dest)
    }

    /// A pawn move of two ranks.
    pub open spec fn is_double_push(self, m: Move) -> bool {
        self.moves_pawn(m) && abs(m.dest.rank() - m.src.rank()) == 2
    }

    /// The destination holds a piece of the other side.
    pub open spec fn is_normal_capture(self, m: Move) -> bool {
        self.player_bbs[self.mover(m).other().index()]@.contains(m.dest.0 as int)
    }

    pub open spec fn is_capture_move(self, m: Move) -> bool {
        self.is_normal_capture(m) || self.is_ep_capture(m)
    }

    /// A pawn reaching its last rank.
    pub open spec fn reaches_last_rank(self, m: Move) -> bool {
        self.moves_pawn(m) && m.dest.rank() == (if self.mover(m) == Color::White {
            7int
        } else {
            0int
        })
    }

    /// Square of the pawn taken en passant.
    pub open spec fn ep_victim(self, m: Move) -> int {
        if self.mover(m) == Color::White {
            m.dest.0 - 8
        } else {
            m.dest.0 + 8
        }
    }

    /// Slot the piece lands in: the promotion piece's, else the mover's own.
    pub open spec fn landing_slot(self, m: Move) -> int {
        match m.promotion {
            Some(p) => self.mover(m).index() * 6 + p.kind(),
            None => self.slot_of(m),
        }
    }

    /// What `apply_move` answers.
    pub open spec fn move_outcome(self, m: Move) -> Result<(), MoveError> {
        if holder(self, m.src.0 as int) is None {
            Err(MoveError::NoPieceAtSource)
        } else if m.promotion is Some && !self.reaches_last_rank(m) {
            Err(MoveError::PromotionNotAllowed)
        } else if m.promotion is None && self.reaches_last_rank(m) {
            Err(MoveError::PromotionRequired)
        } else if self.is_castle(m) && m.dest.file() != 2 && m.dest.file() != 6 {
            Err(MoveError::InvalidCastlingDestination)
        } else {
            Ok(())
        }
    }

    /// Whether `apply_move` changes the pieces at all (it gets past its checks of
    /// the source square and the promotion).
    pub open spec fn move_reaches_pieces(self, m: Move) -> bool {
        &&& holder(self, m.src.0 as int) is Some
        &&& m.promotion is Some <==> self.reaches_last_rank(m)
    }

    /// The inputs on which `apply_move` runs without arithmetic or shift failure.
    pub open spec fn move_applicable(self, m: Move) -> bool {
        &&& m.src.0 < 64
        &&& holder(self, m.src.0 as int) is Some ==> m.dest.0 < 64
        &&& (self.move_reaches_pieces(m) && self.is_ep_capture(m)) ==> 0 <= self.ep_victim(m) < 64
        &&& self.move_outcome(m) is Ok ==> {
            &&& (self.is_double_push(m) && self.mover(m) == Color::Black) ==> m.src.0 >= 8
            &&& !(self.moves_pawn(m) || self.is_capture_move(m)) ==> self.halfmove_clock < 65535
            &&& self.mover(m) == Color::Black ==> self.fullmove_number < 65535
        }
    }

    /// Piece set `i` after the mover has left its square and landed (possibly promoted).
    pub open spec fn set_after_landing(self, m: Move, i: int) -> Set<int> {
        let s = self.bbs[i]@;
        let s1 = if i == self.slot_of(m) {
            s.remove(m.src.0 as int)
        } else {
            s
        };
        if i == self.landing_slot(m) {
            s1.insert(m.dest.0 as int)
        } else {
            s1
        }
    }

    /// Piece set `i` once the captured piece, if any, is gone as well.
    pub open spec fn set_after_capture(self, m: Move, i: int) -> Set<int> {
        let s = self.set_after_landing(m, i);
        let opp = self.mover(m).other().index();
        if self.is_ep_capture(m) {
            if i == opp * 6 {
                s.remove(self.ep_victim(m))
            } else {
                s
            }
        } else if self.is_normal_capture(m) && holder_in(self, m.dest.0 as int, opp * 6, opp * 6 + 6)
            == Some(i) {
            s.remove(m.dest.0 as int)
        } else {
            s
        }
    }

    /// Piece set `i` after the whole move, the castling rook included.
    pub open spec fn set_after_move(self, m: Move, i: int) -> Set<int> {
        let s = self.set_after_capture(m, i);
        let (rf, rt) = rook_jump(self.mover(m), m.dest.file());
        if self.is_castle(m) && i == self.mover(m).index() * 6 + 3 {
            s.remove(rf).insert(rt)
        } else {
            s
        }
    }

    /// Colour set `c` after the mover's landing and the capture.
    pub open spec fn colour_after_capture(self, m: Move, c: int) -> Set<int> {
        let s = self.player_bbs[c]@;
        if c == self.mover(m).index() {
            s.remove(m.src.0 as int).insert(m.dest.0 as int)
        } else if self.is_ep_capture(m) {
            s.remove(self.ep_victim(m))
        } else if self.is_normal_capture(m) {
            s.remove(m.dest.0 as int)
        } else {
            s
        }
    }

    /// Colour set `c` after the whole move.
    pub open spec fn colour_after_move(self, m: Move, c: int) -> Set<int> {
        let s = self.colour_after_capture(m, c);
        let (rf, rt) = rook_jump(self.mover(m), m.dest.file());
        if self.is_castle(m) && c == self.mover(m).index() {
            s.remove(rf).insert(rt)
        } else {
            s
        }
    }

    /// Castling rights after the move.
    pub open spec fn castling_after_move(self, m: Move) -> u8 {
        let c0 = self.castling.0;
        let c1 = if self.moves_king(m) {
            c0 & !king_rights(self.mover(m))
        } else {
            c0
        };
        let c2 = c1 & !rook_right(m.src.0 as int);
        c2 & !rook_right(m.dest.0 as int)
    }

    /// En-passant square after the move.
    pub open spec fn ep_after_move(self, m: Move) -> Option<SQ> {
        if self.is_double_push(m) {
            Some(
                SQ(
                    (if self.mover(m) == Color::White {
                        m.src.0 + 8
                    } else {
                        m.src.0 - 8
                    }) as u8,
                ),
            )
        } else {
            None
        }
    }

    /// Halfmove clock after the move.
    pub open spec fn halfmove_after_move(self, m: Move) -> int {
        if self.moves_pawn(m) || self.is_capture_move(m) {
            0
        } else {
            self.halfmove_clock + 1
        }
    }

    /// Fullmove number after the move.
    pub open spec fn fullmove_after_move(self, m: Move) -> int {
        if self.mover(m) == Color::Black {
            self.fullmove_number + 1
        } else {
            self.fullmove_number as int
        }
    }

    /// The position `after` is `self` with `m` fully played.
    pub open spec fn played(self, m: Move, after: Board) -> bool {
        &&& forall|i: int| 0 <= i < 12 ==> #[trigger] after.bbs[i]@ == self.set_after_move(m, i)
        &&& forall|c: int| 0 <= c < 2 ==> #[trigger] after.player_bbs[c]@ == self.colour_after_move(m, c)
        &&& after.castling.0 == self.castling_after_move(m)
        &&& after.en_passant == self.ep_after_move(m)
        &&& after.halfmove_clock == self.halfmove_after_move(m)
        &&& after.fullmove_number == self.fullmove_after_move(m)
        &&& after.side_to_move == self.side_to_move.other()
    }

    /// The position `after` is `self` with the pieces moved and the capture made,
    /// and nothing else changed: where a malformed castling move stops.
    pub open spec fn played_up_to_castling(self, m: Move, after: Board) -> bool {
        &&& forall|i: int| 0 <= i < 12 ==> #[trigger] after.bbs[i]@ == self.set_after_capture(m, i)
        &&& forall|c: int| 0 <= c < 2 ==> #[trigger] after.player_bbs[c]@ == self.colour_after_capture(m, c)
        &&& after.castling == self.castling
        &&& after.en_passant == self.en_passant
        &&& after.halfmove_clock == self.halfmove_clock
        &&& after.fullmove_number == self.fullmove_number
        &&& after.side_to_move == self.side_to_move
    }
}

/// The position reached by playing `m` on `b`.
pub open spec fn after(b: Board, m: Move) -> Board {
    choose|a: Board| b.played(m, a)
}

/// A move played on a position leads to exactly one position.
pub proof fn lemma_played_unique(b: Board, m: Move, x: Board, y: Board)
    requires
        b.played(m, x),
        b.played(m, y),
    ensures
        x == y,
{
    assert forall|i: int| 0 <= i < 12 implies x.bbs[i] == y.bbs[i] by {
        assert(x.bbs[i]@ == y.bbs[i]@);
        lemma_squares_injective(x.bbs[i].board, y.bbs[i].board);
    }
    assert forall|i: int| 0 <= i < 2 implies x.player_bbs[i] == y.player_bbs[i] by {
        assert(x.player_bbs[i]@ == y.player_bbs[i]@);
        lemma_squares_injective(x.player_bbs[i].board, y.player_bbs[i].board);
    }
    assert(x.bbs =~= y.bbs);
    assert(x.player_bbs =~= y.player_bbs);
    assert(x.castling == CastlingRights(x.castling.0));
}

/// `holder_in` finds the first slot of a range that holds the square.
pub proof fn lemma_holder_in(b: Board, s: int, lo: int, hi: int, i: int)
    requires
        0 <= lo <= i <= hi <= 12,
        forall|j: int| lo <= j < i ==> !(#[trigger] b.bbs[j]@).contains(s),
    ensures
        i < hi && b.bbs[i]@.contains(s) ==> holder_in(b, s, lo, hi) == Some(i),
        i == hi ==> holder_in(b, s, lo, hi) is None,
    decreases i - lo,
{
    if lo < i {
        assert(!b.bbs[lo]@.contains(s));
        lemma_holder_in(b, s, lo + 1, hi, i);
    }
}

/// `holder_from` finds the first slot from `lo` on that holds the square.
pub proof fn lemma_holder_from(b: Board, s: int, lo: int, i: int)
    requires
        0 <= lo <= i <= 12,
        forall|j: int| lo <= j < i ==> !(#[trigger] b.bbs[j]@).contains(s),
    ensures
        i < 12 && b.bbs[i]@.contains(s) ==> holder_from(b, s, lo) == Some(i),
        i == 12 ==> holder_from(b, s, lo) is None,
    decreases i - lo,
{
    if lo < i {
        assert(!b.bbs[lo]@.contains(s));
        lemma_holder_from(b, s, lo + 1, i);
    }
}

/// A found holder is a slot whose set holds the square.
pub proof fn lemma_holder_some(b: Board, s: int, lo: int)
    requires
        0 <= lo,
    ensures
        holder_from(b, s, lo) matches Some(k) ==> lo <= k < 12 && b.bbs[k]@.contains(s),
    decreases 12 - lo,
{
    if lo < 12 && !b.bbs[lo]@.contains(s) {
        lemma_holder_some(b, s, lo + 1);
    }
}

/// Adds square `sq` to set `i` of `a`.
fn insert_square<const N: usize>(a: &mut [Bitboard; N], i: usize, sq: usize)
    requires
        i < N,
        sq < 64,
    ensures
        forall|j: int| 0 <= j < N && j != i ==> #[trigger] final(a)[j] == old(a)[j],
        final(a)[i as int]@ == old(a)[i as int]@.insert(sq as int),
{
    let mut b = a[i];
    b.set(sq);
    a[i] = b;
}

/// Removes square `sq` from set `i` of `a`.
fn remove_square<const N: usize>(a: &mut [Bitboard; N], i: usize, sq: usize)
    requires
        i < N,
        sq < 64,
    ensures
        forall|j: int| 0 <= j < N && j != i ==> #[trigger] final(a)[j] == old(a)[j],
        final(a)[i as int]@ == old(a)[i as int]@.remove(sq as int),
{
    let mut b = a[i];
    b.clear(sq);
    a[i] = b;
}

impl Board {
    /// An empty board: no pieces, white to move, no castling rights, no
    /// en-passant square, halfmove clock 0, fullmove number 1.
    pub fn new() -> (r: Board)
        ensures
            forall|i: int| 0 <= i < 12 ==> (#[trigger] r.bbs[i])@ == Set::<int>::empty(),
            forall|c: int| 0 <= c < 2 ==> (#[trigger] r.player_bbs[c])@ == Set::<int>::empty(),
            r.side_to_move == Color::White,
            r.castling.0 == 0,
            r.en_passant is None,
            r.halfmove_clock == 0,
            r.fullmove_number == 1,
    {
        let e = Bitboard::empty();
        Board {
            bbs: [e, e, e, e, e, e, e, e, e, e, e, e],
            player_bbs: [e, e],
            side_to_move: Color::White,
            castling: CastlingRights::empty(),
            en_passant: None,
            halfmove_clock: 0,
            fullmove_number: 1,
        }
    }

    /// The piece on `sq`: the first slot holding it.
    fn piece_at_sq(&self, sq: SQ) -> (r: Result<usize, MoveError>)
        requires
            sq.0 < 64,
        ensures
            r is Err <==> holder(*self, sq.0 as int) is None,
            r is Err ==> r == Err::<usize, MoveError>(MoveError::NoPieceAtSource),
            r matches Ok(i) ==> holder(*self, sq.0 as int) == Some(i as int) && i < 12,
    {
        let mut i: usize = 0;
        while i < 12
            invariant
                i <= 12,
                sq.0 < 64,
                forall|j: int| 0 <= j < i ==> !(#[trigger] self.bbs[j]@).contains(sq.0 as int),
            decreases 12 - i,
        {
            if self.bbs[i].get(sq.to_usize()) {
                proof {
                    lemma_holder_from(*self, sq.0 as int, 0, i as int);
                }
                return Ok(i);
            }
            i = i + 1;
        }
        proof {
            lemma_holder_from(*self, sq.0 as int, 0, 12);
        }
        Err(MoveError::NoPieceAtSource)
    }

    /// Plays `piece_move`, inferring castling (a king moving two files),
    /// en passant (a pawn changing file onto the en-passant square), double pushes
    /// and captures from the position. Legality and turn order are not checked.
    pub fn apply_move(&mut self, piece_move: Move) -> (r: Result<(), MoveError>)
        requires
            old(self).move_applicable(piece_move),
        ensures
            r == old(self).move_outcome(piece_move),
            r is Ok ==> old(self).played(piece_move, *final(self)),
            r == Err::<(), MoveError>(MoveError::InvalidCastlingDestination) ==> old(self).played_up_to_castling(
                piece_move,
                *final(self),
            ),
            r is Err && r != Err::<(), MoveError>(MoveError::InvalidCastlingDestination) ==> *final(self)
                == *old(self),
    {
        let ghost b0 = *self;
        let m = piece_move;
        let from = piece_move.get_src();
        let to = piece_move.get_dest();
        let slot = match self.piece_at_sq(from) {
            Ok(i) => i,
            Err(e) => {
                return Err(e);
            },
        };
        let piece = Piece::from_index(slot);
        let from_idx = from.to_usize();
        let to_idx = to.to_usize();
        let mover = piece.color();
        let mover_idx = mover.to_index();
        let opp_idx = mover.opposite().to_index();
        let from_rank = from.0 / 8;
        let to_rank = to.0 / 8;
        let from_file = from.0 % 8;
        let to_file = to.0 % 8;
        let is_pawn = slot == 0 || slot == 6;
        let is_king = slot == 5 || slot == 11;
        let file_gap: u8 = if to_file >= from_file { to_file - from_file } else { from_file - to_file };
        let rank_gap: u8 = if to_rank >= from_rank { to_rank - from_rank } else { from_rank - to_rank };
        let is_castle = is_king && file_gap == 2;
        let on_ep_square = match self.en_passant {
            Some(e) => e == to,
            None => false,
        };
        let is_ep_capture = is_pawn && from_file != to_file && on_ep_square;
        let is_double_push = is_pawn && rank_gap == 2;
        let is_normal_capture = self.player_bbs[opp_idx].get(to_idx);
        let is_capture = is_normal_capture || is_ep_capture;
        assert(is_castle == b0.is_castle(m));
        assert(is_ep_capture == b0.is_ep_capture(m));
        assert(is_double_push == b0.is_double_push(m));
        assert(is_normal_capture == b0.is_normal_capture(m));

        let last_rank: u8 = match mover {
            Color::White => 7,
            Color::Black => 0,
        };
        let reaches_last = is_pawn && to_rank == last_rank;
        assert(reaches_last == b0.reaches_last_rank(m));
        let dest_slot = match piece_move.get_promotion() {
            Some(prom) => {
                if !reaches_last {
                    return Err(MoveError::PromotionNotAllowed);
                }
                prom.to_piece(mover).to_index()
            },
            None => {
                if reaches_last {
                    return Err(MoveError::PromotionRequired);
                }
                slot
            },
        };
        assert(dest_slot == b0.landing_slot(m));

        remove_square(&mut self.bbs, slot, from_idx);
        insert_square(&mut self.bbs, dest_slot, to_idx);
        remove_square(&mut self.player_bbs, mover_idx, from_idx);
        insert_square(&mut self.player_bbs, mover_idx, to_idx);
        assert forall|i: int| 0 <= i < 12 implies #[trigger] self.bbs[i]@ == b0.set_after_landing(m, i) by {}

        if is_ep_capture {
            let cap_idx = match mover {
                Color::White => to_idx - 8,
                Color::Black => to_idx + 8,
            };
            let opp_pawn_idx = opp_idx * 6;
            remove_square(&mut self.bbs, opp_pawn_idx, cap_idx);
            remove_square(&mut self.player_bbs, opp_idx, cap_idx);
        } else if is_normal_capture {
            let lo = opp_idx * 6;
            let hi = lo + 6;
            let ghost mid = *self;
            let mut i = lo;
            while i < hi
                invariant_except_break
                    forall|j: int| 0 <= j < 12 ==> #[trigger] self.bbs[j] == mid.bbs[j],
                invariant
                    lo <= i <= hi,
                    hi == lo + 6,
                    lo == opp_idx * 6,
                    opp_idx < 2,
                    to_idx < 64,
                    self.player_bbs == mid.player_bbs,
                    self.castling == mid.castling,
                    self.en_passant == mid.en_passant,
                    self.halfmove_clock == mid.halfmove_clock,
                    self.fullmove_number == mid.fullmove_number,
                    self.side_to_move == mid.side_to_move,
                    forall|j: int| lo <= j < i ==> !(#[trigger] b0.bbs[j]@).contains(to_idx as int),
                    forall|j: int| lo <= j < hi ==> #[trigger] mid.bbs[j] == b0.bbs[j],
                    i == hi ==> holder_in(b0, to_idx as int, lo as int, hi as int) is None,
                ensures
                    forall|j: int| 0 <= j < 12 ==> #[trigger] self.bbs[j]@ == (if Some(j) == holder_in(b0, to_idx as int, lo as int, hi as int) {
                        mid.bbs[j]@.remove(to_idx as int)
                    } else {
                        mid.bbs[j]@
                    }),
                    self.player_bbs == mid.player_bbs,
                    self.castling == mid.castling,
                    self.en_passant == mid.en_passant,
                    self.halfmove_clock == mid.halfmove_clock,
                    self.fullmove_number == mid.fullmove_number,
                    self.side_to_move == mid.side_to_move,
                decreases hi - i,
            {
                if self.bbs[i].get(to_idx) {
                    proof {
                        lemma_holder_in(b0, to_idx as int, lo as int, hi as int, i as int);
                    }
                    remove_square(&mut self.bbs, i, to_idx);
                    break;
                }
                i = i + 1;
                proof {
                    if i == hi {
                        lemma_holder_in(b0, to_idx as int, lo as int, hi as int, hi as int);
                    }
                }
            }
            remove_square(&mut self.player_bbs, opp_idx, to_idx);
        }
        assert forall|i: int| 0 <= i < 12 implies #[trigger] self.bbs[i]@ == b0.set_after_capture(m, i) by {}
        assert forall|c: int| 0 <= c < 2 implies #[trigger] self.player_bbs[c]@ == b0.colour_after_capture(m, c) by {}

        if is_castle {
            let (rook_from, rook_to): (usize, usize) = if to_file == 6 {
                match mover {
                    Color::White => (7, 5),
                    Color::Black => (63, 61),
                }
            } else if to_file == 2 {
                match mover {
                    Color::White => (0, 3),
                    Color::Black => (56, 59),
                }
            } else {
                return Err(MoveError::InvalidCastlingDestination);
            };
            let rook_idx = mover_idx * 6 + 3;
            remove_square(&mut self.bbs, rook_idx, rook_from);
            insert_square(&mut self.bbs, rook_idx, rook_to);
            remove_square(&mut self.player_bbs, mover_idx, rook_from);
            insert_square(&mut self.player_bbs, mover_idx, rook_to);
        }
        assert forall|i: int| 0 <= i < 12 implies #[trigger] self.bbs[i]@ == b0.set_after_move(m, i) by {}
        assert forall|c: int| 0 <= c < 2 implies #[trigger] self.player_bbs[c]@ == b0.colour_after_move(m, c) by {}

        if is_king {
            let mask: u8 = match mover {
                Color::White => 3,
                Color::Black => 12,
            };
            self.castling.0 = self.castling.0 & !mask;
        }
        let from_mask = rook_mask(from_idx);
        self.castling.0 = self.castling.0 & !from_mask;
        let to_mask = rook_mask(to_idx);
        self.castling.0 = self.castling.0 & !to_mask;

        self.en_passant = if is_double_push {
            let ep_idx = match mover {
                Color::White => from_idx + 8,
                Color::Black => from_idx - 8,
            };
            Some(SQ(ep_idx as u8))
        } else {
            None
        };

        if is_pawn || is_capture {
            self.halfmove_clock = 0;
        } else {
            self.halfmove_clock = self.halfmove_clock + 1;
        }
        if mover == Color::Black {
            self.fullmove_number = self.fullmove_number + 1;
        }
        self.side_to_move = self.side_to_move.opposite();
        Ok(())
    }
}

/// A promotion lands the piece the move names, in the mover's colour: after a
/// promotion to a knight, bishop, rook or queen the destination is in that
/// piece's set (slots 1 to 4 for white, 7 to 10 for black) and in the mover's
/// colour set, and the pawn's set no longer holds the source square.
pub proof fn law_promotion_lands_as_named(b: Board, m: Move, a: Board)
    requires
        b.move_outcome(m) is Ok,
        b.played(m, a),
        m.promotion is Some,
    ensures
        ({
            let first = if holder(b, m.src.0 as int).unwrap() < 6 {
                0int
            } else {
                6int
            };
            let named = match m.promotion.unwrap() {
                PromotionPiece::Knight => 1int,
                PromotionPiece::Bishop => 2int,
                PromotionPiece::Rook => 3int,
                PromotionPiece::Queen => 4int,
            };
            a.bbs[first + named]@.contains(m.dest.0 as int)
        }),
        !a.bbs[holder(b, m.src.0 as int).unwrap()]@.contains(m.src.0 as int),
        a.player_bbs[if holder(b, m.src.0 as int).unwrap() < 6 {
            0int
        } else {
            1int
        }]@.contains(m.dest.0 as int),
{
    let k = holder(b, m.src.0 as int).unwrap();
    lemma_holder_some(b, m.src.0 as int, 0);
    crate::pieces::lemma_piece_index_round_trip(k, piece_at_index(k));
    let l = b.landing_slot(m);
    let mi = b.mover(m).index();
    let oi = b.mover(m).other().index();
    assert(mi == (if k < 6 { 0int } else { 1int }));
    assert(oi == 1 - mi);
    assert(1 <= m.promotion.unwrap().kind() <= 4);
    assert(l == mi * 6 + m.promotion.unwrap().kind());
    assert(a.bbs[l]@ == b.set_after_move(m, l));
    assert(b.set_after_landing(m, l).contains(m.dest.0 as int));
    lemma_holder_in_range(b, m.dest.0 as int, oi * 6, oi * 6 + 6);
    assert(b.set_after_capture(m, l).contains(m.dest.0 as int));
    assert(!b.is_castle(m));
    assert(a.bbs[k]@ == b.set_after_move(m, k));
    assert(!b.set_after_landing(m, k).contains(m.src.0 as int));
    assert(a.player_bbs[mi]@ == b.colour_after_move(m, mi));
}

/// The slot `holder_in` finds lies in its range.
pub proof fn lemma_holder_in_range(b: Board, s: int, lo: int, hi: int)
    ensures
        holder_in(b, s, lo, hi) matches Some(i) ==> lo <= i < hi,
    decreases hi - lo,
{
    if !(lo >= hi || lo < 0 || hi > 12) && !b.bbs[lo]@.contains(s) {
        lemma_holder_in_range(b, s, lo + 1, hi);
    }
}

impl Board {
    /// What `can_apply` accepts: exactly the moves `apply_move` takes.
    pub open spec fn checked_applicable(self, m: Move) -> bool {
        self.move_applicable(m)
    }

    /// Whether `apply_move` can take `m` without an arithmetic or shift
    /// failure: the source on the board; where a piece stands there, the
    /// destination on the board and an en-passant victim's square too; and
    /// for a move that gets played, room on the clock that advances.
    pub fn can_apply(&self, m: Move) -> (r: bool)
        ensures
            r == self.checked_applicable(m),
    {
        let ghost b = *self;
        let src = m.src.0;
        let dest = m.dest.0;
        if src >= 64 {
            return false;
        }
        let slot = match self.piece_at_sq(m.src) {
            Ok(i) => i,
            Err(_) => {
                return true;
            },
        };
        if dest >= 64 {
            return false;
        }
        proof {
            assert(b.slot_of(m) == slot as int);
        }
        let white = slot < 6;
        let kind = slot % 6;
        let is_pawn = kind == 0;
        let is_king = kind == 5;
        assert(is_pawn == b.moves_pawn(m));
        assert(is_king == b.moves_king(m));
        assert(white == (b.mover(m) == Color::White));
        let from_file = src % 8;
        let to_file = dest % 8;
        let from_rank = src / 8;
        let to_rank = dest / 8;
        let file_gap: u8 = if to_file >= from_file { to_file - from_file } else { from_file - to_file };
        let rank_gap: u8 = if to_rank >= from_rank { to_rank - from_rank } else { from_rank - to_rank };
        let is_castle = is_king && file_gap == 2;
        let on_ep_square = match self.en_passant {
            Some(e) => e.0 == dest,
            None => false,
        };
        let is_ep = is_pawn && from_file != to_file && on_ep_square;
        assert(is_castle == b.is_castle(m));
        assert(is_ep == b.is_ep_capture(m));
        let last: u8 = if white { 7 } else { 0 };
        let reaches_last = is_pawn && to_rank == last;
        assert(reaches_last == b.reaches_last_rank(m));
        let reaches_pieces = m.promotion.is_some() == reaches_last;
        if reaches_pieces && is_ep {
            if white && dest < 8 {
                return false;
            }
            if !white && dest + 8 >= 64 {
                return false;
            }
        }
        let outcome_ok = reaches_pieces && !(is_castle && to_file != 2 && to_file != 6);
        assert(outcome_ok == (b.move_outcome(m) is Ok));
        if outcome_ok {
            let is_double = is_pawn && rank_gap == 2;
            assert(is_double == b.is_double_push(m));
            if is_double && !white && src < 8 {
                return false;
            }
            let opp: usize = if white { 1 } else { 0 };
            let capture = self.player_bbs[opp].get(dest as usize) || is_ep;
            assert(capture == b.is_capture_move(m));
            if !(is_pawn || capture) && self.halfmove_clock >= 65535 {
                return false;
            }
            if !white && self.fullmove_number >= 65535 {
                return false;
            }
        }
        true
    }

    /// Plays a move written in UCI notation (`e2e4`, `e7e8q`), as `apply_move`
    /// does.
    pub fn apply_uci_move(&mut self, move_str: &str) -> (r: Result<(), MoveError>)
        requires
            uci_move_ok(move_str.spec_bytes()),
            old(self).move_applicable(uci_move(move_str.spec_bytes())),
        ensures
            r == old(self).move_outcome(uci_move(move_str.spec_bytes())),
            r is Ok ==> old(self).played(uci_move(move_str.spec_bytes()), *final(self)),
            r is Err && r != Err::<(), MoveError>(MoveError::InvalidCastlingDestination) ==> *final(self) == *old(
                self,
            ),
    {
        let piece_move = Move::from_uci(move_str);
        self.apply_move(piece_move)
    }
}

/// The castling right lost when a rook leaves or is taken on square `sq`.
fn rook_mask(sq: usize) -> (r: u8)
    ensures
        r == rook_right(sq as int),
{
    match sq {
        0 => 2,
        7 => 1,
        56 => 8,
        63 => 4,
        _ => 0,
    }
}

} // verus!
