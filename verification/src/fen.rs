use vstd::prelude::*;
use crate::bitboard::{Bitboard, lemma_squares_injective};
use crate::board::{Board, CastlingRights, castling_from_fen};
use crate::pieces::{Color, Piece, fen_piece};
use crate::sq::SQ;

verus! {

/// Rust's notion of white space (`char::is_whitespace`).
pub open spec fn is_space(c: char) -> bool {
    ||| c == ' '
    ||| ('\t' <= c && c <= '\r')
    ||| c == '\u{85}'
    ||| c == '\u{a0}'
    ||| c == '\u{1680}'
    ||| ('\u{2000}' <= c && c <= '\u{200a}')
    ||| c == '\u{2028}'
    ||| c == '\u{2029}'
    ||| c == '\u{202f}'
    ||| c == '\u{205f}'
    ||| c == '\u{3000}'
}

/// Whether `c` is white space.
pub fn space(c: char) -> (r: bool)
    ensures
        r == is_space(c),
{
    c == ' ' || ('\t' <= c && c <= '\r') || c == '\u{85}' || c == '\u{a0}' || c == '\u{1680}' || (
    '\u{2000}' <= c && c <= '\u{200a}') || c == '\u{2028}' || c == '\u{2029}' || c == '\u{202f}'
        || c == '\u{205f}' || c == '\u{3000}'
}

/// The words of `s` and whether the last one is still open, reading left to right:
/// maximal runs of non-space characters.
pub open spec fn words_state(s: Seq<char>) -> (Seq<Seq<char>>, bool)
    decreases s.len(),
{
    if s.len() == 0 {
        (Seq::empty(), false)
    } else {
        let (w, open) = words_state(s.drop_last());
        let c = s.last();
        if is_space(c) {
            (w, false)
        } else if open {
            (w.update(w.len() - 1, w.last().push(c)), true)
        } else {
            (w.push(seq![c]), true)
        }
    }
}

/// The white-space separated words of `s`.
pub open spec fn words(s: Seq<char>) -> Seq<Seq<char>> {
    words_state(s).0
}

/// The pieces of `s` between `sep` characters (empty pieces kept).
pub open spec fn pieces_between(s: Seq<char>, sep: char) -> Seq<Seq<char>>
    decreases s.len(),
{
    if s.len() == 0 {
        seq![Seq::<char>::empty()]
    } else {
        let p = pieces_between(s.drop_last(), sep);
        let c = s.last();
        if c == sep {
            p.push(Seq::empty())
        } else {
            p.update(p.len() - 1, p.last().push(c))
        }
    }
}

/// `pieces_between` never yields an empty list.
pub proof fn lemma_pieces_nonempty(s: Seq<char>, sep: char)
    ensures
        pieces_between(s, sep).len() >= 1,
    decreases s.len(),
{
    if s.len() > 0 {
        lemma_pieces_nonempty(s.drop_last(), sep);
    }
}

/// The characters of `s`.
pub fn str_chars(s: &str) -> (r: Vec<char>)
    ensures
        r@ == s@,
{
    let mut v: Vec<char> = Vec::new();
    for c in it: s.chars()
        invariant
            v@ == it.seq().take(it.index() as int),
    {
        v.push(c);
    }
    v
}

/// The white-space separated words of `cs`.
pub fn split_words(cs: &Vec<char>) -> (r: Vec<Vec<char>>)
    ensures
        r@.len() == words(cs@).len(),
        forall|i: int| 0 <= i < r@.len() ==> (#[trigger] r@[i])@ == words(cs@)[i],
{
    let mut out: Vec<Vec<char>> = Vec::new();
    let mut open = false;
    let mut i: usize = 0;
    while i < cs.len()
        invariant
            i <= cs.len(),
            out@.len() == words_state(cs@.take(i as int)).0.len(),
            open == words_state(cs@.take(i as int)).1,
            open ==> out@.len() > 0,
            forall|k: int| 0 <= k < out@.len() ==> (#[trigger] out@[k])@ == words_state(cs@.take(i as int)).0[k],
        decreases cs.len() - i,
    {
        let c = cs[i];
        proof {
            assert(cs@.take(i + 1).drop_last() =~= cs@.take(i as int));
            assert(cs@.take(i + 1).last() == c);
        }
        if space(c) {
            open = false;
        } else if open {
            let last = out.len() - 1;
            let mut w = out[last].clone();
            w.push(c);
            out.set(last, w);
        } else {
            let mut w: Vec<char> = Vec::new();
            w.push(c);
            proof {
                assert(w@ =~= seq![c]);
            }
            out.push(w);
            open = true;
        }
        i = i + 1;
        proof {
            let st = words_state(cs@.take(i as int)).0;
            assert forall|k: int| 0 <= k < out@.len() implies (#[trigger] out@[k])@ == st[k] by {}
        }
    }
    proof {
        assert(cs@.take(cs@.len() as int) =~= cs@);
    }
    out
}

/// The pieces of `cs` between `sep` characters.
pub fn split_on(cs: &Vec<char>, sep: char) -> (r: Vec<Vec<char>>)
    ensures
        r@.len() == pieces_between(cs@, sep).len(),
        forall|i: int| 0 <= i < r@.len() ==> (#[trigger] r@[i])@ == pieces_between(cs@, sep)[i],
{
    let mut out: Vec<Vec<char>> = Vec::new();
    out.push(Vec::new());
    proof {
        assert(cs@.take(0) =~= Seq::<char>::empty());
    }
    let mut i: usize = 0;
    while i < cs.len()
        invariant
            i <= cs.len(),
            out@.len() == pieces_between(cs@.take(i as int), sep).len(),
            out@.len() >= 1,
            forall|k: int| 0 <= k < out@.len() ==> (#[trigger] out@[k])@ == pieces_between(cs@.take(i as int), sep)[k],
        decreases cs.len() - i,
    {
        let c = cs[i];
        proof {
            assert(cs@.take(i + 1).drop_last() =~= cs@.take(i as int));
            assert(cs@.take(i + 1).last() == c);
        }
        if c == sep {
            out.push(Vec::new());
        } else {
            let last = out.len() - 1;
            let mut w = out[last].clone();
            w.push(c);
            out.set(last, w);
        }
        i = i + 1;
        proof {
            let st = pieces_between(cs@.take(i as int), sep);
            assert forall|k: int| 0 <= k < out@.len() implies (#[trigger] out@[k])@ == st[k] by {}
        }
    }
    proof {
        assert(cs@.take(cs@.len() as int) =~= cs@);
    }
    out
}

/// The value of an ASCII digit.
pub open spec fn digit_value(c: char) -> int {
    c as int - 48
}

/// Whether `c` is an ASCII digit.
pub open spec fn is_digit(c: char) -> bool {
    '0' <= c && c <= '9'
}

/// The value of a run of ASCII digits.
pub open spec fn digits_value(s: Seq<char>) -> int
    decreases s.len(),
{
    if s.len() == 0 {
        0
    } else {
        digits_value(s.drop_last()) * 10 + digit_value(s.last())
    }
}

/// The digits part of a number: without its leading `+`, if any.
pub open spec fn unsigned_part(s: Seq<char>) -> Seq<char> {
    if s.len() > 0 && s[0] == '+' {
        s.drop_first()
    } else {
        s
    }
}

/// Every character is an ASCII digit.
pub open spec fn all_digits(d: Seq<char>) -> bool {
    forall|i: int| 0 <= i < d.len() ==> is_digit(#[trigger] d[i])
}

/// What `str::parse::<u16>` gives: an optional `+`, then one or more ASCII digits
/// whose value fits in 16 bits.
pub open spec fn parse_u16(s: Seq<char>) -> Option<u16> {
    let d = unsigned_part(s);
    if d.len() > 0 && all_digits(d) && digits_value(d) <= 65535 {
        Some(digits_value(d) as u16)
    } else {
        None
    }
}

/// Parses a decimal `u16` as `str::parse` does.
pub fn parse_u16_chars(s: &Vec<char>) -> (r: Option<u16>)
    ensures
        r == parse_u16(s@),
{
    let start: usize = if s.len() > 0 && s[0] == '+' {
        1
    } else {
        0
    };
    let ghost d = unsigned_part(s@);
    proof {
        assert(d =~= s@.skip(start as int));
    }
    if start >= s.len() {
        return None;
    }
    let mut value: u32 = 0;
    let mut i = start;
    while i < s.len()
        invariant
            start <= i <= s.len(),
            d =~= s@.skip(start as int),
            d == unsigned_part(s@),
            forall|k: int| start <= k < i ==> is_digit(#[trigger] s@[k]),
            value as int == digits_value(s@.subrange(start as int, i as int)),
            value <= 65535,
        decreases s.len() - i,
    {
        let c = s[i];
        if !('0' <= c && c <= '9') {
            proof {
                assert(d[i - start] == c);
                assert(!is_digit(d[i - start]));
                assert(!all_digits(d));
                assert(parse_u16(s@) is None);
            }
            return None;
        }
        proof {
            assert(s@.subrange(start as int, i + 1).drop_last() =~= s@.subrange(start as int, i as int));
        }
        let next = value * 10 + (c as u32 - 48);
        if next > 65535 {
            proof {
                assert(d.take((i + 1 - start) as int) =~= s@.subrange(start as int, i + 1));
                if all_digits(d) {
                    lemma_digits_monotone(d, (i + 1 - start) as int);
                    assert(digits_value(d) > 65535);
                }
                assert(parse_u16(s@) is None);
            }
            return None;
        }
        value = next;
        i = i + 1;
    }
    proof {
        assert(s@.subrange(start as int, s@.len() as int) =~= d);
    }
    Some(value as u16)
}

/// A prefix of a run of digits is worth no more than the whole run.
pub proof fn lemma_digits_monotone(d: Seq<char>, n: int)
    requires
        0 <= n <= d.len(),
        forall|i: int| 0 <= i < d.len() ==> is_digit(#[trigger] d[i]),
    ensures
        digits_value(d.take(n)) <= digits_value(d),
        digits_value(d.take(n)) >= 0,
    decreases d.len(),
{
    if d.len() == 0 {
        assert(d.take(n) =~= d);
    } else if n == d.len() {
        assert(d.take(n) =~= d);
        lemma_digits_nonneg(d);
    } else {
        assert(d.drop_last().take(n) =~= d.take(n));
        lemma_digits_monotone(d.drop_last(), n);
        lemma_digits_nonneg(d.drop_last());
    }
}

/// A run of digits has a non-negative value.
pub proof fn lemma_digits_nonneg(d: Seq<char>)
    requires
        forall|i: int| 0 <= i < d.len() ==> is_digit(#[trigger] d[i]),
    ensures
        digits_value(d) >= 0,
    decreases d.len(),
{
    if d.len() > 0 {
        lemma_digits_nonneg(d.drop_last());
    }
}

/// Squares given to the pieces chosen by `sel` by the FEN rank text `cs` on board
/// rank `rank`, the file count starting at `file`: digits skip files, letters
/// place pieces.
pub open spec fn rank_squares(cs: Seq<char>, rank: int, file: int, sel: spec_fn(Piece) -> bool) -> Set<int>
    decreases cs.len(),
{
    if cs.len() == 0 {
        Set::empty()
    } else if is_digit(cs[0]) {
        rank_squares(cs.drop_first(), rank, file + digit_value(cs[0]), sel)
    } else {
        let rest = rank_squares(cs.drop_first(), rank, file + 1, sel);
        match fen_piece(cs[0]) {
            Some(p) => if sel(p) {
                rest.insert(rank * 8 + file)
            } else {
                rest
            },
            None => rest,
        }
    }
}

/// A FEN rank text that places every piece on the board and whose file count
/// stays within 32 bits.
pub open spec fn rank_ok(cs: Seq<char>, rank: int, file: int) -> bool
    decreases cs.len(),
{
    if cs.len() == 0 {
        true
    } else if is_digit(cs[0]) {
        file + digit_value(cs[0]) <= 0xffff_ffff && rank_ok(cs.drop_first(), rank, file + digit_value(cs[0]))
    } else {
        fen_piece(cs[0]) is Some && rank * 8 + file < 64 && rank_ok(cs.drop_first(), rank, file + 1)
    }
}

/// Squares given to the pieces chosen by `sel` by the first `n` rank texts
/// (top rank first).
pub open spec fn placed(ranks: Seq<Seq<char>>, n: int, sel: spec_fn(Piece) -> bool) -> Set<int>
    decreases n,
{
    if n <= 0 {
        Set::empty()
    } else {
        placed(ranks, n - 1, sel) + rank_squares(ranks[n - 1], 7 - (n - 1), 0, sel)
    }
}

/// The rank texts of a FEN's placement field.
pub open spec fn fen_ranks(s: Seq<char>) -> Seq<Seq<char>> {
    pieces_between(words(s)[0], '/')
}

/// FENs `Board::parse` reads without failing: a placement field with eight
/// well-formed ranks (any further ranks are ignored).
pub open spec fn fen_ok(s: Seq<char>) -> bool {
    &&& words(s).len() >= 1
    &&& fen_ranks(s).len() >= 8
    &&& forall|k: int| 0 <= k < 8 ==> rank_ok(#[trigger] fen_ranks(s)[k], 7 - k, 0)
}

/// Pieces of slot `i`.
pub open spec fn slot_sel(i: int) -> spec_fn(Piece) -> bool {
    |p: Piece| p.index() == i
}

/// Pieces of colour `c`.
pub open spec fn colour_sel(c: int) -> spec_fn(Piece) -> bool {
    |p: Piece| p.side().index() == c
}

/// The square written as a two-character coordinate such as `e3`.
pub open spec fn square_from_chars(cs: Seq<char>) -> Option<SQ> {
    if cs.len() == 2 && 'a' <= cs[0] && cs[0] <= 'h' && '1' <= cs[1] && cs[1] <= '8' {
        Some(SQ(((cs[1] as int - 49) * 8 + (cs[0] as int - 97)) as u8))
    } else {
        None
    }
}

/// Word `k` of a FEN, or nothing.
pub open spec fn field(s: Seq<char>, k: int) -> Option<Seq<char>> {
    if k < words(s).len() {
        Some(words(s)[k])
    } else {
        None
    }
}

/// Side to move named by the second field: `b` first means black; anything
/// else, or no field, white.
pub open spec fn fen_side(s: Seq<char>) -> Color {
    match field(s, 1) {
        Some(w) => if w.len() > 0 && w[0] == 'b' {
            Color::Black
        } else {
            Color::White
        },
        None => Color::White,
    }
}

/// Castling rights from the third field, none when it is missing or malformed.
pub open spec fn fen_castling(s: Seq<char>) -> u8 {
    match field(s, 2) {
        Some(w) => match castling_from_fen(w) {
            Some(c) => c.0,
            None => 0,
        },
        None => 0,
    }
}

/// En-passant square from the fourth field: none for `-`, a missing field or a
/// malformed coordinate.
pub open spec fn fen_ep(s: Seq<char>) -> Option<SQ> {
    match field(s, 3) {
        Some(w) => if w =~= seq!['-'] {
            None
        } else {
            square_from_chars(w)
        },
        None => None,
    }
}

/// A clock from field `k`, `default` when missing or unparsable.
pub open spec fn fen_clock(s: Seq<char>, k: int, default: u16) -> u16 {
    match field(s, k) {
        Some(w) => match parse_u16(w) {
            Some(v) => v,
            None => default,
        },
        None => default,
    }
}

/// Parses a two-character square.
fn square_from_chars_exec(cs: &Vec<char>) -> (r: Option<SQ>)
    ensures
        r == square_from_chars(cs@),
{
    if cs.len() != 2 {
        return None;
    }
    let f = cs[0];
    let k = cs[1];
    if 'a' <= f && f <= 'h' && '1' <= k && k <= '8' {
        Some(SQ(((k as u32 - 49) * 8 + (f as u32 - 97)) as u8))
    } else {
        None
    }
}

/// Places the pieces of one FEN rank text on board rank `rank`.
fn place_rank(bbs: &mut [Bitboard; 12], player_bbs: &mut [Bitboard; 2], cs: &Vec<char>, rank: u32)
    requires
        rank < 8,
        rank_ok(cs@, rank as int, 0),
    ensures
        forall|i: int| 0 <= i < 12 ==> (#[trigger] final(bbs)[i])@ == old(bbs)[i]@ + rank_squares(cs@, rank as int, 0, slot_sel(i)),
        forall|c: int| 0 <= c < 2 ==> (#[trigger] final(player_bbs)[c])@ == old(player_bbs)[c]@ + rank_squares(cs@, rank as int, 0, colour_sel(c)),
{
    let ghost b0 = *bbs;
    let ghost p0 = *player_bbs;
    let mut file: u32 = 0;
    let mut k: usize = 0;
    proof {
        assert(cs@.skip(0) =~= cs@);
        assert forall|i: int| 0 <= i < 12 implies (#[trigger] bbs[i])@ + rank_squares(cs@.skip(0), rank as int, 0, slot_sel(i)) == b0[i]@ + rank_squares(cs@, rank as int, 0, slot_sel(i)) by {
            assert(cs@.skip(0) =~= cs@);
        }
        assert forall|c: int| 0 <= c < 2 implies (#[trigger] player_bbs[c])@ + rank_squares(cs@.skip(0), rank as int, 0, colour_sel(c)) == p0[c]@ + rank_squares(cs@, rank as int, 0, colour_sel(c)) by {
            assert(cs@.skip(0) =~= cs@);
        }
    }
    while k < cs.len()
        invariant
            k <= cs.len(),
            rank < 8,
            rank_ok(cs@.skip(k as int), rank as int, file as int),
            forall|i: int| 0 <= i < 12 ==> (#[trigger] bbs[i])@ + rank_squares(cs@.skip(k as int), rank as int, file as int, slot_sel(i)) == b0[i]@ + rank_squares(cs@, rank as int, 0, slot_sel(i)),
            forall|c: int| 0 <= c < 2 ==> (#[trigger] player_bbs[c])@ + rank_squares(cs@.skip(k as int), rank as int, file as int, colour_sel(c)) == p0[c]@ + rank_squares(cs@, rank as int, 0, colour_sel(c)),
        decreases cs.len() - k,
    {
        let c = cs[k];
        let ghost rest = cs@.skip(k + 1);
        proof {
            assert(cs@.skip(k as int).drop_first() =~= rest);
            assert(cs@.skip(k as int)[0] == c);
        }
        if '0' <= c && c <= '9' {
            let d = c as u32 - 48;
            file = file + d;
            proof {
                assert forall|i: int| 0 <= i < 12 implies (#[trigger] bbs[i])@ + rank_squares(rest, rank as int, file as int, slot_sel(i)) == b0[i]@ + rank_squares(cs@, rank as int, 0, slot_sel(i)) by {}
                assert forall|cc: int| 0 <= cc < 2 implies (#[trigger] player_bbs[cc])@ + rank_squares(rest, rank as int, file as int, colour_sel(cc)) == p0[cc]@ + rank_squares(cs@, rank as int, 0, colour_sel(cc)) by {}
            }
        } else {
            let piece = Piece::from_fen(c).unwrap();
            let idx = (rank * 8 + file) as usize;
            let slot = piece.to_index();
            let side = piece.color().to_index();
            let ghost bb_before = *bbs;
            let ghost pb_before = *player_bbs;
            let mut b = bbs[slot];
            b.set(idx);
            bbs[slot] = b;
            let mut pb = player_bbs[side];
            pb.set(idx);
            player_bbs[side] = pb;
            proof {
                assert forall|i: int| 0 <= i < 12 implies (#[trigger] bbs[i])@ + rank_squares(rest, rank as int, file + 1, slot_sel(i)) == b0[i]@ + rank_squares(cs@, rank as int, 0, slot_sel(i)) by {
                    let r = rank_squares(rest, rank as int, file + 1, slot_sel(i));
                    if i == slot {
                        assert(bbs[i]@ + r =~= bb_before[i]@ + r.insert(idx as int));
                    } else {
                        assert(bbs[i] == bb_before[i]);
                    }
                }
                assert forall|cc: int| 0 <= cc < 2 implies (#[trigger] player_bbs[cc])@ + rank_squares(rest, rank as int, file + 1, colour_sel(cc)) == p0[cc]@ + rank_squares(cs@, rank as int, 0, colour_sel(cc)) by {
                    let r = rank_squares(rest, rank as int, file + 1, colour_sel(cc));
                    if cc == side {
                        assert(player_bbs[cc]@ + r =~= pb_before[cc]@ + r.insert(idx as int));
                    } else {
                        assert(player_bbs[cc] == pb_before[cc]);
                    }
                }
            }
            file = file + 1;
        }
        k = k + 1;
    }
    proof {
        assert forall|i: int| 0 <= i < 12 implies (#[trigger] bbs[i])@ == b0[i]@ + rank_squares(cs@, rank as int, 0, slot_sel(i)) by {
            assert(bbs[i]@ + Set::<int>::empty() =~= bbs[i]@);
        }
        assert forall|c: int| 0 <= c < 2 implies (#[trigger] player_bbs[c])@ == p0[c]@ + rank_squares(cs@, rank as int, 0, colour_sel(c)) by {
            assert(player_bbs[c]@ + Set::<int>::empty() =~= player_bbs[c]@);
        }
    }
}

/// What `Board::parse` makes of `fen`: the piece and colour sets of the
/// placement field, and the fields after it.
pub open spec fn reads_as(fen: Seq<char>, b: Board) -> bool {
    &&& forall|i: int| 0 <= i < 12 ==> (#[trigger] b.bbs[i])@ == placed(fen_ranks(fen), 8, slot_sel(i))
    &&& forall|c: int| 0 <= c < 2 ==> (#[trigger] b.player_bbs[c])@ == placed(fen_ranks(fen), 8, colour_sel(c))
    &&& b.side_to_move == fen_side(fen)
    &&& b.castling.0 == fen_castling(fen)
    &&& b.en_passant == fen_ep(fen)
    &&& b.halfmove_clock == fen_clock(fen, 4, 0)
    &&& b.fullmove_number == fen_clock(fen, 5, 1)
}

/// The board `Board::parse` reads from `fen`.
pub open spec fn read_board(fen: Seq<char>) -> Board {
    choose|b: Board| reads_as(fen, b)
}

/// A FEN reads as one board.
pub proof fn lemma_read_board(fen: Seq<char>, b: Board)
    requires
        reads_as(fen, b),
    ensures
        b == read_board(fen),
{
    let x = read_board(fen);
    assert(reads_as(fen, x));
    assert forall|i: int| 0 <= i < 12 implies x.bbs[i] == b.bbs[i] by {
        assert(x.bbs[i]@ == b.bbs[i]@);
        lemma_squares_injective(x.bbs[i].board, b.bbs[i].board);
    }
    assert forall|i: int| 0 <= i < 2 implies x.player_bbs[i] == b.player_bbs[i] by {
        assert(x.player_bbs[i]@ == b.player_bbs[i]@);
        lemma_squares_injective(x.player_bbs[i].board, b.player_bbs[i].board);
    }
    assert(x.bbs =~= b.bbs);
    assert(x.player_bbs =~= b.player_bbs);
    assert(x.castling == CastlingRights(x.castling.0));
}

impl Board {
    /// Reads a FEN. The placement field fills the piece sets (the first rank text
    /// is rank 8); side to move, castling rights, en-passant square and the two
    /// clocks come from the following fields, with white, no rights, no square,
    /// 0 and 1 when a field is missing or malformed.
    pub fn parse(fen: &str) -> (r: Board)
        requires
            fen_ok(fen@),
        ensures
            forall|i: int| 0 <= i < 12 ==> (#[trigger] r.bbs[i])@ == placed(fen_ranks(fen@), 8, slot_sel(i)),
            forall|c: int| 0 <= c < 2 ==> (#[trigger] r.player_bbs[c])@ == placed(fen_ranks(fen@), 8, colour_sel(c)),
            r.side_to_move == fen_side(fen@),
            r.castling.0 == fen_castling(fen@),
            r.en_passant == fen_ep(fen@),
            r.halfmove_clock == fen_clock(fen@, 4, 0),
            r.fullmove_number == fen_clock(fen@, 5, 1),
    {
        let cs = str_chars(fen);
        let parts = split_words(&cs);
        let ranks = split_on(&parts[0], '/');
        let mut board = Board::new();
        let ghost rk = fen_ranks(fen@);
        proof {
            assert forall|i: int| 0 <= i < 12 implies (#[trigger] board.bbs[i])@ == placed(rk, 0, slot_sel(i)) by {}
            assert forall|c: int| 0 <= c < 2 implies (#[trigger] board.player_bbs[c])@ == placed(rk, 0, colour_sel(c)) by {}
        }
        let mut fen_rank: u32 = 0;
        while fen_rank < 8
            invariant
                fen_rank <= 8,
                fen_ok(fen@),
                ranks@.len() == rk.len(),
                rk == fen_ranks(fen@),
                cs@ == fen@,
                forall|k: int| 0 <= k < ranks@.len() ==> (#[trigger] ranks@[k])@ == rk[k],
                forall|i: int| 0 <= i < 12 ==> (#[trigger] board.bbs[i])@ == placed(rk, fen_rank as int, slot_sel(i)),
                forall|c: int| 0 <= c < 2 ==> (#[trigger] board.player_bbs[c])@ == placed(rk, fen_rank as int, colour_sel(c)),
                board.side_to_move == Color::White,
                board.castling.0 == 0,
                board.en_passant is None,
                board.halfmove_clock == 0,
                board.fullmove_number == 1,
            decreases 8 - fen_rank,
        {
            let rank = 7 - fen_rank;
            proof {
                assert(rank_ok(rk[fen_rank as int], 7 - fen_rank, 0));
            }
            place_rank(&mut board.bbs, &mut board.player_bbs, &ranks[fen_rank as usize], rank);
            fen_rank = fen_rank + 1;
        }

        let side_to_move = if parts.len() > 1 && parts[1].len() > 0 && parts[1][0] == 'b' {
            Color::Black
        } else {
            Color::White
        };
        let castling = if parts.len() > 2 {
            match CastlingRights::from_fen_chars(&parts[2]) {
                Some(c) => c,
                None => CastlingRights::empty(),
            }
        } else {
            CastlingRights::empty()
        };
        let en_passant = if parts.len() > 3 {
            if parts[3].len() == 1 && parts[3][0] == '-' {
                proof {
                    assert(parts@[3]@ =~= seq!['-']);
                }
                None
            } else {
                proof {
                    assert(!(parts@[3]@ =~= seq!['-']));
                }
                square_from_chars_exec(&parts[3])
            }
        } else {
            None
        };
        let halfmove_clock = if parts.len() > 4 {
            match parse_u16_chars(&parts[4]) {
                Some(v) => v,
                None => 0,
            }
        } else {
            0
        };
        let fullmove_number = if parts.len() > 5 {
            match parse_u16_chars(&parts[5]) {
                Some(v) => v,
                None => 1,
            }
        } else {
            1
        };
        board.side_to_move = side_to_move;
        board.castling = castling;
        board.en_passant = en_passant;
        board.halfmove_clock = halfmove_clock;
        board.fullmove_number = fullmove_number;
        board
    }
}

/// Whether one FEN rank text places its pieces on the board.
fn rank_valid(cs: &Vec<char>, rank: u32) -> (r: bool)
    requires
        rank < 8,
    ensures
        r == rank_ok(cs@, rank as int, 0),
{
    let mut file: u64 = 0;
    let mut k: usize = 0;
    assert(cs@.skip(0) =~= cs@);
    while k < cs.len()
        invariant
            k <= cs.len(),
            rank < 8,
            file <= 0xffff_ffff,
            rank_ok(cs@, rank as int, 0) == rank_ok(cs@.skip(k as int), rank as int, file as int),
        decreases cs.len() - k,
    {
        let c = cs[k];
        proof {
            assert(cs@.skip(k as int)[0] == c);
            assert(cs@.skip(k as int).drop_first() =~= cs@.skip(k + 1));
        }
        if '0' <= c && c <= '9' {
            let d = (c as u32 - 48) as u64;
            if file + d > 0xffff_ffff {
                return false;
            }
            file = file + d;
        } else {
            if Piece::from_fen(c).is_none() || (rank as u64) * 8 + file >= 64 {
                return false;
            }
            file = file + 1;
        }
        k = k + 1;
    }
    proof {
        assert(cs@.skip(k as int) =~= Seq::<char>::empty());
    }
    true
}

/// Whether `Board::parse` reads `fen` without failing.
pub fn fen_valid(fen: &str) -> (r: bool)
    ensures
        r == fen_ok(fen@),
{
    let cs = str_chars(fen);
    let parts = split_words(&cs);
    if parts.len() < 1 {
        return false;
    }
    let ranks = split_on(&parts[0], '/');
    if ranks.len() < 8 {
        return false;
    }
    let ghost rk = fen_ranks(fen@);
    let mut k: usize = 0;
    while k < 8
        invariant
            k <= 8,
            ranks@.len() == rk.len(),
            rk.len() >= 8,
            rk == fen_ranks(fen@),
            forall|j: int| 0 <= j < ranks@.len() ==> (#[trigger] ranks@[j])@ == rk[j],
            forall|j: int| 0 <= j < k ==> rank_ok(#[trigger] rk[j], 7 - j, 0),
        decreases 8 - k,
    {
        if !rank_valid(&ranks[k], (7 - k) as u32) {
            return false;
        }
        k = k + 1;
    }
    true
}

} // verus!
