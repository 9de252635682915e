use vstd::prelude::*;
use crate::bitboard::{Bitboard, bit, lemma_bit_ops};
use crate::board::{Board, holder, holder_from};
use crate::piece_move::{file_char, rank_char};
use crate::pieces::{Color, Piece, piece_at_index, piece_glyph};
use crate::text::{decimal, push_decimal, push_str};

verus! {

/// The frame line above and below the board.
pub open spec fn border_text() -> Seq<char> {
    "  +-------------------------------+\n"@
}

/// The file letters under the board.
pub open spec fn files_text() -> Seq<char> {
    "    A   B   C   D   E   F   G   H\n"@
}

/// What a square shows: the glyph of its piece, or a blank.
pub open spec fn cell(b: Board, s: int) -> char {
    match holder(b, s) {
        Some(k) => piece_glyph(piece_at_index(k)),
        None => ' ',
    }
}

/// The cells of rank `r` from file `f` on.
pub open spec fn cells_text(b: Board, r: int, f: int) -> Seq<char>
    decreases 8 - f,
{
    if f < 0 || f >= 8 {
        Seq::empty()
    } else {
        seq!['|', ' ', cell(b, r * 8 + f), ' '] + cells_text(b, r, f + 1)
    }
}

/// The ranks from `r` down to the first, each a line.
pub open spec fn ranks_text(b: Board, r: int) -> Seq<char>
    decreases r + 1,
{
    if r < 0 {
        Seq::empty()
    } else {
        decimal((r + 1) as nat) + seq![' '] + cells_text(b, r, 0) + seq!['|', '\n'] + ranks_text(b, r - 1)
    }
}

/// The castling rights as FEN letters, `-` for none.
pub open spec fn castling_text(c: u8) -> Seq<char> {
    let s = (if c & 1 != 0 { seq!['K'] } else { Seq::empty() }) + (if c & 2 != 0 {
        seq!['Q']
    } else {
        Seq::empty()
    }) + (if c & 4 != 0 { seq!['k'] } else { Seq::empty() }) + (if c & 8 != 0 {
        seq!['q']
    } else {
        Seq::empty()
    });
    if s.len() == 0 {
        seq!['-']
    } else {
        s
    }
}

/// The status line under the board.
pub open spec fn status_text(b: Board) -> Seq<char> {
    "  stm="@ + (if b.side_to_move == Color::White { seq!['w'] } else { seq!['b'] }) + " castling="@
        + castling_text(b.castling.0) + " ep="@ + (match b.en_passant {
        None => seq!['-'],
        Some(sq) => seq![file_char(sq), rank_char(sq)],
    }) + " halfmove="@ + decimal(b.halfmove_clock as nat) + " fullmove="@ + decimal(
        b.fullmove_number as nat,
    ) + seq!['\n']
}

/// The whole picture of a board.
pub open spec fn board_text(b: Board) -> Seq<char> {
    border_text() + ranks_text(b, 7) + files_text() + border_text() + status_text(b)
}

/// The glyph of the piece on `sq`, or a blank.
fn cell_at(b: &Board, sq: usize) -> (r: char)
    requires
        sq < 64,
    ensures
        r == cell(*b, sq as int),
{
    let mut k: usize = 0;
    while k < 12
        invariant
            sq < 64,
            k <= 12,
            holder(*b, sq as int) == holder_from(*b, sq as int, k as int),
        decreases 12 - k,
    {
        if b.bbs[k].get(sq) {
            return Piece::from_index(k).glyph();
        }
        k = k + 1;
    }
    ' '
}

/// Appends the ranks, eighth to first.
fn push_ranks(b: &Board, s: &mut String)
    ensures
        final(s)@ == old(s)@ + ranks_text(*b, 7),
{
    let ghost top = s@;
    let mut r: usize = 8;
    assert(s@ + ranks_text(*b, 7) =~= top + ranks_text(*b, 7));
    while r > 0
        invariant
            r <= 8,
            s@ + ranks_text(*b, r - 1) == top + ranks_text(*b, 7),
        decreases r,
    {
        let rank = r - 1;
        let ghost row_start = s@;
        push_decimal(s, (rank + 1) as u64);
        s.push(' ');
        let ghost cells_start = s@;
        let mut f: usize = 0;
        assert(s@ + cells_text(*b, rank as int, 0) =~= cells_start + cells_text(*b, rank as int, 0));
        while f < 8
            invariant
                rank < 8,
                f <= 8,
                s@ + cells_text(*b, rank as int, f as int) == cells_start + cells_text(*b, rank as int, 0),
            decreases 8 - f,
        {
            let c = cell_at(b, rank * 8 + f);
            let ghost before = s@;
            s.push('|');
            s.push(' ');
            s.push(c);
            s.push(' ');
            proof {
                assert(s@ =~= before + seq!['|', ' ', c, ' ']);
                assert(s@ + cells_text(*b, rank as int, f + 1) =~= before + cells_text(*b, rank as int, f as int));
            }
            f = f + 1;
        }
        s.push('|');
        s.push('\n');
        proof {
            assert(cells_text(*b, rank as int, 8) =~= Seq::<char>::empty());
            assert(s@ =~= row_start + decimal((rank + 1) as nat) + seq![' '] + cells_text(*b, rank as int, 0) + seq![
                '|',
                '\n',
            ]);
            assert(s@ + ranks_text(*b, rank - 1) =~= row_start + ranks_text(*b, rank as int));
        }
        r = r - 1;
    }
    proof {
        assert(ranks_text(*b, -1) =~= Seq::<char>::empty());
        assert(s@ =~= top + ranks_text(*b, 7));
    }
}

/// Appends the castling letters.
fn push_castling(c: u8, s: &mut String)
    ensures
        final(s)@ == old(s)@ + castling_text(c),
{
    let wk = c & 1 != 0;
    let wq = c & 2 != 0;
    let bk = c & 4 != 0;
    let bq = c & 8 != 0;
    if wk {
        s.push('K');
    }
    if wq {
        s.push('Q');
    }
    if bk {
        s.push('k');
    }
    if bq {
        s.push('q');
    }
    if !wk && !wq && !bk && !bq {
        s.push('-');
    }
    proof {
        assert(final(s)@ =~= old(s)@ + castling_text(c));
    }
}

/// Appends the status line.
fn push_status(b: &Board, s: &mut String)
    ensures
        final(s)@ == old(s)@ + status_text(*b),
{
    proof {
        reveal_strlit("  stm=");
        reveal_strlit(" castling=");
        reveal_strlit(" ep=");
        reveal_strlit(" halfmove=");
        reveal_strlit(" fullmove=");
    }
    push_str(s, "  stm=");
    match b.side_to_move {
        Color::White => s.push('w'),
        Color::Black => s.push('b'),
    }
    push_str(s, " castling=");
    push_castling(b.castling.0, s);
    push_str(s, " ep=");
    match b.en_passant {
        None => s.push('-'),
        Some(sq) => {
            s.push((97 + sq.0 % 8) as u8 as char);
            s.push((49 + sq.0 / 8) as u8 as char);
        },
    }
    push_str(s, " halfmove=");
    push_decimal(s, b.halfmove_clock as u64);
    push_str(s, " fullmove=");
    push_decimal(s, b.fullmove_number as u64);
    s.push('\n');
    proof {
        assert(final(s)@ =~= old(s)@ + status_text(*b));
    }
}

impl Board {
    /// A picture of the board, rank 8 at the top, with the side to move,
    /// castling rights, en-passant square and clocks under it.
    pub fn render(&self) -> (r: String)
        ensures
            r@ == board_text(*self),
    {
        let mut s = String::new();
        proof {
            reveal_strlit("  +-------------------------------+\n");
            reveal_strlit("    A   B   C   D   E   F   G   H\n");
        }
        push_str(&mut s, "  +-------------------------------+\n");
        push_ranks(self, &mut s);
        push_str(&mut s, "    A   B   C   D   E   F   G   H\n");
        push_str(&mut s, "  +-------------------------------+\n");
        push_status(self, &mut s);
        proof {
            assert(s@ =~= board_text(*self));
        }
        s
    }
}

/// `'1'` for a set bit, `'0'` for a clear one.
pub open spec fn bit_char(b: u64, j: int) -> char {
    if bit(b, j as u64) {
        '1'
    } else {
        '0'
    }
}

/// Bits `start .. start + n` of `b`, lowest first.
pub open spec fn bits_up(b: u64, start: int, n: int) -> Seq<char> {
    Seq::new(n as nat, |k: int| bit_char(b, start + k))
}

/// The 64 bits of `b`, highest first.
pub open spec fn bits_down(b: u64) -> Seq<char> {
    Seq::new(64, |k: int| bit_char(b, 63 - k))
}

/// A set drawn as eight lines of eight bits, square `a1` first.
pub open spec fn grid_text(b: u64, rows: int) -> Seq<char>
    decreases rows,
{
    if rows <= 0 {
        Seq::empty()
    } else {
        grid_text(b, rows - 1) + bits_up(b, (rows - 1) * 8, 8) + seq!['\n']
    }
}

/// The twelve piece sets, one line of 64 bits each, highest bit first.
pub open spec fn sets_text(b: Board, n: int) -> Seq<char>
    decreases n,
{
    if n <= 0 {
        Seq::empty()
    } else {
        sets_text(b, n - 1) + bits_down(b.bbs[n - 1].board) + seq!['\n']
    }
}

/// Appends bit `j` of `b` as a digit.
fn push_bit(s: &mut String, b: u64, j: u32)
    requires
        j < 64,
    ensures
        final(s)@ == old(s)@.push(bit_char(b, j as int)),
{
    proof {
        lemma_bit_ops();
    }
    if (b >> j) & 1 == 1 {
        s.push('1');
    } else {
        s.push('0');
    }
}

impl Bitboard {
    /// The set as eight lines of eight bits, square `a1` first in the first
    /// line.
    pub fn render(&self) -> (r: String)
        ensures
            r@ == grid_text(self.board, 8),
    {
        let mut s = String::new();
        let mut row: u32 = 0;
        while row < 8
            invariant
                row <= 8,
                s@ == grid_text(self.board, row as int),
            decreases 8 - row,
        {
            let ghost start = s@;
            let mut col: u32 = 0;
            while col < 8
                invariant
                    row < 8,
                    col <= 8,
                    s@ == start + bits_up(self.board, row * 8, col as int),
                decreases 8 - col,
            {
                push_bit(&mut s, self.board, row * 8 + col);
                proof {
                    assert(s@ =~= start + bits_up(self.board, row * 8, col + 1));
                }
                col = col + 1;
            }
            s.push('\n');
            proof {
                assert(s@ =~= grid_text(self.board, row + 1));
            }
            row = row + 1;
        }
        s
    }
}

impl Board {
    /// The twelve piece sets as lines of 64 bits, highest square first.
    pub fn to_string(&self) -> (r: String)
        ensures
            r@ == sets_text(*self, 12),
    {
        let mut s = String::new();
        let mut i: usize = 0;
        while i < 12
            invariant
                i <= 12,
                s@ == sets_text(*self, i as int),
            decreases 12 - i,
        {
            let ghost start = s@;
            let x = self.bbs[i].board;
            let mut k: u32 = 0;
            while k < 64
                invariant
                    k <= 64,
                    s@ == start + Seq::new(k as nat, |q: int| bit_char(x, 63 - q)),
                decreases 64 - k,
            {
                push_bit(&mut s, x, 63 - k);
                proof {
                    assert(s@ =~= start + Seq::new((k + 1) as nat, |q: int| bit_char(x, 63 - q)));
                }
                k = k + 1;
            }
            s.push('\n');
            proof {
                assert(Seq::new(64nat, |q: int| bit_char(x, 63 - q)) =~= bits_down(x));
                assert(s@ =~= sets_text(*self, i + 1));
            }
            i = i + 1;
        }
        s
    }
}

} // verus!
