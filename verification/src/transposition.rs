use vstd::prelude::*;
use crate::bitboard::lemma_clear_decreases;
use crate::board::Board;
use crate::eval::{ascending, lemma_ascending_step};
use crate::piece_move::Move;
use crate::pieces::Color;
use crate::zobrist_keys::{CASTLING_KEYS, EP_FILE_KEYS, PIECE_KEYS, SIDE_KEY};

verus! {

/// Megabytes of a table made by `default_size`.
pub const DEFAULT_SIZE_MB: usize = 16;

/// Bytes budgeted for one slot of the table.
pub const ENTRY_BYTES: usize = 32;

/// How a stored score relates to the true one: exact, at least (a beta
/// cutoff), or at most (no move beat alpha).
#[derive(Clone, Copy, PartialEq, Eq, Debug, Structural)]
pub enum Bound {
    Exact,
    LowerBound,
    UpperBound,
}

/// What the table remembers of a searched position.
#[derive(Clone, Copy, Debug)]
pub struct TTEntry {
    pub key: u64,
    pub score: i32,
    pub best_move: Option<Move>,
    pub depth: u8,
    pub bound: Bound,
}

/// A fixed-size hash table of search results, one entry per slot, indexed by
/// the low bits of the position key; a new entry replaces the old one.
pub struct TranspositionTable {
    table: Vec<Option<TTEntry>>,
    mask: usize,
}

/// `p` is a power of two.
pub open spec fn is_pow2(p: int) -> bool
    decreases p,
{
    if p <= 0 {
        false
    } else if p == 1 {
        true
    } else {
        p % 2 == 0 && is_pow2(p / 2)
    }
}

/// For a power of two `p`, the low bits under `p - 1` are the remainder
/// modulo `p`.
proof fn lemma_mask_is_remainder(p: int, x: usize)
    requires
        is_pow2(p),
        p <= usize::MAX + 1,
    ensures
        (x & ((p - 1) as usize)) as int == x as int % p,
    decreases p,
{
    if p == 1 {
        assert(x & 0usize == 0usize) by (bit_vector);
    } else {
        let q = p / 2;
        assert(is_pow2(q));
        assert(q >= 1) by {
            if q <= 0 {
                assert(!is_pow2(q));
            }
        }
        let m: usize = (q - 1) as usize;
        let h: usize = x / 2;
        lemma_mask_is_remainder(q, h);
        assert(m < usize::MAX / 2 + 1);
        let pm: usize = (2 * m + 1) as usize;
        assert((p - 1) as usize == pm);
        assert(x & pm == 2 * ((x >> 1) & m) + (x & 1)) by (bit_vector)
            requires
                pm == 2 * m + 1,
        ;
        assert(x >> 1 == x / 2) by (bit_vector);
        assert(x & 1 == x % 2) by (bit_vector);
        let k = h as int / q;
        let r = h as int % q;
        let b = x as int % 2;
        assert(h as int == k * q + r && 0 <= r < q) by {
            vstd::arithmetic::div_mod::lemma_fundamental_div_mod(h as int, q);
        }
        assert(x as int == 2 * h + b);
        assert(x as int == k * p + (2 * r + b)) by (nonlinear_arith)
            requires
                p == 2 * q,
                h as int == k * q + r,
                x as int == 2 * h + b,
        ;
        vstd::arithmetic::div_mod::lemma_fundamental_div_mod_converse(x as int, p, k, 2 * r + b);
    }
}

/// Slots of a table of `size_mb` megabytes: the largest power of two whose
/// slots fit in it (at least one).
pub open spec fn slots_for(size_mb: int, p: int) -> bool {
    let bytes = (if size_mb < 1 { 1 } else { size_mb }) * 1024 * 1024;
    is_pow2(p) && p * ENTRY_BYTES <= bytes && bytes < 2 * p * ENTRY_BYTES
}

impl TranspositionTable {
    /// The slots, in order.
    pub closed spec fn slots(&self) -> Seq<Option<TTEntry>> {
        self.table@
    }

    /// The slot that a key maps to.
    pub closed spec fn slot_of(&self, key: u64) -> int {
        ((key as usize) & self.mask) as int
    }

    /// The slots number one more than the mask, a power of two, so every key
    /// maps into them.
    pub closed spec fn wf(&self) -> bool {
        &&& self.table@.len() == self.mask + 1
        &&& is_pow2(self.mask + 1)
    }

    /// A key's slot is the key (as a `usize`) modulo the number of slots.
    pub proof fn lemma_slot_is_remainder(&self, key: u64)
        requires
            self.wf(),
        ensures
            self.slot_of(key) == (key as usize) as int % (self.slots().len() as int),
    {
        lemma_mask_is_remainder((self.mask + 1) as int, key as usize);
    }

    /// Every key maps to a slot of a well-formed table.
    pub proof fn lemma_slot_in_range(&self, key: u64)
        requires
            self.wf(),
        ensures
            0 <= self.slot_of(key) < self.slots().len(),
    {
        Self::lemma_mask(self.mask);
    }

    /// Every slot is empty.
    pub open spec fn is_empty(&self) -> bool {
        forall|i: int| 0 <= i < self.slots().len() ==> #[trigger] self.slots()[i] is None
    }

    /// What `probe` finds for `key`: the entry of its slot, if it has that key.
    pub open spec fn lookup(&self, key: u64) -> Option<TTEntry> {
        match self.slots()[self.slot_of(key)] {
            Some(e) => if e.key == key {
                Some(e)
            } else {
                None
            },
            None => None,
        }
    }

    proof fn lemma_mask(mask: usize)
        ensures
            forall|key: u64| #[trigger] ((key as usize) & mask) <= mask,
    {
        assert forall|key: u64| #[trigger] ((key as usize) & mask) <= mask by {
            let k = key as usize;
            assert(k & mask <= mask) by (bit_vector);
        }
    }

    /// A table sized to `size_mb` megabytes (at least one), every slot empty.
    pub fn new(size_mb: usize) -> (r: Self)
        requires
            size_mb * 1048576 <= usize::MAX,
        ensures
            r.wf(),
            slots_for(size_mb as int, r.slots().len() as int),
            forall|i: int| 0 <= i < r.slots().len() ==> #[trigger] r.slots()[i] is None,
    {
        let mb = if size_mb < 1 { 1 } else { size_mb };
        let bytes = mb * 1024 * 1024;
        let want = bytes / ENTRY_BYTES;
        let mut count: usize = 1;
        while count <= bytes / 64
            invariant
                bytes == mb * 1024 * 1024,
                1 <= mb,
                mb * 1048576 <= usize::MAX,
                1 <= count,
                is_pow2(count as int),
                count * ENTRY_BYTES <= bytes,
            decreases bytes - count * ENTRY_BYTES,
        {
            proof {
                assert(is_pow2(count * 2));
            }
            count = count * 2;
        }
        let mut table: Vec<Option<TTEntry>> = Vec::new();
        while table.len() < count
            invariant
                table.len() <= count,
                forall|i: int| 0 <= i < table.len() ==> #[trigger] table@[i] is None,
            decreases count - table.len(),
        {
            table.push(None);
        }
        proof {
            assert(is_pow2((count - 1) as usize + 1));
        }
        TranspositionTable { table, mask: count - 1 }
    }

    /// A table of the default size.
    pub fn default_size() -> (r: Self)
        ensures
            r.wf(),
            slots_for(DEFAULT_SIZE_MB as int, r.slots().len() as int),
            forall|i: int| 0 <= i < r.slots().len() ==> #[trigger] r.slots()[i] is None,
    {
        Self::new(DEFAULT_SIZE_MB)
    }

    /// The entry stored for `key`, if its slot holds that key.
    pub fn probe(&self, key: u64) -> (r: Option<TTEntry>)
        requires
            self.wf(),
        ensures
            r == self.lookup(key),
    {
        let idx = (key as usize) & self.mask;
        proof {
            self.lemma_slot_in_range(key);
        }
        match self.table[idx] {
            Some(entry) => if entry.key == key {
                Some(entry)
            } else {
                None
            },
            None => None,
        }
    }

    /// Puts `entry` in its key's slot, replacing whatever was there.
    pub fn store(&mut self, entry: TTEntry)
        requires
            old(self).wf(),
        ensures
            final(self).wf(),
            final(self).slots() == old(self).slots().update(old(self).slot_of(entry.key), Some(entry)),
            forall|key: u64| #[trigger] final(self).slot_of(key) == old(self).slot_of(key),
    {
        let idx = (entry.key as usize) & self.mask;
        proof {
            self.lemma_slot_in_range(entry.key);
        }
        self.table.set(idx, Some(entry));
    }

    /// Empties every slot; the size stays.
    pub fn clear(&mut self)
        requires
            old(self).wf(),
        ensures
            final(self).wf(),
            final(self).slots().len() == old(self).slots().len(),
            forall|i: int| 0 <= i < final(self).slots().len() ==> #[trigger] final(self).slots()[i] is None,
            forall|key: u64| #[trigger] final(self).slot_of(key) == old(self).slot_of(key),
    {
        let n = self.table.len();
        let mut i: usize = 0;
        while i < n
            invariant
                n == self.table@.len(),
                self.table@.len() == old(self).table@.len(),
                self.mask == old(self).mask,
                self.wf(),
                i <= n,
                forall|j: int| 0 <= j < i ==> #[trigger] self.table@[j] is None,
            decreases n - i,
        {
            self.table.set(i, None);
            i = i + 1;
        }
    }

    /// Number of slots.
    pub fn capacity(&self) -> (r: usize)
        ensures
            r == self.slots().len(),
    {
        self.table.len()
    }
}

/// A read gives back what a write wrote: once `store` has put `e` in a table,
/// probing its key finds it, and a key of another slot finds what it found
/// before.
pub proof fn lemma_store_then_probe(before: TranspositionTable, after: TranspositionTable, e: TTEntry, key: u64)
    requires
        before.wf(),
        after.slots() == before.slots().update(before.slot_of(e.key), Some(e)),
        forall|k: u64| #[trigger] after.slot_of(k) == before.slot_of(k),
    ensures
        after.lookup(e.key) == Some(e),
        after.slot_of(key) != after.slot_of(e.key) ==> after.lookup(key) == before.lookup(key),
{
    before.lemma_slot_in_range(e.key);
    before.lemma_slot_in_range(key);
}

/// An emptied table finds nothing.
pub proof fn lemma_cleared_finds_nothing(t: TranspositionTable, key: u64)
    requires
        t.wf(),
        forall|i: int| 0 <= i < t.slots().len() ==> #[trigger] t.slots()[i] is None,
    ensures
        t.lookup(key) is None,
{
    t.lemma_slot_in_range(key);
}

/// Piece keys of slot `kind` on the squares `sqs`, combined.
pub open spec fn piece_keys(kind: int, sqs: Seq<int>) -> u64
    decreases sqs.len(),
{
    if sqs.len() == 0 {
        0
    } else {
        PIECE_KEYS[kind][sqs[0]] ^ piece_keys(kind, sqs.drop_first())
    }
}

/// Piece keys of slots `kind ..`.
pub open spec fn board_keys(b: Board, kind: int) -> u64
    decreases 12 - kind,
{
    if kind < 0 || kind >= 12 {
        0
    } else {
        piece_keys(kind, ascending(b.bbs[kind].board)) ^ board_keys(b, kind + 1)
    }
}

/// The Zobrist key of a position: its pieces, the side to move, the castling
/// rights and the en-passant file.
pub open spec fn zobrist_of(b: Board) -> u64 {
    let pieces = board_keys(b, 0);
    let side = if b.side_to_move == Color::Black {
        SIDE_KEY
    } else {
        0
    };
    let ep = match b.en_passant {
        Some(e) => EP_FILE_KEYS[(e.0 % 8) as int],
        None => 0,
    };
    pieces ^ side ^ CASTLING_KEYS[(b.castling.0 & 0xF) as int] ^ ep
}

/// The piece keys read nothing but the piece sets.
proof fn lemma_board_keys_pieces(a: Board, b: Board, kind: int)
    requires
        a.bbs == b.bbs,
    ensures
        board_keys(a, kind) == board_keys(b, kind),
    decreases 12 - kind,
{
    if 0 <= kind < 12 {
        lemma_board_keys_pieces(a, b, kind + 1);
    }
}

/// The move clocks do not enter the key: positions that differ in them alone
/// share it.
pub proof fn lemma_zobrist_ignores_clocks(a: Board, b: Board)
    requires
        a.bbs == b.bbs,
        a.side_to_move == b.side_to_move,
        a.castling == b.castling,
        a.en_passant == b.en_passant,
    ensures
        zobrist_of(a) == zobrist_of(b),
{
    lemma_board_keys_pieces(a, b, 0);
}

/// Handing the move to the other side changes the key by the side key alone,
/// so the two keys differ.
pub proof fn lemma_zobrist_side(a: Board, b: Board)
    requires
        a.bbs == b.bbs,
        a.castling == b.castling,
        a.en_passant == b.en_passant,
        a.side_to_move != b.side_to_move,
    ensures
        zobrist_of(a) ^ zobrist_of(b) == SIDE_KEY,
        zobrist_of(a) != zobrist_of(b),
{
    lemma_board_keys_pieces(a, b, 0);
    let p = board_keys(a, 0);
    let c = CASTLING_KEYS[(a.castling.0 & 0xF) as int];
    let e = match a.en_passant {
        Some(sq) => EP_FILE_KEYS[(sq.0 % 8) as int],
        None => 0u64,
    };
    let s = SIDE_KEY;
    assert((p ^ s ^ c ^ e) ^ (p ^ 0u64 ^ c ^ e) == s && (p ^ 0u64 ^ c ^ e) ^ (p ^ s ^ c ^ e) == s) by (bit_vector);
    let za = zobrist_of(a);
    let zb = zobrist_of(b);
    assert(za ^ zb == s);
    assert(s != 0);
    assert(za ^ zb == s && s != 0 ==> za != zb) by (bit_vector);
}

/// Different castling rights give different keys.
pub proof fn lemma_zobrist_castling(a: Board, b: Board)
    requires
        a.bbs == b.bbs,
        a.side_to_move == b.side_to_move,
        a.en_passant == b.en_passant,
        a.castling.0 < 16,
        b.castling.0 < 16,
        a.castling != b.castling,
    ensures
        zobrist_of(a) != zobrist_of(b),
{
    lemma_board_keys_pieces(a, b, 0);
    let ca = a.castling.0;
    let cb = b.castling.0;
    assert(ca & 0xF == ca && cb & 0xF == cb) by (bit_vector)
        requires
            ca < 16,
            cb < 16,
    ;
    assert(ca != cb);
    let ka = CASTLING_KEYS[ca as int];
    let kb = CASTLING_KEYS[cb as int];
    assert(ka != kb);
    let p = board_keys(a, 0);
    let s = if a.side_to_move == Color::Black {
        SIDE_KEY
    } else {
        0
    };
    let e = match a.en_passant {
        Some(sq) => EP_FILE_KEYS[(sq.0 % 8) as int],
        None => 0u64,
    };
    assert(ka != kb ==> p ^ s ^ ka ^ e != p ^ s ^ kb ^ e) by (bit_vector);
}

/// The Zobrist key of `board`, computed from scratch.
pub fn zobrist_hash(board: &Board) -> (r: u64)
    ensures
        r == zobrist_of(*board),
{
    let mut pieces: u64 = 0;
    let mut kind: usize = 12;
    while kind > 0
        invariant
            kind <= 12,
            pieces == board_keys(*board, kind as int),
        decreases kind,
    {
        kind = kind - 1;
        let mut bb = board.bbs[kind].board;
        let mut part: u64 = 0;
        let ghost full = ascending(board.bbs[kind as int].board);
        let ghost mut done: Seq<int> = Seq::empty();
        assert(done + ascending(bb) =~= full);
        proof {
            let x = piece_keys(kind as int, full);
            assert(0u64 ^ x == x) by (bit_vector);
        }
        while bb != 0
            invariant
                kind < 12,
                done + ascending(bb) == full,
                piece_keys(kind as int, full) == part ^ piece_keys(kind as int, ascending(bb)),
            decreases bb,
        {
            proof {
                lemma_ascending_step(bb);
            }
            let sq = bb.trailing_zeros();
            let next = bb & !(1u64 << sq);
            proof {
                assert(ascending(bb).drop_first() =~= ascending(next));
                assert(ascending(bb)[0] == sq as int);
                lemma_clear_decreases(bb, sq as u64);
                let k = PIECE_KEYS[kind as int][sq as int];
                let rest = piece_keys(kind as int, ascending(next));
                assert(part ^ (k ^ rest) == (part ^ k) ^ rest) by (bit_vector);
            }
            part = part ^ PIECE_KEYS[kind][sq as usize];
            proof {
                done = done.push(sq as int);
                assert(done + ascending(next) =~= full);
            }
            bb = next;
        }
        proof {
            assert(part ^ 0u64 == part) by (bit_vector);
        }
        pieces = part ^ pieces;
    }
    let mut h = pieces;
    if board.side_to_move == Color::Black {
        h = h ^ SIDE_KEY;
    } else {
        proof {
            assert(h ^ 0u64 == h) by (bit_vector);
        }
    }
    let c = board.castling.0;
    let rights = c & 0xF;
    assert(rights < 16) by (bit_vector)
        requires
            rights == c & 0xF,
    ;
    h = h ^ CASTLING_KEYS[rights as usize];
    match board.en_passant {
        Some(ep) => {
            h = h ^ EP_FILE_KEYS[(ep.0 % 8) as usize];
        },
        None => {
            proof {
                assert(h ^ 0u64 == h) by (bit_vector);
            }
        },
    }
    h
}

} // verus!
