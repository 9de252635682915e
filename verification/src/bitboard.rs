use vstd::prelude::*;
use vstd::std_specs::bits::{axiom_u64_leading_zeros, axiom_u64_trailing_zeros, u64_leading_zeros, u64_trailing_zeros};

verus! {

/// Bit `j` of `b`, counted from the least significant end.
pub open spec fn bit(b: u64, j: u64) -> bool {
    (b >> j) & 1u64 == 1u64
}

/// The squares (`0..64`) whose bit is set in `b`.
pub open spec fn squares_of(b: u64) -> Set<int> {
    Set::new(|i: int| 0 <= i < 64 && bit(b, i as u64))
}

/// Number of set bits of `b`.
pub open spec fn popcount(b: u64) -> nat
    decreases b,
{
    if b == 0 {
        0
    } else {
        (b % 2) as nat + popcount(b / 2)
    }
}

/// The least square of a non-empty set of squares.
pub open spec fn is_least(s: Set<int>, i: int) -> bool {
    s.contains(i) && forall|j: int| #[trigger] s.contains(j) ==> i <= j
}

/// The greatest square of a non-empty set of squares.
pub open spec fn is_greatest(s: Set<int>, i: int) -> bool {
    s.contains(i) && forall|j: int| #[trigger] s.contains(j) ==> j <= i
}

/// How each bitwise operation acts on single bits.
pub proof fn lemma_bit_ops()
    by (bit_vector)
    ensures
        forall|a: u64, b: u64, j: u64| #[trigger] bit(a & b, j) == (bit(a, j) && bit(b, j)),
        forall|a: u64, b: u64, j: u64| #[trigger] bit(a | b, j) == (bit(a, j) || bit(b, j)),
        forall|a: u64, b: u64, j: u64| #[trigger] bit(a ^ b, j) == (bit(a, j) != bit(b, j)),
        forall|a: u64, j: u64| j < 64 ==> #[trigger] bit(!a, j) == !bit(a, j),
        forall|j: u64| !#[trigger] bit(0u64, j),
        forall|j: u64| j < 64 ==> #[trigger] bit(0xffff_ffff_ffff_ffffu64, j),
        forall|j: u64, k: u64| k < 64 ==> #[trigger] bit(1u64 << k, j) == (j == k),
        forall|a: u64, k: u64, j: u64|
            k < 64 && j < 64 ==> #[trigger] bit(a << k, j) == (k <= j && bit(a, (j - k) as u64)),
        forall|a: u64, k: u64, j: u64|
            k < 64 && j < 64 ==> #[trigger] bit(a >> k, j) == (j + k < 64 && bit(
                a,
                (j + k) as u64,
            )),
        forall|a: u64, j: u64| j >= 64 ==> !#[trigger] bit(a, j),
        forall|a: u64, k: u64| k < 64 ==> (#[trigger] (a & (1u64 << k)) != 0) == bit(a, k),
{
}

/// The squares of combined words.
pub proof fn lemma_squares_ops()
    ensures
        forall|a: u64, b: u64| #[trigger] squares_of(a & b) == squares_of(a).intersect(squares_of(b)),
        forall|a: u64, b: u64| #[trigger] squares_of(a | b) == squares_of(a).union(squares_of(b)),
        forall|a: u64, b: u64| #[trigger] squares_of(a & !b) == squares_of(a).difference(squares_of(b)),
        squares_of(0) == Set::<int>::empty(),
{
    lemma_bit_ops();
    assert forall|a: u64, b: u64| #[trigger] squares_of(a & b) == squares_of(a).intersect(squares_of(b)) by {
        assert(squares_of(a & b) =~= squares_of(a).intersect(squares_of(b)));
    }
    assert forall|a: u64, b: u64| #[trigger] squares_of(a | b) == squares_of(a).union(squares_of(b)) by {
        assert(squares_of(a | b) =~= squares_of(a).union(squares_of(b)));
    }
    assert forall|a: u64, b: u64| #[trigger] squares_of(a & !b) == squares_of(a).difference(squares_of(b)) by {
        assert(squares_of(a & !b) =~= squares_of(a).difference(squares_of(b)));
    }
    assert(squares_of(0) =~= Set::<int>::empty());
}

/// The squares of shifted and complemented words.
pub proof fn lemma_squares_shift(a: u64, k: u64)
    requires
        k < 64,
    ensures
        forall|t: int| #[trigger] squares_of(a << k).contains(t) <==> (0 <= t < 64 && t >= k && squares_of(
            a,
        ).contains(t - k)),
        forall|t: int| #[trigger] squares_of(a >> k).contains(t) <==> (0 <= t < 64 && t + k < 64
            && squares_of(a).contains(t + k)),
        forall|t: int| #[trigger] squares_of(!a).contains(t) <==> (0 <= t < 64 && !squares_of(a).contains(t)),
{
    lemma_bit_ops();
    assert forall|t: int| #[trigger] squares_of(a << k).contains(t) <==> (0 <= t < 64 && t >= k && squares_of(
        a,
    ).contains(t - k)) by {
        if 0 <= t < 64 {
            assert(bit(a << k, t as u64) == (k <= t as u64 && bit(a, (t as u64 - k) as u64)));
        }
    }
    assert forall|t: int| #[trigger] squares_of(a >> k).contains(t) <==> (0 <= t < 64 && t + k < 64
        && squares_of(a).contains(t + k)) by {
        if 0 <= t < 64 {
            assert(bit(a >> k, t as u64) == (t as u64 + k < 64 && bit(a, (t as u64 + k) as u64)));
        }
    }
}

/// A word is zero exactly when it has no squares.
pub proof fn lemma_zero_iff_empty(a: u64)
    ensures
        (a == 0) == (squares_of(a) == Set::<int>::empty()),
{
    lemma_bit_ops();
    if a == 0 {
        assert(squares_of(a) =~= Set::<int>::empty());
    } else {
        lemma_trailing_zeros_least(a);
    }
}

/// Clearing a set bit makes the word smaller.
pub proof fn lemma_clear_decreases(b: u64, i: u64)
    by (bit_vector)
    requires
        i < 64,
        (b >> i) & 1u64 == 1u64,
    ensures
        b & !(1u64 << i) < b,
{
}

/// A masked low bit is either zero or one.
pub proof fn lemma_one_bit(x: u64)
    by (bit_vector)
    ensures
        x & 1u64 != 0u64 ==> x & 1u64 == 1u64,
{
}

/// Two words with the same squares are the same word.
pub proof fn lemma_squares_injective(a: u64, b: u64)
    requires
        squares_of(a) =~= squares_of(b),
    ensures
        a == b,
{
    if a != b {
        let c = a ^ b;
        assert(c != 0) by (bit_vector)
            requires
                a != b,
                c == a ^ b,
        ;
        axiom_u64_trailing_zeros(c);
        let t = u64_trailing_zeros(c) as u64;
        lemma_bit_ops();
        assert(bit(c, t));
        assert(squares_of(a).contains(t as int) == squares_of(b).contains(t as int));
    }
}

/// Bit `j` of a value whose lowest set bit is `u64_trailing_zeros`.
pub proof fn lemma_trailing_zeros_least(b: u64)
    requires
        b != 0,
    ensures
        u64_trailing_zeros(b) < 64,
        is_least(squares_of(b), u64_trailing_zeros(b) as int),
{
    axiom_u64_trailing_zeros(b);
    let t = u64_trailing_zeros(b) as int;
    assert forall|j: int| #[trigger] squares_of(b).contains(j) implies t <= j by {
        if j < t {
            assert((b >> (j as u64)) & 1u64 == 0u64);
        }
    }
}

/// The top set bit of a non-zero value sits at `63 - u64_leading_zeros`.
pub proof fn lemma_leading_zeros_greatest(b: u64)
    requires
        b != 0,
    ensures
        0 <= u64_leading_zeros(b) < 64,
        is_greatest(squares_of(b), 63 - u64_leading_zeros(b)),
{
    axiom_u64_leading_zeros(b);
    let l = u64_leading_zeros(b);
    let top = 63 - l;
    assert((b >> ((63 - l) as u64)) & 1u64 != 0u64);
    assert(bit(b, (63 - l) as u64)) by {
        lemma_one_bit((b >> ((63 - l) as u64)));
    }
    assert forall|j: int| #[trigger] squares_of(b).contains(j) implies j <= top by {
        if j > top {
            assert((b >> (j as u64)) & 1u64 == 0u64);
        }
    }
}

/// A set of squares stored as one bit per square: bit `i` stands for square `i`
/// (a1 = 0, h1 = 7, a8 = 56, h8 = 63).
#[derive(Clone, Copy, Debug, PartialEq, Eq)]
pub struct Bitboard {
    pub board: u64,
}

impl View for Bitboard {
    type V = Set<int>;

    open spec fn view(&self) -> Set<int> {
        squares_of(self.board)
    }
}

impl Bitboard {
    /// The empty set.
    pub fn new() -> (r: Bitboard)
        ensures
            r.board == 0,
            r@ == Set::<int>::empty(),
    {
        proof {
            lemma_bit_ops();
            assert(squares_of(0) =~= Set::<int>::empty());
        }
        Bitboard { board: 0 }
    }

    /// The set whose bits are those of `board`.
    pub fn from_u64(board: u64) -> (r: Bitboard)
        ensures
            r.board == board,
            r@ == squares_of(board),
    {
        Bitboard { board }
    }

    /// Adds square `index`.
    pub fn set(&mut self, index: usize)
        requires
            index < 64,
        ensures
            final(self)@ == old(self)@.insert(index as int),
            final(self).board == old(self).board | (1u64 << index as u64),
    {
        let ghost before = self.board;
        self.board = self.board | (1u64 << index as u64);
        proof {
            lemma_bit_ops();
            assert(squares_of(self.board) =~= squares_of(before).insert(index as int));
        }
    }

    /// Removes square `index`.
    pub fn clear(&mut self, index: usize)
        requires
            index < 64,
        ensures
            final(self)@ == old(self)@.remove(index as int),
            final(self).board == old(self).board & !(1u64 << index as u64),
    {
        let ghost before = self.board;
        self.board = self.board & !(1u64 << index as u64);
        proof {
            lemma_bit_ops();
            assert(squares_of(self.board) =~= squares_of(before).remove(index as int));
        }
    }

    /// Whether square `index` is in the set.
    pub fn get(&self, index: usize) -> (r: bool)
        requires
            index < 64,
        ensures
            r == self@.contains(index as int),
    {
        proof {
            lemma_bit_ops();
        }
        (self.board & (1u64 << index as u64)) != 0
    }

    /// The empty set.
    pub fn empty() -> (r: Bitboard)
        ensures
            r.board == 0,
            r@ == Set::<int>::empty(),
    {
        Bitboard::new()
    }

    /// Whether no square is in the set.
    pub fn is_empty(&self) -> (r: bool)
        ensures
            r == (self.board == 0),
            r == (self@ == Set::<int>::empty()),
    {
        proof {
            lemma_bit_ops();
            if self.board == 0 {
                assert(self@ =~= Set::<int>::empty());
            } else {
                lemma_trailing_zeros_least(self.board);
            }
        }
        self.board == 0
    }

    /// Removes and returns the least square, or `None` on an empty set.
    pub fn pop(&mut self) -> (r: Option<usize>)
        ensures
            old(self).board == 0 <==> r is None,
            r is None ==> *final(self) == *old(self),
            r matches Some(i) ==> {
                &&& i < 64
                &&& is_least(old(self)@, i as int)
                &&& final(self)@ == old(self)@.remove(i as int)
                &&& final(self).board < old(self).board
            },
    {
        if self.is_empty() {
            return None;
        }
        proof {
            lemma_trailing_zeros_least(self.board);
        }
        let index = self.board.trailing_zeros() as usize;
        proof {
            lemma_clear_decreases(self.board, index as u64);
        }
        self.clear(index);
        Some(index)
    }

    /// Number of squares in the set.
    pub fn count(&self) -> (r: u32)
        ensures
            r == popcount(self.board),
    {
        bit_count(self.board)
    }

    /// Number of leading zero bits: 64 on an empty set, else `63 -` the greatest square.
    pub fn get_msb(&self) -> (r: usize)
        ensures
            self.board == 0 ==> r == 64,
            self.board != 0 ==> r < 64 && is_greatest(self@, 63 - r),
    {
        proof {
            axiom_u64_leading_zeros(self.board);
            if self.board != 0 {
                lemma_leading_zeros_greatest(self.board);
            }
        }
        self.board.leading_zeros() as usize
    }

    /// Number of trailing zero bits: 64 on an empty set, else the least square.
    pub fn get_lsb(&self) -> (r: usize)
        ensures
            self.board == 0 ==> r == 64,
            self.board != 0 ==> r < 64 && is_least(self@, r as int),
    {
        proof {
            axiom_u64_trailing_zeros(self.board);
            if self.board != 0 {
                lemma_trailing_zeros_least(self.board);
            }
        }
        self.board.trailing_zeros() as usize
    }
}

/// `u64::count_ones` counts the set bits of its argument.
pub assume_specification[ u64::count_ones ](x: u64) -> (r: u32)
    ensures
        r == popcount(x),
;

/// The number of set bits of `x`.
pub fn bit_count(x: u64) -> (r: u32)
    ensures
        r == popcount(x),
{
    x.count_ones()
}

impl core::ops::BitAnd for Bitboard {
    type Output = Bitboard;

    fn bitand(self, rhs: Bitboard) -> (r: Bitboard) {
        Bitboard { board: self.board & rhs.board }
    }
}

impl vstd::std_specs::ops::BitAndSpecImpl for Bitboard {
    open spec fn obeys_bitand_spec() -> bool {
        true
    }

    open spec fn bitand_req(self, rhs: Bitboard) -> bool {
        true
    }

    open spec fn bitand_spec(self, rhs: Bitboard) -> Bitboard {
        Bitboard { board: self.board & rhs.board }
    }
}

impl core::ops::BitOr for Bitboard {
    type Output = Bitboard;

    fn bitor(self, rhs: Bitboard) -> (r: Bitboard) {
        Bitboard { board: self.board | rhs.board }
    }
}

impl vstd::std_specs::ops::BitOrSpecImpl for Bitboard {
    open spec fn obeys_bitor_spec() -> bool {
        true
    }

    open spec fn bitor_req(self, rhs: Bitboard) -> bool {
        true
    }

    open spec fn bitor_spec(self, rhs: Bitboard) -> Bitboard {
        Bitboard { board: self.board | rhs.board }
    }
}

impl core::ops::BitXor for Bitboard {
    type Output = Bitboard;

    fn bitxor(self, rhs: Bitboard) -> (r: Bitboard) {
        Bitboard { board: self.board ^ rhs.board }
    }
}

impl vstd::std_specs::ops::BitXorSpecImpl for Bitboard {
    open spec fn obeys_bitxor_spec() -> bool {
        true
    }

    open spec fn bitxor_req(self, rhs: Bitboard) -> bool {
        true
    }

    open spec fn bitxor_spec(self, rhs: Bitboard) -> Bitboard {
        Bitboard { board: self.board ^ rhs.board }
    }
}

impl core::ops::Add for Bitboard {
    type Output = Bitboard;

    fn add(self, rhs: Bitboard) -> (r: Bitboard) {
        Bitboard { board: self.board | rhs.board }
    }
}

impl vstd::std_specs::ops::AddSpecImpl for Bitboard {
    open spec fn obeys_add_spec() -> bool {
        true
    }

    open spec fn add_req(self, rhs: Bitboard) -> bool {
        true
    }

    open spec fn add_spec(self, rhs: Bitboard) -> Bitboard {
        Bitboard { board: self.board | rhs.board }
    }
}

impl core::ops::Mul for Bitboard {
    type Output = Bitboard;

    fn mul(self, rhs: Bitboard) -> (r: Bitboard) {
        Bitboard { board: self.board & rhs.board }
    }
}

impl vstd::std_specs::ops::MulSpecImpl for Bitboard {
    open spec fn obeys_mul_spec() -> bool {
        true
    }

    open spec fn mul_req(self, rhs: Bitboard) -> bool {
        true
    }

    open spec fn mul_spec(self, rhs: Bitboard) -> Bitboard {
        Bitboard { board: self.board & rhs.board }
    }
}

impl core::ops::Sub for Bitboard {
    type Output = Bitboard;

    fn sub(self, rhs: Bitboard) -> (r: Bitboard) {
        Bitboard { board: self.board & !rhs.board }
    }
}

impl vstd::std_specs::ops::SubSpecImpl for Bitboard {
    open spec fn obeys_sub_spec() -> bool {
        true
    }

    open spec fn sub_req(self, rhs: Bitboard) -> bool {
        true
    }

    open spec fn sub_spec(self, rhs: Bitboard) -> Bitboard {
        Bitboard { board: self.board & !rhs.board }
    }
}

impl core::ops::Not for Bitboard {
    type Output = Bitboard;

    fn not(self) -> (r: Bitboard) {
        Bitboard { board: !self.board }
    }
}

impl vstd::std_specs::ops::NotSpecImpl for Bitboard {
    open spec fn obeys_not_spec() -> bool {
        true
    }

    open spec fn not_req(self) -> bool {
        true
    }

    open spec fn not_spec(self) -> Bitboard {
        Bitboard { board: !self.board }
    }
}

impl core::ops::Shl<usize> for Bitboard {
    type Output = Bitboard;

    fn shl(self, rhs: usize) -> (r: Bitboard) {
        Bitboard { board: self.board << rhs }
    }
}

impl vstd::std_specs::ops::ShlSpecImpl<usize> for Bitboard {
    open spec fn obeys_shl_spec() -> bool {
        true
    }

    open spec fn shl_req(self, rhs: usize) -> bool {
        rhs < 64
    }

    open spec fn shl_spec(self, rhs: usize) -> Bitboard {
        Bitboard { board: self.board << rhs }
    }
}

impl core::ops::Shr<usize> for Bitboard {
    type Output = Bitboard;

    fn shr(self, rhs: usize) -> (r: Bitboard) {
        Bitboard { board: self.board >> rhs }
    }
}

impl vstd::std_specs::ops::ShrSpecImpl<usize> for Bitboard {
    open spec fn obeys_shr_spec() -> bool {
        true
    }

    open spec fn shr_req(self, rhs: usize) -> bool {
        rhs < 64
    }

    open spec fn shr_spec(self, rhs: usize) -> Bitboard {
        Bitboard { board: self.board >> rhs }
    }
}

} // verus!
