use vstd::prelude::*;
use vstd::std_specs::bits::{axiom_u64_leading_zeros, axiom_u64_trailing_zeros, u64_leading_zeros, u64_trailing_zeros};

verus! {

/// Whether bit `i` of `x` is set.
pub open spec fn bit(x: u64, i: u64) -> bool {
    (x >> i) & 1u64 == 1u64
}

/// The number of set bits of `x`.
pub open spec fn popcount(x: u64) -> nat
    decreases x,
{
    if x == 0 {
        0
    } else {
        (x % 2) as nat + popcount(x / 2)
    }
}

/// The rank (row, 0-based from white's side) of a square.
pub open spec fn rank_of(sq: int) -> int {
    sq / 8
}

/// The file (column, 0-based from the a-file) of a square.
pub open spec fn file_of(sq: int) -> int {
    sq % 8
}

/// A square index on the board.
pub open spec fn is_square(sq: int) -> bool {
    0 <= sq < 64
}

pub proof fn lemma_bit_ops(a: u64, b: u64, i: u64)
    by (bit_vector)
    requires
        i < 64,
    ensures
        bit(a & b, i) == (bit(a, i) && bit(b, i)),
        bit(a | b, i) == (bit(a, i) || bit(b, i)),
        bit(a ^ b, i) == (bit(a, i) != bit(b, i)),
        bit(!a, i) == !bit(a, i),
        !bit(0u64, i),
        bit(0xffff_ffff_ffff_ffffu64, i),
{
}

pub proof fn lemma_bit_single(s: u64, i: u64)
    by (bit_vector)
    requires
        s < 64,
        i < 64,
    ensures
        bit(1u64 << s, i) == (s == i),
{
}

pub proof fn lemma_bit_zero_iff(a: u64, b: u64)
    by (bit_vector)
    ensures
        a ^ b == 0 ==> a == b,
{
}

/// Two words with the same bits are equal.
pub proof fn lemma_bits_ext(a: u64, b: u64)
    requires
        forall|i: u64| i < 64 ==> bit(a, i) == bit(b, i),
    ensures
        a == b,
{
    let x = a ^ b;
    if x != 0 {
        axiom_u64_trailing_zeros(x);
        let t = u64_trailing_zeros(x) as u64;
        assert(bit(x, t));
        lemma_bit_ops(a, b, t);
        assert(bit(a, t) == bit(b, t));
    }
    lemma_bit_zero_iff(a, b);
}

pub broadcast proof fn lemma_bit_and(a: u64, b: u64, i: u64)
    requires
        i < 64,
    ensures
        #[trigger] bit(a & b, i) == (bit(a, i) && bit(b, i)),
{
    lemma_bit_ops(a, b, i);
}

pub broadcast proof fn lemma_bit_or(a: u64, b: u64, i: u64)
    requires
        i < 64,
    ensures
        #[trigger] bit(a | b, i) == (bit(a, i) || bit(b, i)),
{
    lemma_bit_ops(a, b, i);
}

pub broadcast proof fn lemma_bit_xor(a: u64, b: u64, i: u64)
    requires
        i < 64,
    ensures
        #[trigger] bit(a ^ b, i) == (bit(a, i) != bit(b, i)),
{
    lemma_bit_ops(a, b, i);
}

pub broadcast proof fn lemma_bit_not(a: u64, i: u64)
    requires
        i < 64,
    ensures
        #[trigger] bit(!a, i) == !bit(a, i),
{
    lemma_bit_ops(a, a, i);
}

pub broadcast proof fn lemma_bit_zero(i: u64)
    requires
        i < 64,
    ensures
        !#[trigger] bit(0u64, i),
{
    lemma_bit_ops(0, 0, i);
}

pub broadcast proof fn lemma_bit_full(i: u64)
    requires
        i < 64,
    ensures
        #[trigger] bit(0xffff_ffff_ffff_ffffu64, i),
{
    lemma_bit_ops(0, 0, i);
}

pub broadcast proof fn lemma_bit_shl(s: u64, i: u64)
    requires
        s < 64,
        i < 64,
    ensures
        #[trigger] bit(1u64 << s, i) == (s == i),
{
    lemma_bit_single(s, i);
}

pub broadcast group group_bit_lemmas {
    lemma_bit_and,
    lemma_bit_or,
    lemma_bit_xor,
    lemma_bit_not,
    lemma_bit_zero,
    lemma_bit_full,
    lemma_bit_shl,
}

/// The lowest set bit of a nonzero word is at its trailing-zero count,
/// and no lower bit is set.
pub proof fn lemma_lowest_bit(x: u64)
    requires
        x != 0,
    ensures
        u64_trailing_zeros(x) < 64,
        bit(x, u64_trailing_zeros(x) as u64),
        forall|j: u64| j < u64_trailing_zeros(x) ==> !bit(x, j),
{
    axiom_u64_trailing_zeros(x);
    let t = u64_trailing_zeros(x);
    assert forall|j: u64| j < t implies !bit(x, j) by {
        assert((x >> j) & 1u64 == 0u64);
    }
}

/// A bitboard is nonzero exactly when it holds some square.
pub proof fn lemma_nonzero(b: Bitboard)
    ensures
        b.0 != 0 <==> exists|t: int| #[trigger] b.has(t),
{
    if b.0 != 0 {
        lemma_lowest_bit(b.0);
        assert(b.has(u64_trailing_zeros(b.0) as int));
    } else {
        assert forall|t: int| !#[trigger] b.has(t) by {
            if is_square(t) {
                lemma_bit_ops(0, 0, t as u64);
            }
        }
    }
}

/// The highest set bit of a nonzero word is at `63 - leading_zeros`,
/// and no higher bit is set.
pub proof fn lemma_highest_bit(x: u64)
    requires
        x != 0,
    ensures
        0 <= u64_leading_zeros(x) < 64,
        bit(x, (63 - u64_leading_zeros(x)) as u64),
        forall|j: u64| 63 - u64_leading_zeros(x) < j < 64 ==> !bit(x, j),
{
    axiom_u64_leading_zeros(x);
    let l = u64_leading_zeros(x);
    let h = (63 - l) as u64;
    assert((x >> ((63 - l) as u64)) & 1u64 != 0u64);
    assert(((x >> h) & 1u64 != 0u64) ==> ((x >> h) & 1u64 == 1u64)) by (bit_vector);
    assert forall|j: u64| 63 - l < j < 64 implies !bit(x, j) by {
        assert((x >> j) & 1u64 == 0u64);
    }
}

/// Clearing the lowest set bit: `x & (x - 1)` and `x & -x`.
proof fn lemma_lowest_bit_ops(x: u64, t: u64)
    by (bit_vector)
    requires
        x != 0,
        t < 64,
        (x >> t) & 1u64 == 1u64,
        x << ((64 - t) as u64) == 0,
    ensures
        x & ((x - 1) as u64) == x ^ (1u64 << t),
        x & ((!x + 1) as u64) == 1u64 << t,
{
}

/// Clearing the lowest set bit makes a word smaller.
proof fn lemma_clear_lowest_smaller(x: u64)
    by (bit_vector)
    requires
        x != 0,
    ensures
        x & ((x - 1) as u64) < x,
{
}

/// `popcount` counts the bits; with zero bits the word is zero.
pub proof fn lemma_popcount_zero(x: u64)
    ensures
        popcount(x) == 0 <==> x == 0,
    decreases x,
{
    if x != 0 {
        if x % 2 == 0 {
            lemma_popcount_zero(x / 2);
        }
    }
}

proof fn lemma_halve_bits(x: u64, s: u64)
    by (bit_vector)
    requires
        s < 64,
    ensures
        s == 0 ==> (x | (1u64 << s)) % 2 == 1 && (x | (1u64 << s)) / 2 == x / 2 && (((x >> s) & 1u64
            == 1u64) == (x % 2 == 1)),
        s > 0 ==> (x | (1u64 << s)) % 2 == x % 2 && (x | (1u64 << s)) / 2 == (x / 2) | (1u64 << ((s
            - 1) as u64)) && (((x / 2) >> ((s - 1) as u64)) & 1u64 == 1u64) == ((x >> s) & 1u64 == 1u64),
{
}

pub proof fn lemma_popcount_unfold(x: u64)
    ensures
        popcount(x) == (x % 2) as nat + popcount(x / 2),
{
    if x == 0 {
        assert(popcount(0) == 0);
    }
}

/// Setting a clear bit adds one to the bit count.
pub proof fn lemma_popcount_set(x: u64, s: u64)
    requires
        s < 64,
        !bit(x, s),
    ensures
        popcount(x | (1u64 << s)) == popcount(x) + 1,
    decreases s,
{
    lemma_halve_bits(x, s);
    let y = x | (1u64 << s);
    lemma_popcount_unfold(y);
    lemma_popcount_unfold(x);
    if s > 0 {
        lemma_popcount_set(x / 2, (s - 1) as u64);
    }
}

proof fn lemma_split_bit(x: u64, a: u64)
    by (bit_vector)
    requires
        a < 64,
        (x >> a) & 1u64 == 1u64,
    ensures
        x == (x & !(1u64 << a)) | (1u64 << a),
        ((x & !(1u64 << a)) >> a) & 1u64 != 1u64,
{
}

/// A word with one set bit has no other set bit.
pub proof fn lemma_popcount_one(x: u64, a: u64, b: u64)
    requires
        popcount(x) == 1,
        a < 64,
        b < 64,
        bit(x, a),
        bit(x, b),
    ensures
        a == b,
{
    if a != b {
        lemma_split_bit(x, a);
        let z = x & !(1u64 << a);
        lemma_popcount_set(z, a);
        lemma_bit_ops(x, !(1u64 << a), b);
        lemma_bit_single(a, b);
        lemma_bit_ops(1u64 << a, 0, b);
        assert(bit(z, b));
        lemma_popcount_zero(z);
        if z == 0 {
            lemma_bit_ops(0, 0, b);
        }
    }
}

/// A word with more than one set bit has two distinct set bits.
pub proof fn lemma_two_bits(x: u64) -> (r: (u64, u64))
    requires
        popcount(x) > 1,
    ensures
        r.0 < 64,
        r.1 < 64,
        r.0 != r.1,
        bit(x, r.0),
        bit(x, r.1),
{
    lemma_popcount_zero(x);
    lemma_lowest_bit(x);
    let a = u64_trailing_zeros(x) as u64;
    lemma_split_bit(x, a);
    let z = x & !(1u64 << a);
    lemma_popcount_set(z, a);
    lemma_popcount_zero(z);
    lemma_lowest_bit(z);
    let b = u64_trailing_zeros(z) as u64;
    lemma_bit_ops(x, !(1u64 << a), b);
    lemma_bit_single(a, b);
    lemma_bit_ops(1u64 << a, 0, b);
    (a, b)
}

/// Shifting by one more bit halves the word; shifting by all 64 clears it.
proof fn lemma_shift_steps(x: u64, y: u64, i: u64)
    by (bit_vector)
    requires
        i < 64,
        y == x >> i,
    ensures
        y & 1 == y % 2,
        y >> 1 == y / 2,
        (x >> i) >> 1 == x >> ((i + 1) as u64),
{
}

/// Shifting by nothing keeps the word; shifting by all 64 bits clears it.
proof fn lemma_shift_ends(x: u64)
    by (bit_vector)
    ensures
        x >> 0u64 == x,
        x >> 64u64 == 0,
{
}

/// Returns the number of set bits of `x`, reading them from the lowest.
fn u64_count_ones(x: u64) -> (r: u32)
    ensures
        r as nat == popcount(x),
{
    let mut y: u64 = x;
    let mut c: u32 = 0;
    let mut i: u64 = 0;
    proof {
        lemma_shift_ends(x);
    }
    while i < 64
        invariant
            i <= 64,
            c <= i,
            y == x >> i,
            c + popcount(y) == popcount(x),
        decreases 64 - i,
    {
        proof {
            lemma_shift_steps(x, y, i);
            lemma_popcount_unfold(y);
        }
        c = c + (y & 1) as u32;
        y = y >> 1;
        i = i + 1;
    }
    proof {
        lemma_shift_ends(x);
        assert(popcount(0) == 0);
    }
    c
}

/// Two's complement negation of `x`: its complement plus one, wrapping
/// around to zero for zero.
fn u64_wrapping_neg(x: u64) -> (r: u64)
    ensures
        r == (!x + 1) as u64,
{
    let y = !x;
    if y == 0xffff_ffff_ffff_ffff {
        assert((y + 1) as u64 == 0) by (bit_vector)
            requires
                y == 0xffff_ffff_ffff_ffffu64,
        ;
        0
    } else {
        y + 1
    }
}

/// A 64-bit bitboard.
///
/// Squares are little-endian rank-and-file indexed, i.e. bit `n` corresponds
/// to square `n` where `square = rank * 8 + file`.
#[derive(Debug, Clone, Copy, PartialEq, Eq, Structural, Hash)]
pub struct Bitboard(pub u64);

impl View for Bitboard {
    type V = Set<int>;

    /// The set of squares whose bits are set.
    open spec fn view(&self) -> Set<int> {
        Set::new(|sq: int| is_square(sq) && bit(self.0, sq as u64))
    }
}

impl Bitboard {
    /// Whether the bitboard holds the given square.
    pub open spec fn has(self, sq: int) -> bool {
        is_square(sq) && bit(self.0, sq as u64)
    }

    /// Returns the bitboard containing only the given square.
    pub fn from_square(square: usize) -> (r: Bitboard)
        requires
            square < 64,
        ensures
            r@ == set![square as int],
            r.0 == 1u64 << square,
    {
        let r = Bitboard(1u64 << square as u64);
        proof {
            broadcast use group_bit_lemmas;
            assert(r@ =~= set![square as int]);
        }
        r
    }

    /// Returns whether the bitboard is empty (contains no set bits).
    pub fn is_empty(self) -> (r: bool)
        ensures
            r == (self.0 == 0),
            r == (self@ == Set::<int>::empty()),
    {
        proof {
            broadcast use group_bit_lemmas;
            if self.0 != 0 {
                lemma_lowest_bit(self.0);
                assert(self@.contains(u64_trailing_zeros(self.0) as int));
            } else {
                assert(self@ =~= Set::<int>::empty());
            }
        }
        self.0 == 0
    }

    /// Returns the number of set bits (population count).
    pub fn count(self) -> (r: usize)
        ensures
            r as nat == popcount(self.0),
    {
        u64_count_ones(self.0) as usize
    }

    /// Returns whether the bitboard contains the given square.
    pub fn contains(self, square: usize) -> (r: bool)
        requires
            square < 64,
        ensures
            r == self@.contains(square as int),
            r == self.has(square as int),
    {
        proof {
            broadcast use group_bit_lemmas;
            assert(bit(self.0 & (1u64 << square as u64), square as u64) == bit(self.0, square as u64));
            assert(bit(self.0, square as u64) ==> self.0 & (1u64 << square as u64) != 0);
            if self.0 & (1u64 << square as u64) != 0 {
                lemma_lowest_bit(self.0 & (1u64 << square as u64));
            }
        }
        (self.0 & (1u64 << square as u64)) != 0
    }

    /// Returns the index of the least significant set bit, or `None` if empty.
    pub fn lsb_index(self) -> (r: Option<usize>)
        ensures
            r is None <==> self.0 == 0,
            r matches Some(i) ==> i < 64 && self.has(i as int) && forall|j: int|
                0 <= j < i ==> !self.has(j),
    {
        if self.0 == 0 {
            None
        } else {
            proof {
                lemma_lowest_bit(self.0);
            }
            Some(self.0.trailing_zeros() as usize)
        }
    }

    /// Returns the index of the most significant set bit, or `None` if empty.
    pub fn msb_index(self) -> (r: Option<usize>)
        ensures
            r is None <==> self.0 == 0,
            r matches Some(i) ==> i < 64 && self.has(i as int) && forall|j: int|
                i < j < 64 ==> !self.has(j),
    {
        if self.0 == 0 {
            None
        } else {
            proof {
                lemma_highest_bit(self.0);
            }
            let lz = self.0.leading_zeros();
            Some(63 - lz as usize)
        }
    }

    /// Sets the bit corresponding to the given square.
    pub fn set(&mut self, square: usize)
        requires
            square < 64,
        ensures
            final(self)@ == old(self)@.insert(square as int),
            final(self).0 == old(self).0 | (1u64 << square),
    {
        self.0 = self.0 | (1u64 << square as u64);
        proof {
            broadcast use group_bit_lemmas;
            assert(self@ =~= old(self)@.insert(square as int));
        }
    }

    /// Clears the bit corresponding to the given square.
    pub fn clear(&mut self, square: usize)
        requires
            square < 64,
        ensures
            final(self)@ == old(self)@.remove(square as int),
            final(self).0 == old(self).0 & !(1u64 << square),
    {
        self.0 = self.0 & !(1u64 << square as u64);
        proof {
            broadcast use group_bit_lemmas;
            assert(self@ =~= old(self)@.remove(square as int));
        }
    }

    /// Returns a copy of the bitboard with the given square set.
    pub fn with_set(&self, square: usize) -> (r: Bitboard)
        requires
            square < 64,
        ensures
            r@ == self@.insert(square as int),
            r.0 == self.0 | (1u64 << square),
    {
        let r = Bitboard(self.0 | (1u64 << square as u64));
        proof {
            broadcast use group_bit_lemmas;
            assert(r@ =~= self@.insert(square as int));
        }
        r
    }

    /// Returns a copy of the bitboard with the given square cleared.
    pub fn with_clear(&self, square: usize) -> (r: Bitboard)
        requires
            square < 64,
        ensures
            r@ == self@.remove(square as int),
            r.0 == self.0 & !(1u64 << square),
    {
        let r = Bitboard(self.0 & !(1u64 << square as u64));
        proof {
            broadcast use group_bit_lemmas;
            assert(r@ =~= self@.remove(square as int));
        }
        r
    }

    /// Iterates over the index of each set bit, ascending.
    pub fn iter_indices(self) -> (r: BitIndexIter)
        ensures
            r@ == self@,
            r.word() == self.0,
    {
        BitIndexIter { bits: self.0 }
    }

    /// Iterates over each set bit as a single-bit bitboard, ascending.
    pub fn iter_bits(self) -> (r: BitIter)
        ensures
            r@ == self@,
            r.word() == self.0,
    {
        BitIter { bits: self.0 }
    }

    /// The intersection of two bitboards.
    pub fn and(self, rhs: Bitboard) -> (r: Bitboard)
        ensures
            r.0 == self.0 & rhs.0,
            r@ == self@.intersect(rhs@),
            forall|t: int| #[trigger] r.has(t) == (self.has(t) && rhs.has(t)),
    {
        let r = Bitboard(self.0 & rhs.0);
        proof {
            broadcast use group_bit_lemmas;
            assert(r@ =~= self@.intersect(rhs@));
        }
        r
    }

    /// The union of two bitboards.
    pub fn or(self, rhs: Bitboard) -> (r: Bitboard)
        ensures
            r.0 == self.0 | rhs.0,
            r@ == self@.union(rhs@),
            forall|t: int| #[trigger] r.has(t) == (self.has(t) || rhs.has(t)),
    {
        let r = Bitboard(self.0 | rhs.0);
        proof {
            broadcast use group_bit_lemmas;
            assert(r@ =~= self@.union(rhs@));
        }
        r
    }

    /// The squares of `self` that are not in `rhs`.
    pub fn without(self, rhs: Bitboard) -> (r: Bitboard)
        ensures
            r.0 == self.0 & !rhs.0,
            r@ == self@.difference(rhs@),
            forall|t: int| #[trigger] r.has(t) == (self.has(t) && !rhs.has(t)),
    {
        let r = Bitboard(self.0 & !rhs.0);
        proof {
            broadcast use group_bit_lemmas;
            assert(r@ =~= self@.difference(rhs@));
        }
        r
    }

    /// The complement of the bitboard.
    pub fn complement(self) -> (r: Bitboard)
        ensures
            r.0 == !self.0,
            r@ == Set::new(|sq: int| is_square(sq)).difference(self@),
    {
        let r = Bitboard(!self.0);
        proof {
            broadcast use group_bit_lemmas;
            assert(r@ =~= Set::new(|sq: int| is_square(sq)).difference(self@));
        }
        r
    }

    /// The symmetric difference of two bitboards.
    pub fn toggle(self, rhs: Bitboard) -> (r: Bitboard)
        ensures
            r.0 == self.0 ^ rhs.0,
            forall|sq: int| #[trigger] r.has(sq) == (self.has(sq) != rhs.has(sq)),
    {
        let r = Bitboard(self.0 ^ rhs.0);
        proof {
            broadcast use group_bit_lemmas;
        }
        r
    }
}

/// A bitboard is determined by its set of squares.
pub proof fn lemma_bitboard_ext(a: Bitboard, b: Bitboard)
    requires
        a@ == b@,
    ensures
        a == b,
{
    assert forall|i: u64| i < 64 implies bit(a.0, i) == bit(b.0, i) by {
        let k = i as int;
        assert(k as u64 == i);
        assert(a@.contains(k) == (is_square(k) && bit(a.0, k as u64)));
        assert(b@.contains(k) == (is_square(k) && bit(b.0, k as u64)));
        assert(a@.contains(k) == b@.contains(k));
    }
    lemma_bits_ext(a.0, b.0);
}

/// Iterator over the indices of each set bit in a bitboard, ascending.
#[derive(Debug, Clone)]
pub struct BitIndexIter {
    bits: u64,
}

impl View for BitIndexIter {
    type V = Set<int>;

    /// The squares not yet produced.
    closed spec fn view(&self) -> Set<int> {
        Bitboard(self.bits)@
    }
}

impl BitIndexIter {
    /// The word whose set bits are the indices not yet produced.
    pub closed spec fn word(self) -> u64 {
        self.bits
    }

    /// Produces the lowest remaining index.
    pub fn next(&mut self) -> (r: Option<usize>)
        ensures
            r is None ==> old(self)@ == Set::<int>::empty() && final(self)@ == old(self)@,
            r matches Some(i) ==> {
                &&& old(self)@.contains(i as int)
                &&& forall|j: int| #[trigger] old(self)@.contains(j) ==> i <= j
                &&& final(self)@ == old(self)@.remove(i as int)
                &&& final(self).word() < old(self).word()
            },
    {
        proof {
            broadcast use group_bit_lemmas;
        }
        if self.bits == 0 {
            proof {
                assert(old(self)@ =~= Set::<int>::empty());
            }
            return None;
        }
        proof {
            lemma_lowest_bit(self.bits);
        }
        let index = self.bits.trailing_zeros() as usize;
        proof {
            axiom_u64_trailing_zeros(self.bits);
            assert(self.bits << ((64 - index) as u64) == 0);
            lemma_lowest_bit_ops(self.bits, index as u64);
        }
        self.bits = self.bits & (self.bits - 1);
        proof {
            lemma_clear_lowest_smaller(old(self).bits);
            assert(self@ =~= old(self)@.remove(index as int));
            assert forall|j: int| #[trigger] old(self)@.contains(j) implies index <= j by {
                if j < index {
                    assert(!bit(old(self).bits, j as u64));
                }
            }
        }
        Some(index)
    }

    /// Produces the highest remaining index.
    pub fn next_back(&mut self) -> (r: Option<usize>)
        ensures
            r is None ==> old(self)@ == Set::<int>::empty() && final(self)@ == old(self)@,
            r matches Some(i) ==> {
                &&& old(self)@.contains(i as int)
                &&& forall|j: int| #[trigger] old(self)@.contains(j) ==> j <= i
                &&& final(self)@ == old(self)@.remove(i as int)
            },
    {
        proof {
            broadcast use group_bit_lemmas;
        }
        if self.bits == 0 {
            proof {
                assert(old(self)@ =~= Set::<int>::empty());
            }
            return None;
        }
        proof {
            lemma_highest_bit(self.bits);
        }
        let index = 63 - self.bits.leading_zeros() as usize;
        self.bits = self.bits & !(1u64 << index as u64);
        proof {
            assert(self@ =~= old(self)@.remove(index as int));
            assert forall|j: int| #[trigger] old(self)@.contains(j) implies j <= index by {
                if j > index {
                    assert(!bit(old(self).bits, j as u64));
                }
            }
        }
        Some(index)
    }

    /// The number of indices not yet produced, as a lower and an upper bound.
    pub fn size_hint(&self) -> (r: (usize, Option<usize>))
        ensures
            r.0 as nat == popcount(self.word()),
            r.1 == Some(r.0),
    {
        let len = u64_count_ones(self.bits) as usize;
        (len, Some(len))
    }
}

/// Iterator over each set bit as a single-bit bitboard, ascending.
#[derive(Debug, Clone)]
pub struct BitIter {
    bits: u64,
}

impl View for BitIter {
    type V = Set<int>;

    /// The squares not yet produced.
    closed spec fn view(&self) -> Set<int> {
        Bitboard(self.bits)@
    }
}

impl BitIter {
    /// The word whose set bits are the squares not yet produced.
    pub closed spec fn word(self) -> u64 {
        self.bits
    }

    /// Produces the lowest remaining bit as a single-square bitboard.
    pub fn next(&mut self) -> (r: Option<Bitboard>)
        ensures
            r is None ==> old(self)@ == Set::<int>::empty() && final(self)@ == old(self)@,
            r matches Some(b) ==> exists|i: int|
                {
                    &&& b@ == set![i]
                    &&& old(self)@.contains(i)
                    &&& (forall|j: int| #[trigger] old(self)@.contains(j) ==> i <= j)
                    &&& final(self)@ == old(self)@.remove(i)
                },
    {
        proof {
            broadcast use group_bit_lemmas;
        }
        if self.bits == 0 {
            proof {
                assert(old(self)@ =~= Set::<int>::empty());
            }
            return None;
        }
        proof {
            lemma_lowest_bit(self.bits);
        }
        let ghost i = u64_trailing_zeros(self.bits) as u64;
        proof {
            axiom_u64_trailing_zeros(self.bits);
            assert(self.bits << ((64 - i) as u64) == 0);
            lemma_lowest_bit_ops(self.bits, i);
        }
        let lsb = self.bits & u64_wrapping_neg(self.bits);
        self.bits = self.bits & (self.bits - 1);
        let r = Bitboard(lsb);
        proof {
            assert(r@ =~= set![i as int]);
            assert(self@ =~= old(self)@.remove(i as int));
            assert forall|j: int| #[trigger] old(self)@.contains(j) implies i <= j by {
                if j < i {
                    assert(!bit(old(self).bits, j as u64));
                }
            }
        }
        Some(r)
    }

    /// Produces the highest remaining bit as a single-square bitboard.
    pub fn next_back(&mut self) -> (r: Option<Bitboard>)
        ensures
            r is None ==> old(self)@ == Set::<int>::empty() && final(self)@ == old(self)@,
            r matches Some(b) ==> exists|i: int|
                {
                    &&& b@ == set![i]
                    &&& old(self)@.contains(i)
                    &&& (forall|j: int| #[trigger] old(self)@.contains(j) ==> j <= i)
                    &&& final(self)@ == old(self)@.remove(i)
                },
    {
        proof {
            broadcast use group_bit_lemmas;
        }
        if self.bits == 0 {
            proof {
                assert(old(self)@ =~= Set::<int>::empty());
            }
            return None;
        }
        proof {
            lemma_highest_bit(self.bits);
        }
        let shift = 63 - self.bits.leading_zeros();
        let msb = 1u64 << shift;
        self.bits = self.bits & !msb;
        let r = Bitboard(msb);
        proof {
            let i = shift as int;
            assert(r@ =~= set![i]);
            assert(self@ =~= old(self)@.remove(i));
            assert forall|j: int| #[trigger] old(self)@.contains(j) implies j <= i by {
                if j > i {
                    assert(!bit(old(self).bits, j as u64));
                }
            }
        }
        Some(r)
    }

    /// The number of bits not yet produced, as a lower and an upper bound.
    pub fn size_hint(&self) -> (r: (usize, Option<usize>))
        ensures
            r.0 as nat == popcount(self.word()),
            r.1 == Some(r.0),
    {
        let len = u64_count_ones(self.bits) as usize;
        (len, Some(len))
    }
}

} // verus!
