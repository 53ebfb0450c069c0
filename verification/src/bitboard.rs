//! 64-bit boards: one bit per square, counting from a1 (bit 0) to h8 (bit 63).
use vstd::prelude::*;

verus! {

/// Whether bit `i` of `b` is set.
pub open spec fn bit_set(b: u64, i: int) -> bool {
    0 <= i < 64 && (b >> (i as u64)) & 1u64 == 1u64
}

/// The squares whose bits are set in `b`.
pub open spec fn bits(b: u64) -> Set<int> {
    Set::new(|i: int| bit_set(b, i))
}

/// Number of set bits among the lowest `n` bits of `b`.
pub open spec fn count_bits_below(b: u64, n: nat) -> nat
    decreases n,
{
    if n == 0 {
        0
    } else {
        count_bits_below(b, (n - 1) as nat) + (if bit_set(b, n - 1) { 1nat } else { 0nat })
    }
}

/// Number of set bits of `b`.
pub open spec fn popcount(b: u64) -> nat {
    count_bits_below(b, 64)
}

pub proof fn lemma_count_bits_below_le(b: u64, n: nat)
    ensures
        count_bits_below(b, n) <= n,
    decreases n,
{
    if n > 0 {
        lemma_count_bits_below_le(b, (n - 1) as nat);
    }
}

/// Bitwise and, or, xor and not act pointwise on the bits.
pub proof fn lemma_bit_ops(a: u64, b: u64)
    ensures
        forall|i: int| #[trigger] bit_set(a & b, i) == (bit_set(a, i) && bit_set(b, i)),
        forall|i: int| #[trigger] bit_set(a | b, i) == (bit_set(a, i) || bit_set(b, i)),
        forall|i: int| #[trigger] bit_set(a ^ b, i) == (bit_set(a, i) != bit_set(b, i)),
        forall|i: int| #[trigger] bit_set(!a, i) == (0 <= i < 64 && !bit_set(a, i)),
{
    assert forall|i: int| #[trigger] bit_set(a & b, i) == (bit_set(a, i) && bit_set(b, i)) by {
        if 0 <= i < 64 {
            let s = i as u64;
            assert(((a & b) >> s) & 1u64 == 1u64 <==> ((a >> s) & 1u64 == 1u64 && (b >> s) & 1u64
                == 1u64)) by (bit_vector);
        }
    }
    assert forall|i: int| #[trigger] bit_set(a | b, i) == (bit_set(a, i) || bit_set(b, i)) by {
        if 0 <= i < 64 {
            let s = i as u64;
            assert(((a | b) >> s) & 1u64 == 1u64 <==> ((a >> s) & 1u64 == 1u64 || (b >> s) & 1u64
                == 1u64)) by (bit_vector);
        }
    }
    assert forall|i: int| #[trigger] bit_set(a ^ b, i) == (bit_set(a, i) != bit_set(b, i)) by {
        if 0 <= i < 64 {
            let s = i as u64;
            assert(((a ^ b) >> s) & 1u64 == 1u64 <==> (((a >> s) & 1u64 == 1u64) != ((b >> s)
                & 1u64 == 1u64))) by (bit_vector);
        }
    }
    assert forall|i: int| #[trigger] bit_set(!a, i) == (0 <= i < 64 && !bit_set(a, i)) by {
        if 0 <= i < 64 {
            let s = i as u64;
            assert(((!a) >> s) & 1u64 == 1u64 <==> !((a >> s) & 1u64 == 1u64)) by (bit_vector)
                requires
                    s < 64,
            ;
        }
    }
}

/// The board with the single bit `s` set.
pub proof fn lemma_single_bit(s: u64)
    requires
        s < 64,
    ensures
        forall|i: int| #[trigger] bit_set(1u64 << s, i) == (i == s),
        (1u64 << s) != 0,
{
    assert forall|i: int| #[trigger] bit_set(1u64 << s, i) == (i == s) by {
        if 0 <= i < 64 {
            let j = i as u64;
            assert(((1u64 << s) >> j) & 1u64 == 1u64 <==> j == s) by (bit_vector)
                requires
                    s < 64,
                    j < 64,
            ;
        }
    }
    assert((1u64 << s) != 0) by (bit_vector)
        requires
            s < 64,
    ;
}

/// The empty board has no bit set, and a board with no bit set is empty.
pub proof fn lemma_zero_iff_no_bits(b: u64)
    ensures
        (b == 0) == (forall|i: int| !#[trigger] bit_set(b, i)),
{
    if b != 0 {
        vstd::std_specs::bits::axiom_u64_trailing_zeros(b);
        let t = vstd::std_specs::bits::u64_trailing_zeros(b);
        assert(bit_set(b, t as int));
    } else {
        assert forall|i: int| !#[trigger] bit_set(b, i) by {
            if 0 <= i < 64 {
                let s = i as u64;
                assert((0u64 >> s) & 1u64 == 0u64) by (bit_vector);
            }
        }
    }
}

/// Removing the lowest set bit: `b & (b - 1)` clears exactly bit `trailing_zeros(b)`.
pub proof fn lemma_pop_lsb(b: u64)
    requires
        b != 0,
    ensures
        vstd::std_specs::bits::u64_trailing_zeros(b) < 64,
        bit_set(b, vstd::std_specs::bits::u64_trailing_zeros(b) as int),
        forall|j: int| 0 <= j < vstd::std_specs::bits::u64_trailing_zeros(b) ==> !#[trigger] bit_set(b, j),
        forall|i: int| #[trigger]
            bit_set(b & ((b - 1) as u64), i) == (bit_set(b, i) && i != vstd::std_specs::bits::u64_trailing_zeros(b)),
        (b & ((b - 1) as u64)) < b,
{
    vstd::std_specs::bits::axiom_u64_trailing_zeros(b);
    let t = vstd::std_specs::bits::u64_trailing_zeros(b) as u64;
    assert forall|j: int| 0 <= j < vstd::std_specs::bits::u64_trailing_zeros(b) implies !#[trigger] bit_set(b, j) by {
        let jj = j as u64;
        assert((b >> jj) & 1u64 == 0u64);
    }
    assert(t == 0 || b << ((64 - t) as u64) == 0);
    assert forall|i: int| #[trigger]
        bit_set(b & ((b - 1) as u64), i) == (bit_set(b, i) && i != vstd::std_specs::bits::u64_trailing_zeros(b)) by {
        if 0 <= i < 64 {
            let s = i as u64;
            assert(((b & ((b - 1) as u64)) >> s) & 1u64 == 1u64 <==> ((b >> s) & 1u64 == 1u64 && s
                != t)) by (bit_vector)
                requires
                    b != 0,
                    t < 64,
                    s < 64,
                    (b >> t) & 1u64 == 1u64,
                    t == 0 || b << ((64 - t) as u64) == 0,
            ;
        }
    }
    assert((b & ((b - 1) as u64)) < b) by (bit_vector)
        requires
            b != 0,
    ;
}

/// The set bits below `n`.
pub open spec fn bits_below(b: u64, n: nat) -> Set<int> {
    Set::new(|i: int| bit_set(b, i) && i < n)
}

proof fn lemma_count_bits_below_len(b: u64, n: nat)
    ensures
        bits_below(b, n).finite(),
        bits_below(b, n).len() == count_bits_below(b, n),
    decreases n,
{
    if n == 0 {
        assert(bits_below(b, n) =~= Set::empty());
    } else {
        let m = (n - 1) as nat;
        lemma_count_bits_below_len(b, m);
        if bit_set(b, m as int) {
            assert(bits_below(b, n) =~= bits_below(b, m).insert(m as int));
        } else {
            assert(bits_below(b, n) =~= bits_below(b, m));
        }
    }
}

/// The number of set bits is the size of the set of squares.
pub proof fn lemma_popcount_len(b: u64)
    ensures
        bits(b).finite(),
        bits(b).len() == popcount(b),
{
    lemma_count_bits_below_len(b, 64);
    assert(bits(b) =~= bits_below(b, 64));
}

/// Two boards with the same squares are equal.
pub proof fn lemma_bits_injective(a: u64, b: u64)
    requires
        forall|i: int| #[trigger] bit_set(a, i) == bit_set(b, i),
    ensures
        a == b,
{
    lemma_bit_ops(a, b);
    assert forall|i: int| !#[trigger] bit_set(a ^ b, i) by {
        assert(bit_set(a ^ b, i) == (bit_set(a, i) != bit_set(b, i)));
    }
    lemma_zero_iff_no_bits(a ^ b);
    assert(a ^ b == 0u64 ==> a == b) by (bit_vector);
}

/// The squares of board `o` are those of `f` on the board.
pub open spec fn has_squares(o: u64, f: Set<int>) -> bool {
    forall|i: int| #[trigger] bit_set(o, i) == (0 <= i < 64 && f.contains(i))
}

/// The board whose squares are those of `f` on the board.
pub open spec fn board_of(f: Set<int>) -> u64 {
    choose|o: u64| #[trigger] has_squares(o, f)
}

/// A board is the board of its squares.
pub proof fn lemma_board_of_bits(x: u64, f: Set<int>)
    requires
        forall|i: int| #[trigger] bit_set(x, i) == (0 <= i < 64 && f.contains(i)),
    ensures
        board_of(f) == x,
{
    assert(has_squares(x, f));
    let o = board_of(f);
    assert(has_squares(o, f));
    lemma_bits_injective(o, x);
}

/// `u64::count_ones` of the standard library, which vstd leaves unspecified: the contract
/// claims it returns the number of set bits of `b` (`popcount`).
#[verifier::external_body]
pub(crate) fn count_ones(b: u64) -> (r: u32)
    ensures
        r == popcount(b),
{
    b.count_ones()
}

/// A set of squares, one bit per square.
#[derive(Clone, Copy, PartialEq, Eq, Structural, Debug)]
pub struct Bitboard(pub u64);

/// A bitboard holding a single square.
pub type Bit = Bitboard;

impl Bitboard {
    /// The squares of this board.
    pub open spec fn view(self) -> Set<int> {
        bits(self.0)
    }

    /// The board without squares.
    pub fn empty_set() -> (r: Bitboard)
        ensures
            r.0 == 0,
    {
        Bitboard(0)
    }

    /// The board with all 64 squares.
    pub fn full_set() -> (r: Bitboard)
        ensures
            r.0 == 0xffff_ffff_ffff_ffffu64,
    {
        Bitboard(0xffff_ffff_ffff_ffff)
    }

    pub fn and(self, other: Bitboard) -> (r: Bitboard)
        ensures
            r.0 == self.0 & other.0,
    {
        Bitboard(self.0 & other.0)
    }

    pub fn or(self, other: Bitboard) -> (r: Bitboard)
        ensures
            r.0 == self.0 | other.0,
    {
        Bitboard(self.0 | other.0)
    }

    pub fn xor(self, other: Bitboard) -> (r: Bitboard)
        ensures
            r.0 == self.0 ^ other.0,
    {
        Bitboard(self.0 ^ other.0)
    }

    pub fn not(self) -> (r: Bitboard)
        ensures
            r.0 == !self.0,
    {
        Bitboard(!self.0)
    }

    pub fn is_empty(self) -> (r: bool)
        ensures
            r == (self.0 == 0),
    {
        self.0 == 0
    }

    /// Whether every square of `bit` is on this board and `bit` is not empty.
    pub fn is_position_set(self, bit: Bit) -> (r: bool)
        ensures
            r == (self.0 & bit.0 != 0),
    {
        self.0 & bit.0 != 0
    }

    /// Number of squares on the board.
    pub fn get_count(self) -> (r: u32)
        ensures
            r == popcount(self.0),
    {
        count_ones(self.0)
    }

    /// Index of the lowest set square; 64 for the empty board.
    pub fn lowest(self) -> (r: u32)
        ensures
            r == vstd::std_specs::bits::u64_trailing_zeros(self.0),
            self.0 != 0 ==> r < 64 && bit_set(self.0, r as int),
    {
        proof {
            vstd::std_specs::bits::axiom_u64_trailing_zeros(self.0);
        }
        self.0.trailing_zeros()
    }
}

} // verus!
