//! A 64-bit bitboard, one bit per square (little-endian rank-file).

use crate::types::Square;
use vstd::prelude::*;
use vstd::std_specs::bits::{axiom_u64_trailing_zeros, u64_trailing_zeros};

verus! {

#[derive(Clone, Copy, PartialEq, Eq, Debug, Default, Hash, Structural)]
pub struct Bitboard(pub u64);

pub const FILE_A: u64 = 0x0101_0101_0101_0101;

pub const FILE_H: u64 = 0x8080_8080_8080_8080;

pub const RANK_1: u64 = 0x0000_0000_0000_00FF;

pub const RANK_8: u64 = 0xFF00_0000_0000_0000;

/// Whether bit `i` of `b` is set.
pub open spec fn bit(b: u64, i: u64) -> bool {
    (b >> i) & 1u64 == 1u64
}

/// Number of set bits of `b`.
pub open spec fn popcount(b: u64) -> nat
    decreases b,
{
    if b == 0 {
        0
    } else {
        (b % 2) as nat + popcount(b / 2)
    }
}

/// A word below `2^k` has at most `k` one bits.
proof fn lemma_popcount_bound(x: u64, k: nat)
    requires
        x < vstd::arithmetic::power2::pow2(k),
    ensures
        popcount(x) <= k,
    decreases k,
{
    if x != 0 {
        if k == 0 {
            vstd::arithmetic::power2::lemma2_to64();
        } else {
            vstd::arithmetic::power2::lemma_pow2_unfold(k);
            lemma_popcount_bound((x / 2) as u64, (k - 1) as nat);
        }
    }
}

/// The number of one bits of `x`, counted bit by bit.
fn count_ones(x: u64) -> (r: u32)
    ensures
        r == popcount(x),
{
    proof {
        vstd::arithmetic::power2::lemma2_to64();
        lemma_popcount_bound(x, 64);
    }
    let mut v = x;
    let mut c: u32 = 0;
    while v != 0
        invariant
            c + popcount(v) == popcount(x),
            popcount(x) <= 64,
        decreases v,
    {
        c = c + (v % 2) as u32;
        v = v / 2;
    }
    c
}

/// Setting bit `s` sets exactly that bit.
pub proof fn lemma_bit_or(x: u64, s: u64, t: u64)
    requires
        s < 64,
        t < 64,
    ensures
        bit(x | (1u64 << s), t) == (bit(x, t) || s == t),
{
    assert(bit(x | (1u64 << s), t) == (bit(x, t) || s == t)) by (bit_vector)
        requires
            s < 64,
            t < 64,
    ;
}

/// Toggling bit `s` flips exactly that bit.
pub proof fn lemma_bit_xor(x: u64, s: u64, t: u64)
    requires
        s < 64,
        t < 64,
    ensures
        bit(x ^ (1u64 << s), t) == (if s == t { !bit(x, t) } else { bit(x, t) }),
{
    assert(bit(x ^ (1u64 << s), t) == (if s == t { !bit(x, t) } else { bit(x, t) }))
        by (bit_vector)
        requires
            s < 64,
            t < 64,
    ;
}

/// The bits of `a & b`, `a | b` and `!a`.
pub proof fn lemma_bit_ops(a: u64, b: u64, t: u64)
    requires
        t < 64,
    ensures
        bit(a & b, t) == (bit(a, t) && bit(b, t)),
        bit(a | b, t) == (bit(a, t) || bit(b, t)),
        bit(a ^ b, t) == (bit(a, t) != bit(b, t)),
        bit(!a, t) == !bit(a, t),
        bit(1u64 << t, t),
{
    assert(bit(a & b, t) == (bit(a, t) && bit(b, t))) by (bit_vector);
    assert(bit(a | b, t) == (bit(a, t) || bit(b, t))) by (bit_vector);
    assert(bit(a ^ b, t) == (bit(a, t) != bit(b, t))) by (bit_vector);
    assert(bit(!a, t) == !bit(a, t)) by (bit_vector)
        requires
            t < 64,
    ;
    assert(bit(1u64 << t, t)) by (bit_vector)
        requires
            t < 64,
    ;
}

/// Bit `t` of a single-square board is set exactly at its square.
pub proof fn lemma_bit_single(s: u64, t: u64)
    requires
        s < 64,
        t < 64,
    ensures
        bit(1u64 << s, t) == (s == t),
{
    assert(bit(1u64 << s, t) == (s == t)) by (bit_vector)
        requires
            s < 64,
            t < 64,
    ;
}

/// A word is zero exactly when none of its 64 bits is set.
pub proof fn lemma_zero_iff_no_bits(x: u64)
    ensures
        x == 0 <==> forall|t: u64| t < 64 ==> !#[trigger] bit(x, t),
{
    if x != 0 {
        axiom_u64_trailing_zeros(x);
        let t = u64_trailing_zeros(x) as u64;
        assert(bit(x, t));
    } else {
        assert forall|t: u64| t < 64 implies !#[trigger] bit(x, t) by {
            assert(x == 0 ==> (x >> t) & 1u64 == 0u64) by (bit_vector);
        }
    }
}

impl Bitboard {
    #[inline]
    pub fn from_square(sq: Square) -> (r: Bitboard)
        requires
            sq.valid(),
        ensures
            r.0 == 1u64 << sq.0,
    {
        Bitboard(1u64 << sq.0)
    }

    #[inline]
    pub fn is_empty(self) -> (r: bool)
        ensures
            r == (self.0 == 0),
    {
        self.0 == 0
    }

    #[inline]
    pub fn any(self) -> (r: bool)
        ensures
            r == (self.0 != 0),
    {
        self.0 != 0
    }

    #[inline]
    pub fn contains(self, sq: Square) -> (r: bool)
        requires
            sq.valid(),
        ensures
            r == bit(self.0, sq.0 as u64),
    {
        let x = self.0;
        let s = sq.0 as u64;
        assert((x & (1u64 << s) != 0) == bit(x, s)) by (bit_vector)
            requires
                s < 64,
        ;
        self.0 & (1u64 << sq.0) != 0
    }

    #[inline]
    pub fn count(self) -> (r: u32)
        ensures
            r == popcount(self.0),
    {
        count_ones(self.0)
    }

    /// Square of the least-significant set bit. Caller must ensure non-empty.
    #[inline]
    pub fn lsb(self) -> (r: Square)
        requires
            self.0 != 0,
        ensures
            r.0 == u64_trailing_zeros(self.0),
            r.valid(),
            bit(self.0, r.0 as u64),
            forall|t: u64| t < r.0 ==> !#[trigger] bit(self.0, t),
    {
        proof {
            axiom_u64_trailing_zeros(self.0);
        }
        let tz = self.0.trailing_zeros();
        proof {
            assert forall|t: u64| t < tz implies !#[trigger] bit(self.0, t) by {
                let x = self.0;
                assert(((x >> t) & 1u64 == 0u64) ==> !bit(x, t));
            }
        }
        Square(tz as u8)
    }

    /// Pop and return the least-significant set square, clearing it.
    #[inline]
    pub fn pop_lsb(&mut self) -> (r: Square)
        requires
            old(self).0 != 0,
        ensures
            r == old(self).lsb_spec(),
            r.valid(),
            bit(old(self).0, r.0 as u64),
            final(self).0 == old(self).0 ^ (1u64 << r.0),
            forall|t: u64| t < r.0 ==> !#[trigger] bit(old(self).0, t),
    {
        let sq = self.lsb();
        self.0 = self.0 ^ (1u64 << sq.0);
        sq
    }

    /// The least-significant set square.
    pub open spec fn lsb_spec(self) -> Square {
        Square(u64_trailing_zeros(self.0) as u8)
    }

    // Directional one-step shifts with wrap masking.
    #[inline]
    pub fn north(self) -> (r: Bitboard)
        ensures
            r.0 == self.0 << 8u64,
    {
        Bitboard(self.0 << 8)
    }

    #[inline]
    pub fn south(self) -> (r: Bitboard)
        ensures
            r.0 == self.0 >> 8u64,
    {
        Bitboard(self.0 >> 8)
    }

    #[inline]
    pub fn east(self) -> (r: Bitboard)
        ensures
            r.0 == (self.0 & !FILE_H) << 1u64,
    {
        Bitboard((self.0 & !FILE_H) << 1)
    }

    #[inline]
    pub fn west(self) -> (r: Bitboard)
        ensures
            r.0 == (self.0 & !FILE_A) >> 1u64,
    {
        Bitboard((self.0 & !FILE_A) >> 1)
    }

    #[inline]
    pub fn north_east(self) -> (r: Bitboard)
        ensures
            r.0 == (self.0 & !FILE_H) << 9u64,
    {
        Bitboard((self.0 & !FILE_H) << 9)
    }

    #[inline]
    pub fn north_west(self) -> (r: Bitboard)
        ensures
            r.0 == (self.0 & !FILE_A) << 7u64,
    {
        Bitboard((self.0 & !FILE_A) << 7)
    }

    #[inline]
    pub fn south_east(self) -> (r: Bitboard)
        ensures
            r.0 == (self.0 & !FILE_H) >> 7u64,
    {
        Bitboard((self.0 & !FILE_H) >> 7)
    }

    #[inline]
    pub fn south_west(self) -> (r: Bitboard)
        ensures
            r.0 == (self.0 & !FILE_A) >> 9u64,
    {
        Bitboard((self.0 & !FILE_A) >> 9)
    }

    /// Iterate set squares, consuming the bitboard.
    pub fn squares(self) -> (r: SquareIter)
        ensures
            r.0 == self.0,
    {
        SquareIter(self.0)
    }

    pub fn and(self, rhs: Bitboard) -> (r: Bitboard)
        ensures
            r.0 == self.0 & rhs.0,
    {
        Bitboard(self.0 & rhs.0)
    }

    pub fn or(self, rhs: Bitboard) -> (r: Bitboard)
        ensures
            r.0 == self.0 | rhs.0,
    {
        Bitboard(self.0 | rhs.0)
    }

    pub fn xor(self, rhs: Bitboard) -> (r: Bitboard)
        ensures
            r.0 == self.0 ^ rhs.0,
    {
        Bitboard(self.0 ^ rhs.0)
    }

    pub fn complement(self) -> (r: Bitboard)
        ensures
            r.0 == !self.0,
    {
        Bitboard(!self.0)
    }
}

/// The remaining set squares of a bitboard, yielded lowest first.
pub struct SquareIter(pub u64);

impl SquareIter {
    /// The lowest remaining square, removed from the iterator; `None` once
    /// every square has been yielded.
    pub fn next(&mut self) -> (r: Option<Square>)
        ensures
            old(self).0 == 0 ==> r is None && final(self).0 == 0,
            old(self).0 != 0 ==> r == Some(Bitboard(old(self).0).lsb_spec()) && final(self).0
                == old(self).0 ^ (1u64 << Bitboard(old(self).0).lsb_spec().0),
    {
        if self.0 == 0 {
            None
        } else {
            let mut b = Bitboard(self.0);
            let sq = b.pop_lsb();
            self.0 = b.0;
            Some(sq)
        }
    }
}

} // verus!
