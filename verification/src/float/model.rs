//! The binary32 number format: what a bit pattern means, and how patterns are ordered.

use vstd::arithmetic::power2::{lemma_pow2_pos, lemma_pow2_unfold, pow2};
use vstd::prelude::*;

verus! {

/// A binary32 number, held as its bit pattern: one sign bit, eight exponent bits and
/// twenty-three fraction bits.
#[derive(Clone, Copy, Debug, PartialEq, Eq, Structural)]
pub struct F32 {
    pub bits: u32,
}

/// The bit pattern without its sign.
pub open spec fn unsigned_code(bits: u32) -> int {
    if bits >= 0x8000_0000u32 {
        bits - 0x8000_0000
    } else {
        bits as int
    }
}

/// The unsigned pattern of an infinity. Larger unsigned patterns are not numbers.
pub const INF_CODE: u32 = 0x7f80_0000;

/// The distance from zero that an unsigned pattern stands for, counted in steps of 2^-149, the
/// smallest positive number. The pattern of infinity is given the value that would come after
/// the largest finite number.
pub open spec fn magnitude(code: int) -> int {
    if code < 0x80_0000 {
        code
    } else {
        (0x80_0000 + code % 0x80_0000) * pow2((code / 0x80_0000 - 1) as nat)
    }
}

impl F32 {
    pub open spec fn negative(self) -> bool {
        self.bits >= 0x8000_0000u32
    }

    pub open spec fn code(self) -> int {
        unsigned_code(self.bits)
    }

    pub open spec fn nan(self) -> bool {
        self.code() > INF_CODE
    }

    pub open spec fn infinite(self) -> bool {
        self.code() == INF_CODE
    }

    pub open spec fn finite(self) -> bool {
        self.code() < INF_CODE
    }

    pub open spec fn zero(self) -> bool {
        self.code() == 0
    }

    /// The number itself, counted in steps of 2^-149.
    pub open spec fn value(self) -> int {
        if self.negative() {
            -magnitude(self.code())
        } else {
            magnitude(self.code())
        }
    }

    /// Whether one number is below another. Nothing is below or above a non-number.
    pub open spec fn below(self, other: F32) -> bool {
        !self.nan() && !other.nan() && self.value() < other.value()
    }

    /// Whether one number is at most another.
    pub open spec fn at_most(self, other: F32) -> bool {
        !self.nan() && !other.nan() && self.value() <= other.value()
    }

    /// An integer that orders numbers as their values do.
    pub open spec fn rank(self) -> int {
        if self.negative() {
            -self.code()
        } else {
            self.code()
        }
    }
}

/// Builds a number from its sign and its unsigned pattern.
pub open spec fn with_sign(negative: bool, code: int) -> F32 {
    F32 { bits: (if negative { code + 0x8000_0000 } else { code }) as u32 }
}

/// The number of a rank: the inverse of [`F32::rank`] but for the sign of zero.
pub open spec fn of_rank(rank: int) -> F32 {
    if rank < 0 {
        with_sign(true, -rank)
    } else {
        with_sign(false, rank)
    }
}

/// The pattern with scale `s` and significand `m` stands for `m * 2^s`.
pub proof fn lemma_magnitude_of_parts(s: nat, m: int)
    requires
        0 <= m <= 0x100_0000,
        s > 0 ==> m >= 0x80_0000,
    ensures
        magnitude(s * 0x80_0000 + m) == m * pow2(s),
{
    let code = s * 0x80_0000 + m;
    if m == 0x100_0000 {
        assert(code == (s + 2) * 0x80_0000);
        assert(code % 0x80_0000 == 0 && code / 0x80_0000 == s + 2);
        lemma_pow2_unfold(s + 1);
        assert(0x80_0000 * (2 * pow2(s)) == 0x100_0000 * pow2(s)) by (nonlinear_arith);
    } else if m >= 0x80_0000 {
        assert(code == (s + 1) * 0x80_0000 + (m - 0x80_0000));
        assert(code % 0x80_0000 == m - 0x80_0000 && code / 0x80_0000 == s + 1);
    } else {
        assert(s == 0);
        vstd::arithmetic::power2::lemma2_to64();
        assert(m * 1 == m);
    }
}

/// Neighbouring patterns stand for growing distances from zero.
pub proof fn lemma_magnitude_step(code: int)
    requires
        0 <= code,
    ensures
        magnitude(code) < magnitude(code + 1),
        0 <= magnitude(code),
{
    if code < 0x80_0000 - 1 {
    } else if code == 0x80_0000 - 1 {
        vstd::arithmetic::power2::lemma2_to64();
        assert(magnitude(code + 1) == 0x80_0000 * pow2(0));
    } else {
        let s = (code / 0x80_0000 - 1) as nat;
        let m = 0x80_0000 + code % 0x80_0000;
        assert(code == s * 0x80_0000 + m);
        lemma_magnitude_of_parts(s, m);
        lemma_magnitude_of_parts(s, m + 1);
        assert(code + 1 == s * 0x80_0000 + (m + 1));
        lemma_pow2_pos(s);
        assert(m * pow2(s) < (m + 1) * pow2(s)) by (nonlinear_arith)
            requires
                pow2(s) > 0,
        ;
        assert(m * pow2(s) >= 0) by (nonlinear_arith)
            requires
                pow2(s) > 0,
                m >= 0,
        ;
    }
}

/// A larger unsigned pattern is further from zero.
pub proof fn lemma_magnitude_increases(a: int, b: int)
    requires
        0 <= a < b,
    ensures
        0 <= magnitude(a) < magnitude(b),
    decreases b - a,
{
    lemma_magnitude_step(b - 1);
    if a < b - 1 {
        lemma_magnitude_increases(a, b - 1);
    } else {
        lemma_magnitude_step(a);
    }
}

/// Unsigned patterns are ordered as the distances that they stand for.
pub proof fn lemma_magnitude_order(a: int, b: int)
    requires
        0 <= a,
        0 <= b,
    ensures
        a < b <==> magnitude(a) < magnitude(b),
        a == b <==> magnitude(a) == magnitude(b),
        0 <= magnitude(a),
        a == 0 <==> magnitude(a) == 0,
{
    lemma_magnitude_step(a);
    if a < b {
        lemma_magnitude_increases(a, b);
    } else if b < a {
        lemma_magnitude_increases(b, a);
    }
    if a > 0 {
        lemma_magnitude_increases(0, a);
    }
}

/// Ranks order numbers exactly as their values do.
pub proof fn lemma_rank_orders(a: F32, b: F32)
    ensures
        a.rank() < b.rank() <==> a.value() < b.value(),
        a.rank() == b.rank() <==> a.value() == b.value(),
{
    lemma_magnitude_order(a.code(), b.code());
    lemma_magnitude_order(b.code(), a.code());
}

impl F32 {
    pub fn from_bits(bits: u32) -> (r: F32)
        ensures
            r.bits == bits,
    {
        F32 { bits }
    }

    pub fn to_bits(self) -> (bits: u32)
        ensures
            bits == self.bits,
    {
        self.bits
    }

    pub fn is_nan(self) -> (r: bool)
        ensures
            r == self.nan(),
    {
        self.unsigned() > INF_CODE
    }

    pub fn is_zero(self) -> (r: bool)
        ensures
            r == self.zero(),
    {
        self.unsigned() == 0
    }

    pub(crate) fn is_negative(self) -> (r: bool)
        ensures
            r == self.negative(),
    {
        self.bits >= 0x8000_0000
    }

    pub(crate) fn unsigned(self) -> (code: u32)
        ensures
            code == self.code(),
            code < 0x8000_0000,
    {
        if self.bits >= 0x8000_0000 {
            self.bits - 0x8000_0000
        } else {
            self.bits
        }
    }

    /// The integer by which the number is ordered.
    pub fn order(self) -> (r: i64)
        ensures
            r == self.rank(),
    {
        if self.bits >= 0x8000_0000 {
            0x8000_0000i64 - self.bits as i64
        } else {
            self.bits as i64
        }
    }

    /// The number whose order is given; zero comes out positive.
    pub(crate) fn from_order(rank: i64) -> (r: F32)
        requires
            -0x8000_0000 < rank < 0x8000_0000,
        ensures
            r == of_rank(rank as int),
    {
        if rank < 0 {
            F32 { bits: (0x8000_0000i64 - rank) as u32 }
        } else {
            F32 { bits: rank as u32 }
        }
    }

    /// `self < other`.
    pub fn lt(self, other: F32) -> (r: bool)
        ensures
            r == self.below(other),
    {
        proof {
            lemma_rank_orders(self, other);
        }
        !self.is_nan() && !other.is_nan() && self.order() < other.order()
    }

    pub fn neg(self) -> (r: F32)
        ensures
            r == self.negated(),
    {
        if self.bits >= 0x8000_0000 {
            F32 { bits: self.bits - 0x8000_0000 }
        } else {
            F32 { bits: self.bits + 0x8000_0000 }
        }
    }

    /// The same number with the other sign.
    pub open spec fn negated(self) -> F32 {
        with_sign(!self.negative(), self.code())
    }
}

} // verus!
