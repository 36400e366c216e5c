//! Conversions between numbers and integers, and selection among numbers.

use super::arith::parts;
use super::model::{lemma_magnitude_order, magnitude, with_sign, F32, INF_CODE};
use super::round::{round_scaled, rounded, SCALE};
use vstd::arithmetic::power2::{
    lemma_pow2_adds, lemma_pow2_pos, lemma_pow2_strictly_increases, pow2,
};
use vstd::prelude::*;

verus! {

/// The number nearest to a non-negative integer.
pub open spec fn of_integer(n: int) -> F32 {
    with_sign(false, rounded(n * pow2(149), 1))
}

/// An integer cut off at the largest index.
pub open spec fn saturated(v: int) -> usize {
    if v > usize::MAX {
        usize::MAX
    } else {
        v as usize
    }
}

impl F32 {
    /// The integer part as an index: zero below one and for a non-number, cut off at the largest
    /// index.
    pub open spec fn whole(self) -> usize {
        if self.nan() || self.negative() {
            0
        } else {
            saturated(magnitude(self.code()) / pow2(149) as int)
        }
    }

    /// The least integer not below the number, as an index: zero for a non-number and for what is
    /// not above zero, cut off at the largest index.
    pub open spec fn whole_up(self) -> usize {
        if self.nan() || self.negative() {
            0
        } else {
            saturated((magnitude(self.code()) + pow2(149) - 1) / pow2(149) as int)
        }
    }

    /// The larger of two numbers; where one is a non-number, the other.
    pub open spec fn larger(self, other: F32) -> F32 {
        if self.nan() || self.below(other) {
            other
        } else {
            self
        }
    }

    /// The number moved into the range from `low` to `high`.
    pub open spec fn confined(self, low: F32, high: F32) -> F32 {
        if self.below(low) {
            low
        } else if high.below(self) {
            high
        } else {
            self
        }
    }
}

/// The integer part of a distance from zero, and whether anything is left over. A distance of at
/// least 2^64 is reported as `None`.
fn split_whole(code: u32) -> (r: Option<(u64, bool)>)
    requires
        code < INF_CODE,
    ensures
        match r {
            Some((w, rest)) => {
                &&& w == magnitude(code as int) / pow2(149) as int
                &&& rest <==> magnitude(code as int) % pow2(149) as int != 0
            },
            None => magnitude(code as int) / pow2(149) as int >= 0x1_0000_0000_0000_0000,
        },
{
    let (m, s): (u64, u32) = parts(code);
    let ghost v = magnitude(code as int);
    let ghost one = pow2(149) as int;
    proof {
        vstd::arithmetic::power2::lemma2_to64();
        vstd::arithmetic::power2::lemma2_to64_rest();
        lemma_pow2_pos(149);
    }
    if s >= 149 {
        let g: u32 = s - 149;
        let ghost pg = pow2(g as nat) as int;
        proof {
            lemma_pow2_adds(g as nat, 149);
            lemma_pow2_pos(g as nat);
            assert(v == (m * pg) * one) by (nonlinear_arith)
                requires
                    v == m * pow2(s as nat),
                    pow2(s as nat) == pg * one,
            ;
            vstd::arithmetic::div_mod::lemma_div_multiples_vanish(m * pg, one);
            vstd::arithmetic::mul::lemma_mul_is_commutative(m * pg, one);
            vstd::arithmetic::div_mod::lemma_mod_multiples_basic(m * pg, one);
            assert(v / one == m * pg);
        }
        if g > 40 {
            proof {
                if g > 41 {
                    lemma_pow2_strictly_increases(41, g as nat);
                }
                assert(m * pg >= 0x1_0000_0000_0000_0000) by (nonlinear_arith)
                    requires
                        m >= 0x80_0000,
                        pg >= 0x200_0000_0000,
                ;
            }
            return None;
        }
        proof {
            if g < 40 {
                lemma_pow2_strictly_increases(g as nat, 40);
            }
            assert(m * pg <= u64::MAX) by (nonlinear_arith)
                requires
                    m < 0x100_0000,
                    0 < pg <= 0x100_0000_0000,
            ;
            vstd::bits::lemma_u64_shl_is_mul(m, g as u64);
        }
        Some((m << (g as u64), false))
    } else {
        let g: u32 = 149 - s;
        let ghost pg = pow2(g as nat) as int;
        let ghost ps = pow2(s as nat) as int;
        proof {
            lemma_pow2_adds(g as nat, s as nat);
            lemma_pow2_pos(g as nat);
            lemma_pow2_pos(s as nat);
            vstd::arithmetic::div_mod::lemma_fundamental_div_mod(m as int, pg);
            let w = m as int / pg;
            let r = m as int % pg;
            assert(v == w * one + r * ps) by (nonlinear_arith)
                requires
                    v == m * ps,
                    one == pg * ps,
                    m == pg * w + r,
            ;
            assert(0 <= r * ps < one && (r * ps != 0 <==> r != 0)) by (nonlinear_arith)
                requires
                    0 <= r < pg,
                    one == pg * ps,
                    ps > 0,
            ;
            vstd::arithmetic::div_mod::lemma_fundamental_div_mod_converse(v, one, w, r * ps);
        }
        if g >= 24 {
            proof {
                if g > 24 {
                    lemma_pow2_strictly_increases(24, g as nat);
                }
                vstd::arithmetic::div_mod::lemma_basic_div(m as int, pg);
                vstd::arithmetic::div_mod::lemma_small_mod(m as nat, pg as nat);
            }
            return Some((0, m != 0));
        }
        proof {
            vstd::bits::lemma_u64_shr_is_div(m, g as u64);
            vstd::bits::lemma_u64_shl_is_mul(1, g as u64);
            lemma_pow2_strictly_increases(g as nat, 24);
        }
        Some((m >> (g as u64), m % (1u64 << (g as u64)) != 0))
    }
}

fn saturate(w: u64) -> (r: usize)
    ensures
        r == saturated(w as int),
{
    if w > usize::MAX as u64 {
        usize::MAX
    } else {
        w as usize
    }
}

impl F32 {
    /// The number nearest to an integer.
    pub fn from_usize(n: usize) -> (r: F32)
        ensures
            r == of_integer(n as int),
    {
        let ghost x = n * pow2(149);
        if n == 0 {
            proof {
                assert(0 * pow2(149) == 0);
                super::arith::lemma_rounded_zero(1);
            }
            return F32 { bits: 0 };
        }
        let wide: u64 = n as u64;
        let small: bool = wide < 0x4000_0000_0000_0000;
        let sig: u64 = if small { wide } else { wide / 4 };
        let e: u32 = if small { SCALE + 149 } else { SCALE + 151 };
        let sticky: bool = !small && wide % 4 != 0;
        proof {
            let a = pow2(SCALE as nat) as int;
            let h = pow2(149) as int;
            lemma_pow2_adds(SCALE as nat, 149);
            lemma_pow2_adds((SCALE + 149) as nat, 2);
            vstd::arithmetic::power2::lemma2_to64();
            lemma_pow2_pos((SCALE + 149) as nat);
            let u = a * h;
            assert(x * a == wide * u) by (nonlinear_arith)
                requires
                    x == wide * h,
                    u == a * h,
            ;
            let p = pow2(e as nat) as int;
            let t: int = if small { 1 } else { 4 };
            assert(p == u * t);
            assert(sig * t <= wide < (sig + 1) * t);
            assert(sig * (p * 1) <= x * a < (sig + 1) * (p * 1) && (x * a == sig * (p * 1) <==> sig
                * t == wide)) by (nonlinear_arith)
                requires
                    p == u * t,
                    u > 0,
                    x * a == wide * u,
                    sig * t <= wide < (sig + 1) * t,
            {
                assert(sig * (p * 1) == (sig * t) * u);
                assert((sig + 1) * (p * 1) == ((sig + 1) * t) * u);
            }
        }
        let code: u32 = round_scaled(sig, e, sticky, Ghost(x), Ghost(1));
        F32 { bits: code }
    }

    /// The integer part, cut off to the range of an index.
    pub fn to_usize(self) -> (r: usize)
        ensures
            r == self.whole(),
    {
        let code: u32 = self.unsigned();
        if code > INF_CODE || self.is_negative() {
            return 0;
        }
        if code == INF_CODE {
            proof {
                lemma_infinity_whole();
            }
            return usize::MAX;
        }
        match split_whole(code) {
            Some((w, _)) => saturate(w),
            None => usize::MAX,
        }
    }

    /// The least integer not below the number, cut off to the range of an index.
    pub fn ceil_to_usize(self) -> (r: usize)
        ensures
            r == self.whole_up(),
    {
        let code: u32 = self.unsigned();
        if code > INF_CODE || self.is_negative() {
            return 0;
        }
        proof {
            lemma_pow2_pos(149);
            let one = pow2(149) as int;
            let v = magnitude(code as int);
            lemma_magnitude_order(code as int, 0);
            let w = v / one;
            let r = v % one;
            vstd::arithmetic::div_mod::lemma_fundamental_div_mod(v, one);
            if r == 0 {
                assert(v + one - 1 == w * one + (one - 1)) by (nonlinear_arith)
                    requires
                        v == one * w + r,
                        r == 0,
                ;
                vstd::arithmetic::div_mod::lemma_fundamental_div_mod_converse(
                    v + one - 1,
                    one,
                    w,
                    one - 1,
                );
            } else {
                assert(v + one - 1 == (w + 1) * one + (r - 1)) by (nonlinear_arith)
                    requires
                        v == one * w + r,
                ;
                vstd::arithmetic::div_mod::lemma_fundamental_div_mod_converse(
                    v + one - 1,
                    one,
                    w + 1,
                    r - 1,
                );
            }
        }
        if code == INF_CODE {
            proof {
                lemma_infinity_whole();
            }
            return usize::MAX;
        }
        match split_whole(code) {
            Some((w, rest)) => if rest && w < u64::MAX {
                saturate(w + 1)
            } else {
                saturate(w)
            },
            None => usize::MAX,
        }
    }

    /// The larger of two numbers.
    pub fn max(self, other: F32) -> (r: F32)
        ensures
            r == self.larger(other),
    {
        if self.is_nan() || self.lt(other) {
            other
        } else {
            self
        }
    }

    /// The number moved into a range.
    pub fn clamp(self, low: F32, high: F32) -> (r: F32)
        ensures
            r == self.confined(low, high),
    {
        if self.lt(low) {
            low
        } else if high.lt(self) {
            high
        } else {
            self
        }
    }
}

/// The value after the largest finite number is beyond every index.
proof fn lemma_infinity_whole()
    ensures
        magnitude(INF_CODE as int) / pow2(149) as int >= 0x1_0000_0000_0000_0000,
{
    vstd::arithmetic::power2::lemma2_to64();
    vstd::arithmetic::power2::lemma2_to64_rest();
    lemma_pow2_pos(149);
    lemma_pow2_adds(105, 149);
    lemma_pow2_strictly_increases(63, 105);
    let one = pow2(149) as int;
    let t: int = 0x80_0000 * pow2(105) as int;
    assert(magnitude(INF_CODE as int) == 0x80_0000 * pow2(254));
    assert(0x80_0000 * pow2(254) == t * one) by (nonlinear_arith)
        requires
            pow2(254) == pow2(105) * one,
            t == 0x80_0000 * pow2(105),
    ;
    vstd::arithmetic::div_mod::lemma_div_multiples_vanish(t, one);
    vstd::arithmetic::mul::lemma_mul_is_commutative(t, one);
}

} // verus!
