//! Correctly rounded addition, subtraction, multiplication and division.

use super::model::{
    lemma_magnitude_of_parts, lemma_magnitude_order, magnitude, with_sign, F32, INF_CODE,
};
use super::round::{bit_length, nearest, round_scaled, rounded, SCALE};
use vstd::arithmetic::power2::{
    lemma_pow2_adds, lemma_pow2_pos, lemma_pow2_strictly_increases, pow2,
};
use vstd::prelude::*;

verus! {

/// The pattern that stands for an undefined result.
pub const NAN: u32 = 0x7fc0_0000;

/// The size of an integer.
pub open spec fn absolute(v: int) -> int {
    if v < 0 { -v } else { v }
}

impl F32 {
    /// The sum, rounded to nearest.
    pub open spec fn plus(self, other: F32) -> F32 {
        if self.nan() || other.nan() {
            F32 { bits: NAN }
        } else if self.infinite() {
            if other.infinite() && self.negative() != other.negative() {
                F32 { bits: NAN }
            } else {
                self
            }
        } else if other.infinite() {
            other
        } else {
            let v = self.value() + other.value();
            if v == 0 {
                with_sign(self.negative() && other.negative(), 0)
            } else {
                with_sign(v < 0, rounded(absolute(v), 1))
            }
        }
    }

    /// The difference, rounded to nearest.
    pub open spec fn minus(self, other: F32) -> F32 {
        self.plus(other.negated())
    }

    /// The product, rounded to nearest.
    pub open spec fn times(self, other: F32) -> F32 {
        let sign = self.negative() != other.negative();
        if self.nan() || other.nan() {
            F32 { bits: NAN }
        } else if self.infinite() || other.infinite() {
            if self.zero() || other.zero() {
                F32 { bits: NAN }
            } else {
                with_sign(sign, INF_CODE as int)
            }
        } else {
            with_sign(
                sign,
                rounded(magnitude(self.code()) * magnitude(other.code()), pow2(149) as int),
            )
        }
    }

    /// The quotient, rounded to nearest.
    pub open spec fn over(self, other: F32) -> F32 {
        let sign = self.negative() != other.negative();
        if self.nan() || other.nan() {
            F32 { bits: NAN }
        } else if self.infinite() {
            if other.infinite() {
                F32 { bits: NAN }
            } else {
                with_sign(sign, INF_CODE as int)
            }
        } else if other.infinite() {
            with_sign(sign, 0)
        } else if other.zero() {
            if self.zero() {
                F32 { bits: NAN }
            } else {
                with_sign(sign, INF_CODE as int)
            }
        } else {
            with_sign(
                sign,
                rounded(magnitude(self.code()) * pow2(149), magnitude(other.code())),
            )
        }
    }
}

/// Zero is rounded to zero.
pub proof fn lemma_rounded_zero(y: int)
    requires
        y > 0,
    ensures
        rounded(0, y) == 0,
        nearest(0, 0, y),
{
    assert(y * magnitude(0) == 0) by (nonlinear_arith)
        requires
            magnitude(0) == 0,
    ;
    super::round::lemma_nearest_exact(0, 0, y);
}

/// The significand and the scale of an unsigned pattern.
pub(crate) fn parts(code: u32) -> (r: (u64, u32))
    requires
        code < INF_CODE,
    ensures
        magnitude(code as int) == r.0 * pow2(r.1 as nat),
        r.0 < 0x100_0000,
        r.1 <= 253,
        r.1 > 0 ==> r.0 >= 0x80_0000,
        code == r.1 * 0x80_0000 + r.0,
{
    let top: u32 = code / 0x80_0000;
    let low: u32 = code % 0x80_0000;
    if top == 0 {
        proof {
            lemma_magnitude_of_parts(0, code as int);
        }
        (code as u64, 0)
    } else {
        proof {
            lemma_magnitude_of_parts((top - 1) as nat, 0x80_0000 + low);
        }
        ((0x80_0000 + low) as u64, top - 1)
    }
}

fn signed(negative: bool, code: u32) -> (r: F32)
    requires
        code < 0x8000_0000,
    ensures
        r == with_sign(negative, code as int),
{
    if negative {
        F32 { bits: code + 0x8000_0000 }
    } else {
        F32 { bits: code }
    }
}

/// Aligns a significand with one of a larger scale, as `tail` steps and, where `lost` is set, a
/// part of a step.
fn align(m: u64, d: u32) -> (r: (u64, bool))
    requires
        m < 0x100_0000,
        d <= 253,
    ensures
        r.0 * pow2(d as nat) <= m * pow2(32),
        r.1 <==> r.0 * pow2(d as nat) != m * pow2(32),
        m * pow2(32) < (r.0 + 1) * pow2(d as nat),
        r.0 <= 0x100_0000_0000_0000,
        d > 32 ==> r.0 < 0x80_0000,
        r.1 ==> d > 32,
{
    proof {
        vstd::arithmetic::power2::lemma2_to64();
        vstd::arithmetic::power2::lemma2_to64_rest();
        vstd::bits::lemma_u64_shl_is_mul(m, 32);
        lemma_pow2_pos(d as nat);
    }
    let wide: u64 = m << 32u64;
    if d >= 56 {
        proof {
            if d > 56 {
                lemma_pow2_strictly_increases(56, d as nat);
            }
        }
        assert(0 * pow2(d as nat) == 0);
        assert((0 + 1) * pow2(d as nat) == pow2(d as nat)) by (nonlinear_arith);
        return (0, m != 0);
    }
    let tail: u64 = wide >> (d as u64);
    proof {
        vstd::bits::lemma_u64_shr_is_div(wide, d as u64);
        let pd = pow2(d as nat) as int;
        vstd::arithmetic::div_mod::lemma_fundamental_div_mod(wide as int, pd);
        assert(tail * pd <= wide < (tail + 1) * pd) by (nonlinear_arith)
            requires
                wide == pd * tail + wide as int % pd,
                0 <= wide as int % pd < pd,
        ;
        assert(tail <= wide) by (nonlinear_arith)
            requires
                tail * pd <= wide,
                pd >= 1,
                tail >= 0,
        ;
        vstd::bits::lemma_u64_shl_is_mul(tail, d as u64);
        if d > 32 {
            if d > 33 {
                lemma_pow2_strictly_increases(33, d as nat);
            }
            assert(tail < 0x80_0000) by (nonlinear_arith)
                requires
                    tail * pd <= wide,
                    wide < 0x100_0000_0000_0000,
                    pd >= 0x2_0000_0000,
            ;
        } else {
            lemma_pow2_adds(d as nat, (32 - d) as nat);
            let ph = pow2((32 - d) as nat) as int;
            assert(wide == (m * ph) * pd) by (nonlinear_arith)
                requires
                    wide == m * pow2(32),
                    pow2(32) == pd * ph,
            ;
            vstd::arithmetic::div_mod::lemma_div_multiples_vanish(m * ph, pd);
            vstd::arithmetic::mul::lemma_mul_is_commutative(m * ph, pd);
        }
    }
    (tail, (tail << (d as u64)) != wide)
}

/// Adds or subtracts the distances from zero of two finite numbers, the first at least as large.
fn combine(big: u32, small: u32, subtract: bool) -> (code: u32)
    requires
        small <= big < INF_CODE,
        subtract ==> small < big,
        big > 0,
    ensures
        ({
            let v = if subtract {
                magnitude(big as int) - magnitude(small as int)
            } else {
                magnitude(big as int) + magnitude(small as int)
            };
            &&& v > 0
            &&& code == rounded(v, 1)
            &&& code <= INF_CODE
        }),
{
    let (ma, sa): (u64, u32) = parts(big);
    let (mb, sb): (u64, u32) = parts(small);
    assert(sb <= sa);
    let d: u32 = sa - sb;
    let (tail, lost): (u64, bool) = align(mb, d);
    let ghost x = if subtract {
        magnitude(big as int) - magnitude(small as int)
    } else {
        magnitude(big as int) + magnitude(small as int)
    };
    proof {
        vstd::arithmetic::power2::lemma2_to64();
        vstd::bits::lemma_u64_shl_is_mul(ma, 32);
        lemma_magnitude_order(big as int, small as int);
        lemma_magnitude_order(big as int, 0);
        lemma_magnitude_order(small as int, 0);
    }
    let head: u64 = ma << 32u64;
    let e: u32 = sa + (SCALE - 32);
    let ghost p = pow2(e as nat) as int;
    let ghost t = mb * pow2(sb as nat) * pow2(SCALE as nat);
    proof {
        lemma_aligned(
            magnitude(big as int),
            magnitude(small as int),
            ma as int,
            mb as int,
            sa as nat,
            sb as nat,
            tail as int,
        );
    }
    let a: Ghost<int> = Ghost(pow2(SCALE as nat) as int);
    if subtract {
        if lost {
            let sig: u64 = head - tail - 1;
            proof {
                assert(x * a@ == head * p - magnitude(small as int) * a@) by (nonlinear_arith)
                    requires
                        x == magnitude(big as int) - magnitude(small as int),
                        magnitude(big as int) * a@ == head * p,
                ;
                assert(sig * p < x * a@ < (sig + 1) * p) by (nonlinear_arith)
                    requires
                        sig == head - tail - 1,
                        x * a@ == head * p - magnitude(small as int) * a@,
                        tail * p < magnitude(small as int) * a@ < (tail + 1) * p,
                ;
                assert(p * 1 == p);
            }
            round_scaled(sig, e, true, Ghost(x), Ghost(1))
        } else {
            proof {
                assert(x * a@ == (head - tail) * p) by (nonlinear_arith)
                    requires
                        x == magnitude(big as int) - magnitude(small as int),
                        magnitude(big as int) * a@ == head * p,
                        magnitude(small as int) * a@ == tail * p,
                ;
                assert(head > tail) by (nonlinear_arith)
                    requires
                        x * a@ == (head - tail) * p,
                        x > 0,
                        a@ > 0,
                        p > 0,
                ;
                assert((head - tail + 1) * p > (head - tail) * p) by (nonlinear_arith)
                    requires
                        p > 0,
                ;
                assert(p * 1 == p);
            }
            round_scaled(head - tail, e, false, Ghost(x), Ghost(1))
        }
    } else {
        proof {
            assert(x * a@ == head * p + magnitude(small as int) * a@) by (nonlinear_arith)
                requires
                    x == magnitude(big as int) + magnitude(small as int),
                    magnitude(big as int) * a@ == head * p,
            ;
            assert((head + tail) * p <= x * a@ < (head + tail + 1) * p && (x * a@ == (head + tail)
                * p <==> magnitude(small as int) * a@ == tail * p)) by (nonlinear_arith)
                requires
                    x * a@ == head * p + magnitude(small as int) * a@,
                    tail * p <= magnitude(small as int) * a@ < (tail + 1) * p,
            ;
            assert(p * 1 == p);
        }
        round_scaled(head + tail, e, lost, Ghost(x), Ghost(1))
    }
}

/// What alignment means for the scaled distances.
proof fn lemma_aligned(va: int, vb: int, ma: int, mb: int, sa: nat, sb: nat, tail: int)
    requires
        sb <= sa,
        va == ma * pow2(sa),
        vb == mb * pow2(sb),
        tail * pow2((sa - sb) as nat) <= mb * pow2(32),
        mb * pow2(32) < (tail + 1) * pow2((sa - sb) as nat),
    ensures
        ({
            let p = pow2((sa + (SCALE - 32)) as nat) as int;
            let a = pow2(SCALE as nat) as int;
            &&& p > 0
            &&& a > 0
            &&& va * a == (ma * pow2(32)) * p
            &&& tail * p <= vb * a < (tail + 1) * p
            &&& (tail * pow2((sa - sb) as nat) == mb * pow2(32) <==> vb * a == tail * p)
        }),
{
    let w: nat = (SCALE - 32) as nat;
    let d = (sa - sb) as nat;
    let p = pow2(sa + w) as int;
    let a = pow2(SCALE as nat) as int;
    let r = pow2(sb + w) as int;
    let g = pow2(32) as int;
    lemma_pow2_pos(sa + w);
    lemma_pow2_pos(sb + w);
    lemma_pow2_pos(SCALE as nat);
    lemma_pow2_adds(w, 32);
    lemma_pow2_adds(sa, w);
    lemma_pow2_adds(sb, w);
    lemma_pow2_adds(d, sb + w);
    let pw = pow2(w) as int;
    assert(a == pw * g);
    assert(va * a == (ma * g) * p) by (nonlinear_arith)
        requires
            va == ma * pow2(sa),
            a == pw * g,
            p == pow2(sa) * pw,
    ;
    assert(vb * a == (mb * g) * r) by (nonlinear_arith)
        requires
            vb == mb * pow2(sb),
            a == pw * g,
            r == pow2(sb) * pw,
    ;
    let pd = pow2(d) as int;
    assert(p == pd * r);
    assert(tail * p == (tail * pd) * r && (tail + 1) * p == ((tail + 1) * pd) * r)
        by (nonlinear_arith)
        requires
            p == pd * r,
    ;
    let u = tail * pd;
    let v = mb * g;
    let z = (tail + 1) * pd;
    assert(u * r <= v * r < z * r && (u == v <==> v * r == u * r)) by (nonlinear_arith)
        requires
            r > 0,
            u <= v < z,
    ;
}

impl F32 {
    /// `self + other`.
    pub fn add(self, other: F32) -> (r: F32)
        ensures
            r == self.plus(other),
    {
        let ca: u32 = self.unsigned();
        let cb: u32 = other.unsigned();
        if ca > INF_CODE || cb > INF_CODE {
            return F32 { bits: NAN };
        }
        let na: bool = self.is_negative();
        let nb: bool = other.is_negative();
        if ca == INF_CODE {
            if cb == INF_CODE && na != nb {
                return F32 { bits: NAN };
            }
            return self;
        }
        if cb == INF_CODE {
            return other;
        }
        proof {
            lemma_magnitude_order(ca as int, cb as int);
            lemma_magnitude_order(cb as int, ca as int);
        }
        if na == nb {
            if ca == 0 && cb == 0 {
                return signed(na, 0);
            }
            if ca >= cb {
                signed(na, combine(ca, cb, false))
            } else {
                signed(na, combine(cb, ca, false))
            }
        } else if ca == cb {
            F32 { bits: 0 }
        } else if ca > cb {
            signed(na, combine(ca, cb, true))
        } else {
            signed(nb, combine(cb, ca, true))
        }
    }

    /// `self - other`.
    pub fn sub(self, other: F32) -> (r: F32)
        ensures
            r == self.minus(other),
    {
        self.add(other.neg())
    }

    /// `self * other`.
    pub fn mul(self, other: F32) -> (r: F32)
        ensures
            r == self.times(other),
    {
        let ca: u32 = self.unsigned();
        let cb: u32 = other.unsigned();
        if ca > INF_CODE || cb > INF_CODE {
            return F32 { bits: NAN };
        }
        let sign: bool = self.is_negative() != other.is_negative();
        if ca == INF_CODE || cb == INF_CODE {
            if ca == 0 || cb == 0 {
                return F32 { bits: NAN };
            }
            return signed(sign, INF_CODE);
        }
        let ghost x = magnitude(ca as int) * magnitude(cb as int);
        let ghost y = pow2(149) as int;
        proof {
            lemma_pow2_pos(149);
        }
        if ca == 0 || cb == 0 {
            proof {
                assert(x == 0) by (nonlinear_arith)
                    requires
                        x == magnitude(ca as int) * magnitude(cb as int),
                        magnitude(ca as int) == 0 || magnitude(cb as int) == 0,
                ;
                lemma_rounded_zero(y);
            }
            return signed(sign, 0);
        }
        let (ma, sa): (u64, u32) = parts(ca);
        let (mb, sb): (u64, u32) = parts(cb);
        proof {
            assert(0 < ma * mb < 0x1_0000_0000_0000) by (nonlinear_arith)
                requires
                    0 < ma < 0x100_0000,
                    0 < mb < 0x100_0000,
            ;
        }
        let sig: u64 = ma * mb;
        let e: u32 = sa + sb + (SCALE - 149);
        proof {
            let pa = pow2(sa as nat) as int;
            let pb = pow2(sb as nat) as int;
            let w: nat = (SCALE - 149) as nat;
            lemma_pow2_adds(sa as nat, sb as nat);
            lemma_pow2_adds((sa + sb) as nat, w);
            lemma_pow2_adds(w, 149);
            lemma_pow2_pos(e as nat);
            let p = pow2(e as nat) as int;
            let pw = pow2(w) as int;
            let a = pow2(SCALE as nat) as int;
            assert(x * a == sig * (p * y)) by (nonlinear_arith)
                requires
                    x == (ma * pa) * (mb * pb),
                    sig == ma * mb,
                    p == (pa * pb) * pw,
                    a == pw * y,
            ;
            assert(sig * (p * y) < (sig + 1) * (p * y)) by (nonlinear_arith)
                requires
                    p > 0,
                    y > 0,
            ;
        }
        signed(sign, round_scaled(sig, e, false, Ghost(x), Ghost(y)))
    }

    /// `self / other`.
    pub fn div(self, other: F32) -> (r: F32)
        ensures
            r == self.over(other),
    {
        let ca: u32 = self.unsigned();
        let cb: u32 = other.unsigned();
        if ca > INF_CODE || cb > INF_CODE {
            return F32 { bits: NAN };
        }
        let sign: bool = self.is_negative() != other.is_negative();
        if ca == INF_CODE {
            if cb == INF_CODE {
                return F32 { bits: NAN };
            }
            return signed(sign, INF_CODE);
        }
        if cb == INF_CODE {
            return signed(sign, 0);
        }
        if cb == 0 {
            if ca == 0 {
                return F32 { bits: NAN };
            }
            return signed(sign, INF_CODE);
        }
        let ghost x = magnitude(ca as int) * pow2(149);
        let ghost y = magnitude(cb as int);
        proof {
            lemma_magnitude_order(cb as int, 0);
        }
        if ca == 0 {
            proof {
                assert(0 * pow2(149) == 0);
                lemma_rounded_zero(y);
            }
            return signed(sign, 0);
        }
        let (ma, sa): (u64, u32) = parts(ca);
        let (mb, sb): (u64, u32) = parts(cb);
        let (na, la): (u64, u32) = normalize(ma);
        let (nb, lb): (u64, u32) = normalize(mb);
        proof {
            vstd::arithmetic::power2::lemma2_to64();
            vstd::bits::lemma_u64_shl_is_mul(na, 32);
        }
        let num: u64 = na << 32u64;
        let sig: u64 = num / nb;
        let e: u32 = sa + lb + (SCALE + 117) - (sb + la);
        proof {
            vstd::arithmetic::div_mod::lemma_fundamental_div_mod(num as int, nb as int);
            assert(sig * nb <= num < (sig + 1) * nb) by (nonlinear_arith)
                requires
                    num == nb * sig + num as int % nb as int,
                    0 <= num as int % (nb as int) < nb,
            ;
            assert(0x200_0000 <= sig < 0x4000_0000_0000_0000) by (nonlinear_arith)
                requires
                    sig * nb <= num < (sig + 1) * nb,
                    0x80_0000 <= nb < 0x100_0000,
                    0x80_0000_0000_0000 <= num < 0x100_0000_0000_0000,
            ;
            lemma_quotient_scaled(
                x,
                y,
                ma as int,
                sa as nat,
                la as nat,
                mb as int,
                sb as nat,
                lb as nat,
                e as nat,
                sig as int,
            );
            let u = pow2((sa + (SCALE + 117) - la) as nat) as int;
            let low = sig * nb;
            let high = (sig + 1) * nb;
            assert(low * u <= num * u < high * u && (low * u == num * u <==> low == num))
                by (nonlinear_arith)
                requires
                    u > 0,
                    low <= num < high,
            ;
        }
        let exact: bool = num % nb == 0;
        proof {
            assert(exact <==> sig * nb == num) by {
                vstd::arithmetic::mul::lemma_mul_is_commutative(sig as int, nb as int);
            }
        }
        signed(sign, round_scaled(sig, e, !exact, Ghost(x), Ghost(y)))
    }
}

/// Shifts a significand up to twenty-four bits.
fn normalize(m: u64) -> (r: (u64, u32))
    requires
        0 < m < 0x100_0000,
    ensures
        r.0 == m * pow2(r.1 as nat),
        0x80_0000 <= r.0 < 0x100_0000,
        r.1 <= 23,
{
    let len: u32 = bit_length(m);
    proof {
        vstd::arithmetic::power2::lemma2_to64();
        if len > 24 {
            if len > 25 {
                lemma_pow2_strictly_increases(24, (len - 1) as nat);
            }
            assert(false);
        }
        let g = (24 - len) as nat;
        lemma_pow2_adds((len - 1) as nat, g);
        lemma_pow2_adds(len as nat, g);
        lemma_pow2_pos(g);
        assert(0x80_0000 <= m * pow2(g) < 0x100_0000) by (nonlinear_arith)
            requires
                pow2((len - 1) as nat) <= m < pow2(len as nat),
                pow2((len - 1) as nat) * pow2(g) == 0x80_0000,
                pow2(len as nat) * pow2(g) == 0x100_0000,
                pow2(g) > 0,
        ;
        vstd::bits::lemma_u64_shl_is_mul(m, (24 - len) as u64);
    }
    let g: u32 = 24 - len;
    (m << (g as u64), g)
}

/// What dividing the shifted significands means for the scaled quotient.
proof fn lemma_quotient_scaled(
    x: int,
    y: int,
    ma: int,
    sa: nat,
    la: nat,
    mb: int,
    sb: nat,
    lb: nat,
    e: nat,
    sig: int,
)
    requires
        x == (ma * pow2(sa)) * pow2(149),
        y == mb * pow2(sb),
        la <= 23,
        e + sb + la == sa + lb + (SCALE + 117),
    ensures
        ({
            let u = pow2((sa + (SCALE + 117) - la) as nat) as int;
            let a = pow2(SCALE as nat) as int;
            let na = ma * pow2(la);
            let nb = mb * pow2(lb);
            &&& u > 0
            &&& x * a == (na * pow2(32)) * u
            &&& sig * (pow2(e) * y) == (sig * nb) * u
            &&& (sig + 1) * (pow2(e) * y) == ((sig + 1) * nb) * u
        }),
{
    let ue = (sa + (SCALE + 117) - la) as nat;
    let u = pow2(ue) as int;
    let a = pow2(SCALE as nat) as int;
    let pa = pow2(sa) as int;
    let pb = pow2(sb) as int;
    let qa = pow2(la) as int;
    let qb = pow2(lb) as int;
    let g = pow2(32) as int;
    let h = pow2(149) as int;
    let pe = pow2(e) as int;
    lemma_pow2_pos(ue);
    lemma_pow2_adds(149, SCALE as nat);
    lemma_pow2_adds(sa, 149 + SCALE as nat);
    lemma_pow2_adds(la, 32);
    lemma_pow2_adds(la + 32, ue);
    assert(sa + (149 + SCALE) == (la + 32) + ue);
    assert(pa * (h * a) == (qa * g) * u);
    lemma_pow2_adds(e, sb);
    lemma_pow2_adds(lb, ue);
    assert(pe * pb == qb * u);
    assert(x * a == ((ma * qa) * g) * u) by (nonlinear_arith)
        requires
            x == (ma * pa) * h,
            pa * (h * a) == (qa * g) * u,
    {
        assert(x * a == ma * (pa * (h * a)));
    }
    assert(pe * y == (mb * qb) * u) by (nonlinear_arith)
        requires
            y == mb * pb,
            pe * pb == qb * u,
    {
        assert(pe * y == mb * (pe * pb));
    }
    let nb = mb * qb;
    assert(sig * (nb * u) == (sig * nb) * u && (sig + 1) * (nb * u) == ((sig + 1) * nb) * u)
        by (nonlinear_arith);
}

} // verus!
