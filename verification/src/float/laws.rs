//! What rounded arithmetic keeps of exact arithmetic.

use super::arith::{absolute, lemma_rounded_zero};
use super::model::{
    lemma_magnitude_order, lemma_rank_orders, magnitude, of_rank, with_sign, F32, INF_CODE,
};
use super::round::{lemma_nearest_exact, lemma_nearest_monotone, nearest, rounded};
use vstd::arithmetic::power2::{lemma_pow2_pos, pow2};
use vstd::prelude::*;

verus! {

/// The number nearest to a fraction of positive integers.
pub open spec fn ratio(p: int, q: int) -> F32 {
    with_sign(false, rounded(p * pow2(149), q))
}

proof fn lemma_nearest_from(code: int, x: int, y: int)
    requires
        0 <= code <= INF_CODE,
        code > 0 ==> {
            let low = y * (magnitude(code - 1) + magnitude(code));
            2 * x > low || (2 * x == low && code % 2 == 0)
        },
    ensures
        exists|c: int| nearest(c, x, y),
    decreases INF_CODE - code,
{
    if nearest(code, x, y) {
    } else {
        lemma_nearest_from(code + 1, x, y);
    }
}

/// Every value has a nearest pattern.
pub proof fn lemma_rounded(x: int, y: int)
    ensures
        nearest(rounded(x, y), x, y),
        0 <= rounded(x, y) <= INF_CODE,
{
    lemma_nearest_from(0, x, y);
}

/// Rounding keeps order.
pub proof fn lemma_rounded_monotone(x1: int, y1: int, x2: int, y2: int)
    requires
        y1 > 0,
        y2 > 0,
        x1 * y2 <= x2 * y1,
    ensures
        rounded(x1, y1) <= rounded(x2, y2),
{
    lemma_rounded(x1, y1);
    lemma_rounded(x2, y2);
    lemma_nearest_monotone(rounded(x1, y1), x1, y1, rounded(x2, y2), x2, y2);
}

/// The rank of a sum of finite numbers: the rounded exact sum, with its sign.
proof fn lemma_plus_rank(a: F32, b: F32)
    requires
        a.finite(),
        b.finite(),
    ensures
        ({
            let v = a.value() + b.value();
            let c = rounded(absolute(v), 1);
            &&& a.plus(b).rank() == (if v < 0 { -c } else { c })
            &&& 0 <= c <= INF_CODE
            &&& !a.plus(b).nan()
        }),
{
    let v = a.value() + b.value();
    lemma_rounded(absolute(v), 1);
    if v == 0 {
        lemma_rounded_zero(1);
    }
}

/// A sum of numbers is a number if one of them is finite.
pub proof fn lemma_sum_is_number(a: F32, b: F32)
    requires
        !a.nan(),
        !b.nan(),
        a.finite() || b.finite(),
    ensures
        !a.plus(b).nan(),
{
    lemma_rounded(absolute(a.value() + b.value()), 1);
}

/// Addition keeps order, as long as no two opposite infinities meet.
pub proof fn law_plus_keeps_order(a: F32, b: F32, c: F32, d: F32)
    requires
        a.at_most(c),
        b.at_most(d),
        !a.plus(b).nan(),
        !c.plus(d).nan(),
    ensures
        a.plus(b).at_most(c.plus(d)),
{
    lemma_rank_orders(a, c);
    lemma_rank_orders(b, d);
    lemma_rank_orders(a.plus(b), c.plus(d));
    if a.finite() && b.finite() {
        lemma_plus_rank(a, b);
    }
    if c.finite() && d.finite() {
        lemma_plus_rank(c, d);
    }
    if a.finite() && b.finite() && c.finite() && d.finite() {
        let v = a.value() + b.value();
        let w = c.value() + d.value();
        if v >= 0 {
            lemma_rounded_monotone(v, 1, w, 1);
        } else if w < 0 {
            lemma_rounded_monotone(-w, 1, -v, 1);
        }
    }
}

/// Addition does not depend on the order of its arguments.
pub proof fn law_plus_commutes(a: F32, b: F32)
    ensures
        a.plus(b) == b.plus(a),
{
}

/// Multiplication does not depend on the order of its arguments.
pub proof fn law_times_commutes(a: F32, b: F32)
    ensures
        a.times(b) == b.times(a),
{
    vstd::arithmetic::mul::lemma_mul_is_commutative(magnitude(a.code()), magnitude(b.code()));
}

/// Multiplication by a positive finite number keeps order.
pub proof fn law_times_keeps_order(k: F32, a: F32, b: F32)
    requires
        k.finite(),
        !k.negative(),
        !k.zero(),
        a.at_most(b),
    ensures
        k.times(a).at_most(k.times(b)),
{
    let y = pow2(149) as int;
    lemma_pow2_pos(149);
    lemma_magnitude_order(k.code(), 0);
    lemma_magnitude_order(a.code(), b.code());
    lemma_magnitude_order(b.code(), a.code());
    lemma_rank_orders(a, b);
    let mk = magnitude(k.code());
    let ma = magnitude(a.code());
    let mb = magnitude(b.code());
    lemma_rounded(mk * ma, y);
    lemma_rounded(mk * mb, y);
    if ma <= mb {
        assert((mk * ma) * y <= (mk * mb) * y) by (nonlinear_arith)
            requires
                ma <= mb,
                mk > 0,
                y > 0,
        ;
        lemma_rounded_monotone(mk * ma, y, mk * mb, y);
    }
    if mb <= ma {
        assert((mk * mb) * y <= (mk * ma) * y) by (nonlinear_arith)
            requires
                mb <= ma,
                mk > 0,
                y > 0,
        ;
        lemma_rounded_monotone(mk * mb, y, mk * ma, y);
    }
    if ma == 0 {
        assert(mk * ma == 0) by (nonlinear_arith)
            requires
                ma == 0,
        ;
        lemma_rounded_zero(y);
    }
    lemma_rank_orders(k.times(a), k.times(b));
}

/// Dividing a positive number by at least as much gives at most one, and not less than zero.
pub proof fn law_ratio_is_at_most_one(a: F32, b: F32)
    requires
        a.finite(),
        !a.negative(),
        a.at_most(b),
        !b.zero(),
    ensures
        !a.over(b).nan(),
        !a.over(b).negative(),
        a.over(b).at_most(F32 { bits: 0x3f80_0000 }),
{
    lemma_rank_orders(a, b);
    lemma_magnitude_order(a.code(), b.code());
    lemma_magnitude_order(b.code(), 0);
    let one = F32 { bits: 0x3f80_0000 };
    lemma_rank_orders(a.over(b), one);
    if b.finite() {
        let ma = magnitude(a.code());
        let mb = magnitude(b.code());
        let h = pow2(149) as int;
        lemma_pow2_pos(149);
        lemma_one();
        lemma_rounded(ma * h, mb);
        assert((ma * h) * 1 <= h * mb) by (nonlinear_arith)
            requires
                ma <= mb,
                h > 0,
        ;
        lemma_rounded_monotone(ma * h, mb, h, 1);
        lemma_nearest_exact(0x3f80_0000, h, 1);
    }
}

/// One is 2^149 steps of 2^-149.
pub proof fn lemma_one()
    ensures
        magnitude(0x3f80_0000) == pow2(149),
{
    vstd::arithmetic::power2::lemma2_to64();
    vstd::arithmetic::power2::lemma_pow2_adds(23, 126);
    assert(0x3f80_0000int % 0x80_0000 == 0 && 0x3f80_0000int / 0x80_0000 == 127);
}

/// The number nearest to one is one itself.
pub proof fn lemma_unit()
    ensures
        ratio(1, 1) == (F32 { bits: 0x3f80_0000 }),
{
    lemma_one();
    lemma_nearest_exact(0x3f80_0000, 1int * pow2(149), 1);
}

/// Dividing a positive finite number by itself gives exactly one.
pub proof fn law_self_ratio_is_one(a: F32)
    requires
        a.finite(),
        !a.zero(),
    ensures
        a.over(a) == (F32 { bits: 0x3f80_0000 }),
{
    let m = magnitude(a.code());
    lemma_magnitude_order(a.code(), 0);
    lemma_one();
    vstd::arithmetic::mul::lemma_mul_is_commutative(m, pow2(149) as int);
    lemma_nearest_exact(0x3f80_0000, m * pow2(149), m);
}

/// A number minus itself is zero.
pub proof fn law_self_difference_is_zero(a: F32)
    requires
        a.finite(),
    ensures
        a.minus(a) == (F32 { bits: 0 }),
{
}

/// Adding positive zero to anything but negative zero changes nothing.
pub proof fn law_plus_zero(a: F32)
    requires
        !a.nan(),
        a != (F32 { bits: 0x8000_0000 }),
    ensures
        (F32 { bits: 0 }).plus(a) == a,
{
    if a.finite() {
        lemma_magnitude_order(a.code(), 0);
        assert(1 * magnitude(a.code()) == magnitude(a.code()));
        lemma_nearest_exact(a.code(), magnitude(a.code()), 1);
    }
}

/// Adding negative zero changes nothing.
pub proof fn lemma_plus_negative_zero(a: F32)
    requires
        a.finite(),
        !a.zero(),
    ensures
        a.plus(F32 { bits: 0x8000_0000 }) == a,
{
    lemma_magnitude_order(a.code(), 0);
    lemma_nearest_exact(a.code(), magnitude(a.code()), 1);
}

/// How the number nearest to a fraction is recognised: `m * 2^s` steps of 2^-149 is the nearest to
/// `p / q` where the midpoints to its neighbours enclose the fraction.
pub proof fn lemma_ratio(p: int, q: int, s: nat, m: int)
    requires
        0 < s < 149,
        0x80_0000 < m < 0xff_ffff,
        q > 0,
        q * (2 * m - 1) < 2 * p * pow2((149 - s) as nat) < q * (2 * m + 1),
    ensures
        ratio(p, q) == (F32 { bits: (s * 0x80_0000 + m) as u32 }),
{
    let code = s * 0x80_0000 + m;
    let t = pow2((149 - s) as nat) as int;
    let ps = pow2(s) as int;
    let x = p * pow2(149);
    vstd::arithmetic::power2::lemma_pow2_adds(s, (149 - s) as nat);
    lemma_pow2_pos(s);
    super::model::lemma_magnitude_of_parts(s, m - 1);
    super::model::lemma_magnitude_of_parts(s, m);
    super::model::lemma_magnitude_of_parts(s, m + 1);
    assert(code - 1 == s * 0x80_0000 + (m - 1));
    assert(code + 1 == s * 0x80_0000 + (m + 1));
    assert(2 * x == (2 * p * t) * ps) by (nonlinear_arith)
        requires
            x == p * pow2(149),
            pow2(149) == ps * t,
    ;
    assert(q * ((m - 1) * ps + m * ps) == (q * (2 * m - 1)) * ps) by (nonlinear_arith);
    assert(q * (m * ps + (m + 1) * ps) == (q * (2 * m + 1)) * ps) by (nonlinear_arith);
    let lo = q * (2 * m - 1);
    let hi = q * (2 * m + 1);
    let v = 2 * p * t;
    assert(lo * ps < v * ps < hi * ps) by (nonlinear_arith)
        requires
            lo < v < hi,
            ps > 0,
    ;
    assert(nearest(code, x, q));
    super::round::lemma_nearest_unique(code, x, q);
}

/// Rank and number determine each other, but for the sign of zero.
pub proof fn lemma_of_rank(rank: int)
    requires
        -0x8000_0000 < rank < 0x8000_0000,
    ensures
        of_rank(rank).rank() == rank,
{
}

} // verus!
