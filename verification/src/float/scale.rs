//! Doubling numbers, and numbers of opposite sign.

use super::arith::{absolute, lemma_rounded_zero};
use super::error::within;
use super::laws::{lemma_rounded, lemma_rounded_monotone};
use super::model::{lemma_magnitude_of_parts, lemma_magnitude_order, magnitude, F32, INF_CODE};
use super::round::{lemma_nearest_exact, lemma_nearest_unique, nearest, rounded};
use vstd::arithmetic::power2::{
    lemma2_to64, lemma_pow2_adds, lemma_pow2_pos, lemma_pow2_unfold, pow2,
};
use vstd::prelude::*;

verus! {

/// Whether two numbers differ in nothing but their sign. Zeros are opposite to zeros of either sign,
/// and non-numbers to non-numbers.
pub open spec fn opposite(a: F32, b: F32) -> bool {
    if a.nan() || b.nan() {
        a.nan() && b.nan()
    } else {
        a.value() == -b.value()
    }
}

proof fn lemma_opposite_codes(a: F32, b: F32)
    requires
        opposite(a, b),
        !a.nan(),
    ensures
        a.code() == b.code(),
        a.zero() || a.negative() != b.negative(),
        a.rank() == -b.rank(),
{
    lemma_magnitude_order(a.code(), b.code());
    lemma_magnitude_order(b.code(), a.code());
}

/// A number is opposite to its negation.
pub proof fn lemma_negated_is_opposite(a: F32)
    ensures
        opposite(a, a.negated()),
{
}

/// Negation keeps numbers opposite.
pub proof fn lemma_opposite_negated(a: F32, b: F32)
    requires
        opposite(a, b),
    ensures
        opposite(a.negated(), b.negated()),
{
}

/// Sums of opposite numbers are opposite.
pub proof fn lemma_opposite_sums(a: F32, b: F32, c: F32, d: F32)
    requires
        opposite(a, b),
        opposite(c, d),
    ensures
        opposite(a.plus(c), b.plus(d)),
{
    if !a.nan() && !c.nan() {
        lemma_opposite_codes(a, b);
        lemma_opposite_codes(c, d);
        if a.finite() && c.finite() {
            lemma_rounded(absolute(a.value() + c.value()), 1);
        }
    }
}

/// Products of opposite numbers with the same number are opposite.
pub proof fn lemma_opposite_products(k: F32, a: F32, b: F32)
    requires
        opposite(a, b),
    ensures
        opposite(k.times(a), k.times(b)),
{
    if !a.nan() && !k.nan() {
        lemma_opposite_codes(a, b);
        lemma_pow2_pos(149);
        lemma_rounded(magnitude(k.code()) * magnitude(a.code()), pow2(149) as int);
        if a.zero() {
            assert(magnitude(k.code()) * 0 == 0) by (nonlinear_arith);
            lemma_rounded_zero(pow2(149) as int);
        }
    }
}

/// Quotients of opposite numbers by the same number are opposite.
pub proof fn lemma_opposite_quotients(a: F32, b: F32, k: F32)
    requires
        opposite(a, b),
    ensures
        opposite(a.over(k), b.over(k)),
{
    if !a.nan() && !k.nan() {
        lemma_opposite_codes(a, b);
        lemma_magnitude_order(k.code(), 0);
        lemma_rounded(magnitude(a.code()) * pow2(149), magnitude(k.code()));
        if a.zero() {
            assert(0 * pow2(149) == 0) by (nonlinear_arith);
            if !k.zero() {
                lemma_rounded_zero(magnitude(k.code()));
            }
        }
    }
}

/// Opposite numbers have the same square.
pub proof fn lemma_opposite_squares(a: F32, b: F32)
    requires
        opposite(a, b),
    ensures
        a.times(a) == b.times(b),
{
    if !a.nan() {
        lemma_opposite_codes(a, b);
    }
}

/// Whether a number is finite and another is exactly twice that number.
pub open spec fn doubled(a: F32, b: F32) -> bool {
    a.finite() && b.finite() && b.value() == 2 * a.value()
}

/// Whether a number is zero or of a size between 2^-100 and 2^100.
pub open spec fn moderate(a: F32) -> bool {
    a.zero() || (a.finite() && pow2(49) <= magnitude(a.code()) <= pow2(249))
}

/// The number two.
pub const TWO: u32 = 0x4000_0000;

/// The pattern of a power of two.
pub proof fn lemma_power_code(s: nat)
    ensures
        magnitude((s + 1) * 0x80_0000int) == pow2(s + 23),
{
    lemma2_to64();
    lemma_magnitude_of_parts(s, 0x80_0000);
    lemma_pow2_adds(23, s);
    assert(s * 0x80_0000 + 0x80_0000 == (s + 1) * 0x80_0000);
}

/// The next exponent doubles a number.
pub proof fn lemma_next_exponent(code: int)
    requires
        code >= 0x80_0000,
    ensures
        magnitude(code + 0x80_0000) == 2 * magnitude(code),
{
    let s = (code / 0x80_0000 - 1) as nat;
    let m = 0x80_0000 + code % 0x80_0000;
    assert(code == s * 0x80_0000 + m);
    lemma_magnitude_of_parts(s, m);
    lemma_magnitude_of_parts(s + 1, m);
    assert(code + 0x80_0000 == (s + 1) * 0x80_0000 + m);
    lemma_pow2_unfold(s + 1);
    assert(m * (2 * pow2(s)) == 2 * (m * pow2(s))) by (nonlinear_arith);
}

/// The patterns of numbers between 2^-100 and 2^100.
proof fn lemma_moderate_code(a: F32)
    requires
        moderate(a),
        !a.zero(),
    ensures
        27 * 0x80_0000int <= a.code() <= 227 * 0x80_0000int,
{
    lemma_power_code(26);
    lemma_power_code(226);
    lemma_magnitude_order(a.code(), 27 * 0x80_0000int);
    lemma_magnitude_order(227 * 0x80_0000int, a.code());
    lemma_magnitude_order(27 * 0x80_0000int, a.code());
    lemma_magnitude_order(a.code(), 227 * 0x80_0000int);
}

/// The pattern of the double of a moderate number.
pub proof fn lemma_doubled_rank(a: F32, b: F32)
    requires
        moderate(a),
        doubled(a, b),
    ensures
        b.rank() == doubled_rank(a.rank()),
{
    lemma_magnitude_order(a.code(), 0);
    lemma_magnitude_order(b.code(), 0);
    if !a.zero() {
        lemma_moderate_code(a);
        lemma_next_exponent(a.code());
        lemma_magnitude_order(b.code(), a.code() + 0x80_0000);
    }
}

/// The rank of twice the number of a rank.
pub open spec fn doubled_rank(rank: int) -> int {
    if rank == 0 {
        0
    } else if rank > 0 {
        rank + 0x80_0000
    } else {
        rank - 0x80_0000
    }
}

/// Multiplication by two doubles a moderate number exactly.
pub proof fn lemma_twice_is_doubled(a: F32)
    requires
        moderate(a),
    ensures
        doubled(a, (F32 { bits: TWO }).times(a)),
{
    let two = F32 { bits: TWO };
    let h = pow2(149) as int;
    lemma_pow2_pos(149);
    lemma_power_code(127);
    lemma_pow2_unfold(150);
    assert(128 * 0x80_0000 == TWO);
    assert(magnitude(two.code()) == 2 * h);
    let m = magnitude(a.code());
    if a.zero() {
        assert((2 * h) * 0 == 0) by (nonlinear_arith);
        lemma_rounded_zero(h);
    } else {
        lemma_moderate_code(a);
        lemma_next_exponent(a.code());
        assert((2 * h) * m == h * (2 * m)) by (nonlinear_arith);
        lemma_nearest_exact(a.code() + 0x80_0000, (2 * h) * m, h);
        lemma_magnitude_order(a.code(), 0);
    }
}

/// Doubling a value moves the number nearest to it to the next exponent.
pub proof fn lemma_rounded_doubles(x: int, y: int)
    requires
        y > 0,
        0x80_0000 < rounded(x, y) < 0x7f00_0000,
    ensures
        rounded(2 * x, y) == rounded(x, y) + 0x80_0000,
        magnitude(rounded(2 * x, y)) == 2 * magnitude(rounded(x, y)),
{
    let c = rounded(x, y);
    lemma_rounded(x, y);
    lemma_next_exponent(c - 1);
    lemma_next_exponent(c);
    lemma_next_exponent(c + 1);
    assert((c + 0x80_0000) % 2 == c % 2);
    let (l, m, h) = (magnitude(c - 1), magnitude(c), magnitude(c + 1));
    assert(y * (2 * l + 2 * m) == 2 * (y * (l + m)) && y * (2 * m + 2 * h) == 2 * (y * (m + h)))
        by (nonlinear_arith);
    assert(nearest(c + 0x80_0000, 2 * x, y));
    lemma_nearest_unique(c + 0x80_0000, 2 * x, y);
}

/// Doubling a whole number of steps doubles the number nearest to it.
pub proof fn lemma_integer_doubles(x: int)
    requires
        0 <= x <= pow2(275),
    ensures
        rounded(x, 1) < INF_CODE,
        rounded(2 * x, 1) < INF_CODE,
        magnitude(rounded(2 * x, 1)) == 2 * magnitude(rounded(x, 1)),
{
    let c = rounded(x, 1);
    lemma_rounded(x, 1);
    lemma_power_code(252);
    lemma_nearest_exact(253 * 0x80_0000int, pow2(275) as int, 1);
    lemma_rounded_monotone(x, 1, pow2(275) as int, 1);
    if c > 0x80_0000 {
        lemma_rounded_doubles(x, 1);
    } else {
        // Small numbers of steps are exact, and so are their doubles.
        lemma2_to64();
        lemma_magnitude_of_parts(0, c);
        lemma_magnitude_of_parts(0, c + 1);
        if c > 0 {
            lemma_magnitude_of_parts(0, c - 1);
        }
        assert(x == c);
        lemma_magnitude_of_parts(0, 2 * c);
        lemma_nearest_exact(2 * c, 2 * x, 1);
    }
}

/// A moderate number is a multiple of 2^-123.
proof fn lemma_moderate_multiple(a: F32) -> (q: int)
    requires
        moderate(a),
    ensures
        a.value() == q * pow2(26),
        -pow2(249) <= a.value() <= pow2(249),
{
    lemma_pow2_pos(249);
    lemma_magnitude_order(a.code(), 0);
    if a.zero() {
        assert(0 * pow2(26) == 0) by (nonlinear_arith);
        0
    } else {
        lemma_moderate_code(a);
        let c = a.code();
        let s = (c / 0x80_0000 - 1) as nat;
        let m = 0x80_0000 + c % 0x80_0000;
        assert(c == s * 0x80_0000 + m);
        lemma_magnitude_of_parts(s, m);
        lemma_pow2_adds((s - 26) as nat, 26);
        let r = m * pow2((s - 26) as nat);
        assert(m * (pow2((s - 26) as nat) * pow2(26)) == r * pow2(26)) by (nonlinear_arith)
            requires
                r == m * pow2((s - 26) as nat),
        ;
        assert((-r) * pow2(26) == -(r * pow2(26))) by (nonlinear_arith);
        if a.negative() {
            -r
        } else {
            r
        }
    }
}

/// Half the sum of two doubled numbers is doubled.
pub proof fn lemma_midpoint_doubles(a: F32, b: F32, c: F32, d: F32)
    requires
        moderate(a),
        moderate(b),
        doubled(a, c),
        doubled(b, d),
    ensures
        doubled(
            (F32 { bits: 0x3f00_0000 }).times(a.plus(b)),
            (F32 { bits: 0x3f00_0000 }).times(c.plus(d)),
        ),
{
    let half = F32 { bits: 0x3f00_0000 };
    let h = pow2(149) as int;
    let k = pow2(148) as int;
    lemma_pow2_pos(149);
    lemma_pow2_unfold(149);
    lemma_power_code(125);
    assert(126 * 0x80_0000 == 0x3f00_0000);
    assert(magnitude(half.code()) == k);
    let v = a.value() + b.value();
    let (s, t) = (a.plus(b), c.plus(d));
    if v == 0 {
        assert(k * 0 == 0) by (nonlinear_arith);
        lemma_rounded_zero(h);
    } else {
        let w = absolute(v);
        let p = lemma_moderate_multiple(a);
        let q = lemma_moderate_multiple(b);
        let u = pow2(26) as int;
        lemma_pow2_pos(26);
        assert(v == (p + q) * u) by (nonlinear_arith)
            requires
                v == p * u + q * u,
        ;
        assert(w >= u) by (nonlinear_arith)
            requires
                v == (p + q) * u,
                v != 0,
                u > 0,
                w == v || w == -v,
                w >= 0,
        {
            if p + q >= 1 {
                assert((p + q) * u >= u);
            } else if p + q <= -1 {
                assert((p + q) * u <= -u);
            } else {
                assert(p + q == 0);
            }
        }
        lemma_pow2_unfold(250);
        lemma_power_code(3);
        lemma_power_code(227);
        lemma_nearest_exact(4 * 0x80_0000int, u, 1);
        lemma_nearest_exact(228 * 0x80_0000int, pow2(250) as int, 1);
        lemma_rounded_monotone(u, 1, w, 1);
        lemma_rounded_monotone(w, 1, pow2(250) as int, 1);
        let r = rounded(w, 1);
        lemma_rounded_doubles(w, 1);
        lemma_next_exponent(r - 0x80_0000);
        lemma_next_exponent(r);
        assert(s.code() == r);
        assert(t.code() == r + 0x80_0000);
        lemma_half(k, h, magnitude(r - 0x80_0000));
        lemma_half(k, h, magnitude(r));
        lemma_nearest_exact(r - 0x80_0000, k * magnitude(r), h);
        lemma_nearest_exact(r, k * magnitude(r + 0x80_0000), h);
    }
}

proof fn lemma_half(k: int, h: int, m: int)
    requires
        h == 2 * k,
    ensures
        k * (2 * m) == h * m,
{
    assert(k * (2 * m) == (2 * k) * m) by (nonlinear_arith);
}

/// Doubling keeps order.
pub proof fn lemma_doubled_order(a: F32, b: F32, c: F32, d: F32)
    requires
        doubled(a, c),
        doubled(b, d),
    ensures
        a.below(b) == c.below(d),
{
}

/// Sums of doubled numbers are doubled.
pub proof fn lemma_sum_doubles(a: F32, b: F32, c: F32, d: F32)
    requires
        doubled(a, c),
        doubled(b, d),
        absolute(a.value() + b.value()) <= pow2(275),
    ensures
        doubled(a.plus(b), c.plus(d)),
{
    let w = absolute(a.value() + b.value());
    lemma_integer_doubles(w);
    lemma_rounded(w, 1);
    lemma_rounded(2 * w, 1);
    lemma_rounded_zero(1);
}

/// Whether a number is larger than the least normal number and not too large to be doubled twice.
pub open spec fn roomy(a: F32) -> bool {
    0x80_0000 < a.code() < 0x7a00_0000
}

/// Products of a number with doubled numbers are doubled.
pub proof fn lemma_product_doubles(k: F32, a: F32, c: F32)
    requires
        k.finite(),
        doubled(a, c),
        a.value() == 0 || roomy(k.times(a)),
    ensures
        doubled(k.times(a), k.times(c)),
{
    let u = pow2(149) as int;
    lemma_pow2_pos(149);
    lemma_magnitude_order(a.code(), 0);
    lemma_magnitude_order(c.code(), 0);
    let (x, y) = (magnitude(k.code()), magnitude(a.code()));
    lemma_rounded(x * y, u);
    if a.value() == 0 {
        assert(x * 0 == 0) by (nonlinear_arith);
        lemma_rounded_zero(u);
    } else {
        assert(x * (2 * y) == 2 * (x * y)) by (nonlinear_arith);
        assert(magnitude(c.code()) == 2 * y);
        lemma_rounded_doubles(x * y, u);
    }
}

/// Quotients of doubled numbers by a number are doubled.
pub proof fn lemma_quotient_doubles(a: F32, c: F32, k: F32)
    requires
        k.finite(),
        !k.zero(),
        doubled(a, c),
        a.value() == 0 || roomy(a.over(k)),
    ensures
        doubled(a.over(k), c.over(k)),
{
    let u = pow2(149) as int;
    lemma_pow2_pos(149);
    lemma_magnitude_order(a.code(), 0);
    lemma_magnitude_order(c.code(), 0);
    lemma_magnitude_order(k.code(), 0);
    let (x, y) = (magnitude(a.code()), magnitude(k.code()));
    lemma_rounded(x * u, y);
    if a.value() == 0 {
        assert(0 * u == 0) by (nonlinear_arith);
        lemma_rounded_zero(y);
    } else {
        assert((2 * x) * u == 2 * (x * u)) by (nonlinear_arith);
        assert(magnitude(c.code()) == 2 * x);
        lemma_rounded_doubles(x * u, y);
    }
}

/// Whether a number is four times another.
pub open spec fn quadrupled(a: F32, b: F32) -> bool {
    a.finite() && b.finite() && b.value() == 4 * a.value()
}

/// Doubling a number quadruples its square.
pub proof fn lemma_square_quadruples(a: F32, c: F32)
    requires
        doubled(a, c),
        a.value() == 0 || roomy(a.times(a)),
    ensures
        quadrupled(a.times(a), c.times(c)),
{
    let u = pow2(149) as int;
    lemma_pow2_pos(149);
    lemma_magnitude_order(a.code(), 0);
    lemma_magnitude_order(c.code(), 0);
    let y = magnitude(a.code());
    lemma_rounded(y * y, u);
    if a.value() == 0 {
        assert(0int * 0int == 0) by (nonlinear_arith);
        lemma_rounded_zero(u);
    } else {
        assert((2 * y) * (2 * y) == 2 * (2 * (y * y))) by (nonlinear_arith);
        assert(magnitude(c.code()) == 2 * y);
        lemma_rounded_doubles(y * y, u);
        lemma_rounded_doubles(2 * (y * y), u);
    }
}

/// Quotients of quadrupled numbers by a number are quadrupled.
pub proof fn lemma_quotient_quadruples(a: F32, c: F32, k: F32)
    requires
        k.finite(),
        !k.zero(),
        quadrupled(a, c),
        a.value() == 0 || roomy(a.over(k)),
    ensures
        quadrupled(a.over(k), c.over(k)),
{
    let u = pow2(149) as int;
    lemma_pow2_pos(149);
    lemma_magnitude_order(a.code(), 0);
    lemma_magnitude_order(c.code(), 0);
    lemma_magnitude_order(k.code(), 0);
    let (x, y) = (magnitude(a.code()), magnitude(k.code()));
    lemma_rounded(x * u, y);
    if a.value() == 0 {
        assert(0 * u == 0) by (nonlinear_arith);
        lemma_rounded_zero(y);
    } else {
        assert((4 * x) * u == 2 * (2 * (x * u))) by (nonlinear_arith);
        assert(magnitude(c.code()) == 4 * x);
        lemma_rounded_doubles(x * u, y);
        lemma_rounded_doubles(2 * (x * u), y);
    }
}

/// Sums of quadrupled numbers are quadrupled.
pub proof fn lemma_sum_quadruples(a: F32, b: F32, c: F32, d: F32)
    requires
        quadrupled(a, c),
        quadrupled(b, d),
        2 * absolute(a.value() + b.value()) <= pow2(275),
    ensures
        quadrupled(a.plus(b), c.plus(d)),
{
    let w = absolute(a.value() + b.value());
    lemma_integer_doubles(w);
    lemma_integer_doubles(2 * w);
    lemma_rounded(w, 1);
    lemma_rounded(2 * (2 * w), 1);
    lemma_rounded_zero(1);
}

/// Such a number is below 2^117.
pub proof fn lemma_roomy(a: F32)
    requires
        roomy(a),
    ensures
        a.finite(),
        within(a, pow2(266) as int),
{
    lemma_power_code(243);
    lemma_magnitude_order(a.code(), 244 * 0x80_0000int);
    lemma_magnitude_order(a.code(), 0);
}

} // verus!
