//! How far rounded results are from exact ones.

use super::arith::absolute;
use super::laws::{lemma_rounded, lemma_rounded_monotone};
use super::model::{lemma_magnitude_of_parts, lemma_magnitude_order, magnitude, F32, INF_CODE};
use super::round::{lemma_nearest_exact, lemma_nearest_unique, nearest, rounded};
use super::scale::lemma_power_code;
use vstd::arithmetic::power2::{
    lemma2_to64, lemma_pow2_pos, lemma_pow2_strictly_increases, lemma_pow2_unfold, pow2,
};
use vstd::prelude::*;

verus! {

/// The exact sum of finite numbers, counted in steps of 2^-149.
pub open spec fn exact_sum(s: Seq<F32>) -> int
    decreases s.len(),
{
    if s.len() == 0 {
        0
    } else {
        exact_sum(s.drop_last()) + s.last().value()
    }
}

/// The exponent of the distance from a pattern to the next.
pub open spec fn gap_exponent(code: int) -> nat {
    if code < 0x80_0000 {
        0
    } else {
        (code / 0x80_0000 - 1) as nat
    }
}

/// The distance from a pattern to the next is a power of two.
pub proof fn lemma_gap(code: int)
    requires
        0 <= code,
    ensures
        magnitude(code + 1) - magnitude(code) == pow2(gap_exponent(code)),
        0x80_0000 * pow2(gap_exponent(code)) <= magnitude(code) + 0x80_0000,
{
    lemma2_to64();
    if code < 0x80_0000 {
        lemma_magnitude_of_parts(0, code);
        lemma_magnitude_of_parts(0, code + 1);
    } else {
        let s = gap_exponent(code);
        let m = 0x80_0000 + code % 0x80_0000;
        let g = pow2(s) as int;
        lemma_magnitude_of_parts(s, m);
        lemma_magnitude_of_parts(s, m + 1);
        assert(code == s * 0x80_0000 + m);
        assert(code + 1 == s * 0x80_0000 + (m + 1));
        assert((m + 1) * g - m * g == g) by (nonlinear_arith);
        lemma_pow2_pos(s);
        assert(0x80_0000 * g <= m * g) by (nonlinear_arith)
            requires
                m >= 0x80_0000,
                g > 0,
        ;
    }
}

/// Distances between neighbours never shrink.
pub proof fn lemma_gaps_grow(a: int, b: int)
    requires
        0 <= a <= b,
    ensures
        pow2(gap_exponent(a)) <= pow2(gap_exponent(b)),
{
    if gap_exponent(a) < gap_exponent(b) {
        lemma_pow2_strictly_increases(gap_exponent(a), gap_exponent(b));
    } else {
        assert(gap_exponent(a) == gap_exponent(b));
    }
}

/// A rounded number is off by at most one part in 2^24, or by half of the smallest step.
pub proof fn lemma_rounding_error(x: int, y: int)
    requires
        y > 0,
        rounded(x, y) < INF_CODE,
        x >= 0,
    ensures
        0x100_0000 * absolute(y * magnitude(rounded(x, y)) - x) <= y * (magnitude(rounded(x, y))
            + 0x80_0000),
{
    let c = rounded(x, y);
    lemma_rounded(x, y);
    lemma_gap(c);
    let m = magnitude(c);
    let g = pow2(gap_exponent(c)) as int;
    lemma_pow2_pos(gap_exponent(c));
    lemma_magnitude_order(c, 0);
    let high = magnitude(c + 1);
    assert(2 * (x - y * m) <= y * g) by (nonlinear_arith)
        requires
            2 * x <= y * (m + high),
            high - m == g,
    ;
    if c > 0 {
        lemma_gap(c - 1);
        lemma_gaps_grow(c - 1, c);
        let low = magnitude(c - 1);
        assert(2 * (y * m - x) <= y * g) by (nonlinear_arith)
            requires
                2 * x >= y * (low + m),
                m - low <= g,
                y > 0,
        ;
    } else {
        assert(y * m == 0) by (nonlinear_arith)
            requires
                m == 0,
        ;
        assert(y * g >= 0) by (nonlinear_arith)
            requires
                y > 0,
                g > 0,
        ;
    }
    let e = absolute(y * m - x);
    assert(2 * e <= y * g);
    assert(0x100_0000 * e <= y * (m + 0x80_0000)) by (nonlinear_arith)
        requires
            2 * e <= y * g,
            0x80_0000 * g <= m + 0x80_0000,
            y > 0,
    {
        assert(0x80_0000 * (2 * e) <= 0x80_0000 * (y * g));
        assert(0x80_0000 * (y * g) == y * (0x80_0000 * g));
        assert(y * (0x80_0000 * g) <= y * (m + 0x80_0000));
    }
}

/// Whether a number is finite and its size is at most a number of steps of 2^-149.
pub open spec fn within(a: F32, bound: int) -> bool {
    a.finite() && -bound <= a.value() <= bound
}

/// A rounded sum stays within a bound that is itself a number.
pub proof fn lemma_plus_within(a: F32, b: F32, code: int)
    requires
        a.finite(),
        b.finite(),
        0 <= code < INF_CODE,
        -magnitude(code) <= a.value() + b.value() <= magnitude(code),
    ensures
        within(a.plus(b), magnitude(code)),
{
    let w = absolute(a.value() + b.value());
    lemma_rounded(w, 1);
    lemma_nearest_exact(code, magnitude(code), 1);
    lemma_rounded_monotone(w, 1, magnitude(code), 1);
    lemma_magnitude_order(rounded(w, 1), code);
    lemma_magnitude_order(code, rounded(w, 1));
    lemma_magnitude_order(code, 0);
}

/// A number up to 2^s, in steps of 2^-149, stays so when a number smaller by 2^24 is added: the sum
/// is rounded back.
pub proof fn lemma_plus_settles(a: F32, b: F32, s: nat)
    requires
        24 <= s <= 250,
        within(a, pow2(s) as int),
        within(b, pow2((s - 24) as nat) as int),
    ensures
        within(a.plus(b), pow2(s) as int),
{
    let top = (s - 22) * 0x80_0000;
    let x = pow2(s) + pow2((s - 24) as nat);
    lemma_power_code((s - 23) as nat);
    lemma_pow2_unfold((s - 23) as nat);
    lemma_pow2_pos((s - 24) as nat);
    lemma_pow2_pos(s);
    lemma_gap(top);
    lemma_gap(top - 1);
    assert(top / 0x80_0000 == s - 22);
    assert((top - 1) / 0x80_0000 == s - 23);
    assert(top % 2 == 0);
    assert(nearest(top, x as int, 1));
    lemma_nearest_unique(top, x as int, 1);
    let w = absolute(a.value() + b.value());
    lemma_rounded(w, 1);
    lemma_rounded_monotone(w, 1, x as int, 1);
    lemma_magnitude_order(rounded(w, 1), top);
    lemma_magnitude_order(top, rounded(w, 1));
}

/// Division by at least one makes no number larger.
pub proof fn lemma_over_within(a: F32, b: F32, bound: int)
    requires
        within(a, bound),
        !b.nan(),
        !b.negative(),
        b.value() >= pow2(149),
    ensures
        within(a.over(b), bound),
{
    let (x, y) = (magnitude(a.code()), magnitude(b.code()));
    let h = pow2(149) as int;
    lemma_pow2_pos(149);
    lemma_magnitude_order(a.code(), 0);
    lemma_magnitude_order(b.code(), 0);
    if b.finite() {
        lemma_rounded(x * h, y);
        lemma_nearest_exact(a.code(), x, 1);
        assert((x * h) * 1 <= x * y) by (nonlinear_arith)
            requires
                x >= 0,
                h <= y,
        ;
        lemma_rounded_monotone(x * h, y, x, 1);
        lemma_magnitude_order(rounded(x * h, y), a.code());
        lemma_magnitude_order(a.code(), rounded(x * h, y));
    }
}

/// Multiplication by at most one makes no number larger.
pub proof fn lemma_times_within(k: F32, a: F32, bound: int)
    requires
        within(k, pow2(149) as int),
        within(a, bound),
    ensures
        within(k.times(a), bound),
{
    let (x, y) = (magnitude(k.code()), magnitude(a.code()));
    let h = pow2(149) as int;
    lemma_pow2_pos(149);
    lemma_magnitude_order(a.code(), 0);
    lemma_magnitude_order(k.code(), 0);
    lemma_rounded(x * y, h);
    lemma_nearest_exact(a.code(), y, 1);
    assert((x * y) * 1 <= y * h) by (nonlinear_arith)
        requires
            y >= 0,
            0 <= x <= h,
    ;
    lemma_rounded_monotone(x * y, h, y, 1);
    lemma_magnitude_order(rounded(x * y, h), a.code());
    lemma_magnitude_order(a.code(), rounded(x * y, h));
}

/// A whole number of steps is rounded with an error of at most one part in 2^24.
pub proof fn lemma_integer_error(x: int)
    requires
        x >= 0,
        rounded(x, 1) < INF_CODE,
    ensures
        0x100_0000 * absolute(magnitude(rounded(x, 1)) - x) <= magnitude(rounded(x, 1)),
{
    let c = rounded(x, 1);
    lemma_rounded(x, 1);
    lemma_gap(c);
    let m = magnitude(c);
    let g = pow2(gap_exponent(c)) as int;
    if c > 0 {
        lemma_gap(c - 1);
        lemma_gaps_grow(c - 1, c);
    }
    if c < 0x80_0000 {
        lemma2_to64();
        assert(g == 1);
    } else {
        let s = gap_exponent(c);
        lemma_pow2_pos(s);
        assert(0x80_0000 * g <= (0x80_0000 + c % 0x80_0000) * g) by (nonlinear_arith)
            requires
                g > 0,
                c % 0x80_0000 >= 0,
        ;
    }
    assert(2 * absolute(m - x) <= g);
}

/// Values up to a power of two are rounded to numbers up to that power.
pub proof fn lemma_rounded_below(x: int, y: int, n: nat)
    requires
        y > 0,
        23 <= n <= 276,
        x <= y * pow2(n),
    ensures
        rounded(x, y) < INF_CODE,
        magnitude(rounded(x, y)) <= pow2(n),
{
    lemma_power_code((n - 23) as nat);
    let top = (n - 22) * 0x80_0000int;
    lemma_nearest_exact(top, pow2(n) as int, 1);
    lemma_rounded(x, y);
    assert(x * 1 <= pow2(n) * y) by (nonlinear_arith)
        requires
            x <= y * pow2(n),
    ;
    lemma_rounded_monotone(x, y, pow2(n) as int, 1);
    lemma_magnitude_order(rounded(x, y), top);
    lemma_magnitude_order(top, rounded(x, y));
}

/// How far a sum is from the exact sum.
pub proof fn lemma_sum_error_of(a: F32, b: F32)
    requires
        a.finite(),
        b.finite(),
        absolute(a.value() + b.value()) <= pow2(276),
    ensures
        a.plus(b).finite(),
        0x100_0000 * absolute(a.plus(b).value() - (a.value() + b.value())) <= absolute(
            a.plus(b).value(),
        ),
        a.value() + b.value() >= 0 ==> a.plus(b).value() >= 0,
        a.value() + b.value() <= 0 ==> a.plus(b).value() <= 0,
{
    let v = a.value() + b.value();
    let w = absolute(v);
    lemma_rounded_below(w, 1, 276);
    lemma_rounded(w, 1);
    lemma_integer_error(w);
    lemma_magnitude_order(rounded(w, 1), 0);
    super::arith::lemma_rounded_zero(1);
}

/// How far a product is from the exact product.
pub proof fn lemma_product_error_of(a: F32, b: F32)
    requires
        a.finite(),
        b.finite(),
        absolute(a.value() * b.value()) <= pow2(149) * pow2(276),
    ensures
        a.times(b).finite(),
        0x100_0000 * absolute(pow2(149) * a.times(b).value() - a.value() * b.value()) <= pow2(149)
            * (absolute(a.times(b).value()) + 0x80_0000),
        a.value() * b.value() >= 0 ==> a.times(b).value() >= 0,
        a.value() * b.value() <= 0 ==> a.times(b).value() <= 0,
{
    let u = pow2(149) as int;
    let (x, y) = (magnitude(a.code()), magnitude(b.code()));
    let m = x * y;
    lemma_pow2_pos(149);
    lemma_magnitude_order(a.code(), 0);
    lemma_magnitude_order(b.code(), 0);
    assert(m >= 0) by (nonlinear_arith)
        requires
            m == x * y,
            x >= 0,
            y >= 0,
    ;
    assert((-x) * y == -m && x * (-y) == -m && (-x) * (-y) == m) by (nonlinear_arith)
        requires
            m == x * y,
    ;
    lemma_rounded_below(m, u, 276);
    lemma_rounded(m, u);
    lemma_rounding_error(m, u);
    let r = magnitude(rounded(m, u));
    lemma_magnitude_order(rounded(m, u), 0);
    if m == 0 {
        super::arith::lemma_rounded_zero(u);
    }
    assert(u * (-r) == -(u * r)) by (nonlinear_arith);
}

/// How far a quotient is from the exact quotient.
pub proof fn lemma_quotient_error_of(a: F32, b: F32)
    requires
        a.finite(),
        b.finite(),
        !b.zero(),
        absolute(a.value()) * pow2(149) <= absolute(b.value()) * pow2(276),
    ensures
        a.over(b).finite(),
        0x100_0000 * absolute(a.over(b).value() * b.value() - a.value() * pow2(149)) <= absolute(
            b.value(),
        ) * (absolute(a.over(b).value()) + 0x80_0000),
        b.value() > 0 && a.value() >= 0 ==> a.over(b).value() >= 0,
        b.value() > 0 && a.value() <= 0 ==> a.over(b).value() <= 0,
{
    let u = pow2(149) as int;
    let (x, y) = (magnitude(a.code()), magnitude(b.code()));
    let m = x * u;
    lemma_pow2_pos(149);
    lemma_magnitude_order(a.code(), 0);
    lemma_magnitude_order(b.code(), 0);
    assert(m >= 0) by (nonlinear_arith)
        requires
            m == x * u,
            x >= 0,
            u >= 0,
    ;
    lemma_rounded_below(m, y, 276);
    lemma_rounded(m, y);
    lemma_rounding_error(m, y);
    let r = magnitude(rounded(m, y));
    lemma_magnitude_order(rounded(m, y), 0);
    if x == 0 {
        assert(m == 0) by (nonlinear_arith)
            requires
                m == x * u,
                x == 0,
        ;
        super::arith::lemma_rounded_zero(y);
    }
    assert((-r) * y == -(y * r) && r * (-y) == -(y * r) && (-r) * (-y) == y * r && r * y == y * r
        && (-x) * u == -(x * u)) by (nonlinear_arith);
}

} // verus!
