//! Rounding of exact values to the nearest number.

use super::model::{
    lemma_magnitude_of_parts, lemma_magnitude_order, lemma_magnitude_step, magnitude, INF_CODE,
};
use vstd::arithmetic::power2::{
    lemma_pow2_adds, lemma_pow2_pos, lemma_pow2_strictly_increases, lemma_pow2_unfold, pow2,
};
use vstd::prelude::*;
use vstd::std_specs::bits::u64_leading_zeros;

verus! {

/// Whether an unsigned pattern is the one nearest to `x / y`, both counted in steps of 2^-149: the
/// value lies between the midpoints to the two neighbours, and on a midpoint the even pattern is
/// taken.
pub open spec fn nearest(code: int, x: int, y: int) -> bool {
    &&& 0 <= code <= INF_CODE
    &&& code > 0 ==> {
        let low = y * (magnitude(code - 1) + magnitude(code));
        2 * x > low || (2 * x == low && code % 2 == 0)
    }
    &&& code < INF_CODE ==> {
        let high = y * (magnitude(code) + magnitude(code + 1));
        2 * x < high || (2 * x == high && code % 2 == 0)
    }
}

/// The unsigned pattern nearest to `x / y`.
pub open spec fn rounded(x: int, y: int) -> int {
    choose|code: int| nearest(code, x, y)
}

/// Rounding keeps order.
pub proof fn lemma_nearest_monotone(c1: int, x1: int, y1: int, c2: int, x2: int, y2: int)
    requires
        nearest(c1, x1, y1),
        nearest(c2, x2, y2),
        y1 > 0,
        y2 > 0,
        x1 * y2 <= x2 * y1,
    ensures
        c1 <= c2,
{
    if c2 < c1 {
        let s1 = magnitude(c1 - 1) + magnitude(c1);
        let s2 = magnitude(c2) + magnitude(c2 + 1);
        lemma_magnitude_order(c2, c1 - 1);
        lemma_magnitude_order(c2 + 1, c1);
        assert(s2 <= s1);
        assert(2 * x1 >= y1 * s1);
        assert(2 * x2 <= y2 * s2);
        assert(2 * x1 == y1 * s1 && 2 * x2 == y2 * s2 && s1 == s2) by (nonlinear_arith)
            requires
                s2 <= s1,
                2 * x1 >= y1 * s1,
                2 * x2 <= y2 * s2,
                x1 * y2 <= x2 * y1,
                y1 > 0,
                y2 > 0,
        {
            let p = y1 * y2;
            assert(p > 0);
            assert((2 * x1) * y2 >= (y1 * s1) * y2);
            assert((2 * x2) * y1 <= (y2 * s2) * y1);
            assert((y1 * s1) * y2 == p * s1);
            assert((y2 * s2) * y1 == p * s2);
            assert(2 * (x1 * y2) == (2 * x1) * y2);
            assert(2 * (x2 * y1) == (2 * x2) * y1);
            assert(p * s1 <= p * s2);
            assert(p * s2 <= p * s1);
            assert(s1 <= s2);
            assert((2 * x1) * y2 == p * s1);
            assert((2 * x2) * y1 == p * s2);
            assert((2 * x1 - y1 * s1) * y2 == 0);
            assert((2 * x2 - y2 * s2) * y1 == 0);
        }
        assert(c2 == c1 - 1);
    }
}

/// There is only one nearest pattern.
pub proof fn lemma_nearest_unique(code: int, x: int, y: int)
    requires
        nearest(code, x, y),
        y > 0,
    ensures
        rounded(x, y) == code,
{
    let other = rounded(x, y);
    assert(nearest(other, x, y));
    lemma_nearest_monotone(code, x, y, other, x, y);
    lemma_nearest_monotone(other, x, y, code, x, y);
}

/// A value that a pattern stands for is rounded to that pattern.
pub proof fn lemma_nearest_exact(code: int, x: int, y: int)
    requires
        0 <= code <= INF_CODE,
        x == y * magnitude(code),
        y > 0,
    ensures
        nearest(code, x, y),
        rounded(x, y) == code,
{
    let m = magnitude(code);
    if code > 0 {
        lemma_magnitude_step(code - 1);
        let l = magnitude(code - 1);
        assert(2 * x > y * (l + m)) by (nonlinear_arith)
            requires
                l < m,
                x == y * m,
                y > 0,
        ;
    }
    lemma_magnitude_step(code);
    let h = magnitude(code + 1);
    assert(2 * x < y * (m + h)) by (nonlinear_arith)
        requires
            m < h,
            x == y * m,
            y > 0,
    ;
    lemma_nearest_unique(code, x, y);
}

/// How many bits a positive integer has.
proof fn lemma_leading_zeros(v: u64)
    requires
        v > 0,
    ensures
        0 <= u64_leading_zeros(v) < 64,
        pow2((63 - u64_leading_zeros(v)) as nat) <= v,
        v < pow2((64 - u64_leading_zeros(v)) as nat),
    decreases v,
{
    reveal(u64_leading_zeros);
    vstd::arithmetic::power2::lemma2_to64();
    if v == 1 {
        assert(u64_leading_zeros(0) == 64);
        assert(u64_leading_zeros(1) == 63);
    } else {
        lemma_leading_zeros(v / 2);
        vstd::std_specs::bits::axiom_u64_leading_zeros(v);
        let z = u64_leading_zeros(v);
        lemma_pow2_unfold((63 - z) as nat);
        lemma_pow2_unfold((64 - z) as nat);
    }
}

/// The number of bits of a positive integer.
pub(crate) fn bit_length(v: u64) -> (n: u32)
    requires
        v > 0,
    ensures
        1 <= n <= 64,
        pow2((n - 1) as nat) <= v < pow2(n as nat),
{
    proof {
        lemma_leading_zeros(v);
    }
    64 - v.leading_zeros()
}

/// The scale at which values are handed to [`round_scaled`]: its significands count steps of
/// 2^-(149 + SCALE), so that every exponent that occurs is an unsigned integer.
pub(crate) const SCALE: u32 = 192;

/// Comparing a value with a pattern and with the midpoint above it, by way of a truncated
/// significand: `sig = m * k + rem` in steps of `q`, where `k * q` is one step of the pattern.
proof fn lemma_truncated_bounds(
    x: int,
    y: int,
    a: int,
    q: int,
    k: int,
    s: int,
    m: int,
    rem: int,
    sig: int,
)
    requires
        y > 0,
        a > 0,
        q > 0,
        s > 0,
        q * k == s * a * y,
        sig == m * k + rem,
        0 <= rem < k,
        k % 2 == 0,
        sig * q <= x * a < (sig + 1) * q,
    ensures
        x >= y * (m * s),
        x < y * ((m + 1) * s),
        2 * rem < k ==> 2 * x < y * (m * s + (m + 1) * s),
        2 * rem > k ==> 2 * x > y * (m * s + (m + 1) * s),
        2 * rem == k ==> 2 * x >= y * (m * s + (m + 1) * s),
        2 * rem == k ==> (2 * x == y * (m * s + (m + 1) * s) <==> x * a == sig * q),
{
    let lo = y * (m * s);
    let hi = y * ((m + 1) * s);
    let mid = y * (m * s + (m + 1) * s);
    assert(lo * a == (m * k) * q) by (nonlinear_arith)
        requires
            lo == y * (m * s),
            q * k == s * a * y,
    ;
    assert(hi * a == (m * k + k) * q) by (nonlinear_arith)
        requires
            hi == y * ((m + 1) * s),
            q * k == s * a * y,
    ;
    assert(mid == lo + hi) by (nonlinear_arith)
        requires
            lo == y * (m * s),
            hi == y * ((m + 1) * s),
            mid == y * (m * s + (m + 1) * s),
    ;
    let mk = m * k;
    assert(mid * a == (2 * mk + k) * q) by (nonlinear_arith)
        requires
            mid == lo + hi,
            lo * a == mk * q,
            hi * a == (mk + k) * q,
    ;
    assert(x >= lo) by (nonlinear_arith)
        requires
            lo * a == mk * q,
            sig == mk + rem,
            rem >= 0,
            q > 0,
            a > 0,
            sig * q <= x * a,
    {
        assert(mk * q <= sig * q);
        assert(lo * a <= x * a);
    }
    assert(x < hi) by (nonlinear_arith)
        requires
            hi * a == (mk + k) * q,
            sig == mk + rem,
            rem < k,
            q > 0,
            a > 0,
            x * a < (sig + 1) * q,
    {
        assert((sig + 1) * q <= (mk + k) * q);
        assert(x * a < hi * a);
    }
    if 2 * rem < k {
        assert(2 * x < mid) by (nonlinear_arith)
            requires
                mid * a == (2 * mk + k) * q,
                sig == mk + rem,
                2 * rem + 2 <= k,
                q > 0,
                a > 0,
                x * a < (sig + 1) * q,
        {
            assert((2 * (sig + 1)) * q <= (2 * mk + k) * q);
            assert((2 * x) * a < (2 * (sig + 1)) * q);
            assert((2 * x) * a < mid * a);
        }
    }
    if 2 * rem > k {
        assert(2 * x > mid) by (nonlinear_arith)
            requires
                mid * a == (2 * mk + k) * q,
                sig == mk + rem,
                2 * rem > k,
                q > 0,
                a > 0,
                x * a >= sig * q,
        {
            assert((2 * sig) * q > (2 * mk + k) * q);
            assert((2 * x) * a >= (2 * sig) * q);
            assert((2 * x) * a > mid * a);
        }
    }
    if 2 * rem == k {
        assert(2 * sig == 2 * mk + k);
        assert(2 * x >= mid && (2 * x == mid <==> x * a == sig * q)) by (nonlinear_arith)
            requires
                mid * a == (2 * mk + k) * q,
                2 * sig == 2 * mk + k,
                q > 0,
                a > 0,
                x * a >= sig * q,
        {
            assert(mid * a == 2 * (sig * q));
            assert((2 * x) * a == 2 * (x * a));
            assert((2 * x) * a >= mid * a);
        }
    }
}

/// Rounding a truncated significand to nearest gives the nearest pattern.
proof fn lemma_round_truncated(
    x: int,
    y: int,
    e: nat,
    s: nat,
    k: nat,
    m: int,
    rem: int,
    sig: int,
    up: bool,
)
    requires
        y > 0,
        k > 0,
        e + k == s + SCALE,
        s <= 253,
        0 <= m < 0x100_0000,
        s > 0 ==> m >= 0x80_0000,
        sig == m * pow2(k) + rem,
        0 <= rem < pow2(k),
        sig * (pow2(e) * y) <= x * pow2(SCALE as nat) < (sig + 1) * (pow2(e) * y),
        up <==> (2 * rem > pow2(k) || (2 * rem == pow2(k) && (m % 2 == 1 || x * pow2(SCALE as nat)
            != sig * (pow2(e) * y)))),
    ensures
        nearest(s * 0x80_0000 + m + (if up { 1int } else { 0int }), x, y),
{
    let a = pow2(SCALE as nat) as int;
    let q = pow2(e) * y;
    let kk = pow2(k) as int;
    let ss = pow2(s) as int;
    lemma_pow2_pos(SCALE as nat);
    lemma_pow2_pos(e);
    lemma_pow2_pos(s);
    lemma_pow2_unfold(k);
    lemma_pow2_adds(e, k);
    lemma_pow2_adds(s, SCALE as nat);
    assert(q > 0 && q * kk == ss * a * y) by (nonlinear_arith)
        requires
            q == pow2(e) * y,
            pow2(e) > 0,
            y > 0,
            pow2(e) * kk == ss * a,
    ;
    lemma_truncated_bounds(x, y, a, q, kk, ss, m, rem, sig);
    let c = s * 0x80_0000 + m;
    lemma_magnitude_of_parts(s, m);
    lemma_magnitude_of_parts(s, m + 1);
    assert(c + 1 == s * 0x80_0000 + (m + 1));
    assert(c % 2 == m % 2);
    let mc = magnitude(c);
    let mc1 = magnitude(c + 1);
    assert(mc == m * ss);
    assert(mc1 == (m + 1) * ss);
    if up {
        lemma_magnitude_step(c + 1);
        let mc2 = magnitude(c + 2);
        assert(2 * x < y * (mc1 + mc2)) by (nonlinear_arith)
            requires
                x < y * mc1,
                mc1 < mc2,
                y > 0,
        ;
    } else {
        if c > 0 {
            lemma_magnitude_step(c - 1);
            let mp = magnitude(c - 1);
            assert(2 * x > y * (mp + mc)) by (nonlinear_arith)
                requires
                    x >= y * mc,
                    mp < mc,
                    y > 0,
            ;
        }
    }
}

/// Rounds a value to the nearest unsigned pattern. The value lies at `sig` steps or, where `sticky`
/// is set, strictly between `sig` and the next step; the step is 2^(e - 149 - SCALE).
pub(crate) fn round_scaled(
    sig: u64,
    e: u32,
    sticky: bool,
    Ghost(x): Ghost<int>,
    Ghost(y): Ghost<int>,
) -> (code: u32)
    requires
        0 < sig < 0x4000_0000_0000_0000,
        e <= 10000,
        y > 0,
        sig * (pow2(e as nat) * y) <= x * pow2(SCALE as nat) < (sig + 1) * (pow2(e as nat) * y),
        sticky <==> x * pow2(SCALE as nat) != sig * (pow2(e as nat) * y),
        sticky ==> sig >= 0x200_0000,
    ensures
        code == rounded(x, y),
        nearest(code as int, x, y),
        code <= INF_CODE,
{
    let len: u32 = bit_length(sig);
    let ghost q = pow2(e as nat) * y;
    let ghost a = pow2(SCALE as nat) as int;
    proof {
        vstd::arithmetic::power2::lemma2_to64();
        vstd::arithmetic::power2::lemma2_to64_rest();
        lemma_pow2_pos(e as nat);
        lemma_pow2_pos(SCALE as nat);
        assert(q > 0) by (nonlinear_arith)
            requires
                q == pow2(e as nat) * y,
                pow2(e as nat) > 0,
                y > 0,
        ;
        if len > 62 {
            if len > 63 {
                lemma_pow2_strictly_increases(62, (len - 1) as nat);
            }
            assert(false);
        }
        if sticky && len < 26 {
            if len < 25 {
                lemma_pow2_strictly_increases(len as nat, 25);
            }
            assert(false);
        }
    }
    let s: u32 = if len + e > SCALE + 24 { len + e - SCALE - 24 } else { 0 };
    if s >= 254 {
        proof {
            lemma_round_overflow(x, y, e as nat, len as nat, sig as int);
            lemma_nearest_unique(INF_CODE as int, x, y);
        }
        return INF_CODE;
    }
    if s + SCALE <= e {
        let g: u32 = e - s - SCALE;
        proof {
            lemma_pow2_adds(len as nat, g as nat);
            assert(sig * pow2(g as nat) < pow2(len as nat) * pow2(g as nat)) by (nonlinear_arith)
                requires
                    sig < pow2(len as nat),
                    pow2(g as nat) > 0,
            {
                lemma_pow2_pos(g as nat);
            }
            lemma_pow2_pos(g as nat);
            if len + g < 24 {
                lemma_pow2_strictly_increases((len + g) as nat, 24);
            }
            vstd::bits::lemma_u64_shl_is_mul(sig, g as u64);
        }
        let m: u64 = sig << (g as u64);
        proof {
            if s > 0 {
                lemma_pow2_adds((len - 1) as nat, g as nat);
                assert(sig * pow2(g as nat) >= pow2((len - 1) as nat) * pow2(g as nat))
                    by (nonlinear_arith)
                    requires
                        sig >= pow2((len - 1) as nat),
                        pow2(g as nat) > 0,
                ;
            }
            lemma_pow2_adds(g as nat, (s + SCALE) as nat);
            lemma_pow2_adds(s as nat, SCALE as nat);
            let pg = pow2(g as nat) as int;
            let ps = pow2(s as nat) as int;
            assert(pow2(e as nat) == pg * (ps * a));
            assert(x * a == sig * q);
            assert(x == y * (m * ps)) by (nonlinear_arith)
                requires
                    x * a == sig * q,
                    q == pow2(e as nat) * y,
                    pow2(e as nat) == pg * (ps * a),
                    m == sig * pg,
                    a > 0,
            {
                assert(sig * q == (sig * pg) * ps * y * a);
                assert(x * a == (y * (m * ps)) * a);
            }
            lemma_magnitude_of_parts(s as nat, m as int);
            lemma_nearest_exact(s * 0x80_0000 + m, x, y);
        }
        return s * 0x80_0000 + m as u32;
    }
    let k: u32 = s + SCALE - e;
    if k >= 63 {
        proof {
            lemma_round_underflow(x, y, e as nat, k as nat, sig as int);
            lemma_nearest_unique(0, x, y);
        }
        return 0;
    }
    let m: u64 = sig >> (k as u64);
    proof {
        vstd::bits::lemma_u64_shr_is_div(sig, k as u64);
        lemma_pow2_pos(k as nat);
        vstd::arithmetic::div_mod::lemma_fundamental_div_mod(sig as int, pow2(k as nat) as int);
        vstd::arithmetic::mul::lemma_mul_is_commutative(m as int, pow2(k as nat) as int);
        vstd::bits::lemma_u64_shl_is_mul(m, k as u64);
        vstd::bits::lemma_u64_shl_is_mul(1u64, (k - 1) as u64);
        if k - 1 < 62 {
            lemma_pow2_strictly_increases((k - 1) as nat, 62);
        }
        lemma_pow2_unfold(k as nat);
    }
    let rem: u64 = sig - (m << (k as u64));
    let half: u64 = 1u64 << ((k - 1) as u64);
    let up: bool = rem > half || (rem == half && (sticky || m % 2 == 1));
    proof {
        let kk = pow2(k as nat) as int;
        assert(rem == sig as int % kk);
        lemma_significand_range(sig as int, len as nat, k as nat, m as int, s > 0);
        lemma_round_truncated(
            x,
            y,
            e as nat,
            s as nat,
            k as nat,
            m as int,
            rem as int,
            sig as int,
            up,
        );
        lemma_nearest_unique(s * 0x80_0000 + m + (if up { 1int } else { 0int }), x, y);
    }
    let base: u32 = s * 0x80_0000 + m as u32;
    if up {
        base + 1
    } else {
        base
    }
}

/// Values beyond the largest finite number round to infinity.
proof fn lemma_round_overflow(x: int, y: int, e: nat, len: nat, sig: int)
    requires
        y > 0,
        1 <= len,
        pow2((len - 1) as nat) <= sig,
        len + e >= SCALE + 24 + 254,
        sig * (pow2(e) * y) <= x * pow2(SCALE as nat),
    ensures
        nearest(INF_CODE as int, x, y),
{
    let a = pow2(SCALE as nat) as int;
    lemma_pow2_pos(SCALE as nat);
    lemma_pow2_pos(e);
    lemma_pow2_adds((len - 1) as nat, e);
    let t: nat = 277 + SCALE as nat;
    if len - 1 + e > t {
        lemma_pow2_strictly_increases(t, (len - 1 + e) as nat);
    }
    lemma_pow2_adds(277, SCALE as nat);
    lemma_pow2_adds(23, 254);
    vstd::arithmetic::power2::lemma2_to64();
    let big = pow2(277) as int;
    let w = magnitude(INF_CODE as int);
    assert(w == 0x80_0000 * pow2(254));
    assert(w == big);
    let pe = pow2(e) as int;
    let pl = pow2((len - 1) as nat) as int;
    assert(x >= y * big) by (nonlinear_arith)
        requires
            pl <= sig,
            pe > 0,
            y > 0,
            a > 0,
            pl * pe >= big * a,
            sig * (pe * y) <= x * a,
    {
        assert(sig * pe >= pl * pe);
        assert((sig * pe) * y >= (big * a) * y);
        assert(sig * (pe * y) == (sig * pe) * y);
        assert((big * a) * y == (y * big) * a);
        assert(x * a >= (y * big) * a);
    }
    lemma_magnitude_step(INF_CODE - 1);
    let mp = magnitude(INF_CODE - 1);
    assert(2 * x > y * (mp + w)) by (nonlinear_arith)
        requires
            x >= y * w,
            mp < w,
            y > 0,
    ;
}

/// Values far below the smallest positive number round to zero.
proof fn lemma_round_underflow(x: int, y: int, e: nat, k: nat, sig: int)
    requires
        y > 0,
        k >= 63,
        e + k == SCALE,
        0 < sig < 0x4000_0000_0000_0000,
        x * pow2(SCALE as nat) < (sig + 1) * (pow2(e) * y),
    ensures
        nearest(0, x, y),
{
    let a = pow2(SCALE as nat) as int;
    lemma_pow2_pos(SCALE as nat);
    lemma_pow2_pos(e);
    lemma_pow2_adds(e, k);
    vstd::arithmetic::power2::lemma2_to64_rest();
    if k > 63 {
        lemma_pow2_strictly_increases(63, k);
    }
    let pe = pow2(e) as int;
    let pk = pow2(k) as int;
    assert(2 * x < y) by (nonlinear_arith)
        requires
            pe > 0,
            y > 0,
            a > 0,
            pe * pk == a,
            2 * (sig + 1) <= pk,
            x * a < (sig + 1) * (pe * y),
    {
        assert((2 * (sig + 1)) * (pe * y) <= pk * (pe * y));
        assert(pk * (pe * y) == y * a);
        assert((2 * x) * a < y * a);
    }
    assert(magnitude(0) == 0 && magnitude(1) == 1);
    assert(y * (0 + 1) == y) by (nonlinear_arith);
}

/// Truncation leaves a significand of at most twenty-four bits, and of exactly that many where the
/// value is not below the smallest normal number.
proof fn lemma_significand_range(sig: int, len: nat, k: nat, m: int, normal: bool)
    requires
        1 <= len,
        pow2((len - 1) as nat) <= sig < pow2(len),
        m == sig / pow2(k) as int,
        normal ==> len == k + 24,
        !normal ==> len <= k + 24,
    ensures
        0 <= m < 0x100_0000,
        normal ==> m >= 0x80_0000,
{
    vstd::arithmetic::power2::lemma2_to64();
    lemma_pow2_pos(k);
    lemma_pow2_pos((len - 1) as nat);
    let kk = pow2(k) as int;
    lemma_pow2_adds(k, 24);
    if len < k + 24 {
        lemma_pow2_strictly_increases(len, k + 24);
    }
    assert(sig < kk * 0x100_0000);
    vstd::arithmetic::div_mod::lemma_fundamental_div_mod(sig, kk);
    assert(m < 0x100_0000) by (nonlinear_arith)
        requires
            kk > 0,
            kk * m <= sig,
            sig < kk * 0x100_0000,
    ;
    assert(m >= 0) by (nonlinear_arith)
        requires
            sig == kk * m + sig % kk,
            0 <= sig % kk < kk,
            sig > 0,
            kk > 0,
    ;
    if normal {
        lemma_pow2_adds(k, 23);
        assert(sig >= kk * 0x80_0000);
        assert(m >= 0x80_0000) by (nonlinear_arith)
            requires
                sig == kk * m + sig % kk,
                0 <= sig % kk < kk,
                sig >= kk * 0x80_0000,
                kk > 0,
        ;
    }
}

} // verus!
