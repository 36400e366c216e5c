//! What the losses, the probabilities and the starting scores are, up to rounding.

use crate::float::arith::absolute;
use crate::float::error::{
    exact_sum, lemma_plus_within, lemma_product_error_of, lemma_quotient_error_of,
    lemma_sum_error_of,
};
use crate::float::laws::{law_ratio_is_at_most_one, lemma_one, lemma_ratio, ratio};
use crate::float::model::{lemma_magnitude_order, lemma_rank_orders, magnitude};
use crate::float::round::lemma_nearest_exact;
use crate::float::F32;
use crate::grid::{lemma_cell, lemma_position, lemma_row_start, row_of};
use crate::laws::probability::{
    law_logistic_is_a_probability, lemma_logistic_sign, lemma_plus_zero_value,
    lemma_sum_dominates,
};
use crate::laws::softmax::{lemma_left_over_sign, lemma_unit_bounds, unit};
use crate::objective::{curvature, logistic, sum_from, Obj, ONE, ZERO};
use vstd::arithmetic::div_mod::lemma_div_by_multiple;
use vstd::arithmetic::power2::{
    lemma2_to64, lemma2_to64_rest, lemma_pow2_pos, lemma_pow2_strictly_increases,
    lemma_pow2_unfold, pow2,
};
use vstd::prelude::*;

verus! {

/// The exact sum of the sizes of numbers.
pub open spec fn exact_size(s: Seq<F32>) -> int
    decreases s.len(),
{
    if s.len() == 0 {
        0
    } else {
        exact_size(s.drop_last()) + absolute(s.last().value())
    }
}

/// How far a sum is from the exact sum.
pub proof fn lemma_sum_from_error(start: F32, s: Seq<F32>)
    requires
        start.zero(),
        forall|i: int| 0 <= i < s.len() ==> (#[trigger] s[i]).finite(),
        s.len() <= 0x20_0000,
        exact_size(s) <= pow2(270),
    ensures
        sum_from(start, s).finite(),
        0xff_ffff * absolute(sum_from(start, s).value() - exact_sum(s)) <= 2 * s.len()
            * exact_size(s),
        absolute(exact_sum(s)) <= exact_size(s),
    decreases s.len(),
{
    lemma_pow2_pos(270);
    if s.len() > 0 {
        let rest = s.drop_last();
        let k = s.len() as int;
        let v = s.last();
        assert(v == s[k - 1]);
        assert forall|i: int| 0 <= i < rest.len() implies (#[trigger] rest[i]).finite() by {
            assert(rest[i] == s[i]);
        }
        lemma_sum_from_error(start, rest);
        let before = sum_from(start, rest);
        let (old, size) = (exact_size(rest), exact_size(s));
        let off = absolute(before.value() - exact_sum(rest));
        assert(2 * (k - 1) * old <= 0x40_0000 * old) by (nonlinear_arith)
            requires
                k <= 0x20_0000,
                old >= 0,
        ;
        assert(off <= old);
        let a = before.value() + v.value();
        assert(absolute(a) <= 2 * size);
        lemma_pow2_strictly_increases(270, 275);
        lemma_pow2_unfold(276);
        lemma_sum_error_of(before, v);
        let r = before.plus(v).value();
        assert(0xff_ffff * absolute(r - a) <= 2 * size);
        assert(2 * (k - 1) * old <= 2 * (k - 1) * size) by (nonlinear_arith)
            requires
                k > 0,
                old <= size,
        ;
        assert(2 * (k - 1) * size + 2 * size == 2 * k * size) by (nonlinear_arith);
        assert(absolute(r - exact_sum(s)) <= absolute(r - a) + off);
    }
}

proof fn lemma_natural_size(s: Seq<F32>)
    requires
        forall|i: int| 0 <= i < s.len() ==> (#[trigger] s[i]).value() >= 0,
    ensures
        exact_size(s) == exact_sum(s),
        exact_sum(s) >= 0,
        forall|i: int| 0 <= i < s.len() ==> (#[trigger] s[i]).value() <= exact_sum(s),
    decreases s.len(),
{
    if s.len() > 0 {
        let rest = s.drop_last();
        assert(s.last() == s[s.len() - 1]);
        assert forall|i: int| 0 <= i < rest.len() implies (#[trigger] rest[i]).value() >= 0 by {
            assert(rest[i] == s[i]);
        }
        lemma_natural_size(rest);
        assert forall|i: int| 0 <= i < s.len() implies (#[trigger] s[i]).value() <= exact_sum(
            s,
        ) by {
            if i < rest.len() {
                assert(rest[i] == s[i]);
            }
        }
    }
}

/// Whether `r` is the exact value `v` up to one rounding.
pub open spec fn rounds_to(v: int, r: int) -> bool {
    0x100_0000 * absolute(r - v) <= absolute(r)
}

/// Squared error: the first derivative is the score less the target, and the second is one.
pub proof fn law_squared_error_derivatives(
    raw: Seq<F32>,
    exps: Seq<F32>,
    y: Seq<F32>,
    i: int,
)
    requires
        0 <= i < y.len(),
        y[i].finite(),
        raw[i].finite(),
        absolute(raw[i].value() - y[i].value()) <= pow2(276),
    ensures
        ({
            let (g, h) = (Obj::L2.gradients(raw, exps, y), Obj::L2.hessians(exps, y));
            &&& g.len() == y.len()
            &&& h.len() == y.len()
            &&& g[i].finite()
            &&& rounds_to(raw[i].value() - y[i].value(), g[i].value())
            &&& h[i].finite()
            &&& h[i].value() == pow2(149)
        }),
{
    assert(y.len() * 1 == y.len()) by (nonlinear_arith);
    lemma_sum_error_of(raw[i], y[i].negated());
    lemma_one();
}

/// Whether `q` is `1 / (1 + e)` up to rounding.
pub open spec fn logistic_near(q: int, e: int) -> bool {
    let u = pow2(149) as int;
    0 <= q <= u && 0x100_0000 * absolute(q * (u + e) - u * u) <= 4 * (q * (u + e)) + 0x100_0000 * (u
        + e)
}

/// Whether `h` is `q * (1 - q)` up to rounding, but not below the number nearest to 1e-6.
pub open spec fn curvature_near(h: int, q: int) -> bool {
    let u = pow2(149) as int;
    let floor = ratio(1, 1_000_000).value();
    exists|m: int|
        (h == if m < floor { floor } else { m }) && #[trigger] product_near(m, q, u - q)
}

/// Whether `m` is `a * b` up to rounding.
pub open spec fn product_near(m: int, a: int, b: int) -> bool {
    let u = pow2(149) as int;
    m >= 0 && 0x100_0000 * absolute(u * m - a * b) <= 4 * (u * m) + 0x100_0000 * u
}

/// The logistic function of an exponential.
pub proof fn lemma_logistic_near(e: F32)
    requires
        e.finite(),
        !e.negative(),
        e.value() <= pow2(270),
    ensures
        logistic(e).finite(),
        unit(logistic(e)),
        logistic_near(logistic(e).value(), e.value()),
{
    let one = F32 { bits: ONE };
    let u = pow2(149) as int;
    lemma_one();
    lemma_pow2_pos(149);
    lemma_magnitude_order(e.code(), 0);
    law_logistic_is_a_probability(e);
    lemma_logistic_sign(e);
    lemma_unit_bounds(logistic(e));
    lemma_pow2_strictly_increases(149, 270);
    lemma_pow2_strictly_increases(270, 275);
    lemma_pow2_unfold(276);
    lemma_sum_error_of(one, e);
    let den = one.plus(e);
    let (d, x) = (den.value(), u + e.value());
    assert(0xff_ffff * absolute(d - x) <= x);
    lemma_magnitude_order(den.code(), 0);
    assert(u * u <= d * pow2(276)) by (nonlinear_arith)
        requires
            u <= 2 * d,
            2 * u <= pow2(276),
            u > 0,
    {
        assert(u * (2 * u) <= (2 * d) * (2 * u));
        assert(d * (2 * u) <= d * pow2(276));
    }
    lemma_quotient_error_of(one, den);
    let q = one.over(den).value();
    let w = absolute(d - x);
    assert(0xff_ffff * (q * w) <= q * x) by (nonlinear_arith)
        requires
            0xff_ffff * w <= x,
            q >= 0,
    {
        assert(q * (0xff_ffff * w) <= q * x);
        assert(q * (0xff_ffff * w) == 0xff_ffff * (q * w));
    }
    assert(absolute(q * d - q * x) <= q * w) by (nonlinear_arith)
        requires
            q >= 0,
            w == d - x || w == x - d,
            w >= 0,
            absolute(q * d - q * x) == q * d - q * x || absolute(q * d - q * x) == q * x - q * d,
    {
        assert(q * (d - x) == q * d - q * x);
        assert(q * (d - x) <= q * w);
        assert(q * (x - d) == q * x - q * d);
        assert(q * (x - d) <= q * w);
    }
    assert(d * (q + 0x80_0000) == q * d + 0x80_0000 * d) by (nonlinear_arith);
}

/// The second derivative for a probability.
pub proof fn lemma_curvature_near(p: F32)
    requires
        unit(p),
    ensures
        curvature(p).finite(),
        curvature_near(curvature(p).value(), p.value()),
{
    let one = F32 { bits: ONE };
    let u = pow2(149) as int;
    let tiny = ratio(1, 1_000_000);
    lemma_one();
    lemma_pow2_pos(149);
    lemma_pow2_strictly_increases(149, 275);
    lemma_pow2_unfold(276);
    lemma_unit_bounds(p);
    lemma2_to64_rest();
    lemma_ratio(1, 1_000_000, 106, 0x86_37bd);
    lemma_sum_error_of(one, p.negated());
    lemma_left_over_sign(p);
    let rest = one.minus(p);
    let (a, b, r) = (p.value(), u - p.value(), rest.value());
    assert(0xff_ffff * absolute(r - b) <= b);
    assert(r <= 2 * u);
    let ar = a * r;
    assert(0 <= ar <= u * (2 * u)) by (nonlinear_arith)
        requires
            ar == a * r,
            0 <= a <= u,
            0 <= r <= 2 * u,
    ;
    assert(u * (2 * u) <= u * pow2(276)) by (nonlinear_arith)
        requires
            2 * u <= pow2(276),
            u > 0,
    ;
    lemma_product_error_of(p, rest);
    let m = p.times(rest).value();
    let um = u * m;
    assert(u * (absolute(m) + 0x80_0000) == um + 0x80_0000 * u) by (nonlinear_arith)
        requires
            absolute(m) == m,
            um == u * m,
    ;
    let ab = a * b;
    let w = absolute(r - b);
    assert(absolute(ar - ab) <= a * w && 0xff_ffff * (a * w) <= ab && ab >= 0)
        by (nonlinear_arith)
        requires
            ar == a * r,
            ab == a * b,
            a >= 0,
            b >= 0,
            0xff_ffff * w <= b,
            w == r - b || w == b - r,
            w >= 0,
            absolute(ar - ab) == ar - ab || absolute(ar - ab) == ab - ar,
    {
        assert(a * (r - b) == ar - ab);
        assert(a * (b - r) == ab - ar);
        assert(a * (r - b) <= a * w);
        assert(a * (b - r) <= a * w);
        assert(a * (0xff_ffff * w) <= a * b);
        assert(a * (0xff_ffff * w) == 0xff_ffff * (a * w));
    }
    assert(product_near(m, a, u - a));
    lemma_magnitude_order(tiny.code(), 0);
}

/// Logistic loss: with `e` the exponential of minus the score and `q = 1 / (1 + e)`, the first
/// derivative is `q` less the label, and the second is `q * (1 - q)` but not below 1e-6.
pub proof fn law_logistic_derivatives(raw: Seq<F32>, exps: Seq<F32>, y: Seq<F32>, i: int)
    requires
        0 <= i < y.len(),
        y[i].finite(),
        absolute(y[i].value()) <= pow2(270),
        exps[i].finite(),
        !exps[i].negative(),
        exps[i].value() <= pow2(270),
    ensures
        ({
            let (g, h) = (Obj::Binary.gradients(raw, exps, y), Obj::Binary.hessians(exps, y));
            &&& g.len() == y.len()
            &&& h.len() == y.len()
            &&& g[i].finite()
            &&& h[i].finite()
            &&& exists|q: int| #[trigger]
                logistic_near(q, exps[i].value()) && rounds_to(q - y[i].value(), g[i].value())
                    && curvature_near(h[i].value(), q)
        }),
{
    assert(y.len() * 1 == y.len()) by (nonlinear_arith);
    let p = logistic(exps[i]);
    lemma_logistic_near(exps[i]);
    lemma_unit_bounds(p);
    lemma_curvature_near(p);
    lemma_pow2_strictly_increases(149, 270);
    lemma_pow2_strictly_increases(270, 275);
    lemma_pow2_unfold(276);
    lemma_sum_error_of(p, y[i].negated());
    assert(logistic_near(p.value(), exps[i].value()));
}

/// Whether `q` is `e / sum` up to rounding, for a sum of `k` numbers.
pub open spec fn share_near(q: int, e: int, sum: int, k: int) -> bool {
    0xff_ffff * absolute(q * sum - e * pow2(149)) <= (2 * k + 4) * (pow2(149) * sum)
}

/// The same with one rounding less.
pub open spec fn share_nearer(q: int, e: int, sum: int, k: int) -> bool {
    0xff_ffff * absolute(q * sum - e * pow2(149)) <= (2 * k + 3) * (pow2(149) * sum)
}

/// The share of a number in a sum of numbers.
pub proof fn lemma_share_near(start: F32, row: Seq<F32>, c: int)
    requires
        start.zero(),
        0 <= c < row.len() <= 0x10_0000,
        forall|j: int| 0 <= j < row.len() ==> (#[trigger] row[j]).finite() && !row[j].negative(),
        0 < exact_sum(row) <= pow2(270),
    ensures
        unit(row[c].over(sum_from(start, row))),
        share_nearer(
            row[c].over(sum_from(start, row)).value(),
            row[c].value(),
            exact_sum(row),
            row.len() as int,
        ),
        share_near(
            row[c].over(sum_from(start, row)).value(),
            row[c].value(),
            exact_sum(row),
            row.len() as int,
        ),
{
    let u = pow2(149) as int;
    let den = sum_from(start, row);
    let (d, s) = (den.value(), exact_sum(row));
    let k = row.len() as int;
    lemma_pow2_pos(149);
    lemma_pow2_pos(270);
    assert forall|j: int| 0 <= j < row.len() implies (#[trigger] row[j]).value() >= 0 by {
        lemma_magnitude_order(row[j].code(), 0);
    }
    lemma_natural_size(row);
    lemma_sum_from_error(start, row);
    lemma_sum_dominates(start, row);
    assert(2 * k * s <= 0x20_0000 * s) by (nonlinear_arith)
        requires
            k <= 0x10_0000,
            s >= 0,
    ;
    assert(2 * d >= s && d <= 2 * s);
    lemma_magnitude_order(den.code(), 0);
    let e = row[c].value();
    assert(row[c].at_most(den));
    law_ratio_is_at_most_one(row[c], den);
    lemma_pow2_strictly_increases(149, 276);
    assert(e * u <= d * pow2(276)) by (nonlinear_arith)
        requires
            0 <= e <= d,
            0 < u <= pow2(276),
    {
        assert(e * u <= d * u);
        assert(d * u <= d * pow2(276));
    }
    lemma_quotient_error_of(row[c], den);
    let p = row[c].over(den);
    lemma_unit_bounds(p);
    let q = p.value();
    let w = absolute(d - s);
    assert(d * (q + 0x80_0000) <= 2 * (u * s) + 0x100_0000 * s) by (nonlinear_arith)
        requires
            0 <= d <= 2 * s,
            0 <= q <= u,
    {
        assert(d * (q + 0x80_0000) <= (2 * s) * (u + 0x80_0000));
        assert((2 * s) * (u + 0x80_0000) == 2 * (u * s) + 0x100_0000 * s);
    }
    lemma2_to64();
    lemma_pow2_strictly_increases(24, 149);
    assert(0x100_0000 * s <= u * s) by (nonlinear_arith)
        requires
            0x100_0000 <= u,
            s >= 0,
    ;
    assert(0xff_ffff * (q * w) <= 2 * k * (u * s)) by (nonlinear_arith)
        requires
            0xff_ffff * w <= 2 * k * s,
            0 <= q <= u,
            w >= 0,
            k >= 0,
            s >= 0,
    {
        assert(q * (0xff_ffff * w) <= u * (0xff_ffff * w));
        assert(u * (0xff_ffff * w) <= u * (2 * k * s));
        assert(u * (2 * k * s) == 2 * k * (u * s));
        assert(q * (0xff_ffff * w) == 0xff_ffff * (q * w));
    }
    assert(absolute(q * d - q * s) <= q * w) by (nonlinear_arith)
        requires
            q >= 0,
            w == d - s || w == s - d,
            w >= 0,
            absolute(q * d - q * s) == q * d - q * s || absolute(q * d - q * s) == q * s - q * d,
    {
        assert(q * (d - s) == q * d - q * s);
        assert(q * (d - s) <= q * w);
        assert(q * (s - d) == q * s - q * d);
        assert(q * (s - d) <= q * w);
    }
    assert((2 * k + 3) * (u * s) == 2 * k * (u * s) + 3 * (u * s)) by (nonlinear_arith);
    assert((2 * k + 4) * (u * s) == (2 * k + 3) * (u * s) + u * s && u * s >= 0)
        by (nonlinear_arith)
        requires
            u >= 0,
            s >= 0,
    ;
}

/// A natural number as a label.
pub proof fn lemma_label(y: F32, l: int)
    requires
        y.finite(),
        y.value() == l * pow2(149),
        0 <= l < usize::MAX,
    ensures
        y.whole() == l,
{
    let u = pow2(149) as int;
    lemma_pow2_pos(149);
    lemma_magnitude_order(y.code(), 0);
    assert(l * u >= 0) by (nonlinear_arith)
        requires
            l >= 0,
            u > 0,
    ;
    if y.negative() {
        assert(l == 0) by (nonlinear_arith)
            requires
                l * u <= 0,
                u > 0,
                l >= 0,
        ;
    } else {
        lemma_div_by_multiple(l, u);
    }
}

/// Softmax loss: with the exponentials of a row's scores less the largest, the first derivative at
/// the class that the label names is its share in the sum of the exponentials less one, which is at
/// most zero. At every other class it is the share itself, which is at least zero. The second
/// derivative is `q * (1 - q)` for the share, but not below 1e-6.
pub proof fn law_softmax_derivatives(
    k: usize,
    raw: Seq<F32>,
    exps: Seq<F32>,
    y: Seq<F32>,
    i: int,
    l: int,
    c: int,
)
    requires
        0 <= i < y.len(),
        0 <= l < k,
        0 <= c < k <= 0x10_0000,
        y[i].finite(),
        y[i].value() == l * pow2(149),
        exps.len() == y.len() * k,
        forall|j: int| 0 <= j < k ==> (#[trigger] exps[i * k + j]).finite() && !exps[i * k + j]
            .negative(),
        0 < exact_sum(exps.subrange(i * k, i * k + k)) <= pow2(270),
    ensures
        ({
            let obj = Obj::Multiclass(k);
            let g = obj.gradients(raw, exps, y)[i * k + c];
            let h = obj.hessians(exps, y)[i * k + c];
            let sum = exact_sum(exps.subrange(i * k, i * k + k));
            let u = pow2(149) as int;
            let share = if c == l { g.value() + u } else { g.value() };
            &&& g.finite() && h.finite()
            &&& c == l ==> -u <= g.value() <= 0
            &&& c != l ==> 0 <= g.value() <= u
            &&& share_near(share, exps[i * k + c].value(), sum, k as int)
            &&& exists|q: int| #[trigger]
                share_near(q, exps[i * k + c].value(), sum, k as int) && curvature_near(
                    h.value(),
                    q,
                )
        }),
{
    let n = y.len() as int;
    let u = pow2(149) as int;
    let row = row_of(exps, i, k as int);
    let at = i * k + c;
    lemma_row_start(i, n, k as int);
    lemma_cell(i, c, n, k as int);
    lemma_position(i, c, k as int);
    lemma_label(y[i], l);
    assert forall|j: int| 0 <= j < row.len() implies (#[trigger] row[j]).finite()
        && !row[j].negative() by {
        assert(row[j] == exps[i * k + j]);
    }
    assert(row[c] == exps[at]);
    let zero = F32 { bits: ZERO };
    lemma_share_near(zero, row, c);
    let p = row[c].over(sum_from(zero, row));
    lemma_unit_bounds(p);
    lemma_curvature_near(p);
    lemma_one();
    lemma_pow2_pos(149);
    lemma_pow2_strictly_increases(149, 276);
    let s = exact_sum(row);
    assert(share_near(p.value(), row[c].value(), s, k as int));
    let hit = F32 { bits: if c == l { ONE } else { ZERO } };
    lemma_sum_error_of(p, hit.negated());
    let g = p.minus(hit).value();
    if c == l {
        lemma_plus_within(p, hit.negated(), ONE as int);
        let (q, r) = (p.value(), g + u);
        assert(0x100_0000 * absolute(r - q) <= u);
        let e = row[c].value();
        let w = absolute(r - q);
        assert(absolute(r * s - e * u) <= absolute(q * s - e * u) + w * s) by (nonlinear_arith)
            requires
                s >= 0,
                w == r - q || w == q - r,
                w >= 0,
                absolute(r * s - e * u) == r * s - e * u || absolute(r * s - e * u) == e * u - r
                    * s,
                absolute(q * s - e * u) >= q * s - e * u,
                absolute(q * s - e * u) >= e * u - q * s,
        {
            assert((r - q) * s == r * s - q * s);
            assert((r - q) * s <= w * s);
            assert((q - r) * s == q * s - r * s);
            assert((q - r) * s <= w * s);
        }
        assert(0x100_0000 * (w * s) <= u * s) by (nonlinear_arith)
            requires
                0x100_0000 * w <= u,
                s >= 0,
        {
            assert((0x100_0000 * w) * s <= u * s);
            assert((0x100_0000 * w) * s == 0x100_0000 * (w * s));
        }
        assert((2 * k + 4) * (u * s) == (2 * k + 3) * (u * s) + u * s) by (nonlinear_arith);
    } else {
        lemma_plus_zero_value(p);
        lemma_minus_zero_value(p);
    }
}

/// Taking nothing away changes no value.
proof fn lemma_minus_zero_value(a: F32)
    requires
        a.finite(),
    ensures
        a.minus(F32 { bits: ZERO }).value() == a.value(),
{
    lemma_magnitude_order(a.code(), 0);
    lemma_nearest_exact(a.code(), magnitude(a.code()), 1);
    lemma_rank_orders(a, a.minus(F32 { bits: ZERO }));
}

} // verus!
