//! What the quality scores keep to.

use crate::float::arith::{absolute, lemma_rounded_zero};
use crate::float::convert::of_integer;
use crate::float::error::{
    exact_sum, lemma_product_error_of, lemma_quotient_error_of, lemma_rounded_below,
    lemma_sum_error_of,
};
use crate::float::laws::{
    law_plus_commutes, law_plus_zero, law_ratio_is_at_most_one, law_self_difference_is_zero,
    law_self_ratio_is_one, lemma_one, lemma_plus_negative_zero, lemma_rounded,
    lemma_rounded_monotone,
};
use crate::float::model::{lemma_magnitude_order, lemma_rank_orders, magnitude};
use crate::float::round::{lemma_nearest_exact, rounded};
use crate::float::F32;
use crate::laws::bounded::class_index;
use crate::laws::derivatives::{exact_size, lemma_sum_from_error, rounds_to};
use crate::laws::starting::{law_mean_is_sum_by_count, lemma_small_integer, mean_near};
use crate::metrics::{determination, hit_rate, hits, squared_deviations, squared_errors};
use crate::objective::{mean, NEGATIVE_ZERO, ONE, ZERO};
use vstd::arithmetic::power2::{
    lemma2_to64, lemma_pow2_adds, lemma_pow2_pos, lemma_pow2_strictly_increases,
    lemma_pow2_unfold, pow2,
};
use vstd::prelude::*;

verus! {

proof fn lemma_no_errors(y: Seq<F32>, count: nat)
    requires
        count <= y.len(),
        forall|i: int| 0 <= i < y.len() ==> (#[trigger] y[i]).finite(),
    ensures
        squared_errors(y, y, count) == (F32 { bits: ZERO }),
    decreases count,
{
    if count > 0 {
        lemma_no_errors(y, (count - 1) as nat);
        law_self_difference_is_zero(y[count - 1]);
        let zero = F32 { bits: ZERO };
        lemma_pow2_pos(149);
        lemma_rounded_zero(
            pow2(149) as int,
        );
        assert(zero.times(zero) == zero);
        assert(zero.plus(zero) == zero);
    }
}

/// Finite targets that vary are explained completely by themselves: the score is exactly one, as
/// long as the variation is a finite number.
pub proof fn law_perfect_fit_scores_one(y: Seq<F32>)
    requires
        forall|i: int| 0 <= i < y.len() ==> (#[trigger] y[i]).finite(),
        squared_deviations(y, mean(y), y.len()).finite(),
        !squared_deviations(y, mean(y), y.len()).zero(),
    ensures
        determination(y, y) == (F32 { bits: ONE }),
{
    let st = squared_deviations(y, mean(y), y.len());
    lemma_no_errors(y, y.len());
    let zero = F32 { bits: ZERO };
    lemma_magnitude_order(st.code(), 0);
    lemma_rounded_zero(magnitude(st.code()));
    let q = zero.over(st);
    assert(0 * pow2(149) == 0);
    assert(q.zero());
    let one = F32 { bits: ONE };
    lemma_plus_negative_zero(one);
    law_plus_zero(one);
    law_plus_commutes(zero, one);
}

/// Integers up to 2^64 are finite as numbers, and keep their order.
pub proof fn lemma_of_integer(a: int, b: int)
    requires
        0 <= a <= b <= 0x1_0000_0000_0000_0000,
    ensures
        of_integer(a).finite(),
        of_integer(b).finite(),
        !of_integer(a).negative(),
        !of_integer(b).negative(),
        of_integer(a).at_most(of_integer(b)),
        b > 0 ==> !of_integer(b).zero(),
{
    lemma_integer_bounds(a);
    lemma_integer_bounds(b);
    let h = pow2(149) as int;
    lemma_pow2_pos(149);
    assert(a * h <= b * h) by (nonlinear_arith)
        requires
            a <= b,
            h > 0,
    ;
    lemma_rounded_monotone(a * h, 1, b * h, 1);
    lemma_rank_orders(of_integer(a), of_integer(b));
}

proof fn lemma_integer_bounds(a: int)
    requires
        0 <= a <= 0x1_0000_0000_0000_0000,
    ensures
        of_integer(a).finite(),
        !of_integer(a).negative(),
        a > 0 ==> !of_integer(a).zero(),
        of_integer(a).code() == rounded(
            a * pow2(149),
            1,
        ),
{
    let h = pow2(149) as int;
    lemma_pow2_pos(149);
    lemma_rounded(a * h, 1);
    let top: int = 0x1_0000_0000_0000_0000;
    // The pattern of 2^64.
    let code: int = 0x5f80_0000;
    lemma2_to64();
    lemma_pow2_adds(23, 190);
    lemma_pow2_adds(64, 149);
    assert(code % 0x80_0000 == 0 && code / 0x80_0000 == 191);
    assert(magnitude(code) == top * h);
    lemma_nearest_exact(code, top * h, 1);
    assert(a * h <= top * h) by (nonlinear_arith)
        requires
            a <= top,
            h > 0,
    ;
    lemma_rounded_monotone(a * h, 1, top * h, 1);
    if a > 0 {
        lemma_one();
        lemma_nearest_exact(0x3f80_0000, h, 1);
        assert(h <= a * h) by (nonlinear_arith)
            requires
                a >= 1,
                h > 0,
        ;
        lemma_rounded_monotone(h, 1, a * h, 1);
    }
}

proof fn lemma_hits_bounded(y: Seq<F32>, pred: Seq<usize>, count: nat)
    ensures
        hits(y, pred, count) <= count,
        (forall|i: int| 0 <= i < count ==> (#[trigger] y[i]).whole() == pred[i]) ==> hits(
            y,
            pred,
            count,
        ) == count,
    decreases count,
{
    if count > 0 {
        lemma_hits_bounded(y, pred, (count - 1) as nat);
        if forall|i: int| 0 <= i < count ==> (#[trigger] y[i]).whole() == pred[i] {
            assert(y[count - 1].whole() == pred[count - 1]);
        }
    }
}

/// Accuracy lies between zero and one, and is exactly one where every label was predicted.
pub proof fn law_accuracy_is_a_fraction(y: Seq<F32>, pred: Seq<usize>)
    requires
        pred.len() >= y.len(),
        y.len() <= usize::MAX,
    ensures
        (F32 { bits: ZERO }).at_most(hit_rate(y, pred)),
        hit_rate(y, pred).at_most(F32 { bits: ONE }),
        y.len() > 0 && (forall|i: int| 0 <= i < y.len() ==> (#[trigger] y[i]).whole() == pred[i])
            ==> hit_rate(y, pred) == (F32 { bits: ONE }),
{
    let zero = F32 { bits: ZERO };
    let one = F32 { bits: ONE };
    lemma_rank_orders(zero, one);
    lemma_rank_orders(zero, zero);
    if y.len() > 0 {
        lemma_hits_bounded(y, pred, y.len());
        let c = hits(y, pred, y.len()) as int;
        let n = y.len() as int;
        lemma_of_integer(c, n);
        law_ratio_is_at_most_one(of_integer(c), of_integer(n));
        lemma_rank_orders(zero, hit_rate(y, pred));
        if c == n {
            law_self_ratio_is_one(of_integer(n));
        }
    }
}

/// Whether row `i` was predicted: the label is the predicted class as a number.
pub open spec fn matched(y: Seq<F32>, pred: Seq<usize>) -> spec_fn(int) -> bool {
    |i: int| y[i].value() == pred[i] * pow2(149)
}

/// How many of the first `n` rows were predicted.
pub open spec fn matches_in(y: Seq<F32>, pred: Seq<usize>, n: nat) -> nat {
    Seq::new(n, |i: int| i).filter(matched(y, pred)).len()
}

proof fn lemma_hits_are_matches(y: Seq<F32>, pred: Seq<usize>, n: nat)
    requires
        forall|i: int| 0 <= i < n ==> class_index(#[trigger] y[i]),
    ensures
        hits(y, pred, n) == matches_in(y, pred, n),
        hits(y, pred, n) <= n,
    decreases n,
{
    reveal(Seq::filter);
    let u = pow2(149) as int;
    lemma_pow2_pos(149);
    if n > 0 {
        let k = n - 1;
        lemma_hits_are_matches(y, pred, k as nat);
        let all = Seq::new(n, |i: int| i);
        assert(all.drop_last() =~= Seq::new(k as nat, |i: int| i));
        assert(class_index(y[k]));
        let (l, c) = (y[k].whole() as int, pred[k] as int);
        assert(l * u == c * u <==> l == c) by (nonlinear_arith)
            requires
                u > 0,
        ;
    }
}

/// Accuracy is the number of rows whose label was predicted by the number of rows, up to rounding.
pub proof fn law_accuracy_is_the_share_of_matches(y: Seq<F32>, pred: Seq<usize>)
    requires
        0 < y.len() <= 0x100_0000,
        pred.len() >= y.len(),
        forall|i: int| 0 <= i < y.len() ==> class_index(#[trigger] y[i]),
    ensures
        hit_rate(y, pred).finite(),
        hit_rate(y, pred).value() >= 0,
        0x100_0000 * absolute(
            hit_rate(y, pred).value() * y.len() - matches_in(y, pred, y.len()) * pow2(149),
        ) <= y.len() * (hit_rate(y, pred).value() + 0x80_0000),
{
    let u = pow2(149) as int;
    let n = y.len() as int;
    let c = hits(y, pred, y.len()) as int;
    lemma_pow2_pos(149);
    lemma_hits_are_matches(y, pred, y.len());
    lemma_small_integer(n);
    lemma_small_integer(c);
    let (a, b) = (of_integer(c), of_integer(n));
    assert(n * u >= u && 0 <= c * u <= n * u) by (nonlinear_arith)
        requires
            n >= 1,
            0 <= c <= n,
            u > 0,
    ;
    lemma_magnitude_order(b.code(), 0);
    lemma_pow2_strictly_increases(149, 276);
    assert((c * u) * u <= (n * u) * pow2(276)) by (nonlinear_arith)
        requires
            0 <= c * u <= n * u,
            0 < u <= pow2(276),
    {
        assert((c * u) * u <= (n * u) * u);
        assert((n * u) * u <= (n * u) * pow2(276));
    }
    lemma_quotient_error_of(a, b);
    let q = a.over(b).value();
    let v = absolute(q * n - c * u);
    assert(absolute(q * (n * u) - (c * u) * u) == v * u) by (nonlinear_arith)
        requires
            v == q * n - c * u || v == c * u - q * n,
            v >= 0,
            u > 0,
            absolute(q * (n * u) - (c * u) * u) >= 0,
            absolute(q * (n * u) - (c * u) * u) == q * (n * u) - (c * u) * u || absolute(
                q * (n * u) - (c * u) * u,
            ) == (c * u) * u - q * (n * u),
    {
        assert(q * (n * u) - (c * u) * u == (q * n - c * u) * u);
        assert(v * u >= 0);
    }
    assert(0x100_0000 * v <= n * (q + 0x80_0000)) by (nonlinear_arith)
        requires
            0x100_0000 * (v * u) <= (n * u) * (q + 0x80_0000),
            u > 0,
    {
        assert((n * u) * (q + 0x80_0000) == (n * (q + 0x80_0000)) * u);
        assert(0x100_0000 * (v * u) == (0x100_0000 * v) * u);
    }
}

/// The exact sum of the squared differences of the first `count` pairs, counted in squares of steps
/// of 2^-149.
pub open spec fn exact_squares(a: Seq<F32>, b: Seq<F32>, count: nat) -> int
    decreases count,
{
    if count == 0 {
        0
    } else {
        let x = a[count - 1].value() - b[count - 1].value();
        exact_squares(a, b, (count - 1) as nat) + x * x
    }
}

/// The exact sum of the squared differences of the first `count` numbers from `m`.
pub open spec fn exact_deviations(a: Seq<F32>, m: int, count: nat) -> int
    decreases count,
{
    if count == 0 {
        0
    } else {
        let x = a[count - 1].value() - m;
        exact_deviations(a, m, (count - 1) as nat) + x * x
    }
}

/// Whether `s` is a sum of `n` squares, up to rounding.
pub open spec fn squares_near(s: int, exact: int, n: int) -> bool {
    s >= 0 && 0xff_ffff * absolute(pow2(149) * s - exact) <= n * (14 * exact + 0x400_0000 * pow2(
        149,
    ))
}

/// One square is added to a sum of squares.
proof fn lemma_square_step(sum: F32, a: F32, b: F32, exact: int, j: int)
    requires
        sum.finite(),
        a.finite(),
        b.finite(),
        absolute(a.value() - b.value()) <= pow2(200),
        0 < j <= 0x10_0000,
        0 <= exact <= (j - 1) * pow2(400),
        squares_near(sum.value(), exact, j - 1),
    ensures
        ({
            let e = a.minus(b);
            let x = a.value() - b.value();
            let r = sum.plus(e.times(e));
            &&& r.finite()
            &&& squares_near(r.value(), exact + x * x, j)
            &&& 0 <= exact + x * x <= j * pow2(400)
        }),
{
    let u = pow2(149) as int;
    let x = a.value() - b.value();
    let e = a.minus(b);
    let sq = x * x;
    let big = pow2(400) as int;
    lemma_pow2_pos(149);
    lemma_pow2_pos(400);
    lemma_pow2_strictly_increases(200, 275);
    lemma_pow2_unfold(276);
    lemma_pow2_adds(200, 200);
    lemma_sum_error_of(a, b.negated());
    let ev = e.value();
    let (ax, d) = (absolute(x), absolute(ev - x));
    assert(0xff_ffff * d <= ax);
    assert(0 <= sq <= big && sq == ax * ax) by (nonlinear_arith)
        requires
            sq == x * x,
            ax == x || ax == -x,
            0 <= ax <= pow2(200),
            big == pow2(200) * pow2(200),
    {
        assert(ax * ax <= pow2(200) * pow2(200));
        assert((-x) * (-x) == x * x);
    }
    let ee = ev * ev;
    let gap = absolute(ee - sq);
    assert(gap <= d * (2 * ax + d)) by (nonlinear_arith)
        requires
            ee == ev * ev,
            sq == x * x,
            d == ev - x || d == x - ev,
            d >= 0,
            ax == x || ax == -x,
            ax >= 0,
            gap == ee - sq || gap == sq - ee,
    {
        let t = ev - x;
        assert(ee - sq == t * (2 * x + t));
        assert(t * (2 * x) <= d * (2 * ax) && -(d * (2 * ax)) <= t * (2 * x));
        assert(t * t == d * d);
        assert(d * (2 * ax + d) == d * (2 * ax) + d * d);
        assert(t * (2 * x + t) == t * (2 * x) + t * t);
    }
    assert(0xff_ffff * gap <= 3 * sq) by (nonlinear_arith)
        requires
            gap <= d * (2 * ax + d),
            0xff_ffff * d <= ax,
            d >= 0,
            sq == ax * ax,
            ax >= 0,
    {
        assert(d <= ax);
        assert(d * (2 * ax + d) <= d * (3 * ax));
        assert((0xff_ffff * d) * (3 * ax) <= ax * (3 * ax));
        assert(0xff_ffff * (d * (3 * ax)) == (0xff_ffff * d) * (3 * ax));
        assert(ax * (3 * ax) == 3 * sq);
    }
    assert(ee >= 0) by (nonlinear_arith)
        requires
            ee == ev * ev,
    ;
    lemma_pow2_adds(149, 276);
    lemma_pow2_strictly_increases(400, 424);
    lemma_pow2_unfold(425);
    lemma_product_error_of(e, e);
    let t = e.times(e);
    let ut = u * t.value();
    assert(u * (absolute(t.value()) + 0x80_0000) == ut + 0x80_0000 * u) by (nonlinear_arith)
        requires
            absolute(t.value()) == t.value(),
            ut == u * t.value(),
    ;
    assert(ut <= 4 * sq + u);
    assert(0xff_ffff * absolute(ut - sq) <= 8 * sq + 0x100_0000 * u);
    // The sum.
    let us = u * sum.value();
    let off = absolute(us - exact);
    let c = 14 * exact + 0x400_0000 * u;
    assert((j - 1) * c <= 0xf_ffff * c) by (nonlinear_arith)
        requires
            j - 1 <= 0xf_ffff,
            c >= 0,
    ;
    assert(off <= exact + 0x40_0000 * u);
    let v = sum.value() + t.value();
    let uv = u * v;
    assert(uv == us + ut) by (nonlinear_arith)
        requires
            uv == u * v,
            v == sum.value() + t.value(),
            us == u * sum.value(),
            ut == u * t.value(),
    ;
    let all = exact + sq;
    assert(uv <= 6 * all + 0x40_0001 * u);
    assert(all <= j * big && all <= 0x10_0000 * big) by (nonlinear_arith)
        requires
            all <= (j - 1) * big + big,
            j <= 0x10_0000,
            big > 0,
    {
        assert((j - 1) * big + big == j * big);
        assert(j * big <= 0x10_0000 * big);
    }
    lemma2_to64();
    lemma_pow2_adds(24, 400);
    lemma_pow2_strictly_increases(149, 376);
    lemma_pow2_adds(24, 376);
    assert(uv <= u * pow2(276)) by {
        assert(pow2(425) == 2 * pow2(424));
        assert(pow2(424) == 0x100_0000 * big);
        assert(u * pow2(276) == pow2(425));
        assert(big >= u);
    }
    assert(v <= pow2(276)) by (nonlinear_arith)
        requires
            u * v <= u * pow2(276),
            u > 0,
    ;
    lemma_sum_error_of(sum, t);
    let r = sum.plus(t).value();
    let w = absolute(r - v);
    assert(0xff_ffff * w <= v);
    assert(0xff_ffff * (u * w) <= uv) by (nonlinear_arith)
        requires
            0xff_ffff * w <= v,
            u > 0,
            uv == u * v,
    {
        assert(u * (0xff_ffff * w) <= u * v);
        assert(u * (0xff_ffff * w) == 0xff_ffff * (u * w));
    }
    let ur = u * r;
    assert(absolute(ur - uv) == u * w) by (nonlinear_arith)
        requires
            ur == u * r,
            uv == u * v,
            w == r - v || w == v - r,
            w >= 0,
            u > 0,
            absolute(ur - uv) == ur - uv || absolute(ur - uv) == uv - ur,
            absolute(ur - uv) >= 0,
    {
        assert(u * (r - v) == ur - uv);
        assert(u * (v - r) == uv - ur);
        assert(u * w >= 0);
    }
    assert(absolute(ur - all) <= u * w + off + absolute(ut - sq));
    let f = 14 * all + 0x400_0000 * u;
    assert((j - 1) * c <= (j - 1) * f) by (nonlinear_arith)
        requires
            j >= 1,
            c <= f,
    ;
    assert((j - 1) * f + f == j * f) by (nonlinear_arith);
}

proof fn lemma_squared_errors_near(a: Seq<F32>, b: Seq<F32>, count: nat)
    requires
        count <= 0x10_0000,
        forall|i: int|
            0 <= i < count ==> (#[trigger] a[i]).finite() && b[i].finite() && absolute(
                a[i].value() - b[i].value(),
            ) <= pow2(200),
    ensures
        squared_errors(a, b, count).finite(),
        squares_near(squared_errors(a, b, count).value(), exact_squares(a, b, count), count as int),
        0 <= exact_squares(a, b, count) <= count * pow2(400),
    decreases count,
{
    let u = pow2(149) as int;
    lemma_pow2_pos(149);
    if count == 0 {
        assert(u * 0 == 0 && 0 * (14 * 0 + 0x400_0000 * u) == 0 && 0 * pow2(400) == 0)
            by (nonlinear_arith);
    } else {
        let k = count - 1;
        lemma_squared_errors_near(a, b, k as nat);
        assert(a[k].finite());
        lemma_square_step(
            squared_errors(a, b, k as nat),
            a[k],
            b[k],
            exact_squares(a, b, k as nat),
            count as int,
        );
    }
}

proof fn lemma_squared_deviations_near(a: Seq<F32>, m: F32, count: nat)
    requires
        count <= 0x10_0000,
        m.finite(),
        forall|i: int|
            0 <= i < count ==> (#[trigger] a[i]).finite() && absolute(a[i].value() - m.value())
                <= pow2(200),
    ensures
        squared_deviations(a, m, count).finite(),
        squares_near(
            squared_deviations(a, m, count).value(),
            exact_deviations(a, m.value(), count),
            count as int,
        ),
        0 <= exact_deviations(a, m.value(), count) <= count * pow2(400),
    decreases count,
{
    let u = pow2(149) as int;
    lemma_pow2_pos(149);
    if count == 0 {
        assert(u * 0 == 0 && 0 * (14 * 0 + 0x400_0000 * u) == 0 && 0 * pow2(400) == 0)
            by (nonlinear_arith);
    } else {
        let k = count - 1;
        lemma_squared_deviations_near(a, m, k as nat);
        assert(a[k].finite());
        lemma_square_step(
            squared_deviations(a, m, k as nat),
            a[k],
            m,
            exact_deviations(a, m.value(), k as nat),
            count as int,
        );
    }
}

/// Whether a score is `1 - left / spread` up to rounding, or zero if there is no spread.
pub open spec fn explained(score: F32, left: int, spread: int) -> bool {
    &&& spread == 0 ==> score.finite() && score.value() == 0
    &&& spread > 0 && left * pow2(149) <= spread * pow2(275) ==> score.finite() && exists|q: int|
        0x100_0000 * absolute(q * spread - left * pow2(149)) <= spread * (q + 0x80_0000)
            && #[trigger] rounds_to(pow2(149) - q, score.value())
}

/// Whether these are the mean of targets, the squared errors of predictions and the squared
/// deviations from the mean, up to rounding.
pub open spec fn squares_of(
    y: Seq<F32>,
    pred: Seq<F32>,
    m: int,
    left: int,
    spread: int,
) -> bool {
    let n = y.len();
    &&& mean_near(m, exact_sum(y), exact_size(y), n as int)
    &&& squares_near(left, exact_squares(y, pred, n), n as int)
    &&& squares_near(spread, exact_deviations(y, m, n), n as int)
}

/// The coefficient of determination is one less the share of the squared errors of the predictions
/// in the squared deviations of the targets from their mean, up to rounding; without deviations it
/// is zero.
pub proof fn law_determination_compares_errors_with_deviations(y: Seq<F32>, pred: Seq<F32>)
    requires
        0 < y.len() <= 0x10_0000,
        pred.len() >= y.len(),
        forall|i: int| 0 <= i < y.len() ==> (#[trigger] y[i]).finite() && pred[i].finite(),
        forall|i: int| 0 <= i < y.len() ==> absolute(#[trigger] pred[i].value()) <= pow2(190),
        exact_size(y) <= pow2(190),
    ensures
        exists|m: int, left: int, spread: int| #[trigger]
            squares_of(y, pred, m, left, spread) && explained(determination(y, pred), left, spread),
{
    let n = y.len() as int;
    let u = pow2(149) as int;
    lemma_pow2_strictly_increases(190, 270);
    lemma_pow2_pos(149);
    lemma_pow2_pos(190);
    law_mean_is_sum_by_count(y);
    let m = mean(y);
    let size = exact_size(y);
    lemma_sum_from_error(F32 { bits: NEGATIVE_ZERO }, y);
    lemma2_to64();
    lemma_pow2_adds(10, 190);
    lemma_pow2_strictly_increases(32, 190);
    let q = m.value();
    let z = absolute(q);
    assert(z <= 4 * size + 4) by (nonlinear_arith)
        requires
            0xff_ffff * absolute(q * n - exact_sum(y)) <= n * (z + 0x80_0000 + 2 * size),
            absolute(exact_sum(y)) <= size,
            absolute(exact_sum(y)) >= exact_sum(y),
            absolute(exact_sum(y)) >= -exact_sum(y),
            absolute(q * n - exact_sum(y)) >= q * n - exact_sum(y),
            absolute(q * n - exact_sum(y)) >= exact_sum(y) - q * n,
            z == q || z == -q,
            z >= 0,
            n >= 1,
            size >= 0,
    {
        let s = exact_sum(y);
        let w = absolute(q * n - s);
        assert(z * n <= w + size) by {
            if z == q {
                assert(z * n == q * n);
            } else {
                assert(z * n == -(q * n));
            }
        }
        assert(0xff_ffff * (z * n) <= n * (z + 0x80_0000 + 2 * size) + 0xff_ffff * size);
        assert(0xff_ffff * size <= n * (0xff_ffff * size));
        assert(n * (z + 0x80_0000 + 2 * size) + n * (0xff_ffff * size) == n * (z + 0x80_0000
            + 0x100_0001 * size));
        assert(0xff_ffff * (z * n) == n * (0xff_ffff * z));
        assert(n * (0xff_ffff * z) <= n * (z + 0x80_0000 + 0x100_0001 * size));
        assert(0xff_ffff * z <= z + 0x80_0000 + 0x100_0001 * size);
    }
    assert forall|i: int| 0 <= i < y.len() implies (#[trigger] y[i]).finite() && absolute(
        y[i].value(),
    ) <= size by {
        lemma_exact_size_dominates(y, i);
    }
    assert forall|i: int| 0 <= i < y.len() implies (#[trigger] y[i]).finite() && pred[i].finite()
        && absolute(y[i].value() - pred[i].value()) <= pow2(200) by {
        assert(absolute(pred[i].value()) <= pow2(190));
        assert(absolute(y[i].value()) <= size);
        assert(pow2(200) == 1024 * pow2(190));
    }
    lemma_squared_errors_near(y, pred, y.len());
    lemma_squared_deviations_near(y, m, y.len());
    let (se, st) = (squared_errors(y, pred, y.len()), squared_deviations(y, m, y.len()));
    let (left, spread) = (se.value(), st.value());
    assert(squares_of(y, pred, q, left, spread));
    lemma_magnitude_order(st.code(), 0);
    let score = determination(y, pred);
    if spread > 0 && left * u <= spread * pow2(275) {
        let one = F32 { bits: ONE };
        lemma_one();
        lemma_pow2_unfold(276);
        assert(left * u <= spread * pow2(276)) by (nonlinear_arith)
            requires
                left * u <= spread * pow2(275),
                pow2(275) <= pow2(276),
                spread > 0,
        {
            assert(spread * pow2(275) <= spread * pow2(276));
        }
        lemma_quotient_error_of(se, st);
        lemma_magnitude_order(se.code(), 0);
        let part = se.over(st);
        let (a, b) = (magnitude(se.code()), magnitude(st.code()));
        assert(a == left && b == spread);
        lemma_rounded_below(left * u, spread, 275);
        lemma_rounded(left * u, spread);
        lemma_magnitude_order(rounded(left * u, spread), 0);
        assert(absolute(part.value()) <= pow2(275));
        lemma_pow2_strictly_increases(149, 275);
        lemma_sum_error_of(one, part.negated());
        assert(rounds_to(u - part.value(), score.value()));
    }
    assert(explained(score, left, spread));
}

/// A number is at most as large as the sizes of all.
proof fn lemma_exact_size_dominates(s: Seq<F32>, i: int)
    requires
        0 <= i < s.len(),
    ensures
        absolute(s[i].value()) <= exact_size(s),
    decreases s.len(),
{
    let rest = s.drop_last();
    lemma_exact_size_natural(rest);
    if i < rest.len() {
        lemma_exact_size_dominates(rest, i);
        assert(rest[i] == s[i]);
    }
}

proof fn lemma_exact_size_natural(s: Seq<F32>)
    ensures
        exact_size(s) >= 0,
    decreases s.len(),
{
    if s.len() > 0 {
        lemma_exact_size_natural(s.drop_last());
    }
}

} // verus!
