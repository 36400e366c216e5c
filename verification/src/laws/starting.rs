//! Where training starts.

use crate::booster::task_of;
use crate::classifier::{class_loss, may_fit, top_label, ClassModel};
use crate::float::arith::{absolute, lemma_rounded_zero};
use crate::float::convert::of_integer;
use crate::float::error::{
    exact_sum, lemma_quotient_error_of, lemma_rounding_error, lemma_sum_error_of,
};
use crate::float::laws::{lemma_one, lemma_ratio, lemma_rounded, lemma_rounded_monotone, ratio};
use crate::float::model::{
    lemma_magnitude_of_parts, lemma_magnitude_order, lemma_rank_orders, magnitude, INF_CODE,
};
use crate::float::round::{lemma_nearest_exact, rounded};
use crate::float::scale::lemma_power_code;
use crate::float::F32;
use crate::function::applied;
use crate::laws::bounded::{
    class_index, lemma_odds_are_positive, lemma_share_is_positive, lemma_weight_within,
    positive,
};
use crate::laws::derivatives::{exact_size, lemma_sum_from_error, rounds_to};
use crate::laws::training::law_model_keeps_limits;
use crate::objective::{class_weight, class_weights, mean, running_sum, Obj, NEGATIVE_ZERO, ONE};
use crate::params::GbmParams;
use crate::regressor::{quiet, regression};
use vstd::arithmetic::power2::{
    lemma2_to64, lemma2_to64_rest, lemma_pow2_adds, lemma_pow2_pos,
    lemma_pow2_strictly_increases, lemma_pow2_unfold, pow2,
};
use vstd::prelude::*;

verus! {

/// A product of an integer up to 2^24 and a power of two is a number.
proof fn lemma_representable(m: int, s: nat) -> (code: int)
    requires
        0 <= m <= 0x100_0000,
        s <= 200,
    ensures
        magnitude(code) == m * pow2(s),
        0 <= code < INF_CODE,
    decreases s,
{
    if m >= 0x80_0000 {
        lemma_magnitude_of_parts(s, m);
        s * 0x80_0000 + m
    } else if s == 0 {
        lemma_magnitude_of_parts(0, m);
        m
    } else {
        lemma_pow2_unfold(s);
        let half = pow2((s - 1) as nat) as int;
        assert(m * (2 * half) == (2 * m) * half) by (nonlinear_arith);
        lemma_representable(2 * m, (s - 1) as nat)
    }
}

/// Integers up to 2^24 are exact as numbers.
pub proof fn lemma_small_integer(n: int)
    requires
        0 <= n <= 0x100_0000,
    ensures
        of_integer(n).finite(),
        !of_integer(n).negative(),
        of_integer(n).value() == n * pow2(149),
{
    let code = lemma_representable(n, 149);
    lemma_nearest_exact(code, n * pow2(149), 1);
}

/// Sums of integers up to 2^24 are exact.
proof fn lemma_small_sum(a: F32, b: F32, x: int, y: int)
    requires
        a.finite(),
        b.finite(),
        a.value() == x * pow2(149),
        b.value() == y * pow2(149),
        0 <= x,
        0 <= y,
        x + y <= 0x100_0000,
    ensures
        a.plus(b).finite(),
        a.plus(b).value() == (x + y) * pow2(149),
{
    let u = pow2(149) as int;
    lemma_pow2_pos(149);
    assert(x * u + y * u == (x + y) * u) by (nonlinear_arith);
    assert((x + y) * u >= 0) by (nonlinear_arith)
        requires
            x + y >= 0,
            u > 0,
    ;
    let code = lemma_representable(x + y, 149);
    lemma_nearest_exact(code, (x + y) * u, 1);
    lemma_rounded_zero(1);
}

/// Whether `q` is the mean `sum / n` up to rounding, for numbers of size `size` in all.
pub open spec fn mean_near(q: int, sum: int, size: int, n: int) -> bool {
    0xff_ffff * absolute(q * n - sum) <= n * (absolute(q) + 0x80_0000 + 2 * size)
}

/// The mean of numbers is their exact sum by their number, up to rounding.
pub proof fn law_mean_is_sum_by_count(y: Seq<F32>)
    requires
        0 < y.len() <= 0x20_0000,
        forall|i: int| 0 <= i < y.len() ==> (#[trigger] y[i]).finite(),
        exact_size(y) <= pow2(270),
    ensures
        mean(y).finite(),
        mean_near(mean(y).value(), exact_sum(y), exact_size(y), y.len() as int),
{
    let n = y.len() as int;
    let u = pow2(149) as int;
    let start = F32 { bits: NEGATIVE_ZERO };
    let sum = running_sum(y);
    let count = of_integer(n);
    lemma_pow2_pos(149);
    lemma_small_integer(n);
    lemma_sum_from_error(start, y);
    let size = exact_size(y);
    assert(2 * n * size <= 0x40_0000 * size) by (nonlinear_arith)
        requires
            n <= 0x20_0000,
            size >= 0,
    ;
    assert(absolute(sum.value()) <= 2 * size);
    lemma_pow2_strictly_increases(270, 275);
    lemma_pow2_unfold(276);
    assert(n * u >= u) by (nonlinear_arith)
        requires
            n >= 1,
            u > 0,
    ;
    assert(absolute(sum.value()) * u <= (n * u) * pow2(276)) by (nonlinear_arith)
        requires
            absolute(sum.value()) <= pow2(276),
            n * u >= u,
            u > 0,
            absolute(sum.value()) >= 0,
    {
        assert(absolute(sum.value()) * u <= pow2(276) * u);
        assert(pow2(276) * u <= pow2(276) * (n * u));
    }
    lemma_magnitude_order(count.code(), 0);
    lemma_quotient_error_of(sum, count);
    let q = mean(y).value();
    let (z, w) = (absolute(q), absolute(q * n - sum.value()));
    assert(absolute(q * (n * u) - sum.value() * u) == w * u) by (nonlinear_arith)
        requires
            w == q * n - sum.value() || w == sum.value() - q * n,
            w >= 0,
            u > 0,
            absolute(q * (n * u) - sum.value() * u) >= 0,
            absolute(q * (n * u) - sum.value() * u) == q * (n * u) - sum.value() * u || absolute(
                q * (n * u) - sum.value() * u,
            ) == sum.value() * u - q * (n * u),
    {
        let s = sum.value();
        assert(q * (n * u) - s * u == (q * n - s) * u);
        assert(w * u >= 0);
    }
    assert(0x100_0000 * w <= n * (z + 0x80_0000)) by (nonlinear_arith)
        requires
            0x100_0000 * (w * u) <= (n * u) * (z + 0x80_0000),
            u > 0,
    {
        assert((n * u) * (z + 0x80_0000) == (n * (z + 0x80_0000)) * u);
        assert(0x100_0000 * (w * u) == (0x100_0000 * w) * u);
    }
    assert(n * (z + 0x80_0000 + 2 * size) == n * (z + 0x80_0000) + 2 * n * size)
        by (nonlinear_arith);
    assert(absolute(q * n - exact_sum(y)) <= w + absolute(sum.value() - exact_sum(y)));
}

/// A regressor starts at the mean of the targets, has one tree for each round, and adds them with
/// the given learning rate.
pub proof fn law_regression_starts_at_the_mean(
    x: Seq<F32>,
    y: Seq<F32>,
    n: nat,
    d: nat,
    p: GbmParams,
)
    requires
        x.len() == n * d,
        y.len() == n,
        n <= 0x20_0000,
        forall|i: int| 0 <= i < y.len() ==> (#[trigger] y[i]).finite(),
        exact_size(y) <= pow2(270),
    ensures
        ({
            let m = regression(x, y, n, d, p);
            &&& m.base.len() == 1
            &&& m.base[0].finite()
            &&& n > 0 ==> mean_near(m.base[0].value(), exact_sum(y), exact_size(y), n as int)
            &&& n == 0 ==> m.base[0].value() == 0
            &&& m.trees.len() == 1
            &&& m.trees[0].len() == p.n_estimators
            &&& m.rate == p.learning_rate
            &&& m.edges.len() == d
        }),
{
    if n > 0 {
        law_mean_is_sum_by_count(y);
    } else {
        lemma_small_integer(1);
        lemma_one();
        lemma_pow2_pos(149);
        assert(0 * pow2(149) == 0) by (nonlinear_arith);
        lemma_magnitude_order(of_integer(1).code(), 0);
        lemma_rounded_zero(magnitude(of_integer(1).code()));
    }
    law_model_keeps_limits(
        x,
        y,
        n,
        d,
        Obj::L2,
        p,
        seq![mean(y)],
        quiet(p.n_estimators as nat),
    );
}

/// A fitted classifier has one tree for each round and score, adds them with the given learning
/// rate, and has one score for two classes or else one for each class. It starts at the logarithms
/// that were asked for.
pub proof fn law_classifier_has_all_rounds<E: Fn(F32) -> F32, L: Fn(F32) -> F32>(
    x: Seq<F32>,
    y: Seq<F32>,
    n: nat,
    d: nat,
    p: GbmParams,
    exp: E,
    ln: L,
    m: ClassModel,
)
    requires
        x.len() == n * d,
        y.len() == n,
        top_label(y).whole() < usize::MAX,
        may_fit(x, y, n, d, p, exp, ln, m),
    ensures
        m.model.rate == p.learning_rate,
        m.model.edges.len() == d,
        m.model.trees.len() == m.model.base.len(),
        applied(ln, class_loss(y).log_inputs(y), m.model.base),
        m.model.base.len() == (if m.binary {
            1
        } else {
            m.classes
        }),
        m.binary <==> m.classes == 2,
        forall|o: int|
            0 <= o < m.model.trees.len() ==> (#[trigger] m.model.trees[o]).len() == p.n_estimators,
{
    let obj = class_loss(y);
    let task = task_of(x, y, n, d, obj, p);
    let logs = choose|logs: Seq<F32>| #[trigger]
        applied(ln, obj.log_inputs(y), logs) && task.leads_to(exp, obj.base(y, logs), m.model);
    let base = obj.base(y, logs);
    let trace = choose|trace: Seq<Seq<F32>>|
        trace.len() == p.n_estimators && #[trigger] task.traced(exp, task.start(base), trace)
            && m.model == task.model(base, trace);
    law_model_keeps_limits(x, y, n, d, obj, p, base, trace);
}

/// The value moved into a range.
pub open spec fn moved_into(v: int, low: int, high: int) -> int {
    if v < low {
        low
    } else if v > high {
        high
    } else {
        v
    }
}

/// Whether `a` is `w / (1 - w)` up to rounding.
pub open spec fn odds_near(a: int, w: int) -> bool {
    exists|r: int|
        r > 0 && #[trigger] rounds_to(pow2(149) - w, r) && 0x100_0000 * absolute(
            a * r - w * pow2(149),
        ) <= r * (a + 0x80_0000)
}

/// Whether `a` is the odds of the mean `q` of some labels, moved into the range from 1e-4 up to
/// `high`, which is one less 1e-4, all up to rounding.
pub open spec fn odds_of_mean(a: int, y: Seq<F32>, q: int, high: int) -> bool {
    let low = ratio(1, 10_000).value();
    &&& mean_near(q, exact_sum(y), exact_size(y), y.len() as int)
    &&& rounds_to(pow2(149) - low, high)
    &&& odds_near(a, moved_into(q, low, high))
}

/// For two classes, training starts at the logarithm of the odds of the mean label, which is moved
/// into the range from 1e-4 to one less 1e-4.
pub proof fn law_two_classes_start_at_the_odds(y: Seq<F32>)
    requires
        0 < y.len() <= 0x20_0000,
        forall|i: int| 0 <= i < y.len() ==> (#[trigger] y[i]).finite(),
        exact_size(y) <= pow2(270),
    ensures
        Obj::Binary.log_inputs(y).len() == 1,
        positive(Obj::Binary.log_inputs(y)[0]),
        exists|q: int, high: int| #[trigger]
            odds_of_mean(Obj::Binary.log_inputs(y)[0].value(), y, q, high),
{
    let one = F32 { bits: ONE };
    let u = pow2(149) as int;
    let low = ratio(1, 10_000);
    let high = one.minus(low);
    law_mean_is_sum_by_count(y);
    lemma_odds_are_positive(mean(y));
    lemma_one();
    lemma_pow2_pos(149);
    lemma2_to64();
    lemma2_to64_rest();
    lemma_ratio(1, 10_000, 112, 0xd1_b717);
    lemma_magnitude_order(low.code(), ONE as int);
    lemma_magnitude_order(low.code(), 0);
    lemma_pow2_strictly_increases(149, 276);
    lemma_sum_error_of(one, low.negated());
    let q = mean(y).value();
    let mu = mean(y).confined(low, high);
    let w = mu.value();
    assert(low.value() <= high.value()) by {
        lemma_clamp_range();
    }
    lemma_clamp_range();
    assert(w == moved_into(q, low.value(), high.value()));
    assert(0 < w < u);
    lemma_rank_orders(mu, one);
    lemma_sum_error_of(one, mu.negated());
    let rest = one.minus(mu);
    let r = rest.value();
    lemma_magnitude_order(rest.code(), 0);
    let a = mu.over(rest);
    // The odds are finite, so that their error is that of a division.
    let (x, z) = (magnitude(mu.code()), magnitude(rest.code()));
    lemma_magnitude_order(mu.code(), 0);
    assert(r > 0);
    assert(x == w && z == r);
    assert(w * u >= 0) by (nonlinear_arith)
        requires
            w >= 0,
            u >= 0,
    ;
    lemma_rounded(w * u, r);
    assert(a.code() == rounded(w * u, r));
    lemma_rounding_error(w * u, r);
    let v = a.value();
    assert(v * r == r * v) by (nonlinear_arith);
    assert(odds_near(v, w)) by {
        assert(rounds_to(u - w, r));
    }
    assert(Obj::Binary.log_inputs(y)[0] == a);
    assert(odds_of_mean(v, y, q, high.value()));
}

/// One ten-thousandth lies below what it leaves to one, which lies below one.
proof fn lemma_clamp_range()
    ensures
        ({
            let one = F32 { bits: ONE };
            let low = ratio(1, 10_000);
            let high = one.minus(low);
            &&& low.finite() && high.finite()
            &&& 0 < low.value() <= high.value() < pow2(149)
        }),
{
    let one = F32 { bits: ONE };
    let low = ratio(1, 10_000);
    let u = pow2(149) as int;
    lemma_one();
    lemma2_to64();
    lemma2_to64_rest();
    lemma_ratio(1, 10_000, 112, 0xd1_b717);
    lemma_magnitude_order(low.code(), 0);
    lemma_pow2_pos(148);
    lemma_pow2_unfold(149);
    lemma_pow2_strictly_increases(149, 276);
    lemma_power_code(125);
    lemma_power_code(103);
    lemma_power_code(100);
    lemma_magnitude_order(low.code(), 126 * 0x80_0000int);
    lemma_magnitude_order(104 * 0x80_0000int, low.code());
    lemma_sum_error_of(one, low.negated());
    let high = one.minus(low).value();
    let v = u - low.value();
    // One half lies between, and the gap to one is far more than the error.
    assert(2 * low.value() < u);
    lemma_pow2_adds(22, 126);
    lemma_pow2_unfold(149);
    lemma_pow2_adds(23, 126);
    assert(low.value() >= pow2(126));
    assert(pow2(149) == 0x80_0000 * pow2(126));
    assert(0xff_ffff * absolute(high - v) <= v);
    assert(high < u);
    lemma_nearest_exact(126 * 0x80_0000int, pow2(148) as int, 1);
    lemma_rounded_monotone(pow2(148) as int, 1, v, 1);
    lemma_rounded(v, 1);
    lemma_magnitude_order(126 * 0x80_0000int, one.minus(low).code());
}

/// Whether a number is a given natural number.
pub open spec fn is_natural(c: int) -> spec_fn(F32) -> bool {
    |v: F32| v.value() == c * pow2(149)
}

/// How many labels name a class.
pub open spec fn label_total(y: Seq<F32>, c: int) -> nat {
    y.filter(is_natural(c)).len()
}

/// The weight of a class is one more than the number of its labels.
proof fn lemma_weight_is_count(y: Seq<F32>, c: int, k: int)
    requires
        y.len() < 0xff_0000,
        0 <= c < k <= usize::MAX,
        forall|i: int| 0 <= i < y.len() ==> class_index(#[trigger] y[i]) && y[i].whole() < k,
    ensures
        class_weight(y, c).finite(),
        class_weight(y, c).value() == (1 + label_total(y, c)) * pow2(149),
        label_total(y, c) <= y.len(),
    decreases y.len(),
{
    let one = F32 { bits: ONE };
    let u = pow2(149) as int;
    reveal(Seq::filter);
    lemma_one();
    lemma_pow2_pos(149);
    assert(1 * u == u);
    if y.len() > 0 {
        let rest = y.drop_last();
        let last = y.last();
        assert(class_index(y[y.len() - 1]));
        assert forall|i: int| 0 <= i < rest.len() implies class_index(#[trigger] rest[i])
            && rest[i].whole() < k by {
            assert(rest[i] == y[i]);
        }
        lemma_weight_is_count(rest, c, k);
        let t = label_total(rest, c) as int;
        let l = last.whole() as int;
        assert(l * u == c * u <==> l == c) by (nonlinear_arith)
            requires
                u > 0,
        ;
        if l == c {
            lemma_small_sum(class_weight(rest, c), one, 1 + t, 1);
        }
    }
}

/// The sum of integers.
spec fn sum_of_counts(y: Seq<F32>, k: nat) -> int
    decreases k,
{
    if k == 0 {
        0
    } else {
        sum_of_counts(y, (k - 1) as nat) + 1 + label_total(y, k - 1)
    }
}

/// One more label is one more in the sum, if its class is among them.
proof fn lemma_one_more(y: Seq<F32>, k: nat, l: int)
    requires
        y.len() > 0,
        y.last().value() == l * pow2(149),
        0 <= l,
    ensures
        sum_of_counts(y, k) == sum_of_counts(y.drop_last(), k) + (if l < k {
            1int
        } else {
            0int
        }),
    decreases k,
{
    let u = pow2(149) as int;
    lemma_pow2_pos(149);
    reveal(Seq::filter);
    if k > 0 {
        let c = k - 1;
        lemma_one_more(y, c as nat, l);
        assert(l * u == c * u <==> l == c) by (nonlinear_arith)
            requires
                u > 0,
        ;
    }
}

proof fn lemma_no_labels(k: nat)
    ensures
        sum_of_counts(Seq::empty(), k) == k,
    decreases k,
{
    reveal(Seq::filter);
    if k > 0 {
        lemma_no_labels((k - 1) as nat);
    }
}

proof fn lemma_all_counted(y: Seq<F32>, k: nat)
    requires
        forall|i: int| 0 <= i < y.len() ==> class_index(#[trigger] y[i]) && y[i].whole() < k,
    ensures
        sum_of_counts(y, k) == k + y.len(),
    decreases y.len(),
{
    if y.len() == 0 {
        assert(y =~= Seq::empty());
        lemma_no_labels(k);
    } else {
        let rest = y.drop_last();
        assert(class_index(y[y.len() - 1]));
        assert forall|i: int| 0 <= i < rest.len() implies class_index(#[trigger] rest[i])
            && rest[i].whole() < k by {
            assert(rest[i] == y[i]);
        }
        lemma_all_counted(rest, k);
        lemma_one_more(y, k, y.last().whole() as int);
    }
}

proof fn lemma_weights_sum(y: Seq<F32>, k: nat, j: nat)
    requires
        y.len() + k < 0xff_0000,
        k <= usize::MAX,
        j <= k,
        forall|i: int| 0 <= i < y.len() ==> class_index(#[trigger] y[i]) && y[i].whole() < k,
    ensures
        running_sum(class_weights(y, k).take(j as int)).finite(),
        running_sum(class_weights(y, k).take(j as int)).value() == sum_of_counts(y, j) * pow2(149),
        0 <= sum_of_counts(y, j) <= sum_of_counts(y, k),
    decreases j,
{
    let w = class_weights(y, k);
    let u = pow2(149) as int;
    lemma_counts_grow(y, j, k);
    if j > 0 {
        let i = (j - 1) as nat;
        lemma_weights_sum(y, k, i);
        assert(w.take(j as int).drop_last() =~= w.take(i as int));
        lemma_weight_is_count(y, i as int, k as int);
        lemma_all_counted(y, k);
        lemma_small_sum(
            running_sum(w.take(i as int)),
            w[i as int],
            sum_of_counts(y, i),
            1int + label_total(y, i as int),
        );
    } else {
        assert(0 * u == 0) by (nonlinear_arith);
    }
}

proof fn lemma_counts_grow(y: Seq<F32>, j: nat, k: nat)
    requires
        j <= k,
    ensures
        0 <= sum_of_counts(y, j) <= sum_of_counts(y, k),
    decreases k,
{
    if j < k {
        lemma_counts_grow(y, j, (k - 1) as nat);
    } else if j > 0 {
        lemma_counts_grow(y, (j - 1) as nat, (j - 1) as nat);
    }
}

/// For several classes, training starts for each class at the logarithm of its smoothed share: one
/// more than the number of its labels, by the number of labels and classes, up to rounding.
pub proof fn law_several_classes_start_at_their_shares(y: Seq<F32>, k: usize, c: int)
    requires
        0 <= c < k,
        y.len() + k < 0xff_0000,
        forall|i: int| 0 <= i < y.len() ==> class_index(#[trigger] y[i]) && y[i].whole() < k,
    ensures
        ({
            let a = Obj::Multiclass(k).log_inputs(y);
            let n = y.len() + k;
            &&& a.len() == k
            &&& a[c].finite()
            &&& a[c].value() > 0
            &&& 0x100_0000 * absolute(a[c].value() * n - (1 + label_total(y, c)) * pow2(149)) <= n
                * (a[c].value() + 0x80_0000)
        }),
{
    let w = class_weights(y, k as nat);
    let u = pow2(149) as int;
    let n = y.len() + k;
    let t = 1 + label_total(y, c);
    lemma_pow2_pos(149);
    assert(w.take(k as int) =~= w);
    lemma_weights_sum(y, k as nat, k as nat);
    lemma_all_counted(y, k as nat);
    lemma_weight_is_count(y, c, k as int);
    let den = running_sum(w);
    assert(den.value() == n * u);
    assert(n * u >= t * u && t * u >= u && n * u > 0) by (nonlinear_arith)
        requires
            n >= t,
            t >= 1,
            u > 0,
    ;
    lemma_magnitude_order(den.code(), 0);
    lemma_magnitude_order(w[c].code(), 0);
    lemma_pow2_strictly_increases(149, 276);
    assert((t * u) * u <= (n * u) * pow2(276)) by (nonlinear_arith)
        requires
            0 <= t * u <= n * u,
            0 < u <= pow2(276),
    {
        assert((t * u) * u <= (n * u) * u);
        assert((n * u) * u <= (n * u) * pow2(276));
    }
    lemma_quotient_error_of(w[c], den);
    let a = w[c].over(den);
    let q = a.value();
    let v = absolute(q * n - t * u);
    assert(absolute(q * (n * u) - (t * u) * u) == v * u) by (nonlinear_arith)
        requires
            v == q * n - t * u || v == t * u - q * n,
            v >= 0,
            u > 0,
            absolute(q * (n * u) - (t * u) * u) >= 0,
            absolute(q * (n * u) - (t * u) * u) == q * (n * u) - (t * u) * u || absolute(
                q * (n * u) - (t * u) * u,
            ) == (t * u) * u - q * (n * u),
    {
        assert(q * (n * u) - (t * u) * u == (q * n - t * u) * u);
        assert(v * u >= 0);
    }
    assert(0x100_0000 * v <= n * (q + 0x80_0000)) by (nonlinear_arith)
        requires
            0x100_0000 * (v * u) <= (n * u) * (q + 0x80_0000),
            u > 0,
    {
        assert((n * u) * (q + 0x80_0000) == (n * (q + 0x80_0000)) * u);
        assert(0x100_0000 * (v * u) == (0x100_0000 * v) * u);
    }
    lemma_pow2_strictly_increases(173, 197);
    lemma_weight_within(y, c);
    lemma2_to64();
    lemma_pow2_adds(24, 149);
    assert(n * u <= 0x100_0000 * u) by (nonlinear_arith)
        requires
            n <= 0x100_0000,
            u > 0,
    ;
    lemma_share_is_positive(w[c], den);
    lemma_magnitude_order(a.code(), 0);
}

} // verus!
