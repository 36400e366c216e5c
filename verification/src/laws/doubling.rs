//! Doubled targets give doubled predictions.

use crate::booster::{boosted, lemma_task_sound, task_of, Progress, Task};
use crate::float::arith::{absolute, lemma_rounded_zero};
use crate::float::convert::of_integer;
use crate::float::error::{lemma_plus_settles, lemma_sum_error_of, within};
use crate::float::laws::{lemma_ratio, ratio};
use crate::float::model::{lemma_magnitude_order, magnitude};
use crate::float::scale::{
    doubled, lemma_product_doubles, lemma_quotient_doubles, lemma_quotient_quadruples,
    lemma_roomy, lemma_square_quadruples, lemma_sum_doubles, lemma_sum_quadruples, quadrupled,
    roomy,
};
use crate::float::F32;
use crate::grid::row_of;
use crate::laws::derivatives::{exact_size, lemma_sum_from_error};
use crate::laws::starting::lemma_small_integer;
use crate::laws::sums::{
    finite_at, in_bin, lemma_bin_total, lemma_filter_part, lemma_left_error, lemma_sum_size,
    lemma_total_error, on_side, rows_in, rows_of, size_at,
};
use crate::objective::{mean, running_sum, Obj, NEGATIVE_ZERO};
use crate::params::GbmParams;
use crate::regressor::{quiet, regression};
use crate::rng::sample;
use crate::split::{lemma_best_is_candidate, total, Samples};
use crate::tree::Shape;
use vstd::arithmetic::power2::{
    lemma2_to64, lemma2_to64_rest, lemma_pow2_adds, lemma_pow2_pos,
    lemma_pow2_strictly_increases, lemma_pow2_unfold, pow2,
};
use vstd::prelude::*;

verus! {

/// Whether the values of some rows are doubled.
spec fn doubled_at(a: Seq<F32>, b: Seq<F32>, idx: Seq<usize>) -> bool {
    forall|k: int|
        0 <= k < idx.len() ==> doubled(a[(#[trigger] idx[k]) as int], b[idx[k] as int])
}

/// Whether trees are grown on the same rows with doubled first derivatives.
spec fn doubled_samples(s: Samples, t: Samples) -> bool {
    &&& t == (Samples { grad: t.grad, ..s })
    &&& t.grad.len() == s.grad.len()
    &&& forall|i: int| 0 <= i < s.grad.len() ==> doubled(#[trigger] s.grad[i], t.grad[i])
}

proof fn lemma_total_doubles(a: Seq<F32>, b: Seq<F32>, idx: Seq<usize>)
    requires
        finite_at(a, idx),
        doubled_at(a, b, idx),
        idx.len() <= 0x20_0000,
        size_at(a, idx) <= pow2(190),
    ensures
        doubled(total(a, idx), total(b, idx)),
    decreases idx.len(),
{
    if idx.len() > 0 {
        let rest = idx.drop_last();
        assert forall|k: int| 0 <= k < rest.len() implies (#[trigger] rest[k]) < a.len()
            && a[rest[k] as int].finite() && doubled(a[rest[k] as int], b[rest[k] as int]) by {
            assert(rest[k] == idx[k]);
        }
        assert(idx.last() == idx[idx.len() - 1]);
        lemma_total_doubles(a, b, rest);
        lemma_pow2_strictly_increases(190, 270);
        lemma_total_bound(a, rest);
        lemma_pow2_adds(10, 190);
        lemma2_to64();
        lemma_pow2_strictly_increases(200, 275);
        let i = idx.last() as int;
        lemma_sum_doubles(total(a, rest), a[i], total(b, rest), b[i]);
    }
}

proof fn lemma_total_bound(a: Seq<F32>, idx: Seq<usize>)
    requires
        finite_at(a, idx),
        idx.len() <= 0x20_0000,
        size_at(a, idx) <= pow2(190),
    ensures
        total(a, idx).finite(),
        absolute(total(a, idx).value()) <= 2 * size_at(a, idx),
        size_at(a, idx) >= 0,
{
    let (k, size) = (idx.len() as int, size_at(a, idx));
    lemma_pow2_strictly_increases(190, 270);
    lemma_total_error(a, idx);
    lemma_sum_size(a, idx);
    assert(2 * k * size <= 0x40_0000 * size) by (nonlinear_arith)
        requires
            k <= 0x20_0000,
            size >= 0,
    ;
}

proof fn lemma_left_doubles(s: Samples, t: Samples, idx: Seq<usize>, f: int, b: int)
    requires
        doubled_samples(s, t),
        finite_at(s.grad, idx),
        idx.len() <= 0x10_0000,
        size_at(s.grad, idx) <= pow2(190),
        -1 <= b <= 255,
    ensures
        doubled(s.left_total(s.grad, idx, f, b), t.left_total(t.grad, idx, f, b)),
        s.left_total(s.hess, idx, f, b) == t.left_total(t.hess, idx, f, b),
        absolute(s.left_total(s.grad, idx, f, b).value()) <= 4 * size_at(s.grad, idx),
    decreases b + 1,
{
    let k = idx.len() as int;
    let size = size_at(s.grad, idx);
    lemma_pow2_pos(190);
    lemma_pow2_strictly_increases(190, 270);
    lemma_sum_size(s.grad, idx);
    lemma_left_error(s, s.grad, idx, f, b);
    lemma_filter_part(s.grad, idx, on_side(s, f, b, true));
    let l = rows_of(s, idx, f, b, true);
    lemma_sum_size(s.grad, l);
    let z = size_at(s.grad, l);
    assert(2 * k * z <= 0x20_0000 * size) by (nonlinear_arith)
        requires
            0 <= k <= 0x10_0000,
            0 <= z <= size,
    ;
    assert(4 * (b + 1) * size <= 1024 * size) by (nonlinear_arith)
        requires
            b <= 255,
            size >= 0,
    ;
    if b >= 0 {
        lemma_left_doubles(s, t, idx, f, b - 1);
        lemma_same_hess_bins(s, t, idx, f, b);
        let n = rows_in(s, idx, f, b);
        lemma_bin_total(s, s.grad, idx, f, b);
        lemma_bin_total(t, t.grad, idx, f, b);
        assert(rows_in(t, idx, f, b) == n) by {
            lemma_same_filter(idx, in_bin(s, f, b), in_bin(t, f, b));
        }
        lemma_filter_part(s.grad, idx, in_bin(s, f, b));
        assert(doubled_at(s.grad, t.grad, n)) by {
            assert forall|k: int| 0 <= k < n.len() implies doubled(
                s.grad[(#[trigger] n[k]) as int],
                t.grad[n[k] as int],
            ) by {
                assert(n[k] < s.grad.len());
            }
        }
        lemma_total_doubles(s.grad, t.grad, n);
        lemma_total_bound(s.grad, n);
        lemma_pow2_adds(10, 190);
        lemma2_to64();
        lemma_pow2_strictly_increases(200, 275);
        lemma_sum_doubles(
            s.left_total(s.grad, idx, f, b - 1),
            s.bin_total(s.grad, idx, f, b),
            t.left_total(t.grad, idx, f, b - 1),
            t.bin_total(t.grad, idx, f, b),
        );
    }
}

proof fn lemma_same_filter(
    idx: Seq<usize>,
    p: spec_fn(usize) -> bool,
    q: spec_fn(usize) -> bool,
)
    requires
        forall|i: usize| #[trigger] p(i) == q(i),
    ensures
        idx.filter(p) == idx.filter(q),
    decreases idx.len(),
{
    reveal(Seq::filter);
    if idx.len() > 0 {
        lemma_same_filter(idx.drop_last(), p, q);
        assert(p(idx.last()) == q(idx.last()));
    }
}

proof fn lemma_same_hess_bins(s: Samples, t: Samples, idx: Seq<usize>, f: int, b: int)
    requires
        doubled_samples(s, t),
    ensures
        s.bin_total(s.hess, idx, f, b) == t.bin_total(t.hess, idx, f, b),
    decreases idx.len(),
{
    if idx.len() > 0 {
        lemma_same_hess_bins(s, t, idx.drop_last(), f, b);
    }
}

proof fn lemma_same_parts(s: Samples, t: Samples, idx: Seq<usize>, f: int, b: int, left: bool)
    requires
        doubled_samples(s, t),
    ensures
        s.side(idx, f, b, left) == t.side(idx, f, b, left),
    decreases idx.len(),
{
    if idx.len() > 0 {
        lemma_same_parts(s, t, idx.drop_last(), f, b, left);
    }
}

/// Whether the score of sums is far from the ends of the range of numbers.
pub open spec fn scored_clearly(s: Samples, g: F32, h: F32) -> bool {
    let den = h.plus(s.lambda);
    &&& g.finite()
    &&& den.finite()
    &&& !den.zero()
    &&& g.value() == 0 || (roomy(g.times(g)) && roomy(g.times(g).over(den)))
}

/// Whether a split is scored far from the ends of the range of numbers, and its gain is more than
/// 1e-6 or at most a quarter of that.
pub open spec fn split_clearly(s: Samples, idx: Seq<usize>, f: int, b: int) -> bool {
    let (g, h) = (total(s.grad, idx), total(s.hess, idx));
    let (gl, hl) = (s.left_total(s.grad, idx, f, b), s.left_total(s.hess, idx, f, b));
    let least = ratio(1, 1_000_000);
    &&& scored_clearly(s, g, h)
    &&& scored_clearly(s, gl, hl)
    &&& scored_clearly(s, g.minus(gl), h.minus(hl))
    &&& least.below(s.gain(idx, f, b)) || 4 * s.gain(idx, f, b).value() <= least.value()
}

/// Whether a leaf is far from the ends of the range of numbers, and so is what it adds.
pub open spec fn leaf_clearly(s: Samples, rate: F32, idx: Seq<usize>) -> bool {
    let den = total(s.hess, idx).plus(s.lambda);
    let v = total(s.grad, idx).negated().over(den);
    &&& den.finite()
    &&& !den.zero()
    &&& rate.finite()
    &&& total(s.grad, idx).value() == 0 || (roomy(v) && roomy(rate.times(v)))
    &&& within(rate.times(v), pow2(226) as int)
}

/// Whether a tree is grown far from the ends of the range of numbers.
pub open spec fn grown_clearly(s: Samples, rate: F32, idx: Seq<usize>, depth: nat) -> bool
    decreases s.max_depth - depth,
{
    &&& idx.len() <= 0x10_0000
    &&& finite_at(s.grad, idx)
    &&& size_at(s.grad, idx) <= pow2(190)
    &&& leaf_clearly(s, rate, idx)
    &&& depth >= s.max_depth || idx.len() < 2 * s.min_leaf || {
        &&& forall|f: int, b: int|
            0 <= f < s.d && 0 <= b < s.bins[f] - 1 && s.eligible(idx, f, b) ==> #[trigger]
                split_clearly(s, idx, f, b)
        &&& match s.best_split(idx) {
            None => true,
            Some((f, b)) => {
                &&& grown_clearly(s, rate, s.side(idx, f as int, b as int, true), depth + 1)
                &&& grown_clearly(s, rate, s.side(idx, f as int, b as int, false), depth + 1)
            },
        }
    }
}

proof fn lemma_score_quadruples(s: Samples, t: Samples, g: F32, k: F32, h: F32)
    requires
        doubled_samples(s, t),
        doubled(g, k),
        scored_clearly(s, g, h),
    ensures
        quadrupled(s.score(g, h), t.score(k, h)),
        within(s.score(g, h), pow2(266) as int),
{
    let den = h.plus(s.lambda);
    lemma_square_quadruples(g, k);
    let sq = g.times(g);
    if g.value() == 0 {
        lemma_pow2_pos(149);
        lemma_pow2_pos(266);
        lemma_magnitude_order(g.code(), 0);
        assert(0int * 0int == 0) by (nonlinear_arith);
        lemma_rounded_zero(pow2(149) as int);
        assert(sq.value() == 0);
        lemma_magnitude_order(sq.code(), 0);
        lemma_magnitude_order(den.code(), 0);
        assert(0 * pow2(149) == 0) by (nonlinear_arith);
        lemma_rounded_zero(magnitude(den.code()));
        assert(sq.over(den).value() == 0);
        lemma_quotient_quadruples(sq, k.times(k), den);
    } else {
        lemma_roomy(sq.over(den));
        lemma_quotient_quadruples(sq, k.times(k), den);
    }
}

proof fn lemma_gain_quadruples(s: Samples, t: Samples, idx: Seq<usize>, f: int, b: int)
    requires
        doubled_samples(s, t),
        finite_at(s.grad, idx),
        idx.len() <= 0x10_0000,
        size_at(s.grad, idx) <= pow2(190),
        0 <= b <= 255,
        split_clearly(s, idx, f, b),
    ensures
        quadrupled(s.gain(idx, f, b), t.gain(idx, f, b)),
{
    let (g, h) = (total(s.grad, idx), total(s.hess, idx));
    let (gl, hl) = (s.left_total(s.grad, idx, f, b), s.left_total(s.hess, idx, f, b));
    let (k, kl) = (total(t.grad, idx), t.left_total(t.grad, idx, f, b));
    assert(doubled_at(s.grad, t.grad, idx)) by {
        assert forall|j: int| 0 <= j < idx.len() implies doubled(
            s.grad[(#[trigger] idx[j]) as int],
            t.grad[idx[j] as int],
        ) by {
            assert(idx[j] < s.grad.len());
        }
    }
    lemma_total_doubles(s.grad, t.grad, idx);
    lemma_total_bound(s.grad, idx);
    lemma_left_doubles(s, t, idx, f, b);
    lemma_pow2_adds(10, 190);
    lemma2_to64();
    lemma_pow2_strictly_increases(200, 275);
    lemma_sum_doubles(g, gl.negated(), k, kl.negated());
    let (gr, hr, kr) = (g.minus(gl), h.minus(hl), k.minus(kl));
    lemma_score_quadruples(s, t, g, k, h);
    lemma_score_quadruples(s, t, gl, kl, hl);
    lemma_score_quadruples(s, t, gr, kr, hr);
    let (a, c, w) = (s.score(gl, hl), s.score(gr, hr), s.score(g, h));
    let (x, y, z) = (t.score(kl, hl), t.score(kr, hr), t.score(k, h));
    lemma_pow2_adds(8, 266);
    lemma_pow2_unfold(275);
    lemma_pow2_unfold(276);
    lemma_sum_error_of(a, c);
    lemma_sum_quadruples(a, c, x, y);
    assert(absolute(a.plus(c).value()) <= 4 * pow2(266));
    lemma_sum_quadruples(a.plus(c), w.negated(), x.plus(y), z.negated());
}

proof fn lemma_best_quadruples(
    s: Samples,
    t: Samples,
    rate: F32,
    idx: Seq<usize>,
    depth: nat,
    f: nat,
    b: nat,
)
    requires
        doubled_samples(s, t),
        grown_clearly(s, rate, idx, depth),
        depth < s.max_depth,
        idx.len() >= 2 * s.min_leaf,
        f <= s.d,
        s.bins.len() == s.d,
        forall|g: int| 0 <= g < s.d ==> 1 <= #[trigger] s.bins[g] <= 256,
        f < s.d ==> b <= s.bins[f as int] - 1,
        f == s.d ==> b == 0,
    ensures
        match (s.best_before(idx, f, b), t.best_before(idx, f, b)) {
            (None, None) => true,
            (Some(c), Some(e)) => c.feature == e.feature && c.threshold == e.threshold
                && quadrupled(c.gain, e.gain),
            _ => false,
        },
    decreases f, b,
{
    if b > 0 {
        let c = b - 1;
        lemma_best_quadruples(s, t, rate, idx, depth, f, c as nat);
        lemma_same_parts(s, t, idx, f as int, c, true);
        lemma_same_parts(s, t, idx, f as int, c, false);
        if s.eligible(idx, f as int, c) {
            assert(split_clearly(s, idx, f as int, c));
            lemma_gain_quadruples(s, t, idx, f as int, c);
        }
    } else if f > 0 {
        assert(1 <= s.bins[f - 1] <= 256);
        lemma_best_quadruples(
            s,
            t,
            rate,
            idx,
            depth,
            (f - 1) as nat,
            (s.bins[f - 1] - 1) as nat,
        );
    }
}

/// Whether two trees split alike, the leaves of the second are twice those of the first, and what
/// the leaves add is far from the ends of the range of numbers.
spec fn doubled_tree(a: Shape, b: Shape, rate: F32) -> bool
    decreases a,
{
    match (a, b) {
        (Shape::Leaf { value: v }, Shape::Leaf { value: w }) => doubled(v, w) && doubled(
            rate.times(v),
            rate.times(w),
        ) && within(rate.times(v), pow2(226) as int),
        (
            Shape::Split { feature: f, threshold: s, left: l, right: r, .. },
            Shape::Split { feature: g, threshold: t, left: m, right: q, .. },
        ) => f == g && s == t && doubled_tree(*l, *m, rate) && doubled_tree(*r, *q, rate),
        _ => false,
    }
}

proof fn lemma_doubled_eval(a: Shape, b: Shape, rate: F32, row: Seq<u8>)
    requires
        doubled_tree(a, b, rate),
    ensures
        doubled(rate.times(a.eval(row)), rate.times(b.eval(row))),
        within(rate.times(a.eval(row)), pow2(226) as int),
    decreases a,
{
    match (a, b) {
        (
            Shape::Split { left: l, right: r, .. },
            Shape::Split { left: m, right: q, .. },
        ) => {
            lemma_doubled_eval(*l, *m, rate, row);
            lemma_doubled_eval(*r, *q, rate, row);
        },
        _ => {},
    }
}

proof fn lemma_leaf_doubles(s: Samples, t: Samples, rate: F32, idx: Seq<usize>)
    requires
        doubled_samples(s, t),
        finite_at(s.grad, idx),
        idx.len() <= 0x10_0000,
        size_at(s.grad, idx) <= pow2(190),
        leaf_clearly(s, rate, idx),
    ensures
        doubled(s.leaf_value(idx), t.leaf_value(idx)),
        doubled(rate.times(s.leaf_value(idx)), rate.times(t.leaf_value(idx))),
{
    assert(doubled_at(s.grad, t.grad, idx)) by {
        assert forall|j: int| 0 <= j < idx.len() implies doubled(
            s.grad[(#[trigger] idx[j]) as int],
            t.grad[idx[j] as int],
        ) by {
            assert(idx[j] < s.grad.len());
        }
    }
    lemma_total_doubles(s.grad, t.grad, idx);
    let (g, k) = (total(s.grad, idx), total(t.grad, idx));
    let den = total(s.hess, idx).plus(s.lambda);
    lemma_quotient_doubles(g.negated(), k.negated(), den);
    let (v, w) = (s.leaf_value(idx), t.leaf_value(idx));
    if g.value() == 0 {
        lemma_magnitude_order(g.code(), 0);
        lemma_magnitude_order(den.code(), 0);
        lemma_pow2_pos(149);
        assert(0 * pow2(149) == 0) by (nonlinear_arith);
        lemma_rounded_zero(magnitude(den.code()));
        assert(v.value() == 0);
    }
    lemma_product_doubles(rate, v, w);
}

proof fn lemma_grown_doubles(s: Samples, t: Samples, rate: F32, idx: Seq<usize>, depth: nat)
    requires
        doubled_samples(s, t),
        grown_clearly(s, rate, idx, depth),
        s.bins.len() == s.d,
        forall|g: int| 0 <= g < s.d ==> 1 <= #[trigger] s.bins[g] <= 256,
    ensures
        doubled_tree(s.grown(idx, depth), t.grown(idx, depth), rate),
    decreases s.max_depth - depth,
{
    let least = ratio(1, 1_000_000);
    lemma_leaf_doubles(s, t, rate, idx);
    if depth >= s.max_depth || idx.len() < 2 * s.min_leaf {
    } else {
        lemma_best_quadruples(s, t, rate, idx, depth, s.d, 0);
        lemma_best_is_candidate(s, idx, s.d, 0);
        match s.best_before(idx, s.d, 0) {
            None => {},
            Some(c) => {
                let (f, b) = (c.feature as int, c.threshold as int);
                assert(split_clearly(s, idx, f, b));
                lemma2_to64_rest();
                lemma_ratio(1, 1_000_000, 106, 0x86_37bd);
                lemma_magnitude_order(least.code(), 0);
                assert(s.best_split(idx) is Some <==> t.best_split(idx) is Some);
                if s.best_split(idx) is Some {
                    lemma_same_parts(s, t, idx, f, b, true);
                    lemma_same_parts(s, t, idx, f, b, false);
                    lemma_grown_doubles(s, t, rate, s.side(idx, f, b, true), depth + 1);
                    lemma_grown_doubles(s, t, rate, s.side(idx, f, b, false), depth + 1);
                }
            },
        }
    }
}

/// Whether a round of squared error stays far from the ends of the range of numbers.
pub open spec fn round_clearly(task: Task, st: Progress) -> bool {
    &&& forall|i: int|
        0 <= i < task.n ==> within(#[trigger] task.y[i], pow2(250) as int)
    &&& grown_clearly(
        task.samples(
            task.obj.gradients(st.raw, Seq::empty(), task.y),
            task.obj.hessians(Seq::empty(), task.y),
            0,
        ),
        task.p.learning_rate,
        sample(task.n, task.sample_size(), st.seed),
        0,
    )
}

/// Whether a run of squared error stays far from the ends of the range of numbers.
pub open spec fn run_clearly(task: Task, st: Progress, rounds: nat) -> bool
    decreases rounds,
{
    rounds == 0 || (run_clearly(task, st, (rounds - 1) as nat) && round_clearly(
        task,
        task.after_rounds(st, quiet((rounds - 1) as nat)),
    ))
}

/// Whether two runs of squared error have doubled scores and doubled trees.
spec fn doubled_progress(a: Progress, b: Progress, rate: F32) -> bool {
    &&& a.raw.len() == b.raw.len()
    &&& forall|i: int|
        0 <= i < a.raw.len() ==> doubled(#[trigger] a.raw[i], b.raw[i]) && within(
            a.raw[i],
            pow2(250) as int,
        )
    &&& a.seed == b.seed
    &&& a.trees.len() == 1
    &&& b.trees.len() == 1
    &&& a.trees[0].len() == b.trees[0].len()
    &&& forall|r: int|
        0 <= r < a.trees[0].len() ==> doubled_tree(#[trigger] a.trees[0][r], b.trees[0][r], rate)
}

/// Whether two tasks of squared error differ in doubled targets alone.
spec fn doubled_tasks(a: Task, b: Task) -> bool {
    &&& a.obj is L2
    &&& b == (Task { y: b.y, ..a })
    &&& a.n <= usize::MAX
    &&& a.y.len() == a.n
    &&& b.y.len() == a.n
    &&& forall|i: int| 0 <= i < a.n ==> doubled(#[trigger] a.y[i], b.y[i])
    &&& a.edges.len() == a.d
    &&& forall|f: int| 0 <= f < a.d ==> (#[trigger] a.edges[f]).len() <= 255
}

proof fn lemma_step_doubles(a: F32, b: F32, v: F32, w: F32)
    requires
        doubled(a, b),
        doubled(v, w),
        within(a, pow2(250) as int),
        within(v, pow2(226) as int),
    ensures
        doubled(a.plus(v), b.plus(w)),
        within(a.plus(v), pow2(250) as int),
{
    lemma_pow2_strictly_increases(226, 250);
    lemma_pow2_strictly_increases(250, 274);
    lemma_pow2_unfold(275);
    lemma_sum_doubles(a, v, b, w);
    lemma_plus_settles(a, v, 250);
}

proof fn lemma_round_doubles(a: Task, b: Task, st: Progress, su: Progress)
    requires
        doubled_tasks(a, b),
        st.raw.len() == a.n,
        doubled_progress(st, su, a.p.learning_rate),
        round_clearly(a, st),
    ensures
        doubled_progress(
            a.after_round(st, Seq::empty()),
            b.after_round(su, Seq::empty()),
            a.p.learning_rate,
        ),
        a.after_round(st, Seq::empty()).raw.len() == a.n,
{
    let none = Seq::<F32>::empty();
    let rate = a.p.learning_rate;
    let (g, k) = (a.obj.gradients(st.raw, none, a.y), b.obj.gradients(su.raw, none, b.y));
    let (h, e) = (a.obj.hessians(none, a.y), b.obj.hessians(none, b.y));
    assert(a.n * 1 == a.n) by (nonlinear_arith);
    assert(h =~= e);
    lemma_pow2_strictly_increases(250, 274);
    lemma_pow2_unfold(275);
    let (s, t) = (a.samples(g, h, 0), b.samples(k, e, 0));
    assert forall|i: int| 0 <= i < a.n implies doubled(#[trigger] s.grad[i], t.grad[i]) by {
        assert(i * 1 + 0 == i) by (nonlinear_arith);
        assert(within(a.y[i], pow2(250) as int));
        assert(doubled(a.y[i], b.y[i]));
        assert(doubled(st.raw[i], su.raw[i]));
        lemma_sum_doubles(
            st.raw[i],
            a.y[i].negated(),
            su.raw[i],
            b.y[i].negated(),
        );
    }
    assert(t.hess =~= s.hess);
    assert(t.bins =~= s.bins);
    assert forall|f: int| 0 <= f < s.d implies 1 <= #[trigger] s.bins[f] <= 256 by {
        assert(a.edges[f].len() <= 255);
    }
    assert(doubled_samples(s, t));
    let idx = sample(a.n, a.sample_size(), st.seed);
    lemma_grown_doubles(s, t, rate, idx, 0);
    let (u, v) = (a.next_tree(st, g, h, 0), b.next_tree(su, k, e, 0));
    assert(a.after_outputs(st, g, h, 0) == st);
    assert(b.after_outputs(su, k, e, 0) == su);
    let (x, z) = (a.with_tree(st, u, 0), b.with_tree(su, v, 0));
    assert(a.after_outputs(st, g, h, 1) == x);
    assert(b.after_outputs(su, k, e, 1) == z);
    assert forall|p: int| 0 <= p < x.raw.len() implies doubled(#[trigger] x.raw[p], z.raw[p])
        && within(x.raw[p], pow2(250) as int) by {
        assert(p % 1 == 0 && p / 1 == p);
        let row = row_of(a.binned, p, a.d as int);
        lemma_doubled_eval(u, v, rate, row);
        assert(doubled(st.raw[p], su.raw[p]));
        lemma_step_doubles(
            st.raw[p],
            su.raw[p],
            rate.times(u.eval(row)),
            rate.times(v.eval(row)),
        );
    }
    assert forall|r: int| 0 <= r < x.trees[0].len() implies doubled_tree(
        #[trigger] x.trees[0][r],
        z.trees[0][r],
        rate,
    ) by {
        if r < st.trees[0].len() {
            assert(doubled_tree(st.trees[0][r], su.trees[0][r], rate));
        }
    }
}

proof fn lemma_rounds_double(a: Task, b: Task, st: Progress, su: Progress, rounds: nat)
    requires
        doubled_tasks(a, b),
        st.raw.len() == a.n,
        doubled_progress(st, su, a.p.learning_rate),
        run_clearly(a, st, rounds),
    ensures
        doubled_progress(
            a.after_rounds(st, quiet(rounds)),
            b.after_rounds(su, quiet(rounds)),
            a.p.learning_rate,
        ),
        a.after_rounds(st, quiet(rounds)).raw.len() == a.n,
    decreases rounds,
{
    if rounds > 0 {
        let q = quiet(rounds);
        let before = quiet((rounds - 1) as nat);
        lemma_rounds_double(a, b, st, su, (rounds - 1) as nat);
        assert(q.drop_last() =~= before);
        assert(q.last() =~= Seq::<F32>::empty());
        lemma_round_doubles(a, b, a.after_rounds(st, before), b.after_rounds(su, before));
    }
}

proof fn lemma_running_sum_doubles(a: Seq<F32>, b: Seq<F32>)
    requires
        a.len() == b.len(),
        a.len() <= 0x20_0000,
        forall|i: int| 0 <= i < a.len() ==> doubled(#[trigger] a[i], b[i]),
        exact_size(a) <= pow2(190),
    ensures
        doubled(running_sum(a), running_sum(b)),
    decreases a.len(),
{
    if a.len() > 0 {
        let (c, d) = (a.drop_last(), b.drop_last());
        assert(doubled(a[a.len() - 1], b[b.len() - 1]));
        assert forall|i: int| 0 <= i < c.len() implies doubled(#[trigger] c[i], d[i]) by {
            assert(doubled(a[i], b[i]));
        }
        lemma_running_sum_doubles(c, d);
        lemma_pow2_strictly_increases(190, 270);
        assert forall|i: int| 0 <= i < c.len() implies (#[trigger] c[i]).finite() by {
            assert(doubled(c[i], d[i]));
        }
        lemma_sum_from_error(F32 { bits: NEGATIVE_ZERO }, c);
        let (k, size) = (c.len() as int, exact_size(c));
        assert(2 * k * size <= 0x40_0000 * size) by (nonlinear_arith)
            requires
                k <= 0x20_0000,
                size >= 0,
        ;
        lemma_pow2_adds(10, 190);
        lemma2_to64();
        lemma_pow2_strictly_increases(200, 275);
        lemma_sum_doubles(running_sum(c), a.last(), running_sum(d), b.last());
    }
}

proof fn lemma_boosted_doubles(
    start: F32,
    other: F32,
    a: Seq<Shape>,
    b: Seq<Shape>,
    rate: F32,
    row: Seq<u8>,
)
    requires
        doubled(start, other),
        within(start, pow2(250) as int),
        a.len() == b.len(),
        forall|r: int| 0 <= r < a.len() ==> doubled_tree(#[trigger] a[r], b[r], rate),
    ensures
        doubled(boosted(start, a, rate, row), boosted(other, b, rate, row)),
        within(boosted(start, a, rate, row), pow2(250) as int),
    decreases a.len(),
{
    if a.len() > 0 {
        let (c, d) = (a.drop_last(), b.drop_last());
        assert forall|r: int| 0 <= r < c.len() implies doubled_tree(
            #[trigger] c[r],
            d[r],
            rate,
        ) by {
            assert(doubled_tree(a[r], b[r], rate));
        }
        lemma_boosted_doubles(start, other, c, d, rate, row);
        assert(doubled_tree(a[a.len() - 1], b[b.len() - 1], rate));
        lemma_doubled_eval(a.last(), b.last(), rate, row);
        lemma_step_doubles(
            boosted(start, c, rate, row),
            boosted(other, d, rate, row),
            rate.times(a.last().eval(row)),
            rate.times(b.last().eval(row)),
        );
    }
}

/// Doubling every target doubles every prediction of a regressor, exactly, as long as the run stays
/// far from the ends of the range of numbers and the gains stay clear of the least gain of 1e-6.
pub proof fn law_doubled_targets_double_predictions(
    x: Seq<F32>,
    y: Seq<F32>,
    z: Seq<F32>,
    n: nat,
    d: nat,
    p: GbmParams,
    row: Seq<F32>,
)
    requires
        x.len() == n * d,
        y.len() == n,
        z.len() == n,
        0 < n <= 0x20_0000,
        forall|i: int| 0 <= i < n ==> doubled(#[trigger] y[i], z[i]),
        exact_size(y) <= pow2(190),
        running_sum(y).value() == 0 || roomy(mean(y)),
        within(mean(y), pow2(250) as int),
        ({
            let task = task_of(x, y, n, d, Obj::L2, p);
            run_clearly(task, task.start(seq![mean(y)]), p.n_estimators as nat)
        }),
    ensures
        doubled(
            regression(x, y, n, d, p).scores(row)[0],
            regression(x, z, n, d, p).scores(row)[0],
        ),
{
    let (a, b) = (task_of(x, y, n, d, Obj::L2, p), task_of(x, z, n, d, Obj::L2, p));
    lemma_task_sound(x, y, n, d, Obj::L2, p);
    lemma_running_sum_doubles(y, z);
    lemma_small_integer(n as int);
    lemma_pow2_pos(149);
    let count = of_integer(n as int);
    lemma_magnitude_order(count.code(), 0);
    assert(n * pow2(149) > 0) by (nonlinear_arith)
        requires
            n > 0,
            pow2(149) > 0,
    ;
    lemma_quotient_doubles(running_sum(y), running_sum(z), count);
    assert(doubled(mean(y), mean(z)));
    let (st, su) = (a.start(seq![mean(y)]), b.start(seq![mean(z)]));
    assert(n * 1 == n) by (nonlinear_arith);
    assert forall|i: int| 0 <= i < st.raw.len() implies doubled(#[trigger] st.raw[i], su.raw[i])
        && within(st.raw[i], pow2(250) as int) by {
        assert(i % 1 == 0);
    }
    lemma_rounds_double(a, b, st, su, p.n_estimators as nat);
    let (k, m) = (regression(x, y, n, d, p), regression(x, z, n, d, p));
    lemma_boosted_doubles(
        mean(y),
        mean(z),
        k.trees[0],
        m.trees[0],
        p.learning_rate,
        k.bins(row),
    );
}

} // verus!
