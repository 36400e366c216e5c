//! Scores stay finite.

use crate::booster::{boosted, task_of, Progress, Task};
use crate::classifier::{class_loss, law_class_count_covers_labels, may_fit, top_label, ClassModel};
use crate::float::arith::absolute;
use crate::float::convert::of_integer;
use crate::float::error::{
    lemma_over_within, lemma_plus_settles, lemma_plus_within, lemma_times_within, within,
};
use crate::float::laws::{
    law_plus_keeps_order, law_plus_zero, law_ratio_is_at_most_one, lemma_one, lemma_ratio,
    lemma_rounded, lemma_rounded_monotone, lemma_sum_is_number, lemma_unit, ratio,
};
use crate::float::model::{
    lemma_magnitude_of_parts, lemma_magnitude_order, lemma_rank_orders, magnitude,
};
use crate::float::round::lemma_nearest_exact;
use crate::float::scale::lemma_power_code;
use crate::float::F32;
use crate::function::applied;
use crate::grid::{lemma_cell, lemma_position, lemma_row_column, lemma_row_start, row_of};
use crate::grow::rows_below;
use crate::laws::probability::{
    law_logistic_is_a_probability, lemma_logistic_sign, lemma_sum_dominates,
};
use crate::laws::scoring::lemma_of_integer;
use crate::laws::softmax::{
    exponential, lemma_left_over_sign, lemma_shifted, lemma_unit_bounds, unit,
};
use crate::objective::{
    class_weight, class_weights, curvature, largest, mean, running_sum, sum_from, Obj,
    NEGATIVE_ZERO, ONE, ZERO,
};
use crate::params::{default_params, GbmParams};
use crate::rng::{law_sample_is_distinct, sample};
use crate::split::{lemma_side_members, total, Samples};
use crate::tree::Shape;
use vstd::arithmetic::power2::{
    lemma2_to64, lemma2_to64_rest, lemma_pow2_adds, lemma_pow2_pos,
    lemma_pow2_strictly_increases, lemma_pow2_unfold, pow2,
};
use vstd::prelude::*;

verus! {

/// A sum of numbers stays within 2^s, in steps of 2^-149, if they are smaller by 2^24.
pub proof fn lemma_sum_within(start: F32, s: Seq<F32>, bits: nat)
    requires
        start.zero(),
        24 <= bits <= 250,
        forall|i: int|
            0 <= i < s.len() ==> within(#[trigger] s[i], pow2((bits - 24) as nat) as int),
    ensures
        within(sum_from(start, s), pow2(bits) as int),
    decreases s.len(),
{
    lemma_pow2_pos(bits);
    if s.len() > 0 {
        let rest = s.drop_last();
        assert forall|i: int| 0 <= i < rest.len() implies within(
            #[trigger] rest[i],
            pow2((bits - 24) as nat) as int,
        ) by {
            assert(rest[i] == s[i]);
        }
        lemma_sum_within(start, rest, bits);
        assert(within(s[s.len() - 1], pow2((bits - 24) as nat) as int));
        lemma_plus_settles(sum_from(start, rest), s.last(), bits);
    }
}

/// Whether parameters damp the trees: a learning rate of at most one, and a regularization of at
/// least one.
pub open spec fn damped(p: GbmParams) -> bool {
    within(p.learning_rate, pow2(149) as int) && (F32 { bits: ONE }).at_most(p.lambda)
}

/// The default parameters damp the trees.
pub proof fn lemma_defaults_are_damped()
    ensures
        damped(default_params()),
{
    lemma2_to64();
    lemma_ratio(1, 20, 121, 0xcc_cccd);
    lemma_unit();
    lemma_one();
    let rate = default_params().learning_rate;
    lemma_magnitude_order(rate.code(), ONE as int);
    lemma_magnitude_order(rate.code(), 0);
}

/// Whether a function has the property of the logarithm that positive numbers give finite ones, of a
/// size of at most 2^48.
pub open spec fn logarithm<L: Fn(F32) -> F32>(ln: L) -> bool {
    forall|a: F32, r: F32| #[trigger]
        ln.ensures((a,), r) && positive(a) ==> within(r, pow2(197) as int)
}

/// Whether a number is finite and above zero.
pub open spec fn positive(a: F32) -> bool {
    a.finite() && !a.negative() && !a.zero()
}

/// Whether a label is a natural number.
pub open spec fn class_index(y: F32) -> bool {
    y.finite() && y.value() == y.whole() * pow2(149)
}

/// Whether the values of all leaves stay within a bound.
pub open spec fn leaves_within(shape: Shape, bound: int) -> bool
    decreases shape,
{
    match shape {
        Shape::Leaf { value } => within(value, bound),
        Shape::Split { left, right, .. } => leaves_within(*left, bound) && leaves_within(
            *right,
            bound,
        ),
    }
}

proof fn lemma_eval_within(shape: Shape, row: Seq<u8>, bound: int)
    requires
        leaves_within(shape, bound),
    ensures
        within(shape.eval(row), bound),
    decreases shape,
{
    if let Shape::Split { left, right, .. } = shape {
        lemma_eval_within(*left, row, bound);
        lemma_eval_within(*right, row, bound);
    }
}

/// Whether first derivatives lie between minus one and one, and second derivatives between zero and
/// one.
spec fn derivatives_within(grad: Seq<F32>, hess: Seq<F32>) -> bool {
    &&& grad.len() == hess.len()
    &&& forall|i: int| 0 <= i < grad.len() ==> within(#[trigger] grad[i], pow2(149) as int)
    &&& forall|i: int|
        0 <= i < hess.len() ==> within(#[trigger] hess[i], pow2(149) as int) && hess[i].value()
            >= 0
}

proof fn lemma_total_within(vals: Seq<F32>, idx: Seq<usize>)
    requires
        rows_below(idx, vals.len()),
        forall|i: int| 0 <= i < vals.len() ==> within(#[trigger] vals[i], pow2(149) as int),
    ensures
        within(total(vals, idx), pow2(173) as int),
        (forall|i: int| 0 <= i < vals.len() ==> (#[trigger] vals[i]).value() >= 0) ==> total(
            vals,
            idx,
        ).value() >= 0,
    decreases idx.len(),
{
    lemma_pow2_pos(173);
    if idx.len() > 0 {
        let rest = idx.drop_last();
        assert forall|k: int| 0 <= k < rest.len() implies #[trigger] rest[k] < vals.len() by {
            assert(rest[k] == idx[k]);
        }
        assert(idx.last() == idx[idx.len() - 1]);
        lemma_total_within(vals, rest);
        let (a, b) = (total(vals, rest), vals[idx.last() as int]);
        lemma_plus_settles(a, b, 173);
        lemma_rounded(absolute(a.value() + b.value()), 1);
        lemma_magnitude_order(a.plus(b).code(), 0);
    }
}

proof fn lemma_grown_within(s: Samples, idx: Seq<usize>, depth: nat)
    requires
        derivatives_within(s.grad, s.hess),
        (F32 { bits: ONE }).at_most(s.lambda),
        rows_below(idx, s.grad.len()),
    ensures
        leaves_within(s.grown(idx, depth), pow2(173) as int),
    decreases s.max_depth - depth,
{
    let zero = F32 { bits: ZERO };
    let (g, h) = (total(s.grad, idx), total(s.hess, idx));
    lemma_total_within(s.grad, idx);
    lemma_total_within(s.hess, idx);
    let den = h.plus(s.lambda);
    lemma_one();
    lemma_pow2_pos(149);
    lemma_sum_is_number(h, s.lambda);
    lemma_sum_is_number(zero, s.lambda);
    law_plus_zero(s.lambda);
    law_plus_keeps_order(zero, s.lambda, h, s.lambda);
    lemma_magnitude_order(den.code(), 0);
    lemma_over_within(g.negated(), den, pow2(173) as int);
    assert(within(s.leaf_value(idx), pow2(173) as int));
    if depth >= s.max_depth || idx.len() < 2 * s.min_leaf {
    } else {
        match s.best_split(idx) {
            None => {},
            Some((f, b)) => {
                let (f, b) = (f as int, b as int);
                lemma_side_members(s, idx, f, b, true, s.grad.len());
                lemma_side_members(s, idx, f, b, false, s.grad.len());
                lemma_grown_within(s, s.side(idx, f, b, true), depth + 1);
                lemma_grown_within(s, s.side(idx, f, b, false), depth + 1);
            },
        }
    }
}

/// Whether all scores and all leaves of a run are bounded.
spec fn bounded(task: Task, st: Progress) -> bool {
    &&& st.raw.len() == task.n * task.obj.outputs()
    &&& forall|p: int| 0 <= p < st.raw.len() ==> within(#[trigger] st.raw[p], pow2(197) as int)
    &&& st.trees.len() == task.obj.outputs()
    &&& forall|o: int, r: int|
        0 <= o < st.trees.len() && 0 <= r < st.trees[o].len() ==> leaves_within(
            #[trigger] st.trees[o][r],
            pow2(173) as int,
        )
}

proof fn lemma_with_tree_within(task: Task, st: Progress, tree: Shape, c: int)
    requires
        bounded(task, st),
        damped(task.p),
        leaves_within(tree, pow2(173) as int),
        0 <= c < task.obj.outputs(),
    ensures
        bounded(task, task.with_tree(st, tree, c)),
{
    let k = task.obj.outputs() as int;
    let next = task.with_tree(st, tree, c);
    assert forall|p: int| 0 <= p < next.raw.len() implies within(
        #[trigger] next.raw[p],
        pow2(197) as int,
    ) by {
        assert(within(st.raw[p], pow2(197) as int));
        if p % k == c {
            let row = row_of(task.binned, p / k, task.d as int);
            lemma_eval_within(tree, row, pow2(173) as int);
            lemma_times_within(task.p.learning_rate, tree.eval(row), pow2(173) as int);
            lemma_plus_settles(st.raw[p], task.p.learning_rate.times(tree.eval(row)), 197);
        }
    }
    assert forall|o: int, r: int|
        0 <= o < next.trees.len() && 0 <= r < next.trees[o].len() implies leaves_within(
        #[trigger] next.trees[o][r],
        pow2(173) as int,
    ) by {
        if o != c || r < st.trees[o].len() {
            assert(next.trees[o][r] == st.trees[o][r]);
        }
    }
}

proof fn lemma_outputs_within(
    task: Task,
    st: Progress,
    grad: Seq<F32>,
    hess: Seq<F32>,
    count: nat,
)
    requires
        bounded(task, st),
        damped(task.p),
        task.n <= usize::MAX,
        derivatives_within(grad, hess),
        grad.len() == task.n * task.obj.outputs(),
        count <= task.obj.outputs(),
    ensures
        bounded(task, task.after_outputs(st, grad, hess, count)),
    decreases count,
{
    if count > 0 {
        let c = count - 1;
        let k = task.obj.outputs() as int;
        lemma_outputs_within(task, st, grad, hess, c as nat);
        let before = task.after_outputs(st, grad, hess, c as nat);
        let s = task.samples(grad, hess, c);
        assert forall|i: int| 0 <= i < task.n implies within(
            #[trigger] s.grad[i],
            pow2(149) as int,
        ) by {
            lemma_cell(i, c, task.n as int, k);
            assert(within(grad[i * k + c], pow2(149) as int));
        }
        assert forall|i: int| 0 <= i < task.n implies within(
            #[trigger] s.hess[i],
            pow2(149) as int,
        ) && s.hess[i].value() >= 0 by {
            lemma_cell(i, c, task.n as int, k);
            assert(within(hess[i * k + c], pow2(149) as int));
        }
        let idx = sample(task.n, task.sample_size(), before.seed);
        law_sample_is_distinct(task.n, task.sample_size(), before.seed);
        lemma_grown_within(s, idx, 0);
        let tree = task.next_tree(before, grad, hess, c);
        lemma_with_tree_within(task, before, tree, c);
    }
}

/// Whether a loss for classes goes with labels: labels for the logistic loss lie between zero and
/// one.
spec fn fitting(obj: Obj, y: Seq<F32>) -> bool {
    match obj {
        Obj::L2 => false,
        Obj::Binary => forall|i: int|
            0 <= i < y.len() ==> within(#[trigger] y[i], pow2(149) as int) && y[i].value() >= 0,
        Obj::Multiclass(_) => true,
    }
}

/// The probabilities of a round lie between zero and one.
proof fn lemma_round_probability<E: Fn(F32) -> F32>(
    task: Task,
    exp: E,
    st: Progress,
    exps: Seq<F32>,
    p: int,
)
    requires
        exponential(exp),
        applied(exp, task.exp_inputs(st), exps),
        bounded(task, st),
        !(task.obj is L2),
        0 <= p < task.n * task.obj.outputs(),
    ensures
        unit(task.obj.probability(exps, p)),
{
    let n = task.n as int;
    let args = task.exp_inputs(st);
    let raw = st.raw;
    assert(n * 1 == n);
    match task.obj {
        Obj::L2 => {},
        Obj::Binary => {
            assert(within(raw[p], pow2(197) as int));
            assert(exp.ensures((args[p],), exps[p]));
            law_logistic_is_a_probability(exps[p]);
            lemma_logistic_sign(exps[p]);
        },
        Obj::Multiclass(k) => {
            let k = k as int;
            lemma_row_column(p, n, k);
            let i = p / k;
            lemma_row_start(i, n, k);
            let (row, erow) = (row_of(raw, i, k), row_of(exps, i, k));
            assert forall|c: int| 0 <= c < row.len() implies (#[trigger] row[c]).finite() by {
                lemma_cell(i, c, n, k);
                assert(within(raw[i * k + c], pow2(197) as int));
            }
            assert(row[0].finite());
            lemma_shifted(row);
            assert forall|c: int| 0 <= c < k implies {
                &&& unit(#[trigger] erow[c])
                &&& row[c].minus(largest(row)).zero() ==> erow[c] == (F32 { bits: ONE })
            } by {
                lemma_cell(i, c, n, k);
                lemma_position(i, c, k);
                assert(row[c].minus(largest(row)).at_most(F32 { bits: ZERO }));
                assert(args[i * k + c] == row[c].minus(largest(row)));
                assert(exp.ensures((args[i * k + c],), exps[i * k + c]));
            }
            let best = choose|c: int| 0 <= c < row.len() && (#[trigger] row[c]).minus(
                largest(row),
            ).zero();
            assert(erow[best] == (F32 { bits: ONE }));
            let den = sum_from(F32 { bits: ZERO }, erow);
            lemma_sum_dominates(F32 { bits: ZERO }, erow);
            assert(erow[best].at_most(den));
            let c = p % k;
            assert(erow[c] == exps[p]);
            assert(erow[c].at_most(den));
            lemma_unit_bounds(erow[c]);
            lemma_one();
            lemma_pow2_pos(149);
            lemma_magnitude_order(den.code(), 0);
            law_ratio_is_at_most_one(erow[c], den);
        },
    }
}

/// A probability less a number between zero and one, and the curvature of a probability.
proof fn lemma_derivatives_of(p: F32, y: F32)
    requires
        unit(p),
        within(y, pow2(149) as int),
        y.value() >= 0,
    ensures
        within(p.minus(y), pow2(149) as int),
        within(curvature(p), pow2(149) as int),
        curvature(p).value() >= 0,
{
    let one = F32 { bits: ONE };
    lemma_one();
    lemma_unit_bounds(p);
    lemma_plus_within(p, y.negated(), ONE as int);
    lemma_plus_within(one, p.negated(), ONE as int);
    let rest = one.minus(p);
    lemma_left_over_sign(p);
    lemma_times_within(p, rest, pow2(149) as int);
    lemma_magnitude_order(p.times(rest).code(), 0);
    lemma_rounded(magnitude(p.code()) * magnitude(rest.code()), pow2(149) as int);
    lemma2_to64_rest();
    lemma_ratio(1, 1_000_000, 106, 0x86_37bd);
    let tiny = ratio(1, 1_000_000);
    lemma_magnitude_order(tiny.code(), ONE as int);
    lemma_magnitude_order(tiny.code(), 0);
}

proof fn lemma_round_within<E: Fn(F32) -> F32>(task: Task, exp: E, st: Progress, exps: Seq<F32>)
    requires
        exponential(exp),
        applied(exp, task.exp_inputs(st), exps),
        bounded(task, st),
        damped(task.p),
        task.n <= usize::MAX,
        task.y.len() == task.n,
        fitting(task.obj, task.y),
    ensures
        bounded(task, task.after_round(st, exps)),
{
    let grad = task.obj.gradients(st.raw, exps, task.y);
    let hess = task.obj.hessians(exps, task.y);
    let n = task.n as int;
    assert(n * 1 == n);
    lemma_pow2_pos(149);
    lemma_one();
    assert forall|p: int| 0 <= p < task.n * task.obj.outputs() implies within(
        #[trigger] grad[p],
        pow2(149) as int,
    ) && within(hess[p], pow2(149) as int) && hess[p].value() >= 0 by {
        lemma_round_probability(task, exp, st, exps, p);
        let prob = task.obj.probability(exps, p);
        let label = match task.obj {
            Obj::Multiclass(k) => F32 {
                bits: if p % k as int == task.y[p / k as int].whole() {
                    ONE
                } else {
                    ZERO
                },
            },
            _ => task.y[p],
        };
        lemma_derivatives_of(prob, label);
    }
    assert forall|p: int| 0 <= p < hess.len() implies within(#[trigger] hess[p], pow2(149) as int)
        && hess[p].value() >= 0 by {
        assert(within(grad[p], pow2(149) as int));
    }
    lemma_outputs_within(task, st, grad, hess, task.obj.outputs());
}

proof fn lemma_rounds_within<E: Fn(F32) -> F32>(
    task: Task,
    exp: E,
    st: Progress,
    trace: Seq<Seq<F32>>,
)
    requires
        exponential(exp),
        task.traced(exp, st, trace),
        bounded(task, st),
        damped(task.p),
        task.n <= usize::MAX,
        task.y.len() == task.n,
        fitting(task.obj, task.y),
    ensures
        bounded(task, task.after_rounds(st, trace)),
    decreases trace.len(),
{
    if trace.len() > 0 {
        lemma_rounds_within(task, exp, st, trace.drop_last());
        lemma_round_within(task, exp, task.after_rounds(st, trace.drop_last()), trace.last());
    }
}

proof fn lemma_boosted_within(start: F32, trees: Seq<Shape>, rate: F32, row: Seq<u8>)
    requires
        within(start, pow2(197) as int),
        within(rate, pow2(149) as int),
        forall|r: int|
            0 <= r < trees.len() ==> leaves_within(#[trigger] trees[r], pow2(173) as int),
    ensures
        within(boosted(start, trees, rate, row), pow2(197) as int),
    decreases trees.len(),
{
    if trees.len() > 0 {
        let rest = trees.drop_last();
        assert forall|r: int| 0 <= r < rest.len() implies leaves_within(
            #[trigger] rest[r],
            pow2(173) as int,
        ) by {
            assert(rest[r] == trees[r]);
        }
        lemma_boosted_within(start, rest, rate, row);
        assert(leaves_within(trees[trees.len() - 1], pow2(173) as int));
        lemma_eval_within(trees.last(), row, pow2(173) as int);
        lemma_times_within(rate, trees.last().eval(row), pow2(173) as int);
        lemma_plus_settles(
            boosted(start, rest, rate, row),
            rate.times(trees.last().eval(row)),
            197,
        );
    }
}

/// Dividing a number of at least one by one of at most 2^48 does not give zero.
pub proof fn lemma_share_is_positive(a: F32, b: F32)
    requires
        within(b, pow2(197) as int),
        !a.negative(),
        a.value() >= pow2(149),
        a.at_most(b),
    ensures
        positive(a.over(b)),
{
    let (x, y) = (magnitude(a.code()), magnitude(b.code()));
    let h = pow2(149) as int;
    lemma_pow2_pos(149);
    lemma_rank_orders(a, b);
    lemma_magnitude_order(a.code(), 0);
    lemma_magnitude_order(b.code(), 0);
    lemma_one();
    law_ratio_is_at_most_one(a, b);
    lemma_rank_orders(a.over(b), F32 { bits: ONE });
    lemma_pow2_adds(149, 149);
    lemma_pow2_strictly_increases(197, 298);
    assert(1 * y <= (x * h) * 1) by (nonlinear_arith)
        requires
            y <= h * h,
            x >= h,
            h > 0,
    ;
    lemma_rounded_monotone(1, 1, x * h, y);
    lemma_rounded(x * h, y);
    lemma_nearest_exact(1, 1, 1);
}

/// The weight of a class lies between one and 2^24.
pub proof fn lemma_weight_within(y: Seq<F32>, class: int)
    ensures
        within(class_weight(y, class), pow2(173) as int),
        class_weight(y, class).value() >= pow2(149),
        !class_weight(y, class).negative(),
    decreases y.len(),
{
    let one = F32 { bits: ONE };
    lemma_one();
    lemma_pow2_pos(149);
    lemma_pow2_strictly_increases(149, 173);
    if y.len() > 0 {
        let rest = class_weight(y.drop_last(), class);
        lemma_weight_within(y.drop_last(), class);
        lemma_plus_settles(rest, one, 173);
        let zero = F32 { bits: ZERO };
        lemma_sum_is_number(rest, one);
        lemma_sum_is_number(zero, one);
        law_plus_zero(one);
        law_plus_keeps_order(zero, one, rest, one);
        lemma_magnitude_order(rest.plus(one).code(), 0);
    }
}

/// The odds of a number that is kept away from zero and one.
pub proof fn lemma_odds_are_positive(a: F32)
    requires
        !a.nan(),
    ensures
        ({
            let one = F32 { bits: ONE };
            let low = ratio(1, 10_000);
            let mu = a.confined(low, one.minus(low));
            positive(mu.over(one.minus(mu)))
        }),
{
    let one = F32 { bits: ONE };
    let low = ratio(1, 10_000);
    let high = one.minus(low);
    let h = pow2(149) as int;
    let u = pow2(125) as int;
    lemma_one();
    lemma2_to64();
    lemma2_to64_rest();
    lemma_ratio(1, 10_000, 112, 0xd1_b717);
    assert(low.bits == 0x38d1_b717);
    lemma_pow2_pos(125);
    lemma_pow2_unfold(126);
    lemma_pow2_adds(24, 125);
    // Numbers at least 2^-23 from one.
    lemma_power_code(103);
    lemma_magnitude_order(104 * 0x80_0000int, low.code());
    lemma_magnitude_order(low.code(), 104 * 0x80_0000int);
    lemma_magnitude_order(low.code(), ONE as int);
    lemma_magnitude_of_parts(125, 0xff_fffe);
    assert(125nat * 0x80_0000 + 0xff_fffe == ONE - 2);
    assert(0xff_fffe * u == 0x100_0000 * u - 2 * u) by (nonlinear_arith);
    assert(magnitude(ONE - 2) == h - 2 * u);
    lemma_plus_within(one, low.negated(), ONE - 2);
    lemma_left_over_sign(low);
    lemma_magnitude_order(high.code(), 0);
    lemma_magnitude_order(high.code(), low.code());
    assert(low.at_most(high)) by {
        // One half lies between.
        lemma_power_code(125);
        lemma_pow2_unfold(149);
        lemma_nearest_exact(126 * 0x80_0000int, pow2(148) as int, 1);
        lemma_magnitude_order(low.code(), 126 * 0x80_0000int);
        lemma_rounded_monotone(pow2(148) as int, 1, h - low.value(), 1);
        lemma_rounded(h - low.value(), 1);
        lemma_magnitude_order(126 * 0x80_0000int, high.code());
    }
    let mu = a.confined(low, high);
    assert(low.at_most(mu) && mu.at_most(high));
    lemma_rank_orders(low, mu);
    lemma_rank_orders(mu, high);
    let den = one.minus(mu);
    let v = h - mu.value();
    assert(v >= 2 * u);
    lemma_rounded(v, 1);
    lemma_power_code(103);
    lemma_nearest_exact(104 * 0x80_0000int, 2 * u, 1);
    lemma_rounded_monotone(2 * u, 1, v, 1);
    lemma_plus_within(one, mu.negated(), ONE as int);
    lemma_magnitude_order(den.code(), 104 * 0x80_0000int);
    lemma_magnitude_order(104 * 0x80_0000int, den.code());
    let (x, y) = (magnitude(mu.code()), magnitude(den.code()));
    assert(2 * u <= y <= h);
    lemma_magnitude_order(mu.code(), 0);
    lemma_rank_orders(mu, one);
    // The odds are at least the number itself, and at most 2^23.
    lemma_rounded(x * h, y);
    lemma_nearest_exact(mu.code(), x, 1);
    assert(x * y <= (x * h) * 1) by (nonlinear_arith)
        requires
            y <= h,
            x >= 0,
    ;
    lemma_rounded_monotone(x, 1, x * h, y);
    lemma_power_code(149);
    lemma_pow2_adds(23, 149);
    let top = pow2(172) as int;
    lemma_nearest_exact(150 * 0x80_0000int, top, 1);
    lemma_pow2_adds(126, 172);
    lemma_pow2_adds(149, 149);
    assert((x * h) * 1 <= top * y) by (nonlinear_arith)
        requires
            x <= h,
            h > 0,
            2 * u <= y,
            (2 * u) * top == h * h,
            top > 0,
    {
        assert(x * h <= h * h);
        assert(top * y >= top * (2 * u));
    }
    lemma_rounded_monotone(x * h, y, top, 1);
}

/// The logarithms that training starts from are those of positive numbers.
proof fn lemma_log_inputs_are_positive(obj: Obj, y: Seq<F32>)
    requires
        fitting(obj, y),
        y.len() <= usize::MAX,
    ensures
        forall|c: int| 0 <= c < obj.log_inputs(y).len() ==> positive(#[trigger] obj.log_inputs(y)[c]),
{
    let args = obj.log_inputs(y);
    match obj {
        Obj::L2 => {},
        Obj::Binary => {
            lemma_sum_within(F32 { bits: NEGATIVE_ZERO }, y, 173);
            let count = if y.len() == 0 {
                1
            } else {
                y.len() as int
            };
            lemma_of_integer(count, count);
            let m = magnitude(of_integer(count).code());
            lemma_magnitude_order(of_integer(count).code(), 0);
            lemma_rounded(magnitude(running_sum(y).code()) * pow2(149), m);
            assert(!mean(y).nan());
            lemma_odds_are_positive(mean(y));
        },
        Obj::Multiclass(k) => {
            let w = class_weights(y, k as nat);
            let start = F32 { bits: NEGATIVE_ZERO };
            assert forall|c: int| 0 <= c < w.len() implies {
                &&& within(#[trigger] w[c], pow2(173) as int)
                &&& w[c].value() >= pow2(149)
                &&& !w[c].negative()
            } by {
                lemma_weight_within(y, c);
            }
            lemma_sum_within(start, w, 197);
            lemma_sum_dominates(start, w);
            assert forall|c: int| 0 <= c < args.len() implies positive(#[trigger] args[c]) by {
                assert(w[c].at_most(running_sum(w)));
                lemma_share_is_positive(w[c], running_sum(w));
            }
        },
    }
}

/// The scores that a fitted classifier gives to any row are finite, of a size of at most 2^48. This
/// takes natural numbers as labels, parameters that damp the trees, and functions that are like the
/// exponential and the logarithm.
pub proof fn law_scores_are_finite<E: Fn(F32) -> F32, L: Fn(F32) -> F32>(
    x: Seq<F32>,
    y: Seq<F32>,
    n: nat,
    d: nat,
    p: GbmParams,
    exp: E,
    ln: L,
    m: ClassModel,
    row: Seq<F32>,
    c: int,
)
    requires
        exponential(exp),
        logarithm(ln),
        damped(p),
        n <= usize::MAX,
        y.len() == n,
        forall|i: int| 0 <= i < n ==> class_index(#[trigger] y[i]),
        top_label(y).whole() < usize::MAX,
        may_fit(x, y, n, d, p, exp, ln, m),
        0 <= c < m.model.scores(row).len(),
    ensures
        within(m.model.scores(row)[c], pow2(197) as int),
{
    let obj = class_loss(y);
    let task = task_of(x, y, n, d, obj, p);
    let args = obj.log_inputs(y);
    let logs = choose|logs: Seq<F32>| #[trigger]
        applied(ln, args, logs) && task.leads_to(exp, obj.base(y, logs), m.model);
    lemma_pow2_pos(149);
    law_class_count_covers_labels(y);
    assert(fitting(obj, y)) by {
        if obj is Binary {
            let h = pow2(149) as int;
            assert forall|i: int| 0 <= i < n implies within(#[trigger] y[i], h) && y[i].value()
                >= 0 by {
                assert(class_index(y[i]));
                let w = y[i].whole() as int;
                assert(0 <= w <= 1);
                assert(0 <= w * h <= h) by (nonlinear_arith)
                    requires
                        0 <= w <= 1,
                        h > 0,
                ;
            }
        }
    }
    lemma_log_inputs_are_positive(obj, y);
    assert forall|i: int| 0 <= i < logs.len() implies within(
        #[trigger] logs[i],
        pow2(197) as int,
    ) by {
        assert(positive(args[i]));
        assert(ln.ensures((args[i],), logs[i]));
    }
    let base = obj.base(y, logs);
    assert(base == logs);
    let k = obj.outputs() as int;
    assert(base.len() == k);
    let trace = choose|trace: Seq<Seq<F32>>|
        trace.len() == p.n_estimators && #[trigger] task.traced(exp, task.start(base), trace)
            && m.model == task.model(base, trace);
    let st = task.start(base);
    assert forall|q: int| 0 <= q < st.raw.len() implies within(
        #[trigger] st.raw[q],
        pow2(197) as int,
    ) by {
        lemma_row_column(q, n as int, k);
        assert(within(logs[q % k], pow2(197) as int));
    }
    lemma_rounds_within(task, exp, st, trace);
    assert(within(logs[c], pow2(197) as int));
    lemma_boosted_within(base[c], m.model.trees[c], p.learning_rate, m.model.bins(row));
}

} // verus!
