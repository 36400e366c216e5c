//! What a trained ensemble is: which trees each round adds, and what scores they add up to.

use crate::bins::{law_bin_is_in_range, law_bins_are_bounded, law_fitted_edges_ascend, numeric};
use crate::booster::{boosted, lemma_task_sound, task_of, Model, Progress, Task};
use crate::classifier::{class_loss, may_fit, top_label, ClassModel};
use crate::float::arith::absolute;
use crate::float::error::{lemma_product_error_of, lemma_sum_error_of};
use crate::float::laws::ratio;
use crate::float::F32;
use crate::function::applied;
use crate::grid::{lemma_cell, lemma_position, lemma_row_column, lemma_row_start, row_of};
use crate::grow::rows_below;
use crate::laws::newton::{
    law_eligible_splits_leave_enough_rows, law_tree_gives_newton_steps, leaf_mates,
    lemma_side_rows, newton_step, steady,
};
use crate::laws::rounds::{lemma_outputs_extend, lemma_rounds_extend};
use crate::laws::sums::{rows_of, size_at, sum_at};
use crate::laws::training::{
    law_model_keeps_limits, law_model_reproduces_training_scores, law_split_is_a_threshold,
    lemma_after_rounds,
};
use crate::objective::Obj;
use crate::params::GbmParams;
use crate::rng::{law_sample_is_distinct, lemma_state_after_adds, sample, sample_draws, state_after};
use crate::split::{law_best_split_is_optimal, lemma_best_is_candidate, precedes, Samples};
use crate::tree::Shape;
use vstd::arithmetic::power2::{
    lemma2_to64, lemma_pow2_pos, lemma_pow2_strictly_increases, lemma_pow2_unfold, pow2,
};
use vstd::prelude::*;

verus! {

/// The exact sum of the values that trees give a row.
pub open spec fn leaf_sum(trees: Seq<Shape>, row: Seq<u8>) -> int
    decreases trees.len(),
{
    if trees.len() == 0 {
        0
    } else {
        leaf_sum(trees.drop_last(), row) + trees.last().eval(row).value()
    }
}

/// The exact sum of the sizes of these values.
pub open spec fn leaf_size(trees: Seq<Shape>, row: Seq<u8>) -> int
    decreases trees.len(),
{
    if trees.len() == 0 {
        0
    } else {
        leaf_size(trees.drop_last(), row) + absolute(trees.last().eval(row).value())
    }
}

proof fn lemma_leaf_size(trees: Seq<Shape>, row: Seq<u8>)
    ensures
        absolute(leaf_sum(trees, row)) <= leaf_size(trees, row),
    decreases trees.len(),
{
    if trees.len() > 0 {
        lemma_leaf_size(trees.drop_last(), row);
    }
}

/// One term of a score: the learning rate times a leaf value, added to what is there.
proof fn lemma_score_step(b: F32, rate: F32, v: F32, x: int, size: int, j: int)
    requires
        b.finite(),
        rate.finite(),
        v.finite(),
        0 < j <= 0x20_0000,
        absolute(x) <= size,
        size + absolute(rate.value() * v.value()) <= pow2(149) * pow2(270),
        0xff_ffff * absolute(pow2(149) * b.value() - x) <= (j - 1) * (8 * size + 0x400_0000
            * pow2(149)),
    ensures
        b.plus(rate.times(v)).finite(),
        0xff_ffff * absolute(
            pow2(149) * b.plus(rate.times(v)).value() - (x + rate.value() * v.value()),
        ) <= j * (8 * (size + absolute(rate.value() * v.value())) + 0x400_0000 * pow2(149)),
{
    let u = pow2(149) as int;
    let rv = rate.value() * v.value();
    let z = absolute(rv);
    let all = size + z;
    lemma_pow2_pos(149);
    lemma_pow2_strictly_increases(270, 274);
    lemma_pow2_unfold(275);
    lemma_pow2_unfold(276);
    assert(u * pow2(270) <= u * pow2(276)) by (nonlinear_arith)
        requires
            pow2(270) <= pow2(276),
            u > 0,
    ;
    lemma_product_error_of(rate, v);
    let t = rate.times(v);
    let ut = u * t.value();
    let at = absolute(t.value());
    assert(u * (at + 0x80_0000) == u * at + 0x80_0000 * u) by (nonlinear_arith);
    assert(absolute(ut) == u * at) by (nonlinear_arith)
        requires
            ut == u * t.value(),
            at == t.value() || at == -t.value(),
            at >= 0,
            u > 0,
            absolute(ut) == ut || absolute(ut) == -ut,
            absolute(ut) >= 0,
    {
        assert(u * at >= 0);
        assert(u * (-t.value()) == -(u * t.value()));
    }
    assert(absolute(ut) <= 2 * z + u);
    assert(0xff_ffff * absolute(ut - rv) <= 2 * z + 0x100_0000 * u);
    let ub = u * b.value();
    let off = absolute(ub - x);
    let c = 8 * size + 0x400_0000 * u;
    assert((j - 1) * c <= 0x1f_ffff * c) by (nonlinear_arith)
        requires
            j - 1 <= 0x1f_ffff,
            c >= 0,
    ;
    assert(off <= size + 0x80_0000 * u);
    let a = b.value() + t.value();
    let ua = u * a;
    assert(ua == ub + ut) by (nonlinear_arith)
        requires
            ua == u * a,
            a == b.value() + t.value(),
            ub == u * b.value(),
            ut == u * t.value(),
    ;
    assert(absolute(ua) <= 2 * size + 2 * z + 0x80_0001 * u);
    let aa = absolute(a);
    assert(absolute(ua) == u * aa) by (nonlinear_arith)
        requires
            ua == u * a,
            aa == a || aa == -a,
            aa >= 0,
            u > 0,
            absolute(ua) == ua || absolute(ua) == -ua,
            absolute(ua) >= 0,
    {
        assert(u * aa >= 0);
        assert(u * (-a) == -(u * a));
    }
    lemma2_to64();
    lemma_pow2_strictly_increases(32, 270);
    assert(aa <= pow2(276)) by (nonlinear_arith)
        requires
            u * aa <= 2 * (u * pow2(270)) + 0x80_0001 * u,
            u > 0,
            2 * pow2(270) + 0x80_0001 <= pow2(276),
    {
        assert(2 * (u * pow2(270)) + 0x80_0001 * u == u * (2 * pow2(270) + 0x80_0001));
        if aa > pow2(276) {
            assert(u * aa > u * (2 * pow2(270) + 0x80_0001));
        }
    }
    lemma_sum_error_of(b, t);
    let r = b.plus(t).value();
    let w = absolute(r - a);
    assert(0xff_ffff * w <= aa);
    assert(0xff_ffff * (u * w) <= u * aa) by (nonlinear_arith)
        requires
            0xff_ffff * w <= aa,
            u > 0,
    {
        assert(u * (0xff_ffff * w) <= u * aa);
        assert(u * (0xff_ffff * w) == 0xff_ffff * (u * w));
    }
    let ur = u * r;
    assert(absolute(ur - ua) == u * w) by (nonlinear_arith)
        requires
            ur == u * r,
            ua == u * a,
            w == r - a || w == a - r,
            w >= 0,
            u > 0,
            absolute(ur - ua) == ur - ua || absolute(ur - ua) == ua - ur,
            absolute(ur - ua) >= 0,
    {
        assert(u * (r - a) == ur - ua);
        assert(u * (a - r) == ua - ur);
        assert(u * w >= 0);
    }
    assert(absolute(ur - (x + rv)) <= u * w + off + absolute(ut - rv));
    let e = 8 * all + 0x400_0000 * u;
    assert((j - 1) * c <= (j - 1) * e) by (nonlinear_arith)
        requires
            j >= 1,
            c <= e,
    ;
    assert((j - 1) * e + e == j * e) by (nonlinear_arith);
}

proof fn lemma_boosted_error(start: F32, trees: Seq<Shape>, rate: F32, row: Seq<u8>)
    requires
        start.finite(),
        rate.finite(),
        trees.len() <= 0x20_0000,
        forall|r: int| 0 <= r < trees.len() ==> (#[trigger] trees[r]).eval(row).finite(),
        pow2(149) * absolute(start.value()) + absolute(rate.value()) * leaf_size(trees, row)
            <= pow2(149) * pow2(270),
    ensures
        boosted(start, trees, rate, row).finite(),
        0xff_ffff * absolute(
            pow2(149) * boosted(start, trees, rate, row).value() - (pow2(149) * start.value()
                + rate.value() * leaf_sum(trees, row)),
        ) <= trees.len() * (8 * (pow2(149) * absolute(start.value()) + absolute(rate.value())
            * leaf_size(trees, row)) + 0x400_0000 * pow2(149)),
        absolute(pow2(149) * start.value() + rate.value() * leaf_sum(trees, row)) <= pow2(149)
            * absolute(start.value()) + absolute(rate.value()) * leaf_size(trees, row),
    decreases trees.len(),
{
    let u = pow2(149) as int;
    let (s, q) = (start.value(), rate.value());
    let (za, zq) = (absolute(s), absolute(q));
    lemma_pow2_pos(149);
    lemma_leaf_size(trees, row);
    if trees.len() == 0 {
        assert(q * 0 == 0 && zq * 0 == 0) by (nonlinear_arith);
        assert(absolute(u * s) == u * za) by (nonlinear_arith)
            requires
                za == s || za == -s,
                za >= 0,
                u > 0,
                absolute(u * s) == u * s || absolute(u * s) == -(u * s),
                absolute(u * s) >= 0,
        {
            assert(u * za >= 0);
            assert(u * (-s) == -(u * s));
        }
        assert(0 * (8 * (u * za) + 0x400_0000 * u) == 0) by (nonlinear_arith);
    } else {
        let rest = trees.drop_last();
        let j = trees.len() as int;
        let v = trees.last().eval(row);
        assert(trees.last() == trees[j - 1]);
        assert forall|r: int| 0 <= r < rest.len() implies (#[trigger] rest[r]).eval(
            row,
        ).finite() by {
            assert(rest[r] == trees[r]);
        }
        let (ls, lz) = (leaf_sum(rest, row), leaf_size(rest, row));
        let w = v.value();
        let aw = absolute(w);
        assert(q * (ls + w) == q * ls + q * w && zq * (lz + aw) == zq * lz + zq * aw && absolute(
            q * w,
        ) == zq * aw) by (nonlinear_arith)
            requires
                zq == q || zq == -q,
                zq >= 0,
                aw == w || aw == -w,
                aw >= 0,
                absolute(q * w) == q * w || absolute(q * w) == -(q * w),
                absolute(q * w) >= 0,
        {
            assert(zq * aw >= 0);
            assert(q * (-w) == -(q * w));
            assert((-q) * w == -(q * w));
            assert((-q) * (-w) == q * w);
        }
        lemma_leaf_size(rest, row);
        assert(zq * aw >= 0) by (nonlinear_arith)
            requires
                zq >= 0,
                aw >= 0,
        ;
        lemma_boosted_error(start, rest, rate, row);
        let x = u * s + q * ls;
        let size = u * za + zq * lz;
        lemma_score_step(boosted(start, rest, rate, row), rate, v, x, size, j);
    }
}

/// A score is the starting score and the learning rate times the sum of all trees' values for the
/// row, up to rounding.
pub proof fn law_score_adds_up_all_trees(m: Model, o: int, row: Seq<F32>)
    requires
        0 <= o < m.base.len(),
        m.base[o].finite(),
        m.rate.finite(),
        m.trees[o].len() <= 0x20_0000,
        forall|r: int|
            0 <= r < m.trees[o].len() ==> (#[trigger] m.trees[o][r]).eval(m.bins(row)).finite(),
        pow2(149) * absolute(m.base[o].value()) + absolute(m.rate.value()) * leaf_size(
            m.trees[o],
            m.bins(row),
        ) <= pow2(149) * pow2(270),
    ensures
        m.scores(row).len() == m.base.len(),
        m.scores(row)[o].finite(),
        0xff_ffff * absolute(
            pow2(149) * m.scores(row)[o].value() - (pow2(149) * m.base[o].value() + m.rate.value()
                * leaf_sum(m.trees[o], m.bins(row))),
        ) <= m.trees[o].len() * (8 * (pow2(149) * absolute(m.base[o].value()) + absolute(
            m.rate.value(),
        ) * leaf_size(m.trees[o], m.bins(row))) + 0x400_0000 * pow2(149)),
{
    lemma_boosted_error(m.base[o], m.trees[o], m.rate, m.bins(row));
}

/// The bins of a row say on which side of each edge its values lie: bin `t` or an earlier one means
/// that edge `t` is not below the value.
pub proof fn law_bins_are_thresholds(
    x: Seq<F32>,
    y: Seq<F32>,
    n: nat,
    d: nat,
    obj: Obj,
    p: GbmParams,
    base: Seq<F32>,
    trace: Seq<Seq<F32>>,
    row: Seq<F32>,
    f: int,
    t: int,
)
    requires
        x.len() == n * d,
        numeric(x),
        0 <= f < d,
    ensures
        ({
            let m = task_of(x, y, n, d, obj, p).model(base, trace);
            &&& m.edges.len() == d
            &&& m.bins(row).len() == d
            &&& 0 <= t < m.edges[f].len() ==> (m.bins(row)[f] <= t <==> !m.edges[f][t].below(
                row[f],
            ))
            &&& m.bins(row)[f] <= m.edges[f].len()
        }),
{
    let m = task_of(x, y, n, d, obj, p).model(base, trace);
    law_fitted_edges_ascend(x, n, d, p.bin_limit(), f);
    law_bins_are_bounded(x, n, d, p.bin_limit(), f);
    law_bin_is_in_range(m.edges[f], row[f]);
    if 0 <= t < m.edges[f].len() {
        law_split_is_a_threshold(m.edges[f], row[f], t);
    }
}

/// Whether a threshold leaves enough rows on both sides and a bin on either side.
pub open spec fn allowed(s: Samples, min_leaf: nat, idx: Seq<usize>, f: int, b: int) -> bool {
    &&& 0 <= f < s.d
    &&& 0 <= b < s.bins[f] - 1
    &&& rows_of(s, idx, f, b, true).len() >= min_leaf
    &&& rows_of(s, idx, f, b, false).len() >= min_leaf
}

/// Whether the gains of all allowed splits are numbers.
pub open spec fn gains_are_numbers(s: Samples, min_leaf: nat, idx: Seq<usize>) -> bool {
    forall|f: int, b: int|
        allowed(s, min_leaf, idx, f, b) ==> !(#[trigger] s.gain(idx, f, b)).nan()
}

/// Whether a tree is grown greedily on some rows: it splits wherever it may, at the allowed split
/// with the largest gain (the first of equals), if that is more than 1e-6.
pub open spec fn greedy(
    s: Samples,
    max_depth: nat,
    min_leaf: nat,
    shape: Shape,
    idx: Seq<usize>,
    depth: nat,
) -> bool
    decreases shape,
{
    let least = ratio(1, 1_000_000);
    match shape {
        Shape::Leaf { value } => depth >= max_depth || idx.len() < 2 * min_leaf || (
        gains_are_numbers(s, min_leaf, idx) ==> forall|f: int, b: int|
            allowed(s, min_leaf, idx, f, b) ==> !least.below(#[trigger] s.gain(idx, f, b))),
        Shape::Split { feature, threshold, value, left, right } => {
            let (f, b) = (feature as int, threshold as int);
            let best = s.gain(idx, f, b);
            &&& depth < max_depth
            &&& idx.len() >= 2 * min_leaf
            &&& allowed(s, min_leaf, idx, f, b)
            &&& least.below(best)
            &&& gains_are_numbers(s, min_leaf, idx) ==> forall|g: int, c: int|
                allowed(s, min_leaf, idx, g, c) ==> {
                    let other = #[trigger] s.gain(idx, g, c);
                    other.below(best) || (other.at_most(best) && !precedes(g, c, f, b))
                }
            &&& greedy(s, max_depth, min_leaf, *left, rows_of(s, idx, f, b, true), depth + 1)
            &&& greedy(s, max_depth, min_leaf, *right, rows_of(s, idx, f, b, false), depth + 1)
        },
    }
}

/// Trees are grown greedily.
pub proof fn law_trees_are_grown_greedily(s: Samples, idx: Seq<usize>, depth: nat)
    requires
        s.bins.len() == s.d,
        forall|g: int| 0 <= g < s.d ==> 1 <= #[trigger] s.bins[g] <= 256,
    ensures
        greedy(s, s.max_depth, s.min_leaf, s.grown(idx, depth), idx, depth),
    decreases s.max_depth - depth,
{
    let least = ratio(1, 1_000_000);
    assert forall|f: int, b: int|
        0 <= f < s.d && 0 <= b < s.bins[f] - 1 implies #[trigger] allowed(
        s,
        s.min_leaf,
        idx,
        f,
        b,
    ) == s.eligible(idx, f, b) by {
        law_eligible_splits_leave_enough_rows(s, idx, f, b);
    }
    lemma_best_is_candidate(s, idx, s.d, 0);
    if gains_are_numbers(s, s.min_leaf, idx) {
        assert forall|g: int, t: int|
            0 <= g < s.d && 0 <= t < s.bins[g] - 1 && s.eligible(idx, g, t) implies !(
        #[trigger] s.gain(idx, g, t)).nan() by {
            assert(allowed(s, s.min_leaf, idx, g, t));
        }
        law_best_split_is_optimal(s, idx);
    }
    if depth >= s.max_depth || idx.len() < 2 * s.min_leaf {
    } else {
        match s.best_split(idx) {
            None => {
                if gains_are_numbers(s, s.min_leaf, idx) {
                    assert forall|f: int, b: int|
                        allowed(s, s.min_leaf, idx, f, b) implies !least.below(
                        #[trigger] s.gain(idx, f, b),
                    ) by {
                        assert(s.eligible(idx, f, b));
                    }
                }
            },
            Some((f, t)) => {
                let (f, b) = (f as int, t as int);
                lemma_side_rows(s, idx, f, b, true);
                lemma_side_rows(s, idx, f, b, false);
                law_trees_are_grown_greedily(s, s.side(idx, f, b, true), depth + 1);
                law_trees_are_grown_greedily(s, s.side(idx, f, b, false), depth + 1);
                assert(allowed(s, s.min_leaf, idx, f, b));
                if gains_are_numbers(s, s.min_leaf, idx) {
                    let best = s.gain(idx, f, b);
                    assert forall|g: int, c: int|
                        allowed(s, s.min_leaf, idx, g, c) implies {
                        let other = #[trigger] s.gain(idx, g, c);
                        other.below(best) || (other.at_most(best) && !precedes(g, c, f, b))
                    } by {
                        assert(s.eligible(idx, g, c));
                    }
                }
            },
        }
    }
}

/// The tree that a round adds for an output.
proof fn lemma_added_tree(
    task: Task,
    st: Progress,
    grad: Seq<F32>,
    hess: Seq<F32>,
    count: nat,
    o: int,
)
    requires
        0 <= o < count <= st.trees.len(),
    ensures
        ({
            let next = task.after_outputs(st, grad, hess, count);
            &&& next.trees.len() == st.trees.len()
            &&& next.trees[o].len() == st.trees[o].len() + 1
            &&& next.trees[o].last() == task.next_tree(
                task.after_outputs(st, grad, hess, o as nat),
                grad,
                hess,
                o,
            )
        }),
    decreases count,
{
    let c = count - 1;
    if o < c {
        lemma_added_tree(task, st, grad, hess, c as nat, o);
    } else {
        lemma_outputs_extend(task, st, grad, hess, c as nat, o);
    }
}

/// The scores that a model gives the rows of a table.
pub open spec fn table_scores(m: Model, x: Seq<F32>, n: nat, d: nat) -> Seq<F32> {
    let k = m.base.len() as int;
    Seq::new(n * m.base.len(), |q: int| m.scores(row_of(x, q / k, d as int))[q % k])
}

/// Whether a tree is what a round adds for output `o`: it is grown greedily, within the given
/// limits, on rows drawn without repetition, with the derivatives of the loss at the scores of the
/// model so far; and it gives each of these rows the Newton step over those of the rows that end in
/// the same leaf.
pub open spec fn fits_round(
    x: Seq<F32>,
    y: Seq<F32>,
    n: nat,
    d: nat,
    obj: Obj,
    p: GbmParams,
    before: Model,
    exps: Seq<F32>,
    o: int,
    tree: Shape,
    s: Samples,
    idx: Seq<usize>,
) -> bool {
    let k = obj.outputs() as int;
    let raw = table_scores(before, x, n, d);
    &&& idx.no_duplicates()
    &&& rows_below(idx, n)
    &&& s.d == d
    &&& s.lambda == p.lambda
    &&& s.grad == Seq::new(n, |i: int| obj.gradients(raw, exps, y)[i * k + o])
    &&& s.hess == Seq::new(n, |i: int| obj.hessians(exps, y)[i * k + o])
    &&& s.bins == Seq::new(d, |f: int| before.edges[f].len() + 1)
    &&& s.binned.len() == n * d
    &&& forall|i: int, f: int, t: int|
        0 <= i < n && 0 <= f < d && 0 <= t < before.edges[f].len() ==> ((
        #[trigger] s.binned[i * d + f]) <= t <==> !(#[trigger] before.edges[f][t]).below(
            x[i * d + f],
        ))
    &&& greedy(
        s,
        p.max_depth as nat,
        if p.min_samples_leaf < 1 {
            1
        } else {
            p.min_samples_leaf as nat
        },
        tree,
        idx,
        0,
    )
    &&& forall|i: usize|
        idx.contains(i) ==> {
            let mates = #[trigger] leaf_mates(s.binned, d, tree, idx, i);
            steady(s.grad, s.hess, s.lambda, mates) ==> newton_step(
                tree.eval(before.bins(row_of(x, i as int, d as int))).value(),
                sum_at(s.grad, mates),
                size_at(s.grad, mates),
                sum_at(s.hess, mates) + s.lambda.value(),
                mates.len() as int,
            )
        }
}

/// How many trees training grows before that of round `r` for output `o`.
pub open spec fn trees_before(r: int, obj: Obj, o: int) -> nat {
    (r * obj.outputs() + o) as nat
}

proof fn lemma_outputs_draw(
    task: Task,
    st: Progress,
    grad: Seq<F32>,
    hess: Seq<F32>,
    count: nat,
)
    ensures
        task.after_outputs(st, grad, hess, count).seed == state_after(
            st.seed,
            count * sample_draws(task.n, task.sample_size()),
        ),
    decreases count,
{
    let draws = sample_draws(task.n, task.sample_size());
    lemma_state_after_adds(st.seed, 0, 0);
    assert(0 * draws == 0);
    if count > 0 {
        let c = (count - 1) as nat;
        lemma_outputs_draw(task, st, grad, hess, c);
        lemma_state_after_adds(st.seed, c * draws, draws);
        assert(c * draws + draws == count * draws) by (nonlinear_arith)
            requires
                c + 1 == count,
        ;
    }
}

proof fn lemma_rounds_draw(task: Task, st: Progress, trace: Seq<Seq<F32>>)
    ensures
        task.after_rounds(st, trace).seed == state_after(
            st.seed,
            (trace.len() * task.obj.outputs()) * sample_draws(task.n, task.sample_size()),
        ),
    decreases trace.len(),
{
    let draws = sample_draws(task.n, task.sample_size());
    let k = task.obj.outputs();
    lemma_state_after_adds(st.seed, 0, 0);
    assert(0 * k == 0 && 0 * draws == 0);
    if trace.len() > 0 {
        let rest = trace.drop_last();
        let before = task.after_rounds(st, rest);
        lemma_rounds_draw(task, st, rest);
        lemma_outputs_draw(
            task,
            before,
            task.obj.gradients(before.raw, trace.last(), task.y),
            task.obj.hessians(trace.last(), task.y),
            k,
        );
        lemma_state_after_adds(st.seed, (rest.len() * k) * draws, k * draws);
        let (a, b) = (rest.len(), trace.len());
        assert((a * k) * draws + k * draws == (b * k) * draws) by (nonlinear_arith)
            requires
                a + 1 == b,
        ;
    }
}

/// What training does in each round, for each output: it adds a tree that fits the derivatives at
/// the scores of the model so far, grown on as many rows as the share asks for. The rows are drawn
/// with the generator of the given seed, which each tree goes on with where the last one stopped.
pub proof fn law_each_round_fits_the_model_so_far(
    x: Seq<F32>,
    y: Seq<F32>,
    n: nat,
    d: nat,
    obj: Obj,
    p: GbmParams,
    base: Seq<F32>,
    trace: Seq<Seq<F32>>,
    r: int,
    o: int,
)
    requires
        x.len() == n * d,
        y.len() == n,
        n <= usize::MAX,
        numeric(x),
        base.len() == obj.outputs(),
        0 <= r < trace.len(),
        0 <= o < obj.outputs(),
    ensures
        ({
            let task = task_of(x, y, n, d, obj, p);
            let tree = task.model(base, trace).trees[o][r];
            let before = task.model(base, trace.take(r));
            &&& task.model(base, trace).edges == before.edges
            &&& exists|s: Samples, idx: Seq<usize>|
                idx.len() == (if task.sample_size() < n {
                    task.sample_size()
                } else {
                    n
                }) && idx == sample(
                    n,
                    task.sample_size(),
                    state_after(p.seed, trees_before(r, obj, o) * idx.len()),
                ) && #[trigger] fits_round(
                    x,
                    y,
                    n,
                    d,
                    obj,
                    p,
                    before,
                    trace[r],
                    o,
                    tree,
                    s,
                    idx,
                )
        }),
{
    let task = task_of(x, y, n, d, obj, p);
    let k = obj.outputs() as int;
    let m = task.model(base, trace);
    let before = task.model(base, trace.take(r));
    let st = task.after_rounds(task.start(base), trace.take(r));
    let raw = table_scores(before, x, n, d);
    lemma_task_sound(x, y, n, d, obj, p);
    law_model_keeps_limits(x, y, n, d, obj, p, base, trace.take(r));
    assert(st.raw =~= raw) by {
        lemma_after_rounds(task, base, trace.take(r));
        assert forall|q: int| 0 <= q < n * k implies #[trigger] st.raw[q] == raw[q] by {
            lemma_row_column(q, n as int, k);
            law_model_reproduces_training_scores(
                x,
                y,
                n,
                d,
                obj,
                p,
                base,
                trace.take(r),
                q / k,
                q % k,
            );
        }
    }
    let grad = obj.gradients(raw, trace[r], y);
    let hess = obj.hessians(trace[r], y);
    // The tree of round `r` is the last one after `r + 1` rounds.
    let next = trace.take(r + 1);
    assert(next.drop_last() =~= trace.take(r));
    assert(next.last() == trace[r]);
    lemma_rounds_extend(task, task.start(base), trace, (r + 1) as nat, o);
    lemma_added_tree(task, st, grad, hess, obj.outputs(), o);
    let tree = m.trees[o][r];
    let now = task.after_outputs(st, grad, hess, o as nat);
    assert(tree == task.next_tree(now, grad, hess, o)) by {
        let trees = task.after_rounds(task.start(base), next).trees[o];
        assert(m.trees[o].take(r + 1) == trees);
        assert(m.trees[o].take(r + 1)[r] == m.trees[o][r]);
        assert(trees.len() == r + 1);
    }
    let s = task.samples(grad, hess, o);
    let idx = sample(n, task.sample_size(), now.seed);
    lemma_rounds_draw(task, task.start(base), trace.take(r));
    lemma_outputs_draw(task, st, grad, hess, o as nat);
    let draws = sample_draws(n, task.sample_size());
    lemma_state_after_adds(p.seed, (r * obj.outputs()) as nat * draws, o as nat * draws);
    assert((r * obj.outputs()) as nat * draws + o as nat * draws == trees_before(r, obj, o)
        * draws) by (nonlinear_arith)
        requires
            r >= 0,
            o >= 0,
            trees_before(r, obj, o) == r * obj.outputs() + o,
            (r * obj.outputs()) as nat == r * obj.outputs(),
    ;
    law_sample_is_distinct(n, task.sample_size(), now.seed);
    assert forall|g: int| 0 <= g < s.d implies 1 <= #[trigger] s.bins[g] <= 256 by {
        assert(task.edges[g].len() <= 255);
    }
    law_trees_are_grown_greedily(s, idx, 0);
    assert forall|i: int, f: int, t: int|
        0 <= i < n && 0 <= f < d && 0 <= t < before.edges[f].len() implies ((
    #[trigger] s.binned[i * d + f]) <= t <==> !(#[trigger] before.edges[f][t]).below(
        x[i * d + f],
    )) by {
        lemma_cell(i, f, n as int, d as int);
        lemma_position(i, f, d as int);
        law_fitted_edges_ascend(x, n, d, p.bin_limit(), f);
        law_bins_are_bounded(x, n, d, p.bin_limit(), f);
        law_bin_is_in_range(before.edges[f], x[i * d + f]);
        law_split_is_a_threshold(before.edges[f], x[i * d + f], t);
    }
    assert forall|i: usize| idx.contains(i) implies {
        let mates = #[trigger] leaf_mates(s.binned, d, tree, idx, i);
        steady(s.grad, s.hess, s.lambda, mates) ==> newton_step(
            tree.eval(before.bins(row_of(x, i as int, d as int))).value(),
            sum_at(s.grad, mates),
            size_at(s.grad, mates),
            sum_at(s.hess, mates) + s.lambda.value(),
            mates.len() as int,
        )
    } by {
        let mates = leaf_mates(s.binned, d, tree, idx, i);
        if steady(s.grad, s.hess, s.lambda, mates) {
            law_tree_gives_newton_steps(s, n, idx, 0, i);
            lemma_binned_row(x, y, n, d, obj, p, base, trace.take(r), i as int);
        }
    }
    assert(fits_round(x, y, n, d, obj, p, before, trace[r], o, tree, s, idx));
}

/// The bins of a training row are the same in the table and to the model.
proof fn lemma_binned_row(
    x: Seq<F32>,
    y: Seq<F32>,
    n: nat,
    d: nat,
    obj: Obj,
    p: GbmParams,
    base: Seq<F32>,
    trace: Seq<Seq<F32>>,
    i: int,
)
    requires
        x.len() == n * d,
        0 <= i < n,
    ensures
        ({
            let task = task_of(x, y, n, d, obj, p);
            task.model(base, trace).bins(row_of(x, i, d as int)) == row_of(
                task.binned,
                i,
                d as int,
            )
        }),
{
    let task = task_of(x, y, n, d, obj, p);
    let m = task.model(base, trace);
    let row = row_of(x, i, d as int);
    lemma_row_start(i, n as int, d as int);
    assert forall|f: int| 0 <= f < d implies #[trigger] m.bins(row)[f] == row_of(
        task.binned,
        i,
        d as int,
    )[f] by {
        lemma_cell(i, f, n as int, d as int);
        lemma_position(i, f, d as int);
    }
    assert(m.bins(row) =~= row_of(task.binned, i, d as int));
}

/// Whether the exponentials of each round are those that the loss asks for at the scores of the
/// model so far.
pub open spec fn rounds_follow<E: Fn(F32) -> F32>(
    x: Seq<F32>,
    n: nat,
    d: nat,
    obj: Obj,
    task: Task,
    base: Seq<F32>,
    exp: E,
    trace: Seq<Seq<F32>>,
) -> bool {
    forall|r: int|
        0 <= r < trace.len() ==> applied(
            exp,
            obj.exp_inputs_of(table_scores(task.model(base, trace.take(r)), x, n, d), n),
            #[trigger] trace[r],
        )
}

proof fn lemma_traced_rounds<E: Fn(F32) -> F32>(
    x: Seq<F32>,
    y: Seq<F32>,
    n: nat,
    d: nat,
    obj: Obj,
    p: GbmParams,
    base: Seq<F32>,
    exp: E,
    trace: Seq<Seq<F32>>,
)
    requires
        x.len() == n * d,
        y.len() == n,
        base.len() == obj.outputs(),
        ({
            let task = task_of(x, y, n, d, obj, p);
            task.traced(exp, task.start(base), trace)
        }),
    ensures
        rounds_follow(x, n, d, obj, task_of(x, y, n, d, obj, p), base, exp, trace),
    decreases trace.len(),
{
    let task = task_of(x, y, n, d, obj, p);
    let k = obj.outputs() as int;
    if trace.len() > 0 {
        let rest = trace.drop_last();
        let st = task.after_rounds(task.start(base), rest);
        let before = task.model(base, rest);
        let raw = table_scores(before, x, n, d);
        lemma_traced_rounds(x, y, n, d, obj, p, base, exp, rest);
        lemma_task_sound(x, y, n, d, obj, p);
        lemma_after_rounds(task, base, rest);
        assert forall|q: int| 0 <= q < n * k implies #[trigger] st.raw[q] == raw[q] by {
            lemma_row_column(q, n as int, k);
            law_model_reproduces_training_scores(
                x,
                y,
                n,
                d,
                obj,
                p,
                base,
                rest,
                q / k,
                q % k,
            );
        }
        assert(st.raw =~= raw);
        assert forall|r: int| 0 <= r < trace.len() implies applied(
            exp,
            obj.exp_inputs_of(table_scores(task.model(base, trace.take(r)), x, n, d), n),
            #[trigger] trace[r],
        ) by {
            if r < rest.len() {
                assert(rest[r] == trace[r]);
                assert(rest.take(r) =~= trace.take(r));
            } else {
                assert(trace.take(r) =~= rest);
            }
        }
    }
}

/// How a fitted classifier came about: there are exponentials for each round, which are those that
/// the loss asks for at the scores of the model so far, and the model is what these rounds lead to
/// from its starting scores.
#[verifier::spinoff_prover]
pub proof fn law_classifier_follows_its_rounds<E: Fn(F32) -> F32, L: Fn(F32) -> F32>(
    x: Seq<F32>,
    y: Seq<F32>,
    n: nat,
    d: nat,
    p: GbmParams,
    exp: E,
    ln: L,
    m: ClassModel,
)
    requires
        x.len() == n * d,
        y.len() == n,
        top_label(y).whole() < usize::MAX,
        may_fit(x, y, n, d, p, exp, ln, m),
    ensures
        ({
            let obj = class_loss(y);
            let task = task_of(x, y, n, d, obj, p);
            exists|trace: Seq<Seq<F32>>|
                trace.len() == p.n_estimators && #[trigger] rounds_follow(
                    x,
                    n,
                    d,
                    obj,
                    task,
                    m.model.base,
                    exp,
                    trace,
                ) && m.model == task.model(m.model.base, trace)
        }),
{
    let obj = class_loss(y);
    let task = task_of(x, y, n, d, obj, p);
    let logs = choose|logs: Seq<F32>| #[trigger]
        applied(ln, obj.log_inputs(y), logs) && task.leads_to(exp, obj.base(y, logs), m.model);
    let base = obj.base(y, logs);
    let trace = choose|trace: Seq<Seq<F32>>|
        trace.len() == p.n_estimators && #[trigger] task.traced(exp, task.start(base), trace)
            && m.model == task.model(base, trace);
    assert(obj.log_inputs(y).len() == obj.outputs());
    assert(base == logs && base == m.model.base);
    lemma_traced_rounds(x, y, n, d, obj, p, base, exp, trace);
    assert(rounds_follow(x, n, d, obj, task, m.model.base, exp, trace));
}

} // verus!
