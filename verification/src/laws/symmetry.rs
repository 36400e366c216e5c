//! Negated targets give negated predictions.

use crate::booster::{boosted, task_of, Progress, Task};
use crate::float::convert::of_integer;
use crate::float::scale::{
    lemma_negated_is_opposite, lemma_opposite_negated, lemma_opposite_products,
    lemma_opposite_quotients, lemma_opposite_squares, lemma_opposite_sums, opposite,
};
use crate::float::F32;
use crate::grid::row_of;
use crate::grow::rows_below;
use crate::objective::{mean, running_sum, Obj};
use crate::params::GbmParams;
use crate::regressor::{quiet, regression};
use crate::rng::{law_sample_is_distinct, sample};
use crate::split::{lemma_side_members, total, Samples};
use crate::tree::Shape;
use vstd::prelude::*;

verus! {

/// Whether the numbers of two sequences are opposite, one by one.
pub open spec fn opposite_all(a: Seq<F32>, b: Seq<F32>) -> bool {
    &&& a.len() == b.len()
    &&& forall|i: int| 0 <= i < a.len() ==> opposite(#[trigger] a[i], b[i])
}

/// Whether two trees split alike and have opposite values.
pub open spec fn mirrored(a: Shape, b: Shape) -> bool
    decreases a,
{
    match (a, b) {
        (Shape::Leaf { value: v }, Shape::Leaf { value: w }) => opposite(v, w),
        (
            Shape::Split { feature: f, threshold: s, value: v, left: l, right: r },
            Shape::Split { feature: g, threshold: t, value: w, left: m, right: q },
        ) => f == g && s == t && opposite(v, w) && mirrored(*l, *m) && mirrored(*r, *q),
        _ => false,
    }
}

proof fn lemma_mirrored_eval(a: Shape, b: Shape, row: Seq<u8>)
    requires
        mirrored(a, b),
    ensures
        opposite(a.eval(row), b.eval(row)),
    decreases a,
{
    match (a, b) {
        (
            Shape::Split { left: l, right: r, .. },
            Shape::Split { left: m, right: q, .. },
        ) => {
            lemma_mirrored_eval(*l, *m, row);
            lemma_mirrored_eval(*r, *q, row);
        },
        _ => {},
    }
}

/// Whether trees are grown on the same rows with opposite first derivatives.
spec fn facing(s: Samples, t: Samples) -> bool {
    &&& t == (Samples { grad: t.grad, ..s })
    &&& opposite_all(s.grad, t.grad)
}

proof fn lemma_opposite_totals(s: Samples, t: Samples, idx: Seq<usize>)
    requires
        facing(s, t),
        rows_below(idx, s.grad.len()),
    ensures
        opposite(total(s.grad, idx), total(t.grad, idx)),
    decreases idx.len(),
{
    if idx.len() > 0 {
        let rest = idx.drop_last();
        assert forall|k: int| 0 <= k < rest.len() implies #[trigger] rest[k] < s.grad.len() by {
            assert(rest[k] == idx[k]);
        }
        assert(idx.last() == idx[idx.len() - 1]);
        lemma_opposite_totals(s, t, rest);
        let i = idx.last() as int;
        lemma_opposite_sums(total(s.grad, rest), total(t.grad, rest), s.grad[i], t.grad[i]);
    }
}

proof fn lemma_opposite_bins(s: Samples, t: Samples, idx: Seq<usize>, f: int, b: int)
    requires
        facing(s, t),
        rows_below(idx, s.grad.len()),
    ensures
        opposite(s.bin_total(s.grad, idx, f, b), t.bin_total(t.grad, idx, f, b)),
        s.bin_total(s.hess, idx, f, b) == t.bin_total(t.hess, idx, f, b),
    decreases idx.len(),
{
    if idx.len() > 0 {
        let rest = idx.drop_last();
        assert forall|k: int| 0 <= k < rest.len() implies #[trigger] rest[k] < s.grad.len() by {
            assert(rest[k] == idx[k]);
        }
        assert(idx.last() == idx[idx.len() - 1]);
        lemma_opposite_bins(s, t, rest, f, b);
        let i = idx.last() as int;
        lemma_opposite_sums(
            s.bin_total(s.grad, rest, f, b),
            t.bin_total(t.grad, rest, f, b),
            s.grad[i],
            t.grad[i],
        );
    }
}

proof fn lemma_opposite_lefts(s: Samples, t: Samples, idx: Seq<usize>, f: int, b: int)
    requires
        facing(s, t),
        rows_below(idx, s.grad.len()),
    ensures
        opposite(s.left_total(s.grad, idx, f, b), t.left_total(t.grad, idx, f, b)),
        s.left_total(s.hess, idx, f, b) == t.left_total(t.hess, idx, f, b),
    decreases b + 1,
{
    if b >= 0 {
        lemma_opposite_lefts(s, t, idx, f, b - 1);
        lemma_opposite_bins(s, t, idx, f, b);
        lemma_opposite_sums(
            s.left_total(s.grad, idx, f, b - 1),
            t.left_total(t.grad, idx, f, b - 1),
            s.bin_total(s.grad, idx, f, b),
            t.bin_total(t.grad, idx, f, b),
        );
    }
}

proof fn lemma_same_sides(s: Samples, t: Samples, idx: Seq<usize>, f: int, b: int, left: bool)
    requires
        facing(s, t),
    ensures
        s.side(idx, f, b, left) == t.side(idx, f, b, left),
    decreases idx.len(),
{
    if idx.len() > 0 {
        lemma_same_sides(s, t, idx.drop_last(), f, b, left);
    }
}

/// Gains do not depend on the sign of the derivatives.
proof fn lemma_same_gain(s: Samples, t: Samples, idx: Seq<usize>, f: int, b: int)
    requires
        facing(s, t),
        rows_below(idx, s.grad.len()),
    ensures
        s.gain(idx, f, b) == t.gain(idx, f, b),
        s.eligible(idx, f, b) == t.eligible(idx, f, b),
{
    lemma_same_sides(s, t, idx, f, b, true);
    lemma_same_sides(s, t, idx, f, b, false);
    lemma_opposite_totals(s, t, idx);
    lemma_opposite_lefts(s, t, idx, f, b);
    let (g, h) = (total(s.grad, idx), total(t.grad, idx));
    let (gl, hl) = (s.left_total(s.grad, idx, f, b), t.left_total(t.grad, idx, f, b));
    lemma_opposite_negated(gl, hl);
    lemma_opposite_sums(g, h, gl.negated(), hl.negated());
    lemma_opposite_squares(g, h);
    lemma_opposite_squares(gl, hl);
    lemma_opposite_squares(g.minus(gl), h.minus(hl));
}

proof fn lemma_same_best(s: Samples, t: Samples, idx: Seq<usize>, f: nat, b: nat)
    requires
        facing(s, t),
        rows_below(idx, s.grad.len()),
    ensures
        s.best_before(idx, f, b) == t.best_before(idx, f, b),
    decreases f, b,
{
    if b > 0 {
        lemma_same_best(s, t, idx, f, (b - 1) as nat);
        lemma_same_gain(s, t, idx, f as int, b - 1);
    } else if f > 0 {
        lemma_same_best(s, t, idx, (f - 1) as nat, (s.bins[f - 1] - 1) as nat);
    }
}

proof fn lemma_grown_mirrored(s: Samples, t: Samples, idx: Seq<usize>, depth: nat)
    requires
        facing(s, t),
        rows_below(idx, s.grad.len()),
    ensures
        mirrored(s.grown(idx, depth), t.grown(idx, depth)),
    decreases s.max_depth - depth,
{
    lemma_opposite_totals(s, t, idx);
    let (g, h) = (total(s.grad, idx), total(t.grad, idx));
    lemma_opposite_negated(g, h);
    lemma_opposite_quotients(g.negated(), h.negated(), total(s.hess, idx).plus(s.lambda));
    if depth >= s.max_depth || idx.len() < 2 * s.min_leaf {
    } else {
        lemma_same_best(s, t, idx, s.d, 0);
        match s.best_split(idx) {
            None => {},
            Some((f, b)) => {
                let (f, b) = (f as int, b as int);
                lemma_same_sides(s, t, idx, f, b, true);
                lemma_same_sides(s, t, idx, f, b, false);
                lemma_side_members(s, idx, f, b, true, s.grad.len());
                lemma_side_members(s, idx, f, b, false, s.grad.len());
                lemma_grown_mirrored(s, t, s.side(idx, f, b, true), depth + 1);
                lemma_grown_mirrored(s, t, s.side(idx, f, b, false), depth + 1);
            },
        }
    }
}

/// Whether two runs of squared error have opposite scores and mirrored trees.
spec fn opposite_progress(a: Progress, b: Progress) -> bool {
    &&& opposite_all(a.raw, b.raw)
    &&& a.seed == b.seed
    &&& a.trees.len() == 1
    &&& b.trees.len() == 1
    &&& a.trees[0].len() == b.trees[0].len()
    &&& forall|r: int|
        0 <= r < a.trees[0].len() ==> mirrored(#[trigger] a.trees[0][r], b.trees[0][r])
}

proof fn lemma_opposite_round(a: Task, b: Task, st: Progress, su: Progress, exps: Seq<F32>)
    requires
        a.obj is L2,
        b == (Task { y: b.y, ..a }),
        a.n <= usize::MAX,
        a.y.len() == a.n,
        st.raw.len() == a.n,
        opposite_all(a.y, b.y),
        opposite_progress(st, su),
    ensures
        opposite_progress(a.after_round(st, exps), b.after_round(su, exps)),
        a.after_round(st, exps).raw.len() == a.n,
{
    let (g, h) = (a.obj.gradients(st.raw, exps, a.y), b.obj.gradients(su.raw, exps, b.y));
    let (c, e) = (a.obj.hessians(exps, a.y), b.obj.hessians(exps, b.y));
    assert(a.n * 1 == a.n) by (nonlinear_arith);
    assert(a.obj.outputs() == 1);
    assert(c =~= e);
    assert forall|i: int| 0 <= i < a.n implies opposite(#[trigger] g[i], h[i]) by {
        assert(opposite(a.y[i], b.y[i]));
        assert(opposite(st.raw[i], su.raw[i]));
        lemma_opposite_negated(a.y[i], b.y[i]);
        lemma_opposite_sums(
            st.raw[i],
            su.raw[i],
            a.y[i].negated(),
            b.y[i].negated(),
        );
    }
    let (s, t) = (a.samples(g, c, 0), b.samples(h, e, 0));
    assert forall|i: int| 0 <= i < a.n implies opposite(#[trigger] s.grad[i], t.grad[i]) by {
        assert(i * 1 + 0 == i) by (nonlinear_arith);
        assert(opposite(g[i], h[i]));
    }
    assert(t.hess =~= s.hess);
    assert(t.bins =~= s.bins);
    assert(facing(s, t));
    let idx = sample(a.n, a.sample_size(), st.seed);
    law_sample_is_distinct(a.n, a.sample_size(), st.seed);
    lemma_grown_mirrored(s, t, idx, 0);
    let (u, v) = (a.next_tree(st, g, c, 0), b.next_tree(su, h, e, 0));
    assert(mirrored(u, v));
    assert(a.after_outputs(st, g, c, 0) == st);
    assert(b.after_outputs(su, h, e, 0) == su);
    let (x, z) = (a.with_tree(st, u, 0), b.with_tree(su, v, 0));
    assert(a.after_outputs(st, g, c, 1) == x);
    assert(b.after_outputs(su, h, e, 1) == z);
    assert forall|p: int| 0 <= p < x.raw.len() implies opposite(#[trigger] x.raw[p], z.raw[p]) by {
        let row = row_of(a.binned, p, a.d as int);
        assert(p % 1 == 0 && p / 1 == p);
        lemma_mirrored_eval(u, v, row);
        lemma_opposite_products(a.p.learning_rate, u.eval(row), v.eval(row));
        assert(opposite(st.raw[p], su.raw[p]));
        lemma_opposite_sums(
            st.raw[p],
            su.raw[p],
            a.p.learning_rate.times(u.eval(row)),
            a.p.learning_rate.times(v.eval(row)),
        );
    }
    assert forall|r: int| 0 <= r < x.trees[0].len() implies mirrored(
        #[trigger] x.trees[0][r],
        z.trees[0][r],
    ) by {
        if r < st.trees[0].len() {
            assert(mirrored(st.trees[0][r], su.trees[0][r]));
        }
    }
}

proof fn lemma_opposite_rounds(a: Task, b: Task, st: Progress, su: Progress, rounds: nat)
    requires
        a.obj is L2,
        b == (Task { y: b.y, ..a }),
        a.n <= usize::MAX,
        a.y.len() == a.n,
        st.raw.len() == a.n,
        opposite_all(a.y, b.y),
        opposite_progress(st, su),
    ensures
        opposite_progress(
            a.after_rounds(st, quiet(rounds)),
            b.after_rounds(su, quiet(rounds)),
        ),
        a.after_rounds(st, quiet(rounds)).raw.len() == a.n,
    decreases rounds,
{
    if rounds > 0 {
        let q = quiet(rounds);
        let before = quiet((rounds - 1) as nat);
        lemma_opposite_rounds(a, b, st, su, (rounds - 1) as nat);
        assert(q.drop_last() =~= before);
        lemma_opposite_round(
            a,
            b,
            a.after_rounds(st, before),
            b.after_rounds(su, before),
            q.last(),
        );
    }
}

proof fn lemma_opposite_sum_of(a: Seq<F32>, b: Seq<F32>)
    requires
        opposite_all(a, b),
    ensures
        opposite(running_sum(a), running_sum(b)),
    decreases a.len(),
{
    if a.len() > 0 {
        let (c, d) = (a.drop_last(), b.drop_last());
        assert forall|i: int| 0 <= i < c.len() implies opposite(#[trigger] c[i], d[i]) by {
            assert(opposite(a[i], b[i]));
        }
        lemma_opposite_sum_of(c, d);
        assert(opposite(a[a.len() - 1], b[b.len() - 1]));
        lemma_opposite_sums(running_sum(c), running_sum(d), a.last(), b.last());
    }
}

proof fn lemma_opposite_boosted(
    start: F32,
    other: F32,
    a: Seq<Shape>,
    b: Seq<Shape>,
    rate: F32,
    row: Seq<u8>,
)
    requires
        opposite(start, other),
        a.len() == b.len(),
        forall|r: int| 0 <= r < a.len() ==> mirrored(#[trigger] a[r], b[r]),
    ensures
        opposite(boosted(start, a, rate, row), boosted(other, b, rate, row)),
    decreases a.len(),
{
    if a.len() > 0 {
        let (c, d) = (a.drop_last(), b.drop_last());
        assert forall|r: int| 0 <= r < c.len() implies mirrored(#[trigger] c[r], d[r]) by {
            assert(mirrored(a[r], b[r]));
        }
        lemma_opposite_boosted(start, other, c, d, rate, row);
        assert(mirrored(a[a.len() - 1], b[b.len() - 1]));
        lemma_mirrored_eval(a.last(), b.last(), row);
        lemma_opposite_products(rate, a.last().eval(row), b.last().eval(row));
        lemma_opposite_sums(
            boosted(start, c, rate, row),
            boosted(other, d, rate, row),
            rate.times(a.last().eval(row)),
            rate.times(b.last().eval(row)),
        );
    }
}

/// Negating every target negates every prediction, exactly: the two predictions are of the same size
/// and of opposite sign (or zero, or neither is a number).
pub proof fn law_negated_targets_negate_predictions(
    x: Seq<F32>,
    y: Seq<F32>,
    z: Seq<F32>,
    n: nat,
    d: nat,
    p: GbmParams,
    row: Seq<F32>,
)
    requires
        n <= usize::MAX,
        y.len() == n,
        z.len() == n,
        forall|i: int| 0 <= i < n ==> #[trigger] z[i] == y[i].negated(),
    ensures
        opposite(
            regression(x, y, n, d, p).scores(row)[0],
            regression(x, z, n, d, p).scores(row)[0],
        ),
{
    let (a, b) = (task_of(x, y, n, d, Obj::L2, p), task_of(x, z, n, d, Obj::L2, p));
    assert forall|i: int| 0 <= i < n implies opposite(#[trigger] y[i], z[i]) by {
        assert(z[i] == y[i].negated());
        lemma_negated_is_opposite(y[i]);
    }
    lemma_opposite_sum_of(y, z);
    let count = of_integer(
        if n == 0 {
            1
        } else {
            n as int
        },
    );
    lemma_opposite_quotients(running_sum(y), running_sum(z), count);
    let (s, t) = (a.start(seq![mean(y)]), b.start(seq![mean(z)]));
    assert(n * 1 == n) by (nonlinear_arith);
    assert forall|i: int| 0 <= i < s.raw.len() implies opposite(#[trigger] s.raw[i], t.raw[i]) by {
        assert(i % 1 == 0);
    }
    lemma_opposite_rounds(a, b, s, t, p.n_estimators as nat);
    let (k, m) = (regression(x, y, n, d, p), regression(x, z, n, d, p));
    lemma_opposite_boosted(
        mean(y),
        mean(z),
        k.trees[0],
        m.trees[0],
        p.learning_rate,
        k.bins(row),
    );
}

} // verus!
