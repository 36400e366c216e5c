//! What training keeps: the scores, the limits and the bins of a model.

use crate::bins::{bin_of, edges_ascend, law_bin_is_in_range};
use crate::booster::{boosted, lemma_task_sound, task_of, Model, Progress, Task};
use crate::float::F32;
use crate::grid::{lemma_cell, lemma_position, lemma_row_column, lemma_row_start, row_of};
use crate::objective::{mean, Obj};
use crate::params::GbmParams;
use crate::regressor::{quiet, regression};
use crate::rng::sample;
use crate::split::law_grown_keeps_limits;
use crate::tree::Shape;
use vstd::prelude::*;

verus! {

/// Whether every score is its starting score with the contributions of its output's trees.
pub open spec fn scores_explained(task: Task, base: Seq<F32>, st: Progress) -> bool {
    let k = task.obj.outputs() as int;
    forall|p: int|
        0 <= p < task.n * k ==> #[trigger] st.raw[p] == boosted(
            base[p % k],
            st.trees[p % k],
            task.p.learning_rate,
            row_of(task.binned, p / k, task.d as int),
        )
}

proof fn lemma_with_tree_explained(task: Task, base: Seq<F32>, st: Progress, tree: Shape, o: int)
    requires
        0 <= o < task.obj.outputs(),
        st.raw.len() == task.n * task.obj.outputs(),
        st.trees.len() == task.obj.outputs(),
        scores_explained(task, base, st),
    ensures
        scores_explained(task, base, task.with_tree(st, tree, o)),
{
    let k = task.obj.outputs() as int;
    let next = task.with_tree(st, tree, o);
    assert forall|p: int| 0 <= p < task.n * k implies #[trigger] next.raw[p] == boosted(
        base[p % k],
        next.trees[p % k],
        task.p.learning_rate,
        row_of(task.binned, p / k, task.d as int),
    ) by {
        lemma_row_column(p, task.n as int, k);
        assert(st.raw[p] == boosted(
            base[p % k],
            st.trees[p % k],
            task.p.learning_rate,
            row_of(task.binned, p / k, task.d as int),
        ));
        if p % k == o {
            assert(next.trees[o].drop_last() =~= st.trees[o]);
        }
    }
}

/// The number of bins of each feature.
pub open spec fn bin_counts(task: Task) -> Seq<nat> {
    Seq::new(task.d, |f: int| task.edges[f].len() + 1)
}

/// Whether all trees stay within the limits: they read features that exist, leave bins on both sides
/// of each split, and are no deeper than allowed.
pub open spec fn trees_within_limits(task: Task, trees: Seq<Seq<Shape>>) -> bool {
    forall|o: int, r: int|
        0 <= o < trees.len() && 0 <= r < trees[o].len() ==> {
            &&& (#[trigger] trees[o][r]).reads_below(task.d)
            &&& trees[o][r].cuts_within(bin_counts(task))
            &&& trees[o][r].depth() <= task.p.max_depth
        }
}

/// Whether every output has the same number of trees.
pub open spec fn trees_per_output(trees: Seq<Seq<Shape>>, count: nat) -> bool {
    forall|o: int| 0 <= o < trees.len() ==> (#[trigger] trees[o]).len() == count
}

proof fn lemma_after_outputs(
    task: Task,
    base: Seq<F32>,
    st: Progress,
    grad: Seq<F32>,
    hess: Seq<F32>,
    count: nat,
    rounds: nat,
)
    requires
        count <= task.obj.outputs(),
        st.raw.len() == task.n * task.obj.outputs(),
        st.trees.len() == task.obj.outputs(),
        scores_explained(task, base, st),
        trees_within_limits(task, st.trees),
        trees_per_output(st.trees, rounds),
        task.sound(),
    ensures
        ({
            let next = task.after_outputs(st, grad, hess, count);
            &&& next.raw.len() == task.n * task.obj.outputs()
            &&& next.trees.len() == task.obj.outputs()
            &&& scores_explained(task, base, next)
            &&& trees_within_limits(task, next.trees)
            &&& forall|o: int|
                0 <= o < next.trees.len() ==> (#[trigger] next.trees[o]).len() == (if o < count {
                    rounds + 1
                } else {
                    rounds
                })
        }),
    decreases count,
{
    if count > 0 {
        let c = (count - 1) as nat;
        lemma_after_outputs(task, base, st, grad, hess, c, rounds);
        let before = task.after_outputs(st, grad, hess, c);
        let tree = task.next_tree(before, grad, hess, c as int);
        lemma_with_tree_explained(task, base, before, tree, c as int);
        let s = task.samples(grad, hess, c as int);
        assert forall|f: int| 0 <= f < s.d implies 1 <= #[trigger] s.bins[f] <= 256 by {
            assert(task.edges[f].len() <= 255);
        }
        law_grown_keeps_limits(
            s,
            sample(task.n, task.sample_size(), before.seed),
            0,
        );
        let next = task.after_outputs(st, grad, hess, count);
        assert forall|o: int, r: int|
            0 <= o < next.trees.len() && 0 <= r < next.trees[o].len() implies {
            &&& (#[trigger] next.trees[o][r]).reads_below(task.d)
            &&& next.trees[o][r].cuts_within(bin_counts(task))
            &&& next.trees[o][r].depth() <= task.p.max_depth
        } by {
            if o != c || r < before.trees[o].len() {
                assert(next.trees[o][r] == before.trees[o][r]);
            }
        }
    }
}

/// What holds after any number of rounds.
pub proof fn lemma_after_rounds(task: Task, base: Seq<F32>, trace: Seq<Seq<F32>>)
    requires
        task.sound(),
    ensures
        ({
            let st = task.after_rounds(task.start(base), trace);
            &&& st.raw.len() == task.n * task.obj.outputs()
            &&& st.trees.len() == task.obj.outputs()
            &&& scores_explained(task, base, st)
            &&& trees_within_limits(task, st.trees)
            &&& trees_per_output(st.trees, trace.len())
        }),
    decreases trace.len(),
{
    let k = task.obj.outputs();
    if trace.len() == 0 {
        let st = task.start(base);
        assert forall|p: int| 0 <= p < task.n * k implies #[trigger] st.raw[p] == boosted(
            base[p % k as int],
            st.trees[p % k as int],
            task.p.learning_rate,
            row_of(task.binned, p / k as int, task.d as int),
        ) by {
            lemma_row_column(p, task.n as int, k as int);
        }
    } else {
        lemma_after_rounds(task, base, trace.drop_last());
        let st = task.after_rounds(task.start(base), trace.drop_last());
        lemma_after_outputs(
            task,
            base,
            st,
            task.obj.gradients(st.raw, trace.last(), task.y),
            task.obj.hessians(trace.last(), task.y),
            k,
            (trace.len() - 1) as nat,
        );
    }
}

/// The model gives each training row exactly the scores that training ended with.
pub proof fn law_model_reproduces_training_scores(
    x: Seq<F32>,
    y: Seq<F32>,
    n: nat,
    d: nat,
    obj: Obj,
    p: GbmParams,
    base: Seq<F32>,
    trace: Seq<Seq<F32>>,
    i: int,
    o: int,
)
    requires
        x.len() == n * d,
        y.len() == n,
        base.len() == obj.outputs(),
        0 <= i < n,
        0 <= o < obj.outputs(),
    ensures
        ({
            let task = task_of(x, y, n, d, obj, p);
            task.model(base, trace).scores(row_of(x, i, d as int))[o] == task.after_rounds(
                task.start(base),
                trace,
            ).raw[i * obj.outputs() + o]
        }),
{
    let task = task_of(x, y, n, d, obj, p);
    let k = obj.outputs() as int;
    lemma_task_sound(x, y, n, d, obj, p);
    lemma_after_rounds(task, base, trace);
    lemma_cell(i, o, n as int, k);
    lemma_position(i, o, k);
    lemma_row_start(i, n as int, d as int);
    let m = task.model(base, trace);
    let row = row_of(x, i, d as int);
    assert(m.bins(row) =~= row_of(task.binned, i, d as int)) by {
        assert forall|f: int| 0 <= f < d implies #[trigger] m.bins(row)[f] == row_of(
            task.binned,
            i,
            d as int,
        )[f] by {
            lemma_cell(i, f, n as int, d as int);
            lemma_position(i, f, d as int);
        }
    }
    let st = task.after_rounds(task.start(base), trace);
    assert(st.raw[i * k + o] == boosted(
        base[o],
        st.trees[o],
        p.learning_rate,
        row_of(task.binned, i, d as int),
    ));
}

/// A trained model has one tree per round for each output; its trees read features that exist and
/// are no deeper than `max_depth`.
pub proof fn law_model_keeps_limits(
    x: Seq<F32>,
    y: Seq<F32>,
    n: nat,
    d: nat,
    obj: Obj,
    p: GbmParams,
    base: Seq<F32>,
    trace: Seq<Seq<F32>>,
)
    requires
        x.len() == n * d,
        y.len() == n,
    ensures
        ({
            let task = task_of(x, y, n, d, obj, p);
            let m = task.model(base, trace);
            &&& m.trees.len() == obj.outputs()
            &&& trees_per_output(m.trees, trace.len())
            &&& trees_within_limits(task, m.trees)
        }),
{
    lemma_task_sound(x, y, n, d, obj, p);
    lemma_after_rounds(task_of(x, y, n, d, obj, p), base, trace);
}

/// Without rounds, a regressor predicts the mean of the targets for every row.
pub proof fn law_no_rounds_predict_the_mean(
    x: Seq<F32>,
    y: Seq<F32>,
    n: nat,
    d: nat,
    p: GbmParams,
    row: Seq<F32>,
)
    requires
        p.n_estimators == 0,
    ensures
        regression(x, y, n, d, p).scores(row) == seq![mean(y)],
{
    let m = regression(x, y, n, d, p);
    assert(quiet(0) =~= Seq::empty());
    assert(m.trees[0] =~= Seq::<Shape>::empty());
    assert(m.scores(row) =~= seq![mean(y)]);
}

/// Rows that fall into the same bins get the same scores.
pub proof fn law_scores_depend_on_bins(m: Model, a: Seq<F32>, b: Seq<F32>)
    requires
        forall|f: int|
            0 <= f < m.edges.len() ==> bin_of(#[trigger] m.edges[f], a[f]) == bin_of(
                m.edges[f],
                b[f],
            ),
    ensures
        m.scores(a) == m.scores(b),
{
    assert(m.bins(a) =~= m.bins(b));
}

/// A split at a bin is a threshold on the value: a value falls into one of the first `b + 1` bins
/// exactly where edge `b` is not below it.
pub proof fn law_split_is_a_threshold(edges: Seq<F32>, v: F32, b: int)
    requires
        edges_ascend(edges),
        0 <= b < edges.len(),
    ensures
        bin_of(edges, v) <= b <==> !edges[b].below(v),
    decreases edges.len(),
{
    let rest = edges.drop_last();
    law_bin_is_in_range(rest, v);
    assert forall|i: int, j: int| 0 <= i < j < rest.len() implies (#[trigger] rest[i]).at_most(
        #[trigger] rest[j],
    ) by {
        assert(rest[i] == edges[i] && rest[j] == edges[j]);
    }
    if b < rest.len() {
        law_split_is_a_threshold(rest, v, b);
        assert(rest[b] == edges[b]);
        assert(edges[b].at_most(edges[edges.len() - 1]));
        if edges.last().below(v) {
            assert(edges[b].below(v));
        }
    } else if edges[b].below(v) {
        lemma_all_below(rest, v);
    }
}

proof fn lemma_all_below(edges: Seq<F32>, v: F32)
    requires
        forall|i: int| 0 <= i < edges.len() ==> (#[trigger] edges[i]).below(v),
    ensures
        bin_of(edges, v) == edges.len(),
    decreases edges.len(),
{
    if edges.len() > 0 {
        let rest = edges.drop_last();
        assert forall|i: int| 0 <= i < rest.len() implies (#[trigger] rest[i]).below(v) by {
            assert(rest[i] == edges[i]);
        }
        lemma_all_below(rest, v);
        assert(edges.last() == edges[edges.len() - 1]);
    }
}

/// Each tree is grown on at least one row, if there is one, and on no more rows than there are.
pub proof fn law_sample_size_is_in_range(task: Task)
    ensures
        1 <= task.sample_size(),
        task.n > 0 ==> task.sample_size() <= task.n,
{
}

} // verus!
