//! How runs of training with different parameters relate.

use crate::bins::law_bins_are_bounded;
use crate::booster::{task_of, Model, Progress, Task};
use crate::classifier::{class_loss, may_fit, ClassModel};
use crate::float::F32;
use crate::function::applied;
use crate::laws::determinism::{lemma_applied_once, lemma_traced_once, single_valued};
use crate::objective::{mean, Obj};
use crate::params::GbmParams;
use crate::regressor::{quiet, regression};
use vstd::prelude::*;

verus! {

/// Whether two tasks differ at most in where bins are cut, in the bound on their number and in the
/// number of rounds.
pub open spec fn alike(a: Task, b: Task) -> bool {
    &&& a.binned == b.binned
    &&& a.y == b.y
    &&& a.n == b.n
    &&& a.d == b.d
    &&& a.obj == b.obj
    &&& forall|f: int| 0 <= f < a.d ==> (#[trigger] a.edges[f]).len() == b.edges[f].len()
    &&& a.p.learning_rate == b.p.learning_rate
    &&& a.p.max_depth == b.p.max_depth
    &&& a.p.min_samples_leaf == b.p.min_samples_leaf
    &&& a.p.subsample == b.p.subsample
    &&& a.p.lambda == b.p.lambda
    &&& a.p.seed == b.p.seed
}

proof fn lemma_alike_outputs(
    a: Task,
    b: Task,
    st: Progress,
    grad: Seq<F32>,
    hess: Seq<F32>,
    count: nat,
)
    requires
        alike(a, b),
    ensures
        a.after_outputs(st, grad, hess, count) == b.after_outputs(st, grad, hess, count),
    decreases count,
{
    if count > 0 {
        let c = (count - 1) as nat;
        lemma_alike_outputs(a, b, st, grad, hess, c);
        let (s, t) = (a.samples(grad, hess, c as int), b.samples(grad, hess, c as int));
        assert(s.bins =~= t.bins);
        assert(s.grad =~= t.grad);
        assert(s.hess =~= t.hess);
        let before = a.after_outputs(st, grad, hess, c);
        let tree = a.next_tree(before, grad, hess, c as int);
        assert(a.with_tree(before, tree, c as int).raw =~= b.with_tree(
            before,
            tree,
            c as int,
        ).raw);
    }
}

/// Tasks that are alike go through the same rounds.
pub proof fn lemma_alike_rounds(a: Task, b: Task, st: Progress, trace: Seq<Seq<F32>>)
    requires
        alike(a, b),
    ensures
        a.after_rounds(st, trace) == b.after_rounds(st, trace),
    decreases trace.len(),
{
    if trace.len() > 0 {
        lemma_alike_rounds(a, b, st, trace.drop_last());
        let before = a.after_rounds(st, trace.drop_last());
        lemma_alike_outputs(
            a,
            b,
            before,
            a.obj.gradients(before.raw, trace.last(), a.y),
            a.obj.hessians(trace.last(), a.y),
            a.obj.outputs(),
        );
    }
}

proof fn lemma_alike_traced<E: Fn(F32) -> F32>(
    a: Task,
    b: Task,
    exp: E,
    st: Progress,
    trace: Seq<Seq<F32>>,
)
    requires
        alike(a, b),
        a.traced(exp, st, trace),
    ensures
        b.traced(exp, st, trace),
    decreases trace.len(),
{
    if trace.len() > 0 {
        lemma_alike_traced(a, b, exp, st, trace.drop_last());
        lemma_alike_rounds(a, b, st, trace.drop_last());
    }
}

/// Tasks that are alike start alike.
pub proof fn lemma_alike_start(a: Task, b: Task, base: Seq<F32>)
    requires
        alike(a, b),
    ensures
        a.start(base) == b.start(base),
{
    assert(a.start(base).raw =~= b.start(base).raw);
    assert(a.start(base).trees =~= b.start(base).trees);
}

/// Whether two sets of parameters differ at most in the bound on the number of bins, and both bounds
/// lie on the same side of what is possible.
pub open spec fn same_bin_limit(p: GbmParams, q: GbmParams) -> bool {
    &&& q == (GbmParams { max_bins: q.max_bins, ..p })
    &&& (p.max_bins <= 2 && q.max_bins <= 2) || (p.max_bins >= 256 && q.max_bins >= 256)
}

proof fn lemma_same_bin_limit<E: Fn(F32) -> F32>(
    x: Seq<F32>,
    y: Seq<F32>,
    n: nat,
    d: nat,
    obj: Obj,
    p: GbmParams,
    q: GbmParams,
    exp: E,
    base: Seq<F32>,
    m: Model,
)
    requires
        same_bin_limit(p, q),
        task_of(x, y, n, d, obj, p).leads_to(exp, base, m),
    ensures
        task_of(x, y, n, d, obj, q).leads_to(exp, base, m),
{
    let (a, b) = (task_of(x, y, n, d, obj, p), task_of(x, y, n, d, obj, q));
    let trace = choose|trace: Seq<Seq<F32>>|
        trace.len() == p.n_estimators && #[trigger] a.traced(exp, a.start(base), trace) && m
            == a.model(base, trace);
    lemma_alike_start(a, b, base);
    lemma_alike_traced(a, b, exp, a.start(base), trace);
    lemma_alike_rounds(a, b, a.start(base), trace);
}

/// Bounds of at most two on the number of bins all lead to the same models, and so do bounds of at
/// least 256. There are never more than 256 bins, so that a bin fits in a byte.
pub proof fn law_bin_limit_is_clamped<E: Fn(F32) -> F32>(
    x: Seq<F32>,
    y: Seq<F32>,
    n: nat,
    d: nat,
    obj: Obj,
    p: GbmParams,
    q: GbmParams,
    exp: E,
    base: Seq<F32>,
    m: Model,
)
    requires
        same_bin_limit(p, q),
    ensures
        task_of(x, y, n, d, obj, p).leads_to(exp, base, m) <==> task_of(
            x,
            y,
            n,
            d,
            obj,
            q,
        ).leads_to(exp, base, m),
        task_of(x, y, n, d, obj, p).leads_to(exp, base, m) ==> m.edges.len() == d && forall|f: int|
            0 <= f < d ==> (#[trigger] m.edges[f]).len() + 1 <= 256,
        regression(x, y, n, d, p) == regression(x, y, n, d, q),
{
    if task_of(x, y, n, d, obj, p).leads_to(exp, base, m) {
        lemma_same_bin_limit(x, y, n, d, obj, p, q, exp, base, m);
        assert forall|f: int| 0 <= f < d implies (#[trigger] m.edges[f]).len() + 1 <= 256 by {
            law_bins_are_bounded(x, n, d, p.bin_limit(), f);
        }
    }
    if task_of(x, y, n, d, obj, q).leads_to(exp, base, m) {
        lemma_same_bin_limit(x, y, n, d, obj, q, p, exp, base, m);
    }
    let (a, b) = (task_of(x, y, n, d, Obj::L2, p), task_of(x, y, n, d, Obj::L2, q));
    lemma_alike_start(a, b, seq![mean(y)]);
    lemma_alike_rounds(a, b, a.start(seq![mean(y)]), quiet(p.n_estimators as nat));
}

pub proof fn lemma_outputs_extend(
    task: Task,
    st: Progress,
    grad: Seq<F32>,
    hess: Seq<F32>,
    count: nat,
    o: int,
)
    requires
        0 <= o < st.trees.len(),
        count <= st.trees.len(),
    ensures
        ({
            let next = task.after_outputs(st, grad, hess, count);
            &&& next.trees.len() == st.trees.len()
            &&& next.trees[o] == st.trees[o] || next.trees[o].drop_last() == st.trees[o]
            &&& next.trees[o].len() == st.trees[o].len() + (if o < count {
                1nat
            } else {
                0nat
            })
        }),
    decreases count,
{
    if count > 0 {
        let c = (count - 1) as nat;
        lemma_outputs_extend(task, st, grad, hess, c, o);
        if o == c {
            let before = task.after_outputs(st, grad, hess, c);
            let next = task.after_outputs(st, grad, hess, count);
            assert(before.trees[o] =~= st.trees[o]);
            assert(next.trees[o].drop_last() =~= before.trees[o]);
        }
    }
}

/// The trees of the first rounds stay the same in later ones.
pub proof fn lemma_rounds_extend(task: Task, st: Progress, trace: Seq<Seq<F32>>, k: nat, o: int)
    requires
        k <= trace.len(),
        st.trees.len() == task.obj.outputs(),
        0 <= o < st.trees.len(),
        st.trees[o].len() == 0,
    ensures
        ({
            let trees = task.after_rounds(st, trace).trees;
            &&& trees.len() == st.trees.len()
            &&& trees[o].len() == trace.len()
            &&& trees[o].take(k as int) == task.after_rounds(st, trace.take(k as int)).trees[o]
        }),
    decreases trace.len(),
{
    let trees = task.after_rounds(st, trace).trees;
    if trace.len() > 0 {
        let rest = trace.drop_last();
        let before = task.after_rounds(st, rest);
        if k < trace.len() {
            lemma_rounds_extend(task, st, rest, k, o);
            assert(rest.take(k as int) =~= trace.take(k as int));
        } else {
            lemma_rounds_extend(task, st, rest, 0, o);
        }
        lemma_outputs_extend(
            task,
            before,
            task.obj.gradients(before.raw, trace.last(), task.y),
            task.obj.hessians(trace.last(), task.y),
            task.obj.outputs(),
            o,
        );
        if k < trace.len() {
            assert(trees[o].take(k as int) =~= trees[o].drop_last().take(k as int));
        }
    }
    if k == trace.len() {
        assert(trace.take(k as int) =~= trace);
        assert(trees[o].take(k as int) =~= trees[o]);
    }
}

proof fn lemma_traced_prefix<E: Fn(F32) -> F32>(
    task: Task,
    exp: E,
    st: Progress,
    trace: Seq<Seq<F32>>,
    k: nat,
)
    requires
        k <= trace.len(),
        task.traced(exp, st, trace),
    ensures
        task.traced(exp, st, trace.take(k as int)),
    decreases trace.len(),
{
    if k == trace.len() {
        assert(trace.take(k as int) =~= trace);
    } else {
        lemma_traced_prefix(task, exp, st, trace.drop_last(), k);
        assert(trace.drop_last().take(k as int) =~= trace.take(k as int));
    }
}

/// Whether a model consists of the first trees of another.
pub open spec fn begins(a: Model, b: Model, rounds: nat) -> bool {
    &&& a.edges == b.edges
    &&& a.base == b.base
    &&& a.rate == b.rate
    &&& a.trees.len() == b.trees.len()
    &&& forall|o: int|
        0 <= o < a.trees.len() ==> rounds <= b.trees[o].len() && #[trigger] a.trees[o]
            == b.trees[o].take(rounds as int)
}

proof fn lemma_model_begins(task: Task, other: Task, base: Seq<F32>, trace: Seq<Seq<F32>>, k: nat)
    requires
        alike(task, other),
        task.edges == other.edges,
        k <= trace.len(),
    ensures
        begins(task.model(base, trace.take(k as int)), other.model(base, trace), k),
{
    let st = task.start(base);
    let short = trace.take(k as int);
    lemma_alike_start(task, other, base);
    lemma_alike_rounds(task, other, st, trace);
    let (a, b) = (task.model(base, short), other.model(base, trace));
    let outputs = task.obj.outputs();
    if outputs > 0 {
        lemma_rounds_extend(task, st, trace, k, 0);
        lemma_rounds_extend(task, st, short, 0, 0);
    } else {
        lemma_no_outputs(task, st, trace);
        lemma_no_outputs(task, st, short);
    }
    assert forall|o: int| 0 <= o < a.trees.len() implies k <= b.trees[o].len()
        && #[trigger] a.trees[o] == b.trees[o].take(k as int) by {
        lemma_rounds_extend(task, st, trace, k, o);
    }
}

proof fn lemma_no_outputs(task: Task, st: Progress, trace: Seq<Seq<F32>>)
    requires
        task.obj.outputs() == 0,
    ensures
        task.after_rounds(st, trace) == st,
    decreases trace.len(),
{
    if trace.len() > 0 {
        lemma_no_outputs(task, st, trace.drop_last());
    }
}

/// A shorter run is the beginning of a longer one: with fewer rounds and all else equal, the edges
/// and the starting scores are the same, and the trees of each output are the first of those of the
/// longer run.
pub proof fn law_fewer_rounds_give_a_prefix<E: Fn(F32) -> F32>(
    x: Seq<F32>,
    y: Seq<F32>,
    n: nat,
    d: nat,
    obj: Obj,
    p: GbmParams,
    q: GbmParams,
    exp: E,
    base: Seq<F32>,
    a: Model,
    b: Model,
)
    requires
        q == (GbmParams { n_estimators: q.n_estimators, ..p }),
        p.n_estimators <= q.n_estimators,
        single_valued(exp),
        task_of(x, y, n, d, obj, p).leads_to(exp, base, a),
        task_of(x, y, n, d, obj, q).leads_to(exp, base, b),
    ensures
        begins(a, b, p.n_estimators as nat),
{
    let (ta, tb) = (task_of(x, y, n, d, obj, p), task_of(x, y, n, d, obj, q));
    let k = p.n_estimators as nat;
    let short = choose|trace: Seq<Seq<F32>>|
        trace.len() == p.n_estimators && #[trigger] ta.traced(exp, ta.start(base), trace) && a
            == ta.model(base, trace);
    let long = choose|trace: Seq<Seq<F32>>|
        trace.len() == q.n_estimators && #[trigger] tb.traced(exp, tb.start(base), trace) && b
            == tb.model(base, trace);
    lemma_alike_start(ta, tb, base);
    lemma_traced_prefix(tb, exp, tb.start(base), long, k);
    lemma_alike_traced(tb, ta, exp, tb.start(base), long.take(k as int));
    lemma_traced_once(ta, exp, ta.start(base), short, long.take(k as int));
    lemma_model_begins(ta, tb, base, long, k);
}

/// The same for regression.
pub proof fn law_fewer_regression_rounds_give_a_prefix(
    x: Seq<F32>,
    y: Seq<F32>,
    n: nat,
    d: nat,
    p: GbmParams,
    q: GbmParams,
)
    requires
        q == (GbmParams { n_estimators: q.n_estimators, ..p }),
        p.n_estimators <= q.n_estimators,
    ensures
        begins(
            regression(x, y, n, d, p),
            regression(x, y, n, d, q),
            p.n_estimators as nat,
        ),
{
    let long = quiet(q.n_estimators as nat);
    assert(long.take(p.n_estimators as int) =~= quiet(p.n_estimators as nat));
    lemma_model_begins(
        task_of(x, y, n, d, Obj::L2, p),
        task_of(x, y, n, d, Obj::L2, q),
        seq![mean(y)],
        long,
        p.n_estimators as nat,
    );
}

/// The same for classification.
pub proof fn law_fewer_classifier_rounds_give_a_prefix<E: Fn(F32) -> F32, L: Fn(F32) -> F32>(
    x: Seq<F32>,
    y: Seq<F32>,
    n: nat,
    d: nat,
    p: GbmParams,
    q: GbmParams,
    exp: E,
    ln: L,
    a: ClassModel,
    b: ClassModel,
)
    requires
        q == (GbmParams { n_estimators: q.n_estimators, ..p }),
        p.n_estimators <= q.n_estimators,
        single_valued(exp),
        single_valued(ln),
        may_fit(x, y, n, d, p, exp, ln, a),
        may_fit(x, y, n, d, q, exp, ln, b),
    ensures
        a.classes == b.classes,
        a.binary == b.binary,
        begins(a.model, b.model, p.n_estimators as nat),
{
    let obj = class_loss(y);
    let la = choose|logs: Seq<F32>| #[trigger]
        applied(ln, obj.log_inputs(y), logs) && task_of(x, y, n, d, obj, p).leads_to(
            exp,
            obj.base(y, logs),
            a.model,
        );
    let lb = choose|logs: Seq<F32>| #[trigger]
        applied(ln, obj.log_inputs(y), logs) && task_of(x, y, n, d, obj, q).leads_to(
            exp,
            obj.base(y, logs),
            b.model,
        );
    lemma_applied_once(ln, obj.log_inputs(y), la, lb);
    law_fewer_rounds_give_a_prefix(
        x,
        y,
        n,
        d,
        obj,
        p,
        q,
        exp,
        obj.base(y, la),
        a.model,
        b.model,
    );
}

} // verus!
