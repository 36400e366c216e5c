//! Training and prediction give one result.

use crate::booster::{task_of, Progress, Task};
use crate::classifier::{class_loss, may_fit, top_position, ClassModel};
use crate::float::F32;
use crate::function::applied;
use crate::params::GbmParams;
use vstd::prelude::*;

verus! {

/// Whether a function returns one result for each argument.
pub open spec fn single_valued<F: Fn(F32) -> F32>(f: F) -> bool {
    forall|v: F32, a: F32, b: F32| #[trigger]
        f.ensures((v,), a) && #[trigger] f.ensures((v,), b) ==> a == b
}

/// The results of such a function are determined by the arguments.
pub proof fn lemma_applied_once<F: Fn(F32) -> F32>(
    f: F,
    args: Seq<F32>,
    a: Seq<F32>,
    b: Seq<F32>,
)
    requires
        single_valued(f),
        applied(f, args, a),
        applied(f, args, b),
    ensures
        a == b,
{
    assert forall|i: int| 0 <= i < a.len() implies #[trigger] a[i] == b[i] by {
        assert(f.ensures((args[i],), a[i]));
        assert(f.ensures((args[i],), b[i]));
    }
    assert(a =~= b);
}

/// So are the exponentials of a run.
pub proof fn lemma_traced_once<E: Fn(F32) -> F32>(
    task: Task,
    exp: E,
    st: Progress,
    a: Seq<Seq<F32>>,
    b: Seq<Seq<F32>>,
)
    requires
        single_valued(exp),
        a.len() == b.len(),
        task.traced(exp, st, a),
        task.traced(exp, st, b),
    ensures
        a == b,
    decreases a.len(),
{
    if a.len() == 0 {
        assert(a =~= b);
    } else {
        lemma_traced_once(task, exp, st, a.drop_last(), b.drop_last());
        lemma_applied_once(
            exp,
            task.exp_inputs(task.after_rounds(st, a.drop_last())),
            a.last(),
            b.last(),
        );
        assert(a =~= a.drop_last().push(a.last()));
        assert(b =~= b.drop_last().push(b.last()));
    }
}

/// Training a classifier is deterministic: with functions that return one result for each argument,
/// a table and parameters lead to a single model.
pub proof fn law_classifier_is_deterministic<E: Fn(F32) -> F32, L: Fn(F32) -> F32>(
    x: Seq<F32>,
    y: Seq<F32>,
    n: nat,
    d: nat,
    p: GbmParams,
    exp: E,
    ln: L,
    a: ClassModel,
    b: ClassModel,
)
    requires
        single_valued(exp),
        single_valued(ln),
        may_fit(x, y, n, d, p, exp, ln, a),
        may_fit(x, y, n, d, p, exp, ln, b),
    ensures
        a == b,
{
    let obj = class_loss(y);
    let task = task_of(x, y, n, d, obj, p);
    let la = choose|logs: Seq<F32>| #[trigger]
        applied(ln, obj.log_inputs(y), logs) && task.leads_to(exp, obj.base(y, logs), a.model);
    let lb = choose|logs: Seq<F32>| #[trigger]
        applied(ln, obj.log_inputs(y), logs) && task.leads_to(exp, obj.base(y, logs), b.model);
    lemma_applied_once(ln, obj.log_inputs(y), la, lb);
    let base = obj.base(y, la);
    let ta = choose|t: Seq<Seq<F32>>|
        t.len() == p.n_estimators && #[trigger] task.traced(exp, task.start(base), t) && a.model
            == task.model(base, t);
    let tb = choose|t: Seq<Seq<F32>>|
        t.len() == p.n_estimators && #[trigger] task.traced(exp, task.start(base), t) && b.model
            == task.model(base, t);
    lemma_traced_once(task, exp, task.start(base), ta, tb);
}

/// Prediction is deterministic: with an exponential function that returns one result for each
/// argument, a row has a single class and a single list of probabilities.
pub proof fn law_prediction_is_deterministic<E: Fn(F32) -> F32>(
    m: ClassModel,
    exp: E,
    row: Seq<F32>,
    a: int,
    b: int,
    p: Seq<F32>,
    q: Seq<F32>,
)
    requires
        single_valued(exp),
        m.may_predict(exp, row, a),
        m.may_predict(exp, row, b),
        m.may_give(exp, row, p),
        m.may_give(exp, row, q),
    ensures
        a == b,
        p == q,
        a == top_position(p),
{
    let args = m.exp_inputs(row);
    let ea = choose|exps: Seq<F32>| #[trigger]
        applied(exp, args, exps) && a == top_position(m.probabilities(exps));
    let eb = choose|exps: Seq<F32>| #[trigger]
        applied(exp, args, exps) && b == top_position(m.probabilities(exps));
    let ep = choose|exps: Seq<F32>| #[trigger]
        applied(exp, args, exps) && p == m.probabilities(exps);
    let eq = choose|exps: Seq<F32>| #[trigger]
        applied(exp, args, exps) && q == m.probabilities(exps);
    lemma_applied_once(exp, args, ea, eb);
    lemma_applied_once(exp, args, ea, ep);
    lemma_applied_once(exp, args, ep, eq);
}

} // verus!
