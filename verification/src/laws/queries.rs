//! Predictions for rows, one by one and in batches.

use crate::batch::{classes_of, may_classify, probabilities_of, row_count};
use crate::bins::numeric;
use crate::booster::task_of;
use crate::classifier::{
    class_count, class_loss, law_top_position_is_largest, may_fit, top_label, ClassModel,
};
use crate::float::F32;
use crate::function::applied;
use crate::grid::row_of;
use crate::laws::bounded::{
    class_index, damped, law_scores_are_finite, lemma_defaults_are_damped, logarithm,
};
use crate::laws::determinism::{
    law_classifier_is_deterministic, law_prediction_is_deterministic, single_valued,
};
use crate::laws::softmax::{distribution, exponential, law_probabilities_are_a_distribution, unit};
use crate::params::{default_params, GbmParams};
use vstd::arithmetic::div_mod::lemma_fundamental_div_mod;
use vstd::prelude::*;

verus! {

/// A fitted classifier gives one probability for each class.
proof fn lemma_probability_count<E: Fn(F32) -> F32, L: Fn(F32) -> F32>(
    x: Seq<F32>,
    y: Seq<F32>,
    n: nat,
    d: nat,
    params: GbmParams,
    exp: E,
    ln: L,
    m: ClassModel,
    row: Seq<F32>,
    p: Seq<F32>,
)
    requires
        top_label(y).whole() < usize::MAX,
        may_fit(x, y, n, d, params, exp, ln, m),
        m.may_give(exp, row, p),
    ensures
        p.len() == m.classes,
        m.classes >= 2,
        m.model.scores(row).len() == (if m.binary {
            1
        } else {
            m.classes
        }),
{
    let obj = class_loss(y);
    let logs = choose|logs: Seq<F32>| #[trigger]
        applied(ln, obj.log_inputs(y), logs) && task_of(x, y, n, d, obj, params).leads_to(
            exp,
            obj.base(y, logs),
            m.model,
        );
    assert(obj.log_inputs(y).len() == obj.outputs());
    assert(m.model.base.len() == obj.outputs());
}

/// The predicted class of a row is one of the classes. No class is more probable, and an earlier one
/// is less so. The probabilities have to be numbers, and the exponential function has to return one
/// result for each argument.
pub proof fn law_prediction_is_the_most_probable_class<
    E: Fn(F32) -> F32,
    L: Fn(F32) -> F32,
>(
    x: Seq<F32>,
    y: Seq<F32>,
    n: nat,
    d: nat,
    params: GbmParams,
    exp: E,
    ln: L,
    m: ClassModel,
    row: Seq<F32>,
    class: int,
    p: Seq<F32>,
)
    requires
        single_valued(exp),
        top_label(y).whole() < usize::MAX,
        may_fit(x, y, n, d, params, exp, ln, m),
        m.may_predict(exp, row, class),
        m.may_give(exp, row, p),
        numeric(p),
    ensures
        p.len() == m.classes,
        0 <= class < m.classes,
        forall|c: int| 0 <= c < p.len() ==> (#[trigger] p[c]).at_most(p[class]),
        forall|c: int| 0 <= c < class ==> (#[trigger] p[c]).below(p[class]),
{
    lemma_probability_count(x, y, n, d, params, exp, ln, m, row, p);
    law_prediction_is_deterministic(m, exp, row, class, class, p, p);
    law_top_position_is_largest(p);
}

/// The probabilities that a fitted classifier with up to a hundred classes gives for any row lie
/// between zero and one and add up to one within 1e-4. This takes natural numbers as labels,
/// parameters that damp the trees, and functions that are like the exponential and the logarithm.
pub proof fn law_fitted_probabilities_are_a_distribution<
    E: Fn(F32) -> F32,
    L: Fn(F32) -> F32,
>(
    x: Seq<F32>,
    y: Seq<F32>,
    n: nat,
    d: nat,
    params: GbmParams,
    exp: E,
    ln: L,
    m: ClassModel,
    row: Seq<F32>,
    p: Seq<F32>,
)
    requires
        exponential(exp),
        logarithm(ln),
        damped(params),
        n <= usize::MAX,
        y.len() == n,
        forall|i: int| 0 <= i < n ==> class_index(#[trigger] y[i]),
        class_count(y) <= 100,
        may_fit(x, y, n, d, params, exp, ln, m),
        m.may_give(exp, row, p),
    ensures
        p.len() == m.classes,
        distribution(p),
{
    lemma_probability_count(x, y, n, d, params, exp, ln, m, row, p);
    let raw = m.model.scores(row);
    assert forall|c: int| 0 <= c < raw.len() implies (#[trigger] raw[c]).finite() by {
        law_scores_are_finite(x, y, n, d, params, exp, ln, m, row, c);
    }
    assert(raw[0].finite());
    law_probabilities_are_a_distribution(m, exp, row, p);
}

/// With functions that return one result for each argument, the classes that a batch gives are the
/// ones that the fitted classifier predicts for each row, and the probabilities are its
/// probabilities for each row.
pub proof fn law_batch_gives_the_predictions<E: Fn(F32) -> F32, L: Fn(F32) -> F32>(
    x: Seq<F32>,
    y: Seq<F32>,
    d: nat,
    exp: E,
    ln: L,
    fitted: ClassModel,
    m: ClassModel,
    query: Seq<F32>,
    classes: Seq<u32>,
    other: ClassModel,
    r: Seq<F32>,
    i: int,
    class: int,
    p: Seq<F32>,
)
    requires
        single_valued(exp),
        single_valued(ln),
        may_fit(x, y, y.len(), d, default_params(), exp, ln, fitted),
        may_fit(x, y, y.len(), d, default_params(), exp, ln, m),
        classes_of(m, exp, query, d, classes),
        classes.len() == row_count(query.len(), d),
        may_fit(x, y, y.len(), d, default_params(), exp, ln, other),
        probabilities_of(other, exp, query, d, row_count(query.len(), d), r),
        0 <= i < row_count(query.len(), d),
        fitted.may_predict(exp, row_of(query, i, d as int), class),
        fitted.may_give(exp, row_of(query, i, d as int), p),
    ensures
        classes[i] == #[verifier::truncate] (class as u32),
        row_of(r, i, fitted.classes as int) == p,
        r.len() == row_count(query.len(), d) * class_count(y),
{
    let row = row_of(query, i, d as int);
    law_classifier_is_deterministic(x, y, y.len(), d, default_params(), exp, ln, fitted, m);
    law_classifier_is_deterministic(x, y, y.len(), d, default_params(), exp, ln, fitted, other);
    assert(may_classify(m, exp, row, classes[i]));
    let c = choose|c: int|
        0 <= c < m.classes && #[trigger] m.may_predict(exp, row, c) && classes[i]
            == #[verifier::truncate] (c as u32);
    let q = row_of(r, i, fitted.classes as int);
    assert(other.may_give(exp, row, q));
    law_prediction_is_deterministic(fitted, exp, row, class, c, p, q);
}

/// What a batch gives for a row with up to a hundred classes: probabilities between zero and one
/// that add up to one within 1e-4, of which the predicted class is the first largest. This takes
/// natural numbers as labels, and functions that return one result for each argument and are like
/// the exponential and the logarithm.
pub proof fn law_batch_probabilities_are_a_distribution<
    E: Fn(F32) -> F32,
    L: Fn(F32) -> F32,
>(
    x: Seq<F32>,
    y: Seq<F32>,
    d: nat,
    exp: E,
    ln: L,
    m: ClassModel,
    query: Seq<F32>,
    classes: Seq<u32>,
    other: ClassModel,
    r: Seq<F32>,
    i: int,
)
    requires
        single_valued(exp),
        single_valued(ln),
        exponential(exp),
        logarithm(ln),
        y.len() <= usize::MAX,
        forall|j: int| 0 <= j < y.len() ==> class_index(#[trigger] y[j]),
        class_count(y) <= 100,
        may_fit(x, y, y.len(), d, default_params(), exp, ln, m),
        classes_of(m, exp, query, d, classes),
        classes.len() == row_count(query.len(), d),
        may_fit(x, y, y.len(), d, default_params(), exp, ln, other),
        probabilities_of(other, exp, query, d, row_count(query.len(), d), r),
        0 <= i < row_count(query.len(), d),
    ensures
        r.len() == row_count(query.len(), d) * class_count(y),
        ({
            let p = row_of(r, i, class_count(y) as int);
            &&& p.len() == class_count(y)
            &&& distribution(p)
            &&& classes[i] < class_count(y)
            &&& forall|c: int| 0 <= c < p.len() ==> (#[trigger] p[c]).at_most(p[classes[i] as int])
            &&& forall|c: int|
                0 <= c < classes[i] ==> (#[trigger] p[c]).below(p[classes[i] as int])
        }),
{
    let row = row_of(query, i, d as int);
    let p = row_of(r, i, class_count(y) as int);
    law_classifier_is_deterministic(x, y, y.len(), d, default_params(), exp, ln, other, m);
    assert(other.may_give(exp, row, p));
    lemma_defaults_are_damped();
    law_fitted_probabilities_are_a_distribution(
        x,
        y,
        y.len(),
        d,
        default_params(),
        exp,
        ln,
        other,
        row,
        p,
    );
    assert forall|c: int| 0 <= c < p.len() implies !(#[trigger] p[c]).nan() by {
        assert(unit(p[c]));
    }
    assert(may_classify(m, exp, row, classes[i]));
    let c = choose|c: int|
        0 <= c < m.classes && #[trigger] m.may_predict(exp, row, c) && classes[i]
            == #[verifier::truncate] (c as u32);
    law_prediction_is_the_most_probable_class(
        x,
        y,
        y.len(),
        d,
        default_params(),
        exp,
        ln,
        other,
        row,
        c,
        p,
    );
}

/// Batches cover all whole rows of a query: as many as fit, and none if rows are empty.
pub proof fn law_batches_cover_all_whole_rows(len: nat, width: nat)
    ensures
        width > 0 ==> row_count(len, width) * width <= len < (row_count(len, width) + 1) * width,
        width == 0 ==> row_count(len, width) == 0,
{
    if width > 0 {
        lemma_fundamental_div_mod(len as int, width as int);
        let (q, w) = (len / width, width);
        assert(q * w == w * q && (q + 1) * w == w * q + w) by (nonlinear_arith);
    }
}

} // verus!
