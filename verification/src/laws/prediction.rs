//! What predicted probabilities are made of, and how they relate to the loss.

use crate::booster::{lemma_task_sound, task_of};
use crate::classifier::ClassModel;
use crate::float::arith::absolute;
use crate::float::error::{exact_sum, lemma_sum_error_of};
use crate::float::laws::lemma_one;
use crate::float::model::{lemma_magnitude_order, lemma_rank_orders};
use crate::float::F32;
use crate::function::applied;
use crate::grid::{lemma_cell, lemma_position, lemma_row_start, row_of};
use crate::laws::derivatives::{
    lemma_logistic_near, lemma_share_near, logistic_near, rounds_to, share_near,
};
use crate::laws::determinism::single_valued;
use crate::laws::softmax::{
    comparable, exponential, lemma_exact_sum_bounds, lemma_exact_sum_dominates,
    lemma_exponentials, lemma_largest, lemma_unit_bounds,
};
use crate::laws::training::{law_model_reproduces_training_scores, lemma_after_rounds};
use crate::objective::{largest, running_sum, sum_from, Obj, LEAST, NEGATIVE_ZERO, ONE, ZERO};
use crate::params::GbmParams;
use vstd::arithmetic::power2::{
    lemma2_to64, lemma_pow2_adds, lemma_pow2_pos, lemma_pow2_strictly_increases,
    lemma_pow2_unfold, pow2,
};
use vstd::prelude::*;

verus! {

/// For two classes, the one exponential that a probability takes is that of minus the score.
pub proof fn law_two_class_exponent_is_minus_the_score(m: ClassModel, row: Seq<F32>)
    requires
        m.binary,
    ensures
        m.exp_inputs(row).len() == 1,
        m.exp_inputs(row)[0].nan() == m.model.scores(row)[0].nan(),
        m.exp_inputs(row)[0].value() == -m.model.scores(row)[0].value(),
        m.exp_inputs(row)[0].negative() != m.model.scores(row)[0].negative(),
{
}

/// Scores less the largest.
proof fn lemma_exponent(raw: Seq<F32>, c: int, t: int)
    requires
        forall|j: int|
            0 <= j < raw.len() ==> (#[trigger] raw[j]).finite() && raw[j].value()
                <= raw[t].value() && absolute(raw[j].value()) <= pow2(275),
        0 <= c < raw.len(),
        0 <= t < raw.len(),
    ensures
        raw[c].minus(largest(raw)).finite(),
        rounds_to(raw[c].value() - raw[t].value(), raw[c].minus(largest(raw)).value()),
{
    let top = largest(raw);
    let least = F32 { bits: LEAST };
    lemma_largest(raw);
    lemma_pow2_unfold(276);
    assert(raw[t].at_most(top));
    lemma_rank_orders(least, raw[t]);
    assert(least.value() <= raw[t].value());
    if top != least {
        let b = choose|b: int| 0 <= b < raw.len() && #[trigger] raw[b] == top;
        assert(raw[b].value() <= raw[t].value());
    }
    assert(top.value() == raw[t].value());
    lemma_rank_orders(top, raw[t]);
    assert(raw[c].finite() && raw[c].value() <= raw[t].value());
    lemma_sum_error_of(raw[c], top.negated());
}

/// For several classes, there is one exponential for each class: that of its score less the largest
/// score, up to rounding.
pub proof fn law_class_exponents_are_score_differences(m: ClassModel, row: Seq<F32>, c: int, t: int)
    requires
        !m.binary,
        forall|j: int|
            0 <= j < m.model.scores(row).len() ==> (#[trigger] m.model.scores(row)[j]).finite()
                && m.model.scores(row)[j].value() <= m.model.scores(row)[t].value() && absolute(
                m.model.scores(row)[j].value(),
            ) <= pow2(275),
        0 <= c < m.model.scores(row).len(),
        0 <= t < m.model.scores(row).len(),
    ensures
        m.exp_inputs(row).len() == m.model.scores(row).len(),
        m.exp_inputs(row)[c].finite(),
        rounds_to(
            m.model.scores(row)[c].value() - m.model.scores(row)[t].value(),
            m.exp_inputs(row)[c].value(),
        ),
{
    lemma_exponent(m.model.scores(row), c, t);
}

/// In training for two classes, the exponentials are those of minus the scores.
pub proof fn law_training_takes_minus_the_scores(raw: Seq<F32>, n: nat, i: int)
    requires
        0 <= i < n,
    ensures
        Obj::Binary.exp_inputs_of(raw, n).len() == n,
        Obj::Binary.exp_inputs_of(raw, n)[i].nan() == raw[i].nan(),
        Obj::Binary.exp_inputs_of(raw, n)[i].value() == -raw[i].value(),
        Obj::L2.exp_inputs_of(raw, n).len() == 0,
{
}

/// In training for several classes, the exponentials are those of the scores of a row less the
/// largest score of that row, up to rounding.
pub proof fn law_training_takes_score_differences(
    k: usize,
    raw: Seq<F32>,
    n: nat,
    i: int,
    c: int,
    t: int,
)
    requires
        raw.len() == n * k,
        0 <= i < n,
        0 <= c < k,
        0 <= t < k,
        forall|j: int|
            0 <= j < k ==> (#[trigger] raw[i * k + j]).finite() && raw[i * k + j].value() <= raw[i
                * k + t].value() && absolute(raw[i * k + j].value()) <= pow2(275),
    ensures
        Obj::Multiclass(k).exp_inputs_of(raw, n).len() == n * k,
        Obj::Multiclass(k).exp_inputs_of(raw, n)[i * k + c].finite(),
        rounds_to(
            raw[i * k + c].value() - raw[i * k + t].value(),
            Obj::Multiclass(k).exp_inputs_of(raw, n)[i * k + c].value(),
        ),
{
    let row = row_of(raw, i, k as int);
    lemma_row_start(i, n as int, k as int);
    lemma_cell(i, c, n as int, k as int);
    lemma_position(i, c, k as int);
    assert forall|j: int| 0 <= j < row.len() implies (#[trigger] row[j]).finite() && row[j].value()
        <= row[t].value() && absolute(row[j].value()) <= pow2(275) by {
        assert(row[j] == raw[i * k + j]);
    }
    lemma_exponent(row, c, t);
}

/// The probabilities for two classes: with `e` the exponential of minus the score, that of the
/// second is `1 / (1 + e)`, and that of the first is what is left to one.
pub proof fn law_two_class_probability_is_logistic<E: Fn(F32) -> F32>(
    m: ClassModel,
    exp: E,
    row: Seq<F32>,
    p: Seq<F32>,
)
    requires
        m.binary,
        m.may_give(exp, row, p),
        forall|a: F32, r: F32| #[trigger]
            exp.ensures((a,), r) && a == m.model.scores(row)[0].negated() ==> r.finite()
                && !r.negative() && r.value() <= pow2(270),
    ensures
        p.len() == 2,
        exists|a: F32, e: F32|
            a.value() == -m.model.scores(row)[0].value() && #[trigger] exp.ensures((a,), e)
                && logistic_near(p[1].value(), e.value()),
        p[0].finite(),
        p[1].finite(),
        rounds_to(pow2(149) - p[1].value(), p[0].value()),
{
    let args = m.exp_inputs(row);
    let exps = choose|exps: Seq<F32>| #[trigger]
        applied(exp, args, exps) && p == m.probabilities(exps);
    let a = m.model.scores(row)[0].negated();
    assert(exp.ensures((args[0],), exps[0]));
    assert(args[0] == a);
    lemma_logistic_near(exps[0]);
    lemma_unit_bounds(p[1]);
    lemma_one();
    lemma_pow2_pos(149);
    lemma_pow2_strictly_increases(149, 276);
    lemma_sum_error_of(F32 { bits: ONE }, p[1].negated());
}

/// The probabilities for several classes: the share of each exponential in the sum of all.
pub proof fn law_class_probability_is_a_share<E: Fn(F32) -> F32>(
    m: ClassModel,
    exp: E,
    row: Seq<F32>,
    p: Seq<F32>,
)
    requires
        exponential(exp),
        !m.binary,
        m.may_give(exp, row, p),
        comparable(m.model.scores(row)),
        m.model.scores(row).len() <= 0x10_0000,
    ensures
        exists|exps: Seq<F32>| #[trigger]
            applied(exp, m.exp_inputs(row), exps) && p.len() == exps.len() && forall|c: int|
                0 <= c < p.len() ==> share_near(
                    (#[trigger] p[c]).value(),
                    exps[c].value(),
                    exact_sum(exps),
                    p.len() as int,
                ),
{
    let exps = choose|exps: Seq<F32>| #[trigger]
        applied(exp, m.exp_inputs(row), exps) && p == m.probabilities(exps);
    let b = lemma_exponentials(m, exp, row, exps);
    let start = F32 { bits: NEGATIVE_ZERO };
    let k = exps.len() as int;
    lemma_exact_sum_bounds(exps);
    lemma_exact_sum_dominates(exps, b);
    lemma_one();
    lemma_pow2_pos(149);
    lemma2_to64();
    lemma_pow2_adds(32, 149);
    lemma_pow2_strictly_increases(181, 270);
    assert(k * pow2(149) <= pow2(32) * pow2(149)) by (nonlinear_arith)
        requires
            k <= 0x10_0000,
            pow2(32) >= 0x10_0000,
            pow2(149) > 0,
    ;
    assert forall|c: int| 0 <= c < p.len() implies share_near(
        (#[trigger] p[c]).value(),
        exps[c].value(),
        exact_sum(exps),
        p.len() as int,
    ) by {
        assert forall|j: int| 0 <= j < exps.len() implies (#[trigger] exps[j]).finite()
            && !exps[j].negative() by {
            lemma_unit_bounds(exps[j]);
        }
        lemma_share_near(start, exps, c);
    }
}

/// The probability that a two-class model gives a training row is the one that the loss uses for
/// that row: the first derivative of the loss at the scores that training ended with is the
/// predicted probability of the second class less the label.
pub proof fn law_two_class_derivative_is_probability_less_label<E: Fn(F32) -> F32>(
    x: Seq<F32>,
    y: Seq<F32>,
    n: nat,
    d: nat,
    params: GbmParams,
    base: Seq<F32>,
    trace: Seq<Seq<F32>>,
    exp: E,
    m: ClassModel,
    exps: Seq<F32>,
    p: Seq<F32>,
    i: int,
)
    requires
        single_valued(exp),
        x.len() == n * d,
        y.len() == n,
        base.len() == 1,
        m.binary,
        m.model == task_of(x, y, n, d, Obj::Binary, params).model(base, trace),
        ({
            let task = task_of(x, y, n, d, Obj::Binary, params);
            applied(exp, task.exp_inputs(task.after_rounds(task.start(base), trace)), exps)
        }),
        0 <= i < n,
        m.may_give(exp, row_of(x, i, d as int), p),
    ensures
        ({
            let task = task_of(x, y, n, d, Obj::Binary, params);
            let st = task.after_rounds(task.start(base), trace);
            Obj::Binary.gradients(st.raw, exps, y)[i] == p[1].minus(y[i])
        }),
{
    let task = task_of(x, y, n, d, Obj::Binary, params);
    let st = task.after_rounds(task.start(base), trace);
    let row = row_of(x, i, d as int);
    law_model_reproduces_training_scores(
        x,
        y,
        n,
        d,
        Obj::Binary,
        params,
        base,
        trace,
        i,
        0,
    );
    assert(i * 1 + 0 == i) by (nonlinear_arith);
    assert(n * 1 == n) by (nonlinear_arith);
    assert(m.model.scores(row)[0] == st.raw[i]);
    let args = m.exp_inputs(row);
    let own = choose|own: Seq<F32>| #[trigger]
        applied(exp, args, own) && p == m.probabilities(own);
    assert(exp.ensures((args[0],), own[0]));
    let all = task.exp_inputs(st);
    assert(exp.ensures((all[i],), exps[i]));
    assert(all[i] == args[0]);
    assert(own[0] == exps[i]);
}

/// Whether a sum starts at zero or at minus zero makes no difference to numbers without a sign.
proof fn lemma_start_of_sum(s: Seq<F32>)
    requires
        s.len() > 0,
        forall|j: int| 0 <= j < s.len() ==> !(#[trigger] s[j]).negative(),
    ensures
        sum_from(F32 { bits: ZERO }, s) == running_sum(s),
    decreases s.len(),
{
    let (a, b) = (F32 { bits: ZERO }, F32 { bits: NEGATIVE_ZERO });
    let rest = s.drop_last();
    assert(s.last() == s[s.len() - 1]);
    if s.len() == 1 {
        assert(sum_from(a, rest) == a && sum_from(b, rest) == b);
        lemma_magnitude_order(s.last().code(), 0);
    } else {
        assert forall|j: int| 0 <= j < rest.len() implies !(#[trigger] rest[j]).negative() by {
            assert(rest[j] == s[j]);
        }
        lemma_start_of_sum(rest);
    }
}

/// The same for several classes: the first derivative at each class is the predicted probability of
/// that class, less one at the class that the label names.
pub proof fn law_class_derivative_is_probability_less_label<E: Fn(F32) -> F32>(
    x: Seq<F32>,
    y: Seq<F32>,
    n: nat,
    d: nat,
    k: usize,
    params: GbmParams,
    base: Seq<F32>,
    trace: Seq<Seq<F32>>,
    exp: E,
    m: ClassModel,
    exps: Seq<F32>,
    p: Seq<F32>,
    i: int,
    c: int,
)
    requires
        single_valued(exp),
        forall|a: F32, r: F32| #[trigger] exp.ensures((a,), r) ==> !r.negative(),
        x.len() == n * d,
        y.len() == n,
        base.len() == k,
        !m.binary,
        m.model == task_of(x, y, n, d, Obj::Multiclass(k), params).model(base, trace),
        ({
            let task = task_of(x, y, n, d, Obj::Multiclass(k), params);
            applied(exp, task.exp_inputs(task.after_rounds(task.start(base), trace)), exps)
        }),
        0 <= i < n,
        0 <= c < k,
        m.may_give(exp, row_of(x, i, d as int), p),
    ensures
        ({
            let task = task_of(x, y, n, d, Obj::Multiclass(k), params);
            let st = task.after_rounds(task.start(base), trace);
            let hit = F32 {
                bits: if y[i].whole() == c {
                    ONE
                } else {
                    ZERO
                },
            };
            &&& p.len() == k
            &&& Obj::Multiclass(k).gradients(st.raw, exps, y)[i * k + c] == p[c].minus(hit)
        }),
{
    let obj = Obj::Multiclass(k);
    let task = task_of(x, y, n, d, obj, params);
    let st = task.after_rounds(task.start(base), trace);
    let row = row_of(x, i, d as int);
    let scores = m.model.scores(row);
    let w = k as int;
    lemma_task_sound(x, y, n, d, obj, params);
    lemma_after_rounds(task, base, trace);
    lemma_row_start(i, n as int, w);
    assert forall|j: int| 0 <= j < w implies st.raw[i * w + j] == #[trigger] scores[j] by {
        law_model_reproduces_training_scores(x, y, n, d, obj, params, base, trace, i, j);
    }
    assert(row_of(st.raw, i, w) =~= scores);
    let args = m.exp_inputs(row);
    let own = choose|own: Seq<F32>| #[trigger]
        applied(exp, args, own) && p == m.probabilities(own);
    let all = task.exp_inputs(st);
    assert forall|j: int| 0 <= j < w implies exps[i * w + j] == #[trigger] own[j] && !own[j]
        .negative() by {
        lemma_cell(i, j, n as int, w);
        lemma_position(i, j, w);
        assert(all[i * w + j] == args[j]);
        assert(exp.ensures((args[j],), own[j]));
        assert(exp.ensures((all[i * w + j],), exps[i * w + j]));
    }
    assert(row_of(exps, i, w) =~= own);
    lemma_start_of_sum(own);
    lemma_cell(i, c, n as int, w);
    lemma_position(i, c, w);
    assert(exps[i * w + c] == own[c]);
}

} // verus!
