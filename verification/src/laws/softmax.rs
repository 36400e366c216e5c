//! Predicted probabilities are a distribution, up to rounding.

use crate::classifier::ClassModel;
use crate::float::arith::{absolute, lemma_rounded_zero};
use crate::float::error::{exact_sum, lemma_rounding_error, within};
use crate::float::laws::{
    law_plus_commutes, law_plus_keeps_order, law_ratio_is_at_most_one,
    law_self_difference_is_zero, lemma_one, lemma_plus_negative_zero, lemma_rounded,
    lemma_sum_is_number,
};
use crate::float::model::{lemma_magnitude_order, lemma_rank_orders};
use crate::float::round::rounded;
use crate::float::F32;
use crate::function::applied;
use crate::laws::bounded::lemma_sum_within;
use crate::laws::probability::{
    law_logistic_is_a_probability, law_two_probabilities_add_to_one, lemma_logistic_sign,
    lemma_sum_dominates,
};
use crate::objective::{largest, running_sum, LEAST, NEGATIVE_ZERO, ONE, ZERO};
use vstd::arithmetic::power2::{lemma2_to64, lemma_pow2_pos, lemma_pow2_strictly_increases, pow2};
use vstd::prelude::*;

verus! {

/// Whether a function has the properties of the exponential that hold whatever its last bits are:
/// numbers give numbers that are not negative, numbers up to zero give at most one, and zero gives
/// one.
pub open spec fn exponential<E: Fn(F32) -> F32>(exp: E) -> bool {
    forall|a: F32, r: F32| #[trigger]
        exp.ensures((a,), r) && !a.nan() ==> {
            &&& !r.nan()
            &&& !r.negative()
            &&& a.at_most(F32 { bits: ZERO }) ==> r.at_most(F32 { bits: ONE })
            &&& a.zero() ==> r == (F32 { bits: ONE })
        }
}

/// Whether every score is a number below infinity, and one at least is finite.
pub open spec fn comparable(raw: Seq<F32>) -> bool {
    &&& forall|c: int|
        0 <= c < raw.len() ==> !(#[trigger] raw[c]).nan() && !(raw[c].infinite()
            && !raw[c].negative())
    &&& exists|c: int| 0 <= c < raw.len() && (#[trigger] raw[c]).finite()
}

/// Whether a number lies between zero and one.
pub open spec fn unit(a: F32) -> bool {
    !a.negative() && a.at_most(F32 { bits: ONE })
}

/// Whether a number of steps of 2^-149 is one, within 1e-4.
pub open spec fn near_one(v: int) -> bool {
    10_000 * absolute(v - pow2(149)) <= pow2(149)
}

/// Whether numbers lie between zero and one and add up to one within 1e-4, exactly as well as in
/// floating point.
pub open spec fn distribution(p: Seq<F32>) -> bool {
    &&& forall|c: int| 0 <= c < p.len() ==> unit(#[trigger] p[c])
    &&& near_one(exact_sum(p))
    &&& running_sum(p).finite()
    &&& near_one(running_sum(p).value())
}

pub proof fn lemma_largest(s: Seq<F32>)
    requires
        forall|c: int| 0 <= c < s.len() ==> !(#[trigger] s[c]).nan(),
    ensures
        !largest(s).nan(),
        (F32 { bits: LEAST }).at_most(largest(s)),
        forall|c: int| 0 <= c < s.len() ==> (#[trigger] s[c]).at_most(largest(s)),
        largest(s) == (F32 { bits: LEAST }) || exists|c: int|
            0 <= c < s.len() && #[trigger] s[c] == largest(s),
    decreases s.len(),
{
    if s.len() > 0 {
        let rest = s.drop_last();
        assert forall|c: int| 0 <= c < rest.len() implies !(#[trigger] rest[c]).nan() by {
            assert(rest[c] == s[c]);
        }
        lemma_largest(rest);
        assert(s.last() == s[s.len() - 1]);
        assert forall|c: int| 0 <= c < s.len() implies (#[trigger] s[c]).at_most(largest(s)) by {
            if c < rest.len() {
                assert(rest[c] == s[c]);
                assert(rest[c].at_most(largest(rest)));
            }
        }
        if largest(s) != s.last() && largest(s) != (F32 { bits: LEAST }) {
            let c = choose|c: int| 0 <= c < rest.len() && #[trigger] rest[c] == largest(rest);
            assert(s[c] == largest(s));
        }
    }
}

/// Scores less the largest score are at most zero, and one of them is zero.
pub proof fn lemma_shifted(raw: Seq<F32>)
    requires
        comparable(raw),
    ensures
        forall|c: int|
            0 <= c < raw.len() ==> (#[trigger] raw[c]).minus(largest(raw)).at_most(
                F32 { bits: ZERO },
            ),
        exists|c: int| 0 <= c < raw.len() && (#[trigger] raw[c]).minus(largest(raw)).zero(),
{
    let top = largest(raw);
    let least = F32 { bits: LEAST };
    lemma_largest(raw);
    let k = choose|c: int| 0 <= c < raw.len() && (#[trigger] raw[c]).finite();
    lemma_rank_orders(least, raw[k]);
    lemma_rank_orders(least, top);
    let best = if top == least {
        k
    } else {
        choose|c: int| 0 <= c < raw.len() && #[trigger] raw[c] == top
    };
    assert(raw[k].at_most(top));
    assert(raw[best].value() == top.value());
    assert(top.finite());
    let down = top.negated();
    assert forall|c: int| 0 <= c < raw.len() implies (#[trigger] raw[c]).minus(top).at_most(
        F32 { bits: ZERO },
    ) by {
        lemma_sum_is_number(raw[c], down);
        lemma_sum_is_number(top, down);
        law_plus_keeps_order(raw[c], down, top, down);
        law_self_difference_is_zero(top);
    }
    lemma_rank_orders(raw[best], top);
    assert(raw[best].minus(top).zero());
}

/// Numbers between zero and one are finite.
pub proof fn lemma_unit_bounds(a: F32)
    requires
        unit(a),
    ensures
        a.finite(),
        a.code() <= ONE,
        0 <= a.value() <= pow2(149),
{
    lemma_rank_orders(a, F32 { bits: ONE });
    lemma_magnitude_order(a.code(), 0);
    lemma_one();
}

/// Each number is at most the sum of all.
pub proof fn lemma_exact_sum_dominates(s: Seq<F32>, c: int)
    requires
        forall|i: int| 0 <= i < s.len() ==> unit(#[trigger] s[i]),
        0 <= c < s.len(),
    ensures
        s[c].value() <= exact_sum(s),
    decreases s.len(),
{
    let rest = s.drop_last();
    assert(unit(s[s.len() - 1]));
    lemma_unit_bounds(s.last());
    assert forall|i: int| 0 <= i < rest.len() implies unit(#[trigger] rest[i]) by {
        assert(rest[i] == s[i]);
    }
    lemma_exact_sum_bounds(rest);
    if c < rest.len() {
        lemma_exact_sum_dominates(rest, c);
    }
}

pub proof fn lemma_exact_sum_bounds(s: Seq<F32>)
    requires
        forall|i: int| 0 <= i < s.len() ==> unit(#[trigger] s[i]),
    ensures
        0 <= exact_sum(s) <= s.len() * pow2(149),
    decreases s.len(),
{
    let h = pow2(149) as int;
    assert(0 * h == 0) by (nonlinear_arith);
    if s.len() > 0 {
        let rest = s.drop_last();
        assert(unit(s[s.len() - 1]));
        assert forall|i: int| 0 <= i < rest.len() implies unit(#[trigger] rest[i]) by {
            assert(rest[i] == s[i]);
        }
        lemma_exact_sum_bounds(rest);
        lemma_unit_bounds(s.last());
        assert(s.len() * h == rest.len() * h + h) by (nonlinear_arith)
            requires
                s.len() == rest.len() + 1,
        ;
    }
}

/// A sum of numbers between zero and one never exceeds 2^24: from there on, adding changes nothing.
proof fn lemma_sum_is_bounded(s: Seq<F32>)
    requires
        forall|i: int| 0 <= i < s.len() ==> unit(#[trigger] s[i]),
    ensures
        running_sum(s).finite(),
        0 <= running_sum(s).value() <= pow2(173),
{
    let start = F32 { bits: NEGATIVE_ZERO };
    assert forall|i: int| 0 <= i < s.len() implies within(#[trigger] s[i], pow2(149) as int) by {
        lemma_unit_bounds(s[i]);
    }
    lemma_sum_within(start, s, 173);
    lemma_sum_dominates(start, s);
    lemma_pow2_pos(173);
}

/// How far a sum is from the exact sum: at most two parts in 2^24 for each term.
proof fn lemma_sum_error(s: Seq<F32>)
    requires
        forall|i: int| 0 <= i < s.len() ==> unit(#[trigger] s[i]),
        s.len() <= 1000,
    ensures
        running_sum(s).finite(),
        running_sum(s).value() >= 0,
        0xff_ffff * absolute(running_sum(s).value() - exact_sum(s)) <= s.len() * (2 * exact_sum(s)
            + 0x200_0000),
    decreases s.len(),
{
    let k = s.len() as int;
    let exact = exact_sum(s);
    if k > 0 {
        let rest = s.drop_last();
        assert(unit(s[k - 1]));
        assert forall|i: int| 0 <= i < rest.len() implies unit(#[trigger] rest[i]) by {
            assert(rest[i] == s[i]);
        }
        lemma_sum_error(rest);
        lemma_exact_sum_bounds(rest);
        lemma_exact_sum_bounds(s);
        lemma_unit_bounds(s.last());
        let before = running_sum(rest);
        let old = exact_sum(rest);
        let a = before.value() + s.last().value();
        let off = absolute(before.value() - old);
        assert((k - 1) * (2 * old + 0x200_0000) <= 999 * (2 * old + 0x200_0000))
            by (nonlinear_arith)
            requires
                0 < k <= 1000,
                old >= 0,
        ;
        assert(off <= old + 0x100_0000);
        assert(a <= 2 * exact + 0x100_0000);
        lemma_sum_is_bounded(s);
        lemma_rounded(a, 1);
        lemma_rounded_zero(1);
        let sum = running_sum(s);
        assert(sum == before.plus(s.last()));
        assert(sum.code() == rounded(a, 1));
        lemma_rounding_error(a, 1);
        let r = sum.value();
        let step = absolute(r - a);
        assert(0xff_ffff * step <= a + 0x80_0000);
        assert(absolute(r - exact) <= step + off);
        assert((k - 1) * (2 * old + 0x200_0000) <= (k - 1) * (2 * exact + 0x200_0000))
            by (nonlinear_arith)
            requires
                k > 0,
                old <= exact,
        ;
        assert((k - 1) * (2 * exact + 0x200_0000) + (2 * exact + 0x200_0000) == k * (2 * exact
            + 0x200_0000)) by (nonlinear_arith);
    }
}

/// The sum of rounded quotients is near the quotient of the exact sum.
proof fn lemma_quotients_error(e: Seq<F32>, s: F32)
    requires
        forall|i: int| 0 <= i < e.len() ==> unit(#[trigger] e[i]),
        s.finite(),
        !s.negative(),
        s.value() >= pow2(149),
    ensures
        ({
            let p = Seq::new(e.len(), |c: int| e[c].over(s));
            &&& forall|i: int| 0 <= i < p.len() ==> unit(#[trigger] p[i])
            &&& 0x100_0000 * absolute(s.value() * exact_sum(p) - exact_sum(e) * pow2(149))
                <= s.value() * (exact_sum(p) + e.len() * 0x80_0000)
        }),
    decreases e.len(),
{
    let p = Seq::new(e.len(), |c: int| e[c].over(s));
    let h = pow2(149) as int;
    let v = s.value();
    lemma_pow2_pos(149);
    lemma_one();
    lemma_magnitude_order(s.code(), 0);
    assert forall|i: int| 0 <= i < p.len() implies unit(#[trigger] p[i]) by {
        assert(unit(e[i]));
        lemma_unit_bounds(e[i]);
        law_ratio_is_at_most_one(e[i], s);
    }
    if e.len() == 0 {
        assert(v * 0 == 0 && 0 * h == 0) by (nonlinear_arith);
        assert(v * (0 + 0 * 0x80_0000) == 0) by (nonlinear_arith);
    } else {
        let er = e.drop_last();
        let pr = Seq::new(er.len(), |c: int| er[c].over(s));
        assert(p.drop_last() =~= pr);
        let last = e.last();
        assert(unit(e[e.len() - 1]));
        assert(unit(p[p.len() - 1]));
        assert forall|i: int| 0 <= i < er.len() implies unit(#[trigger] er[i]) by {
            assert(er[i] == e[i]);
        }
        lemma_quotients_error(er, s);
        let q = p.last();
        let m = last.value();
        lemma_unit_bounds(last);
        assert(m * h >= 0) by (nonlinear_arith)
            requires
                m >= 0,
                h > 0,
        ;
        lemma_rounded(m * h, v);
        assert(q.code() == rounded(m * h, v));
        lemma_unit_bounds(q);
        lemma_rounding_error(m * h, v);
        let (ps, es) = (exact_sum(pr), exact_sum(er));
        let w = q.value();
        let n = er.len() as int;
        assert(v * (ps + w) - (es + m) * h == (v * ps - es * h) + (v * w - m * h))
            by (nonlinear_arith);
        assert(v * (ps + n * 0x80_0000) + v * (w + 0x80_0000) == v * (ps + w + (n + 1) * 0x80_0000))
            by (nonlinear_arith);
    }
}

/// Softmax probabilities of numbers between zero and one, one of which is one, are a distribution.
proof fn lemma_softmax(e: Seq<F32>, c: int)
    requires
        forall|i: int| 0 <= i < e.len() ==> unit(#[trigger] e[i]),
        e.len() <= 100,
        0 <= c < e.len(),
        e[c] == (F32 { bits: ONE }),
    ensures
        distribution(Seq::new(e.len(), |i: int| e[i].over(running_sum(e)))),
{
    let s = running_sum(e);
    let p = Seq::new(e.len(), |i: int| e[i].over(s));
    let h = pow2(149) as int;
    let v = s.value();
    let (total, sum) = (exact_sum(e), exact_sum(p));
    let k = e.len() as int;
    lemma_one();
    lemma2_to64();
    lemma_pow2_strictly_increases(63, 149);
    lemma_pow2_strictly_increases(32, 63);
    assert(h >= 0x1_0000_0000);
    lemma_sum_error(e);
    lemma_sum_dominates(F32 { bits: NEGATIVE_ZERO }, e);
    assert(e[c].at_most(s));
    assert(v >= h);
    lemma_exact_sum_dominates(e, c);
    lemma_quotients_error(e, s);
    lemma_exact_sum_bounds(p);
    lemma_sum_error(p);
    assert(k * (2 * total + 0x200_0000) <= 100 * (2 * total + 0x200_0000)) by (nonlinear_arith)
        requires
            k <= 100,
            total >= 0,
    ;
    assert(k * h <= 100 * h) by (nonlinear_arith)
        requires
            k <= 100,
            h > 0,
    ;
    let off = absolute(v - total);
    assert(0x100_0000 * off <= 403 * v);
    let gap = absolute(sum - h);
    assert(0x100_0000 * gap <= 504 * h) by {
        let d = absolute(v * sum - total * h);
        assert(v * gap <= d + h * off) by (nonlinear_arith)
            requires
                d == v * sum - total * h || d == -(v * sum - total * h),
                d >= v * sum - total * h,
                d >= -(v * sum - total * h),
                off >= v - total,
                off >= total - v,
                gap == sum - h || gap == h - sum,
                h > 0,
        {
            assert(v * (sum - h) == (v * sum - total * h) + h * (total - v));
            assert(v * (h - sum) == -(v * sum - total * h) + h * (v - total));
            assert(h * (total - v) <= h * off);
            assert(h * (v - total) <= h * off);
        }
        assert(v * (sum + k * 0x80_0000) <= v * (101 * h)) by (nonlinear_arith)
            requires
                sum + k * 0x80_0000 <= 101 * h,
                v > 0,
        ;
        assert(0x100_0000 * (h * off) <= 403 * (h * v)) by (nonlinear_arith)
            requires
                0x100_0000 * off <= 403 * v,
                h > 0,
        ;
        assert(v * (101 * h) == 101 * (h * v)) by (nonlinear_arith);
        assert(0x100_0000 * (v * gap) <= 504 * (h * v));
        assert(0x100_0000 * gap <= 504 * h) by (nonlinear_arith)
            requires
                0x100_0000 * (v * gap) <= 504 * (h * v),
                v > 0,
        {
            if 0x100_0000 * gap > 504 * h {
                assert(v * (0x100_0000 * gap) > v * (504 * h));
                assert(v * (0x100_0000 * gap) == 0x100_0000 * (v * gap));
                assert(v * (504 * h) == 504 * (h * v));
            }
        }
    }
    assert(k * (2 * sum + 0x200_0000) <= 100 * (2 * sum + 0x200_0000)) by (nonlinear_arith)
        requires
            k <= 100,
            sum >= 0,
    ;
}

/// The arguments of the exponentials of comparable scores give numbers between zero and one, one of
/// which is one.
pub proof fn lemma_exponentials<E: Fn(F32) -> F32>(
    m: ClassModel,
    exp: E,
    row: Seq<F32>,
    exps: Seq<F32>,
) -> (c: int)
    requires
        exponential(exp),
        !m.binary,
        comparable(m.model.scores(row)),
        applied(exp, m.exp_inputs(row), exps),
    ensures
        forall|i: int| 0 <= i < exps.len() ==> unit(#[trigger] exps[i]),
        0 <= c < exps.len(),
        exps[c] == (F32 { bits: ONE }),
{
    let raw = m.model.scores(row);
    let args = m.exp_inputs(row);
    lemma_shifted(raw);
    assert forall|c: int| 0 <= c < exps.len() implies unit(#[trigger] exps[c]) by {
        assert(raw[c].minus(largest(raw)).at_most(F32 { bits: ZERO }));
        assert(exp.ensures((args[c],), exps[c]));
    }
    let c = choose|c: int| 0 <= c < raw.len() && (#[trigger] raw[c]).minus(largest(raw)).zero();
    assert(raw[c].minus(largest(raw)).at_most(F32 { bits: ZERO }));
    assert(exp.ensures((args[c],), exps[c]));
    c
}

/// The probabilities that a classifier with several classes may give for a row lie between zero and
/// one, however many there are. This takes a function that is like the exponential, and scores that
/// are numbers below infinity, one of them finite.
pub proof fn law_softmax_is_a_probability<E: Fn(F32) -> F32>(
    m: ClassModel,
    exp: E,
    row: Seq<F32>,
    p: Seq<F32>,
    c: int,
)
    requires
        exponential(exp),
        !m.binary,
        m.may_give(exp, row, p),
        comparable(m.model.scores(row)),
        0 <= c < p.len(),
    ensures
        (F32 { bits: ZERO }).at_most(p[c]),
        p[c].at_most(F32 { bits: ONE }),
{
    let exps = choose|exps: Seq<F32>| #[trigger]
        applied(exp, m.exp_inputs(row), exps) && p == m.probabilities(exps);
    let k = lemma_exponentials(m, exp, row, exps);
    let den = running_sum(exps);
    lemma_sum_is_bounded(exps);
    lemma_sum_dominates(F32 { bits: NEGATIVE_ZERO }, exps);
    lemma_one();
    lemma_pow2_pos(149);
    lemma_magnitude_order(den.code(), 0);
    assert(exps[k].at_most(den));
    assert(exps[c].at_most(den));
    lemma_unit_bounds(exps[c]);
    law_ratio_is_at_most_one(exps[c], den);
    lemma_rank_orders(F32 { bits: ZERO }, p[c]);
}

/// The probabilities that a classifier may give for a row are a distribution: they lie between zero
/// and one and add up to one within 1e-4. This takes a function that is like the exponential, at
/// most a hundred classes, and scores that are numbers below infinity, one of them finite; for two
/// classes, a score that is a number.
pub proof fn law_probabilities_are_a_distribution<E: Fn(F32) -> F32>(
    m: ClassModel,
    exp: E,
    row: Seq<F32>,
    p: Seq<F32>,
)
    requires
        exponential(exp),
        m.may_give(exp, row, p),
        m.binary ==> !m.model.scores(row)[0].nan(),
        !m.binary ==> comparable(m.model.scores(row)) && m.model.scores(row).len() <= 100,
    ensures
        distribution(p),
{
    let args = m.exp_inputs(row);
    let exps = choose|exps: Seq<F32>| #[trigger]
        applied(exp, args, exps) && p == m.probabilities(exps);
    if m.binary {
        assert(exp.ensures((args[0],), exps[0]));
        lemma_two_are_a_distribution(m, exps);
    } else {
        let c = lemma_exponentials(m, exp, row, exps);
        lemma_softmax(exps, c);
    }
}

proof fn lemma_two_are_a_distribution(m: ClassModel, exps: Seq<F32>)
    requires
        m.binary,
        exps.len() == 1,
        !exps[0].nan(),
        !exps[0].negative(),
    ensures
        distribution(m.probabilities(exps)),
{
    let p = m.probabilities(exps);
    let one = F32 { bits: ONE };
    let start = F32 { bits: NEGATIVE_ZERO };
    law_logistic_is_a_probability(exps[0]);
    law_two_probabilities_add_to_one(m, exps);
    lemma_logistic_sign(exps[0]);
    lemma_rank_orders(F32 { bits: ZERO }, p[0]);
    lemma_rank_orders(p[0], one);
    lemma_rank_orders(F32 { bits: ZERO }, p[1]);
    lemma_rank_orders(p[1], one);
    lemma_one();
    lemma_left_over_sign(p[1]);
    let first = p.drop_last();
    assert(first.drop_last() =~= Seq::<F32>::empty());
    assert(start.plus(p[0]) == p[0]) by {
        if p[0].zero() {
        } else {
            lemma_plus_negative_zero(p[0]);
            law_plus_commutes(start, p[0]);
        }
    }
    assert(running_sum(first.drop_last()) == start);
    assert(running_sum(first) == p[0]);
    assert(running_sum(p) == one);
    let v = p[0].value() + p[1].value();
    assert(exact_sum(first.drop_last()) == 0);
    assert(exact_sum(first) == p[0].value());
    assert(exact_sum(p) == v);
    lemma_rounded(v, 1);
    lemma_rounded_zero(1);
    lemma_magnitude_order(p[0].code(), 0);
    lemma_magnitude_order(p[1].code(), 0);
    assert(rounded(v, 1) == ONE);
    lemma_rounding_error(v, 1);
    lemma2_to64();
    lemma_pow2_strictly_increases(63, 149);
}

/// What is left to one is not negative.
pub proof fn lemma_left_over_sign(p: F32)
    requires
        unit(p),
    ensures
        !(F32 { bits: ONE }).minus(p).negative(),
{
    let one = F32 { bits: ONE };
    let v = one.value() + p.negated().value();
    lemma_rank_orders(p, one);
    lemma_rounded(absolute(v), 1);
}

} // verus!
