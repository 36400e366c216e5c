//! What predicted probabilities keep to.

use crate::classifier::ClassModel;
use crate::float::arith::absolute;
use crate::float::error::{gap_exponent, lemma_gap, lemma_gaps_grow};
use crate::float::laws::{
    law_plus_commutes, law_plus_keeps_order, law_plus_zero, law_ratio_is_at_most_one,
    law_self_difference_is_zero, lemma_one, lemma_plus_negative_zero, lemma_rounded,
    lemma_rounded_monotone, lemma_sum_is_number,
};
use crate::float::model::{
    lemma_magnitude_of_parts, lemma_magnitude_order, lemma_rank_orders, magnitude, with_sign,
};
use crate::float::round::{lemma_nearest_exact, lemma_nearest_unique, nearest, rounded};
use crate::float::F32;
use crate::objective::{logistic, sum_from, ONE, ZERO};
use vstd::arithmetic::power2::{
    lemma2_to64, lemma_pow2_adds, lemma_pow2_pos, lemma_pow2_unfold, pow2,
};
use vstd::prelude::*;

verus! {

/// The logistic function of a non-negative exponential lies between zero and one, and so does what
/// is left to one.
pub proof fn law_logistic_is_a_probability(e: F32)
    requires
        !e.nan(),
        !e.negative(),
    ensures
        ({
            let one = F32 { bits: ONE };
            let p = logistic(e);
            &&& (F32 { bits: ZERO }).at_most(p)
            &&& p.at_most(one)
            &&& (F32 { bits: ZERO }).at_most(one.minus(p))
            &&& one.minus(p).at_most(one)
        }),
{
    let one = F32 { bits: ONE };
    let zero = F32 { bits: ZERO };
    lemma_magnitude_order(e.code(), 0);
    lemma_rank_orders(zero, e);
    law_plus_zero(one);
    law_plus_commutes(zero, one);
    lemma_rank_orders(one, one);
    lemma_sum_is_number(one, e);
    law_plus_keeps_order(one, zero, one, e);
    let den = one.plus(e);
    lemma_rank_orders(one, den);
    law_ratio_is_at_most_one(one, den);
    let p = logistic(e);
    lemma_rank_orders(zero, p);
    lemma_rank_orders(p, one);
    // One less p lies between one less one and one less zero.
    let q = p.negated();
    let minus_one = one.negated();
    let minus_zero = zero.negated();
    lemma_rank_orders(minus_one, q);
    lemma_rank_orders(q, minus_zero);
    lemma_sum_is_number(one, q);
    lemma_sum_is_number(one, minus_one);
    lemma_sum_is_number(one, minus_zero);
    law_plus_keeps_order(one, minus_one, one, q);
    law_plus_keeps_order(one, q, one, minus_zero);
    law_self_difference_is_zero(one);
    lemma_plus_negative_zero(one);
}

/// The logistic function of a non-negative exponential has no negative sign.
pub proof fn lemma_logistic_sign(e: F32)
    requires
        !e.nan(),
        !e.negative(),
    ensures
        !logistic(e).negative(),
        !logistic(e).nan(),
{
    let one = F32 { bits: ONE };
    let zero = F32 { bits: ZERO };
    lemma_magnitude_order(e.code(), 0);
    lemma_rank_orders(zero, e);
    law_plus_zero(one);
    law_plus_commutes(zero, one);
    lemma_rank_orders(one, one);
    lemma_sum_is_number(one, e);
    law_plus_keeps_order(one, zero, one, e);
    lemma_rank_orders(one, one.plus(e));
    law_ratio_is_at_most_one(one, one.plus(e));
}

/// Sums of non-negative numbers grow with each term, and are not below any of their terms.
pub proof fn lemma_sum_dominates(start: F32, s: Seq<F32>)
    requires
        start.zero(),
        forall|i: int| 0 <= i < s.len() ==> !(#[trigger] s[i]).nan() && !s[i].negative(),
    ensures
        !sum_from(start, s).nan(),
        (F32 { bits: ZERO }).at_most(sum_from(start, s)),
        forall|i: int|
            0 <= i < s.len() ==> (#[trigger] s[i]).at_most(sum_from(start, s)),
    decreases s.len(),
{
    let zero = F32 { bits: ZERO };
    lemma_rank_orders(zero, start);
    if s.len() > 0 {
        let rest = s.drop_last();
        let last = s.last();
        assert(last == s[s.len() - 1]);
        assert forall|i: int| 0 <= i < rest.len() implies !(#[trigger] rest[i]).nan()
            && !rest[i].negative() by {
            assert(rest[i] == s[i]);
        }
        lemma_sum_dominates(start, rest);
        let before = sum_from(start, rest);
        let sum = sum_from(start, s);
        lemma_magnitude_order(last.code(), 0);
        lemma_magnitude_order(before.code(), 0);
        lemma_rank_orders(zero, last);
        lemma_rank_orders(zero, before);
        assert(!sum.nan()) by {
            lemma_rounded(absolute(before.value() + last.value()), 1);
        }
        assert(before.at_most(sum)) by {
            lemma_plus_zero_value(before);
            law_plus_keeps_order(before, zero, before, last);
        }
        assert(last.at_most(sum)) by {
            lemma_plus_zero_value(last);
            law_plus_commutes(zero, last);
            law_plus_keeps_order(zero, last, before, last);
        }
        assert forall|i: int| 0 <= i < s.len() implies (#[trigger] s[i]).at_most(sum) by {
            if i < rest.len() {
                assert(rest[i] == s[i]);
                assert(rest[i].at_most(before));
            }
        }
    }
}

/// Adding zero changes no value.
pub proof fn lemma_plus_zero_value(a: F32)
    requires
        !a.nan(),
    ensures
        !a.plus(F32 { bits: ZERO }).nan(),
        a.plus(F32 { bits: ZERO }).value() == a.value(),
{
    let zero = F32 { bits: ZERO };
    lemma_rank_orders(a, a.plus(zero));
    if a.finite() {
        lemma_magnitude_order(a.code(), 0);
        lemma_nearest_exact(
            a.code(),
            magnitude(a.code()),
            1,
        );
    }
}

/// Below one, neighbouring numbers are at most 2^-24 apart.
proof fn lemma_gap_below_one(code: int)
    requires
        0 <= code < ONE,
    ensures
        magnitude(code + 1) - magnitude(code) <= pow2(125),
{
    lemma_gap(code);
    lemma_gaps_grow(code, ONE - 1);
    assert(gap_exponent(ONE - 1) == 125);
}

/// The two probabilities of a two-class model add up to exactly one, in spite of rounding.
pub proof fn law_two_probabilities_add_to_one(m: ClassModel, exps: Seq<F32>)
    requires
        m.binary,
        exps.len() == 1,
        !exps[0].nan(),
        !exps[0].negative(),
    ensures
        m.probabilities(exps)[0].plus(m.probabilities(exps)[1]) == (F32 { bits: ONE }),
{
    let one = F32 { bits: ONE };
    let p = logistic(exps[0]);
    let q = one.minus(p);
    law_logistic_is_a_probability(exps[0]);
    lemma_rank_orders(F32 { bits: ZERO }, p);
    lemma_rank_orders(p, one);
    let h = pow2(149) as int;
    lemma_one();
    lemma_nearest_exact(ONE as int, h, 1);
    lemma_logistic_sign(exps[0]);
    let v = h - magnitude(p.code());
    lemma_magnitude_order(p.code(), 0);
    lemma_magnitude_order(p.code(), ONE as int);
    if v == 0 {
        assert(q == (F32 { bits: ZERO }));
    } else {
        let c = rounded(v, 1);
        lemma_rounded(v, 1);
        lemma_rounded_monotone(v, 1, h, 1);
        assert(q == with_sign(false, c));
        let s = magnitude(c) + magnitude(p.code());
        // The neighbours of one.
        lemma2_to64();
        lemma_pow2_adds(24, 125);
        lemma_pow2_unfold(126);
        lemma_pow2_pos(125);
        lemma_magnitude_of_parts(125, 0xff_ffff);
        lemma_magnitude_of_parts(126, 0x80_0001);
        let u = pow2(125) as int;
        assert(pow2(24) == 0x100_0000);
        assert(h == 0x100_0000 * u);
        assert(125nat * 0x80_0000 + 0xff_ffff == ONE - 1);
        assert(126nat * 0x80_0000 + 0x80_0001 == ONE + 1);
        assert(0xff_ffff * u == 0x100_0000 * u - u && 0x80_0001 * (2 * u) == 0x100_0000 * u + 2 * u)
            by (nonlinear_arith);
        assert(magnitude(ONE - 1) == h - u);
        assert(magnitude(ONE + 1) == h + 2 * u);
        lemma_magnitude_order(c, 0);
        if c < ONE {
            lemma_gap_below_one(c);
        }
        if c > 0 {
            lemma_gap_below_one(c - 1);
        }
        assert(-u <= 2 * (magnitude(c) - v) <= u);
        assert(2 * h - u <= 2 * s <= 2 * h + u);
        assert(nearest(ONE as int, s, 1));
        lemma_nearest_unique(ONE as int, s, 1);
    }
}

} // verus!
