//! Leaves hold Newton steps, and splits are scored by what such steps gain.

use crate::float::arith::absolute;
use crate::float::error::{
    lemma_product_error_of, lemma_quotient_error_of, lemma_rounded_below, lemma_sum_error_of,
};
use crate::float::laws::lemma_rounded;
use crate::float::model::{lemma_magnitude_order, magnitude};
use crate::float::round::rounded;
use crate::float::F32;
use crate::grid::{lemma_row_start, row_of};
use crate::grow::rows_below;
use crate::laws::sums::{
    finite_at, lemma_filter_part, lemma_left_error, lemma_natural_sum, lemma_sum_size,
    lemma_total_error, lemma_two_sides, natural_at, on_side, rows_of, size_at, sum_at,
};
use crate::split::{law_split_keeps_min_leaf, lemma_side_members, total, Samples};
use crate::tree::Shape;
use vstd::arithmetic::power2::{
    lemma2_to64, lemma_pow2_adds, lemma_pow2_pos, lemma_pow2_strictly_increases,
    lemma_pow2_unfold, pow2,
};
use vstd::prelude::*;

verus! {

/// Whether `l` is the Newton step `-g / d`, up to rounding: all counted in steps of 2^-149, for `k`
/// rows whose first derivatives are of size `size` in all.
pub open spec fn newton_step(l: int, g: int, size: int, d: int, k: int) -> bool {
    0xff_ffff * absolute(l * d + g * pow2(149)) <= 4 * (k + 1) * (absolute(l) * d + size * pow2(
        149,
    )) + 0x100_0000 * d
}

/// Whether the derivatives of some rows leave room for their sums and their Newton step.
pub open spec fn steady(grad: Seq<F32>, hess: Seq<F32>, lambda: F32, idx: Seq<usize>) -> bool {
    &&& idx.len() <= 0x20_0000
    &&& finite_at(grad, idx)
    &&& finite_at(hess, idx)
    &&& natural_at(hess, idx)
    &&& lambda.finite()
    &&& lambda.value() >= 0
    &&& 0 < sum_at(hess, idx) + lambda.value() <= pow2(270)
    &&& size_at(grad, idx) <= pow2(270)
    &&& size_at(grad, idx) * pow2(149) <= (sum_at(hess, idx) + lambda.value()) * pow2(270)
}

/// The value of a leaf is the Newton step over its rows, at every scale: times the exact sum of the
/// second derivatives and lambda, it is minus the exact sum of the first derivatives, up to
/// rounding.
pub proof fn law_leaf_is_a_newton_step(s: Samples, idx: Seq<usize>)
    requires
        steady(s.grad, s.hess, s.lambda, idx),
    ensures
        s.leaf_value(idx).finite(),
        newton_step(
            s.leaf_value(idx).value(),
            sum_at(s.grad, idx),
            size_at(s.grad, idx),
            sum_at(s.hess, idx) + s.lambda.value(),
            idx.len() as int,
        ),
{
    let k = idx.len() as int;
    let u = pow2(149) as int;
    let (gx, size) = (sum_at(s.grad, idx), size_at(s.grad, idx));
    let hx = sum_at(s.hess, idx);
    let d = hx + s.lambda.value();
    let (g, h) = (total(s.grad, idx), total(s.hess, idx));
    lemma_pow2_pos(149);
    lemma_pow2_pos(270);
    lemma_natural_sum(s.hess, idx);
    lemma_sum_size(s.grad, idx);
    lemma_total_error(s.grad, idx);
    lemma_total_error(s.hess, idx);
    let (eg, eh) = (absolute(g.value() - gx), absolute(h.value() - hx));
    assert(2 * k * size <= 0x40_0000 * size) by (nonlinear_arith)
        requires
            k <= 0x20_0000,
            size >= 0,
    ;
    assert(2 * k * hx <= 0x40_0000 * hx) by (nonlinear_arith)
        requires
            k <= 0x20_0000,
            hx >= 0,
    ;
    assert(2 * k * hx <= 2 * k * d) by (nonlinear_arith)
        requires
            k >= 0,
            hx <= d,
    ;
    let den = h.plus(s.lambda);
    let x = h.value() + s.lambda.value();
    assert(x <= 2 * d);
    lemma_pow2_strictly_increases(270, 274);
    lemma_pow2_unfold(275);
    lemma_pow2_unfold(276);
    lemma_sum_error_of(h, s.lambda);
    let e = den.value();
    assert(0xff_ffff * absolute(e - x) <= x);
    assert(0xff_ffff * absolute(e - d) <= 2 * k * d + 2 * d);
    assert(2 * e >= d && e <= 2 * d);
    lemma_magnitude_order(den.code(), 0);
    let a = g.negated();
    assert(absolute(a.value()) * u <= absolute(e) * pow2(276)) by (nonlinear_arith)
        requires
            absolute(a.value()) <= 2 * size,
            size * u <= d * pow2(270),
            d <= 2 * e,
            absolute(e) == e,
            pow2(276) >= 4 * pow2(270),
            u > 0,
            pow2(270) > 0,
            e > 0,
    {
        let p = pow2(270) as int;
        assert(absolute(a.value()) * u <= (2 * size) * u);
        assert((2 * size) * u == 2 * (size * u));
        assert(d * p <= (2 * e) * p);
        assert(2 * ((2 * e) * p) == e * (4 * p));
        assert(e * (4 * p) <= e * pow2(276));
    }
    lemma_quotient_error_of(a, den);
    let l = a.over(den).value();
    let z = absolute(l);
    let r = absolute(l * e + g.value() * u);
    assert(g.value() * u == -((-g.value()) * u)) by (nonlinear_arith);
    assert(e * (z + 0x80_0000) <= 2 * (z * d) + 0x100_0000 * d) by (nonlinear_arith)
        requires
            0 <= e <= 2 * d,
            z >= 0,
    {
        assert(e * (z + 0x80_0000) <= (2 * d) * (z + 0x80_0000));
        assert((2 * d) * (z + 0x80_0000) == 2 * (z * d) + 0x100_0000 * d);
    }
    // What is left comes from the two sums.
    let w = absolute(d - e);
    assert(absolute(l * d + gx * u) <= r + z * w + u * eg) by (nonlinear_arith)
        requires
            r == l * e + g.value() * u || r == -(l * e + g.value() * u),
            r >= 0,
            z == l || z == -l,
            z >= 0,
            w == d - e || w == e - d,
            w >= 0,
            eg == g.value() - gx || eg == gx - g.value(),
            eg >= 0,
            u > 0,
            absolute(l * d + gx * u) == l * d + gx * u || absolute(l * d + gx * u) == -(l * d + gx
                * u),
    {
        let q = g.value();
        assert(l * d + gx * u == (l * e + q * u) + l * (d - e) + u * (gx - q));
        assert(l * (d - e) <= z * w && -(z * w) <= l * (d - e));
        assert(u * (gx - q) <= u * eg && -(u * eg) <= u * (gx - q));
    }
    assert(0xff_ffff * (z * w) <= (2 * k + 2) * (z * d)) by (nonlinear_arith)
        requires
            0xff_ffff * w <= 2 * k * d + 2 * d,
            z >= 0,
    {
        assert(z * (0xff_ffff * w) <= z * (2 * k * d + 2 * d));
        assert(z * (2 * k * d + 2 * d) == (2 * k + 2) * (z * d));
        assert(z * (0xff_ffff * w) == 0xff_ffff * (z * w));
    }
    assert(0xff_ffff * (u * eg) <= 2 * k * (size * u)) by (nonlinear_arith)
        requires
            0xff_ffff * eg <= 2 * k * size,
            u > 0,
    {
        assert(u * (0xff_ffff * eg) <= u * (2 * k * size));
        assert(u * (2 * k * size) == 2 * k * (size * u));
        assert(u * (0xff_ffff * eg) == 0xff_ffff * (u * eg));
    }
    let (p, q) = (z * d, size * u);
    assert(p >= 0 && q >= 0) by (nonlinear_arith)
        requires
            p == z * d,
            q == size * u,
            z >= 0,
            d >= 0,
            size >= 0,
            u >= 0,
    ;
    assert((2 * k + 2) * p + 2 * p + 2 * k * q <= 4 * (k + 1) * (p + q)) by (nonlinear_arith)
        requires
            p >= 0,
            q >= 0,
            k >= 0,
    ;
}

/// Whether two rows end in the same leaf.
pub open spec fn same_leaf(shape: Shape, a: Seq<u8>, b: Seq<u8>) -> bool
    decreases shape,
{
    match shape {
        Shape::Leaf { .. } => true,
        Shape::Split { feature, threshold, left, right, .. } => {
            let (x, y) = (a[feature as int] <= threshold, b[feature as int] <= threshold);
            x == y && if x {
                same_leaf(*left, a, b)
            } else {
                same_leaf(*right, a, b)
            }
        },
    }
}

/// The rows among some that end in the leaf that row `i` ends in.
pub open spec fn leaf_mates(
    binned: Seq<u8>,
    d: nat,
    shape: Shape,
    idx: Seq<usize>,
    i: usize,
) -> Seq<usize> {
    idx.filter(mates_of(binned, d, shape, i))
}

/// Whether rows end in the leaf that row `i` ends in.
pub open spec fn mates_of(
    binned: Seq<u8>,
    d: nat,
    shape: Shape,
    i: usize,
) -> spec_fn(usize) -> bool {
    |j: usize|
        same_leaf(
            shape,
            row_of(binned, i as int, d as int),
            row_of(binned, j as int, d as int),
        )
}

/// The rows that a split sends to a side are those on that side of its threshold.
pub proof fn lemma_side_rows(s: Samples, idx: Seq<usize>, f: int, b: int, left: bool)
    ensures
        s.side(idx, f, b, left) == rows_of(s, idx, f, b, left),
    decreases idx.len(),
{
    reveal(Seq::filter);
    if idx.len() > 0 {
        lemma_side_rows(s, idx.drop_last(), f, b, left);
    }
}

/// Filtering twice is filtering once.
proof fn lemma_filter_twice(
    idx: Seq<usize>,
    p: spec_fn(usize) -> bool,
    q: spec_fn(usize) -> bool,
    r: spec_fn(usize) -> bool,
)
    requires
        forall|k: int| 0 <= k < idx.len() ==> r(#[trigger] idx[k]) == (p(idx[k]) && q(idx[k])),
    ensures
        idx.filter(p).filter(q) == idx.filter(r),
    decreases idx.len(),
{
    reveal(Seq::filter);
    if idx.len() > 0 {
        let rest = idx.drop_last();
        assert forall|k: int| 0 <= k < rest.len() implies r(#[trigger] rest[k]) == (p(rest[k]) && q(
            rest[k],
        )) by {
            assert(rest[k] == idx[k]);
        }
        lemma_filter_twice(rest, p, q, r);
        assert(idx.last() == idx[idx.len() - 1]);
        if p(idx.last()) {
            assert(idx.filter(p).drop_last() =~= rest.filter(p));
        }
    } else {
        assert(idx.filter(p) =~= Seq::empty());
    }
}

/// A tree gives each row that it is grown on the leaf value of the rows that end with it.
proof fn lemma_rows_reach_their_leaf(
    s: Samples,
    n: nat,
    idx: Seq<usize>,
    depth: nat,
    i: usize,
)
    requires
        s.bins.len() == s.d,
        forall|g: int| 0 <= g < s.d ==> 1 <= #[trigger] s.bins[g] <= 256,
        s.binned.len() == n * s.d,
        rows_below(idx, n),
        idx.contains(i),
    ensures
        s.grown(idx, depth).eval(row_of(s.binned, i as int, s.d as int)) == s.leaf_value(
            leaf_mates(s.binned, s.d, s.grown(idx, depth), idx, i),
        ),
    decreases s.max_depth - depth,
{
    let shape = s.grown(idx, depth);
    let row = row_of(s.binned, i as int, s.d as int);
    let mates = mates_of(s.binned, s.d, shape, i);
    law_split_keeps_min_leaf(s, idx);
    match shape {
        Shape::Leaf { .. } => {
            lemma_filter_all(idx, mates);
        },
        Shape::Split { feature, threshold, left, right, .. } => {
            let (f, t) = (feature as int, threshold as int);
            let go = row[f] <= threshold;
            let part = s.side(idx, f, t, go);
            let child = if go { *left } else { *right };
            let sides = on_side(s, f, t, go);
            let inner = mates_of(s.binned, s.d, child, i);
            lemma_side_rows(s, idx, f, t, go);
            lemma_side_members(s, idx, f, t, go, n);
            let k = choose|k: int| 0 <= k < idx.len() && idx[k] == i;
            assert forall|k: int| 0 <= k < idx.len() implies {
                &&& row_of(s.binned, (#[trigger] idx[k]) as int, s.d as int)[f]
                    == s.binned[idx[k] * s.d + f]
                &&& mates(idx[k]) == (sides(idx[k]) && inner(idx[k]))
            } by {
                lemma_row_start(idx[k] as int, n as int, s.d as int);
                lemma_row_start(i as int, n as int, s.d as int);
            }
            lemma_filter_twice(idx, sides, inner, mates);
            assert(sides(idx[k]));
            lemma_filter_contains(idx, sides, i);
            lemma_rows_reach_their_leaf(s, n, part, depth + 1, i);
        },
    }
}

proof fn lemma_filter_all(idx: Seq<usize>, p: spec_fn(usize) -> bool)
    requires
        forall|k: int| 0 <= k < idx.len() ==> p(#[trigger] idx[k]),
    ensures
        idx.filter(p) == idx,
    decreases idx.len(),
{
    reveal(Seq::filter);
    if idx.len() > 0 {
        let rest = idx.drop_last();
        assert forall|k: int| 0 <= k < rest.len() implies p(#[trigger] rest[k]) by {
            assert(rest[k] == idx[k]);
        }
        lemma_filter_all(rest, p);
        assert(p(idx[idx.len() - 1]));
        assert(rest.push(idx.last()) =~= idx);
    } else {
        assert(idx.filter(p) =~= idx);
    }
}

proof fn lemma_filter_contains(idx: Seq<usize>, p: spec_fn(usize) -> bool, i: usize)
    requires
        idx.contains(i),
        p(i),
    ensures
        idx.filter(p).contains(i),
    decreases idx.len(),
{
    reveal(Seq::filter);
    let rest = idx.drop_last();
    let all = idx.filter(p);
    if idx.last() == i {
        assert(all[all.len() - 1] == i);
    } else {
        let k = choose|k: int| 0 <= k < idx.len() && idx[k] == i;
        assert(rest[k] == i);
        lemma_filter_contains(rest, p, i);
        let part = rest.filter(p);
        let j = choose|j: int| 0 <= j < part.len() && part[j] == i;
        assert(all[j] == i);
    }
}

/// A tree gives each row that it is grown on the Newton step over exactly those of the rows that end
/// in the same leaf.
pub proof fn law_tree_gives_newton_steps(s: Samples, n: nat, idx: Seq<usize>, depth: nat, i: usize)
    requires
        s.bins.len() == s.d,
        forall|g: int| 0 <= g < s.d ==> 1 <= #[trigger] s.bins[g] <= 256,
        s.binned.len() == n * s.d,
        rows_below(idx, n),
        idx.contains(i),
        steady(
            s.grad,
            s.hess,
            s.lambda,
            leaf_mates(s.binned, s.d, s.grown(idx, depth), idx, i),
        ),
    ensures
        ({
            let mates = leaf_mates(s.binned, s.d, s.grown(idx, depth), idx, i);
            let v = s.grown(idx, depth).eval(row_of(s.binned, i as int, s.d as int));
            &&& v.finite()
            &&& newton_step(
                v.value(),
                sum_at(s.grad, mates),
                size_at(s.grad, mates),
                sum_at(s.hess, mates) + s.lambda.value(),
                mates.len() as int,
            )
        }),
{
    lemma_rows_reach_their_leaf(s, n, idx, depth, i);
    law_leaf_is_a_newton_step(s, leaf_mates(s.binned, s.d, s.grown(idx, depth), idx, i));
}

/// A split may be taken exactly where at least `min_leaf` rows are in the bins up to its threshold
/// and at least `min_leaf` rows are in the bins above.
pub proof fn law_eligible_splits_leave_enough_rows(s: Samples, idx: Seq<usize>, f: int, b: int)
    ensures
        s.eligible(idx, f, b) <==> rows_of(s, idx, f, b, true).len() >= s.min_leaf && rows_of(
            s,
            idx,
            f,
            b,
            false,
        ).len() >= s.min_leaf,
{
    lemma_side_rows(s, idx, f, b, true);
    lemma_side_rows(s, idx, f, b, false);
}

/// Sums of derivatives on the left, on the right and over all rows.
pub struct SplitSums {
    pub gl: int,
    pub hl: int,
    pub gr: int,
    pub hr: int,
    pub g: int,
    pub h: int,
}

/// Whether a sum over rows is exact up to rounding.
pub open spec fn close(x: int, exact: int, size: int, k: int) -> bool {
    0xff_ffff * absolute(x - exact) <= (4 * k + 1028) * size
}

/// Whether sums are those of the rows with bins up to `b`, of the rows with bins above, and of all
/// rows, up to rounding.
pub open spec fn close_sums(s: Samples, idx: Seq<usize>, f: int, b: int, v: SplitSums) -> bool {
    let (l, r) = (rows_of(s, idx, f, b, true), rows_of(s, idx, f, b, false));
    let k = idx.len() as int;
    let (zg, zh) = (size_at(s.grad, idx), size_at(s.hess, idx));
    &&& close(v.gl, sum_at(s.grad, l), zg, k)
    &&& close(v.hl, sum_at(s.hess, l), zh, k)
    &&& close(v.gr, sum_at(s.grad, r), zg, k)
    &&& close(v.hr, sum_at(s.hess, r), zh, k)
    &&& close(v.g, sum_at(s.grad, idx), zg, k)
    &&& close(v.h, sum_at(s.hess, idx), zh, k)
}

/// Whether `c` is `g * g / d` up to rounding.
pub open spec fn score_near(c: int, g: int, d: int) -> bool {
    c >= 0 && 0x100_0000 * absolute(c * d - g * g) <= 4 * (c * d + g * g) + 0x100_0000 * (d + pow2(
        149,
    ))
}

/// Whether a gain is what the scores of the two sides have over the score of the whole, up to
/// rounding.
pub open spec fn adds_up(gain: F32, l: int, r: int, w: int) -> bool {
    gain.finite() && 0x100_0000 * absolute(gain.value() - (l + r - w)) <= 8 * (l + r + w)
}

/// Whether a gain is `gl^2 / (hl + lambda) + gr^2 / (hr + lambda) - g^2 / (h + lambda)` up to
/// rounding, as long as the three denominators are at least 2^-20.
pub open spec fn explains(gain: F32, lambda: int, v: SplitSums) -> bool {
    v.hl + lambda >= pow2(129) && v.hr + lambda >= pow2(129) && v.h + lambda >= pow2(129) ==> {
        exists|l: int, r: int, w: int|
            score_near(l, v.gl, v.hl + lambda) && score_near(r, v.gr, v.hr + lambda) && score_near(
                w,
                v.g,
                v.h + lambda,
            ) && #[trigger] adds_up(gain, l, r, w)
    }
}

/// The score of sums.
proof fn lemma_score(s: Samples, g: F32, h: F32)
    requires
        g.finite(),
        h.finite(),
        s.lambda.finite(),
        absolute(g.value()) <= pow2(200),
        h.value() + s.lambda.value() <= pow2(200),
        h.value() + s.lambda.value() >= pow2(129),
    ensures
        s.score(g, h).finite(),
        s.score(g, h).value() <= pow2(274),
        score_near(s.score(g, h).value(), g.value(), h.value() + s.lambda.value()),
{
    let u = pow2(149) as int;
    let x = g.value();
    let d = h.value() + s.lambda.value();
    lemma_pow2_pos(149);
    lemma_pow2_pos(129);
    lemma_pow2_strictly_increases(200, 276);
    // The square.
    let sq = x * x;
    assert(0 <= sq <= pow2(200) * pow2(200)) by (nonlinear_arith)
        requires
            sq == x * x,
            absolute(x) <= pow2(200),
            absolute(x) == x || absolute(x) == -x,
            absolute(x) >= 0,
    ;
    lemma_pow2_adds(200, 200);
    lemma_pow2_adds(149, 276);
    lemma_pow2_adds(149, 252);
    lemma_pow2_strictly_increases(400, 401);
    lemma_pow2_strictly_increases(401, 425);
    lemma_product_error_of(g, g);
    let m = g.times(g);
    let mv = m.value();
    let um = u * mv;
    assert(u * (absolute(mv) + 0x80_0000) == um + 0x80_0000 * u) by (nonlinear_arith)
        requires
            absolute(mv) == mv,
            um == u * mv,
    ;
    assert(um <= 2 * sq + u);
    // The denominator.
    lemma_sum_error_of(h, s.lambda);
    let den = h.plus(s.lambda);
    let e = den.value();
    assert(2 * e >= d && 0xff_ffff * absolute(e - d) <= d);
    lemma_magnitude_order(den.code(), 0);
    lemma_magnitude_order(m.code(), 0);
    // The quotient.
    lemma_pow2_adds(128, 274);
    lemma_pow2_unfold(129);
    lemma_pow2_unfold(402);
    lemma_pow2_unfold(401);
    lemma_pow2_strictly_increases(149, 400);
    assert(mv * u <= e * pow2(274)) by (nonlinear_arith)
        requires
            u * mv <= pow2(402),
            e >= pow2(128),
            pow2(402) == pow2(128) * pow2(274),
    {
        assert(pow2(128) * pow2(274) <= e * pow2(274));
    }
    lemma_rounded_below(mv * u, e, 274);
    lemma_pow2_strictly_increases(274, 276);
    assert(absolute(mv) * u <= absolute(e) * pow2(276)) by (nonlinear_arith)
        requires
            mv * u <= e * pow2(274),
            absolute(mv) == mv,
            absolute(e) == e,
            e > 0,
            pow2(274) <= pow2(276),
    {
        assert(e * pow2(274) <= e * pow2(276));
    }
    lemma_quotient_error_of(m, den);
    let c = m.over(den).value();
    assert(magnitude(m.code()) == mv && magnitude(den.code()) == e);
    lemma_rounded(mv * u, e);
    lemma_magnitude_order(rounded(mv * u, e), 0);
    assert(absolute(c) == magnitude(rounded(mv * u, e)));
    assert(mv * u == um) by (nonlinear_arith)
        requires
            um == u * mv,
    ;
    let (ce, cd) = (c * e, c * d);
    assert(e * (c + 0x80_0000) == ce + 0x80_0000 * e) by (nonlinear_arith)
        requires
            ce == c * e,
    ;
    let w = absolute(e - d);
    assert(absolute(ce - cd) <= c * w) by (nonlinear_arith)
        requires
            ce == c * e,
            cd == c * d,
            c >= 0,
            w == e - d || w == d - e,
            w >= 0,
            absolute(ce - cd) == ce - cd || absolute(ce - cd) == cd - ce,
    {
        assert(c * (e - d) == ce - cd);
        assert(c * (d - e) == cd - ce);
        assert(c * (e - d) <= c * w);
        assert(c * (d - e) <= c * w);
    }
    assert(0xff_ffff * (c * w) <= cd) by (nonlinear_arith)
        requires
            0xff_ffff * w <= d,
            cd == c * d,
            c >= 0,
    {
        assert(c * (0xff_ffff * w) <= c * d);
        assert(c * (0xff_ffff * w) == 0xff_ffff * (c * w));
    }
    assert(cd >= 0) by (nonlinear_arith)
        requires
            cd == c * d,
            c >= 0,
            d >= 0,
    ;
    assert(absolute(cd - sq) <= absolute(ce - um) + absolute(ce - cd) + absolute(um - sq));
}

/// The gain of a split is the second-order gain: the scores of the rows with bins up to the
/// threshold and of the rows with bins above, less the score of all rows, whatever the number of the
/// feature is. A score is the square of the sum of the first derivatives by the sum of the second
/// derivatives and lambda.
pub proof fn law_gain_is_second_order(s: Samples, idx: Seq<usize>, f: int, b: int)
    requires
        idx.len() <= 0x10_0000,
        finite_at(s.grad, idx),
        finite_at(s.hess, idx),
        natural_at(s.hess, idx),
        s.lambda.finite(),
        0 <= s.lambda.value() <= pow2(190),
        size_at(s.grad, idx) <= pow2(190),
        size_at(s.hess, idx) <= pow2(190),
        0 <= b <= 255,
    ensures
        exists|v: SplitSums| #[trigger]
            close_sums(s, idx, f, b, v) && explains(s.gain(idx, f, b), s.lambda.value(), v),
{
    let (gl, hl) = (
        s.left_total(s.grad, idx, f, b),
        s.left_total(s.hess, idx, f, b),
    );
    let (g, h) = (total(s.grad, idx), total(s.hess, idx));
    let (gr, hr) = (g.minus(gl), h.minus(hl));
    let k = idx.len() as int;
    lemma_pow2_pos(129);
    lemma_pow2_strictly_increases(190, 199);
    lemma_pow2_strictly_increases(190, 195);
    lemma_pow2_strictly_increases(190, 270);
    lemma_close(s, s.grad, idx, f, b);
    lemma_close(s, s.hess, idx, f, b);
    let v = SplitSums {
        gl: gl.value(),
        hl: hl.value(),
        gr: gr.value(),
        hr: hr.value(),
        g: g.value(),
        h: h.value(),
    };
    assert(close_sums(s, idx, f, b, v));
    let lambda = s.lambda.value();
    lemma_pow2_adds(10, 190);
    lemma2_to64();
    assert(pow2(200) == 1024 * pow2(190));
    if v.hl + lambda >= pow2(129) && v.hr + lambda >= pow2(129) && v.h + lambda >= pow2(129) {
        lemma_score(s, gl, hl);
        lemma_score(s, gr, hr);
        lemma_score(s, g, h);
        let (a, c, w) = (s.score(gl, hl), s.score(gr, hr), s.score(g, h));
        lemma_pow2_unfold(275);
        lemma_pow2_unfold(276);
        lemma_sum_error_of(a, c);
        let t = a.plus(c);
        assert(t.value() <= 2 * (a.value() + c.value()));
        lemma_sum_error_of(t, w.negated());
        assert(adds_up(s.gain(idx, f, b), a.value(), c.value(), w.value()));
    }
}

/// The sums that a gain is made of are close to the exact ones.
proof fn lemma_close(s: Samples, vals: Seq<F32>, idx: Seq<usize>, f: int, b: int)
    requires
        idx.len() <= 0x10_0000,
        finite_at(vals, idx),
        size_at(vals, idx) <= pow2(190),
        0 <= b <= 255,
    ensures
        ({
            let (t, l) = (total(vals, idx), s.left_total(vals, idx, f, b));
            let r = t.minus(l);
            let k = idx.len() as int;
            let size = size_at(vals, idx);
            &&& t.finite() && l.finite() && r.finite()
            &&& absolute(t.value()) <= 16 * pow2(190)
            &&& absolute(l.value()) <= 16 * pow2(190)
            &&& absolute(r.value()) <= 16 * pow2(190)
            &&& close(t.value(), sum_at(vals, idx), size, k)
            &&& close(l.value(), sum_at(vals, rows_of(s, idx, f, b, true)), size, k)
            &&& close(r.value(), sum_at(vals, rows_of(s, idx, f, b, false)), size, k)
        }),
{
    let (t, l) = (total(vals, idx), s.left_total(vals, idx, f, b));
    let r = t.minus(l);
    let k = idx.len() as int;
    let size = size_at(vals, idx);
    let left = rows_of(s, idx, f, b, true);
    let zl = size_at(vals, left);
    lemma_pow2_strictly_increases(190, 270);
    lemma_total_error(vals, idx);
    lemma_left_error(s, vals, idx, f, b);
    lemma_two_sides(s, vals, idx, f, b);
    lemma_filter_part(vals, idx, on_side(s, f, b, true));
    lemma_filter_part(vals, idx, on_side(s, f, b, false));
    lemma_sum_size(vals, idx);
    lemma_sum_size(vals, left);
    assert(2 * k * zl <= 2 * k * size) by (nonlinear_arith)
        requires
            k >= 0,
            zl <= size,
    ;
    assert(4 * (b + 1) * size <= 1024 * size) by (nonlinear_arith)
        requires
            b <= 255,
            size >= 0,
    ;
    assert((4 * k + 1028) * size == 2 * (2 * k * size) + 1028 * size) by (nonlinear_arith);
    assert(2 * k * size <= 0x20_0000 * size) by (nonlinear_arith)
        requires
            k <= 0x10_0000,
            size >= 0,
    ;
    assert(0 <= 2 * k * size) by (nonlinear_arith)
        requires
            k >= 0,
            size >= 0,
    ;
    let a = t.value() - l.value();
    assert(absolute(a) <= 4 * size);
    lemma_pow2_strictly_increases(190, 274);
    lemma_pow2_unfold(275);
    lemma_pow2_unfold(276);
    lemma_sum_error_of(t, l.negated());
    assert(0xff_ffff * absolute(r.value() - a) <= 4 * size);
}

/// The gain of a split depends on the derivatives of the rows and on the bins that they fall into,
/// not on which feature it is nor on what the table holds besides.
pub proof fn law_gain_ignores_the_number_of_the_feature(
    s: Samples,
    t: Samples,
    idx: Seq<usize>,
    f: int,
    g: int,
    b: int,
)
    requires
        s.grad == t.grad,
        s.hess == t.hess,
        s.lambda == t.lambda,
        s.min_leaf == t.min_leaf,
        forall|k: int|
            0 <= k < idx.len() ==> s.binned[(#[trigger] idx[k]) * s.d + f] == t.binned[idx[k] * t.d
                + g],
    ensures
        s.gain(idx, f, b) == t.gain(idx, g, b),
        s.eligible(idx, f, b) == t.eligible(idx, g, b),
        s.side(idx, f, b, true) == t.side(idx, g, b, true),
        s.side(idx, f, b, false) == t.side(idx, g, b, false),
{
    lemma_same_left(s, t, s.grad, idx, f, g, b);
    lemma_same_left(s, t, s.hess, idx, f, g, b);
    lemma_same_side(s, t, idx, f, g, b, true);
    lemma_same_side(s, t, idx, f, g, b, false);
}

proof fn lemma_same_bin_total(
    s: Samples,
    t: Samples,
    vals: Seq<F32>,
    idx: Seq<usize>,
    f: int,
    g: int,
    b: int,
)
    requires
        forall|k: int|
            0 <= k < idx.len() ==> s.binned[(#[trigger] idx[k]) * s.d + f] == t.binned[idx[k] * t.d
                + g],
    ensures
        s.bin_total(vals, idx, f, b) == t.bin_total(vals, idx, g, b),
    decreases idx.len(),
{
    if idx.len() > 0 {
        let rest = idx.drop_last();
        assert forall|k: int| 0 <= k < rest.len() implies s.binned[(#[trigger] rest[k]) * s.d + f]
            == t.binned[rest[k] * t.d + g] by {
            assert(rest[k] == idx[k]);
        }
        assert(idx.last() == idx[idx.len() - 1]);
        lemma_same_bin_total(s, t, vals, rest, f, g, b);
    }
}

proof fn lemma_same_left(
    s: Samples,
    t: Samples,
    vals: Seq<F32>,
    idx: Seq<usize>,
    f: int,
    g: int,
    b: int,
)
    requires
        forall|k: int|
            0 <= k < idx.len() ==> s.binned[(#[trigger] idx[k]) * s.d + f] == t.binned[idx[k] * t.d
                + g],
    ensures
        s.left_total(vals, idx, f, b) == t.left_total(vals, idx, g, b),
    decreases b + 1,
{
    if b >= 0 {
        lemma_same_left(s, t, vals, idx, f, g, b - 1);
        lemma_same_bin_total(s, t, vals, idx, f, g, b);
    }
}

proof fn lemma_same_side(
    s: Samples,
    t: Samples,
    idx: Seq<usize>,
    f: int,
    g: int,
    b: int,
    left: bool,
)
    requires
        forall|k: int|
            0 <= k < idx.len() ==> s.binned[(#[trigger] idx[k]) * s.d + f] == t.binned[idx[k] * t.d
                + g],
    ensures
        s.side(idx, f, b, left) == t.side(idx, g, b, left),
    decreases idx.len(),
{
    if idx.len() > 0 {
        let rest = idx.drop_last();
        assert forall|k: int| 0 <= k < rest.len() implies s.binned[(#[trigger] rest[k]) * s.d + f]
            == t.binned[rest[k] * t.d + g] by {
            assert(rest[k] == idx[k]);
        }
        assert(idx.last() == idx[idx.len() - 1]);
        lemma_same_side(s, t, rest, f, g, b, left);
    }
}

} // verus!
