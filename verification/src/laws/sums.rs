//! Sums over rows, exact and in floating point.

use crate::float::arith::absolute;
use crate::float::error::lemma_sum_error_of;
use crate::float::F32;
use crate::split::{total, Samples};
use vstd::arithmetic::power2::{
    lemma_pow2_pos, lemma_pow2_strictly_increases, lemma_pow2_unfold, pow2,
};
use vstd::prelude::*;

verus! {

/// The exact sum of the values of some rows, counted in steps of 2^-149.
pub open spec fn sum_at(vals: Seq<F32>, idx: Seq<usize>) -> int
    decreases idx.len(),
{
    if idx.len() == 0 {
        0
    } else {
        sum_at(vals, idx.drop_last()) + vals[idx.last() as int].value()
    }
}

/// The exact sum of the sizes of the values of some rows.
pub open spec fn size_at(vals: Seq<F32>, idx: Seq<usize>) -> int
    decreases idx.len(),
{
    if idx.len() == 0 {
        0
    } else {
        size_at(vals, idx.drop_last()) + absolute(vals[idx.last() as int].value())
    }
}

/// Whether some rows exist and their values are finite.
pub open spec fn finite_at(vals: Seq<F32>, idx: Seq<usize>) -> bool {
    forall|k: int|
        0 <= k < idx.len() ==> (#[trigger] idx[k]) < vals.len() && vals[idx[k] as int].finite()
}

/// Whether the values of some rows are not negative.
pub open spec fn natural_at(vals: Seq<F32>, idx: Seq<usize>) -> bool {
    forall|k: int| 0 <= k < idx.len() ==> vals[(#[trigger] idx[k]) as int].value() >= 0
}

/// Whether a row falls into one of the first `b + 1` bins of a feature.
pub open spec fn goes_left(s: Samples, i: usize, f: int, b: int) -> bool {
    s.binned[i * s.d + f] <= b
}

/// The rows that go left or right at a threshold, in their order.
pub open spec fn rows_of(s: Samples, idx: Seq<usize>, f: int, b: int, left: bool) -> Seq<usize> {
    idx.filter(on_side(s, f, b, left))
}

/// Whether rows go to one side of a threshold.
pub open spec fn on_side(s: Samples, f: int, b: int, left: bool) -> spec_fn(usize) -> bool {
    |i: usize| goes_left(s, i, f, b) == left
}

/// The rows in one bin.
pub open spec fn rows_in(s: Samples, idx: Seq<usize>, f: int, b: int) -> Seq<usize> {
    idx.filter(in_bin(s, f, b))
}

/// Whether rows are in one bin.
pub open spec fn in_bin(s: Samples, f: int, b: int) -> spec_fn(usize) -> bool {
    |i: usize| s.binned[i * s.d + f] == b
}

/// The rows of a part keep what holds of all rows.
pub proof fn lemma_filter_part(vals: Seq<F32>, idx: Seq<usize>, keep: spec_fn(usize) -> bool)
    ensures
        idx.filter(keep).len() <= idx.len(),
        finite_at(vals, idx) ==> finite_at(vals, idx.filter(keep)),
        natural_at(vals, idx) ==> natural_at(vals, idx.filter(keep)),
        0 <= size_at(vals, idx.filter(keep)) <= size_at(vals, idx),
    decreases idx.len(),
{
    reveal(Seq::filter);
    if idx.len() > 0 {
        let rest = idx.drop_last();
        let part = rest.filter(keep);
        let all = idx.filter(keep);
        let last = idx.last();
        lemma_filter_part(vals, rest, keep);
        assert(last == idx[idx.len() - 1]);
        if finite_at(vals, idx) {
            assert forall|k: int| 0 <= k < rest.len() implies (#[trigger] rest[k]) < vals.len()
                && vals[rest[k] as int].finite() by {
                assert(rest[k] == idx[k]);
            }
            assert forall|k: int| 0 <= k < all.len() implies (#[trigger] all[k]) < vals.len()
                && vals[all[k] as int].finite() by {
                if k < part.len() {
                    assert(all[k] == part[k]);
                }
            }
        }
        if natural_at(vals, idx) {
            assert forall|k: int| 0 <= k < rest.len() implies vals[(#[trigger] rest[k]) as int]
                .value() >= 0 by {
                assert(rest[k] == idx[k]);
            }
            assert forall|k: int| 0 <= k < all.len() implies vals[(#[trigger] all[k]) as int]
                .value() >= 0 by {
                if k < part.len() {
                    assert(all[k] == part[k]);
                }
            }
        }
        if keep(last) {
            assert(all.drop_last() =~= part);
        }
    }
}

/// The exact sum of numbers that are not negative is their size.
pub proof fn lemma_natural_sum(vals: Seq<F32>, idx: Seq<usize>)
    requires
        natural_at(vals, idx),
    ensures
        sum_at(vals, idx) == size_at(vals, idx),
        sum_at(vals, idx) >= 0,
    decreases idx.len(),
{
    if idx.len() > 0 {
        let rest = idx.drop_last();
        assert forall|k: int| 0 <= k < rest.len() implies vals[(#[trigger] rest[k]) as int].value()
            >= 0 by {
            assert(rest[k] == idx[k]);
        }
        assert(idx.last() == idx[idx.len() - 1]);
        lemma_natural_sum(vals, rest);
    }
}

/// A sum is at most as large as the sizes of its terms.
pub proof fn lemma_sum_size(vals: Seq<F32>, idx: Seq<usize>)
    ensures
        absolute(sum_at(vals, idx)) <= size_at(vals, idx),
    decreases idx.len(),
{
    if idx.len() > 0 {
        lemma_sum_size(vals, idx.drop_last());
    }
}

/// How far a sum over rows is from the exact sum: at most two parts in 2^24 of the sizes of the
/// terms, for each term.
pub proof fn lemma_total_error(vals: Seq<F32>, idx: Seq<usize>)
    requires
        finite_at(vals, idx),
        idx.len() <= 0x20_0000,
        size_at(vals, idx) <= pow2(270),
    ensures
        total(vals, idx).finite(),
        0xff_ffff * absolute(total(vals, idx).value() - sum_at(vals, idx)) <= 2 * idx.len()
            * size_at(vals, idx),
        natural_at(vals, idx) ==> total(vals, idx).value() >= 0,
    decreases idx.len(),
{
    lemma_pow2_pos(270);
    if idx.len() > 0 {
        let rest = idx.drop_last();
        let k = idx.len() as int;
        assert forall|k: int| 0 <= k < rest.len() implies (#[trigger] rest[k]) < vals.len()
            && vals[rest[k] as int].finite() by {
            assert(rest[k] == idx[k]);
        }
        assert(idx.last() == idx[k - 1]);
        if natural_at(vals, idx) {
            assert forall|k: int| 0 <= k < rest.len() implies vals[(#[trigger] rest[k]) as int]
                .value() >= 0 by {
                assert(rest[k] == idx[k]);
            }
        }
        let v = vals[idx.last() as int];
        lemma_sum_size(vals, rest);
        lemma_total_error(vals, rest);
        let before = total(vals, rest);
        let (old, size) = (size_at(vals, rest), size_at(vals, idx));
        let off = absolute(before.value() - sum_at(vals, rest));
        assert(2 * (k - 1) * old <= 0x40_0000 * old) by (nonlinear_arith)
            requires
                k <= 0x20_0000,
                old >= 0,
        ;
        assert(off <= old);
        let a = before.value() + v.value();
        assert(absolute(a) <= 2 * size);
        lemma_pow2_strictly_increases(270, 275);
        lemma_pow2_unfold(276);
        lemma_sum_error_of(before, v);
        let r = before.plus(v).value();
        assert(0xff_ffff * absolute(r - a) <= 2 * size);
        assert(2 * (k - 1) * old <= 2 * (k - 1) * size) by (nonlinear_arith)
            requires
                k > 0,
                old <= size,
        ;
        assert(2 * (k - 1) * size + 2 * size == 2 * k * size) by (nonlinear_arith);
        assert(absolute(r - sum_at(vals, idx)) <= absolute(r - a) + off);
    }
}

/// The total of a bin is the total of its rows.
pub proof fn lemma_bin_total(s: Samples, vals: Seq<F32>, idx: Seq<usize>, f: int, b: int)
    ensures
        s.bin_total(vals, idx, f, b) == total(vals, rows_in(s, idx, f, b)),
    decreases idx.len(),
{
    reveal(Seq::filter);
    if idx.len() > 0 {
        let rest = idx.drop_last();
        lemma_bin_total(s, vals, rest, f, b);
        let all = rows_in(s, idx, f, b);
        if s.bin(idx.last(), f) == b {
            assert(all.drop_last() =~= rows_in(s, rest, f, b));
        }
    }
}

/// Moving the threshold up by one brings one bin's rows to the left.
proof fn lemma_next_bin(s: Samples, vals: Seq<F32>, idx: Seq<usize>, f: int, b: int)
    ensures
        ({
            let (l, k, n) = (
                rows_of(s, idx, f, b, true),
                rows_of(s, idx, f, b - 1, true),
                rows_in(s, idx, f, b),
            );
            &&& sum_at(vals, l) == sum_at(vals, k) + sum_at(vals, n)
            &&& size_at(vals, l) == size_at(vals, k) + size_at(vals, n)
            &&& l.len() == k.len() + n.len()
        }),
    decreases idx.len(),
{
    reveal(Seq::filter);
    if idx.len() > 0 {
        let rest = idx.drop_last();
        lemma_next_bin(s, vals, rest, f, b);
        let (l, k, n) = (
            rows_of(s, idx, f, b, true),
            rows_of(s, idx, f, b - 1, true),
            rows_in(s, idx, f, b),
        );
        let bin = s.binned[idx.last() * s.d + f];
        if bin <= b {
            assert(l.drop_last() =~= rows_of(s, rest, f, b, true));
        }
        if bin <= b - 1 {
            assert(k.drop_last() =~= rows_of(s, rest, f, b - 1, true));
        }
        if bin == b {
            assert(n.drop_last() =~= rows_in(s, rest, f, b));
        }
    }
}

proof fn lemma_nothing_left(s: Samples, idx: Seq<usize>, f: int)
    ensures
        rows_of(s, idx, f, -1, true).len() == 0,
    decreases idx.len(),
{
    reveal(Seq::filter);
    if idx.len() > 0 {
        lemma_nothing_left(s, idx.drop_last(), f);
    }
}

/// The two sides of a threshold make up the whole.
pub proof fn lemma_two_sides(s: Samples, vals: Seq<F32>, idx: Seq<usize>, f: int, b: int)
    ensures
        ({
            let (l, r) = (rows_of(s, idx, f, b, true), rows_of(s, idx, f, b, false));
            &&& sum_at(vals, l) + sum_at(vals, r) == sum_at(vals, idx)
            &&& size_at(vals, l) + size_at(vals, r) == size_at(vals, idx)
            &&& l.len() + r.len() == idx.len()
        }),
    decreases idx.len(),
{
    reveal(Seq::filter);
    if idx.len() > 0 {
        let rest = idx.drop_last();
        lemma_two_sides(s, vals, rest, f, b);
        let (l, r) = (rows_of(s, idx, f, b, true), rows_of(s, idx, f, b, false));
        if goes_left(s, idx.last(), f, b) {
            assert(l.drop_last() =~= rows_of(s, rest, f, b, true));
        } else {
            assert(r.drop_last() =~= rows_of(s, rest, f, b, false));
        }
    }
}

/// How far the running sum of the bins up to a threshold is from the exact sum of their rows.
pub proof fn lemma_left_error(s: Samples, vals: Seq<F32>, idx: Seq<usize>, f: int, b: int)
    requires
        finite_at(vals, idx),
        idx.len() <= 0x20_0000,
        size_at(vals, idx) <= pow2(270),
        -1 <= b <= 255,
    ensures
        s.left_total(vals, idx, f, b).finite(),
        0xff_ffff * absolute(
            s.left_total(vals, idx, f, b).value() - sum_at(vals, rows_of(s, idx, f, b, true)),
        ) <= 2 * idx.len() * size_at(vals, rows_of(s, idx, f, b, true)) + 4 * (b + 1) * size_at(
            vals,
            idx,
        ),
        natural_at(vals, idx) ==> s.left_total(vals, idx, f, b).value() >= 0,
    decreases b + 1,
{
    let k = idx.len() as int;
    let size = size_at(vals, idx);
    lemma_pow2_pos(270);
    lemma_filter_part(vals, idx, on_side(s, f, b, true));
    if b < 0 {
        lemma_nothing_left(s, idx, f);
        assert(rows_of(s, idx, f, b, true) =~= Seq::<usize>::empty());
        assert(2 * k * 0 == 0) by (nonlinear_arith);
    } else {
        let (l, m, n) = (
            rows_of(s, idx, f, b, true),
            rows_of(s, idx, f, b - 1, true),
            rows_in(s, idx, f, b),
        );
        lemma_left_error(s, vals, idx, f, b - 1);
        lemma_bin_total(s, vals, idx, f, b);
        lemma_next_bin(s, vals, idx, f, b);
        lemma_filter_part(vals, idx, in_bin(s, f, b));
        lemma_filter_part(vals, idx, on_side(s, f, b - 1, true));
        lemma_total_error(vals, n);
        lemma_sum_size(vals, m);
        lemma_sum_size(vals, n);
        let (x, y) = (s.left_total(vals, idx, f, b - 1), s.bin_total(vals, idx, f, b));
        let (zl, zm, zn) = (size_at(vals, l), size_at(vals, m), size_at(vals, n));
        let (dx, dy) = (
            absolute(x.value() - sum_at(vals, m)),
            absolute(y.value() - sum_at(vals, n)),
        );
        let kn = n.len() as int;
        assert(2 * kn * zn <= 2 * k * zn) by (nonlinear_arith)
            requires
                kn <= k,
                zn >= 0,
        ;
        assert(2 * k * zn <= 0x40_0000 * size) by (nonlinear_arith)
            requires
                0 <= k <= 0x20_0000,
                0 <= zn <= size,
        ;
        assert(2 * k * zm <= 0x40_0000 * size) by (nonlinear_arith)
            requires
                0 <= k <= 0x20_0000,
                0 <= zm <= size,
        ;
        assert(4 * b * size <= 1020 * size) by (nonlinear_arith)
            requires
                b <= 255,
                size >= 0,
        ;
        assert(dx <= size && dy <= size);
        let a = x.value() + y.value();
        assert(absolute(a) <= 3 * size);
        lemma_pow2_strictly_increases(270, 274);
        lemma_pow2_unfold(275);
        lemma_pow2_unfold(276);
        lemma_sum_error_of(x, y);
        let r = x.plus(y).value();
        assert(0xff_ffff * absolute(r - a) <= 3 * size);
        assert(absolute(r - sum_at(vals, l)) <= absolute(r - a) + dx + dy);
        assert(2 * k * zm + 2 * k * zn == 2 * k * zl) by (nonlinear_arith)
            requires
                zl == zm + zn,
        ;
        assert(4 * b * size + 4 * size == 4 * (b + 1) * size) by (nonlinear_arith);
        assert(4 * ((b - 1) + 1) * size == 4 * b * size);
    }
}

} // verus!
