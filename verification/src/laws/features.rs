//! What a model does not depend on: the order of rows, the scale of features, and features that do
//! not vary.

use crate::bins::{bin_of, column, edge_position, fitted_edges, lemma_edge_positions};
use crate::booster::task_of;
use crate::distinct::{
    distinct_of, increasing, lemma_distinct_of, lemma_increasing_unique, same_values,
};
use crate::float::laws::lemma_of_rank;
use crate::float::model::{lemma_rank_orders, of_rank};
use crate::float::scale::{
    doubled, doubled_rank, lemma_doubled_order, lemma_doubled_rank, lemma_midpoint_doubles,
    lemma_twice_is_doubled, moderate, TWO,
};
use crate::float::F32;
use crate::grid::{lemma_cell, lemma_row_column, lemma_row_start, row_of};
use crate::laws::rounds::{lemma_alike_rounds, lemma_alike_start};
use crate::laws::training::{bin_counts, law_model_keeps_limits, law_scores_depend_on_bins};
use crate::objective::{mean, Obj};
use crate::params::GbmParams;
use crate::regressor::{quiet, regression};
use crate::tree::Shape;
use vstd::prelude::*;

verus! {

/// The rows of a flat table.
pub open spec fn rows(x: Seq<F32>, n: nat, d: nat) -> Seq<Seq<F32>> {
    Seq::new(n, |i: int| row_of(x, i, d as int))
}

proof fn lemma_column_of_rows(x: Seq<F32>, z: Seq<F32>, n: nat, d: nat, f: int, v: i64)
    requires
        x.len() == n * d,
        z.len() == n * d,
        rows(x, n, d).to_multiset() == rows(z, n, d).to_multiset(),
        0 <= f < d,
        column(x, n, d, f).contains(v),
    ensures
        column(z, n, d, f).contains(v),
{
    let (a, b) = (column(x, n, d, f), column(z, n, d, f));
    let (rx, rz) = (rows(x, n, d), rows(z, n, d));
    let i = choose|i: int| 0 <= i < a.len() && a[i] == v;
    rx.to_multiset_ensures();
    rz.to_multiset_ensures();
    assert(rx.contains(rx[i]));
    assert(rx.to_multiset().count(rx[i]) > 0);
    assert(rz.contains(rx[i]));
    let j = choose|j: int| 0 <= j < rz.len() && rz[j] == rx[i];
    lemma_cell(i, f, n as int, d as int);
    lemma_cell(j, f, n as int, d as int);
    lemma_row_start(i, n as int, d as int);
    lemma_row_start(j, n as int, d as int);
    assert(rx[i][f] == x[i * d + f]);
    assert(rz[j][f] == z[j * d + f]);
    assert(b[j] == v);
}

/// Where bins are cut does not depend on the order of the rows.
pub proof fn law_row_order_does_not_matter(
    x: Seq<F32>,
    z: Seq<F32>,
    n: nat,
    d: nat,
    max_bins: nat,
)
    requires
        x.len() == n * d,
        z.len() == n * d,
        rows(x, n, d).to_multiset() == rows(z, n, d).to_multiset(),
    ensures
        fitted_edges(x, n, d, max_bins) == fitted_edges(z, n, d, max_bins),
{
    let (ex, ez) = (fitted_edges(x, n, d, max_bins), fitted_edges(z, n, d, max_bins));
    assert forall|f: int| 0 <= f < d implies #[trigger] ex[f] == ez[f] by {
        let (a, b) = (column(x, n, d, f), column(z, n, d, f));
        assert forall|v: i64| #[trigger] a.contains(v) <==> b.contains(v) by {
            if a.contains(v) {
                lemma_column_of_rows(x, z, n, d, f, v);
            }
            if b.contains(v) {
                lemma_column_of_rows(z, x, n, d, f, v);
            }
        }
        lemma_distinct_of(a);
        lemma_distinct_of(b);
        let (s, t) = (distinct_of(a), distinct_of(b));
        assert(same_values(s, t)) by {
            assert forall|v: i64| #[trigger] s.contains(v) <==> t.contains(v) by {
                assert(s.contains(v) <==> a.contains(v));
                assert(t.contains(v) <==> b.contains(v));
            }
        }
        lemma_increasing_unique(s, t);
    }
    assert(ex =~= ez);
}

proof fn lemma_never_reads(shape: Shape, bins: Seq<nat>, c: int)
    requires
        shape.cuts_within(bins),
        bins[c] <= 1,
    ensures
        !shape.reads(c),
    decreases shape,
{
    if let Shape::Split { left, right, .. } = shape {
        lemma_never_reads(*left, bins, c);
        lemma_never_reads(*right, bins, c);
    }
}

/// A feature that has the same value in every training row is never used: it has one bin, no tree
/// reads it, and rows that differ in nothing else get the same scores.
pub proof fn law_constant_feature_is_never_used(
    x: Seq<F32>,
    y: Seq<F32>,
    n: nat,
    d: nat,
    obj: Obj,
    p: GbmParams,
    base: Seq<F32>,
    trace: Seq<Seq<F32>>,
    c: int,
    v: int,
    row: Seq<F32>,
    other: Seq<F32>,
)
    requires
        x.len() == n * d,
        y.len() == n,
        0 <= c < d,
        forall|i: int| 0 <= i < n ==> (#[trigger] x[i * d + c]).value() == v,
        forall|f: int| 0 <= f < d && f != c ==> #[trigger] row[f] == other[f],
    ensures
        ({
            let m = task_of(x, y, n, d, obj, p).model(base, trace);
            &&& m.edges[c].len() == 0
            &&& forall|o: int, r: int|
                0 <= o < m.trees.len() && 0 <= r < m.trees[o].len() ==> !(
                #[trigger] m.trees[o][r]).reads(c)
            &&& m.scores(row) == m.scores(other)
        }),
{
    let task = task_of(x, y, n, d, obj, p);
    let m = task.model(base, trace);
    let a = column(x, n, d, c);
    let s = distinct_of(a);
    lemma_distinct_of(a);
    if s.len() > 1 {
        assert(s.contains(s[0]) && s.contains(s[1]));
        let i = choose|i: int| 0 <= i < a.len() && a[i] == s[0];
        let j = choose|j: int| 0 <= j < a.len() && a[j] == s[1];
        lemma_rank_orders(x[i * d + c], x[j * d + c]);
        assert(a[i] == a[j]);
    }
    assert(m.edges[c].len() == 0);
    law_model_keeps_limits(x, y, n, d, obj, p, base, trace);
    assert forall|o: int, r: int| 0 <= o < m.trees.len() && 0 <= r < m.trees[o].len() implies !(
    #[trigger] m.trees[o][r]).reads(c) by {
        lemma_never_reads(m.trees[o][r], bin_counts(task), c);
    }
    assert forall|f: int| 0 <= f < m.edges.len() implies bin_of(#[trigger] m.edges[f], row[f])
        == bin_of(m.edges[f], other[f]) by {
        if f != c {
            assert(row[f] == other[f]);
        }
    }
    law_scores_depend_on_bins(m, row, other);
}

/// The same for regression.
pub proof fn law_regression_ignores_a_constant_feature(
    x: Seq<F32>,
    y: Seq<F32>,
    n: nat,
    d: nat,
    p: GbmParams,
    c: int,
    v: int,
    row: Seq<F32>,
    other: Seq<F32>,
)
    requires
        x.len() == n * d,
        y.len() == n,
        0 <= c < d,
        forall|i: int| 0 <= i < n ==> (#[trigger] x[i * d + c]).value() == v,
        forall|f: int| 0 <= f < d && f != c ==> #[trigger] row[f] == other[f],
    ensures
        regression(x, y, n, d, p).scores(row) == regression(x, y, n, d, p).scores(other),
{
    law_constant_feature_is_never_used(
        x,
        y,
        n,
        d,
        Obj::L2,
        p,
        seq![mean(y)],
        quiet(p.n_estimators as nat),
        c,
        v,
        row,
        other,
    );
}

/// Whether the numbers of one sequence are twice those of another.
pub open spec fn twice(a: Seq<F32>, b: Seq<F32>) -> bool {
    &&& a.len() == b.len()
    &&& forall|j: int|
        0 <= j < a.len() ==> moderate(a[j]) && #[trigger] b[j] == (F32 { bits: TWO }).times(a[j])
}

spec fn doubled_ranks(s: Seq<i64>) -> Seq<i64> {
    Seq::new(s.len(), |k: int| doubled_rank(s[k] as int) as i64)
}

/// The different values of a doubled column.
proof fn lemma_doubled_column(x: Seq<F32>, z: Seq<F32>, n: nat, d: nat, f: int)
    requires
        x.len() == n * d,
        twice(x, z),
        0 <= f < d,
    ensures
        distinct_of(column(z, n, d, f)) == doubled_ranks(distinct_of(column(x, n, d, f))),
        forall|k: int|
            0 <= k < distinct_of(column(x, n, d, f)).len() ==> moderate(
                of_rank((#[trigger] distinct_of(column(x, n, d, f))[k]) as int),
            ),
{
    let (a, b) = (column(x, n, d, f), column(z, n, d, f));
    let (s, t) = (distinct_of(a), distinct_of(b));
    let u = doubled_ranks(s);
    lemma_distinct_of(a);
    lemma_distinct_of(b);
    assert forall|i: int| 0 <= i < n implies {
        &&& #[trigger] b[i] == doubled_rank(a[i] as int)
        &&& moderate(of_rank(a[i] as int))
        &&& -0x7f80_0000 <= a[i] <= 0x7f80_0000
    } by {
        lemma_cell(i, f, n as int, d as int);
        let v = x[i * d + f];
        assert(z[i * d + f] == (F32 { bits: TWO }).times(v));
        lemma_twice_is_doubled(v);
        lemma_doubled_rank(v, z[i * d + f]);
    }
    assert forall|k: int| 0 <= k < s.len() implies {
        &&& moderate(of_rank((#[trigger] s[k]) as int))
        &&& -0x7f80_0000 <= s[k] <= 0x7f80_0000
    } by {
        assert(s.contains(s[k]));
        assert(a.contains(s[k]));
        let i = choose|i: int| 0 <= i < a.len() && a[i] == s[k];
        assert(b[i] == doubled_rank(a[i] as int));
    }
    assert(increasing(u)) by {
        assert forall|i: int, j: int| 0 <= i < j < u.len() implies u[i] < u[j] by {
            assert(s[i] < s[j]);
        }
    }
    assert forall|v: i64| #[trigger] u.contains(v) <==> t.contains(v) by {
        if u.contains(v) {
            let k = choose|k: int| 0 <= k < u.len() && u[k] == v;
            assert(s.contains(s[k]));
            assert(a.contains(s[k]));
            let i = choose|i: int| 0 <= i < a.len() && a[i] == s[k];
            assert(b[i] == v);
            assert(b.contains(v));
        }
        if t.contains(v) {
            assert(b.contains(v));
            let i = choose|i: int| 0 <= i < b.len() && b[i] == v;
            assert(a.contains(a[i]));
            assert(s.contains(a[i]));
            let k = choose|k: int| 0 <= k < s.len() && s[k] == a[i];
            assert(u[k] == v);
        }
    }
    lemma_increasing_unique(u, t);
}

proof fn lemma_of_doubled_rank(r: int)
    requires
        -0x7f80_0000 <= r <= 0x7f80_0000,
        moderate(of_rank(r)),
    ensures
        doubled(of_rank(r), of_rank(doubled_rank(r))),
{
    let a = of_rank(r);
    lemma_of_rank(r);
    lemma_twice_is_doubled(a);
    let b = (F32 { bits: TWO }).times(a);
    lemma_doubled_rank(a, b);
    lemma_of_rank(b.rank());
    lemma_rank_orders(b, of_rank(b.rank()));
}

/// The edges of a doubled feature are doubled.
proof fn lemma_doubled_edges(x: Seq<F32>, z: Seq<F32>, n: nat, d: nat, max_bins: nat, f: int)
    requires
        x.len() == n * d,
        twice(x, z),
        0 <= f < d,
    ensures
        ({
            let (e, g) = (fitted_edges(x, n, d, max_bins)[f], fitted_edges(z, n, d, max_bins)[f]);
            &&& e.len() == g.len()
            &&& forall|k: int| 0 <= k < e.len() ==> doubled(#[trigger] e[k], g[k])
        }),
{
    let (e, g) = (fitted_edges(x, n, d, max_bins)[f], fitted_edges(z, n, d, max_bins)[f]);
    let a = column(x, n, d, f);
    let s = distinct_of(a);
    lemma_doubled_column(x, z, n, d, f);
    lemma_distinct_of(a);
    assert forall|k: int| 0 <= k < e.len() implies doubled(#[trigger] e[k], g[k]) by {
        lemma_edge_positions(s.len(), max_bins, k);
        let at = edge_position(s.len(), max_bins, k);
        let (p, q) = (s[at - 1] as int, s[at] as int);
        assert forall|j: int| 0 <= j < s.len() implies -0x7f80_0000 <= #[trigger] s[j]
            <= 0x7f80_0000 by {
            assert(s.contains(s[j]));
            assert(a.contains(s[j]));
            let i = choose|i: int| 0 <= i < a.len() && a[i] == s[j];
            lemma_cell(i, f, n as int, d as int);
            assert(z[i * d + f] == (F32 { bits: TWO }).times(x[i * d + f]));
        }
        lemma_of_doubled_rank(p);
        lemma_of_doubled_rank(q);
        lemma_midpoint_doubles(
            of_rank(p),
            of_rank(q),
            of_rank(doubled_rank(p)),
            of_rank(doubled_rank(q)),
        );
    }
}

proof fn lemma_doubled_bin(e: Seq<F32>, g: Seq<F32>, v: F32, w: F32)
    requires
        e.len() == g.len(),
        forall|k: int| 0 <= k < e.len() ==> doubled(#[trigger] e[k], g[k]),
        doubled(v, w),
    ensures
        bin_of(e, v) == bin_of(g, w),
    decreases e.len(),
{
    if e.len() > 0 {
        let k = e.len() - 1;
        assert(doubled(e[k], g[k]));
        lemma_doubled_order(e[k], v, g[k], w);
        let (er, gr) = (e.drop_last(), g.drop_last());
        assert forall|k: int| 0 <= k < er.len() implies doubled(#[trigger] er[k], gr[k]) by {
            assert(doubled(e[k], g[k]));
        }
        lemma_doubled_bin(er, gr, v, w);
    }
}

/// Doubling every feature value, in training and in the query, changes no score. The values have to
/// be zero or of a size between 2^-100 and 2^100, so that no double or midpoint leaves the range in
/// which doubling is exact.
pub proof fn law_doubled_features_change_nothing(
    x: Seq<F32>,
    z: Seq<F32>,
    y: Seq<F32>,
    n: nat,
    d: nat,
    obj: Obj,
    p: GbmParams,
    base: Seq<F32>,
    trace: Seq<Seq<F32>>,
    row: Seq<F32>,
    other: Seq<F32>,
)
    requires
        x.len() == n * d,
        twice(x, z),
        row.len() == d,
        twice(row, other),
    ensures
        task_of(x, y, n, d, obj, p).model(base, trace).scores(row) == task_of(
            z,
            y,
            n,
            d,
            obj,
            p,
        ).model(base, trace).scores(other),
{
    let (a, b) = (task_of(x, y, n, d, obj, p), task_of(z, y, n, d, obj, p));
    assert forall|f: int| 0 <= f < d implies (#[trigger] a.edges[f]).len() == b.edges[f].len() by {
        lemma_doubled_edges(x, z, n, d, p.bin_limit(), f);
    }
    assert forall|j: int| 0 <= j < n * d implies #[trigger] a.binned[j] == b.binned[j] by {
        lemma_row_column(j, n as int, d as int);
        let f = j % d as int;
        lemma_doubled_edges(x, z, n, d, p.bin_limit(), f);
        assert(z[j] == (F32 { bits: TWO }).times(x[j]));
        lemma_twice_is_doubled(x[j]);
        lemma_doubled_bin(a.edges[f], b.edges[f], x[j], z[j]);
    }
    assert(a.binned =~= b.binned);
    lemma_alike_start(a, b, base);
    lemma_alike_rounds(a, b, a.start(base), trace);
    let (m, k) = (a.model(base, trace), b.model(base, trace));
    assert(m.bins(row) =~= k.bins(other)) by {
        assert forall|f: int| 0 <= f < d implies #[trigger] m.bins(row)[f] == k.bins(other)[f] by {
            lemma_doubled_edges(x, z, n, d, p.bin_limit(), f);
            assert(other[f] == (F32 { bits: TWO }).times(row[f]));
            lemma_twice_is_doubled(row[f]);
            lemma_doubled_bin(a.edges[f], b.edges[f], row[f], other[f]);
        }
    }
    assert(m.scores(row) =~= k.scores(other));
}

/// The same for regression.
pub proof fn law_regression_ignores_doubling(
    x: Seq<F32>,
    z: Seq<F32>,
    y: Seq<F32>,
    n: nat,
    d: nat,
    p: GbmParams,
    row: Seq<F32>,
    other: Seq<F32>,
)
    requires
        x.len() == n * d,
        twice(x, z),
        row.len() == d,
        twice(row, other),
    ensures
        regression(x, y, n, d, p).scores(row) == regression(z, y, n, d, p).scores(other),
{
    law_doubled_features_change_nothing(
        x,
        z,
        y,
        n,
        d,
        Obj::L2,
        p,
        seq![mean(y)],
        quiet(p.n_estimators as nat),
        row,
        other,
    );
}

} // verus!
