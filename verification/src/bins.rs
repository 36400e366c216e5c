//! Feature binning: each feature's values are cut into ranges at quantile edges.

use crate::distinct::{distinct_of, distinct_values, lemma_distinct_of};
use crate::float::laws::{
    law_plus_keeps_order, law_times_keeps_order, lemma_of_rank, lemma_sum_is_number,
};
use crate::float::model::{
    lemma_magnitude_of_parts, lemma_magnitude_order, lemma_rank_orders, magnitude, of_rank,
    with_sign, INF_CODE,
};
use crate::float::round::lemma_nearest_exact;
use crate::float::F32;
use crate::grid::lemma_cell;
use vstd::arithmetic::power2::{lemma_pow2_pos, lemma_pow2_unfold, pow2};
use vstd::prelude::*;

verus! {

/// Whether every value of a table is a number.
pub open spec fn numeric(x: Seq<F32>) -> bool {
    forall|i: int| 0 <= i < x.len() ==> !(#[trigger] x[i]).nan()
}

/// The ranks of one feature over all rows.
pub open spec fn column(x: Seq<F32>, n: nat, d: nat, f: int) -> Seq<i64> {
    Seq::new(n, |i: int| x[i * d + f].rank() as i64)
}

/// One half of the sum of two numbers, given by rank.
pub open spec fn midpoint(a: i64, b: i64) -> F32 {
    (F32 { bits: 0x3f00_0000 }).times(of_rank(a as int).plus(of_rank(b as int)))
}

/// The number of edges for a feature with `len` different values.
pub open spec fn edge_count(len: nat, max_bins: nat) -> nat {
    let limit = if len <= max_bins { len } else { max_bins };
    if limit == 0 {
        0
    } else {
        (limit - 1) as nat
    }
}

/// Which different value stands just above edge `k`: every one in turn where there are few enough
/// of them, otherwise the `k + 1`-st of `max_bins` quantiles.
pub open spec fn edge_position(len: nat, max_bins: nat, k: int) -> int {
    if len <= max_bins {
        k + 1
    } else {
        (k + 1) * len / max_bins as int
    }
}

/// The edges for a feature, given its different values in order.
pub open spec fn edges_for(distinct: Seq<i64>, max_bins: nat) -> Seq<F32> {
    Seq::new(
        edge_count(distinct.len(), max_bins),
        |k: int|
            {
                let at = edge_position(distinct.len(), max_bins, k);
                midpoint(distinct[at - 1], distinct[at])
            },
    )
}

/// The edges of every feature of a table of `n` rows and `d` features.
pub open spec fn fitted_edges(x: Seq<F32>, n: nat, d: nat, max_bins: nat) -> Seq<Seq<F32>> {
    Seq::new(d, |f: int| edges_for(distinct_of(column(x, n, d, f)), max_bins))
}

/// Whether edges never decrease.
pub open spec fn edges_ascend(edges: Seq<F32>) -> bool {
    forall|i: int, j: int| 0 <= i < j < edges.len() ==> (#[trigger] edges[i]).at_most(#[trigger] edges[j])
}

/// The bin of a value: the number of edges below it.
pub open spec fn bin_of(edges: Seq<F32>, v: F32) -> nat
    decreases edges.len(),
{
    if edges.len() == 0 {
        0
    } else {
        bin_of(edges.drop_last(), v) + (if edges.last().below(v) { 1nat } else { 0nat })
    }
}

/// The bins of a flat table.
pub open spec fn binned_table(edges: Seq<Seq<F32>>, x: Seq<F32>, n: nat) -> Seq<u8> {
    Seq::new(
        n * edges.len(),
        |p: int| bin_of(edges[p % edges.len() as int], x[p]) as u8,
    )
}

/// A larger value never falls into an earlier bin.
pub proof fn law_binning_is_monotone(edges: Seq<F32>, v: F32, w: F32)
    requires
        v.at_most(w),
    ensures
        bin_of(edges, v) <= bin_of(edges, w),
    decreases edges.len(),
{
    if edges.len() > 0 {
        law_binning_is_monotone(edges.drop_last(), v, w);
    }
}

/// There is one more bin than there are edges.
pub proof fn law_bin_is_in_range(edges: Seq<F32>, v: F32)
    ensures
        bin_of(edges, v) <= edges.len(),
    decreases edges.len(),
{
    if edges.len() > 0 {
        law_bin_is_in_range(edges.drop_last(), v);
    }
}

/// Fitting makes at most `max_bins` bins for a feature (and one where `max_bins` is zero).
pub proof fn law_bins_are_bounded(x: Seq<F32>, n: nat, d: nat, max_bins: nat, f: int)
    requires
        0 <= f < d,
    ensures
        fitted_edges(x, n, d, max_bins)[f].len() + 1 <= (if max_bins == 0 {
            1
        } else {
            max_bins
        }),
{
}

/// If the edges below a value are exactly the first `p`, its bin is `p`.
proof fn lemma_bin_of_prefix(edges: Seq<F32>, v: F32, p: int)
    requires
        0 <= p <= edges.len(),
        forall|i: int| 0 <= i < p ==> (#[trigger] edges[i]).below(v),
        forall|i: int| p <= i < edges.len() ==> !(#[trigger] edges[i]).below(v),
    ensures
        bin_of(edges, v) == p,
    decreases edges.len(),
{
    if edges.len() > 0 {
        let rest = edges.drop_last();
        let q = if p == edges.len() { p - 1 } else { p };
        assert forall|i: int| 0 <= i < q implies (#[trigger] rest[i]).below(v) by {
            assert(rest[i] == edges[i]);
        }
        assert forall|i: int| q <= i < rest.len() implies !(#[trigger] rest[i]).below(v) by {
            assert(rest[i] == edges[i]);
        }
        lemma_bin_of_prefix(rest, v, q);
        assert(edges.last() == edges[edges.len() - 1]);
    }
}

/// Quantile positions are inside the column and grow from edge to edge.
pub proof fn lemma_edge_positions(len: nat, max_bins: nat, k: int)
    requires
        0 <= k < edge_count(len, max_bins),
    ensures
        1 <= edge_position(len, max_bins, k) < len,
{
    if len > max_bins {
        let m = max_bins as int;
        assert((k + 1) * len < m * len) by (nonlinear_arith)
            requires
                k + 1 < m,
                len > 0,
        ;
        assert((k + 1) * len >= m) by (nonlinear_arith)
            requires
                k >= 0,
                len > m,
                m > 0,
        ;
        vstd::arithmetic::div_mod::lemma_fundamental_div_mod((k + 1) * len, m);
        let q = (k + 1) * len / m;
        assert(1 <= q < len) by (nonlinear_arith)
            requires
                (k + 1) * len == m * q + ((k + 1) * len) % m,
                0 <= ((k + 1) * len) % m < m,
                m <= (k + 1) * len < m * len,
                m > 0,
        ;
    }
}

proof fn lemma_edge_positions_grow(len: nat, max_bins: nat, j: int, k: int)
    requires
        0 <= j < k < edge_count(len, max_bins),
    ensures
        edge_position(len, max_bins, j) < edge_position(len, max_bins, k),
{
    if len > max_bins {
        let m = max_bins as int;
        let a = (j + 1) * len;
        let b = (k + 1) * len;
        assert(b >= a + m) by (nonlinear_arith)
            requires
                a == (j + 1) * len,
                b == (k + 1) * len,
                j < k,
                len > m,
                m > 0,
        ;
        vstd::arithmetic::div_mod::lemma_div_is_ordered(a + m, b, m);
        vstd::arithmetic::div_mod::lemma_div_plus_one(a, m);
        assert((m + a) / m == a / m + 1);
    }
}

/// Midpoints of pairs further up are not lower.
proof fn lemma_midpoints_ordered(a: i64, b: i64, c: i64, d: i64)
    requires
        -INF_CODE <= a < b,
        b <= c < d <= INF_CODE,
    ensures
        midpoint(a, b).at_most(midpoint(c, d)),
{
    let (ra, rb) = (of_rank(a as int), of_rank(b as int));
    let (rc, rd) = (of_rank(c as int), of_rank(d as int));
    lemma_of_rank(a as int);
    lemma_of_rank(b as int);
    lemma_of_rank(c as int);
    lemma_of_rank(d as int);
    lemma_rank_orders(ra, rc);
    lemma_rank_orders(rb, rd);
    lemma_sum_is_number(ra, rb);
    lemma_sum_is_number(rc, rd);
    law_plus_keeps_order(ra, rb, rc, rd);
    law_times_keeps_order(F32 { bits: 0x3f00_0000 }, ra.plus(rb), rc.plus(rd));
}

/// Twice a finite number, if finite, is exact, and halving it gives the number back.
proof fn lemma_half_of_double(a: F32)
    requires
        a.finite(),
        a.plus(a).finite(),
    ensures
        (F32 { bits: 0x3f00_0000 }).times(a.plus(a)).value() == a.value(),
        !(F32 { bits: 0x3f00_0000 }).times(a.plus(a)).nan(),
{
    let half = F32 { bits: 0x3f00_0000 };
    let c = a.code();
    let m = magnitude(c);
    lemma_magnitude_order(c, 0);
    lemma_pow2_pos(149);
    let y = pow2(149) as int;
    lemma_pow2_unfold(149);
    vstd::arithmetic::power2::lemma2_to64();
    vstd::arithmetic::power2::lemma_pow2_adds(23, 125);
    assert(0x3f00_0000int % 0x80_0000 == 0 && 0x3f00_0000int / 0x80_0000 == 126);
    assert(magnitude(0x3f00_0000) == pow2(148));
    let double = if c < 0x80_0000 { 2 * c } else { c + 0x80_0000 };
    if c < 0x80_0000 {
        lemma_magnitude_of_parts(0, double);
        assert(double * 1 == double);
    } else {
        let s = (c / 0x80_0000 - 1) as nat;
        let k = 0x80_0000 + c % 0x80_0000;
        lemma_magnitude_of_parts(s, k);
        lemma_magnitude_of_parts(s + 1, k);
        lemma_pow2_unfold(s + 1);
        assert(k * (2 * pow2(s)) == 2 * (k * pow2(s))) by (nonlinear_arith);
        assert(c == s * 0x80_0000 + k);
        assert(double == (s + 1) * 0x80_0000 + k);
    }
    assert(magnitude(double) == 2 * m);
    if m > 0 {
        if double > INF_CODE {
            lemma_magnitude_order(INF_CODE as int, double);
            crate::float::laws::lemma_rounded(2 * m, 1);
            lemma_nearest_exact(INF_CODE as int, magnitude(INF_CODE as int), 1);
            crate::float::laws::lemma_rounded_monotone(magnitude(INF_CODE as int), 1, 2 * m, 1);
            assert(false);
        }
        lemma_nearest_exact(double, 2 * m, 1);
        assert(a.plus(a) == with_sign(a.negative(), double));
    } else {
        assert(a.plus(a) == with_sign(a.negative(), 0));
    }
    let x = pow2(148) * (2 * m);
    assert(x == y * m) by (nonlinear_arith)
        requires
            x == pow2(148) * (2 * m),
            y == 2 * pow2(148),
    ;
    lemma_nearest_exact(c, x, y);
    assert(half.times(a.plus(a)) == with_sign(a.negative(), c));
}

/// The edge between two values lies between them, as long as twice each is finite.
pub proof fn law_edge_lies_between(a: i64, b: i64)
    requires
        -INF_CODE < a <= b < INF_CODE,
        of_rank(a as int).plus(of_rank(a as int)).finite(),
        of_rank(b as int).plus(of_rank(b as int)).finite(),
    ensures
        of_rank(a as int).at_most(midpoint(a, b)),
        midpoint(a, b).at_most(of_rank(b as int)),
{
    let half = F32 { bits: 0x3f00_0000 };
    let (ra, rb) = (of_rank(a as int), of_rank(b as int));
    lemma_of_rank(a as int);
    lemma_of_rank(b as int);
    lemma_rank_orders(ra, rb);
    lemma_half_of_double(ra);
    lemma_half_of_double(rb);
    lemma_sum_is_number(ra, rb);
    lemma_sum_is_number(ra, ra);
    lemma_sum_is_number(rb, rb);
    law_plus_keeps_order(ra, ra, ra, rb);
    law_plus_keeps_order(ra, rb, rb, rb);
    law_times_keeps_order(half, ra.plus(ra), ra.plus(rb));
    law_times_keeps_order(half, ra.plus(rb), rb.plus(rb));
}

/// The edges that fitting makes never decrease.
pub proof fn law_fitted_edges_ascend(x: Seq<F32>, n: nat, d: nat, max_bins: nat, f: int)
    requires
        numeric(x),
        n * d <= x.len(),
        0 <= f < d,
    ensures
        edges_ascend(fitted_edges(x, n, d, max_bins)[f]),
{
    let c = column(x, n, d, f);
    let s = distinct_of(c);
    lemma_distinct_of(c);
    assert forall|k: int| 0 <= k < s.len() implies -INF_CODE <= #[trigger] s[k] <= INF_CODE by {
        assert(s.contains(s[k]));
        assert(c.contains(s[k]));
        let i = choose|i: int| 0 <= i < c.len() && c[i] == s[k];
        lemma_cell(i, f, n as int, d as int);
        assert(!x[i * d + f].nan());
    }
    let e = edges_for(s, max_bins);
    assert forall|i: int, j: int| 0 <= i < j < e.len() implies (#[trigger] e[i]).at_most(
        #[trigger] e[j],
    ) by {
        lemma_edge_positions(s.len(), max_bins, i);
        lemma_edge_positions(s.len(), max_bins, j);
        lemma_edge_positions_grow(s.len(), max_bins, i, j);
        let p = edge_position(s.len(), max_bins, i);
        let q = edge_position(s.len(), max_bins, j);
        assert(s[p - 1] < s[p]);
        assert(s[q - 1] < s[q]);
        if p < q - 1 {
            assert(s[p] < s[q - 1]);
        }
        lemma_midpoints_ordered(s[p - 1], s[p], s[q - 1], s[q]);
    }
}

/// Per-feature bin edges. Fitted once on the training rows and then applied to any row.
pub struct BinMapper {
    edges: Vec<Vec<F32>>,
    n_features: usize,
}

impl View for BinMapper {
    type V = Seq<Seq<F32>>;

    /// The edges of each feature.
    closed spec fn view(&self) -> Seq<Seq<F32>> {
        Seq::new(self.edges@.len(), |f: int| self.edges@[f]@)
    }
}

impl BinMapper {
    /// Edges ascend, and bins fit in a byte.
    pub closed spec fn wf(self) -> bool {
        &&& self.edges.len() == self.n_features
        &&& forall|f: int|
            0 <= f < self.edges.len() ==> (#[trigger] self.edges@[f]).len() <= 255
        &&& forall|f: int| 0 <= f < self.edges.len() ==> edges_ascend((#[trigger] self.edges@[f])@)
    }

    /// Cuts each feature of a table of `n` rows and `d` features into at most `max_bins` bins.
    pub fn fit(x: &[F32], n: usize, d: usize, max_bins: usize) -> (r: Self)
        requires
            n * d <= x.len(),
            numeric(x@),
            max_bins <= 256,
        ensures
            r.wf(),
            r@ == fitted_edges(x@, n as nat, d as nat, max_bins as nat),
    {
        let mut edges: Vec<Vec<F32>> = Vec::with_capacity(d);
        let mut f: usize = 0;
        while f < d
            invariant
                f <= d,
                n * d <= x.len(),
                numeric(x@),
                max_bins <= 256,
                edges.len() == f,
                forall|g: int|
                    0 <= g < f ==> (#[trigger] edges@[g])@ == fitted_edges(
                        x@,
                        n as nat,
                        d as nat,
                        max_bins as nat,
                    )[g],
            decreases d - f,
        {
            let mut vals: Vec<i64> = Vec::with_capacity(n);
            let mut i: usize = 0;
            while i < n
                invariant
                    i <= n,
                    f < d,
                    n * d <= x.len(),
                    vals@ =~= column(x@, n as nat, d as nat, f as int).take(i as int),
                decreases n - i,
            {
                proof {
                    lemma_cell(i as int, f as int, n as int, d as int);
                }
                vals.push(x[i * d + f].order());
                i = i + 1;
            }
            proof {
                let c = column(x@, n as nat, d as nat, f as int);
                assert(c.take(n as int) =~= c);
            }
            let distinct: Vec<i64> = distinct_values(&vals);
            edges.push(Self::cut(&distinct, max_bins, Ghost(vals@)));
            f = f + 1;
        }
        let r = BinMapper { edges, n_features: d };
        proof {
            assert(r@ =~= fitted_edges(x@, n as nat, d as nat, max_bins as nat));
            assert forall|g: int| 0 <= g < d implies edges_ascend((#[trigger] r.edges@[g])@) by {
                law_fitted_edges_ascend(x@, n as nat, d as nat, max_bins as nat, g);
            }
            assert forall|g: int| 0 <= g < d implies (#[trigger] r.edges@[g]).len() <= 255 by {
                law_bins_are_bounded(x@, n as nat, d as nat, max_bins as nat, g);
            }
        }
        r
    }

    /// The edges between the bins of one feature.
    fn cut(distinct: &Vec<i64>, max_bins: usize, Ghost(values): Ghost<Seq<i64>>) -> (r: Vec<F32>)
        requires
            distinct@ == distinct_of(values),
            forall|i: int| 0 <= i < values.len() ==> -0x8000_0000 < #[trigger] values[i] < 0x8000_0000,
        ensures
            r@ == edges_for(distinct@, max_bins as nat),
    {
        let len: usize = distinct.len();
        let limit: usize = if len <= max_bins { len } else { max_bins };
        let count: usize = if limit == 0 { 0 } else { limit - 1 };
        let mut r: Vec<F32> = Vec::with_capacity(count);
        let half: F32 = F32 { bits: 0x3f00_0000 };
        let mut k: usize = 0;
        proof {
            lemma_distinct_of(values);
            assert forall|i: int| 0 <= i < distinct.len() implies -0x8000_0000
                < #[trigger] distinct@[i] < 0x8000_0000 by {
                assert(distinct@.contains(distinct@[i]));
                assert(values.contains(distinct@[i]));
            }
        }
        while k < count
            invariant
                k <= count,
                count == edge_count(len as nat, max_bins as nat),
                len == distinct.len(),
                half.bits == 0x3f00_0000,
                forall|i: int|
                    0 <= i < distinct.len() ==> -0x8000_0000 < #[trigger] distinct@[i]
                        < 0x8000_0000,
                r@ =~= edges_for(distinct@, max_bins as nat).take(k as int),
            decreases count - k,
        {
            proof {
                lemma_edge_positions(len as nat, max_bins as nat, k as int);
            }
            let at: usize = if len <= max_bins {
                k + 1
            } else {
                proof {
                    assert((k + 1) * len <= u128::MAX) by (nonlinear_arith)
                        requires
                            0 <= k + 1 <= 0x1_0000_0000_0000_0000,
                            0 <= len < 0x1_0000_0000_0000_0000,
                    ;
                }
                ((k + 1) as u128 * len as u128 / max_bins as u128) as usize
            };
            let low: F32 = F32::from_order(distinct[at - 1]);
            let high: F32 = F32::from_order(distinct[at]);
            r.push(half.mul(low.add(high)));
            k = k + 1;
        }
        r
    }

    /// The bin of a value of feature `f`.
    pub fn bin_val(&self, f: usize, v: F32) -> (r: u8)
        requires
            self.wf(),
            f < self@.len(),
        ensures
            r == bin_of(self@[f as int], v),
    {
        let e: &Vec<F32> = &self.edges[f];
        let mut low: usize = 0;
        let mut high: usize = e.len();
        while low < high
            invariant
                low <= high <= e.len(),
                edges_ascend(e@),
                forall|i: int| 0 <= i < low ==> (#[trigger] e@[i]).below(v),
                forall|i: int| high <= i < e.len() ==> !(#[trigger] e@[i]).below(v),
            decreases high - low,
        {
            let mid: usize = low + (high - low) / 2;
            if e[mid].lt(v) {
                low = mid + 1;
            } else {
                high = mid;
            }
        }
        proof {
            lemma_bin_of_prefix(e@, v, low as int);
        }
        low as u8
    }

    /// The number of bins of feature `f`.
    pub fn nbins(&self, f: usize) -> (r: usize)
        requires
            self.wf(),
            f < self@.len(),
        ensures
            r == self@[f as int].len() + 1,
    {
        self.edges[f].len() + 1
    }

    /// The number of features.
    pub fn n_features(&self) -> (r: usize)
        requires
            self.wf(),
        ensures
            r == self@.len(),
    {
        self.n_features
    }

    /// The bins of the first `n` rows of a table.
    pub fn transform(&self, x: &[F32], n: usize) -> (b: Vec<u8>)
        requires
            self.wf(),
            n * self@.len() <= x.len(),
        ensures
            b@ == binned_table(self@, x@, n as nat),
    {
        let d: usize = self.n_features;
        let mut b: Vec<u8> = Vec::with_capacity(n * d);
        let ghost all = binned_table(self@, x@, n as nat);
        let mut i: usize = 0;
        proof {
            assert(0 * d == 0) by (nonlinear_arith);
        }
        while i < n
            invariant
                self.wf(),
                d == self@.len(),
                n * d <= x.len(),
                i <= n,
                all == binned_table(self@, x@, n as nat),
                b@ =~= all.take(i * d),
            decreases n - i,
        {
            let mut f: usize = 0;
            proof {
                crate::grid::lemma_row_start(i as int, n as int, d as int);
            }
            while f < d
                invariant
                    self.wf(),
                    d == self@.len(),
                    n * d <= x.len(),
                    i < n,
                    f <= d,
                    i * d + d <= n * d,
                    all == binned_table(self@, x@, n as nat),
                    b@ =~= all.take(i * d + f),
                decreases d - f,
            {
                proof {
                    lemma_cell(i as int, f as int, n as int, d as int);
                    crate::grid::lemma_position(i as int, f as int, d as int);
                    law_bin_is_in_range(self@[f as int], x@[i * d + f]);
                }
                b.push(self.bin_val(f, x[i * d + f]));
                f = f + 1;
            }
            proof {
                assert((i + 1) * d == i * d + d) by (nonlinear_arith);
            }
            i = i + 1;
        }
        proof {
            assert(all.take(n * d) =~= all);
        }
        b
    }
}

} // verus!
