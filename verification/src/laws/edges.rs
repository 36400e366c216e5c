//! Where features are cut into bins.

use crate::bins::{column, edge_position, lemma_edge_positions, midpoint, numeric};
use crate::booster::task_of;
use crate::distinct::{distinct_of, lemma_distinct_of, lemma_increasing_unique, same_values};
use crate::float::arith::{absolute, lemma_rounded_zero};
use crate::float::error::{lemma_product_error_of, lemma_rounded_below, lemma_sum_error_of};
use crate::float::laws::{lemma_of_rank, lemma_rounded};
use crate::float::model::{lemma_magnitude_order, lemma_rank_orders, of_rank, INF_CODE};
use crate::float::scale::lemma_power_code;
use crate::float::F32;
use crate::objective::Obj;
use crate::params::GbmParams;
use vstd::arithmetic::div_mod::lemma_fundamental_div_mod;
use vstd::arithmetic::power2::{
    lemma_pow2_pos, lemma_pow2_strictly_increases, lemma_pow2_unfold, pow2,
};
use vstd::prelude::*;

verus! {

/// Whether numbers strictly ascend.
pub open spec fn ascending(s: Seq<F32>) -> bool {
    forall|i: int, j: int|
        0 <= i < j < s.len() ==> (#[trigger] s[i]).below(#[trigger] s[j])
}

/// Whether some number has a value.
pub open spec fn holds(s: Seq<F32>, v: int) -> bool {
    exists|k: int| 0 <= k < s.len() && (#[trigger] s[k]).value() == v
}

/// Whether these are the different values of feature `f`, in order.
pub open spec fn values_of_feature(x: Seq<F32>, n: nat, d: nat, f: int, s: Seq<F32>) -> bool {
    &&& ascending(s)
    &&& forall|k: int| 0 <= k < s.len() ==> !(#[trigger] s[k]).nan()
    &&& forall|i: int| 0 <= i < n ==> holds(s, (#[trigger] x[i * d + f]).value())
    &&& forall|k: int|
        0 <= k < s.len() ==> exists|i: int|
            0 <= i < n && (#[trigger] x[i * d + f]).value() == (#[trigger] s[k]).value()
}

/// Whether `e` is halfway between `a` and `b`, up to rounding, for sizes up to 2^126.
pub open spec fn halfway(e: F32, a: int, b: int) -> bool {
    absolute(a) <= pow2(275) && absolute(b) <= pow2(275) ==> e.finite() && 0x100_0000 * absolute(
        2 * e.value() - (a + b),
    ) <= 8 * absolute(e.value()) + 0x200_0000
}

/// Whether edge `k` is cut at place `q` among `len` different values, with room for `b` bins: between
/// neighbours where there are few values, and otherwise so that `k + 1` of `b` parts lie below.
pub open spec fn evenly_cut(k: int, q: int, len: int, b: int) -> bool {
    &&& 1 <= q < len
    &&& len <= b ==> q == k + 1
    &&& len > b ==> b * q <= (k + 1) * len < b * (q + 1)
}

/// Whether the edges of a feature with some different values cut it into `b` bins at most, evenly.
pub open spec fn cut_evenly(e: Seq<F32>, s: Seq<F32>, b: int) -> bool {
    let len = s.len() as int;
    &&& e.len() == (if len == 0 {
        0
    } else if len <= b {
        len - 1
    } else {
        b - 1
    })
    &&& forall|k: int| 0 <= k < e.len() ==> cut_at(#[trigger] e[k], k, s, b)
}

/// Whether edge `k` is halfway between two neighbours at the right place.
pub open spec fn cut_at(e: F32, k: int, s: Seq<F32>, b: int) -> bool {
    exists|q: int| #[trigger]
        evenly_cut(k, q, s.len() as int, b) && halfway(e, s[q - 1].value(), s[q].value())
}

proof fn lemma_ranks_of_values(x: Seq<F32>, n: nat, d: nat, f: int, s: Seq<F32>)
    requires
        values_of_feature(x, n, d, f, s),
        x.len() == n * d,
        0 <= f < d,
    ensures
        distinct_of(column(x, n, d, f)) == Seq::new(s.len(), |k: int| s[k].rank() as i64),
{
    let r = Seq::new(s.len(), |k: int| s[k].rank() as i64);
    let c = column(x, n, d, f);
    assert forall|i: int, j: int| 0 <= i < j < r.len() implies r[i] < r[j] by {
        assert(s[i].below(s[j]));
        lemma_rank_orders(s[i], s[j]);
    }
    assert forall|v: i64| #[trigger] r.contains(v) <==> c.contains(v) by {
        if r.contains(v) {
            let k = choose|k: int| 0 <= k < r.len() && r[k] == v;
            assert(s[k] == s[k]);
            let i = choose|i: int|
                0 <= i < n && (#[trigger] x[i * d + f]).value() == s[k].value();
            lemma_rank_orders(x[i * d + f], s[k]);
            assert(c[i] == v);
        }
        if c.contains(v) {
            let i = choose|i: int| 0 <= i < c.len() && c[i] == v;
            assert(holds(s, x[i * d + f].value()));
            let k = choose|k: int|
                0 <= k < s.len() && (#[trigger] s[k]).value() == x[i * d + f].value();
            lemma_rank_orders(x[i * d + f], s[k]);
            assert(r[k] == v);
        }
    }
    lemma_distinct_of(c);
    let t = distinct_of(c);
    assert(same_values(r, t)) by {
        assert forall|v: i64| #[trigger] r.contains(v) <==> t.contains(v) by {
            assert(t.contains(v) <==> c.contains(v));
        }
    }
    lemma_increasing_unique(r, t);
}

proof fn lemma_halfway(a: F32, b: F32)
    requires
        !a.nan(),
        !b.nan(),
    ensures
        halfway((F32 { bits: 0x3f00_0000 }).times(a.plus(b)), a.value(), b.value()),
{
    let half = F32 { bits: 0x3f00_0000 };
    if absolute(a.value()) <= pow2(275) && absolute(b.value()) <= pow2(275) {
        lemma_power_code(254);
        lemma_pow2_strictly_increases(275, 277);
        lemma_magnitude_order(a.code(), INF_CODE as int);
        lemma_magnitude_order(b.code(), INF_CODE as int);
        assert(255 * 0x80_0000 == INF_CODE);
        lemma_pow2_unfold(276);
        let u = pow2(149) as int;
        let h = pow2(148) as int;
        lemma_pow2_pos(148);
        lemma_pow2_unfold(149);
        lemma_power_code(125);
        assert(126 * 0x80_0000 == 0x3f00_0000);
        assert(half.value() == h);
        let v = a.value() + b.value();
        let w = absolute(v);
        lemma_sum_error_of(a, b);
        lemma_rounded_below(w, 1, 276);
        lemma_rounded(w, 1);
        lemma_rounded_zero(1);
        let r = a.plus(b).value();
        assert(absolute(r) <= pow2(276));
        assert(absolute(h * r) <= u * pow2(276)) by (nonlinear_arith)
            requires
                absolute(r) <= pow2(276),
                absolute(r) >= r,
                absolute(r) >= -r,
                0 < h <= u,
                absolute(h * r) == h * r || absolute(h * r) == -(h * r),
        {
            assert(h * r <= h * absolute(r));
            assert(h * (-r) <= h * absolute(r));
            assert(h * absolute(r) <= h * pow2(276));
            assert(h * pow2(276) <= u * pow2(276));
            assert(-(h * r) == h * (-r));
        }
        lemma_product_error_of(half, a.plus(b));
        let e = half.times(a.plus(b)).value();
        let q = absolute(2 * e - r);
        assert(2 * absolute(u * e - h * r) == u * q) by (nonlinear_arith)
            requires
                u == 2 * h,
                q == 2 * e - r || q == r - 2 * e,
                q >= 0,
                u > 0,
                absolute(u * e - h * r) >= 0,
                absolute(u * e - h * r) == u * e - h * r || absolute(u * e - h * r) == h * r - u
                    * e,
        {
            assert(2 * (u * e - h * r) == u * (2 * e - r));
            assert(2 * (h * r - u * e) == u * (r - 2 * e));
            assert(u * q >= 0);
        }
        let z = absolute(e);
        assert(0x100_0000 * q <= 2 * (z + 0x80_0000)) by (nonlinear_arith)
            requires
                0x80_0000 * (u * q) <= u * (z + 0x80_0000),
                u > 0,
        {
            assert(0x80_0000 * (u * q) == u * (0x80_0000 * q));
        }
    }
}

/// Where a trained model cuts a feature: between neighbours of its different training values, at
/// every gap if there are no more values than bins, and otherwise at evenly spaced ones. An edge is
/// halfway between the two values, up to rounding.
pub proof fn law_features_are_cut_at_quantiles(
    x: Seq<F32>,
    y: Seq<F32>,
    n: nat,
    d: nat,
    obj: Obj,
    p: GbmParams,
    base: Seq<F32>,
    trace: Seq<Seq<F32>>,
    f: int,
    s: Seq<F32>,
)
    requires
        x.len() == n * d,
        numeric(x),
        0 <= f < d,
        values_of_feature(x, n, d, f, s),
    ensures
        ({
            let e = task_of(x, y, n, d, obj, p).model(base, trace).edges[f];
            let b = if p.max_bins < 2 {
                2
            } else if p.max_bins > 256 {
                256
            } else {
                p.max_bins as int
            };
            cut_evenly(e, s, b)
        }),
{
    let e = task_of(x, y, n, d, obj, p).model(base, trace).edges[f];
    let b = p.bin_limit() as int;
    let len = s.len() as int;
    lemma_ranks_of_values(x, n, d, f, s);
    assert forall|k: int| 0 <= k < e.len() implies cut_at(#[trigger] e[k], k, s, b) by {
        lemma_edge_positions(s.len(), b as nat, k);
        let q = edge_position(s.len(), b as nat, k);
        if len > b {
            let m = (k + 1) * len;
            lemma_fundamental_div_mod(m, b);
            assert(b * q <= m < b * (q + 1)) by (nonlinear_arith)
                requires
                    m == b * q + m % b,
                    0 <= m % b < b,
            ;
        }
        let (v, w) = (s[q - 1], s[q]);
        assert(!v.nan() && !w.nan());
        lemma_of_rank(v.rank());
        lemma_of_rank(w.rank());
        let (rv, rw) = (of_rank(v.rank()), of_rank(w.rank()));
        lemma_rank_orders(rv, v);
        lemma_rank_orders(rw, w);
        lemma_halfway(rv, rw);
        assert(e[k] == midpoint(v.rank() as i64, w.rank() as i64));
        assert(evenly_cut(k, q, len, b));
    }
}

} // verus!
