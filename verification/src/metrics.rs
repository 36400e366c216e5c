//! How good predictions are.

use crate::float::convert::of_integer;
use crate::float::F32;
use crate::objective::{mean, mean_of, ONE, ZERO};
use vstd::prelude::*;

verus! {

/// The sum of the squared differences of the first `count` pairs.
pub open spec fn squared_errors(a: Seq<F32>, b: Seq<F32>, count: nat) -> F32
    decreases count,
{
    if count == 0 {
        F32 { bits: ZERO }
    } else {
        let e = a[count - 1].minus(b[count - 1]);
        squared_errors(a, b, (count - 1) as nat).plus(e.times(e))
    }
}

/// The sum of the squared differences of the first `count` numbers from `m`.
pub open spec fn squared_deviations(a: Seq<F32>, m: F32, count: nat) -> F32
    decreases count,
{
    if count == 0 {
        F32 { bits: ZERO }
    } else {
        let e = a[count - 1].minus(m);
        squared_deviations(a, m, (count - 1) as nat).plus(e.times(e))
    }
}

/// The coefficient of determination: one less the share of the variation that is left; zero if
/// there are no rows or there is no variation.
pub open spec fn determination(y: Seq<F32>, pred: Seq<F32>) -> F32 {
    let st = squared_deviations(y, mean(y), y.len());
    if y.len() == 0 || st.zero() {
        F32 { bits: ZERO }
    } else {
        (F32 { bits: ONE }).minus(squared_errors(y, pred, y.len()).over(st))
    }
}

/// How many of the first `count` labels were predicted.
pub open spec fn hits(y: Seq<F32>, pred: Seq<usize>, count: nat) -> nat
    decreases count,
{
    if count == 0 {
        0
    } else {
        hits(y, pred, (count - 1) as nat) + (if y[count - 1].whole() == pred[count - 1] {
            1nat
        } else {
            0nat
        })
    }
}

/// The share of the labels that were predicted; zero if there are none.
pub open spec fn hit_rate(y: Seq<F32>, pred: Seq<usize>) -> F32 {
    if y.len() == 0 {
        F32 { bits: ZERO }
    } else {
        of_integer(hits(y, pred, y.len()) as int).over(of_integer(y.len() as int))
    }
}

/// The coefficient of determination.
pub fn r2_score(y_true: &[F32], y_pred: &[F32]) -> (r: F32)
    requires
        y_pred@.len() >= y_true@.len(),
    ensures
        r == determination(y_true@, y_pred@),
{
    let n: usize = y_true.len();
    if n == 0 {
        return F32 { bits: ZERO };
    }
    let m: F32 = mean_of(y_true);
    let mut sr: F32 = F32 { bits: ZERO };
    let mut st: F32 = F32 { bits: ZERO };
    let mut i: usize = 0;
    while i < n
        invariant
            i <= n,
            n == y_true@.len(),
            y_pred@.len() >= n,
            sr == squared_errors(y_true@, y_pred@, i as nat),
            st == squared_deviations(y_true@, m, i as nat),
        decreases n - i,
    {
        let e: F32 = y_true[i].sub(y_pred[i]);
        let v: F32 = y_true[i].sub(m);
        sr = sr.add(e.mul(e));
        st = st.add(v.mul(v));
        i = i + 1;
    }
    if st.is_zero() {
        F32 { bits: ZERO }
    } else {
        let one: F32 = F32 { bits: ONE };
        one.sub(sr.div(st))
    }
}

/// The fraction of labels that were predicted exactly.
pub fn accuracy(y_true: &[F32], y_pred_class: &[usize]) -> (r: F32)
    requires
        y_pred_class@.len() >= y_true@.len(),
    ensures
        r == hit_rate(y_true@, y_pred_class@),
{
    let n: usize = y_true.len();
    if n == 0 {
        return F32 { bits: ZERO };
    }
    let mut c: usize = 0;
    let mut i: usize = 0;
    while i < n
        invariant
            c <= i <= n,
            n == y_true@.len(),
            y_pred_class@.len() >= n,
            c == hits(y_true@, y_pred_class@, i as nat),
        decreases n - i,
    {
        if y_true[i].to_usize() == y_pred_class[i] {
            c = c + 1;
        }
        i = i + 1;
    }
    F32::from_usize(c).div(F32::from_usize(n))
}

} // verus!
