//! Fitting on labelled rows and predicting query rows in one call.

use crate::bins::numeric;
use crate::classifier::{class_loss, may_fit, top_label, ClassModel, GbmClassifier};
use crate::float::F32;
use crate::function::callable;
use crate::grid::{lemma_row_start, row_of};
use crate::params::default_params;
use crate::regressor::{regression, GbmRegressor};
use vstd::prelude::*;

verus! {

/// The number of whole rows in a flat table; none if rows are empty.
pub open spec fn row_count(len: nat, width: nat) -> nat {
    if width > 0 {
        len / width
    } else {
        0
    }
}

/// Whether this may be the predicted class of a row, as a 32-bit number.
pub open spec fn may_classify<E: Fn(F32) -> F32>(
    m: ClassModel,
    exp: E,
    row: Seq<F32>,
    v: u32,
) -> bool {
    exists|c: int|
        0 <= c < m.classes && #[trigger] m.may_predict(exp, row, c) && v == #[verifier::truncate] (
        c as u32)
}

/// Whether these may be the classes of the rows of a table.
pub open spec fn classes_of<E: Fn(F32) -> F32>(
    m: ClassModel,
    exp: E,
    x: Seq<F32>,
    width: nat,
    r: Seq<u32>,
) -> bool {
    forall|i: int|
        0 <= i < r.len() ==> may_classify(m, exp, row_of(x, i, width as int), #[trigger] r[i])
}

/// Whether these may be the probabilities for the first rows of a table, one after another.
pub open spec fn probabilities_of<E: Fn(F32) -> F32>(
    m: ClassModel,
    exp: E,
    x: Seq<F32>,
    width: nat,
    rows: nat,
    r: Seq<F32>,
) -> bool {
    &&& r.len() == rows * m.classes
    &&& forall|i: int|
        0 <= i < rows ==> #[trigger] m.may_give(
            exp,
            row_of(x, i, width as int),
            row_of(r, i, m.classes as int),
        )
}

fn count_rows(len: usize, width: usize) -> (r: usize)
    ensures
        r == row_count(len as nat, width as nat),
        r * width <= len,
{
    if width > 0 {
        proof {
            vstd::arithmetic::div_mod::lemma_fundamental_div_mod(len as int, width as int);
            vstd::arithmetic::mul::lemma_mul_is_commutative(
                width as int,
                len as int / width as int,
            );
        }
        len / width
    } else {
        0
    }
}

/// Regression: fits the support rows and predicts the query rows.
pub fn gbm_regress(
    support_x: &[F32],
    support_y: &[F32],
    query_x: &[F32],
    n_feat: usize,
) -> (r: Vec<F32>)
    requires
        support_x@.len() == support_y@.len() * n_feat,
        numeric(support_x@),
    ensures
        r@.len() == row_count(query_x@.len(), n_feat as nat),
        ({
            let m = regression(
                support_x@,
                support_y@,
                support_y@.len(),
                n_feat as nat,
                default_params(),
            );
            forall|i: int|
                0 <= i < r@.len() ==> #[trigger] r@[i] == m.scores(
                    row_of(query_x@, i, n_feat as int),
                )[0]
        }),
{
    let ns: usize = support_y.len();
    let m: GbmRegressor = GbmRegressor::fit(support_x, support_y, ns, n_feat);
    let nq: usize = count_rows(query_x.len(), n_feat);
    m.predict(query_x, nq)
}

/// Classification: fits the support rows and predicts the class of each query row.
pub fn gbm_classify<E: Fn(F32) -> F32, L: Fn(F32) -> F32>(
    support_x: &[F32],
    support_labels: &[F32],
    query_x: &[F32],
    n_feat: usize,
    exp: &E,
    ln: &L,
) -> (r: Vec<u32>)
    requires
        support_x@.len() == support_labels@.len() * n_feat,
        numeric(support_x@),
        top_label(support_labels@).whole() < usize::MAX,
        support_labels@.len() * class_loss(support_labels@).outputs() <= usize::MAX,
        callable(*exp),
        callable(*ln),
    ensures
        r@.len() == row_count(query_x@.len(), n_feat as nat),
        exists|m: ClassModel|
            may_fit(
                support_x@,
                support_labels@,
                support_labels@.len(),
                n_feat as nat,
                default_params(),
                *exp,
                *ln,
                m,
            ) && #[trigger] classes_of(m, *exp, query_x@, n_feat as nat, r@),
{
    let ns: usize = support_labels.len();
    let m: GbmClassifier = GbmClassifier::fit(support_x, support_labels, ns, n_feat, exp, ln);
    let nq: usize = count_rows(query_x.len(), n_feat);
    let mut r: Vec<u32> = Vec::with_capacity(nq);
    let mut i: usize = 0;
    while i < nq
        invariant
            m.wf(),
            callable(*exp),
            m@.model.edges.len() == n_feat,
            nq * n_feat <= query_x@.len(),
            i <= nq,
            r@.len() == i,
            classes_of(m@, *exp, query_x@, n_feat as nat, r@),
        decreases nq - i,
    {
        proof {
            lemma_row_start(i as int, nq as int, n_feat as int);
            assert(query_x.len() == query_x@.len());
        }
        let row: &[F32] = vstd::slice::slice_subrange(query_x, i * n_feat, i * n_feat + n_feat);
        let c: usize = m.predict_row(row, exp);
        let ghost before = r@;
        r.push(#[verifier::truncate] (c as u32));
        proof {
            let row = row_of(query_x@, i as int, n_feat as int);
            assert(m@.may_predict(*exp, row, c as int));
            assert forall|j: int| 0 <= j < r@.len() implies may_classify(
                m@,
                *exp,
                row_of(query_x@, j, n_feat as int),
                #[trigger] r@[j],
            ) by {
                if j < i {
                    assert(before[j] == r@[j]);
                }
            }
        }
        i = i + 1;
    }
    r
}

/// Classification: fits the support rows and gives the class probabilities of each query row, one
/// row after another.
pub fn gbm_classify_proba<E: Fn(F32) -> F32, L: Fn(F32) -> F32>(
    support_x: &[F32],
    support_labels: &[F32],
    query_x: &[F32],
    n_feat: usize,
    exp: &E,
    ln: &L,
) -> (r: Vec<F32>)
    requires
        support_x@.len() == support_labels@.len() * n_feat,
        numeric(support_x@),
        top_label(support_labels@).whole() < usize::MAX,
        support_labels@.len() * class_loss(support_labels@).outputs() <= usize::MAX,
        callable(*exp),
        callable(*ln),
    ensures
        exists|m: ClassModel|
            may_fit(
                support_x@,
                support_labels@,
                support_labels@.len(),
                n_feat as nat,
                default_params(),
                *exp,
                *ln,
                m,
            ) && #[trigger] probabilities_of(
                m,
                *exp,
                query_x@,
                n_feat as nat,
                row_count(query_x@.len(), n_feat as nat),
                r@,
            ),
{
    let ns: usize = support_labels.len();
    let m: GbmClassifier = GbmClassifier::fit(support_x, support_labels, ns, n_feat, exp, ln);
    let nq: usize = count_rows(query_x.len(), n_feat);
    let mut r: Vec<F32> = Vec::new();
    let ghost k = m@.classes as int;
    let mut i: usize = 0;
    assert(0 * k == 0) by (nonlinear_arith);
    while i < nq
        invariant
            m.wf(),
            callable(*exp),
            k == m@.classes,
            m@.model.edges.len() == n_feat,
            nq * n_feat <= query_x@.len(),
            i <= nq,
            probabilities_of(m@, *exp, query_x@, n_feat as nat, i as nat, r@),
        decreases nq - i,
    {
        proof {
            lemma_row_start(i as int, nq as int, n_feat as int);
            assert(query_x.len() == query_x@.len());
        }
        let row: &[F32] = vstd::slice::slice_subrange(query_x, i * n_feat, i * n_feat + n_feat);
        let mut p: Vec<F32> = m.predict_proba_row(row, exp);
        let ghost before = r@;
        let ghost probs = p@;
        r.append(&mut p);
        proof {
            lemma_row_start(i as int, i + 1, k);
            assert forall|j: int| 0 <= j < i + 1 implies #[trigger] m@.may_give(
                *exp,
                row_of(query_x@, j, n_feat as int),
                row_of(r@, j, k),
            ) by {
                if j < i {
                    lemma_row_start(j, i as int, k);
                    assert(row_of(before, j, k) =~= row_of(r@, j, k));
                    assert(m@.may_give(
                        *exp,
                        row_of(query_x@, j, n_feat as int),
                        row_of(before, j, k),
                    ));
                } else {
                    assert(row_of(r@, j, k) =~= probs);
                }
            }
        }
        i = i + 1;
    }
    r
}

} // verus!
