//! Regression by squared error.

use crate::bins::numeric;
use crate::booster::{task_of, Booster, Model, Progress, Task};
use crate::float::F32;
use crate::grid::{lemma_row_start, row_of};
use crate::objective::{mean, Obj};
use crate::params::{default_params, GbmParams};
use vstd::prelude::*;

verus! {

/// Rounds that need no exponentials.
pub open spec fn quiet(rounds: nat) -> Seq<Seq<F32>> {
    Seq::new(rounds, |r: int| Seq::<F32>::empty())
}

/// The regression model of a table of `n` rows and `d` features.
pub open spec fn regression(x: Seq<F32>, y: Seq<F32>, n: nat, d: nat, p: GbmParams) -> Model {
    task_of(x, y, n, d, Obj::L2, p).model(seq![mean(y)], quiet(p.n_estimators as nat))
}

/// Rounds of squared error need no exponentials.
proof fn lemma_squared_error_is_quiet<E: Fn(F32) -> F32>(
    task: Task,
    exp: E,
    st: Progress,
    trace: Seq<Seq<F32>>,
)
    requires
        task.obj is L2,
        task.traced(exp, st, trace),
    ensures
        trace == quiet(trace.len()),
    decreases trace.len(),
{
    if trace.len() > 0 {
        lemma_squared_error_is_quiet(task, exp, st, trace.drop_last());
        assert(trace.last() =~= Seq::<F32>::empty());
        assert forall|r: int| 0 <= r < trace.len() implies #[trigger] trace[r]
            == quiet(trace.len())[r] by {
            if r < trace.len() - 1 {
                assert(trace.drop_last()[r] == quiet((trace.len() - 1) as nat)[r]);
            }
        }
    }
    assert(trace =~= quiet(trace.len()));
}

/// A gradient-boosting regressor (squared error).
pub struct GbmRegressor {
    b: Booster,
}

impl View for GbmRegressor {
    type V = Model;

    closed spec fn view(&self) -> Model {
        self.b@
    }
}

impl GbmRegressor {
    /// There is one well-formed output.
    pub closed spec fn wf(self) -> bool {
        self.b.wf() && self@.base.len() == 1
    }

    /// Fits with the default parameters.
    pub fn fit(x: &[F32], y: &[F32], n_rows: usize, n_features: usize) -> (r: Self)
        requires
            x@.len() == n_rows * n_features,
            y@.len() == n_rows,
            numeric(x@),
        ensures
            r.wf(),
            r@ == regression(x@, y@, n_rows as nat, n_features as nat, default_params()),
    {
        Self::fit_with(x, y, n_rows, n_features, &GbmParams::default())
    }

    /// Fits a table of `n` rows and `d` features.
    pub fn fit_with(x: &[F32], y: &[F32], n: usize, d: usize, p: &GbmParams) -> (r: Self)
        requires
            x@.len() == n * d,
            y@.len() == n,
            numeric(x@),
        ensures
            r.wf(),
            r@ == regression(x@, y@, n as nat, d as nat, *p),
    {
        let obj: Obj = Obj::L2;
        let base: Vec<F32> = obj.base_scores(y, Vec::new());
        assert(n * obj.outputs() == n) by (nonlinear_arith)
            requires
                obj.outputs() == 1,
        ;
        // Squared error calls no function of the scores.
        let unused = |v: F32| -> (r: F32)
            ensures
                r == v,
            { v };
        let b: Booster = Booster::train(x, y, n, d, &obj, p, base, &unused);
        proof {
            let task = task_of(x@, y@, n as nat, d as nat, obj, *p);
            let trace = choose|trace: Seq<Seq<F32>>|
                trace.len() == p.n_estimators && #[trigger] task.traced(
                    unused,
                    task.start(base@),
                    trace,
                ) && b@ == task.model(base@, trace);
            lemma_squared_error_is_quiet(task, unused, task.start(base@), trace);
        }
        GbmRegressor { b }
    }

    /// The prediction for one row.
    pub fn predict_row(&self, row: &[F32]) -> (r: F32)
        requires
            self.wf(),
            row@.len() >= self@.edges.len(),
        ensures
            r == self@.scores(row@)[0],
    {
        self.b.raw_row(row)[0]
    }

    /// The predictions for the first `n_rows` rows of a table.
    pub fn predict(&self, x: &[F32], n_rows: usize) -> (r: Vec<F32>)
        requires
            self.wf(),
            n_rows * self@.edges.len() <= x@.len(),
        ensures
            r@.len() == n_rows,
            forall|i: int|
                0 <= i < n_rows ==> #[trigger] r@[i] == self@.scores(
                    row_of(x@, i, self@.edges.len() as int),
                )[0],
    {
        let d: usize = self.b.n_features();
        let mut r: Vec<F32> = Vec::with_capacity(n_rows);
        let mut i: usize = 0;
        while i < n_rows
            invariant
                self.wf(),
                d == self@.edges.len(),
                n_rows * d <= x@.len(),
                i <= n_rows,
                r@.len() == i,
                forall|j: int|
                    0 <= j < i ==> #[trigger] r@[j] == self@.scores(row_of(x@, j, d as int))[0],
            decreases n_rows - i,
        {
            proof {
                lemma_row_start(i as int, n_rows as int, d as int);
                assert(x.len() == x@.len());
            }
            let row: &[F32] = vstd::slice::slice_subrange(x, i * d, i * d + d);
            r.push(self.predict_row(row));
            i = i + 1;
        }
        r
    }
}

} // verus!
