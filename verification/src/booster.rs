//! Boosting: the rounds that train a model, and the scores that a model gives.

use crate::bins::{bin_of, binned_table, fitted_edges, law_bin_is_in_range, numeric, BinMapper};
use crate::float::convert::of_integer;
use crate::float::F32;
use crate::function::{applied, apply, callable};
use crate::grid::{lemma_cell, lemma_position, lemma_row_column, lemma_row_start, row_of};
use crate::grow::{rows_below, Grow};
use crate::objective::Obj;
use crate::params::GbmParams;
use crate::rng::{sample, sample_draws, sample_indices, state_after, SplitMix64};
use crate::split::{law_grown_keeps_limits, Samples};
use crate::tree::{Shape, Tree};
use vstd::prelude::*;

verus! {

/// A starting score with the contributions of trees added in turn.
pub open spec fn boosted(start: F32, trees: Seq<Shape>, rate: F32, row: Seq<u8>) -> F32
    decreases trees.len(),
{
    if trees.len() == 0 {
        start
    } else {
        boosted(start, trees.drop_last(), rate, row).plus(rate.times(trees.last().eval(row)))
    }
}

/// A trained model: the bin edges of each feature, and for each output a starting score and the
/// trees whose scaled values are added to it.
pub struct Model {
    pub edges: Seq<Seq<F32>>,
    pub base: Seq<F32>,
    pub trees: Seq<Seq<Shape>>,
    pub rate: F32,
}

impl Model {
    /// The bins of a row.
    pub open spec fn bins(self, row: Seq<F32>) -> Seq<u8> {
        Seq::new(self.edges.len(), |f: int| bin_of(self.edges[f], row[f]) as u8)
    }

    /// The scores of a row, one per output.
    pub open spec fn scores(self, row: Seq<F32>) -> Seq<F32> {
        Seq::new(
            self.base.len(),
            |o: int| boosted(self.base[o], self.trees[o], self.rate, self.bins(row)),
        )
    }
}

/// What a model is trained on.
pub struct Task {
    pub edges: Seq<Seq<F32>>,
    /// The bins of all rows.
    pub binned: Seq<u8>,
    pub y: Seq<F32>,
    pub n: nat,
    pub d: nat,
    pub obj: Obj,
    pub p: GbmParams,
}

/// The training task for a table of `n` rows and `d` features.
pub open spec fn task_of(
    x: Seq<F32>,
    y: Seq<F32>,
    n: nat,
    d: nat,
    obj: Obj,
    p: GbmParams,
) -> Task {
    let edges = fitted_edges(x, n, d, p.bin_limit());
    Task { edges, binned: binned_table(edges, x, n), y, n, d, obj, p }
}

/// How far training has come: the scores of all rows, the trees of each output, and the state of
/// the generator.
pub struct Progress {
    pub raw: Seq<F32>,
    pub trees: Seq<Seq<Shape>>,
    pub seed: u64,
}

impl Task {
    /// The number of rows that each tree is grown on: the given share of them, rounded up, but at
    /// least one and no more than there are.
    pub open spec fn sample_size(self) -> nat {
        let wanted = of_integer(self.n as int).times(self.p.subsample).whole_up() as nat;
        let most = if self.n == 0 { 1 } else { self.n };
        if wanted < 1 {
            1
        } else if wanted > most {
            most
        } else {
            wanted
        }
    }

    /// What the tree of an output is grown on.
    pub open spec fn samples(self, grad: Seq<F32>, hess: Seq<F32>, o: int) -> Samples {
        let k = self.obj.outputs();
        Samples {
            binned: self.binned,
            d: self.d,
            bins: Seq::new(self.d, |f: int| self.edges[f].len() + 1),
            grad: Seq::new(self.n, |i: int| grad[i * k + o]),
            hess: Seq::new(self.n, |i: int| hess[i * k + o]),
            lambda: self.p.lambda,
            min_leaf: self.p.min_leaf(),
            max_depth: self.p.max_depth as nat,
        }
    }

    /// Before the first round.
    pub open spec fn start(self, base: Seq<F32>) -> Progress {
        let k = self.obj.outputs();
        Progress {
            raw: Seq::new(self.n * k, |p: int| base[p % k as int]),
            trees: Seq::new(k, |o: int| Seq::empty()),
            seed: self.p.seed,
        }
    }

    /// The tree that is grown next, for output `o`.
    pub open spec fn next_tree(
        self,
        st: Progress,
        grad: Seq<F32>,
        hess: Seq<F32>,
        o: int,
    ) -> Shape {
        self.samples(grad, hess, o).grown(sample(self.n, self.sample_size(), st.seed), 0)
    }

    /// With a tree added to output `o`.
    pub open spec fn with_tree(self, st: Progress, tree: Shape, o: int) -> Progress {
        let k = self.obj.outputs() as int;
        Progress {
            raw: Seq::new(
                st.raw.len(),
                |p: int|
                    if p % k == o {
                        st.raw[p].plus(
                            self.p.learning_rate.times(
                                tree.eval(row_of(self.binned, p / k, self.d as int)),
                            ),
                        )
                    } else {
                        st.raw[p]
                    },
            ),
            trees: st.trees.update(o, st.trees[o].push(tree)),
            seed: state_after(st.seed, sample_draws(self.n, self.sample_size())),
        }
    }

    /// After the trees of the first `count` outputs of a round.
    pub open spec fn after_outputs(
        self,
        st: Progress,
        grad: Seq<F32>,
        hess: Seq<F32>,
        count: nat,
    ) -> Progress
        decreases count,
    {
        if count == 0 {
            st
        } else {
            let before = self.after_outputs(st, grad, hess, (count - 1) as nat);
            self.with_tree(before, self.next_tree(before, grad, hess, count - 1), count - 1)
        }
    }

    /// The numbers whose exponentials the next round needs.
    pub open spec fn exp_inputs(self, st: Progress) -> Seq<F32> {
        self.obj.exp_inputs_of(st.raw, self.n)
    }

    /// After one round, given those exponentials.
    pub open spec fn after_round(self, st: Progress, exps: Seq<F32>) -> Progress {
        self.after_outputs(
            st,
            self.obj.gradients(st.raw, exps, self.y),
            self.obj.hessians(exps, self.y),
            self.obj.outputs(),
        )
    }

    /// After several rounds, given the exponentials of each.
    pub open spec fn after_rounds(self, st: Progress, trace: Seq<Seq<F32>>) -> Progress
        decreases trace.len(),
    {
        if trace.len() == 0 {
            st
        } else {
            self.after_round(self.after_rounds(st, trace.drop_last()), trace.last())
        }
    }

    /// Whether a function may have returned the exponentials of each round.
    pub open spec fn traced<E: Fn(F32) -> F32>(
        self,
        exp: E,
        st: Progress,
        trace: Seq<Seq<F32>>,
    ) -> bool
        decreases trace.len(),
    {
        trace.len() == 0 || (self.traced(exp, st, trace.drop_last()) && applied(
            exp,
            self.exp_inputs(self.after_rounds(st, trace.drop_last())),
            trace.last(),
        ))
    }

    /// The model that rounds with the given exponentials lead to.
    pub open spec fn model(self, base: Seq<F32>, trace: Seq<Seq<F32>>) -> Model {
        Model {
            edges: self.edges,
            base,
            trees: self.after_rounds(self.start(base), trace).trees,
            rate: self.p.learning_rate,
        }
    }

    /// Whether training from the given starting scores can end in a model: some run of all rounds,
    /// with exponentials that the function may have returned, leads there.
    pub open spec fn leads_to<E: Fn(F32) -> F32>(
        self,
        exp: E,
        base: Seq<F32>,
        model: Model,
    ) -> bool {
        exists|trace: Seq<Seq<F32>>|
            trace.len() == self.p.n_estimators && #[trigger] self.traced(
                exp,
                self.start(base),
                trace,
            ) && model == self.model(base, trace)
    }

    /// The tables belong together.
    pub open spec fn sound(self) -> bool {
        &&& self.edges.len() == self.d
        &&& self.binned.len() == self.n * self.d
        &&& self.y.len() == self.n
        &&& forall|f: int| 0 <= f < self.d ==> (#[trigger] self.edges[f]).len() <= 255
        &&& forall|i: int, f: int|
            0 <= i < self.n && 0 <= f < self.d ==> (#[trigger] self.binned[i * self.d + f])
                <= self.edges[f].len()
    }
}

impl Progress {
    /// The tables have the size that a task asks for, and the trees read features that exist.
    pub open spec fn fits(self, task: Task) -> bool {
        &&& self.raw.len() == task.n * task.obj.outputs()
        &&& self.trees.len() == task.obj.outputs()
        &&& forall|o: int, r: int|
            0 <= o < self.trees.len() && 0 <= r < self.trees[o].len() ==> (
            #[trigger] self.trees[o][r]).reads_below(task.d)
    }
}

/// A table's task is sound.
pub proof fn lemma_task_sound(x: Seq<F32>, y: Seq<F32>, n: nat, d: nat, obj: Obj, p: GbmParams)
    requires
        x.len() == n * d,
        y.len() == n,
    ensures
        task_of(x, y, n, d, obj, p).sound(),
{
    let t = task_of(x, y, n, d, obj, p);
    assert forall|i: int, f: int| 0 <= i < n && 0 <= f < d implies (#[trigger] t.binned[i * d + f])
        <= t.edges[f].len() by {
        lemma_cell(i, f, n as int, d as int);
        lemma_position(i, f, d as int);
        law_bin_is_in_range(t.edges[f], x[i * d + f]);
        crate::bins::law_bins_are_bounded(x, n, d, p.bin_limit(), f);
    }
    assert forall|f: int| 0 <= f < d implies (#[trigger] t.edges[f]).len() <= 255 by {
        crate::bins::law_bins_are_bounded(x, n, d, p.bin_limit(), f);
    }
}

/// Scores with a tree's contribution to output `o` added for the first `rows` rows.
spec fn raised(task: Task, raw: Seq<F32>, tree: Shape, o: int, rows: int) -> Seq<F32> {
    let k = task.obj.outputs() as int;
    Seq::new(
        raw.len(),
        |p: int|
            if p % k == o && (p / k) < rows {
                raw[p].plus(
                    task.p.learning_rate.times(
                        tree.eval(row_of(task.binned, p / k, task.d as int)),
                    ),
                )
            } else {
                raw[p]
            },
    )
}

/// The fixed part of a training run.
pub struct Training<'a> {
    mapper: BinMapper,
    binned: Vec<u8>,
    y: &'a [F32],
    n: usize,
    d: usize,
    n_out: usize,
    sub_n: usize,
    obj: &'a Obj,
    p: &'a GbmParams,
}

impl<'a> View for Training<'a> {
    type V = Task;

    closed spec fn view(&self) -> Task {
        Task {
            edges: self.mapper@,
            binned: self.binned@,
            y: self.y@,
            n: self.n as nat,
            d: self.d as nat,
            obj: *self.obj,
            p: *self.p,
        }
    }
}

/// The part of a training run that the rounds change.
pub struct Boosting {
    raw: Vec<F32>,
    trees: Vec<Vec<Tree>>,
    grad: Vec<F32>,
    hess: Vec<F32>,
    rng: SplitMix64,
}

impl View for Boosting {
    type V = Progress;

    closed spec fn view(&self) -> Progress {
        Progress {
            raw: self.raw@,
            trees: shapes(self.trees@),
            seed: self.rng.state(),
        }
    }
}

/// The shapes of lists of trees.
pub open spec fn shapes(trees: Seq<Vec<Tree>>) -> Seq<Seq<Shape>> {
    Seq::new(trees.len(), |o: int| Seq::new(trees[o]@.len(), |r: int| trees[o]@[r]@))
}

/// Whether all trees are well formed.
pub open spec fn trees_wf(trees: Seq<Vec<Tree>>) -> bool {
    forall|o: int, r: int|
        0 <= o < trees.len() && 0 <= r < trees[o]@.len() ==> (#[trigger] trees[o]@[r]).wf()
}

impl Boosting {
    /// The trees are well formed, and the tables have the size that a task asks for.
    pub closed spec fn wf(self, task: Task) -> bool {
        &&& self@.fits(task)
        &&& trees_wf(self.trees@)
        &&& self.grad@.len() == task.n * task.obj.outputs()
        &&& self.hess@.len() == task.n * task.obj.outputs()
    }
}

impl<'a> Training<'a> {
    /// The tables belong together, and the labels are ones that the loss knows.
    pub closed spec fn wf(self) -> bool {
        &&& self@.sound()
        &&& self.mapper.wf()
        &&& self.n_out == self@.obj.outputs()
        &&& self.sub_n == self@.sample_size()
        &&& self@.obj.accepts(self@.y)
        &&& self@.n * self@.obj.outputs() <= usize::MAX
    }

    /// Bins a table of `n` rows and `d` features for training.
    pub fn new(
        x: &[F32],
        y: &'a [F32],
        n: usize,
        d: usize,
        obj: &'a Obj,
        p: &'a GbmParams,
    ) -> (r: Training<'a>)
        requires
            x@.len() == n * d,
            y@.len() == n,
            numeric(x@),
            obj.accepts(y@),
            n * obj.outputs() <= usize::MAX,
        ensures
            r.wf(),
            r@ == task_of(x@, y@, n as nat, d as nat, *obj, *p),
    {
        let n_out: usize = obj.n_out();
        let max_bins: usize = if p.max_bins < 2 {
            2
        } else if p.max_bins > 256 {
            256
        } else {
            p.max_bins
        };
        let mapper: BinMapper = BinMapper::fit(x, n, d, max_bins);
        let binned: Vec<u8> = mapper.transform(x, n);
        let wanted: usize = F32::from_usize(n).mul(p.subsample).ceil_to_usize();
        let most: usize = if n == 0 { 1 } else { n };
        let sub_n: usize = if wanted < 1 {
            1
        } else if wanted > most {
            most
        } else {
            wanted
        };
        proof {
            lemma_task_sound(x@, y@, n as nat, d as nat, *obj, *p);
        }
        Training { mapper, binned, y, n, d, n_out, sub_n, obj, p }
    }

    /// The state before the first round.
    pub fn start(&self, base: &Vec<F32>) -> (r: Boosting)
        requires
            self.wf(),
            base@.len() == self@.obj.outputs(),
        ensures
            r.wf(self@),
            r@ == self@.start(base@),
    {
        let size: usize = self.n * self.n_out;
        let zero: F32 = F32 { bits: 0 };
        let mut raw: Vec<F32> = Vec::with_capacity(size);
        let ghost all = self@.start(base@).raw;
        let k: usize = self.n_out;
        let mut i: usize = 0;
        assert(0 * k == 0) by (nonlinear_arith);
        while i < self.n
            invariant
                self.wf(),
                k == self.n_out,
                base@.len() == k,
                i <= self.n,
                all == self@.start(base@).raw,
                raw@ =~= all.take(i * k),
            decreases self.n - i,
        {
            proof {
                lemma_row_start(i as int, self.n as int, k as int);
            }
            let mut o: usize = 0;
            while o < k
                invariant
                    self.wf(),
                    k == self.n_out,
                    base@.len() == k,
                    i < self.n,
                    o <= k,
                    i * k + k <= self.n * k,
                    all == self@.start(base@).raw,
                    raw@ =~= all.take(i * k + o),
                decreases k - o,
            {
                proof {
                    lemma_cell(i as int, o as int, self.n as int, k as int);
                    lemma_position(i as int, o as int, k as int);
                }
                raw.push(base[o]);
                o = o + 1;
            }
            i = i + 1;
        }
        assert(all.take(self.n * k) =~= all);
        let mut trees: Vec<Vec<Tree>> = Vec::with_capacity(k);
        let mut o: usize = 0;
        while o < k
            invariant
                o <= k,
                trees.len() == o,
                forall|q: int| 0 <= q < o ==> (#[trigger] trees@[q])@.len() == 0,
            decreases k - o,
        {
            let none: Vec<Tree> = Vec::with_capacity(self.p.n_estimators);
            trees.push(none);
            o = o + 1;
        }
        let r = Boosting {
            raw,
            trees,
            grad: vec![zero; size],
            hess: vec![zero; size],
            rng: SplitMix64::new(self.p.seed),
        };
        proof {
            let s = self@.start(base@);
            assert(r@.trees =~= s.trees) by {
                assert forall|q: int| 0 <= q < k implies #[trigger] r@.trees[q] == s.trees[q] by {
                    assert(r.trees@[q]@.len() == 0);
                    assert(r@.trees[q] =~= Seq::<Shape>::empty());
                }
            }
            assert(trees_wf(r.trees@));
        }
        r
    }

    /// The numbers whose exponentials the next round needs.
    pub fn exp_arguments(&self, st: &Boosting) -> (r: Vec<F32>)
        requires
            self.wf(),
            st.wf(self@),
        ensures
            r@ == self@.exp_inputs(st@),
    {
        self.obj.exp_arguments(st.raw.as_slice(), self.n)
    }

    /// One round: a tree for each output, given the exponentials of
    /// [`Training::exp_arguments`].
    pub fn round(&self, st: &mut Boosting, exps: &Vec<F32>)
        requires
            self.wf(),
            old(st).wf(self@),
            exps@.len() == self@.exp_inputs(old(st)@).len(),
        ensures
            final(st).wf(self@),
            final(st)@ == self@.after_round(old(st)@, exps@),
    {
        let ghost before = st@;
        let ghost task = self@;
        self.obj.grad_hess(
            st.raw.as_slice(),
            exps.as_slice(),
            self.y,
            &mut st.grad,
            &mut st.hess,
        );
        let ghost g = st.grad@;
        let ghost h = st.hess@;
        assert(g =~= self.obj.gradients(before.raw, exps@, self.y@));
        assert(h =~= self.obj.hessians(exps@, self.y@));
        let mut o: usize = 0;
        while o < self.n_out
            invariant
                self.wf(),
                task == self@,
                st.wf(task),
                o <= self.n_out,
                st.grad@ == g,
                st.hess@ == h,
                st@ == task.after_outputs(before, g, h, o as nat),
            decreases self.n_out - o,
        {
            self.add_tree(st, o);
            o = o + 1;
        }
    }

    /// Grows the tree of output `o` and adds it.
    fn add_tree(&self, st: &mut Boosting, o: usize)
        requires
            self.wf(),
            old(st).wf(self@),
            o < self@.obj.outputs(),
        ensures
            final(st).wf(self@),
            final(st).grad@ == old(st).grad@,
            final(st).hess@ == old(st).hess@,
            final(st)@ == self@.with_tree(
                old(st)@,
                self@.next_tree(old(st)@, old(st).grad@, old(st).hess@, o as int),
                o as int,
            ),
    {
        let ghost task = self@;
        let ghost before = st@;
        let n: usize = self.n;
        let k: usize = self.n_out;
        let go: Vec<F32> = self.output_column(&st.grad, o);
        let ho: Vec<F32> = self.output_column(&st.hess, o);
        let idx: Vec<usize> = sample_indices(n, self.sub_n, &mut st.rng);
        let grow: Grow = Grow {
            binned: self.binned.as_slice(),
            grad: go.as_slice(),
            hess: ho.as_slice(),
            mapper: &self.mapper,
            d: self.d,
            p: self.p,
        };
        let ghost s = task.samples(st.grad@, st.hess@, o as int);
        proof {
            assert(grow@.bins =~= s.bins);
            assert(grow@.grad =~= s.grad);
            assert(grow@.hess =~= s.hess);
            assert(grow@ == s);
            assert forall|i: int, f: int| 0 <= i < n && 0 <= f < self.d implies (
            #[trigger] grow.binned@[i * grow.d + f]) <= grow.mapper@[f].len() by {
                assert(task.binned[i * task.d + f] <= task.edges[f].len());
            }
            assert forall|f: int| 0 <= f < grow.d implies (#[trigger] grow.mapper@[f]).len()
                <= 255 by {
                assert(task.edges[f].len() <= 255);
            }
            assert(grow.wf());
            assert(rows_below(idx@, grow.grad@.len()));
            assert forall|f: int| 0 <= f < s.d implies 1 <= #[trigger] s.bins[f] <= 256 by {
                assert(task.edges[f].len() <= 255);
            }
            law_grown_keeps_limits(s, idx@, 0);
        }
        let tree: Tree = grow.build(idx.as_slice());
        let ghost raw0 = st.raw@;
        let ghost shape = tree@;
        let rate: F32 = self.p.learning_rate;
        let mut i: usize = 0;
        while i < n
            invariant
                self.wf(),
                task == self@,
                n == self.n,
                k == self.n_out,
                o < k,
                i <= n,
                rate == self.p.learning_rate,
                tree.wf(),
                shape == tree@,
                shape.reads_below(self.d as nat),
                raw0.len() == n * k,
                st.raw@.len() == n * k,
                st.grad@ == old(st).grad@,
                st.hess@ == old(st).hess@,
                st.trees == old(st).trees,
                st.rng.state() == state_after(
                    before.seed,
                    sample_draws(task.n, task.sample_size()),
                ),
                st.raw@ =~= raised(task, raw0, shape, o as int, i as int),
            decreases n - i,
        {
            proof {
                lemma_row_start(i as int, n as int, self.d as int);
                lemma_cell(i as int, o as int, n as int, k as int);
                lemma_position(i as int, o as int, k as int);
                assert(self.binned@.len() == self.binned.len());
                assert(st.raw@.len() == st.raw.len());
            }
            let at: usize = i * k + o;
            let row: &[u8] = vstd::slice::slice_subrange(
                self.binned.as_slice(),
                i * self.d,
                i * self.d + self.d,
            );
            let ghost raw1 = st.raw@;
            let v: F32 = st.raw[at].add(rate.mul(tree.predict_binned(row)));
            st.raw[at] = v;
            proof {
                let next = raised(task, raw0, shape, o as int, i + 1);
                assert forall|p: int| 0 <= p < n * k implies #[trigger] st.raw@[p] == next[p] by {
                    lemma_row_column(p, n as int, k as int);
                    assert(raw1[p] == raised(task, raw0, shape, o as int, i as int)[p]);
                }
            }
            i = i + 1;
        }
        let ghost trees0 = st.trees@;
        st.trees[o].push(tree);
        proof {
            let after = task.with_tree(before, shape, o as int);
            assert forall|p: int| 0 <= p < n * k implies #[trigger] st.raw@[p] == after.raw[p] by {
                lemma_row_column(p, n as int, k as int);
            }
            assert(st@.raw =~= after.raw);
            assert forall|q: int| 0 <= q < k implies #[trigger] st@.trees[q] == after.trees[q] by {
                if q != o {
                    assert(st.trees@[q] == trees0[q]);
                }
                assert(st@.trees[q] =~= after.trees[q]);
            }
            assert(st@.trees =~= after.trees);
            assert forall|q: int, r: int|
                0 <= q < st.trees@.len() && 0 <= r < st.trees@[q]@.len() implies (
            #[trigger] st.trees@[q]@[r]).wf() by {
                if q != o || r < trees0[q]@.len() {
                    assert(trees0[q]@[r].wf());
                }
            }
            assert forall|q: int, r: int|
                0 <= q < st@.trees.len() && 0 <= r < st@.trees[q].len() implies (
            #[trigger] st@.trees[q][r]).reads_below(task.d) by {
                if q != o || r < trees0[q]@.len() {
                    assert(before.trees[q][r].reads_below(task.d));
                }
            }
        }
    }

    /// One output's column of a table of scores.
    fn output_column(&self, table: &Vec<F32>, o: usize) -> (r: Vec<F32>)
        requires
            self.wf(),
            table@.len() == self@.n * self@.obj.outputs(),
            o < self@.obj.outputs(),
        ensures
            r@ == Seq::new(self@.n, |i: int| table@[i * self@.obj.outputs() + o]),
    {
        let mut r: Vec<F32> = Vec::with_capacity(self.n);
        let k: usize = self.n_out;
        let mut i: usize = 0;
        while i < self.n
            invariant
                self.wf(),
                k == self.n_out,
                o < k,
                table@.len() == self.n * k,
                i <= self.n,
                r@ =~= Seq::new(self@.n, |i: int| table@[i * k + o]).take(i as int),
            decreases self.n - i,
        {
            proof {
                lemma_cell(i as int, o as int, self.n as int, k as int);
                assert(table@.len() == table.len());
            }
            r.push(table[i * k + o]);
            i = i + 1;
        }
        assert(r@ =~= Seq::new(self@.n, |i: int| table@[i * self@.obj.outputs() + o]));
        r
    }

    /// The model after the last round.
    pub fn finish(self, st: Boosting, base: Vec<F32>) -> (r: Booster)
        requires
            self.wf(),
            st.wf(self@),
            base@.len() == self@.obj.outputs(),
        ensures
            r.wf(),
            r@ == (Model {
                edges: self@.edges,
                base: base@,
                trees: st@.trees,
                rate: self@.p.learning_rate,
            }),
    {
        Booster {
            mapper: self.mapper,
            base,
            trees: st.trees,
            lr: self.p.learning_rate,
            n_out: self.n_out,
        }
    }
}

/// A boosted ensemble of trees.
pub struct Booster {
    mapper: BinMapper,
    base: Vec<F32>,
    trees: Vec<Vec<Tree>>,
    lr: F32,
    n_out: usize,
}

impl View for Booster {
    type V = Model;

    closed spec fn view(&self) -> Model {
        Model {
            edges: self.mapper@,
            base: self.base@,
            trees: shapes(self.trees@),
            rate: self.lr,
        }
    }
}

impl Booster {
    /// Every output has a starting score and well-formed trees that read features that exist.
    pub closed spec fn wf(self) -> bool {
        &&& self.mapper.wf()
        &&& self.base@.len() == self.n_out
        &&& self.trees@.len() == self.n_out
        &&& trees_wf(self.trees@)
        &&& forall|o: int, r: int|
            0 <= o < self@.trees.len() && 0 <= r < self@.trees[o].len() ==> (
            #[trigger] self@.trees[o][r]).reads_below(self.mapper@.len())
    }

    /// Trains on a table of `n` rows and `d` features. The exponential function is the caller's.
    pub fn train<E: Fn(F32) -> F32>(
        x: &[F32],
        y: &[F32],
        n: usize,
        d: usize,
        obj: &Obj,
        p: &GbmParams,
        base: Vec<F32>,
        exp: &E,
    ) -> (r: Booster)
        requires
            x@.len() == n * d,
            y@.len() == n,
            numeric(x@),
            obj.accepts(y@),
            n * obj.outputs() <= usize::MAX,
            base@.len() == obj.outputs(),
            callable(*exp),
        ensures
            r.wf(),
            task_of(x@, y@, n as nat, d as nat, *obj, *p).leads_to(*exp, base@, r@),
    {
        let training: Training = Training::new(x, y, n, d, obj, p);
        let ghost task = training@;
        let mut st: Boosting = training.start(&base);
        let ghost st0 = st@;
        let ghost mut trace: Seq<Seq<F32>> = Seq::empty();
        let mut t: usize = 0;
        while t < p.n_estimators
            invariant
                callable(*exp),
                t <= p.n_estimators,
                training.wf(),
                task == training@,
                st.wf(task),
                trace.len() == t,
                task.traced(*exp, st0, trace),
                st@ == task.after_rounds(st0, trace),
            decreases p.n_estimators - t,
        {
            let args: Vec<F32> = training.exp_arguments(&st);
            let exps: Vec<F32> = apply(exp, &args);
            training.round(&mut st, &exps);
            proof {
                let next = trace.push(exps@);
                assert(next.drop_last() =~= trace);
                trace = next;
            }
            t = t + 1;
        }
        training.finish(st, base)
    }

    /// The number of features of a row.
    pub fn n_features(&self) -> (r: usize)
        requires
            self.wf(),
        ensures
            r == self@.edges.len(),
    {
        self.mapper.n_features()
    }

    /// The scores of a row, one per output.
    pub fn raw_row(&self, row: &[F32]) -> (out: Vec<F32>)
        requires
            self.wf(),
            row@.len() >= self@.edges.len(),
        ensures
            out@ == self@.scores(row@),
    {
        let d: usize = self.mapper.n_features();
        let ghost m = self@;
        let mut binned: Vec<u8> = Vec::with_capacity(d);
        let mut f: usize = 0;
        while f < d
            invariant
                self.wf(),
                m == self@,
                d == m.edges.len(),
                row@.len() >= d,
                f <= d,
                binned@ =~= m.bins(row@).take(f as int),
            decreases d - f,
        {
            binned.push(self.mapper.bin_val(f, row[f]));
            f = f + 1;
        }
        assert(binned@ =~= m.bins(row@));
        let mut out: Vec<F32> = Vec::with_capacity(self.n_out);
        let mut o: usize = 0;
        while o < self.n_out
            invariant
                self.wf(),
                m == self@,
                binned@ == m.bins(row@),
                o <= self.n_out,
                out@ =~= m.scores(row@).take(o as int),
            decreases self.n_out - o,
        {
            let trees: &Vec<Tree> = &self.trees[o];
            let mut acc: F32 = self.base[o];
            let mut r: usize = 0;
            assert(m.trees[o as int].take(0) =~= Seq::<Shape>::empty());
            while r < trees.len()
                invariant
                    self.wf(),
                    m == self@,
                    binned@ == m.bins(row@),
                    o < self.n_out,
                    *trees == self.trees@[o as int],
                    r <= trees.len(),
                    acc == boosted(
                        m.base[o as int],
                        m.trees[o as int].take(r as int),
                        m.rate,
                        m.bins(row@),
                    ),
                decreases trees.len() - r,
            {
                proof {
                    let next = m.trees[o as int].take(r + 1);
                    assert(next.drop_last() =~= m.trees[o as int].take(r as int));
                    assert(next.last() == m.trees[o as int][r as int]);
                    assert(m.trees[o as int][r as int].reads_below(m.edges.len()));
                    assert(self.trees@[o as int]@[r as int].wf());
                }
                acc = acc.add(self.lr.mul(trees[r].predict_binned(binned.as_slice())));
                r = r + 1;
            }
            proof {
                assert(m.trees[o as int].take(trees.len() as int) =~= m.trees[o as int]);
            }
            out.push(acc);
            o = o + 1;
        }
        assert(out@ =~= m.scores(row@));
        out
    }
}

} // verus!
