//! The order of the features does not matter.

use crate::bins::{column, fitted_edges};
use crate::booster::{boosted, lemma_task_sound, task_of, Progress, Task};
use crate::classifier::{class_loss, may_fit, top_label, ClassModel};
use crate::float::F32;
use crate::function::applied;
use crate::grid::{lemma_cell, lemma_position, lemma_row_column, lemma_row_start, row_of};
use crate::grow::rows_below;
use crate::laws::determinism::{lemma_applied_once, lemma_traced_once, single_valued};
use crate::laws::newton::law_gain_ignores_the_number_of_the_feature;
use crate::objective::{mean, Obj};
use crate::params::GbmParams;
use crate::regressor::{quiet, regression};
use crate::rng::{law_sample_is_distinct, sample};
use crate::split::{law_best_split_is_optimal, lemma_side_members, Samples};
use crate::tree::Shape;
use vstd::prelude::*;

verus! {

/// Whether a sequence lists the numbers below `d` in some order.
pub open spec fn permutation(perm: Seq<int>, d: nat) -> bool {
    &&& perm.len() == d
    &&& forall|f: int| 0 <= f < d ==> 0 <= #[trigger] perm[f] < d
    &&& forall|f: int, g: int|
        0 <= f < d && 0 <= g < d && #[trigger] perm[f] == #[trigger] perm[g] ==> f == g
    &&& forall|g: int| 0 <= g < d ==> #[trigger] perm.contains(g)
}

/// Whether the columns of a table are those of another in the order of a permutation.
pub open spec fn columns_permuted<A>(
    x: Seq<A>,
    z: Seq<A>,
    n: nat,
    d: nat,
    perm: Seq<int>,
) -> bool {
    &&& x.len() == n * d
    &&& z.len() == n * d
    &&& forall|i: int, f: int|
        0 <= i < n && 0 <= f < d ==> #[trigger] z[i * d + f] == x[i * d + perm[f]]
}

/// Whether a tree is another with its features renamed.
pub open spec fn renamed(a: Shape, b: Shape, perm: Seq<int>) -> bool
    decreases a,
{
    match (a, b) {
        (Shape::Leaf { value: v }, Shape::Leaf { value: w }) => v == w,
        (
            Shape::Split { feature: f, threshold: s, value: v, left: l, right: r },
            Shape::Split { feature: g, threshold: t, value: w, left: m, right: q },
        ) => g < perm.len() && f == perm[g as int] && s == t && v == w && renamed(*l, *m, perm)
            && renamed(*r, *q, perm),
        _ => false,
    }
}

proof fn lemma_renamed_eval(a: Shape, b: Shape, perm: Seq<int>, row: Seq<u8>, other: Seq<u8>)
    requires
        renamed(a, b, perm),
        forall|f: int| 0 <= f < perm.len() ==> #[trigger] other[f] == row[perm[f]],
    ensures
        a.eval(row) == b.eval(other),
    decreases a,
{
    match (a, b) {
        (
            Shape::Split { left: l, right: r, .. },
            Shape::Split { feature: g, left: m, right: q, .. },
        ) => {
            assert(other[g as int] == row[perm[g as int]]);
            lemma_renamed_eval(*l, *m, perm, row, other);
            lemma_renamed_eval(*r, *q, perm, row, other);
        },
        _ => {},
    }
}

/// Whether trees are grown on the same rows with permuted features.
spec fn shuffled_features(s: Samples, t: Samples, n: nat, perm: Seq<int>) -> bool {
    &&& permutation(perm, s.d)
    &&& t == (Samples { binned: t.binned, bins: t.bins, ..s })
    &&& columns_permuted(s.binned, t.binned, n, s.d, perm)
    &&& s.bins.len() == s.d
    &&& t.bins == Seq::new(s.d, |f: int| s.bins[perm[f]])
    &&& forall|g: int| 0 <= g < s.d ==> 1 <= #[trigger] s.bins[g] <= 256
}

/// Whether no two splits on different features gain the same, at any node of the tree for some rows,
/// and all gains are numbers.
pub open spec fn untied(s: Samples, idx: Seq<usize>, depth: nat) -> bool
    decreases s.max_depth - depth,
{
    depth >= s.max_depth || idx.len() < 2 * s.min_leaf || {
        &&& forall|f: int, b: int|
            0 <= f < s.d && 0 <= b < s.bins[f] - 1 && s.eligible(idx, f, b) ==> !(
            #[trigger] s.gain(idx, f, b)).nan()
        &&& forall|f: int, b: int, g: int, c: int|
            0 <= f < s.d && 0 <= b < s.bins[f] - 1 && s.eligible(idx, f, b) && 0 <= g < s.d && 0
                <= c < s.bins[g] - 1 && s.eligible(idx, g, c) && f != g ==> (#[trigger] s.gain(
                idx,
                f,
                b,
            )).value() != (#[trigger] s.gain(idx, g, c)).value()
        &&& match s.best_split(idx) {
            None => true,
            Some((f, b)) => {
                &&& untied(s, s.side(idx, f as int, b as int, true), depth + 1)
                &&& untied(s, s.side(idx, f as int, b as int, false), depth + 1)
            },
        }
    }
}

proof fn lemma_same_candidate(
    s: Samples,
    t: Samples,
    n: nat,
    perm: Seq<int>,
    idx: Seq<usize>,
    f: int,
    b: int,
)
    requires
        shuffled_features(s, t, n, perm),
        rows_below(idx, n),
        0 <= f < s.d,
    ensures
        s.gain(idx, perm[f], b) == t.gain(idx, f, b),
        s.eligible(idx, perm[f], b) == t.eligible(idx, f, b),
        s.side(idx, perm[f], b, true) == t.side(idx, f, b, true),
        s.side(idx, perm[f], b, false) == t.side(idx, f, b, false),
        s.bins[perm[f]] == t.bins[f],
{
    assert forall|k: int| 0 <= k < idx.len() implies s.binned[(#[trigger] idx[k]) * s.d + perm[f]]
        == t.binned[idx[k] * t.d + f] by {
        assert(t.binned[idx[k] as int * s.d + f] == s.binned[idx[k] as int * s.d + perm[f]]);
    }
    law_gain_ignores_the_number_of_the_feature(s, t, idx, perm[f], f, b);
}

/// Without ties, the best split is on the same column.
proof fn lemma_same_column(s: Samples, t: Samples, n: nat, perm: Seq<int>, idx: Seq<usize>, depth: nat)
    requires
        shuffled_features(s, t, n, perm),
        rows_below(idx, n),
        untied(s, idx, depth),
        depth < s.max_depth,
        idx.len() >= 2 * s.min_leaf,
    ensures
        match (s.best_split(idx), t.best_split(idx)) {
            (None, None) => true,
            (Some((f, b)), Some((g, c))) => g < s.d && f == perm[g as int] && b == c,
            _ => false,
        },
{
    assert forall|g: int| 0 <= g < t.d implies 1 <= #[trigger] t.bins[g] <= 256 by {
        assert(0 <= perm[g] < s.d);
        assert(1 <= s.bins[perm[g]] <= 256);
    }
    assert forall|g: int, c: int|
        0 <= g < t.d && 0 <= c < t.bins[g] - 1 && t.eligible(idx, g, c) implies !(#[trigger] t.gain(
        idx,
        g,
        c,
    )).nan() by {
        lemma_same_candidate(s, t, n, perm, idx, g, c);
        assert(0 <= perm[g] < s.d);
        assert(!s.gain(idx, perm[g], c).nan());
    }
    law_best_split_is_optimal(s, idx);
    law_best_split_is_optimal(t, idx);
    if let Some((f, b)) = s.best_split(idx) {
        // The same split is open to the other order.
        let (f, b) = (f as int, b as int);
        assert(perm.contains(f));
        let h = choose|h: int| 0 <= h < perm.len() && perm[h] == f;
        lemma_same_candidate(s, t, n, perm, idx, h, b);
        assert(t.eligible(idx, h, b));
        let one = t.gain(idx, h, b);
        if let Some((g, c)) = t.best_split(idx) {
            let (g, c) = (g as int, c as int);
            lemma_same_candidate(s, t, n, perm, idx, g, c);
            assert(0 <= perm[g] < s.d);
            let two = s.gain(idx, perm[g], c);
            assert(one.at_most(t.gain(idx, g, c)));
            assert(two.at_most(s.gain(idx, f, b)));
            assert(one.value() == two.value());
            assert(perm[g] == f);
            assert(g == h);
            assert(b == c);
        }
    } else {
        if let Some((g, c)) = t.best_split(idx) {
            let (g, c) = (g as int, c as int);
            lemma_same_candidate(s, t, n, perm, idx, g, c);
            assert(0 <= perm[g] < s.d);
            assert(s.eligible(idx, perm[g], c));
            let two = s.gain(idx, perm[g], c);
        }
    }
}

/// Without ties, growing on permuted features gives the same tree with its features renamed.
proof fn lemma_grown_renamed(
    s: Samples,
    t: Samples,
    n: nat,
    perm: Seq<int>,
    idx: Seq<usize>,
    depth: nat,
)
    requires
        shuffled_features(s, t, n, perm),
        rows_below(idx, n),
        untied(s, idx, depth),
    ensures
        renamed(s.grown(idx, depth), t.grown(idx, depth), perm),
    decreases s.max_depth - depth,
{
    if depth >= s.max_depth || idx.len() < 2 * s.min_leaf {
    } else {
        lemma_same_column(s, t, n, perm, idx, depth);
        match (s.best_split(idx), t.best_split(idx)) {
            (Some((f, b)), Some((g, c))) => {
                let (g, c) = (g as int, c as int);
                lemma_same_candidate(s, t, n, perm, idx, g, c);
                lemma_side_members(s, idx, f as int, c, true, n);
                lemma_side_members(s, idx, f as int, c, false, n);
                lemma_grown_renamed(s, t, n, perm, s.side(idx, f as int, c, true), depth + 1);
                lemma_grown_renamed(s, t, n, perm, s.side(idx, f as int, c, false), depth + 1);
            },
            _ => {},
        }
    }
}

/// Whether no two splits on different features tie in the trees of a round.
pub open spec fn round_untied(task: Task, st: Progress, exps: Seq<F32>) -> bool {
    let (g, h) = (task.obj.gradients(st.raw, exps, task.y), task.obj.hessians(exps, task.y));
    forall|o: int|
        0 <= o < task.obj.outputs() ==> untied(
            #[trigger] task.samples(g, h, o),
            sample(task.n, task.sample_size(), task.after_outputs(st, g, h, o as nat).seed),
            0,
        )
}

/// Whether no two splits on different features tie in a run.
pub open spec fn run_untied(task: Task, st: Progress, trace: Seq<Seq<F32>>) -> bool
    decreases trace.len(),
{
    trace.len() == 0 || (run_untied(task, st, trace.drop_last()) && round_untied(
        task,
        task.after_rounds(st, trace.drop_last()),
        trace.last(),
    ))
}

/// Whether two runs have the same scores, and trees with renamed features.
spec fn same_progress(a: Progress, b: Progress, perm: Seq<int>) -> bool {
    &&& a.raw == b.raw
    &&& a.seed == b.seed
    &&& a.trees.len() == b.trees.len()
    &&& forall|o: int|
        0 <= o < a.trees.len() ==> same_trees(#[trigger] a.trees[o], b.trees[o], perm)
}

spec fn same_trees(a: Seq<Shape>, b: Seq<Shape>, perm: Seq<int>) -> bool {
    &&& a.len() == b.len()
    &&& forall|r: int| 0 <= r < a.len() ==> renamed(#[trigger] a[r], b[r], perm)
}

/// Whether two tasks differ in the order of the features alone.
spec fn tasks_permuted(a: Task, b: Task, perm: Seq<int>) -> bool {
    &&& b == (Task { edges: b.edges, binned: b.binned, ..a })
    &&& permutation(perm, a.d)
    &&& a.edges.len() == a.d
    &&& b.edges == Seq::new(a.d, |f: int| a.edges[perm[f]])
    &&& forall|f: int| 0 <= f < a.d ==> (#[trigger] a.edges[f]).len() <= 255
    &&& columns_permuted(a.binned, b.binned, a.n, a.d, perm)
    &&& a.y.len() == a.n
    &&& a.n <= usize::MAX
}

proof fn lemma_tree_renamed(
    a: Task,
    b: Task,
    perm: Seq<int>,
    g: Seq<F32>,
    h: Seq<F32>,
    o: int,
    seed: u64,
)
    requires
        tasks_permuted(a, b, perm),
        untied(a.samples(g, h, o), sample(a.n, a.sample_size(), seed), 0),
    ensures
        renamed(
            a.samples(g, h, o).grown(sample(a.n, a.sample_size(), seed), 0),
            b.samples(g, h, o).grown(sample(a.n, a.sample_size(), seed), 0),
            perm,
        ),
{
    let (s, t) = (a.samples(g, h, o), b.samples(g, h, o));
    assert(t.bins =~= Seq::new(s.d, |f: int| s.bins[perm[f]])) by {
        assert forall|f: int| 0 <= f < s.d implies #[trigger] t.bins[f] == s.bins[perm[f]] by {
            assert(0 <= perm[f] < s.d);
        }
    }
    assert forall|f: int| 0 <= f < s.d implies 1 <= #[trigger] s.bins[f] <= 256 by {
        assert(a.edges[f].len() <= 255);
    }
    assert(shuffled_features(s, t, a.n, perm));
    law_sample_is_distinct(a.n, a.sample_size(), seed);
    lemma_grown_renamed(s, t, a.n, perm, sample(a.n, a.sample_size(), seed), 0);
}

proof fn lemma_with_renamed(
    a: Task,
    b: Task,
    perm: Seq<int>,
    st: Progress,
    su: Progress,
    u: Shape,
    v: Shape,
    o: int,
)
    requires
        tasks_permuted(a, b, perm),
        st.raw.len() == a.n * a.obj.outputs(),
        same_progress(st, su, perm),
        renamed(u, v, perm),
        0 <= o < st.trees.len(),
        a.obj.outputs() > 0,
    ensures
        same_progress(a.with_tree(st, u, o), b.with_tree(su, v, o), perm),
{
    let k = a.obj.outputs() as int;
    let (x, z) = (a.with_tree(st, u, o), b.with_tree(su, v, o));
    assert forall|p: int| 0 <= p < x.raw.len() implies #[trigger] x.raw[p] == z.raw[p] by {
        lemma_row_column(p, a.n as int, k);
        let i = p / k;
        let (row, other) = (
            row_of(a.binned, i, a.d as int),
            row_of(b.binned, i, a.d as int),
        );
        lemma_row_start(i, a.n as int, a.d as int);
        assert forall|f: int| 0 <= f < perm.len() implies #[trigger] other[f] == row[perm[f]] by {
            assert(0 <= perm[f] < a.d);
            assert(b.binned[i * a.d + f] == a.binned[i * a.d + perm[f]]);
        }
        lemma_renamed_eval(u, v, perm, row, other);
    }
    assert(x.raw =~= z.raw);
    assert forall|q: int| 0 <= q < x.trees.len() implies same_trees(
        #[trigger] x.trees[q],
        z.trees[q],
        perm,
    ) by {
        assert(same_trees(st.trees[q], su.trees[q], perm));
        let (c, e) = (x.trees[q], z.trees[q]);
        assert forall|r: int| 0 <= r < c.len() implies renamed(#[trigger] c[r], e[r], perm) by {
            if r < st.trees[q].len() {
                assert(renamed(st.trees[q][r], su.trees[q][r], perm));
            }
        }
    }
}

proof fn lemma_outputs_renamed(
    a: Task,
    b: Task,
    perm: Seq<int>,
    st: Progress,
    su: Progress,
    g: Seq<F32>,
    h: Seq<F32>,
    count: nat,
)
    requires
        tasks_permuted(a, b, perm),
        st.raw.len() == a.n * a.obj.outputs(),
        st.trees.len() == a.obj.outputs(),
        same_progress(st, su, perm),
        count <= a.obj.outputs(),
        forall|o: int|
            0 <= o < a.obj.outputs() ==> untied(
                #[trigger] a.samples(g, h, o),
                sample(a.n, a.sample_size(), a.after_outputs(st, g, h, o as nat).seed),
                0,
            ),
    ensures
        same_progress(a.after_outputs(st, g, h, count), b.after_outputs(su, g, h, count), perm),
        a.after_outputs(st, g, h, count).raw.len() == st.raw.len(),
        a.after_outputs(st, g, h, count).trees.len() == st.trees.len(),
    decreases count,
{
    if count > 0 {
        let c = (count - 1) as nat;
        lemma_outputs_renamed(a, b, perm, st, su, g, h, c);
        let (x, z) = (a.after_outputs(st, g, h, c), b.after_outputs(su, g, h, c));
        let s = a.samples(g, h, c as int);
        assert(untied(s, sample(a.n, a.sample_size(), x.seed), 0));
        lemma_tree_renamed(a, b, perm, g, h, c as int, x.seed);
        lemma_with_renamed(
            a,
            b,
            perm,
            x,
            z,
            a.next_tree(x, g, h, c as int),
            b.next_tree(z, g, h, c as int),
            c as int,
        );
    }
}

proof fn lemma_round_renamed(
    a: Task,
    b: Task,
    perm: Seq<int>,
    st: Progress,
    su: Progress,
    exps: Seq<F32>,
)
    requires
        tasks_permuted(a, b, perm),
        st.raw.len() == a.n * a.obj.outputs(),
        st.trees.len() == a.obj.outputs(),
        same_progress(st, su, perm),
        round_untied(a, st, exps),
    ensures
        same_progress(a.after_round(st, exps), b.after_round(su, exps), perm),
        a.after_round(st, exps).raw.len() == st.raw.len(),
        a.after_round(st, exps).trees.len() == st.trees.len(),
{
    let (g, h) = (a.obj.gradients(st.raw, exps, a.y), a.obj.hessians(exps, a.y));
    assert(b.obj.gradients(su.raw, exps, b.y) == g);
    lemma_outputs_renamed(a, b, perm, st, su, g, h, a.obj.outputs());
}

proof fn lemma_rounds_renamed(
    a: Task,
    b: Task,
    perm: Seq<int>,
    st: Progress,
    su: Progress,
    trace: Seq<Seq<F32>>,
)
    requires
        tasks_permuted(a, b, perm),
        st.raw.len() == a.n * a.obj.outputs(),
        st.trees.len() == a.obj.outputs(),
        same_progress(st, su, perm),
        run_untied(a, st, trace),
    ensures
        same_progress(a.after_rounds(st, trace), b.after_rounds(su, trace), perm),
        a.after_rounds(st, trace).raw.len() == st.raw.len(),
        a.after_rounds(st, trace).trees.len() == st.trees.len(),
    decreases trace.len(),
{
    if trace.len() > 0 {
        let rest = trace.drop_last();
        lemma_rounds_renamed(a, b, perm, st, su, rest);
        let (x, z) = (a.after_rounds(st, rest), b.after_rounds(su, rest));
        assert(a.after_rounds(st, trace) == a.after_round(x, trace.last()));
        assert(b.after_rounds(su, trace) == b.after_round(z, trace.last()));
        lemma_round_renamed(a, b, perm, x, z, trace.last());
    }
}

/// The exponentials that a run asks for are those that the run on permuted features asks for.
proof fn lemma_traced_renamed<E: Fn(F32) -> F32>(
    a: Task,
    b: Task,
    perm: Seq<int>,
    exp: E,
    st: Progress,
    su: Progress,
    trace: Seq<Seq<F32>>,
)
    requires
        tasks_permuted(a, b, perm),
        st.raw.len() == a.n * a.obj.outputs(),
        st.trees.len() == a.obj.outputs(),
        same_progress(st, su, perm),
        run_untied(a, st, trace),
        a.traced(exp, st, trace),
    ensures
        b.traced(exp, su, trace),
    decreases trace.len(),
{
    if trace.len() > 0 {
        let rest = trace.drop_last();
        lemma_traced_renamed(a, b, perm, exp, st, su, rest);
        lemma_rounds_renamed(a, b, perm, st, su, rest);
    }
}

proof fn lemma_boosted_renamed(
    start: F32,
    a: Seq<Shape>,
    b: Seq<Shape>,
    rate: F32,
    perm: Seq<int>,
    row: Seq<u8>,
    other: Seq<u8>,
)
    requires
        a.len() == b.len(),
        forall|r: int| 0 <= r < a.len() ==> renamed(#[trigger] a[r], b[r], perm),
        forall|f: int| 0 <= f < perm.len() ==> #[trigger] other[f] == row[perm[f]],
    ensures
        boosted(start, a, rate, row) == boosted(start, b, rate, other),
    decreases a.len(),
{
    if a.len() > 0 {
        let (c, e) = (a.drop_last(), b.drop_last());
        assert forall|r: int| 0 <= r < c.len() implies renamed(#[trigger] c[r], e[r], perm) by {
            assert(renamed(a[r], b[r], perm));
        }
        lemma_boosted_renamed(start, c, e, rate, perm, row, other);
        assert(renamed(a[a.len() - 1], b[b.len() - 1], perm));
        lemma_renamed_eval(a.last(), b.last(), perm, row, other);
    }
}

/// The edges of a permuted table.
proof fn lemma_permuted_edges(
    x: Seq<F32>,
    z: Seq<F32>,
    n: nat,
    d: nat,
    perm: Seq<int>,
    max_bins: nat,
)
    requires
        permutation(perm, d),
        columns_permuted(x, z, n, d, perm),
    ensures
        fitted_edges(z, n, d, max_bins) == Seq::new(
            d,
            |f: int| fitted_edges(x, n, d, max_bins)[perm[f]],
        ),
{
    let (e, g) = (fitted_edges(x, n, d, max_bins), fitted_edges(z, n, d, max_bins));
    assert forall|f: int| 0 <= f < d implies #[trigger] g[f] == e[perm[f]] by {
        assert(0 <= perm[f] < d);
        assert forall|i: int| 0 <= i < n implies #[trigger] column(z, n, d, f)[i] == column(
            x,
            n,
            d,
            perm[f],
        )[i] by {
            assert(z[i * d + f] == x[i * d + perm[f]]);
        }
        assert(column(z, n, d, f) =~= column(x, n, d, perm[f]));
    }
    assert(g =~= Seq::new(d, |f: int| e[perm[f]]));
}

/// Tables with permuted columns give tasks with permuted features.
proof fn lemma_permuted_tasks(
    x: Seq<F32>,
    z: Seq<F32>,
    y: Seq<F32>,
    n: nat,
    d: nat,
    obj: Obj,
    p: GbmParams,
    perm: Seq<int>,
)
    requires
        permutation(perm, d),
        columns_permuted(x, z, n, d, perm),
        y.len() == n,
        n <= usize::MAX,
    ensures
        tasks_permuted(task_of(x, y, n, d, obj, p), task_of(z, y, n, d, obj, p), perm),
{
    let (a, b) = (task_of(x, y, n, d, obj, p), task_of(z, y, n, d, obj, p));
    lemma_permuted_edges(x, z, n, d, perm, p.bin_limit());
    lemma_task_sound(x, y, n, d, obj, p);
    assert(columns_permuted(a.binned, b.binned, n, d, perm)) by {
        assert forall|i: int, f: int| 0 <= i < n && 0 <= f < d implies #[trigger] b.binned[i * d
            + f] == a.binned[i * d + perm[f]] by {
            assert(0 <= perm[f] < d);
            lemma_cell(i, f, n as int, d as int);
            lemma_cell(i, perm[f], n as int, d as int);
            lemma_position(i, f, d as int);
            lemma_position(i, perm[f], d as int);
            assert(z[i * d + f] == x[i * d + perm[f]]);
        }
    }
}

/// Permuting the features, in training and in the query, changes no score of a model, for any loss,
/// as long as no two splits on different features gain the same.
pub proof fn law_feature_order_does_not_matter_to_scores(
    x: Seq<F32>,
    z: Seq<F32>,
    y: Seq<F32>,
    n: nat,
    d: nat,
    obj: Obj,
    p: GbmParams,
    base: Seq<F32>,
    trace: Seq<Seq<F32>>,
    perm: Seq<int>,
    row: Seq<F32>,
    other: Seq<F32>,
)
    requires
        permutation(perm, d),
        columns_permuted(x, z, n, d, perm),
        y.len() == n,
        n <= usize::MAX,
        base.len() == obj.outputs(),
        row.len() == d,
        other.len() == d,
        forall|f: int| 0 <= f < d ==> #[trigger] other[f] == row[perm[f]],
        ({
            let task = task_of(x, y, n, d, obj, p);
            run_untied(task, task.start(base), trace)
        }),
    ensures
        task_of(x, y, n, d, obj, p).model(base, trace).scores(row) == task_of(
            z,
            y,
            n,
            d,
            obj,
            p,
        ).model(base, trace).scores(other),
{
    let (a, b) = (task_of(x, y, n, d, obj, p), task_of(z, y, n, d, obj, p));
    lemma_permuted_tasks(x, z, y, n, d, obj, p, perm);
    let (st, su) = (a.start(base), b.start(base));
    assert(st.raw =~= su.raw);
    assert(st.trees =~= su.trees);
    assert(same_progress(st, su, perm));
    lemma_rounds_renamed(a, b, perm, st, su, trace);
    let (k, m) = (a.model(base, trace), b.model(base, trace));
    assert forall|f: int| 0 <= f < perm.len() implies #[trigger] m.bins(other)[f] == k.bins(
        row,
    )[perm[f]] by {
        assert(0 <= perm[f] < d);
        assert(other[f] == row[perm[f]]);
    }
    assert forall|o: int| 0 <= o < base.len() implies #[trigger] k.scores(row)[o] == m.scores(
        other,
    )[o] by {
        assert(same_trees(k.trees[o], m.trees[o], perm));
        lemma_boosted_renamed(
            base[o],
            k.trees[o],
            m.trees[o],
            p.learning_rate,
            perm,
            k.bins(row),
            m.bins(other),
        );
    }
    assert(k.scores(row) =~= m.scores(other));
}

/// Permuting the features, in training and in the query, changes no prediction of a regressor, as
/// long as no two splits on different features gain the same.
pub proof fn law_feature_order_does_not_matter(
    x: Seq<F32>,
    z: Seq<F32>,
    y: Seq<F32>,
    n: nat,
    d: nat,
    p: GbmParams,
    perm: Seq<int>,
    row: Seq<F32>,
    other: Seq<F32>,
)
    requires
        permutation(perm, d),
        columns_permuted(x, z, n, d, perm),
        y.len() == n,
        n <= usize::MAX,
        row.len() == d,
        other.len() == d,
        forall|f: int| 0 <= f < d ==> #[trigger] other[f] == row[perm[f]],
        ({
            let task = task_of(x, y, n, d, Obj::L2, p);
            run_untied(task, task.start(seq![mean(y)]), quiet(p.n_estimators as nat))
        }),
    ensures
        regression(x, y, n, d, p).scores(row) == regression(z, y, n, d, p).scores(other),
{
    law_feature_order_does_not_matter_to_scores(
        x,
        z,
        y,
        n,
        d,
        Obj::L2,
        p,
        seq![mean(y)],
        quiet(p.n_estimators as nat),
        perm,
        row,
        other,
    );
}

/// The same for classification: the numbers whose exponentials the probabilities are made of do not
/// change, so neither do the probabilities nor the predicted class.
pub proof fn law_feature_order_does_not_matter_to_classes<E: Fn(F32) -> F32, L: Fn(F32) -> F32>(
    x: Seq<F32>,
    z: Seq<F32>,
    y: Seq<F32>,
    n: nat,
    d: nat,
    p: GbmParams,
    exp: E,
    ln: L,
    a: ClassModel,
    b: ClassModel,
    perm: Seq<int>,
    row: Seq<F32>,
    other: Seq<F32>,
)
    requires
        single_valued(exp),
        single_valued(ln),
        may_fit(x, y, n, d, p, exp, ln, a),
        may_fit(z, y, n, d, p, exp, ln, b),
        top_label(y).whole() < usize::MAX,
        permutation(perm, d),
        columns_permuted(x, z, n, d, perm),
        y.len() == n,
        n <= usize::MAX,
        row.len() == d,
        other.len() == d,
        forall|f: int| 0 <= f < d ==> #[trigger] other[f] == row[perm[f]],
        ({
            let task = task_of(x, y, n, d, class_loss(y), p);
            forall|trace: Seq<Seq<F32>>|
                trace.len() == p.n_estimators && #[trigger] task.traced(
                    exp,
                    task.start(a.model.base),
                    trace,
                ) ==> run_untied(task, task.start(a.model.base), trace)
        }),
    ensures
        a.classes == b.classes,
        a.binary == b.binary,
        a.model.scores(row) == b.model.scores(other),
        a.exp_inputs(row) == b.exp_inputs(other),
        forall|exps: Seq<F32>| #[trigger] a.probabilities(exps) == b.probabilities(exps),
{
    let obj = class_loss(y);
    let (ta, tb) = (task_of(x, y, n, d, obj, p), task_of(z, y, n, d, obj, p));
    let la = choose|logs: Seq<F32>| #[trigger]
        applied(ln, obj.log_inputs(y), logs) && ta.leads_to(exp, obj.base(y, logs), a.model);
    let lb = choose|logs: Seq<F32>| #[trigger]
        applied(ln, obj.log_inputs(y), logs) && tb.leads_to(exp, obj.base(y, logs), b.model);
    lemma_applied_once(ln, obj.log_inputs(y), la, lb);
    let base = obj.base(y, la);
    assert(obj.log_inputs(y).len() == obj.outputs());
    let long = choose|trace: Seq<Seq<F32>>|
        trace.len() == p.n_estimators && #[trigger] ta.traced(exp, ta.start(base), trace)
            && a.model == ta.model(base, trace);
    let same = choose|trace: Seq<Seq<F32>>|
        trace.len() == p.n_estimators && #[trigger] tb.traced(exp, tb.start(base), trace)
            && b.model == tb.model(base, trace);
    assert(a.model.base == base);
    lemma_permuted_tasks(x, z, y, n, d, obj, p, perm);
    let (st, su) = (ta.start(base), tb.start(base));
    assert(st.raw =~= su.raw);
    assert(st.trees =~= su.trees);
    assert(same_progress(st, su, perm));
    assert(run_untied(ta, st, long));
    lemma_traced_renamed(ta, tb, perm, exp, st, su, long);
    lemma_traced_once(tb, exp, su, same, long);
    law_feature_order_does_not_matter_to_scores(
        x,
        z,
        y,
        n,
        d,
        obj,
        p,
        base,
        long,
        perm,
        row,
        other,
    );
    assert(a.exp_inputs(row) =~= b.exp_inputs(other));
    assert forall|exps: Seq<F32>| #[trigger] a.probabilities(exps) == b.probabilities(exps) by {
        assert(a.probabilities(exps) =~= b.probabilities(exps));
    }
}

} // verus!
