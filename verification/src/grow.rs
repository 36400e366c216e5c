//! Growing a tree from histograms.

use crate::bins::BinMapper;
use crate::float::laws::lemma_ratio;
use crate::float::F32;
use crate::grid::lemma_cell;
use crate::params::GbmParams;
use crate::split::{
    law_grown_keeps_limits, lemma_side_members, lemma_sides_part, total, Candidate, Samples,
};
use crate::tree::{lemma_listed_length, lemma_reads_below, Node, Shape, Tree, NO_FEATURE};
use vstd::prelude::*;

verus! {

/// Whether all rows of a set are below `n`.
pub open spec fn rows_below(idx: Seq<usize>, n: nat) -> bool {
    forall|k: int| 0 <= k < idx.len() ==> #[trigger] idx[k] < n
}

/// What a tree is grown on.
pub struct Grow<'a> {
    pub binned: &'a [u8],
    pub grad: &'a [F32],
    pub hess: &'a [F32],
    pub mapper: &'a BinMapper,
    pub d: usize,
    pub p: &'a GbmParams,
}

impl<'a> View for Grow<'a> {
    type V = Samples;

    open spec fn view(&self) -> Samples {
        Samples {
            binned: self.binned@,
            d: self.d as nat,
            bins: Seq::new(self.d as nat, |f: int| self.mapper@[f].len() + 1),
            grad: self.grad@,
            hess: self.hess@,
            lambda: self.p.lambda,
            min_leaf: self.p.min_leaf(),
            max_depth: self.p.max_depth as nat,
        }
    }
}

impl<'a> Grow<'a> {
    /// The tables belong to the same rows and features, and every bin exists.
    pub open spec fn wf(self) -> bool {
        let n = self.grad@.len();
        &&& self.mapper.wf()
        &&& self.mapper@.len() == self.d
        &&& self.hess@.len() == n
        &&& self.binned@.len() == n * self.d
        &&& forall|i: int, f: int|
            0 <= i < n && 0 <= f < self.d ==> (#[trigger] self.binned@[i * self.d + f])
                <= self.mapper@[f].len()
        &&& forall|f: int| 0 <= f < self.d ==> (#[trigger] self.mapper@[f]).len() <= 255
    }

    fn min_leaf(&self) -> (r: usize)
        ensures
            r == self@.min_leaf,
            r >= 1,
    {
        if self.p.min_samples_leaf < 1 {
            1
        } else {
            self.p.min_samples_leaf
        }
    }

    /// The sums of first and second derivatives over the given rows.
    fn totals(&self, idx: &[usize]) -> (r: (F32, F32))
        requires
            self.wf(),
            rows_below(idx@, self.grad@.len()),
        ensures
            r.0 == total(self@.grad, idx@),
            r.1 == total(self@.hess, idx@),
    {
        let mut g: F32 = F32 { bits: 0 };
        let mut h: F32 = F32 { bits: 0 };
        let mut t: usize = 0;
        while t < idx.len()
            invariant
                self.wf(),
                rows_below(idx@, self.grad@.len()),
                t <= idx.len(),
                g == total(self@.grad, idx@.take(t as int)),
                h == total(self@.hess, idx@.take(t as int)),
            decreases idx.len() - t,
        {
            let i: usize = idx[t];
            g = g.add(self.grad[i]);
            h = h.add(self.hess[i]);
            proof {
                let next = idx@.take(t + 1);
                assert(next.drop_last() =~= idx@.take(t as int));
                assert(next.last() == i);
            }
            t = t + 1;
        }
        proof {
            assert(idx@.take(idx.len() as int) =~= idx@);
        }
        (g, h)
    }

    /// The value of a leaf for the given rows.
    pub fn leaf_value(&self, idx: &[usize]) -> (r: F32)
        requires
            self.wf(),
            rows_below(idx@, self.grad@.len()),
        ensures
            r == self@.leaf_value(idx@),
    {
        let (g, h): (F32, F32) = self.totals(idx);
        g.neg().div(h.add(self.p.lambda))
    }

    fn score(&self, g: F32, h: F32) -> (r: F32)
        ensures
            r == self@.score(g, h),
    {
        g.mul(g).div(h.add(self.p.lambda))
    }

    /// The histograms of a feature over the given rows: per bin the sums of both derivatives and
    /// the number of rows.
    fn histogram(&self, idx: &[usize], f: usize) -> (r: (Vec<F32>, Vec<F32>, Vec<usize>))
        requires
            self.wf(),
            rows_below(idx@, self.grad@.len()),
            f < self.d,
        ensures
            r.0.len() == self@.bins[f as int],
            r.1.len() == self@.bins[f as int],
            r.2.len() == self@.bins[f as int],
            forall|b: int|
                0 <= b < self@.bins[f as int] ==> #[trigger] r.0@[b] == self@.bin_total(
                    self@.grad,
                    idx@,
                    f as int,
                    b,
                ),
            forall|b: int|
                0 <= b < self@.bins[f as int] ==> #[trigger] r.1@[b] == self@.bin_total(
                    self@.hess,
                    idx@,
                    f as int,
                    b,
                ),
            forall|b: int|
                0 <= b < self@.bins[f as int] ==> #[trigger] r.2@[b] == bin_count(
                    self@,
                    idx@,
                    f as int,
                    b,
                ),
    {
        let nb: usize = self.mapper.nbins(f);
        let zero: F32 = F32 { bits: 0 };
        let mut hg: Vec<F32> = vec![zero; nb];
        let mut hh: Vec<F32> = vec![zero; nb];
        let mut hc: Vec<usize> = vec![0; nb];
        let ghost s = self@;
        let mut t: usize = 0;
        while t < idx.len()
            invariant
                self.wf(),
                s == self@,
                rows_below(idx@, self.grad@.len()),
                f < self.d,
                nb == s.bins[f as int],
                t <= idx.len(),
                hg.len() == nb,
                hh.len() == nb,
                hc.len() == nb,
                forall|b: int|
                    0 <= b < nb ==> #[trigger] hg@[b] == s.bin_total(
                        s.grad,
                        idx@.take(t as int),
                        f as int,
                        b,
                    ),
                forall|b: int|
                    0 <= b < nb ==> #[trigger] hh@[b] == s.bin_total(
                        s.hess,
                        idx@.take(t as int),
                        f as int,
                        b,
                    ),
                forall|b: int|
                    0 <= b < nb ==> #[trigger] hc@[b] == bin_count(
                        s,
                        idx@.take(t as int),
                        f as int,
                        b,
                    ),
            decreases idx.len() - t,
        {
            let i: usize = idx[t];
            proof {
                lemma_cell(i as int, f as int, self.grad@.len() as int, self.d as int);
                assert(self.binned.len() == self.binned@.len());
                let next = idx@.take(t + 1);
                assert(next.drop_last() =~= idx@.take(t as int));
                assert(next.last() == i);
                lemma_bin_count_bounded(s, idx@.take(t as int), f as int);
            }
            let b: usize = self.binned[i * self.d + f] as usize;
            assert(s.bin(i, f as int) == b);
            assert(hc@[b as int] <= t);
            let g1: F32 = hg[b].add(self.grad[i]);
            let h1: F32 = hh[b].add(self.hess[i]);
            let c1: usize = hc[b] + 1;
            hg[b] = g1;
            hh[b] = h1;
            hc[b] = c1;
            t = t + 1;
        }
        proof {
            assert(idx@.take(idx.len() as int) =~= idx@);
        }
        (hg, hh, hc)
    }

    /// The best feature and bin threshold for the given rows by second-order gain.
    pub fn best_split(&self, idx: &[usize]) -> (r: Option<(usize, u8)>)
        requires
            self.wf(),
            rows_below(idx@, self.grad@.len()),
        ensures
            match r {
                Some((f, t)) => self@.best_split(idx@) == Some((f as nat, t)) && f < self.d,
                None => self@.best_split(idx@) is None,
            },
    {
        let ghost s = self@;
        let (gt, ht): (F32, F32) = self.totals(idx);
        let base: F32 = self.score(gt, ht);
        let min_leaf: usize = self.min_leaf();
        let mut best: Option<(F32, usize, u8)> = None;
        let mut f: usize = 0;
        while f < self.d
            invariant
                self.wf(),
                s == self@,
                rows_below(idx@, self.grad@.len()),
                gt == total(s.grad, idx@),
                ht == total(s.hess, idx@),
                base == s.score(gt, ht),
                min_leaf == s.min_leaf,
                f <= self.d,
                agrees(best, s.best_before(idx@, f as nat, 0)),
                best matches Some((_, bf, _)) ==> bf < self.d,
            decreases self.d - f,
        {
            let (hg, hh, hc): (Vec<F32>, Vec<F32>, Vec<usize>) = self.histogram(idx, f);
            let nb: usize = hg.len();
            let mut gl: F32 = F32 { bits: 0 };
            let mut hl: F32 = F32 { bits: 0 };
            let mut cl: usize = 0;
            let mut b: usize = 0;
            proof {
                lemma_nothing_below(s, idx@, f as int);
                assert(s.bins[f as int] == self.mapper@[f as int].len() + 1);
            }
            while b < nb - 1
                invariant
                    self.wf(),
                    s == self@,
                    rows_below(idx@, self.grad@.len()),
                    gt == total(s.grad, idx@),
                    ht == total(s.hess, idx@),
                    base == s.score(gt, ht),
                    min_leaf == s.min_leaf,
                    f < self.d,
                    nb == s.bins[f as int],
                    1 <= nb <= 256,
                    hg.len() == nb,
                    hh.len() == nb,
                    hc.len() == nb,
                    forall|b: int|
                        0 <= b < nb ==> #[trigger] hg@[b] == s.bin_total(
                            s.grad,
                            idx@,
                            f as int,
                            b,
                        ),
                    forall|b: int|
                        0 <= b < nb ==> #[trigger] hh@[b] == s.bin_total(
                            s.hess,
                            idx@,
                            f as int,
                            b,
                        ),
                    forall|b: int|
                        0 <= b < nb ==> #[trigger] hc@[b] == bin_count(s, idx@, f as int, b),
                    b <= nb - 1,
                    gl == s.left_total(s.grad, idx@, f as int, b - 1),
                    hl == s.left_total(s.hess, idx@, f as int, b - 1),
                    cl == s.side(idx@, f as int, b - 1, true).len(),
                    agrees(best, s.best_before(idx@, f as nat, b as nat)),
                    best matches Some((_, bf, _)) ==> bf < self.d,
                decreases nb - b,
            {
                proof {
                    lemma_next_bin(s, idx@, f as int, b as int);
                    lemma_sides_part(s, idx@, f as int, b as int);
                }
                assert(cl + hc@[b as int] <= idx.len());
                gl = gl.add(hg[b]);
                hl = hl.add(hh[b]);
                cl = cl + hc[b];
                if cl >= min_leaf && idx.len() - cl >= min_leaf {
                    let gr: F32 = gt.sub(gl);
                    let hr: F32 = ht.sub(hl);
                    let gain: F32 = self.score(gl, hl).add(self.score(gr, hr)).sub(base);
                    let better: bool = match best {
                        None => true,
                        Some((bg, _, _)) => bg.lt(gain),
                    };
                    if better {
                        best = Some((gain, f, b as u8));
                    }
                }
                b = b + 1;
            }
            f = f + 1;
        }
        let threshold: F32 = F32 { bits: 0x3586_37bd };
        proof {
            vstd::arithmetic::power2::lemma2_to64_rest();
            lemma_ratio(1, 1_000_000, 106, 0x86_37bd);
        }
        match best {
            Some((g, f, t)) => if threshold.lt(g) {
                Some((f, t))
            } else {
                None
            },
            None => None,
        }
    }

    /// Grows a tree on the given rows.
    pub fn build(&self, idx: &[usize]) -> (r: Tree)
        requires
            self.wf(),
            rows_below(idx@, self.grad@.len()),
        ensures
            r.wf(),
            r@ == self@.grown(idx@, 0),
            r.list() == self@.grown(idx@, 0).listed(0),
    {
        let mut nodes: Vec<Node> = Vec::new();
        self.build_node(idx, 0, &mut nodes);
        proof {
            law_grown_keeps_limits(self@, idx@, 0);
            lemma_reads_below(self@.grown(idx@, 0), self.d as nat, NO_FEATURE as nat);
            assert(nodes@ =~= self@.grown(idx@, 0).listed(0));
        }
        Tree::from_nodes(nodes, Ghost(self@.grown(idx@, 0)))
    }

    /// Appends the nodes of the tree for the given rows, and returns where they start.
    fn build_node(&self, idx: &[usize], depth: usize, nodes: &mut Vec<Node>) -> (me: usize)
        requires
            self.wf(),
            rows_below(idx@, self.grad@.len()),
        ensures
            me == old(nodes).len(),
            final(nodes)@ == old(nodes)@ + self@.grown(idx@, depth as nat).listed(me as nat),
        decreases self.p.max_depth - depth,
    {
        let ghost s = self@;
        let ghost start = nodes@;
        let me: usize = nodes.len();
        let value: F32 = self.leaf_value(idx);
        nodes.push(Node { feature: NO_FEATURE, bin_thr: 0, left: 0, right: 0, value });
        assert(nodes@ =~= start + (Shape::Leaf { value }).listed(me as nat));
        let min_leaf: usize = self.min_leaf();
        if depth >= self.p.max_depth || idx.len() / 2 < min_leaf {
            return me;
        }
        match self.best_split(idx) {
            None => me,
            Some((feat, thr)) => {
                let (left, right): (Vec<usize>, Vec<usize>) = self.part(idx, feat, thr);
                proof {
                    lemma_side_members(
                        s,
                        idx@,
                        feat as int,
                        thr as int,
                        true,
                        self.grad@.len(),
                    );
                    lemma_side_members(
                        s,
                        idx@,
                        feat as int,
                        thr as int,
                        false,
                        self.grad@.len(),
                    );
                }
                let l: usize = self.build_node(left.as_slice(), depth + 1, nodes);
                let r: usize = self.build_node(right.as_slice(), depth + 1, nodes);
                nodes[me] = Node { feature: feat, bin_thr: thr, left: l, right: r, value };
                proof {
                    lemma_listed_length(s.grown(left@, depth as nat + 1), me as nat + 1);
                    assert(nodes@ =~= start + s.grown(idx@, depth as nat).listed(me as nat));
                }
                me
            },
        }
    }

    /// Parts the given rows at a split.
    fn part(&self, idx: &[usize], f: usize, thr: u8) -> (r: (Vec<usize>, Vec<usize>))
        requires
            self.wf(),
            rows_below(idx@, self.grad@.len()),
            f < self.d,
        ensures
            r.0@ == self@.side(idx@, f as int, thr as int, true),
            r.1@ == self@.side(idx@, f as int, thr as int, false),
    {
        let mut left: Vec<usize> = Vec::new();
        let mut right: Vec<usize> = Vec::new();
        let ghost s = self@;
        let mut t: usize = 0;
        while t < idx.len()
            invariant
                self.wf(),
                s == self@,
                rows_below(idx@, self.grad@.len()),
                f < self.d,
                t <= idx.len(),
                left@ == s.side(idx@.take(t as int), f as int, thr as int, true),
                right@ == s.side(idx@.take(t as int), f as int, thr as int, false),
            decreases idx.len() - t,
        {
            let i: usize = idx[t];
            proof {
                lemma_cell(i as int, f as int, self.grad@.len() as int, self.d as int);
                assert(self.binned.len() == self.binned@.len());
                let next = idx@.take(t + 1);
                assert(next.drop_last() =~= idx@.take(t as int));
                assert(next.last() == i);
            }
            if self.binned[i * self.d + f] <= thr {
                left.push(i);
            } else {
                right.push(i);
            }
            t = t + 1;
        }
        proof {
            assert(idx@.take(idx.len() as int) =~= idx@);
        }
        (left, right)
    }
}

/// Whether the running choice is the specified one.
spec fn agrees(best: Option<(F32, usize, u8)>, c: Option<Candidate>) -> bool {
    match best {
        None => c is None,
        Some((g, f, t)) => c == Some(Candidate { gain: g, feature: f as nat, threshold: t }),
    }
}

/// The number of rows in one bin of a feature.
spec fn bin_count(s: Samples, idx: Seq<usize>, f: int, b: int) -> nat
    decreases idx.len(),
{
    if idx.len() == 0 {
        0
    } else {
        bin_count(s, idx.drop_last(), f, b) + (if s.bin(idx.last(), f) == b {
            1nat
        } else {
            0nat
        })
    }
}

proof fn lemma_bin_count_bounded(s: Samples, idx: Seq<usize>, f: int)
    ensures
        forall|b: int| #[trigger] bin_count(s, idx, f, b) <= idx.len(),
    decreases idx.len(),
{
    if idx.len() > 0 {
        lemma_bin_count_bounded(s, idx.drop_last(), f);
        assert forall|b: int| #[trigger] bin_count(s, idx, f, b) <= idx.len() by {
            assert(bin_count(s, idx.drop_last(), f, b) <= idx.len() - 1);
        }
    }
}

/// No bin is below the first.
proof fn lemma_nothing_below(s: Samples, idx: Seq<usize>, f: int)
    ensures
        s.side(idx, f, -1, true).len() == 0,
    decreases idx.len(),
{
    if idx.len() > 0 {
        lemma_nothing_below(s, idx.drop_last(), f);
    }
}

/// Moving the threshold up by one brings one bin's rows to the left.
proof fn lemma_next_bin(s: Samples, idx: Seq<usize>, f: int, b: int)
    ensures
        s.side(idx, f, b, true).len() == s.side(idx, f, b - 1, true).len() + bin_count(
            s,
            idx,
            f,
            b,
        ),
    decreases idx.len(),
{
    if idx.len() > 0 {
        lemma_next_bin(s, idx.drop_last(), f, b);
    }
}

} // verus!
