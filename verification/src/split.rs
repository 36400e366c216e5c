//! What a tree is grown on, which splits it has, and what it looks like.

use crate::float::laws::ratio;
use crate::float::F32;
use crate::tree::{
    law_list_goes_forward, law_list_length_is_odd, lemma_listed_length, Shape, NO_FEATURE,
};
use vstd::prelude::*;

verus! {

/// The sum of the values at the given places, added up in their order.
pub open spec fn total(vals: Seq<F32>, idx: Seq<usize>) -> F32
    decreases idx.len(),
{
    if idx.len() == 0 {
        F32 { bits: 0 }
    } else {
        total(vals, idx.drop_last()).plus(vals[idx.last() as int])
    }
}

/// A split under consideration.
pub struct Candidate {
    pub gain: F32,
    pub feature: nat,
    pub threshold: u8,
}

/// What a tree is grown on: the bins of all rows, the first and second derivatives of the loss for
/// each row, and the limits on the tree.
pub struct Samples {
    pub binned: Seq<u8>,
    pub d: nat,
    /// The number of bins of each feature.
    pub bins: Seq<nat>,
    pub grad: Seq<F32>,
    pub hess: Seq<F32>,
    pub lambda: F32,
    pub min_leaf: nat,
    pub max_depth: nat,
}

impl Samples {
    /// The bin of a feature of a row.
    pub open spec fn bin(self, i: usize, f: int) -> u8 {
        self.binned[i * self.d + f]
    }

    /// The value of a leaf for the given rows: `-sum(g) / (sum(h) + lambda)`.
    pub open spec fn leaf_value(self, idx: Seq<usize>) -> F32 {
        total(self.grad, idx).negated().over(total(self.hess, idx).plus(self.lambda))
    }

    /// The sum of the values of those rows that fall into one bin of a feature.
    pub open spec fn bin_total(self, vals: Seq<F32>, idx: Seq<usize>, f: int, b: int) -> F32
        decreases idx.len(),
    {
        if idx.len() == 0 {
            F32 { bits: 0 }
        } else {
            let rest = self.bin_total(vals, idx.drop_last(), f, b);
            if self.bin(idx.last(), f) == b {
                rest.plus(vals[idx.last() as int])
            } else {
                rest
            }
        }
    }

    /// The sum of the bins of a feature up to and with `b`.
    pub open spec fn left_total(self, vals: Seq<F32>, idx: Seq<usize>, f: int, b: int) -> F32
        decreases b + 1,
    {
        if b < 0 {
            F32 { bits: 0 }
        } else {
            self.left_total(vals, idx, f, b - 1).plus(self.bin_total(vals, idx, f, b))
        }
    }

    /// The rows that a split sends to one side, in their order.
    pub open spec fn side(self, idx: Seq<usize>, f: int, b: int, left: bool) -> Seq<usize>
        decreases idx.len(),
    {
        if idx.len() == 0 {
            Seq::empty()
        } else {
            let rest = self.side(idx.drop_last(), f, b, left);
            if (self.bin(idx.last(), f) <= b) == left {
                rest.push(idx.last())
            } else {
                rest
            }
        }
    }

    /// Whether a split leaves enough rows on both sides.
    pub open spec fn eligible(self, idx: Seq<usize>, f: int, b: int) -> bool {
        &&& self.side(idx, f, b, true).len() >= self.min_leaf
        &&& self.side(idx, f, b, false).len() >= self.min_leaf
    }

    /// The second-order score of a set of rows: `sum(g)^2 / (sum(h) + lambda)`.
    pub open spec fn score(self, g: F32, h: F32) -> F32 {
        g.times(g).over(h.plus(self.lambda))
    }

    /// How much a split gains: the scores of its sides less the score of all rows.
    pub open spec fn gain(self, idx: Seq<usize>, f: int, b: int) -> F32 {
        let g = total(self.grad, idx);
        let h = total(self.hess, idx);
        let gl = self.left_total(self.grad, idx, f, b);
        let hl = self.left_total(self.hess, idx, f, b);
        self.score(gl, hl).plus(self.score(g.minus(gl), h.minus(hl))).minus(self.score(g, h))
    }

    /// The best eligible split among those of the features before `f` and those of feature `f` with
    /// a threshold below `b`: a later one replaces an earlier one only where its gain is larger.
    pub open spec fn best_before(self, idx: Seq<usize>, f: nat, b: nat) -> Option<Candidate>
        decreases f, b,
    {
        if b > 0 {
            let t = (b - 1) as nat;
            let best = self.best_before(idx, f, t);
            if self.eligible(idx, f as int, t as int) && (best is None || best->0.gain.below(
                self.gain(idx, f as int, t as int),
            )) {
                Some(
                    Candidate {
                        gain: self.gain(idx, f as int, t as int),
                        feature: f,
                        threshold: t as u8,
                    },
                )
            } else {
                best
            }
        } else if f > 0 {
            self.best_before(idx, (f - 1) as nat, (self.bins[f - 1] - 1) as nat)
        } else {
            None
        }
    }

    /// The split of a set of rows, if one gains more than 1e-6.
    pub open spec fn best_split(self, idx: Seq<usize>) -> Option<(nat, u8)> {
        match self.best_before(idx, self.d, 0) {
            Some(c) => if ratio(1, 1_000_000).below(c.gain) {
                Some((c.feature, c.threshold))
            } else {
                None
            },
            None => None,
        }
    }

    /// The tree for a set of rows, at a given depth below the root.
    pub open spec fn grown(self, idx: Seq<usize>, depth: nat) -> Shape
        decreases self.max_depth - depth,
    {
        let leaf = Shape::Leaf { value: self.leaf_value(idx) };
        if depth >= self.max_depth || idx.len() < 2 * self.min_leaf {
            leaf
        } else {
            match self.best_split(idx) {
                None => leaf,
                Some((f, t)) => {
                    let l = self.side(idx, f as int, t as int, true);
                    let r = self.side(idx, f as int, t as int, false);
                    Shape::Split {
                        feature: f,
                        threshold: t,
                        value: self.leaf_value(idx),
                        left: Box::new(self.grown(l, depth + 1)),
                        right: Box::new(self.grown(r, depth + 1)),
                    }
                },
            }
        }
    }

    /// Whether every leaf of a tree holds at least `min_leaf` of the given rows.
    pub open spec fn leaves_hold_enough(self, shape: Shape, idx: Seq<usize>) -> bool
        decreases shape,
    {
        match shape {
            Shape::Leaf { .. } => idx.len() >= self.min_leaf,
            Shape::Split { feature, threshold, left, right, .. } => {
                &&& self.leaves_hold_enough(
                    *left,
                    self.side(idx, feature as int, threshold as int, true),
                )
                &&& self.leaves_hold_enough(
                    *right,
                    self.side(idx, feature as int, threshold as int, false),
                )
            },
        }
    }
}

/// A split parts the rows: each goes to one side.
pub proof fn lemma_sides_part(s: Samples, idx: Seq<usize>, f: int, b: int)
    ensures
        s.side(idx, f, b, true).len() + s.side(idx, f, b, false).len() == idx.len(),
    decreases idx.len(),
{
    if idx.len() > 0 {
        lemma_sides_part(s, idx.drop_last(), f, b);
    }
}

/// The rows on a side are rows of the set, and lie on that side of the threshold.
pub proof fn lemma_side_members(s: Samples, idx: Seq<usize>, f: int, b: int, left: bool, n: nat)
    requires
        forall|k: int| 0 <= k < idx.len() ==> #[trigger] idx[k] < n,
    ensures
        forall|k: int|
            0 <= k < s.side(idx, f, b, left).len() ==> {
                let i = #[trigger] s.side(idx, f, b, left)[k];
                i < n && (s.bin(i, f) <= b) == left
            },
    decreases idx.len(),
{
    if idx.len() > 0 {
        let rest = idx.drop_last();
        assert forall|k: int| 0 <= k < rest.len() implies #[trigger] rest[k] < n by {
            assert(rest[k] == idx[k]);
        }
        lemma_side_members(s, rest, f, b, left, n);
        assert(idx.last() == idx[idx.len() - 1]);
        let before = s.side(rest, f, b, left);
        let all = s.side(idx, f, b, left);
        assert forall|k: int| 0 <= k < all.len() implies {
            let i = #[trigger] all[k];
            i < n && (s.bin(i, f) <= b) == left
        } by {
            if k < before.len() {
                assert(all[k] == before[k]);
            }
        }
    }
}

/// The best split is eligible, is one of those considered, and is scored with its own gain.
pub proof fn lemma_best_is_candidate(s: Samples, idx: Seq<usize>, f: nat, b: nat)
    requires
        f <= s.d,
        s.bins.len() == s.d,
        forall|g: int| 0 <= g < s.d ==> 1 <= #[trigger] s.bins[g] <= 256,
        f < s.d ==> b <= s.bins[f as int] - 1,
        f == s.d ==> b == 0,
    ensures
        match s.best_before(idx, f, b) {
            Some(c) => {
                &&& c.feature < s.d
                &&& c.threshold + 1 < s.bins[c.feature as int]
                &&& s.eligible(idx, c.feature as int, c.threshold as int)
                &&& c.gain == s.gain(idx, c.feature as int, c.threshold as int)
            },
            None => true,
        },
    decreases f, b,
{
    if b > 0 {
        lemma_best_is_candidate(s, idx, f, (b - 1) as nat);
    } else if f > 0 {
        assert(1 <= s.bins[f - 1] <= 256);
        lemma_best_is_candidate(s, idx, (f - 1) as nat, (s.bins[f - 1] - 1) as nat);
    }
}

/// Whether a split comes before another in the order in which they are considered.
pub open spec fn precedes(f1: int, b1: int, f2: int, b2: int) -> bool {
    f1 < f2 || (f1 == f2 && b1 < b2)
}

proof fn lemma_best_beats(s: Samples, idx: Seq<usize>, f: nat, b: nat, g: nat, t: nat)
    requires
        f <= s.d,
        s.bins.len() == s.d,
        forall|g: int| 0 <= g < s.d ==> 1 <= #[trigger] s.bins[g] <= 256,
        f < s.d ==> b <= s.bins[f as int] - 1,
        f == s.d ==> b == 0,
        forall|g: int, t: int|
            0 <= g < s.d && 0 <= t < s.bins[g] - 1 && s.eligible(idx, g, t) ==> !(
            #[trigger] s.gain(idx, g, t)).nan(),
        g < s.d,
        t + 1 < s.bins[g as int],
        precedes(g as int, t as int, f as int, b as int),
        s.eligible(idx, g as int, t as int),
    ensures
        s.best_before(idx, f, b) matches Some(c) && {
            &&& s.gain(idx, g as int, t as int).at_most(c.gain)
            &&& s.gain(idx, g as int, t as int).below(c.gain) || !precedes(
                g as int,
                t as int,
                c.feature as int,
                c.threshold as int,
            )
        },
    decreases f, b,
{
    lemma_best_is_candidate(s, idx, f, b);
    if b > 0 {
        let p = (b - 1) as nat;
        lemma_best_is_candidate(s, idx, f, p);
        if g == f && t == p {
            if s.best_before(idx, f, p) is Some {
                lemma_best_order(s, idx, f, p);
            }
        } else {
            lemma_best_beats(s, idx, f, p, g, t);
        }
    } else if f > 0 {
        assert(1 <= s.bins[f - 1] <= 256);
        lemma_best_beats(s, idx, (f - 1) as nat, (s.bins[f - 1] - 1) as nat, g, t);
    }
}

proof fn lemma_best_order(s: Samples, idx: Seq<usize>, f: nat, b: nat)
    requires
        f <= s.d,
        s.bins.len() == s.d,
        forall|g: int| 0 <= g < s.d ==> 1 <= #[trigger] s.bins[g] <= 256,
        f < s.d ==> b <= s.bins[f as int] - 1,
        f == s.d ==> b == 0,
    ensures
        s.best_before(idx, f, b) matches Some(c) ==> precedes(
            c.feature as int,
            c.threshold as int,
            f as int,
            b as int,
        ),
    decreases f, b,
{
    if b > 0 {
        lemma_best_order(s, idx, f, (b - 1) as nat);
    } else if f > 0 {
        assert(1 <= s.bins[f - 1] <= 256);
        lemma_best_order(s, idx, (f - 1) as nat, (s.bins[f - 1] - 1) as nat);
    }
}

/// The chosen split leaves enough rows on both sides, gains more than 1e-6, and no eligible split
/// gains more; among equals it is the first. The gains of eligible splits have to be numbers.
pub proof fn law_best_split_is_optimal(s: Samples, idx: Seq<usize>)
    requires
        s.bins.len() == s.d,
        forall|g: int| 0 <= g < s.d ==> 1 <= #[trigger] s.bins[g] <= 256,
        forall|g: int, t: int|
            0 <= g < s.d && 0 <= t < s.bins[g] - 1 && s.eligible(idx, g, t) ==> !(
            #[trigger] s.gain(idx, g, t)).nan(),
    ensures
        match s.best_split(idx) {
            Some((f, b)) => {
                let best = s.gain(idx, f as int, b as int);
                &&& f < s.d
                &&& b + 1 < s.bins[f as int]
                &&& s.eligible(idx, f as int, b as int)
                &&& ratio(1, 1_000_000).below(best)
                &&& forall|g: int, t: int|
                    0 <= g < s.d && 0 <= t < s.bins[g] - 1 && s.eligible(idx, g, t) ==> {
                        let other = #[trigger] s.gain(idx, g, t);
                        other.below(best) || (other.at_most(best) && !precedes(
                            g,
                            t,
                            f as int,
                            b as int,
                        ))
                    }
            },
            None => forall|g: int, t: int|
                0 <= g < s.d && 0 <= t < s.bins[g] - 1 && s.eligible(idx, g, t) ==> !ratio(
                    1,
                    1_000_000,
                ).below(#[trigger] s.gain(idx, g, t)),
        },
{
    lemma_best_is_candidate(s, idx, s.d, 0);
    assert forall|g: int, t: int|
        0 <= g < s.d && 0 <= t < s.bins[g] - 1 && s.eligible(idx, g, t) implies {
        let other = #[trigger] s.gain(idx, g, t);
        s.best_before(idx, s.d, 0) matches Some(c) && {
            &&& other.at_most(c.gain)
            &&& other.below(c.gain) || !precedes(g, t, c.feature as int, c.threshold as int)
        }
    } by {
        lemma_best_beats(s, idx, s.d, 0, g as nat, t as nat);
    }
}

/// A chosen split keeps `min_leaf` rows on each side, whatever the gains are.
pub proof fn law_split_keeps_min_leaf(s: Samples, idx: Seq<usize>)
    requires
        s.bins.len() == s.d,
        forall|g: int| 0 <= g < s.d ==> 1 <= #[trigger] s.bins[g] <= 256,
    ensures
        s.best_split(idx) matches Some((f, b)) ==> {
            &&& f < s.d
            &&& b + 1 < s.bins[f as int]
            &&& s.side(idx, f as int, b as int, true).len() >= s.min_leaf
            &&& s.side(idx, f as int, b as int, false).len() >= s.min_leaf
        },
{
    lemma_best_is_candidate(s, idx, s.d, 0);
}

/// A grown tree reads features that exist, leaves bins on both sides of each split, is no deeper
/// than allowed, and each of its leaves holds at least `min_leaf` of the rows.
pub proof fn law_grown_keeps_limits(s: Samples, idx: Seq<usize>, depth: nat)
    requires
        s.bins.len() == s.d,
        forall|g: int| 0 <= g < s.d ==> 1 <= #[trigger] s.bins[g] <= 256,
    ensures
        s.grown(idx, depth).reads_below(s.d),
        s.grown(idx, depth).cuts_within(s.bins),
        depth <= s.max_depth ==> s.grown(idx, depth).depth() <= s.max_depth - depth,
        idx.len() >= s.min_leaf ==> s.leaves_hold_enough(s.grown(idx, depth), idx),
    decreases s.max_depth - depth,
{
    if depth >= s.max_depth || idx.len() < 2 * s.min_leaf {
    } else {
        law_split_keeps_min_leaf(s, idx);
        match s.best_split(idx) {
            None => {},
            Some((f, t)) => {
                law_grown_keeps_limits(s, s.side(idx, f as int, t as int, true), depth + 1);
                law_grown_keeps_limits(s, s.side(idx, f as int, t as int, false), depth + 1);
            },
        }
    }
}

/// The list of nodes of a grown tree: its length is odd, and one for a leaf. The first node has the
/// value of a leaf for all rows, and the best split of the rows unless it is a leaf. The left side
/// of a split is the next node, the right side comes later, and the split leaves bins of its feature
/// on both sides.
pub proof fn law_grown_list_is_laid_out(s: Samples, idx: Seq<usize>, depth: nat, at: nat, j: int)
    requires
        s.bins.len() == s.d,
        forall|g: int| 0 <= g < s.d ==> 1 <= #[trigger] s.bins[g] <= 256,
        s.d <= NO_FEATURE,
        at + s.grown(idx, depth).size() <= usize::MAX,
        0 <= j < s.grown(idx, depth).size(),
    ensures
        ({
            let list = s.grown(idx, depth).listed(at);
            let root = list[0];
            let nd = list[j];
            &&& list.len() == s.grown(idx, depth).size()
            &&& list.len() % 2 == 1
            &&& root.value == s.leaf_value(idx)
            &&& root.feature == NO_FEATURE <==> depth >= s.max_depth || idx.len() < 2 * s.min_leaf
                || s.best_split(idx) is None
            &&& root.feature == NO_FEATURE ==> list.len() == 1
            &&& root.feature != NO_FEATURE ==> s.best_split(idx) == Some(
                (root.feature as nat, root.bin_thr),
            )
            &&& nd.feature != NO_FEATURE ==> {
                &&& nd.left == at + j + 1
                &&& nd.left < nd.right < at + list.len()
                &&& nd.feature < s.d
                &&& nd.bin_thr + 1 < s.bins[nd.feature as int]
            }
        }),
{
    let shape = s.grown(idx, depth);
    law_grown_keeps_limits(s, idx, depth);
    law_split_keeps_min_leaf(s, idx);
    lemma_listed_length(shape, at);
    law_list_length_is_odd(shape, at);
    law_list_goes_forward(shape, at, s.d, s.bins, j);
}

} // verus!
