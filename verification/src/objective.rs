//! The losses that boosting minimises.

use crate::float::convert::of_integer;
use crate::float::laws::{lemma_ratio, ratio};
use crate::float::F32;
use crate::function::{applied, apply, callable};
use crate::grid::{lemma_cell, lemma_position, lemma_row_start, row_of};
use vstd::prelude::*;

verus! {

/// The pattern of zero.
pub const ZERO: u32 = 0;

/// The pattern of negative zero.
pub const NEGATIVE_ZERO: u32 = 0x8000_0000;

/// The pattern of one.
pub const ONE: u32 = 0x3f80_0000;

/// The pattern of the least finite number.
pub const LEAST: u32 = 0xff7f_ffff;

/// Numbers added in order to a first one.
pub open spec fn sum_from(start: F32, s: Seq<F32>) -> F32
    decreases s.len(),
{
    if s.len() == 0 {
        start
    } else {
        sum_from(start, s.drop_last()).plus(s.last())
    }
}

/// The sum of numbers, added up in order from negative zero, which changes no number that is added
/// to it.
pub open spec fn running_sum(s: Seq<F32>) -> F32 {
    sum_from(F32 { bits: NEGATIVE_ZERO }, s)
}

/// The largest of some numbers; non-numbers are passed over.
pub open spec fn largest(s: Seq<F32>) -> F32
    decreases s.len(),
{
    if s.len() == 0 {
        F32 { bits: LEAST }
    } else {
        largest(s.drop_last()).larger(s.last())
    }
}

/// The mean of numbers; zero if there are none.
pub open spec fn mean(y: Seq<F32>) -> F32 {
    running_sum(y).over(
        of_integer(
            if y.len() == 0 {
                1
            } else {
                y.len() as int
            },
        ),
    )
}

/// The logistic function `1 / (1 + e)`, given `e = exp(-x)`.
pub open spec fn logistic(e: F32) -> F32 {
    let one = F32 { bits: ONE };
    one.over(one.plus(e))
}

/// One more than the number of labels of a class, counted in floating point.
pub open spec fn class_weight(y: Seq<F32>, class: int) -> F32
    decreases y.len(),
{
    let one = F32 { bits: ONE };
    if y.len() == 0 {
        one
    } else {
        let rest = class_weight(y.drop_last(), class);
        if y.last().whole() == class {
            rest.plus(one)
        } else {
            rest
        }
    }
}

/// The weights of the first `k` classes.
pub open spec fn class_weights(y: Seq<F32>, k: nat) -> Seq<F32> {
    Seq::new(k, |c: int| class_weight(y, c))
}

/// The second derivative for a probability, kept away from zero.
pub open spec fn curvature(p: F32) -> F32 {
    p.times((F32 { bits: ONE }).minus(p)).larger(ratio(1, 1_000_000))
}

/// A loss: squared error, logistic loss for two classes, or softmax loss for several.
pub enum Obj {
    L2,
    Binary,
    Multiclass(usize),
}

impl Obj {
    /// The number of scores per row.
    pub open spec fn outputs(self) -> nat {
        match self {
            Obj::Multiclass(k) => k as nat,
            _ => 1,
        }
    }

    /// Whether labels are ones that the loss knows.
    pub open spec fn accepts(self, y: Seq<F32>) -> bool {
        match self {
            Obj::Multiclass(k) => forall|i: int|
                0 <= i < y.len() ==> (#[trigger] y[i]).whole() < k,
            _ => true,
        }
    }

    /// The numbers whose logarithms are the starting scores: the odds of the clamped mean label for
    /// two classes, and the smoothed share of each class for several. Squared error needs none.
    pub open spec fn log_inputs(self, y: Seq<F32>) -> Seq<F32> {
        match self {
            Obj::L2 => Seq::empty(),
            Obj::Binary => {
                let one = F32 { bits: ONE };
                let low = ratio(1, 10_000);
                let mu = mean(y).confined(low, one.minus(low));
                seq![mu.over(one.minus(mu))]
            },
            Obj::Multiclass(k) => {
                let w = class_weights(y, k as nat);
                Seq::new(k as nat, |c: int| w[c].over(running_sum(w)))
            },
        }
    }

    /// The starting scores, given the logarithms of [`Obj::log_inputs`].
    pub open spec fn base(self, y: Seq<F32>, logs: Seq<F32>) -> Seq<F32> {
        match self {
            Obj::L2 => seq![mean(y)],
            _ => logs,
        }
    }

    /// The numbers whose exponentials the derivatives are made of.
    pub open spec fn exp_inputs_of(self, raw: Seq<F32>, n: nat) -> Seq<F32> {
        match self {
            Obj::L2 => Seq::empty(),
            Obj::Binary => Seq::new(n, |i: int| raw[i].negated()),
            Obj::Multiclass(k) => Seq::new(
                n * (k as nat),
                |p: int| raw[p].minus(largest(row_of(raw, p / k as int, k as int))),
            ),
        }
    }

    /// The probability at a position of the score table, given the exponentials.
    pub open spec fn probability(self, exps: Seq<F32>, p: int) -> F32 {
        match self {
            Obj::Multiclass(k) => exps[p].over(
                sum_from(F32 { bits: ZERO }, row_of(exps, p / k as int, k as int)),
            ),
            _ => logistic(exps[p]),
        }
    }

    /// The first derivatives of the loss for each row and output.
    pub open spec fn gradients(self, raw: Seq<F32>, exps: Seq<F32>, y: Seq<F32>) -> Seq<F32> {
        Seq::new(
            y.len() * self.outputs(),
            |p: int|
                match self {
                    Obj::L2 => raw[p].minus(y[p]),
                    Obj::Binary => self.probability(exps, p).minus(y[p]),
                    Obj::Multiclass(k) => self.probability(exps, p).minus(
                        F32 {
                            bits: if p % k as int == y[p / k as int].whole() {
                                ONE
                            } else {
                                ZERO
                            },
                        },
                    ),
                },
        )
    }

    /// The second derivatives of the loss for each row and output.
    pub open spec fn hessians(self, exps: Seq<F32>, y: Seq<F32>) -> Seq<F32> {
        Seq::new(
            y.len() * self.outputs(),
            |p: int|
                match self {
                    Obj::L2 => F32 { bits: ONE },
                    _ => curvature(self.probability(exps, p)),
                },
        )
    }

    /// The number of scores per row.
    pub fn n_out(&self) -> (r: usize)
        ensures
            r == self.outputs(),
    {
        match self {
            Obj::Multiclass(k) => *k,
            _ => 1,
        }
    }

    /// The numbers whose logarithms are the starting scores.
    pub fn log_arguments(&self, y: &[F32]) -> (r: Vec<F32>)
        requires
            self.accepts(y@),
        ensures
            r@ == self.log_inputs(y@),
    {
        let one: F32 = F32 { bits: ONE };
        match self {
            Obj::L2 => {
                let r: Vec<F32> = Vec::new();
                assert(r@ =~= self.log_inputs(y@));
                r
            },
            Obj::Binary => {
                let low: F32 = F32 { bits: 0x38d1_b717 };
                proof {
                    vstd::arithmetic::power2::lemma2_to64_rest();
                    lemma_ratio(1, 10_000, 112, 0xd1_b717);
                }
                let mu: F32 = mean_of(y).clamp(low, one.sub(low));
                let mut r: Vec<F32> = Vec::new();
                r.push(mu.div(one.sub(mu)));
                assert(r@ =~= self.log_inputs(y@));
                r
            },
            Obj::Multiclass(k) => {
                let k: usize = *k;
                let mut cnt: Vec<F32> = vec![one; k];
                let mut i: usize = 0;
                while i < y.len()
                    invariant
                        i <= y.len(),
                        one.bits == ONE,
                        cnt.len() == k,
                        forall|j: int| 0 <= j < y.len() ==> (#[trigger] y@[j]).whole() < k,
                        forall|c: int|
                            0 <= c < k ==> #[trigger] cnt@[c] == class_weight(
                                y@.take(i as int),
                                c,
                            ),
                    decreases y.len() - i,
                {
                    let c: usize = y[i].to_usize();
                    proof {
                        let next = y@.take(i + 1);
                        assert(next.drop_last() =~= y@.take(i as int));
                        assert(next.last() == y@[i as int]);
                    }
                    let more: F32 = cnt[c].add(one);
                    cnt[c] = more;
                    i = i + 1;
                }
                proof {
                    assert(y@.take(y.len() as int) =~= y@);
                    assert(cnt@ =~= class_weights(y@, k as nat));
                }
                let tot: F32 = sum_of(cnt.as_slice());
                let mut r: Vec<F32> = Vec::with_capacity(k);
                let mut c: usize = 0;
                while c < k
                    invariant
                        c <= k,
                        cnt.len() == k,
                        tot == running_sum(cnt@),
                        r@ =~= Seq::new(k as nat, |c: int| cnt@[c].over(tot)).take(c as int),
                    decreases k - c,
                {
                    r.push(cnt[c].div(tot));
                    c = c + 1;
                }
                assert(r@ =~= self.log_inputs(y@));
                r
            },
        }
    }

    /// The starting scores. The logarithm is the caller's.
    pub fn init_base<L: Fn(F32) -> F32>(&self, y: &[F32], ln: &L) -> (r: Vec<F32>)
        requires
            self.accepts(y@),
            callable(*ln),
        ensures
            exists|logs: Seq<F32>|
                #![trigger applied(*ln, self.log_inputs(y@), logs)]
                applied(*ln, self.log_inputs(y@), logs) && r@ == self.base(y@, logs),
            r.len() == self.outputs(),
    {
        let args: Vec<F32> = self.log_arguments(y);
        let logs: Vec<F32> = apply(ln, &args);
        assert(applied(*ln, self.log_inputs(y@), logs@));
        self.base_scores(y, logs)
    }

    /// The starting scores, given the logarithms of [`Obj::log_arguments`].
    pub fn base_scores(&self, y: &[F32], logs: Vec<F32>) -> (r: Vec<F32>)
        ensures
            r@ == self.base(y@, logs@),
    {
        match self {
            Obj::L2 => {
                let mut r: Vec<F32> = Vec::new();
                r.push(mean_of(y));
                assert(r@ =~= self.base(y@, logs@));
                r
            },
            _ => logs,
        }
    }

    /// The numbers whose exponentials the derivatives at the given scores are made of.
    pub fn exp_arguments(&self, raw: &[F32], n: usize) -> (r: Vec<F32>)
        requires
            raw@.len() >= n * self.outputs(),
        ensures
            r@ == self.exp_inputs_of(raw@, n as nat),
    {
        let mut r: Vec<F32> = Vec::new();
        match self {
            Obj::L2 => {
                assert(r@ =~= self.exp_inputs_of(raw@, n as nat));
            },
            Obj::Binary => {
                let mut i: usize = 0;
                while i < n
                    invariant
                        i <= n,
                        raw@.len() >= n,
                        r@ =~= Seq::new(n as nat, |i: int| raw@[i].negated()).take(i as int),
                    decreases n - i,
                {
                    r.push(raw[i].neg());
                    i = i + 1;
                }
                assert(r@ =~= self.exp_inputs_of(raw@, n as nat));
            },
            Obj::Multiclass(k) => {
                let k: usize = *k;
                let ghost all = self.exp_inputs_of(raw@, n as nat);
                let mut i: usize = 0;
                assert(0 * k == 0) by (nonlinear_arith);
                while i < n
                    invariant
                        i <= n,
                        *self == Obj::Multiclass(k),
                        raw@.len() >= n * k,
                        all == self.exp_inputs_of(raw@, n as nat),
                        r@ =~= all.take(i * k),
                    decreases n - i,
                {
                    proof {
                        lemma_row_start(i as int, n as int, k as int);
                        assert(raw.len() == raw@.len());
                    }
                    let m: F32 = max_of(vstd::slice::slice_subrange(raw, i * k, i * k + k));
                    let mut c: usize = 0;
                    while c < k
                        invariant
                            i < n,
                            c <= k,
                            *self == Obj::Multiclass(k),
                            raw@.len() >= n * k,
                            i * k + k <= n * k,
                            m == largest(row_of(raw@, i as int, k as int)),
                            all == self.exp_inputs_of(raw@, n as nat),
                            r@ =~= all.take(i * k + c),
                        decreases k - c,
                    {
                        proof {
                            lemma_cell(i as int, c as int, n as int, k as int);
                            lemma_position(i as int, c as int, k as int);
                            assert(raw.len() == raw@.len());
                        }
                        r.push(raw[i * k + c].sub(m));
                        c = c + 1;
                    }
                    i = i + 1;
                }
                assert(all.take(n * k) =~= all);
            },
        }
        r
    }

    /// Fills in the derivatives of the loss, given the exponentials of [`Obj::exp_arguments`].
    /// Nothing else of the buffers changes.
    pub fn grad_hess(
        &self,
        raw: &[F32],
        exps: &[F32],
        y: &[F32],
        grad: &mut Vec<F32>,
        hess: &mut Vec<F32>,
    )
        requires
            raw@.len() >= y@.len() * self.outputs(),
            exps@.len() == self.exp_inputs_of(raw@, y@.len()).len(),
            old(grad)@.len() >= y@.len() * self.outputs(),
            old(hess)@.len() >= y@.len() * self.outputs(),
        ensures
            final(grad)@ == self.gradients(raw@, exps@, y@) + old(grad)@.skip(
                (y@.len() * self.outputs()) as int,
            ),
            final(hess)@ == self.hessians(exps@, y@) + old(hess)@.skip(
                (y@.len() * self.outputs()) as int,
            ),
    {
        let n: usize = y.len();
        let one: F32 = F32 { bits: ONE };
        let tiny: F32 = F32 { bits: 0x3586_37bd };
        let ghost m = y@.len() * self.outputs();
        let ghost g = self.gradients(raw@, exps@, y@) + grad@.skip(m as int);
        let ghost h = self.hessians(exps@, y@) + hess@.skip(m as int);
        proof {
            vstd::arithmetic::power2::lemma2_to64_rest();
            lemma_ratio(1, 1_000_000, 106, 0x86_37bd);
        }
        assert(n * 1 == n);
        assert(g.take(m as int) =~= self.gradients(raw@, exps@, y@));
        assert(h.take(m as int) =~= self.hessians(exps@, y@));
        match self {
            Obj::L2 => {
                let mut i: usize = 0;
                while i < n
                    invariant
                        i <= n,
                        n == y@.len(),
                        one.bits == ONE,
                        *self == Obj::L2,
                        m == n,
                        g.len() >= m && h.len() >= m,
                        g.take(m as int) == self.gradients(raw@, exps@, y@),
                        h.take(m as int) == self.hessians(exps@, y@),
                        raw@.len() >= n,
                        grad.len() == g.len(),
                        hess.len() == h.len(),
                        forall|j: int| 0 <= j < i ==> #[trigger] grad@[j] == g[j],
                        forall|j: int| 0 <= j < i ==> #[trigger] hess@[j] == h[j],
                        forall|j: int| m <= j < g.len() ==> #[trigger] grad@[j] == g[j],
                        forall|j: int| m <= j < h.len() ==> #[trigger] hess@[j] == h[j],
                    decreases n - i,
                {
                    assert(g.take(m as int)[i as int] == g[i as int]);
                    assert(h.take(m as int)[i as int] == h[i as int]);
                    let d: F32 = raw[i].sub(y[i]);
                    grad[i] = d;
                    hess[i] = one;
                    i = i + 1;
                }
            },
            Obj::Binary => {
                let mut i: usize = 0;
                while i < n
                    invariant
                        i <= n,
                        n == y@.len(),
                        one.bits == ONE,
                        tiny == ratio(1, 1_000_000),
                        *self == Obj::Binary,
                        m == n,
                        g.len() >= m && h.len() >= m,
                        g.take(m as int) == self.gradients(raw@, exps@, y@),
                        h.take(m as int) == self.hessians(exps@, y@),
                        exps@.len() == n,
                        grad.len() == g.len(),
                        hess.len() == h.len(),
                        forall|j: int| 0 <= j < i ==> #[trigger] grad@[j] == g[j],
                        forall|j: int| 0 <= j < i ==> #[trigger] hess@[j] == h[j],
                        forall|j: int| m <= j < g.len() ==> #[trigger] grad@[j] == g[j],
                        forall|j: int| m <= j < h.len() ==> #[trigger] hess@[j] == h[j],
                    decreases n - i,
                {
                    assert(g.take(m as int)[i as int] == g[i as int]);
                    assert(h.take(m as int)[i as int] == h[i as int]);
                    let p: F32 = sigmoid(exps[i]);
                    let d: F32 = p.sub(y[i]);
                    grad[i] = d;
                    hess[i] = p.mul(one.sub(p)).max(tiny);
                    i = i + 1;
                }
            },
            Obj::Multiclass(k) => {
                let k: usize = *k;
                let mut i: usize = 0;
                assert(0 * k == 0) by (nonlinear_arith);
                while i < n
                    invariant
                        i <= n,
                        n == y@.len(),
                        one.bits == ONE,
                        tiny == ratio(1, 1_000_000),
                        *self == Obj::Multiclass(k),
                        m == n * k,
                        g.len() >= m && h.len() >= m,
                        g.take(m as int) == self.gradients(raw@, exps@, y@),
                        h.take(m as int) == self.hessians(exps@, y@),
                        exps@.len() == n * k,
                        grad.len() == g.len(),
                        hess.len() == h.len(),
                        forall|j: int| 0 <= j < i * k ==> #[trigger] grad@[j] == g[j],
                        forall|j: int| 0 <= j < i * k ==> #[trigger] hess@[j] == h[j],
                        forall|j: int| m <= j < g.len() ==> #[trigger] grad@[j] == g[j],
                        forall|j: int| m <= j < h.len() ==> #[trigger] hess@[j] == h[j],
                    decreases n - i,
                {
                    proof {
                        lemma_row_start(i as int, n as int, k as int);
                        assert(exps.len() == exps@.len());
                    }
                    let den: F32 = add_all(
                        F32 { bits: ZERO },
                        vstd::slice::slice_subrange(exps, i * k, i * k + k),
                    );
                    let yi: usize = y[i].to_usize();
                    let mut c: usize = 0;
                    while c < k
                        invariant
                            i < n,
                            c <= k,
                            n == y@.len(),
                            one.bits == ONE,
                            tiny == ratio(1, 1_000_000),
                            *self == Obj::Multiclass(k),
                            m == n * k,
                            g.len() >= m && h.len() >= m,
                            g.take(m as int) == self.gradients(raw@, exps@, y@),
                            h.take(m as int) == self.hessians(exps@, y@),
                            exps@.len() == n * k,
                            grad.len() == g.len(),
                            hess.len() == h.len(),
                            i * k + k <= n * k,
                            den == sum_from(
                                F32 { bits: ZERO },
                                row_of(exps@, i as int, k as int),
                            ),
                            yi == y@[i as int].whole(),
                            forall|j: int| 0 <= j < i * k + c ==> #[trigger] grad@[j] == g[j],
                            forall|j: int| 0 <= j < i * k + c ==> #[trigger] hess@[j] == h[j],
                            forall|j: int| m <= j < g.len() ==> #[trigger] grad@[j] == g[j],
                            forall|j: int| m <= j < h.len() ==> #[trigger] hess@[j] == h[j],
                        decreases k - c,
                    {
                        proof {
                            lemma_cell(i as int, c as int, n as int, k as int);
                            lemma_position(i as int, c as int, k as int);
                            assert(exps.len() == exps@.len());
                            assert(g.take(m as int)[i * k + c] == g[i * k + c]);
                            assert(h.take(m as int)[i * k + c] == h[i * k + c]);
                        }
                        let at: usize = i * k + c;
                        let p: F32 = exps[at].div(den);
                        let hit: F32 = if c == yi { one } else { F32 { bits: ZERO } };
                        grad[at] = p.sub(hit);
                        hess[at] = p.mul(one.sub(p)).max(tiny);
                        c = c + 1;
                    }
                    i = i + 1;
                }
            },
        }
        assert(grad@ =~= g);
        assert(hess@ =~= h);
    }
}

/// The logistic function, given `exp(-x)`.
pub fn sigmoid(e: F32) -> (r: F32)
    ensures
        r == logistic(e),
{
    let one: F32 = F32 { bits: ONE };
    one.div(one.add(e))
}

/// Adds numbers in order to a first one.
fn add_all(start: F32, s: &[F32]) -> (r: F32)
    ensures
        r == sum_from(start, s@),
{
    let mut r: F32 = start;
    let mut i: usize = 0;
    while i < s.len()
        invariant
            i <= s.len(),
            r == sum_from(start, s@.take(i as int)),
        decreases s.len() - i,
    {
        proof {
            assert(s@.take(i + 1).drop_last() =~= s@.take(i as int));
        }
        r = r.add(s[i]);
        i = i + 1;
    }
    assert(s@.take(s.len() as int) =~= s@);
    r
}

/// The sum of numbers, added up in order.
pub fn sum_of(s: &[F32]) -> (r: F32)
    ensures
        r == running_sum(s@),
{
    add_all(F32 { bits: NEGATIVE_ZERO }, s)
}

/// The largest of some numbers.
pub fn max_of(s: &[F32]) -> (r: F32)
    ensures
        r == largest(s@),
{
    let mut r: F32 = F32 { bits: LEAST };
    let mut i: usize = 0;
    while i < s.len()
        invariant
            i <= s.len(),
            r == largest(s@.take(i as int)),
        decreases s.len() - i,
    {
        proof {
            assert(s@.take(i + 1).drop_last() =~= s@.take(i as int));
        }
        r = r.max(s[i]);
        i = i + 1;
    }
    assert(s@.take(s.len() as int) =~= s@);
    r
}

/// The mean of numbers.
pub fn mean_of(y: &[F32]) -> (r: F32)
    ensures
        r == mean(y@),
{
    let count: usize = if y.len() == 0 { 1 } else { y.len() };
    sum_of(y).div(F32::from_usize(count))
}

} // verus!
