//! Classification by logistic or softmax loss.

use crate::bins::numeric;
use crate::booster::{task_of, Booster, Model};
use crate::float::model::{lemma_magnitude_order, lemma_rank_orders, magnitude};
use crate::float::F32;
use crate::function::{applied, apply, callable};
use crate::objective::{largest, logistic, max_of, running_sum, sigmoid, sum_of, Obj, ONE, ZERO};
use crate::params::{default_params, GbmParams};
use vstd::arithmetic::power2::pow2;
use vstd::prelude::*;

verus! {

/// The largest label, at least zero; non-numbers are passed over.
pub open spec fn top_label(y: Seq<F32>) -> F32
    decreases y.len(),
{
    if y.len() == 0 {
        F32 { bits: ZERO }
    } else {
        top_label(y.drop_last()).larger(y.last())
    }
}

/// One more than the largest label.
pub open spec fn label_count(y: Seq<F32>) -> nat {
    top_label(y).whole() as nat + 1
}

/// The loss for some labels: logistic for up to two classes, softmax for more.
pub open spec fn class_loss(y: Seq<F32>) -> Obj {
    if label_count(y) <= 2 {
        Obj::Binary
    } else {
        Obj::Multiclass(label_count(y) as usize)
    }
}

/// The number of classes, at least two.
pub open spec fn class_count(y: Seq<F32>) -> nat {
    if label_count(y) < 2 {
        2
    } else {
        label_count(y)
    }
}

/// Where the largest of some numbers stands: a later one takes over only where it is larger.
pub open spec fn top_position(p: Seq<F32>) -> int
    decreases p.len(),
{
    if p.len() <= 1 {
        0
    } else {
        let best = top_position(p.drop_last());
        if p[best].below(p.last()) {
            p.len() - 1
        } else {
            best
        }
    }
}

/// A trained classifier.
pub struct ClassModel {
    pub model: Model,
    pub classes: nat,
    pub binary: bool,
}

impl ClassModel {
    /// The numbers whose exponentials the probabilities of a row are made of.
    pub open spec fn exp_inputs(self, row: Seq<F32>) -> Seq<F32> {
        let raw = self.model.scores(row);
        if self.binary {
            seq![raw[0].negated()]
        } else {
            Seq::new(raw.len(), |c: int| raw[c].minus(largest(raw)))
        }
    }

    /// The probability of each class, given those exponentials.
    pub open spec fn probabilities(self, exps: Seq<F32>) -> Seq<F32> {
        if self.binary {
            let p = logistic(exps[0]);
            seq![(F32 { bits: ONE }).minus(p), p]
        } else {
            Seq::new(exps.len(), |c: int| exps[c].over(running_sum(exps)))
        }
    }

    /// Whether these may be the probabilities of a row, with the given exponential function.
    pub open spec fn may_give<E: Fn(F32) -> F32>(
        self,
        exp: E,
        row: Seq<F32>,
        probs: Seq<F32>,
    ) -> bool {
        exists|exps: Seq<F32>| #[trigger]
            applied(exp, self.exp_inputs(row), exps) && probs == self.probabilities(exps)
    }

    /// Whether this may be the predicted class of a row, with the given exponential function.
    pub open spec fn may_predict<E: Fn(F32) -> F32>(
        self,
        exp: E,
        row: Seq<F32>,
        class: int,
    ) -> bool {
        exists|exps: Seq<F32>| #[trigger]
            applied(exp, self.exp_inputs(row), exps) && class == top_position(
                self.probabilities(exps),
            )
    }
}

/// Whether a table may lead to a classifier, with the given exponential and logarithm.
pub open spec fn may_fit<E: Fn(F32) -> F32, L: Fn(F32) -> F32>(
    x: Seq<F32>,
    y: Seq<F32>,
    n: nat,
    d: nat,
    p: GbmParams,
    exp: E,
    ln: L,
    m: ClassModel,
) -> bool {
    let obj = class_loss(y);
    &&& m.classes == class_count(y)
    &&& m.binary == (label_count(y) <= 2)
    &&& exists|logs: Seq<F32>| #[trigger]
        applied(ln, obj.log_inputs(y), logs) && task_of(x, y, n, d, obj, p).leads_to(
            exp,
            obj.base(y, logs),
            m.model,
        )
}

/// The integer part keeps order.
pub proof fn lemma_whole_monotone(a: F32, b: F32)
    requires
        a.at_most(b),
    ensures
        a.whole() <= b.whole(),
{
    vstd::arithmetic::power2::lemma_pow2_pos(149);
    lemma_rank_orders(a, b);
    lemma_magnitude_order(a.code(), b.code());
    lemma_magnitude_order(b.code(), 0);
    let one = pow2(149) as int;
    let (ma, mb) = (magnitude(a.code()), magnitude(b.code()));
    if !a.negative() && !b.negative() {
        vstd::arithmetic::div_mod::lemma_div_is_ordered(ma, mb, one);
        vstd::arithmetic::div_mod::lemma_div_pos_is_pos(ma, one);
    } else if !a.negative() {
        assert(ma == 0);
        vstd::arithmetic::div_mod::lemma_div_basics(one);
    } else if !b.negative() {
        vstd::arithmetic::div_mod::lemma_div_pos_is_pos(mb, one);
    }
}

proof fn lemma_top_label(y: Seq<F32>)
    ensures
        !top_label(y).nan(),
        forall|i: int|
            0 <= i < y.len() ==> (#[trigger] y[i]).nan() || y[i].at_most(top_label(y)),
        top_label(y) == (F32 { bits: ZERO }) || exists|i: int|
            0 <= i < y.len() && #[trigger] y[i] == top_label(y),
    decreases y.len(),
{
    if y.len() > 0 {
        let rest = y.drop_last();
        lemma_top_label(rest);
        let t = top_label(y);
        assert forall|i: int| 0 <= i < y.len() implies (#[trigger] y[i]).nan() || y[i].at_most(
            t,
        ) by {
            if i < rest.len() {
                assert(rest[i] == y[i]);
            }
        }
        if t != (F32 { bits: ZERO }) {
            if t == top_label(rest) {
                let i = choose|i: int| 0 <= i < rest.len() && #[trigger] rest[i] == t;
                assert(y[i] == t);
            } else {
                assert(y[y.len() - 1] == t);
            }
        }
    }
}

/// Every label is below the number of classes, and the number is no larger than needed: it is the
/// least of two, or some label is the last class. The logistic loss is taken exactly where all
/// labels are below two.
pub proof fn law_class_count_covers_labels(y: Seq<F32>)
    requires
        top_label(y).whole() < usize::MAX,
    ensures
        forall|i: int| 0 <= i < y.len() ==> (#[trigger] y[i]).whole() < label_count(y),
        label_count(y) <= 2 <==> forall|i: int|
            0 <= i < y.len() ==> (#[trigger] y[i]).whole() < 2,
        class_count(y) == 2 || exists|i: int|
            0 <= i < y.len() && (#[trigger] y[i]).whole() + 1 == class_count(y),
{
    lemma_top_label(y);
    assert forall|i: int| 0 <= i < y.len() implies (#[trigger] y[i]).whole() < label_count(y) by {
        if !y[i].nan() {
            lemma_whole_monotone(y[i], top_label(y));
        }
    }
    if class_count(y) != 2 {
        if top_label(y) == (F32 { bits: ZERO }) {
            vstd::arithmetic::power2::lemma_pow2_pos(149);
            vstd::arithmetic::div_mod::lemma_div_basics(pow2(149) as int);
        }
    }
}

/// The predicted position holds a largest number, and the first such.
pub proof fn law_top_position_is_largest(p: Seq<F32>)
    requires
        p.len() > 0,
        numeric(p),
    ensures
        0 <= top_position(p) < p.len(),
        forall|c: int| 0 <= c < p.len() ==> (#[trigger] p[c]).at_most(p[top_position(p)]),
        forall|c: int| 0 <= c < top_position(p) ==> (#[trigger] p[c]).below(p[top_position(p)]),
    decreases p.len(),
{
    if p.len() > 1 {
        let rest = p.drop_last();
        assert forall|i: int| 0 <= i < rest.len() implies !(#[trigger] rest[i]).nan() by {
            assert(rest[i] == p[i]);
        }
        law_top_position_is_largest(rest);
        let best = top_position(rest);
        assert forall|c: int| 0 <= c < p.len() implies (#[trigger] p[c]).at_most(
            p[top_position(p)],
        ) by {
            if c < rest.len() {
                assert(rest[c] == p[c]);
                assert(rest[c].at_most(rest[best]));
            }
        }
        assert forall|c: int| 0 <= c < top_position(p) implies (#[trigger] p[c]).below(
            p[top_position(p)],
        ) by {
            assert(rest[c] == p[c]);
            assert(rest[c].at_most(rest[best]));
        }
    }
}

/// Where the largest of some numbers stands.
pub fn argmax(p: &[F32]) -> (r: usize)
    requires
        p@.len() > 0,
    ensures
        r == top_position(p@),
        r < p@.len(),
{
    let mut best: usize = 0;
    let mut c: usize = 1;
    assert(top_position(p@.take(1)) == 0);
    while c < p.len()
        invariant
            1 <= c <= p@.len(),
            best < c,
            best == top_position(p@.take(c as int)),
        decreases p.len() - c,
    {
        proof {
            assert(p@.take(c + 1).drop_last() =~= p@.take(c as int));
        }
        if p[best].lt(p[c]) {
            best = c;
        }
        c = c + 1;
    }
    assert(p@.take(p.len() as int) =~= p@);
    best
}

/// One more than the largest label.
pub fn count_labels(y: &[F32]) -> (k: usize)
    requires
        top_label(y@).whole() < usize::MAX,
    ensures
        k == label_count(y@),
{
    let mut top: F32 = F32 { bits: ZERO };
    let mut i: usize = 0;
    while i < y.len()
        invariant
            i <= y@.len(),
            top == top_label(y@.take(i as int)),
        decreases y.len() - i,
    {
        proof {
            assert(y@.take(i + 1).drop_last() =~= y@.take(i as int));
        }
        top = top.max(y[i]);
        i = i + 1;
    }
    assert(y@.take(y.len() as int) =~= y@);
    top.to_usize() + 1
}

/// A gradient-boosting classifier: logistic loss for two classes, softmax for more, told apart by
/// the labels `0..K-1`.
pub struct GbmClassifier {
    b: Booster,
    n_classes: usize,
    binary: bool,
}

impl View for GbmClassifier {
    type V = ClassModel;

    closed spec fn view(&self) -> ClassModel {
        ClassModel { model: self.b@, classes: self.n_classes as nat, binary: self.binary }
    }
}

impl GbmClassifier {
    /// There is one output for two classes, and one per class for more.
    pub closed spec fn wf(self) -> bool {
        &&& self.b.wf()
        &&& self.n_classes >= 2
        &&& self@.model.base.len() == (if self.binary { 1 } else { self.n_classes as nat })
        &&& self.binary ==> self.n_classes == 2
    }

    /// Fits with the default parameters. The exponential and the logarithm are the caller's.
    pub fn fit<E: Fn(F32) -> F32, L: Fn(F32) -> F32>(
        x: &[F32],
        y: &[F32],
        n_rows: usize,
        n_features: usize,
        exp: &E,
        ln: &L,
    ) -> (r: Self)
        requires
            x@.len() == n_rows * n_features,
            y@.len() == n_rows,
            numeric(x@),
            top_label(y@).whole() < usize::MAX,
            n_rows * class_loss(y@).outputs() <= usize::MAX,
            callable(*exp),
            callable(*ln),
        ensures
            r.wf(),
            may_fit(
                x@,
                y@,
                n_rows as nat,
                n_features as nat,
                default_params(),
                *exp,
                *ln,
                r@,
            ),
    {
        Self::fit_with(x, y, n_rows, n_features, &GbmParams::default(), exp, ln)
    }

    /// Fits a table of `n` rows and `d` features. The exponential and the logarithm are the
    /// caller's.
    pub fn fit_with<E: Fn(F32) -> F32, L: Fn(F32) -> F32>(
        x: &[F32],
        y: &[F32],
        n: usize,
        d: usize,
        p: &GbmParams,
        exp: &E,
        ln: &L,
    ) -> (r: Self)
        requires
            x@.len() == n * d,
            y@.len() == n,
            numeric(x@),
            top_label(y@).whole() < usize::MAX,
            n * class_loss(y@).outputs() <= usize::MAX,
            callable(*exp),
            callable(*ln),
        ensures
            r.wf(),
            may_fit(x@, y@, n as nat, d as nat, *p, *exp, *ln, r@),
    {
        let k: usize = count_labels(y);
        let binary: bool = k <= 2;
        let obj: Obj = if binary { Obj::Binary } else { Obj::Multiclass(k) };
        proof {
            law_class_count_covers_labels(y@);
            assert(obj == class_loss(y@));
        }
        let base: Vec<F32> = obj.init_base(y, ln);
        let ghost logs = choose|logs: Seq<F32>| #[trigger]
            applied(*ln, obj.log_inputs(y@), logs) && base@ == obj.base(y@, logs);
        let b: Booster = Booster::train(x, y, n, d, &obj, p, base, exp);
        let n_classes: usize = if k < 2 { 2 } else { k };
        let r = GbmClassifier { b, n_classes, binary };
        proof {
            assert(applied(*ln, obj.log_inputs(y@), logs));
        }
        r
    }

    /// The numbers whose exponentials the probabilities of a row are made of.
    pub fn exp_arguments(&self, row: &[F32]) -> (r: Vec<F32>)
        requires
            self.wf(),
            row@.len() >= self@.model.edges.len(),
        ensures
            r@ == self@.exp_inputs(row@),
    {
        let raw: Vec<F32> = self.b.raw_row(row);
        let mut r: Vec<F32> = Vec::new();
        if self.binary {
            r.push(raw[0].neg());
        } else {
            let m: F32 = max_of(raw.as_slice());
            let mut c: usize = 0;
            while c < raw.len()
                invariant
                    c <= raw.len(),
                    m == largest(raw@),
                    r@ =~= Seq::new(raw@.len(), |c: int| raw@[c].minus(m)).take(c as int),
                decreases raw.len() - c,
            {
                r.push(raw[c].sub(m));
                c = c + 1;
            }
        }
        assert(r@ =~= self@.exp_inputs(row@));
        r
    }

    /// The probability of each class, given the exponentials of
    /// [`GbmClassifier::exp_arguments`].
    pub fn probabilities(&self, exps: &[F32]) -> (r: Vec<F32>)
        requires
            self.wf(),
            self@.binary ==> exps@.len() > 0,
        ensures
            r@ == self@.probabilities(exps@),
    {
        let mut r: Vec<F32> = Vec::new();
        if self.binary {
            let one: F32 = F32 { bits: ONE };
            let p: F32 = sigmoid(exps[0]);
            r.push(one.sub(p));
            r.push(p);
        } else {
            let den: F32 = sum_of(exps);
            let mut c: usize = 0;
            while c < exps.len()
                invariant
                    c <= exps.len(),
                    den == running_sum(exps@),
                    r@ =~= Seq::new(exps@.len(), |c: int| exps@[c].over(den)).take(c as int),
                decreases exps.len() - c,
            {
                r.push(exps[c].div(den));
                c = c + 1;
            }
        }
        assert(r@ =~= self@.probabilities(exps@));
        r
    }

    /// The probability of each class for one row.
    pub fn predict_proba_row<E: Fn(F32) -> F32>(&self, row: &[F32], exp: &E) -> (r: Vec<F32>)
        requires
            self.wf(),
            row@.len() >= self@.model.edges.len(),
            callable(*exp),
        ensures
            self@.may_give(*exp, row@, r@),
            r@.len() == self@.classes,
    {
        let args: Vec<F32> = self.exp_arguments(row);
        let exps: Vec<F32> = apply(exp, &args);
        assert(applied(*exp, self@.exp_inputs(row@), exps@));
        self.probabilities(exps.as_slice())
    }

    /// The most probable class of one row.
    pub fn predict_row<E: Fn(F32) -> F32>(&self, row: &[F32], exp: &E) -> (r: usize)
        requires
            self.wf(),
            row@.len() >= self@.model.edges.len(),
            callable(*exp),
        ensures
            self@.may_predict(*exp, row@, r as int),
            r < self@.classes,
    {
        let p: Vec<F32> = self.predict_proba_row(row, exp);
        proof {
            let exps = choose|exps: Seq<F32>| #[trigger]
                applied(*exp, self@.exp_inputs(row@), exps) && p@ == self@.probabilities(exps);
            assert(applied(*exp, self@.exp_inputs(row@), exps));
        }
        argmax(p.as_slice())
    }

    /// The number of classes.
    pub fn n_classes(&self) -> (r: usize)
        ensures
            r == self@.classes,
    {
        self.n_classes
    }

    /// The number of features of a row.
    pub fn n_features(&self) -> (r: usize)
        requires
            self.wf(),
        ensures
            r == self@.model.edges.len(),
    {
        self.b.n_features()
    }
}

} // verus!
