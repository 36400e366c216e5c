use rust_gbm::objective::sigmoid;
use rust_gbm::rng::SplitMix64;
use rust_gbm::{
    accuracy, gbm_classify, gbm_classify_proba, gbm_regress, r2_score, GbmClassifier, GbmParams,
    GbmRegressor, F32,
};

fn num(v: f32) -> F32 {
    F32::from_bits(v.to_bits())
}

fn native(v: F32) -> f32 {
    f32::from_bits(v.to_bits())
}

fn nums(v: &[f32]) -> Vec<F32> {
    v.iter().map(|&a| num(a)).collect()
}

fn natives(v: &[F32]) -> Vec<f32> {
    v.iter().map(|&a| native(a)).collect()
}

fn exp(v: F32) -> F32 {
    num(native(v).exp())
}

fn ln(v: F32) -> F32 {
    num(native(v).ln())
}

fn table(n: usize, d: usize, seed: u64) -> Vec<F32> {
    let mut r = SplitMix64::new(seed);
    (0..n * d)
        .map(|_| num(r.next_bounded(1000) as f32 / 100.0 - 5.0))
        .collect()
}

#[test]
fn small_tables_can_be_fitted() {
    let x = nums(&[0.0, 1.0, 1.0, 0.0, 1.0, 1.0, 0.0, 0.0]);
    let m = GbmRegressor::fit(&x, &nums(&[1.0, 1.0, 2.0, 0.0]), 4, 2);
    let got = native(m.predict_row(&nums(&[1.0, 1.0])));
    assert!(got > 1.5 && got < 2.1, "{got}");
    let c = GbmClassifier::fit(&x, &nums(&[0.0, 0.0, 1.0, 0.0]), 4, 2, &exp, &ln);
    assert_eq!(c.predict_row(&nums(&[1.0, 1.0]), &exp), 1);
    assert_eq!(c.predict_row(&nums(&[0.0, 0.0]), &exp), 0);
    assert_eq!(c.n_features(), 2);
}

#[test]
fn one_round_moves_by_the_learning_rate() {
    let x = nums(&[0.0, 1.0]);
    let p = GbmParams {
        n_estimators: 1,
        learning_rate: num(0.5),
        subsample: num(1.0),
        ..GbmParams::default()
    };
    let m = GbmRegressor::fit_with(&x, &nums(&[0.0, 4.0]), 2, 1, &p);
    // The mean is 2; each leaf holds 2 / (1 + 1), of which half is added.
    assert_eq!(natives(&m.predict(&x, 2)), vec![1.5, 2.5]);
    assert_eq!(natives(&m.predict(&nums(&[0.5, 0.6, -9.0]), 3)), vec![1.5, 2.5, 1.5]);
}

#[test]
fn no_rounds_predict_the_mean() {
    let p = GbmParams {
        n_estimators: 0,
        ..GbmParams::default()
    };
    let m = GbmRegressor::fit_with(&table(5, 2, 1), &nums(&[1.0, 2.0, 3.0, 4.0, 5.0]), 5, 2, &p);
    assert_eq!(native(m.predict_row(&nums(&[100.0, -3.0]))), 3.0);
}

#[test]
fn empty_tables_predict_zero() {
    let m = GbmRegressor::fit(&[], &[], 0, 2);
    assert_eq!(native(m.predict_row(&nums(&[1.0, 2.0]))), 0.0);
    assert!(m.predict(&[], 0).is_empty());
    let c = GbmClassifier::fit(&[], &[], 0, 1, &exp, &ln);
    assert_eq!(c.n_classes(), 2);
    assert_eq!(c.predict_row(&nums(&[1.0]), &exp), 0);
}

#[test]
fn rows_without_features_get_one_prediction() {
    let y = nums(&[1.0, 3.0]);
    let p = GbmParams {
        subsample: num(1.0),
        ..GbmParams::default()
    };
    let m = GbmRegressor::fit_with(&[], &y, 2, 0, &p);
    assert_eq!(natives(&m.predict(&[], 3)), vec![2.0, 2.0, 2.0]);
}

#[test]
fn depth_zero_predicts_one_value() {
    let (n, d) = (30, 2);
    let x = table(n, d, 5);
    let y: Vec<F32> = (0..n).map(|i| x[i * d]).collect();
    let p = GbmParams {
        max_depth: 0,
        ..GbmParams::default()
    };
    let m = GbmRegressor::fit_with(&x, &y, n, d, &p);
    let got = natives(&m.predict(&x, n));
    assert!(got.iter().all(|&v| v == got[0]));
}

#[test]
fn bin_limit_is_kept_within_bounds() {
    let (n, d) = (400, 1);
    let x: Vec<F32> = (0..n).map(|i| num(i as f32)).collect();
    let y = table(n, 1, 8);
    let fit = |max_bins: usize| {
        let p = GbmParams {
            n_estimators: 5,
            max_bins,
            ..GbmParams::default()
        };
        natives(&GbmRegressor::fit_with(&x, &y, n, d, &p).predict(&x, n))
    };
    assert_eq!(fit(0), fit(2));
    assert_eq!(fit(1000), fit(256));
    assert!(fit(2) != fit(256));
    let mut values = fit(2);
    values.dedup();
    assert_eq!(values.len(), 2);
}

#[test]
fn share_of_rows_is_kept_within_bounds() {
    let x = nums(&[0.0, 1.0, 2.0]);
    let y = nums(&[1.0, 1.0, 4.0]);
    let fit = |subsample: f32| {
        let p = GbmParams {
            n_estimators: 4,
            subsample: num(subsample),
            ..GbmParams::default()
        };
        natives(&GbmRegressor::fit_with(&x, &y, 3, 1, &p).predict(&x, 3))
    };
    assert_eq!(fit(-1.0), fit(0.1));
    assert_eq!(fit(f32::NAN), fit(0.1));
    assert_eq!(fit(9.0), fit(1.0));
    // One row per tree leaves nothing to split.
    let one = fit(0.1);
    assert!(one[0] == one[1] && one[1] == one[2]);
}

#[test]
fn fitting_is_deterministic() {
    let (n, d) = (60, 3);
    let x = table(n, d, 2);
    let y: Vec<F32> = (0..n).map(|i| x[i * d].mul(x[i * d + 1])).collect();
    let a = GbmRegressor::fit(&x, &y, n, d).predict(&x, n);
    let b = GbmRegressor::fit(&x, &y, n, d).predict(&x, n);
    assert_eq!(natives(&a), natives(&b));
    let other = GbmParams {
        seed: 1,
        ..GbmParams::default()
    };
    let c = GbmRegressor::fit_with(&x, &y, n, d, &other).predict(&x, n);
    assert!(natives(&a) != natives(&c));
    let labels: Vec<F32> = (0..n).map(|i| num((i % 4) as f32)).collect();
    let p = GbmClassifier::fit(&x, &labels, n, d, &exp, &ln);
    let q = GbmClassifier::fit(&x, &labels, n, d, &exp, &ln);
    for i in 0..n {
        let row = &x[i * d..i * d + d];
        assert_eq!(
            natives(&p.predict_proba_row(row, &exp)),
            natives(&q.predict_proba_row(row, &exp))
        );
    }
}

#[test]
fn rows_in_the_same_bins_get_the_same_prediction() {
    let x = nums(&[0.0, 1.0, 2.0, 3.0]);
    let m = GbmRegressor::fit(&x, &nums(&[5.0, 1.0, 7.0, 2.0]), 4, 1);
    let at = |v: f32| native(m.predict_row(&[num(v)]));
    assert_eq!(at(0.6), at(1.5));
    assert_eq!(at(-100.0), at(0.5));
    assert_eq!(at(2.6), at(f32::INFINITY));
    assert_eq!(at(f32::NAN), at(0.0));
    assert!(at(0.5) != at(0.6));
}

#[test]
fn classes_are_detected_from_labels() {
    let x = nums(&[0.0, 1.0, 2.0]);
    let count = |y: &[f32]| GbmClassifier::fit(&x, &nums(y), 3, 1, &exp, &ln).n_classes();
    assert_eq!(count(&[0.0, 0.0, 0.0]), 2);
    assert_eq!(count(&[0.0, 1.0, 1.0]), 2);
    assert_eq!(count(&[0.0, 1.0, 2.0]), 3);
    assert_eq!(count(&[4.0, 0.0, 0.0]), 5);
    assert_eq!(count(&[-1.0, f32::NAN, 1.5]), 2);
}

#[test]
fn probabilities_follow_the_exponentials() {
    let x = nums(&[0.0, 1.0, 2.0]);
    let two = GbmClassifier::fit(&x, &nums(&[0.0, 1.0, 1.0]), 3, 1, &exp, &ln);
    assert_eq!(two.exp_arguments(&nums(&[1.0])).len(), 1);
    assert_eq!(natives(&two.probabilities(&nums(&[3.0]))), vec![0.75, 0.25]);
    let three = GbmClassifier::fit(&x, &nums(&[0.0, 1.0, 2.0]), 3, 1, &exp, &ln);
    let args = natives(&three.exp_arguments(&nums(&[2.0])));
    assert_eq!(args.len(), 3);
    assert!(args.iter().all(|&a| a <= 0.0) && args.contains(&0.0));
    assert_eq!(
        natives(&three.probabilities(&nums(&[1.0, 1.0, 2.0]))),
        vec![0.25, 0.25, 0.5]
    );
    let row = nums(&[2.0]);
    let exps: Vec<F32> = three.exp_arguments(&row).iter().map(|&v| exp(v)).collect();
    assert_eq!(
        natives(&three.predict_proba_row(&row, &exp)),
        natives(&three.probabilities(&exps))
    );
}

#[test]
fn two_probabilities_add_to_one() {
    let x = nums(&[0.0, 1.0]);
    let m = GbmClassifier::fit(&x, &nums(&[0.0, 1.0]), 2, 1, &exp, &ln);
    let mut r = SplitMix64::new(21);
    for _ in 0..20000 {
        let e = F32::from_bits((r.next_u64() % 0x7f80_0001) as u32);
        let p = m.probabilities(&[e]);
        assert_eq!(native(p[0].add(p[1])), 1.0, "{}", native(e));
        assert!(native(p[1]) >= 0.0 && native(p[1]) <= 1.0);
        assert_eq!(native(sigmoid(e)), native(p[1]));
    }
}

#[test]
fn many_probabilities_lie_between_zero_and_one() {
    let (n, d) = (50, 2);
    let x = table(n, d, 13);
    let y: Vec<F32> = (0..n).map(|i| num((i % 3) as f32)).collect();
    let m = GbmClassifier::fit(&x, &y, n, d, &exp, &ln);
    for i in 0..n {
        let row = &x[i * d..i * d + d];
        let p = natives(&m.predict_proba_row(row, &exp));
        assert_eq!(p.len(), 3);
        assert!(p.iter().all(|&v| (0.0..=1.0).contains(&v)));
        assert!((p.iter().sum::<f32>() - 1.0).abs() < 1e-5);
        let best = m.predict_row(row, &exp);
        assert!(p.iter().all(|&v| v <= p[best]));
    }
}

#[test]
fn determination_of_predictions() {
    let y = nums(&[1.0, 2.0, 3.0, 4.0]);
    assert_eq!(native(r2_score(&y, &y)), 1.0);
    assert_eq!(native(r2_score(&y, &nums(&[2.5; 4]))), 0.0);
    assert_eq!(native(r2_score(&y, &nums(&[1.0, 2.0, 3.0, 5.0]))), 0.8);
    assert_eq!(native(r2_score(&nums(&[2.0; 3]), &nums(&[2.0; 3]))), 0.0);
    assert_eq!(native(r2_score(&[], &[])), 0.0);
}

#[test]
fn fraction_of_hits() {
    let y = nums(&[0.0, 1.0, 2.9, -3.0]);
    assert_eq!(native(accuracy(&y, &[0, 1, 2, 0])), 1.0);
    assert_eq!(native(accuracy(&y, &[0, 1, 3, 1])), 0.5);
    assert_eq!(native(accuracy(&y, &[9, 9, 9, 9])), 0.0);
    assert_eq!(native(accuracy(&[], &[])), 0.0);
}

#[test]
fn batches_fit_and_predict() {
    let (n, d, q) = (40, 3, 7);
    let (x, xq) = (table(n, d, 30), table(q, d, 31));
    let y: Vec<F32> = (0..n).map(|i| x[i * d].add(x[i * d + 2])).collect();
    let want = GbmRegressor::fit(&x, &y, n, d).predict(&xq, q);
    assert_eq!(natives(&gbm_regress(&x, &y, &xq, d)), natives(&want));
    // A last row that is not complete is left out.
    assert_eq!(gbm_regress(&x, &y, &xq[..q * d - 1], d).len(), q - 1);

    let labels: Vec<F32> = (0..n)
        .map(|i| num(if native(x[i * d]) > 1.0 { 2.0 } else { (i % 2) as f32 }))
        .collect();
    let m = GbmClassifier::fit(&x, &labels, n, d, &exp, &ln);
    let classes = gbm_classify(&x, &labels, &xq, d, &exp, &ln);
    let probs = gbm_classify_proba(&x, &labels, &xq, d, &exp, &ln);
    assert_eq!(classes.len(), q);
    assert_eq!(probs.len(), q * 3);
    for i in 0..q {
        let row = &xq[i * d..i * d + d];
        assert_eq!(classes[i] as usize, m.predict_row(row, &exp));
        assert_eq!(
            natives(&probs[i * 3..i * 3 + 3]),
            natives(&m.predict_proba_row(row, &exp))
        );
    }
}

#[test]
fn batches_without_features_are_empty() {
    let y = nums(&[1.0, 0.0]);
    assert!(gbm_regress(&[], &y, &[], 0).is_empty());
    assert!(gbm_classify(&[], &y, &nums(&[1.0]), 0, &exp, &ln).is_empty());
    assert!(gbm_classify_proba(&[], &y, &[], 0, &exp, &ln).is_empty());
}
