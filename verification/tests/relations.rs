use rust_gbm::bins::BinMapper;
use rust_gbm::booster::Training;
use rust_gbm::objective::{mean_of, Obj};
use rust_gbm::rng::SplitMix64;
use rust_gbm::{GbmClassifier, GbmParams, GbmRegressor, F32};

fn num(v: f32) -> F32 {
    F32::from_bits(v.to_bits())
}

fn native(v: F32) -> f32 {
    f32::from_bits(v.to_bits())
}

fn natives(v: &[F32]) -> Vec<f32> {
    v.iter().map(|&a| native(a)).collect()
}

fn exp(v: F32) -> F32 {
    num(native(v).exp())
}

fn ln(v: F32) -> F32 {
    num(native(v).ln())
}

fn table(n: usize, d: usize, seed: u64) -> Vec<F32> {
    let mut r = SplitMix64::new(seed);
    (0..n * d)
        .map(|_| num(r.next_bounded(2000) as f32 / 64.0 - 15.0))
        .collect()
}

fn params(rounds: usize) -> GbmParams {
    GbmParams {
        n_estimators: rounds,
        ..GbmParams::default()
    }
}

#[test]
fn negated_targets_negate_predictions() {
    let (n, d) = (50, 3);
    let (x, q) = (table(n, d, 1), table(20, d, 2));
    let y: Vec<F32> = (0..n).map(|i| x[i * d].mul(x[i * d + 1])).collect();
    let z: Vec<F32> = y.iter().map(|v| num(-native(*v))).collect();
    let a = natives(&GbmRegressor::fit(&x, &y, n, d).predict(&q, 20));
    let b = natives(&GbmRegressor::fit(&x, &z, n, d).predict(&q, 20));
    for i in 0..20 {
        assert_eq!(a[i], -b[i]);
    }
}

#[test]
fn doubled_features_change_nothing() {
    let (n, d) = (50, 3);
    let (x, q) = (table(n, d, 3), table(20, d, 4));
    let y: Vec<F32> = (0..n).map(|i| x[i * d].add(x[i * d + 2])).collect();
    let double = |v: &[F32]| -> Vec<F32> { v.iter().map(|&a| num(2.0).mul(a)).collect() };
    let a = GbmRegressor::fit(&x, &y, n, d).predict(&q, 20);
    let b = GbmRegressor::fit(&double(&x), &y, n, d).predict(&double(&q), 20);
    assert_eq!(natives(&a), natives(&b));
}

#[test]
fn constant_feature_is_never_used() {
    let (n, d) = (40, 2);
    let mut x = table(n, d, 5);
    for i in 0..n {
        x[i * d + 1] = num(7.0);
    }
    let y: Vec<F32> = (0..n).map(|i| x[i * d]).collect();
    let m = GbmRegressor::fit(&x, &y, n, d);
    for v in [-100.0f32, 7.0, 1e30] {
        let other = [x[0], num(v)];
        assert_eq!(native(m.predict_row(&other)), native(m.predict_row(&x[..d])));
    }
}

#[test]
fn row_order_does_not_move_edges() {
    let (n, d) = (300, 2);
    let x = table(n, d, 6);
    let mut z: Vec<F32> = Vec::new();
    for i in (0..n).rev() {
        z.extend_from_slice(&x[i * d..i * d + d]);
    }
    let (a, b) = (BinMapper::fit(&x, n, d, 16), BinMapper::fit(&z, n, d, 16));
    for f in 0..d {
        assert_eq!(a.nbins(f), b.nbins(f));
        for v in table(200, 1, 7) {
            assert_eq!(a.bin_val(f, v), b.bin_val(f, v));
        }
    }
}

#[test]
fn fewer_rounds_begin_a_longer_run() {
    let (n, d) = (30, 2);
    let x = table(n, d, 8);
    let y: Vec<F32> = (0..n).map(|i| x[i * d].mul(x[i * d])).collect();
    let long = params(10);
    let base = vec![mean_of(&y)];
    let run = Training::new(&x, &y, n, d, &Obj::L2, &long);
    let mut st = run.start(&base);
    for _ in 0..4 {
        run.round(&mut st, &Vec::new());
    }
    let stopped = run.finish(st, base);
    let short = GbmRegressor::fit_with(&x, &y, n, d, &params(4));
    for i in 0..n {
        let row = &x[i * d..i * d + d];
        assert_eq!(native(stopped.raw_row(row)[0]), native(short.predict_row(row)));
    }
}

#[test]
fn derivatives_leave_the_rest_of_the_buffers() {
    let (raw, y) = (table(5, 1, 9), table(3, 1, 10));
    let old = table(6, 1, 11);
    let (mut grad, mut hess) = (old.clone(), old.clone());
    Obj::L2.grad_hess(&raw, &[], &y, &mut grad, &mut hess);
    for i in 0..3 {
        assert_eq!(native(grad[i]), native(raw[i]) - native(y[i]));
        assert_eq!(native(hess[i]), 1.0);
    }
    assert_eq!(natives(&grad[3..]), natives(&old[3..]));
    assert_eq!(natives(&hess[3..]), natives(&old[3..]));
}

#[test]
fn hundred_probabilities_add_to_nearly_one() {
    let k = 100usize;
    let x: Vec<F32> = (0..k).map(|i| num(i as f32)).collect();
    let m = GbmClassifier::fit_with(&x, &x, k, 1, &params(1), &exp, &ln);
    assert_eq!(m.n_classes(), k);
    let mut r = SplitMix64::new(12);
    for _ in 0..200 {
        let mut e: Vec<F32> = (0..k)
            .map(|_| F32::from_bits((r.next_u64() % 0x3f80_0001) as u32))
            .collect();
        e[r.next_bounded(k)] = num(1.0);
        let p = natives(&m.probabilities(&e));
        assert!(p.iter().all(|v| (0.0..=1.0).contains(v)));
        assert!((p.iter().sum::<f32>() - 1.0).abs() <= 1e-4);
        let exact: f64 = p.iter().map(|&v| v as f64).sum();
        assert!((exact - 1.0).abs() <= 1e-4);
    }
}

#[test]
fn predicted_class_is_the_first_most_probable() {
    let (n, d) = (60, 2);
    let x = table(n, d, 13);
    let y: Vec<F32> = (0..n).map(|i| num((i % 5) as f32)).collect();
    let m = GbmClassifier::fit_with(&x, &y, n, d, &params(20), &exp, &ln);
    for i in 0..n {
        let row = &x[i * d..i * d + d];
        let p = natives(&m.predict_proba_row(row, &exp));
        let c = m.predict_row(row, &exp);
        assert_eq!(p.len(), 5);
        assert!(p.iter().all(|&v| v <= p[c]));
        assert!(p[..c].iter().all(|&v| v < p[c]));
    }
}
