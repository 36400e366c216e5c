use rust_gbm::{accuracy, r2_score, GbmClassifier, GbmRegressor, F32};

fn num(v: f32) -> F32 {
    F32::from_bits(v.to_bits())
}

fn native(v: F32) -> f32 {
    f32::from_bits(v.to_bits())
}

fn nums(v: &[f32]) -> Vec<F32> {
    v.iter().map(|&a| num(a)).collect()
}

fn exp(v: F32) -> F32 {
    num(native(v).exp())
}

fn ln(v: F32) -> F32 {
    num(native(v).ln())
}

fn rng_unit(s: &mut u64) -> f32 {
    *s = s.wrapping_add(0x9E37_79B9_7F4A_7C15);
    let mut z = *s;
    z = (z ^ (z >> 30)).wrapping_mul(0xBF58_476D_1CE4_E5B9);
    z = (z ^ (z >> 27)).wrapping_mul(0x94D0_49BB_1331_11EB);
    ((z ^ (z >> 31)) >> 11) as f32 / (1u64 << 53) as f32
}

fn feats(n: usize, d: usize, seed: u64) -> (Vec<f32>, u64) {
    let mut s = seed;
    let mut x = vec![0.0f32; n * d];
    for v in x.iter_mut() {
        *v = rng_unit(&mut s) * 2.0 - 1.0;
    }
    (x, s)
}

#[test]
fn regression_nonlinear() {
    let (d, ntr, nte) = (5, 400, 200);
    let (xtr, _) = feats(ntr, d, 1);
    let (xte, _) = feats(nte, d, 2);
    let tgt = |x: &[f32]| (x[0] * 3.0).sin() + x[1] * x[1] + 0.5 * x[0] * x[2];
    let ytr: Vec<f32> = (0..ntr).map(|i| tgt(&xtr[i * d..i * d + d])).collect();
    let yte: Vec<f32> = (0..nte).map(|i| tgt(&xte[i * d..i * d + d])).collect();
    let m = GbmRegressor::fit(&nums(&xtr), &nums(&ytr), ntr, d);
    let r2 = native(r2_score(&nums(&yte), &m.predict(&nums(&xte), nte)));
    println!("regression held-out R2 = {r2:.3}");
    assert!(r2 > 0.85, "R2 too low {r2}");
}

#[test]
fn binary_classification() {
    let (d, ntr, nte) = (6, 500, 300);
    let (xtr, _) = feats(ntr, d, 3);
    let (xte, _) = feats(nte, d, 4);
    // nonlinear boundary
    let lab = |x: &[f32]| ((x[0] * x[0] + x[1] - 0.3 * x[2]) > 0.4) as usize as f32;
    let ytr: Vec<f32> = (0..ntr).map(|i| lab(&xtr[i * d..i * d + d])).collect();
    let yte: Vec<f32> = (0..nte).map(|i| lab(&xte[i * d..i * d + d])).collect();
    let m = GbmClassifier::fit(&nums(&xtr), &nums(&ytr), ntr, d, &exp, &ln);
    let xq = nums(&xte);
    let pred: Vec<usize> = (0..nte)
        .map(|i| m.predict_row(&xq[i * d..i * d + d], &exp))
        .collect();
    let acc = native(accuracy(&nums(&yte), &pred));
    println!("binary held-out acc = {acc:.3}");
    assert_eq!(m.n_classes(), 2);
    assert!(acc > 0.9, "acc too low {acc}");
}

#[test]
fn multiclass_classification() {
    let (d, ntr, nte) = (6, 600, 300);
    let (xtr, _) = feats(ntr, d, 5);
    let (xte, _) = feats(nte, d, 6);
    let lab = |x: &[f32]| -> f32 {
        let s = x[0] + x[1];
        if s < -0.4 {
            0.0
        } else if s < 0.4 {
            1.0
        } else {
            2.0
        }
    };
    let ytr: Vec<f32> = (0..ntr).map(|i| lab(&xtr[i * d..i * d + d])).collect();
    let yte: Vec<f32> = (0..nte).map(|i| lab(&xte[i * d..i * d + d])).collect();
    let m = GbmClassifier::fit(&nums(&xtr), &nums(&ytr), ntr, d, &exp, &ln);
    let xq = nums(&xte);
    let pred: Vec<usize> = (0..nte)
        .map(|i| m.predict_row(&xq[i * d..i * d + d], &exp))
        .collect();
    let acc = native(accuracy(&nums(&yte), &pred));
    println!(
        "multiclass held-out acc = {acc:.3} ({} classes)",
        m.n_classes()
    );
    assert_eq!(m.n_classes(), 3);
    assert!(acc > 0.9, "acc too low {acc}");
}
