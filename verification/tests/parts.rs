use rust_gbm::bins::BinMapper;
use rust_gbm::booster::{Booster, Training};
use rust_gbm::classifier::{argmax, count_labels};
use rust_gbm::distinct::distinct_values;
use rust_gbm::grow::Grow;
use rust_gbm::objective::{max_of, mean_of, sigmoid, sum_of, Obj};
use rust_gbm::rng::{sample_indices, SplitMix64};
use rust_gbm::{GbmParams, F32};

fn num(v: f32) -> F32 {
    F32::from_bits(v.to_bits())
}

fn native(v: F32) -> f32 {
    f32::from_bits(v.to_bits())
}

fn nums(v: &[f32]) -> Vec<F32> {
    v.iter().map(|&a| num(a)).collect()
}

fn natives(v: &[F32]) -> Vec<f32> {
    v.iter().map(|&a| native(a)).collect()
}

fn exp(v: F32) -> F32 {
    num(native(v).exp())
}

fn params(rounds: usize, depth: usize) -> GbmParams {
    GbmParams {
        n_estimators: rounds,
        max_depth: depth,
        ..GbmParams::default()
    }
}

#[test]
fn defaults_are_documented_values() {
    let p = GbmParams::default();
    assert_eq!(p.n_estimators, 200);
    assert_eq!(native(p.learning_rate), 0.05);
    assert_eq!(p.max_depth, 3);
    assert_eq!(p.min_samples_leaf, 1);
    assert_eq!(native(p.subsample), 0.8);
    assert_eq!(p.max_bins, 128);
    assert_eq!(native(p.lambda), 1.0);
    assert_eq!(p.seed, 0x9E37_79B9_7F4A_7C15);
}

#[test]
fn generator_gives_known_numbers() {
    let mut r = SplitMix64::new(0);
    assert_eq!(r.next_u64(), 0xE220_A839_7B1D_CDAF);
    assert_eq!(r.next_u64(), 0x6E78_9E6A_A1B9_65F4);
    assert_eq!(r.next_u64(), 0x06C4_5D18_8009_454F);
    let mut s = SplitMix64::new(0);
    assert_eq!(s.next_bounded(10), (0xE220_A839_7B1D_CDAFu64 % 10) as usize);
}

#[test]
fn sample_swaps_drawn_numbers_forward() {
    let mut r = SplitMix64::new(0);
    let got = sample_indices(5, 3, &mut r);
    let mut draws = SplitMix64::new(0);
    let mut all = vec![0usize, 1, 2, 3, 4];
    for i in 0..3 {
        let j = i + draws.next_bounded(5 - i);
        all.swap(i, j);
    }
    assert_eq!(got, all[..3].to_vec());
    assert_eq!(r.next_u64(), draws.next_u64());
}

#[test]
fn sample_has_no_repetition() {
    let mut r = SplitMix64::new(7);
    for n in 0..20usize {
        for k in 0..25usize {
            let mut s = sample_indices(n, k, &mut r);
            assert_eq!(s.len(), k.min(n));
            s.sort();
            s.dedup();
            assert_eq!(s.len(), k.min(n));
            assert!(s.iter().all(|&i| i < n));
        }
    }
}

#[test]
fn distinct_values_come_out_ascending() {
    assert_eq!(distinct_values(&vec![3, -1, 3, 0, -1, 9]), vec![-1, 0, 3, 9]);
    assert_eq!(distinct_values(&vec![]), Vec::<i64>::new());
    assert_eq!(distinct_values(&vec![5, 5, 5]), vec![5]);
}

#[test]
fn bins_are_cut_at_midpoints() {
    let m = BinMapper::fit(&nums(&[1.0, 3.0, 2.0, 3.0]), 4, 1, 256);
    assert_eq!(m.n_features(), 1);
    assert_eq!(m.nbins(0), 3);
    let bin = |v: f32| m.bin_val(0, num(v));
    assert_eq!(bin(1.0), 0);
    assert_eq!(bin(1.5), 0);
    assert_eq!(bin(1.5000001), 1);
    assert_eq!(bin(2.5), 1);
    assert_eq!(bin(3.0), 2);
    assert_eq!(bin(f32::INFINITY), 2);
    assert_eq!(bin(f32::NEG_INFINITY), 0);
    assert_eq!(bin(f32::NAN), 0);
}

#[test]
fn many_values_are_cut_at_quantiles() {
    let x = nums(&[4.0, 0.0, 2.0, 1.0, 3.0]);
    let two = BinMapper::fit(&x, 5, 1, 2);
    assert_eq!(two.nbins(0), 2);
    assert_eq!(two.bin_val(0, num(1.5)), 0);
    assert_eq!(two.bin_val(0, num(1.6)), 1);
    let three = BinMapper::fit(&x, 5, 1, 3);
    assert_eq!(three.nbins(0), 3);
    assert_eq!(three.bin_val(0, num(0.5)), 0);
    assert_eq!(three.bin_val(0, num(0.6)), 1);
    assert_eq!(three.bin_val(0, num(2.5)), 1);
    assert_eq!(three.bin_val(0, num(2.6)), 2);
    let five = BinMapper::fit(&x, 5, 1, 5);
    assert_eq!(five.nbins(0), 5);
}

#[test]
fn table_is_binned_by_column() {
    let x = nums(&[0.0, 30.0, 1.0, 10.0, 2.0, 20.0]);
    let m = BinMapper::fit(&x, 3, 2, 128);
    assert_eq!(m.transform(&x, 3), vec![0u8, 2, 1, 0, 2, 1]);
}

#[test]
fn one_value_gives_one_bin() {
    let x = nums(&[0.0, -0.0, 0.0]);
    let m = BinMapper::fit(&x, 3, 1, 128);
    assert_eq!(m.nbins(0), 1);
    let none = BinMapper::fit(&[], 0, 1, 128);
    assert_eq!(none.nbins(0), 1);
    assert_eq!(none.bin_val(0, num(5.0)), 0);
}

#[test]
fn binning_keeps_order() {
    let mut r = SplitMix64::new(3);
    let x: Vec<F32> = (0..300)
        .map(|_| num((r.next_bounded(2000) as f32 - 1000.0) / 7.0))
        .collect();
    let m = BinMapper::fit(&x, 300, 1, 16);
    assert_eq!(m.nbins(0), 16);
    for a in x.iter() {
        assert!((m.bin_val(0, *a) as usize) < m.nbins(0));
        for b in x.iter() {
            if native(*a) <= native(*b) {
                assert!(m.bin_val(0, *a) <= m.bin_val(0, *b));
            }
        }
    }
}

#[test]
fn split_with_largest_gain_is_taken() {
    let x = nums(&[0.0, 1.0, 2.0, 3.0]);
    let m = BinMapper::fit(&x, 4, 1, 128);
    let binned = m.transform(&x, 4);
    let (grad, hess) = (nums(&[-1.0, -1.0, 1.0, 1.0]), nums(&[1.0; 4]));
    let p = params(1, 3);
    let g = Grow {
        binned: &binned,
        grad: &grad,
        hess: &hess,
        mapper: &m,
        d: 1,
        p: &p,
    };
    assert_eq!(g.best_split(&[0, 1, 2, 3]), Some((0, 1)));
    assert_eq!(native(g.leaf_value(&[0, 1])), 2.0 / 3.0);
    assert_eq!(native(g.leaf_value(&[3])), -0.5);
    assert_eq!(native(g.leaf_value(&[])), 0.0);
    let t = g.build(&[0, 1, 2, 3]);
    let leaves: Vec<f32> = (0..4u8).map(|b| native(t.predict_binned(&[b]))).collect();
    let third = 2.0f32 / 3.0;
    assert_eq!(leaves, vec![third, third, -third, -third]);
}

#[test]
fn first_of_equal_splits_is_taken() {
    let x = nums(&[0.0, 0.0, 1.0, 1.0]);
    let m = BinMapper::fit(&x, 2, 2, 128);
    let binned = m.transform(&x, 2);
    let (grad, hess) = (nums(&[-1.0, 1.0]), nums(&[1.0; 2]));
    let p = params(1, 3);
    let g = Grow {
        binned: &binned,
        grad: &grad,
        hess: &hess,
        mapper: &m,
        d: 2,
        p: &p,
    };
    assert_eq!(g.best_split(&[0, 1]), Some((0, 0)));
}

#[test]
fn no_split_without_gain_or_rows() {
    let x = nums(&[0.0, 1.0, 2.0, 3.0]);
    let m = BinMapper::fit(&x, 4, 1, 128);
    let binned = m.transform(&x, 4);
    let hess = nums(&[1.0; 4]);
    let (flat, steep) = (nums(&[0.0; 4]), nums(&[-1.0, -1.0, 1.0, 1.0]));
    let p = params(1, 3);
    let wide = GbmParams {
        min_samples_leaf: 3,
        ..p.clone()
    };
    let zero = GbmParams {
        min_samples_leaf: 0,
        ..p.clone()
    };
    let split = |grad: &[F32], p: &GbmParams, idx: &[usize]| {
        Grow {
            binned: &binned,
            grad,
            hess: &hess,
            mapper: &m,
            d: 1,
            p,
        }
        .best_split(idx)
    };
    assert_eq!(split(&flat, &p, &[0, 1, 2, 3]), None);
    assert_eq!(split(&steep, &wide, &[0, 1, 2, 3]), None);
    assert_eq!(split(&steep, &zero, &[0, 1, 2, 3]), Some((0, 1)));
    assert_eq!(split(&steep, &p, &[2]), None);
    assert_eq!(split(&steep, &p, &[]), None);
}

#[test]
fn depth_zero_gives_a_leaf() {
    let x = nums(&[0.0, 1.0]);
    let m = BinMapper::fit(&x, 2, 1, 128);
    let binned = m.transform(&x, 2);
    let (grad, hess) = (nums(&[-3.0, 1.0]), nums(&[1.0; 2]));
    let p = params(1, 0);
    let g = Grow {
        binned: &binned,
        grad: &grad,
        hess: &hess,
        mapper: &m,
        d: 1,
        p: &p,
    };
    let t = g.build(&[0, 1]);
    assert_eq!(native(t.predict_binned(&[0])), 2.0 / 3.0);
    assert_eq!(native(t.predict_binned(&[1])), 2.0 / 3.0);
}

#[test]
fn sums_and_extremes() {
    assert_eq!(native(sum_of(&nums(&[1.5, 2.0, -0.5]))), 3.0);
    assert_eq!(native(mean_of(&nums(&[1.0, 2.0, 6.0]))), 3.0);
    assert_eq!(native(mean_of(&[])), 0.0);
    assert_eq!(native(max_of(&nums(&[-3.0, 7.0, f32::NAN]))), 7.0);
    assert_eq!(native(max_of(&[])), f32::MIN);
    assert_eq!(native(sigmoid(num(1.0))), 0.5);
    assert_eq!(native(sigmoid(num(3.0))), 0.25);
    assert_eq!(native(sigmoid(num(f32::INFINITY))), 0.0);
}

#[test]
fn starting_scores_of_each_loss() {
    let y = nums(&[1.0, 0.0, 1.0, 1.0]);
    assert_eq!(Obj::L2.n_out(), 1);
    assert_eq!(Obj::Multiclass(4).n_out(), 4);
    assert_eq!(natives(&Obj::L2.base_scores(&y, Vec::new())), vec![0.75]);
    assert_eq!(natives(&Obj::Binary.log_arguments(&y)), vec![3.0]);
    assert!(Obj::L2.log_arguments(&y).is_empty());

    let mu = 1.0f32.clamp(1e-4, 1.0 - 1e-4);
    let ones = nums(&[1.0, 1.0]);
    assert_eq!(natives(&Obj::Binary.log_arguments(&ones)), vec![mu / (1.0 - mu)]);
    let mu = 0.0f32.clamp(1e-4, 1.0 - 1e-4);
    let zeros = nums(&[0.0, 0.0]);
    assert_eq!(natives(&Obj::Binary.log_arguments(&zeros)), vec![mu / (1.0 - mu)]);

    let labels = nums(&[0.0, 1.0, 1.0, 2.0]);
    let args = Obj::Multiclass(3).log_arguments(&labels);
    assert_eq!(natives(&args), vec![2.0 / 7.0, 3.0 / 7.0, 2.0 / 7.0]);
    let odd = nums(&[-5.0, f32::NAN, 2.9]);
    let args = Obj::Multiclass(3).log_arguments(&odd);
    assert_eq!(natives(&args), vec![3.0 / 6.0, 1.0 / 6.0, 2.0 / 6.0]);

    let half = |_: F32| num(-0.5);
    assert_eq!(natives(&Obj::Binary.init_base(&y, &half)), vec![-0.5]);
    assert_eq!(natives(&Obj::L2.init_base(&y, &half)), vec![0.75]);
}

#[test]
fn derivatives_of_each_loss() {
    let (mut g, mut h) = (nums(&[0.0; 2]), nums(&[0.0; 2]));
    Obj::L2.grad_hess(&nums(&[3.0, 1.0]), &[], &nums(&[1.0, 4.0]), &mut g, &mut h);
    assert_eq!(natives(&g), vec![2.0, -3.0]);
    assert_eq!(natives(&h), vec![1.0, 1.0]);

    let raw = nums(&[0.5, -2.0]);
    assert_eq!(natives(&Obj::Binary.exp_arguments(&raw, 2)), vec![-0.5, 2.0]);
    let exps = nums(&[1.0, 0.0]);
    Obj::Binary.grad_hess(&raw, &exps, &nums(&[1.0, 0.0]), &mut g, &mut h);
    assert_eq!(natives(&g), vec![-0.5, 1.0]);
    assert_eq!(natives(&h), vec![0.25, 1e-6]);

    let (mut g, mut h) = (nums(&[0.0; 3]), nums(&[0.0; 3]));
    let raw = nums(&[1.0, 2.0, 3.0]);
    let soft = Obj::Multiclass(3);
    assert_eq!(natives(&soft.exp_arguments(&raw, 1)), vec![-2.0, -1.0, 0.0]);
    soft.grad_hess(&raw, &nums(&[1.0, 1.0, 2.0]), &nums(&[1.0]), &mut g, &mut h);
    assert_eq!(natives(&g), vec![0.25, -0.75, 0.5]);
    assert_eq!(natives(&h), vec![0.1875, 0.1875, 0.25]);
}

#[test]
fn first_of_equal_probabilities_wins() {
    assert_eq!(argmax(&nums(&[0.25, 0.5, 0.25])), 1);
    assert_eq!(argmax(&nums(&[0.5, 0.5])), 0);
    assert_eq!(argmax(&nums(&[0.2, 0.4, 0.4])), 1);
    assert_eq!(argmax(&nums(&[f32::NAN, 0.5])), 0);
    assert_eq!(argmax(&[]), 0);
}

#[test]
fn labels_are_counted_from_the_largest() {
    assert_eq!(count_labels(&nums(&[0.0, 3.0, 1.0])), 4);
    assert_eq!(count_labels(&nums(&[2.9])), 3);
    assert_eq!(count_labels(&nums(&[-4.0, f32::NAN])), 1);
    assert_eq!(count_labels(&[]), 1);
}

/// The steps of a training run, taken one by one, give the model that training in one go gives, and
/// the model gives the training rows the scores that the run ended with.
#[test]
fn steps_make_up_training() {
    let mut r = SplitMix64::new(11);
    let (n, d) = (40usize, 3usize);
    let x: Vec<F32> = (0..n * d)
        .map(|_| num(r.next_bounded(100) as f32 / 10.0))
        .collect();
    let y: Vec<F32> = (0..n)
        .map(|i| num(if native(x[i * d]) > 5.0 { 1.0 } else { 0.0 }))
        .collect();
    let p = params(12, 2);
    let base = nums(&[0.25]);
    let whole = Booster::train(&x, &y, n, d, &Obj::Binary, &p, base.clone(), &exp);
    let run = Training::new(&x, &y, n, d, &Obj::Binary, &p);
    let mut st = run.start(&base);
    for _ in 0..12 {
        let exps: Vec<F32> = run.exp_arguments(&st).iter().map(|&v| exp(v)).collect();
        run.round(&mut st, &exps);
    }
    let scores: Vec<f32> = run.exp_arguments(&st).iter().map(|&v| -native(v)).collect();
    let model = run.finish(st, base);
    assert_eq!(model.n_features(), 3);
    for i in 0..n {
        let row = &x[i * d..i * d + d];
        assert_eq!(natives(&model.raw_row(row)), vec![scores[i]]);
        assert_eq!(natives(&whole.raw_row(row)), vec![scores[i]]);
    }
}
