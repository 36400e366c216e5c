use rust_gbm::float::F32;
use rust_gbm::rng::SplitMix64;

fn num(v: f32) -> F32 {
    F32::from_bits(v.to_bits())
}

fn native(v: F32) -> f32 {
    f32::from_bits(v.to_bits())
}

/// The same number: the same bits, or both not numbers.
fn same(a: F32, b: f32) -> bool {
    (a.is_nan() && b.is_nan()) || a.to_bits() == b.to_bits()
}

fn special() -> Vec<f32> {
    vec![
        0.0,
        -0.0,
        1.0,
        -1.0,
        0.5,
        3.0,
        f32::MIN_POSITIVE,
        -f32::MIN_POSITIVE,
        f32::from_bits(1),
        f32::from_bits(0x807f_ffff),
        f32::from_bits(0x007f_ffff),
        f32::MAX,
        f32::MIN,
        f32::INFINITY,
        f32::NEG_INFINITY,
        f32::NAN,
        16777216.0,
        16777217.0,
        1e-6,
        1e30,
        1e-30,
        f32::from_bits(0x3f80_0001),
        f32::from_bits(0x3f7f_ffff),
    ]
}

fn check_pair(a: f32, b: f32) {
    let (x, y) = (num(a), num(b));
    assert!(same(x.add(y), a + b), "{a:e} + {b:e}");
    assert!(same(x.sub(y), a - b), "{a:e} - {b:e}");
    assert!(same(x.mul(y), a * b), "{a:e} * {b:e}");
    assert!(same(x.div(y), a / b), "{a:e} / {b:e}");
    assert_eq!(x.lt(y), a < b, "{a:e} < {b:e}");
    let m = x.max(y);
    assert!(m.is_nan() == a.max(b).is_nan());
    assert!(m.is_nan() || native(m) == a.max(b), "max {a:e} {b:e}");
}

fn check_single(a: f32) {
    let x = num(a);
    assert_eq!(x.to_usize(), a as usize, "{a:e} as usize");
    assert_eq!(x.ceil_to_usize(), a.ceil() as usize, "{a:e} ceil");
    assert_eq!(x.neg().to_bits(), (-a).to_bits());
    assert_eq!(x.is_nan(), a.is_nan());
}

#[test]
fn arithmetic_on_special_numbers() {
    for &a in &special() {
        check_single(a);
        for &b in &special() {
            check_pair(a, b);
        }
    }
}

#[test]
fn arithmetic_on_random_patterns() {
    let mut rng = SplitMix64::new(7);
    for _ in 0..300_000 {
        let v = rng.next_u64();
        let a = f32::from_bits(v as u32);
        let b = f32::from_bits((v >> 32) as u32);
        check_single(a);
        check_pair(a, b);
    }
}

#[test]
fn arithmetic_on_close_exponents() {
    let mut rng = SplitMix64::new(8);
    for _ in 0..300_000 {
        let v = rng.next_u64();
        let w = rng.next_u64();
        let shift = ((w & 63) as u32) << 23;
        let a = f32::from_bits((v as u32 & 0x807f_ffff) + 0x3f00_0000);
        let b = f32::from_bits(((v >> 32) as u32 & 0x807f_ffff) + 0x3000_0000 + shift);
        check_single(b);
        check_pair(a, b);
        check_pair(b, a);
        // Around the smallest normal number.
        let c = f32::from_bits((w >> 32) as u32 & 0x81ff_ffff);
        check_pair(c, b);
        check_pair(b, c);
        check_pair(c, f32::from_bits(v as u32 & 0x81ff_ffff));
    }
}

#[test]
fn integers_become_nearest_numbers() {
    let mut rng = SplitMix64::new(9);
    for _ in 0..200_000 {
        let n = (rng.next_u64() >> (rng.next_u64() & 63)) as usize;
        assert_eq!(F32::from_usize(n).to_bits(), (n as f32).to_bits(), "{n}");
    }
    for n in [0usize, 1, 2, 16777215, 16777216, 16777217, 16777219, usize::MAX] {
        assert_eq!(F32::from_usize(n).to_bits(), (n as f32).to_bits(), "{n}");
    }
}

#[test]
fn numbers_are_moved_into_a_range() {
    let (low, high) = (num(0.25), num(0.75));
    assert_eq!(num(0.1).clamp(low, high), low);
    assert_eq!(num(0.9).clamp(low, high), high);
    assert_eq!(num(0.5).clamp(low, high), num(0.5));
    assert!(num(f32::NAN).clamp(low, high).is_nan());
}

#[test]
fn order_follows_value() {
    assert!(num(-2.0).order() < num(-1.0).order());
    assert!(num(-1.0).order() < num(0.0).order());
    assert_eq!(num(-0.0).order(), num(0.0).order());
    assert!(num(0.0).order() < num(f32::from_bits(1)).order());
    assert!(num(f32::MAX).order() < num(f32::INFINITY).order());
}
