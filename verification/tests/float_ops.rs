use neo_replay::float::F64;

fn d(x: f64) -> F64 {
    F64 { bits: x.to_bits() }
}

fn same_bits(got: F64, want: f64) -> bool {
    if want.is_nan() {
        f64::from_bits(got.bits).is_nan()
    } else {
        got.bits == want.to_bits()
    }
}

fn samples() -> Vec<f64> {
    let mut v = vec![
        0.0, -0.0, 1.0, -1.0, 0.5, 2.0, 3.0, 255.0, 1.0 / 255.0, 0.00056, 0.0042, 16.0, 30.0,
        10.0, 0.1, 0.2, 0.3, 0.7, 1e-300, 1e300, -1e300, 5e-324, -5e-324, 2.2250738585072014e-308,
        2.225073858507201e-308, 1.7976931348623157e308, f64::INFINITY, f64::NEG_INFINITY,
        f64::NAN, 4503599627370496.0, 9007199254740992.0, 9007199254740993.0, 0.49999999999999994,
        1.0000000000000002, 0.9999999999999999, 123456.789, -98765.4321, 1e-20, 1e20, 3.5, -3.5,
        2.5, -2.5, 1e15 + 0.5, 4294967296.0, 2147483648.0, -2147483649.0, 65535.9, 1e-310,
    ];
    let mut seed: u64 = 0x9E37_79B9_7F4A_7C15;
    for _ in 0..400 {
        seed ^= seed << 13;
        seed ^= seed >> 7;
        seed ^= seed << 17;
        v.push(f64::from_bits(seed));
        let e = 1023 - 40 + (seed % 80);
        v.push(f64::from_bits((e << 52) | (seed >> 12)));
    }
    for a in 0..=255u32 {
        v.push(a as f64 / 255.0);
    }
    v
}

#[test]
fn plus_matches_hardware() {
    let s = samples();
    for &a in &s {
        for &b in &s {
            assert!(same_bits(d(a).plus(d(b)), a + b), "{:e} + {:e}", a, b);
        }
    }
}

#[test]
fn minus_matches_hardware() {
    let s = samples();
    for &a in &s {
        for &b in &s {
            assert!(same_bits(d(a).minus(d(b)), a - b), "{:e} - {:e}", a, b);
        }
    }
}

#[test]
fn times_matches_hardware() {
    let s = samples();
    for &a in &s {
        for &b in &s {
            assert!(same_bits(d(a).times(d(b)), a * b), "{:e} * {:e}", a, b);
        }
    }
}

#[test]
fn over_matches_hardware() {
    let s = samples();
    for &a in &s {
        for &b in &s {
            assert!(same_bits(d(a).over(d(b)), a / b), "{:e} / {:e}", a, b);
        }
    }
}

#[test]
fn sqrt_matches_hardware() {
    for &a in &samples() {
        assert!(same_bits(d(a).sqrt(), a.sqrt()), "sqrt {:e}", a);
    }
    for a in 0..=255u32 {
        let x = 2.0 * (a as f64 / 255.0);
        assert!(same_bits(d(x).sqrt(), x.sqrt()));
    }
}

#[test]
fn floor_and_ceil_match_hardware() {
    for &a in &samples() {
        assert!(same_bits(d(a).floor(), a.floor()), "floor {:e}", a);
        assert!(same_bits(d(a).ceil(), a.ceil()), "ceil {:e}", a);
    }
}

#[test]
fn comparisons_match_hardware() {
    let s = samples();
    for &a in &s {
        for &b in &s {
            assert_eq!(d(a).lt(d(b)), a < b);
            assert_eq!(d(a).le(d(b)), a <= b);
            assert_eq!(d(a).same(d(b)), a == b);
        }
    }
}

#[test]
fn min_and_max_match_hardware_on_distinct_numbers() {
    let s = samples();
    for &a in &s {
        for &b in &s {
            if a == b {
                continue;
            }
            assert!(same_bits(d(a).min(d(b)), a.min(b)));
            assert!(same_bits(d(a).max(d(b)), a.max(b)));
        }
    }
}

#[test]
fn casts_match_hardware() {
    for &a in &samples() {
        assert_eq!(d(a).to_u8(), a as u8, "{:e}", a);
        assert_eq!(d(a).to_u32(), a as u32, "{:e}", a);
        assert_eq!(d(a).to_i32(), a as i32, "{:e}", a);
        assert_eq!(d(a).to_i64(), a as i64, "{:e}", a);
    }
}

#[test]
fn integers_convert_as_hardware_does() {
    let ints: [i64; 12] = [
        0, 1, -1, 255, 1 << 53, (1 << 53) + 1, -((1 << 53) + 1), i64::MAX, i64::MIN,
        i64::MAX - 1, 123456789012345678, -987654321098765432,
    ];
    for &n in &ints {
        assert_eq!(F64::from_i64(n).bits, (n as f64).to_bits());
    }
    for &n in &[0u32, 1, 7, 255, 65535, u32::MAX] {
        assert_eq!(F64::from_u32(n).bits, (n as f64).to_bits());
    }
}

fn singles() -> Vec<f32> {
    let mut v = vec![
        0.0f32, -0.0, 1.0, -1.0, 0.5, 255.0, 1.0 / 255.0, 0.1, 0.3, 1e-45, 1e-40, 3.4028235e38,
        -3.4028235e38, 1.1754944e-38, f32::INFINITY, f32::NAN, 16777216.0, 16777217.0, 8.0,
    ];
    let mut seed: u32 = 0x1234_5678;
    for _ in 0..300 {
        seed ^= seed << 13;
        seed ^= seed >> 17;
        seed ^= seed << 5;
        v.push(f32::from_bits(seed));
        let e = 127 - 20 + (seed % 40);
        v.push(f32::from_bits((e << 23) | (seed >> 9)));
    }
    for a in 0..=255u32 {
        v.push(a as f32);
        v.push(a as f32 / 255.0);
        v.push(1.0 - a as f32 / 255.0);
    }
    v
}

fn same_single(got: F64, want: f32) -> bool {
    same_bits(got, want as f64)
}

#[test]
fn single_precision_matches_hardware() {
    let s = singles();
    for &a in &s {
        for &b in &s {
            let (x, y) = (d(a as f64), d(b as f64));
            assert!(same_single(x.plus_single(y), a + b), "{:e} + {:e}", a, b);
            assert!(same_single(x.minus_single(y), a - b), "{:e} - {:e}", a, b);
            assert!(same_single(x.times_single(y), a * b), "{:e} * {:e}", a, b);
            assert!(same_single(x.over_single(y), a / b), "{:e} / {:e}", a, b);
        }
    }
}
