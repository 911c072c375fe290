use conflux::float::binary32::Binary32;
use conflux::float::binary64::Binary64;

fn pool32() -> Vec<f32> {
    let mut out: Vec<f32> = vec![
        0.0,
        -0.0,
        1.0,
        -1.0,
        0.1,
        3.0,
        1.0 / 3.0,
        f32::MAX,
        f32::MIN,
        f32::MIN_POSITIVE,
        f32::INFINITY,
        f32::NEG_INFINITY,
        f32::NAN,
        f32::EPSILON,
        16_777_216.0,
        16_777_217.0,
    ];
    for bits in [1u32, 2, 3, 0x007f_ffff, 0x0080_0000, 0x8000_0001, 0x3f80_0001, 0x7f7f_fffe] {
        out.push(f32::from_bits(bits));
    }
    let mut state = 88_172_645_463_325_252u64;
    for _ in 0..120 {
        state ^= state << 13;
        state ^= state >> 7;
        state ^= state << 17;
        out.push(f32::from_bits(state as u32));
    }
    out
}

fn pool64() -> Vec<f64> {
    let mut out: Vec<f64> = pool32().iter().map(|x| *x as f64).collect();
    out.extend([f64::MAX, f64::MIN_POSITIVE, f64::EPSILON, 0.1, 1e308, 1e-308]);
    for bits in [1u64, 2, 0x000f_ffff_ffff_ffff, 0x0010_0000_0000_0000, 0x8000_0000_0000_0001] {
        out.push(f64::from_bits(bits));
    }
    let mut state = 0x9e37_79b9_7f4a_7c15u64;
    for _ in 0..120 {
        state ^= state << 13;
        state ^= state >> 7;
        state ^= state << 17;
        out.push(f64::from_bits(state));
    }
    out
}

fn b(x: f32) -> Binary32 {
    Binary32::from_bits(x.to_bits())
}

fn d(x: f64) -> Binary64 {
    Binary64::from_bits(x.to_bits())
}

fn same32(got: Binary32, want: f32, what: &str) {
    let got = f32::from_bits(got.to_bits());
    assert!(
        got.to_bits() == want.to_bits() || (got.is_nan() && want.is_nan()),
        "{what}: got {got:e}, expected {want:e}"
    );
}

fn same64(got: Binary64, want: f64, what: &str) {
    let got = f64::from_bits(got.to_bits());
    assert!(
        got.to_bits() == want.to_bits() || (got.is_nan() && want.is_nan()),
        "{what}: got {got:e}, expected {want:e}"
    );
}

#[test]
fn single_precision_arithmetic_agrees_with_the_hardware() {
    let pool = pool32();
    for &x in &pool {
        for &y in &pool {
            same32(b(x).add(b(y)), x + y, &format!("{x:e} + {y:e}"));
            same32(b(x).sub(b(y)), x - y, &format!("{x:e} - {y:e}"));
            same32(b(x).mul(b(y)), x * y, &format!("{x:e} * {y:e}"));
            same32(b(x).div(b(y)), x / y, &format!("{x:e} / {y:e}"));
            assert_eq!(b(x).lt(b(y)), x < y);
            assert_eq!(b(x).le(b(y)), x <= y);
            assert_eq!(b(x).eq_value(b(y)), x == y);
            if x != y {
                same32(b(x).max(b(y)), x.max(y), &format!("max({x:e}, {y:e})"));
                same32(b(x).min(b(y)), x.min(y), &format!("min({x:e}, {y:e})"));
            }
        }
        same32(b(x).sqrt(), x.sqrt(), &format!("sqrt {x:e}"));
        same32(b(x).abs(), x.abs(), &format!("abs {x:e}"));
        same32(b(x).neg(), -x, &format!("neg {x:e}"));
        same64(b(x).to_binary64(), x as f64, &format!("widen {x:e}"));
        assert_eq!(b(x).is_nan(), x.is_nan());
        assert_eq!(b(x).is_finite(), x.is_finite());
        assert_eq!(b(x).floor_u64(), x.floor() as u64, "floor {x:e}");
        assert_eq!(b(x).ceil_u64(), x.ceil() as u64, "ceil {x:e}");
    }
}

#[test]
fn double_precision_arithmetic_agrees_with_the_hardware() {
    let pool = pool64();
    for &x in &pool {
        for &y in &pool {
            same64(d(x).add(d(y)), x + y, &format!("{x:e} + {y:e}"));
            same64(d(x).sub(d(y)), x - y, &format!("{x:e} - {y:e}"));
            same64(d(x).mul(d(y)), x * y, &format!("{x:e} * {y:e}"));
            same64(d(x).div(d(y)), x / y, &format!("{x:e} / {y:e}"));
            assert_eq!(d(x).lt(d(y)), x < y);
            assert_eq!(d(x).le(d(y)), x <= y);
            assert_eq!(d(x).eq_value(d(y)), x == y);
            assert_eq!(
                d(x).total_key() < d(y).total_key(),
                x.total_cmp(&y) == std::cmp::Ordering::Less
            );
        }
        same64(d(x).sqrt(), x.sqrt(), &format!("sqrt {x:e}"));
        same64(d(x).abs(), x.abs(), &format!("abs {x:e}"));
        same64(d(x).neg(), -x, &format!("neg {x:e}"));
        same32(d(x).to_binary32(), x as f32, &format!("narrow {x:e}"));
        assert_eq!(d(x).is_nan(), x.is_nan());
        assert_eq!(d(x).is_finite(), x.is_finite());
        assert_eq!(d(x).floor_u64(), x.floor() as u64, "floor {x:e}");
        assert_eq!(d(x).ceil_u64(), x.ceil() as u64, "ceil {x:e}");
    }
}

#[test]
fn whole_numbers_convert_as_the_hardware_converts_them() {
    for x in [
        0u64,
        1,
        7,
        16_777_216,
        16_777_217,
        16_777_219,
        (1 << 53) + 1,
        (1 << 53) + 3,
        u64::MAX,
        u64::MAX - 1024,
        u64::MAX - 1023,
    ] {
        same32(Binary32::from_u64(x), x as f32, &format!("{x}"));
        same64(Binary64::from_u64(x), x as f64, &format!("{x}"));
    }
}

#[test]
fn the_order_of_ranks_is_that_of_the_numbers() {
    let pool = pool32();
    for &x in &pool {
        for &y in &pool {
            if !x.is_nan() && !y.is_nan() {
                assert_eq!(b(x).ranks_below(b(y)), x < y);
            }
        }
        if !x.is_nan() {
            assert!(b(x).ranks_below(b(f32::NAN)), "{x:e}");
        }
    }
}
