use obamify::float::Double;
use obamify::text::append_decimal;

fn d(x: f64) -> Double {
    Double::from_bits(x.to_bits())
}

/// Numbers of every size, signs and special values among them.
fn samples() -> Vec<f64> {
    let mut out = vec![
        0.0,
        -0.0,
        1.0,
        -1.0,
        0.1,
        -2.5,
        1.0 / 3.0,
        f64::MAX,
        f64::MIN,
        f64::MIN_POSITIVE,
        f64::INFINITY,
        f64::NEG_INFINITY,
        5e-324,
        9007199254740993.0,
        4503599627370497.5,
        f64::NAN,
    ];
    let mut state: u64 = 0x9E37_79B9_7F4A_7C15;
    for _ in 0..120 {
        state ^= state << 13;
        state ^= state >> 7;
        state ^= state << 17;
        out.push(f64::from_bits(state));
        out.push((state as i64 as f64) / 1024.0);
        out.push((state % 1000) as f64 * 0.125);
    }
    out
}

fn agrees(soft: Double, hard: f64) -> bool {
    if hard.is_nan() {
        soft == Double::Nan
    } else if hard == 0.0 {
        matches!(soft, Double::Fin { mant: 0, .. })
    } else {
        soft == d(hard)
    }
}

#[test]
fn sums_and_differences_agree_with_the_hardware() {
    let all = samples();
    for &x in &all {
        for &y in &all {
            assert!(agrees(d(x).add(d(y)), x + y), "{x} + {y}");
            assert!(agrees(d(x).sub(d(y)), x - y), "{x} - {y}");
        }
    }
}

#[test]
fn comparisons_agree_with_the_hardware() {
    let all = samples();
    for &x in &all {
        assert!(agrees(d(x).neg(), -x));
        for &y in &all {
            assert_eq!(d(x).gt(d(y)), x > y);
            assert!(agrees(d(x).greatest(d(y)), x.max(y)), "max {x} {y}");
            assert_eq!(d(x).same(d(y)), x == y);
        }
    }
}

#[test]
fn quotients_agree_with_the_hardware() {
    for &x in &samples() {
        for k in 1..=16u64 {
            assert!(agrees(d(x).div_small(k), x / k as f64), "{x} / {k}");
        }
        if x.is_finite() && x >= f64::MIN_POSITIVE && x < 1e280 {
            assert!(agrees(d(x).reciprocal(), 1.0 / x), "1 / {x}");
        }
    }
    for n in [0usize, 1, 2, 3, 6, 4095, 65535, 1 << 40] {
        assert!(agrees(Double::one_over_next(n), 1.0 / (n as f64 + 1.0)));
    }
}

#[test]
fn integers_round_as_the_hardware_does() {
    for c in [0i64, 1, -1, i64::MAX, i64::MIN, 9007199254740993, -9007199254740995, 123456789] {
        assert!(agrees(Double::from_i64(c), c as f64));
    }
    for c in [0usize, 7, usize::MAX, (1 << 53) + 1] {
        assert!(agrees(Double::from_usize(c), c as f64));
    }
    assert_eq!(Double::zero(), d(0.0));
    assert_eq!(Double::one(), d(1.0));
    assert_eq!(Double::lowest(), d(f64::MIN));
    assert_eq!(d(f64::NAN), Double::Nan);
    assert_eq!(d(f64::NEG_INFINITY), Double::Inf { negative: true });
}

#[test]
fn numerals_have_no_leading_zeros() {
    for n in [0u64, 7, 10, 99, 100, 4096, u64::MAX] {
        let mut s = "n=".to_string();
        append_decimal(&mut s, n);
        assert_eq!(s, format!("n={n}"));
    }
}

fn scrambled(x: u64) -> u64 {
    (x ^ (x >> 32)).wrapping_mul(4997996261773036203)
}

#[test]
fn the_generator_draws_by_the_stated_formulas() {
    for seed in [0u64, 1, 12345, 42424, 98765, u64::MAX] {
        let mut rng = frand::Rand::with_seed(seed);
        let h = scrambled(scrambled(seed));
        let mut state = h ^ (h >> 32);
        for n in [1u64, 7, 16384, 1 << 40] {
            state = state.wrapping_add(12964901029718341801);
            let x = state.wrapping_mul(149988720821803190 ^ state);
            assert_eq!(rng.gen_range(0..n), (x ^ (x >> 32)) % n);
            state = state.wrapping_add(12964901029718341801);
            let y = (state.wrapping_mul(18162115696561729952 ^ state) >> 32) as u32;
            assert_eq!(rng.gen_range(-32i16..33), -32 + ((y % 65536) % 65) as i16);
            state = state.wrapping_add(12964901029718341801);
            let y = (state.wrapping_mul(18162115696561729952 ^ state) >> 32) as u32;
            assert_eq!(rng.gen_range(-9i32..10), -9 + (y % 19) as i32);
            state = state.wrapping_add(12964901029718341801);
            let y = (state.wrapping_mul(18162115696561729952 ^ state) >> 32) as u32;
            assert_eq!(rng.gen_range(0..1000u32), y % 1000);
        }
    }
}
