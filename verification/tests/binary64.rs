use plurifold::binary64::Binary64;

fn binary(x: f64) -> Binary64 {
    Binary64::from_bits(x.to_bits())
}

/// Doubles of all kinds: zeros, subnormals, ordinary numbers, infinities and not-a-numbers.
fn samples() -> Vec<f64> {
    let mut numbers = vec![
        0.0,
        -0.0,
        1.0,
        -1.0,
        0.1,
        0.2,
        0.3,
        1.5,
        3.7,
        20.0,
        1_000_000.0,
        106_250.0,
        1e300,
        -1e300,
        1e-300,
        f64::MAX,
        f64::MIN,
        f64::MIN_POSITIVE,
        f64::MIN_POSITIVE / 2.0,
        f64::from_bits(1),
        f64::from_bits(0x000f_ffff_ffff_ffff),
        f64::EPSILON,
        1.0 + f64::EPSILON,
        1.0 - f64::EPSILON / 2.0,
        9_007_199_254_740_993.0,
        f64::INFINITY,
        f64::NEG_INFINITY,
        f64::NAN,
    ];
    let mut bits: u64 = 0x9e37_79b9_7f4a_7c15;
    for _ in 0..60 {
        bits = bits.wrapping_mul(6_364_136_223_846_793_005).wrapping_add(1_442_695_040_888_963_407);
        numbers.push(f64::from_bits(bits));
        numbers.push(f64::from_bits((bits >> 12) | 0x3ff0_0000_0000_0000));
    }
    numbers
}

fn agree(ours: Binary64, theirs: f64) -> bool {
    let number = f64::from_bits(ours.to_bits());
    (number.is_nan() && theirs.is_nan()) || number.to_bits() == theirs.to_bits()
}

#[test]
fn arithmetic_is_that_of_the_machine() {
    for a in samples() {
        for b in samples() {
            assert!(agree(binary(a).add(binary(b)), a + b), "{a:e} + {b:e}");
            assert!(agree(binary(a).sub(binary(b)), a - b), "{a:e} - {b:e}");
            assert!(agree(binary(a).mul(binary(b)), a * b), "{a:e} * {b:e}");
            assert!(agree(binary(a).div(binary(b)), a / b), "{a:e} / {b:e}");
        }
    }
}

#[test]
fn comparisons_are_those_of_the_machine() {
    for a in samples() {
        for b in samples() {
            assert_eq!(binary(a).lt(binary(b)), a < b, "{a:e} < {b:e}");
            assert_eq!(binary(a).le(binary(b)), a <= b, "{a:e} <= {b:e}");
            assert_eq!(
                binary(a).precedes(binary(b)),
                a.total_cmp(&b) == std::cmp::Ordering::Less,
                "{a:e} before {b:e}"
            );
        }
    }
}

#[test]
fn extremes_are_those_of_the_machine() {
    for a in samples() {
        for b in samples() {
            if a != b {
                assert!(agree(binary(a).max(binary(b)), a.max(b)), "max of {a:e} and {b:e}");
                assert!(agree(binary(a).min(binary(b)), a.min(b)), "min of {a:e} and {b:e}");
            }
        }
        assert!(agree(
            binary(a).clamp(binary(0.0), binary(1.0)),
            a.clamp(0.0, 1.0)
        ));
    }
}

#[test]
fn kinds_are_told_apart() {
    for a in samples() {
        assert_eq!(binary(a).is_nan(), a.is_nan());
        assert_eq!(binary(a).is_finite(), a.is_finite());
        assert_eq!(binary(a).neg().to_bits(), (-a).to_bits());
    }
}

#[test]
fn integers_are_rounded_to_the_nearest_double() {
    let mut n: u64 = 1;
    for _ in 0..200 {
        n = n.wrapping_mul(6_364_136_223_846_793_005).wrapping_add(12_345);
        for shift in [0, 7, 11, 12, 40, 63] {
            let value = n >> shift;
            assert_eq!(Binary64::from_u64(value).to_bits(), (value as f64).to_bits());
        }
    }
    assert_eq!(Binary64::from_u64(u64::MAX).to_bits(), (u64::MAX as f64).to_bits());
    assert_eq!(Binary64::from_u64(0).to_bits(), 0);
}
