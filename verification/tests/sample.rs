//! Scaling samples to integers and back.

use audio_file::sample::{dyadic_bits, ratio_bits, to_int, widen};

/// What scaling comes to in floating point.
fn scaled(sample: f64, max: f64) -> i32 {
    let sample = sample.clamp(-1.0, 1.0);
    (sample * max).round().clamp(-max, max) as i32
}

/// Integer arithmetic gives exactly what floating point gives, on every scale.
#[test]
fn scaling_is_what_floating_point_makes_of_it() {
    let mut state: u64 = 0x9e37_79b9_7f4a_7c15;
    for _ in 0..200_000 {
        state ^= state << 13;
        state ^= state >> 7;
        state ^= state << 17;
        let sample = (state as i64 as f64) / 9.3e18;
        for max in [0x7fu32, 0x7fff, 0x7fff_ffff] {
            assert_eq!(to_int(sample.to_bits(), max), scaled(sample, f64::from(max)), "{sample}");
        }
    }
    for sample in [
        0.0f64,
        -0.0,
        0.5,
        -0.5,
        1.0,
        -1.0,
        1.0 - f64::EPSILON / 2.0,
        f64::MIN_POSITIVE,
        5e-324,
        2.0,
        -1e300,
        f64::INFINITY,
        f64::NEG_INFINITY,
        f64::NAN,
        1.5 / 127.0,
        -2.5 / 127.0,
        0.5 / 32_767.0,
        0.499_999_999_999_999_94 / 2_147_483_647.0,
    ] {
        for max in [0x7fu32, 0x7fff, 0x7fff_ffff] {
            assert_eq!(to_int(sample.to_bits(), max), scaled(sample, f64::from(max)), "{sample}");
        }
    }
}

/// Every value lands on the scale, and flipping the sign of a sample flips the sign of
/// the integer.
#[test]
fn the_scale_is_symmetric() {
    for i in 0..=1000 {
        let sample = f64::from(i) / 500.0;
        for max in [0x7fu32, 0x7fff, 0x7fff_ffff] {
            let value = to_int(sample.to_bits(), max);
            assert!(value <= max as i32);
            assert_eq!(to_int((-sample).to_bits(), max), -value);
        }
    }
    assert_eq!(to_int(1.0f64.to_bits(), 0x7fff), 32_767);
    assert_eq!(to_int((-3.0f64).to_bits(), 0x7fff), -32_767);
    assert_eq!(to_int(f64::NAN.to_bits(), 0x7fff), 0);
}

/// A smaller sample never becomes a larger integer, and no integer is a whole step or
/// more away from the scaled sample.
#[test]
fn scaling_keeps_the_order() {
    let mut samples: Vec<f64> = (-3000..=3000).map(|i| f64::from(i) / 2500.0).collect();
    samples.extend([
        f64::NEG_INFINITY,
        f64::INFINITY,
        -0.0,
        5e-324,
        -5e-324,
        1.0 - f64::EPSILON / 2.0,
        0.5 + 2f64.powi(-22) + 2f64.powi(-53),
    ]);
    samples.sort_by(f64::total_cmp);
    for max in [0x7fu32, 0x7fff, 0x7fff_ffff] {
        let values: Vec<i32> = samples.iter().map(|s| to_int(s.to_bits(), max)).collect();
        for pair in values.windows(2) {
            assert!(pair[0] <= pair[1]);
        }
        for (sample, value) in samples.iter().zip(&values) {
            if sample.abs() < 1.0 {
                assert!((f64::from(*value) - sample * f64::from(max)).abs() < 1.0, "{sample}");
            }
        }
    }
}

/// Scaling a sample to an integer and back moves it by less than two steps.
#[test]
fn scaling_back_is_close() {
    for (max, k) in [(0x7fu32, 7u32), (0x7fff, 15), (0x7fff_ffff, 31)] {
        let step = 2f64.powi(-(k as i32));
        for i in -2500..=2500 {
            let sample = f64::from(i) / 2500.0;
            let back = f64::from_bits(ratio_bits(to_int(sample.to_bits(), max), k));
            assert!((back - sample).abs() < 2.0 * step, "{sample} {back}");
        }
    }
    assert_eq!(f64::from_bits(ratio_bits(to_int(1.0f64.to_bits(), 0x7f), 7)), 127.0 / 128.0);
}

/// A whole number over a power of two is the double with that value.
#[test]
fn ratios_are_doubles() {
    for v in [0, 1, -1, 3, -17, 8_388_607, i32::MAX, i32::MIN] {
        for k in [0u32, 7, 15, 23, 31, 149] {
            let expected = f64::from(v) / 2f64.powi(k as i32);
            assert_eq!(f64::from_bits(ratio_bits(v, k)), expected, "{v} {k}");
        }
    }
    assert_eq!(dyadic_bits(true, 0, 3), (-0.0f64).to_bits());
    assert_eq!(dyadic_bits(false, (1 << 53) - 1, 53), (1.0 - f64::EPSILON / 2.0).to_bits());
}

/// A single keeps its value as a double.
#[test]
fn singles_are_widened() {
    for bits in (0..=u32::MAX).step_by(65_521) {
        let single = f32::from_bits(bits);
        let double = f64::from_bits(widen(bits));
        if single.is_nan() {
            assert!(double.is_nan());
            assert_eq!(single.is_sign_negative(), double.is_sign_negative());
        } else {
            assert_eq!(double.to_bits(), f64::from(single).to_bits());
        }
    }
}
