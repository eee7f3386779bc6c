use zkml_prover::binary64::Binary64;
use zkml_prover::features::scale_features;
use zkml_prover::quantization::{
    max_quantization_error, quantization_error_report, QuantizationErrorReport, QuantizationReport,
};
use zkml_prover::wide::Wide;

fn binary64(x: f64) -> Binary64 {
    Binary64 { bits: x.to_bits() }
}

fn float(x: Binary64) -> f64 {
    f64::from_bits(x.bits)
}

fn all(values: &[f64]) -> Vec<Binary64> {
    values.iter().map(|x| binary64(*x)).collect()
}

fn reconstructed(values: &[f64]) -> Vec<Binary64> {
    values
        .iter()
        .map(|x| binary64((x * 65536.0).round() as i64 as f64 / 65536.0))
        .collect()
}

fn same(ours: Binary64, theirs: f64) -> bool {
    ours.bits == theirs.to_bits() || (float(ours).is_nan() && theirs.is_nan())
}

fn next_random(state: &mut u64) -> u64 {
    *state = state.wrapping_mul(6364136223846793005).wrapping_add(1442695040888963407);
    let x = *state ^ (*state >> 29);
    x.wrapping_mul(0xBF58476D1CE4E5B9) ^ (x >> 32)
}

fn samples() -> Vec<f64> {
    let mut values = vec![
        0.0, -0.0, 1.0, -1.0, 0.1, 1e-4, 2.5, 65536.0, 1.0 / 3.0, 1e300, -1e300, 1e-300, 5e-324,
        -5e-324, f64::MAX, f64::MIN, f64::MIN_POSITIVE, f64::EPSILON, f64::INFINITY,
        f64::NEG_INFINITY, f64::NAN, 9007199254740992.0, 9007199254740993.0, 4503599627370496.5,
        2.2250738585072011e-308, 1.5e-323, 3.0, 7.0, 1e22, 1.7e308, 140737488355328.0,
        -140737488355328.0, 0.99, 1.0000000000000002,
    ];
    let mut state = 7;
    for _ in 0..60 {
        values.push(f64::from_bits(next_random(&mut state)));
    }
    for _ in 0..60 {
        let x = next_random(&mut state);
        let near = 1023 - 40 + (x >> 57) % 80;
        values.push(f64::from_bits((x & 0x800F_FFFF_FFFF_FFFF) | (near << 52)));
    }
    for _ in 0..20 {
        values.push(f64::from_bits(next_random(&mut state) >> 12));
    }
    values
}

#[test]
fn differences_sums_and_quotients_match_the_machine() {
    let values = samples();
    for a in values.iter() {
        for b in values.iter() {
            let (x, y) = (binary64(*a), binary64(*b));
            assert!(same(x.minus(y), a - b), "{} - {}", a, b);
            assert!(same(x.plus(y), a + b), "{} + {}", a, b);
            assert!(same(x.divided_by(y), a / b), "{} / {}", a, b);
            assert_eq!(x.is_less(y), a < b);
            assert_eq!(x == y, a == b);
        }
    }
}

#[test]
fn neighbours_match_the_machine() {
    let mut state = 99;
    for _ in 0..20000 {
        let bits = next_random(&mut state) & 0x7FFF_FFFF_FFFF_FFFF;
        let shift = (next_random(&mut state) % 60) << 52;
        let a = f64::from_bits(bits);
        let b = f64::from_bits(bits.wrapping_sub(shift).wrapping_add(next_random(&mut state) % 5));
        assert!(same(binary64(a).minus(binary64(b)), a - b), "{} - {}", a, b);
        assert!(same(binary64(a).plus(binary64(b)), a + b), "{} + {}", a, b);
        assert!(same(binary64(a).divided_by(binary64(b)), a / b), "{} / {}", a, b);
    }
}

#[test]
fn conversions_match_the_machine() {
    let mut state = 1;
    let mut numbers = vec![
        0,
        1,
        9007199254740991,
        9007199254740992,
        9007199254740993,
        9007199254740995,
        u64::MAX,
        u64::MAX - 1023,
        u64::MAX - 1024,
        u64::MAX - 1025,
        1 << 63,
    ];
    for _ in 0..2000 {
        let x = next_random(&mut state);
        numbers.push(x >> (x % 64));
    }
    for n in numbers {
        assert!(same(Binary64::from_u64(n), n as f64), "{}", n);
        let i = n as i64;
        assert!(same(Binary64::from_scaled(i), i as f64 / 65536.0), "{}", i);
    }
    for x in samples() {
        assert_eq!(binary64(x).to_scaled(), (x * 65536.0) as i64, "{}", x);
        assert_eq!(binary64(x).is_finite(), x.is_finite());
        assert!(same(binary64(x).abs(), x.abs()));
        assert!(same(binary64(x).negated(), -x));
    }
}

#[test]
fn small_parts_come_back() {
    for n in [0, 1, -1, 65536, -65537, 9007199254740992, -9007199254740992, i64::MIN] {
        assert_eq!(Binary64::from_scaled(n).to_scaled(), n);
    }
    assert_eq!(Binary64::from_scaled(9007199254740993).to_scaled(), 9007199254740992);
    assert_eq!(Binary64::from_scaled(i64::MAX).to_scaled(), i64::MAX);
}

#[test]
fn wide_numbers() {
    let wide = Wide::product(u128::MAX, u64::MAX);
    assert_eq!(wide.high, (u64::MAX as u128) * (u64::MAX as u128) + (u64::MAX as u128 - 1));
    assert_eq!(wide.low, 1);
    let (half, rest) = wide.plus(u64::MAX).divide(2);
    assert_eq!(rest, 0);
    assert_eq!(half.low, 0);
    assert_eq!(half.high, wide.high / 2 + 1);
    assert_eq!(Wide { high: 3, low: 7 }.minus(7), Wide { high: 3, low: 0 });
    assert_eq!(Wide { high: 3, low: 7 }.minus(8), Wide { high: 2, low: u64::MAX });
    let (tenth, rest) = Wide { high: 3, low: 7 }.divide(10);
    assert_eq!((tenth.high, tenth.low, rest), (0, 5534023222112865485, 5));
}

#[test]
fn error_within_tolerance() {
    let values = vec![0.1, -0.25, std::f64::consts::PI, 100.5, -42.0];
    assert!(float(max_quantization_error(&all(&values), &reconstructed(&values))) < 1e-4);
}

#[test]
fn report_within_tolerance() {
    let values = [0.1, 0.2, 0.3, -0.4];
    let report = quantization_error_report(&all(&values), &reconstructed(&values));
    assert_eq!(report.count, 4);
    assert!(float(report.max_error) < 1e-4);
}

#[test]
fn largest_error_is_found() {
    let values = [1.0, f64::NAN, -3.0, 2.0];
    let others = [1.5, 1.0, -1.0, 3.0];
    assert_eq!(float(max_quantization_error(&all(&values), &all(&others))), 2.0);
    assert_eq!(float(max_quantization_error(&[], &[])), 0.0);
    let report = quantization_error_report(&all(&values), &all(&others));
    assert!(report == QuantizationErrorReport { count: 4, max_error: binary64(2.0) });
    assert!(report != QuantizationErrorReport { count: 3, max_error: binary64(2.0) });
}

#[test]
fn reconstruction_costs_at_most_one_part() {
    let values = vec![
        0.0, 1.0, -1.0, 0.5, -0.5, 0.1, -0.1, 0.25, -0.25, 100.0, -100.0, 0.01, -0.01, 3.14159,
        -3.14159, 0.12345, 5e-324, 137438953472.5, 123456789012345.0, -140737488355328.0,
    ];
    for rounded in [f64::round, f64::floor, f64::ceil, f64::trunc] {
        let back: Vec<Binary64> = values
            .iter()
            .map(|x| Binary64::from_scaled(rounded(x * 65536.0) as i64))
            .collect();
        let max = float(max_quantization_error(&all(&values), &back));
        assert!(max <= 1.0 / 65536.0);
    }
    assert_eq!(binary64(1.0).to_scaled(), 65536);
}

#[test]
fn reports_compare_by_number() {
    let report = QuantizationReport {
        count: 1,
        max_error: binary64(0.0),
        mean_deviation: binary64(0.5),
        agreement: binary64(1.0),
    };
    let mut other = report;
    other.max_error = binary64(-0.0);
    assert!(report == other);
    other.mean_deviation = binary64(f64::NAN);
    assert!(other != other.clone());
}

#[test]
fn scaling_preserves_order() {
    let raw = vec![10.0, -5.0, 3.0, 20.0];
    let scaled = scale_features(&all(&raw));
    let min_idx = 1;
    let max_idx = 3;
    assert!((float(scaled[min_idx]) - 0.0).abs() < 1e-9);
    assert!((float(scaled[max_idx]) - 1.0).abs() < 1e-9);
    for i in 0..4 {
        for j in 0..4 {
            if raw[i] <= raw[j] {
                assert!(float(scaled[i]) <= float(scaled[j]));
            }
        }
    }
}

#[test]
fn scaling_matches_the_formula() {
    let raw = vec![0.1, 0.7, -0.3, 12.5, 1e-9, 4.0];
    let scaled = scale_features(&all(&raw));
    assert_eq!(scaled.len(), raw.len());
    for (x, y) in raw.iter().zip(scaled.iter()) {
        assert!(same(*y, (x - -0.3) / (12.5 - -0.3)));
        assert!(0.0 <= float(*y) && float(*y) <= 1.0);
    }
}

#[test]
fn features_that_are_far_apart_are_scaled_by_halves() {
    let scaled = scale_features(&all(&[f64::MAX, -f64::MAX]));
    assert_eq!(float(scaled[0]), 1.0);
    assert_eq!(float(scaled[1]), 0.0);
    let raw = [1.5e308, -1.2e308, 0.0, 5e-324, -1e300, 1.0e308];
    let scaled = scale_features(&all(&raw));
    for (x, y) in raw.iter().zip(scaled.iter()) {
        let (low, high) = (-1.2e308 / 2.0, 1.5e308 / 2.0);
        assert!(same(*y, (x / 2.0 - low) / (high - low)));
        assert!(0.0 <= float(*y) && float(*y) <= 1.0);
    }
    assert_eq!(float(scaled[0]), 1.0);
    assert_eq!(float(scaled[1]), 0.0);
}

#[test]
fn constant_features_become_zeros() {
    for x in [0.0, -0.0, 3.5, -1e300, f64::INFINITY, f64::NEG_INFINITY] {
        let scaled = scale_features(&all(&[x, x, x]));
        assert_eq!(scaled.len(), 3);
        for y in scaled {
            assert_eq!(y.bits, 0);
        }
    }
    assert!(scale_features(&[]).is_empty());
    for y in scale_features(&all(&[0.0, -0.0])) {
        assert_eq!(y.bits, 0);
    }
    let apart = scale_features(&all(&[f64::NEG_INFINITY, f64::INFINITY]));
    assert!(apart.iter().all(|y| float(*y).is_nan()));
    let mixed = scale_features(&all(&[f64::NAN, 1.0, 3.0]));
    assert!(float(mixed[0]).is_nan());
    assert_eq!(float(mixed[1]), 0.0);
    assert_eq!(float(mixed[2]), 1.0);
}
