use lob_lab::bootstrap::SplitMix64;
use lob_lab::double::Double;

fn d(x: f64) -> Double {
    Double::from_bits(x.to_bits())
}

fn f(x: Double) -> f64 {
    f64::from_bits(x.to_bits())
}

fn same(a: f64, b: f64) -> bool {
    (a.is_nan() && b.is_nan()) || a.to_bits() == b.to_bits()
}

const SPECIAL: &[f64] = &[
    0.0,
    -0.0,
    1.0,
    -1.0,
    0.5,
    1.5,
    2.5,
    -2.5,
    3.5e-4,
    1e9,
    -1e17,
    1e300,
    -1e300,
    1e-300,
    5e-324,
    -5e-324,
    2.2250738585072014e-308,
    1.7976931348623157e308,
    -1.7976931348623157e308,
    9007199254740993.0,
    9223372036854775807.0,
    f64::INFINITY,
    f64::NEG_INFINITY,
    f64::NAN,
];

/// Numbers of every size, and some that are near each other.
fn numbers() -> Vec<f64> {
    let mut rng = SplitMix64::new(2026);
    let mut out = SPECIAL.to_vec();
    for _ in 0..250 {
        out.push(f64::from_bits(rng.next_u64()));
        out.push((rng.below(1_000_000) as f64 - 500_000.0) / 1_024.0);
        out.push(rng.below(1 << 60) as f64);
    }
    out
}

#[test]
fn arithmetic_is_that_of_the_hardware() {
    let xs = numbers();
    for &a in &xs {
        for &b in &xs {
            assert!(same(f(d(a).add(d(b))), a + b), "{a:e} + {b:e}");
            assert!(same(f(d(a).sub(d(b))), a - b), "{a:e} - {b:e}");
            assert!(same(f(d(a).mul(d(b))), a * b), "{a:e} * {b:e}");
            assert!(same(f(d(a).div(d(b))), a / b), "{a:e} / {b:e}");
        }
    }
}

#[test]
fn comparisons_are_those_of_the_hardware() {
    let xs = numbers();
    for &a in &xs {
        for &b in &xs {
            assert_eq!(d(a).lt(d(b)), a < b);
            assert_eq!(d(a).le(d(b)), a <= b);
            assert_eq!(d(a).eq(d(b)), a == b);
            if a != b {
                assert!(same(f(d(a).min(d(b))), a.min(b)), "min({a:e}, {b:e})");
                assert!(same(f(d(a).max(d(b))), a.max(b)), "max({a:e}, {b:e})");
            }
        }
    }
}

#[test]
fn conversions_are_those_of_the_hardware() {
    for &a in &numbers() {
        assert_eq!(d(a).floor_i64(), a.floor() as i64, "floor {a:e}");
        assert_eq!(d(a).round_i64(), a.round() as i64, "round {a:e}");
        assert_eq!(d(a).trunc_u64(), a as u64, "trunc {a:e}");
        assert!(same(f(d(a).neg()), -a));
        assert!(same(f(d(a).abs()), a.abs()));
        assert_eq!(d(a).finite(), a.is_finite());
        assert_eq!(d(a).infinite(), a.is_infinite());
        assert_eq!(d(a).not_a_number(), a.is_nan());
    }
    let mut rng = SplitMix64::new(5);
    for _ in 0..2_000 {
        let n = rng.next_u64() >> rng.below(64);
        assert!(same(f(Double::from_u64(n)), n as f64), "{n}");
        let m = (rng.next_u64() as i64) >> rng.below(64);
        assert!(same(f(Double::from_i64(m)), m as f64), "{m}");
        let wide = m as i128 + rng.next_u64() as i64 as i128;
        assert!(same(f(Double::from_wide(wide)), wide as f64), "{wide}");
    }
    for m in [i64::MIN, i64::MAX, 0, -1] {
        assert!(same(f(Double::from_i64(m)), m as f64));
    }
    let lowest = 2 * i64::MIN as i128;
    assert!(same(f(Double::from_wide(lowest)), lowest as f64));
    assert!(same(f(Double::zero()), 0.0));
}

#[test]
fn ties_round_to_even() {
    let one = 1.0f64;
    let half_ulp = f64::EPSILON / 2.0;
    assert_eq!(f(d(one).add(d(half_ulp))), 1.0);
    assert_eq!(f(d(one + f64::EPSILON).add(d(half_ulp))), 1.0 + 2.0 * f64::EPSILON);
}
