use lob_lab::bootstrap::{can_bootstrap, paired_bootstrap, SplitMix64};
use lob_lab::double::Double;

fn d(x: f64) -> Double {
    Double::from_bits(x.to_bits())
}

fn interval(data: &[f64], resamples: usize, seed: u64) -> (f64, f64) {
    let data: Vec<Double> = data.iter().map(|x| d(*x)).collect();
    assert!(can_bootstrap(&data, resamples, seed));
    let (lo, hi) = paired_bootstrap(&data, resamples, seed);
    (f64::from_bits(lo.to_bits()), f64::from_bits(hi.to_bits()))
}

#[test]
fn a_constant_sample_has_a_degenerate_interval() {
    let (lo, hi) = interval(&[1.0, 1.0, 1.0, 1.0], 1_000, 7);
    assert!((lo - 1.0).abs() < 1e-12);
    assert!((hi - 1.0).abs() < 1e-12);
}

#[test]
fn a_sample_centred_on_zero_has_an_interval_containing_zero() {
    let data: Vec<f64> = (-50..=50).map(|i| i as f64).collect();
    let (lo, hi) = interval(&data, 2_000, 7);
    assert!(lo < 0.0 && hi > 0.0);
}

#[test]
fn a_shifted_sample_has_an_interval_that_excludes_zero() {
    let data: Vec<f64> = (0..100).map(|i| 10.0 + (i % 5) as f64 * 0.1).collect();
    let (lo, hi) = interval(&data, 2_000, 7);
    assert!(lo > 0.0 && hi > lo);
}

#[test]
fn the_same_seed_gives_the_same_interval() {
    let data: Vec<f64> = (0..40).map(|i| (i as f64).sin()).collect();
    assert_eq!(interval(&data, 500, 42), interval(&data, 500, 42));
}

#[test]
fn an_empty_sample_is_not_an_interval() {
    let (lo, hi) = interval(&[], 100, 1);
    assert!(lo.is_nan() && hi.is_nan());
}

#[test]
fn no_resamples_are_not_an_interval() {
    let (lo, hi) = interval(&[1.0], 0, 1);
    assert!(lo.is_nan() && hi.is_nan());
}

#[test]
fn the_stream_is_that_of_splitmix64() {
    let mut rng = SplitMix64::new(1234567);
    assert_eq!(rng.next_u64(), 6457827717110365317);
    assert_eq!(rng.next_u64(), 3203168211198807973);
    assert_eq!(rng.next_u64(), 9817491932198370423);
    let mut rng = SplitMix64::new(0);
    assert_eq!(rng.below(1), 0);
    for n in 1..50usize {
        assert!(rng.below(n) < n);
    }
}

#[test]
fn the_interval_is_that_of_the_hardware() {
    let data: Vec<f64> = (0..30).map(|i| (i as f64 * 1.7).sin() * 3.0 - 0.25).collect();
    let (resamples, seed) = (400usize, 99u64);
    let mut rng = SplitMix64::new(seed);
    let mut means = Vec::new();
    for _ in 0..resamples {
        let mut sum = 0.0;
        for _ in 0..data.len() {
            sum += data[rng.below(data.len())];
        }
        means.push(sum / data.len() as f64);
    }
    means.sort_by(|a, b| a.partial_cmp(b).unwrap());
    let lo = means[(resamples as f64 * 0.025) as usize];
    let hi = means[((resamples as f64 * 0.975) as usize).min(resamples - 1)];
    assert_eq!(interval(&data, resamples, seed), (lo, hi));
}

#[test]
fn means_without_an_order_are_told_beforehand() {
    let data = vec![d(f64::NAN), d(1.0)];
    assert!(!can_bootstrap(&data, 50, 3));
    assert!(can_bootstrap(&data, 0, 3));
    let (lo, hi) = paired_bootstrap(&vec![d(f64::NAN)], 1, 3);
    assert!(f64::from_bits(lo.to_bits()).is_nan() && f64::from_bits(hi.to_bits()).is_nan());
}

#[test]
fn doubling_the_sample_doubles_the_interval() {
    let data: Vec<f64> = (0..40).map(|i| (i as f64).sin() * 3.7).collect();
    let twice: Vec<f64> = data.iter().map(|x| x * 2.0).collect();
    let (lo, hi) = interval(&data, 500, 42);
    assert_eq!(interval(&twice, 500, 42), (2.0 * lo, 2.0 * hi));
}

#[test]
fn shifting_the_sample_shifts_the_interval() {
    let data: Vec<f64> = (0..40).map(|i| (i as f64).sin() * 3.7).collect();
    let shifted: Vec<f64> = data.iter().map(|x| x + 12.5).collect();
    let (lo, hi) = interval(&data, 500, 42);
    let (a, b) = interval(&shifted, 500, 42);
    assert!((a - (lo + 12.5)).abs() < 1e-12);
    assert!((b - (hi + 12.5)).abs() < 1e-12);
}

#[test]
fn the_interval_lies_within_the_sample() {
    let data: Vec<f64> = (0..40).map(|i| (i as f64).sin() * 3.7).collect();
    let low = data.iter().copied().fold(f64::INFINITY, f64::min);
    let high = data.iter().copied().fold(f64::NEG_INFINITY, f64::max);
    for seed in 0..20 {
        let (lo, hi) = interval(&data, 100, seed);
        assert!(low <= lo && lo <= hi && hi <= high);
    }
}
