use lob_lab::book::{Qty, Tick};
use lob_lab::double::Double;
use lob_lab::ofi::{regress, Ofi, Touch};

fn d(x: f64) -> Double {
    Double::from_bits(x.to_bits())
}

fn f(x: Double) -> f64 {
    f64::from_bits(x.to_bits())
}

fn ds(xs: &[f64]) -> Vec<Double> {
    xs.iter().map(|x| d(*x)).collect()
}

fn touch(bid: Tick, bid_qty: Qty, ask: Tick, ask_qty: Qty) -> Touch {
    Touch { bid, bid_qty, ask, ask_qty }
}

fn contribution(before: Touch, after: Touch) -> f64 {
    f(Ofi::contribution(before, after))
}

#[test]
fn size_joining_the_bid_is_demand() {
    let before = touch(100, 50, 101, 50);
    let after = touch(100, 80, 101, 50);
    assert_eq!(contribution(before, after), 30.0);
}

#[test]
fn size_leaving_the_bid_is_supply() {
    let before = touch(100, 50, 101, 50);
    let after = touch(100, 20, 101, 50);
    assert_eq!(contribution(before, after), -30.0);
}

#[test]
fn a_better_bid_counts_all_of_its_size() {
    let before = touch(100, 50, 101, 50);
    let after = touch(101, 10, 102, 50);
    // The whole new bid is demand; the ask moved up, so the old ask size
    // is demand too: nobody is selling there any more.
    assert_eq!(contribution(before, after), 10.0 + 50.0);
}

#[test]
fn the_book_is_antisymmetric() {
    // Mirror the book around the mid and the imbalance changes sign.
    let a = contribution(touch(100, 50, 101, 50), touch(100, 80, 101, 50));
    let b = contribution(touch(100, 50, 101, 50), touch(100, 50, 101, 80));
    assert_eq!(a, -b);
}

#[test]
fn a_worse_touch_counts_what_is_gone() {
    assert_eq!(contribution(touch(100, 50, 101, 50), touch(99, 80, 101, 50)), -50.0);
    assert_eq!(contribution(touch(100, 50, 102, 50), touch(100, 50, 101, 20)), -20.0);
}

#[test]
fn an_untouched_book_contributes_nothing() {
    let t = touch(100, 50, 101, 50);
    assert_eq!(contribution(t, t), 0.0);
}

#[test]
fn the_widest_change_of_size_does_not_overflow() {
    let x = contribution(touch(1, i64::MIN, 2, 0), touch(1, i64::MAX, 2, 0));
    assert_eq!(x, 18446744073709551615.0);
}

#[test]
fn the_window_forgets() {
    let mut ofi = Ofi::new(1_000);
    ofi.update(0, touch(100, 50, 101, 50));
    assert_eq!(f(ofi.update(100, touch(100, 90, 101, 50))), 40.0);
    assert_eq!(f(ofi.update(500, touch(100, 110, 101, 50))), 60.0);
    // At t = 1200 the first contribution is older than the window.
    assert_eq!(f(ofi.update(1_200, touch(100, 110, 101, 50))), 20.0);
    assert_eq!(f(ofi.value()), 20.0);
}

#[test]
fn the_first_update_has_nothing_to_compare_against() {
    let mut ofi = Ofi::new(1_000);
    assert_eq!(f(ofi.update(0, touch(100, 50, 101, 50))), 0.0);
}

#[test]
fn a_reset_starts_over() {
    let mut ofi = Ofi::new(1_000);
    ofi.update(0, touch(100, 50, 101, 50));
    ofi.update(1, touch(100, 90, 101, 50));
    ofi.reset();
    assert_eq!(f(ofi.value()), 0.0);
    assert_eq!(f(ofi.update(2, touch(100, 10, 101, 50))), 0.0);
}

#[test]
fn regression_recovers_a_known_slope() {
    let x: Vec<f64> = (0..100).map(|i| i as f64).collect();
    let y: Vec<f64> = x.iter().map(|v| 3.0 * v + 7.0).collect();
    let (slope, r2, n) = regress(&ds(&x), &ds(&y));
    assert!((f(slope) - 3.0).abs() < 1e-9);
    assert!((f(r2) - 1.0).abs() < 1e-9);
    assert_eq!(n, 100);
}

#[test]
fn regression_on_noise_explains_nothing() {
    let x: Vec<f64> = (0..200).map(|i| ((i * 37) % 101) as f64).collect();
    let y: Vec<f64> = (0..200).map(|i| ((i * 53) % 97) as f64).collect();
    let (_, r2, _) = regress(&ds(&x), &ds(&y));
    assert!(f(r2) < 0.05, "r2 was {}", f(r2));
}

#[test]
fn regression_needs_three_points_that_spread() {
    let (slope, r2, n) = regress(&ds(&[1.0, 2.0]), &ds(&[1.0, 2.0, 3.0]));
    assert!(f(slope).is_nan() && f(r2).is_nan());
    assert_eq!(n, 2);
    let (slope, _, n) = regress(&ds(&[1.0, 1.0, 1.0]), &ds(&[1.0, 2.0, 3.0]));
    assert!(f(slope).is_nan());
    assert_eq!(n, 3);
    let (_, r2, _) = regress(&ds(&[1.0, 2.0, 3.0]), &ds(&[4.0, 4.0, 4.0]));
    assert!(f(r2).is_nan());
}

#[test]
fn the_way_back_takes_it_back() {
    let touches =
        [touch(100, 5, 102, 7), touch(101, 3, 102, 9), touch(99, 5, 103, 1), touch(100, 8, 101, 7)];
    for a in touches {
        for b in touches {
            assert_eq!(contribution(a, b), -contribution(b, a));
        }
    }
}
