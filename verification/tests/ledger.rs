use lob_lab::book::Side;
use lob_lab::double::Double;
use lob_lab::ledger::{Fill, Ledger};
use lob_lab::markout::{markouts_bps, MidSeries};

fn d(x: f64) -> Double {
    Double::from_bits(x.to_bits())
}

fn f(x: Double) -> f64 {
    f64::from_bits(x.to_bits())
}

#[test]
fn a_long_gains_btc_when_the_price_rises() {
    let mut l = Ledger::default();
    l.on_fill(0, Side::Bid, d(100_000.0), 100, d(0.0));
    let expected = 100.0 / 100_000.0 - 100.0 / 101_000.0;
    assert!((f(l.equity_btc(d(101_000.0))) - expected).abs() < 1e-15);
    assert!(f(l.equity_btc(d(99_000.0))) < 0.0);
}

#[test]
fn a_short_gains_btc_when_the_price_falls() {
    let mut l = Ledger::default();
    l.on_fill(0, Side::Ask, d(100_000.0), 100, d(0.0));
    assert!(f(l.equity_btc(d(99_000.0))) > 0.0);
    assert!(f(l.equity_btc(d(101_000.0))) < 0.0);
}

#[test]
fn a_round_trip_at_the_same_price_costs_exactly_the_fees() {
    let mut l = Ledger::default();
    l.on_fill(0, Side::Bid, d(100_000.0), 1_000, d(1.5e-4));
    l.on_fill(1, Side::Ask, d(100_000.0), 1_000, d(1.5e-4));
    assert_eq!(l.position_usd, 0);
    let expected_fees = 2.0 * 1.5e-4 * 1_000.0 / 100_000.0;
    assert!((f(l.fees_btc) - expected_fees).abs() < 1e-15);
    assert!((f(l.equity_btc(d(100_000.0))) + expected_fees).abs() < 1e-15);
}

#[test]
fn equity_in_usd_is_equity_in_btc_at_the_mark() {
    let mut l = Ledger::default();
    l.on_fill(0, Side::Bid, d(100_000.0), 100, d(0.0));
    let mark = 101_000.0;
    assert!((f(l.equity_usd(d(mark))) - f(l.equity_btc(d(mark))) * mark).abs() < 1e-9);
}

#[test]
fn book_keeping_is_that_of_the_hardware() {
    let mut l = Ledger::default();
    let (mut cash, mut fees, mut position) = (0.0f64, 0.0f64, 0i64);
    for i in 0..500i64 {
        let side = if i % 3 == 0 { Side::Ask } else { Side::Bid };
        let price = 95_000.0 + i as f64 * 0.5;
        let size = 10 + i % 7;
        let rate = 1.5e-4;
        let signed = if i % 3 == 0 { -size } else { size };
        position += signed;
        cash += signed as f64 / price;
        let fee = rate * size as f64 / price;
        cash -= fee;
        fees += fee;
        assert!(l.can_fill(side, size));
        l.on_fill(i, side, d(price), size, d(rate));
    }
    assert_eq!(l.position_usd, position);
    assert_eq!(f(l.cash_btc), cash);
    assert_eq!(f(l.fees_btc), fees);
    assert_eq!(l.fills.len(), 500);
    assert_eq!(f(l.equity_btc(d(96_000.0))), cash - position as f64 / 96_000.0);
}

#[test]
fn a_round_trip_without_fees_leaves_nothing() {
    let mut l = Ledger::default();
    l.on_fill(0, Side::Bid, d(33_333.5), 77, d(0.0));
    l.on_fill(1, Side::Ask, d(33_333.5), 77, d(0.0));
    assert_eq!(f(l.equity_btc(d(12_345.5))), 0.0);
    assert_eq!(f(l.fees_btc), 0.0);
}

#[test]
fn a_position_out_of_range_is_told_beforehand() {
    let mut l = Ledger::default();
    assert!(!l.can_fill(Side::Ask, i64::MIN));
    assert!(l.can_fill(Side::Bid, i64::MIN));
    l.on_fill(0, Side::Bid, d(1.0), i64::MAX, d(0.0));
    assert!(!l.can_fill(Side::Bid, 1));
    assert!(l.can_fill(Side::Ask, i64::MAX));
}

fn series() -> MidSeries {
    MidSeries::new(vec![(0, d(100.0)), (1_000, d(101.0)), (10_000, d(90.0))])
}

fn fill(ts: i64, side: Side) -> Vec<Fill> {
    vec![Fill { ts, side, price_usd: d(100.0), size_usd: 10, fee_btc: d(0.0) }]
}

#[test]
fn a_buy_before_a_rise_has_a_positive_markout() {
    let m = markouts_bps(&fill(0, Side::Bid), &series(), &vec![1_000]);
    assert!((f(m[0]) - 100.0).abs() < 1e-9);
}

#[test]
fn a_sell_before_a_rise_has_a_negative_markout() {
    let m = markouts_bps(&fill(0, Side::Ask), &series(), &vec![1_000]);
    assert!((f(m[0]) + 100.0).abs() < 1e-9);
}

#[test]
fn the_mid_used_is_the_last_one_at_or_before_the_horizon() {
    let m = markouts_bps(&fill(0, Side::Bid), &series(), &vec![5_000]);
    assert!((f(m[0]) - 100.0).abs() < 1e-9);
}

#[test]
fn fills_without_a_future_mid_are_skipped() {
    let m = markouts_bps(&fill(10_000, Side::Bid), &series(), &vec![1_000]);
    assert!(f(m[0]).is_nan());
}

#[test]
fn a_series_is_sorted_and_the_last_of_equal_times_counts() {
    let s = MidSeries::new(vec![(5, d(1.0)), (2, d(2.0)), (5, d(3.0)), (1, d(4.0))]);
    assert_eq!(s.last_ts(), Some(5));
    assert_eq!(s.at(0).map(f), None);
    assert_eq!(s.at(1).map(f), Some(4.0));
    assert_eq!(s.at(4).map(f), Some(2.0));
    assert_eq!(s.at(5).map(f), Some(3.0));
    assert_eq!(s.at(i64::MAX).map(f), Some(3.0));
    assert_eq!(MidSeries::new(vec![]).last_ts(), None);
}

#[test]
fn horizons_out_of_range_are_skipped() {
    let fills = fill(i64::MAX, Side::Bid);
    let m = markouts_bps(&fills, &series(), &vec![1, i64::MIN]);
    assert!(f(m[0]).is_nan());
    assert!(f(m[1]).is_nan());
    let m = markouts_bps(&fill(i64::MIN, Side::Bid), &series(), &vec![-1]);
    assert!(f(m[0]).is_nan());
}

#[test]
fn markouts_are_averaged() {
    let mut fills = fill(0, Side::Bid);
    fills.extend(fill(0, Side::Bid));
    fills[1].price_usd = d(50.0);
    let m = markouts_bps(&fills, &series(), &vec![0, 1_000]);
    assert_eq!(f(m[0]), (0.0 + 10_000.0) / 2.0);
    let second = (101.0 - 50.0) / 50.0 * 10_000.0;
    assert_eq!(f(m[1]), ((101.0 - 100.0) / 100.0 * 10_000.0 + second) / 2.0);
}
