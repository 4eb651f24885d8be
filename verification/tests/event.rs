use lob_lab::book::Side;
use lob_lab::double::Double;
use lob_lab::event::{from_ticks, taker_side, to_qty, to_ticks, Event, Instrument};

fn d(x: f64) -> Double {
    Double::from_bits(x.to_bits())
}

fn f(x: Double) -> f64 {
    f64::from_bits(x.to_bits())
}

#[test]
fn converts_prices_to_ticks_and_back() {
    let inst = Instrument::btc_perpetual();
    // 3955.5 is on the 0.5 grid; the docs example 3955.75 is not.
    assert_eq!(to_ticks(d(3955.5), &inst), 7911);
    assert_eq!(to_ticks(d(0.5), &inst), 1);
    assert!((f(from_ticks(7911, &inst)) - 3955.5).abs() < 1e-9);
}

#[test]
fn a_taker_buy_consumes_the_ask_side() {
    assert_eq!(taker_side("buy"), Side::Ask);
    assert_eq!(taker_side("sell"), Side::Bid);
}

#[test]
fn sizes_round_to_whole_usd() {
    let inst = Instrument::btc_perpetual();
    assert_eq!(to_qty(d(100.0), &inst), 100);
    assert_eq!(to_qty(d(0.0), &inst), 0);
}

#[test]
fn the_instrument_has_the_published_values() {
    let inst = Instrument::btc_perpetual();
    assert_eq!(f(inst.tick_size), 0.5);
    assert_eq!(f(inst.contract_size), 10.0);
    assert_eq!(f(inst.maker_fee), 1.5e-4);
    assert_eq!(f(inst.taker_fee), 3.5e-4);
}

#[test]
fn every_tick_survives_the_round_trip() {
    let inst = Instrument::btc_perpetual();
    for t in [0, 1, -1, 7, 200_001, -200_001, (1i64 << 53) - 1, 1 - (1i64 << 53)] {
        assert_eq!(to_ticks(from_ticks(t, &inst), &inst), t);
    }
}

#[test]
fn halves_round_away_from_zero() {
    let inst = Instrument::btc_perpetual();
    assert_eq!(to_qty(d(2.5), &inst), 3);
    assert_eq!(to_qty(d(-2.5), &inst), -3);
    assert_eq!(to_qty(d(f64::NAN), &inst), 0);
    assert_eq!(to_qty(d(1e300), &inst), i64::MAX);
    assert_eq!(to_qty(d(f64::NEG_INFINITY), &inst), i64::MIN);
}

#[test]
fn every_event_has_its_timestamp() {
    assert_eq!(Event::Gap { ts: 3, missing_from: 1, missing_to: 2 }.ts(), 3);
    assert_eq!(Event::Quote { ts: 4, bid: None, ask: None }.ts(), 4);
    assert_eq!(Event::Trade { ts: 5, price: 1, size: 1, side: Side::Bid }.ts(), 5);
    assert_eq!(Event::Change { ts: 6, bids: vec![], asks: vec![] }.ts(), 6);
    assert_eq!(Event::Snapshot { ts: 7, bids: vec![], asks: vec![] }.ts(), 7);
}
