use lob_lab::book::Side;
use lob_lab::double::Double;
use lob_lab::event::{Event, Instrument};
use lob_lab::messages::{
    channel_of, BookEntry, BookMsg, Channel, Notification, NotificationParams, Payload, QuoteMsg,
    TradeMsg,
};
use lob_lab::replay::{parse_lines, verify};
use serde_json::Value;

const LINES: &[&str] = &[
    r#"{"params":{"channel":"book.BTC-PERPETUAL.100ms","data":{"type":"snapshot","timestamp":100,"change_id":1,"bids":[["new",100.0,50.0]],"asks":[["new",101.0,40.0]]}}}"#,
    r#"{"params":{"channel":"quote.BTC-PERPETUAL","data":{"timestamp":100,"best_bid_price":100.0,"best_bid_amount":50.0,"best_ask_price":101.0,"best_ask_amount":40.0}}}"#,
    r#"{"params":{"channel":"trades.BTC-PERPETUAL.100ms","data":[{"trade_seq":1,"timestamp":100,"price":101.0,"amount":10.0,"direction":"buy"}]}}"#,
];

fn double(v: &Value) -> Double {
    Double::from_bits(v.as_f64().unwrap().to_bits())
}

fn entries(v: &Value) -> Vec<BookEntry> {
    v.as_array()
        .unwrap()
        .iter()
        .map(|e| (e[0].as_str().unwrap().to_string(), double(&e[1]), double(&e[2])))
        .collect()
}

fn decode(line: &str) -> Notification {
    let v: Value = serde_json::from_str(line).unwrap();
    let channel = v["params"]["channel"].as_str().unwrap().to_string();
    let data = &v["params"]["data"];
    let data = match channel_of(&channel) {
        Channel::Book => Payload::Book(BookMsg {
            kind: data["type"].as_str().unwrap().to_string(),
            timestamp: data["timestamp"].as_i64().unwrap(),
            change_id: data["change_id"].as_u64().unwrap(),
            prev_change_id: data["prev_change_id"].as_u64(),
            bids: entries(&data["bids"]),
            asks: entries(&data["asks"]),
        }),
        Channel::Trades => Payload::Trades(
            data.as_array()
                .unwrap()
                .iter()
                .map(|t| TradeMsg {
                    trade_seq: t["trade_seq"].as_u64().unwrap(),
                    timestamp: t["timestamp"].as_i64().unwrap(),
                    price: double(&t["price"]),
                    amount: double(&t["amount"]),
                    direction: t["direction"].as_str().unwrap().to_string(),
                })
                .collect(),
        ),
        Channel::Quote => Payload::Quote(QuoteMsg {
            timestamp: data["timestamp"].as_i64().unwrap(),
            best_bid_price: Some(double(&data["best_bid_price"])),
            best_bid_amount: double(&data["best_bid_amount"]),
            best_ask_price: Some(double(&data["best_ask_price"])),
            best_ask_amount: double(&data["best_ask_amount"]),
        }),
        Channel::Other => Payload::Unreadable,
    };
    Notification { params: NotificationParams { channel, data } }
}

fn replayed(lines: &[&str]) -> Vec<Event> {
    let notes: Vec<Option<Notification>> = lines.iter().map(|l| Some(decode(l))).collect();
    parse_lines(&notes, &Instrument::btc_perpetual())
}

#[test]
fn orders_trades_before_book_changes_at_equal_timestamps() {
    let events = replayed(LINES);
    let kinds: Vec<&str> = events
        .iter()
        .map(|e| match e {
            Event::Trade { .. } => "trade",
            Event::Snapshot { .. } => "snapshot",
            Event::Change { .. } => "change",
            Event::Quote { .. } => "quote",
            Event::Gap { .. } => "gap",
        })
        .collect();
    assert_eq!(kinds, vec!["trade", "snapshot", "quote"]);
}

#[test]
fn a_trade_carries_the_side_it_consumed() {
    let events = replayed(LINES);
    match events.iter().find(|e| matches!(e, Event::Trade { .. })).unwrap() {
        Event::Trade { side, size, price, .. } => {
            assert_eq!(*side, Side::Ask);
            assert_eq!(*size, 10);
            assert_eq!(*price, 202);
        }
        _ => unreachable!(),
    }
}

const SNAPSHOT: &str = r#"{"params":{"channel":"book.BTC-PERPETUAL.100ms","data":{"type":"snapshot","timestamp":1550588283458,"instrument_name":"BTC-PERPETUAL","change_id":297217,"bids":[["new",3955.75,30.0]],"asks":[["new",3956.0,20.0]]}}}"#;

const CHANGE: &str = r#"{"params":{"channel":"book.BTC-PERPETUAL.100ms","data":{"type":"change","timestamp":1550588283459,"change_id":297218,"prev_change_id":297217,"bids":[["change",3955.75,40.0],["delete",3954.0,0.0]],"asks":[]}}}"#;

#[test]
fn a_change_sets_levels_and_a_delete_clears_them() {
    let events = replayed(&[SNAPSHOT, CHANGE]);
    assert_eq!(events.len(), 2);
    match &events[0] {
        Event::Snapshot { ts, bids, asks } => {
            assert_eq!(*ts, 1550588283458);
            assert_eq!(*bids, vec![(7912, 30)]);
            assert_eq!(*asks, vec![(7912, 20)]);
        }
        _ => unreachable!(),
    }
    match &events[1] {
        Event::Change { bids, asks, .. } => {
            assert_eq!(*bids, vec![(7912, 40), (7908, 0)]);
            assert!(asks.is_empty());
        }
        _ => unreachable!(),
    }
}

#[test]
fn a_missing_update_becomes_a_gap_before_it() {
    let late = CHANGE.replace("\"prev_change_id\":297217", "\"prev_change_id\":297300");
    let events = replayed(&[SNAPSHOT, &late]);
    assert_eq!(events.len(), 3);
    match &events[1] {
        Event::Gap { ts, missing_from, missing_to } => {
            assert_eq!((*ts, *missing_from, *missing_to), (1550588283459, 297217, 297300));
        }
        _ => unreachable!(),
    }
}

#[test]
fn unreadable_data_and_other_channels_are_passed_over() {
    assert!(parse_lines(&junk(), &Instrument::btc_perpetual()).is_empty());
}

/// Lines that cannot be read.
fn junk() -> Vec<Option<Notification>> {
    let unreadable = |channel: &str| {
        Some(Notification {
            params: NotificationParams {
                channel: channel.to_string(),
                data: Payload::Unreadable,
            },
        })
    };
    vec![unreadable("book.X.100ms"), unreadable("ticker.X"), None]
}

#[test]
fn an_unreadable_line_changes_nothing() {
    let inst = Instrument::btc_perpetual();
    let plain = format!("{:?}", replayed(LINES));
    for at in 0..=LINES.len() {
        for line in junk() {
            let mut lines: Vec<Option<Notification>> =
                LINES.iter().map(|l| Some(decode(l))).collect();
            lines.insert(at, line);
            assert_eq!(format!("{:?}", parse_lines(&lines, &inst)), plain);
        }
    }
}

#[test]
fn what_is_verified_adds_up() {
    let first = replayed(LINES);
    let second = replayed(LINES);
    let gap = Event::Gap { ts: 1_000, missing_from: 1, missing_to: 2 };
    let quote = Event::Quote { ts: 1_001, bid: Some((1, 1)), ask: None };
    let mut whole: Vec<Event> = replayed(LINES);
    let mut part: Vec<Event> = vec![gap.clone(), quote.clone()];
    part.extend(replayed(LINES));
    part.push(quote.clone());
    whole.extend(vec![gap, quote.clone()]);
    whole.extend(second);
    whole.push(quote);
    let (a, b, c) = (verify(&first), verify(&part), verify(&whole));
    assert_eq!(c.quotes_checked, a.quotes_checked + b.quotes_checked);
    assert_eq!(c.quotes_mismatched, a.quotes_mismatched + b.quotes_mismatched);
    assert_eq!(c.gaps, a.gaps + b.gaps);
    assert_eq!(c.gaps, 1);
    assert_eq!(c.quotes_mismatched, 1);
}

#[test]
fn channels_are_told_by_their_names() {
    assert_eq!(channel_of("book.BTC-PERPETUAL.100ms"), Channel::Book);
    assert_eq!(channel_of("trades.BTC-PERPETUAL.100ms"), Channel::Trades);
    assert_eq!(channel_of("quote.BTC-PERPETUAL"), Channel::Quote);
    assert_eq!(channel_of("booking"), Channel::Other);
}

#[test]
fn only_quotes_after_a_snapshot_are_checked() {
    let quote = |ts: i64, bid: i64| Event::Quote { ts, bid: Some((bid, 1)), ask: Some((202, 1)) };
    let snapshot = |ts: i64| Event::Snapshot { ts, bids: vec![(200, 5)], asks: vec![(202, 5)] };
    let events = vec![
        quote(0, 1),
        snapshot(1),
        quote(2, 200),
        quote(3, 199),
        Event::Gap { ts: 4, missing_from: 1, missing_to: 2 },
        quote(5, 199),
        snapshot(6),
        Event::Change { ts: 7, bids: vec![(201, 1)], asks: vec![] },
        quote(8, 201),
    ];
    let stats = verify(&events);
    assert_eq!(stats.quotes_checked, 3);
    assert_eq!(stats.quotes_mismatched, 1);
    assert_eq!(stats.gaps, 1);
    assert_eq!(f64::from_bits(stats.mismatch_rate().to_bits()), 1.0 / 3.0);
    let none = verify(&Vec::new());
    assert_eq!(f64::from_bits(none.mismatch_rate().to_bits()), 0.0);
}
