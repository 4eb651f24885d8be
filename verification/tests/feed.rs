use lob_lab::double::Double;
use lob_lab::event::Instrument;
use lob_lab::gaps::GapDetector;
use lob_lab::messages::{BookEntry, BookMsg, Notification, NotificationParams, Payload};
use lob_lab::session::{
    channels, react, snapshot_query, step, Backoff, Ending, Frame, Reaction, RestTimer, Step,
};
use lob_lab::snapshot::{rest_levels, Checker, Depth, RestBook, Tally, Verdict};

fn d(x: f64) -> Double {
    Double::from_bits(x.to_bits())
}

fn f(x: Double) -> f64 {
    f64::from_bits(x.to_bits())
}

fn entry(action: &str, price: f64, amount: f64) -> BookEntry {
    (action.to_string(), d(price), d(amount))
}

fn book(kind: &str, change_id: u64, prev: Option<u64>, bids: Vec<BookEntry>) -> BookMsg {
    BookMsg {
        kind: kind.to_string(),
        timestamp: 77,
        change_id,
        prev_change_id: prev,
        bids,
        asks: vec![],
    }
}

fn note(channel: &str, data: Payload) -> Option<Notification> {
    Some(Notification { params: NotificationParams { channel: channel.to_string(), data } })
}

#[test]
fn three_channels_are_subscribed_to() {
    assert_eq!(
        channels("BTC-PERPETUAL", "100ms"),
        vec!["book.BTC-PERPETUAL.100ms", "trades.BTC-PERPETUAL.100ms", "quote.BTC-PERPETUAL"]
    );
    assert_eq!(
        snapshot_query("BTC-PERPETUAL", 1_000),
        "?instrument_name=BTC-PERPETUAL&depth=1000"
    );
}

#[test]
fn waits_double_up_to_a_minute_and_start_anew_after_a_long_session() {
    let mut b = Backoff::new();
    let waits: Vec<u64> =
        (0..8).map(|_| b.after_session(Ending::Failed, 0).unwrap()).collect();
    assert_eq!(waits, vec![1, 2, 4, 8, 16, 32, 60, 60]);
    assert_eq!(b.after_session(Ending::Closed, 60_000_000_000), Some(60));
    assert_eq!(b.after_session(Ending::Closed, 60_000_000_001), Some(1));
    assert_eq!(b.after_session(Ending::Interrupted, 0), None);
    assert_eq!(b.after_session(Ending::Closed, 0), Some(2));
}

#[test]
fn snapshots_are_due_at_once_and_then_on_schedule() {
    let mut t = RestTimer::new(30, 5);
    assert!(!t.is_due(4));
    assert!(t.is_due(5));
    assert!(!t.is_due(30_000_000_004));
    assert!(t.is_due(30_000_000_005));
    let mut never = RestTimer::new(0, 0);
    assert!(!never.is_due(1));
}

#[test]
fn heartbeats_are_answered() {
    let mut gaps = GapDetector::default();
    let text = "{\"method\":\"heartbeat\",\"params\":{\"type\":\"test_request\"}}";
    assert_eq!(react(&mut gaps, text, &None), Reaction::Answer);
    assert_eq!(react(&mut gaps, "{\"id\":1}", &None), Reaction::Carry);
    assert_eq!(react(&mut gaps, "", &None), Reaction::Carry);
}

#[test]
fn a_missed_update_asks_for_the_book() {
    let mut gaps = GapDetector::default();
    let channel = "book.X.100ms";
    let first = note(channel, Payload::Book(book("snapshot", 1, None, vec![])));
    let next = note(channel, Payload::Book(book("change", 2, Some(1), vec![])));
    let late = note(channel, Payload::Book(book("change", 9, Some(8), vec![])));
    assert_eq!(react(&mut gaps, "", &first), Reaction::Carry);
    assert_eq!(react(&mut gaps, "", &next), Reaction::Carry);
    assert_eq!(
        react(&mut gaps, "", &late),
        Reaction::Resync { timestamp: 77, from: 2, to: 8 }
    );
    assert_eq!(react(&mut gaps, "", &note("trades.X", Payload::Unreadable)), Reaction::Carry);
    assert_eq!(react(&mut gaps, "", &note(channel, Payload::Unreadable)), Reaction::Fail);
}

#[test]
fn depth_keeps_amounts_as_they_were_sent() {
    let inst = Instrument::btc_perpetual();
    let mut depth = Depth::new();
    depth.apply(
        &vec![
            entry("new", 100.0, 1.5),
            entry("new", 101.0, 2.5),
            entry("new", 102.0, 3.5),
            entry("delete", 101.0, 9.0),
            entry("change", 102.0, -1.0),
            entry("new", 99.0, 7.25),
        ],
        &inst,
    );
    let show = |xs: Vec<(i64, Double)>| -> Vec<(i64, f64)> {
        xs.into_iter().map(|(t, q)| (t, f(q))).collect()
    };
    assert_eq!(show(depth.top(5, true)), vec![(200, 1.5), (198, 7.25)]);
    assert_eq!(show(depth.top(1, false)), vec![(198, 7.25)]);
    assert_eq!(show(depth.top(0, true)), vec![]);
    let rest = vec![(d(50.0), d(1.0)), (d(49.5), d(2.0))];
    assert_eq!(show(rest_levels(&rest, &inst, 1)), vec![(100, 1.0)]);
    assert_eq!(show(rest_levels(&rest, &inst, 9)), vec![(100, 1.0), (99, 2.0)]);
}

fn rest(change_id: u64, bids: Vec<(Double, Double)>) -> RestBook {
    RestBook { change_id, bids, asks: vec![] }
}

#[test]
fn a_snapshot_is_compared_at_its_own_id() {
    let inst = Instrument::btc_perpetual();
    let mut c = Checker::new();
    let first = book("snapshot", 1, None, vec![entry("new", 100.0, 50.0)]);
    assert_eq!(c.on_book(&first, &inst, 10), Verdict::Waiting);
    // Not reached yet, then reached and equal.
    c.on_snapshot(rest(3, vec![(d(100.0), d(50.0)), (d(99.0), d(5.0))]));
    let second = book("change", 2, Some(1), vec![entry("new", 99.0, 5.0)]);
    assert_eq!(c.on_book(&second, &inst, 10), Verdict::Waiting);
    let third = book("change", 3, Some(2), vec![]);
    assert_eq!(c.on_book(&third, &inst, 10), Verdict::Exact);
    // A verdict ends the wait.
    assert_eq!(c.on_book(&third, &inst, 10), Verdict::Waiting);
    // Between two updates.
    c.on_snapshot(rest(4, vec![]));
    let fifth = book("change", 5, Some(3), vec![entry("delete", 100.0, 0.0)]);
    assert_eq!(c.on_book(&fifth, &inst, 10), Verdict::Straddled);
    // Different.
    c.on_snapshot(rest(6, vec![(d(98.0), d(5.0))]));
    let sixth = book("change", 6, Some(5), vec![]);
    assert_eq!(
        c.on_book(&sixth, &inst, 10),
        Verdict::Wrong { change_id: 6, ours: Some(198), theirs: Some(196) }
    );
    assert_eq!(c.tally(), Tally { exact: 1, straddled: 1, wrong: 1 });
    assert_eq!(c.tally().checked(), 3);
    // A snapshot on the feed starts the book anew.
    c.on_snapshot(rest(7, vec![]));
    assert_eq!(c.on_book(&book("snapshot", 7, None, vec![]), &inst, 10), Verdict::Exact);
}

#[test]
fn amounts_count_and_depth_limits_them() {
    let inst = Instrument::btc_perpetual();
    let entries = vec![entry("new", 100.0, 50.0), entry("new", 99.0, 5.0)];
    let theirs = vec![(d(100.0), d(50.0)), (d(99.0), d(6.0))];
    let mut c = Checker::new();
    c.on_snapshot(rest(1, theirs.clone()));
    let msg = book("snapshot", 1, None, entries);
    assert_eq!(
        c.on_book(&msg, &inst, 2),
        Verdict::Wrong { change_id: 1, ours: Some(200), theirs: Some(200) }
    );
    c.on_snapshot(rest(1, theirs));
    assert_eq!(c.on_book(&msg, &inst, 1), Verdict::Exact);
}

#[test]
fn every_frame_has_its_step() {
    assert_eq!(step(Frame::Text), Step::Record);
    assert_eq!(step(Frame::Ping), Step::Pong);
    assert_eq!(step(Frame::Other), Step::Skip);
    assert_eq!(step(Frame::Close), Step::Finish(Ending::Closed));
    assert_eq!(step(Frame::Ended), Step::Finish(Ending::Closed));
    assert_eq!(step(Frame::Interrupted), Step::Finish(Ending::Interrupted));
}
