use std::hash::{DefaultHasher, Hash, Hasher};

use lob_lab::book::{Qty, Side, Tick};
use lob_lab::double::Double;
use lob_lab::engine::{Config, Ctx, Engine, Quoter, Quotes};
use lob_lab::event::Event;
use lob_lab::queue::QueueModel;

fn d(x: f64) -> Double {
    Double::from_bits(x.to_bits())
}

fn f(x: Double) -> f64 {
    f64::from_bits(x.to_bits())
}

struct Fixed {
    bid: Tick,
    ask: Tick,
    size: Qty,
}

impl Quoter for Fixed {
    fn quote(&mut self, _ctx: &Ctx) -> Option<Quotes> {
        Some(Quotes { bid: Some(self.bid), ask: Some(self.ask), size: self.size })
    }

    fn observe(&mut self, _ctx: &Ctx) {}
}

fn fixed() -> Fixed {
    Fixed { bid: 200, ask: 202, size: 10 }
}

fn snapshot(ts: i64) -> Event {
    Event::Snapshot { ts, bids: vec![(200, 100)], asks: vec![(202, 100)] }
}

fn trade(ts: i64, price: Tick, size: Qty, side: Side) -> Event {
    Event::Trade { ts, price, size, side }
}

fn config(latency_ms: i64, model: QueueModel) -> Config {
    Config {
        latency_ms,
        model,
        maker_fee: d(0.0),
        tick_size: d(0.5),
        requote_ms: 0,
        max_position: 1_000,
    }
}

#[test]
fn a_quote_is_not_live_before_its_latency_has_passed() {
    let events = vec![snapshot(0), trade(500, 200, 1_000, Side::Bid)];
    let report =
        Engine::new(config(1_000, QueueModel::Naive)).run(&events, &mut fixed()).unwrap();
    assert_eq!(report.ledger.position_usd, 0);
}

#[test]
fn a_live_quote_fills_once_the_queue_ahead_is_gone() {
    let events = vec![snapshot(0), trade(2_000, 200, 150, Side::Bid)];
    let report =
        Engine::new(config(1_000, QueueModel::Pessimistic)).run(&events, &mut fixed()).unwrap();
    assert_eq!(report.ledger.position_usd, 10);
    assert_eq!(f(report.ledger.fills[0].price_usd), 100.0);
}

#[test]
fn the_naive_model_fills_where_the_queue_model_does_not() {
    let events = vec![snapshot(0), trade(2_000, 200, 50, Side::Bid)];
    let naive = Engine::new(config(1_000, QueueModel::Naive)).run(&events, &mut fixed()).unwrap();
    let queue =
        Engine::new(config(1_000, QueueModel::Pessimistic)).run(&events, &mut fixed()).unwrap();
    assert_eq!(naive.ledger.position_usd, 10);
    assert_eq!(queue.ledger.position_usd, 0);
}

#[test]
fn a_gap_stands_us_down_until_the_next_snapshot() {
    let events = vec![
        snapshot(0),
        Event::Gap { ts: 1_500, missing_from: 1, missing_to: 9 },
        trade(2_000, 200, 1_000, Side::Bid),
        snapshot(3_000),
        trade(5_000, 200, 1_000, Side::Bid),
    ];
    let report = Engine::new(config(1_000, QueueModel::Naive)).run(&events, &mut fixed()).unwrap();
    assert_eq!(report.ledger.fills.len(), 1);
    assert_eq!(report.ledger.fills[0].ts, 5_000);
    assert_eq!(report.halted_ms, 1_500);
}

#[test]
fn the_same_input_gives_the_same_fills() {
    let events = vec![
        snapshot(0),
        trade(2_000, 200, 150, Side::Bid),
        trade(3_000, 202, 150, Side::Ask),
    ];
    let first =
        Engine::new(config(1_000, QueueModel::Pessimistic)).run(&events, &mut fixed()).unwrap();
    let second =
        Engine::new(config(1_000, QueueModel::Pessimistic)).run(&events, &mut fixed()).unwrap();
    assert_eq!(first.fill_hash, second.fill_hash);
}

#[test]
fn other_fills_have_another_hash() {
    let run = |size: Qty| {
        let events = vec![snapshot(0), trade(2_000, 200, size, Side::Bid)];
        Engine::new(config(1_000, QueueModel::Pessimistic)).run(&events, &mut fixed()).unwrap()
    };
    assert_ne!(run(150).fill_hash, run(50).fill_hash);
    assert_ne!(run(150).fill_hash, run(105).fill_hash);
}

#[test]
fn the_hash_is_that_of_the_fields_in_turn() {
    let events = vec![snapshot(0), trade(2_000, 200, 150, Side::Bid)];
    let report =
        Engine::new(config(1_000, QueueModel::Pessimistic)).run(&events, &mut fixed()).unwrap();
    let mut hasher = DefaultHasher::new();
    for fill in &report.ledger.fills {
        fill.ts.hash(&mut hasher);
        fill.size_usd.hash(&mut hasher);
        fill.price_usd.to_bits().hash(&mut hasher);
        matches!(fill.side, Side::Bid).hash(&mut hasher);
    }
    assert_eq!(report.fill_hash, hasher.finish());
}

#[test]
fn a_gap_that_never_closes_is_counted_to_the_end() {
    let events = vec![
        snapshot(0),
        Event::Gap { ts: 1_000, missing_from: 1, missing_to: 2 },
        Event::Gap { ts: 1_500, missing_from: 3, missing_to: 4 },
        trade(4_000, 200, 1, Side::Bid),
    ];
    let report = Engine::new(config(0, QueueModel::Naive)).run(&events, &mut fixed()).unwrap();
    assert_eq!(report.halted_ms, 3_000);
    assert!(report.ledger.fills.is_empty());
}

#[test]
fn the_inventory_limit_pulls_the_side_that_would_breach_it() {
    let cfg = Config { max_position: 10, ..config(0, QueueModel::Naive) };
    let events = vec![
        snapshot(0),
        trade(1, 200, 1_000, Side::Bid),
        trade(2, 200, 1_000, Side::Bid),
        trade(3, 200, 1_000, Side::Bid),
        trade(4, 202, 1_000, Side::Ask),
    ];
    let report = Engine::new(cfg).run(&events, &mut fixed()).unwrap();
    let sides: Vec<Side> = report.ledger.fills.iter().map(|x| x.side).collect();
    assert_eq!(sides, vec![Side::Bid, Side::Ask]);
    assert_eq!(report.ledger.position_usd, 0);
}

#[test]
fn a_size_that_does_not_fit_under_the_limit_is_not_quoted() {
    let cfg = Config { max_position: 5, ..config(1_000, QueueModel::Pessimistic) };
    let events = vec![
        snapshot(0),
        trade(2_000, 200, 150, Side::Bid),
        trade(3_000, 202, 150, Side::Ask),
    ];
    let report = Engine::new(cfg).run(&events, &mut fixed()).unwrap();
    assert_eq!(report.ledger.position_usd, 0);
    assert!(report.ledger.fills.is_empty());
    let cfg = Config { max_position: i64::MIN, ..cfg };
    let report = Engine::new(cfg).run(&events, &mut fixed()).unwrap();
    assert!(report.ledger.fills.is_empty());
}

/// Quotes what it is told to, in turn.
struct Script {
    quotes: Vec<Quotes>,
}

impl Quoter for Script {
    fn quote(&mut self, _ctx: &Ctx) -> Option<Quotes> {
        if self.quotes.is_empty() {
            None
        } else {
            Some(self.quotes.remove(0))
        }
    }

    fn observe(&mut self, _ctx: &Ctx) {}
}

#[test]
fn a_quote_on_its_way_does_not_breach_the_limit() {
    let cfg = Config { max_position: 10, ..config(100, QueueModel::Naive) };
    let at = |bid: Tick| Quotes { bid: Some(bid), ask: Some(202), size: 10 };
    let events = vec![
        snapshot(0),
        Event::Quote { ts: 100, bid: None, ask: None },
        trade(150, 200, 1_000, Side::Bid),
        trade(201, 199, 1_000, Side::Bid),
        trade(202, 202, 1_000, Side::Ask),
    ];
    let mut quoter = Script { quotes: vec![at(200), at(199)] };
    let report = Engine::new(cfg).run(&events, &mut quoter).unwrap();
    let fills: Vec<(Side, Qty)> =
        report.ledger.fills.iter().map(|x| (x.side, x.size_usd)).collect();
    assert_eq!(fills, vec![(Side::Bid, 10), (Side::Ask, 10)]);
    assert_eq!(report.ledger.position_usd, 0);
    let report = Engine::new(Config { max_position: 20, ..cfg })
        .run(&events, &mut Script { quotes: vec![at(200), at(199)] })
        .unwrap();
    assert_eq!(report.ledger.fills.len(), 3);
}

#[test]
fn the_position_never_leaves_the_limit() {
    let mut x: u64 = 7;
    let mut next = |n: u64| {
        x = x.wrapping_mul(6_364_136_223_846_793_005).wrapping_add(1_442_695_040_888_963_407);
        (x >> 33) % n
    };
    for max_position in [0, 1, 9, 10, 25] {
        let cfg = Config { max_position, ..config(3, QueueModel::Proportional) };
        let mut engine = Engine::new(cfg);
        for ts in 0..2_000 {
            let event = match next(20) {
                0 => snapshot(ts),
                1 => Event::Gap { ts, missing_from: 1, missing_to: 2 },
                2..=5 => Event::Change { ts, bids: vec![(200, next(50) as Qty)], asks: vec![] },
                6..=12 => trade(ts, 199 + next(2) as Tick, next(60) as Qty, Side::Bid),
                _ => trade(ts, 202 + next(2) as Tick, next(60) as Qty, Side::Ask),
            };
            assert!(engine.settle(&event));
            let position = engine.context(ts).position_usd;
            assert!(-max_position <= position && position <= max_position);
            if engine.is_due(ts) {
                let quotes = Quotes {
                    bid: Some(199 + next(2) as Tick),
                    ask: Some(202 + next(2) as Tick),
                    size: next(12) as Qty,
                };
                assert!(engine.decide(ts, Some(quotes)));
            }
        }
    }
}

#[test]
fn a_gap_closes_the_position_at_the_last_mid() {
    let events = vec![
        snapshot(0),
        trade(2_000, 200, 150, Side::Bid),
        Event::Gap { ts: 3_000, missing_from: 1, missing_to: 9 },
        trade(4_000, 200, 150, Side::Bid),
    ];
    let cfg = Config { maker_fee: d(0.01), ..config(1_000, QueueModel::Pessimistic) };
    let report = Engine::new(cfg).run(&events, &mut fixed()).unwrap();
    assert_eq!(report.ledger.position_usd, 0);
    assert_eq!(report.ledger.fills.len(), 2);
    let last = &report.ledger.fills[1];
    assert_eq!((last.ts, last.side, last.size_usd), (3_000, Side::Ask, 10));
    assert_eq!(f(last.price_usd), 100.5);
    assert_eq!(f(last.fee_btc), 0.0);
    assert_eq!(report.halted_ms, 1_000);
}

#[test]
fn a_short_position_is_bought_back() {
    let events = vec![
        snapshot(0),
        trade(2_000, 202, 104, Side::Ask),
        Event::Gap { ts: 3_000, missing_from: 1, missing_to: 9 },
    ];
    let report =
        Engine::new(config(1_000, QueueModel::Pessimistic)).run(&events, &mut fixed()).unwrap();
    let fills: Vec<(Side, Qty)> =
        report.ledger.fills.iter().map(|x| (x.side, x.size_usd)).collect();
    assert_eq!(fills, vec![(Side::Ask, 4), (Side::Bid, 4)]);
    assert_eq!(report.ledger.position_usd, 0);
}

#[test]
fn without_a_mid_the_last_fill_gives_the_closing_price() {
    let events = vec![
        snapshot(0),
        trade(2_000, 200, 150, Side::Bid),
        Event::Change { ts: 2_500, bids: vec![], asks: vec![(202, 0)] },
        Event::Gap { ts: 3_000, missing_from: 1, missing_to: 9 },
    ];
    let report =
        Engine::new(config(1_000, QueueModel::Pessimistic)).run(&events, &mut fixed()).unwrap();
    assert_eq!(report.ledger.position_usd, 0);
    assert_eq!(f(report.ledger.fills[1].price_usd), 100.0);
}

#[test]
fn the_hash_leaves_out_the_fees() {
    let events = vec![snapshot(0), trade(2_000, 200, 150, Side::Bid)];
    let run = |fee: f64| {
        let cfg = Config { maker_fee: d(fee), ..config(1_000, QueueModel::Pessimistic) };
        Engine::new(cfg).run(&events, &mut fixed()).unwrap()
    };
    let (free, paid) = (run(0.0), run(0.1));
    assert_ne!(f(free.ledger.fees_btc), f(paid.ledger.fees_btc));
    assert_eq!(free.fill_hash, paid.fill_hash);
}

#[test]
fn the_same_quotes_are_sent_once() {
    let events = vec![
        snapshot(0),
        Event::Quote { ts: 1, bid: None, ask: None },
        Event::Quote { ts: 2, bid: None, ask: None },
    ];
    let report = Engine::new(config(0, QueueModel::Naive)).run(&events, &mut fixed()).unwrap();
    assert_eq!(report.requotes, 1);
    assert_eq!(report.mids.last_ts(), Some(2));
    assert_eq!(report.mids.at(1).map(f), Some(100.5));
    assert_eq!(report.mids.at(-1).map(f), None);
}

/// Counts how often it is asked and shown the book.
struct Counting {
    asked: u32,
    shown: u32,
}

impl Quoter for Counting {
    fn quote(&mut self, _ctx: &Ctx) -> Option<Quotes> {
        self.asked += 1;
        None
    }

    fn observe(&mut self, _ctx: &Ctx) {
        self.shown += 1;
    }
}

#[test]
fn decisions_keep_their_distance_and_updates_are_all_shown() {
    let cfg = Config { requote_ms: 100, ..config(0, QueueModel::Naive) };
    let mut quoter = Counting { asked: 0, shown: 0 };
    let mut events = vec![snapshot(0)];
    for ts in 1..=250 {
        events.push(Event::Change { ts, bids: vec![(199, ts)], asks: vec![] });
    }
    events.push(trade(251, 200, 1, Side::Bid));
    let report = Engine::new(cfg).run(&events, &mut quoter).unwrap();
    assert_eq!(quoter.asked, 3);
    assert_eq!(quoter.shown, 251);
    assert_eq!(report.requotes, 0);
    assert!(quoter.report().is_empty());
}

#[test]
fn a_partial_fill_leaves_the_rest_of_the_order() {
    let events = vec![
        snapshot(0),
        trade(1, 200, 104, Side::Bid),
        trade(2, 200, 3, Side::Bid),
        trade(3, 200, 100, Side::Bid),
    ];
    let report = Engine::new(config(0, QueueModel::Pessimistic)).run(&events, &mut fixed()).unwrap();
    let sizes: Vec<Qty> = report.ledger.fills.iter().map(|x| x.size_usd).collect();
    assert_eq!(sizes, vec![4, 3, 3]);
}

#[test]
fn a_time_out_of_range_ends_the_run() {
    let cfg = config(i64::MAX, QueueModel::Naive);
    assert!(Engine::new(cfg).run(&vec![snapshot(1)], &mut fixed()).is_none());
    let cfg = config(0, QueueModel::Naive);
    let events = vec![
        snapshot(0),
        Event::Gap { ts: i64::MIN, missing_from: 1, missing_to: 2 },
        snapshot(i64::MAX),
    ];
    assert!(Engine::new(cfg).run(&events, &mut fixed()).is_none());
}

#[test]
fn a_run_without_events_reports_nothing() {
    let report =
        Engine::new(config(0, QueueModel::Naive)).run(&Vec::new(), &mut fixed()).unwrap();
    assert_eq!(report.requotes, 0);
    assert_eq!(report.halted_ms, 0);
    assert_eq!(report.mids.last_ts(), None);
}

#[test]
fn the_steps_of_a_run_can_be_taken_one_by_one() {
    let mut engine = Engine::new(config(1_000, QueueModel::Naive));
    assert!(!engine.is_due(0));
    assert!(engine.settle(&snapshot(0)));
    assert!(engine.is_due(0));
    let ctx = engine.context(0);
    assert_eq!(ctx.position_usd, 0);
    assert_eq!(ctx.book.best_bid(), Some((200, 100)));
    assert!(engine.decide(0, Some(Quotes { bid: Some(200), ask: None, size: 10 })));
    assert!(engine.settle(&trade(1_000, 200, 4, Side::Bid)));
    assert_eq!(engine.context(1_000).position_usd, 4);
}
