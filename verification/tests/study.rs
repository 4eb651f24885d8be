use lob_lab::book::{Book, Side};
use lob_lab::bootstrap::can_bootstrap;
use lob_lab::double::Double;
use lob_lab::engine::{Config, Ctx, Engine, Quoter, Quotes};
use lob_lab::event::Event;
use lob_lab::intensity::Intensity;
use lob_lab::markout::MidSeries;
use lob_lab::measure::{predict, sample, touch};
use lob_lab::ofi::Touch;
use lob_lab::queue::QueueModel;
use lob_lab::quoters::{
    GlftQuoter, GlftTerms, JoinTouch, SignalQuoter, Symmetric,
};
use lob_lab::stats::{mean, sum, variance};
use lob_lab::study::{
    compare, gap_ms, grid, headline, imbalance_spread, inflation, inventory_model, is_excluded,
    model_name, models, ofi_variance, overstatement, pick, profit_variance, pulled,
    realised_variance, row, rule_name, simulate, threshold, volatility, Row, Rule,
};

fn d(x: f64) -> Double {
    Double::from_bits(x.to_bits())
}

fn f(x: Double) -> f64 {
    f64::from_bits(x.to_bits())
}

fn snapshot(ts: i64) -> Event {
    Event::Snapshot { ts, bids: vec![(200, 100)], asks: vec![(202, 100)] }
}

fn change(ts: i64, bids: Vec<(i64, i64)>, asks: Vec<(i64, i64)>) -> Event {
    Event::Change { ts, bids, asks }
}

fn gap(ts: i64) -> Event {
    Event::Gap { ts, missing_from: 1, missing_to: 2 }
}

fn run(day: usize, rule: Rule, model: QueueModel, pnl: f64, fills: usize) -> Row {
    Row {
        day,
        rule,
        model,
        pnl_btc: d(pnl),
        fills,
        fees_btc: d(0.0),
        markout_1s: d(0.0),
        halted_ms: 0,
        pulled: d(0.0),
    }
}

#[test]
fn sums_run_from_left_to_right() {
    let xs: Vec<f64> = vec![1e16, 1.0, -1e16, 1.0];
    let ds: Vec<Double> = xs.iter().map(|x| d(*x)).collect();
    assert_eq!(f(sum(&ds)), 1.0);
    for zeros in [vec![], vec![-0.0], vec![-0.0, -0.0], vec![-0.0, 0.0], vec![0.0, -0.0]] {
        let ds: Vec<Double> = zeros.iter().map(|x| d(*x)).collect();
        assert_eq!(sum(&ds).to_bits(), zeros.iter().sum::<f64>().to_bits());
    }
    assert_eq!(f(mean(&ds)), 0.25);
    assert!(f(mean(&Vec::new())).is_nan());
    let small: Vec<Double> = [1.0, 2.0, 4.0].iter().map(|x| d(*x)).collect();
    let m = 7.0 / 3.0;
    let var = ((1.0f64 - m) * (1.0 - m) + (2.0 - m) * (2.0 - m) + (4.0 - m) * (4.0 - m)) / 2.0;
    assert_eq!(f(variance(&small)), var);
}

#[test]
fn the_naive_model_is_held_against_another_day_by_day() {
    let naive = QueueModel::Naive;
    let queue = QueueModel::Pessimistic;
    let rows = vec![
        run(0, Rule::Touch, naive, 2.0, 30),
        run(0, Rule::Touch, queue, 1.0, 10),
        run(0, Rule::Glft, queue, 9.0, 99),
        // A day on which the naive model neither gained nor lost.
        run(1, Rule::Touch, naive, 0.0, 20),
        run(1, Rule::Touch, queue, 1.0, 0),
        // A day without a run of the other model.
        run(2, Rule::Touch, naive, 5.0, 20),
        run(3, Rule::Touch, naive, -4.0, 15),
        run(3, Rule::Touch, queue, -1.0, 5),
        // Only the first run of a kind counts.
        run(3, Rule::Touch, queue, 100.0, 1),
    ];
    let c = compare(&rows, 4, queue);
    let overstatements: Vec<f64> = c.overstatements.iter().map(|x| f(*x)).collect();
    let naive_pnl: Vec<f64> = c.naive_pnl.iter().map(|x| f(*x)).collect();
    let inflations: Vec<f64> = c.inflations.iter().map(|x| f(*x)).collect();
    assert_eq!(overstatements, vec![0.5, -0.75]);
    assert_eq!(naive_pnl, vec![2.0, -4.0]);
    assert_eq!(inflations, vec![3.0, 3.0]);
    assert!(can_bootstrap(&c.overstatements, 100, 1) && can_bootstrap(&c.inflations, 100, 1));
    let h = headline(&c, 100, 1);
    assert_eq!(h.days, 2);
    assert_eq!(f(h.overstatement_mean), -0.125);
    assert_eq!(f(h.fill_inflation_mean), 3.0);
    assert_eq!((f(h.fill_inflation_ci95.0), f(h.fill_inflation_ci95.1)), (3.0, 3.0));
    assert_eq!(f(h.naive_pnl_btc_mean), -1.0);
    assert!(!h.naive_pnl_positive);
    assert!(!h.excludes_zero);
    assert!(f(h.overstatement_ci95.0) <= 0.0 && f(h.overstatement_ci95.1) >= 0.0);
    assert!(pick(&rows, 2, Rule::Touch, queue).is_none());
    assert_eq!(pick(&rows, 3, Rule::Touch, queue).map(|r| r.fills), Some(5));
}

#[test]
fn an_interval_off_zero_says_so() {
    let rows: Vec<Row> = (0..8)
        .flat_map(|day| {
            vec![
                run(day, Rule::Touch, QueueModel::Naive, 2.0 + day as f64, 30),
                run(day, Rule::Touch, QueueModel::FromAhead(25), 1.0, 10),
            ]
        })
        .collect();
    let h = headline(&compare(&rows, 8, QueueModel::FromAhead(25)), 500, 7);
    assert!(h.excludes_zero && h.naive_pnl_positive);
    let none = headline(&compare(&rows, 8, QueueModel::FromAhead(50)), 500, 7);
    assert_eq!(none.days, 0);
    assert!(f(none.overstatement_mean).is_nan() && !none.excludes_zero);
}

#[test]
fn overstatement_and_inflation_need_something_to_divide_by() {
    let naive = run(0, Rule::Touch, QueueModel::Naive, f64::NAN, 3);
    let queue = run(0, Rule::Touch, QueueModel::Pessimistic, 1.0, 0);
    assert!(overstatement(&naive, &queue).is_none());
    assert!(inflation(&naive, &queue).is_none());
    assert_eq!(inflation(&queue, &naive).map(f), Some(0.0));
}

#[test]
fn profits_spread_over_days() {
    let rows = vec![
        run(0, Rule::Symmetric, QueueModel::Naive, 1.0, 1),
        run(1, Rule::Symmetric, QueueModel::Naive, 3.0, 1),
        run(0, Rule::Glft, QueueModel::Naive, 3.0, 1),
    ];
    assert_eq!(profit_variance(&rows, 2, Rule::Symmetric, QueueModel::Naive).map(f), Some(2.0));
    assert!(profit_variance(&rows, 2, Rule::Glft, QueueModel::Naive).is_none());
}

#[test]
fn gaps_add_up_to_the_next_snapshot() {
    let day = vec![snapshot(0), gap(1_000), gap(2_000), snapshot(31_000), gap(40_000)];
    assert_eq!(gap_ms(&day), 30_000);
    assert!(!is_excluded(&day));
    let mut longer = day;
    longer.push(change(70_000, vec![], vec![]));
    assert_eq!(gap_ms(&longer), 60_000);
    assert!(!is_excluded(&longer));
    longer.push(change(70_001, vec![], vec![]));
    assert!(is_excluded(&longer));
    assert_eq!(gap_ms(&Vec::new()), 0);
    assert_eq!(gap_ms(&vec![gap(5), snapshot(3)]), 0);
    assert_eq!(gap_ms(&vec![gap(i64::MIN), snapshot(i64::MAX), gap(0), snapshot(9)]), u64::MAX);
}

#[test]
fn pulled_counts_are_added() {
    let report = vec![("pulled_bid", d(2.0)), ("observations", d(50.0)), ("pulled_ask", d(3.0))];
    assert_eq!(f(pulled(&report)), 5.0);
    assert_eq!(pulled(&Vec::new()).to_bits(), Vec::<f64>::new().iter().sum::<f64>().to_bits());
    assert_eq!(pulled(&vec![("observations", d(50.0))]).to_bits(), (-0.0f64).to_bits());
    assert_eq!(pulled(&vec![("pulled_bid", d(0.0))]).to_bits(), 0.0f64.to_bits());
}

struct Joins;

impl Quoter for Joins {
    fn quote(&mut self, _ctx: &Ctx) -> Option<Quotes> {
        Some(Quotes { bid: Some(200), ask: Some(202), size: 10 })
    }

    fn observe(&mut self, _ctx: &Ctx) {}
}

#[test]
fn a_row_sums_up_a_run() {
    let events = vec![
        snapshot(0),
        Event::Trade { ts: 10, price: 200, size: 5, side: Side::Bid },
        change(1_000, vec![(200, 0), (190, 5)], vec![]),
        change(2_000, vec![(198, 7)], vec![]),
    ];
    let cfg = Config {
        latency_ms: 0,
        model: QueueModel::Naive,
        maker_fee: d(1e-3),
        tick_size: d(0.5),
        requote_ms: 0,
        max_position: 1_000,
    };
    let whole = simulate(4, Rule::Touch, cfg, &events, &mut Joins).unwrap();
    assert_eq!((whole.day, whole.fills), (4, 1));
    assert_eq!(whole.pulled.to_bits(), (-0.0f64).to_bits());
    let report = Engine::new(cfg).run(&events, &mut Joins).unwrap();
    assert_eq!(f(whole.pnl_btc), report.mids.at(2_000).map(|m| f(report.ledger.equity_btc(m))).unwrap());
    let late = Config { latency_ms: i64::MAX, ..cfg };
    assert!(simulate(4, Rule::Touch, late, &vec![snapshot(1)], &mut Joins).is_none());
    assert!(f(simulate(4, Rule::Touch, cfg, &vec![], &mut Joins).unwrap().pnl_btc).is_nan());
    let r = row(4, Rule::Touch, QueueModel::Naive, &report, 2_000, d(1.0));
    let fee = 1e-3 * 5.0 / 100.0;
    let cash = 0.0 + 5.0 / 100.0 - fee;
    assert_eq!(r.day, 4);
    assert_eq!(r.fills, 1);
    assert_eq!(f(r.fees_btc), fee);
    assert_eq!(f(r.pnl_btc), cash - 5.0 / 100.0);
    // One second after the fill the mid is (190 + 202) / 2 ticks.
    assert_eq!(f(r.markout_1s), (98.0 - 100.0) / 100.0 * 10_000.0);
    assert_eq!(f(r.pulled), 1.0);
    let before = row(4, Rule::Touch, QueueModel::Naive, &report, -1, d(0.0));
    assert!(f(before.pnl_btc).is_nan());
}

#[test]
fn the_imbalance_spreads_as_its_values_do() {
    let events = vec![
        snapshot(0),
        change(100, vec![(200, 130)], vec![]),
        change(200, vec![(200, 90)], vec![]),
        change(300, vec![], vec![(202, 60)]),
    ];
    // The imbalances are 0, 30, -10 and 30.
    let values = [0.0, 30.0, -10.0, 30.0];
    let m: f64 = values.iter().sum::<f64>() / 4.0;
    let var = values.iter().map(|v| (v - m) * (v - m)).sum::<f64>() / 3.0;
    assert_eq!(ofi_variance(&events, 1_000).map(f), Some(var));
    assert!(ofi_variance(&events[..2].to_vec(), 1_000).is_none());
}

#[test]
fn a_snapshot_starts_the_book_of_the_imbalance_again() {
    let events = vec![
        Event::Snapshot { ts: 0, bids: vec![(100, 50)], asks: vec![(101, 50)] },
        Event::Snapshot { ts: 100, bids: vec![(99, 50)], asks: vec![(101, 50)] },
        change(200, vec![], vec![(101, 100)]),
    ];
    assert_eq!(ofi_variance(&events, 1_000).map(f), Some(2_500.0));
}

#[test]
fn a_snapshot_starts_the_book_of_the_volatility_again() {
    let at = |ts: i64, bid: i64| Event::Snapshot {
        ts,
        bids: vec![(bid, 50)],
        asks: vec![(bid + 2, 50)],
    };
    let events = vec![at(0, 100), at(1_000, 98), at(2_000, 99)];
    // The mids are 50.5, 49.5 and 50.0.
    assert_eq!(realised_variance(&events, d(0.5)).map(f), Some(1.125));
}

#[test]
fn volatility_comes_from_one_mid_a_second() {
    let events = vec![
        snapshot(0),
        change(500, vec![(201, 1)], vec![]),
        change(1_000, vec![], vec![]),
        change(2_999, vec![(201, 0)], vec![]),
        change(3_000, vec![(200, 0), (198, 1)], vec![]),
    ];
    // The mids are 100.5, 100.75, 100.5 and 100.0.
    let moves = [0.25, -0.25, -0.5];
    let m: f64 = moves.iter().sum::<f64>() / 3.0;
    let var = moves.iter().map(|v| (v - m) * (v - m)).sum::<f64>() / 2.0;
    assert_eq!(realised_variance(&events, d(0.5)).map(f), Some(var));
    assert!(realised_variance(&events[..3].to_vec(), d(0.5)).is_none());
}

#[test]
fn the_touch_needs_both_sides() {
    let mut book = Book::new();
    book.set(Side::Bid, 200, 5);
    assert_eq!(touch(&book), None);
    book.set(Side::Ask, 202, 7);
    assert_eq!(touch(&book), Some(Touch { bid: 200, bid_qty: 5, ask: 202, ask_qty: 7 }));
}

#[test]
fn samples_are_taken_on_a_grid() {
    let mut events = vec![snapshot(0)];
    for i in 1..=20 {
        events.push(change(i * 100, vec![(200, 100 + i)], vec![]));
    }
    let s = sample(&events, d(0.5), 10_000, 1_000);
    assert_eq!(s.mids.len(), 21);
    let at: Vec<i64> = s.samples.iter().map(|(ts, _)| *ts).collect();
    assert_eq!(at, vec![0, 1_000, 2_000]);
    let values: Vec<f64> = s.samples.iter().map(|(_, v)| f(*v)).collect();
    assert_eq!(values, vec![0.0, 10.0, 20.0]);
    assert_eq!(f(s.mids[0].1), 100.5);
}

#[test]
fn a_gap_forgets_the_book_and_the_imbalance() {
    let events = vec![
        snapshot(0),
        change(1, vec![(200, 500)], vec![]),
        gap(2),
        change(3, vec![(200, 700)], vec![]),
        snapshot(4),
    ];
    let s = sample(&events, d(0.5), 10_000, 1);
    let seen: Vec<(i64, f64)> = s.samples.iter().map(|(ts, v)| (*ts, f(*v))).collect();
    assert_eq!(seen, vec![(0, 0.0), (1, 400.0), (4, 0.0)]);
}

#[test]
fn predictions_count_the_samples_that_moved() {
    let mids = MidSeries::new(vec![
        (0, d(100.0)),
        (10, d(101.0)),
        (20, d(101.0)),
        (30, d(99.0)),
        (40, d(98.0)),
    ]);
    let samples = vec![(0, d(5.0)), (10, d(1.0)), (20, d(3.0)), (30, d(-2.0)), (40, d(1.0))];
    let p = predict(&samples, &mids, 10);
    assert_eq!(p.n, 4);
    assert_eq!(p.moved, 3);
    assert_eq!(f(p.sign_pct), 100.0 * 2.0 / 3.0);
    assert!(f(p.slope) > 0.0 && f(p.r2) > 0.0 && f(p.r2) < 1.0);
    let none = predict(&samples, &mids, 1_000);
    assert_eq!(none.n, 0);
    assert!(f(none.sign_pct).is_nan() && f(none.slope).is_nan());
    let empty = predict(&samples, &MidSeries::new(vec![]), i64::MIN);
    assert_eq!(empty.n, 0);
}

#[test]
fn the_grid_names_its_rules_and_models() {
    let all = models(&vec![0, 25, 100]);
    let names: Vec<String> = all.iter().map(|m| model_name(*m)).collect();
    assert_eq!(
        names,
        vec!["naive", "pessimistic", "proportional", "ahead0", "ahead25", "ahead100"]
    );
    let rules = [Rule::Touch, Rule::Signal, Rule::Symmetric, Rule::Glft];
    let names: Vec<&str> = rules.iter().map(|r| rule_name(*r)).collect();
    assert_eq!(names, vec!["touch", "signal", "symmetric", "glft"]);
}

#[test]
fn the_grid_runs_every_rule_under_every_model() {
    let mut events = vec![snapshot(0)];
    for i in 1..200 {
        let ts = i * 37;
        events.push(change(ts, vec![(200, 50 + i % 17)], vec![(202, 60 - i % 13)]));
        let side = if i % 3 == 0 { Side::Bid } else { Side::Ask };
        let price = if i % 3 == 0 { 200 } else { 202 };
        events.push(Event::Trade { ts: ts + 1, price, size: 30 + i % 50, side });
    }
    let base = Config {
        latency_ms: 10,
        model: QueueModel::Pessimistic,
        maker_fee: d(-1e-4),
        tick_size: d(0.5),
        requote_ms: 7,
        max_position: 1_000,
    };
    let fitted = Intensity { a: d(2.0), kappa: d(0.5) };
    let sigma = volatility(None);
    assert_eq!(f(sigma), 1.0);
    assert_eq!(f(volatility(Some(d(3.0)))), 3.0);
    assert_eq!(f(imbalance_spread(None)), 0.0);
    assert_eq!(f(imbalance_spread(Some(d(12.0)))), 12.0);
    let glft = inventory_model(fitted, sigma, d(0.5));
    assert_eq!((f(glft.gamma), f(glft.sigma)), (0.1, 1.0));
    assert_eq!((f(glft.a), f(glft.kappa), f(glft.tick_size)), (2.0, 0.5, 0.5));
    let terms = GlftTerms { log_ratio: d(1.2f64.ln()), scale: d(0.3) };
    let limit = threshold(d(1.5), d(4.0));
    assert_eq!(f(limit), 6.0);
    let all = models(&vec![0, 50]);
    let rows = grid(3, &events, &all, base, glft, terms, limit, 1_000, 20).unwrap();
    assert_eq!(rows.len(), 4 * all.len());
    for (i, row) in rows.iter().enumerate() {
        let cfg = Config { model: all[i / 4], requote_ms: 100, ..base };
        let alone = match i % 4 {
            0 => {
                let mut q = JoinTouch { offset_ticks: 0, size: 20 };
                simulate(3, Rule::Touch, cfg, &events, &mut q)
            }
            1 => {
                let mut q = SignalQuoter::new(1_000, limit, 20);
                simulate(3, Rule::Signal, cfg, &events, &mut q)
            }
            2 => {
                let mut q = Symmetric { half_spread_ticks: 2, size: 20 };
                simulate(3, Rule::Symmetric, cfg, &events, &mut q)
            }
            _ => {
                let mut q = GlftQuoter { model: glft, terms, size: 20 };
                simulate(3, Rule::Glft, cfg, &events, &mut q)
            }
        };
        assert_eq!(format!("{row:?}"), format!("{:?}", alone.unwrap()));
        assert_eq!(row.pulled.to_bits() == (-0.0f64).to_bits(), i % 4 != 1);
    }
    assert!(rows[0].fills > 0);
    assert!(f(rows[1].pulled) > 0.0);
    assert!(grid(3, &events, &vec![], base, glft, terms, limit, 1_000, 20).unwrap().is_empty());
    let late = Config { latency_ms: i64::MAX, ..base };
    assert!(grid(3, &events, &all, late, glft, terms, limit, 1_000, 20).is_none());
}
