use lob_lab::book::{Book, Qty, Side};
use lob_lab::double::Double;
use lob_lab::engine::{Ctx, Quoter};
use lob_lab::event::Event;
use lob_lab::intensity::{arrivals, fit, trade_distances, Intensity};
use lob_lab::quoters::{Glft, GlftQuoter, GlftTerms, JoinTouch, SignalQuoter, Symmetric};
use lob_lab::study::pulled;

fn d(x: f64) -> Double {
    Double::from_bits(x.to_bits())
}

fn f(x: Double) -> f64 {
    f64::from_bits(x.to_bits())
}

fn glft() -> Glft {
    Glft { gamma: d(0.1), sigma: d(500.0), kappa: d(1.5), a: d(140.0), tick_size: d(0.5) }
}

fn terms(model: &Glft) -> GlftTerms {
    let ratio = f(model.ratio());
    let power = ratio.powf(f(model.exponent()));
    GlftTerms { log_ratio: d(ratio.ln()), scale: d(f(model.inner(d(power))).sqrt()) }
}

fn half_spreads(model: &Glft, q: f64) -> (f64, f64) {
    let (ask, bid) = model.half_spreads(d(q), terms(model));
    (f(ask), f(bid))
}

#[test]
fn a_flat_dealer_quotes_almost_symmetrically() {
    let (ask, bid) = half_spreads(&glft(), 0.0);
    // The steady-state form carries a (2q + 1)/2 asymmetry, so a flat
    // dealer is already skewed by half a unit of the inventory term.
    assert!((ask - bid).abs() < 0.5 * (ask + bid));
}

/// A sign that is easily got wrong: a long dealer quotes a closer ask and a
/// further bid.
#[test]
fn every_quoter_leans_against_inventory() {
    let (ask_long, bid_long) = half_spreads(&glft(), 1.0);
    let (ask_short, bid_short) = half_spreads(&glft(), -1.0);
    assert!(ask_long < bid_long, "a long dealer must quote a closer ask");
    assert!(bid_short < ask_short, "a short dealer must quote a closer bid");
}

#[test]
fn a_wider_gamma_widens_the_inventory_term() {
    let skew = |gamma: f64| {
        let g = Glft { gamma: d(gamma), ..glft() };
        let (a, b) = half_spreads(&g, 1.0);
        b - a
    };
    assert!(skew(0.5) > skew(0.05));
}

#[test]
fn the_half_spreads_are_those_of_the_formula() {
    let (gamma, sigma, kappa, a) = (0.1f64, 500.0f64, 1.5f64, 140.0f64);
    for q in [-3.0, -1.0, 0.0, 0.25, 2.0] {
        let base = (1.0 + gamma / kappa).ln() / gamma;
        let inner = sigma * sigma * gamma / (2.0 * kappa * a)
            * (1.0 + gamma / kappa).powf(1.0 + kappa / gamma);
        let scale = inner.max(0.0).sqrt();
        let ask = base - (2.0 * q - 1.0) / 2.0 * scale;
        let bid = base + (2.0 * q + 1.0) / 2.0 * scale;
        assert_eq!(half_spreads(&glft(), q), (ask, bid));
    }
}

#[test]
fn quotes_round_to_ticks_inside_the_spread() {
    let mut s = Symmetric { half_spread_ticks: 2, size: 10 };
    let mut book = Book::new();
    book.set(Side::Bid, 200, 100);
    book.set(Side::Ask, 210, 100);
    let ctx = Ctx { ts: 0, book: &book, position_usd: 0 };
    let q = s.quote(&ctx).unwrap();
    assert_eq!(q.bid, Some(203));
    assert_eq!(q.ask, Some(207));
}

#[test]
fn odd_mids_round_down() {
    let mut s = Symmetric { half_spread_ticks: 2, size: 10 };
    let mut book = Book::new();
    book.set(Side::Bid, -5, 100);
    book.set(Side::Ask, 2, 100);
    let ctx = Ctx { ts: 0, book: &book, position_usd: 0 };
    let q = s.quote(&ctx).unwrap();
    assert_eq!(q.bid, Some((-3i64 - 4).div_euclid(2)));
    assert_eq!(q.ask, Some((-3i64 + 4).div_euclid(2)));
}

#[test]
fn joining_the_touch_quotes_at_the_best_prices() {
    let mut book = Book::new();
    book.set(Side::Bid, 200, 100);
    book.set(Side::Ask, 210, 100);
    let ctx = Ctx { ts: 0, book: &book, position_usd: 0 };
    let q = JoinTouch { offset_ticks: 0, size: 10 }.quote(&ctx).unwrap();
    assert_eq!(q.bid, Some(200));
    assert_eq!(q.ask, Some(210));

    let behind = JoinTouch { offset_ticks: 1, size: 10 }.quote(&ctx).unwrap();
    assert_eq!(behind.bid, Some(199));
    assert_eq!(behind.ask, Some(211));
}

#[test]
fn an_empty_book_is_not_quoted() {
    let book = Book::new();
    let ctx = Ctx { ts: 0, book: &book, position_usd: 0 };
    assert!(Symmetric { half_spread_ticks: 2, size: 10 }.quote(&ctx).is_none());
    assert!(JoinTouch { offset_ticks: 0, size: 10 }.quote(&ctx).is_none());
    assert!(SignalQuoter::new(1, d(1.0), 10).quote(&ctx).is_none());
    let model = glft();
    assert!(GlftQuoter { model, terms: terms(&model), size: 10 }.quote(&ctx).is_none());
}

#[test]
fn a_quote_that_is_no_tick_is_not_made() {
    let mut book = Book::new();
    book.set(Side::Bid, i64::MIN, 100);
    book.set(Side::Ask, 210, 100);
    let ctx = Ctx { ts: 0, book: &book, position_usd: 0 };
    assert!(JoinTouch { offset_ticks: 1, size: 10 }.quote(&ctx).is_none());
    assert!(Symmetric { half_spread_ticks: i64::MAX, size: 10 }.quote(&ctx).is_none());
}

fn book_at(bid_qty: Qty, ask_qty: Qty) -> Book {
    let mut book = Book::new();
    book.set(Side::Bid, 200, bid_qty);
    book.set(Side::Ask, 210, ask_qty);
    book
}

#[test]
fn a_quiet_book_leaves_both_sides_quoted() {
    let mut q = SignalQuoter::new(1_000, d(100.0), 10);
    let book = book_at(50, 50);
    let ctx = Ctx { ts: 0, book: &book, position_usd: 0 };
    q.observe(&ctx);
    let quotes = q.quote(&ctx).unwrap();
    assert_eq!(quotes.bid, Some(200));
    assert_eq!(quotes.ask, Some(210));
}

#[test]
fn buyers_arriving_pull_the_ask() {
    let mut q = SignalQuoter::new(1_000, d(100.0), 10);
    let first = book_at(50, 50);
    q.observe(&Ctx { ts: 0, book: &first, position_usd: 0 });
    // Size piles onto the bid and leaves the ask: demand.
    let second = book_at(300, 10);
    let ctx = Ctx { ts: 100, book: &second, position_usd: 0 };
    q.observe(&ctx);
    let quotes = q.quote(&ctx).unwrap();
    assert_eq!(quotes.bid, Some(200), "the safe side stays quoted");
    assert_eq!(quotes.ask, None, "the threatened side is pulled");
    assert_eq!(q.pulled_ask, 1);
    assert_eq!(q.pulled_bid, 0);
    assert_eq!(f(q.max_abs), 290.0);
    assert_eq!(f(pulled(&q.report())), 1.0);
}

#[test]
fn sellers_arriving_pull_the_bid() {
    let mut q = SignalQuoter::new(1_000, d(100.0), 10);
    let first = book_at(50, 50);
    q.observe(&Ctx { ts: 0, book: &first, position_usd: 0 });
    let second = book_at(10, 300);
    let ctx = Ctx { ts: 100, book: &second, position_usd: 0 };
    q.observe(&ctx);
    let quotes = q.quote(&ctx).unwrap();
    assert_eq!(quotes.bid, None);
    assert_eq!(quotes.ask, Some(210));
    assert_eq!(q.pulled_bid, 1);
}

#[test]
fn a_high_threshold_never_pulls() {
    let mut q = SignalQuoter::new(1_000, d(1e9), 10);
    let first = book_at(50, 50);
    q.observe(&Ctx { ts: 0, book: &first, position_usd: 0 });
    let second = book_at(5_000, 1);
    let ctx = Ctx { ts: 100, book: &second, position_usd: 0 };
    q.observe(&ctx);
    let quotes = q.quote(&ctx).unwrap();
    assert!(quotes.bid.is_some() && quotes.ask.is_some());
    let pulled: f64 = q
        .report()
        .iter()
        .filter(|(k, _)| k.starts_with("pulled"))
        .map(|(_, v)| f(*v))
        .sum();
    assert_eq!(pulled, 0.0);
    assert!(q.observations > 0, "it still watched the book");
}

#[test]
fn a_long_position_moves_both_quotes_down() {
    let model = glft();
    let mut q = GlftQuoter { model, terms: terms(&model), size: 100 };
    let mut book = Book::new();
    book.set(Side::Bid, 200_000, 100);
    book.set(Side::Ask, 200_010, 100);
    let flat = q.quote(&Ctx { ts: 0, book: &book, position_usd: 0 }).unwrap();
    let long = q.quote(&Ctx { ts: 0, book: &book, position_usd: 500 }).unwrap();
    assert!(long.bid < flat.bid);
    assert!(long.ask < flat.ask);
}

/// Deterministic exponential distances: the inverse CDF of Exp(kappa)
/// evaluated on a regular grid, which is what a perfect sample looks like.
fn distances(n: usize, kappa: f64) -> Vec<f64> {
    (1..=n)
        .map(|i| {
            let u = i as f64 / (n as f64 + 1.0);
            -(1.0 - u).ln() / kappa
        })
        .collect()
}

fn fit_of(distances: &[f64], elapsed: f64, bucket: f64, buckets: usize) -> Intensity {
    let ds: Vec<Double> = distances.iter().map(|x| d(*x)).collect();
    let points = arrivals(&ds, d(elapsed), d(bucket), buckets);
    let logs: Vec<Double> = points.rates.iter().map(|r| d(f(*r).ln())).collect();
    let line = fit(&points.edges, &logs);
    Intensity { a: d(f(line.log_a).exp()), kappa: line.kappa }
}

#[test]
fn recovers_the_decay_of_a_known_sample() {
    let kappa = 2.0;
    let s = distances(5_000, kappa);
    let fit = fit_of(&s, 10_000.0, 0.5, 8);
    assert!((f(fit.kappa) - kappa).abs() / kappa < 0.15, "kappa was {}", f(fit.kappa));
    assert!(f(fit.a) > 0.0);
    assert!(!fit.is_degenerate());
}

#[test]
fn a_denser_flow_raises_a_but_not_kappa() {
    let s = distances(5_000, 2.0);
    let slow = fit_of(&s, 20_000.0, 0.5, 8);
    let fast = fit_of(&s, 10_000.0, 0.5, 8);
    assert!(f(fast.a) > f(slow.a));
    assert!((f(fast.kappa) - f(slow.kappa)).abs() < 1e-9);
}

#[test]
fn an_empty_sample_is_not_a_fit() {
    assert!(fit_of(&[], 1_000.0, 0.5, 8).is_degenerate());
}

#[test]
fn one_bucket_is_not_a_fit() {
    assert!(fit_of(&[0.1, 0.2], 1_000.0, 0.5, 8).is_degenerate());
}

#[test]
fn buckets_count_what_reaches_them() {
    let ds: Vec<Double> = [0.0, 0.5, 0.6, 1.0].iter().map(|x| d(*x)).collect();
    let points = arrivals(&ds, d(2.0), d(0.5), 8);
    let edges: Vec<f64> = points.edges.iter().map(|x| f(*x)).collect();
    let rates: Vec<f64> = points.rates.iter().map(|x| f(*x)).collect();
    assert_eq!(edges, vec![0.0, 0.5, 1.0]);
    assert_eq!(rates, vec![2.0, 1.5, 0.5]);
}

#[test]
fn the_intensity_decays_with_the_distance() {
    let i = Intensity { a: d(3.0), kappa: d(2.0) };
    assert_eq!(f(i.exponent(d(0.25))), -0.5);
    let decay = f(i.exponent(d(0.25))).exp();
    assert_eq!(f(i.lambda(d(decay))), 3.0 * decay);
    assert!(Intensity { a: d(-1.0), kappa: d(2.0) }.is_degenerate());
    assert!(Intensity { a: d(1.0), kappa: d(0.0) }.is_degenerate());
    assert!(Intensity { a: d(f64::INFINITY), kappa: d(2.0) }.is_degenerate());
    assert!(Intensity { a: d(1.0), kappa: d(f64::NAN) }.is_degenerate());
}

#[test]
fn trades_are_measured_from_the_mid() {
    let trade = |ts: i64, price: i64| Event::Trade { ts, price, size: 1, side: Side::Bid };
    let events = vec![
        trade(1_000, 5),
        Event::Snapshot { ts: 1_000, bids: vec![(200, 5)], asks: vec![(202, 5)] },
        trade(2_000, 202),
        Event::Change { ts: 2_500, bids: vec![(200, 0), (198, 1)], asks: vec![] },
        trade(6_000, 198),
    ];
    let (ds, elapsed) = trade_distances(&events, d(0.5));
    let ds: Vec<f64> = ds.iter().map(|x| f(*x)).collect();
    assert_eq!(ds, vec![0.5, 1.0]);
    assert_eq!(f(elapsed), 5.0);
    let (none, elapsed) = trade_distances(&Vec::new(), d(0.5));
    assert!(none.is_empty());
    assert_eq!(f(elapsed), 1.0);
}

#[test]
fn the_opposite_inventory_swaps_the_spreads() {
    let model = glft();
    for q in [0.0, 0.5, 1.0, 3.25, 17.0, 0.1] {
        let (ask, bid) = half_spreads(&model, q);
        assert_eq!(half_spreads(&model, -q), (bid, ask));
        let (flat_ask, flat_bid) = half_spreads(&model, 0.0);
        assert!((ask + bid - (flat_ask + flat_bid)).abs() < 1e-9);
    }
}

#[test]
fn a_denser_flow_doubles_every_rate_and_leaves_the_edges() {
    let sample: Vec<Double> = distances(200, 0.5).into_iter().map(d).collect();
    let dense: Vec<Double> = sample.iter().chain(sample.iter()).copied().collect();
    let reversed: Vec<Double> = sample.iter().rev().copied().collect();
    let bits = |xs: &Vec<Double>| xs.iter().map(|x| x.to_bits()).collect::<Vec<u64>>();
    let one = arrivals(&sample, d(30.0), d(0.5), 8);
    let two = arrivals(&dense, d(30.0), d(0.5), 8);
    let half = arrivals(&sample, d(15.0), d(0.5), 8);
    let back = arrivals(&reversed, d(30.0), d(0.5), 8);
    assert_eq!(bits(&one.edges), bits(&two.edges));
    assert_eq!(bits(&one.edges), bits(&half.edges));
    assert_eq!(bits(&two.rates), bits(&half.rates));
    assert_eq!(bits(&one.rates), bits(&back.rates));
    for (a, b) in one.rates.iter().zip(two.rates.iter()) {
        assert_eq!(2.0 * f(*a), f(*b));
    }
}

#[test]
fn another_density_raises_a_alone() {
    let sample: Vec<Double> = distances(5_000, 2.0).into_iter().map(d).collect();
    let points = arrivals(&sample, d(20_000.0), d(0.5), 8);
    let logs: Vec<Double> = points.rates.iter().map(|r| d(f(*r).ln())).collect();
    let slow = fit(&points.edges, &logs);
    for by in [1.25, -3.7, 0.1, 11.0] {
        let raised: Vec<Double> = logs.iter().map(|y| d(f(*y) + by)).collect();
        let fast = fit(&points.edges, &raised);
        assert!((f(fast.kappa) - f(slow.kappa)).abs() < 1e-12);
        assert!((f(fast.log_a) - (f(slow.log_a) + by)).abs() < 1e-12);
    }
    for factor in [3.0, 0.3, 7.5] {
        let other = arrivals(&sample, d(20_000.0 * factor), d(0.5), 8);
        assert_eq!(other.edges.len(), points.edges.len());
        for (a, b) in points.rates.iter().zip(other.rates.iter()) {
            assert!((f(*a) / f(*b) / factor - 1.0).abs() < 1e-15);
        }
        let s = fit_of(&distances(5_000, 2.0), 20_000.0, 0.5, 8);
        let g = fit_of(&distances(5_000, 2.0), 20_000.0 * factor, 0.5, 8);
        assert!((f(g.kappa) - f(s.kappa)).abs() < 1e-9);
        assert!((f(g.a) * factor / f(s.a) - 1.0).abs() < 1e-9);
    }
}
