use lob_lab::book::Side;
use lob_lab::double::Double;
use lob_lab::queue::{OwnOrder, QueueModel};

fn f(x: Double) -> f64 {
    f64::from_bits(x.to_bits())
}

#[test]
fn pessimistic_waits_for_the_queue_to_trade_out() {
    let mut o = OwnOrder::new(Side::Bid, 100, 20, 50, QueueModel::Pessimistic);
    assert_eq!(o.on_trade(100, 30), 0);
    assert_eq!(f(o.queue_ahead), 20.0);
    assert_eq!(o.on_trade(100, 40), 20);
    assert_eq!(o.remaining(), 0);
}

#[test]
fn naive_fills_on_the_first_print_at_our_price() {
    let mut o = OwnOrder::new(Side::Bid, 100, 20, 50, QueueModel::Naive);
    assert_eq!(o.on_trade(100, 30), 20);
}

#[test]
fn a_trade_through_our_price_always_fills_us() {
    let mut o = OwnOrder::new(Side::Bid, 100, 20, 500, QueueModel::Pessimistic);
    assert_eq!(o.on_trade(99, 10), 20);
}

#[test]
fn a_trade_on_the_far_side_does_not_touch_us() {
    let mut o = OwnOrder::new(Side::Bid, 100, 20, 50, QueueModel::Pessimistic);
    assert_eq!(o.on_trade(101, 10), 0);
    assert_eq!(f(o.queue_ahead), 50.0);
}

#[test]
fn cancels_help_only_the_proportional_model() {
    let mut pess = OwnOrder::new(Side::Bid, 100, 10, 100, QueueModel::Pessimistic);
    let mut prop = OwnOrder::new(Side::Bid, 100, 10, 100, QueueModel::Proportional);
    pess.on_level_change(110, 70);
    prop.on_level_change(110, 70);
    assert_eq!(f(pess.queue_ahead), 100.0);
    assert!(f(prop.queue_ahead) < 100.0 && f(prop.queue_ahead) > 50.0);
}

#[test]
fn the_cancel_fraction_brackets_the_other_models() {
    // 100 ahead of us, 40 lots cancel. Nothing from ahead is the
    // pessimistic case; everything from ahead is the optimistic one.
    let advance = |model| {
        let mut o = OwnOrder::new(Side::Bid, 100, 10, 100, model);
        o.on_level_change(110, 70);
        100.0 - f(o.queue_ahead)
    };
    assert_eq!(advance(QueueModel::FromAhead(0)), 0.0);
    assert_eq!(advance(QueueModel::FromAhead(100)), 40.0);
    assert_eq!(advance(QueueModel::FromAhead(50)), 20.0);
    assert_eq!(advance(QueueModel::FromAhead(0)), advance(QueueModel::Pessimistic));
}

#[test]
fn a_larger_fraction_never_leaves_us_further_back() {
    let advance = |pct| {
        let mut o = OwnOrder::new(Side::Bid, 100, 10, 200, QueueModel::FromAhead(pct));
        o.on_level_change(210, 150);
        f(o.queue_ahead)
    };
    let steps: Vec<f64> = (0..=100).step_by(10).map(|p| advance(p as u8)).collect();
    assert!(steps.windows(2).all(|w| w[1] <= w[0]));
}

#[test]
fn the_queue_never_runs_past_zero() {
    let mut o = OwnOrder::new(Side::Bid, 100, 10, 20, QueueModel::FromAhead(100));
    o.on_level_change(30, 11);
    assert!(f(o.queue_ahead) >= 0.0);
}

#[test]
fn joins_behind_us_do_not_move_us_forward() {
    let mut o = OwnOrder::new(Side::Bid, 100, 10, 40, QueueModel::Proportional);
    o.on_level_change(50, 90);
    assert_eq!(f(o.queue_ahead), 40.0);
}

/// The same order kept in hardware numbers.
struct Reference {
    ask: bool,
    price: i64,
    size: i64,
    filled: i64,
    queue: f64,
    level: f64,
    model: QueueModel,
}

impl Reference {
    fn left(&self) -> i64 {
        self.size - self.filled
    }

    fn trade(&mut self, price: i64, size: i64) -> i64 {
        if self.left() == 0 {
            return 0;
        }
        let through = if self.ask { price > self.price } else { price < self.price };
        if through {
            let fill = self.left();
            self.filled += fill;
            return fill;
        }
        if price != self.price {
            return 0;
        }
        if self.model == QueueModel::Naive {
            let fill = self.left().min(size);
            self.filled += fill;
            return fill;
        }
        let consumed = (size as f64).min(self.queue);
        self.queue -= consumed;
        self.level = (self.level - size as f64).max(0.0);
        let leftover = size as f64 - consumed;
        if leftover <= 0.0 {
            return 0;
        }
        let fill = self.left().min(leftover.floor() as i64);
        self.filled += fill;
        fill
    }

    fn change(&mut self, old: i64, new: i64) {
        let old = (old as f64 - self.left() as f64).max(0.0);
        let new = (new as f64 - self.left() as f64).max(0.0);
        if new >= old {
            self.level = new;
            return;
        }
        let cancelled = old - new;
        match self.model {
            QueueModel::Naive | QueueModel::Pessimistic => {}
            QueueModel::FromAhead(pct) => {
                let share = f64::from(pct.min(100)) / 100.0;
                self.queue = (self.queue - (cancelled * share)).max(0.0);
            }
            QueueModel::Proportional => {
                let behind = (old - self.queue).max(0.0);
                let total = self.queue + behind;
                if total > 0.0 {
                    self.queue -= cancelled * (self.queue / total);
                    self.queue = self.queue.max(0.0);
                }
            }
        }
        self.level = new;
    }
}

#[test]
fn orders_behave_as_in_hardware_numbers() {
    let mut rng = lob_lab::bootstrap::SplitMix64::new(11);
    let models = [
        QueueModel::Naive,
        QueueModel::Pessimistic,
        QueueModel::Proportional,
        QueueModel::FromAhead(33),
        QueueModel::FromAhead(250),
    ];
    for round in 0..300 {
        let model = models[round % models.len()];
        let ask = rng.below(2) == 0;
        let side = if ask { Side::Ask } else { Side::Bid };
        let size = rng.below(500) as i64;
        let level = rng.below(2_000) as i64;
        let mut ours = OwnOrder::new(side, 100, size, level, model);
        let mut theirs = Reference {
            ask,
            price: 100,
            size,
            filled: 0,
            queue: level as f64,
            level: level as f64,
            model,
        };
        for _ in 0..30 {
            if rng.below(2) == 0 {
                let price = if rng.below(20) == 0 { 99 + rng.below(3) as i64 } else { 100 };
                let traded = rng.below(200) as i64;
                assert!(ours.can_trade(price, traded));
                assert_eq!(ours.on_trade(price, traded), theirs.trade(price, traded));
            } else {
                let (old, new) = (rng.below(3_000) as i64, rng.below(3_000) as i64);
                ours.on_level_change(old, new);
                theirs.change(old, new);
            }
            assert_eq!(f(ours.queue_ahead), theirs.queue);
            assert_eq!(f(ours.level_qty), theirs.level);
            assert_eq!(ours.filled, theirs.filled);
            assert_eq!(ours.remaining(), theirs.left());
        }
    }
}

#[test]
fn a_fill_out_of_range_is_told_beforehand() {
    let mut o = OwnOrder::new(Side::Bid, 100, -5, 0, QueueModel::Naive);
    assert!(o.can_trade(100, i64::MIN));
    o.on_trade(100, i64::MIN);
    assert_eq!(o.filled, i64::MIN);
    assert!(!o.can_trade(100, -1));
}

#[test]
fn the_naive_model_is_never_filled_less() {
    let mut rng = lob_lab::bootstrap::SplitMix64::new(3);
    let others = [QueueModel::Pessimistic, QueueModel::Proportional, QueueModel::FromAhead(40)];
    for round in 0..100 {
        let (size, level) = (rng.below(300) as i64, rng.below(300) as i64);
        let mut naive = OwnOrder::new(Side::Ask, 50, size, level, QueueModel::Naive);
        let mut other = OwnOrder::new(Side::Ask, 50, size, level, others[round % 3]);
        for _ in 0..20 {
            let (price, traded) = (49 + rng.below(3) as i64, rng.below(60) as i64);
            naive.on_trade(price, traded);
            other.on_trade(price, traded);
            assert!(naive.filled >= other.filled);
            assert!(other.filled <= size && f(other.queue_ahead) >= 0.0);
        }
    }
}

#[test]
fn cancels_from_ahead_stop_at_the_front_of_the_queue() {
    let mut o = OwnOrder::new(Side::Bid, 100, 10, 30, QueueModel::FromAhead(100));
    o.on_level_change(40, 25);
    assert_eq!(f(o.queue_ahead), 15.0);
    o.on_level_change(100, 10);
    assert_eq!(f(o.queue_ahead), 0.0);
    assert_eq!(f(o.level_qty), 0.0);
}

#[test]
fn a_negative_zero_ahead_is_the_front_of_the_queue() {
    let models = [
        QueueModel::Naive,
        QueueModel::Pessimistic,
        QueueModel::Proportional,
        QueueModel::FromAhead(0),
        QueueModel::FromAhead(40),
        QueueModel::FromAhead(100),
    ];
    for model in models {
        let mut order = OwnOrder::new(Side::Bid, 200, 10, 50, model);
        order.queue_ahead = Double::from_bits((-0.0f64).to_bits());
        order.on_level_change(60, 20);
        assert_eq!(f(order.queue_ahead), 0.0);
    }
}
