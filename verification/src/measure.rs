//! Does order flow imbalance predict the next move?
//!
//! The mid's change over a horizon is regressed on the imbalance observed up to
//! that moment. Samples are taken on a fixed grid rather than on every update,
//! because consecutive updates share most of their window and overlapping
//! samples make any relationship look more certain than it is.
use vstd::prelude::*;

use crate::book::{Book, Levels};
use crate::double::Double;
use crate::event::{Event, EventView};
use crate::markout::MidSeries;
use crate::ofi::{Flow, Ofi, Touch};
use crate::stats::regress;

verus! {

/// The touch of a book, where both sides have one.
pub open spec fn touch_of(levels: Levels) -> Option<Touch> {
    match (levels.best_bid(), levels.best_ask()) {
        (Some((bid, bid_qty)), Some((ask, ask_qty))) => Some(Touch { bid, bid_qty, ask, ask_qty }),
        _ => None,
    }
}

/// The touch of a book, where both sides have one.
pub fn touch(book: &Book) -> (r: Option<Touch>)
    ensures
        r == touch_of(book@),
{
    match (book.best_bid(), book.best_ask()) {
        (Some((bid, bid_qty)), Some((ask, ask_qty))) => Some(Touch { bid, bid_qty, ask, ask_qty }),
        _ => None,
    }
}

/// A replay that notes mids, and samples of the imbalance.
pub struct Sampling {
    pub levels: Levels,
    pub flow: Flow,
    pub mids: Seq<(i64, Double)>,
    pub samples: Seq<(i64, Double)>,
    pub next_sample: int,
}

impl Sampling {
    pub open spec fn start(window_ms: i64) -> Sampling {
        Sampling {
            levels: Levels::empty(),
            flow: Flow::empty(window_ms),
            mids: Seq::empty(),
            samples: Seq::empty(),
            next_sample: i64::MIN as int,
        }
    }

    /// The book has just been updated to `levels`.
    pub open spec fn seen(
        self,
        ts: i64,
        levels: Levels,
        tick_size: Double,
        sample_ms: i64,
    ) -> Sampling {
        match touch_of(levels) {
            None => Sampling { levels, ..self },
            Some(now) => {
                let flow = self.flow.updated(ts, now);
                let mids = self.mids.push(
                    (ts, crate::intensity::mid_usd(now.bid + now.ask, tick_size)),
                );
                if ts >= self.next_sample {
                    Sampling {
                        levels,
                        flow,
                        mids,
                        samples: self.samples.push((ts, flow.sum)),
                        next_sample: ts + sample_ms,
                    }
                } else {
                    Sampling { levels, flow, mids, ..self }
                }
            },
        }
    }

    pub open spec fn step(self, e: EventView, tick_size: Double, sample_ms: i64) -> Sampling {
        match e {
            EventView::Gap { .. } => Sampling {
                levels: Levels::empty(),
                flow: Flow::empty(self.flow.window_ms),
                ..self
            },
            EventView::Snapshot { ts, bids, asks } => self.seen(
                ts,
                Levels::empty().update(bids, asks),
                tick_size,
                sample_ms,
            ),
            EventView::Change { ts, bids, asks } => self.seen(
                ts,
                self.levels.update(bids, asks),
                tick_size,
                sample_ms,
            ),
            _ => self,
        }
    }

    pub open spec fn of(
        events: Seq<EventView>,
        tick_size: Double,
        window_ms: i64,
        sample_ms: i64,
    ) -> Sampling
        decreases events.len(),
    {
        if events.len() == 0 {
            Sampling::start(window_ms)
        } else {
            Sampling::of(events.drop_last(), tick_size, window_ms, sample_ms).step(
                events.last(),
                tick_size,
                sample_ms,
            )
        }
    }
}

/// The mids of a replay in USD, and samples of the imbalance.
#[derive(Debug)]
pub struct Samples {
    pub mids: Vec<(i64, Double)>,
    pub samples: Vec<(i64, Double)>,
}

/// Replays the events and samples the imbalance every `sample_ms`.
pub fn sample(events: &Vec<Event>, tick_size: Double, window_ms: i64, sample_ms: i64) -> (r:
    Samples)
    ensures
        ({
            let all = Sampling::of(crate::event::views(events@), tick_size, window_ms, sample_ms);
            &&& r.mids@ == all.mids
            &&& r.samples@ == all.samples
        }),
{
    let ghost all = crate::event::views(events@);
    let mut book: Book = Book::new();
    let mut ofi: Ofi = Ofi::new(window_ms);
    let mut mids: Vec<(i64, Double)> = Vec::new();
    let mut samples: Vec<(i64, Double)> = Vec::new();
    let mut next_sample: i128 = i64::MIN as i128;
    let mut i: usize = 0;
    assert(all.take(0) =~= Seq::empty());
    while i < events.len()
        invariant
            i <= events.len(),
            all == crate::event::views(events@),
            ({
                let seen = Sampling::of(all.take(i as int), tick_size, window_ms, sample_ms);
                &&& book@ == seen.levels
                &&& ofi@ == seen.flow
                &&& mids@ == seen.mids
                &&& samples@ == seen.samples
                &&& next_sample == seen.next_sample
            }),
        decreases events.len() - i,
    {
        proof {
            assert(all.take(i + 1).drop_last() =~= all.take(i as int));
            assert(all.take(i + 1).last() == events[i as int]@);
        }
        let event: &Event = &events[i];
        i = i + 1;
        let updated: bool = match event {
            Event::Gap { .. } => {
                book.clear();
                ofi.reset();
                false
            },
            Event::Snapshot { bids, asks, .. } => {
                book.clear();
                book.update(bids, asks);
                true
            },
            Event::Change { bids, asks, .. } => {
                book.update(bids, asks);
                true
            },
            _ => false,
        };
        if updated {
            if let Some(now) = touch(&book) {
                let ts: i64 = event.ts();
                let value: Double = ofi.update(ts, now);
                let mid2: i128 = now.bid as i128 + now.ask as i128;
                mids.push((ts, Double::from_wide(mid2).mul(tick_size).div(Double::from_i64(2))));
                if ts as i128 >= next_sample {
                    samples.push((ts, value));
                    next_sample = ts as i128 + sample_ms as i128;
                }
            }
        }
    }
    assert(all.take(i as int) =~= all);
    Samples { mids, samples }
}

/// What the samples say of one horizon.
#[derive(Debug, Clone, Copy)]
pub struct Prediction {
    /// USD of mid move per unit of imbalance.
    pub slope: Double,
    pub r2: Double,
    /// How often the imbalance pointed the right way, in percent of the samples
    /// that moved.
    pub sign_pct: Double,
    pub moved: u64,
    pub n: usize,
}

/// The samples for which the mid is known at the horizon: imbalances, moves,
/// how many of them moved, and how many of those the right way.
pub struct Moves {
    pub xs: Seq<Double>,
    pub ys: Seq<Double>,
    pub moved: nat,
    pub agreed: nat,
}

impl Moves {
    pub open spec fn none() -> Moves {
        Moves { xs: Seq::empty(), ys: Seq::empty(), moved: 0, agreed: 0 }
    }

    pub open spec fn with(self, value: Double, gain: Double) -> Moves {
        let zero = Double::of_int(0);
        let moved = !value.same(zero) && !gain.same(zero);
        let agreed = moved && (zero.below(value) <==> zero.below(gain));
        Moves {
            xs: self.xs.push(value),
            ys: self.ys.push(gain),
            moved: if moved {
                self.moved + 1
            } else {
                self.moved
            },
            agreed: if agreed {
                self.agreed + 1
            } else {
                self.agreed
            },
        }
    }

    pub open spec fn step(
        self,
        sample: (i64, Double),
        mids: Seq<(i64, Double)>,
        horizon: i64,
    ) -> Moves {
        let now = crate::markout::mid_at(mids, sample.0 as int);
        let later = crate::markout::mid_at(mids, sample.0 + horizon);
        if mids.len() == 0 || sample.0 + horizon > mids.last().0 {
            self
        } else {
            match (now, later) {
                (Some(now), Some(later)) => self.with(sample.1, later.minus(now)),
                _ => self,
            }
        }
    }

    pub open spec fn of(
        samples: Seq<(i64, Double)>,
        mids: Seq<(i64, Double)>,
        horizon: i64,
    ) -> Moves
        decreases samples.len(),
    {
        if samples.len() == 0 {
            Moves::none()
        } else {
            Moves::of(samples.drop_last(), mids, horizon).step(samples.last(), mids, horizon)
        }
    }

    pub open spec fn sign_pct(self) -> Double {
        if self.moved == 0 {
            Double::nan()
        } else {
            Double::of_int(100).times(Double::of_int(self.agreed as int)).over(
                Double::of_int(self.moved as int),
            )
        }
    }
}

/// How well the imbalance predicts the move of the mid over a horizon.
pub fn predict(samples: &Vec<(i64, Double)>, mids: &MidSeries, horizon_ms: i64) -> (r: Prediction)
    ensures
        ({
            let moves = Moves::of(samples@, mids@, horizon_ms);
            &&& (r.slope, r.r2) == crate::stats::regression(moves.xs, moves.ys)
            &&& r.n == moves.xs.len()
            &&& r.moved == moves.moved
            &&& r.sign_pct == moves.sign_pct()
        }),
{
    let zero: Double = Double::zero();
    let last: Option<i64> = mids.last_ts();
    let mut x: Vec<Double> = Vec::new();
    let mut y: Vec<Double> = Vec::new();
    let mut moved: u64 = 0;
    let mut agreed: u64 = 0;
    let mut i: usize = 0;
    assert(samples@.take(0) =~= Seq::empty());
    while i < samples.len()
        invariant
            zero == Double::of_int(0),
            mids@.len() == 0 ==> last is None,
            mids@.len() > 0 ==> last == Some(mids@.last().0),
            i <= samples.len(),
            agreed <= moved <= i,
            x.len() == y.len() <= i,
            ({
                let moves = Moves::of(samples@.take(i as int), mids@, horizon_ms);
                &&& x@ == moves.xs
                &&& y@ == moves.ys
                &&& moved == moves.moved
                &&& agreed == moves.agreed
            }),
        decreases samples.len() - i,
    {
        proof {
            assert(samples@.take(i + 1).drop_last() =~= samples@.take(i as int));
            assert(samples@.take(i + 1).last() == samples[i as int]);
        }
        let (ts, value) = samples[i];
        i = i + 1;
        let target: i128 = ts as i128 + horizon_ms as i128;
        let reached: bool = match last {
            Some(l) => target <= l as i128,
            None => false,
        };
        if !reached {
            continue;
        }
        if target < i64::MIN as i128 {
            proof {
                crate::markout::lemma_no_mid_before_all(mids@, target as int);
            }
            continue;
        }
        if let (Some(now), Some(later)) = (mids.at(ts), mids.at(target as i64)) {
            let gain: Double = later.sub(now);
            // Most samples of a 100ms feed have no move at all over half a
            // second, and counting those as disagreements would bury the
            // question. The rate below is over the samples that moved.
            if !value.eq(zero) && !gain.eq(zero) {
                moved = moved + 1;
                if zero.lt(value) == zero.lt(gain) {
                    agreed = agreed + 1;
                }
            }
            x.push(value);
            y.push(gain);
        }
    }
    assert(samples@.take(i as int) =~= samples@);
    let (slope, r2, n) = regress(&x, &y);
    assert(x@.take(n as int) =~= x@);
    assert(y@.take(n as int) =~= y@);
    let sign_pct: Double = if moved > 0 {
        Double::from_u64(100).mul(Double::from_u64(agreed)).div(Double::from_u64(moved))
    } else {
        Double::from_bits(crate::double::NAN_BITS)
    };
    Prediction { slope, r2, sign_pct, moved, n }
}

/// Samples are at least `sample_ms` apart.
pub open spec fn spaced(samples: Seq<(i64, Double)>, sample_ms: int) -> bool {
    forall|i: int|
        0 < i < samples.len() ==> samples[i - 1].0 + sample_ms <= (#[trigger] samples[i]).0
}

/// Samples never overlap: each comes at least `sample_ms` after the one before.
pub proof fn law_samples_keep_their_distance(
    events: Seq<EventView>,
    tick_size: Double,
    window_ms: i64,
    sample_ms: i64,
)
    ensures
        ({
            let all = Sampling::of(events, tick_size, window_ms, sample_ms);
            &&& spaced(all.samples, sample_ms as int)
            &&& all.samples.len() > 0 ==> all.next_sample == all.samples.last().0 + sample_ms
        }),
    decreases events.len(),
{
    if events.len() > 0 {
        law_samples_keep_their_distance(events.drop_last(), tick_size, window_ms, sample_ms);
    }
}

} // verus!
