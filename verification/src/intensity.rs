//! How often trades arrive at a distance from the mid.
use vstd::prelude::*;

use crate::book::{Book, Levels};
use crate::double::Double;
use crate::event::{Event, EventView};
use crate::stats::{mean, sum_of_products};

verus! {

/// Fitted arrival intensity: lambda(delta) = a * exp(-kappa * delta), with
/// delta the distance in USD from the mid.
#[derive(Debug, Clone, Copy)]
pub struct Intensity {
    pub a: Double,
    pub kappa: Double,
}

impl Intensity {
    /// Both parameters are positive finite numbers.
    pub open spec fn usable(self) -> bool {
        let zero = Double::of_int(0);
        &&& self.a.is_finite()
        &&& self.kappa.is_finite()
        &&& zero.below(self.a)
        &&& zero.below(self.kappa)
    }

    pub fn is_degenerate(&self) -> (r: bool)
        ensures
            r == !self.usable(),
    {
        let zero: Double = Double::zero();
        !(self.a.finite() && self.kappa.finite() && zero.lt(self.a) && zero.lt(self.kappa))
    }

    /// What the decay at a distance is the exponential of.
    pub fn exponent(&self, delta: Double) -> (r: Double)
        ensures
            r == self.kappa.negated().times(delta),
            delta == Double::of_int(1) && self.kappa.is_finite() ==> r == self.kappa.negated(),
            self.usable() && delta.non_negative() && delta.is_finite() ==> r.at_most(
                Double::of_int(0),
            ),
    {
        proof {
            let down = self.kappa.negated();
            crate::order::lemma_negated(self.kappa);
            crate::order::lemma_of_int(0);
            if self.kappa.is_finite() {
                crate::order::lemma_times_one(down);
            }
            if self.usable() && delta.non_negative() && delta.is_finite() {
                reveal(Double::times);
                crate::order::lemma_signed(
                    true,
                    crate::rounding::nearest(
                        down.size() * delta.size(),
                        vstd::arithmetic::power2::pow2(1074),
                    ),
                );
            }
        }
        self.kappa.neg().mul(delta)
    }

    /// The intensity where the exponential of [`Intensity::exponent`] is `decay`.
    pub fn lambda(&self, decay: Double) -> (r: Double)
        ensures
            r == self.a.times(decay),
            decay == Double::of_int(1) && self.a.is_finite() ==> r == self.a,
    {
        proof {
            if self.a.is_finite() {
                crate::order::lemma_times_one(self.a);
            }
        }
        self.a.mul(decay)
    }
}

/// The near edge of a bucket.
pub open spec fn edge_of(i: int, bucket: Double) -> Double {
    Double::of_int(i).times(bucket)
}

/// How many distances are at least `edge`.
pub open spec fn reach(distances: Seq<Double>, edge: Double) -> nat
    decreases distances.len(),
{
    if distances.len() == 0 {
        0
    } else {
        reach(distances.drop_last(), edge) + if edge.at_most(distances.last()) {
            1nat
        } else {
            0nat
        }
    }
}

/// The edges that any distance reaches, among the first `n`.
pub open spec fn edges_of(distances: Seq<Double>, bucket: Double, n: nat) -> Seq<Double>
    decreases n,
{
    if n == 0 {
        Seq::empty()
    } else {
        let edge = edge_of(n - 1, bucket);
        let rest = edges_of(distances, bucket, (n - 1) as nat);
        if reach(distances, edge) == 0 {
            rest
        } else {
            rest.push(edge)
        }
    }
}

/// How often trades reach an edge, per second.
pub open spec fn rate_at(distances: Seq<Double>, elapsed_secs: Double, edge: Double) -> Double {
    Double::of_int(reach(distances, edge) as int).over(elapsed_secs)
}

/// The points that an intensity is fitted to.
#[derive(Debug)]
pub struct Arrivals {
    /// Distances in USD.
    pub edges: Vec<Double>,
    /// How many trades a second are at that distance or further.
    pub rates: Vec<Double>,
}

fn count_reach(distances: &Vec<Double>, edge: Double) -> (r: u64)
    ensures
        r == reach(distances@, edge),
{
    let mut n: u64 = 0;
    let mut i: usize = 0;
    assert(distances@.take(0) =~= Seq::empty());
    while i < distances.len()
        invariant
            i <= distances.len(),
            n <= i,
            n == reach(distances@.take(i as int), edge),
        decreases distances.len() - i,
    {
        assert(distances@.take(i + 1).drop_last() =~= distances@.take(i as int));
        if edge.le(distances[i]) {
            n = n + 1;
        }
        i = i + 1;
    }
    assert(distances@.take(i as int) =~= distances@);
    n
}

/// The first steps of a fit: how often trades reach each of the first `buckets`
/// edges. Edges that no trade reaches are left out.
///
/// `distances` are per-trade distances from the mid in USD, `elapsed_secs` the
/// window they were observed over, and `bucket` the bucket width in USD.
pub fn arrivals(
    distances: &Vec<Double>,
    elapsed_secs: Double,
    bucket: Double,
    buckets: usize,
) -> (r: Arrivals)
    ensures
        r.edges@ == edges_of(distances@, bucket, buckets as nat),
        r.rates@ == r.edges@.map_values(|x: Double| rate_at(distances@, elapsed_secs, x)),
{
    let mut edges: Vec<Double> = Vec::new();
    let mut rates: Vec<Double> = Vec::new();
    let mut i: usize = 0;
    while i < buckets
        invariant
            i <= buckets,
            edges@ == edges_of(distances@, bucket, i as nat),
            rates@ == edges@.map_values(|x: Double| rate_at(distances@, elapsed_secs, x)),
        decreases buckets - i,
    {
        let edge: Double = Double::from_u64(i as u64).mul(bucket);
        let count: u64 = count_reach(distances, edge);
        if count != 0 {
            edges.push(edge);
            rates.push(Double::from_u64(count).div(elapsed_secs));
            assert(rates@ =~= edges@.map_values(
                |x: Double| rate_at(distances@, elapsed_secs, x),
            ));
        }
        i = i + 1;
    }
    Arrivals { edges, rates }
}

/// A fitted line: the logarithm of the intensity at the mid, and how fast it
/// falls with the distance.
#[derive(Debug, Clone, Copy)]
pub struct Decay {
    pub log_a: Double,
    pub kappa: Double,
}

/// The slope of the least squares line; not a number where the points do not
/// spread.
pub open spec fn slope_of(xs: Seq<Double>, ys: Seq<Double>) -> Double {
    let mx = crate::stats::mean_of(xs);
    let my = crate::stats::mean_of(ys);
    let sxx = crate::stats::deviation(xs, xs, mx, mx);
    if sxx.same(Double::of_int(0)) {
        Double::nan()
    } else {
        crate::stats::deviation(xs, ys, mx, my).over(sxx)
    }
}

/// Least squares of the logarithms of the rates on the distances. Neither
/// parameter is a number where there are fewer than two points.
pub open spec fn fitted(xs: Seq<Double>, ys: Seq<Double>) -> Decay {
    if xs.len() < 2 {
        Decay { log_a: Double::nan(), kappa: Double::nan() }
    } else {
        let slope = slope_of(xs, ys);
        Decay {
            log_a: crate::stats::mean_of(ys).minus(slope.times(crate::stats::mean_of(xs))),
            kappa: slope.negated(),
        }
    }
}

/// Least squares of `log_rates` on `edges`.
pub fn fit(edges: &Vec<Double>, log_rates: &Vec<Double>) -> (r: Decay)
    requires
        edges.len() == log_rates.len(),
    ensures
        r == fitted(edges@, log_rates@),
{
    let nan: Double = Double::from_bits(crate::double::NAN_BITS);
    if edges.len() < 2 {
        return Decay { log_a: nan, kappa: nan };
    }
    let mean_x: Double = mean(edges);
    let mean_y: Double = mean(log_rates);
    let sxy: Double = sum_of_products(edges, log_rates, mean_x, mean_y);
    let sxx: Double = sum_of_products(edges, edges, mean_x, mean_x);
    let slope: Double = if sxx.eq(Double::zero()) {
        nan
    } else {
        sxy.div(sxx)
    };
    Decay { log_a: mean_y.sub(slope.mul(mean_x)), kappa: slope.neg() }
}

/// A replay that notes how far from the mid each trade is.
pub struct Trades {
    pub levels: Levels,
    pub distances: Seq<Double>,
    pub first: Option<i64>,
    pub last: i64,
}

/// Half of twice the mid, in USD.
pub open spec fn mid_usd(mid2: int, tick_size: Double) -> Double {
    Double::of_int(mid2).times(tick_size).over(Double::of_int(2))
}

impl Trades {
    pub open spec fn start() -> Trades {
        Trades { levels: Levels::empty(), distances: Seq::empty(), first: None, last: 0 }
    }

    pub open spec fn step(self, e: EventView, tick_size: Double) -> Trades {
        let seen = Trades {
            first: if self.first is Some {
                self.first
            } else {
                Some(e.time())
            },
            last: e.time(),
            ..self
        };
        match e {
            EventView::Snapshot { bids, asks, .. } => Trades {
                levels: Levels::empty().update(bids, asks),
                ..seen
            },
            EventView::Change { bids, asks, .. } => Trades {
                levels: self.levels.update(bids, asks),
                ..seen
            },
            EventView::Trade { price, .. } => match self.levels.mid2() {
                Some(mid2) => Trades {
                    distances: self.distances.push(
                        Double::of_int(price as int).times(tick_size).minus(
                            mid_usd(mid2, tick_size),
                        ).magnitude(),
                    ),
                    ..seen
                },
                None => seen,
            },
            _ => seen,
        }
    }

    pub open spec fn of(events: Seq<EventView>, tick_size: Double) -> Trades
        decreases events.len(),
    {
        if events.len() == 0 {
            Trades::start()
        } else {
            Trades::of(events.drop_last(), tick_size).step(events.last(), tick_size)
        }
    }

    /// The time between the first event and the last in seconds, at least one.
    pub open spec fn elapsed(self) -> Double {
        let first = match self.first {
            Some(ts) => ts,
            None => self.last,
        };
        Double::of_int(self.last - first).over(Double::of_int(1_000)).larger(Double::of_int(1))
    }
}

/// Distances from the mid of every trade in a replay, and the window they were
/// observed over, for the fit above.
pub fn trade_distances(events: &Vec<Event>, tick_size: Double) -> (r: (Vec<Double>, Double))
    ensures
        r.0@ == Trades::of(crate::event::views(events@), tick_size).distances,
        r.1 == Trades::of(crate::event::views(events@), tick_size).elapsed(),
{
    let ghost all = crate::event::views(events@);
    let mut book: Book = Book::new();
    let mut out: Vec<Double> = Vec::new();
    let mut first: Option<i64> = None;
    let mut last: i64 = 0;
    let mut i: usize = 0;
    assert(all.take(0) =~= Seq::empty());
    while i < events.len()
        invariant
            i <= events.len(),
            all == crate::event::views(events@),
            ({
                let seen = Trades::of(all.take(i as int), tick_size);
                &&& book@ == seen.levels
                &&& out@ == seen.distances
                &&& first == seen.first
                &&& last == seen.last
            }),
        decreases events.len() - i,
    {
        proof {
            assert(all.take(i + 1).drop_last() =~= all.take(i as int));
            assert(all.take(i + 1).last() == events[i as int]@);
        }
        let e: &Event = &events[i];
        last = e.ts();
        if first.is_none() {
            first = Some(last);
        }
        match e {
            Event::Snapshot { bids, asks, .. } => {
                book.clear();
                book.update(bids, asks);
            },
            Event::Change { bids, asks, .. } => {
                book.update(bids, asks);
            },
            Event::Trade { price, .. } => {
                if let Some(mid2) = book.wide_mid2() {
                    let mid: Double = Double::from_wide(mid2).mul(tick_size).div(
                        Double::from_i64(2),
                    );
                    out.push(Double::from_i64(*price).mul(tick_size).sub(mid).abs());
                }
            },
            _ => {},
        }
        i = i + 1;
    }
    assert(all.take(i as int) =~= all);
    let begun: i64 = match first {
        Some(ts) => ts,
        None => last,
    };
    let elapsed: Double = Double::from_wide(last as i128 - begun as i128).div(
        Double::from_i64(1_000),
    );
    (out, elapsed.max(Double::from_i64(1)))
}

/// A sample with no trade in it fits nothing.
pub proof fn law_an_empty_sample_is_not_a_fit(bucket: Double, buckets: nat, a: Double)
    ensures
        edges_of(Seq::empty(), bucket, buckets).len() == 0,
        !(Intensity { a, kappa: fitted(Seq::empty(), Seq::empty()).kappa }).usable(),
    decreases buckets,
{
    if buckets > 0 {
        law_an_empty_sample_is_not_a_fit(bucket, (buckets - 1) as nat, a);
    }
}

/// Fewer trades reach an edge that is further out.
pub proof fn law_fewer_trades_reach_further(distances: Seq<Double>, near: Double, far: Double)
    requires
        near.at_most(far),
    ensures
        reach(distances, far) <= reach(distances, near) <= distances.len(),
    decreases distances.len(),
{
    if distances.len() > 0 {
        law_fewer_trades_reach_further(distances.drop_last(), near, far);
    }
}

/// The order in which the trades came does not matter: neither for the edges nor
/// for any rate.
pub proof fn law_the_order_of_the_trades_does_not_matter(
    a: Seq<Double>,
    b: Seq<Double>,
    elapsed_secs: Double,
    bucket: Double,
    buckets: nat,
    edge: Double,
)
    requires
        a.to_multiset() == b.to_multiset(),
    ensures
        edges_of(a, bucket, buckets) == edges_of(b, bucket, buckets),
        rate_at(a, elapsed_secs, edge) == rate_at(b, elapsed_secs, edge),
{
    assert forall|e: Double| #[trigger] reach(a, e) == 0 <==> #[trigger] reach(b, e) == 0 by {
        lemma_reach_has_no_order(a, b, e);
    }
    lemma_same_edges(a, b, bucket, buckets);
    lemma_reach_has_no_order(a, b, edge);
}

proof fn lemma_reach_has_no_order(a: Seq<Double>, b: Seq<Double>, edge: Double)
    requires
        a.to_multiset() == b.to_multiset(),
    ensures
        reach(a, edge) == reach(b, edge),
{
    lemma_reach_is_a_tally(a, edge);
    lemma_reach_is_a_tally(b, edge);
    crate::sort::law_a_tally_has_no_order(a, b, |d: Double| edge.at_most(d));
}

proof fn lemma_reach_is_a_tally(distances: Seq<Double>, edge: Double)
    ensures
        reach(distances, edge) == crate::sort::tally(distances, |d: Double| edge.at_most(d)),
    decreases distances.len(),
{
    if distances.len() > 0 {
        lemma_reach_is_a_tally(distances.drop_last(), edge);
    }
}

/// Trades of two samples together reach an edge as often as those of both.
pub proof fn law_reach_adds_up(a: Seq<Double>, b: Seq<Double>, edge: Double)
    ensures
        reach(a + b, edge) == reach(a, edge) + reach(b, edge),
    decreases b.len(),
{
    if b.len() == 0 {
        assert(a + b =~= a);
    } else {
        law_reach_adds_up(a, b.drop_last(), edge);
        assert((a + b).drop_last() =~= a + b.drop_last());
    }
}

pub proof fn lemma_reach_len(distances: Seq<Double>, edge: Double)
    ensures
        reach(distances, edge) <= distances.len(),
    decreases distances.len(),
{
    if distances.len() > 0 {
        lemma_reach_len(distances.drop_last(), edge);
    }
}

proof fn lemma_same_edges(a: Seq<Double>, b: Seq<Double>, bucket: Double, n: nat)
    requires
        forall|edge: Double|
            #[trigger] reach(a, edge) == 0 <==> #[trigger] reach(b, edge) == 0,
    ensures
        edges_of(a, bucket, n) == edges_of(b, bucket, n),
    decreases n,
{
    if n > 0 {
        lemma_same_edges(a, b, bucket, (n - 1) as nat);
        let edge = edge_of(n - 1, bucket);
        assert(reach(a, edge) == 0 <==> reach(b, edge) == 0);
    }
}

/// A flow that is twice as dense, every trade coming twice in the same time,
/// doubles the rate at every edge and leaves the edges as they are.
pub proof fn law_a_denser_flow_scales_every_rate(
    distances: Seq<Double>,
    elapsed_secs: Double,
    bucket: Double,
    buckets: nat,
    edge: Double,
)
    requires
        distances.len() <= 0x8_0000_0000_0000,
        crate::ledger::is_price(elapsed_secs),
        ({
            let rate = rate_at(distances, elapsed_secs, edge);
            &&& rate.is_finite()
            &&& rate.twice().is_finite()
            &&& rate.pattern() > crate::rounding::BINADE || reach(distances, edge) == 0
        }),
    ensures
        edges_of(distances + distances, bucket, buckets) == edges_of(distances, bucket, buckets),
        rate_at(distances + distances, elapsed_secs, edge) == rate_at(
            distances,
            elapsed_secs,
            edge,
        ).twice(),
{
    let n = reach(distances, edge) as int;
    assert forall|e: Double| #[trigger] reach(distances + distances, e) == 0 <==> #[trigger] reach(
        distances,
        e,
    ) == 0 by {
        law_reach_adds_up(distances, distances, e);
    }
    lemma_same_edges(distances + distances, distances, bucket, buckets);
    law_reach_adds_up(distances, distances, edge);
    lemma_reach_len(distances, edge);
    lemma_twice_an_int(n);
    crate::order::lemma_of_int(n);
    crate::order::lemma_of_int(2 * n);
    if n == 0 {
        crate::order::lemma_zero_over(elapsed_secs);
        crate::order::lemma_plus(Double::of_int(0), Double::of_int(0));
        assert(crate::rounding::units(0) == 0);
    } else {
        crate::doubling::lemma_over_twice(Double::of_int(n), elapsed_secs);
    }
}

proof fn lemma_twice_an_int(n: int)
    requires
        0 <= n <= 0x8_0000_0000_0000,
    ensures
        Double::of_int(2 * n) == Double::of_int(n).twice(),
{
    let a = Double::of_int(n);
    let b = Double::of_int(2 * n);
    crate::order::lemma_of_int(n);
    crate::order::lemma_of_int(2 * n);
    crate::order::lemma_of_int_exact(n);
    crate::order::lemma_of_int_exact(2 * n);
    crate::order::lemma_plus(a, a);
    let unit = vstd::arithmetic::power2::pow2(1074) as int;
    assert((2 * n) * unit == 2 * (n * unit)) by (nonlinear_arith);
    crate::order::lemma_rounded_value(b);
}

/// The same trades in half the time: every rate doubles, and the edges stay.
pub proof fn law_half_the_time_doubles_every_rate(
    distances: Seq<Double>,
    elapsed_secs: Double,
    edge: Double,
)
    requires
        distances.len() <= 0x8_0000_0000_0000,
        crate::ledger::is_price(elapsed_secs),
        elapsed_secs.twice().is_finite(),
        ({
            let rate = rate_at(distances, elapsed_secs.twice(), edge);
            &&& rate.is_finite()
            &&& rate.twice().is_finite()
            &&& rate.pattern() > crate::rounding::BINADE || reach(distances, edge) == 0
        }),
    ensures
        rate_at(distances, elapsed_secs, edge) == rate_at(
            distances,
            elapsed_secs.twice(),
            edge,
        ).twice(),
{
    let n = reach(distances, edge) as int;
    let count = Double::of_int(n);
    let whole = elapsed_secs.twice();
    lemma_reach_len(distances, edge);
    crate::order::lemma_of_int(n);
    crate::order::lemma_of_int(2 * n);
    lemma_twice_an_int(n);
    crate::doubling::lemma_twice(elapsed_secs);
    crate::doubling::lemma_twice_over_twice(count, elapsed_secs);
    if n == 0 {
        crate::order::lemma_zero_over(elapsed_secs);
        crate::order::lemma_zero_over(whole);
        crate::order::lemma_plus(Double::of_int(0), Double::of_int(0));
        assert(crate::rounding::units(0) == 0);
    } else {
        crate::doubling::lemma_over_twice(count, whole);
    }
}

} // verus!
