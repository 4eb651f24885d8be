//! How the price moved after a fill.
use vstd::prelude::*;

use crate::book::Side;
use crate::double::Double;
use crate::ledger::Fill;
use crate::sort::{stable_sort, Keyed};

verus! {

/// Mid prices in USD, sorted by timestamp.
pub struct MidSeries {
    points: Vec<(i64, Double)>,
}

impl Keyed for (i64, Double) {
    open spec fn key(&self) -> int {
        self.0 as int
    }

    fn precedes(&self, other: &Self) -> (r: bool) {
        self.0 < other.0
    }
}

impl View for MidSeries {
    type V = Seq<(i64, Double)>;

    closed spec fn view(&self) -> Seq<(i64, Double)> {
        self.points@
    }
}

/// The last mid at or before `ts`.
pub open spec fn mid_at(points: Seq<(i64, Double)>, ts: int) -> Option<Double>
    decreases points.len(),
{
    if points.len() == 0 {
        None
    } else if points.last().0 <= ts {
        Some(points.last().1)
    } else {
        mid_at(points.drop_last(), ts)
    }
}

proof fn lemma_mid_at(points: Seq<(i64, Double)>, ts: int, n: int)
    requires
        0 <= n <= points.len(),
        n > 0 ==> points[n - 1].0 <= ts,
        forall|i: int| n <= i < points.len() ==> ts < (#[trigger] points[i]).0,
    ensures
        mid_at(points, ts) == if n == 0 {
            None
        } else {
            Some(points[n - 1].1)
        },
    decreases points.len(),
{
    if n < points.len() {
        let rest = points.drop_last();
        assert forall|i: int| n <= i < rest.len() implies ts < (#[trigger] rest[i]).0 by {
            assert(rest[i] == points[i]);
        }
        assert(ts < points[points.len() - 1].0);
        lemma_mid_at(rest, ts, n);
    }
}

/// No mid comes before every timestamp that there is.
pub proof fn lemma_no_mid_before_all(mids: Seq<(i64, Double)>, ts: int)
    requires
        ts < i64::MIN,
    ensures
        mid_at(mids, ts) is None,
    decreases mids.len(),
{
    if mids.len() > 0 {
        lemma_no_mid_before_all(mids.drop_last(), ts);
    }
}

impl MidSeries {
    #[verifier::type_invariant]
    spec fn sorted(&self) -> bool {
        crate::sort::in_order(self.points@)
    }

    pub fn new(points: Vec<(i64, Double)>) -> (r: Self)
        ensures
            crate::sort::is_stable_sort(points@, r@),
    {
        Self { points: stable_sort(points) }
    }

    /// The last mid at or before `ts`, or None if the series starts later.
    pub fn at(&self, ts: i64) -> (r: Option<Double>)
        ensures
            r == mid_at(self@, ts as int),
    {
        proof {
            use_type_invariant(self);
        }
        let mut lo: usize = 0;
        let mut hi: usize = self.points.len();
        while lo < hi
            invariant
                self.sorted(),
                lo <= hi <= self.points.len(),
                lo > 0 ==> self.points[lo - 1].0 <= ts,
                forall|i: int| hi <= i < self.points.len() ==> ts < (#[trigger] self.points[i]).0,
            decreases hi - lo,
        {
            let m: usize = lo + (hi - lo) / 2;
            if self.points[m].0 <= ts {
                lo = m + 1;
            } else {
                proof {
                    assert forall|i: int| m <= i < self.points.len() implies ts < (
                    #[trigger] self.points[i]).0 by {
                        assert(self@[m as int].key() <= self@[i].key());
                    }
                }
                hi = m;
            }
        }
        proof {
            lemma_mid_at(self@, ts as int, lo as int);
        }
        if lo == 0 {
            None
        } else {
            Some(self.points[lo - 1].1)
        }
    }

    pub fn last_ts(&self) -> (r: Option<i64>)
        ensures
            self@.len() == 0 ==> r is None,
            self@.len() > 0 ==> r == Some(self@.last().0),
    {
        if self.points.len() == 0 {
            None
        } else {
            Some(self.points[self.points.len() - 1].0)
        }
    }
}

/// How far the mid went our way after a fill, in hundredths of a percent of
/// the price.
pub open spec fn markout_of(fill: Fill, mid: Double) -> Double {
    let sign = Double::of_int(crate::ledger::directed(fill.side, 1));
    sign.times(mid.minus(fill.price_usd)).over(fill.price_usd).times(Double::of_int(10_000))
}

/// The mid that a fill is marked out against, if the series reaches that far.
pub open spec fn mark_of(fill: Fill, mids: Seq<(i64, Double)>, horizon: int) -> Option<Double> {
    if mids.len() == 0 || fill.ts + horizon > mids.last().0 {
        None
    } else {
        mid_at(mids, fill.ts + horizon)
    }
}

/// The sum and the number of the markouts of some fills.
pub open spec fn marked(fills: Seq<Fill>, mids: Seq<(i64, Double)>, horizon: int) -> (Double, nat)
    decreases fills.len(),
{
    if fills.len() == 0 {
        (Double::of_int(0), 0)
    } else {
        let (sum, n) = marked(fills.drop_last(), mids, horizon);
        match mark_of(fills.last(), mids, horizon) {
            Some(mid) => (sum.plus(markout_of(fills.last(), mid)), n + 1),
            None => (sum, n),
        }
    }
}

/// The mean of `n` numbers that add up to `sum`; not a number where there are
/// none.
pub open spec fn mean_of(sum: Double, n: nat) -> Double {
    if n == 0 {
        Double::nan()
    } else {
        sum.over(Double::of_int(n as int))
    }
}

/// The mean markout of the fills.
pub open spec fn markout(fills: Seq<Fill>, mids: Seq<(i64, Double)>, horizon: int) -> Double {
    mean_of(marked(fills, mids, horizon).0, marked(fills, mids, horizon).1)
}

fn markout_bps(fills: &Vec<Fill>, mids: &MidSeries, horizon_ms: i64) -> (r: Double)
    ensures
        r == markout(fills@, mids@, horizon_ms as int),
{
    let last: Option<i64> = mids.last_ts();
    let mut sum: Double = Double::zero();
    let mut n: u64 = 0;
    let mut i: usize = 0;
    assert(fills@.take(0) =~= Seq::empty());
    while i < fills.len()
        invariant
            mids@.len() == 0 ==> last is None,
            mids@.len() > 0 ==> last == Some(mids@.last().0),
            i <= fills.len(),
            n <= i,
            (sum, n as nat) == marked(fills@.take(i as int), mids@, horizon_ms as int),
        decreases fills.len() - i,
    {
        proof {
            assert(fills@.take(i + 1).drop_last() =~= fills@.take(i as int));
            assert(fills@.take(i + 1).last() == fills[i as int]);
        }
        let f: Fill = fills[i];
        i = i + 1;
        let target: i128 = f.ts as i128 + horizon_ms as i128;
        let reached: bool = match last {
            Some(l) => target <= l as i128,
            None => false,
        };
        if !reached {
            continue;
        }
        if target < i64::MIN as i128 {
            proof {
                lemma_no_mid_before_all(mids@, target as int);
            }
            continue;
        }
        if let Some(mid) = mids.at(target as i64) {
            let sign: Double = match f.side {
                Side::Bid => Double::from_i64(1),
                Side::Ask => Double::from_i64(-1),
            };
            let bps: Double = sign.mul(mid.sub(f.price_usd)).div(f.price_usd).mul(
                Double::from_u64(10_000),
            );
            sum = sum.add(bps);
            n = n + 1;
        }
    }
    assert(fills@.take(i as int) =~= fills@);
    if n == 0 {
        Double::from_bits(crate::double::NAN_BITS)
    } else {
        sum.div(Double::from_u64(n))
    }
}

/// The mean markout of the fills at each horizon.
pub fn markouts_bps(fills: &Vec<Fill>, mids: &MidSeries, horizons_ms: &Vec<i64>) -> (r: Vec<Double>)
    ensures
        r@ == horizons_ms@.map_values(|h: i64| markout(fills@, mids@, h as int)),
{
    let mut out: Vec<Double> = Vec::new();
    let mut j: usize = 0;
    while j < horizons_ms.len()
        invariant
            j <= horizons_ms.len(),
            out@ == horizons_ms@.take(j as int).map_values(
                |h: i64| markout(fills@, mids@, h as int),
            ),
        decreases horizons_ms.len() - j,
    {
        out.push(markout_bps(fills, mids, horizons_ms[j]));
        j = j + 1;
    }
    assert(horizons_ms@.take(j as int) =~= horizons_ms@);
    out
}

/// Nothing after the horizon counts: mids that come later do not change what a
/// fill is marked out against.
pub proof fn law_the_mid_is_the_last_one_in_time(
    points: Seq<(i64, Double)>,
    later: Seq<(i64, Double)>,
    ts: int,
)
    requires
        forall|i: int| 0 <= i < later.len() ==> ts < (#[trigger] later[i]).0,
    ensures
        mid_at(points + later, ts) == mid_at(points, ts),
    decreases later.len(),
{
    let all = points + later;
    if later.len() == 0 {
        assert(all =~= points);
    } else {
        let rest = later.drop_last();
        assert forall|i: int| 0 <= i < rest.len() implies ts < (#[trigger] rest[i]).0 by {
            assert(rest[i] == later[i]);
        }
        law_the_mid_is_the_last_one_in_time(points, rest, ts);
        assert(all.drop_last() =~= points + rest);
        assert(all.last() == later[later.len() - 1]);
    }
}

/// A fill that the series does not reach past is left out.
pub proof fn law_fills_without_a_future_mid_are_skipped(
    fills: Seq<Fill>,
    fill: Fill,
    mids: Seq<(i64, Double)>,
    horizon: int,
)
    requires
        mids.len() == 0 || mids.last().0 < fill.ts + horizon,
    ensures
        markout(fills.push(fill), mids, horizon) == markout(fills, mids, horizon),
{
    assert(fills.push(fill).drop_last() =~= fills);
}

/// A sale is marked out against the same mid as a purchase, with the other
/// sign.
pub proof fn law_the_two_sides_mirror_each_other(buy: Fill, sell: Fill, mid: Double)
    requires
        buy.side is Bid,
        sell.side is Ask,
        buy.price_usd == sell.price_usd,
        crate::ledger::is_price(buy.price_usd),
        mid.minus(buy.price_usd).is_finite(),
    ensures
        markout_of(sell, mid) == markout_of(buy, mid).negated(),
{
    let p = buy.price_usd;
    let d = mid.minus(p);
    let one = Double::of_int(1);
    crate::order::lemma_of_int(1);
    crate::order::lemma_of_int(10_000);
    crate::order::lemma_of_int_negated(1);
    crate::order::lemma_times_one(d);
    crate::order::lemma_times_commutes(one, d);
    crate::order::lemma_times_negated(one, d);
    crate::order::lemma_over_negated(d, p);
    assert(!d.over(p).times(Double::of_int(10_000)).is_nan()) by {
        reveal(Double::over);
        reveal(Double::times);
    }
    crate::order::lemma_times_negated(d.over(p), Double::of_int(10_000));
}

} // verus!
