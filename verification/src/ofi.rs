//! Order flow imbalance, after Cont, Kukanov and Stoikov (2014).
//!
//! A quoting rule that only leans against inventory does nothing about adverse
//! selection: it is a function of the position, and information is a property
//! of the next fill. If anything is to help, it has to be a signal about that
//! next fill.
//!
//! Order flow imbalance is the cheapest such signal, and it is computed from
//! the same feed the book is rebuilt from. Each book update contributes the
//! change in demand at the touch: size added to the bid and size pulled from
//! the ask push the price up, and the reverse pushes it down. Summed over a
//! window it is the imbalance, and it predicts the next move over horizons of
//! seconds.
use std::collections::VecDeque;

use vstd::prelude::*;

use crate::book::{Qty, Tick};
use crate::double::Double;
pub use crate::stats::regress;

verus! {

/// The top of the book at one instant.
#[derive(Debug, Default, Clone, Copy, PartialEq, Eq, Structural)]
pub struct Touch {
    pub bid: Tick,
    pub bid_qty: Qty,
    pub ask: Tick,
    pub ask_qty: Qty,
}

/// The demand that a transition adds at the bid.
pub open spec fn demand(prev: Touch, now: Touch) -> Double {
    if now.bid > prev.bid {
        Double::of_int(now.bid_qty as int)
    } else if now.bid == prev.bid {
        Double::of_int(now.bid_qty - prev.bid_qty)
    } else {
        Double::of_int(prev.bid_qty as int).negated()
    }
}

/// The supply that a transition takes away at the ask.
pub open spec fn supply(prev: Touch, now: Touch) -> Double {
    if now.ask < prev.ask {
        Double::of_int(now.ask_qty as int).negated()
    } else if now.ask == prev.ask {
        Double::of_int(now.ask_qty - prev.ask_qty).negated()
    } else {
        Double::of_int(prev.ask_qty as int)
    }
}

/// The contribution of a transition to the imbalance.
pub open spec fn contributed(prev: Touch, now: Touch) -> Double {
    demand(prev, now).plus(supply(prev, now))
}

/// A rolling imbalance as a value.
#[verifier::ext_equal]
pub struct Flow {
    pub window_ms: i64,
    pub prev: Option<Touch>,
    pub events: Seq<(i64, Double)>,
    pub sum: Double,
}

impl Flow {
    pub open spec fn empty(window_ms: i64) -> Flow {
        Flow { window_ms, prev: None, events: Seq::empty(), sum: Double::of_int(0) }
    }

    /// The contribution of the next touch.
    pub open spec fn next(self, now: Touch) -> Double {
        match self.prev {
            Some(prev) => contributed(prev, now),
            None => Double::of_int(0),
        }
    }

    pub open spec fn taken(self, ts: i64, now: Touch) -> Flow {
        let e = self.next(now);
        if e.same(Double::of_int(0)) {
            Flow { prev: Some(now), ..self }
        } else {
            Flow {
                prev: Some(now),
                events: self.events.push((ts, e)),
                sum: self.sum.plus(e),
                ..self
            }
        }
    }

    /// Without the contributions in front that are older than the window.
    pub open spec fn forgotten(self, ts: i64) -> Flow
        decreases self.events.len(),
    {
        if self.events.len() > 0 && ts - self.events[0].0 > self.window_ms {
            (Flow {
                events: self.events.drop_first(),
                sum: self.sum.minus(self.events[0].1),
                ..self
            }).forgotten(ts)
        } else {
            self
        }
    }

    pub open spec fn updated(self, ts: i64, now: Touch) -> Flow {
        self.taken(ts, now).forgotten(ts)
    }
}

/// Rolling sum of the per-update contributions over a time window.
pub struct Ofi {
    window_ms: i64,
    prev: Option<Touch>,
    events: VecDeque<(i64, Double)>,
    sum: Double,
}

impl View for Ofi {
    type V = Flow;

    closed spec fn view(&self) -> Flow {
        Flow {
            window_ms: self.window_ms,
            prev: self.prev,
            events: self.events@,
            sum: self.sum,
        }
    }
}

fn difference(a: Qty, b: Qty) -> (r: Double)
    ensures
        r == Double::of_int(a - b),
{
    Double::from_wide(a as i128 - b as i128)
}

impl Ofi {
    pub fn new(window_ms: i64) -> (r: Self)
        ensures
            r@ == Flow::empty(window_ms),
    {
        Self { window_ms, prev: None, events: VecDeque::new(), sum: Double::zero() }
    }

    /// The contribution of a single transition, which is the whole model:
    ///
    /// - the bid improves, so every lot resting there is new demand;
    /// - the bid holds, so only the change in size is new demand;
    /// - the bid is taken out or cancelled, so all of the old size is gone.
    ///
    /// The ask is the mirror image, entering with the opposite sign.
    pub fn contribution(prev: Touch, now: Touch) -> (r: Double)
        ensures
            r == contributed(prev, now),
    {
        let bid: Double = if now.bid > prev.bid {
            Double::from_i64(now.bid_qty)
        } else if now.bid == prev.bid {
            difference(now.bid_qty, prev.bid_qty)
        } else {
            Double::from_i64(prev.bid_qty).neg()
        };
        let ask: Double = if now.ask < prev.ask {
            Double::from_i64(now.ask_qty).neg()
        } else if now.ask == prev.ask {
            difference(now.ask_qty, prev.ask_qty).neg()
        } else {
            Double::from_i64(prev.ask_qty)
        };
        bid.add(ask)
    }

    /// Feeds one book update and returns the rolling imbalance.
    pub fn update(&mut self, ts: i64, now: Touch) -> (r: Double)
        ensures
            final(self)@ == old(self)@.updated(ts, now),
            r == final(self)@.sum,
    {
        let e: Double = match self.prev {
            None => Double::zero(),
            Some(prev) => Self::contribution(prev, now),
        };
        self.prev = Some(now);
        if !e.eq(Double::zero()) {
            self.events.push_back((ts, e));
            self.sum = self.sum.add(e);
        }
        let ghost taken = self@;
        assert(taken =~= old(self)@.taken(ts, now));
        while self.events.len() > 0 && ts as i128 - self.events[0].0 as i128
            > self.window_ms as i128
            invariant
                self@.forgotten(ts) == taken.forgotten(ts),
            decreases self.events.len(),
        {
            let ghost before = self@;
            match self.events.pop_front() {
                Some((_, e0)) => {
                    self.sum = self.sum.sub(e0);
                    assert(self@ =~= Flow {
                        events: before.events.drop_first(),
                        sum: before.sum.minus(before.events[0].1),
                        ..before
                    });
                },
                None => {},
            }
        }
        self.sum
    }

    pub fn value(&self) -> (r: Double)
        ensures
            r == self@.sum,
    {
        self.sum
    }

    pub fn reset(&mut self)
        ensures
            final(self)@ == Flow::empty(old(self)@.window_ms),
    {
        self.prev = None;
        self.events.clear();
        self.sum = Double::zero();
        assert(self@ =~= Flow::empty(old(self)@.window_ms));
    }
}

/// A book that did not change contributes nothing.
pub proof fn law_an_untouched_book_contributes_nothing(touch: Touch)
    ensures
        contributed(touch, touch) == Double::of_int(0),
{
    let zero = Double::of_int(0);
    crate::order::lemma_of_int(0);
    crate::order::lemma_negated(zero);
    crate::order::lemma_plus(zero, zero.negated());
    assert(crate::rounding::units(0) == 0);
}

/// The integer that a transition contributes.
pub open spec fn contributed_int(prev: Touch, now: Touch) -> int {
    let bid = if now.bid > prev.bid {
        now.bid_qty as int
    } else if now.bid == prev.bid {
        now.bid_qty - prev.bid_qty
    } else {
        -prev.bid_qty
    };
    let ask = if now.ask < prev.ask {
        -now.ask_qty
    } else if now.ask == prev.ask {
        prev.ask_qty - now.ask_qty
    } else {
        prev.ask_qty as int
    };
    bid + ask
}

proof fn lemma_negated_int(a: Double, n: int)
    requires
        a.is_int(n),
    ensures
        a.negated().is_int(-n),
{
    let unit = vstd::arithmetic::power2::pow2(1074) as int;
    crate::order::lemma_negated(a);
    assert(-(n * unit) == (-n) * unit) by (nonlinear_arith);
}

/// Contributions are exact as long as the quantities are below two to the
/// power of 51.
pub proof fn law_contributions_are_exact(prev: Touch, now: Touch)
    requires
        0 <= prev.bid_qty <= 0x8_0000_0000_0000,
        0 <= prev.ask_qty <= 0x8_0000_0000_0000,
        0 <= now.bid_qty <= 0x8_0000_0000_0000,
        0 <= now.ask_qty <= 0x8_0000_0000_0000,
    ensures
        contributed(prev, now).is_int(contributed_int(prev, now)),
{
    crate::order::lemma_of_int_exact(prev.bid_qty as int);
    crate::order::lemma_of_int_exact(prev.ask_qty as int);
    crate::order::lemma_of_int_exact(now.bid_qty as int);
    crate::order::lemma_of_int_exact(now.ask_qty as int);
    crate::order::lemma_of_int_exact(now.bid_qty - prev.bid_qty);
    crate::order::lemma_of_int_exact(now.ask_qty - prev.ask_qty);
    lemma_negated_int(Double::of_int(prev.bid_qty as int), prev.bid_qty as int);
    lemma_negated_int(Double::of_int(now.ask_qty as int), now.ask_qty as int);
    lemma_negated_int(Double::of_int(now.ask_qty - prev.ask_qty), now.ask_qty - prev.ask_qty);
    let bid = if now.bid > prev.bid {
        now.bid_qty as int
    } else if now.bid == prev.bid {
        now.bid_qty - prev.bid_qty
    } else {
        -prev.bid_qty
    };
    crate::order::lemma_plus_of_ints(
        demand(prev, now),
        supply(prev, now),
        bid,
        contributed_int(prev, now) - bid,
    );
}

/// The touch seen from the other side: bids become asks at negated prices.
pub open spec fn mirrored(touch: Touch) -> Touch {
    Touch {
        bid: (-touch.ask) as i64,
        bid_qty: touch.ask_qty,
        ask: (-touch.bid) as i64,
        ask_qty: touch.bid_qty,
    }
}

/// Mirroring the book changes the sign of the imbalance.
pub proof fn law_the_book_is_antisymmetric(prev: Touch, now: Touch)
    requires
        prev.bid > i64::MIN,
        prev.ask > i64::MIN,
        now.bid > i64::MIN,
        now.ask > i64::MIN,
    ensures
        contributed(mirrored(prev), mirrored(now)).same(contributed(prev, now).negated()),
{
    let d = demand(prev, now);
    let s = supply(prev, now);
    crate::order::lemma_of_int(now.bid_qty - prev.bid_qty);
    crate::order::lemma_of_int(now.ask_qty - prev.ask_qty);
    crate::order::lemma_of_int(now.bid_qty as int);
    crate::order::lemma_of_int(now.ask_qty as int);
    crate::order::lemma_of_int(prev.bid_qty as int);
    crate::order::lemma_of_int(prev.ask_qty as int);
    crate::order::lemma_negated(d);
    crate::order::lemma_negated(s);
    assert(demand(mirrored(prev), mirrored(now)) == s.negated());
    assert(supply(mirrored(prev), mirrored(now)) == d.negated());
    crate::order::lemma_plus(d, s);
    crate::order::lemma_plus(s.negated(), d.negated());
    let u = d.value() + s.value();
    crate::order::lemma_rounded(u, d.is_neg() && s.is_neg());
    crate::order::lemma_rounded(-u, s.negated().is_neg() && d.negated().is_neg());
    crate::order::lemma_negated(d.plus(s));
}

/// A transition and its reverse cancel out.
pub proof fn law_the_way_back_takes_it_back(prev: Touch, now: Touch)
    ensures
        contributed(now, prev).same(contributed(prev, now).negated()),
{
    let d = demand(prev, now);
    let s = supply(prev, now);
    let x = demand(now, prev);
    let y = supply(now, prev);
    let bids = now.bid_qty - prev.bid_qty;
    let asks = now.ask_qty - prev.ask_qty;
    crate::order::lemma_of_int(bids);
    crate::order::lemma_of_int(asks);
    crate::order::lemma_of_int(-bids);
    crate::order::lemma_of_int(-asks);
    crate::order::lemma_of_int(now.bid_qty as int);
    crate::order::lemma_of_int(now.ask_qty as int);
    crate::order::lemma_of_int(prev.bid_qty as int);
    crate::order::lemma_of_int(prev.ask_qty as int);
    if bids != 0 {
        crate::order::lemma_of_int_negated(bids);
    }
    if asks != 0 {
        crate::order::lemma_of_int_negated(asks);
    }
    crate::order::lemma_negated(Double::of_int(bids));
    crate::order::lemma_negated(Double::of_int(asks));
    crate::order::lemma_negated(Double::of_int(-asks));
    crate::order::lemma_negated(Double::of_int(now.bid_qty as int));
    crate::order::lemma_negated(Double::of_int(prev.bid_qty as int));
    crate::order::lemma_negated(Double::of_int(now.ask_qty as int));
    crate::order::lemma_negated(Double::of_int(prev.ask_qty as int));
    assert(crate::rounding::units(0) == 0);
    assert(x.value() == -d.value());
    assert(y.value() == -s.value());
    crate::order::lemma_plus(d, s);
    crate::order::lemma_plus(x, y);
    let u = d.value() + s.value();
    crate::order::lemma_rounded(u, d.is_neg() && s.is_neg());
    crate::order::lemma_rounded(-u, x.is_neg() && y.is_neg());
    crate::order::lemma_negated(d.plus(s));
}

/// Size that joins the bid is demand, all of it where the bid improves.
pub proof fn law_size_at_the_bid_is_demand(prev: Touch, now: Touch)
    requires
        now.ask == prev.ask,
        now.ask_qty == prev.ask_qty,
        prev.bid <= now.bid,
    ensures
        contributed(prev, now).same(
            Double::of_int(
                if now.bid > prev.bid {
                    now.bid_qty as int
                } else {
                    now.bid_qty - prev.bid_qty
                },
            ),
        ),
{
    let d = demand(prev, now);
    let s = supply(prev, now);
    crate::order::lemma_of_int(0);
    crate::order::lemma_of_int(now.bid_qty as int);
    crate::order::lemma_of_int(now.bid_qty - prev.bid_qty);
    crate::order::lemma_negated(Double::of_int(0));
    crate::order::lemma_plus(d, s);
    assert(crate::rounding::units(0) == 0);
    assert(s.value() == 0);
    crate::order::lemma_rounded(d.value(), d.is_neg() && s.is_neg());
    crate::order::lemma_rounded_value(d);
    crate::order::lemma_rounded(d.value(), d.is_neg());
}

/// The size of an integer.
pub open spec fn size_of(n: int) -> int {
    if n < 0 {
        -n
    } else {
        n
    }
}

/// The sum of the sizes of some integers.
pub open spec fn weight(ns: Seq<int>) -> int
    decreases ns.len(),
{
    if ns.len() == 0 {
        0
    } else {
        size_of(ns[0]) + weight(ns.drop_first())
    }
}

pub open spec fn total(ns: Seq<int>) -> int
    decreases ns.len(),
{
    if ns.len() == 0 {
        0
    } else {
        ns[0] + total(ns.drop_first())
    }
}

impl Flow {
    /// The contributions in the window are the integers `ns`, and the imbalance
    /// is their sum.
    pub open spec fn adds_up(self, ns: Seq<int>) -> bool {
        &&& self.events.len() == ns.len()
        &&& forall|i: int| 0 <= i < ns.len() ==> (#[trigger] self.events[i]).1.is_int(ns[i])
        &&& self.sum.is_int(total(ns))
        &&& weight(ns) <= 0x20_0000_0000_0000
    }
}

proof fn lemma_total_push(ns: Seq<int>, n: int)
    ensures
        total(ns.push(n)) == total(ns) + n,
        weight(ns.push(n)) == weight(ns) + size_of(n),
        size_of(total(ns)) <= weight(ns),
    decreases ns.len(),
{
    if ns.len() == 0 {
        reveal_with_fuel(total, 2);
        reveal_with_fuel(weight, 2);
        assert(ns.push(n).drop_first() =~= Seq::empty());
    } else {
        lemma_total_push(ns.drop_first(), n);
        assert(ns.push(n).drop_first() =~= ns.drop_first().push(n));
    }
}

proof fn lemma_forgotten_adds_up(flow: Flow, ts: i64, ns: Seq<int>) -> (left: Seq<int>)
    requires
        flow.adds_up(ns),
    ensures
        flow.forgotten(ts).adds_up(left),
    decreases ns.len(),
{
    if flow.events.len() > 0 && ts - flow.events[0].0 > flow.window_ms {
        let rest = ns.drop_first();
        let next = Flow {
            events: flow.events.drop_first(),
            sum: flow.sum.minus(flow.events[0].1),
            ..flow
        };
        assert(flow.events[0].1.is_int(ns[0]));
        lemma_total_push(rest, 0);
        crate::order::lemma_minus_of_ints(flow.sum, flow.events[0].1, total(ns), ns[0]);
        assert forall|i: int| 0 <= i < rest.len() implies (#[trigger] next.events[i]).1.is_int(
            rest[i],
        ) by {
            assert(flow.events[i + 1].1.is_int(ns[i + 1]));
        }
        lemma_forgotten_adds_up(next, ts, rest)
    } else {
        ns
    }
}

/// The imbalance is the exact sum of the contributions in the window, as long
/// as their sizes add up to no more than two to the power of 53.
pub proof fn law_the_imbalance_is_the_sum_over_the_window(
    flow: Flow,
    ts: i64,
    now: Touch,
    ns: Seq<int>,
    n: int,
)
    requires
        flow.adds_up(ns),
        flow.next(now).is_int(n),
        weight(ns) + size_of(n) <= 0x20_0000_0000_0000,
    ensures
        exists|left: Seq<int>| #[trigger] flow.updated(ts, now).adds_up(left),
{
    let e = flow.next(now);
    let zero = Double::of_int(0);
    let taken = flow.taken(ts, now);
    lemma_total_push(ns, n);
    crate::order::lemma_of_int(0);
    crate::order::lemma_plus_of_ints(flow.sum, e, total(ns), n);
    let more = if e.same(zero) {
        ns
    } else {
        ns.push(n)
    };
    assert(taken.adds_up(more)) by {
        if !e.same(zero) {
            assert forall|i: int| 0 <= i < more.len() implies (
            #[trigger] taken.events[i]).1.is_int(more[i]) by {
                if i < ns.len() {
                    assert(flow.events[i].1.is_int(ns[i]));
                }
            }
        } else {
            assert forall|i: int| 0 <= i < more.len() implies (
            #[trigger] taken.events[i]).1.is_int(more[i]) by {
                assert(flow.events[i].1.is_int(ns[i]));
            }
        }
    }
    let left = lemma_forgotten_adds_up(taken, ts, more);
    assert(flow.updated(ts, now).adds_up(left));
}

/// A new window holds nothing.
pub proof fn law_an_empty_window_adds_up(window_ms: i64)
    ensures
        Flow::empty(window_ms).adds_up(Seq::empty()),
{
    crate::order::lemma_of_int_exact(0);
}

/// Contributions whose times do not run backwards.
pub open spec fn in_time_order(events: Seq<(i64, Double)>) -> bool {
    forall|i: int, j: int|
        0 <= i <= j < events.len() ==> (#[trigger] events[i]).0 <= (#[trigger] events[j]).0
}

/// The window forgets: nothing older than it is left.
pub proof fn law_the_window_forgets(flow: Flow, ts: i64)
    requires
        in_time_order(flow.events),
    ensures
        ({
            let after = flow.forgotten(ts);
            &&& in_time_order(after.events)
            &&& forall|i: int|
                0 <= i < after.events.len() ==> ts - (#[trigger] after.events[i]).0
                    <= flow.window_ms
        }),
    decreases flow.events.len(),
{
    if flow.events.len() > 0 && ts - flow.events[0].0 > flow.window_ms {
        let next = Flow {
            events: flow.events.drop_first(),
            sum: flow.sum.minus(flow.events[0].1),
            ..flow
        };
        assert forall|i: int, j: int| 0 <= i <= j < next.events.len() implies (
        #[trigger] next.events[i]).0 <= (#[trigger] next.events[j]).0 by {
            assert(flow.events[i + 1].0 <= flow.events[j + 1].0);
        }
        law_the_window_forgets(next, ts);
    } else {
        assert forall|i: int| 0 <= i < flow.events.len() implies ts - (
        #[trigger] flow.events[i]).0 <= flow.window_ms by {
            assert(flow.events[0].0 <= flow.events[i].0);
        }
    }
}

} // verus!
