//! The quoting rules that the study compares.
use vstd::prelude::*;

use crate::book::{Levels, Qty, Tick};
use crate::double::Double;
use crate::engine::{Ctx, Quoter, Quotes};
use crate::measure::touch;
use crate::ofi::{Flow, Ofi};
use crate::stats::count;

verus! {

/// Quotes at two prices, none where either is no tick.
pub open spec fn quotes_at(bid: int, ask: int, size: Qty) -> Option<Quotes> {
    if crate::desk::in_i64(bid) && crate::desk::in_i64(ask) {
        Some(Quotes { bid: Some(bid as i64), ask: Some(ask as i64), size })
    } else {
        None
    }
}

fn quote_at(bid: i128, ask: i128, size: Qty) -> (r: Option<Quotes>)
    ensures
        r == quotes_at(bid as int, ask as int, size),
{
    let lo: i128 = i64::MIN as i128;
    let hi: i128 = i64::MAX as i128;
    if lo <= bid && bid <= hi && lo <= ask && ask <= hi {
        Some(Quotes { bid: Some(bid as i64), ask: Some(ask as i64), size })
    } else {
        None
    }
}

fn half_down(n: i128) -> (r: i128)
    requires
        n > i128::MIN,
    ensures
        r == n as int / 2,
{
    if n >= 0 {
        n / 2
    } else {
        -((-(n + 1)) / 2) - 1
    }
}

/// Fixed distance from the mid, no inventory term. The control.
pub struct Symmetric {
    pub half_spread_ticks: i64,
    pub size: Qty,
}

impl Symmetric {
    pub open spec fn quotes(self, levels: Levels) -> Option<Quotes> {
        match levels.mid2() {
            // Twice the mid in ticks, so halve after adding the offset.
            Some(mid2) => quotes_at(
                (mid2 - 2 * self.half_spread_ticks) / 2,
                (mid2 + 2 * self.half_spread_ticks) / 2,
                self.size,
            ),
            None => None,
        }
    }
}

impl Quoter for Symmetric {
    open spec fn watched(self, after: Self, ts: i64, levels: Levels, position: int) -> bool {
        after == self
    }

    open spec fn asked(
        self,
        after: Self,
        ts: i64,
        levels: Levels,
        position: int,
        answer: Option<Quotes>,
    ) -> bool {
        after == self && answer == self.quotes(levels)
    }

    fn observe(&mut self, _ctx: &Ctx)
        ensures
            *final(self) == *old(self),
    {
    }

    fn quote(&mut self, ctx: &Ctx) -> (r: Option<Quotes>)
        ensures
            r == old(self).quotes(ctx.book@),
            *final(self) == *old(self),
    {
        match ctx.book.wide_mid2() {
            Some(mid2) => {
                let offset: i128 = 2 * (self.half_spread_ticks as i128);
                quote_at(half_down(mid2 - offset), half_down(mid2 + offset), self.size)
            },
            None => None,
        }
    }
}

/// Joins the best bid and the best ask, which is where queue position decides
/// everything. A quoter that rests behind the touch is filled almost entirely
/// by trades sweeping through it, and a sweep fills you whatever your queue
/// position was, so the fill model stops mattering. That is measurable: with
/// `Symmetric { half_spread_ticks: 2 }` all three fill models produce byte
/// identical P&L.
pub struct JoinTouch {
    /// 0 joins the touch. 1 rests one tick behind it.
    pub offset_ticks: i64,
    pub size: Qty,
}

impl JoinTouch {
    pub open spec fn quotes(self, levels: Levels) -> Option<Quotes> {
        match crate::measure::touch_of(levels) {
            Some(now) => quotes_at(
                now.bid - self.offset_ticks,
                now.ask + self.offset_ticks,
                self.size,
            ),
            None => None,
        }
    }
}

impl Quoter for JoinTouch {
    open spec fn watched(self, after: Self, ts: i64, levels: Levels, position: int) -> bool {
        after == self
    }

    open spec fn asked(
        self,
        after: Self,
        ts: i64,
        levels: Levels,
        position: int,
        answer: Option<Quotes>,
    ) -> bool {
        after == self && answer == self.quotes(levels)
    }

    fn observe(&mut self, _ctx: &Ctx)
        ensures
            *final(self) == *old(self),
    {
    }

    fn quote(&mut self, ctx: &Ctx) -> (r: Option<Quotes>)
        ensures
            r == old(self).quotes(ctx.book@),
            *final(self) == *old(self),
    {
        match touch(ctx.book) {
            Some(now) => {
                let offset: i128 = self.offset_ticks as i128;
                quote_at(now.bid as i128 - offset, now.ask as i128 + offset, self.size)
            },
            None => None,
        }
    }
}

/// Gueant, Lehalle and Fernandez-Tapia (2013) steady-state quotes.
///
/// The formula has a logarithm, a power and a square root in it. None of them
/// depends on the inventory, so they are taken once, outside: [`Glft::ratio`],
/// [`Glft::exponent`] and [`Glft::inner`] say of what.
#[derive(Debug, Clone, Copy)]
pub struct Glft {
    pub gamma: Double,
    /// Volatility in USD per square root of a second.
    pub sigma: Double,
    pub kappa: Double,
    pub a: Double,
    pub tick_size: Double,
}

/// What the formula takes from outside.
#[derive(Debug, Clone, Copy)]
pub struct GlftTerms {
    /// The natural logarithm of [`Glft::ratio`].
    pub log_ratio: Double,
    /// The square root of [`Glft::inner`].
    pub scale: Double,
}

impl Glft {
    pub open spec fn ratio_of(self) -> Double {
        Double::of_int(1).plus(self.gamma.over(self.kappa))
    }

    pub open spec fn exponent_of(self) -> Double {
        Double::of_int(1).plus(self.kappa.over(self.gamma))
    }

    pub open spec fn inner_of(self, power: Double) -> Double {
        let drift = self.sigma.times(self.sigma).times(self.gamma);
        let flow = Double::of_int(2).times(self.kappa).times(self.a);
        drift.over(flow).times(power).larger(Double::of_int(0))
    }

    pub open spec fn base(self, terms: GlftTerms) -> Double {
        terms.log_ratio.over(self.gamma)
    }

    /// How far the ask half-spread lies below the base for inventory `q`.
    pub open spec fn ask_lean(q: Double, scale: Double) -> Double {
        Double::of_int(2).times(q).minus(Double::of_int(1)).over(Double::of_int(2)).times(scale)
    }

    /// How far the bid half-spread lies above the base for inventory `q`.
    pub open spec fn bid_lean(q: Double, scale: Double) -> Double {
        Double::of_int(2).times(q).plus(Double::of_int(1)).over(Double::of_int(2)).times(scale)
    }

    pub open spec fn ask_spread(self, q: Double, terms: GlftTerms) -> Double {
        self.base(terms).minus(Glft::ask_lean(q, terms.scale))
    }

    pub open spec fn bid_spread(self, q: Double, terms: GlftTerms) -> Double {
        self.base(terms).plus(Glft::bid_lean(q, terms.scale))
    }

    /// What the logarithm is taken of, and what is raised to a power.
    pub fn ratio(&self) -> (r: Double)
        ensures
            r == self.ratio_of(),
    {
        Double::from_i64(1).add(self.gamma.div(self.kappa))
    }

    /// The power that the ratio is raised to.
    pub fn exponent(&self) -> (r: Double)
        ensures
            r == self.exponent_of(),
    {
        Double::from_i64(1).add(self.kappa.div(self.gamma))
    }

    /// What the square root is taken of, from the power.
    pub fn inner(&self, power: Double) -> (r: Double)
        ensures
            r == self.inner_of(power),
    {
        let drift: Double = self.sigma.mul(self.sigma).mul(self.gamma);
        let flow: Double = Double::from_i64(2).mul(self.kappa).mul(self.a);
        drift.div(flow).mul(power).max(Double::zero())
    }

    /// Returns (ask half-spread, bid half-spread) in USD for inventory `q`,
    /// expressed in units of the quote size.
    pub fn half_spreads(&self, q: Double, terms: GlftTerms) -> (r: (Double, Double))
        ensures
            r.0 == self.ask_spread(q, terms),
            r.1 == self.bid_spread(q, terms),
    {
        let one: Double = Double::from_i64(1);
        let two: Double = Double::from_i64(2);
        let base: Double = terms.log_ratio.div(self.gamma);
        let ask: Double = base.sub(two.mul(q).sub(one).div(two).mul(terms.scale));
        let bid: Double = base.add(two.mul(q).add(one).div(two).mul(terms.scale));
        (ask, bid)
    }
}

pub struct GlftQuoter {
    pub model: Glft,
    pub terms: GlftTerms,
    pub size: Qty,
}

impl GlftQuoter {
    /// The inventory in units of the quote size.
    pub open spec fn inventory(self, position: int) -> Double {
        Double::of_int(position).over(
            Double::of_int(
                if self.size >= 1 {
                    self.size as int
                } else {
                    1
                },
            ),
        )
    }

    pub open spec fn tick_of(self, price: Double) -> Tick {
        crate::event::rounded_i64(price.over(self.model.tick_size))
    }

    pub open spec fn bid_tick(self, mid2: int, position: int) -> Tick {
        let q = self.inventory(position);
        self.tick_of(
            crate::intensity::mid_usd(mid2, self.model.tick_size).minus(
                self.model.bid_spread(q, self.terms),
            ),
        )
    }

    pub open spec fn ask_tick(self, mid2: int, position: int) -> Tick {
        let q = self.inventory(position);
        self.tick_of(
            crate::intensity::mid_usd(mid2, self.model.tick_size).plus(
                self.model.ask_spread(q, self.terms),
            ),
        )
    }

    pub open spec fn quotes(self, levels: Levels, position: int) -> Option<Quotes> {
        match levels.mid2() {
            Some(mid2) => Some(
                Quotes {
                    bid: Some(self.bid_tick(mid2, position)),
                    ask: Some(self.ask_tick(mid2, position)),
                    size: self.size,
                },
            ),
            None => None,
        }
    }
}

impl Quoter for GlftQuoter {
    open spec fn watched(self, after: Self, ts: i64, levels: Levels, position: int) -> bool {
        after == self
    }

    open spec fn asked(
        self,
        after: Self,
        ts: i64,
        levels: Levels,
        position: int,
        answer: Option<Quotes>,
    ) -> bool {
        after == self && answer == self.quotes(levels, position)
    }

    fn observe(&mut self, _ctx: &Ctx)
        ensures
            *final(self) == *old(self),
    {
    }

    fn quote(&mut self, ctx: &Ctx) -> (r: Option<Quotes>)
        ensures
            r == old(self).quotes(ctx.book@, ctx.position_usd as int),
            *final(self) == *old(self),
    {
        let mid2: i128 = match ctx.book.wide_mid2() {
            Some(mid2) => mid2,
            None => return None,
        };
        let tick_size: Double = self.model.tick_size;
        let mid: Double = Double::from_wide(mid2).mul(tick_size).div(Double::from_i64(2));
        let unit: Qty = if self.size >= 1 {
            self.size
        } else {
            1
        };
        let q: Double = Double::from_i64(ctx.position_usd).div(Double::from_i64(unit));
        let (ask_usd, bid_usd) = self.model.half_spreads(q, self.terms);
        Some(
            Quotes {
                bid: Some(mid.sub(bid_usd).div(tick_size).round_i64()),
                ask: Some(mid.add(ask_usd).div(tick_size).round_i64()),
                size: self.size,
            },
        )
    }
}

/// Joins the touch, but stands aside on the side the flow is about to run
/// over.
///
/// Inventory skew does nothing about adverse selection. Skew is a function of
/// the position; being picked off is a property of the next fill, and the only
/// defence is a signal about it. Order flow imbalance is the cheapest one, and
/// it comes from the feed the book is already rebuilt from.
///
/// The trade is explicit: quoting one side less often gives up fills, and the
/// question the study asks is whether the markout saved is worth more than the
/// spread given up.
pub struct SignalQuoter {
    pub ofi: Ofi,
    /// Imbalance beyond which the threatened side is pulled, in the same units
    /// as the imbalance itself. The study sets it from the day's own spread of
    /// imbalance rather than from a number chosen in advance.
    pub threshold: Double,
    pub size: Qty,
    /// Counts how often each side was pulled, so the cost of the defence is
    /// visible rather than inferred.
    pub pulled_bid: u64,
    pub pulled_ask: u64,
    /// The largest imbalance the quoter ever saw, so a threshold that never
    /// fires is visible as such rather than as a strategy that chose not to.
    pub max_abs: Double,
    pub observations: u64,
}

impl SignalQuoter {
    pub fn new(window_ms: i64, threshold: Double, size: Qty) -> (r: Self)
        ensures
            r.mind() == Signal::empty(window_ms, threshold, size),
    {
        Self {
            ofi: Ofi::new(window_ms),
            threshold,
            size,
            pulled_bid: 0,
            pulled_ask: 0,
            max_abs: Double::zero(),
            observations: 0,
        }
    }

    pub open spec fn mind(self) -> Signal {
        Signal {
            flow: self.ofi@,
            threshold: self.threshold,
            size: self.size,
            pulled_bid: self.pulled_bid,
            pulled_ask: self.pulled_ask,
            max_abs: self.max_abs,
            observations: self.observations,
        }
    }
}

/// What a signal quoter has in mind.
#[verifier::ext_equal]
pub ghost struct Signal {
    pub flow: Flow,
    pub threshold: Double,
    pub size: Qty,
    pub pulled_bid: u64,
    pub pulled_ask: u64,
    pub max_abs: Double,
    pub observations: u64,
}

impl Signal {
    pub open spec fn empty(window_ms: i64, threshold: Double, size: Qty) -> Signal {
        Signal {
            flow: Flow::empty(window_ms),
            threshold,
            size,
            pulled_bid: 0,
            pulled_ask: 0,
            max_abs: Double::of_int(0),
            observations: 0,
        }
    }

    /// Buyers are arriving. Selling to them at the touch is selling into the
    /// move.
    pub open spec fn pulls_ask(self) -> bool {
        self.threshold.below(self.flow.sum)
    }

    /// Sellers are arriving.
    pub open spec fn pulls_bid(self) -> bool {
        !self.pulls_ask() && self.flow.sum.below(self.threshold.negated())
    }

    pub open spec fn quotes(self, levels: Levels) -> Option<Quotes> {
        match crate::measure::touch_of(levels) {
            Some(now) => Some(
                Quotes {
                    bid: if self.pulls_bid() {
                        None
                    } else {
                        Some(now.bid)
                    },
                    ask: if self.pulls_ask() {
                        None
                    } else {
                        Some(now.ask)
                    },
                    size: self.size,
                },
            ),
            None => None,
        }
    }

    /// After it was shown the book, which counts where the book has two sides.
    pub open spec fn having_seen(self, ts: i64, levels: Levels) -> Signal {
        match crate::measure::touch_of(levels) {
            Some(now) => {
                let flow = self.flow.updated(ts, now);
                Signal {
                    flow,
                    observations: crate::stats::one_more(self.observations),
                    max_abs: self.max_abs.larger(flow.sum.magnitude()),
                    ..self
                }
            },
            None => self,
        }
    }

    /// After it was asked: a side that it pulled is counted.
    pub open spec fn having_answered(self, levels: Levels) -> Signal {
        let answers = crate::measure::touch_of(levels) is Some;
        Signal {
            pulled_ask: if answers && self.pulls_ask() {
                crate::stats::one_more(self.pulled_ask)
            } else {
                self.pulled_ask
            },
            pulled_bid: if answers && self.pulls_bid() {
                crate::stats::one_more(self.pulled_bid)
            } else {
                self.pulled_bid
            },
            ..self
        }
    }
}

impl Quoter for SignalQuoter {
    open spec fn watched(self, after: Self, ts: i64, levels: Levels, position: int) -> bool {
        after.mind() == self.mind().having_seen(ts, levels)
    }

    open spec fn asked(
        self,
        after: Self,
        ts: i64,
        levels: Levels,
        position: int,
        answer: Option<Quotes>,
    ) -> bool {
        &&& answer == self.mind().quotes(levels)
        &&& after.mind() == self.mind().having_answered(levels)
    }

    fn observe(&mut self, ctx: &Ctx)
        ensures
            final(self).mind() == old(self).mind().having_seen(ctx.ts, ctx.book@),
    {
        if let Some(now) = touch(ctx.book) {
            let value: Double = self.ofi.update(ctx.ts, now);
            self.observations = count(self.observations);
            self.max_abs = self.max_abs.max(value.abs());
        }
    }

    fn quote(&mut self, ctx: &Ctx) -> (r: Option<Quotes>)
        ensures
            r == old(self).mind().quotes(ctx.book@),
            final(self).mind() == old(self).mind().having_answered(ctx.book@),
    {
        match touch(ctx.book) {
            Some(now) => {
                let imbalance: Double = self.ofi.value();
                let mut quotes: Quotes = Quotes {
                    bid: Some(now.bid),
                    ask: Some(now.ask),
                    size: self.size,
                };
                if self.threshold.lt(imbalance) {
                    quotes.ask = None;
                    self.pulled_ask = count(self.pulled_ask);
                } else if imbalance.lt(self.threshold.neg()) {
                    quotes.bid = None;
                    self.pulled_bid = count(self.pulled_bid);
                }
                Some(quotes)
            },
            None => None,
        }
    }

    fn report(&self) -> (r: Vec<(&'static str, Double)>)
        ensures
            r.len() == 4,
            r[0].0@ == "pulled_bid"@,
            r[0].1 == Double::of_int(self.pulled_bid as int),
            r[1].0@ == "pulled_ask"@,
            r[1].1 == Double::of_int(self.pulled_ask as int),
            r[2].0@ == "max_abs_imbalance"@,
            r[2].1 == self.max_abs,
            r[3].0@ == "observations"@,
            r[3].1 == Double::of_int(self.observations as int),
    {
        vec![
            ("pulled_bid", Double::from_u64(self.pulled_bid)),
            ("pulled_ask", Double::from_u64(self.pulled_ask)),
            ("max_abs_imbalance", self.max_abs),
            ("observations", Double::from_u64(self.observations)),
        ]
    }
}

/// The control quotes one width, whatever the mid, with the mid inside.
pub proof fn law_the_control_quotes_a_fixed_width(quoter: Symmetric, levels: Levels)
    requires
        quoter.half_spread_ticks >= 0,
    ensures
        quoter.quotes(levels) matches Some(quotes) ==> {
            &&& quotes.bid is Some
            &&& quotes.ask is Some
            &&& quotes.ask->0 - quotes.bid->0 == 2 * quoter.half_spread_ticks
            &&& 2 * quotes.bid->0 <= levels.mid2()->0
            &&& levels.mid2()->0 <= 2 * quotes.ask->0 + 1
        },
{
}

/// Joining the touch, or resting behind it, never quotes inside the spread.
pub proof fn law_joining_never_improves_the_touch(quoter: JoinTouch, levels: Levels)
    requires
        quoter.offset_ticks >= 0,
    ensures
        quoter.quotes(levels) matches Some(quotes) ==> {
            let touch = crate::measure::touch_of(levels)->0;
            &&& quotes.bid == Some((touch.bid - quoter.offset_ticks) as i64)
            &&& quotes.ask == Some((touch.ask + quoter.offset_ticks) as i64)
            &&& quotes.bid->0 <= touch.bid
            &&& touch.ask <= quotes.ask->0
            &&& !levels.crossed() ==> quotes.bid->0 < quotes.ask->0
        },
{
}

/// The signal quoter pulls one side at most, the ask when buyers arrive and the
/// bid when sellers do, and neither while the imbalance is within the
/// threshold.
pub proof fn law_only_the_threatened_side_is_pulled(quoter: Signal, levels: Levels)
    ensures
        quoter.quotes(levels) matches Some(quotes) ==> {
            let touch = crate::measure::touch_of(levels)->0;
            let imbalance = quoter.flow.sum;
            &&& quotes.bid is None || quotes.bid == Some(touch.bid)
            &&& quotes.ask is None || quotes.ask == Some(touch.ask)
            &&& quotes.bid is Some || quotes.ask is Some
            &&& quotes.ask is None <==> quoter.threshold.below(imbalance)
            &&& imbalance.magnitude().at_most(quoter.threshold) ==> quotes.bid is Some
                && quotes.ask is Some
        },
{
    crate::order::lemma_negated(quoter.threshold);
    crate::order::lemma_negated(quoter.flow.sum);
}

/// Every number on the way to the half-spreads is finite.
pub open spec fn tame(q: Double, scale: Double) -> bool {
    let one = Double::of_int(1);
    let two = Double::of_int(2);
    &&& q.is_finite()
    &&& two.times(q).is_finite()
    &&& two.times(q).minus(one).is_finite()
    &&& two.times(q).plus(one).is_finite()
    &&& two.times(q).minus(one).over(two).is_finite()
    &&& two.times(q).plus(one).over(two).is_finite()
    &&& Glft::ask_lean(q, scale).is_finite()
    &&& Glft::bid_lean(q, scale).is_finite()
    &&& scale.non_negative()
    &&& scale.is_finite()
}

proof fn lemma_leans(low: Double, high: Double, scale: Double)
    requires
        tame(low, scale),
        tame(high, scale),
        low.at_most(high),
    ensures
        Glft::ask_lean(low, scale).at_most(Glft::ask_lean(high, scale)),
        Glft::bid_lean(low, scale).at_most(Glft::bid_lean(high, scale)),
{
    let one = Double::of_int(1);
    let two = Double::of_int(2);
    crate::order::lemma_of_int(1);
    crate::order::lemma_of_int(2);
    crate::order::lemma_times_keeps_order(low, high, two);
    crate::order::lemma_times_commutes(low, two);
    crate::order::lemma_times_commutes(high, two);
    let a = two.times(low);
    let b = two.times(high);
    crate::order::lemma_minus_keeps_order(a, b, one);
    crate::order::lemma_plus_keeps_order(a, b, one);
    crate::order::lemma_over_keeps_order(a.minus(one), b.minus(one), two);
    crate::order::lemma_over_keeps_order(a.plus(one), b.plus(one), two);
    crate::order::lemma_times_keeps_order(a.minus(one).over(two), b.minus(one).over(two), scale);
    crate::order::lemma_times_keeps_order(a.plus(one).over(two), b.plus(one).over(two), scale);
}

/// The quotes lean against inventory: the longer the dealer, the closer the ask
/// and the further the bid.
pub proof fn law_the_spreads_lean_against_inventory(
    model: Glft,
    terms: GlftTerms,
    low: Double,
    high: Double,
)
    requires
        model.base(terms).is_finite(),
        tame(low, terms.scale),
        tame(high, terms.scale),
        low.at_most(high),
    ensures
        model.ask_spread(high, terms).at_most(model.ask_spread(low, terms)),
        model.bid_spread(low, terms).at_most(model.bid_spread(high, terms)),
{
    lemma_leans(low, high, terms.scale);
    crate::order::lemma_minus_monotone(
        model.base(terms),
        Glft::ask_lean(low, terms.scale),
        Glft::ask_lean(high, terms.scale),
    );
    crate::order::lemma_plus_keeps_order(
        Glft::bid_lean(low, terms.scale),
        Glft::bid_lean(high, terms.scale),
        model.base(terms),
    );
}

/// A long dealer quotes the ask no further away than the bid, a short dealer
/// the bid no further away than the ask.
pub proof fn law_the_inventory_decides_the_closer_side(model: Glft, terms: GlftTerms, q: Double)
    requires
        model.base(terms).is_finite(),
        tame(q, terms.scale),
    ensures
        Double::of_int(0).at_most(q) ==> model.ask_spread(q, terms).at_most(
            model.bid_spread(q, terms),
        ),
        q.at_most(Double::of_int(0)) ==> model.bid_spread(q, terms).at_most(
            model.ask_spread(q, terms),
        ),
{
    let zero = Double::of_int(0);
    let one = Double::of_int(1);
    let two = Double::of_int(2);
    let scale = terms.scale;
    crate::order::lemma_of_int(0);
    crate::order::lemma_of_int(1);
    crate::order::lemma_of_int(2);
    let a = two.times(q);
    // The ask leans by `x` and the bid by `y`, each with the same chain of
    // roundings.
    let x = a.minus(one);
    let y = a.plus(one);
    crate::order::lemma_times_commutes(two, q);
    crate::order::lemma_times_commutes(two, zero);
    crate::order::lemma_times_zero(two);
    crate::order::lemma_minus(a, one);
    crate::order::lemma_plus(a, one);
    crate::order::lemma_negated(x);
    let u = a.value() - one.value();
    let v = a.value() + one.value();
    crate::order::lemma_rounded(u, a.is_neg() && !one.is_neg());
    crate::order::lemma_rounded(v, a.is_neg() && one.is_neg());
    crate::order::lemma_rounded(-u, false);
    crate::order::lemma_order_of_values(zero, q);
    crate::order::lemma_order_of_values(q, zero);
    assert(crate::rounding::units(0) == 0);
    crate::rounding::lemma_units_increasing(0, one.pattern());
    let nx = x.negated();
    crate::order::lemma_over_negated(x, two);
    crate::order::lemma_negated(x.over(two));
    crate::order::lemma_negated(x.over(two).times(scale));
    crate::order::lemma_times_negated(x.over(two), scale);
    if zero.at_most(q) {
        crate::order::lemma_times_keeps_order(zero, q, two);
        crate::order::lemma_order_of_values(zero, a);
        crate::order::lemma_rounded_monotone(-u, v, false, a.is_neg() && one.is_neg());
        assert(nx.at_most(y));
        crate::order::lemma_over_keeps_order(nx, y, two);
        crate::order::lemma_times_keeps_order(nx.over(two), y.over(two), scale);
        crate::order::lemma_plus_keeps_order(
            nx.over(two).times(scale),
            y.over(two).times(scale),
            model.base(terms),
        );
    }
    if q.at_most(zero) {
        crate::order::lemma_times_keeps_order(q, zero, two);
        crate::order::lemma_order_of_values(a, zero);
        crate::order::lemma_rounded_monotone(v, -u, a.is_neg() && one.is_neg(), false);
        assert(y.at_most(nx));
        crate::order::lemma_over_keeps_order(y, nx, two);
        crate::order::lemma_times_keeps_order(y.over(two), nx.over(two), scale);
        crate::order::lemma_plus_keeps_order(
            y.over(two).times(scale),
            nx.over(two).times(scale),
            model.base(terms),
        );
    }
}

/// The opposite inventory swaps the half-spreads: what a long dealer quotes at
/// the ask a short one quotes at the bid.
pub proof fn law_the_opposite_inventory_swaps_the_spreads(
    model: Glft,
    terms: GlftTerms,
    q: Double,
)
    requires
        model.base(terms).is_finite(),
        tame(q, terms.scale),
    ensures
        model.ask_spread(q.negated(), terms).same(model.bid_spread(q, terms)),
        model.bid_spread(q.negated(), terms).same(model.ask_spread(q, terms)),
{
    let scale = terms.scale;
    let base = model.base(terms);
    let p = q.negated();
    lemma_opposite_leans(q, scale);
    let x = Glft::bid_lean(q, scale);
    let y = Glft::ask_lean(q, scale);
    let u = Glft::ask_lean(p, scale);
    let v = Glft::bid_lean(p, scale);
    // The base less `u` is the base and `x`; the base and `v` is the base less `y`.
    crate::order::lemma_minus(base, u);
    crate::order::lemma_plus(base, x);
    crate::order::lemma_plus(base, v);
    crate::order::lemma_minus(base, y);
    crate::order::lemma_rounded(base.value() + x.value(), base.is_neg() && x.is_neg());
    crate::order::lemma_rounded(base.value() - u.value(), base.is_neg() && !u.is_neg());
    crate::order::lemma_rounded(base.value() + v.value(), base.is_neg() && v.is_neg());
    crate::order::lemma_rounded(base.value() - y.value(), base.is_neg() && !y.is_neg());
}

/// Halving a number and scaling it, for numbers that differ in sign at most.
proof fn lemma_opposite_scaled(a: Double, b: Double, scale: Double)
    requires
        a.is_finite(),
        b.is_finite(),
        a.value() == -b.value(),
        a.over(Double::of_int(2)).is_finite(),
        a.over(Double::of_int(2)).times(scale).is_finite(),
        scale.is_finite(),
    ensures
        b.over(Double::of_int(2)).times(scale).is_finite(),
        b.over(Double::of_int(2)).times(scale).value() == -a.over(Double::of_int(2)).times(
            scale,
        ).value(),
{
    let two = Double::of_int(2);
    crate::order::lemma_of_int(2);
    crate::order::lemma_order_of_values(a.magnitude(), b.magnitude());
    crate::order::lemma_negated(a);
    let c = a.negated();
    crate::order::lemma_over_negated(a, two);
    crate::order::lemma_negated(a.over(two));
    crate::order::lemma_times_negated(a.over(two), scale);
    crate::order::lemma_negated(a.over(two).times(scale));
    assert(c.over(two).times(scale).value() == -a.over(two).times(scale).value());
    crate::order::lemma_order_of_values(b, c);
    if b.pattern() != 0 {
        assert(b == c);
    } else {
        // Both are zeros, of either sign.
        assert(a.pattern() == 0);
        crate::rounding::lemma_units_increasing(0, two.pattern());
        assert(crate::rounding::units(0) == 0);
        reveal(Double::over);
        reveal(Double::times);
        assert(0 * vstd::arithmetic::power2::pow2(1074) == 0);
        crate::rounding::lemma_nearest_zero(two.size());
        crate::order::lemma_signed(true, 0);
        crate::order::lemma_signed(false, 0);
        vstd::arithmetic::power2::lemma_pow2_pos(1074);
        assert(0 * scale.size() == 0);
        crate::rounding::lemma_nearest_zero(vstd::arithmetic::power2::pow2(1074));
    }
}

proof fn lemma_opposite_leans(q: Double, scale: Double)
    requires
        tame(q, scale),
    ensures
        Glft::ask_lean(q.negated(), scale).is_finite(),
        Glft::bid_lean(q.negated(), scale).is_finite(),
        Glft::ask_lean(q.negated(), scale).value() == -Glft::bid_lean(q, scale).value(),
        Glft::bid_lean(q.negated(), scale).value() == -Glft::ask_lean(q, scale).value(),
{
    let one = Double::of_int(1);
    let two = Double::of_int(2);
    let p = q.negated();
    crate::order::lemma_of_int(1);
    crate::order::lemma_of_int(2);
    crate::order::lemma_negated(q);
    crate::order::lemma_times_commutes(two, q);
    crate::order::lemma_times_commutes(two, p);
    crate::order::lemma_times_negated(q, two);
    let a = two.times(q);
    let b = two.times(p);
    crate::order::lemma_negated(a);
    assert(b == a.negated());
    crate::order::lemma_plus(a, one);
    crate::order::lemma_minus(a, one);
    crate::order::lemma_plus(b, one);
    crate::order::lemma_minus(b, one);
    crate::order::lemma_rounded(a.value() + one.value(), a.is_neg() && one.is_neg());
    crate::order::lemma_rounded(a.value() - one.value(), a.is_neg() && !one.is_neg());
    crate::order::lemma_rounded(b.value() + one.value(), b.is_neg() && one.is_neg());
    crate::order::lemma_rounded(b.value() - one.value(), b.is_neg() && !one.is_neg());
    assert(b.minus(one).value() == -a.plus(one).value());
    assert(b.plus(one).value() == -a.minus(one).value());
    lemma_opposite_scaled(a.plus(one), b.minus(one), scale);
    lemma_opposite_scaled(a.minus(one), b.plus(one), scale);
}

/// A number that is halved and scaled.
proof fn lemma_lean_error(x: Double, scale: Double, k: int)
    requires
        x.is_finite(),
        scale.is_finite(),
        scale.non_negative(),
        x.over(Double::of_int(2)).is_finite(),
        x.over(Double::of_int(2)).times(scale).is_finite(),
        crate::error::gap(x.value(), 0) <= k,
    ensures
        ({
            let lean = x.over(Double::of_int(2)).times(scale).value();
            let s = scale.value();
            let u = vstd::arithmetic::power2::pow2(1074) as int;
            let p = crate::error::PRECISION as int;
            crate::error::gap(2 * lean * u, x.value() * s) * p <= 3 * k * s + (p + 1) * s + u * p
        }),
{
    let h = x.over(Double::of_int(2));
    let s = scale.value();
    let u = vstd::arithmetic::power2::pow2(1074) as int;
    let p = crate::error::PRECISION as int;
    let l = h.times(scale).value();
    let hv = h.value();
    let xv = x.value();
    vstd::arithmetic::power2::lemma_pow2_pos(1074);
    crate::error::lemma_half_error(x);
    crate::error::lemma_times_error(h, scale);
    assert(s >= 0);
    let e = l * u - hv * s;
    let f = 2 * hv - xv;
    assert(2 * l * u - xv * s == 2 * e + f * s) by (nonlinear_arith)
        requires
            e == l * u - hv * s,
            f == 2 * hv - xv,
    ;
    let fa = crate::error::gap(f, 0);
    let ha = crate::error::gap(2 * hv, 0);
    let xa = crate::error::gap(xv, 0);
    assert(fa * p <= xa + p);
    assert(fa <= xa + 1) by (nonlinear_arith)
        requires
            fa * p <= xa + p,
            p == 0x20_0000_0000_0000,
            xa >= 0,
            fa >= 0,
    ;
    assert(ha <= 2 * k + 1);
    crate::error::lemma_gap_scales(f, 0, s);
    crate::error::lemma_gap_scales(2 * hv, 0, s);
    assert(0 * s == 0);
    assert((2 * hv) * s == 2 * (hv * s)) by (nonlinear_arith);
    let ea = crate::error::gap(e, 0);
    let hs = crate::error::gap(hv * s, 0);
    assert(2 * hs == ha * s);
    assert(ea * p <= hs + u * crate::rounding::BINADE);
    assert(ha * s <= (2 * k + 1) * s) by (nonlinear_arith)
        requires
            ha <= 2 * k + 1,
            s >= 0,
    ;
    assert((fa * s) * p <= (k + p) * s) by (nonlinear_arith)
        requires
            fa * p <= k + p,
            s >= 0,
    ;
    let d = crate::error::gap(2 * l * u, xv * s);
    assert(d <= 2 * ea + fa * s);
    assert(d * p <= 2 * (ea * p) + (fa * s) * p) by (nonlinear_arith)
        requires
            d <= 2 * ea + fa * s,
            p > 0,
    ;
    assert((2 * k + 1) * s + (k + p) * s == 3 * k * s + (p + 1) * s) by (nonlinear_arith);
    assert(2 * (u * crate::rounding::BINADE) == u * p) by (nonlinear_arith)
        requires
            p == 2 * crate::rounding::BINADE,
    ;
}

/// The leans lie one scale apart, up to rounding.
proof fn lemma_leans_apart(q: Double, scale: Double, n: int)
    requires
        n >= 1,
        tame(q, scale),
        crate::error::gap(q.value(), 0) <= n * vstd::arithmetic::power2::pow2(1074),
    ensures
        ({
            let ask = Glft::ask_lean(q, scale).value();
            let bid = Glft::bid_lean(q, scale).value();
            let ns = n * scale.value();
            let p = crate::error::PRECISION as int;
            &&& crate::error::gap(bid - ask, scale.value()) * p <= 24 * ns + p
            &&& crate::error::gap(ask, 0) <= 13 * ns + 1
            &&& crate::error::gap(bid, 0) <= 13 * ns + 1
        }),
{
    let one = Double::of_int(1);
    let two = Double::of_int(2);
    let u = vstd::arithmetic::power2::pow2(1074) as int;
    let p = crate::error::PRECISION as int;
    let s = scale.value();
    vstd::arithmetic::power2::lemma_pow2_pos(1074);
    vstd::arithmetic::power2::lemma2_to64();
    vstd::arithmetic::power2::lemma2_to64_rest();
    vstd::arithmetic::power2::lemma_pow2_strictly_increases(54, 1074);
    assert(u > p + 1);
    crate::order::lemma_of_int(1);
    crate::order::lemma_of_int(2);
    crate::order::lemma_of_int_exact(1);
    crate::order::lemma_of_int_exact(2);
    let qv = q.value();
    let a = two.times(q);
    let av = a.value();
    crate::error::lemma_times_error(two, q);
    assert(two.value() * qv == (2 * qv) * u) by (nonlinear_arith)
        requires
            two.value() == 2 * u,
    ;
    crate::error::lemma_gap_scales(av, 2 * qv, u);
    crate::error::lemma_gap_scales(2 * qv, 0, u);
    let ga = crate::error::gap(av, 2 * qv);
    let qa = crate::error::gap(2 * qv, 0);
    assert(ga * p <= qa + p) by (nonlinear_arith)
        requires
            (ga * u) * p <= qa * u + u * crate::rounding::BINADE,
            u > 0,
            p == 2 * crate::rounding::BINADE,
    ;
    let nu = n * u;
    assert(nu >= u) by (nonlinear_arith)
        requires
            nu == n * u,
            n >= 1,
            u > 0,
    ;
    assert(ga * 2 <= qa + 2) by (nonlinear_arith)
        requires
            ga * p <= qa + p,
            p >= 2,
            qa >= 0,
            ga >= 0,
    ;
    assert(crate::error::gap(av, 0) <= 4 * nu);
    let x = a.minus(one);
    let y = a.plus(one);
    let xv = x.value();
    let yv = y.value();
    crate::order::lemma_minus(a, one);
    crate::order::lemma_plus(a, one);
    crate::error::lemma_rounded_error(av - u, a.is_neg() && !one.is_neg());
    crate::error::lemma_rounded_error(av + u, a.is_neg() && one.is_neg());
    let ex = crate::error::gap(xv, av - u);
    let ey = crate::error::gap(yv, av + u);
    assert(ex * p <= 5 * nu && ey * p <= 5 * nu);
    assert(ex <= nu && ey <= nu) by (nonlinear_arith)
        requires
            ex * p <= 5 * nu,
            ey * p <= 5 * nu,
            p >= 5,
            ex >= 0,
            ey >= 0,
    ;
    let k = 6 * nu;
    let l = Glft::ask_lean(q, scale).value();
    let m = Glft::bid_lean(q, scale).value();
    lemma_lean_error(x, scale, k);
    lemma_lean_error(y, scale, k);
    let dl = 2 * l * u - xv * s;
    let dm = 2 * m * u - yv * s;
    let w = yv - xv - 2 * u;
    let ns = n * s;
    assert(3 * k * s == 18 * (ns * u)) by (nonlinear_arith)
        requires
            k == 6 * nu,
            nu == n * u,
            ns == n * s,
    ;
    assert(s <= ns) by (nonlinear_arith)
        requires
            ns == n * s,
            n >= 1,
            s >= 0,
    ;
    assert((p + 1) * s <= ns * u) by (nonlinear_arith)
        requires
            0 <= p + 1 <= u,
            0 <= s <= ns,
    ;
    let nsu = ns * u;
    assert(nu * s == nsu) by (nonlinear_arith)
        requires
            nu == n * u,
            ns == n * s,
            nsu == ns * u,
    ;
    assert(crate::error::gap(dl, 0) * p <= 19 * nsu + u * p);
    assert(crate::error::gap(dm, 0) * p <= 19 * nsu + u * p);
    assert(2 * (m - l - s) * u == dm - dl + w * s) by (nonlinear_arith)
        requires
            dl == 2 * l * u - xv * s,
            dm == 2 * m * u - yv * s,
            w == yv - xv - 2 * u,
    ;
    assert(crate::error::gap(w, 0) * p <= 10 * nu) by (nonlinear_arith)
        requires
            crate::error::gap(w, 0) <= ex + ey,
            ex * p <= 5 * nu,
            ey * p <= 5 * nu,
            p > 0,
    ;
    crate::error::lemma_gap_scales(w, 0, s);
    let wa = crate::error::gap(w, 0);
    assert((wa * s) * p <= 10 * nsu) by (nonlinear_arith)
        requires
            wa * p <= 10 * nu,
            s >= 0,
            nu == n * u,
            ns == n * s,
            nsu == ns * u,
    ;
    let z = crate::error::gap(m - l, s);
    crate::error::lemma_gap_scales(m - l, s, 2 * u);
    assert((m - l) * (2 * u) - s * (2 * u) == 2 * (m - l - s) * u) by (nonlinear_arith);
    let la = crate::error::gap(dl, 0);
    let ma = crate::error::gap(dm, 0);
    assert(z * (2 * u) <= la + ma + wa * s);
    assert((z * (2 * u)) * p <= la * p + ma * p + (wa * s) * p) by (nonlinear_arith)
        requires
            z * (2 * u) <= la + ma + wa * s,
            p > 0,
    ;
    assert(z * p <= 24 * ns + p) by (nonlinear_arith)
        requires
            (z * (2 * u)) * p <= 48 * nsu + 2 * (u * p),
            nsu == ns * u,
            u > 0,
    ;
    lemma_lean_size(l, xv, s, u, p, nu, ns, nsu);
    lemma_lean_size(m, yv, s, u, p, nu, ns, nsu);
}

/// The inventory does not widen the quotes: the half-spreads add up to twice the
/// base and the scale, whatever it is, up to rounding. For an inventory of at most
/// `n` quotes they do so up to one part in [`crate::error::PRECISION`] of fifty
/// `n` times the scale and twice the base, and two units.
pub proof fn law_the_spreads_add_up_to_one_width(
    model: Glft,
    terms: GlftTerms,
    q: Double,
    n: int,
)
    requires
        n >= 1,
        tame(q, terms.scale),
        crate::error::gap(q.value(), 0) <= n * vstd::arithmetic::power2::pow2(1074),
        model.base(terms).is_finite(),
        model.ask_spread(q, terms).is_finite(),
        model.bid_spread(q, terms).is_finite(),
    ensures
        ({
            let base = model.base(terms).value();
            let scale = terms.scale.value();
            let sum = model.ask_spread(q, terms).value() + model.bid_spread(q, terms).value();
            let p = crate::error::PRECISION as int;
            crate::error::gap(sum, 2 * base + scale) * p <= 50 * n * scale
                + 2 * crate::error::gap(base, 0) + 2 * p
        }),
{
    let p = crate::error::PRECISION as int;
    let s = terms.scale.value();
    let ns = n * s;
    let base = model.base(terms);
    let bv = base.value();
    let l = Glft::ask_lean(q, terms.scale).value();
    let m = Glft::bid_lean(q, terms.scale).value();
    let z = crate::error::gap(m - l, s);
    lemma_leans_apart(q, terms.scale, n);
    crate::order::lemma_minus(base, Glft::ask_lean(q, terms.scale));
    crate::order::lemma_plus(base, Glft::bid_lean(q, terms.scale));
    crate::error::lemma_rounded_error(
        bv - l,
        base.is_neg() && !Glft::ask_lean(q, terms.scale).is_neg(),
    );
    crate::error::lemma_rounded_error(
        bv + m,
        base.is_neg() && Glft::bid_lean(q, terms.scale).is_neg(),
    );
    let ask = model.ask_spread(q, terms).value();
    let bid = model.bid_spread(q, terms).value();
    let ra = crate::error::gap(ask, bv - l);
    let rb = crate::error::gap(bid, bv + m);
    let ba = crate::error::gap(bv, 0);
    assert(ra * p <= ba + 13 * ns + 1);
    assert(rb * p <= ba + 13 * ns + 1);
    let d = crate::error::gap(ask + bid, 2 * bv + s);
    assert(d <= ra + rb + z);
    assert(d * p <= ra * p + rb * p + z * p) by (nonlinear_arith)
        requires
            d <= ra + rb + z,
            p > 0,
    ;
    assert(50 * n * s == 50 * ns) by (nonlinear_arith)
        requires
            ns == n * s,
    ;
}

proof fn lemma_lean_size(
    l: int,
    x: int,
    s: int,
    u: int,
    p: int,
    nu: int,
    ns: int,
    nsu: int,
)
    requires
        s >= 0,
        ns >= 0,
        u > 0,
        p >= 19,
        nsu == ns * u,
        nu * s == nsu,
        crate::error::gap(x, 0) <= 6 * nu,
        crate::error::gap(2 * l * u - x * s, 0) * p <= 19 * nsu + u * p,
    ensures
        crate::error::gap(l, 0) <= 13 * ns + 1,
{
    let d = crate::error::gap(2 * l * u - x * s, 0);
    let xa = crate::error::gap(x, 0);
    assert(nsu >= 0) by (nonlinear_arith)
        requires
            nsu == ns * u,
            ns >= 0,
            u > 0,
    ;
    assert(d <= nsu + u) by (nonlinear_arith)
        requires
            d * p <= 19 * nsu + u * p,
            p >= 19,
            nsu >= 0,
            d >= 0,
    ;
    crate::error::lemma_gap_scales(x, 0, s);
    assert(0 * s == 0);
    assert(xa * s <= 6 * nsu) by (nonlinear_arith)
        requires
            xa <= 6 * nu,
            nu * s == nsu,
            s >= 0,
    ;
    crate::error::lemma_gap_scales(l, 0, 2 * u);
    assert(l * (2 * u) == 2 * l * u) by (nonlinear_arith);
    let la = crate::error::gap(l, 0);
    assert(la * (2 * u) <= 7 * nsu + u);
    assert(la <= 13 * ns + 1) by (nonlinear_arith)
        requires
            la * (2 * u) <= 7 * nsu + u,
            nsu == ns * u,
            ns >= 0,
            u > 0,
    ;
}

/// A longer position never moves a quote up.
pub proof fn law_a_long_position_moves_both_quotes_down(
    quoter: GlftQuoter,
    mid2: int,
    low: int,
    high: int,
)
    requires
        -0x8000_0000_0000_0000 <= low <= high <= 0x7FFF_FFFF_FFFF_FFFF,
        crate::ledger::is_price(quoter.model.tick_size),
        quoter.model.base(quoter.terms).is_finite(),
        tame(quoter.inventory(low), quoter.terms.scale),
        tame(quoter.inventory(high), quoter.terms.scale),
        ({
            let mid = crate::intensity::mid_usd(mid2, quoter.model.tick_size);
            &&& mid.is_finite()
            &&& forall|p: int|
                p == low || p == high ==> {
                    let q = #[trigger] quoter.inventory(p);
                    let ask = quoter.model.ask_spread(q, quoter.terms);
                    let bid = quoter.model.bid_spread(q, quoter.terms);
                    &&& ask.is_finite()
                    &&& bid.is_finite()
                    &&& mid.minus(bid).is_finite()
                    &&& mid.plus(ask).is_finite()
                }
        }),
    ensures
        quoter.bid_tick(mid2, high) <= quoter.bid_tick(mid2, low),
        quoter.ask_tick(mid2, high) <= quoter.ask_tick(mid2, low),
{
    let tick = quoter.model.tick_size;
    let mid = crate::intensity::mid_usd(mid2, tick);
    let unit = if quoter.size >= 1 {
        quoter.size as int
    } else {
        1
    };
    let a = quoter.inventory(low);
    let b = quoter.inventory(high);
    crate::order::lemma_of_int(low);
    crate::order::lemma_of_int(high);
    crate::order::lemma_of_int(unit);
    crate::order::lemma_of_int_monotone(low, high);
    crate::order::lemma_over_keeps_order(
        Double::of_int(low),
        Double::of_int(high),
        Double::of_int(unit),
    );
    law_the_spreads_lean_against_inventory(quoter.model, quoter.terms, a, b);
    let bid_a = quoter.model.bid_spread(a, quoter.terms);
    let bid_b = quoter.model.bid_spread(b, quoter.terms);
    let ask_a = quoter.model.ask_spread(a, quoter.terms);
    let ask_b = quoter.model.ask_spread(b, quoter.terms);
    crate::order::lemma_minus_monotone(mid, bid_a, bid_b);
    crate::order::lemma_plus_keeps_order(ask_b, ask_a, mid);
    crate::order::lemma_over_keeps_order(mid.minus(bid_b), mid.minus(bid_a), tick);
    crate::order::lemma_over_keeps_order(mid.plus(ask_b), mid.plus(ask_a), tick);
    crate::order::lemma_round_keeps_order(
        mid.minus(bid_b).over(tick),
        mid.minus(bid_a).over(tick),
    );
    crate::order::lemma_round_keeps_order(mid.plus(ask_b).over(tick), mid.plus(ask_a).over(tick));
}

/// Every quoter here leaves no choice: two that are set alike answer alike, and
/// so the same events give the same run. What a signal quoter remembers of the
/// book is part of how it is set.
pub proof fn law_the_quoters_decide()
    ensures
        crate::engine::stays_alike::<Symmetric, Symmetric>(|a: Symmetric, b: Symmetric| a == b),
        crate::engine::stays_alike::<JoinTouch, JoinTouch>(|a: JoinTouch, b: JoinTouch| a == b),
        crate::engine::stays_alike::<GlftQuoter, GlftQuoter>(
            |a: GlftQuoter, b: GlftQuoter| a == b,
        ),
        crate::engine::stays_alike::<SignalQuoter, SignalQuoter>(
            |a: SignalQuoter, b: SignalQuoter| a.mind() == b.mind(),
        ),
{
}

} // verus!
