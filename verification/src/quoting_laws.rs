//! What the quoters quote.
use vstd::prelude::*;

use crate::book::Levels;
use crate::double::Double;
use crate::quoters::{Glft, GlftQuoter, GlftTerms, JoinTouch, Signal, Symmetric};
use crate::rounding::BINADE;

verus! {

/// The inventory is counted in quote sizes: a position of `n` times the size is
/// the inventory `n`.
pub proof fn law_the_inventory_is_counted_in_quote_sizes(quoter: GlftQuoter, n: int)
    requires
        1 <= quoter.size < 0x400_0000,
        -0x400_0000 < n < 0x400_0000,
    ensures
        quoter.inventory(n * quoter.size) == Double::of_int(n),
{
    let size = quoter.size as int;
    assert(-0x10_0000_0000_0000 <= n * size <= 0x10_0000_0000_0000) by (nonlinear_arith)
        requires
            1 <= size < 0x400_0000,
            -0x400_0000 < n < 0x400_0000,
    ;
    let a = Double::of_int(n * size);
    let b = Double::of_int(size);
    crate::order::lemma_of_int_exact(n * size);
    crate::order::lemma_of_int_exact(size);
    crate::order::lemma_of_int(n * size);
    crate::order::lemma_of_int(size);
    crate::order::lemma_of_int(n);
    crate::whole::lemma_over_of_ints(a, b, n, size);
    crate::whole::lemma_is_int(a.over(b), n);
    assert(n == 0 ==> n * size == 0 && !(n * size < 0)) by (nonlinear_arith);
}

/// Only the ratio of the position to the quote size counts: with both of them
/// scaled by one factor, the quoter quotes the same ticks.
pub proof fn law_only_the_ratio_of_position_to_size_counts(
    quoter: GlftQuoter,
    scaled: GlftQuoter,
    levels: Levels,
    position: int,
    factor: int,
)
    requires
        1 <= quoter.size,
        1 <= factor,
        scaled.model == quoter.model,
        scaled.terms == quoter.terms,
        scaled.size == quoter.size * factor,
        scaled.size <= 0x10_0000_0000_0000,
        -0x10_0000_0000_0000 <= position * factor <= 0x10_0000_0000_0000,
    ensures
        ({
            let one = quoter.quotes(levels, position);
            let other = scaled.quotes(levels, position * factor);
            &&& one is Some <==> other is Some
            &&& one is Some ==> one->0.bid == other->0.bid && one->0.ask == other->0.ask
        }),
        forall|mid2: int|
            #![trigger quoter.bid_tick(mid2, position)]
            quoter.bid_tick(mid2, position) == scaled.bid_tick(mid2, position * factor),
        forall|mid2: int|
            #![trigger quoter.ask_tick(mid2, position)]
            quoter.ask_tick(mid2, position) == scaled.ask_tick(mid2, position * factor),
{
    let size = quoter.size as int;
    assert(size <= size * factor) by (nonlinear_arith)
        requires
            1 <= size,
            1 <= factor,
    ;
    assert(-0x10_0000_0000_0000 <= position <= 0x10_0000_0000_0000) by (nonlinear_arith)
        requires
            1 <= factor,
            -0x10_0000_0000_0000 <= position * factor <= 0x10_0000_0000_0000,
    ;
    crate::whole::lemma_over_scaled(position, size, factor);
}

/// The half-spreads in whole numbers: a logarithm of `k` times the risk aversion is
/// a base of `k`, and with a scale of twice `t` an inventory of `q` moves the ask
/// in by `t` for each of `2 q - 1`, and the bid out by `t` for each of `2 q + 1`.
pub proof fn law_the_half_spreads_are_exact(
    model: Glft,
    terms: GlftTerms,
    inventory: Double,
    g: int,
    k: int,
    t: int,
    q: int,
)
    requires
        model.gamma.is_int(g),
        terms.log_ratio.is_int(k * g),
        terms.scale.is_int(2 * t),
        inventory.is_int(q),
        g != 0,
        -BINADE <= g <= BINADE,
        -BINADE <= k <= BINADE,
        -BINADE <= k * g <= BINADE,
        -0x40_0000 <= t <= 0x40_0000,
        -0x40_0000 <= q <= 0x40_0000,
    ensures
        model.ask_spread(inventory, terms).is_int(k - (2 * q - 1) * t),
        model.bid_spread(inventory, terms).is_int(k + (2 * q + 1) * t),
{
    let one = Double::of_int(1);
    let two = Double::of_int(2);
    crate::order::lemma_of_int_exact(1);
    crate::order::lemma_of_int_exact(2);
    crate::whole::lemma_over_of_ints(terms.log_ratio, model.gamma, k, g);
    crate::whole::lemma_times_of_ints(two, inventory, 2, q);
    let x = two.times(inventory);
    crate::order::lemma_minus_of_ints(x, one, 2 * q, 1);
    crate::order::lemma_plus_of_ints(x, one, 2 * q, 1);
    crate::whole::lemma_half_of_int(x.minus(one), 2 * q - 1);
    crate::whole::lemma_half_of_int(x.plus(one), 2 * q + 1);
    let a = (2 * q - 1) * t;
    let b = (2 * q + 1) * t;
    assert(-0x4_0000_0000_0000 <= a <= 0x4_0000_0000_0000 && -0x4_0000_0000_0000 <= b
        <= 0x4_0000_0000_0000) by (nonlinear_arith)
        requires
            a == (2 * q - 1) * t,
            b == (2 * q + 1) * t,
            -0x40_0000 <= t <= 0x40_0000,
            -0x40_0000 <= q <= 0x40_0000,
    ;
    crate::whole::lemma_half_times_even(x.minus(one).over(two), terms.scale, 2 * q - 1, t);
    crate::whole::lemma_half_times_even(x.plus(one).over(two), terms.scale, 2 * q + 1, t);
    let base = model.base(terms);
    crate::order::lemma_minus_of_ints(base, Glft::ask_lean(inventory, terms.scale), k, a);
    crate::order::lemma_plus_of_ints(base, Glft::bid_lean(inventory, terms.scale), k, b);
}

/// What the logarithm is taken of is one more than the risk aversion over the
/// decay, and the power one more than the decay over the risk aversion.
pub proof fn law_the_ratio_and_the_power_are_exact(model: Glft, g: int, d: int, k: int)
    requires
        model.gamma.is_int(g),
        model.kappa.is_int(d),
        g != 0,
        d != 0,
        -BINADE <= g <= BINADE,
        -BINADE <= d <= BINADE,
        -BINADE <= k <= BINADE,
    ensures
        g == k * d ==> model.ratio_of().is_int(1 + k),
        d == k * g ==> model.exponent_of().is_int(1 + k),
{
    let one = Double::of_int(1);
    crate::order::lemma_of_int_exact(1);
    if g == k * d {
        crate::whole::lemma_over_of_ints(model.gamma, model.kappa, k, d);
        crate::order::lemma_plus_of_ints(one, model.gamma.over(model.kappa), 1, k);
    }
    if d == k * g {
        crate::whole::lemma_over_of_ints(model.kappa, model.gamma, k, g);
        crate::order::lemma_plus_of_ints(one, model.kappa.over(model.gamma), 1, k);
    }
}

/// What the square root is taken of, in whole numbers: the squared volatility
/// times the risk aversion, over twice the decay times the intensity, times the
/// power; never less than zero.
pub proof fn law_the_scale_is_exact(
    model: Glft,
    power: Double,
    s: int,
    g: int,
    d: int,
    a: int,
    k: int,
    p: int,
)
    requires
        model.sigma.is_int(s),
        model.gamma.is_int(g),
        model.kappa.is_int(d),
        model.a.is_int(a),
        power.is_int(p),
        1 <= s <= 0x1_0000,
        1 <= g <= 0x1_0000,
        1 <= d <= 0x1_0000,
        1 <= a <= 0x1_0000,
        1 <= k <= 0x10_0000,
        1 <= p <= 0x10_0000,
        (s * s) * g == k * ((2 * d) * a),
    ensures
        model.inner_of(power).is_int(k * p),
{
    let two = Double::of_int(2);
    let zero = Double::of_int(0);
    crate::order::lemma_of_int_exact(2);
    crate::order::lemma_of_int_exact(0);
    crate::order::lemma_of_int(0);
    assert(1 <= s * s <= 0x1_0000_0000) by (nonlinear_arith)
        requires
            1 <= s <= 0x1_0000,
    ;
    let num = (s * s) * g;
    assert(1 <= num <= 0x1_0000_0000_0000) by (nonlinear_arith)
        requires
            num == (s * s) * g,
            1 <= s * s <= 0x1_0000_0000,
            1 <= g <= 0x1_0000,
    ;
    let den = (2 * d) * a;
    assert(1 <= den <= 0x2_0000_0000) by (nonlinear_arith)
        requires
            den == (2 * d) * a,
            1 <= d <= 0x1_0000,
            1 <= a <= 0x1_0000,
    ;
    assert(1 <= k * p <= 0x100_0000_0000) by (nonlinear_arith)
        requires
            1 <= k <= 0x10_0000,
            1 <= p <= 0x10_0000,
    ;
    let square = model.sigma.times(model.sigma);
    crate::whole::lemma_times_of_ints(model.sigma, model.sigma, s, s);
    crate::whole::lemma_times_of_ints(square, model.gamma, s * s, g);
    crate::whole::lemma_times_of_ints(two, model.kappa, 2, d);
    crate::whole::lemma_times_of_ints(two.times(model.kappa), model.a, 2 * d, a);
    let drift = square.times(model.gamma);
    let flow = two.times(model.kappa).times(model.a);
    crate::whole::lemma_over_of_ints(drift, flow, k, den);
    crate::whole::lemma_times_of_ints(drift.over(flow), power, k, p);
    let x = drift.over(flow).times(power);
    crate::whole::lemma_is_int(x, k * p);
    crate::order::lemma_of_int(k * p);
}

/// The quotes lie a half-spread away from the mid, each on its own side, in
/// ticks.
pub proof fn law_the_quotes_lie_a_half_spread_from_the_mid(
    quoter: GlftQuoter,
    position: int,
    m: int,
    tick: int,
    bid: int,
    ask: int,
)
    requires
        quoter.model.tick_size.is_int(tick),
        1 <= tick <= 0x10_0000,
        -0x4000_0000 <= m <= 0x4000_0000,
        -0x4000_0000 <= bid <= 0x4000_0000,
        -0x4000_0000 <= ask <= 0x4000_0000,
        quoter.model.bid_spread(quoter.inventory(position), quoter.terms).is_int(bid * tick),
        quoter.model.ask_spread(quoter.inventory(position), quoter.terms).is_int(ask * tick),
    ensures
        quoter.bid_tick(2 * m, position) == m - bid,
        quoter.ask_tick(2 * m, position) == m + ask,
{
    let size = quoter.model.tick_size;
    let two = Double::of_int(2);
    let q = quoter.inventory(position);
    let b = quoter.model.bid_spread(q, quoter.terms);
    let a = quoter.model.ask_spread(q, quoter.terms);
    crate::order::lemma_of_int_exact(2);
    crate::order::lemma_of_int_exact(2 * m);
    assert(-0x4_0000_0000_0000 <= m * tick <= 0x4_0000_0000_0000 && -0x4_0000_0000_0000 <= bid
        * tick <= 0x4_0000_0000_0000 && -0x4_0000_0000_0000 <= ask * tick <= 0x4_0000_0000_0000
        && (2 * m) * tick == (m * tick) * 2 && m * tick - bid * tick == (m - bid) * tick && m * tick
        + ask * tick == (m + ask) * tick) by (nonlinear_arith)
        requires
            1 <= tick <= 0x10_0000,
            -0x4000_0000 <= m <= 0x4000_0000,
            -0x4000_0000 <= bid <= 0x4000_0000,
            -0x4000_0000 <= ask <= 0x4000_0000,
    ;
    let x = Double::of_int(2 * m).times(size);
    crate::whole::lemma_times_of_ints(Double::of_int(2 * m), size, 2 * m, tick);
    crate::whole::lemma_over_of_ints(x, two, m * tick, 2);
    let mid = crate::intensity::mid_usd(2 * m, size);
    assert(mid.is_int(m * tick));
    crate::order::lemma_minus_of_ints(mid, b, m * tick, bid * tick);
    crate::order::lemma_plus_of_ints(mid, a, m * tick, ask * tick);
    crate::whole::lemma_over_of_ints(mid.minus(b), size, m - bid, tick);
    crate::whole::lemma_over_of_ints(mid.plus(a), size, m + ask, tick);
    crate::whole::lemma_round_of_int(mid.minus(b).over(size), m - bid);
    crate::whole::lemma_round_of_int(mid.plus(a).over(size), m + ask);
}

/// The control quotes its half-spread below and above the mid, rounded down to a
/// tick, as long as there is a mid and the ticks are in range.
pub proof fn law_the_control_quotes_around_the_mid(
    quoter: Symmetric,
    levels: Levels,
    bid: int,
    ask: int,
)
    requires
        levels.best_bid() matches Some((b, _)) && b == bid,
        levels.best_ask() matches Some((a, _)) && a == ask,
        i64::MIN <= (bid + ask) / 2 - quoter.half_spread_ticks <= i64::MAX,
        i64::MIN <= (bid + ask) / 2 + quoter.half_spread_ticks <= i64::MAX,
    ensures
        quoter.quotes(levels) matches Some(quotes) && {
            &&& quotes.bid matches Some(b) && b == (bid + ask) / 2 - quoter.half_spread_ticks
            &&& quotes.ask matches Some(a) && a == (bid + ask) / 2 + quoter.half_spread_ticks
            &&& quotes.size == quoter.size
        },
{
}

/// Joining the touch quotes the best bid and the best ask, each the offset further
/// out, as long as both are there and the ticks are in range.
pub proof fn law_joining_quotes_the_best_prices(
    quoter: JoinTouch,
    levels: Levels,
    bid: int,
    ask: int,
)
    requires
        levels.best_bid() matches Some((b, _)) && b == bid,
        levels.best_ask() matches Some((a, _)) && a == ask,
        i64::MIN <= bid - quoter.offset_ticks <= i64::MAX,
        i64::MIN <= ask + quoter.offset_ticks <= i64::MAX,
    ensures
        quoter.quotes(levels) matches Some(quotes) && {
            &&& quotes.bid matches Some(b) && b == bid - quoter.offset_ticks
            &&& quotes.ask matches Some(a) && a == ask + quoter.offset_ticks
            &&& quotes.size == quoter.size
        },
{
}

/// Without a bid or without an ask no quoter quotes.
pub proof fn law_nothing_is_quoted_into_half_a_book(
    control: Symmetric,
    touch: JoinTouch,
    model: GlftQuoter,
    signal: Signal,
    levels: Levels,
    position: int,
)
    requires
        levels.best_bid() is None || levels.best_ask() is None,
    ensures
        control.quotes(levels) is None,
        touch.quotes(levels) is None,
        model.quotes(levels, position) is None,
        signal.quotes(levels) is None,
{
}

/// The signal quoter joins the touch on both sides while the imbalance is within
/// the threshold; above it the ask is missing, and below its negative the bid. What
/// is missing is counted.
pub proof fn law_a_pulled_side_is_missing_and_counted(
    quoter: Signal,
    levels: Levels,
    bid: int,
    ask: int,
)
    requires
        levels.best_bid() matches Some((b, _)) && b == bid,
        levels.best_ask() matches Some((a, _)) && a == ask,
        Double::of_int(0).at_most(quoter.threshold),
        !quoter.flow.sum.is_nan(),
        quoter.pulled_bid < u64::MAX,
        quoter.pulled_ask < u64::MAX,
    ensures
        ({
            let above = quoter.threshold.below(quoter.flow.sum);
            let below = quoter.flow.sum.below(quoter.threshold.negated());
            let after = quoter.having_answered(levels);
            &&& quoter.quotes(levels) matches Some(quotes) && {
                &&& if below {
                    quotes.bid is None && after.pulled_bid == quoter.pulled_bid + 1
                } else {
                    (quotes.bid matches Some(b) && b == bid) && after.pulled_bid
                        == quoter.pulled_bid
                }
                &&& if above {
                    quotes.ask is None && after.pulled_ask == quoter.pulled_ask + 1
                } else {
                    (quotes.ask matches Some(a) && a == ask) && after.pulled_ask
                        == quoter.pulled_ask
                }
                &&& quotes.size == quoter.size
            }
            &&& after.flow == quoter.flow
            &&& after.threshold == quoter.threshold
            &&& after.max_abs == quoter.max_abs
            &&& after.observations == quoter.observations
        }),
{
    crate::order::lemma_of_int(0);
    crate::order::lemma_negated(quoter.threshold);
}

/// A quoter that is shown a book with two sides has seen one more, and the largest
/// imbalance it remembers is at least the size of the one it sees.
pub proof fn law_the_largest_imbalance_is_remembered(quoter: Signal, ts: i64, levels: Levels)
    requires
        levels.best_bid() is Some,
        levels.best_ask() is Some,
        quoter.observations < u64::MAX,
        !quoter.max_abs.is_nan(),
    ensures
        ({
            let after = quoter.having_seen(ts, levels);
            &&& after.observations == quoter.observations + 1
            &&& quoter.max_abs.at_most(after.max_abs)
            &&& !after.flow.sum.is_nan() ==> after.flow.sum.magnitude().at_most(after.max_abs)
            &&& after.max_abs == quoter.max_abs || after.max_abs == after.flow.sum.magnitude()
            &&& after.pulled_bid == quoter.pulled_bid
            &&& after.pulled_ask == quoter.pulled_ask
        }),
{
}

/// A size below one counts as one.
pub proof fn law_a_size_below_one_counts_as_one(quoter: GlftQuoter, n: int)
    requires
        quoter.size < 1,
        -0x20_0000_0000_0000 <= n <= 0x20_0000_0000_0000,
    ensures
        quoter.inventory(n) == Double::of_int(n),
{
    crate::order::lemma_of_int_exact(n);
    crate::order::lemma_of_int_exact(1);
    crate::order::lemma_of_int(n);
    crate::order::lemma_of_int(1);
    let x = Double::of_int(n).over(Double::of_int(1));
    assert(n * 1 == n);
    crate::whole::lemma_over_of_ints(Double::of_int(n), Double::of_int(1), n, 1);
    crate::whole::lemma_is_int(x, n);
}

} // verus!
