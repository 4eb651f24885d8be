//! How much of the queue ahead of us goes.
use vstd::arithmetic::power2::*;
use vstd::prelude::*;

use crate::book::{Qty, Side, Tick};
use crate::double::Double;
use crate::queue::{OwnOrder, QueueModel};
use crate::rounding::BINADE;

verus! {

/// An order joins with nothing filled, behind everything that is at its price.
pub proof fn law_an_order_joins_behind_the_level(
    side: Side,
    price: Tick,
    size: Qty,
    level_qty: Qty,
    model: QueueModel,
)
    ensures
        ({
            let order = OwnOrder::joined(side, price, size, level_qty, model);
            &&& order.side == side
            &&& order.price == price
            &&& order.model == model
            &&& order.left() == size
            &&& order.queue_ahead == Double::of_int(level_qty as int)
        }),
{
}

/// The part of the cancels that comes from ahead of us is in percent: a hundred
/// times it is the percentage, up to a rounding, and beyond a hundred percent there
/// is nothing more.
pub proof fn law_the_part_from_ahead_is_in_percent(percent: u8)
    ensures
        ({
            let share = crate::queue::share_of(percent);
            let p: int = if percent < 100 {
                percent as int
            } else {
                100
            };
            &&& share.is_finite()
            &&& -1 * pow2(1074) <= 0x1000_0000_0000 * (100 * share.value() - p * pow2(1074)) <= 1
                * pow2(1074)
        }),
{
    let unit = pow2(1074) as int;
    lemma_pow2_pos(1074);
    lemma2_to64();
    lemma2_to64_rest();
    lemma_pow2_strictly_increases(60, 1074);
    let p: int = if percent < 100 {
        percent as int
    } else {
        100
    };
    let a = Double::of_int(p);
    let b = Double::of_int(100);
    crate::order::lemma_of_int(p);
    crate::order::lemma_of_int(100);
    crate::order::lemma_of_int_exact(p);
    crate::order::lemma_of_int_exact(100);
    crate::order::lemma_of_int_monotone(p, 100);
    crate::order::lemma_over_monotone(a, b, b);
    crate::order::lemma_over_itself(b);
    crate::order::lemma_of_int(1);
    let x = a.over(b);
    assert(x == crate::queue::share_of(percent));
    crate::error::lemma_over_error(a, b);
    let v = x.value();
    lemma_percent_error(v, p, unit);
}

proof fn lemma_percent_error(v: int, p: int, unit: int)
    requires
        unit >= 0x1000_0000_0000_0000,
        0 <= p <= 100,
        crate::error::gap(v * (100 * unit), (p * unit) * unit) * crate::error::PRECISION
            <= crate::error::gap((p * unit) * unit, 0) + (100 * unit) * BINADE,
    ensures
        -unit <= 0x1000_0000_0000 * (100 * v - p * unit) <= unit,
{
    let d = 100 * v - p * unit;
    let g = if d < 0 {
        -d
    } else {
        d
    };
    let pr = crate::error::PRECISION as int;
    assert(v * (100 * unit) - (p * unit) * unit == d * unit && (p * unit) * unit >= 0)
        by (nonlinear_arith)
        requires
            d == 100 * v - p * unit,
            0 <= p,
            unit > 0,
    ;
    assert(crate::error::gap(v * (100 * unit), (p * unit) * unit) == g * unit) by {
        assert((-d) * unit == -(d * unit)) by (nonlinear_arith);
        assert(d < 0 ==> d * unit < 0) by (nonlinear_arith)
            requires
                unit > 0,
        ;
        assert(d >= 0 ==> d * unit >= 0) by (nonlinear_arith)
            requires
                unit > 0,
        ;
    }
    assert(g * pr <= p * unit + 100 * BINADE) by (nonlinear_arith)
        requires
            (g * unit) * pr <= (p * unit) * unit + (100 * unit) * BINADE,
            unit > 0,
    ;
    assert(0x1000_0000_0000 * g <= unit) by (nonlinear_arith)
        requires
            g * pr <= p * unit + 100 * BINADE,
            0 <= p <= 100,
            pr == 0x20_0000_0000_0000,
            BINADE == 0x10_0000_0000_0000,
            unit >= 0x1000_0000_0000_0000,
            g >= 0,
    ;
}

/// Where half of the others are ahead of us, half of what is cancelled comes from
/// ahead of us.
pub proof fn law_half_ahead_lose_half_of_the_cancels(
    order: OwnOrder,
    before: Double,
    cancelled: Double,
    n: int,
    k: int,
)
    requires
        order.model == QueueModel::Proportional,
        order.queue_ahead.is_int(n),
        before.is_int(2 * n),
        cancelled.is_int(2 * k),
        1 <= n,
        0 <= k <= n,
        2 * n <= 2 * BINADE,
    ensures
        order.queue_after(before, cancelled).is_int(n - k),
{
    let zero = Double::of_int(0);
    let q = order.queue_ahead;
    crate::order::lemma_of_int(0);
    crate::order::lemma_of_int_exact(0);
    crate::order::lemma_minus_of_ints(before, q, 2 * n, n);
    let d = before.minus(q);
    crate::whole::lemma_is_int(d, n);
    crate::whole::lemma_is_int(q, n);
    let behind = d.larger(zero);
    assert(behind == d);
    crate::order::lemma_plus_of_ints(q, behind, n, n);
    let total = q.plus(behind);
    crate::whole::lemma_is_int(total, 2 * n);
    crate::whole::lemma_over_double(q, total, n);
    let half = q.over(total);
    crate::order::lemma_times_commutes(cancelled, half);
    assert(1 * k == k);
    crate::whole::lemma_half_times_even(half, cancelled, 1, k);
    let gone = cancelled.times(half);
    crate::order::lemma_minus_of_ints(q, gone, n, k);
    let x = q.minus(gone);
    crate::whole::lemma_is_int(x, n - k);
}

/// Under the model of a fraction, an even part of the cancels comes from ahead of
/// us at fifty percent, all of them at a hundred and none at zero, and never more
/// than there is.
pub proof fn law_half_of_the_cancels_come_from_ahead_at_fifty_percent(
    order: OwnOrder,
    before: Double,
    cancelled: Double,
    n: int,
    k: int,
)
    requires
        order.model == QueueModel::FromAhead(50),
        order.queue_ahead.is_int(n),
        cancelled.is_int(2 * k),
        0 <= n <= 2 * BINADE,
        0 <= k <= BINADE,
    ensures
        order.queue_after(before, cancelled).is_int(if k <= n {
            n - k
        } else {
            0
        }),
{
    let zero = Double::of_int(0);
    let q = order.queue_ahead;
    crate::order::lemma_of_int(0);
    crate::order::lemma_of_int_exact(0);
    crate::order::lemma_of_int_exact(50);
    crate::order::lemma_of_int_exact(100);
    let half = crate::queue::share_of(50);
    crate::whole::lemma_over_double(Double::of_int(50), Double::of_int(100), 50);
    crate::order::lemma_times_commutes(cancelled, half);
    assert(1 * k == k);
    crate::whole::lemma_half_times_even(half, cancelled, 1, k);
    let gone = cancelled.times(half);
    crate::order::lemma_minus_of_ints(q, gone, n, k);
    let x = q.minus(gone);
    crate::whole::lemma_is_int(x, n - k);
    crate::order::lemma_order_of_values(x, zero);
    let unit = pow2(1074) as int;
    lemma_pow2_pos(1074);
    assert((n - k < 0) == ((n - k) * unit < 0)) by (nonlinear_arith)
        requires
            unit > 0,
    ;
}

/// What is visible at our price without our own order: what is there less what is
/// left of the order, and never less than nothing.
pub proof fn law_the_others_are_what_is_not_ours(order: OwnOrder, visible: Qty)
    requires
        0 <= visible <= BINADE,
        0 <= order.left() <= BINADE,
    ensures
        order.others(visible).is_int(if order.left() <= visible {
            visible - order.left()
        } else {
            0
        }),
{
    let zero = Double::of_int(0);
    let d = visible - order.left();
    crate::order::lemma_of_int(0);
    crate::order::lemma_of_int_exact(0);
    crate::order::lemma_of_int_exact(visible as int);
    crate::order::lemma_of_int_exact(order.left());
    let x = Double::of_int(visible as int).minus(Double::of_int(order.left()));
    crate::order::lemma_minus_of_ints(
        Double::of_int(visible as int),
        Double::of_int(order.left()),
        visible as int,
        order.left(),
    );
    crate::order::lemma_order_of_values(x, zero);
    let unit = pow2(1074) as int;
    lemma_pow2_pos(1074);
    assert((d < 0) == (d * unit < 0)) by (nonlinear_arith)
        requires
            unit > 0,
    ;
}

/// Under the naive model a trade at our price fills us at once, up to its size, however
/// long the queue.
pub proof fn law_the_naive_model_has_no_queue(order: OwnOrder, size: Qty)
    requires
        order.model == QueueModel::Naive,
        0 <= order.left(),
        0 <= size,
    ensures
        order.left() <= size ==> order.fill_of(order.price, size) == order.left(),
        size < order.left() ==> order.fill_of(order.price, size) == size,
        order.traded(order.price, size).queue_ahead == order.queue_ahead,
{
}

/// A change of the level is remembered as what of it is not ours.
pub proof fn law_a_changed_level_is_remembered(order: OwnOrder, old_qty: Qty, new_qty: Qty)
    ensures
        ({
            let after = order.requeued(old_qty, new_qty);
            &&& after.level_qty == order.others(new_qty)
            &&& after.side == order.side
            &&& after.price == order.price
            &&& after.size == order.size
            &&& after.filled == order.filled
            &&& after.model == order.model
        }),
{
}

/// A trade at our price takes its size off the level, down to nothing.
pub proof fn law_a_trade_takes_its_size_off_the_level(order: OwnOrder, size: Qty, level: int)
    requires
        order.left() != 0,
        order.model != QueueModel::Naive,
        order.level_qty.is_int(level),
        0 <= level <= BINADE,
        0 <= size <= BINADE,
    ensures
        order.traded(order.price, size).level_qty.is_int(if size <= level {
            level - size
        } else {
            0
        }),
{
    let zero = Double::of_int(0);
    let d = level - size;
    crate::order::lemma_of_int(0);
    crate::order::lemma_of_int_exact(0);
    crate::order::lemma_of_int_exact(size as int);
    let x = order.level_qty.minus(Double::of_int(size as int));
    crate::order::lemma_minus_of_ints(
        order.level_qty,
        Double::of_int(size as int),
        level,
        size as int,
    );
    crate::order::lemma_order_of_values(x, zero);
    let unit = pow2(1074) as int;
    lemma_pow2_pos(1074);
    assert((d < 0) == (d * unit < 0)) by (nonlinear_arith)
        requires
            unit > 0,
    ;
}

/// An order with nothing left is done: no trade changes it.
pub proof fn law_an_order_with_nothing_left_is_done(order: OwnOrder, price: Tick, size: Qty)
    requires
        order.left() == 0,
    ensures
        order.fill_of(price, size) == 0,
        order.traded(price, size) == order,
{
}

} // verus!
