//! Where an order of ours stands in the queue at its price.
use vstd::prelude::*;

use crate::book::{Qty, Side, Tick};
use crate::double::Double;

verus! {

#[derive(Clone, Copy, PartialEq, Eq, Debug, Structural)]
pub enum QueueModel {
    /// Filled as soon as a trade prints at our price. What most backtests assume.
    Naive,
    /// Only trades consume the queue ahead of us; cancels are assumed to be behind us.
    Pessimistic,
    /// Cancels remove queue ahead in proportion to the share of the level ahead of us.
    Proportional,
    /// A stated fraction of cancels, in percent, comes from ahead of us.
    ///
    /// Level-2 data cannot say where in the queue a cancel happened, so every
    /// fill model has to assume something about it, and the assumption is not
    /// falsifiable without the exchange's own fills. `Pessimistic` assumes
    /// none, an optimistic model assumes all, and the truth is in between.
    /// Rather than pick, the study sweeps this parameter and reports the
    /// result as a curve, so what the answer depends on is visible.
    FromAhead(u8),
}

#[derive(Debug, Clone, Copy)]
pub struct OwnOrder {
    pub side: Side,
    pub price: Tick,
    pub size: Qty,
    pub filled: Qty,
    /// Quantity ahead of us. Fractional because the proportional model removes
    /// a fraction of the queue at a time.
    pub queue_ahead: Double,
    /// Visible quantity at our price, our own order excluded, as of the last update.
    pub level_qty: Double,
    pub model: QueueModel,
}

pub open spec fn lesser(a: int, b: int) -> int {
    if a <= b {
        a
    } else {
        b
    }
}

/// The part of all cancels that comes from ahead of us.
pub open spec fn share_of(percent: u8) -> Double {
    Double::of_int(lesser(percent as int, 100)).over(Double::of_int(100))
}

impl OwnOrder {
    /// An order that has just joined the back of the queue.
    pub open spec fn joined(
        side: Side,
        price: Tick,
        size: Qty,
        level_qty: Qty,
        model: QueueModel,
    ) -> OwnOrder {
        OwnOrder {
            side,
            price,
            size,
            filled: 0,
            queue_ahead: Double::of_int(level_qty as int),
            level_qty: Double::of_int(level_qty as int),
            model,
        }
    }

    /// What of the order is not filled yet.
    pub open spec fn left(self) -> int {
        self.size - self.filled
    }

    /// Whether that is a quantity.
    pub open spec fn fits(self) -> bool {
        i64::MIN <= self.left() <= i64::MAX
    }

    /// Whether a trade at `price` went past our price.
    pub open spec fn passed_by(self, price: Tick) -> bool {
        match self.side {
            Side::Bid => price < self.price,
            Side::Ask => price > self.price,
        }
    }

    /// Whether a trade at `price` works through the queue at our price.
    pub open spec fn works_queue(self, price: Tick) -> bool {
        self.left() != 0 && price == self.price && self.model != QueueModel::Naive
    }

    /// What of a trade at our price the queue ahead of us takes.
    pub open spec fn consumed(self, size: Qty) -> Double {
        Double::of_int(size as int).smaller(self.queue_ahead)
    }

    /// What of a trade at our price is left once it reaches us.
    pub open spec fn leftover(self, size: Qty) -> Double {
        Double::of_int(size as int).minus(self.consumed(size))
    }

    /// What a trade fills of our order.
    pub open spec fn fill_of(self, price: Tick, size: Qty) -> int {
        if self.left() == 0 {
            0
        } else if self.passed_by(price) {
            self.left()
        } else if price != self.price {
            0
        } else if self.model == QueueModel::Naive {
            lesser(self.left(), size as int)
        } else {
            let leftover = self.leftover(size);
            if leftover.at_most(Double::of_int(0)) {
                0
            } else {
                lesser(
                    self.left(),
                    leftover.cast(leftover.floor_int(), i64::MIN as int, i64::MAX as int),
                )
            }
        }
    }

    /// The order after a trade.
    pub open spec fn traded(self, price: Tick, size: Qty) -> OwnOrder {
        let filled = (self.filled + self.fill_of(price, size)) as i64;
        if self.works_queue(price) {
            OwnOrder {
                filled,
                queue_ahead: self.queue_ahead.minus(self.consumed(size)),
                level_qty: self.level_qty.minus(Double::of_int(size as int)).larger(
                    Double::of_int(0),
                ),
                ..self
            }
        } else {
            OwnOrder { filled, ..self }
        }
    }

    /// A visible quantity at our price without our own order.
    pub open spec fn others(self, visible: Qty) -> Double {
        Double::of_int(visible as int).minus(Double::of_int(self.left())).larger(
            Double::of_int(0),
        )
    }

    /// The queue ahead of us once `cancelled` of the `before` others are gone.
    pub open spec fn queue_after(self, before: Double, cancelled: Double) -> Double {
        let zero = Double::of_int(0);
        match self.model {
            QueueModel::Naive => self.queue_ahead,
            QueueModel::Pessimistic => self.queue_ahead,
            QueueModel::FromAhead(percent) => {
                self.queue_ahead.minus(cancelled.times(share_of(percent))).larger(zero)
            },
            QueueModel::Proportional => {
                let behind = before.minus(self.queue_ahead).larger(zero);
                let total = self.queue_ahead.plus(behind);
                if zero.below(total) {
                    self.queue_ahead.minus(cancelled.times(self.queue_ahead.over(total))).larger(
                        zero,
                    )
                } else {
                    self.queue_ahead
                }
            },
        }
    }

    /// The order after the visible quantity at its price went from `old_qty`
    /// to `new_qty` without a trade.
    pub open spec fn requeued(self, old_qty: Qty, new_qty: Qty) -> OwnOrder {
        let before = self.others(old_qty);
        let after = self.others(new_qty);
        if before.at_most(after) {
            OwnOrder { level_qty: after, ..self }
        } else {
            OwnOrder {
                queue_ahead: self.queue_after(before, before.minus(after)),
                level_qty: after,
                ..self
            }
        }
    }

    pub fn new(side: Side, price: Tick, size: Qty, level_qty: Qty, model: QueueModel) -> (r: Self)
        ensures
            r == OwnOrder::joined(side, price, size, level_qty, model),
    {
        Self {
            side,
            price,
            size,
            filled: 0,
            queue_ahead: Double::from_i64(level_qty),
            level_qty: Double::from_i64(level_qty),
            model,
        }
    }

    pub fn remaining(&self) -> (r: Qty)
        requires
            self.fits(),
        ensures
            r == self.left(),
    {
        self.size - self.filled
    }

    /// What a trade would fill of our order.
    fn fill(&self, price: Tick, size: Qty) -> (r: Qty)
        requires
            self.fits(),
        ensures
            r == self.fill_of(price, size),
    {
        let left: Qty = self.remaining();
        if left == 0 {
            return 0;
        }
        let through: bool = match self.side {
            Side::Bid => price < self.price,
            Side::Ask => price > self.price,
        };
        if through {
            return left;
        }
        if price != self.price {
            return 0;
        }
        if self.model == QueueModel::Naive {
            return if left <= size {
                left
            } else {
                size
            };
        }
        let traded: Double = Double::from_i64(size);
        let leftover: Double = traded.sub(traded.min(self.queue_ahead));
        if leftover.le(Double::zero()) {
            return 0;
        }
        let whole: i64 = leftover.floor_i64();
        if left <= whole {
            left
        } else {
            whole
        }
    }

    /// Whether what is filled after a trade is still a quantity.
    pub open spec fn bears(self, price: Tick, size: Qty) -> bool {
        &&& self.fits()
        &&& i64::MIN <= self.filled + self.fill_of(price, size) <= i64::MAX
    }

    /// Whether what is filled after a trade is still a quantity.
    pub fn can_trade(&self, price: Tick, size: Qty) -> (r: bool)
        ensures
            r == self.bears(price, size),
    {
        let left: i128 = self.size as i128 - self.filled as i128;
        if left < i64::MIN as i128 || left > i64::MAX as i128 {
            return false;
        }
        let filled: i128 = self.filled as i128 + self.fill(price, size) as i128;
        i64::MIN as i128 <= filled && filled <= i64::MAX as i128
    }

    /// A trade printed at `price` for `size`, against the side of the book our
    /// order rests on. Returns the quantity it filled of our order.
    pub fn on_trade(&mut self, price: Tick, size: Qty) -> (r: Qty)
        requires
            old(self).bears(price, size),
        ensures
            r == old(self).fill_of(price, size),
            *final(self) == old(self).traded(price, size),
    {
        let fill: Qty = self.fill(price, size);
        if self.remaining() != 0 && price == self.price && !(self.model == QueueModel::Naive) {
            let traded: Double = Double::from_i64(size);
            let consumed: Double = traded.min(self.queue_ahead);
            self.queue_ahead = self.queue_ahead.sub(consumed);
            self.level_qty = self.level_qty.sub(traded).max(Double::zero());
        }
        self.filled = self.filled + fill;
        fill
    }

    /// The visible quantity at our price went from `old_qty` to `new_qty`
    /// without a trade, so the difference is cancels, or new orders joining
    /// behind us.
    pub fn on_level_change(&mut self, old_qty: Qty, new_qty: Qty)
        requires
            old(self).fits(),
        ensures
            *final(self) == old(self).requeued(old_qty, new_qty),
    {
        let zero: Double = Double::zero();
        let own: Double = Double::from_i64(self.remaining());
        let before: Double = Double::from_i64(old_qty).sub(own).max(zero);
        let after: Double = Double::from_i64(new_qty).sub(own).max(zero);
        if before.le(after) {
            self.level_qty = after;
            return;
        }
        let cancelled: Double = before.sub(after);
        match self.model {
            QueueModel::Naive => {},
            QueueModel::Pessimistic => {},
            QueueModel::FromAhead(percent) => {
                let capped: u64 = if percent <= 100 {
                    percent as u64
                } else {
                    100
                };
                let share: Double = Double::from_u64(capped).div(Double::from_u64(100));
                self.queue_ahead = self.queue_ahead.sub(cancelled.mul(share)).max(zero);
            },
            QueueModel::Proportional => {
                let behind: Double = before.sub(self.queue_ahead).max(zero);
                let total: Double = self.queue_ahead.add(behind);
                if zero.lt(total) {
                    let ahead: Double = self.queue_ahead.div(total);
                    self.queue_ahead = self.queue_ahead.sub(cancelled.mul(ahead)).max(zero);
                }
            },
        }
        self.level_qty = after;
    }
}

impl OwnOrder {
    /// In good standing: not overfilled, and with a queue ahead that has not
    /// run past zero.
    pub open spec fn sound(self) -> bool {
        &&& 0 <= self.filled <= self.size
        &&& self.queue_ahead.non_negative()
    }
}

proof fn lemma_larger_than_zero(x: Double)
    requires
        !x.is_neg() || x.is_nan() || x.pattern() > 0,
    ensures
        x.larger(Double::of_int(0)).non_negative(),
{
    crate::order::lemma_of_int(0);
}

/// What is taken off a non-negative number leaves no negative zero.
proof fn lemma_minus_from_non_negative(a: Double, b: Double)
    requires
        a.non_negative(),
    ensures
        !a.minus(b).is_neg() || a.minus(b).is_nan() || a.minus(b).pattern() > 0,
{
    crate::order::lemma_negated(b);
    if a.is_finite() && b.is_finite() {
        crate::order::lemma_minus(a, b);
        crate::order::lemma_rounded(a.value() - b.value(), false);
    } else {
        reveal(Double::plus);
    }
}

/// An order that joins a level starts in good standing.
pub proof fn law_an_order_joins_in_good_standing(
    side: Side,
    price: Tick,
    size: Qty,
    level_qty: Qty,
    model: QueueModel,
)
    requires
        0 <= size,
        0 <= level_qty,
    ensures
        OwnOrder::joined(side, price, size, level_qty, model).sound(),
{
    crate::order::lemma_of_int(level_qty as int);
}

/// A trade never overfills an order, takes nothing back from it, and never
/// lets its queue run past zero.
pub proof fn law_trades_keep_good_standing(order: OwnOrder, price: Tick, size: Qty)
    requires
        order.sound(),
        0 <= size,
    ensures
        order.bears(price, size),
        0 <= order.fill_of(price, size) <= order.left(),
        order.traded(price, size).sound(),
        order.traded(price, size).left() == order.left() - order.fill_of(price, size),
{
    let q = order.queue_ahead;
    let s = Double::of_int(size as int);
    let c = order.consumed(size);
    crate::order::lemma_of_int(size as int);
    crate::order::lemma_of_int(0);
    crate::order::lemma_negated(c);
    if q.is_finite() {
        crate::order::lemma_order_of_values(c, q);
        crate::order::lemma_minus(q, c);
        crate::order::lemma_rounded(q.value() - c.value(), false);
    } else {
        reveal(Double::plus);
    }
    let leftover = order.leftover(size);
    crate::order::lemma_order_of_values(c, s);
    crate::order::lemma_minus(s, c);
    crate::order::lemma_rounded(s.value() - c.value(), false);
    vstd::arithmetic::power2::lemma_pow2_pos(1074);
    assert(leftover.floor_int() >= 0) by (nonlinear_arith)
        requires
            leftover.value() >= 0,
            vstd::arithmetic::power2::pow2(1074) > 0,
            leftover.floor_int() == leftover.value() / (vstd::arithmetic::power2::pow2(
                1074,
            ) as int),
    ;
}

/// The queue never runs past zero when the level changes, and what is filled
/// stays filled.
pub proof fn law_level_changes_keep_good_standing(order: OwnOrder, old_qty: Qty, new_qty: Qty)
    requires
        order.sound(),
    ensures
        order.requeued(old_qty, new_qty).sound(),
        order.requeued(old_qty, new_qty).left() == order.left(),
{
    let q = order.queue_ahead;
    let before = order.others(old_qty);
    let cancelled = before.minus(order.others(new_qty));
    match order.model {
        QueueModel::FromAhead(percent) => {
            let x = cancelled.times(share_of(percent));
            lemma_minus_from_non_negative(q, x);
            lemma_larger_than_zero(q.minus(x));
        },
        QueueModel::Proportional => {
            let total = q.plus(before.minus(q).larger(Double::of_int(0)));
            let x = cancelled.times(q.over(total));
            lemma_minus_from_non_negative(q, x);
            lemma_larger_than_zero(q.minus(x));
        },
        _ => {},
    }
}

/// A trade through our price fills all that is left of our order.
pub proof fn law_a_trade_through_always_fills(order: OwnOrder, price: Tick, size: Qty)
    requires
        order.passed_by(price),
    ensures
        order.fill_of(price, size) == order.left(),
        order.traded(price, size).queue_ahead == order.queue_ahead,
{
}

/// A trade on the far side of our price does not touch our order.
pub proof fn law_a_trade_on_the_far_side_does_nothing(order: OwnOrder, price: Tick, size: Qty)
    requires
        price != order.price,
        !order.passed_by(price),
    ensures
        order.fill_of(price, size) == 0,
        order.traded(price, size) == order,
{
}

/// Orders that join behind us do not move us.
pub proof fn law_joins_do_not_move_us(order: OwnOrder, old_qty: Qty, new_qty: Qty)
    requires
        order.fits(),
        old_qty <= new_qty,
    ensures
        order.requeued(old_qty, new_qty).queue_ahead == order.queue_ahead,
{
    lemma_others_monotone(order, old_qty, new_qty);
}

proof fn lemma_others_monotone(order: OwnOrder, a: Qty, b: Qty)
    requires
        order.fits(),
        a <= b,
    ensures
        order.others(a).at_most(order.others(b)),
        order.others(a).non_negative(),
        order.others(a).is_finite(),
{
    let x = Double::of_int(a as int);
    let y = Double::of_int(b as int);
    let own = Double::of_int(order.left());
    crate::order::lemma_of_int(0);
    crate::order::lemma_of_int(a as int);
    crate::order::lemma_of_int(b as int);
    crate::order::lemma_of_int(order.left());
    crate::order::lemma_of_int_monotone(a as int, b as int);
    crate::order::lemma_order_of_values(x, y);
    crate::order::lemma_difference_of_ints(a as int, order.left());
    crate::order::lemma_difference_of_ints(b as int, order.left());
    crate::order::lemma_rounded_monotone(
        x.value() - own.value(),
        y.value() - own.value(),
        false,
        false,
    );
}

proof fn lemma_share(a: u8, b: u8)
    requires
        a <= b,
    ensures
        share_of(a).non_negative(),
        share_of(a).is_finite(),
        share_of(a).at_most(share_of(b)),
        share_of(a).at_most(Double::of_int(1)),
        a == 0 ==> share_of(a) == Double::of_int(0),
        a >= 100 ==> share_of(a) == Double::of_int(1),
{
    let hundred = Double::of_int(100);
    let x = Double::of_int(lesser(a as int, 100));
    let y = Double::of_int(lesser(b as int, 100));
    crate::order::lemma_of_int(100);
    crate::order::lemma_of_int(1);
    crate::order::lemma_of_int(lesser(a as int, 100));
    crate::order::lemma_of_int(lesser(b as int, 100));
    crate::order::lemma_of_int_monotone(lesser(a as int, 100), lesser(b as int, 100));
    crate::order::lemma_of_int_monotone(lesser(a as int, 100), 100);
    crate::order::lemma_over_monotone(x, y, hundred);
    crate::order::lemma_over_monotone(x, hundred, hundred);
    crate::order::lemma_over_itself(hundred);
    if a == 0 {
        reveal(Double::over);
        assert(crate::rounding::units(0) == 0);
        crate::rounding::lemma_units_increasing(0, hundred.pattern());
        crate::rounding::lemma_nearest_zero(hundred.size());
        assert(0 * vstd::arithmetic::power2::pow2(1074) == 0);
    }
}

/// What was cancelled when the others went from more to less.
proof fn lemma_cancelled(order: OwnOrder, old_qty: Qty, new_qty: Qty)
    requires
        order.fits(),
        !order.others(old_qty).at_most(order.others(new_qty)),
    ensures
        order.others(old_qty).minus(order.others(new_qty)).non_negative(),
        order.others(old_qty).minus(order.others(new_qty)).is_finite(),
{
    let before = order.others(old_qty);
    let after = order.others(new_qty);
    lemma_others_monotone(order, old_qty, old_qty);
    lemma_others_monotone(order, new_qty, new_qty);
    crate::order::lemma_order_of_values(before, after);
    crate::order::lemma_minus(before, after);
    crate::order::lemma_rounded(before.value() - after.value(), false);
    crate::order::lemma_rounded_monotone(
        before.value() - after.value(),
        before.value(),
        false,
        false,
    );
    crate::order::lemma_rounded_value(before);
}

/// A part of what was cancelled, as one of the stated fractions takes it.
proof fn lemma_taken(cancelled: Double, a: u8, b: u8)
    requires
        cancelled.non_negative(),
        cancelled.is_finite(),
        a <= b,
    ensures
        cancelled.times(share_of(a)).non_negative(),
        cancelled.times(share_of(a)).is_finite(),
        cancelled.times(share_of(a)).at_most(cancelled.times(share_of(b))),
        a == 0 ==> cancelled.times(share_of(a)) == Double::of_int(0),
        a >= 100 ==> cancelled.times(share_of(a)) == cancelled,
{
    lemma_share(a, b);
    lemma_share(b, b);
    crate::order::lemma_of_int(1);
    crate::order::lemma_times_monotone(share_of(a), share_of(b), cancelled);
    crate::order::lemma_times_monotone(share_of(a), Double::of_int(1), cancelled);
    crate::order::lemma_times_commutes(share_of(a), cancelled);
    crate::order::lemma_times_commutes(share_of(b), cancelled);
    crate::order::lemma_times_commutes(Double::of_int(1), cancelled);
    crate::order::lemma_times_one(cancelled);
    crate::order::lemma_times_zero(cancelled);
}

/// The larger the fraction of cancels that comes from ahead of us, the nearer
/// to the front a cancel leaves us.
pub proof fn law_a_larger_fraction_never_leaves_us_further_back(
    order: OwnOrder,
    a: u8,
    b: u8,
    old_qty: Qty,
    new_qty: Qty,
)
    requires
        order.fits(),
        Double::of_int(0).at_most(order.queue_ahead),
        a <= b,
    ensures
        ({
            let less = OwnOrder { model: QueueModel::FromAhead(a), ..order };
            let more = OwnOrder { model: QueueModel::FromAhead(b), ..order };
            more.requeued(old_qty, new_qty).queue_ahead.at_most(
                less.requeued(old_qty, new_qty).queue_ahead,
            )
        }),
{
    let less = OwnOrder { model: QueueModel::FromAhead(a), ..order };
    let more = OwnOrder { model: QueueModel::FromAhead(b), ..order };
    let before = order.others(old_qty);
    let after = order.others(new_qty);
    assert(less.others(old_qty) == before && less.others(new_qty) == after);
    assert(more.others(old_qty) == before && more.others(new_qty) == after);
    crate::order::lemma_of_int(0);
    if !before.at_most(after) {
        lemma_cancelled(order, old_qty, new_qty);
        let cancelled = before.minus(after);
        lemma_taken(cancelled, a, b);
        lemma_taken(cancelled, b, b);
        crate::order::lemma_minus_monotone(
            order.queue_ahead,
            cancelled.times(share_of(a)),
            cancelled.times(share_of(b)),
        );
    }
}

/// The stated fraction runs from the model in which no cancel comes from ahead
/// of us to one in which every cancel does.
pub proof fn law_the_fraction_brackets_the_other_models(
    order: OwnOrder,
    old_qty: Qty,
    new_qty: Qty,
)
    requires
        order.fits(),
        Double::of_int(0).at_most(order.queue_ahead),
    ensures
        ({
            let none = OwnOrder { model: QueueModel::FromAhead(0), ..order };
            let pessimistic = OwnOrder { model: QueueModel::Pessimistic, ..order };
            none.requeued(old_qty, new_qty).queue_ahead == pessimistic.requeued(
                old_qty,
                new_qty,
            ).queue_ahead
        }),
        ({
            let all = OwnOrder { model: QueueModel::FromAhead(100), ..order };
            let cancelled = order.others(old_qty).minus(order.others(new_qty));
            !order.others(old_qty).at_most(order.others(new_qty)) ==> all.requeued(
                old_qty,
                new_qty,
            ).queue_ahead == order.queue_ahead.minus(cancelled).larger(Double::of_int(0))
        }),
{
    let none = OwnOrder { model: QueueModel::FromAhead(0), ..order };
    let pessimistic = OwnOrder { model: QueueModel::Pessimistic, ..order };
    let all = OwnOrder { model: QueueModel::FromAhead(100), ..order };
    let before = order.others(old_qty);
    let after = order.others(new_qty);
    assert(none.others(old_qty) == before && none.others(new_qty) == after);
    assert(pessimistic.others(old_qty) == before && pessimistic.others(new_qty) == after);
    assert(all.others(old_qty) == before && all.others(new_qty) == after);
    crate::order::lemma_of_int(0);
    if !before.at_most(after) {
        lemma_cancelled(order, old_qty, new_qty);
        let cancelled = before.minus(after);
        lemma_taken(cancelled, 0, 0);
        lemma_taken(cancelled, 100, 100);
        crate::order::lemma_minus_zero(order.queue_ahead);
    }
}

/// A change of the level never moves us back, whatever the model.
pub proof fn law_level_changes_never_move_us_back(order: OwnOrder, old_qty: Qty, new_qty: Qty)
    requires
        order.fits(),
        Double::of_int(0).at_most(order.queue_ahead),
    ensures
        order.requeued(old_qty, new_qty).queue_ahead.at_most(order.queue_ahead),
{
    let before = order.others(old_qty);
    let after = order.others(new_qty);
    let zero = Double::of_int(0);
    let q = order.queue_ahead;
    crate::order::lemma_of_int(0);
    if !before.at_most(after) {
        lemma_cancelled(order, old_qty, new_qty);
        let cancelled = before.minus(after);
        match order.model {
            QueueModel::FromAhead(percent) => {
                let x = cancelled.times(share_of(percent));
                lemma_taken(cancelled, percent, percent);
                crate::order::lemma_minus_zero(q);
                crate::order::lemma_minus_monotone(q, zero, x);
            },
            QueueModel::Proportional => {
                let behind = before.minus(q).larger(zero);
                let total = q.plus(behind);
                if zero.below(total) {
                    let x = cancelled.times(q.over(total));
                    lemma_part_is_not_negative(q, total, cancelled);
                    if x.is_finite() {
                        crate::order::lemma_minus_zero(q);
                        crate::order::lemma_minus_monotone(q, zero, x);
                    } else {
                        reveal(Double::plus);
                    }
                }
            },
            _ => {},
        }
    }
}

proof fn lemma_part_is_not_negative(q: Double, total: Double, cancelled: Double)
    requires
        Double::of_int(0).at_most(q),
        Double::of_int(0).below(total),
        cancelled.non_negative(),
    ensures
        ({
            let x = cancelled.times(q.over(total));
            x.is_nan() || Double::of_int(0).at_most(x)
        }),
{
    crate::order::lemma_of_int(0);
    reveal(Double::over);
    reveal(Double::times);
    if q.is_neg() {
        // A negative zero: the part is a zero.
        let unit = vstd::arithmetic::power2::pow2(1074);
        assert(q.pattern() == 0);
        assert(crate::rounding::units(0) == 0);
        assert(0 * unit == 0);
        vstd::arithmetic::power2::lemma_pow2_pos(1074);
        if total.is_finite() {
            crate::rounding::lemma_units_increasing(0, total.pattern());
            crate::rounding::lemma_nearest_zero(total.size());
        }
        let part = q.over(total);
        assert(part.pattern() == 0);
        assert(cancelled.size() * 0 == 0);
        crate::rounding::lemma_nearest_zero(unit);
    }
}

/// A trade never fills less of an order under the naive model than under any
/// other. Trades are smaller than two to the power of 53, where every integer
/// has a number of its own.
pub proof fn law_the_naive_model_fills_at_least_as_much(
    order: OwnOrder,
    price: Tick,
    size: Qty,
)
    requires
        order.sound(),
        0 <= size <= 0x20_0000_0000_0000,
    ensures
        order.fill_of(price, size) <= (OwnOrder { model: QueueModel::Naive, ..order }).fill_of(
            price,
            size,
        ),
{
    let naive = OwnOrder { model: QueueModel::Naive, ..order };
    assert(naive.passed_by(price) == order.passed_by(price));
    let s = Double::of_int(size as int);
    let c = order.consumed(size);
    let unit = vstd::arithmetic::power2::pow2(1074) as int;
    let leftover = order.leftover(size);
    vstd::arithmetic::power2::lemma_pow2_pos(1074);
    crate::order::lemma_of_int(0);
    crate::order::lemma_of_int(size as int);
    crate::order::lemma_of_int_exact(size as int);
    crate::order::lemma_order_of_values(c, s);
    crate::order::lemma_minus(s, c);
    crate::order::lemma_rounded(s.value() - c.value(), false);
    assert(crate::rounding::units(0) == 0);
    crate::order::lemma_rounded_monotone(s.value() - c.value(), s.value(), false, false);
    crate::order::lemma_rounded_value(s);
    crate::order::lemma_order_of_values(leftover, s);
    assert(leftover.floor_int() <= size) by (nonlinear_arith)
        requires
            leftover.value() <= size * unit,
            unit > 0,
            leftover.floor_int() == leftover.value() / unit,
    ;
}

pub open spec fn greater(a: int, b: int) -> int {
    if a >= b {
        a
    } else {
        b
    }
}

/// Two numbers that are integers are ordered as the integers are.
proof fn lemma_int_order(a: Double, b: Double, m: int, n: int)
    requires
        a.is_int(m),
        b.is_int(n),
    ensures
        a.below(b) <==> m < n,
        a.at_most(b) <==> m <= n,
{
    let unit = vstd::arithmetic::power2::pow2(1074) as int;
    vstd::arithmetic::power2::lemma_pow2_pos(1074);
    crate::order::lemma_order_of_values(a, b);
    assert((m < n) == (m * unit < n * unit) && (m <= n) == (m * unit <= n * unit))
        by (nonlinear_arith)
        requires
            unit > 0,
    ;
}

/// The integer that a number is, where it is one.
proof fn lemma_int_floor(a: Double, n: int)
    requires
        a.is_int(n),
        n >= 0,
    ensures
        a.floor_int() == n,
{
    let unit = vstd::arithmetic::power2::pow2(1074) as int;
    vstd::arithmetic::power2::lemma_pow2_pos(1074);
    vstd::arithmetic::div_mod::lemma_div_by_multiple(n, unit);
}

/// Whole quantities are traded without rounding: the queue ahead of us takes
/// what it can, and we get what is left.
pub proof fn law_whole_quantities_trade_exactly(
    order: OwnOrder,
    price: Tick,
    size: Qty,
    queue: int,
)
    requires
        order.works_queue(price),
        !order.passed_by(price),
        order.queue_ahead.is_int(queue),
        0 <= queue <= 0x20_0000_0000_0000,
        0 <= size <= 0x20_0000_0000_0000,
        order.left() > 0,
    ensures
        order.traded(price, size).queue_ahead.is_int(queue - lesser(size as int, queue)),
        order.fill_of(price, size) == lesser(order.left(), size - lesser(size as int, queue)),
{
    let s = Double::of_int(size as int);
    let c = order.consumed(size);
    let taken = lesser(size as int, queue);
    crate::order::lemma_of_int_exact(size as int);
    crate::order::lemma_of_int_exact(0);
    lemma_int_order(order.queue_ahead, s, queue, size as int);
    assert(c.is_int(taken));
    crate::order::lemma_minus_of_ints(order.queue_ahead, c, queue, taken);
    crate::order::lemma_minus_of_ints(s, c, size as int, taken);
    let leftover = order.leftover(size);
    lemma_int_order(leftover, Double::of_int(0), size - taken, 0);
    lemma_int_floor(leftover, size - taken);
}

/// Where every cancel comes from ahead of us, whole quantities are cancelled
/// without rounding, and none beyond the queue.
pub proof fn law_whole_quantities_cancel_exactly(
    order: OwnOrder,
    old_qty: Qty,
    new_qty: Qty,
    queue: int,
)
    requires
        order.sound(),
        order.model == QueueModel::FromAhead(100),
        order.queue_ahead.is_int(queue),
        0 <= queue <= 0x10_0000_0000_0000,
        0 <= old_qty <= 0x10_0000_0000_0000,
        0 <= new_qty <= 0x10_0000_0000_0000,
        order.size <= 0x10_0000_0000_0000,
    ensures
        ({
            let before = greater(old_qty - order.left(), 0);
            let after = greater(new_qty - order.left(), 0);
            order.requeued(old_qty, new_qty).queue_ahead.is_int(
                if after >= before {
                    queue
                } else {
                    greater(queue - (before - after), 0)
                },
            )
        }),
{
    let left = order.left();
    let before = greater(old_qty - left, 0);
    let after = greater(new_qty - left, 0);
    let zero = Double::of_int(0);
    let x = order.others(old_qty);
    let y = order.others(new_qty);
    crate::order::lemma_of_int_exact(0);
    crate::order::lemma_of_int_exact(left);
    crate::order::lemma_of_int_exact(old_qty as int);
    crate::order::lemma_of_int_exact(new_qty as int);
    crate::order::lemma_minus_of_ints(
        Double::of_int(old_qty as int),
        Double::of_int(left),
        old_qty as int,
        left,
    );
    crate::order::lemma_minus_of_ints(
        Double::of_int(new_qty as int),
        Double::of_int(left),
        new_qty as int,
        left,
    );
    let dx = Double::of_int(old_qty as int).minus(Double::of_int(left));
    let dy = Double::of_int(new_qty as int).minus(Double::of_int(left));
    lemma_int_order(dx, zero, old_qty - left, 0);
    lemma_int_order(dy, zero, new_qty - left, 0);
    assert(x.is_int(before));
    assert(y.is_int(after));
    lemma_int_order(x, y, before, after);
    if after < before {
        crate::order::lemma_of_int(0);
        law_the_fraction_brackets_the_other_models(order, old_qty, new_qty);
        let all = OwnOrder { model: QueueModel::FromAhead(100), ..order };
        assert(all == order);
        crate::order::lemma_minus_of_ints(x, y, before, after);
        let cancelled = x.minus(y);
        crate::order::lemma_minus_of_ints(order.queue_ahead, cancelled, queue, before - after);
        lemma_int_order(
            order.queue_ahead.minus(cancelled),
            zero,
            queue - (before - after),
            0,
        );
    }
}

/// An order after some trades, in turn.
pub open spec fn after_trades(order: OwnOrder, trades: Seq<(Tick, Qty)>) -> OwnOrder
    decreases trades.len(),
{
    if trades.len() == 0 {
        order
    } else {
        after_trades(order, trades.drop_last()).traded(trades.last().0, trades.last().1)
    }
}

/// Whatever trades come, an order under the naive model is never filled less
/// than the same order under another.
pub proof fn law_the_naive_model_is_never_behind(
    naive: OwnOrder,
    other: OwnOrder,
    trades: Seq<(Tick, Qty)>,
)
    requires
        naive.sound(),
        other.sound(),
        naive.model == QueueModel::Naive,
        naive.side == other.side,
        naive.price == other.price,
        naive.size == other.size,
        naive.filled >= other.filled,
        forall|i: int|
            0 <= i < trades.len() ==> 0 <= (#[trigger] trades[i]).1 <= 0x20_0000_0000_0000,
    ensures
        ({
            let a = after_trades(naive, trades);
            let b = after_trades(other, trades);
            &&& a.filled >= b.filled
            &&& a.sound()
            &&& b.sound()
            &&& a.model == naive.model && a.side == naive.side && a.price == naive.price && a.size
                == naive.size
            &&& b.side == naive.side && b.price == naive.price && b.size == naive.size
        }),
    decreases trades.len(),
{
    if trades.len() > 0 {
        let rest = trades.drop_last();
        assert forall|i: int| 0 <= i < rest.len() implies 0 <= (#[trigger] rest[i]).1
            <= 0x20_0000_0000_0000 by {
            assert(rest[i] == trades[i]);
        }
        law_the_naive_model_is_never_behind(naive, other, rest);
        let a = after_trades(naive, rest);
        let b = after_trades(other, rest);
        let (price, size) = trades[trades.len() - 1];
        law_trades_keep_good_standing(a, price, size);
        law_trades_keep_good_standing(b, price, size);
        law_the_naive_model_fills_at_least_as_much(b, price, size);
    }
}

} // verus!
