//! What the simulator holds at any moment, and what each event makes of it.
use vstd::prelude::*;

use crate::book::{Levels, Qty, Side, Tick};
use crate::double::Double;
use crate::event::EventView;
use crate::ledger::{Account, Fill};
use crate::queue::{OwnOrder, QueueModel};

verus! {

#[derive(Debug, Clone, Copy)]
pub struct Config {
    /// Time between deciding a quote and it resting on the book.
    pub latency_ms: i64,
    pub model: QueueModel,
    pub maker_fee: Double,
    pub tick_size: Double,
    /// Minimum time between two requote decisions.
    pub requote_ms: i64,
    /// Absolute inventory limit in USD; we stop quoting the side that would breach it.
    pub max_position: Qty,
}

#[derive(Debug, Clone, Copy, PartialEq, Eq)]
pub struct Quotes {
    pub bid: Option<Tick>,
    pub ask: Option<Tick>,
    pub size: Qty,
}

/// The simulator as a value.
///
/// Each event gives the next desk, or none where a quantity or a time leaves
/// the range of its type.
#[verifier::ext_equal]
pub struct Desk {
    pub cfg: Config,
    pub book: Levels,
    pub bid: Option<OwnOrder>,
    pub ask: Option<OwnOrder>,
    /// Quotes on their way to the book, with the time they get there.
    pub pending: Seq<(i64, Quotes)>,
    pub account: Account,
    pub mids: Seq<(i64, Double)>,
    pub last_decision: i64,
    /// The quotes last sent.
    pub live: Option<Quotes>,
    /// Standing down until the next snapshot.
    pub halted: bool,
    pub halted_since: Option<i64>,
    pub halted_ms: int,
    pub requotes: int,
}

pub open spec fn in_i64(n: int) -> bool {
    i64::MIN <= n <= i64::MAX
}

/// The integer of the range of `i64` that is nearest to `n`.
pub open spec fn clamped(n: int) -> int {
    if n < i64::MIN {
        i64::MIN as int
    } else if n > i64::MAX {
        i64::MAX as int
    } else {
        n
    }
}

impl Desk {
    pub open spec fn start(cfg: Config) -> Desk {
        Desk {
            cfg,
            book: Levels::empty(),
            bid: None,
            ask: None,
            pending: Seq::empty(),
            account: Account::empty(),
            mids: Seq::empty(),
            last_decision: i64::MIN,
            live: None,
            halted: true,
            halted_since: None,
            halted_ms: 0,
            requotes: 0,
        }
    }

    pub open spec fn order(self, side: Side) -> Option<OwnOrder> {
        match side {
            Side::Bid => self.bid,
            Side::Ask => self.ask,
        }
    }

    pub open spec fn with_order(self, side: Side, order: Option<OwnOrder>) -> Desk {
        match side {
            Side::Bid => Desk { bid: order, ..self },
            Side::Ask => Desk { ask: order, ..self },
        }
    }

    /// Whether filling all of an order would keep the position within the limit.
    pub open spec fn has_room(self, side: Side, size: Qty) -> bool {
        match side {
            Side::Bid => self.account.position + size <= self.cfg.max_position,
            Side::Ask => self.account.position - size >= -self.cfg.max_position,
        }
    }

    /// The quotes without a side that would breach the inventory limit.
    pub open spec fn within_limit(self, wanted: Quotes) -> Quotes {
        Quotes {
            bid: if self.has_room(Side::Bid, wanted.size) {
                wanted.bid
            } else {
                None
            },
            ask: if self.has_room(Side::Ask, wanted.size) {
                wanted.ask
            } else {
                None
            },
            size: wanted.size,
        }
    }

    /// The order that a quote becomes on the book.
    pub open spec fn joining(self, side: Side, price: Option<Tick>, size: Qty) -> Option<
        OwnOrder,
    > {
        match price {
            Some(p) => Some(
                OwnOrder::joined(side, p, size, self.book.qty_at(side, p), self.cfg.model),
            ),
            None => None,
        }
    }

    /// Quotes reach the book, in place of what rested there. The position may
    /// have moved since they were sent, so the limit is looked at once more.
    pub open spec fn quoted(self, quotes: Quotes) -> Desk {
        let resting = self.within_limit(quotes);
        Desk {
            bid: self.joining(Side::Bid, resting.bid, resting.size),
            ask: self.joining(Side::Ask, resting.ask, resting.size),
            live: if self.live == Some(quotes) {
                Some(resting)
            } else {
                self.live
            },
            ..self
        }
    }

    /// Every quote in front that is due reaches the book.
    pub open spec fn caught_up(self, now: i64) -> Desk
        decreases self.pending.len(),
    {
        if self.pending.len() > 0 && self.pending[0].0 <= now {
            (Desk { pending: self.pending.drop_first(), ..self.quoted(self.pending[0].1) }).caught_up(
                now,
            )
        } else {
            self
        }
    }

    /// Nothing of ours is on the book or on its way there.
    pub open spec fn cancelled(self) -> Desk {
        Desk { bid: None, ask: None, pending: Seq::empty(), live: None, ..self }
    }

    /// A trade took from `side` of the book.
    pub open spec fn traded(self, ts: i64, price: Tick, size: Qty, side: Side) -> Option<Desk> {
        match self.order(side) {
            None => Some(self),
            Some(order) => {
                let filled = order.fill_of(price, size);
                let after = order.traded(price, size);
                if !order.bears(price, size) {
                    None
                } else if filled <= 0 {
                    Some(self.with_order(side, Some(after)))
                } else if !self.account.bears(side, filled as i64) {
                    None
                } else {
                    let price_usd = Double::of_int(order.price as int).times(self.cfg.tick_size);
                    let booked = Desk {
                        account: self.account.filled(
                            ts,
                            side,
                            price_usd,
                            filled as i64,
                            self.cfg.maker_fee,
                        ),
                        ..self
                    };
                    if after.left() == 0 {
                        Some(Desk { live: None, ..booked.with_order(side, None) })
                    } else {
                        Some(booked.with_order(side, Some(after)))
                    }
                }
            },
        }
    }

    /// One level changed.
    pub open spec fn level_set(self, side: Side, price: Tick, qty: Qty) -> Option<Desk> {
        let set = Desk { book: self.book.put(side, price, qty), ..self };
        match self.order(side) {
            Some(order) if order.price == price => if order.fits() {
                Some(
                    set.with_order(
                        side,
                        Some(order.requeued(self.book.qty_at(side, price), qty)),
                    ),
                )
            } else {
                None
            },
            _ => Some(set),
        }
    }

    /// Several levels of a side changed, in turn.
    pub open spec fn levels_set(self, side: Side, levels: Seq<(Tick, Qty)>) -> Option<Desk>
        decreases levels.len(),
    {
        if levels.len() == 0 {
            Some(self)
        } else {
            match self.levels_set(side, levels.drop_last()) {
                Some(desk) => desk.level_set(side, levels.last().0, levels.last().1),
                None => None,
            }
        }
    }

    /// A book update: the bids, then the asks.
    pub open spec fn updated(self, bids: Seq<(Tick, Qty)>, asks: Seq<(Tick, Qty)>) -> Option<
        Desk,
    > {
        match self.levels_set(Side::Bid, bids) {
            Some(desk) => desk.levels_set(Side::Ask, asks),
            None => None,
        }
    }

    /// The time spent standing down, counted up to `ts`.
    pub open spec fn counted(self, ts: i64) -> Option<Desk> {
        match self.halted_since {
            Some(since) => if in_i64(ts - since) && in_i64(self.halted_ms + (ts - since)) {
                Some(
                    Desk {
                        halted_since: None,
                        halted_ms: self.halted_ms + (ts - since),
                        ..self
                    },
                )
            } else {
                None
            },
            None => Some(self),
        }
    }

    /// The price at which a position is closed: the last known mid, or the price
    /// of the last fill where the book has no mid.
    pub open spec fn closing_price(self) -> Option<Double> {
        match self.mid() {
            Some(mid) => Some(mid),
            None => if self.account.fills.len() > 0 {
                Some(self.account.fills.last().price_usd)
            } else {
                None
            },
        }
    }

    /// The position is closed at once, at the closing price and without a fee.
    pub open spec fn flattened(self, ts: i64) -> Option<Desk> {
        let position = self.account.position;
        let (side, size) = if position > 0 {
            (Side::Ask, position)
        } else {
            (Side::Bid, -position)
        };
        if position == 0 {
            Some(self)
        } else {
            match self.closing_price() {
                Some(price) if in_i64(size) => Some(
                    Desk {
                        account: self.account.filled(
                            ts,
                            side,
                            price,
                            size as i64,
                            Double::of_int(0),
                        ),
                        ..self
                    },
                ),
                _ => None,
            }
        }
    }

    /// A feed gap: the book is unknown, so we flatten and stand down.
    pub open spec fn gapped(self, ts: i64) -> Option<Desk> {
        match self.flattened(ts) {
            Some(flat) => {
                let cleared = Desk { book: Levels::empty(), ..flat.cancelled() };
                if self.halted {
                    Some(cleared)
                } else {
                    Some(Desk { halted: true, halted_since: Some(ts), ..cleared })
                }
            },
            None => None,
        }
    }

    /// A snapshot: the book starts anew, and so do we.
    pub open spec fn resynced(
        self,
        ts: i64,
        bids: Seq<(Tick, Qty)>,
        asks: Seq<(Tick, Qty)>,
    ) -> Option<Desk> {
        match (Desk { book: Levels::empty(), ..self.cancelled() }).updated(bids, asks) {
            Some(desk) => match desk.counted(ts) {
                Some(counted) => Some(Desk { halted: false, ..counted }),
                None => None,
            },
            None => None,
        }
    }

    /// What an event does to the book and to our orders on it.
    pub open spec fn moved(self, event: EventView) -> Option<Desk> {
        let ts = event.time();
        match event {
            EventView::Gap { .. } => self.gapped(ts),
            EventView::Snapshot { bids, asks, .. } => self.resynced(ts, bids, asks),
            EventView::Change { bids, asks, .. } => self.updated(bids, asks),
            EventView::Trade { price, size, side, .. } => self.traded(ts, price, size, side),
            EventView::Quote { .. } => Some(self),
        }
    }

    /// The mid in USD.
    pub open spec fn mid(self) -> Option<Double> {
        match self.book.mid2() {
            Some(m) => Some(
                Double::of_int(m).times(self.cfg.tick_size).over(Double::of_int(2)),
            ),
            None => None,
        }
    }

    /// The mid is noted, once per timestamp.
    pub open spec fn noted(self, ts: i64) -> Desk {
        match self.mid() {
            Some(mid) if !(self.mids.len() > 0 && self.mids.last().0 == ts) => Desk {
                mids: self.mids.push((ts, mid)),
                ..self
            },
            _ => self,
        }
    }

    /// What an event does before the quoter is asked.
    pub open spec fn settled(self, event: EventView) -> Option<Desk> {
        match self.caught_up(event.time()).moved(event) {
            Some(desk) => Some(desk.noted(event.time())),
            None => None,
        }
    }

    /// Whether the quoter is asked at `ts`.
    pub open spec fn asks(self, ts: i64) -> bool {
        !self.halted && clamped(ts - self.last_decision) >= self.cfg.requote_ms
    }

    /// The quoter was asked at `ts` and gave `answer`.
    pub open spec fn decided(self, ts: i64, answer: Option<Quotes>) -> Option<Desk> {
        let asked = Desk { last_decision: ts, ..self };
        match answer {
            None => Some(asked),
            Some(wanted) => {
                let wanted = self.within_limit(wanted);
                if self.live == Some(wanted) {
                    Some(asked)
                } else if !in_i64(ts + self.cfg.latency_ms) || self.requotes >= u64::MAX {
                    None
                } else {
                    Some(
                        Desk {
                            live: Some(wanted),
                            requotes: self.requotes + 1,
                            pending: self.pending.push(
                                ((ts + self.cfg.latency_ms) as i64, wanted),
                            ),
                            ..asked
                        },
                    )
                }
            },
        }
    }

    /// One event, with what the quoter answers if it is asked.
    pub open spec fn step(self, event: EventView, answer: Option<Quotes>) -> Option<Desk> {
        match self.settled(event) {
            Some(desk) => if desk.asks(event.time()) {
                desk.decided(event.time(), answer)
            } else {
                Some(desk)
            },
            None => None,
        }
    }

    /// Events in turn, each with what the quoter answers if it is asked.
    pub open spec fn after(self, events: Seq<EventView>, answers: Seq<Option<Quotes>>) -> Option<
        Desk,
    >
        decreases events.len(),
    {
        if events.len() == 0 {
            Some(self)
        } else {
            match self.after(events.drop_last(), answers.drop_last()) {
                Some(desk) => desk.step(events.last(), answers.last()),
                None => None,
            }
        }
    }

    /// The end of the events.
    pub open spec fn closed(self, events: Seq<EventView>) -> Option<Desk> {
        if events.len() == 0 {
            Some(Desk { halted_since: None, ..self })
        } else {
            self.counted(events.last().time())
        }
    }

    /// A whole run.
    pub open spec fn run(self, events: Seq<EventView>, answers: Seq<Option<Quotes>>) -> Option<
        Desk,
    > {
        match self.after(events, answers) {
            Some(desk) => desk.closed(events),
            None => None,
        }
    }
}

/// What is hashed of some fills.
pub open spec fn fill_bytes(fills: Seq<Fill>) -> Seq<Seq<u8>>
    decreases fills.len(),
{
    if fills.len() == 0 {
        Seq::empty()
    } else {
        let f = fills.last();
        fill_bytes(fills.drop_last()).push(
            vstd::bytes::spec_u64_to_le_bytes(f.ts as u64),
        ).push(vstd::bytes::spec_u64_to_le_bytes(f.size_usd as u64)).push(
            vstd::bytes::spec_u64_to_le_bytes(f.price_usd.bits),
        ).push(
            seq![if f.side is Bid { 1u8 } else { 0u8 }],
        )
    }
}

} // verus!
