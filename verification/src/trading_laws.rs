//! What an event, a decision and a gap do to the simulator.
use vstd::prelude::*;

use crate::book::{Levels, Qty, Side, Tick};
use crate::desk::{Desk, Quotes};
use crate::double::Double;
use crate::event::EventView;
use crate::queue::OwnOrder;

verus! {

/// An event notes the mid of the book that it leaves, in USD and at its own time,
/// unless one was noted at that time before.
pub proof fn law_an_event_notes_the_mid_of_the_book_it_leaves(
    desk: Desk,
    event: EventView,
    answer: Option<Quotes>,
)
    ensures
        desk.step(event, answer) matches Some(after) ==> match crate::measure_laws::halfway(
            after.book,
            desk.cfg.tick_size,
        ) {
            Some(mid) => if desk.mids.len() > 0 && desk.mids.last().0 == event.time() {
                after.mids == desk.mids
            } else {
                after.mids == desk.mids.push((event.time(), mid))
            },
            None => after.mids == desk.mids,
        },
{
    let ts = event.time();
    let up = desk.caught_up(ts);
    crate::desk_laws::lemma_caught_up(desk, ts);
    match event {
        EventView::Snapshot { bids, asks, .. } => {
            let fresh = Desk { book: Levels::empty(), ..up.cancelled() };
            crate::desk_laws::lemma_updated(fresh, bids, asks);
        },
        EventView::Change { bids, asks, .. } => {
            crate::desk_laws::lemma_updated(up, bids, asks);
        },
        _ => {},
    }
    if let Some(moved) = up.moved(event) {
        assert(moved.mids == desk.mids);
        assert(moved.cfg == desk.cfg);
        assert(moved.mid() == crate::measure_laws::halfway(moved.book, desk.cfg.tick_size));
    }
}

/// A gap is closed without a fee, at the mid of the last book or, where that has
/// none, at the price of the last fill.
pub proof fn law_a_gap_is_closed_without_a_fee(
    desk: Desk,
    event: EventView,
    answer: Option<Quotes>,
)
    requires
        event is Gap,
        desk.account.position != 0,
    ensures
        desk.step(event, answer) matches Some(after) ==> {
            let fill = after.account.fills.last();
            &&& after.account.fills.len() == desk.account.fills.len() + 1
            &&& match crate::measure_laws::halfway(desk.book, desk.cfg.tick_size) {
                Some(mid) => fill.price_usd == mid,
                None => desk.account.fills.len() > 0 && fill.price_usd
                    == desk.account.fills.last().price_usd,
            }
            &&& crate::ledger::is_price(fill.price_usd) ==> fill.fee_btc == Double::of_int(0)
            &&& after.account.fees == desk.account.fees.plus(fill.fee_btc)
        },
{
    crate::desk_laws::lemma_caught_up(desk, event.time());
    crate::order::lemma_of_int(0);
    let up = desk.caught_up(event.time());
    assert(up.mid() == crate::measure_laws::halfway(desk.book, desk.cfg.tick_size));
    if let Some(after) = desk.step(event, answer) {
        let fill = after.account.fills.last();
        let size = Double::of_int(fill.size_usd as int);
        if crate::ledger::is_price(fill.price_usd) {
            crate::order::lemma_of_int(fill.size_usd as int);
            crate::order::lemma_times_commutes(Double::of_int(0), size);
            crate::order::lemma_times_zero(size);
            crate::order::lemma_zero_over(fill.price_usd);
        }
    }
}

/// What the quoter answers is sent at once and gets there after the latency, each
/// side only where filling all of it would keep the position within the limit.
/// Nothing is sent where the quoter has no answer, or where the answer is what was
/// sent last.
pub proof fn law_an_answer_is_sent_once(desk: Desk, ts: i64, answer: Option<Quotes>)
    ensures
        desk.decided(ts, answer) matches Some(after) ==> {
            &&& answer is None ==> after.pending == desk.pending && after.live == desk.live
                && after.requotes == desk.requotes
            &&& answer matches Some(wanted) ==> {
                let sent = Quotes {
                    bid: if desk.account.position + wanted.size <= desk.cfg.max_position {
                        wanted.bid
                    } else {
                        None
                    },
                    ask: if desk.account.position - wanted.size >= -desk.cfg.max_position {
                        wanted.ask
                    } else {
                        None
                    },
                    size: wanted.size,
                };
                &&& after.live == Some(sent)
                &&& desk.live == Some(sent) ==> after.pending == desk.pending && after.requotes
                    == desk.requotes
                &&& desk.live != Some(sent) ==> {
                    &&& after.pending.len() == desk.pending.len() + 1
                    &&& after.pending.drop_last() == desk.pending
                    &&& after.pending.last().0 == ts + desk.cfg.latency_ms
                    &&& after.pending.last().1 == sent
                    &&& after.requotes == desk.requotes + 1
                }
            }
            &&& after.account == desk.account
            &&& after.bid == desk.bid
            &&& after.ask == desk.ask
            &&& after.book == desk.book
        },
{
    if let Some(after) = desk.decided(ts, answer) {
        if after.pending.len() > desk.pending.len() {
            assert(after.pending.drop_last() =~= desk.pending);
        }
    }
}

/// A quote that reaches the book is an order on its own side, at its own price and
/// size, behind everything that the book shows there, and in place of what rested
/// there.
pub proof fn law_a_quote_that_is_due_rests_behind_the_level(
    desk: Desk,
    due: i64,
    quotes: Quotes,
    now: i64,
)
    requires
        desk.pending == seq![(due, quotes)],
        due <= now,
    ensures
        ({
            let after = desk.caught_up(now);
            let room_below = desk.account.position + quotes.size <= desk.cfg.max_position;
            let room_above = desk.account.position - quotes.size >= -desk.cfg.max_position;
            &&& after.pending.len() == 0
            &&& after.bid is Some <==> quotes.bid is Some && room_below
            &&& after.ask is Some <==> quotes.ask is Some && room_above
            &&& after.bid matches Some(order) ==> rests(
                order,
                desk,
                Side::Bid,
                quotes.bid->0,
                quotes,
            )
            &&& after.ask matches Some(order) ==> rests(
                order,
                desk,
                Side::Ask,
                quotes.ask->0,
                quotes,
            )
        }),
{
    reveal_with_fuel(Desk::caught_up, 2);
    assert(desk.pending.drop_first() =~= Seq::empty());
}

/// The order is a quote that has just reached the book of `desk`.
pub open spec fn rests(
    order: OwnOrder,
    desk: Desk,
    side: Side,
    price: Tick,
    quotes: Quotes,
) -> bool {
    &&& order.side == side
    &&& order.price == price
    &&& order.size == quotes.size
    &&& order.filled == 0
    &&& order.model == desk.cfg.model
    &&& order.queue_ahead == Double::of_int(desk.book.qty_at(side, price) as int)
}

/// A level that changes moves only our order on that side and at that price, by
/// what was visible there before and what is now.
pub proof fn law_a_level_moves_only_the_order_at_its_price(
    desk: Desk,
    side: Side,
    price: Tick,
    qty: Qty,
)
    ensures
        desk.level_set(side, price, qty) matches Some(after) ==> {
            &&& after.book == desk.book.put(side, price, qty)
            &&& after.order(side.other()) == desk.order(side.other())
            &&& desk.order(side) is None ==> after.order(side) is None
            &&& desk.order(side) matches Some(order) ==> after.order(side) == Some(
                if order.price == price {
                    order.requeued(desk.book.qty_at(side, price), qty)
                } else {
                    order
                },
            )
            &&& after.account == desk.account
        },
{
}

proof fn lemma_stays_down(desk: Desk, events: Seq<EventView>, answers: Seq<Option<Quotes>>)
    requires
        desk.halted,
        answers.len() == events.len(),
        crate::study_laws::without_snapshots(events),
    ensures
        desk.after(events, answers) matches Some(after) ==> {
            &&& after.halted
            &&& after.halted_since == desk.halted_since
            &&& after.halted_ms == desk.halted_ms
        },
    decreases events.len(),
{
    if events.len() > 0 {
        let rest = events.drop_last();
        let event = events.last();
        assert(!(events[events.len() - 1] is Snapshot));
        assert forall|i: int| 0 <= i < rest.len() implies !((#[trigger] rest[i]) is Snapshot) by {
            assert(rest[i] == events[i]);
        }
        lemma_stays_down(desk, rest, answers.drop_last());
        if let Some(before) = desk.after(rest, answers.drop_last()) {
            let up = before.caught_up(event.time());
            crate::desk_laws::lemma_caught_up(before, event.time());
            if let EventView::Change { bids, asks, .. } = event {
                crate::desk_laws::lemma_updated_halt(up, bids, asks);
            }
        }
    }
}

/// The time spent standing down is counted from the gap to the next snapshot,
/// whatever comes in between.
pub proof fn law_standing_down_is_counted_from_the_gap_to_the_snapshot(
    desk: Desk,
    gap: EventView,
    between: Seq<EventView>,
    snapshot: EventView,
    answers: Seq<Option<Quotes>>,
    one: Option<Quotes>,
    other: Option<Quotes>,
)
    requires
        !desk.halted,
        desk.halted_since is None,
        gap is Gap,
        crate::study_laws::without_snapshots(between),
        answers.len() == between.len(),
        snapshot is Snapshot,
    ensures
        desk.step(gap, one) matches Some(down) ==> down.after(between, answers) matches Some(
            still,
        ) ==> still.step(snapshot, other) matches Some(up) ==> {
            &&& down.halted
            &&& still.halted
            &&& !up.halted
            &&& up.halted_since is None
            &&& up.halted_ms == desk.halted_ms + (snapshot.time() - gap.time())
        },
{
    crate::desk_laws::lemma_caught_up(desk, gap.time());
    if let Some(down) = desk.step(gap, one) {
        assert(down.halted && down.halted_since == Some(gap.time()));
        assert(down.halted_ms == desk.halted_ms);
        lemma_stays_down(down, between, answers);
        if let Some(still) = down.after(between, answers) {
            crate::desk_laws::lemma_caught_up(still, snapshot.time());
            let at = still.caught_up(snapshot.time());
            if let EventView::Snapshot { bids, asks, .. } = snapshot {
                let fresh = Desk { book: Levels::empty(), ..at.cancelled() };
                crate::desk_laws::lemma_updated_halt(fresh, bids, asks);
            }
        }
    }
}

/// Once the quotes in front have reached the book, none that is due is left in front
/// of the others.
pub proof fn law_no_quote_that_is_due_stays_behind(desk: Desk, now: i64)
    ensures
        ({
            let after = desk.caught_up(now);
            &&& after.pending.len() > 0 ==> now < after.pending[0].0
            &&& (forall|i: int|
                0 <= i < desk.pending.len() ==> (#[trigger] desk.pending[i]).0 <= now)
                ==> after.pending.len() == 0
        }),
    decreases desk.pending.len(),
{
    if desk.pending.len() > 0 && desk.pending[0].0 <= now {
        let rest = desk.pending.drop_first();
        let next = Desk { pending: rest, ..desk.quoted(desk.pending[0].1) };
        law_no_quote_that_is_due_stays_behind(next, now);
        if forall|i: int| 0 <= i < desk.pending.len() ==> (#[trigger] desk.pending[i]).0 <= now {
            assert forall|i: int| 0 <= i < next.pending.len() implies (
            #[trigger] next.pending[i]).0 <= now by {
                assert(next.pending[i] == desk.pending[i + 1]);
            }
        }
    }
}

/// Of several quotes that are due, the one that was sent last rests on the book.
pub proof fn law_the_last_quote_that_is_due_rests(
    desk: Desk,
    earlier: Seq<(i64, Quotes)>,
    due: i64,
    quotes: Quotes,
    now: i64,
)
    requires
        desk.pending == earlier.push((due, quotes)),
        forall|i: int| 0 <= i < earlier.len() ==> (#[trigger] earlier[i]).0 <= now,
        due <= now,
    ensures
        ({
            let after = desk.caught_up(now);
            let room_below = desk.account.position + quotes.size <= desk.cfg.max_position;
            let room_above = desk.account.position - quotes.size >= -desk.cfg.max_position;
            &&& after.pending.len() == 0
            &&& after.bid is Some <==> quotes.bid is Some && room_below
            &&& after.ask is Some <==> quotes.ask is Some && room_above
            &&& after.bid matches Some(order) ==> rests(
                order,
                desk,
                Side::Bid,
                quotes.bid->0,
                quotes,
            )
            &&& after.ask matches Some(order) ==> rests(
                order,
                desk,
                Side::Ask,
                quotes.ask->0,
                quotes,
            )
        }),
    decreases earlier.len(),
{
    if earlier.len() == 0 {
        assert(desk.pending =~= seq![(due, quotes)]);
        law_a_quote_that_is_due_rests_behind_the_level(desk, due, quotes, now);
    } else {
        let rest = earlier.drop_first();
        let next = Desk {
            pending: desk.pending.drop_first(),
            ..desk.quoted(desk.pending[0].1)
        };
        assert(desk.pending[0] == earlier[0]);
        assert(next.pending =~= rest.push((due, quotes)));
        assert forall|i: int| 0 <= i < rest.len() implies (#[trigger] rest[i]).0 <= now by {
            assert(rest[i] == earlier[i + 1]);
        }
        law_the_last_quote_that_is_due_rests(next, rest, due, quotes, now);
    }
}

/// What was sent last is remembered as what has come to rest of it, so that a side
/// that the limit kept off the book is sent again once there is room for it.
pub proof fn law_what_was_sent_is_remembered_as_what_rests(
    desk: Desk,
    due: i64,
    quotes: Quotes,
    now: i64,
)
    requires
        desk.pending == seq![(due, quotes)],
        due <= now,
    ensures
        ({
            let after = desk.caught_up(now);
            &&& desk.live == Some(quotes) ==> {
                &&& after.live matches Some(live) && {
                    &&& live.size == quotes.size
                    &&& live.bid is Some <==> after.bid is Some
                    &&& live.ask is Some <==> after.ask is Some
                    &&& live.bid is Some ==> live.bid == quotes.bid
                    &&& live.ask is Some ==> live.ask == quotes.ask
                }
            }
            &&& desk.live != Some(quotes) ==> after.live == desk.live
        }),
{
    reveal_with_fuel(Desk::caught_up, 2);
    assert(desk.pending.drop_first() =~= Seq::empty());
}

/// A trade that takes part of an order leaves the rest of it in place: it is the same
/// order with as much less left as was filled. Once nothing is left the order is gone
/// and what was sent is forgotten, so that it is sent again.
pub proof fn law_what_is_not_filled_stays(
    desk: Desk,
    ts: i64,
    price: Tick,
    size: Qty,
    side: Side,
)
    requires
        desk.order(side) matches Some(order) && order.sound() && order.left() > 0,
        0 <= size,
        desk.pending.len() == 0,
    ensures
        desk.settled(EventView::Trade { ts, price, size, side }) matches Some(after) ==> {
            let order = desk.order(side)->0;
            let filled = if after.account.fills.len() > desk.account.fills.len() {
                after.account.fills.last().size_usd as int
            } else {
                0
            };
            &&& after.order(side.other()) == desk.order(side.other())
            &&& filled == order.left() ==> after.order(side) is None && after.live is None
            &&& filled < order.left() ==> after.live == desk.live && (after.order(
                side,
            ) matches Some(rest) && {
                &&& rest.left() == order.left() - filled
                &&& rest.side == order.side
                &&& rest.price == order.price
                &&& rest.size == order.size
                &&& rest.model == order.model
            })
        },
{
    let order = desk.order(side)->0;
    assert(desk.caught_up(ts) == desk);
    crate::queue::law_trades_keep_good_standing(order, price, size);
}

/// A snapshot takes everything of ours off the book and sets the book anew; what we
/// have stays as it is.
pub proof fn law_a_snapshot_starts_us_anew(desk: Desk, event: EventView)
    requires
        event is Snapshot,
    ensures
        desk.settled(event) matches Some(after) ==> {
            &&& after.bid is None
            &&& after.ask is None
            &&& after.pending.len() == 0
            &&& after.live is None
            &&& !after.halted
            &&& after.account == desk.account
            &&& after.book == Levels::empty().update(event->Snapshot_bids, event->Snapshot_asks)
        },
{
    let up = desk.caught_up(event.time());
    crate::desk_laws::lemma_caught_up(desk, event.time());
    crate::desk_laws::lemma_settled(desk, event);
    if let EventView::Snapshot { bids, asks, .. } = event {
        let fresh = Desk { book: Levels::empty(), ..up.cancelled() };
        lemma_live_kept(fresh, Side::Bid, bids);
        if let Some(between) = fresh.levels_set(Side::Bid, bids) {
            lemma_live_kept(between, Side::Ask, asks);
        }
    }
}

proof fn lemma_live_kept(desk: Desk, side: Side, levels: Seq<(Tick, Qty)>)
    ensures
        desk.levels_set(side, levels) matches Some(after) ==> after.live == desk.live,
    decreases levels.len(),
{
    if levels.len() > 0 {
        lemma_live_kept(desk, side, levels.drop_last());
    }
}

/// A run that ends while we stand down counts the time up to its last event, and a run
/// that does not ends with what was counted.
pub proof fn law_a_run_counts_to_its_last_event(
    desk: Desk,
    events: Seq<EventView>,
    answers: Seq<Option<Quotes>>,
)
    requires
        events.len() > 0,
    ensures
        desk.run(events, answers) matches Some(end) ==> desk.after(events, answers) matches Some(
            last,
        ) && {
            &&& end.halted_ms == last.halted_ms + match last.halted_since {
                Some(since) => events.last().time() - since,
                None => 0,
            }
            &&& end.account == last.account
            &&& end.mids == last.mids
            &&& end.requotes == last.requotes
        },
{
}

/// A simulator starts with nothing: no book, no orders, no position, no fees and no
/// fills, standing down without counting the time.
pub proof fn law_a_run_starts_with_nothing(cfg: crate::desk::Config)
    ensures
        ({
            let start = Desk::start(cfg);
            &&& start.cfg == cfg
            &&& start.book == Levels::empty()
            &&& start.bid is None
            &&& start.ask is None
            &&& start.pending.len() == 0
            &&& start.live is None
            &&& start.halted
            &&& start.halted_since is None
            &&& start.halted_ms == 0
            &&& start.requotes == 0
            &&& start.mids.len() == 0
            &&& start.account.position == 0
            &&& start.account.fills.len() == 0
            &&& start.account.cash == Double::of_int(0)
            &&& start.account.fees == Double::of_int(0)
        }),
{
}

} // verus!
