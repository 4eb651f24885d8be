//! What holds of the simulator whatever the events and the quoter.
use vstd::prelude::*;

use crate::book::{Levels, Qty, Side, Tick};
use crate::desk::{Desk, Quotes};
use crate::event::EventView;
use crate::ledger::{Account, Fill};
use crate::replay::Replay;

verus! {

impl Desk {
    /// Nothing of ours is on the book or on its way there.
    pub open spec fn idle(self) -> bool {
        self.bid is None && self.ask is None && self.pending.len() == 0
    }
}

pub proof fn lemma_caught_up(desk: Desk, now: i64)
    ensures
        ({
            let after = desk.caught_up(now);
            &&& after.cfg == desk.cfg
            &&& after.book == desk.book
            &&& after.account == desk.account
            &&& after.mids == desk.mids
            &&& after.halted == desk.halted
            &&& after.halted_since == desk.halted_since
            &&& after.halted_ms == desk.halted_ms
            &&& desk.idle() ==> after == desk
        }),
    decreases desk.pending.len(),
{
    if desk.pending.len() > 0 && desk.pending[0].0 <= now {
        lemma_caught_up(
            Desk { pending: desk.pending.drop_first(), ..desk.quoted(desk.pending[0].1) },
            now,
        );
    }
}

/// Setting levels changes the book as a replay does, and besides that only
/// where our orders stand in their queues.
proof fn lemma_levels_set(desk: Desk, side: Side, levels: Seq<(Tick, Qty)>)
    ensures
        desk.levels_set(side, levels) matches Some(after) ==> {
            &&& after.book.side(side) == crate::book::put_all(desk.book.side(side), levels)
            &&& after.book.side(side.other()) == desk.book.side(side.other())
            &&& after.cfg == desk.cfg
            &&& after.account == desk.account
            &&& after.mids == desk.mids
            &&& after.pending == desk.pending
            &&& after.halted == desk.halted
            &&& after.bid is None <==> desk.bid is None
            &&& after.ask is None <==> desk.ask is None
        },
    decreases levels.len(),
{
    if levels.len() > 0 {
        lemma_levels_set(desk, side, levels.drop_last());
    }
}

pub proof fn lemma_updated(desk: Desk, bids: Seq<(Tick, Qty)>, asks: Seq<(Tick, Qty)>)
    ensures
        desk.updated(bids, asks) matches Some(after) ==> {
            &&& after.cfg == desk.cfg
            &&& after.book == desk.book.update(bids, asks)
            &&& after.account == desk.account
            &&& after.mids == desk.mids
            &&& after.pending == desk.pending
            &&& after.halted == desk.halted
            &&& after.bid is None <==> desk.bid is None
            &&& after.ask is None <==> desk.ask is None
        },
{
    lemma_levels_set(desk, Side::Bid, bids);
    if let Some(between) = desk.levels_set(Side::Bid, bids) {
        lemma_levels_set(between, Side::Ask, asks);
    }
}

pub proof fn lemma_settled(desk: Desk, event: EventView)
    ensures
        desk.settled(event) matches Some(after) ==> {
            &&& after.book == (match event {
                EventView::Gap { .. } => Levels::empty(),
                EventView::Snapshot { bids, asks, .. } => Levels::empty().update(bids, asks),
                EventView::Change { bids, asks, .. } => desk.book.update(bids, asks),
                _ => desk.book,
            })
            &&& event !is Trade && event !is Gap ==> after.account == desk.account
            &&& event is Gap ==> after.idle() && after.halted && after.account.position == 0
            &&& event is Gap && desk.account.position == 0 ==> after.account == desk.account
            &&& event is Snapshot ==> after.idle() && !after.halted
            &&& event !is Gap && event !is Snapshot ==> after.halted == desk.halted
            &&& desk.idle() ==> after.idle()
            &&& desk.idle() && event !is Gap ==> after.account == desk.account
        },
{
    let ts = event.time();
    let up = desk.caught_up(ts);
    lemma_caught_up(desk, ts);
    match event {
        EventView::Snapshot { bids, asks, .. } => {
            lemma_updated(Desk { book: Levels::empty(), ..up.cancelled() }, bids, asks);
        },
        EventView::Change { bids, asks, .. } => {
            lemma_updated(up, bids, asks);
        },
        _ => {},
    }
}

/// A quote that was decided at one time does not touch the book before its
/// latency has passed.
pub proof fn law_a_quote_is_not_live_before_its_latency_has_passed(
    desk: Desk,
    ts: i64,
    answer: Option<Quotes>,
    now: i64,
)
    requires
        forall|i: int| 0 <= i < desk.pending.len() ==> now < (#[trigger] desk.pending[i]).0,
        now < ts + desk.cfg.latency_ms,
    ensures
        desk.decided(ts, answer) matches Some(after) ==> {
            &&& after.bid == desk.bid
            &&& after.ask == desk.ask
            &&& after.caught_up(now) == after
        },
{
    if let Some(after) = desk.decided(ts, answer) {
        if after.pending.len() > 0 {
            if desk.pending.len() > 0 {
                assert(after.pending[0] == desk.pending[0]);
            }
        }
    }
}

/// A quote whose latency has passed rests on the book, behind what is there,
/// unless the position has moved so far that filling it would breach the limit.
pub proof fn law_a_due_quote_joins_the_back_of_its_queue(
    desk: Desk,
    due: i64,
    quotes: Quotes,
    now: i64,
)
    requires
        desk.pending == seq![(due, quotes)],
        due <= now,
    ensures
        ({
            let after = desk.caught_up(now);
            &&& after.pending.len() == 0
            &&& after.bid == if desk.has_room(Side::Bid, quotes.size) {
                desk.joining(Side::Bid, quotes.bid, quotes.size)
            } else {
                None
            }
            &&& after.ask == if desk.has_room(Side::Ask, quotes.size) {
                desk.joining(Side::Ask, quotes.ask, quotes.size)
            } else {
                None
            }
        }),
{
    reveal_with_fuel(Desk::caught_up, 2);
    assert(desk.pending.drop_first() =~= Seq::empty());
}

/// A side that would breach the inventory limit if it were filled is not quoted.
pub proof fn law_the_inventory_limit_stops_quoting(desk: Desk, ts: i64, answer: Option<Quotes>)
    ensures
        desk.decided(ts, answer) matches Some(after) ==> after.pending.len()
            > desk.pending.len() ==> {
            let sent = after.pending.last().1;
            let position = desk.account.position;
            &&& position + sent.size > desk.cfg.max_position ==> sent.bid is None
            &&& position - sent.size < -desk.cfg.max_position ==> sent.ask is None
        },
{
}

/// A gap takes everything of ours off the book and closes the position, at the
/// last known mid where there is one. A position of nothing costs nothing to
/// close.
pub proof fn law_a_gap_flattens_and_stands_us_down(
    desk: Desk,
    event: EventView,
    answer: Option<Quotes>,
)
    requires
        event is Gap,
    ensures
        desk.step(event, answer) matches Some(after) ==> {
            &&& after.idle()
            &&& after.halted
            &&& after.account.position == 0
            &&& desk.account.position == 0 ==> after.account == desk.account
            &&& desk.account.position != 0 ==> {
                let fill = after.account.fills.last();
                &&& after.account.fills.drop_last() == desk.account.fills
                &&& fill.ts == event.time()
                &&& fill.size_usd == if desk.account.position > 0 {
                    desk.account.position
                } else {
                    -desk.account.position
                }
                &&& fill.side is Ask <==> desk.account.position > 0
                &&& desk.mid() matches Some(mid) ==> fill.price_usd == mid
            }
        },
{
    lemma_settled(desk, event);
    lemma_caught_up(desk, event.time());
    if let Some(after) = desk.step(event, answer) {
        if desk.account.position != 0 {
            assert(after.account.fills.drop_last() =~= desk.account.fills);
        }
    }
}

/// Until the next snapshot nothing is quoted and nothing is filled, whether we
/// stand down for a gap or have not started yet: the position is nothing then.
pub proof fn law_we_stay_down_until_the_next_snapshot(
    desk: Desk,
    events: Seq<EventView>,
    answers: Seq<Option<Quotes>>,
)
    requires
        desk.halted,
        desk.idle(),
        desk.account.position == 0,
        answers.len() == events.len(),
        forall|i: int| 0 <= i < events.len() ==> (#[trigger] events[i]) !is Snapshot,
    ensures
        desk.after(events, answers) matches Some(after) ==> {
            &&& after.halted
            &&& after.idle()
            &&& after.account == desk.account
        },
    decreases events.len(),
{
    if events.len() > 0 {
        let rest = events.drop_last();
        assert forall|i: int| 0 <= i < rest.len() implies (#[trigger] rest[i]) !is Snapshot by {
            assert(rest[i] == events[i]);
        }
        law_we_stay_down_until_the_next_snapshot(desk, rest, answers.drop_last());
        assert(events[events.len() - 1] !is Snapshot);
        if let Some(before) = desk.after(rest, answers.drop_last()) {
            lemma_settled(before, events.last());
        }
    }
}

/// The simulator's book is the book that a replay of the same events rebuilds.
pub proof fn law_the_book_is_the_replayed_book(
    desk: Desk,
    events: Seq<EventView>,
    answers: Seq<Option<Quotes>>,
)
    requires
        desk.book == Levels::empty(),
        answers.len() == events.len(),
    ensures
        desk.after(events, answers) matches Some(after) ==> after.book == Replay::of(
            events,
        ).levels,
    decreases events.len(),
{
    if events.len() > 0 {
        law_the_book_is_the_replayed_book(desk, events.drop_last(), answers.drop_last());
        if let Some(before) = desk.after(events.drop_last(), answers.drop_last()) {
            lemma_settled(before, events.last());
        }
    }
}

/// What was bought less what was sold.
pub open spec fn net(fills: Seq<Fill>) -> int
    decreases fills.len(),
{
    if fills.len() == 0 {
        0
    } else {
        net(fills.drop_last()) + crate::ledger::directed(
            fills.last().side,
            fills.last().size_usd as int,
        )
    }
}

/// The position is what was bought less what was sold.
pub open spec fn balanced(account: Account) -> bool {
    account.position == net(account.fills)
}

pub proof fn lemma_filled_balanced(desk: Desk, event: EventView)
    requires
        balanced(desk.account),
    ensures
        desk.settled(event) matches Some(after) ==> balanced(after.account),
{
    lemma_settled(desk, event);
    lemma_caught_up(desk, event.time());
    if let EventView::Trade { ts, price, size, side } = event {
        let up = desk.caught_up(ts);
        if let Some(order) = up.order(side) {
            let size = order.fill_of(price, size) as i64;
            let price_usd = crate::double::Double::of_int(order.price as int).times(
                up.cfg.tick_size,
            );
            let account = up.account.filled(ts, side, price_usd, size, up.cfg.maker_fee);
            assert(account.fills.drop_last() =~= up.account.fills);
        }
    }
    if let EventView::Gap { ts, .. } = event {
        let up = desk.caught_up(ts);
        if let Some(flat) = up.flattened(ts) {
            if up.account.position != 0 {
                assert(flat.account.fills.drop_last() =~= up.account.fills);
            }
        }
    }
}

/// The position is at all times what was bought less what was sold.
pub proof fn law_the_position_is_the_sum_of_the_fills(
    desk: Desk,
    events: Seq<EventView>,
    answers: Seq<Option<Quotes>>,
)
    requires
        balanced(desk.account),
        answers.len() == events.len(),
    ensures
        desk.after(events, answers) matches Some(after) ==> balanced(after.account),
        balanced(Account::empty()),
    decreases events.len(),
{
    if events.len() > 0 {
        law_the_position_is_the_sum_of_the_fills(desk, events.drop_last(), answers.drop_last());
        if let Some(before) = desk.after(events.drop_last(), answers.drop_last()) {
            lemma_filled_balanced(before, events.last());
        }
    }
}

/// In a run every position can be closed: there is a mid or a fill to take the
/// price from, so a gap ends a run only where the size is no quantity.
pub proof fn law_a_position_has_a_closing_price(
    cfg: crate::desk::Config,
    events: Seq<EventView>,
    answers: Seq<Option<Quotes>>,
    ts: i64,
)
    requires
        answers.len() == events.len(),
    ensures
        Desk::start(cfg).after(events, answers) matches Some(desk) ==> {
            &&& desk.account.position != 0 ==> desk.closing_price() is Some
            &&& desk.gapped(ts) is None ==> !crate::desk::in_i64(desk.account.position)
                || !crate::desk::in_i64(-desk.account.position)
        },
{
    law_the_position_is_the_sum_of_the_fills(Desk::start(cfg), events, answers);
}

/// Events that come in the order of their timestamps.
pub open spec fn in_time_order(events: Seq<EventView>) -> bool {
    forall|i: int, j: int|
        0 <= i <= j < events.len() ==> (#[trigger] events[i]).time() <= (
        #[trigger] events[j]).time()
}

/// Mids with one mid for each timestamp, in order.
pub open spec fn one_per_moment(mids: Seq<(i64, crate::double::Double)>) -> bool {
    forall|i: int, j: int|
        0 <= i < j < mids.len() ==> (#[trigger] mids[i]).0 < (#[trigger] mids[j]).0
}

proof fn lemma_settled_mids(desk: Desk, event: EventView)
    ensures
        desk.settled(event) matches Some(after) ==> {
            ||| after.mids == desk.mids
            ||| {
                &&& after.mids.drop_last() == desk.mids
                &&& after.mids.len() > 0
                &&& after.mids.last().0 == event.time()
                &&& desk.mids.len() > 0 ==> desk.mids.last().0 != event.time()
            }
        },
{
    let ts = event.time();
    let up = desk.caught_up(ts);
    lemma_caught_up(desk, ts);
    match event {
        EventView::Snapshot { bids, asks, .. } => {
            lemma_updated(Desk { book: Levels::empty(), ..up.cancelled() }, bids, asks);
        },
        EventView::Change { bids, asks, .. } => {
            lemma_updated(up, bids, asks);
        },
        _ => {},
    }
    if let Some(moved) = up.moved(event) {
        assert(moved.mids == desk.mids);
        if let Some(mid) = moved.mid() {
            assert(desk.mids.push((ts, mid)).drop_last() =~= desk.mids);
        }
    }
}

/// On an ordered timeline a run notes one mid for each moment, in order.
pub proof fn law_one_mid_is_noted_per_moment(
    cfg: crate::desk::Config,
    events: Seq<EventView>,
    answers: Seq<Option<Quotes>>,
)
    requires
        in_time_order(events),
        answers.len() == events.len(),
    ensures
        Desk::start(cfg).after(events, answers) matches Some(after) ==> {
            &&& one_per_moment(after.mids)
            &&& after.mids.len() > 0 ==> after.mids.last().0 <= events.last().time()
        },
    decreases events.len(),
{
    if events.len() > 0 {
        let rest = events.drop_last();
        assert forall|i: int, j: int| 0 <= i <= j < rest.len() implies (
        #[trigger] rest[i]).time() <= (#[trigger] rest[j]).time() by {
            assert(rest[i] == events[i] && rest[j] == events[j]);
        }
        law_one_mid_is_noted_per_moment(cfg, rest, answers.drop_last());
        if let Some(before) = Desk::start(cfg).after(rest, answers.drop_last()) {
            lemma_settled_mids(before, events.last());
            if rest.len() > 0 {
                assert(events[rest.len() - 1].time() <= events[rest.len() as int].time());
                assert(rest.last() == events[rest.len() - 1]);
            } else {
                assert(before.mids.len() == 0);
            }
            if let Some(after) = before.settled(events.last()) {
                assert forall|i: int, j: int| 0 <= i < j < after.mids.len() implies (
                #[trigger] after.mids[i]).0 < (#[trigger] after.mids[j]).0 by {
                    if after.mids != before.mids {
                        assert(after.mids.drop_last()[i] == after.mids[i]);
                        if j < after.mids.len() - 1 {
                            assert(after.mids.drop_last()[j] == after.mids[j]);
                        } else if before.mids.len() > 0 {
                            let last = before.mids.len() - 1;
                            assert(before.mids[i].0 <= before.mids[last].0);
                        }
                    }
                }
            }
        }
    }
}

impl Desk {
    /// Every level of the book holds something, every order of ours is in good
    /// standing, and no quote on its way asks for less than nothing.
    pub open spec fn sound(self) -> bool {
        &&& self.book.valid()
        &&& self.bid matches Some(order) ==> order.sound()
        &&& self.ask matches Some(order) ==> order.sound()
        &&& forall|i: int| 0 <= i < self.pending.len() ==> (#[trigger] self.pending[i]).1.size >= 0
    }
}

proof fn lemma_joining_sound(desk: Desk, side: Side, price: Option<Tick>, size: Qty)
    requires
        desk.book.valid(),
        size >= 0,
    ensures
        desk.joining(side, price, size) matches Some(order) ==> order.sound(),
{
    if let Some(p) = price {
        let qty = desk.book.qty_at(side, p);
        if desk.book.side(side).contains_key(p) {
            match side {
                Side::Bid => assert(desk.book.bids.contains_key(p)),
                Side::Ask => assert(desk.book.asks.contains_key(p)),
            }
        }
        crate::queue::law_an_order_joins_in_good_standing(side, p, size, qty, desk.cfg.model);
    }
}

proof fn lemma_caught_up_sound(desk: Desk, now: i64)
    requires
        desk.sound(),
    ensures
        desk.caught_up(now).sound(),
    decreases desk.pending.len(),
{
    if desk.pending.len() > 0 && desk.pending[0].0 <= now {
        let quotes = desk.pending[0].1;
        lemma_joining_sound(desk, Side::Bid, quotes.bid, quotes.size);
        lemma_joining_sound(desk, Side::Ask, quotes.ask, quotes.size);
        let rest = desk.pending.drop_first();
        assert forall|i: int| 0 <= i < rest.len() implies (#[trigger] rest[i]).1.size >= 0 by {
            assert(rest[i] == desk.pending[i + 1]);
        }
        lemma_caught_up_sound(Desk { pending: rest, ..desk.quoted(quotes) }, now);
    }
}

proof fn lemma_levels_set_sound(desk: Desk, side: Side, levels: Seq<(Tick, Qty)>)
    requires
        desk.sound(),
    ensures
        desk.levels_set(side, levels) matches Some(after) ==> after.sound(),
    decreases levels.len(),
{
    if levels.len() > 0 {
        lemma_levels_set_sound(desk, side, levels.drop_last());
        if let Some(before) = desk.levels_set(side, levels.drop_last()) {
            let (price, qty) = levels.last();
            let one = seq![(price, qty)];
            let none = Seq::<(Tick, Qty)>::empty();
            assert(one.drop_last() =~= none);
            reveal_with_fuel(crate::book::put_all, 2);
            match side {
                Side::Bid => {
                    crate::book::law_updates_keep_a_book_valid(before.book, one, none);
                    assert(before.book.put(side, price, qty) =~= before.book.update(one, none));
                },
                Side::Ask => {
                    crate::book::law_updates_keep_a_book_valid(before.book, none, one);
                    assert(before.book.put(side, price, qty) =~= before.book.update(none, one));
                },
            }
            if let Some(order) = before.order(side) {
                crate::queue::law_level_changes_keep_good_standing(
                    order,
                    before.book.qty_at(side, price),
                    qty,
                );
            }
        }
    }
}

proof fn lemma_settled_sound(desk: Desk, event: EventView)
    requires
        desk.sound(),
        event matches EventView::Trade { size, .. } ==> size >= 0,
    ensures
        desk.settled(event) matches Some(after) ==> after.sound(),
{
    let ts = event.time();
    let up = desk.caught_up(ts);
    lemma_caught_up_sound(desk, ts);
    crate::book::law_updates_keep_a_book_valid(up.book, Seq::empty(), Seq::empty());
    match event {
        EventView::Snapshot { bids, asks, .. } => {
            let fresh = Desk { book: Levels::empty(), ..up.cancelled() };
            lemma_levels_set_sound(fresh, Side::Bid, bids);
            if let Some(between) = fresh.levels_set(Side::Bid, bids) {
                lemma_levels_set_sound(between, Side::Ask, asks);
            }
        },
        EventView::Change { bids, asks, .. } => {
            lemma_levels_set_sound(up, Side::Bid, bids);
            if let Some(between) = up.levels_set(Side::Bid, bids) {
                lemma_levels_set_sound(between, Side::Ask, asks);
            }
        },
        EventView::Trade { price, size, side, .. } => {
            if let Some(order) = up.order(side) {
                crate::queue::law_trades_keep_good_standing(order, price, size);
            }
        },
        _ => {},
    }
}

/// As long as no trade and no quote has a negative size, no order is ever
/// overfilled and no queue ahead of us runs past zero.
pub proof fn law_orders_stay_in_good_standing(
    desk: Desk,
    events: Seq<EventView>,
    answers: Seq<Option<Quotes>>,
)
    requires
        desk.sound(),
        answers.len() == events.len(),
        forall|i: int|
            0 <= i < events.len() ==> ((#[trigger] events[i]) matches EventView::Trade {
                size,
                ..
            } ==> size >= 0),
        forall|i: int|
            0 <= i < answers.len() ==> ((#[trigger] answers[i]) matches Some(quotes)
                ==> quotes.size >= 0),
    ensures
        desk.after(events, answers) matches Some(after) ==> after.sound(),
    decreases events.len(),
{
    if events.len() > 0 {
        let rest = events.drop_last();
        let given = answers.drop_last();
        assert forall|i: int| 0 <= i < rest.len() implies ((
        #[trigger] rest[i]) matches EventView::Trade { size, .. } ==> size >= 0) by {
            assert(rest[i] == events[i]);
        }
        assert forall|i: int| 0 <= i < given.len() implies ((
        #[trigger] given[i]) matches Some(quotes) ==> quotes.size >= 0) by {
            assert(given[i] == answers[i]);
        }
        law_orders_stay_in_good_standing(desk, rest, given);
        assert(events[events.len() - 1] == events.last());
        assert(answers[answers.len() - 1] == answers.last());
        if let Some(before) = desk.after(rest, given) {
            lemma_settled_sound(before, events.last());
        }
    }
}

impl Desk {
    /// The position is within the limit, and stays there if an order of ours is
    /// filled.
    pub open spec fn limited(self) -> bool {
        let limit = self.cfg.max_position;
        let position = self.account.position;
        &&& -limit <= position <= limit
        &&& self.bid matches Some(order) ==> position + order.left() <= limit
        &&& self.ask matches Some(order) ==> position - order.left() >= -limit
    }
}

proof fn lemma_caught_up_limited(desk: Desk, now: i64)
    requires
        desk.limited(),
    ensures
        desk.caught_up(now).limited(),
    decreases desk.pending.len(),
{
    if desk.pending.len() > 0 && desk.pending[0].0 <= now {
        lemma_caught_up_limited(
            Desk { pending: desk.pending.drop_first(), ..desk.quoted(desk.pending[0].1) },
            now,
        );
    }
}

proof fn lemma_levels_set_limited(desk: Desk, side: Side, levels: Seq<(Tick, Qty)>)
    requires
        desk.limited(),
    ensures
        desk.levels_set(side, levels) matches Some(after) ==> after.limited() && after.cfg
            == desk.cfg,
    decreases levels.len(),
{
    if levels.len() > 0 {
        lemma_levels_set_limited(desk, side, levels.drop_last());
    }
}

proof fn lemma_updated_limited(desk: Desk, bids: Seq<(Tick, Qty)>, asks: Seq<(Tick, Qty)>)
    requires
        desk.limited(),
    ensures
        desk.updated(bids, asks) matches Some(after) ==> after.limited() && after.cfg == desk.cfg,
{
    lemma_levels_set_limited(desk, Side::Bid, bids);
    if let Some(between) = desk.levels_set(Side::Bid, bids) {
        lemma_levels_set_limited(between, Side::Ask, asks);
    }
}

proof fn lemma_settled_limited(desk: Desk, event: EventView)
    requires
        desk.sound(),
        desk.limited(),
        event matches EventView::Trade { size, .. } ==> size >= 0,
    ensures
        desk.settled(event) matches Some(after) ==> after.limited() && after.cfg == desk.cfg,
{
    let ts = event.time();
    let up = desk.caught_up(ts);
    lemma_caught_up(desk, ts);
    lemma_caught_up_sound(desk, ts);
    lemma_caught_up_limited(desk, ts);
    match event {
        EventView::Snapshot { bids, asks, .. } => {
            lemma_updated_limited(Desk { book: Levels::empty(), ..up.cancelled() }, bids, asks);
        },
        EventView::Change { bids, asks, .. } => {
            lemma_updated_limited(up, bids, asks);
        },
        EventView::Trade { price, size, side, .. } => {
            if let Some(order) = up.order(side) {
                crate::queue::law_trades_keep_good_standing(order, price, size);
            }
        },
        _ => {},
    }
}

/// The position never leaves the inventory limit, as long as no trade and no
/// quote has a negative size.
pub proof fn law_the_position_stays_within_the_limit(
    cfg: crate::desk::Config,
    events: Seq<EventView>,
    answers: Seq<Option<Quotes>>,
)
    requires
        cfg.max_position >= 0,
        answers.len() == events.len(),
        forall|i: int|
            0 <= i < events.len() ==> ((#[trigger] events[i]) matches EventView::Trade {
                size,
                ..
            } ==> size >= 0),
        forall|i: int|
            0 <= i < answers.len() ==> ((#[trigger] answers[i]) matches Some(quotes)
                ==> quotes.size >= 0),
    ensures
        Desk::start(cfg).after(events, answers) matches Some(after) ==> {
            &&& after.limited()
            &&& -cfg.max_position <= after.account.position <= cfg.max_position
        },
{
    law_a_run_starts_in_good_standing(cfg);
    lemma_limited(Desk::start(cfg), events, answers);
}

proof fn lemma_limited(desk: Desk, events: Seq<EventView>, answers: Seq<Option<Quotes>>)
    requires
        desk.sound(),
        desk.limited(),
        answers.len() == events.len(),
        forall|i: int|
            0 <= i < events.len() ==> ((#[trigger] events[i]) matches EventView::Trade {
                size,
                ..
            } ==> size >= 0),
        forall|i: int|
            0 <= i < answers.len() ==> ((#[trigger] answers[i]) matches Some(quotes)
                ==> quotes.size >= 0),
    ensures
        desk.after(events, answers) matches Some(after) ==> after.limited() && after.cfg
            == desk.cfg,
    decreases events.len(),
{
    if events.len() > 0 {
        let rest = events.drop_last();
        let given = answers.drop_last();
        assert forall|i: int| 0 <= i < rest.len() implies ((
        #[trigger] rest[i]) matches EventView::Trade { size, .. } ==> size >= 0) by {
            assert(rest[i] == events[i]);
        }
        assert forall|i: int| 0 <= i < given.len() implies ((
        #[trigger] given[i]) matches Some(quotes) ==> quotes.size >= 0) by {
            assert(given[i] == answers[i]);
        }
        lemma_limited(desk, rest, given);
        law_orders_stay_in_good_standing(desk, rest, given);
        assert(events[events.len() - 1] == events.last());
        if let Some(before) = desk.after(rest, given) {
            lemma_settled_limited(before, events.last());
        }
    }
}

/// A new simulator is in good standing.
pub proof fn law_a_run_starts_in_good_standing(cfg: crate::desk::Config)
    ensures
        Desk::start(cfg).sound(),
        Desk::start(cfg).idle(),
        Desk::start(cfg).halted,
{
    crate::book::law_updates_keep_a_book_valid(Levels::empty(), Seq::empty(), Seq::empty());
}

/// The same events and the same answers give the same fills, down to their
/// hash.
pub proof fn law_the_same_input_gives_the_same_fills(
    start: Desk,
    events: Seq<EventView>,
    answers: Seq<Option<Quotes>>,
    first: crate::engine::Report,
    second: crate::engine::Report,
)
    requires
        match start.run(events, answers) {
            Some(desk) => first.tells(desk) && second.tells(desk),
            None => false,
        },
    ensures
        first.ledger@ == second.ledger@,
        first.fill_hash == second.fill_hash,
        first.requotes == second.requotes,
        first.halted_ms == second.halted_ms,
{
}

/// Decisions keep their distance: the quoter is asked only once the requote
/// time has passed since it was last asked, and being asked starts that time
/// anew.
pub proof fn law_decisions_keep_their_distance(desk: Desk, ts: i64, answer: Option<Quotes>)
    requires
        crate::desk::in_i64(ts - desk.last_decision),
    ensures
        desk.asks(ts) <==> !desk.halted && ts >= desk.last_decision + desk.cfg.requote_ms,
        desk.decided(ts, answer) matches Some(after) ==> after.last_decision == ts,
{
}

proof fn lemma_settled_halt(desk: Desk, event: EventView)
    requires
        desk.halted_since is Some ==> desk.halted,
    ensures
        desk.settled(event) matches Some(after) ==> after.halted_since is Some ==> after.halted,
        desk.settled(event) matches Some(after) ==> {
            ||| after.halted_since == desk.halted_since && after.halted_ms == desk.halted_ms
            ||| {
                &&& desk.halted_since is None
                &&& after.halted_since == Some(event.time())
                &&& after.halted_ms == desk.halted_ms
            }
            ||| {
                &&& desk.halted_since is Some
                &&& after.halted_since is None
                &&& after.halted_ms == desk.halted_ms + (event.time() - desk.halted_since->0)
            }
        },
{
    let ts = event.time();
    let up = desk.caught_up(ts);
    lemma_caught_up(desk, ts);
    match event {
        EventView::Snapshot { bids, asks, .. } => {
            let fresh = Desk { book: Levels::empty(), ..up.cancelled() };
            lemma_updated_halt(fresh, bids, asks);
        },
        EventView::Change { bids, asks, .. } => {
            lemma_updated_halt(up, bids, asks);
        },
        _ => {},
    }
}

pub proof fn lemma_updated_halt(desk: Desk, bids: Seq<(Tick, Qty)>, asks: Seq<(Tick, Qty)>)
    ensures
        desk.updated(bids, asks) matches Some(after) ==> after.halted_since == desk.halted_since
            && after.halted_ms == desk.halted_ms && after.halted == desk.halted,
{
    lemma_levels_set_halt(desk, Side::Bid, bids);
    if let Some(between) = desk.levels_set(Side::Bid, bids) {
        lemma_levels_set_halt(between, Side::Ask, asks);
    }
}

proof fn lemma_levels_set_halt(desk: Desk, side: Side, levels: Seq<(Tick, Qty)>)
    ensures
        desk.levels_set(side, levels) matches Some(after) ==> after.halted_since
            == desk.halted_since && after.halted_ms == desk.halted_ms && after.halted
            == desk.halted,
    decreases levels.len(),
{
    if levels.len() > 0 {
        lemma_levels_set_halt(desk, side, levels.drop_last());
    }
}

/// On an ordered timeline the time spent standing down is time that passed
/// between the first event and the last.
pub proof fn law_the_time_halted_has_passed(
    cfg: crate::desk::Config,
    events: Seq<EventView>,
    answers: Seq<Option<Quotes>>,
)
    requires
        in_time_order(events),
        answers.len() == events.len(),
        events.len() > 0,
    ensures
        Desk::start(cfg).run(events, answers) matches Some(end) ==> 0 <= end.halted_ms
            <= events.last().time() - events[0].time(),
{
    lemma_halt_so_far(cfg, events, answers);
}

proof fn lemma_halt_so_far(
    cfg: crate::desk::Config,
    events: Seq<EventView>,
    answers: Seq<Option<Quotes>>,
)
    requires
        in_time_order(events),
        answers.len() == events.len(),
    ensures
        Desk::start(cfg).after(events, answers) matches Some(desk) ==> {
            &&& 0 <= desk.halted_ms
            &&& desk.halted_since is Some ==> desk.halted
            &&& events.len() == 0 ==> desk.halted_since is None && desk.halted_ms == 0
            &&& events.len() > 0 ==> match desk.halted_since {
                Some(since) => events[0].time() <= since <= events.last().time()
                    && desk.halted_ms <= since - events[0].time(),
                None => desk.halted_ms <= events.last().time() - events[0].time(),
            }
        },
    decreases events.len(),
{
    if events.len() > 0 {
        let rest = events.drop_last();
        assert forall|i: int, j: int| 0 <= i <= j < rest.len() implies (
        #[trigger] rest[i]).time() <= (#[trigger] rest[j]).time() by {
            assert(rest[i] == events[i] && rest[j] == events[j]);
        }
        lemma_halt_so_far(cfg, rest, answers.drop_last());
        assert(events[0].time() <= events[events.len() - 1].time());
        if rest.len() > 0 {
            assert(rest[0] == events[0]);
            assert(rest.last() == events[rest.len() - 1]);
            assert(events[rest.len() - 1].time() <= events[events.len() - 1].time());
        }
        if let Some(before) = Desk::start(cfg).after(rest, answers.drop_last()) {
            lemma_settled_halt(before, events.last());
        }
    }
}

} // verus!
