//! What the recorded messages say, event by event.
use vstd::arithmetic::power2::*;
use vstd::prelude::*;

use crate::book::{Qty, Side, Tick};
use crate::double::Double;
use crate::event::{Event, EventView, Instrument};
use crate::messages::{BookEntry, BookMsg, Channel, Notification, Payload, QuoteMsg, TradeMsg};
use crate::replay::{Replay, ReplayStats};
use crate::rounding::BINADE;

verus! {

/// A price of `n` whole ticks is at tick `n`, and tick `n` is at that price.
pub proof fn law_a_price_of_whole_ticks_is_at_its_tick(
    inst: Instrument,
    price: Double,
    tick: int,
    n: int,
)
    requires
        inst.tick_size.is_int(tick),
        1 <= tick <= 2 * BINADE,
        -(2 * BINADE) <= n <= 2 * BINADE,
        -(2 * BINADE) <= n * tick <= 2 * BINADE,
        price.is_int(n * tick),
    ensures
        inst.ticks(price) == n,
        inst.price(n as i64).is_int(n * tick),
{
    crate::whole::lemma_over_of_ints(price, inst.tick_size, n, tick);
    crate::whole::lemma_round_of_int(price.over(inst.tick_size), n);
    crate::order::lemma_of_int_exact(n);
    crate::whole::lemma_times_of_ints(Double::of_int(n), inst.tick_size, n, tick);
}

/// A quantity is the integer nearest to the amount: it is off by half at most,
/// and half an integer goes away from zero.
pub proof fn law_a_quantity_is_the_nearest_integer(amount: Double)
    requires
        amount.is_finite(),
        -0x4000_0000_0000_0000 * pow2(1074) <= amount.value() <= 0x4000_0000_0000_0000 * pow2(
            1074,
        ),
    ensures
        ({
            let unit = pow2(1074) as int;
            let off = amount.value() - crate::event::rounded_i64(amount) * unit;
            &&& -unit <= 2 * off <= unit
            &&& 2 * off == unit ==> amount.value() < 0
            &&& 2 * off == -unit ==> amount.value() > 0
        }),
{
    let unit = pow2(1074) as int;
    lemma_pow2_pos(1074);
    let size = amount.size() as int;
    let x = 2 * size + unit;
    let n = x / (2 * unit);
    vstd::arithmetic::div_mod::lemma_fundamental_div_mod(x, 2 * unit);
    vstd::arithmetic::div_mod::lemma_mod_bound(x, 2 * unit);
    assert((2 * unit) * n == 2 * (n * unit)) by (nonlinear_arith);
    assert(0 <= n <= 0x4000_0000_0000_0000) by (nonlinear_arith)
        requires
            2 * (n * unit) <= 2 * size + unit,
            2 * size + unit < 2 * (n * unit) + 2 * unit,
            0 <= size <= 0x4000_0000_0000_0000 * unit,
            unit > 0,
    ;
    assert((-n) * unit == -(n * unit)) by (nonlinear_arith);
    let r = crate::event::rounded_i64(amount) as int;
    let nat_n = (2 * amount.size() + pow2(1074)) / (2 * pow2(1074));
    assert(nat_n == n);
    assert(r == if amount.is_neg() {
        -n
    } else {
        n
    });
    assert(amount.value() == if amount.is_neg() {
        -size
    } else {
        size
    });
    assert(2 * (size - n * unit) == x % (2 * unit) - unit);
    assert(r * unit == if amount.is_neg() {
        -(n * unit)
    } else {
        n * unit
    });
    if size == 0 {
        vstd::arithmetic::div_mod::lemma_small_mod(unit as nat, (2 * unit) as nat);
    }
}

/// A taker who buys takes from the asks; any other takes from the bids.
pub proof fn law_a_buyer_takes_from_the_asks(direction: Seq<char>)
    ensures
        direction == "buy"@ ==> crate::event::consumed_side(direction) == Side::Ask,
        direction == "sell"@ ==> crate::event::consumed_side(direction) == Side::Bid,
{
    reveal_strlit("buy");
    reveal_strlit("sell");
    assert("buy"@.len() != "sell"@.len());
}

/// A trade message is a trade at its own time, price and amount, on the side that
/// the taker took from.
pub proof fn law_a_trade_is_what_its_message_says(
    t: TradeMsg,
    inst: Instrument,
    tick: int,
    n: int,
    amount: int,
)
    requires
        inst.tick_size.is_int(tick),
        1 <= tick <= 2 * BINADE,
        -(2 * BINADE) <= n <= 2 * BINADE,
        -(2 * BINADE) <= n * tick <= 2 * BINADE,
        -(2 * BINADE) <= amount <= 2 * BINADE,
        t.price.is_int(n * tick),
        t.amount.is_int(amount),
    ensures
        crate::replay::trade_event(t, inst) == (EventView::Trade {
            ts: t.timestamp,
            price: n as Tick,
            size: amount as Qty,
            side: if t.direction@ == "buy"@ {
                Side::Ask
            } else {
                Side::Bid
            },
        }),
{
    law_a_price_of_whole_ticks_is_at_its_tick(inst, t.price, tick, n);
    crate::whole::lemma_round_of_int(t.amount, amount);
}

/// A quote message quotes its bid as the bid and its ask as the ask, and a side
/// without a price has none.
pub proof fn law_a_quote_is_what_its_message_says(
    q: QuoteMsg,
    inst: Instrument,
    tick: int,
    bid: int,
    ask: int,
)
    requires
        inst.tick_size.is_int(tick),
        1 <= tick <= 2 * BINADE,
        -(2 * BINADE) <= bid <= 2 * BINADE,
        -(2 * BINADE) <= bid * tick <= 2 * BINADE,
        -(2 * BINADE) <= ask <= 2 * BINADE,
        -(2 * BINADE) <= ask * tick <= 2 * BINADE,
        q.best_bid_price matches Some(p) ==> p.is_int(bid * tick),
        q.best_ask_price matches Some(p) ==> p.is_int(ask * tick),
    ensures
        crate::replay::quote_event(q, inst) matches EventView::Quote { ts, bid: b, ask: a } && {
            &&& ts == q.timestamp
            &&& b is Some <==> q.best_bid_price is Some
            &&& a is Some <==> q.best_ask_price is Some
            &&& b matches Some(level) ==> level.0 == bid && level.1 == crate::event::rounded_i64(
                q.best_bid_amount,
            )
            &&& a matches Some(level) ==> level.0 == ask && level.1 == crate::event::rounded_i64(
                q.best_ask_amount,
            )
        },
{
    if let Some(p) = q.best_bid_price {
        law_a_price_of_whole_ticks_is_at_its_tick(inst, p, tick, bid);
    }
    if let Some(p) = q.best_ask_price {
        law_a_price_of_whole_ticks_is_at_its_tick(inst, p, tick, ask);
    }
}

/// An entry sets the level at its tick to its amount, and a deletion to nothing.
pub proof fn law_an_entry_sets_the_level_at_its_tick(
    entry: BookEntry,
    inst: Instrument,
    tick: int,
    n: int,
    amount: int,
)
    requires
        inst.tick_size.is_int(tick),
        1 <= tick <= 2 * BINADE,
        -(2 * BINADE) <= n <= 2 * BINADE,
        -(2 * BINADE) <= n * tick <= 2 * BINADE,
        -(2 * BINADE) <= amount <= 2 * BINADE,
        entry.1.is_int(n * tick),
        entry.2.is_int(amount),
    ensures
        crate::replay::entry_level(entry, inst).0 == n,
        crate::replay::entry_level(entry, inst).1 == if entry.0@ == "delete"@ {
            0
        } else {
            amount
        },
{
    law_a_price_of_whole_ticks_is_at_its_tick(inst, entry.1, tick, n);
    crate::whole::lemma_round_of_int(entry.2, amount);
}

/// A book message is one update at its own time, with its bids as bids and its
/// asks as asks: a snapshot where it says so, a change otherwise. A gap stands
/// before it exactly where it names a predecessor that is not the last message,
/// at the same time.
pub proof fn law_a_book_message_is_one_update(msg: BookMsg, last: Option<u64>, inst: Instrument)
    ensures
        ({
            let events = crate::replay::book_events(msg, last, inst);
            let missed = last is Some && msg.prev_change_id is Some && last != msg.prev_change_id;
            let bids = Seq::new(
                msg.bids@.len(),
                |i: int| crate::replay::entry_level(msg.bids@[i], inst),
            );
            let asks = Seq::new(
                msg.asks@.len(),
                |i: int| crate::replay::entry_level(msg.asks@[i], inst),
            );
            &&& events.len() == if missed {
                2int
            } else {
                1
            }
            &&& msg.kind@ == "snapshot"@ ==> events.last() == (EventView::Snapshot {
                ts: msg.timestamp,
                bids,
                asks,
            })
            &&& msg.kind@ != "snapshot"@ ==> events.last() == (EventView::Change {
                ts: msg.timestamp,
                bids,
                asks,
            })
            &&& missed ==> events[0] == (EventView::Gap {
                ts: msg.timestamp,
                missing_from: last->0,
                missing_to: msg.prev_change_id->0,
            })
        }),
{
    assert(crate::replay::entry_levels(msg.bids@, inst) =~= Seq::new(
        msg.bids@.len(),
        |i: int| crate::replay::entry_level(msg.bids@[i], inst),
    ));
    assert(crate::replay::entry_levels(msg.asks@, inst) =~= Seq::new(
        msg.asks@.len(),
        |i: int| crate::replay::entry_level(msg.asks@[i], inst),
    ));
}

/// A line on the trades channel gives one event per trade, in the order of the
/// message, whatever came before it.
pub proof fn law_each_trade_of_a_line_is_one_event(
    note: Notification,
    trades: Vec<TradeMsg>,
    last: Option<u64>,
    inst: Instrument,
)
    requires
        crate::messages::carried(note.params.channel@) == Channel::Trades,
        note.params.data == Payload::Trades(trades),
    ensures
        ({
            let events = crate::replay::line_events(Some(note), last, inst);
            &&& events.len() == trades@.len()
            &&& forall|i: int|
                0 <= i < trades@.len() ==> #[trigger] events[i] == crate::replay::trade_event(
                    trades@[i],
                    inst,
                )
        }),
        crate::replay::last_change(Some(note), last) == last,
{
}

/// At one moment trades stand before what changes the book, and that stands before
/// quotes: the trade is what changed the book, and the quote tells of it.
pub proof fn law_trades_come_before_the_book_and_quotes_after(
    events: Seq<Event>,
    i: int,
    j: int,
)
    requires
        crate::sort::in_order(events),
        0 <= i < j < events.len(),
        events[i]@.time() == events[j]@.time(),
    ensures
        events[j]@ is Trade ==> events[i]@ is Trade,
        events[i]@ is Quote ==> events[j]@ is Quote,
{
    crate::replay::law_the_timeline_is_ordered(events, i, j);
}

/// A quote is compared once the book is synced, and it disagrees exactly where one
/// of its two prices is not the best price of the rebuilt book.
pub proof fn law_a_quote_disagrees_where_a_price_differs(
    events: Seq<EventView>,
    ts: i64,
    bid: Option<(Tick, Qty)>,
    ask: Option<(Tick, Qty)>,
)
    ensures
        ({
            let before = Replay::of(events);
            let after = Replay::of(events.push(EventView::Quote { ts, bid, ask }));
            let same_bid = match (before.levels.best_bid(), bid) {
                (Some(ours), Some(theirs)) => ours.0 == theirs.0,
                (None, None) => true,
                _ => false,
            };
            let same_ask = match (before.levels.best_ask(), ask) {
                (Some(ours), Some(theirs)) => ours.0 == theirs.0,
                (None, None) => true,
                _ => false,
            };
            &&& after.checked - before.checked == if before.synced {
                1int
            } else {
                0
            }
            &&& after.mismatched - before.mismatched == if before.synced && !(same_bid
                && same_ask) {
                1int
            } else {
                0
            }
            &&& after.gaps == before.gaps
            &&& after.levels == before.levels
            &&& after.synced == before.synced
        }),
{
    let e = EventView::Quote { ts, bid, ask };
    assert(events.push(e).drop_last() =~= events);
}

/// A gap empties the book and loses the sync, a snapshot restores both, and what
/// is no quote is never compared.
pub proof fn law_a_gap_loses_the_sync_until_a_snapshot(events: Seq<EventView>, e: EventView)
    requires
        e !is Quote,
    ensures
        ({
            let before = Replay::of(events);
            let after = Replay::of(events.push(e));
            &&& after.checked == before.checked
            &&& after.mismatched == before.mismatched
            &&& after.gaps - before.gaps == if e is Gap {
                1int
            } else {
                0
            }
            &&& after.synced == (e is Snapshot || (before.synced && e !is Gap))
            &&& e is Trade ==> after.levels == before.levels
            &&& e is Gap ==> after.levels == crate::book::Levels::empty()
        }),
{
    assert(events.push(e).drop_last() =~= events);
}

/// The mismatch rate is a ratio: with as many times the mismatches among as many
/// times the quotes it is the same, it is one where every quote disagrees, and
/// zero where none does.
pub proof fn law_the_mismatch_rate_is_a_ratio(one: ReplayStats, other: ReplayStats, factor: int)
    requires
        1 <= factor,
        0 < one.quotes_checked,
        other.quotes_checked == one.quotes_checked * factor,
        other.quotes_mismatched == one.quotes_mismatched * factor,
        other.quotes_checked <= 2 * BINADE,
        other.quotes_mismatched <= 2 * BINADE,
    ensures
        other.rate() == one.rate(),
        one.quotes_mismatched == one.quotes_checked ==> one.rate() == Double::of_int(1),
        one.quotes_mismatched == 0 ==> one.rate() == Double::of_int(0),
{
    let n = one.quotes_checked as int;
    let k = one.quotes_mismatched as int;
    assert(n <= n * factor && k <= k * factor && 0 < n * factor) by (nonlinear_arith)
        requires
            1 <= factor,
            0 < n,
            0 <= k,
    ;
    crate::whole::lemma_over_scaled(k, n, factor);
    crate::order::lemma_of_int(n);
    if k == n {
        crate::order::lemma_over_itself(Double::of_int(n));
    }
    if k == 0 {
        crate::order::lemma_zero_over(Double::of_int(n));
    }
}

/// Where nothing was compared the rate is zero.
pub proof fn law_nothing_compared_is_a_rate_of_zero(stats: ReplayStats)
    requires
        stats.quotes_checked == 0,
    ensures
        stats.rate() == Double::of_int(0),
{
    crate::order::lemma_of_int(0);
}

/// A text occurs wherever it stands, whatever is before and behind it.
pub proof fn law_a_text_occurs_wherever_it_stands(
    before: Seq<char>,
    part: Seq<char>,
    behind: Seq<char>,
)
    ensures
        crate::text::occurs(part, before + part + behind),
{
    let text = before + part + behind;
    assert(text.subrange(before.len() as int, (before.len() + part.len()) as int) =~= part);
    assert(crate::text::occurs_at(part, text, before.len() as int));
}

/// Where a text occurs, it can be cut out of the whole.
pub proof fn law_what_occurs_can_be_cut_out(part: Seq<char>, text: Seq<char>)
    requires
        crate::text::occurs(part, text),
    ensures
        exists|before: Seq<char>, behind: Seq<char>| text == #[trigger] ((before + part) + behind),
{
    let i = choose|i: int| #[trigger] crate::text::occurs_at(part, text, i);
    let before = text.subrange(0, i);
    let behind = text.subrange(i + part.len(), text.len() as int);
    assert(text =~= (before + part) + behind);
}

/// A book line is the last one until the next: lines that are read off other channels, or
/// not at all, do not move it. So a book line that names the book line before it brings no
/// gap, whatever stands between the two, and one that names another brings one.
pub proof fn law_a_gap_shows_across_other_lines(
    lines: Seq<Option<Notification>>,
    first: Notification,
    between: Seq<Option<Notification>>,
    second: Notification,
    inst: Instrument,
)
    requires
        crate::messages::carried(first.params.channel@) == Channel::Book,
        crate::messages::carried(second.params.channel@) == Channel::Book,
        first.params.data is Book,
        second.params.data is Book,
        (second.params.data->Book_0).prev_change_id is Some,
        forall|i: int|
            0 <= i < between.len() ==> ((#[trigger] between[i]) matches Some(note)
                ==> crate::messages::carried(note.params.channel@) != Channel::Book),
    ensures
        ({
            let before = lines.push(Some(first)) + between;
            let all = before.push(Some(second));
            let last = (first.params.data->Book_0).change_id;
            let named = (second.params.data->Book_0).prev_change_id->0;
            let n: int = if named == last {
                1
            } else {
                2
            };
            let events = crate::replay::events_of(all, inst);
            let k = crate::replay::events_of(before, inst).len();
            &&& events.len() == k + n
            &&& events.take(k as int) == crate::replay::events_of(before, inst)
            &&& named != last ==> events[k as int] is Gap
            &&& named == last ==> events[k as int] !is Gap
        }),
{
    let before = lines.push(Some(first)) + between;
    let all = before.push(Some(second));
    lemma_last_line(lines, first, between);
    assert(all.drop_last() =~= before);
    let msg = second.params.data->Book_0;
    let last = (first.params.data->Book_0).change_id;
    law_a_book_message_is_one_update(msg, Some(last), inst);
    let old = crate::replay::events_of(before, inst);
    let new = crate::replay::book_events(msg, Some(last), inst);
    let events = crate::replay::events_of(all, inst);
    assert(events == old + new);
    assert(events.take(old.len() as int) =~= old);
    assert(events[old.len() as int] == new[0]);
}

proof fn lemma_last_line(
    lines: Seq<Option<Notification>>,
    first: Notification,
    between: Seq<Option<Notification>>,
)
    requires
        crate::messages::carried(first.params.channel@) == Channel::Book,
        first.params.data is Book,
        forall|i: int|
            0 <= i < between.len() ==> ((#[trigger] between[i]) matches Some(note)
                ==> crate::messages::carried(note.params.channel@) != Channel::Book),
    ensures
        crate::replay::last_change_of(lines.push(Some(first)) + between) == Some(
            (first.params.data->Book_0).change_id,
        ),
    decreases between.len(),
{
    let all = lines.push(Some(first)) + between;
    if between.len() == 0 {
        assert(all.drop_last() =~= lines);
        assert(all.last() == Some(first));
    } else {
        let rest = between.drop_last();
        assert(all.drop_last() =~= lines.push(Some(first)) + rest);
        assert(all.last() == between[between.len() - 1]);
        assert forall|i: int| 0 <= i < rest.len() implies ((#[trigger] rest[i]) matches Some(note)
            ==> crate::messages::carried(note.params.channel@) != Channel::Book) by {
            assert(rest[i] == between[i]);
        }
        lemma_last_line(lines, first, rest);
    }
}

} // verus!
