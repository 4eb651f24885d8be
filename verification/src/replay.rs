//! From decoded messages to a timeline, and a check of the rebuilt book.
use vstd::prelude::*;

use crate::book::{Book, Levels, Qty, Tick};
use crate::double::Double;
use crate::event::{taker_side, to_qty, to_ticks, Event, EventView, Instrument};
use crate::gaps::{GapCheck, GapDetector};
use crate::messages::{channel_of, BookEntry, BookMsg, Channel, Notification, Payload, QuoteMsg,
    TradeMsg};
use crate::sort::{stable_sort, Keyed};
use crate::text;

verus! {

impl EventView {
    /// Where an event stands among those of one timestamp: trades first, then
    /// the book, then quotes.
    pub open spec fn rank(self) -> int {
        match self {
            EventView::Trade { .. } => 0,
            EventView::Snapshot { .. } => 1,
            EventView::Change { .. } => 1,
            EventView::Gap { .. } => 1,
            EventView::Quote { .. } => 2,
        }
    }
}

pub fn rank(e: &Event) -> (r: u8)
    ensures
        r == e@.rank(),
{
    match e {
        Event::Trade { .. } => 0,
        Event::Snapshot { .. } | Event::Change { .. } | Event::Gap { .. } => 1,
        Event::Quote { .. } => 2,
    }
}

impl Keyed for Event {
    /// The timestamp decides, then the rank, of which there are three.
    open spec fn key(&self) -> int {
        3 * self@.time() + self@.rank()
    }

    fn precedes(&self, other: &Self) -> (r: bool) {
        let a: i64 = self.ts();
        let b: i64 = other.ts();
        a < b || (a == b && rank(self) < rank(other))
    }
}

/// The level that an entry sets: a delete carries amount zero.
pub open spec fn entry_level(entry: BookEntry, inst: Instrument) -> (Tick, Qty) {
    (
        inst.ticks(entry.1),
        if entry.0@ == "delete"@ {
            0
        } else {
            crate::event::rounded_i64(entry.2)
        },
    )
}

pub open spec fn entry_levels(raw: Seq<BookEntry>, inst: Instrument) -> Seq<(Tick, Qty)> {
    raw.map_values(|e: BookEntry| entry_level(e, inst))
}

proof fn lemma_zero_rounds_to_zero()
    ensures
        crate::event::rounded_i64(Double { bits: 0 }) == 0,
{
    let unit = vstd::arithmetic::power2::pow2(1074);
    vstd::arithmetic::power2::lemma_pow2_pos(1074);
    vstd::arithmetic::div_mod::lemma_basic_div(unit as int, (2 * unit) as int);
}

pub fn entries(raw: &Vec<BookEntry>, inst: &Instrument) -> (r: Vec<(Tick, Qty)>)
    ensures
        r@ == entry_levels(raw@, *inst),
{
    let mut out: Vec<(Tick, Qty)> = Vec::new();
    let mut i: usize = 0;
    while i < raw.len()
        invariant
            i <= raw.len(),
            out.len() == i,
            forall|j: int| 0 <= j < i ==> #[trigger] out[j] == entry_level(raw[j], *inst),
        decreases raw.len() - i,
    {
        let amount: Double = if text::same(raw[i].0.as_str(), "delete") {
            proof {
                lemma_zero_rounds_to_zero();
            }
            Double::zero()
        } else {
            raw[i].2
        };
        out.push((to_ticks(raw[i].1, inst), to_qty(amount, inst)));
        i = i + 1;
    }
    assert(out@ =~= entry_levels(raw@, *inst));
    out
}

/// The events of a book message after `last`: the gap before it, if there is
/// one, then the message itself.
pub open spec fn book_events(msg: BookMsg, last: Option<u64>, inst: Instrument) -> Seq<EventView> {
    let bids = entry_levels(msg.bids@, inst);
    let asks = entry_levels(msg.asks@, inst);
    let update = if msg.kind@ == "snapshot"@ {
        EventView::Snapshot { ts: msg.timestamp, bids, asks }
    } else {
        EventView::Change { ts: msg.timestamp, bids, asks }
    };
    match crate::gaps::gap_check(last, msg.prev_change_id) {
        GapCheck::Missing { from, to } => seq![
            EventView::Gap { ts: msg.timestamp, missing_from: from, missing_to: to },
            update,
        ],
        _ => seq![update],
    }
}

pub open spec fn trade_event(t: TradeMsg, inst: Instrument) -> EventView {
    EventView::Trade {
        ts: t.timestamp,
        price: inst.ticks(t.price),
        size: crate::event::rounded_i64(t.amount),
        side: crate::event::consumed_side(t.direction@),
    }
}

pub open spec fn quoted(
    price: Option<Double>,
    amount: Double,
    inst: Instrument,
) -> Option<(Tick, Qty)> {
    match price {
        Some(p) => Some((inst.ticks(p), crate::event::rounded_i64(amount))),
        None => None,
    }
}

pub open spec fn quote_event(q: QuoteMsg, inst: Instrument) -> EventView {
    EventView::Quote {
        ts: q.timestamp,
        bid: quoted(q.best_bid_price, q.best_bid_amount, inst),
        ask: quoted(q.best_ask_price, q.best_ask_amount, inst),
    }
}

/// A line that holds a notification on a channel that is read, with data of the
/// shape that its channel asks for.
pub open spec fn is_readable(line: Option<Notification>) -> bool {
    match line {
        Some(note) => match (crate::messages::carried(note.params.channel@), note.params.data) {
            (Channel::Book, Payload::Book(_)) => true,
            (Channel::Trades, Payload::Trades(_)) => true,
            (Channel::Quote, Payload::Quote(_)) => true,
            _ => false,
        },
        None => false,
    }
}

/// The events of one line. What cannot be read is passed over.
pub open spec fn line_events(
    line: Option<Notification>,
    last: Option<u64>,
    inst: Instrument,
) -> Seq<EventView> {
    match line {
        Some(note) => match (crate::messages::carried(note.params.channel@), note.params.data) {
            (Channel::Book, Payload::Book(msg)) => book_events(msg, last, inst),
            (Channel::Trades, Payload::Trades(trades)) => trades@.map_values(
                |t: TradeMsg| trade_event(t, inst),
            ),
            (Channel::Quote, Payload::Quote(q)) => seq![quote_event(q, inst)],
            _ => Seq::empty(),
        },
        None => Seq::empty(),
    }
}

/// The id of the last book message up to and with a line.
pub open spec fn last_change(line: Option<Notification>, last: Option<u64>) -> Option<u64> {
    match line {
        Some(note) => match (crate::messages::carried(note.params.channel@), note.params.data) {
            (Channel::Book, Payload::Book(msg)) => Some(msg.change_id),
            _ => last,
        },
        None => last,
    }
}

/// The id of the last book message of several lines.
pub open spec fn last_change_of(lines: Seq<Option<Notification>>) -> Option<u64>
    decreases lines.len(),
{
    if lines.len() == 0 {
        None
    } else {
        last_change(lines.last(), last_change_of(lines.drop_last()))
    }
}

/// The events of several lines, in the order in which they came.
pub open spec fn events_of(lines: Seq<Option<Notification>>, inst: Instrument) -> Seq<EventView>
    decreases lines.len(),
{
    if lines.len() == 0 {
        Seq::empty()
    } else {
        events_of(lines.drop_last(), inst) + line_events(
            lines.last(),
            last_change_of(lines.drop_last()),
            inst,
        )
    }
}

fn quote_level(price: Option<Double>, amount: Double, inst: &Instrument) -> (r: Option<(Tick, Qty)>)
    ensures
        r == quoted(price, amount, *inst),
{
    match price {
        Some(p) => Some((to_ticks(p, inst), to_qty(amount, inst))),
        None => None,
    }
}

/// Appends the events of one notification.
fn push_note(
    note: &Notification,
    gaps: &mut GapDetector,
    events: &mut Vec<Event>,
    inst: &Instrument,
)
    ensures
        crate::event::views(final(events)@) == crate::event::views(old(events)@) + line_events(
            Some(*note),
            old(gaps).seen(),
            *inst,
        ),
        final(gaps).seen() == last_change(Some(*note), old(gaps).seen()),
{
    let ghost before = events@;
    let ghost last = gaps.seen();
    match channel_of(note.params.channel.as_str()) {
        Channel::Book => if let Payload::Book(msg) = &note.params.data {
            let check = gaps.check(msg);
            if let GapCheck::Missing { from, to } = check {
                events.push(
                    Event::Gap { ts: msg.timestamp, missing_from: from, missing_to: to },
                );
            }
            let bids = entries(&msg.bids, inst);
            let asks = entries(&msg.asks, inst);
            if text::same(msg.kind.as_str(), "snapshot") {
                events.push(Event::Snapshot { ts: msg.timestamp, bids, asks });
            } else {
                events.push(Event::Change { ts: msg.timestamp, bids, asks });
            }
            assert(crate::event::views(events@) =~= crate::event::views(before) + book_events(
                *msg,
                last,
                *inst,
            ));
        },
        Channel::Trades => if let Payload::Trades(trades) = &note.params.data {
            let mut i: usize = 0;
            let ghost list = trades@.map_values(|t: TradeMsg| trade_event(t, *inst));
            assert(crate::event::views(events@) =~= crate::event::views(before) + list.take(0));
            while i < trades.len()
                invariant
                    i <= trades.len(),
                    list == trades@.map_values(|t: TradeMsg| trade_event(t, *inst)),
                    crate::event::views(events@) == crate::event::views(before) + list.take(
                        i as int,
                    ),
                decreases trades.len() - i,
            {
                let t = &trades[i];
                let ghost held = events@;
                events.push(
                    Event::Trade {
                        ts: t.timestamp,
                        price: to_ticks(t.price, inst),
                        size: to_qty(t.amount, inst),
                        side: taker_side(t.direction.as_str()),
                    },
                );
                i = i + 1;
                proof {
                    assert(events@.last()@ == list[i - 1]);
                    assert(crate::event::views(events@) =~= crate::event::views(held).push(
                        list[i - 1],
                    ));
                    assert(list.take(i as int) =~= list.take(i - 1).push(list[i - 1]));
                }
            }
            assert(list.take(i as int) =~= list);
        },
        Channel::Quote => if let Payload::Quote(q) = &note.params.data {
            events.push(
                Event::Quote {
                    ts: q.timestamp,
                    bid: quote_level(q.best_bid_price, q.best_bid_amount, inst),
                    ask: quote_level(q.best_ask_price, q.best_ask_amount, inst),
                },
            );
            assert(crate::event::views(events@) =~= crate::event::views(before) + seq![
                quote_event(*q, *inst),
            ]);
        },
        Channel::Other => {},
    }
    assert(crate::event::views(events@) =~= crate::event::views(before) + line_events(
        Some(*note),
        last,
        *inst,
    ));
}

/// The timeline of the recorded lines: their events in order, those of one moment
/// and rank as they came.
pub open spec fn is_timeline(
    lines: Seq<Option<Notification>>,
    inst: Instrument,
    events: Seq<Event>,
) -> bool {
    exists|arrived: Seq<Event>|
        {
            &&& #[trigger] crate::event::views(arrived) == events_of(lines, inst)
            &&& crate::sort::is_stable_sort(arrived, events)
        }
}

/// The timeline of the recorded lines, each with the notification that was read
/// off it, if one was.
pub fn parse_lines(lines: &Vec<Option<Notification>>, inst: &Instrument) -> (r: Vec<Event>)
    ensures
        is_timeline(lines@, *inst, r@),
{
    let mut events: Vec<Event> = Vec::new();
    let mut gaps = GapDetector::default();
    let mut i: usize = 0;
    assert(lines@.take(0) =~= Seq::empty());
    assert(crate::event::views(events@) =~= Seq::empty());
    while i < lines.len()
        invariant
            i <= lines.len(),
            crate::event::views(events@) == events_of(lines@.take(i as int), *inst),
            gaps.seen() == last_change_of(lines@.take(i as int)),
        decreases lines.len() - i,
    {
        let ghost before = events@;
        if let Some(note) = &lines[i] {
            push_note(note, &mut gaps, &mut events, inst);
        } else {
            assert(crate::event::views(before) + Seq::<EventView>::empty() =~= crate::event::views(
                before,
            ));
        }
        i = i + 1;
        assert(lines@.take(i as int).drop_last() =~= lines@.take(i - 1));
    }
    assert(lines@.take(i as int) =~= lines@);
    stable_sort(events)
}

/// The silent-failure detector: the book we rebuild must equal the book the
/// exchange publishes on the quote channel.
#[derive(Debug, Default, Clone, Copy)]
pub struct ReplayStats {
    pub quotes_checked: u64,
    pub quotes_mismatched: u64,
    pub gaps: u64,
}

impl ReplayStats {
    pub open spec fn rate(self) -> Double {
        if self.quotes_checked == 0 {
            Double { bits: 0 }
        } else {
            Double::of_int(self.quotes_mismatched as int).over(
                Double::of_int(self.quotes_checked as int),
            )
        }
    }

    pub fn mismatch_rate(&self) -> (r: Double)
        ensures
            r == self.rate(),
    {
        if self.quotes_checked == 0 {
            return Double::zero();
        }
        Double::from_u64(self.quotes_mismatched).div(Double::from_u64(self.quotes_checked))
    }
}

/// A replay up to some event.
pub struct Replay {
    pub levels: Levels,
    /// Whether a snapshot came since the last gap.
    pub synced: bool,
    pub checked: int,
    pub mismatched: int,
    pub gaps: int,
}

pub open spec fn price_of(level: Option<(Tick, Qty)>) -> Option<Tick> {
    match level {
        Some((p, _)) => Some(p),
        None => None,
    }
}

impl Replay {
    pub open spec fn start() -> Replay {
        Replay { levels: Levels::empty(), synced: false, checked: 0, mismatched: 0, gaps: 0 }
    }

    /// The published best prices are those of the rebuilt book.
    pub open spec fn agrees(self, bid: Option<(Tick, Qty)>, ask: Option<(Tick, Qty)>) -> bool {
        &&& price_of(self.levels.best_bid()) == price_of(bid)
        &&& price_of(self.levels.best_ask()) == price_of(ask)
    }

    pub open spec fn step(self, e: EventView) -> Replay {
        match e {
            EventView::Gap { .. } => Replay {
                levels: Levels::empty(),
                synced: false,
                gaps: self.gaps + 1,
                ..self
            },
            EventView::Snapshot { bids, asks, .. } => Replay {
                levels: Levels::empty().update(bids, asks),
                synced: true,
                ..self
            },
            EventView::Change { bids, asks, .. } => Replay {
                levels: self.levels.update(bids, asks),
                ..self
            },
            EventView::Quote { bid, ask, .. } => if !self.synced {
                self
            } else if self.agrees(bid, ask) {
                Replay { checked: self.checked + 1, ..self }
            } else {
                Replay { checked: self.checked + 1, mismatched: self.mismatched + 1, ..self }
            },
            EventView::Trade { .. } => self,
        }
    }

    pub open spec fn of(events: Seq<EventView>) -> Replay
        decreases events.len(),
    {
        if events.len() == 0 {
            Replay::start()
        } else {
            Replay::of(events.drop_last()).step(events.last())
        }
    }
}

fn same_price(ours: Option<(Tick, Qty)>, theirs: Option<(Tick, Qty)>) -> (r: bool)
    ensures
        r == (price_of(ours) == price_of(theirs)),
{
    match (ours, theirs) {
        (Some((a, _)), Some((b, _))) => a == b,
        (None, None) => true,
        _ => false,
    }
}

pub fn verify(events: &Vec<Event>) -> (r: ReplayStats)
    ensures
        ({
            let done = Replay::of(crate::event::views(events@));
            &&& r.quotes_checked == done.checked
            &&& r.quotes_mismatched == done.mismatched
            &&& r.gaps == done.gaps
        }),
{
    let mut book = Book::new();
    let mut stats = ReplayStats { quotes_checked: 0, quotes_mismatched: 0, gaps: 0 };
    let mut seen_snapshot: bool = false;
    let ghost all = crate::event::views(events@);
    let mut i: usize = 0;
    assert(all.take(0) =~= Seq::empty());
    while i < events.len()
        invariant
            i <= events.len(),
            all == crate::event::views(events@),
            ({
                let at = Replay::of(all.take(i as int));
                &&& book@ == at.levels
                &&& seen_snapshot == at.synced
                &&& stats.quotes_checked == at.checked <= i
                &&& stats.quotes_mismatched == at.mismatched <= i
                &&& stats.gaps == at.gaps <= i
            }),
        decreases events.len() - i,
    {
        let ghost at = Replay::of(all.take(i as int));
        proof {
            assert(all.take(i + 1).drop_last() =~= all.take(i as int));
            assert(all.take(i + 1).last() == events@[i as int]@);
        }
        match &events[i] {
            Event::Gap { .. } => {
                stats.gaps = stats.gaps + 1;
                seen_snapshot = false;
                book.clear();
            },
            Event::Snapshot { bids, asks, .. } => {
                book.clear();
                book.update(bids, asks);
                seen_snapshot = true;
            },
            Event::Change { bids, asks, .. } => {
                book.update(bids, asks);
            },
            Event::Quote { bid, ask, .. } => {
                if seen_snapshot {
                    stats.quotes_checked = stats.quotes_checked + 1;
                    if !same_price(book.best_bid(), *bid) || !same_price(book.best_ask(), *ask) {
                        stats.quotes_mismatched = stats.quotes_mismatched + 1;
                    }
                }
            },
            Event::Trade { .. } => {},
        }
        i = i + 1;
    }
    assert(all.take(i as int) =~= all);
    stats
}

/// On the timeline no event comes before an earlier one, and at one timestamp
/// trades come before the book and the book before quotes.
pub proof fn law_the_timeline_is_ordered(events: Seq<Event>, i: int, j: int)
    requires
        crate::sort::in_order(events),
        0 <= i < j < events.len(),
    ensures
        events[i]@.time() <= events[j]@.time(),
        events[i]@.time() == events[j]@.time() ==> events[i]@.rank() <= events[j]@.rank(),
{
    assert(events[i].key() <= events[j].key());
}

/// Lines have one timeline.
pub proof fn law_lines_have_one_timeline(
    lines: Seq<Option<Notification>>,
    others: Seq<Option<Notification>>,
    inst: Instrument,
    a: Seq<Event>,
    b: Seq<Event>,
)
    requires
        is_timeline(lines, inst, a),
        is_timeline(others, inst, b),
        events_of(lines, inst) == events_of(others, inst),
    ensures
        crate::event::views(a) == crate::event::views(b),
{
    let x = choose|arrived: Seq<Event>|
        {
            &&& #[trigger] crate::event::views(arrived) == events_of(lines, inst)
            &&& crate::sort::is_stable_sort(arrived, a)
        };
    let y = choose|arrived: Seq<Event>|
        {
            &&& #[trigger] crate::event::views(arrived) == events_of(others, inst)
            &&& crate::sort::is_stable_sort(arrived, b)
        };
    crate::sort::law_what_looks_alike_sorts_alike(x, y, a, b, |e: Event| e@);
}

/// A line that cannot be read changes nothing of the timeline: it yields no
/// event, does not end the reading, and is neither the cause nor the cure of a
/// gap.
pub proof fn law_an_unreadable_line_changes_nothing(
    before: Seq<Option<Notification>>,
    junk: Option<Notification>,
    after: Seq<Option<Notification>>,
    inst: Instrument,
    with: Seq<Event>,
    without: Seq<Event>,
)
    requires
        !is_readable(junk),
        is_timeline(before.push(junk) + after, inst, with),
        is_timeline(before + after, inst, without),
    ensures
        crate::event::views(with) == crate::event::views(without),
{
    lemma_passed_over(before, junk, after, inst);
    law_lines_have_one_timeline(before.push(junk) + after, before + after, inst, with, without);
}

proof fn lemma_passed_over(
    before: Seq<Option<Notification>>,
    junk: Option<Notification>,
    after: Seq<Option<Notification>>,
    inst: Instrument,
)
    requires
        !is_readable(junk),
    ensures
        events_of(before.push(junk) + after, inst) == events_of(before + after, inst),
        last_change_of(before.push(junk) + after) == last_change_of(before + after),
    decreases after.len(),
{
    let with = before.push(junk) + after;
    let without = before + after;
    if after.len() == 0 {
        assert(with =~= before.push(junk));
        assert(without =~= before);
        assert(with.drop_last() =~= before);
        assert(events_of(before, inst) + Seq::<EventView>::empty() =~= events_of(before, inst));
    } else {
        lemma_passed_over(before, junk, after.drop_last(), inst);
        assert(with.drop_last() =~= before.push(junk) + after.drop_last());
        assert(without.drop_last() =~= before + after.drop_last());
    }
}

/// Where the second of two parts begins with a snapshot or a gap, or is empty,
/// what is counted in the whole is what is counted in the parts.
pub proof fn law_what_is_verified_adds_up(first: Seq<EventView>, second: Seq<EventView>)
    requires
        second.len() > 0 ==> second[0] is Snapshot || second[0] is Gap,
    ensures
        ({
            let whole = Replay::of(first + second);
            let (a, b) = (Replay::of(first), Replay::of(second));
            &&& whole.checked == a.checked + b.checked
            &&& whole.mismatched == a.mismatched + b.mismatched
            &&& whole.gaps == a.gaps + b.gaps
            &&& second.len() > 0 ==> whole.levels == b.levels && whole.synced == b.synced
        }),
    decreases second.len(),
{
    let rest = second.drop_last();
    if second.len() == 0 {
        assert(first + second =~= first);
    } else if rest.len() > 0 {
        assert((first + second).drop_last() =~= first + rest);
        assert(rest[0] == second[0]);
        law_what_is_verified_adds_up(first, rest);
    } else {
        assert((first + second).drop_last() =~= first);
        assert(second.drop_last() =~= Seq::empty());
        assert(second.last() == second[0]);
    }
}

/// No more quotes disagree than were compared, and none is compared between a
/// gap and the next snapshot.
pub proof fn law_only_synced_quotes_count(events: Seq<EventView>)
    ensures
        0 <= Replay::of(events).mismatched <= Replay::of(events).checked <= events.len(),
        0 <= Replay::of(events).gaps <= events.len(),
        !Replay::of(events).synced ==> forall|e: EventView|
            e is Quote ==> #[trigger] Replay::of(events).step(e) == Replay::of(events),
    decreases events.len(),
{
    if events.len() > 0 {
        law_only_synced_quotes_count(events.drop_last());
    }
}

} // verus!
