//! The simulator: a replay, a quoter, and fills under a queue model.
use std::collections::VecDeque;
use std::hash::{DefaultHasher, Hasher};

use vstd::prelude::*;
use vstd::std_specs::hash::DefaultHasherAdditionalSpecFns;

use crate::book::{Book, Levels, Qty, Side, Tick};
use crate::desk::Desk;
pub use crate::desk::{Config, Quotes};
use crate::double::Double;
use crate::event::{Event, EventView};
use crate::ledger::{Fill, Ledger};
use crate::markout::MidSeries;
use crate::queue::OwnOrder;

verus! {

/// What a quoter is shown.
pub struct Ctx<'a> {
    pub ts: i64,
    pub book: &'a Book,
    pub position_usd: Qty,
}

/// Decides the quotes.
///
/// What a quoter does is stated by two relations between its values before and
/// after. A quoter that states neither may do anything.
pub trait Quoter: Sized {
    /// Whether it may become `after` when it is shown these levels and this
    /// position at `ts`.
    open spec fn watched(self, after: Self, ts: i64, levels: Levels, position: int) -> bool {
        true
    }

    /// Whether it may become `after` and answer `answer` when it is asked, with
    /// these levels and this position at `ts`.
    open spec fn asked(
        self,
        after: Self,
        ts: i64,
        levels: Levels,
        position: int,
        answer: Option<Quotes>,
    ) -> bool {
        true
    }

    /// The quotes wanted now; none to leave things as they are.
    fn quote(&mut self, ctx: &Ctx) -> (r: Option<Quotes>)
        ensures
            old(self).asked(*final(self), ctx.ts, ctx.book@, ctx.position_usd as int, r),
    ;

    /// Called after every update of the book, whether or not a decision is due.
    fn observe(&mut self, ctx: &Ctx)
        ensures
            old(self).watched(*final(self), ctx.ts, ctx.book@, ctx.position_usd as int),
    ;

    /// What the quoter counted of itself.
    fn report(&self) -> (r: Vec<(&'static str, Double)>)
        default_ensures
            r.len() == 0,
    {
        Vec::new()
    }
}

pub struct Report {
    pub ledger: Ledger,
    pub mids: MidSeries,
    pub requotes: u64,
    pub halted_ms: i64,
    pub fill_hash: u64,
}

impl Report {
    /// The report on a run that ended at `desk`.
    pub open spec fn tells(&self, desk: Desk) -> bool {
        &&& self.ledger@ == desk.account
        &&& crate::sort::is_stable_sort(desk.mids, self.mids@)
        &&& self.requotes == desk.requotes
        &&& self.halted_ms == desk.halted_ms
        &&& self.fill_hash == DefaultHasher::spec_finish(
            crate::desk::fill_bytes(desk.account.fills),
        )
    }
}

pub struct Engine {
    cfg: Config,
    book: Book,
    bid: Option<OwnOrder>,
    ask: Option<OwnOrder>,
    pending: VecDeque<(i64, Quotes)>,
    ledger: Ledger,
    mids: Vec<(i64, Double)>,
    last_decision: i64,
    live: Option<Quotes>,
    halted: bool,
    halted_since: Option<i64>,
    halted_ms: i64,
    requotes: u64,
}

impl View for Engine {
    type V = Desk;

    closed spec fn view(&self) -> Desk {
        Desk {
            cfg: self.cfg,
            book: self.book@,
            bid: self.bid,
            ask: self.ask,
            pending: self.pending@,
            account: self.ledger@,
            mids: self.mids@,
            last_decision: self.last_decision,
            live: self.live,
            halted: self.halted,
            halted_since: self.halted_since,
            halted_ms: self.halted_ms as int,
            requotes: self.requotes as int,
        }
    }
}

/// What a quoter goes through in a run.
pub ghost struct Course<Q> {
    /// The quoter before each event, and at the end.
    pub minds: Seq<Q>,
    /// The quoter once it was shown the book at each event, if it was.
    pub shown: Seq<Q>,
    /// What it answered at each event; none where it was not asked.
    pub answers: Seq<Option<Quotes>>,
}

/// Whether an event updates the book. The quoter is shown the book then.
pub open spec fn updates_book(event: EventView) -> bool {
    event is Snapshot || event is Change
}

impl<Q: Quoter> Course<Q> {
    /// What happens to the quoter at event `i` of a run: it is shown the book
    /// once if the event updated it, then asked once if a decision is due, and
    /// left alone otherwise. Once a run has failed nothing more happens.
    pub open spec fn goes_by_the_book(self, start: Desk, events: Seq<EventView>, i: int) -> bool {
        let settled = match start.after(events.take(i), self.answers.take(i)) {
            Some(desk) => desk.settled(events[i]),
            None => None,
        };
        let ts = events[i].time();
        let before = self.minds[i];
        let shown = self.shown[i];
        let after = self.minds[i + 1];
        match settled {
            Some(desk) => {
                &&& if updates_book(events[i]) {
                    before.watched(shown, ts, desk.book, desk.account.position)
                } else {
                    shown == before
                }
                &&& if desk.asks(ts) {
                    shown.asked(after, ts, desk.book, desk.account.position, self.answers[i])
                } else {
                    after == shown && self.answers[i] is None
                }
            },
            None => shown == before && after == before && self.answers[i] is None,
        }
    }

    /// The quoter's way through some events, from one value to another.
    pub open spec fn leads(self, from: Q, to: Q, start: Desk, events: Seq<EventView>) -> bool {
        &&& self.answers.len() == events.len()
        &&& self.shown.len() == events.len()
        &&& self.minds.len() == events.len() + 1
        &&& self.minds[0] == from
        &&& self.minds[events.len() as int] == to
        &&& forall|i: int|
            0 <= i < events.len() ==> #[trigger] self.goes_by_the_book(start, events, i)
    }

    /// One more event.
    spec fn extended(self, shown: Q, after: Q, answer: Option<Quotes>) -> Course<Q> {
        Course {
            minds: self.minds.push(after),
            shown: self.shown.push(shown),
            answers: self.answers.push(answer),
        }
    }
}

fn same_tick(a: Option<Tick>, b: Option<Tick>) -> (r: bool)
    ensures
        r == (a == b),
{
    match (a, b) {
        (Some(x), Some(y)) => x == y,
        (None, None) => true,
        _ => false,
    }
}

fn fits(n: i128) -> (r: bool)
    ensures
        r == crate::desk::in_i64(n as int),
{
    i64::MIN as i128 <= n && n <= i64::MAX as i128
}

fn fill_hash(fills: &Vec<Fill>) -> (r: u64)
    ensures
        r == DefaultHasher::spec_finish(crate::desk::fill_bytes(fills@)),
{
    let mut hasher = DefaultHasher::new();
    let mut i: usize = 0;
    assert(fills@.take(0) =~= Seq::empty());
    while i < fills.len()
        invariant
            i <= fills.len(),
            hasher@ == crate::desk::fill_bytes(fills@.take(i as int)),
        decreases fills.len() - i,
    {
        proof {
            assert(fills@.take(i + 1).drop_last() =~= fills@.take(i as int));
            assert(fills@.take(i + 1).last() == fills[i as int]);
        }
        let f: Fill = fills[i];
        let ts: Vec<u8> = vstd::bytes::u64_to_le_bytes(f.ts as u64);
        hasher.write(ts.as_slice());
        let size: Vec<u8> = vstd::bytes::u64_to_le_bytes(f.size_usd as u64);
        hasher.write(size.as_slice());
        let price: Vec<u8> = vstd::bytes::u64_to_le_bytes(f.price_usd.to_bits());
        hasher.write(price.as_slice());
        let bid: Vec<u8> = match f.side {
            Side::Bid => vec![1u8],
            Side::Ask => vec![0u8],
        };
        assert(bid@ =~= seq![if f.side is Bid { 1u8 } else { 0u8 }]);
        hasher.write(bid.as_slice());
        i = i + 1;
    }
    assert(fills@.take(i as int) =~= fills@);
    hasher.finish()
}

impl Engine {
    pub fn new(cfg: Config) -> (r: Self)
        ensures
            r@ == Desk::start(cfg),
    {
        Self {
            cfg,
            book: Book::new(),
            bid: None,
            ask: None,
            pending: VecDeque::new(),
            ledger: Ledger::default(),
            mids: Vec::new(),
            last_decision: i64::MIN,
            live: None,
            halted: true,
            halted_since: None,
            halted_ms: 0,
            requotes: 0,
        }
    }

    fn joining(&self, side: Side, price: Option<Tick>, size: Qty) -> (r: Option<OwnOrder>)
        ensures
            r == self@.joining(side, price, size),
    {
        match price {
            Some(p) => Some(
                OwnOrder::new(side, p, size, self.book.qty_at(side, p), self.cfg.model),
            ),
            None => None,
        }
    }

    fn has_room(&self, side: Side, size: Qty) -> (r: bool)
        ensures
            r == self@.has_room(side, size),
    {
        let position: i128 = self.ledger.position_usd as i128;
        let limit: i128 = self.cfg.max_position as i128;
        match side {
            Side::Bid => position + size as i128 <= limit,
            Side::Ask => position - size as i128 >= -limit,
        }
    }

    fn within_limit(&self, wanted: Quotes) -> (r: Quotes)
        ensures
            r == self@.within_limit(wanted),
    {
        Quotes {
            bid: if self.has_room(Side::Bid, wanted.size) {
                wanted.bid
            } else {
                None
            },
            ask: if self.has_room(Side::Ask, wanted.size) {
                wanted.ask
            } else {
                None
            },
            size: wanted.size,
        }
    }

    fn is_live(&self, quotes: Quotes) -> (r: bool)
        ensures
            r == (self@.live == Some(quotes)),
    {
        match self.live {
            Some(live) => same_tick(live.bid, quotes.bid) && same_tick(live.ask, quotes.ask)
                && live.size == quotes.size,
            None => false,
        }
    }

    fn apply_pending(&mut self, now: i64)
        ensures
            final(self)@ == old(self)@.caught_up(now),
    {
        let ghost start = self@;
        while self.pending.len() > 0 && self.pending[0].0 <= now
            invariant
                self@.caught_up(now) == start.caught_up(now),
            decreases self.pending.len(),
        {
            let ghost before = self@;
            match self.pending.pop_front() {
                Some((_, quotes)) => {
                    let resting: Quotes = self.within_limit(quotes);
                    if self.is_live(quotes) {
                        self.live = Some(resting);
                    }
                    let bid = self.joining(Side::Bid, resting.bid, resting.size);
                    let ask = self.joining(Side::Ask, resting.ask, resting.size);
                    self.bid = bid;
                    self.ask = ask;
                    assert(self@ =~= Desk {
                        pending: before.pending.drop_first(),
                        ..before.quoted(before.pending[0].1)
                    });
                },
                None => {},
            }
        }
    }

    fn cancel_all(&mut self)
        ensures
            final(self)@ == old(self)@.cancelled(),
    {
        self.bid = None;
        self.ask = None;
        self.pending.clear();
        self.live = None;
        assert(self@ =~= old(self)@.cancelled());
    }

    fn order(&self, side: Side) -> (r: Option<OwnOrder>)
        ensures
            r == self@.order(side),
    {
        match side {
            Side::Bid => self.bid,
            Side::Ask => self.ask,
        }
    }

    fn set_order(&mut self, side: Side, order: Option<OwnOrder>)
        ensures
            final(self)@ == old(self)@.with_order(side, order),
    {
        match side {
            Side::Bid => self.bid = order,
            Side::Ask => self.ask = order,
        }
    }

    fn on_trade(&mut self, ts: i64, price: Tick, size: Qty, side: Side) -> (ok: bool)
        ensures
            ok == (old(self)@.traded(ts, price, size, side) is Some),
            ok ==> old(self)@.traded(ts, price, size, side) == Some(final(self)@),
    {
        let mut order: OwnOrder = match self.order(side) {
            Some(order) => order,
            None => return true,
        };
        if !order.can_trade(price, size) {
            return false;
        }
        let filled: Qty = order.on_trade(price, size);
        if filled <= 0 {
            self.set_order(side, Some(order));
            return true;
        }
        if !self.ledger.can_fill(side, filled) {
            return false;
        }
        let price_usd: Double = Double::from_i64(order.price).mul(self.cfg.tick_size);
        self.ledger.on_fill(ts, side, price_usd, filled, self.cfg.maker_fee);
        if order.size == order.filled {
            self.set_order(side, None);
            self.live = None;
        } else {
            self.set_order(side, Some(order));
        }
        true
    }

    fn set_level(&mut self, side: Side, price: Tick, qty: Qty) -> (ok: bool)
        ensures
            ok == (old(self)@.level_set(side, price, qty) is Some),
            ok ==> old(self)@.level_set(side, price, qty) == Some(final(self)@),
    {
        let before: Qty = self.book.qty_at(side, price);
        if let Some(mut order) = self.order(side) {
            if order.price == price {
                if !fits(order.size as i128 - order.filled as i128) {
                    return false;
                }
                order.on_level_change(before, qty);
                self.set_order(side, Some(order));
            }
        }
        self.book.set(side, price, qty);
        true
    }

    fn apply_levels(&mut self, side: Side, levels: &Vec<(Tick, Qty)>) -> (ok: bool)
        ensures
            ok == (old(self)@.levels_set(side, levels@) is Some),
            ok ==> old(self)@.levels_set(side, levels@) == Some(final(self)@),
    {
        let ghost start = self@;
        let mut i: usize = 0;
        assert(levels@.take(0) =~= Seq::empty());
        while i < levels.len()
            invariant
                i <= levels.len(),
                start == old(self)@,
                start.levels_set(side, levels@.take(i as int)) == Some(self@),
            decreases levels.len() - i,
        {
            assert(levels@.take(i + 1).drop_last() =~= levels@.take(i as int));
            assert(levels@.take(i + 1).last() == levels[i as int]);
            let ok: bool = self.set_level(side, levels[i].0, levels[i].1);
            i = i + 1;
            if !ok {
                proof {
                    lemma_levels_stay_failed(start, side, levels@, i as int);
                }
                return false;
            }
        }
        assert(levels@.take(i as int) =~= levels@);
        true
    }

    fn update(&mut self, bids: &Vec<(Tick, Qty)>, asks: &Vec<(Tick, Qty)>) -> (ok: bool)
        ensures
            ok == (old(self)@.updated(bids@, asks@) is Some),
            ok ==> old(self)@.updated(bids@, asks@) == Some(final(self)@),
    {
        self.apply_levels(Side::Bid, bids) && self.apply_levels(Side::Ask, asks)
    }

    fn count_halt(&mut self, ts: i64) -> (ok: bool)
        ensures
            ok == (old(self)@.counted(ts) is Some),
            ok ==> old(self)@.counted(ts) == Some(final(self)@),
    {
        if let Some(since) = self.halted_since {
            let spent: i128 = ts as i128 - since as i128;
            if !fits(spent) {
                return false;
            }
            let total: i128 = self.halted_ms as i128 + spent;
            if !fits(total) {
                return false;
            }
            self.halted_since = None;
            self.halted_ms = total as i64;
        }
        true
    }

    fn mid_usd(&self) -> (r: Option<Double>)
        ensures
            r == self@.mid(),
    {
        match self.book.wide_mid2() {
            Some(m) => Some(
                Double::from_wide(m).mul(self.cfg.tick_size).div(Double::from_i64(2)),
            ),
            None => None,
        }
    }

    fn flatten(&mut self, ts: i64) -> (ok: bool)
        ensures
            ok == (old(self)@.flattened(ts) is Some),
            ok ==> old(self)@.flattened(ts) == Some(final(self)@),
    {
        let position: Qty = self.ledger.position_usd;
        if position == 0 {
            return true;
        }
        let fills: usize = self.ledger.fills.len();
        let price: Double = match self.mid_usd() {
            Some(mid) => mid,
            None => {
                if fills == 0 {
                    return false;
                }
                self.ledger.fills[fills - 1].price_usd
            },
        };
        if position == i64::MIN {
            return false;
        }
        if position > 0 {
            self.ledger.on_fill(ts, Side::Ask, price, position, Double::zero());
        } else {
            self.ledger.on_fill(ts, Side::Bid, price, -position, Double::zero());
        }
        true
    }

    fn note_mid(&mut self, ts: i64)
        ensures
            final(self)@ == old(self)@.noted(ts),
    {
        if let Some(mid) = self.mid_usd() {
            let seen: bool = self.mids.len() > 0 && self.mids[self.mids.len() - 1].0 == ts;
            if !seen {
                self.mids.push((ts, mid));
            }
        }
    }

    /// Takes an event, up to where the quoter may be asked. Returns false where
    /// a quantity or a time leaves the range of its type; the run ends there.
    pub fn settle(&mut self, event: &Event) -> (ok: bool)
        ensures
            ok == (old(self)@.settled(event@) is Some),
            ok ==> old(self)@.settled(event@) == Some(final(self)@),
    {
        let ts: i64 = event.ts();
        self.apply_pending(ts);
        let ghost caught_up = self@;
        let ok: bool = match event {
            Event::Gap { .. } => {
                let ok: bool = self.flatten(ts);
                if ok {
                    self.cancel_all();
                    self.book.clear();
                    if !self.halted {
                        self.halted = true;
                        self.halted_since = Some(ts);
                    }
                    assert(Some(self@) =~= caught_up.gapped(ts));
                }
                ok
            },
            Event::Snapshot { bids, asks, .. } => {
                self.book.clear();
                self.cancel_all();
                let ok: bool = self.update(bids, asks) && self.count_halt(ts);
                if ok {
                    self.halted = false;
                }
                ok
            },
            Event::Change { bids, asks, .. } => self.update(bids, asks),
            Event::Trade { price, size, side, .. } => self.on_trade(ts, *price, *size, *side),
            Event::Quote { .. } => true,
        };
        if ok {
            self.note_mid(ts);
        }
        ok
    }

    /// Whether the quoter is to be asked at `ts`.
    pub fn is_due(&self, ts: i64) -> (r: bool)
        ensures
            r == self@.asks(ts),
    {
        // Clamped because `last_decision` starts at i64::MIN: the first
        // decision is always allowed, never an overflow.
        let since: i128 = ts as i128 - self.last_decision as i128;
        let clamped: i128 = if since < i64::MIN as i128 {
            i64::MIN as i128
        } else if since > i64::MAX as i128 {
            i64::MAX as i128
        } else {
            since
        };
        !self.halted && clamped >= self.cfg.requote_ms as i128
    }

    /// What the quoter is shown at `ts`.
    pub fn context(&self, ts: i64) -> (r: Ctx<'_>)
        ensures
            r.ts == ts,
            r.book@ == self@.book,
            r.position_usd == self@.account.position,
    {
        Ctx { ts, book: &self.book, position_usd: self.ledger.position_usd }
    }

    /// Takes what the quoter answered at `ts`. Returns false where a time or a
    /// count leaves the range of its type; the run ends there.
    pub fn decide(&mut self, ts: i64, answer: Option<Quotes>) -> (ok: bool)
        ensures
            ok == (old(self)@.decided(ts, answer) is Some),
            ok ==> old(self)@.decided(ts, answer) == Some(final(self)@),
    {
        self.last_decision = ts;
        let wanted: Quotes = match answer {
            Some(wanted) => self.within_limit(wanted),
            None => return true,
        };
        if self.is_live(wanted) {
            return true;
        }
        let due: i128 = ts as i128 + self.cfg.latency_ms as i128;
        if !fits(due) || self.requotes == u64::MAX {
            return false;
        }
        self.live = Some(wanted);
        self.requotes = self.requotes + 1;
        self.pending.push_back((due as i64, wanted));
        true
    }

    /// Replays the events with a quoter, which is shown every update of the book
    /// and asked where a decision is due. None where a quantity or a time leaves
    /// the range of its type.
    pub fn run<Q: Quoter>(self, events: &Vec<Event>, quoter: &mut Q) -> (r: Option<Report>)
        ensures
            exists|course: Course<Q>|
                {
                    &&& #[trigger] course.leads(
                        *old(quoter),
                        *final(quoter),
                        self@,
                        crate::event::views(events@),
                    )
                    &&& match self@.run(crate::event::views(events@), course.answers) {
                        Some(desk) => r is Some && (r->0).tells(desk),
                        None => r is None,
                    }
                },
    {
        let mut engine = self;
        let ghost start = engine@;
        let ghost all = crate::event::views(events@);
        let ghost mut course = Course {
            minds: seq![*quoter],
            shown: Seq::empty(),
            answers: Seq::empty(),
        };
        let mut i: usize = 0;
        assert(all.take(0) =~= Seq::empty());
        while i < events.len()
            invariant
                i <= events.len(),
                all == crate::event::views(events@),
                start == self@,
                course.leads(*old(quoter), *quoter, start, all.take(i as int)),
                start.after(all.take(i as int), course.answers) == Some(engine@),
            decreases events.len() - i,
        {
            let ghost so_far = course;
            let ghost before = *quoter;
            proof {
                assert(all.take(i + 1).drop_last() =~= all.take(i as int));
                assert(all.take(i + 1).last() == events[i as int]@);
            }
            let event: &Event = &events[i];
            let ts: i64 = event.ts();
            i = i + 1;
            if !engine.settle(event) {
                proof {
                    course = so_far.extended(before, before, None);
                    assert(course.answers.drop_last() =~= so_far.answers);
                    assert(course.answers.take(i - 1) =~= so_far.answers);
                    lemma_one_more(
                        so_far,
                        *old(quoter),
                        before,
                        before,
                        before,
                        None,
                        start,
                        all,
                        i - 1,
                    );
                    course = lemma_failed_stays_failed(
                        course,
                        *old(quoter),
                        before,
                        start,
                        all,
                        i as int,
                    );
                }
                return None;
            }
            match event {
                Event::Snapshot { .. } | Event::Change { .. } => {
                    quoter.observe(&engine.context(ts));
                },
                _ => {},
            }
            let ghost shown = *quoter;
            let mut ok: bool = true;
            let mut answer: Option<Quotes> = None;
            if engine.is_due(ts) {
                answer = quoter.quote(&engine.context(ts));
                ok = engine.decide(ts, answer);
            }
            proof {
                course = so_far.extended(shown, *quoter, answer);
                assert(course.answers.drop_last() =~= so_far.answers);
                assert(course.answers.take(i - 1) =~= so_far.answers);
                lemma_one_more(
                    so_far,
                    *old(quoter),
                    before,
                    shown,
                    *quoter,
                    answer,
                    start,
                    all,
                    i - 1,
                );
            }
            if !ok {
                proof {
                    course = lemma_failed_stays_failed(
                        course,
                        *old(quoter),
                        *quoter,
                        start,
                        all,
                        i as int,
                    );
                }
                return None;
            }
        }
        assert(all.take(i as int) =~= all);
        if events.len() > 0 {
            if !engine.count_halt(events[events.len() - 1].ts()) {
                assert(self@.run(all, course.answers) is None);
                return None;
            }
        }
        let fill_hash: u64 = fill_hash(&engine.ledger.fills);
        Some(
            Report {
                fill_hash,
                ledger: engine.ledger,
                mids: MidSeries::new(engine.mids),
                requotes: engine.requotes,
                halted_ms: engine.halted_ms,
            },
        )
    }
}

proof fn lemma_levels_stay_failed(desk: Desk, side: Side, levels: Seq<(Tick, Qty)>, n: int)
    requires
        0 <= n <= levels.len(),
        desk.levels_set(side, levels.take(n)) is None,
    ensures
        desk.levels_set(side, levels) is None,
    decreases levels.len() - n,
{
    if n == levels.len() {
        assert(levels.take(n) =~= levels);
    } else {
        assert(levels.take(n + 1).drop_last() =~= levels.take(n));
        lemma_levels_stay_failed(desk, side, levels, n + 1);
    }
}

/// One more event goes on where the course had come to.
proof fn lemma_one_more<Q: Quoter>(
    course: Course<Q>,
    from: Q,
    before: Q,
    shown: Q,
    after: Q,
    answer: Option<Quotes>,
    start: Desk,
    events: Seq<EventView>,
    n: int,
)
    requires
        0 <= n < events.len(),
        course.leads(from, before, start, events.take(n)),
        course.extended(shown, after, answer).goes_by_the_book(start, events, n),
    ensures
        course.extended(shown, after, answer).leads(from, after, start, events.take(n + 1)),
{
    let more = course.extended(shown, after, answer);
    let some = events.take(n);
    let all = events.take(n + 1);
    assert forall|i: int| 0 <= i < n + 1 implies #[trigger] more.goes_by_the_book(
        start,
        all,
        i,
    ) by {
        if i < n {
            assert(course.goes_by_the_book(start, some, i));
            assert(more.answers.take(i) =~= course.answers.take(i));
            assert(all.take(i) =~= some.take(i));
        } else {
            assert(more.goes_by_the_book(start, events, n));
            assert(all.take(n) =~= events.take(n));
        }
    }
}

/// A run that has failed stays failed, and the quoter is left alone after that.
proof fn lemma_failed_stays_failed<Q: Quoter>(
    course: Course<Q>,
    from: Q,
    to: Q,
    start: Desk,
    events: Seq<EventView>,
    n: int,
) -> (whole: Course<Q>)
    requires
        0 <= n <= events.len(),
        course.leads(from, to, start, events.take(n)),
        start.after(events.take(n), course.answers) is None,
    ensures
        whole.leads(from, to, start, events),
        start.after(events, whole.answers) is None,
    decreases events.len() - n,
{
    if n == events.len() {
        assert(events.take(n) =~= events);
        course
    } else {
        let more = course.extended(to, to, None);
        assert(more.answers.drop_last() =~= course.answers);
        assert(more.answers.take(n) =~= course.answers);
        assert(events.take(n + 1).drop_last() =~= events.take(n));
        lemma_one_more(course, from, to, to, to, None, start, events, n);
        lemma_failed_stays_failed(more, from, to, start, events, n + 1)
    }
}

/// Two quoters that are alike answer alike and stay alike, whatever they are
/// shown.
pub open spec fn stays_alike<P: Quoter, Q: Quoter>(alike: spec_fn(P, Q) -> bool) -> bool {
    &&& forall|p: P, q: Q, x: P, y: Q, ts: i64, levels: Levels, position: int|
        alike(p, q) && #[trigger] p.watched(x, ts, levels, position) && #[trigger] q.watched(
            y,
            ts,
            levels,
            position,
        ) ==> alike(x, y)
    &&& forall|
        p: P,
        q: Q,
        x: P,
        y: Q,
        ts: i64,
        levels: Levels,
        position: int,
        a: Option<Quotes>,
        b: Option<Quotes>,
    |
        alike(p, q) && #[trigger] p.asked(x, ts, levels, position, a) && #[trigger] q.asked(
            y,
            ts,
            levels,
            position,
            b,
        ) ==> a == b && alike(x, y)
}

/// Two quoters that answer alike, with a memory or without one, give one and the
/// same run of the same events, and are alike at its end.
pub proof fn law_quoters_that_answer_alike_give_the_same_run<P: Quoter, Q: Quoter>(
    alike: spec_fn(P, Q) -> bool,
    start: Desk,
    events: Seq<EventView>,
    first: Course<P>,
    second: Course<Q>,
    p: P,
    q: Q,
    x: P,
    y: Q,
)
    requires
        stays_alike(alike),
        alike(p, q),
        first.leads(p, x, start, events),
        second.leads(q, y, start, events),
    ensures
        first.answers == second.answers,
        start.run(events, first.answers) == start.run(events, second.answers),
        alike(x, y),
{
    lemma_same_answers(alike, start, events, first, second, events.len() as int);
    assert(first.answers.take(events.len() as int) =~= first.answers);
    assert(second.answers.take(events.len() as int) =~= second.answers);
}

proof fn lemma_same_answers<P: Quoter, Q: Quoter>(
    alike: spec_fn(P, Q) -> bool,
    start: Desk,
    events: Seq<EventView>,
    first: Course<P>,
    second: Course<Q>,
    n: int,
)
    requires
        stays_alike(alike),
        0 <= n <= events.len(),
        first.leads(first.minds[0], first.minds.last(), start, events),
        second.leads(second.minds[0], second.minds.last(), start, events),
        alike(first.minds[0], second.minds[0]),
    ensures
        first.answers.take(n) == second.answers.take(n),
        alike(first.minds[n], second.minds[n]),
    decreases n,
{
    if n > 0 {
        let i = n - 1;
        lemma_same_answers(alike, start, events, first, second, i);
        assert(first.goes_by_the_book(start, events, i));
        assert(second.goes_by_the_book(start, events, i));
        assert(alike(first.shown[i], second.shown[i]));
        assert(first.answers[i] == second.answers[i]);
        assert(first.answers.take(n) =~= first.answers.take(i).push(first.answers[i]));
        assert(second.answers.take(n) =~= second.answers.take(i).push(second.answers[i]));
    } else {
        assert(first.answers.take(0) =~= second.answers.take(0));
    }
}

/// Two runs of the same events with quoters that answer alike are reported
/// alike: the same fills, down to their hash, and the same counts.
pub proof fn law_the_same_input_gives_the_same_report<P: Quoter, Q: Quoter>(
    alike: spec_fn(P, Q) -> bool,
    start: Desk,
    events: Seq<EventView>,
    first: Course<P>,
    second: Course<Q>,
    p: P,
    q: Q,
    x: P,
    y: Q,
    one: Report,
    other: Report,
)
    requires
        stays_alike(alike),
        alike(p, q),
        first.leads(p, x, start, events),
        second.leads(q, y, start, events),
        start.run(events, first.answers) matches Some(desk) && one.tells(desk),
        start.run(events, second.answers) matches Some(desk) && other.tells(desk),
    ensures
        one.ledger@ == other.ledger@,
        one.mids@ == other.mids@,
        one.fill_hash == other.fill_hash,
        one.requotes == other.requotes,
        one.halted_ms == other.halted_ms,
{
    law_quoters_that_answer_alike_give_the_same_run(
        alike,
        start,
        events,
        first,
        second,
        p,
        q,
        x,
        y,
    );
    let desk = start.run(events, first.answers)->0;
    crate::sort::law_a_stable_sort_is_unique(desk.mids, one.mids@, other.mids@);
}

/// The hash of some fills depends on their times, sizes, prices and sides, and
/// on nothing else of them.
pub proof fn law_the_hash_leaves_out_the_fees(a: Seq<Fill>, b: Seq<Fill>)
    requires
        a.len() == b.len(),
        forall|i: int|
            0 <= i < a.len() ==> {
                &&& (#[trigger] a[i]).ts == b[i].ts
                &&& a[i].size_usd == b[i].size_usd
                &&& a[i].price_usd == b[i].price_usd
                &&& a[i].side == b[i].side
            },
    ensures
        DefaultHasher::spec_finish(crate::desk::fill_bytes(a)) == DefaultHasher::spec_finish(
            crate::desk::fill_bytes(b),
        ),
{
    lemma_same_bytes(a, b);
}

proof fn lemma_same_bytes(a: Seq<Fill>, b: Seq<Fill>)
    requires
        a.len() == b.len(),
        forall|i: int|
            0 <= i < a.len() ==> {
                &&& (#[trigger] a[i]).ts == b[i].ts
                &&& a[i].size_usd == b[i].size_usd
                &&& a[i].price_usd == b[i].price_usd
                &&& a[i].side == b[i].side
            },
    ensures
        crate::desk::fill_bytes(a) == crate::desk::fill_bytes(b),
    decreases a.len(),
{
    if a.len() > 0 {
        let x = a.drop_last();
        let y = b.drop_last();
        assert forall|i: int| 0 <= i < x.len() implies {
            &&& (#[trigger] x[i]).ts == y[i].ts
            &&& x[i].size_usd == y[i].size_usd
            &&& x[i].price_usd == y[i].price_usd
            &&& x[i].side == y[i].side
        } by {
            assert(x[i] == a[i] && y[i] == b[i]);
        }
        lemma_same_bytes(x, y);
        assert(a[a.len() - 1].ts == b[b.len() - 1].ts);
    }
}

} // verus!
