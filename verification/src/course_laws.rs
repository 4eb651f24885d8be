//! What a quoter is shown and asked about in a run.
use vstd::prelude::*;

use crate::book::Side;
use crate::desk::{Config, Desk};
use crate::double::Double;
use crate::engine::{Course, Quoter};
use crate::event::EventView;
use crate::ledger::Fill;
use crate::quoters::{GlftQuoter, JoinTouch, SignalQuoter, Symmetric};
use crate::replay::Replay;
use crate::study::Imbalances;

verus! {

/// What was bought in some fills.
pub open spec fn bought(fills: Seq<Fill>) -> int
    decreases fills.len(),
{
    if fills.len() == 0 {
        0
    } else {
        bought(fills.drop_last()) + if fills.last().side == Side::Bid {
            fills.last().size_usd as int
        } else {
            0
        }
    }
}

/// What was sold in some fills.
pub open spec fn sold(fills: Seq<Fill>) -> int
    decreases fills.len(),
{
    if fills.len() == 0 {
        0
    } else {
        sold(fills.drop_last()) + if fills.last().side == Side::Ask {
            fills.last().size_usd as int
        } else {
            0
        }
    }
}

proof fn lemma_net(fills: Seq<Fill>)
    ensures
        crate::desk_laws::net(fills) == bought(fills) - sold(fills),
    decreases fills.len(),
{
    if fills.len() > 0 {
        lemma_net(fills.drop_last());
    }
}

/// The simulator once event `i` has settled, before the quoter is asked.
pub open spec fn settled_at<Q>(
    course: Course<Q>,
    cfg: Config,
    events: Seq<EventView>,
    i: int,
) -> Option<Desk> {
    match Desk::start(cfg).after(events.take(i), course.answers.take(i)) {
        Some(desk) => desk.settled(events[i]),
        None => None,
    }
}

/// When a quoter is asked, the book is the one that a replay of the events up to
/// then rebuilds, and the position is what was bought less what was sold.
proof fn lemma_asked_about<Q>(
    course: Course<Q>,
    cfg: Config,
    events: Seq<EventView>,
    i: int,
)
    requires
        course.answers.len() == events.len(),
        0 <= i < events.len(),
    ensures
        settled_at(course, cfg, events, i) matches Some(desk) ==> {
            &&& desk.book == Replay::of(events.take(i + 1)).levels
            &&& desk.account.position == bought(desk.account.fills) - sold(desk.account.fills)
        },
{
    let start = Desk::start(cfg);
    let seen = events.take(i + 1);
    let answers = course.answers.take(i + 1);
    assert(seen.drop_last() =~= events.take(i));
    assert(answers.drop_last() =~= course.answers.take(i));
    if let Some(desk) = settled_at(course, cfg, events, i) {
        let before = start.after(events.take(i), course.answers.take(i))->0;
        crate::desk_laws::law_the_book_is_the_replayed_book(
            start,
            events.take(i),
            course.answers.take(i),
        );
        crate::desk_laws::law_the_position_is_the_sum_of_the_fills(
            start,
            events.take(i),
            course.answers.take(i),
        );
        crate::desk_laws::lemma_settled(before, events[i]);
        crate::desk_laws::lemma_filled_balanced(before, events[i]);
        lemma_net(desk.account.fills);
    }
}

/// A quoter of the inventory model quotes, whenever it is asked, by the replayed book
/// and by what was bought less what was sold up to then.
pub proof fn law_the_inventory_model_quotes_by_the_book_and_the_fills(
    course: Course<GlftQuoter>,
    from: GlftQuoter,
    to: GlftQuoter,
    cfg: Config,
    events: Seq<EventView>,
    i: int,
)
    requires
        course.leads(from, to, Desk::start(cfg), events),
        0 <= i < events.len(),
    ensures
        settled_at(course, cfg, events, i) matches Some(desk) ==> desk.asks(events[i].time())
            ==> course.answers[i] == from.quotes(
            Replay::of(events.take(i + 1)).levels,
            bought(desk.account.fills) - sold(desk.account.fills),
        ),
        course.minds[i] == from,
    decreases i,
{
    if i > 0 {
        law_the_inventory_model_quotes_by_the_book_and_the_fills(
            course,
            from,
            to,
            cfg,
            events,
            i - 1,
        );
        assert(course.goes_by_the_book(Desk::start(cfg), events, i - 1));
    }
    assert(course.goes_by_the_book(Desk::start(cfg), events, i));
    lemma_asked_about(course, cfg, events, i);
}

/// A quoter that joins the touch quotes, whenever it is asked, by the replayed book.
pub proof fn law_the_touch_is_that_of_the_replayed_book(
    course: Course<JoinTouch>,
    from: JoinTouch,
    to: JoinTouch,
    cfg: Config,
    events: Seq<EventView>,
    i: int,
)
    requires
        course.leads(from, to, Desk::start(cfg), events),
        0 <= i < events.len(),
    ensures
        settled_at(course, cfg, events, i) matches Some(desk) ==> desk.asks(events[i].time())
            ==> course.answers[i] == from.quotes(Replay::of(events.take(i + 1)).levels),
        course.minds[i] == from,
    decreases i,
{
    if i > 0 {
        law_the_touch_is_that_of_the_replayed_book(course, from, to, cfg, events, i - 1);
        assert(course.goes_by_the_book(Desk::start(cfg), events, i - 1));
    }
    assert(course.goes_by_the_book(Desk::start(cfg), events, i));
    lemma_asked_about(course, cfg, events, i);
}

/// The control quotes, whenever it is asked, by the replayed book.
pub proof fn law_the_control_goes_by_the_replayed_book(
    course: Course<Symmetric>,
    from: Symmetric,
    to: Symmetric,
    cfg: Config,
    events: Seq<EventView>,
    i: int,
)
    requires
        course.leads(from, to, Desk::start(cfg), events),
        0 <= i < events.len(),
    ensures
        settled_at(course, cfg, events, i) matches Some(desk) ==> desk.asks(events[i].time())
            ==> course.answers[i] == from.quotes(Replay::of(events.take(i + 1)).levels),
        course.minds[i] == from,
    decreases i,
{
    if i > 0 {
        law_the_control_goes_by_the_replayed_book(course, from, to, cfg, events, i - 1);
        assert(course.goes_by_the_book(Desk::start(cfg), events, i - 1));
    }
    assert(course.goes_by_the_book(Desk::start(cfg), events, i));
    lemma_asked_about(course, cfg, events, i);
}

proof fn lemma_flow(
    course: Course<SignalQuoter>,
    from: SignalQuoter,
    to: SignalQuoter,
    cfg: Config,
    events: Seq<EventView>,
    window_ms: i64,
    i: int,
)
    requires
        course.leads(from, to, Desk::start(cfg), events),
        from.mind().flow == crate::ofi::Flow::empty(window_ms),
        crate::replay_laws::without_gaps(events),
        0 <= i <= events.len(),
        Desk::start(cfg).after(events.take(i), course.answers.take(i)) is Some,
    ensures
        course.minds[i].mind().flow == Imbalances::of(events.take(i), window_ms).flow,
    decreases i,
{
    let start = Desk::start(cfg);
    if i == 0 {
        assert(events.take(0) =~= Seq::empty());
    } else {
        assert(events.take(i).drop_last() =~= events.take(i - 1));
        assert(course.answers.take(i).drop_last() =~= course.answers.take(i - 1));
        lemma_flow(course, from, to, cfg, events, window_ms, i - 1);
        assert(course.goes_by_the_book(start, events, i - 1));
        lemma_asked_about(course, cfg, events, i - 1);
        lemma_seen(course, cfg, events, window_ms, i - 1);
    }
}

proof fn lemma_seen(
    course: Course<SignalQuoter>,
    cfg: Config,
    events: Seq<EventView>,
    window_ms: i64,
    i: int,
)
    requires
        0 <= i < events.len(),
        course.answers.len() == events.len(),
        course.goes_by_the_book(Desk::start(cfg), events, i),
        crate::replay_laws::without_gaps(events),
        settled_at(course, cfg, events, i) is Some,
        course.minds[i].mind().flow == Imbalances::of(events.take(i), window_ms).flow,
    ensures
        course.shown[i].mind().flow == Imbalances::of(events.take(i + 1), window_ms).flow,
        course.minds[i + 1].mind().flow == Imbalances::of(events.take(i + 1), window_ms).flow,
{
    let seen = events.take(i + 1);
    let e = events[i];
    assert(seen.drop_last() =~= events.take(i));
    assert(seen.last() == e);
    assert(!(e is Gap));
    lemma_asked_about(course, cfg, events, i);
    crate::replay_laws::law_the_imbalance_is_measured_on_the_replayed_book(
        seen,
        Double::of_int(1),
        window_ms,
        0,
    );
}

/// On a timeline without gaps the signal quoter goes by the imbalance that is measured
/// on the replayed book: when it is asked it has seen every update up to then, and
/// nothing twice.
pub proof fn law_the_signal_goes_by_the_measured_imbalance(
    course: Course<SignalQuoter>,
    from: SignalQuoter,
    to: SignalQuoter,
    cfg: Config,
    events: Seq<EventView>,
    window_ms: i64,
    i: int,
)
    requires
        course.leads(from, to, Desk::start(cfg), events),
        from.mind().flow == crate::ofi::Flow::empty(window_ms),
        crate::replay_laws::without_gaps(events),
        0 <= i < events.len(),
        settled_at(course, cfg, events, i) is Some,
    ensures
        course.shown[i].mind().flow == Imbalances::of(events.take(i + 1), window_ms).flow,
        (settled_at(course, cfg, events, i)->0).asks(events[i].time()) ==> course.answers[i]
            == course.shown[i].mind().quotes(Replay::of(events.take(i + 1)).levels),
{
    lemma_flow(course, from, to, cfg, events, window_ms, i);
    assert(course.goes_by_the_book(Desk::start(cfg), events, i));
    lemma_asked_about(course, cfg, events, i);
    lemma_seen(course, cfg, events, window_ms, i);
}

/// A quoter is shown the book at snapshots and changes alone, and asked only when a
/// decision is due; at any other event it stays as it was.
pub proof fn law_a_quoter_is_left_alone_otherwise<Q: Quoter>(
    course: Course<Q>,
    from: Q,
    to: Q,
    cfg: Config,
    events: Seq<EventView>,
    i: int,
)
    requires
        course.leads(from, to, Desk::start(cfg), events),
        0 <= i < events.len(),
        events[i] !is Snapshot,
        events[i] !is Change,
    ensures
        course.shown[i] == course.minds[i],
        settled_at(course, cfg, events, i) matches Some(desk) ==> !desk.asks(events[i].time())
            ==> course.minds[i + 1] == course.minds[i] && course.answers[i] is None,
{
    assert(course.goes_by_the_book(Desk::start(cfg), events, i));
}

} // verus!
