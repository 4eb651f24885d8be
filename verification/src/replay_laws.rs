//! Every pass over the events sees the one book that they rebuild.
use vstd::prelude::*;

use crate::double::Double;
use crate::event::EventView;
use crate::intensity::Trades;
use crate::measure::Sampling;
use crate::replay::Replay;
use crate::study::{Imbalances, Seconds};

verus! {

/// No event is missing.
pub open spec fn without_gaps(events: Seq<EventView>) -> bool {
    forall|i: int| 0 <= i < events.len() ==> !((#[trigger] events[i]) is Gap)
}

/// The book that the distances of trades are taken from is the book that a
/// verifying replay of the same events rebuilds.
pub proof fn law_distances_are_taken_from_the_replayed_book(
    events: Seq<EventView>,
    tick_size: Double,
)
    requires
        without_gaps(events),
    ensures
        Trades::of(events, tick_size).levels == Replay::of(events).levels,
        forall|k: int|
            0 <= k <= events.len() ==> Trades::of(#[trigger] events.take(k), tick_size).levels
                == Replay::of(events.take(k)).levels,
{
    assert forall|k: int| 0 <= k <= events.len() implies Trades::of(
        #[trigger] events.take(k),
        tick_size,
    ).levels == Replay::of(events.take(k)).levels by {
        lemma_trades_levels(events.take(k), tick_size);
    }
    lemma_trades_levels(events, tick_size);
}

proof fn lemma_trades_levels(events: Seq<EventView>, tick_size: Double)
    requires
        without_gaps(events),
    ensures
        Trades::of(events, tick_size).levels == Replay::of(events).levels,
    decreases events.len(),
{
    if events.len() > 0 {
        assert(events.last() == events[events.len() - 1]);
        assert forall|i: int| 0 <= i < events.drop_last().len() implies !((
        #[trigger] events.drop_last()[i]) is Gap) by {
            assert(events.drop_last()[i] == events[i]);
        }
        lemma_trades_levels(events.drop_last(), tick_size);
    }
}

/// A trade notes how far its price is from the mid of the replayed book, in USD
/// and without a sign. Where the book has no mid nothing is noted.
pub proof fn law_a_trade_is_as_far_as_it_is_from_the_replayed_mid(
    events: Seq<EventView>,
    tick_size: Double,
    trade: EventView,
)
    requires
        without_gaps(events),
        trade is Trade,
    ensures
        ({
            let before = Trades::of(events, tick_size).distances;
            let after = Trades::of(events.push(trade), tick_size).distances;
            match (Replay::of(events).levels.best_bid(), Replay::of(events).levels.best_ask()) {
                (Some((bid, _)), Some((ask, _))) => {
                    let mid = Double::of_int(bid + ask).times(tick_size).over(Double::of_int(2));
                    let price = Double::of_int(trade->Trade_price as int).times(tick_size);
                    &&& after.len() == before.len() + 1
                    &&& after.drop_last() == before
                    &&& after.last() == price.minus(mid).magnitude()
                },
                _ => after == before,
            }
        }),
{
    law_distances_are_taken_from_the_replayed_book(events, tick_size);
    assert(events.push(trade).drop_last() =~= events);
    let before = Trades::of(events, tick_size).distances;
    let after = Trades::of(events.push(trade), tick_size).distances;
    if after.len() > before.len() {
        assert(after.drop_last() =~= before);
    }
}

/// Only trades have a distance.
pub proof fn law_what_is_no_trade_has_no_distance(
    events: Seq<EventView>,
    tick_size: Double,
    other: EventView,
)
    requires
        other !is Trade,
    ensures
        Trades::of(events.push(other), tick_size).distances == Trades::of(
            events,
            tick_size,
        ).distances,
{
    assert(events.push(other).drop_last() =~= events);
}

/// The imbalance is sampled on the replayed book, gaps included.
pub proof fn law_samples_are_taken_from_the_replayed_book(
    events: Seq<EventView>,
    tick_size: Double,
    window_ms: i64,
    sample_ms: i64,
)
    ensures
        Sampling::of(events, tick_size, window_ms, sample_ms).levels == Replay::of(events).levels,
    decreases events.len(),
{
    if events.len() > 0 {
        law_samples_are_taken_from_the_replayed_book(
            events.drop_last(),
            tick_size,
            window_ms,
            sample_ms,
        );
    }
}

/// The spread of the imbalance is measured on the replayed book, gaps included,
/// and on the flow that is sampled.
pub proof fn law_the_imbalance_is_measured_on_the_replayed_book(
    events: Seq<EventView>,
    tick_size: Double,
    window_ms: i64,
    sample_ms: i64,
)
    ensures
        Imbalances::of(events, window_ms).levels == Replay::of(events).levels,
        Imbalances::of(events, window_ms).flow == Sampling::of(
            events,
            tick_size,
            window_ms,
            sample_ms,
        ).flow,
    decreases events.len(),
{
    if events.len() > 0 {
        law_samples_are_taken_from_the_replayed_book(
            events.drop_last(),
            tick_size,
            window_ms,
            sample_ms,
        );
        law_the_imbalance_is_measured_on_the_replayed_book(
            events.drop_last(),
            tick_size,
            window_ms,
            sample_ms,
        );
    }
}

/// Only snapshots and changes move the books that distances and moves from second to
/// second are taken from: a gap leaves them as they were.
pub proof fn law_only_updates_move_the_book_of_the_distances(
    events: Seq<EventView>,
    other: EventView,
    tick_size: Double,
)
    requires
        other !is Snapshot,
        other !is Change,
    ensures
        Trades::of(events.push(other), tick_size).levels == Trades::of(events, tick_size).levels,
        Seconds::of(events.push(other), tick_size).levels == Seconds::of(
            events,
            tick_size,
        ).levels,
{
    assert(events.push(other).drop_last() =~= events);
}

/// A snapshot sets those books anew, whatever they held.
pub proof fn law_a_snapshot_sets_the_book_of_the_distances_anew(
    one: Seq<EventView>,
    other: Seq<EventView>,
    snapshot: EventView,
    tick_size: Double,
)
    requires
        snapshot is Snapshot,
    ensures
        Trades::of(one.push(snapshot), tick_size).levels == Trades::of(
            other.push(snapshot),
            tick_size,
        ).levels,
        Seconds::of(one.push(snapshot), tick_size).levels == Trades::of(
            other.push(snapshot),
            tick_size,
        ).levels,
        Replay::of(one.push(snapshot)).levels == Trades::of(
            other.push(snapshot),
            tick_size,
        ).levels,
{
    assert(one.push(snapshot).drop_last() =~= one);
    assert(other.push(snapshot).drop_last() =~= other);
}

} // verus!
