//! What is noted of a replay: mids, samples and moves.
use vstd::prelude::*;

use crate::book::Levels;
use crate::double::Double;
use crate::event::EventView;
use crate::measure::{Moves, Sampling};
use crate::ofi::Flow;
use crate::replay::Replay;
use crate::rounding::BINADE;
use crate::study::{Imbalances, Seconds};

verus! {

/// Half of the sum of the best bid and the best ask, in USD; there is none where
/// a side is empty.
pub open spec fn halfway(levels: Levels, tick_size: Double) -> Option<Double> {
    match (levels.best_bid(), levels.best_ask()) {
        (Some((bid, _)), Some((ask, _))) => Some(
            Double::of_int(bid + ask).times(tick_size).over(Double::of_int(2)),
        ),
        _ => None,
    }
}

/// Every update of the book notes the mid of the replayed book at its own time,
/// where there is one. Nothing else does.
pub proof fn law_every_update_notes_the_replayed_mid(
    events: Seq<EventView>,
    e: EventView,
    tick_size: Double,
    window_ms: i64,
    sample_ms: i64,
)
    ensures
        ({
            let before = Sampling::of(events, tick_size, window_ms, sample_ms).mids;
            let after = Sampling::of(events.push(e), tick_size, window_ms, sample_ms).mids;
            match halfway(Replay::of(events.push(e)).levels, tick_size) {
                Some(mid) if e is Snapshot || e is Change => after == before.push((e.time(), mid)),
                _ => after == before,
            }
        }),
{
    assert(events.push(e).drop_last() =~= events);
    crate::replay_laws::law_samples_are_taken_from_the_replayed_book(
        events,
        tick_size,
        window_ms,
        sample_ms,
    );
}

proof fn lemma_next_sample(
    events: Seq<EventView>,
    tick_size: Double,
    window_ms: i64,
    sample_ms: i64,
)
    ensures
        ({
            let all = Sampling::of(events, tick_size, window_ms, sample_ms);
            all.next_sample == if all.samples.len() == 0 {
                i64::MIN as int
            } else {
                all.samples.last().0 + sample_ms
            }
        }),
    decreases events.len(),
{
    if events.len() > 0 {
        lemma_next_sample(events.drop_last(), tick_size, window_ms, sample_ms);
    }
}

/// An update that leaves a mid is sampled if it is the first, or if the time
/// between two samples has passed since the last one; what is sampled is the
/// imbalance of the window at that moment.
pub proof fn law_a_sample_is_taken_when_it_is_due(
    events: Seq<EventView>,
    e: EventView,
    tick_size: Double,
    window_ms: i64,
    sample_ms: i64,
)
    ensures
        ({
            let before = Sampling::of(events, tick_size, window_ms, sample_ms).samples;
            let all = Sampling::of(events.push(e), tick_size, window_ms, sample_ms);
            let counts = (e is Snapshot || e is Change) && halfway(
                Replay::of(events.push(e)).levels,
                tick_size,
            ) is Some;
            let due = before.len() == 0 || before.last().0 + sample_ms <= e.time();
            all.samples == if counts && due {
                before.push((e.time(), all.flow.sum))
            } else {
                before
            }
        }),
{
    assert(events.push(e).drop_last() =~= events);
    lemma_next_sample(events, tick_size, window_ms, sample_ms);
    crate::replay_laws::law_samples_are_taken_from_the_replayed_book(
        events,
        tick_size,
        window_ms,
        sample_ms,
    );
}

/// Every update that leaves a mid notes the imbalance of the window, for the
/// spread of the day. Nothing else does.
pub proof fn law_every_update_notes_the_imbalance(
    events: Seq<EventView>,
    e: EventView,
    tick_size: Double,
    window_ms: i64,
)
    ensures
        ({
            let before = Imbalances::of(events, window_ms).values;
            let all = Imbalances::of(events.push(e), window_ms);
            let counts = (e is Snapshot || e is Change) && halfway(
                Replay::of(events.push(e)).levels,
                tick_size,
            ) is Some;
            all.values == if counts {
                before.push(all.flow.sum)
            } else {
                before
            }
        }),
{
    assert(events.push(e).drop_last() =~= events);
    crate::replay_laws::law_the_imbalance_is_measured_on_the_replayed_book(
        events,
        tick_size,
        window_ms,
        0,
    );
}

/// A gap forgets the flow; no contribution is counted across it.
pub proof fn law_a_gap_forgets_the_flow(
    events: Seq<EventView>,
    gap: EventView,
    tick_size: Double,
    window_ms: i64,
    sample_ms: i64,
)
    requires
        gap is Gap,
    ensures
        ({
            let flow = Sampling::of(events.push(gap), tick_size, window_ms, sample_ms).flow;
            &&& flow.prev is None
            &&& flow.events.len() == 0
            &&& flow.sum == Double::of_int(0)
            &&& flow.window_ms == window_ms
            &&& flow == Imbalances::of(events.push(gap), window_ms).flow
        }),
{
    assert(events.push(gap).drop_last() =~= events);
    crate::replay_laws::law_the_imbalance_is_measured_on_the_replayed_book(
        events,
        tick_size,
        window_ms,
        sample_ms,
    );
    lemma_window(events, tick_size, window_ms, sample_ms);
}

proof fn lemma_forgotten_window(flow: Flow, ts: i64)
    ensures
        flow.forgotten(ts).window_ms == flow.window_ms,
    decreases flow.events.len(),
{
    if flow.events.len() > 0 && ts - flow.events[0].0 > flow.window_ms {
        lemma_forgotten_window(
            Flow {
                events: flow.events.drop_first(),
                sum: flow.sum.minus(flow.events[0].1),
                ..flow
            },
            ts,
        );
    }
}

proof fn lemma_window(events: Seq<EventView>, tick_size: Double, window_ms: i64, sample_ms: i64)
    ensures
        Sampling::of(events, tick_size, window_ms, sample_ms).flow.window_ms == window_ms,
    decreases events.len(),
{
    if events.len() > 0 {
        lemma_window(events.drop_last(), tick_size, window_ms, sample_ms);
        let seen = Sampling::of(events.drop_last(), tick_size, window_ms, sample_ms);
        assert forall|ts: i64, now: crate::ofi::Touch|
            (#[trigger] seen.flow.updated(ts, now)).window_ms == window_ms by {
            lemma_forgotten_window(seen.flow.taken(ts, now), ts);
        }
    }
}

/// The moves from second to second are taken from the replayed book.
pub proof fn law_seconds_are_taken_from_the_replayed_book(
    events: Seq<EventView>,
    tick_size: Double,
)
    requires
        crate::replay_laws::without_gaps(events),
    ensures
        Seconds::of(events, tick_size).levels == Replay::of(events).levels,
    decreases events.len(),
{
    if events.len() > 0 {
        assert(!(events[events.len() - 1] is Gap));
        assert forall|i: int| 0 <= i < events.drop_last().len() implies !((
        #[trigger] events.drop_last()[i]) is Gap) by {
            assert(events.drop_last()[i] == events[i]);
        }
        law_seconds_are_taken_from_the_replayed_book(events.drop_last(), tick_size);
    }
}

/// Each second notes one mid: that of the replayed book at its first event that
/// finds one.
pub proof fn law_a_second_notes_one_mid(
    events: Seq<EventView>,
    e: EventView,
    tick_size: Double,
    second: int,
)
    requires
        crate::replay_laws::without_gaps(events.push(e)),
        0 <= second,
        1_000 * second <= e.time() < 1_000 * (second + 1),
    ensures
        ({
            let before = Seconds::of(events, tick_size);
            let after = Seconds::of(events.push(e), tick_size);
            match halfway(Replay::of(events.push(e)).levels, tick_size) {
                Some(mid) => {
                    &&& after.last == second
                    &&& after.mids == if before.last == second {
                        before.mids
                    } else {
                        before.mids.push(mid)
                    }
                },
                None => after.last == before.last && after.mids == before.mids,
            }
        }),
{
    assert(events.push(e).drop_last() =~= events);
    law_seconds_are_taken_from_the_replayed_book(events.push(e), tick_size);
}

/// The moves from second to second, of mids that are whole numbers.
pub proof fn law_moves_go_from_each_mid_to_the_next(xs: Seq<Double>, p: Seq<int>)
    requires
        xs.len() == p.len() > 0,
        forall|i: int|
            0 <= i < xs.len() ==> (#[trigger] xs[i]).is_int(p[i]) && -BINADE <= p[i] <= BINADE,
    ensures
        crate::study::steps_of(xs).len() == xs.len() - 1,
        forall|i: int|
            0 <= i < xs.len() - 1 ==> (#[trigger] crate::study::steps_of(xs)[i]).is_int(
                p[i + 1] - p[i],
            ),
{
    assert forall|i: int| 0 <= i < xs.len() - 1 implies (#[trigger] crate::study::steps_of(
        xs,
    )[i]).is_int(p[i + 1] - p[i]) by {
        assert(xs[i].is_int(p[i]));
        assert(xs[i + 1].is_int(p[i + 1]));
        crate::order::lemma_minus_of_ints(xs[i + 1], xs[i], p[i + 1], p[i]);
    }
}

/// A sample moved if neither the imbalance nor the move is zero, and it pointed
/// the right way if both are on one side of zero.
pub proof fn law_the_right_way_is_the_same_sign(moves: Moves, value: Double, gain: Double)
    ensures
        ({
            let zero = Double::of_int(0);
            let after = moves.with(value, gain);
            let up = zero.below(value) && zero.below(gain);
            let down = value.below(zero) && gain.below(zero);
            let apart = (zero.below(value) && gain.below(zero)) || (value.below(zero)
                && zero.below(gain));
            let still = value.pattern() == 0 || gain.pattern() == 0;
            &&& up || down ==> after.moved == moves.moved + 1 && after.agreed == moves.agreed + 1
            &&& apart ==> after.moved == moves.moved + 1 && after.agreed == moves.agreed
            &&& still ==> after.moved == moves.moved && after.agreed == moves.agreed
            &&& after.xs == moves.xs.push(value)
            &&& after.ys == moves.ys.push(gain)
        }),
{
    crate::order::lemma_of_int(0);
}

/// The hit rate is a percentage of the samples that moved: all of them are 100,
/// half of them 50, none of them 0.
pub proof fn law_the_hit_rate_is_a_percentage(moves: Moves, pct: int)
    requires
        0 < moves.moved <= 2 * BINADE,
        100 * moves.agreed <= 2 * BINADE,
        100 * moves.agreed == pct * moves.moved,
    ensures
        moves.sign_pct() == Double::of_int(pct),
{
    let k = moves.agreed as int;
    let n = moves.moved as int;
    crate::order::lemma_of_int_exact(100);
    crate::order::lemma_of_int_exact(k);
    crate::order::lemma_of_int_exact(n);
    crate::order::lemma_of_int(100);
    crate::order::lemma_of_int(k);
    crate::order::lemma_of_int(n);
    assert(0 <= pct <= 2 * BINADE) by (nonlinear_arith)
        requires
            0 <= pct * n <= 2 * BINADE,
            n >= 1,
    ;
    crate::order::lemma_of_int(pct);
    let x = Double::of_int(100).times(Double::of_int(k));
    crate::whole::lemma_times_of_ints(Double::of_int(100), Double::of_int(k), 100, k);
    crate::whole::lemma_over_of_ints(x, Double::of_int(n), pct, n);
    crate::whole::lemma_is_int(x.over(Double::of_int(n)), pct);
}

/// A sample counts only where the mid is known at the horizon, and then with its
/// own imbalance and with the move of the mid from its time to the horizon.
pub proof fn law_a_sample_counts_where_its_horizon_is_reached(
    samples: Seq<(i64, Double)>,
    sample: (i64, Double),
    mids: Seq<(i64, Double)>,
    horizon: i64,
)
    ensures
        ({
            let before = Moves::of(samples, mids, horizon);
            let after = Moves::of(samples.push(sample), mids, horizon);
            match (
                crate::markout::mid_at(mids, sample.0 as int),
                crate::markout::mid_at(mids, sample.0 + horizon),
            ) {
                (Some(now), Some(later)) if sample.0 + horizon <= mids.last().0 => {
                    &&& after.xs == before.xs.push(sample.1)
                    &&& after.ys == before.ys.push(later.minus(now))
                },
                _ => after == before,
            }
        }),
{
    assert(samples.push(sample).drop_last() =~= samples);
}

/// A mid holds from its own moment on, until there is another.
pub proof fn law_a_mid_holds_from_its_own_moment(
    points: Seq<(i64, Double)>,
    ts: i64,
    mid: Double,
    at: int,
)
    ensures
        ts <= at ==> crate::markout::mid_at(points.push((ts, mid)), at) == Some(mid),
        at < ts ==> crate::markout::mid_at(points.push((ts, mid)), at) == crate::markout::mid_at(
            points,
            at,
        ),
        crate::markout::mid_at(Seq::empty(), at) is None,
{
    assert(points.push((ts, mid)).drop_last() =~= points);
}

} // verus!
