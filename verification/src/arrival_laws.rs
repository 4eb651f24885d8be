//! How often trades arrive, and over which time.
use vstd::prelude::*;

use crate::double::Double;
use crate::event::EventView;
use crate::intensity::{Intensity, Trades};
use crate::rounding::BINADE;

verus! {

proof fn lemma_ends(events: Seq<EventView>, tick_size: Double)
    ensures
        events.len() == 0 ==> Trades::of(events, tick_size).first is None,
        events.len() > 0 ==> Trades::of(events, tick_size).first == Some(events[0].time()),
        events.len() > 0 ==> Trades::of(events, tick_size).last == events.last().time(),
    decreases events.len(),
{
    if events.len() > 0 {
        lemma_ends(events.drop_last(), tick_size);
    }
}

/// Trades are observed from the first event to the last, in seconds, and for a
/// second at least.
pub proof fn law_trades_are_observed_from_the_first_event_to_the_last(
    events: Seq<EventView>,
    tick_size: Double,
    secs: int,
)
    requires
        events.len() > 0,
        0 <= secs <= 0x100_0000_0000,
        events.last().time() - events[0].time() == 1_000 * secs,
    ensures
        Trades::of(events, tick_size).elapsed() == Double::of_int(if secs >= 1 {
            secs
        } else {
            1
        }),
{
    lemma_ends(events, tick_size);
    let thousand = Double::of_int(1_000);
    let a = Double::of_int(1_000 * secs);
    crate::order::lemma_of_int(1_000);
    crate::order::lemma_of_int(1_000 * secs);
    crate::order::lemma_of_int(secs);
    crate::order::lemma_of_int(1);
    crate::order::lemma_of_int_exact(1_000);
    crate::order::lemma_of_int_exact(1_000 * secs);
    crate::order::lemma_of_int_exact(secs);
    crate::order::lemma_of_int_exact(1);
    crate::whole::lemma_over_of_ints(a, thousand, secs, 1_000);
    let x = a.over(thousand);
    crate::whole::lemma_is_int(x, secs);
    assert(x == Double::of_int(secs));
    crate::order::lemma_of_int_monotone(if secs >= 1 {
        1
    } else {
        secs
    }, if secs >= 1 {
        secs
    } else {
        1
    });
    if secs == 0 {
        crate::order::lemma_order_of_values(x, Double::of_int(1));
        let unit = vstd::arithmetic::power2::pow2(1074) as int;
        vstd::arithmetic::power2::lemma_pow2_pos(1074);
        assert(0 * unit < 1 * unit) by (nonlinear_arith)
            requires
                unit > 0,
        ;
    }
}

/// An edge is in the fit exactly where it is one of the first multiples of the
/// bucket and some trade reaches it.
pub proof fn law_an_edge_counts_where_a_trade_reaches_it(
    distances: Seq<Double>,
    bucket: Double,
    n: nat,
    edge: Double,
)
    ensures
        crate::intensity::edges_of(distances, bucket, n).contains(edge) <==> exists|i: int|
            {
                &&& 0 <= i < n
                &&& edge == #[trigger] Double::of_int(i).times(bucket)
                &&& exists|j: int| 0 <= j < distances.len() && edge.at_most(#[trigger] distances[j])
            },
    decreases n,
{
    let edges = crate::intensity::edges_of(distances, bucket, n);
    if n > 0 {
        let rest = crate::intensity::edges_of(distances, bucket, (n - 1) as nat);
        let last = Double::of_int(n - 1).times(bucket);
        law_an_edge_counts_where_a_trade_reaches_it(distances, bucket, (n - 1) as nat, edge);
        lemma_reached(distances, last);
        if rest.contains(edge) {
            let k = choose|k: int| 0 <= k < rest.len() && rest[k] == edge;
            assert(edges[k] == edge);
        }
        if edges.contains(edge) && !rest.contains(edge) {
            let k = choose|k: int| 0 <= k < edges.len() && edges[k] == edge;
            if k < rest.len() {
                assert(rest[k] == edge);
            }
            assert(edge == last);
        }
        if edge == last && crate::intensity::reach(distances, last) > 0 {
            assert(edges[edges.len() - 1] == edge);
        }
        if exists|i: int|
            {
                &&& 0 <= i < n
                &&& edge == #[trigger] Double::of_int(i).times(bucket)
                &&& exists|j: int| 0 <= j < distances.len() && edge.at_most(#[trigger] distances[j])
            } {
            let i = choose|i: int|
                {
                    &&& 0 <= i < n
                    &&& edge == #[trigger] Double::of_int(i).times(bucket)
                    &&& exists|j: int|
                        0 <= j < distances.len() && edge.at_most(#[trigger] distances[j])
                };
            if i < n - 1 {
                assert(rest.contains(edge));
            }
        }
    }
}

proof fn lemma_reached(distances: Seq<Double>, edge: Double)
    ensures
        crate::intensity::reach(distances, edge) > 0 <==> exists|j: int|
            0 <= j < distances.len() && edge.at_most(#[trigger] distances[j]),
    decreases distances.len(),
{
    if distances.len() > 0 {
        let rest = distances.drop_last();
        lemma_reached(rest, edge);
        if crate::intensity::reach(rest, edge) > 0 {
            let j = choose|j: int| 0 <= j < rest.len() && edge.at_most(#[trigger] rest[j]);
            assert(edge.at_most(distances[j]));
        }
        if edge.at_most(distances.last()) {
            assert(edge.at_most(distances[distances.len() - 1]));
        }
        if exists|j: int| 0 <= j < distances.len() && edge.at_most(#[trigger] distances[j]) {
            let j = choose|j: int|
                0 <= j < distances.len() && edge.at_most(#[trigger] distances[j]);
            if j < distances.len() - 1 {
                assert(edge.at_most(rest[j]));
            }
        }
    }
}

/// A rate is trades per second: `k` trades a second for so many seconds are a rate
/// of `k`.
pub proof fn law_a_rate_is_in_trades_per_second(
    distances: Seq<Double>,
    elapsed_secs: Double,
    edge: Double,
    secs: int,
    k: int,
)
    requires
        elapsed_secs.is_int(secs),
        1 <= secs <= 2 * BINADE,
        0 <= k <= 2 * BINADE,
        crate::intensity::reach(distances, edge) == k * secs,
        k * secs <= 2 * BINADE,
    ensures
        crate::intensity::rate_at(distances, elapsed_secs, edge).is_int(k),
{
    assert(0 <= k * secs) by (nonlinear_arith)
        requires
            0 <= k,
            1 <= secs,
    ;
    crate::order::lemma_of_int_exact(k * secs);
    crate::whole::lemma_over_of_ints(Double::of_int(k * secs), elapsed_secs, k, secs);
}

/// A fit is usable exactly where both its parameters are positive and finite.
pub proof fn law_a_usable_fit_is_positive_and_finite(fit: Intensity)
    ensures
        fit.usable() <==> crate::ledger::is_price(fit.a) && crate::ledger::is_price(fit.kappa),
{
    crate::order::lemma_of_int(0);
}

/// The edges go outwards from the mid in steps of the bucket: where trades reach the last
/// of them, they are all there and in that order.
pub proof fn law_edges_go_outwards(distances: Seq<Double>, bucket: Double, n: nat)
    requires
        forall|i: int|
            0 <= i < n ==> exists|j: int|
                0 <= j < distances.len() && (#[trigger] Double::of_int(i).times(bucket)).at_most(
                    #[trigger] distances[j],
                ),
    ensures
        crate::intensity::edges_of(distances, bucket, n) == Seq::new(
            n,
            |i: int| Double::of_int(i).times(bucket),
        ),
    decreases n,
{
    let all = Seq::new(n, |i: int| Double::of_int(i).times(bucket));
    if n > 0 {
        let k = n - 1;
        let edge = Double::of_int(k).times(bucket);
        law_edges_go_outwards(distances, bucket, k as nat);
        assert(exists|j: int| 0 <= j < distances.len() && edge.at_most(#[trigger] distances[j]));
        lemma_reached(distances, edge);
    }
    assert(crate::intensity::edges_of(distances, bucket, n) =~= all);
}

} // verus!
