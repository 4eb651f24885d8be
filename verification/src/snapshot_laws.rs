//! What a snapshot of the exchange is held against.
use vstd::prelude::*;

use crate::book::Tick;
use crate::double::Double;
use crate::event::Instrument;
use crate::messages::{BookEntry, BookMsg};
use crate::snapshot::{Pair, Tally, Verdict};

verus! {

/// No entry is at the tick.
pub open spec fn unnamed(entries: Seq<BookEntry>, inst: Instrument, tick: Tick) -> bool {
    forall|i: int| 0 <= i < entries.len() ==> inst.ticks((#[trigger] entries[i]).1) != tick
}

/// After some entries a tick holds what the last entry at that tick said: nothing
/// where it is deleted or its amount is not above zero, and its amount otherwise.
pub proof fn law_the_last_entry_of_a_tick_counts(
    levels: Map<Tick, Double>,
    entries: Seq<BookEntry>,
    inst: Instrument,
    last: int,
)
    requires
        0 <= last < entries.len(),
        forall|i: int|
            last < i < entries.len() ==> inst.ticks((#[trigger] entries[i]).1) != inst.ticks(
                entries[last].1,
            ),
    ensures
        ({
            let after = crate::snapshot::applied(levels, entries, inst);
            let tick = inst.ticks(entries[last].1);
            if entries[last].0@ == "delete"@ || entries[last].2.at_most(Double::of_int(0)) {
                !after.contains_key(tick)
            } else {
                after.contains_key(tick) && after[tick] == entries[last].2
            }
        }),
    decreases entries.len(),
{
    if last < entries.len() - 1 {
        let rest = entries.drop_last();
        assert(inst.ticks(entries[entries.len() - 1].1) != inst.ticks(entries[last].1));
        assert(rest[last] == entries[last]);
        assert forall|i: int| last < i < rest.len() implies inst.ticks((#[trigger] rest[i]).1)
            != inst.ticks(rest[last].1) by {
            assert(rest[i] == entries[i]);
        }
        law_the_last_entry_of_a_tick_counts(levels, rest, inst, last);
    }
}

/// A tick that no entry names keeps what it held.
pub proof fn law_an_unnamed_tick_is_kept(
    levels: Map<Tick, Double>,
    entries: Seq<BookEntry>,
    inst: Instrument,
    tick: Tick,
)
    requires
        unnamed(entries, inst, tick),
    ensures
        ({
            let after = crate::snapshot::applied(levels, entries, inst);
            &&& after.contains_key(tick) == levels.contains_key(tick)
            &&& levels.contains_key(tick) ==> after[tick] == levels[tick]
        }),
    decreases entries.len(),
{
    if entries.len() > 0 {
        let rest = entries.drop_last();
        assert(inst.ticks(entries[entries.len() - 1].1) != tick);
        assert forall|i: int| 0 <= i < rest.len() implies inst.ticks((#[trigger] rest[i]).1)
            != tick by {
            assert(rest[i] == entries[i]);
        }
        law_an_unnamed_tick_is_kept(levels, rest, inst, tick);
    }
}

/// A snapshot message starts both books anew; any other goes on from what they
/// held. What the message does not name is gone in the one case and kept in the
/// other. The snapshot that waits and the tally stay.
pub proof fn law_only_a_snapshot_message_starts_anew(
    pair: Pair,
    msg: BookMsg,
    inst: Instrument,
    tick: Tick,
)
    ensures
        ({
            let after = pair.rebuilt(msg, inst);
            let fresh = msg.kind@ == "snapshot"@;
            &&& unnamed(msg.bids@, inst, tick) && fresh ==> !after.bids.contains_key(tick)
            &&& unnamed(msg.asks@, inst, tick) && fresh ==> !after.asks.contains_key(tick)
            &&& unnamed(msg.bids@, inst, tick) && !fresh ==> after.bids.contains_key(tick)
                == pair.bids.contains_key(tick) && (pair.bids.contains_key(tick)
                ==> after.bids[tick] == pair.bids[tick])
            &&& unnamed(msg.asks@, inst, tick) && !fresh ==> after.asks.contains_key(tick)
                == pair.asks.contains_key(tick) && (pair.asks.contains_key(tick)
                ==> after.asks[tick] == pair.asks[tick])
            &&& after.waiting == pair.waiting
            &&& after.tally == pair.tally
        }),
{
    let fresh = msg.kind@ == "snapshot"@;
    let bids = if fresh {
        Map::empty()
    } else {
        pair.bids
    };
    let asks = if fresh {
        Map::empty()
    } else {
        pair.asks
    };
    if unnamed(msg.bids@, inst, tick) {
        law_an_unnamed_tick_is_kept(bids, msg.bids@, inst, tick);
    }
    if unnamed(msg.asks@, inst, tick) {
        law_an_unnamed_tick_is_kept(asks, msg.asks@, inst, tick);
    }
}

/// Each side of a message goes to its own side of the books: a tick holds what the
/// last entry of that side said.
pub proof fn law_each_side_of_a_message_goes_to_its_own_book(
    pair: Pair,
    msg: BookMsg,
    inst: Instrument,
    last: int,
)
    ensures
        ({
            let after = pair.rebuilt(msg, inst);
            let bids = msg.bids@;
            let asks = msg.asks@;
            &&& 0 <= last < bids.len() && (forall|i: int|
                last < i < bids.len() ==> inst.ticks((#[trigger] bids[i]).1) != inst.ticks(
                    bids[last].1,
                )) ==> {
                let tick = inst.ticks(bids[last].1);
                if bids[last].0@ == "delete"@ || bids[last].2.at_most(Double::of_int(0)) {
                    !after.bids.contains_key(tick)
                } else {
                    after.bids.contains_key(tick) && after.bids[tick] == bids[last].2
                }
            }
            &&& 0 <= last < asks.len() && (forall|i: int|
                last < i < asks.len() ==> inst.ticks((#[trigger] asks[i]).1) != inst.ticks(
                    asks[last].1,
                )) ==> {
                let tick = inst.ticks(asks[last].1);
                if asks[last].0@ == "delete"@ || asks[last].2.at_most(Double::of_int(0)) {
                    !after.asks.contains_key(tick)
                } else {
                    after.asks.contains_key(tick) && after.asks[tick] == asks[last].2
                }
            }
        }),
{
    let bids = msg.bids@;
    let asks = msg.asks@;
    let fresh = msg.kind@ == "snapshot"@;
    if 0 <= last < bids.len() && (forall|i: int|
        last < i < bids.len() ==> inst.ticks((#[trigger] bids[i]).1) != inst.ticks(bids[last].1)) {
        law_the_last_entry_of_a_tick_counts(
            if fresh {
                Map::empty()
            } else {
                pair.bids
            },
            bids,
            inst,
            last,
        );
    }
    if 0 <= last < asks.len() && (forall|i: int|
        last < i < asks.len() ==> inst.ticks((#[trigger] asks[i]).1) != inst.ticks(asks[last].1)) {
        law_the_last_entry_of_a_tick_counts(
            if fresh {
                Map::empty()
            } else {
                pair.asks
            },
            asks,
            inst,
            last,
        );
    }
}

/// The levels that are compared are the nearest ones: the highest first where the
/// side is read downwards, the lowest first otherwise, each with its amount, as
/// many as asked for or all there are, and none that is left out is nearer.
pub proof fn law_the_nearest_levels_are_compared(
    levels: Map<Tick, Double>,
    list: Seq<(Tick, Double)>,
    n: nat,
    descending: bool,
)
    requires
        crate::book::lists(list, levels),
    ensures
        ({
            let near = crate::snapshot::nearest(levels, n, descending);
            &&& near.len() == if n < list.len() {
                n
            } else {
                list.len()
            }
            &&& forall|i: int|
                0 <= i < near.len() ==> levels.contains_key((#[trigger] near[i]).0)
                    && levels[near[i].0] == near[i].1
            &&& forall|i: int, j: int|
                0 <= i < j < near.len() ==> if descending {
                    (#[trigger] near[i]).0 > (#[trigger] near[j]).0
                } else {
                    near[i].0 < near[j].0
                }
            &&& forall|p: Tick, i: int|
                #![trigger levels.contains_key(p), near[i]]
                levels.contains_key(p) && 0 <= i < near.len() && (forall|j: int|
                    0 <= j < near.len() ==> (#[trigger] near[j]).0 != p) ==> if descending {
                    p < near[i].0
                } else {
                    near[i].0 < p
                }
        }),
{
    let chosen = crate::snapshot::listing(levels);
    crate::book::lemma_one_list(chosen, list, levels);
    let m = list.len() as int;
    let near = crate::snapshot::nearest(levels, n, descending);
    assert forall|i: int| 0 <= i < near.len() implies #[trigger] near[i] == list[if descending {
        m - 1 - i
    } else {
        i
    }] by {}
    assert forall|i: int| 0 <= i < near.len() implies levels.contains_key((#[trigger] near[i]).0)
        && levels[near[i].0] == near[i].1 by {
        let k = if descending {
            m - 1 - i
        } else {
            i
        };
        assert(near[i] == list[k]);
        assert(levels.contains_key(list[k].0));
    }
    assert forall|p: Tick, i: int|
        #![trigger levels.contains_key(p), near[i]]
        levels.contains_key(p) && 0 <= i < near.len() && (forall|j: int|
            0 <= j < near.len() ==> (#[trigger] near[j]).0 != p) implies if descending {
        p < near[i].0
    } else {
        near[i].0 < p
    } by {
        let k = choose|k: int| 0 <= k < list.len() && #[trigger] list[k].0 == p;
        let at = if descending {
            m - 1 - k
        } else {
            k
        };
        if at < near.len() {
            assert(near[at] == list[k]);
        }
        let other = if descending {
            m - 1 - i
        } else {
            i
        };
        assert(near[i] == list[other]);
    }
}

/// A snapshot waits until the books have reached its id. Books that have gone past
/// it straddle it. At its very id they are exact where both sides name the same
/// prices with the same amounts, and wrong otherwise, with the best bid of each.
pub proof fn law_books_are_exact_where_both_sides_agree(
    pair: Pair,
    change_id: u64,
    inst: Instrument,
    depth: nat,
)
    ensures
        ({
            let verdict = pair.verdict(change_id, inst, depth);
            match pair.waiting {
                None => verdict == Verdict::Waiting,
                Some((id, bids, asks)) => {
                    let b = crate::snapshot::nearest(pair.bids, depth, true);
                    let a = crate::snapshot::nearest(pair.asks, depth, false);
                    let exact = {
                        &&& b.len() == if depth < bids.len() {
                            depth
                        } else {
                            bids.len()
                        }
                        &&& a.len() == if depth < asks.len() {
                            depth
                        } else {
                            asks.len()
                        }
                        &&& forall|i: int|
                            0 <= i < b.len() ==> (#[trigger] b[i]).0 == inst.ticks(bids[i].0)
                                && b[i].1.same(bids[i].1)
                        &&& forall|i: int|
                            0 <= i < a.len() ==> (#[trigger] a[i]).0 == inst.ticks(asks[i].0)
                                && a[i].1.same(asks[i].1)
                    };
                    &&& verdict is Waiting <==> change_id < id
                    &&& verdict is Straddled <==> id < change_id
                    &&& verdict is Exact <==> id == change_id && exact
                    &&& verdict is Wrong <==> id == change_id && !exact
                    &&& verdict matches Verdict::Wrong { change_id: at, ours, theirs } ==> {
                        &&& at == id
                        &&& b.len() > 0 ==> ours == Some(b[0].0)
                        &&& b.len() == 0 ==> ours is None
                        &&& bids.len() > 0 && depth > 0 ==> theirs == Some(inst.ticks(bids[0].0))
                        &&& bids.len() == 0 || depth == 0 ==> theirs is None
                    }
                },
            }
        }),
{
    if let Some((id, bids, asks)) = pair.waiting {
        let b = crate::snapshot::nearest(pair.bids, depth, true);
        let a = crate::snapshot::nearest(pair.asks, depth, false);
        let tb = crate::snapshot::rest_list(bids, inst, depth);
        let ta = crate::snapshot::rest_list(asks, inst, depth);
        assert forall|i: int| 0 <= i < tb.len() implies #[trigger] tb[i] == (
            inst.ticks(bids[i].0),
            bids[i].1,
        ) by {}
        assert forall|i: int| 0 <= i < ta.len() implies #[trigger] ta[i] == (
            inst.ticks(asks[i].0),
            asks[i].1,
        ) by {}
        if id == change_id && pair.matches(inst, depth) {
            assert forall|i: int| 0 <= i < b.len() implies (#[trigger] b[i]).0 == inst.ticks(
                bids[i].0,
            ) && b[i].1.same(bids[i].1) by {
                assert(tb[i] == (inst.ticks(bids[i].0), bids[i].1));
            }
            assert forall|i: int| 0 <= i < a.len() implies (#[trigger] a[i]).0 == inst.ticks(
                asks[i].0,
            ) && a[i].1.same(asks[i].1) by {
                assert(ta[i] == (inst.ticks(asks[i].0), asks[i].1));
            }
        }
    }
}

/// Every verdict is counted under its own name, and waiting is not counted.
pub proof fn law_every_verdict_is_counted_once(tally: Tally, verdict: Verdict)
    requires
        tally.exact < u64::MAX,
        tally.straddled < u64::MAX,
        tally.wrong < u64::MAX,
    ensures
        ({
            let after = tally.with(verdict);
            &&& after.exact - tally.exact == if verdict is Exact {
                1int
            } else {
                0
            }
            &&& after.straddled - tally.straddled == if verdict is Straddled {
                1int
            } else {
                0
            }
            &&& after.wrong - tally.wrong == if verdict is Wrong {
                1int
            } else {
                0
            }
        }),
{
}

} // verus!
