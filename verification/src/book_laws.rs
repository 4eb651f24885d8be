//! What the best prices and an update say of the levels of a book.
use vstd::prelude::*;

use crate::book::{Levels, Qty, Side, Tick};
use crate::measure::touch_of;

verus! {

/// The best bid is the highest of the bids and the best ask the lowest of the
/// asks, each with what rests there; a side has none only where it is empty.
pub proof fn law_the_best_prices_face_each_other(levels: Levels)
    requires
        levels.valid(),
    ensures
        match levels.best_bid() {
            Some((bid, amount)) => {
                &&& levels.bids.contains_key(bid)
                &&& levels.bids[bid] == amount
                &&& forall|p: Tick| #[trigger] levels.bids.contains_key(p) ==> p <= bid
            },
            None => forall|p: Tick| !#[trigger] levels.bids.contains_key(p),
        },
        match levels.best_ask() {
            Some((ask, amount)) => {
                &&& levels.asks.contains_key(ask)
                &&& levels.asks[ask] == amount
                &&& forall|p: Tick| #[trigger] levels.asks.contains_key(p) ==> ask <= p
            },
            None => forall|p: Tick| !#[trigger] levels.asks.contains_key(p),
        },
{
    crate::book::law_the_best_level_is_the_best(levels.bids);
    crate::book::law_the_best_level_is_the_best(levels.asks);
}

/// A book is crossed exactly where somebody bids what somebody else asks, or more.
pub proof fn law_a_crossed_book_has_a_bid_at_an_ask(levels: Levels)
    requires
        levels.valid(),
    ensures
        levels.crossed() <==> exists|bid: Tick, ask: Tick|
            {
                &&& #[trigger] levels.bids.contains_key(bid)
                &&& #[trigger] levels.asks.contains_key(ask)
                &&& ask <= bid
            },
{
    law_the_best_prices_face_each_other(levels);
    if levels.crossed() {
        let bid = (levels.best_bid()->0).0;
        let ask = (levels.best_ask()->0).0;
        assert(levels.bids.contains_key(bid) && levels.asks.contains_key(ask) && ask <= bid);
    }
}

/// The mid lies as far above the best bid as it lies below the best ask.
pub proof fn law_the_mid_is_halfway(levels: Levels)
    ensures
        levels.mid2() is Some <==> levels.best_bid() is Some && levels.best_ask() is Some,
        levels.mid2() matches Some(mid2) ==> mid2 - 2 * (levels.best_bid()->0).0 == 2
            * (levels.best_ask()->0).0 - mid2,
{
    if let Some(mid2) = levels.mid2() {
        let bid = (levels.best_bid()->0).0;
        let ask = (levels.best_ask()->0).0;
        assert(mid2 == bid + ask);
    }
}

/// The touch is the best level of each side, with what rests there.
pub proof fn law_the_touch_is_the_best_of_each_side(levels: Levels)
    ensures
        touch_of(levels) is Some <==> levels.best_bid() is Some && levels.best_ask() is Some,
        touch_of(levels) matches Some(touch) ==> {
            &&& levels.best_bid() == Some((touch.bid, touch.bid_qty))
            &&& levels.best_ask() == Some((touch.ask, touch.ask_qty))
        },
{
}

/// A level that is set is set on its own side, and no other level changes.
pub proof fn law_a_level_is_set_on_its_own_side(
    levels: Levels,
    side: Side,
    price: Tick,
    amount: Qty,
)
    ensures
        ({
            let after = levels.put(side, price, amount);
            &&& after.qty_at(side, price) == if amount > 0 {
                amount
            } else {
                0
            }
            &&& after.side(side.other()) == levels.side(side.other())
            &&& forall|p: Tick|
                p != price ==> #[trigger] after.qty_at(side, p) == levels.qty_at(side, p)
        }),
        levels.side(Side::Bid) == levels.bids,
        levels.side(Side::Ask) == levels.asks,
{
}

/// The last of the updates for a price.
pub open spec fn is_last_for(updates: Seq<(Tick, Qty)>, price: Tick, last: int) -> bool {
    &&& 0 <= last < updates.len()
    &&& updates[last].0 == price
    &&& forall|i: int| last < i < updates.len() ==> (#[trigger] updates[i]).0 != price
}

/// None of the updates is for the price.
pub open spec fn names_none(updates: Seq<(Tick, Qty)>, price: Tick) -> bool {
    forall|i: int| 0 <= i < updates.len() ==> (#[trigger] updates[i]).0 != price
}

/// An update of the book sets each side by its own list: a price holds what the
/// last entry of its side for that price said, and keeps what it held where none
/// names it.
pub proof fn law_an_update_sets_each_side_by_its_own_list(
    levels: Levels,
    bids: Seq<(Tick, Qty)>,
    asks: Seq<(Tick, Qty)>,
    price: Tick,
    last: int,
)
    ensures
        ({
            let after = levels.update(bids, asks);
            &&& is_last_for(bids, price, last) ==> after.qty_at(Side::Bid, price) == (
            if bids[last].1 > 0 {
                bids[last].1
            } else {
                0
            })
            &&& is_last_for(asks, price, last) ==> after.qty_at(Side::Ask, price) == (
            if asks[last].1 > 0 {
                asks[last].1
            } else {
                0
            })
            &&& names_none(bids, price) ==> after.qty_at(Side::Bid, price) == levels.qty_at(
                Side::Bid,
                price,
            )
            &&& names_none(asks, price) ==> after.qty_at(Side::Ask, price) == levels.qty_at(
                Side::Ask,
                price,
            )
        }),
{
    if is_last_for(bids, price, last) {
        crate::book::law_the_last_update_of_a_price_counts(levels.bids, bids, last);
    }
    if is_last_for(asks, price, last) {
        crate::book::law_the_last_update_of_a_price_counts(levels.asks, asks, last);
    }
    if names_none(bids, price) {
        crate::book::law_an_unnamed_price_is_kept(levels.bids, bids, price);
    }
    if names_none(asks, price) {
        crate::book::law_an_unnamed_price_is_kept(levels.asks, asks, price);
    }
}

} // verus!
