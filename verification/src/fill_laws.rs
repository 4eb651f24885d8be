//! What a trade gives us: at which price, how much of it, and what it does to
//! the account.
use vstd::prelude::*;

use crate::book::{Qty, Side, Tick};
use crate::desk::{Desk, Quotes};
use crate::double::Double;
use crate::event::EventView;
use crate::ledger::{Account, Fill};
use crate::rounding::BINADE;

verus! {

/// A trade gives at most one fill. It is booked at the limit price of the order
/// that was resting on the side that was hit, whatever price the trade printed
/// at, for no more than what was left of that order, and at the maker's fee.
pub proof fn law_a_trade_fills_at_the_limit_of_the_order(
    desk: Desk,
    ts: i64,
    price: Tick,
    size: Qty,
    side: Side,
    answer: Option<Quotes>,
)
    ensures
        desk.step(EventView::Trade { ts, price, size, side }, answer) matches Some(after) ==> {
            let fills = after.account.fills;
            ||| after.account == desk.account
            ||| {
                &&& fills.len() == desk.account.fills.len() + 1
                &&& fills.drop_last() == desk.account.fills
                &&& desk.caught_up(ts).order(side) matches Some(resting) && {
                    &&& fills.last().price_usd == Double::of_int(resting.price as int).times(
                        desk.cfg.tick_size,
                    )
                    &&& 0 < fills.last().size_usd
                    &&& fills.last().size_usd as int <= resting.left()
                }
                &&& fills.last().ts == ts
                &&& fills.last().side == side
                &&& fills.last().fee_btc == desk.cfg.maker_fee.times(
                    Double::of_int(fills.last().size_usd as int),
                ).over(fills.last().price_usd)
                &&& after.account.fees == desk.account.fees.plus(fills.last().fee_btc)
            }
        },
{
    crate::desk_laws::lemma_caught_up(desk, ts);
    let up = desk.caught_up(ts);
    if let Some(resting) = up.order(side) {
        if let Some(moved) = up.traded(ts, price, size, side) {
            if moved.account != up.account {
                assert(moved.account.fills.drop_last() =~= up.account.fills);
            }
        }
    }
}

/// Two trades through one resting order give fills at one price, whatever the
/// two prices that were printed and however much was traded.
pub proof fn law_the_printed_price_does_not_matter(
    desk: Desk,
    ts: i64,
    side: Side,
    one: (Tick, Qty),
    other: (Tick, Qty),
    answers: (Option<Quotes>, Option<Quotes>),
)
    ensures
        ({
            let n = desk.account.fills.len();
            let (a, b) = (
                desk.step(EventView::Trade { ts, price: one.0, size: one.1, side }, answers.0),
                desk.step(EventView::Trade { ts, price: other.0, size: other.1, side }, answers.1),
            );
            a is Some && b is Some && n < a->0.account.fills.len() && n < b->0.account.fills.len()
                ==> a->0.account.fills.last().price_usd == b->0.account.fills.last().price_usd
        }),
{
    law_a_trade_fills_at_the_limit_of_the_order(desk, ts, one.0, one.1, side, answers.0);
    law_a_trade_fills_at_the_limit_of_the_order(desk, ts, other.0, other.1, side, answers.1);
}

/// A trade that prints past the price of a resting order fills all that was left
/// of it, at once: the position moves by that much, towards the side of the
/// order, and nothing rests on that side any more. The order on the other side
/// stays as it was.
pub proof fn law_a_trade_past_the_price_fills_what_was_left(
    desk: Desk,
    ts: i64,
    price: Tick,
    size: Qty,
    side: Side,
    answer: Option<Quotes>,
)
    requires
        desk.caught_up(ts).order(side) matches Some(resting) && {
            &&& resting.side == side
            &&& 0 < resting.left()
            &&& side == Side::Bid ==> price < resting.price
            &&& side == Side::Ask ==> resting.price < price
        },
    ensures
        desk.step(EventView::Trade { ts, price, size, side }, answer) matches Some(after) ==> {
            let left = desk.caught_up(ts).order(side)->0.left();
            &&& after.account.fills.len() == desk.account.fills.len() + 1
            &&& after.account.fills.last().size_usd as int == left
            &&& side == Side::Bid ==> {
                &&& after.account.position == desk.account.position + left
                &&& after.bid is None
                &&& after.ask == desk.caught_up(ts).ask
            }
            &&& side == Side::Ask ==> {
                &&& after.account.position == desk.account.position - left
                &&& after.ask is None
                &&& after.bid == desk.caught_up(ts).bid
            }
        },
{
    crate::desk_laws::lemma_caught_up(desk, ts);
}

/// A trade that prints on the other side of our price gives no fill and leaves
/// our orders as they were.
pub proof fn law_a_trade_away_from_the_price_gives_nothing(
    desk: Desk,
    ts: i64,
    price: Tick,
    size: Qty,
    side: Side,
    answer: Option<Quotes>,
)
    requires
        desk.caught_up(ts).order(side) matches Some(resting) ==> {
            &&& resting.side == side
            &&& side == Side::Bid ==> resting.price < price
            &&& side == Side::Ask ==> price < resting.price
        },
    ensures
        desk.step(EventView::Trade { ts, price, size, side }, answer) matches Some(after) ==> {
            &&& after.account == desk.account
            &&& after.bid == desk.caught_up(ts).bid
            &&& after.ask == desk.caught_up(ts).ask
        },
{
    crate::desk_laws::lemma_caught_up(desk, ts);
}

/// A quote that has reached the book is filled at the tick that was quoted: a
/// trade below the quoted bid gives the whole size at the bid, and one above the
/// quoted ask gives it at the ask.
pub proof fn law_a_quote_is_filled_at_the_tick_it_was_quoted_at(
    desk: Desk,
    due: i64,
    quotes: Quotes,
    ts: i64,
    price: Tick,
    size: Qty,
    side: Side,
    answer: Option<Quotes>,
)
    requires
        desk.pending == seq![(due, quotes)],
        due <= ts,
        0 < quotes.size,
        side == Side::Bid ==> {
            &&& quotes.bid matches Some(bid) && price < bid
            &&& desk.account.position + quotes.size <= desk.cfg.max_position
        },
        side == Side::Ask ==> {
            &&& quotes.ask matches Some(ask) && ask < price
            &&& -desk.cfg.max_position <= desk.account.position - quotes.size
        },
    ensures
        desk.step(EventView::Trade { ts, price, size, side }, answer) matches Some(after) ==> {
            let fill = after.account.fills.last();
            let tick = if side == Side::Bid {
                quotes.bid->0
            } else {
                quotes.ask->0
            };
            &&& after.account.fills.len() == desk.account.fills.len() + 1
            &&& fill.side == side
            &&& fill.size_usd == quotes.size
            &&& fill.price_usd == Double::of_int(tick as int).times(desk.cfg.tick_size)
        },
{
    reveal_with_fuel(Desk::caught_up, 2);
    assert(desk.pending.drop_first() =~= Seq::empty());
    law_a_trade_past_the_price_fills_what_was_left(desk, ts, price, size, side, answer);
    law_a_trade_fills_at_the_limit_of_the_order(desk, ts, price, size, side, answer);
}

/// Fills in whole numbers: `k` times the price is `k` of the coin. A purchase adds
/// them to the account and a sale takes them off, the position moves by the size,
/// and the fee is the rate of what was traded, whichever side it was.
pub proof fn law_whole_fills_are_booked_exactly(
    account: Account,
    ts: i64,
    side: Side,
    price: Double,
    size: Qty,
    rate: Double,
    p: int,
    k: int,
    r: int,
    cash: int,
    fees: int,
)
    requires
        1 <= p <= 0x400_0000,
        1 <= k <= 0x400_0000,
        -0x1_0000 <= r <= 0x1_0000,
        -BINADE <= r * (k * p) <= BINADE,
        -0x1000_0000_0000 <= cash <= 0x1000_0000_0000,
        -0x1000_0000_0000 <= fees <= 0x1000_0000_0000,
        price.is_int(p),
        size == k * p,
        rate.is_int(r),
        account.cash.is_int(cash),
        account.fees.is_int(fees),
    ensures
        ({
            let after = account.filled(ts, side, price, size, rate);
            &&& side == Side::Bid ==> after.cash.is_int(cash + k - r * k) && after.position
                == account.position + size
            &&& side == Side::Ask ==> after.cash.is_int(cash - k - r * k) && after.position
                == account.position - size
            &&& after.fees.is_int(fees + r * k)
        }),
{
    let n = k * p;
    let fee = crate::ledger::fee_of(price, size as int, rate);
    assert(1 <= n <= BINADE) by (nonlinear_arith)
        requires
            n == k * p,
            1 <= p <= 0x400_0000,
            1 <= k <= 0x400_0000,
            BINADE == 0x10_0000_0000_0000,
    ;
    assert(-0x400_0000_0000 <= r * k <= 0x400_0000_0000) by (nonlinear_arith)
        requires
            1 <= k <= 0x400_0000,
            -0x1_0000 <= r <= 0x1_0000,
    ;
    assert(r * (k * p) == (r * k) * p && (-k) * p == -(k * p)) by (nonlinear_arith);
    crate::order::lemma_of_int_exact(n);
    crate::order::lemma_of_int_exact(-n);
    crate::whole::lemma_times_of_ints(rate, Double::of_int(n), r, n);
    crate::whole::lemma_over_of_ints(rate.times(Double::of_int(n)), price, r * k, p);
    crate::whole::lemma_over_of_ints(Double::of_int(n), price, k, p);
    crate::whole::lemma_over_of_ints(Double::of_int(-n), price, -k, p);
    let bought = Double::of_int(n).over(price);
    let sold = Double::of_int(-n).over(price);
    crate::order::lemma_plus_of_ints(account.cash, bought, cash, k);
    crate::order::lemma_plus_of_ints(account.cash, sold, cash, -k);
    crate::order::lemma_minus_of_ints(account.cash.plus(bought), fee, cash + k, r * k);
    crate::order::lemma_minus_of_ints(account.cash.plus(sold), fee, cash - k, r * k);
    crate::order::lemma_plus_of_ints(account.fees, fee, fees, r * k);
}

/// An account in whole numbers is worth what it holds less what the position would
/// be bought back, or paid for, with: at the mark, `k` times the mark is `k`.
pub proof fn law_a_whole_account_is_worth_its_holdings_less_its_position(
    account: Account,
    mark: Double,
    m: int,
    k: int,
    cash: int,
)
    requires
        mark.is_int(m),
        1 <= m <= 2 * BINADE,
        account.position == k * m,
        -BINADE <= account.position <= BINADE,
        account.cash.is_int(cash),
        -BINADE <= cash <= BINADE,
    ensures
        account.worth(mark).is_int(cash - k),
{
    assert(-BINADE <= k <= BINADE) by (nonlinear_arith)
        requires
            -BINADE <= k * m <= BINADE,
            m >= 1,
    ;
    crate::order::lemma_of_int_exact(k * m);
    crate::whole::lemma_over_of_ints(Double::of_int(k * m), mark, k, m);
    crate::order::lemma_minus_of_ints(account.cash, Double::of_int(k * m).over(mark), cash, k);
}

proof fn lemma_bytes_differ(a: u64, b: u64)
    ensures
        vstd::bytes::spec_u64_to_le_bytes(a) == vstd::bytes::spec_u64_to_le_bytes(b) ==> a == b,
{
    vstd::bytes::lemma_auto_spec_u64_to_from_le_bytes();
}

proof fn lemma_casts_differ(a: i64, b: i64)
    ensures
        a as u64 == b as u64 ==> a == b,
{
    assert(a as u64 == b as u64 ==> a == b) by (bit_vector);
}

/// What is hashed tells fills apart: where it is the same, there are as many fills
/// on both sides, and each is of the same time, side, size and price.
pub proof fn law_what_is_hashed_tells_fills_apart(a: Seq<Fill>, b: Seq<Fill>)
    requires
        crate::desk::fill_bytes(a) == crate::desk::fill_bytes(b),
    ensures
        a.len() == b.len(),
        forall|i: int|
            0 <= i < a.len() ==> {
                &&& (#[trigger] a[i]).ts == b[i].ts
                &&& a[i].side == b[i].side
                &&& a[i].size_usd == b[i].size_usd
                &&& a[i].price_usd == b[i].price_usd
            },
    decreases a.len(),
{
    let x = crate::desk::fill_bytes(a);
    let y = crate::desk::fill_bytes(b);
    lemma_bytes_of_fills(a);
    lemma_bytes_of_fills(b);
    if a.len() > 0 {
        let f = a.last();
        let g = b.last();
        let n = x.len() - 4;
        let p = crate::desk::fill_bytes(a.drop_last());
        let q = crate::desk::fill_bytes(b.drop_last());
        assert(x.take(n) =~= p && y.take(n) =~= q);
        assert(x[n] == y[n] && x[n + 1] == y[n + 1] && x[n + 2] == y[n + 2] && x[n + 3] == y[n
            + 3]);
        lemma_bytes_differ(f.ts as u64, g.ts as u64);
        lemma_casts_differ(f.ts, g.ts);
        lemma_bytes_differ(f.size_usd as u64, g.size_usd as u64);
        lemma_casts_differ(f.size_usd, g.size_usd);
        lemma_bytes_differ(f.price_usd.bits, g.price_usd.bits);
        let s = seq![if f.side is Bid { 1u8 } else { 0u8 }];
        let t = seq![if g.side is Bid { 1u8 } else { 0u8 }];
        assert(s[0] == t[0]);
        law_what_is_hashed_tells_fills_apart(a.drop_last(), b.drop_last());
        assert forall|i: int| 0 <= i < a.len() implies {
            &&& (#[trigger] a[i]).ts == b[i].ts
            &&& a[i].side == b[i].side
            &&& a[i].size_usd == b[i].size_usd
            &&& a[i].price_usd == b[i].price_usd
        } by {
            if i < a.len() - 1 {
                assert(a.drop_last()[i] == a[i] && b.drop_last()[i] == b[i]);
            }
        }
    }
}

proof fn lemma_bytes_of_fills(a: Seq<Fill>)
    ensures
        crate::desk::fill_bytes(a).len() == 4 * a.len(),
    decreases a.len(),
{
    if a.len() > 0 {
        lemma_bytes_of_fills(a.drop_last());
    }
}

} // verus!
