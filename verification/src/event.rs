//! Market events and the instrument they are quoted in.
use vstd::prelude::*;

use crate::book::{Qty, Side, Tick};
use crate::double::Double;
use crate::text;

verus! {

/// Instrument metadata, read at run time from `public/get_instrument` and
/// pinned in the run manifest so a replay is reproducible.
#[derive(Debug, Clone, Copy)]
pub struct Instrument {
    pub tick_size: Double,
    pub contract_size: Double,
    pub maker_fee: Double,
    pub taker_fee: Double,
}

/// 0.5
pub const HALF_BITS: u64 = 0x3FE0_0000_0000_0000;

/// 10.0
pub const TEN_BITS: u64 = 0x4024_0000_0000_0000;

/// 1.5e-4
pub const MAKER_FEE_BITS: u64 = 0x3F23_A92A_3055_3261;

/// 3.5e-4
pub const TAKER_FEE_BITS: u64 = 0x3F36_F006_8DB8_BAC7;

impl Instrument {
    /// Values verified against public/get_instrument on 2026-09-22.
    pub fn btc_perpetual() -> (r: Self)
        ensures
            r.tick_size.bits == HALF_BITS,
            r.contract_size.bits == TEN_BITS,
            r.maker_fee.bits == MAKER_FEE_BITS,
            r.taker_fee.bits == TAKER_FEE_BITS,
            r.tick_size.is_half_of(1),
    {
        proof {
            lemma_half();
        }
        Self {
            tick_size: Double::from_bits(HALF_BITS),
            contract_size: Double::from_bits(TEN_BITS),
            maker_fee: Double::from_bits(MAKER_FEE_BITS),
            taker_fee: Double::from_bits(TAKER_FEE_BITS),
        }
    }

    /// The tick nearest to a price.
    pub open spec fn ticks(self, price: Double) -> Tick {
        rounded_i64(price.over(self.tick_size))
    }

    /// The price of a tick.
    pub open spec fn price(self, ticks: Tick) -> Double {
        Double::of_int(ticks as int).times(self.tick_size)
    }
}

/// The `i64` nearest to a number, halves away from zero.
pub open spec fn rounded_i64(x: Double) -> i64 {
    x.cast(x.round_int(), i64::MIN as int, i64::MAX as int) as i64
}

pub fn to_ticks(price: Double, inst: &Instrument) -> (r: Tick)
    ensures
        r == inst.ticks(price),
{
    price.div(inst.tick_size).round_i64()
}

pub fn from_ticks(ticks: Tick, inst: &Instrument) -> (r: Double)
    ensures
        r == inst.price(ticks),
{
    Double::from_i64(ticks).mul(inst.tick_size)
}

pub fn to_qty(amount: Double, _inst: &Instrument) -> (r: Qty)
    ensures
        r == rounded_i64(amount),
{
    amount.round_i64()
}

/// The book side that a taker's action consumes.
pub open spec fn consumed_side(direction: Seq<char>) -> Side {
    if direction == "buy"@ {
        Side::Ask
    } else {
        Side::Bid
    }
}

/// The book side a trade consumed. Deribit's `direction` is the taker's action.
pub fn taker_side(direction: &str) -> (r: Side)
    ensures
        r == consumed_side(direction@),
{
    if text::same(direction, "buy") {
        Side::Ask
    } else {
        Side::Bid
    }
}

/// One market event on the replay timeline.
#[derive(Debug, Clone)]
pub enum Event {
    Snapshot { ts: i64, bids: Vec<(Tick, Qty)>, asks: Vec<(Tick, Qty)> },
    Change { ts: i64, bids: Vec<(Tick, Qty)>, asks: Vec<(Tick, Qty)> },
    Trade {
        ts: i64,
        price: Tick,
        size: Qty,
        /// The book side consumed by the taker.
        side: Side,
    },
    Quote { ts: i64, bid: Option<(Tick, Qty)>, ask: Option<(Tick, Qty)> },
    /// A detected feed gap. Everything between the previous event and this one
    /// is unknown, so the simulator flattens and stands down until the next
    /// snapshot.
    Gap { ts: i64, missing_from: u64, missing_to: u64 },
}

/// An event as a value.
#[verifier::ext_equal]
pub enum EventView {
    Snapshot { ts: i64, bids: Seq<(Tick, Qty)>, asks: Seq<(Tick, Qty)> },
    Change { ts: i64, bids: Seq<(Tick, Qty)>, asks: Seq<(Tick, Qty)> },
    Trade { ts: i64, price: Tick, size: Qty, side: Side },
    Quote { ts: i64, bid: Option<(Tick, Qty)>, ask: Option<(Tick, Qty)> },
    Gap { ts: i64, missing_from: u64, missing_to: u64 },
}

impl EventView {
    pub open spec fn time(self) -> i64 {
        match self {
            EventView::Snapshot { ts, .. } => ts,
            EventView::Change { ts, .. } => ts,
            EventView::Trade { ts, .. } => ts,
            EventView::Quote { ts, .. } => ts,
            EventView::Gap { ts, .. } => ts,
        }
    }
}

impl View for Event {
    type V = EventView;

    open spec fn view(&self) -> EventView {
        match *self {
            Event::Snapshot { ts, bids, asks } => EventView::Snapshot {
                ts,
                bids: bids@,
                asks: asks@,
            },
            Event::Change { ts, bids, asks } => EventView::Change {
                ts,
                bids: bids@,
                asks: asks@,
            },
            Event::Trade { ts, price, size, side } => EventView::Trade { ts, price, size, side },
            Event::Quote { ts, bid, ask } => EventView::Quote { ts, bid, ask },
            Event::Gap { ts, missing_from, missing_to } => EventView::Gap {
                ts,
                missing_from,
                missing_to,
            },
        }
    }
}

/// Events as values.
pub open spec fn views(events: Seq<Event>) -> Seq<EventView> {
    events.map_values(|e: Event| e@)
}

impl Event {
    pub fn ts(&self) -> (r: i64)
        ensures
            r == self@.time(),
    {
        match self {
            Event::Snapshot { ts, .. } => *ts,
            Event::Change { ts, .. } => *ts,
            Event::Trade { ts, .. } => *ts,
            Event::Quote { ts, .. } => *ts,
            Event::Gap { ts, .. } => *ts,
        }
    }
}

proof fn lemma_half()
    ensures
        (Double { bits: HALF_BITS }).size() == vstd::arithmetic::power2::pow2(1073),
{
    let step = crate::rounding::BINADE as nat;
    vstd::arithmetic::power2::lemma2_to64();
    vstd::arithmetic::power2::lemma2_to64_rest();
    vstd::arithmetic::power2::lemma_pow2_adds(52, 1021);
    crate::rounding::lemma_units_of_binade(step, 1021);
}

/// Ticks survive the way to a price and back, for an instrument quoted in
/// halves.
pub proof fn law_ticks_convert_to_prices_and_back(inst: Instrument, ticks: Tick)
    requires
        inst.tick_size.bits == HALF_BITS,
        -0x20_0000_0000_0000 < ticks < 0x20_0000_0000_0000,
    ensures
        inst.ticks(inst.price(ticks)) == ticks,
{
    let t = Double::of_int(ticks as int);
    let half = inst.tick_size;
    let m = (if ticks < 0 {
        -ticks
    } else {
        ticks as int
    }) as nat;
    let unit = vstd::arithmetic::power2::pow2(1074);
    let low = vstd::arithmetic::power2::pow2(1073);
    vstd::arithmetic::power2::lemma_pow2_pos(1073);
    vstd::arithmetic::power2::lemma_pow2_pos(1074);
    vstd::arithmetic::power2::lemma_pow2_unfold(1074);
    lemma_half();
    crate::order::lemma_of_int(ticks as int);
    crate::order::lemma_of_int_exact(ticks as int);
    assert(t.size() == m * unit) by (nonlinear_arith)
        requires
            crate::double::signed_int(t.is_neg(), t.size()) == ticks * unit,
            t.is_neg() <==> ticks < 0,
            m == if ticks < 0 {
                -ticks
            } else {
                ticks as int
            },
            crate::double::signed_int(t.is_neg(), t.size()) == if t.is_neg() {
                -(t.size() as int)
            } else {
                t.size() as int
            },
    ;
    // The price is exact: half of the ticks.
    let price = inst.price(ticks);
    assert((m * unit) * low == (m * low) * unit && 1 * unit == unit) by (nonlinear_arith);
    crate::order::lemma_nearest_scale(m * low, 1, unit);
    crate::rounding::lemma_nearest_exact(m, 1073);
    let p = crate::rounding::nearest(m * low, 1);
    reveal(Double::times);
    crate::order::lemma_signed(ticks < 0, p);
    assert(price == crate::double::signed(ticks < 0, p));
    assert(price.size() == m * low);
    // And so is the way back.
    assert((m * low) * unit == (m * unit) * low && 1 * low == low) by (nonlinear_arith);
    crate::order::lemma_nearest_scale(m * unit, 1, low);
    crate::rounding::lemma_nearest_exact(m, 1074);
    let q = crate::rounding::nearest(m * unit, 1);
    reveal(Double::over);
    crate::order::lemma_signed(ticks < 0, q);
    let back = price.over(half);
    assert(back == crate::double::signed(ticks < 0, q));
    assert(back.size() == m * unit);
    assert((2 * (m * unit) + unit) / (2 * unit) == m) by {
        assert(2 * (m * unit) + unit == m * (2 * unit) + unit) by (nonlinear_arith);
        vstd::arithmetic::div_mod::lemma_fundamental_div_mod_converse(
            (2 * (m * unit) + unit) as int,
            (2 * unit) as int,
            m as int,
            unit as int,
        );
    }
}

} // verus!
