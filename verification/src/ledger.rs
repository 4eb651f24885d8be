//! Book-keeping of fills in an inverse contract.
use vstd::prelude::*;

use crate::book::{Qty, Side};
use crate::double::Double;

verus! {

#[derive(Debug, Clone, Copy)]
pub struct Fill {
    pub ts: i64,
    pub side: Side,
    pub price_usd: Double,
    pub size_usd: Qty,
    pub fee_btc: Double,
}

/// Inverse-contract book-keeping. `cash_btc` is not a cash balance: it is the
/// accumulated `size / price` of every fill, signed by direction. Equity falls
/// out as `cash_btc - position_usd / mark`.
#[derive(Debug, Clone)]
pub struct Ledger {
    pub cash_btc: Double,
    pub position_usd: Qty,
    pub fees_btc: Double,
    pub fills: Vec<Fill>,
}

/// What a ledger holds.
#[verifier::ext_equal]
pub struct Account {
    pub cash: Double,
    pub position: int,
    pub fees: Double,
    pub fills: Seq<Fill>,
}

impl View for Ledger {
    type V = Account;

    open spec fn view(&self) -> Account {
        Account {
            cash: self.cash_btc,
            position: self.position_usd as int,
            fees: self.fees_btc,
            fills: self.fills@,
        }
    }
}

/// A size with the sign of its direction: bought is positive.
pub open spec fn directed(side: Side, size: int) -> int {
    match side {
        Side::Bid => size,
        Side::Ask => -size,
    }
}

/// The fee on a fill.
pub open spec fn fee_of(price: Double, size: int, rate: Double) -> Double {
    rate.times(Double::of_int(size)).over(price)
}

impl Account {
    pub open spec fn empty() -> Account {
        Account {
            cash: Double::of_int(0),
            position: 0,
            fees: Double::of_int(0),
            fills: Seq::empty(),
        }
    }

    /// Whether the position after a fill is still a quantity.
    pub open spec fn bears(self, side: Side, size: Qty) -> bool {
        &&& directed(side, size as int) <= i64::MAX
        &&& i64::MIN <= self.position + directed(side, size as int) <= i64::MAX
    }

    pub open spec fn filled(
        self,
        ts: i64,
        side: Side,
        price: Double,
        size: Qty,
        rate: Double,
    ) -> Account {
        let fee = fee_of(price, size as int, rate);
        Account {
            cash: self.cash.plus(Double::of_int(directed(side, size as int)).over(price)).minus(
                fee,
            ),
            position: self.position + directed(side, size as int),
            fees: self.fees.plus(fee),
            fills: self.fills.push(
                Fill { ts, side, price_usd: price, size_usd: size, fee_btc: fee },
            ),
        }
    }

    /// What the account is worth, in BTC, when the price is `mark`.
    pub open spec fn worth(self, mark: Double) -> Double {
        self.cash.minus(Double::of_int(self.position).over(mark))
    }
}

impl Default for Ledger {
    fn default() -> (r: Self)
        ensures
            r@ == Account::empty(),
    {
        Self {
            cash_btc: Double::zero(),
            position_usd: 0,
            fees_btc: Double::zero(),
            fills: Vec::new(),
        }
    }
}

impl Ledger {
    /// Whether the position after a fill is still a quantity.
    pub fn can_fill(&self, side: Side, size_usd: Qty) -> (r: bool)
        ensures
            r == self@.bears(side, size_usd),
    {
        let signed: i128 = match side {
            Side::Bid => size_usd as i128,
            Side::Ask => -(size_usd as i128),
        };
        let position: i128 = self.position_usd as i128 + signed;
        signed <= i64::MAX as i128 && i64::MIN as i128 <= position && position <= i64::MAX as i128
    }

    pub fn on_fill(
        &mut self,
        ts: i64,
        side: Side,
        price_usd: Double,
        size_usd: Qty,
        fee_rate: Double,
    )
        requires
            old(self)@.bears(side, size_usd),
        ensures
            final(self)@ == old(self)@.filled(ts, side, price_usd, size_usd, fee_rate),
    {
        let signed: Qty = match side {
            Side::Bid => size_usd,
            Side::Ask => -size_usd,
        };
        self.position_usd = self.position_usd + signed;
        let paid: Double = Double::from_i64(signed).div(price_usd);
        let fee_btc: Double = fee_rate.mul(Double::from_i64(size_usd)).div(price_usd);
        self.cash_btc = self.cash_btc.add(paid).sub(fee_btc);
        self.fees_btc = self.fees_btc.add(fee_btc);
        self.fills.push(Fill { ts, side, price_usd, size_usd, fee_btc });
    }

    pub fn equity_btc(&self, mark_usd: Double) -> (r: Double)
        ensures
            r == self@.worth(mark_usd),
    {
        self.cash_btc.sub(Double::from_i64(self.position_usd).div(mark_usd))
    }

    pub fn equity_usd(&self, mark_usd: Double) -> (r: Double)
        ensures
            r == self@.worth(mark_usd).times(mark_usd),
            mark_usd == Double::of_int(1) && self@.worth(mark_usd).is_finite() ==> r == self@.worth(
                mark_usd,
            ),
    {
        proof {
            if self@.worth(mark_usd).is_finite() {
                crate::order::lemma_times_one(self@.worth(mark_usd));
            }
        }
        self.equity_btc(mark_usd).mul(mark_usd)
    }
}

/// A price: a positive finite number.
pub open spec fn is_price(p: Double) -> bool {
    p.non_negative() && p.is_finite() && p.pattern() > 0
}

/// A long position never loses BTC as the price rises, nor a short one as it
/// falls.
pub proof fn law_equity_follows_the_price(account: Account, low: Double, high: Double)
    requires
        account.cash.is_finite(),
        -0x8000_0000_0000_0000 <= account.position <= 0x7FFF_FFFF_FFFF_FFFF,
        is_price(low),
        is_price(high),
        low.at_most(high),
        Double::of_int(account.position).over(low).is_finite(),
    ensures
        account.position >= 0 ==> account.worth(low).at_most(account.worth(high)),
        account.position <= 0 ==> account.worth(high).at_most(account.worth(low)),
{
    let n = account.position;
    let x = Double::of_int(n).over(low);
    let y = Double::of_int(n).over(high);
    crate::order::lemma_of_int(n);
    if n >= 0 {
        crate::order::lemma_over_antitone(Double::of_int(n), low, high);
        crate::order::lemma_minus_monotone(account.cash, y, x);
        if n == 0 {
            crate::order::lemma_zero_over(low);
            crate::order::lemma_zero_over(high);
        }
    } else {
        let m = Double::of_int(-n);
        crate::order::lemma_of_int(-n);
        crate::order::lemma_of_int_negated(-n);
        crate::order::lemma_over_antitone(m, low, high);
        crate::order::lemma_over_negated(m, low);
        crate::order::lemma_over_negated(m, high);
        crate::order::lemma_negated(m.over(low));
        crate::order::lemma_negated(m.over(high));
        crate::order::lemma_minus_monotone(account.cash, x, y);
    }
}

/// Buying and selling one size at one price, without a fee, leaves an empty
/// account with nothing gained or lost.
pub proof fn law_a_round_trip_without_fees_costs_nothing(
    buy: i64,
    sell: i64,
    price: Double,
    size: Qty,
    mark: Double,
)
    requires
        is_price(price),
        is_price(mark),
        0 < size,
        Double::of_int(size as int).over(price).is_finite(),
    ensures
        ({
            let zero = Double::of_int(0);
            let after = Account::empty().filled(buy, Side::Bid, price, size, zero).filled(
                sell,
                Side::Ask,
                price,
                size,
                zero,
            );
            &&& after.position == 0
            &&& after.fees == zero
            &&& after.worth(mark) == zero
        }),
{
    let zero = Double::of_int(0);
    let s = Double::of_int(size as int);
    let x = s.over(price);
    crate::order::lemma_of_int(0);
    crate::order::lemma_of_int(size as int);
    crate::order::lemma_of_int_negated(size as int);
    crate::order::lemma_over_antitone(s, price, price);
    crate::order::lemma_over_negated(s, price);
    crate::order::lemma_negated(x);
    crate::order::lemma_times_zero(s);
    crate::order::lemma_times_commutes(s, zero);
    crate::order::lemma_zero_over(price);
    crate::order::lemma_zero_over(mark);
    crate::order::lemma_minus_zero(zero);
    crate::order::lemma_minus_zero(x);
    crate::order::lemma_plus(zero, x);
    crate::order::lemma_plus(zero, zero);
    crate::order::lemma_plus(x, x.negated());
    crate::order::lemma_rounded_value(x);
    assert(crate::rounding::units(0) == 0);
    assert(crate::double::rounded(0, false) == zero);
}

/// What was paid in fees is the sum of what each fill was charged, and every
/// fill is kept.
pub proof fn law_every_fill_is_charged_and_kept(
    account: Account,
    ts: i64,
    side: Side,
    price: Double,
    size: Qty,
    rate: Double,
)
    ensures
        ({
            let after = account.filled(ts, side, price, size, rate);
            &&& after.fees == account.fees.plus(after.fills.last().fee_btc)
            &&& after.fills.drop_last() == account.fills
            &&& after.position - account.position == directed(side, size as int)
        }),
{
    let after = account.filled(ts, side, price, size, rate);
    assert(after.fills.drop_last() =~= account.fills);
}

} // verus!
