//! Messages of the feed, as decoded from one recorded line each.
use vstd::prelude::*;

use crate::double::Double;
use crate::text;

verus! {

/// One entry of a book update: ("new" | "change" | "delete", price, amount).
pub type BookEntry = (String, Double, Double);

#[derive(Debug)]
pub struct Notification {
    pub params: NotificationParams,
}

#[derive(Debug)]
pub struct NotificationParams {
    pub channel: String,
    pub data: Payload,
}

/// The data of a notification, read as what its channel carries.
#[derive(Debug)]
pub enum Payload {
    Book(BookMsg),
    Trades(Vec<TradeMsg>),
    Quote(QuoteMsg),
    /// Data that does not have the shape its channel asks for, or that of a
    /// channel nobody reads.
    Unreadable,
}

#[derive(Debug)]
pub struct BookMsg {
    pub kind: String,
    pub timestamp: i64,
    pub change_id: u64,
    pub prev_change_id: Option<u64>,
    pub bids: Vec<BookEntry>,
    pub asks: Vec<BookEntry>,
}

#[derive(Debug)]
pub struct TradeMsg {
    pub trade_seq: u64,
    pub timestamp: i64,
    pub price: Double,
    pub amount: Double,
    /// "buy" means the taker bought, so a resting ask was consumed.
    pub direction: String,
}

#[derive(Debug)]
pub struct QuoteMsg {
    pub timestamp: i64,
    pub best_bid_price: Option<Double>,
    pub best_bid_amount: Double,
    pub best_ask_price: Option<Double>,
    pub best_ask_amount: Double,
}

/// What a channel carries.
#[derive(Clone, Copy, Debug, PartialEq, Eq, Structural)]
pub enum Channel {
    Book,
    Trades,
    Quote,
    Other,
}

/// What the name of a channel says it carries.
pub open spec fn carried(name: Seq<char>) -> Channel {
    if "book."@.is_prefix_of(name) {
        Channel::Book
    } else if "trades."@.is_prefix_of(name) {
        Channel::Trades
    } else if "quote."@.is_prefix_of(name) {
        Channel::Quote
    } else {
        Channel::Other
    }
}

pub fn channel_of(name: &str) -> (r: Channel)
    ensures
        r == carried(name@),
{
    if text::starts_with(name, "book.") {
        Channel::Book
    } else if text::starts_with(name, "trades.") {
        Channel::Trades
    } else if text::starts_with(name, "quote.") {
        Channel::Quote
    } else {
        Channel::Other
    }
}

} // verus!
