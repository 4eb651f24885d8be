//! What the recorder decides between two messages.
use vstd::prelude::*;

use crate::gaps::{GapCheck, GapDetector};
use crate::messages::{channel_of, Channel, Notification, Payload};
use crate::recorder::push_digits;
use crate::text;

verus! {

/// The channels of an instrument: its book, its trades and its quotes.
pub open spec fn channel_names(instrument: Seq<char>, interval: Seq<char>) -> Seq<Seq<char>> {
    seq![
        "book."@ + instrument + "."@ + interval,
        "trades."@ + instrument + "."@ + interval,
        "quote."@ + instrument,
    ]
}

/// The channels to subscribe to.
pub fn channels(instrument: &str, interval: &str) -> (r: Vec<String>)
    ensures
        crate::recording::texts(r@) == channel_names(instrument@, interval@),
{
    let mut book: String = String::new();
    book.append("book.");
    book.append(instrument);
    book.append(".");
    book.append(interval);
    let mut trades: String = String::new();
    trades.append("trades.");
    trades.append(instrument);
    trades.append(".");
    trades.append(interval);
    let mut quote: String = String::new();
    quote.append("quote.");
    quote.append(instrument);
    assert(book@ =~= "book."@ + instrument@ + "."@ + interval@);
    assert(trades@ =~= "trades."@ + instrument@ + "."@ + interval@);
    assert(quote@ =~= "quote."@ + instrument@);
    let all: Vec<String> = vec![book, trades, quote];
    assert(crate::recording::texts(all@) =~= channel_names(instrument@, interval@));
    all
}

/// The query for a snapshot of the book.
pub fn snapshot_query(instrument: &str, depth: u64) -> (r: String)
    ensures
        r@ == "?instrument_name="@ + instrument@ + "&depth="@ + crate::recorder::digits(
            depth as nat,
        ),
{
    let mut out: String = String::new();
    out.append("?instrument_name=");
    out.append(instrument);
    out.append("&depth=");
    push_digits(&mut out, depth);
    assert(out@ =~= "?instrument_name="@ + instrument@ + "&depth="@ + crate::recorder::digits(
        depth as nat,
    ));
    out
}

/// After a session that lasted longer than this, the waits start anew.
pub const STEADY_NS: u128 = 60_000_000_000;

/// The longest time to wait before reconnecting, in seconds.
pub const MAX_WAIT_SECS: u64 = 60;

/// Why a session ended: a closed socket and a failure are reconnected, an
/// interrupt is not.
#[derive(Debug, Clone, Copy, PartialEq, Eq, Structural)]
pub enum Ending {
    Closed,
    Interrupted,
    Failed,
}

/// What the socket, or the operator, has for us.
#[derive(Debug, Clone, Copy, PartialEq, Eq, Structural)]
pub enum Frame {
    Text,
    Ping,
    Close,
    /// A frame of another kind.
    Other,
    /// There are no more frames.
    Ended,
    /// The operator wants to stop.
    Interrupted,
}

/// What to do with a frame.
#[derive(Debug, Clone, Copy, PartialEq, Eq, Structural)]
pub enum Step {
    /// Record it, then see what it asks for.
    Record,
    /// Send it back.
    Pong,
    Skip,
    /// Finish the open file and end the session. A recorder that is killed
    /// mid-frame leaves a file that ends in the middle of one, so an interrupt
    /// finishes it too.
    Finish(Ending),
}

pub open spec fn step_for(frame: Frame) -> Step {
    match frame {
        Frame::Text => Step::Record,
        Frame::Ping => Step::Pong,
        Frame::Other => Step::Skip,
        Frame::Close => Step::Finish(Ending::Closed),
        Frame::Ended => Step::Finish(Ending::Closed),
        Frame::Interrupted => Step::Finish(Ending::Interrupted),
    }
}

pub fn step(frame: Frame) -> (r: Step)
    ensures
        r == step_for(frame),
{
    match frame {
        Frame::Text => Step::Record,
        Frame::Ping => Step::Pong,
        Frame::Other => Step::Skip,
        Frame::Close | Frame::Ended => Step::Finish(Ending::Closed),
        Frame::Interrupted => Step::Finish(Ending::Interrupted),
    }
}

/// Twice as long a wait, up to the longest.
pub open spec fn longer(secs: u64) -> int {
    if 2 * secs <= MAX_WAIT_SECS {
        2 * secs
    } else {
        MAX_WAIT_SECS as int
    }
}

/// How long to wait before reconnecting.
#[derive(Debug)]
pub struct Backoff {
    secs: u64,
}

impl Backoff {
    /// The seconds that the next wait takes, unless the session was a long one.
    pub closed spec fn wait(&self) -> u64 {
        self.secs
    }

    #[verifier::type_invariant]
    spec fn bounded(&self) -> bool {
        1 <= self.secs <= MAX_WAIT_SECS
    }

    /// The seconds to wait after a session that lasted `lasted_ns`.
    pub open spec fn due(&self, lasted_ns: u128) -> u64 {
        if lasted_ns > STEADY_NS {
            1
        } else {
            self.wait()
        }
    }

    pub fn new() -> (r: Self)
        ensures
            r.wait() == 1,
    {
        Backoff { secs: 1 }
    }

    /// A session that lasted `lasted_ns` has ended. Returns the seconds to wait
    /// before the next one, none if there is to be no other. Each wait is twice
    /// the one before, up to a minute.
    pub fn after_session(&mut self, ending: Ending, lasted_ns: u128) -> (r: Option<u64>)
        ensures
            r matches Some(secs) ==> 1 <= secs <= MAX_WAIT_SECS,
            ending is Interrupted ==> r is None && *final(self) == *old(self),
            !(ending is Interrupted) ==> r == Some(old(self).due(lasted_ns))
                && final(self).wait() == longer(old(self).due(lasted_ns)),
            r matches Some(secs) ==> {
                &&& secs == if lasted_ns > 60 * 1_000_000_000 {
                    1
                } else {
                    old(self).wait()
                }
                &&& final(self).wait() == if secs <= 30 {
                    2 * secs
                } else {
                    60
                }
            },
    {
        proof {
            use_type_invariant(&*self);
        }
        match ending {
            Ending::Interrupted => None,
            _ => {
                if lasted_ns > STEADY_NS {
                    self.secs = 1;
                }
                let now: u64 = self.secs;
                self.secs = if 2 * now <= MAX_WAIT_SECS {
                    2 * now
                } else {
                    MAX_WAIT_SECS
                };
                Some(now)
            },
        }
    }
}

/// When to record a snapshot of the book over REST. Times are counted in
/// nanoseconds from any one moment.
#[derive(Debug)]
pub struct RestTimer {
    every_secs: u64,
    next_ns: u128,
}

impl RestTimer {
    pub closed spec fn every(&self) -> u64 {
        self.every_secs
    }

    pub closed spec fn next(&self) -> u128 {
        self.next_ns
    }

    /// A timer that is due at once, or never if `every_secs` is zero.
    pub fn new(every_secs: u64, now_ns: u128) -> (r: Self)
        ensures
            r.every() == every_secs,
            r.next() == now_ns,
    {
        RestTimer { every_secs, next_ns: now_ns }
    }

    /// Whether a snapshot is due; if so, the next one is due `every_secs` later.
    pub fn is_due(&mut self, now_ns: u128) -> (r: bool)
        requires
            now_ns + old(self).every() * 1_000_000_000 <= u128::MAX,
        ensures
            r == (old(self).every() > 0 && now_ns >= old(self).next()),
            final(self).every() == old(self).every(),
            final(self).next() == if r {
                now_ns + old(self).every() * 1_000_000_000
            } else {
                old(self).next() as int
            },
    {
        if self.every_secs > 0 && now_ns >= self.next_ns {
            self.next_ns = now_ns + self.every_secs as u128 * 1_000_000_000;
            true
        } else {
            false
        }
    }
}

/// What a recorded text asks for.
#[derive(Debug, Clone, Copy, PartialEq, Eq, Structural)]
pub enum Reaction {
    /// Nothing.
    Carry,
    /// The exchange wants to know whether we are there.
    Answer,
    /// Updates were missed: note the gap and fetch the book.
    Resync { timestamp: i64, from: u64, to: u64 },
    /// A book message that cannot be read: the session ends.
    Fail,
}

/// What a text asks for, where `note` is the notification it holds, if it holds
/// one, and `last` the id of the last book message.
pub open spec fn reaction(
    last: Option<u64>,
    text: Seq<char>,
    note: Option<Notification>,
) -> Reaction {
    match note {
        // Heartbeats and RPC replies are not notifications.
        None => if crate::text::occurs("test_request"@, text) {
            Reaction::Answer
        } else {
            Reaction::Carry
        },
        Some(note) => if crate::messages::carried(note.params.channel@) != Channel::Book {
            Reaction::Carry
        } else {
            match note.params.data {
                Payload::Book(msg) => match crate::gaps::gap_check(last, msg.prev_change_id) {
                    GapCheck::Missing { from, to } => Reaction::Resync {
                        timestamp: msg.timestamp,
                        from,
                        to,
                    },
                    _ => Reaction::Carry,
                },
                _ => Reaction::Fail,
            }
        },
    }
}

/// The id of the last book message after a text.
pub open spec fn last_seen(last: Option<u64>, note: Option<Notification>) -> Option<u64> {
    match note {
        Some(note) => match note.params.data {
            Payload::Book(msg) if crate::messages::carried(note.params.channel@)
                == Channel::Book => Some(msg.change_id),
            _ => last,
        },
        None => last,
    }
}

/// Takes a text that has been recorded, with the notification it holds, if it
/// holds one, and says what it asks for.
pub fn react(gaps: &mut GapDetector, text: &str, note: &Option<Notification>) -> (r: Reaction)
    ensures
        r == reaction(old(gaps).seen(), text@, *note),
        final(gaps).seen() == last_seen(old(gaps).seen(), *note),
{
    match note {
        None => if text::contains(text, "test_request") {
            Reaction::Answer
        } else {
            Reaction::Carry
        },
        Some(note) => {
            if !(channel_of(note.params.channel.as_str()) == Channel::Book) {
                return Reaction::Carry;
            }
            match &note.params.data {
                Payload::Book(msg) => match gaps.check(msg) {
                    GapCheck::Missing { from, to } => Reaction::Resync {
                        timestamp: msg.timestamp,
                        from,
                        to,
                    },
                    _ => Reaction::Carry,
                },
                _ => Reaction::Fail,
            }
        },
    }
}

} // verus!
