//! What the recorder does about a frame, a message and the end of a session.
use vstd::prelude::*;

use crate::messages::{Channel, Notification, Payload};
use crate::session::{Ending, Frame, Reaction, Step};

verus! {

proof fn lemma_prefix(prefix: Seq<char>, a: Seq<char>, b: Seq<char>)
    requires
        a == prefix + b,
    ensures
        prefix.is_prefix_of(a),
{
    assert(a.subrange(0, prefix.len() as int) =~= prefix);
}

/// A name that begins with one word does not begin with another whose first letter
/// differs.
proof fn lemma_other_prefix(prefix: Seq<char>, other: Seq<char>, a: Seq<char>)
    requires
        prefix.is_prefix_of(a),
        prefix.len() > 0,
        other.len() > 0,
        prefix[0] != other[0],
    ensures
        !other.is_prefix_of(a),
{
    if other.is_prefix_of(a) {
        assert(a[0] == other[0]);
        assert(a[0] == prefix[0]);
    }
}

/// The channels that are subscribed to are those that are read: the book, the
/// trades and the quotes of the instrument, in that order, whatever its name.
pub proof fn law_what_is_subscribed_is_read(instrument: Seq<char>, interval: Seq<char>)
    ensures
        ({
            let names = crate::session::channel_names(instrument, interval);
            &&& names.len() == 3
            &&& crate::messages::carried(names[0]) == Channel::Book
            &&& crate::messages::carried(names[1]) == Channel::Trades
            &&& crate::messages::carried(names[2]) == Channel::Quote
            &&& names[0] == "book."@ + instrument + "."@ + interval
            &&& names[1] == "trades."@ + instrument + "."@ + interval
            &&& names[2] == "quote."@ + instrument
        }),
{
    let names = crate::session::channel_names(instrument, interval);
    reveal_strlit("book.");
    reveal_strlit("trades.");
    reveal_strlit("quote.");
    assert(names[0] =~= "book."@ + (instrument + "."@ + interval));
    assert(names[1] =~= "trades."@ + (instrument + "."@ + interval));
    lemma_prefix("book."@, names[0], instrument + "."@ + interval);
    lemma_prefix("trades."@, names[1], instrument + "."@ + interval);
    lemma_prefix("quote."@, names[2], instrument);
    lemma_other_prefix("trades."@, "book."@, names[1]);
    lemma_other_prefix("quote."@, "book."@, names[2]);
    lemma_other_prefix("quote."@, "trades."@, names[2]);
}

/// Only a text is recorded and only a ping is sent back. A session ends where the
/// socket does or the operator wants it to, and only the operator ends it for
/// good.
pub proof fn law_a_frame_is_recorded_answered_or_the_last(frame: Frame)
    ensures
        ({
            let step = crate::session::step_for(frame);
            &&& step == Step::Record <==> frame == Frame::Text
            &&& step == Step::Pong <==> frame == Frame::Ping
            &&& step is Finish <==> frame == Frame::Close || frame == Frame::Ended || frame
                == Frame::Interrupted
            &&& step == Step::Finish(Ending::Interrupted) <==> frame == Frame::Interrupted
            &&& step != Step::Finish(Ending::Failed)
        }),
{
}

/// Each wait is twice as long as the one before until that would be more than a
/// minute, and then a minute.
pub proof fn law_waits_double_up_to_a_minute(secs: u64)
    requires
        1 <= secs <= 60,
    ensures
        secs <= 30 ==> crate::session::longer(secs) == 2 * secs,
        secs > 30 ==> crate::session::longer(secs) == 60,
        secs <= crate::session::longer(secs) <= 60,
{
}

/// A book message asks for a fresh book exactly where it names a predecessor that
/// is not the last message that was seen, with both ids. A text that is no
/// notification is answered exactly where it holds a test request. Other channels
/// ask for nothing.
pub proof fn law_only_a_missed_update_asks_for_the_book(
    last: Option<u64>,
    text: Seq<char>,
    note: Notification,
)
    ensures
        ({
            let reaction = crate::session::reaction(last, text, Some(note));
            let book = crate::messages::carried(note.params.channel@) == Channel::Book;
            &&& !book ==> reaction == Reaction::Carry
            &&& book ==> match note.params.data {
                Payload::Book(msg) => {
                    let missed = last is Some && msg.prev_change_id is Some && last
                        != msg.prev_change_id;
                    &&& missed ==> reaction == (Reaction::Resync {
                        timestamp: msg.timestamp,
                        from: last->0,
                        to: msg.prev_change_id->0,
                    })
                    &&& !missed ==> reaction == Reaction::Carry
                },
                _ => reaction == Reaction::Fail,
            }
        }),
        crate::session::reaction(last, text, None) == if crate::text::occurs(
            "test_request"@,
            text,
        ) {
            Reaction::Answer
        } else {
            Reaction::Carry
        },
{
}

/// After a book message that one is the last; nothing else moves it. So two book
/// messages of which the second names the first ask for nothing.
pub proof fn law_a_message_that_names_the_last_one_asks_for_nothing(
    before: Option<u64>,
    first: Notification,
    second: Notification,
    text: Seq<char>,
)
    requires
        crate::messages::carried(first.params.channel@) == Channel::Book,
        crate::messages::carried(second.params.channel@) == Channel::Book,
        first.params.data is Book,
        second.params.data is Book,
        second.params.data->Book_0.prev_change_id == Some(first.params.data->Book_0.change_id),
    ensures
        crate::session::reaction(crate::session::last_seen(before, Some(first)), text, Some(second))
            == Reaction::Carry,
        crate::session::last_seen(before, None) == before,
{
}

} // verus!
