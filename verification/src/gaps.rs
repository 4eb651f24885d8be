//! Detection of updates that were never delivered.
use vstd::prelude::*;

use crate::messages::BookMsg;

verus! {

#[derive(Debug, PartialEq, Eq, Clone, Copy, Structural)]
pub enum GapCheck {
    /// The message follows the previous one.
    Contiguous,
    /// A snapshot: the book starts again from here.
    Restart,
    /// Updates between `from` and `to` were never delivered.
    Missing { from: u64, to: u64 },
}

#[derive(Debug)]
pub struct GapDetector {
    last: Option<u64>,
}

/// What a message that names `prev` as its predecessor means after `last`.
pub open spec fn gap_check(last: Option<u64>, prev: Option<u64>) -> GapCheck {
    match (last, prev) {
        (Some(l), Some(p)) => if p == l {
            GapCheck::Contiguous
        } else {
            GapCheck::Missing { from: l, to: p }
        },
        _ => GapCheck::Restart,
    }
}

impl Default for GapDetector {
    fn default() -> (r: GapDetector)
        ensures
            r.seen() is None,
    {
        GapDetector { last: None }
    }
}

impl GapDetector {
    /// The id of the last message.
    pub closed spec fn seen(&self) -> Option<u64> {
        self.last
    }

    pub fn check(&mut self, msg: &BookMsg) -> (r: GapCheck)
        ensures
            r == gap_check(old(self).seen(), msg.prev_change_id),
            final(self).seen() == Some(msg.change_id),
    {
        let result = match (self.last, msg.prev_change_id) {
            (_, None) => GapCheck::Restart,
            (None, Some(_)) => GapCheck::Restart,
            (Some(last), Some(prev)) => if prev == last {
                GapCheck::Contiguous
            } else {
                GapCheck::Missing { from: last, to: prev }
            },
        };
        self.last = Some(msg.change_id);
        result
    }
}

/// What the message at `i` of a stream means.
pub open spec fn check_at(msgs: Seq<BookMsg>, i: int) -> GapCheck {
    gap_check(
        if i == 0 {
            None
        } else {
            Some(msgs[i - 1].change_id)
        },
        msgs[i].prev_change_id,
    )
}

/// A gap is reported exactly where a message names a predecessor that is not
/// the message before it, with the ids of both. So a stream in which every
/// message names the one before it has no gaps, and a snapshot, which names
/// none, starts anew.
pub proof fn law_gaps_are_where_the_ids_do_not_meet(msgs: Seq<BookMsg>, i: int)
    requires
        0 <= i < msgs.len(),
    ensures
        ({
            let check = check_at(msgs, i);
            let prev = msgs[i].prev_change_id;
            &&& check is Missing <==> i > 0 && prev is Some && prev->0 != msgs[i - 1].change_id
            &&& check is Contiguous <==> i > 0 && prev == Some(msgs[i - 1].change_id)
            &&& check matches GapCheck::Missing { from, to } ==> from == msgs[i - 1].change_id
                && prev == Some(to)
        }),
{
}

} // verus!
