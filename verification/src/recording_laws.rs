//! Which files are recordings, in which order they are read, and when a day is
//! whole.
use vstd::prelude::*;

use crate::recording::Recording;

verus! {

/// A file is a recording exactly where its name begins with `raw-` and ends in
/// `.jsonl.zst`; whatever stands between the two does not matter.
pub proof fn law_a_recording_is_known_by_both_ends_of_its_name(name: Seq<char>, middle: Seq<char>)
    ensures
        crate::recording::is_recording("raw-"@ + middle + ".jsonl.zst"@),
        crate::recording::is_recording(name) ==> {
            &&& name.len() >= 10
            &&& name.take(4) == "raw-"@
            &&& name.skip(name.len() - 10) == ".jsonl.zst"@
        },
{
    reveal_strlit("raw-");
    reveal_strlit(".jsonl.zst");
    let made = "raw-"@ + middle + ".jsonl.zst"@;
    assert(made.subrange(0, 4) =~= "raw-"@);
    assert(made.subrange(made.len() - 10, made.len() as int) =~= ".jsonl.zst"@);
    if crate::recording::is_recording(name) {
        assert(name.take(4) =~= "raw-"@);
        assert(name.skip(name.len() - 10) =~= ".jsonl.zst"@);
    }
}

/// The file of every hour is a recording, and it is that of its hour.
pub proof fn law_the_file_of_an_hour_is_a_recording(hour: i64)
    ensures
        crate::recording::is_recording(crate::recorder::name_of_hour(hour as int)),
        crate::recording::hour_in(crate::recorder::name_of_hour(hour as int)) is Some,
        crate::recorder::name_of_hour(
            crate::recording::hour_in(crate::recorder::name_of_hour(hour as int))->0 as int,
        ) == crate::recorder::name_of_hour(hour as int),
{
    let middle = crate::recorder::decimal(hour as int);
    law_a_recording_is_known_by_both_ends_of_its_name(
        crate::recorder::name_of_hour(hour as int),
        middle,
    );
}

/// Recordings are read in the order of their hours, and those of no hour last.
pub proof fn law_recordings_are_read_in_the_order_of_their_hours(
    recordings: Seq<Recording>,
    i: int,
    j: int,
)
    requires
        crate::sort::in_order(recordings),
        0 <= i < j < recordings.len(),
    ensures
        recordings[i].hour is None ==> recordings[j].hour is None,
        recordings[i].hour matches Some(a) ==> recordings[j].hour matches Some(b) ==> a <= b,
{
    assert(crate::sort::Keyed::key(&recordings[i]) <= crate::sort::Keyed::key(&recordings[j]));
}

/// There is a recording of the hour.
pub open spec fn recorded_at(recordings: Seq<Recording>, hour: int) -> bool {
    exists|i: int|
        0 <= i < recordings.len() && (#[trigger] recordings[i]).hour is Some
            && recordings[i].hour->0 == hour
}

/// A day is whole exactly where each of its twenty-four hours has a recording.
pub proof fn law_a_whole_day_misses_no_hour(recordings: Seq<Recording>, day: int)
    ensures
        crate::recording::covers(recordings, day) <==> forall|hour: int|
            24 * day <= hour < 24 * (day + 1) ==> #[trigger] recorded_at(recordings, hour),
{
    if crate::recording::covers(recordings, day) {
        assert forall|hour: int| 24 * day <= hour < 24 * (day + 1) implies #[trigger] recorded_at(
            recordings,
            hour,
        ) by {
            let k = hour - 24 * day;
            assert(crate::recording::has_hour(recordings, 24 * day + k));
        }
    }
    if forall|hour: int|
        24 * day <= hour < 24 * (day + 1) ==> #[trigger] recorded_at(recordings, hour) {
        assert forall|k: int| 0 <= k < 24 implies crate::recording::has_hour(
            recordings,
            #[trigger] (24 * day + k),
        ) by {
            assert(recorded_at(recordings, 24 * day + k));
        }
    }
}

/// A line feed ends a line, with or without a carriage return before it; the rest of the
/// text is read as a text of its own.
pub proof fn law_a_line_feed_ends_a_line(line: Seq<char>, rest: Seq<char>)
    requires
        !line.contains('\n'),
        line.len() > 0 ==> line.last() != '\r',
    ensures
        crate::recording::lines(line.push('\n') + rest) == seq![line] + crate::recording::lines(
            rest,
        ),
        crate::recording::lines(line.push('\r').push('\n') + rest) == seq![line]
            + crate::recording::lines(rest),
{
    let plain = line.push('\n') + rest;
    let returned = line.push('\r').push('\n') + rest;
    let n = line.len() as int;
    assert forall|i: int| 0 <= i < n implies line[i] != '\n' by {
        assert(line.contains(line[i]));
    }
    lemma_length(plain, n as nat);
    lemma_length(returned, (n + 1) as nat);
    assert(plain.take(n) =~= line);
    assert(plain.skip(n + 1) =~= rest);
    assert(returned.take(n + 1) =~= line.push('\r'));
    assert(returned.skip(n + 2) =~= rest);
    assert(line.push('\r').drop_last() =~= line);
}

proof fn lemma_length(text: Seq<char>, n: nat)
    requires
        n < text.len(),
        forall|i: int| 0 <= i < n ==> text[i] != '\n',
        text[n as int] == '\n',
    ensures
        crate::recording::line_len(text) == n,
    decreases text.len(),
{
    if n > 0 {
        let rest = text.drop_first();
        assert forall|i: int| 0 <= i < n - 1 implies rest[i] != '\n' by {
            assert(rest[i] == text[i + 1]);
        }
        lemma_length(rest, (n - 1) as nat);
    }
}

} // verus!
