//! What a run of the recorder leaves on disk.
use vstd::prelude::*;

use crate::recorder::{OpenFile, Written};

verus! {

/// Files by name, and the one that is being written.
#[verifier::ext_equal]
pub ghost struct Disk {
    pub files: Map<Seq<char>, Seq<u8>>,
    pub open: Option<Seq<char>>,
}

impl Disk {
    pub open spec fn empty() -> Disk {
        Disk { files: Map::empty(), open: None }
    }

    /// Bytes go behind what stands in the open file.
    pub open spec fn appended(self, bytes: Seq<u8>) -> Disk {
        match self.open {
            Some(name) => Disk { files: self.files.insert(name, self.files[name] + bytes), ..self },
            None => self,
        }
    }

    /// The open file is ended, if there are bytes to end it with.
    pub open spec fn closed(self, closing: Option<Seq<u8>>) -> Disk {
        match closing {
            Some(bytes) => self.appended(bytes),
            None => self,
        }
    }

    /// Another file is started, if there is one to start.
    pub open spec fn started(self, start: Option<Seq<char>>) -> Disk {
        match start {
            Some(name) => Disk {
                files: self.files.insert(name, Seq::empty()),
                open: Some(name),
            },
            None => self,
        }
    }

    /// What one write asks of the file system is done.
    pub open spec fn written(self, w: Written) -> Disk {
        let closing = match w.closing {
            Some(bytes) => Some(bytes@),
            None => None,
        };
        let start = match w.start {
            Some(name) => Some(name@),
            None => None,
        };
        self.closed(closing).started(start).appended(w.bytes@)
    }
}

/// Lines recorded one after the other: each with its hour, what recording it
/// asked of the file system, and the file that was open after it.
pub ghost struct Session {
    pub hours: Seq<i64>,
    pub lines: Seq<Seq<char>>,
    pub writes: Seq<Written>,
    pub states: Seq<OpenFile>,
}

impl Session {
    pub open spec fn before(self, i: int) -> Option<OpenFile> {
        if i == 0 {
            None
        } else {
            Some(self.states[i - 1])
        }
    }

    /// Each line was recorded by a writer that began with no file open.
    pub open spec fn valid(self) -> bool {
        &&& self.lines.len() == self.hours.len()
        &&& self.writes.len() == self.hours.len()
        &&& self.states.len() == self.hours.len()
        &&& forall|i: int|
            0 <= i < self.hours.len() ==> #[trigger] self.writes[i].records(
                self.before(i),
                self.hours[i] as int,
                self.lines[i],
                self.states[i],
            )
        &&& forall|i: int, j: int|
            0 <= i <= j < self.hours.len() ==> #[trigger] self.hours[i] <= #[trigger] self.hours[j]
    }

    /// The lines of an hour among the first `n`.
    pub open spec fn lines_of(self, hour: i64, n: nat) -> Seq<Seq<char>>
        decreases n,
    {
        if n == 0 {
            Seq::empty()
        } else {
            let before = self.lines_of(hour, (n - 1) as nat);
            if self.hours[n - 1] == hour {
                before.push(self.lines[n - 1])
            } else {
                before
            }
        }
    }

    /// Whether one of the first `n` lines is of an hour.
    pub open spec fn has_hour(self, hour: i64, n: nat) -> bool {
        exists|i: int| 0 <= i < n && #[trigger] self.hours[i] == hour
    }

    /// The disk after the first `n` lines.
    pub open spec fn disk(self, n: nat) -> Disk
        decreases n,
    {
        if n == 0 {
            Disk::empty()
        } else {
            self.disk((n - 1) as nat).written(self.writes[n - 1])
        }
    }
}

pub open spec fn file_of(hour: i64) -> Seq<char> {
    crate::recorder::name_of_hour(hour as int)
}

proof fn lemma_own_file(a: i64, b: i64)
    ensures
        file_of(a) == file_of(b) <==> a == b,
{
    if file_of(a) == file_of(b) {
        crate::recording::law_each_hour_has_its_own_file(a, b);
    }
}

proof fn lemma_no_lines(session: Session, hour: i64, n: nat)
    requires
        !session.has_hour(hour, n),
    ensures
        session.lines_of(hour, n) == Seq::<Seq<char>>::empty(),
    decreases n,
{
    if n > 0 {
        assert(session.hours[n - 1] != hour);
        assert(!session.has_hour(hour, (n - 1) as nat));
        lemma_no_lines(session, hour, (n - 1) as nat);
    }
}

/// How the disk stands while the session goes on.
spec fn stands(session: Session, n: nat) -> bool {
    let disk = session.disk(n);
    let last = session.states[n - 1];
    let now = session.hours[n - 1];
    &&& disk.open == Some(file_of(now))
    &&& disk.files.contains_key(file_of(now))
    &&& disk.files[file_of(now)] == last.file
    &&& last.hour == now
    &&& last.is_readable()
    &&& last.contents == crate::recording::written(session.lines_of(now, n))
    &&& forall|hour: i64| #[trigger]
        session.has_hour(hour, n) && hour != now ==> disk.files.contains_key(file_of(hour))
            && crate::recording::decompressed(disk.files[file_of(hour)]) == (
            crate::recording::written(session.lines_of(hour, n)),
            false,
        )
    &&& forall|name: Seq<char>| #[trigger]
        disk.files.contains_key(name) ==> exists|i: int|
            0 <= i < n && name == file_of(#[trigger] session.hours[i])
}

proof fn lemma_stands(session: Session, n: nat)
    requires
        session.valid(),
        0 < n <= session.hours.len(),
    ensures
        stands(session, n),
    decreases n,
{
    let m = (n - 1) as nat;
    let i = n - 1;
    let now = session.hours[i];
    let line = session.lines[i];
    let w = session.writes[i];
    let state = session.states[i];
    let disk = session.disk(n);
    let old_disk = session.disk(m);
    assert(w.records(session.before(i), now as int, line, state));
    crate::recording::law_one_more_line_is_recorded(session.lines_of(now, m), line);
    if m > 0 {
        lemma_stands(session, m);
        assert(session.hours[m - 1] <= session.hours[i]);
    }
    let going_on = m > 0 && session.hours[m - 1] == now;
    if !going_on {
        // The hour is new: no line of it came before.
        assert(!session.has_hour(now, m)) by {
            if session.has_hour(now, m) {
                let j = choose|j: int| 0 <= j < m && #[trigger] session.hours[j] == now;
                assert(session.hours[j] <= session.hours[m - 1]);
            }
        }
        lemma_no_lines(session, now, m);
        assert(crate::recording::written(Seq::<Seq<char>>::empty()) + crate::recorder::framed(line)
            =~= crate::recorder::framed(line));
        assert(Seq::<u8>::empty() + w.bytes@ =~= w.bytes@);
    }
    assert(session.hours[i] == now);
    assert(session.has_hour(now, n));
    assert(disk == old_disk.written(w));
    assert forall|hour: i64| #[trigger] session.has_hour(hour, n) && hour != now implies {
        &&& disk.files.contains_key(file_of(hour))
        &&& crate::recording::decompressed(disk.files[file_of(hour)]) == (
            crate::recording::written(session.lines_of(hour, n)),
            false,
        )
    } by {
        let j = choose|j: int| 0 <= j < n && #[trigger] session.hours[j] == hour;
        assert(j < m);
        assert(session.has_hour(hour, m));
        lemma_own_file(hour, now);
        lemma_own_file(hour, session.hours[m - 1]);
        assert(session.lines_of(hour, n) == session.lines_of(hour, m));
    }
    assert forall|name: Seq<char>| #[trigger] disk.files.contains_key(name) implies exists|j: int|
        0 <= j < n && name == file_of(#[trigger] session.hours[j]) by {
        if name == file_of(now) {
            assert(name == file_of(session.hours[i]));
        } else {
            assert(old_disk.files.contains_key(name));
            let j = choose|j: int| 0 <= j < m && name == file_of(#[trigger] session.hours[j]);
            assert(name == file_of(session.hours[j]));
        }
    }
}

/// A session that was finished leaves one file for each of its hours and no
/// other. Each is complete and holds the lines of its hour, in the order in
/// which they came, each with a line feed behind it.
pub proof fn law_every_hour_is_on_disk(session: Session, closing: Seq<u8>, hour: i64)
    requires
        session.valid(),
        session.hours.len() > 0,
        session.states.last().is_closed_by(closing),
    ensures
        ({
            let n = session.hours.len();
            let files = session.disk(n).closed(Some(closing)).files;
            let lines = session.lines_of(hour, n);
            &&& files.contains_key(file_of(hour)) <==> session.has_hour(hour, n)
            &&& session.has_hour(hour, n) ==> {
                &&& crate::recording::decompressed(files[file_of(hour)]) == (
                    crate::recording::written(lines),
                    false,
                )
                &&& crate::recording::separable(lines) ==> crate::recording::recorded(
                    crate::recording::decompressed(files[file_of(hour)]).0,
                ) == lines
            }
            &&& forall|name: Seq<char>| #[trigger]
                files.contains_key(name) ==> exists|i: int|
                    0 <= i < n && name == file_of(#[trigger] session.hours[i])
        }),
{
    let n = session.hours.len();
    let now = session.hours[n - 1];
    lemma_stands(session, n);
    let disk = session.disk(n);
    let files = disk.closed(Some(closing)).files;
    let lines = session.lines_of(hour, n);
    lemma_own_file(hour, now);
    if files.contains_key(file_of(hour)) {
        assert(disk.files.contains_key(file_of(hour)));
        let i = choose|i: int| 0 <= i < n && file_of(hour) == file_of(#[trigger] session.hours[i]);
        lemma_own_file(hour, session.hours[i]);
    }
    if session.has_hour(hour, n) && crate::recording::separable(lines) {
        crate::recording::law_recorded_lines_read_back(lines, Seq::empty());
        assert(crate::recording::written(lines) + Seq::<u8>::empty()
            =~= crate::recording::written(lines));
    }
    assert forall|name: Seq<char>| #[trigger] files.contains_key(name) implies exists|i: int|
        0 <= i < n && name == file_of(#[trigger] session.hours[i]) by {
        assert(disk.files.contains_key(name));
    }
}

/// A session that is cut off leaves the same files: all but the last complete,
/// and in the last everything up to the last line that was recorded.
pub proof fn law_a_cut_off_session_keeps_its_lines(session: Session, hour: i64)
    requires
        session.valid(),
        session.hours.len() > 0,
        session.has_hour(hour, session.hours.len()),
    ensures
        ({
            let n = session.hours.len();
            let files = session.disk(n).files;
            &&& files.contains_key(file_of(hour))
            &&& crate::recording::decompressed(files[file_of(hour)]) == (
                crate::recording::written(session.lines_of(hour, n)),
                hour == session.hours.last(),
            )
        }),
{
    lemma_stands(session, session.hours.len());
}

} // verus!
