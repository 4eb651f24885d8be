//! What the recorder writes: one line per message, one file per UTC hour.
use vstd::prelude::*;

use crate::packing::Packer;

verus! {

/// Files rotate on the UTC hour. Naming them by the hour number keeps the
/// recorder free of a calendar dependency; replay reads timestamps from the
/// messages themselves.
pub fn hour_of(timestamp_ms: i64) -> (r: i64)
    ensures
        r == timestamp_ms as int / 3_600_000,
{
    if timestamp_ms >= 0 {
        timestamp_ms / 3_600_000
    } else {
        -((-(timestamp_ms + 1)) / 3_600_000) - 1
    }
}

pub open spec fn digit(d: nat) -> char {
    (48 + d) as char
}

/// The decimal digits of a number.
pub open spec fn digits(n: nat) -> Seq<char>
    decreases n,
{
    if n < 10 {
        seq![digit(n)]
    } else {
        digits(n / 10).push(digit(n % 10))
    }
}

pub open spec fn decimal(n: int) -> Seq<char> {
    if n < 0 {
        seq!['-'] + digits((-n) as nat)
    } else {
        digits(n as nat)
    }
}

/// The name of the file that holds the messages of an hour.
pub open spec fn name_of_hour(hour: int) -> Seq<char> {
    "raw-"@ + decimal(hour) + ".jsonl.zst"@
}

/// Appends the decimal digits of a number.
pub fn push_digits(out: &mut String, n: u64)
    ensures
        final(out)@ == old(out)@ + digits(n as nat),
    decreases n,
{
    if n >= 10 {
        push_digits(out, n / 10);
    }
    let d: u8 = (n % 10) as u8;
    out.push((48u8 + d) as char);
    assert(out@ =~= old(out)@ + digits(n as nat));
}

pub fn file_name(hour: i64) -> (r: String)
    ensures
        r@ == name_of_hour(hour as int),
{
    let mut out: String = String::new();
    out.append("raw-");
    if hour < 0 {
        out.push('-');
        push_digits(&mut out, (-(hour + 1)) as u64 + 1);
    } else {
        push_digits(&mut out, hour as u64);
    }
    out.append(".jsonl.zst");
    assert(out@ =~= name_of_hour(hour as int));
    out
}

/// What one write asks of the file system.
#[derive(Debug)]
pub struct Written {
    /// The bytes that end the open file, before another is started.
    pub closing: Option<Vec<u8>>,
    /// The file to start; none to go on with the open one.
    pub start: Option<String>,
    /// The bytes to append.
    pub bytes: Vec<u8>,
}

/// Decides which file a message belongs to, and what to append to it.
pub struct RawWriter {
    current: Option<(i64, Packer)>,
}

/// A line as it stands in a file, before compression.
pub open spec fn framed(line: Seq<char>) -> Seq<u8> {
    vstd::utf8::encode_utf8(line).push(10u8)
}

/// A file that is being written.
pub ghost struct OpenFile {
    pub hour: i64,
    /// What was recorded in it.
    pub contents: Seq<u8>,
    /// What stands in it on disk.
    pub file: Seq<u8>,
    /// The level at which it is compressed.
    pub level: i32,
}

impl OpenFile {
    /// What was recorded in the file can be read back from it, though it has no
    /// end yet.
    pub open spec fn is_readable(self) -> bool {
        crate::recording::decompressed(self.file) == (self.contents, true)
    }

    /// These bytes end the file.
    pub open spec fn is_closed_by(self, closing: Seq<u8>) -> bool {
        crate::recording::decompressed(self.file + closing) == (self.contents, false)
    }

    /// A file of this hour with one line in it.
    pub open spec fn begins(self, hour: int, line: Seq<char>) -> bool {
        &&& self.hour == hour
        &&& self.contents == framed(line)
        &&& self.level == crate::packing::LEVEL
        &&& self.is_readable()
    }

    /// The file with one more line in it.
    pub open spec fn goes_on(self, before: OpenFile, line: Seq<char>) -> bool {
        &&& self.hour == before.hour
        &&& self.contents == before.contents + framed(line)
        &&& self.level == before.level
        &&& self.is_readable()
    }
}

impl Written {
    /// This is what recording a line of an hour asks for, where `before` was open
    /// and `now` is open after it.
    pub open spec fn records(
        self,
        before: Option<OpenFile>,
        hour: int,
        line: Seq<char>,
        now: OpenFile,
    ) -> bool {
        match before {
            Some(open) if open.hour == hour => {
                &&& now.goes_on(open, line)
                &&& now.file == open.file + self.bytes@
                &&& self.closing is None
                &&& self.start is None
            },
            _ => {
                &&& now.begins(hour, line)
                &&& now.file == self.bytes@
                &&& self.closing is Some <==> before is Some
                &&& before matches Some(open) ==> open.is_closed_by(self.closing->0@)
                &&& self.start matches Some(name) && name@ == name_of_hour(hour)
            },
        }
    }
}

impl RawWriter {
    /// The open file, if there is one.
    pub closed spec fn open_file(&self) -> Option<OpenFile> {
        match self.current {
            Some((hour, packer)) => Some(
                OpenFile {
                    hour,
                    contents: packer.contents(),
                    file: packer.file(),
                    level: packer.level(),
                },
            ),
            None => None,
        }
    }

    pub fn new() -> (r: Self)
        ensures
            r.open_file() is None,
    {
        Self { current: None }
    }

    /// Records a line. It can be read back as soon as the bytes are on disk.
    /// Memory aside, this always succeeds.
    pub fn write(&mut self, timestamp_ms: i64, line: &str) -> (r: Result<Written, String>)
        ensures
            r is Ok,
            r matches Ok(w) ==> {
                &&& final(self).open_file() matches Some(now)
                &&& w.records(
                    old(self).open_file(),
                    timestamp_ms as int / 3_600_000,
                    line@,
                    now,
                )
            },
    {
        let hour: i64 = hour_of(timestamp_ms);
        let mut bytes: Vec<u8> = line.as_bytes_vec();
        bytes.push(10u8);
        let mut closing: Option<Vec<u8>> = None;
        let mut going_on: Option<Packer> = None;
        match self.current.take() {
            Some((h, packer)) => if h == hour {
                going_on = Some(packer);
            } else {
                match packer.finish() {
                    Ok(rest) => {
                        closing = Some(rest);
                    },
                    Err(e) => return Err(e),
                }
            },
            None => {},
        }
        let (packer, start) = match going_on {
            Some(packer) => (packer, None),
            None => match Packer::new() {
                Ok(packer) => (packer, Some(file_name(hour))),
                Err(e) => return Err(e),
            },
        };
        match packer.put(&bytes) {
            Ok((packer, more)) => {
                self.current = Some((hour, packer));
                Ok(Written { closing, start, bytes: more })
            },
            Err(e) => Err(e),
        }
    }

    /// Closes the open file. Returns the bytes that end it, if there was one.
    /// Memory aside, this always succeeds.
    pub fn finish(&mut self) -> (r: Result<Option<Vec<u8>>, String>)
        ensures
            final(self).open_file() is None,
            r is Ok,
            r matches Ok(closing) ==> {
                &&& closing is Some <==> old(self).open_file() is Some
                &&& old(self).open_file() matches Some(before) ==> before.is_closed_by(
                    closing->0@,
                )
            },
    {
        match self.current.take() {
            Some((_, packer)) => match packer.finish() {
                Ok(rest) => Ok(Some(rest)),
                Err(e) => Err(e),
            },
            None => Ok(None),
        }
    }
}

/// Two messages go to one file exactly when they fall into one hour.
pub proof fn law_files_rotate_on_the_hour(a: i64, b: i64)
    ensures
        a as int / 3_600_000 == b as int / 3_600_000 <==> exists|hour: int|
            {
                &&& #[trigger] (hour * 3_600_000) <= a < hour * 3_600_000 + 3_600_000
                &&& hour * 3_600_000 <= b < hour * 3_600_000 + 3_600_000
            },
{
    let h = a as int / 3_600_000;
    assert(h * 3_600_000 <= a < h * 3_600_000 + 3_600_000);
}

} // verus!
