//! Reading what the recorder wrote.
use std::io::{BufReader, Cursor, Read};

use vstd::prelude::*;
use zstd::stream::read::Decoder;

use crate::recorder::{file_name, OpenFile};
use crate::sort::{stable_sort, Keyed};
use crate::text::{chars_of, ends_with, same, starts_with, string_of};

verus! {

/// How much is decompressed at a time.
pub const CHUNK: usize = 0x1_0000;

/// A zstd decoder that reads from some input.
#[verifier::external_type_specification]
#[verifier::external_body]
#[verifier::reject_recursive_types(R)]
pub struct ExDecoder<'a, R>(zstd::stream::read::Decoder<'a, R>);

/// A buffered reader.
#[verifier::external_type_specification]
#[verifier::external_body]
#[verifier::reject_recursive_types(R)]
pub struct ExBufReader<R: ?Sized>(std::io::BufReader<R>);

/// A reader over bytes in memory.
#[verifier::external_type_specification]
#[verifier::external_body]
#[verifier::reject_recursive_types(T)]
pub struct ExCursor<T>(std::io::Cursor<T>);

/// What reading a compressed file gives, [`CHUNK`] bytes at a time: the bytes
/// up to where it ends or breaks off, and whether it breaks off there.
pub uninterp spec fn decompressed(file: Seq<u8>) -> (Seq<u8>, bool);

/// What a decoder has still to give, in the same terms.
pub uninterp spec fn unread(decoder: Decoder<'static, BufReader<Cursor<Vec<u8>>>>) -> (
    Seq<u8>,
    bool,
);

/// `zstd::stream::read::Decoder::new`: a decoder that has yet to give all that
/// the file holds. There is always one: in a fresh context neither starting a
/// stream nor setting an empty dictionary has a way to fail.
#[verifier::external_body]
fn open(file: Vec<u8>) -> (r: Result<Decoder<'static, BufReader<Cursor<Vec<u8>>>>, String>)
    ensures
        r is Ok,
        r matches Ok(d) ==> unread(d) == decompressed(file@),
{
    Decoder::new(Cursor::new(file)).map_err(|e| e.to_string())
}

/// `Read::read` of `zstd::stream::read::Decoder`: hands out some of what is
/// left, none of it only at the end, and fails only where the file breaks off.
/// Memory that runs out in the decoder, an error too, is left aside.
#[verifier::external_body]
fn read(
    decoder: &mut Decoder<'static, BufReader<Cursor<Vec<u8>>>>,
    chunk: &mut Vec<u8>,
) -> (r: Result<usize, String>)
    requires
        old(chunk).len() == CHUNK,
    ensures
        final(chunk).len() == CHUNK,
        match r {
            Ok(n) => {
                &&& n <= CHUNK
                &&& n <= unread(*old(decoder)).0.len()
                &&& final(chunk)@.take(n as int) == unread(*old(decoder)).0.take(n as int)
                &&& unread(*final(decoder)).0 == unread(*old(decoder)).0.skip(n as int)
                &&& unread(*final(decoder)).1 == unread(*old(decoder)).1
                &&& n == 0 ==> unread(*old(decoder)).0.len() == 0 && !unread(*old(decoder)).1
            },
            Err(_) => unread(*old(decoder)).0.len() == 0 && unread(*old(decoder)).1,
        },
{
    decoder.read(chunk).map_err(|e| e.to_string())
}

/// Text in place of bytes that are not all UTF-8.
pub uninterp spec fn repaired(bytes: Seq<u8>) -> Seq<char>;

/// `String::from_utf8_lossy`: UTF-8 as it stands; in other bytes, what is not
/// UTF-8 is replaced, and what comes of that is only named here.
#[verifier::external_body]
fn lossy(bytes: &Vec<u8>) -> (r: String)
    ensures
        r@ == if vstd::utf8::valid_utf8(bytes@) {
            vstd::utf8::decode_utf8(bytes@)
        } else {
            repaired(bytes@)
        },
{
    String::from_utf8_lossy(bytes).into_owned()
}

/// The bytes as text.
pub open spec fn text_of(bytes: Seq<u8>) -> Seq<char> {
    if vstd::utf8::valid_utf8(bytes) {
        vstd::utf8::decode_utf8(bytes)
    } else {
        repaired(bytes)
    }
}

/// How many characters come before the first line feed, or in all.
pub open spec fn line_len(text: Seq<char>) -> nat
    decreases text.len(),
{
    if text.len() == 0 || text[0] == '\n' {
        0
    } else {
        1 + line_len(text.drop_first())
    }
}

/// A line that a line feed ends, without a carriage return before it.
pub open spec fn trimmed(line: Seq<char>) -> Seq<char> {
    if line.len() > 0 && line.last() == '\r' {
        line.drop_last()
    } else {
        line
    }
}

/// The lines of a text. What follows the last line feed is a line if there is
/// anything of it.
pub open spec fn lines(text: Seq<char>) -> Seq<Seq<char>>
    decreases text.len(),
{
    if text.len() == 0 {
        Seq::empty()
    } else if line_len(text) >= text.len() {
        seq![text]
    } else {
        let n = line_len(text) as int;
        seq![trimmed(text.take(n))] + lines(text.skip(n + 1))
    }
}

/// The bytes before the last line feed; none where there is no line feed.
pub open spec fn complete(bytes: Seq<u8>) -> Option<Seq<u8>>
    decreases bytes.len(),
{
    if bytes.len() == 0 {
        None
    } else if bytes.last() == 10 {
        Some(bytes.drop_last())
    } else {
        complete(bytes.drop_last())
    }
}

/// The recorded lines in what was read, without a trailing partial line.
pub open spec fn recorded(bytes: Seq<u8>) -> Seq<Seq<char>> {
    match complete(bytes) {
        Some(whole) => lines(text_of(whole)),
        None => Seq::empty(),
    }
}

/// The texts of some strings.
pub open spec fn texts(strings: Seq<String>) -> Seq<Seq<char>> {
    strings.map_values(|s: String| s@)
}

proof fn lemma_line_len(text: Seq<char>, n: nat)
    requires
        n <= text.len(),
        forall|i: int| 0 <= i < n ==> text[i] != '\n',
        n < text.len() ==> text[n as int] == '\n',
    ensures
        line_len(text) == n,
    decreases text.len(),
{
    if n > 0 {
        let rest = text.drop_first();
        assert forall|i: int| 0 <= i < n - 1 implies rest[i] != '\n' by {
            assert(rest[i] == text[i + 1]);
        }
        lemma_line_len(rest, (n - 1) as nat);
    }
}

/// The lines of a text.
pub fn split_lines(text: &str) -> (r: Vec<String>)
    ensures
        texts(r@) == lines(text@),
{
    let chars: Vec<char> = chars_of(text);
    let mut out: Vec<String> = Vec::new();
    let mut start: usize = 0;
    assert(chars@.skip(0) =~= text@);
    assert(texts(out@) + lines(text@) =~= lines(text@));
    while start < chars.len()
        invariant
            start <= chars.len(),
            texts(out@) + lines(chars@.skip(start as int)) == lines(text@),
        decreases chars.len() - start,
    {
        let ghost rest = chars@.skip(start as int);
        let mut end: usize = start;
        while end < chars.len() && chars[end] != '\n'
            invariant
                start <= end <= chars.len(),
                forall|i: int| start <= i < end ==> chars[i] != '\n',
            decreases chars.len() - end,
        {
            end = end + 1;
        }
        let ghost n = (end - start) as nat;
        proof {
            lemma_line_len(rest, n);
        }
        let ghost before = texts(out@);
        if end == chars.len() {
            out.push(string_of(&chars, start, end));
            proof {
                assert(chars@.subrange(start as int, end as int) =~= rest);
                assert(texts(out@) =~= before.push(rest));
                assert(before + seq![rest] =~= before.push(rest));
                assert(chars@.skip(end as int).len() == 0);
                assert(texts(out@) + lines(chars@.skip(end as int)) =~= texts(out@));
            }
            start = end;
        } else {
            let stop: usize = if end > start && chars[end - 1] == '\r' {
                end - 1
            } else {
                end
            };
            out.push(string_of(&chars, start, stop));
            proof {
                let line = rest.take(n as int);
                assert(chars@.subrange(start as int, stop as int) =~= trimmed(line));
                assert(texts(out@) =~= before.push(trimmed(line)));
                assert(rest.skip(n as int + 1) =~= chars@.skip(end + 1));
                let more = lines(rest.skip(n as int + 1));
                assert(before + (seq![trimmed(line)] + more) =~= before.push(trimmed(line)) + more);
            }
            start = end + 1;
        }
    }
    proof {
        assert(chars@.skip(start as int).len() == 0);
        assert(texts(out@) + lines(chars@.skip(start as int)) =~= texts(out@));
    }
    out
}

/// The recorded lines in what was read, without a trailing partial line: half
/// a message is not data.
pub fn recorded_lines(bytes: Vec<u8>) -> (r: Vec<String>)
    ensures
        texts(r@) == recorded(bytes@),
{
    let ghost all = bytes@;
    let mut whole: Vec<u8> = bytes;
    loop
        invariant
            all == bytes@,
            complete(whole@) == complete(all),
        decreases whole.len(),
    {
        match whole.pop() {
            None => {
                let none: Vec<String> = Vec::new();
                assert(texts(none@) =~= recorded(all));
                return none;
            },
            Some(b) => {
                if b == 10 {
                    let text: String = lossy(&whole);
                    return split_lines(text.as_str());
                }
            },
        }
    }
}

/// What came of reading one recorded file.
#[derive(Debug)]
pub struct Contents {
    pub lines: Vec<String>,
    /// How many bytes were read.
    pub kept: usize,
    /// Why reading broke off before the end, if it did.
    pub broken: Option<String>,
}

/// Decompresses one recorded file, keeping whatever is readable.
///
/// A recorder that is killed leaves its last zstd frame unterminated, and a
/// strict reader throws away the whole hour rather than the last few seconds.
/// This reads up to the break and says how much it kept. Every file can be read
/// in this way, one that holds nothing readable too.
pub fn read_file(file: Vec<u8>) -> (r: Result<Contents, String>)
    ensures
        r is Ok,
        r matches Ok(c) ==> {
            &&& texts(c.lines@) == recorded(decompressed(file@).0)
            &&& c.kept == decompressed(file@).0.len()
            &&& c.broken is Some <==> decompressed(file@).1
        },
{
    let ghost given = file@;
    let mut decoder = match open(file) {
        Ok(d) => d,
        Err(e) => return Err(e),
    };
    let mut bytes: Vec<u8> = Vec::new();
    let mut chunk: Vec<u8> = vec![0u8; CHUNK];
    let mut broken: Option<String> = None;
    assert(bytes@ + unread(decoder).0 =~= unread(decoder).0);
    loop
        invariant_except_break
            broken is None,
            chunk.len() == CHUNK,
            bytes@ + unread(decoder).0 == decompressed(given).0,
            unread(decoder).1 == decompressed(given).1,
        ensures
            bytes@ == decompressed(given).0,
            broken is Some <==> decompressed(given).1,
        decreases unread(decoder).0.len(),
    {
        let ghost left = unread(decoder).0;
        let ghost had = bytes@;
        match read(&mut decoder, &mut chunk) {
            Ok(n) => {
                if n == 0 {
                    assert(had + left =~= had);
                    break;
                }
                let mut i: usize = 0;
                while i < n
                    invariant
                        i <= n <= CHUNK,
                        chunk.len() == CHUNK,
                        bytes@ == had + chunk@.take(i as int),
                    decreases n - i,
                {
                    bytes.push(chunk[i]);
                    i = i + 1;
                    assert(bytes@ =~= had + chunk@.take(i as int));
                }
                assert(had + left.take(n as int) + left.skip(n as int) =~= had + left);
            },
            Err(e) => {
                assert(had + left =~= had);
                broken = Some(e);
                break;
            },
        }
    }
    let kept: usize = bytes.len();
    Ok(Contents { lines: recorded_lines(bytes), kept, broken })
}

/// What the recorder writes for some lines.
pub open spec fn written(lines: Seq<Seq<char>>) -> Seq<u8>
    decreases lines.len(),
{
    if lines.len() == 0 {
        Seq::empty()
    } else {
        crate::recorder::framed(lines[0]) + written(lines.drop_first())
    }
}

/// The lines with a line feed between each two.
spec fn listed(lines: Seq<Seq<char>>) -> Seq<char>
    decreases lines.len(),
{
    if lines.len() == 0 {
        Seq::empty()
    } else if lines.len() == 1 {
        lines[0]
    } else {
        lines[0].push('\n') + listed(lines.drop_first())
    }
}

/// Lines that stand in a file each on its own: none holds a line feed, none but
/// the last ends in a carriage return, and the last is not empty.
pub open spec fn separable(lines: Seq<Seq<char>>) -> bool {
    &&& forall|i: int| 0 <= i < lines.len() ==> !(#[trigger] lines[i]).contains('\n')
    &&& forall|i: int|
        0 <= i < lines.len() - 1 && (#[trigger] lines[i]).len() > 0 ==> lines[i].last() != '\r'
    &&& lines.len() > 0 ==> lines.last().len() > 0
}

proof fn lemma_encode_add(a: Seq<char>, b: Seq<char>)
    ensures
        vstd::utf8::encode_utf8(a + b) == vstd::utf8::encode_utf8(a) + vstd::utf8::encode_utf8(b),
    decreases a.len(),
{
    if a.len() == 0 {
        assert(a + b =~= b);
        assert(vstd::utf8::encode_utf8(a) + vstd::utf8::encode_utf8(b)
            =~= vstd::utf8::encode_utf8(b));
    } else {
        lemma_encode_add(a.drop_first(), b);
        assert((a + b).drop_first() =~= a.drop_first() + b);
        let x = vstd::utf8::encode_scalar(a[0] as u32);
        let y = vstd::utf8::encode_utf8(a.drop_first());
        let z = vstd::utf8::encode_utf8(b);
        assert(x + (y + z) =~= (x + y) + z);
    }
}

proof fn lemma_encode_feed()
    ensures
        vstd::utf8::encode_utf8(seq!['\n']) == seq![10u8],
{
    let feed = seq!['\n'];
    reveal_with_fuel(vstd::utf8::encode_utf8, 2);
    assert(feed.drop_first().len() == 0);
    assert(10u32 & 0x7F == 10) by (bit_vector);
    assert(vstd::utf8::encode_scalar('\n' as u32) =~= seq![10u8]);
    assert(vstd::utf8::encode_utf8(feed) =~= seq![10u8]);
}

proof fn lemma_written(lines: Seq<Seq<char>>)
    requires
        lines.len() > 0,
    ensures
        written(lines) == vstd::utf8::encode_utf8(listed(lines)).push(10u8),
    decreases lines.len(),
{
    let rest = lines.drop_first();
    let x = vstd::utf8::encode_utf8(lines[0]);
    if lines.len() == 1 {
        assert(written(rest) =~= Seq::empty());
        assert(x.push(10u8) + Seq::<u8>::empty() =~= x.push(10u8));
    } else {
        lemma_written(rest);
        lemma_encode_feed();
        lemma_encode_add(lines[0], seq!['\n']);
        assert(lines[0] + seq!['\n'] =~= lines[0].push('\n'));
        lemma_encode_add(lines[0].push('\n'), listed(rest));
        let y = vstd::utf8::encode_utf8(listed(rest));
        assert(x.push(10u8) + y.push(10u8) =~= ((x + seq![10u8]) + y).push(10u8));
    }
}

proof fn lemma_listed(ls: Seq<Seq<char>>)
    requires
        separable(ls),
        ls.len() > 0,
    ensures
        listed(ls).len() > 0,
        lines(listed(ls)) == ls,
    decreases ls.len(),
{
    let first = ls[0];
    let text = listed(ls);
    assert(!first.contains('\n'));
    assert forall|i: int| 0 <= i < first.len() implies first[i] != '\n' by {
        if first[i] == '\n' {
            assert(first.contains('\n'));
        }
    }
    if ls.len() == 1 {
        lemma_line_len(text, text.len());
        assert(seq![text] =~= ls);
    } else {
        let rest = ls.drop_first();
        assert forall|i: int| 0 <= i < rest.len() implies !(#[trigger] rest[i]).contains('\n') by {
            assert(rest[i] == ls[i + 1]);
        }
        assert forall|i: int|
            0 <= i < rest.len() - 1 && (#[trigger] rest[i]).len() > 0 implies rest[i].last()
            != '\r' by {
            assert(rest[i] == ls[i + 1]);
        }
        lemma_listed(rest);
        assert forall|i: int| 0 <= i < first.len() implies text[i] != '\n' by {
            assert(text[i] == first[i]);
        }
        lemma_line_len(text, first.len());
        let n = first.len() as int;
        assert(text.take(n) =~= first);
        assert(text.skip(n + 1) =~= listed(rest));
        assert(seq![first] + rest =~= ls);
    }
}

proof fn lemma_complete(whole: Seq<u8>, tail: Seq<u8>)
    requires
        !tail.contains(10u8),
    ensures
        complete(whole.push(10u8) + tail) == Some(whole),
    decreases tail.len(),
{
    let all = whole.push(10u8) + tail;
    if tail.len() == 0 {
        assert(all =~= whole.push(10u8));
        assert(all.drop_last() =~= whole);
    } else {
        let rest = tail.drop_last();
        assert(tail.contains(tail.last()));
        if rest.contains(10u8) {
            let i = choose|i: int| 0 <= i < rest.len() && rest[i] == 10u8;
            assert(tail[i] == 10u8);
        }
        lemma_complete(whole, rest);
        assert(all.drop_last() =~= whole.push(10u8) + rest);
    }
}

proof fn lemma_nothing_complete(tail: Seq<u8>)
    requires
        !tail.contains(10u8),
    ensures
        complete(tail) is None,
    decreases tail.len(),
{
    if tail.len() > 0 {
        let rest = tail.drop_last();
        assert(tail.contains(tail.last()));
        if rest.contains(10u8) {
            let i = choose|i: int| 0 <= i < rest.len() && rest[i] == 10u8;
            assert(tail[i] == 10u8);
        }
        lemma_nothing_complete(rest);
    }
}

/// What the recorder wrote is read back line for line, whatever partial line
/// follows it.
pub proof fn law_recorded_lines_read_back(lines: Seq<Seq<char>>, partial: Seq<u8>)
    requires
        separable(lines),
        !partial.contains(10u8),
    ensures
        recorded(written(lines) + partial) == lines,
{
    if lines.len() == 0 {
        assert(written(lines) + partial =~= partial);
        lemma_nothing_complete(partial);
        assert(lines =~= Seq::empty());
    } else {
        lemma_written(lines);
        lemma_listed(lines);
        let text = listed(lines);
        lemma_complete(vstd::utf8::encode_utf8(text), partial);
        vstd::utf8::encode_utf8_valid_utf8(text);
        vstd::utf8::encode_utf8_decode_utf8(text);
    }
}

/// Recording one more line adds it behind the lines that were recorded.
pub proof fn law_one_more_line_is_recorded(lines: Seq<Seq<char>>, line: Seq<char>)
    ensures
        written(lines) + crate::recorder::framed(line) == written(lines.push(line)),
    decreases lines.len(),
{
    let more = lines.push(line);
    let framed = crate::recorder::framed(line);
    reveal_with_fuel(written, 2);
    if lines.len() == 0 {
        assert(more.drop_first() =~= Seq::empty());
        assert(written(lines) + framed =~= framed);
        assert(framed + Seq::<u8>::empty() =~= framed);
    } else {
        law_one_more_line_is_recorded(lines.drop_first(), line);
        assert(more.drop_first() =~= lines.drop_first().push(line));
        let first = crate::recorder::framed(lines[0]);
        assert((first + written(lines.drop_first())) + framed =~= first + (written(
            lines.drop_first(),
        ) + framed));
    }
}

/// The file of an hour gives back the lines that were recorded in it one after
/// the other, whether the recorder finished it or was killed after the last.
pub proof fn law_a_recorded_hour_reads_back(
    hour: int,
    lines: Seq<Seq<char>>,
    states: Seq<OpenFile>,
    closing: Seq<u8>,
)
    requires
        separable(lines),
        lines.len() > 0,
        states.len() == lines.len(),
        states[0].begins(hour, lines[0]),
        forall|i: int|
            1 <= i < lines.len() ==> (#[trigger] states[i]).goes_on(states[i - 1], lines[i]),
    ensures
        recorded(decompressed(states.last().file).0) == lines,
        states.last().is_closed_by(closing) ==> recorded(
            decompressed(states.last().file + closing).0,
        ) == lines,
{
    lemma_contents(hour, lines, states, lines.len());
    assert(lines.take(lines.len() as int) =~= lines);
    law_recorded_lines_read_back(lines, Seq::empty());
    assert(written(lines) + Seq::<u8>::empty() =~= written(lines));
}

proof fn lemma_contents(hour: int, lines: Seq<Seq<char>>, states: Seq<OpenFile>, n: nat)
    requires
        0 < n <= lines.len(),
        states.len() == lines.len(),
        states[0].begins(hour, lines[0]),
        forall|i: int|
            1 <= i < lines.len() ==> (#[trigger] states[i]).goes_on(states[i - 1], lines[i]),
    ensures
        states[n - 1].contents == written(lines.take(n as int)),
        states[n - 1].is_readable(),
    decreases n,
{
    let before = lines.take(n - 1);
    law_one_more_line_is_recorded(before, lines[n - 1]);
    assert(before.push(lines[n - 1]) =~= lines.take(n as int));
    if n == 1 {
        assert(written(before) + crate::recorder::framed(lines[0]) =~= crate::recorder::framed(
            lines[0],
        ));
    } else {
        lemma_contents(hour, lines, states, (n - 1) as nat);
        assert(states[n - 1].goes_on(states[n - 2], lines[n - 1]));
    }
}

/// The number that some digits write; what is no digit counts as a zero.
spec fn number(chars: Seq<char>) -> int
    decreases chars.len(),
{
    if chars.len() == 0 {
        0
    } else {
        10 * number(chars.drop_last()) + value_of(chars.last())
    }
}

spec fn value_of(c: char) -> int {
    if 48 <= c as int <= 57 {
        c as int - 48
    } else {
        0
    }
}

proof fn lemma_number_of_digits(n: nat)
    ensures
        number(crate::recorder::digits(n)) == n,
        crate::recorder::digits(n).len() > 0,
        48 <= crate::recorder::digits(n)[0] as int <= 57,
    decreases n,
{
    if n < 10 {
        let one = crate::recorder::digits(n);
        assert(one.drop_last() =~= Seq::empty());
        assert(number(one.drop_last()) == 0);
    } else {
        lemma_number_of_digits(n / 10);
        let all = crate::recorder::digits(n);
        assert(all.drop_last() =~= crate::recorder::digits(n / 10));
        assert(all[0] == crate::recorder::digits(n / 10)[0]);
    }
}

/// The hour whose messages a file of this name holds.
pub open spec fn hour_in(name: Seq<char>) -> Option<i64> {
    if exists|h: i64| name == #[trigger] crate::recorder::name_of_hour(h as int) {
        Some(choose|h: i64| name == #[trigger] crate::recorder::name_of_hour(h as int))
    } else {
        None
    }
}

proof fn lemma_name_parts(h: i64)
    ensures
        ({
            let name = crate::recorder::name_of_hour(h as int);
            let middle = crate::recorder::decimal(h as int);
            &&& name.len() == middle.len() + 14
            &&& name.subrange(4, name.len() - 10) == middle
            &&& middle.len() > 0
            &&& h < 0 <==> middle[0] == '-'
            &&& h < 0 ==> number(middle.skip(1)) == -h
            &&& h >= 0 ==> number(middle) == h
        }),
{
    reveal_strlit("raw-");
    reveal_strlit(".jsonl.zst");
    let name = crate::recorder::name_of_hour(h as int);
    let middle = crate::recorder::decimal(h as int);
    if h < 0 {
        lemma_number_of_digits((-h) as nat);
        assert(middle.skip(1) =~= crate::recorder::digits((-h) as nat));
    } else {
        lemma_number_of_digits(h as nat);
    }
    assert(name.subrange(4, name.len() - 10) =~= middle);
}

/// Two hours never share a file.
pub proof fn law_each_hour_has_its_own_file(a: i64, b: i64)
    requires
        crate::recorder::name_of_hour(a as int) == crate::recorder::name_of_hour(b as int),
    ensures
        a == b,
{
    lemma_name_parts(a);
    lemma_name_parts(b);
}

/// The hour whose messages a file of this name holds.
pub fn recorded_hour(name: &str) -> (r: Option<i64>)
    ensures
        r == hour_in(name@),
        r matches Some(h) ==> name@ == crate::recorder::name_of_hour(h as int),
        r is None ==> forall|h: i64| name@ != #[trigger] crate::recorder::name_of_hour(h as int),
{
    let chars: Vec<char> = chars_of(name);
    if chars.len() < 15 {
        proof {
            assert forall|h: i64| name@ != #[trigger] crate::recorder::name_of_hour(h as int) by {
                lemma_name_parts(h);
            }
        }
        return None;
    }
    let end: usize = chars.len() - 10;
    let negative: bool = chars[4] == '-';
    let from: usize = if negative {
        5
    } else {
        4
    };
    let cap: u64 = 0x8000_0000_0000_0001;
    let mut n: u64 = 0;
    let mut i: usize = from;
    assert(chars@.subrange(from as int, from as int) =~= Seq::empty());
    while i < end
        invariant
            from <= i <= end <= chars.len(),
            cap == 0x8000_0000_0000_0001,
            n <= cap,
            ({
                let so_far = number(chars@.subrange(from as int, i as int));
                &&& so_far >= 0
                &&& n == if so_far < cap {
                    so_far
                } else {
                    cap as int
                }
            }),
        decreases end - i,
    {
        let c: char = chars[i];
        let d: u128 = if '0' <= c && c <= '9' {
            (c as u128) - 48
        } else {
            0
        };
        let next: u128 = 10 * (n as u128) + d;
        proof {
            let now = chars@.subrange(from as int, i + 1);
            assert(now.drop_last() =~= chars@.subrange(from as int, i as int));
        }
        n = if next < cap as u128 {
            next as u64
        } else {
            cap
        };
        i = i + 1;
    }
    let ghost middle = chars@.subrange(4, end as int);
    let candidate: Option<i64> = if negative {
        if n < cap && n > 0 {
            Some(-((n - 1) as i64) - 1)
        } else {
            None
        }
    } else {
        if n < 0x8000_0000_0000_0000 {
            Some(n as i64)
        } else {
            None
        }
    };
    proof {
        assert forall|h: i64| name@ == #[trigger] crate::recorder::name_of_hour(h as int) implies candidate
            == Some(h) by {
            lemma_name_parts(h);
            assert(middle.skip(1) =~= chars@.subrange(5, end as int));
            assert(middle[0] == chars@[4]);
        }
    }
    match candidate {
        Some(h) => {
            let expected: String = file_name(h);
            if same(expected.as_str(), name) {
                assert(name@ == crate::recorder::name_of_hour(h as int));
                Some(h)
            } else {
                None
            }
        },
        None => None,
    }
}

/// A recorded file.
#[derive(Debug)]
pub struct Recording {
    pub name: String,
    /// The hour it is named after.
    pub hour: Option<i64>,
}

impl Keyed for Recording {
    open spec fn key(&self) -> int {
        match self.hour {
            Some(h) => h as int,
            None => i64::MAX + 1,
        }
    }

    fn precedes(&self, other: &Self) -> (r: bool) {
        match self.hour {
            None => false,
            Some(a) => match other.hour {
                None => true,
                Some(b) => a < b,
            },
        }
    }
}

/// Whether a file of this name holds recorded messages: `raw-*.jsonl.zst`.
pub open spec fn is_recording(name: Seq<char>) -> bool {
    "raw-"@.is_prefix_of(name) && ".jsonl.zst"@.is_suffix_of(name)
}

/// The names of some recordings.
pub open spec fn names_of(recordings: Seq<Recording>) -> Seq<Seq<char>> {
    recordings.map_values(|r: Recording| r.name@)
}

/// The recordings among some files, in hour order. Those not named after an
/// hour come last, in the order in which they are given.
pub fn recordings(names: Vec<String>) -> (r: Vec<Recording>)
    ensures
        forall|i: int| 0 <= i < r.len() ==> (#[trigger] r[i]).hour == hour_in(r[i].name@),
        exists|found: Seq<Recording>|
            {
                &&& names_of(found) == texts(names@).filter(|n: Seq<char>| is_recording(n))
                &&& #[trigger] crate::sort::is_stable_sort(found, r@)
            },
{
    let ghost all = texts(names@);
    let ghost keep = |n: Seq<char>| is_recording(n);
    let mut found: Vec<Recording> = Vec::new();
    let mut i: usize = 0;
    proof {
        reveal(Seq::filter);
        assert(all.take(0) =~= Seq::empty());
        assert(names_of(found@) =~= all.take(0).filter(keep));
    }
    while i < names.len()
        invariant
            i <= names.len(),
            all == texts(names@),
            names_of(found@) == all.take(i as int).filter(keep),
            keep == (|n: Seq<char>| is_recording(n)),
            forall|j: int|
                0 <= j < found.len() ==> (#[trigger] found[j]).hour == hour_in(found[j].name@),
        decreases names.len() - i,
    {
        let ghost before = names_of(found@);
        proof {
            reveal(Seq::filter);
            assert(all.take(i + 1).drop_last() =~= all.take(i as int));
            assert(all.take(i + 1).last() == names[i as int]@);
        }
        let name: &str = names[i].as_str();
        if starts_with(name, "raw-") && ends_with(name, ".jsonl.zst") {
            let hour: Option<i64> = recorded_hour(name);
            let kept: Vec<char> = chars_of(name);
            found.push(Recording { name: string_of(&kept, 0, kept.len()), hour });
            proof {
                assert(kept@.subrange(0, kept@.len() as int) =~= names[i as int]@);
                assert(names_of(found@) =~= before.push(names[i as int]@));
            }
        }
        i = i + 1;
    }
    assert(all.take(i as int) =~= all);
    let ghost given = found@;
    let sorted: Vec<Recording> = stable_sort(found);
    proof {
        assert forall|j: int| 0 <= j < sorted.len() implies (#[trigger] sorted[j]).hour == hour_in(
            sorted[j].name@,
        ) by {
            crate::sort::lemma_sorted_item_is_given(given, sorted@, j);
        }
    }
    sorted
}

/// Whether one of the recordings is that of an hour.
pub open spec fn has_hour(recordings: Seq<Recording>, hour: int) -> bool {
    exists|i: int|
        0 <= i < recordings.len() && (#[trigger] recordings[i]).hour is Some
            && recordings[i].hour->0 == hour
}

/// The recordings hold every hour of the day that begins at hour `24 * day`.
pub open spec fn covers(recordings: Seq<Recording>, day: int) -> bool {
    forall|k: int| 0 <= k < 24 ==> has_hour(recordings, #[trigger] (24 * day + k))
}

fn holds_hour(recordings: &Vec<Recording>, hour: i128) -> (r: bool)
    ensures
        r == has_hour(recordings@, hour as int),
{
    let mut i: usize = 0;
    while i < recordings.len()
        invariant
            i <= recordings.len(),
            forall|j: int|
                0 <= j < i ==> !((#[trigger] recordings[j]).hour is Some && recordings[j].hour->0
                    == hour),
        decreases recordings.len() - i,
    {
        if let Some(h) = recordings[i].hour {
            if h as i128 == hour {
                assert(recordings@[i as int].hour->0 == hour);
                return true;
            }
        }
        i = i + 1;
    }
    false
}

/// Whether the recordings hold a complete UTC day.
pub fn is_whole_day(recordings: &Vec<Recording>) -> (r: bool)
    ensures
        r == exists|day: int| #[trigger] covers(recordings@, day),
{
    let mut i: usize = 0;
    while i < recordings.len()
        invariant
            i <= recordings.len(),
            forall|j: int, day: int|
                0 <= j < i && #[trigger] covers(recordings@, day) ==> (
                #[trigger] recordings[j]).hour != Some((24 * day) as i64) || !crate::desk::in_i64(
                    24 * day,
                ),
        decreases recordings.len() - i,
    {
        if let Some(first) = recordings[i].hour {
            let mut k: i128 = 0;
            while k < 24 && holds_hour(recordings, first as i128 + k)
                invariant
                    0 <= k <= 24,
                    forall|j: int| 0 <= j < k ==> has_hour(recordings@, #[trigger] (first + j)),
                decreases 24 - k,
            {
                k = k + 1;
            }
            if k == 24 && first % 24 == 0 {
                proof {
                    let day = first as int / 24;
                    assert(first == 24 * day);
                    assert forall|j: int| 0 <= j < 24 implies has_hour(
                        recordings@,
                        #[trigger] (24 * day + j),
                    ) by {
                        assert(has_hour(recordings@, first + j));
                    }
                    assert(covers(recordings@, day));
                }
                return true;
            }
            proof {
                assert forall|day: int| #[trigger] covers(recordings@, day) implies first != 24
                    * day by {
                    if first == 24 * day {
                        if k < 24 {
                            assert(has_hour(recordings@, 24 * day + k));
                        }
                    }
                }
            }
        }
        i = i + 1;
    }
    proof {
        assert forall|day: int| !#[trigger] covers(recordings@, day) by {
            if covers(recordings@, day) {
                assert(has_hour(recordings@, 24 * day + 0));
                let j = choose|j: int|
                    0 <= j < recordings@.len() && (#[trigger] recordings@[j]).hour is Some
                        && recordings@[j].hour->0 == 24 * day;
                assert(recordings[j].hour == Some((24 * day) as i64));
            }
        }
    }
    false
}

} // verus!
