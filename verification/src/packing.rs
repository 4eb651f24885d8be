//! Compression of what is recorded.
use std::io::Write;

use vstd::prelude::*;
use zstd::stream::raw::Encoder;
use zstd::stream::zio::Writer;

verus! {

/// The compression level of recorded files.
pub const LEVEL: i32 = 3;

/// A zstd encoder.
#[verifier::external_type_specification]
#[verifier::external_body]
pub struct ExEncoder<'a>(zstd::stream::raw::Encoder<'a>);

/// A writer that sends what it is given through an operation to an output.
#[verifier::external_type_specification]
#[verifier::external_body]
#[verifier::reject_recursive_types(W)]
#[verifier::reject_recursive_types(D)]
pub struct ExWriter<W, D>(zstd::stream::zio::Writer<W, D>);

/// How far a compressing writer has come: the bytes that were given to it, the
/// compressed bytes that were taken from its output, and those that stand there.
pub uninterp spec fn progress(writer: Writer<Vec<u8>, Encoder<'static>>) -> (
    Seq<u8>,
    Seq<u8>,
    Seq<u8>,
);

/// The compression level that a writer was made with.
pub uninterp spec fn level_of(writer: Writer<Vec<u8>, Encoder<'static>>) -> i32;

/// `zstd::stream::zio::Writer::new` with `zstd::stream::raw::Encoder::new`: a
/// writer that was given nothing, with an empty output. There is always one: in a
/// fresh context any level is clamped to what zstd knows, and an empty dictionary
/// only clears the one that was set.
#[verifier::external_body]
fn start(level: i32) -> (r: Result<Writer<Vec<u8>, Encoder<'static>>, String>)
    ensures
        r is Ok,
        r matches Ok(w) ==> {
            &&& level_of(w) == level
            &&& progress(w).0.len() == 0
            &&& progress(w).1.len() == 0
            &&& progress(w).2.len() == 0
        },
{
    let encoder = Encoder::new(level).map_err(|e| e.to_string())?;
    Ok(Writer::new(Vec::new(), encoder))
}

/// `Write::write_all` of the writer: takes all the bytes. How much of the output
/// is there by then is not claimed. An encoder that writes to memory and was not
/// ended has no error to give but that memory runs out, which is left aside.
#[verifier::external_body]
fn give(writer: Writer<Vec<u8>, Encoder<'static>>, bytes: &Vec<u8>) -> (r: Result<
    Writer<Vec<u8>, Encoder<'static>>,
    String,
>)
    ensures
        r is Ok,
        r matches Ok(w) ==> {
            &&& level_of(w) == level_of(writer)
            &&& progress(w).0 == progress(writer).0 + bytes@
            &&& progress(w).1 == progress(writer).1
        },
{
    let mut writer = writer;
    writer.write_all(bytes).map_err(|e| e.to_string())?;
    Ok(writer)
}

/// `Write::flush` of the writer. If anything was given, all the output there has
/// been by then is a file that reads as all that was given and breaks off there.
/// There is no error to give but that memory runs out, which is left aside.
#[verifier::external_body]
fn flush(writer: Writer<Vec<u8>, Encoder<'static>>) -> (r: Result<
    Writer<Vec<u8>, Encoder<'static>>,
    String,
>)
    ensures
        r is Ok,
        r matches Ok(w) ==> {
            &&& level_of(w) == level_of(writer)
            &&& progress(w).0 == progress(writer).0
            &&& progress(w).1 == progress(writer).1
            &&& progress(w).0.len() > 0 ==> crate::recording::decompressed(
                progress(w).1 + progress(w).2,
            ) == (progress(w).0, true)
        },
{
    let mut writer = writer;
    writer.flush().map_err(|e| e.to_string())?;
    Ok(writer)
}

/// `zstd::stream::zio::Writer::writer_mut`: takes what stands in the output.
#[verifier::external_body]
fn take_output(writer: &mut Writer<Vec<u8>, Encoder<'static>>) -> (r: Vec<u8>)
    ensures
        r@ == progress(*old(writer)).2,
        level_of(*final(writer)) == level_of(*old(writer)),
        progress(*final(writer)).0 == progress(*old(writer)).0,
        progress(*final(writer)).1 == progress(*old(writer)).1 + r@,
        progress(*final(writer)).2.len() == 0,
{
    std::mem::take(writer.writer_mut())
}

/// `zstd::stream::zio::Writer::finish`, then `into_inner`: what stands in the
/// output at the end. All the output there has been by then is a file that reads
/// as all that was given and ends there. There is no error to give but that
/// memory runs out, which is left aside.
#[verifier::external_body]
fn end(writer: Writer<Vec<u8>, Encoder<'static>>) -> (r: Result<Vec<u8>, String>)
    ensures
        r is Ok,
        r matches Ok(rest) ==> crate::recording::decompressed(progress(writer).1 + rest@) == (
            progress(writer).0,
            false,
        ),
{
    let mut writer = writer;
    writer.finish().map_err(|e| e.to_string())?;
    Ok(writer.into_inner().0)
}

/// A compressed file in the making.
pub struct Packer {
    writer: Writer<Vec<u8>, Encoder<'static>>,
}

impl Packer {
    /// What was put into the file.
    pub closed spec fn contents(&self) -> Seq<u8> {
        progress(self.writer).0
    }

    /// The bytes of the file so far.
    pub closed spec fn file(&self) -> Seq<u8> {
        progress(self.writer).1
    }

    /// The level at which the file is compressed.
    pub closed spec fn level(&self) -> i32 {
        level_of(self.writer)
    }

    /// An empty file. There is always one.
    pub fn new() -> (r: Result<Self, String>)
        ensures
            r is Ok,
            r matches Ok(p) ==> {
                &&& p.contents() == Seq::<u8>::empty()
                &&& p.file() == Seq::<u8>::empty()
                &&& p.level() == LEVEL
                &&& p.level() == 3
            },
    {
        match start(LEVEL) {
            Ok(writer) => Ok(Packer { writer }),
            Err(e) => Err(e),
        }
    }

    /// Puts bytes into the file. Returns with it what to append to it on disk.
    /// From then on everything put into it can be read back, though the file has
    /// no end yet. Memory aside, this always succeeds.
    pub fn put(self, bytes: &Vec<u8>) -> (r: Result<(Self, Vec<u8>), String>)
        requires
            bytes.len() > 0,
        ensures
            r is Ok,
            r matches Ok((packer, more)) ==> {
                &&& packer.contents() == self.contents() + bytes@
                &&& packer.file() == self.file() + more@
                &&& packer.level() == self.level()
                &&& crate::recording::decompressed(packer.file()) == (packer.contents(), true)
            },
    {
        match give(self.writer, bytes) {
            Ok(given) => match flush(given) {
                Ok(flushed) => {
                    let mut writer = flushed;
                    let more = take_output(&mut writer);
                    Ok((Packer { writer }, more))
                },
                Err(e) => Err(e),
            },
            Err(e) => Err(e),
        }
    }

    /// Ends the file. Returns what to append to it on disk. Memory aside, this
    /// always succeeds.
    pub fn finish(self) -> (r: Result<Vec<u8>, String>)
        ensures
            r is Ok,
            r matches Ok(rest) ==> crate::recording::decompressed(self.file() + rest@) == (
                self.contents(),
                false,
            ),
    {
        end(self.writer)
    }
}

} // verus!
