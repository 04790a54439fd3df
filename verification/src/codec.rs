//! The gzip codec behind the compressing sink.
//!
//! Compression is done by `gzp`'s parallel encoder, which cuts its input
//! into blocks, has four worker threads compress them, and puts the
//! compressed blocks out in the order of the input. Its writer thread puts
//! them into a queue, from which they are taken while the encoder runs, so
//! that the stream does not pile up in memory. Nothing of that is proved
//! here: this file states what the encoder is taken to do, and the rest of
//! the library is proved against those statements.

use vstd::prelude::*;
use crate::error::ErrorKind;
use gzp::deflate::Gzip;
use gzp::par::compress::ParCompress;
use gzp::par::compress::ParCompressBuilder;
use gzp::Compression;
use gzp::GzpError;
use gzp::ZWriter;
use std::io::Read;
use std::io::Write;
use std::sync::Arc;
use std::sync::Mutex;

verus! {

/// The number of threads that compress blocks.
pub const WORKER_THREADS: usize = 4;

/// The level used where compression is asked for without a level.
pub const DEFAULT_LEVEL: u8 = 6;

/// The error type of `gzp`.
#[verifier::external_type_specification]
#[verifier::external_body]
pub struct ExGzpError(GzpError);

/// std's error type for input and output.
#[verifier::external_type_specification]
#[verifier::external_body]
pub struct ExIoError(std::io::Error);

/// std's lock.
#[verifier::external_type_specification]
#[verifier::external_body]
#[verifier::reject_recursive_types(T)]
pub struct ExMutex<T: ?Sized>(Mutex<T>);

/// The queue that the encoder's writer thread puts the stream into.
struct OutputQueue {
    bytes: Arc<Mutex<Vec<u8>>>,
}

/// Puts `bytes` behind what `target` holds and returns their number.
pub fn append_bytes(target: &mut Vec<u8>, bytes: &[u8]) -> (n: usize)
    ensures
        final(target)@ == old(target)@ + bytes@,
        n == bytes@.len(),
{
    target.extend_from_slice(bytes);
    assert(target@ =~= old(target)@ + bytes@);
    bytes.len()
}

impl Write for OutputQueue {
    /// Locks the queue and appends `buf`. The encoder's writer thread calls
    /// this; nothing is claimed of it.
    #[verifier::external_body]
    fn write(&mut self, buf: &[u8]) -> std::io::Result<usize> {
        let mut queue = match self.bytes.lock() {
            Ok(queue) => queue,
            Err(poisoned) => poisoned.into_inner(),
        };
        Ok(append_bytes(&mut queue, buf))
    }

    /// Does nothing: the queue holds what was written.
    #[verifier::external_body]
    fn flush(&mut self) -> std::io::Result<()> {
        Ok(())
    }
}

/// A running `gzp::par::compress::ParCompress` that writes a gzip stream
/// into a queue, and the end of the queue from which the stream is taken.
#[verifier::external_body]
pub struct GzipEncoder {
    inner: ParCompress<'static, Gzip, OutputQueue>,
    bytes: Arc<Mutex<Vec<u8>>>,
}

/// The bytes that were written into the encoder, in the order of the
/// writes.
pub uninterp spec fn encoder_input(encoder: GzipEncoder) -> Seq<u8>;

/// The bytes of the stream that were taken out of the encoder's queue, in
/// their order.
pub uninterp spec fn encoder_taken(encoder: GzipEncoder) -> Seq<u8>;

/// The compression level that the encoder was started with.
pub uninterp spec fn encoder_level(encoder: GzipEncoder) -> int;

/// The number of worker threads that the encoder was started with.
pub uninterp spec fn encoder_threads(encoder: GzipEncoder) -> int;

/// The gzip stream that the encoder makes of `data` at `level`.
pub uninterp spec fn gzip_encoding(level: int, data: Seq<u8>) -> Seq<u8>;

/// What `flate2`'s gzip decoder reads out of `stream`: the data, or nothing
/// where it rejects the stream.
pub uninterp spec fn gzip_decoding(stream: Seq<u8>) -> Option<Seq<u8>>;

/// A compression level: 1 is the fastest, 9 compresses most.
#[derive(Clone, Copy, Debug)]
pub struct CompressionLevel {
    level: u8,
}

impl CompressionLevel {
    #[verifier::type_invariant]
    spec fn well_formed(self) -> bool {
        1 <= self.level <= 9
    }

    /// The level as a number.
    pub closed spec fn level(&self) -> int {
        self.level as int
    }

    /// The level `level`, which has to lie between 1 and 9.
    pub fn new(level: i64) -> (result: Result<CompressionLevel, ErrorKind>)
        ensures
            match result {
                Ok(l) => 1 <= level <= 9 && l.level() == level,
                Err(e) => e == ErrorKind::Configuration && !(1 <= level <= 9),
            },
    {
        if 1 <= level && level <= 9 {
            Ok(CompressionLevel { level: level as u8 })
        } else {
            Err(ErrorKind::Configuration)
        }
    }

    /// The level as a number between 1 and 9.
    pub fn value(&self) -> (v: u8)
        ensures
            v == self.level(),
            1 <= v <= 9,
    {
        proof {
            use_type_invariant(self);
        }
        self.level
    }
}

impl Default for CompressionLevel {
    /// Level 6.
    fn default() -> (l: CompressionLevel)
        ensures
            l.level() == DEFAULT_LEVEL,
    {
        CompressionLevel { level: DEFAULT_LEVEL }
    }
}

/// Calls `ParCompressBuilder::new`, `num_threads`, `compression_level` and
/// `from_writer` with an empty queue, which starts the threads. Taken on
/// trust: the call succeeds, as the builder refuses no number of threads
/// but 0; the encoder that comes back has been given no input yet, nothing
/// has been taken from it, and it has the level and the number of worker
/// threads asked for.
#[verifier::external_body]
pub(crate) fn encoder_start(level: u32, threads: usize) -> (result: Result<GzipEncoder, GzpError>)
    requires
        1 <= level <= 9,
        1 <= threads <= 64,
    ensures
        result is Ok,
        result matches Ok(encoder) ==> encoder_input(encoder) == Seq::<u8>::empty()
            && encoder_taken(encoder) == Seq::<u8>::empty() && encoder_level(encoder) == level
            && encoder_threads(encoder) == threads,
{
    let bytes = Arc::new(Mutex::new(Vec::new()));
    let queue = OutputQueue { bytes: bytes.clone() };
    let builder = ParCompressBuilder::<Gzip>::new().num_threads(threads)?;
    let inner = builder.compression_level(Compression::new(level)).from_writer(queue);
    Ok(GzipEncoder { inner, bytes })
}

/// Calls `write_all` of `ParCompress`. Taken on trust: where it succeeds,
/// the encoder's input has grown by `data`, and what was taken from it, its
/// level and its threads are unchanged. After a failure the encoder has
/// shut down and is given up.
#[verifier::external_body]
pub(crate) fn encoder_write(encoder: GzipEncoder, data: &[u8]) -> (result: Result<
    GzipEncoder,
    GzpError,
>)
    ensures
        result matches Ok(next) ==> encoder_input(next) == encoder_input(encoder) + data@
            && encoder_taken(next) == encoder_taken(encoder) && encoder_level(next)
            == encoder_level(encoder) && encoder_threads(next) == encoder_threads(encoder),
{
    let mut encoder = encoder;
    match encoder.inner.write_all(data) {
        Ok(()) => Ok(encoder),
        Err(e) => Err(GzpError::Io(e)),
    }
}

/// Locks the encoder's queue with `Mutex::lock` and takes out what the
/// writer thread has put there. How much that is depends on how far the
/// threads have come. Taken on trust: what was taken from the encoder has
/// grown by the bytes returned, and its input, its level and its threads
/// are unchanged.
#[verifier::external_body]
pub(crate) fn encoder_take(encoder: GzipEncoder) -> (result: (GzipEncoder, Vec<u8>))
    ensures
        encoder_taken(result.0) == encoder_taken(encoder) + result.1@,
        encoder_input(result.0) == encoder_input(encoder),
        encoder_level(result.0) == encoder_level(encoder),
        encoder_threads(result.0) == encoder_threads(encoder),
{
    let taken = match encoder.bytes.lock() {
        Ok(mut queue) => std::mem::take(&mut *queue),
        Err(poisoned) => std::mem::take(&mut *poisoned.into_inner()),
    };
    (encoder, taken)
}

/// Calls `ZWriter::finish` of `ParCompress`, which compresses what is left
/// and waits for the threads, and takes the rest of the stream out of the
/// queue. Taken on trust: where it succeeds, what was taken before and the
/// bytes returned are, together, the gzip stream of the encoder's input at
/// its level, and `flate2`'s decoder reads that input out of them.
#[verifier::external_body]
pub(crate) fn encoder_finish(encoder: GzipEncoder) -> (result: Result<Vec<u8>, GzpError>)
    ensures
        result matches Ok(rest) ==> encoder_taken(encoder) + rest@ == gzip_encoding(
            encoder_level(encoder),
            encoder_input(encoder),
        ) && gzip_decoding(encoder_taken(encoder) + rest@) == Some(encoder_input(encoder)),
{
    let mut encoder = encoder;
    encoder.inner.finish()?;
    let rest = match encoder.bytes.lock() {
        Ok(mut queue) => std::mem::take(&mut *queue),
        Err(poisoned) => std::mem::take(&mut *poisoned.into_inner()),
    };
    Ok(rest)
}

/// Calls `read_to_end` on a `flate2::read::GzDecoder` over `stream`. Taken
/// on trust: the result depends on the bytes of `stream` alone.
#[verifier::external_body]
fn decoder_read(stream: &[u8]) -> (result: Option<Vec<u8>>)
    ensures
        match result {
            Some(data) => gzip_decoding(stream@) == Some(data@),
            None => gzip_decoding(stream@) is None,
        },
{
    let mut data = Vec::new();
    match flate2::read::GzDecoder::new(stream).read_to_end(&mut data) {
        Ok(_) => Some(data),
        Err(_) => None,
    }
}

/// Reads the data out of a gzip stream; `None` where `stream` is not one.
pub fn decompress(stream: &[u8]) -> (result: Option<Vec<u8>>)
    ensures
        match result {
            Some(data) => gzip_decoding(stream@) == Some(data@),
            None => gzip_decoding(stream@) is None,
        },
{
    decoder_read(stream)
}

/// What a write into the encoder comes to: the encoder to go on with, or a
/// write error.
pub fn write_outcome(result: Result<GzipEncoder, GzpError>) -> (outcome: Result<
    GzipEncoder,
    ErrorKind,
>)
    ensures
        match result {
            Ok(encoder) => outcome == Ok::<GzipEncoder, ErrorKind>(encoder),
            Err(_) => outcome == Err::<GzipEncoder, ErrorKind>(ErrorKind::IoWrite),
        },
{
    match result {
        Ok(encoder) => Ok(encoder),
        Err(_) => Err(ErrorKind::IoWrite),
    }
}

/// What finishing the encoder comes to: the gzip stream, or a finalize
/// error.
pub fn finish_outcome(result: Result<Vec<u8>, GzpError>) -> (outcome: Result<Vec<u8>, ErrorKind>)
    ensures
        match result {
            Ok(stream) => outcome == Ok::<Vec<u8>, ErrorKind>(stream),
            Err(_) => outcome == Err::<Vec<u8>, ErrorKind>(ErrorKind::Finalize),
        },
{
    match result {
        Ok(stream) => Ok(stream),
        Err(_) => Err(ErrorKind::Finalize),
    }
}

} // verus!
