//! Sinks: where framed lines go.
//!
//! A sink takes lines and gives back bytes for the destination file. The
//! direct sink gathers lines in a large buffer and gives them back when the
//! buffer is full; the compressing sink feeds them to a gzip encoder and
//! gives back the compressed stream piece by piece, as the encoder puts it
//! out, and the rest when it is finalized.

use vstd::prelude::*;
use crate::codec::encoder_finish;
use crate::codec::encoder_input;
use crate::codec::encoder_level;
use crate::codec::encoder_start;
use crate::codec::encoder_take;
use crate::codec::encoder_taken;
use crate::codec::encoder_threads;
use crate::codec::encoder_write;
use crate::codec::finish_outcome;
use crate::codec::gzip_decoding;
use crate::codec::gzip_encoding;
use crate::codec::write_outcome;
use crate::codec::CompressionLevel;
use crate::codec::GzipEncoder;
use crate::codec::WORKER_THREADS;
use crate::error::ErrorKind;
use crate::framing::contents;

verus! {

/// The size of the direct sink's buffer: 100 MiB.
pub const DIRECT_CAPACITY: usize = 104857600;

/// What a write of `line` into a buffer that holds `buffered` and has room
/// for `capacity` bytes does: the bytes that leave for the file, and the
/// bytes that the buffer holds afterwards.
///
/// A line that fits is added to the buffer. One that does not pushes the
/// buffer's contents out; it then goes into the empty buffer, or, where it
/// is as large as the buffer itself, straight out behind them.
pub open spec fn direct_write(buffered: Seq<u8>, capacity: nat, line: Seq<u8>) -> (Seq<u8>, Seq<u8>) {
    if buffered.len() + line.len() <= capacity {
        (Seq::empty(), buffered + line)
    } else if line.len() >= capacity {
        (buffered + line, Seq::empty())
    } else {
        (buffered, line)
    }
}

/// A write loses and adds nothing: what leaves and what stays are, together,
/// what was there and the line. A buffer that held no more than its capacity
/// holds no more than it afterwards.
pub proof fn lemma_direct_write(buffered: Seq<u8>, capacity: nat, line: Seq<u8>)
    ensures
        direct_write(buffered, capacity, line).0 + direct_write(buffered, capacity, line).1
            == buffered + line,
        buffered.len() <= capacity ==> direct_write(buffered, capacity, line).1.len()
            <= capacity,
{
    let (out, kept) = direct_write(buffered, capacity, line);
    assert(out + kept =~= buffered + line);
}

/// What writing `lines`, one after the other, into a buffer that holds
/// `buffered` does: all the bytes that leave for the file, and the bytes
/// that the buffer holds in the end.
pub open spec fn direct_write_all(buffered: Seq<u8>, capacity: nat, lines: Seq<Seq<u8>>) -> (
    Seq<u8>,
    Seq<u8>,
)
    decreases lines.len(),
{
    if lines.len() == 0 {
        (Seq::empty(), buffered)
    } else {
        let (flushed, kept) = direct_write_all(buffered, capacity, lines.drop_last());
        let (more, rest) = direct_write(kept, capacity, lines.last());
        (flushed + more, rest)
    }
}

/// Writing lines through the buffer loses and adds nothing, and keeps their
/// order: what left and what stayed are, together, what was there and the
/// lines one after the other. A buffer that held no more than its capacity
/// holds no more than it afterwards.
pub proof fn lemma_direct_write_all(buffered: Seq<u8>, capacity: nat, lines: Seq<Seq<u8>>)
    ensures
        direct_write_all(buffered, capacity, lines).0 + direct_write_all(
            buffered,
            capacity,
            lines,
        ).1 == buffered + lines.flatten(),
        buffered.len() <= capacity ==> direct_write_all(buffered, capacity, lines).1.len()
            <= capacity,
    decreases lines.len(),
{
    if lines.len() == 0 {
        assert(buffered + lines.flatten() =~= buffered);
        assert(Seq::<u8>::empty() + buffered =~= buffered);
    } else {
        let front = lines.drop_last();
        lemma_direct_write_all(buffered, capacity, front);
        let (flushed, kept) = direct_write_all(buffered, capacity, front);
        lemma_direct_write(kept, capacity, lines.last());
        let (more, rest) = direct_write(kept, capacity, lines.last());
        assert(lines =~= front.push(lines.last()));
        front.lemma_flatten_push(lines.last());
        assert((flushed + more) + rest =~= (flushed + kept) + lines.last());
        assert((buffered + front.flatten()) + lines.last() =~= buffered + lines.flatten());
    }
}

/// A sink that hands lines on unchanged, through a buffer.
pub struct DirectSink {
    buffer: Vec<u8>,
    capacity: usize,
}

impl DirectSink {
    #[verifier::type_invariant]
    spec fn well_formed(self) -> bool {
        self.buffer@.len() <= self.capacity
    }

    /// The bytes that the buffer holds.
    pub closed spec fn buffered(&self) -> Seq<u8> {
        self.buffer@
    }

    /// The number of bytes that the buffer has room for.
    pub closed spec fn capacity(&self) -> nat {
        self.capacity as nat
    }

    /// A sink with an empty buffer of 100 MiB.
    pub fn new() -> (sink: DirectSink)
        ensures
            sink.buffered() == Seq::<u8>::empty(),
            sink.capacity() == DIRECT_CAPACITY,
    {
        DirectSink { buffer: Vec::new(), capacity: DIRECT_CAPACITY }
    }

    /// A sink with an empty buffer of `capacity` bytes.
    pub fn with_capacity(capacity: usize) -> (sink: DirectSink)
        ensures
            sink.buffered() == Seq::<u8>::empty(),
            sink.capacity() == capacity,
    {
        DirectSink { buffer: Vec::new(), capacity }
    }

    /// The number of bytes that the buffer has room for.
    pub fn limit(&self) -> (n: usize)
        ensures
            n == self.capacity(),
    {
        self.capacity
    }

    /// The number of bytes that the buffer holds.
    pub fn buffered_len(&self) -> (n: usize)
        ensures
            n == self.buffered().len(),
            n <= self.capacity(),
    {
        proof {
            use_type_invariant(self);
        }
        self.buffer.len()
    }

    /// Takes a line and returns the bytes that have to be written to the
    /// file now: nothing as long as the buffer has room.
    pub fn write(&mut self, line: &[u8]) -> (flushed: Vec<u8>)
        ensures
            (flushed@, final(self).buffered()) == direct_write(
                old(self).buffered(),
                old(self).capacity(),
                line@,
            ),
            final(self).capacity() == old(self).capacity(),
            flushed@ + final(self).buffered() == old(self).buffered() + line@,
    {
        proof {
            use_type_invariant(&*self);
            lemma_direct_write(self.buffer@, self.capacity as nat, line@);
        }
        let mut buffer: Vec<u8> = Vec::new();
        std::mem::swap(&mut buffer, &mut self.buffer);
        let ghost before = buffer@;
        if line.len() <= self.capacity - buffer.len() {
            buffer.extend_from_slice(line);
            assert(buffer@ =~= before + line@);
            self.buffer = buffer;
            Vec::new()
        } else if line.len() >= self.capacity {
            buffer.extend_from_slice(line);
            assert(buffer@ =~= before + line@);
            buffer
        } else {
            let mut kept: Vec<u8> = Vec::new();
            kept.extend_from_slice(line);
            assert(kept@ =~= line@);
            self.buffer = kept;
            buffer
        }
    }

    /// Closes the sink and returns the bytes that are still in the buffer.
    pub fn finalize(self) -> (flushed: Vec<u8>)
        ensures
            flushed@ == self.buffered(),
    {
        self.buffer
    }
}

/// A sink that compresses the lines into one gzip stream.
///
/// The sink is open as long as its encoder works. A failed write closes it,
/// and a closed sink takes nothing more.
pub struct CompressingSink {
    encoder: Option<GzipEncoder>,
    level: CompressionLevel,
}

impl CompressingSink {
    #[verifier::type_invariant]
    spec fn well_formed(self) -> bool {
        self.encoder matches Some(encoder) ==> encoder_level(encoder) == self.level.level()
            && encoder_threads(encoder) == WORKER_THREADS
    }

    /// The sink can take lines.
    pub closed spec fn is_open(&self) -> bool {
        self.encoder is Some
    }

    /// The bytes taken so far, in the order of the writes.
    pub closed spec fn input(&self) -> Seq<u8> {
        match self.encoder {
            Some(encoder) => encoder_input(encoder),
            None => Seq::empty(),
        }
    }

    /// The bytes of the gzip stream given back so far, in their order.
    pub closed spec fn output(&self) -> Seq<u8> {
        match self.encoder {
            Some(encoder) => encoder_taken(encoder),
            None => Seq::empty(),
        }
    }

    /// The compression level.
    pub closed spec fn level(&self) -> int {
        self.level.level()
    }

    /// The number of threads that compress, as long as the sink is open.
    pub closed spec fn threads(&self) -> int {
        match self.encoder {
            Some(encoder) => encoder_threads(encoder),
            None => 0,
        }
    }

    /// Whether the sink can take lines.
    pub fn check_open(&self) -> (open: bool)
        ensures
            open == self.is_open(),
    {
        self.encoder.is_some()
    }

    /// Starts an encoder with four worker threads at `level`.
    pub fn new(level: CompressionLevel) -> (result: Result<CompressingSink, ErrorKind>)
        ensures
            match result {
                Ok(sink) => {
                    &&& sink.is_open()
                    &&& sink.input() == Seq::<u8>::empty()
                    &&& sink.output() == Seq::<u8>::empty()
                    &&& sink.level() == level.level()
                    &&& sink.threads() == WORKER_THREADS
                },
                Err(_) => false,
            },
    {
        let number = level.value();
        match write_outcome(encoder_start(number as u32, WORKER_THREADS)) {
            Ok(encoder) => Ok(CompressingSink { encoder: Some(encoder), level }),
            Err(e) => Err(e),
        }
    }

    /// Feeds a line to the encoder and returns the bytes of the gzip stream
    /// that the encoder has put out since the last call. A sink that is
    /// closed, or whose encoder fails, answers with a write error and is
    /// closed afterwards.
    pub fn write(&mut self, line: &[u8]) -> (result: Result<Vec<u8>, ErrorKind>)
        ensures
            final(self).level() == old(self).level(),
            match result {
                Ok(flushed) => {
                    &&& old(self).is_open()
                    &&& final(self).is_open()
                    &&& final(self).input() == old(self).input() + line@
                    &&& final(self).output() == old(self).output() + flushed@
                    &&& final(self).threads() == old(self).threads()
                    &&& final(self).threads() == WORKER_THREADS
                },
                Err(e) => e == ErrorKind::IoWrite && !final(self).is_open(),
            },
            !old(self).is_open() ==> result is Err,
    {
        proof {
            use_type_invariant(&*self);
        }
        let mut taken: Option<GzipEncoder> = None;
        std::mem::swap(&mut taken, &mut self.encoder);
        match taken {
            Some(encoder) => match write_outcome(encoder_write(encoder, line)) {
                Ok(written) => {
                    let (next, flushed) = encoder_take(written);
                    self.encoder = Some(next);
                    Ok(flushed)
                },
                Err(e) => Err(e),
            },
            None => Err(ErrorKind::IoWrite),
        }
    }

    /// Ends the stream and returns the rest of the gzip stream. With what
    /// was given back before, it is the gzip stream of all the lines. A
    /// closed sink, or an encoder that fails, gives a finalize error.
    pub fn finalize(self) -> (result: Result<Vec<u8>, ErrorKind>)
        ensures
            match result {
                Ok(rest) => self.is_open() && self.output() + rest@ == gzip_encoding(
                    self.level(),
                    self.input(),
                ) && gzip_decoding(self.output() + rest@) == Some(self.input()),
                Err(e) => e == ErrorKind::Finalize,
            },
            !self.is_open() ==> result is Err,
    {
        proof {
            use_type_invariant(&self);
        }
        match self.encoder {
            Some(encoder) => finish_outcome(encoder_finish(encoder)),
            None => Err(ErrorKind::Finalize),
        }
    }
}

/// The sink of a run: direct or compressing, chosen once.
pub enum Sink {
    /// Lines go to the file as they are.
    Direct(DirectSink),
    /// Lines go to the file as one gzip stream.
    Compressing(CompressingSink),
}

impl Sink {
    /// The sink can take lines.
    pub open spec fn is_open(&self) -> bool {
        match self {
            Sink::Direct(_) => true,
            Sink::Compressing(sink) => sink.is_open(),
        }
    }

    /// The number of threads that compress: none for a direct sink.
    pub open spec fn threads(&self) -> int {
        match self {
            Sink::Direct(_) => 0,
            Sink::Compressing(sink) => sink.threads(),
        }
    }

    /// The two sinks are of one kind, with the same capacity or level.
    pub open spec fn same_kind(&self, other: Sink) -> bool {
        match (*self, other) {
            (Sink::Direct(a), Sink::Direct(b)) => a.capacity() == b.capacity(),
            (Sink::Compressing(a), Sink::Compressing(b)) => a.level() == b.level(),
            _ => false,
        }
    }

    /// What taking `lines` does to a sink that was `self` and is `after`,
    /// where `flushed` is given back: a direct sink has written them through
    /// its buffer; a compressing sink has them behind its input, and
    /// `flushed` behind its output.
    pub open spec fn has_taken(&self, lines: Seq<Seq<u8>>, flushed: Seq<u8>, after: Sink) -> bool {
        match (*self, after) {
            (Sink::Direct(a), Sink::Direct(b)) => {
                &&& b.capacity() == a.capacity()
                &&& (flushed, b.buffered()) == direct_write_all(a.buffered(), a.capacity(), lines)
            },
            (Sink::Compressing(a), Sink::Compressing(b)) => {
                &&& a.is_open()
                &&& b.input() == a.input() + lines.flatten()
                &&& b.output() == a.output() + flushed
                &&& b.threads() == a.threads()
            },
            _ => false,
        }
    }

    /// The sink for a run: compressing where a level is given, else direct.
    pub fn select(compression: Option<CompressionLevel>) -> (result: Result<Sink, ErrorKind>)
        ensures
            match result {
                Ok(sink) => sink.is_open() && match (compression, sink) {
                    (None, Sink::Direct(direct)) => direct.capacity() == DIRECT_CAPACITY
                        && direct.buffered() == Seq::<u8>::empty(),
                    (Some(level), Sink::Compressing(compressing)) => {
                        &&& compressing.level() == level.level()
                        &&& compressing.threads() == WORKER_THREADS
                        &&& compressing.input() == Seq::<u8>::empty()
                        &&& compressing.output() == Seq::<u8>::empty()
                    },
                    _ => false,
                },
                Err(_) => false,
            },
    {
        match compression {
            None => Ok(Sink::Direct(DirectSink::new())),
            Some(level) => match CompressingSink::new(level) {
                Ok(sink) => Ok(Sink::Compressing(sink)),
                Err(e) => Err(e),
            },
        }
    }

    /// Takes a line and returns the bytes that have to be written to the
    /// file now.
    pub fn write(&mut self, line: &[u8]) -> (result: Result<Vec<u8>, ErrorKind>)
        ensures
            final(self).same_kind(*old(self)),
            match result {
                Ok(flushed) => old(self).is_open() && final(self).is_open() && old(self).has_taken(
                    seq![line@],
                    flushed@,
                    *final(self),
                ),
                Err(e) => e == ErrorKind::IoWrite && !final(self).is_open() && *old(self)
                    is Compressing,
            },
            !old(self).is_open() ==> result is Err,
    {
        proof {
            assert(seq![line@].drop_last() =~= Seq::<Seq<u8>>::empty());
            assert(seq![line@].last() == line@);
            seq![line@].lemma_flatten_one_element();
        }
        match self {
            Sink::Direct(sink) => {
                let ghost before = sink.buffered();
                let ghost capacity = sink.capacity();
                let flushed = sink.write(line);
                proof {
                    let none = direct_write_all(before, capacity, Seq::<Seq<u8>>::empty());
                    assert(none == (Seq::<u8>::empty(), before));
                    assert(Seq::<u8>::empty() + flushed@ =~= flushed@);
                }
                Ok(flushed)
            },
            Sink::Compressing(sink) => sink.write(line),
        }
    }

    /// Takes lines one after the other and returns all the bytes that have
    /// to be written to the file now. It stops at the first line that the
    /// sink does not take; a closed sink takes none.
    pub fn write_all(&mut self, lines: &Vec<Vec<u8>>) -> (result: Result<Vec<u8>, ErrorKind>)
        ensures
            final(self).same_kind(*old(self)),
            match result {
                Ok(flushed) => old(self).is_open() && final(self).is_open() && old(self).has_taken(
                    contents(lines@),
                    flushed@,
                    *final(self),
                ),
                Err(e) => {
                    &&& e == ErrorKind::IoWrite
                    &&& !final(self).is_open()
                    &&& *old(self) is Compressing
                    &&& old(self).is_open() ==> lines@.len() > 0
                },
            },
            !old(self).is_open() ==> result is Err,
            old(self).is_open() && lines@.len() == 0 ==> result is Ok,
    {
        let ghost before = *self;
        let ghost all = contents(lines@);
        let mut flushed: Vec<u8> = Vec::new();
        if !self.check_open() {
            return Err(ErrorKind::IoWrite);
        }
        proof {
            assert(all.take(0) =~= Seq::<Seq<u8>>::empty());
            lemma_has_taken_nothing(before);
        }
        let mut i: usize = 0;
        while i < lines.len()
            invariant
                i <= lines.len(),
                all == contents(lines@),
                before == *old(self),
                before.is_open(),
                self.same_kind(before),
                self.is_open(),
                before.has_taken(all.take(i as int), flushed@, *self),
            decreases lines.len() - i,
        {
            let ghost so_far = all.take(i as int);
            let ghost earlier = flushed@;
            let ghost middle = *self;
            proof {
                assert(all.take(i + 1) =~= so_far.push(lines[i as int]@));
            }
            match self.write(lines[i].as_slice()) {
                Ok(more) => {
                    flushed.extend_from_slice(more.as_slice());
                    proof {
                        assert(flushed@ =~= earlier + more@);
                        lemma_has_taken_more(
                            before,
                            so_far,
                            earlier,
                            middle,
                            lines[i as int]@,
                            more@,
                            *self,
                        );
                    }
                    i += 1;
                },
                Err(e) => {
                    return Err(e);
                },
            }
        }
        proof {
            assert(all.take(lines.len() as int) =~= all);
        }
        Ok(flushed)
    }

    /// Whether the sink can take lines.
    pub fn check_open(&self) -> (open: bool)
        ensures
            open == self.is_open(),
    {
        match self {
            Sink::Direct(_) => true,
            Sink::Compressing(sink) => sink.check_open(),
        }
    }

    /// Closes the sink and returns the last bytes for the file: what the
    /// direct sink still held, or the rest of the gzip stream.
    pub fn finalize(self) -> (result: Result<Vec<u8>, ErrorKind>)
        ensures
            match self {
                Sink::Direct(sink) => result matches Ok(flushed) && flushed@ == sink.buffered(),
                Sink::Compressing(sink) => match result {
                    Ok(rest) => sink.is_open() && sink.output() + rest@ == gzip_encoding(
                        sink.level(),
                        sink.input(),
                    ) && gzip_decoding(sink.output() + rest@) == Some(sink.input()),
                    Err(e) => e == ErrorKind::Finalize,
                },
            },
            !self.is_open() ==> result is Err,
    {
        match self {
            Sink::Direct(sink) => Ok(sink.finalize()),
            Sink::Compressing(sink) => sink.finalize(),
        }
    }
}

/// An open sink that is given no line stays as it is and gives nothing
/// back.
pub proof fn lemma_has_taken_nothing(sink: Sink)
    requires
        sink.is_open(),
    ensures
        sink.has_taken(Seq::<Seq<u8>>::empty(), Seq::<u8>::empty(), sink),
{
    match sink {
        Sink::Direct(direct) => {},
        Sink::Compressing(compressing) => {
            assert(compressing.input() + Seq::<Seq<u8>>::empty().flatten()
                =~= compressing.input());
            assert(compressing.output() + Seq::<u8>::empty() =~= compressing.output());
        },
    }
}

/// Lines taken one after the other are taken in their order: a sink that
/// has taken `lines` and then `line` has taken `lines` with `line` behind
/// them, and has given back what it gave back for both.
pub proof fn lemma_has_taken_more(
    before: Sink,
    lines: Seq<Seq<u8>>,
    flushed: Seq<u8>,
    middle: Sink,
    line: Seq<u8>,
    more: Seq<u8>,
    after: Sink,
)
    requires
        before.has_taken(lines, flushed, middle),
        middle.has_taken(seq![line], more, after),
    ensures
        before.has_taken(lines.push(line), flushed + more, after),
{
    let single = seq![line];
    assert(single.drop_last() =~= Seq::<Seq<u8>>::empty());
    assert(lines.push(line).drop_last() =~= lines);
    single.lemma_flatten_one_element();
    lines.lemma_flatten_push(line);
    match (before, middle, after) {
        (Sink::Direct(a), Sink::Direct(b), Sink::Direct(c)) => {
            let none = direct_write_all(b.buffered(), b.capacity(), Seq::<Seq<u8>>::empty());
            assert(none == (Seq::<u8>::empty(), b.buffered()));
            let step = direct_write(b.buffered(), b.capacity(), line);
            assert(Seq::<u8>::empty() + step.0 =~= step.0);
            assert(more =~= step.0);
            assert(c.buffered() == step.1);
        },
        (Sink::Compressing(a), Sink::Compressing(b), Sink::Compressing(c)) => {
            assert(c.input() =~= a.input() + lines.push(line).flatten());
            assert(c.output() =~= a.output() + (flushed + more));
        },
        _ => {},
    }
}

} // verus!
