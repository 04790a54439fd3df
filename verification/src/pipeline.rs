//! The streaming pipeline: a framer that feeds a sink.
//!
//! The pipeline takes the source's bytes piece by piece and returns, for
//! each piece, the bytes that have to be written to the destination file.
//! Whatever the pieces are, the file ends up holding the framed stream, or
//! its gzip stream.

use vstd::prelude::*;
use crate::codec::gzip_decoding;
use crate::codec::gzip_encoding;
use crate::codec::CompressionLevel;
use crate::codec::WORKER_THREADS;
use crate::error::ErrorKind;
use crate::framing::complete_length;
use crate::framing::complete_lines;
use crate::framing::contents;
use crate::framing::framed;
use crate::framing::lemma_chunking;
use crate::framing::lemma_complete_length;
use crate::framing::lemma_framed_split;
use crate::framing::remainder;
use crate::framing::LineFramer;
use crate::framing::NEWLINE;
use crate::sink::direct_write_all;
use crate::sink::lemma_direct_write_all;
use crate::sink::DirectSink;
use crate::sink::Sink;
use crate::sink::DIRECT_CAPACITY;

verus! {

/// The part of `s` up to and including its last newline.
pub open spec fn complete_part(s: Seq<u8>) -> Seq<u8> {
    s.take(complete_length(s) as int)
}

/// A framer and the sink that it feeds.
pub struct Pipeline {
    framer: LineFramer,
    sink: Sink,
    consumed: Ghost<Seq<u8>>,
    delivered: Ghost<Seq<u8>>,
}

impl Pipeline {
    #[verifier::type_invariant]
    spec fn well_formed(self) -> bool {
        self.sink.is_open() ==> {
            &&& self.framer.pending() == remainder(self.consumed@)
            &&& match self.sink {
                Sink::Direct(direct) => self.delivered@ + direct.buffered() == complete_part(
                    self.consumed@,
                ),
                Sink::Compressing(compressing) => {
                    &&& compressing.input() == complete_part(self.consumed@)
                    &&& compressing.output() == self.delivered@
                    &&& compressing.threads() == WORKER_THREADS
                },
            }
        }
    }

    /// All the bytes that were fed in, in their order.
    pub closed spec fn consumed(&self) -> Seq<u8> {
        self.consumed@
    }

    /// All the bytes that were given back for the file, in their order.
    pub closed spec fn delivered(&self) -> Seq<u8> {
        self.delivered@
    }

    /// The bytes behind the last newline fed in.
    pub closed spec fn pending(&self) -> Seq<u8> {
        self.framer.pending()
    }

    /// The bytes that the direct sink's buffer holds.
    pub closed spec fn held(&self) -> Seq<u8> {
        match self.sink {
            Sink::Direct(direct) => direct.buffered(),
            Sink::Compressing(_) => Seq::empty(),
        }
    }

    /// The pipeline can take bytes: its sink has not failed.
    pub closed spec fn is_open(&self) -> bool {
        self.sink.is_open()
    }

    /// The compression level, where the sink compresses.
    pub closed spec fn compression(&self) -> Option<int> {
        match self.sink {
            Sink::Direct(_) => None,
            Sink::Compressing(sink) => Some(sink.level()),
        }
    }

    /// The room of the direct sink's buffer.
    pub closed spec fn capacity(&self) -> nat {
        match self.sink {
            Sink::Direct(sink) => sink.capacity(),
            Sink::Compressing(_) => 0,
        }
    }

    /// The number of threads that compress: none where the sink is direct
    /// or has failed.
    pub closed spec fn threads(&self) -> int {
        self.sink.threads()
    }

    /// A pipeline that has taken nothing, with a compressing sink of four
    /// worker threads where a level is given and a direct sink else.
    pub fn new(compression: Option<CompressionLevel>) -> (result: Result<Pipeline, ErrorKind>)
        ensures
            match result {
                Ok(pipeline) => {
                    &&& pipeline.is_open()
                    &&& pipeline.consumed() == Seq::<u8>::empty()
                    &&& pipeline.delivered() == Seq::<u8>::empty()
                    &&& pipeline.pending() == Seq::<u8>::empty()
                    &&& pipeline.held() == Seq::<u8>::empty()
                    &&& match compression {
                        Some(level) => pipeline.compression() == Some(level.level())
                            && pipeline.threads() == WORKER_THREADS,
                        None => pipeline.compression() is None && pipeline.capacity()
                            == DIRECT_CAPACITY,
                    }
                },
                Err(_) => false,
            },
    {
        match Sink::select(compression) {
            Ok(sink) => {
                let framer = LineFramer::new();
                let ghost nothing = Seq::<u8>::empty();
                proof {
                    assert(nothing.take(0) =~= nothing);
                    assert(nothing.skip(0) =~= nothing);
                    assert(nothing + nothing =~= nothing);
                }
                Ok(Pipeline { framer, sink, consumed: Ghost(nothing), delivered: Ghost(nothing) })
            },
            Err(e) => Err(e),
        }
    }

    /// A pipeline with a direct sink of no capacity, to stand in for one
    /// that is being worked on.
    fn placeholder() -> (pipeline: Pipeline)
        ensures
            pipeline.is_open(),
            pipeline.compression() is None,
            pipeline.capacity() == 0,
            pipeline.consumed() == Seq::<u8>::empty(),
            pipeline.delivered() == Seq::<u8>::empty(),
            pipeline.pending() == Seq::<u8>::empty(),
            pipeline.held() == Seq::<u8>::empty(),
    {
        let framer = LineFramer::new();
        let sink = Sink::Direct(DirectSink::with_capacity(0));
        let ghost nothing = Seq::<u8>::empty();
        proof {
            assert(nothing.take(0) =~= nothing);
            assert(nothing.skip(0) =~= nothing);
            assert(nothing + nothing =~= nothing);
        }
        Pipeline { framer, sink, consumed: Ghost(nothing), delivered: Ghost(nothing) }
    }

    /// Takes the next piece of the source's bytes, hands the lines that it
    /// completes to the sink, and returns the bytes that have to be written
    /// to the file now. A piece that completes no line is only kept. After a
    /// write error the pipeline is closed.
    pub fn feed(&mut self, chunk: &[u8]) -> (result: Result<Vec<u8>, ErrorKind>)
        ensures
            final(self).consumed() == old(self).consumed() + chunk@,
            final(self).compression() == old(self).compression(),
            final(self).capacity() == old(self).capacity(),
            match result {
                Ok(flushed) => {
                    &&& old(self).is_open()
                    &&& final(self).is_open()
                    &&& final(self).delivered() == old(self).delivered() + flushed@
                    &&& final(self).pending() == remainder(old(self).pending() + chunk@)
                    &&& final(self).threads() == old(self).threads()
                    &&& old(self).compression() is None ==> (flushed@, final(self).held())
                        == direct_write_all(
                        old(self).held(),
                        old(self).capacity(),
                        complete_lines(old(self).pending() + chunk@),
                    ) && flushed@ + final(self).held() + final(self).pending()
                        == old(self).held() + old(self).pending() + chunk@
                },
                Err(e) => {
                    &&& e == ErrorKind::IoWrite
                    &&& !final(self).is_open()
                    &&& old(self).compression() is Some
                    &&& old(self).is_open() ==> complete_lines(old(self).pending() + chunk@).len()
                        > 0
                },
            },
            !old(self).is_open() ==> result is Err,
            old(self).is_open() && old(self).compression() is None ==> result is Ok,
            old(self).is_open() && complete_lines(old(self).pending() + chunk@).len() == 0
                ==> result is Ok,
    {
        let mut current = Pipeline::placeholder();
        std::mem::swap(self, &mut current);
        proof {
            use_type_invariant(&current);
        }
        let Pipeline { framer, sink, consumed, delivered } = current;
        let mut framer = framer;
        let mut sink = sink;
        let ghost fed = consumed@ + chunk@;
        let ghost before = sink;
        if !sink.check_open() {
            *self = Pipeline { framer, sink, consumed: Ghost(fed), delivered };
            return Err(ErrorKind::IoWrite);
        }
        let lines = framer.push(chunk);
        let ghost completed = contents(lines@);
        match sink.write_all(&lines) {
            Ok(flushed) => {
                let ghost after = sink;
                proof {
                    match (before, after) {
                        (Sink::Direct(a), Sink::Direct(b)) => {
                            lemma_direct_write_all(a.buffered(), a.capacity(), completed);
                            lemma_feed(
                                consumed@,
                                chunk@,
                                delivered@,
                                a.buffered(),
                                flushed@,
                                b.buffered(),
                            );
                        },
                        (Sink::Compressing(a), Sink::Compressing(b)) => {
                            let nothing = Seq::<u8>::empty();
                            assert(nothing + a.input() =~= a.input());
                            assert(nothing + b.input() =~= b.input());
                            lemma_feed(consumed@, chunk@, nothing, a.input(), nothing, b.input());
                            assert((nothing + nothing) + b.input() =~= b.input());
                        },
                        _ => {},
                    }
                }
                *self = Pipeline {
                    framer,
                    sink,
                    consumed: Ghost(fed),
                    delivered: Ghost(delivered@ + flushed@),
                };
                Ok(flushed)
            },
            Err(e) => {
                *self = Pipeline { framer, sink, consumed: Ghost(fed), delivered };
                Err(e)
            },
        }
    }

    /// Ends the stream: what lies behind the last newline becomes the last
    /// line, the sink is finalized, and the last bytes for the file are
    /// returned. With them the file holds the framed stream, or its gzip
    /// stream. Where the sink does not take the last line the error is a
    /// write error; where it cannot be finalized, a finalize error.
    pub fn close(self) -> (result: Result<Vec<u8>, ErrorKind>)
        ensures
            match self.compression() {
                None => match result {
                    Ok(flushed) => flushed@ == self.held() + framed(self.pending())
                        && self.delivered() + flushed@ == framed(self.consumed()),
                    Err(_) => false,
                },
                Some(level) => match result {
                    Ok(rest) => {
                        &&& self.is_open()
                        &&& self.delivered() + rest@ == gzip_encoding(
                            level,
                            framed(self.consumed()),
                        )
                        &&& gzip_decoding(self.delivered() + rest@) == Some(
                            framed(self.consumed()),
                        )
                    },
                    Err(e) => if e == ErrorKind::IoWrite {
                        self.pending().len() > 0
                    } else {
                        e == ErrorKind::Finalize && (self.is_open() || self.pending().len() == 0)
                    },
                },
            },
            !self.is_open() ==> result == Err::<Vec<u8>, ErrorKind>(
                if self.pending().len() > 0 {
                    ErrorKind::IoWrite
                } else {
                    ErrorKind::Finalize
                },
            ),
    {
        proof {
            use_type_invariant(&self);
            lemma_framed_split(self.consumed@);
            lemma_complete_length(self.consumed@);
        }
        let Pipeline { framer, sink, consumed, delivered } = self;
        let mut sink = sink;
        let ghost before = sink;
        let ghost left = framer.pending();
        let mut flushed: Vec<u8> = Vec::new();
        match framer.finish() {
            Some(line) => {
                proof {
                    assert(seq![line@].drop_last() =~= Seq::<Seq<u8>>::empty());
                    seq![line@].lemma_flatten_one_element();
                    lemma_direct_write_all(Seq::<u8>::empty(), 0, Seq::<Seq<u8>>::empty());
                }
                match sink.write(line.as_slice()) {
                    Ok(more) => {
                        let ghost written = sink;
                        proof {
                            if before.is_open() {
                                assert(left.last() != NEWLINE);
                                assert(framed(left) == line@);
                            }
                            match (before, written) {
                                (Sink::Direct(a), Sink::Direct(b)) => {
                                    lemma_direct_write_all(
                                        a.buffered(),
                                        a.capacity(),
                                        seq![line@],
                                    );
                                },
                                _ => {},
                            }
                        }
                        flushed = more;
                    },
                    Err(e) => {
                        return Err(e);
                    },
                }
            },
            None => {
                if !sink.check_open() {
                    return Err(ErrorKind::Finalize);
                }
                proof {
                    assert(framed(left) =~= Seq::<u8>::empty());
                    match before {
                        Sink::Direct(a) => {
                            assert(flushed@ + a.buffered() =~= a.buffered() + framed(left));
                        },
                        Sink::Compressing(a) => {
                            assert(a.input() + framed(left) =~= a.input());
                            assert(a.output() + flushed@ =~= a.output());
                        },
                    }
                }
            },
        }
        let ghost middle = sink;
        match sink.finalize() {
            Ok(rest) => {
                let ghost earlier = flushed@;
                flushed.extend_from_slice(rest.as_slice());
                proof {
                    assert(flushed@ =~= earlier + rest@);
                    match (before, middle) {
                        (Sink::Direct(a), Sink::Direct(b)) => {
                            assert(flushed@ =~= a.buffered() + framed(left));
                            assert(delivered@ + flushed@ =~= (delivered@ + a.buffered()) + framed(
                                left,
                            ));
                        },
                        (Sink::Compressing(a), Sink::Compressing(b)) => {
                            assert(b.input() =~= a.input() + framed(left));
                            assert(b.output() + rest@ =~= delivered@ + flushed@);
                        },
                        _ => {},
                    }
                }
                Ok(flushed)
            },
            Err(e) => Err(e),
        }
    }
}

/// One step of the pipeline keeps its books: where the file and the sink
/// held the complete part of what was fed, and the sink has taken the lines
/// that a new piece completes, they hold the complete part of all that is
/// fed now.
proof fn lemma_feed(
    consumed: Seq<u8>,
    chunk: Seq<u8>,
    delivered: Seq<u8>,
    held: Seq<u8>,
    flushed: Seq<u8>,
    kept: Seq<u8>,
)
    requires
        delivered + held == complete_part(consumed),
        flushed + kept == held + complete_lines(remainder(consumed) + chunk).flatten(),
    ensures
        (delivered + flushed) + kept == complete_part(consumed + chunk),
        remainder(consumed + chunk) == remainder(remainder(consumed) + chunk),
        flushed + kept + remainder(consumed + chunk) == held + remainder(consumed) + chunk,
{
    let start = remainder(consumed);
    let fed = consumed + chunk;
    lemma_chunking(consumed, chunk);
    lemma_framed_split(start + chunk);
    lemma_complete_length(consumed);
    lemma_complete_length(start + chunk);
    let c = complete_length(consumed) as int;
    let d = complete_length(start + chunk) as int;
    let completed = complete_lines(start + chunk).flatten();
    assert(consumed =~= consumed.take(c) + start);
    assert(fed.take(c + d) =~= consumed.take(c) + (start + chunk).take(d));
    assert((delivered + flushed) + kept =~= delivered + (flushed + kept));
    assert(delivered + (held + completed) =~= (delivered + held) + completed);
    assert(start + chunk =~= (start + chunk).take(d) + remainder(start + chunk));
    assert((held + completed) + remainder(start + chunk) =~= held + (completed + remainder(
        start + chunk,
    )));
    assert(held + (start + chunk) =~= held + start + chunk);
}

/// Runs a whole stream through a pipeline and returns the contents of the
/// destination file: the framed stream, or its gzip stream where a level is
/// given. A write error comes only where there is a line to write.
pub fn buffer_output(input: &[u8], compression: Option<CompressionLevel>) -> (result: Result<
    Vec<u8>,
    ErrorKind,
>)
    ensures
        match compression {
            None => result matches Ok(output) && output@ == framed(input@),
            Some(level) => match result {
                Ok(output) => output@ == gzip_encoding(level.level(), framed(input@))
                    && gzip_decoding(output@) == Some(framed(input@)),
                Err(e) => if e == ErrorKind::IoWrite {
                    input@.len() > 0
                } else {
                    e == ErrorKind::Finalize
                },
            },
        },
{
    let mut pipeline = match Pipeline::new(compression) {
        Ok(pipeline) => pipeline,
        Err(e) => {
            return Err(e);
        },
    };
    proof {
        assert(Seq::<u8>::empty() + input@ =~= input@);
        lemma_complete_length(input@);
        if input@.len() == 0 {
            assert(complete_lines(input@) =~= Seq::<Seq<u8>>::empty());
        }
    }
    let mut output = match pipeline.feed(input) {
        Ok(flushed) => flushed,
        Err(e) => {
            return Err(e);
        },
    };
    proof {
        assert(Seq::<u8>::empty() + output@ =~= output@);
    }
    match pipeline.close() {
        Ok(rest) => {
            let ghost earlier = output@;
            output.extend_from_slice(rest.as_slice());
            assert(output@ =~= earlier + rest@);
            Ok(output)
        },
        Err(e) => Err(e),
    }
}

} // verus!
