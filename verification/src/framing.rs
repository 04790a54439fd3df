//! Line framing: cutting a byte stream into newline-terminated lines.
//!
//! A stream is read as a run of records separated by newline bytes. Every
//! record is handed on with exactly one newline behind it, so the framed
//! stream ends in a newline even where the source did not. Nothing follows
//! a final newline: a stream that ends in one has no empty last record.

use vstd::prelude::*;
use vstd::seq_lib::lemma_flatten_concat;

verus! {

/// The byte that ends a line.
pub const NEWLINE: u8 = 10;

/// No byte of `s` is a newline.
pub open spec fn newline_free(s: Seq<u8>) -> bool {
    forall|i: int| 0 <= i < s.len() ==> s[i] != NEWLINE
}

/// The number of bytes of `s` before its first newline: all of them where
/// it holds none.
pub open spec fn run_length(s: Seq<u8>) -> nat
    decreases s.len(),
{
    if s.len() == 0 || s[0] == NEWLINE {
        0
    } else {
        1 + run_length(s.drop_first())
    }
}

/// The lines of the stream `s`, each with its newline: the stream is cut
/// behind every newline, and a last piece without one is given one.
pub open spec fn lines(s: Seq<u8>) -> Seq<Seq<u8>>
    decreases s.len(),
{
    if s.len() == 0 {
        Seq::empty()
    } else {
        let n = run_length(s) as int;
        if n >= s.len() {
            seq![s.push(NEWLINE)]
        } else {
            seq![s.take(n + 1)] + lines(s.skip(n + 1))
        }
    }
}

/// The framed stream: `s` itself where it is empty or ends in a newline,
/// else `s` with one newline added.
pub open spec fn framed(s: Seq<u8>) -> Seq<u8> {
    if s.len() == 0 || s.last() == NEWLINE {
        s
    } else {
        s.push(NEWLINE)
    }
}

/// The length of the part of `s` up to and including its last newline.
pub open spec fn complete_length(s: Seq<u8>) -> nat
    decreases s.len(),
{
    if s.len() == 0 {
        0
    } else if s.last() == NEWLINE {
        s.len()
    } else {
        complete_length(s.drop_last())
    }
}

/// The lines that `s` holds in full: those of its part up to the last
/// newline.
pub open spec fn complete_lines(s: Seq<u8>) -> Seq<Seq<u8>> {
    lines(s.take(complete_length(s) as int))
}

/// What follows the last newline of `s`: the beginning of a line whose end
/// has not been seen.
pub open spec fn remainder(s: Seq<u8>) -> Seq<u8> {
    s.skip(complete_length(s) as int)
}

/// `l` is one line: it ends in a newline and holds no other.
pub open spec fn is_line(l: Seq<u8>) -> bool {
    l.len() > 0 && l.last() == NEWLINE && newline_free(l.drop_last())
}

/// Every record of `records` followed by a newline, one after the other.
pub open spec fn joined(records: Seq<Seq<u8>>) -> Seq<u8> {
    records.map_values(|r: Seq<u8>| r.push(NEWLINE)).flatten()
}

/// The text of a source that sends `records` with a newline between them,
/// and one behind the last where `trailing_newline` is set.
pub open spec fn source_text(records: Seq<Seq<u8>>, trailing_newline: bool) -> Seq<u8> {
    if trailing_newline || records.len() == 0 {
        joined(records)
    } else {
        joined(records).drop_last()
    }
}

/// The contents of a list of byte vectors.
pub open spec fn contents(v: Seq<Vec<u8>>) -> Seq<Seq<u8>> {
    v.map_values(|l: Vec<u8>| l@)
}

/// `run_length` stops at the first newline and nowhere before it.
pub proof fn lemma_run_length(s: Seq<u8>)
    ensures
        run_length(s) <= s.len(),
        forall|i: int| 0 <= i < run_length(s) ==> s[i] != NEWLINE,
        run_length(s) < s.len() ==> s[run_length(s) as int] == NEWLINE,
    decreases s.len(),
{
    if s.len() == 0 || s[0] == NEWLINE {
    } else {
        let t = s.drop_first();
        lemma_run_length(t);
        assert forall|i: int| 0 <= i < run_length(s) implies s[i] != NEWLINE by {
            if i > 0 {
                assert(s[i] == t[i - 1]);
            }
        }
        if run_length(s) < s.len() {
            assert(s[run_length(s) as int] == t[run_length(t) as int]);
        }
    }
}

/// A position with a newline, or the end, and no newline before it is where
/// `run_length` stops.
pub proof fn lemma_run_length_is(s: Seq<u8>, n: int)
    requires
        0 <= n <= s.len(),
        forall|i: int| 0 <= i < n ==> s[i] != NEWLINE,
        n < s.len() ==> s[n] == NEWLINE,
    ensures
        run_length(s) == n,
    decreases s.len(),
{
    if s.len() == 0 || s[0] == NEWLINE {
    } else {
        let t = s.drop_first();
        assert forall|i: int| 0 <= i < n - 1 implies t[i] != NEWLINE by {
            assert(t[i] == s[i + 1]);
        }
        lemma_run_length_is(t, n - 1);
    }
}

/// What lies behind the last newline holds none.
pub proof fn lemma_complete_length(s: Seq<u8>)
    ensures
        complete_length(s) <= s.len(),
        complete_length(s) > 0 ==> s[complete_length(s) - 1] == NEWLINE,
        newline_free(remainder(s)),
        complete_length(s) == 0 <==> newline_free(s),
    decreases s.len(),
{
    if s.len() == 0 {
    } else if s.last() == NEWLINE {
    } else {
        let t = s.drop_last();
        lemma_complete_length(t);
        let c = complete_length(s) as int;
        assert forall|i: int| 0 <= i < remainder(s).len() implies remainder(s)[i] != NEWLINE by {
            if c + i < t.len() {
                assert(remainder(s)[i] == remainder(t)[i]);
            }
        }
        if newline_free(s) {
            assert forall|i: int| 0 <= i < t.len() implies t[i] != NEWLINE by {
                assert(t[i] == s[i]);
            }
        }
        if c == 0 {
            assert forall|i: int| 0 <= i < s.len() implies s[i] != NEWLINE by {
                if i < t.len() {
                    assert(s[i] == t[i]);
                }
            }
        }
    }
}

/// A stream with no newline is one line, or none where it is empty.
pub proof fn lemma_lines_of_fragment(s: Seq<u8>)
    requires
        newline_free(s),
    ensures
        lines(s) == if s.len() == 0 {
            Seq::<Seq<u8>>::empty()
        } else {
            seq![s.push(NEWLINE)]
        },
        lines(s.push(NEWLINE)) == seq![s.push(NEWLINE)],
{
    lemma_run_length_is(s, s.len() as int);
    let t = s.push(NEWLINE);
    let n = s.len() as int;
    lemma_run_length_is(t, n);
    assert(t.take(n + 1) =~= t);
    assert(t.skip(n + 1) =~= Seq::<u8>::empty());
    assert(lines(Seq::<u8>::empty()) =~= Seq::<Seq<u8>>::empty());
    assert(lines(t) =~= seq![t]);
}

/// Where `x` ends in a newline, the lines of `x` followed by `y` are those
/// of `x` followed by those of `y`.
pub proof fn lemma_lines_concat(x: Seq<u8>, y: Seq<u8>)
    requires
        x.len() == 0 || x.last() == NEWLINE,
    ensures
        lines(x + y) == lines(x) + lines(y),
    decreases x.len(),
{
    if x.len() == 0 {
        assert(x + y =~= y);
        assert(lines(x) + lines(y) =~= lines(y));
    } else {
        let n = run_length(x) as int;
        lemma_run_length(x);
        assert(n < x.len()) by {
            if n >= x.len() {
                assert(x[x.len() - 1] != NEWLINE);
            }
        }
        lemma_run_length_is(x + y, n);
        let rest = x.skip(n + 1);
        assert((x + y).take(n + 1) =~= x.take(n + 1));
        assert((x + y).skip(n + 1) =~= rest + y);
        if rest.len() > 0 {
            assert(rest.last() == x.last());
        }
        lemma_lines_concat(rest, y);
        assert(lines(x + y) =~= seq![x.take(n + 1)] + (lines(rest) + lines(y)));
        assert(lines(x + y) =~= lines(x) + lines(y));
    }
}

/// The lines of a stream are the lines it holds in full, then the line made
/// of what follows its last newline.
pub proof fn lemma_lines_split(s: Seq<u8>)
    ensures
        lines(s) == complete_lines(s) + lines(remainder(s)),
        newline_free(remainder(s)),
{
    lemma_complete_length(s);
    let c = complete_length(s) as int;
    assert(s =~= s.take(c) + s.skip(c));
    if c > 0 {
        assert(s.take(c).last() == s[c - 1]);
    }
    lemma_lines_concat(s.take(c), s.skip(c));
}

/// Every line of a stream ends in a newline and holds no other.
pub proof fn lemma_lines_are_lines(s: Seq<u8>)
    ensures
        forall|i: int| 0 <= i < lines(s).len() ==> is_line(#[trigger] lines(s)[i]),
    decreases s.len(),
{
    if s.len() == 0 {
    } else {
        let n = run_length(s) as int;
        lemma_run_length(s);
        if n >= s.len() {
            assert(s.push(NEWLINE).drop_last() =~= s);
        } else {
            let head = s.take(n + 1);
            assert(head.drop_last() =~= s.take(n));
            assert(is_line(head));
            lemma_lines_are_lines(s.skip(n + 1));
            assert forall|i: int| 0 <= i < lines(s).len() implies is_line(
                #[trigger] lines(s)[i],
            ) by {
                if i > 0 {
                    assert(lines(s)[i] == lines(s.skip(n + 1))[i - 1]);
                }
            }
        }
    }
}

/// The lines of a stream, one after the other, are the framed stream.
pub proof fn lemma_lines_flatten(s: Seq<u8>)
    ensures
        lines(s).flatten() == framed(s),
    decreases s.len(),
{
    if s.len() == 0 {
        assert(lines(s).flatten() =~= framed(s));
    } else {
        let n = run_length(s) as int;
        lemma_run_length(s);
        if n >= s.len() {
            assert(s[s.len() - 1] != NEWLINE);
            lines(s).lemma_flatten_one_element();
        } else {
            let head = s.take(n + 1);
            let rest = s.skip(n + 1);
            lemma_lines_flatten(rest);
            lemma_flatten_concat(seq![head], lines(rest));
            seq![head].lemma_flatten_one_element();
            assert(s =~= head + rest);
            if rest.len() == 0 {
                assert(s =~= head);
                assert(head + framed(rest) =~= framed(s));
            } else {
                assert(rest.last() == s.last());
                assert(head + framed(rest) =~= framed(s));
            }
        }
    }
}

/// A stream and its framed form have the same lines.
pub proof fn lemma_lines_of_framed(s: Seq<u8>)
    ensures
        lines(framed(s)) == lines(s),
{
    lemma_lines_split(s);
    lemma_complete_length(s);
    let c = complete_length(s) as int;
    let r = remainder(s);
    if s.len() == 0 || s.last() == NEWLINE {
    } else {
        assert(r.len() > 0);
        lemma_lines_of_fragment(r);
        assert(framed(s) =~= s.take(c) + r.push(NEWLINE));
        if c > 0 {
            assert(s.take(c).last() == s[c - 1]);
        }
        lemma_lines_concat(s.take(c), r.push(NEWLINE));
    }
}

/// Framing what is already framed changes nothing.
pub proof fn lemma_framed_idempotent(s: Seq<u8>)
    ensures
        framed(framed(s)) == framed(s),
        lines(framed(s)).flatten() == framed(s),
{
    lemma_lines_of_framed(s);
    lemma_lines_flatten(s);
}

/// The framed stream is the part up to the last newline, then the framed
/// remainder.
pub proof fn lemma_framed_split(s: Seq<u8>)
    ensures
        framed(s) == s.take(complete_length(s) as int) + framed(remainder(s)),
        complete_lines(s).flatten() == s.take(complete_length(s) as int),
{
    lemma_complete_length(s);
    let c = complete_length(s) as int;
    let r = remainder(s);
    assert(s =~= s.take(c) + r);
    if s.len() > 0 && s.last() != NEWLINE {
        assert(r.len() > 0);
        assert(r.last() == s.last());
    }
    assert(framed(s) =~= s.take(c) + framed(r));
    lemma_lines_flatten(s.take(c));
    if c > 0 {
        assert(s.take(c).last() == s[c - 1]);
    }
}

/// Reading a stream in two pieces: the lines complete after both are those
/// complete after the first, then those completed by the second piece put
/// behind what the first left over. The same holds of what is left over.
pub proof fn lemma_chunking(a: Seq<u8>, b: Seq<u8>)
    ensures
        complete_lines(a + b) == complete_lines(a) + complete_lines(remainder(a) + b),
        remainder(a + b) == remainder(remainder(a) + b),
        complete_length(a + b) == complete_length(a) + complete_length(remainder(a) + b),
    decreases b.len(),
{
    lemma_complete_length(a);
    let c = complete_length(a) as int;
    let r = remainder(a);
    lemma_chunk_length(a, b);
    let d = complete_length(r + b) as int;
    lemma_complete_length(r + b);
    assert((a + b).take(c + d) =~= a.take(c) + (r + b).take(d));
    assert((a + b).skip(c + d) =~= (r + b).skip(d));
    if c > 0 {
        assert(a.take(c).last() == a[c - 1]);
    }
    lemma_lines_concat(a.take(c), (r + b).take(d));
}

proof fn lemma_chunk_length(a: Seq<u8>, b: Seq<u8>)
    ensures
        complete_length(a + b) == complete_length(a) + complete_length(remainder(a) + b),
    decreases b.len(),
{
    lemma_complete_length(a);
    let r = remainder(a);
    if b.len() == 0 {
        assert(a + b =~= a);
        assert(r + b =~= r);
        lemma_complete_length(r);
    } else if b.last() == NEWLINE {
        assert((a + b).last() == NEWLINE);
        assert((r + b).last() == NEWLINE);
    } else {
        assert((a + b).drop_last() =~= a + b.drop_last());
        assert((r + b).drop_last() =~= r + b.drop_last());
        lemma_chunk_length(a, b.drop_last());
    }
}

/// The joined records, read back, give each record with its newline.
pub proof fn lemma_lines_of_joined(records: Seq<Seq<u8>>)
    requires
        forall|i: int| 0 <= i < records.len() ==> newline_free(#[trigger] records[i]),
    ensures
        lines(joined(records)) == records.map_values(|r: Seq<u8>| r.push(NEWLINE)),
        joined(records).len() == 0 || joined(records).last() == NEWLINE,
        records.len() > 0 ==> joined(records).len() > 0,
    decreases records.len(),
{
    let terminated = records.map_values(|r: Seq<u8>| r.push(NEWLINE));
    if records.len() == 0 {
        assert(joined(records) =~= Seq::<u8>::empty());
        assert(lines(joined(records)) =~= terminated);
    } else {
        let first = records[0];
        let rest = records.drop_first();
        let rest_terminated = rest.map_values(|r: Seq<u8>| r.push(NEWLINE));
        assert(terminated.drop_first() =~= rest_terminated);
        assert(joined(records) == first.push(NEWLINE) + joined(rest));
        assert forall|i: int| 0 <= i < rest.len() implies newline_free(#[trigger] rest[i]) by {
            assert(rest[i] == records[i + 1]);
        }
        lemma_lines_of_joined(rest);
        lemma_lines_of_fragment(first);
        lemma_lines_concat(first.push(NEWLINE), joined(rest));
        assert(lines(joined(records)) =~= terminated);
        if joined(rest).len() > 0 {
            assert(joined(records).last() == joined(rest).last());
        } else {
            assert(joined(records) =~= first.push(NEWLINE));
        }
    }
}

/// Records without a newline in them, sent with or without a newline behind
/// the last, come out each with exactly one newline, in their order. Left
/// out is a last record that is empty and has no newline behind it: such a
/// source sends nothing for it.
pub proof fn lemma_round_trip(records: Seq<Seq<u8>>, trailing_newline: bool)
    requires
        forall|i: int| 0 <= i < records.len() ==> newline_free(#[trigger] records[i]),
        trailing_newline || records.len() == 0 || records.last().len() > 0,
    ensures
        framed(source_text(records, trailing_newline)) == joined(records),
        lines(source_text(records, trailing_newline)) == records.map_values(
            |r: Seq<u8>| r.push(NEWLINE),
        ),
{
    lemma_lines_of_joined(records);
    let text = source_text(records, trailing_newline);
    if trailing_newline || records.len() == 0 {
    } else {
        let all = joined(records);
        lemma_joined_last(records);
        let last = records.last();
        let k = last.len() as int;
        let tail = all.subrange(all.len() - k - 1, all.len() as int);
        assert(text.len() > 0);
        assert(all[all.len() - 2] == tail[k - 1]);
        assert(text.last() == last.last());
        assert(last[last.len() - 1] != NEWLINE);
        assert(text.push(NEWLINE) =~= all);
    }
    lemma_lines_of_framed(text);
}

proof fn lemma_joined_last(records: Seq<Seq<u8>>)
    requires
        records.len() > 0,
    ensures
        joined(records).len() >= records.last().len() + 1,
        joined(records).subrange(
            joined(records).len() - records.last().len() - 1,
            joined(records).len() as int,
        ) == records.last().push(NEWLINE),
{
    let terminated = records.map_values(|r: Seq<u8>| r.push(NEWLINE));
    assert(terminated =~= terminated.drop_last().push(records.last().push(NEWLINE)));
    terminated.drop_last().lemma_flatten_push(records.last().push(NEWLINE));
    let front = terminated.drop_last().flatten();
    assert(joined(records) =~= front + records.last().push(NEWLINE));
    assert(joined(records).subrange(
        joined(records).len() - records.last().len() - 1,
        joined(records).len() as int,
    ) =~= records.last().push(NEWLINE));
}

/// Cuts a stream that arrives piece by piece into lines.
///
/// The framer keeps what it has seen behind the last newline. Each piece
/// pushed into it gives the lines that the piece completes; at the end of
/// the stream what is left, if anything, becomes the last line.
pub struct LineFramer {
    pending: Vec<u8>,
}

impl LineFramer {
    #[verifier::type_invariant]
    spec fn well_formed(self) -> bool {
        newline_free(self.pending@)
    }

    /// The bytes seen since the last newline.
    pub closed spec fn pending(&self) -> Seq<u8> {
        self.pending@
    }

    /// A framer that has seen nothing.
    pub fn new() -> (framer: LineFramer)
        ensures
            framer.pending() == Seq::<u8>::empty(),
    {
        LineFramer { pending: Vec::new() }
    }

    /// The number of bytes seen since the last newline.
    pub fn pending_len(&self) -> (n: usize)
        ensures
            n == self.pending().len(),
    {
        self.pending.len()
    }

    /// Takes the next piece of the stream and returns the lines that it
    /// completes, each with its newline.
    pub fn push(&mut self, chunk: &[u8]) -> (completed: Vec<Vec<u8>>)
        ensures
            contents(completed@) == complete_lines(old(self).pending() + chunk@),
            final(self).pending() == remainder(old(self).pending() + chunk@),
            newline_free(final(self).pending()),
            contents(completed@).flatten() + final(self).pending() == old(self).pending()
                + chunk@,
    {
        let ghost start = self.pending@;
        let mut completed: Vec<Vec<u8>> = Vec::new();
        let mut pending: Vec<u8> = Vec::new();
        let mut i: usize = 0;
        proof {
            use_type_invariant(&*self);
        }
        std::mem::swap(&mut pending, &mut self.pending);
        proof {
            assert(start + chunk@.take(0) =~= start);
            lemma_complete_length(start);
            assert(start.take(0) =~= Seq::<u8>::empty());
            assert(start.skip(0) =~= start);
            assert(contents(completed@) =~= complete_lines(start));
        }
        while i < chunk.len()
            invariant
                i <= chunk.len(),
                newline_free(pending@),
                contents(completed@) == complete_lines(start + chunk@.take(i as int)),
                pending@ == remainder(start + chunk@.take(i as int)),
            decreases chunk.len() - i,
        {
            let byte = chunk[i];
            let ghost seen = start + chunk@.take(i as int);
            let ghost before = contents(completed@);
            let ghost held = pending@;
            proof {
                assert(start + chunk@.take(i + 1) =~= seen.push(byte));
                assert(seen.push(byte).drop_last() =~= seen);
                lemma_complete_length(seen);
            }
            if byte == NEWLINE {
                let mut line: Vec<u8> = Vec::new();
                std::mem::swap(&mut line, &mut pending);
                line.push(NEWLINE);
                completed.push(line);
                proof {
                    let c = complete_length(seen) as int;
                    let next = seen.push(byte);
                    assert(next.take(next.len() as int) =~= next);
                    assert(next =~= seen.take(c) + held.push(NEWLINE));
                    if c > 0 {
                        assert(seen.take(c).last() == seen[c - 1]);
                    }
                    lemma_lines_concat(seen.take(c), held.push(NEWLINE));
                    lemma_lines_of_fragment(held);
                    assert(contents(completed@) =~= before.push(held.push(NEWLINE)));
                    assert(contents(completed@) =~= complete_lines(next));
                    assert(pending@ =~= remainder(next));
                }
            } else {
                pending.push(byte);
                proof {
                    let c = complete_length(seen) as int;
                    let next = seen.push(byte);
                    assert(next.take(c) =~= seen.take(c));
                    assert(pending@ =~= remainder(next));
                }
            }
            i += 1;
        }
        proof {
            let all = start + chunk@;
            assert(chunk@.take(chunk.len() as int) =~= chunk@);
            lemma_framed_split(all);
            lemma_complete_length(all);
            assert(all =~= all.take(complete_length(all) as int) + remainder(all));
        }
        self.pending = pending;
        completed
    }

    /// Ends the stream: what was seen behind the last newline, if anything,
    /// is the last line and gets its newline.
    pub fn finish(self) -> (last: Option<Vec<u8>>)
        ensures
            match last {
                Some(line) => self.pending().len() > 0 && line@ == self.pending().push(NEWLINE),
                None => self.pending().len() == 0,
            },
            contents(last_line(last)) == lines(self.pending()),
    {
        proof {
            use_type_invariant(&self);
            lemma_lines_of_fragment(self.pending@);
        }
        let mut line = self.pending;
        if line.len() == 0 {
            assert(contents(last_line(None)) =~= Seq::<Seq<u8>>::empty());
            None
        } else {
            line.push(NEWLINE);
            assert(contents(last_line(Some(line))) =~= seq![line@]);
            Some(line)
        }
    }
}

/// The last line as a list: one line, or none.
pub open spec fn last_line(last: Option<Vec<u8>>) -> Seq<Vec<u8>> {
    match last {
        Some(line) => seq![line],
        None => Seq::empty(),
    }
}

/// Cuts a whole stream into its lines, each with its newline.
pub fn split_lines(input: &[u8]) -> (result: Vec<Vec<u8>>)
    ensures
        contents(result@) == lines(input@),
        contents(result@).flatten() == framed(input@),
        forall|i: int| 0 <= i < result.len() ==> is_line(#[trigger] result[i]@),
{
    let mut framer = LineFramer::new();
    let mut result = framer.push(input);
    let ghost complete = contents(result@);
    let ghost left = framer.pending();
    let last = framer.finish();
    proof {
        assert(Seq::<u8>::empty() + input@ =~= input@);
        lemma_lines_split(input@);
        lemma_lines_flatten(input@);
        lemma_lines_are_lines(input@);
    }
    match last {
        Some(line) => {
            result.push(line);
            assert(contents(result@) =~= complete + seq![line@]);
        },
        None => {
            assert(contents(result@) =~= complete + Seq::<Seq<u8>>::empty());
        },
    }
    assert(contents(result@) == lines(input@));
    assert forall|i: int| 0 <= i < result.len() implies is_line(#[trigger] result[i]@) by {
        assert(result[i]@ == contents(result@)[i]);
        assert(is_line(lines(input@)[i]));
    }
    result
}

/// Frames a whole stream: the same bytes, with a newline added where the
/// stream is not empty and does not end in one.
pub fn reframe(input: &[u8]) -> (output: Vec<u8>)
    ensures
        output@ == framed(input@),
{
    let mut output: Vec<u8> = Vec::with_capacity(input.len());
    output.extend_from_slice(input);
    assert(output@ =~= input@);
    let n = input.len();
    if n > 0 && input[n - 1] != NEWLINE {
        output.push(NEWLINE);
    }
    output
}

} // verus!
