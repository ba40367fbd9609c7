//! Byte destinations: what they hold, and what writing and seeking do to them.

use vstd::prelude::*;

verus! {

/// `bytes` after `data` was written at offset `pos`: what lies there is overwritten, the end
/// moves when `data` reaches past it, and a gap in front of `pos` is filled with zeros.
pub open spec fn spliced(bytes: Seq<u8>, pos: nat, data: Seq<u8>) -> Seq<u8> {
    if data.len() == 0 {
        bytes
    } else {
        Seq::new(
            if bytes.len() < pos + data.len() {
                pos + data.len()
            } else {
                bytes.len()
            },
            |i: int|
                if pos <= i < pos + data.len() {
                    data[i - pos]
                } else if i < bytes.len() {
                    bytes[i]
                } else {
                    0u8
                },
        )
    }
}

/// The contents of a destination and the offset at which the next byte goes.
pub struct Sink {
    pub bytes: Seq<u8>,
    pub pos: nat,
}

/// What a destination can be asked for.
pub enum Request {
    /// To write these bytes at the current position.
    Write(Seq<u8>),
    /// To tell the current position.
    Position,
    /// To move the position to this offset from the beginning.
    Seek(nat),
}

impl Sink {
    /// The destination after `data` was written.
    pub open spec fn write(self, data: Seq<u8>) -> Sink {
        Sink { bytes: spliced(self.bytes, self.pos, data), pos: self.pos + data.len() }
    }

    /// The destination after its position was moved to `pos`.
    pub open spec fn seek(self, pos: nat) -> Sink {
        Sink { bytes: self.bytes, pos }
    }

    /// The contents after the first `n` bytes of `data` were written, and no more.
    pub open spec fn torn(self, data: Seq<u8>, n: nat) -> Seq<u8> {
        spliced(self.bytes, self.pos, data.take(n as int))
    }

    /// `after` can be what is left when `request` fails: a part of the bytes from their beginning
    /// may have been written, and nothing else has changed the contents. The position may be
    /// anywhere.
    pub open spec fn broken(self, request: Request, after: Sink) -> bool {
        match request {
            Request::Write(data) => exists|n: nat|
                n <= data.len() && after.bytes == #[trigger] self.torn(data, n),
            Request::Position => after.bytes == self.bytes,
            Request::Seek(_) => after.bytes == self.bytes,
        }
    }
}

/// What has happened to a destination.
pub struct Trace {
    /// What it was asked for so far.
    pub asked: Seq<Request>,
    /// The errors that it answered with.
    pub faults: Seq<std::io::Error>,
}

impl Trace {
    /// What has happened once `requests` were met.
    pub open spec fn met(self, requests: Seq<Request>) -> Trace {
        Trace { asked: self.asked + requests, ..self }
    }

    /// `after` is what has happened once `request` was answered with `e`.
    pub open spec fn failed(self, request: Request, after: Trace, e: std::io::Error) -> bool {
        &&& after.asked == self.asked.push(request)
        &&& after.faults.len() == self.faults.len() + 1
        &&& after.faults.drop_last() == self.faults
        &&& after.faults.last() == e
    }
}

/// A destination that stood at `sink`, with `trace` behind it, answered `request` with `e`, and
/// was asked for nothing more.
pub open spec fn request_failed(
    sink: Sink,
    trace: Trace,
    request: Request,
    sink_after: Sink,
    trace_after: Trace,
    e: std::io::Error,
) -> bool {
    &&& trace.failed(request, trace_after, e)
    &&& sink.broken(request, sink_after)
}

/// One request for each piece, to write it.
pub open spec fn writes(pieces: Seq<Seq<u8>>) -> Seq<Request> {
    Seq::new(pieces.len(), |k: int| Request::Write(pieces[k]))
}

/// Requests that were met one after the other.
pub proof fn lemma_met_met(t: Trace, a: Seq<Request>, b: Seq<Request>)
    ensures
        t.met(a).met(b) == t.met(a + b),
{
    assert((t.asked + a) + b =~= t.asked + (a + b));
}

/// Without a request nothing happens.
pub proof fn lemma_met_nothing(t: Trace)
    ensures
        t.met(Seq::<Request>::empty()) == t,
{
    assert(t.asked + Seq::<Request>::empty() =~= t.asked);
}

/// One more piece that was written.
pub proof fn lemma_met_write(t: Trace, pieces: Seq<Seq<u8>>, piece: Seq<u8>)
    ensures
        t.met(writes(pieces)).met(seq![Request::Write(piece)]) == t.met(
            writes(pieces.push(piece)),
        ),
{
    lemma_met_met(t, writes(pieces), seq![Request::Write(piece)]);
    assert(writes(pieces) + seq![Request::Write(piece)] =~= writes(pieces.push(piece)));
}

/// Two writes in a row do what one write of both pieces does.
pub proof fn lemma_write_write(s: Sink, a: Seq<u8>, b: Seq<u8>)
    ensures
        s.write(a).write(b) == s.write(a + b),
{
    assert(s.write(a).write(b).bytes =~= s.write(a + b).bytes);
}

/// Writing nothing changes nothing.
pub proof fn lemma_write_nothing(s: Sink)
    ensures
        s.write(Seq::<u8>::empty()) == s,
{
}

/// Going back to overwrite a piece by one of the same length does what writing that one at once
/// would have done.
pub proof fn lemma_rewrite(s: Sink, a: Seq<u8>, b: Seq<u8>, c: Seq<u8>)
    requires
        a.len() == c.len(),
        0 < a.len(),
    ensures
        s.write(a).write(b).seek(s.pos).write(c).seek(s.pos + a.len() + b.len()) == s.write(
            c,
        ).write(b),
{
    assert(s.write(a).write(b).seek(s.pos).write(c).bytes =~= s.write(c).write(b).bytes);
}

/// A destination of bytes.
pub trait ByteSink {
    /// What the destination holds, and where it stands.
    spec fn sink(&self) -> Sink;

    /// What the destination was asked for, and the errors that it answered with.
    spec fn trace(&self) -> Trace;

    /// Writes all of `data` at the current position.
    fn write_all(&mut self, data: &[u8]) -> (r: std::io::Result<()>)
        ensures
            r is Ok ==> final(self).sink() == old(self).sink().write(data@),
            r is Ok ==> final(self).sink().pos <= u64::MAX,
            r is Ok ==> final(self).trace() == old(self).trace().met(
                seq![Request::Write(data@)],
            ),
            r matches Err(e) ==> request_failed(
                old(self).sink(),
                old(self).trace(),
                Request::Write(data@),
                final(self).sink(),
                final(self).trace(),
                e,
            ),
    ;
}

/// A destination of bytes whose position can be read and moved.
pub trait SeekSink: ByteSink {
    /// The offset, from the beginning of the destination, at which the next byte goes.
    fn position(&mut self) -> (r: std::io::Result<u64>)
        ensures
            r matches Ok(p) ==> p == old(self).sink().pos && final(self).sink() == old(self).sink(),
            r is Ok ==> final(self).trace() == old(self).trace().met(seq![Request::Position]),
            r matches Err(e) ==> request_failed(
                old(self).sink(),
                old(self).trace(),
                Request::Position,
                final(self).sink(),
                final(self).trace(),
                e,
            ),
    ;

    /// Moves the position to `pos` bytes from the beginning.
    fn seek_start(&mut self, pos: u64) -> (r: std::io::Result<()>)
        ensures
            r is Ok ==> final(self).sink() == old(self).sink().seek(pos as nat),
            r is Ok ==> final(self).trace() == old(self).trace().met(
                seq![Request::Seek(pos as nat)],
            ),
            r matches Err(e) ==> request_failed(
                old(self).sink(),
                old(self).trace(),
                Request::Seek(pos as nat),
                final(self).sink(),
                final(self).trace(),
                e,
            ),
    ;
}

} // verus!
