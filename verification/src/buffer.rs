//! A destination in memory.

use crate::sink::{spliced, ByteSink, Request, SeekSink, Sink, Trace};
use vstd::prelude::*;

verus! {

/// A growing byte buffer with a position. It never reports an error.
pub struct ByteBuffer {
    bytes: Vec<u8>,
    pos: u64,
    asked: Ghost<Seq<Request>>,
}

impl View for ByteBuffer {
    type V = Sink;

    open spec fn view(&self) -> Sink {
        Sink { bytes: self.spec_bytes(), pos: self.spec_pos() }
    }
}

impl ByteBuffer {
    /// The contents.
    pub closed spec fn spec_bytes(self) -> Seq<u8> {
        self.bytes@
    }

    /// The offset at which the next byte goes.
    pub closed spec fn spec_pos(self) -> nat {
        self.pos as nat
    }

    /// What the buffer was asked for so far.
    pub closed spec fn spec_asked(self) -> Seq<Request> {
        self.asked@
    }

    /// A buffer that holds `bytes` and stands at the beginning.
    pub fn new(bytes: Vec<u8>) -> (buffer: ByteBuffer)
        ensures
            buffer@ == (Sink { bytes: bytes@, pos: 0 }),
            buffer.spec_asked() == Seq::<Request>::empty(),
    {
        ByteBuffer { bytes, pos: 0, asked: Ghost(Seq::empty()) }
    }

    /// The bytes of the buffer.
    pub fn get_ref(&self) -> (bytes: &Vec<u8>)
        ensures
            bytes@ == self@.bytes,
    {
        &self.bytes
    }

    /// Gives up the buffer for its bytes.
    pub fn into_inner(self) -> (bytes: Vec<u8>)
        ensures
            bytes@ == self@.bytes,
    {
        self.bytes
    }
}

impl ByteSink for ByteBuffer {
    open spec fn sink(&self) -> Sink {
        self@
    }

    open spec fn trace(&self) -> Trace {
        Trace { asked: self.spec_asked(), faults: Seq::empty() }
    }

    fn write_all(&mut self, data: &[u8]) -> (r: std::io::Result<()>)
        ensures
            r is Ok,
    {
        self.asked = Ghost(self.asked@ + seq![Request::Write(data@)]);
        let n: usize = data.len();
        if n == 0 {
            return Ok(());
        }
        let ghost before = self.bytes@;
        let ghost start = self.pos as nat;
        let ghost asked = self.asked@;
        while (self.bytes.len() as u64) < self.pos
            invariant
                self.pos == start,
                self.asked@ == asked,
                before.len() <= self.bytes@.len(),
                before.len() < self.bytes@.len() ==> self.bytes@.len() <= start,
                forall|i: int|
                    0 <= i < self.bytes@.len() ==> #[trigger] self.bytes@[i] == (if i
                        < before.len() {
                        before[i]
                    } else {
                        0u8
                    }),
            decreases start - self.bytes@.len(),
        {
            self.bytes.push(0);
        }
        let ghost padded = self.bytes@;
        let mut k: usize = 0;
        while k < n
            invariant
                0 <= k <= n,
                n == data@.len(),
                self.pos == start + k,
                self.asked@ == asked,
                start <= padded.len(),
                self.bytes@.len() == (if padded.len() < start + k {
                    start + k
                } else {
                    padded.len() as int
                }),
                forall|i: int|
                    0 <= i < self.bytes@.len() ==> #[trigger] self.bytes@[i] == (if start <= i
                        < start + k {
                        data@[i - start]
                    } else {
                        padded[i]
                    }),
            decreases n - k,
        {
            let at: usize = self.pos as usize;
            if at < self.bytes.len() {
                self.bytes.set(at, data[k]);
            } else {
                self.bytes.push(data[k]);
            }
            assert(start + k + 1 <= self.bytes.len());
            self.pos = self.pos + 1;
            k = k + 1;
        }
        assert(self.bytes@ =~= spliced(before, start, data@));
        Ok(())
    }
}

impl SeekSink for ByteBuffer {
    fn position(&mut self) -> (r: std::io::Result<u64>)
        ensures
            r is Ok,
    {
        self.asked = Ghost(self.asked@ + seq![Request::Position]);
        Ok(self.pos)
    }

    fn seek_start(&mut self, pos: u64) -> (r: std::io::Result<()>)
        ensures
            r is Ok,
    {
        self.asked = Ghost(self.asked@ + seq![Request::Seek(pos as nat)]);
        self.pos = pos;
        Ok(())
    }
}

} // verus!
