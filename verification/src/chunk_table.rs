//! The table of the chunks of a file.

use crate::codec::{encodes_table, i64_to_le_bytes, le_bytes, table_encoder_ready};
use crate::sink::{lemma_met_met, request_failed, ByteSink, Request, SeekSink, Sink, Trace};
use crate::vlr::{LazVlr, VlrView};
use vstd::prelude::*;

verus! {

/// What the table says of one chunk.
#[derive(Clone, Copy, Debug, PartialEq, Eq, Structural)]
pub struct ChunkTableEntry {
    /// Number of points of the chunk.
    pub point_count: u64,
    /// Number of bytes of the chunk once compressed.
    pub byte_count: u64,
}

/// The entry of a chunk of `input_size` bytes of points that take `byte_count` bytes once
/// compressed. Chunks of a fixed size are all entered with that size, the last one too.
pub open spec fn entry_of(vlr: VlrView, input_size: nat, byte_count: nat) -> ChunkTableEntry {
    ChunkTableEntry {
        point_count: if vlr.variable() {
            (input_size / vlr.point_size()) as u64
        } else {
            vlr.chunk_size as u64
        },
        byte_count: byte_count as u64,
    }
}

/// The entries of `chunks` of points that were compressed to `encoded`.
pub open spec fn entries_of(
    vlr: VlrView,
    chunks: Seq<Seq<u8>>,
    encoded: Seq<Seq<u8>>,
) -> Seq<ChunkTableEntry> {
    Seq::new(chunks.len(), |k: int| entry_of(vlr, chunks[k].len(), encoded[k].len()))
}

/// The table of the chunks written so far, in the order in which they were written.
pub struct ChunkTable {
    entries: Vec<ChunkTableEntry>,
}

impl View for ChunkTable {
    type V = Seq<ChunkTableEntry>;

    closed spec fn view(&self) -> Seq<ChunkTableEntry> {
        self.entries@
    }
}

impl Default for ChunkTable {
    /// A table without entries.
    fn default() -> (table: ChunkTable)
        ensures
            table@ == Seq::<ChunkTableEntry>::empty(),
    {
        ChunkTable { entries: Vec::new() }
    }
}

impl ChunkTable {
    /// A table without entries, with room for `capacity` of them.
    pub fn with_capacity(capacity: usize) -> (table: ChunkTable)
        ensures
            table@ == Seq::<ChunkTableEntry>::empty(),
    {
        ChunkTable { entries: Vec::with_capacity(capacity) }
    }

    /// Appends an entry.
    pub fn push(&mut self, entry: ChunkTableEntry)
        ensures
            final(self)@ == old(self)@.push(entry),
    {
        self.entries.push(entry);
    }

    /// Appends the entries of another table.
    pub fn extend(&mut self, other: &ChunkTable)
        ensures
            final(self)@ == old(self)@ + other@,
    {
        let ghost before = self.entries@;
        let mut k: usize = 0;
        while k < other.entries.len()
            invariant
                k <= other.entries@.len(),
                self.entries@ == before + other.entries@.take(k as int),
            decreases other.entries@.len() - k,
        {
            self.entries.push(other.entries[k]);
            k = k + 1;
        }
        assert(other.entries@.take(k as int) =~= other.entries@);
    }

    /// Whether there is no entry.
    pub fn is_empty(&self) -> (b: bool)
        ensures
            b == (self@.len() == 0),
    {
        self.entries.len() == 0
    }

    /// The entries, in the order in which the chunks were written.
    pub fn entries(&self) -> (entries: &[ChunkTableEntry])
        ensures
            entries@ == self@,
    {
        self.entries.as_slice()
    }

    /// Writes the table in the form that the table encoder gives it.
    pub fn write_to<W, T>(&self, dst: &mut W, vlr: &LazVlr, encode_table: &T) -> (r: Result<
        (),
        std::io::Error,
    >) where W: ByteSink, T: Fn(&ChunkTable, &LazVlr) -> std::io::Result<Vec<u8>>
        requires
            table_encoder_ready(*encode_table, vlr@),
        ensures
            r is Ok ==> exists|bytes: Seq<u8>| #[trigger]
                encodes_table(*encode_table, vlr@, self@, Ok::<Seq<u8>, std::io::Error>(bytes))
                    && final(dst).sink() == old(dst).sink().write(bytes) && final(dst).trace()
                    == old(dst).trace().met(seq![Request::Write(bytes)]),
            r matches Err(e) ==> {
                ||| encodes_table(*encode_table, vlr@, self@, Err::<Seq<u8>, std::io::Error>(e))
                    && *final(dst) == *old(dst)
                ||| exists|bytes: Seq<u8>| #[trigger]
                    encodes_table(*encode_table, vlr@, self@, Ok::<Seq<u8>, std::io::Error>(bytes))
                        && request_failed(
                        old(dst).sink(),
                        old(dst).trace(),
                        Request::Write(bytes),
                        final(dst).sink(),
                        final(dst).trace(),
                        e,
                    )
            },
    {
        match encode_table(self, vlr) {
            Ok(bytes) => {
                assert(encodes_table(
                    *encode_table,
                    vlr@,
                    self@,
                    Ok::<Seq<u8>, std::io::Error>(bytes@),
                ));
                dst.write_all(bytes.as_slice())
            },
            Err(e) => Err(e),
        }
    }
}

/// What is asked of a destination at `pos` to reserve eight bytes for the offset to the chunk
/// table.
pub open spec fn reserve_requests(pos: nat) -> Seq<Request> {
    seq![Request::Position, Request::Write(le_bytes(pos as i64))]
}

/// What is asked of a destination at `pos` to store that position in the eight bytes at
/// `offset_pos`.
pub open spec fn offset_requests(offset_pos: nat, pos: nat) -> Seq<Request> {
    seq![
        Request::Position,
        Request::Seek(offset_pos),
        Request::Write(le_bytes(pos as i64)),
        Request::Seek(pos),
    ]
}

/// The destination failed with `e` while the position was being stored at `offset_pos`.
pub open spec fn offset_failed(
    offset_pos: nat,
    sink: Sink,
    trace: Trace,
    sink_after: Sink,
    trace_after: Trace,
    e: std::io::Error,
) -> bool {
    let requests = offset_requests(offset_pos, sink.pos);
    let there = sink.seek(offset_pos);
    let stored = there.write(le_bytes(sink.pos as i64));
    ||| request_failed(sink, trace, requests[0], sink_after, trace_after, e)
    ||| request_failed(sink, trace.met(requests.take(1)), requests[1], sink_after, trace_after, e)
    ||| request_failed(there, trace.met(requests.take(2)), requests[2], sink_after, trace_after, e)
    ||| request_failed(stored, trace.met(requests.take(3)), requests[3], sink_after, trace_after, e)
}

/// Stores the current position, which is where the chunk table will go, in the eight bytes at
/// `offset_pos`, and comes back to the current position.
///
/// To be called when all points are compressed, before the chunk table is written.
pub fn update_chunk_table_offset<W: SeekSink>(dst: &mut W, offset_pos: u64) -> (r: std::io::Result<
    (),
>)
    ensures
        r is Ok ==> {
            let start = old(dst).sink();
            final(dst).sink() == start.seek(offset_pos as nat).write(le_bytes(start.pos as i64)).seek(
                start.pos,
            )
        },
        r is Ok ==> final(dst).trace() == old(dst).trace().met(
            offset_requests(offset_pos as nat, old(dst).sink().pos),
        ),
        r matches Err(e) ==> offset_failed(
            offset_pos as nat,
            old(dst).sink(),
            old(dst).trace(),
            final(dst).sink(),
            final(dst).trace(),
            e,
        ),
{
    proof {
        let t = dst.trace();
        let all = offset_requests(offset_pos as nat, dst.sink().pos);
        assert(all.take(1) =~= seq![all[0]]);
        lemma_met_met(t, all.take(1), seq![all[1]]);
        assert(all.take(1) + seq![all[1]] =~= all.take(2));
        lemma_met_met(t, all.take(2), seq![all[2]]);
        assert(all.take(2) + seq![all[2]] =~= all.take(3));
        lemma_met_met(t, all.take(3), seq![all[3]]);
        assert(all.take(3) + seq![all[3]] =~= all);
    }
    let start: u64 = match dst.position() {
        Ok(p) => p,
        Err(e) => {
            return Err(e);
        },
    };
    match dst.seek_start(offset_pos) {
        Ok(()) => {},
        Err(e) => {
            return Err(e);
        },
    }
    let bytes: Vec<u8> = i64_to_le_bytes(start as i64);
    match dst.write_all(bytes.as_slice()) {
        Ok(()) => {},
        Err(e) => {
            return Err(e);
        },
    }
    dst.seek_start(start)
}

} // verus!
