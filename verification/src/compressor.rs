//! The compressor that takes points as they come.

use crate::chunk_table::{
    entries_of, offset_failed, offset_requests, reserve_requests, update_chunk_table_offset,
    ChunkTable, ChunkTableEntry,
};
use crate::chunking::{
    contents, full_chunks, last_chunk, leftover, lemma_chunked, lemma_first_chunk,
    lemma_full_part, lemma_short_data,
};
use crate::codec::{
    encoder_ready, encodes, encodes_all, encodes_table, i64_to_le_bytes, le_bytes,
    lemma_encodes_all_append, lemma_signed_offset, refuses_some, table_encoder_ready,
};
use crate::error::{IoError, LasZipError};
use crate::parallel::{
    chunk_failed, chunk_requests, compress_one_chunk, writing_failed, ParChunkCompressor,
};
use crate::sink::{
    lemma_met_met, lemma_met_nothing, lemma_write_nothing, lemma_write_write, request_failed,
    writes, Request, SeekSink, Sink, Trace,
};
use crate::vlr::{LazItem, LazVlr, VlrView};
use vstd::prelude::*;
use vstd::slice::slice_subrange;

verus! {

/// What a compressor has done so far.
pub struct CompressorState {
    /// The description of the points and chunks.
    pub vlr: VlrView,
    /// The table of the chunks written so far.
    pub table: Seq<ChunkTableEntry>,
    /// Where the offset to the chunk table will be written, `-1` as long as no place is reserved.
    pub table_offset: i64,
    /// The points that wait for their chunk to be complete.
    pub rest: Seq<u8>,
    /// The destination.
    pub sink: Sink,
}

impl CompressorState {
    /// The state in which nothing was done yet.
    pub open spec fn fresh(vlr: VlrView, sink: Sink) -> CompressorState {
        CompressorState {
            vlr,
            table: Seq::empty(),
            table_offset: -1 as i64,
            rest: Seq::empty(),
            sink,
        }
    }

    /// Whole points wait, no more than a chunk of them, and none where chunks have sizes of
    /// their own. Nothing was taken before a place for the offset to the chunk table was
    /// reserved.
    pub open spec fn valid(self) -> bool {
        &&& self.vlr.valid()
        &&& self.rest.len() % self.vlr.point_size() == 0
        &&& self.vlr.variable() ==> self.rest.len() == 0
        &&& !self.vlr.variable() ==> self.rest.len() <= self.vlr.chunk_bytes()
        &&& self.table_offset == -1 ==> self.rest.len() == 0 && self.table.len() == 0
    }

    /// The state after a place for the offset to the chunk table was reserved at the current
    /// position.
    pub open spec fn reserved(self) -> CompressorState {
        CompressorState {
            table_offset: self.sink.pos as i64,
            sink: self.sink.write(le_bytes(self.sink.pos as i64)),
            ..self
        }
    }

    /// A place for the offset to the chunk table is reserved, or ends where positions can still
    /// be counted.
    pub open spec fn has_place(self) -> bool {
        self.table_offset == -1 ==> self.sink.pos + 8 <= u64::MAX
    }

    /// The state in which a place for the offset to the chunk table is reserved.
    pub open spec fn opened(self) -> CompressorState {
        if self.table_offset == -1 {
            self.reserved()
        } else {
            self
        }
    }

    /// The state after `chunks` were written in the form of `encoded`.
    pub open spec fn with_chunks(
        self,
        chunks: Seq<Seq<u8>>,
        encoded: Seq<Seq<u8>>,
    ) -> CompressorState {
        CompressorState {
            table: self.table + entries_of(self.vlr, chunks, encoded),
            sink: self.sink.write(encoded.flatten()),
            ..self
        }
    }

    /// The offset of the place reserved for the offset to the chunk table.
    pub open spec fn table_place(self) -> nat {
        (self.table_offset as u64) as nat
    }

    /// The state after the position was stored in the place reserved for the offset to the chunk
    /// table, and `table_bytes` were written there.
    pub open spec fn closed_with(self, table_bytes: Seq<u8>) -> CompressorState {
        CompressorState {
            sink: self.sink.seek(self.table_place()).write(
                le_bytes(self.sink.pos as i64),
            ).seek(self.sink.pos).write(table_bytes),
            ..self
        }
    }
}

/// Writing chunks and then more chunks does what writing all of them does.
pub proof fn lemma_with_chunks_append(
    s: CompressorState,
    a: Seq<Seq<u8>>,
    encoded_a: Seq<Seq<u8>>,
    b: Seq<Seq<u8>>,
    encoded_b: Seq<Seq<u8>>,
)
    requires
        a.len() == encoded_a.len(),
        b.len() == encoded_b.len(),
    ensures
        s.with_chunks(a, encoded_a).with_chunks(b, encoded_b) == s.with_chunks(
            a + b,
            encoded_a + encoded_b,
        ),
{
    assert(entries_of(s.vlr, a, encoded_a) + entries_of(s.vlr, b, encoded_b) =~= entries_of(
        s.vlr,
        a + b,
        encoded_a + encoded_b,
    ));
    vstd::seq_lib::lemma_flatten_concat(encoded_a, encoded_b);
    lemma_write_write(s.sink, encoded_a.flatten(), encoded_b.flatten());
    assert((s.table + entries_of(s.vlr, a, encoded_a)) + entries_of(s.vlr, b, encoded_b)
        =~= s.table + entries_of(s.vlr, a + b, encoded_a + encoded_b));
}

/// Writing no chunk changes nothing.
pub proof fn lemma_with_no_chunks(s: CompressorState)
    ensures
        s.with_chunks(Seq::empty(), Seq::empty()) == s,
{
    lemma_write_nothing(s.sink);
    assert(s.table + entries_of(s.vlr, Seq::empty(), Seq::empty()) =~= s.table);
}

/// `after` comes from `before` by taking `points`: with the points that waited they are cut into
/// full chunks, which are written in their order, and what they leave waits.
pub open spec fn points_taken<C>(
    encode: C,
    before: CompressorState,
    points: Seq<u8>,
    after: CompressorState,
) -> bool where C: Fn(&[LazItem], &[u8]) -> std::io::Result<Vec<u8>> {
    let size = before.vlr.chunk_bytes();
    let data = before.rest + points;
    &&& before.has_place()
    &&& exists|encoded: Seq<Seq<u8>>| #[trigger]
        encodes_all(encode, before.vlr.items, full_chunks(data, size), encoded) && after == (
        CompressorState {
            rest: leftover(data, size),
            ..before.opened().with_chunks(full_chunks(data, size), encoded)
        })
}

/// The chunk that the points that wait begin, as far as `data`, which begins with them, completes
/// it.
pub open spec fn completed_chunk(waiting: nat, data: Seq<u8>, size: nat) -> Seq<Seq<u8>> {
    if waiting == 0 || data.len() < size {
        Seq::empty()
    } else {
        seq![data.take(size as int)]
    }
}

/// What is asked of the destination so that a place for the offset to the chunk table is
/// reserved.
pub open spec fn open_requests(before: CompressorState) -> Seq<Request> {
    if before.table_offset == -1 {
        reserve_requests(before.sink.pos)
    } else {
        Seq::empty()
    }
}

/// What is asked of the destination for a chunk that is compressed by itself, where there is one.
pub open spec fn single_requests(encoded: Seq<Seq<u8>>) -> Seq<Request> {
    if encoded.len() == 0 {
        Seq::empty()
    } else {
        chunk_requests(encoded[0])
    }
}

/// The destination failed with `e` while a place for the offset to the chunk table was being
/// reserved: the position could not be read, and the compressor knows of no new place, or the
/// eight bytes could not be written.
pub open spec fn reserve_failed(
    before: CompressorState,
    trace: Trace,
    after: CompressorState,
    trace_after: Trace,
    e: std::io::Error,
) -> bool {
    &&& after.vlr == before.vlr
    &&& after.table == before.table
    &&& after.rest == before.rest
    &&& {
        ||| {
            &&& request_failed(
                before.sink,
                trace,
                Request::Position,
                after.sink,
                trace_after,
                e,
            )
            &&& after.table_offset == before.table_offset
        }
        ||| {
            &&& request_failed(
                before.sink,
                trace.met(seq![Request::Position]),
                Request::Write(le_bytes(before.sink.pos as i64)),
                after.sink,
                trace_after,
                e,
            )
            &&& after.table_offset == before.reserved().table_offset
        }
    }
}

/// `after` comes from `before` by taking `points`, and what was asked of the destination is a
/// place for the offset, where none was reserved, to write and measure the chunk that was waiting,
/// where it is complete, and to write each of the other full chunks.
pub open spec fn points_requested<C>(
    encode: C,
    before: CompressorState,
    trace: Trace,
    points: Seq<u8>,
    after: CompressorState,
    trace_after: Trace,
) -> bool where C: Fn(&[LazItem], &[u8]) -> std::io::Result<Vec<u8>> {
    let size = before.vlr.chunk_bytes();
    let data = before.rest + points;
    let n = completed_chunk(before.rest.len(), data, size).len() as int;
    exists|encoded: Seq<Seq<u8>>| #[trigger]
        encodes_all(encode, before.vlr.items, full_chunks(data, size), encoded) && after == (
        CompressorState {
            rest: leftover(data, size),
            ..before.opened().with_chunks(full_chunks(data, size), encoded)
        }) && trace_after == trace.met(
            open_requests(before) + single_requests(encoded.take(n)) + writes(encoded.skip(n)),
        )
}

/// `after` is what a failed attempt to take `points` leaves of `before`, and `e` says why it
/// failed.
pub open spec fn points_refused<C>(
    encode: C,
    before: CompressorState,
    trace: Trace,
    points: Seq<u8>,
    after: CompressorState,
    trace_after: Trace,
    e: IoError,
) -> bool where C: Fn(&[LazItem], &[u8]) -> std::io::Result<Vec<u8>> {
    let size = before.vlr.chunk_bytes();
    let data = before.rest + points;
    let head = completed_chunk(before.rest.len(), data, size);
    let tail = full_chunks(data, size).skip(head.len() as int);
    let items = before.vlr.items;
    &&& after.vlr == before.vlr
    &&& match e {
        IoError::Direct(x) => {
            // No place could be reserved.
            ||| before.table_offset == -1 && reserve_failed(before, trace, after, trace_after, x)
            // The chunk that waited could not be written: it waits on.
            ||| {
                &&& before.rest.len() > 0
                &&& data.len() >= size
                &&& after.rest == data.take(size as int)
                &&& after.table == before.table
                &&& after.table_offset == before.table_offset
                &&& chunk_failed(
                    encode,
                    before.vlr,
                    data.take(size as int),
                    before.sink,
                    trace,
                    after.sink,
                    trace_after,
                    x,
                )
            }
        },
        // The chunks behind it could not be compressed or written: their points are gone.
        IoError::Other(x) => {
            &&& data.len() >= size
            &&& after.rest == leftover(data, size)
            &&& after.table_offset == before.opened().table_offset
            &&& exists|encoded: Seq<Seq<u8>>| #[trigger]
                encodes_all(encode, items, head, encoded) && after.table == before.table
                    + entries_of(before.vlr, head, encoded) && {
                    let sink = before.opened().sink.write(encoded.flatten());
                    let so_far = trace.met(open_requests(before) + single_requests(encoded));
                    ||| {
                        &&& refuses_some(encode, items, tail, x)
                        &&& after.sink == sink
                        &&& trace_after == so_far
                    }
                    ||| writing_failed(
                        encode,
                        before.vlr,
                        tail,
                        sink,
                        so_far,
                        after.sink,
                        trace_after,
                        x,
                    )
                }
        },
    }
}

/// `after` comes from `before` by taking `chunks`, which are written in their order.
pub open spec fn chunks_taken<C>(
    encode: C,
    before: CompressorState,
    chunks: Seq<Seq<u8>>,
    after: CompressorState,
) -> bool where C: Fn(&[LazItem], &[u8]) -> std::io::Result<Vec<u8>> {
    &&& before.has_place()
    &&& exists|encoded: Seq<Seq<u8>>| #[trigger]
        encodes_all(encode, before.vlr.items, chunks, encoded) && after
            == before.opened().with_chunks(chunks, encoded)
}

/// `after` comes from `before` by taking `chunks`, and what was asked of the destination is a
/// place for the offset, where none was reserved, and to write each chunk.
pub open spec fn chunks_requested<C>(
    encode: C,
    before: CompressorState,
    trace: Trace,
    chunks: Seq<Seq<u8>>,
    after: CompressorState,
    trace_after: Trace,
) -> bool where C: Fn(&[LazItem], &[u8]) -> std::io::Result<Vec<u8>> {
    exists|encoded: Seq<Seq<u8>>| #[trigger]
        encodes_all(encode, before.vlr.items, chunks, encoded) && after
            == before.opened().with_chunks(chunks, encoded) && trace_after == trace.met(
            open_requests(before) + writes(encoded),
        )
}

/// `after` is what a failed attempt to take `chunks` leaves of `before`, and `e` says why it
/// failed.
pub open spec fn chunks_refused<C>(
    encode: C,
    before: CompressorState,
    trace: Trace,
    chunks: Seq<Seq<u8>>,
    after: CompressorState,
    trace_after: Trace,
    e: IoError,
) -> bool where C: Fn(&[LazItem], &[u8]) -> std::io::Result<Vec<u8>> {
    &&& after.vlr == before.vlr
    &&& after.rest == before.rest
    &&& after.table == before.table
    &&& match e {
        // No place could be reserved.
        IoError::Direct(x) => before.table_offset == -1 && reserve_failed(
            before,
            trace,
            after,
            trace_after,
            x,
        ),
        // The chunks could not be compressed or written.
        IoError::Other(x) => {
            let so_far = trace.met(open_requests(before));
            &&& after.table_offset == before.opened().table_offset
            &&& {
                ||| {
                    &&& refuses_some(encode, before.vlr.items, chunks, x)
                    &&& after.sink == before.opened().sink
                    &&& trace_after == so_far
                }
                ||| writing_failed(
                    encode,
                    before.vlr,
                    chunks,
                    before.opened().sink,
                    so_far,
                    after.sink,
                    trace_after,
                    x,
                )
            }
        },
    }
}

/// `after` comes from `before` by writing the points that wait as the last chunk, storing the
/// position of the chunk table in the place reserved for it, and writing the table.
pub open spec fn finished<C, T>(
    encode: C,
    encode_table: T,
    before: CompressorState,
    after: CompressorState,
) -> bool where
    C: Fn(&[LazItem], &[u8]) -> std::io::Result<Vec<u8>>,
    T: Fn(&ChunkTable, &LazVlr) -> std::io::Result<Vec<u8>>,
 {
    &&& before.has_place()
    &&& exists|encoded: Seq<Seq<u8>>, table_bytes: Seq<u8>| #[trigger]
        encodes_all(encode, before.vlr.items, last_chunk(before.rest), encoded)
            && #[trigger] encodes_table(
            encode_table,
            before.vlr,
            before.opened().with_chunks(last_chunk(before.rest), encoded).table,
            Ok::<Seq<u8>, std::io::Error>(table_bytes),
        ) && after == before.opened().with_chunks(last_chunk(before.rest), encoded).closed_with(
            table_bytes,
        )
}

/// What is asked of the destination before the chunk table is dealt with: to write and measure the
/// last chunk, where there is one, and a place for the offset, where none was reserved.
pub open spec fn last_requests(before: CompressorState, encoded: Seq<Seq<u8>>) -> Seq<Request> {
    single_requests(encoded) + open_requests(before)
}

/// `after` comes from `before` by finishing, and what was asked of the destination is what that
/// takes.
pub open spec fn finish_requested<C, T>(
    encode: C,
    encode_table: T,
    before: CompressorState,
    trace: Trace,
    after: CompressorState,
    trace_after: Trace,
) -> bool where
    C: Fn(&[LazItem], &[u8]) -> std::io::Result<Vec<u8>>,
    T: Fn(&ChunkTable, &LazVlr) -> std::io::Result<Vec<u8>>,
 {
    exists|encoded: Seq<Seq<u8>>, table_bytes: Seq<u8>| #[trigger]
        encodes_all(encode, before.vlr.items, last_chunk(before.rest), encoded)
            && #[trigger] encodes_table(
            encode_table,
            before.vlr,
            before.opened().with_chunks(last_chunk(before.rest), encoded).table,
            Ok::<Seq<u8>, std::io::Error>(table_bytes),
        ) && {
            let written = before.opened().with_chunks(last_chunk(before.rest), encoded);
            &&& after == written.closed_with(table_bytes)
            &&& trace_after == trace.met(
                last_requests(before, encoded) + offset_requests(
                    written.table_place(),
                    written.sink.pos,
                ) + seq![Request::Write(table_bytes)],
            )
        }
}

/// `after` is what a failed attempt to finish leaves of `before`, and `x` says why it
/// failed.
pub open spec fn finish_refused<C, T>(
    encode: C,
    encode_table: T,
    before: CompressorState,
    trace: Trace,
    after: CompressorState,
    trace_after: Trace,
    x: std::io::Error,
) -> bool where
    C: Fn(&[LazItem], &[u8]) -> std::io::Result<Vec<u8>>,
    T: Fn(&ChunkTable, &LazVlr) -> std::io::Result<Vec<u8>>,
 {
    &&& after.vlr == before.vlr
    &&& after.rest == before.rest
    &&& {
        // The last chunk could not be compressed or written: neither the place reserved for the
        // offset nor the chunk table is touched.
        ||| {
            &&& before.rest.len() > 0
            &&& after.table == before.table
            &&& after.table_offset == before.table_offset
            &&& chunk_failed(
                encode,
                before.vlr,
                before.rest,
                before.sink,
                trace,
                after.sink,
                trace_after,
                x,
            )
        }
        // No place could be reserved.
        ||| before.table_offset == -1 && reserve_failed(before, trace, after, trace_after, x)
        // The last chunk was written.
        ||| exists|encoded: Seq<Seq<u8>>| #[trigger]
            encodes_all(encode, before.vlr.items, last_chunk(before.rest), encoded) && {
                let written = before.opened().with_chunks(last_chunk(before.rest), encoded);
                let so_far = trace.met(last_requests(before, encoded));
                let stored = written.closed_with(Seq::empty());
                let trace_stored = so_far.met(
                    offset_requests(written.table_place(), written.sink.pos),
                );
                &&& after.table == written.table
                &&& after.table_offset == written.table_offset
                &&& {
                    // The position of the chunk table could not be stored.
                    ||| offset_failed(
                        written.table_place(),
                        written.sink,
                        so_far,
                        after.sink,
                        trace_after,
                        x,
                    )
                    // The chunk table could not be brought into its form, or not be written.
                    ||| {
                        &&& encodes_table(
                            encode_table,
                            before.vlr,
                            written.table,
                            Err::<Seq<u8>, std::io::Error>(x),
                        )
                        &&& after == stored
                        &&& trace_after == trace_stored
                    }
                    ||| exists|table_bytes: Seq<u8>| #[trigger]
                        encodes_table(
                            encode_table,
                            before.vlr,
                            written.table,
                            Ok::<Seq<u8>, std::io::Error>(table_bytes),
                        ) && request_failed(
                            stored.sink,
                            trace_stored,
                            Request::Write(table_bytes),
                            after.sink,
                            trace_after,
                            x,
                        )
                }
            }
    }
}

/// LasZip compressor that compresses using multiple threads.
///
/// It writes chunks of a **fixed size** or of a **variable size**: the `LazVlr` says which, and so
/// which method takes the points, `compress_many` or `compress_chunks`. `done` is to be called
/// when all points are taken.
///
/// `encode` gives the compressed form of the points of one chunk, and `encode_table` that of the
/// chunk table.
pub struct ParLasZipCompressor<W, C, T> {
    vlr: LazVlr,
    /// Table of chunks written so far
    chunk_table: ChunkTable,
    /// offset from beginning of the file to where the
    /// offset to chunk table will be written
    table_offset: i64,
    // Points of the last call to compress_many that did not make a full chunk.
    // They come before the points of the next call; what is left when done is
    // called forms the last chunk.
    rest: Vec<u8>,
    dest: W,
    compressor: ParChunkCompressor,
    encode: C,
    encode_table: T,
}

impl<W, C, T> ParLasZipCompressor<W, C, T> {
    /// The destination.
    pub closed spec fn dest(self) -> W {
        self.dest
    }

    /// The record encoder.
    pub closed spec fn encoder(self) -> C {
        self.encode
    }

    /// The table encoder.
    pub closed spec fn table_encoder(self) -> T {
        self.encode_table
    }

    /// The description of the points and chunks.
    pub closed spec fn spec_vlr(self) -> VlrView {
        self.vlr@
    }

    /// The table of the chunks written so far.
    pub closed spec fn spec_table(self) -> Seq<ChunkTableEntry> {
        self.chunk_table@
    }

    /// Where the offset to the chunk table will be written.
    pub closed spec fn spec_table_offset(self) -> i64 {
        self.table_offset
    }

    /// The points that wait for their chunk to be complete.
    pub closed spec fn spec_rest(self) -> Seq<u8> {
        self.rest@
    }
}

impl<W: SeekSink, C, T> View for ParLasZipCompressor<W, C, T> {
    type V = CompressorState;

    open spec fn view(&self) -> CompressorState {
        CompressorState {
            vlr: self.spec_vlr(),
            table: self.spec_table(),
            table_offset: self.spec_table_offset(),
            rest: self.spec_rest(),
            sink: self.dest().sink(),
        }
    }
}

impl<W, C, T> ParLasZipCompressor<W, C, T> where
    W: SeekSink,
    C: Fn(&[LazItem], &[u8]) -> std::io::Result<Vec<u8>> + Sync,
    T: Fn(&ChunkTable, &LazVlr) -> std::io::Result<Vec<u8>>,
 {
    /// `done` can be called: the encoders can be run, no points wait where chunks have sizes of
    /// their own, and nothing was taken before a place for the offset was reserved.
    pub open spec fn can_finish(self) -> bool {
        &&& encoder_ready(self.encoder(), self@.vlr.items)
        &&& table_encoder_ready(self.table_encoder(), self@.vlr)
        &&& self@.vlr.variable() ==> self@.rest.len() == 0
        &&& self@.table_offset == -1 ==> self@.rest.len() == 0 && self@.table.len() == 0
    }

    /// The state is valid, and the encoders can be run on what it describes.
    pub open spec fn valid(self) -> bool {
        &&& self@.valid()
        &&& encoder_ready(self.encoder(), self@.vlr.items)
        &&& table_encoder_ready(self.table_encoder(), self@.vlr)
    }

    /// `compress_many` can be called with `points`.
    pub open spec fn can_compress(self, points: Seq<u8>) -> bool {
        &&& self.valid()
        &&& !self@.vlr.variable()
        &&& points.len() % self@.vlr.point_size() == 0
    }

    /// `compress_chunks` can be called with that many chunks.
    pub open spec fn can_compress_chunks(self, n: nat) -> bool {
        &&& self.can_finish()
        &&& self@.vlr.variable()
        &&& self@.vlr.point_size() <= usize::MAX
        &&& n > 0 ==> self@.vlr.countable()
    }

    /// Both compressors have the same encoders.
    pub open spec fn same_encoders(self, other: Self) -> bool {
        &&& self.encoder() == other.encoder()
        &&& self.table_encoder() == other.table_encoder()
    }

    /// Creates a new ParLasZipCompressor
    pub fn new(dest: W, vlr: LazVlr, encode: C, encode_table: T) -> (r: Result<Self, LasZipError>)
        requires
            !vlr@.variable() ==> vlr@.point_size() <= u64::MAX && vlr@.chunk_bytes() <= isize::MAX,
            encoder_ready(encode, vlr@.items),
            table_encoder_ready(encode_table, vlr@),
        ensures
            r matches Ok(c) && c.can_finish() && (vlr@.valid() ==> c.valid()) && c.dest() == dest
                && c.encoder() == encode && c.table_encoder() == encode_table && c@
                == CompressorState::fresh(vlr@, dest.sink()),
    {
        let mut rest: Vec<u8> = Vec::new();
        if !vlr.uses_variable_size_chunks() {
            rest.reserve(vlr.num_bytes_in_decompressed_chunk() as usize);
        }
        assert(vlr@.valid() ==> 0nat % vlr@.point_size() == 0) by {
            if vlr@.valid() {
                vstd::arithmetic::div_mod::lemma_small_mod(0, vlr@.point_size());
            }
        }
        Ok(
            ParLasZipCompressor {
                vlr,
                chunk_table: ChunkTable::default(),
                table_offset: -1,
                rest,
                dest,
                compressor: ParChunkCompressor::default(),
                encode,
                encode_table,
            },
        )
    }

    /// Reserves and prepares the offset to chunk table that will be
    /// updated when `done` is called.
    ///
    /// This is done by itself when the first points are taken,
    /// but for some scenarios, manually calling this might be useful.
    pub fn reserve_offset_to_chunk_table(&mut self) -> (r: std::io::Result<()>)
        ensures
            final(self).same_encoders(*old(self)),
            r is Ok ==> final(self)@ == old(self)@.reserved() && final(self)@.table_offset != -1,
            r is Ok ==> old(self)@.sink.pos + 8 <= u64::MAX,
            r is Ok ==> final(self).dest().trace() == old(self).dest().trace().met(
                reserve_requests(old(self)@.sink.pos),
            ),
            r matches Err(e) ==> reserve_failed(
                old(self)@,
                old(self).dest().trace(),
                final(self)@,
                final(self).dest().trace(),
                e,
            ),
            old(self).can_finish() && old(self)@.sink.pos < u64::MAX ==> final(self).can_finish(),
            old(self).valid() && old(self)@.sink.pos < u64::MAX ==> final(self).valid(),
    {
        let pos: u64 = match self.dest.position() {
            Ok(p) => p,
            Err(e) => {
                return Err(e);
            },
        };
        self.table_offset = pos as i64;
        let bytes: Vec<u8> = i64_to_le_bytes(self.table_offset);
        proof {
            lemma_signed_offset(pos);
            let first = seq![Request::Position];
            let second = seq![Request::Write(le_bytes(pos as i64))];
            lemma_met_met(old(self).dest.trace(), first, second);
            assert(first + second =~= reserve_requests(pos as nat));
        }
        self.dest.write_all(bytes.as_slice())
    }

    /// Compresses many points using multiple threads.
    ///
    /// This must be called only when writing **fixed-size** chunks. Points that do not complete
    /// a chunk are kept until the next call or until `done`.
    ///
    /// For this function to actually use multiple threads, the `points`
    /// buffer shall hold more points than a chunk.
    #[verifier::rlimit(40)]
    pub fn compress_many(&mut self, points: &[u8]) -> (r: Result<(), IoError>)
        requires
            old(self).can_compress(points@),
        ensures
            final(self).same_encoders(*old(self)),
            final(self).valid(),
            r is Ok ==> final(self)@.table_offset != -1 && old(self)@.has_place(),
            r is Ok ==> final(self)@.rest.len() < final(self)@.vlr.chunk_bytes(),
            r is Ok ==> points_taken(
                old(self).encoder(),
                old(self)@,
                points@,
                final(self)@,
            ),
            r is Ok ==> points_requested(
                old(self).encoder(),
                old(self)@,
                old(self).dest().trace(),
                points@,
                final(self)@,
                final(self).dest().trace(),
            ),
            r matches Err(e) ==> points_refused(
                old(self).encoder(),
                old(self)@,
                old(self).dest().trace(),
                points@,
                final(self)@,
                final(self).dest().trace(),
                e,
            ),
    {
        let ghost before = self@;
        let ghost trace = self.dest.trace();
        let ghost data = before.rest + points@;
        let ghost size = before.vlr.chunk_bytes();
        proof {
            lemma_sizes(before, points@);
        }
        if self.table_offset == -1 {
            match self.reserve_offset_to_chunk_table() {
                Ok(()) => {},
                Err(e) => {
                    return Err(IoError::Direct(e));
                },
            }
        }
        let ghost opened = self@;
        let point_size: usize = self.vlr.items_size() as usize;
        let points_per_chunk: usize = self.vlr.chunk_size() as usize;
        assert(points_per_chunk * point_size == size);
        let chunk_size_in_bytes: usize = points_per_chunk * point_size;
        let mut compressible_buf: &[u8] = points;
        let ghost mut head: Seq<Seq<u8>> = Seq::empty();
        let ghost mut head_encoded: Seq<Seq<u8>> = Seq::empty();
        proof {
            lemma_with_no_chunks(opened);
            lemma_met_nothing(trace);
            assert(self.dest.trace() == trace.met(open_requests(before)));
            assert(open_requests(before) + Seq::<Request>::empty() =~= open_requests(before));
        }

        if self.rest.len() != 0 {
            // Try to complete our rest buffer to form a complete chunk
            let missing_bytes: usize = chunk_size_in_bytes - self.rest.len();
            let num_bytes_to_copy: usize = if missing_bytes < compressible_buf.len() {
                missing_bytes
            } else {
                compressible_buf.len()
            };
            self.rest.extend_from_slice(slice_subrange(compressible_buf, 0, num_bytes_to_copy));
            assert(self.rest@ =~= data.take(before.rest.len() + num_bytes_to_copy));

            if self.rest.len() < chunk_size_in_bytes {
                // rest + points did not form a complete chunk,
                // no need to go further.
                proof {
                    assert(self.rest@ =~= data);
                    lemma_short_data(data, size);
                    assert(encodes_all(
                        self.encode,
                        before.vlr.items,
                        full_chunks(data, size),
                        head_encoded,
                    ));
                    assert(writes(head_encoded.skip(0)) =~= Seq::<Request>::empty());
                }
                return Ok(());
            }
            // We have a complete chunk, lets compress it now

            let chunk_size: u64 = match compress_one_chunk(
                self.rest.as_slice(),
                &self.vlr,
                &mut self.dest,
                &self.encode,
            ) {
                Ok(n) => n,
                Err(e) => {
                    return Err(IoError::Direct(e));
                },
            };
            proof {
                let first = data.take(size as int);
                assert(self.rest@ == first);
                let bytes = choose|bytes: Seq<u8>| #[trigger]
                    encodes(
                        self.encode,
                        before.vlr.items,
                        first,
                        Ok::<Seq<u8>, std::io::Error>(bytes),
                    ) && chunk_size == bytes.len() && self.dest.sink() == opened.sink.write(bytes)
                        && self.dest.trace() == trace.met(open_requests(before)).met(
                        chunk_requests(bytes),
                    );
                lemma_met_met(trace, open_requests(before), chunk_requests(bytes));
                head = seq![first];
                head_encoded = seq![bytes];
                head_encoded.lemma_flatten_singleton();
                assert(encodes_all(self.encode, before.vlr.items, head, head_encoded));
            }
            self.chunk_table.push(
                ChunkTableEntry {
                    point_count: self.vlr.chunk_size() as u64,
                    byte_count: chunk_size,
                },
            );
            assert(self.chunk_table@ =~= opened.with_chunks(head, head_encoded).table);
            self.rest.clear();

            compressible_buf =
            slice_subrange(compressible_buf, missing_bytes, compressible_buf.len());
        }
        let ghost tail = compressible_buf@;
        proof {
            if head.len() == 0 {
                assert(tail =~= data);
                assert(head + full_chunks(tail, size) =~= full_chunks(data, size));
            } else {
                assert(head[0] + tail =~= data);
                lemma_first_chunk(head[0], tail, size);
            }
            lemma_full_part(tail, size);
            lemma_full_part_points(before.vlr, tail);
            assert(full_chunks(data, size).skip(head.len() as int) =~= full_chunks(tail, size));
        }

        // Copy bytes which does not form a complete chunk into our rest.
        let num_excess_bytes: usize = compressible_buf.len() % chunk_size_in_bytes;
        let (compressible_buf, excess_bytes) = compressible_buf.split_at(
            compressible_buf.len() - num_excess_bytes,
        );
        if !excess_bytes.is_empty() {
            self.rest.extend_from_slice(excess_bytes);
        }
        proof {
            assert(self.rest@ =~= leftover(data, size));
            assert(head == completed_chunk(before.rest.len(), data, size));
            assert(encodes_all(self.encode, before.vlr.items, head, head_encoded));
            assert(self.dest.trace() == trace.met(
                open_requests(before) + single_requests(head_encoded),
            ));
            assert(self@ == (CompressorState {
                rest: leftover(data, size),
                ..opened.with_chunks(head, head_encoded)
            }));
        }
        let ghost mut tail_encoded: Seq<Seq<u8>> = Seq::empty();

        if !compressible_buf.is_empty() {
            let chunk_table: ChunkTable = match self.compressor.compress_points(
                &mut self.dest,
                compressible_buf,
                &self.vlr,
                &self.encode,
            ) {
                Ok(table) => table,
                Err(LasZipError::IoError(IoError::Direct(e))) => {
                    proof {
                        if tail.len() < size {
                            lemma_short_data(tail, size);
                        }
                    }
                    return Err(IoError::Other(e));
                },
                Err(LasZipError::IoError(IoError::Other(e))) => {
                    return Err(IoError::Other(e));
                },
            };
            proof {
                let written = opened.with_chunks(head, head_encoded).sink;
                let pieces = full_chunks(tail, size);
                tail_encoded = choose|encoded: Seq<Seq<u8>>| #[trigger]
                    encodes_all(self.encode, before.vlr.items, pieces, encoded) && chunk_table@
                        == entries_of(before.vlr, pieces, encoded) && self.dest.sink()
                        == written.write(encoded.flatten()) && self.dest.trace() == trace.met(
                        open_requests(before) + single_requests(head_encoded),
                    ).met(writes(encoded));
            }
            self.chunk_table.extend(&chunk_table);
        } else {
            proof {
                lemma_short_data(tail, size);
                lemma_with_no_chunks(opened.with_chunks(head, head_encoded));
                assert(writes(tail_encoded) =~= Seq::<Request>::empty());
                lemma_met_nothing(self.dest.trace());
            }
        }
        proof {
            let pieces = full_chunks(tail, size);
            lemma_encodes_all_append(
                self.encode,
                before.vlr.items,
                head,
                head_encoded,
                pieces,
                tail_encoded,
            );
            lemma_with_chunks_append(opened, head, head_encoded, pieces, tail_encoded);
            let encoded = head_encoded + tail_encoded;
            let n = head.len() as int;
            assert(encoded.take(n) =~= head_encoded);
            assert(encoded.skip(n) =~= tail_encoded);
            lemma_met_met(
                trace,
                open_requests(before) + single_requests(head_encoded),
                writes(tail_encoded),
            );
        }
        Ok(())
    }

    /// Compresses multiple chunks using multiple threads.
    ///
    /// This must be called only when writing **variable-size** chunks.
    ///
    /// For this function to actually use multiple threads, there should be more than one chunk.
    pub fn compress_chunks(&mut self, chunks: &[&[u8]]) -> (r: Result<(), IoError>)
        requires
            old(self).can_compress_chunks(chunks@.len()),
        ensures
            final(self).same_encoders(*old(self)),
            final(self).can_finish(),
            old(self).valid() ==> final(self).valid(),
            r is Ok ==> final(self)@.table_offset != -1 && old(self)@.has_place(),
            r is Ok ==> chunks_taken(
                old(self).encoder(),
                old(self)@,
                contents(chunks@),
                final(self)@,
            ),
            r is Ok ==> chunks_requested(
                old(self).encoder(),
                old(self)@,
                old(self).dest().trace(),
                contents(chunks@),
                final(self)@,
                final(self).dest().trace(),
            ),
            r matches Err(e) ==> chunks_refused(
                old(self).encoder(),
                old(self)@,
                old(self).dest().trace(),
                contents(chunks@),
                final(self)@,
                final(self).dest().trace(),
                e,
            ),
    {
        let ghost before = self@;
        let ghost trace = self.dest.trace();
        if self.table_offset == -1 {
            match self.reserve_offset_to_chunk_table() {
                Ok(()) => {},
                Err(e) => {
                    return Err(IoError::Direct(e));
                },
            }
        }
        let ghost opened = self@;
        let ghost so_far = self.dest.trace();
        proof {
            lemma_met_nothing(trace);
            assert(so_far == trace.met(open_requests(before)));
        }
        let chunk_table: ChunkTable = match self.compressor.compress_chunks(
            &mut self.dest,
            chunks,
            &self.vlr,
            &self.encode,
        ) {
            Ok(table) => table,
            Err(LasZipError::IoError(IoError::Direct(e))) => {
                return Err(IoError::Other(e));
            },
            Err(LasZipError::IoError(IoError::Other(e))) => {
                return Err(IoError::Other(e));
            },
        };
        self.chunk_table.extend(&chunk_table);
        proof {
            let encoded = choose|encoded: Seq<Seq<u8>>| #[trigger]
                encodes_all(self.encode, before.vlr.items, contents(chunks@), encoded)
                    && chunk_table@ == entries_of(before.vlr, contents(chunks@), encoded)
                    && self.dest.sink() == opened.sink.write(encoded.flatten())
                    && self.dest.trace() == so_far.met(writes(encoded));
            lemma_met_met(trace, open_requests(before), writes(encoded));
        }
        Ok(())
    }

    /// Tells the compressor that no more points will be compressed
    ///
    /// - Compresses & writes the rest of the points to form the last chunk
    /// - Updates the offset to the chunk table
    /// - Writes the chunk table
    pub fn done(&mut self) -> (r: Result<(), LasZipError>)
        requires
            old(self).can_finish(),
        ensures
            final(self).same_encoders(*old(self)),
            final(self).can_finish(),
            old(self).valid() ==> final(self).valid(),
            r is Ok ==> final(self)@.table_offset != -1 && old(self)@.has_place(),
            r is Ok ==> finished(
                old(self).encoder(),
                old(self).table_encoder(),
                old(self)@,
                final(self)@,
            ),
            r is Ok ==> finish_requested(
                old(self).encoder(),
                old(self).table_encoder(),
                old(self)@,
                old(self).dest().trace(),
                final(self)@,
                final(self).dest().trace(),
            ),
            r matches Err(e) ==> e matches LasZipError::IoError(IoError::Direct(x))
                && finish_refused(
                old(self).encoder(),
                old(self).table_encoder(),
                old(self)@,
                old(self).dest().trace(),
                final(self)@,
                final(self).dest().trace(),
                x,
            ),
    {
        let ghost before = self@;
        let ghost trace = self.dest.trace();
        let ghost last = last_chunk(before.rest);
        let ghost mut encoded: Seq<Seq<u8>> = Seq::empty();
        proof {
            lemma_with_no_chunks(before);
            lemma_met_nothing(trace);
        }
        if self.rest.len() != 0 {
            let last_chunk_size: u64 = match compress_one_chunk(
                self.rest.as_slice(),
                &self.vlr,
                &mut self.dest,
                &self.encode,
            ) {
                Ok(n) => n,
                Err(e) => {
                    return Err(LasZipError::IoError(IoError::Direct(e)));
                },
            };
            proof {
                let bytes = choose|bytes: Seq<u8>| #[trigger]
                    encodes(
                        self.encode,
                        before.vlr.items,
                        before.rest,
                        Ok::<Seq<u8>, std::io::Error>(bytes),
                    ) && last_chunk_size == bytes.len() && self.dest.sink() == before.sink.write(
                        bytes,
                    ) && self.dest.trace() == trace.met(chunk_requests(bytes));
                encoded = seq![bytes];
                encoded.lemma_flatten_singleton();
            }
            self.chunk_table.push(
                ChunkTableEntry {
                    point_count: self.vlr.chunk_size() as u64,
                    byte_count: last_chunk_size,
                },
            );
            assert(self.chunk_table@ =~= before.with_chunks(last, encoded).table);
        }
        assert(encodes_all(self.encode, before.vlr.items, last, encoded));

        if self.table_offset == -1 && self.chunk_table.is_empty() {
            // No call to compress_many was made
            proof {
                lemma_with_no_chunks(before.reserved());
            }
            match self.reserve_offset_to_chunk_table() {
                Ok(()) => {},
                Err(e) => {
                    return Err(LasZipError::IoError(IoError::Direct(e)));
                },
            }
        }
        assert(self@ == before.opened().with_chunks(last, encoded));
        let ghost written = self@;
        let ghost so_far = self.dest.trace();
        proof {
            assert(last_requests(before, encoded) =~= if before.table_offset == -1 {
                open_requests(before)
            } else {
                single_requests(encoded)
            });
            assert(so_far == trace.met(last_requests(before, encoded)));
        }
        match update_chunk_table_offset(&mut self.dest, self.table_offset as u64) {
            Ok(()) => {},
            Err(e) => {
                return Err(LasZipError::IoError(IoError::Direct(e)));
            },
        }
        proof {
            lemma_write_nothing(self.dest.sink());
            assert(self@ == written.closed_with(Seq::empty()));
        }
        let ghost stored = self.dest.sink();
        let ghost trace_stored = self.dest.trace();
        match self.chunk_table.write_to(&mut self.dest, &self.vlr, &self.encode_table) {
            Ok(()) => {
                proof {
                    let table_bytes = choose|bytes: Seq<u8>| #[trigger]
                        encodes_table(
                            self.encode_table,
                            before.vlr,
                            written.table,
                            Ok::<Seq<u8>, std::io::Error>(bytes),
                        ) && self.dest.sink() == stored.write(bytes) && self.dest.trace()
                            == trace_stored.met(seq![Request::Write(bytes)]);
                    let a = last_requests(before, encoded);
                    let b = offset_requests(written.table_place(), written.sink.pos);
                    lemma_met_met(trace, a, b);
                    lemma_met_met(trace, a + b, seq![Request::Write(table_bytes)]);
                    assert(self@ == written.closed_with(table_bytes));
                }
                Ok(())
            },
            Err(e) => Err(LasZipError::IoError(IoError::Direct(e))),
        }
    }

    /// The description of the points and chunks.
    pub fn vlr(&self) -> (vlr: &LazVlr)
        ensures
            vlr@ == self@.vlr,
    {
        &self.vlr
    }

    /// Where the offset to the chunk table will be written, `-1` as long as no place is reserved.
    pub fn table_offset(&self) -> (offset: i64)
        ensures
            offset == self@.table_offset,
    {
        self.table_offset
    }

    /// Gives up the compressor for its destination.
    pub fn into_inner(self) -> (dest: W)
        ensures
            dest == self.dest(),
    {
        self.dest
    }

    /// The destination, to be changed by the caller.
    pub fn get_mut(&mut self) -> (dest: &mut W)
        ensures
            *dest == old(self).dest(),
            final(self).dest() == *final(dest),
            final(self).same_encoders(*old(self)),
            final(self)@ == (CompressorState { sink: final(dest).sink(), ..old(self)@ }),
    {
        &mut self.dest
    }

    /// The destination.
    pub fn get(&self) -> (dest: &W)
        ensures
            *dest == self.dest(),
    {
        &self.dest
    }
}

/// The full chunks of whole points are made of whole points.
proof fn lemma_full_part_points(vlr: VlrView, data: Seq<u8>)
    requires
        vlr.valid(),
    ensures
        (data.len() - data.len() % vlr.chunk_bytes()) % vlr.point_size() as int == 0,
{
    let p = vlr.point_size() as int;
    let k = vlr.chunk_size as int;
    let n = data.len() as int;
    let size = vlr.chunk_bytes() as int;
    assert(k * p > 0) by (nonlinear_arith)
        requires
            k > 0,
            p > 0,
    ;
    vstd::arithmetic::div_mod::lemma_fundamental_div_mod(n, size);
    assert(size * (n / size) == (k * (n / size)) * p) by (nonlinear_arith)
        requires
            size == k * p,
    ;
    vstd::arithmetic::div_mod::lemma_mod_multiples_basic(k * (n / size), p);
}

/// Sizes in bytes are multiples of the size of a point, and a chunk has at least one byte.
proof fn lemma_sizes(s: CompressorState, points: Seq<u8>)
    requires
        s.vlr.valid(),
        s.rest.len() % s.vlr.point_size() == 0,
        points.len() % s.vlr.point_size() == 0,
    ensures
        s.vlr.chunk_bytes() > 0,
        s.vlr.chunk_bytes() % s.vlr.point_size() == 0,
        (s.rest + points).len() % s.vlr.point_size() == 0,
        leftover(s.rest + points, s.vlr.chunk_bytes()).len() % s.vlr.point_size() == 0,
        leftover(s.rest + points, s.vlr.chunk_bytes()).len() < s.vlr.chunk_bytes(),
{
    let p = s.vlr.point_size() as int;
    let k = s.vlr.chunk_size as int;
    let n = (s.rest + points).len() as int;
    let size = s.vlr.chunk_bytes();
    assert(k * p > 0) by (nonlinear_arith)
        requires
            k > 0,
            p > 0,
    ;
    vstd::arithmetic::div_mod::lemma_mod_multiples_basic(k, p);
    vstd::arithmetic::div_mod::lemma_add_mod_noop(s.rest.len() as int, points.len() as int, p);
    vstd::arithmetic::div_mod::lemma_small_mod(0, p as nat);
    lemma_chunked(s.rest + points, size);
    vstd::arithmetic::div_mod::lemma_fundamental_div_mod(n, size as int);
    let q = n / size as int;
    assert(n == p * (k * q) + n % size as int) by (nonlinear_arith)
        requires
            n == size as int * q + n % size as int,
            size == k * p,
    ;
    vstd::arithmetic::div_mod::lemma_mod_multiples_vanish(k * q, n % size as int, p);
    vstd::arithmetic::div_mod::lemma_mod_bound(n, size as int);
}

} // verus!
