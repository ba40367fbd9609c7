//! Compression of chunks on several threads.

use crate::buffer::ByteBuffer;
use crate::chunk_table::{
    entries_of, entry_of, offset_failed, offset_requests, reserve_requests, update_chunk_table_offset,
    ChunkTable, ChunkTableEntry,
};
use crate::chunking::{chunked, contents};
use crate::codec::{
    encoder_ready, encodes, encodes_all, encodes_table, i64_to_le_bytes, le_bytes, refuses_some,
    table_encoder_ready,
};
use crate::error::{IoError, LasZipError};
use crate::sink::{
    lemma_met_met, lemma_met_nothing, lemma_met_write, lemma_rewrite, lemma_write_nothing,
    lemma_write_write, request_failed, writes, ByteSink, Request, SeekSink, Sink, Trace,
};
use crate::vlr::{LazItem, LazVlr, VlrView};
use rayon::iter::{
    IndexedParallelIterator, IntoParallelRefIterator, IntoParallelRefMutIterator, ParallelIterator,
};
use rayon::slice::ParallelSlice;
use vstd::prelude::*;

verus! {

/// What is asked of a destination to write one chunk that was compressed to `bytes`, and to
/// measure it.
pub open spec fn chunk_requests(bytes: Seq<u8>) -> Seq<Request> {
    seq![Request::Position, Request::Write(bytes), Request::Position]
}

/// The chunk `data` was compressed into a destination, where it takes `n` bytes.
pub open spec fn chunk_written<C>(
    encode: C,
    vlr: VlrView,
    data: Seq<u8>,
    sink: Sink,
    trace: Trace,
    sink_after: Sink,
    trace_after: Trace,
    n: u64,
) -> bool where C: Fn(&[LazItem], &[u8]) -> std::io::Result<Vec<u8>> {
    exists|bytes: Seq<u8>| #[trigger]
        encodes(encode, vlr.items, data, Ok::<Seq<u8>, std::io::Error>(bytes)) && n == bytes.len()
            && sink_after == sink.write(bytes) && trace_after == trace.met(chunk_requests(bytes))
}

/// Compressing the chunk `data` into a destination failed with `e`: the position could not be
/// read, the encoder refused, the bytes could not be written, or the position could not be read
/// behind them. Nothing was asked of the destination after that.
pub open spec fn chunk_failed<C>(
    encode: C,
    vlr: VlrView,
    data: Seq<u8>,
    sink: Sink,
    trace: Trace,
    sink_after: Sink,
    trace_after: Trace,
    e: std::io::Error,
) -> bool where C: Fn(&[LazItem], &[u8]) -> std::io::Result<Vec<u8>> {
    ||| request_failed(sink, trace, Request::Position, sink_after, trace_after, e)
    ||| {
        &&& encodes(encode, vlr.items, data, Err::<Seq<u8>, std::io::Error>(e))
        &&& sink_after == sink
        &&& trace_after == trace.met(seq![Request::Position])
    }
    ||| exists|bytes: Seq<u8>| #[trigger]
        encodes(encode, vlr.items, data, Ok::<Seq<u8>, std::io::Error>(bytes)) && {
            ||| request_failed(
                sink,
                trace.met(seq![Request::Position]),
                Request::Write(bytes),
                sink_after,
                trace_after,
                e,
            )
            ||| request_failed(
                sink.write(bytes),
                trace.met(seq![Request::Position, Request::Write(bytes)]),
                Request::Position,
                sink_after,
                trace_after,
                e,
            )
        }
}

/// Compresses one chunk of points into `dest` and returns the number of bytes it takes there.
pub fn compress_one_chunk<W, C>(
    chunk_data: &[u8],
    vlr: &LazVlr,
    dest: &mut W,
    encode: &C,
) -> (r: std::io::Result<u64>) where
    W: SeekSink,
    C: Fn(&[LazItem], &[u8]) -> std::io::Result<Vec<u8>>,

    requires
        encoder_ready(*encode, vlr@.items),
    ensures
        r matches Ok(n) ==> chunk_written(
            *encode,
            vlr@,
            chunk_data@,
            old(dest).sink(),
            old(dest).trace(),
            final(dest).sink(),
            final(dest).trace(),
            n,
        ),
        r matches Err(e) ==> chunk_failed(
            *encode,
            vlr@,
            chunk_data@,
            old(dest).sink(),
            old(dest).trace(),
            final(dest).sink(),
            final(dest).trace(),
            e,
        ),
{
    let ghost before = dest.trace();
    let start: u64 = match dest.position() {
        Ok(p) => p,
        Err(e) => {
            return Err(e);
        },
    };
    let items: &[LazItem] = vlr.items();
    let bytes: Vec<u8> = match encode(items, chunk_data) {
        Ok(bytes) => bytes,
        Err(e) => {
            return Err(e);
        },
    };
    assert(encodes(*encode, vlr@.items, chunk_data@, Ok::<Seq<u8>, std::io::Error>(bytes@)));
    match dest.write_all(bytes.as_slice()) {
        Ok(()) => {},
        Err(e) => {
            return Err(e);
        },
    }
    proof {
        let looked = seq![Request::Position];
        let written = seq![Request::Position, Request::Write(bytes@)];
        lemma_met_met(before, looked, seq![Request::Write(bytes@)]);
        assert(looked + seq![Request::Write(bytes@)] =~= written);
        lemma_met_met(before, written, looked);
        assert(written + looked =~= chunk_requests(bytes@));
    }
    let end: u64 = match dest.position() {
        Ok(p) => p,
        Err(e) => {
            return Err(e);
        },
    };
    Ok(end - start)
}

/// The buffer that one chunk is compressed into, and the size of the points it was made from.
pub struct ChunkBuffer {
    input_size: usize,
    buffer: Vec<u8>,
}

impl ChunkBuffer {
    /// Number of bytes of the points that were compressed.
    pub closed spec fn spec_input_size(self) -> usize {
        self.input_size
    }

    /// The compressed points.
    pub closed spec fn bytes(self) -> Seq<u8> {
        self.buffer@
    }

    /// A buffer of the given contents.
    pub fn new(input_size: usize, buffer: Vec<u8>) -> (b: ChunkBuffer)
        ensures
            b.spec_input_size() == input_size,
            b.bytes() == buffer@,
    {
        ChunkBuffer { input_size, buffer }
    }

    /// Replaces the contents by the compressed form of `data`.
    fn fill<C>(&mut self, data: &[u8], vlr: &LazVlr, encode: &C) -> (r: std::io::Result<()>) where
        C: Fn(&[LazItem], &[u8]) -> std::io::Result<Vec<u8>>,

        requires
            encoder_ready(*encode, vlr@.items),
        ensures
            r is Ok ==> final(self).holds(*encode, vlr@, data@),
            r matches Err(e) ==> encodes(
                *encode,
                vlr@.items,
                data@,
                Err::<Seq<u8>, std::io::Error>(e),
            ),
    {
        let mut bytes: Vec<u8> = Vec::new();
        std::mem::swap(&mut bytes, &mut self.buffer);
        bytes.clear();
        let mut output: ByteBuffer = ByteBuffer::new(bytes);
        let r = compress_one_chunk(data, vlr, &mut output, encode);
        let ghost written = output.sink();
        self.buffer = output.into_inner();
        match r {
            Ok(_n) => {
                self.input_size = data.len();
                proof {
                    let start = Sink { bytes: Seq::<u8>::empty(), pos: 0 };
                    let out = choose|out: Seq<u8>| #[trigger]
                        encodes(*encode, vlr@.items, data@, Ok::<Seq<u8>, std::io::Error>(out))
                            && written == start.write(out);
                    assert(self.buffer@ =~= out);
                }
                Ok(())
            },
            Err(e) => Err(e),
        }
    }

    /// The buffer holds a compressed form of `data`.
    pub open spec fn holds<C>(self, encode: C, vlr: VlrView, data: Seq<u8>) -> bool where
        C: Fn(&[LazItem], &[u8]) -> std::io::Result<Vec<u8>>,
     {
        &&& self.spec_input_size() == data.len()
        &&& encodes(encode, vlr.items, data, Ok::<Seq<u8>, std::io::Error>(self.bytes()))
    }
}

/// Calls `rayon::slice::ParallelSlice::par_chunks` and collects what it iterates over: the pieces
/// of `chunk_size` elements that the slice is made of, in their order, of which the last may be
/// shorter. A chunk size of zero is left out: `par_chunks` panics on it.
#[verifier::external_body]
fn par_chunks(slc: &[u8], chunk_size: usize) -> (chunks: Vec<&[u8]>)
    requires
        chunk_size > 0,
    ensures
        contents(chunks@) == chunked(slc@, chunk_size as nat),
{
    slc.par_chunks(chunk_size).collect()
}

/// Compresses one chunk into a vector of its own, and gives it with the size of the points.
fn compress_to_vec<C>(data: &[u8], vlr: &LazVlr, encode: &C) -> (r: std::io::Result<
    (usize, Vec<u8>),
>) where C: Fn(&[LazItem], &[u8]) -> std::io::Result<Vec<u8>>
    requires
        encoder_ready(*encode, vlr@.items),
    ensures
        result_of(*encode, vlr@, data@, r),
{
    let mut output: ByteBuffer = ByteBuffer::new(Vec::new());
    match compress_one_chunk(data, vlr, &mut output, encode) {
        Ok(_n) => {
            let ghost written = output.sink();
            let bytes: Vec<u8> = output.into_inner();
            proof {
                let start = Sink { bytes: Seq::<u8>::empty(), pos: 0 };
                let out = choose|out: Seq<u8>| #[trigger]
                    encodes(*encode, vlr@.items, data@, Ok::<Seq<u8>, std::io::Error>(out))
                        && written == start.write(out);
                assert(bytes@ =~= out);
            }
            Ok((data.len(), bytes))
        },
        Err(e) => Err(e),
    }
}

/// `r` is a reply of the record encoder to `data`, beside the size of `data` where it holds bytes.
pub open spec fn result_of<C>(
    encode: C,
    vlr: VlrView,
    data: Seq<u8>,
    r: std::io::Result<(usize, Vec<u8>)>,
) -> bool where C: Fn(&[LazItem], &[u8]) -> std::io::Result<Vec<u8>> {
    match r {
        Ok((n, bytes)) => n == data.len() && encodes(
            encode,
            vlr.items,
            data,
            Ok::<Seq<u8>, std::io::Error>(bytes@),
        ),
        Err(e) => encodes(encode, vlr.items, data, Err::<Seq<u8>, std::io::Error>(e)),
    }
}

/// Runs `compress_to_vec` on every chunk with `rayon`'s `par_iter`, `map` and `collect`: the
/// vector holds, at the place of each chunk, what the call for that chunk returned.
#[verifier::external_body]
fn par_compress_to_vecs<C>(chunks: &[&[u8]], vlr: &LazVlr, encode: &C) -> (results: Vec<
    std::io::Result<(usize, Vec<u8>)>,
>) where C: Fn(&[LazItem], &[u8]) -> std::io::Result<Vec<u8>> + Sync
    requires
        encoder_ready(*encode, vlr@.items),
    ensures
        results@.len() == chunks@.len(),
        forall|k: int|
            0 <= k < chunks@.len() ==> result_of(
                *encode,
                vlr@,
                chunks@[k]@,
                #[trigger] results@[k],
            ),
{
    chunks.par_iter().map(|data| compress_to_vec(data, vlr, encode)).collect()
}

/// Runs `ChunkBuffer::fill` on every chunk and the buffer at the same place with `rayon`'s
/// `par_iter_mut`, `zip`, `map` and `collect` into a `Result`: it is `Ok` when every call
/// returned `Ok`, and otherwise the error of one of the calls, no matter which. Buffers without a
/// chunk keep their contents; after an error nothing is said of the others.
#[verifier::external_body]
fn par_fill<C>(
    buffers: &mut Vec<ChunkBuffer>,
    chunks: &[&[u8]],
    vlr: &LazVlr,
    encode: &C,
) -> (r: std::io::Result<()>) where C: Fn(&[LazItem], &[u8]) -> std::io::Result<Vec<u8>> + Sync
    requires
        encoder_ready(*encode, vlr@.items),
        chunks@.len() <= old(buffers)@.len(),
    ensures
        final(buffers)@.len() == old(buffers)@.len(),
        forall|k: int|
            chunks@.len() <= k < final(buffers)@.len() ==> #[trigger] final(buffers)@[k] == old(buffers)@[k],
        r is Ok ==> forall|k: int|
            0 <= k < chunks@.len() ==> (#[trigger] final(buffers)@[k]).holds(
                *encode,
                vlr@,
                chunks@[k]@,
            ),
        r matches Err(e) ==> refuses_some(*encode, vlr@.items, contents(chunks@), e),
{
    buffers
        .par_iter_mut()
        .zip(chunks.par_iter())
        .map(|(buffer, data)| buffer.fill(data, vlr, encode))
        .collect()
}

/// `table` and the bytes written between `before` and `after` are those of `chunks`, in their
/// order, each of which was handed over by itself.
pub open spec fn chunks_written<C>(
    encode: C,
    vlr: VlrView,
    chunks: Seq<Seq<u8>>,
    before: Sink,
    trace: Trace,
    after: Sink,
    trace_after: Trace,
    table: Seq<ChunkTableEntry>,
) -> bool where C: Fn(&[LazItem], &[u8]) -> std::io::Result<Vec<u8>> {
    exists|encoded: Seq<Seq<u8>>| #[trigger]
        encodes_all(encode, vlr.items, chunks, encoded) && table == entries_of(
            vlr,
            chunks,
            encoded,
        ) && after == before.write(encoded.flatten()) && trace_after == trace.met(writes(encoded))
}

/// The pieces before the one at `k` were written, each by itself, and the destination failed with
/// `e` when it was asked to write that one. It was asked for nothing more.
pub open spec fn cut_at(
    pieces: Seq<Seq<u8>>,
    k: int,
    sink: Sink,
    trace: Trace,
    sink_after: Sink,
    trace_after: Trace,
    e: std::io::Error,
) -> bool {
    &&& 0 <= k < pieces.len()
    &&& request_failed(
        sink.write(pieces.take(k).flatten()),
        trace.met(writes(pieces.take(k))),
        Request::Write(pieces[k]),
        sink_after,
        trace_after,
        e,
    )
}

/// The destination failed with `e` when it was asked to write one of `pieces`.
pub open spec fn cut(
    pieces: Seq<Seq<u8>>,
    sink: Sink,
    trace: Trace,
    sink_after: Sink,
    trace_after: Trace,
    e: std::io::Error,
) -> bool {
    exists|k: int| #[trigger] cut_at(pieces, k, sink, trace, sink_after, trace_after, e)
}

/// All of `chunks` were compressed, and the destination failed with `e` when it was asked to
/// write one of them.
pub open spec fn writing_failed<C>(
    encode: C,
    vlr: VlrView,
    chunks: Seq<Seq<u8>>,
    sink: Sink,
    trace: Trace,
    sink_after: Sink,
    trace_after: Trace,
    e: std::io::Error,
) -> bool where C: Fn(&[LazItem], &[u8]) -> std::io::Result<Vec<u8>> {
    exists|encoded: Seq<Seq<u8>>| #[trigger]
        encodes_all(encode, vlr.items, chunks, encoded) && cut(
            encoded,
            sink,
            trace,
            sink_after,
            trace_after,
            e,
        )
}

/// Enters a compressed chunk in `table` and writes it.
fn append_chunk<W: ByteSink>(
    dst: &mut W,
    vlr: &LazVlr,
    table: &mut ChunkTable,
    input_size: usize,
    compressed_data: &[u8],
) -> (r: std::io::Result<()>)
    requires
        vlr@.point_size() <= usize::MAX,
        vlr@.countable(),
    ensures
        final(table)@ == old(table)@.push(
            entry_of(vlr@, input_size as nat, compressed_data@.len()),
        ),
        r is Ok ==> final(dst).sink() == old(dst).sink().write(compressed_data@),
        r is Ok ==> final(dst).trace() == old(dst).trace().met(
            seq![Request::Write(compressed_data@)],
        ),
        r matches Err(e) ==> request_failed(
            old(dst).sink(),
            old(dst).trace(),
            Request::Write(compressed_data@),
            final(dst).sink(),
            final(dst).trace(),
            e,
        ),
{
    let point_size: usize = vlr.items_size() as usize;
    let point_count: u64 = if vlr.uses_variable_size_chunks() {
        (input_size / point_size) as u64
    } else {
        vlr.chunk_size() as u64
    };
    table.push(ChunkTableEntry { point_count, byte_count: compressed_data.len() as u64 });
    dst.write_all(compressed_data)
}

/// The bytes of the first `n` compressed chunks of `buffers`.
pub open spec fn buffered(buffers: Seq<ChunkBuffer>, n: nat) -> Seq<Seq<u8>> {
    Seq::new(n, |k: int| buffers[k].bytes())
}

/// Writes the compressed chunks of the first `n` buffers and returns the table of them.
pub fn write_chunk_buffers<W: ByteSink>(
    dst: &mut W,
    buffers: &Vec<ChunkBuffer>,
    n: usize,
    vlr: &LazVlr,
) -> (r: Result<ChunkTable, LasZipError>)
    requires
        vlr@.point_size() <= usize::MAX,
        n > 0 ==> vlr@.countable(),
        n <= buffers@.len(),
    ensures
        r matches Ok(table) ==> {
            &&& table@ == Seq::new(
                n as nat,
                |k: int|
                    entry_of(
                        vlr@,
                        buffers@[k].spec_input_size() as nat,
                        buffers@[k].bytes().len(),
                    ),
            )
            &&& final(dst).sink() == old(dst).sink().write(buffered(buffers@, n as nat).flatten())
            &&& final(dst).trace() == old(dst).trace().met(writes(buffered(buffers@, n as nat)))
        },
        r matches Err(e) ==> e matches LasZipError::IoError(IoError::Direct(x)) && cut(
            buffered(buffers@, n as nat),
            old(dst).sink(),
            old(dst).trace(),
            final(dst).sink(),
            final(dst).trace(),
            x,
        ),
{
    let mut chunk_table: ChunkTable = ChunkTable::with_capacity(n);
    let ghost start = dst.sink();
    let ghost trace = dst.trace();
    let ghost all = buffered(buffers@, n as nat);
    let mut k: usize = 0;
    proof {
        lemma_write_nothing(start);
        lemma_met_nothing(trace);
        assert(writes(buffered(buffers@, 0)) =~= Seq::<Request>::empty());
    }
    while k < n
        invariant
            k <= n <= buffers@.len(),
            vlr@.point_size() <= usize::MAX,
            n > 0 ==> vlr@.countable(),
            chunk_table@ == Seq::new(
                k as nat,
                |j: int|
                    entry_of(
                        vlr@,
                        buffers@[j].spec_input_size() as nat,
                        buffers@[j].bytes().len(),
                    ),
            ),
            dst.sink() == start.write(buffered(buffers@, k as nat).flatten()),
            dst.trace() == trace.met(writes(buffered(buffers@, k as nat))),
            start == old(dst).sink(),
            trace == old(dst).trace(),
            all == buffered(buffers@, n as nat),
        decreases n - k,
    {
        assert(all.take(k as int) =~= buffered(buffers@, k as nat));
        let input_size: usize = buffers[k].input_size;
        let compressed_data: &[u8] = buffers[k].buffer.as_slice();
        match append_chunk(dst, vlr, &mut chunk_table, input_size, compressed_data) {
            Ok(()) => {},
            Err(e) => {
                assert(cut_at(all, k as int, start, trace, dst.sink(), dst.trace(), e));
                return Err(LasZipError::IoError(IoError::Direct(e)));
            },
        }
        proof {
            let done = buffered(buffers@, k as nat);
            lemma_write_write(start, done.flatten(), compressed_data@);
            lemma_met_write(trace, done, compressed_data@);
            done.lemma_flatten_push(compressed_data@);
            assert(buffered(buffers@, (k + 1) as nat) =~= done.push(compressed_data@));
        }
        k = k + 1;
    }
    Ok(chunk_table)
}

/// There are at least `n` buffers, no more than before unless they were fewer than `n`, and those
/// behind the first `n` are as they were.
pub open spec fn buffers_kept(before: Seq<ChunkBuffer>, after: Seq<ChunkBuffer>, n: nat) -> bool {
    &&& after.len() == if before.len() < n {
        n
    } else {
        before.len()
    }
    &&& forall|k: int| n <= k < after.len() ==> #[trigger] after[k] == before[k]
}

/// The first buffers hold compressed forms of `chunks`.
pub open spec fn buffers_hold<C>(
    encode: C,
    vlr: VlrView,
    buffers: Seq<ChunkBuffer>,
    chunks: Seq<Seq<u8>>,
) -> bool where C: Fn(&[LazItem], &[u8]) -> std::io::Result<Vec<u8>> {
    forall|k: int|
        0 <= k < chunks.len() ==> (#[trigger] buffers[k]).holds(encode, vlr, chunks[k])
}

/// Compresses chunks into buffers that are kept from one call to the next.
pub struct ParChunkCompressor {
    chunk_buffers: Vec<ChunkBuffer>,
}

impl Default for ParChunkCompressor {
    /// A compressor without buffers.
    fn default() -> (compressor: ParChunkCompressor)
        ensures
            compressor.buffers() == Seq::<ChunkBuffer>::empty(),
    {
        ParChunkCompressor { chunk_buffers: Vec::new() }
    }
}

impl ParChunkCompressor {
    /// The buffers.
    pub closed spec fn buffers(self) -> Seq<ChunkBuffer> {
        self.chunk_buffers@
    }

    /// Compresses points cut into chunks of the fixed size that `laz_vlr` gives, and writes the
    /// chunks in their order. Returns the table of them.
    pub fn compress_points<W, C>(
        &mut self,
        dst: &mut W,
        uncompressed_points: &[u8],
        laz_vlr: &LazVlr,
        encode: &C,
    ) -> (r: Result<ChunkTable, LasZipError>) where
        W: ByteSink,
        C: Fn(&[LazItem], &[u8]) -> std::io::Result<Vec<u8>> + Sync,

        requires
            laz_vlr@.valid(),
            !laz_vlr@.variable(),
            uncompressed_points@.len() as nat % laz_vlr@.point_size() == 0,
            encoder_ready(*encode, laz_vlr@.items),
        ensures
            buffers_kept(
                old(self).buffers(),
                final(self).buffers(),
                chunked(uncompressed_points@, laz_vlr@.chunk_bytes()).len(),
            ),
            r is Ok ==> buffers_hold(
                *encode,
                laz_vlr@,
                final(self).buffers(),
                chunked(uncompressed_points@, laz_vlr@.chunk_bytes()),
            ),
            r matches Ok(table) ==> chunks_written(
                *encode,
                laz_vlr@,
                chunked(uncompressed_points@, laz_vlr@.chunk_bytes()),
                old(dst).sink(),
                old(dst).trace(),
                final(dst).sink(),
                final(dst).trace(),
                table@,
            ),
            r matches Err(e) ==> e matches LasZipError::IoError(IoError::Direct(x)) && {
                ||| *final(dst) == *old(dst) && refuses_some(
                    *encode,
                    laz_vlr@.items,
                    chunked(uncompressed_points@, laz_vlr@.chunk_bytes()),
                    x,
                )
                ||| writing_failed(
                    *encode,
                    laz_vlr@,
                    chunked(uncompressed_points@, laz_vlr@.chunk_bytes()),
                    old(dst).sink(),
                    old(dst).trace(),
                    final(dst).sink(),
                    final(dst).trace(),
                    x,
                )
            },
    {
        let point_size: usize = laz_vlr.items_size() as usize;
        let points_per_chunk: usize = laz_vlr.chunk_size() as usize;
        assert(points_per_chunk * point_size == laz_vlr@.chunk_bytes());
        assert(0 < points_per_chunk * point_size) by (nonlinear_arith)
            requires
                0 < points_per_chunk,
                0 < point_size,
        ;
        let chunk_size_in_bytes: usize = points_per_chunk * point_size;
        let chunks: Vec<&[u8]> = par_chunks(uncompressed_points, chunk_size_in_bytes);
        self.compress_chunks(dst, chunks.as_slice(), laz_vlr, encode)
    }

    /// Compresses `chunks` and writes them in their order. Returns the table of them.
    pub fn compress_chunks<W, C>(
        &mut self,
        dst: &mut W,
        chunks: &[&[u8]],
        laz_vlr: &LazVlr,
        encode: &C,
    ) -> (r: Result<ChunkTable, LasZipError>) where
        W: ByteSink,
        C: Fn(&[LazItem], &[u8]) -> std::io::Result<Vec<u8>> + Sync,

        requires
            laz_vlr@.point_size() <= usize::MAX,
            chunks@.len() > 0 ==> laz_vlr@.countable(),
            encoder_ready(*encode, laz_vlr@.items),
        ensures
            buffers_kept(old(self).buffers(), final(self).buffers(), chunks@.len()),
            r is Ok ==> buffers_hold(
                *encode,
                laz_vlr@,
                final(self).buffers(),
                contents(chunks@),
            ),
            r matches Ok(table) ==> chunks_written(
                *encode,
                laz_vlr@,
                contents(chunks@),
                old(dst).sink(),
                old(dst).trace(),
                final(dst).sink(),
                final(dst).trace(),
                table@,
            ),
            r matches Err(e) ==> e matches LasZipError::IoError(IoError::Direct(x)) && {
                ||| *final(dst) == *old(dst) && refuses_some(
                    *encode,
                    laz_vlr@.items,
                    contents(chunks@),
                    x,
                )
                ||| writing_failed(
                    *encode,
                    laz_vlr@,
                    contents(chunks@),
                    old(dst).sink(),
                    old(dst).trace(),
                    final(dst).sink(),
                    final(dst).trace(),
                    x,
                )
            },
    {
        let num_chunks: usize = chunks.len();
        while self.chunk_buffers.len() < num_chunks
            invariant
                old(self).chunk_buffers@.len() <= self.chunk_buffers@.len(),
                old(self).chunk_buffers@.len() < self.chunk_buffers@.len()
                    ==> self.chunk_buffers@.len() <= num_chunks,
                self.chunk_buffers@.take(old(self).chunk_buffers@.len() as int) == old(self).chunk_buffers@,
            decreases num_chunks - self.chunk_buffers@.len(),
        {
            self.chunk_buffers.push(ChunkBuffer::new(0, Vec::new()));
        }
        assert forall|k: int| num_chunks <= k < self.chunk_buffers@.len() implies #[trigger]
            self.chunk_buffers@[k] == old(self).chunk_buffers@[k] by {
            assert(self.chunk_buffers@.take(old(self).chunk_buffers@.len() as int)[k]
                == self.chunk_buffers@[k]);
        }
        match par_fill(&mut self.chunk_buffers, chunks, laz_vlr, encode) {
            Ok(()) => {},
            Err(e) => {
                return Err(LasZipError::IoError(IoError::Direct(e)));
            },
        }
        let r = write_chunk_buffers(dst, &self.chunk_buffers, num_chunks, laz_vlr);
        proof {
            let encoded = buffered(self.chunk_buffers@, num_chunks as nat);
            assert forall|k: int| 0 <= k < contents(chunks@).len() implies encodes(
                *encode,
                laz_vlr@.items,
                #[trigger] contents(chunks@)[k],
                Ok::<Seq<u8>, std::io::Error>(encoded[k]),
            ) by {
                assert(self.chunk_buffers@[k].holds(*encode, laz_vlr@, chunks@[k]@));
            }
            assert(encodes_all(*encode, laz_vlr@.items, contents(chunks@), encoded));
            if r is Ok {
                let table = r->Ok_0@;
                assert forall|k: int| 0 <= k < num_chunks implies #[trigger] table[k]
                    == entries_of(laz_vlr@, contents(chunks@), encoded)[k] by {
                    assert(self.chunk_buffers@[k].holds(*encode, laz_vlr@, chunks@[k]@));
                }
                assert(table =~= entries_of(laz_vlr@, contents(chunks@), encoded));
            }
        }
        r
    }
}

/// The bytes of compressed chunks.
pub open spec fn payloads(results: Seq<std::io::Result<(usize, Vec<u8>)>>) -> Seq<Seq<u8>> {
    Seq::new(results.len(), |k: int| results[k]->Ok_0.1@)
}

/// Writes compressed chunks, each given with the size of its points, and returns the table of
/// them. Stops at the first that is an error.
pub fn write_results<W: ByteSink>(
    dst: &mut W,
    results: Vec<std::io::Result<(usize, Vec<u8>)>>,
    vlr: &LazVlr,
) -> (r: Result<ChunkTable, LasZipError>)
    requires
        vlr@.point_size() <= usize::MAX,
        results@.len() > 0 ==> vlr@.countable(),
    ensures
        r matches Ok(table) ==> {
            &&& forall|k: int| 0 <= k < results@.len() ==> #[trigger] results@[k] is Ok
            &&& table@ == Seq::new(
                results@.len(),
                |k: int|
                    entry_of(vlr@, results@[k]->Ok_0.0 as nat, results@[k]->Ok_0.1@.len()),
            )
            &&& final(dst).sink() == old(dst).sink().write(payloads(results@).flatten())
            &&& final(dst).trace() == old(dst).trace().met(writes(payloads(results@)))
        },
        r matches Err(e) ==> e matches LasZipError::IoError(IoError::Direct(x)) && {
            // The chunks before the first that is an error were written.
            ||| exists|k: int|
                0 <= k < results@.len() && #[trigger] results@[k] == Err::<
                    (usize, Vec<u8>),
                    std::io::Error,
                >(x) && (forall|j: int| 0 <= j < k ==> #[trigger] results@[j] is Ok)
                    && final(dst).sink() == old(dst).sink().write(
                    payloads(results@.take(k)).flatten(),
                ) && final(dst).trace() == old(dst).trace().met(writes(payloads(results@.take(k))))
            // The destination failed at one of them.
            ||| exists|k: int|
                0 <= k < results@.len() && (forall|j: int|
                    0 <= j <= k ==> #[trigger] results@[j] is Ok) && #[trigger] cut_at(
                    payloads(results@),
                    k,
                    old(dst).sink(),
                    old(dst).trace(),
                    final(dst).sink(),
                    final(dst).trace(),
                    x,
                )
        },
{
    let mut chunk_table: ChunkTable = ChunkTable::with_capacity(results.len());
    let ghost start = dst.sink();
    let ghost trace = dst.trace();
    let ghost all = results@;
    proof {
        lemma_write_nothing(start);
        lemma_met_nothing(trace);
        assert(writes(payloads(all.take(0))) =~= Seq::<Request>::empty());
        assert(payloads(all.take(0)) =~= Seq::<Seq<u8>>::empty());
    }
    for chunk_result in it: results
        invariant
            it.seq() == all,
            all == results@,
            vlr@.point_size() <= usize::MAX,
            all.len() > 0 ==> vlr@.countable(),
            forall|j: int| 0 <= j < it.index() ==> #[trigger] all[j] is Ok,
            chunk_table@ == Seq::new(
                it.index() as nat,
                |j: int| entry_of(vlr@, all[j]->Ok_0.0 as nat, all[j]->Ok_0.1@.len()),
            ),
            dst.sink() == start.write(payloads(all.take(it.index() as int)).flatten()),
            dst.trace() == trace.met(writes(payloads(all.take(it.index() as int)))),
            start == old(dst).sink(),
            trace == old(dst).trace(),
    {
        let ghost k = it.index() as int;
        let (input_size, compressed_data): (usize, Vec<u8>) = match chunk_result {
            Ok(pair) => pair,
            Err(e) => {
                assert(all[k] == Err::<(usize, Vec<u8>), std::io::Error>(e));
                return Err(LasZipError::IoError(IoError::Direct(e)));
            },
        };
        assert(all[k] is Ok);
        assert(payloads(all.take(k)) =~= payloads(all).take(k));
        match append_chunk(dst, vlr, &mut chunk_table, input_size, compressed_data.as_slice()) {
            Ok(()) => {},
            Err(e) => {
                assert(cut_at(payloads(all), k, start, trace, dst.sink(), dst.trace(), e));
                return Err(LasZipError::IoError(IoError::Direct(e)));
            },
        }
        proof {
            let done = payloads(all.take(k));
            lemma_write_write(start, done.flatten(), compressed_data@);
            lemma_met_write(trace, done, compressed_data@);
            done.lemma_flatten_push(compressed_data@);
            assert(payloads(all.take(k + 1)) =~= done.push(compressed_data@));
        }
    }
    assert(all.take(all.len() as int) =~= all);
    Ok(chunk_table)
}

/// Writing `chunks` stopped at one of them that the record encoder refused with `e`, when those
/// before it were written between `before` and `after`.
pub open spec fn chunks_stopped<C>(
    encode: C,
    vlr: VlrView,
    chunks: Seq<Seq<u8>>,
    before: Sink,
    trace: Trace,
    after: Sink,
    trace_after: Trace,
    e: std::io::Error,
) -> bool where C: Fn(&[LazItem], &[u8]) -> std::io::Result<Vec<u8>> {
    exists|k: int, encoded: Seq<Seq<u8>>|
        0 <= k < chunks.len() && #[trigger] encodes_all(encode, vlr.items, chunks.take(k), encoded)
            && encodes(encode, vlr.items, chunks[k], Err::<Seq<u8>, std::io::Error>(e)) && after
            == before.write(encoded.flatten()) && trace_after == trace.met(writes(encoded))
}

/// The destination failed with `e` when it was asked to write one of `chunks`, when those before
/// it were written.
pub open spec fn chunks_cut<C>(
    encode: C,
    vlr: VlrView,
    chunks: Seq<Seq<u8>>,
    before: Sink,
    trace: Trace,
    after: Sink,
    trace_after: Trace,
    e: std::io::Error,
) -> bool where C: Fn(&[LazItem], &[u8]) -> std::io::Result<Vec<u8>> {
    exists|k: int, encoded: Seq<Seq<u8>>|
        0 <= k < chunks.len() && encodes_all(encode, vlr.items, chunks.take(k + 1), encoded)
            && #[trigger] cut_at(encoded, k, before, trace, after, trace_after, e)
}

/// Compresses `chunks` and writes them in their order. Returns the table of them.
fn par_compress_chunks<W, C>(
    dst: &mut W,
    chunks: &[&[u8]],
    laz_vlr: &LazVlr,
    encode: &C,
) -> (r: Result<ChunkTable, LasZipError>) where
    W: ByteSink,
    C: Fn(&[LazItem], &[u8]) -> std::io::Result<Vec<u8>> + Sync,

    requires
        laz_vlr@.point_size() <= usize::MAX,
        chunks@.len() > 0 ==> laz_vlr@.countable(),
        encoder_ready(*encode, laz_vlr@.items),
    ensures
        r matches Ok(table) ==> chunks_written(
            *encode,
            laz_vlr@,
            contents(chunks@),
            old(dst).sink(),
            old(dst).trace(),
            final(dst).sink(),
            final(dst).trace(),
            table@,
        ),
        r matches Err(e) ==> e matches LasZipError::IoError(IoError::Direct(x)) && {
            ||| chunks_stopped(
                *encode,
                laz_vlr@,
                contents(chunks@),
                old(dst).sink(),
                old(dst).trace(),
                final(dst).sink(),
                final(dst).trace(),
                x,
            )
            ||| chunks_cut(
                *encode,
                laz_vlr@,
                contents(chunks@),
                old(dst).sink(),
                old(dst).trace(),
                final(dst).sink(),
                final(dst).trace(),
                x,
            )
        },
{
    let results = par_compress_to_vecs(chunks, laz_vlr, encode);
    let ghost all = results@;
    let ghost start = dst.sink();
    let ghost trace = dst.trace();
    let r = write_results(dst, results, laz_vlr);
    proof {
        let pieces = contents(chunks@);
        assert forall|k: int| 0 <= k < pieces.len() implies result_of(
            *encode,
            laz_vlr@,
            pieces[k],
            #[trigger] all[k],
        ) by {
            assert(result_of(*encode, laz_vlr@, chunks@[k]@, all[k]));
        }
        if r is Ok {
            let encoded = payloads(all);
            assert forall|k: int| 0 <= k < pieces.len() implies encodes(
                *encode,
                laz_vlr@.items,
                #[trigger] pieces[k],
                Ok::<Seq<u8>, std::io::Error>(encoded[k]),
            ) by {
                assert(result_of(*encode, laz_vlr@, chunks@[k]@, all[k]));
            }
            assert(encodes_all(*encode, laz_vlr@.items, pieces, encoded));
            assert forall|k: int| 0 <= k < pieces.len() implies #[trigger] r->Ok_0@[k]
                == entries_of(laz_vlr@, pieces, encoded)[k] by {
                assert(result_of(*encode, laz_vlr@, chunks@[k]@, all[k]));
            }
            assert(r->Ok_0@ =~= entries_of(laz_vlr@, pieces, encoded));
        } else {
            let x = r->Err_0->IoError_0->Direct_0;
            if exists|k: int|
                0 <= k < all.len() && #[trigger] all[k] == Err::<(usize, Vec<u8>), std::io::Error>(
                    x,
                ) && (forall|j: int| 0 <= j < k ==> #[trigger] all[j] is Ok) && dst.sink()
                    == start.write(payloads(all.take(k)).flatten()) && dst.trace() == trace.met(
                    writes(payloads(all.take(k))),
                ) {
                let k = choose|k: int|
                    0 <= k < all.len() && #[trigger] all[k] == Err::<
                        (usize, Vec<u8>),
                        std::io::Error,
                    >(x) && (forall|j: int| 0 <= j < k ==> #[trigger] all[j] is Ok) && dst.sink()
                        == start.write(payloads(all.take(k)).flatten()) && dst.trace()
                        == trace.met(writes(payloads(all.take(k))));
                lemma_results(*encode, laz_vlr@, pieces, all, k);
                assert(result_of(*encode, laz_vlr@, chunks@[k]@, all[k]));
            } else {
                let k = choose|k: int|
                    0 <= k < all.len() && (forall|j: int| 0 <= j <= k ==> #[trigger] all[j] is Ok)
                        && #[trigger] cut_at(
                        payloads(all),
                        k,
                        start,
                        trace,
                        dst.sink(),
                        dst.trace(),
                        x,
                    );
                lemma_results(*encode, laz_vlr@, pieces, all, k + 1);
                let encoded = payloads(all.take(k + 1));
                assert(encoded.take(k) =~= payloads(all).take(k));
                assert(cut_at(encoded, k, start, trace, dst.sink(), dst.trace(), x));
            }
        }
    }
    r
}

/// The first `n` results, where they hold bytes, are those of the first `n` chunks.
proof fn lemma_results<C>(
    encode: C,
    vlr: VlrView,
    chunks: Seq<Seq<u8>>,
    results: Seq<std::io::Result<(usize, Vec<u8>)>>,
    n: int,
) where C: Fn(&[LazItem], &[u8]) -> std::io::Result<Vec<u8>>
    requires
        0 <= n <= chunks.len(),
        results.len() == chunks.len(),
        forall|k: int|
            0 <= k < chunks.len() ==> result_of(encode, vlr, chunks[k], #[trigger] results[k]),
        forall|j: int| 0 <= j < n ==> #[trigger] results[j] is Ok,
    ensures
        encodes_all(encode, vlr.items, chunks.take(n), payloads(results.take(n))),
{
    let encoded = payloads(results.take(n));
    assert forall|j: int| 0 <= j < n implies encodes(
        encode,
        vlr.items,
        #[trigger] chunks.take(n)[j],
        Ok::<Seq<u8>, std::io::Error>(encoded[j]),
    ) by {
        assert(result_of(encode, vlr, chunks[j], results[j]));
        assert(results[j] is Ok);
    }
}

/// Compresses the points contained in `uncompressed_points`, cut into chunks of the fixed size
/// that `laz_vlr` gives, and writes the chunks to `dst` in their order.
///
/// Neither writes nor updates the offset to the chunk table, and does not write the chunk table:
/// it is returned.
pub fn par_compress<W, C>(
    dst: &mut W,
    uncompressed_points: &[u8],
    laz_vlr: &LazVlr,
    encode: &C,
) -> (r: Result<ChunkTable, LasZipError>) where
    W: ByteSink,
    C: Fn(&[LazItem], &[u8]) -> std::io::Result<Vec<u8>> + Sync,

    requires
        laz_vlr@.valid(),
        !laz_vlr@.variable(),
        uncompressed_points@.len() as nat % laz_vlr@.point_size() == 0,
        encoder_ready(*encode, laz_vlr@.items),
    ensures
        r matches Ok(table) ==> chunks_written(
            *encode,
            laz_vlr@,
            chunked(uncompressed_points@, laz_vlr@.chunk_bytes()),
            old(dst).sink(),
            old(dst).trace(),
            final(dst).sink(),
            final(dst).trace(),
            table@,
        ),
        r matches Err(e) ==> e matches LasZipError::IoError(IoError::Direct(x)) && {
            ||| chunks_stopped(
                *encode,
                laz_vlr@,
                chunked(uncompressed_points@, laz_vlr@.chunk_bytes()),
                old(dst).sink(),
                old(dst).trace(),
                final(dst).sink(),
                final(dst).trace(),
                x,
            )
            ||| chunks_cut(
                *encode,
                laz_vlr@,
                chunked(uncompressed_points@, laz_vlr@.chunk_bytes()),
                old(dst).sink(),
                old(dst).trace(),
                final(dst).sink(),
                final(dst).trace(),
                x,
            )
        },
{
    let point_size: usize = laz_vlr.items_size() as usize;
    let points_per_chunk: usize = laz_vlr.chunk_size() as usize;
    assert(points_per_chunk * point_size == laz_vlr@.chunk_bytes());
    assert(0 < points_per_chunk * point_size) by (nonlinear_arith)
        requires
            0 < points_per_chunk,
            0 < point_size,
    ;
    let chunk_size_in_bytes: usize = points_per_chunk * point_size;
    let all_slices: Vec<&[u8]> = par_chunks(uncompressed_points, chunk_size_in_bytes);
    par_compress_chunks(dst, all_slices.as_slice(), laz_vlr, encode)
}

/// A whole file of chunks: the position of the chunk table, the compressed chunks, and the table
/// itself.
pub open spec fn file_written(start: Sink, chunk_bytes: Seq<u8>, table_bytes: Seq<u8>) -> Sink {
    start.write(le_bytes((start.pos + 8 + chunk_bytes.len()) as i64)).write(chunk_bytes).write(
        table_bytes,
    )
}

/// Between `before` and `after` stands a whole file that holds `chunks` and the table of them.
pub open spec fn file_of_chunks<C, T>(
    encode: C,
    encode_table: T,
    vlr: VlrView,
    chunks: Seq<Seq<u8>>,
    before: Sink,
    after: Sink,
) -> bool where
    C: Fn(&[LazItem], &[u8]) -> std::io::Result<Vec<u8>>,
    T: Fn(&ChunkTable, &LazVlr) -> std::io::Result<Vec<u8>>,
 {
    exists|encoded: Seq<Seq<u8>>, table_bytes: Seq<u8>| #[trigger]
        encodes_all(encode, vlr.items, chunks, encoded) && #[trigger] encodes_table(
            encode_table,
            vlr,
            entries_of(vlr, chunks, encoded),
            Ok::<Seq<u8>, std::io::Error>(table_bytes),
        ) && after == file_written(before, encoded.flatten(), table_bytes)
}

/// Between `before` and `after` stands a whole file that holds `chunks` and the table of them, and
/// that table is `table`.
pub open spec fn file_with_table<C, T>(
    encode: C,
    encode_table: T,
    vlr: VlrView,
    chunks: Seq<Seq<u8>>,
    before: Sink,
    after: Sink,
    table: Seq<ChunkTableEntry>,
) -> bool where
    C: Fn(&[LazItem], &[u8]) -> std::io::Result<Vec<u8>>,
    T: Fn(&ChunkTable, &LazVlr) -> std::io::Result<Vec<u8>>,
 {
    exists|encoded: Seq<Seq<u8>>, table_bytes: Seq<u8>| #[trigger]
        encodes_all(encode, vlr.items, chunks, encoded) && #[trigger] encodes_table(
            encode_table,
            vlr,
            table,
            Ok::<Seq<u8>, std::io::Error>(table_bytes),
        ) && table == entries_of(vlr, chunks, encoded) && after == file_written(
            before,
            encoded.flatten(),
            table_bytes,
        )
}

/// What is asked of a destination at `pos` to write a whole file.
pub open spec fn file_requests(
    pos: nat,
    encoded: Seq<Seq<u8>>,
    table_bytes: Seq<u8>,
) -> Seq<Request> {
    reserve_requests(pos) + writes(encoded) + offset_requests(
        pos,
        pos + 8 + encoded.flatten().len(),
    ) + seq![Request::Write(table_bytes)]
}

/// A whole file that holds `chunks` and the table of them was written by the requests for it.
pub open spec fn file_requested<C, T>(
    encode: C,
    encode_table: T,
    vlr: VlrView,
    chunks: Seq<Seq<u8>>,
    before: Sink,
    trace: Trace,
    after: Sink,
    trace_after: Trace,
) -> bool where
    C: Fn(&[LazItem], &[u8]) -> std::io::Result<Vec<u8>>,
    T: Fn(&ChunkTable, &LazVlr) -> std::io::Result<Vec<u8>>,
 {
    exists|encoded: Seq<Seq<u8>>, table_bytes: Seq<u8>| #[trigger]
        encodes_all(encode, vlr.items, chunks, encoded) && #[trigger] encodes_table(
            encode_table,
            vlr,
            entries_of(vlr, chunks, encoded),
            Ok::<Seq<u8>, std::io::Error>(table_bytes),
        ) && after == file_written(before, encoded.flatten(), table_bytes) && trace_after
            == trace.met(file_requests(before.pos, encoded, table_bytes))
}

/// Writing a whole file that holds `chunks` failed with `e`.
pub open spec fn file_failed<C, T>(
    encode: C,
    encode_table: T,
    vlr: VlrView,
    chunks: Seq<Seq<u8>>,
    before: Sink,
    trace: Trace,
    after: Sink,
    trace_after: Trace,
    e: std::io::Error,
) -> bool where
    C: Fn(&[LazItem], &[u8]) -> std::io::Result<Vec<u8>>,
    T: Fn(&ChunkTable, &LazVlr) -> std::io::Result<Vec<u8>>,
 {
    let offset = le_bytes(before.pos as i64);
    let opened = before.write(offset);
    let trace_opened = trace.met(reserve_requests(before.pos));
    // No place could be reserved.
    ||| request_failed(before, trace, Request::Position, after, trace_after, e)
    ||| request_failed(
        before,
        trace.met(seq![Request::Position]),
        Request::Write(offset),
        after,
        trace_after,
        e,
    )
    // A chunk could not be compressed, or not be written.
    ||| chunks_stopped(encode, vlr, chunks, opened, trace_opened, after, trace_after, e)
    ||| chunks_cut(encode, vlr, chunks, opened, trace_opened, after, trace_after, e)
    // The chunks were written.
    ||| exists|encoded: Seq<Seq<u8>>| #[trigger]
        encodes_all(encode, vlr.items, chunks, encoded) && {
            let written = opened.write(encoded.flatten());
            let trace_written = trace_opened.met(writes(encoded));
            let stored = file_written(before, encoded.flatten(), Seq::empty());
            let trace_stored = trace_written.met(offset_requests(before.pos, written.pos));
            let table = entries_of(vlr, chunks, encoded);
            // The position of the table could not be stored.
            ||| offset_failed(before.pos, written, trace_written, after, trace_after, e)
            // The table could not be brought into its form, or not be written.
            ||| {
                &&& encodes_table(encode_table, vlr, table, Err::<Seq<u8>, std::io::Error>(e))
                &&& after == stored
                &&& trace_after == trace_stored
            }
            ||| exists|table_bytes: Seq<u8>| #[trigger]
                encodes_table(
                    encode_table,
                    vlr,
                    table,
                    Ok::<Seq<u8>, std::io::Error>(table_bytes),
                ) && request_failed(
                    stored,
                    trace_stored,
                    Request::Write(table_bytes),
                    after,
                    trace_after,
                    e,
                )
        }
}

/// Compresses all points on several threads into a whole file: the offset to the chunk table,
/// the chunks in the order of the points, and the chunk table.
pub fn par_compress_buffer<W, C, T>(
    dst: &mut W,
    uncompressed_points: &[u8],
    laz_vlr: &LazVlr,
    encode: &C,
    encode_table: &T,
) -> (r: Result<(), LasZipError>) where
    W: SeekSink,
    C: Fn(&[LazItem], &[u8]) -> std::io::Result<Vec<u8>> + Sync,
    T: Fn(&ChunkTable, &LazVlr) -> std::io::Result<Vec<u8>>,

    requires
        laz_vlr@.valid(),
        !laz_vlr@.variable(),
        uncompressed_points@.len() as nat % laz_vlr@.point_size() == 0,
        encoder_ready(*encode, laz_vlr@.items),
        table_encoder_ready(*encode_table, laz_vlr@),
    ensures
        r is Ok ==> file_of_chunks(
            *encode,
            *encode_table,
            laz_vlr@,
            chunked(uncompressed_points@, laz_vlr@.chunk_bytes()),
            old(dst).sink(),
            final(dst).sink(),
        ),
        r is Ok ==> file_requested(
            *encode,
            *encode_table,
            laz_vlr@,
            chunked(uncompressed_points@, laz_vlr@.chunk_bytes()),
            old(dst).sink(),
            old(dst).trace(),
            final(dst).sink(),
            final(dst).trace(),
        ),
        r matches Err(e) ==> e matches LasZipError::IoError(IoError::Direct(x)) && file_failed(
            *encode,
            *encode_table,
            laz_vlr@,
            chunked(uncompressed_points@, laz_vlr@.chunk_bytes()),
            old(dst).sink(),
            old(dst).trace(),
            final(dst).sink(),
            final(dst).trace(),
            x,
        ),
{
    let ghost start = dst.sink();
    let ghost trace = dst.trace();
    let start_pos: u64 = match dst.position() {
        Ok(p) => p,
        Err(e) => {
            return Err(LasZipError::IoError(IoError::Direct(e)));
        },
    };
    // Reserve the bytes for the chunk table offset that will be updated later
    let reserved: Vec<u8> = i64_to_le_bytes(start_pos as i64);
    match dst.write_all(reserved.as_slice()) {
        Ok(()) => {},
        Err(e) => {
            return Err(LasZipError::IoError(IoError::Direct(e)));
        },
    }
    let ghost opened = dst.sink();
    proof {
        let first = seq![Request::Position];
        let second = seq![Request::Write(le_bytes(start_pos as i64))];
        lemma_met_met(trace, first, second);
        assert(first + second =~= reserve_requests(start.pos));
    }
    let ghost trace_opened = dst.trace();
    let chunk_table: ChunkTable = match par_compress(dst, uncompressed_points, laz_vlr, encode) {
        Ok(table) => table,
        Err(e) => {
            return Err(e);
        },
    };
    let ghost chunks = chunked(uncompressed_points@, laz_vlr@.chunk_bytes());
    let ghost encoded = choose|encoded: Seq<Seq<u8>>| #[trigger]
        encodes_all(*encode, laz_vlr@.items, chunks, encoded) && chunk_table@ == entries_of(
            laz_vlr@,
            chunks,
            encoded,
        ) && dst.sink() == opened.write(encoded.flatten()) && dst.trace() == trace_opened.met(
            writes(encoded),
        );
    match update_chunk_table_offset(dst, start_pos) {
        Ok(()) => {},
        Err(e) => {
            return Err(LasZipError::IoError(IoError::Direct(e)));
        },
    }
    proof {
        let flat = encoded.flatten();
        let end = start.pos + 8 + flat.len();
        lemma_rewrite(start, le_bytes(start_pos as i64), flat, le_bytes(end as i64));
        lemma_write_nothing(dst.sink());
        assert(dst.sink() == file_written(start, flat, Seq::empty()));
    }
    let ghost stored = dst.sink();
    let ghost trace_stored = dst.trace();
    match chunk_table.write_to(dst, laz_vlr, encode_table) {
        Ok(()) => {
            proof {
                let table_bytes = choose|bytes: Seq<u8>| #[trigger]
                    encodes_table(
                        *encode_table,
                        laz_vlr@,
                        chunk_table@,
                        Ok::<Seq<u8>, std::io::Error>(bytes),
                    ) && dst.sink() == stored.write(bytes) && dst.trace() == trace_stored.met(
                        seq![Request::Write(bytes)],
                    );
                let a = reserve_requests(start.pos);
                let b = writes(encoded);
                let c = offset_requests(start.pos, start.pos + 8 + encoded.flatten().len());
                let d = seq![Request::Write(table_bytes)];
                lemma_met_met(trace, a, b);
                lemma_met_met(trace, a + b, c);
                lemma_met_met(trace, a + b + c, d);
            }
            Ok(())
        },
        Err(e) => Err(LasZipError::IoError(IoError::Direct(e))),
    }
}

} // verus!
