//! What holds of the compressors as a whole.

use crate::chunk_table::{entries_of, ChunkTable, ChunkTableEntry};
use crate::chunking::{
    chunked, full_chunks, last_chunk, leftover, lemma_chunked, lemma_first_chunk,
    lemma_chunked_append, lemma_full_chunks_append, lemma_short_data,
};
use crate::codec::{
    encodes, encodes_all, encodes_table, le_bytes, le_value, lemma_encodes_all_append,
    lemma_le_value_of_le_bytes, lemma_repeatable_all, lemma_signed_offset, repeatable,
    table_repeatable,
};
use crate::compressor::{
    chunks_taken, finished, lemma_with_chunks_append, lemma_with_no_chunks, points_taken,
    CompressorState,
};
use crate::parallel::{
    chunk_failed, chunk_written, chunks_written, file_of_chunks, file_with_table, file_written,
};
use crate::sink::{lemma_met_met, lemma_rewrite, lemma_write_write, writes, Sink, Trace};
use crate::vlr::{LazItem, LazVlr, VlrView};
use vstd::prelude::*;

verus! {

/// Once a place is reserved, the state says so.
proof fn lemma_opened(s: CompressorState)
    requires
        s.has_place(),
    ensures
        s.opened().table_offset != -1,
{
    if s.table_offset == -1 {
        lemma_signed_offset(s.sink.pos as u64);
    }
}

/// Taking points in two calls does what taking all of them in one call does.
pub proof fn law_points_in_two_calls<C>(
    encode: C,
    s0: CompressorState,
    a: Seq<u8>,
    s1: CompressorState,
    b: Seq<u8>,
    s2: CompressorState,
) where C: Fn(&[LazItem], &[u8]) -> std::io::Result<Vec<u8>>
    requires
        s0.vlr.chunk_bytes() > 0,
        points_taken(encode, s0, a, s1),
        points_taken(encode, s1, b, s2),
    ensures
        points_taken(encode, s0, a + b, s2),
{
    let size = s0.vlr.chunk_bytes();
    lemma_opened(s0);
    let d0 = s0.rest + a;
    let d1 = s1.rest + b;
    let ea = choose|encoded: Seq<Seq<u8>>| #[trigger]
        encodes_all(encode, s0.vlr.items, full_chunks(d0, size), encoded) && s1 == (
        CompressorState {
            rest: leftover(d0, size),
            ..s0.opened().with_chunks(full_chunks(d0, size), encoded)
        });
    let eb = choose|encoded: Seq<Seq<u8>>| #[trigger]
        encodes_all(encode, s1.vlr.items, full_chunks(d1, size), encoded) && s2 == (
        CompressorState {
            rest: leftover(d1, size),
            ..s1.opened().with_chunks(full_chunks(d1, size), encoded)
        });
    lemma_full_chunks_append(d0, b, size);
    assert(s0.rest + (a + b) =~= d0 + b);
    lemma_encodes_all_append(
        encode,
        s0.vlr.items,
        full_chunks(d0, size),
        ea,
        full_chunks(d1, size),
        eb,
    );
    lemma_with_chunks_append(
        s0.opened(),
        full_chunks(d0, size),
        ea,
        full_chunks(d1, size),
        eb,
    );
}

/// However points are spread over calls, the calls do what one call with all the points does.
pub proof fn law_points_in_many_calls<C>(
    encode: C,
    batches: Seq<Seq<u8>>,
    states: Seq<CompressorState>,
) where C: Fn(&[LazItem], &[u8]) -> std::io::Result<Vec<u8>>
    requires
        batches.len() > 0,
        states.len() == batches.len() + 1,
        states[0].vlr.chunk_bytes() > 0,
        forall|k: int|
            0 <= k < batches.len() ==> points_taken(
                encode,
                states[k],
                #[trigger] batches[k],
                states[k + 1],
            ),
    ensures
        points_taken(encode, states[0], batches.flatten(), states.last()),
    decreases batches.len(),
{
    let n = batches.len() - 1;
    assert(points_taken(encode, states[n], batches[n], states[n + 1]));
    if n == 0 {
        batches.lemma_flatten_singleton();
    } else {
        let front = batches.drop_last();
        let front_states = states.drop_last();
        assert forall|k: int| 0 <= k < front.len() implies points_taken(
            encode,
            front_states[k],
            #[trigger] front[k],
            front_states[k + 1],
        ) by {
            assert(points_taken(encode, states[k], batches[k], states[k + 1]));
        }
        law_points_in_many_calls(encode, front, front_states);
        law_points_in_two_calls(
            encode,
            states[0],
            front.flatten(),
            states[n],
            batches[n],
            states[n + 1],
        );
        front.lemma_flatten_push(batches[n]);
        assert(front.push(batches[n]) =~= batches);
    }
}

/// Taking chunks in two calls does what taking all of them in one call does.
pub proof fn law_chunks_in_two_calls<C>(
    encode: C,
    s0: CompressorState,
    a: Seq<Seq<u8>>,
    s1: CompressorState,
    b: Seq<Seq<u8>>,
    s2: CompressorState,
) where C: Fn(&[LazItem], &[u8]) -> std::io::Result<Vec<u8>>
    requires
        chunks_taken(encode, s0, a, s1),
        chunks_taken(encode, s1, b, s2),
    ensures
        chunks_taken(encode, s0, a + b, s2),
{
    lemma_opened(s0);
    let ea = choose|encoded: Seq<Seq<u8>>| #[trigger]
        encodes_all(encode, s0.vlr.items, a, encoded) && s1 == s0.opened().with_chunks(a, encoded);
    let eb = choose|encoded: Seq<Seq<u8>>| #[trigger]
        encodes_all(encode, s1.vlr.items, b, encoded) && s2 == s1.opened().with_chunks(b, encoded);
    lemma_encodes_all_append(encode, s0.vlr.items, a, ea, b, eb);
    lemma_with_chunks_append(s0.opened(), a, ea, b, eb);
}

/// However chunks are spread over calls, the calls do what one call with all the chunks does.
pub proof fn law_chunks_in_many_calls<C>(
    encode: C,
    batches: Seq<Seq<Seq<u8>>>,
    states: Seq<CompressorState>,
) where C: Fn(&[LazItem], &[u8]) -> std::io::Result<Vec<u8>>
    requires
        batches.len() > 0,
        states.len() == batches.len() + 1,
        forall|k: int|
            0 <= k < batches.len() ==> chunks_taken(
                encode,
                states[k],
                #[trigger] batches[k],
                states[k + 1],
            ),
    ensures
        chunks_taken(encode, states[0], batches.flatten(), states.last()),
    decreases batches.len(),
{
    let n = batches.len() - 1;
    assert(chunks_taken(encode, states[n], batches[n], states[n + 1]));
    if n == 0 {
        batches.lemma_flatten_singleton();
    } else {
        let front = batches.drop_last();
        let front_states = states.drop_last();
        assert forall|k: int| 0 <= k < front.len() implies chunks_taken(
            encode,
            front_states[k],
            #[trigger] front[k],
            front_states[k + 1],
        ) by {
            assert(chunks_taken(encode, states[k], batches[k], states[k + 1]));
        }
        law_chunks_in_many_calls(encode, front, front_states);
        law_chunks_in_two_calls(
            encode,
            states[0],
            front.flatten(),
            states[n],
            batches[n],
            states[n + 1],
        );
        front.lemma_flatten_push(batches[n]);
        assert(front.push(batches[n]) =~= batches);
    }
}

/// With an encoder that gives the same bytes for the same points, taking the same points from the
/// same state ends in the same state.
pub proof fn law_same_points_same_end<C>(
    encode: C,
    s0: CompressorState,
    points: Seq<u8>,
    s1: CompressorState,
    s2: CompressorState,
) where C: Fn(&[LazItem], &[u8]) -> std::io::Result<Vec<u8>>
    requires
        repeatable(encode, s0.vlr.items),
        points_taken(encode, s0, points, s1),
        points_taken(encode, s0, points, s2),
    ensures
        s1 == s2,
{
    let size = s0.vlr.chunk_bytes();
    let data = s0.rest + points;
    let full = full_chunks(data, size);
    let a = choose|encoded: Seq<Seq<u8>>| #[trigger]
        encodes_all(encode, s0.vlr.items, full, encoded) && s1 == (CompressorState {
            rest: leftover(data, size),
            ..s0.opened().with_chunks(full, encoded)
        });
    let b = choose|encoded: Seq<Seq<u8>>| #[trigger]
        encodes_all(encode, s0.vlr.items, full, encoded) && s2 == (CompressorState {
            rest: leftover(data, size),
            ..s0.opened().with_chunks(full, encoded)
        });
    lemma_repeatable_all(encode, s0.vlr.items, full, a, b);
}

/// With an encoder that gives the same bytes for the same points, taking points in two calls ends
/// in the state in which taking all of them in one call ends: the same bytes in the destination,
/// the same table, the same points that wait, the same place for the offset.
pub proof fn law_two_calls_end_like_one<C>(
    encode: C,
    s0: CompressorState,
    a: Seq<u8>,
    s1: CompressorState,
    b: Seq<u8>,
    s2: CompressorState,
    at_once: CompressorState,
) where C: Fn(&[LazItem], &[u8]) -> std::io::Result<Vec<u8>>
    requires
        repeatable(encode, s0.vlr.items),
        s0.vlr.chunk_bytes() > 0,
        points_taken(encode, s0, a, s1),
        points_taken(encode, s1, b, s2),
        points_taken(encode, s0, a + b, at_once),
    ensures
        s2 == at_once,
{
    law_points_in_two_calls(encode, s0, a, s1, b, s2);
    law_same_points_same_end(encode, s0, a + b, s2, at_once);
}

/// With an encoder that gives the same bytes for the same points, it does not matter how points
/// are spread over calls: from the same state, the same points end in the same state.
pub proof fn law_batches_do_not_matter<C>(
    encode: C,
    batches: Seq<Seq<u8>>,
    states: Seq<CompressorState>,
    other_batches: Seq<Seq<u8>>,
    other_states: Seq<CompressorState>,
) where C: Fn(&[LazItem], &[u8]) -> std::io::Result<Vec<u8>>
    requires
        batches.len() > 0,
        states.len() == batches.len() + 1,
        states[0].vlr.chunk_bytes() > 0,
        repeatable(encode, states[0].vlr.items),
        forall|k: int|
            0 <= k < batches.len() ==> points_taken(
                encode,
                states[k],
                #[trigger] batches[k],
                states[k + 1],
            ),
        other_batches.len() > 0,
        other_states.len() == other_batches.len() + 1,
        forall|k: int|
            0 <= k < other_batches.len() ==> points_taken(
                encode,
                other_states[k],
                #[trigger] other_batches[k],
                other_states[k + 1],
            ),
        states[0] == other_states[0],
        batches.flatten() == other_batches.flatten(),
    ensures
        states.last() == other_states.last(),
{
    law_points_in_many_calls(encode, batches, states);
    law_points_in_many_calls(encode, other_batches, other_states);
    law_same_points_same_end(
        encode,
        states[0],
        batches.flatten(),
        states.last(),
        other_states.last(),
    );
}

/// With an encoder that gives the same bytes for the same points, taking the same chunks from the
/// same state ends in the same state.
pub proof fn law_same_chunks_same_end<C>(
    encode: C,
    s0: CompressorState,
    chunks: Seq<Seq<u8>>,
    s1: CompressorState,
    s2: CompressorState,
) where C: Fn(&[LazItem], &[u8]) -> std::io::Result<Vec<u8>>
    requires
        repeatable(encode, s0.vlr.items),
        chunks_taken(encode, s0, chunks, s1),
        chunks_taken(encode, s0, chunks, s2),
    ensures
        s1 == s2,
{
    let a = choose|encoded: Seq<Seq<u8>>| #[trigger]
        encodes_all(encode, s0.vlr.items, chunks, encoded) && s1 == s0.opened().with_chunks(
            chunks,
            encoded,
        );
    let b = choose|encoded: Seq<Seq<u8>>| #[trigger]
        encodes_all(encode, s0.vlr.items, chunks, encoded) && s2 == s0.opened().with_chunks(
            chunks,
            encoded,
        );
    lemma_repeatable_all(encode, s0.vlr.items, chunks, a, b);
}

/// With an encoder that gives the same bytes for the same points, taking chunks in two calls ends
/// in the state in which taking all of them in one call ends.
pub proof fn law_two_chunk_calls_end_like_one<C>(
    encode: C,
    s0: CompressorState,
    a: Seq<Seq<u8>>,
    s1: CompressorState,
    b: Seq<Seq<u8>>,
    s2: CompressorState,
    at_once: CompressorState,
) where C: Fn(&[LazItem], &[u8]) -> std::io::Result<Vec<u8>>
    requires
        repeatable(encode, s0.vlr.items),
        chunks_taken(encode, s0, a, s1),
        chunks_taken(encode, s1, b, s2),
        chunks_taken(encode, s0, a + b, at_once),
    ensures
        s2 == at_once,
{
    law_chunks_in_two_calls(encode, s0, a, s1, b, s2);
    law_same_chunks_same_end(encode, s0, a + b, s2, at_once);
}

/// With an encoder that gives the same bytes for the same points, chunks that are compressed into
/// buffers of earlier calls, or into new ones, give the same bytes and the same table.
pub proof fn law_buffers_do_not_show<C>(
    encode: C,
    vlr: VlrView,
    chunks: Seq<Seq<u8>>,
    start: Sink,
    trace: Trace,
    a: Sink,
    trace_a: Trace,
    table_a: Seq<ChunkTableEntry>,
    other_trace: Trace,
    b: Sink,
    trace_b: Trace,
    table_b: Seq<ChunkTableEntry>,
) where C: Fn(&[LazItem], &[u8]) -> std::io::Result<Vec<u8>>
    requires
        repeatable(encode, vlr.items),
        chunks_written(encode, vlr, chunks, start, trace, a, trace_a, table_a),
        chunks_written(encode, vlr, chunks, start, other_trace, b, trace_b, table_b),
    ensures
        a == b,
        table_a == table_b,
{
    let x = choose|encoded: Seq<Seq<u8>>| #[trigger]
        encodes_all(encode, vlr.items, chunks, encoded) && table_a == entries_of(
            vlr,
            chunks,
            encoded,
        ) && a == start.write(encoded.flatten());
    let y = choose|encoded: Seq<Seq<u8>>| #[trigger]
        encodes_all(encode, vlr.items, chunks, encoded) && table_b == entries_of(
            vlr,
            chunks,
            encoded,
        ) && b == start.write(encoded.flatten());
    lemma_repeatable_all(encode, vlr.items, chunks, x, y);
}

/// With encoders that give the same bytes for the same input, two files of the same chunks that
/// begin at the same place are the same.
pub proof fn law_same_chunks_same_file<C, T>(
    encode: C,
    encode_table: T,
    vlr: VlrView,
    chunks: Seq<Seq<u8>>,
    start: Sink,
    a: Sink,
    b: Sink,
) where
    C: Fn(&[LazItem], &[u8]) -> std::io::Result<Vec<u8>>,
    T: Fn(&ChunkTable, &LazVlr) -> std::io::Result<Vec<u8>>,

    requires
        repeatable(encode, vlr.items),
        table_repeatable(encode_table, vlr),
        file_of_chunks(encode, encode_table, vlr, chunks, start, a),
        file_of_chunks(encode, encode_table, vlr, chunks, start, b),
    ensures
        a == b,
{
    let (ea, ta) = choose|encoded: Seq<Seq<u8>>, table_bytes: Seq<u8>| #[trigger]
        encodes_all(encode, vlr.items, chunks, encoded) && #[trigger] encodes_table(
            encode_table,
            vlr,
            entries_of(vlr, chunks, encoded),
            Ok::<Seq<u8>, std::io::Error>(table_bytes),
        ) && a == file_written(start, encoded.flatten(), table_bytes);
    let (eb, tb) = choose|encoded: Seq<Seq<u8>>, table_bytes: Seq<u8>| #[trigger]
        encodes_all(encode, vlr.items, chunks, encoded) && #[trigger] encodes_table(
            encode_table,
            vlr,
            entries_of(vlr, chunks, encoded),
            Ok::<Seq<u8>, std::io::Error>(table_bytes),
        ) && b == file_written(start, encoded.flatten(), table_bytes);
    lemma_repeatable_all(encode, vlr.items, chunks, ea, eb);
    assert(encodes_table(
        encode_table,
        vlr,
        entries_of(vlr, chunks, ea),
        Ok::<Seq<u8>, std::io::Error>(tb),
    ));
}

/// With encoders that give the same bytes for the same input, the file of a new compressor that
/// takes points and is then finished is, byte for byte, the one that compressing the points at
/// once gives.
pub proof fn law_stream_ends_like_at_once<C, T>(
    encode: C,
    encode_table: T,
    vlr: VlrView,
    start: Sink,
    points: Seq<u8>,
    s1: CompressorState,
    s2: CompressorState,
    at_once: Sink,
) where
    C: Fn(&[LazItem], &[u8]) -> std::io::Result<Vec<u8>>,
    T: Fn(&ChunkTable, &LazVlr) -> std::io::Result<Vec<u8>>,

    requires
        repeatable(encode, vlr.items),
        table_repeatable(encode_table, vlr),
        vlr.chunk_bytes() > 0,
        points_taken(encode, CompressorState::fresh(vlr, start), points, s1),
        finished(encode, encode_table, s1, s2),
        file_of_chunks(
            encode,
            encode_table,
            vlr,
            chunked(points, vlr.chunk_bytes()),
            start,
            at_once,
        ),
    ensures
        s2.sink == at_once,
{
    law_stream_is_file(encode, encode_table, vlr, start, points, s1, s2);
    law_same_chunks_same_file(
        encode,
        encode_table,
        vlr,
        chunked(points, vlr.chunk_bytes()),
        start,
        s2.sink,
        at_once,
    );
}

/// A place for the offset to the chunk table that was reserved by hand is the one that is used:
/// taking points or chunks, and finishing, then do what they do by themselves.
pub proof fn law_reserving_by_hand<C, T>(
    encode: C,
    encode_table: T,
    s0: CompressorState,
    points: Seq<u8>,
    chunks: Seq<Seq<u8>>,
    s1: CompressorState,
) where
    C: Fn(&[LazItem], &[u8]) -> std::io::Result<Vec<u8>>,
    T: Fn(&ChunkTable, &LazVlr) -> std::io::Result<Vec<u8>>,

    requires
        s0.table_offset == -1,
        s0.sink.pos + 8 <= u64::MAX,
    ensures
        points_taken(encode, s0.reserved(), points, s1) <==> points_taken(encode, s0, points, s1),
        chunks_taken(encode, s0.reserved(), chunks, s1) <==> chunks_taken(encode, s0, chunks, s1),
        finished(encode, encode_table, s0.reserved(), s1) <==> finished(
            encode,
            encode_table,
            s0,
            s1,
        ),
{
    lemma_signed_offset(s0.sink.pos as u64);
    assert(s0.reserved().opened() == s0.opened());
}

/// A file that was begun at `start` and holds the compressed chunks `chunk_bytes` is whole once
/// the position of the chunk table is stored and the table written.
proof fn lemma_closed(start: Sink, s: CompressorState, chunk_bytes: Seq<u8>, table_bytes: Seq<u8>)
    requires
        start.pos <= u64::MAX,
        s.table_offset == start.pos as i64,
        s.sink == start.write(le_bytes(start.pos as i64)).write(chunk_bytes),
    ensures
        s.closed_with(table_bytes).sink == file_written(start, chunk_bytes, table_bytes),
{
    lemma_signed_offset(start.pos as u64);
    let end = start.pos + 8 + chunk_bytes.len();
    lemma_rewrite(start, le_bytes(start.pos as i64), chunk_bytes, le_bytes(end as i64));
}

/// Points that a new compressor takes, and that are then finished, become the file that
/// compressing them at once gives: the chunks are the points cut into pieces of the chunk size,
/// of which the last may be shorter. The table in the file is the one that the compressor holds.
pub proof fn law_stream_is_file<C, T>(
    encode: C,
    encode_table: T,
    vlr: VlrView,
    start: Sink,
    points: Seq<u8>,
    s1: CompressorState,
    s2: CompressorState,
) where
    C: Fn(&[LazItem], &[u8]) -> std::io::Result<Vec<u8>>,
    T: Fn(&ChunkTable, &LazVlr) -> std::io::Result<Vec<u8>>,

    requires
        vlr.chunk_bytes() > 0,
        points_taken(encode, CompressorState::fresh(vlr, start), points, s1),
        finished(encode, encode_table, s1, s2),
    ensures
        file_of_chunks(
            encode,
            encode_table,
            vlr,
            chunked(points, vlr.chunk_bytes()),
            start,
            s2.sink,
        ),
        file_with_table(
            encode,
            encode_table,
            vlr,
            chunked(points, vlr.chunk_bytes()),
            start,
            s2.sink,
            s2.table,
        ),
{
    let s0 = CompressorState::fresh(vlr, start);
    let size = vlr.chunk_bytes();
    lemma_signed_offset(start.pos as u64);
    assert(s0.rest + points =~= points);
    let full = full_chunks(points, size);
    let ea = choose|encoded: Seq<Seq<u8>>| #[trigger]
        encodes_all(encode, vlr.items, full, encoded) && s1 == (CompressorState {
            rest: leftover(points, size),
            ..s0.opened().with_chunks(full, encoded)
        });
    lemma_finished_file(encode, encode_table, vlr, start, full, ea, s1, s2);
    lemma_chunked(points, size);
}

/// Chunks that a new compressor takes, and that are then finished, become the file of these
/// chunks. The table in the file is the one that the compressor holds.
pub proof fn law_chunk_stream_is_file<C, T>(
    encode: C,
    encode_table: T,
    vlr: VlrView,
    start: Sink,
    chunks: Seq<Seq<u8>>,
    s1: CompressorState,
    s2: CompressorState,
) where
    C: Fn(&[LazItem], &[u8]) -> std::io::Result<Vec<u8>>,
    T: Fn(&ChunkTable, &LazVlr) -> std::io::Result<Vec<u8>>,

    requires
        chunks_taken(encode, CompressorState::fresh(vlr, start), chunks, s1),
        finished(encode, encode_table, s1, s2),
    ensures
        file_of_chunks(encode, encode_table, vlr, chunks, start, s2.sink),
        file_with_table(encode, encode_table, vlr, chunks, start, s2.sink, s2.table),
{
    let s0 = CompressorState::fresh(vlr, start);
    lemma_signed_offset(start.pos as u64);
    let ea = choose|encoded: Seq<Seq<u8>>| #[trigger]
        encodes_all(encode, vlr.items, chunks, encoded) && s1 == s0.opened().with_chunks(
            chunks,
            encoded,
        );
    lemma_finished_file(encode, encode_table, vlr, start, chunks, ea, s1, s2);
    assert(chunks + last_chunk(s1.rest) =~= chunks);
}

/// A new compressor that is finished at once leaves a file without chunks.
pub proof fn law_empty_file<C, T>(
    encode: C,
    encode_table: T,
    vlr: VlrView,
    start: Sink,
    s1: CompressorState,
) where
    C: Fn(&[LazItem], &[u8]) -> std::io::Result<Vec<u8>>,
    T: Fn(&ChunkTable, &LazVlr) -> std::io::Result<Vec<u8>>,

    requires
        finished(encode, encode_table, CompressorState::fresh(vlr, start), s1),
    ensures
        file_of_chunks(encode, encode_table, vlr, Seq::empty(), start, s1.sink),
        file_with_table(encode, encode_table, vlr, Seq::empty(), start, s1.sink, s1.table),
{
    let s0 = CompressorState::fresh(vlr, start);
    lemma_signed_offset(start.pos as u64);
    lemma_with_no_chunks(s0.reserved());
    let none = Seq::<Seq<u8>>::empty();
    assert(encodes_all(encode, vlr.items, none, none));
    law_reserving_by_hand(encode, encode_table, s0, Seq::empty(), none, s1);
    lemma_finished_file(encode, encode_table, vlr, start, none, none, s0.reserved(), s1);
    assert(none + last_chunk(s0.rest) =~= none);
}

/// A state with chunks behind a place for the offset that is then finished.
proof fn lemma_finished_file<C, T>(
    encode: C,
    encode_table: T,
    vlr: VlrView,
    start: Sink,
    chunks: Seq<Seq<u8>>,
    encoded: Seq<Seq<u8>>,
    s1: CompressorState,
    s2: CompressorState,
) where
    C: Fn(&[LazItem], &[u8]) -> std::io::Result<Vec<u8>>,
    T: Fn(&ChunkTable, &LazVlr) -> std::io::Result<Vec<u8>>,

    requires
        start.pos + 8 <= u64::MAX,
        encodes_all(encode, vlr.items, chunks, encoded),
        s1 == (CompressorState {
            rest: s1.rest,
            ..CompressorState::fresh(vlr, start).reserved().with_chunks(chunks, encoded)
        }),
        finished(encode, encode_table, s1, s2),
    ensures
        file_of_chunks(
            encode,
            encode_table,
            vlr,
            chunks + last_chunk(s1.rest),
            start,
            s2.sink,
        ),
        file_with_table(
            encode,
            encode_table,
            vlr,
            chunks + last_chunk(s1.rest),
            start,
            s2.sink,
            s2.table,
        ),
{
    lemma_signed_offset(start.pos as u64);
    let opened = CompressorState::fresh(vlr, start).reserved();
    let last = last_chunk(s1.rest);
    let (el, tb) = choose|el: Seq<Seq<u8>>, tb: Seq<u8>| #[trigger]
        encodes_all(encode, vlr.items, last, el) && #[trigger] encodes_table(
            encode_table,
            vlr,
            s1.opened().with_chunks(last, el).table,
            Ok::<Seq<u8>, std::io::Error>(tb),
        ) && s2 == s1.opened().with_chunks(last, el).closed_with(tb);
    let all = chunks + last;
    let encoded_all = encoded + el;
    lemma_encodes_all_append(encode, vlr.items, chunks, encoded, last, el);
    lemma_with_chunks_append(opened, chunks, encoded, last, el);
    let written = s1.with_chunks(last, el);
    assert(written.sink == opened.with_chunks(all, encoded_all).sink);
    assert(written.table == opened.with_chunks(all, encoded_all).table);
    assert(written.table =~= entries_of(vlr, all, encoded_all));
    lemma_closed(start, written, encoded_all.flatten(), tb);
}

/// The number of bytes that the first `k` chunks of a table take.
pub open spec fn bytes_before(table: Seq<ChunkTableEntry>, k: nat) -> nat
    decreases k,
{
    if k == 0 {
        0
    } else {
        bytes_before(table, (k - 1) as nat) + table[k - 1].byte_count as nat
    }
}

/// The `n` bytes of a file at the offset `at`.
pub open spec fn bytes_at(file: Seq<u8>, at: nat, n: nat) -> Seq<u8> {
    file.subrange(at as int, (at + n) as int)
}

/// A reply of bytes fits in memory.
proof fn lemma_reply_fits<C>(encode: C, items: Seq<LazItem>, points: Seq<u8>, out: Seq<u8>) where
    C: Fn(&[LazItem], &[u8]) -> std::io::Result<Vec<u8>>,

    requires
        encodes(encode, items, points, Ok::<Seq<u8>, std::io::Error>(out)),
    ensures
        out.len() <= u64::MAX,
{
    let (i, p, r) = choose|i: &[LazItem], p: &[u8], r: std::io::Result<Vec<u8>>|
        i@ == items && p@ == points && #[trigger] call_ensures(encode, (i, p), r)
            && crate::codec::reply(r) == Ok::<Seq<u8>, std::io::Error>(out);
    let bytes = r->Ok_0;
    assert(bytes.len() == out.len());
}

/// The table counts the bytes of the chunks.
proof fn lemma_bytes_before<C>(
    encode: C,
    vlr: VlrView,
    chunks: Seq<Seq<u8>>,
    encoded: Seq<Seq<u8>>,
    k: nat,
) where C: Fn(&[LazItem], &[u8]) -> std::io::Result<Vec<u8>>
    requires
        encodes_all(encode, vlr.items, chunks, encoded),
        k <= chunks.len(),
    ensures
        bytes_before(entries_of(vlr, chunks, encoded), k) == encoded.take(
            k as int,
        ).flatten().len(),
        k < chunks.len() ==> entries_of(vlr, chunks, encoded)[k as int].byte_count
            == encoded[k as int].len(),
    decreases k,
{
    if k < chunks.len() {
        let c = chunks[k as int];
        assert(encodes(
            encode,
            vlr.items,
            c,
            Ok::<Seq<u8>, std::io::Error>(encoded[k as int]),
        ));
        lemma_reply_fits(encode, vlr.items, c, encoded[k as int]);
    }
    if k > 0 {
        let j = (k - 1) as nat;
        lemma_bytes_before(encode, vlr, chunks, encoded, j);
        encoded.take(j as int).lemma_flatten_push(encoded[j as int]);
        assert(encoded.take(j as int).push(encoded[j as int]) =~= encoded.take(k as int));
    }
}

/// In a whole file each compressed chunk stands where the table says: behind the offset and the
/// chunks before it, in the order of the chunks, with the number of bytes that its entry counts.
pub proof fn law_chunk_is_found<C>(
    encode: C,
    vlr: VlrView,
    chunks: Seq<Seq<u8>>,
    encoded: Seq<Seq<u8>>,
    start: Sink,
    table_bytes: Seq<u8>,
    k: int,
) where C: Fn(&[LazItem], &[u8]) -> std::io::Result<Vec<u8>>
    requires
        encodes_all(encode, vlr.items, chunks, encoded),
        0 <= k < chunks.len(),
    ensures
        ({
            let table = entries_of(vlr, chunks, encoded);
            let file = file_written(start, encoded.flatten(), table_bytes).bytes;
            let at = start.pos + 8 + bytes_before(table, k as nat);
            bytes_at(file, at, table[k].byte_count as nat) == encoded[k]
        }),
{
    let table = entries_of(vlr, chunks, encoded);
    let flat = encoded.flatten();
    let file = file_written(start, flat, table_bytes).bytes;
    lemma_bytes_before(encode, vlr, chunks, encoded, k as nat);
    let before = encoded.take(k);
    let behind = encoded.skip(k + 1);
    vstd::seq_lib::lemma_flatten_concat(before.push(encoded[k]), behind);
    before.lemma_flatten_push(encoded[k]);
    assert(before.push(encoded[k]) + behind =~= encoded);
    let at = start.pos + 8 + before.flatten().len();
    assert forall|i: int| 0 <= i < flat.len() implies #[trigger] file[start.pos + 8 + i]
        == flat[i] by {}
    assert(bytes_at(file, at, encoded[k].len()) =~= encoded[k]);
}

/// In a whole file the eight bytes at the beginning give the position of the chunk table, which
/// is the end of the last chunk, and the table stands there to the end.
pub proof fn law_table_is_found<C>(
    encode: C,
    vlr: VlrView,
    chunks: Seq<Seq<u8>>,
    encoded: Seq<Seq<u8>>,
    start: Sink,
    table_bytes: Seq<u8>,
) where C: Fn(&[LazItem], &[u8]) -> std::io::Result<Vec<u8>>
    requires
        encodes_all(encode, vlr.items, chunks, encoded),
    ensures
        ({
            let table = entries_of(vlr, chunks, encoded);
            let after = file_written(start, encoded.flatten(), table_bytes);
            let at = start.pos + 8 + bytes_before(table, table.len());
            &&& le_value(bytes_at(after.bytes, start.pos, 8)) == at as i64
            &&& bytes_at(after.bytes, at, table_bytes.len()) == table_bytes
            &&& after.pos == at + table_bytes.len()
        }),
{
    let table = entries_of(vlr, chunks, encoded);
    let flat = encoded.flatten();
    let after = file_written(start, flat, table_bytes);
    lemma_bytes_before(encode, vlr, chunks, encoded, table.len());
    assert(encoded.take(table.len() as int) =~= encoded);
    let at = start.pos + 8 + flat.len();
    lemma_le_value_of_le_bytes(at as i64);
    assert(bytes_at(after.bytes, start.pos, 8) =~= le_bytes(at as i64));
    assert(bytes_at(after.bytes, at, table_bytes.len()) =~= table_bytes);
}

/// The number of bytes that all chunks of a table take.
pub open spec fn total_bytes(table: Seq<ChunkTableEntry>) -> nat {
    bytes_before(table, table.len())
}

/// One call that a compressor took without an error: a place for the offset that is reserved by
/// hand, when none is, or points or chunks, as the description asks for.
pub open spec fn step<C>(encode: C, before: CompressorState, after: CompressorState) -> bool where
    C: Fn(&[LazItem], &[u8]) -> std::io::Result<Vec<u8>>,
 {
    ||| before.table_offset == -1 && before.has_place() && after == before.reserved()
    ||| !before.vlr.variable() && exists|points: Seq<u8>| #[trigger]
        points_taken(encode, before, points, after)
    ||| before.vlr.variable() && exists|chunks: Seq<Seq<u8>>| #[trigger]
        chunks_taken(encode, before, chunks, after)
}

/// `states` are those of a new compressor and of what calls made of it, one after the other.
pub open spec fn run<C>(
    encode: C,
    vlr: VlrView,
    start: Sink,
    states: Seq<CompressorState>,
) -> bool where C: Fn(&[LazItem], &[u8]) -> std::io::Result<Vec<u8>> {
    &&& states.len() > 0
    &&& states[0] == CompressorState::fresh(vlr, start)
    &&& forall|k: int|
        0 <= k < states.len() - 1 ==> step(encode, #[trigger] states[k], states[k + 1])
}

/// The bytes that two tables count, one behind the other.
proof fn lemma_total_bytes(a: Seq<ChunkTableEntry>, b: Seq<ChunkTableEntry>, k: nat)
    requires
        k <= b.len(),
    ensures
        bytes_before(a + b, a.len() + k) == bytes_before(a, a.len()) + bytes_before(b, k),
    decreases k,
{
    if k > 0 {
        lemma_total_bytes(a, b, (k - 1) as nat);
    } else {
        lemma_bytes_of_prefix(a, b, a.len());
    }
}

proof fn lemma_bytes_of_prefix(a: Seq<ChunkTableEntry>, b: Seq<ChunkTableEntry>, k: nat)
    requires
        k <= a.len(),
    ensures
        bytes_before(a + b, k) == bytes_before(a, k),
    decreases k,
{
    if k > 0 {
        lemma_bytes_of_prefix(a, b, (k - 1) as nat);
    }
}

/// Chunks move the position by the bytes that their entries count.
proof fn lemma_chunks_move<C>(
    encode: C,
    s: CompressorState,
    chunks: Seq<Seq<u8>>,
    encoded: Seq<Seq<u8>>,
) where C: Fn(&[LazItem], &[u8]) -> std::io::Result<Vec<u8>>
    requires
        encodes_all(encode, s.vlr.items, chunks, encoded),
    ensures
        s.with_chunks(chunks, encoded).sink.pos - s.sink.pos == total_bytes(
            s.with_chunks(chunks, encoded).table,
        ) - total_bytes(s.table),
        s.sink.pos <= s.sink.bytes.len() ==> s.with_chunks(chunks, encoded).sink.pos
            <= s.with_chunks(chunks, encoded).sink.bytes.len(),
{
    let entries = entries_of(s.vlr, chunks, encoded);
    lemma_total_bytes(s.table, entries, entries.len());
    lemma_bytes_before(encode, s.vlr, chunks, encoded, chunks.len());
    assert(encoded.take(chunks.len() as int) =~= encoded);
}

/// Once a place for the offset to the chunk table is reserved, it is at `start`, and the
/// destination stands behind it and the bytes that the table counts, and holds all bytes up to
/// there. Before that, nothing is done. No points wait where chunks have sizes of their own.
pub open spec fn placed(vlr: VlrView, start: Sink, s: CompressorState) -> bool {
    &&& s.vlr == vlr
    &&& s.table_offset == -1 ==> s == CompressorState::fresh(vlr, start)
    &&& s.table_offset != -1 ==> {
        &&& s.table_place() == start.pos
        &&& s.sink.pos == s.table_place() + 8 + total_bytes(s.table)
        &&& s.sink.pos <= s.sink.bytes.len()
    }
    &&& vlr.variable() ==> s.rest.len() == 0
}

/// A state in which a place is reserved.
proof fn lemma_opened_placed(vlr: VlrView, start: Sink, s: CompressorState)
    requires
        placed(vlr, start, s),
        s.has_place(),
    ensures
        placed(vlr, start, s.opened()),
        s.opened().table_offset != -1,
{
    if s.table_offset == -1 {
        lemma_signed_offset(start.pos as u64);
    }
}

/// Chunks behind a place that is reserved.
proof fn lemma_chunks_placed<C>(
    encode: C,
    vlr: VlrView,
    start: Sink,
    s: CompressorState,
    chunks: Seq<Seq<u8>>,
    encoded: Seq<Seq<u8>>,
) where C: Fn(&[LazItem], &[u8]) -> std::io::Result<Vec<u8>>
    requires
        placed(vlr, start, s),
        s.table_offset != -1,
        encodes_all(encode, vlr.items, chunks, encoded),
    ensures
        placed(vlr, start, s.with_chunks(chunks, encoded)),
{
    lemma_chunks_move(encode, s, chunks, encoded);
}

/// A call keeps this.
proof fn lemma_step_placed<C>(
    encode: C,
    vlr: VlrView,
    start: Sink,
    before: CompressorState,
    after: CompressorState,
) where C: Fn(&[LazItem], &[u8]) -> std::io::Result<Vec<u8>>
    requires
        placed(vlr, start, before),
        step(encode, before, after),
    ensures
        placed(vlr, start, after),
{
    let opened = before.opened();
    lemma_opened_placed(vlr, start, before);
    if before.table_offset == -1 && after == before.reserved() {
    } else if !vlr.variable() {
        let points = choose|points: Seq<u8>| #[trigger]
            points_taken(encode, before, points, after);
        let size = vlr.chunk_bytes();
        let data = before.rest + points;
        let full = full_chunks(data, size);
        let encoded = choose|encoded: Seq<Seq<u8>>| #[trigger]
            encodes_all(encode, vlr.items, full, encoded) && after == (CompressorState {
                rest: leftover(data, size),
                ..opened.with_chunks(full, encoded)
            });
        lemma_chunks_placed(encode, vlr, start, opened, full, encoded);
    } else {
        let chunks = choose|chunks: Seq<Seq<u8>>| #[trigger]
            chunks_taken(encode, before, chunks, after);
        let encoded = choose|encoded: Seq<Seq<u8>>| #[trigger]
            encodes_all(encode, vlr.items, chunks, encoded) && after == opened.with_chunks(
                chunks,
                encoded,
            );
        lemma_chunks_placed(encode, vlr, start, opened, chunks, encoded);
    }
}

/// Whatever a new compressor was given, and in how many calls: once a place for the offset to the
/// chunk table is reserved, it is the one where the compressor began, and the destination stands
/// behind it and the bytes that the table of the compressor counts, and holds all bytes up to
/// there. Before that, nothing is done. No points wait where chunks have sizes of their own.
pub proof fn law_position_over_a_run<C>(
    encode: C,
    vlr: VlrView,
    start: Sink,
    states: Seq<CompressorState>,
) where C: Fn(&[LazItem], &[u8]) -> std::io::Result<Vec<u8>>
    requires
        run(encode, vlr, start, states),
    ensures
        placed(vlr, start, states.last()),
    decreases states.len(),
{
    if states.len() > 1 {
        let n = states.len() - 2;
        let front = states.drop_last();
        assert forall|k: int| 0 <= k < front.len() - 1 implies step(
            encode,
            #[trigger] front[k],
            front[k + 1],
        ) by {
            assert(step(encode, states[k], states[k + 1]));
        }
        law_position_over_a_run(encode, vlr, start, front);
        assert(front.last() == states[n]);
        assert(step(encode, states[n], states[n + 1]));
        lemma_step_placed(encode, vlr, start, states[n], states[n + 1]);
    }
}

/// Where the last chunk of a run ends.
pub proof fn lemma_run_end<C>(
    encode: C,
    vlr: VlrView,
    start: Sink,
    s: CompressorState,
    encoded: Seq<Seq<u8>>,
) where C: Fn(&[LazItem], &[u8]) -> std::io::Result<Vec<u8>>
    requires
        placed(vlr, start, s),
        s.has_place(),
        encodes_all(encode, vlr.items, last_chunk(s.rest), encoded),
    ensures
        ({
            let written = s.opened().with_chunks(last_chunk(s.rest), encoded);
            &&& written.table_place() == start.pos
            &&& written.sink.pos == start.pos + 8 + total_bytes(written.table)
            &&& written.sink.pos <= written.sink.bytes.len()
        }),
{
    lemma_opened_placed(vlr, start, s);
    lemma_chunks_placed(encode, vlr, start, s.opened(), last_chunk(s.rest), encoded);
    lemma_opened(s);
}

/// What finishing stores at the reserved place, and behind the chunks.
proof fn lemma_closed_bytes(s: CompressorState, table_bytes: Seq<u8>)
    requires
        s.table_place() + 8 <= s.sink.pos <= s.sink.bytes.len(),
    ensures
        ({
            let end = s.closed_with(table_bytes).sink;
            &&& le_value(bytes_at(end.bytes, s.table_place(), 8)) == s.sink.pos as i64
            &&& bytes_at(end.bytes, s.sink.pos, table_bytes.len()) == table_bytes
            &&& end.pos == s.sink.pos + table_bytes.len()
        }),
{
    let end = s.closed_with(table_bytes).sink;
    let offset = le_bytes(s.sink.pos as i64);
    lemma_le_value_of_le_bytes(s.sink.pos as i64);
    assert(bytes_at(end.bytes, s.table_place(), 8) =~= offset);
    assert(bytes_at(end.bytes, s.sink.pos, table_bytes.len()) =~= table_bytes);
}

/// Whatever a new compressor was given, and in how many calls: once it is finished, the eight
/// bytes at the place reserved for the offset give the position behind them and the bytes that
/// the table of the compressor counts, and this table stands there, in the form of the table
/// encoder, to where the destination stands.
pub proof fn law_table_after_a_run<C, T>(
    encode: C,
    encode_table: T,
    vlr: VlrView,
    start: Sink,
    states: Seq<CompressorState>,
    end: CompressorState,
) where
    C: Fn(&[LazItem], &[u8]) -> std::io::Result<Vec<u8>>,
    T: Fn(&ChunkTable, &LazVlr) -> std::io::Result<Vec<u8>>,

    requires
        run(encode, vlr, start, states),
        finished(encode, encode_table, states.last(), end),
    ensures
        ({
            let at = end.table_place() + 8 + total_bytes(end.table);
            &&& end.table_place() == start.pos
            &&& le_value(bytes_at(end.sink.bytes, end.table_place(), 8)) == at as i64
            &&& exists|table_bytes: Seq<u8>| #[trigger]
                encodes_table(
                    encode_table,
                    vlr,
                    end.table,
                    Ok::<Seq<u8>, std::io::Error>(table_bytes),
                ) && bytes_at(end.sink.bytes, at, table_bytes.len()) == table_bytes
                    && end.sink.pos == at + table_bytes.len()
        }),
{
    law_position_over_a_run(encode, vlr, start, states);
    let s = states.last();
    let opened = s.opened();
    lemma_opened_placed(vlr, start, s);
    let last = last_chunk(s.rest);
    let (encoded, table_bytes) = choose|encoded: Seq<Seq<u8>>, table_bytes: Seq<u8>| #[trigger]
        encodes_all(encode, vlr.items, last, encoded) && #[trigger] encodes_table(
            encode_table,
            vlr,
            opened.with_chunks(last, encoded).table,
            Ok::<Seq<u8>, std::io::Error>(table_bytes),
        ) && end == opened.with_chunks(last, encoded).closed_with(table_bytes);
    lemma_chunks_placed(encode, vlr, start, opened, last, encoded);
    lemma_closed_bytes(opened.with_chunks(last, encoded), table_bytes);
}

/// Points that a new compressor takes, in any number of calls, and that are then finished, become
/// the file of the points cut into pieces of the chunk size. The table in the file is the one that
/// the compressor holds.
pub proof fn law_batches_become_a_file<C, T>(
    encode: C,
    encode_table: T,
    vlr: VlrView,
    start: Sink,
    batches: Seq<Seq<u8>>,
    states: Seq<CompressorState>,
    end: CompressorState,
) where
    C: Fn(&[LazItem], &[u8]) -> std::io::Result<Vec<u8>>,
    T: Fn(&ChunkTable, &LazVlr) -> std::io::Result<Vec<u8>>,

    requires
        vlr.chunk_bytes() > 0,
        states.len() == batches.len() + 1,
        states[0] == CompressorState::fresh(vlr, start),
        forall|k: int|
            0 <= k < batches.len() ==> points_taken(
                encode,
                states[k],
                #[trigger] batches[k],
                states[k + 1],
            ),
        finished(encode, encode_table, states.last(), end),
    ensures
        file_of_chunks(
            encode,
            encode_table,
            vlr,
            chunked(batches.flatten(), vlr.chunk_bytes()),
            start,
            end.sink,
        ),
        file_with_table(
            encode,
            encode_table,
            vlr,
            chunked(batches.flatten(), vlr.chunk_bytes()),
            start,
            end.sink,
            end.table,
        ),
{
    let points = batches.flatten();
    if batches.len() == 0 {
        law_empty_file(encode, encode_table, vlr, start, end);
        assert(points =~= Seq::<u8>::empty());
        lemma_short_data(points, vlr.chunk_bytes());
    } else {
        law_points_in_many_calls(encode, batches, states);
        law_stream_is_file(encode, encode_table, vlr, start, points, states.last(), end);
    }
}

/// With encoders that give the same bytes for the same input, points that a new compressor takes,
/// in any number of calls, and that are then finished, become, byte for byte, the file that
/// compressing them at once gives.
pub proof fn law_batches_end_like_at_once<C, T>(
    encode: C,
    encode_table: T,
    vlr: VlrView,
    start: Sink,
    batches: Seq<Seq<u8>>,
    states: Seq<CompressorState>,
    end: CompressorState,
    at_once: Sink,
) where
    C: Fn(&[LazItem], &[u8]) -> std::io::Result<Vec<u8>>,
    T: Fn(&ChunkTable, &LazVlr) -> std::io::Result<Vec<u8>>,

    requires
        repeatable(encode, vlr.items),
        table_repeatable(encode_table, vlr),
        vlr.chunk_bytes() > 0,
        states.len() == batches.len() + 1,
        states[0] == CompressorState::fresh(vlr, start),
        forall|k: int|
            0 <= k < batches.len() ==> points_taken(
                encode,
                states[k],
                #[trigger] batches[k],
                states[k + 1],
            ),
        finished(encode, encode_table, states.last(), end),
        file_of_chunks(
            encode,
            encode_table,
            vlr,
            chunked(batches.flatten(), vlr.chunk_bytes()),
            start,
            at_once,
        ),
    ensures
        end.sink == at_once,
{
    law_batches_become_a_file(encode, encode_table, vlr, start, batches, states, end);
    law_same_chunks_same_file(
        encode,
        encode_table,
        vlr,
        chunked(batches.flatten(), vlr.chunk_bytes()),
        start,
        end.sink,
        at_once,
    );
}

/// The pieces that a table cuts a file into, from the offset `at` on.
pub open spec fn pieces(
    file: Seq<u8>,
    at: nat,
    table: Seq<ChunkTableEntry>,
) -> Seq<Seq<u8>> {
    Seq::new(
        table.len(),
        |k: int|
            bytes_at(file, at + bytes_before(table, k as nat), table[k].byte_count as nat),
    )
}

/// `decode` gives back the points of a chunk from all bytes that the record encoder replies with.
pub open spec fn decodes<C>(
    decode: spec_fn(Seq<u8>) -> Seq<u8>,
    encode: C,
    items: Seq<LazItem>,
) -> bool where C: Fn(&[LazItem], &[u8]) -> std::io::Result<Vec<u8>> {
    forall|points: Seq<u8>, bytes: Seq<u8>| #[trigger]
        encodes(encode, items, points, Ok::<Seq<u8>, std::io::Error>(bytes)) ==> decode(bytes)
            == points
}

/// What a decoder makes of each piece.
pub open spec fn decoded(
    decode: spec_fn(Seq<u8>) -> Seq<u8>,
    pieces: Seq<Seq<u8>>,
) -> Seq<Seq<u8>> {
    Seq::new(pieces.len(), |k: int| decode(pieces[k]))
}

/// Cutting a whole file by its table, behind the place for the offset, and decoding the pieces
/// gives its chunks back, in their order.
pub proof fn law_file_gives_chunks_back<C, T>(
    encode: C,
    encode_table: T,
    decode: spec_fn(Seq<u8>) -> Seq<u8>,
    vlr: VlrView,
    chunks: Seq<Seq<u8>>,
    start: Sink,
    after: Sink,
    table: Seq<ChunkTableEntry>,
) where
    C: Fn(&[LazItem], &[u8]) -> std::io::Result<Vec<u8>>,
    T: Fn(&ChunkTable, &LazVlr) -> std::io::Result<Vec<u8>>,

    requires
        decodes(decode, encode, vlr.items),
        file_with_table(encode, encode_table, vlr, chunks, start, after, table),
    ensures
        decoded(decode, pieces(after.bytes, start.pos + 8, table)) == chunks,
{
    let (encoded, table_bytes) = choose|encoded: Seq<Seq<u8>>, table_bytes: Seq<u8>| #[trigger]
        encodes_all(encode, vlr.items, chunks, encoded) && #[trigger] encodes_table(
            encode_table,
            vlr,
            table,
            Ok::<Seq<u8>, std::io::Error>(table_bytes),
        ) && table == entries_of(vlr, chunks, encoded) && after == file_written(
            start,
            encoded.flatten(),
            table_bytes,
        );
    let found = decoded(decode, pieces(after.bytes, start.pos + 8, table));
    assert forall|k: int| 0 <= k < chunks.len() implies #[trigger] found[k] == chunks[k] by {
        law_chunk_is_found(encode, vlr, chunks, encoded, start, table_bytes, k);
        assert(encodes(encode, vlr.items, chunks[k], Ok::<Seq<u8>, std::io::Error>(encoded[k])));
    }
    assert(found =~= chunks);
}

/// Chunks of a fixed size: whatever points a new compressor was given, in any number of calls, once
/// it is finished, cutting the file by the table of the compressor, behind the place for the
/// offset, and decoding the pieces gives all points back, in their order, and all pieces but the
/// last hold as many points as the chunk size says.
pub proof fn law_points_come_back<C, T>(
    encode: C,
    encode_table: T,
    decode: spec_fn(Seq<u8>) -> Seq<u8>,
    vlr: VlrView,
    start: Sink,
    batches: Seq<Seq<u8>>,
    states: Seq<CompressorState>,
    end: CompressorState,
) where
    C: Fn(&[LazItem], &[u8]) -> std::io::Result<Vec<u8>>,
    T: Fn(&ChunkTable, &LazVlr) -> std::io::Result<Vec<u8>>,

    requires
        !vlr.variable(),
        vlr.chunk_bytes() > 0,
        decodes(decode, encode, vlr.items),
        states.len() == batches.len() + 1,
        states[0] == CompressorState::fresh(vlr, start),
        forall|k: int|
            0 <= k < batches.len() ==> points_taken(
                encode,
                states[k],
                #[trigger] batches[k],
                states[k + 1],
            ),
        finished(encode, encode_table, states.last(), end),
    ensures
        ({
            let found = decoded(
                decode,
                pieces(end.sink.bytes, end.table_place() + 8, end.table),
            );
            &&& found.flatten() == batches.flatten()
            &&& forall|k: int|
                0 <= k < found.len() - 1 ==> (#[trigger] found[k]).len() == vlr.chunk_size
                    * vlr.point_size()
        }),
{
    let size = vlr.chunk_bytes();
    let points = batches.flatten();
    let chunks = chunked(points, size);
    law_batches_become_a_file(encode, encode_table, vlr, start, batches, states, end);
    law_file_gives_chunks_back(
        encode,
        encode_table,
        decode,
        vlr,
        chunks,
        start,
        end.sink,
        end.table,
    );
    assert forall|k: int| 0 <= k < states.len() - 1 implies step(
        encode,
        #[trigger] states[k],
        states[k + 1],
    ) by {
        assert(points_taken(encode, states[k], batches[k], states[k + 1]));
        lemma_vlr_kept(encode, batches, states, k);
    }
    law_table_after_a_run(encode, encode_table, vlr, start, states, end);
    law_points_are_conserved(points, size);
    assert forall|k: int| 0 <= k < chunks.len() - 1 implies (#[trigger] chunks[k]).len()
        == vlr.chunk_size * vlr.point_size() by {
        law_fixed_point_counts(vlr, points, chunks, k);
    }
}

/// Taking points keeps the description.
proof fn lemma_vlr_kept<C>(
    encode: C,
    batches: Seq<Seq<u8>>,
    states: Seq<CompressorState>,
    k: int,
) where C: Fn(&[LazItem], &[u8]) -> std::io::Result<Vec<u8>>
    requires
        states.len() == batches.len() + 1,
        0 <= k < states.len(),
        forall|j: int|
            0 <= j < batches.len() ==> points_taken(
                encode,
                states[j],
                #[trigger] batches[j],
                states[j + 1],
            ),
    ensures
        states[k].vlr == states[0].vlr,
    decreases k,
{
    if k > 0 {
        lemma_vlr_kept(encode, batches, states, k - 1);
        assert(points_taken(encode, states[k - 1], batches[k - 1], states[k]));
    }
}

/// Compressing points that fill whole chunks, and then what follows them, does what compressing
/// both together does: the bytes stand one behind the other, and so do the entries of the tables.
pub proof fn law_compression_distributes<C>(
    encode: C,
    vlr: VlrView,
    a: Seq<u8>,
    b: Seq<u8>,
    s0: Sink,
    t0: Trace,
    s1: Sink,
    t1: Trace,
    table_a: Seq<ChunkTableEntry>,
    s2: Sink,
    t2: Trace,
    table_b: Seq<ChunkTableEntry>,
) where C: Fn(&[LazItem], &[u8]) -> std::io::Result<Vec<u8>>
    requires
        vlr.chunk_bytes() > 0,
        a.len() % vlr.chunk_bytes() == 0,
        chunks_written(
            encode,
            vlr,
            chunked(a, vlr.chunk_bytes()),
            s0,
            t0,
            s1,
            t1,
            table_a,
        ),
        chunks_written(
            encode,
            vlr,
            chunked(b, vlr.chunk_bytes()),
            s1,
            t1,
            s2,
            t2,
            table_b,
        ),
    ensures
        chunked(a + b, vlr.chunk_bytes()) == chunked(a, vlr.chunk_bytes()) + chunked(
            b,
            vlr.chunk_bytes(),
        ),
        chunks_written(
            encode,
            vlr,
            chunked(a + b, vlr.chunk_bytes()),
            s0,
            t0,
            s2,
            t2,
            table_a + table_b,
        ),
{
    let size = vlr.chunk_bytes();
    let ca = chunked(a, size);
    let cb = chunked(b, size);
    let ea = choose|encoded: Seq<Seq<u8>>| #[trigger]
        encodes_all(encode, vlr.items, ca, encoded) && table_a == entries_of(vlr, ca, encoded)
            && s1 == s0.write(encoded.flatten()) && t1 == t0.met(writes(encoded));
    let eb = choose|encoded: Seq<Seq<u8>>| #[trigger]
        encodes_all(encode, vlr.items, cb, encoded) && table_b == entries_of(vlr, cb, encoded)
            && s2 == s1.write(encoded.flatten()) && t2 == t1.met(writes(encoded));
    lemma_chunked_append(a, b, size);
    lemma_encodes_all_append(encode, vlr.items, ca, ea, cb, eb);
    vstd::seq_lib::lemma_flatten_concat(ea, eb);
    lemma_write_write(s0, ea.flatten(), eb.flatten());
    lemma_met_met(t0, writes(ea), writes(eb));
    assert(writes(ea) + writes(eb) =~= writes(ea + eb));
    assert(table_a + table_b =~= entries_of(vlr, ca + cb, ea + eb));
}

/// With an encoder that gives the same bytes for the same points, compressing points that fill
/// whole chunks together with what follows them gives the bytes of the first followed by those of
/// the others, and the table of the first followed by that of the others.
pub proof fn law_parts_end_like_the_whole<C>(
    encode: C,
    vlr: VlrView,
    a: Seq<u8>,
    b: Seq<u8>,
    s0: Sink,
    t0: Trace,
    s1: Sink,
    t1: Trace,
    table_a: Seq<ChunkTableEntry>,
    s2: Sink,
    t2: Trace,
    table_b: Seq<ChunkTableEntry>,
    other_trace: Trace,
    whole: Sink,
    trace_whole: Trace,
    table: Seq<ChunkTableEntry>,
) where C: Fn(&[LazItem], &[u8]) -> std::io::Result<Vec<u8>>
    requires
        repeatable(encode, vlr.items),
        vlr.chunk_bytes() > 0,
        a.len() % vlr.chunk_bytes() == 0,
        chunks_written(
            encode,
            vlr,
            chunked(a, vlr.chunk_bytes()),
            s0,
            t0,
            s1,
            t1,
            table_a,
        ),
        chunks_written(
            encode,
            vlr,
            chunked(b, vlr.chunk_bytes()),
            s1,
            t1,
            s2,
            t2,
            table_b,
        ),
        chunks_written(
            encode,
            vlr,
            chunked(a + b, vlr.chunk_bytes()),
            s0,
            other_trace,
            whole,
            trace_whole,
            table,
        ),
    ensures
        whole == s2,
        table == table_a + table_b,
{
    law_compression_distributes(
        encode,
        vlr,
        a,
        b,
        s0,
        t0,
        s1,
        t1,
        table_a,
        s2,
        t2,
        table_b,
    );
    law_buffers_do_not_show(
        encode,
        vlr,
        chunked(a + b, vlr.chunk_bytes()),
        s0,
        t0,
        s2,
        t2,
        table_a + table_b,
        other_trace,
        whole,
        trace_whole,
        table,
    );
}

/// With an encoder that gives the same bytes for the same points, a chunk takes the same bytes
/// wherever it is written: neither the destination, nor what was written before, nor the chunk
/// size shows.
pub proof fn law_chunk_is_the_same_anywhere<C>(
    encode: C,
    vlr: VlrView,
    other_vlr: VlrView,
    data: Seq<u8>,
    s0: Sink,
    t0: Trace,
    s1: Sink,
    t1: Trace,
    n: u64,
    r0: Sink,
    u0: Trace,
    r1: Sink,
    u1: Trace,
    m: u64,
) where C: Fn(&[LazItem], &[u8]) -> std::io::Result<Vec<u8>>
    requires
        repeatable(encode, vlr.items),
        vlr.items == other_vlr.items,
        chunk_written(encode, vlr, data, s0, t0, s1, t1, n),
        chunk_written(encode, other_vlr, data, r0, u0, r1, u1, m),
    ensures
        n == m,
        exists|bytes: Seq<u8>|
            s1 == #[trigger] s0.write(bytes) && r1 == r0.write(bytes) && bytes.len() == n,
{
    let a = choose|bytes: Seq<u8>| #[trigger]
        encodes(encode, vlr.items, data, Ok::<Seq<u8>, std::io::Error>(bytes)) && n == bytes.len()
            && s1 == s0.write(bytes);
    let b = choose|bytes: Seq<u8>| #[trigger]
        encodes(encode, vlr.items, data, Ok::<Seq<u8>, std::io::Error>(bytes)) && m == bytes.len()
            && r1 == r0.write(bytes);
    assert(a == b);
    assert(s1 == s0.write(a));
}

/// A chunk that cannot be compressed or written leaves what stands before the position as it was,
/// so also the eight bytes that are reserved for the offset to the chunk table.
pub proof fn law_failed_chunk_keeps_what_is_before<C>(
    encode: C,
    vlr: VlrView,
    data: Seq<u8>,
    sink: Sink,
    trace: Trace,
    sink_after: Sink,
    trace_after: Trace,
    e: std::io::Error,
    at: nat,
    n: nat,
) where C: Fn(&[LazItem], &[u8]) -> std::io::Result<Vec<u8>>
    requires
        chunk_failed(encode, vlr, data, sink, trace, sink_after, trace_after, e),
        at + n <= sink.pos,
        at + n <= sink.bytes.len(),
    ensures
        bytes_at(sink_after.bytes, at, n) == bytes_at(sink.bytes, at, n),
{
    assert(bytes_at(sink_after.bytes, at, n) =~= bytes_at(sink.bytes, at, n));
}

/// The order of the points is conserved: the chunks that points are cut into, one behind the
/// other, are the points. So are the full chunks with what waits behind them.
pub proof fn law_points_are_conserved(points: Seq<u8>, size: nat)
    requires
        size > 0,
    ensures
        chunked(points, size).flatten() == points,
        full_chunks(points, size).flatten() + leftover(points, size) == points,
    decreases points.len(),
{
    let full = full_chunks(points, size);
    let rest = leftover(points, size);
    if points.len() < size {
        lemma_short_data(points, size);
        if points.len() > 0 {
            last_chunk(points).lemma_flatten_singleton();
        } else {
            assert(points =~= Seq::<u8>::empty());
        }
        assert(full.flatten() + rest =~= points);
    } else {
        let first = points.take(size as int);
        let tail = points.skip(size as int);
        assert(first + tail =~= points);
        law_points_are_conserved(tail, size);
        lemma_first_chunk(first, tail, size);
        seq![first].lemma_flatten_singleton();
        vstd::seq_lib::lemma_flatten_concat(seq![first], full_chunks(tail, size));
        assert(full.flatten() + rest =~= points);
        lemma_chunked(points, size);
        vstd::seq_lib::lemma_flatten_concat(full, last_chunk(rest));
        if rest.len() > 0 {
            last_chunk(rest).lemma_flatten_singleton();
        } else {
            assert(rest =~= Seq::<u8>::empty());
            assert(last_chunk(rest).flatten() =~= rest);
        }
    }
}

/// Chunks of a fixed size: every entry of the table counts that many points, and every chunk but
/// the last holds that many.
pub proof fn law_fixed_point_counts(
    vlr: VlrView,
    points: Seq<u8>,
    encoded: Seq<Seq<u8>>,
    k: int,
)
    requires
        !vlr.variable(),
        vlr.chunk_bytes() > 0,
        0 <= k < chunked(points, vlr.chunk_bytes()).len(),
    ensures
        ({
            let chunks = chunked(points, vlr.chunk_bytes());
            &&& entries_of(vlr, chunks, encoded)[k].point_count == vlr.chunk_size
            &&& k < chunks.len() - 1 ==> chunks[k].len() == vlr.chunk_size * vlr.point_size()
            &&& 0 < chunks[k].len() <= vlr.chunk_size * vlr.point_size()
        }),
{
    let size = vlr.chunk_bytes();
    lemma_chunked(points, size);
    vstd::arithmetic::div_mod::lemma_mod_bound(points.len() as int, size as int);
    vstd::arithmetic::div_mod::lemma_fundamental_div_mod(points.len() as int, size as int);
    let q = points.len() / size;
    if k < q {
        assert(0 <= k * size <= (k + 1) * size <= q * size) by (nonlinear_arith)
            requires
                0 <= k,
                k + 1 <= q,
        ;
        assert(q * size == size * q) by (nonlinear_arith);
        assert((k + 1) * size == k * size + size) by (nonlinear_arith);
        assert(chunked(points, size)[k] == full_chunks(points, size)[k]);
    } else {
        assert(chunked(points, size)[k] == leftover(points, size));
    }
}

/// The number of points that the first `k` entries of a table count.
pub open spec fn points_before(table: Seq<ChunkTableEntry>, k: nat) -> nat
    decreases k,
{
    if k == 0 {
        0
    } else {
        points_before(table, (k - 1) as nat) + table[k - 1].point_count as nat
    }
}

/// Chunks of a variable size: where they are made of whole points, the table counts all of them.
pub proof fn law_variable_point_counts(
    vlr: VlrView,
    chunks: Seq<Seq<u8>>,
    encoded: Seq<Seq<u8>>,
)
    requires
        vlr.variable(),
        vlr.point_size() > 0,
        forall|k: int|
            0 <= k < chunks.len() ==> (#[trigger] chunks[k]).len() <= usize::MAX
                && chunks[k].len() % vlr.point_size() == 0,
    ensures
        points_before(entries_of(vlr, chunks, encoded), chunks.len()) * vlr.point_size()
            == chunks.flatten().len(),
{
    lemma_variable_point_counts(vlr, chunks, encoded, chunks.len());
    assert(chunks.take(chunks.len() as int) =~= chunks);
}

proof fn lemma_variable_point_counts(
    vlr: VlrView,
    chunks: Seq<Seq<u8>>,
    encoded: Seq<Seq<u8>>,
    n: nat,
)
    requires
        vlr.variable(),
        vlr.point_size() > 0,
        n <= chunks.len(),
        forall|k: int|
            0 <= k < chunks.len() ==> (#[trigger] chunks[k]).len() <= usize::MAX
                && chunks[k].len() % vlr.point_size() == 0,
    ensures
        points_before(entries_of(vlr, chunks, encoded), n) * vlr.point_size() == chunks.take(
            n as int,
        ).flatten().len(),
    decreases n,
{
    let table = entries_of(vlr, chunks, encoded);
    let p = vlr.point_size();
    if n > 0 {
        let j = (n - 1) as nat;
        let c = chunks[j as int];
        lemma_variable_point_counts(vlr, chunks, encoded, j);
        chunks.take(j as int).lemma_flatten_push(c);
        assert(chunks.take(j as int).push(c) =~= chunks.take(n as int));
        vstd::arithmetic::div_mod::lemma_fundamental_div_mod(c.len() as int, p as int);
        vstd::arithmetic::div_mod::lemma_div_is_ordered_by_denominator(
            c.len() as int,
            1,
            p as int,
        );
        let count = table[j as int].point_count as nat;
        assert(count == c.len() / p);
        assert((points_before(table, j) + count) * p == points_before(table, j) * p + count * p)
            by (nonlinear_arith);
        assert(count * p == p * count) by (nonlinear_arith);
    } else {
        assert(0 * p == 0) by (nonlinear_arith);
    }
}

} // verus!
