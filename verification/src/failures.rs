//! What calls ask of a destination, and what they leave behind when they fail.

use crate::chunk_table::{ChunkTable, ChunkTableEntry};
use crate::chunking::{chunked, full_chunks, last_chunk, leftover};
use crate::codec::{encodes, encodes_all, encodes_table, le_bytes, refuses_some};
use crate::compressor::{
    chunks_refused, chunks_requested, finish_refused, finish_requested, finished, points_refused,
    points_requested, points_taken, reserve_failed, CompressorState, ParLasZipCompressor,
};
use crate::error::{IoError, LasZipError};
use crate::format::{
    holds, images, is_cut, is_full_cut, law_cut, law_full_cut, law_replies_are_of_calls,
    law_table_replies_are_of_calls, lemma_replies_are, table_of,
};
use crate::laz_compressor::LazCompressor;
use crate::parallel::{
    chunk_failed, chunks_cut, chunks_stopped, cut, cut_at, file_failed, file_requested,
    writing_failed,
};
use crate::sink::{request_failed, writes, Request, SeekSink, Sink, Trace};
use crate::vlr::{LazItem, LazVlr, VlrView};
use vstd::prelude::*;

verus! {

/// One request for each of `out`, to write it.
pub open spec fn each(out: Seq<Seq<u8>>) -> Seq<Request> {
    Seq::new(out.len(), |k: int| Request::Write(out[k]))
}

/// What is asked for so that eight bytes are reserved at `pos`.
pub open spec fn place_at(pos: nat) -> Seq<Request> {
    seq![Request::Position, Request::Write(le_bytes(pos as i64))]
}

/// What a call that takes points asks of the destination, with an encoder that gives `f`: eight
/// bytes for the offset, where none are reserved; to write the chunk that was waiting, where it is
/// complete, and for the positions before and behind it; and to write each of the others.
pub proof fn law_requests_for_points<C>(
    encode: C,
    f: spec_fn(Seq<LazItem>, Seq<u8>) -> Seq<u8>,
    before: CompressorState,
    trace: Trace,
    points: Seq<u8>,
    cs: Seq<Seq<u8>>,
    rest: Seq<u8>,
    after: CompressorState,
    trace_after: Trace,
) where C: Fn(&[LazItem], &[u8]) -> std::io::Result<Vec<u8>>
    requires
        forall|i: &[LazItem], p: &[u8], r: std::io::Result<Vec<u8>>| #[trigger]
            call_ensures(encode, (i, p), r) ==> (r matches Ok(b) ==> b@ == f(i@, p@)),
        is_full_cut(
            before.rest + points,
            (before.vlr.chunk_size * before.vlr.point_size()) as nat,
            cs,
            rest,
        ),
        points_requested(encode, before, trace, points, after, trace_after),
    ensures
        ({
            let out = images(f, before.vlr.items, cs);
            let place = if before.table_offset == -1 {
                place_at(before.sink.pos)
            } else {
                Seq::empty()
            };
            let chunks = if before.rest.len() > 0 && cs.len() > 0 {
                seq![Request::Position, Request::Write(out[0]), Request::Position] + each(
                    out.skip(1),
                )
            } else {
                each(out)
            };
            &&& trace_after.asked == trace.asked + place + chunks
            &&& trace_after.faults == trace.faults
        }),
{
    let size = before.vlr.chunk_bytes();
    let data = before.rest + points;
    law_full_cut(data, (before.vlr.chunk_size * before.vlr.point_size()) as nat, cs, rest);
    let n = crate::compressor::completed_chunk(before.rest.len(), data, size).len() as int;
    let encoded = choose|encoded: Seq<Seq<u8>>| #[trigger]
        encodes_all(encode, before.vlr.items, full_chunks(data, size), encoded) && after == (
        CompressorState {
            rest: leftover(data, size),
            ..before.opened().with_chunks(full_chunks(data, size), encoded)
        }) && trace_after == trace.met(
            crate::compressor::open_requests(before) + crate::compressor::single_requests(
                encoded.take(n),
            ) + writes(encoded.skip(n)),
        );
    lemma_replies_are(encode, f, before.vlr.items, cs, encoded);
    let out = encoded;
    if cs.len() == 0 {
        assert(data.len() < size) by {
            assert(cs.flatten() + rest =~= rest);
        }
    } else {
        assert(data.len() >= size) by {
            let first = cs[0];
            assert(cs.flatten() == first + cs.drop_first().flatten());
        }
    }
    if before.rest.len() > 0 && cs.len() > 0 {
        assert(n == 1);
        assert(out.take(1)[0] == out[0]);
        assert(writes(out.skip(1)) =~= each(out.skip(1)));
    } else {
        assert(n == 0);
        assert(out.skip(0) =~= out);
        assert(writes(out) =~= each(out));
    }
    let place = if before.table_offset == -1 {
        place_at(before.sink.pos)
    } else {
        Seq::empty()
    };
    let chunks = if before.rest.len() > 0 && cs.len() > 0 {
        seq![Request::Position, Request::Write(out[0]), Request::Position] + each(out.skip(1))
    } else {
        each(out)
    };
    assert(crate::compressor::open_requests(before) =~= place);
    assert(crate::compressor::single_requests(encoded.take(n)) + writes(encoded.skip(n))
        =~= chunks);
    assert(trace_after.asked =~= trace.asked + place + chunks);
}

/// What a call that takes chunks asks of the destination, with an encoder that gives `f`: eight
/// bytes for the offset, where none are reserved, and to write each of the chunks.
pub proof fn law_requests_for_chunks<C>(
    encode: C,
    f: spec_fn(Seq<LazItem>, Seq<u8>) -> Seq<u8>,
    before: CompressorState,
    trace: Trace,
    chunks: Seq<Seq<u8>>,
    after: CompressorState,
    trace_after: Trace,
) where C: Fn(&[LazItem], &[u8]) -> std::io::Result<Vec<u8>>
    requires
        forall|i: &[LazItem], p: &[u8], r: std::io::Result<Vec<u8>>| #[trigger]
            call_ensures(encode, (i, p), r) ==> (r matches Ok(b) ==> b@ == f(i@, p@)),
        chunks_requested(encode, before, trace, chunks, after, trace_after),
    ensures
        ({
            let place = if before.table_offset == -1 {
                place_at(before.sink.pos)
            } else {
                Seq::empty()
            };
            &&& trace_after.asked == trace.asked + place + each(
                images(f, before.vlr.items, chunks),
            )
            &&& trace_after.faults == trace.faults
        }),
{
    let encoded = choose|encoded: Seq<Seq<u8>>| #[trigger]
        encodes_all(encode, before.vlr.items, chunks, encoded) && after
            == before.opened().with_chunks(chunks, encoded) && trace_after == trace.met(
            crate::compressor::open_requests(before) + writes(encoded),
        );
    lemma_replies_are(encode, f, before.vlr.items, chunks, encoded);
    assert(writes(encoded) =~= each(encoded));
    let place = if before.table_offset == -1 {
        place_at(before.sink.pos)
    } else {
        Seq::empty()
    };
    assert(crate::compressor::open_requests(before) =~= place);
    assert(trace_after.asked =~= trace.asked + place + each(encoded));
}

/// What finishing asks of the destination, with encoders that give `f` and `g`: to write what
/// waits, and for the positions before and behind it; eight bytes for the offset, where none are
/// reserved; for the position, to go to the reserved bytes, to write that position there, and to
/// come back; and to write the table.
pub proof fn law_requests_for_finishing<C, T>(
    encode: C,
    encode_table: T,
    f: spec_fn(Seq<LazItem>, Seq<u8>) -> Seq<u8>,
    g: spec_fn(Seq<ChunkTableEntry>, VlrView) -> Seq<u8>,
    before: CompressorState,
    trace: Trace,
    after: CompressorState,
    trace_after: Trace,
) where
    C: Fn(&[LazItem], &[u8]) -> std::io::Result<Vec<u8>>,
    T: Fn(&ChunkTable, &LazVlr) -> std::io::Result<Vec<u8>>,

    requires
        forall|i: &[LazItem], p: &[u8], r: std::io::Result<Vec<u8>>| #[trigger]
            call_ensures(encode, (i, p), r) ==> (r matches Ok(b) ==> b@ == f(i@, p@)),
        forall|t: &ChunkTable, v: &LazVlr, r: std::io::Result<Vec<u8>>| #[trigger]
            call_ensures(encode_table, (t, v), r) ==> (r matches Ok(b) ==> b@ == g(t@, v@)),
        before.table_offset == -1 ==> before.sink.pos + 8 <= u64::MAX,
        finish_requested(encode, encode_table, before, trace, after, trace_after),
    ensures
        ({
            let out = f(before.vlr.items, before.rest);
            let last = if before.rest.len() == 0 {
                Seq::empty()
            } else {
                seq![Request::Position, Request::Write(out), Request::Position]
            };
            let place = if before.table_offset == -1 {
                place_at(before.sink.pos)
            } else {
                Seq::empty()
            };
            let at = if before.table_offset == -1 {
                before.sink.pos
            } else {
                (before.table_offset as u64) as nat
            };
            let end = (before.sink.pos + (if before.table_offset == -1 {
                8int
            } else {
                0int
            }) + (if before.rest.len() == 0 {
                0int
            } else {
                out.len() as int
            })) as nat;
            let table_bytes = g(after.table, before.vlr);
            &&& trace_after.asked == trace.asked + last + place + seq![
                Request::Position,
                Request::Seek(at),
                Request::Write(le_bytes(end as i64)),
                Request::Seek(end),
                Request::Write(table_bytes),
            ]
            &&& trace_after.faults == trace.faults
        }),
{
    let chunk = last_chunk(before.rest);
    let (encoded, table_bytes) = choose|encoded: Seq<Seq<u8>>, table_bytes: Seq<u8>| #[trigger]
        encodes_all(encode, before.vlr.items, chunk, encoded) && #[trigger] encodes_table(
            encode_table,
            before.vlr,
            before.opened().with_chunks(chunk, encoded).table,
            Ok::<Seq<u8>, std::io::Error>(table_bytes),
        ) && {
            let written = before.opened().with_chunks(chunk, encoded);
            &&& after == written.closed_with(table_bytes)
            &&& trace_after == trace.met(
                crate::compressor::last_requests(before, encoded)
                    + crate::chunk_table::offset_requests(
                    written.table_place(),
                    written.sink.pos,
                ) + seq![Request::Write(table_bytes)],
            )
        };
    let written = before.opened().with_chunks(chunk, encoded);
    lemma_replies_are(encode, f, before.vlr.items, chunk, encoded);
    crate::format::law_written_table(encode_table, g, before.vlr, written.table, table_bytes);
    let out = f(before.vlr.items, before.rest);
    if before.table_offset == -1 {
        crate::codec::lemma_signed_offset(before.sink.pos as u64);
    }
    let last = if before.rest.len() == 0 {
        Seq::empty()
    } else {
        seq![Request::Position, Request::Write(out), Request::Position]
    };
    let place = if before.table_offset == -1 {
        place_at(before.sink.pos)
    } else {
        Seq::empty()
    };
    if before.rest.len() == 0 {
        assert(encoded =~= Seq::<Seq<u8>>::empty());
        assert(encoded.flatten() =~= Seq::<u8>::empty());
    } else {
        assert(encoded =~= seq![out]);
        encoded.lemma_flatten_singleton();
    }
    assert(crate::compressor::last_requests(before, encoded) =~= last + place);
    let end = written.sink.pos;
    let five = seq![
        Request::Position,
        Request::Seek(written.table_place()),
        Request::Write(le_bytes(end as i64)),
        Request::Seek(end),
        Request::Write(table_bytes),
    ];
    assert(crate::chunk_table::offset_requests(written.table_place(), end) + seq![
        Request::Write(table_bytes),
    ] =~= five);
    assert(trace_after.asked =~= trace.asked + last + place + five);
}

/// What compressing points at once into a whole file asks of the destination, with encoders that
/// give `f` and `g`.
pub proof fn law_requests_for_a_file<C, T>(
    encode: C,
    encode_table: T,
    f: spec_fn(Seq<LazItem>, Seq<u8>) -> Seq<u8>,
    g: spec_fn(Seq<ChunkTableEntry>, VlrView) -> Seq<u8>,
    vlr: VlrView,
    points: Seq<u8>,
    cs: Seq<Seq<u8>>,
    start: Sink,
    trace: Trace,
    after: Sink,
    trace_after: Trace,
) where
    C: Fn(&[LazItem], &[u8]) -> std::io::Result<Vec<u8>>,
    T: Fn(&ChunkTable, &LazVlr) -> std::io::Result<Vec<u8>>,

    requires
        forall|i: &[LazItem], p: &[u8], r: std::io::Result<Vec<u8>>| #[trigger]
            call_ensures(encode, (i, p), r) ==> (r matches Ok(b) ==> b@ == f(i@, p@)),
        forall|t: &ChunkTable, v: &LazVlr, r: std::io::Result<Vec<u8>>| #[trigger]
            call_ensures(encode_table, (t, v), r) ==> (r matches Ok(b) ==> b@ == g(t@, v@)),
        vlr.chunk_size != u32::MAX,
        vlr.chunk_size * vlr.point_size() > 0,
        is_cut(points, (vlr.chunk_size * vlr.point_size()) as nat, cs),
        file_requested(
            encode,
            encode_table,
            vlr,
            chunked(points, vlr.chunk_bytes()),
            start,
            trace,
            after,
            trace_after,
        ),
    ensures
        ({
            let out = images(f, vlr.items, cs);
            let counts = Seq::new(cs.len(), |k: int| vlr.chunk_size as nat);
            let end = (start.pos + 8 + out.flatten().len()) as nat;
            &&& trace_after.asked == trace.asked + place_at(start.pos) + each(out) + seq![
                Request::Position,
                Request::Seek(start.pos),
                Request::Write(le_bytes(end as i64)),
                Request::Seek(end),
                Request::Write(g(table_of(counts, out), vlr)),
            ]
            &&& trace_after.faults == trace.faults
        }),
{
    law_cut(points, (vlr.chunk_size * vlr.point_size()) as nat, cs);
    let (encoded, table_bytes) = choose|encoded: Seq<Seq<u8>>, table_bytes: Seq<u8>| #[trigger]
        encodes_all(encode, vlr.items, cs, encoded) && #[trigger] encodes_table(
            encode_table,
            vlr,
            crate::chunk_table::entries_of(vlr, cs, encoded),
            Ok::<Seq<u8>, std::io::Error>(table_bytes),
        ) && trace_after == trace.met(
            crate::parallel::file_requests(start.pos, encoded, table_bytes),
        );
    let counts = Seq::new(cs.len(), |k: int| vlr.chunk_size as nat);
    lemma_replies_are(encode, f, vlr.items, cs, encoded);
    assert(crate::chunk_table::entries_of(vlr, cs, encoded) =~= table_of(counts, encoded));
    crate::format::law_written_table(
        encode_table,
        g,
        vlr,
        table_of(counts, encoded),
        table_bytes,
    );
    let end = (start.pos + 8 + encoded.flatten().len()) as nat;
    let five = seq![
        Request::Position,
        Request::Seek(start.pos),
        Request::Write(le_bytes(end as i64)),
        Request::Seek(end),
        Request::Write(table_bytes),
    ];
    assert(crate::parallel::file_requests(start.pos, encoded, table_bytes) =~= place_at(start.pos)
        + each(encoded) + five);
    assert(trace_after.asked =~= trace.asked + place_at(start.pos) + each(encoded) + five);
}

/// `e` was reported by the destination, which reported no other error, or it reported none and
/// `e` is what a call of the record encoder with the items and one of `chunks` can return.
pub open spec fn says_why<C>(
    encode: C,
    items: Seq<LazItem>,
    chunks: Seq<Seq<u8>>,
    trace: Trace,
    trace_after: Trace,
    e: std::io::Error,
) -> bool where C: Fn(&[LazItem], &[u8]) -> std::io::Result<Vec<u8>> {
    ||| trace_after.faults =~= trace.faults.push(e)
    ||| trace_after.faults == trace.faults && exists|i: &[LazItem], p: &[u8]|
        i@ == items && chunks.contains(p@) && #[trigger] call_ensures(
            encode,
            (i, p),
            Err::<Vec<u8>, std::io::Error>(e),
        )
}

/// Nothing that stood before the position of `before` is changed, and nothing that was asked for
/// before is forgotten.
pub open spec fn only_adds(before: Sink, trace: Trace, after: Sink, trace_after: Trace) -> bool {
    &&& trace.asked.len() <= trace_after.asked.len()
    &&& trace_after.asked.take(trace.asked.len() as int) =~= trace.asked
    &&& before.bytes.len() <= after.bytes.len()
    &&& forall|i: int|
        0 <= i < before.pos && i < before.bytes.len() ==> #[trigger] after.bytes[i]
            == before.bytes[i]
}

/// A request that fails is the last that is asked for, its error is the one that is new, and it
/// changes nothing before the position.
pub proof fn law_failed_request(
    sink: Sink,
    trace: Trace,
    request: Request,
    sink_after: Sink,
    trace_after: Trace,
    e: std::io::Error,
)
    requires
        request_failed(sink, trace, request, sink_after, trace_after, e),
    ensures
        trace_after.asked == trace.asked.push(request),
        trace_after.faults == trace.faults.push(e),
        only_adds(sink, trace, sink_after, trace_after),
        !(request is Write) ==> sink_after.bytes == sink.bytes,
{
    assert(trace_after.faults =~= trace.faults.push(e));
}

/// An encoder's refusal of a chunk.
proof fn lemma_refusal<C>(
    encode: C,
    items: Seq<LazItem>,
    chunks: Seq<Seq<u8>>,
    k: int,
    trace: Trace,
    trace_after: Trace,
    e: std::io::Error,
) where C: Fn(&[LazItem], &[u8]) -> std::io::Result<Vec<u8>>
    requires
        0 <= k < chunks.len(),
        encodes(encode, items, chunks[k], Err::<Seq<u8>, std::io::Error>(e)),
        trace_after.faults == trace.faults,
    ensures
        says_why(encode, items, chunks, trace, trace_after, e),
{
    law_replies_are_of_calls(encode, items, chunks[k], Seq::empty(), e);
    let (i, p) = choose|i: &[LazItem], p: &[u8]|
        i@ == items && p@ == chunks[k] && #[trigger] call_ensures(
            encode,
            (i, p),
            Err::<Vec<u8>, std::io::Error>(e),
        );
    assert(chunks.contains(p@));
}

/// A request that failed behind what was added.
proof fn lemma_failed_behind(
    before: Sink,
    trace: Trace,
    data: Seq<u8>,
    asked: Seq<Request>,
    request: Request,
    after: Sink,
    trace_after: Trace,
    e: std::io::Error,
)
    requires
        request_failed(before.write(data), trace.met(asked), request, after, trace_after, e),
    ensures
        only_adds(before, trace, after, trace_after),
        trace_after.faults == trace.faults.push(e),
        trace_after.asked == trace.asked + asked.push(request),
{
    law_failed_request(before.write(data), trace.met(asked), request, after, trace_after, e);
    assert(trace_after.asked =~= trace.asked + asked.push(request));
    assert forall|i: int| 0 <= i < before.pos && i < before.bytes.len() implies #[trigger]
        after.bytes[i] == before.bytes[i] by {
        assert(before.write(data).bytes[i] == before.bytes[i]);
    }
}

/// A chunk that cannot be compressed or written: the error says why, nothing before the position
/// is changed, and where the encoder refused, nothing at all; of the destination nothing was
/// asked but the position, and then to write the chunk, and then the position again.
pub proof fn law_failed_chunk<C>(
    encode: C,
    vlr: VlrView,
    data: Seq<u8>,
    sink: Sink,
    trace: Trace,
    sink_after: Sink,
    trace_after: Trace,
    e: std::io::Error,
) where C: Fn(&[LazItem], &[u8]) -> std::io::Result<Vec<u8>>
    requires
        chunk_failed(encode, vlr, data, sink, trace, sink_after, trace_after, e),
    ensures
        says_why(encode, vlr.items, seq![data], trace, trace_after, e),
        only_adds(sink, trace, sink_after, trace_after),
        trace_after.faults == trace.faults ==> sink_after == sink,
        trace.asked.len() < trace_after.asked.len() <= trace.asked.len() + 3,
        trace_after.asked.len() == trace.asked.len() + 1 ==> sink_after.bytes == sink.bytes,
{
    let looked = seq![Request::Position];
    if request_failed(sink, trace, Request::Position, sink_after, trace_after, e) {
        law_failed_request(sink, trace, Request::Position, sink_after, trace_after, e);
    } else if encodes(encode, vlr.items, data, Err::<Seq<u8>, std::io::Error>(e)) && sink_after
        == sink && trace_after == trace.met(looked) {
        lemma_refusal(encode, vlr.items, seq![data], 0, trace, trace_after, e);
    } else {
        let bytes = choose|bytes: Seq<u8>| #[trigger]
            encodes(encode, vlr.items, data, Ok::<Seq<u8>, std::io::Error>(bytes)) && {
                ||| request_failed(
                    sink,
                    trace.met(looked),
                    Request::Write(bytes),
                    sink_after,
                    trace_after,
                    e,
                )
                ||| request_failed(
                    sink.write(bytes),
                    trace.met(seq![Request::Position, Request::Write(bytes)]),
                    Request::Position,
                    sink_after,
                    trace_after,
                    e,
                )
            };
        if request_failed(
            sink,
            trace.met(looked),
            Request::Write(bytes),
            sink_after,
            trace_after,
            e,
        ) {
            crate::sink::lemma_write_nothing(sink);
            lemma_failed_behind(
                sink,
                trace,
                Seq::empty(),
                looked,
                Request::Write(bytes),
                sink_after,
                trace_after,
                e,
            );
        } else {
            lemma_failed_behind(
                sink,
                trace,
                bytes,
                seq![Request::Position, Request::Write(bytes)],
                Request::Position,
                sink_after,
                trace_after,
                e,
            );
        }
        assert(trace_after.faults.len() == trace.faults.len() + 1);
    }
}

/// Pieces that were cut off at the one at `k`.
proof fn lemma_cut_at(
    out: Seq<Seq<u8>>,
    k: int,
    sink: Sink,
    trace: Trace,
    sink_after: Sink,
    trace_after: Trace,
    e: std::io::Error,
)
    requires
        cut_at(out, k, sink, trace, sink_after, trace_after, e),
    ensures
        0 <= k < out.len(),
        trace_after.faults == trace.faults.push(e),
        trace_after.asked == trace.asked + each(out.take(k + 1)),
        only_adds(sink, trace, sink_after, trace_after),
        out.take(k).flatten().len() > 0 ==> holds(
            sink_after.bytes,
            sink.pos as int,
            out.take(k).flatten(),
        ),
{
    let flat = out.take(k).flatten();
    lemma_failed_behind(
        sink,
        trace,
        flat,
        writes(out.take(k)),
        Request::Write(out[k]),
        sink_after,
        trace_after,
        e,
    );
    assert(writes(out.take(k)).push(Request::Write(out[k])) =~= each(out.take(k + 1)));
    if flat.len() > 0 {
        let there = sink.write(flat);
        assert forall|j: int| 0 <= j < flat.len() implies sink_after.bytes[sink.pos + j]
            == #[trigger] flat[j] by {
            assert(there.bytes[sink.pos + j] == flat[j]);
        }
    }
}

/// Chunks that could all be compressed, by an encoder that gives `f`, and that the destination
/// refused to take: those before the one at which it failed stand behind the position, in their
/// order, and were handed over one by one; that one was handed over too, and none behind it.
pub proof fn law_failed_writing<C>(
    encode: C,
    f: spec_fn(Seq<LazItem>, Seq<u8>) -> Seq<u8>,
    vlr: VlrView,
    chunks: Seq<Seq<u8>>,
    sink: Sink,
    trace: Trace,
    sink_after: Sink,
    trace_after: Trace,
    e: std::io::Error,
) where C: Fn(&[LazItem], &[u8]) -> std::io::Result<Vec<u8>>
    requires
        forall|i: &[LazItem], p: &[u8], r: std::io::Result<Vec<u8>>| #[trigger]
            call_ensures(encode, (i, p), r) ==> (r matches Ok(b) ==> b@ == f(i@, p@)),
        writing_failed(encode, vlr, chunks, sink, trace, sink_after, trace_after, e),
    ensures
        ({
            let out = images(f, vlr.items, chunks);
            let k = trace_after.asked.len() - trace.asked.len() - 1;
            &&& 0 <= k < chunks.len()
            &&& trace_after.asked == trace.asked + each(out.take(k + 1))
            &&& trace_after.faults == trace.faults.push(e)
            &&& only_adds(sink, trace, sink_after, trace_after)
            &&& out.take(k).flatten().len() > 0 ==> holds(
                sink_after.bytes,
                sink.pos as int,
                out.take(k).flatten(),
            )
        }),
{
    let encoded = choose|encoded: Seq<Seq<u8>>| #[trigger]
        encodes_all(encode, vlr.items, chunks, encoded) && cut(
            encoded,
            sink,
            trace,
            sink_after,
            trace_after,
            e,
        );
    lemma_replies_are(encode, f, vlr.items, chunks, encoded);
    let k = choose|k: int| #[trigger]
        cut_at(encoded, k, sink, trace, sink_after, trace_after, e);
    lemma_cut_at(encoded, k, sink, trace, sink_after, trace_after, e);
}

/// Chunks that could all be compressed, and that the destination refused to take.
proof fn lemma_writing_failed<C>(
    encode: C,
    vlr: VlrView,
    chunks: Seq<Seq<u8>>,
    sink: Sink,
    trace: Trace,
    sink_after: Sink,
    trace_after: Trace,
    e: std::io::Error,
) where C: Fn(&[LazItem], &[u8]) -> std::io::Result<Vec<u8>>
    requires
        writing_failed(encode, vlr, chunks, sink, trace, sink_after, trace_after, e),
    ensures
        trace_after.faults == trace.faults.push(e),
        only_adds(sink, trace, sink_after, trace_after),
{
    let encoded = choose|encoded: Seq<Seq<u8>>| #[trigger]
        encodes_all(encode, vlr.items, chunks, encoded) && cut(
            encoded,
            sink,
            trace,
            sink_after,
            trace_after,
            e,
        );
    let k = choose|k: int| #[trigger]
        cut_at(encoded, k, sink, trace, sink_after, trace_after, e);
    lemma_cut_at(encoded, k, sink, trace, sink_after, trace_after, e);
}

/// Adding to what was added.
proof fn lemma_adds_twice(
    a: Sink,
    ta: Trace,
    b: Sink,
    tb: Trace,
    c: Sink,
    tc: Trace,
)
    requires
        only_adds(a, ta, b, tb),
        only_adds(b, tb, c, tc),
        a.pos <= b.pos,
    ensures
        only_adds(a, ta, c, tc),
{
    assert(tc.asked.take(ta.asked.len() as int) =~= tb.asked.take(ta.asked.len() as int));
    assert forall|i: int| 0 <= i < a.pos && i < a.bytes.len() implies #[trigger] c.bytes[i]
        == a.bytes[i] by {
        assert(b.bytes[i] == a.bytes[i]);
    }
}

/// A place that could not be reserved: the error is the destination's, nothing before the position
/// is changed, and the place is known only where its position could be read.
pub proof fn law_failed_reserving(
    before: CompressorState,
    trace: Trace,
    after: CompressorState,
    trace_after: Trace,
    e: std::io::Error,
)
    requires
        reserve_failed(before, trace, after, trace_after, e),
    ensures
        trace_after.faults == trace.faults.push(e),
        only_adds(before.sink, trace, after.sink, trace_after),
        after.vlr == before.vlr,
        after.table == before.table,
        after.rest == before.rest,
        after.table_offset != before.table_offset ==> after.table_offset
            == before.sink.pos as i64,
        trace_after.asked.len() == trace.asked.len() + 1 ==> after.table_offset
            == before.table_offset && after.sink.bytes == before.sink.bytes,
{
    if request_failed(before.sink, trace, Request::Position, after.sink, trace_after, e)
        && after.table_offset == before.table_offset {
        law_failed_request(
            before.sink,
            trace,
            Request::Position,
            after.sink,
            trace_after,
            e,
        );
    } else {
        crate::sink::lemma_write_nothing(before.sink);
        lemma_failed_behind(
            before.sink,
            trace,
            Seq::empty(),
            seq![Request::Position],
            Request::Write(le_bytes(before.sink.pos as i64)),
            after.sink,
            trace_after,
            e,
        );
    }
}

/// A call that takes points and fails. The error says why, nothing before the position is
/// changed, and the table has at most one new entry: that of the chunk that was waiting, where it
/// was written and one behind it failed. Where it was not, it waits on, complete; where it was,
/// the points of the chunks behind it are gone, and what they leave waits.
pub proof fn law_refused_points<C>(
    encode: C,
    before: CompressorState,
    trace: Trace,
    points: Seq<u8>,
    cs: Seq<Seq<u8>>,
    rest: Seq<u8>,
    after: CompressorState,
    trace_after: Trace,
    e: IoError,
) where C: Fn(&[LazItem], &[u8]) -> std::io::Result<Vec<u8>>
    requires
        before.table_offset == -1 ==> before.rest.len() == 0,
        before.vlr.chunk_size != u32::MAX,
        is_full_cut(
            before.rest + points,
            (before.vlr.chunk_size * before.vlr.point_size()) as nat,
            cs,
            rest,
        ),
        points_refused(encode, before, trace, points, after, trace_after, e),
    ensures
        ({
            let x = match e {
                IoError::Direct(x) => x,
                IoError::Other(x) => x,
            };
            &&& says_why(encode, before.vlr.items, cs, trace, trace_after, x)
            &&& only_adds(before.sink, trace, after.sink, trace_after)
            &&& after.vlr == before.vlr
            &&& before.table_offset != -1 ==> after.table_offset == before.table_offset
            &&& e is Direct ==> {
                &&& after.table == before.table
                &&& before.rest.len() == 0 ==> after.rest.len() == 0
                &&& before.rest.len() > 0 ==> cs.len() > 0 && after.rest == cs[0]
            }
            &&& e is Other ==> {
                &&& cs.len() > 0
                &&& after.rest == rest
                &&& before.table_offset == -1 ==> after.table_offset == before.sink.pos as i64
                &&& before.rest.len() == 0 ==> after.table == before.table
                &&& before.rest.len() > 0 ==> {
                    &&& after.table.len() == before.table.len() + 1
                    &&& after.table.drop_last() == before.table
                    &&& after.table.last().point_count == before.vlr.chunk_size
                }
            }
        }),
{
    let size = before.vlr.chunk_bytes();
    let data = before.rest + points;
    let items = before.vlr.items;
    law_full_cut(data, (before.vlr.chunk_size * before.vlr.point_size()) as nat, cs, rest);
    let head = crate::compressor::completed_chunk(before.rest.len(), data, size);
    if data.len() >= size {
        if cs.len() == 0 {
            assert(cs.flatten() + rest =~= rest);
        }
        assert(cs.flatten() == cs[0] + cs.drop_first().flatten());
        assert(data.take(size as int) =~= cs[0]);
    }
    match e {
        IoError::Direct(x) => {
            if before.table_offset == -1 && reserve_failed(before, trace, after, trace_after, x) {
                law_failed_reserving(before, trace, after, trace_after, x);
            } else {
                law_failed_chunk(
                    encode,
                    before.vlr,
                    cs[0],
                    before.sink,
                    trace,
                    after.sink,
                    trace_after,
                    x,
                );
                if trace_after.faults == trace.faults {
                    let (i, p) = choose|i: &[LazItem], p: &[u8]|
                        i@ == items && seq![cs[0]].contains(p@) && #[trigger] call_ensures(
                            encode,
                            (i, p),
                            Err::<Vec<u8>, std::io::Error>(x),
                        );
                    assert(trace.faults.push(x).len() == trace.faults.len() + 1);
                    assert(p@ == cs[0]);
                    assert(cs.contains(p@));
                }
            }
        },
        IoError::Other(x) => {
            let tail = full_chunks(data, size).skip(head.len() as int);
            let encoded = choose|encoded: Seq<Seq<u8>>| #[trigger]
                encodes_all(encode, items, head, encoded) && after.table == before.table
                    + crate::chunk_table::entries_of(before.vlr, head, encoded) && {
                    let sink = before.opened().sink.write(encoded.flatten());
                    let so_far = trace.met(
                        crate::compressor::open_requests(before)
                            + crate::compressor::single_requests(encoded),
                    );
                    ||| {
                        &&& refuses_some(encode, items, tail, x)
                        &&& after.sink == sink
                        &&& trace_after == so_far
                    }
                    ||| writing_failed(
                        encode,
                        before.vlr,
                        tail,
                        sink,
                        so_far,
                        after.sink,
                        trace_after,
                        x,
                    )
                };
            let sink = before.opened().sink.write(encoded.flatten());
            let so_far = trace.met(
                crate::compressor::open_requests(before) + crate::compressor::single_requests(
                    encoded,
                ),
            );
            lemma_opened_adds(before, trace, encoded.flatten(), sink, so_far);
            if before.rest.len() == 0 {
                assert(after.table =~= before.table);
            } else {
                assert(after.table.drop_last() =~= before.table);
            }
            if refuses_some(encode, items, tail, x) && after.sink == sink && trace_after
                == so_far {
                let k = choose|k: int|
                    0 <= k < tail.len() && encodes(
                        encode,
                        items,
                        #[trigger] tail[k],
                        Err::<Seq<u8>, std::io::Error>(x),
                    );
                assert(tail[k] == cs[k + head.len()]);
                lemma_refusal(encode, items, cs, k + head.len(), trace, trace_after, x);
            } else {
                lemma_writing_failed(
                    encode,
                    before.vlr,
                    tail,
                    sink,
                    so_far,
                    after.sink,
                    trace_after,
                    x,
                );
                lemma_adds_twice(
                    before.sink,
                    trace,
                    sink,
                    so_far,
                    after.sink,
                    trace_after,
                );
            }
        },
    }
}

/// Reserving a place, where none is, and writing behind it only adds.
proof fn lemma_opened_adds(
    before: CompressorState,
    trace: Trace,
    data: Seq<u8>,
    sink: Sink,
    trace_after: Trace,
)
    requires
        sink == before.opened().sink.write(data),
        exists|asked: Seq<Request>| trace_after == #[trigger] trace.met(asked),
    ensures
        only_adds(before.sink, trace, sink, trace_after),
        before.sink.pos <= sink.pos,
        trace_after.faults == trace.faults,
{
    let asked = choose|asked: Seq<Request>| trace_after == #[trigger] trace.met(asked);
    assert((trace.asked + asked).take(trace.asked.len() as int) =~= trace.asked);
    let opened = before.opened().sink;
    assert forall|i: int| 0 <= i < before.sink.pos && i < before.sink.bytes.len() implies #[trigger]
        sink.bytes[i] == before.sink.bytes[i] by {
        assert(opened.bytes[i] == before.sink.bytes[i]);
    }
}

/// A call that takes chunks and fails. The error says why, nothing before the position is changed,
/// and neither the table nor what waits has changed. Where an encoder refused, no chunk was
/// written.
pub proof fn law_refused_chunks<C>(
    encode: C,
    before: CompressorState,
    trace: Trace,
    chunks: Seq<Seq<u8>>,
    after: CompressorState,
    trace_after: Trace,
    e: IoError,
) where C: Fn(&[LazItem], &[u8]) -> std::io::Result<Vec<u8>>
    requires
        chunks_refused(encode, before, trace, chunks, after, trace_after, e),
    ensures
        ({
            let x = match e {
                IoError::Direct(x) => x,
                IoError::Other(x) => x,
            };
            &&& says_why(encode, before.vlr.items, chunks, trace, trace_after, x)
            &&& only_adds(before.sink, trace, after.sink, trace_after)
            &&& after.vlr == before.vlr
            &&& after.table == before.table
            &&& after.rest == before.rest
            &&& before.table_offset != -1 ==> after.table_offset == before.table_offset
            &&& trace_after.faults == trace.faults ==> after.sink.pos == before.sink.pos + (
            if before.table_offset == -1 {
                8int
            } else {
                0int
            })
        }),
{
    let opened = before.opened().sink;
    let so_far = trace.met(crate::compressor::open_requests(before));
    crate::sink::lemma_write_nothing(opened);
    lemma_opened_adds(before, trace, Seq::empty(), opened, so_far);
    match e {
        IoError::Direct(x) => {
            law_failed_reserving(before, trace, after, trace_after, x);
            assert(trace_after.faults.len() == trace.faults.len() + 1);
        },
        IoError::Other(x) => {
            if refuses_some(encode, before.vlr.items, chunks, x) && after.sink == opened
                && trace_after == so_far {
                let k = choose|k: int|
                    0 <= k < chunks.len() && encodes(
                        encode,
                        before.vlr.items,
                        #[trigger] chunks[k],
                        Err::<Seq<u8>, std::io::Error>(x),
                    );
                lemma_refusal(encode, before.vlr.items, chunks, k, trace, trace_after, x);
            } else {
                lemma_writing_failed(
                    encode,
                    before.vlr,
                    chunks,
                    opened,
                    so_far,
                    after.sink,
                    trace_after,
                    x,
                );
                lemma_adds_twice(
                    before.sink,
                    trace,
                    opened,
                    so_far,
                    after.sink,
                    trace_after,
                );
                assert(trace_after.faults.len() == trace.faults.len() + 1);
            }
        },
    }
}

/// `e` is what a call of the table encoder with the table and the description can return.
pub open spec fn table_refused<T>(
    encode_table: T,
    vlr: VlrView,
    table: Seq<ChunkTableEntry>,
    e: std::io::Error,
) -> bool where T: Fn(&ChunkTable, &LazVlr) -> std::io::Result<Vec<u8>> {
    exists|t: &ChunkTable, v: &LazVlr|
        t@ == table && v@ == vlr && #[trigger] call_ensures(
            encode_table,
            (t, v),
            Err::<Vec<u8>, std::io::Error>(e),
        )
}

/// Storing a position that failed: all but the eight bytes at the place, and what is behind the
/// position, is as it was.
proof fn lemma_offset_failed(
    place: nat,
    sink: Sink,
    trace: Trace,
    sink_after: Sink,
    trace_after: Trace,
    e: std::io::Error,
)
    requires
        crate::chunk_table::offset_failed(place, sink, trace, sink_after, trace_after, e),
        place + 8 <= sink.pos,
    ensures
        trace_after.faults == trace.faults.push(e),
        sink.bytes.len() <= sink_after.bytes.len(),
        forall|i: int|
            0 <= i < sink.bytes.len() && !(place <= i < place + 8) ==> #[trigger]
                sink_after.bytes[i] == sink.bytes[i],
{
    let requests = crate::chunk_table::offset_requests(place, sink.pos);
    let there = sink.seek(place);
    let stored = there.write(le_bytes(sink.pos as i64));
    assert(le_bytes(sink.pos as i64).len() == 8);
    if request_failed(sink, trace, requests[0], sink_after, trace_after, e) {
        law_failed_request(sink, trace, requests[0], sink_after, trace_after, e);
    } else if request_failed(
        sink,
        trace.met(requests.take(1)),
        requests[1],
        sink_after,
        trace_after,
        e,
    ) {
        law_failed_request(
            sink,
            trace.met(requests.take(1)),
            requests[1],
            sink_after,
            trace_after,
            e,
        );
    } else if request_failed(
        there,
        trace.met(requests.take(2)),
        requests[2],
        sink_after,
        trace_after,
        e,
    ) {
        law_failed_request(
            there,
            trace.met(requests.take(2)),
            requests[2],
            sink_after,
            trace_after,
            e,
        );
        let data = le_bytes(sink.pos as i64);
        let n = choose|n: nat|
            n <= data.len() && sink_after.bytes == #[trigger] there.torn(data, n);
        assert(sink_after.bytes == there.torn(data, n));
    } else {
        law_failed_request(
            stored,
            trace.met(requests.take(3)),
            requests[3],
            sink_after,
            trace_after,
            e,
        );
    }
}

/// Finishing that fails. The error is the destination's, the record encoder's for what waits, or
/// the table encoder's for the table; what waits is as it was; the table is as it was or has the
/// entry of the last chunk behind it; and of what stood before the position only the eight
/// reserved bytes may have changed. Where what waits could not be written, those have not.
pub proof fn law_refused_finishing<C, T>(
    encode: C,
    encode_table: T,
    before: CompressorState,
    trace: Trace,
    after: CompressorState,
    trace_after: Trace,
    x: std::io::Error,
) where
    C: Fn(&[LazItem], &[u8]) -> std::io::Result<Vec<u8>>,
    T: Fn(&ChunkTable, &LazVlr) -> std::io::Result<Vec<u8>>,

    requires
        before.vlr.chunk_size == u32::MAX ==> before.rest.len() == 0,
        before.table_offset == -1 ==> before.rest.len() == 0 && before.sink.pos + 8 <= u64::MAX,
        before.table_offset != -1 ==> (before.table_offset as u64) + 8 <= before.sink.pos,
        finish_refused(encode, encode_table, before, trace, after, trace_after, x),
    ensures
        after.vlr == before.vlr,
        after.rest == before.rest,
        after.table_offset == before.table_offset || before.table_offset == -1
            && after.table_offset == before.sink.pos as i64,
        ({
            ||| says_why(encode, before.vlr.items, last_chunk(before.rest), trace, trace_after, x)
            ||| trace_after.faults == trace.faults && table_refused(
                encode_table,
                before.vlr,
                after.table,
                x,
            )
        }),
        after.table == before.table || {
            &&& before.rest.len() > 0
            &&& after.table.len() == before.table.len() + 1
            &&& after.table.drop_last() == before.table
            &&& after.table.last().point_count == before.vlr.chunk_size
        },
        forall|i: int|
            0 <= i < before.sink.pos && i < before.sink.bytes.len() && !(before.table_offset != -1
                && (before.table_offset as u64) <= i < (before.table_offset as u64) + 8)
                ==> #[trigger] after.sink.bytes[i] == before.sink.bytes[i],
        before.rest.len() > 0 && after.table == before.table ==> only_adds(
            before.sink,
            trace,
            after.sink,
            trace_after,
        ),
{
    let last = last_chunk(before.rest);
    let items = before.vlr.items;
    if before.rest.len() > 0 && after.table == before.table && after.table_offset
        == before.table_offset && chunk_failed(
        encode,
        before.vlr,
        before.rest,
        before.sink,
        trace,
        after.sink,
        trace_after,
        x,
    ) {
        law_failed_chunk(
            encode,
            before.vlr,
            before.rest,
            before.sink,
            trace,
            after.sink,
            trace_after,
            x,
        );
        assert(last == seq![before.rest]);
    } else if before.table_offset == -1 && reserve_failed(before, trace, after, trace_after, x) {
        law_failed_reserving(before, trace, after, trace_after, x);
    } else {
        let encoded = choose|encoded: Seq<Seq<u8>>| #[trigger]
            encodes_all(encode, items, last, encoded) && {
                let written = before.opened().with_chunks(last, encoded);
                let so_far = trace.met(crate::compressor::last_requests(before, encoded));
                let stored = written.closed_with(Seq::empty());
                let trace_stored = so_far.met(
                    crate::chunk_table::offset_requests(written.table_place(), written.sink.pos),
                );
                &&& after.table == written.table
                &&& after.table_offset == written.table_offset
                &&& {
                    ||| crate::chunk_table::offset_failed(
                        written.table_place(),
                        written.sink,
                        so_far,
                        after.sink,
                        trace_after,
                        x,
                    )
                    ||| {
                        &&& encodes_table(
                            encode_table,
                            before.vlr,
                            written.table,
                            Err::<Seq<u8>, std::io::Error>(x),
                        )
                        &&& after == stored
                        &&& trace_after == trace_stored
                    }
                    ||| exists|table_bytes: Seq<u8>| #[trigger]
                        encodes_table(
                            encode_table,
                            before.vlr,
                            written.table,
                            Ok::<Seq<u8>, std::io::Error>(table_bytes),
                        ) && request_failed(
                            stored.sink,
                            trace_stored,
                            Request::Write(table_bytes),
                            after.sink,
                            trace_after,
                            x,
                        )
                }
            };
        let written = before.opened().with_chunks(last, encoded);
        let so_far = trace.met(crate::compressor::last_requests(before, encoded));
        let stored = written.closed_with(Seq::empty());
        let place = written.table_place();
        let trace_stored = so_far.met(
            crate::chunk_table::offset_requests(place, written.sink.pos),
        );
        lemma_opened_adds(before, trace, encoded.flatten(), written.sink, so_far);
        if before.table_offset == -1 {
            crate::codec::lemma_signed_offset(before.sink.pos as u64);
        }
        assert(place + 8 <= written.sink.pos);
        if before.rest.len() == 0 {
            assert(after.table =~= before.table);
        } else {
            assert(after.table.drop_last() =~= before.table);
        }
        assert(le_bytes(written.sink.pos as i64).len() == 8);
        assert forall|i: int|
            0 <= i < written.sink.bytes.len() && !(place <= i < place + 8) implies #[trigger]
            stored.sink.bytes[i] == written.sink.bytes[i] by {}
        if crate::chunk_table::offset_failed(
            place,
            written.sink,
            so_far,
            after.sink,
            trace_after,
            x,
        ) {
            lemma_offset_failed(place, written.sink, so_far, after.sink, trace_after, x);
        } else if encodes_table(
            encode_table,
            before.vlr,
            written.table,
            Err::<Seq<u8>, std::io::Error>(x),
        ) && after == stored && trace_after == trace_stored {
            law_table_replies_are_of_calls(
                encode_table,
                before.vlr,
                written.table,
                Seq::empty(),
                x,
            );
        } else {
            let table_bytes = choose|table_bytes: Seq<u8>| #[trigger]
                encodes_table(
                    encode_table,
                    before.vlr,
                    written.table,
                    Ok::<Seq<u8>, std::io::Error>(table_bytes),
                ) && request_failed(
                    stored.sink,
                    trace_stored,
                    Request::Write(table_bytes),
                    after.sink,
                    trace_after,
                    x,
                );
            law_failed_request(
                stored.sink,
                trace_stored,
                Request::Write(table_bytes),
                after.sink,
                trace_after,
                x,
            );
        }
        assert forall|i: int|
            0 <= i < before.sink.pos && i < before.sink.bytes.len() && !(before.table_offset != -1
                && (before.table_offset as u64) <= i < (before.table_offset as u64) + 8) implies
            #[trigger] after.sink.bytes[i] == before.sink.bytes[i] by {
            assert(written.sink.bytes[i] == before.sink.bytes[i]);
            assert(!(place <= i < place + 8));
            assert(stored.sink.bytes[i] == written.sink.bytes[i]);
        }
    }
}

/// Compressing chunks at once that fails. The error says why, nothing before the position is
/// changed, and the chunks before the one at which it failed stand behind the position, by an
/// encoder that gives `f`, in their order, each of which was handed over by itself.
pub proof fn law_stopped_chunks<C>(
    encode: C,
    f: spec_fn(Seq<LazItem>, Seq<u8>) -> Seq<u8>,
    vlr: VlrView,
    chunks: Seq<Seq<u8>>,
    sink: Sink,
    trace: Trace,
    sink_after: Sink,
    trace_after: Trace,
    e: std::io::Error,
) where C: Fn(&[LazItem], &[u8]) -> std::io::Result<Vec<u8>>
    requires
        forall|i: &[LazItem], p: &[u8], r: std::io::Result<Vec<u8>>| #[trigger]
            call_ensures(encode, (i, p), r) ==> (r matches Ok(b) ==> b@ == f(i@, p@)),
        chunks_stopped(encode, vlr, chunks, sink, trace, sink_after, trace_after, e) || chunks_cut(
            encode,
            vlr,
            chunks,
            sink,
            trace,
            sink_after,
            trace_after,
            e,
        ),
    ensures
        says_why(encode, vlr.items, chunks, trace, trace_after, e),
        only_adds(sink, trace, sink_after, trace_after),
        exists|k: int|
            #![trigger chunks[k]]
            0 <= k < chunks.len() && {
                let out = images(f, vlr.items, chunks);
                &&& out.take(k).flatten().len() > 0 ==> holds(
                    sink_after.bytes,
                    sink.pos as int,
                    out.take(k).flatten(),
                )
                &&& trace_after.faults == trace.faults ==> trace_after.asked == trace.asked + each(
                    out.take(k),
                ) && sink_after.pos == sink.pos + out.take(k).flatten().len()
                &&& trace_after.faults != trace.faults ==> trace_after.asked == trace.asked + each(
                    out.take(k + 1),
                )
            },
{
    let out = images(f, vlr.items, chunks);
    if chunks_stopped(encode, vlr, chunks, sink, trace, sink_after, trace_after, e) {
        let (k, encoded) = choose|k: int, encoded: Seq<Seq<u8>>|
            0 <= k < chunks.len() && #[trigger] encodes_all(
                encode,
                vlr.items,
                chunks.take(k),
                encoded,
            ) && encodes(encode, vlr.items, chunks[k], Err::<Seq<u8>, std::io::Error>(e))
                && sink_after == sink.write(encoded.flatten()) && trace_after == trace.met(
                writes(encoded),
            );
        lemma_replies_are(encode, f, vlr.items, chunks.take(k), encoded);
        assert(encoded =~= out.take(k));
        assert(writes(encoded) =~= each(out.take(k)));
        lemma_refusal(encode, vlr.items, chunks, k, trace, trace_after, e);
        assert(trace_after.asked.take(trace.asked.len() as int) =~= trace.asked);
        let c = chunks[k];
    } else {
        let (k, encoded) = choose|k: int, encoded: Seq<Seq<u8>>|
            0 <= k < chunks.len() && encodes_all(encode, vlr.items, chunks.take(k + 1), encoded)
                && #[trigger] cut_at(encoded, k, sink, trace, sink_after, trace_after, e);
        lemma_replies_are(encode, f, vlr.items, chunks.take(k + 1), encoded);
        assert(encoded =~= out.take(k + 1));
        lemma_cut_at(encoded, k, sink, trace, sink_after, trace_after, e);
        assert(encoded.take(k) =~= out.take(k));
        assert(encoded.take(k + 1) =~= out.take(k + 1));
        assert(trace_after.faults.len() == trace.faults.len() + 1);
        let c = chunks[k];
    }
}

/// Of `plan`, and of nothing else, a first part was asked for.
pub open spec fn asked_first(trace: Trace, plan: Seq<Request>, trace_after: Trace) -> bool {
    let m = trace_after.asked.len() - trace.asked.len();
    &&& 0 <= m <= plan.len()
    &&& trace_after.asked =~= trace.asked + plan.take(m)
}

/// What was asked for is a first part of what comes to it.
proof fn lemma_asked_first(
    trace: Trace,
    asked: Seq<Request>,
    plan: Seq<Request>,
    trace_after: Trace,
)
    requires
        trace_after.asked == trace.asked + asked,
        asked.len() <= plan.len(),
        forall|i: int| 0 <= i < asked.len() ==> #[trigger] asked[i] == plan[i],
    ensures
        asked_first(trace, plan, trace_after),
{
    assert(asked =~= plan.take(asked.len() as int));
}

/// What a chunk that failed asked for, by an encoder that gives `f`.
proof fn lemma_failed_chunk_asked<C>(
    encode: C,
    f: spec_fn(Seq<LazItem>, Seq<u8>) -> Seq<u8>,
    vlr: VlrView,
    data: Seq<u8>,
    sink: Sink,
    trace: Trace,
    sink_after: Sink,
    trace_after: Trace,
    e: std::io::Error,
) where C: Fn(&[LazItem], &[u8]) -> std::io::Result<Vec<u8>>
    requires
        forall|i: &[LazItem], p: &[u8], r: std::io::Result<Vec<u8>>| #[trigger]
            call_ensures(encode, (i, p), r) ==> (r matches Ok(b) ==> b@ == f(i@, p@)),
        chunk_failed(encode, vlr, data, sink, trace, sink_after, trace_after, e),
    ensures
        asked_first(
            trace,
            seq![Request::Position, Request::Write(f(vlr.items, data)), Request::Position],
            trace_after,
        ),
        trace.asked.len() < trace_after.asked.len(),
{
    let out = f(vlr.items, data);
    let plan = seq![Request::Position, Request::Write(out), Request::Position];
    let looked = seq![Request::Position];
    if request_failed(sink, trace, Request::Position, sink_after, trace_after, e) {
        assert(trace_after.asked =~= trace.asked + looked);
        lemma_asked_first(trace, looked, plan, trace_after);
    } else if encodes(encode, vlr.items, data, Err::<Seq<u8>, std::io::Error>(e)) && sink_after
        == sink && trace_after == trace.met(looked) {
        lemma_asked_first(trace, looked, plan, trace_after);
    } else {
        let bytes = choose|bytes: Seq<u8>| #[trigger]
            encodes(encode, vlr.items, data, Ok::<Seq<u8>, std::io::Error>(bytes)) && {
                ||| request_failed(
                    sink,
                    trace.met(looked),
                    Request::Write(bytes),
                    sink_after,
                    trace_after,
                    e,
                )
                ||| request_failed(
                    sink.write(bytes),
                    trace.met(seq![Request::Position, Request::Write(bytes)]),
                    Request::Position,
                    sink_after,
                    trace_after,
                    e,
                )
            };
        assert(bytes == out);
        if request_failed(
            sink,
            trace.met(looked),
            Request::Write(bytes),
            sink_after,
            trace_after,
            e,
        ) {
            let two = seq![Request::Position, Request::Write(out)];
            assert(trace_after.asked =~= trace.asked + two);
            lemma_asked_first(trace, two, plan, trace_after);
        } else {
            assert(trace_after.asked =~= trace.asked + plan);
            lemma_asked_first(trace, plan, plan, trace_after);
        }
    }
}

/// A call that takes points and fails has asked the destination for a first part of what it asks
/// for when it does not, by an encoder that gives `f`, and for nothing else. An error is handed on
/// as it is where it came before the chunks behind the one that was waiting were dealt with, and
/// wrapped where it came with those.
pub proof fn law_refused_points_ask_no_more<C>(
    encode: C,
    f: spec_fn(Seq<LazItem>, Seq<u8>) -> Seq<u8>,
    before: CompressorState,
    trace: Trace,
    points: Seq<u8>,
    cs: Seq<Seq<u8>>,
    rest: Seq<u8>,
    after: CompressorState,
    trace_after: Trace,
    e: IoError,
) where C: Fn(&[LazItem], &[u8]) -> std::io::Result<Vec<u8>>
    requires
        forall|i: &[LazItem], p: &[u8], r: std::io::Result<Vec<u8>>| #[trigger]
            call_ensures(encode, (i, p), r) ==> (r matches Ok(b) ==> b@ == f(i@, p@)),
        before.table_offset == -1 ==> before.rest.len() == 0,
        is_full_cut(
            before.rest + points,
            (before.vlr.chunk_size * before.vlr.point_size()) as nat,
            cs,
            rest,
        ),
        points_refused(encode, before, trace, points, after, trace_after, e),
    ensures
        ({
            let out = images(f, before.vlr.items, cs);
            let place = if before.table_offset == -1 {
                place_at(before.sink.pos)
            } else {
                Seq::empty()
            };
            let first = if before.rest.len() > 0 && cs.len() > 0 {
                seq![Request::Position, Request::Write(out[0]), Request::Position]
            } else {
                Seq::empty()
            };
            let others = if before.rest.len() > 0 && cs.len() > 0 {
                each(out.skip(1))
            } else {
                each(out)
            };
            let asked = trace_after.asked.len() - trace.asked.len();
            &&& asked_first(trace, place + first + others, trace_after)
            &&& e is Direct ==> asked <= place.len() + first.len()
            &&& e is Other ==> asked >= place.len() + first.len()
        }),
{
    let size = before.vlr.chunk_bytes();
    let data = before.rest + points;
    let items = before.vlr.items;
    law_full_cut(data, (before.vlr.chunk_size * before.vlr.point_size()) as nat, cs, rest);
    let head = crate::compressor::completed_chunk(before.rest.len(), data, size);
    if data.len() >= size {
        if cs.len() == 0 {
            assert(cs.flatten() + rest =~= rest);
        }
        assert(cs.flatten() == cs[0] + cs.drop_first().flatten());
        assert(data.take(size as int) =~= cs[0]);
    }
    let out = images(f, items, cs);
    let place = if before.table_offset == -1 {
        place_at(before.sink.pos)
    } else {
        Seq::empty()
    };
    let first = if before.rest.len() > 0 && cs.len() > 0 {
        seq![Request::Position, Request::Write(out[0]), Request::Position]
    } else {
        Seq::empty()
    };
    let others = if before.rest.len() > 0 && cs.len() > 0 {
        each(out.skip(1))
    } else {
        each(out)
    };
    let plan = place + first + others;
    assert(crate::compressor::open_requests(before) =~= place);
    match e {
        IoError::Direct(x) => {
            if before.table_offset == -1 && reserve_failed(before, trace, after, trace_after, x) {
                if trace_after.asked.len() == trace.asked.len() + 1 {
                    assert(trace_after.asked =~= trace.asked + seq![Request::Position]);
                    lemma_asked_first(trace, seq![Request::Position], plan, trace_after);
                } else {
                    assert(trace_after.asked =~= trace.asked + place);
                    lemma_asked_first(trace, place, plan, trace_after);
                }
            } else {
                lemma_failed_chunk_asked(
                    encode,
                    f,
                    before.vlr,
                    cs[0],
                    before.sink,
                    trace,
                    after.sink,
                    trace_after,
                    x,
                );
                let m = trace_after.asked.len() - trace.asked.len();
                lemma_asked_first(trace, first.take(m), plan, trace_after);
            }
        },
        IoError::Other(x) => {
            let tail = full_chunks(data, size).skip(head.len() as int);
            let encoded = choose|encoded: Seq<Seq<u8>>| #[trigger]
                encodes_all(encode, items, head, encoded) && after.table == before.table
                    + crate::chunk_table::entries_of(before.vlr, head, encoded) && {
                    let sink = before.opened().sink.write(encoded.flatten());
                    let so_far = trace.met(
                        crate::compressor::open_requests(before)
                            + crate::compressor::single_requests(encoded),
                    );
                    ||| {
                        &&& refuses_some(encode, items, tail, x)
                        &&& after.sink == sink
                        &&& trace_after == so_far
                    }
                    ||| writing_failed(
                        encode,
                        before.vlr,
                        tail,
                        sink,
                        so_far,
                        after.sink,
                        trace_after,
                        x,
                    )
                };
            lemma_replies_are(encode, f, items, head, encoded);
            let sink = before.opened().sink.write(encoded.flatten());
            let so_far = trace.met(
                crate::compressor::open_requests(before) + crate::compressor::single_requests(
                    encoded,
                ),
            );
            assert(crate::compressor::single_requests(encoded) =~= first);
            assert(so_far.asked =~= trace.asked + (place + first));
            if refuses_some(encode, items, tail, x) && after.sink == sink && trace_after
                == so_far {
                lemma_asked_first(trace, place + first, plan, trace_after);
            } else {
                law_failed_writing(
                    encode,
                    f,
                    before.vlr,
                    tail,
                    sink,
                    so_far,
                    after.sink,
                    trace_after,
                    x,
                );
                let behind = images(f, items, tail);
                assert(behind =~= out.skip(head.len() as int));
                let k = trace_after.asked.len() - so_far.asked.len() - 1;
                let asked = place + first + each(behind.take(k + 1));
                assert(trace_after.asked =~= trace.asked + asked);
                assert forall|i: int| 0 <= i < asked.len() implies #[trigger] asked[i]
                    == plan[i] by {}
                lemma_asked_first(trace, asked, plan, trace_after);
            }
        },
    }
}

/// Finishing that fails has asked the destination for a first part of what it asks for when it
/// does not, by encoders that give `f` and `g`, and for nothing else.
#[verifier::rlimit(60)]
pub proof fn law_refused_finishing_asks_no_more<C, T>(
    encode: C,
    encode_table: T,
    f: spec_fn(Seq<LazItem>, Seq<u8>) -> Seq<u8>,
    g: spec_fn(Seq<ChunkTableEntry>, VlrView) -> Seq<u8>,
    before: CompressorState,
    trace: Trace,
    after: CompressorState,
    trace_after: Trace,
    x: std::io::Error,
) where
    C: Fn(&[LazItem], &[u8]) -> std::io::Result<Vec<u8>>,
    T: Fn(&ChunkTable, &LazVlr) -> std::io::Result<Vec<u8>>,

    requires
        forall|i: &[LazItem], p: &[u8], r: std::io::Result<Vec<u8>>| #[trigger]
            call_ensures(encode, (i, p), r) ==> (r matches Ok(b) ==> b@ == f(i@, p@)),
        forall|t: &ChunkTable, v: &LazVlr, r: std::io::Result<Vec<u8>>| #[trigger]
            call_ensures(encode_table, (t, v), r) ==> (r matches Ok(b) ==> b@ == g(t@, v@)),
        before.table_offset == -1 ==> before.rest.len() == 0 && before.sink.pos + 8 <= u64::MAX,
        finish_refused(encode, encode_table, before, trace, after, trace_after, x),
    ensures
        ({
            let out = f(before.vlr.items, before.rest);
            let last = if before.rest.len() == 0 {
                Seq::empty()
            } else {
                seq![Request::Position, Request::Write(out), Request::Position]
            };
            let place = if before.table_offset == -1 {
                place_at(before.sink.pos)
            } else {
                Seq::empty()
            };
            let at = if before.table_offset == -1 {
                before.sink.pos
            } else {
                (before.table_offset as u64) as nat
            };
            let end = (before.sink.pos + (if before.table_offset == -1 {
                8int
            } else {
                0int
            }) + (if before.rest.len() == 0 {
                0int
            } else {
                out.len() as int
            })) as nat;
            asked_first(
                trace,
                last + place + seq![
                    Request::Position,
                    Request::Seek(at),
                    Request::Write(le_bytes(end as i64)),
                    Request::Seek(end),
                    Request::Write(g(after.table, before.vlr)),
                ],
                trace_after,
            )
        }),
{
    let chunk = last_chunk(before.rest);
    let items = before.vlr.items;
    let out = f(items, before.rest);
    let last = if before.rest.len() == 0 {
        Seq::empty()
    } else {
        seq![Request::Position, Request::Write(out), Request::Position]
    };
    let place = if before.table_offset == -1 {
        place_at(before.sink.pos)
    } else {
        Seq::empty()
    };
    let at = if before.table_offset == -1 {
        before.sink.pos
    } else {
        (before.table_offset as u64) as nat
    };
    let end = (before.sink.pos + (if before.table_offset == -1 {
        8int
    } else {
        0int
    }) + (if before.rest.len() == 0 {
        0int
    } else {
        out.len() as int
    })) as nat;
    let five = seq![
        Request::Position,
        Request::Seek(at),
        Request::Write(le_bytes(end as i64)),
        Request::Seek(end),
        Request::Write(g(after.table, before.vlr)),
    ];
    let plan = last + place + five;
    if before.rest.len() > 0 && after.table == before.table && chunk_failed(
        encode,
        before.vlr,
        before.rest,
        before.sink,
        trace,
        after.sink,
        trace_after,
        x,
    ) {
        lemma_failed_chunk_asked(
            encode,
            f,
            before.vlr,
            before.rest,
            before.sink,
            trace,
            after.sink,
            trace_after,
            x,
        );
        let m = trace_after.asked.len() - trace.asked.len();
        lemma_asked_first(trace, last.take(m), plan, trace_after);
    } else if before.table_offset == -1 && reserve_failed(before, trace, after, trace_after, x) {
        if trace_after.asked.len() == trace.asked.len() + 1 {
            assert(trace_after.asked =~= trace.asked + seq![Request::Position]);
            lemma_asked_first(trace, seq![Request::Position], plan, trace_after);
        } else {
            assert(trace_after.asked =~= trace.asked + place);
            lemma_asked_first(trace, place, plan, trace_after);
        }
    } else {
        let encoded = choose|encoded: Seq<Seq<u8>>| #[trigger]
            encodes_all(encode, items, chunk, encoded) && {
                let written = before.opened().with_chunks(chunk, encoded);
                let so_far = trace.met(crate::compressor::last_requests(before, encoded));
                let stored = written.closed_with(Seq::empty());
                let trace_stored = so_far.met(
                    crate::chunk_table::offset_requests(written.table_place(), written.sink.pos),
                );
                &&& after.table == written.table
                &&& after.table_offset == written.table_offset
                &&& {
                    ||| crate::chunk_table::offset_failed(
                        written.table_place(),
                        written.sink,
                        so_far,
                        after.sink,
                        trace_after,
                        x,
                    )
                    ||| {
                        &&& encodes_table(
                            encode_table,
                            before.vlr,
                            written.table,
                            Err::<Seq<u8>, std::io::Error>(x),
                        )
                        &&& after == stored
                        &&& trace_after == trace_stored
                    }
                    ||| exists|table_bytes: Seq<u8>| #[trigger]
                        encodes_table(
                            encode_table,
                            before.vlr,
                            written.table,
                            Ok::<Seq<u8>, std::io::Error>(table_bytes),
                        ) && request_failed(
                            stored.sink,
                            trace_stored,
                            Request::Write(table_bytes),
                            after.sink,
                            trace_after,
                            x,
                        )
                }
            };
        lemma_replies_are(encode, f, items, chunk, encoded);
        let written = before.opened().with_chunks(chunk, encoded);
        let so_far = trace.met(crate::compressor::last_requests(before, encoded));
        let stored = written.closed_with(Seq::empty());
        let requests = crate::chunk_table::offset_requests(
            written.table_place(),
            written.sink.pos,
        );
        let trace_stored = so_far.met(requests);
        if before.table_offset == -1 {
            crate::codec::lemma_signed_offset(before.sink.pos as u64);
        }
        if before.rest.len() == 0 {
            assert(encoded =~= Seq::<Seq<u8>>::empty());
            assert(encoded.flatten() =~= Seq::<u8>::empty());
        } else {
            assert(encoded =~= seq![out]);
            encoded.lemma_flatten_singleton();
        }
        assert(crate::compressor::last_requests(before, encoded) =~= last + place);
        assert(written.sink.pos == end);
        assert(written.table_place() == at);
        assert(requests =~= five.take(4));
        let m = trace_after.asked.len() - so_far.asked.len();
        if crate::chunk_table::offset_failed(
            at,
            written.sink,
            so_far,
            after.sink,
            trace_after,
            x,
        ) {
            assert(trace_after.asked =~= so_far.asked + requests.take(m));
            assert(requests.take(m) =~= five.take(m));
        } else if trace_after == trace_stored {
            assert(trace_after.asked =~= so_far.asked + five.take(m));
        } else {
            let table_bytes = choose|table_bytes: Seq<u8>| #[trigger]
                encodes_table(
                    encode_table,
                    before.vlr,
                    written.table,
                    Ok::<Seq<u8>, std::io::Error>(table_bytes),
                ) && request_failed(
                    stored.sink,
                    trace_stored,
                    Request::Write(table_bytes),
                    after.sink,
                    trace_after,
                    x,
                );
            crate::format::law_written_table(
                encode_table,
                g,
                before.vlr,
                written.table,
                table_bytes,
            );
            assert(trace_after.asked =~= so_far.asked + five.take(m));
        }
        let asked = last + place + five.take(m);
        assert(trace_after.asked =~= trace.asked + asked);
        assert forall|i: int| 0 <= i < asked.len() implies #[trigger] asked[i] == plan[i] by {}
        lemma_asked_first(trace, asked, plan, trace_after);
    }
}

/// Writing a whole file that fails. The error is the destination's, the record encoder's for one
/// of the chunks, or the table encoder's for the table of the chunks; nothing before the place
/// where the file begins is changed.
pub proof fn law_failed_file<C, T>(
    encode: C,
    encode_table: T,
    vlr: VlrView,
    chunks: Seq<Seq<u8>>,
    before: Sink,
    trace: Trace,
    after: Sink,
    trace_after: Trace,
    e: std::io::Error,
) where
    C: Fn(&[LazItem], &[u8]) -> std::io::Result<Vec<u8>>,
    T: Fn(&ChunkTable, &LazVlr) -> std::io::Result<Vec<u8>>,

    requires
        file_failed(
            encode,
            encode_table,
            vlr,
            chunks,
            before,
            trace,
            after,
            trace_after,
            e,
        ),
    ensures
        ({
            ||| says_why(encode, vlr.items, chunks, trace, trace_after, e)
            ||| trace_after.faults == trace.faults && exists|table: Seq<ChunkTableEntry>|
                table.len() == chunks.len() && #[trigger] table_refused(
                    encode_table,
                    vlr,
                    table,
                    e,
                )
        }),
        forall|i: int|
            0 <= i < before.pos && i < before.bytes.len() ==> #[trigger] after.bytes[i]
                == before.bytes[i],
{
    let offset = le_bytes(before.pos as i64);
    let opened = before.write(offset);
    let trace_opened = trace.met(crate::chunk_table::reserve_requests(before.pos));
    let looked = seq![Request::Position];
    assert(offset.len() == 8);
    assert forall|i: int| 0 <= i < before.pos && i < before.bytes.len() implies #[trigger]
        opened.bytes[i] == before.bytes[i] by {}
    if request_failed(before, trace, Request::Position, after, trace_after, e) {
        law_failed_request(before, trace, Request::Position, after, trace_after, e);
    } else if request_failed(
        before,
        trace.met(looked),
        Request::Write(offset),
        after,
        trace_after,
        e,
    ) {
        law_failed_request(
            before,
            trace.met(looked),
            Request::Write(offset),
            after,
            trace_after,
            e,
        );
    } else if chunks_stopped(
        encode,
        vlr,
        chunks,
        opened,
        trace_opened,
        after,
        trace_after,
        e,
    ) {
        let (k, encoded) = choose|k: int, encoded: Seq<Seq<u8>>|
            0 <= k < chunks.len() && #[trigger] encodes_all(
                encode,
                vlr.items,
                chunks.take(k),
                encoded,
            ) && encodes(encode, vlr.items, chunks[k], Err::<Seq<u8>, std::io::Error>(e)) && after
                == opened.write(encoded.flatten()) && trace_after == trace_opened.met(
                writes(encoded),
            );
        lemma_refusal(encode, vlr.items, chunks, k, trace, trace_after, e);
        assert forall|i: int| 0 <= i < before.pos && i < before.bytes.len() implies #[trigger]
            after.bytes[i] == before.bytes[i] by {
            assert(opened.bytes[i] == before.bytes[i]);
        }
    } else if chunks_cut(encode, vlr, chunks, opened, trace_opened, after, trace_after, e) {
        let (k, encoded) = choose|k: int, encoded: Seq<Seq<u8>>|
            0 <= k < chunks.len() && encodes_all(encode, vlr.items, chunks.take(k + 1), encoded)
                && #[trigger] cut_at(encoded, k, opened, trace_opened, after, trace_after, e);
        lemma_cut_at(encoded, k, opened, trace_opened, after, trace_after, e);
        assert forall|i: int| 0 <= i < before.pos && i < before.bytes.len() implies #[trigger]
            after.bytes[i] == before.bytes[i] by {
            assert(opened.bytes[i] == before.bytes[i]);
        }
    } else {
        lemma_failed_end(encode, encode_table, vlr, chunks, before, trace, after, trace_after, e);
    }
}

/// Writing a whole file that fails when the chunks are written.
proof fn lemma_failed_end<C, T>(
    encode: C,
    encode_table: T,
    vlr: VlrView,
    chunks: Seq<Seq<u8>>,
    before: Sink,
    trace: Trace,
    after: Sink,
    trace_after: Trace,
    e: std::io::Error,
) where
    C: Fn(&[LazItem], &[u8]) -> std::io::Result<Vec<u8>>,
    T: Fn(&ChunkTable, &LazVlr) -> std::io::Result<Vec<u8>>,

    requires
        ({
            let opened = before.write(le_bytes(before.pos as i64));
            let trace_opened = trace.met(crate::chunk_table::reserve_requests(before.pos));
            exists|encoded: Seq<Seq<u8>>| #[trigger]
                encodes_all(encode, vlr.items, chunks, encoded) && {
                    let written = opened.write(encoded.flatten());
                    let trace_written = trace_opened.met(writes(encoded));
                    let stored = crate::parallel::file_written(
                        before,
                        encoded.flatten(),
                        Seq::empty(),
                    );
                    let trace_stored = trace_written.met(
                        crate::chunk_table::offset_requests(before.pos, written.pos),
                    );
                    let table = crate::chunk_table::entries_of(vlr, chunks, encoded);
                    ||| crate::chunk_table::offset_failed(
                        before.pos,
                        written,
                        trace_written,
                        after,
                        trace_after,
                        e,
                    )
                    ||| {
                        &&& encodes_table(
                            encode_table,
                            vlr,
                            table,
                            Err::<Seq<u8>, std::io::Error>(e),
                        )
                        &&& after == stored
                        &&& trace_after == trace_stored
                    }
                    ||| exists|table_bytes: Seq<u8>| #[trigger]
                        encodes_table(
                            encode_table,
                            vlr,
                            table,
                            Ok::<Seq<u8>, std::io::Error>(table_bytes),
                        ) && request_failed(
                            stored,
                            trace_stored,
                            Request::Write(table_bytes),
                            after,
                            trace_after,
                            e,
                        )
                }
        }),
    ensures
        trace_after.faults == trace.faults.push(e) || trace_after.faults == trace.faults
            && exists|table: Seq<ChunkTableEntry>|
            table.len() == chunks.len() && #[trigger] table_refused(encode_table, vlr, table, e),
        forall|i: int|
            0 <= i < before.pos && i < before.bytes.len() ==> #[trigger] after.bytes[i]
                == before.bytes[i],
{
    let opened = before.write(le_bytes(before.pos as i64));
    let trace_opened = trace.met(crate::chunk_table::reserve_requests(before.pos));
    let encoded = choose|encoded: Seq<Seq<u8>>| #[trigger]
        encodes_all(encode, vlr.items, chunks, encoded) && {
            let written = opened.write(encoded.flatten());
            let trace_written = trace_opened.met(writes(encoded));
            let stored = crate::parallel::file_written(before, encoded.flatten(), Seq::empty());
            let trace_stored = trace_written.met(
                crate::chunk_table::offset_requests(before.pos, written.pos),
            );
            let table = crate::chunk_table::entries_of(vlr, chunks, encoded);
            ||| crate::chunk_table::offset_failed(
                before.pos,
                written,
                trace_written,
                after,
                trace_after,
                e,
            )
            ||| {
                &&& encodes_table(encode_table, vlr, table, Err::<Seq<u8>, std::io::Error>(e))
                &&& after == stored
                &&& trace_after == trace_stored
            }
            ||| exists|table_bytes: Seq<u8>| #[trigger]
                encodes_table(
                    encode_table,
                    vlr,
                    table,
                    Ok::<Seq<u8>, std::io::Error>(table_bytes),
                ) && request_failed(
                    stored,
                    trace_stored,
                    Request::Write(table_bytes),
                    after,
                    trace_after,
                    e,
                )
        };
    let written = opened.write(encoded.flatten());
    let trace_written = trace_opened.met(writes(encoded));
    let stored = crate::parallel::file_written(before, encoded.flatten(), Seq::empty());
    let trace_stored = trace_written.met(
        crate::chunk_table::offset_requests(before.pos, written.pos),
    );
    let table = crate::chunk_table::entries_of(vlr, chunks, encoded);
    assert(le_bytes(before.pos as i64).len() == 8);
    assert forall|i: int| 0 <= i < before.pos && i < before.bytes.len() implies #[trigger]
        written.bytes[i] == before.bytes[i] && stored.bytes[i] == before.bytes[i] by {
        assert(opened.bytes[i] == before.bytes[i]);
    }
    if crate::chunk_table::offset_failed(
        before.pos,
        written,
        trace_written,
        after,
        trace_after,
        e,
    ) {
        lemma_offset_failed(before.pos, written, trace_written, after, trace_after, e);
        assert forall|i: int| 0 <= i < before.pos && i < before.bytes.len() implies #[trigger]
            after.bytes[i] == before.bytes[i] by {
            assert(written.bytes[i] == before.bytes[i]);
        }
    } else if encodes_table(encode_table, vlr, table, Err::<Seq<u8>, std::io::Error>(e)) && after
        == stored && trace_after == trace_stored {
        law_table_replies_are_of_calls(encode_table, vlr, table, Seq::empty(), e);
        assert(table_refused(encode_table, vlr, table, e));
        assert forall|i: int| 0 <= i < before.pos && i < before.bytes.len() implies #[trigger]
            after.bytes[i] == before.bytes[i] by {
            assert(written.bytes[i] == before.bytes[i]);
        }
    } else {
        let table_bytes = choose|table_bytes: Seq<u8>| #[trigger]
            encodes_table(
                encode_table,
                vlr,
                table,
                Ok::<Seq<u8>, std::io::Error>(table_bytes),
            ) && request_failed(
                stored,
                trace_stored,
                Request::Write(table_bytes),
                after,
                trace_after,
                e,
            );
        law_failed_request(
            stored,
            trace_stored,
            Request::Write(table_bytes),
            after,
            trace_after,
            e,
        );
        assert forall|i: int| 0 <= i < before.pos && i < before.bytes.len() implies #[trigger]
            after.bytes[i] == before.bytes[i] by {
            assert(written.bytes[i] == before.bytes[i]);
        }
    }
}

/// Through the trait, a compressor does what it does by itself.
pub proof fn law_through_the_trait<W, C, T>(
    before: ParLasZipCompressor<W, C, T>,
    points: Seq<u8>,
    after: ParLasZipCompressor<W, C, T>,
    e: IoError,
) where
    W: SeekSink,
    C: Fn(&[LazItem], &[u8]) -> std::io::Result<Vec<u8>> + Sync,
    T: Fn(&ChunkTable, &LazVlr) -> std::io::Result<Vec<u8>>,

    ensures
        before.can_compress(points) ==> before.takes(points),
        before.can_finish() ==> before.finishes(),
        ParLasZipCompressor::took(&before, points, &after, Ok::<(), LasZipError>(()))
            ==> points_taken(before.encoder(), before@, points, after@) && points_requested(
            before.encoder(),
            before@,
            before.dest().trace(),
            points,
            after@,
            after.dest().trace(),
        ),
        ParLasZipCompressor::took(
            &before,
            points,
            &after,
            Err::<(), LasZipError>(LasZipError::IoError(e)),
        ) ==> points_refused(
            before.encoder(),
            before@,
            before.dest().trace(),
            points,
            after@,
            after.dest().trace(),
            e,
        ),
        ParLasZipCompressor::ended(&before, &after, Ok::<(), LasZipError>(())) ==> finished(
            before.encoder(),
            before.table_encoder(),
            before@,
            after@,
        ) && finish_requested(
            before.encoder(),
            before.table_encoder(),
            before@,
            before.dest().trace(),
            after@,
            after.dest().trace(),
        ),
        ParLasZipCompressor::ended(
            &before,
            &after,
            Err::<(), LasZipError>(LasZipError::IoError(e)),
        ) ==> e is Direct && finish_refused(
            before.encoder(),
            before.table_encoder(),
            before@,
            before.dest().trace(),
            after@,
            after.dest().trace(),
            e->Direct_0,
        ),
{
}

} // verus!
