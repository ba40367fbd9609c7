//! What destinations hold, byte by byte, for encoders whose replies are known.

use crate::chunk_table::{ChunkTable, ChunkTableEntry};
use crate::chunking::{
    chunked, contents, full_chunks, last_chunk, leftover, lemma_chunked, lemma_chunked_append,
    lemma_first_chunk, lemma_one_chunk, lemma_short_data,
};
use crate::codec::{
    encodes, encodes_all, encodes_table, le_bytes, lemma_signed_offset, refuses_some,
};
use crate::compressor::{chunks_taken, finished, points_taken, CompressorState};
use crate::laws::{
    bytes_at, decoded, law_batches_become_a_file, law_chunk_stream_is_file,
    law_chunks_in_many_calls, law_empty_file, law_points_come_back, law_table_after_a_run, pieces,
    run, total_bytes,
};
use crate::parallel::{
    chunk_written, chunks_written, file_of_chunks, file_with_table, file_written,
};
use crate::sink::{Request, Sink, Trace};
use crate::vlr::{LazItem, LazVlr, VlrView};
use vstd::prelude::*;

verus! {

/// Writing moves the position behind the bytes, and puts each of them where it belongs. Bytes
/// before the position and behind the end of what is written stay, and zeros fill a gap before
/// the position. Seeking only moves the position.
pub proof fn law_writing(s: Sink, data: Seq<u8>, pos: nat, i: int)
    ensures
        s.write(data).pos == s.pos + data.len(),
        data.len() == 0 ==> s.write(data).bytes == s.bytes,
        data.len() > 0 ==> s.write(data).bytes.len() == if s.bytes.len() > s.pos + data.len() {
            s.bytes.len()
        } else {
            s.pos + data.len()
        },
        0 <= i < data.len() ==> s.write(data).bytes[s.pos + i] == data[i],
        0 <= i < s.pos && i < s.bytes.len() ==> s.write(data).bytes[i] == s.bytes[i],
        s.pos + data.len() <= i < s.bytes.len() ==> s.write(data).bytes[i] == s.bytes[i],
        data.len() > 0 && s.bytes.len() <= i < s.pos ==> s.write(data).bytes[i] == 0,
        s.seek(pos).bytes == s.bytes,
        s.seek(pos).pos == pos,
{
}

/// The number that eight bytes stand for, the least significant first.
pub open spec fn stored(bytes: Seq<u8>, at: int) -> int {
    bytes[at] + 0x100 * bytes[at + 1] + 0x1_0000 * bytes[at + 2] + 0x100_0000 * bytes[at + 3]
        + 0x1_0000_0000 * bytes[at + 4] + 0x100_0000_0000 * bytes[at + 5] + 0x1_0000_0000_0000
        * bytes[at + 6] + 0x100_0000_0000_0000 * bytes[at + 7]
}

/// An offset is stored in eight bytes, the least significant first; a negative number as what it
/// lacks to the number behind the largest that eight bytes can stand for.
pub proof fn law_offsets_are_little_endian(n: i64)
    ensures
        le_bytes(n).len() == 8,
        stored(le_bytes(n), 0) == if n >= 0 {
            n as int
        } else {
            n + 0x1_0000_0000_0000_0000
        },
{
    let u = n as u64;
    assert(u == ((u & 0xff) as u8) + 0x100 * (((u >> 8) & 0xff) as u8) + 0x1_0000 * (((u >> 16)
        & 0xff) as u8) + 0x100_0000 * (((u >> 24) & 0xff) as u8) + 0x1_0000_0000 * (((u >> 32)
        & 0xff) as u8) + 0x100_0000_0000 * (((u >> 40) & 0xff) as u8) + 0x1_0000_0000_0000 * (((u
        >> 48) & 0xff) as u8) + 0x100_0000_0000_0000 * (((u >> 56) & 0xff) as u8)) by (bit_vector);
    assert(n >= 0 ==> n as u64 == n) by (bit_vector);
    assert(n < 0 ==> n as u64 == n + 0x1_0000_0000_0000_0000) by (bit_vector);
}

/// What counts as a reply to a chunk is what a call of the record encoder with exactly the items
/// and the points of that chunk can return, and nothing else.
pub proof fn law_replies_are_of_calls<C>(
    encode: C,
    items: Seq<LazItem>,
    points: Seq<u8>,
    bytes: Seq<u8>,
    e: std::io::Error,
) where C: Fn(&[LazItem], &[u8]) -> std::io::Result<Vec<u8>>
    ensures
        encodes(encode, items, points, Ok::<Seq<u8>, std::io::Error>(bytes)) <==> exists|
            i: &[LazItem],
            p: &[u8],
            b: Vec<u8>,
        |
            i@ == items && p@ == points && b@ == bytes && #[trigger] call_ensures(
                encode,
                (i, p),
                Ok::<Vec<u8>, std::io::Error>(b),
            ),
        encodes(encode, items, points, Err::<Seq<u8>, std::io::Error>(e)) <==> exists|
            i: &[LazItem],
            p: &[u8],
        |
            i@ == items && p@ == points && #[trigger] call_ensures(
                encode,
                (i, p),
                Err::<Vec<u8>, std::io::Error>(e),
            ),
{
    if encodes(encode, items, points, Ok::<Seq<u8>, std::io::Error>(bytes)) {
        let (i, p, r) = choose|i: &[LazItem], p: &[u8], r: std::io::Result<Vec<u8>>|
            i@ == items && p@ == points && #[trigger] call_ensures(encode, (i, p), r)
                && crate::codec::reply(r) == Ok::<Seq<u8>, std::io::Error>(bytes);
        assert(call_ensures(encode, (i, p), Ok::<Vec<u8>, std::io::Error>(r->Ok_0)));
    }
    if encodes(encode, items, points, Err::<Seq<u8>, std::io::Error>(e)) {
        let (i, p, r) = choose|i: &[LazItem], p: &[u8], r: std::io::Result<Vec<u8>>|
            i@ == items && p@ == points && #[trigger] call_ensures(encode, (i, p), r)
                && crate::codec::reply(r) == Err::<Seq<u8>, std::io::Error>(e);
        assert(call_ensures(encode, (i, p), Err::<Vec<u8>, std::io::Error>(e)));
    }
}

/// What counts as a reply to a table is what a call of the table encoder with exactly that table
/// and description can return, and nothing else.
pub proof fn law_table_replies_are_of_calls<T>(
    encode_table: T,
    vlr: VlrView,
    table: Seq<ChunkTableEntry>,
    bytes: Seq<u8>,
    e: std::io::Error,
) where T: Fn(&ChunkTable, &LazVlr) -> std::io::Result<Vec<u8>>
    ensures
        encodes_table(encode_table, vlr, table, Ok::<Seq<u8>, std::io::Error>(bytes)) <==> exists|
            t: &ChunkTable,
            v: &LazVlr,
            b: Vec<u8>,
        |
            t@ == table && v@ == vlr && b@ == bytes && #[trigger] call_ensures(
                encode_table,
                (t, v),
                Ok::<Vec<u8>, std::io::Error>(b),
            ),
        encodes_table(encode_table, vlr, table, Err::<Seq<u8>, std::io::Error>(e)) <==> exists|
            t: &ChunkTable,
            v: &LazVlr,
        |
            t@ == table && v@ == vlr && #[trigger] call_ensures(
                encode_table,
                (t, v),
                Err::<Vec<u8>, std::io::Error>(e),
            ),
{
    if encodes_table(encode_table, vlr, table, Ok::<Seq<u8>, std::io::Error>(bytes)) {
        let (t, v, r) = choose|t: &ChunkTable, v: &LazVlr, r: std::io::Result<Vec<u8>>|
            t@ == table && v@ == vlr && #[trigger] call_ensures(encode_table, (t, v), r)
                && crate::codec::reply(r) == Ok::<Seq<u8>, std::io::Error>(bytes);
        assert(call_ensures(encode_table, (t, v), Ok::<Vec<u8>, std::io::Error>(r->Ok_0)));
    }
    if encodes_table(encode_table, vlr, table, Err::<Seq<u8>, std::io::Error>(e)) {
        let (t, v, r) = choose|t: &ChunkTable, v: &LazVlr, r: std::io::Result<Vec<u8>>|
            t@ == table && v@ == vlr && #[trigger] call_ensures(encode_table, (t, v), r)
                && crate::codec::reply(r) == Err::<Seq<u8>, std::io::Error>(e);
        assert(call_ensures(encode_table, (t, v), Err::<Vec<u8>, std::io::Error>(e)));
    }
}

/// All of `chunks` were replied to, and one of them was refused, in the plain sense.
pub proof fn law_replies_to_chunks<C>(
    encode: C,
    items: Seq<LazItem>,
    chunks: Seq<Seq<u8>>,
    encoded: Seq<Seq<u8>>,
    e: std::io::Error,
) where C: Fn(&[LazItem], &[u8]) -> std::io::Result<Vec<u8>>
    ensures
        encodes_all(encode, items, chunks, encoded) <==> encoded.len() == chunks.len() && forall|
            k: int,
        |
            0 <= k < chunks.len() ==> encodes(
                encode,
                items,
                #[trigger] chunks[k],
                Ok::<Seq<u8>, std::io::Error>(encoded[k]),
            ),
        refuses_some(encode, items, chunks, e) <==> exists|k: int|
            0 <= k < chunks.len() && encodes(
                encode,
                items,
                #[trigger] chunks[k],
                Err::<Seq<u8>, std::io::Error>(e),
            ),
{
}

/// Slices stand for what they hold, each in its place.
pub proof fn law_contents(slices: Seq<&[u8]>, k: int)
    ensures
        contents(slices).len() == slices.len(),
        0 <= k < slices.len() ==> contents(slices)[k] == slices[k]@,
{
}

/// `cs` are `points` cut into pieces of `size` bytes: one behind the other they are the points,
/// none is empty or too long, and all but the last are full.
pub open spec fn is_cut(points: Seq<u8>, size: nat, cs: Seq<Seq<u8>>) -> bool {
    &&& cs.flatten() == points
    &&& forall|k: int| 0 <= k < cs.len() ==> 0 < (#[trigger] cs[k]).len() <= size
    &&& forall|k: int| 0 <= k < cs.len() - 1 ==> (#[trigger] cs[k]).len() == size
}

/// There is one way to cut points, and it is the one that is used.
pub proof fn law_cut(points: Seq<u8>, size: nat, cs: Seq<Seq<u8>>)
    requires
        size > 0,
        is_cut(points, size, cs),
    ensures
        chunked(points, size) == cs,
    decreases cs.len(),
{
    if cs.len() == 0 {
        assert(points =~= Seq::<u8>::empty());
        lemma_short_data(points, size);
        assert(cs =~= Seq::<Seq<u8>>::empty());
    } else {
        let first = cs[0];
        let behind = cs.drop_first();
        assert(points == first + behind.flatten());
        if cs.len() == 1 {
            assert(behind =~= Seq::<Seq<u8>>::empty());
            assert(points =~= first);
            assert(cs =~= seq![first]);
            if first.len() < size {
                lemma_short_data(first, size);
            } else {
                lemma_one_chunk(first, size);
                lemma_chunked(first, size);
                assert(chunked(first, size) =~= cs);
            }
        } else {
            assert(first.len() == size);
            let tail = behind.flatten();
            assert(is_cut(tail, size, behind)) by {
                assert forall|k: int| 0 <= k < behind.len() implies 0 < (#[trigger] behind[k]).len()
                    <= size by {
                    assert(behind[k] == cs[k + 1]);
                }
                assert forall|k: int| 0 <= k < behind.len() - 1 implies (#[trigger] behind[k]).len()
                    == size by {
                    assert(behind[k] == cs[k + 1]);
                }
            }
            law_cut(tail, size, behind);
            lemma_one_chunk(first, size);
            lemma_chunked(first, size);
            assert(chunked(first, size) =~= seq![first]);
            vstd::arithmetic::div_mod::lemma_mod_self_0(size as int);
            lemma_chunked_append(first, tail, size);
            assert(seq![first] + behind =~= cs);
        }
    }
}

/// `cs` are the full pieces of `size` bytes that `points` hold, and `rest` is what they leave.
pub open spec fn is_full_cut(
    points: Seq<u8>,
    size: nat,
    cs: Seq<Seq<u8>>,
    rest: Seq<u8>,
) -> bool {
    &&& cs.flatten() + rest == points
    &&& forall|k: int| 0 <= k < cs.len() ==> (#[trigger] cs[k]).len() == size
    &&& rest.len() < size
}

/// There is one way to take the full pieces of points, and it is the one that is used.
pub proof fn law_full_cut(points: Seq<u8>, size: nat, cs: Seq<Seq<u8>>, rest: Seq<u8>)
    requires
        is_full_cut(points, size, cs, rest),
    ensures
        full_chunks(points, size) == cs,
        leftover(points, size) == rest,
    decreases cs.len(),
{
    if cs.len() == 0 {
        assert(points =~= rest);
        lemma_short_data(points, size);
        assert(cs =~= Seq::<Seq<u8>>::empty());
    } else {
        let first = cs[0];
        let behind = cs.drop_first();
        let tail = behind.flatten() + rest;
        assert(points =~= first + tail);
        assert(is_full_cut(tail, size, behind, rest)) by {
            assert forall|k: int| 0 <= k < behind.len() implies (#[trigger] behind[k]).len()
                == size by {
                assert(behind[k] == cs[k + 1]);
            }
        }
        law_full_cut(tail, size, behind, rest);
        lemma_first_chunk(first, tail, size);
        assert(seq![first] + behind =~= cs);
    }
}

/// What an encoder that gives `f` makes of chunks.
pub open spec fn images(
    f: spec_fn(Seq<LazItem>, Seq<u8>) -> Seq<u8>,
    items: Seq<LazItem>,
    chunks: Seq<Seq<u8>>,
) -> Seq<Seq<u8>> {
    Seq::new(chunks.len(), |k: int| f(items, chunks[k]))
}

/// The bytes of `data` stand in `file` from the offset `at` on.
pub open spec fn holds(file: Seq<u8>, at: int, data: Seq<u8>) -> bool {
    &&& 0 <= at
    &&& at + data.len() <= file.len()
    &&& forall|j: int| 0 <= j < data.len() ==> file[at + j] == #[trigger] data[j]
}

/// The bytes of `old_file` before `from` and from `to` on stand in `file` too.
pub open spec fn keeps(old_file: Seq<u8>, file: Seq<u8>, from: int, to: int) -> bool {
    &&& old_file.len() <= file.len()
    &&& forall|i: int|
        (0 <= i < from || to <= i) && i < old_file.len() ==> #[trigger] file[i] == old_file[i]
}

/// A reply of bytes of an encoder that gives `f`.
proof fn lemma_reply_is<C>(
    encode: C,
    f: spec_fn(Seq<LazItem>, Seq<u8>) -> Seq<u8>,
    items: Seq<LazItem>,
    points: Seq<u8>,
    bytes: Seq<u8>,
) where C: Fn(&[LazItem], &[u8]) -> std::io::Result<Vec<u8>>
    requires
        forall|i: &[LazItem], p: &[u8], r: std::io::Result<Vec<u8>>| #[trigger]
            call_ensures(encode, (i, p), r) ==> (r matches Ok(b) ==> b@ == f(i@, p@)),
        encodes(encode, items, points, Ok::<Seq<u8>, std::io::Error>(bytes)),
    ensures
        bytes == f(items, points),
        bytes.len() <= u64::MAX,
{
    let (i, p, r) = choose|i: &[LazItem], p: &[u8], r: std::io::Result<Vec<u8>>|
        i@ == items && p@ == points && #[trigger] call_ensures(encode, (i, p), r)
            && crate::codec::reply(r) == Ok::<Seq<u8>, std::io::Error>(bytes);
    let b = r->Ok_0;
    assert(b.len() == bytes.len());
}

/// The replies of an encoder that gives `f` to chunks.
pub proof fn lemma_replies_are<C>(
    encode: C,
    f: spec_fn(Seq<LazItem>, Seq<u8>) -> Seq<u8>,
    items: Seq<LazItem>,
    chunks: Seq<Seq<u8>>,
    encoded: Seq<Seq<u8>>,
) where C: Fn(&[LazItem], &[u8]) -> std::io::Result<Vec<u8>>
    requires
        forall|i: &[LazItem], p: &[u8], r: std::io::Result<Vec<u8>>| #[trigger]
            call_ensures(encode, (i, p), r) ==> (r matches Ok(b) ==> b@ == f(i@, p@)),
        encodes_all(encode, items, chunks, encoded),
    ensures
        encoded == images(f, items, chunks),
        forall|k: int| 0 <= k < encoded.len() ==> (#[trigger] encoded[k]).len() <= u64::MAX,
{
    assert forall|k: int| 0 <= k < encoded.len() implies #[trigger] encoded[k] == images(
        f,
        items,
        chunks,
    )[k] && encoded[k].len() <= u64::MAX by {
        let c = chunks[k];
        assert(encodes(encode, items, c, Ok::<Seq<u8>, std::io::Error>(encoded[k])));
        lemma_reply_is(encode, f, items, c, encoded[k]);
    }
    assert(encoded =~= images(f, items, chunks));
}

/// One chunk that is compressed by an encoder that gives `f`: behind the position stands exactly
/// what `f` gives for the items and for all points of the chunk, as long as it may be. Its number
/// of bytes is returned, and nothing else is asked of the destination than to write it, and for
/// the positions before and behind it.
pub proof fn law_one_chunk<C>(
    encode: C,
    f: spec_fn(Seq<LazItem>, Seq<u8>) -> Seq<u8>,
    vlr: VlrView,
    data: Seq<u8>,
    sink: Sink,
    trace: Trace,
    sink_after: Sink,
    trace_after: Trace,
    n: u64,
) where C: Fn(&[LazItem], &[u8]) -> std::io::Result<Vec<u8>>
    requires
        forall|i: &[LazItem], p: &[u8], r: std::io::Result<Vec<u8>>| #[trigger]
            call_ensures(encode, (i, p), r) ==> (r matches Ok(b) ==> b@ == f(i@, p@)),
        chunk_written(encode, vlr, data, sink, trace, sink_after, trace_after, n),
    ensures
        ({
            let out = f(vlr.items, data);
            &&& n == out.len()
            &&& sink_after.pos == sink.pos + out.len()
            &&& out.len() > 0 ==> holds(sink_after.bytes, sink.pos as int, out)
            &&& keeps(sink.bytes, sink_after.bytes, sink.pos as int, sink_after.pos as int)
            &&& trace_after.asked == trace.asked + seq![
                Request::Position,
                Request::Write(out),
                Request::Position,
            ]
            &&& trace_after.faults == trace.faults
        }),
{
    let bytes = choose|bytes: Seq<u8>| #[trigger]
        encodes(encode, vlr.items, data, Ok::<Seq<u8>, std::io::Error>(bytes)) && n == bytes.len()
            && sink_after == sink.write(bytes) && trace_after == trace.met(
            crate::parallel::chunk_requests(bytes),
        );
    lemma_reply_is(encode, f, vlr.items, data, bytes);
}

/// The table that is brought into its form by an encoder that gives `g` is the table itself, with
/// all that its entries say.
pub proof fn law_written_table<T>(
    encode_table: T,
    g: spec_fn(Seq<ChunkTableEntry>, VlrView) -> Seq<u8>,
    vlr: VlrView,
    table: Seq<ChunkTableEntry>,
    bytes: Seq<u8>,
) where T: Fn(&ChunkTable, &LazVlr) -> std::io::Result<Vec<u8>>
    requires
        forall|t: &ChunkTable, v: &LazVlr, r: std::io::Result<Vec<u8>>| #[trigger]
            call_ensures(encode_table, (t, v), r) ==> (r matches Ok(b) ==> b@ == g(t@, v@)),
        encodes_table(encode_table, vlr, table, Ok::<Seq<u8>, std::io::Error>(bytes)),
    ensures
        bytes == g(table, vlr),
{
}

/// `counts` are the numbers of points of chunks: of as many as a chunk of a fixed size is said to
/// hold, or else of those that the bytes of each chunk make up.
pub open spec fn are_counts(vlr: VlrView, chunks: Seq<Seq<u8>>, counts: Seq<nat>) -> bool {
    &&& counts.len() == chunks.len()
    &&& forall|k: int|
        0 <= k < chunks.len() ==> if vlr.chunk_size == u32::MAX {
            (#[trigger] counts[k]) * vlr.point_size() <= chunks[k].len() < (counts[k] + 1)
                * vlr.point_size()
        } else {
            counts[k] == vlr.chunk_size
        }
}

/// The table of chunks of `counts` points that take the bytes of `out`.
pub open spec fn table_of(counts: Seq<nat>, out: Seq<Seq<u8>>) -> Seq<ChunkTableEntry> {
    Seq::new(
        counts.len(),
        |k: int|
            ChunkTableEntry { point_count: counts[k] as u64, byte_count: out[k].len() as u64 },
    )
}

/// The entries of chunks count their points and bytes.
proof fn lemma_entries_are(
    vlr: VlrView,
    chunks: Seq<Seq<u8>>,
    encoded: Seq<Seq<u8>>,
    counts: Seq<nat>,
)
    requires
        are_counts(vlr, chunks, counts),
        encoded.len() == chunks.len(),
    ensures
        crate::chunk_table::entries_of(vlr, chunks, encoded) == table_of(counts, encoded),
{
    let entries = crate::chunk_table::entries_of(vlr, chunks, encoded);
    assert forall|k: int| 0 <= k < chunks.len() implies #[trigger] entries[k] == table_of(
        counts,
        encoded,
    )[k] by {
        let n = counts[k] as int;
        let p = vlr.point_size() as int;
        let len = chunks[k].len() as int;
        if vlr.chunk_size == u32::MAX {
            assert(n * p <= len < (n + 1) * p);
            assert(p > 0 && 0 <= len - n * p < p) by (nonlinear_arith)
                requires
                    n * p <= len < (n + 1) * p,
                    p >= 0,
            ;
            vstd::arithmetic::div_mod::lemma_fundamental_div_mod_converse(
                len,
                p,
                n,
                len - n * p,
            );
        } else {
            assert(counts[k] == vlr.chunk_size);
        }
    }
    assert(entries =~= table_of(counts, encoded));
}

/// Chunks that are compressed by an encoder that gives `f`: behind the position stands what `f`
/// gives for each chunk, one behind the other in the order of the chunks, each is handed over by
/// itself, and each has an entry with its number of points and bytes.
pub proof fn law_chunks<C>(
    encode: C,
    f: spec_fn(Seq<LazItem>, Seq<u8>) -> Seq<u8>,
    vlr: VlrView,
    chunks: Seq<Seq<u8>>,
    counts: Seq<nat>,
    sink: Sink,
    trace: Trace,
    sink_after: Sink,
    trace_after: Trace,
    table: Seq<ChunkTableEntry>,
) where C: Fn(&[LazItem], &[u8]) -> std::io::Result<Vec<u8>>
    requires
        forall|i: &[LazItem], p: &[u8], r: std::io::Result<Vec<u8>>| #[trigger]
            call_ensures(encode, (i, p), r) ==> (r matches Ok(b) ==> b@ == f(i@, p@)),
        are_counts(vlr, chunks, counts),
        chunks_written(encode, vlr, chunks, sink, trace, sink_after, trace_after, table),
    ensures
        ({
            let out = images(f, vlr.items, chunks);
            &&& table == table_of(counts, out)
            &&& sink_after.pos == sink.pos + out.flatten().len()
            &&& out.flatten().len() > 0 ==> holds(
                sink_after.bytes,
                sink.pos as int,
                out.flatten(),
            )
            &&& keeps(sink.bytes, sink_after.bytes, sink.pos as int, sink_after.pos as int)
            &&& trace_after.asked == trace.asked + Seq::new(
                out.len(),
                |k: int| Request::Write(out[k]),
            )
            &&& trace_after.faults == trace.faults
        }),
{
    let encoded = choose|encoded: Seq<Seq<u8>>| #[trigger]
        encodes_all(encode, vlr.items, chunks, encoded) && table
            == crate::chunk_table::entries_of(vlr, chunks, encoded) && sink_after == sink.write(
            encoded.flatten(),
        ) && trace_after == trace.met(crate::sink::writes(encoded));
    lemma_replies_are(encode, f, vlr.items, chunks, encoded);
    lemma_entries_are(vlr, chunks, encoded, counts);
    assert(crate::sink::writes(encoded) =~= Seq::new(
        encoded.len(),
        |k: int| Request::Write(encoded[k]),
    ));
}

/// Points that are compressed at once, without the offset and the table: the chunks are the points
/// cut into pieces of as many bytes as the points of one chunk take.
pub proof fn law_points_at_once<C>(
    encode: C,
    f: spec_fn(Seq<LazItem>, Seq<u8>) -> Seq<u8>,
    vlr: VlrView,
    points: Seq<u8>,
    cs: Seq<Seq<u8>>,
    sink: Sink,
    trace: Trace,
    sink_after: Sink,
    trace_after: Trace,
    table: Seq<ChunkTableEntry>,
) where C: Fn(&[LazItem], &[u8]) -> std::io::Result<Vec<u8>>
    requires
        forall|i: &[LazItem], p: &[u8], r: std::io::Result<Vec<u8>>| #[trigger]
            call_ensures(encode, (i, p), r) ==> (r matches Ok(b) ==> b@ == f(i@, p@)),
        vlr.chunk_size != u32::MAX,
        vlr.chunk_size * vlr.point_size() > 0,
        is_cut(points, (vlr.chunk_size * vlr.point_size()) as nat, cs),
        chunks_written(
            encode,
            vlr,
            chunked(points, vlr.chunk_bytes()),
            sink,
            trace,
            sink_after,
            trace_after,
            table,
        ),
    ensures
        ({
            let out = images(f, vlr.items, cs);
            &&& table == table_of(Seq::new(cs.len(), |k: int| vlr.chunk_size as nat), out)
            &&& sink_after.pos == sink.pos + out.flatten().len()
            &&& out.flatten().len() > 0 ==> holds(
                sink_after.bytes,
                sink.pos as int,
                out.flatten(),
            )
            &&& keeps(sink.bytes, sink_after.bytes, sink.pos as int, sink_after.pos as int)
            &&& trace_after.asked == trace.asked + Seq::new(
                out.len(),
                |k: int| Request::Write(out[k]),
            )
            &&& trace_after.faults == trace.faults
        }),
{
    law_cut(points, (vlr.chunk_size * vlr.point_size()) as nat, cs);
    let counts = Seq::new(cs.len(), |k: int| vlr.chunk_size as nat);
    law_chunks(
        encode,
        f,
        vlr,
        cs,
        counts,
        sink,
        trace,
        sink_after,
        trace_after,
        table,
    );
}

/// Between `start` and `after` stands a whole file: eight bytes that give the position of the
/// table, the least significant first, then what the chunks were compressed to, one behind the
/// other, and then the table. What stood before and behind is kept.
pub open spec fn is_file(start: Sink, after: Sink, out: Seq<Seq<u8>>, table_bytes: Seq<u8>) -> bool {
    let end = start.pos + 8 + out.flatten().len();
    &&& after.pos == end + table_bytes.len()
    &&& end <= i64::MAX ==> stored(after.bytes, start.pos as int) == end
    &&& holds(after.bytes, start.pos as int + 8, out.flatten())
    &&& holds(after.bytes, end as int, table_bytes)
    &&& keeps(start.bytes, after.bytes, start.pos as int, after.pos as int)
}

/// Bytes that stand somewhere store what they store by themselves.
proof fn lemma_stored(file: Seq<u8>, at: int, n: i64)
    requires
        holds(file, at, le_bytes(n)),
    ensures
        n >= 0 ==> stored(file, at) == n,
{
    let b = le_bytes(n);
    law_offsets_are_little_endian(n);
    assert(file[at + 0] == b[0]);
    assert(file[at + 1] == b[1]);
    assert(file[at + 2] == b[2]);
    assert(file[at + 3] == b[3]);
    assert(file[at + 4] == b[4]);
    assert(file[at + 5] == b[5]);
    assert(file[at + 6] == b[6]);
    assert(file[at + 7] == b[7]);
}

/// What stands in a file that is written as a whole.
proof fn lemma_is_file(start: Sink, out: Seq<Seq<u8>>, table_bytes: Seq<u8>)
    ensures
        is_file(start, file_written(start, out.flatten(), table_bytes), out, table_bytes),
{
    let flat = out.flatten();
    let end = start.pos + 8 + flat.len();
    let after = file_written(start, flat, table_bytes);
    assert(holds(after.bytes, start.pos as int, le_bytes(end as i64)));
    lemma_stored(after.bytes, start.pos as int, end as i64);
    assert(holds(after.bytes, start.pos as int + 8, flat));
    assert(holds(after.bytes, end as int, table_bytes));
}

/// Points that are compressed at once into a whole file, by encoders that give `f` and `g`: the
/// file holds what `f` gives for the points cut into pieces of as many bytes as the points of one
/// chunk take, and what `g` gives for the table of them, which says of each chunk how many points
/// a chunk has and how many bytes it takes.
pub proof fn law_file_of_points<C, T>(
    encode: C,
    encode_table: T,
    f: spec_fn(Seq<LazItem>, Seq<u8>) -> Seq<u8>,
    g: spec_fn(Seq<ChunkTableEntry>, VlrView) -> Seq<u8>,
    vlr: VlrView,
    points: Seq<u8>,
    cs: Seq<Seq<u8>>,
    start: Sink,
    after: Sink,
) where
    C: Fn(&[LazItem], &[u8]) -> std::io::Result<Vec<u8>>,
    T: Fn(&ChunkTable, &LazVlr) -> std::io::Result<Vec<u8>>,

    requires
        forall|i: &[LazItem], p: &[u8], r: std::io::Result<Vec<u8>>| #[trigger]
            call_ensures(encode, (i, p), r) ==> (r matches Ok(b) ==> b@ == f(i@, p@)),
        forall|t: &ChunkTable, v: &LazVlr, r: std::io::Result<Vec<u8>>| #[trigger]
            call_ensures(encode_table, (t, v), r) ==> (r matches Ok(b) ==> b@ == g(t@, v@)),
        vlr.chunk_size != u32::MAX,
        vlr.chunk_size * vlr.point_size() > 0,
        is_cut(points, (vlr.chunk_size * vlr.point_size()) as nat, cs),
        file_of_chunks(
            encode,
            encode_table,
            vlr,
            chunked(points, vlr.chunk_bytes()),
            start,
            after,
        ),
    ensures
        ({
            let out = images(f, vlr.items, cs);
            let counts = Seq::new(cs.len(), |k: int| vlr.chunk_size as nat);
            is_file(start, after, out, g(table_of(counts, out), vlr))
        }),
{
    law_cut(points, (vlr.chunk_size * vlr.point_size()) as nat, cs);
    let counts = Seq::new(cs.len(), |k: int| vlr.chunk_size as nat);
    law_file_of_chunks(encode, encode_table, f, g, vlr, cs, counts, start, after);
}

/// Chunks in a whole file, by encoders that give `f` and `g`.
pub proof fn law_file_of_chunks<C, T>(
    encode: C,
    encode_table: T,
    f: spec_fn(Seq<LazItem>, Seq<u8>) -> Seq<u8>,
    g: spec_fn(Seq<ChunkTableEntry>, VlrView) -> Seq<u8>,
    vlr: VlrView,
    chunks: Seq<Seq<u8>>,
    counts: Seq<nat>,
    start: Sink,
    after: Sink,
) where
    C: Fn(&[LazItem], &[u8]) -> std::io::Result<Vec<u8>>,
    T: Fn(&ChunkTable, &LazVlr) -> std::io::Result<Vec<u8>>,

    requires
        forall|i: &[LazItem], p: &[u8], r: std::io::Result<Vec<u8>>| #[trigger]
            call_ensures(encode, (i, p), r) ==> (r matches Ok(b) ==> b@ == f(i@, p@)),
        forall|t: &ChunkTable, v: &LazVlr, r: std::io::Result<Vec<u8>>| #[trigger]
            call_ensures(encode_table, (t, v), r) ==> (r matches Ok(b) ==> b@ == g(t@, v@)),
        are_counts(vlr, chunks, counts),
        file_of_chunks(encode, encode_table, vlr, chunks, start, after),
    ensures
        ({
            let out = images(f, vlr.items, chunks);
            is_file(start, after, out, g(table_of(counts, out), vlr))
        }),
{
    let (encoded, table_bytes) = choose|encoded: Seq<Seq<u8>>, table_bytes: Seq<u8>| #[trigger]
        encodes_all(encode, vlr.items, chunks, encoded) && #[trigger] encodes_table(
            encode_table,
            vlr,
            crate::chunk_table::entries_of(vlr, chunks, encoded),
            Ok::<Seq<u8>, std::io::Error>(table_bytes),
        ) && after == file_written(start, encoded.flatten(), table_bytes);
    lemma_replies_are(encode, f, vlr.items, chunks, encoded);
    lemma_entries_are(vlr, chunks, encoded, counts);
    law_written_table(encode_table, g, vlr, table_of(counts, encoded), table_bytes);
    lemma_is_file(start, encoded, table_bytes);
}

/// A table in a whole file of chunks is the table of them.
proof fn lemma_held_table<C, T>(
    encode: C,
    encode_table: T,
    f: spec_fn(Seq<LazItem>, Seq<u8>) -> Seq<u8>,
    vlr: VlrView,
    chunks: Seq<Seq<u8>>,
    counts: Seq<nat>,
    start: Sink,
    after: Sink,
    table: Seq<ChunkTableEntry>,
) where
    C: Fn(&[LazItem], &[u8]) -> std::io::Result<Vec<u8>>,
    T: Fn(&ChunkTable, &LazVlr) -> std::io::Result<Vec<u8>>,

    requires
        forall|i: &[LazItem], p: &[u8], r: std::io::Result<Vec<u8>>| #[trigger]
            call_ensures(encode, (i, p), r) ==> (r matches Ok(b) ==> b@ == f(i@, p@)),
        are_counts(vlr, chunks, counts),
        file_with_table(encode, encode_table, vlr, chunks, start, after, table),
    ensures
        table == table_of(counts, images(f, vlr.items, chunks)),
{
    let (encoded, table_bytes) = choose|encoded: Seq<Seq<u8>>, table_bytes: Seq<u8>| #[trigger]
        encodes_all(encode, vlr.items, chunks, encoded) && #[trigger] encodes_table(
            encode_table,
            vlr,
            table,
            Ok::<Seq<u8>, std::io::Error>(table_bytes),
        ) && table == crate::chunk_table::entries_of(vlr, chunks, encoded) && after
            == file_written(start, encoded.flatten(), table_bytes);
    lemma_replies_are(encode, f, vlr.items, chunks, encoded);
    lemma_entries_are(vlr, chunks, encoded, counts);
}

/// Points that a new compressor takes, in any number of calls, and that are then finished, by
/// encoders that give `f` and `g`: the same file, and the compressor holds the table in it.
pub proof fn law_file_of_batches<C, T>(
    encode: C,
    encode_table: T,
    f: spec_fn(Seq<LazItem>, Seq<u8>) -> Seq<u8>,
    g: spec_fn(Seq<ChunkTableEntry>, VlrView) -> Seq<u8>,
    vlr: VlrView,
    start: Sink,
    batches: Seq<Seq<u8>>,
    cs: Seq<Seq<u8>>,
    states: Seq<CompressorState>,
    end: CompressorState,
) where
    C: Fn(&[LazItem], &[u8]) -> std::io::Result<Vec<u8>>,
    T: Fn(&ChunkTable, &LazVlr) -> std::io::Result<Vec<u8>>,

    requires
        forall|i: &[LazItem], p: &[u8], r: std::io::Result<Vec<u8>>| #[trigger]
            call_ensures(encode, (i, p), r) ==> (r matches Ok(b) ==> b@ == f(i@, p@)),
        forall|t: &ChunkTable, v: &LazVlr, r: std::io::Result<Vec<u8>>| #[trigger]
            call_ensures(encode_table, (t, v), r) ==> (r matches Ok(b) ==> b@ == g(t@, v@)),
        vlr.chunk_size != u32::MAX,
        vlr.chunk_size * vlr.point_size() > 0,
        is_cut(batches.flatten(), (vlr.chunk_size * vlr.point_size()) as nat, cs),
        states.len() == batches.len() + 1,
        states[0] == CompressorState::fresh(vlr, start),
        forall|k: int|
            0 <= k < batches.len() ==> points_taken(
                encode,
                states[k],
                #[trigger] batches[k],
                states[k + 1],
            ),
        finished(encode, encode_table, states.last(), end),
    ensures
        ({
            let out = images(f, vlr.items, cs);
            let counts = Seq::new(cs.len(), |k: int| vlr.chunk_size as nat);
            &&& end.table == table_of(counts, out)
            &&& is_file(start, end.sink, out, g(end.table, vlr))
        }),
{
    law_cut(batches.flatten(), (vlr.chunk_size * vlr.point_size()) as nat, cs);
    let counts = Seq::new(cs.len(), |k: int| vlr.chunk_size as nat);
    law_batches_become_a_file(encode, encode_table, vlr, start, batches, states, end);
    law_file_of_chunks(encode, encode_table, f, g, vlr, cs, counts, start, end.sink);
    lemma_held_table(encode, encode_table, f, vlr, cs, counts, start, end.sink, end.table);
}

/// Chunks of a size of their own that a new compressor takes, in any number of calls, and that are
/// then finished, by encoders that give `f` and `g`: the file holds what `f` gives for each of
/// them, in their order, and what `g` gives for the table of them, which counts the points and
/// the bytes of each, and which the compressor holds.
pub proof fn law_file_of_chunk_batches<C, T>(
    encode: C,
    encode_table: T,
    f: spec_fn(Seq<LazItem>, Seq<u8>) -> Seq<u8>,
    g: spec_fn(Seq<ChunkTableEntry>, VlrView) -> Seq<u8>,
    vlr: VlrView,
    start: Sink,
    batches: Seq<Seq<Seq<u8>>>,
    counts: Seq<nat>,
    states: Seq<CompressorState>,
    end: CompressorState,
) where
    C: Fn(&[LazItem], &[u8]) -> std::io::Result<Vec<u8>>,
    T: Fn(&ChunkTable, &LazVlr) -> std::io::Result<Vec<u8>>,

    requires
        forall|i: &[LazItem], p: &[u8], r: std::io::Result<Vec<u8>>| #[trigger]
            call_ensures(encode, (i, p), r) ==> (r matches Ok(b) ==> b@ == f(i@, p@)),
        forall|t: &ChunkTable, v: &LazVlr, r: std::io::Result<Vec<u8>>| #[trigger]
            call_ensures(encode_table, (t, v), r) ==> (r matches Ok(b) ==> b@ == g(t@, v@)),
        are_counts(vlr, batches.flatten(), counts),
        states.len() == batches.len() + 1,
        states[0] == CompressorState::fresh(vlr, start),
        forall|k: int|
            0 <= k < batches.len() ==> chunks_taken(
                encode,
                states[k],
                #[trigger] batches[k],
                states[k + 1],
            ),
        finished(encode, encode_table, states.last(), end),
    ensures
        ({
            let out = images(f, vlr.items, batches.flatten());
            &&& end.table == table_of(counts, out)
            &&& is_file(start, end.sink, out, g(end.table, vlr))
        }),
{
    let chunks = batches.flatten();
    if batches.len() == 0 {
        law_empty_file(encode, encode_table, vlr, start, end);
        assert(chunks =~= Seq::<Seq<u8>>::empty());
    } else {
        law_chunks_in_many_calls(encode, batches, states);
        law_chunk_stream_is_file(encode, encode_table, vlr, start, chunks, states.last(), end);
    }
    law_file_of_chunks(encode, encode_table, f, g, vlr, chunks, counts, start, end.sink);
    lemma_held_table(encode, encode_table, f, vlr, chunks, counts, start, end.sink, end.table);
}

/// A new compressor has done nothing yet.
pub proof fn law_new_compressor(vlr: VlrView, sink: Sink)
    ensures
        CompressorState::fresh(vlr, sink).vlr == vlr,
        CompressorState::fresh(vlr, sink).table.len() == 0,
        CompressorState::fresh(vlr, sink).table_offset == -1,
        CompressorState::fresh(vlr, sink).rest.len() == 0,
        CompressorState::fresh(vlr, sink).sink == sink,
{
}

/// `after` comes from `before` by reserving eight bytes at the position, where none are reserved,
/// which then give that position, and by writing what chunks were compressed to behind them, with
/// entries of `table` behind those that there were.
pub open spec fn is_extended(
    before: CompressorState,
    after: CompressorState,
    out: Seq<Seq<u8>>,
    table: Seq<ChunkTableEntry>,
) -> bool {
    let here = before.sink.pos as int;
    let base = if before.table_offset == -1 {
        here + 8
    } else {
        here
    };
    let flat = out.flatten();
    &&& after.vlr == before.vlr
    &&& after.table == before.table + table
    &&& before.table_offset != -1 ==> after.table_offset == before.table_offset
    &&& before.table_offset == -1 ==> {
        &&& here + 8 <= u64::MAX
        &&& after.table_offset != -1
        &&& here <= i64::MAX ==> after.table_offset == here
        &&& here + 8 <= after.sink.bytes.len()
        &&& here <= i64::MAX ==> stored(after.sink.bytes, here) == here
    }
    &&& after.sink.pos == base + flat.len()
    &&& flat.len() > 0 ==> holds(after.sink.bytes, base, flat)
    &&& keeps(before.sink.bytes, after.sink.bytes, here, after.sink.pos as int)
}

/// Chunks behind a place that is reserved, where none is.
proof fn lemma_is_extended(
    before: CompressorState,
    chunks: Seq<Seq<u8>>,
    out: Seq<Seq<u8>>,
)
    requires
        before.has_place(),
    ensures
        is_extended(
            before,
            before.opened().with_chunks(chunks, out),
            out,
            crate::chunk_table::entries_of(before.vlr, chunks, out),
        ),
{
    let after = before.opened().with_chunks(chunks, out);
    let here = before.sink.pos;
    if before.table_offset == -1 {
        lemma_signed_offset(here as u64);
        assert(holds(after.sink.bytes, here as int, le_bytes(here as i64)));
        lemma_stored(after.sink.bytes, here as int, here as i64);
    }
}

/// A call that takes points, by an encoder that gives `f`: with those that wait, the points are
/// cut into full pieces of as many bytes as the points of one chunk take, which are written, each
/// with its entry; what is left waits.
pub proof fn law_points_in_a_call<C>(
    encode: C,
    f: spec_fn(Seq<LazItem>, Seq<u8>) -> Seq<u8>,
    before: CompressorState,
    points: Seq<u8>,
    cs: Seq<Seq<u8>>,
    rest: Seq<u8>,
    after: CompressorState,
) where C: Fn(&[LazItem], &[u8]) -> std::io::Result<Vec<u8>>
    requires
        forall|i: &[LazItem], p: &[u8], r: std::io::Result<Vec<u8>>| #[trigger]
            call_ensures(encode, (i, p), r) ==> (r matches Ok(b) ==> b@ == f(i@, p@)),
        before.vlr.chunk_size != u32::MAX,
        is_full_cut(
            before.rest + points,
            (before.vlr.chunk_size * before.vlr.point_size()) as nat,
            cs,
            rest,
        ),
        points_taken(encode, before, points, after),
    ensures
        ({
            let out = images(f, before.vlr.items, cs);
            let counts = Seq::new(cs.len(), |k: int| before.vlr.chunk_size as nat);
            &&& after.rest == rest
            &&& is_extended(before, after, out, table_of(counts, out))
        }),
{
    let size = before.vlr.chunk_bytes();
    let data = before.rest + points;
    law_full_cut(data, (before.vlr.chunk_size * before.vlr.point_size()) as nat, cs, rest);
    let encoded = choose|encoded: Seq<Seq<u8>>| #[trigger]
        encodes_all(encode, before.vlr.items, full_chunks(data, size), encoded) && after == (
        CompressorState {
            rest: leftover(data, size),
            ..before.opened().with_chunks(full_chunks(data, size), encoded)
        });
    let counts = Seq::new(cs.len(), |k: int| before.vlr.chunk_size as nat);
    lemma_replies_are(encode, f, before.vlr.items, cs, encoded);
    lemma_entries_are(before.vlr, cs, encoded, counts);
    lemma_is_extended(before, cs, encoded);
}

/// A call that takes chunks, by an encoder that gives `f`: they are written in their order, each
/// with its entry.
pub proof fn law_chunks_in_a_call<C>(
    encode: C,
    f: spec_fn(Seq<LazItem>, Seq<u8>) -> Seq<u8>,
    before: CompressorState,
    chunks: Seq<Seq<u8>>,
    counts: Seq<nat>,
    after: CompressorState,
) where C: Fn(&[LazItem], &[u8]) -> std::io::Result<Vec<u8>>
    requires
        forall|i: &[LazItem], p: &[u8], r: std::io::Result<Vec<u8>>| #[trigger]
            call_ensures(encode, (i, p), r) ==> (r matches Ok(b) ==> b@ == f(i@, p@)),
        are_counts(before.vlr, chunks, counts),
        chunks_taken(encode, before, chunks, after),
    ensures
        ({
            let out = images(f, before.vlr.items, chunks);
            &&& after.rest == before.rest
            &&& is_extended(before, after, out, table_of(counts, out))
        }),
{
    let encoded = choose|encoded: Seq<Seq<u8>>| #[trigger]
        encodes_all(encode, before.vlr.items, chunks, encoded) && after
            == before.opened().with_chunks(chunks, encoded);
    lemma_replies_are(encode, f, before.vlr.items, chunks, encoded);
    lemma_entries_are(before.vlr, chunks, encoded, counts);
    lemma_is_extended(before, chunks, encoded);
}

/// Reserving by hand is taking nothing: eight bytes are reserved at the position, and give it.
pub proof fn law_reserving(before: CompressorState)
    requires
        before.table_offset == -1,
        before.sink.pos + 8 <= u64::MAX,
    ensures
        is_extended(before, before.reserved(), Seq::empty(), Seq::empty()),
        before.reserved().rest == before.rest,
{
    let none = Seq::<Seq<u8>>::empty();
    lemma_is_extended(before, none, none);
    crate::compressor::lemma_with_no_chunks(before.reserved());
    assert(crate::chunk_table::entries_of(before.vlr, none, none) =~= Seq::<
        ChunkTableEntry,
    >::empty());
}

/// Finishing, by encoders that give `f` and `g`: what waits is written as the last chunk, with an
/// entry that says how many points a chunk has and how many bytes it takes; behind it stands what
/// `g` gives for the whole table; and the eight reserved bytes give the position of that.
pub proof fn law_finishing<C, T>(
    encode: C,
    encode_table: T,
    f: spec_fn(Seq<LazItem>, Seq<u8>) -> Seq<u8>,
    g: spec_fn(Seq<ChunkTableEntry>, VlrView) -> Seq<u8>,
    before: CompressorState,
    after: CompressorState,
) where
    C: Fn(&[LazItem], &[u8]) -> std::io::Result<Vec<u8>>,
    T: Fn(&ChunkTable, &LazVlr) -> std::io::Result<Vec<u8>>,

    requires
        forall|i: &[LazItem], p: &[u8], r: std::io::Result<Vec<u8>>| #[trigger]
            call_ensures(encode, (i, p), r) ==> (r matches Ok(b) ==> b@ == f(i@, p@)),
        forall|t: &ChunkTable, v: &LazVlr, r: std::io::Result<Vec<u8>>| #[trigger]
            call_ensures(encode_table, (t, v), r) ==> (r matches Ok(b) ==> b@ == g(t@, v@)),
        before.vlr.chunk_size == u32::MAX ==> before.rest.len() == 0,
        before.table_offset == -1 ==> before.rest.len() == 0,
        before.table_offset != -1 ==> (before.table_offset as u64) + 8 <= before.sink.pos
            <= before.sink.bytes.len(),
        finished(encode, encode_table, before, after),
    ensures
        ({
            let here = before.sink.pos as int;
            let place = if before.table_offset == -1 {
                here
            } else {
                (before.table_offset as u64) as int
            };
            let base = if before.table_offset == -1 {
                here + 8
            } else {
                here
            };
            let out = if before.rest.len() == 0 {
                Seq::<u8>::empty()
            } else {
                f(before.vlr.items, before.rest)
            };
            let end = base + out.len();
            let table_bytes = g(after.table, before.vlr);
            &&& after.vlr == before.vlr
            &&& after.rest == before.rest
            &&& after.table == if before.rest.len() == 0 {
                before.table
            } else {
                before.table.push(
                    ChunkTableEntry {
                        point_count: before.vlr.chunk_size as u64,
                        byte_count: out.len() as u64,
                    },
                )
            }
            &&& (after.table_offset as u64) == place
            &&& after.sink.pos == end + table_bytes.len()
            &&& holds(after.sink.bytes, base, out)
            &&& holds(after.sink.bytes, end, table_bytes)
            &&& end <= i64::MAX ==> stored(after.sink.bytes, place) == end
            &&& forall|i: int|
                0 <= i < before.sink.bytes.len() && !(place <= i < place + 8) && !(here <= i
                    < after.sink.pos) ==> #[trigger] after.sink.bytes[i] == before.sink.bytes[i]
        }),
{
    let last = last_chunk(before.rest);
    let opened = before.opened();
    let (encoded, table_bytes) = choose|encoded: Seq<Seq<u8>>, table_bytes: Seq<u8>| #[trigger]
        encodes_all(encode, before.vlr.items, last, encoded) && #[trigger] encodes_table(
            encode_table,
            before.vlr,
            opened.with_chunks(last, encoded).table,
            Ok::<Seq<u8>, std::io::Error>(table_bytes),
        ) && after == opened.with_chunks(last, encoded).closed_with(table_bytes);
    let written = opened.with_chunks(last, encoded);
    lemma_replies_are(encode, f, before.vlr.items, last, encoded);
    law_written_table(encode_table, g, before.vlr, after.table, table_bytes);
    lemma_is_extended(before, last, encoded);
    let out = if before.rest.len() == 0 {
        Seq::<u8>::empty()
    } else {
        f(before.vlr.items, before.rest)
    };
    if before.rest.len() == 0 {
        assert(encoded =~= Seq::<Seq<u8>>::empty());
        assert(encoded.flatten() =~= out);
        assert(after.table =~= before.table);
    } else {
        assert(encoded =~= seq![out]);
        encoded.lemma_flatten_singleton();
        let entry = ChunkTableEntry {
            point_count: before.vlr.chunk_size as u64,
            byte_count: out.len() as u64,
        };
        assert(after.table =~= before.table.push(entry));
    }
    if before.table_offset == -1 {
        lemma_signed_offset(before.sink.pos as u64);
    }
    lemma_closing(written, table_bytes);
    let end = written.sink.pos as int;
    assert(forall|j: int|
        0 <= j < out.len() ==> #[trigger] out[j] == written.sink.bytes[end - out.len() + j]);
}

/// What finishing does to what is written.
proof fn lemma_closing(s: CompressorState, table_bytes: Seq<u8>)
    requires
        s.table_place() + 8 <= s.sink.pos <= s.sink.bytes.len(),
    ensures
        ({
            let end = s.closed_with(table_bytes).sink;
            &&& end.pos == s.sink.pos + table_bytes.len()
            &&& s.sink.pos <= i64::MAX ==> stored(end.bytes, s.table_place() as int) == s.sink.pos
            &&& holds(end.bytes, s.sink.pos as int, table_bytes)
            &&& s.sink.bytes.len() <= end.bytes.len()
            &&& forall|i: int|
                0 <= i < s.sink.bytes.len() && !(s.table_place() <= i < s.table_place() + 8)
                    && !(s.sink.pos <= i < end.pos) ==> #[trigger] end.bytes[i] == s.sink.bytes[i]
        }),
{
    let end = s.closed_with(table_bytes).sink;
    let n = s.sink.pos as i64;
    assert(le_bytes(n).len() == 8);
    assert(holds(end.bytes, s.table_place() as int, le_bytes(n)));
    lemma_stored(end.bytes, s.table_place() as int, n);
}

/// Whatever points a new compressor was given, in any number of calls: once it is finished, a
/// decoder that undoes whatever a call of the record encoder can return gives all points back, in
/// their order, from the pieces into which the table of the compressor cuts the file. All pieces
/// but the last hold the bytes of as many points as the chunk size says.
pub proof fn law_points_come_back_from_calls<C, T>(
    encode: C,
    encode_table: T,
    decode: spec_fn(Seq<u8>) -> Seq<u8>,
    vlr: VlrView,
    start: Sink,
    batches: Seq<Seq<u8>>,
    states: Seq<CompressorState>,
    end: CompressorState,
) where
    C: Fn(&[LazItem], &[u8]) -> std::io::Result<Vec<u8>>,
    T: Fn(&ChunkTable, &LazVlr) -> std::io::Result<Vec<u8>>,

    requires
        forall|i: &[LazItem], p: &[u8], r: std::io::Result<Vec<u8>>| #[trigger]
            call_ensures(encode, (i, p), r) && i@ == vlr.items ==> (r matches Ok(b) ==> decode(b@)
                == p@),
        vlr.chunk_size != u32::MAX,
        vlr.chunk_size * vlr.point_size() > 0,
        states.len() == batches.len() + 1,
        states[0] == CompressorState::fresh(vlr, start),
        forall|k: int|
            0 <= k < batches.len() ==> points_taken(
                encode,
                states[k],
                #[trigger] batches[k],
                states[k + 1],
            ),
        finished(encode, encode_table, states.last(), end),
    ensures
        ({
            let found = decoded(
                decode,
                pieces(end.sink.bytes, end.table_place() + 8, end.table),
            );
            &&& found.len() == end.table.len()
            &&& found.flatten() == batches.flatten()
            &&& forall|k: int|
                0 <= k < found.len() - 1 ==> (#[trigger] found[k]).len() == vlr.chunk_size
                    * vlr.point_size()
        }),
{
    law_points_come_back(encode, encode_table, decode, vlr, start, batches, states, end);
}

/// Whatever a new compressor was given, in any number of calls: once it is finished, a decoder that
/// undoes whatever a call of the table encoder can return gives the table of the compressor back
/// from the bytes between the position that the reserved bytes give and where the destination
/// stands.
pub proof fn law_table_comes_back<C, T>(
    encode: C,
    encode_table: T,
    decode: spec_fn(Seq<u8>) -> Seq<ChunkTableEntry>,
    vlr: VlrView,
    start: Sink,
    states: Seq<CompressorState>,
    end: CompressorState,
) where
    C: Fn(&[LazItem], &[u8]) -> std::io::Result<Vec<u8>>,
    T: Fn(&ChunkTable, &LazVlr) -> std::io::Result<Vec<u8>>,

    requires
        forall|t: &ChunkTable, v: &LazVlr, r: std::io::Result<Vec<u8>>| #[trigger]
            call_ensures(encode_table, (t, v), r) && v@ == vlr ==> (r matches Ok(b) ==> decode(b@)
                == t@),
        run(encode, vlr, start, states),
        finished(encode, encode_table, states.last(), end),
    ensures
        ({
            let at = start.pos + 8 + total_bytes(end.table);
            &&& at <= i64::MAX ==> stored(end.sink.bytes, start.pos as int) == at
            &&& decode(end.sink.bytes.subrange(at as int, end.sink.pos as int)) == end.table
        }),
{
    law_table_after_a_run(encode, encode_table, vlr, start, states, end);
    let at = start.pos + 8 + total_bytes(end.table);
    let table_bytes = choose|table_bytes: Seq<u8>| #[trigger]
        encodes_table(
            encode_table,
            vlr,
            end.table,
            Ok::<Seq<u8>, std::io::Error>(table_bytes),
        ) && bytes_at(end.sink.bytes, at, table_bytes.len()) == table_bytes && end.sink.pos == at
            + table_bytes.len();
    lemma_end_of_run(encode, encode_table, vlr, start, states, end);
}

/// Where the table stands at the end of a run.
proof fn lemma_end_of_run<C, T>(
    encode: C,
    encode_table: T,
    vlr: VlrView,
    start: Sink,
    states: Seq<CompressorState>,
    end: CompressorState,
) where
    C: Fn(&[LazItem], &[u8]) -> std::io::Result<Vec<u8>>,
    T: Fn(&ChunkTable, &LazVlr) -> std::io::Result<Vec<u8>>,

    requires
        run(encode, vlr, start, states),
        finished(encode, encode_table, states.last(), end),
    ensures
        ({
            let at = start.pos + 8 + total_bytes(end.table);
            at <= i64::MAX ==> stored(end.sink.bytes, start.pos as int) == at
        }),
{
    let s = states.last();
    let last = last_chunk(s.rest);
    crate::laws::law_position_over_a_run(encode, vlr, start, states);
    law_table_after_a_run(encode, encode_table, vlr, start, states, end);
    let (encoded, table_bytes) = choose|encoded: Seq<Seq<u8>>, table_bytes: Seq<u8>| #[trigger]
        encodes_all(encode, vlr.items, last, encoded) && #[trigger] encodes_table(
            encode_table,
            vlr,
            s.opened().with_chunks(last, encoded).table,
            Ok::<Seq<u8>, std::io::Error>(table_bytes),
        ) && end == s.opened().with_chunks(last, encoded).closed_with(table_bytes);
    let written = s.opened().with_chunks(last, encoded);
    if s.table_offset == -1 {
        lemma_signed_offset(start.pos as u64);
    }
    crate::laws::lemma_run_end(encode, vlr, start, s, encoded);
    lemma_closing(written, table_bytes);
}

} // verus!
