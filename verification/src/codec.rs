//! What record encoders and chunk table encoders make of their input, and the byte order of the
//! numbers that are written beside their output.

use crate::chunk_table::{ChunkTable, ChunkTableEntry};
use crate::vlr::{LazItem, LazVlr, VlrView};
use byteorder::{LittleEndian, WriteBytesExt};
use vstd::prelude::*;

verus! {

/// The bytes of an encoder's reply, or its error.
pub open spec fn reply(r: std::io::Result<Vec<u8>>) -> Result<Seq<u8>, std::io::Error> {
    match r {
        Ok(bytes) => Ok(bytes@),
        Err(e) => Err(e),
    }
}

/// The record encoder `encode` can be run on the points of any chunk of `items` records.
pub open spec fn encoder_ready<C>(encode: C, items: Seq<LazItem>) -> bool where
    C: Fn(&[LazItem], &[u8]) -> std::io::Result<Vec<u8>>,
 {
    forall|i: &[LazItem], p: &[u8]| i@ == items ==> #[trigger] call_requires(encode, (i, p))
}

/// `out` is a reply of the record encoder `encode` to the points of one chunk.
pub open spec fn encodes<C>(
    encode: C,
    items: Seq<LazItem>,
    points: Seq<u8>,
    out: Result<Seq<u8>, std::io::Error>,
) -> bool where C: Fn(&[LazItem], &[u8]) -> std::io::Result<Vec<u8>> {
    exists|i: &[LazItem], p: &[u8], r: std::io::Result<Vec<u8>>|
        i@ == items && p@ == points && #[trigger] call_ensures(encode, (i, p), r) && reply(r) == out
}

/// `encoded` holds, for each of `chunks`, the bytes that the record encoder replied with.
pub open spec fn encodes_all<C>(
    encode: C,
    items: Seq<LazItem>,
    chunks: Seq<Seq<u8>>,
    encoded: Seq<Seq<u8>>,
) -> bool where C: Fn(&[LazItem], &[u8]) -> std::io::Result<Vec<u8>> {
    &&& encoded.len() == chunks.len()
    &&& forall|k: int|
        0 <= k < chunks.len() ==> encodes(
            encode,
            items,
            #[trigger] chunks[k],
            Ok::<Seq<u8>, std::io::Error>(encoded[k]),
        )
}

/// The record encoder refused one of `chunks` with `e`.
pub open spec fn refuses_some<C>(
    encode: C,
    items: Seq<LazItem>,
    chunks: Seq<Seq<u8>>,
    e: std::io::Error,
) -> bool where C: Fn(&[LazItem], &[u8]) -> std::io::Result<Vec<u8>> {
    exists|k: int|
        0 <= k < chunks.len() && encodes(
            encode,
            items,
            #[trigger] chunks[k],
            Err::<Seq<u8>, std::io::Error>(e),
        )
}

/// What was replied to chunks and to the chunks behind them was replied to all of them.
pub proof fn lemma_encodes_all_append<C>(
    encode: C,
    items: Seq<LazItem>,
    a: Seq<Seq<u8>>,
    encoded_a: Seq<Seq<u8>>,
    b: Seq<Seq<u8>>,
    encoded_b: Seq<Seq<u8>>,
) where C: Fn(&[LazItem], &[u8]) -> std::io::Result<Vec<u8>>
    requires
        encodes_all(encode, items, a, encoded_a),
        encodes_all(encode, items, b, encoded_b),
    ensures
        encodes_all(encode, items, a + b, encoded_a + encoded_b),
{
    assert forall|k: int| 0 <= k < (a + b).len() implies encodes(
        encode,
        items,
        #[trigger] (a + b)[k],
        Ok::<Seq<u8>, std::io::Error>((encoded_a + encoded_b)[k]),
    ) by {
        if k < a.len() {
            assert(encodes(encode, items, a[k], Ok::<Seq<u8>, std::io::Error>(encoded_a[k])));
        } else {
            let j = k - a.len();
            assert(encodes(encode, items, b[j], Ok::<Seq<u8>, std::io::Error>(encoded_b[j])));
        }
    }
}

/// The record encoder never replies with different bytes to the same points.
pub open spec fn repeatable<C>(encode: C, items: Seq<LazItem>) -> bool where
    C: Fn(&[LazItem], &[u8]) -> std::io::Result<Vec<u8>>,
 {
    forall|points: Seq<u8>, a: Seq<u8>, b: Seq<u8>| #[trigger]
        encodes(encode, items, points, Ok::<Seq<u8>, std::io::Error>(a)) && #[trigger] encodes(
            encode,
            items,
            points,
            Ok::<Seq<u8>, std::io::Error>(b),
        ) ==> a == b
}

/// What such an encoder replied to all chunks is always the same.
pub proof fn lemma_repeatable_all<C>(
    encode: C,
    items: Seq<LazItem>,
    chunks: Seq<Seq<u8>>,
    a: Seq<Seq<u8>>,
    b: Seq<Seq<u8>>,
) where C: Fn(&[LazItem], &[u8]) -> std::io::Result<Vec<u8>>
    requires
        repeatable(encode, items),
        encodes_all(encode, items, chunks, a),
        encodes_all(encode, items, chunks, b),
    ensures
        a == b,
{
    assert forall|k: int| 0 <= k < chunks.len() implies #[trigger] a[k] == b[k] by {
        let c = chunks[k];
        assert(encodes(encode, items, c, Ok::<Seq<u8>, std::io::Error>(a[k])));
        assert(encodes(encode, items, c, Ok::<Seq<u8>, std::io::Error>(b[k])));
    }
    assert(a =~= b);
}

/// The table encoder `encode` can be run on any chunk table of a file described by `vlr`.
pub open spec fn table_encoder_ready<T>(encode: T, vlr: VlrView) -> bool where
    T: Fn(&ChunkTable, &LazVlr) -> std::io::Result<Vec<u8>>,
 {
    forall|t: &ChunkTable, v: &LazVlr| v@ == vlr ==> #[trigger] call_requires(encode, (t, v))
}

/// `out` is a reply of the table encoder `encode` to the chunk table `entries`.
pub open spec fn encodes_table<T>(
    encode: T,
    vlr: VlrView,
    entries: Seq<ChunkTableEntry>,
    out: Result<Seq<u8>, std::io::Error>,
) -> bool where T: Fn(&ChunkTable, &LazVlr) -> std::io::Result<Vec<u8>> {
    exists|t: &ChunkTable, v: &LazVlr, r: std::io::Result<Vec<u8>>|
        t@ == entries && v@ == vlr && #[trigger] call_ensures(encode, (t, v), r) && reply(r) == out
}

/// The table encoder never replies with different bytes to the same table.
pub open spec fn table_repeatable<T>(encode: T, vlr: VlrView) -> bool where
    T: Fn(&ChunkTable, &LazVlr) -> std::io::Result<Vec<u8>>,
 {
    forall|table: Seq<ChunkTableEntry>, a: Seq<u8>, b: Seq<u8>| #[trigger]
        encodes_table(encode, vlr, table, Ok::<Seq<u8>, std::io::Error>(a))
            && #[trigger] encodes_table(
            encode,
            vlr,
            table,
            Ok::<Seq<u8>, std::io::Error>(b),
        ) ==> a == b
}

/// The eight bytes of `n` in two's complement, the least significant first.
pub open spec fn le_bytes(n: i64) -> Seq<u8> {
    let u = n as u64;
    seq![
        (u & 0xff) as u8,
        ((u >> 8) & 0xff) as u8,
        ((u >> 16) & 0xff) as u8,
        ((u >> 24) & 0xff) as u8,
        ((u >> 32) & 0xff) as u8,
        ((u >> 40) & 0xff) as u8,
        ((u >> 48) & 0xff) as u8,
        ((u >> 56) & 0xff) as u8,
    ]
}

/// The number whose eight bytes, the least significant first, are `bytes`.
pub open spec fn le_value(bytes: Seq<u8>) -> i64 {
    ((bytes[0] as u64) | (bytes[1] as u64) << 8 | (bytes[2] as u64) << 16 | (bytes[3] as u64) << 24
        | (bytes[4] as u64) << 32 | (bytes[5] as u64) << 40 | (bytes[6] as u64) << 48 | (
    bytes[7] as u64) << 56) as i64
}

/// Calls `byteorder::WriteBytesExt::write_i64` with `LittleEndian` on an empty vector, a writer
/// that takes every byte: the vector then holds the eight bytes of `n` in two's complement, the
/// least significant first.
#[verifier::external_body]
pub(crate) fn i64_to_le_bytes(n: i64) -> (bytes: Vec<u8>)
    ensures
        bytes@ == le_bytes(n),
{
    let mut bytes: Vec<u8> = Vec::new();
    bytes.write_i64::<LittleEndian>(n).unwrap();
    bytes
}

/// Reading back the eight bytes of a number gives the number.
pub proof fn lemma_le_value_of_le_bytes(n: i64)
    ensures
        le_bytes(n).len() == 8,
        le_value(le_bytes(n)) == n,
{
    let u = n as u64;
    assert(((((u & 0xff) as u8) as u64) | (((u >> 8) & 0xff) as u8 as u64) << 8 | (((u >> 16)
        & 0xff) as u8 as u64) << 16 | (((u >> 24) & 0xff) as u8 as u64) << 24 | (((u >> 32)
        & 0xff) as u8 as u64) << 32 | (((u >> 40) & 0xff) as u8 as u64) << 40 | (((u >> 48)
        & 0xff) as u8 as u64) << 48 | (((u >> 56) & 0xff) as u8 as u64) << 56) == u)
        by (bit_vector);
    assert((n as u64) as i64 == n) by (bit_vector);
}

/// The signed form of an offset stands for that offset and, unless it is the last one there is,
/// differs from `-1`.
pub proof fn lemma_signed_offset(pos: u64)
    ensures
        (pos as i64) as u64 == pos,
        pos < u64::MAX ==> (pos as i64) != -1,
{
    assert((pos as i64) as u64 == pos) by (bit_vector);
    assert(pos < 0xffff_ffff_ffff_ffffu64 ==> (pos as i64) != -1i64) by (bit_vector);
}

} // verus!
