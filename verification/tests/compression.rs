use laz_parallel::buffer::ByteBuffer;
use laz_parallel::chunk_table::{
    update_chunk_table_offset, ChunkTable, ChunkTableEntry,
};
use laz_parallel::compressor::ParLasZipCompressor;
use laz_parallel::error::{IoError, LasZipError};
use laz_parallel::laz_compressor::LazCompressor;
use laz_parallel::parallel::{
    compress_one_chunk, par_compress, par_compress_buffer, write_chunk_buffers, write_results,
    ChunkBuffer, ParChunkCompressor,
};
use laz_parallel::sink::{ByteSink, SeekSink, Sink, Trace};
use laz_parallel::vlr::{
    LazItem, LazItemRecordBuilder, LazItemType, LazVlr, DEFAULT_CHUNK_SIZE, VARIABLE_CHUNK_SIZE,
};
use std::io::{Error, ErrorKind};
use std::sync::atomic::{AtomicBool, Ordering};

/// A stand-in for a record encoder: the number of items, then every second byte of the points.
/// Refuses points whose first byte is 255, with the kind that the second byte picks.
fn encode(items: &[LazItem], points: &[u8]) -> std::io::Result<Vec<u8>> {
    if points.first() == Some(&255) {
        return Err(Error::from(if points[1] == 0 {
            ErrorKind::InvalidData
        } else {
            ErrorKind::TimedOut
        }));
    }
    let mut out = vec![items.len() as u8];
    out.extend(points.iter().step_by(2));
    Ok(out)
}

/// A stand-in for a table encoder: the counts of each entry, one byte each, behind a mark.
fn encode_table(table: &ChunkTable, vlr: &LazVlr) -> std::io::Result<Vec<u8>> {
    let mut out = vec![if vlr.uses_variable_size_chunks() { 77 } else { 66 }];
    for entry in table.entries() {
        out.push(entry.point_count as u8);
        out.push(entry.byte_count as u8);
    }
    Ok(out)
}

fn refuse_table(_table: &ChunkTable, _vlr: &LazVlr) -> std::io::Result<Vec<u8>> {
    Err(Error::from(ErrorKind::Unsupported))
}

fn point10() -> Vec<LazItem> {
    LazItemRecordBuilder::new()
        .add_item(LazItemType::Point10)
        .build()
}

/// Records of two bytes.
fn small(chunk_size: u32) -> LazVlr {
    LazVlr::new(
        LazItemRecordBuilder::new()
            .add_item(LazItemType::Byte(2))
            .build(),
        chunk_size,
    )
}

fn memory() -> ByteBuffer {
    ByteBuffer::new(Vec::new())
}

fn numbers(n: u8) -> Vec<u8> {
    (0..n).collect()
}

fn entry(point_count: u64, byte_count: u64) -> ChunkTableEntry {
    ChunkTableEntry {
        point_count,
        byte_count,
    }
}

/// A destination that fails once its budget of calls is spent.
struct Brittle {
    inner: ByteBuffer,
    calls_left: u32,
}

impl Brittle {
    fn spend(&mut self) -> std::io::Result<()> {
        if self.calls_left == 0 {
            return Err(Error::from(ErrorKind::BrokenPipe));
        }
        self.calls_left -= 1;
        Ok(())
    }
}

// `sink` and `trace` stand in contracts only; nothing calls them.
impl ByteSink for Brittle {
    fn sink(&self) -> Sink {
        unreachable!()
    }

    fn trace(&self) -> Trace {
        unreachable!()
    }

    fn write_all(&mut self, data: &[u8]) -> std::io::Result<()> {
        self.spend()?;
        self.inner.write_all(data)
    }
}

impl SeekSink for Brittle {
    fn position(&mut self) -> std::io::Result<u64> {
        self.spend()?;
        self.inner.position()
    }

    fn seek_start(&mut self, pos: u64) -> std::io::Result<()> {
        self.spend()?;
        self.inner.seek_start(pos)
    }
}

fn brittle(calls_left: u32) -> Brittle {
    Brittle {
        inner: memory(),
        calls_left,
    }
}

#[test]
fn test_table_offset_one_point() {
    // If just one point is compressed the chunk table offset is correctly reserved
    let vlr = LazVlr::from_laz_items(
        LazItemRecordBuilder::new()
            .add_item(LazItemType::Point10)
            .build(),
    );

    let point = vec![0u8; vlr.items_size() as usize];
    let mut compressor =
        ParLasZipCompressor::new(ByteBuffer::new(Vec::<u8>::new()), vlr, encode, encode_table)
            .unwrap();
    assert_eq!(compressor.table_offset(), -1);
    compressor.compress_many(&point).unwrap();
    assert_eq!(compressor.table_offset(), 0);
}

#[test]
fn test_table_offset_complete_chunk() {
    // If at least a chunk is compressed the chunk table offset is correctly reserved
    let vlr = LazVlr::from_laz_items(
        LazItemRecordBuilder::new()
            .add_item(LazItemType::Point10)
            .build(),
    );

    let points = vec![0u8; vlr.num_bytes_in_decompressed_chunk() as usize];
    let mut compressor =
        ParLasZipCompressor::new(ByteBuffer::new(Vec::<u8>::new()), vlr, encode, encode_table)
            .unwrap();
    assert_eq!(compressor.table_offset(), -1);
    compressor.compress_many(&points).unwrap();
    assert_eq!(compressor.table_offset(), 0);
}

#[test]
fn whole_file_of_points() {
    let mut dst = memory();
    par_compress_buffer(&mut dst, &numbers(10), &small(2), &encode, &encode_table).unwrap();
    let expected: Vec<u8> = vec![
        16, 0, 0, 0, 0, 0, 0, 0, // where the table begins
        1, 0, 2, // first chunk
        1, 4, 6, // second chunk
        1, 8, // last chunk, of one point
        66, 2, 3, 2, 3, 2, 2, // table
    ];
    assert_eq!(dst.get_ref(), &expected);
}

#[test]
fn batches_of_any_size_give_the_same_file() {
    for points in [0u8, 2, 8, 10, 26, 40] {
        let all = numbers(points);
        let mut at_once = memory();
        par_compress_buffer(&mut at_once, &all, &small(3), &encode, &encode_table).unwrap();
        for batch in [2usize, 4, 6, 8, 14, 40] {
            let mut c =
                ParLasZipCompressor::new(memory(), small(3), encode, encode_table).unwrap();
            for part in all.chunks(batch) {
                c.compress_many(part).unwrap();
            }
            c.done().unwrap();
            assert_eq!(c.get().get_ref(), at_once.get_ref());
        }
    }
}

#[test]
fn waiting_points_are_not_written() {
    let mut c = ParLasZipCompressor::new(memory(), small(3), encode, encode_table).unwrap();
    c.compress_many(&numbers(4)).unwrap();
    assert_eq!(c.get().get_ref().len(), 8);
    c.compress_many(&[4, 5, 6, 7]).unwrap();
    assert_eq!(c.get().get_ref()[8..], [1, 0, 2, 4]);
    c.done().unwrap();
    assert_eq!(c.into_inner().into_inner()[8..], [1, 0, 2, 4, 1, 6, 66, 3, 4, 3, 2]);
}

#[test]
fn chunks_stand_where_the_table_says() {
    let points = numbers(22);
    let mut dst = ByteBuffer::new(vec![9; 5]);
    dst.seek_start(5).unwrap();
    let table = par_compress(&mut dst, &points, &small(4), &encode).unwrap();
    assert_eq!(table.entries(), [entry(4, 5), entry(4, 5), entry(4, 4)]);
    let bytes = dst.into_inner();
    let mut at = 5;
    for (e, chunk) in table.entries().iter().zip(points.chunks(8)) {
        let end = at + e.byte_count as usize;
        assert_eq!(bytes[at..end], encode(&point10(), chunk).unwrap()[..]);
        at = end;
    }
    assert_eq!(at, bytes.len());
}

#[test]
fn file_behind_other_bytes() {
    let mut dst = ByteBuffer::new(vec![9; 3]);
    dst.seek_start(3).unwrap();
    par_compress_buffer(&mut dst, &[5, 6], &small(2), &encode, &encode_table).unwrap();
    assert_eq!(
        dst.into_inner(),
        vec![9, 9, 9, 13, 0, 0, 0, 0, 0, 0, 0, 1, 5, 66, 2, 2]
    );
}

#[test]
fn variable_size_chunks() {
    let vlr = small(VARIABLE_CHUNK_SIZE);
    assert!(vlr.uses_variable_size_chunks());
    let mut c = ParLasZipCompressor::new(memory(), vlr, encode, encode_table).unwrap();
    c.compress_chunks(&[&[1, 2, 3, 4, 5, 6], &[7, 8]]).unwrap();
    c.compress_chunks(&[]).unwrap();
    c.compress_chunks(&[&[9, 10, 11, 12]]).unwrap();
    c.done().unwrap();
    assert_eq!(
        c.get().get_ref(),
        &vec![
            17, 0, 0, 0, 0, 0, 0, 0, 1, 1, 3, 5, 1, 7, 1, 9, 11, 77, 3, 4, 1, 2, 2, 3
        ]
    );
    assert!(c.vlr().uses_variable_size_chunks());
}

#[test]
fn file_without_points() {
    let mut c = ParLasZipCompressor::new(memory(), small(3), encode, encode_table).unwrap();
    c.done().unwrap();
    assert_eq!(c.table_offset(), 0);
    assert_eq!(c.get().get_ref(), &vec![8, 0, 0, 0, 0, 0, 0, 0, 66]);
}

#[test]
fn reserving_by_hand() {
    let mut c = ParLasZipCompressor::new(memory(), small(1), encode, encode_table).unwrap();
    c.get_mut().write_all(&[1, 2, 3]).unwrap();
    c.reserve_offset_to_chunk_table().unwrap();
    assert_eq!(c.table_offset(), 3);
    assert_eq!(c.get().get_ref(), &vec![1, 2, 3, 3, 0, 0, 0, 0, 0, 0, 0]);
    c.compress_many(&[6, 7]).unwrap();
    assert_eq!(c.table_offset(), 3);
    c.done().unwrap();
    assert_eq!(
        c.get().get_ref(),
        &vec![1, 2, 3, 13, 0, 0, 0, 0, 0, 0, 0, 1, 6, 66, 1, 2]
    );
}

#[test]
fn points_of_several_items() {
    let items = LazItemRecordBuilder::new()
        .add_item(LazItemType::Point10)
        .add_item(LazItemType::GpsTime)
        .add_item(LazItemType::RGB12)
        .build();
    assert_eq!(items.len(), 3);
    let vlr = LazVlr::from_laz_items(items);
    assert_eq!(vlr.items_size(), 34);
    assert_eq!(vlr.chunk_size(), DEFAULT_CHUNK_SIZE);
    assert_eq!(vlr.num_bytes_in_decompressed_chunk(), 1_700_000);
    assert!(!vlr.uses_variable_size_chunks());
    assert_eq!(vlr.items()[1].item_type, LazItemType::GpsTime);
}

#[test]
fn refused_waiting_chunk() {
    let mut c = ParLasZipCompressor::new(memory(), small(2), encode, encode_table).unwrap();
    c.compress_many(&[255, 0]).unwrap();
    match c.compress_many(&[1, 2, 3, 4]) {
        Err(IoError::Direct(e)) => assert_eq!(e.kind(), ErrorKind::InvalidData),
        _ => panic!("the encoder refuses the chunk that waited"),
    }
    assert_eq!(c.get().get_ref().len(), 8);
}

#[test]
fn refused_waiting_chunk_is_tried_again() {
    let refuse = AtomicBool::new(true);
    let moody = |items: &[LazItem], points: &[u8]| {
        if refuse.swap(false, Ordering::SeqCst) {
            return Err(Error::from(ErrorKind::TimedOut));
        }
        encode(items, points)
    };
    let mut c = ParLasZipCompressor::new(memory(), small(2), moody, encode_table).unwrap();
    c.compress_many(&[1, 2]).unwrap();
    assert!(c.compress_many(&[3, 4, 5, 6]).is_err());
    c.compress_many(&[]).unwrap();
    c.done().unwrap();
    assert_eq!(c.get().get_ref()[8..], [1, 1, 3, 66, 2, 3]);
}

#[test]
fn refused_full_chunk() {
    let mut c = ParLasZipCompressor::new(memory(), small(1), encode, encode_table).unwrap();
    match c.compress_many(&[1, 2, 255, 0, 5, 6]) {
        Err(IoError::Other(e)) => assert_eq!(e.kind(), ErrorKind::InvalidData),
        _ => panic!("the encoder refuses the second chunk"),
    }
    // nothing is written unless all chunks could be compressed
    assert_eq!(c.get().get_ref().len(), 8);
}

#[test]
fn refused_variable_chunk() {
    let vlr = small(VARIABLE_CHUNK_SIZE);
    let mut c = ParLasZipCompressor::new(memory(), vlr, encode, encode_table).unwrap();
    match c.compress_chunks(&[&[1, 2], &[255, 1]]) {
        Err(IoError::Other(e)) => assert_eq!(e.kind(), ErrorKind::TimedOut),
        _ => panic!("the encoder refuses the second chunk"),
    }
}

#[test]
fn refused_last_chunk() {
    let mut c = ParLasZipCompressor::new(memory(), small(2), encode, encode_table).unwrap();
    c.compress_many(&[255, 1]).unwrap();
    match c.done() {
        Err(LasZipError::IoError(IoError::Direct(e))) => assert_eq!(e.kind(), ErrorKind::TimedOut),
        _ => panic!("the encoder refuses the last chunk"),
    }
}

#[test]
fn refused_table() {
    let mut c = ParLasZipCompressor::new(memory(), small(2), encode, refuse_table).unwrap();
    c.compress_many(&[1, 2]).unwrap();
    match c.done() {
        Err(LasZipError::IoError(IoError::Direct(e))) => {
            assert_eq!(e.kind(), ErrorKind::Unsupported)
        }
        _ => panic!("the table encoder refuses"),
    }
    assert_eq!(c.get().get_ref(), &vec![10, 0, 0, 0, 0, 0, 0, 0, 1, 1]);
}

#[test]
fn compression_at_once_stops_at_the_first_refusal() {
    let mut dst = memory();
    let points = [1, 2, 255, 0, 255, 1, 7, 8];
    match par_compress(&mut dst, &points, &small(1), &encode) {
        Err(LasZipError::IoError(IoError::Direct(e))) => {
            assert_eq!(e.kind(), ErrorKind::InvalidData)
        }
        _ => panic!("the encoder refuses the second chunk"),
    }
    assert_eq!(dst.get_ref(), &vec![1, 1]);
}

#[test]
fn failing_destination() {
    // position and write when a place is reserved
    for calls in 0..2 {
        let mut c = ParLasZipCompressor::new(brittle(calls), small(1), encode, encode_table).unwrap();
        match c.compress_many(&[1, 2]) {
            Err(IoError::Direct(e)) => assert_eq!(e.kind(), ErrorKind::BrokenPipe),
            _ => panic!("the place cannot be reserved"),
        }
    }
    // the chunk itself
    let mut c = ParLasZipCompressor::new(brittle(2), small(1), encode, encode_table).unwrap();
    match c.compress_many(&[1, 2]) {
        Err(IoError::Other(e)) => assert_eq!(e.kind(), ErrorKind::BrokenPipe),
        _ => panic!("the chunk cannot be written"),
    }
    // the end of the file: position, seek, write, seek, write
    for calls in 3..8 {
        let mut c = ParLasZipCompressor::new(brittle(calls), small(1), encode, encode_table).unwrap();
        c.compress_many(&[1, 2]).unwrap();
        match c.done() {
            Err(LasZipError::IoError(IoError::Direct(e))) => {
                assert_eq!(e.kind(), ErrorKind::BrokenPipe)
            }
            _ => panic!("the file cannot be finished"),
        }
    }
    let mut c = ParLasZipCompressor::new(brittle(8), small(1), encode, encode_table).unwrap();
    c.compress_many(&[1, 2]).unwrap();
    assert!(c.done().is_ok());
}

/// A destination that notes what it is asked for and fails at one of the requests.
struct Noting {
    inner: ByteBuffer,
    asked: Vec<String>,
    fails_at: usize,
}

impl Noting {
    fn note(&mut self, request: String) -> std::io::Result<()> {
        self.asked.push(request);
        if self.asked.len() == self.fails_at {
            return Err(Error::from(ErrorKind::BrokenPipe));
        }
        Ok(())
    }
}

impl ByteSink for Noting {
    fn sink(&self) -> Sink {
        unreachable!()
    }

    fn trace(&self) -> Trace {
        unreachable!()
    }

    fn write_all(&mut self, data: &[u8]) -> std::io::Result<()> {
        self.note(format!("write {:?}", data))?;
        self.inner.write_all(data)
    }
}

impl SeekSink for Noting {
    fn position(&mut self) -> std::io::Result<u64> {
        self.note(format!("position"))?;
        self.inner.position()
    }

    fn seek_start(&mut self, pos: u64) -> std::io::Result<()> {
        self.note(format!("seek {}", pos))?;
        self.inner.seek_start(pos)
    }
}

fn noting(fails_at: usize) -> Noting {
    Noting {
        inner: memory(),
        asked: Vec::new(),
        fails_at,
    }
}

#[test]
fn nothing_is_asked_after_a_failed_write() {
    let mut compressor = ParChunkCompressor::default();
    let mut dst = noting(2);
    let r = compressor.compress_points(&mut dst, &numbers(6), &small(1), &encode);
    assert!(matches!(
        r,
        Err(LasZipError::IoError(IoError::Direct(e))) if e.kind() == ErrorKind::BrokenPipe
    ));
    assert_eq!(dst.asked, ["write [1, 0]", "write [1, 2]"]);
    assert_eq!(dst.inner.get_ref(), &vec![1, 0]);

    let mut dst = noting(0);
    compressor
        .compress_points(&mut dst, &numbers(6), &small(1), &encode)
        .unwrap();
    assert_eq!(dst.asked, ["write [1, 0]", "write [1, 2]", "write [1, 4]"]);

    // no chunk is written where one is refused
    let mut dst = noting(0);
    assert!(compressor
        .compress_points(&mut dst, &[1, 2, 255, 0], &small(1), &encode)
        .is_err());
    assert!(dst.asked.is_empty());
}

#[test]
fn the_error_tells_the_step_at_which_the_destination_failed() {
    // position and write of the reserved place, then position, write and position for the chunk
    // that waits, then a write for each chunk behind it
    for fails_at in 3..8 {
        let mut c =
            ParLasZipCompressor::new(noting(fails_at), small(2), encode, encode_table).unwrap();
        c.compress_many(&[0, 1]).unwrap();
        let r = c.compress_many(&[2, 3, 4, 5, 6, 7, 8, 9, 10, 11]);
        assert_eq!(c.get().asked.len(), fails_at);
        assert_eq!(fails_at < 6, matches!(r, Err(IoError::Direct(_))));
        assert_eq!(fails_at >= 6, matches!(r, Err(IoError::Other(_))));
    }
    let mut c = ParLasZipCompressor::new(noting(0), small(2), encode, encode_table).unwrap();
    c.compress_many(&[0, 1]).unwrap();
    c.compress_many(&[2, 3, 4, 5, 6, 7, 8, 9]).unwrap();
    c.done().unwrap();
    assert_eq!(
        c.get().asked,
        [
            "position",
            "write [0, 0, 0, 0, 0, 0, 0, 0]",
            "position",
            "write [1, 0, 2]",
            "position",
            "write [1, 4, 6]",
            "position",
            "write [1, 8]",
            "position",
            "position",
            "seek 0",
            "write [16, 0, 0, 0, 0, 0, 0, 0]",
            "seek 16",
            "write [66, 2, 3, 2, 3, 2, 2]",
        ]
    );
}

#[test]
fn failed_last_chunk_leaves_the_reserved_bytes() {
    for fails_at in 3..5 {
        let mut c =
            ParLasZipCompressor::new(noting(fails_at), small(2), encode, encode_table).unwrap();
        c.compress_many(&[5, 6]).unwrap();
        assert!(c.done().is_err());
        assert_eq!(c.get().asked.len(), fails_at);
        assert_eq!(c.get().inner.get_ref(), &vec![0; 8]);
    }
}

#[test]
fn no_place_is_known_where_the_position_cannot_be_read() {
    let mut c = ParLasZipCompressor::new(noting(1), small(2), encode, encode_table).unwrap();
    assert!(c.reserve_offset_to_chunk_table().is_err());
    assert_eq!(c.table_offset(), -1);
    assert_eq!(c.get().asked, ["position"]);
    assert!(c.get().inner.get_ref().is_empty());

    let mut dst = noting(1);
    assert!(compress_one_chunk(&[3, 4], &small(2), &mut dst, &encode).is_err());
    assert_eq!(dst.asked, ["position"]);
}

#[test]
fn descriptions_without_points_or_bytes() {
    // chunks of no points
    let mut c = ParLasZipCompressor::new(memory(), small(0), encode, encode_table).unwrap();
    assert_eq!(c.table_offset(), -1);
    c.done().unwrap();
    assert_eq!(c.get().get_ref(), &vec![8, 0, 0, 0, 0, 0, 0, 0, 66]);
    // points of no bytes
    let vlr = LazVlr::new(Vec::new(), VARIABLE_CHUNK_SIZE);
    let mut c = ParLasZipCompressor::new(memory(), vlr, encode, encode_table).unwrap();
    c.compress_chunks(&[]).unwrap();
    assert_eq!(c.table_offset(), 0);
    assert_eq!(c.get().get_ref(), &vec![0; 8]);
    c.done().unwrap();
    assert_eq!(c.get().get_ref(), &vec![8, 0, 0, 0, 0, 0, 0, 0, 77]);
}

#[test]
fn cutting_by_the_table_gives_the_points_back() {
    // an encoder that can be undone: the points behind their number of bytes
    let framed = |_items: &[LazItem], points: &[u8]| {
        let mut out = vec![points.len() as u8];
        out.extend(points);
        Ok(out)
    };
    let table_of = |table: &ChunkTable, _vlr: &LazVlr| {
        Ok(table.entries().iter().map(|e| e.byte_count as u8).collect())
    };
    let points = numbers(22);
    let mut c = ParLasZipCompressor::new(memory(), small(4), framed, table_of).unwrap();
    c.compress_many(&points[..6]).unwrap();
    c.compress_many(&points[6..20]).unwrap();
    c.compress_many(&points[20..]).unwrap();
    c.done().unwrap();
    let file = c.into_inner().into_inner();
    let end = file[0] as usize;
    assert_eq!(file[end..], [9, 9, 7]);
    let mut at = 8;
    let mut found: Vec<u8> = Vec::new();
    for n in &file[end..] {
        let piece = &file[at..at + *n as usize];
        assert_eq!(piece[0] as usize, piece.len() - 1);
        found.extend(&piece[1..]);
        at += *n as usize;
    }
    assert_eq!(found, points);
    assert_eq!(at, end);
}

#[test]
fn parts_give_the_bytes_and_the_table_of_the_whole() {
    let points = numbers(22);
    let mut whole = memory();
    let table = par_compress(&mut whole, &points, &small(4), &encode).unwrap();
    for cut in [0usize, 8, 16] {
        let mut parts = memory();
        let mut joined = par_compress(&mut parts, &points[..cut], &small(4), &encode).unwrap();
        let behind = par_compress(&mut parts, &points[cut..], &small(4), &encode).unwrap();
        joined.extend(&behind);
        assert_eq!(parts.get_ref(), whole.get_ref());
        assert_eq!(joined.entries(), table.entries());
    }
}

#[test]
fn a_chunk_takes_the_same_bytes_anywhere() {
    let mut here = memory();
    let mut there = ByteBuffer::new(vec![9; 4]);
    there.seek_start(3).unwrap();
    let n = compress_one_chunk(&[3, 4, 5, 6], &small(2), &mut here, &encode).unwrap();
    let m = compress_one_chunk(&[3, 4, 5, 6], &small(7), &mut there, &encode).unwrap();
    assert_eq!(n, m);
    assert_eq!(here.get_ref()[..], there.get_ref()[3..]);
}

#[test]
fn position_follows_the_table() {
    let mut c =
        ParLasZipCompressor::new(memory(), small(VARIABLE_CHUNK_SIZE), encode, encode_table)
            .unwrap();
    c.get_mut().seek_start(3).unwrap();
    c.reserve_offset_to_chunk_table().unwrap();
    c.compress_chunks(&[&[1, 2, 3, 4]]).unwrap();
    assert_eq!(c.get_mut().position().unwrap(), 3 + 8 + 3);
    c.compress_chunks(&[&[5, 6], &[7, 8]]).unwrap();
    assert_eq!(c.get_mut().position().unwrap(), 3 + 8 + 3 + 2 + 2);
    c.done().unwrap();
    assert_eq!(c.get().get_ref()[3..11], [18, 0, 0, 0, 0, 0, 0, 0]);
    assert_eq!(c.get().get_ref()[18..], [77, 2, 3, 1, 2, 1, 2]);
}

#[test]
fn batches_of_chunks_give_the_same_file() {
    let chunks: [&[u8]; 4] = [&[1, 2], &[3, 4, 5, 6], &[], &[7, 8]];
    let mut files = Vec::new();
    for n in 0..5 {
        let vlr = small(VARIABLE_CHUNK_SIZE);
        let mut c = ParLasZipCompressor::new(memory(), vlr, encode, encode_table).unwrap();
        c.compress_chunks(&chunks[..n]).unwrap();
        c.compress_chunks(&chunks[n..]).unwrap();
        c.done().unwrap();
        files.push(c.into_inner().into_inner());
    }
    assert!(files.iter().all(|file| *file == files[0]));
}

#[test]
fn through_the_trait() {
    fn run<L: LazCompressor>(compressor: &mut L, points: &[u8]) -> Result<(), LasZipError> {
        compressor.compress_many(points)?;
        compressor.done()
    }
    let mut c = ParLasZipCompressor::new(memory(), small(2), encode, encode_table).unwrap();
    run(&mut c, &numbers(4)).unwrap();
    assert_eq!(
        c.get().get_ref(),
        &vec![11, 0, 0, 0, 0, 0, 0, 0, 1, 0, 2, 66, 2, 3]
    );
    let mut c = ParLasZipCompressor::new(memory(), small(1), encode, encode_table).unwrap();
    assert!(matches!(
        run(&mut c, &[255, 0]),
        Err(LasZipError::IoError(IoError::Other(_)))
    ));
}

#[test]
fn reused_buffers_hold_only_the_last_chunks() {
    let mut compressor = ParChunkCompressor::default();
    let mut dst = memory();
    let vlr = small(2);
    compressor
        .compress_points(&mut dst, &numbers(12), &vlr, &encode)
        .unwrap();
    let table = compressor
        .compress_points(&mut dst, &[20, 21], &vlr, &encode)
        .unwrap();
    assert_eq!(table.entries(), [entry(2, 2)]);
    assert_eq!(dst.get_ref()[9..], [1, 20]);
}

#[test]
fn one_chunk() {
    let mut dst = memory();
    let n = compress_one_chunk(&[3, 4, 5, 6], &small(2), &mut dst, &encode).unwrap();
    assert_eq!(n, 3);
    assert_eq!(dst.get_ref(), &vec![1, 3, 5]);
}

#[test]
fn results_are_written_in_order() {
    let mut dst = memory();
    let table = write_results(
        &mut dst,
        vec![Ok((4, vec![1, 2, 3])), Ok((6, vec![])), Ok((2, vec![4]))],
        &small(VARIABLE_CHUNK_SIZE),
    )
    .unwrap();
    assert_eq!(table.entries(), [entry(2, 3), entry(3, 0), entry(1, 1)]);
    assert_eq!(dst.get_ref(), &vec![1, 2, 3, 4]);

    let mut dst = memory();
    let r = write_results(
        &mut dst,
        vec![
            Ok((4, vec![1, 2, 3])),
            Err(Error::from(ErrorKind::InvalidData)),
            Err(Error::from(ErrorKind::TimedOut)),
        ],
        &small(3),
    );
    assert!(matches!(
        r,
        Err(LasZipError::IoError(IoError::Direct(e))) if e.kind() == ErrorKind::InvalidData
    ));
    assert_eq!(dst.get_ref(), &vec![1, 2, 3]);
}

#[test]
fn buffers_are_written_in_order() {
    let buffers = vec![
        ChunkBuffer::new(4, vec![5, 6]),
        ChunkBuffer::new(2, vec![7]),
        ChunkBuffer::new(2, vec![8]),
    ];
    let mut dst = memory();
    let table = write_chunk_buffers(&mut dst, &buffers, 2, &small(9)).unwrap();
    assert_eq!(table.entries(), [entry(9, 2), entry(9, 1)]);
    assert_eq!(dst.get_ref(), &vec![5, 6, 7]);
}

#[test]
fn offset_is_stored_and_the_position_kept() {
    let mut dst = ByteBuffer::new(vec![7; 300]);
    dst.seek_start(258).unwrap();
    update_chunk_table_offset(&mut dst, 2).unwrap();
    assert_eq!(dst.position().unwrap(), 258);
    assert_eq!(dst.get_ref()[..11], [7, 7, 2, 1, 0, 0, 0, 0, 0, 0, 7]);
    assert_eq!(dst.get_ref().len(), 300);
}

#[test]
fn tables() {
    let mut table = ChunkTable::default();
    assert!(table.is_empty());
    table.push(entry(1, 2));
    let mut other = ChunkTable::with_capacity(2);
    other.push(entry(3, 4));
    other.push(entry(5, 6));
    table.extend(&other);
    assert!(!table.is_empty());
    assert_eq!(table.entries(), [entry(1, 2), entry(3, 4), entry(5, 6)]);
    let mut dst = memory();
    table.write_to(&mut dst, &small(3), &encode_table).unwrap();
    assert_eq!(dst.get_ref(), &vec![66, 1, 2, 3, 4, 5, 6]);
}

#[test]
fn memory_destination() {
    let mut dst = ByteBuffer::new(vec![1, 2, 3]);
    dst.write_all(&[9]).unwrap();
    assert_eq!(dst.get_ref(), &vec![9, 2, 3]);
    dst.seek_start(2).unwrap();
    dst.write_all(&[8, 7]).unwrap();
    assert_eq!(dst.get_ref(), &vec![9, 2, 8, 7]);
    dst.seek_start(6).unwrap();
    dst.write_all(&[]).unwrap();
    assert_eq!(dst.get_ref().len(), 4);
    dst.write_all(&[5]).unwrap();
    assert_eq!(dst.position().unwrap(), 7);
    assert_eq!(dst.into_inner(), vec![9, 2, 8, 7, 0, 0, 5]);
}

#[test]
fn sizes_of_items() {
    let sizes: Vec<u16> = [
        LazItemType::Byte(3),
        LazItemType::Point10,
        LazItemType::GpsTime,
        LazItemType::RGB12,
        LazItemType::WavePacket13,
        LazItemType::Point14,
        LazItemType::RGB14,
        LazItemType::RGBNIR14,
        LazItemType::WavePacket14,
        LazItemType::Byte14(4),
    ]
    .iter()
    .map(|t| t.size())
    .collect();
    assert_eq!(sizes, vec![3, 20, 8, 6, 29, 30, 6, 8, 29, 4]);
}
