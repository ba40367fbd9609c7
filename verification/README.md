# laz_parallel

A verified library that compresses LAZ point records on several threads, chunk by chunk, and writes
them with the table of their chunks.

A file begins with the position of the chunk table (eight bytes, little endian), goes on with the
compressed chunks in the order of the points, and ends with the chunk table. `ParLasZipCompressor`
writes such a file from points that come piece by piece, `par_compress_buffer` from points that are all
there.

How the points of one chunk and the chunk table are encoded is up to the caller, who hands over a
function for each. Where the bytes go is up to the caller too: any `SeekSink` will do. `ByteBuffer`
is one in memory; those of `app/` stand for `std::io` streams.

- `src/vlr.rs`: the items of a point record, and the chunk size
- `src/sink.rs`, `src/buffer.rs`: destinations
- `src/codec.rs`: encoders, and the byte order of offsets
- `src/chunk_table.rs`, `src/chunking.rs`: the chunk table, and how points are cut into chunks
- `src/parallel.rs`: compression on several threads
- `src/compressor.rs`, `src/laz_compressor.rs`: the compressor that takes points as they come
- `src/laws.rs`: what holds of the compressors as a whole
- `app/`: the library over `std::io` and `rayon` iterators
