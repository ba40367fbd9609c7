//! What all compressors offer.

use crate::chunk_table::ChunkTable;
use crate::compressor::{
    finish_refused, finish_requested, finished, points_refused, points_requested, points_taken,
    ParLasZipCompressor,
};
use crate::error::{IoError, LasZipError};
use crate::sink::SeekSink;
use crate::vlr::{LazItem, LazVlr};
use vstd::prelude::*;

verus! {

/// A compressor of points.
pub trait LazCompressor {
    /// The compressor can take `points`.
    spec fn takes(&self, points: Seq<u8>) -> bool;

    /// The compressor can be finished.
    spec fn finishes(&self) -> bool;

    /// `after` and `r` are what taking `points` can make of `before`.
    spec fn took(
        before: &Self,
        points: Seq<u8>,
        after: &Self,
        r: Result<(), LasZipError>,
    ) -> bool;

    /// `after` and `r` are what finishing can make of `before`.
    spec fn ended(before: &Self, after: &Self, r: Result<(), LasZipError>) -> bool;

    /// Compresses points.
    fn compress_many(&mut self, points: &[u8]) -> (r: Result<(), LasZipError>)
        requires
            old(self).takes(points@),
        ensures
            Self::took(&*old(self), points@, &*final(self), r),
    ;

    /// Tells the compressor that no more points will be compressed.
    fn done(&mut self) -> (r: Result<(), LasZipError>)
        requires
            old(self).finishes(),
        ensures
            Self::ended(&*old(self), &*final(self), r),
    ;
}

impl<W, C, T> LazCompressor for ParLasZipCompressor<W, C, T> where
    W: SeekSink,
    C: Fn(&[LazItem], &[u8]) -> std::io::Result<Vec<u8>> + Sync,
    T: Fn(&ChunkTable, &LazVlr) -> std::io::Result<Vec<u8>>,
 {
    open spec fn takes(&self, points: Seq<u8>) -> bool {
        self.can_compress(points)
    }

    open spec fn finishes(&self) -> bool {
        self.can_finish()
    }

    open spec fn took(
        before: &Self,
        points: Seq<u8>,
        after: &Self,
        r: Result<(), LasZipError>,
    ) -> bool {
        &&& after.same_encoders(*before)
        &&& after.valid()
        &&& match r {
            Ok(()) => {
                &&& after@.table_offset != -1
                &&& points_taken(before.encoder(), before@, points, after@)
                &&& points_requested(
                    before.encoder(),
                    before@,
                    before.dest().trace(),
                    points,
                    after@,
                    after.dest().trace(),
                )
            },
            Err(LasZipError::IoError(e)) => points_refused(
                before.encoder(),
                before@,
                before.dest().trace(),
                points,
                after@,
                after.dest().trace(),
                e,
            ),
        }
    }

    open spec fn ended(before: &Self, after: &Self, r: Result<(), LasZipError>) -> bool {
        &&& after.same_encoders(*before)
        &&& after.can_finish()
        &&& before.valid() ==> after.valid()
        &&& match r {
            Ok(()) => {
                &&& after@.table_offset != -1
                &&& finished(before.encoder(), before.table_encoder(), before@, after@)
                &&& finish_requested(
                    before.encoder(),
                    before.table_encoder(),
                    before@,
                    before.dest().trace(),
                    after@,
                    after.dest().trace(),
                )
            },
            Err(LasZipError::IoError(IoError::Direct(x))) => finish_refused(
                before.encoder(),
                before.table_encoder(),
                before@,
                before.dest().trace(),
                after@,
                after.dest().trace(),
                x,
            ),
            Err(LasZipError::IoError(IoError::Other(_))) => false,
        }
    }

    fn compress_many(&mut self, points: &[u8]) -> (r: Result<(), LasZipError>) {
        match ParLasZipCompressor::compress_many(self, points) {
            Ok(()) => Ok(()),
            Err(e) => Err(LasZipError::IoError(e)),
        }
    }

    fn done(&mut self) -> (r: Result<(), LasZipError>) {
        ParLasZipCompressor::done(self)
    }
}

} // verus!
