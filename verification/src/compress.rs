//! Compression of cached build archives with zstd.

use vstd::prelude::*;
use crate::error::{io_error_text, Error};

verus! {

/// What `zstd::encode_all` makes of `data` at compression `level`: one
/// zstd frame.
pub uninterp spec fn zstd_compressed(data: Seq<u8>, level: i32) -> Seq<u8>;

/// What `zstd::decode_all` makes of `data`: the decompressed bytes, or
/// `None` where it reports an error (the input is not a sequence of valid
/// zstd frames).
pub uninterp spec fn zstd_decompressed(data: Seq<u8>) -> Option<Seq<u8>>;

/// `zstd::encode_all(data, level)`: compresses `data` into a zstd frame.
/// Stated: it succeeds, with `zstd_compressed(data, level)`, and that frame
/// decodes back to `data`. It reads from a slice and writes into a `Vec`, and
/// zstd clamps an out-of-range level to its bounds, so nothing but running
/// out of memory can make it fail; zstd is lossless, and the frame's window
/// stays within what `decode_all` accepts at every level. A frame is never
/// empty: it begins with zstd's four-byte magic number.
#[verifier::external_body]
fn zstd_encode_all(data: &[u8], level: i32) -> (out: Result<Vec<u8>, std::io::Error>)
    ensures
        out is Ok,
        out matches Ok(v) ==> v@ == zstd_compressed(data@, level),
        out matches Ok(v) ==> zstd_decompressed(v@) == Some(data@),
        out matches Ok(v) ==> v@.len() > 0,
{
    zstd::encode_all(data, level)
}

/// `zstd::decode_all(data)`: decompresses all zstd frames of `data`.
/// Stated: it succeeds exactly when `zstd_decompressed(data)` is `Some`,
/// and then gives those bytes.
#[verifier::external_body]
fn zstd_decode_all(data: &[u8]) -> (out: Result<Vec<u8>, std::io::Error>)
    ensures
        out is Ok <==> zstd_decompressed(data@) is Some,
        out matches Ok(v) ==> zstd_decompressed(data@) == Some(v@),
{
    zstd::decode_all(data)
}

/// Compresses and decompresses cache objects at a fixed zstd level.
pub struct Compressor {
    level: i32,
}

impl Compressor {
    /// The zstd compression level.
    pub closed spec fn level(&self) -> i32 {
        self.level
    }

    /// A compressor at `level`.
    pub fn new(level: i32) -> (c: Self)
        ensures
            c.level() == level,
    {
        Compressor { level }
    }

    /// Compresses `data` into one zstd frame, which decompresses back to
    /// `data` whatever the level of the compressor that decompresses it.
    pub fn compress(&self, data: &[u8]) -> (out: Result<Vec<u8>, Error>)
        ensures
            out matches Ok(v) && v@ == zstd_compressed(data@, self.level()) && zstd_decompressed(v@)
                == Some(data@) && v@.len() > 0,
    {
        match zstd_encode_all(data, self.level) {
            Ok(v) => Ok(v),
            Err(e) => Err(Error::Compress(io_error_text(&e))),
        }
    }

    /// Decompresses zstd data; data that zstd cannot decode gives a
    /// `Compress` error carrying zstd's message.
    pub fn decompress(&self, data: &[u8]) -> (out: Result<Vec<u8>, Error>)
        ensures
            out is Ok <==> zstd_decompressed(data@) is Some,
            out matches Ok(v) ==> zstd_decompressed(data@) == Some(v@),
            out matches Err(e) ==> e is Compress,
    {
        match zstd_decode_all(data) {
            Ok(v) => Ok(v),
            Err(e) => Err(Error::Compress(io_error_text(&e))),
        }
    }
}

impl Default for Compressor {
    /// A compressor at zstd level 3.
    fn default() -> (c: Self)
        ensures
            c.level() == 3,
    {
        Compressor::new(3)
    }
}

} // verus!
