//! The zlib and bzip2 codecs of the `flate2` and `bzip2` crates, behind
//! trusted wrappers whose results are named.
use std::io::{Read, Write};
use vstd::prelude::*;

use crate::error::{HddmError, HddmResult, IoFailure};

verus! {

/// The zlib stream that `flate2` produces for `data` at the default level.
pub uninterp spec fn zlib_compressed(data: Seq<u8>) -> Seq<u8>;

/// The bytes that `flate2` decodes from the zlib stream at the front of
/// `data`, or `None` where decoding fails.
pub uninterp spec fn zlib_decompressed(data: Seq<u8>) -> Option<Seq<u8>>;

/// The bzip2 stream that the `bzip2` crate produces for `data` at the
/// default level.
pub uninterp spec fn bzip2_compressed(data: Seq<u8>) -> Seq<u8>;

/// The bytes that the `bzip2` crate decodes from the bzip2 stream at the
/// front of `data`, or `None` where decoding fails.
pub uninterp spec fn bzip2_decompressed(data: Seq<u8>) -> Option<Seq<u8>>;

/// `flate2::write::ZlibEncoder` at the default level, fed `data` and
/// finished. Claimed: an `Ok` result is the named stream for `data`, and
/// decoding it gives `data` back (flate2 documents the encoder and decoder
/// as the two directions of one format); it holds at least six bytes, the
/// two-byte zlib header and the four-byte Adler-32 checksum that the
/// default backend (miniz_oxide, `deflate/core.rs`) writes around the
/// deflate data. It succeeds: writing into a `Vec` cannot fail, and the
/// backend reports an error only when called again after it finished or
/// on a bad parameter (miniz_oxide `deflate/stream.rs` `deflate`,
/// `deflate/core.rs` `compress_inner`; flate2 `zio.rs` `Writer`), neither of
/// which happens for one run of writes and then `finish`.
#[verifier::external_body]
pub(crate) fn zlib_compress(data: &[u8]) -> (r: HddmResult<Vec<u8>>)
    ensures
        r is Ok,
        r matches Ok(v) ==> v@ == zlib_compressed(data@) && zlib_decompressed(v@) == Some(data@),
        r matches Ok(v) ==> v@.len() >= 6,
{
    let mut encoder = flate2::write::ZlibEncoder::new(Vec::new(), flate2::Compression::default());
    encoder.write_all(data).map_err(|_| HddmError::IoError(IoFailure::CompressionFailed))?;
    encoder.finish().map_err(|_| HddmError::IoError(IoFailure::CompressionFailed))
}

/// `flate2::read::ZlibDecoder` over `data`, read to the end. Claimed: the
/// result is the named decoding of `data`; a failure is returned as
/// `DecompressionFailed`.
#[verifier::external_body]
pub(crate) fn zlib_decompress(data: &[u8]) -> (r: HddmResult<Vec<u8>>)
    ensures
        r matches Ok(v) ==> zlib_decompressed(data@) == Some(v@),
        r matches Err(e) ==> zlib_decompressed(data@) is None && e == HddmError::IoError(
            IoFailure::DecompressionFailed,
        ),
{
    let mut out = Vec::new();
    flate2::read::ZlibDecoder::new(data).read_to_end(&mut out).map_err(
        |_| HddmError::IoError(IoFailure::DecompressionFailed),
    )?;
    Ok(out)
}

/// `bzip2::write::BzEncoder` at the default level, fed `data` and finished.
/// Claimed: an `Ok` result is the named stream for `data`, and decoding it
/// gives `data` back; it holds at least four bytes, the stream header
/// `BZh` and the block-size digit that the default backend (libbz2-rs-sys,
/// `compress.rs`) writes first. It succeeds: writing into a `Vec` cannot
/// fail, and `BzEncoder` turns no error of the compressor into an `Err`
/// (bzip2 `write.rs`: `write` unwraps the compressor's result, and
/// `try_finish` fails only where the sink does).
#[verifier::external_body]
pub(crate) fn bzip2_compress(data: &[u8]) -> (r: HddmResult<Vec<u8>>)
    ensures
        r matches Ok(v) ==> v@ == bzip2_compressed(data@) && bzip2_decompressed(v@) == Some(
            data@,
        ),
        r is Ok,
        r matches Ok(v) ==> v@.len() >= 4,
{
    let mut encoder = bzip2::write::BzEncoder::new(Vec::new(), bzip2::Compression::default());
    encoder.write_all(data).map_err(|_| HddmError::IoError(IoFailure::CompressionFailed))?;
    encoder.finish().map_err(|_| HddmError::IoError(IoFailure::CompressionFailed))
}

/// `bzip2::read::BzDecoder` over `data`, read to the end. Claimed: the
/// result is the named decoding of `data`; a failure is returned as
/// `DecompressionFailed`.
#[verifier::external_body]
pub(crate) fn bzip2_decompress(data: &[u8]) -> (r: HddmResult<Vec<u8>>)
    ensures
        r matches Ok(v) ==> bzip2_decompressed(data@) == Some(v@),
        r matches Err(e) ==> bzip2_decompressed(data@) is None && e == HddmError::IoError(
            IoFailure::DecompressionFailed,
        ),
{
    let mut out = Vec::new();
    bzip2::read::BzDecoder::new(data).read_to_end(&mut out).map_err(
        |_| HddmError::IoError(IoFailure::DecompressionFailed),
    )?;
    Ok(out)
}

} // verus!
