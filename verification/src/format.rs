//! The HDDM byte format above XDR: element frames and compression status
//! tokens, as spec functions, with the lemmas that reading undoes writing.
use vstd::prelude::*;

use crate::error::{FormatError, HddmError, IoFailure};
use crate::xdr::{be_i32, i32_from_be, lemma_i32_prefix, lemma_i32_roundtrip};
use crate::Compression;

verus! {

/// The status bits that announce a compression mode.
pub open spec fn status_bits(c: Compression) -> i32 {
    match c {
        Compression::Uncompressed => 0x00,
        Compression::Zlib => 0x10,
        Compression::Bzip2 => 0x20,
    }
}

/// An element: its payload length as a 32-bit integer, then the payload.
/// A length beyond `i32::MAX` is written truncated to 32 bits.
pub open spec fn element_frame(payload: Seq<u8>) -> Seq<u8> {
    be_i32(payload.len() as i32) + payload
}

/// What reading an element from the front of `rem` gives: its payload, and
/// how many bytes the read consumes. A read that runs out of bytes consumes
/// all of them.
pub open spec fn element_read(rem: Seq<u8>) -> (Result<Seq<u8>, HddmError>, nat) {
    if rem.len() < 4 {
        (Err(HddmError::IoError(IoFailure::UnexpectedEof)), rem.len())
    } else {
        let size = i32_from_be(rem);
        if size < 0 {
            (Err(HddmError::FormatError(FormatError::NegativeElementSize(size))), 4)
        } else if rem.len() < 4 + size {
            (Err(HddmError::IoError(IoFailure::UnexpectedEof)), rem.len())
        } else {
            (Ok(rem.subrange(4, 4 + size)), (4 + size) as nat)
        }
    }
}

/// The body of a compression status token after its marker: the token size
/// 8, the format 0, and the status bits.
pub open spec fn token_body(c: Compression) -> Seq<u8> {
    be_i32(8) + be_i32(0) + be_i32(status_bits(c))
}

/// A compression status token: the marker 1, then the body.
pub open spec fn token_bytes(c: Compression) -> Seq<u8> {
    be_i32(1) + token_body(c)
}

/// The compression mode that status bits select, after masking them with
/// the zlib and bzip2 flags.
pub open spec fn compression_of_bits(bits: i32) -> Result<Compression, HddmError> {
    let masked = bits & 0x30;
    if masked == 0 {
        Ok(Compression::Uncompressed)
    } else if masked == 0x10 {
        Ok(Compression::Zlib)
    } else if masked == 0x20 {
        Ok(Compression::Bzip2)
    } else {
        Err(HddmError::FormatError(FormatError::UnsupportedCompressionBits(masked)))
    }
}

/// What reading a token body from the front of `rem` gives, and how many
/// bytes it consumes.
pub open spec fn compression_read(rem: Seq<u8>) -> (Result<Compression, HddmError>, nat) {
    if rem.len() < 4 {
        (Err(HddmError::IoError(IoFailure::UnexpectedEof)), rem.len())
    } else if i32_from_be(rem) != 8 {
        (Err(HddmError::FormatError(FormatError::InvalidStatusTokenSize(i32_from_be(rem)))), 4)
    } else if rem.len() < 8 {
        (Err(HddmError::IoError(IoFailure::UnexpectedEof)), rem.len())
    } else if i32_from_be(rem.skip(4)) != 0 {
        (
            Err(
                HddmError::FormatError(
                    FormatError::UnsupportedStatusTokenFormat(i32_from_be(rem.skip(4))),
                ),
            ),
            8,
        )
    } else if rem.len() < 12 {
        (Err(HddmError::IoError(IoFailure::UnexpectedEof)), rem.len())
    } else {
        (compression_of_bits(i32_from_be(rem.skip(8))), 12)
    }
}

/// What reading a record payload of `size` bytes from the front of `rem`
/// gives, and how many bytes it consumes.
pub open spec fn payload_read(rem: Seq<u8>, size: i32) -> (Result<Seq<u8>, HddmError>, nat) {
    if size < 0 {
        (Err(HddmError::FormatError(FormatError::NegativeRecordSize(size))), 0)
    } else if rem.len() < size {
        (Err(HddmError::IoError(IoFailure::UnexpectedEof)), rem.len())
    } else {
        (Ok(rem.take(size as int)), size as nat)
    }
}

/// Reading an element written around `payload` gives the payload back and
/// consumes exactly the frame.
pub proof fn lemma_element_roundtrip(payload: Seq<u8>, rest: Seq<u8>)
    requires
        payload.len() <= i32::MAX,
    ensures
        element_frame(payload).len() == 4 + payload.len(),
        element_read(element_frame(payload) + rest) == (Ok::<Seq<u8>, HddmError>(payload), (4
            + payload.len()) as nat),
{
    lemma_i32_prefix(payload.len() as i32, payload + rest);
    assert(element_frame(payload) + rest =~= be_i32(payload.len() as i32) + (payload + rest));
    assert((element_frame(payload) + rest).subrange(4, 4 + payload.len() as int) =~= payload);
}

/// The status bits of a mode select that mode again.
pub proof fn lemma_status_bits(c: Compression)
    ensures
        compression_of_bits(status_bits(c)) == Ok::<Compression, HddmError>(c),
{
    assert(0x00i32 & 0x30 == 0) by (bit_vector);
    assert(0x10i32 & 0x30 == 0x10) by (bit_vector);
    assert(0x20i32 & 0x30 == 0x20) by (bit_vector);
}

/// Reading the body of a token written for `c` gives `c` back and consumes
/// exactly the body.
pub proof fn lemma_token_roundtrip(c: Compression, rest: Seq<u8>)
    ensures
        token_body(c).len() == 12,
        token_bytes(c).len() == 16,
        compression_read(token_body(c) + rest) == (Ok::<Compression, HddmError>(c), 12nat),
{
    let s = token_body(c) + rest;
    lemma_i32_prefix(8, be_i32(0) + be_i32(status_bits(c)) + rest);
    assert(s =~= be_i32(8) + (be_i32(0) + be_i32(status_bits(c)) + rest));
    lemma_i32_prefix(0, be_i32(status_bits(c)) + rest);
    assert(s.skip(4) =~= be_i32(0) + (be_i32(status_bits(c)) + rest));
    lemma_i32_prefix(status_bits(c), rest);
    assert(s.skip(8) =~= be_i32(status_bits(c)) + rest);
    lemma_status_bits(c);
    lemma_i32_roundtrip(1);
}

} // verus!
