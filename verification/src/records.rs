//! The record stream that follows the header: records, compression status
//! tokens and compressed blocks of records; what a reader makes of such a
//! stream, step by step; and the theorem that reading a well-formed stream
//! gives back its records in order.
use vstd::prelude::*;

use crate::codec::{bzip2_compressed, bzip2_decompressed, zlib_compressed, zlib_decompressed};
use crate::error::{FormatError, HddmError, IoFailure};
use crate::format::{
    compression_read, element_frame, lemma_element_roundtrip, lemma_token_roundtrip, payload_read,
    token_body, token_bytes,
};
use crate::xdr::{be_i32, i32_from_be, lemma_i32_prefix};
use crate::Compression;

verus! {

// ---------------------------------------------------------------------------
// What a writer puts in the stream
// ---------------------------------------------------------------------------

/// One piece of a record stream.
pub enum Segment {
    /// A record outside any block: its element frame.
    Record(Seq<u8>),
    /// A status token switching to a compression mode.
    Token(Compression),
    /// A compressed block holding the frames of these records, compressed
    /// by this library's codec call.
    Block(Compression, Seq<Seq<u8>>),
    /// A compressed block given by its compressed bytes, which hold the
    /// frames of these records and, where a mode is given, then a status
    /// token switching to it.
    Packed(Compression, Seq<u8>, Seq<Seq<u8>>, Option<Compression>),
}

/// The bytes of a status token switching to `t`, where one is given.
pub open spec fn token_tail(t: Option<Compression>) -> Seq<u8> {
    match t {
        Some(c) => token_bytes(c),
        None => Seq::empty(),
    }
}

/// A compressed block as it appears in the stream: the size of the
/// compressed bytes, then the bytes (a size beyond `i32::MAX` is written
/// truncated to 32 bits).
pub open spec fn sized(cb: Seq<u8>) -> Seq<u8> {
    be_i32(cb.len() as i32) + cb
}

/// The element frames of `ps`, one after the other.
pub open spec fn frames(ps: Seq<Seq<u8>>) -> Seq<u8>
    decreases ps.len(),
{
    if ps.len() == 0 {
        Seq::empty()
    } else {
        element_frame(ps[0]) + frames(ps.drop_first())
    }
}

/// The codec's compressed form of `data` in mode `c`.
pub open spec fn compressed(c: Compression, data: Seq<u8>) -> Seq<u8> {
    match c {
        Compression::Zlib => zlib_compressed(data),
        Compression::Bzip2 => bzip2_compressed(data),
        Compression::Uncompressed => data,
    }
}

/// The codec's decoding of `data` in mode `c`.
pub open spec fn decompressed(c: Compression, data: Seq<u8>) -> Option<Seq<u8>> {
    match c {
        Compression::Zlib => zlib_decompressed(data),
        Compression::Bzip2 => bzip2_decompressed(data),
        Compression::Uncompressed => Some(data),
    }
}

/// A block: the size of the compressed frames, then the compressed frames.
pub open spec fn block_bytes(c: Compression, ps: Seq<Seq<u8>>) -> Seq<u8> {
    sized(compressed(c, frames(ps)))
}

/// The bytes of one segment.
pub open spec fn segment_bytes(s: Segment) -> Seq<u8> {
    match s {
        Segment::Record(p) => element_frame(p),
        Segment::Token(c) => token_bytes(c),
        Segment::Block(c, ps) => block_bytes(c, ps),
        Segment::Packed(_, cb, _, _) => sized(cb),
    }
}

/// The records that one segment holds.
pub open spec fn segment_payloads(s: Segment) -> Seq<Seq<u8>> {
    match s {
        Segment::Record(p) => seq![p],
        Segment::Token(_) => Seq::empty(),
        Segment::Block(_, ps) => ps,
        Segment::Packed(_, _, ps, _) => ps,
    }
}

/// The bytes of a stream of segments.
pub open spec fn stream_bytes(segs: Seq<Segment>) -> Seq<u8>
    decreases segs.len(),
{
    if segs.len() == 0 {
        Seq::empty()
    } else {
        segment_bytes(segs[0]) + stream_bytes(segs.drop_first())
    }
}

/// The records of a stream of segments, in order.
pub open spec fn stream_payloads(segs: Seq<Segment>) -> Seq<Seq<u8>>
    decreases segs.len(),
{
    if segs.len() == 0 {
        Seq::empty()
    } else {
        segment_payloads(segs[0]) + stream_payloads(segs.drop_first())
    }
}

/// The compression mode after the segments, starting in mode `m`.
pub open spec fn mode_after(segs: Seq<Segment>, m: Compression) -> Compression
    decreases segs.len(),
{
    if segs.len() == 0 {
        m
    } else {
        match segs[0] {
            Segment::Token(c) => mode_after(segs.drop_first(), c),
            Segment::Packed(_, _, _, Some(c)) => mode_after(segs.drop_first(), c),
            _ => mode_after(segs.drop_first(), m),
        }
    }
}

/// Starting in mode `m`, records outside blocks appear only without
/// compression, and each block is non-empty and in the mode of the stream.
pub open spec fn well_formed(segs: Seq<Segment>, m: Compression) -> bool
    decreases segs.len(),
{
    if segs.len() == 0 {
        true
    } else {
        match segs[0] {
            Segment::Record(_) => m == Compression::Uncompressed && well_formed(
                segs.drop_first(),
                m,
            ),
            Segment::Token(c) => well_formed(segs.drop_first(), c),
            Segment::Block(c, ps) => m == c && c != Compression::Uncompressed && ps.len() > 0
                && well_formed(segs.drop_first(), m),
            Segment::Packed(c, _, ps, t) => m == c && c != Compression::Uncompressed && (ps.len()
                > 0 || t is Some) && well_formed(
                segs.drop_first(),
                match t {
                    Some(c2) => c2,
                    None => m,
                },
            ),
        }
    }
}

/// A payload whose frame cannot be taken for a status token marker (a size
/// of 1) and whose size fits the 32-bit size field.
pub open spec fn payload_unambiguous(p: Seq<u8>) -> bool {
    p.len() != 1 && p.len() <= i32::MAX
}

/// The codec of mode `c` gives `data` back from its compressed form, which
/// holds at least four bytes.
pub open spec fn codec_round_trips(c: Compression, data: Seq<u8>) -> bool {
    &&& decompressed(c, compressed(c, data)) == Some(data)
    &&& compressed(c, data).len() >= 4
}

/// The codec gives a block's frames back from its compressed form.
pub open spec fn block_decodes(c: Compression, ps: Seq<Seq<u8>>) -> bool {
    codec_round_trips(c, frames(ps))
}

/// A block decodes to its frames (and its token, where it ends in one).
pub open spec fn segment_decodes(s: Segment) -> bool {
    match s {
        Segment::Block(c, ps) => block_decodes(c, ps),
        Segment::Packed(c, cb, ps, t) => decompressed(c, cb) == Some(frames(ps) + token_tail(t)),
        _ => true,
    }
}

/// Every block of the stream decodes to its frames.
pub open spec fn blocks_decode(segs: Seq<Segment>) -> bool {
    forall|i: int| 0 <= i < segs.len() ==> segment_decodes(#[trigger] segs[i])
}

/// Every size field of the stream is unambiguous: no record and no given
/// compressed block has size 1 (a block compressed by this library's codec
/// calls never has), and every size fits in 32 bits.
pub open spec fn unambiguous(segs: Seq<Segment>) -> bool {
    forall|i: int|
        0 <= i < segs.len() ==> match #[trigger] segs[i] {
            Segment::Record(p) => payload_unambiguous(p),
            Segment::Token(_) => true,
            Segment::Block(c, ps) => {
                &&& forall|j: int| 0 <= j < ps.len() ==> payload_unambiguous(#[trigger] ps[j])
                &&& compressed(c, frames(ps)).len() <= i32::MAX
            },
            Segment::Packed(_, cb, ps, _) => {
                &&& forall|j: int| 0 <= j < ps.len() ==> payload_unambiguous(#[trigger] ps[j])
                &&& cb.len() != 1
                &&& cb.len() <= i32::MAX
            },
        }
}

// ---------------------------------------------------------------------------
// What a reader makes of the stream
// ---------------------------------------------------------------------------

/// A record reader, abstractly: the raw bytes left, the compression mode,
/// and the decompressed bytes left of the current block, if there is one.
pub struct RecordStreamState {
    pub raw: Seq<u8>,
    pub mode: Compression,
    pub block: Option<Seq<u8>>,
}

/// Whether there is no current block, or nothing is left of it.
pub open spec fn block_exhausted(b: Option<Seq<u8>>) -> bool {
    match b {
        None => true,
        Some(x) => x.len() == 0,
    }
}

pub open spec fn block_measure(b: Option<Seq<u8>>) -> nat {
    match b {
        None => 0,
        Some(x) => x.len() + 1,
    }
}

/// The error for a block with a negative size in mode `c`.
pub open spec fn negative_block_error(c: Compression, size: i32) -> HddmError {
    if c == Compression::Bzip2 {
        HddmError::FormatError(FormatError::NegativeBzip2BlockSize(size))
    } else {
        HddmError::FormatError(FormatError::NegativeZlibBlockSize(size))
    }
}

/// The reader with raw bytes `raw` and the rest unchanged.
pub open spec fn with_raw(s: RecordStreamState, raw: Seq<u8>) -> RecordStreamState {
    RecordStreamState { raw, mode: s.mode, block: s.block }
}

/// The reader with current block `block` and the rest unchanged.
pub open spec fn with_block(s: RecordStreamState, block: Seq<u8>) -> RecordStreamState {
    RecordStreamState { raw: s.raw, mode: s.mode, block: Some(block) }
}

/// One call of `next_record_payload`: the record it returns (or `None` at
/// the end of the stream, or the error), and the reader afterwards.
pub open spec fn read_step(s: RecordStreamState) -> (
    Result<Option<Seq<u8>>, HddmError>,
    RecordStreamState,
)
    decreases s.raw.len(), block_measure(s.block), 2int,
{
    if s.mode != Compression::Uncompressed && !block_exhausted(s.block) {
        block_step(s)
    } else if s.raw.len() < 4 {
        (Ok(None), with_raw(s, Seq::empty()))
    } else {
        let size = i32_from_be(s.raw);
        let rest = s.raw.skip(4);
        if size == 1 {
            let (c, used) = compression_read(rest);
            match c {
                Ok(m) => read_step(
                    RecordStreamState { raw: rest.skip(used as int), mode: m, block: None },
                ),
                Err(e) => (Err(e), with_raw(s, rest.skip(used as int))),
            }
        } else if s.mode == Compression::Uncompressed {
            let (p, used) = payload_read(rest, size);
            match p {
                Ok(p) => (Ok(Some(p)), with_raw(s, rest.skip(used as int))),
                Err(e) => (Err(e), with_raw(s, rest.skip(used as int))),
            }
        } else if size < 0 {
            (Err(negative_block_error(s.mode, size)), with_raw(s, rest))
        } else if rest.len() < size {
            (Err(HddmError::IoError(IoFailure::UnexpectedEof)), with_raw(s, Seq::empty()))
        } else {
            match decompressed(s.mode, rest.take(size as int)) {
                None => (
                    Err(HddmError::IoError(IoFailure::DecompressionFailed)),
                    with_raw(s, rest.skip(size as int)),
                ),
                Some(d) => block_step(
                    RecordStreamState { raw: rest.skip(size as int), mode: s.mode, block: Some(d) },
                ),
            }
        }
    }
}

/// Reading the next record from the current block.
pub open spec fn block_step(s: RecordStreamState) -> (
    Result<Option<Seq<u8>>, HddmError>,
    RecordStreamState,
)
    decreases s.raw.len(), block_measure(s.block), 1int,
{
    let b = match s.block {
        Some(b) => b,
        None => Seq::empty(),
    };
    if b.len() < 4 {
        (Err(HddmError::IoError(IoFailure::UnexpectedEof)), with_block(s, Seq::empty()))
    } else {
        let size = i32_from_be(b);
        let rest = b.skip(4);
        if size == 1 {
            let (c, used) = compression_read(rest);
            match c {
                Ok(m) => read_step(RecordStreamState { raw: s.raw, mode: m, block: None }),
                Err(e) => (Err(e), with_block(s, rest.skip(used as int))),
            }
        } else {
            let (p, used) = payload_read(rest, size);
            match p {
                Ok(p) => (Ok(Some(p)), with_block(s, rest.skip(used as int))),
                Err(e) => (Err(e), with_block(s, rest.skip(used as int))),
            }
        }
    }
}

/// Reading from `s` gives exactly the records `expected`, in order, and then
/// reports the end of the stream.
pub open spec fn reads_all(s: RecordStreamState, expected: Seq<Seq<u8>>) -> bool
    decreases expected.len(),
{
    let (r, next) = read_step(s);
    if expected.len() == 0 {
        r == Ok::<Option<Seq<u8>>, HddmError>(None)
    } else {
        r == Ok::<Option<Seq<u8>>, HddmError>(Some(expected[0])) && reads_all(
            next,
            expected.drop_first(),
        )
    }
}

// ---------------------------------------------------------------------------
// Reading a well-formed stream gives back its records
// ---------------------------------------------------------------------------

/// The frames of records start with the frame of the first record.
pub proof fn lemma_frames_nonempty(ps: Seq<Seq<u8>>)
    requires
        ps.len() > 0,
    ensures
        frames(ps) == element_frame(ps[0]) + frames(ps.drop_first()),
        frames(ps).len() >= 4,
{
}

/// Appending a record to a block appends its frame.
pub proof fn lemma_frames_push(ps: Seq<Seq<u8>>, p: Seq<u8>)
    ensures
        frames(ps.push(p)) == frames(ps) + element_frame(p),
    decreases ps.len(),
{
    if ps.len() == 0 {
        assert(ps.push(p).drop_first() =~= Seq::<Seq<u8>>::empty());
        assert(frames(ps.push(p).drop_first()) == Seq::<u8>::empty());
        assert(frames(ps) == Seq::<u8>::empty());
        assert(frames(ps.push(p)) =~= element_frame(p));
    } else {
        lemma_frames_push(ps.drop_first(), p);
        assert(ps.push(p).drop_first() =~= ps.drop_first().push(p));
        assert(frames(ps.push(p)) =~= frames(ps) + element_frame(p));
    }
}

/// Appending a segment appends its bytes, its records, and its mode effect.
pub proof fn lemma_stream_push(segs: Seq<Segment>, s: Segment, m: Compression)
    ensures
        stream_bytes(segs.push(s)) == stream_bytes(segs) + segment_bytes(s),
        stream_payloads(segs.push(s)) == stream_payloads(segs) + segment_payloads(s),
        mode_after(segs.push(s), m) == mode_after(seq![s], mode_after(segs, m)),
        well_formed(segs.push(s), m) == (well_formed(segs, m) && well_formed(
            seq![s],
            mode_after(segs, m),
        )),
    decreases segs.len(),
{
    if segs.len() == 0 {
        assert(segs.push(s) =~= seq![s]);
        assert(seq![s].drop_first() =~= Seq::<Segment>::empty());
        assert(stream_bytes(seq![s].drop_first()) == Seq::<u8>::empty());
        assert(stream_payloads(seq![s].drop_first()) == Seq::<Seq<u8>>::empty());
        assert(stream_bytes(seq![s]) =~= segment_bytes(s));
        assert(stream_payloads(seq![s]) =~= segment_payloads(s));
        assert(stream_bytes(segs) == Seq::<u8>::empty());
        assert(stream_payloads(segs) == Seq::<Seq<u8>>::empty());
    } else {
        let m2 = match segs[0] {
            Segment::Token(c) => c,
            Segment::Packed(_, _, _, Some(c)) => c,
            _ => m,
        };
        lemma_stream_push(segs.drop_first(), s, m2);
        assert(segs.push(s).drop_first() =~= segs.drop_first().push(s));
        assert(stream_bytes(segs.push(s)) =~= stream_bytes(segs) + segment_bytes(s));
        assert(stream_payloads(segs.push(s)) =~= stream_payloads(segs) + segment_payloads(s));
    }
}

/// A single segment is well formed, and changes the mode, as its kind
/// says.
pub proof fn lemma_single_segment(s: Segment, m: Compression)
    ensures
        well_formed(seq![s], m) == match s {
            Segment::Record(_) => m == Compression::Uncompressed,
            Segment::Token(_) => true,
            Segment::Block(c, ps) => m == c && c != Compression::Uncompressed && ps.len() > 0,
            Segment::Packed(c, _, ps, t) => m == c && c != Compression::Uncompressed && (ps.len()
                > 0 || t is Some),
        },
        mode_after(seq![s], m) == match s {
            Segment::Token(c) => c,
            Segment::Packed(_, _, _, Some(c)) => c,
            _ => m,
        },
{
    assert(seq![s][0] == s);
    assert(seq![s].drop_first() =~= Seq::<Segment>::empty());
    let c2 = match s {
        Segment::Token(c) => c,
        Segment::Packed(_, _, _, Some(c)) => c,
        _ => m,
    };
    assert(well_formed(Seq::<Segment>::empty(), c2));
    assert(well_formed(Seq::<Segment>::empty(), m));
    assert(mode_after(Seq::<Segment>::empty(), c2) == c2);
}

/// Reading from a block that holds the frames of `qs`, then `after`, gives
/// the first record and leaves the frames of the others, then `after`.
pub proof fn lemma_block_record(s: RecordStreamState, qs: Seq<Seq<u8>>, after: Seq<u8>)
    requires
        qs.len() > 0,
        s.mode != Compression::Uncompressed,
        s.block == Some(frames(qs) + after),
        payload_unambiguous(qs[0]),
    ensures
        read_step(s) == (
            Ok::<Option<Seq<u8>>, HddmError>(Some(qs[0])),
            with_block(s, frames(qs.drop_first()) + after),
        ),
{
    lemma_frames_nonempty(qs);
    let p = qs[0];
    let others = frames(qs.drop_first()) + after;
    let b = frames(qs) + after;
    lemma_i32_prefix(p.len() as i32, p + others);
    assert(b =~= be_i32(p.len() as i32) + (p + others));
    let rest = b.skip(4);
    assert(rest =~= p + others);
    assert(rest.take(p.len() as int) =~= p);
    assert(rest.skip(p.len() as int) =~= others);
    assert(!block_exhausted(s.block));
    assert(read_step(s) == block_step(s));
}

/// The conditions on a stream hold of its tail.
pub proof fn lemma_tail_conditions(segs: Seq<Segment>)
    requires
        segs.len() > 0,
        unambiguous(segs),
        blocks_decode(segs),
    ensures
        unambiguous(segs.drop_first()),
        blocks_decode(segs.drop_first()),
{
    let tail = segs.drop_first();
    assert forall|i: int| 0 <= i < tail.len() implies match #[trigger] tail[i] {
        Segment::Record(p) => payload_unambiguous(p),
        Segment::Token(_) => true,
        Segment::Block(c, ps) => {
            &&& forall|j: int| 0 <= j < ps.len() ==> payload_unambiguous(#[trigger] ps[j])
            &&& compressed(c, frames(ps)).len() <= i32::MAX
        },
        Segment::Packed(_, cb, ps, _) => {
            &&& forall|j: int| 0 <= j < ps.len() ==> payload_unambiguous(#[trigger] ps[j])
            &&& cb.len() != 1
            &&& cb.len() <= i32::MAX
        },
    } by {
        assert(tail[i] == segs[i + 1]);
    }
    assert forall|i: int| 0 <= i < tail.len() implies segment_decodes(#[trigger] tail[i]) by {
        assert(tail[i] == segs[i + 1]);
    }
}

/// A status token is read through: the reader switches mode, drops its
/// block and reads on.
pub proof fn lemma_step_token(c: Compression, tail: Seq<u8>, m: Compression, b: Option<Seq<u8>>)
    requires
        block_exhausted(b),
    ensures
        read_step(RecordStreamState { raw: token_bytes(c) + tail, mode: m, block: b })
            == read_step(RecordStreamState { raw: tail, mode: c, block: None }),
{
    let s = RecordStreamState { raw: token_bytes(c) + tail, mode: m, block: b };
    lemma_token_roundtrip(c, tail);
    lemma_i32_prefix(1, token_body(c) + tail);
    assert(s.raw =~= be_i32(1) + (token_body(c) + tail));
    assert(s.raw.skip(4) =~= token_body(c) + tail);
    assert((token_body(c) + tail).skip(12) =~= tail);
}

/// A record outside any block is read whole.
pub proof fn lemma_step_record(p: Seq<u8>, tail: Seq<u8>, b: Option<Seq<u8>>)
    requires
        payload_unambiguous(p),
    ensures
        read_step(
            RecordStreamState {
                raw: element_frame(p) + tail,
                mode: Compression::Uncompressed,
                block: b,
            },
        ) == (
            Ok::<Option<Seq<u8>>, HddmError>(Some(p)),
            RecordStreamState { raw: tail, mode: Compression::Uncompressed, block: b },
        ),
{
    let s = RecordStreamState { raw: element_frame(p) + tail, mode: Compression::Uncompressed, block: b };
    lemma_i32_prefix(p.len() as i32, p + tail);
    assert(s.raw =~= be_i32(p.len() as i32) + (p + tail));
    let rest = s.raw.skip(4);
    assert(rest =~= p + tail);
    assert(rest.take(p.len() as int) =~= p);
    assert(rest.skip(p.len() as int) =~= tail);
}

/// A block is loaded and decoded, and reading goes on inside it.
pub proof fn lemma_step_block(c: Compression, cb: Seq<u8>, d: Seq<u8>, tail: Seq<u8>, b: Option<Seq<u8>>)
    requires
        c != Compression::Uncompressed,
        d.len() > 0,
        block_exhausted(b),
        decompressed(c, cb) == Some(d),
        cb.len() != 1,
        cb.len() <= i32::MAX,
    ensures
        read_step(RecordStreamState { raw: sized(cb) + tail, mode: c, block: b })
            == read_step(RecordStreamState { raw: tail, mode: c, block: Some(d) }),
{
    let s = RecordStreamState { raw: sized(cb) + tail, mode: c, block: b };
    lemma_i32_prefix(cb.len() as i32, cb + tail);
    assert(s.raw =~= be_i32(cb.len() as i32) + (cb + tail));
    let rest = s.raw.skip(4);
    assert(rest =~= cb + tail);
    assert(rest.take(cb.len() as int) =~= cb);
    assert(rest.skip(cb.len() as int) =~= tail);
    let s2 = RecordStreamState { raw: tail, mode: c, block: Some(d) };
    assert(read_step(s) == block_step(s2));
    assert(!block_exhausted(s2.block));
    assert(read_step(s2) == block_step(s2));
}

/// A status token at the end of a block is read through: the reader
/// switches mode, drops the block and reads on.
pub proof fn lemma_step_block_token(s: RecordStreamState, t: Compression)
    requires
        s.mode != Compression::Uncompressed,
        s.block == Some(token_bytes(t)),
    ensures
        read_step(s) == read_step(RecordStreamState { raw: s.raw, mode: t, block: None }),
{
    lemma_token_roundtrip(t, Seq::empty());
    lemma_i32_prefix(1, token_body(t));
    let b = token_bytes(t);
    assert(b.skip(4) =~= token_body(t));
    assert(token_body(t) + Seq::<u8>::empty() =~= token_body(t));
    assert(!block_exhausted(s.block));
    assert(read_step(s) == block_step(s));
}

/// Two readers whose next step agrees read the same records.
pub proof fn lemma_reads_all_same_step(s1: RecordStreamState, s2: RecordStreamState, x: Seq<Seq<u8>>)
    requires
        read_step(s1) == read_step(s2),
    ensures
        reads_all(s1, x) == reads_all(s2, x),
{
}

/// The mode that reading goes on in once the current block is read: that
/// of the token it ends in, where it ends in one, else `m`.
pub open spec fn mode_after_block(m: Compression, t: Option<Compression>) -> Compression {
    match t {
        Some(c) => c,
        None => m,
    }
}

/// How many tokens are left in the current block.
pub open spec fn token_count(t: Option<Compression>) -> nat {
    if t is Some {
        1
    } else {
        0
    }
}

/// Reading a well-formed, unambiguous stream whose blocks decode, in the
/// mode `m` it was written from, with the frames of `qs` and then the
/// token of `t` (where there is one) left in the current block, gives the
/// records `qs` and then those of the stream, and then the end.
pub proof fn lemma_reads_segments(
    segs: Seq<Segment>,
    m: Compression,
    qs: Seq<Seq<u8>>,
    t: Option<Compression>,
    b: Option<Seq<u8>>,
)
    requires
        well_formed(segs, mode_after_block(m, t)),
        unambiguous(segs),
        blocks_decode(segs),
        forall|j: int| 0 <= j < qs.len() ==> payload_unambiguous(#[trigger] qs[j]),
        qs.len() > 0 || t is Some ==> b == Some(frames(qs) + token_tail(t)) && m
            != Compression::Uncompressed,
        qs.len() == 0 && t is None ==> block_exhausted(b),
    ensures
        reads_all(
            RecordStreamState { raw: stream_bytes(segs), mode: m, block: b },
            qs + stream_payloads(segs),
        ),
    decreases segs.len(), qs.len() + token_count(t),
{
    let s = RecordStreamState { raw: stream_bytes(segs), mode: m, block: b };
    let expected = qs + stream_payloads(segs);
    if qs.len() > 0 {
        lemma_block_record(s, qs, token_tail(t));
        let rest_qs = qs.drop_first();
        lemma_reads_segments(segs, m, rest_qs, t, Some(frames(rest_qs) + token_tail(t)));
        assert(expected[0] == qs[0]);
        assert(expected.drop_first() =~= rest_qs + stream_payloads(segs));
    } else if t is Some {
        let c = t->Some_0;
        assert(frames(qs) + token_tail(t) =~= token_bytes(c));
        lemma_step_block_token(s, c);
        let s2 = RecordStreamState { raw: stream_bytes(segs), mode: c, block: None };
        lemma_reads_segments(segs, c, qs, None, None);
        lemma_reads_all_same_step(s, s2, expected);
    } else if segs.len() == 0 {
        assert(expected =~= Seq::<Seq<u8>>::empty());
        assert(stream_bytes(segs) == Seq::<u8>::empty());
    } else {
        let tail = segs.drop_first();
        lemma_tail_conditions(segs);
        let first = segs[0];
        assert(stream_bytes(segs) == segment_bytes(first) + stream_bytes(tail));
        assert(stream_payloads(segs) == segment_payloads(first) + stream_payloads(tail));
        assert(segment_decodes(segs[0]));
        match first {
            Segment::Token(c) => {
                lemma_step_token(c, stream_bytes(tail), m, b);
                let s2 = RecordStreamState { raw: stream_bytes(tail), mode: c, block: None };
                lemma_reads_segments(tail, c, Seq::empty(), None, None);
                assert(expected =~= Seq::<Seq<u8>>::empty() + stream_payloads(tail));
                lemma_reads_all_same_step(s, s2, expected);
            },
            Segment::Record(p) => {
                assert(payload_unambiguous(p));
                lemma_step_record(p, stream_bytes(tail), b);
                lemma_reads_segments(tail, m, Seq::empty(), None, b);
                assert(expected[0] == p);
                assert(expected.drop_first() =~= Seq::<Seq<u8>>::empty() + stream_payloads(tail));
            },
            Segment::Block(c, ps) => {
                lemma_frames_nonempty(ps);
                assert(block_bytes(c, ps) == sized(compressed(c, frames(ps))));
                lemma_step_block(c, compressed(c, frames(ps)), frames(ps), stream_bytes(tail), b);
                let s2 = RecordStreamState { raw: stream_bytes(tail), mode: c, block: Some(frames(ps)) };
                assert forall|j: int| 0 <= j < ps.len() implies payload_unambiguous(
                    #[trigger] ps[j],
                ) by {
                    assert(segs[0] == first);
                }
                assert(frames(ps) + token_tail(None) =~= frames(ps));
                lemma_reads_segments(tail, c, ps, None, Some(frames(ps)));
                assert(expected =~= ps + stream_payloads(tail));
                lemma_reads_all_same_step(s, s2, expected);
            },
            Segment::Packed(c, cb, ps, t2) => {
                let d = frames(ps) + token_tail(t2);
                if ps.len() > 0 {
                    lemma_frames_nonempty(ps);
                } else {
                    lemma_token_roundtrip(t2->Some_0, Seq::empty());
                }
                lemma_step_block(c, cb, d, stream_bytes(tail), b);
                let s2 = RecordStreamState { raw: stream_bytes(tail), mode: c, block: Some(d) };
                assert forall|j: int| 0 <= j < ps.len() implies payload_unambiguous(
                    #[trigger] ps[j],
                ) by {
                    assert(segs[0] == first);
                }
                lemma_reads_segments(tail, c, ps, t2, Some(d));
                assert(expected =~= ps + stream_payloads(tail));
                lemma_reads_all_same_step(s, s2, expected);
            },
        }
    }
}

/// Reading a well-formed, unambiguous stream whose blocks decode, from its
/// start without compression, gives back its records in order and then
/// the end of the stream. Its blocks may be this library's own or any
/// compressed bytes that decode to their frames, and a block may end in a
/// status token.
pub proof fn theorem_stream_roundtrip(segs: Seq<Segment>)
    requires
        well_formed(segs, Compression::Uncompressed),
        unambiguous(segs),
        blocks_decode(segs),
    ensures
        reads_all(
            RecordStreamState { raw: stream_bytes(segs), mode: Compression::Uncompressed, block: None },
            stream_payloads(segs),
        ),
{
    lemma_reads_segments(segs, Compression::Uncompressed, Seq::empty(), None, None);
    assert(Seq::<Seq<u8>>::empty() + stream_payloads(segs) =~= stream_payloads(segs));
}

} // verus!
