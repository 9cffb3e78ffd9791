//! Streams of zlib blocks made one per write: each write is compressed on
//! its own and stored after the size of the compressed bytes, a big-endian
//! `u32`; a reader decompresses the blocks one after the other.
use vstd::prelude::*;

use crate::codec::{zlib_compress, zlib_compressed, zlib_decompress, zlib_decompressed};
use crate::error::{FormatError, HddmError, HddmResult, IoFailure};
use crate::xdr::{append_bytes, be_u32, lemma_u32_prefix, u32_from_be, u32_to_be_bytes, XdrReader};
use crate::{K_BZ2_COMPRESSION, K_Z_COMPRESSION};

verus! {

/// Whether a stream of this kind holds plain bytes or zlib blocks.
#[derive(Debug, Clone, Copy, PartialEq, Eq, Structural)]
pub enum Compression {
    Uncompressed,
    Zlib,
}

/// What a status word says of the compression that follows: its zlib and
/// bzip2 bits decide; bzip2 is not implemented here.
pub open spec fn status_compression(bits: i32) -> HddmResult<Compression> {
    let b = bits & 0x30;
    if b == 0 {
        Ok(Compression::Uncompressed)
    } else if b == 0x10 {
        Ok(Compression::Zlib)
    } else if b == 0x20 {
        Err(HddmError::FormatError(FormatError::Bzip2NotImplemented))
    } else {
        Err(HddmError::FormatError(FormatError::UnsupportedCompressionBits(b)))
    }
}

/// The compression that status word `bits` announces.
pub fn compression_from_status_bits(bits: i32) -> (r: HddmResult<Compression>)
    ensures
        r == status_compression(bits),
{
    let b = bits & (K_Z_COMPRESSION | K_BZ2_COMPRESSION);
    proof {
        assert(K_Z_COMPRESSION | K_BZ2_COMPRESSION == 0x30) by (bit_vector);
    }
    if b == 0 {
        Ok(Compression::Uncompressed)
    } else if b == K_Z_COMPRESSION {
        Ok(Compression::Zlib)
    } else if b == K_BZ2_COMPRESSION {
        Err(HddmError::FormatError(FormatError::Bzip2NotImplemented))
    } else {
        Err(HddmError::FormatError(FormatError::UnsupportedCompressionBits(b)))
    }
}

/// The block that one write of `data` stores: the size of its zlib stream,
/// cut to 32 bits, then the stream.
pub open spec fn write_block(data: Seq<u8>) -> Seq<u8> {
    be_u32(zlib_compressed(data).len() as u32) + zlib_compressed(data)
}

/// Compresses each write on its own into a block after `inner`.
pub struct ZlibBlockWriter {
    inner: Vec<u8>,
}

impl ZlibBlockWriter {
    /// The bytes stored so far.
    pub closed spec fn sink(&self) -> Seq<u8> {
        self.inner@
    }

    /// A writer that stores blocks after `inner`.
    pub fn new(inner: Vec<u8>) -> (w: Self)
        ensures
            w.sink() == inner@,
    {
        ZlibBlockWriter { inner }
    }

    /// The bytes stored.
    pub fn into_inner(self) -> (v: Vec<u8>)
        ensures
            v@ == self.sink(),
    {
        self.inner
    }

    /// Stores `buf` as one block and reports all of it taken; an empty
    /// `buf` stores nothing.
    pub fn write(&mut self, buf: &[u8]) -> (r: HddmResult<usize>)
        ensures
            r == Ok::<usize, HddmError>(buf@.len() as usize),
            buf@.len() == 0 ==> final(self).sink() == old(self).sink(),
            buf@.len() > 0 ==> final(self).sink() == old(self).sink() + write_block(buf@)
                && zlib_decompressed(zlib_compressed(buf@)) == Some(buf@),
    {
        if buf.len() == 0 {
            return Ok(0);
        }
        let compressed = zlib_compress(buf)?;
        let size = compressed.len() as u32;
        let head = u32_to_be_bytes(size);
        append_bytes(&mut self.inner, &head);
        append_bytes(&mut self.inner, compressed.as_slice());
        proof {
            assert(self.inner@ =~= old(self).inner@ + write_block(buf@));
        }
        Ok(buf.len())
    }

    /// Nothing is held back: flushing does nothing.
    pub fn flush(&mut self) -> (r: HddmResult<()>)
        ensures
            r is Ok,
            *final(self) == *old(self),
    {
        Ok(())
    }
}

/// One read of at most `max` bytes from a block reader whose source has
/// `raw` left and whose current block has `cur` left: the bytes read (none
/// at the end of the source), and the source and block left after it.
/// While nothing can be given (the block is exhausted, or `max` is 0), the
/// next block is decompressed in place of the current one.
pub open spec fn block_read(raw: Seq<u8>, cur: Seq<u8>, max: nat) -> (
    Result<Seq<u8>, HddmError>,
    Seq<u8>,
    Seq<u8>,
)
    decreases raw.len(),
{
    if max > 0 && cur.len() > 0 {
        let n = if max < cur.len() {
            max as int
        } else {
            cur.len() as int
        };
        (Ok(cur.take(n)), raw, cur.skip(n))
    } else if raw.len() < 4 {
        (Ok(Seq::empty()), Seq::empty(), cur)
    } else {
        let size = u32_from_be(raw) as int;
        let rest = raw.skip(4);
        if rest.len() < size {
            (Err(HddmError::IoError(IoFailure::UnexpectedEof)), Seq::empty(), cur)
        } else {
            match zlib_decompressed(rest.take(size)) {
                None => (
                    Err(HddmError::IoError(IoFailure::DecompressionFailed)),
                    rest.skip(size),
                    cur,
                ),
                Some(d) => block_read(rest.skip(size), d, max),
            }
        }
    }
}

/// Reads the bytes of the blocks that a `ZlibBlockWriter` stored.
pub struct ZlibBlockReader {
    inner: XdrReader,
    current: XdrReader,
}

impl ZlibBlockReader {
    /// The source bytes not read yet.
    pub closed spec fn source(&self) -> Seq<u8> {
        self.inner.remaining()
    }

    /// The decompressed bytes of the current block not read yet.
    pub closed spec fn block(&self) -> Seq<u8> {
        self.current.remaining()
    }

    /// A reader at the start of `inner`, with no current block.
    pub fn new(inner: Vec<u8>) -> (r: Self)
        ensures
            r.source() == inner@,
            r.block() == Seq::<u8>::empty(),
    {
        ZlibBlockReader { inner: XdrReader::new(inner), current: XdrReader::new(Vec::new()) }
    }

    /// Decompresses the next block into the current one: `false` where
    /// fewer than four source bytes are left (they are consumed).
    fn refill(&mut self) -> (r: HddmResult<bool>)
        ensures
            ({
                let raw = old(self).source();
                if raw.len() < 4 {
                    r == Ok::<bool, HddmError>(false) && final(self).source().len() == 0
                        && final(self).block() == old(self).block()
                } else {
                    let size = u32_from_be(raw) as int;
                    let rest = raw.skip(4);
                    if rest.len() < size {
                        r == Err::<bool, HddmError>(HddmError::IoError(IoFailure::UnexpectedEof))
                            && final(self).source().len() == 0 && final(self).block() == old(self).block()
                    } else {
                        &&& final(self).source() == rest.skip(size)
                        &&& match zlib_decompressed(rest.take(size)) {
                            None => r == Err::<bool, HddmError>(
                                HddmError::IoError(IoFailure::DecompressionFailed),
                            ) && final(self).block() == old(self).block(),
                            Some(d) => r == Ok::<bool, HddmError>(true) && final(self).block()
                                == d,
                        }
                    }
                }
            }),
    {
        let size = match self.inner.read_u32() {
            Ok(size) => size,
            Err(_) => {
                return Ok(false);
            },
        };
        let compressed = self.inner.read_n(size as usize)?;
        let decompressed = zlib_decompress(compressed.as_slice())?;
        self.current = XdrReader::new(decompressed);
        Ok(true)
    }

    /// Reads at most `max` bytes: from the current block while it has any,
    /// else from the next block; none at the end of the source.
    pub fn read(&mut self, max: usize) -> (r: HddmResult<Vec<u8>>)
        ensures
            ({
                let (res, raw, cur) = block_read(old(self).source(), old(self).block(), max as nat);
                &&& final(self).source() == raw
                &&& final(self).block() == cur
                &&& match r {
                    Ok(v) => res == Ok::<Seq<u8>, HddmError>(v@),
                    Err(e) => res == Err::<Seq<u8>, HddmError>(e),
                }
            }),
    {
        let ghost target = block_read(self.source(), self.block(), max as nat);
        loop
            invariant
                block_read(self.source(), self.block(), max as nat) == target,
                target == block_read(old(self).source(), old(self).block(), max as nat),
            decreases self.source().len(),
        {
            let left = self.current.remaining_len();
            if max > 0 && left > 0 {
                let n = if max < left {
                    max
                } else {
                    left
                };
                return self.current.read_n(n);
            }
            let ghost s0 = self.source();
            if !self.refill()? {
                return Ok(Vec::new());
            }
            proof {
                assert(self.source().len() < s0.len());
            }
        }
    }
}

/// A block that one write stored comes back whole from one read of at
/// least its size, and the reader then stands at the next block; provided
/// the write was not empty and its compressed size fits in 32 bits.
pub proof fn lemma_block_reads_back(buf: Seq<u8>, rest: Seq<u8>, max: nat)
    requires
        buf.len() > 0,
        max >= buf.len(),
        zlib_decompressed(zlib_compressed(buf)) == Some(buf),
        zlib_compressed(buf).len() <= u32::MAX,
    ensures
        block_read(write_block(buf) + rest, Seq::empty(), max) == (
            Ok::<Seq<u8>, HddmError>(buf),
            rest,
            Seq::<u8>::empty(),
        ),
{
    let c = zlib_compressed(buf);
    let size = c.len() as u32;
    lemma_u32_prefix(size, c + rest);
    assert(write_block(buf) + rest =~= be_u32(size) + (c + rest));
    assert((c + rest).take(c.len() as int) =~= c);
    assert((c + rest).skip(c.len() as int) =~= rest);
    assert(buf.take(buf.len() as int) =~= buf);
    assert(buf.skip(buf.len() as int) =~= Seq::<u8>::empty());
    assert(size as int == c.len());
    reveal_with_fuel(block_read, 2);
}

/// The blocks that writes of `ws`, one after the other, store.
pub open spec fn write_blocks(ws: Seq<Seq<u8>>) -> Seq<u8>
    decreases ws.len(),
{
    if ws.len() == 0 {
        Seq::empty()
    } else {
        write_block(ws[0]) + write_blocks(ws.drop_first())
    }
}

/// Reads of at most `max` bytes each, from a source with `raw` left and a
/// current block with `cur` left, give `ws` in order and then nothing.
pub open spec fn reads_back(raw: Seq<u8>, cur: Seq<u8>, max: nat, ws: Seq<Seq<u8>>) -> bool
    decreases ws.len(),
{
    let (r, raw2, cur2) = block_read(raw, cur, max);
    if ws.len() == 0 {
        r == Ok::<Seq<u8>, HddmError>(Seq::empty())
    } else {
        r == Ok::<Seq<u8>, HddmError>(ws[0]) && reads_back(raw2, cur2, max, ws.drop_first())
    }
}

/// Blocks stored by a run of writes come back, one read each, in order,
/// from reads of at least the size of every write, and then the reads give
/// nothing; provided no write was empty and every compressed size fits in
/// 32 bits.
pub proof fn lemma_blocks_read_back(ws: Seq<Seq<u8>>, max: nat)
    requires
        forall|i: int|
            0 <= i < ws.len() ==> {
                &&& (#[trigger] ws[i]).len() > 0
                &&& max >= ws[i].len()
                &&& zlib_decompressed(zlib_compressed(ws[i])) == Some(ws[i])
                &&& zlib_compressed(ws[i]).len() <= u32::MAX
            },
    ensures
        reads_back(write_blocks(ws), Seq::empty(), max, ws),
    decreases ws.len(),
{
    if ws.len() == 0 {
        assert(block_read(Seq::<u8>::empty(), Seq::<u8>::empty(), max).0 == Ok::<Seq<u8>, HddmError>(
            Seq::empty(),
        ));
    } else {
        let tail = ws.drop_first();
        assert(ws[0].len() > 0);
        lemma_block_reads_back(ws[0], write_blocks(tail), max);
        assert forall|i: int| 0 <= i < tail.len() implies {
            &&& (#[trigger] tail[i]).len() > 0
            &&& max >= tail[i].len()
            &&& zlib_decompressed(zlib_compressed(tail[i])) == Some(tail[i])
            &&& zlib_compressed(tail[i]).len() <= u32::MAX
        } by {
            assert(tail[i] == ws[i + 1]);
        }
        lemma_blocks_read_back(tail, max);
    }
}

/// Reads of at most `max` bytes each, from a source with `raw` left and a
/// current block with `cur` left, give the bytes `expected` in order, some
/// bytes at each read, and then a read gives nothing.
pub open spec fn reads_stream(raw: Seq<u8>, cur: Seq<u8>, max: nat, expected: Seq<u8>) -> bool
    decreases expected.len(),
{
    let (r, raw2, cur2) = block_read(raw, cur, max);
    if expected.len() == 0 {
        r == Ok::<Seq<u8>, HddmError>(Seq::empty())
    } else {
        r matches Ok(v) && 0 < v.len() <= expected.len() && v == expected.take(v.len() as int)
            && reads_stream(raw2, cur2, max, expected.skip(v.len() as int))
    }
}

/// The bytes of `ws`, one write after the other.
pub open spec fn joined(ws: Seq<Seq<u8>>) -> Seq<u8>
    decreases ws.len(),
{
    if ws.len() == 0 {
        Seq::empty()
    } else {
        ws[0] + joined(ws.drop_first())
    }
}

/// Whether every write of `ws` is non-empty, decodes back from its
/// compressed form, and has a compressed size that fits in 32 bits.
pub open spec fn writes_fit(ws: Seq<Seq<u8>>) -> bool {
    forall|i: int|
        0 <= i < ws.len() ==> {
            &&& (#[trigger] ws[i]).len() > 0
            &&& zlib_decompressed(zlib_compressed(ws[i])) == Some(ws[i])
            &&& zlib_compressed(ws[i]).len() <= u32::MAX
        }
}

/// Blocks stored by a run of writes, read with any read size above zero
/// after the bytes `cur` left of a current block, give those bytes and then
/// the bytes of every write, in order, some at each read, and then nothing.
pub proof fn lemma_blocks_stream_back(ws: Seq<Seq<u8>>, cur: Seq<u8>, max: nat)
    requires
        max > 0,
        writes_fit(ws),
    ensures
        reads_stream(write_blocks(ws), cur, max, cur + joined(ws)),
    decreases ws.len(), cur.len(),
{
    let expected = cur + joined(ws);
    if cur.len() > 0 {
        let n = if max < cur.len() {
            max as int
        } else {
            cur.len() as int
        };
        lemma_blocks_stream_back(ws, cur.skip(n), max);
        assert(expected.take(n) =~= cur.take(n));
        assert(expected.skip(n) =~= cur.skip(n) + joined(ws));
    } else if ws.len() == 0 {
        assert(expected =~= Seq::<u8>::empty());
        assert(write_blocks(ws) =~= Seq::<u8>::empty());
    } else {
        let tail = ws.drop_first();
        let b = ws[0];
        assert(b.len() > 0 && zlib_decompressed(zlib_compressed(b)) == Some(b));
        assert(writes_fit(tail)) by {
            assert forall|i: int| 0 <= i < tail.len() implies {
                &&& (#[trigger] tail[i]).len() > 0
                &&& zlib_decompressed(zlib_compressed(tail[i])) == Some(tail[i])
                &&& zlib_compressed(tail[i]).len() <= u32::MAX
            } by {
                assert(tail[i] == ws[i + 1]);
            }
        }
        let c = zlib_compressed(b);
        let rest = write_blocks(tail);
        let size = c.len() as u32;
        lemma_u32_prefix(size, c + rest);
        assert(write_blocks(ws) =~= be_u32(size) + (c + rest));
        assert((c + rest).take(c.len() as int) =~= c);
        assert((c + rest).skip(c.len() as int) =~= rest);
        assert(size as int == c.len());
        assert(block_read(write_blocks(ws), cur, max) == block_read(rest, b, max));
        lemma_blocks_stream_back(tail, b, max);
        assert(expected =~= b + joined(tail));
        assert(reads_stream(rest, b, max, b + joined(tail)));
        lemma_reads_stream_same_read(write_blocks(ws), cur, rest, b, max, expected);
    }
}

/// Two readers whose next read agrees read the same bytes.
proof fn lemma_reads_stream_same_read(
    raw1: Seq<u8>,
    cur1: Seq<u8>,
    raw2: Seq<u8>,
    cur2: Seq<u8>,
    max: nat,
    expected: Seq<u8>,
)
    requires
        block_read(raw1, cur1, max) == block_read(raw2, cur2, max),
        reads_stream(raw2, cur2, max, expected),
    ensures
        reads_stream(raw1, cur1, max, expected),
{
}

/// A writer of plain bytes or of zlib blocks.
pub enum HddmOutputStream {
    Plain(Vec<u8>),
    Zlib(ZlibBlockWriter),
}

impl HddmOutputStream {
    /// The bytes stored so far.
    pub open spec fn sink(&self) -> Seq<u8> {
        match self {
            HddmOutputStream::Plain(v) => v@,
            HddmOutputStream::Zlib(w) => w.sink(),
        }
    }

    /// Writes `buf`: as it is, or as one zlib block.
    pub fn write(&mut self, buf: &[u8]) -> (r: HddmResult<usize>)
        ensures
            *final(self) is Plain <==> *old(self) is Plain,
            *old(self) is Plain ==> r == Ok::<usize, HddmError>(buf@.len() as usize) && final(self).sink() == old(self).sink() + buf@,
            *old(self) is Zlib ==> {
                &&& r == Ok::<usize, HddmError>(buf@.len() as usize)
                &&& buf@.len() == 0 ==> final(self).sink() == old(self).sink()
                &&& buf@.len() > 0 ==> final(self).sink() == old(self).sink() + write_block(buf@)
            },
    {
        match self {
            HddmOutputStream::Plain(v) => {
                append_bytes(v, buf);
                Ok(buf.len())
            },
            HddmOutputStream::Zlib(w) => w.write(buf),
        }
    }

    /// Nothing is held back: flushing does nothing.
    pub fn flush(&mut self) -> (r: HddmResult<()>)
        ensures
            r is Ok,
            *final(self) == *old(self),
    {
        Ok(())
    }
}

/// A reader of plain bytes or of zlib blocks.
pub enum HddmInputStream {
    Plain(XdrReader),
    Zlib(ZlibBlockReader),
}

impl HddmInputStream {
    /// Reads at most `max` bytes: for plain bytes, as many as are left up
    /// to `max`; for zlib blocks, as `ZlibBlockReader::read` does.
    pub fn read(&mut self, max: usize) -> (r: HddmResult<Vec<u8>>)
        ensures
            *final(self) is Plain <==> *old(self) is Plain,
            *old(self) matches HddmInputStream::Plain(p) ==> *final(self) matches HddmInputStream::Plain(q)
                && ({
                let rem = p.remaining();
                let n = if max < rem.len() {
                    max as int
                } else {
                    rem.len() as int
                };
                r matches Ok(v) && v@ == rem.take(n) && q.remaining() == rem.skip(n)
            }),
            *old(self) matches HddmInputStream::Zlib(z0) ==> *final(self) matches HddmInputStream::Zlib(z1)
                && ({
                let (res, raw, cur) = block_read(z0.source(), z0.block(), max as nat);
                &&& z1.source() == raw
                &&& z1.block() == cur
                &&& match r {
                    Ok(v) => res == Ok::<Seq<u8>, HddmError>(v@),
                    Err(e) => res == Err::<Seq<u8>, HddmError>(e),
                }
            }),
    {
        match self {
            HddmInputStream::Plain(p) => {
                let left = p.remaining_len();
                let n = if max < left {
                    max
                } else {
                    left
                };
                p.read_n(n)
            },
            HddmInputStream::Zlib(z) => z.read(max),
        }
    }
}

} // verus!
