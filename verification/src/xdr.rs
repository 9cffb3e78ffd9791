//! XDR encoding: big-endian integers and length-prefixed, zero-padded strings.
use vstd::prelude::*;
use vstd::utf8::*;

use crate::error::{HddmError, HddmResult, IoFailure};

verus! {

// ---------------------------------------------------------------------------
// The byte-level format
// ---------------------------------------------------------------------------

/// The four big-endian bytes of `x`.
pub open spec fn be_u32(x: u32) -> Seq<u8> {
    seq![
        (x / 0x100_0000) as u8,
        ((x / 0x1_0000) % 0x100) as u8,
        ((x / 0x100) % 0x100) as u8,
        (x % 0x100) as u8,
    ]
}

/// The value of the first four bytes of `b`, read big-endian.
pub open spec fn u32_from_be(b: Seq<u8>) -> u32 {
    (b[0] as int * 0x100_0000 + b[1] as int * 0x1_0000 + b[2] as int * 0x100 + b[3] as int) as u32
}

/// The four big-endian bytes of the two's complement of `x`.
pub open spec fn be_i32(x: i32) -> Seq<u8> {
    be_u32(x as u32)
}

/// The two's complement value of the first four bytes of `b`, read big-endian.
pub open spec fn i32_from_be(b: Seq<u8>) -> i32 {
    u32_from_be(b) as i32
}

/// The eight big-endian bytes of `x`.
pub open spec fn be_u64(x: u64) -> Seq<u8> {
    be_u32((x / 0x1_0000_0000) as u32) + be_u32((x % 0x1_0000_0000) as u32)
}

/// The value of the first eight bytes of `b`, read big-endian.
pub open spec fn u64_from_be(b: Seq<u8>) -> u64 {
    (u32_from_be(b) as int * 0x1_0000_0000 + u32_from_be(b.subrange(4, 8)) as int) as u64
}

/// The eight big-endian bytes of the two's complement of `x`.
pub open spec fn be_i64(x: i64) -> Seq<u8> {
    be_u64(x as u64)
}

/// The two's complement value of the first eight bytes of `b`, read big-endian.
pub open spec fn i64_from_be(b: Seq<u8>) -> i64 {
    u64_from_be(b) as i64
}

/// A boolean is the 32-bit integer 1 or 0.
pub open spec fn be_bool(x: bool) -> Seq<u8> {
    be_i32(if x { 1 } else { 0 })
}

/// The number of zero bytes that pad `n` bytes up to a multiple of four.
pub open spec fn xdr_padding(n: nat) -> nat {
    ((4 - (n % 4) as int) % 4) as nat
}

/// `n` zero bytes.
pub open spec fn zeros(n: nat) -> Seq<u8> {
    Seq::new(n, |i: int| 0u8)
}

/// An XDR string: the length of its UTF-8 bytes as a 32-bit integer, the
/// bytes, and zero padding up to a multiple of four.
pub open spec fn xdr_string(s: Seq<char>) -> Seq<u8> {
    let b = encode_utf8(s);
    be_u32(b.len() as u32) + b + zeros(xdr_padding(b.len()))
}

/// What reading an XDR string from the front of `rem` gives, and how many
/// bytes the read consumes. A read that runs out of bytes consumes all of
/// them.
pub open spec fn xdr_string_read(rem: Seq<u8>) -> (Result<Seq<char>, HddmError>, nat) {
    if rem.len() < 4 {
        (Err(HddmError::IoError(IoFailure::UnexpectedEof)), rem.len())
    } else {
        let n = u32_from_be(rem) as nat;
        let body_end = 4 + n;
        let pad_end = body_end + xdr_padding(n);
        if rem.len() < pad_end {
            (Err(HddmError::IoError(IoFailure::UnexpectedEof)), rem.len())
        } else {
            let bytes = rem.subrange(4, body_end as int);
            if valid_utf8(bytes) {
                (Ok(decode_utf8(bytes)), pad_end)
            } else {
                (Err(HddmError::IoError(IoFailure::InvalidData)), pad_end)
            }
        }
    }
}

// ---------------------------------------------------------------------------
// Lemmas on the encodings
// ---------------------------------------------------------------------------

/// Reading back the bytes of `x` gives `x`.
pub proof fn lemma_u32_roundtrip(x: u32)
    ensures
        be_u32(x).len() == 4,
        u32_from_be(be_u32(x)) == x,
{
    let b = be_u32(x);
    assert(b[0] as int == x / 0x100_0000);
    assert(b[1] as int == (x / 0x1_0000) % 0x100);
    assert(b[2] as int == (x / 0x100) % 0x100);
    assert(b[3] as int == x % 0x100);
    assert(x / 0x100_0000 * 0x100_0000 + (x / 0x1_0000) % 0x100 * 0x1_0000 + (x / 0x100) % 0x100
        * 0x100 + x % 0x100 == x) by (nonlinear_arith)
        requires
            0 <= x < 0x1_0000_0000,
    ;
}

/// Reading back a prefix that holds the bytes of `x` gives `x`.
pub proof fn lemma_u32_prefix(x: u32, rest: Seq<u8>)
    ensures
        (be_u32(x) + rest).len() == 4 + rest.len(),
        u32_from_be(be_u32(x) + rest) == x,
        (be_u32(x) + rest).take(4) == be_u32(x),
        (be_u32(x) + rest).skip(4) == rest,
{
    lemma_u32_roundtrip(x);
    let s = be_u32(x) + rest;
    assert(s.take(4) =~= be_u32(x));
    assert(s.skip(4) =~= rest);
    assert(s[0] == be_u32(x)[0] && s[1] == be_u32(x)[1] && s[2] == be_u32(x)[2] && s[3]
        == be_u32(x)[3]);
}

/// A 32-bit two's complement value survives the trip through its bytes.
pub proof fn lemma_i32_roundtrip(x: i32)
    ensures
        be_i32(x).len() == 4,
        i32_from_be(be_i32(x)) == x,
{
    lemma_u32_roundtrip(x as u32);
    assert(((x as u32) as i32) == x) by (bit_vector);
}

/// Reading back a prefix that holds the bytes of `x` gives `x`.
pub proof fn lemma_i32_prefix(x: i32, rest: Seq<u8>)
    ensures
        (be_i32(x) + rest).len() == 4 + rest.len(),
        i32_from_be(be_i32(x) + rest) == x,
        (be_i32(x) + rest).take(4) == be_i32(x),
        (be_i32(x) + rest).skip(4) == rest,
{
    lemma_u32_prefix(x as u32, rest);
    assert(((x as u32) as i32) == x) by (bit_vector);
}

/// A 64-bit value survives the trip through its bytes.
pub proof fn lemma_u64_roundtrip(x: u64)
    ensures
        be_u64(x).len() == 8,
        u64_from_be(be_u64(x)) == x,
{
    let hi = (x / 0x1_0000_0000) as u32;
    let lo = (x % 0x1_0000_0000) as u32;
    lemma_u32_prefix(hi, be_u32(lo));
    lemma_u32_roundtrip(lo);
    assert(be_u64(x).subrange(4, 8) =~= be_u32(lo));
    assert(hi as int * 0x1_0000_0000 + lo as int == x) by (nonlinear_arith)
        requires
            hi == x / 0x1_0000_0000,
            lo == x % 0x1_0000_0000,
    ;
}

/// A 64-bit two's complement value survives the trip through its bytes.
pub proof fn lemma_i64_roundtrip(x: i64)
    ensures
        be_i64(x).len() == 8,
        i64_from_be(be_i64(x)) == x,
{
    lemma_u64_roundtrip(x as u64);
    assert(((x as u64) as i64) == x) by (bit_vector);
}

/// The padding brings a length up to the next multiple of four.
pub proof fn lemma_padding(n: nat)
    ensures
        xdr_padding(n) < 4,
        (n + xdr_padding(n)) % 4 == 0,
{
}

/// Reading an XDR string from bytes that begin with the encoding of `s`
/// gives `s` back and consumes exactly its encoding.
pub proof fn lemma_string_roundtrip(s: Seq<char>, rest: Seq<u8>)
    requires
        encode_utf8(s).len() <= u32::MAX,
    ensures
        xdr_string_read(xdr_string(s) + rest) == (Ok::<Seq<char>, HddmError>(s), xdr_string(
            s,
        ).len()),
{
    let b = encode_utf8(s);
    let n = b.len();
    let pad = zeros(xdr_padding(n));
    let all = xdr_string(s) + rest;
    lemma_u32_prefix(n as u32, b + pad + rest);
    assert(all =~= be_u32(n as u32) + (b + pad + rest));
    assert(all.subrange(4, 4 + n as int) =~= b);
    encode_utf8_valid_utf8(s);
    encode_utf8_decode_utf8(s);
}

// ---------------------------------------------------------------------------
// Writing
// ---------------------------------------------------------------------------

/// Appends `bytes` to `out`.
pub fn append_bytes(out: &mut Vec<u8>, bytes: &[u8])
    ensures
        final(out)@ == old(out)@ + bytes@,
{
    let ghost start = out@;
    let mut i: usize = 0;
    while i < bytes.len()
        invariant
            i <= bytes.len(),
            out@ == start + bytes@.take(i as int),
        decreases bytes.len() - i,
    {
        out.push(bytes[i]);
        i = i + 1;
        assert(bytes@.take(i as int) =~= bytes@.take(i - 1) + seq![bytes@[i - 1]]);
    }
    assert(bytes@.take(i as int) =~= bytes@);
}

/// The four big-endian bytes of `x`.
pub fn u32_to_be_bytes(x: u32) -> (b: [u8; 4])
    ensures
        b@ == be_u32(x),
{
    let b = [
        (x / 0x100_0000) as u8,
        ((x / 0x1_0000) % 0x100) as u8,
        ((x / 0x100) % 0x100) as u8,
        (x % 0x100) as u8,
    ];
    assert(b@ =~= be_u32(x));
    b
}

/// The value of four big-endian bytes.
pub fn u32_from_be_bytes(b: &[u8]) -> (x: u32)
    requires
        b@.len() == 4,
    ensures
        x == u32_from_be(b@),
{
    let v: u64 = b[0] as u64 * 0x100_0000 + b[1] as u64 * 0x1_0000 + b[2] as u64 * 0x100
        + b[3] as u64;
    v as u32
}

/// Writes XDR values to an in-memory byte sink.
pub struct XdrWriter {
    pub inner: Vec<u8>,
}

impl XdrWriter {
    /// A writer that appends to `writer`.
    pub fn new(writer: Vec<u8>) -> (w: Self)
        ensures
            w.inner@ == writer@,
    {
        XdrWriter { inner: writer }
    }

    /// Appends `bytes` unchanged.
    pub fn write_all(&mut self, bytes: &[u8]) -> (r: HddmResult<()>)
        ensures
            r is Ok,
            final(self).inner@ == old(self).inner@ + bytes@,
    {
        append_bytes(&mut self.inner, bytes);
        Ok(())
    }

    /// Appends the four big-endian bytes of `value`.
    pub fn write_u32(&mut self, value: u32) -> (r: HddmResult<()>)
        ensures
            r is Ok,
            final(self).inner@ == old(self).inner@ + be_u32(value),
    {
        let b = u32_to_be_bytes(value);
        self.write_all(&b)
    }

    /// Appends the four big-endian bytes of the two's complement of `value`.
    pub fn write_i32(&mut self, value: i32) -> (r: HddmResult<()>)
        ensures
            r is Ok,
            final(self).inner@ == old(self).inner@ + be_i32(value),
    {
        self.write_u32(value as u32)
    }

    /// Appends the eight big-endian bytes of `value`.
    pub fn write_u64(&mut self, value: u64) -> (r: HddmResult<()>)
        ensures
            r is Ok,
            final(self).inner@ == old(self).inner@ + be_u64(value),
    {
        let hi = (value / 0x1_0000_0000) as u32;
        let lo = (value % 0x1_0000_0000) as u32;
        let _ = self.write_u32(hi);
        let _ = self.write_u32(lo);
        assert(final(self).inner@ =~= old(self).inner@ + be_u64(value));
        Ok(())
    }

    /// Appends the eight big-endian bytes of the two's complement of `value`.
    pub fn write_i64(&mut self, value: i64) -> (r: HddmResult<()>)
        ensures
            r is Ok,
            final(self).inner@ == old(self).inner@ + be_i64(value),
    {
        self.write_u64(value as u64)
    }

    /// Appends 1 for `true` and 0 for `false`, as a 32-bit integer.
    pub fn write_bool(&mut self, x: bool) -> (r: HddmResult<()>)
        ensures
            r is Ok,
            final(self).inner@ == old(self).inner@ + be_bool(x),
    {
        self.write_i32(if x { 1 } else { 0 })
    }

    /// Appends the XDR string of `value`: its UTF-8 length, its bytes, and
    /// zero padding to a multiple of four. A length beyond `u32::MAX` is
    /// written truncated to 32 bits.
    pub fn write_string(&mut self, value: &str) -> (r: HddmResult<()>)
        ensures
            r is Ok,
            final(self).inner@ == old(self).inner@ + be_u32(encode_utf8(value@).len() as u32)
                + encode_utf8(value@) + zeros(xdr_padding(encode_utf8(value@).len())),
            encode_utf8(value@).len() <= u32::MAX ==> final(self).inner@ == old(self).inner@
                + xdr_string(value@),
    {
        let bytes = value.as_bytes();
        let bytes_len = bytes.len() as u32;
        let _ = self.write_u32(bytes_len);
        let _ = self.write_all(bytes);
        let pad_len: usize = (4 - (bytes.len() % 4)) % 4;
        let mut pad: Vec<u8> = Vec::new();
        while pad.len() < pad_len
            invariant
                pad_len < 4,
                pad@ == zeros(pad@.len()),
                pad@.len() <= pad_len,
            decreases pad_len - pad@.len(),
        {
            pad.push(0u8);
            assert(pad@ =~= zeros(pad@.len()));
        }
        let _ = self.write_all(pad.as_slice());
        Ok(())
    }

    /// The bytes written so far, including those the writer started with.
    pub fn into_inner(self) -> (v: Vec<u8>)
        ensures
            v@ == self.inner@,
    {
        self.inner
    }
}

// ---------------------------------------------------------------------------
// Reading
// ---------------------------------------------------------------------------

/// Reads XDR values from an in-memory byte source, front to back.
pub struct XdrReader {
    pub data: Vec<u8>,
    pub pos: usize,
}

impl XdrReader {
    /// The bytes not read yet (none once the position has passed the end).
    pub open spec fn remaining(&self) -> Seq<u8> {
        if self.pos <= self.data@.len() {
            self.data@.skip(self.pos as int)
        } else {
            Seq::empty()
        }
    }

    /// A reader at the start of `reader`.
    pub fn new(reader: Vec<u8>) -> (r: Self)
        ensures
            r.data@ == reader@,
            r.pos == 0,
            r.remaining() == reader@,
    {
        let r = XdrReader { data: reader, pos: 0 };
        assert(r.remaining() =~= reader@);
        r
    }

    /// The number of bytes left to read.
    pub fn remaining_len(&self) -> (n: usize)
        ensures
            n == self.remaining().len(),
    {
        if self.pos <= self.data.len() {
            self.data.len() - self.pos
        } else {
            0
        }
    }

    /// Whether every byte has been read.
    pub fn is_empty(&self) -> (b: bool)
        ensures
            b == (self.remaining().len() == 0),
    {
        self.remaining_len() == 0
    }

    /// The number of bytes read so far.
    pub fn position(&self) -> (p: usize)
        ensures
            p == self.pos,
    {
        self.pos
    }

    /// The next `n` bytes. With fewer than `n` left, fails with
    /// `UnexpectedEof` and consumes what was left.
    pub fn read_n(&mut self, n: usize) -> (r: HddmResult<Vec<u8>>)
        ensures
            final(self).data@ == old(self).data@,
            final(self).pos == final(self).data@.len() - final(self).remaining().len(),
            match r {
                Ok(v) => {
                    &&& n <= old(self).remaining().len()
                    &&& v@ == old(self).remaining().take(n as int)
                    &&& final(self).remaining() == old(self).remaining().skip(n as int)
                },
                Err(e) => {
                    &&& n > old(self).remaining().len()
                    &&& e == HddmError::IoError(IoFailure::UnexpectedEof)
                    &&& final(self).remaining().len() == 0
                },
            },
    {
        if self.pos > self.data.len() {
            self.pos = self.data.len();
            assert(self.remaining() =~= old(self).remaining());
        }
        let left = self.remaining_len();
        if n > left {
            self.pos = self.data.len();
            assert(self.remaining() =~= Seq::<u8>::empty());
            return Err(HddmError::IoError(IoFailure::UnexpectedEof));
        }
        let mut out: Vec<u8> = Vec::new();
        let mut i: usize = 0;
        while i < n
            invariant
                self.pos + n <= self.data.len(),
                i <= n,
                out@ == self.data@.subrange(self.pos as int, self.pos + i),
            decreases n - i,
        {
            out.push(self.data[self.pos + i]);
            i = i + 1;
            assert(out@ =~= self.data@.subrange(self.pos as int, self.pos + i));
        }
        assert(out@ =~= self.remaining().take(n as int));
        let ghost before = self.remaining();
        self.pos = self.pos + n;
        assert(self.remaining() =~= before.skip(n as int));
        Ok(out)
    }

    /// Fills `buf` with the next `buf.len()` bytes, failing as `read_n` does.
    pub fn read_exact(&mut self, buf: &mut Vec<u8>) -> (r: HddmResult<()>)
        ensures
            final(self).data@ == old(self).data@,
            final(self).pos == final(self).data@.len() - final(self).remaining().len(),
            final(buf)@.len() == old(buf)@.len(),
            match r {
                Ok(_) => {
                    &&& old(buf)@.len() <= old(self).remaining().len()
                    &&& final(buf)@ == old(self).remaining().take(old(buf)@.len() as int)
                    &&& final(self).remaining() == old(self).remaining().skip(old(buf)@.len() as int)
                },
                Err(e) => {
                    &&& old(buf)@.len() > old(self).remaining().len()
                    &&& e == HddmError::IoError(IoFailure::UnexpectedEof)
                    &&& final(self).remaining().len() == 0
                },
            },
    {
        let n = buf.len();
        match self.read_n(n) {
            Ok(v) => {
                *buf = v;
                Ok(())
            },
            Err(e) => Err(e),
        }
    }

    /// The next four bytes as a big-endian `u32`.
    pub fn read_u32(&mut self) -> (r: HddmResult<u32>)
        ensures
            final(self).data@ == old(self).data@,
            final(self).pos == final(self).data@.len() - final(self).remaining().len(),
            match r {
                Ok(x) => {
                    &&& 4 <= old(self).remaining().len()
                    &&& x == u32_from_be(old(self).remaining())
                    &&& final(self).remaining() == old(self).remaining().skip(4)
                },
                Err(e) => {
                    &&& old(self).remaining().len() < 4
                    &&& e == HddmError::IoError(IoFailure::UnexpectedEof)
                    &&& final(self).remaining().len() == 0
                },
            },
    {
        let b = self.read_n(4)?;
        Ok(u32_from_be_bytes(b.as_slice()))
    }

    /// The next four bytes as a big-endian two's complement `i32`.
    pub fn read_i32(&mut self) -> (r: HddmResult<i32>)
        ensures
            final(self).data@ == old(self).data@,
            final(self).pos == final(self).data@.len() - final(self).remaining().len(),
            match r {
                Ok(x) => {
                    &&& 4 <= old(self).remaining().len()
                    &&& x == i32_from_be(old(self).remaining())
                    &&& final(self).remaining() == old(self).remaining().skip(4)
                },
                Err(e) => {
                    &&& old(self).remaining().len() < 4
                    &&& e == HddmError::IoError(IoFailure::UnexpectedEof)
                    &&& final(self).remaining().len() == 0
                },
            },
    {
        let x = self.read_u32()?;
        Ok(x as i32)
    }

    /// The next eight bytes as a big-endian `u64`.
    pub fn read_u64(&mut self) -> (r: HddmResult<u64>)
        ensures
            final(self).data@ == old(self).data@,
            final(self).pos == final(self).data@.len() - final(self).remaining().len(),
            match r {
                Ok(x) => {
                    &&& 8 <= old(self).remaining().len()
                    &&& x == u64_from_be(old(self).remaining())
                    &&& final(self).remaining() == old(self).remaining().skip(8)
                },
                Err(e) => {
                    &&& old(self).remaining().len() < 8
                    &&& e == HddmError::IoError(IoFailure::UnexpectedEof)
                    &&& final(self).remaining().len() == 0
                },
            },
    {
        let b = self.read_n(8)?;
        let hi = u32_from_be_bytes(vstd::slice::slice_subrange(b.as_slice(), 0, 4));
        let lo = u32_from_be_bytes(vstd::slice::slice_subrange(b.as_slice(), 4, 8));
        proof {
            assert(b@.subrange(0, 4) =~= old(self).remaining().take(4));
            assert(b@.subrange(4, 8) =~= old(self).remaining().subrange(4, 8));
        }
        Ok(hi as u64 * 0x1_0000_0000 + lo as u64)
    }

    /// The next eight bytes as a big-endian two's complement `i64`.
    pub fn read_i64(&mut self) -> (r: HddmResult<i64>)
        ensures
            final(self).data@ == old(self).data@,
            final(self).pos == final(self).data@.len() - final(self).remaining().len(),
            match r {
                Ok(x) => {
                    &&& 8 <= old(self).remaining().len()
                    &&& x == i64_from_be(old(self).remaining())
                    &&& final(self).remaining() == old(self).remaining().skip(8)
                },
                Err(e) => {
                    &&& old(self).remaining().len() < 8
                    &&& e == HddmError::IoError(IoFailure::UnexpectedEof)
                    &&& final(self).remaining().len() == 0
                },
            },
    {
        let x = self.read_u64()?;
        Ok(x as i64)
    }

    /// A 32-bit integer read as a boolean: anything but 0 is `true`.
    pub fn read_bool(&mut self) -> (r: HddmResult<bool>)
        ensures
            final(self).data@ == old(self).data@,
            final(self).pos == final(self).data@.len() - final(self).remaining().len(),
            match r {
                Ok(x) => {
                    &&& 4 <= old(self).remaining().len()
                    &&& x == (i32_from_be(old(self).remaining()) != 0)
                    &&& final(self).remaining() == old(self).remaining().skip(4)
                },
                Err(e) => {
                    &&& old(self).remaining().len() < 4
                    &&& e == HddmError::IoError(IoFailure::UnexpectedEof)
                    &&& final(self).remaining().len() == 0
                },
            },
    {
        Ok(self.read_i32()? != 0)
    }

    /// An XDR string: a 32-bit length, that many UTF-8 bytes, and padding to
    /// a multiple of four. Bytes that are not UTF-8 fail with `InvalidData`.
    pub fn read_string(&mut self) -> (r: HddmResult<String>)
        ensures
            final(self).data@ == old(self).data@,
            final(self).pos == final(self).data@.len() - final(self).remaining().len(),
            ({
                let (res, used) = xdr_string_read(old(self).remaining());
                &&& used <= old(self).remaining().len()
                &&& final(self).remaining() == old(self).remaining().skip(used as int)
                &&& match r {
                    Ok(s) => res == Ok::<Seq<char>, HddmError>(s@),
                    Err(e) => res == Err::<Seq<char>, HddmError>(e),
                }
            }),
    {
        let ghost rem = self.remaining();
        let string_len = self.read_u32()? as usize;
        let bytes = self.read_n(string_len)?;
        let padding: usize = (4 - (string_len % 4)) % 4;
        assert(self.remaining() =~= rem.skip(4 + string_len));
        let _pad = self.read_n(padding)?;
        proof {
            assert(bytes@ =~= rem.subrange(4, 4 + string_len));
            assert(self.remaining() =~= rem.skip(4 + string_len + padding));
        }
        match string_from_utf8(bytes) {
            Ok(s) => Ok(s),
            Err(_) => Err(HddmError::IoError(IoFailure::InvalidData)),
        }
    }

    /// The bytes not read yet.
    pub fn into_inner(self) -> (v: Vec<u8>)
        ensures
            v@ == self.remaining(),
    {
        let mut r = self;
        let n = r.remaining_len();
        match r.read_n(n) {
            Ok(v) => {
                proof {
                    assert(v@ =~= self.remaining());
                }
                v
            },
            Err(_) => Vec::new(),
        }
    }

    /// The underlying bytes, to change in place; the position stays.
    pub fn inner_mut(&mut self) -> (v: &mut Vec<u8>)
        ensures
            *v == old(self).data,
            final(self).data == *final(v),
            final(self).pos == old(self).pos,
    {
        &mut self.data
    }

    /// The underlying bytes, read or not.
    pub fn get_ref(&self) -> (v: &Vec<u8>)
        ensures
            v@ == self.data@,
    {
        &self.data
    }
}

/// The text that the standard library's `FromUtf8Error` displays for
/// `bytes` that are not UTF-8.
pub uninterp spec fn utf8_error_text(bytes: Seq<u8>) -> Seq<char>;

/// `String::from_utf8`: the string that `bytes` encode, or, where they are
/// not valid UTF-8, the text of the error (the standard library's
/// documented contract, stated with vstd's UTF-8 definitions; the error's
/// text is named).
#[verifier::external_body]
pub(crate) fn string_from_utf8(bytes: Vec<u8>) -> (r: Result<String, String>)
    ensures
        r is Ok <==> valid_utf8(bytes@),
        r matches Ok(s) ==> s@ == decode_utf8(bytes@),
        r matches Err(m) ==> m@ == utf8_error_text(bytes@),
{
    match String::from_utf8(bytes) {
        Ok(s) => Ok(s),
        Err(e) => Err(e.to_string()),
    }
}

} // verus!
