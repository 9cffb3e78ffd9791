//! Writing HDDM data: primitives, elements, lists, links and status tokens.
use vstd::prelude::*;
use vstd::utf8::encode_utf8;

use crate::codec::{bzip2_compress, zlib_compress};
use crate::error::{HddmError, HddmResult};
use crate::format::{element_frame, status_bits, token_bytes};
use crate::records::{
    block_bytes, blocks_decode, codec_round_trips, compressed, lemma_single_segment, decompressed, frames, lemma_frames_push,
    lemma_stream_push, mode_after, reads_all, stream_bytes, stream_payloads, theorem_stream_roundtrip,
    segment_bytes, segment_decodes, sized, unambiguous, well_formed, RecordStreamState, Segment,
};
use crate::xdr::{
    be_bool, be_i32, be_i64, be_u32, be_u64, i32_from_be, lemma_i32_prefix, xdr_padding, xdr_string, zeros,
    XdrWriter,
};
use crate::format::lemma_element_roundtrip;
use crate::read::{
    direct_decoder, items_trace, lemma_list_count_read_back, list_items, list_outcome, list_read, record_outcome,
    record_read, HddmRead,
};
use crate::Compression;

verus! {

/// Writes HDDM values to an in-memory byte sink.
pub struct HddmWriter {
    xdr: XdrWriter,
}

impl View for HddmWriter {
    type V = Seq<u8>;

    /// The bytes written so far.
    closed spec fn view(&self) -> Seq<u8> {
        self.xdr.inner@
    }
}

impl HddmWriter {
    /// A writer that appends to `inner`.
    pub fn new(inner: Vec<u8>) -> (w: Self)
        ensures
            w@ == inner@,
    {
        HddmWriter { xdr: XdrWriter::new(inner) }
    }

    /// Nothing is buffered, so flushing changes nothing.
    pub fn flush(&mut self) -> (r: HddmResult<()>)
        ensures
            r is Ok,
            final(self)@ == old(self)@,
    {
        Ok(())
    }

    pub fn write_i32(&mut self, x: i32) -> (r: HddmResult<()>)
        ensures
            r is Ok,
            final(self)@ == old(self)@ + be_i32(x),
    {
        self.xdr.write_i32(x)
    }

    pub fn write_u32(&mut self, x: u32) -> (r: HddmResult<()>)
        ensures
            r is Ok,
            final(self)@ == old(self)@ + be_u32(x),
    {
        self.xdr.write_u32(x)
    }

    pub fn write_i64(&mut self, x: i64) -> (r: HddmResult<()>)
        ensures
            r is Ok,
            final(self)@ == old(self)@ + be_i64(x),
    {
        self.xdr.write_i64(x)
    }

    pub fn write_u64(&mut self, x: u64) -> (r: HddmResult<()>)
        ensures
            r is Ok,
            final(self)@ == old(self)@ + be_u64(x),
    {
        self.xdr.write_u64(x)
    }

    pub fn write_bool(&mut self, x: bool) -> (r: HddmResult<()>)
        ensures
            r is Ok,
            final(self)@ == old(self)@ + be_bool(x),
    {
        self.xdr.write_bool(x)
    }

    /// Writes `s` as an XDR string (a length beyond `u32::MAX` is written
    /// truncated to 32 bits).
    pub fn write_string(&mut self, s: &str) -> (r: HddmResult<()>)
        ensures
            r is Ok,
            final(self)@ == old(self)@ + be_u32(encode_utf8(s@).len() as u32) + encode_utf8(s@)
                + zeros(xdr_padding(encode_utf8(s@).len())),
            encode_utf8(s@).len() <= u32::MAX ==> final(self)@ == old(self)@ + xdr_string(s@),
    {
        self.xdr.write_string(s)
    }

    /// Writes the bytes unchanged.
    pub fn write_bytes(&mut self, bytes: &[u8]) -> (r: HddmResult<()>)
        ensures
            r is Ok,
            final(self)@ == old(self)@ + bytes@,
    {
        self.xdr.write_all(bytes)
    }

    /// Writes an element around `payload`: its length, then the payload.
    pub fn write_element(&mut self, payload: &[u8]) -> (r: HddmResult<()>)
        ensures
            r is Ok,
            final(self)@ == old(self)@ + element_frame(payload@),
    {
        let _ = self.write_i32(payload.len() as i32);
        let _ = self.write_bytes(payload);
        assert(final(self)@ =~= old(self)@ + element_frame(payload@));
        Ok(())
    }

    /// Writes a list element: empty for no items, else the item count and
    /// the contents of each item. An item that fails to write fails the
    /// list, and nothing is written.
    pub fn write_list<T: HddmWrite>(&mut self, items: &[T]) -> (r: HddmResult<()>)
        ensures
            r is Ok ==> exists|chunks: Seq<Seq<u8>>|
                #[trigger] written_items(items@, chunks) && final(self)@ == old(self)@
                    + element_frame(list_body(items@.len(), chunks)),
            r is Err ==> final(self)@ == old(self)@,
            items@.len() == 0 ==> r is Ok,
    {
        let mut w = HddmWriter::new(Vec::new());
        let ghost mut chunks: Seq<Seq<u8>> = Seq::empty();
        if items.len() > 0 {
            let _ = w.write_i32(items.len() as i32);
            let ghost head = w@;
            let mut i: usize = 0;
            while i < items.len()
                invariant
                    i <= items@.len(),
                    head == be_i32(items@.len() as i32),
                    written_items(items@.take(i as int), chunks),
                    w@ == head + concat(chunks),
                decreases items@.len() - i,
            {
                let mut item_writer = HddmWriter::new(Vec::new());
                items[i].write_contents(&mut item_writer)?;
                let item_bytes = item_writer.into_inner();
                let _ = w.write_bytes(item_bytes.as_slice());
                proof {
                    let old_chunks = chunks;
                    assert(item_bytes@ =~= Seq::<u8>::empty() + item_bytes@);
                    chunks = chunks.push(item_bytes@);
                    assert(chunks.drop_last() =~= old_chunks);
                    assert forall|j: int| 0 <= j < i + 1 implies (#[trigger] items@.take(i + 1)[j]).writes_as(
                        chunks[j],
                    ) by {
                        if j < i {
                            assert(items@.take(i + 1)[j] == items@.take(i as int)[j]);
                            assert(chunks[j] == old_chunks[j]);
                        }
                    }
                    assert(w@ =~= head + concat(chunks));
                }
                i = i + 1;
            }
            proof {
                assert(items@.take(items@.len() as int) =~= items@);
            }
        }
        proof {
            assert(written_items(items@, chunks));
            assert(w@ =~= list_body(items@.len(), chunks));
        }
        let body = w.into_inner();
        let _ = self.write_element(body.as_slice());
        Ok(())
    }

    /// Writes a link element: empty for `None`, else the contents of the
    /// item.
    pub fn write_link<T: HddmWrite>(&mut self, item: &Option<T>) -> (r: HddmResult<()>)
        ensures
            r is Ok && item is None ==> final(self)@ == old(self)@ + element_frame(Seq::empty()),
            r is Ok && item is Some ==> exists|bytes: Seq<u8>|
                #[trigger] item->Some_0.writes_as(bytes) && final(self)@ == old(self)@ + element_frame(
                    bytes,
                ),
            r is Err ==> final(self)@ == old(self)@,
            item is None ==> r is Ok,
    {
        let mut w = HddmWriter::new(Vec::new());
        if let Some(x) = item {
            x.write_contents(&mut w)?;
            proof {
                assert(w@ =~= Seq::<u8>::empty() + w@);
            }
        }
        let body = w.into_inner();
        let _ = self.write_element(body.as_slice());
        Ok(())
    }

    /// Writes an element holding the contents of `item`.
    pub fn write_required_link<T: HddmWrite + ?Sized>(&mut self, item: &T) -> (r: HddmResult<()>)
        ensures
            r is Ok ==> exists|bytes: Seq<u8>|
                #[trigger] item.writes_as(bytes) && final(self)@ == old(self)@ + element_frame(bytes),
            r is Err ==> final(self)@ == old(self)@,
    {
        let mut w = HddmWriter::new(Vec::new());
        item.write_contents(&mut w)?;
        proof {
            assert(w@ =~= Seq::<u8>::empty() + w@);
        }
        let body = w.into_inner();
        let _ = self.write_element(body.as_slice());
        Ok(())
    }

    /// The bytes written, including those the writer started with.
    pub fn into_inner(self) -> (v: Vec<u8>)
        ensures
            v@ == self@,
    {
        self.xdr.into_inner()
    }
}

/// The byte strings `chunks`, one after the other.
pub open spec fn concat(chunks: Seq<Seq<u8>>) -> Seq<u8>
    decreases chunks.len(),
{
    if chunks.len() == 0 {
        Seq::empty()
    } else {
        concat(chunks.drop_last()) + chunks.last()
    }
}

/// Whether `chunks` may be the contents that `items` wrote, item by item.
pub open spec fn written_items<T: HddmWrite>(items: Seq<T>, chunks: Seq<Seq<u8>>) -> bool {
    &&& chunks.len() == items.len()
    &&& forall|i: int| 0 <= i < items.len() ==> (#[trigger] items[i]).writes_as(chunks[i])
}

/// The payload of a list element of `n` items whose contents are
/// `chunks`: nothing for no items, else the item count and the contents of
/// each item.
pub open spec fn list_body(n: nat, chunks: Seq<Seq<u8>>) -> Seq<u8> {
    if n == 0 {
        Seq::empty()
    } else {
        be_i32(n as i32) + concat(chunks)
    }
}

/// A list written by `write_list` reads back, where its items do, as
/// exactly as many items as were written.
pub proof fn lemma_list_read_back_count<U>(n: nat, chunks: Seq<Seq<u8>>, r: HddmResult<Vec<U>>)
    requires
        n <= i32::MAX,
        list_outcome(list_body(n, chunks), r),
    ensures
        r matches Ok(v) ==> v@.len() == n,
{
    let body = list_body(n, chunks);
    if n > 0 {
        assert(body.take(4) =~= be_i32(n as i32));
    }
    lemma_list_count_read_back(body, n as int, r);
}

/// Joining two runs of byte strings joins what each run joins to.
pub proof fn lemma_concat_append(a: Seq<Seq<u8>>, b: Seq<Seq<u8>>)
    ensures
        concat(a + b) == concat(a) + concat(b),
    decreases b.len(),
{
    if b.len() == 0 {
        assert(a + b =~= a);
        assert(concat(a) + concat(b) =~= concat(a));
    } else {
        assert((a + b).drop_last() =~= a + b.drop_last());
        assert((a + b).last() == b.last());
        lemma_concat_append(a, b.drop_last());
        assert(concat(a + b) =~= concat(a) + concat(b));
    }
}

/// The bytes of `chunks` from index `i` on are those of chunk `i`, then
/// those of the chunks after it.
pub proof fn lemma_concat_from(chunks: Seq<Seq<u8>>, i: int)
    requires
        0 <= i < chunks.len(),
    ensures
        concat(chunks.skip(i)) == chunks[i] + concat(chunks.skip(i + 1)),
{
    let one = seq![chunks[i]];
    assert(chunks.skip(i) =~= one + chunks.skip(i + 1));
    lemma_concat_append(one, chunks.skip(i + 1));
    assert(one.drop_last() =~= Seq::<Seq<u8>>::empty());
    assert(one.last() == chunks[i]);
    assert(concat(one.drop_last()) =~= Seq::<u8>::empty());
    assert(concat(one) =~= chunks[i]);
}

/// Whether `T`'s decoder reads back whatever a value writes: from the
/// value's contents followed by any bytes, it gives the value and leaves
/// those bytes unread.
pub open spec fn decodes_what_it_writes<T: HddmRead + HddmWrite>() -> bool {
    forall|x: T, p: Seq<u8>, tail: Seq<u8>, rest: Seq<u8>, decoded: HddmResult<T>|
        #![trigger x.writes_as(p), T::decodes_to(p + tail, rest, decoded)]
        x.writes_as(p) && T::decodes_to(p + tail, rest, decoded) ==> decoded == Ok::<T, HddmError>(x)
            && rest == tail
}

/// Along the items read from the contents `chunks` of `items`, each item
/// read is the item written, and the bytes left are those of the chunks
/// not read yet.
proof fn lemma_items_follow<T: HddmRead + HddmWrite>(
    items: Seq<T>,
    chunks: Seq<Seq<u8>>,
    rests: Seq<Seq<u8>>,
    vals: Seq<T>,
    i: int,
)
    requires
        decodes_what_it_writes::<T>(),
        written_items(items, chunks),
        vals.len() <= items.len(),
        rests.len() == vals.len() + 1,
        rests[0] == concat(chunks),
        forall|j: int|
            0 <= j < vals.len() ==> #[trigger] direct_decoder::<T>()(
                rests[j],
                rests[j + 1],
                Ok::<T, HddmError>(vals[j]),
            ),
        0 <= i <= vals.len(),
    ensures
        rests[i] == concat(chunks.skip(i)),
        forall|j: int| 0 <= j < i ==> vals[j] == items[j],
    decreases i,
{
    if i == 0 {
        assert(chunks.skip(0) =~= chunks);
    } else {
        lemma_items_follow(items, chunks, rests, vals, i - 1);
        let k = i - 1;
        lemma_concat_from(chunks, k);
        let tail = concat(chunks.skip(i));
        assert(items[k].writes_as(chunks[k]));
        assert(direct_decoder::<T>()(rests[k], rests[i], Ok::<T, HddmError>(vals[k])));
        assert(T::decodes_to(chunks[k] + tail, rests[i], Ok::<T, HddmError>(vals[k])));
    }
}

/// A list that `write_list` wrote is read back by `read_list` as the items
/// written, and exactly its element is consumed, where the items' decoder
/// reads back what they write.
pub proof fn lemma_list_read_back<T: HddmRead + HddmWrite>(
    items: Seq<T>,
    chunks: Seq<Seq<u8>>,
    tail: Seq<u8>,
    new_rem: Seq<u8>,
    r: HddmResult<Vec<T>>,
)
    requires
        decodes_what_it_writes::<T>(),
        written_items(items, chunks),
        items.len() <= i32::MAX,
        list_body(items.len(), chunks).len() <= i32::MAX,
        list_read(element_frame(list_body(items.len(), chunks)) + tail, new_rem, r),
    ensures
        r matches Ok(v) && v@ == items,
        new_rem == tail,
{
    let n = items.len();
    let body = list_body(n, chunks);
    lemma_element_roundtrip(body, tail);
    assert((element_frame(body) + tail).skip(4 + body.len() as int) =~= tail);
    if n == 0 {
        assert(body =~= Seq::<u8>::empty());
        assert(items =~= Seq::<T>::empty());
        assert(r matches Ok(v) && v@ =~= items);
    } else {
        lemma_i32_prefix(n as i32, concat(chunks));
        assert(body.skip(4) =~= concat(chunks));
        assert(i32_from_be(body) == n as i32);
        assert(list_items(body, direct_decoder::<T>(), r));
        let (rests, vals) = choose|rests: Seq<Seq<u8>>, vals: Seq<T>|
            #[trigger] items_trace(body.skip(4), n, direct_decoder::<T>(), rests, vals, r);
        let k = vals.len() as int;
        lemma_items_follow(items, chunks, rests, vals, k);
        if k < n {
            lemma_concat_from(chunks, k);
            let after_k = concat(chunks.skip(k + 1));
            let (after, e) = choose|after: Seq<u8>, e: HddmError|
                #[trigger] direct_decoder::<T>()(rests.last(), after, Err::<T, HddmError>(e)) && r
                    == Err::<Vec<T>, HddmError>(e);
            assert(items[k].writes_as(chunks[k]));
            assert(T::decodes_to(chunks[k] + after_k, after, Err::<T, HddmError>(e)));
        } else {
            assert(chunks.skip(n as int) =~= Seq::<Seq<u8>>::empty());
            assert(concat(chunks.skip(n as int)) =~= Seq::<u8>::empty());
            assert(vals =~= items);
        }
    }
}

/// A record that `write_hddm` wrote is read back by `read_record` as the
/// value written, and exactly its element is consumed, where the type's
/// decoder reads back what it writes.
pub proof fn lemma_record_read_back<T: HddmRead + HddmWrite>(
    x: T,
    bytes: Seq<u8>,
    tail: Seq<u8>,
    new_rem: Seq<u8>,
    r: HddmResult<Option<T>>,
)
    requires
        decodes_what_it_writes::<T>(),
        x.writes_as(bytes),
        bytes.len() <= i32::MAX,
        record_read(element_frame(bytes) + tail, new_rem, r),
    ensures
        r == Ok::<Option<T>, HddmError>(Some(x)),
        new_rem == tail,
{
    lemma_element_roundtrip(bytes, tail);
    assert((element_frame(bytes) + tail).skip(4 + bytes.len() as int) =~= tail);
    let (decoded, rest) = choose|decoded: HddmResult<T>, rest: Seq<u8>|
        T::decodes_to(bytes, rest, decoded) && r == record_outcome(decoded, rest);
    assert(bytes + Seq::<u8>::empty() =~= bytes);
    assert(T::decodes_to(bytes + Seq::<u8>::empty(), rest, decoded));
}

/// A type whose values are written as HDDM element contents.
pub trait HddmWrite {
    /// Whether `bytes` may be the value's contents as written. An impl
    /// whose `write_contents` is verified may define it; the default allows
    /// any bytes.
    open spec fn writes_as(&self, bytes: Seq<u8>) -> bool {
        true
    }

    /// Appends the value's contents; where it fails, what it has appended
    /// is left open.
    fn write_contents(&self, w: &mut HddmWriter) -> (r: HddmResult<()>)
        ensures
            r is Ok ==> exists|bytes: Seq<u8>|
                #[trigger] self.writes_as(bytes) && final(w)@ == old(w)@ + bytes,
    ;

    /// Writes the value as a whole element: its contents, framed; where
    /// they fail to write, nothing is written.
    fn write_hddm(&self, w: &mut HddmWriter) -> (r: HddmResult<()>)
        default_ensures
            r is Ok ==> exists|bytes: Seq<u8>|
                #[trigger] self.writes_as(bytes) && final(w)@ == old(w)@ + element_frame(bytes),
            r is Err ==> final(w)@ == old(w)@,
    {
        let mut sub = HddmWriter::new(Vec::new());
        self.write_contents(&mut sub)?;
        proof {
            assert(sub@ =~= Seq::<u8>::empty() + sub@);
        }
        let body = sub.into_inner();
        w.write_element(body.as_slice())
    }
}

/// A primitive that an element's attribute holds.
pub trait HddmPrimitiveWrite {
    fn write_primitive(&self, w: &mut HddmWriter) -> HddmResult<()>;
}

impl HddmPrimitiveWrite for i32 {
    fn write_primitive(&self, w: &mut HddmWriter) -> (r: HddmResult<()>)
        ensures
            r is Ok,
            final(w)@ == old(w)@ + be_i32(*self),
    {
        w.write_i32(*self)
    }
}

impl HddmPrimitiveWrite for u32 {
    fn write_primitive(&self, w: &mut HddmWriter) -> (r: HddmResult<()>)
        ensures
            r is Ok,
            final(w)@ == old(w)@ + be_u32(*self),
    {
        w.write_u32(*self)
    }
}

impl HddmPrimitiveWrite for i64 {
    fn write_primitive(&self, w: &mut HddmWriter) -> (r: HddmResult<()>)
        ensures
            r is Ok,
            final(w)@ == old(w)@ + be_i64(*self),
    {
        w.write_i64(*self)
    }
}

impl HddmPrimitiveWrite for u64 {
    fn write_primitive(&self, w: &mut HddmWriter) -> (r: HddmResult<()>)
        ensures
            r is Ok,
            final(w)@ == old(w)@ + be_u64(*self),
    {
        w.write_u64(*self)
    }
}

impl HddmPrimitiveWrite for bool {
    fn write_primitive(&self, w: &mut HddmWriter) -> (r: HddmResult<()>)
        ensures
            r is Ok,
            final(w)@ == old(w)@ + be_bool(*self),
    {
        w.write_bool(*self)
    }
}

impl HddmPrimitiveWrite for String {
    fn write_primitive(&self, w: &mut HddmWriter) -> (r: HddmResult<()>)
        ensures
            r is Ok,
            encode_utf8(self@).len() <= u32::MAX ==> final(w)@ == old(w)@ + xdr_string(self@),
    {
        w.write_string(self.as_str())
    }
}

/// Writes a compression status token announcing `compression`.
pub fn write_compression_token(w: &mut HddmWriter, compression: Compression) -> (r: HddmResult<()>)
    ensures
        r is Ok,
        final(w)@ == old(w)@ + token_bytes(compression),
{
    let status_bits = match compression {
        Compression::Uncompressed => crate::K_NO_COMPRESSION,
        Compression::Zlib => crate::K_Z_COMPRESSION,
        Compression::Bzip2 => crate::K_BZ2_COMPRESSION,
    };
    let _ = w.write_i32(1);
    let _ = w.write_i32(8);
    let _ = w.write_i32(0);
    let _ = w.write_i32(status_bits);
    assert(final(w)@ =~= old(w)@ + token_bytes(compression));
    Ok(())
}

// ---------------------------------------------------------------------------
// Compressed blocks and the record stream
// ---------------------------------------------------------------------------

/// Compresses `data` with the codec of `mode` (zlib or bzip2).
fn compress_block(mode: Compression, data: &[u8]) -> (r: HddmResult<Vec<u8>>)
    requires
        mode != Compression::Uncompressed,
    ensures
        r is Ok,
        r matches Ok(v) ==> v@ == compressed(mode, data@) && codec_round_trips(mode, data@),
{
    if mode == Compression::Bzip2 {
        bzip2_compress(data)
    } else {
        zlib_compress(data)
    }
}

/// Appends a sized block to `out`.
fn append_sized_block(out: Vec<u8>, cb: &[u8]) -> (v: Vec<u8>)
    ensures
        v@ == out@ + sized(cb@),
{
    let mut w = HddmWriter::new(out);
    let _ = w.write_element(cb);
    w.into_inner()
}

/// Buffers what is written and stores it as one zlib block when flushed.
pub struct ZlibBlockWriter {
    inner: Vec<u8>,
    buffer: Vec<u8>,
}

/// Buffers what is written and stores it as one bzip2 block when flushed.
pub struct Bzip2BlockWriter {
    inner: Vec<u8>,
    buffer: Vec<u8>,
}

impl ZlibBlockWriter {
    /// The bytes stored so far.
    pub closed spec fn sink(&self) -> Seq<u8> {
        self.inner@
    }

    /// The bytes written and not yet stored in a block.
    pub closed spec fn buffered(&self) -> Seq<u8> {
        self.buffer@
    }

    /// A block writer that stores blocks after `inner`.
    pub fn new(inner: Vec<u8>) -> (w: Self)
        ensures
            w.sink() == inner@,
            w.buffered() == Seq::<u8>::empty(),
    {
        ZlibBlockWriter { inner, buffer: Vec::new() }
    }

    /// Stores the buffered bytes, if any, as a zlib block.
    fn finish_block(&mut self) -> (r: HddmResult<()>)
        ensures
            old(self).buffered().len() == 0 ==> r is Ok && *final(self) == *old(self),
            r is Ok,
            old(self).buffered().len() > 0 ==> {
                    &&& final(self).sink() == old(self).sink() + sized(
                        compressed(Compression::Zlib, old(self).buffered()),
                    )
                    &&& final(self).buffered() == Seq::<u8>::empty()
                    &&& codec_round_trips(Compression::Zlib, old(self).buffered())
            },
    {
        if self.buffer.len() == 0 {
            return Ok(());
        }
        let cb = compress_block(Compression::Zlib, self.buffer.as_slice())?;
        let mut inner = Vec::new();
        std::mem::swap(&mut inner, &mut self.inner);
        self.inner = append_sized_block(inner, cb.as_slice());
        self.buffer = Vec::new();
        Ok(())
    }

    /// Buffers `buf`; all of it is taken.
    pub fn write(&mut self, buf: &[u8]) -> (r: HddmResult<usize>)
        ensures
            r == Ok::<usize, HddmError>(buf@.len() as usize),
            final(self).sink() == old(self).sink(),
            final(self).buffered() == old(self).buffered() + buf@,
    {
        crate::xdr::append_bytes(&mut self.buffer, buf);
        Ok(buf.len())
    }

    /// Stores the buffered bytes, if any, as a zlib block.
    pub fn flush(&mut self) -> (r: HddmResult<()>)
        ensures
            old(self).buffered().len() == 0 ==> r is Ok && *final(self) == *old(self),
            r is Ok,
            old(self).buffered().len() > 0 ==> {
                    &&& final(self).sink() == old(self).sink() + sized(
                        compressed(Compression::Zlib, old(self).buffered()),
                    )
                    &&& final(self).buffered() == Seq::<u8>::empty()
                    &&& codec_round_trips(Compression::Zlib, old(self).buffered())
            },
    {
        self.finish_block()
    }

    /// The stored blocks; buffered bytes that were not flushed are dropped.
    pub fn into_inner(self) -> (v: Vec<u8>)
        ensures
            v@ == self.sink(),
    {
        self.inner
    }
}

impl Bzip2BlockWriter {
    /// The bytes stored so far.
    pub closed spec fn sink(&self) -> Seq<u8> {
        self.inner@
    }

    /// The bytes written and not yet stored in a block.
    pub closed spec fn buffered(&self) -> Seq<u8> {
        self.buffer@
    }

    /// A block writer that stores blocks after `inner`.
    pub fn new(inner: Vec<u8>) -> (w: Self)
        ensures
            w.sink() == inner@,
            w.buffered() == Seq::<u8>::empty(),
    {
        Bzip2BlockWriter { inner, buffer: Vec::new() }
    }

    /// Stores the buffered bytes, if any, as a bzip2 block.
    fn finish_block(&mut self) -> (r: HddmResult<()>)
        ensures
            old(self).buffered().len() == 0 ==> r is Ok && *final(self) == *old(self),
            r is Ok,
            old(self).buffered().len() > 0 ==> {
                    &&& final(self).sink() == old(self).sink() + sized(
                        compressed(Compression::Bzip2, old(self).buffered()),
                    )
                    &&& final(self).buffered() == Seq::<u8>::empty()
                    &&& codec_round_trips(Compression::Bzip2, old(self).buffered())
            },
    {
        if self.buffer.len() == 0 {
            return Ok(());
        }
        let cb = compress_block(Compression::Bzip2, self.buffer.as_slice())?;
        let mut inner = Vec::new();
        std::mem::swap(&mut inner, &mut self.inner);
        self.inner = append_sized_block(inner, cb.as_slice());
        self.buffer = Vec::new();
        Ok(())
    }

    /// Buffers `buf`; all of it is taken.
    pub fn write(&mut self, buf: &[u8]) -> (r: HddmResult<usize>)
        ensures
            r == Ok::<usize, HddmError>(buf@.len() as usize),
            final(self).sink() == old(self).sink(),
            final(self).buffered() == old(self).buffered() + buf@,
    {
        crate::xdr::append_bytes(&mut self.buffer, buf);
        Ok(buf.len())
    }

    /// Stores the buffered bytes, if any, as a bzip2 block.
    pub fn flush(&mut self) -> (r: HddmResult<()>)
        ensures
            old(self).buffered().len() == 0 ==> r is Ok && *final(self) == *old(self),
            r is Ok,
            old(self).buffered().len() > 0 ==> {
                    &&& final(self).sink() == old(self).sink() + sized(
                        compressed(Compression::Bzip2, old(self).buffered()),
                    )
                    &&& final(self).buffered() == Seq::<u8>::empty()
                    &&& codec_round_trips(Compression::Bzip2, old(self).buffered())
            },
    {
        self.finish_block()
    }

    /// The stored blocks; buffered bytes that were not flushed are dropped.
    pub fn into_inner(self) -> (v: Vec<u8>)
        ensures
            v@ == self.sink(),
    {
        self.inner
    }
}

/// Where records go: straight to the sink, or into zlib or bzip2 blocks.
pub enum HddmOutputStream {
    Uncompressed(Vec<u8>),
    Zlib(ZlibBlockWriter),
    Bzip2(Bzip2BlockWriter),
}

impl HddmOutputStream {
    /// The mode of the stream.
    pub open spec fn mode(&self) -> Compression {
        match self {
            HddmOutputStream::Uncompressed(_) => Compression::Uncompressed,
            HddmOutputStream::Zlib(_) => Compression::Zlib,
            HddmOutputStream::Bzip2(_) => Compression::Bzip2,
        }
    }

    /// The bytes stored in the sink so far.
    pub open spec fn sink(&self) -> Seq<u8> {
        match self {
            HddmOutputStream::Uncompressed(v) => v@,
            HddmOutputStream::Zlib(w) => w.sink(),
            HddmOutputStream::Bzip2(w) => w.sink(),
        }
    }

    /// The bytes written and waiting for the next block.
    pub open spec fn buffered(&self) -> Seq<u8> {
        match self {
            HddmOutputStream::Uncompressed(_) => Seq::empty(),
            HddmOutputStream::Zlib(w) => w.buffered(),
            HddmOutputStream::Bzip2(w) => w.buffered(),
        }
    }

    /// A stream of mode `c` that stores after `inner`.
    pub fn new(c: Compression, inner: Vec<u8>) -> (s: Self)
        ensures
            s.mode() == c,
            s.sink() == inner@,
            s.buffered() == Seq::<u8>::empty(),
    {
        match c {
            Compression::Uncompressed => HddmOutputStream::Uncompressed(inner),
            Compression::Zlib => HddmOutputStream::Zlib(ZlibBlockWriter::new(inner)),
            Compression::Bzip2 => HddmOutputStream::Bzip2(Bzip2BlockWriter::new(inner)),
        }
    }

    /// Writes `buf`: to the sink without compression, else to the buffer.
    pub fn write(&mut self, buf: &[u8]) -> (r: HddmResult<usize>)
        ensures
            r == Ok::<usize, HddmError>(buf@.len() as usize),
            final(self).mode() == old(self).mode(),
            old(self).mode() == Compression::Uncompressed ==> final(self).sink() == old(
                self,
            ).sink() + buf@,
            old(self).mode() != Compression::Uncompressed ==> final(self).sink() == old(
                self,
            ).sink() && final(self).buffered() == old(self).buffered() + buf@,
    {
        match self {
            HddmOutputStream::Uncompressed(v) => {
                crate::xdr::append_bytes(v, buf);
                Ok(buf.len())
            },
            HddmOutputStream::Zlib(w) => w.write(buf),
            HddmOutputStream::Bzip2(w) => w.write(buf),
        }
    }

    /// Stores the buffered bytes, if any, as a block of the stream's mode.
    pub fn flush(&mut self) -> (r: HddmResult<()>)
        ensures
            final(self).mode() == old(self).mode(),
            old(self).buffered().len() == 0 ==> r is Ok && final(self).sink() == old(self).sink()
                && final(self).buffered() == old(self).buffered(),
            r is Ok,
            old(self).buffered().len() > 0 ==> {
                    &&& final(self).sink() == old(self).sink() + sized(
                        compressed(old(self).mode(), old(self).buffered()),
                    )
                    &&& final(self).buffered() == Seq::<u8>::empty()
                    &&& codec_round_trips(old(self).mode(), old(self).buffered())
            },
    {
        match self {
            HddmOutputStream::Uncompressed(_) => Ok(()),
            HddmOutputStream::Zlib(w) => w.flush(),
            HddmOutputStream::Bzip2(w) => w.flush(),
        }
    }

    /// Separates the stored bytes from the stream, which keeps its mode and
    /// its buffer and goes on with an empty sink.
    pub fn split_sink(self) -> (r: (Vec<u8>, HddmOutputStream))
        ensures
            r.0@ == self.sink(),
            r.1.mode() == self.mode(),
            r.1.sink() == Seq::<u8>::empty(),
            r.1.buffered() == self.buffered(),
    {
        match self {
            HddmOutputStream::Uncompressed(v) => (v, HddmOutputStream::Uncompressed(Vec::new())),
            HddmOutputStream::Zlib(w) => (
                w.inner,
                HddmOutputStream::Zlib(ZlibBlockWriter { inner: Vec::new(), buffer: w.buffer }),
            ),
            HddmOutputStream::Bzip2(w) => (
                w.inner,
                HddmOutputStream::Bzip2(Bzip2BlockWriter { inner: Vec::new(), buffer: w.buffer }),
            ),
        }
    }

    /// The sink; bytes that were not flushed are dropped.
    pub fn into_inner(self) -> (v: Vec<u8>)
        ensures
            v@ == self.sink(),
    {
        match self {
            HddmOutputStream::Uncompressed(v) => v,
            HddmOutputStream::Zlib(w) => w.into_inner(),
            HddmOutputStream::Bzip2(w) => w.into_inner(),
        }
    }
}

/// Writes records, compression status tokens and compressed blocks of
/// records to an in-memory sink, remembering (as ghost state) the segments
/// it has written.
pub struct HddmRecordWriter {
    stream: HddmOutputStream,
    segments: Ghost<Seq<Segment>>,
    pending: Ghost<Seq<Seq<u8>>>,
    drained: Ghost<Seq<u8>>,
}

impl HddmRecordWriter {
    /// The segments written to the sink so far.
    pub closed spec fn segments(&self) -> Seq<Segment> {
        self.segments@
    }

    /// The records written since the last block was stored.
    pub closed spec fn buffered_records(&self) -> Seq<Seq<u8>> {
        self.pending@
    }

    /// The current compression mode.
    pub closed spec fn mode(&self) -> Compression {
        self.stream.mode()
    }

    /// Every byte written to the sink so far, including those taken out.
    pub closed spec fn written(&self) -> Seq<u8> {
        self.drained@ + self.stream.sink()
    }

    /// The bytes that `take_output` has handed out so far.
    pub closed spec fn taken(&self) -> Seq<u8> {
        self.drained@
    }

    /// Every record written so far, in order.
    pub open spec fn records(&self) -> Seq<Seq<u8>> {
        stream_payloads(self.segments()) + self.buffered_records()
    }

    /// The sink holds the segments; the buffer holds the frames of the
    /// buffered records; the segments are well formed and their blocks
    /// decode.
    pub closed spec fn wf(&self) -> bool {
        &&& self.drained@ + self.stream.sink() == stream_bytes(self.segments@)
        &&& self.stream.buffered() == frames(self.pending@)
        &&& well_formed(self.segments@, Compression::Uncompressed)
        &&& mode_after(self.segments@, Compression::Uncompressed) == self.stream.mode()
        &&& self.stream.mode() == Compression::Uncompressed ==> self.pending@.len() == 0
        &&& blocks_decode(self.segments@)
    }

    /// A writer without compression that has written nothing.
    pub fn new() -> (w: Self)
        ensures
            w.wf(),
            w.written() == Seq::<u8>::empty(),
            w.taken() == Seq::<u8>::empty(),
            w.segments() == Seq::<Segment>::empty(),
            w.buffered_records() == Seq::<Seq<u8>>::empty(),
            w.mode() == Compression::Uncompressed,
    {
        let w = HddmRecordWriter {
            stream: HddmOutputStream::new(Compression::Uncompressed, Vec::new()),
            segments: Ghost(Seq::empty()),
            pending: Ghost(Seq::empty()),
            drained: Ghost(Seq::empty()),
        };
        assert(w.drained@ + w.stream.sink() =~= stream_bytes(w.segments@));
        w
    }

    /// The current compression mode.
    pub fn compression(&self) -> (c: Compression)
        ensures
            c == self.mode(),
    {
        match &self.stream {
            HddmOutputStream::Uncompressed(_) => Compression::Uncompressed,
            HddmOutputStream::Zlib(_) => Compression::Zlib,
            HddmOutputStream::Bzip2(_) => Compression::Bzip2,
        }
    }

    /// Writes one record whose contents are `payload`: straight to the sink
    /// without compression, else into the current block.
    pub fn write_payload(&mut self, payload: &[u8]) -> (r: HddmResult<()>)
        requires
            old(self).wf(),
        ensures
            r is Ok,
            final(self).wf(),
            final(self).taken() == old(self).taken(),
            final(self).mode() == old(self).mode(),
            old(self).mode() == Compression::Uncompressed ==> {
                &&& final(self).segments() == old(self).segments().push(Segment::Record(payload@))
                &&& final(self).buffered_records() == old(self).buffered_records()
                &&& final(self).written() == old(self).written() + element_frame(payload@)
            },
            old(self).mode() != Compression::Uncompressed ==> {
                &&& final(self).segments() == old(self).segments()
                &&& final(self).buffered_records() == old(self).buffered_records().push(payload@)
                &&& final(self).written() == old(self).written()
            },
            final(self).records() == old(self).records().push(payload@),
    {
        let mut w = HddmWriter::new(Vec::new());
        let _ = w.write_element(payload);
        let frame = w.into_inner();
        let _ = self.stream.write(frame.as_slice());
        proof {
            let p = payload@;
            if old(self).mode() == Compression::Uncompressed {
                lemma_stream_push(old(self).segments@, Segment::Record(p), Compression::Uncompressed);
                self.segments@ = self.segments@.push(Segment::Record(p));
                assert(self.drained@ + self.stream.sink() =~= stream_bytes(self.segments@));
                assert(blocks_decode(self.segments@)) by {
                    assert forall|i: int| 0 <= i < self.segments@.len() implies segment_decodes(
                    #[trigger] self.segments@[i],
                ) by {
                        if i < old(self).segments@.len() {
                            assert(self.segments@[i] == old(self).segments@[i]);
                        }
                    }
                }
                lemma_single_segment(Segment::Record(p), Compression::Uncompressed);
                assert(final(self).records() =~= old(self).records().push(p));
            } else {
                lemma_frames_push(self.pending@, p);
                self.pending@ = self.pending@.push(p);
                assert(final(self).records() =~= old(self).records().push(p));
            }
        }
        Ok(())
    }

    /// Writes one record: the contents that `record` writes. A record that
    /// fails to write fails the call, and nothing is written.
    pub fn write_record<T: HddmWrite>(&mut self, record: &T) -> (r: HddmResult<()>)
        requires
            old(self).wf(),
        ensures
            final(self).wf(),
            final(self).taken() == old(self).taken(),
            final(self).mode() == old(self).mode(),
            r is Err ==> *final(self) == *old(self),
            r is Ok ==> exists|payload: Seq<u8>|
                #[trigger] record.writes_as(payload) && record_written(*old(self), *final(self), payload),
    {
        let mut w = HddmWriter::new(Vec::new());
        record.write_contents(&mut w)?;
        proof {
            assert(w@ =~= Seq::<u8>::empty() + w@);
        }
        let payload = w.into_inner();
        self.write_payload(payload.as_slice())
    }

    /// Stores the buffered records, if any, as one block of the current
    /// mode.
    pub fn flush(&mut self) -> (r: HddmResult<()>)
        requires
            old(self).wf(),
        ensures
            final(self).wf(),
            final(self).taken() == old(self).taken(),
            final(self).mode() == old(self).mode(),
            r is Ok,
            old(self).buffered_records().len() == 0 ==> *final(self) == *old(self),
            final(self).buffered_records() == Seq::<Seq<u8>>::empty(),
            old(self).buffered_records().len() > 0 ==> {
                &&& final(self).segments() == old(self).segments().push(
                    Segment::Block(old(self).mode(), old(self).buffered_records()),
                )
                &&& final(self).written() == old(self).written() + block_bytes(
                    old(self).mode(),
                    old(self).buffered_records(),
                )
            },
            final(self).records() == old(self).records(),
    {
        let ghost before = self.stream.sink();
        if self.pending_is_empty() {
            return Ok(());
        }
        self.stream.flush()?;
        proof {
            let c = self.stream.mode();
            let ps = self.pending@;
            lemma_stream_push(self.segments@, Segment::Block(c, ps), Compression::Uncompressed);
            let old_segs = self.segments@;
            self.segments@ = self.segments@.push(Segment::Block(c, ps));
            self.pending@ = Seq::empty();
            assert(self.drained@ + self.stream.sink() =~= stream_bytes(self.segments@));
            assert(self.stream.buffered() =~= frames(self.pending@));
            lemma_single_segment(Segment::Block(c, ps), c);
            assert(blocks_decode(self.segments@)) by {
                assert forall|i: int| 0 <= i < self.segments@.len() implies segment_decodes(
                    #[trigger] self.segments@[i],
                ) by {
                    if i < old_segs.len() {
                        assert(self.segments@[i] == old_segs[i]);
                    }
                }
            }
            assert(final(self).records() =~= old(self).records());
        }
        Ok(())
    }

    /// Whether no record waits for the next block.
    fn pending_is_empty(&self) -> (b: bool)
        requires
            self.wf(),
        ensures
            b == (self.pending@.len() == 0),
    {
        proof {
            if self.pending@.len() > 0 {
                crate::records::lemma_frames_nonempty(self.pending@);
            }
        }
        match &self.stream {
            HddmOutputStream::Uncompressed(_) => true,
            HddmOutputStream::Zlib(w) => w.buffer.len() == 0,
            HddmOutputStream::Bzip2(w) => w.buffer.len() == 0,
        }
    }

    /// Stores the buffered records, then writes a status token and goes on
    /// in mode `compression`.
    pub fn switch_compression(&mut self, compression: Compression) -> (r: HddmResult<()>)
        requires
            old(self).wf(),
        ensures
            final(self).wf(),
            final(self).taken() == old(self).taken(),
            r is Ok,
            switched(*old(self), *final(self), compression),
            final(self).records() == old(self).records(),
    {
        self.flush()?;
        let ghost mid = *self;
        let mut stream = HddmOutputStream::new(Compression::Uncompressed, Vec::new());
        std::mem::swap(&mut stream, &mut self.stream);
        let sink = stream.into_inner();
        let mut w = HddmWriter::new(sink);
        let _ = write_compression_token(&mut w, compression);
        let sink = w.into_inner();
        self.stream = HddmOutputStream::new(compression, sink);
        proof {
            let t = Segment::Token(compression);
            lemma_stream_push(mid.segments@, t, Compression::Uncompressed);
            self.segments@ = mid.segments@.push(t);
            assert(self.drained@ + self.stream.sink() =~= stream_bytes(self.segments@));
            assert(self.stream.buffered() =~= frames(self.pending@));
            lemma_single_segment(t, mid.stream.mode());
            assert(blocks_decode(self.segments@)) by {
                assert forall|i: int| 0 <= i < self.segments@.len() implies segment_decodes(
                    #[trigger] self.segments@[i],
                ) by {
                    if i < mid.segments@.len() {
                        assert(self.segments@[i] == mid.segments@[i]);
                    }
                }
            }
            assert(final(self).records() =~= old(self).records());
            assert(mid.segments@ == if old(self).buffered_records().len() == 0 {
                old(self).segments()
            } else {
                old(self).segments().push(Segment::Block(old(self).mode(), old(self).buffered_records()))
            });
            assert(segment_bytes(t) == token_bytes(compression));
        }
        Ok(())
    }

    /// Takes the bytes stored in the sink so far, leaving it empty.
    pub fn take_output(&mut self) -> (v: Vec<u8>)
        requires
            old(self).wf(),
        ensures
            final(self).wf(),
            old(self).written() == final(self).written(),
            final(self).segments() == old(self).segments(),
            final(self).buffered_records() == old(self).buffered_records(),
            final(self).mode() == old(self).mode(),
            final(self).taken() == old(self).taken() + v@,
            final(self).taken() == final(self).written(),
    {
        let c = self.compression();
        let mut stream = HddmOutputStream::new(Compression::Uncompressed, Vec::new());
        std::mem::swap(&mut stream, &mut self.stream);
        let ghost old_stream = stream;
        let (out, rebuilt) = stream.split_sink();
        self.stream = rebuilt;
        proof {
            self.drained@ = self.drained@ + out@;
            assert(self.drained@ + self.stream.sink() =~= old(self).drained@ + old_stream.sink());
        }
        out
    }
}

/// Whether writer `after` is writer `before` gone on in mode
/// `compression`: the buffered records, if any, stored as one block of the
/// old mode, then a status token for `compression`.
pub open spec fn switched(before: HddmRecordWriter, after: HddmRecordWriter, compression: Compression) -> bool {
    let stored = if before.buffered_records().len() == 0 {
        before.segments()
    } else {
        before.segments().push(Segment::Block(before.mode(), before.buffered_records()))
    };
    &&& after.mode() == compression
    &&& after.buffered_records() == Seq::<Seq<u8>>::empty()
    &&& after.segments() == stored.push(Segment::Token(compression))
    &&& after.written() == stream_bytes(stored) + token_bytes(compression)
}

/// Whether writer `after` is writer `before` with one more record, whose
/// contents are `payload`: written out without compression, else added to
/// the current block.
pub open spec fn record_written(before: HddmRecordWriter, after: HddmRecordWriter, payload: Seq<u8>) -> bool {
    &&& after.records() == before.records().push(payload)
    &&& before.mode() == Compression::Uncompressed ==> {
        &&& after.segments() == before.segments().push(Segment::Record(payload))
        &&& after.buffered_records() == before.buffered_records()
        &&& after.written() == before.written() + element_frame(payload)
    }
    &&& before.mode() != Compression::Uncompressed ==> {
        &&& after.segments() == before.segments()
        &&& after.buffered_records() == before.buffered_records().push(payload)
        &&& after.written() == before.written()
    }
}

/// The bytes that a record writer has written are those of the segments
/// it has written.
pub proof fn lemma_written_segments(w: &HddmRecordWriter)
    requires
        w.wf(),
    ensures
        w.written() == stream_bytes(w.segments()),
{
}

/// Records written to an HDDM record writer and flushed are read back, in
/// order, by a record reader started on the bytes written, which then
/// reports the end of the stream; provided no record has size 1 (the
/// marker of a status token) and every size fits in 32 bits.
pub proof fn lemma_written_records_read_back(w: &HddmRecordWriter)
    requires
        w.wf(),
        w.buffered_records().len() == 0,
        unambiguous(w.segments()),
    ensures
        reads_all(
            RecordStreamState { raw: w.written(), mode: Compression::Uncompressed, block: None },
            w.records(),
        ),
{
    theorem_stream_roundtrip(w.segments@);
    assert(w.records() =~= stream_payloads(w.segments@));
}

} // verus!
