//! Reading HDDM data: primitives, elements, lists, links, status tokens and
//! record payloads.
use vstd::prelude::*;

use crate::error::{FormatError, HddmError, HddmResult, IoFailure};
use crate::codec::{bzip2_decompress, zlib_decompress};
use crate::format::{compression_read, element_read, payload_read};
use crate::records::{
    block_exhausted, block_measure, block_step, decompressed, negative_block_error, read_step,
    RecordStreamState,
};
use crate::xdr::{
    be_i32, i32_from_be, i64_from_be, lemma_i32_roundtrip, u32_from_be, u64_from_be, xdr_string_read,
    XdrReader,
};
use crate::plan::ElementPlan;
use crate::Compression;

verus! {

/// Reads HDDM values from an in-memory byte source, front to back.
pub struct HddmReader {
    xdr: XdrReader,
}

impl View for HddmReader {
    type V = Seq<u8>;

    /// The bytes not read yet.
    closed spec fn view(&self) -> Seq<u8> {
        self.xdr.remaining()
    }
}

/// The outcome of reading an element whose contents a caller decodes: the
/// framing decides the consumption and the framing errors; an empty
/// payload gives `empty`.
pub open spec fn framed_outcome<T>(
    old_rem: Seq<u8>,
    new_rem: Seq<u8>,
    r: HddmResult<T>,
    empty: HddmResult<T>,
) -> bool {
    let (res, used) = element_read(old_rem);
    &&& used <= old_rem.len()
    &&& new_rem == old_rem.skip(used as int)
    &&& match res {
        Err(e) => r == Err::<T, HddmError>(e),
        Ok(p) => p.len() == 0 ==> r == empty,
    }
}

impl HddmReader {
    /// A reader at the start of `inner`.
    pub fn new(inner: Vec<u8>) -> (r: Self)
        ensures
            r@ == inner@,
    {
        HddmReader { xdr: XdrReader::new(inner) }
    }

    pub fn read_i32(&mut self) -> (r: HddmResult<i32>)
        ensures
            match r {
                Ok(x) => 4 <= old(self)@.len() && x == i32_from_be(old(self)@) && final(self)@
                    == old(self)@.skip(4),
                Err(e) => old(self)@.len() < 4 && e == HddmError::IoError(IoFailure::UnexpectedEof)
                    && final(self)@.len() == 0,
            },
    {
        self.xdr.read_i32()
    }

    pub fn read_u32(&mut self) -> (r: HddmResult<u32>)
        ensures
            match r {
                Ok(x) => 4 <= old(self)@.len() && x == u32_from_be(old(self)@) && final(self)@
                    == old(self)@.skip(4),
                Err(e) => old(self)@.len() < 4 && e == HddmError::IoError(IoFailure::UnexpectedEof)
                    && final(self)@.len() == 0,
            },
    {
        self.xdr.read_u32()
    }

    pub fn read_i64(&mut self) -> (r: HddmResult<i64>)
        ensures
            match r {
                Ok(x) => 8 <= old(self)@.len() && x == i64_from_be(old(self)@) && final(self)@
                    == old(self)@.skip(8),
                Err(e) => old(self)@.len() < 8 && e == HddmError::IoError(IoFailure::UnexpectedEof)
                    && final(self)@.len() == 0,
            },
    {
        self.xdr.read_i64()
    }

    pub fn read_u64(&mut self) -> (r: HddmResult<u64>)
        ensures
            match r {
                Ok(x) => 8 <= old(self)@.len() && x == u64_from_be(old(self)@) && final(self)@
                    == old(self)@.skip(8),
                Err(e) => old(self)@.len() < 8 && e == HddmError::IoError(IoFailure::UnexpectedEof)
                    && final(self)@.len() == 0,
            },
    {
        self.xdr.read_u64()
    }

    /// A 32-bit integer read as a boolean: anything but 0 is `true`.
    pub fn read_bool(&mut self) -> (r: HddmResult<bool>)
        ensures
            match r {
                Ok(x) => 4 <= old(self)@.len() && x == (i32_from_be(old(self)@) != 0)
                    && final(self)@ == old(self)@.skip(4),
                Err(e) => old(self)@.len() < 4 && e == HddmError::IoError(IoFailure::UnexpectedEof)
                    && final(self)@.len() == 0,
            },
    {
        Ok(self.read_i32()? != 0)
    }

    pub fn read_string(&mut self) -> (r: HddmResult<String>)
        ensures
            ({
                let (res, used) = xdr_string_read(old(self)@);
                &&& used <= old(self)@.len()
                &&& final(self)@ == old(self)@.skip(used as int)
                &&& match r {
                    Ok(s) => res == Ok::<Seq<char>, HddmError>(s@),
                    Err(e) => res == Err::<Seq<char>, HddmError>(e),
                }
            }),
    {
        self.xdr.read_string()
    }

    /// Fills `buf` with the next `buf.len()` bytes.
    pub fn read_exact(&mut self, buf: &mut Vec<u8>) -> (r: HddmResult<()>)
        ensures
            final(buf)@.len() == old(buf)@.len(),
            match r {
                Ok(_) => old(buf)@.len() <= old(self)@.len() && final(buf)@ == old(self)@.take(
                    old(buf)@.len() as int,
                ) && final(self)@ == old(self)@.skip(old(buf)@.len() as int),
                Err(e) => old(buf)@.len() > old(self)@.len() && e == HddmError::IoError(
                    IoFailure::UnexpectedEof,
                ) && final(self)@.len() == 0,
            },
    {
        self.xdr.read_exact(buf)
    }

    /// Reads an element's frame and returns a reader over its payload.
    pub fn enter_element(&mut self) -> (r: HddmResult<ElementReader>)
        ensures
            ({
                let (res, used) = element_read(old(self)@);
                &&& used <= old(self)@.len()
                &&& final(self)@ == old(self)@.skip(used as int)
                &&& match r {
                    Ok(e) => res == Ok::<Seq<u8>, HddmError>(e@),
                    Err(e) => res == Err::<Seq<u8>, HddmError>(e),
                }
            }),
    {
        let ghost rem = self@;
        let size = self.read_i32()?;
        if size < 0 {
            return Err(HddmError::FormatError(FormatError::NegativeElementSize(size)));
        }
        let payload = self.xdr.read_n(size as usize)?;
        proof {
            assert(payload@ =~= rem.subrange(4, 4 + size));
            assert(self@ =~= rem.skip(4 + size));
        }
        Ok(ElementReader::from_payload(payload))
    }

    /// Reads an element and discards its payload.
    pub fn skip_element(&mut self) -> (r: HddmResult<()>)
        ensures
            ({
                let (res, used) = element_read(old(self)@);
                &&& used <= old(self)@.len()
                &&& final(self)@ == old(self)@.skip(used as int)
                &&& match r {
                    Ok(_) => res is Ok,
                    Err(e) => res == Err::<Seq<u8>, HddmError>(e),
                }
            }),
    {
        let _ = self.enter_element()?;
        Ok(())
    }

    /// Reads a link element: `None` for an empty payload, else the value
    /// decoded from the payload, which must consume all of it.
    pub fn read_link<T: HddmRead>(&mut self) -> (r: HddmResult<Option<T>>)
        ensures
            framed_outcome(old(self)@, final(self)@, r, Ok(None)),
            r matches Ok(Some(_)) ==> element_read(old(self)@).0 matches Ok(p) && p.len() > 0,
            match element_read(old(self)@).0 {
                Ok(p) => p.len() > 0 ==> exists|decoded: HddmResult<T>, rest: Seq<u8>|
                    T::decodes_to(p, rest, decoded) && r == as_link(contents_outcome(decoded, rest)),
                Err(_) => true,
            },
    {
        let mut e = self.enter_element()?;
        if e.is_empty() {
            return Ok(None);
        }
        let decoded = T::read_contents(&mut e);
        match finish_contents(decoded, &e) {
            Ok(v) => Ok(Some(v)),
            Err(err) => Err(err),
        }
    }

    /// Reads an element that must hold one value, decoded from the whole
    /// payload.
    pub fn read_required_link<T: HddmRead>(&mut self) -> (r: HddmResult<T>)
        ensures
            ({
                let (res, used) = element_read(old(self)@);
                &&& used <= old(self)@.len()
                &&& final(self)@ == old(self)@.skip(used as int)
                &&& match res {
                    Err(e) => r == Err::<T, HddmError>(e),
                    Ok(p) => exists|decoded: HddmResult<T>, rest: Seq<u8>|
                        T::decodes_to(p, rest, decoded) && r == contents_outcome(decoded, rest),
                }
            }),
    {
        let mut e = self.enter_element()?;
        let decoded = T::read_contents(&mut e);
        finish_contents(decoded, &e)
    }

    /// Reads a list element: empty for an empty payload, else a count and
    /// that many values, which must consume the whole payload.
    pub fn read_list<T: HddmRead>(&mut self) -> (r: HddmResult<Vec<T>>)
        ensures
            list_read(old(self)@, final(self)@, r),
    {
        let mut e = self.enter_element()?;
        e.read_list_body()
    }

    /// Reads one record: `None` where the bytes run out (in the frame or in
    /// the contents), else the value decoded from the record's element.
    pub fn read_record<T: HddmRead>(&mut self) -> (r: HddmResult<Option<T>>)
        ensures
            record_read(old(self)@, final(self)@, r),
            r matches Ok(Some(_)) ==> element_read(old(self)@).0 is Ok,
    {
        match self.enter_element() {
            Err(HddmError::IoError(IoFailure::UnexpectedEof)) => Ok(None),
            Err(e) => Err(e),
            Ok(mut e) => {
                let decoded = T::read_contents(&mut e);
                finish_record(decoded, &e)
            },
        }
    }
}

/// What reading a list element from `old_rem` may give, leaving `new_rem`:
/// the frame decides what is consumed and the framing errors; the payload
/// is read as a count and that many items, decoded one after the other.
pub open spec fn list_read<T: HddmRead>(old_rem: Seq<u8>, new_rem: Seq<u8>, r: HddmResult<Vec<T>>) -> bool {
    let (res, used) = element_read(old_rem);
    &&& used <= old_rem.len()
    &&& new_rem == old_rem.skip(used as int)
    &&& match res {
        Err(e) => r == Err::<Vec<T>, HddmError>(e),
        Ok(p) => list_outcome(p, r) && list_items(p, direct_decoder::<T>(), r),
    }
}

/// What reading a record from `old_rem` may give, leaving `new_rem`: `None`
/// where the bytes run out in the frame, a framing error as it came, else
/// the outcome of decoding the payload.
pub open spec fn record_read<T: HddmRead>(old_rem: Seq<u8>, new_rem: Seq<u8>, r: HddmResult<Option<T>>) -> bool {
    let (res, used) = element_read(old_rem);
    &&& used <= old_rem.len()
    &&& new_rem == old_rem.skip(used as int)
    &&& match res {
        Err(HddmError::IoError(IoFailure::UnexpectedEof)) => r == Ok::<Option<T>, HddmError>(None),
        Err(e) => r == Err::<Option<T>, HddmError>(e),
        Ok(p) => exists|decoded: HddmResult<T>, rest: Seq<u8>|
            T::decodes_to(p, rest, decoded) && r == record_outcome(decoded, rest),
    }
}

/// The outcome of reading an element whose contents decoded to `decoded`,
/// leaving `rest` of the payload unread: the decoding error as it came,
/// else the value, provided the whole payload was read.
pub open spec fn contents_outcome<T>(decoded: HddmResult<T>, rest: Seq<u8>) -> HddmResult<T> {
    match decoded {
        Err(e) => Err(e),
        Ok(v) => if rest.len() == 0 {
            Ok(v)
        } else {
            Err(HddmError::FormatError(FormatError::ElementSizeMismatch))
        },
    }
}

/// A link's outcome: the value, present, or the error.
pub open spec fn as_link<T>(r: HddmResult<T>) -> HddmResult<Option<T>> {
    match r {
        Ok(v) => Ok(Some(v)),
        Err(e) => Err(e),
    }
}

/// Completes an element read from what its contents decoded to and the
/// reader over its payload.
pub fn finish_contents<T>(decoded: HddmResult<T>, element: &ElementReader) -> (r: HddmResult<T>)
    ensures
        r == contents_outcome(decoded, element@),
{
    let v = decoded?;
    if element.is_empty() {
        Ok(v)
    } else {
        Err(HddmError::FormatError(FormatError::ElementSizeMismatch))
    }
}

/// The outcome of reading a record whose contents decoded to `decoded`,
/// leaving `rest` of the payload unread: `None` where the contents ran out
/// of bytes, a decoding error as it came, else the value, provided the
/// whole payload was read.
pub open spec fn record_outcome<T>(decoded: HddmResult<T>, rest: Seq<u8>) -> HddmResult<Option<T>> {
    match decoded {
        Err(HddmError::IoError(IoFailure::UnexpectedEof)) => Ok(None),
        Err(e) => Err(e),
        Ok(v) => if rest.len() == 0 {
            Ok(Some(v))
        } else {
            Err(HddmError::FormatError(FormatError::ElementSizeMismatch))
        },
    }
}

/// Completes a record read from what its contents decoded to and the
/// reader over its payload.
pub fn finish_record<T>(decoded: HddmResult<T>, element: &ElementReader) -> (r: HddmResult<Option<T>>)
    ensures
        r == record_outcome(decoded, element@),
{
    match decoded {
        Ok(v) => {
            if element.is_empty() {
                Ok(Some(v))
            } else {
                Err(HddmError::FormatError(FormatError::ElementSizeMismatch))
            }
        },
        Err(HddmError::IoError(IoFailure::UnexpectedEof)) => Ok(None),
        Err(err) => Err(err),
    }
}

/// What reading a list body from payload `p` may give: nothing for an empty
/// payload; otherwise the count's failures, and on success as many values
/// as the count says.
pub open spec fn list_outcome<T>(p: Seq<u8>, r: HddmResult<Vec<T>>) -> bool {
    if p.len() == 0 {
        r matches Ok(v) && v@.len() == 0
    } else if p.len() < 4 {
        r == Err::<Vec<T>, HddmError>(HddmError::IoError(IoFailure::UnexpectedEof))
    } else if i32_from_be(p) < 0 {
        r == Err::<Vec<T>, HddmError>(
            HddmError::FormatError(FormatError::NegativeListCount(i32_from_be(p))),
        )
    } else {
        r matches Ok(v) ==> v@.len() == i32_from_be(p)
    }
}

/// The outcomes that `HddmRead::decodes_to` allows a decoder of `T`.
pub open spec fn direct_decoder<T: HddmRead>() -> spec_fn(Seq<u8>, Seq<u8>, HddmResult<T>) -> bool {
    |payload: Seq<u8>, rest: Seq<u8>, result: HddmResult<T>| T::decodes_to(payload, rest, result)
}

/// The outcomes that `HddmReadPlanned::decodes_planned_to` allows a
/// decoder of `T` directed by `plan`.
pub open spec fn planned_decoder<T: HddmReadPlanned>(plan: ElementPlan) -> spec_fn(
    Seq<u8>,
    Seq<u8>,
    HddmResult<T>,
) -> bool {
    |payload: Seq<u8>, rest: Seq<u8>, result: HddmResult<T>|
        T::decodes_planned_to(payload, plan, rest, result)
}

/// Whether reading `n` items from `rem` may give `r`, where the items
/// `vals` decoded one after the other, as `decodes` allows, from the bytes
/// `rests` (the first is `rem`, each next one what the item before left):
/// the first failure fails the list; after `n` items the bytes must be
/// read whole.
pub open spec fn items_trace<T>(
    rem: Seq<u8>,
    n: nat,
    decodes: spec_fn(Seq<u8>, Seq<u8>, HddmResult<T>) -> bool,
    rests: Seq<Seq<u8>>,
    vals: Seq<T>,
    r: HddmResult<Vec<T>>,
) -> bool {
    &&& vals.len() <= n
    &&& rests.len() == vals.len() + 1
    &&& rests[0] == rem
    &&& forall|i: int|
        0 <= i < vals.len() ==> #[trigger] decodes(rests[i], rests[i + 1], Ok::<T, HddmError>(vals[i]))
    &&& if vals.len() < n {
        exists|after: Seq<u8>, e: HddmError|
            #[trigger] decodes(rests.last(), after, Err::<T, HddmError>(e)) && r == Err::<
                Vec<T>,
                HddmError,
            >(e)
    } else if rests.last().len() == 0 {
        r matches Ok(v) && v@ == vals
    } else {
        r == Err::<Vec<T>, HddmError>(HddmError::FormatError(FormatError::ElementSizeMismatch))
    }
}

/// Where payload `p` starts with a count that is not negative, what the
/// list's items are: decoded one after the other from the bytes after the
/// count, each as `decodes` allows.
pub open spec fn list_items<T>(
    p: Seq<u8>,
    decodes: spec_fn(Seq<u8>, Seq<u8>, HddmResult<T>) -> bool,
    r: HddmResult<Vec<T>>,
) -> bool {
    p.len() >= 4 && i32_from_be(p) >= 0 ==> exists|rests: Seq<Seq<u8>>, vals: Seq<T>|
        #[trigger] items_trace(p.skip(4), i32_from_be(p) as nat, decodes, rests, vals, r)
}

/// The number of items of a list is what its writer counted: a list body
/// that starts with the count `n` reads back, when its items do, as exactly
/// `n` items; an empty body reads back as no items.
pub proof fn lemma_list_count_read_back<T>(body: Seq<u8>, n: int, r: HddmResult<Vec<T>>)
    requires
        list_outcome(body, r),
        body.len() == 0 || (body.len() >= 4 && 0 <= n <= i32::MAX && body.take(4) == be_i32(
            n as i32,
        )),
    ensures
        r matches Ok(v) ==> v@.len() == (if body.len() == 0 {
            0
        } else {
            n
        }),
{
    if body.len() > 0 {
        lemma_i32_roundtrip(n as i32);
        assert(body[0] == body.take(4)[0] && body[1] == body.take(4)[1] && body[2] == body.take(
            4,
        )[2] && body[3] == body.take(4)[3]);
        assert(i32_from_be(body) == i32_from_be(be_i32(n as i32)));
    }
}

/// A reader over the payload of one element.
pub struct ElementReader {
    reader: HddmReader,
}

impl View for ElementReader {
    type V = Seq<u8>;

    /// The payload bytes not read yet.
    closed spec fn view(&self) -> Seq<u8> {
        self.reader@
    }
}

impl ElementReader {
    /// A reader at the start of `payload`.
    pub fn from_payload(payload: Vec<u8>) -> (e: Self)
        ensures
            e@ == payload@,
    {
        ElementReader { reader: HddmReader::new(payload) }
    }

    /// How many payload bytes have been read.
    fn position(&self) -> (p: usize)
        ensures
            p == self.reader.xdr.pos,
    {
        self.reader.xdr.position()
    }

    /// Whether the whole payload has been read.
    pub fn is_empty(&self) -> (b: bool)
        ensures
            b == (self@.len() == 0),
    {
        self.position() >= self.reader.xdr.data.len()
    }

    /// Fails unless the whole payload has been read.
    pub fn ensure_empty(&self) -> (r: HddmResult<()>)
        ensures
            r is Ok <==> self@.len() == 0,
            r matches Err(e) ==> e == HddmError::FormatError(FormatError::PayloadNotEmpty),
    {
        if self.is_empty() {
            Ok(())
        } else {
            Err(HddmError::FormatError(FormatError::PayloadNotEmpty))
        }
    }

    pub fn read_i32(&mut self) -> (r: HddmResult<i32>)
        ensures
            match r {
                Ok(x) => 4 <= old(self)@.len() && x == i32_from_be(old(self)@) && final(self)@
                    == old(self)@.skip(4),
                Err(e) => old(self)@.len() < 4 && e == HddmError::IoError(IoFailure::UnexpectedEof)
                    && final(self)@.len() == 0,
            },
    {
        self.reader.read_i32()
    }

    pub fn read_u32(&mut self) -> (r: HddmResult<u32>)
        ensures
            match r {
                Ok(x) => 4 <= old(self)@.len() && x == u32_from_be(old(self)@) && final(self)@
                    == old(self)@.skip(4),
                Err(e) => old(self)@.len() < 4 && e == HddmError::IoError(IoFailure::UnexpectedEof)
                    && final(self)@.len() == 0,
            },
    {
        self.reader.read_u32()
    }

    pub fn read_i64(&mut self) -> (r: HddmResult<i64>)
        ensures
            match r {
                Ok(x) => 8 <= old(self)@.len() && x == i64_from_be(old(self)@) && final(self)@
                    == old(self)@.skip(8),
                Err(e) => old(self)@.len() < 8 && e == HddmError::IoError(IoFailure::UnexpectedEof)
                    && final(self)@.len() == 0,
            },
    {
        self.reader.read_i64()
    }

    pub fn read_u64(&mut self) -> (r: HddmResult<u64>)
        ensures
            match r {
                Ok(x) => 8 <= old(self)@.len() && x == u64_from_be(old(self)@) && final(self)@
                    == old(self)@.skip(8),
                Err(e) => old(self)@.len() < 8 && e == HddmError::IoError(IoFailure::UnexpectedEof)
                    && final(self)@.len() == 0,
            },
    {
        self.reader.read_u64()
    }

    pub fn read_bool(&mut self) -> (r: HddmResult<bool>)
        ensures
            match r {
                Ok(x) => 4 <= old(self)@.len() && x == (i32_from_be(old(self)@) != 0)
                    && final(self)@ == old(self)@.skip(4),
                Err(e) => old(self)@.len() < 4 && e == HddmError::IoError(IoFailure::UnexpectedEof)
                    && final(self)@.len() == 0,
            },
    {
        self.reader.read_bool()
    }

    pub fn read_string(&mut self) -> (r: HddmResult<String>)
        ensures
            ({
                let (res, used) = xdr_string_read(old(self)@);
                &&& used <= old(self)@.len()
                &&& final(self)@ == old(self)@.skip(used as int)
                &&& match r {
                    Ok(s) => res == Ok::<Seq<char>, HddmError>(s@),
                    Err(e) => res == Err::<Seq<char>, HddmError>(e),
                }
            }),
    {
        self.reader.read_string()
    }

    pub fn read_link<T: HddmRead>(&mut self) -> (r: HddmResult<Option<T>>)
        ensures
            framed_outcome(old(self)@, final(self)@, r, Ok(None)),
            r matches Ok(Some(_)) ==> element_read(old(self)@).0 matches Ok(p) && p.len() > 0,
            match element_read(old(self)@).0 {
                Ok(p) => p.len() > 0 ==> exists|decoded: HddmResult<T>, rest: Seq<u8>|
                    T::decodes_to(p, rest, decoded) && r == as_link(contents_outcome(decoded, rest)),
                Err(_) => true,
            },
    {
        self.reader.read_link()
    }

    pub fn read_required_link<T: HddmRead>(&mut self) -> (r: HddmResult<T>)
        ensures
            ({
                let (res, used) = element_read(old(self)@);
                &&& used <= old(self)@.len()
                &&& final(self)@ == old(self)@.skip(used as int)
                &&& match res {
                    Err(e) => r == Err::<T, HddmError>(e),
                    Ok(p) => exists|decoded: HddmResult<T>, rest: Seq<u8>|
                        T::decodes_to(p, rest, decoded) && r == contents_outcome(decoded, rest),
                }
            }),
    {
        self.reader.read_required_link()
    }

    pub fn read_list<T: HddmRead>(&mut self) -> (r: HddmResult<Vec<T>>)
        ensures
            list_read(old(self)@, final(self)@, r),
    {
        self.reader.read_list()
    }

    pub fn skip_element(&mut self) -> (r: HddmResult<()>)
        ensures
            ({
                let (res, used) = element_read(old(self)@);
                &&& used <= old(self)@.len()
                &&& final(self)@ == old(self)@.skip(used as int)
                &&& match r {
                    Ok(_) => res is Ok,
                    Err(e) => res == Err::<Seq<u8>, HddmError>(e),
                }
            }),
    {
        self.reader.skip_element()
    }

    /// Reads a link element whose contents `plan` decodes: `None` for an
    /// empty payload.
    pub fn read_link_planned<T: HddmReadPlanned>(&mut self, plan: &ElementPlan) -> (r: HddmResult<
        Option<T>,
    >)
        ensures
            framed_outcome(old(self)@, final(self)@, r, Ok(None)),
            r matches Ok(Some(_)) ==> element_read(old(self)@).0 matches Ok(p) && p.len() > 0,
            match element_read(old(self)@).0 {
                Ok(p) => p.len() > 0 ==> exists|decoded: HddmResult<T>, rest: Seq<u8>|
                    T::decodes_planned_to(p, *plan, rest, decoded) && r == as_link(
                        contents_outcome(decoded, rest),
                    ),
                Err(_) => true,
            },
    {
        let mut e = self.reader.enter_element()?;
        if e.is_empty() {
            return Ok(None);
        }
        let decoded = T::read_contents_planned(&mut e, plan);
        match finish_contents(decoded, &e) {
            Ok(v) => Ok(Some(v)),
            Err(err) => Err(err),
        }
    }

    /// Reads an element that must hold one value, whose contents `plan`
    /// decodes.
    pub fn read_required_link_planned<T: HddmReadPlanned>(&mut self, plan: &ElementPlan) -> (r:
        HddmResult<T>)
        ensures
            ({
                let (res, used) = element_read(old(self)@);
                &&& used <= old(self)@.len()
                &&& final(self)@ == old(self)@.skip(used as int)
                &&& match res {
                    Err(e) => r == Err::<T, HddmError>(e),
                    Ok(p) => exists|decoded: HddmResult<T>, rest: Seq<u8>|
                        T::decodes_planned_to(p, *plan, rest, decoded) && r == contents_outcome(
                            decoded,
                            rest,
                        ),
                }
            }),
    {
        let mut e = self.reader.enter_element()?;
        let decoded = T::read_contents_planned(&mut e, plan);
        finish_contents(decoded, &e)
    }

    /// Reads a list element whose items `plan` decodes.
    pub fn read_list_planned<T: HddmReadPlanned>(&mut self, plan: &ElementPlan) -> (r: HddmResult<
        Vec<T>,
    >)
        ensures
            ({
                let (res, used) = element_read(old(self)@);
                &&& used <= old(self)@.len()
                &&& final(self)@ == old(self)@.skip(used as int)
                &&& match res {
                    Err(e) => r == Err::<Vec<T>, HddmError>(e),
                    Ok(p) => list_outcome(p, r) && list_items(p, planned_decoder::<T>(*plan), r),
                }
            }),
    {
        let mut e = self.reader.enter_element()?;
        e.read_list_body_planned(plan)
    }

    /// Reads this payload as a list body whose items `plan` decodes.
    fn read_list_body_planned<T: HddmReadPlanned>(&mut self, plan: &ElementPlan) -> (r: HddmResult<
        Vec<T>,
    >)
        ensures
            list_outcome(old(self)@, r),
            list_items(old(self)@, planned_decoder::<T>(*plan), r),
    {
        if self.is_empty() {
            return Ok(Vec::new());
        }
        let count = self.read_i32()?;
        if count < 0 {
            return Err(HddmError::FormatError(FormatError::NegativeListCount(count)));
        }
        let ghost decodes = planned_decoder::<T>(*plan);
        let ghost rem = self@;
        let ghost mut rests: Seq<Seq<u8>> = seq![self@];
        let mut items: Vec<T> = Vec::new();
        let mut i: i32 = 0;
        while i < count
            invariant
                0 <= i <= count,
                items@.len() == i,
                old(self)@.len() >= 4,
                count == i32_from_be(old(self)@),
                rem == old(self)@.skip(4),
                decodes == planned_decoder::<T>(*plan),
                rests.len() == i + 1,
                rests[0] == rem,
                rests.last() == self@,
                forall|j: int|
                    0 <= j < i ==> #[trigger] decodes(rests[j], rests[j + 1], Ok::<T, HddmError>(items@[j])),
            decreases count - i,
        {
            let ghost before = self@;
            match T::read_contents_planned(self, plan) {
                Ok(item) => {
                    proof {
                        assert(decodes(before, self@, Ok::<T, HddmError>(item)));
                        let old_rests = rests;
                        rests = rests.push(self@);
                        assert forall|j: int| 0 <= j < i + 1 implies #[trigger] decodes(rests[j], rests[j + 1], Ok::<T, HddmError>(items@.push(item)[j])) by {
                            if j < i {
                                assert(rests[j] == old_rests[j] && rests[j + 1] == old_rests[j + 1]);
                                assert(items@.push(item)[j] == items@[j]);
                            }
                        }
                    }
                    items.push(item);
                },
                Err(e) => {
                    proof {
                        assert(decodes(rests.last(), self@, Err::<T, HddmError>(e)));
                        assert(items_trace(rem, count as nat, decodes, rests, items@, Err::<Vec<T>, HddmError>(e)));
                    }
                    return Err(e);
                },
            }
            i = i + 1;
        }
        if !self.is_empty() {
            proof {
                assert(items_trace(rem, count as nat, decodes, rests, items@, Err::<Vec<T>, HddmError>(HddmError::FormatError(FormatError::ElementSizeMismatch))));
            }
            return Err(HddmError::FormatError(FormatError::ElementSizeMismatch));
        }
        proof {
            assert(items_trace(rem, count as nat, decodes, rests, items@, Ok::<Vec<T>, HddmError>(items)));
        }
        Ok(items)
    }

    /// Reads this payload as a list body.
    fn read_list_body<T: HddmRead>(&mut self) -> (r: HddmResult<Vec<T>>)
        ensures
            list_outcome(old(self)@, r),
            list_items(old(self)@, direct_decoder::<T>(), r),
    {
        if self.is_empty() {
            return Ok(Vec::new());
        }
        let count = self.read_i32()?;
        if count < 0 {
            return Err(HddmError::FormatError(FormatError::NegativeListCount(count)));
        }
        let ghost decodes = direct_decoder::<T>();
        let ghost rem = self@;
        let ghost mut rests: Seq<Seq<u8>> = seq![self@];
        let mut items: Vec<T> = Vec::new();
        let mut i: i32 = 0;
        while i < count
            invariant
                0 <= i <= count,
                items@.len() == i,
                old(self)@.len() >= 4,
                count == i32_from_be(old(self)@),
                rem == old(self)@.skip(4),
                decodes == direct_decoder::<T>(),
                rests.len() == i + 1,
                rests[0] == rem,
                rests.last() == self@,
                forall|j: int|
                    0 <= j < i ==> #[trigger] decodes(rests[j], rests[j + 1], Ok::<T, HddmError>(items@[j])),
            decreases count - i,
        {
            let ghost before = self@;
            match T::read_contents(self) {
                Ok(item) => {
                    proof {
                        assert(decodes(before, self@, Ok::<T, HddmError>(item)));
                        let old_rests = rests;
                        rests = rests.push(self@);
                        assert forall|j: int| 0 <= j < i + 1 implies #[trigger] decodes(rests[j], rests[j + 1], Ok::<T, HddmError>(items@.push(item)[j])) by {
                            if j < i {
                                assert(rests[j] == old_rests[j] && rests[j + 1] == old_rests[j + 1]);
                                assert(items@.push(item)[j] == items@[j]);
                            }
                        }
                    }
                    items.push(item);
                },
                Err(e) => {
                    proof {
                        assert(decodes(rests.last(), self@, Err::<T, HddmError>(e)));
                        assert(items_trace(rem, count as nat, decodes, rests, items@, Err::<Vec<T>, HddmError>(e)));
                    }
                    return Err(e);
                },
            }
            i = i + 1;
        }
        if !self.is_empty() {
            proof {
                assert(items_trace(rem, count as nat, decodes, rests, items@, Err::<Vec<T>, HddmError>(HddmError::FormatError(FormatError::ElementSizeMismatch))));
            }
            return Err(HddmError::FormatError(FormatError::ElementSizeMismatch));
        }
        proof {
            assert(items_trace(rem, count as nat, decodes, rests, items@, Ok::<Vec<T>, HddmError>(items)));
        }
        Ok(items)
    }
}

/// A type whose values are decoded from HDDM element contents.
pub trait HddmRead: Sized {
    /// Whether decoding contents from `payload` may give `result` and leave
    /// `rest` of it unread. An impl whose `read_contents` is verified may
    /// define it; the default allows every outcome.
    open spec fn decodes_to(payload: Seq<u8>, rest: Seq<u8>, result: HddmResult<Self>) -> bool {
        true
    }

    /// Decodes a value from the element's contents.
    fn read_contents(r: &mut ElementReader) -> (x: HddmResult<Self>)
        ensures
            Self::decodes_to(old(r)@, final(r)@, x),
    ;

    /// Reads the value as a whole element, whose contents must be read
    /// whole: the frame decides what is consumed and the framing errors.
    fn read_hddm(r: &mut HddmReader) -> (x: HddmResult<Self>)
        default_ensures
            ({
                let (res, used) = element_read(old(r)@);
                &&& used <= old(r)@.len()
                &&& final(r)@ == old(r)@.skip(used as int)
                &&& match res {
                    Err(e) => x == Err::<Self, HddmError>(e),
                    Ok(p) => exists|decoded: HddmResult<Self>, rest: Seq<u8>|
                        Self::decodes_to(p, rest, decoded) && x == contents_outcome(decoded, rest),
                }
            }),
    {
        let mut e = r.enter_element()?;
        let decoded = Self::read_contents(&mut e);
        finish_contents(decoded, &e)
    }
}

/// A type whose values are decoded from the contents of an element written
/// under another model, as a plan directs.
pub trait HddmReadPlanned: Sized {
    /// Whether decoding contents from `payload` as `plan` directs may give
    /// `result` and leave `rest` of it unread. An impl whose
    /// `read_contents_planned` is verified may define it; the default
    /// allows every outcome.
    open spec fn decodes_planned_to(
        payload: Seq<u8>,
        plan: ElementPlan,
        rest: Seq<u8>,
        result: HddmResult<Self>,
    ) -> bool {
        true
    }

    /// Decodes a value from the element's contents as `plan` directs.
    fn read_contents_planned(r: &mut ElementReader, plan: &ElementPlan) -> (x: HddmResult<Self>)
        ensures
            Self::decodes_planned_to(old(r)@, *plan, final(r)@, x),
    ;
}

/// A primitive that an element's attribute holds.
pub trait HddmPrimitiveRead: Sized {
    fn read_primitive(r: &mut ElementReader) -> HddmResult<Self>;
}

impl HddmPrimitiveRead for i32 {
    fn read_primitive(r: &mut ElementReader) -> (x: HddmResult<i32>)
        ensures
            x matches Ok(v) ==> v == i32_from_be(old(r)@) && final(r)@ == old(r)@.skip(4),
            x is Err <==> old(r)@.len() < 4,
    {
        r.read_i32()
    }
}

impl HddmPrimitiveRead for u32 {
    fn read_primitive(r: &mut ElementReader) -> (x: HddmResult<u32>)
        ensures
            x matches Ok(v) ==> v == u32_from_be(old(r)@) && final(r)@ == old(r)@.skip(4),
            x is Err <==> old(r)@.len() < 4,
    {
        r.read_u32()
    }
}

impl HddmPrimitiveRead for i64 {
    fn read_primitive(r: &mut ElementReader) -> (x: HddmResult<i64>)
        ensures
            x matches Ok(v) ==> v == i64_from_be(old(r)@) && final(r)@ == old(r)@.skip(8),
            x is Err <==> old(r)@.len() < 8,
    {
        r.read_i64()
    }
}

impl HddmPrimitiveRead for u64 {
    fn read_primitive(r: &mut ElementReader) -> (x: HddmResult<u64>)
        ensures
            x matches Ok(v) ==> v == u64_from_be(old(r)@) && final(r)@ == old(r)@.skip(8),
            x is Err <==> old(r)@.len() < 8,
    {
        r.read_u64()
    }
}

impl HddmPrimitiveRead for bool {
    fn read_primitive(r: &mut ElementReader) -> (x: HddmResult<bool>)
        ensures
            x matches Ok(v) ==> v == (i32_from_be(old(r)@) != 0) && final(r)@ == old(r)@.skip(4),
            x is Err <==> old(r)@.len() < 4,
    {
        r.read_bool()
    }
}

impl HddmPrimitiveRead for String {
    fn read_primitive(r: &mut ElementReader) -> (x: HddmResult<String>)
        ensures
            ({
                let (res, used) = xdr_string_read(old(r)@);
                &&& final(r)@ == old(r)@.skip(used as int)
                &&& match x {
                    Ok(s) => res == Ok::<Seq<char>, HddmError>(s@),
                    Err(e) => res == Err::<Seq<char>, HddmError>(e),
                }
            }),
    {
        r.read_string()
    }
}

/// Reads a big-endian 32-bit integer.
pub fn read_i32(r: &mut XdrReader) -> (x: HddmResult<i32>)
    ensures
        final(r).data@ == old(r).data@,
        match x {
            Ok(v) => 4 <= old(r).remaining().len() && v == i32_from_be(old(r).remaining())
                && final(r).remaining() == old(r).remaining().skip(4),
            Err(e) => old(r).remaining().len() < 4 && e == HddmError::IoError(
                IoFailure::UnexpectedEof,
            ) && final(r).remaining().len() == 0,
        },
{
    r.read_i32()
}

/// Reads the body of a compression status token (after its marker): the
/// token size must be 8 and the format 0; the status bits select the mode.
pub fn read_compression(r: &mut XdrReader) -> (c: HddmResult<Compression>)
    ensures
        final(r).data@ == old(r).data@,
        ({
            let (res, used) = compression_read(old(r).remaining());
            &&& used <= old(r).remaining().len()
            &&& final(r).remaining() == old(r).remaining().skip(used as int)
            &&& c == res
        }),
{
    let ghost rem = r.remaining();
    let token_size = read_i32(r)?;
    if token_size != 8 {
        return Err(HddmError::FormatError(FormatError::InvalidStatusTokenSize(token_size)));
    }
    let format = read_i32(r)?;
    assert(rem.skip(4).skip(4) =~= rem.skip(8));
    if format != 0 {
        return Err(HddmError::FormatError(FormatError::UnsupportedStatusTokenFormat(format)));
    }
    let status_bits = read_i32(r)?;
    assert(rem.skip(8).skip(4) =~= rem.skip(12));
    let masked = status_bits & (crate::K_Z_COMPRESSION | crate::K_BZ2_COMPRESSION);
    assert(crate::K_Z_COMPRESSION | crate::K_BZ2_COMPRESSION == 0x30) by (bit_vector);
    if masked == 0 {
        Ok(Compression::Uncompressed)
    } else if masked == crate::K_Z_COMPRESSION {
        Ok(Compression::Zlib)
    } else if masked == crate::K_BZ2_COMPRESSION {
        Ok(Compression::Bzip2)
    } else {
        Err(HddmError::FormatError(FormatError::UnsupportedCompressionBits(masked)))
    }
}

/// Reads a record payload of `size` bytes; a negative size is refused.
pub fn read_payload(r: &mut XdrReader, size: i32) -> (p: HddmResult<Vec<u8>>)
    ensures
        final(r).data@ == old(r).data@,
        ({
            let (res, used) = payload_read(old(r).remaining(), size);
            &&& used <= old(r).remaining().len()
            &&& final(r).remaining() == old(r).remaining().skip(used as int)
            &&& match p {
                Ok(v) => res == Ok::<Seq<u8>, HddmError>(v@),
                Err(e) => res == Err::<Seq<u8>, HddmError>(e),
            }
        }),
{
    if size < 0 {
        assert(r.remaining().skip(0) =~= r.remaining());
        return Err(HddmError::FormatError(FormatError::NegativeRecordSize(size)));
    }
    r.read_n(size as usize)
}

/// Reads a compressed block of `size` bytes in mode `mode` and decodes it.
fn read_next_block_with_size(r: &mut XdrReader, mode: Compression, size: i32) -> (b: HddmResult<
    XdrReader,
>)
    requires
        mode != Compression::Uncompressed,
    ensures
        final(r).data@ == old(r).data@,
        ({
            let rem = old(r).remaining();
            if size < 0 {
                &&& b == Err::<XdrReader, HddmError>(negative_block_error(mode, size))
                &&& final(r).remaining() == rem
            } else if rem.len() < size {
                &&& b == Err::<XdrReader, HddmError>(HddmError::IoError(IoFailure::UnexpectedEof))
                &&& final(r).remaining().len() == 0
            } else {
                &&& final(r).remaining() == rem.skip(size as int)
                &&& match b {
                    Ok(x) => decompressed(mode, rem.take(size as int)) == Some(x.remaining()),
                    Err(e) => decompressed(mode, rem.take(size as int)) is None && e
                        == HddmError::IoError(IoFailure::DecompressionFailed),
                }
            }
        }),
{
    if size < 0 {
        if mode == Compression::Bzip2 {
            return Err(HddmError::FormatError(FormatError::NegativeBzip2BlockSize(size)));
        } else {
            return Err(HddmError::FormatError(FormatError::NegativeZlibBlockSize(size)));
        }
    }
    let compressed = r.read_n(size as usize)?;
    let decompressed = if mode == Compression::Bzip2 {
        bzip2_decompress(compressed.as_slice())?
    } else {
        zlib_decompress(compressed.as_slice())?
    };
    Ok(XdrReader::new(decompressed))
}

/// Reads a zlib block of `compressed_size` bytes and decodes it.
pub fn read_next_zlib_block_with_size(r: &mut XdrReader, compressed_size: i32) -> (b: HddmResult<
    XdrReader,
>)
    ensures
        final(r).data@ == old(r).data@,
        ({
            let rem = old(r).remaining();
            if compressed_size < 0 {
                &&& b == Err::<XdrReader, HddmError>(
                    HddmError::FormatError(FormatError::NegativeZlibBlockSize(compressed_size)),
                )
                &&& final(r).remaining() == rem
            } else if rem.len() < compressed_size {
                &&& b == Err::<XdrReader, HddmError>(HddmError::IoError(IoFailure::UnexpectedEof))
                &&& final(r).remaining().len() == 0
            } else {
                &&& final(r).remaining() == rem.skip(compressed_size as int)
                &&& match b {
                    Ok(x) => crate::codec::zlib_decompressed(rem.take(compressed_size as int))
                        == Some(x.remaining()),
                    Err(e) => crate::codec::zlib_decompressed(rem.take(compressed_size as int)) is None
                        && e == HddmError::IoError(IoFailure::DecompressionFailed),
                }
            }
        }),
{
    read_next_block_with_size(r, Compression::Zlib, compressed_size)
}

/// Reads a bzip2 block of `compressed_size` bytes and decodes it.
pub fn read_next_bzip2_block_with_size(r: &mut XdrReader, compressed_size: i32) -> (b: HddmResult<
    XdrReader,
>)
    ensures
        final(r).data@ == old(r).data@,
        ({
            let rem = old(r).remaining();
            if compressed_size < 0 {
                &&& b == Err::<XdrReader, HddmError>(
                    HddmError::FormatError(FormatError::NegativeBzip2BlockSize(compressed_size)),
                )
                &&& final(r).remaining() == rem
            } else if rem.len() < compressed_size {
                &&& b == Err::<XdrReader, HddmError>(HddmError::IoError(IoFailure::UnexpectedEof))
                &&& final(r).remaining().len() == 0
            } else {
                &&& final(r).remaining() == rem.skip(compressed_size as int)
                &&& match b {
                    Ok(x) => crate::codec::bzip2_decompressed(rem.take(compressed_size as int))
                        == Some(x.remaining()),
                    Err(e) => crate::codec::bzip2_decompressed(rem.take(compressed_size as int))
                        is None && e == HddmError::IoError(IoFailure::DecompressionFailed),
                }
            }
        }),
{
    read_next_block_with_size(r, Compression::Bzip2, compressed_size)
}

/// Reads the records of a stream: plain records, compression status
/// tokens, and compressed blocks of records.
pub struct HddmRecordReader {
    raw: XdrReader,
    compression: Compression,
    current_block: Option<XdrReader>,
}

impl View for HddmRecordReader {
    type V = RecordStreamState;

    closed spec fn view(&self) -> RecordStreamState {
        RecordStreamState {
            raw: self.raw.remaining(),
            mode: self.compression,
            block: match self.current_block {
                Some(b) => Some(b.remaining()),
                None => None,
            },
        }
    }
}

impl HddmRecordReader {
    /// A reader at the start of the stream `raw`, without compression.
    pub fn new(raw: Vec<u8>) -> (r: Self)
        ensures
            r@ == (RecordStreamState { raw: raw@, mode: Compression::Uncompressed, block: None }),
    {
        HddmRecordReader {
            raw: XdrReader::new(raw),
            compression: Compression::Uncompressed,
            current_block: None,
        }
    }

    /// Whether there is no current block or nothing is left of it.
    fn current_block_is_empty(&self) -> (b: bool)
        ensures
            b == block_exhausted(self@.block),
    {
        match &self.current_block {
            Some(block) => block.is_empty(),
            None => true,
        }
    }

    /// Reads a token body from the raw stream and switches to its mode.
    fn switch_from_raw(&mut self) -> (r: HddmResult<()>)
        ensures
            ({
                let (c, used) = compression_read(old(self)@.raw);
                &&& used <= old(self)@.raw.len()
                &&& match c {
                    Ok(m) => r is Ok && final(self)@ == RecordStreamState {
                        raw: old(self)@.raw.skip(used as int),
                        mode: m,
                        block: None,
                    },
                    Err(e) => r == Err::<(), HddmError>(e) && final(self)@ == RecordStreamState {
                        raw: old(self)@.raw.skip(used as int),
                        mode: old(self)@.mode,
                        block: old(self)@.block,
                    },
                }
            }),
    {
        let c = read_compression(&mut self.raw)?;
        self.compression = c;
        self.current_block = None;
        Ok(())
    }

    /// The part of a step that reads the raw stream: the end, a token, a
    /// plain record, or a block to load.
    fn raw_step(&mut self) -> (o: StepOutcome)
        requires
            old(self)@.mode == Compression::Uncompressed || block_exhausted(old(self)@.block),
        ensures
            match o {
                StepOutcome::Return(r) => outcome_matches(read_step(old(self)@), final(self)@, r),
                StepOutcome::Again => read_step(final(self)@) == read_step(old(self)@)
                    && final(self)@.raw.len() < old(self)@.raw.len(),
                StepOutcome::InBlock => read_step(old(self)@) == block_step(final(self)@)
                    && final(self)@.block is Some && final(self)@.raw.len() < old(self)@.raw.len(),
            },
    {
        let ghost s0 = self@;
        let size = match read_i32(&mut self.raw) {
            Ok(size) => size,
            Err(_) => {
                assert(self@.raw =~= Seq::<u8>::empty());
                return StepOutcome::Return(Ok(None));
            },
        };
        assert(self@.raw == s0.raw.skip(4));
        if size == 1 {
            return match self.switch_from_raw() {
                Ok(()) => StepOutcome::Again,
                Err(e) => StepOutcome::Return(Err(e)),
            };
        }
        if self.compression == Compression::Uncompressed {
            let p = read_payload(&mut self.raw, size);
            return match p {
                Ok(p) => StepOutcome::Return(Ok(Some(p))),
                Err(e) => StepOutcome::Return(Err(e)),
            };
        }
        match read_next_block_with_size(&mut self.raw, self.compression, size) {
            Ok(block) => {
                self.current_block = Some(block);
                StepOutcome::InBlock
            },
            Err(e) => {
                proof {
                    if self@.raw.len() == 0 {
                        assert(self@.raw =~= Seq::<u8>::empty());
                    }
                }
                StepOutcome::Return(Err(e))
            },
        }
    }

    /// The part of a step that reads the current block: a token or a record.
    fn block_part(&mut self) -> (o: StepOutcome)
        requires
            old(self)@.block is Some,
        ensures
            match o {
                StepOutcome::Return(r) => outcome_matches(block_step(old(self)@), final(self)@, r),
                StepOutcome::Again => read_step(final(self)@) == block_step(old(self)@)
                    && final(self)@.raw == old(self)@.raw && final(self)@.block is None,
                StepOutcome::InBlock => false,
            },
    {
        let ghost s0 = self@;
        let mut block = match self.current_block.take() {
            Some(b) => b,
            None => XdrReader::new(Vec::new()),
        };
        let size = match read_i32(&mut block) {
            Ok(size) => size,
            Err(e) => {
                self.current_block = Some(block);
                assert(self@.block->0 =~= Seq::<u8>::empty());
                return StepOutcome::Return(Err(e));
            },
        };
        if size == 1 {
            match read_compression(&mut block) {
                Ok(c) => {
                    self.compression = c;
                    self.current_block = None;
                    return StepOutcome::Again;
                },
                Err(e) => {
                    self.current_block = Some(block);
                    return StepOutcome::Return(Err(e));
                },
            }
        }
        let p = read_payload(&mut block, size);
        self.current_block = Some(block);
        match p {
            Ok(p) => StepOutcome::Return(Ok(Some(p))),
            Err(e) => StepOutcome::Return(Err(e)),
        }
    }

    /// The next record's payload, `None` at the end of the stream. Status
    /// tokens switch the compression mode on the way; compressed blocks are
    /// decoded as they are reached.
    pub fn next_record_payload(&mut self) -> (r: HddmResult<Option<Vec<u8>>>)
        ensures
            outcome_matches(read_step(old(self)@), final(self)@, r),
    {
        let ghost target = read_step(self@);
        loop
            invariant
                read_step(self@) == target,
                target == read_step(old(self)@),
            decreases self@.raw.len(), block_measure(self@.block),
        {
            let ghost s0 = self@;
            if self.compression == Compression::Uncompressed || self.current_block_is_empty() {
                match self.raw_step() {
                    StepOutcome::Return(r) => {
                        return r;
                    },
                    StepOutcome::Again => {
                        continue;
                    },
                    StepOutcome::InBlock => {},
                }
            } else {
                assert(read_step(s0) == block_step(s0));
            }
            match self.block_part() {
                StepOutcome::Return(r) => {
                    return r;
                },
                _ => {},
            }
        }
    }
}

/// How one part of a reading step ends: with the step's result, by going
/// round again, or inside a freshly loaded block.
enum StepOutcome {
    Return(HddmResult<Option<Vec<u8>>>),
    Again,
    InBlock,
}

/// `r`, with the reader now at `fin`, is the step `res`.
pub open spec fn outcome_matches(
    res: (Result<Option<Seq<u8>>, HddmError>, RecordStreamState),
    fin: RecordStreamState,
    r: HddmResult<Option<Vec<u8>>>,
) -> bool {
    &&& fin == res.1
    &&& match r {
        Ok(Some(v)) => res.0 == Ok::<Option<Seq<u8>>, HddmError>(Some(v@)),
        Ok(None) => res.0 == Ok::<Option<Seq<u8>>, HddmError>(None),
        Err(e) => res.0 == Err::<Option<Seq<u8>>, HddmError>(e),
    }
}

} // verus!
