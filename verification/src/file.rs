//! HDDM files held in memory: the XML header, then the record stream.
//! Reading decodes each record into the caller's types, directly where the
//! file's model is theirs, else by a plan; writing puts the header text
//! before the records.
use vstd::prelude::*;
use vstd::utf8::{encode_utf8, valid_utf8};

use crate::error::{FormatError, HddmError, HddmResult};
use crate::header::{models_equal, opt_view, same_model, string_is, HddmModel};
use crate::header_parse::{
    first_end_tag, header_bytes, header_len, header_parse, read_header_streaming,
};
use crate::plan::{build_model_plan, element_plan_error, plans_element, reports, ElementPlan, ModelPlan};
use crate::read::{ElementReader, HddmRead, HddmReadPlanned, HddmRecordReader};
use crate::format::{element_frame, token_bytes};
use crate::records::{
    block_bytes, read_step, stream_bytes, reads_all, unambiguous, RecordStreamState, Segment,
};
use crate::write::{
    lemma_written_records_read_back, lemma_written_segments, record_written, switched, HddmRecordWriter,
    HddmWrite,
};
use crate::xdr::{append_bytes, utf8_error_text, XdrReader};
use crate::Compression;

verus! {

/// The model that a family of record types was generated from.
pub trait HddmSchema {
    /// Whether `m` may be the model that `model` returns. An impl whose
    /// `model` is verified may define it; the default allows any model.
    open spec fn declares_model(m: HddmModel) -> bool {
        true
    }

    /// Whether `c` may be the class that `hddm_class` returns. An impl
    /// whose `hddm_class` is verified may define it; the default allows any
    /// text.
    open spec fn declares_class(c: Seq<char>) -> bool {
        true
    }

    /// The model that the record types were generated from.
    fn model() -> (m: &'static HddmModel)
        ensures
            Self::declares_model(*m),
    ;

    /// The model's text.
    fn model_text() -> &'static str;

    /// The class under which the record types' plans are kept.
    fn hddm_class() -> (c: &'static str)
        ensures
            Self::declares_class(c@),
    ;
}

/// Whether a file is started, with a model's text as its header, or
/// continued.
pub enum WriteMode {
    Create { model: String },
    Append,
}

/// Entry points for files held in memory.
pub struct HddmFile;

impl HddmFile {
    /// A reader over the bytes of a whole file.
    pub fn open(data: Vec<u8>) -> (r: HddmResult<HddmFileReader>)
        ensures
            opens(data@, r),
    {
        HddmFileReader::open(data)
    }

    /// A writer of a new file whose header is `model`, compressing records
    /// with zlib.
    pub fn create(model: &str) -> (r: HddmResult<HddmFileWriter>)
        ensures
            r is Ok,
            r matches Ok(w) ==> w.started(encode_utf8(model@), Compression::Zlib) && w.written()
                == encode_utf8(model@) + token_bytes(Compression::Zlib),
    {
        let text: String = model.to_owned();
        HddmFileWriter::new(WriteMode::Create { model: text }, Compression::Zlib)
    }

    /// A writer that continues a file, compressing records with zlib.
    pub fn append() -> (r: HddmResult<HddmFileWriter>)
        ensures
            r is Ok,
            r matches Ok(w) ==> w.started(Seq::empty(), Compression::Zlib) && w.written()
                == token_bytes(Compression::Zlib),
    {
        HddmFileWriter::new(WriteMode::Append, Compression::Zlib)
    }
}

/// What opening a file held in `data` gives: without a closing root tag,
/// the failure of a header that runs to the end; else what parsing the
/// header's bytes gave, provided they are UTF-8, and on success a reader
/// just opened on `data` with the parsed model.
pub open spec fn opens(data: Seq<u8>, r: HddmResult<HddmFileReader>) -> bool {
    if first_end_tag(data) == -1 {
        r == Err::<HddmFileReader, HddmError>(HddmError::FormatError(FormatError::HeaderEof))
    } else {
        exists|parsed: HddmResult<(HddmModel, usize)>|
            #![trigger header_parse(header_bytes(data), parsed)]
            header_parse(header_bytes(data), parsed) && match parsed {
                Err(e) => r == Err::<HddmFileReader, HddmError>(e),
                Ok((m, _)) => if valid_utf8(header_bytes(data)) {
                    r matches Ok(f) && f.opened_on(data) && f.header_model() == m
                } else {
                    r matches Err(HddmError::FormatError(FormatError::HeaderNotUtf8(msg))) && msg@
                        == utf8_error_text(header_bytes(data))
                },
            }
    }
}

/// A plan built for the record types of one class.
struct CachedPlan {
    class: String,
    plan: ModelPlan,
}

/// Reads the records of a file held in memory.
pub struct HddmFileReader {
    pub header: HddmModel,
    records: HddmRecordReader,
    plan_cache: Vec<CachedPlan>,
}

impl HddmFileReader {
    /// Where the reader stands in the record stream.
    pub closed spec fn stream(&self) -> RecordStreamState {
        self.records@
    }

    /// The model that the file's header declares.
    pub closed spec fn header_model(&self) -> HddmModel {
        self.header
    }

    /// The classes whose plans are kept.
    pub closed spec fn cached_classes(&self) -> Seq<Seq<char>> {
        self.plan_cache@.map_values(|c: CachedPlan| c.class@)
    }

    /// The plan kept for `class`: that of the first entry kept under it.
    pub closed spec fn kept_plan(&self, class: Seq<char>) -> ElementPlan {
        let k = choose|k: int|
            0 <= k < self.cached_classes().len() && self.cached_classes()[k] == class && forall|
                j: int,
            | 0 <= j < k ==> self.cached_classes()[j] != class;
        self.plan_cache@[k].plan.root
    }

    /// Whether this is a reader just opened on `data`: at the start of the
    /// record stream that follows the header, with no plans kept.
    pub open spec fn opened_on(&self, data: Seq<u8>) -> bool {
        &&& self.stream() == (RecordStreamState {
            raw: data.skip(header_len(data)),
            mode: Compression::Uncompressed,
            block: None,
        })
        &&& self.cached_classes().len() == 0
    }

    /// A reader over the bytes of a whole file: its header is read, and the
    /// records that follow it are read on demand.
    pub fn open(data: Vec<u8>) -> (r: HddmResult<Self>)
        ensures
            opens(data@, r),
    {
        let ghost bytes = data@;
        let mut raw = XdrReader::new(data);
        let header = match read_header_streaming(&mut raw) {
            Ok((h, _)) => h,
            Err(e) => {
                return Err(e);
            },
        };
        let ghost after = raw.remaining();
        let n = raw.remaining_len();
        let rest = raw.read_n(n)?;
        proof {
            assert(after == bytes.skip(header_len(bytes)));
            assert(rest@ =~= after);
        }
        let f = HddmFileReader {
            header,
            records: HddmRecordReader::new(rest),
            plan_cache: Vec::new(),
        };
        proof {
            assert(f.cached_classes() =~= Seq::<Seq<char>>::empty());
        }
        Ok(f)
    }

    /// The model that the file's header declares.
    pub fn header(&self) -> (h: &HddmModel)
        ensures
            *h == self.header_model(),
    {
        &self.header
    }

    /// The index of the plan kept for `class`.
    fn find_plan(&self, class: &str) -> (r: Option<usize>)
        ensures
            match r {
                Some(i) => i < self.plan_cache@.len() && self.cached_classes()[i as int] == class@
                    && forall|j: int| 0 <= j < i ==> self.cached_classes()[j] != class@,
                None => !self.cached_classes().contains(class@),
            },
    {
        let mut i: usize = 0;
        while i < self.plan_cache.len()
            invariant
                i <= self.plan_cache@.len(),
                forall|j: int| 0 <= j < i ==> self.cached_classes()[j] != class@,
            decreases self.plan_cache.len() - i,
        {
            if string_is(&self.plan_cache[i].class, class) {
                return Some(i);
            }
            i = i + 1;
        }
        None
    }

    /// Reads the next record as a `T` generated from model `generated`,
    /// whose plans are kept under `class`. Where the file's model is
    /// `generated`, the record decodes directly; else by the plan of the
    /// file's model against `generated`, built on first use. The record
    /// must be read whole.
    pub fn read_record_as<T: HddmRead + HddmReadPlanned>(
        &mut self,
        generated: &HddmModel,
        class: &str,
    ) -> (r: HddmResult<Option<T>>)
        ensures
            record_read_as(*old(self), *final(self), *generated, class@, r),
            read_step(old(self).stream()).0 matches Ok(Some(_)) ==> !(r matches Ok(None)),
    {
        let payload = match self.records.next_record_payload() {
            Err(e) => {
                return Err(e);
            },
            Ok(None) => {
                return Ok(None);
            },
            Ok(Some(p)) => p,
        };
        let mut element = ElementReader::from_payload(payload);
        let decoded = if models_equal(&self.header, generated) {
            T::read_contents(&mut element)
        } else {
            let index = match self.find_plan(class) {
                Some(i) => i,
                None => {
                    let plan = build_model_plan(&self.header, generated)?;
                    let key: String = class.to_owned();
                    let ghost before = self.plan_cache@;
                    self.plan_cache.push(CachedPlan { class: key, plan });
                    proof {
                        assert(self.cached_classes() =~= before.map_values(
                            |c: CachedPlan| c.class@,
                        ).push(class@));
                    }
                    self.plan_cache.len() - 1
                },
            };
            proof {
                self.lemma_kept_plan(index as int, class@);
            }
            T::read_contents_planned(&mut element, &self.plan_cache[index].plan.root)
        };
        finish_payload(decoded, &element)
    }

    /// The plan kept for `class` is that of the first entry kept under it.
    proof fn lemma_kept_plan(&self, i: int, class: Seq<char>)
        requires
            0 <= i < self.plan_cache@.len(),
            self.cached_classes()[i] == class,
            forall|j: int| 0 <= j < i ==> self.cached_classes()[j] != class,
        ensures
            self.kept_plan(class) == self.plan_cache@[i].plan.root,
    {
        let k = choose|k: int|
            0 <= k < self.cached_classes().len() && self.cached_classes()[k] == class && forall|
                j: int,
            | 0 <= j < k ==> self.cached_classes()[j] != class;
        if k < i {
            assert(self.cached_classes()[k] != class);
        } else if i < k {
            assert(self.cached_classes()[i] != class);
        }
    }

    /// Reads the next record as a `T`, by the model and class that `T`
    /// declares; `None` at the end of the stream.
    pub fn read_record<T: HddmRead + HddmReadPlanned + HddmSchema>(&mut self) -> (r: HddmResult<
        Option<T>,
    >)
        ensures
            exists|generated: HddmModel, class: Seq<char>|
                {
                    &&& T::declares_model(generated)
                    &&& T::declares_class(class)
                    &&& #[trigger] record_read_as(*old(self), *final(self), generated, class, r)
                },
            read_step(old(self).stream()).0 matches Ok(Some(_)) ==> !(r matches Ok(None)),
    {
        self.read_record_as::<T>(T::model(), T::hddm_class())
    }
}

/// A record written as the contents of `x` is read back as `x`, where the
/// file's model is the reader's and the type's decoder reads whatever `x`
/// writes back whole as `x`.
pub proof fn lemma_record_value_read_back<T: HddmRead + HddmReadPlanned + HddmWrite>(
    before: HddmFileReader,
    after: HddmFileReader,
    generated: HddmModel,
    class: Seq<char>,
    r: HddmResult<Option<T>>,
    x: T,
    payload: Seq<u8>,
)
    requires
        record_read_as(before, after, generated, class, r),
        read_step(before.stream()).0 == Ok::<Option<Seq<u8>>, HddmError>(Some(payload)),
        x.writes_as(payload),
        same_model(before.header_model(), generated),
        forall|p: Seq<u8>, rest: Seq<u8>, decoded: HddmResult<T>|
            x.writes_as(p) && #[trigger] T::decodes_to(p, rest, decoded) ==> decoded == Ok::<
                T,
                HddmError,
            >(x) && rest.len() == 0,
    ensures
        r == Ok::<Option<T>, HddmError>(Some(x)),
{
}

/// What reading the next record of a file as a `T` generated from model
/// `generated`, with its plans kept under `class`, does to the reader and
/// gives: the record stream's step decides the end and the stream's
/// errors; a record is decoded directly where the models are the same;
/// else the plan kept under `class` decodes it, and where none is kept, the
/// file's model is planned against `generated` (its class mismatch and
/// element errors fail the read) and the plan is kept. The record must be
/// read whole.
pub open spec fn record_read_as<T: HddmRead + HddmReadPlanned>(
    before: HddmFileReader,
    after: HddmFileReader,
    generated: HddmModel,
    class: Seq<char>,
    r: HddmResult<Option<T>>,
) -> bool {
    &&& after.header_model() == before.header_model()
    &&& after.stream() == read_step(before.stream()).1
    &&& match read_step(before.stream()).0 {
        Err(e) => r == Err::<Option<T>, HddmError>(e) && after.cached_classes()
            == before.cached_classes(),
        Ok(None) => r == Ok::<Option<T>, HddmError>(None) && after.cached_classes()
            == before.cached_classes(),
        Ok(Some(p)) => {
            let input = before.header_model();
            let planned = !same_model(input, generated);
            let fresh = planned && !before.cached_classes().contains(class);
            &&& !planned ==> after.cached_classes() == before.cached_classes() && exists|
                decoded: HddmResult<T>,
                rest: Seq<u8>,
            | T::decodes_to(p, rest, decoded) && r == payload_outcome(decoded, rest)
            &&& fresh && opt_view(input.class_name) != opt_view(generated.class_name) ==> (r matches Err(
                HddmError::FormatError(FormatError::ClassMismatch { file_class, expected_class }),
            ) && opt_view(file_class) == opt_view(input.class_name) && opt_view(expected_class)
                == opt_view(generated.class_name))
            &&& fresh && opt_view(input.class_name) == opt_view(generated.class_name) ==> match element_plan_error(
                input.root,
                generated.root,
            ) {
                Some(m) => (r matches Err(e) && reports(e, m)),
                None => {
                    &&& after.cached_classes() == before.cached_classes().push(class)
                    &&& plans_element(after.kept_plan(class), input.root, generated.root)
                },
            }
            &&& planned && !fresh ==> {
                &&& after.cached_classes() == before.cached_classes()
                &&& after.kept_plan(class) == before.kept_plan(class)
            }
            &&& planned && after.cached_classes().contains(class) ==> exists|
                decoded: HddmResult<T>,
                rest: Seq<u8>,
            | T::decodes_planned_to(p, after.kept_plan(class), rest, decoded) && r == payload_outcome(
                decoded,
                rest,
            )
        },
    }
}

/// The outcome of a record read from a file whose contents decoded to
/// `decoded`, leaving `rest` of the payload unread: the decoding error as
/// it came, else the value, provided the whole payload was read.
pub open spec fn payload_outcome<T>(decoded: HddmResult<T>, rest: Seq<u8>) -> HddmResult<Option<T>> {
    match decoded {
        Err(e) => Err(e),
        Ok(v) => if rest.len() == 0 {
            Ok(Some(v))
        } else {
            Err(HddmError::FormatError(FormatError::PayloadNotEmpty))
        },
    }
}

/// Completes a record read from a file from what its contents decoded to
/// and the reader over its payload.
pub fn finish_payload<T>(decoded: HddmResult<T>, element: &ElementReader) -> (r: HddmResult<
    Option<T>,
>)
    ensures
        r == payload_outcome(decoded, element@),
{
    let v = decoded?;
    element.ensure_empty()?;
    Ok(Some(v))
}

/// Writes a file in memory: the header text, then the records.
pub struct HddmFileWriter {
    header: Vec<u8>,
    records: HddmRecordWriter,
    header_text: Ghost<Seq<u8>>,
}

impl HddmFileWriter {
    /// The header's bytes.
    pub closed spec fn header_bytes(&self) -> Seq<u8> {
        self.header_text@
    }

    /// The writer of the records that follow the header.
    pub closed spec fn record_writer(&self) -> HddmRecordWriter {
        self.records
    }

    /// Every byte of the file written so far.
    pub open spec fn written(&self) -> Seq<u8> {
        self.header_bytes() + self.record_writer().written()
    }

    /// The bytes that `take_output` has handed out so far.
    pub closed spec fn taken(&self) -> Seq<u8> {
        if self.header@.len() == 0 {
            self.header_text@ + self.records.taken()
        } else {
            self.records.taken()
        }
    }

    /// The record writer is well formed; a header not handed out yet comes
    /// before any record bytes handed out.
    pub closed spec fn wf(&self) -> bool {
        &&& self.records.wf()
        &&& self.header@.len() > 0 ==> self.header@ == self.header_text@
            && self.records.taken().len() == 0
    }

    /// Whether this is a writer just started with header `header`, that
    /// has written no record and goes on in mode `compression`.
    pub open spec fn started(&self, header: Seq<u8>, compression: Compression) -> bool {
        &&& self.wf()
        &&& self.header_bytes() == header
        &&& self.taken().len() == 0
        &&& self.record_writer().records().len() == 0
        &&& self.record_writer().buffered_records().len() == 0
        &&& self.record_writer().mode() == compression
        &&& self.record_writer().segments() == if compression == Compression::Uncompressed {
            Seq::<Segment>::empty()
        } else {
            seq![Segment::Token(compression)]
        }
    }

    /// A writer that starts with the model's text (to create a file) or
    /// with nothing (to continue one), and writes a status token for
    /// `compression` unless it is `Uncompressed`.
    pub fn new(mode: WriteMode, compression: Compression) -> (r: HddmResult<Self>)
        ensures
            r is Ok,
            r matches Ok(w) ==> w.started(
                match mode {
                    WriteMode::Create { model } => encode_utf8(model@),
                    WriteMode::Append => Seq::empty(),
                },
                compression,
            ),
            r matches Ok(w) ==> w.written() == match mode {
                WriteMode::Create { model } => encode_utf8(model@),
                WriteMode::Append => Seq::empty(),
            } + if compression == Compression::Uncompressed {
                Seq::<u8>::empty()
            } else {
                token_bytes(compression)
            },
    {
        let mut header: Vec<u8> = Vec::new();
        match &mode {
            WriteMode::Create { model } => {
                append_bytes(&mut header, model.as_str().as_bytes());
            },
            WriteMode::Append => {},
        }
        let mut records = HddmRecordWriter::new();
        if compression != Compression::Uncompressed {
            let _ = records.switch_compression(compression);
        }
        let w = HddmFileWriter { header, records, header_text: Ghost(header@) };
        proof {
            lemma_written_segments(&w.records);
            if compression != Compression::Uncompressed {
                let one = seq![Segment::Token(compression)];
                assert(one[0] == Segment::Token(compression));
                assert(one.drop_first() =~= Seq::<Segment>::empty());
                assert(stream_bytes(one.drop_first()) =~= Seq::<u8>::empty());
                assert(stream_bytes(one) =~= token_bytes(compression));
            }
            assert(stream_bytes(Seq::<Segment>::empty()) =~= Seq::<u8>::empty());
            assert(w.taken() =~= Seq::<u8>::empty());
        }
        Ok(w)
    }

    /// Writes one record (see `HddmRecordWriter::write_record`).
    pub fn write_record<T: HddmWrite>(&mut self, record: &T) -> (r: HddmResult<()>)
        requires
            old(self).wf(),
        ensures
            final(self).wf(),
            final(self).header_bytes() == old(self).header_bytes(),
            final(self).taken() == old(self).taken(),
            final(self).record_writer().mode() == old(self).record_writer().mode(),
            r is Err ==> *final(self) == *old(self),
            r is Ok ==> exists|payload: Seq<u8>|
                #[trigger] record.writes_as(payload) && record_written(
                    old(self).record_writer(),
                    final(self).record_writer(),
                    payload,
                ),
    {
        self.records.write_record(record)
    }

    /// Goes on in mode `compression` (see
    /// `HddmRecordWriter::switch_compression`).
    pub fn with_compression(self, compression: Compression) -> (r: HddmResult<Self>)
        requires
            self.wf(),
        ensures
            r matches Ok(w) ==> {
                &&& w.wf()
                &&& w.header_bytes() == self.header_bytes()
                &&& w.taken() == self.taken()
                &&& w.record_writer().records() == self.record_writer().records()
                &&& switched(self.record_writer(), w.record_writer(), compression)
            },
            r is Ok,
    {
        let mut w = self;
        w.records.switch_compression(compression)?;
        Ok(w)
    }

    /// Goes on in mode `compression` (see
    /// `HddmRecordWriter::switch_compression`).
    pub fn set_compression(&mut self, compression: Compression) -> (r: HddmResult<()>)
        requires
            old(self).wf(),
        ensures
            final(self).wf(),
            final(self).header_bytes() == old(self).header_bytes(),
            final(self).taken() == old(self).taken(),
            final(self).record_writer().records() == old(self).record_writer().records(),
            switched(old(self).record_writer(), final(self).record_writer(), compression),
            r is Ok,
    {
        self.records.switch_compression(compression)
    }

    /// Stores the buffered records as a block (see
    /// `HddmRecordWriter::flush`).
    pub fn flush(&mut self) -> (r: HddmResult<()>)
        requires
            old(self).wf(),
        ensures
            final(self).wf(),
            final(self).header_bytes() == old(self).header_bytes(),
            final(self).taken() == old(self).taken(),
            final(self).record_writer().records() == old(self).record_writer().records(),
            final(self).record_writer().mode() == old(self).record_writer().mode(),
            r is Ok,
            final(self).record_writer().buffered_records().len() == 0,
            old(self).record_writer().buffered_records().len() == 0 ==> *final(self)
                == *old(self),
            old(self).record_writer().buffered_records().len() > 0 ==> {
                &&& final(self).record_writer().segments() == old(self).record_writer().segments().push(
                    Segment::Block(
                        old(self).record_writer().mode(),
                        old(self).record_writer().buffered_records(),
                    ),
                )
                &&& final(self).record_writer().written() == old(self).record_writer().written()
                    + block_bytes(
                    old(self).record_writer().mode(),
                    old(self).record_writer().buffered_records(),
                )
            },
    {
        self.records.flush()
    }

    /// Stores the buffered records as a block; the same as `flush`.
    pub fn finish(&mut self) -> (r: HddmResult<()>)
        requires
            old(self).wf(),
        ensures
            final(self).wf(),
            final(self).header_bytes() == old(self).header_bytes(),
            final(self).taken() == old(self).taken(),
            final(self).record_writer().records() == old(self).record_writer().records(),
            final(self).record_writer().mode() == old(self).record_writer().mode(),
            r is Ok,
            final(self).record_writer().buffered_records().len() == 0,
            old(self).record_writer().buffered_records().len() == 0 ==> *final(self)
                == *old(self),
            old(self).record_writer().buffered_records().len() > 0 ==> {
                &&& final(self).record_writer().segments() == old(self).record_writer().segments().push(
                    Segment::Block(
                        old(self).record_writer().mode(),
                        old(self).record_writer().buffered_records(),
                    ),
                )
                &&& final(self).record_writer().written() == old(self).record_writer().written()
                    + block_bytes(
                    old(self).record_writer().mode(),
                    old(self).record_writer().buffered_records(),
                )
            },
    {
        self.flush()
    }

    /// Takes the bytes written and not handed out yet.
    pub fn take_output(&mut self) -> (v: Vec<u8>)
        requires
            old(self).wf(),
        ensures
            final(self).wf(),
            final(self).written() == old(self).written(),
            final(self).header_bytes() == old(self).header_bytes(),
            final(self).record_writer().records() == old(self).record_writer().records(),
            final(self).record_writer().segments() == old(self).record_writer().segments(),
            final(self).record_writer().buffered_records() == old(self).record_writer().buffered_records(),
            final(self).record_writer().mode() == old(self).record_writer().mode(),
            final(self).taken() == old(self).taken() + v@,
            final(self).taken() == final(self).written(),
    {
        let mut out: Vec<u8> = Vec::new();
        std::mem::swap(&mut out, &mut self.header);
        let rest = self.records.take_output();
        let ghost head = out@;
        append_bytes(&mut out, rest.as_slice());
        proof {
            if head.len() > 0 {
                assert(old(self).taken() == old(self).records.taken());
                assert(old(self).records.taken() =~= Seq::<u8>::empty());
                assert(final(self).taken() =~= old(self).taken() + out@);
            } else {
                assert(final(self).taken() =~= old(self).taken() + out@);
            }
        }
        out
    }
}

/// Records written to a file writer and flushed are read back, in order, by
/// a file reader opened on the file's bytes, which then reports the end of
/// the stream; provided the header ends (after its first `</HDDM>` and the
/// whitespace after it) where the records begin, no record has the size
/// that marks a status token, and every size fits in 32 bits.
pub proof fn lemma_file_records_read_back(w: &HddmFileWriter, f: &HddmFileReader)
    requires
        w.wf(),
        w.record_writer().buffered_records().len() == 0,
        unambiguous(w.record_writer().segments()),
        header_len(w.written()) == w.header_bytes().len(),
        f.opened_on(w.written()),
    ensures
        reads_all(f.stream(), w.record_writer().records()),
{
    let rw = w.record_writer();
    assert(w.written().skip(header_len(w.written())) =~= rw.written());
    lemma_written_records_read_back(&w.records);
}

} // verus!
