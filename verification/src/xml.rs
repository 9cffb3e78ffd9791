//! The XML events of a header, read with quick-xml and handed on as plain
//! values.
use vstd::prelude::*;

use quick_xml::events::{BytesStart, Event};
use quick_xml::Reader;

verus! {

#[verifier::external_type_specification]
#[verifier::external_body]
#[verifier::reject_recursive_types(R)]
pub struct ExXmlReader<R>(Reader<R>);

#[verifier::external_type_specification]
#[verifier::external_body]
pub struct ExBytesStart<'a>(BytesStart<'a>);

/// One attribute of a tag: its raw key and value bytes.
pub struct XmlAttribute {
    pub key: Vec<u8>,
    pub value: Vec<u8>,
}

/// A start or empty tag: its raw name, the attributes that parsed, in
/// order, and the message of the first attribute that did not parse, if
/// any (the attributes after that one are not read).
pub struct XmlTag {
    pub name: Vec<u8>,
    pub attributes: Vec<XmlAttribute>,
    pub malformed: Option<String>,
}

/// The events that a header's reading tells apart; every other kind of
/// event (declarations, text, comments, ...) is `Other`.
pub enum XmlEvent {
    Start(XmlTag),
    Empty(XmlTag),
    End(Vec<u8>),
    Eof,
    Other,
}

/// The event with index `k` (from 0) that quick-xml's `Reader::read_event_into`
/// gives on a reader over `bytes` that trims text, as plain values, or the
/// message of its parse error.
pub uninterp spec fn xml_event(bytes: Seq<u8>, k: nat) -> Result<XmlEvent, String>;

/// What quick-xml's `Reader::buffer_position` gives on a reader over
/// `bytes` that trims text, after `k` events were read.
pub uninterp spec fn xml_position(bytes: Seq<u8>, k: nat) -> u64;

/// A quick-xml reader over a byte slice that trims text, with the bytes it
/// reads and the number of events read so far. Only `XmlCursor::new`
/// makes one, and only `xml_read_event` reads from it.
pub struct XmlCursor<'a> {
    reader: Reader<&'a [u8]>,
    input: Ghost<Seq<u8>>,
    count: Ghost<nat>,
}

impl<'a> XmlCursor<'a> {
    /// The bytes that the cursor reads.
    pub closed spec fn input(&self) -> Seq<u8> {
        self.input@
    }

    /// How many events have been read.
    pub closed spec fn events_read(&self) -> nat {
        self.count@
    }

    /// A cursor at the start of `bytes`, trimming text.
    pub fn new(bytes: &'a [u8]) -> (c: Self)
        ensures
            c.input() == bytes@,
            c.events_read() == 0,
    {
        let mut reader = xml_reader(bytes);
        xml_trim_text(&mut reader, true);
        XmlCursor { reader, input: Ghost(bytes@), count: Ghost(0) }
    }
}

/// `Reader::from_reader`: a reader at the start of `bytes`.
#[verifier::external_body]
fn xml_reader<'a>(bytes: &'a [u8]) -> Reader<&'a [u8]> {
    Reader::from_reader(bytes)
}

/// `Config::trim_text` on the reader's configuration: whether whitespace
/// around text is dropped (and whitespace-only text skipped).
#[verifier::external_body]
fn xml_trim_text<'a>(r: &mut Reader<&'a [u8]>, trim: bool) {
    r.config_mut().trim_text(trim);
}

/// `Reader::read_event_into`: the next event as plain values, or the
/// message of the parse error. What it gives is named by the bytes and the
/// number of events read before (`buf` is scratch space, into which events
/// are read after what it holds); one more event has been read.
#[verifier::external_body]
pub(crate) fn xml_read_event<'a>(c: &mut XmlCursor<'a>, buf: &mut Vec<u8>) -> (r: Result<XmlEvent, String>)
    ensures
        r == xml_event(old(c).input(), old(c).events_read()),
        final(c).input() == old(c).input(),
        final(c).events_read() == old(c).events_read() + 1,
{
    match c.reader.read_event_into(buf) {
        Ok(Event::Start(t)) => Ok(XmlEvent::Start(xml_tag(&t))),
        Ok(Event::Empty(t)) => Ok(XmlEvent::Empty(xml_tag(&t))),
        Ok(Event::End(t)) => Ok(XmlEvent::End(t.name().as_ref().to_vec())),
        Ok(Event::Eof) => Ok(XmlEvent::Eof),
        Ok(_) => Ok(XmlEvent::Other),
        Err(err) => Err(err.to_string()),
    }
}

/// `BytesStart::name` and `BytesStart::attributes`: a tag as plain values,
/// its attributes taken in order up to the first that does not parse.
#[verifier::external_body]
fn xml_tag<'a>(t: &BytesStart<'a>) -> XmlTag {
    let mut attributes = Vec::new();
    for a in t.attributes() {
        match a {
            Ok(a) => attributes.push(XmlAttribute { key: a.key.as_ref().to_vec(), value: a.value.to_vec() }),
            Err(err) => {
                return XmlTag { name: t.name().as_ref().to_vec(), attributes, malformed: Some(err.to_string()) };
            },
        }
    }
    XmlTag { name: t.name().as_ref().to_vec(), attributes, malformed: None }
}

/// `Reader::buffer_position`: how many input bytes the reader has
/// consumed, named by the bytes and the number of events read.
#[verifier::external_body]
pub(crate) fn xml_buffer_position<'a>(c: &XmlCursor<'a>) -> (p: u64)
    ensures
        p == xml_position(c.input(), c.events_read()),
{
    c.reader.buffer_position()
}

} // verus!
