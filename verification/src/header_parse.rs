//! Reading a model from the XML header of a file: tags become elements, and
//! a stack of open elements is closed tag by tag until the root closes.
use vstd::prelude::*;
use vstd::utf8::{decode_utf8, valid_utf8};

use crate::error::{FormatError, HddmError, HddmResult};
use crate::header::{attrs_view, opt_view, string_is, AttributeDef, ElementDef, HddmModel};
use crate::xdr::{string_from_utf8, utf8_error_text, XdrReader};
use crate::xml::{
    xml_buffer_position, xml_event, xml_position, xml_read_event, XmlAttribute, XmlCursor,
    XmlEvent, XmlTag,
};

verus! {

/// The failures of reading a header, up to the text of their messages.
pub enum HeaderFault {
    /// A name, key or value is not UTF-8.
    Utf8,
    /// An attribute did not parse; the parser's message.
    Malformed(Seq<char>),
    /// The input ended before the root element closed.
    Eof,
    /// An empty element stands outside any open element.
    EmptyOutsideRoot,
    /// A closing tag with no open element.
    UnexpectedClose(Seq<char>),
    /// A closing tag that does not name the innermost open element: that
    /// element's name, and the tag's.
    MismatchedClose(Seq<char>, Seq<char>),
}

/// Whether `e` is the error that reports fault `f`.
pub open spec fn is_fault(e: HddmError, f: HeaderFault) -> bool {
    match f {
        HeaderFault::Utf8 => e is Utf8Error,
        HeaderFault::Malformed(m) => e matches HddmError::FormatError(
            FormatError::MalformedAttribute(x),
        ) && x@ == m,
        HeaderFault::Eof => e == HddmError::FormatError(FormatError::HeaderEof),
        HeaderFault::EmptyOutsideRoot => e == HddmError::FormatError(
            FormatError::EmptyElementOutsideRoot,
        ),
        HeaderFault::UnexpectedClose(s) => e matches HddmError::FormatError(
            FormatError::UnexpectedClosingTag(x),
        ) && x@ == s,
        HeaderFault::MismatchedClose(expected, found) => e matches HddmError::FormatError(
            FormatError::MismatchedClosingTag { expected: a, found: b },
        ) && a@ == expected && b@ == found,
    }
}

/// Whether `r` fails with the error of fault `f`.
pub open spec fn fails_with<T>(r: HddmResult<T>, f: HeaderFault) -> bool {
    r matches Err(e) && is_fault(e, f)
}

/// The bytes `HDDM`.
pub open spec fn root_tag_bytes() -> Seq<u8> {
    seq![72u8, 68u8, 68u8, 77u8]
}

/// The bytes `class`.
pub open spec fn class_key_bytes() -> Seq<u8> {
    seq![99u8, 108u8, 97u8, 115u8, 115u8]
}

/// The bytes `version`.
pub open spec fn version_key_bytes() -> Seq<u8> {
    seq![118u8, 101u8, 114u8, 115u8, 105u8, 111u8, 110u8]
}

/// The index of the first of `attrs[0..n]` whose key is `key`, or -1.
pub open spec fn first_key_in(attrs: Seq<XmlAttribute>, key: Seq<u8>, n: int) -> int
    decreases n,
{
    if n <= 0 {
        -1
    } else {
        let k = first_key_in(attrs, key, n - 1);
        if k >= 0 {
            k
        } else if attrs[n - 1].key@ == key {
            n - 1
        } else {
            -1
        }
    }
}

proof fn lemma_first_key_stable(attrs: Seq<XmlAttribute>, key: Seq<u8>, n: int, m: int)
    requires
        0 <= n <= m,
        first_key_in(attrs, key, n) >= 0,
    ensures
        first_key_in(attrs, key, m) == first_key_in(attrs, key, n),
    decreases m - n,
{
    if m > n {
        lemma_first_key_stable(attrs, key, n, m - 1);
    }
}

proof fn lemma_first_key_bounds(attrs: Seq<XmlAttribute>, key: Seq<u8>, n: int)
    requires
        0 <= n,
    ensures
        -1 <= first_key_in(attrs, key, n) < n,
    decreases n,
{
    if n > 0 {
        lemma_first_key_bounds(attrs, key, n - 1);
    }
}

/// Looking `key` up among a tag's attributes: the first attribute with that
/// key gives its value (which must be UTF-8); without one, a malformed
/// attribute fails the lookup; else there is no value.
pub open spec fn attr_lookup(tag: XmlTag, key: Seq<u8>) -> Result<Option<Seq<char>>, HeaderFault> {
    let k = first_key_in(tag.attributes@, key, tag.attributes@.len() as int);
    if k >= 0 {
        let v = tag.attributes@[k].value@;
        if valid_utf8(v) {
            Ok(Some(decode_utf8(v)))
        } else {
            Err(HeaderFault::Utf8)
        }
    } else {
        match tag.malformed {
            Some(m) => Err(HeaderFault::Malformed(m@)),
            None => Ok(None),
        }
    }
}

/// Whether the name of a tag, and the key and value of each attribute that
/// parsed, are UTF-8.
pub open spec fn tag_text_valid(tag: XmlTag) -> bool {
    &&& valid_utf8(tag.name@)
    &&& forall|i: int|
        0 <= i < tag.attributes@.len() ==> valid_utf8((#[trigger] tag.attributes@[i]).key@)
            && valid_utf8(tag.attributes@[i].value@)
}

/// What keeps a tag from becoming an element: text that is not UTF-8 (met
/// first, as the attributes are read in order), else a malformed attribute.
pub open spec fn tag_fault(tag: XmlTag) -> Option<HeaderFault> {
    if !tag_text_valid(tag) {
        Some(HeaderFault::Utf8)
    } else {
        match tag.malformed {
            Some(m) => Some(HeaderFault::Malformed(m@)),
            None => None,
        }
    }
}

/// The value of the last attribute whose key reads `key`.
pub open spec fn last_value(attrs: Seq<XmlAttribute>, key: Seq<char>) -> Option<Seq<char>>
    decreases attrs.len(),
{
    if attrs.len() == 0 {
        None
    } else if decode_utf8(attrs.last().key@) == key {
        Some(decode_utf8(attrs.last().value@))
    } else {
        last_value(attrs.drop_last(), key)
    }
}

/// The keys that bounds and the root's own attributes use, which an
/// element does not declare as attributes.
pub open spec fn reserved_key(k: Seq<char>) -> bool {
    k == "minOccurs"@ || k == "maxOccurs"@ || k == "class"@ || k == "version"@ || k == "xmlns"@
}

/// The attributes that a tag declares, in order: the keys and values of
/// those whose key is not reserved.
pub open spec fn declared_attributes(attrs: Seq<XmlAttribute>) -> Seq<(Seq<char>, Seq<char>)>
    decreases attrs.len(),
{
    if attrs.len() == 0 {
        Seq::empty()
    } else {
        let rest = declared_attributes(attrs.drop_last());
        let k = decode_utf8(attrs.last().key@);
        if reserved_key(k) {
            rest
        } else {
            rest.push((k, decode_utf8(attrs.last().value@)))
        }
    }
}

/// Whether `e` is the element that `tag` describes, with no children yet.
pub open spec fn element_of_tag(tag: XmlTag, e: ElementDef) -> bool {
    &&& e.name@ == decode_utf8(tag.name@)
    &&& opt_view(e.min_occurs) == last_value(tag.attributes@, "minOccurs"@)
    &&& opt_view(e.max_occurs) == last_value(tag.attributes@, "maxOccurs"@)
    &&& attrs_view(e.attributes@) == declared_attributes(tag.attributes@)
    &&& e.children@.len() == 0
}

/// Whether `q` is `p` with `c` added as its last child.
pub open spec fn adds_child(p: ElementDef, c: ElementDef, q: ElementDef) -> bool {
    &&& q.name == p.name
    &&& q.min_occurs == p.min_occurs
    &&& q.max_occurs == p.max_occurs
    &&& q.attributes == p.attributes
    &&& q.children@ == p.children@.push(c)
}

/// The bytes of `v`, copied.
fn copy_bytes(v: &Vec<u8>) -> (r: Vec<u8>)
    ensures
        r@ == v@,
{
    let mut out: Vec<u8> = Vec::new();
    let mut i: usize = 0;
    while i < v.len()
        invariant
            i <= v.len(),
            out@ == v@.take(i as int),
        decreases v.len() - i,
    {
        out.push(v[i]);
        proof {
            assert(out@ =~= v@.take(i + 1));
        }
        i = i + 1;
    }
    proof {
        assert(out@ =~= v@);
    }
    out
}

/// Whether two byte sequences are equal.
fn bytes_equal(a: &Vec<u8>, b: &Vec<u8>) -> (r: bool)
    ensures
        r == (a@ == b@),
{
    if a.len() != b.len() {
        return false;
    }
    let mut i: usize = 0;
    while i < a.len()
        invariant
            a.len() == b.len(),
            i <= a.len(),
            a@.take(i as int) == b@.take(i as int),
        decreases a.len() - i,
    {
        if a[i] != b[i] {
            proof {
                assert(a@[i as int] != b@[i as int]);
            }
            return false;
        }
        proof {
            assert(a@.take(i + 1) =~= a@.take(i as int).push(a@[i as int]));
            assert(b@.take(i + 1) =~= b@.take(i as int).push(b@[i as int]));
        }
        i = i + 1;
    }
    proof {
        assert(a@ =~= a@.take(a@.len() as int));
        assert(b@ =~= b@.take(b@.len() as int));
    }
    true
}

/// The text that `bytes` encode, or `Utf8Error` with the text of the
/// standard library's error.
fn bytes_to_string(bytes: &Vec<u8>) -> (r: HddmResult<String>)
    ensures
        valid_utf8(bytes@) ==> (r matches Ok(s) && s@ == decode_utf8(bytes@)),
        !valid_utf8(bytes@) ==> (r matches Err(HddmError::Utf8Error(m)) && m@ == utf8_error_text(
            bytes@,
        )),
{
    match string_from_utf8(copy_bytes(bytes)) {
        Ok(s) => Ok(s),
        Err(m) => Err(HddmError::Utf8Error(m)),
    }
}

/// The value of the first attribute of `tag` whose key is `key`.
pub fn get_attr(tag: &XmlTag, key: &Vec<u8>) -> (r: HddmResult<Option<String>>)
    ensures
        match attr_lookup(*tag, key@) {
            Ok(Some(v)) => r matches Ok(Some(s)) && s@ == v,
            Ok(None) => r matches Ok(None),
            Err(f) => fails_with(r, f),
        },
{
    let mut i: usize = 0;
    while i < tag.attributes.len()
        invariant
            i <= tag.attributes.len(),
            first_key_in(tag.attributes@, key@, i as int) == -1,
        decreases tag.attributes.len() - i,
    {
        if bytes_equal(&tag.attributes[i].key, key) {
            proof {
                lemma_first_key_stable(
                    tag.attributes@,
                    key@,
                    i + 1,
                    tag.attributes@.len() as int,
                );
            }
            let v = bytes_to_string(&tag.attributes[i].value)?;
            return Ok(Some(v));
        }
        i = i + 1;
    }
    match &tag.malformed {
        Some(m) => Err(HddmError::FormatError(FormatError::MalformedAttribute(m.clone()))),
        None => Ok(None),
    }
}

/// The element that a tag describes: its name, its bounds (the last
/// `minOccurs` and `maxOccurs` attributes), and its other attributes but
/// `class`, `version` and `xmlns`, with no children.
pub fn parse_element(tag: XmlTag) -> (r: HddmResult<ElementDef>)
    ensures
        match tag_fault(tag) {
            Some(f) => fails_with(r, f),
            None => r matches Ok(e) && element_of_tag(tag, e),
        },
{
    let name = bytes_to_string(&tag.name)?;
    let mut min_occurs: Option<String> = None;
    let mut max_occurs: Option<String> = None;
    let mut attributes: Vec<AttributeDef> = Vec::new();
    let mut i: usize = 0;
    while i < tag.attributes.len()
        invariant
            i <= tag.attributes.len(),
            valid_utf8(tag.name@),
            forall|j: int|
                0 <= j < i ==> valid_utf8((#[trigger] tag.attributes@[j]).key@) && valid_utf8(
                    tag.attributes@[j].value@,
                ),
            opt_view(min_occurs) == last_value(tag.attributes@.take(i as int), "minOccurs"@),
            opt_view(max_occurs) == last_value(tag.attributes@.take(i as int), "maxOccurs"@),
            attrs_view(attributes@) == declared_attributes(tag.attributes@.take(i as int)),
        decreases tag.attributes.len() - i,
    {
        let key = bytes_to_string(&tag.attributes[i].key)?;
        let value = bytes_to_string(&tag.attributes[i].value)?;
        proof {
            assert(tag.attributes@.take(i + 1).drop_last() =~= tag.attributes@.take(i as int));
            assert(tag.attributes@.take(i + 1).last() == tag.attributes@[i as int]);
            reveal_strlit("minOccurs");
            reveal_strlit("maxOccurs");
            assert("minOccurs"@[1] != "maxOccurs"@[1]);
        }
        if string_is(&key, "minOccurs") {
            min_occurs = Some(value);
        } else if string_is(&key, "maxOccurs") {
            max_occurs = Some(value);
        } else if string_is(&key, "class") || string_is(&key, "version") || string_is(
            &key,
            "xmlns",
        ) {
        } else {
            let ghost before = attributes@;
            attributes.push(AttributeDef { name: key, ty: value });
            proof {
                assert(attrs_view(attributes@) =~= attrs_view(before).push(
                    (attributes@.last().name@, attributes@.last().ty@),
                ));
            }
        }
        i = i + 1;
    }
    proof {
        assert(tag.attributes@.take(tag.attributes@.len() as int) =~= tag.attributes@);
    }
    match tag.malformed {
        Some(m) => Err(HddmError::FormatError(FormatError::MalformedAttribute(m))),
        None => Ok(
            ElementDef { name, min_occurs, max_occurs, attributes, children: Vec::new() },
        ),
    }
}

/// The state of reading a header: the elements opened and not closed yet,
/// innermost last, and the class and version that the root tag declared.
pub struct HeaderBuilder {
    pub stack: Vec<ElementDef>,
    pub class_name: Option<String>,
    pub version: Option<String>,
}

/// What one event leads to: more events are needed, or the root closed.
pub enum HeaderStep {
    Continue,
    Done(HddmModel),
}

/// What feeding `ev` to builder `old` does: the result, and the builder
/// `new` after it where the result is `Continue`.
pub open spec fn feed_outcome(
    old: HeaderBuilder,
    new: HeaderBuilder,
    ev: XmlEvent,
    r: HddmResult<HeaderStep>,
) -> bool {
    match ev {
        XmlEvent::Other => r matches Ok(HeaderStep::Continue) && new == old,
        XmlEvent::Eof => fails_with(r, HeaderFault::Eof),
        XmlEvent::Start(tag) => {
            let root = tag.name@ == root_tag_bytes();
            let cls = attr_lookup(tag, class_key_bytes());
            let ver = attr_lookup(tag, version_key_bytes());
            if root && cls is Err {
                fails_with(r, cls->Err_0)
            } else if root && ver is Err {
                fails_with(r, ver->Err_0)
            } else {
                match tag_fault(tag) {
                    Some(f) => fails_with(r, f),
                    None => {
                        &&& r matches Ok(HeaderStep::Continue)
                        &&& new.stack@.len() == old.stack@.len() + 1
                        &&& new.stack@.drop_last() == old.stack@
                        &&& element_of_tag(tag, new.stack@.last())
                        &&& root ==> opt_view(new.class_name) == cls->Ok_0 && opt_view(
                            new.version,
                        ) == ver->Ok_0
                        &&& !root ==> new.class_name == old.class_name && new.version
                            == old.version
                    },
                }
            }
        },
        XmlEvent::Empty(tag) => match tag_fault(tag) {
            Some(f) => fails_with(r, f),
            None => if old.stack@.len() == 0 {
                fails_with(r, HeaderFault::EmptyOutsideRoot)
            } else {
                &&& r matches Ok(HeaderStep::Continue)
                &&& new.stack@.len() == old.stack@.len()
                &&& new.stack@.drop_last() == old.stack@.drop_last()
                &&& element_of_tag(tag, new.stack@.last().children@.last())
                &&& adds_child(
                    old.stack@.last(),
                    new.stack@.last().children@.last(),
                    new.stack@.last(),
                )
                &&& new.class_name == old.class_name
                &&& new.version == old.version
            },
        },
        XmlEvent::End(name) => {
            let s = decode_utf8(name@);
            let n = old.stack@.len();
            if !valid_utf8(name@) {
                fails_with(r, HeaderFault::Utf8)
            } else if n == 0 {
                fails_with(r, HeaderFault::UnexpectedClose(s))
            } else if old.stack@.last().name@ != s {
                fails_with(r, HeaderFault::MismatchedClose(old.stack@.last().name@, s))
            } else if n >= 2 {
                &&& r matches Ok(HeaderStep::Continue)
                &&& new.stack@.len() == n - 1
                &&& new.stack@.drop_last() == old.stack@.take(n - 2)
                &&& adds_child(old.stack@[n - 2], old.stack@.last(), new.stack@.last())
                &&& new.class_name == old.class_name
                &&& new.version == old.version
            } else {
                r matches Ok(HeaderStep::Done(m)) && m.root == old.stack@.last() && m.class_name
                    == old.class_name && m.version == old.version
            }
        },
    }
}

impl HeaderBuilder {
    /// A builder with no open element and no class or version.
    pub fn new() -> (b: Self)
        ensures
            b.stack@.len() == 0,
            b.class_name is None,
            b.version is None,
    {
        HeaderBuilder { stack: Vec::new(), class_name: None, version: None }
    }

    /// Adds `child` as the last child of the innermost open element.
    fn add_to_top(&mut self, child: ElementDef)
        requires
            old(self).stack@.len() > 0,
        ensures
            final(self).stack@.len() == old(self).stack@.len(),
            final(self).stack@.drop_last() == old(self).stack@.drop_last(),
            adds_child(old(self).stack@.last(), child, final(self).stack@.last()),
            final(self).class_name == old(self).class_name,
            final(self).version == old(self).version,
    {
        let mut parent = self.stack.pop().unwrap();
        parent.children.push(child);
        self.stack.push(parent);
    }

    /// Takes one event of the header: a start tag opens an element (the
    /// root tag also gives the class and version), an empty tag adds an
    /// element to the innermost open one, an end tag closes the innermost
    /// open element, which joins its parent or, as the root, ends the
    /// header.
    pub fn feed(&mut self, ev: XmlEvent) -> (r: HddmResult<HeaderStep>)
        ensures
            feed_outcome(*old(self), *final(self), ev, r),
    {
        match ev {
            XmlEvent::Start(tag) => {
                let hddm: Vec<u8> = vec![72u8, 68u8, 68u8, 77u8];
                proof {
                    assert(hddm@ =~= root_tag_bytes());
                }
                let root = bytes_equal(&tag.name, &hddm);
                if root {
                    let class_key: Vec<u8> = vec![99u8, 108u8, 97u8, 115u8, 115u8];
                    let version_key: Vec<u8> = vec![118u8, 101u8, 114u8, 115u8, 105u8, 111u8, 110u8];
                    proof {
                        assert(class_key@ =~= class_key_bytes());
                        assert(version_key@ =~= version_key_bytes());
                    }
                    let class_name = get_attr(&tag, &class_key)?;
                    let version = get_attr(&tag, &version_key)?;
                    self.class_name = class_name;
                    self.version = version;
                }
                let elem = parse_element(tag)?;
                self.stack.push(elem);
                proof {
                    assert(self.stack@.drop_last() =~= old(self).stack@);
                }
                Ok(HeaderStep::Continue)
            },
            XmlEvent::Empty(tag) => {
                let elem = parse_element(tag)?;
                if self.stack.len() == 0 {
                    return Err(HddmError::FormatError(FormatError::EmptyElementOutsideRoot));
                }
                self.add_to_top(elem);
                Ok(HeaderStep::Continue)
            },
            XmlEvent::End(name) => {
                let closing = bytes_to_string(&name)?;
                if self.stack.len() == 0 {
                    return Err(HddmError::FormatError(FormatError::UnexpectedClosingTag(closing)));
                }
                let elem = self.stack.pop().unwrap();
                if elem.name != closing {
                    return Err(
                        HddmError::FormatError(
                            FormatError::MismatchedClosingTag { expected: elem.name, found: closing },
                        ),
                    );
                }
                if self.stack.len() > 0 {
                    proof {
                        assert(self.stack@ =~= old(self).stack@.drop_last());
                        assert(self.stack@.drop_last() =~= old(self).stack@.take(
                            old(self).stack@.len() - 2,
                        ));
                    }
                    self.add_to_top(elem);
                    Ok(HeaderStep::Continue)
                } else {
                    let class_name = self.class_name.take();
                    let version = self.version.take();
                    Ok(HeaderStep::Done(HddmModel { class_name, version, root: elem }))
                }
            },
            XmlEvent::Eof => Err(HddmError::FormatError(FormatError::HeaderEof)),
            XmlEvent::Other => Ok(HeaderStep::Continue),
        }
    }
}

/// Whether a builder has no open element and no class or version.
pub open spec fn fresh_builder(b: HeaderBuilder) -> bool {
    &&& b.stack@.len() == 0
    &&& b.class_name is None
    &&& b.version is None
}

/// Whether the builders `states` are those that the first `n` events of
/// `bytes` meet, from the first event on: each of those events is read
/// without an XML error, and the builder goes on at each.
pub open spec fn continues_through(bytes: Seq<u8>, states: Seq<HeaderBuilder>, n: nat) -> bool {
    &&& states.len() == n + 1
    &&& forall|i: int|
        0 <= i < n ==> (#[trigger] xml_event(bytes, i as nat) matches Ok(ev) && feed_outcome(
            states[i],
            states[i + 1],
            ev,
            Ok(HeaderStep::Continue),
        ))
}

/// The message of the failure where the XML reader gives an event for
/// every input byte and more, and the root has still not closed.
pub open spec fn stuck_message() -> Seq<char> {
    "the XML reader gave more events than the header has bytes"@
}

/// What reading a header from `bytes` gives, where the builder made `step`
/// of the event with index `n`: an error as it came; the model once the
/// root closes, with the reader's position after that event; and, where
/// the builder still goes on after an event for every byte and one more,
/// the stuck reader's failure.
pub open spec fn step_result(
    bytes: Seq<u8>,
    n: nat,
    step: HddmResult<HeaderStep>,
    r: HddmResult<(HddmModel, usize)>,
) -> bool {
    match step {
        Err(e) => r == Err::<(HddmModel, usize), HddmError>(e),
        Ok(HeaderStep::Done(m)) => r == Ok::<(HddmModel, usize), HddmError>(
            (m, xml_position(bytes, n + 1) as usize),
        ),
        Ok(HeaderStep::Continue) => n == bytes.len() && (r matches Err(HddmError::XmlError(msg))
            && msg@ == stuck_message()),
    }
}

/// What reading a header from `bytes` gives: a fresh builder is fed the
/// events of a quick-xml reader over `bytes` that trims text, one by one,
/// and goes on through the first `n`; the event with index `n` (at most
/// one per byte) then decides: its XML error, or what the builder makes
/// of it.
pub open spec fn header_parse(bytes: Seq<u8>, r: HddmResult<(HddmModel, usize)>) -> bool {
    exists|states: Seq<HeaderBuilder>, n: nat|
        {
            &&& n <= bytes.len()
            &&& fresh_builder(states[0])
            &&& #[trigger] continues_through(bytes, states, n)
            &&& match xml_event(bytes, n) {
                Err(msg) => r == Err::<(HddmModel, usize), HddmError>(HddmError::XmlError(msg)),
                Ok(ev) => exists|after: HeaderBuilder, step: HddmResult<HeaderStep>|
                    #[trigger] feed_outcome(states[n as int], after, ev, step) && step_result(
                        bytes,
                        n,
                        step,
                        r,
                    ),
            }
        }
}

/// Reads a model from the XML header at the start of `bytes`, event by
/// event, until the root element closes; gives the model and how many bytes
/// the XML reader had consumed then. A reader that gives more events than
/// there are input bytes is taken to be stuck, and fails the read.
pub fn read_hddm_header_from_bytes(bytes: &[u8]) -> (r: HddmResult<(HddmModel, usize)>)
    ensures
        header_parse(bytes@, r),
{
    let mut xml = XmlCursor::new(bytes);
    let mut buf: Vec<u8> = Vec::new();
    let mut builder = HeaderBuilder::new();
    let ghost mut states: Seq<HeaderBuilder> = seq![builder];
    let mut budget: usize = bytes.len();
    loop
        invariant
            xml.input() == bytes@,
            xml.events_read() + budget == bytes@.len(),
            fresh_builder(states[0]),
            states.last() == builder,
            continues_through(bytes@, states, xml.events_read()),
        decreases budget,
    {
        buf.clear();
        let ghost n = xml.events_read();
        let ev = match xml_read_event(&mut xml, &mut buf) {
            Ok(ev) => ev,
            Err(msg) => {
                proof {
                    assert(states[n as int] == builder);
                }
                return Err(HddmError::XmlError(msg));
            },
        };
        let ghost before = builder;
        let ghost event = ev;
        let step = builder.feed(ev);
        proof {
            assert(states[n as int] == before);
            assert(feed_outcome(states[n as int], builder, event, step));
        }
        match step {
            Err(e) => {
                return Err(e);
            },
            Ok(HeaderStep::Done(model)) => {
                let offset = xml_buffer_position(&xml) as usize;
                return Ok((model, offset));
            },
            Ok(HeaderStep::Continue) => {
                if budget == 0 {
                    let msg = "the XML reader gave more events than the header has bytes".to_owned();
                    proof {
                        assert(step_result(bytes@, n, step, Err(HddmError::XmlError(msg))));
                        assert(continues_through(bytes@, states, n));
                    }
                    return Err(HddmError::XmlError(msg));
                }
                proof {
                    let old_states = states;
                    states = states.push(builder);
                    assert forall|i: int| 0 <= i < n + 1 implies (#[trigger] xml_event(
                        bytes@,
                        i as nat,
                    ) matches Ok(e) && feed_outcome(
                        states[i],
                        states[i + 1],
                        e,
                        Ok(HeaderStep::Continue),
                    )) by {
                        if i < n {
                            assert(states[i] == old_states[i]);
                            assert(states[i + 1] == old_states[i + 1]);
                        } else {
                            assert(states[i] == before);
                        }
                    }
                }
            },
        }
        budget = budget - 1;
    }
}

/// The bytes `</HDDM>`, which close a header.
pub open spec fn header_end_tag() -> Seq<u8> {
    seq![60u8, 47u8, 72u8, 68u8, 68u8, 77u8, 62u8]
}

/// Whether the closing root tag starts at index `i` of `s`.
pub open spec fn end_tag_at(s: Seq<u8>, i: int) -> bool {
    0 <= i && i + 7 <= s.len() && s.subrange(i, i + 7) == header_end_tag()
}

/// The first index below `n` at which the closing root tag starts, or -1.
pub open spec fn first_end_tag_in(s: Seq<u8>, n: int) -> int
    decreases n,
{
    if n <= 0 {
        -1
    } else {
        let k = first_end_tag_in(s, n - 1);
        if k >= 0 {
            k
        } else if end_tag_at(s, n - 1) {
            n - 1
        } else {
            -1
        }
    }
}

/// The first index of `s` at which the closing root tag starts, or -1.
pub open spec fn first_end_tag(s: Seq<u8>) -> int {
    first_end_tag_in(s, s.len() as int)
}

proof fn lemma_first_end_tag_stable(s: Seq<u8>, n: int, m: int)
    requires
        0 <= n <= m,
        first_end_tag_in(s, n) >= 0,
    ensures
        first_end_tag_in(s, m) == first_end_tag_in(s, n),
    decreases m - n,
{
    if m > n {
        lemma_first_end_tag_stable(s, n, m - 1);
    }
}

proof fn lemma_no_end_tag_past(s: Seq<u8>, n: int, m: int)
    requires
        0 <= n <= m,
        first_end_tag_in(s, n) == -1,
        forall|i: int| n <= i < m ==> !end_tag_at(s, i),
    ensures
        first_end_tag_in(s, m) == -1,
    decreases m - n,
{
    if m > n {
        lemma_no_end_tag_past(s, n, m - 1);
    }
}

proof fn lemma_first_end_tag_bounds(s: Seq<u8>, n: int)
    requires
        0 <= n,
    ensures
        -1 <= first_end_tag_in(s, n) < n,
        first_end_tag_in(s, n) >= 0 ==> end_tag_at(s, first_end_tag_in(s, n)),
    decreases n,
{
    if n > 0 {
        lemma_first_end_tag_bounds(s, n - 1);
    }
}

/// XML whitespace, as `u8::is_ascii_whitespace` has it: space, tab, line
/// feed, form feed, carriage return.
pub open spec fn xml_space(b: u8) -> bool {
    b == 32 || b == 9 || b == 10 || b == 12 || b == 13
}

/// The length of the run of whitespace in `s` from index `from`.
pub open spec fn space_run(s: Seq<u8>, from: int) -> int
    decreases s.len() - from,
{
    if 0 <= from < s.len() && xml_space(s[from]) {
        1 + space_run(s, from + 1)
    } else {
        0
    }
}

proof fn lemma_space_run(s: Seq<u8>, from: int, to: int)
    requires
        0 <= from <= to <= s.len(),
        forall|i: int| from <= i < to ==> xml_space(#[trigger] s[i]),
        to == s.len() || !xml_space(s[to]),
    ensures
        space_run(s, from) == to - from,
    decreases to - from,
{
    if from < to {
        lemma_space_run(s, from + 1, to);
    }
}

/// Where the header of `s` ends: after its first closing root tag and the
/// whitespace that follows it.
pub open spec fn header_len(s: Seq<u8>) -> int {
    first_end_tag(s) + 7 + space_run(s, first_end_tag(s) + 7)
}

/// Whether the closing root tag starts at `data[at]`.
fn end_tag_starts(data: &Vec<u8>, at: usize) -> (b: bool)
    requires
        at + 7 <= data.len(),
    ensures
        b == (data@.subrange(at as int, at + 7) == header_end_tag()),
{
    let b = data[at] == 60u8 && data[at + 1] == 47u8 && data[at + 2] == 72u8 && data[at + 3]
        == 68u8 && data[at + 4] == 68u8 && data[at + 5] == 77u8 && data[at + 6] == 62u8;
    proof {
        if b {
            assert(data@.subrange(at as int, at + 7) =~= header_end_tag());
        } else {
            if data@.subrange(at as int, at + 7) == header_end_tag() {
                assert(data@.subrange(at as int, at + 7)[0] == data@[at as int]);
                assert(data@.subrange(at as int, at + 7)[1] == data@[at + 1]);
                assert(data@.subrange(at as int, at + 7)[2] == data@[at + 2]);
                assert(data@.subrange(at as int, at + 7)[3] == data@[at + 3]);
                assert(data@.subrange(at as int, at + 7)[4] == data@[at + 4]);
                assert(data@.subrange(at as int, at + 7)[5] == data@[at + 5]);
                assert(data@.subrange(at as int, at + 7)[6] == data@[at + 6]);
            }
        }
    }
    b
}

/// The index, counted from `start`, of the first closing root tag in
/// `data[start..]`.
fn find_end_tag(data: &Vec<u8>, start: usize) -> (r: Option<usize>)
    requires
        start <= data@.len(),
    ensures
        match r {
            Some(k) => k == first_end_tag(data@.skip(start as int)),
            None => first_end_tag(data@.skip(start as int)) == -1,
        },
{
    let ghost rem = data@.skip(start as int);
    let n = data.len() - start;
    let mut i: usize = 0;
    while n >= 7 && i <= n - 7
        invariant
            i <= n,
            n == rem.len(),
            rem == data@.skip(start as int),
            start + n == data.len(),
            first_end_tag_in(rem, i as int) == -1,
        decreases n - i,
    {
        proof {
            assert(data@.subrange(start + i, start + i + 7) =~= rem.subrange(i as int, i + 7));
        }
        if end_tag_starts(data, start + i) {
            proof {
                lemma_first_end_tag_stable(rem, i + 1, n as int);
            }
            return Some(i);
        }
        i = i + 1;
    }
    proof {
        lemma_no_end_tag_past(rem, i as int, n as int);
    }
    None
}

/// The header at the start of `s`: the bytes up to its first `</HDDM>`
/// and the whitespace after it.
pub open spec fn header_bytes(s: Seq<u8>) -> Seq<u8> {
    s.take(header_len(s))
}

/// What reading a header as text gives, where parsing its bytes `h` gave
/// `parsed`: the parse error as it came, else the model and the text, which
/// must be UTF-8.
pub open spec fn streamed(
    h: Seq<u8>,
    parsed: HddmResult<(HddmModel, usize)>,
    r: HddmResult<(HddmModel, String)>,
) -> bool {
    match parsed {
        Err(e) => r == Err::<(HddmModel, String), HddmError>(e),
        Ok((m, _)) => if valid_utf8(h) {
            r matches Ok((m2, text)) && m2 == m && text@ == decode_utf8(h)
        } else {
            r matches Err(HddmError::FormatError(FormatError::HeaderNotUtf8(msg))) && msg@
                == utf8_error_text(h)
        },
    }
}

/// Reads the XML header at the reader's position: the bytes up to the first
/// `</HDDM>` and the whitespace after it, which are consumed, parsed into
/// a model and given back as text as well. Without a closing root tag the
/// read fails and consumes everything.
pub fn read_header_streaming(reader: &mut XdrReader) -> (r: HddmResult<(HddmModel, String)>)
    ensures
        final(reader).data@ == old(reader).data@,
        ({
            let rem = old(reader).remaining();
            if first_end_tag(rem) == -1 {
                &&& r == Err::<(HddmModel, String), HddmError>(
                    HddmError::FormatError(FormatError::HeaderEof),
                )
                &&& final(reader).remaining().len() == 0
            } else {
                &&& 0 <= header_len(rem) <= rem.len()
                &&& final(reader).remaining() == rem.skip(header_len(rem))
                &&& r matches Ok((_, text)) ==> valid_utf8(rem.take(header_len(rem)))
                    && text@ == decode_utf8(rem.take(header_len(rem)))
            }
        }),
        first_end_tag(old(reader).remaining()) != -1 ==> exists|
            parsed: HddmResult<(HddmModel, usize)>,
        |
            #![trigger header_parse(header_bytes(old(reader).remaining()), parsed)]
            header_parse(header_bytes(old(reader).remaining()), parsed) && streamed(
                header_bytes(old(reader).remaining()),
                parsed,
                r,
            ),
{
    let ghost rem = reader.remaining();
    let n = reader.remaining_len();
    if n == 0 {
        proof {
            assert(first_end_tag(rem) == -1);
        }
        return Err(HddmError::FormatError(FormatError::HeaderEof));
    }
    let start = reader.pos;
    proof {
        assert(rem == reader.data@.skip(start as int));
    }
    let found = find_end_tag(&reader.data, start);
    let k = match found {
        Some(k) => k,
        None => {
            let _ = reader.read_n(n);
            return Err(HddmError::FormatError(FormatError::HeaderEof));
        },
    };
    proof {
        lemma_first_end_tag_bounds(rem, n as int);
    }
    let mut j: usize = k + 7;
    while j < n && (reader.data[start + j] == 32u8 || reader.data[start + j] == 9u8
        || reader.data[start + j] == 10u8 || reader.data[start + j] == 12u8
        || reader.data[start + j] == 13u8)
        invariant
            k + 7 <= j <= n,
            n == rem.len(),
            start + n == reader.data.len(),
            rem == reader.data@.skip(start as int),
            forall|t: int| k + 7 <= t < j ==> xml_space(#[trigger] rem[t]),
        decreases n - j,
    {
        proof {
            assert(rem[j as int] == reader.data@[start + j]);
        }
        j = j + 1;
    }
    proof {
        if j < n {
            assert(rem[j as int] == reader.data@[start + j]);
        }
        lemma_space_run(rem, k + 7, j as int);
    }
    let header = reader.read_n(j)?;
    proof {
        assert(header@ =~= header_bytes(rem));
    }
    let parsed = read_hddm_header_from_bytes(header.as_slice());
    let ghost outcome = parsed;
    let model = match parsed {
        Ok((m, _)) => m,
        Err(e) => {
            return Err(e);
        },
    };
    let r = match string_from_utf8(header) {
        Ok(text) => Ok((model, text)),
        Err(msg) => Err(HddmError::FormatError(FormatError::HeaderNotUtf8(msg))),
    };
    proof {
        assert(streamed(header_bytes(rem), outcome, r));
    }
    r
}

} // verus!
