use hddm::header::{read_hddm_header_from_bytes, read_header_streaming, ElementDef, HddmModel};
use hddm::header_parse::{get_attr, parse_element, HeaderBuilder, HeaderStep};
use hddm::xdr::XdrReader;
use hddm::xml::{XmlAttribute, XmlEvent, XmlTag};
use hddm::{FormatError, HddmError};

const MODEL: &str = r#"<?xml version="1.0" encoding="UTF-8"?>
<HDDM class="x" version="1.0" xmlns="http://www.gluex.org/hddm">
  <student minOccurs="0" name="string">
    <enrolled maxOccurs="unbounded" semester="int" year="int">
      <course credits="int" maxOccurs="unbounded" title="string">
        <result Pass="boolean" grade="string" />
      </course>
    </enrolled>
  </student>
</HDDM>
"#;

#[test]
fn parses_header() {
    let (model, offset) = read_hddm_header_from_bytes(MODEL.as_bytes()).unwrap();

    assert_eq!(offset + 1, MODEL.len());
    assert_eq!(model.class_name.as_deref(), Some("x"));
    assert_eq!(model.version.as_deref(), Some("1.0"));
    assert_eq!(model.root.name, "HDDM");
    assert_eq!(model.root.children.len(), 1);

    let student = &model.root.children[0];
    assert_eq!(student.name, "student");
    assert_eq!(student.min_occurs.as_deref(), Some("0"));
    assert_eq!(student.attributes[0].name, "name");
    assert_eq!(student.attributes[0].ty, "string");

    let enrolled = &student.children[0];
    assert_eq!(enrolled.name, "enrolled");
    assert_eq!(enrolled.max_occurs.as_deref(), Some("unbounded"));
}

#[test]
fn returns_offset_before_binary_payload() {
    let mut bytes = MODEL.as_bytes().to_vec();
    bytes.extend_from_slice(&[0x00, 0x00, 0x00, 0x04]);

    let (_model, offset) = read_hddm_header_from_bytes(&bytes).unwrap();

    assert_eq!(&bytes[offset + 1..], &[0x00, 0x00, 0x00, 0x04]);
}

#[test]
fn root_attributes_are_not_declared() {
    let (model, _) = read_hddm_header_from_bytes(MODEL.as_bytes()).unwrap();
    assert!(model.root.attributes.is_empty());
    let result = &model.root.children[0].children[0].children[0].children[0];
    assert_eq!(result.name, "result");
    assert_eq!(result.attributes.len(), 2);
    assert_eq!(result.attributes[0].name, "Pass");
    assert_eq!(result.attributes[0].ty, "boolean");
    assert!(result.children.is_empty());
}

#[test]
fn mismatched_closing_tag_is_an_xml_error() {
    let err = read_hddm_header_from_bytes(b"<HDDM><a></b></HDDM>").unwrap_err();
    assert_eq!(
        err,
        HddmError::XmlError("ill-formed document: expected `</a>`, but `</b>` was found".to_string())
    );
    assert_eq!(err.message(), "ill-formed document: expected `</a>`, but `</b>` was found");
}

#[test]
fn builder_reports_mismatched_closing_tag() {
    let mut b = HeaderBuilder::new();
    assert!(b.feed(XmlEvent::Start(tag("a", &[], None))).is_ok());
    let err = b.feed(XmlEvent::End(b"b".to_vec())).err().unwrap();
    assert_eq!(
        err,
        HddmError::FormatError(FormatError::MismatchedClosingTag {
            expected: "a".to_string(),
            found: "b".to_string()
        })
    );
    assert_eq!(err.message(), "invalid HDDM format: mismatched closing tag: expected </a>, got </b>");
}

#[test]
fn unterminated_header_is_header_eof() {
    let err = read_hddm_header_from_bytes(b"<HDDM><a/>").unwrap_err();
    assert_eq!(err, HddmError::FormatError(FormatError::HeaderEof));
}

#[test]
fn empty_element_outside_root_is_reported() {
    let err = read_hddm_header_from_bytes(b"<a/>").unwrap_err();
    assert_eq!(err, HddmError::FormatError(FormatError::EmptyElementOutsideRoot));
}

fn tag(name: &str, attrs: &[(&str, &str)], malformed: Option<&str>) -> XmlTag {
    XmlTag {
        name: name.as_bytes().to_vec(),
        attributes: attrs
            .iter()
            .map(|(k, v)| XmlAttribute { key: k.as_bytes().to_vec(), value: v.as_bytes().to_vec() })
            .collect(),
        malformed: malformed.map(|m| m.to_string()),
    }
}

#[test]
fn parse_element_takes_bounds_and_attributes() {
    let e = parse_element(tag(
        "course",
        &[("credits", "int"), ("minOccurs", "1"), ("maxOccurs", "unbounded"), ("minOccurs", "0"), ("xmlns", "u")],
        None,
    ))
    .unwrap();
    assert_eq!(e.name, "course");
    assert_eq!(e.min_occurs.as_deref(), Some("0"));
    assert_eq!(e.max_occurs.as_deref(), Some("unbounded"));
    assert_eq!(e.attributes.len(), 1);
    assert_eq!(e.attributes[0].name, "credits");
    assert!(e.children.is_empty());
}

#[test]
fn parse_element_reports_bad_text_before_malformed_attribute() {
    let mut t = tag("a", &[("k", "v")], Some("broken"));
    t.attributes[0].value = vec![0xff];
    assert_eq!(
        parse_element(t).unwrap_err(),
        HddmError::Utf8Error("invalid utf-8 sequence of 1 bytes from index 0".to_string())
    );
    let t = tag("a", &[("k", "v")], Some("broken"));
    assert_eq!(
        parse_element(t).unwrap_err(),
        HddmError::FormatError(FormatError::MalformedAttribute("broken".to_string()))
    );
}

#[test]
fn get_attr_finds_first_match_before_malformed() {
    let t = tag("HDDM", &[("class", "x"), ("class", "y")], Some("broken"));
    assert_eq!(get_attr(&t, &b"class".to_vec()).unwrap(), Some("x".to_string()));
    assert_eq!(
        get_attr(&t, &b"version".to_vec()).unwrap_err(),
        HddmError::FormatError(FormatError::MalformedAttribute("broken".to_string()))
    );
    let t = tag("HDDM", &[], None);
    assert_eq!(get_attr(&t, &b"class".to_vec()).unwrap(), None);
}

#[test]
fn builder_closes_elements_into_a_model() {
    let mut b = HeaderBuilder::new();
    assert!(matches!(b.feed(XmlEvent::Other), Ok(HeaderStep::Continue)));
    assert!(matches!(
        b.feed(XmlEvent::Start(tag("HDDM", &[("class", "c"), ("version", "2")], None))),
        Ok(HeaderStep::Continue)
    ));
    assert!(matches!(b.feed(XmlEvent::Start(tag("a", &[("n", "int")], None))), Ok(HeaderStep::Continue)));
    assert!(matches!(b.feed(XmlEvent::Empty(tag("b", &[], None))), Ok(HeaderStep::Continue)));
    assert!(matches!(b.feed(XmlEvent::End(b"a".to_vec())), Ok(HeaderStep::Continue)));
    let model: HddmModel = match b.feed(XmlEvent::End(b"HDDM".to_vec())) {
        Ok(HeaderStep::Done(m)) => m,
        _ => panic!("the root should close"),
    };
    assert_eq!(model.class_name.as_deref(), Some("c"));
    assert_eq!(model.version.as_deref(), Some("2"));
    let a: &ElementDef = &model.root.children[0];
    assert_eq!(a.name, "a");
    assert_eq!(a.children[0].name, "b");
}

#[test]
fn builder_rejects_stray_closing_tags_and_eof() {
    let mut b = HeaderBuilder::new();
    assert_eq!(
        b.feed(XmlEvent::End(b"x".to_vec())).err(),
        Some(HddmError::FormatError(FormatError::UnexpectedClosingTag("x".to_string())))
    );
    let mut b = HeaderBuilder::new();
    assert_eq!(b.feed(XmlEvent::Eof).err(), Some(HddmError::FormatError(FormatError::HeaderEof)));
    let mut b = HeaderBuilder::new();
    assert_eq!(
        b.feed(XmlEvent::End(vec![0xff])).err(),
        Some(HddmError::Utf8Error("invalid utf-8 sequence of 1 bytes from index 0".to_string()))
    );
}

#[test]
fn streaming_header_consumes_trailing_whitespace() {
    let mut data = MODEL.as_bytes().to_vec();
    data.extend_from_slice(b" \t\r\n");
    data.extend_from_slice(&[0, 0, 0, 4, 1, 2, 3, 4]);
    let mut r = XdrReader::new(data);
    let (model, text) = read_header_streaming(&mut r).unwrap();
    assert_eq!(model.class_name.as_deref(), Some("x"));
    assert_eq!(text, format!("{MODEL} \t\r\n"));
    assert_eq!(r.read_n(r.remaining_len()).unwrap(), vec![0, 0, 0, 4, 1, 2, 3, 4]);
}

#[test]
fn streaming_header_without_end_tag_consumes_all() {
    let mut r = XdrReader::new(b"<HDDM class=\"x\">".to_vec());
    assert_eq!(read_header_streaming(&mut r).unwrap_err(), HddmError::FormatError(FormatError::HeaderEof));
    assert!(r.is_empty());
}
