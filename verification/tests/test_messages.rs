use hddm::header::{read_header_streaming, AttributeDef};
use hddm::read::read_next_bzip2_block_with_size;
use hddm::xdr::XdrReader;
use hddm::{FormatError, HddmError, IoFailure};

fn format(f: FormatError) -> String {
    HddmError::FormatError(f).message()
}

#[test]
fn io_and_utf8_messages() {
    assert_eq!(HddmError::IoError(IoFailure::UnexpectedEof).message(), "failed to fill whole buffer");
    assert_eq!(
        HddmError::IoError(IoFailure::InvalidData).message(),
        "stream did not contain valid UTF-8"
    );
    assert_eq!(HddmError::IoError(IoFailure::CompressionFailed).message(), "compression failed");
    assert_eq!(HddmError::IoError(IoFailure::DecompressionFailed).message(), "corrupt compressed block");
    assert_eq!(HddmError::Utf8Error("invalid utf-8 sequence".to_string()).message(), "invalid utf-8 sequence");
    assert_eq!(HddmError::XmlError("bad".into()).message(), "bad");
}

#[test]
fn numbers_are_written_in_decimal_or_hex() {
    assert_eq!(format(FormatError::NegativeElementSize(-2147483648)), "invalid HDDM format: negative HDDM element size: -2147483648");
    assert_eq!(format(FormatError::NegativeListCount(-10)), "invalid HDDM format: negative HDDM list count: -10");
    assert_eq!(format(FormatError::InvalidStatusTokenSize(0)), "invalid HDDM format: invalid HDDM status token size: 0");
    assert_eq!(format(FormatError::UnsupportedStatusTokenFormat(1234)), "invalid HDDM format: unsupported HDDM status token format: 1234");
    assert_eq!(format(FormatError::UnsupportedCompressionBits(-1)), "invalid HDDM format: unsupported HDDM compression bits: 0xffffffff");
    assert_eq!(format(FormatError::NegativeZlibBlockSize(-7)), "invalid HDDM format: negative zlib block size: -7");
    assert_eq!(format(FormatError::NegativeBzip2BlockSize(-8)), "invalid HDDM format: negative bzip2 block size: -8");
    assert_eq!(format(FormatError::UnexpectedChildIndex(17)), "invalid HDDM format: unexpected HDDM child index 17");
}

#[test]
fn fixed_messages() {
    assert_eq!(format(FormatError::ElementSizeMismatch), "invalid HDDM format: HDDM element size mismatch: unread bytes remain");
    assert_eq!(format(FormatError::PayloadNotEmpty), "invalid HDDM format: HDDM payload has unread bytes");
    assert_eq!(format(FormatError::Bzip2NotImplemented), "invalid HDDM format: bzip2 HDDM compression is not implemented");
    assert_eq!(format(FormatError::EmptyElementOutsideRoot), "invalid HDDM format: unexpected empty element outside root");
    assert_eq!(format(FormatError::UnexpectedClosingTag("x".into())), "invalid HDDM format: unexpected closing tag </x>");
    assert_eq!(format(FormatError::MalformedAttribute("oops".into())), "invalid HDDM format: oops");
    assert_eq!(format(FormatError::MissingRequiredLink("beam".into())), "invalid HDDM format: missing required HDDM child `beam`");
    assert_eq!(
        format(FormatError::ClassMismatch { file_class: None, expected_class: Some("s".into()) }),
        "invalid HDDM format: HDDM class mismatch: file has None, generated expects Some(\"s\")"
    );
    assert_eq!(
        format(FormatError::AttributeListMismatch {
            element: "e".into(),
            file_attributes: vec![],
            expected_attributes: vec![
                AttributeDef { name: "a".into(), ty: "int".into() },
                AttributeDef { name: "b".into(), ty: "string".into() }
            ],
        }),
        "invalid HDDM format: HDDM attribute mismatch in element `e`: file has [], generated code expects [AttributeDef { name: \"a\", ty: \"int\" }, AttributeDef { name: \"b\", ty: \"string\" }]"
    );
}

#[test]
fn negative_bzip2_block_size_is_reported() {
    let mut r = XdrReader::new(vec![0; 8]);
    assert_eq!(
        read_next_bzip2_block_with_size(&mut r, -3).err(),
        Some(HddmError::FormatError(FormatError::NegativeBzip2BlockSize(-3)))
    );
}

#[test]
fn header_that_is_not_utf8_text_is_reported() {
    let mut data = b"<HDDM class=\"x\"><!-- ".to_vec();
    data.push(0xff);
    data.extend_from_slice(b" --></HDDM>");
    let mut r = XdrReader::new(data);
    let err = read_header_streaming(&mut r).unwrap_err();
    assert_eq!(
        err,
        HddmError::FormatError(FormatError::HeaderNotUtf8(
            "invalid utf-8 sequence of 1 bytes from index 21".to_string()
        ))
    );
    assert_eq!(err.message(), "invalid HDDM format: invalid utf-8 sequence of 1 bytes from index 21");
}
