use hddm::xdr::{XdrReader, XdrWriter};
use hddm::{HddmError, IoFailure};

#[test]
fn test_xdr_write_string() -> Result<(), HddmError> {
    let cases = [
        ("", vec![0x00, 0x00, 0x00, 0x00]),
        ("a", vec![0x00, 0x00, 0x00, 0x01, b'a', 0x00, 0x00, 0x00]),
        ("ab", vec![0x00, 0x00, 0x00, 0x02, b'a', b'b', 0x00, 0x00]),
        ("abc", vec![0x00, 0x00, 0x00, 0x03, b'a', b'b', b'c', 0x00]),
        ("abcd", vec![0x00, 0x00, 0x00, 0x04, b'a', b'b', b'c', b'd']),
        (
            "abcde",
            vec![
                0x00, 0x00, 0x00, 0x05, b'a', b'b', b'c', b'd', b'e', 0x00, 0x00, 0x00,
            ],
        ),
    ];
    for (string, expected) in cases {
        let mut writer = XdrWriter::new(Vec::new());
        writer.write_string(string)?;
        let buf = writer.into_inner();
        assert_eq!(buf, expected);
    }
    Ok(())
}

#[test]
fn test_xdr_read_string() -> Result<(), HddmError> {
    let cases = [
        ("", vec![0x00, 0x00, 0x00, 0x00]),
        ("a", vec![0x00, 0x00, 0x00, 0x01, b'a', 0x00, 0x00, 0x00]),
        ("ab", vec![0x00, 0x00, 0x00, 0x02, b'a', b'b', 0x00, 0x00]),
        ("abc", vec![0x00, 0x00, 0x00, 0x03, b'a', b'b', b'c', 0x00]),
        ("abcd", vec![0x00, 0x00, 0x00, 0x04, b'a', b'b', b'c', b'd']),
        (
            "abcde",
            vec![
                0x00, 0x00, 0x00, 0x05, b'a', b'b', b'c', b'd', b'e', 0x00, 0x00, 0x00,
            ],
        ),
    ];
    for (expected, data) in cases {
        let mut reader = XdrReader::new(data.to_vec());
        let string = reader.read_string()?;
        assert_eq!(string, expected);
    }
    Ok(())
}

#[test]
fn xdr_integers_are_big_endian() {
    let mut w = XdrWriter::new(Vec::new());
    w.write_u32(0x0102_0304).unwrap();
    w.write_i32(-2).unwrap();
    w.write_u64(0x0102_0304_0506_0708).unwrap();
    w.write_i64(-1).unwrap();
    w.write_bool(true).unwrap();
    w.write_bool(false).unwrap();
    let bytes = w.into_inner();
    assert_eq!(
        bytes,
        vec![
            1, 2, 3, 4, 0xff, 0xff, 0xff, 0xfe, 1, 2, 3, 4, 5, 6, 7, 8, 0xff, 0xff, 0xff, 0xff,
            0xff, 0xff, 0xff, 0xff, 0, 0, 0, 1, 0, 0, 0, 0
        ]
    );
    let mut r = XdrReader::new(bytes);
    assert_eq!(r.read_u32().unwrap(), 0x0102_0304);
    assert_eq!(r.read_i32().unwrap(), -2);
    assert_eq!(r.read_u64().unwrap(), 0x0102_0304_0506_0708);
    assert_eq!(r.read_i64().unwrap(), -1);
    assert!(r.read_bool().unwrap());
    assert!(!r.read_bool().unwrap());
    assert!(r.is_empty());
}

#[test]
fn xdr_read_past_end_is_unexpected_eof() {
    let mut r = XdrReader::new(vec![0, 0, 1]);
    assert_eq!(r.read_u32(), Err(HddmError::IoError(IoFailure::UnexpectedEof)));
    assert_eq!(r.remaining_len(), 0);
}

#[test]
fn xdr_string_that_is_not_utf8_is_invalid_data() {
    let mut r = XdrReader::new(vec![0, 0, 0, 1, 0xff, 0, 0, 0]);
    assert_eq!(r.read_string(), Err(HddmError::IoError(IoFailure::InvalidData)));
}

#[test]
fn xdr_string_round_trip_keeps_text() {
    let text = "héllo, wörld";
    let mut w = XdrWriter::new(Vec::new());
    w.write_string(text).unwrap();
    let bytes = w.into_inner();
    assert_eq!(bytes.len() % 4, 0);
    let mut r = XdrReader::new(bytes);
    assert_eq!(r.read_string().unwrap(), text);
    assert!(r.is_empty());
}

#[test]
fn xdr_reader_read_exact_and_position() {
    let mut r = XdrReader::new(vec![9, 8, 7, 6, 5]);
    let mut buf = vec![0u8; 3];
    r.read_exact(&mut buf).unwrap();
    assert_eq!(buf, vec![9, 8, 7]);
    assert_eq!(r.position(), 3);
    assert_eq!(r.read_n(2).unwrap(), vec![6, 5]);
    assert_eq!(r.get_ref(), &vec![9, 8, 7, 6, 5]);
    r.inner_mut().push(4);
    assert_eq!(r.read_n(1).unwrap(), vec![4]);
    assert_eq!(r.into_inner(), Vec::<u8>::new());
}

#[test]
fn into_inner_gives_the_unread_rest() {
    let mut r = XdrReader::new(vec![0, 0, 0, 1, b'a', 0, 0, 0, 9]);
    assert_eq!(r.read_string().unwrap(), "a");
    assert_eq!(r.into_inner(), vec![9]);
}

#[test]
fn position_stops_at_the_end() {
    let mut r = XdrReader::new(vec![0, 0, 0, 5]);
    assert_eq!(r.read_u32(), Ok(5));
    assert_eq!(r.position(), 4);
    assert!(r.read_u32().is_err());
    assert_eq!(r.position(), 4);
    let mut short = XdrReader::new(vec![1, 2]);
    assert!(short.read_n(3).is_err());
    assert_eq!(short.position(), 2);
}
