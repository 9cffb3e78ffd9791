use hddm::file::finish_payload;
use hddm::read::{finish_contents, finish_record};
use hddm::{
    ElementReader, FormatError, HddmError, HddmPrimitiveRead, HddmPrimitiveWrite, HddmRead,
    HddmReader, HddmResult, HddmWrite, HddmWriter, IoFailure,
};

#[derive(Debug, PartialEq)]
struct Point {
    x: i32,
    label: String,
}

impl HddmWrite for Point {
    fn write_contents(&self, w: &mut HddmWriter) -> HddmResult<()> {
        HddmPrimitiveWrite::write_primitive(&self.x, w)?;
        HddmPrimitiveWrite::write_primitive(&self.label, w)?;
        Ok(())
    }
}

impl HddmRead for Point {
    fn read_contents(r: &mut ElementReader) -> HddmResult<Self> {
        Ok(Point { x: HddmPrimitiveRead::read_primitive(r)?, label: HddmPrimitiveRead::read_primitive(r)? })
    }
}

#[test]
fn element_is_size_then_payload() {
    let mut w = HddmWriter::new(Vec::new());
    w.write_element(&[1, 2, 3]).unwrap();
    assert_eq!(w.into_inner(), vec![0, 0, 0, 3, 1, 2, 3]);
}

#[test]
fn lists_and_links_round_trip() {
    let points = vec![Point { x: 1, label: "a".into() }, Point { x: -7, label: "bcd".into() }];
    let mut w = HddmWriter::new(Vec::new());
    w.write_list(&points).unwrap();
    w.write_list::<Point>(&[]).unwrap();
    w.write_link(&Some(Point { x: 3, label: "z".into() })).unwrap();
    w.write_link::<Point>(&None).unwrap();
    w.write_required_link(&Point { x: 4, label: "".into() }).unwrap();
    let bytes = w.into_inner();
    let mut r = HddmReader::new(bytes);
    assert_eq!(r.read_list::<Point>().unwrap(), points);
    assert_eq!(r.read_list::<Point>().unwrap(), vec![]);
    assert_eq!(r.read_link::<Point>().unwrap(), Some(Point { x: 3, label: "z".into() }));
    assert_eq!(r.read_link::<Point>().unwrap(), None);
    assert_eq!(r.read_required_link::<Point>().unwrap(), Point { x: 4, label: "".into() });
    assert_eq!(r.read_record::<Point>().unwrap(), None);
}

#[test]
fn empty_list_is_an_empty_element() {
    let mut w = HddmWriter::new(Vec::new());
    w.write_list::<Point>(&[]).unwrap();
    assert_eq!(w.into_inner(), vec![0, 0, 0, 0]);
}

#[test]
fn records_read_until_the_bytes_run_out() {
    let mut w = HddmWriter::new(Vec::new());
    Point { x: 5, label: "p".into() }.write_hddm(&mut w).unwrap();
    let mut bytes = w.into_inner();
    bytes.extend_from_slice(&[0, 0]);
    let mut r = HddmReader::new(bytes);
    assert_eq!(r.read_record::<Point>().unwrap(), Some(Point { x: 5, label: "p".into() }));
    assert_eq!(r.read_record::<Point>().unwrap(), None);
}

#[test]
fn whole_element_reads_back() {
    let mut w = HddmWriter::new(Vec::new());
    Point { x: -3, label: "q".into() }.write_hddm(&mut w).unwrap();
    let mut r = HddmReader::new(w.into_inner());
    assert_eq!(Point::read_hddm(&mut r).unwrap(), Point { x: -3, label: "q".into() });
}

#[test]
fn negative_element_size_is_reported() {
    let mut r = HddmReader::new(vec![0xff, 0xff, 0xff, 0xff]);
    let err = r.read_link::<Point>().unwrap_err();
    assert_eq!(err, HddmError::FormatError(FormatError::NegativeElementSize(-1)));
    assert_eq!(err.message(), "invalid HDDM format: negative HDDM element size: -1");
}

#[test]
fn negative_list_count_is_reported() {
    let mut r = HddmReader::new(vec![0, 0, 0, 4, 0xff, 0xff, 0xff, 0xf0]);
    assert_eq!(
        r.read_list::<Point>().unwrap_err(),
        HddmError::FormatError(FormatError::NegativeListCount(-16))
    );
}

#[test]
fn unread_bytes_in_an_element_are_a_size_mismatch() {
    let mut w = HddmWriter::new(Vec::new());
    let mut inner = HddmWriter::new(Vec::new());
    Point { x: 1, label: "a".into() }.write_contents(&mut inner).unwrap();
    let mut body = inner.into_inner();
    body.extend_from_slice(&[0, 0, 0, 0]);
    w.write_element(&body).unwrap();
    let mut r = HddmReader::new(w.into_inner());
    assert_eq!(
        r.read_link::<Point>().unwrap_err(),
        HddmError::FormatError(FormatError::ElementSizeMismatch)
    );
}

#[test]
fn payload_reader_reports_leftovers() {
    let mut e = ElementReader::from_payload(vec![0, 0, 0, 1, 9]);
    assert_eq!(e.read_i32().unwrap(), 1);
    assert!(!e.is_empty());
    assert_eq!(e.ensure_empty(), Err(HddmError::FormatError(FormatError::PayloadNotEmpty)));
    assert_eq!(e.read_u32(), Err(HddmError::IoError(IoFailure::UnexpectedEof)));
    assert!(e.ensure_empty().is_ok());
}

#[test]
fn skip_element_moves_past_one_element() {
    let mut w = HddmWriter::new(Vec::new());
    w.write_element(&[1, 2]).unwrap();
    w.write_i32(42).unwrap();
    let mut r = HddmReader::new(w.into_inner());
    r.skip_element().unwrap();
    assert_eq!(r.read_i32().unwrap(), 42);
}

#[test]
fn finishing_a_record_checks_the_payload_is_read() {
    let empty = ElementReader::from_payload(Vec::new());
    let left = ElementReader::from_payload(vec![7]);
    assert_eq!(finish_record(Ok(5i32), &empty), Ok(Some(5)));
    assert_eq!(
        finish_record(Ok(5i32), &left),
        Err(HddmError::FormatError(FormatError::ElementSizeMismatch))
    );
    assert_eq!(finish_record::<i32>(Err(HddmError::IoError(IoFailure::UnexpectedEof)), &left), Ok(None));
    assert_eq!(
        finish_record::<i32>(Err(HddmError::IoError(IoFailure::InvalidData)), &empty),
        Err(HddmError::IoError(IoFailure::InvalidData))
    );
}

#[test]
fn finishing_contents_checks_the_payload_is_read() {
    let empty = ElementReader::from_payload(Vec::new());
    let left = ElementReader::from_payload(vec![7, 8]);
    assert_eq!(finish_contents(Ok(9i32), &empty), Ok(9));
    assert_eq!(
        finish_contents(Ok(9i32), &left),
        Err(HddmError::FormatError(FormatError::ElementSizeMismatch))
    );
    assert_eq!(
        finish_contents::<i32>(Err(HddmError::IoError(IoFailure::UnexpectedEof)), &empty),
        Err(HddmError::IoError(IoFailure::UnexpectedEof))
    );
}

#[test]
fn finishing_a_file_record_checks_the_payload_is_read() {
    let empty = ElementReader::from_payload(Vec::new());
    let left = ElementReader::from_payload(vec![1]);
    assert_eq!(finish_payload(Ok(3u32), &empty), Ok(Some(3)));
    assert_eq!(
        finish_payload(Ok(3u32), &left),
        Err(HddmError::FormatError(FormatError::PayloadNotEmpty))
    );
    assert_eq!(
        finish_payload::<u32>(Err(HddmError::IoError(IoFailure::UnexpectedEof)), &empty),
        Err(HddmError::IoError(IoFailure::UnexpectedEof))
    );
}

#[test]
fn list_bytes_are_count_then_contents() {
    let mut w = HddmWriter::new(Vec::new());
    let items = vec![Point { x: 1, label: "a".to_string() }, Point { x: 2, label: String::new() }];
    w.write_list(&items).unwrap();
    assert_eq!(
        w.into_inner(),
        vec![
            0, 0, 0, 24, 0, 0, 0, 2, 0, 0, 0, 1, 0, 0, 0, 1, b'a', 0, 0, 0, 0, 0, 0, 2, 0, 0, 0, 0
        ]
    );
}

#[test]
fn link_bytes_are_the_contents() {
    let mut w = HddmWriter::new(Vec::new());
    w.write_link(&Some(Point { x: 3, label: String::new() })).unwrap();
    w.write_link::<Point>(&None).unwrap();
    assert_eq!(w.into_inner(), vec![0, 0, 0, 8, 0, 0, 0, 3, 0, 0, 0, 0, 0, 0, 0, 0]);
}

#[test]
fn record_written_whole_reads_back() {
    let p = Point { x: -4, label: "xy".to_string() };
    let mut w = HddmWriter::new(Vec::new());
    p.write_hddm(&mut w).unwrap();
    let mut r = HddmReader::new(w.into_inner());
    assert_eq!(r.read_record::<Point>(), Ok(Some(p)));
    assert_eq!(r.read_record::<Point>(), Ok(None));
}
