use hddm::read::{read_compression, read_i32, read_next_zlib_block_with_size, read_payload, HddmRecordReader};
use hddm::write::{write_compression_token, Bzip2BlockWriter, HddmOutputStream, HddmRecordWriter, ZlibBlockWriter};
use hddm::xdr::XdrReader;
use hddm::{Compression, FormatError, HddmError, HddmWriter, IoFailure};

fn payloads() -> Vec<Vec<u8>> {
    vec![vec![1, 2, 3, 4, 5], vec![], vec![9; 40]]
}

fn read_all(bytes: Vec<u8>) -> Vec<Vec<u8>> {
    let mut r = HddmRecordReader::new(bytes);
    let mut out = Vec::new();
    while let Some(p) = r.next_record_payload().unwrap() {
        out.push(p);
    }
    out
}

#[test]
fn records_read_back_in_every_mode() {
    for mode in [Compression::Uncompressed, Compression::Zlib, Compression::Bzip2] {
        let mut w = HddmRecordWriter::new();
        w.switch_compression(mode).unwrap();
        assert_eq!(w.compression(), mode);
        for p in payloads() {
            w.write_payload(&p).unwrap();
        }
        w.flush().unwrap();
        assert_eq!(read_all(w.take_output()), payloads());
    }
}

#[test]
fn uncompressed_record_is_its_size_then_its_bytes() {
    let mut w = HddmRecordWriter::new();
    w.write_payload(&[7, 8]).unwrap();
    assert_eq!(w.take_output(), vec![0, 0, 0, 2, 7, 8]);
}

#[test]
fn status_token_layout() {
    let mut w = HddmWriter::new(Vec::new());
    write_compression_token(&mut w, Compression::Zlib).unwrap();
    assert_eq!(w.into_inner(), vec![0, 0, 0, 1, 0, 0, 0, 8, 0, 0, 0, 0, 0, 0, 0, 0x10]);
    let mut r = XdrReader::new(vec![0, 0, 0, 8, 0, 0, 0, 0, 0, 0, 0, 0x20]);
    assert_eq!(read_compression(&mut r), Ok(Compression::Bzip2));
}

#[test]
fn bad_status_tokens_are_reported() {
    let mut r = XdrReader::new(vec![0, 0, 0, 9, 0, 0, 0, 0, 0, 0, 0, 0]);
    assert_eq!(read_compression(&mut r), Err(HddmError::FormatError(FormatError::InvalidStatusTokenSize(9))));
    let mut r = XdrReader::new(vec![0, 0, 0, 8, 0, 0, 0, 3, 0, 0, 0, 0]);
    assert_eq!(
        read_compression(&mut r),
        Err(HddmError::FormatError(FormatError::UnsupportedStatusTokenFormat(3)))
    );
    let mut r = XdrReader::new(vec![0, 0, 0, 8, 0, 0, 0, 0, 0, 0, 0, 0x30]);
    let err = read_compression(&mut r).unwrap_err();
    assert_eq!(err, HddmError::FormatError(FormatError::UnsupportedCompressionBits(0x30)));
    assert_eq!(err.message(), "invalid HDDM format: unsupported HDDM compression bits: 0x30");
}

#[test]
fn negative_sizes_are_reported() {
    let mut r = XdrReader::new(vec![1, 2, 3]);
    let err = read_payload(&mut r, -5).unwrap_err();
    assert_eq!(err, HddmError::FormatError(FormatError::NegativeRecordSize(-5)));
    assert_eq!(err.message(), "invalid HDDM format: negative HDDM record size: -5");
    let mut r = XdrReader::new(vec![1, 2, 3]);
    assert_eq!(
        read_next_zlib_block_with_size(&mut r, -1).err(),
        Some(HddmError::FormatError(FormatError::NegativeZlibBlockSize(-1)))
    );
    let mut r = HddmRecordReader::new(vec![0xff, 0xff, 0xff, 0xfe]);
    assert_eq!(
        r.next_record_payload(),
        Err(HddmError::FormatError(FormatError::NegativeRecordSize(-2)))
    );
}

#[test]
fn corrupt_zlib_block_is_decompression_failure() {
    let mut r = XdrReader::new(vec![1, 2, 3, 4]);
    assert_eq!(
        read_next_zlib_block_with_size(&mut r, 4).err(),
        Some(HddmError::IoError(IoFailure::DecompressionFailed))
    );
}

#[test]
fn truncated_stream_reads_as_end_or_eof() {
    let mut r = XdrReader::new(vec![0, 0]);
    assert_eq!(read_i32(&mut r), Err(HddmError::IoError(IoFailure::UnexpectedEof)));
    let mut rr = HddmRecordReader::new(vec![0, 0]);
    assert_eq!(rr.next_record_payload(), Ok(None));
    let mut rr = HddmRecordReader::new(vec![0, 0, 0, 5, 1]);
    assert_eq!(rr.next_record_payload(), Err(HddmError::IoError(IoFailure::UnexpectedEof)));
}

#[test]
fn block_writers_store_blocks_on_flush() {
    let mut z = ZlibBlockWriter::new(Vec::new());
    assert_eq!(z.write(&[1, 2, 3]).unwrap(), 3);
    z.flush().unwrap();
    let stored = z.into_inner();
    assert!(stored.len() > 4);
    let size = i32::from_be_bytes([stored[0], stored[1], stored[2], stored[3]]);
    assert_eq!(size as usize, stored.len() - 4);
    let mut r = XdrReader::new(stored[4..].to_vec());
    let mut block = read_next_zlib_block_with_size(&mut r, size).unwrap();
    assert_eq!(block.read_n(3).unwrap(), vec![1, 2, 3]);

    let mut b = Bzip2BlockWriter::new(vec![5]);
    b.write(&[4, 4]).unwrap();
    assert_eq!(b.into_inner(), vec![5]);

    let mut s = HddmOutputStream::new(Compression::Uncompressed, Vec::new());
    s.write(&[1]).unwrap();
    assert_eq!(s.into_inner(), vec![1]);
}

#[test]
fn block_ending_in_a_status_token_switches_mode() {
    // A zlib block holding one record and then a token back to no
    // compression, then a record outside any block.
    let mut inner = HddmWriter::new(Vec::new());
    inner.write_element(&[4, 2]).unwrap();
    write_compression_token(&mut inner, Compression::Uncompressed).unwrap();
    let mut encoder = flate2::write::ZlibEncoder::new(Vec::new(), flate2::Compression::default());
    std::io::Write::write_all(&mut encoder, &inner.into_inner()).unwrap();
    let block = encoder.finish().unwrap();

    let mut raw = HddmWriter::new(Vec::new());
    write_compression_token(&mut raw, Compression::Zlib).unwrap();
    raw.write_element(&block).unwrap();
    raw.write_element(&[6, 7]).unwrap();
    assert_eq!(read_all(raw.into_inner()), vec![vec![4, 2], vec![6, 7]]);
}
