use hddm::compression::{
    compression_from_status_bits, Compression, HddmInputStream, HddmOutputStream, ZlibBlockReader,
    ZlibBlockWriter,
};
use hddm::xdr::XdrReader;
use hddm::{FormatError, HddmError};

#[test]
fn status_bits_select_compression() {
    assert_eq!(compression_from_status_bits(0x00), Ok(Compression::Uncompressed));
    assert_eq!(compression_from_status_bits(0x11), Ok(Compression::Zlib));
    assert_eq!(
        compression_from_status_bits(0x20),
        Err(HddmError::FormatError(FormatError::Bzip2NotImplemented))
    );
    assert_eq!(
        compression_from_status_bits(0x3f),
        Err(HddmError::FormatError(FormatError::UnsupportedCompressionBits(0x30)))
    );
}

#[test]
fn each_write_is_one_block_read_back_in_order() {
    let mut w = ZlibBlockWriter::new(Vec::new());
    assert_eq!(w.write(&[1, 2, 3]).unwrap(), 3);
    assert_eq!(w.write(&[]).unwrap(), 0);
    assert_eq!(w.write(&[4, 5]).unwrap(), 2);
    w.flush().unwrap();
    let stored = w.into_inner();
    assert_ne!(stored, vec![1, 2, 3, 4, 5]);

    let mut r = ZlibBlockReader::new(stored);
    assert_eq!(r.read(2).unwrap(), vec![1, 2]);
    assert_eq!(r.read(10).unwrap(), vec![3]);
    assert_eq!(r.read(10).unwrap(), vec![4, 5]);
    assert_eq!(r.read(10).unwrap(), Vec::<u8>::new());
}

#[test]
fn streams_pass_plain_bytes_through() {
    let mut out = HddmOutputStream::Plain(Vec::new());
    out.write(&[1, 2, 3]).unwrap();
    out.flush().unwrap();
    let bytes = match out {
        HddmOutputStream::Plain(v) => v,
        HddmOutputStream::Zlib(_) => unreachable!(),
    };
    let mut input = HddmInputStream::Plain(XdrReader::new(bytes));
    assert_eq!(input.read(2).unwrap(), vec![1, 2]);
    assert_eq!(input.read(2).unwrap(), vec![3]);
    assert_eq!(input.read(2).unwrap(), Vec::<u8>::new());
}

#[test]
fn zlib_streams_round_trip() {
    let mut out = HddmOutputStream::Zlib(ZlibBlockWriter::new(Vec::new()));
    out.write(b"hello").unwrap();
    let bytes = match out {
        HddmOutputStream::Zlib(w) => w.into_inner(),
        HddmOutputStream::Plain(_) => unreachable!(),
    };
    let mut input = HddmInputStream::Zlib(ZlibBlockReader::new(bytes));
    assert_eq!(input.read(16).unwrap(), b"hello".to_vec());
}

#[test]
fn truncated_block_is_unexpected_eof() {
    let mut r = ZlibBlockReader::new(vec![0, 0, 0, 10, 1, 2]);
    assert_eq!(r.read(4), Err(HddmError::IoError(hddm::IoFailure::UnexpectedEof)));
}

#[test]
fn several_blocks_read_back_one_per_read() {
    let mut w = ZlibBlockWriter::new(Vec::new());
    w.write(b"first").unwrap();
    w.write(b"second").unwrap();
    w.write(b"third").unwrap();
    let mut r = ZlibBlockReader::new(w.into_inner());
    assert_eq!(r.read(64).unwrap(), b"first".to_vec());
    assert_eq!(r.read(64).unwrap(), b"second".to_vec());
    assert_eq!(r.read(64).unwrap(), b"third".to_vec());
    assert_eq!(r.read(64).unwrap(), Vec::<u8>::new());
}

#[test]
fn small_reads_give_every_block_in_order() {
    let mut w = ZlibBlockWriter::new(Vec::new());
    w.write(b"abcde").unwrap();
    w.write(b"fg").unwrap();
    let mut r = ZlibBlockReader::new(w.into_inner());
    let mut got = Vec::new();
    loop {
        let part = r.read(3).unwrap();
        if part.is_empty() {
            break;
        }
        assert!(part.len() <= 3);
        got.extend(part);
    }
    assert_eq!(got, b"abcdefg".to_vec());
}
