use photonyx::error::IoError;
use photonyx::source::{ByteSource, SliceSource};

#[test]
fn slice_source_reads_at_offset_and_exposes_as_slice() {
    let src = SliceSource::new(b"hello world".to_vec());
    assert_eq!(src.len(), 11);
    assert_eq!(src.as_slice(), Some(b"hello world".as_slice()));

    let mut buf = [0u8; 5];
    src.read_exact_at(&mut buf, 6).unwrap();
    assert_eq!(&buf, b"world");
}

#[test]
fn slice_source_short_read_past_end_errors() {
    let src = SliceSource::new(b"abc".to_vec());
    let mut buf = [0u8; 4];
    let err = src.read_exact_at(&mut buf, 0).unwrap_err();
    assert_eq!(err, IoError::UnexpectedEof);
}

#[test]
fn slice_source_zero_length_read_at_exact_end_is_ok() {
    let src = SliceSource::new(b"abc".to_vec());
    let mut buf: [u8; 0] = [];
    src.read_exact_at(&mut buf, 3).unwrap();
}

#[test]
fn slice_source_offset_beyond_end_errors() {
    let src = SliceSource::new(b"abc".to_vec());
    let mut buf: [u8; 0] = [];
    assert_eq!(src.read_exact_at(&mut buf, 4), Err(IoError::UnexpectedEof));
    assert!(!src.is_empty());
    assert!(SliceSource::new(Vec::new()).is_empty());
}
