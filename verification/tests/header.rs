use photonyx::block::{BLOCK_SIZE, CARD_SIZE};
use photonyx::card::{Card, Value};
use photonyx::error::FitsError;
use photonyx::header::{merge_continuations, BitPix, Header};
use photonyx::source::SliceSource;

fn card(kw: &str, v: Value) -> Card {
    Card::new(kw.to_string(), v, None)
}

fn header_bytes(cards: &[Card]) -> Vec<u8> {
    let mut bytes = Vec::new();
    for c in cards {
        bytes.extend_from_slice(&c.to_bytes());
    }
    bytes.extend_from_slice(&Card::new("END".to_string(), Value::Commentary(String::new()), None).to_bytes());
    let rem = bytes.len() % BLOCK_SIZE;
    if rem != 0 {
        bytes.resize(bytes.len() + (BLOCK_SIZE - rem), b' ');
    }
    bytes
}

#[test]
fn reads_simple_header_and_stops_at_end() {
    let cards = vec![
        card("SIMPLE", Value::Logical(true)),
        card("BITPIX", Value::Integer(16)),
        card("NAXIS", Value::Integer(2)),
        card("NAXIS1", Value::Integer(64)),
        card("NAXIS2", Value::Integer(48)),
    ];
    let source = SliceSource::new(header_bytes(&cards));
    let header = Header::read(&source, 0).unwrap();

    assert_eq!(header.get_bool("SIMPLE"), Some(true));
    assert_eq!(header.get_i64("BITPIX"), Some(16));
    assert_eq!(header.bitpix().unwrap(), BitPix::I16);
    assert_eq!(header.naxis().unwrap(), vec![64, 48]);
    assert_eq!(header.byte_len(), BLOCK_SIZE as u64);
}

#[test]
fn reads_header_spanning_multiple_blocks() {
    let mut cards = vec![card("SIMPLE", Value::Logical(true))];
    for i in 0..40 {
        cards.push(card("COMMENT", Value::Commentary(format!("line {i}"))));
    }
    let bytes = header_bytes(&cards);
    assert!(bytes.len() > BLOCK_SIZE, "test fixture should span >1 block");
    let source = SliceSource::new(bytes);
    let header = Header::read(&source, 0).unwrap();

    assert_eq!(header.byte_len(), BLOCK_SIZE as u64 * 2);
    assert_eq!(header.get_bool("SIMPLE"), Some(true));
}

#[test]
fn missing_end_before_eof_errors() {
    let mut bytes = vec![b' '; BLOCK_SIZE];
    let c = card("SIMPLE", Value::Logical(true)).to_bytes();
    bytes[0..CARD_SIZE].copy_from_slice(&c);
    let source = SliceSource::new(bytes);

    let err = Header::read(&source, 0).unwrap_err();
    assert!(matches!(err, FitsError::MissingEnd));
}

#[test]
fn invalid_bitpix_is_rejected_by_typed_accessor() {
    let cards = vec![card("BITPIX", Value::Integer(3))];
    let source = SliceSource::new(header_bytes(&cards));
    let header = Header::read(&source, 0).unwrap();

    let err = header.bitpix().unwrap_err();
    assert!(matches!(err, FitsError::InvalidBitpix(3)));
}

#[test]
fn negative_naxis_is_rejected() {
    let cards = vec![card("NAXIS", Value::Integer(1)), card("NAXIS1", Value::Integer(-10))];
    let source = SliceSource::new(header_bytes(&cards));
    let header = Header::read(&source, 0).unwrap();

    let err = header.naxis().unwrap_err();
    assert!(matches!(err, FitsError::NegativeNaxis { axis: 1, value: -10 }));
}

#[test]
fn naxis_overflow_is_rejected() {
    let cards = vec![
        card("NAXIS", Value::Integer(2)),
        card("NAXIS1", Value::Integer(999_999_999_999)),
        card("NAXIS2", Value::Integer(999_999_999_999)),
    ];
    let source = SliceSource::new(header_bytes(&cards));
    let header = Header::read(&source, 0).unwrap();

    let err = header.naxis().unwrap_err();
    assert!(matches!(err, FitsError::NaxisOverflow));
}

#[test]
fn malformed_card_is_queryable_as_invalid_not_an_error() {
    let mut bytes = vec![b' '; BLOCK_SIZE];
    let mut bad = String::from("BADCARD!!!!not a valid value syntax at all,,,,");
    bad.push_str(&" ".repeat(CARD_SIZE.saturating_sub(bad.len())));
    bytes[0..CARD_SIZE].copy_from_slice(&bad.as_bytes()[..CARD_SIZE]);
    let end = Card::new("END".to_string(), Value::Commentary(String::new()), None).to_bytes();
    bytes[CARD_SIZE..CARD_SIZE * 2].copy_from_slice(&end);
    let source = SliceSource::new(bytes);

    let header = Header::read(&source, 0).unwrap();
    let c = header.get("BADCARD!").expect("malformed card still present");
    assert!(matches!(c.value, Value::Invalid(_)));
}

#[test]
fn merges_continue_chain_into_one_logical_string() {
    let cards = vec![
        Card::new("LONGSTR".to_string(), Value::String("part one &".to_string()), Some("desc".to_string())),
        card("CONTINUE", Value::String("part two &".to_string())),
        card("CONTINUE", Value::String("part three".to_string())),
    ];
    let source = SliceSource::new(header_bytes(&cards));
    let header = Header::read(&source, 0).unwrap();

    assert_eq!(header.get_string("LONGSTR"), Some("part one part two part three"));
    assert!(header.cards().iter().all(|c| !c.keyword.eq_ignore_ascii_case("CONTINUE")));
}

#[test]
fn duplicate_keyword_first_occurrence_wins() {
    let cards = vec![card("FOO", Value::Integer(1)), card("FOO", Value::Integer(2))];
    let source = SliceSource::new(header_bytes(&cards));
    let header = Header::read(&source, 0).unwrap();

    assert_eq!(header.get_i64("FOO"), Some(1));
}

#[test]
fn header_read_at_nonzero_offset_and_case_insensitive_lookup() {
    let mut bytes = vec![b'x'; 2 * BLOCK_SIZE];
    bytes.extend_from_slice(&header_bytes(&[card("Exptime", Value::Integer(300))]));
    let source = SliceSource::new(bytes);
    let header = Header::read(&source, 2 * BLOCK_SIZE as u64).unwrap();
    assert_eq!(header.get_i64("EXPTIME"), Some(300));
    assert_eq!(header.get_i64("exptime"), Some(300));
    assert_eq!(header.get_i64("MISSING"), None);
    assert_eq!(header.get_bool("EXPTIME"), None);
    assert_eq!(header.get_string("EXPTIME"), None);
}

#[test]
fn bitpix_roundtrips_through_its_number() {
    for v in [8i64, 16, 32, 64, -32, -64] {
        let b = BitPix::from_i64(v).unwrap();
        assert_eq!(b.as_i64(), v);
    }
    assert_eq!(BitPix::F64.bytes_per_pixel(), 8);
    assert_eq!(BitPix::I16.bytes_per_pixel(), 2);
    assert!(matches!(BitPix::from_i64(0), Err(FitsError::InvalidBitpix(0))));
}

#[test]
fn naxis_zero_is_empty_and_missing_naxis_is_zero() {
    let source = SliceSource::new(header_bytes(&[card("NAXIS", Value::Integer(0))]));
    let header = Header::read(&source, 0).unwrap();
    assert_eq!(header.naxis().unwrap(), Vec::<u64>::new());
    let source = SliceSource::new(header_bytes(&[card("SIMPLE", Value::Logical(true))]));
    let header = Header::read(&source, 0).unwrap();
    assert_eq!(header.naxis().unwrap(), Vec::<u64>::new());
}

#[test]
fn continue_without_ampersand_stays_separate() {
    let raw = vec![
        card("LONGSTR", Value::String("whole".to_string())),
        card("CONTINUE", Value::String("orphan".to_string())),
    ];
    let merged = merge_continuations(&raw);
    assert_eq!(merged.len(), 2);
    assert_eq!(merged[0].value, Value::String("whole".to_string()));
}
