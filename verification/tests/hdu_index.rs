use photonyx::block::BLOCK_SIZE;
use photonyx::card::{Card, Value};
use photonyx::error::FitsError;
use photonyx::hdu::HduKind;
use photonyx::hdu_index::{FitsReader, HduIndex};
use photonyx::source::SliceSource;

fn card(kw: &str, v: Value) -> Card {
    Card::new(kw.to_string(), v, None)
}

fn header_bytes(cards: &[Card]) -> Vec<u8> {
    let mut bytes = Vec::new();
    for c in cards {
        bytes.extend_from_slice(&c.to_bytes());
    }
    bytes.extend_from_slice(&Card::new("END".to_string(), Value::Commentary(String::new()), None).to_bytes());
    let rem = bytes.len() % BLOCK_SIZE;
    if rem != 0 {
        bytes.resize(bytes.len() + (BLOCK_SIZE - rem), b' ');
    }
    bytes
}

fn two_hdu_file() -> Vec<u8> {
    let mut bytes = header_bytes(&[
        card("SIMPLE", Value::Logical(true)),
        card("BITPIX", Value::Integer(8)),
        card("NAXIS", Value::Integer(1)),
        card("NAXIS1", Value::Integer(10)),
    ]);
    bytes.resize(bytes.len() + BLOCK_SIZE, 0);
    bytes.extend(header_bytes(&[
        card("XTENSION", Value::String("BINTABLE".to_string())),
        card("BITPIX", Value::Integer(8)),
        card("NAXIS", Value::Integer(0)),
    ]));
    bytes
}

#[test]
fn index_discovers_hdus_lazily_and_chains_offsets() {
    let source = SliceSource::new(two_hdu_file());
    let mut index = HduIndex::new();
    assert_eq!(index.len(), 0);
    index.discover_up_to(&source, 0).unwrap();
    assert_eq!(index.len(), 1);
    assert_eq!(index.next_offset(), 2 * BLOCK_SIZE as u64);
    index.discover_up_to(&source, 1).unwrap();
    assert_eq!(index.len(), 2);
    assert_eq!(index.get(1).header_offset, 2 * BLOCK_SIZE as u64);
    assert!(matches!(index.get(1).kind, HduKind::BinTable));
    assert!(matches!(index.get(0).kind, HduKind::Primary));
}

#[test]
fn index_past_the_end_is_out_of_range_and_remembered() {
    let source = SliceSource::new(two_hdu_file());
    let mut index = HduIndex::new();
    let r = index.discover_up_to(&source, 5);
    assert!(matches!(r, Err(FitsError::HduIndexOutOfRange(5))));
    assert_eq!(index.len(), 2);
    assert!(index.is_exhausted());
    assert!(matches!(index.discover_up_to(&source, 3), Err(FitsError::HduIndexOutOfRange(3))));
    assert!(index.discover_up_to(&source, 1).is_ok());
}

#[test]
fn count_all_counts_every_hdu() {
    let source = SliceSource::new(two_hdu_file());
    let mut index = HduIndex::new();
    assert_eq!(index.count_all(&source).unwrap(), 2);
}

#[test]
fn index_on_a_truncated_header_reports_missing_end() {
    let source = SliceSource::new(vec![b' '; BLOCK_SIZE]);
    let mut index = HduIndex::new();
    assert!(matches!(index.discover_up_to(&source, 0), Err(FitsError::MissingEnd)));
    assert_eq!(index.len(), 0);
}

fn image_header(naxis: &[i64]) -> Vec<Card> {
    let mut cards = vec![
        card("SIMPLE", Value::Logical(true)),
        card("BITPIX", Value::Integer(16)),
        card("NAXIS", Value::Integer(naxis.len() as i64)),
    ];
    for (i, n) in naxis.iter().enumerate() {
        cards.push(card(&format!("NAXIS{}", i + 1), Value::Integer(*n)));
    }
    cards
}

fn extension_header(naxis: &[i64]) -> Vec<Card> {
    let mut cards = vec![
        card("XTENSION", Value::String("IMAGE".to_string())),
        card("BITPIX", Value::Integer(8)),
        card("NAXIS", Value::Integer(naxis.len() as i64)),
    ];
    for (i, n) in naxis.iter().enumerate() {
        cards.push(card(&format!("NAXIS{}", i + 1), Value::Integer(*n)));
    }
    cards.push(card("PCOUNT", Value::Integer(0)));
    cards.push(card("GCOUNT", Value::Integer(1)));
    cards
}

fn single_hdu_file(naxis: &[i64], data_blocks: usize) -> Vec<u8> {
    let mut bytes = header_bytes(&image_header(naxis));
    bytes.resize(bytes.len() + data_blocks * BLOCK_SIZE, 0);
    bytes
}

fn primary_plus_image(ext_naxis: &[i64]) -> Vec<u8> {
    let mut bytes = header_bytes(&image_header(&[]));
    bytes.extend_from_slice(&header_bytes(&extension_header(ext_naxis)));
    let ext_data_len: i64 = ext_naxis.iter().product();
    let padded = photonyx::block::padded_len(ext_data_len as u64) as usize;
    bytes.resize(bytes.len() + padded, 0);
    bytes
}

#[test]
fn open_reads_only_primary_header() {
    let reader = FitsReader::from_source(SliceSource::new(primary_plus_image(&[12, 9]))).unwrap();
    let primary = reader.primary();
    assert_eq!(primary.kind, HduKind::Primary);
    assert_eq!(primary.data_len, 0);
    assert_eq!(reader.discovered(), 1);
}

#[test]
fn hdu_discovers_extension_lazily() {
    let mut reader = FitsReader::from_source(SliceSource::new(primary_plus_image(&[12, 9]))).unwrap();
    let ext = reader.hdu(1).unwrap();
    assert_eq!(ext.kind, HduKind::Image);
    assert_eq!(ext.data_len, 12 * 9);
}

#[test]
fn hdu_out_of_range_errors() {
    let mut reader = FitsReader::from_source(SliceSource::new(single_hdu_file(&[4, 4], 1))).unwrap();
    let err = reader.hdu(1).unwrap_err();
    assert!(matches!(err, FitsError::HduIndexOutOfRange(1)));
}

#[test]
fn hdu_count_matches_actual_hdu_count() {
    let mut reader = FitsReader::from_source(SliceSource::new(primary_plus_image(&[5, 5]))).unwrap();
    assert_eq!(reader.hdu_count().unwrap(), 2);
}

#[test]
fn repeated_hdu_access_does_not_rediscover() {
    let mut reader = FitsReader::from_source(SliceSource::new(primary_plus_image(&[3, 3]))).unwrap();
    let first = reader.hdu(1).unwrap().header_offset;
    let second = reader.hdu(1).unwrap().header_offset;
    assert_eq!(first, second);
    assert_eq!(reader.discovered(), 2);
}

#[test]
fn reader_on_empty_source_has_no_primary() {
    let r = FitsReader::from_source(SliceSource::new(Vec::new()));
    assert!(matches!(r, Err(FitsError::HduIndexOutOfRange(0))));
}

#[test]
fn count_all_reports_a_damaged_later_header_and_keeps_what_came_before() {
    let mut bytes = two_hdu_file();
    let second = 2 * BLOCK_SIZE;
    for b in bytes[second..].iter_mut() {
        *b = b' ';
    }
    let source = SliceSource::new(bytes);
    let mut index = HduIndex::new();
    assert!(matches!(index.count_all(&source), Err(FitsError::MissingEnd)));
    assert_eq!(index.len(), 1);
    assert!(!index.is_exhausted());
}

#[test]
fn count_all_after_everything_is_known_changes_nothing() {
    let source = SliceSource::new(two_hdu_file());
    let mut index = HduIndex::new();
    index.discover_up_to(&source, 1).unwrap();
    assert_eq!(index.count_all(&source).unwrap(), 2);
    assert_eq!(index.count_all(&source).unwrap(), 2);
    assert_eq!(index.len(), 2);
}
