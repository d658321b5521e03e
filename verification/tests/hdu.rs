use photonyx::block::BLOCK_SIZE;
use photonyx::card::{Card, Value};
use photonyx::error::FitsError;
use photonyx::hdu::{data_unit_len, discover_one, HduKind};
use photonyx::header::Header;
use photonyx::source::SliceSource;

fn card(kw: &str, v: Value) -> Card {
    Card::new(kw.to_string(), v, None)
}

fn header_bytes(cards: &[Card]) -> Vec<u8> {
    let mut bytes = Vec::new();
    for c in cards {
        bytes.extend_from_slice(&c.to_bytes());
    }
    bytes.extend_from_slice(&Card::new("END".to_string(), Value::Commentary(String::new()), None).to_bytes());
    let rem = bytes.len() % BLOCK_SIZE;
    if rem != 0 {
        bytes.resize(bytes.len() + (BLOCK_SIZE - rem), b' ');
    }
    bytes
}

fn header_of(cards: &[Card]) -> Header {
    let source = SliceSource::new(header_bytes(cards));
    Header::read(&source, 0).unwrap()
}

#[test]
fn data_unit_len_zero_naxis_is_zero() {
    let header = header_of(&[card("NAXIS", Value::Integer(0))]);
    assert_eq!(data_unit_len(&header).unwrap(), 0);
}

#[test]
fn data_unit_len_matches_bitpix_times_pixels() {
    let header = header_of(&[
        card("BITPIX", Value::Integer(16)),
        card("NAXIS", Value::Integer(2)),
        card("NAXIS1", Value::Integer(10)),
        card("NAXIS2", Value::Integer(4)),
    ]);
    assert_eq!(data_unit_len(&header).unwrap(), 80);
}

#[test]
fn data_unit_len_accounts_for_pcount_and_gcount() {
    let header = header_of(&[
        card("BITPIX", Value::Integer(8)),
        card("NAXIS", Value::Integer(1)),
        card("NAXIS1", Value::Integer(10)),
        card("PCOUNT", Value::Integer(5)),
        card("GCOUNT", Value::Integer(2)),
    ]);
    assert_eq!(data_unit_len(&header).unwrap(), 30);
}

#[test]
fn data_unit_len_rejects_bad_bitpix_and_overflow() {
    let header = header_of(&[
        card("BITPIX", Value::Integer(7)),
        card("NAXIS", Value::Integer(1)),
        card("NAXIS1", Value::Integer(10)),
    ]);
    assert!(matches!(data_unit_len(&header), Err(FitsError::InvalidBitpix(7))));
    let header = header_of(&[
        card("BITPIX", Value::Integer(-64)),
        card("NAXIS", Value::Integer(1)),
        card("NAXIS1", Value::Integer(i64::MAX)),
    ]);
    assert!(matches!(data_unit_len(&header), Err(FitsError::NaxisOverflow)));
}

#[test]
fn discover_one_computes_correct_offsets() {
    let hb = header_bytes(&[
        card("SIMPLE", Value::Logical(true)),
        card("BITPIX", Value::Integer(8)),
        card("NAXIS", Value::Integer(1)),
        card("NAXIS1", Value::Integer(10)),
    ]);
    let header_len = hb.len() as u64;
    let mut bytes = hb;
    bytes.resize(bytes.len() + BLOCK_SIZE, 0);

    let source = SliceSource::new(bytes);
    let hdu = discover_one(&source, 0, true).unwrap();

    assert_eq!(hdu.kind, HduKind::Primary);
    assert_eq!(hdu.header_offset, 0);
    assert_eq!(hdu.header_len, header_len);
    assert_eq!(hdu.data_offset, header_len);
    assert_eq!(hdu.data_len, 10);
    assert_eq!(hdu.data_padded_len, BLOCK_SIZE as u64);
    assert_eq!(hdu.next_header_offset(), header_len + BLOCK_SIZE as u64);
}

#[test]
fn discover_one_extension_reports_kind_from_xtension() {
    let bytes = header_bytes(&[
        card("XTENSION", Value::String("IMAGE".to_string())),
        card("BITPIX", Value::Integer(16)),
        card("NAXIS", Value::Integer(0)),
    ]);
    let source = SliceSource::new(bytes);
    let hdu = discover_one(&source, 0, false).unwrap();
    assert_eq!(hdu.kind, HduKind::Image);
}

#[test]
fn xtension_names_map_to_kinds() {
    assert_eq!(HduKind::from_xtension("  BINTABLE "), HduKind::BinTable);
    assert_eq!(HduKind::from_xtension("TABLE"), HduKind::AsciiTable);
    assert_eq!(HduKind::from_xtension(" FOREIGN "), HduKind::Unknown("FOREIGN".to_string()));
}
