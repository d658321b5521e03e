use photonyx::card::{Card, Value};
use photonyx::compress::{tiles_per_axis, CmpType, CompressedGeometry};
use photonyx::error::FitsError;
use photonyx::header::{BitPix, Header};

fn card(kw: &str, v: Value) -> Card {
    Card::new(kw.to_string(), v, None)
}

fn s(x: &str) -> Value {
    Value::String(x.to_string())
}

fn base_cards() -> Vec<Card> {
    vec![
        card("XTENSION", s("BINTABLE")),
        card("ZIMAGE", Value::Logical(true)),
        card("ZBITPIX", Value::Integer(16)),
        card("ZNAXIS", Value::Integer(2)),
        card("ZNAXIS1", Value::Integer(60)),
        card("ZNAXIS2", Value::Integer(40)),
        card("ZTILE1", Value::Integer(20)),
        card("ZTILE2", Value::Integer(12)),
        card("ZCMPTYPE", s("RICE_1")),
    ]
}

#[test]
fn cmptype_parses_known_codecs() {
    assert_eq!(CmpType::parse("RICE_1").unwrap(), CmpType::Rice1);
    assert_eq!(CmpType::parse(" RICE_ONE ").unwrap(), CmpType::Rice1);
    assert_eq!(CmpType::parse("GZIP_1").unwrap(), CmpType::Gzip1);
    assert_eq!(CmpType::parse("GZIP_2").unwrap(), CmpType::Gzip2);
    assert_eq!(CmpType::parse("NOCOMPRESS").unwrap(), CmpType::NoCompress);
    assert!(matches!(CmpType::parse("HCOMPRESS_1"), Err(FitsError::UnsupportedCompression(_))));
}

#[test]
fn geometry_reads_shape_tiles_and_rice_defaults() {
    let h = Header::from_cards(base_cards(), 2880);
    let g = CompressedGeometry::from_header(&h).unwrap();
    assert_eq!(g.bitpix, BitPix::I16);
    assert_eq!(g.shape, vec![60, 40]);
    assert_eq!(g.tile_shape, vec![20, 12]);
    assert_eq!(g.tiles_per_axis, vec![3, 4]);
    assert_eq!(g.cmptype, CmpType::Rice1);
    assert_eq!(g.rice_blocksize, 32);
    assert_eq!(g.rice_bytepix, 2);
}

#[test]
fn geometry_takes_rice_params_from_zname_zval() {
    let mut cards = base_cards();
    cards.push(card("ZNAME1", s("BLOCKSIZE")));
    cards.push(card("ZVAL1", Value::Integer(16)));
    cards.push(card("ZNAME2", s("BYTEPIX")));
    cards.push(card("ZVAL2", Value::Integer(4)));
    let h = Header::from_cards(cards, 2880);
    let g = CompressedGeometry::from_header(&h).unwrap();
    assert_eq!(g.rice_blocksize, 16);
    assert_eq!(g.rice_bytepix, 4);
}

#[test]
fn geometry_errors() {
    let mut cards = base_cards();
    cards[1] = card("ZIMAGE", Value::Logical(false));
    assert!(matches!(CompressedGeometry::from_header(&Header::from_cards(cards, 2880)), Err(FitsError::Processing(_))));

    let mut cards = base_cards();
    cards[2] = card("ZBITPIX", Value::Integer(-32));
    assert!(matches!(
        CompressedGeometry::from_header(&Header::from_cards(cards, 2880)),
        Err(FitsError::UnsupportedCompression(_))
    ));

    let mut cards = base_cards();
    cards[2] = card("ZBITPIX", Value::Integer(12));
    assert!(matches!(CompressedGeometry::from_header(&Header::from_cards(cards, 2880)), Err(FitsError::InvalidBitpix(12))));

    let mut cards = base_cards();
    cards[8] = card("ZCMPTYPE", s("PLIO_1"));
    assert!(matches!(
        CompressedGeometry::from_header(&Header::from_cards(cards, 2880)),
        Err(FitsError::UnsupportedCompression(_))
    ));

    let mut cards = base_cards();
    cards.remove(5);
    assert!(matches!(CompressedGeometry::from_header(&Header::from_cards(cards, 2880)), Err(FitsError::Processing(_))));
}

#[test]
fn tiles_per_axis_rounds_up() {
    assert_eq!(tiles_per_axis(&vec![57, 41, 1], &vec![10, 41, 0]), vec![6, 1, 1]);
}
