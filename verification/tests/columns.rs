use photonyx::block::BLOCK_SIZE;
use photonyx::card::{Card, Value};
use photonyx::columns::parse_columns;
use photonyx::error::FitsError;
use photonyx::header::Header;
use photonyx::source::SliceSource;
use photonyx::table::{AsciiFormat, BinFormat, BinType, ColumnFormat, VarKind};

fn card(kw: &str, v: Value) -> Card {
    Card::new(kw.to_string(), v, None)
}

fn header_of(cards: &[Card]) -> Header {
    let mut bytes = Vec::new();
    for c in cards {
        bytes.extend_from_slice(&c.to_bytes());
    }
    bytes.extend_from_slice(&Card::new("END".to_string(), Value::Commentary(String::new()), None).to_bytes());
    let rem = bytes.len() % BLOCK_SIZE;
    if rem != 0 {
        bytes.resize(bytes.len() + (BLOCK_SIZE - rem), b' ');
    }
    Header::read(&SliceSource::new(bytes), 0).unwrap()
}

fn s(v: &str) -> Value {
    Value::String(v.to_string())
}

#[test]
fn binary_columns_read_every_keyword() {
    let h = header_of(&[
        card("XTENSION", s("BINTABLE")),
        card("TFIELDS", Value::Integer(2)),
        card("TTYPE1", s("FLUX")),
        card("TFORM1", s("1J")),
        card("TUNIT1", s("adu")),
        card("TNULL1", Value::Integer(-99)),
        card("TFORM2", s("1PB(12)")),
        card("TDIM2", s("(3,4)")),
    ]);
    let cols = parse_columns(&h, false).unwrap();
    assert_eq!(cols.len(), 2);
    assert_eq!(cols[0].name, "FLUX");
    assert_eq!(cols[0].unit.as_deref(), Some("adu"));
    assert_eq!(cols[0].null_int, Some(-99));
    assert_eq!(cols[0].null_str, None);
    assert_eq!(cols[0].format, ColumnFormat::Binary(BinFormat::Fixed { ty: BinType::I32, count: 1 }));
    assert_eq!(cols[1].name, "");
    assert_eq!(cols[1].dim, Some(vec![3, 4]));
    assert_eq!(
        cols[1].format,
        ColumnFormat::Binary(BinFormat::Var { kind: VarKind::P, elem: BinType::Byte, max: Some(12) })
    );
}

#[test]
fn ascii_columns_start_at_tbcol_minus_one() {
    let h = header_of(&[
        card("TFIELDS", Value::Integer(2)),
        card("TFORM1", s("I5")),
        card("TBCOL1", Value::Integer(1)),
        card("TNULL1", s(" -1")),
        card("TFORM2", s("F8.3")),
        card("TBCOL2", Value::Integer(7)),
        card("TNULL2", s("N/A")),
    ]);
    let cols = parse_columns(&h, true).unwrap();
    assert_eq!(cols[0].format, ColumnFormat::Ascii { start: 0, format: AsciiFormat::Int(5) });
    assert_eq!(cols[0].null_int, Some(-1));
    assert_eq!(cols[0].null_str.as_deref(), Some(" -1"));
    assert_eq!(cols[1].format, ColumnFormat::Ascii { start: 6, format: AsciiFormat::Fixed { width: 8, decimals: 3 } });
    assert_eq!(cols[1].null_int, None);
    assert_eq!(cols[1].null_str.as_deref(), Some("N/A"));
}

#[test]
fn missing_or_bad_keywords_are_refused() {
    let no_tfields = header_of(&[card("TFORM1", s("J"))]);
    assert!(matches!(parse_columns(&no_tfields, false), Err(FitsError::Processing(_))));
    let negative = header_of(&[card("TFIELDS", Value::Integer(-1))]);
    assert!(matches!(parse_columns(&negative, false), Err(FitsError::Processing(_))));
    let missing_tform = header_of(&[card("TFIELDS", Value::Integer(2)), card("TFORM1", s("J"))]);
    assert!(matches!(parse_columns(&missing_tform, false), Err(FitsError::Processing(_))));
    let missing_tbcol = header_of(&[card("TFIELDS", Value::Integer(1)), card("TFORM1", s("A3"))]);
    assert!(matches!(parse_columns(&missing_tbcol, true), Err(FitsError::Processing(_))));
    let zero_tbcol =
        header_of(&[card("TFIELDS", Value::Integer(1)), card("TFORM1", s("A3")), card("TBCOL1", Value::Integer(0))]);
    assert!(matches!(parse_columns(&zero_tbcol, true), Err(FitsError::Processing(_))));
    let empty = header_of(&[card("TFIELDS", Value::Integer(0))]);
    assert_eq!(parse_columns(&empty, false).unwrap().len(), 0);
}
