use photonyx::bintable::{elem_span, int_cell_values, int_elems, logical_elems, raw_span, read_descriptor, BinLayout};
use photonyx::card::{Card, Value};
use photonyx::error::FitsError;
use photonyx::header::Header;
use photonyx::table::{AsciiFormat, BinFormat, BinType, ColumnFormat, VarKind};

fn header(cards: &[(&str, i64)]) -> Header {
    let cs = cards.iter().map(|(k, v)| Card::new(k.to_string(), Value::Integer(*v), None)).collect();
    Header::from_cards(cs, 2880)
}

fn fmt(s: &str) -> ColumnFormat {
    ColumnFormat::Binary(BinFormat::parse(s).unwrap())
}

#[test]
fn layout_places_fields_and_heap() {
    let h = header(&[("NAXIS1", 31), ("NAXIS2", 4), ("PCOUNT", 100)]);
    let formats = vec![fmt("J"), fmt("16A"), fmt("1PB"), fmt("17X")];
    let l = BinLayout::from_header(&h, &formats, 5760).unwrap();
    assert_eq!(l.field_offsets, vec![0, 4, 20, 28]);
    assert_eq!((l.row_bytes, l.nrows), (31, 4));
    assert_eq!(l.heap_start, 5760 + 124);
    assert_eq!(l.heap_len, 100);
}

#[test]
fn layout_honours_theap_and_rejects_bad_tables() {
    let h = header(&[("NAXIS1", 8), ("NAXIS2", 2), ("THEAP", 64)]);
    let l = BinLayout::from_header(&h, &vec![fmt("D")], 0).unwrap();
    assert_eq!((l.heap_start, l.heap_len), (64, 0));

    let too_wide = BinLayout::from_header(&h, &vec![fmt("D"), fmt("J")], 0);
    assert!(matches!(too_wide, Err(FitsError::Processing(_))));
    let ascii = vec![ColumnFormat::Ascii { start: 0, format: AsciiFormat::Int(4) }];
    assert!(matches!(BinLayout::from_header(&h, &ascii, 0), Err(FitsError::Processing(_))));
    let no_rows = header(&[("NAXIS1", 8)]);
    assert!(matches!(BinLayout::from_header(&no_rows, &vec![fmt("D")], 0), Err(FitsError::Processing(_))));
}

#[test]
fn descriptors_give_heap_spans() {
    let p = [0, 0, 0, 3, 0, 0, 0, 10];
    assert_eq!(read_descriptor(VarKind::P, &p), (3, 10));
    assert_eq!(raw_span(VarKind::P, &p, 13).unwrap(), (10, 3));
    assert!(matches!(raw_span(VarKind::P, &p, 12), Err(FitsError::HeapOutOfBounds)));
    assert_eq!(elem_span(VarKind::P, BinType::I32, &p, 22).unwrap(), (10, 12, 3));
    assert_eq!(elem_span(VarKind::P, BinType::Bit, &p, 11).unwrap(), (10, 1, 3));
    let neg = [0xff, 0xff, 0xff, 0xff, 0, 0, 0, 0];
    assert!(matches!(raw_span(VarKind::P, &neg, 100), Err(FitsError::HeapOutOfBounds)));
    let mut q = [0u8; 16];
    q[7] = 2;
    q[15] = 4;
    assert_eq!(elem_span(VarKind::Q, BinType::F64, &q, 20).unwrap(), (4, 16, 2));
}

#[test]
fn integer_and_logical_elements_decode_big_endian() {
    assert_eq!(int_elems(BinType::I16, &[0xff, 0xfe, 0x00, 0x05, 0x01]), Some(vec![-2, 5]));
    assert_eq!(int_elems(BinType::Byte, &[0xff, 0x01]), Some(vec![255, 1]));
    assert_eq!(int_elems(BinType::I32, &[0, 0, 1, 0]), Some(vec![256]));
    assert_eq!(int_elems(BinType::F32, &[0, 0, 1, 0]), None);
    assert_eq!(logical_elems(b"TF\0T"), vec![true, false, false, true]);
    let (v, any_null) = int_cell_values(&vec![1, -99, i64::MAX], Some(-99), Some(1));
    assert_eq!(v, vec![2, -99, i64::MIN]);
    assert!(any_null);
    let (w, none) = int_cell_values(&vec![1, 2], None, None);
    assert_eq!(w, vec![1, 2]);
    assert!(!none);
}
