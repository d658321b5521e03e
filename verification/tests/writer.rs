use photonyx::block::{BLOCK_SIZE, CARD_SIZE};
use photonyx::card::{Card, Value};
use photonyx::error::FitsError;
use photonyx::header::{BitPix, Header};
use photonyx::source::SliceSource;
use photonyx::writer::{
    apply_edits, edited_header, header_bytes, insert_before_trailing_commentary, is_structural_keyword,
    serialize_card, validate_user_keyword, CardEdit, FitsWriter, HeaderBuilder,
};

fn text(bytes: &[u8]) -> String {
    String::from_utf8(bytes.to_vec()).unwrap()
}

#[test]
fn primary_header_is_block_aligned_and_ordered() {
    let h = HeaderBuilder::primary_image(BitPix::I16, &[4, 3]).unwrap();
    let bytes = h.serialize().unwrap();
    assert_eq!(bytes.len() % BLOCK_SIZE, 0);

    let head = text(&bytes[..CARD_SIZE * 6]);
    assert!(head.starts_with("SIMPLE  =                    T"));
    assert!(head[80..].starts_with("BITPIX  =                   16"));
    assert!(head[160..].starts_with("NAXIS   =                    2"));
    assert!(head[240..].starts_with("NAXIS1  =                    4"));
    assert!(head[320..].starts_with("NAXIS2  =                    3"));
    assert!(head[400..].starts_with("EXTEND  =                    T"));
}

#[test]
fn header_builder_rejects_structural_and_bad_keywords() {
    let h = HeaderBuilder::primary_image(BitPix::U8, &[1]).unwrap();
    assert!(h.clone().card("NAXIS1", Value::Integer(9), None).is_err());
    assert!(h.clone().card("bitpix", Value::Integer(8), None).is_err());
    assert!(h.clone().card("lowercase", Value::Integer(1), None).is_err());
    assert!(h.clone().card("TOOLONGKEY", Value::Integer(1), None).is_err());
    assert!(h.card("FILTER", Value::String("Ha".into()), Some("narrowband")).is_ok());
}

#[test]
fn extra_cards_appear_after_mandatory_block() {
    let h = HeaderBuilder::primary_image(BitPix::U8, &[2, 2])
        .unwrap()
        .set_str("FILTER", "Ha", Some("narrowband"))
        .unwrap()
        .card("EXPTIME", Value::Float("120.0".to_string()), Some("seconds"))
        .unwrap();
    let bytes = h.serialize().unwrap();
    let t = text(&bytes[..BLOCK_SIZE]);
    assert!(t.contains("FILTER  = 'Ha      '"));
    assert!(t.contains("EXPTIME =                120.0"));
    let filter_at = t.find("FILTER").unwrap();
    let naxis2_at = t.find("NAXIS2").unwrap();
    assert!(filter_at > naxis2_at);
}

#[test]
fn image_extension_header_starts_with_xtension_and_counts() {
    let h = HeaderBuilder::image_ext(BitPix::F32, &[5]).unwrap();
    let bytes = h.serialize().unwrap();
    let t = text(&bytes);
    assert!(t.starts_with("XTENSION= 'IMAGE   '"));
    assert!(t[80..].starts_with("BITPIX  =                  -32"));
    assert!(t[160..].starts_with("NAXIS   =                    1"));
    assert!(t[240..].starts_with("NAXIS1  =                    5"));
    assert!(t[320..].starts_with("PCOUNT  =                    0"));
    assert!(t[400..].starts_with("GCOUNT  =                    1"));
    assert!(t[480..].starts_with("END"));
    assert_eq!(h.row_len(), 5);
    assert_eq!(h.total_rows(), 1);
    assert_eq!(h.bitpix(), BitPix::F32);
}

#[test]
fn typed_setters_and_comments_serialize() {
    let h = HeaderBuilder::primary_image(BitPix::U8, &[3, 2])
        .unwrap()
        .set_i64("GAIN", 120, None)
        .unwrap()
        .set_bool("FLIPPED", false, Some("no"))
        .unwrap()
        .comment("made here")
        .unwrap();
    let bytes = h.serialize().unwrap();
    let t = text(&bytes);
    assert!(t.contains("GAIN    =                  120"));
    assert!(t.contains("FLIPPED =                    F / no"));
    assert!(t.contains("COMMENT made here"));
    assert_eq!(h.row_len(), 3);
    assert_eq!(h.total_rows(), 2);
}

#[test]
fn structural_keywords_are_recognised() {
    for kw in ["SIMPLE", "bitpix", "NAXIS", "NAXIS12", "XTENSION", "PCOUNT", "GCOUNT", "EXTEND", "END"] {
        assert!(is_structural_keyword(kw), "{kw}");
    }
    for kw in ["FILTER", "NAXISX", "EXPTIME"] {
        assert!(!is_structural_keyword(kw), "{kw}");
    }
    assert!(validate_user_keyword("DATE-OBS").is_ok());
    assert!(validate_user_keyword("").is_ok());
    assert!(validate_user_keyword("HISTORY").is_ok());
    assert!(validate_user_keyword("A B").is_err());
}

#[test]
fn serialize_card_formats_each_value_kind() {
    let c = serialize_card("OBJECT", &Value::String("it's".into()), Some("target")).unwrap();
    assert_eq!(text(&c).trim_end(), "OBJECT  = 'it''s   '           / target");
    let c = serialize_card("NAXIS1", &Value::Integer(42), None).unwrap();
    assert_eq!(text(&c).trim_end(), "NAXIS1  =                   42");
    let c = serialize_card("HISTORY", &Value::Commentary("done".into()), None).unwrap();
    assert_eq!(text(&c).trim_end(), "HISTORY done");
    let c = serialize_card("BAD", &Value::Invalid("x = ,,".into()), None).unwrap();
    assert_eq!(text(&c).trim_end(), "BAD     x = ,,");
    assert!(serialize_card("LONG", &Value::String("x".repeat(80)), None).is_err());
}

#[test]
fn update_header_refuses_structural_keywords() {
    let cards = vec![
        Card::new("SIMPLE".into(), Value::Logical(true), None),
        Card::new("BITPIX".into(), Value::Integer(16), None),
    ];
    for kw in ["NAXIS1", "BITPIX", "SIMPLE"] {
        let edits = vec![CardEdit::set(kw.into(), Value::Integer(1))];
        assert!(apply_edits(&cards, &edits).is_err(), "editing {kw} should be rejected");
        let edits = vec![CardEdit::remove(kw.into())];
        assert!(apply_edits(&cards, &edits).is_err());
    }
}

#[test]
fn edits_replace_insert_and_remove() {
    let cards = vec![
        Card::new("SIMPLE".into(), Value::Logical(true), None),
        Card::new("FILTER".into(), Value::String("clear".into()), None),
        Card::new("EXPTIME".into(), Value::Integer(10), None),
        Card::new("HISTORY".into(), Value::Commentary("old".into()), None),
    ];
    let edits = vec![
        CardEdit::set_with_comment("FILTER".into(), Value::String("narrowband".into()), "f".into()),
        CardEdit::remove("EXPTIME".into()),
        CardEdit::set("OBJECT".into(), Value::String("M31".into())),
    ];
    let out = apply_edits(&cards, &edits).unwrap();
    let kws: Vec<&str> = out.iter().map(|c| c.keyword.as_str()).collect();
    assert_eq!(kws, vec!["SIMPLE", "FILTER", "OBJECT", "HISTORY"]);
    assert_eq!(out[1].value, Value::String("narrowband".into()));
    assert_eq!(out[1].comment.as_deref(), Some("f"));

    let mut cs = cards.clone();
    insert_before_trailing_commentary(&mut cs, Card::new("NEW".into(), Value::Integer(1), None));
    assert_eq!(cs[3].keyword, "NEW");
    assert_eq!(cs[4].keyword, "HISTORY");

    let bytes = header_bytes(&out).unwrap();
    assert_eq!(bytes.len(), BLOCK_SIZE);
    assert!(text(&bytes[4 * 80..5 * 80]).starts_with("END"));
}

#[test]
fn writer_checks_pixel_type_and_hdu_order() {
    let mut w = FitsWriter::new(Vec::<u8>::new());
    let p = HeaderBuilder::primary_image(BitPix::I16, &[2, 2]).unwrap();
    let e = HeaderBuilder::image_ext(BitPix::I16, &[2]).unwrap();
    assert!(matches!(w.image_header(&p, Some(-32)), Err(FitsError::Processing(_))));
    assert!(matches!(w.image_header(&e, Some(16)), Err(FitsError::Processing(_))));
    let bytes = w.image_header(&p, Some(16)).unwrap();
    assert_eq!(bytes, p.serialize().unwrap());
    w.record_hdu();
    assert_eq!(w.hdus_written(), 1);
    assert!(w.image_header(&p, Some(16)).is_err());
    assert!(w.image_header(&e, Some(16)).is_ok());
    w.inner_mut().extend_from_slice(&bytes);
    assert_eq!(w.into_inner().len(), BLOCK_SIZE);
}

#[test]
fn written_header_reads_back_the_same_cards() {
    let mut cards = vec![
        Card::new("SIMPLE".into(), Value::Logical(true), None),
        Card::new("BITPIX".into(), Value::Integer(-32), Some("floats".into())),
        Card::new("OBJECT".into(), Value::String("M31".into()), Some("Andromeda".into())),
        Card::new("EXPTIME".into(), Value::Float("1.5E2".into()), None),
        Card::new("BLANKV".into(), Value::Undefined, None),
    ];
    for i in 0..40 {
        cards.push(Card::new(format!("KEY{i:03}"), Value::Integer(i), None));
    }
    let bytes = header_bytes(&cards).unwrap();
    assert_eq!(bytes.len(), 2 * BLOCK_SIZE);
    let h = Header::read(&SliceSource::new(bytes), 0).unwrap();
    assert_eq!(h.cards(), cards.as_slice());
    assert_eq!(h.byte_len(), 2 * BLOCK_SIZE as u64);
}

fn read_header(bytes: Vec<u8>) -> Header {
    Header::read(&SliceSource::new(bytes), 0).unwrap()
}

#[test]
fn edited_header_fits_in_place_until_it_needs_another_block() {
    let cards = vec![
        Card::new("SIMPLE".into(), Value::Logical(true), None),
        Card::new("BITPIX".into(), Value::Integer(8), None),
        Card::new("NAXIS".into(), Value::Integer(0), None),
        Card::new("OBJECT".into(), Value::String("M31".into()), None),
    ];
    let header = read_header(header_bytes(&cards).unwrap());
    let (bytes, same) = edited_header(&header, &[CardEdit::set("OBJECT".into(), Value::String("M33".into()))]).unwrap();
    assert!(same);
    let back = read_header(bytes);
    assert_eq!(back.get_string("OBJECT"), Some("M33"));
    assert_eq!(back.cards().len(), 4);

    let many: Vec<CardEdit> = (0..40).map(|i| CardEdit::set(format!("KEY{i}"), Value::Integer(i))).collect();
    let (bytes, same) = edited_header(&header, &many).unwrap();
    assert!(!same);
    assert_eq!(bytes.len(), 2 * BLOCK_SIZE);
    let back = read_header(bytes);
    assert_eq!(back.get_i64("KEY39"), Some(39));
    assert_eq!(back.cards().len(), 44);
}

#[test]
fn edited_header_refuses_structural_edits() {
    let cards = vec![Card::new("SIMPLE".into(), Value::Logical(true), None)];
    let header = read_header(header_bytes(&cards).unwrap());
    assert!(matches!(
        edited_header(&header, &[CardEdit::remove("BITPIX".into())]),
        Err(FitsError::Processing(_))
    ));
}

#[test]
fn image_writer_finish_errors_if_rows_missing() {
    let h = HeaderBuilder::primary_image(BitPix::U8, &[2, 3]).unwrap();
    let mut rows = h.image_rows();
    assert_eq!(rows.accept_row(2).unwrap(), 2);
    assert!(rows.finish().is_err());
}

#[test]
fn image_rows_track_rows_and_pad_to_a_block() {
    let h = HeaderBuilder::primary_image(BitPix::I16, &[2, 1]).unwrap();
    let mut rows = h.image_rows();
    assert_eq!(rows.rows_left(), 1);
    assert_eq!(rows.row_bytes(), 4);
    assert!(matches!(rows.finish(), Err(FitsError::Processing(_))));
    assert!(matches!(rows.accept_row(3), Err(FitsError::BufferLenMismatch { expected: 2, got: 3 })));
    assert_eq!(rows.rows_left(), 1);
    assert_eq!(rows.accept_row(2).unwrap(), 4);
    assert_eq!(rows.rows_left(), 0);
    assert!(matches!(rows.accept_row(2), Err(FitsError::Processing(_))));
    assert_eq!(rows.finish().unwrap(), BLOCK_SIZE as u64 - 4);
}

#[test]
fn image_rows_of_a_full_block_need_no_padding() {
    let h = HeaderBuilder::primary_image(BitPix::U8, &[2880, 2]).unwrap();
    let mut rows = h.image_rows();
    assert_eq!(rows.accept_row(2880).unwrap(), 2880);
    assert_eq!(rows.accept_row(2880).unwrap(), 2880);
    assert_eq!(rows.finish().unwrap(), 0);
}

#[test]
fn data_len_is_row_length_times_rows() {
    let h = HeaderBuilder::primary_image(BitPix::U8, &[4, 4]).unwrap();
    assert_eq!(h.data_len(), 16);
    let e = HeaderBuilder::primary_image(BitPix::I32, &[3, 4, 2]).unwrap();
    assert_eq!(e.data_len(), 24);
    let z = HeaderBuilder::primary_image(BitPix::I32, &[3, 0, 2]).unwrap();
    assert_eq!(z.data_len(), 0);
    let none = HeaderBuilder::primary_image(BitPix::U8, &[]).unwrap();
    assert_eq!(none.data_len(), 0);
    assert_eq!(none.image_rows().finish().unwrap(), 0);
}

#[test]
fn keyword_errors_name_the_keyword() {
    match validate_user_keyword("NAXIS1") {
        Err(FitsError::Processing(m)) => assert_eq!(m, "NAXIS1 is a structural keyword and is managed by the writer"),
        other => panic!("unexpected {:?}", other),
    }
    match validate_user_keyword("lower") {
        Err(FitsError::Processing(m)) => {
            assert_eq!(m, "invalid FITS keyword \"lower\": must be 1-8 chars of A-Z, 0-9, '-', '_'")
        }
        other => panic!("unexpected {:?}", other),
    }
    let edits = vec![CardEdit::set("BITPIX".to_string(), Value::Integer(8))];
    match apply_edits(&[], &edits) {
        Err(FitsError::Processing(m)) => assert_eq!(m, "BITPIX is a structural keyword and cannot be edited"),
        other => panic!("unexpected {:?}", other),
    }
}

#[test]
fn begin_image_hdu_checks_pixel_type_and_order() {
    let primary = HeaderBuilder::primary_image(BitPix::I16, &[2, 1]).unwrap();
    let ext = HeaderBuilder::image_ext(BitPix::I16, &[2, 1]).unwrap();
    let mut w = FitsWriter::new(Vec::<u8>::new());
    assert!(matches!(w.begin_image_hdu(&primary, Some(-32)), Err(FitsError::Processing(_))));
    assert!(matches!(w.begin_image_hdu(&ext, Some(16)), Err(FitsError::Processing(_))));
    assert_eq!(w.hdus_written(), 0);
    let (bytes, rows) = w.begin_image_hdu(&primary, Some(16)).unwrap();
    assert_eq!(bytes.len(), BLOCK_SIZE);
    assert!(bytes.starts_with(b"SIMPLE  ="));
    assert_eq!(rows.rows_left(), 1);
    assert_eq!(rows.row_bytes(), 4);
    w.record_hdu();
    assert_eq!(w.hdus_written(), 1);
    assert!(matches!(w.begin_image_hdu(&primary, Some(16)), Err(FitsError::Processing(_))));
    assert!(w.begin_image_hdu(&ext, Some(16)).is_ok());
}

#[test]
fn check_data_len_names_the_expected_count() {
    let h = HeaderBuilder::primary_image(BitPix::U8, &[4, 4]).unwrap();
    assert!(h.check_data_len(16).is_ok());
    assert!(matches!(h.check_data_len(15), Err(FitsError::BufferLenMismatch { expected: 16, got: 15 })));
}
