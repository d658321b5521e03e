use photonyx::card::{Card, Value};

fn parse_line(line: &str) -> Card {
    let mut bytes = [b' '; 80];
    let src = line.as_bytes();
    let n = src.len().min(80);
    bytes[..n].copy_from_slice(&src[..n]);
    Card::parse(&bytes)
}

fn s(x: &str) -> String {
    x.to_string()
}

#[test]
fn parses_logical() {
    let c = parse_line("SIMPLE  =                    T / conforms to FITS standard");
    assert_eq!(c.keyword, "SIMPLE");
    assert_eq!(c.value, Value::Logical(true));
    assert_eq!(c.comment.as_deref(), Some("conforms to FITS standard"));
}

#[test]
fn parses_integer() {
    let c = parse_line("NAXIS1  =                   64 / axis 1 length");
    assert_eq!(c.value, Value::Integer(64));
}

#[test]
fn parses_negative_integer() {
    let c = parse_line("BLANK   =               -32768 / undefined pixel value");
    assert_eq!(c.value, Value::Integer(-32768));
}

#[test]
fn parses_float() {
    let c = parse_line("BZERO   =              32768.0 / unsigned 16-bit convention");
    assert_eq!(c.value, Value::Float(s("32768.0")));
    if let Value::Float(t) = &c.value {
        assert_eq!(t.parse::<f64>().unwrap(), 32768.0);
    }
}

#[test]
fn parses_float_with_d_exponent() {
    let c = parse_line("EXPTIME =            1.5D2 / exposure");
    assert_eq!(c.value, Value::Float(s("1.5E2")));
    if let Value::Float(t) = &c.value {
        assert_eq!(t.parse::<f64>().unwrap(), 150.0);
    }
}

#[test]
fn parses_string() {
    let c = parse_line("OBJECT  = 'M42     '           / target");
    assert_eq!(c.value, Value::String(s("M42")));
    assert_eq!(c.comment.as_deref(), Some("target"));
}

#[test]
fn parses_string_with_escaped_quote() {
    let c = parse_line("NOTE    = 'it''s a test'");
    assert_eq!(c.value, Value::String(s("it's a test")));
}

#[test]
fn parses_string_with_embedded_slash_not_a_comment() {
    let c = parse_line("PATH    = '/dev/null' / a path, not a comment start inside quotes");
    assert_eq!(c.value, Value::String(s("/dev/null")));
    assert_eq!(c.comment.as_deref(), Some("a path, not a comment start inside quotes"));
}

#[test]
fn parses_undefined_value() {
    let c = parse_line("FOO     =                      / no value given");
    assert_eq!(c.value, Value::Undefined);
    assert_eq!(c.comment.as_deref(), Some("no value given"));
}

#[test]
fn parses_complex() {
    let c = parse_line("CVAL    = (1.5, -2.5)");
    assert_eq!(c.value, Value::Complex(s("1.5"), s("-2.5")));
}

#[test]
fn parses_comment_keyword() {
    let c = parse_line("COMMENT this is free text, not key=value");
    assert_eq!(c.keyword, "COMMENT");
    assert_eq!(c.value, Value::Commentary(s("this is free text, not key=value")));
}

#[test]
fn parses_history_keyword() {
    let c = parse_line("HISTORY processed by px-fits");
    assert_eq!(c.keyword, "HISTORY");
    assert_eq!(c.value, Value::Commentary(s("processed by px-fits")));
}

#[test]
fn parses_blank_keyword_as_commentary() {
    let c = parse_line("        free-standing text on a blank-keyword card");
    assert_eq!(c.keyword, "");
    assert!(matches!(c.value, Value::Commentary(_)));
}

#[test]
fn parses_end_card() {
    let c = parse_line("END");
    assert_eq!(c.keyword, "END");
    assert_eq!(c.value, Value::Commentary(String::new()));
}

#[test]
fn parses_continue_card() {
    let c = parse_line("CONTINUE  'more text&'");
    assert_eq!(c.keyword, "CONTINUE");
    assert_eq!(c.value, Value::String(s("more text&")));
}

#[test]
fn parses_hierarch_card() {
    let c = parse_line("HIERARCH ESO OBS ID = 12345 / observation id");
    assert_eq!(c.keyword, "HIERARCH ESO OBS ID");
    assert_eq!(c.value, Value::Integer(12345));
    assert_eq!(c.comment.as_deref(), Some("observation id"));
}

#[test]
fn malformed_card_becomes_invalid_not_a_panic() {
    let c = parse_line("BADCARD!!!!not a valid value syntax at all,,,,");
    assert_eq!(c.keyword, "BADCARD!");
    assert!(matches!(c.value, Value::Invalid(_)));
}

#[test]
fn non_ascii_bytes_do_not_panic() {
    let mut bytes = [b' '; 80];
    bytes[0] = b'A';
    bytes[1] = 0xFF;
    let c = Card::parse(&bytes);
    let _ = c;
}

#[test]
fn to_bytes_is_exactly_80_bytes() {
    let c = Card::new(s("SIMPLE"), Value::Logical(true), Some(s("ok")));
    assert_eq!(c.to_bytes().len(), 80);
}

#[test]
fn roundtrip_logical() {
    let c = Card::new(s("SIMPLE"), Value::Logical(true), Some(s("conforms")));
    let bytes = c.to_bytes();
    assert_eq!(Card::parse(&bytes), c);
}

#[test]
fn roundtrip_integer() {
    let c = Card::new(s("NAXIS1"), Value::Integer(-42), None);
    let bytes = c.to_bytes();
    assert_eq!(Card::parse(&bytes), c);
}

#[test]
fn roundtrip_string() {
    let c = Card::new(s("OBJECT"), Value::String(s("M42")), Some(s("target")));
    let bytes = c.to_bytes();
    assert_eq!(Card::parse(&bytes), c);
}

#[test]
fn roundtrip_string_with_quote() {
    let c = Card::new(s("NOTE"), Value::String(s("it's a test")), None);
    let bytes = c.to_bytes();
    assert_eq!(Card::parse(&bytes), c);
}

#[test]
fn roundtrip_commentary() {
    let c = Card::new(s("COMMENT"), Value::Commentary(s("hello world")), None);
    let bytes = c.to_bytes();
    assert_eq!(Card::parse(&bytes), c);
}

#[test]
fn roundtrip_undefined() {
    let c = Card::new(s("FOO"), Value::Undefined, Some(s("tbd")));
    let bytes = c.to_bytes();
    assert_eq!(Card::parse(&bytes), c);
}

#[test]
fn roundtrip_hierarch() {
    let c = Card::new(s("HIERARCH ESO OBS ID"), Value::Integer(7), Some(s("id")));
    let bytes = c.to_bytes();
    assert_eq!(Card::parse(&bytes), c);
}

#[test]
fn roundtrip_float_and_extreme_integers() {
    for v in [
        Value::Float(s("1.25E-3")),
        Value::Float(s("-0.5")),
        Value::Integer(i64::MIN),
        Value::Integer(i64::MAX),
        Value::String(String::new()),
    ] {
        let c = Card::new(s("KEY-1"), v, Some(s("x / y")));
        assert_eq!(Card::parse(&c.to_bytes()), c);
    }
}

#[test]
fn serialized_card_layout() {
    let c = Card::new(s("NAXIS"), Value::Integer(2), Some(s("axes")));
    let b = c.to_bytes();
    assert_eq!(&b[..16], b"NAXIS   = 2 / ax");
    assert!(b[20..].iter().all(|&x| x == b' '));
    let cont = Card::new(s("continue"), Value::String(s("tail")), Some(s("dropped")));
    assert!(cont.to_bytes().starts_with(b"CONTINUE  'tail'  "));
}

#[test]
fn unclosed_string_takes_the_rest_of_the_field() {
    let c = parse_line("NOTE    = 'never closed   ");
    assert_eq!(c.value, Value::String(s("never closed")));
    assert_eq!(c.comment, None);
}

#[test]
fn non_float_token_is_invalid_with_raw_text() {
    let c = parse_line("FOO     = 1.2.3 / not a number");
    assert_eq!(c.value, Value::Invalid(s("1.2.3 / not a number")));
    assert_eq!(c.comment, None);
    let d = parse_line("BAR     = inf");
    assert_eq!(d.value, Value::Float(s("inf")));
    let e = parse_line("BAZ     = .5");
    assert_eq!(e.value, Value::Float(s(".5")));
}

#[test]
fn too_long_comment_is_dropped_not_cut() {
    let long = "x".repeat(70);
    let c = Card::new("EXPTIME".to_string(), Value::Integer(120), Some(long));
    let bytes = c.to_bytes();
    let text = String::from_utf8(bytes.to_vec()).unwrap();
    assert_eq!(text, format!("{:<80}", "EXPTIME = 120"));
    let back = Card::parse(&bytes);
    assert_eq!(back.keyword, "EXPTIME");
    assert!(matches!(back.value, Value::Integer(120)));
    assert!(back.comment.is_none());
}

#[test]
fn comment_that_fits_exactly_is_kept() {
    // "EXPTIME = 120" is 13 bytes; " / " adds 3; 64 more reach 80.
    let c = Card::new("EXPTIME".to_string(), Value::Integer(120), Some("y".repeat(64)));
    let back = Card::parse(&c.to_bytes());
    assert_eq!(back.comment.as_deref(), Some("y".repeat(64).as_str()));
}
