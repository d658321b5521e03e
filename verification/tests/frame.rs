use std::path::PathBuf;

use photonyx::block::BLOCK_SIZE;
use photonyx::card::{Card, Value};
use photonyx::frame::{is_fits_extension, preview_factor, Binning, FitsFile};
use photonyx::hdu::discover_one;
use photonyx::source::SliceSource;

fn file_with(cards: &[(&str, Value)]) -> FitsFile {
    let mut bytes = Vec::new();
    for (k, v) in cards {
        bytes.extend_from_slice(&Card::new(k.to_string(), v.clone(), None).to_bytes());
    }
    bytes.extend_from_slice(&Card::new("END".to_string(), Value::Commentary(String::new()), None).to_bytes());
    bytes.resize(BLOCK_SIZE, b' ');
    let hdu = discover_one(&SliceSource::new(bytes), 0, true).unwrap();
    FitsFile::from_primary(PathBuf::from("frame.fits"), hdu)
}

#[test]
fn is_color_false_for_plain_2d_frame() {
    let f = file_with(&[
        ("SIMPLE", Value::Logical(true)),
        ("BITPIX", Value::Integer(8)),
        ("NAXIS", Value::Integer(2)),
        ("NAXIS1", Value::Integer(0)),
        ("NAXIS2", Value::Integer(0)),
    ]);
    assert!(!f.is_color());
    assert_eq!(f.headers(), vec!["SIMPLE", "BITPIX", "NAXIS", "NAXIS1", "NAXIS2"]);
    assert_eq!(f.primary_hdu.get_data_unit_byte_offset(), BLOCK_SIZE as u64);
    assert_eq!(f.primary_hdu.get_data_unit_byte_size(), 0);
}

#[test]
fn is_color_for_bayer_or_cube() {
    let bayer = file_with(&[("BITPIX", Value::Integer(8)), ("BAYERPAT", Value::String("RGGB".into()))]);
    assert!(bayer.is_color());
    let cube = file_with(&[
        ("BITPIX", Value::Integer(8)),
        ("NAXIS", Value::Integer(3)),
        ("NAXIS1", Value::Integer(0)),
        ("NAXIS2", Value::Integer(0)),
        ("NAXIS3", Value::Integer(0)),
    ]);
    assert!(cube.is_color());
}

#[test]
fn binning_defaults_and_reads_header() {
    assert_eq!(Binning::default(), Binning { x: 1, y: 1 });
    let f = file_with(&[("XBINNING", Value::Integer(2)), ("YBINNING", Value::Integer(258))]);
    let b = Binning::from_header(f.primary_hdu.get_header());
    assert_eq!(b, Binning { x: 2, y: 2 });
    assert_eq!(b.display_text(), "2x2");
}

#[test]
fn preview_factor_caps_the_longest_axis() {
    assert_eq!(preview_factor(1000, false), 1);
    assert_eq!(preview_factor(2048, false), 1);
    assert_eq!(preview_factor(2049, false), 2);
    assert_eq!(preview_factor(6200, false), 4);
    assert_eq!(preview_factor(1000, true), 2);
    assert_eq!(preview_factor(6200, true), 4);
    assert_eq!(preview_factor(5000, true), 4);
    assert_eq!(preview_factor(4097, true), 4);
}

#[test]
fn fits_extensions_match_in_any_case() {
    assert!(is_fits_extension("fits"));
    assert!(is_fits_extension("FIT"));
    assert!(is_fits_extension("FiTs"));
    assert!(!is_fits_extension("fts"));
    assert!(!is_fits_extension("fitsx"));
}
