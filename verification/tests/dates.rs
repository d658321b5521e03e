use photonyx::block::BLOCK_SIZE;
use photonyx::card::{Card, Value};
use photonyx::dates::{date_utc, observation_parts, path_date};
use photonyx::header::Header;
use photonyx::source::SliceSource;

fn header_with(cards: &[(&str, &str)]) -> Header {
    let mut bytes = Vec::new();
    bytes.extend_from_slice(&Card::new("SIMPLE".to_string(), Value::Logical(true), None).to_bytes());
    for (k, v) in cards {
        bytes.extend_from_slice(&Card::new(k.to_string(), Value::String(v.to_string()), None).to_bytes());
    }
    bytes.extend_from_slice(&Card::new("END".to_string(), Value::Commentary(String::new()), None).to_bytes());
    bytes.resize(BLOCK_SIZE, b' ');
    Header::read(&SliceSource::new(bytes), 0).unwrap()
}

#[test]
fn path_date_reads_a_date_folder_at_midnight() {
    assert_eq!(path_date("/obs/M31/2025-06-25/RAW_300_Ha"), Some((2025, 6, 25, 0, 0, 0, 0)));
}

#[test]
fn path_date_reads_a_time_stamp() {
    assert_eq!(path_date("Light_20240102-030405_300s.fits"), Some((2024, 1, 2, 3, 4, 5, 0)));
}

#[test]
fn path_date_falls_back_to_the_stamp_when_the_date_is_not_a_date() {
    assert_eq!(path_date("2025-13-01/x_20240102-030405"), Some((2024, 1, 2, 3, 4, 5, 0)));
    assert_eq!(path_date("2025-13-01/x"), None);
    assert_eq!(path_date("no date here"), None);
}

#[test]
fn path_date_takes_the_first_date_run() {
    assert_eq!(path_date("2024-02-29/2025-06-25"), Some((2024, 2, 29, 0, 0, 0, 0)));
}

#[test]
fn observation_parts_of_a_leaf_folder() {
    let o = observation_parts("RAW_300_OIII_Narrow", Some("2025-06-25"), "NGC_7000").unwrap();
    assert!(o.is_raw);
    assert_eq!(o.exposure, "300");
    assert_eq!(o.filter, "OIII_Narrow");
    assert_eq!(o.date, Some((2025, 6, 25)));
    assert_eq!(o.target, "NGC_7000");
    let undated = observation_parts("PP_120_Ha", Some("misc"), "M31").unwrap();
    assert!(!undated.is_raw);
    assert_eq!(undated.date, None);
    assert_eq!(observation_parts("PP_120_Ha", None, "M31").unwrap().date, None);
    assert!(observation_parts("notes", Some("2025-06-25"), "M31").is_none());
}

#[test]
fn date_utc_reads_rfc3339_with_its_offset() {
    let h = header_with(&[("DATE-OBS", "2024-01-02T03:04:05+02:00")]);
    assert_eq!(date_utc(&h, "DATE-OBS"), Some((1704157445, 0, 7200)));
}

#[test]
fn date_utc_reads_an_iso_date_time_as_utc() {
    let h = header_with(&[("DATE-OBS", "2024-01-02T03:04:05.5")]);
    assert_eq!(date_utc(&h, "DATE-OBS"), Some((1704164645, 500_000_000, 0)));
    let bad = header_with(&[("DATE-OBS", "yesterday")]);
    assert_eq!(date_utc(&bad, "DATE-OBS"), None);
    assert_eq!(date_utc(&bad, "DATE-END"), None);
}
