use photonyx::error::FitsError;
use photonyx::rice::{decode, encode};

#[test]
fn zero_pixels_is_empty() {
    assert_eq!(decode(&[], 0, 2, 32).unwrap(), Vec::<i64>::new());
}

#[test]
fn all_zero_diff_block_repeats_the_first_pixel() {
    let src = [0x40u8, 0x00];
    let out = decode(&src, 4, 1, 32).unwrap();
    assert_eq!(out, vec![0x40, 0x40, 0x40, 0x40]);
}

#[test]
fn truncated_stream_errors_without_panicking() {
    let err = decode(&[0x00], 8, 2, 32).unwrap_err();
    assert!(matches!(err, FitsError::UnsupportedCompression(_)));
}

fn roundtrip(pixels: &[i64], bytepix: usize, blocksize: usize) {
    let enc = encode(pixels, bytepix, blocksize).unwrap();
    let dec = decode(&enc, pixels.len(), bytepix, blocksize).unwrap();
    assert_eq!(dec, pixels, "bytepix={bytepix} blocksize={blocksize}");
}

#[test]
fn encode_decode_roundtrip_across_shapes_and_widths() {
    let ramp: Vec<i64> = (0..200).map(|i| (i * 3 - 100) as i64).collect();
    let flat: Vec<i64> = vec![7; 150];
    let mut noisy = Vec::new();
    let mut s: u64 = 0x1234_5678;
    for _ in 0..300 {
        s = s.wrapping_mul(6364136223846793005).wrapping_add(1);
        noisy.push(((s >> 40) as i16) as i64);
    }

    for &bs in &[4usize, 16, 32] {
        roundtrip(&ramp, 2, bs);
        roundtrip(&flat, 2, bs);
        roundtrip(&noisy, 2, bs);
        roundtrip(&ramp, 4, bs);
    }
    roundtrip(&[42], 1, 32);
    roundtrip(&(0..64).map(|i| (i % 256) as i64).collect::<Vec<_>>(), 1, 32);
}

#[test]
fn unsupported_parameters_are_compression_errors() {
    assert!(matches!(decode(&[1, 2, 3], 1, 3, 32), Err(FitsError::UnsupportedCompression(_))));
    assert!(matches!(decode(&[1, 2, 3], 1, 2, 0), Err(FitsError::UnsupportedCompression(_))));
    assert!(matches!(decode(&[1], 1, 2, 32), Err(FitsError::UnsupportedCompression(_))));
    assert!(matches!(encode(&[1], 8, 32), Err(FitsError::UnsupportedCompression(_))));
    assert!(matches!(encode(&[1], 2, 0), Err(FitsError::UnsupportedCompression(_))));
    assert_eq!(encode(&[], 2, 32).unwrap(), Vec::<u8>::new());
}

#[test]
fn encoded_tile_starts_with_the_first_pixel_big_endian() {
    let enc = encode(&[0x1234, 0x1234, 0x1234], 2, 32).unwrap();
    assert_eq!(&enc[..2], &[0x12, 0x34]);
    // all-zero block: a 4-bit zero mode field, padded to a byte
    assert_eq!(enc.len(), 3);
    assert_eq!(enc[2], 0);
    assert_eq!(decode(&enc, 3, 2, 32).unwrap(), vec![0x1234, 0x1234, 0x1234]);
}

#[test]
fn extreme_values_roundtrip_at_every_width() {
    roundtrip(&[0, 255, 0, 255, 128, 127], 1, 2);
    roundtrip(&[i16::MIN as i64, i16::MAX as i64, 0, -1, 1], 2, 3);
    roundtrip(&[i32::MIN as i64, i32::MAX as i64, 0, -1, 1, i32::MIN as i64], 4, 32);
}

#[test]
fn unsupported_bytepix_error_names_the_value() {
    match encode(&[1, 2, 3], 3, 32) {
        Err(FitsError::UnsupportedCompression(m)) => assert_eq!(m, "RICE_1 BYTEPIX=3 (only 1, 2, 4 are supported)"),
        other => panic!("unexpected {:?}", other),
    }
    match decode(&[0, 0, 0], 3, 8, 32) {
        Err(FitsError::UnsupportedCompression(m)) => assert_eq!(m, "RICE_1 BYTEPIX=8 (only 1, 2, 4 are supported)"),
        other => panic!("unexpected {:?}", other),
    }
}

#[test]
fn large_four_byte_blocks_round_trip_when_no_unary_run_is_too_long() {
    let px: Vec<i64> = (0..400_000i64).map(|i| (i % 5) - 2).collect();
    let bytes = encode(&px, 4, 400_000).unwrap();
    assert_eq!(decode(&bytes, px.len(), 4, 400_000).unwrap(), px);
}

#[test]
fn a_unary_run_past_the_decoder_limit_does_not_decode() {
    let mut px: Vec<i64> = vec![0; 600_000];
    px[599_999] = i32::MAX as i64;
    let bytes = encode(&px, 4, 600_000).unwrap();
    assert!(decode(&bytes, px.len(), 4, 600_000).is_err());
}
