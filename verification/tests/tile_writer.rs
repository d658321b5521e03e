use photonyx::card::Value;
use photonyx::compress::{CmpType, CompAlgo, CompressedGeometry};
use photonyx::error::FitsError;
use photonyx::header::{BitPix, Header};
use photonyx::source::SliceSource;
use photonyx::tile::decode_tile_bytes;
use photonyx::tile_writer::CompressedImageBuilder;

fn be32(b: &[u8]) -> usize {
    u32::from_be_bytes([b[0], b[1], b[2], b[3]]) as usize
}

/// Decodes every tile of a written compressed-image HDU back to raw pixels.
fn decode_all(bytes: &[u8], codec: CmpType, bitpix: BitPix, tile_pixels: &[usize]) -> (Header, Vec<Vec<i64>>) {
    let header = Header::read(&SliceSource::new(bytes.to_vec()), 0).unwrap();
    let data = &bytes[header.byte_len() as usize..];
    let nrows = header.get_i64("NAXIS2").unwrap() as usize;
    let heap = &data[8 * nrows..];
    let mut tiles = Vec::new();
    for r in 0..nrows {
        let count = be32(&data[8 * r..]);
        let off = be32(&data[8 * r + 4..]);
        let stored = &heap[off..off + count];
        let bytepix = bitpix.bytes_per_pixel();
        tiles.push(decode_tile_bytes(codec, stored, &[], &[], tile_pixels[r], bitpix, bytepix, 32).unwrap());
    }
    (header, tiles)
}

#[test]
fn floating_point_images_are_refused() {
    let r = CompressedImageBuilder::new(BitPix::F32, &[4, 4]);
    assert!(matches!(r, Err(FitsError::UnsupportedCompression(_))));
}

#[test]
fn tile_shape_of_another_rank_is_refused() {
    let b = CompressedImageBuilder::new(BitPix::I16, &[4, 4]).unwrap();
    assert!(matches!(b.tile_shape(&[2]), Err(FitsError::Processing(_))));
}

#[test]
fn pixels_of_another_type_or_count_are_refused() {
    let b = CompressedImageBuilder::new(BitPix::I16, &[4, 3]).unwrap();
    assert!(matches!(b.pixels(&[0; 12], Some(32)), Err(FitsError::Processing(_))));
    let b = CompressedImageBuilder::new(BitPix::I16, &[4, 3]).unwrap();
    assert!(matches!(
        b.pixels(&[0; 11], Some(16)),
        Err(FitsError::BufferLenMismatch { expected: 12, got: 11 })
    ));
}

#[test]
fn serialize_without_pixels_is_refused() {
    let b = CompressedImageBuilder::new(BitPix::U8, &[2, 2]).unwrap();
    assert!(matches!(b.serialize(), Err(FitsError::Processing(_))));
}

#[test]
fn rice_rows_round_trip_through_the_tile_decoder() {
    let px: Vec<i64> = vec![1, -2, 300, 4, 5, 6, -7000, 8, 9, 10, 11, 12];
    let bytes = CompressedImageBuilder::new(BitPix::I16, &[4, 3])
        .unwrap()
        .pixels(&px, Some(16))
        .unwrap()
        .card("OBJECT", Value::String("M31".to_string()), None)
        .serialize()
        .unwrap();
    assert_eq!(bytes.len() % 2880, 0);
    let (header, tiles) = decode_all(&bytes, CmpType::Rice1, BitPix::I16, &[4, 4, 4]);
    assert_eq!(header.get_string("XTENSION"), Some("BINTABLE"));
    assert_eq!(header.get_string("TFORM1"), Some("1PB"));
    assert_eq!(header.get_bool("ZIMAGE"), Some(true));
    assert_eq!(header.get_string("ZCMPTYPE"), Some("RICE_1"));
    assert_eq!(header.get_i64("ZTILE1"), Some(4));
    assert_eq!(header.get_i64("ZTILE2"), Some(1));
    assert_eq!(header.get_i64("ZVAL1"), Some(32));
    assert_eq!(header.get_i64("ZVAL2"), Some(2));
    assert_eq!(header.get_string("EXTNAME"), Some("COMPRESSED_IMAGE"));
    assert_eq!(header.get_string("OBJECT"), Some("M31"));
    assert_eq!(tiles, vec![px[0..4].to_vec(), px[4..8].to_vec(), px[8..12].to_vec()]);
    let geom = CompressedGeometry::from_header(&header).unwrap();
    assert_eq!(geom.shape, vec![4, 3]);
}

#[test]
fn gzip_square_tiles_round_trip_through_the_tile_decoder() {
    let px: Vec<i64> = (0..12).map(|v| v * 10).collect();
    let bytes = CompressedImageBuilder::new(BitPix::U8, &[4, 3])
        .unwrap()
        .algorithm(CompAlgo::Gzip1)
        .tile_shape(&[2, 2])
        .unwrap()
        .pixels(&px, Some(8))
        .unwrap()
        .serialize()
        .unwrap();
    // Tiles of 2x2 over a 4x3 image: two full tiles, then two cut to one row.
    let (header, tiles) = decode_all(&bytes, CmpType::Gzip1, BitPix::U8, &[4, 4, 2, 2]);
    assert_eq!(header.get_string("ZCMPTYPE"), Some("GZIP_1"));
    assert_eq!(header.get("ZNAME1").is_none(), true);
    assert_eq!(tiles[0], vec![0, 10, 40, 50]);
    assert_eq!(tiles[1], vec![20, 30, 60, 70]);
    assert_eq!(tiles[2], vec![80, 90]);
    assert_eq!(tiles[3], vec![100, 110]);
}

#[test]
fn rice_of_64_bit_pixels_is_unsupported() {
    let r = CompressedImageBuilder::new(BitPix::I64, &[2])
        .unwrap()
        .pixels(&[1, 2], Some(64))
        .unwrap()
        .serialize();
    assert!(matches!(r, Err(FitsError::UnsupportedCompression(_))));
}
