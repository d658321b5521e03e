use std::io::Write;

use photonyx::compress::{tiles_per_axis, CmpType, CompAlgo};
use photonyx::header::BitPix;
use photonyx::tile::{
    be_ints, compress_tile, decode_tile_bytes, gunzip_to_ints, region_slots, tile_geometry,
    tile_pixel_positions, tile_pixels, tiles_intersecting, unshuffle,
};

fn gz(raw: &[u8]) -> Vec<u8> {
    let mut e = flate2::write::GzEncoder::new(Vec::new(), flate2::Compression::default());
    e.write_all(raw).unwrap();
    e.finish().unwrap()
}

#[test]
fn tile_geometry_cuts_edge_tiles() {
    let shape = vec![10usize, 7];
    let tiles = vec![4usize, 3];
    let tpa = tiles_per_axis(&shape, &tiles);
    assert_eq!(tpa, vec![3, 3]);
    let g = tile_geometry(&shape, &tiles, &tpa, 0);
    assert_eq!((g.origin.clone(), g.dims.clone(), g.pixels), (vec![0, 0], vec![4, 3], 12));
    let g = tile_geometry(&shape, &tiles, &tpa, 2);
    assert_eq!((g.origin.clone(), g.dims.clone(), g.pixels), (vec![8, 0], vec![2, 3], 6));
    let g = tile_geometry(&shape, &tiles, &tpa, 8);
    assert_eq!((g.origin.clone(), g.dims.clone(), g.pixels), (vec![8, 6], vec![2, 1], 2));
}

#[test]
fn tile_positions_and_gather_follow_axis0_fastest() {
    let shape = vec![5usize, 4];
    let tiles = vec![2usize, 2];
    let tpa = tiles_per_axis(&shape, &tiles);
    let g = tile_geometry(&shape, &tiles, &tpa, 4); // coords (1, 1)
    assert_eq!(g.origin, vec![2, 2]);
    let pos = tile_pixel_positions(&g, &shape);
    assert_eq!(pos, vec![12, 13, 17, 18]);
    let pixels: Vec<i64> = (0..20).map(|v| v * 10).collect();
    assert_eq!(tile_pixels(&pixels, &g, &shape), vec![120, 130, 170, 180]);
}

#[test]
fn tiles_intersecting_lists_overlapping_tiles_in_order() {
    let shape = vec![10usize, 10];
    let tiles = vec![4usize, 4];
    let tpa = tiles_per_axis(&shape, &tiles);
    assert_eq!(tiles_intersecting(&shape, &tiles, &tpa, &[3, 3], &[2, 6]), vec![0, 1, 3, 4, 6, 7]);
    assert_eq!(tiles_intersecting(&shape, &tiles, &tpa, &[9, 0], &[1, 1]), vec![2]);
    assert_eq!(tiles_intersecting(&shape, &tiles, &tpa, &[0, 0], &[10, 10]).len(), 9);
}

#[test]
fn region_slots_place_tile_elements_in_the_region() {
    let shape = vec![4usize, 4];
    let tiles = vec![2usize, 2];
    let tpa = tiles_per_axis(&shape, &tiles);
    let g = tile_geometry(&shape, &tiles, &tpa, 3); // origin (2, 2)
    let slots = region_slots(&g, &[1, 1], &[2, 2]);
    assert_eq!(slots, vec![Some(3), None, None, None]);
}

#[test]
fn be_ints_reads_each_width() {
    assert_eq!(be_ints(&[0xff, 0x01, 0x02], 2, BitPix::U8), vec![255, 1]);
    assert_eq!(be_ints(&[0xff, 0xfe, 0x01, 0x00, 0x7f], 5, BitPix::I16), vec![-2, 256]);
    assert_eq!(be_ints(&[0x80, 0, 0, 0], 1, BitPix::I32), vec![i32::MIN as i64]);
    assert_eq!(be_ints(&[0xff; 8], 1, BitPix::I64), vec![-1]);
}

#[test]
fn unshuffle_interleaves_byte_planes() {
    assert_eq!(unshuffle(&[1, 2, 3, 10, 20, 30], 3, 2), vec![1, 10, 2, 20, 3, 30]);
}

#[test]
fn gzip_tiles_decode_plain_and_shuffled() {
    let plain = gz(&[0x00, 0x05, 0xff, 0xfb]);
    assert_eq!(gunzip_to_ints(&plain, 2, false, BitPix::I16).unwrap(), vec![5, -5]);
    let shuffled = gz(&[0x00, 0xff, 0x05, 0xfb]);
    assert_eq!(gunzip_to_ints(&shuffled, 2, true, BitPix::I16).unwrap(), vec![5, -5]);
    assert!(gunzip_to_ints(&plain, 3, false, BitPix::I16).is_err());
    assert!(gunzip_to_ints(b"not gzip", 1, false, BitPix::U8).is_err());
}

#[test]
fn decode_tile_bytes_dispatches_and_falls_back() {
    let raw = [0u8, 1, 0, 2];
    assert_eq!(decode_tile_bytes(CmpType::NoCompress, &raw, &[], &[], 2, BitPix::I16, 2, 32).unwrap(), vec![1, 2]);
    let g = gz(&raw);
    assert_eq!(decode_tile_bytes(CmpType::Rice1, &[], &g, &[], 2, BitPix::I16, 2, 32).unwrap(), vec![1, 2]);
    assert_eq!(decode_tile_bytes(CmpType::Rice1, &[], &[], &raw, 2, BitPix::I16, 2, 32).unwrap(), vec![1, 2]);
    assert_eq!(decode_tile_bytes(CmpType::Gzip1, &g, &[], &[], 2, BitPix::I16, 2, 32).unwrap(), vec![1, 2]);
}

#[test]
fn compressed_tiles_roundtrip_for_both_algorithms() {
    let px: Vec<i64> = vec![0, 1, -1, 300, -32768, 32767, 7, 7, 7];
    for algo in [CompAlgo::Rice1, CompAlgo::Gzip1] {
        let z = compress_tile(algo, &px, 2, 32).unwrap();
        let ct = if algo == CompAlgo::Rice1 { CmpType::Rice1 } else { CmpType::Gzip1 };
        assert_eq!(decode_tile_bytes(ct, &z, &[], &[], px.len(), BitPix::I16, 2, 32).unwrap(), px);
    }
    let z = compress_tile(CompAlgo::Gzip1, &px, 2, 32).unwrap();
    assert_eq!(&z[..2], &[0x1f, 0x8b]);
}
