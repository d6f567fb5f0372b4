use std::io::Write;

use roaring::RoaringTreemap;
use weather_routing::mask::{LandMask, MaskError, NX};
use weather_routing::models::Coordinate;

const M: i64 = 1_000_000;

#[test]
fn new_mask_has_no_land() {
    let mask = LandMask::new();
    assert!(!mask.is_land(&Coordinate::new(48_856_600, 2_352_200)));
    assert!(!mask.is_land(&Coordinate::new(0, 0)));
}

#[test]
fn land_box_marks_the_pixels_it_touches() {
    let mut mask = LandMask::new();
    mask.add_land_box(2 * M, 3 * M, 48 * M, 49 * M);
    assert!(mask.is_land(&Coordinate::new(48_856_600, 2_352_200)));
    assert!(mask.is_land(&Coordinate::new(49 * M, 3 * M)));
    assert!(mask.is_land(&Coordinate::new(49_004_000, 3_004_000)));
    assert!(!mask.is_land(&Coordinate::new(49_005_000, 2_500_000)));
    assert!(!mask.is_land(&Coordinate::new(40 * M, -30 * M)));
}

#[test]
fn land_box_marks_the_expected_indices() {
    let mut mask = LandMask::new();
    // one pixel: column 43200 + 240 = 43440, row 21600 + 240 = 21840
    mask.add_land_box(1 * M, 1 * M, 1 * M, 1 * M);
    assert!(mask.mask.contains(21840 * NX + 43440));
    assert_eq!(mask.mask.len(), 1);
}

#[test]
fn positions_off_the_grid_are_clamped() {
    let mut mask = LandMask::new();
    mask.add_land_box(179_999_000, 179_999_000, 89_999_000, 89_999_000);
    assert!(mask.is_land(&Coordinate::new(95 * M, 200 * M)));
    let mut south = LandMask::new();
    south.add_land_box(-180 * M, -180 * M, -90 * M, -90 * M);
    assert!(south.is_land(&Coordinate::new(-100 * M, -400 * M)));
}

#[test]
fn inverted_box_adds_nothing() {
    let mut mask = LandMask::new();
    mask.add_land_box(3 * M, 2 * M, 48 * M, 49 * M);
    assert_eq!(mask.mask.len(), 0);
}

#[test]
fn mask_loads_from_compressed_treemap() {
    let mut t = RoaringTreemap::new();
    // Paris's pixel: column 43764, row 33325.
    t.insert(33325 * NX + 43764);
    let mut raw = Vec::new();
    t.serialize_into(&mut raw).unwrap();
    let mut enc = xz2::write::XzEncoder::new(Vec::new(), 6);
    enc.write_all(&raw).unwrap();
    let compressed = enc.finish().unwrap();
    let mask = LandMask::load(&compressed).unwrap();
    assert!(mask.is_land(&Coordinate::new(48_856_600, 2_352_200)));
    assert!(!mask.is_land(&Coordinate::new(40 * M, -30 * M)));
}

#[test]
fn corrupt_mask_is_refused() {
    assert_eq!(LandMask::load(b"not an xz stream").err(), Some(MaskError::Corrupt));
}
