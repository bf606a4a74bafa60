use turbomap_core::dem::{dem_coverage, DemEncoding};

#[test]
fn coverage_follows_the_alpha_threshold() {
    // 2×1 tile: first pixel covered (alpha 255), second "no data" (alpha 0).
    let rgba = [1u8, 2, 3, 255, 9, 9, 9, 0];
    assert_eq!(dem_coverage(&rgba, 2, 1), Some(vec![1, 0]));
}

#[test]
fn coverage_threshold_is_inclusive_at_128() {
    let rgba = [0u8, 0, 0, 127, 0, 0, 0, 128];
    assert_eq!(dem_coverage(&rgba, 1, 2), Some(vec![0, 1]));
}

#[test]
fn coverage_ignores_trailing_bytes() {
    let rgba = [0u8, 0, 0, 200, 7, 7];
    assert_eq!(dem_coverage(&rgba, 1, 1), Some(vec![1]));
}

#[test]
fn coverage_rejects_zero_dimensions() {
    let rgba = [0u8; 16];
    assert_eq!(dem_coverage(&rgba, 0, 4), None);
    assert_eq!(dem_coverage(&rgba, 4, 0), None);
}

#[test]
fn coverage_rejects_a_short_buffer() {
    let rgba = [0u8; 15];
    assert_eq!(dem_coverage(&rgba, 2, 2), None);
}

#[test]
fn coverage_rejects_dimensions_whose_byte_count_overflows() {
    let rgba = [0u8; 16];
    assert_eq!(dem_coverage(&rgba, u32::MAX, u32::MAX), None);
}

#[test]
fn dem_encodings_are_distinct() {
    assert_ne!(DemEncoding::MapboxRgb, DemEncoding::Terrarium);
}

#[test]
fn coverage_masks_nodata_and_rejects_malformed_tiles() {
    // 2×1: one real pixel, one no-data pixel: the coverage mask keeps the
    // first and masks the second for the hillshade overlay.
    let rgba = [0u8, 0, 1, 255, 10, 10, 10, 0];
    let c = dem_coverage(&rgba, 2, 1).unwrap();
    assert_eq!(c[0], 1);
    assert_eq!(c[1], 0, "no-data is masked for the hillshade overlay");
    // Malformed: buffer shorter than claimed; u32-overflow dimensions.
    assert!(dem_coverage(&rgba, 256, 256).is_none());
    assert!(dem_coverage(&rgba, 65536, 65536).is_none());
    assert!(dem_coverage(&rgba, 0, 4).is_none());
}
