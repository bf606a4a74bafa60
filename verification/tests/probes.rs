use turbomap_core::fb_probe::{at, band_ground_pixels, row_background_count, sky_holes};

const W: usize = 16;
const H: usize = 16;
const SKY: [u8; 4] = [120, 160, 220, 255];
const GROUND: [u8; 4] = [80, 120, 60, 255];

fn is_sky(px: [u8; 4]) -> bool {
    px[2] > px[1] && px[2] > 150
}

fn filled(top_sky_rows: usize) -> Vec<u8> {
    let mut img = vec![0u8; W * H * 4];
    for y in 0..H {
        for x in 0..W {
            let px = if y < top_sky_rows { SKY } else { GROUND };
            let i = (y * W + x) * 4;
            img[i..i + 4].copy_from_slice(&px);
        }
    }
    img
}

#[test]
fn sky_holes_detects_an_enclosed_gap_and_ignores_open_sky() {
    let mut img = filled(0);
    let (hx, hy) = (8, 8);
    let i = (hy * W + hx) * 4;
    img[i..i + 4].copy_from_slice(&SKY);
    assert_eq!(sky_holes(&img, W, H, 3, is_sky), 1, "enclosed gap = crack");

    let open = filled(H / 2);
    assert_eq!(sky_holes(&open, W, H, 3, is_sky), 0, "open sky is not a hole");
}

#[test]
fn a_gap_wider_than_the_reach_is_not_a_hole() {
    let mut img = filled(0);
    for x in 4..12 {
        let i = (8 * W + x) * 4;
        img[i..i + 4].copy_from_slice(&SKY);
    }
    // Each gap pixel has ground above and below; ground on both sides is
    // within reach only near the middle of the run once the reach grows.
    assert_eq!(sky_holes(&img, W, H, 2, is_sky), 0);
    assert_eq!(sky_holes(&img, W, H, 5, is_sky), 2);
    assert_eq!(sky_holes(&img, W, H, 8, is_sky), 8);
    assert_eq!(sky_holes(&img, W, H, 0, is_sky), 0);
    assert_eq!(sky_holes(&img, 0, H, 3, is_sky), 0);
}

#[test]
fn at_reads_the_four_bytes_of_a_pixel() {
    let img = filled(1);
    assert_eq!(at(&img, W, 3, 0), SKY);
    assert_eq!(at(&img, W, 3, 1), GROUND);
}

fn sky(px: [u8; 4]) -> bool {
    px == [0, 0, 0, 0]
}

/// A 3×4 frame: top row sky, second row half sky, bottom two rows ground.
fn banded_frame() -> Vec<u8> {
    let g = [90u8, 120, 60, 255];
    let s = [0u8, 0, 0, 0];
    let rows = [[s, s, s], [s, g, s], [g, g, g], [g, s, g]];
    rows.iter().flat_map(|r| r.iter().flat_map(|p| p.iter().copied())).collect()
}

#[test]
fn band_ground_counts_ground_in_the_lower_rows() {
    let f = banded_frame();
    assert_eq!(band_ground_pixels(&f, 3, 4, 2, sky), 5);
    assert_eq!(band_ground_pixels(&f, 3, 4, 1, sky), 6);
    assert_eq!(band_ground_pixels(&f, 3, 4, 0, sky), 6);
    assert_eq!(band_ground_pixels(&f, 3, 4, 4, sky), 0);
    assert_eq!(band_ground_pixels(&f, 3, 4, 9, sky), 0);
}

#[test]
fn row_background_count_counts_sky_per_row() {
    let f = banded_frame();
    assert_eq!(row_background_count(&f, 3, 4, 0, sky), 3);
    assert_eq!(row_background_count(&f, 3, 4, 1, sky), 2);
    assert_eq!(row_background_count(&f, 3, 4, 2, sky), 0);
    assert_eq!(row_background_count(&f, 3, 4, 3, sky), 1);
}

/// Ground coverage of the bottom half of the frame, from the library's count.
fn lower_half_coverage(img: &[u8]) -> f64 {
    let y0 = H / 2;
    band_ground_pixels(img, W, H, y0, is_sky) as f64 / ((H - y0) * W) as f64
}

#[test]
fn coverage_is_full_for_ground_and_zero_for_sky() {
    let all_ground = filled(0);
    assert!(lower_half_coverage(&all_ground) > 0.99);
    let all_sky = filled(H);
    assert!(lower_half_coverage(&all_sky) < 0.01);
}

#[test]
fn coverage_catches_a_sky_sliver_lower_band() {
    // Sky covers all but the bottom 2 rows → lower-half coverage is low.
    let sliver = filled(H - 2);
    let cov = lower_half_coverage(&sliver);
    assert!(cov < 0.3, "sky-sliver must read low coverage (got {cov})");
    assert_eq!(band_ground_pixels(&sliver, W, H, H / 2, is_sky), 2 * W);
}

#[test]
fn sky_holes_reads_nothing_when_there_is_nothing_to_scan() {
    // Degenerate inputs return 0 at once, whatever the buffer holds.
    let empty: [u8; 0] = [];
    assert_eq!(sky_holes(&empty, 16, 16, 0, is_sky), 0);
    assert_eq!(sky_holes(&empty, 0, 16, 3, is_sky), 0);
    assert_eq!(sky_holes(&empty, 16, 0, 3, is_sky), 0);
}

#[test]
fn a_longer_reach_finds_at_least_as_many_holes() {
    // A 3-wide sky gap inside ground: its middle pixel needs reach 2 to see
    // ground left and right; its edge pixels need reach 3 toward the far side.
    let mut img = filled(0);
    for hx in 6..9 {
        let i = (8 * W + hx) * 4;
        img[i..i + 4].copy_from_slice(&SKY);
    }
    let counts: Vec<usize> = (0..5).map(|r| sky_holes(&img, W, H, r, is_sky)).collect();
    assert_eq!(counts, vec![0, 0, 1, 3, 3]);
    assert!(counts.windows(2).all(|p| p[0] <= p[1]));
}
