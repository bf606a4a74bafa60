//! Elevation encodings of RGB-packed DEM tiles.

use vstd::prelude::*;

verus! {

/// How a DEM tile packs elevation into RGB.
#[derive(Debug, Clone, Copy, PartialEq, Eq, Structural)]
pub enum DemEncoding {
    /// Mapbox / Maptiler Terrain-RGB: `h = -10000 + (R·256² + G·256 + B)·0.1`.
    MapboxRgb,
    /// Mapzen / AWS Terrarium: `h = R·256 + G + B/256 − 32768`.
    Terrarium,
}

/// The tile's dimensions are usable: nonzero, with a pixel and byte count
/// that fit in `usize`, and a buffer holding every pixel.
pub open spec fn dem_tile_well_formed(len: nat, width: nat, height: nat) -> bool {
    &&& width > 0
    &&& height > 0
    &&& width * height * 4 <= usize::MAX
    &&& width * height * 4 <= len
}

/// Per-pixel coverage of an RGBA DEM tile: 1 where the source had data
/// (alpha ≥ 128), 0 where it marked "no data". `None` for malformed inputs
/// (zero dimensions, or a buffer shorter than the claimed size, checked so
/// that huge claimed dimensions cannot wrap the byte count).
pub fn dem_coverage(rgba: &[u8], width: u32, height: u32) -> (r: Option<Vec<u8>>)
    ensures
        match r {
            None => !dem_tile_well_formed(rgba@.len(), width as nat, height as nat),
            Some(c) => {
                &&& dem_tile_well_formed(rgba@.len(), width as nat, height as nat)
                &&& c@.len() == width * height
                &&& forall|i: int|
                    0 <= i < c@.len() ==> #[trigger] c@[i] == if rgba@[4 * i + 3] >= 128 {
                        1u8
                    } else {
                        0u8
                    }
            },
        },
{
    let px = match (width as usize).checked_mul(height as usize) {
        Some(p) => p,
        None => {
            proof {
                assert(width as nat * height as nat * 4 >= width as nat * height as nat)
                    by (nonlinear_arith);
            }
            return None;
        },
    };
    let required = match px.checked_mul(4) {
        Some(q) => q,
        None => return None,
    };
    if width == 0 || height == 0 || rgba.len() < required {
        return None;
    }
    let mut coverage: Vec<u8> = Vec::new();
    let mut i: usize = 0;
    while i < px
        invariant
            px == width * height,
            required == px * 4,
            required <= rgba@.len(),
            i <= px,
            coverage@.len() == i,
            forall|k: int|
                0 <= k < i ==> #[trigger] coverage@[k] == if rgba@[4 * k + 3] >= 128 {
                    1u8
                } else {
                    0u8
                },
        decreases px - i,
    {
        let j = i * 4;
        if rgba[j + 3] >= 128 {
            coverage.push(1);
        } else {
            coverage.push(0);
        }
        i = i + 1;
    }
    Some(coverage)
}

} // verus!
