//! Tile working-set capacity governor: the tile-selection caps and the
//! cache budget in one place, with the proof that the largest possible
//! desired set fits the cache with headroom (so the least-recently-used
//! cache can never evict a still-wanted tile).

use vstd::prelude::*;

verus! {

/// Max tiles the pitched mixed-level selector emits.
pub const LOD_TILE_CAP: usize = 220;

/// Max tiles a single flat footprint rectangle emits.
pub const RECT_TILE_CAP: usize = 160;

/// Zoom levels below the visible set kept resident as the coarse backdrop.
pub const OVERVIEW_DEPTH: u8 = 3;

/// Declared ceiling on the desired set for any camera: the larger of the two
/// visible-selection caps plus one overview backdrop rectangle (see
/// [`lemma_desired_ceiling`]).
pub const MAX_DESIRED_TILES: usize = LOD_TILE_CAP + RECT_TILE_CAP;

/// Conservative per-tile GPU footprint (decoded RGBA plus a full mip chain).
pub const CONSERVATIVE_TILE_BYTES: usize = 512 * 1024;

/// Default per-layer GPU texture cache budget.
pub const CACHE_BUDGET_BYTES: usize = 512 * 1024 * 1024;

/// Tiles the cache is guaranteed to hold, even at the conservative tile size.
pub const CACHE_TILE_FLOOR: usize = CACHE_BUDGET_BYTES / CONSERVATIVE_TILE_BYTES;

/// The desired-set ceiling is the larger visible cap plus one overview
/// rectangle.
pub proof fn lemma_desired_ceiling()
    ensures
        MAX_DESIRED_TILES == (if LOD_TILE_CAP > RECT_TILE_CAP {
            LOD_TILE_CAP
        } else {
            RECT_TILE_CAP
        }) + RECT_TILE_CAP,
{
}

/// The cache holds at least twice the largest possible desired set, even at
/// the pessimistic tile size.
pub proof fn lemma_working_set_fits_cache()
    ensures
        MAX_DESIRED_TILES * 2 <= CACHE_TILE_FLOOR,
{
    assert(CACHE_TILE_FLOOR == 1024);
}

} // verus!
