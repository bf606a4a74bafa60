use turbomap_core::capacity::{
    CACHE_BUDGET_BYTES, CACHE_TILE_FLOOR, CONSERVATIVE_TILE_BYTES, LOD_TILE_CAP, MAX_DESIRED_TILES,
    RECT_TILE_CAP,
};
use turbomap_core::error::{MapError, TileError};
use std::time::Duration;
use turbomap_core::graph::{FramePhase, PassTiming};
use turbomap_core::map::{FrameMetrics, PendingTile};
use turbomap_core::projection::Crs;
use turbomap_core::tile::TileId;

#[test]
fn the_desired_ceiling_fits_the_cache_with_headroom() {
    assert!(
        MAX_DESIRED_TILES * 2 <= CACHE_TILE_FLOOR,
        "max desired {MAX_DESIRED_TILES} tiles needs ≥{} cache slots (2× headroom); \
         conservative floor is only {CACHE_TILE_FLOOR}",
        MAX_DESIRED_TILES * 2,
    );
}

#[test]
fn capacity_constants_keep_their_values() {
    assert_eq!(MAX_DESIRED_TILES, LOD_TILE_CAP.max(RECT_TILE_CAP) + RECT_TILE_CAP);
    assert_eq!(MAX_DESIRED_TILES, 380);
    assert_eq!(CACHE_TILE_FLOOR, CACHE_BUDGET_BYTES / CONSERVATIVE_TILE_BYTES);
    assert_eq!(CACHE_TILE_FLOOR, 1024);
}

#[test]
fn pending_tile_carries_layer_id_for_routing() {
    let raster_pt = PendingTile::Raster {
        layer_id: "basemap".into(),
        tile: TileId::new(5, 0, 0),
    };
    let vector_pt = PendingTile::Vector {
        layer_id: "overlay".into(),
        tile: TileId::new(11, 1054, 590),
    };
    match raster_pt {
        PendingTile::Raster { layer_id, tile } => {
            assert_eq!(layer_id, "basemap");
            assert_eq!(tile.z, 5);
        }
        _ => panic!("expected raster variant"),
    }
    match vector_pt {
        PendingTile::Vector { layer_id, tile } => {
            assert_eq!(layer_id, "overlay");
            assert_eq!(tile.z, 11);
        }
        _ => panic!("expected vector variant"),
    }
}

#[test]
fn utm_zones_of_the_supported_crs() {
    assert_eq!(Crs::Wgs84.utm_zone(), None);
    assert_eq!(Crs::Utm32N.utm_zone(), Some(32));
    assert_eq!(Crs::Utm33N.utm_zone(), Some(33));
}

#[test]
fn error_messages_match_their_display_text() {
    assert_eq!(MapError::Wgpu("lost".into()).message(), "wgpu: lost");
    assert_eq!(TileError::Network("timeout".into()).message(), "network: timeout");
    assert_eq!(TileError::Decode("bad png".into()).message(), "decode: bad png");
    assert_eq!(
        TileError::ZoomOutOfRange(17).message(),
        "zoom 17 is outside the source's supported range"
    );
    assert_eq!(TileError::ZoomOutOfRange(0).message(), "zoom 0 is outside the source's supported range");
    assert_eq!(TileError::ZoomOutOfRange(255).message(), "zoom 255 is outside the source's supported range");
}

#[test]
fn frame_metrics_default_is_an_empty_frame_and_clones_field_by_field() {
    let m = FrameMetrics::default();
    assert!(!m.frame_dropped);
    assert_eq!(m.cpu_time, Duration::ZERO);
    assert_eq!(m.phases.prepare, Duration::ZERO);
    assert_eq!(m.gpu_time, None);
    assert_eq!((m.layer_count, m.marker_count, m.visible_layers, m.draw_calls, m.tiles_drawn), (0, 0, 0, 0, 0));
    assert!(m.passes.is_empty() && m.gpu_passes.is_empty() && m.layers.is_empty());

    let mut m = m;
    m.draw_calls = 7;
    m.passes.push(PassTiming {
        label: "sky".to_string(),
        phase: FramePhase::GroundMsaa,
        cpu: Duration::from_micros(40),
        skipped: false,
    });
    m.gpu_passes.push(("frame-pass".to_string(), Duration::from_micros(900)));
    let c = m.clone();
    assert_eq!(c.draw_calls, 7);
    assert_eq!(c.passes[0].label, "sky");
    assert_eq!(c.passes[0].cpu, Duration::from_micros(40));
    assert_eq!(c.gpu_passes, m.gpu_passes);
}
