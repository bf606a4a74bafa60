//! Value types of the map facade: marker ids, pending tile requests and
//! per-frame metrics.

use vstd::prelude::*;
use std::time::Duration;
use crate::tile::TileId;
use crate::cache::CacheStats;
use crate::graph::{zero_duration, PassTiming};

verus! {

/// Identity of a marker. `MarkerId(0)` asks for an automatically assigned
/// id.
#[derive(Debug, Clone, Copy, PartialEq, Eq, Structural, Hash, PartialOrd, Ord)]
pub struct MarkerId(pub u64);

/// One pending tile request; the host routes it back by `layer_id`.
#[derive(Debug, Clone)]
pub enum PendingTile {
    Raster { layer_id: String, tile: TileId },
    Vector { layer_id: String, tile: TileId },
    /// A DEM tile fetched for a hillshade layer.
    Hillshade { layer_id: String, tile: TileId },
    /// A DEM tile for the shared terrain heightmap (map-level).
    Terrain { tile: TileId },
}

#[derive(Debug, Clone, Copy, PartialEq, Eq, Structural)]
pub enum LayerKind {
    Raster,
    Vector,
    Hillshade,
    Custom,
}

#[derive(Debug, Clone)]
pub struct LayerMetrics {
    pub id: String,
    pub kind: LayerKind,
    pub cache: CacheStats,
}

/// CPU wall-time of each render phase.
#[derive(Debug, Clone, Copy)]
pub struct PhaseTimings {
    pub prepare: Duration,
    pub pass: Duration,
    pub clouds: Duration,
    pub shadow_assemble: Duration,
}

impl Default for PhaseTimings {
    /// Every phase at zero time.
    fn default() -> (t: PhaseTimings) {
        PhaseTimings {
            prepare: zero_duration(),
            pass: zero_duration(),
            clouds: zero_duration(),
            shadow_assemble: zero_duration(),
        }
    }
}

/// What one rendered frame cost and contained.
#[derive(Debug)]
pub struct FrameMetrics {
    pub cpu_time: Duration,
    /// The renderer rejected this frame (a non-finite camera) and did not
    /// encode it; the previous surface stays on screen.
    pub frame_dropped: bool,
    /// Per-phase CPU breakdown of `cpu_time`.
    pub phases: PhaseTimings,
    /// GPU time of the most recent completed frame's passes; `None` without
    /// timestamp queries or before the first readback.
    pub gpu_time: Option<Duration>,
    pub layer_count: usize,
    pub marker_count: usize,
    /// Layers drawn (visible) this frame.
    pub visible_layers: usize,
    pub draw_calls: usize,
    pub tiles_drawn: usize,
    /// The frame graph's pass report, in execution order.
    pub passes: Vec<PassTiming>,
    /// GPU time per encoder-level scope.
    pub gpu_passes: Vec<(String, Duration)>,
    pub layers: Vec<LayerMetrics>,
}

impl Default for FrameMetrics {
    /// An empty frame: nothing dropped, drawn or counted.
    fn default() -> (m: FrameMetrics)
        ensures
            !m.frame_dropped,
            m.gpu_time is None,
            m.layer_count == 0,
            m.marker_count == 0,
            m.visible_layers == 0,
            m.draw_calls == 0,
            m.tiles_drawn == 0,
            m.passes@.len() == 0,
            m.gpu_passes@.len() == 0,
            m.layers@.len() == 0,
    {
        FrameMetrics {
            cpu_time: zero_duration(),
            frame_dropped: false,
            phases: PhaseTimings::default(),
            gpu_time: None,
            layer_count: 0,
            marker_count: 0,
            visible_layers: 0,
            draw_calls: 0,
            tiles_drawn: 0,
            passes: Vec::new(),
            gpu_passes: Vec::new(),
            layers: Vec::new(),
        }
    }
}

impl Clone for FrameMetrics {
    fn clone(&self) -> (c: FrameMetrics)
        ensures
            c.cpu_time == self.cpu_time,
            c.frame_dropped == self.frame_dropped,
            c.phases == self.phases,
            c.gpu_time == self.gpu_time,
            c.layer_count == self.layer_count,
            c.marker_count == self.marker_count,
            c.visible_layers == self.visible_layers,
            c.draw_calls == self.draw_calls,
            c.tiles_drawn == self.tiles_drawn,
            c.passes@.len() == self.passes@.len(),
            forall|i: int|
                0 <= i < c.passes@.len() ==> (#[trigger] c.passes@[i]).label@ == self.passes@[i].label@
                    && c.passes@[i].phase == self.passes@[i].phase && c.passes@[i].cpu
                    == self.passes@[i].cpu && c.passes@[i].skipped == self.passes@[i].skipped,
            c.gpu_passes@.len() == self.gpu_passes@.len(),
            forall|i: int|
                0 <= i < c.gpu_passes@.len() ==> (#[trigger] c.gpu_passes@[i]).0@ == self.gpu_passes@[i].0@
                    && c.gpu_passes@[i].1 == self.gpu_passes@[i].1,
            c.layers@.len() == self.layers@.len(),
    {
        let mut passes: Vec<PassTiming> = Vec::new();
        let mut i: usize = 0;
        while i < self.passes.len()
            invariant
                i <= self.passes@.len(),
                passes@.len() == i,
                forall|k: int|
                    0 <= k < i ==> (#[trigger] passes@[k]).label@ == self.passes@[k].label@
                        && passes@[k].phase == self.passes@[k].phase && passes@[k].cpu
                        == self.passes@[k].cpu && passes@[k].skipped == self.passes@[k].skipped,
            decreases self.passes.len() - i,
        {
            passes.push(self.passes[i].clone());
            i = i + 1;
        }
        let mut gpu_passes: Vec<(String, Duration)> = Vec::new();
        let mut j: usize = 0;
        while j < self.gpu_passes.len()
            invariant
                j <= self.gpu_passes@.len(),
                gpu_passes@.len() == j,
                forall|k: int|
                    0 <= k < j ==> (#[trigger] gpu_passes@[k]).0@ == self.gpu_passes@[k].0@
                        && gpu_passes@[k].1 == self.gpu_passes@[k].1,
            decreases self.gpu_passes.len() - j,
        {
            let scope = &self.gpu_passes[j];
            gpu_passes.push((scope.0.clone(), scope.1));
            j = j + 1;
        }
        let mut layers: Vec<LayerMetrics> = Vec::new();
        let mut l: usize = 0;
        while l < self.layers.len()
            invariant
                l <= self.layers@.len(),
                layers@.len() == l,
            decreases self.layers.len() - l,
        {
            layers.push(self.layers[l].clone());
            l = l + 1;
        }
        FrameMetrics {
            cpu_time: self.cpu_time,
            frame_dropped: self.frame_dropped,
            phases: self.phases,
            gpu_time: self.gpu_time,
            layer_count: self.layer_count,
            marker_count: self.marker_count,
            visible_layers: self.visible_layers,
            draw_calls: self.draw_calls,
            tiles_drawn: self.tiles_drawn,
            passes,
            gpu_passes,
            layers,
        }
    }
}

} // verus!
