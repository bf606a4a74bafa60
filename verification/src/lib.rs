//! Tile bookkeeping, frame-graph scheduling and coverage resolution for a
//! tiled map renderer, with their contracts proved by Verus.

pub mod tile;
pub mod resolve;
pub mod names;
pub mod graph;
pub mod fb_probe;
pub mod cache;
pub mod capacity;
pub mod error;
pub mod projection;
pub mod dem;
pub mod lod;
pub mod custom;
pub mod map;
pub mod markers;
pub mod batch;
pub mod layers;
