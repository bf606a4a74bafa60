//! Tiles chosen by the level-of-detail walk.

use vstd::prelude::*;
use crate::tile::TileId;

verus! {

/// One tile chosen by the level-of-detail walk.
#[derive(Debug, Clone, Copy, PartialEq, Eq, Structural, Hash)]
pub struct LodTile {
    pub id: TileId,
}

} // verus!
