//! Coordinate reference systems the renderer can translate to and from the
//! shared map frame.

use vstd::prelude::*;

verus! {

/// A coordinate reference system. The hub is WGS84 lat/lng; planar systems
/// carry `(easting, northing)` in metres, geographic ones `(lng, lat)` in
/// degrees.
#[derive(Debug, Clone, Copy, PartialEq, Eq, Structural)]
pub enum Crs {
    /// WGS84 geographic coordinates (EPSG:4326).
    Wgs84,
    /// ETRS89 / UTM zone 32N (EPSG:25832), central meridian 9°E.
    Utm32N,
    /// ETRS89 / UTM zone 33N (EPSG:25833), central meridian 15°E.
    Utm33N,
}

impl Crs {
    /// The UTM zone number for the UTM variants (`None` for geographic CRS).
    pub fn utm_zone(self) -> (z: Option<u32>)
        ensures
            z == match self {
                Crs::Wgs84 => None,
                Crs::Utm32N => Some(32u32),
                Crs::Utm33N => Some(33u32),
            },
    {
        match self {
            Crs::Wgs84 => None,
            Crs::Utm32N => Some(32),
            Crs::Utm33N => Some(33),
        }
    }
}

} // verus!
