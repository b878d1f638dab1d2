//! Administrative-region resolution for geocoding data: a store of
//! administrative regions, a spatial index over their boundaries, the
//! reconciliation of spatial hits with an authoritative region code, and the
//! extraction of regions from raw boundary relations.

pub mod admin;
pub mod admin_geofinder;
pub mod bano;
pub mod boundary;
pub mod coord;
pub mod osm;
pub mod resolver;
pub mod text;
